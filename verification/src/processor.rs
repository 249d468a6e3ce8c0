//! The expansion engine: walks the item tree, maintains the symbol table,
//! resolves includes through the loader, substitutes identifiers with a
//! bounded recursion depth, and renders the final string.
//!
//! Formatting places a single space between adjacent tokens, except next to
//! a newline; newlines are the only vertical separator. A `Word` naming a
//! defined symbol is replaced by its re-lexed, recursively formatted body;
//! each substitution consumes one unit of a depth budget of
//! [`FORMAT_MAX_DEPTH`], the only defense against cyclic `#define` chains.
//!
//! The function [`spec_process`] is the mathematical model; [`process`] is
//! the executable entry point, verified to return exactly that model's
//! result.

use vstd::prelude::*;
use vstd::string::{StringExecFns, StrSliceExecFns};

use crate::error::{Error, ErrorView};
use crate::lexer::{spec_tokenize, token_image, token_views, tokenize, Token, TokenView};
use crate::loader::FileLoader;
use crate::parser::{item_view, items_view, parse, spec_parse, Item, ItemView};
use crate::table::{opt_str_view, SymbolTable};

verus! {

broadcast use vstd::string::group_string_axioms;

/// How many nested macro substitutions are allowed before
/// [`Error::MaxRecursionDepthReached`].
pub const FORMAT_MAX_DEPTH: u32 = 100;

/// How many nested includes are allowed before
/// [`Error::MaxRecursionDepthReached`].
pub const INCLUDE_MAX_DEPTH: u32 = 100;

/// The spec-level symbol table.
pub type TableView = Map<Seq<char>, Option<Seq<char>>>;

/// The spec-level loader.
pub type LoaderView = spec_fn(Seq<char>) -> Option<Seq<char>>;

/// The model of an executable loader.
pub open spec fn loader_model<L: FileLoader>(file_loader: &L) -> LoaderView {
    |p: Seq<char>| file_loader.spec_load(p)
}

/// The body text of a definition: a blank body reads as the empty string.
pub open spec fn body_text(v: Option<Seq<char>>) -> Seq<char> {
    match v {
        Some(s) => s,
        None => Seq::empty(),
    }
}

/// The separator between two adjacent tokens: one space, or nothing next to
/// a newline.
pub open spec fn spec_sep(prev: TokenView, cur: TokenView) -> Seq<char> {
    if prev is Newline || cur is Newline {
        Seq::empty()
    } else {
        seq![' ']
    }
}

/// What emitting the word `w` produces: the word itself, unless it names a
/// defined symbol, whose body is then re-lexed and recursively formatted.
/// Each substitution costs one unit of `depth`.
pub open spec fn spec_emit_word(w: Seq<char>, table: TableView, depth: nat) -> Result<
    Seq<char>,
    ErrorView,
>
    decreases depth, 0int, 0int,
{
    if table.contains_key(w) {
        if depth == 0 {
            Err(ErrorView::MaxRecursionDepthReached)
        } else {
            match spec_tokenize(body_text(table[w])) {
                None => Err(ErrorView::LexingError),
                Some(ts) => spec_format(ts, 0, table, (depth - 1) as nat),
            }
        }
    } else {
        Ok(w)
    }
}

/// What emitting one token produces: its image, with substitution for
/// words.
pub open spec fn spec_emit(t: TokenView, table: TableView, depth: nat) -> Result<
    Seq<char>,
    ErrorView,
>
    decreases depth, 0int, 1int,
{
    match t {
        TokenView::Word(w) => spec_emit_word(w, table, depth),
        _ => Ok(token_image(t)),
    }
}

/// The formatted output of the token run from position `i` on.
pub open spec fn spec_format(ts: Seq<TokenView>, i: int, table: TableView, depth: nat) -> Result<
    Seq<char>,
    ErrorView,
>
    decreases depth, 1int, ts.len() - i,
{
    if i < 0 || i >= ts.len() {
        Ok(Seq::empty())
    } else {
        let sep = if i == 0 {
            Seq::<char>::empty()
        } else {
            spec_sep(ts[i - 1], ts[i])
        };
        match spec_emit(ts[i], table, depth) {
            Err(e) => Err(e),
            Ok(piece) => match spec_format(ts, i + 1, table, depth) {
                Err(e) => Err(e),
                Ok(rest) => Ok(sep + piece + rest),
            },
        }
    }
}

/// What rendering one item produces: output text and the updated symbol
/// table. `fuel` bounds the nesting of includes.
pub open spec fn spec_process_item(
    it: ItemView,
    table: TableView,
    loader: LoaderView,
    fuel: nat,
) -> Result<(Seq<char>, TableView), ErrorView>
    decreases fuel, it, 0int,
{
    match it {
        ItemView::Text(ts) => match spec_format(ts, 0, table, FORMAT_MAX_DEPTH as nat) {
            Err(e) => Err(e),
            Ok(txt) => Ok((txt, table)),
        },
        ItemView::Define(name, body) => match spec_format(
            body,
            0,
            table,
            FORMAT_MAX_DEPTH as nat,
        ) {
            Err(e) => Err(e),
            Ok(val) => Ok((Seq::empty(), table.insert(name, Some(val)))),
        },
        ItemView::Undefine(name) => Ok((Seq::empty(), table.remove(name))),
        ItemView::Include(path) => match loader(path) {
            None => Err(ErrorView::CantOpenFile),
            Some(contents) => match spec_tokenize(contents) {
                None => Err(ErrorView::LexingError),
                Some(ts) => match spec_parse(ts) {
                    Err(pe) => Err(ErrorView::ParsingError(pe)),
                    Ok(sub) => {
                        if fuel == 0 {
                            Err(ErrorView::MaxRecursionDepthReached)
                        } else {
                            spec_process_items(sub, 0, table, loader, (fuel - 1) as nat)
                        }
                    },
                },
            },
        },
        ItemView::Conditional { define_name, defined, not_defined } => {
            proof {
                assert(decreases_to!(it => defined));
                assert(decreases_to!(it => not_defined));
            }
            if table.contains_key(define_name) {
                spec_process_items(defined, 0, table, loader, fuel)
            } else {
                spec_process_items(not_defined, 0, table, loader, fuel)
            }
        },
    }
}

/// What rendering the items from position `i` on produces, in document
/// order, each item seeing the table its predecessors left.
pub open spec fn spec_process_items(
    items: Seq<ItemView>,
    i: int,
    table: TableView,
    loader: LoaderView,
    fuel: nat,
) -> Result<(Seq<char>, TableView), ErrorView>
    decreases fuel, items, items.len() - i,
{
    if i < 0 || i >= items.len() {
        Ok((Seq::empty(), table))
    } else {
        match spec_process_item(items[i], table, loader, fuel) {
            Err(e) => Err(e),
            Ok(r) => match spec_process_items(items, i + 1, r.1, loader, fuel) {
                Err(e) => Err(e),
                Ok(rest) => Ok((r.0 + rest.0, rest.1)),
            },
        }
    }
}

/// The canonical call: lex, parse, then render with the given symbol table
/// and loader.
pub open spec fn spec_process(code: Seq<char>, table: TableView, loader: LoaderView) -> Result<
    Seq<char>,
    ErrorView,
> {
    match spec_tokenize(code) {
        None => Err(ErrorView::LexingError),
        Some(ts) => match spec_parse(ts) {
            Err(pe) => Err(ErrorView::ParsingError(pe)),
            Ok(items) => match spec_process_items(
                items,
                0,
                table,
                loader,
                INCLUDE_MAX_DEPTH as nat,
            ) {
                Err(e) => Err(e),
                Ok(r) => Ok(r.0),
            },
        },
    }
}

/// Spec-level image of a [`Define`].
pub struct DefineView {
    pub name: Seq<char>,
    pub value: Option<Seq<char>>,
}

/// An initial symbol definition handed to [`process`].
pub struct Define {
    name: String,
    value: Option<String>,
}

impl View for Define {
    type V = DefineView;

    closed spec fn view(&self) -> DefineView {
        DefineView { name: self.name@, value: opt_str_view(self.value) }
    }
}

impl Define {
    /// A definition of `name` with the body `value`; the body is lexed when
    /// the symbol is used.
    pub fn new(name: &str, value: &str) -> (d: Define)
        ensures
            d@.name == name@,
            d@.value == Some(value@),
    {
        Define { name: name.to_owned(), value: Some(value.to_owned()) }
    }
}

/// The views of a definition sequence.
pub open spec fn define_views(ds: Seq<Define>) -> Seq<DefineView> {
    ds.map(|k: int, d: Define| d@)
}

/// The symbol table seeded from initial definitions, in order; a later
/// definition of the same name wins.
pub open spec fn table_of(ds: Seq<DefineView>) -> TableView
    decreases ds.len(),
{
    if ds.len() == 0 {
        Map::empty()
    } else {
        table_of(ds.drop_last()).insert(ds.last().name, ds.last().value)
    }
}

} // verus!

// The executable engine, verified against the spec functions above.
verus! {

/// Structural size of one item, the termination measure of the render
/// loop's recursion into conditional branches.
pub open spec fn item_size(it: Item) -> nat
    decreases it,
{
    match it {
        Item::Conditional { define_name, defined, not_defined } => {
            proof {
                assert(decreases_to!(it => defined));
                assert(decreases_to!(it => not_defined));
            }
            1 + items_size(defined@) + items_size(not_defined@)
        },
        _ => 1,
    }
}

/// Structural size of an item sequence.
pub open spec fn items_size(s: Seq<Item>) -> nat
    decreases s,
{
    if s.len() == 0 {
        0
    } else {
        item_size(s[0]) + items_size(s.drop_first())
    }
}

proof fn lemma_items_size_element(s: Seq<Item>, k: int)
    requires
        0 <= k < s.len(),
    ensures
        item_size(s[k]) <= items_size(s),
    decreases s.len(),
{
    if k > 0 {
        lemma_items_size_element(s.drop_first(), k - 1);
    }
}

/// Appends the word `w` to `dest_str`, substituting it by its re-lexed and
/// recursively formatted body when it names a defined symbol;
/// `recursion_depth_left` bounds the substitution nesting.
pub fn push_word_to_string(
    dest_str: &mut String,
    word: &str,
    recursion_depth_left: u32,
    defines: &SymbolTable,
) -> (r: Result<(), Error>)
    requires
        defines.wf(),
    ensures
        ({
            let sr = spec_emit_word(word@, defines@, recursion_depth_left as nat);
            match r {
                Ok(u) => sr matches Ok(piece) && final(dest_str)@ == old(dest_str)@ + piece,
                Err(e) => sr is Err && e@ == sr->Err_0,
            }
        }),
    decreases recursion_depth_left, 0int,
{
    match defines.get(word) {
        None => {
            dest_str.append(word);
            Ok(())
        },
        Some(body) => {
            if recursion_depth_left == 0 {
                return Err(Error::MaxRecursionDepthReached);
            }
            let body_str: &str = match body {
                None => "",
                Some(s) => s.as_str(),
            };
            proof {
                reveal_strlit("");
                assert(""@ =~= Seq::<char>::empty());
            }
            let toks = match tokenize(body_str) {
                Err(e) => {
                    return Err(e);
                },
                Ok(t) => t,
            };
            format_tokens_to_string(dest_str, toks.as_slice(), recursion_depth_left - 1, defines)
        },
    }
}

/// Appends the formatted image of the token run to `dest_str`: a single
/// space between adjacent tokens except next to a newline, words
/// substituted as [`push_word_to_string`] does.
fn format_tokens_to_string(
    dest_str: &mut String,
    tokens: &[Token],
    max_depth: u32,
    defines: &SymbolTable,
) -> (r: Result<(), Error>)
    requires
        defines.wf(),
    ensures
        ({
            let sr = spec_format(token_views(tokens@), 0, defines@, max_depth as nat);
            match r {
                Ok(u) => sr matches Ok(out) && final(dest_str)@ == old(dest_str)@ + out,
                Err(e) => sr is Err && e@ == sr->Err_0,
            }
        }),
    decreases max_depth, 1int,
{
    let ghost tv = token_views(tokens@);
    let n = tokens.len();
    let mut out = String::new();
    let mut i: usize = 0;
    proof {
        if spec_format(tv, 0, defines@, max_depth as nat) is Ok {
            let whole = spec_format(tv, 0, defines@, max_depth as nat)->Ok_0;
            assert(out@ + whole =~= whole);
        }
    }
    loop
        invariant
            defines.wf(),
            n == tokens@.len(),
            tv == token_views(tokens@),
            i <= n,
            spec_format(tv, 0, defines@, max_depth as nat) == (match spec_format(
                tv,
                i as int,
                defines@,
                max_depth as nat,
            ) {
                Err(e) => Err::<Seq<char>, ErrorView>(e),
                Ok(rest) => Ok(out@ + rest),
            }),
        ensures
            i == n,
            spec_format(tv, 0, defines@, max_depth as nat) == (match spec_format(
                tv,
                i as int,
                defines@,
                max_depth as nat,
            ) {
                Err(e) => Err::<Seq<char>, ErrorView>(e),
                Ok(rest) => Ok(out@ + rest),
            }),
        decreases n - i,
    {
        if i >= n {
            break ;
        }
        proof {
            assert(tv[i as int] == tokens@[i as int]@);
            if i > 0 {
                assert(tv[i as int - 1] == tokens@[i as int - 1]@);
            }
        }
        let ghost out_pre = out@;
        let ghost sep = if i == 0 {
            Seq::<char>::empty()
        } else {
            spec_sep(tv[i as int - 1], tv[i as int])
        };
        if i > 0 {
            let cur_nl = match &tokens[i] {
                Token::Newline { .. } => true,
                _ => false,
            };
            let prev_nl = match &tokens[i - 1] {
                Token::Newline { .. } => true,
                _ => false,
            };
            if !cur_nl && !prev_nl {
                out.append(" ");
            }
        }
        proof {
            reveal_strlit(" ");
            assert(" "@ =~= seq![' ']);
            assert(out@ =~= out_pre + sep);
        }
        let emit_result = match &tokens[i] {
            Token::Word(w) => push_word_to_string(&mut out, w.as_str(), max_depth, defines),
            t => {
                let img = t.formatted_str();
                out.append(img.as_str());
                Ok(())
            },
        };
        match emit_result {
            Err(e) => {
                return Err(e);
            },
            Ok(u) => {},
        }
        proof {
            if spec_emit(tv[i as int], defines@, max_depth as nat) is Ok {
                let piece = spec_emit(tv[i as int], defines@, max_depth as nat)->Ok_0;
                assert(out@ =~= (out_pre + sep) + piece);
                if spec_format(tv, i as int + 1, defines@, max_depth as nat) is Ok {
                    let rest = spec_format(tv, i as int + 1, defines@, max_depth as nat)->Ok_0;
                    assert(out@ + rest =~= out_pre + (sep + piece + rest));
                }
            }
        }
        i = i + 1;
    }
    dest_str.append(out.as_str());
    Ok(())
}

} // verus!

// Rendering item trees, and the public entry points.
verus! {

/// Renders the items in document order into one output string, mutating the
/// symbol table along the way; `fuel` bounds the nesting of includes.
fn process_items<L: FileLoader>(
    parsed: &Vec<Item>,
    defines: &mut SymbolTable,
    file_loader: &L,
    fuel: u32,
) -> (r: Result<String, Error>)
    requires
        old(defines).wf(),
    ensures
        final(defines).wf(),
        ({
            let sr = spec_process_items(
                items_view(parsed@),
                0,
                old(defines)@,
                loader_model(file_loader),
                fuel as nat,
            );
            match r {
                Ok(s) => sr matches Ok(rr) && s@ == rr.0 && final(defines)@ == rr.1,
                Err(e) => sr is Err && e@ == sr->Err_0,
            }
        }),
    decreases fuel, items_size(parsed@),
{
    let ghost iv = items_view(parsed@);
    let ghost lm = loader_model(file_loader);
    let ghost table0 = defines@;
    proof {
        crate::parser::lemma_items_view_index(parsed@);
    }
    let n = parsed.len();
    let mut out = String::new();
    let mut k: usize = 0;
    proof {
        if spec_process_items(iv, 0, table0, lm, fuel as nat) is Ok {
            let whole = spec_process_items(iv, 0, table0, lm, fuel as nat)->Ok_0;
            assert(out@ + whole.0 =~= whole.0);
        }
    }
    loop
        invariant
            defines.wf(),
            n == parsed@.len(),
            iv == items_view(parsed@),
            iv.len() == n,
            forall|m: int| 0 <= m < n ==> iv[m] == item_view(parsed@[m]),
            lm == loader_model(file_loader),
            table0 == old(defines)@,
            k <= n,
            spec_process_items(iv, 0, table0, lm, fuel as nat) == (match spec_process_items(
                iv,
                k as int,
                defines@,
                lm,
                fuel as nat,
            ) {
                Err(e) => Err::<(Seq<char>, TableView), ErrorView>(e),
                Ok(rr) => Ok((out@ + rr.0, rr.1)),
            }),
        ensures
            defines.wf(),
            table0 == old(defines)@,
            k == n,
            spec_process_items(iv, 0, table0, lm, fuel as nat) == (match spec_process_items(
                iv,
                k as int,
                defines@,
                lm,
                fuel as nat,
            ) {
                Err(e) => Err::<(Seq<char>, TableView), ErrorView>(e),
                Ok(rr) => Ok((out@ + rr.0, rr.1)),
            }),
        decreases n - k,
    {
        if k >= n {
            break ;
        }
        let ghost table_at = defines@;
        let ghost step = spec_process_item(iv[k as int], table_at, lm, fuel as nat);
        match &parsed[k] {
            Item::Text(ts) => {
                let ghost out_pre = out@;
                match format_tokens_to_string(&mut out, ts.as_slice(), FORMAT_MAX_DEPTH, defines) {
                    Err(e) => {
                        return Err(e);
                    },
                    Ok(u) => {},
                }
                proof {
                    if step is Ok && spec_process_items(iv, k as int + 1, defines@, lm, fuel as nat)
                        is Ok {
                        let txt = step->Ok_0.0;
                        let rest = spec_process_items(
                            iv,
                            k as int + 1,
                            defines@,
                            lm,
                            fuel as nat,
                        )->Ok_0;
                        assert(out@ + rest.0 =~= out_pre + (txt + rest.0));
                    }
                }
            },
            Item::Define(name, body) => {
                let mut val = String::new();
                match format_tokens_to_string(&mut val, body.as_slice(), FORMAT_MAX_DEPTH, defines) {
                    Err(e) => {
                        return Err(e);
                    },
                    Ok(u) => {},
                }
                proof {
                    assert(val@ =~= spec_format(
                        token_views(body@),
                        0,
                        table_at,
                        FORMAT_MAX_DEPTH as nat,
                    )->Ok_0);
                }
                defines.insert(name.clone(), Some(val));
            },
            Item::Undefine(name) => {
                defines.remove(name.as_str());
            },
            Item::Include(f) => {
                match file_loader.load(f.as_str()) {
                    None => {
                        return Err(Error::CantOpenFile);
                    },
                    Some(contents) => {
                        let toks = match tokenize(contents.as_str()) {
                            Err(e) => {
                                return Err(e);
                            },
                            Ok(t) => t,
                        };
                        let sub = match parse(toks.as_slice()) {
                            Err(e) => {
                                return Err(e);
                            },
                            Ok(p) => p,
                        };
                        if fuel == 0 {
                            return Err(Error::MaxRecursionDepthReached);
                        }
                        let ghost out_pre = out@;
                        let piece = match process_items(&sub, defines, file_loader, fuel - 1) {
                            Err(e) => {
                                return Err(e);
                            },
                            Ok(sx) => sx,
                        };
                        out.append(piece.as_str());
                        proof {
                            if step is Ok && spec_process_items(
                                iv,
                                k as int + 1,
                                defines@,
                                lm,
                                fuel as nat,
                            ) is Ok {
                                let rest = spec_process_items(
                                    iv,
                                    k as int + 1,
                                    defines@,
                                    lm,
                                    fuel as nat,
                                )->Ok_0;
                                assert(out@ + rest.0 =~= out_pre + (step->Ok_0.0 + rest.0));
                            }
                        }
                    },
                }
            },
            Item::Conditional { define_name, defined, not_defined } => {
                proof {
                    lemma_items_size_element(parsed@, k as int);
                }
                let branch: &Vec<Item> = if defines.contains(define_name.as_str()) {
                    defined
                } else {
                    not_defined
                };
                let ghost out_pre = out@;
                let piece = match process_items(branch, defines, file_loader, fuel) {
                    Err(e) => {
                        return Err(e);
                    },
                    Ok(sx) => sx,
                };
                out.append(piece.as_str());
                proof {
                    if step is Ok && spec_process_items(iv, k as int + 1, defines@, lm, fuel as nat)
                        is Ok {
                        let rest = spec_process_items(
                            iv,
                            k as int + 1,
                            defines@,
                            lm,
                            fuel as nat,
                        )->Ok_0;
                        assert(out@ + rest.0 =~= out_pre + (step->Ok_0.0 + rest.0));
                    }
                }
            },
        }
        k = k + 1;
    }
    Ok(out)
}

/// Renders an already parsed item tree with the given symbol table, which
/// the items mutate in document order; includes re-enter the engine with
/// the same table and loader.
pub fn process_mut_defines<L: FileLoader>(
    parsed: Vec<Item>,
    defines: &mut SymbolTable,
    file_loader: &L,
) -> (r: Result<String, Error>)
    requires
        old(defines).wf(),
    ensures
        final(defines).wf(),
        ({
            let sr = spec_process_items(
                items_view(parsed@),
                0,
                old(defines)@,
                loader_model(file_loader),
                INCLUDE_MAX_DEPTH as nat,
            );
            match r {
                Ok(s) => sr matches Ok(rr) && s@ == rr.0 && final(defines)@ == rr.1,
                Err(e) => sr is Err && e@ == sr->Err_0,
            }
        }),
{
    process_items(&parsed, defines, file_loader, INCLUDE_MAX_DEPTH)
}

/// The canonical call: lexes and parses `code`, seeds the symbol table from
/// `defines`, and renders the result, resolving `#include` through
/// `file_loader`. Returns exactly what [`spec_process`] gives; no partial
/// output is returned on failure.
pub fn process<L: FileLoader>(code: &str, defines: &[Define], file_loader: &L) -> (r: Result<
    String,
    Error,
>)
    ensures
        ({
            let sr = spec_process(
                code@,
                table_of(define_views(defines@)),
                loader_model(file_loader),
            );
            match r {
                Ok(s) => sr matches Ok(o) && s@ == o,
                Err(e) => sr is Err && e@ == sr->Err_0,
            }
        }),
{
    let mut table = SymbolTable::new();
    let nd = defines.len();
    let mut k: usize = 0;
    proof {
        assert(define_views(defines@).subrange(0, 0) =~= Seq::<DefineView>::empty());
    }
    loop
        invariant
            table.wf(),
            nd == defines@.len(),
            k <= nd,
            table@ == table_of(define_views(defines@).subrange(0, k as int)),
        ensures
            table.wf(),
            k == nd,
            table@ == table_of(define_views(defines@).subrange(0, k as int)),
        decreases nd - k,
    {
        if k >= nd {
            break ;
        }
        let d = &defines[k];
        let val: Option<String> = match &d.value {
            Some(s) => Some(s.clone()),
            None => None,
        };
        let nm = d.name.clone();
        proof {
            let dv = define_views(defines@);
            assert(dv[k as int] == defines@[k as int]@);
            assert(dv.subrange(0, k as int + 1).drop_last() =~= dv.subrange(0, k as int));
            assert(dv.subrange(0, k as int + 1).last() == dv[k as int]);
        }
        table.insert(nm, val);
        k = k + 1;
    }
    proof {
        assert(define_views(defines@).subrange(0, defines@.len() as int) =~= define_views(
            defines@,
        ));
    }
    let toks = match tokenize(code) {
        Err(e) => {
            return Err(e);
        },
        Ok(t) => t,
    };
    let parsed = match parse(toks.as_slice()) {
        Err(e) => {
            return Err(e);
        },
        Ok(p) => p,
    };
    process_items(&parsed, &mut table, file_loader, INCLUDE_MAX_DEPTH)
}

} // verus!
