//! Laws of the pipeline, proved once and for all inputs: pass-through of
//! directive-free text, identity of the empty expansion, isolation of the
//! not-taken conditional branch, and detection of cyclic define chains.

use vstd::prelude::*;

use crate::error::ErrorView;
use crate::lexer::{
    lemma_lex_one_advances, spec_lex_one, spec_tokenize, spec_tokenize_from, token_image,
    TokenView,
};
use crate::chars::is_hws;
use crate::parser::{
    define_end, is_plain_newline, lemma_define_end_bounds, lemma_text_end_bounds, spec_parse,
    spec_parse_block, spec_parse_directive, text_end, ItemView,
};
use crate::processor::{
    body_text, spec_emit, spec_emit_word, spec_format, spec_process, spec_process_item,
    spec_process_items, spec_sep, LoaderView, TableView, FORMAT_MAX_DEPTH, INCLUDE_MAX_DEPTH,
};

verus! {

/// Observable guarantee of the lexer: comments are consumed, never emitted,
/// from any starting position.
pub proof fn lemma_tokenize_no_comment(s: Seq<char>, i: int)
    ensures
        spec_tokenize_from(s, i) matches Some(ts) ==> forall|k: int|
            0 <= k < ts.len() ==> !((#[trigger] ts[k]) is Comment),
    decreases s.len() - i,
{
    if i < 0 || i >= s.len() {
    } else if is_hws(s[i]) {
        lemma_tokenize_no_comment(s, i + 1);
    } else {
        match spec_lex_one(s, i) {
            None => {},
            Some(r) => {
                lemma_lex_one_advances(s, i);
                lemma_tokenize_no_comment(s, r.1);
                match spec_tokenize_from(s, r.1) {
                    None => {},
                    Some(rest) => {
                        if !(r.0 is Comment) {
                            let ts = seq![r.0] + rest;
                            assert(forall|k: int|
                                1 <= k < ts.len() ==> #[trigger] ts[k] == rest[k - 1]);
                        }
                    },
                }
            },
        }
    }
}

/// A token sequence without preprocessor directives.
pub open spec fn has_no_directive(ts: Seq<TokenView>) -> bool {
    forall|k: int| 0 <= k < ts.len() ==> !(#[trigger] ts[k] is PreprocessorDirective)
}

proof fn lemma_text_end_all(ts: Seq<TokenView>, i: int)
    requires
        0 <= i <= ts.len(),
        has_no_directive(ts),
    ensures
        text_end(ts, i) == ts.len(),
    decreases ts.len() - i,
{
    if i < ts.len() {
        lemma_text_end_all(ts, i + 1);
    }
}

/// A directive-free token sequence parses to a single text run (or to
/// nothing, when it is empty).
pub proof fn lemma_parse_no_directives(ts: Seq<TokenView>)
    requires
        has_no_directive(ts),
    ensures
        spec_parse(ts) == Ok::<Seq<ItemView>, crate::error::ParseErrorView>(
            if ts.len() == 0 {
                Seq::empty()
            } else {
                seq![ItemView::Text(ts)]
            },
        ),
{
    if ts.len() > 0 {
        lemma_text_end_all(ts, 1);
        assert(ts.subrange(0, ts.len() as int) =~= ts);
        assert(spec_parse_block(ts, ts.len() as int, 0) == Ok::<
            (Seq<ItemView>, Option<Seq<char>>, int),
            crate::error::ParseErrorView,
        >((Seq::empty(), None, ts.len() as int)));
        let r = spec_parse_block(ts, 0, 0);
        assert(seq![ItemView::Text(ts)] + Seq::<ItemView>::empty() =~= seq![ItemView::Text(ts)]);
        assert(r matches Ok(rr) && rr.0 =~= seq![ItemView::Text(ts)]);
    }
}

/// Text pass-through: on an input without directives, the whole `process`
/// is exactly the formatting (with substitution) of the input's tokens, for
/// every symbol table and every loader.
pub proof fn lemma_no_directives_passthrough(code: Seq<char>, table: TableView, loader: LoaderView)
    requires
        spec_tokenize(code) is Some,
        has_no_directive(spec_tokenize(code)->Some_0),
    ensures
        spec_process(code, table, loader) == (match spec_format(
            spec_tokenize(code)->Some_0,
            0,
            table,
            FORMAT_MAX_DEPTH as nat,
        ) {
            Ok(txt) => Ok::<Seq<char>, ErrorView>(txt),
            Err(e) => Err(e),
        }),
{
    let ts = spec_tokenize(code)->Some_0;
    lemma_parse_no_directives(ts);
    if ts.len() == 0 {
        assert(spec_format(ts, 0, table, FORMAT_MAX_DEPTH as nat) == Ok::<Seq<char>, ErrorView>(
            Seq::empty(),
        ));
        assert(spec_process_items(
            Seq::<ItemView>::empty(),
            0,
            table,
            loader,
            INCLUDE_MAX_DEPTH as nat,
        ) == Ok::<(Seq<char>, TableView), ErrorView>((Seq::empty(), table)));
    } else {
        let items = seq![ItemView::Text(ts)];
        assert(items[0] == ItemView::Text(ts));
        let fr = spec_format(ts, 0, table, FORMAT_MAX_DEPTH as nat);
        assert(spec_process_item(items[0], table, loader, INCLUDE_MAX_DEPTH as nat) == (match fr {
            Err(e) => Err::<(Seq<char>, TableView), ErrorView>(e),
            Ok(txt) => Ok((txt, table)),
        }));
        match fr {
            Err(e) => {},
            Ok(txt) => {
                assert(spec_process_items(items, 1, table, loader, INCLUDE_MAX_DEPTH as nat)
                    == Ok::<(Seq<char>, TableView), ErrorView>((Seq::empty(), table)));
                assert(txt + Seq::<char>::empty() =~= txt);
            },
        }
    }
}

/// The image of a token run with no substitution at all: single spaces
/// between tokens except next to newlines.
pub open spec fn plain_text(ts: Seq<TokenView>, i: int) -> Seq<char>
    decreases ts.len() - i,
{
    if i < 0 || i >= ts.len() {
        Seq::empty()
    } else {
        let sep = if i == 0 {
            Seq::<char>::empty()
        } else {
            spec_sep(ts[i - 1], ts[i])
        };
        sep + token_image(ts[i]) + plain_text(ts, i + 1)
    }
}

/// With an empty symbol table, formatting never substitutes and never
/// fails: it is exactly the plain image of the tokens, at every depth.
pub proof fn lemma_empty_table_format(ts: Seq<TokenView>, i: int, depth: nat)
    ensures
        spec_format(ts, i, Map::empty(), depth) == Ok::<Seq<char>, ErrorView>(plain_text(ts, i)),
    decreases ts.len() - i,
{
    if 0 <= i < ts.len() {
        lemma_empty_table_format(ts, i + 1, depth);
        let e = Map::<Seq<char>, Option<Seq<char>>>::empty();
        match ts[i] {
            TokenView::Word(w) => {
                assert(!e.contains_key(w));
                assert(spec_emit_word(w, e, depth) == Ok::<Seq<char>, ErrorView>(w));
                assert(spec_emit(ts[i], e, depth) == Ok::<Seq<char>, ErrorView>(token_image(
                    ts[i],
                )));
            },
            _ => {
                assert(spec_emit(ts[i], e, depth) == Ok::<Seq<char>, ErrorView>(token_image(
                    ts[i],
                )));
            },
        }
    }
}

/// Idempotence of the empty expansion: with no initial symbols and no
/// directives in the input, `process` succeeds for every loader and returns
/// the plain normalized image of the input.
pub proof fn lemma_empty_expansion_identity(code: Seq<char>, loader: LoaderView)
    requires
        spec_tokenize(code) is Some,
        has_no_directive(spec_tokenize(code)->Some_0),
    ensures
        spec_process(code, Map::empty(), loader) == Ok::<Seq<char>, ErrorView>(
            plain_text(spec_tokenize(code)->Some_0, 0),
        ),
{
    let ts = spec_tokenize(code)->Some_0;
    lemma_no_directives_passthrough(code, Map::empty(), loader);
    lemma_empty_table_format(ts, 0, FORMAT_MAX_DEPTH as nat);
}

/// Symbol isolation, taken side: when the name is defined, the not-taken
/// branch of a conditional has no effect at all — neither on the output nor
/// on the symbol table after it.
pub proof fn lemma_conditional_isolation_defined(
    define_name: Seq<char>,
    defined: Seq<ItemView>,
    nd1: Seq<ItemView>,
    nd2: Seq<ItemView>,
    table: TableView,
    loader: LoaderView,
    fuel: nat,
)
    requires
        table.contains_key(define_name),
    ensures
        spec_process_item(
            ItemView::Conditional { define_name, defined, not_defined: nd1 },
            table,
            loader,
            fuel,
        ) == spec_process_item(
            ItemView::Conditional { define_name, defined, not_defined: nd2 },
            table,
            loader,
            fuel,
        ),
{
}

/// Symbol isolation, not-taken side: when the name is not defined, the
/// taken branch has no effect at all.
pub proof fn lemma_conditional_isolation_not_defined(
    define_name: Seq<char>,
    d1: Seq<ItemView>,
    d2: Seq<ItemView>,
    not_defined: Seq<ItemView>,
    table: TableView,
    loader: LoaderView,
    fuel: nat,
)
    requires
        !table.contains_key(define_name),
    ensures
        spec_process_item(
            ItemView::Conditional { define_name, defined: d1, not_defined },
            table,
            loader,
            fuel,
        ) == spec_process_item(
            ItemView::Conditional { define_name, defined: d2, not_defined },
            table,
            loader,
            fuel,
        ),
{
}

/// A table all of whose definition bodies can be lexed.
pub open spec fn table_lexable(table: TableView) -> bool {
    forall|w: Seq<char>|
        #[trigger] table.contains_key(w) ==> spec_tokenize(body_text(table[w])) is Some
}

/// Under a lexable table, the only formatting failure is an exhausted
/// substitution depth.
proof fn lemma_lexable_format_err(ts: Seq<TokenView>, i: int, table: TableView, depth: nat)
    requires
        table_lexable(table),
    ensures
        spec_format(ts, i, table, depth) matches Err(e) ==> e
            == ErrorView::MaxRecursionDepthReached,
    decreases depth, 1int, ts.len() - i,
{
    if 0 <= i < ts.len() {
        lemma_lexable_emit_err(ts[i], table, depth);
        lemma_lexable_format_err(ts, i + 1, table, depth);
    }
}

proof fn lemma_lexable_emit_err(t: TokenView, table: TableView, depth: nat)
    requires
        table_lexable(table),
    ensures
        spec_emit(t, table, depth) matches Err(e) ==> e == ErrorView::MaxRecursionDepthReached,
    decreases depth, 0int, 1int,
{
    match t {
        TokenView::Word(w) => {
            lemma_lexable_emit_word_err(w, table, depth);
        },
        _ => {},
    }
}

proof fn lemma_lexable_emit_word_err(w: Seq<char>, table: TableView, depth: nat)
    requires
        table_lexable(table),
    ensures
        spec_emit_word(w, table, depth) matches Err(e) ==> e
            == ErrorView::MaxRecursionDepthReached,
    decreases depth, 0int, 0int,
{
    if table.contains_key(w) && depth > 0 {
        assert(spec_tokenize(body_text(table[w])) is Some);
        lemma_lexable_format_err(
            spec_tokenize(body_text(table[w]))->Some_0,
            0,
            table,
            (depth - 1) as nat,
        );
    }
}

/// A formatting that succeeds emitted every one of its tokens successfully.
proof fn lemma_format_ok_emit(ts: Seq<TokenView>, i: int, table: TableView, depth: nat, k: int)
    requires
        0 <= i <= k < ts.len(),
        spec_format(ts, i, table, depth) is Ok,
    ensures
        spec_emit(ts[k], table, depth) is Ok,
    decreases k - i,
{
    if i < k {
        lemma_format_ok_emit(ts, i + 1, table, depth, k);
    }
}

/// A cyclic chain of defines: every name of `ws` is defined, and the body
/// of each contains, after re-lexing, the next name of the chain as a word,
/// cyclically.
pub open spec fn defines_cycle(table: TableView, ws: Seq<Seq<char>>) -> bool {
    &&& ws.len() > 0
    &&& forall|i: int|
        0 <= i < ws.len() ==> (#[trigger] table.contains_key(ws[i]) && (exists|m: int|
            0 <= m < spec_tokenize(body_text(table[ws[i]]))->Some_0.len() && spec_tokenize(
                body_text(table[ws[i]]),
            )->Some_0[m] == TokenView::Word(ws[(i + 1) % (ws.len() as int)])))
}

/// Cycle detection: when every body in the table lexes, emitting any word
/// of a cyclic chain of defines fails with `MaxRecursionDepthReached`,
/// whatever depth budget it starts from.
pub proof fn lemma_cycle_detected(table: TableView, ws: Seq<Seq<char>>, j: int, depth: nat)
    requires
        table_lexable(table),
        defines_cycle(table, ws),
        0 <= j < ws.len(),
    ensures
        spec_emit_word(ws[j], table, depth) == Err::<Seq<char>, ErrorView>(
            ErrorView::MaxRecursionDepthReached,
        ),
    decreases depth,
{
    if depth > 0 {
        let nxt = (j + 1) % (ws.len() as int);
        let bts = spec_tokenize(body_text(table[ws[j]]))->Some_0;
        let m = choose|m: int| 0 <= m < bts.len() && bts[m] == TokenView::Word(ws[nxt]);
        lemma_cycle_detected(table, ws, nxt, (depth - 1) as nat);
        if spec_format(bts, 0, table, (depth - 1) as nat) is Ok {
            lemma_format_ok_emit(bts, 0, table, (depth - 1) as nat, m);
        }
        lemma_lexable_format_err(bts, 0, table, (depth - 1) as nat);
    }
}

} // verus!

// Well-formedness of everything the parser builds.
verus! {

/// The structural invariants of one parsed item: text runs are nonempty and
/// free of directive tokens, define bodies never contain an unescaped
/// newline, and both branches of a conditional are well-formed in turn.
pub open spec fn item_wf(it: ItemView) -> bool
    decreases it,
{
    match it {
        ItemView::Text(ts) => ts.len() > 0 && has_no_directive(ts),
        ItemView::Define(name, body) => forall|k: int|
            0 <= k < body.len() ==> !is_plain_newline(#[trigger] body[k]),
        ItemView::Conditional { define_name, defined, not_defined } => {
            proof {
                assert(decreases_to!(it => defined));
                assert(decreases_to!(it => not_defined));
            }
            items_wf(defined) && items_wf(not_defined)
        },
        _ => true,
    }
}

/// The structural invariants of a parsed item sequence: every item is
/// well-formed and text runs are maximal (no two adjacent ones).
pub open spec fn items_wf(s: Seq<ItemView>) -> bool
    decreases s,
{
    if s.len() == 0 {
        true
    } else {
        &&& item_wf(s[0])
        &&& (s.len() > 1 ==> !(s[0] is Text && s[1] is Text))
        &&& items_wf(s.drop_first())
    }
}

proof fn lemma_text_end_chars(ts: Seq<TokenView>, i: int)
    requires
        0 <= i <= ts.len(),
    ensures
        forall|k: int|
            i <= k < text_end(ts, i) ==> !(#[trigger] ts[k] is PreprocessorDirective),
        text_end(ts, i) < ts.len() ==> ts[text_end(ts, i)] is PreprocessorDirective,
    decreases ts.len() - i,
{
    if i < ts.len() && !(ts[i] is PreprocessorDirective) {
        lemma_text_end_chars(ts, i + 1);
    }
}

proof fn lemma_define_end_chars(ts: Seq<TokenView>, i: int)
    requires
        0 <= i <= ts.len(),
    ensures
        forall|k: int| i <= k < define_end(ts, i) ==> !is_plain_newline(#[trigger] ts[k]),
        define_end(ts, i) < ts.len() ==> is_plain_newline(ts[define_end(ts, i)]),
    decreases ts.len() - i,
{
    if i < ts.len() && !is_plain_newline(ts[i]) {
        lemma_define_end_chars(ts, i + 1);
    }
}

/// Whatever block the parser accepts is well-formed; a block that begins
/// with a directive never begins with a text run.
pub proof fn lemma_parse_block_wf(ts: Seq<TokenView>, i: int, depth: int)
    requires
        0 <= i <= ts.len(),
    ensures
        spec_parse_block(ts, i, depth) matches Ok(r) ==> {
            &&& items_wf(r.0)
            &&& (r.0.len() > 0 && r.0[0] is Text ==> !(i < ts.len()
                && ts[i] is PreprocessorDirective))
        },
    decreases ts.len() - i, 1int,
{
    assert(items_wf(Seq::<ItemView>::empty()));
    if 0 <= i < ts.len() {
        match ts[i] {
            TokenView::PreprocessorDirective(name) => {
                if depth > 0 && crate::parser::is_closing_name(name) {
                } else {
                    lemma_parse_directive_wf(ts, i + 1, name, depth);
                    crate::parser::lemma_parse_directive_advances(ts, i + 1, name, depth);
                    match spec_parse_directive(ts, i + 1, name, depth) {
                        Err(e) => {},
                        Ok(r) => {
                            if i < r.1 <= ts.len() {
                                lemma_parse_block_wf(ts, r.1, depth);
                                match spec_parse_block(ts, r.1, depth) {
                                    Err(e) => {},
                                    Ok(rest) => {
                                        let items = seq![r.0] + rest.0;
                                        assert(items.drop_first() =~= rest.0);
                                        assert(items[0] == r.0);
                                        if rest.0.len() > 0 {
                                            assert(items[1] == rest.0[0]);
                                        }
                                    },
                                }
                            }
                        },
                    }
                }
            },
            _ => {
                let j = text_end(ts, i + 1);
                lemma_text_end_bounds(ts, i + 1);
                lemma_text_end_chars(ts, i + 1);
                lemma_parse_block_wf(ts, j, depth);
                match spec_parse_block(ts, j, depth) {
                    Err(e) => {},
                    Ok(rest) => {
                        let run = ts.subrange(i, j);
                        assert(has_no_directive(run)) by {
                            assert(forall|k: int|
                                0 <= k < run.len() ==> run[k] == ts[i + k]
                                    && !(#[trigger] run[k] is PreprocessorDirective));
                        }
                        let items = seq![ItemView::Text(run)] + rest.0;
                        assert(items.drop_first() =~= rest.0);
                        assert(items[0] == ItemView::Text(run));
                        if rest.0.len() > 0 {
                            assert(items[1] == rest.0[0]);
                            if rest.0[0] is Text {
                                assert(!(j < ts.len() && ts[j] is PreprocessorDirective));
                                assert(j >= ts.len());
                                assert(rest.0.len() == 0);
                            }
                        }
                        assert(item_wf(ItemView::Text(run)));
                        assert(items.drop_first() == rest.0);
                    },
                }
            },
        }
    }
}

/// Whatever a directive parses to is well-formed, and it is never a text
/// run.
pub proof fn lemma_parse_directive_wf(ts: Seq<TokenView>, i: int, name: Seq<char>, depth: int)
    requires
        0 <= i <= ts.len(),
    ensures
        spec_parse_directive(ts, i, name, depth) matches Ok(r) ==> item_wf(r.0) && !(r.0 is Text),
    decreases ts.len() - i, 0int,
{
    if name == "define"@ && 0 <= i < ts.len() && ts[i] is Word {
        lemma_define_end_bounds(ts, i + 1);
        lemma_define_end_chars(ts, i + 1);
        let j = define_end(ts, i + 1);
        let body = ts.subrange(i + 1, j);
        assert(forall|k: int|
            0 <= k < body.len() ==> body[k] == ts[i + 1 + k] && !is_plain_newline(
                #[trigger] body[k],
            ));
    }
    if (name == "ifdef"@ || name == "ifndef"@) && 0 <= i < ts.len() && ts[i] is Word && i + 1
        < ts.len() && is_plain_newline(ts[i + 1]) {
        lemma_parse_block_wf(ts, i + 2, depth + 1);
        crate::parser::lemma_parse_block_advances(ts, i + 2, depth + 1);
        match spec_parse_block(ts, i + 2, depth + 1) {
            Err(e) => {},
            Ok(r) => {
                if r.1 == Some("else"@) && i + 2 <= r.2 <= ts.len() {
                    lemma_parse_block_wf(ts, r.2, depth + 1);
                }
            },
        }
    }
}

/// Everything the parser accepts is well-formed: nonempty, directive-free,
/// maximal text runs; define bodies without unescaped newlines; well-formed
/// conditional branches.
pub proof fn lemma_parse_wf(ts: Seq<TokenView>)
    ensures
        spec_parse(ts) matches Ok(items) ==> items_wf(items),
{
    lemma_parse_block_wf(ts, 0, 0);
}

} // verus!

// Reading back the canonical token form of a tree.
verus! {

/// The canonical token form of one item: the token sequence that the parser
/// reads back as exactly this item. A define always ends its line; a
/// conditional is always spelled with `#ifdef`, both branches and a final
/// newline.
pub open spec fn item_tokens(it: ItemView) -> Seq<TokenView>
    decreases it,
{
    match it {
        ItemView::Text(ts) => ts,
        ItemView::Include(p) => seq![
            TokenView::PreprocessorDirective("include"@),
            TokenView::String(p),
        ],
        ItemView::Define(n, body) => seq![
            TokenView::PreprocessorDirective("define"@),
            TokenView::Word(n),
        ] + body + seq![TokenView::Newline { with_escape: false }],
        ItemView::Undefine(n) => seq![
            TokenView::PreprocessorDirective("undef"@),
            TokenView::Word(n),
        ],
        ItemView::Conditional { define_name, defined, not_defined } => {
            proof {
                assert(decreases_to!(it => defined));
                assert(decreases_to!(it => not_defined));
            }
            seq![
                TokenView::PreprocessorDirective("ifdef"@),
                TokenView::Word(define_name),
                TokenView::Newline { with_escape: false },
            ] + items_tokens(defined) + seq![
                TokenView::PreprocessorDirective("else"@),
                TokenView::Newline { with_escape: false },
            ] + items_tokens(not_defined) + seq![
                TokenView::PreprocessorDirective("endif"@),
                TokenView::Newline { with_escape: false },
            ]
        },
    }
}

/// The canonical token form of an item sequence.
pub open spec fn items_tokens(s: Seq<ItemView>) -> Seq<TokenView>
    decreases s,
{
    if s.len() == 0 {
        Seq::empty()
    } else {
        item_tokens(s[0]) + items_tokens(s.drop_first())
    }
}

/// All directive names that the serializer writes, distinguished from each
/// other and from everything the parser's dispatch tests first.
proof fn lemma_serializer_names()
    ensures
        !crate::parser::is_closing_name("include"@),
        !crate::parser::is_closing_name("define"@),
        !crate::parser::is_closing_name("undef"@),
        !crate::parser::is_closing_name("ifdef"@),
        crate::parser::is_closing_name("else"@),
        crate::parser::is_closing_name("endif"@),
        "include"@ != "if"@ && "include"@ != "elif"@ && "include"@ != "error"@ && "include"@
            != "warning"@ && "include"@ != "line"@ && "include"@ != "pragma"@,
        "define"@ != "if"@ && "define"@ != "elif"@ && "define"@ != "error"@ && "define"@
            != "warning"@ && "define"@ != "line"@ && "define"@ != "pragma"@ && "define"@
            != "include"@,
        "undef"@ != "if"@ && "undef"@ != "elif"@ && "undef"@ != "error"@ && "undef"@
            != "warning"@ && "undef"@ != "line"@ && "undef"@ != "pragma"@ && "undef"@
            != "include"@ && "undef"@ != "define"@,
        "ifdef"@ != "if"@ && "ifdef"@ != "elif"@ && "ifdef"@ != "error"@ && "ifdef"@
            != "warning"@ && "ifdef"@ != "line"@ && "ifdef"@ != "pragma"@ && "ifdef"@
            != "include"@ && "ifdef"@ != "define"@ && "ifdef"@ != "undef"@,
        "else"@ != "endif"@,
{
    reveal_strlit("if");
    reveal_strlit("elif");
    reveal_strlit("error");
    reveal_strlit("warning");
    reveal_strlit("line");
    reveal_strlit("pragma");
    reveal_strlit("include");
    reveal_strlit("define");
    reveal_strlit("undef");
    reveal_strlit("ifdef");
    reveal_strlit("ifndef");
    reveal_strlit("else");
    reveal_strlit("endif");
    assert("if"@.len() == 2);
    assert("elif"@.len() == 4);
    assert("error"@.len() == 5);
    assert("warning"@.len() == 7);
    assert("line"@.len() == 4);
    assert("pragma"@.len() == 6);
    assert("include"@.len() == 7);
    assert("define"@.len() == 6);
    assert("undef"@.len() == 5);
    assert("ifdef"@.len() == 5);
    assert("else"@.len() == 4);
    assert("endif"@.len() == 5);
    assert("include"@[0] == 'i');
    assert("warning"@[0] == 'w');
    assert("define"@[0] == 'd');
    assert("pragma"@[0] == 'p');
    assert("undef"@[0] == 'u');
    assert("error"@[0] == 'e');
    assert("endif"@[0] == 'e');
    assert("ifdef"@[0] == 'i');
    assert("elif"@[0] == 'e');
}

proof fn lemma_text_end_exact(ts: Seq<TokenView>, a: int, b: int)
    requires
        0 <= a <= b <= ts.len(),
        forall|k: int| a <= k < b ==> !(#[trigger] ts[k] is PreprocessorDirective),
        b == ts.len() || ts[b] is PreprocessorDirective,
    ensures
        text_end(ts, a) == b,
    decreases b - a,
{
    if a < b {
        lemma_text_end_exact(ts, a + 1, b);
    }
}

proof fn lemma_define_end_exact(ts: Seq<TokenView>, a: int, b: int)
    requires
        0 <= a <= b <= ts.len(),
        forall|k: int| a <= k < b ==> !is_plain_newline(#[trigger] ts[k]),
        b == ts.len() || is_plain_newline(ts[b]),
    ensures
        define_end(ts, a) == b,
    decreases b - a,
{
    if a < b {
        lemma_define_end_exact(ts, a + 1, b);
    }
}

/// A well-formed item's canonical form is never empty, and it opens with a
/// directive token unless the item is a text run.
proof fn lemma_item_tokens_head(it: ItemView)
    requires
        item_wf(it),
    ensures
        item_tokens(it).len() > 0,
        !(it is Text) ==> item_tokens(it)[0] is PreprocessorDirective,
{
}

} // verus!

// The parser reads back what the serializer writes.
verus! {

#[verifier::rlimit(100)]
#[verifier::spinoff_prover]
proof fn lemma_block_reads_back(ts: Seq<TokenView>, i: int, items: Seq<ItemView>, depth: int)
    requires
        0 <= i,
        0 <= depth,
        i + items_tokens(items).len() <= ts.len(),
        ts.subrange(i, i + items_tokens(items).len()) == items_tokens(items),
        items_wf(items),
        i + items_tokens(items).len() == ts.len() || ts[i + items_tokens(items).len()]
            is PreprocessorDirective,
    ensures
        spec_parse_block(ts, i, depth) == (match spec_parse_block(
            ts,
            i + items_tokens(items).len(),
            depth,
        ) {
            Err(e) => Err::<(Seq<ItemView>, Option<Seq<char>>, int), crate::error::ParseErrorView>(
                e,
            ),
            Ok(r) => Ok((items + r.0, r.1, r.2)),
        }),
    decreases items,
{
    let big = items_tokens(items);
    let j0 = i + big.len();
    if items.len() == 0 {
        match spec_parse_block(ts, i, depth) {
            Err(e) => {},
            Ok(r) => {
                assert(items + r.0 =~= r.0);
                assert(r == (r.0, r.1, r.2));
            },
        }
    } else {
        let it0 = items[0];
        let rest_items = items.drop_first();
        let t0 = item_tokens(it0);
        let j1 = i + t0.len();
        let tr = items_tokens(rest_items);
        assert(big == t0 + tr);
        assert(items =~= seq![it0] + rest_items);
        lemma_item_tokens_head(it0);
        assert(item_wf(it0) && items_wf(rest_items));
        assert forall|m: int| 0 <= m < big.len() implies ts[i + m] == #[trigger] big[m] by {
            assert(big[m] == ts.subrange(i, j0)[m]);
        }
        assert forall|m: int| 0 <= m < t0.len() implies ts[i + m] == #[trigger] t0[m] by {
            assert(big[m] == t0[m]);
        }
        assert(ts.subrange(j1, j0) =~= tr) by {
            assert forall|m: int| 0 <= m < tr.len() implies ts.subrange(j1, j0)[m] == #[trigger] tr[m] by {
                assert(ts[j1 + m] == big[t0.len() as int + m]);
                assert(big[t0.len() as int + m] == tr[m]);
            }
        }
        if rest_items.len() > 0 {
            lemma_item_tokens_head(rest_items[0]);
            assert(items_tokens(rest_items)[0] == item_tokens(rest_items[0])[0]);
            assert(ts[j1] == tr[0]);
        }
        assert(decreases_to!(items => items[0]));
        lemma_block_reads_back(ts, j1, rest_items, depth);
        match it0 {
            ItemView::Text(run) => {
                assert(run.len() > 0 && has_no_directive(run));
                assert(ts[i] == run[0]);
                assert(ts.subrange(i, j1) =~= run) by {
                    assert forall|m: int| 0 <= m < run.len() implies ts.subrange(i, j1)[m]
                        == #[trigger] run[m] by {
                        assert(ts[i + m] == t0[m]);
                    }
                }
                assert forall|k: int| i + 1 <= k < j1 implies !(#[trigger] ts[k]
                    is PreprocessorDirective) by {
                    assert(ts[k] == t0[k - i]);
                    assert(t0[k - i] == run[k - i]);
                }
                if rest_items.len() > 0 {
                    assert(items[1] == rest_items[0]);
                    assert(!(rest_items[0] is Text));
                    assert(ts[j1] is PreprocessorDirective);
                }
                lemma_text_end_exact(ts, i + 1, j1);
                match spec_parse_block(ts, j0, depth) {
                    Err(e) => {},
                    Ok(r) => {
                        assert(seq![it0] + (rest_items + r.0) =~= items + r.0);
                    },
                }
            },
            ItemView::Include(p) => {
                lemma_serializer_names();
                assert(ts[i] == t0[0]);
                assert(ts[i + 1] == t0[1]);
                assert(spec_parse_directive(ts, i + 1, "include"@, depth) == Ok::<
                    (ItemView, int),
                    crate::error::ParseErrorView,
                >((it0, i + 2)));
                match spec_parse_block(ts, j0, depth) {
                    Err(e) => {},
                    Ok(r) => {
                        assert(seq![it0] + (rest_items + r.0) =~= items + r.0);
                    },
                }
            },
            ItemView::Undefine(n) => {
                lemma_serializer_names();
                assert(ts[i] == t0[0]);
                assert(ts[i + 1] == t0[1]);
                assert(t0[0] == TokenView::PreprocessorDirective("undef"@));
                assert(t0[1] == TokenView::Word(n));
                assert(spec_parse_directive(ts, i + 1, "undef"@, depth) == Ok::<
                    (ItemView, int),
                    crate::error::ParseErrorView,
                >((it0, i + 2)));
                match spec_parse_block(ts, j0, depth) {
                    Err(e) => {},
                    Ok(r) => {
                        assert(seq![it0] + (rest_items + r.0) =~= items + r.0);
                    },
                }
            },
            ItemView::Define(n, body) => {
                lemma_serializer_names();
                let bend = i + 2 + body.len();
                assert(ts[i] == t0[0]);
                assert(ts[i + 1] == t0[1]);
                assert(t0[0] == TokenView::PreprocessorDirective("define"@));
                assert(t0[1] == TokenView::Word(n));
                assert forall|k: int| i + 2 <= k < bend implies !is_plain_newline(
                    #[trigger] ts[k],
                ) by {
                    assert(ts[k] == t0[k - i]);
                    assert(t0[k - i] == body[k - i - 2]);
                }
                assert(ts[bend] == t0[2 + body.len() as int]);
                assert(is_plain_newline(ts[bend]));
                lemma_define_end_exact(ts, i + 2, bend);
                assert(ts.subrange(i + 2, bend) =~= body) by {
                    assert forall|m: int| 0 <= m < body.len() implies ts.subrange(i + 2, bend)[m]
                        == #[trigger] body[m] by {
                        assert(ts[i + 2 + m] == t0[2 + m]);
                        assert(t0[2 + m] == body[m]);
                    }
                }
                assert(bend < ts.len());
                assert(spec_parse_directive(ts, i + 1, "define"@, depth) == Ok::<
                    (ItemView, int),
                    crate::error::ParseErrorView,
                >((it0, bend + 1)));
                match spec_parse_block(ts, j0, depth) {
                    Err(e) => {},
                    Ok(r) => {
                        assert(seq![it0] + (rest_items + r.0) =~= items + r.0);
                    },
                }
            },
            ItemView::Conditional { define_name, defined, not_defined } => {
                lemma_serializer_names();
                let td = items_tokens(defined);
                let tnd = items_tokens(not_defined);
                let jd = i + 3 + td.len();
                let je = jd + 2 + tnd.len();
                assert(t0.len() == 3 + td.len() + 2 + tnd.len() + 2);
                assert(ts[i] == t0[0] && t0[0] == TokenView::PreprocessorDirective("ifdef"@));
                assert(ts[i + 1] == t0[1] && t0[1] == TokenView::Word(define_name));
                assert(ts[i + 2] == t0[2] && is_plain_newline(t0[2]));
                assert(ts[jd] == t0[3 + td.len() as int] && t0[3 + td.len() as int]
                    == TokenView::PreprocessorDirective("else"@));
                assert(ts[jd + 1] == t0[4 + td.len() as int] && is_plain_newline(t0[4 + td.len() as int]));
                assert(ts[je] == t0[5 + td.len() + tnd.len() as int] && t0[5 + td.len() + tnd.len() as int]
                    == TokenView::PreprocessorDirective("endif"@));
                assert(ts[je + 1] == t0[6 + td.len() + tnd.len() as int] && is_plain_newline(
                    t0[6 + td.len() + tnd.len() as int],
                ));
                assert(ts.subrange(i + 3, jd) =~= td) by {
                    assert forall|m: int| 0 <= m < td.len() implies ts.subrange(i + 3, jd)[m]
                        == #[trigger] td[m] by {
                        assert(ts[i + 3 + m] == t0[3 + m]);
                        assert(t0[3 + m] == td[m]);
                    }
                }
                assert(ts.subrange(jd + 2, je) =~= tnd) by {
                    assert forall|m: int| 0 <= m < tnd.len() implies ts.subrange(jd + 2, je)[m]
                        == #[trigger] tnd[m] by {
                        assert(ts[jd + 2 + m] == t0[5 + td.len() as int + m]);
                        assert(t0[5 + td.len() as int + m] == tnd[m]);
                    }
                }
                assert(decreases_to!(items[0] => defined));
                assert(decreases_to!(items[0] => not_defined));
                lemma_block_reads_back(ts, i + 3, defined, depth + 1);
                assert(spec_parse_block(ts, jd, depth + 1) == Ok::<
                    (Seq<ItemView>, Option<Seq<char>>, int),
                    crate::error::ParseErrorView,
                >((Seq::empty(), Some("else"@), jd + 2)));
                assert(spec_parse_block(ts, i + 3, depth + 1) == Ok::<
                    (Seq<ItemView>, Option<Seq<char>>, int),
                    crate::error::ParseErrorView,
                >((defined, Some("else"@), jd + 2))) by {
                    assert(defined + Seq::<ItemView>::empty() =~= defined);
                }
                lemma_block_reads_back(ts, jd + 2, not_defined, depth + 1);
                assert(spec_parse_block(ts, je, depth + 1) == Ok::<
                    (Seq<ItemView>, Option<Seq<char>>, int),
                    crate::error::ParseErrorView,
                >((Seq::empty(), Some("endif"@), je + 2)));
                assert(spec_parse_block(ts, jd + 2, depth + 1) == Ok::<
                    (Seq<ItemView>, Option<Seq<char>>, int),
                    crate::error::ParseErrorView,
                >((not_defined, Some("endif"@), je + 2))) by {
                    assert(not_defined + Seq::<ItemView>::empty() =~= not_defined);
                }
                assert(crate::parser::mk_conditional("ifdef"@, define_name, defined, not_defined)
                    == it0);
                assert(je + 2 == j1);
                assert(spec_parse_directive(ts, i + 1, "ifdef"@, depth) == Ok::<
                    (ItemView, int),
                    crate::error::ParseErrorView,
                >((it0, j1)));
                match spec_parse_block(ts, j0, depth) {
                    Err(e) => {},
                    Ok(r) => {
                        assert(seq![it0] + (rest_items + r.0) =~= items + r.0);
                    },
                }
            },
        }
    }
}

/// Round trip: the parser reads every well-formed item tree back, exactly,
/// from the tree's canonical token form — parsing loses nothing that the
/// canonical form writes down.
pub proof fn lemma_parse_round_trip(items: Seq<ItemView>)
    requires
        items_wf(items),
    ensures
        spec_parse(items_tokens(items)) == Ok::<Seq<ItemView>, crate::error::ParseErrorView>(items),
{
    let ts = items_tokens(items);
    assert(ts.subrange(0, ts.len() as int) =~= ts);
    lemma_block_reads_back(ts, 0, items, 0);
    assert(spec_parse_block(ts, ts.len() as int, 0) == Ok::<
        (Seq<ItemView>, Option<Seq<char>>, int),
        crate::error::ParseErrorView,
    >((Seq::empty(), None, ts.len() as int)));
    assert(items + Seq::<ItemView>::empty() =~= items);
}

} // verus!
