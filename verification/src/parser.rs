//! The structural parser: groups tokens into a tree of items.
//!
//! A recursive descent over the token sequence, driven by a nesting depth.
//! Plain token runs become `Text` items; `#include`, `#define` and `#undef`
//! become their own items; `#ifdef`/`#ifndef` open a sub-block closed by
//! `#else` or `#endif`. For `#ifndef` the two branches are swapped, so that
//! the `defined` branch is always the one taken when the name is defined.
//!
//! The function [`spec_parse`] is the mathematical model; [`parse`] is the
//! executable parser, verified to return exactly that model's result.

use vstd::prelude::*;

use crate::chars::str_eq;
use crate::error::{Error, ErrorView, ParseError, ParseErrorView};
use crate::lexer::{token_views, Token, TokenView};
use crate::table::opt_str_view;

verus! {

broadcast use vstd::string::group_string_axioms;

/// Spec-level image of an [`Item`]: text payloads appear as character
/// sequences, token runs as sequences of token views.
pub enum ItemView {
    Text(Seq<TokenView>),
    Include(Seq<char>),
    Define(Seq<char>, Seq<TokenView>),
    Undefine(Seq<char>),
    Conditional {
        define_name: Seq<char>,
        defined: Seq<ItemView>,
        not_defined: Seq<ItemView>,
    },
}

/// A node of the structural tree.
#[derive(Debug, PartialEq)]
pub enum Item {
    /// A maximal run of non-directive tokens.
    Text(Vec<Token>),
    /// `#include "path"`; only the string-literal form is recognized.
    Include(String),
    /// `#define NAME body...` up to the next unescaped newline.
    Define(String, Vec<Token>),
    /// `#undef NAME`.
    Undefine(String),
    /// The two branches of `#ifdef`/`#ifndef`; `defined` is always the
    /// branch taken when `define_name` is defined.
    Conditional { define_name: String, defined: Vec<Item>, not_defined: Vec<Item> },
}

/// The view of one item.
pub open spec fn item_view(it: Item) -> ItemView
    decreases it,
{
    match it {
        Item::Text(ts) => ItemView::Text(token_views(ts@)),
        Item::Include(p) => ItemView::Include(p@),
        Item::Define(n, ts) => ItemView::Define(n@, token_views(ts@)),
        Item::Undefine(n) => ItemView::Undefine(n@),
        Item::Conditional { define_name, defined, not_defined } => {
            proof {
                assert(decreases_to!(it => defined));
                assert(decreases_to!(it => not_defined));
            }
            ItemView::Conditional {
                define_name: define_name@,
                defined: items_view(defined@),
                not_defined: items_view(not_defined@),
            }
        },
    }
}

/// The views of an item sequence.
pub open spec fn items_view(s: Seq<Item>) -> Seq<ItemView>
    decreases s,
{
    if s.len() == 0 {
        Seq::empty()
    } else {
        seq![item_view(s[0])] + items_view(s.drop_first())
    }
}

impl View for Item {
    type V = ItemView;

    open spec fn view(&self) -> ItemView {
        item_view(*self)
    }
}

pub proof fn lemma_items_view_index(s: Seq<Item>)
    ensures
        items_view(s).len() == s.len(),
        forall|k: int| 0 <= k < s.len() ==> items_view(s)[k] == item_view(s[k]),
    decreases s.len(),
{
    if s.len() > 0 {
        lemma_items_view_index(s.drop_first());
    }
}

pub proof fn lemma_items_view_push(s: Seq<Item>, it: Item)
    ensures
        items_view(s.push(it)) == items_view(s).push(item_view(it)),
{
    lemma_items_view_index(s);
    lemma_items_view_index(s.push(it));
    assert(items_view(s.push(it)) =~= items_view(s).push(item_view(it)));
}

/// An unescaped newline, which ends a logical line.
pub open spec fn is_plain_newline(t: TokenView) -> bool {
    t == (TokenView::Newline { with_escape: false })
}

/// End of the non-directive token run starting at `i`: the position of the
/// next directive token, or the length.
pub open spec fn text_end(ts: Seq<TokenView>, i: int) -> int
    decreases ts.len() - i,
{
    if 0 <= i < ts.len() {
        if ts[i] is PreprocessorDirective {
            i
        } else {
            text_end(ts, i + 1)
        }
    } else {
        ts.len() as int
    }
}

/// End of a define body starting at `i`: the position of the next unescaped
/// newline, or the length.
pub open spec fn define_end(ts: Seq<TokenView>, i: int) -> int
    decreases ts.len() - i,
{
    if 0 <= i < ts.len() {
        if is_plain_newline(ts[i]) {
            i
        } else {
            define_end(ts, i + 1)
        }
    } else {
        ts.len() as int
    }
}

pub proof fn lemma_text_end_bounds(ts: Seq<TokenView>, i: int)
    requires
        0 <= i <= ts.len(),
    ensures
        i <= text_end(ts, i) <= ts.len(),
    decreases ts.len() - i,
{
    if i < ts.len() && !(ts[i] is PreprocessorDirective) {
        lemma_text_end_bounds(ts, i + 1);
    }
}

pub proof fn lemma_define_end_bounds(ts: Seq<TokenView>, i: int)
    requires
        0 <= i <= ts.len(),
    ensures
        i <= define_end(ts, i) <= ts.len(),
    decreases ts.len() - i,
{
    if i < ts.len() && !is_plain_newline(ts[i]) {
        lemma_define_end_bounds(ts, i + 1);
    }
}

/// Directive names that close a sub-block.
pub open spec fn is_closing_name(name: Seq<char>) -> bool {
    name == "else"@ || name == "endif"@
}

/// What happens right after a closing directive whose token stood at
/// `i - 1`: end of input and an unescaped newline are accepted (the newline
/// is consumed); anything else is [`ParseErrorView::MissingNewline`]. A
/// non-closing name is reported as such, consuming nothing.
pub open spec fn spec_closing(ts: Seq<TokenView>, i: int, name: Seq<char>) -> Result<
    (bool, int),
    ParseErrorView,
> {
    if is_closing_name(name) {
        if i >= ts.len() {
            Ok((true, i))
        } else if is_plain_newline(ts[i]) {
            Ok((true, i + 1))
        } else {
            Err(ParseErrorView::MissingNewline)
        }
    } else {
        Ok((false, i))
    }
}

/// Builds the conditional item: for `#ifndef` the branches are swapped, so
/// that `defined` always holds the items taken when the name is defined.
pub open spec fn mk_conditional(
    directive: Seq<char>,
    name: Seq<char>,
    first: Seq<ItemView>,
    second: Seq<ItemView>,
) -> ItemView {
    if directive == "ifdef"@ {
        ItemView::Conditional { define_name: name, defined: first, not_defined: second }
    } else {
        ItemView::Conditional { define_name: name, defined: second, not_defined: first }
    }
}

/// One block of items starting at `i` under nesting depth `depth`, with the
/// closing sentinel (the name of the `#else` or `#endif` that ended it, if
/// any) and the position right after the block.
pub open spec fn spec_parse_block(ts: Seq<TokenView>, i: int, depth: int) -> Result<
    (Seq<ItemView>, Option<Seq<char>>, int),
    ParseErrorView,
>
    decreases ts.len() - i, 1int,
{
    if i < 0 || i >= ts.len() {
        Ok((Seq::empty(), None, i))
    } else {
        match ts[i] {
            TokenView::PreprocessorDirective(name) => {
                if depth > 0 && is_closing_name(name) {
                    match spec_closing(ts, i + 1, name) {
                        Err(e) => Err(e),
                        Ok(r) => Ok((Seq::empty(), Some(name), r.1)),
                    }
                } else {
                    match spec_parse_directive(ts, i + 1, name, depth) {
                        Err(e) => Err(e),
                        Ok(r) => {
                            if i < r.1 <= ts.len() {
                                match spec_parse_block(ts, r.1, depth) {
                                    Err(e) => Err(e),
                                    Ok(rest) => Ok(
                                        (seq![r.0] + rest.0, rest.1, rest.2),
                                    ),
                                }
                            } else {
                                arbitrary()
                            }
                        },
                    }
                }
            },
            _ => {
                let j = text_end(ts, i + 1);
                proof {
                    lemma_text_end_bounds(ts, i + 1);
                }
                let item = ItemView::Text(ts.subrange(i, j));
                match spec_parse_block(ts, j, depth) {
                    Err(e) => Err(e),
                    Ok(rest) => Ok((seq![item] + rest.0, rest.1, rest.2)),
                }
            },
        }
    }
}

/// One directive named `name` whose parameters start at `i`, with the
/// position right after everything the directive consumed.
pub open spec fn spec_parse_directive(
    ts: Seq<TokenView>,
    i: int,
    name: Seq<char>,
    depth: int,
) -> Result<(ItemView, int), ParseErrorView>
    decreases ts.len() - i, 0int,
{
    if name == "if"@ || name == "elif"@ || name == "error"@ || name == "warning"@ || name
        == "line"@ || name == "pragma"@ {
        Err(ParseErrorView::UnsupportedPreprocessor(name))
    } else if name == "include"@ {
        if 0 <= i < ts.len() && ts[i] is String {
            Ok((ItemView::Include(ts[i]->String_0), i + 1))
        } else {
            Err(ParseErrorView::MissingParameter)
        }
    } else if name == "define"@ {
        if 0 <= i < ts.len() && ts[i] is Word {
            let j = define_end(ts, i + 1);
            let body = ts.subrange(i + 1, j);
            proof {
                lemma_define_end_bounds(ts, i + 1);
            }
            Ok(
                (
                    ItemView::Define(ts[i]->Word_0, body),
                    if j < ts.len() {
                        j + 1
                    } else {
                        j
                    },
                ),
            )
        } else {
            Err(ParseErrorView::MissingParameter)
        }
    } else if name == "undef"@ {
        if 0 <= i < ts.len() && ts[i] is Word {
            Ok((ItemView::Undefine(ts[i]->Word_0), i + 1))
        } else {
            Err(ParseErrorView::MissingParameter)
        }
    } else if name == "ifdef"@ || name == "ifndef"@ {
        if 0 <= i < ts.len() && ts[i] is Word {
            if i + 1 < ts.len() && is_plain_newline(ts[i + 1]) {
                match spec_parse_block(ts, i + 2, depth + 1) {
                    Err(e) => Err(e),
                    Ok(r) => {
                        if r.1 == Some("endif"@) {
                            Ok((mk_conditional(name, ts[i]->Word_0, r.0, Seq::empty()), r.2))
                        } else if r.1 == Some("else"@) {
                            if i + 2 <= r.2 <= ts.len() {
                                match spec_parse_block(ts, r.2, depth + 1) {
                                    Err(e) => Err(e),
                                    Ok(r2) => {
                                        if r2.1 == Some("endif"@) {
                                            Ok(
                                                (
                                                    mk_conditional(name, ts[i]->Word_0, r.0, r2.0),
                                                    r2.2,
                                                ),
                                            )
                                        } else {
                                            Err(ParseErrorView::ElseWithoutEndif)
                                        }
                                    },
                                }
                            } else {
                                arbitrary()
                            }
                        } else {
                            Err(ParseErrorView::IfWithoutEndif)
                        }
                    },
                }
            } else {
                Err(ParseErrorView::MissingNewline)
            }
        } else {
            Err(ParseErrorView::MissingParameter)
        }
    } else if is_closing_name(name) {
        Err(ParseErrorView::UnexpectedPreprocessor(name))
    } else {
        Err(ParseErrorView::UnrecognizedPreprocessor(name))
    }
}

/// The item tree of a whole token sequence.
pub open spec fn spec_parse(ts: Seq<TokenView>) -> Result<Seq<ItemView>, ParseErrorView> {
    match spec_parse_block(ts, 0, 0) {
        Err(e) => Err(e),
        Ok(r) => Ok(r.0),
    }
}

/// A successful block parse never moves backwards and never runs past the
/// end of the tokens.
pub proof fn lemma_parse_block_advances(ts: Seq<TokenView>, i: int, depth: int)
    requires
        0 <= i <= ts.len(),
    ensures
        spec_parse_block(ts, i, depth) matches Ok(r) ==> i <= r.2 <= ts.len(),
    decreases ts.len() - i, 1int,
{
    if 0 <= i < ts.len() {
        match ts[i] {
            TokenView::PreprocessorDirective(name) => {
                if depth > 0 && is_closing_name(name) {
                } else {
                    lemma_parse_directive_advances(ts, i + 1, name, depth);
                    match spec_parse_directive(ts, i + 1, name, depth) {
                        Err(_) => {},
                        Ok(r) => {
                            if i < r.1 <= ts.len() {
                                lemma_parse_block_advances(ts, r.1, depth);
                            }
                        },
                    }
                }
            },
            _ => {
                let j = text_end(ts, i + 1);
                lemma_text_end_bounds(ts, i + 1);
                lemma_parse_block_advances(ts, j, depth);
            },
        }
    }
}

/// A successful directive parse moves strictly forward and never runs past
/// the end of the tokens.
pub proof fn lemma_parse_directive_advances(ts: Seq<TokenView>, i: int, name: Seq<char>, depth: int)
    requires
        0 <= i <= ts.len(),
    ensures
        spec_parse_directive(ts, i, name, depth) matches Ok(r) ==> i <= r.1 <= ts.len(),
    decreases ts.len() - i, 0int,
{
    if name == "define"@ && 0 <= i < ts.len() && ts[i] is Word {
        lemma_define_end_bounds(ts, i + 1);
    }
    if (name == "ifdef"@ || name == "ifndef"@) && 0 <= i < ts.len() && ts[i] is Word && i + 1
        < ts.len() && is_plain_newline(ts[i + 1]) {
        lemma_parse_block_advances(ts, i + 2, depth + 1);
        match spec_parse_block(ts, i + 2, depth + 1) {
            Err(_) => {},
            Ok(r) => {
                if r.1 == Some("else"@) && i + 2 <= r.2 <= ts.len() {
                    lemma_parse_block_advances(ts, r.2, depth + 1);
                }
            },
        }
    }
}

} // verus!

// The executable parser, verified against the spec functions above.
verus! {

pub proof fn lemma_token_views_subrange(ts: Seq<Token>, a: int, b: int)
    requires
        0 <= a <= b <= ts.len(),
    ensures
        token_views(ts.subrange(a, b)) == token_views(ts).subrange(a, b),
{
    assert(token_views(ts.subrange(a, b)) =~= token_views(ts).subrange(a, b));
}

/// A copy of the token run `[a, b)`.
fn clone_tokens(tokens: &[Token], a: usize, b: usize) -> (out: Vec<Token>)
    requires
        a <= b <= tokens@.len(),
    ensures
        out@ == tokens@.subrange(a as int, b as int),
{
    let mut out: Vec<Token> = Vec::new();
    let mut m = a;
    proof {
        assert(out@ =~= tokens@.subrange(a as int, a as int));
    }
    loop
        invariant
            a <= m <= b <= tokens@.len(),
            out@ == tokens@.subrange(a as int, m as int),
        ensures
            m == b,
            out@ == tokens@.subrange(a as int, m as int),
        decreases b - m,
    {
        if m >= b {
            break ;
        }
        let t = tokens[m].clone();
        proof {
            assert(tokens@.subrange(a as int, m as int).push(tokens@[m as int]) =~= tokens@
                .subrange(a as int, m as int + 1));
        }
        out.push(t);
        m = m + 1;
    }
    out
}

/// Decides whether `name` closes the current sub-block, consuming the
/// newline (or accepting the end of input) that must follow a closing
/// directive.
fn is_closing_directive(tokens: &[Token], pos: usize, name: &str) -> (r: Result<
    (bool, usize),
    Error,
>)
    requires
        pos <= tokens@.len(),
    ensures
        ({
            let sr = spec_closing(token_views(tokens@), pos as int, name@);
            match r {
                Ok(t2) => sr == Ok::<(bool, int), ParseErrorView>((t2.0, t2.1 as int)) && pos
                    <= t2.1 <= tokens@.len(),
                Err(e) => sr is Err && e@ == ErrorView::ParsingError(sr->Err_0),
            }
        }),
{
    proof {
        if (pos as int) < tokens@.len() {
            assert(token_views(tokens@)[pos as int] == tokens@[pos as int]@);
        }
    }
    if str_eq(name, "else") || str_eq(name, "endif") {
        if pos >= tokens.len() {
            Ok((true, pos))
        } else {
            match &tokens[pos] {
                Token::Newline { with_escape: false } => Ok((true, pos + 1)),
                _ => Err(Error::ParsingError(ParseError::MissingNewline)),
            }
        }
    } else {
        Ok((false, pos))
    }
}

/// One maximal run of non-directive tokens starting at `pos`.
fn parse_text(tokens: &[Token], pos: usize) -> (r: (Item, usize))
    requires
        pos < tokens@.len(),
        !(token_views(tokens@)[pos as int] is PreprocessorDirective),
    ensures
        ({
            let tv = token_views(tokens@);
            &&& item_view(r.0) == ItemView::Text(tv.subrange(pos as int, r.1 as int))
            &&& r.1 as int == text_end(tv, pos as int + 1)
            &&& pos < r.1 <= tokens@.len()
        }),
{
    let ghost tv = token_views(tokens@);
    let n = tokens.len();
    let mut j = pos + 1;
    loop
        invariant
            n == tokens@.len(),
            tv == token_views(tokens@),
            pos < j <= n,
            text_end(tv, pos as int + 1) == text_end(tv, j as int),
        ensures
            pos < j <= n,
            j as int == text_end(tv, pos as int + 1),
        decreases n - j,
    {
        if j >= n {
            break ;
        }
        proof {
            assert(tv[j as int] == tokens@[j as int]@);
        }
        match &tokens[j] {
            Token::PreprocessorDirective(_) => {
                break ;
            },
            _ => {},
        }
        j = j + 1;
    }
    let toks = clone_tokens(tokens, pos, j);
    proof {
        lemma_token_views_subrange(tokens@, pos as int, j as int);
    }
    (Item::Text(toks), j)
}

/// `#define NAME body...`: the name, then everything up to the next
/// unescaped newline (or the end of input); escaped newlines stay inside
/// the body.
fn parse_define(tokens: &[Token], pos: usize) -> (r: Result<(Item, usize), Error>)
    requires
        pos <= tokens@.len(),
    ensures
        ({
            let tv = token_views(tokens@);
            match r {
                Ok(t2) => {
                    let j = define_end(tv, pos as int + 1);
                    &&& pos < tv.len()
                    &&& tv[pos as int] is Word
                    &&& item_view(t2.0) == ItemView::Define(
                        tv[pos as int]->Word_0,
                        tv.subrange(pos as int + 1, j),
                    )
                    &&& t2.1 as int == (if j < tv.len() {
                        j + 1
                    } else {
                        j
                    })
                    &&& pos < t2.1 <= tv.len()
                },
                Err(e) => !(pos < tv.len() && tv[pos as int] is Word) && e == Error::ParsingError(
                    ParseError::MissingParameter,
                ),
            }
        }),
{
    let ghost tv = token_views(tokens@);
    let n = tokens.len();
    proof {
        if (pos as int) < tokens@.len() {
            assert(tv[pos as int] == tokens@[pos as int]@);
        }
    }
    if pos >= n {
        return Err(Error::ParsingError(ParseError::MissingParameter));
    }
    let symbol = match &tokens[pos] {
        Token::Word(s) => s.clone(),
        _ => {
            return Err(Error::ParsingError(ParseError::MissingParameter));
        },
    };
    let mut j = pos + 1;
    loop
        invariant
            n == tokens@.len(),
            tv == token_views(tokens@),
            pos < j <= n,
            define_end(tv, pos as int + 1) == define_end(tv, j as int),
        ensures
            pos < j <= n,
            j as int == define_end(tv, pos as int + 1),
        decreases n - j,
    {
        if j >= n {
            break ;
        }
        proof {
            assert(tv[j as int] == tokens@[j as int]@);
        }
        match &tokens[j] {
            Token::Newline { with_escape: false } => {
                break ;
            },
            _ => {},
        }
        j = j + 1;
    }
    let body = clone_tokens(tokens, pos + 1, j);
    proof {
        lemma_token_views_subrange(tokens@, pos as int + 1, j as int);
    }
    if j < n {
        Ok((Item::Define(symbol, body), j + 1))
    } else {
        Ok((Item::Define(symbol, body), j))
    }
}

} // verus!

// The recursive heart of the parser.
verus! {

/// The conditional directive names differ from every other name the parser
/// dispatches on.
proof fn lemma_cond_name_distinct(name: Seq<char>)
    requires
        name == "ifdef"@ || name == "ifndef"@,
    ensures
        name != "if"@,
        name != "elif"@,
        name != "error"@,
        name != "warning"@,
        name != "line"@,
        name != "pragma"@,
        name != "include"@,
        name != "define"@,
        name != "undef"@,
        !is_closing_name(name),
        "ifdef"@ != "ifndef"@,
{
    reveal_strlit("if");
    reveal_strlit("elif");
    reveal_strlit("error");
    reveal_strlit("warning");
    reveal_strlit("line");
    reveal_strlit("pragma");
    reveal_strlit("include");
    reveal_strlit("define");
    reveal_strlit("undef");
    reveal_strlit("ifdef");
    reveal_strlit("ifndef");
    reveal_strlit("else");
    reveal_strlit("endif");
    assert("if"@.len() == 2);
    assert("elif"@.len() == 4);
    assert("error"@.len() == 5);
    assert("warning"@.len() == 7);
    assert("line"@.len() == 4);
    assert("pragma"@.len() == 6);
    assert("include"@.len() == 7);
    assert("define"@.len() == 6);
    assert("undef"@.len() == 5);
    assert("ifdef"@.len() == 5);
    assert("ifndef"@.len() == 6);
    assert("else"@.len() == 4);
    assert("endif"@.len() == 5);
    assert("ifdef"@[0] == 'i');
    assert("ifndef"@[0] == 'i');
    assert("error"@[0] == 'e');
    assert("undef"@[0] == 'u');
    assert("endif"@[0] == 'e');
    assert("pragma"@[0] == 'p');
    assert("define"@[0] == 'd');
}

/// `#ifdef NAME` / `#ifndef NAME`: the name, then a newline, one sub-block, and
/// optionally an `#else` sub-block, closed by `#endif`.
fn parse_conditional(tokens: &[Token], pos: usize, name: &str, depth: usize) -> (r: Result<
    (Item, usize),
    Error,
>)
    requires
        pos <= tokens@.len(),
        depth + 1 <= pos,
        name@ == "ifdef"@ || name@ == "ifndef"@,
    ensures
        ({
            let sr = spec_parse_directive(token_views(tokens@), pos as int, name@, depth as int);
            match r {
                Ok(t2) => sr == Ok::<(ItemView, int), ParseErrorView>((item_view(t2.0), t2.1 as int))
                    && pos <= t2.1 <= tokens@.len(),
                Err(e) => sr is Err && e@ == ErrorView::ParsingError(sr->Err_0),
            }
        }),
    decreases tokens@.len() - pos, 0int,
{
    let ghost tv = token_views(tokens@);
    proof {
        lemma_cond_name_distinct(name@);
        if (pos as int) < tv.len() {
            assert(tv[pos as int] == tokens@[pos as int]@);
        }
        if (pos as int) + 1 < tv.len() {
            assert(tv[pos as int + 1] == tokens@[pos as int + 1]@);
        }
    }
    let n = tokens.len();
    if pos >= n {
        return Err(Error::ParsingError(ParseError::MissingParameter));
    }
    let symbol = match &tokens[pos] {
        Token::Word(s) => s.clone(),
        _ => {
            return Err(Error::ParsingError(ParseError::MissingParameter));
        },
    };
    if pos + 1 >= n {
        return Err(Error::ParsingError(ParseError::MissingNewline));
    }
    let nl_ok = match &tokens[pos + 1] {
        Token::Newline { with_escape: false } => true,
        _ => false,
    };
    if !nl_ok {
        return Err(Error::ParsingError(ParseError::MissingNewline));
    }
    let (items, closing, j) = match parse_block(tokens, pos + 2, depth + 1) {
        Err(e) => {
            return Err(e);
        },
        Ok(t) => t,
    };
    proof {
        lemma_parse_block_advances(tv, pos as int + 2, depth as int + 1);
    }
    match closing {
        None => Err(Error::ParsingError(ParseError::IfWithoutEndif)),
        Some(c) => {
            if str_eq(c.as_str(), "endif") {
                if str_eq(name, "ifdef") {
                    Ok(
                        (
                            Item::Conditional {
                                define_name: symbol,
                                defined: items,
                                not_defined: Vec::new(),
                            },
                            j,
                        ),
                    )
                } else {
                    Ok(
                        (
                            Item::Conditional {
                                define_name: symbol,
                                defined: Vec::new(),
                                not_defined: items,
                            },
                            j,
                        ),
                    )
                }
            } else if str_eq(c.as_str(), "else") {
                let (items2, closing2, j2) = match parse_block(tokens, j, depth + 1) {
                    Err(e) => {
                        return Err(e);
                    },
                    Ok(t) => t,
                };
                let endif_ok = match &closing2 {
                    Some(c2) => str_eq(c2.as_str(), "endif"),
                    None => false,
                };
                if endif_ok {
                    if str_eq(name, "ifdef") {
                        Ok(
                            (
                                Item::Conditional {
                                    define_name: symbol,
                                    defined: items,
                                    not_defined: items2,
                                },
                                j2,
                            ),
                        )
                    } else {
                        Ok(
                            (
                                Item::Conditional {
                                    define_name: symbol,
                                    defined: items2,
                                    not_defined: items,
                                },
                                j2,
                            ),
                        )
                    }
                } else {
                    Err(Error::ParsingError(ParseError::ElseWithoutEndif))
                }
            } else {
                Err(Error::ParsingError(ParseError::IfWithoutEndif))
            }
        },
    }
}

/// One directive named `name` whose parameters start at `pos`; unsupported,
/// unexpected and unrecognized names are reported as such.
fn parse_directive_as_item(tokens: &[Token], pos: usize, name: &str, depth: usize) -> (r: Result<
    (Item, usize),
    Error,
>)
    requires
        pos <= tokens@.len(),
        depth + 1 <= pos,
    ensures
        ({
            let sr = spec_parse_directive(token_views(tokens@), pos as int, name@, depth as int);
            match r {
                Ok(t2) => sr == Ok::<(ItemView, int), ParseErrorView>((item_view(t2.0), t2.1 as int))
                    && pos <= t2.1 <= tokens@.len(),
                Err(e) => sr is Err && e@ == ErrorView::ParsingError(sr->Err_0),
            }
        }),
    decreases tokens@.len() - pos, 1int,
{
    let ghost tv = token_views(tokens@);
    proof {
        if (pos as int) < tv.len() {
            assert(tv[pos as int] == tokens@[pos as int]@);
        }
    }
    if str_eq(name, "if") || str_eq(name, "elif") || str_eq(name, "error") || str_eq(
        name,
        "warning",
    ) || str_eq(name, "line") || str_eq(name, "pragma") {
        Err(
            Error::ParsingError(
                ParseError::UnsupportedPreprocessor(String::from_str(name)),
            ),
        )
    } else if str_eq(name, "include") {
        if pos >= tokens.len() {
            return Err(Error::ParsingError(ParseError::MissingParameter));
        }
        match &tokens[pos] {
            Token::String(s) => Ok((Item::Include(s.clone()), pos + 1)),
            _ => Err(Error::ParsingError(ParseError::MissingParameter)),
        }
    } else if str_eq(name, "define") {
        let r = parse_define(tokens, pos);
        proof {
            if (pos as int) < tv.len() {
                lemma_define_end_bounds(tv, pos as int + 1);
            }
        }
        r
    } else if str_eq(name, "undef") {
        if pos >= tokens.len() {
            return Err(Error::ParsingError(ParseError::MissingParameter));
        }
        match &tokens[pos] {
            Token::Word(s) => Ok((Item::Undefine(s.clone()), pos + 1)),
            _ => Err(Error::ParsingError(ParseError::MissingParameter)),
        }
    } else if str_eq(name, "ifdef") || str_eq(name, "ifndef") {
        parse_conditional(tokens, pos, name, depth)
    } else if str_eq(name, "else") || str_eq(name, "endif") {
        Err(
            Error::ParsingError(
                ParseError::UnexpectedPreprocessor(String::from_str(name)),
            ),
        )
    } else {
        Err(
            Error::ParsingError(
                ParseError::UnrecognizedPreprocessor(String::from_str(name)),
            ),
        )
    }
}

/// One block of items starting at `i` under nesting depth `depth`.
fn parse_block(tokens: &[Token], i: usize, depth: usize) -> (r: Result<
    (Vec<Item>, Option<String>, usize),
    Error,
>)
    requires
        i <= tokens@.len(),
        depth <= i,
    ensures
        ({
            let sr = spec_parse_block(token_views(tokens@), i as int, depth as int);
            match r {
                Ok(t3) => sr == Ok::<(Seq<ItemView>, Option<Seq<char>>, int), ParseErrorView>(
                    (items_view(t3.0@), opt_str_view(t3.1), t3.2 as int),
                ) && i <= t3.2 <= tokens@.len(),
                Err(e) => sr is Err && e@ == ErrorView::ParsingError(sr->Err_0),
            }
        }),
    decreases tokens@.len() - i, 2int,
{
    let ghost tv = token_views(tokens@);
    let n = tokens.len();
    let mut items: Vec<Item> = Vec::new();
    let mut pos: usize = i;
    proof {
        assert(items_view(items@) =~= Seq::<ItemView>::empty());
        if spec_parse_block(tv, i as int, depth as int) is Ok {
            let rest = spec_parse_block(tv, i as int, depth as int)->Ok_0;
            assert(items_view(items@) + rest.0 =~= rest.0);
        }
    }
    loop
        invariant
            n == tokens@.len(),
            tv == token_views(tokens@),
            i <= pos <= n,
            depth <= pos,
            spec_parse_block(tv, i as int, depth as int) == (match spec_parse_block(
                tv,
                pos as int,
                depth as int,
            ) {
                Err(e) => Err::<(Seq<ItemView>, Option<Seq<char>>, int), ParseErrorView>(e),
                Ok(rest) => Ok((items_view(items@) + rest.0, rest.1, rest.2)),
            }),
        ensures
            pos == n,
            spec_parse_block(tv, i as int, depth as int) == (match spec_parse_block(
                tv,
                pos as int,
                depth as int,
            ) {
                Err(e) => Err::<(Seq<ItemView>, Option<Seq<char>>, int), ParseErrorView>(e),
                Ok(rest) => Ok((items_view(items@) + rest.0, rest.1, rest.2)),
            }),
        decreases n - pos,
    {
        if pos >= n {
            break ;
        }
        proof {
            assert(tv[pos as int] == tokens@[pos as int]@);
        }
        match &tokens[pos] {
            Token::PreprocessorDirective(nm) => {
                if depth > 0 {
                    match is_closing_directive(tokens, pos + 1, nm.as_str()) {
                        Err(e) => {
                            return Err(e);
                        },
                        Ok((true, newpos)) => {
                            proof {
                                assert(items_view(items@) + Seq::<ItemView>::empty() =~= items_view(
                                    items@,
                                ));
                            }
                            return Ok((items, Some(nm.clone()), newpos));
                        },
                        Ok((false, _)) => {},
                    }
                }
                match parse_directive_as_item(tokens, pos + 1, nm.as_str(), depth) {
                    Err(e) => {
                        return Err(e);
                    },
                    Ok((item, j)) => {
                        proof {
                            lemma_items_view_push(items@, item);
                            if spec_parse_block(tv, j as int, depth as int) is Ok {
                                let rest = spec_parse_block(tv, j as int, depth as int)->Ok_0;
                                assert(items_view(items@).push(item_view(item)) =~= items_view(
                                    items@,
                                ) + seq![item_view(item)]);
                                assert((items_view(items@) + seq![item_view(item)]) + rest.0
                                    =~= items_view(items@) + (seq![item_view(item)] + rest.0));
                            }
                        }
                        items.push(item);
                        pos = j;
                    },
                }
            },
            _ => {
                let (item, j) = parse_text(tokens, pos);
                proof {
                    lemma_items_view_push(items@, item);
                    if spec_parse_block(tv, j as int, depth as int) is Ok {
                        let rest = spec_parse_block(tv, j as int, depth as int)->Ok_0;
                        assert(items_view(items@).push(item_view(item)) =~= items_view(items@)
                            + seq![item_view(item)]);
                        assert((items_view(items@) + seq![item_view(item)]) + rest.0 =~= items_view(
                            items@,
                        ) + (seq![item_view(item)] + rest.0));
                    }
                }
                items.push(item);
                pos = j;
            },
        }
    }
    proof {
        assert(items_view(items@) + Seq::<ItemView>::empty() =~= items_view(items@));
    }
    Ok((items, None, pos))
}

/// Consumes the token sequence and produces the item tree that preserves
/// the document's logical order; exactly [`spec_parse`] of the tokens'
/// views.
pub fn parse(tokens: &[Token]) -> (r: Result<Vec<Item>, Error>)
    ensures
        ({
            let sr = spec_parse(token_views(tokens@));
            match r {
                Ok(items) => sr == Ok::<Seq<ItemView>, ParseErrorView>(items_view(items@)),
                Err(e) => sr is Err && e@ == ErrorView::ParsingError(sr->Err_0),
            }
        }),
{
    match parse_block(tokens, 0, 0) {
        Err(e) => Err(e),
        Ok((items, _closing, _end)) => Ok(items),
    }
}

} // verus!
