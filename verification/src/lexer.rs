//! The lexer: turns the raw source string into a flat token sequence.
//!
//! At each position, after stripping horizontal whitespace, the rules are
//! tried in this order: directive (`#name`), line comment (`//`), block
//! comment (`/* */`), string literal (`"..."`), escaped newline
//! (`\` + optional blanks + newline), newline, word, single character.
//! Comments are consumed but never emitted. The only failures are a string
//! or a block comment that never closes.
//!
//! The function [`spec_tokenize`] is the mathematical model; [`tokenize`]
//! is the executable lexer, verified to return exactly that model's result.

use vstd::prelude::*;
use vstd::string::{StrSliceExecFns, StringExecFns};

use crate::chars::{directive_char, hws, is_directive_char, is_hws, is_word_char, word_char};
use crate::error::Error;

verus! {

/// Spec-level image of a [`Token`]: text payloads appear as character
/// sequences.
pub enum TokenView {
    Word(Seq<char>),
    PreprocessorDirective(Seq<char>),
    Comment,
    String(Seq<char>),
    Newline { with_escape: bool },
    Char(char),
}

/// A lexical token.
#[derive(Debug, PartialEq)]
pub enum Token {
    /// A maximal run of letters, digits, `.`, `'` and `_`.
    Word(String),
    /// The name right after a `#`; possibly empty.
    PreprocessorDirective(String),
    /// A comment; consumed by the lexer, never emitted.
    Comment,
    /// The body between two double quotes, without the quotes.
    String(String),
    /// End of a logical line; `with_escape` when preceded by a backslash.
    Newline { with_escape: bool },
    /// Any other single character.
    Char(char),
}

impl View for Token {
    type V = TokenView;

    open spec fn view(&self) -> TokenView {
        match self {
            Token::Word(s) => TokenView::Word(s@),
            Token::PreprocessorDirective(s) => TokenView::PreprocessorDirective(s@),
            Token::Comment => TokenView::Comment,
            Token::String(s) => TokenView::String(s@),
            Token::Newline { with_escape } => TokenView::Newline { with_escape: *with_escape },
            Token::Char(c) => TokenView::Char(*c),
        }
    }
}

impl Clone for Token {
    fn clone(&self) -> (r: Self)
        ensures
            r == *self,
    {
        match self {
            Token::Word(s) => Token::Word(s.clone()),
            Token::PreprocessorDirective(s) => Token::PreprocessorDirective(s.clone()),
            Token::Comment => Token::Comment,
            Token::String(s) => Token::String(s.clone()),
            Token::Newline { with_escape } => Token::Newline { with_escape: *with_escape },
            Token::Char(c) => Token::Char(*c),
        }
    }
}

/// The textual image of a token in the rendered output: a word or a string
/// body as itself, a directive as `#` plus its name, any newline as a single
/// line feed, a comment as nothing.
pub open spec fn token_image(t: TokenView) -> Seq<char> {
    match t {
        TokenView::Word(s) => s,
        TokenView::PreprocessorDirective(n) => seq!['#'] + n,
        TokenView::Comment => Seq::empty(),
        TokenView::String(s) => s,
        TokenView::Newline { with_escape } => seq!['\n'],
        TokenView::Char(c) => seq![c],
    }
}

impl Token {
    /// The textual image of the token, as [`token_image`] gives it.
    pub fn formatted_str(&self) -> (r: String)
        ensures
            r@ == token_image(self@),
    {
        match self {
            Token::Word(s) => s.clone(),
            Token::String(s) => s.clone(),
            Token::PreprocessorDirective(n) => {
                let mut r = String::from_str("#");
                r.append(n.as_str());
                proof {
                    reveal_strlit("#");
                    assert(r@ =~= seq!['#'] + n@);
                }
                r
            },
            Token::Comment => String::new(),
            Token::Newline { with_escape } => {
                let mut r = String::new();
                crate::chars::push_char(&mut r, '\n');
                proof {
                    assert(r@ =~= seq!['\n']);
                }
                r
            },
            Token::Char(c) => {
                let mut r = String::new();
                crate::chars::push_char(&mut r, *c);
                proof {
                    assert(r@ =~= seq![*c]);
                }
                r
            },
        }
    }
}

/// The views of a token sequence.
pub open spec fn token_views(ts: Seq<Token>) -> Seq<TokenView> {
    ts.map(|k: int, t: Token| t@)
}

pub proof fn lemma_token_views_push(ts: Seq<Token>, t: Token)
    ensures
        token_views(ts.push(t)) == token_views(ts).push(t@),
{
    assert(token_views(ts.push(t)) =~= token_views(ts).push(t@));
}

/// End of the horizontal-whitespace run starting at `i`.
pub open spec fn hws_end(s: Seq<char>, i: int) -> int
    decreases s.len() - i,
{
    if 0 <= i < s.len() && is_hws(s[i]) {
        hws_end(s, i + 1)
    } else {
        i
    }
}

/// End of the word-character run starting at `i`.
pub open spec fn word_end(s: Seq<char>, i: int) -> int
    decreases s.len() - i,
{
    if 0 <= i < s.len() && is_word_char(s[i]) {
        word_end(s, i + 1)
    } else {
        i
    }
}

/// End of the directive-character run starting at `i`.
pub open spec fn directive_end(s: Seq<char>, i: int) -> int
    decreases s.len() - i,
{
    if 0 <= i < s.len() && is_directive_char(s[i]) {
        directive_end(s, i + 1)
    } else {
        i
    }
}

/// Position of the first `c` at or after `i`, or the length if there is
/// none.
pub open spec fn find_char(s: Seq<char>, i: int, c: char) -> int
    decreases s.len() - i,
{
    if 0 <= i < s.len() {
        if s[i] == c {
            i
        } else {
            find_char(s, i + 1, c)
        }
    } else {
        s.len() as int
    }
}

/// Position of the first `*/` at or after `i`, or the length if there is
/// none.
pub open spec fn find_comment_close(s: Seq<char>, i: int) -> int
    decreases s.len() - i,
{
    if 0 <= i && i + 2 <= s.len() {
        if s[i] == '*' && s[i + 1] == '/' {
            i
        } else {
            find_comment_close(s, i + 1)
        }
    } else {
        s.len() as int
    }
}

pub proof fn lemma_hws_end_bounds(s: Seq<char>, i: int)
    requires
        0 <= i <= s.len(),
    ensures
        i <= hws_end(s, i) <= s.len(),
    decreases s.len() - i,
{
    if i < s.len() && is_hws(s[i]) {
        lemma_hws_end_bounds(s, i + 1);
    }
}

pub proof fn lemma_word_end_bounds(s: Seq<char>, i: int)
    requires
        0 <= i <= s.len(),
    ensures
        i <= word_end(s, i) <= s.len(),
    decreases s.len() - i,
{
    if i < s.len() && is_word_char(s[i]) {
        lemma_word_end_bounds(s, i + 1);
    }
}

pub proof fn lemma_directive_end_bounds(s: Seq<char>, i: int)
    requires
        0 <= i <= s.len(),
    ensures
        i <= directive_end(s, i) <= s.len(),
    decreases s.len() - i,
{
    if i < s.len() && is_directive_char(s[i]) {
        lemma_directive_end_bounds(s, i + 1);
    }
}

pub proof fn lemma_find_char_bounds(s: Seq<char>, i: int, c: char)
    requires
        0 <= i <= s.len(),
    ensures
        i <= find_char(s, i, c) <= s.len(),
    decreases s.len() - i,
{
    if i < s.len() && s[i] != c {
        lemma_find_char_bounds(s, i + 1, c);
    }
}

pub proof fn lemma_find_comment_close_bounds(s: Seq<char>, i: int)
    requires
        0 <= i <= s.len(),
    ensures
        i <= find_comment_close(s, i) <= s.len(),
    decreases s.len() - i,
{
    if i + 2 <= s.len() && !(s[i] == '*' && s[i + 1] == '/') {
        lemma_find_comment_close_bounds(s, i + 1);
    }
}

/// Where an escaped-newline token starting at the backslash at `i` ends,
/// if the backslash is indeed followed by optional blanks and a newline.
pub open spec fn escape_nl_end(s: Seq<char>, i: int) -> Option<int> {
    let m = hws_end(s, i + 1);
    if m < s.len() && s[m] == '\n' {
        Some(m + 1)
    } else if m + 2 <= s.len() && s[m] == '\r' && s[m + 1] == '\n' {
        Some(m + 2)
    } else {
        None
    }
}

/// One token at position `i` (not horizontal whitespace), with the position
/// right after it; `None` when a string or a block comment never closes.
pub open spec fn spec_lex_one(s: Seq<char>, i: int) -> Option<(TokenView, int)> {
    if s[i] == '#' {
        Some(
            (
                TokenView::PreprocessorDirective(s.subrange(i + 1, directive_end(s, i + 1))),
                directive_end(s, i + 1),
            ),
        )
    } else if i + 2 <= s.len() && s[i] == '/' && s[i + 1] == '/' {
        Some((TokenView::Comment, find_char(s, i + 2, '\n')))
    } else if i + 2 <= s.len() && s[i] == '/' && s[i + 1] == '*' {
        if find_comment_close(s, i + 2) + 2 <= s.len() {
            Some((TokenView::Comment, find_comment_close(s, i + 2) + 2))
        } else {
            None
        }
    } else if s[i] == '"' {
        if find_char(s, i + 1, '"') < s.len() {
            Some(
                (
                    TokenView::String(s.subrange(i + 1, find_char(s, i + 1, '"'))),
                    find_char(s, i + 1, '"') + 1,
                ),
            )
        } else {
            None
        }
    } else if s[i] == '\\' && escape_nl_end(s, i) is Some {
        Some((TokenView::Newline { with_escape: true }, escape_nl_end(s, i)->Some_0))
    } else if s[i] == '\n' {
        Some((TokenView::Newline { with_escape: false }, i + 1))
    } else if i + 2 <= s.len() && s[i] == '\r' && s[i + 1] == '\n' {
        Some((TokenView::Newline { with_escape: false }, i + 2))
    } else if is_word_char(s[i]) {
        Some((TokenView::Word(s.subrange(i, word_end(s, i))), word_end(s, i)))
    } else {
        Some((TokenView::Char(s[i]), i + 1))
    }
}

pub proof fn lemma_lex_one_advances(s: Seq<char>, i: int)
    requires
        0 <= i < s.len(),
    ensures
        spec_lex_one(s, i) matches Some(r) ==> i < r.1 <= s.len(),
{
    lemma_directive_end_bounds(s, i + 1);
    if i + 2 <= s.len() {
        lemma_find_char_bounds(s, i + 2, '\n');
        lemma_find_comment_close_bounds(s, i + 2);
    }
    lemma_find_char_bounds(s, i + 1, '"');
    lemma_hws_end_bounds(s, i + 1);
    lemma_word_end_bounds(s, i + 1);
}

/// The token sequence of `s` from position `i` on; `None` on a lexing
/// failure.
pub open spec fn spec_tokenize_from(s: Seq<char>, i: int) -> Option<Seq<TokenView>>
    decreases s.len() - i,
{
    if i < 0 || i >= s.len() {
        Some(Seq::empty())
    } else if is_hws(s[i]) {
        spec_tokenize_from(s, i + 1)
    } else {
        match spec_lex_one(s, i) {
            None => None,
            Some(r) => {
                proof {
                    lemma_lex_one_advances(s, i);
                }
                match spec_tokenize_from(s, r.1) {
                    None => None,
                    Some(rest) => Some(
                        if r.0 is Comment {
                            rest
                        } else {
                            seq![r.0] + rest
                        },
                    ),
                }
            },
        }
    }
}

/// The token sequence of the whole of `s`; `None` on a lexing failure.
pub open spec fn spec_tokenize(s: Seq<char>) -> Option<Seq<TokenView>> {
    spec_tokenize_from(s, 0)
}

fn hws_end_x(s: &str, n: usize, i: usize) -> (j: usize)
    requires
        n == s@.len(),
        i <= n,
    ensures
        j as int == hws_end(s@, i as int),
        i <= j <= n,
{
    let mut j = i;
    loop
        invariant
            n == s@.len(),
            i <= j <= n,
            hws_end(s@, i as int) == hws_end(s@, j as int),
        ensures
            i <= j <= n,
            hws_end(s@, i as int) == hws_end(s@, j as int),
            j == n || !is_hws(s@[j as int]),
        decreases n - j,
    {
        if j >= n {
            break ;
        }
        if !hws(s.get_char(j)) {
            break ;
        }
        j = j + 1;
    }
    j
}

fn word_end_x(s: &str, n: usize, i: usize) -> (j: usize)
    requires
        n == s@.len(),
        i <= n,
    ensures
        j as int == word_end(s@, i as int),
        i <= j <= n,
{
    let mut j = i;
    loop
        invariant
            n == s@.len(),
            i <= j <= n,
            word_end(s@, i as int) == word_end(s@, j as int),
        ensures
            i <= j <= n,
            word_end(s@, i as int) == word_end(s@, j as int),
            j == n || !is_word_char(s@[j as int]),
        decreases n - j,
    {
        if j >= n {
            break ;
        }
        if !word_char(s.get_char(j)) {
            break ;
        }
        j = j + 1;
    }
    j
}

fn directive_end_x(s: &str, n: usize, i: usize) -> (j: usize)
    requires
        n == s@.len(),
        i <= n,
    ensures
        j as int == directive_end(s@, i as int),
        i <= j <= n,
{
    let mut j = i;
    loop
        invariant
            n == s@.len(),
            i <= j <= n,
            directive_end(s@, i as int) == directive_end(s@, j as int),
        ensures
            i <= j <= n,
            directive_end(s@, i as int) == directive_end(s@, j as int),
            j == n || !is_directive_char(s@[j as int]),
        decreases n - j,
    {
        if j >= n {
            break ;
        }
        if !directive_char(s.get_char(j)) {
            break ;
        }
        j = j + 1;
    }
    j
}

fn find_char_x(s: &str, n: usize, i: usize, c: char) -> (j: usize)
    requires
        n == s@.len(),
        i <= n,
    ensures
        j as int == find_char(s@, i as int, c),
        i <= j <= n,
{
    let mut j = i;
    loop
        invariant
            n == s@.len(),
            i <= j <= n,
            find_char(s@, i as int, c) == find_char(s@, j as int, c),
        ensures
            i <= j <= n,
            find_char(s@, i as int, c) == find_char(s@, j as int, c),
            j == n || s@[j as int] == c,
        decreases n - j,
    {
        if j >= n {
            break ;
        }
        if s.get_char(j) == c {
            break ;
        }
        j = j + 1;
    }
    j
}

fn find_comment_close_x(s: &str, n: usize, i: usize) -> (j: usize)
    requires
        n == s@.len(),
        i <= n,
    ensures
        j as int == find_comment_close(s@, i as int),
        i <= j <= n,
{
    let mut j = i;
    loop
        invariant
            n == s@.len(),
            i <= j <= n,
            find_comment_close(s@, i as int) == find_comment_close(s@, j as int),
        ensures
            i <= j <= n,
            find_comment_close(s@, i as int) == find_comment_close(s@, j as int),
            n - j >= 2 && s@[j as int] == '*' && s@[j + 1] == '/',
        decreases n - j,
    {
        if n - j < 2 {
            proof {
                lemma_find_comment_close_bounds(s@, i as int);
            }
            return n;
        }
        if s.get_char(j) == '*' && s.get_char(j + 1) == '/' {
            break ;
        }
        j = j + 1;
    }
    j
}

/// One executable lexing step at position `i`.
fn lex_one(s: &str, n: usize, i: usize) -> (r: Result<(Token, usize), Error>)
    requires
        n == s@.len(),
        i < n,
    ensures
        match r {
            Ok(tj) => spec_lex_one(s@, i as int) == Some((tj.0@, tj.1 as int)) && i < tj.1 <= n,
            Err(e) => spec_lex_one(s@, i as int) is None && e == Error::LexingError,
        },
{
    proof {
        lemma_lex_one_advances(s@, i as int);
    }
    let c = s.get_char(i);
    if c == '#' {
        let j = directive_end_x(s, n, i + 1);
        let name = s.substring_char(i + 1, j).to_owned();
        Ok((Token::PreprocessorDirective(name), j))
    } else if n - i >= 2 && c == '/' && s.get_char(i + 1) == '/' {
        let j = find_char_x(s, n, i + 2, '\n');
        Ok((Token::Comment, j))
    } else if n - i >= 2 && c == '/' && s.get_char(i + 1) == '*' {
        let j = find_comment_close_x(s, n, i + 2);
        if j <= n - 2 {
            Ok((Token::Comment, j + 2))
        } else {
            Err(Error::LexingError)
        }
    } else if c == '"' {
        let j = find_char_x(s, n, i + 1, '"');
        if j < n {
            let body = s.substring_char(i + 1, j).to_owned();
            Ok((Token::String(body), j + 1))
        } else {
            Err(Error::LexingError)
        }
    } else if c == '\\' {
        let m = hws_end_x(s, n, i + 1);
        if m < n && s.get_char(m) == '\n' {
            Ok((Token::Newline { with_escape: true }, m + 1))
        } else if n - m >= 2 && s.get_char(m) == '\r' && s.get_char(m + 1) == '\n' {
            Ok((Token::Newline { with_escape: true }, m + 2))
        } else {
            Ok((Token::Char('\\'), i + 1))
        }
    } else if c == '\n' {
        Ok((Token::Newline { with_escape: false }, i + 1))
    } else if n - i >= 2 && c == '\r' && s.get_char(i + 1) == '\n' {
        Ok((Token::Newline { with_escape: false }, i + 2))
    } else if word_char(c) {
        let j = word_end_x(s, n, i);
        proof {
            lemma_word_end_bounds(s@, i + 1);
        }
        let w = s.substring_char(i, j).to_owned();
        Ok((Token::Word(w), j))
    } else {
        Ok((Token::Char(c), i + 1))
    }
}

/// Turns the raw source string into a flat token sequence, or fails with
/// [`Error::LexingError`] when a string literal or a block comment never
/// closes.
///
/// The result is exactly [`spec_tokenize`] of the input: it contains no
/// comment and no horizontal-whitespace token.
pub fn tokenize(code: &str) -> (r: Result<Vec<Token>, Error>)
    ensures
        match r {
            Ok(v) => spec_tokenize(code@) == Some(token_views(v@)),
            Err(e) => spec_tokenize(code@) is None && e == Error::LexingError,
        },
{
    let n = code.unicode_len();
    let mut out: Vec<Token> = Vec::new();
    let mut pos: usize = 0;
    proof {
        assert(token_views(out@) =~= Seq::<TokenView>::empty());
        if spec_tokenize_from(code@, 0) is Some {
            assert(token_views(out@) + spec_tokenize_from(code@, 0)->Some_0 =~= spec_tokenize_from(
                code@,
                0,
            )->Some_0);
        }
    }
    loop
        invariant
            n == code@.len(),
            pos <= n,
            spec_tokenize(code@) == (match spec_tokenize_from(code@, pos as int) {
                None => None::<Seq<TokenView>>,
                Some(rest) => Some(token_views(out@) + rest),
            }),
        ensures
            pos == n,
            spec_tokenize(code@) == (match spec_tokenize_from(code@, pos as int) {
                None => None::<Seq<TokenView>>,
                Some(rest) => Some(token_views(out@) + rest),
            }),
        decreases n - pos,
    {
        if pos >= n {
            break ;
        }
        let c = code.get_char(pos);
        if hws(c) {
            pos = pos + 1;
            continue ;
        }
        match lex_one(code, n, pos) {
            Err(e) => {
                return Err(e);
            },
            Ok((tok, j)) => {
                match tok {
                    Token::Comment => {},
                    t => {
                        proof {
                            lemma_token_views_push(out@, t);
                            assert(token_views(out@).push(t@) =~= token_views(out@) + seq![t@]);
                            if spec_tokenize_from(code@, j as int) is Some {
                                let rest = spec_tokenize_from(code@, j as int)->Some_0;
                                assert((token_views(out@) + seq![t@]) + rest =~= token_views(out@)
                                    + (seq![t@] + rest));
                            }
                        }
                        out.push(t);
                    },
                }
                pos = j;
            },
        }
    }
    proof {
        assert(token_views(out@) + Seq::<TokenView>::empty() =~= token_views(out@));
    }
    Ok(out)
}

} // verus!
