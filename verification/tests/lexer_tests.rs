use shader_preprocessor::error::Error;
use shader_preprocessor::lexer::Token;
use shader_preprocessor::tokenize;

fn word(s: &str) -> Token {
    Token::Word(s.to_string())
}

fn nl() -> Token {
    Token::Newline { with_escape: false }
}

#[test]
fn test_tokenize() {
    let code = "#include \"header.h\"
#define TEST 1.0f // Test definition

/* Multiline
comment\"
*/
void frag() {
\tgl_Frag = vec4(vec3(1,1,1) * TEST, 1);
}
";

    assert_eq!(
        tokenize(code),
        Ok(vec![
            Token::PreprocessorDirective("include".to_string()),
            Token::String("header.h".to_string()),
            nl(),
            Token::PreprocessorDirective("define".to_string()),
            word("TEST"),
            word("1.0f"),
            nl(),
            nl(),
            nl(),
            word("void"),
            word("frag"),
            Token::Char('('),
            Token::Char(')'),
            Token::Char('{'),
            nl(),
            word("gl_Frag"),
            Token::Char('='),
            word("vec4"),
            Token::Char('('),
            word("vec3"),
            Token::Char('('),
            word("1"),
            Token::Char(','),
            word("1"),
            Token::Char(','),
            word("1"),
            Token::Char(')'),
            Token::Char('*'),
            word("TEST"),
            Token::Char(','),
            word("1"),
            Token::Char(')'),
            Token::Char(';'),
            nl(),
            Token::Char('}'),
            nl(),
        ])
    );
}

#[test]
fn test_token() {
    {
        let code = "\nsadasda";
        assert_eq!(tokenize(code), Ok(vec![nl(), word("sadasda")]));
    }
    {
        let code = "#include \"header.h\"";
        assert_eq!(
            tokenize(code),
            Ok(vec![
                Token::PreprocessorDirective("include".to_string()),
                Token::String("header.h".to_string()),
            ])
        );
    }
}

#[test]
fn test_word() {
    assert_eq!(
        tokenize("1.0f 2.0f"),
        Ok(vec![word("1.0f"), word("2.0f")])
    );
    assert_eq!(
        tokenize("hello, world"),
        Ok(vec![word("hello"), Token::Char(','), word("world")])
    );
}

#[test]
fn test_comment_line() {
    let code = "// Comment
and some code";
    assert_eq!(
        tokenize(code),
        Ok(vec![nl(), word("and"), word("some"), word("code")])
    );

    let code2 = "\tefsfes";
    assert_eq!(tokenize(code2), Ok(vec![word("efsfes")]));
}

#[test]
fn test_comment_multiline() {
    let code = "/* jsdfoisjd \
    fsd , #! f */ and then some";
    assert_eq!(
        tokenize(code),
        Ok(vec![word("and"), word("then"), word("some")])
    );
}

#[test]
fn test_string() {
    let code = "\"rabadaba\" and then some()";
    assert_eq!(
        tokenize(code),
        Ok(vec![
            Token::String("rabadaba".to_string()),
            word("and"),
            word("then"),
            word("some"),
            Token::Char('('),
            Token::Char(')'),
        ])
    );
}

#[test]
fn test_preproc() {
    let code = "#include \"./file.h\"";
    assert_eq!(
        tokenize(code),
        Ok(vec![
            Token::PreprocessorDirective("include".to_string()),
            Token::String("./file.h".to_string()),
        ])
    );
}

#[test]
fn test_unterminated_string() {
    assert_eq!(tokenize("\"abc"), Err(Error::LexingError));
}

#[test]
fn test_unterminated_block_comment() {
    assert_eq!(tokenize("/* abc"), Err(Error::LexingError));
}

#[test]
fn test_whitespace_only() {
    assert_eq!(tokenize("  \t "), Ok(vec![]));
}

#[test]
fn test_line_comment_at_end_of_input() {
    assert_eq!(tokenize("x // trailing"), Ok(vec![word("x")]));
}

#[test]
fn test_escaped_newline() {
    assert_eq!(
        tokenize("a \\  \nb"),
        Ok(vec![
            word("a"),
            Token::Newline { with_escape: true },
            word("b"),
        ])
    );
    assert_eq!(
        tokenize("a \\\r\nb"),
        Ok(vec![
            word("a"),
            Token::Newline { with_escape: true },
            word("b"),
        ])
    );
}

#[test]
fn test_lone_backslash_and_carriage_return() {
    assert_eq!(tokenize("\\"), Ok(vec![Token::Char('\\')]));
    assert_eq!(tokenize("\r"), Ok(vec![Token::Char('\r')]));
    assert_eq!(tokenize("a\r\nb"), Ok(vec![word("a"), nl(), word("b")]));
}

#[test]
fn test_empty_directive_name() {
    assert_eq!(
        tokenize("# x"),
        Ok(vec![
            Token::PreprocessorDirective(String::new()),
            word("x"),
        ])
    );
}
