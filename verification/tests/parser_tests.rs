use shader_preprocessor::error::{Error, ParseError};
use shader_preprocessor::lexer::Token;
use shader_preprocessor::parser::{parse, Item};
use shader_preprocessor::tokenize;

fn word(s: &str) -> Token {
    Token::Word(s.to_string())
}

fn nl() -> Token {
    Token::Newline { with_escape: false }
}

fn parse_err(e: ParseError) -> Result<Vec<Item>, Error> {
    Err(Error::ParsingError(e))
}

#[test]
fn test_parse_conditional() {
    let code1 = "\
#ifdef TEST
defined
#else
undefined
#endif";
    let code2 = "\
#ifndef TEST
undefined
#else
defined
#endif";

    let result = Ok(vec![Item::Conditional {
        define_name: "TEST".to_string(),
        defined: vec![Item::Text(vec![word("defined"), nl()])],
        not_defined: vec![Item::Text(vec![word("undefined"), nl()])],
    }]);

    assert_eq!(parse(&tokenize(code1).unwrap()[..]), result);
    assert_eq!(parse(&tokenize(code2).unwrap()[..]), result);
}

#[test]
fn test_parse_conditional_nested() {
    let code = "\
#ifdef __TEST
    section4
    #ifndef ANOTHER_TEST
        section1
    #endif
    section2
#else
    section3
#endif";

    let result = Ok(vec![Item::Conditional {
        define_name: "__TEST".to_string(),
        defined: vec![
            Item::Text(vec![word("section4"), nl()]),
            Item::Conditional {
                define_name: "ANOTHER_TEST".to_string(),
                defined: vec![],
                not_defined: vec![Item::Text(vec![word("section1"), nl()])],
            },
            Item::Text(vec![word("section2"), nl()]),
        ],
        not_defined: vec![Item::Text(vec![word("section3"), nl()])],
    }]);

    assert_eq!(parse(&tokenize(code).unwrap()[..]), result);
}

#[test]
fn test_parse_include() {
    let code = "#include \"../test.h\"";
    assert_eq!(
        parse(&tokenize(code).unwrap()[..]),
        Ok(vec![Item::Include("../test.h".to_string())])
    );
}

#[test]
fn test_parse_undef() {
    let code = "#undef TEST";
    assert_eq!(
        parse(&tokenize(code).unwrap()[..]),
        Ok(vec![Item::Undefine("TEST".to_string())])
    );
}

#[test]
fn test_parse_define() {
    let code = "#define TEST 0xFFFF // comment\nsome code";
    assert_eq!(
        parse(&tokenize(code).unwrap()[..]),
        Ok(vec![
            Item::Define("TEST".to_string(), vec![word("0xFFFF")]),
            Item::Text(vec![word("some"), word("code")]),
        ])
    );

    let code = "some code\n#define TEST 0xFFFF";
    let token = tokenize(code).unwrap();
    println!("{:?}", token);
    assert_eq!(
        parse(&token[..]),
        Ok(vec![
            Item::Text(vec![word("some"), word("code"), nl()]),
            Item::Define("TEST".to_string(), vec![word("0xFFFF")]),
        ])
    );

    let code = "some code\n#define TEST 0xFFFF\\\n0xFFFE\nsome code";
    let token = tokenize(code).unwrap();
    println!("{:?}", token);
    assert_eq!(
        parse(&token[..]),
        Ok(vec![
            Item::Text(vec![word("some"), word("code"), nl()]),
            Item::Define(
                "TEST".to_string(),
                vec![
                    word("0xFFFF"),
                    Token::Newline { with_escape: true },
                    word("0xFFFE"),
                ],
            ),
            Item::Text(vec![word("some"), word("code")]),
        ])
    );
}

#[test]
fn test_parse_unsupported_directives() {
    for name in ["if", "elif", "error", "warning", "line", "pragma"] {
        let code = format!("#{} once", name);
        assert_eq!(
            parse(&tokenize(&code).unwrap()[..]),
            parse_err(ParseError::UnsupportedPreprocessor(name.to_string()))
        );
    }
}

#[test]
fn test_parse_unrecognized_directive() {
    assert_eq!(
        parse(&tokenize("#foo").unwrap()[..]),
        parse_err(ParseError::UnrecognizedPreprocessor("foo".to_string()))
    );
}

#[test]
fn test_parse_unexpected_closing() {
    assert_eq!(
        parse(&tokenize("#endif").unwrap()[..]),
        parse_err(ParseError::UnexpectedPreprocessor("endif".to_string()))
    );
    assert_eq!(
        parse(&tokenize("#else").unwrap()[..]),
        parse_err(ParseError::UnexpectedPreprocessor("else".to_string()))
    );
}

#[test]
fn test_parse_missing_parameter() {
    assert_eq!(
        parse(&tokenize("#include foo").unwrap()[..]),
        parse_err(ParseError::MissingParameter)
    );
    assert_eq!(
        parse(&tokenize("#undef").unwrap()[..]),
        parse_err(ParseError::MissingParameter)
    );
    assert_eq!(
        parse(&tokenize("#define").unwrap()[..]),
        parse_err(ParseError::MissingParameter)
    );
    assert_eq!(
        parse(&tokenize("#ifdef").unwrap()[..]),
        parse_err(ParseError::MissingParameter)
    );
}

#[test]
fn test_parse_missing_newline() {
    assert_eq!(
        parse(&tokenize("#ifdef A x\ny\n#endif").unwrap()[..]),
        parse_err(ParseError::MissingNewline)
    );
    assert_eq!(
        parse(&tokenize("#ifdef A\nx\n#endif y").unwrap()[..]),
        parse_err(ParseError::MissingNewline)
    );
}

#[test]
fn test_parse_if_without_endif() {
    assert_eq!(
        parse(&tokenize("#ifdef A\nx").unwrap()[..]),
        parse_err(ParseError::IfWithoutEndif)
    );
}

#[test]
fn test_parse_else_without_endif() {
    assert_eq!(
        parse(&tokenize("#ifdef A\nx\n#else\ny").unwrap()[..]),
        parse_err(ParseError::ElseWithoutEndif)
    );
}
