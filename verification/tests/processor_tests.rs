use shader_preprocessor::error::{Error, ParseError};
use shader_preprocessor::loader::{EmptyLoader, FileLoader, StaticLoader};
use shader_preprocessor::processor::{process, Define};
use shader_preprocessor::table::SymbolTable;

fn one_file(path: &str, contents: &str) -> StaticLoader {
    StaticLoader { files: vec![(path.to_string(), contents.to_string())] }
}

#[test]
pub fn test_process_ifdef() {
    let code = "\
#ifdef TEST
foo
#else
bar
#endif";

    assert_eq!(
        process(code, &[Define::new("TEST", "")], &EmptyLoader),
        Ok("foo\n".to_string())
    );
    assert_eq!(process(code, &[], &EmptyLoader), Ok("bar\n".to_string()));
}

#[test]
pub fn test_process_define() {
    let code = "\
#define foo bar
foo";

    assert_eq!(process(code, &[], &EmptyLoader), Ok("bar".to_string()));
}

#[test]
pub fn test_process_include() {
    let code = "\
#include \"test\"
bar";
    let code_2 = "foo";

    assert_eq!(
        process(code, &[], &one_file("test", code_2)),
        Ok("foo\nbar".to_string())
    );
}

#[test]
pub fn test_overflow() {
    let code = "\
#define foo bar
#define bar foo
foo";

    assert_eq!(
        process(code, &[], &EmptyLoader),
        Err(Error::MaxRecursionDepthReached)
    );
}

#[test]
fn test_process_ifndef() {
    let code = "\
#ifndef TEST
foo
#else
bar
#endif";

    assert_eq!(
        process(code, &[Define::new("TEST", "")], &EmptyLoader),
        Ok("bar\n".to_string())
    );
    assert_eq!(process(code, &[], &EmptyLoader), Ok("foo\n".to_string()));
}

#[test]
fn test_process_nested_conditionals() {
    let code = "\
#ifdef A
 #ifdef B
 x
 #endif
 y
#else
 z
#endif";

    assert_eq!(
        process(code, &[Define::new("A", "")], &EmptyLoader),
        Ok("y\n".to_string())
    );
    assert_eq!(
        process(
            code,
            &[Define::new("A", ""), Define::new("B", "")],
            &EmptyLoader
        ),
        Ok("x\ny\n".to_string())
    );
    assert_eq!(process(code, &[], &EmptyLoader), Ok("z\n".to_string()));
}

#[test]
fn test_process_unsupported_pragma() {
    assert_eq!(
        process("#pragma once", &[], &EmptyLoader),
        Err(Error::ParsingError(ParseError::UnsupportedPreprocessor(
            "pragma".to_string()
        )))
    );
}

#[test]
fn test_process_empty_input() {
    assert_eq!(process("", &[], &EmptyLoader), Ok(String::new()));
}

#[test]
fn test_process_cant_open_file() {
    assert_eq!(
        process("#include \"missing\"", &[], &EmptyLoader),
        Err(Error::CantOpenFile)
    );
}

#[test]
fn test_process_whitespace_normalization() {
    assert_eq!(
        process("a   b\t c\nd", &[], &EmptyLoader),
        Ok("a b c\nd".to_string())
    );
}

#[test]
fn test_process_undef() {
    let code = "\
#define A x
#undef A
A";
    assert_eq!(process(code, &[], &EmptyLoader), Ok("\nA".to_string()));

    assert_eq!(
        process("#undef B\nok", &[], &EmptyLoader),
        Ok("\nok".to_string())
    );
}

#[test]
fn test_process_blank_define_guards() {
    let code = "\
#define G
#ifdef G
yes
#endif";
    assert_eq!(process(code, &[], &EmptyLoader), Ok("yes\n".to_string()));
}

#[test]
fn test_process_define_overwrites() {
    let code = "\
#define A one
#define A two
A";
    assert_eq!(process(code, &[], &EmptyLoader), Ok("two".to_string()));

    let code2 = "A";
    assert_eq!(
        process(code2, &[Define::new("A", "x"), Define::new("A", "y")], &EmptyLoader),
        Ok("y".to_string())
    );
}

#[test]
fn test_process_string_not_substituted() {
    let code = "\
#define foo bar
\"foo\"";
    assert_eq!(process(code, &[], &EmptyLoader), Ok("foo".to_string()));
}

#[test]
fn test_process_escaped_newline_in_define() {
    let code = "some code\n#define TEST 0xFFFF\\\n0xFFFE\nTEST";
    assert_eq!(
        process(code, &[], &EmptyLoader),
        Ok("some code\n0xFFFF\n0xFFFE".to_string())
    );
}

#[test]
fn test_process_define_inside_include_persists() {
    let code = "\
#include \"defs\"
X";
    assert_eq!(
        process(code, &[], &one_file("defs", "#define X hello\n")),
        Ok("\nhello".to_string())
    );
}

#[test]
fn test_process_define_in_not_taken_branch_is_isolated() {
    let code = "\
#ifdef NOPE
#define X yes
#endif
X";
    assert_eq!(process(code, &[], &EmptyLoader), Ok("X".to_string()));
}

#[test]
fn test_process_repeated_include_expands_each_time() {
    let code = "\
#include \"p\"
#include \"p\"
";
    assert_eq!(
        process(code, &[], &one_file("p", "q")),
        Ok("q\nq\n".to_string())
    );
}

#[test]
fn test_process_self_include_hits_depth_cap() {
    assert_eq!(
        process(
            "#include \"a\"",
            &[],
            &one_file("a", "#include \"a\"")
        ),
        Err(Error::MaxRecursionDepthReached)
    );
}

#[test]
fn test_process_substitution_relexes_value() {
    let code = "A";
    assert_eq!(
        process(code, &[Define::new("A", "x   y")], &EmptyLoader),
        Ok("x y".to_string())
    );
}

#[test]
fn test_symbol_table_operations() {
    let mut t = SymbolTable::new();
    assert!(!t.contains("A"));
    t.insert("A".to_string(), Some("1".to_string()));
    assert!(t.contains("A"));
    assert_eq!(t.get("A"), Some(&Some("1".to_string())));
    t.insert("A".to_string(), None);
    assert_eq!(t.get("A"), Some(&None));
    t.remove("A");
    assert!(!t.contains("A"));
    assert_eq!(t.get("A"), None);
    t.remove("A");
    assert!(!t.contains("A"));
}

#[test]
fn test_static_loader_lookup() {
    let l = StaticLoader {
        files: vec![
            ("a".to_string(), "1".to_string()),
            ("b".to_string(), "2".to_string()),
            ("a".to_string(), "3".to_string()),
        ],
    };
    assert_eq!(l.load("a"), Some("1".to_string()));
    assert_eq!(l.load("b"), Some("2".to_string()));
    assert_eq!(l.load("c"), None);
}

#[test]
fn test_process_passthrough_with_unused_defines() {
    assert_eq!(
        process("a  b\nc", &[Define::new("X", "1"), Define::new("Y", "2")], &EmptyLoader),
        Ok("a b\nc".to_string())
    );
}

#[test]
fn test_pipeline_total_on_odd_inputs() {
    let inputs = [
        "",
        " \t ",
        "#",
        "# \n#\n",
        "\\",
        "\r",
        "a'b.c_d 0xff 1.0f",
        "{}();,+-*/=<>!&|^%~?:",
        "\"string with # and // inside\"",
        "/* unterminated",
        "\"unterminated",
        "#ifdef A\n#ifdef B\nx\n#endif\n#endif",
        "#else\n",
        "#define",
        "#include",
        "x\\\n y\\ \r\nz",
    ];
    for code in inputs {
        let _ = process(code, &[], &EmptyLoader);
        let _ = process(code, &[Define::new("A", "1")], &one_file("p", "q"));
    }
}
