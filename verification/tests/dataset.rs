use id3_tree::parser::{parse_usize, split_ws, str_eq, trim, Parser, ParserErr};

fn lines(text: &str) -> Vec<String> {
    text.lines().map(|l| l.to_string()).collect()
}

fn expect_err(r: Result<Parser, ParserErr>) -> ParserErr {
    match r {
        Err(e) => e,
        Ok(_) => panic!("expected an error"),
    }
}

#[test]
fn parses_a_small_dataset() {
    let input = lines(
        "attributes {\n  Color: red green\n  Shape: round square\n}\n\
         classes {\n  A\n  B\n}\n\
         objects {\n  1 A red round\n  2 B green square\n}\n",
    );
    let p = Parser::parse(&input).unwrap();
    assert_eq!(p.attr.len(), 2);
    assert_eq!(p.attr[0].id, 0);
    assert_eq!(p.attr[0].name, "Color");
    assert_eq!(p.attr[0].values, vec!["red".to_string(), "green".to_string()]);
    assert_eq!(p.attr[1].id, 1);
    assert_eq!(p.attr[1].name, "Shape");
    assert_eq!(p.class, vec!["A".to_string(), "B".to_string()]);
    assert_eq!(p.object.len(), 2);
    assert_eq!(p.object[0].id, 1);
    assert_eq!(p.object[0].class, "A");
    assert_eq!(p.object[0].attr, vec!["red".to_string(), "round".to_string()]);
    assert_eq!(p.object[1].id, 2);
    assert_eq!(p.object[1].class, "B");
}

#[test]
fn blank_lines_are_skipped() {
    let input = lines("\nattributes {\n\n  C: x\n}\n\nclasses {\n  A\n}\n");
    let p = Parser::parse(&input).unwrap();
    assert_eq!(p.attr.len(), 1);
    assert_eq!(p.class.len(), 1);
    assert!(p.object.is_empty());
}

#[test]
fn unclosed_block_is_rejected() {
    let input = lines("attributes {\n  C: x\n");
    assert_eq!(expect_err(Parser::parse(&input)), ParserErr::NotEndedBlock);
}

#[test]
fn stray_line_is_rejected() {
    let input = lines("garbage\n");
    assert_eq!(expect_err(Parser::parse(&input)), ParserErr::UnexpectedFormat);
}

#[test]
fn attribute_without_colon_is_rejected() {
    let input = lines("attributes {\n  Color red green\n}\n");
    assert_eq!(expect_err(Parser::parse(&input)), ParserErr::UnexpectedFormat);
}

#[test]
fn attribute_with_two_colons_is_rejected() {
    let input = lines("attributes {\n  Color: red: green\n}\n");
    assert_eq!(expect_err(Parser::parse(&input)), ParserErr::UnexpectedFormat);
}

#[test]
fn class_line_with_two_tokens_is_rejected() {
    let input = lines("classes {\n  A B\n}\n");
    assert_eq!(
        expect_err(Parser::parse(&input)),
        ParserErr::InvalidClassName("A B".to_string())
    );
}

#[test]
fn objects_before_declarations_are_rejected() {
    let input = lines("objects {\n  1 A red\n}\n");
    assert_eq!(expect_err(Parser::parse(&input)), ParserErr::InvalidOrder);
}

#[test]
fn object_with_wrong_arity_is_rejected() {
    let input = lines(
        "attributes {\n  C: x y\n}\nclasses {\n  A\n}\nobjects {\n  1 A x y\n}\n",
    );
    assert_eq!(expect_err(Parser::parse(&input)), ParserErr::InvalidObject);
}

#[test]
fn object_with_bad_id_is_rejected() {
    let input = lines(
        "attributes {\n  C: x\n}\nclasses {\n  A\n}\nobjects {\n  one A x\n}\n",
    );
    assert_eq!(expect_err(Parser::parse(&input)), ParserErr::InvalidObject);
}

#[test]
fn error_messages() {
    assert_eq!(ParserErr::ReadErr.message(), "error reading file");
    assert_eq!(ParserErr::NotEndedBlock.message(), "block not ended");
    assert_eq!(ParserErr::UnexpectedFormat.message(), "unexpected file format");
    assert_eq!(
        ParserErr::InvalidClassName("A B".to_string()).message(),
        "invalid class name 'A B'"
    );
    assert_eq!(
        ParserErr::InvalidOrder.message(),
        "objects before attributes and classes"
    );
    assert_eq!(ParserErr::InvalidObject.message(), "invalid object format");
}

#[test]
fn trim_strips_both_ends() {
    assert_eq!(trim("  a b \t"), "a b");
    assert_eq!(trim("x"), "x");
    assert_eq!(trim("   \t "), "");
    assert_eq!(trim(""), "");
}

#[test]
fn split_ws_tokenizes() {
    assert_eq!(split_ws(" red  green\tblue "), vec!["red", "green", "blue"]);
    assert_eq!(split_ws(""), Vec::<String>::new());
    assert_eq!(split_ws("   "), Vec::<String>::new());
}

#[test]
fn parse_usize_accepts_digits() {
    assert_eq!(parse_usize("0"), Some(0));
    assert_eq!(parse_usize("42"), Some(42));
    assert_eq!(parse_usize("+7"), Some(7));
    assert_eq!(parse_usize(""), None);
    assert_eq!(parse_usize("+"), None);
    assert_eq!(parse_usize("4x"), None);
    assert_eq!(parse_usize("-3"), None);
}

#[test]
fn str_eq_compares_contents() {
    assert!(str_eq("abc", "abc"));
    assert!(!str_eq("abc", "abd"));
    assert!(!str_eq("abc", "ab"));
    assert!(str_eq("", ""));
}
