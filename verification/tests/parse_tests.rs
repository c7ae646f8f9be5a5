use yscl::parse::{parse, ParseError};
use yscl::tree::{Atom, Identifier, List, MapEntry, MapNode, Node};

fn atom(value: &str) -> Node {
    Node::Atom(Atom { value: value.to_string() })
}

fn entry(key: &str, value: Node) -> MapEntry {
    MapEntry { key: Identifier::new(key.to_string()).unwrap(), value }
}

fn map_of(entries: Vec<MapEntry>) -> MapNode {
    MapNode { entries }
}

fn map_value(entries: Vec<MapEntry>) -> Node {
    Node::MapNode(map_of(entries))
}

fn list_value(elements: Vec<Node>) -> Node {
    Node::List(List { elements })
}

fn expect_success(src: &str, expected: &MapNode) {
    match parse(src) {
        Ok(map) => assert_eq!(*expected, map),
        Err(err) => panic!("expected success, got {:?} for source {:?}", err, src),
    }
}

fn expect_unexpected_char_err(src: &str, expected_c: char) {
    match parse(src) {
        Ok(_) => panic!("expected an error for source {:?}", src),
        Err(ParseError::UnexpectedChar(actual_c, actual_index)) => {
            assert_eq!(expected_c, actual_c);
            let at_index = src
                .char_indices()
                .find_map(|(i, c)| if i == actual_index { Some(c) } else { None });
            assert_eq!(
                Some(expected_c),
                at_index,
                "index {} does not match in {:?}",
                actual_index,
                src
            );
        }
        Err(err) => panic!("expected an unexpected-character error, got {:?}", err),
    }
}

fn expect_unexpected_eoi_err(src: &str) {
    match parse(src) {
        Ok(_) => panic!("expected an error for source {:?}", src),
        Err(ParseError::UnexpectedEoi) => {}
        Err(err) => panic!("expected an end-of-input error, got {:?}", err),
    }
}

fn expect_duplicate_key_err(src: &str, expected_key: &str) {
    match parse(src) {
        Ok(_) => panic!("expected an error for source {:?}", src),
        Err(ParseError::DuplicateKey(actual_key, actual_index)) => {
            assert_eq!(expected_key, actual_key);
            let spelled: String = src
                .char_indices()
                .filter_map(|(i, c)| if i >= actual_index { Some(c) } else { None })
                .take(expected_key.chars().count())
                .collect();
            assert_eq!(
                expected_key,
                spelled.as_str(),
                "index {} does not match in {:?}",
                actual_index,
                src
            );
        }
        Err(err) => panic!("expected a duplicate-key error, got {:?}", err),
    }
}

#[test]
fn hello_world() {
    let src = r#"kantu_version = "1.0.0"
dependencies = {
    foo = "2.0.3"
    bar = "bar"
    lorem = {
        url = "https://github.com/kylejlin/nonexistent_repo"
    }
}
licenses = [
    "MIT"
    "APACHE"
    {
        url = "https://github.com/kylejlin/nonexistent_repo/CUSTOM_LICENSE"
    }
]
sequences = [
    "\""
    "\\"
    "\n"
    "\u00263A"
]
"#;
    let expected = map_of(vec![
        entry("kantu_version", atom("1.0.0")),
        entry(
            "dependencies",
            map_value(vec![
                entry("foo", atom("2.0.3")),
                entry("bar", atom("bar")),
                entry(
                    "lorem",
                    map_value(vec![entry(
                        "url",
                        atom("https://github.com/kylejlin/nonexistent_repo"),
                    )]),
                ),
            ]),
        ),
        entry(
            "licenses",
            list_value(vec![
                atom("MIT"),
                atom("APACHE"),
                map_value(vec![entry(
                    "url",
                    atom("https://github.com/kylejlin/nonexistent_repo/CUSTOM_LICENSE"),
                )]),
            ]),
        ),
        entry(
            "sequences",
            list_value(vec![atom("\""), atom("\\"), atom("\n"), atom("\u{263A}")]),
        ),
    ]);
    expect_success(src, &expected);
}

#[test]
fn leading_eq() {
    expect_unexpected_char_err("= \"bar\"\n", '=');
}

#[test]
fn id_eq_eq() {
    expect_unexpected_char_err("foo == \"bar\"\n", '=');
}

#[test]
fn id_id() {
    expect_unexpected_char_err("foo bar = \"baz\"\n", 'b');
}

#[test]
fn id_eq_id() {
    expect_unexpected_char_err("foo = bar\n", 'b');
}

#[test]
fn top_level_expr() {
    expect_unexpected_char_err("\"hello\"\n", '"');
}

#[test]
fn incomplete_entry_id() {
    expect_unexpected_eoi_err("foo");
}

#[test]
fn incomplete_atom() {
    expect_unexpected_eoi_err("foo = \"bar");
}

#[test]
fn newline_in_atom() {
    expect_unexpected_char_err("foo = \"bar\nbaz\"\n", '\n');
}

#[test]
fn incomplete_list() {
    expect_unexpected_eoi_err("foo = [\n");
}

#[test]
fn code_comment_same_line_wrong() {
    expect_unexpected_char_err("foo = \"bar\" // comment\n", '/');
}

#[test]
fn code_comment_same_line_right() {
    let src = "// comment\nfoo = \"bar\"\n";
    let expected = map_of(vec![entry("foo", atom("bar"))]);
    expect_success(src, &expected);
}

#[test]
fn wrong_nested() {
    let src = r#"package = {
    license = "MIT"
    license = "APACHE"
}
"#;
    expect_duplicate_key_err(src, "license");
}

#[test]
fn wrong_top_level() {
    let src = "license = \"MIT\"\nlicense = \"APACHE\"\n";
    expect_duplicate_key_err(src, "license");
}

#[test]
fn right_different_maps() {
    let src = r#"jane_doe = {
    age = "21"
}
taro_yamada = {
    age = "24"
}
"#;
    let expected = map_of(vec![
        entry("jane_doe", map_value(vec![entry("age", atom("21"))])),
        entry("taro_yamada", map_value(vec![entry("age", atom("24"))])),
    ]);
    expect_success(src, &expected);
}

#[test]
fn right_list() {
    let src = "license = [\n    \"MIT\"\n    \"APACHE\"\n]\n";
    let expected = map_of(vec![entry(
        "license",
        list_value(vec![atom("MIT"), atom("APACHE")]),
    )]);
    expect_success(src, &expected);
}

#[test]
fn wrong_leading() {
    expect_unexpected_char_err("0foo = \"bar\"\n", '0');
}

#[test]
fn wrong_singleton() {
    expect_unexpected_char_err("3 = \"foo\"\n", '3');
}

#[test]
fn leading_digit_right() {
    let src = "_3 = \"foo\"\n_0x = \"bar\"\n";
    let expected = map_of(vec![entry("_3", atom("foo")), entry("_0x", atom("bar"))]);
    expect_success(src, &expected);
}

#[test]
fn wrong_eq() {
    expect_unexpected_char_err("foo\n= \"bar\"\n", '\n');
}

#[test]
fn wrong_l_curly() {
    expect_unexpected_char_err("foo =\n{\n}\n", '\n');
}

#[test]
fn wrong_l_square() {
    expect_unexpected_char_err("foo =\n[\n]\n", '\n');
}

#[test]
fn wrong_quote() {
    expect_unexpected_char_err("foo =\n\"bar\"\n", '\n');
}

#[test]
fn multi_line_entry_right() {
    let src = "foo = \"bar\"\nlorem = {\n    ipsum = \"dolor\"\n}\n";
    let expected = map_of(vec![
        entry("foo", atom("bar")),
        entry("lorem", map_value(vec![entry("ipsum", atom("dolor"))])),
    ]);
    expect_success(src, &expected);
}

#[test]
fn multiple_elements_per_line_wrong() {
    expect_unexpected_char_err("foo = [\n    \"bar\" \"baz\"\n]\n", '"');
}

#[test]
fn multiple_elements_per_line_right() {
    let src = "foo = [\n    \"bar\"\n    \"baz\"\n]\n";
    let expected = map_of(vec![entry(
        "foo",
        list_value(vec![atom("bar"), atom("baz")]),
    )]);
    expect_success(src, &expected);
}

#[test]
fn multiple_entries_per_line_wrong() {
    expect_unexpected_char_err("foo = \"bar\" lorem = \"ipsum\"\n", 'l');
}

#[test]
fn multiple_entries_per_line_right() {
    let src = "foo = \"bar\"\nlorem = \"ipsum\"\n";
    let expected = map_of(vec![entry("foo", atom("bar")), entry("lorem", atom("ipsum"))]);
    expect_success(src, &expected);
}

#[test]
fn wrong_element() {
    expect_unexpected_char_err("foo = [\"bar\"]\n", '"');
}

#[test]
fn wrong_entry() {
    expect_unexpected_char_err("foo = { ipsum = \"dolor\" }\n", 'i');
}

#[test]
fn wrong_r_curly() {
    expect_unexpected_char_err("foo = {\n    bar = \"baz\" }\n", '}');
}

#[test]
fn wrong_r_square() {
    expect_unexpected_char_err("foo = [\n    \"bar\" ]\n", ']');
}

#[test]
fn oneliner_right() {
    let src = r#"lorem = {
    ipsum = "dolor"
}
foo = [
    "bar"
]
empty_map = {}
empty_list = []
"#;
    let expected = map_of(vec![
        entry("lorem", map_value(vec![entry("ipsum", atom("dolor"))])),
        entry("foo", list_value(vec![atom("bar")])),
        entry("empty_map", map_value(vec![])),
        entry("empty_list", list_value(vec![])),
    ]);
    expect_success(src, &expected);
}

#[test]
fn surrogate_code_point_wrong() {
    expect_unexpected_char_err("foo = \"\\u00DEAD\"\n", 'D');
}

#[test]
fn surrogate_code_point_right() {
    let src = "foo = \"\\u01F60A\"\nfoo2 = \"\u{01F60A}\"\n";
    let expected = map_of(vec![
        entry("foo", atom("\u{01F60A}")),
        entry("foo2", atom("\u{01F60A}")),
    ]);
    expect_success(src, &expected);
}
