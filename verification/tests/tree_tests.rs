use yscl::parse::{parse, ParseError};
use yscl::tracker::wrap_in_non_whitespace_tracker;
use yscl::tree::{Atom, Identifier, List, MapEntry, MapNode, Node, NodeRef};
use yscl::unfinished::{Unfinished, UnfinishedMap, UnfinishedMapEntry};
use yscl::reduce::reduce_stack;

fn atom(value: &str) -> Node {
    Node::Atom(Atom { value: value.to_string() })
}

fn entry(key: &str, value: Node) -> MapEntry {
    MapEntry { key: Identifier::new(key.to_string()).unwrap(), value }
}

#[test]
fn end_to_end_example() {
    let src = r#"name = "demo"
deps = {
    a = "1.0"
}
tags = [
    "x"
    "y"
]
"#;
    let map = parse(src).unwrap();
    assert_eq!(3, map.entries.len());
    assert_eq!("name", map.entries[0].key.as_str());
    assert_eq!(atom("demo"), map.entries[0].value);
    assert_eq!("deps", map.entries[1].key.as_str());
    let deps = map.entries[1].value.as_ref().map().unwrap();
    assert_eq!(1, deps.entries.len());
    assert_eq!("a", deps.entries[0].key.as_str());
    assert_eq!(atom("1.0"), deps.entries[0].value);
    assert_eq!("tags", map.entries[2].key.as_str());
    let tags = map.entries[2].value.as_ref().list().unwrap();
    assert_eq!(vec![atom("x"), atom("y")], tags.elements);
}

#[test]
fn layout_two_entries_one_line() {
    // the second entry's leading character is the offender
    match parse("foo = \"bar\" baz = \"qux\"") {
        Err(ParseError::UnexpectedChar(c, i)) => {
            assert_eq!('b', c);
            assert_eq!(12, i);
        }
        other => panic!("expected an unexpected-character error, got {:?}", other),
    }
}

#[test]
fn leading_digit_offset() {
    match parse("3x = \"y\"") {
        Err(ParseError::UnexpectedChar(c, i)) => {
            assert_eq!('3', c);
            assert_eq!(0, i);
        }
        other => panic!("expected an unexpected-character error, got {:?}", other),
    }
    let map = parse("x3 = \"y\"\n").unwrap();
    assert_eq!("x3", map.entries[0].key.as_str());
}

#[test]
fn escape_decoding() {
    let map = parse("a = \"x\\ny\"\nb = \"\\\"\"\nc = \"\\\\\"\n").unwrap();
    assert_eq!(atom("x\ny"), map.entries[0].value);
    assert_eq!(atom("\""), map.entries[1].value);
    assert_eq!(atom("\\"), map.entries[2].value);
}

#[test]
fn escape_surrogate_offset() {
    // a six-digit escape naming a surrogate fails at the last hex digit
    let src = "a = \"\\u00D800\"";
    match parse(src) {
        Err(ParseError::UnexpectedChar(c, i)) => {
            assert_eq!('0', c);
            assert_eq!(12, i);
        }
        other => panic!("expected an unexpected-character error, got {:?}", other),
    }
}

#[test]
fn escape_bad_hex_digit() {
    match parse("a = \"\\u00g000\"") {
        Err(ParseError::UnexpectedChar(c, i)) => {
            assert_eq!('g', c);
            assert_eq!(9, i);
        }
        other => panic!("expected an unexpected-character error, got {:?}", other),
    }
}

#[test]
fn escape_unknown() {
    match parse("a = \"\\t\"") {
        Err(ParseError::UnexpectedChar(c, i)) => {
            assert_eq!('t', c);
            assert_eq!(6, i);
        }
        other => panic!("expected an unexpected-character error, got {:?}", other),
    }
}

#[test]
fn multibyte_offsets() {
    // the atom holds a two-byte codepoint; the offending character after the
    // closing quote sits at the byte offset past it
    match parse("k = \"\u{E9}\"x") {
        Err(ParseError::UnexpectedChar(c, i)) => {
            assert_eq!('x', c);
            assert_eq!(8, i);
        }
        other => panic!("expected an unexpected-character error, got {:?}", other),
    }
}

#[test]
fn comment_inside_list() {
    let src = "xs = [\n    \"a\"\n    // skip this line\n    \"b\"\n]\n";
    let map = parse(src).unwrap();
    let xs = map.entries[0].value.as_ref().list().unwrap();
    assert_eq!(vec![atom("a"), atom("b")], xs.elements);
}

#[test]
fn unterminated_comment_opener() {
    match parse("/ oops\n") {
        Err(ParseError::UnexpectedChar(c, i)) => {
            assert_eq!(' ', c);
            assert_eq!(1, i);
        }
        other => panic!("expected an unexpected-character error, got {:?}", other),
    }
    // a lone slash at the very end of input
    match parse("/") {
        Err(ParseError::UnexpectedEoi) => {}
        other => panic!("expected an end-of-input error, got {:?}", other),
    }
}

#[test]
fn empty_document() {
    let map = parse("").unwrap();
    assert_eq!(0, map.entries.len());
}

#[test]
fn identifier_rules() {
    assert_eq!("abc_123", Identifier::new("abc_123".to_string()).unwrap().as_str());
    assert_eq!(Err(0), Identifier::new("3x".to_string()).map(|id| id.as_str().to_string()));
    assert_eq!(Err(1), Identifier::new("a-b".to_string()).map(|id| id.as_str().to_string()));
    assert!(Identifier::new(String::new()).is_err());
}

#[test]
fn map_get() {
    let src = "kantu_version = \"1.0.0\"\nname = \"fibonacci\"\n";
    let map = parse(src).unwrap();
    assert_eq!(
        "1.0.0",
        map.get("kantu_version").unwrap().as_ref().atom().unwrap().value
    );
    assert_eq!(None, map.get("repository"));
}

#[test]
fn node_accessors() {
    let n = atom("x");
    assert_eq!(Some(Atom { value: "x".to_string() }), n.as_ref().atom().cloned());
    assert_eq!(None, n.as_ref().map());
    assert_eq!(None, n.as_ref().list());
    assert_eq!(Some(Atom { value: "x".to_string() }), atom("x").atom());
    assert_eq!(None, atom("x").map());
    assert_eq!(None, atom("x").list());
}

#[test]
fn node_ref_to_owned() {
    let map = parse("a = {\n    b = [\n        \"c\"\n    ]\n}\n").unwrap();
    let n = Node::MapNode(map);
    let copy = n.as_ref().to_owned();
    assert_eq!(n, copy);
    match n.as_ref() {
        NodeRef::MapNode(m) => {
            let inner = m.entries[0].value.as_ref().to_owned();
            assert_eq!(m.entries[0].value, inner);
        }
        _ => panic!("expected a map"),
    }
}

#[test]
fn tracker_counts() {
    let mut t = wrap_in_non_whitespace_tracker("a b\nc\u{E9}");
    assert_eq!(0, t.non_whitespace_on_current_line());
    assert_eq!(Some((0, 'a')), t.next());
    assert_eq!(1, t.non_whitespace_on_current_line());
    assert_eq!(Some((1, ' ')), t.next());
    assert_eq!(1, t.non_whitespace_on_current_line());
    assert_eq!(Some((2, 'b')), t.next());
    assert_eq!(2, t.non_whitespace_on_current_line());
    assert_eq!(Some((3, '\n')), t.next());
    assert_eq!(0, t.non_whitespace_on_current_line());
    assert_eq!(Some((4, 'c')), t.next());
    assert_eq!(Some((5, '\u{E9}')), t.next());
    assert_eq!(2, t.non_whitespace_on_current_line());
    assert_eq!(None, t.next());
}

#[test]
fn reduce_into_map_frame() {
    let mut pending = UnfinishedMapEntry::empty();
    pending.key = "k".to_string();
    pending.key_start_byte_index = Some(0);
    pending.has_equal = true;
    let mut stack = vec![Unfinished::MapNode(UnfinishedMap {
        entries: vec![],
        entry_key_offsets: vec![],
        pending_entry: pending,
    })];
    let r = reduce_stack(&mut stack, atom("v"));
    assert_eq!(Ok(None), r.map_err(|_| ()));
    match &stack[0] {
        Unfinished::MapNode(m) => {
            assert_eq!(1, m.entries.len());
            assert_eq!("k", m.entries[0].key.as_str());
            assert_eq!(atom("v"), m.entries[0].value);
            assert_eq!(vec![0], m.entry_key_offsets);
            assert_eq!("", m.pending_entry.key);
            assert!(!m.pending_entry.has_equal);
        }
        _ => panic!("expected a map frame"),
    }
}

#[test]
fn reduce_finishes_document() {
    let mut stack: Vec<Unfinished> = vec![];
    let r = reduce_stack(&mut stack, Node::MapNode(MapNode { entries: vec![] }));
    match r {
        Ok(Some(m)) => assert_eq!(0, m.entries.len()),
        other => panic!("expected the finished document, got {:?}", other),
    }
}

#[test]
fn reduce_refuses_unready_frame() {
    // the exposed map frame has not seen `=`: an internal-consistency fault
    let mut stack = vec![Unfinished::MapNode(UnfinishedMap {
        entries: vec![],
        entry_key_offsets: vec![],
        pending_entry: UnfinishedMapEntry::empty(),
    })];
    let r = reduce_stack(&mut stack, atom("v"));
    assert!(r.is_err());
}

#[test]
fn empty_pending_entry() {
    let p = UnfinishedMapEntry::empty();
    assert_eq!("", p.key);
    assert_eq!(None, p.key_start_byte_index);
    assert!(!p.has_space_after_key);
    assert!(!p.has_equal);
}

#[test]
fn duplicate_key_reports_first_occurrence() {
    let src = "a = \"1\"\nkey = \"x\"\nkey = \"y\"\n";
    match parse(src) {
        Err(ParseError::DuplicateKey(k, i)) => {
            assert_eq!("key", k);
            assert_eq!(8, i);
        }
        other => panic!("expected a duplicate-key error, got {:?}", other),
    }
}

#[test]
fn same_key_in_sibling_maps_is_legal() {
    let src = "a = {\n    x = \"1\"\n}\nb = {\n    x = \"2\"\n}\n";
    let map = parse(src).unwrap();
    assert_eq!(2, map.entries.len());
}

#[test]
fn entry_order_is_source_order() {
    let src = "zz = \"1\"\naa = \"2\"\nmm = \"3\"\n";
    let map = parse(src).unwrap();
    let keys: Vec<&str> = map.entries.iter().map(|e| e.key.as_str()).collect();
    assert_eq!(vec!["zz", "aa", "mm"], keys);
}

#[test]
fn non_ascii_key_rejected() {
    // keys are ASCII letters, digits and underscores only
    match parse("\u{E9} = \"x\"\n") {
        Err(ParseError::UnexpectedChar(c, i)) => {
            assert_eq!('\u{E9}', c);
            assert_eq!(0, i);
        }
        other => panic!("expected an unexpected-character error, got {:?}", other),
    }
    match parse("ab\u{E9} = \"x\"\n") {
        Err(ParseError::UnexpectedChar(c, i)) => {
            assert_eq!('\u{E9}', c);
            assert_eq!(2, i);
        }
        other => panic!("expected an unexpected-character error, got {:?}", other),
    }
}

#[test]
fn truncated_hex_escape() {
    match parse("a = \"\\u012") {
        Err(ParseError::UnexpectedEoi) => {}
        other => panic!("expected an end-of-input error, got {:?}", other),
    }
    match parse("a = \"\\") {
        Err(ParseError::UnexpectedEoi) => {}
        other => panic!("expected an end-of-input error, got {:?}", other),
    }
}

#[test]
fn list_preserves_order() {
    let src = "xs = [\n    \"3\"\n    \"1\"\n    \"2\"\n]\n";
    let map = parse(src).unwrap();
    let xs = map.entries[0].value.as_ref().list().unwrap();
    assert_eq!(vec![atom("3"), atom("1"), atom("2")], xs.elements);
}
