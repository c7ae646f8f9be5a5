//! The document tree produced by a successful parse, and its mathematical
//! model.
//!
//! A document is a tree of nodes: atoms (decoded string values), lists
//! (ordered sequences of nodes), and maps (ordered sequences of uniquely-keyed
//! entries).  Map keys are `Identifier`s: non-empty strings of ASCII letters,
//! digits and underscores whose first character is not a digit.
//!
//! The model types `NodeV` and `EntryV` mirror the tree over `Seq<char>`, and
//! every tree type has a view into them.

use vstd::prelude::*;
use vstd::string::StrSliceExecFns;

use crate::chars::byte_offset;
use crate::chars::is_digit_char;
use crate::chars::is_identifier_char_spec;
use crate::chars::is_ascii_digit;
use crate::chars::is_identifier_char;
use crate::chars::lemma_byte_offset_le_total;
use crate::chars::utf8_len;

verus! {

broadcast use {vstd::std_specs::vec::group_vec_axioms, vstd::seq::group_seq_axioms};

/// Model of one node of the document tree.
#[verifier::ext_equal]
pub enum NodeV {
    Atom(Seq<char>),
    MapNode(Seq<EntryV>),
    List(Seq<NodeV>),
}

/// Model of one map entry: a key and the node it is bound to.
#[verifier::ext_equal]
pub struct EntryV {
    pub key: Seq<char>,
    pub value: NodeV,
}

/// A sequence of characters that forms a legal map key: non-empty, all ASCII
/// letters, digits or underscores, and not starting with a digit.
pub open spec fn is_identifier_seq(s: Seq<char>) -> bool {
    &&& s.len() > 0
    &&& !is_digit_char(s[0])
    &&& forall|i: int| 0 <= i < s.len() ==> is_identifier_char_spec(#[trigger] s[i])
}

/// Well-formedness of a sequence of modelled map entries: every key is a
/// legal identifier, no two entries share a key, and every value is itself
/// well-formed.
pub open spec fn entries_wf(es: Seq<EntryV>) -> bool {
    &&& forall|i: int|
        0 <= i < es.len() ==> is_identifier_seq((#[trigger] es[i]).key) && node_wf(es[i].value)
    &&& forall|i: int, j: int| 0 <= i < j < es.len() ==> es[i].key != es[j].key
}

/// Well-formedness of a modelled node: every map anywhere in the tree has
/// legal, pairwise-distinct keys.
pub open spec fn node_wf(n: NodeV) -> bool
    decreases n,
{
    match n {
        NodeV::Atom(_) => true,
        NodeV::MapNode(es) => {
            &&& forall|i: int|
                0 <= i < es.len() ==> is_identifier_seq((#[trigger] es[i]).key) && node_wf(
                    es[i].value,
                )
            &&& forall|i: int, j: int| 0 <= i < j < es.len() ==> es[i].key != es[j].key
        },
        NodeV::List(ns) => forall|i: int| 0 <= i < ns.len() ==> node_wf(#[trigger] ns[i]),
    }
}

/// A leaf node: a decoded string value (the value, not the source spelling).
#[derive(Clone, Debug, PartialEq, Eq, Hash)]
pub struct Atom {
    pub value: String,
}

/// An ordered map node: a sequence of uniquely-keyed entries.
#[derive(Debug, PartialEq, Eq, Hash)]
pub struct MapNode {
    pub entries: Vec<MapEntry>,
}

/// An ordered list node.
#[derive(Debug, PartialEq, Eq, Hash)]
pub struct List {
    pub elements: Vec<Node>,
}

/// One key/value pair of a map node.
#[derive(Debug, PartialEq, Eq, Hash)]
pub struct MapEntry {
    pub key: Identifier,
    pub value: Node,
}

/// Any node of the document tree.
#[derive(Debug, PartialEq, Eq, Hash)]
pub enum Node {
    Atom(Atom),
    MapNode(MapNode),
    List(List),
}

/// A string legal as a map key: one or more ASCII letters, digits or
/// underscores, the first of which is not a digit.
#[derive(Clone, Debug, PartialEq, Eq, Hash)]
pub struct Identifier(String);

/// Model of a tree node.
pub open spec fn node_view(n: Node) -> NodeV
    decreases n,
{
    match n {
        Node::Atom(a) => NodeV::Atom(a.value@),
        Node::MapNode(m) => NodeV::MapNode(
            Seq::new(
                m.entries@.len(),
                |i: int|
                    if 0 <= i < m.entries@.len() {
                        EntryV { key: m.entries@[i].key@, value: node_view(m.entries@[i].value) }
                    } else {
                        EntryV { key: Seq::empty(), value: NodeV::Atom(Seq::empty()) }
                    },
            ),
        ),
        Node::List(l) => NodeV::List(
            Seq::new(
                l.elements@.len(),
                |i: int|
                    if 0 <= i < l.elements@.len() {
                        node_view(l.elements@[i])
                    } else {
                        NodeV::Atom(Seq::empty())
                    },
            ),
        ),
    }
}

/// The view of a map wrapped as a node is the map's own view.
pub proof fn lemma_node_view_map(m: MapNode)
    ensures
        node_view(Node::MapNode(m)) == NodeV::MapNode(m@),
{
    assert(node_view(Node::MapNode(m))->MapNode_0 =~= m@);
    assert(node_view(Node::MapNode(m)) =~= NodeV::MapNode(m@));
}

/// The view of a list wrapped as a node is the list's own view.
pub proof fn lemma_node_view_list(l: List)
    ensures
        node_view(Node::List(l)) == NodeV::List(l@),
{
    assert(node_view(Node::List(l))->List_0 =~= l@);
    assert(node_view(Node::List(l)) =~= NodeV::List(l@));
}

impl View for Identifier {
    type V = Seq<char>;

    closed spec fn view(&self) -> Seq<char> {
        self.0@
    }
}

/// A borrowed node of the document tree.
#[derive(Clone, Copy, Debug, PartialEq, Eq, Hash)]
pub enum NodeRef<'a> {
    Atom(&'a Atom),
    MapNode(&'a MapNode),
    List(&'a List),
}

impl Node {
    /// The atom inside, if this node is one.
    pub fn atom(self) -> (r: Option<Atom>)
        ensures
            r == (match self {
                Node::Atom(a) => Some(a),
                _ => None::<Atom>,
            }),
    {
        match self {
            Node::Atom(a) => Some(a),
            _ => None,
        }
    }

    /// The map inside, if this node is one.
    pub fn map(self) -> (r: Option<MapNode>)
        ensures
            r == (match self {
                Node::MapNode(m) => Some(m),
                _ => None::<MapNode>,
            }),
    {
        match self {
            Node::MapNode(m) => Some(m),
            _ => None,
        }
    }

    /// The list inside, if this node is one.
    pub fn list(self) -> (r: Option<List>)
        ensures
            r == (match self {
                Node::List(l) => Some(l),
                _ => None::<List>,
            }),
    {
        match self {
            Node::List(l) => Some(l),
            _ => None,
        }
    }

    /// Borrows the node.
    pub fn as_ref(&self) -> (r: NodeRef)
        ensures
            r == (match self {
                Node::Atom(a) => NodeRef::Atom(a),
                Node::MapNode(m) => NodeRef::MapNode(m),
                Node::List(l) => NodeRef::List(l),
            }),
    {
        match self {
            Node::Atom(a) => NodeRef::Atom(a),
            Node::MapNode(m) => NodeRef::MapNode(m),
            Node::List(l) => NodeRef::List(l),
        }
    }
}

impl<'a> NodeRef<'a> {
    /// The atom inside, if this node is one.
    pub fn atom(self) -> (r: Option<&'a Atom>)
        ensures
            r == (match self {
                NodeRef::Atom(a) => Some(a),
                _ => None::<&'a Atom>,
            }),
    {
        match self {
            NodeRef::Atom(a) => Some(a),
            _ => None,
        }
    }

    /// The map inside, if this node is one.
    pub fn map(self) -> (r: Option<&'a MapNode>)
        ensures
            r == (match self {
                NodeRef::MapNode(m) => Some(m),
                _ => None::<&'a MapNode>,
            }),
    {
        match self {
            NodeRef::MapNode(m) => Some(m),
            _ => None,
        }
    }

    /// The list inside, if this node is one.
    pub fn list(self) -> (r: Option<&'a List>)
        ensures
            r == (match self {
                NodeRef::List(l) => Some(l),
                _ => None::<&'a List>,
            }),
    {
        match self {
            NodeRef::List(l) => Some(l),
            _ => None,
        }
    }

    /// A deep copy of the borrowed node, as an owned one.
    pub fn to_owned(self) -> (r: Node)
        ensures
            r@ == (match self {
                NodeRef::Atom(a) => NodeV::Atom(a@),
                NodeRef::MapNode(m) => NodeV::MapNode(m@),
                NodeRef::List(l) => NodeV::List(l@),
            }),
    {
        match self {
            NodeRef::Atom(a) => Node::Atom(Atom { value: a.value.clone() }),
            NodeRef::MapNode(m) => {
                let x = clone_map(m);
                proof {
                    lemma_node_view_map(x);
                }
                Node::MapNode(x)
            },
            NodeRef::List(l) => {
                let x = clone_list(l);
                proof {
                    lemma_node_view_list(x);
                }
                Node::List(x)
            },
        }
    }
}

/// A deep copy of a node.
pub fn clone_node(n: &Node) -> (r: Node)
    ensures
        r@ == n@,
    decreases *n,
{
    match n {
        Node::Atom(a) => Node::Atom(Atom { value: a.value.clone() }),
        Node::MapNode(m) => {
            let x = clone_map(m);
            proof {
                lemma_node_view_map(x);
                lemma_node_view_map(*m);
            }
            Node::MapNode(x)
        },
        Node::List(l) => {
            let x = clone_list(l);
            proof {
                lemma_node_view_list(x);
                lemma_node_view_list(*l);
            }
            Node::List(x)
        },
    }
}

/// A deep copy of a map node.
fn clone_map(m: &MapNode) -> (r: MapNode)
    ensures
        r@ == m@,
    decreases *m,
{
    let n = m.entries.len();
    let mut entries: Vec<MapEntry> = Vec::new();
    let mut i: usize = 0;
    while i < n
        invariant
            0 <= i <= n,
            n == m.entries@.len(),
            entries@.len() == i,
            forall|t: int| 0 <= t < i ==> (#[trigger] entries@[t])@ == m.entries@[t]@,
        decreases n - i,
    {
        let e = &m.entries[i];
        let key = Identifier(e.key.0.clone());
        let value = clone_node(&e.value);
        entries.push(MapEntry { key, value });
        i = i + 1;
    }
    let r = MapNode { entries };
    proof {
        assert(r@ =~~= m@);
    }
    r
}

/// A deep copy of a list node.
fn clone_list(l: &List) -> (r: List)
    ensures
        r@ == l@,
    decreases *l,
{
    let n = l.elements.len();
    let mut elements: Vec<Node> = Vec::new();
    let mut i: usize = 0;
    while i < n
        invariant
            0 <= i <= n,
            n == l.elements@.len(),
            elements@.len() == i,
            forall|t: int| 0 <= t < i ==> (#[trigger] elements@[t])@ == l.elements@[t]@,
        decreases n - i,
    {
        let value = clone_node(&l.elements[i]);
        elements.push(value);
        i = i + 1;
    }
    let r = List { elements };
    proof {
        assert(r@ =~~= l@);
    }
    r
}

impl MapNode {
    /// The value bound to `key`, if one of the entries uses that key: the
    /// first such entry's value.
    pub fn get(&self, key: &str) -> (r: Option<&Node>)
        ensures
            r matches Some(v) ==> (exists|i: int|
                0 <= i < self@.len() && (#[trigger] self@[i]).key == key@ && v@ == self@[i].value
                    && (forall|j: int| 0 <= j < i ==> (#[trigger] self@[j]).key != key@)),
            r is None ==> (forall|i: int| 0 <= i < self@.len() ==> (#[trigger] self@[i]).key != key@),
    {
        let k = String::from_str(key);
        let n = self.entries.len();
        let mut i: usize = 0;
        while i < n
            invariant
                0 <= i <= n,
                n == self.entries@.len(),
                k@ == key@,
                forall|j: int| 0 <= j < i ==> (#[trigger] self@[j]).key != key@,
            decreases n - i,
        {
            if self.entries[i].key.eq_string(&k) {
                proof {
                    assert(self@[i as int].key == key@);
                    assert(self@[i as int].value == self.entries@[i as int].value@);
                }
                return Some(&self.entries[i].value);
            }
            proof {
                assert(self@[i as int].key != key@);
            }
            i = i + 1;
        }
        None
    }
}

/// Position `k` holds the first character of `s` that may not appear in an
/// identifier.
pub open spec fn first_illegal_at(s: Seq<char>, k: int) -> bool {
    &&& 0 <= k < s.len()
    &&& !is_identifier_char_spec(s[k])
    &&& forall|j: int| 0 <= j < k ==> is_identifier_char_spec(#[trigger] s[j])
}

impl Identifier {
    /// Checks that `s` is a legal map key and wraps it.
    ///
    /// On failure the error carries the byte index of the first offending
    /// character: index 0 when the string is empty or starts with a digit,
    /// and otherwise the byte offset of the first character that is not an
    /// ASCII letter, digit or underscore.
    pub fn new(s: String) -> (r: Result<Identifier, usize>)
        ensures
            r matches Ok(id) ==> id@ == s@,
            r is Ok <==> is_identifier_seq(s@),
            s@.len() == 0 ==> r == Err::<Identifier, usize>(0usize),
            s@.len() > 0 && is_digit_char(s@[0]) ==> r == Err::<Identifier, usize>(0usize),
            r matches Err(e) ==> ((s@.len() > 0 && !is_digit_char(s@[0])) ==> (exists|k: int|
                first_illegal_at(s@, k) && e == byte_offset(s@, k))),
    {
        let n = s.as_str().unicode_len();
        if n == 0 {
            return Err(0);
        }
        if is_ascii_digit(s.as_str().get_char(0)) {
            return Err(0);
        }
        let ghost total = vstd::utf8::encode_utf8(s@).len();
        let total_bytes = s.as_str().as_bytes().len();
        proof {
            broadcast use vstd::slice::axiom_spec_len;

            assert(total_bytes == total);
        }
        let mut i: usize = 0;
        let mut off: usize = 0;
        while i < n
            invariant
                0 <= i <= n,
                n == s@.len(),
                n > 0,
                !is_digit_char(s@[0]),
                off == byte_offset(s@, i as int),
                off <= total_bytes,
                total_bytes == vstd::utf8::encode_utf8(s@).len(),
                forall|j: int| 0 <= j < i ==> is_identifier_char_spec(#[trigger] s@[j]),
            decreases n - i,
        {
            let c = s.as_str().get_char(i);
            if !is_identifier_char(c) {
                proof {
                    assert(first_illegal_at(s@, i as int));
                }
                return Err(off);
            }
            proof {
                lemma_byte_offset_le_total(s@, i + 1);
            }
            off = off + utf8_len(c);
            i = i + 1;
        }
        Ok(Identifier(s))
    }

    /// The key as a string slice.
    pub fn as_str(&self) -> (r: &str)
        ensures
            r@ == self@,
    {
        self.0.as_str()
    }

    /// Whether the key spells exactly `other`.
    pub fn eq_string(&self, other: &String) -> (r: bool)
        ensures
            r == (self@ == other@),
    {
        self.0 == *other
    }
}

impl View for Atom {
    type V = Seq<char>;

    open spec fn view(&self) -> Seq<char> {
        self.value@
    }
}

impl View for Node {
    type V = NodeV;

    open spec fn view(&self) -> NodeV {
        node_view(*self)
    }
}

impl View for MapEntry {
    type V = EntryV;

    open spec fn view(&self) -> EntryV {
        EntryV { key: self.key@, value: self.value@ }
    }
}

impl View for MapNode {
    type V = Seq<EntryV>;

    open spec fn view(&self) -> Seq<EntryV> {
        Seq::new(self.entries@.len(), |i: int| self.entries@[i]@)
    }
}

impl View for List {
    type V = Seq<NodeV>;

    open spec fn view(&self) -> Seq<NodeV> {
        Seq::new(self.elements@.len(), |i: int| self.elements@[i]@)
    }
}

} // verus!
