//! In-progress builder frames.
//!
//! While parsing, every open container (and the atom currently being read)
//! lives on an explicit stack of these frames instead of the native call
//! stack.  `FrameV`, `PendingV` and `MapFrameV` are their models.

use vstd::prelude::*;

use crate::tree::EntryV;
use crate::tree::MapEntry;
use crate::tree::Node;
use crate::tree::NodeV;

verus! {

broadcast use {vstd::std_specs::vec::group_vec_axioms, vstd::seq::group_seq_axioms};

/// Model of the in-flight key/value pair of an open map frame.
#[verifier::ext_equal]
pub struct PendingV {
    pub key: Seq<char>,
    pub key_start: Option<nat>,
    pub has_space_after_key: bool,
    pub has_equal: bool,
}

/// The pending entry with nothing read yet.
pub open spec fn empty_pending() -> PendingV {
    PendingV { key: Seq::empty(), key_start: None, has_space_after_key: false, has_equal: false }
}

/// Model of an open map frame: committed entries, the byte offset at which
/// each committed entry's key started, and the pending entry.
#[verifier::ext_equal]
pub struct MapFrameV {
    pub entries: Seq<EntryV>,
    pub key_offsets: Seq<nat>,
    pub pending: PendingV,
}

/// Model of one builder frame.
#[verifier::ext_equal]
pub enum FrameV {
    Atom(Seq<char>),
    List(Seq<NodeV>),
    MapNode(MapFrameV),
}

/// One in-progress node: the atom value, list elements, or map entries read
/// so far.
#[derive(Debug)]
pub enum Unfinished {
    AtomValue(String),
    List(UnfinishedList),
    MapNode(UnfinishedMap),
}

/// An open list: the completed elements so far.
#[derive(Debug)]
pub struct UnfinishedList {
    pub elements: Vec<Node>,
}

/// An open map: the completed entries so far (each with the byte offset at
/// which its key started) plus the pending entry.
#[derive(Debug)]
pub struct UnfinishedMap {
    pub entries: Vec<MapEntry>,
    pub entry_key_offsets: Vec<usize>,
    pub pending_entry: UnfinishedMapEntry,
}

/// The in-flight key/value pair of an open map: the key text read so far,
/// where it started, and whether a space or the `=` has been seen.
#[derive(Debug)]
pub struct UnfinishedMapEntry {
    pub key: String,
    pub key_start_byte_index: Option<usize>,
    pub has_space_after_key: bool,
    pub has_equal: bool,
}

impl UnfinishedMapEntry {
    /// A pending entry with nothing read yet.
    pub fn empty() -> (r: Self)
        ensures
            r@ == empty_pending(),
    {
        Self {
            key: String::new(),
            key_start_byte_index: None,
            has_space_after_key: false,
            has_equal: false,
        }
    }
}

impl View for UnfinishedMapEntry {
    type V = PendingV;

    open spec fn view(&self) -> PendingV {
        PendingV {
            key: self.key@,
            key_start: match self.key_start_byte_index {
                Some(i) => Some(i as nat),
                None => None,
            },
            has_space_after_key: self.has_space_after_key,
            has_equal: self.has_equal,
        }
    }
}

impl View for UnfinishedList {
    type V = Seq<NodeV>;

    open spec fn view(&self) -> Seq<NodeV> {
        Seq::new(self.elements@.len(), |i: int| self.elements@[i]@)
    }
}

impl View for UnfinishedMap {
    type V = MapFrameV;

    open spec fn view(&self) -> MapFrameV {
        MapFrameV {
            entries: Seq::new(self.entries@.len(), |i: int| self.entries@[i]@),
            key_offsets: Seq::new(
                self.entry_key_offsets@.len(),
                |i: int| self.entry_key_offsets@[i] as nat,
            ),
            pending: self.pending_entry@,
        }
    }
}

impl View for Unfinished {
    type V = FrameV;

    open spec fn view(&self) -> FrameV {
        match self {
            Unfinished::AtomValue(s) => FrameV::Atom(s@),
            Unfinished::List(l) => FrameV::List(l@),
            Unfinished::MapNode(m) => FrameV::MapNode(m@),
        }
    }
}

/// Model of a whole builder stack.
pub open spec fn stack_view(s: Seq<Unfinished>) -> Seq<FrameV> {
    Seq::new(s.len(), |i: int| s[i]@)
}

} // verus!
