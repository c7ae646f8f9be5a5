//! The specification-level parsing machine.
//!
//! `spec_parse` defines, one codepoint at a time, what the parser returns on
//! any input.  A machine state is a stack of builder frames, the count of
//! non-whitespace characters on the current line, and a mode that records
//! whether the machine sits inside an escape sequence or a comment.  `step`
//! consumes one codepoint, `finish` handles end of input, and `run_from`
//! folds `step` over the input.  The executable parser is proved to return
//! exactly `spec_parse` of its input.

use vstd::prelude::*;

use crate::chars::byte_offset;
use crate::chars::hex_digit_value;
use crate::chars::is_digit_char;
use crate::chars::is_hex_digit_char;
use crate::chars::is_identifier_char_spec;
use crate::chars::is_whitespace_char;
use crate::chars::next_line_count;
use crate::tree::EntryV;
use crate::tree::NodeV;
use crate::tree::entries_wf;
use crate::tree::is_identifier_seq;
use crate::tree::node_wf;
use crate::unfinished::FrameV;
use crate::unfinished::MapFrameV;
use crate::unfinished::PendingV;
use crate::unfinished::empty_pending;

verus! {

broadcast use {vstd::std_specs::vec::group_vec_axioms, vstd::seq::group_seq_axioms};

/// The three user-facing parse failures, in model form: an unexpected
/// character with its byte offset, an unexpected end of input, and a
/// duplicated map key with the byte offset of its first occurrence.
#[verifier::ext_equal]
pub enum ErrorV {
    UnexpectedChar(char, nat),
    UnexpectedEoi,
    DuplicateKey(Seq<char>, nat),
}

/// What the machine is in the middle of reading, besides the frame stack:
/// the first `/` of a comment, a comment body, the character after a
/// backslash, or the hex digits of a codepoint escape read so far.
#[verifier::ext_equal]
pub enum ModeV {
    Normal,
    CommentSlash,
    Comment,
    Escape,
    EscapeHex(Seq<char>),
}

/// A machine state.
#[verifier::ext_equal]
pub struct StateV {
    pub stack: Seq<FrameV>,
    pub line: nat,
    pub mode: ModeV,
}

/// Result of consuming one codepoint.
#[verifier::ext_equal]
pub enum StepV {
    Next(StateV),
    Done(Seq<EntryV>),
    Fail(ErrorV),
    Fault,
}

/// Result of folding a completed child node into the exposed frame.
#[verifier::ext_equal]
pub enum ReduceV {
    Push(Seq<FrameV>),
    Done(Seq<EntryV>),
    Fault,
}

/// The machine before any input: one open map frame (the implicit top-level
/// document), a fresh line, normal mode.
pub open spec fn init_state() -> StateV {
    StateV {
        stack: seq![
            FrameV::MapNode(MapFrameV { entries: Seq::empty(), key_offsets: Seq::empty(), pending: empty_pending() }),
        ],
        line: 0,
        mode: ModeV::Normal,
    }
}

/// Whether some committed entry already uses key `k`.
pub open spec fn key_in_entries(es: Seq<EntryV>, k: Seq<char>) -> bool {
    exists|i: int| 0 <= i < es.len() && (#[trigger] es[i]).key == k
}

/// The byte offset recorded for the pending key, or zero if none was
/// recorded (a shape the grammar never produces).
pub open spec fn pending_start_or_zero(p: PendingV) -> nat {
    match p.key_start {
        Some(o) => o,
        None => 0,
    }
}

/// The byte offset at which the committed entry with key `k` started.  (In a
/// reachable frame the committed keys are pairwise distinct, so the matching
/// entry is unique.)
pub open spec fn first_key_offset(mf: MapFrameV, k: Seq<char>) -> nat {
    let i = choose|i: int| 0 <= i < mf.entries.len() && (#[trigger] mf.entries[i]).key == k;
    if 0 <= i < mf.key_offsets.len() {
        mf.key_offsets[i]
    } else {
        0
    }
}

/// Numeric value of a sequence of hex digits, most significant first.
pub open spec fn hex_seq_value(ds: Seq<char>) -> int
    decreases ds.len(),
{
    if ds.len() == 0 {
        0
    } else {
        hex_seq_value(ds.drop_last()) * 16 + hex_digit_value(ds.last())
    }
}

/// A codepoint value that `char` can hold: not a surrogate, at most
/// `0x10FFFF`.
pub open spec fn is_scalar_int(v: int) -> bool {
    (0 <= v < 0xD800) || (0xE000 <= v < 0x110000)
}

/// The character with codepoint value `v`.
pub open spec fn char_of_code(v: int) -> char {
    (v as u32) as char
}

/// Folds a completed child node into the frame now exposed at the top of
/// `stack`.  An empty stack finishes the parse (the child must be the
/// top-level map); an exposed atom, or an exposed map whose pending entry is
/// not ready for a value, is an internal fault the grammar never produces.
pub open spec fn reduce_v(stack: Seq<FrameV>, child: NodeV) -> ReduceV {
    if stack.len() == 0 {
        match child {
            NodeV::MapNode(es) => ReduceV::Done(es),
            _ => ReduceV::Fault,
        }
    } else {
        match stack.last() {
            FrameV::Atom(_) => ReduceV::Fault,
            FrameV::List(elems) => ReduceV::Push(
                stack.update(stack.len() - 1, FrameV::List(elems.push(child))),
            ),
            FrameV::MapNode(mf) => {
                if mf.pending.has_equal && is_identifier_seq(mf.pending.key) {
                    ReduceV::Push(
                        stack.update(
                            stack.len() - 1,
                            FrameV::MapNode(
                                MapFrameV {
                                    entries: mf.entries.push(
                                        EntryV { key: mf.pending.key, value: child },
                                    ),
                                    key_offsets: mf.key_offsets.push(
                                        pending_start_or_zero(mf.pending),
                                    ),
                                    pending: empty_pending(),
                                },
                            ),
                        ),
                    )
                } else {
                    ReduceV::Fault
                }
            },
        }
    }
}

/// Wraps a reduction outcome as a step outcome over the given line count.
pub open spec fn after_reduce(r: ReduceV, lc: nat) -> StepV {
    match r {
        ReduceV::Done(es) => StepV::Done(es),
        ReduceV::Push(stk) => StepV::Next(StateV { stack: stk, line: lc, mode: ModeV::Normal }),
        ReduceV::Fault => StepV::Fault,
    }
}

/// One codepoint consumed while an atom is on top of the stack, outside any
/// escape.
pub open spec fn atom_step(stack: Seq<FrameV>, value: Seq<char>, c: char, off: nat, lc: nat) -> StepV {
    if c == '\n' {
        StepV::Fail(ErrorV::UnexpectedChar(c, off))
    } else if c == '"' {
        after_reduce(reduce_v(stack.drop_last(), NodeV::Atom(value)), lc)
    } else if c == '\\' {
        StepV::Next(StateV { stack, line: lc, mode: ModeV::Escape })
    } else {
        StepV::Next(
            StateV {
                stack: stack.update(stack.len() - 1, FrameV::Atom(value.push(c))),
                line: lc,
                mode: ModeV::Normal,
            },
        )
    }
}

/// One codepoint consumed while a map is on top of the stack.
pub open spec fn map_step(stack: Seq<FrameV>, mf: MapFrameV, c: char, off: nat, lc: nat) -> StepV {
    if c == '}' && (lc == 1 || mf.entries.len() == 0) {
        if mf.pending.key.len() > 0 {
            StepV::Fail(ErrorV::UnexpectedChar(c, off))
        } else {
            after_reduce(reduce_v(stack.drop_last(), NodeV::MapNode(mf.entries)), lc)
        }
    } else if c == '\n' {
        if mf.pending.key.len() > 0 {
            StepV::Fail(ErrorV::UnexpectedChar(c, off))
        } else {
            StepV::Next(StateV { stack, line: lc, mode: ModeV::Normal })
        }
    } else if c == '=' {
        match mf.pending.key_start {
            None => StepV::Fail(ErrorV::UnexpectedChar(c, off)),
            Some(start) => {
                if key_in_entries(mf.entries, mf.pending.key) {
                    StepV::Fail(
                        ErrorV::DuplicateKey(mf.pending.key, first_key_offset(mf, mf.pending.key)),
                    )
                } else if mf.pending.has_equal {
                    StepV::Fail(ErrorV::UnexpectedChar(c, off))
                } else {
                    StepV::Next(
                        StateV {
                            stack: stack.update(
                                stack.len() - 1,
                                FrameV::MapNode(
                                    MapFrameV {
                                        entries: mf.entries,
                                        key_offsets: mf.key_offsets,
                                        pending: PendingV { has_equal: true, ..mf.pending },
                                    },
                                ),
                            ),
                            line: lc,
                            mode: ModeV::Normal,
                        },
                    )
                }
            },
        }
    } else if is_whitespace_char(c) {
        if mf.pending.key.len() > 0 {
            StepV::Next(
                StateV {
                    stack: stack.update(
                        stack.len() - 1,
                        FrameV::MapNode(
                            MapFrameV {
                                entries: mf.entries,
                                key_offsets: mf.key_offsets,
                                pending: PendingV { has_space_after_key: true, ..mf.pending },
                            },
                        ),
                    ),
                    line: lc,
                    mode: ModeV::Normal,
                },
            )
        } else {
            StepV::Next(StateV { stack, line: lc, mode: ModeV::Normal })
        }
    } else if is_identifier_char_spec(c) && mf.pending.key.len() == 0 {
        if lc != 1 {
            StepV::Fail(ErrorV::UnexpectedChar(c, off))
        } else if is_digit_char(c) {
            StepV::Fail(ErrorV::UnexpectedChar(c, off))
        } else if mf.pending.has_space_after_key || mf.pending.has_equal {
            StepV::Fail(ErrorV::UnexpectedChar(c, off))
        } else {
            StepV::Next(
                StateV {
                    stack: stack.update(
                        stack.len() - 1,
                        FrameV::MapNode(
                            MapFrameV {
                                entries: mf.entries,
                                key_offsets: mf.key_offsets,
                                pending: PendingV {
                                    key: seq![c],
                                    key_start: Some(off),
                                    ..mf.pending
                                },
                            },
                        ),
                    ),
                    line: lc,
                    mode: ModeV::Normal,
                },
            )
        }
    } else if is_identifier_char_spec(c) {
        if mf.pending.has_space_after_key || mf.pending.has_equal {
            StepV::Fail(ErrorV::UnexpectedChar(c, off))
        } else {
            StepV::Next(
                StateV {
                    stack: stack.update(
                        stack.len() - 1,
                        FrameV::MapNode(
                            MapFrameV {
                                entries: mf.entries,
                                key_offsets: mf.key_offsets,
                                pending: PendingV { key: mf.pending.key.push(c), ..mf.pending },
                            },
                        ),
                    ),
                    line: lc,
                    mode: ModeV::Normal,
                },
            )
        }
    } else if c == '"' {
        if !mf.pending.has_equal {
            StepV::Fail(ErrorV::UnexpectedChar(c, off))
        } else {
            StepV::Next(
                StateV {
                    stack: stack.push(FrameV::Atom(Seq::empty())),
                    line: lc,
                    mode: ModeV::Normal,
                },
            )
        }
    } else if c == '{' {
        if !mf.pending.has_equal {
            StepV::Fail(ErrorV::UnexpectedChar(c, off))
        } else {
            StepV::Next(
                StateV {
                    stack: stack.push(
                        FrameV::MapNode(
                            MapFrameV { entries: Seq::empty(), key_offsets: Seq::empty(), pending: empty_pending() },
                        ),
                    ),
                    line: lc,
                    mode: ModeV::Normal,
                },
            )
        }
    } else if c == '[' {
        if !mf.pending.has_equal {
            StepV::Fail(ErrorV::UnexpectedChar(c, off))
        } else {
            StepV::Next(
                StateV {
                    stack: stack.push(FrameV::List(Seq::empty())),
                    line: lc,
                    mode: ModeV::Normal,
                },
            )
        }
    } else if c == '/' && lc == 1 {
        StepV::Next(StateV { stack, line: lc, mode: ModeV::CommentSlash })
    } else {
        StepV::Fail(ErrorV::UnexpectedChar(c, off))
    }
}

/// One codepoint consumed while a list is on top of the stack.
pub open spec fn list_step(stack: Seq<FrameV>, elems: Seq<NodeV>, c: char, off: nat, lc: nat) -> StepV {
    if c == ']' && (lc == 1 || elems.len() == 0) {
        after_reduce(reduce_v(stack.drop_last(), NodeV::List(elems)), lc)
    } else if c == '"' && lc == 1 {
        StepV::Next(
            StateV { stack: stack.push(FrameV::Atom(Seq::empty())), line: lc, mode: ModeV::Normal },
        )
    } else if c == '{' && lc == 1 {
        StepV::Next(
            StateV {
                stack: stack.push(
                    FrameV::MapNode(MapFrameV { entries: Seq::empty(), key_offsets: Seq::empty(), pending: empty_pending() }),
                ),
                line: lc,
                mode: ModeV::Normal,
            },
        )
    } else if c == '[' && lc == 1 {
        StepV::Next(
            StateV { stack: stack.push(FrameV::List(Seq::empty())), line: lc, mode: ModeV::Normal },
        )
    } else if c == '/' && lc == 1 {
        StepV::Next(StateV { stack, line: lc, mode: ModeV::CommentSlash })
    } else if is_whitespace_char(c) {
        StepV::Next(StateV { stack, line: lc, mode: ModeV::Normal })
    } else {
        StepV::Fail(ErrorV::UnexpectedChar(c, off))
    }
}

/// One codepoint consumed in escape mode: the character right after a
/// backslash inside an atom.
pub open spec fn escape_step(stack: Seq<FrameV>, value: Seq<char>, c: char, off: nat, lc: nat) -> StepV {
    if c == '\\' || c == '"' {
        StepV::Next(
            StateV {
                stack: stack.update(stack.len() - 1, FrameV::Atom(value.push(c))),
                line: lc,
                mode: ModeV::Normal,
            },
        )
    } else if c == 'n' {
        StepV::Next(
            StateV {
                stack: stack.update(stack.len() - 1, FrameV::Atom(value.push('\n'))),
                line: lc,
                mode: ModeV::Normal,
            },
        )
    } else if c == 'u' {
        StepV::Next(StateV { stack, line: lc, mode: ModeV::EscapeHex(Seq::empty()) })
    } else {
        StepV::Fail(ErrorV::UnexpectedChar(c, off))
    }
}

/// One codepoint consumed inside a `\u` escape: one of the six hex digits.
/// The sixth digit completes the codepoint, which must be a Unicode scalar
/// value; the error for a bad digit or a bad codepoint sits at that digit.
pub open spec fn escape_hex_step(
    stack: Seq<FrameV>,
    value: Seq<char>,
    ds: Seq<char>,
    c: char,
    off: nat,
    lc: nat,
) -> StepV {
    if !is_hex_digit_char(c) {
        StepV::Fail(ErrorV::UnexpectedChar(c, off))
    } else {
        let ds2 = ds.push(c);
        if ds2.len() < 6 {
            StepV::Next(StateV { stack, line: lc, mode: ModeV::EscapeHex(ds2) })
        } else {
            let code = hex_seq_value(ds2);
            if is_scalar_int(code) {
                StepV::Next(
                    StateV {
                        stack: stack.update(
                            stack.len() - 1,
                            FrameV::Atom(value.push(char_of_code(code))),
                        ),
                        line: lc,
                        mode: ModeV::Normal,
                    },
                )
            } else {
                StepV::Fail(ErrorV::UnexpectedChar(c, off))
            }
        }
    }
}

/// Consume one codepoint `c` at byte offset `off`.
pub open spec fn step(st: StateV, c: char, off: nat) -> StepV {
    let lc = next_line_count(st.line, c);
    match st.mode {
        ModeV::Comment => StepV::Next(
            StateV {
                stack: st.stack,
                line: lc,
                mode: if c == '\n' {
                    ModeV::Normal
                } else {
                    ModeV::Comment
                },
            },
        ),
        ModeV::CommentSlash => {
            if c == '/' {
                StepV::Next(StateV { stack: st.stack, line: lc, mode: ModeV::Comment })
            } else {
                StepV::Fail(ErrorV::UnexpectedChar(c, off))
            }
        },
        ModeV::Escape => {
            if st.stack.len() == 0 {
                StepV::Fault
            } else {
                match st.stack.last() {
                    FrameV::Atom(value) => escape_step(st.stack, value, c, off, lc),
                    _ => StepV::Fault,
                }
            }
        },
        ModeV::EscapeHex(ds) => {
            if st.stack.len() == 0 {
                StepV::Fault
            } else {
                match st.stack.last() {
                    FrameV::Atom(value) => escape_hex_step(st.stack, value, ds, c, off, lc),
                    _ => StepV::Fault,
                }
            }
        },
        ModeV::Normal => {
            if st.stack.len() == 0 {
                StepV::Fault
            } else {
                match st.stack.last() {
                    FrameV::Atom(value) => atom_step(st.stack, value, c, off, lc),
                    FrameV::MapNode(mf) => map_step(st.stack, mf, c, off, lc),
                    FrameV::List(elems) => list_step(st.stack, elems, c, off, lc),
                }
            }
        },
    }
}

/// End of input: the stack must hold exactly the outermost map, with no
/// pending entry begun, and the machine must not sit inside an escape or a
/// half-read comment opener.
pub open spec fn finish(st: StateV) -> Result<Seq<EntryV>, ErrorV> {
    match st.mode {
        ModeV::Normal | ModeV::Comment => {
            if st.stack.len() == 1 {
                match st.stack[0] {
                    FrameV::MapNode(mf) => {
                        if mf.pending.key.len() == 0 {
                            Ok(mf.entries)
                        } else {
                            Err(ErrorV::UnexpectedEoi)
                        }
                    },
                    _ => Err(ErrorV::UnexpectedEoi),
                }
            } else {
                Err(ErrorV::UnexpectedEoi)
            }
        },
        _ => Err(ErrorV::UnexpectedEoi),
    }
}

/// Run the machine from state `st` over the rest of the input, starting at
/// codepoint index `j`.  (A fault — which no reachable state produces, see
/// `lemma_step_wf` — is folded into the end-of-input error.)
pub open spec fn run_from(s: Seq<char>, j: int, st: StateV) -> Result<Seq<EntryV>, ErrorV>
    decreases s.len() - j,
{
    if j < 0 || j >= s.len() {
        finish(st)
    } else {
        match step(st, s[j], byte_offset(s, j)) {
            StepV::Next(st2) => run_from(s, j + 1, st2),
            StepV::Done(es) => Ok(es),
            StepV::Fail(e) => Err(e),
            StepV::Fault => Err(ErrorV::UnexpectedEoi),
        }
    }
}

/// What parsing the whole source returns: the top-level entries, or the
/// first error.
pub open spec fn spec_parse(s: Seq<char>) -> Result<Seq<EntryV>, ErrorV> {
    run_from(s, 0, init_state())
}

/// The pending entry of a map frame is consistent: a begun key is a legal
/// identifier whose start position is recorded, and once `=` has been seen
/// the key is complete and does not duplicate a committed one.
pub open spec fn pending_wf(p: PendingV, entries: Seq<EntryV>) -> bool {
    &&& (p.key.len() > 0 ==> is_identifier_seq(p.key))
    &&& (p.key_start is Some <==> p.key.len() > 0)
    &&& (p.has_equal ==> p.key.len() > 0 && !key_in_entries(entries, p.key))
}

/// A single frame is consistent: its committed contents are well-formed.
pub open spec fn frame_wf(f: FrameV) -> bool {
    match f {
        FrameV::Atom(_) => true,
        FrameV::List(elems) => forall|i: int| 0 <= i < elems.len() ==> node_wf(#[trigger] elems[i]),
        FrameV::MapNode(mf) => entries_wf(mf.entries) && mf.key_offsets.len() == mf.entries.len()
            && pending_wf(mf.pending, mf.entries),
    }
}

/// A frame that may carry an open child frame above it: a list, or a map
/// whose pending entry has seen its `=`.
pub open spec fn frame_open(f: FrameV) -> bool {
    match f {
        FrameV::Atom(_) => false,
        FrameV::List(_) => true,
        FrameV::MapNode(mf) => mf.pending.has_equal,
    }
}

/// A reachable builder stack: never empty, an implicit map at the bottom,
/// every frame consistent, and every frame below the top ready for a child.
pub open spec fn stack_ok(stack: Seq<FrameV>) -> bool {
    &&& stack.len() >= 1
    &&& stack[0] is MapNode
    &&& forall|i: int| 0 <= i < stack.len() ==> frame_wf(#[trigger] stack[i])
    &&& forall|i: int| 0 <= i < stack.len() - 1 ==> frame_open(#[trigger] stack[i])
}

/// A reachable machine state: the stack is consistent, and escape modes only
/// occur while an atom is being read.
pub open spec fn state_wf(st: StateV) -> bool {
    &&& stack_ok(st.stack)
    &&& ((st.mode is Escape || st.mode is EscapeHex) ==> st.stack.last() is Atom)
    &&& (st.mode matches ModeV::EscapeHex(ds) ==> ds.len() <= 5)
}

/// Appending a fresh entry with an unused legal key keeps a map's entries
/// well-formed.
proof fn lemma_entries_push_wf(es: Seq<EntryV>, key: Seq<char>, child: NodeV)
    requires
        entries_wf(es),
        is_identifier_seq(key),
        !key_in_entries(es, key),
        node_wf(child),
    ensures
        entries_wf(es.push(EntryV { key, value: child })),
{
    let es2 = es.push(EntryV { key, value: child });
    assert forall|i: int, j: int| 0 <= i < j < es2.len() implies es2[i].key != es2[j].key by {
        if j < es.len() {
        } else {
            assert(es2[j].key == key);
            assert(es2[i] == es[i]);
        }
    }
}

/// Reduction from a consistent stack never faults, keeps the remaining stack
/// consistent, and finishes only with well-formed entries.
proof fn lemma_reduce_wf(stack: Seq<FrameV>, child: NodeV)
    requires
        forall|i: int| 0 <= i < stack.len() ==> frame_wf(#[trigger] stack[i]),
        forall|i: int| 0 <= i < stack.len() ==> frame_open(#[trigger] stack[i]),
        stack.len() > 0 ==> stack[0] is MapNode,
        node_wf(child),
        stack.len() == 0 ==> child is MapNode,
    ensures
        !(reduce_v(stack, child) is Fault),
        reduce_v(stack, child) matches ReduceV::Push(stk2) ==> {
            &&& stk2.len() == stack.len()
            &&& stack_ok(stk2)
        },
        reduce_v(stack, child) matches ReduceV::Done(es) ==> entries_wf(es),
{
    if stack.len() == 0 {
    } else {
        let n = stack.len();
        assert(frame_wf(stack[n - 1]));
        assert(frame_open(stack[n - 1]));
        match stack.last() {
            FrameV::Atom(_) => {
                assert(false);
            },
            FrameV::List(elems) => {
                let stk2 = stack.update(n - 1, FrameV::List(elems.push(child)));
                assert(frame_wf(stk2[n - 1])) by {
                    assert(forall|i: int|
                        0 <= i < elems.len() ==> node_wf(#[trigger] elems.push(child)[i]));
                    assert(elems.push(child)[elems.len() as int] == child);
                }
                assert forall|i: int| 0 <= i < stk2.len() implies frame_wf(#[trigger] stk2[i]) by {
                    if i < n - 1 {
                        assert(stk2[i] == stack[i]);
                    }
                }
                assert forall|i: int| 0 <= i < stk2.len() - 1 implies frame_open(
                    #[trigger] stk2[i],
                ) by {
                    assert(stk2[i] == stack[i]);
                }
            },
            FrameV::MapNode(mf) => {
                let entry = EntryV { key: mf.pending.key, value: child };
                let stk2 = stack.update(
                    n - 1,
                    FrameV::MapNode(
                        MapFrameV {
                            entries: mf.entries.push(entry),
                            key_offsets: mf.key_offsets.push(pending_start_or_zero(mf.pending)),
                            pending: empty_pending(),
                        },
                    ),
                );
                lemma_entries_push_wf(mf.entries, mf.pending.key, child);
                assert(frame_wf(stk2[n - 1]));
                assert forall|i: int| 0 <= i < stk2.len() implies frame_wf(#[trigger] stk2[i]) by {
                    if i < n - 1 {
                        assert(stk2[i] == stack[i]);
                    }
                }
                assert forall|i: int| 0 <= i < stk2.len() - 1 implies frame_open(
                    #[trigger] stk2[i],
                ) by {
                    assert(stk2[i] == stack[i]);
                }
            },
        }
    }
}

/// A completed frame yields a well-formed node.
proof fn lemma_completed_frame_wf(f: FrameV)
    requires
        frame_wf(f),
    ensures
        f matches FrameV::Atom(v) ==> node_wf(NodeV::Atom(v)),
        f matches FrameV::List(elems) ==> node_wf(NodeV::List(elems)),
        f matches FrameV::MapNode(mf) ==> node_wf(NodeV::MapNode(mf.entries)),
{
}

/// One step from a reachable state never faults, reaches only reachable
/// states, and finishes only with well-formed entries.  With
/// `lemma_run_from_wf` this is the duplicate-key guarantee: whatever the
/// parse returns, no map in it holds two entries with the same key.
pub proof fn lemma_step_wf(st: StateV, c: char, off: nat)
    requires
        state_wf(st),
    ensures
        !(step(st, c, off) is Fault),
        step(st, c, off) matches StepV::Next(st2) ==> state_wf(st2),
        step(st, c, off) matches StepV::Done(es) ==> entries_wf(es),
{
    let lc = next_line_count(st.line, c);
    let stack = st.stack;
    let n = stack.len();
    let popped = stack.drop_last();
    assert(forall|i: int| 0 <= i < popped.len() ==> popped[i] == stack[i]);
    match st.mode {
        ModeV::Comment => {
        },
        ModeV::CommentSlash => {
        },
        ModeV::Escape => {
            let value = stack.last()->Atom_0;
            assert(n >= 2);
            if c == '\\' || c == '"' || c == 'n' {
                let pushed = if c == 'n' {
                    '\n'
                } else {
                    c
                };
                let stk2 = stack.update(n - 1, FrameV::Atom(value.push(pushed)));
                assert forall|i: int| 0 <= i < stk2.len() implies frame_wf(#[trigger] stk2[i]) by {
                    if i < n - 1 {
                        assert(stk2[i] == stack[i]);
                    }
                }
                assert forall|i: int| 0 <= i < stk2.len() - 1 implies frame_open(
                    #[trigger] stk2[i],
                ) by {
                    assert(stk2[i] == stack[i]);
                }
            }
        },
        ModeV::EscapeHex(ds) => {
            let value = stack.last()->Atom_0;
            assert(n >= 2);
            if is_hex_digit_char(c) && ds.push(c).len() >= 6 && is_scalar_int(
                hex_seq_value(ds.push(c)),
            ) {
                let code = hex_seq_value(ds.push(c));
                let stk2 = stack.update(n - 1, FrameV::Atom(value.push(char_of_code(code))));
                assert forall|i: int| 0 <= i < stk2.len() implies frame_wf(#[trigger] stk2[i]) by {
                    if i < n - 1 {
                        assert(stk2[i] == stack[i]);
                    }
                }
                assert forall|i: int| 0 <= i < stk2.len() - 1 implies frame_open(
                    #[trigger] stk2[i],
                ) by {
                    assert(stk2[i] == stack[i]);
                }
            }
        },
        ModeV::Normal => {
            match stack.last() {
                FrameV::Atom(value) => {
                    assert(n >= 2);
                    if c == '"' {
                        lemma_completed_frame_wf(stack.last());
                        lemma_reduce_wf(popped, NodeV::Atom(value));
                    } else if c != '\n' && c != '\\' {
                        let stk2 = stack.update(n - 1, FrameV::Atom(value.push(c)));
                        assert forall|i: int| 0 <= i < stk2.len() implies frame_wf(
                            #[trigger] stk2[i],
                        ) by {
                            if i < n - 1 {
                                assert(stk2[i] == stack[i]);
                            }
                        }
                        assert forall|i: int| 0 <= i < stk2.len() - 1 implies frame_open(
                            #[trigger] stk2[i],
                        ) by {
                            assert(stk2[i] == stack[i]);
                        }
                    }
                },
                FrameV::List(elems) => {
                    if c == ']' && (lc == 1 || elems.len() == 0) {
                        lemma_completed_frame_wf(stack.last());
                        lemma_reduce_wf(popped, NodeV::List(elems));
                    } else {
                        lemma_map_list_push_cases(st, c, off);
                    }
                },
                FrameV::MapNode(mf) => {
                    if c == '}' && (lc == 1 || mf.entries.len() == 0) && mf.pending.key.len()
                        == 0 {
                        lemma_completed_frame_wf(stack.last());
                        lemma_reduce_wf(popped, NodeV::MapNode(mf.entries));
                    } else {
                        lemma_map_list_push_cases(st, c, off);
                    }
                },
            }
        },
    }
}

/// Running from any reachable state never returns ill-formed entries.
pub proof fn lemma_run_from_wf(s: Seq<char>, j: int, st: StateV)
    requires
        state_wf(st),
    ensures
        run_from(s, j, st) matches Ok(es) ==> entries_wf(es),
    decreases s.len() - j,
{
    if j < 0 || j >= s.len() {
    } else {
        lemma_step_wf(st, s[j], byte_offset(s, j));
        match step(st, s[j], byte_offset(s, j)) {
            StepV::Next(st2) => {
                lemma_run_from_wf(s, j + 1, st2);
            },
            _ => {
            },
        }
    }
}

/// Duplicate detection, as a law of the machine: whenever a parse succeeds,
/// no map anywhere in the returned document holds two entries with the same
/// key, and every key is a legal identifier.
pub proof fn lemma_parse_no_duplicate_keys(s: Seq<char>)
    ensures
        spec_parse(s) matches Ok(es) ==> entries_wf(es),
{
    lemma_run_from_wf(s, 0, init_state());
}

/// Source order is preserved, as a law of the machine: one step never
/// reorders or drops the committed entries of any map frame — the entries of
/// a frame before the step are a prefix of the entries of the frame at the
/// same depth after it.  Entries are only ever appended, in the order their
/// values complete.
pub proof fn lemma_step_preserves_entry_order(st: StateV, c: char, off: nat)
    ensures
        step(st, c, off) matches StepV::Next(st2) ==> forall|i: int|
            (0 <= i < st.stack.len() && i < st2.stack.len() && st.stack[i] is MapNode
                && st2.stack[i] is MapNode) ==> (#[trigger] st.stack[i])->MapNode_0.entries.is_prefix_of(
                (#[trigger] st2.stack[i])->MapNode_0.entries),
{
    match step(st, c, off) {
        StepV::Next(st2) => {
            assert forall|i: int|
                (0 <= i < st.stack.len() && i < st2.stack.len() && st.stack[i] is MapNode
                    && st2.stack[i] is MapNode) implies (#[trigger] st.stack[i])->MapNode_0.entries.is_prefix_of(
                (#[trigger] st2.stack[i])->MapNode_0.entries) by {
                let e1 = st.stack[i]->MapNode_0.entries;
                let e2 = st2.stack[i]->MapNode_0.entries;
                assert(e2 == e1 || (exists|e: EntryV| e2 == e1.push(e))) by {
                    lemma_step_stack_shapes(st, c, off);
                }
                if e2 == e1 {
                    assert(e1 =~= e2.subrange(0, e1.len() as int));
                } else {
                    let e = choose|e: EntryV| e2 == e1.push(e);
                    assert(e1 =~= e2.subrange(0, e1.len() as int));
                }
            }
        },
        _ => {
        },
    }
}

/// In one step, a map frame that survives at its depth keeps its committed
/// entries, or gains exactly one at the end.
proof fn lemma_step_stack_shapes(st: StateV, c: char, off: nat)
    ensures
        step(st, c, off) matches StepV::Next(st2) ==> forall|i: int|
            (0 <= i < st.stack.len() && i < st2.stack.len() && st.stack[i] is MapNode
                && st2.stack[i] is MapNode) ==> {
                let e1 = (#[trigger] st.stack[i])->MapNode_0.entries;
                let e2 = (#[trigger] st2.stack[i])->MapNode_0.entries;
                e2 == e1 || (exists|e: EntryV| e2 == e1.push(e))
            },
{
    let n = st.stack.len() as int;
    match step(st, c, off) {
        StepV::Next(st2) => {
            assert forall|i: int|
                (0 <= i < st.stack.len() && i < st2.stack.len() && st.stack[i] is MapNode
                    && st2.stack[i] is MapNode) implies {
                let e1 = (#[trigger] st.stack[i])->MapNode_0.entries;
                let e2 = (#[trigger] st2.stack[i])->MapNode_0.entries;
                e2 == e1 || (exists|e: EntryV| e2 == e1.push(e))
            } by {
                let e1 = st.stack[i]->MapNode_0.entries;
                let e2 = st2.stack[i]->MapNode_0.entries;
                if st2.stack[i] != st.stack[i] {
                    // only a reduction into a map frame changes its entries,
                    // and it appends exactly the committed entry
                    let mf = st.stack[i]->MapNode_0;
                    if e2 != e1 {
                        let e = EntryV {
                            key: mf.pending.key,
                            value: reduced_child(st),
                        };
                        assert(e2 == e1.push(e));
                    }
                }
            }
        },
        _ => {
        },
    }
}

/// The child node that a reduction at this step would commit.
spec fn reduced_child(st: StateV) -> NodeV {
    match st.stack.last() {
        FrameV::Atom(value) => NodeV::Atom(value),
        FrameV::List(elems) => NodeV::List(elems),
        FrameV::MapNode(mf) => NodeV::MapNode(mf.entries),
    }
}

/// A step over a stack whose bottom frame is a map keeps a map at the
/// bottom, and can finish the parse only with that map's own entries.
proof fn lemma_step_bottom(st: StateV, c: char, off: nat)
    requires
        st.stack.len() > 0,
        st.stack[0] is MapNode,
    ensures
        step(st, c, off) matches StepV::Next(st2) ==> st2.stack.len() > 0 && st2.stack[0]
            is MapNode,
        step(st, c, off) matches StepV::Done(es) ==> st.stack.len() == 1 && es
            == st.stack[0]->MapNode_0.entries,
{
    match step(st, c, off) {
        StepV::Next(st2) => {
            if st2.stack != st.stack {
                assert(st2.stack.len() > 0);
            }
        },
        _ => {
        },
    }
}

/// Source order is preserved, as a law of the machine run: whatever the
/// outermost map has already committed stays — in place and in order — in
/// the parsed document.  Entries only ever accumulate at the end.
pub proof fn lemma_run_preserves_committed_entries(s: Seq<char>, j: int, st: StateV)
    requires
        st.stack.len() > 0,
        st.stack[0] is MapNode,
    ensures
        run_from(s, j, st) matches Ok(es) ==> st.stack[0]->MapNode_0.entries.is_prefix_of(es),
    decreases s.len() - j,
{
    let e0 = st.stack[0]->MapNode_0.entries;
    if j < 0 || j >= s.len() {
        match finish(st) {
            Ok(es) => {
                assert(es == e0);
                assert(e0 =~= es.subrange(0, e0.len() as int));
            },
            Err(_) => {
            },
        }
    } else {
        let c = s[j];
        let off = byte_offset(s, j);
        lemma_step_bottom(st, c, off);
        lemma_step_stack_shapes(st, c, off);
        match step(st, c, off) {
            StepV::Next(st2) => {
                lemma_run_preserves_committed_entries(s, j + 1, st2);
                let e1 = st2.stack[0]->MapNode_0.entries;
                assert(e1 == e0 || (exists|e: EntryV| e1 == e0.push(e)));
                match run_from(s, j + 1, st2) {
                    Ok(es) => {
                        // chain the one-step extension with the rest of the run
                        assert(e1 =~= es.subrange(0, e1.len() as int));
                        assert forall|t: int| 0 <= t < e0.len() implies e0[t] == es[t] by {
                            if e1 != e0 {
                                let e = choose|e: EntryV| e1 == e0.push(e);
                                assert(e0[t] == e1[t]);
                            }
                        }
                        assert(e0 =~= es.subrange(0, e0.len() as int));
                    },
                    Err(_) => {
                    },
                }
            },
            StepV::Done(es) => {
                assert(es == e0);
                assert(e0 =~= es.subrange(0, e0.len() as int));
            },
            _ => {
            },
        }
    }
}

/// Once inside a comment, every character up to and including the next
/// newline is consumed without touching the stack.
proof fn lemma_comment_skip(s: Seq<char>, j: int, k: int, stack: Seq<FrameV>, lc: nat)
    requires
        0 <= j <= k < s.len(),
        s[k] == '\n',
        forall|t: int| j <= t < k ==> s[t] != '\n',
    ensures
        run_from(s, j, StateV { stack, line: lc, mode: ModeV::Comment }) == run_from(
            s,
            k + 1,
            StateV { stack, line: 0, mode: ModeV::Normal },
        ),
    decreases k - j,
{
    let st = StateV { stack, line: lc, mode: ModeV::Comment };
    if j == k {
        assert(step(st, s[j], byte_offset(s, j)) == StepV::Next(
            StateV { stack, line: 0, mode: ModeV::Normal },
        ));
    } else {
        let lc2 = next_line_count(lc, s[j]);
        assert(step(st, s[j], byte_offset(s, j)) == StepV::Next(
            StateV { stack, line: lc2, mode: ModeV::Comment },
        ));
        lemma_comment_skip(s, j + 1, k, stack, lc2);
    }
}

/// Comments are invisible, as a law of the machine: where a value or an
/// entry could start (the machine is between tokens, with nothing else on
/// the current line, atop an open map or list), a `//` comment running to
/// the end of the line leaves the stack — the tree under construction —
/// exactly as it was.
pub proof fn lemma_comment_line_no_effect(s: Seq<char>, j: int, k: int, st: StateV)
    requires
        st.mode is Normal,
        st.stack.len() > 0,
        !(st.stack.last() is Atom),
        next_line_count(st.line, '/') == 1,
        0 <= j,
        j + 2 <= k < s.len(),
        s[j] == '/',
        s[j + 1] == '/',
        s[k] == '\n',
        forall|t: int| j + 2 <= t < k ==> s[t] != '\n',
    ensures
        run_from(s, j, st) == run_from(
            s,
            k + 1,
            StateV { stack: st.stack, line: 0, mode: ModeV::Normal },
        ),
{
    let lc1 = next_line_count(st.line, '/');
    assert(step(st, s[j], byte_offset(s, j)) == StepV::Next(
        StateV { stack: st.stack, line: lc1, mode: ModeV::CommentSlash },
    ));
    let st_cs = StateV { stack: st.stack, line: lc1, mode: ModeV::CommentSlash };
    let lc2 = next_line_count(lc1, '/');
    assert(step(st_cs, s[j + 1], byte_offset(s, j + 1)) == StepV::Next(
        StateV { stack: st.stack, line: lc2, mode: ModeV::Comment },
    ));
    assert(run_from(s, j, st) == run_from(s, j + 1, st_cs));
    assert(run_from(s, j + 1, st_cs) == run_from(
        s,
        j + 2,
        StateV { stack: st.stack, line: lc2, mode: ModeV::Comment },
    ));
    lemma_comment_skip(s, j + 2, k, st.stack, lc2);
}

/// The non-reducing cases of a map or list step: mutating the top frame in
/// place or pushing a fresh child frame keeps the state reachable.
proof fn lemma_map_list_push_cases(st: StateV, c: char, off: nat)
    requires
        state_wf(st),
        st.mode is Normal,
        st.stack.last() is MapNode || st.stack.last() is List,
        st.stack.last() matches FrameV::MapNode(mf) ==> !(c == '}' && (next_line_count(st.line, c)
            == 1 || mf.entries.len() == 0) && mf.pending.key.len() == 0),
        st.stack.last() matches FrameV::List(elems) ==> !(c == ']' && (next_line_count(st.line, c)
            == 1 || elems.len() == 0)),
    ensures
        step(st, c, off) matches StepV::Next(st2) ==> state_wf(st2),
        !(step(st, c, off) is Fault),
        step(st, c, off) matches StepV::Done(es) ==> entries_wf(es),
{
    let lc = next_line_count(st.line, c);
    let stack = st.stack;
    let n = stack.len();
    match step(st, c, off) {
        StepV::Next(st2) => {
            let stk2 = st2.stack;
            if stk2.len() == n + 1 {
                // a fresh child frame was pushed onto an open top frame
                assert(forall|i: int| 0 <= i < n ==> stk2[i] == stack[i]);
                assert(frame_wf(stk2[n as int]));
                assert(frame_open(stk2[n - 1]));
                assert forall|i: int| 0 <= i < stk2.len() implies frame_wf(#[trigger] stk2[i]) by {
                    if i < n {
                        assert(stk2[i] == stack[i]);
                    }
                }
                assert forall|i: int| 0 <= i < stk2.len() - 1 implies frame_open(
                    #[trigger] stk2[i],
                ) by {
                    if i < n - 1 {
                        assert(stk2[i] == stack[i]);
                    }
                }
            } else {
                // the top frame was replaced (or kept) in place
                assert(stk2.len() == n);
                assert(forall|i: int| 0 <= i < n - 1 ==> stk2[i] == stack[i]);
                assert(frame_wf(stk2[n - 1]));
                assert forall|i: int| 0 <= i < stk2.len() implies frame_wf(#[trigger] stk2[i]) by {
                    if i < n - 1 {
                        assert(stk2[i] == stack[i]);
                    }
                }
                assert forall|i: int| 0 <= i < stk2.len() - 1 implies frame_open(
                    #[trigger] stk2[i],
                ) by {
                    assert(stk2[i] == stack[i]);
                }
            }
        },
        StepV::Done(_) => {
            assert(false);
        },
        StepV::Fail(_) => {
        },
        StepV::Fault => {
            assert(false);
        },
    }
}

} // verus!
