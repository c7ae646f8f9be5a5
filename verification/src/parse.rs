//! The parsing engine.
//!
//! `parse` drives the builder stack one codepoint at a time and is proved to
//! return exactly what the specification machine (`crate::machine`) returns
//! on the same input: the document's entries on success, and otherwise the
//! first error, with byte-accurate positions.

use vstd::prelude::*;

use crate::chars::byte_offset;
use crate::chars::char_from_u32;
use crate::chars::hex_value;
use crate::chars::is_ascii_digit;
use crate::chars::is_hex_digit;
use crate::chars::is_hex_digit_char;
use crate::chars::is_identifier_char;
use crate::chars::is_whitespace;
use crate::chars::next_line_count;
use crate::chars::push_char;
use crate::machine::ErrorV;
use crate::machine::ModeV;
use crate::machine::ReduceV;
use crate::machine::StateV;
use crate::machine::StepV;
use crate::machine::finish;
use crate::machine::first_key_offset;
use crate::machine::hex_seq_value;
use crate::machine::init_state;
use crate::machine::key_in_entries;
use crate::machine::lemma_parse_no_duplicate_keys;
use crate::machine::lemma_step_wf;
use crate::machine::reduce_v;
use crate::machine::run_from;
use crate::machine::spec_parse;
use crate::machine::state_wf;
use crate::machine::step;
use crate::tracker::NonWhiteSpaceTracker;
use crate::tracker::wrap_in_non_whitespace_tracker;
use crate::tree::Atom;
use crate::tree::EntryV;
use crate::tree::List;
use crate::tree::MapNode;
use crate::tree::Node;
use crate::tree::NodeV;
use crate::tree::entries_wf;
use crate::unfinished::FrameV;
use crate::unfinished::Unfinished;
use crate::unfinished::UnfinishedList;
use crate::unfinished::UnfinishedMap;
use crate::unfinished::UnfinishedMapEntry;
use crate::unfinished::stack_view;
use crate::reduce::reduce_stack;

verus! {

broadcast use {vstd::std_specs::vec::group_vec_axioms, vstd::seq::group_seq_axioms};

/// A parse failure: an unexpected character with its byte offset, an
/// unexpected end of input, or a duplicated map key with the byte offset of
/// its first occurrence.
#[derive(Clone, Debug, PartialEq, Eq)]
pub enum ParseError {
    /// The character and its byte position.
    UnexpectedChar(char, usize),
    UnexpectedEoi,
    DuplicateKey(String, usize),
}

impl View for ParseError {
    type V = ErrorV;

    open spec fn view(&self) -> ErrorV {
        match self {
            ParseError::UnexpectedChar(c, i) => ErrorV::UnexpectedChar(*c, *i as nat),
            ParseError::UnexpectedEoi => ErrorV::UnexpectedEoi,
            ParseError::DuplicateKey(k, i) => ErrorV::DuplicateKey(k@, *i as nat),
        }
    }
}

/// Model of what `parse` returned.
pub open spec fn result_view(r: Result<MapNode, ParseError>) -> Result<Seq<EntryV>, ErrorV> {
    match r {
        Ok(m) => Ok(m@),
        Err(e) => Err(e@),
    }
}

/// Whether the driver loop should go on, or return the finished document.
enum Continuation<T> {
    Return(T),
    Continue,
}

/// The machine state the executable parser sits in between characters: the
/// current stack and line count, in normal mode.
spec fn cur_state(stack: Seq<Unfinished>, lc: nat) -> StateV {
    StateV { stack: stack_view(stack), line: lc, mode: ModeV::Normal }
}

/// The contract every character handler meets: against the machine state
/// `st0` from before the character was consumed, the handler's outcome `r`
/// and its final stack, cursor position and line count agree with running
/// the machine from there.
spec fn handler_post(
    r: Result<Continuation<MapNode>, ParseError>,
    s: Seq<char>,
    j0: int,
    st0: StateV,
    stack2: Seq<Unfinished>,
    pos2: int,
    lc2: nat,
) -> bool {
    let target = run_from(s, j0, st0);
    match r {
        Ok(k) => match k {
            Continuation::Continue => {
                let st2 = StateV { stack: stack_view(stack2), line: lc2, mode: ModeV::Normal };
                state_wf(st2) && run_from(s, pos2, st2) == target
            },
            Continuation::Return(m) => target == Ok::<Seq<EntryV>, ErrorV>(m@),
        },
        Err(e) => target == Err::<Seq<EntryV>, ErrorV>(e@),
    }
}

/// `16^k`: how many values `k` hex digits can take.
spec fn hexcap(k: int) -> int
    decreases k,
{
    if k <= 0 {
        1
    } else {
        16 * hexcap(k - 1)
    }
}

proof fn lemma_hexcap_values()
    ensures
        hexcap(0) == 1,
        hexcap(1) == 16,
        hexcap(2) == 0x100,
        hexcap(3) == 0x1000,
        hexcap(4) == 0x10000,
        hexcap(5) == 0x100000,
        hexcap(6) == 0x1000000,
{
    assert(hexcap(0) == 1);
    assert(hexcap(1) == 16);
    assert(hexcap(2) == 0x100);
    assert(hexcap(3) == 0x1000);
    assert(hexcap(4) == 0x10000);
    assert(hexcap(5) == 0x100000);
    assert(hexcap(6) == 0x1000000);
}

/// The numeric value of `k` hex digits stays under `16^k`.
proof fn lemma_hex_seq_value_bound(ds: Seq<char>)
    requires
        forall|t: int| 0 <= t < ds.len() ==> is_hex_digit_char(#[trigger] ds[t]),
    ensures
        0 <= hex_seq_value(ds) < hexcap(ds.len() as int),
    decreases ds.len(),
{
    if ds.len() == 0 {
    } else {
        assert(forall|t: int|
            0 <= t < ds.drop_last().len() ==> is_hex_digit_char(#[trigger] ds.drop_last()[t]));
        lemma_hex_seq_value_bound(ds.drop_last());
        assert(is_hex_digit_char(ds.last()));
    }
}

/// Parses a complete source text into the top-level map of the document, or
/// reports the first error.
///
/// The returned value is exactly what the specification machine gives for
/// the same sequence of codepoints (`spec_parse`), and on success no map in
/// the document holds two entries with the same key.
pub fn parse(src: &str) -> (r: Result<MapNode, ParseError>)
    ensures
        result_view(r) == spec_parse(src@),
        r matches Ok(m) ==> entries_wf(m@),
{
    let mut stack: Vec<Unfinished> = Vec::new();
    stack.push(
        Unfinished::MapNode(
            UnfinishedMap {
                entries: Vec::new(),
                entry_key_offsets: Vec::new(),
                pending_entry: UnfinishedMapEntry::empty(),
            },
        ),
    );
    let mut remaining = wrap_in_non_whitespace_tracker(src);
    proof {
        assert(stack_view(stack@) =~~= init_state().stack);
        assert(cur_state(stack@, remaining.line_count()) == init_state());
    }
    loop
        invariant
            remaining.wf(),
            remaining.src() == src@,
            0 <= remaining.pos() <= src@.len(),
            state_wf(cur_state(stack@, remaining.line_count())),
            run_from(src@, remaining.pos(), cur_state(stack@, remaining.line_count()))
                == spec_parse(src@),
        ensures
            remaining.pos() >= src@.len(),
            state_wf(cur_state(stack@, remaining.line_count())),
            run_from(src@, remaining.pos(), cur_state(stack@, remaining.line_count()))
                == spec_parse(src@),
        decreases src@.len() - remaining.pos(),
    {
        let ghost lc0 = remaining.line_count();
        match remaining.next() {
            None => {
                break ;
            },
            Some((i, c)) => {
                match handle_character(&mut stack, i, c, &mut remaining, Ghost(lc0)) {
                    Ok(Continuation::Return(m)) => {
                        proof {
                            lemma_parse_no_duplicate_keys(src@);
                        }
                        return Ok(m);
                    },
                    Ok(Continuation::Continue) => {
                    },
                    Err(e) => {
                        return Err(e);
                    },
                }
            },
        }
    }
    proof {
        assert(run_from(src@, remaining.pos(), cur_state(stack@, remaining.line_count()))
            == finish(cur_state(stack@, remaining.line_count())));
        assert(finish(cur_state(stack@, remaining.line_count())) == finish(
            StateV { stack: stack_view(stack@), line: 0, mode: ModeV::Normal },
        ));
        lemma_parse_no_duplicate_keys(src@);
    }
    handle_eoi(&mut stack)
}

/// Dispatches one consumed codepoint `c` (at byte offset `i`) against the
/// frame on top of the stack, consuming further codepoints for escape
/// sequences and comments.  `lc0` is the line count from before `c` was
/// consumed.
fn handle_character(
    stack: &mut Vec<Unfinished>,
    i: usize,
    c: char,
    remaining: &mut NonWhiteSpaceTracker,
    Ghost(lc0): Ghost<nat>,
) -> (r: Result<Continuation<MapNode>, ParseError>)
    requires
        old(remaining).wf(),
        1 <= old(remaining).pos() <= old(remaining).src().len(),
        c == old(remaining).src()[old(remaining).pos() - 1],
        i as nat == byte_offset(old(remaining).src(), old(remaining).pos() - 1),
        next_line_count(lc0, c) == old(remaining).line_count(),
        state_wf(StateV { stack: stack_view(old(stack)@), line: lc0, mode: ModeV::Normal }),
    ensures
        final(remaining).wf(),
        final(remaining).src() == old(remaining).src(),
        old(remaining).pos() <= final(remaining).pos() <= old(remaining).src().len(),
        handler_post(
            r,
            old(remaining).src(),
            old(remaining).pos() - 1,
            StateV { stack: stack_view(old(stack)@), line: lc0, mode: ModeV::Normal },
            final(stack)@,
            final(remaining).pos(),
            final(remaining).line_count(),
        ),
{
    let ghost st0 = StateV { stack: stack_view(old(stack)@), line: lc0, mode: ModeV::Normal };
    let top = match stack.pop() {
        Some(t) => t,
        None => {
            proof {
                assert(false);
            }
            return Err(ParseError::UnexpectedEoi);
        },
    };
    proof {
        assert(stack_view(stack@) =~= st0.stack.drop_last());
        assert(st0.stack.last() == old(stack)@.last()@);
    }
    match top {
        Unfinished::AtomValue(value) => {
            proof {
                assert(st0.stack =~= stack_view(stack@).push(FrameV::Atom(value@)));
            }
            handle_atom_char(stack, value, i, c, remaining, Ghost(lc0), Ghost(st0))
        },
        Unfinished::MapNode(m) => {
            proof {
                assert(st0.stack =~= stack_view(stack@).push(FrameV::MapNode(m@)));
            }
            handle_map_char(stack, m, i, c, remaining, Ghost(lc0), Ghost(st0))
        },
        Unfinished::List(l) => {
            proof {
                assert(st0.stack =~= stack_view(stack@).push(FrameV::List(l@)));
            }
            handle_list_char(stack, l, i, c, remaining, Ghost(lc0), Ghost(st0))
        },
    }
}

/// One codepoint dispatched while an atom is being read (and the machine is
/// outside any escape).  The atom's frame was popped; `value` is its text so
/// far.
fn handle_atom_char(
    stack: &mut Vec<Unfinished>,
    value: String,
    i: usize,
    c: char,
    remaining: &mut NonWhiteSpaceTracker,
    Ghost(lc0): Ghost<nat>,
    Ghost(st0): Ghost<StateV>,
) -> (r: Result<Continuation<MapNode>, ParseError>)
    requires
        old(remaining).wf(),
        1 <= old(remaining).pos() <= old(remaining).src().len(),
        c == old(remaining).src()[old(remaining).pos() - 1],
        i as nat == byte_offset(old(remaining).src(), old(remaining).pos() - 1),
        next_line_count(lc0, c) == old(remaining).line_count(),
        st0.stack == stack_view(old(stack)@).push(FrameV::Atom(value@)),
        st0.line == lc0,
        st0.mode is Normal,
        state_wf(st0),
    ensures
        final(remaining).wf(),
        final(remaining).src() == old(remaining).src(),
        old(remaining).pos() <= final(remaining).pos() <= old(remaining).src().len(),
        handler_post(
            r,
            old(remaining).src(),
            old(remaining).pos() - 1,
            st0,
            final(stack)@,
            final(remaining).pos(),
            final(remaining).line_count(),
        ),
{
    let ghost s = old(remaining).src();
    let ghost j0 = old(remaining).pos() - 1;
    let ghost off = i as nat;
    let ghost lc1 = next_line_count(lc0, c);
    let mut value = value;
    proof {
        lemma_step_wf(st0, c, off);
        assert(st0.stack.last() == FrameV::Atom(value@));
        assert(st0.stack.drop_last() =~= stack_view(stack@));
    }
    if c == '\n' {
        return Err(ParseError::UnexpectedChar(c, i));
    } else if c == '"' {
        let node = Node::Atom(Atom { value });
        finish_reduce(stack, node, Ghost(st0), Ghost(s), Ghost(j0), Ghost(lc1))
    } else if c == '\\' {
        let ghost st_esc = StateV { stack: st0.stack, line: lc1, mode: ModeV::Escape };
        proof {
            assert(step(st0, c, off) == StepV::Next(st_esc));
            assert(run_from(s, j0, st0) == run_from(s, j0 + 1, st_esc));
        }
        match remaining.next() {
            None => {
                proof {
                    assert(run_from(s, remaining.pos(), st_esc) == finish(st_esc));
                }
                return Err(ParseError::UnexpectedEoi);
            },
            Some((i2, c2)) => {
                let ghost lc2 = next_line_count(lc1, c2);
                proof {
                    lemma_step_wf(st_esc, c2, i2 as nat);
                }
                if c2 == '\\' || c2 == '"' || c2 == 'n' {
                    let decoded = if c2 == 'n' {
                        '\n'
                    } else {
                        c2
                    };
                    push_char(&mut value, decoded);
                    stack.push(Unfinished::AtomValue(value));
                    proof {
                        let st2 = StateV {
                            stack: st0.stack.update(st0.stack.len() - 1, FrameV::Atom(value@)),
                            line: lc2,
                            mode: ModeV::Normal,
                        };
                        assert(step(st_esc, c2, i2 as nat) == StepV::Next(st2));
                        assert(run_from(s, j0 + 1, st_esc) == run_from(s, j0 + 2, st2));
                        assert(stack_view(stack@) =~= st2.stack);
                    }
                    Ok(Continuation::Continue)
                } else if c2 == 'u' {
                    let ghost st_hex0 = StateV {
                        stack: st0.stack,
                        line: lc2,
                        mode: ModeV::EscapeHex(Seq::empty()),
                    };
                    proof {
                        assert(step(st_esc, c2, i2 as nat) == StepV::Next(st_hex0));
                        assert(run_from(s, j0 + 1, st_esc) == run_from(s, j0 + 2, st_hex0));
                    }
                    read_hex_escape(
                        stack,
                        value,
                        remaining,
                        Ghost(st0.stack),
                        Ghost(lc2),
                        Ghost(run_from(s, j0, st0)),
                    )
                } else {
                    proof {
                        assert(step(st_esc, c2, i2 as nat) == StepV::Fail(
                            ErrorV::UnexpectedChar(c2, i2 as nat),
                        ));
                    }
                    return Err(ParseError::UnexpectedChar(c2, i2));
                }
            },
        }
    } else {
        push_char(&mut value, c);
        stack.push(Unfinished::AtomValue(value));
        proof {
            let st2 = StateV {
                stack: st0.stack.update(st0.stack.len() - 1, FrameV::Atom(value@)),
                line: lc1,
                mode: ModeV::Normal,
            };
            assert(step(st0, c, off) == StepV::Next(st2));
            assert(stack_view(stack@) =~= st2.stack);
        }
        Ok(Continuation::Continue)
    }
}

/// One codepoint dispatched while a map is being read.  The map's frame was
/// popped into `m`.
fn handle_map_char(
    stack: &mut Vec<Unfinished>,
    m: UnfinishedMap,
    i: usize,
    c: char,
    remaining: &mut NonWhiteSpaceTracker,
    Ghost(lc0): Ghost<nat>,
    Ghost(st0): Ghost<StateV>,
) -> (r: Result<Continuation<MapNode>, ParseError>)
    requires
        old(remaining).wf(),
        1 <= old(remaining).pos() <= old(remaining).src().len(),
        c == old(remaining).src()[old(remaining).pos() - 1],
        i as nat == byte_offset(old(remaining).src(), old(remaining).pos() - 1),
        next_line_count(lc0, c) == old(remaining).line_count(),
        st0.stack == stack_view(old(stack)@).push(FrameV::MapNode(m@)),
        st0.line == lc0,
        st0.mode is Normal,
        state_wf(st0),
    ensures
        final(remaining).wf(),
        final(remaining).src() == old(remaining).src(),
        old(remaining).pos() <= final(remaining).pos() <= old(remaining).src().len(),
        handler_post(
            r,
            old(remaining).src(),
            old(remaining).pos() - 1,
            st0,
            final(stack)@,
            final(remaining).pos(),
            final(remaining).line_count(),
        ),
{
    let ghost s = old(remaining).src();
    let ghost j0 = old(remaining).pos() - 1;
    let ghost off = i as nat;
    let ghost lc1 = next_line_count(lc0, c);
    let ghost mf = m@;
    let mut m = m;
    proof {
        lemma_step_wf(st0, c, off);
        assert(st0.stack.last() == FrameV::MapNode(mf));
        assert(st0.stack.drop_last() =~= stack_view(stack@));
    }
    let nw = remaining.non_whitespace_on_current_line();
    if c == '}' && (nw == 1 || m.entries.len() == 0) {
        if m.pending_entry.key.as_str().is_empty() {
            let node = Node::MapNode(MapNode { entries: m.entries });
            proof {
                assert(node@ == NodeV::MapNode(mf.entries)) by {
                    assert(node@->MapNode_0 =~= mf.entries);
                }
            }
            finish_reduce(stack, node, Ghost(st0), Ghost(s), Ghost(j0), Ghost(lc1))
        } else {
            return Err(ParseError::UnexpectedChar(c, i));
        }
    } else if c == '\n' {
        if m.pending_entry.key.as_str().is_empty() {
            stack.push(Unfinished::MapNode(m));
            proof {
                assert(step(st0, c, off) == StepV::Next(
                    StateV { stack: st0.stack, line: lc1, mode: ModeV::Normal },
                ));
                assert(stack_view(stack@) =~= st0.stack);
            }
            Ok(Continuation::Continue)
        } else {
            return Err(ParseError::UnexpectedChar(c, i));
        }
    } else if c == '=' {
        if m.pending_entry.key_start_byte_index.is_none() {
            return Err(ParseError::UnexpectedChar(c, i));
        }
        // duplicate-key scan over the committed entries
        proof {
            assert(Seq::new(m.entries@.len(), |t: int| m.entries@[t]@) =~= mf.entries);
        }
        let dup = find_duplicate(&m.entries, &m.entry_key_offsets, &m.pending_entry.key);
        match dup {
            Some(o) => {
                proof {
                    let k = mf.pending.key;
                    assert(crate::machine::frame_wf(st0.stack[st0.stack.len() - 1]));
                    let tw = choose|t: int|
                        0 <= t < m.entries@.len() && (#[trigger] m.entries@[t]@).key
                            == m.pending_entry.key@ && o as nat == m.entry_key_offsets@[t] as nat;
                    assert(mf.entries[tw] == m.entries@[tw]@);
                    assert(mf.key_offsets[tw] == m.entry_key_offsets@[tw] as nat);
                    assert(0 <= tw < mf.entries.len() && mf.entries[tw].key == k && o as nat
                        == mf.key_offsets[tw]);
                    assert(key_in_entries(mf.entries, k));
                    let ci = choose|t: int|
                        0 <= t < mf.entries.len() && (#[trigger] mf.entries[t]).key == k;
                    assert(ci == tw) by {
                        if ci != tw {
                            assert(mf.entries[ci].key == k);
                            assert(mf.entries[tw].key == k);
                            assert(mf.entries[ci].key != mf.entries[tw].key);
                        }
                    }
                    assert(first_key_offset(mf, k) == o as nat);
                }
                return Err(ParseError::DuplicateKey(m.pending_entry.key.clone(), o));
            },
            None => {
            },
        }
        if m.pending_entry.has_equal {
            return Err(ParseError::UnexpectedChar(c, i));
        }
        m.pending_entry.has_equal = true;
        stack.push(Unfinished::MapNode(m));
        proof {
            assert(step(st0, c, off) matches StepV::Next(st2) && stack_view(stack@) =~~= st2.stack
                && st2.line == lc1 && st2.mode is Normal);
        }
        Ok(Continuation::Continue)
    } else if is_whitespace(c) {
        if !m.pending_entry.key.as_str().is_empty() {
            m.pending_entry.has_space_after_key = true;
        }
        stack.push(Unfinished::MapNode(m));
        proof {
            assert(step(st0, c, off) matches StepV::Next(st2) && stack_view(stack@) =~~= st2.stack
                && st2.line == lc1 && st2.mode is Normal);
        }
        Ok(Continuation::Continue)
    } else if is_identifier_char(c) && m.pending_entry.key.as_str().is_empty() {
        if nw != 1 {
            return Err(ParseError::UnexpectedChar(c, i));
        }
        if is_ascii_digit(c) {
            return Err(ParseError::UnexpectedChar(c, i));
        }
        if m.pending_entry.has_space_after_key || m.pending_entry.has_equal {
            return Err(ParseError::UnexpectedChar(c, i));
        }
        m.pending_entry.key_start_byte_index = Some(i);
        push_char(&mut m.pending_entry.key, c);
        stack.push(Unfinished::MapNode(m));
        proof {
            assert(m.pending_entry@.key =~= seq![c]);
            assert(step(st0, c, off) matches StepV::Next(st2) && stack_view(stack@) =~~= st2.stack
                && st2.line == lc1 && st2.mode is Normal);
        }
        Ok(Continuation::Continue)
    } else if is_identifier_char(c) {
        if m.pending_entry.has_space_after_key || m.pending_entry.has_equal {
            return Err(ParseError::UnexpectedChar(c, i));
        }
        push_char(&mut m.pending_entry.key, c);
        stack.push(Unfinished::MapNode(m));
        proof {
            assert(step(st0, c, off) matches StepV::Next(st2) && stack_view(stack@) =~~= st2.stack
                && st2.line == lc1 && st2.mode is Normal);
        }
        Ok(Continuation::Continue)
    } else if c == '"' {
        if !m.pending_entry.has_equal {
            return Err(ParseError::UnexpectedChar(c, i));
        }
        stack.push(Unfinished::MapNode(m));
        stack.push(Unfinished::AtomValue(String::new()));
        proof {
            assert(step(st0, c, off) matches StepV::Next(st2) && stack_view(stack@) =~~= st2.stack
                && st2.line == lc1 && st2.mode is Normal);
        }
        Ok(Continuation::Continue)
    } else if c == '{' {
        if !m.pending_entry.has_equal {
            return Err(ParseError::UnexpectedChar(c, i));
        }
        stack.push(Unfinished::MapNode(m));
        stack.push(
            Unfinished::MapNode(
                UnfinishedMap {
                    entries: Vec::new(),
                    entry_key_offsets: Vec::new(),
                    pending_entry: UnfinishedMapEntry::empty(),
                },
            ),
        );
        proof {
            assert(step(st0, c, off) matches StepV::Next(st2) && stack_view(stack@) =~~= st2.stack
                && st2.line == lc1 && st2.mode is Normal);
        }
        Ok(Continuation::Continue)
    } else if c == '[' {
        if !m.pending_entry.has_equal {
            return Err(ParseError::UnexpectedChar(c, i));
        }
        stack.push(Unfinished::MapNode(m));
        stack.push(Unfinished::List(UnfinishedList { elements: Vec::new() }));
        proof {
            assert(step(st0, c, off) matches StepV::Next(st2) && stack_view(stack@) =~~= st2.stack
                && st2.line == lc1 && st2.mode is Normal);
        }
        Ok(Continuation::Continue)
    } else if c == '/' && nw == 1 {
        stack.push(Unfinished::MapNode(m));
        proof {
            assert(stack_view(stack@) =~= st0.stack);
            assert(step(st0, c, off) == StepV::Next(
                StateV { stack: st0.stack, line: lc1, mode: ModeV::CommentSlash },
            ));
        }
        skip_comment(remaining, Ghost(st0.stack), Ghost(lc1), Ghost(run_from(s, j0, st0)))
    } else {
        return Err(ParseError::UnexpectedChar(c, i));
    }
}

/// One codepoint dispatched while a list is being read.  The list's frame
/// was popped into `l`.
fn handle_list_char(
    stack: &mut Vec<Unfinished>,
    l: UnfinishedList,
    i: usize,
    c: char,
    remaining: &mut NonWhiteSpaceTracker,
    Ghost(lc0): Ghost<nat>,
    Ghost(st0): Ghost<StateV>,
) -> (r: Result<Continuation<MapNode>, ParseError>)
    requires
        old(remaining).wf(),
        1 <= old(remaining).pos() <= old(remaining).src().len(),
        c == old(remaining).src()[old(remaining).pos() - 1],
        i as nat == byte_offset(old(remaining).src(), old(remaining).pos() - 1),
        next_line_count(lc0, c) == old(remaining).line_count(),
        st0.stack == stack_view(old(stack)@).push(FrameV::List(l@)),
        st0.line == lc0,
        st0.mode is Normal,
        state_wf(st0),
    ensures
        final(remaining).wf(),
        final(remaining).src() == old(remaining).src(),
        old(remaining).pos() <= final(remaining).pos() <= old(remaining).src().len(),
        handler_post(
            r,
            old(remaining).src(),
            old(remaining).pos() - 1,
            st0,
            final(stack)@,
            final(remaining).pos(),
            final(remaining).line_count(),
        ),
{
    let ghost s = old(remaining).src();
    let ghost j0 = old(remaining).pos() - 1;
    let ghost off = i as nat;
    let ghost lc1 = next_line_count(lc0, c);
    let ghost elems = l@;
    proof {
        lemma_step_wf(st0, c, off);
        assert(st0.stack.last() == FrameV::List(elems));
        assert(st0.stack.drop_last() =~= stack_view(stack@));
    }
    let nw = remaining.non_whitespace_on_current_line();
    if c == ']' && (nw == 1 || l.elements.len() == 0) {
        let node = Node::List(List { elements: l.elements });
        proof {
            assert(node@ == NodeV::List(elems)) by {
                assert(node@->List_0 =~= elems);
            }
        }
        finish_reduce(stack, node, Ghost(st0), Ghost(s), Ghost(j0), Ghost(lc1))
    } else if c == '"' && nw == 1 {
        stack.push(Unfinished::List(l));
        stack.push(Unfinished::AtomValue(String::new()));
        proof {
            assert(step(st0, c, off) matches StepV::Next(st2) && stack_view(stack@) =~~= st2.stack
                && st2.line == lc1 && st2.mode is Normal);
        }
        Ok(Continuation::Continue)
    } else if c == '{' && nw == 1 {
        stack.push(Unfinished::List(l));
        stack.push(
            Unfinished::MapNode(
                UnfinishedMap {
                    entries: Vec::new(),
                    entry_key_offsets: Vec::new(),
                    pending_entry: UnfinishedMapEntry::empty(),
                },
            ),
        );
        proof {
            assert(step(st0, c, off) matches StepV::Next(st2) && stack_view(stack@) =~~= st2.stack
                && st2.line == lc1 && st2.mode is Normal);
        }
        Ok(Continuation::Continue)
    } else if c == '[' && nw == 1 {
        stack.push(Unfinished::List(l));
        stack.push(Unfinished::List(UnfinishedList { elements: Vec::new() }));
        proof {
            assert(step(st0, c, off) matches StepV::Next(st2) && stack_view(stack@) =~~= st2.stack
                && st2.line == lc1 && st2.mode is Normal);
        }
        Ok(Continuation::Continue)
    } else if c == '/' && nw == 1 {
        stack.push(Unfinished::List(l));
        proof {
            assert(stack_view(stack@) =~= st0.stack);
            assert(step(st0, c, off) == StepV::Next(
                StateV { stack: st0.stack, line: lc1, mode: ModeV::CommentSlash },
            ));
        }
        skip_comment(remaining, Ghost(st0.stack), Ghost(lc1), Ghost(run_from(s, j0, st0)))
    } else if is_whitespace(c) {
        stack.push(Unfinished::List(l));
        proof {
            assert(step(st0, c, off) == StepV::Next(
                StateV { stack: st0.stack, line: lc1, mode: ModeV::Normal },
            ));
            assert(stack_view(stack@) =~= st0.stack);
        }
        Ok(Continuation::Continue)
    } else {
        return Err(ParseError::UnexpectedChar(c, i));
    }
}

/// The caller has already popped the completed frame and built `node` from
/// it: folds `node` into the newly exposed frame, translating the reduction
/// outcome into the driver's continuation.
fn finish_reduce(
    stack: &mut Vec<Unfinished>,
    node: Node,
    Ghost(st0): Ghost<StateV>,
    Ghost(s): Ghost<Seq<char>>,
    Ghost(j0): Ghost<int>,
    Ghost(lc1): Ghost<nat>,
) -> (r: Result<Continuation<MapNode>, ParseError>)
    requires
        0 <= j0 < s.len(),
        stack_view(old(stack)@) == st0.stack.drop_last(),
        st0.stack.len() >= 1,
        step(st0, s[j0], byte_offset(s, j0)) == crate::machine::after_reduce(
            reduce_v(st0.stack.drop_last(), node@),
            lc1,
        ),
        !(step(st0, s[j0], byte_offset(s, j0)) is Fault),
        step(st0, s[j0], byte_offset(s, j0)) matches StepV::Next(st2) ==> state_wf(st2),
        step(st0, s[j0], byte_offset(s, j0)) matches StepV::Done(es) ==> entries_wf(es),
    ensures
        handler_post(r, s, j0, st0, final(stack)@, j0 + 1, lc1),
{
    let ghost child = node@;
    let ghost popped = st0.stack.drop_last();
    match reduce_stack(stack, node) {
        Ok(Some(m)) => {
            proof {
                assert(reduce_v(popped, child) matches ReduceV::Done(es) && m@ == es);
            }
            Ok(Continuation::Return(m))
        },
        Ok(None) => {
            proof {
                assert(reduce_v(popped, child) matches ReduceV::Push(stk2) && stack_view(stack@)
                    == stk2);
            }
            Ok(Continuation::Continue)
        },
        Err(_) => {
            proof {
                assert(false);
            }
            Err(ParseError::UnexpectedEoi)
        },
    }
}

/// Consumes the six hex digits of a `\u` escape (the backslash and the `u`
/// were already consumed), decodes the codepoint and appends it to `value`,
/// which is pushed back onto the stack as the atom being read.
fn read_hex_escape(
    stack: &mut Vec<Unfinished>,
    value: String,
    remaining: &mut NonWhiteSpaceTracker,
    Ghost(stv): Ghost<Seq<FrameV>>,
    Ghost(lc_in): Ghost<nat>,
    Ghost(target): Ghost<Result<Seq<EntryV>, ErrorV>>,
) -> (r: Result<Continuation<MapNode>, ParseError>)
    requires
        old(remaining).wf(),
        0 <= old(remaining).pos() <= old(remaining).src().len(),
        old(remaining).line_count() == lc_in,
        stack_view(old(stack)@) == stv.drop_last(),
        stv.len() >= 1,
        stv.last() == FrameV::Atom(value@),
        state_wf(StateV { stack: stv, line: lc_in, mode: ModeV::EscapeHex(Seq::empty()) }),
        run_from(
            old(remaining).src(),
            old(remaining).pos(),
            StateV { stack: stv, line: lc_in, mode: ModeV::EscapeHex(Seq::empty()) },
        ) == target,
    ensures
        final(remaining).wf(),
        final(remaining).src() == old(remaining).src(),
        old(remaining).pos() <= final(remaining).pos() <= old(remaining).src().len(),
        ({
            let s = old(remaining).src();
            match r {
                Ok(k) => match k {
                    Continuation::Continue => {
                        let st2 = StateV {
                            stack: stack_view(final(stack)@),
                            line: final(remaining).line_count(),
                            mode: ModeV::Normal,
                        };
                        state_wf(st2) && run_from(s, final(remaining).pos(), st2) == target
                    },
                    Continuation::Return(m) => target == Ok::<Seq<EntryV>, ErrorV>(m@),
                },
                Err(e) => target == Err::<Seq<EntryV>, ErrorV>(e@),
            }
        }),
{
    let ghost s = old(remaining).src();
    let mut value = value;
    let mut code: u32 = 0;
    let ghost mut ds: Seq<char> = Seq::empty();
    let ghost mut lch = lc_in;
    let mut k: usize = 0;
    let mut last_i: usize = 0;
    let mut last_c: char = '0';
    while k < 6
        invariant
            remaining.wf(),
            remaining.src() == s,
            s == old(remaining).src(),
            0 <= old(remaining).pos(),
            old(remaining).pos() <= remaining.pos() <= s.len(),
            k <= 6,
            ds.len() == k,
            forall|t: int| 0 <= t < ds.len() ==> is_hex_digit_char(#[trigger] ds[t]),
            code == hex_seq_value(ds),
            remaining.line_count() == lch,
            stack_view(stack@) == stv.drop_last(),
            stv.len() >= 1,
            k < 6 ==> stv.last() == FrameV::Atom(value@),
            k < 6 ==> state_wf(StateV { stack: stv, line: lch, mode: ModeV::EscapeHex(ds) }),
            k < 6 ==> run_from(
                s,
                remaining.pos(),
                StateV { stack: stv, line: lch, mode: ModeV::EscapeHex(ds) },
            ) == target,
            k == 6 ==> state_wf(
                StateV {
                    stack: stv.update(stv.len() - 1, FrameV::Atom(value@)),
                    line: lch,
                    mode: ModeV::Normal,
                },
            ),
            k == 6 ==> run_from(
                s,
                remaining.pos(),
                StateV {
                    stack: stv.update(stv.len() - 1, FrameV::Atom(value@)),
                    line: lch,
                    mode: ModeV::Normal,
                },
            ) == target,
        decreases 6 - k,
    {
        let ghost st_cur = StateV { stack: stv, line: lch, mode: ModeV::EscapeHex(ds) };
        match remaining.next() {
            None => {
                proof {
                    assert(run_from(s, remaining.pos(), st_cur) == finish(st_cur));
                }
                return Err(ParseError::UnexpectedEoi);
            },
            Some((ih, ch)) => {
                proof {
                    lemma_step_wf(st_cur, ch, ih as nat);
                }
                if !is_hex_digit(ch) {
                    proof {
                        assert(step(st_cur, ch, ih as nat) == StepV::Fail(
                            ErrorV::UnexpectedChar(ch, ih as nat),
                        ));
                        assert(run_from(s, remaining.pos() - 1, st_cur) == Err::<
                            Seq<EntryV>,
                            ErrorV,
                        >(ErrorV::UnexpectedChar(ch, ih as nat)));
                    }
                    return Err(ParseError::UnexpectedChar(ch, ih));
                }
                proof {
                    lemma_hexcap_values();
                    lemma_hex_seq_value_bound(ds);
                    assert(ds.push(ch).drop_last() =~= ds);
                    assert(ds.push(ch).last() == ch);
                    lemma_hex_seq_value_bound(ds.push(ch));
                }
                let v = hex_value(ch);
                code = code * 16 + v;
                last_i = ih;
                last_c = ch;
                proof {
                    let ds2 = ds.push(ch);
                    let lch2 = next_line_count(lch, ch);
                    if ds2.len() < 6 {
                        assert(step(st_cur, ch, ih as nat) == StepV::Next(
                            StateV { stack: stv, line: lch2, mode: ModeV::EscapeHex(ds2) },
                        ));
                        assert(run_from(s, remaining.pos() - 1, st_cur) == run_from(
                            s,
                            remaining.pos(),
                            StateV { stack: stv, line: lch2, mode: ModeV::EscapeHex(ds2) },
                        ));
                    } else if crate::machine::is_scalar_int(hex_seq_value(ds2)) {
                        let st_done = StateV {
                            stack: stv.update(
                                stv.len() - 1,
                                FrameV::Atom(
                                    value@.push(crate::machine::char_of_code(hex_seq_value(ds2))),
                                ),
                            ),
                            line: lch2,
                            mode: ModeV::Normal,
                        };
                        assert(step(st_cur, ch, ih as nat) == StepV::Next(st_done));
                        assert(run_from(s, remaining.pos() - 1, st_cur) == run_from(
                            s,
                            remaining.pos(),
                            st_done,
                        ));
                    } else {
                        assert(step(st_cur, ch, ih as nat) == StepV::Fail(
                            ErrorV::UnexpectedChar(ch, ih as nat),
                        ));
                        assert(run_from(s, remaining.pos() - 1, st_cur) == Err::<
                            Seq<EntryV>,
                            ErrorV,
                        >(ErrorV::UnexpectedChar(ch, ih as nat)));
                    }
                    ds = ds2;
                    lch = lch2;
                }
                k = k + 1;
                if k == 6 {
                    // the sixth digit completes the codepoint; it must be a
                    // Unicode scalar value
                    match char_from_u32(code) {
                        Some(decoded) => {
                            proof {
                                vstd::utf8::char_u32_cast(decoded, code);
                                assert(decoded == crate::machine::char_of_code(hex_seq_value(ds)));
                            }
                            push_char(&mut value, decoded);
                        },
                        None => {
                            proof {
                                assert(!crate::machine::is_scalar_int(hex_seq_value(ds)));
                            }
                            return Err(ParseError::UnexpectedChar(last_c, last_i));
                        },
                    }
                }
            },
        }
    }
    let ghost pre = stack@;
    stack.push(Unfinished::AtomValue(value));
    proof {
        let st_fin = stv.update(stv.len() - 1, FrameV::Atom(value@));
        assert(stack@.len() == stv.len());
        assert forall|t: int| 0 <= t < stv.len() implies stack_view(stack@)[t] == st_fin[t] by {
            if t < stv.len() - 1 {
                assert(stack@[t] == pre[t]);
                assert(stack_view(pre)[t] == pre[t]@);
                assert(stack_view(pre) == stv.drop_last());
                assert(stv.drop_last()[t] == stv[t]);
            } else {
                assert(stack@[t] == Unfinished::AtomValue(value));
            }
        }
        assert(stack_view(stack@) =~= stv.update(stv.len() - 1, FrameV::Atom(value@)));
    }
    Ok(Continuation::Continue)
}

/// Consumes a line comment: the `/` that introduced it was already consumed,
/// the next character must be a second `/`, and everything up to and
/// including the end of the line is skipped.  The stack is untouched.
fn skip_comment(
    remaining: &mut NonWhiteSpaceTracker,
    Ghost(stv): Ghost<Seq<FrameV>>,
    Ghost(lc1): Ghost<nat>,
    Ghost(target): Ghost<Result<Seq<EntryV>, ErrorV>>,
) -> (r: Result<Continuation<MapNode>, ParseError>)
    requires
        old(remaining).wf(),
        0 <= old(remaining).pos() <= old(remaining).src().len(),
        old(remaining).line_count() == lc1,
        state_wf(StateV { stack: stv, line: lc1, mode: ModeV::CommentSlash }),
        run_from(
            old(remaining).src(),
            old(remaining).pos(),
            StateV { stack: stv, line: lc1, mode: ModeV::CommentSlash },
        ) == target,
    ensures
        final(remaining).wf(),
        final(remaining).src() == old(remaining).src(),
        old(remaining).pos() <= final(remaining).pos() <= old(remaining).src().len(),
        ({
            let s = old(remaining).src();
            match r {
                Ok(k) => match k {
                    Continuation::Continue => {
                        let st2 = StateV {
                            stack: stv,
                            line: final(remaining).line_count(),
                            mode: ModeV::Normal,
                        };
                        state_wf(st2) && run_from(s, final(remaining).pos(), st2) == target
                    },
                    Continuation::Return(m) => target == Ok::<Seq<EntryV>, ErrorV>(m@),
                },
                Err(e) => target == Err::<Seq<EntryV>, ErrorV>(e@),
            }
        }),
{
    let ghost s = old(remaining).src();
    let ghost st_cs = StateV { stack: stv, line: lc1, mode: ModeV::CommentSlash };
    match remaining.next() {
        None => {
            proof {
                assert(run_from(s, remaining.pos(), st_cs) == finish(st_cs));
            }
            return Err(ParseError::UnexpectedEoi);
        },
        Some((i2, c2)) => {
            if c2 != '/' {
                proof {
                    assert(step(st_cs, c2, i2 as nat) == StepV::Fail(
                        ErrorV::UnexpectedChar(c2, i2 as nat),
                    ));
                }
                return Err(ParseError::UnexpectedChar(c2, i2));
            }
            let ghost mut lcc = next_line_count(lc1, c2);
            proof {
                assert(step(st_cs, c2, i2 as nat) == StepV::Next(
                    StateV { stack: stv, line: lcc, mode: ModeV::Comment },
                ));
            }
            loop
                invariant_except_break
                    remaining.line_count() == lcc,
                    run_from(
                        s,
                        remaining.pos(),
                        StateV { stack: stv, line: lcc, mode: ModeV::Comment },
                    ) == target,
                invariant
                    remaining.wf(),
                    remaining.src() == s,
                    s == old(remaining).src(),
                    0 <= old(remaining).pos(),
                    old(remaining).pos() <= remaining.pos() <= s.len(),
                    state_wf(StateV { stack: stv, line: lcc, mode: ModeV::Comment }),
                ensures
                    remaining.wf(),
                    remaining.src() == s,
                    old(remaining).pos() <= remaining.pos() <= s.len(),
                    state_wf(
                        StateV { stack: stv, line: remaining.line_count(), mode: ModeV::Normal },
                    ),
                    run_from(
                        s,
                        remaining.pos(),
                        StateV { stack: stv, line: remaining.line_count(), mode: ModeV::Normal },
                    ) == target,
                decreases s.len() - remaining.pos(),
            {
                let ghost st_cm = StateV { stack: stv, line: lcc, mode: ModeV::Comment };
                match remaining.next() {
                    None => {
                        proof {
                            assert(run_from(s, remaining.pos(), st_cm) == finish(st_cm));
                            assert(finish(st_cm) == finish(
                                StateV {
                                    stack: stv,
                                    line: remaining.line_count(),
                                    mode: ModeV::Normal,
                                },
                            ));
                            assert(run_from(
                                s,
                                remaining.pos(),
                                StateV {
                                    stack: stv,
                                    line: remaining.line_count(),
                                    mode: ModeV::Normal,
                                },
                            ) == finish(
                                StateV {
                                    stack: stv,
                                    line: remaining.line_count(),
                                    mode: ModeV::Normal,
                                },
                            ));
                        }
                        break ;
                    },
                    Some((i3, c3)) => {
                        proof {
                            let lc3 = next_line_count(lcc, c3);
                            assert(0 <= remaining.pos() - 1 < s.len());
                            assert(s[remaining.pos() - 1] == c3);
                            assert(byte_offset(s, remaining.pos() - 1) == i3 as nat);
                            if c3 == '\n' {
                                assert(step(st_cm, c3, i3 as nat) == StepV::Next(
                                    StateV { stack: stv, line: lc3, mode: ModeV::Normal },
                                ));
                                assert(run_from(s, remaining.pos() - 1, st_cm) == run_from(
                                    s,
                                    remaining.pos(),
                                    StateV { stack: stv, line: lc3, mode: ModeV::Normal },
                                ));
                            } else {
                                assert(step(st_cm, c3, i3 as nat) == StepV::Next(
                                    StateV { stack: stv, line: lc3, mode: ModeV::Comment },
                                ));
                                assert(run_from(s, remaining.pos() - 1, st_cm) == run_from(
                                    s,
                                    remaining.pos(),
                                    StateV { stack: stv, line: lc3, mode: ModeV::Comment },
                                ));
                            }
                            lcc = lc3;
                        }
                        if c3 == '\n' {
                            break ;
                        }
                    },
                }
            }
            Ok(Continuation::Continue)
        },
    }
}

/// Looks for a committed entry whose key spells `key`; on a hit, returns the
/// byte offset recorded for that entry's key.
fn find_duplicate(entries: &Vec<crate::tree::MapEntry>, offsets: &Vec<usize>, key: &String) -> (r:
    Option<usize>)
    requires
        offsets@.len() == entries@.len(),
    ensures
        r is Some <==> key_in_entries(
            Seq::new(entries@.len(), |t: int| entries@[t]@),
            key@,
        ),
        r matches Some(o) ==> exists|t: int|
            0 <= t < entries@.len() && (#[trigger] entries@[t]@).key == key@ && o as nat
                == offsets@[t] as nat,
{
    let ghost es = Seq::new(entries@.len(), |t: int| entries@[t]@);
    let mut idx: usize = 0;
    while idx < entries.len()
        invariant
            idx <= entries@.len(),
            offsets@.len() == entries@.len(),
            es == Seq::new(entries@.len(), |t: int| entries@[t]@),
            forall|t: int| 0 <= t < idx ==> (#[trigger] es[t]).key != key@,
        decreases entries@.len() - idx,
    {
        if entries[idx].key.eq_string(key) {
            proof {
                assert(es[idx as int].key == key@);
                assert(key_in_entries(es, key@));
            }
            return Some(offsets[idx]);
        }
        idx = idx + 1;
    }
    proof {
        assert(!key_in_entries(es, key@));
    }
    None
}

/// End of input: the stack must hold exactly the outermost map, with no
/// pending entry begun; that map's entries are the document.
fn handle_eoi(stack: &mut Vec<Unfinished>) -> (r: Result<MapNode, ParseError>)
    ensures
        ({
            let fin = finish(
                StateV { stack: stack_view(old(stack)@), line: 0, mode: ModeV::Normal },
            );
            match r {
                Ok(m) => fin == Ok::<Seq<EntryV>, ErrorV>(m@),
                Err(e) => fin == Err::<Seq<EntryV>, ErrorV>(e@),
            }
        }),
{
    let n = stack.len();
    let last = stack.pop();
    match last {
        Some(Unfinished::MapNode(m)) => {
            if n == 1 && m.pending_entry.key.as_str().is_empty() {
                let r = MapNode { entries: m.entries };
                proof {
                    assert(r@ =~= stack_view(old(stack)@)[0]->MapNode_0.entries);
                }
                Ok(r)
            } else {
                Err(ParseError::UnexpectedEoi)
            }
        },
        _ => Err(ParseError::UnexpectedEoi),
    }
}

} // verus!
