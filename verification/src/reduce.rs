//! The reduction step: folding a completed node into the frame that the pop
//! just exposed.

use vstd::prelude::*;

use crate::machine::ReduceV;
use crate::machine::reduce_v;
use crate::tree::EntryV;
use crate::tree::Identifier;
use crate::tree::MapEntry;
use crate::tree::MapNode;
use crate::tree::Node;
use crate::unfinished::Unfinished;
use crate::unfinished::UnfinishedMapEntry;
use crate::unfinished::stack_view;

verus! {

broadcast use {vstd::std_specs::vec::group_vec_axioms, vstd::seq::group_seq_axioms};

/// Folds the completed node `top` into the frame now at the top of `stack`.
///
/// With an empty stack the parse is finished: `top` must be the outermost
/// map, which is returned as `Ok(Some(..))`.  Otherwise `top` is appended to
/// the exposed list, or committed into the exposed map under its pending
/// key, returning `Ok(None)`.  `Err(())` reports a shape the grammar never
/// produces (an exposed atom, or an exposed map not ready for a value); the
/// stack is left unchanged in that case.
pub fn reduce_stack(stack: &mut Vec<Unfinished>, top: Node) -> (r: Result<Option<MapNode>, ()>)
    ensures
        reduce_v(stack_view(old(stack)@), top@) matches ReduceV::Push(stk2) ==> r == Ok::<
            Option<MapNode>,
            (),
        >(None) && stack_view(final(stack)@) == stk2,
        reduce_v(stack_view(old(stack)@), top@) matches ReduceV::Done(es) ==> (r matches Ok(o)
            && o matches Some(m) && m@ == es && final(stack)@ == old(stack)@),
        reduce_v(stack_view(old(stack)@), top@) is Fault ==> r == Err::<Option<MapNode>, ()>(())
            && final(stack)@ == old(stack)@,
{
    let ghost old_sv = stack_view(stack@);
    let ghost child = top@;
    if stack.len() == 0 {
        return match top {
            Node::MapNode(m) => {
                proof {
                    assert(m@ =~= reduce_v(old_sv, child)->Done_0);
                }
                Ok(Some(m))
            },
            _ => Err(()),
        };
    }
    let f = match stack.pop() {
        Some(f) => f,
        None => {
            return Err(());
        },
    };
    match f {
        Unfinished::AtomValue(v) => {
            stack.push(Unfinished::AtomValue(v));
            proof {
                assert(stack@ =~= old(stack)@);
            }
            Err(())
        },
        Unfinished::List(mut l) => {
            let ghost elems = Unfinished::List(l)@->List_0;
            l.elements.push(top);
            stack.push(Unfinished::List(l));
            proof {
                assert(Unfinished::List(l)@->List_0 =~= elems.push(child));
                assert(stack_view(stack@) =~= reduce_v(old_sv, child)->Push_0);
            }
            Ok(None)
        },
        Unfinished::MapNode(mut m) => {
            if m.pending_entry.has_equal {
                let ghost mf = Unfinished::MapNode(m)@->MapNode_0;
                match Identifier::new(m.pending_entry.key.clone()) {
                    Ok(id) => {
                        m.entries.push(MapEntry { key: id, value: top });
                        m.entry_key_offsets.push(
                            match m.pending_entry.key_start_byte_index {
                                Some(o) => o,
                                None => 0,
                            },
                        );
                        m.pending_entry = UnfinishedMapEntry::empty();
                        stack.push(Unfinished::MapNode(m));
                        proof {
                            assert(Unfinished::MapNode(m)@->MapNode_0.entries =~= mf.entries.push(
                                EntryV { key: mf.pending.key, value: child },
                            ));
                            assert(Unfinished::MapNode(m)@->MapNode_0.key_offsets
                                =~= mf.key_offsets.push(
                                crate::machine::pending_start_or_zero(mf.pending),
                            ));
                            assert(stack_view(stack@) =~= reduce_v(old_sv, child)->Push_0);
                        }
                        Ok(None)
                    },
                    Err(_) => {
                        stack.push(Unfinished::MapNode(m));
                        proof {
                            assert(stack@ =~= old(stack)@);
                        }
                        Err(())
                    },
                }
            } else {
                stack.push(Unfinished::MapNode(m));
                proof {
                    assert(stack@ =~= old(stack)@);
                }
                Err(())
            }
        },
    }
}

} // verus!
