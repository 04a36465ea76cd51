//! The fixed-point driver: a work-list iteration over the control-flow
//! graph that folds the transfer function over each block and joins the
//! resulting post-state into the successors' pre-states.

use crate::code::{Bytecode, FunctionContext, PartialVMError, StatusCode};
use crate::set::{at, live, BorrowSet};
use crate::state::{av_id, stack_wf, st_wf, AbstractState, AbstractValue};
use vstd::prelude::*;

verus! {

/// Whether a join left the target's pre-state as it was.
#[derive(Clone, Copy, Debug, PartialEq, Eq, Structural)]
pub enum JoinResult {
    Changed,
    Unchanged,
}

/// What the analysis knows of one block after the last visit.
#[derive(Debug)]
pub enum BlockPostcondition {
    /// Not yet analyzed, or invalidated by a grown pre-state.
    Unprocessed,
    /// Analyzed without error.
    Success,
    /// Analysis of the block stopped at this error.
    Error(PartialVMError),
}

/// The pre-state of a block, with what the last visit concluded.
#[derive(Debug)]
pub struct BlockInvariant {
    pub pre: AbstractState,
    pub post: BlockPostcondition,
}

proof fn lemma_stack_drop(stack: Seq<AbstractValue>, s: BorrowSet)
    requires
        stack_wf(stack, s),
        stack.len() > 0,
    ensures
        stack_wf(stack.drop_last(), s),
{
    assert forall|k: int|
        0 <= k < stack.drop_last().len() && (#[trigger] stack.drop_last()[k])
            is Reference implies live(s, av_id(stack.drop_last()[k])) && !at(
        s,
        av_id(stack.drop_last()[k]),
    ).pinned by {
        assert(stack.drop_last()[k] == stack[k]);
    }
    assert forall|k1: int, k2: int|
        0 <= k1 < k2 < stack.drop_last().len() && (#[trigger] stack.drop_last()[k1]) is Reference
            && (#[trigger] stack.drop_last()[k2]) is Reference implies av_id(
        stack.drop_last()[k1],
    ) != av_id(stack.drop_last()[k2]) by {
        assert(stack.drop_last()[k1] == stack[k1]);
        assert(stack.drop_last()[k2] == stack[k2]);
    }
}

proof fn lemma_stack_push(stack: Seq<AbstractValue>, s: BorrowSet, v: AbstractValue)
    requires
        stack_wf(stack, s),
        v is Reference ==> live(s, av_id(v)) && !at(s, av_id(v)).pinned && (forall|
            k: int,
        |
            0 <= k < stack.len() && (#[trigger] stack[k]) is Reference ==> av_id(stack[k])
                != av_id(v)),
    ensures
        stack_wf(stack.push(v), s),
{
    assert forall|k: int|
        0 <= k < stack.push(v).len() && (#[trigger] stack.push(v)[k]) is Reference implies live(
        s,
        av_id(stack.push(v)[k]),
    ) && !at(s, av_id(stack.push(v)[k])).pinned by {
        if k < stack.len() {
            assert(stack.push(v)[k] == stack[k]);
        } else {
            assert(stack.push(v)[k] == v);
        }
    }
    assert forall|k1: int, k2: int|
        0 <= k1 < k2 < stack.push(v).len() && (#[trigger] stack.push(v)[k1]) is Reference && (
        #[trigger] stack.push(v)[k2]) is Reference implies av_id(stack.push(v)[k1]) != av_id(
        stack.push(v)[k2],
    ) by {
        assert(stack.push(v)[k1] == stack[k1]);
        if k2 < stack.len() {
            assert(stack.push(v)[k2] == stack[k2]);
        } else {
            assert(stack.push(v)[k2] == v);
        }
    }
}

/// Every reference on the stack survives a step that only touched
/// references off the stack: each is still live, unpinned and unchanged.
proof fn lemma_stack_survives(
    stack: Seq<AbstractValue>,
    ob: BorrowSet,
    nb: BorrowSet,
    x1: int,
    x2: int,
)
    requires
        stack_wf(stack, ob),
        forall|j: int|
            #[trigger] live(ob, j) && j != x1 && j != x2 ==> live(nb, j) && at(nb, j)
                == at(ob, j),
        forall|k: int|
            0 <= k < stack.len() && (#[trigger] stack[k]) is Reference ==> av_id(stack[k]) != x1
                && av_id(stack[k]) != x2,
    ensures
        stack_wf(stack, nb),
{
    assert forall|k: int|
        0 <= k < stack.len() && (#[trigger] stack[k]) is Reference implies live(
        nb,
        av_id(stack[k]),
    ) && !at(nb, av_id(stack[k])).pinned by {
        assert(live(ob, av_id(stack[k])));
    }
}

/// Pop one operand, or report that the stack disagrees with the
/// instruction.
fn pop_operand(stack: &mut Vec<AbstractValue>, function: u16, offset: u16) -> (r: Result<
    AbstractValue,
    PartialVMError,
>)
    ensures
        r matches Ok(v) ==> old(stack)@.len() > 0 && v == old(stack)@.last() && final(stack)@
            == old(stack)@.drop_last(),
        r is Err ==> final(stack)@ == old(stack)@ && r == Err::<AbstractValue, PartialVMError>(
            PartialVMError {
                status: StatusCode::UnknownInvariantViolationError,
                function,
                offset,
            },
        ),
{
    match stack.pop() {
        Some(v) => Ok(v),
        None => Err(
            PartialVMError { status: StatusCode::UnknownInvariantViolationError, function, offset },
        ),
    }
}

/// Execute one instruction against the abstract state and operand stack.
/// Disagreements between the stack and the instruction — ruled out for
/// well-typed input by the earlier verifier passes — are reported as
/// invariant violations.
#[verifier::rlimit(100)]
#[verifier::spinoff_prover]
pub fn execute(
    state: &mut AbstractState,
    stack: &mut Vec<AbstractValue>,
    ctx: &FunctionContext,
    instr: &Bytecode,
    offset: u16,
) -> (r: Result<(), PartialVMError>)
    requires
        st_wf(*old(state)),
        stack_wf(old(stack)@, old(state).borrow_set),
    ensures
        st_wf(*final(state)),
        stack_wf(final(stack)@, final(state).borrow_set),
        final(state).locals@ == old(state).locals@,
        final(state).current_function == old(state).current_function,
        r matches Err(e) ==> e.function == old(state).current_function,
        r is Ok && (instr is CopyLoc || instr is MoveLoc || instr is BorrowLoc || instr
            is LdValue) ==> final(stack)@.len() == old(stack)@.len() + 1
            && final(stack)@.drop_last() == old(stack)@,
        r is Ok && (instr is StLoc || instr is Pop || instr is BrTrue || instr is BrFalse)
            ==> old(stack)@.len() > 0 && final(stack)@ == old(stack)@.drop_last(),
        r is Ok && (instr is FreezeRef || instr is ReadRef || instr is BorrowField || instr
            is BorrowGlobal || instr is MoveFrom) ==> old(stack)@.len() > 0
            && final(stack)@.len() == old(stack)@.len()
            && final(stack)@.drop_last() == old(stack)@.drop_last(),
        r is Ok && (instr is Eq || instr is Neq || instr is VecElemBorrow)
            ==> old(stack)@.len() >= 2 && final(stack)@.len() + 1 == old(stack)@.len()
            && final(stack)@.drop_last() == old(stack)@.drop_last().drop_last(),
        r is Ok && (instr is WriteRef || instr is VecMutOp) ==> old(stack)@.len() >= 2
            && final(stack)@ == old(stack)@.drop_last().drop_last(),
        r is Ok && (instr is Branch || instr is Nop) ==> final(stack)@ == old(stack)@,
        r is Ok ==> (*instr matches Bytecode::Call(info) ==> old(stack)@.len()
            >= info.num_args as int && final(stack)@.len() == old(stack)@.len()
            - info.num_args as int + info.returns@.len() && final(stack)@.subrange(
            0,
            old(stack)@.len() - info.num_args as int,
        ) == old(stack)@.subrange(0, old(stack)@.len() - info.num_args as int)),
        r is Ok && instr is Ret ==> old(stack)@.len() >= ctx.return_@.len() && final(stack)@
            == old(stack)@.subrange(0, old(stack)@.len() - ctx.return_@.len()),
{
    let cf = state.current_function;
    let ghost ob = state.borrow_set;
    let cur_len = state.borrow_set.next_id();
    match instr {
        Bytecode::CopyLoc(i) => {
            if (*i as usize) >= state.locals.len() {
                return Err(state.error(StatusCode::UnknownInvariantViolationError, offset));
            }
            let v = match state.copy_loc(offset, *i) {
                Ok(v) => v,
                Err(e) => {
                    return Err(e);
                },
            };
            proof {
                lemma_stack_survives(stack@, ob, state.borrow_set, -1, -1);
                if v is Reference {
                    assert(ob.refs@.len() == cur_len as int);
                    assert(av_id(v) == cur_len as int);
                    assert forall|k: int|
                        0 <= k < stack@.len() && (#[trigger] stack@[k]) is Reference implies
                    av_id(stack@[k]) != av_id(v) by {
                        assert(live(ob, av_id(stack@[k])));
                        assert(av_id(stack@[k]) < ob.refs@.len() as int);
                    }
                }
                lemma_stack_push(stack@, state.borrow_set, v);
            }
            stack.push(v);
            proof {
                assert(stack@.drop_last() =~= old(stack)@);
            }
            Ok(())
        },
        Bytecode::MoveLoc(i) => {
            if (*i as usize) >= state.locals.len() {
                return Err(state.error(StatusCode::UnknownInvariantViolationError, offset));
            }
            let ghost src = if state.locals@[*i as int] is Some {
                crate::state::slot_id(state.locals@[*i as int])
            } else {
                -1
            };
            let v = match state.move_loc(offset, *i) {
                Ok(v) => v,
                Err(e) => {
                    return Err(e);
                },
            };
            proof {
                assert forall|k: int|
                    0 <= k < stack@.len() && (#[trigger] stack@[k]) is Reference implies av_id(
                    stack@[k],
                ) != src by {
                    if old(state).locals@[*i as int] is Some {
                        assert(at(ob, src).pinned);
                        assert(!at(ob, av_id(stack@[k])).pinned);
                    } else {
                        assert(av_id(stack@[k]) >= 0);
                    }
                }
                lemma_stack_survives(stack@, ob, state.borrow_set, src, -1);
                if v is Reference {
                    assert(ob.refs@.len() == cur_len as int);
                    assert(av_id(v) == cur_len as int);
                    assert forall|k: int|
                        0 <= k < stack@.len() && (#[trigger] stack@[k]) is Reference implies
                    av_id(stack@[k]) != av_id(v) by {
                        assert(live(ob, av_id(stack@[k])));
                        assert(av_id(stack@[k]) < ob.refs@.len() as int);
                    }
                }
                lemma_stack_push(stack@, state.borrow_set, v);
            }
            stack.push(v);
            proof {
                assert(stack@.drop_last() =~= old(stack)@);
            }
            Ok(())
        },
        Bytecode::StLoc(i) => execute_st_loc(state, stack, *i, offset),
        Bytecode::FreezeRef => {
            let v = match pop_operand(stack, cf, offset) {
                Ok(v) => v,
                Err(e) => {
                    return Err(e);
                },
            };
            proof {
                lemma_stack_drop(old(stack)@, ob);
            }
            let id = match v {
                AbstractValue::Reference(id) => id,
                AbstractValue::NonReference => {
                    return Err(state.error(StatusCode::UnknownInvariantViolationError, offset));
                },
            };
            proof {
                assert(old(stack)@.last() == v);
                assert(live(ob, id.0 as int));
            }
            let nv = match state.freeze_ref(offset, id) {
                Ok(nv) => nv,
                Err(e) => {
                    return Err(e);
                },
            };
            proof {
                assert forall|k: int|
                    0 <= k < stack@.len() && (#[trigger] stack@[k]) is Reference implies av_id(
                    stack@[k],
                ) != id.0 as int by {
                    assert(old(stack)@[k] == stack@[k]);
                }
                lemma_stack_survives(stack@, ob, state.borrow_set, id.0 as int, -1);
                assert(ob.refs@.len() == cur_len as int);
                assert(av_id(nv) == cur_len as int);
                assert forall|k: int|
                    0 <= k < stack@.len() && (#[trigger] stack@[k]) is Reference implies av_id(
                    stack@[k],
                ) != av_id(nv) by {
                    assert(live(ob, av_id(stack@[k])));
                    assert(av_id(stack@[k]) < ob.refs@.len() as int);
                }
                lemma_stack_push(stack@, state.borrow_set, nv);
            }
            stack.push(nv);
            proof {
                assert(stack@.drop_last() =~= old(stack)@.drop_last());
            }
            Ok(())
        },
        Bytecode::ReadRef => {
            let v = match pop_operand(stack, cf, offset) {
                Ok(v) => v,
                Err(e) => {
                    return Err(e);
                },
            };
            proof {
                lemma_stack_drop(old(stack)@, ob);
            }
            let id = match v {
                AbstractValue::Reference(id) => id,
                AbstractValue::NonReference => {
                    return Err(state.error(StatusCode::UnknownInvariantViolationError, offset));
                },
            };
            proof {
                assert(old(stack)@.last() == v);
                assert(live(ob, id.0 as int));
            }
            let nv = match state.read_ref(offset, id) {
                Ok(nv) => nv,
                Err(e) => {
                    return Err(e);
                },
            };
            proof {
                assert forall|k: int|
                    0 <= k < stack@.len() && (#[trigger] stack@[k]) is Reference implies av_id(
                    stack@[k],
                ) != id.0 as int by {
                    assert(old(stack)@[k] == stack@[k]);
                }
                lemma_stack_survives(stack@, ob, state.borrow_set, id.0 as int, -1);
                lemma_stack_push(stack@, state.borrow_set, nv);
            }
            stack.push(nv);
            proof {
                assert(stack@.drop_last() =~= old(stack)@.drop_last());
            }
            Ok(())
        },
        Bytecode::WriteRef => execute_write_ref(state, stack, offset),
        Bytecode::Eq => execute_comparison(state, stack, offset),
        Bytecode::Neq => execute_comparison(state, stack, offset),
        Bytecode::BorrowLoc(mut_, i) => {
            let nv = match state.borrow_loc(offset, *mut_, *i) {
                Ok(nv) => nv,
                Err(e) => {
                    return Err(e);
                },
            };
            proof {
                lemma_stack_survives(stack@, ob, state.borrow_set, -1, -1);
                assert(ob.refs@.len() == cur_len as int);
                assert(av_id(nv) == cur_len as int);
                assert forall|k: int|
                    0 <= k < stack@.len() && (#[trigger] stack@[k]) is Reference implies av_id(
                    stack@[k],
                ) != av_id(nv) by {
                    assert(live(ob, av_id(stack@[k])));
                    assert(av_id(stack@[k]) < ob.refs@.len() as int);
                }
                lemma_stack_push(stack@, state.borrow_set, nv);
            }
            stack.push(nv);
            proof {
                assert(stack@.drop_last() =~= old(stack)@);
            }
            Ok(())
        },
        Bytecode::BorrowField(mut_, f) => {
            let v = match pop_operand(stack, cf, offset) {
                Ok(v) => v,
                Err(e) => {
                    return Err(e);
                },
            };
            proof {
                lemma_stack_drop(old(stack)@, ob);
            }
            let id = match v {
                AbstractValue::Reference(id) => id,
                AbstractValue::NonReference => {
                    return Err(state.error(StatusCode::UnknownInvariantViolationError, offset));
                },
            };
            proof {
                assert(old(stack)@.last() == v);
                assert(live(ob, id.0 as int));
            }
            let nv = match state.borrow_field(offset, *mut_, id, *f) {
                Ok(nv) => nv,
                Err(e) => {
                    return Err(e);
                },
            };
            proof {
                assert forall|k: int|
                    0 <= k < stack@.len() && (#[trigger] stack@[k]) is Reference implies av_id(
                    stack@[k],
                ) != id.0 as int by {
                    assert(old(stack)@[k] == stack@[k]);
                }
                lemma_stack_survives(stack@, ob, state.borrow_set, id.0 as int, -1);
                assert(ob.refs@.len() == cur_len as int);
                assert(av_id(nv) == cur_len as int);
                assert forall|k: int|
                    0 <= k < stack@.len() && (#[trigger] stack@[k]) is Reference implies av_id(
                    stack@[k],
                ) != av_id(nv) by {
                    assert(live(ob, av_id(stack@[k])));
                    assert(av_id(stack@[k]) < ob.refs@.len() as int);
                }
                lemma_stack_push(stack@, state.borrow_set, nv);
            }
            stack.push(nv);
            proof {
                assert(stack@.drop_last() =~= old(stack)@.drop_last());
            }
            Ok(())
        },
        Bytecode::VecElemBorrow(mut_) => execute_vec_elem_borrow(state, stack, *mut_, offset),
        Bytecode::BorrowGlobal(mut_, res) => {
            let addr = match pop_operand(stack, cf, offset) {
                Ok(v) => v,
                Err(e) => {
                    return Err(e);
                },
            };
            proof {
                lemma_stack_drop(old(stack)@, ob);
            }
            match addr {
                AbstractValue::NonReference => {},
                AbstractValue::Reference(_) => {
                    return Err(state.error(StatusCode::UnknownInvariantViolationError, offset));
                },
            }
            let nv = match state.borrow_global(offset, *mut_, *res) {
                Ok(nv) => nv,
                Err(e) => {
                    return Err(e);
                },
            };
            proof {
                lemma_stack_survives(stack@, ob, state.borrow_set, -1, -1);
                assert(ob.refs@.len() == cur_len as int);
                assert(av_id(nv) == cur_len as int);
                assert forall|k: int|
                    0 <= k < stack@.len() && (#[trigger] stack@[k]) is Reference implies av_id(
                    stack@[k],
                ) != av_id(nv) by {
                    assert(live(ob, av_id(stack@[k])));
                    assert(av_id(stack@[k]) < ob.refs@.len() as int);
                }
                lemma_stack_push(stack@, state.borrow_set, nv);
            }
            stack.push(nv);
            proof {
                assert(stack@.drop_last() =~= old(stack)@.drop_last());
            }
            Ok(())
        },
        Bytecode::MoveFrom(res) => {
            let addr = match pop_operand(stack, cf, offset) {
                Ok(v) => v,
                Err(e) => {
                    return Err(e);
                },
            };
            proof {
                lemma_stack_drop(old(stack)@, ob);
            }
            match addr {
                AbstractValue::NonReference => {},
                AbstractValue::Reference(_) => {
                    return Err(state.error(StatusCode::UnknownInvariantViolationError, offset));
                },
            }
            let nv = match state.move_from(offset, *res) {
                Ok(nv) => nv,
                Err(e) => {
                    return Err(e);
                },
            };
            proof {
                lemma_stack_push(stack@, state.borrow_set, nv);
            }
            stack.push(nv);
            proof {
                assert(stack@.drop_last() =~= old(stack)@.drop_last());
            }
            Ok(())
        },
        Bytecode::VecMutOp => execute_vec_mut_op(state, stack, offset),
        Bytecode::Call(info) => execute_call(state, stack, info, offset),
        Bytecode::LdValue => {
            proof {
                lemma_stack_push(stack@, state.borrow_set, AbstractValue::NonReference);
            }
            stack.push(AbstractValue::NonReference);
            proof {
                assert(stack@.drop_last() =~= old(stack)@);
            }
            Ok(())
        },
        Bytecode::Pop => {
            let v = match pop_operand(stack, cf, offset) {
                Ok(v) => v,
                Err(e) => {
                    return Err(e);
                },
            };
            proof {
                lemma_stack_drop(old(stack)@, ob);
                if v is Reference {
                    assert(old(stack)@.last() == v);
                    assert(live(ob, av_id(v)));
                }
            }
            state.release_value(v);
            proof {
                if v is Reference {
                    assert forall|k: int|
                        0 <= k < stack@.len() && (#[trigger] stack@[k]) is Reference implies
                    av_id(stack@[k]) != av_id(v) by {
                        assert(old(stack)@[k] == stack@[k]);
                    }
                    lemma_stack_survives(stack@, ob, state.borrow_set, av_id(v), -1);
                }
            }
            Ok(())
        },
        Bytecode::Branch(_) => Ok(()),
        Bytecode::BrTrue(_) => {
            let v = match pop_operand(stack, cf, offset) {
                Ok(v) => v,
                Err(e) => {
                    return Err(e);
                },
            };
            proof {
                lemma_stack_drop(old(stack)@, ob);
            }
            match v {
                AbstractValue::NonReference => Ok(()),
                AbstractValue::Reference(_) => Err(
                    state.error(StatusCode::UnknownInvariantViolationError, offset),
                ),
            }
        },
        Bytecode::BrFalse(_) => {
            let v = match pop_operand(stack, cf, offset) {
                Ok(v) => v,
                Err(e) => {
                    return Err(e);
                },
            };
            proof {
                lemma_stack_drop(old(stack)@, ob);
            }
            match v {
                AbstractValue::NonReference => Ok(()),
                AbstractValue::Reference(_) => Err(
                    state.error(StatusCode::UnknownInvariantViolationError, offset),
                ),
            }
        },
        Bytecode::Nop => Ok(()),
        Bytecode::Ret => execute_ret(state, stack, ctx, offset),
    }
}


fn execute_st_loc(
    state: &mut AbstractState,
    stack: &mut Vec<AbstractValue>,
    i: u16,
    offset: u16,
) -> (r: Result<(), PartialVMError>)
    requires
        st_wf(*old(state)),
        stack_wf(old(stack)@, old(state).borrow_set),
    ensures
        st_wf(*final(state)),
        stack_wf(final(stack)@, final(state).borrow_set),
        final(state).locals@ == old(state).locals@,
        final(state).current_function == old(state).current_function,
        r matches Err(e) ==> e.function == old(state).current_function,
        r is Ok ==> old(stack)@.len() > 0 && final(stack)@ == old(stack)@.drop_last(),
{
    let cf = state.current_function;
    let ghost ob = state.borrow_set;
    let cur_len = state.borrow_set.next_id();

            let v = match pop_operand(stack, cf, offset) {
                Ok(v) => v,
                Err(e) => {
                    return Err(e);
                },
            };
            proof {
                lemma_stack_drop(old(stack)@, ob);
            }
            if (i as usize) >= state.locals.len() {
                return Err(state.error(StatusCode::UnknownInvariantViolationError, offset));
            }
            let ghost pin = if state.locals@[i as int] is Some {
                crate::state::slot_id(state.locals@[i as int])
            } else {
                -1
            };
            let ghost x2 = if v is Reference {
                av_id(v)
            } else {
                -1
            };
            match state.st_loc(offset, i, v) {
                Ok(_) => {},
                Err(e) => {
                    return Err(e);
                },
            }
            proof {
                assert forall|k: int|
                    0 <= k < stack@.len() && (#[trigger] stack@[k]) is Reference implies av_id(
                    stack@[k],
                ) != x2 by {
                    if v is Reference {
                        assert(old(stack)@[k] == stack@[k]);
                        assert(old(stack)@.last() == v);
                    } else {
                        assert(av_id(stack@[k]) >= 0);
                    }
                }
                assert forall|k: int|
                    0 <= k < stack@.len() && (#[trigger] stack@[k]) is Reference implies av_id(
                    stack@[k],
                ) != pin by {
                    if old(state).locals@[i as int] is Some {
                        assert(at(ob, pin).pinned);
                        assert(!at(ob, av_id(stack@[k])).pinned);
                    } else {
                        assert(av_id(stack@[k]) >= 0);
                    }
                }
                lemma_stack_survives(stack@, ob, state.borrow_set, pin, x2);
            }
            Ok(())
        
}

fn execute_write_ref(
    state: &mut AbstractState,
    stack: &mut Vec<AbstractValue>,
    offset: u16,
) -> (r: Result<(), PartialVMError>)
    requires
        st_wf(*old(state)),
        stack_wf(old(stack)@, old(state).borrow_set),
    ensures
        st_wf(*final(state)),
        stack_wf(final(stack)@, final(state).borrow_set),
        final(state).locals@ == old(state).locals@,
        final(state).current_function == old(state).current_function,
        r matches Err(e) ==> e.function == old(state).current_function,
        r is Ok ==> old(stack)@.len() >= 2 && final(stack)@ == old(stack)@.drop_last().drop_last(),
{
    let cf = state.current_function;
    let ghost ob = state.borrow_set;
    let cur_len = state.borrow_set.next_id();

            let rv = match pop_operand(stack, cf, offset) {
                Ok(v) => v,
                Err(e) => {
                    return Err(e);
                },
            };
            proof {
                lemma_stack_drop(old(stack)@, ob);
            }
            let ghost stack1 = stack@;
            let vv = match pop_operand(stack, cf, offset) {
                Ok(v) => v,
                Err(e) => {
                    return Err(e);
                },
            };
            proof {
                lemma_stack_drop(stack1, ob);
            }
            let id = match rv {
                AbstractValue::Reference(id) => id,
                AbstractValue::NonReference => {
                    return Err(state.error(StatusCode::UnknownInvariantViolationError, offset));
                },
            };
            match vv {
                AbstractValue::NonReference => {},
                AbstractValue::Reference(_) => {
                    return Err(state.error(StatusCode::UnknownInvariantViolationError, offset));
                },
            }
            proof {
                assert(old(stack)@.last() == rv);
                assert(live(ob, id.0 as int));
            }
            if !state.borrow_set.is_mutable(id) {
                return Err(state.error(StatusCode::UnknownInvariantViolationError, offset));
            }
            match state.write_ref(offset, id) {
                Ok(_) => {},
                Err(e) => {
                    return Err(e);
                },
            }
            proof {
                assert forall|k: int|
                    0 <= k < stack@.len() && (#[trigger] stack@[k]) is Reference implies av_id(
                    stack@[k],
                ) != id.0 as int by {
                    assert(stack1[k] == stack@[k]);
                    assert(old(stack)@[k] == stack@[k]);
                }
                lemma_stack_survives(stack@, ob, state.borrow_set, id.0 as int, -1);
            }
            Ok(())
        
}

fn execute_vec_elem_borrow(
    state: &mut AbstractState,
    stack: &mut Vec<AbstractValue>,
    mut_: bool,
    offset: u16,
) -> (r: Result<(), PartialVMError>)
    requires
        st_wf(*old(state)),
        stack_wf(old(stack)@, old(state).borrow_set),
    ensures
        st_wf(*final(state)),
        stack_wf(final(stack)@, final(state).borrow_set),
        final(state).locals@ == old(state).locals@,
        final(state).current_function == old(state).current_function,
        r matches Err(e) ==> e.function == old(state).current_function,
        r is Ok ==> old(stack)@.len() >= 2 && final(stack)@.len() + 1 == old(stack)@.len()
            && final(stack)@.drop_last() == old(stack)@.drop_last().drop_last(),
{
    let cf = state.current_function;
    let ghost ob = state.borrow_set;
    let cur_len = state.borrow_set.next_id();

            let idx = match pop_operand(stack, cf, offset) {
                Ok(v) => v,
                Err(e) => {
                    return Err(e);
                },
            };
            proof {
                lemma_stack_drop(old(stack)@, ob);
            }
            match idx {
                AbstractValue::NonReference => {},
                AbstractValue::Reference(_) => {
                    return Err(state.error(StatusCode::UnknownInvariantViolationError, offset));
                },
            }
            let ghost stack1 = stack@;
            let v = match pop_operand(stack, cf, offset) {
                Ok(v) => v,
                Err(e) => {
                    return Err(e);
                },
            };
            proof {
                lemma_stack_drop(stack1, ob);
            }
            let id = match v {
                AbstractValue::Reference(id) => id,
                AbstractValue::NonReference => {
                    return Err(state.error(StatusCode::UnknownInvariantViolationError, offset));
                },
            };
            proof {
                assert(stack1.last() == v);
                assert(live(ob, id.0 as int));
            }
            let nv = match state.vector_element_borrow(offset, mut_, id) {
                Ok(nv) => nv,
                Err(e) => {
                    return Err(e);
                },
            };
            proof {
                assert forall|k: int|
                    0 <= k < stack@.len() && (#[trigger] stack@[k]) is Reference implies av_id(
                    stack@[k],
                ) != id.0 as int by {
                    assert(stack1[k] == stack@[k]);
                }
                lemma_stack_survives(stack@, ob, state.borrow_set, id.0 as int, -1);
                assert(ob.refs@.len() == cur_len as int);
                assert(av_id(nv) == cur_len as int);
                assert forall|k: int|
                    0 <= k < stack@.len() && (#[trigger] stack@[k]) is Reference implies av_id(
                    stack@[k],
                ) != av_id(nv) by {
                    assert(live(ob, av_id(stack@[k])));
                    assert(av_id(stack@[k]) < ob.refs@.len() as int);
                }
                lemma_stack_push(stack@, state.borrow_set, nv);
            }
            stack.push(nv);
            Ok(())
        
}

fn execute_vec_mut_op(
    state: &mut AbstractState,
    stack: &mut Vec<AbstractValue>,
    offset: u16,
) -> (r: Result<(), PartialVMError>)
    requires
        st_wf(*old(state)),
        stack_wf(old(stack)@, old(state).borrow_set),
    ensures
        st_wf(*final(state)),
        stack_wf(final(stack)@, final(state).borrow_set),
        final(state).locals@ == old(state).locals@,
        final(state).current_function == old(state).current_function,
        r matches Err(e) ==> e.function == old(state).current_function,
        r is Ok ==> old(stack)@.len() >= 2 && final(stack)@ == old(stack)@.drop_last().drop_last(),
{
    let cf = state.current_function;
    let ghost ob = state.borrow_set;
    let cur_len = state.borrow_set.next_id();

            let arg = match pop_operand(stack, cf, offset) {
                Ok(v) => v,
                Err(e) => {
                    return Err(e);
                },
            };
            proof {
                lemma_stack_drop(old(stack)@, ob);
            }
            match arg {
                AbstractValue::NonReference => {},
                AbstractValue::Reference(_) => {
                    return Err(state.error(StatusCode::UnknownInvariantViolationError, offset));
                },
            }
            let ghost stack1 = stack@;
            let v = match pop_operand(stack, cf, offset) {
                Ok(v) => v,
                Err(e) => {
                    return Err(e);
                },
            };
            proof {
                lemma_stack_drop(stack1, ob);
            }
            let id = match v {
                AbstractValue::Reference(id) => id,
                AbstractValue::NonReference => {
                    return Err(state.error(StatusCode::UnknownInvariantViolationError, offset));
                },
            };
            proof {
                assert(stack1.last() == v);
                assert(live(ob, id.0 as int));
            }
            if !state.borrow_set.is_mutable(id) {
                return Err(state.error(StatusCode::UnknownInvariantViolationError, offset));
            }
            match state.vector_mut_op(offset, id) {
                Ok(_) => {},
                Err(e) => {
                    return Err(e);
                },
            }
            proof {
                assert forall|k: int|
                    0 <= k < stack@.len() && (#[trigger] stack@[k]) is Reference implies av_id(
                    stack@[k],
                ) != id.0 as int by {
                    assert(stack1[k] == stack@[k]);
                }
                lemma_stack_survives(stack@, ob, state.borrow_set, id.0 as int, -1);
            }
            Ok(())
        
}

/// Compare two operands of the same kind, releasing reference operands.
fn execute_comparison(
    state: &mut AbstractState,
    stack: &mut Vec<AbstractValue>,
    offset: u16,
) -> (r: Result<(), PartialVMError>)
    requires
        st_wf(*old(state)),
        stack_wf(old(stack)@, old(state).borrow_set),
    ensures
        st_wf(*final(state)),
        stack_wf(final(stack)@, final(state).borrow_set),
        final(state).locals@ == old(state).locals@,
        final(state).current_function == old(state).current_function,
        r matches Err(e) ==> e.function == old(state).current_function,
        r is Ok ==> old(stack)@.len() >= 2 && final(stack)@.len() + 1 == old(stack)@.len()
            && final(stack)@.drop_last() == old(stack)@.drop_last().drop_last(),
{
    let cf = state.current_function;
    let ghost ob = state.borrow_set;
    let v1 = match pop_operand(stack, cf, offset) {
        Ok(v) => v,
        Err(e) => {
            return Err(e);
        },
    };
    proof {
        lemma_stack_drop(old(stack)@, ob);
    }
    let ghost stack1 = stack@;
    let v2 = match pop_operand(stack, cf, offset) {
        Ok(v) => v,
        Err(e) => {
            return Err(e);
        },
    };
    proof {
        lemma_stack_drop(stack1, ob);
    }
    let r1 = v1.is_reference();
    let r2 = v2.is_reference();
    if r1 != r2 {
        return Err(state.error(StatusCode::UnknownInvariantViolationError, offset));
    }
    proof {
        if v1 is Reference {
            assert(old(stack)@.last() == v1);
            assert(live(ob, av_id(v1)));
            assert(stack1.last() == v2);
            assert(live(ob, av_id(v2)));
        }
    }
    let nv = match state.comparison(offset, v1, v2) {
        Ok(nv) => nv,
        Err(e) => {
            return Err(e);
        },
    };
    proof {
        if v1 is Reference {
            assert forall|k: int|
                0 <= k < stack@.len() && (#[trigger] stack@[k]) is Reference implies av_id(
                stack@[k],
            ) != av_id(v1) && av_id(stack@[k]) != av_id(v2) by {
                assert(stack1[k] == stack@[k]);
                assert(old(stack)@[k] == stack@[k]);
            }
            lemma_stack_survives(stack@, ob, state.borrow_set, av_id(v1), av_id(v2));
        }
        lemma_stack_push(stack@, state.borrow_set, nv);
    }
    stack.push(nv);
    Ok(())
}

/// Pop the call's operands, transfer them to the callee, and push its
/// results.
fn execute_call(
    state: &mut AbstractState,
    stack: &mut Vec<AbstractValue>,
    info: &crate::code::CallInfo,
    offset: u16,
) -> (r: Result<(), PartialVMError>)
    requires
        st_wf(*old(state)),
        stack_wf(old(stack)@, old(state).borrow_set),
    ensures
        st_wf(*final(state)),
        stack_wf(final(stack)@, final(state).borrow_set),
        final(state).locals@ == old(state).locals@,
        final(state).current_function == old(state).current_function,
        r matches Err(e) ==> e.function == old(state).current_function,
        r is Ok ==> old(stack)@.len() >= info.num_args as int && final(stack)@.len() == old(
            stack,
        )@.len() - info.num_args as int + info.returns@.len() && final(stack)@.subrange(
            0,
            old(stack)@.len() - info.num_args as int,
        ) == old(stack)@.subrange(0, old(stack)@.len() - info.num_args as int),
{
    let cf = state.current_function;
    let ghost ob = state.borrow_set;
    let na = info.num_args as usize;
    let mut args: Vec<AbstractValue> = Vec::new();
    let mut k: usize = 0;
    proof {
        assert(stack@ =~= old(stack)@.subrange(0, old(stack)@.len() - 0));
    }
    while k < na
        invariant
            0 <= k <= na,
            k <= old(stack)@.len(),
            stack@ == old(stack)@.subrange(0, old(stack)@.len() - k as int),
            *state == *old(state),
            st_wf(*state),
            cf == old(state).current_function,
            ob == state.borrow_set,
            stack_wf(stack@, state.borrow_set),
            forall|w: int|
                0 <= w < args@.len() && (#[trigger] args@[w]) is Reference ==> live(
                    state.borrow_set,
                    av_id(args@[w]),
                ) && !at(state.borrow_set, av_id(args@[w])).pinned,
            forall|w1: int, w2: int|
                0 <= w1 < w2 < args@.len() && (#[trigger] args@[w1]) is Reference && (
                #[trigger] args@[w2]) is Reference ==> av_id(args@[w1]) != av_id(args@[w2]),
            forall|w: int, k2: int|
                0 <= w < args@.len() && 0 <= k2 < stack@.len() && (#[trigger] args@[w])
                    is Reference && (#[trigger] stack@[k2]) is Reference ==> av_id(args@[w])
                    != av_id(stack@[k2]),
        decreases na - k,
    {
        let ghost pre = stack@;
        let ghost pre_args = args@;
        let v = match pop_operand(stack, cf, offset) {
            Ok(v) => v,
            Err(e) => {
                return Err(e);
            },
        };
        proof {
            lemma_stack_drop(pre, ob);
            assert(stack@ =~= old(stack)@.subrange(0, old(stack)@.len() - (k + 1) as int));
        }
        args.push(v);
        proof {
            assert forall|w: int|
                0 <= w < args@.len() && (#[trigger] args@[w]) is Reference implies live(
                state.borrow_set,
                av_id(args@[w]),
            ) && !at(state.borrow_set, av_id(args@[w])).pinned by {
                if w < pre_args.len() {
                    assert(args@[w] == pre_args[w]);
                } else {
                    assert(args@[w] == v);
                    if v is Reference {
                        assert(pre.last() == v);
                        assert(live(ob, av_id(v)));
                    }
                }
            }
            assert forall|w1: int, w2: int|
                0 <= w1 < w2 < args@.len() && (#[trigger] args@[w1]) is Reference && (
                #[trigger] args@[w2]) is Reference implies av_id(args@[w1]) != av_id(
                args@[w2],
            ) by {
                assert(args@[w1] == pre_args[w1]);
                if w2 < pre_args.len() {
                    assert(args@[w2] == pre_args[w2]);
                } else {
                    assert(args@[w2] == v);
                    if v is Reference && pre_args[w1] is Reference {
                        assert(pre.last() == v);
                        assert(pre[pre.len() - 1] == v);
                    }
                }
            }
            assert forall|w: int, k2: int|
                0 <= w < args@.len() && 0 <= k2 < stack@.len() && (#[trigger] args@[w])
                    is Reference && (#[trigger] stack@[k2]) is Reference implies av_id(args@[w])
                != av_id(stack@[k2]) by {
                assert(stack@[k2] == pre[k2]);
                if w < pre_args.len() {
                    assert(args@[w] == pre_args[w]);
                } else {
                    assert(args@[w] == v);
                    if v is Reference {
                        assert(pre[pre.len() - 1] == v);
                    }
                }
            }
        }
        k += 1;
    }
    let ghost pre_call_stack = stack@;
    let rv = match state.call(offset, &args, &info.acquires, &info.returns) {
        Ok(rv) => rv,
        Err(e) => {
            return Err(e);
        },
    };
    let ghost old_len = ob.refs@.len() as int;
    proof {
        assert forall|k2: int|
            0 <= k2 < stack@.len() && (#[trigger] stack@[k2]) is Reference implies live(
            state.borrow_set,
            av_id(stack@[k2]),
        ) && !at(state.borrow_set, av_id(stack@[k2])).pinned && av_id(stack@[k2]) < old_len by {
            assert(live(ob, av_id(stack@[k2])));
            assert(!crate::state::is_arg_ref(args@, av_id(stack@[k2]))) by {
                if crate::state::is_arg_ref(args@, av_id(stack@[k2])) {
                    let w = choose|w: int|
                        0 <= w < args@.len() && (#[trigger] args@[w]) is Reference && av_id(
                            args@[w],
                        ) == av_id(stack@[k2]);
                    assert(false);
                }
            }
        }
    }
    let nrv = rv.len();
    let mut kk: usize = 0;
    while kk < nrv
        invariant
            0 <= kk <= nrv,
            nrv == rv@.len(),
            stack@.len() == pre_call_stack.len() + kk,
            stack@.subrange(0, pre_call_stack.len() as int) == pre_call_stack,
            st_wf(*state),
            state.locals@ == old(state).locals@,
            state.current_function == old(state).current_function,
            stack_wf(stack@, state.borrow_set),
            forall|k2: int|
                kk <= k2 < nrv && (#[trigger] rv@[k2]) is Reference ==> live(
                    state.borrow_set,
                    av_id(rv@[k2]),
                ) && !at(state.borrow_set, av_id(rv@[k2])).pinned,
            forall|k1: int, k2: int|
                0 <= k1 < k2 < nrv && (#[trigger] rv@[k1]) is Reference && (#[trigger] rv@[k2])
                    is Reference ==> av_id(rv@[k1]) != av_id(rv@[k2]),
            forall|k1: int, k2: int|
                0 <= k1 < stack@.len() && kk <= k2 < nrv && (#[trigger] stack@[k1]) is Reference
                    && (#[trigger] rv@[k2]) is Reference ==> av_id(stack@[k1]) != av_id(rv@[k2]),
        decreases nrv - kk,
    {
        let ghost pre = stack@;
        let v = rv[kk];
        proof {
            lemma_stack_push(pre, state.borrow_set, v);
        }
        stack.push(v);
        proof {
            assert(stack@.subrange(0, pre_call_stack.len() as int) =~= pre_call_stack);
            assert forall|k1: int, k2: int|
                0 <= k1 < stack@.len() && kk + 1 <= k2 < nrv && (#[trigger] stack@[k1])
                    is Reference && (#[trigger] rv@[k2]) is Reference implies av_id(stack@[k1])
                != av_id(rv@[k2]) by {
                if k1 < pre.len() {
                    assert(stack@[k1] == pre[k1]);
                } else {
                    assert(stack@[k1] == v);
                }
            }
        }
        kk += 1;
    }
    proof {
        assert(pre_call_stack =~= old(stack)@.subrange(
            0,
            old(stack)@.len() - info.num_args as int,
        ));
        assert(stack@.subrange(0, old(stack)@.len() - info.num_args as int) =~= old(
            stack,
        )@.subrange(0, old(stack)@.len() - info.num_args as int));
    }
    Ok(())
}

/// Pop the declared return values and validate leaving the function.
fn execute_ret(
    state: &mut AbstractState,
    stack: &mut Vec<AbstractValue>,
    ctx: &FunctionContext,
    offset: u16,
) -> (r: Result<(), PartialVMError>)
    requires
        st_wf(*old(state)),
        stack_wf(old(stack)@, old(state).borrow_set),
    ensures
        st_wf(*final(state)),
        stack_wf(final(stack)@, final(state).borrow_set),
        final(state).locals@ == old(state).locals@,
        final(state).current_function == old(state).current_function,
        r matches Err(e) ==> e.function == old(state).current_function,
        r is Ok ==> old(stack)@.len() >= ctx.return_@.len() && final(stack)@ == old(
            stack,
        )@.subrange(0, old(stack)@.len() - ctx.return_@.len()),
{
    let cf = state.current_function;
    let ghost ob = state.borrow_set;
    let nret = ctx.return_.len();
    proof {
        assert(stack@ =~= old(stack)@.subrange(0, old(stack)@.len() - 0));
    }
    let mut vals: Vec<AbstractValue> = Vec::new();
    let mut k: usize = 0;
    while k < nret
        invariant
            0 <= k <= nret,
            k <= old(stack)@.len(),
            stack@ == old(stack)@.subrange(0, old(stack)@.len() - k as int),
            *state == *old(state),
            st_wf(*state),
            cf == old(state).current_function,
            ob == state.borrow_set,
            stack_wf(stack@, state.borrow_set),
            forall|w: int|
                0 <= w < vals@.len() && (#[trigger] vals@[w]) is Reference ==> live(
                    state.borrow_set,
                    av_id(vals@[w]),
                ) && !at(state.borrow_set, av_id(vals@[w])).pinned,
        decreases nret - k,
    {
        let ghost pre = stack@;
        let ghost pre_vals = vals@;
        let v = match pop_operand(stack, cf, offset) {
            Ok(v) => v,
            Err(e) => {
                return Err(e);
            },
        };
        proof {
            assert(stack@ =~= old(stack)@.subrange(0, old(stack)@.len() - (k + 1) as int));
        }
        proof {
            lemma_stack_drop(pre, ob);
        }
        vals.push(v);
        proof {
            assert forall|w: int|
                0 <= w < vals@.len() && (#[trigger] vals@[w]) is Reference implies live(
                state.borrow_set,
                av_id(vals@[w]),
            ) && !at(state.borrow_set, av_id(vals@[w])).pinned by {
                if w < pre_vals.len() {
                    assert(vals@[w] == pre_vals[w]);
                } else {
                    assert(vals@[w] == v);
                    if v is Reference {
                        assert(pre.last() == v);
                        assert(live(ob, av_id(v)));
                    }
                }
            }
        }
        k += 1;
    }
    match state.ret(offset, &vals) {
        Ok(_) => {},
        Err(e) => {
            proof {
                assert forall|k2: int|
                    0 <= k2 < stack@.len() && (#[trigger] stack@[k2]) is Reference implies live(
                    state.borrow_set,
                    av_id(stack@[k2]),
                ) && !at(state.borrow_set, av_id(stack@[k2])).pinned by {
                    let av = av_id(stack@[k2]);
                    assert(live(ob, av));
                    if crate::state::is_slot_ref(old(state).locals@, av) {
                        let w = choose|w: int|
                            0 <= w < old(state).locals@.len() && (#[trigger] old(
                                state,
                            ).locals@[w]) is Some && crate::state::slot_id(old(state).locals@[w])
                                == av;
                        assert(at(ob, av).pinned);
                        assert(false);
                    }
                    assert(at(state.borrow_set, av) == at(ob, av));
                }
            }
            return Err(e);
        },
    }
    proof {
        assert forall|k2: int|
            0 <= k2 < stack@.len() && (#[trigger] stack@[k2]) is Reference implies live(
            state.borrow_set,
            av_id(stack@[k2]),
        ) && !at(state.borrow_set, av_id(stack@[k2])).pinned by {
            let av = av_id(stack@[k2]);
            assert(live(ob, av));
            if crate::state::is_slot_ref(old(state).locals@, av) {
                let w = choose|w: int|
                    0 <= w < old(state).locals@.len() && (#[trigger] old(state).locals@[w])
                        is Some && crate::state::slot_id(old(state).locals@[w]) == av;
                assert(at(ob, av).pinned);
                assert(false);
            }
            assert(at(state.borrow_set, av) == at(ob, av));
        }
    }
    Ok(())
}

/// The analysis result per block, indexed like the graph's block list.
pub type InvariantMap = Vec<Option<BlockInvariant>>;

/// Run one block: fold the transfer function over its instructions,
/// starting from a fresh operand stack and a clone of the pre-state.
pub fn execute_block(
    ctx: &FunctionContext,
    block_start: u16,
    block_end: u16,
    pre: &AbstractState,
) -> (r: Result<AbstractState, PartialVMError>)
    requires
        st_wf(*pre),
        ctx.code@.len() <= u16::MAX as int,
        block_start <= block_end,
        (block_end as int) < ctx.code@.len(),
    ensures
        r matches Ok(s) ==> st_wf(s) && s.locals@ == pre.locals@ && s.current_function
            == pre.current_function,
        r matches Err(e) ==> e.function == pre.current_function,
{
    let mut state = pre.clone();
    let mut stack: Vec<AbstractValue> = Vec::new();
    let mut off: usize = block_start as usize;
    while off <= block_end as usize
        invariant
            st_wf(state),
            stack_wf(stack@, state.borrow_set),
            state.locals@ == pre.locals@,
            state.current_function == pre.current_function,
            ctx.code@.len() <= u16::MAX as int,
            (block_end as int) < ctx.code@.len(),
            block_start as int <= off,
        decreases block_end + 1 - off,
    {
        let instr = &ctx.code[off];
        match execute(&mut state, &mut stack, ctx, instr, off as u16) {
            Ok(_) => {},
            Err(e) => {
                return Err(e);
            },
        }
        off += 1;
    }
    Ok(state)
}

/// All recorded entries are sound for the analyzed function: their
/// pre-states are well formed and belong to function `fidx`, and every
/// recorded error is a diagnostic of that function.
pub open spec fn inv_map_wf(m: Seq<Option<BlockInvariant>>, fidx: u16) -> bool {
    forall|i: int|
        0 <= i < m.len() && (#[trigger] m[i]) is Some ==> st_wf(m[i]->0.pre)
            && m[i]->0.pre.current_function == fidx && (match m[i]->0.post {
            BlockPostcondition::Error(e) => e.function == fidx,
            _ => true,
        })
}

/// Analyze a function body to a fixed point over its control-flow graph.
/// Blocks are visited in traversal order; after the block holding the last
/// continue of a loop, the loop header is re-visited while its post-state
/// is unprocessed. Pre-states grow by joins until they stabilise; the
/// iteration budget implements the termination bound of the domain —
/// pinned references times the label and wildcard universe — and a
/// function that somehow exceeded it would be reported as an internal
/// invariant violation rather than looping.
pub fn analyze_function(ctx: &FunctionContext, cfg: &crate::cfg::VMControlFlowGraph) -> (r: Result<
    InvariantMap,
    PartialVMError,
>)
    requires
        0 < ctx.code@.len() <= u16::MAX as int,
        ctx.parameters@.len() + ctx.locals@.len() <= u16::MAX as int,
        crate::cfg::cfg_wf(*cfg, ctx.code@.len() as int),
    ensures
        r matches Ok(m) ==> m@.len() == cfg.blocks@.len() && inv_map_wf(m@, ctx.index)
            && m@[0] is Some,
        r matches Err(e) ==> e.function == ctx.index && e.status
            == StatusCode::UnknownInvariantViolationError,
{
    let initial = AbstractState::new(ctx);
    let nb = cfg.blocks.len();
    let mut inv_map: InvariantMap = Vec::new();
    let mut z: usize = 0;
    while z < nb
        invariant
            0 <= z <= nb,
            inv_map@.len() == z,
            forall|i: int| 0 <= i < z ==> (#[trigger] inv_map@[i]) is None,
        decreases nb - z,
    {
        inv_map.push(None);
        z += 1;
    }
    inv_map.set(0, Some(BlockInvariant { pre: initial, post: BlockPostcondition::Unprocessed }));
    // The iteration budget: blocks times pinned slots times the size of
    // the per-function label and wildcard universe.
    let nl = ctx.parameters.len() + ctx.locals.len();
    let ncode = ctx.code.len();
    let f1: u64 = if nb < 65536 {
        nb as u64 + 2
    } else {
        65538
    };
    let f2: u64 = if nl < 65536 {
        nl as u64 + 2
    } else {
        65538
    };
    let f3: u64 = if ncode < 65536 {
        2 * (ncode as u64) + 2
    } else {
        131074
    };
    proof {
        assert(f1 * f2 <= 65538u64 * 65538u64 && f1 * f2 * f3 <= 65538u64 * 65538u64
            * 131074u64) by (nonlinear_arith)
            requires
                f1 <= 65538,
                f2 <= 65538,
                f3 <= 131074,
        {}
    }
    let fuel0: u64 = f1 * f2 * f3;
    let mut fuel: u64 = fuel0;
    let mut cur: usize = 0;
    while cur < nb
        invariant
            nb == cfg.blocks@.len(),
            inv_map@.len() == nb,
            inv_map_wf(inv_map@, ctx.index),
            inv_map@[0] is Some,
            ctx.code@.len() <= u16::MAX as int,
            crate::cfg::cfg_wf(*cfg, ctx.code@.len() as int),
        decreases fuel,
    {
        if fuel == 0 {
            return Err(
                PartialVMError {
                    status: StatusCode::UnknownInvariantViolationError,
                    function: ctx.index,
                    offset: 0,
                },
            );
        }
        fuel = fuel - 1;
        let processed = match &inv_map[cur] {
            None => false,
            Some(binv) => match binv.post {
                BlockPostcondition::Error(_) => false,
                _ => true,
            },
        };
        if processed {
            let pre = match &inv_map[cur] {
                Some(binv) => binv.pre.clone(),
                None => AbstractState::new(ctx),
            };
            proof {
                assert(inv_map@[cur as int] is Some);
                assert(st_wf(inv_map@[cur as int]->0.pre));
                assert(inv_map@[cur as int]->0.pre.current_function == ctx.index);
            }
            let entry = cfg.blocks[cur].entry;
            let exit = cfg.blocks[cur].exit;
            if entry > exit || (exit as usize) >= ctx.code.len() {
                return Err(
                    PartialVMError {
                        status: StatusCode::UnknownInvariantViolationError,
                        function: ctx.index,
                        offset: entry,
                    },
                );
            }
            match execute_block(ctx, entry, exit, &pre) {
                Err(e) => {
                    inv_map.set(
                        cur,
                        Some(BlockInvariant { pre, post: BlockPostcondition::Error(e) }),
                    );
                },
                Ok(post_state) => {
                    inv_map.set(
                        cur,
                        Some(BlockInvariant { pre, post: BlockPostcondition::Success }),
                    );
                    // Join the post-state into every successor.
                    let ns = cfg.blocks[cur].successors.len();
                    let mut si: usize = 0;
                    while si < ns
                        invariant
                            nb == cfg.blocks@.len(),
                            0 <= cur < nb,
                            ns == cfg.blocks@[cur as int].successors@.len(),
                            0 <= si <= ns,
                            inv_map@.len() == nb,
                            inv_map_wf(inv_map@, ctx.index),
                            inv_map@[0] is Some,
                            st_wf(post_state),
                            post_state.current_function == ctx.index,
                        decreases ns - si,
                    {
                        let t = cfg.blocks[cur].successors[si];
                        match crate::cfg::VMControlFlowGraph::find_block(&cfg.blocks, t) {
                            None => {
                                return Err(
                                    PartialVMError {
                                        status: StatusCode::UnknownInvariantViolationError,
                                        function: ctx.index,
                                        offset: t,
                                    },
                                );
                            },
                            Some(w) => {
                                let existing = match &inv_map[w] {
                                    Some(wi) => Some(wi.pre.clone()),
                                    None => None,
                                };
                                match existing {
                                    Some(mut pre_w) => {
                                        proof {
                                            assert(inv_map@[w as int] is Some);
                                            assert(st_wf(inv_map@[w as int]->0.pre));
                                        }
                                        let jr = match pre_w.join(&post_state) {
                                            Ok(jr) => jr,
                                            Err(e) => {
                                                return Err(e);
                                            },
                                        };
                                        match jr {
                                            JoinResult::Unchanged => {},
                                            JoinResult::Changed => {
                                                inv_map.set(
                                                    w,
                                                    Some(
                                                        BlockInvariant {
                                                            pre: pre_w,
                                                            post: BlockPostcondition::Unprocessed,
                                                        },
                                                    ),
                                                );
                                            },
                                        }
                                    },
                                    None => {
                                        inv_map.set(
                                            w,
                                            Some(
                                                BlockInvariant {
                                                    pre: post_state.clone(),
                                                    post: BlockPostcondition::Success,
                                                },
                                            ),
                                        );
                                    },
                                }
                            },
                        }
                        si += 1;
                    }
                },
            }
        }
        // Schedule the next block: the loop header, when this block holds
        // the last continue of a loop whose header needs re-processing;
        // otherwise the next block in traversal order.
        let e = cfg.blocks[cur].entry;
        let mut next: usize = cur + 1;
        match find_loop_header(&cfg.loop_heads, e) {
            Some(h) => {
                match crate::cfg::VMControlFlowGraph::find_block(&cfg.blocks, h) {
                    Some(hw) => {
                        let unprocessed = match &inv_map[hw] {
                            Some(wi) => match wi.post {
                                BlockPostcondition::Unprocessed => true,
                                _ => false,
                            },
                            None => false,
                        };
                        if unprocessed {
                            next = hw;
                        }
                    },
                    None => {},
                }
            },
            None => {},
        }
        cur = next;
    }
    Ok(inv_map)
}

/// The loop header that `block` holds the last continue of, if any.
fn find_loop_header(loop_heads: &Vec<(u16, u16)>, block: u16) -> (r: Option<u16>) {
    let n = loop_heads.len();
    let mut i: usize = 0;
    while i < n
        invariant
            n == loop_heads@.len(),
            0 <= i <= n,
        decreases n - i,
    {
        if loop_heads[i].0 == block {
            return Some(loop_heads[i].1);
        }
        i += 1;
    }
    None
}

/// Analyze one function and report its first diagnostic, in block order.
pub fn verify_function(ctx: &FunctionContext) -> (r: Result<(), PartialVMError>)
    requires
        0 < ctx.code@.len() <= u16::MAX as int,
        ctx.parameters@.len() + ctx.locals@.len() <= u16::MAX as int,
    ensures
        r matches Err(e) ==> e.function == ctx.index,
{
    let cfg = crate::cfg::VMControlFlowGraph::new(&ctx.code);
    let inv_map = match analyze_function(ctx, &cfg) {
        Ok(m) => m,
        Err(e) => {
            return Err(e);
        },
    };
    let n = inv_map.len();
    let mut i: usize = 0;
    while i < n
        invariant
            n == inv_map@.len(),
            0 <= i <= n,
            inv_map_wf(inv_map@, ctx.index),
        decreases n - i,
    {
        match &inv_map[i] {
            Some(binv) => {
                match &binv.post {
                    BlockPostcondition::Error(e) => {
                        proof {
                            assert(inv_map@[i as int] is Some);
                        }
                        return Err(*e);
                    },
                    _ => {},
                }
            },
            None => {},
        }
        i += 1;
    }
    Ok(())
}

} // verus!
