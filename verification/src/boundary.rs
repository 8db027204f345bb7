//! Calls and returns: the check of their arguments against the ABI signature, and the
//! rewriting of the operand list where they differ.

use crate::abi::{args_outcome, args_span, args_steps, value_types, ArgumentType};
use crate::convert::{convert_to_abi, ArgSlots};
use crate::entities::{Inst, SigRef, Value};
use crate::error::LegalizeError;
use crate::function::{CallTarget, Cursor, Function};
use crate::bits::lower_args;
use crate::meaning::{bits_of, lemma_lower_args_step};
use crate::plan::{
    args_lowering, lemma_args_lowering_step, lemma_args_put_step, lemma_code_kept,
    lemma_put_in_nothing, lowering, put_in, Lowering,
};
use vstd::prelude::*;

verus! {

/// Tests whether the values of `args` after the first `skip` have the types of `types`, one
/// for one.
pub fn check_arg_types(func: &Function, args: &Vec<Value>, skip: usize, types: &Vec<ArgumentType>) -> (r:
    bool)
    requires
        func.has_values(args@),
        skip <= args.len(),
    ensures
        r == (func.types_of(args@.skip(skip as int)) == value_types(types@)),
{
    let ghost have = func.types_of(args@.skip(skip as int));
    let ghost want = value_types(types@);
    let mut n: usize = 0;
    while skip + n < args.len()
        invariant
            skip + n <= args.len(),
            n <= types.len(),
            func.has_values(args@),
            have == func.types_of(args@.skip(skip as int)),
            want == value_types(types@),
            forall|j: int| 0 <= j < n ==> have[j] == want[j],
        decreases args.len() - n,
    {
        if n >= types.len() {
            assert(have.len() != want.len());
            return false;
        }
        let arg = args[skip + n];
        assert(args@.skip(skip as int)[n as int] == arg);
        if func.values[arg.0].ty != types[n].value_type {
            assert(have[n as int] != want[n as int]);
            return false;
        }
        n += 1;
    }
    // Also verify that the number of arguments matches.
    if n == types.len() {
        assert(have =~= want);
        true
    } else {
        assert(have.len() != want.len());
        false
    }
}

/// Tests whether the arguments and results of the call `inst` match its signature.
///
/// Returns `None` if they do and no changes are needed, and `Some` with the signature if they
/// do not.
pub fn check_call_signature(func: &Function, inst: Inst) -> (r: Option<SigRef>)
    requires
        func.wf(),
        inst.0 < func.insts.len(),
        func.insts@[inst.0 as int].opcode.spec_is_call(),
    ensures
        r is None <==> func.call_args_match(inst) && func.call_results_match(inst),
        r matches Some(sig_ref) ==> sig_ref == func.call_signature(inst) && sig_ref.0
            < func.signatures.len(),
{
    proof {
        assert(func.inst_ok(func.insts@[inst.0 as int]));
    }
    let data = &func.insts[inst.0];
    // Find the signature and the argument values.
    let sig_ref = match data.target {
        CallTarget::Direct(f) => func.ext_funcs[f.0],
        CallTarget::Indirect(sig_ref) => sig_ref,
        CallTarget::NotACall => SigRef(0),
    };
    let sig = &func.signatures[sig_ref.0];
    if check_arg_types(func, &data.args, data.opcode.fixed_value_arguments(), &sig.argument_types)
        && check_arg_types(func, &data.results, 0, &sig.return_types) {
        // All types check out.
        proof {
            assert(data.results@.skip(0) =~= data.results@);
        }
        None
    } else {
        // Call types need fixing.
        proof {
            assert(data.results@.skip(0) =~= data.results@);
        }
        Some(sig_ref)
    }
}

/// Makes room in an operand list: `amount` copies of `fill` are put before operand `index`,
/// and the operands from `index` on move to the right.
pub fn grow_at(list: &mut Vec<Value>, index: usize, amount: usize, fill: Value)
    requires
        index <= old(list).len(),
    ensures
        final(list).len() == old(list).len() + amount,
        forall|k: int| 0 <= k < index ==> #[trigger] final(list)@[k] == old(list)@[k],
        forall|k: int| index <= k < index + amount ==> #[trigger] final(list)@[k] == fill,
        forall|k: int|
            index + amount <= k < final(list).len() ==> #[trigger] final(list)@[k] == old(list)@[k
                - amount],
{
    let mut done: usize = 0;
    while done < amount
        invariant
            done <= amount,
            index <= old(list).len(),
            list.len() == old(list).len() + done,
            forall|k: int| 0 <= k < index ==> #[trigger] list@[k] == old(list)@[k],
            forall|k: int| index <= k < index + done ==> #[trigger] list@[k] == fill,
            forall|k: int|
                index + done <= k < list.len() ==> #[trigger] list@[k] == old(list)@[k - done],
        decreases amount - done,
    {
        list.insert(index, fill);
        done += 1;
    }
}

/// Rewrites the arguments of the call or return at `pos` so that they are the ABI arguments
/// `abi_types`, one for one, and inserts the instructions that convert them before it.
///
/// The operands that the opcode fixes stay. Behind them the operand list is grown to the
/// number of ABI arguments, which moves the old arguments to its end. They are then converted
/// one after the other, and what comes out fills the list from the front. The list replaces
/// the operand list of the instruction when every slot is filled.
///
/// What is put into the function is [`args_lowering`]: the new instructions in their order,
/// and the new arguments. Whatever bits the values have, if they agree with the new
/// instructions then the bits of the new arguments are what the bits of the old arguments
/// [lower](lower_args) to.
pub fn legalize_inst_arguments(func: &mut Function, pos: &mut Cursor, abi_types: Vec<ArgumentType>) -> (r:
    Result<(), LegalizeError>)
    requires
        old(func).wf(),
        old(func).laid_out(old(pos).block as int, old(pos).inst as int),
    ensures
        final(func).wf(),
        final(pos).block == old(pos).block,
        final(pos).inst >= old(pos).inst,
        final(func).laid_out(final(pos).block as int, final(pos).inst as int),
        final(func).inst_at(final(pos).block as int, final(pos).inst as int) == old(func).inst_at(
            old(pos).block as int,
            old(pos).inst as int,
        ),
        old(func).rewired(
            *final(func),
            old(pos).block as int,
            old(pos).inst as int,
            final(pos).inst - old(pos).inst,
            old(func).inst_at(old(pos).block as int, old(pos).inst as int),
        ),
        r == args_outcome(
            old(func).types_of(
                old(func).abi_args(old(func).inst_at(old(pos).block as int, old(pos).inst as int)),
            ),
            abi_types@,
        ),
        r is Ok ==> {
            let inst = old(func).inst_at(old(pos).block as int, old(pos).inst as int);
            let fixed = old(func).insts@[inst.0 as int].opcode.spec_fixed_value_arguments() as int;
            &&& final(func).insts@[inst.0 as int].args@.take(fixed) == old(func).insts@[inst.0 as int].args@.take(
                fixed,
            )
            &&& final(func).types_of(final(func).abi_args(inst)) == value_types(abi_types@)
            &&& final(func).insts.len() == old(func).insts.len() + args_steps(
                old(func).types_of(old(func).abi_args(inst)),
                abi_types@,
                0,
                0,
            )
            &&& final(pos).inst == old(pos).inst + args_steps(
                old(func).types_of(old(func).abi_args(inst)),
                abi_types@,
                0,
                0,
            )
            &&& ({
                let plan = args_lowering(
                    old(func).types_of(old(func).abi_args(inst)),
                    abi_types@,
                    0,
                    0,
                    old(func).abi_args(inst),
                    old(func).values.len() as int,
                );
                &&& put_in(
                    *old(func),
                    *final(func),
                    old(pos).block as int,
                    old(pos).inst as int,
                    plan.types,
                    plan.code,
                )
                &&& final(func).abi_args(inst) == plan.slots
            })
            &&& forall|env: spec_fn(Value) -> Seq<bool>| #[trigger]
                final(func).code_holds(
                    env,
                    old(func).insts.len() as int,
                    final(func).insts.len() as int,
                ) ==> bits_of(env, final(func).abi_args(inst)) == lower_args(
                    old(func).types_of(old(func).abi_args(inst)),
                    abi_types@,
                    0,
                    0,
                    bits_of(env, old(func).abi_args(inst)),
                )
        },
{
    let ghost start = *func;
    let ghost b = pos.block as int;
    let ghost at = pos.inst as int;
    let ghost abi = abi_types@;
    let inst = func.blocks[pos.block].insts[pos.inst];
    assert(inst == func.inst_at(b, at));
    proof {
        assert(func.inst_ok(func.insts@[inst.0 as int]));
        start.lemma_preserved_grown(start, b, at);
    }
    let ghost old_args = func.insts@[inst.0 as int].args@;
    let ghost types = func.types_of(func.abi_args(inst));
    // The operand list holds every operand of the instruction, also the callee of an indirect
    // call, which is no argument of the signature. Those operands stay at the front.
    let fixed: usize = func.insts[inst.0].opcode.fixed_value_arguments();
    let mut vlist: Vec<Value> = func.insts[inst.0].args.clone();
    assert(vlist@ == old_args);
    let have_args: usize = vlist.len() - fixed;
    let abi_args: usize = abi_types.len();
    if abi_args < have_args {
        return Err(LegalizeError::AbiArgumentsExhausted);
    }
    // Grow the list to the right size. The old arguments move to the end, so that the new
    // ones can be written from the front without overwriting an old one that is still
    // to be read.
    grow_at(&mut vlist, fixed, abi_args - have_args, Value(0));
    let old_arg_offset: usize = fixed + (abi_args - have_args);
    let mut slots = ArgSlots { values: vlist, fixed, abi_types, next: 0 };
    let ghost empty = slots;
    proof {
        assert forall|env: spec_fn(Value) -> Seq<bool>|
            true implies bits_of(env, slots.values@.subrange(fixed as int, fixed + 0)) + lower_args(
            types,
            abi,
            0,
            0,
            bits_of(env, start.abi_args(inst)),
        ) == lower_args(types, abi, 0, 0, bits_of(env, start.abi_args(inst))) by {
            assert(bits_of(env, slots.values@.subrange(fixed as int, fixed + 0)) + lower_args(
                types,
                abi,
                0,
                0,
                bits_of(env, start.abi_args(inst)),
            ) =~= lower_args(types, abi, 0, 0, bits_of(env, start.abi_args(inst))));
        }
    }
    let ghost mut done = Lowering { code: Seq::empty(), types: Seq::empty(), slots: Seq::empty() };
    let ghost old_values = start.abi_args(inst);
    let ghost all = args_lowering(types, abi, 0, 0, old_values, start.values.len() as int);
    proof {
        lemma_put_in_nothing(start, b, at);
        assert(slots.values@.subrange(fixed as int, fixed + 0) =~= done.slots);
        let rest = args_lowering(types, abi, 0, 0, old_values, start.values.len() + 0);
        assert(all.code =~= done.code + rest.code);
        assert(all.types =~= done.types + rest.types);
        assert(all.slots =~= done.slots + rest.slots);
    }
    let mut old_arg: usize = 0;
    while old_arg < have_args
        invariant
            old_arg <= have_args,
            have_args == old_args.len() - fixed,
            abi_args == abi.len(),
            have_args <= abi_args,
            old_arg_offset == fixed + (abi_args - have_args),
            types == start.types_of(start.abi_args(inst)),
            old_args == start.insts@[inst.0 as int].args@,
            fixed == start.insts@[inst.0 as int].opcode.spec_fixed_value_arguments(),
            inst.0 < start.insts.len(),
            start == *old(func),
            abi == abi_types@,
            types.len() == have_args,
            b == old(pos).block,
            at == old(pos).inst,
            start.wf(),
            start.laid_out(b, at),
            inst == start.inst_at(b, at),
            func.wf(),
            pos.block == b,
            pos.inst >= at,
            start.grown(*func, b, at, pos.inst - at),
            start.params_kept(*func),
            slots.wf(),
            slots.fixed == fixed,
            slots.abi_types@ == abi,
            empty.wf(),
            empty.next == 0,
            empty.filled(slots, *func),
            forall|k: int| 0 <= k < fixed ==> #[trigger] empty.values@[k] == old_args[k],
            forall|k: int|
                old_arg_offset <= k < empty.values.len() ==> #[trigger] empty.values@[k]
                    == old_args[k - (abi_args - have_args)],
            args_span(types, abi, 0, 0) == args_span(types, abi, old_arg as int, slots.next as int),
            old_values == start.abi_args(inst),
            all == args_lowering(types, abi, 0, 0, old_values, start.values.len() as int),
            put_in(start, *func, b, at, done.types, done.code),
            pos.inst == at + done.code.len(),
            slots.values@.subrange(fixed as int, fixed + slots.next) == done.slots,
            ({
                let rest = args_lowering(
                    types,
                    abi,
                    old_arg as int,
                    slots.next as int,
                    old_values,
                    start.values.len() + done.types.len(),
                );
                &&& all.code == done.code + rest.code
                &&& all.types == done.types + rest.types
                &&& all.slots == done.slots + rest.slots
            }),
            func.insts.len() - start.insts.len() + args_steps(
                types,
                abi,
                old_arg as int,
                slots.next as int,
            ) == args_steps(types, abi, 0, 0),
            pos.inst - at + args_steps(types, abi, old_arg as int, slots.next as int)
                == args_steps(types, abi, 0, 0),
            forall|env: spec_fn(Value) -> Seq<bool>| #[trigger]
                func.code_holds(env, start.insts.len() as int, func.insts.len() as int) ==> bits_of(
                    env,
                    slots.values@.subrange(fixed as int, fixed + slots.next),
                ) + lower_args(
                    types,
                    abi,
                    old_arg as int,
                    slots.next as int,
                    bits_of(env, start.abi_args(inst)),
                ) == lower_args(types, abi, 0, 0, bits_of(env, start.abi_args(inst))),
        decreases have_args - old_arg,
    {
        if have_args - old_arg > abi_args - slots.next {
            return Err(LegalizeError::AbiArgumentsExhausted);
        }
        let old_value = slots.values[old_arg_offset + old_arg];
        proof {
            let k = old_arg_offset + old_arg;
            assert(slots.values@[k] == empty.values@[k]);
            assert(old_value == old_args[fixed + old_arg]);
            assert(start.inst_ok(start.insts@[inst.0 as int]));
            assert(start.has_value(old_value));
            assert(func.values@[old_value.0 as int].ty == start.values@[old_value.0 as int].ty);
            assert(start.abi_args(inst)[old_arg as int] == old_value);
            assert(types[old_arg as int] == func.value_type(old_value));
        }
        let ghost before = *func;
        let ghost before_pos = *pos;
        let ghost before_slots = slots;
        let r = convert_to_abi(func, pos, old_value, &mut slots);
        proof {
            start.lemma_grown_twice(
                before,
                *func,
                b,
                at,
                before_pos.inst - at,
                pos.inst - before_pos.inst,
            );
            start.lemma_params_kept_twice(before, *func);
            empty.lemma_filled_twice(before_slots, slots, before, *func);
            if r is Ok {
                let made = lowering(
                    types[old_arg as int],
                    abi,
                    before_slots.next as int,
                    old_value,
                    before.values.len() as int,
                );
                assert(before.values.len() == start.values.len() + done.types.len());
                lemma_args_put_step(
                    start,
                    before,
                    *func,
                    b,
                    at,
                    fixed as int,
                    before_slots.next as int,
                    slots.next as int,
                    done,
                    made,
                    before_slots.values@,
                    slots.values@,
                );
                lemma_args_lowering_step(
                    types,
                    abi,
                    old_arg as int,
                    before_slots.next as int,
                    slots.next as int,
                    old_values,
                    start.values.len() as int,
                    done,
                    all,
                );
                done = Lowering {
                    code: done.code + made.code,
                    types: done.types + made.types,
                    slots: done.slots + made.slots,
                };
                assert forall|env: spec_fn(Value) -> Seq<bool>| #[trigger]
                    func.code_holds(env, start.insts.len() as int, func.insts.len() as int) implies bits_of(
                    env,
                    slots.values@.subrange(fixed as int, fixed + slots.next),
                ) + lower_args(
                    types,
                    abi,
                    old_arg + 1,
                    slots.next as int,
                    bits_of(env, start.abi_args(inst)),
                ) == lower_args(types, abi, 0, 0, bits_of(env, start.abi_args(inst))) by {
                    lemma_lower_args_step(
                        start.insts.len() as int,
                        before,
                        *func,
                        env,
                        types,
                        abi,
                        bits_of(env, start.abi_args(inst)),
                        old_arg as int,
                        fixed as int,
                        before_slots.next as int,
                        slots.next as int,
                        old_value,
                        before_slots.values@,
                        slots.values@,
                    );
                }
            }
        }
        match r {
            Err(e) => {
                proof {
                    assert(func.inst_at(b, pos.inst as int) == start.inst_at(
                        b,
                        pos.inst - (pos.inst - at),
                    ));
                }
                return Err(e);
            },
            Ok(_) => {},
        }
        old_arg += 1;
    }
    proof {
        assert(func.inst_at(b, pos.inst as int) == start.inst_at(b, pos.inst - (pos.inst - at)));
    }
    if slots.next != abi_args {
        return Err(LegalizeError::AbiArgumentsLeftOver);
    }
    let ghost full = slots;
    let ghost grown = *func;
    proof {
        assert(func.insts@[inst.0 as int] == start.insts@[inst.0 as int]);
        assert forall|k: int| 0 <= k < full.values.len() implies func.has_value(
            #[trigger] full.values@[k],
        ) by {
            if k < fixed {
                assert(full.values@[k] == empty.values@[k]);
                assert(start.inst_ok(start.insts@[inst.0 as int]));
                assert(start.has_value(old_args[k]));
            }
        }
    }
    // Put the modified list back.
    func.put_value_list(inst, slots.values);
    proof {
        assert(func.inst_at(b, pos.inst as int) == grown.inst_at(b, pos.inst as int));
        start.lemma_grown_rewired(grown, *func, b, at, pos.inst - at, inst);
        let args = func.insts@[inst.0 as int].args@;
        assert(args.take(fixed as int) =~= old_args.take(fixed as int)) by {
            assert forall|k: int| 0 <= k < fixed implies args[k] == old_args[k] by {
                assert(full.values@[k] == empty.values@[k]);
            }
        }
        assert(func.types_of(func.abi_args(inst)) =~= value_types(abi)) by {
            assert forall|j: int| 0 <= j < abi.len() implies func.value_type(
                func.abi_args(inst)[j],
            ) == abi[j].value_type by {
                assert(func.abi_args(inst)[j] == full.values@[fixed + j]);
            }
        }
        assert(func.abi_args(inst) =~= full.values@.subrange(fixed as int, fixed + full.next));
        lemma_code_kept(start, grown, *func, b, at, done.code);
        assert(all.code =~= done.code);
        assert(all.types =~= done.types);
        assert(all.slots =~= done.slots);
        assert forall|env: spec_fn(Value) -> Seq<bool>| #[trigger]
            func.code_holds(env, start.insts.len() as int, func.insts.len() as int) implies bits_of(
            env,
            func.abi_args(inst),
        ) == lower_args(types, abi, 0, 0, bits_of(env, start.abi_args(inst))) by {
            grown.lemma_code_holds_kept(
                *func,
                env,
                start.insts.len() as int,
                grown.insts.len() as int,
                start.insts.len() as int,
                func.insts.len() as int,
            );
            let xs = bits_of(env, start.abi_args(inst));
            assert(lower_args(types, abi, have_args as int, full.next as int, xs)
                =~= Seq::<Seq<bool>>::empty());
            assert(bits_of(env, full.values@.subrange(fixed as int, fixed + full.next))
                + Seq::<Seq<bool>>::empty() =~= bits_of(
                env,
                full.values@.subrange(fixed as int, fixed + full.next),
            ));
        }
    }
    Ok(())
}

/// What rewriting the arguments comes to: a change, or the reason why they cannot be
/// rewritten.
pub open spec fn rewrite_outcome(outcome: Result<(), LegalizeError>) -> Result<bool, LegalizeError> {
    match outcome {
        Ok(_) => Ok(true),
        Err(e) => Err(e),
    }
}

/// Brings the arguments of the call at `pos` in line with the call's signature by inserting
/// instructions before the call that compute the ABI arguments, and by rewriting the call's
/// operand list.
///
/// Returns `false` and changes nothing where the arguments and the results of the call match
/// the signature already, and `true` where the arguments were rewritten. Results are not
/// converted: a call whose arguments match and whose results do not is an error.
///
/// What is put into the function where the arguments are rewritten is [`args_lowering`]: the
/// new instructions in their order, and the new arguments. Whatever bits the values have, if
/// they agree with the new instructions then the bits of the new arguments are what the bits
/// of the old arguments [lower](lower_args) to.
pub fn handle_call_abi(func: &mut Function, pos: &mut Cursor) -> (r: Result<bool, LegalizeError>)
    requires
        old(func).wf(),
        old(func).laid_out(old(pos).block as int, old(pos).inst as int),
        old(func).insts@[old(func).inst_at(
            old(pos).block as int,
            old(pos).inst as int,
        ).0 as int].opcode.spec_is_call(),
    ensures
        final(func).wf(),
        final(pos).block == old(pos).block,
        final(pos).inst >= old(pos).inst,
        final(func).laid_out(final(pos).block as int, final(pos).inst as int),
        final(func).inst_at(final(pos).block as int, final(pos).inst as int) == old(func).inst_at(
            old(pos).block as int,
            old(pos).inst as int,
        ),
        old(func).rewired(
            *final(func),
            old(pos).block as int,
            old(pos).inst as int,
            final(pos).inst - old(pos).inst,
            old(func).inst_at(old(pos).block as int, old(pos).inst as int),
        ),
        ({
            let inst = old(func).inst_at(old(pos).block as int, old(pos).inst as int);
            let sig = old(func).signatures@[old(func).call_signature(inst).0 as int];
            &&& old(func).call_args_match(inst) ==> {
                &&& *final(func) == *old(func)
                &&& *final(pos) == *old(pos)
                &&& r == if old(func).call_results_match(inst) {
                    Ok::<bool, LegalizeError>(false)
                } else {
                    Err::<bool, LegalizeError>(LegalizeError::UnconvertedCallResults(inst))
                }
            }
            &&& !old(func).call_args_match(inst) ==> r == rewrite_outcome(
                args_outcome(old(func).types_of(old(func).abi_args(inst)), sig.argument_types@),
            )
            &&& r == Ok::<bool, LegalizeError>(true) ==> final(func).call_args_match(inst)
            &&& r == Ok::<bool, LegalizeError>(true) ==> final(func).insts.len() == old(func).insts.len()
                + args_steps(old(func).types_of(old(func).abi_args(inst)), sig.argument_types@, 0, 0)
                && final(pos).inst == old(pos).inst + args_steps(
                old(func).types_of(old(func).abi_args(inst)),
                sig.argument_types@,
                0,
                0,
            )
            &&& r == Ok::<bool, LegalizeError>(true) ==> {
                let plan = args_lowering(
                    old(func).types_of(old(func).abi_args(inst)),
                    sig.argument_types@,
                    0,
                    0,
                    old(func).abi_args(inst),
                    old(func).values.len() as int,
                );
                &&& put_in(
                    *old(func),
                    *final(func),
                    old(pos).block as int,
                    old(pos).inst as int,
                    plan.types,
                    plan.code,
                )
                &&& final(func).abi_args(inst) == plan.slots
                &&& final(func).insts@[inst.0 as int].args@.take(
                    old(func).insts@[inst.0 as int].opcode.spec_fixed_value_arguments() as int,
                ) == old(func).insts@[inst.0 as int].args@.take(
                    old(func).insts@[inst.0 as int].opcode.spec_fixed_value_arguments() as int,
                )
            }
            &&& r == Ok::<bool, LegalizeError>(true) ==> forall|env: spec_fn(Value) -> Seq<bool>| #[trigger]
                final(func).code_holds(
                    env,
                    old(func).insts.len() as int,
                    final(func).insts.len() as int,
                ) ==> bits_of(env, final(func).abi_args(inst)) == lower_args(
                    old(func).types_of(old(func).abi_args(inst)),
                    sig.argument_types@,
                    0,
                    0,
                    bits_of(env, old(func).abi_args(inst)),
                )
        }),
{
    let ghost start = *func;
    let inst = func.blocks[pos.block].insts[pos.inst];
    assert(inst == func.inst_at(pos.block as int, pos.inst as int));
    proof {
        assert(func.inst_ok(func.insts@[inst.0 as int]));
        start.lemma_preserved_grown(start, pos.block as int, pos.inst as int);
    }
    // Start by checking if the argument types already match the signature.
    let sig_ref = match check_call_signature(func, inst) {
        None => {
            return Ok(false);
        },
        Some(sig_ref) => sig_ref,
    };
    let data = &func.insts[inst.0];
    if check_arg_types(
        func,
        &data.args,
        data.opcode.fixed_value_arguments(),
        &func.signatures[sig_ref.0].argument_types,
    ) {
        return Err(LegalizeError::UnconvertedCallResults(inst));
    }
    // The call arguments need fixing to match the ABI signature.
    let abi_types = func.signatures[sig_ref.0].argument_types.clone();
    assert(abi_types@ == func.signatures@[sig_ref.0 as int].argument_types@);
    match legalize_inst_arguments(func, pos, abi_types) {
        Err(e) => Err(e),
        Ok(_) => {
            assert(func.call_signature(inst) == start.call_signature(inst));
            Ok(true)
        },
    }
}

/// Brings the arguments of the return at `pos` in line with the return values of the
/// function's signature by inserting instructions before the return that compute the ABI
/// values, and by rewriting the operand list of the return.
///
/// Returns `false` and changes nothing where the arguments match the signature already, and
/// `true` where they were rewritten.
///
/// What is put into the function where the arguments are rewritten is [`args_lowering`]: the
/// new instructions in their order, and the new arguments. Whatever bits the values have, if
/// they agree with the new instructions then the bits of the new arguments are what the bits
/// of the old arguments [lower](lower_args) to.
pub fn handle_return_abi(func: &mut Function, pos: &mut Cursor) -> (r: Result<bool, LegalizeError>)
    requires
        old(func).wf(),
        old(func).laid_out(old(pos).block as int, old(pos).inst as int),
        old(func).insts@[old(func).inst_at(
            old(pos).block as int,
            old(pos).inst as int,
        ).0 as int].opcode.spec_is_return(),
    ensures
        final(func).wf(),
        final(pos).block == old(pos).block,
        final(pos).inst >= old(pos).inst,
        final(func).laid_out(final(pos).block as int, final(pos).inst as int),
        final(func).inst_at(final(pos).block as int, final(pos).inst as int) == old(func).inst_at(
            old(pos).block as int,
            old(pos).inst as int,
        ),
        old(func).rewired(
            *final(func),
            old(pos).block as int,
            old(pos).inst as int,
            final(pos).inst - old(pos).inst,
            old(func).inst_at(old(pos).block as int, old(pos).inst as int),
        ),
        ({
            let inst = old(func).inst_at(old(pos).block as int, old(pos).inst as int);
            &&& old(func).return_matches(inst) ==> {
                &&& *final(func) == *old(func)
                &&& *final(pos) == *old(pos)
                &&& r == Ok::<bool, LegalizeError>(false)
            }
            &&& !old(func).return_matches(inst) ==> r == rewrite_outcome(
                args_outcome(
                    old(func).types_of(old(func).abi_args(inst)),
                    old(func).signature.return_types@,
                ),
            )
            &&& r == Ok::<bool, LegalizeError>(true) ==> final(func).return_matches(inst)
            &&& r == Ok::<bool, LegalizeError>(true) ==> final(func).insts.len() == old(func).insts.len()
                + args_steps(
                old(func).types_of(old(func).abi_args(inst)),
                old(func).signature.return_types@,
                0,
                0,
            ) && final(pos).inst == old(pos).inst + args_steps(
                old(func).types_of(old(func).abi_args(inst)),
                old(func).signature.return_types@,
                0,
                0,
            )
            &&& r == Ok::<bool, LegalizeError>(true) ==> {
                let plan = args_lowering(
                    old(func).types_of(old(func).abi_args(inst)),
                    old(func).signature.return_types@,
                    0,
                    0,
                    old(func).abi_args(inst),
                    old(func).values.len() as int,
                );
                &&& put_in(
                    *old(func),
                    *final(func),
                    old(pos).block as int,
                    old(pos).inst as int,
                    plan.types,
                    plan.code,
                )
                &&& final(func).abi_args(inst) == plan.slots
                &&& final(func).insts@[inst.0 as int].args@.take(
                    old(func).insts@[inst.0 as int].opcode.spec_fixed_value_arguments() as int,
                ) == old(func).insts@[inst.0 as int].args@.take(
                    old(func).insts@[inst.0 as int].opcode.spec_fixed_value_arguments() as int,
                )
            }
            &&& r == Ok::<bool, LegalizeError>(true) ==> forall|env: spec_fn(Value) -> Seq<bool>| #[trigger]
                final(func).code_holds(
                    env,
                    old(func).insts.len() as int,
                    final(func).insts.len() as int,
                ) ==> bits_of(env, final(func).abi_args(inst)) == lower_args(
                    old(func).types_of(old(func).abi_args(inst)),
                    old(func).signature.return_types@,
                    0,
                    0,
                    bits_of(env, old(func).abi_args(inst)),
                )
        }),
{
    let ghost start = *func;
    let inst = func.blocks[pos.block].insts[pos.inst];
    assert(inst == func.inst_at(pos.block as int, pos.inst as int));
    proof {
        assert(func.inst_ok(func.insts@[inst.0 as int]));
        start.lemma_preserved_grown(start, pos.block as int, pos.inst as int);
    }
    // Check if the returned types already match the signature.
    let data = &func.insts[inst.0];
    if check_arg_types(
        func,
        &data.args,
        data.opcode.fixed_value_arguments(),
        &func.signature.return_types,
    ) {
        return Ok(false);
    }
    let abi_types = func.signature.return_types.clone();
    assert(abi_types@ == func.signature.return_types@);
    match legalize_inst_arguments(func, pos, abi_types) {
        Err(e) => Err(e),
        Ok(_) => Ok(true),
    }
}

} // verus!
