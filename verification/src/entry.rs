//! The parameters of the entry block, brought in line with the legalized signature.

use crate::abi::{abi_span, args_outcome, args_span, args_steps, value_types, ArgumentType};
use crate::bits::{arg_start, raise_bits};
use crate::convert::{convert_from_abi, params_extended};
use crate::entities::{Ebb, Value};
use crate::error::LegalizeError;
use crate::function::{Cursor, Function};
use crate::meaning::{carried, carrier, lemma_carried_step, slots_of, stays, turn_ok};
use crate::plan::{
    entry_plan, entry_put_in, lemma_entry_plan_step, lemma_entry_put_converted,
    lemma_entry_put_stays, new_values, param_plan, raising, EntryPlan, Step,
};
use crate::types::Type;
use vstd::prelude::*;

verus! {

/// How far the parameters of block `e` are rewritten when the first `k` of the old parameters
/// `params` are gone through and `abi_arg` ABI arguments are used.
///
/// The block has one parameter for each ABI argument used, of its type. An old parameter
/// that stays is the parameter for the ABI argument of its turn. An old parameter that does
/// not is an alias of a value that `start` did not have, if no value is an old parameter
/// twice. The other blocks have the parameters that they have in `start`.
pub open spec fn entry_progress(
    start: Function,
    func: Function,
    e: int,
    params: Seq<Value>,
    types: Seq<Type>,
    abi: Seq<ArgumentType>,
    k: int,
    abi_arg: int,
) -> bool {
    &&& func.blocks@[e].params.len() == abi_arg
    &&& forall|j: int|
        0 <= j < abi_arg ==> func.value_type(#[trigger] func.blocks@[e].params@[j])
            == abi[j].value_type
    &&& arg_start(types, abi, k) == abi_arg
    &&& forall|i: int| 0 <= i < k ==> #[trigger] turn_ok(types, abi, i)
    &&& forall|j: int|
        0 <= j < k && #[trigger] stays(types, abi, j) ==> arg_start(types, abi, j) < abi_arg
            && func.blocks@[e].params@[arg_start(types, abi, j)] == params[j]
    &&& params.no_duplicates() ==> forall|j: int|
        0 <= j < k && !#[trigger] stays(types, abi, j) ==> (
        func.values@[params[j].0 as int].alias matches Some(to) && start.values.len() <= to.0)
    &&& forall|b: int|
        0 <= b < start.blocks.len() && b != e ==> (#[trigger] func.blocks@[b]).params@
            == start.blocks@[b].params@
}

/// An old parameter of the type of the next ABI argument, attached again, takes the rewriting
/// one parameter further.
pub proof fn lemma_entry_stays(
    start: Function,
    before: Function,
    after: Function,
    e: int,
    params: Seq<Value>,
    types: Seq<Type>,
    abi: Seq<ArgumentType>,
    k: int,
    at: int,
)
    requires
        0 <= e < start.blocks.len(),
        start.blocks.len() == before.blocks.len(),
        0 <= k < params.len(),
        params.len() == types.len(),
        0 <= at < abi.len(),
        types[k] == abi[at].value_type,
        before.value_type(params[k]) == types[k],
        entry_progress(start, before, e, params, types, abi, k, at),
        after.values == before.values,
        after.blocks.len() == before.blocks.len(),
        after.blocks@[e].params@ == before.blocks@[e].params@.push(params[k]),
        forall|b: int|
            0 <= b < before.blocks.len() && b != e ==> (#[trigger] after.blocks@[b]).params@
                == before.blocks@[b].params@,
    ensures
        entry_progress(start, after, e, params, types, abi, k + 1, at + 1),
        stays(types, abi, k),
        forall|j: int|
            0 <= j < k ==> #[trigger] carrier(after, params[j], stays(types, abi, j)) == carrier(
                before,
                params[j],
                stays(types, abi, j),
            ),
{
    let was = before.blocks@[e].params@;
    let now = after.blocks@[e].params@;
    assert(turn_ok(types, abi, k));
    assert(arg_start(types, abi, k + 1) == at + 1);
    assert forall|j: int| 0 <= j < at + 1 implies after.value_type(#[trigger] now[j])
        == abi[j].value_type by {
        if j < at {
            assert(now[j] == was[j]);
        }
    }
    assert forall|j: int| 0 <= j < k + 1 && #[trigger] stays(types, abi, j) implies arg_start(
        types,
        abi,
        j,
    ) < at + 1 && now[arg_start(types, abi, j)] == params[j] by {
        if j < k {
            assert(now[arg_start(types, abi, j)] == was[arg_start(types, abi, j)]);
        }
    }
    assert forall|b: int| 0 <= b < start.blocks.len() && b != e implies (
    #[trigger] after.blocks@[b]).params@ == start.blocks@[b].params@ by {
        assert(before.blocks@[b].params@ == start.blocks@[b].params@);
    }
}

/// An old parameter that is converted takes the rewriting one parameter further: new
/// parameters are appended for the ABI arguments `at..next` that carry it, and it becomes an
/// alias of the value `converted` that is computed from them.
pub proof fn lemma_entry_converted(
    start: Function,
    before: Function,
    made: Function,
    after: Function,
    entry: Ebb,
    params: Seq<Value>,
    types: Seq<Type>,
    abi: Seq<ArgumentType>,
    k: int,
    at: int,
    next: int,
    converted: Value,
)
    requires
        entry.0 < start.blocks.len(),
        start.blocks.len() == before.blocks.len(),
        start.values.len() <= before.values.len(),
        start.has_values(params),
        0 <= k < params.len(),
        params.len() == types.len(),
        0 <= at < abi.len(),
        types[k] != abi[at].value_type,
        abi_span(types[k], abi, at) == Ok::<int, LegalizeError>(next),
        entry_progress(start, before, entry.0 as int, params, types, abi, k, at),
        before.wf(),
        before.stable(made),
        before.values_kept(made),
        params_extended(before, made, entry, abi, at, next),
        before.values.len() <= converted.0 < made.values.len(),
        after.values.len() == made.values.len(),
        after.values@[params[k].0 as int] == (crate::function::ValueData {
            ty: made.values@[params[k].0 as int].ty,
            alias: Some(converted),
        }),
        forall|v: int|
            0 <= v < made.values.len() && v != params[k].0 ==> #[trigger] after.values@[v]
                == made.values@[v],
        after.blocks == made.blocks,
    ensures
        entry_progress(start, after, entry.0 as int, params, types, abi, k + 1, next),
        !stays(types, abi, k),
        params.no_duplicates() ==> forall|j: int|
            0 <= j < k ==> #[trigger] carrier(after, params[j], stays(types, abi, j)) == carrier(
                before,
                params[j],
                stays(types, abi, j),
            ),
        carrier(after, params[k], stays(types, abi, k)) == converted,
{
    let e = entry.0 as int;
    let was = before.blocks@[e].params@;
    let now = after.blocks@[e].params@;
    assert(now == made.blocks@[e].params@);
    assert(turn_ok(types, abi, k));
    assert(arg_start(types, abi, k + 1) == next);
    assert forall|j: int| 0 <= j < next implies after.value_type(#[trigger] now[j])
        == abi[j].value_type by {
        if j < at {
            assert(now[j] == was[j]);
            assert(before.has_values(was));
            assert(made.values@[was[j].0 as int].ty == before.values@[was[j].0 as int].ty);
        } else {
            assert(made.value_type(now[j]) == abi[at + (j - was.len())].value_type);
        }
    }
    assert forall|j: int| 0 <= j < k + 1 && #[trigger] stays(types, abi, j) implies arg_start(
        types,
        abi,
        j,
    ) < next && now[arg_start(types, abi, j)] == params[j] by {
        assert(now[arg_start(types, abi, j)] == was[arg_start(types, abi, j)]);
    }
    assert forall|b: int| 0 <= b < start.blocks.len() && b != e implies (
    #[trigger] after.blocks@[b]).params@ == start.blocks@[b].params@ by {
        assert(made.blocks@[b].params@ == before.blocks@[b].params@);
    }
    if params.no_duplicates() {
        assert forall|j: int| 0 <= j < k + 1 && !#[trigger] stays(types, abi, j) implies (
        after.values@[params[j].0 as int].alias matches Some(to) && start.values.len()
            <= to.0) by {
            let p = params[j];
            assert(start.has_value(p));
            assert(made.values@[p.0 as int] == before.values@[p.0 as int]);
        }
        assert forall|j: int| 0 <= j < k implies #[trigger] carrier(
            after,
            params[j],
            stays(types, abi, j),
        ) == carrier(before, params[j], stays(types, abi, j)) by {
            let p = params[j];
            assert(start.has_value(p));
            assert(made.values@[p.0 as int] == before.values@[p.0 as int]);
        }
    }
    assert(start.has_value(params[k]));
}

/// Replaces the parameters of block `entry` by parameters for the ABI arguments of the
/// function's signature, after that signature has been legalized.
///
/// The old parameters are detached and gone through in order. One that has the type of the
/// next ABI argument is attached again and stands for that argument. For any other, new
/// parameters are appended for the ABI arguments that carry it, its value is computed from
/// them by instructions inserted at the top of the block, and the old parameter becomes an
/// alias of that value, so that its uses need not be touched.
///
/// What is put into the function is [`entry_plan`]: the parameters that the block has
/// afterwards, the new instructions in their order, the new values, and what each old value
/// stands for afterwards; a value that is no converted parameter and stood for none is
/// unchanged. Whatever bits the values have, if they agree with the new instructions then
/// what holds the bits of an old parameter is what the bits of the new parameters
/// [raise](raise_bits) to, if no value was an old parameter twice.
pub fn legalize_entry_arguments(func: &mut Function, entry: Ebb) -> (r: Result<(), LegalizeError>)
    requires
        old(func).wf(),
        entry.0 < old(func).blocks.len(),
    ensures
        final(func).wf(),
        r == args_outcome(old(func).param_types(entry), old(func).signature.argument_types@),
        r is Ok ==> final(func).param_types(entry) == value_types(
            old(func).signature.argument_types@,
        ),
        old(func).grown(
            *final(func),
            entry.0 as int,
            0,
            final(func).blocks@[entry.0 as int].insts.len() - old(func).blocks@[entry.0 as int].insts.len(),
        ),
        r is Ok ==> final(func).insts.len() == old(func).insts.len() + args_steps(
            old(func).param_types(entry),
            old(func).signature.argument_types@,
            0,
            0,
        ),
        r is Ok ==> final(func).blocks@[entry.0 as int].insts.len() == old(func).blocks@[entry.0 as int].insts.len()
            + args_steps(old(func).param_types(entry), old(func).signature.argument_types@, 0, 0),
        r is Ok ==> forall|b: int|
            0 <= b < old(func).blocks.len() && b != entry.0 ==> (#[trigger] final(func).blocks@[b]).params@
                == old(func).blocks@[b].params@,
        r is Ok ==> forall|k: int|
            0 <= k < old(func).blocks@[entry.0 as int].params.len() && #[trigger] stays(
                old(func).param_types(entry),
                old(func).signature.argument_types@,
                k,
            ) ==> final(func).blocks@[entry.0 as int].params@[arg_start(
                old(func).param_types(entry),
                old(func).signature.argument_types@,
                k,
            )] == old(func).blocks@[entry.0 as int].params@[k],
        r is Ok && old(func).blocks@[entry.0 as int].params@.no_duplicates() ==> forall|k: int|
            0 <= k < old(func).blocks@[entry.0 as int].params.len() && !#[trigger] stays(
                old(func).param_types(entry),
                old(func).signature.argument_types@,
                k,
            ) ==> (final(func).values@[old(func).blocks@[entry.0 as int].params@[k].0 as int].alias matches Some(
                to,
            ) && old(func).values.len() <= to.0),
        r is Ok && old(func).blocks@[entry.0 as int].params@.no_duplicates() ==> forall|
            env: spec_fn(Value) -> Seq<bool>,
        | #[trigger]
            final(func).code_holds(env, old(func).insts.len() as int, final(func).insts.len() as int)
                ==> carried(
                *final(func),
                env,
                entry.0 as int,
                old(func).blocks@[entry.0 as int].params@,
                old(func).param_types(entry),
                old(func).signature.argument_types@,
                old(func).blocks@[entry.0 as int].params.len() as int,
            ),
        r is Ok ==> entry_put_in(
            *old(func),
            *final(func),
            entry.0 as int,
            entry_plan(
                old(func).param_types(entry),
                old(func).signature.argument_types@,
                0,
                0,
                old(func).blocks@[entry.0 as int].params@,
                old(func).values.len() as int,
            ),
        ),
        old(func).param_types(entry) == value_types(old(func).signature.argument_types@) ==> r is Ok
            && final(func).same_as(*old(func)),
        r is Ok && old(func).aliases_end() ==> final(func).aliases_end(),
{
    let ghost start = *func;
    let ghost types = func.param_types(entry);
    let ghost e = entry.0 as int;
    // Conversion code goes before the first instruction of the entry block.
    let mut pos = Cursor { block: entry.0, inst: 0 };
    // The argument types of the ABI-legalized signature.
    let abi_types: Vec<ArgumentType> = func.signature.argument_types.clone();
    let ghost abi = abi_types@;
    let mut abi_arg: usize = 0;
    // Go through the parameters one at a time, possibly replacing one by several new ones.
    // Detach them all first.
    let params = func.take_ebb_args(entry);
    let ghost detached = *func;
    let ghost mut same: bool = true;
    proof {
        start.lemma_preserved_grown(detached, e, 0);
        assert(start.has_values(start.blocks@[e].params@));
        assert(func.blocks@[e].params@ =~= params@.take(0));
    }
    proof {
        if start.aliases_end() {
            start.lemma_aliases_end_grown(*func);
        }
    }
    let ghost mut done = EntryPlan::nothing();
    let ghost all = entry_plan(types, abi, 0, 0, params@, start.values.len() as int);
    proof {
        assert(entry_put_in(start, *func, e, done)) by {
            assert(func.steps(start.insts.len() as int, func.insts.len() as int)
                =~= Seq::<Step>::empty());
            assert(func.values@.subrange(start.values.len() as int, func.values.len() as int)
                =~= new_values(done.types));
        }
        let rest = entry_plan(types, abi, 0, 0, params@, start.values.len() + done.types.len());
        let joined = done.followed_by(rest);
        assert(joined.code =~= all.code);
        assert(joined.types =~= all.types);
        assert(joined.params =~= all.params);
        assert(joined.aliases =~= all.aliases);
    }
    let mut k: usize = 0;
    while k < params.len()
        invariant
            k <= params.len(),
            abi_arg <= abi_types.len(),
            e == entry.0,
            start == *old(func),
            abi == abi_types@,
            abi == start.signature.argument_types@,
            types == start.param_types(entry),
            types.len() == params.len(),
            params@ == start.blocks@[e].params@,
            start.has_values(params@),
            start.wf(),
            0 <= e < start.blocks.len(),
            func.wf(),
            pos.block == entry.0,
            start.grown(*func, e, 0, pos.inst as int),
            entry_progress(start, *func, e, params@, types, abi, k as int, abi_arg as int),
            start.aliases_end() ==> func.aliases_end(),
            entry_put_in(start, *func, e, done),
            pos.inst == done.code.len(),
            all == entry_plan(types, abi, 0, 0, params@, start.values.len() as int),
            all == done.followed_by(
                entry_plan(
                    types,
                    abi,
                    k as int,
                    abi_arg as int,
                    params@,
                    start.values.len() + done.types.len(),
                ),
            ),
            args_span(types, abi, 0, 0) == args_span(types, abi, k as int, abi_arg as int),
            func.insts.len() - start.insts.len() + args_steps(types, abi, k as int, abi_arg as int)
                == args_steps(types, abi, 0, 0),
            pos.inst + args_steps(types, abi, k as int, abi_arg as int) == args_steps(
                types,
                abi,
                0,
                0,
            ),
            params@.no_duplicates() ==> forall|env: spec_fn(Value) -> Seq<bool>| #[trigger]
                func.code_holds(env, start.insts.len() as int, func.insts.len() as int) ==> carried(
                    *func,
                    env,
                    e,
                    params@,
                    types,
                    abi,
                    k as int,
                ),
            same ==> {
                &&& abi_arg == k
                &&& pos.inst == 0
                &&& func.values == start.values
                &&& func.insts == start.insts
                &&& start.layout_kept(*func)
                &&& func.blocks@[e].params@ == params@.take(k as int)
            },
            !same ==> types != value_types(abi),
        decreases params.len() - k,
    {
        if params.len() - k > abi_types.len() - abi_arg {
            proof {
                if same {
                    assert(types.len() != value_types(abi).len());
                }
            }
            return Err(LegalizeError::AbiArgumentsExhausted);
        }
        let arg = params[k];
        let arg_type = func.values[arg.0].ty;
        let ghost before = *func;
        let ghost at = abi_arg as int;
        proof {
            assert(func.values@[arg.0 as int].ty == start.values@[arg.0 as int].ty);
            assert(types[k as int] == arg_type);
        }
        if arg_type == abi_types[abi_arg].value_type {
            // No conversion is needed: the parameter has the type of the ABI argument. This
            // is the most common case.
            func.put_ebb_arg(entry, arg);
            abi_arg += 1;
            proof {
                before.lemma_preserved_grown(*func, e, pos.inst as int);
                start.lemma_grown_twice(before, *func, e, 0, pos.inst as int, 0);
                lemma_entry_stays(start, before, *func, e, params@, types, abi, k as int, at);
                if before.aliases_end() {
                    before.lemma_aliases_end_grown(*func);
                }
                let made = param_plan(
                    types[k as int],
                    abi,
                    at,
                    arg,
                    start.values.len() + done.types.len(),
                );
                lemma_entry_put_stays(start, before, *func, e, done, made, arg);
                lemma_entry_plan_step(
                    types,
                    abi,
                    k as int,
                    at,
                    at + 1,
                    params@,
                    start.values.len() as int,
                    done,
                    all,
                );
                done = done.followed_by(made);
                assert(done.code.len() == pos.inst);
                if same {
                    assert(func.blocks@[e].params@ =~= params@.take(k + 1));
                }
                if params@.no_duplicates() {
                    assert forall|env: spec_fn(Value) -> Seq<bool>| #[trigger]
                        func.code_holds(
                            env,
                            start.insts.len() as int,
                            func.insts.len() as int,
                        ) implies carried(*func, env, e, params@, types, abi, k + 1) by {
                        lemma_carried_step(
                            start.insts.len() as int,
                            before,
                            *func,
                            env,
                            e,
                            params@,
                            types,
                            abi,
                            k as int,
                        );
                    }
                }
            }
        } else {
            // Compute the value of the parameter from the ABI arguments that carry it.
            let ghost before_pos = pos;
            let converted = match convert_from_abi(
                func,
                &mut pos,
                entry,
                &mut abi_arg,
                &abi_types,
                arg_type,
            ) {
                Ok(v) => v,
                Err(e) => {
                    proof {
                        start.lemma_grown_twice(
                            before,
                            *func,
                            entry.0 as int,
                            0,
                            before_pos.inst as int,
                            pos.inst - before_pos.inst,
                        );
                        if same {
                            assert(types[k as int] != value_types(abi)[k as int]);
                        }
                    }
                    return Err(e);
                },
            };
            let ghost made = *func;
            // The old parameter is no longer attached, but it may still be used. It stands
            // for the converted value from now on.
            func.change_to_alias(arg, converted);
            proof {
                start.lemma_grown_twice(
                    before,
                    made,
                    e,
                    0,
                    before_pos.inst as int,
                    pos.inst - before_pos.inst,
                );
                made.lemma_preserved_grown(*func, e, pos.inst as int);
                start.lemma_grown_twice(made, *func, e, 0, pos.inst as int, 0);
                before.lemma_grown_twice(
                    made,
                    *func,
                    e,
                    before_pos.inst as int,
                    pos.inst - before_pos.inst,
                    0,
                );
                if same {
                    if types.len() == abi.len() {
                        assert(types[k as int] != value_types(abi)[k as int]);
                    }
                }
                same = false;
                let now = func.blocks@[e].params@;
                assert(now == made.blocks@[e].params@);
                let plan = raising(arg_type, abi, at, before.values.len() as int);
                assert(before.values.len() == start.values.len() + done.types.len());
                assert(start.has_value(arg));
                lemma_entry_put_converted(start, before, made, *func, e, done, plan, arg);
                if before.aliases_end() {
                    before.lemma_aliases_end_aliased(made, *func, arg, converted);
                }
                lemma_entry_plan_step(
                    types,
                    abi,
                    k as int,
                    at,
                    abi_arg as int,
                    params@,
                    start.values.len() as int,
                    done,
                    all,
                );
                done = done.followed_by(
                    param_plan(types[k as int], abi, at, arg, before.values.len() as int),
                );
                assert(done.code.len() == pos.inst);
                lemma_entry_converted(
                    start,
                    before,
                    made,
                    *func,
                    entry,
                    params@,
                    types,
                    abi,
                    k as int,
                    at,
                    abi_arg as int,
                    converted,
                );
                if params@.no_duplicates() {
                    assert forall|env: spec_fn(Value) -> Seq<bool>| #[trigger]
                        func.code_holds(
                            env,
                            start.insts.len() as int,
                            func.insts.len() as int,
                        ) implies carried(*func, env, e, params@, types, abi, k + 1) by {
                        made.lemma_code_holds_kept(
                            *func,
                            env,
                            before.insts.len() as int,
                            made.insts.len() as int,
                            start.insts.len() as int,
                            func.insts.len() as int,
                        );
                        assert(slots_of(env, made.blocks@[e].params@, at, at, abi.len())
                            =~= slots_of(env, now, 0, 0, abi.len()));
                        lemma_carried_step(
                            start.insts.len() as int,
                            before,
                            *func,
                            env,
                            e,
                            params@,
                            types,
                            abi,
                            k as int,
                        );
                    }
                }
            }
        }
        k += 1;
    }
    proof {
        assert(func.blocks@[e].insts.len() - start.blocks@[e].insts.len() == pos.inst);
    }
    if abi_arg != abi_types.len() {
        proof {
            if same {
                assert(types.len() != value_types(abi).len());
            }
        }
        return Err(LegalizeError::AbiArgumentsLeftOver);
    }
    proof {
        assert(func.param_types(entry) =~= value_types(abi));
        let rest = entry_plan(
            types,
            abi,
            k as int,
            abi_arg as int,
            params@,
            start.values.len() + done.types.len(),
        );
        assert(all.code =~= done.code);
        assert(all.types =~= done.types);
        assert(all.params =~= done.params);
        assert(all.aliases =~= done.aliases);
        assert(all == done);
        if same {
            assert(params@.take(k as int) =~= params@);
        }
    }
    Ok(())
}

} // verus!
