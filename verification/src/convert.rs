//! Conversion of a value to the ABI arguments that carry it, and back.

use crate::abi::{
    abi_span, conversion_steps, distance, legalize_abi_value, lemma_step_lowers, step,
    ArgumentType, ValueConversion,
};
use crate::entities::{Ebb, Value};
use crate::error::LegalizeError;
use crate::bits::{lower_bits, raise_bits};
use crate::function::{Cursor, Function, Opcode};
use crate::meaning::{
    bits_of, lemma_lower_halves, lemma_lower_inner, lemma_raise_halves, lemma_raise_inner, slots_of,
};
use crate::plan::{
    lemma_lowering_halves, lemma_lowering_inner, lemma_put_in_nothing, lemma_raising_halves,
    lemma_raising_inner, lowering, new_values, put_in, raising, Step,
};
use crate::types::Type;
use vstd::prelude::*;

verus! {

/// The parameters of block `entry` in `now` are those it has in `was`, followed by one new
/// parameter for each of the ABI arguments `from..to` of `abi`, of that argument's type. The
/// other blocks have the parameters that they had.
pub open spec fn params_extended(
    was: Function,
    now: Function,
    entry: Ebb,
    abi: Seq<ArgumentType>,
    from: int,
    to: int,
) -> bool {
    let before = was.blocks@[entry.0 as int].params@;
    let after = now.blocks@[entry.0 as int].params@;
    &&& 0 <= from <= to <= abi.len()
    &&& after.len() == before.len() + (to - from)
    &&& forall|k: int| 0 <= k < before.len() ==> #[trigger] after[k] == before[k]
    &&& forall|k: int|
        before.len() <= k < after.len() ==> was.values.len() <= (#[trigger] after[k]).0
            < now.values.len() && now.value_type(after[k]) == abi[from + (k - before.len())].value_type
    &&& forall|b: int|
        0 <= b < was.blocks.len() && b != entry.0 ==> (#[trigger] now.blocks@[b]).params@
            == was.blocks@[b].params@
}

/// Extending the parameters for the arguments `from..mid` and then for `mid..to` extends them
/// for `from..to`.
pub proof fn lemma_params_extended_twice(
    was: Function,
    mid: Function,
    now: Function,
    entry: Ebb,
    abi: Seq<ArgumentType>,
    from: int,
    via: int,
    to: int,
)
    requires
        was.stable(mid),
        mid.stable(now),
        params_extended(was, mid, entry, abi, from, via),
        params_extended(mid, now, entry, abi, via, to),
    ensures
        params_extended(was, now, entry, abi, from, to),
{
    let before = was.blocks@[entry.0 as int].params@;
    let between = mid.blocks@[entry.0 as int].params@;
    let after = now.blocks@[entry.0 as int].params@;
    assert forall|k: int| 0 <= k < before.len() implies #[trigger] after[k] == before[k] by {
        assert(after[k] == between[k]);
    }
    assert forall|k: int| before.len() <= k < after.len() implies was.values.len() <= (
    #[trigger] after[k]).0 < now.values.len() && now.value_type(after[k]) == abi[from + (k
        - before.len())].value_type by {
        if k < between.len() {
            assert(after[k] == between[k]);
            assert(now.values@[between[k].0 as int].ty == mid.values@[between[k].0 as int].ty);
        }
    }
    assert forall|b: int| 0 <= b < was.blocks.len() && b != entry.0 implies (
    #[trigger] now.blocks@[b]).params@ == was.blocks@[b].params@ by {
        assert(mid.blocks@[b].params@ == was.blocks@[b].params@);
    }
}

/// Inserting instructions keeps an extension of the parameters.
pub proof fn lemma_params_extended_kept(
    was: Function,
    mid: Function,
    now: Function,
    entry: Ebb,
    abi: Seq<ArgumentType>,
    from: int,
    to: int,
)
    requires
        was.stable(mid),
        mid.stable(now),
        mid.params_kept(now),
        entry.0 < was.blocks.len(),
        params_extended(was, mid, entry, abi, from, to),
    ensures
        params_extended(was, now, entry, abi, from, to),
{
    let before = was.blocks@[entry.0 as int].params@;
    let between = mid.blocks@[entry.0 as int].params@;
    let after = now.blocks@[entry.0 as int].params@;
    assert(after == between);
    assert forall|k: int| before.len() <= k < after.len() implies was.values.len() <= (
    #[trigger] after[k]).0 < now.values.len() && now.value_type(after[k]) == abi[from + (k
        - before.len())].value_type by {
        assert(after[k] == between[k]);
        assert(now.values@[between[k].0 as int].ty == mid.values@[between[k].0 as int].ty);
    }
    assert forall|b: int| 0 <= b < was.blocks.len() && b != entry.0 implies (
    #[trigger] now.blocks@[b]).params@ == was.blocks@[b].params@ by {
        assert(mid.blocks@[b].params@ == was.blocks@[b].params@);
    }
}

/// Computes a value of type `ty` from the ABI arguments of `abi_types` that carry it, the
/// first of which is argument `abi_arg`.
///
/// Each ABI argument used becomes a new parameter of block `entry`, in order, and `abi_arg`
/// moves behind the last of them. Where the next ABI argument has type `ty` it is the value.
/// Otherwise the value is put together by instructions inserted at `pos`: the halves of a
/// split are concatenated, the integer that holds a float's bits is cast back, and an extended
/// integer is reduced to `ty`.
///
/// What is put into the function is [`raising`]: the new parameters, the new instructions in
/// their order, and the value. Whatever bits the values have, if they agree with the new
/// instructions then the bits of the value returned are what the bits of the new parameters
/// [raise](raise_bits) to.
#[verifier::rlimit(40)]
pub fn convert_from_abi(
    func: &mut Function,
    pos: &mut Cursor,
    entry: Ebb,
    abi_arg: &mut usize,
    abi_types: &Vec<ArgumentType>,
    ty: Type,
) -> (r: Result<Value, LegalizeError>)
    requires
        old(func).wf(),
        old(func).insertion_point(old(pos).block as int, old(pos).inst as int),
        entry.0 < old(func).blocks.len(),
    ensures
        final(func).wf(),
        final(pos).block == old(pos).block,
        final(pos).inst >= old(pos).inst,
        old(func).grown(
            *final(func),
            old(pos).block as int,
            old(pos).inst as int,
            final(pos).inst - old(pos).inst,
        ),
        old(func).values_kept(*final(func)),
        match r {
            Ok(v) => {
                &&& abi_span(ty, abi_types@, *old(abi_arg) as int) == Ok::<int, LegalizeError>(
                    *final(abi_arg) as int,
                )
                &&& params_extended(
                    *old(func),
                    *final(func),
                    entry,
                    abi_types@,
                    *old(abi_arg) as int,
                    *final(abi_arg) as int,
                )
                &&& old(func).values.len() <= v.0 < final(func).values.len()
                &&& final(func).value_type(v) == ty
                &&& final(func).values@[v.0 as int].alias is None
                &&& final(func).insts.len() == old(func).insts.len() + conversion_steps(
                    ty,
                    abi_types@,
                    *old(abi_arg) as int,
                )
                &&& final(pos).inst == old(pos).inst + conversion_steps(
                    ty,
                    abi_types@,
                    *old(abi_arg) as int,
                )
                &&& ({
                    let plan = raising(
                        ty,
                        abi_types@,
                        *old(abi_arg) as int,
                        old(func).values.len() as int,
                    );
                    &&& v == plan.result
                    &&& put_in(
                        *old(func),
                        *final(func),
                        old(pos).block as int,
                        old(pos).inst as int,
                        plan.types,
                        plan.code,
                    )
                    &&& final(pos).inst == old(pos).inst + plan.code.len()
                    &&& final(func).blocks@[entry.0 as int].params@ == old(func).blocks@[entry.0 as int].params@
                        + plan.params
                })
                &&& forall|env: spec_fn(Value) -> Seq<bool>| #[trigger]
                    final(func).code_holds(
                        env,
                        old(func).insts.len() as int,
                        final(func).insts.len() as int,
                    ) ==> env(v) == raise_bits(
                        ty,
                        abi_types@,
                        *old(abi_arg) as int,
                        slots_of(
                            env,
                            final(func).blocks@[entry.0 as int].params@,
                            old(func).blocks@[entry.0 as int].params.len() as int,
                            *old(abi_arg) as int,
                            abi_types@.len(),
                        ),
                    )
            },
            Err(e) => abi_span(ty, abi_types@, *old(abi_arg) as int) == Err::<int, LegalizeError>(e),
        },
    decreases distance(ty, abi_types@, *old(abi_arg) as int),
{
    let ghost start = *func;
    let ghost first = *abi_arg as int;
    if *abi_arg >= abi_types.len() {
        return Err(LegalizeError::AbiArgumentsExhausted);
    }
    let arg = abi_types[*abi_arg];
    if ty == arg.value_type {
        // The next ABI argument is the value.
        let v = func.append_ebb_arg(entry, ty);
        *abi_arg = *abi_arg + 1;
        proof {
            start.lemma_preserved_grown(*func, pos.block as int, pos.inst as int);
            assert(func.values@ =~= start.values@ + new_values(seq![ty]));
            assert(func.steps(start.insts.len() as int, func.insts.len() as int)
                =~= Seq::<Step>::empty());
            assert(func.blocks@[entry.0 as int].params@ =~= start.blocks@[entry.0 as int].params@
                + seq![v]);
        }
        return Ok(v);
    }
    // Find out how `ty` was converted into the argument at `abi_arg`, and undo it.
    let conv = match legalize_abi_value(ty, &arg) {
        Ok(conv) => conv,
        Err(e) => {
            return Err(e);
        },
    };
    let to = match conv.apply(ty) {
        Some(to) => to,
        None => {
            return Err(LegalizeError::UnsupportedConversion);
        },
    };
    assert(step(ty, abi_types@[first]) == Ok::<(ValueConversion, Type), LegalizeError>((conv, to)));
    proof {
        lemma_step_lowers(ty, abi_types@, first, first);
    }
    if conv.is_split() {
        let lo = match convert_from_abi(func, pos, entry, abi_arg, abi_types, to) {
            Ok(lo) => lo,
            Err(e) => {
                return Err(e);
            },
        };
        let ghost half = *func;
        let ghost half_pos = *pos;
        let ghost mid = *abi_arg as int;
        proof {
            lemma_step_lowers(ty, abi_types@, first, mid);
        }
        let hi = match convert_from_abi(func, pos, entry, abi_arg, abi_types, to) {
            Ok(hi) => hi,
            Err(e) => {
                proof {
                    start.lemma_grown_twice(
                        half,
                        *func,
                        pos.block as int,
                        old(pos).inst as int,
                        half_pos.inst - old(pos).inst,
                        pos.inst - half_pos.inst,
                    );
                }
                return Err(e);
            },
        };
        let ghost both = *func;
        let ghost both_pos = *pos;
        let opcode = match conv {
            ValueConversion::IntSplit => Opcode::IconcatLohi,
            _ => Opcode::Vconcat,
        };
        let v = func.ins_binary(pos, opcode, ty, lo, hi);
        proof {
            lemma_raising_halves(
                start,
                half,
                both,
                *func,
                pos.block as int,
                old(pos).inst as int,
                entry.0 as int,
                abi_types@,
                ty,
                first,
                mid,
                lo,
                hi,
                v,
            );
            start.lemma_grown_twice(
                half,
                both,
                pos.block as int,
                old(pos).inst as int,
                half_pos.inst - old(pos).inst,
                both_pos.inst - half_pos.inst,
            );
            start.lemma_grown_twice(
                both,
                *func,
                pos.block as int,
                old(pos).inst as int,
                both_pos.inst - old(pos).inst,
                1,
            );
            lemma_params_extended_twice(
                start,
                half,
                both,
                entry,
                abi_types@,
                first,
                mid,
                *abi_arg as int,
            );
            lemma_params_extended_kept(
                start,
                both,
                *func,
                entry,
                abi_types@,
                first,
                *abi_arg as int,
            );
            half.lemma_grown_twice(
                both,
                *func,
                pos.block as int,
                half_pos.inst as int,
                both_pos.inst - half_pos.inst,
                1,
            );
            let e = entry.0 as int;
            let base = start.blocks@[e].params.len() as int;
            let count = abi_types@.len();
            assert forall|env: spec_fn(Value) -> Seq<bool>| #[trigger]
                func.code_holds(env, start.insts.len() as int, func.insts.len() as int) implies env(v)
                == raise_bits(
                ty,
                abi_types@,
                first,
                slots_of(env, func.blocks@[e].params@, base, first, count),
            ) by {
                lemma_raise_halves(
                    start,
                    half,
                    both,
                    *func,
                    env,
                    entry,
                    abi_types@,
                    ty,
                    first,
                    mid,
                    lo,
                    hi,
                    v,
                );
            }
        }
        Ok(v)
    } else {
        let arg = match convert_from_abi(func, pos, entry, abi_arg, abi_types, to) {
            Ok(arg) => arg,
            Err(e) => {
                return Err(e);
            },
        };
        let ghost inner = *func;
        let ghost inner_pos = *pos;
        let opcode = match conv {
            ValueConversion::IntBits => Opcode::Bitcast,
            _ => Opcode::Ireduce,
        };
        let v = func.ins_unary(pos, opcode, ty, arg);
        proof {
            lemma_raising_inner(
                start,
                inner,
                *func,
                pos.block as int,
                old(pos).inst as int,
                entry.0 as int,
                abi_types@,
                ty,
                first,
                arg,
                v,
            );
            start.lemma_grown_twice(
                inner,
                *func,
                pos.block as int,
                old(pos).inst as int,
                inner_pos.inst - old(pos).inst,
                1,
            );
            lemma_params_extended_kept(
                start,
                inner,
                *func,
                entry,
                abi_types@,
                first,
                *abi_arg as int,
            );
            let e = entry.0 as int;
            let base = start.blocks@[e].params.len() as int;
            let count = abi_types@.len();
            assert forall|env: spec_fn(Value) -> Seq<bool>| #[trigger]
                func.code_holds(env, start.insts.len() as int, func.insts.len() as int) implies env(v)
                == raise_bits(
                ty,
                abi_types@,
                first,
                slots_of(env, func.blocks@[e].params@, base, first, count),
            ) by {
                lemma_raise_inner(start, inner, *func, env, entry, abi_types@, ty, first, arg, v);
            }
        }
        Ok(v)
    }
}

/// The operand list of a call or return while its arguments are rewritten: the operands that
/// the opcode fixes, then one slot for each ABI argument of the signature, filled from the
/// front.
#[derive(Debug)]
pub struct ArgSlots {
    /// The operand list: `fixed` operands, then one slot for each entry of `abi_types`.
    pub values: Vec<Value>,
    pub fixed: usize,
    pub abi_types: Vec<ArgumentType>,
    /// The number of slots that are filled.
    pub next: usize,
}

impl ArgSlots {
    /// The list has a slot for each ABI argument, and no more slots are filled than there are.
    pub open spec fn wf(self) -> bool {
        &&& self.values.len() == self.fixed + self.abi_types.len()
        &&& self.next <= self.abi_types.len()
    }

    /// `new` is `self` with the slots from `self.next` up to `new.next` filled with values of
    /// `func` that have the types of their ABI arguments. Nothing else differs.
    pub open spec fn filled(self, new: ArgSlots, func: Function) -> bool {
        &&& new.fixed == self.fixed
        &&& new.abi_types == self.abi_types
        &&& self.next <= new.next <= self.abi_types.len()
        &&& new.values.len() == self.values.len()
        &&& forall|k: int|
            0 <= k < self.values.len() && !(self.fixed + self.next <= k < self.fixed + new.next)
                ==> #[trigger] new.values@[k] == self.values@[k]
        &&& forall|k: int|
            self.fixed + self.next <= k < self.fixed + new.next ==> func.has_value(
                #[trigger] new.values@[k],
            ) && func.value_type(new.values@[k]) == self.abi_types@[k - self.fixed].value_type
    }

    /// Filling some slots and then some more fills them all. The values keep their types in a
    /// function that has grown meanwhile.
    pub proof fn lemma_filled_twice(self, mid: ArgSlots, new: ArgSlots, before: Function, after: Function)
        requires
            self.wf(),
            self.filled(mid, before),
            mid.filled(new, after),
            before.stable(after),
        ensures
            self.filled(new, after),
    {
        assert forall|k: int|
            self.fixed + self.next <= k < self.fixed + new.next implies after.has_value(
            #[trigger] new.values@[k],
        ) && after.value_type(new.values@[k]) == self.abi_types@[k - self.fixed].value_type by {
            if k < self.fixed + mid.next {
                assert(new.values@[k] == mid.values@[k]);
                assert(after.values@[mid.values@[k].0 as int].ty == before.values@[mid.values@[k].0 as int].ty);
            }
        }
    }

    /// Offers `value` for the next slot. A value of the slot's type fills it, and the
    /// answer is `None`. Another value changes nothing, and the answer is the ABI argument
    /// that the slot is for.
    pub fn put_arg(&mut self, func: &Function, value: Value) -> (r: Result<
        Option<ArgumentType>,
        LegalizeError,
    >)
        requires
            old(self).wf(),
            func.has_value(value),
        ensures
            final(self).wf(),
            final(self).fixed == old(self).fixed,
            final(self).abi_types == old(self).abi_types,
            if old(self).next >= old(self).abi_types.len() {
                &&& r == Err::<Option<ArgumentType>, LegalizeError>(
                    LegalizeError::AbiArgumentsExhausted,
                )
                &&& *final(self) == *old(self)
            } else if func.value_type(value) == old(self).abi_types@[old(self).next as int].value_type {
                &&& r == Ok::<Option<ArgumentType>, LegalizeError>(None)
                &&& final(self).next == old(self).next + 1
                &&& final(self).values@ == old(self).values@.update(
                    old(self).fixed + old(self).next,
                    value,
                )
            } else {
                &&& r == Ok::<Option<ArgumentType>, LegalizeError>(
                    Some(old(self).abi_types@[old(self).next as int]),
                )
                &&& *final(self) == *old(self)
            },
    {
        if self.next >= self.abi_types.len() {
            return Err(LegalizeError::AbiArgumentsExhausted);
        }
        let abi_type = self.abi_types[self.next];
        if func.values[value.0].ty == abi_type.value_type {
            // This is the argument type we need.
            let slot: usize = self.fixed + self.next;
            self.values[slot] = value;
            self.next = self.next + 1;
            Ok(None)
        } else {
            // `value` needs to be converted.
            Ok(Some(abi_type))
        }
    }
}

/// Converts `value` to the ABI arguments that carry it and fills the next slots of `slots`
/// with them.
///
/// A value of the next slot's type fills the slot. Another value is converted one step
/// towards the slot's ABI argument by an instruction inserted at `pos`, and what comes out is
/// converted in turn: the halves of a split one after the other, low half first.
///
/// What is put into the function is [`lowering`]: the new instructions in their order, and
/// the values that fill the slots. Whatever bits the values have, if they agree with the new
/// instructions then the bits of the values in the slots that were filled are what the bits
/// of `value` [lower](lower_bits) to.
pub fn convert_to_abi(
    func: &mut Function,
    pos: &mut Cursor,
    value: Value,
    slots: &mut ArgSlots,
) -> (r: Result<(), LegalizeError>)
    requires
        old(func).wf(),
        old(func).insertion_point(old(pos).block as int, old(pos).inst as int),
        old(func).has_value(value),
        old(slots).wf(),
    ensures
        final(func).wf(),
        final(slots).wf(),
        final(pos).block == old(pos).block,
        final(pos).inst >= old(pos).inst,
        old(func).grown(
            *final(func),
            old(pos).block as int,
            old(pos).inst as int,
            final(pos).inst - old(pos).inst,
        ),
        old(func).params_kept(*final(func)),
        old(func).values_kept(*final(func)),
        old(slots).filled(*final(slots), *final(func)),
        match r {
            Ok(_) => {
                &&& abi_span(
                    old(func).value_type(value),
                    old(slots).abi_types@,
                    old(slots).next as int,
                ) == Ok::<int, LegalizeError>(final(slots).next as int)
                &&& final(func).insts.len() == old(func).insts.len() + conversion_steps(
                    old(func).value_type(value),
                    old(slots).abi_types@,
                    old(slots).next as int,
                )
                &&& final(pos).inst == old(pos).inst + conversion_steps(
                    old(func).value_type(value),
                    old(slots).abi_types@,
                    old(slots).next as int,
                )
                &&& ({
                    let plan = lowering(
                        old(func).value_type(value),
                        old(slots).abi_types@,
                        old(slots).next as int,
                        value,
                        old(func).values.len() as int,
                    );
                    &&& put_in(
                        *old(func),
                        *final(func),
                        old(pos).block as int,
                        old(pos).inst as int,
                        plan.types,
                        plan.code,
                    )
                    &&& final(pos).inst == old(pos).inst + plan.code.len()
                    &&& final(slots).values@.subrange(
                        old(slots).fixed + old(slots).next,
                        old(slots).fixed + final(slots).next,
                    ) == plan.slots
                })
                &&& forall|env: spec_fn(Value) -> Seq<bool>| #[trigger]
                    final(func).code_holds(
                        env,
                        old(func).insts.len() as int,
                        final(func).insts.len() as int,
                    ) ==> bits_of(
                        env,
                        final(slots).values@.subrange(
                            old(slots).fixed + old(slots).next,
                            old(slots).fixed + final(slots).next,
                        ),
                    ) == lower_bits(
                        old(func).value_type(value),
                        old(slots).abi_types@,
                        old(slots).next as int,
                        env(value),
                    )
            },
            Err(e) => abi_span(
                old(func).value_type(value),
                old(slots).abi_types@,
                old(slots).next as int,
            ) == Err::<int, LegalizeError>(e),
        },
    decreases distance(old(func).value_type(value), old(slots).abi_types@, old(slots).next as int),
{
    let ghost start = *func;
    let ghost start_slots = *slots;
    let ghost first = slots.next as int;
    let ty = func.values[value.0].ty;
    proof {
        start.lemma_preserved_grown(start, pos.block as int, pos.inst as int);
    }
    // Offer the value as it is: that ends the recursion, or tells the type to aim for.
    let arg_type = match slots.put_arg(func, value) {
        Err(e) => {
            return Err(e);
        },
        Ok(None) => {
            proof {
                let filled = slots.values@.subrange(
                    start_slots.fixed + first,
                    start_slots.fixed + first + 1,
                );
                lemma_put_in_nothing(start, pos.block as int, pos.inst as int);
                assert(filled =~= seq![value]);
                assert forall|env: spec_fn(Value) -> Seq<bool>|
                    true implies bits_of(env, filled) == lower_bits(
                    ty,
                    slots.abi_types@,
                    first,
                    env(value),
                ) by {
                    assert(bits_of(env, filled) =~= seq![env(value)]);
                }
            }
            return Ok(());
        },
        Ok(Some(arg_type)) => arg_type,
    };
    let conv = match legalize_abi_value(ty, &arg_type) {
        Ok(conv) => conv,
        Err(e) => {
            return Err(e);
        },
    };
    let to = match conv.apply(ty) {
        Some(to) => to,
        None => {
            return Err(LegalizeError::UnsupportedConversion);
        },
    };
    assert(step(ty, slots.abi_types@[first]) == Ok::<(ValueConversion, Type), LegalizeError>(
        (conv, to),
    ));
    proof {
        lemma_step_lowers(ty, slots.abi_types@, first, first);
    }
    if conv.is_split() {
        let opcode = match conv {
            ValueConversion::IntSplit => Opcode::IsplitLohi,
            _ => Opcode::Vsplit,
        };
        let (lo, hi) = func.ins_split(pos, opcode, to, value);
        let ghost split = *func;
        let ghost split_pos = *pos;
        let r = convert_to_abi(func, pos, lo, slots);
        let ghost half = *func;
        let ghost half_pos = *pos;
        let ghost half_slots = *slots;
        proof {
            start.lemma_grown_twice(
                split,
                half,
                pos.block as int,
                old(pos).inst as int,
                1,
                half_pos.inst - split_pos.inst,
            );
            start.lemma_params_kept_twice(split, half);
        }
        match r {
            Err(e) => {
                return Err(e);
            },
            Ok(_) => {},
        }
        proof {
            lemma_step_lowers(ty, slots.abi_types@, first, slots.next as int);
        }
        let r = convert_to_abi(func, pos, hi, slots);
        proof {
            start.lemma_grown_twice(
                half,
                *func,
                pos.block as int,
                old(pos).inst as int,
                half_pos.inst - old(pos).inst,
                pos.inst - half_pos.inst,
            );
            start.lemma_params_kept_twice(half, *func);
            start_slots.lemma_filled_twice(half_slots, *slots, half, *func);
            if r is Ok {
                lemma_lowering_halves(
                    start,
                    split,
                    half,
                    *func,
                    pos.block as int,
                    old(pos).inst as int,
                    start_slots.abi_types@,
                    ty,
                    first,
                    half_slots.next as int,
                    slots.next as int,
                    value,
                    lo,
                    hi,
                    start_slots.fixed as int,
                    half_slots.values@,
                    slots.values@,
                );
                split.lemma_grown_twice(
                    half,
                    *func,
                    pos.block as int,
                    split_pos.inst as int,
                    half_pos.inst - split_pos.inst,
                    pos.inst - half_pos.inst,
                );
                let fixed = start_slots.fixed as int;
                let mid = half_slots.next as int;
                let end = slots.next as int;
                let abi = start_slots.abi_types@;
                assert forall|env: spec_fn(Value) -> Seq<bool>| #[trigger]
                    func.code_holds(env, start.insts.len() as int, func.insts.len() as int) implies bits_of(
                    env,
                    slots.values@.subrange(fixed + first, fixed + end),
                ) == lower_bits(ty, abi, first, env(value)) by {
                    lemma_lower_halves(
                        start.insts.len() as int,
                        split,
                        half,
                        *func,
                        env,
                        abi,
                        ty,
                        fixed,
                        first,
                        mid,
                        end,
                        value,
                        lo,
                        hi,
                        half_slots.values@,
                        slots.values@,
                    );
                }
            }
        }
        r
    } else {
        let opcode = match conv {
            ValueConversion::IntBits => Opcode::Bitcast,
            ValueConversion::Sext(_) => Opcode::Sextend,
            _ => Opcode::Uextend,
        };
        let arg = func.ins_unary(pos, opcode, to, value);
        let ghost cast = *func;
        let ghost cast_pos = *pos;
        let r = convert_to_abi(func, pos, arg, slots);
        proof {
            start.lemma_grown_twice(
                cast,
                *func,
                pos.block as int,
                old(pos).inst as int,
                1,
                pos.inst - cast_pos.inst,
            );
            start.lemma_params_kept_twice(cast, *func);
            if r is Ok {
                lemma_lowering_inner(
                    start,
                    cast,
                    *func,
                    pos.block as int,
                    old(pos).inst as int,
                    start_slots.abi_types@,
                    ty,
                    first,
                    value,
                    arg,
                    slots.values@.subrange(
                        start_slots.fixed + first,
                        start_slots.fixed + slots.next,
                    ),
                );
                let fixed = start_slots.fixed as int;
                let end = slots.next as int;
                let abi = start_slots.abi_types@;
                assert forall|env: spec_fn(Value) -> Seq<bool>| #[trigger]
                    func.code_holds(env, start.insts.len() as int, func.insts.len() as int) implies bits_of(
                    env,
                    slots.values@.subrange(fixed + first, fixed + end),
                ) == lower_bits(ty, abi, first, env(value)) by {
                    lemma_lower_inner(
                        start.insts.len() as int,
                        cast,
                        *func,
                        env,
                        abi,
                        ty,
                        first,
                        value,
                        arg,
                        slots.values@.subrange(fixed + first, fixed + end),
                    );
                }
            }
        }
        r
    }
}

} // verus!
