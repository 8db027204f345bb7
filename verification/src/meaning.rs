//! What the conversion instructions compute, as equations between the bits of their operands
//! and results.

use crate::abi::{
    abi_span, distance, lemma_span_grows, lemma_step_lowers, step, ArgumentType, ValueConversion,
};
use crate::abi::args_span;
use crate::bits::{
    arg_start, extend, lemma_args_round_trip, lower_args, lower_bits, raise_bits, valid_types,
};
use crate::entities::{Ebb, Value};
use crate::error::LegalizeError;
use crate::function::{Function, Opcode};
use crate::types::Type;
use vstd::prelude::*;

verus! {

/// The bits of each value of a list, in order.
pub open spec fn bits_of(env: spec_fn(Value) -> Seq<bool>, values: Seq<Value>) -> Seq<Seq<bool>> {
    Seq::new(values.len(), |i: int| env(values[i]))
}

/// The bits of the ABI arguments of a list of `count` arguments, where the value of argument
/// `j` is parameter `base + (j - from)` of `params`.
pub open spec fn slots_of(
    env: spec_fn(Value) -> Seq<bool>,
    params: Seq<Value>,
    base: int,
    from: int,
    count: nat,
) -> Seq<Seq<bool>> {
    Seq::new(count, |j: int| env(params[base + (j - from)]))
}

impl Function {
    /// The value bits `env` agree with what instruction `i` computes, if it is one of the
    /// conversion instructions: the results are what the opcode makes of the operands.
    /// Nothing is asked of another instruction.
    pub open spec fn inst_holds(self, env: spec_fn(Value) -> Seq<bool>, i: int) -> bool {
        let data = self.insts@[i];
        let a = data.args@;
        let r = data.results@;
        match data.opcode {
            Opcode::IsplitLohi | Opcode::Vsplit => a.len() == 1 && r.len() == 2 ==> {
                let half = self.value_type(r[0]).spec_bits() as int;
                &&& env(r[0]) == env(a[0]).subrange(0, half)
                &&& env(r[1]) == env(a[0]).subrange(half, env(a[0]).len() as int)
            },
            Opcode::IconcatLohi | Opcode::Vconcat => a.len() == 2 && r.len() == 1 ==> env(r[0])
                == env(a[0]) + env(a[1]),
            Opcode::Bitcast => a.len() == 1 && r.len() == 1 ==> env(r[0]) == env(a[0]),
            Opcode::Sextend => a.len() == 1 && r.len() == 1 ==> env(r[0]) == extend(
                env(a[0]),
                self.value_type(r[0]).spec_bits() as int,
                true,
            ),
            Opcode::Uextend => a.len() == 1 && r.len() == 1 ==> env(r[0]) == extend(
                env(a[0]),
                self.value_type(r[0]).spec_bits() as int,
                false,
            ),
            Opcode::Ireduce => a.len() == 1 && r.len() == 1 ==> env(r[0]) == env(a[0]).subrange(
                0,
                self.value_type(r[0]).spec_bits() as int,
            ),
            _ => true,
        }
    }

    /// The value bits `env` agree with what the instructions numbered `from..to` compute.
    pub open spec fn code_holds(self, env: spec_fn(Value) -> Seq<bool>, from: int, to: int) -> bool {
        forall|i: int| from <= i < to ==> #[trigger] self.inst_holds(env, i)
    }

    /// Value bits that agree with instructions of `new` agree with those of them that `self`
    /// has unchanged.
    pub proof fn lemma_code_holds_kept(
        self,
        new: Function,
        env: spec_fn(Value) -> Seq<bool>,
        from: int,
        to: int,
        new_from: int,
        new_to: int,
    )
        requires
            self.wf(),
            self.stable(new),
            forall|i: int| from <= i < to ==> #[trigger] new.insts@[i] == self.insts@[i],
            0 <= new_from <= from,
            to <= new_to,
            to <= self.insts.len(),
            new.code_holds(env, new_from, new_to),
        ensures
            self.code_holds(env, from, to),
    {
        assert forall|i: int| from <= i < to implies #[trigger] self.inst_holds(env, i) by {
            assert(new.inst_holds(env, i));
            assert(new.insts@[i] == self.insts@[i]);
            assert(self.inst_ok(self.insts@[i]));
            let r = self.insts@[i].results@;
            if r.len() > 0 {
                assert(r[0].0 < self.values.len());
                assert(new.values@[r[0].0 as int].ty == self.values@[r[0].0 as int].ty);
            }
        }
    }
}

/// The value that is computed back from ABI arguments depends on the arguments that carry it
/// only.
pub proof fn lemma_raise_local(
    ty: Type,
    abi: Seq<ArgumentType>,
    at: int,
    slots: Seq<Seq<bool>>,
    other: Seq<Seq<bool>>,
)
    requires
        abi_span(ty, abi, at) is Ok,
        forall|j: int| at <= j < abi_span(ty, abi, at)->Ok_0 ==> #[trigger] slots[j] == other[j],
    ensures
        raise_bits(ty, abi, at, slots) == raise_bits(ty, abi, at, other),
    decreases distance(ty, abi, at),
{
    if abi[at].value_type != ty {
        let (conv, to) = step(ty, abi[at])->Ok_0;
        lemma_step_lowers(ty, abi, at, at);
        match conv {
            ValueConversion::IntSplit | ValueConversion::VectorSplit => {
                let mid = abi_span(to, abi, at)->Ok_0;
                lemma_step_lowers(ty, abi, at, mid);
                lemma_span_grows(to, abi, at);
                lemma_span_grows(to, abi, mid);
                lemma_raise_local(to, abi, at, slots, other);
                lemma_raise_local(to, abi, mid, slots, other);
            },
            _ => {
                lemma_raise_local(to, abi, at, slots, other);
            },
        }
    }
}

/// The value concatenated from two halves that are computed back from ABI arguments is
/// what the arguments of both carry.
pub proof fn lemma_raise_halves(
    start: Function,
    half: Function,
    both: Function,
    fin: Function,
    env: spec_fn(Value) -> Seq<bool>,
    entry: Ebb,
    abi: Seq<ArgumentType>,
    ty: Type,
    first: int,
    mid: int,
    lo: Value,
    hi: Value,
    v: Value,
)
    requires
        half.wf(),
        both.wf(),
        half.stable(fin),
        half.insts_kept(fin),
        both.stable(fin),
        both.insts_kept(fin),
        start.insts.len() <= half.insts.len() <= both.insts.len(),
        fin.insts.len() == both.insts.len() + 1,
        fin.code_holds(env, start.insts.len() as int, fin.insts.len() as int),
        0 <= first < abi.len(),
        abi[first].value_type != ty,
        step(ty, abi[first]) is Ok,
        step(ty, abi[first])->Ok_0.0.spec_is_split(),
        abi_span(step(ty, abi[first])->Ok_0.1, abi, first) == Ok::<int, LegalizeError>(mid),
        abi_span(step(ty, abi[first])->Ok_0.1, abi, mid) is Ok,
        half.code_holds(env, start.insts.len() as int, half.insts.len() as int) ==> env(lo)
            == raise_bits(
            step(ty, abi[first])->Ok_0.1,
            abi,
            first,
            slots_of(
                env,
                half.blocks@[entry.0 as int].params@,
                start.blocks@[entry.0 as int].params.len() as int,
                first,
                abi.len(),
            ),
        ),
        both.code_holds(env, half.insts.len() as int, both.insts.len() as int) ==> env(hi)
            == raise_bits(
            step(ty, abi[first])->Ok_0.1,
            abi,
            mid,
            slots_of(
                env,
                both.blocks@[entry.0 as int].params@,
                half.blocks@[entry.0 as int].params.len() as int,
                mid,
                abi.len(),
            ),
        ),
        half.blocks@[entry.0 as int].params.len() == start.blocks@[entry.0 as int].params.len() + (mid
            - first),
        half.blocks@[entry.0 as int].params.len() <= both.blocks@[entry.0 as int].params.len(),
        forall|k: int|
            0 <= k < half.blocks@[entry.0 as int].params.len()
                ==> #[trigger] both.blocks@[entry.0 as int].params@[k]
                == half.blocks@[entry.0 as int].params@[k],
        fin.blocks@[entry.0 as int].params@ == both.blocks@[entry.0 as int].params@,
        fin.insts@[both.insts.len() as int].opcode == Opcode::IconcatLohi
            || fin.insts@[both.insts.len() as int].opcode == Opcode::Vconcat,
        fin.insts@[both.insts.len() as int].args@ == seq![lo, hi],
        fin.insts@[both.insts.len() as int].results@ == seq![v],
    ensures
        env(v) == raise_bits(
            ty,
            abi,
            first,
            slots_of(
                env,
                fin.blocks@[entry.0 as int].params@,
                start.blocks@[entry.0 as int].params.len() as int,
                first,
                abi.len(),
            ),
        ),
{
    let e = entry.0 as int;
    let to = step(ty, abi[first])->Ok_0.1;
    let base = start.blocks@[e].params.len() as int;
    half.lemma_code_holds_kept(
        fin,
        env,
        start.insts.len() as int,
        half.insts.len() as int,
        start.insts.len() as int,
        fin.insts.len() as int,
    );
    both.lemma_code_holds_kept(
        fin,
        env,
        half.insts.len() as int,
        both.insts.len() as int,
        start.insts.len() as int,
        fin.insts.len() as int,
    );
    let slots = slots_of(env, fin.blocks@[e].params@, base, first, abi.len());
    let lo_slots = slots_of(env, half.blocks@[e].params@, base, first, abi.len());
    let hi_slots = slots_of(
        env,
        both.blocks@[e].params@,
        half.blocks@[e].params.len() as int,
        mid,
        abi.len(),
    );
    lemma_span_grows(to, abi, first);
    assert forall|j: int| first <= j < mid implies #[trigger] lo_slots[j] == slots[j] by {
        assert(both.blocks@[e].params@[base + (j - first)] == half.blocks@[e].params@[base + (j
            - first)]);
    }
    lemma_raise_local(to, abi, first, lo_slots, slots);
    assert(hi_slots =~= slots);
    assert(fin.inst_holds(env, both.insts.len() as int));
    lemma_step_lowers(ty, abi, first, first);
}

/// The value cast or reduced from a value that is computed back from ABI arguments is what
/// the arguments carry.
pub proof fn lemma_raise_inner(
    start: Function,
    inner: Function,
    fin: Function,
    env: spec_fn(Value) -> Seq<bool>,
    entry: Ebb,
    abi: Seq<ArgumentType>,
    ty: Type,
    first: int,
    arg: Value,
    v: Value,
)
    requires
        inner.wf(),
        inner.stable(fin),
        inner.insts_kept(fin),
        start.insts.len() <= inner.insts.len(),
        fin.insts.len() == inner.insts.len() + 1,
        fin.code_holds(env, start.insts.len() as int, fin.insts.len() as int),
        0 <= first < abi.len(),
        abi[first].value_type != ty,
        step(ty, abi[first]) is Ok,
        !step(ty, abi[first])->Ok_0.0.spec_is_split(),
        inner.code_holds(env, start.insts.len() as int, inner.insts.len() as int) ==> env(arg)
            == raise_bits(
            step(ty, abi[first])->Ok_0.1,
            abi,
            first,
            slots_of(
                env,
                inner.blocks@[entry.0 as int].params@,
                start.blocks@[entry.0 as int].params.len() as int,
                first,
                abi.len(),
            ),
        ),
        fin.blocks@[entry.0 as int].params@ == inner.blocks@[entry.0 as int].params@,
        fin.insts@[inner.insts.len() as int].opcode == if step(ty, abi[first])->Ok_0.0
            == ValueConversion::IntBits {
            Opcode::Bitcast
        } else {
            Opcode::Ireduce
        },
        fin.insts@[inner.insts.len() as int].args@ == seq![arg],
        fin.insts@[inner.insts.len() as int].results@ == seq![v],
        fin.value_type(v) == ty,
    ensures
        env(v) == raise_bits(
            ty,
            abi,
            first,
            slots_of(
                env,
                fin.blocks@[entry.0 as int].params@,
                start.blocks@[entry.0 as int].params.len() as int,
                first,
                abi.len(),
            ),
        ),
{
    inner.lemma_code_holds_kept(
        fin,
        env,
        start.insts.len() as int,
        inner.insts.len() as int,
        start.insts.len() as int,
        fin.insts.len() as int,
    );
    assert(fin.inst_holds(env, inner.insts.len() as int));
    lemma_step_lowers(ty, abi, first, first);
}

/// The ABI values that the halves of a split value are converted to are what the value
/// lowers to.
pub proof fn lemma_lower_halves(
    start_len: int,
    split: Function,
    half: Function,
    fin: Function,
    env: spec_fn(Value) -> Seq<bool>,
    abi: Seq<ArgumentType>,
    ty: Type,
    fixed: int,
    first: int,
    mid: int,
    end: int,
    value: Value,
    lo: Value,
    hi: Value,
    half_values: Seq<Value>,
    fin_values: Seq<Value>,
)
    requires
        split.wf(),
        half.wf(),
        split.stable(fin),
        split.insts_kept(fin),
        half.stable(fin),
        half.insts_kept(fin),
        0 <= start_len,
        split.insts.len() == start_len + 1,
        split.insts.len() <= half.insts.len() <= fin.insts.len(),
        fin.code_holds(env, start_len, fin.insts.len() as int),
        0 <= first < abi.len(),
        abi[first].value_type != ty,
        step(ty, abi[first]) is Ok,
        step(ty, abi[first])->Ok_0.0.spec_is_split(),
        abi_span(step(ty, abi[first])->Ok_0.1, abi, first) == Ok::<int, LegalizeError>(mid),
        split.insts@[start_len].opcode == Opcode::IsplitLohi || split.insts@[start_len].opcode
            == Opcode::Vsplit,
        split.insts@[start_len].args@ == seq![value],
        split.insts@[start_len].results@ == seq![lo, hi],
        split.value_type(lo) == step(ty, abi[first])->Ok_0.1,
        half.code_holds(env, split.insts.len() as int, half.insts.len() as int) ==> bits_of(
            env,
            half_values.subrange(fixed + first, fixed + mid),
        ) == lower_bits(step(ty, abi[first])->Ok_0.1, abi, first, env(lo)),
        fin.code_holds(env, half.insts.len() as int, fin.insts.len() as int) ==> bits_of(
            env,
            fin_values.subrange(fixed + mid, fixed + end),
        ) == lower_bits(step(ty, abi[first])->Ok_0.1, abi, mid, env(hi)),
        0 <= fixed,
        first <= mid <= end,
        fixed + end <= fin_values.len(),
        fin_values.len() == half_values.len(),
        forall|k: int|
            fixed + first <= k < fixed + mid ==> #[trigger] fin_values[k] == half_values[k],
    ensures
        bits_of(env, fin_values.subrange(fixed + first, fixed + end)) == lower_bits(
            ty,
            abi,
            first,
            env(value),
        ),
{
    let to = step(ty, abi[first])->Ok_0.1;
    split.lemma_code_holds_kept(
        fin,
        env,
        start_len,
        split.insts.len() as int,
        start_len,
        fin.insts.len() as int,
    );
    half.lemma_code_holds_kept(
        fin,
        env,
        split.insts.len() as int,
        half.insts.len() as int,
        start_len,
        fin.insts.len() as int,
    );
    assert(fin.code_holds(env, half.insts.len() as int, fin.insts.len() as int));
    assert(split.inst_holds(env, start_len));
    let x = env(value);
    let h = to.spec_bits() as int;
    let lows = bits_of(env, half_values.subrange(fixed + first, fixed + mid));
    let highs = bits_of(env, fin_values.subrange(fixed + mid, fixed + end));
    assert(lows == lower_bits(to, abi, first, x.subrange(0, h)));
    assert(highs == lower_bits(to, abi, mid, x.subrange(h, x.len() as int)));
    let all = bits_of(env, fin_values.subrange(fixed + first, fixed + end));
    assert(all =~= lows + highs) by {
        assert forall|k: int| 0 <= k < mid - first implies all[k] == lows[k] by {
            assert(fin_values[fixed + first + k] == half_values[fixed + first + k]);
        }
    }
    lemma_step_lowers(ty, abi, first, first);
}

/// The ABI values that a cast or extended value is converted to are what the value lowers
/// to.
pub proof fn lemma_lower_inner(
    start_len: int,
    cast: Function,
    fin: Function,
    env: spec_fn(Value) -> Seq<bool>,
    abi: Seq<ArgumentType>,
    ty: Type,
    first: int,
    value: Value,
    arg: Value,
    filled: Seq<Value>,
)
    requires
        cast.wf(),
        cast.stable(fin),
        cast.insts_kept(fin),
        0 <= start_len,
        cast.insts.len() == start_len + 1,
        cast.insts.len() <= fin.insts.len(),
        fin.code_holds(env, start_len, fin.insts.len() as int),
        0 <= first < abi.len(),
        abi[first].value_type != ty,
        step(ty, abi[first]) is Ok,
        !step(ty, abi[first])->Ok_0.0.spec_is_split(),
        cast.insts@[start_len].opcode == match step(ty, abi[first])->Ok_0.0 {
            ValueConversion::IntBits => Opcode::Bitcast,
            ValueConversion::Sext(_) => Opcode::Sextend,
            _ => Opcode::Uextend,
        },
        cast.insts@[start_len].args@ == seq![value],
        cast.insts@[start_len].results@ == seq![arg],
        cast.value_type(arg) == step(ty, abi[first])->Ok_0.1,
        fin.code_holds(env, cast.insts.len() as int, fin.insts.len() as int) ==> bits_of(
            env,
            filled,
        ) == lower_bits(step(ty, abi[first])->Ok_0.1, abi, first, env(arg)),
    ensures
        bits_of(env, filled) == lower_bits(ty, abi, first, env(value)),
{
    cast.lemma_code_holds_kept(
        fin,
        env,
        start_len,
        cast.insts.len() as int,
        start_len,
        fin.insts.len() as int,
    );
    assert(fin.code_holds(env, cast.insts.len() as int, fin.insts.len() as int));
    assert(cast.inst_holds(env, start_len));
    lemma_step_lowers(ty, abi, first, first);
}

/// One more value converted: what the slots filled so far hold, followed by what the values
/// still to convert lower to, stays what all the values lower to.
pub proof fn lemma_lower_args_step(
    start_len: int,
    before: Function,
    after: Function,
    env: spec_fn(Value) -> Seq<bool>,
    types: Seq<Type>,
    abi: Seq<ArgumentType>,
    xs: Seq<Seq<bool>>,
    k: int,
    fixed: int,
    at: int,
    next: int,
    value: Value,
    before_values: Seq<Value>,
    after_values: Seq<Value>,
)
    requires
        before.wf(),
        before.stable(after),
        before.insts_kept(after),
        0 <= start_len <= before.insts.len() <= after.insts.len(),
        after.code_holds(env, start_len, after.insts.len() as int),
        0 <= k < types.len(),
        0 <= fixed,
        0 <= at <= next,
        fixed + next <= after_values.len(),
        after_values.len() == before_values.len(),
        forall|j: int| fixed <= j < fixed + at ==> #[trigger] after_values[j] == before_values[j],
        abi_span(types[k], abi, at) == Ok::<int, LegalizeError>(next),
        env(value) == xs[k],
        before.code_holds(env, start_len, before.insts.len() as int) ==> bits_of(
            env,
            before_values.subrange(fixed, fixed + at),
        ) + lower_args(types, abi, k, at, xs) == lower_args(types, abi, 0, 0, xs),
        after.code_holds(env, before.insts.len() as int, after.insts.len() as int) ==> bits_of(
            env,
            after_values.subrange(fixed + at, fixed + next),
        ) == lower_bits(types[k], abi, at, env(value)),
    ensures
        bits_of(env, after_values.subrange(fixed, fixed + next)) + lower_args(
            types,
            abi,
            k + 1,
            next,
            xs,
        ) == lower_args(types, abi, 0, 0, xs),
{
    before.lemma_code_holds_kept(
        after,
        env,
        start_len,
        before.insts.len() as int,
        start_len,
        after.insts.len() as int,
    );
    assert(after.code_holds(env, before.insts.len() as int, after.insts.len() as int));
    let done = bits_of(env, before_values.subrange(fixed, fixed + at));
    let made = bits_of(env, after_values.subrange(fixed + at, fixed + next));
    let all = bits_of(env, after_values.subrange(fixed, fixed + next));
    assert(all =~= done + made) by {
        assert forall|j: int| 0 <= j < at implies all[j] == done[j] by {
            assert(after_values[fixed + j] == before_values[fixed + j]);
        }
    }
    let rest = lower_args(types, abi, k + 1, next, xs);
    assert(lower_args(types, abi, k, at, xs) == made + rest);
    assert((done + made) + rest =~= done + (made + rest));
}

/// True when parameter number `k` of a list of parameters of the types `types` has the type
/// of the ABI argument at which its turn comes, so that it can stand for that argument.
pub open spec fn stays(types: Seq<Type>, abi: Seq<ArgumentType>, k: int) -> bool {
    let at = arg_start(types, abi, k);
    0 <= at < abi.len() && types[k] == abi[at].value_type
}

/// The value that holds what the old parameter `p` held: the parameter itself where it
/// stays, and otherwise the value that it is an alias of.
pub open spec fn carrier(func: Function, p: Value, stays: bool) -> Value {
    if stays {
        p
    } else {
        match func.values@[p.0 as int].alias {
            Some(to) => to,
            None => p,
        }
    }
}

/// For each of the first `k` of the old parameters `params` of block `e`, the value that holds
/// what it held is computed back from the parameters that the block has now, which are the
/// ABI arguments.
pub open spec fn carried(
    func: Function,
    env: spec_fn(Value) -> Seq<bool>,
    e: int,
    params: Seq<Value>,
    types: Seq<Type>,
    abi: Seq<ArgumentType>,
    k: int,
) -> bool {
    forall|j: int|
        0 <= j < k ==> env(#[trigger] carrier(func, params[j], stays(types, abi, j)))
            == raise_bits(
            types[j],
            abi,
            arg_start(types, abi, j),
            slots_of(env, func.blocks@[e].params@, 0, 0, abi.len()),
        )
}

/// The ABI arguments can carry parameter number `k` from where its turn comes.
pub open spec fn turn_ok(types: Seq<Type>, abi: Seq<ArgumentType>, k: int) -> bool {
    abi_span(types[k], abi, arg_start(types, abi, k)) is Ok
}

/// The turns of the parameters come in order.
pub proof fn lemma_starts_in_order(types: Seq<Type>, abi: Seq<ArgumentType>, j: int, k: int)
    requires
        0 <= j <= k,
        forall|i: int| 0 <= i < k ==> #[trigger] turn_ok(types, abi, i),
    ensures
        0 <= arg_start(types, abi, j) <= arg_start(types, abi, k),
    decreases k - j,
{
    if j < k {
        lemma_starts_in_order(types, abi, j + 1, k);
        assert(turn_ok(types, abi, j));
        lemma_span_grows(types[j], abi, arg_start(types, abi, j));
    } else {
        lemma_start_not_negative(types, abi, j);
    }
}

/// No turn comes before the first argument.
pub proof fn lemma_start_not_negative(types: Seq<Type>, abi: Seq<ArgumentType>, k: int)
    ensures
        0 <= arg_start(types, abi, k),
    decreases k,
{
    if k > 0 {
        lemma_start_not_negative(types, abi, k - 1);
        let at = arg_start(types, abi, k - 1);
        if abi_span(types[k - 1], abi, at) is Ok {
            lemma_span_grows(types[k - 1], abi, at);
        }
    }
}

/// One more parameter gone through: what held of the parameters before it still holds, and
/// holds of it.
pub proof fn lemma_carried_step(
    start_len: int,
    before: Function,
    after: Function,
    env: spec_fn(Value) -> Seq<bool>,
    e: int,
    params: Seq<Value>,
    types: Seq<Type>,
    abi: Seq<ArgumentType>,
    k: int,
)
    requires
        before.wf(),
        before.stable(after),
        before.insts_kept(after),
        0 <= start_len <= before.insts.len() <= after.insts.len(),
        after.code_holds(env, start_len, after.insts.len() as int),
        before.code_holds(env, start_len, before.insts.len() as int) ==> carried(
            before,
            env,
            e,
            params,
            types,
            abi,
            k,
        ),
        0 <= k < params.len(),
        params.len() == types.len(),
        forall|i: int| 0 <= i <= k ==> #[trigger] turn_ok(types, abi, i),
        before.blocks@[e].params.len() == arg_start(types, abi, k),
        before.blocks@[e].params.len() <= after.blocks@[e].params.len(),
        forall|i: int|
            0 <= i < before.blocks@[e].params.len() ==> #[trigger] after.blocks@[e].params@[i]
                == before.blocks@[e].params@[i],
        forall|j: int|
            0 <= j < k ==> #[trigger] carrier(after, params[j], stays(types, abi, j)) == carrier(
                before,
                params[j],
                stays(types, abi, j),
            ),
        env(carrier(after, params[k], stays(types, abi, k))) == raise_bits(
            types[k],
            abi,
            arg_start(types, abi, k),
            slots_of(env, after.blocks@[e].params@, 0, 0, abi.len()),
        ),
    ensures
        carried(after, env, e, params, types, abi, k + 1),
{
    before.lemma_code_holds_kept(
        after,
        env,
        start_len,
        before.insts.len() as int,
        start_len,
        after.insts.len() as int,
    );
    let old_slots = slots_of(env, before.blocks@[e].params@, 0, 0, abi.len());
    let new_slots = slots_of(env, after.blocks@[e].params@, 0, 0, abi.len());
    assert forall|j: int| 0 <= j < k + 1 implies env(
        #[trigger] carrier(after, params[j], stays(types, abi, j)),
    ) == raise_bits(types[j], abi, arg_start(types, abi, j), new_slots) by {
        if j < k {
            let at = arg_start(types, abi, j);
            assert(turn_ok(types, abi, j));
            assert(carrier(after, params[j], stays(types, abi, j)) == carrier(
                before,
                params[j],
                stays(types, abi, j),
            ));
            let end = abi_span(types[j], abi, at)->Ok_0;
            assert(end == arg_start(types, abi, j + 1));
            lemma_starts_in_order(types, abi, j + 1, k);
            lemma_start_not_negative(types, abi, j);
            lemma_span_grows(types[j], abi, at);
            assert forall|i: int| at <= i < end implies #[trigger] old_slots[i]
                == new_slots[i] by {
                assert(after.blocks@[e].params@[i] == before.blocks@[e].params@[i]);
            }
            lemma_raise_local(types[j], abi, at, old_slots, new_slots);
        }
    }
}

/// What a caller passes arrives in the function that is called.
///
/// Let a call have arguments of the types `types` with the bits `xs`, and let it be rewritten
/// for the ABI arguments `abi`, so that the new arguments hold what `xs`
/// [lowers](lower_args) to. Let the function that is called have had parameters `params` of
/// the types `types`, and let its entry block `e` be rewritten for `abi`, so that the values
/// that hold what the old parameters held are [carried](carried) by the new parameters. If
/// each new parameter gets the bits of the new argument at its place, then the value that
/// holds what old parameter `k` held gets the bits of old argument `k`.
pub proof fn lemma_arguments_arrive(
    callee: Function,
    env: spec_fn(Value) -> Seq<bool>,
    e: int,
    params: Seq<Value>,
    types: Seq<Type>,
    abi: Seq<ArgumentType>,
    xs: Seq<Seq<bool>>,
    k: int,
)
    requires
        0 <= k < params.len(),
        params.len() == types.len(),
        xs.len() == types.len(),
        forall|i: int| 0 <= i < types.len() ==> (#[trigger] types[i]).valid(),
        valid_types(abi),
        xs[k].len() == types[k].spec_bits(),
        args_span(types, abi, 0, 0) is Ok,
        carried(callee, env, e, params, types, abi, params.len() as int),
        slots_of(env, callee.blocks@[e].params@, 0, 0, abi.len()) == lower_args(
            types,
            abi,
            0,
            0,
            xs,
        ),
    ensures
        env(carrier(callee, params[k], stays(types, abi, k))) == xs[k],
{
    lemma_args_round_trip(types, abi, xs, lower_args(types, abi, 0, 0, xs), k);
    assert(env(carrier(callee, params[k], stays(types, abi, k))) == raise_bits(
        types[k],
        abi,
        arg_start(types, abi, k),
        slots_of(env, callee.blocks@[e].params@, 0, 0, abi.len()),
    ));
}

} // verus!
