//! What a conversion puts into a function: the instructions, the values and where they go.

use crate::abi::{abi_span, distance, lemma_step_lowers, step, ArgumentType, ValueConversion};
use crate::entities::{Inst, Value};
use crate::error::LegalizeError;
use crate::function::{CallTarget, Function, InstructionData, Opcode, ValueData};
use crate::types::Type;
use vstd::prelude::*;

verus! {

/// An instruction as it is read: opcode, operands, call target and results.
pub struct Step {
    pub opcode: Opcode,
    pub args: Seq<Value>,
    pub target: CallTarget,
    pub results: Seq<Value>,
}

/// The instruction as it is read.
pub open spec fn step_of(data: InstructionData) -> Step {
    Step { opcode: data.opcode, args: data.args@, target: data.target, results: data.results@ }
}

/// New values of the given types: none is an alias.
pub open spec fn new_values(types: Seq<Type>) -> Seq<ValueData> {
    Seq::new(types.len(), |i: int| ValueData { ty: types[i], alias: None })
}

impl Function {
    /// The instructions numbered `from..to`, as they are read.
    pub open spec fn steps(self, from: int, to: int) -> Seq<Step> {
        Seq::new((to - from) as nat, |i: int| step_of(self.insts@[from + i]))
    }

    /// The `n` instructions of block `b` from instruction `at` on are the instructions
    /// numbered from `first` on, in order.
    pub open spec fn numbered(self, b: int, at: int, n: int, first: int) -> bool {
        forall|k: int| at <= k < at + n ==> (#[trigger] self.inst_at(b, k)).0 == first + (k - at)
    }
}

/// The opcode of the instruction that applies a conversion to a value.
pub open spec fn lower_opcode(conv: ValueConversion) -> Opcode {
    match conv {
        ValueConversion::IntSplit => Opcode::IsplitLohi,
        ValueConversion::VectorSplit => Opcode::Vsplit,
        ValueConversion::IntBits => Opcode::Bitcast,
        ValueConversion::Sext(_) => Opcode::Sextend,
        ValueConversion::Uext(_) => Opcode::Uextend,
    }
}

/// The opcode of the instruction that undoes a conversion.
pub open spec fn raise_opcode(conv: ValueConversion) -> Opcode {
    match conv {
        ValueConversion::IntSplit => Opcode::IconcatLohi,
        ValueConversion::VectorSplit => Opcode::Vconcat,
        ValueConversion::IntBits => Opcode::Bitcast,
        ValueConversion::Sext(_) => Opcode::Ireduce,
        ValueConversion::Uext(_) => Opcode::Ireduce,
    }
}

/// `new` is `old` with new values of the types `types`, numbered in order behind the values
/// of `old`, and with the new instructions `code`, numbered in order behind the instructions
/// of `old` and standing in this order in block `b` from instruction `at` on.
pub open spec fn put_in(
    was: Function,
    now: Function,
    b: int,
    at: int,
    types: Seq<Type>,
    code: Seq<Step>,
) -> bool {
    &&& now.values@ == was.values@ + new_values(types)
    &&& code_put_in(was, now, b, at, code)
}

/// `now` has the new instructions `code`, numbered in order behind the instructions of `was`
/// and standing in this order in block `b` from instruction `at` on.
pub open spec fn code_put_in(was: Function, now: Function, b: int, at: int, code: Seq<Step>) -> bool {
    &&& now.insts.len() == was.insts.len() + code.len()
    &&& now.steps(was.insts.len() as int, now.insts.len() as int) == code
    &&& now.numbered(b, at, code.len() as int, was.insts.len() as int)
}

/// Something else changed, and the code that was put in is kept.
pub proof fn lemma_code_kept(
    was: Function,
    mid: Function,
    now: Function,
    b: int,
    at: int,
    code: Seq<Step>,
)
    requires
        code_put_in(was, mid, b, at, code),
        now.insts.len() == mid.insts.len(),
        forall|i: int| was.insts.len() <= i < mid.insts.len() ==> #[trigger] now.insts@[i] == mid.insts@[i],
        forall|k: int| at <= k < at + code.len() ==> #[trigger] now.inst_at(b, k) == mid.inst_at(b, k),
    ensures
        code_put_in(was, now, b, at, code),
{
    let first = was.insts.len() as int;
    assert(now.steps(first, now.insts.len() as int) =~= code) by {
        assert forall|i: int| 0 <= i < code.len() implies now.steps(first, now.insts.len() as int)[i]
            == code[i] by {
            assert(now.insts@[first + i] == mid.insts@[first + i]);
            assert(mid.steps(first, mid.insts.len() as int)[i] == code[i]);
        }
    }
    assert forall|k: int| at <= k < at + code.len() implies (#[trigger] now.inst_at(b, k)).0
        == first + (k - at) by {
        assert(now.inst_at(b, k) == mid.inst_at(b, k));
    }
}

/// Putting code in twice, the second time behind what was put in first, is putting in both.
pub proof fn lemma_code_twice(
    was: Function,
    mid: Function,
    now: Function,
    b: int,
    at: int,
    code: Seq<Step>,
    more_code: Seq<Step>,
)
    requires
        0 <= at,
        code_put_in(was, mid, b, at, code),
        code_put_in(mid, now, b, at + code.len(), more_code),
        mid.insts_kept(now),
        forall|k: int| 0 <= k < at + code.len() ==> #[trigger] now.inst_at(b, k) == mid.inst_at(b, k),
    ensures
        code_put_in(was, now, b, at, code + more_code),
{
    let first = was.insts.len() as int;
    let all = now.steps(first, now.insts.len() as int);
    assert(all =~= code + more_code) by {
        assert forall|i: int| 0 <= i < all.len() implies all[i] == (code + more_code)[i] by {
            if i < code.len() {
                assert(now.insts@[first + i] == mid.insts@[first + i]);
                assert(mid.steps(first, mid.insts.len() as int)[i] == code[i]);
            } else {
                assert(now.steps(mid.insts.len() as int, now.insts.len() as int)[i - code.len()]
                    == more_code[i - code.len()]);
            }
        }
    }
    assert forall|k: int| at <= k < at + (code + more_code).len() implies (#[trigger] now.inst_at(
        b,
        k,
    )).0 == first + (k - at) by {
        if k < at + code.len() {
            assert(now.inst_at(b, k) == mid.inst_at(b, k));
        }
    }
}

/// Nothing put in.
pub proof fn lemma_put_in_nothing(was: Function, b: int, at: int)
    ensures
        put_in(was, was, b, at, Seq::empty(), Seq::empty()),
{
    assert(was.values@ =~= was.values@ + new_values(Seq::empty()));
    assert(was.steps(was.insts.len() as int, was.insts.len() as int) =~= Seq::<Step>::empty());
}

/// Putting in twice, the second time behind what was put in first, is putting in both.
pub proof fn lemma_put_in_twice(
    was: Function,
    mid: Function,
    now: Function,
    b: int,
    at: int,
    types: Seq<Type>,
    code: Seq<Step>,
    more_types: Seq<Type>,
    more_code: Seq<Step>,
)
    requires
        0 <= at,
        put_in(was, mid, b, at, types, code),
        put_in(mid, now, b, at + code.len(), more_types, more_code),
        mid.insts_kept(now),
        forall|k: int| 0 <= k < at + code.len() ==> #[trigger] now.inst_at(b, k) == mid.inst_at(b, k),
    ensures
        put_in(was, now, b, at, types + more_types, code + more_code),
{
    assert(now.values@ =~= was.values@ + new_values(types + more_types));
    lemma_code_twice(was, mid, now, b, at, code, more_code);
}

/// What converting the values of a list to ABI arguments puts into a function whose next
/// value has the number `nv`: what converting each of the values `values[k..]` of the types
/// `types[k..]` puts in, one after the other, from argument `at` of `abi` on.
pub open spec fn args_lowering(
    types: Seq<Type>,
    abi: Seq<ArgumentType>,
    k: int,
    at: int,
    values: Seq<Value>,
    nv: int,
) -> Lowering
    decreases types.len() - k,
{
    let nothing = Lowering { code: Seq::empty(), types: Seq::empty(), slots: Seq::empty() };
    if k >= types.len() {
        nothing
    } else {
        match abi_span(types[k], abi, at) {
            Err(_) => nothing,
            Ok(next) => {
                let head = lowering(types[k], abi, at, values[k], nv);
                let rest = args_lowering(types, abi, k + 1, next, values, nv + head.types.len());
                Lowering {
                    code: head.code + rest.code,
                    types: head.types + rest.types,
                    slots: head.slots + rest.slots,
                }
            },
        }
    }
}

/// One more value of a list converted: what is put in so far, followed by what the values
/// still to convert put in, stays what all the values put in.
pub proof fn lemma_args_lowering_step(
    types: Seq<Type>,
    abi: Seq<ArgumentType>,
    k: int,
    at: int,
    next: int,
    values: Seq<Value>,
    nv: int,
    done: Lowering,
    all: Lowering,
)
    requires
        0 <= k < types.len(),
        abi_span(types[k], abi, at) == Ok::<int, LegalizeError>(next),
        ({
            let rest = args_lowering(types, abi, k, at, values, nv + done.types.len());
            &&& all.code == done.code + rest.code
            &&& all.types == done.types + rest.types
            &&& all.slots == done.slots + rest.slots
        }),
    ensures
        ({
            let made = lowering(types[k], abi, at, values[k], nv + done.types.len());
            let rest = args_lowering(
                types,
                abi,
                k + 1,
                next,
                values,
                nv + done.types.len() + made.types.len(),
            );
            &&& all.code == (done.code + made.code) + rest.code
            &&& all.types == (done.types + made.types) + rest.types
            &&& all.slots == (done.slots + made.slots) + rest.slots
        }),
{
    let made = lowering(types[k], abi, at, values[k], nv + done.types.len());
    let rest = args_lowering(types, abi, k + 1, next, values, nv + done.types.len() + made.types.len());
    assert((done.code + made.code) + rest.code =~= done.code + (made.code + rest.code));
    assert((done.types + made.types) + rest.types =~= done.types + (made.types + rest.types));
    assert((done.slots + made.slots) + rest.slots =~= done.slots + (made.slots + rest.slots));
}

/// What converting a value to ABI arguments puts into a function, and the values that fill
/// the slots.
pub struct Lowering {
    /// The new instructions, in order.
    pub code: Seq<Step>,
    /// The types of the new values, in order.
    pub types: Seq<Type>,
    /// The values for the ABI arguments, in order.
    pub slots: Seq<Value>,
}

/// What converting `value` of type `ty` to the ABI arguments of `abi` from argument `at` on
/// puts into a function whose next value has the number `nv`.
///
/// A value of the type of the argument fills its slot and nothing is put in. Otherwise one
/// instruction applies the conversion step to the value, and what it gives is converted in
/// turn: the low half of a split with all that it takes, then the high half.
pub open spec fn lowering(ty: Type, abi: Seq<ArgumentType>, at: int, value: Value, nv: int) -> Lowering
    decreases distance(ty, abi, at),
{
    let nothing = Lowering { code: Seq::empty(), types: Seq::empty(), slots: Seq::empty() };
    if !(0 <= at < abi.len()) {
        nothing
    } else if abi[at].value_type == ty {
        Lowering { code: Seq::empty(), types: Seq::empty(), slots: seq![value] }
    } else {
        match step(ty, abi[at]) {
            Err(_) => nothing,
            Ok((conv, to)) => {
                proof {
                    lemma_step_lowers(ty, abi, at, at);
                }
                if conv.spec_is_split() {
                    match abi_span(to, abi, at) {
                        Err(_) => nothing,
                        Ok(mid) => {
                            proof {
                                lemma_step_lowers(ty, abi, at, mid);
                            }
                            let lo = Value(nv as usize);
                            let hi = Value((nv + 1) as usize);
                            let head = Step {
                                opcode: lower_opcode(conv),
                                args: seq![value],
                                target: CallTarget::NotACall,
                                results: seq![lo, hi],
                            };
                            let first = lowering(to, abi, at, lo, nv + 2);
                            let second = lowering(to, abi, mid, hi, nv + 2 + first.types.len());
                            Lowering {
                                code: seq![head] + first.code + second.code,
                                types: seq![to, to] + first.types + second.types,
                                slots: first.slots + second.slots,
                            }
                        },
                    }
                } else {
                    let arg = Value(nv as usize);
                    let head = Step {
                        opcode: lower_opcode(conv),
                        args: seq![value],
                        target: CallTarget::NotACall,
                        results: seq![arg],
                    };
                    let rest = lowering(to, abi, at, arg, nv + 1);
                    Lowering {
                        code: seq![head] + rest.code,
                        types: seq![to] + rest.types,
                        slots: rest.slots,
                    }
                }
            },
        }
    }
}

/// A value split and its halves converted is what converting the value puts in.
pub proof fn lemma_lowering_halves(
    start: Function,
    split: Function,
    half: Function,
    fin: Function,
    b: int,
    at: int,
    abi: Seq<ArgumentType>,
    ty: Type,
    first: int,
    mid: int,
    end: int,
    value: Value,
    lo: Value,
    hi: Value,
    fixed: int,
    half_values: Seq<Value>,
    fin_values: Seq<Value>,
)
    requires
        0 <= at,
        0 <= fixed,
        0 <= first <= mid <= end,
        first < abi.len(),
        abi[first].value_type != ty,
        step(ty, abi[first]) is Ok,
        step(ty, abi[first])->Ok_0.0.spec_is_split(),
        abi_span(step(ty, abi[first])->Ok_0.1, abi, first) == Ok::<int, LegalizeError>(mid),
        fixed + end <= fin_values.len(),
        fin_values.len() == half_values.len(),
        forall|k: int| fixed + first <= k < fixed + mid ==> #[trigger] fin_values[k] == half_values[k],
        ({
            let to = step(ty, abi[first])->Ok_0.1;
            let conv = step(ty, abi[first])->Ok_0.0;
            let lo_plan = lowering(to, abi, first, lo, split.values.len() as int);
            let hi_plan = lowering(to, abi, mid, hi, half.values.len() as int);
            &&& split.values@ == start.values@.push(ValueData { ty: to, alias: None }).push(
                ValueData { ty: to, alias: None },
            )
            &&& lo.0 == start.values.len()
            &&& hi.0 == start.values.len() + 1
            &&& split.insts.len() == start.insts.len() + 1
            &&& step_of(split.insts@[start.insts.len() as int]) == (Step {
                opcode: lower_opcode(conv),
                args: seq![value],
                target: CallTarget::NotACall,
                results: seq![lo, hi],
            })
            &&& split.inst_at(b, at) == Inst(start.insts.len())
            &&& put_in(split, half, b, at + 1, lo_plan.types, lo_plan.code)
            &&& half_values.subrange(fixed + first, fixed + mid) == lo_plan.slots
            &&& put_in(half, fin, b, at + 1 + lo_plan.code.len(), hi_plan.types, hi_plan.code)
            &&& fin_values.subrange(fixed + mid, fixed + end) == hi_plan.slots
            &&& split.insts_kept(half)
            &&& half.insts_kept(fin)
            &&& forall|k: int| 0 <= k < at + 1 ==> #[trigger] half.inst_at(b, k) == split.inst_at(b, k)
            &&& forall|k: int|
                0 <= k < at + 1 + lo_plan.code.len() ==> #[trigger] fin.inst_at(b, k)
                    == half.inst_at(b, k)
        }),
    ensures
        ({
            let plan = lowering(ty, abi, first, value, start.values.len() as int);
            &&& put_in(start, fin, b, at, plan.types, plan.code)
            &&& fin_values.subrange(fixed + first, fixed + end) == plan.slots
        }),
{
    let to = step(ty, abi[first])->Ok_0.1;
    let conv = step(ty, abi[first])->Ok_0.0;
    let nv = start.values.len() as int;
    let head = Step {
        opcode: lower_opcode(conv),
        args: seq![value],
        target: CallTarget::NotACall,
        results: seq![lo, hi],
    };
    let lo_plan = lowering(to, abi, first, lo, nv + 2);
    let hi_plan = lowering(to, abi, mid, hi, half.values.len() as int);
    assert(put_in(start, split, b, at, seq![to, to], seq![head])) by {
        assert(split.values@ =~= start.values@ + new_values(seq![to, to]));
        assert(split.steps(start.insts.len() as int, split.insts.len() as int) =~= seq![head]);
    }
    assert(half.values.len() == nv + 2 + lo_plan.types.len());
    lemma_put_in_twice(start, split, half, b, at, seq![to, to], seq![head], lo_plan.types, lo_plan.code);
    lemma_put_in_twice(
        start,
        half,
        fin,
        b,
        at,
        seq![to, to] + lo_plan.types,
        seq![head] + lo_plan.code,
        hi_plan.types,
        hi_plan.code,
    );
    assert(fin_values.subrange(fixed + first, fixed + end) =~= lo_plan.slots + hi_plan.slots) by {
        assert forall|k: int| 0 <= k < mid - first implies fin_values[fixed + first + k]
            == lo_plan.slots[k] by {
            assert(fin_values[fixed + first + k] == half_values[fixed + first + k]);
            assert(half_values.subrange(fixed + first, fixed + mid)[k] == half_values[fixed + first
                + k]);
        }
        assert forall|k: int| 0 <= k < end - mid implies fin_values[fixed + mid + k]
            == hi_plan.slots[k] by {
            assert(fin_values.subrange(fixed + mid, fixed + end)[k] == fin_values[fixed + mid + k]);
        }
    }
    lemma_step_lowers(ty, abi, first, first);
}

/// A value cast or extended and converted is what converting the value puts in.
pub proof fn lemma_lowering_inner(
    start: Function,
    cast: Function,
    fin: Function,
    b: int,
    at: int,
    abi: Seq<ArgumentType>,
    ty: Type,
    first: int,
    value: Value,
    arg: Value,
    filled: Seq<Value>,
)
    requires
        0 <= at,
        0 <= first < abi.len(),
        abi[first].value_type != ty,
        step(ty, abi[first]) is Ok,
        !step(ty, abi[first])->Ok_0.0.spec_is_split(),
        ({
            let to = step(ty, abi[first])->Ok_0.1;
            let conv = step(ty, abi[first])->Ok_0.0;
            let plan = lowering(to, abi, first, arg, cast.values.len() as int);
            &&& cast.values@ == start.values@.push(ValueData { ty: to, alias: None })
            &&& arg.0 == start.values.len()
            &&& cast.insts.len() == start.insts.len() + 1
            &&& step_of(cast.insts@[start.insts.len() as int]) == (Step {
                opcode: lower_opcode(conv),
                args: seq![value],
                target: CallTarget::NotACall,
                results: seq![arg],
            })
            &&& cast.inst_at(b, at) == Inst(start.insts.len())
            &&& put_in(cast, fin, b, at + 1, plan.types, plan.code)
            &&& filled == plan.slots
            &&& cast.insts_kept(fin)
            &&& forall|k: int| 0 <= k < at + 1 ==> #[trigger] fin.inst_at(b, k) == cast.inst_at(b, k)
        }),
    ensures
        ({
            let plan = lowering(ty, abi, first, value, start.values.len() as int);
            &&& put_in(start, fin, b, at, plan.types, plan.code)
            &&& filled == plan.slots
        }),
{
    let to = step(ty, abi[first])->Ok_0.1;
    let conv = step(ty, abi[first])->Ok_0.0;
    let nv = start.values.len() as int;
    let head = Step {
        opcode: lower_opcode(conv),
        args: seq![value],
        target: CallTarget::NotACall,
        results: seq![arg],
    };
    let plan = lowering(to, abi, first, arg, nv + 1);
    assert(put_in(start, cast, b, at, seq![to], seq![head])) by {
        assert(cast.values@ =~= start.values@ + new_values(seq![to]));
        assert(cast.steps(start.insts.len() as int, cast.insts.len() as int) =~= seq![head]);
    }
    lemma_put_in_twice(start, cast, fin, b, at, seq![to], seq![head], plan.types, plan.code);
    lemma_step_lowers(ty, abi, first, first);
}

/// One more value of a list converted and put in: what is put in so far grows by what the
/// value puts in.
pub proof fn lemma_args_put_step(
    start: Function,
    before: Function,
    after: Function,
    b: int,
    at: int,
    fixed: int,
    m: int,
    next: int,
    done: Lowering,
    made: Lowering,
    before_values: Seq<Value>,
    after_values: Seq<Value>,
)
    requires
        0 <= at,
        0 <= fixed,
        0 <= m <= next,
        fixed + next <= after_values.len(),
        after_values.len() == before_values.len(),
        forall|k: int| fixed <= k < fixed + m ==> #[trigger] after_values[k] == before_values[k],
        put_in(start, before, b, at, done.types, done.code),
        before_values.subrange(fixed, fixed + m) == done.slots,
        put_in(before, after, b, at + done.code.len(), made.types, made.code),
        after_values.subrange(fixed + m, fixed + next) == made.slots,
        before.insts_kept(after),
        forall|k: int|
            0 <= k < at + done.code.len() ==> #[trigger] after.inst_at(b, k) == before.inst_at(b, k),
    ensures
        put_in(start, after, b, at, done.types + made.types, done.code + made.code),
        after_values.subrange(fixed, fixed + next) == done.slots + made.slots,
{
    lemma_put_in_twice(start, before, after, b, at, done.types, done.code, made.types, made.code);
    assert(after_values.subrange(fixed, fixed + next) =~= done.slots + made.slots) by {
        assert forall|j: int| 0 <= j < m implies after_values[fixed + j] == done.slots[j] by {
            assert(after_values[fixed + j] == before_values[fixed + j]);
            assert(before_values.subrange(fixed, fixed + m)[j] == before_values[fixed + j]);
        }
        assert forall|j: int| 0 <= j < next - m implies after_values[fixed + m + j]
            == made.slots[j] by {
            assert(after_values.subrange(fixed + m, fixed + next)[j] == after_values[fixed + m + j]);
        }
    }
}

/// What computing a value back from ABI arguments puts into a function, and the value.
pub struct Raising {
    /// The new instructions, in order.
    pub code: Seq<Step>,
    /// The types of the new values, in order: parameters and results.
    pub types: Seq<Type>,
    /// The new parameters, one for each ABI argument, in order.
    pub params: Seq<Value>,
    /// The value that is computed.
    pub result: Value,
}

/// What computing a value of type `ty` back from the ABI arguments of `abi` from argument
/// `at` on puts into a function whose next value has the number `nv`.
///
/// An argument of type `ty` becomes a new parameter, which is the value. Otherwise what the
/// conversion step gives is computed back first, the low half of a split with all that it
/// takes before the high half, and one instruction undoes the step.
pub open spec fn raising(ty: Type, abi: Seq<ArgumentType>, at: int, nv: int) -> Raising
    decreases distance(ty, abi, at),
{
    let nothing = Raising {
        code: Seq::empty(),
        types: Seq::empty(),
        params: Seq::empty(),
        result: Value(0),
    };
    if !(0 <= at < abi.len()) {
        nothing
    } else if abi[at].value_type == ty {
        Raising {
            code: Seq::empty(),
            types: seq![ty],
            params: seq![Value(nv as usize)],
            result: Value(nv as usize),
        }
    } else {
        match step(ty, abi[at]) {
            Err(_) => nothing,
            Ok((conv, to)) => {
                proof {
                    lemma_step_lowers(ty, abi, at, at);
                }
                if conv.spec_is_split() {
                    match abi_span(to, abi, at) {
                        Err(_) => nothing,
                        Ok(mid) => {
                            proof {
                                lemma_step_lowers(ty, abi, at, mid);
                            }
                            let lo = raising(to, abi, at, nv);
                            let hi = raising(to, abi, mid, nv + lo.types.len());
                            let result = Value((nv + lo.types.len() + hi.types.len()) as usize);
                            let last = Step {
                                opcode: raise_opcode(conv),
                                args: seq![lo.result, hi.result],
                                target: CallTarget::NotACall,
                                results: seq![result],
                            };
                            Raising {
                                code: lo.code + hi.code + seq![last],
                                types: lo.types + hi.types + seq![ty],
                                params: lo.params + hi.params,
                                result,
                            }
                        },
                    }
                } else {
                    let inner = raising(to, abi, at, nv);
                    let result = Value((nv + inner.types.len()) as usize);
                    let last = Step {
                        opcode: raise_opcode(conv),
                        args: seq![inner.result],
                        target: CallTarget::NotACall,
                        results: seq![result],
                    };
                    Raising {
                        code: inner.code + seq![last],
                        types: inner.types + seq![ty],
                        params: inner.params,
                        result,
                    }
                }
            },
        }
    }
}

/// Two halves computed back and concatenated are what computing the whole back puts in.
pub proof fn lemma_raising_halves(
    start: Function,
    half: Function,
    both: Function,
    fin: Function,
    b: int,
    at: int,
    e: int,
    abi: Seq<ArgumentType>,
    ty: Type,
    first: int,
    mid: int,
    lo: Value,
    hi: Value,
    v: Value,
)
    requires
        0 <= at,
        0 <= first < abi.len(),
        abi[first].value_type != ty,
        step(ty, abi[first]) is Ok,
        step(ty, abi[first])->Ok_0.0.spec_is_split(),
        abi_span(step(ty, abi[first])->Ok_0.1, abi, first) == Ok::<int, LegalizeError>(mid),
        ({
            let to = step(ty, abi[first])->Ok_0.1;
            let conv = step(ty, abi[first])->Ok_0.0;
            let lo_plan = raising(to, abi, first, start.values.len() as int);
            let hi_plan = raising(to, abi, mid, half.values.len() as int);
            &&& put_in(start, half, b, at, lo_plan.types, lo_plan.code)
            &&& lo == lo_plan.result
            &&& half.blocks@[e].params@ == start.blocks@[e].params@ + lo_plan.params
            &&& put_in(half, both, b, at + lo_plan.code.len(), hi_plan.types, hi_plan.code)
            &&& hi == hi_plan.result
            &&& both.blocks@[e].params@ == half.blocks@[e].params@ + hi_plan.params
            &&& half.insts_kept(both)
            &&& forall|k: int|
                0 <= k < at + lo_plan.code.len() ==> #[trigger] both.inst_at(b, k) == half.inst_at(
                    b,
                    k,
                )
            &&& fin.values@ == both.values@.push(ValueData { ty, alias: None })
            &&& v.0 == both.values.len()
            &&& fin.insts.len() == both.insts.len() + 1
            &&& step_of(fin.insts@[both.insts.len() as int]) == (Step {
                opcode: raise_opcode(conv),
                args: seq![lo, hi],
                target: CallTarget::NotACall,
                results: seq![v],
            })
            &&& fin.inst_at(b, at + lo_plan.code.len() + hi_plan.code.len()) == Inst(
                both.insts.len(),
            )
            &&& both.insts_kept(fin)
            &&& forall|k: int|
                0 <= k < at + lo_plan.code.len() + hi_plan.code.len() ==> #[trigger] fin.inst_at(
                    b,
                    k,
                ) == both.inst_at(b, k)
            &&& fin.blocks@[e].params@ == both.blocks@[e].params@
        }),
    ensures
        ({
            let plan = raising(ty, abi, first, start.values.len() as int);
            &&& v == plan.result
            &&& put_in(start, fin, b, at, plan.types, plan.code)
            &&& fin.blocks@[e].params@ == start.blocks@[e].params@ + plan.params
        }),
{
    let to = step(ty, abi[first])->Ok_0.1;
    let conv = step(ty, abi[first])->Ok_0.0;
    let nv = start.values.len() as int;
    let lo_plan = raising(to, abi, first, nv);
    let hi_plan = raising(to, abi, mid, half.values.len() as int);
    let last = Step {
        opcode: raise_opcode(conv),
        args: seq![lo, hi],
        target: CallTarget::NotACall,
        results: seq![v],
    };
    assert(half.values.len() == nv + lo_plan.types.len());
    assert(both.values.len() == half.values.len() + hi_plan.types.len());
    lemma_put_in_twice(
        start,
        half,
        both,
        b,
        at,
        lo_plan.types,
        lo_plan.code,
        hi_plan.types,
        hi_plan.code,
    );
    assert(put_in(both, fin, b, at + lo_plan.code.len() + hi_plan.code.len(), seq![ty], seq![last]))
        by {
        assert(fin.values@ =~= both.values@ + new_values(seq![ty]));
        assert(fin.steps(both.insts.len() as int, fin.insts.len() as int) =~= seq![last]);
    }
    lemma_put_in_twice(
        start,
        both,
        fin,
        b,
        at,
        lo_plan.types + hi_plan.types,
        lo_plan.code + hi_plan.code,
        seq![ty],
        seq![last],
    );
    assert(fin.blocks@[e].params@ =~= start.blocks@[e].params@ + (lo_plan.params + hi_plan.params));
    lemma_step_lowers(ty, abi, first, first);
}

/// A value computed back and cast or reduced is what computing the whole back puts in.
pub proof fn lemma_raising_inner(
    start: Function,
    inner: Function,
    fin: Function,
    b: int,
    at: int,
    e: int,
    abi: Seq<ArgumentType>,
    ty: Type,
    first: int,
    arg: Value,
    v: Value,
)
    requires
        0 <= at,
        0 <= first < abi.len(),
        abi[first].value_type != ty,
        step(ty, abi[first]) is Ok,
        !step(ty, abi[first])->Ok_0.0.spec_is_split(),
        ({
            let to = step(ty, abi[first])->Ok_0.1;
            let conv = step(ty, abi[first])->Ok_0.0;
            let plan = raising(to, abi, first, start.values.len() as int);
            &&& put_in(start, inner, b, at, plan.types, plan.code)
            &&& arg == plan.result
            &&& inner.blocks@[e].params@ == start.blocks@[e].params@ + plan.params
            &&& fin.values@ == inner.values@.push(ValueData { ty, alias: None })
            &&& v.0 == inner.values.len()
            &&& fin.insts.len() == inner.insts.len() + 1
            &&& step_of(fin.insts@[inner.insts.len() as int]) == (Step {
                opcode: raise_opcode(conv),
                args: seq![arg],
                target: CallTarget::NotACall,
                results: seq![v],
            })
            &&& fin.inst_at(b, at + plan.code.len()) == Inst(inner.insts.len())
            &&& inner.insts_kept(fin)
            &&& forall|k: int|
                0 <= k < at + plan.code.len() ==> #[trigger] fin.inst_at(b, k) == inner.inst_at(
                    b,
                    k,
                )
            &&& fin.blocks@[e].params@ == inner.blocks@[e].params@
        }),
    ensures
        ({
            let plan = raising(ty, abi, first, start.values.len() as int);
            &&& v == plan.result
            &&& put_in(start, fin, b, at, plan.types, plan.code)
            &&& fin.blocks@[e].params@ == start.blocks@[e].params@ + plan.params
        }),
{
    let to = step(ty, abi[first])->Ok_0.1;
    let conv = step(ty, abi[first])->Ok_0.0;
    let nv = start.values.len() as int;
    let plan = raising(to, abi, first, nv);
    let last = Step {
        opcode: raise_opcode(conv),
        args: seq![arg],
        target: CallTarget::NotACall,
        results: seq![v],
    };
    assert(inner.values.len() == nv + plan.types.len());
    assert(put_in(inner, fin, b, at + plan.code.len(), seq![ty], seq![last])) by {
        assert(fin.values@ =~= inner.values@ + new_values(seq![ty]));
        assert(fin.steps(inner.insts.len() as int, fin.insts.len() as int) =~= seq![last]);
    }
    lemma_put_in_twice(start, inner, fin, b, at, plan.types, plan.code, seq![ty], seq![last]);
    lemma_step_lowers(ty, abi, first, first);
}

/// What rewriting the parameters of the entry block puts into a function.
pub struct EntryPlan {
    /// The new instructions, in order.
    pub code: Seq<Step>,
    /// The types of the new values, in order: parameters and results.
    pub types: Seq<Type>,
    /// The parameters that the block has afterwards, in order.
    pub params: Seq<Value>,
    /// The old parameters that become aliases, each with the value that it becomes an alias
    /// of, in order.
    pub aliases: Seq<(Value, Value)>,
}

impl EntryPlan {
    /// This plan followed by another.
    pub open spec fn followed_by(self, more: EntryPlan) -> EntryPlan {
        EntryPlan {
            code: self.code + more.code,
            types: self.types + more.types,
            params: self.params + more.params,
            aliases: self.aliases + more.aliases,
        }
    }

    /// The plan that puts nothing in.
    pub open spec fn nothing() -> EntryPlan {
        EntryPlan {
            code: Seq::empty(),
            types: Seq::empty(),
            params: Seq::empty(),
            aliases: Seq::empty(),
        }
    }
}

/// What one old parameter `p` of type `ty` puts into a function whose next value has the
/// number `nv`, when its turn comes at argument `at` of `abi`: a parameter of the type of
/// the argument stays; for any other, what computing it back puts in, and the parameter
/// becomes an alias of what is computed.
pub open spec fn param_plan(ty: Type, abi: Seq<ArgumentType>, at: int, p: Value, nv: int) -> EntryPlan {
    if 0 <= at < abi.len() && abi[at].value_type == ty {
        EntryPlan {
            code: Seq::empty(),
            types: Seq::empty(),
            params: seq![p],
            aliases: Seq::empty(),
        }
    } else {
        let made = raising(ty, abi, at, nv);
        EntryPlan {
            code: made.code,
            types: made.types,
            params: made.params,
            aliases: seq![(p, made.result)],
        }
    }
}

/// What rewriting the old parameters `params[k..]` of the types `types[k..]` puts into a
/// function whose next value has the number `nv`, one parameter after the other, from
/// argument `at` of `abi` on.
pub open spec fn entry_plan(
    types: Seq<Type>,
    abi: Seq<ArgumentType>,
    k: int,
    at: int,
    params: Seq<Value>,
    nv: int,
) -> EntryPlan
    decreases types.len() - k,
{
    if k >= types.len() {
        EntryPlan::nothing()
    } else {
        match abi_span(types[k], abi, at) {
            Err(_) => EntryPlan::nothing(),
            Ok(next) => {
                let head = param_plan(types[k], abi, at, params[k], nv);
                head.followed_by(entry_plan(types, abi, k + 1, next, params, nv + head.types.len()))
            },
        }
    }
}

/// One more parameter gone through: what is put in so far, followed by what the parameters
/// still to go through put in, stays what all of them put in.
pub proof fn lemma_entry_plan_step(
    types: Seq<Type>,
    abi: Seq<ArgumentType>,
    k: int,
    at: int,
    next: int,
    params: Seq<Value>,
    nv: int,
    done: EntryPlan,
    all: EntryPlan,
)
    requires
        0 <= k < types.len(),
        abi_span(types[k], abi, at) == Ok::<int, LegalizeError>(next),
        all == done.followed_by(entry_plan(types, abi, k, at, params, nv + done.types.len())),
    ensures
        ({
            let made = param_plan(types[k], abi, at, params[k], nv + done.types.len());
            all == done.followed_by(made).followed_by(
                entry_plan(
                    types,
                    abi,
                    k + 1,
                    next,
                    params,
                    nv + done.followed_by(made).types.len(),
                ),
            )
        }),
{
    let made = param_plan(types[k], abi, at, params[k], nv + done.types.len());
    let rest = entry_plan(types, abi, k + 1, next, params, nv + done.types.len() + made.types.len());
    let one = done.followed_by(made.followed_by(rest));
    let two = done.followed_by(made).followed_by(rest);
    assert(one.code =~= two.code);
    assert(one.types =~= two.types);
    assert(one.params =~= two.params);
    assert(one.aliases =~= two.aliases);
}

/// What a value stands for after the old parameters of `aliases` have become aliases, one
/// after the other: a value that is none of them stands for what it stood for.
pub open spec fn aliased(alias: Option<Value>, v: Value, aliases: Seq<(Value, Value)>) -> Option<Value>
    decreases aliases.len(),
{
    if aliases.len() == 0 {
        alias
    } else {
        let before = aliased(alias, v, aliases.drop_last());
        if v == aliases.last().0 {
            Some(aliases.last().1)
        } else {
            before
        }
    }
}

/// `func` is `start` with the entry block `e` rewritten as `done` says: the block has the
/// parameters of the plan, the new instructions stand at its top, the new values are
/// behind the old ones, and each old value has its type and stands for what the plan makes
/// it stand for. A value that is no old parameter that is converted is unchanged.
pub open spec fn entry_put_in(start: Function, func: Function, e: int, done: EntryPlan) -> bool {
    &&& func.blocks@[e].params@ == done.params
    &&& code_put_in(start, func, e, 0, done.code)
    &&& func.values.len() == start.values.len() + done.types.len()
    &&& func.values@.subrange(start.values.len() as int, func.values.len() as int) == new_values(
        done.types,
    )
    &&& forall|v: int|
        0 <= v < start.values.len() ==> #[trigger] func.values@[v] == (ValueData {
            ty: start.values@[v].ty,
            alias: aliased(start.values@[v].alias, Value(v as usize), done.aliases),
        })
}

/// A value that no old parameter of the plan is, is unchanged.
pub proof fn lemma_aliased_other(alias: Option<Value>, v: Value, aliases: Seq<(Value, Value)>)
    requires
        forall|j: int| 0 <= j < aliases.len() ==> (#[trigger] aliases[j]).0 != v,
    ensures
        aliased(alias, v, aliases) == alias,
    decreases aliases.len(),
{
    if aliases.len() > 0 {
        let front = aliases.drop_last();
        assert forall|j: int| 0 <= j < front.len() implies (#[trigger] front[j]).0 != v by {
            assert(front[j] == aliases[j]);
        }
        lemma_aliased_other(alias, v, front);
        assert(aliases.last() == aliases[aliases.len() - 1]);
    }
}

/// An old parameter that stays, attached again, is what the plan of its turn puts in.
pub proof fn lemma_entry_put_stays(
    start: Function,
    before: Function,
    after: Function,
    e: int,
    done: EntryPlan,
    made: EntryPlan,
    p: Value,
)
    requires
        entry_put_in(start, before, e, done),
        made == (EntryPlan {
            code: Seq::empty(),
            types: Seq::empty(),
            params: seq![p],
            aliases: Seq::empty(),
        }),
        after.values == before.values,
        after.insts == before.insts,
        after.blocks@[e].params@ == before.blocks@[e].params@.push(p),
        after.blocks@[e].insts@ == before.blocks@[e].insts@,
    ensures
        entry_put_in(start, after, e, done.followed_by(made)),
{
    let plan = done.followed_by(made);
    assert(plan.code =~= done.code);
    assert(plan.types =~= done.types);
    assert(plan.aliases =~= done.aliases);
    assert(after.blocks@[e].params@ =~= plan.params);
    lemma_code_kept(start, before, after, e, 0, done.code);
}

/// An old parameter that is converted and made an alias of what is computed is what the
/// plan of its turn puts in.
pub proof fn lemma_entry_put_converted(
    start: Function,
    before: Function,
    made: Function,
    after: Function,
    e: int,
    done: EntryPlan,
    plan: Raising,
    p: Value,
)
    requires
        entry_put_in(start, before, e, done),
        p.0 < start.values.len(),
        put_in(before, made, e, done.code.len() as int, plan.types, plan.code),
        made.blocks@[e].params@ == before.blocks@[e].params@ + plan.params,
        before.insts_kept(made),
        forall|k: int| 0 <= k < done.code.len() ==> #[trigger] made.inst_at(e, k) == before.inst_at(e, k),
        after.values.len() == made.values.len(),
        after.values@[p.0 as int] == (ValueData {
            ty: made.values@[p.0 as int].ty,
            alias: Some(plan.result),
        }),
        forall|v: int|
            0 <= v < made.values.len() && v != p.0 ==> #[trigger] after.values@[v]
                == made.values@[v],
        after.insts == made.insts,
        after.blocks == made.blocks,
    ensures
        entry_put_in(
            start,
            after,
            e,
            done.followed_by(
                EntryPlan {
                    code: plan.code,
                    types: plan.types,
                    params: plan.params,
                    aliases: seq![(p, plan.result)],
                },
            ),
        ),
{
    let step = EntryPlan {
        code: plan.code,
        types: plan.types,
        params: plan.params,
        aliases: seq![(p, plan.result)],
    };
    let all = done.followed_by(step);
    let n = start.values.len() as int;
    lemma_code_twice(start, before, made, e, 0, done.code, plan.code);
    lemma_code_kept(start, made, after, e, 0, done.code + plan.code);
    assert(all.aliases.drop_last() =~= done.aliases);
    assert(all.aliases.last() == (p, plan.result));
    assert forall|v: int| 0 <= v < n implies #[trigger] after.values@[v] == (ValueData {
        ty: start.values@[v].ty,
        alias: aliased(start.values@[v].alias, Value(v as usize), all.aliases),
    }) by {
        assert(made.values@[v] == before.values@[v]);
        assert(Value(v as usize) == p <==> v == p.0);
    }
    assert(after.values@.subrange(n, after.values.len() as int) =~= new_values(all.types)) by {
        assert forall|i: int| 0 <= i < all.types.len() implies after.values@[n + i]
            == new_values(all.types)[i] by {
            if i < done.types.len() {
                assert(made.values@[n + i] == before.values@[n + i]);
                assert(before.values@.subrange(n, before.values.len() as int)[i]
                    == before.values@[n + i]);
            } else {
                assert(made.values@[n + i] == new_values(plan.types)[i - done.types.len()]);
            }
        }
    }
}

} // verus!
