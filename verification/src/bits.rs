//! What an ABI conversion does to the bits of a value, and that converting to ABI arguments
//! and back gives the value again.
//!
//! A value of a type is a sequence of as many bits as the type has, the lowest first; a
//! vector is its lanes one after the other, the first lane first.

use crate::abi::{
    abi_span, args_span, distance, lemma_span_grows, lemma_step_lowers, step, ArgumentType,
    ValueConversion,
};
use crate::types::Type;
use vstd::prelude::*;

verus! {

/// The bits `x`, extended to `width` bits: by copies of the highest bit when `signed`, by
/// zeroes otherwise.
pub open spec fn extend(x: Seq<bool>, width: int, signed: bool) -> Seq<bool> {
    x + Seq::new(
        (width - x.len()) as nat,
        |i: int|
            if signed && x.len() > 0 {
                x[x.len() - 1]
            } else {
                false
            },
    )
}

/// The values of the ABI arguments that carry the value `x` of type `ty`, the first of which
/// is argument `at` of `abi`.
pub open spec fn lower_bits(ty: Type, abi: Seq<ArgumentType>, at: int, x: Seq<bool>) -> Seq<Seq<bool>>
    decreases distance(ty, abi, at),
{
    if !(0 <= at < abi.len()) {
        Seq::empty()
    } else if abi[at].value_type == ty {
        seq![x]
    } else {
        match step(ty, abi[at]) {
            Err(_) => Seq::empty(),
            Ok((conv, to)) => {
                proof {
                    lemma_step_lowers(ty, abi, at, at);
                }
                match conv {
                    ValueConversion::IntSplit | ValueConversion::VectorSplit => match abi_span(
                        to,
                        abi,
                        at,
                    ) {
                        Err(_) => Seq::empty(),
                        Ok(mid) => {
                            proof {
                                lemma_step_lowers(ty, abi, at, mid);
                            }
                            lower_bits(to, abi, at, x.subrange(0, to.spec_bits() as int))
                                + lower_bits(
                                to,
                                abi,
                                mid,
                                x.subrange(to.spec_bits() as int, x.len() as int),
                            )
                        },
                    },
                    ValueConversion::IntBits => lower_bits(to, abi, at, x),
                    ValueConversion::Sext(_) => lower_bits(
                        to,
                        abi,
                        at,
                        extend(x, to.spec_bits() as int, true),
                    ),
                    ValueConversion::Uext(_) => lower_bits(
                        to,
                        abi,
                        at,
                        extend(x, to.spec_bits() as int, false),
                    ),
                }
            },
        }
    }
}

/// The value of type `ty` that the ABI arguments from argument `at` of `abi` on carry, where
/// `slots[j]` is the value of argument `j`.
pub open spec fn raise_bits(ty: Type, abi: Seq<ArgumentType>, at: int, slots: Seq<Seq<bool>>) -> Seq<bool>
    decreases distance(ty, abi, at),
{
    if !(0 <= at < abi.len()) {
        Seq::empty()
    } else if abi[at].value_type == ty {
        slots[at]
    } else {
        match step(ty, abi[at]) {
            Err(_) => Seq::empty(),
            Ok((conv, to)) => {
                proof {
                    lemma_step_lowers(ty, abi, at, at);
                }
                match conv {
                    ValueConversion::IntSplit | ValueConversion::VectorSplit => match abi_span(
                        to,
                        abi,
                        at,
                    ) {
                        Err(_) => Seq::empty(),
                        Ok(mid) => {
                            proof {
                                lemma_step_lowers(ty, abi, at, mid);
                            }
                            raise_bits(to, abi, at, slots) + raise_bits(to, abi, mid, slots)
                        },
                    },
                    ValueConversion::IntBits => raise_bits(to, abi, at, slots),
                    ValueConversion::Sext(_) | ValueConversion::Uext(_) => raise_bits(
                        to,
                        abi,
                        at,
                        slots,
                    ).subrange(0, ty.spec_bits() as int),
                }
            },
        }
    }
}

/// The values of the ABI arguments that carry, one value after the other, the values
/// `xs[k..]` of the types `types[k..]`, the first of which is argument `at` of `abi`.
pub open spec fn lower_args(
    types: Seq<Type>,
    abi: Seq<ArgumentType>,
    k: int,
    at: int,
    xs: Seq<Seq<bool>>,
) -> Seq<Seq<bool>>
    decreases types.len() - k,
{
    if k >= types.len() {
        Seq::empty()
    } else {
        match abi_span(types[k], abi, at) {
            Err(_) => Seq::empty(),
            Ok(next) => lower_bits(types[k], abi, at, xs[k]) + lower_args(
                types,
                abi,
                k + 1,
                next,
                xs,
            ),
        }
    }
}

/// The ABI argument of `abi` that is the first to carry the value number `k` of a list of
/// values of the types `types`, which are carried one after the other from argument 0 on.
pub open spec fn arg_start(types: Seq<Type>, abi: Seq<ArgumentType>, k: int) -> int
    decreases k,
{
    if k <= 0 {
        0
    } else {
        match abi_span(types[k - 1], abi, arg_start(types, abi, k - 1)) {
            Ok(next) => next,
            Err(_) => 0,
        }
    }
}

/// True when every argument of the list has a valid type.
pub open spec fn valid_types(abi: Seq<ArgumentType>) -> bool {
    forall|i: int| 0 <= i < abi.len() ==> (#[trigger] abi[i]).value_type.valid()
}

/// How the width of a type changes in a conversion step: a half has half the bits, the
/// integer that holds a float's bits has as many, and an extended integer has more.
pub proof fn lemma_step_bits(ty: Type, arg: ArgumentType)
    requires
        ty.valid(),
        arg.value_type.valid(),
        step(ty, arg) is Ok,
    ensures
        ({
            let (conv, to) = step(ty, arg)->Ok_0;
            &&& to.valid()
            &&& conv.spec_is_split() ==> 2 * to.spec_bits() == ty.spec_bits()
            &&& conv == ValueConversion::IntBits ==> to.spec_bits() == ty.spec_bits()
            &&& (conv is Sext || conv is Uext) ==> to.spec_bits() > ty.spec_bits() && to
                == arg.value_type
        }),
{
    let (conv, to) = step(ty, arg)->Ok_0;
    match conv {
        ValueConversion::IntSplit => {
            assert(to.spec_lane_count() == ty.spec_lane_count());
            assert(2 * to.lane.spec_bits() == ty.lane.spec_bits());
            assert(2 * (to.lane.spec_bits() * to.spec_lane_count()) == ty.lane.spec_bits()
                * ty.spec_lane_count()) by (nonlinear_arith)
                requires
                    to.spec_lane_count() == ty.spec_lane_count(),
                    2 * to.lane.spec_bits() == ty.lane.spec_bits(),
            ;
        },
        ValueConversion::VectorSplit => {
            assert(2 * to.spec_lane_count() == ty.spec_lane_count());
            assert(2 * (to.lane.spec_bits() * to.spec_lane_count()) == ty.lane.spec_bits()
                * ty.spec_lane_count()) by (nonlinear_arith)
                requires
                    2 * to.spec_lane_count() == ty.spec_lane_count(),
                    to.lane.spec_bits() == ty.lane.spec_bits(),
            ;
        },
        ValueConversion::IntBits => {
            assert(ty.spec_lane_count() == 1);
        },
        ValueConversion::Sext(_) => {},
        ValueConversion::Uext(_) => {},
    }
}

/// As many ABI arguments carry a value as its span says.
pub proof fn lemma_lower_len(ty: Type, abi: Seq<ArgumentType>, at: int, x: Seq<bool>)
    requires
        abi_span(ty, abi, at) is Ok,
    ensures
        lower_bits(ty, abi, at, x).len() == abi_span(ty, abi, at)->Ok_0 - at,
    decreases distance(ty, abi, at),
{
    if abi[at].value_type != ty {
        let (conv, to) = step(ty, abi[at])->Ok_0;
        lemma_step_lowers(ty, abi, at, at);
        match conv {
            ValueConversion::IntSplit | ValueConversion::VectorSplit => {
                let mid = abi_span(to, abi, at)->Ok_0;
                lemma_step_lowers(ty, abi, at, mid);
                lemma_lower_len(to, abi, at, x.subrange(0, to.spec_bits() as int));
                lemma_lower_len(to, abi, mid, x.subrange(to.spec_bits() as int, x.len() as int));
            },
            ValueConversion::IntBits => {
                lemma_lower_len(to, abi, at, x);
            },
            ValueConversion::Sext(_) => {
                lemma_lower_len(to, abi, at, extend(x, to.spec_bits() as int, true));
            },
            ValueConversion::Uext(_) => {
                lemma_lower_len(to, abi, at, extend(x, to.spec_bits() as int, false));
            },
        }
    }
}

/// Converting a value to ABI arguments and back gives the value again.
///
/// Let `x` be a value of type `ty` that the arguments of `abi` from argument `at` on can
/// carry, and let `slots` hold, for each of these arguments, the value that `x` is converted
/// to. Then the value that is computed back from `slots` is `x`. This holds of every kind of
/// conversion. Where an integer is extended, `x` is the narrow value: the extended one is
/// reduced to it without loss.
pub proof fn lemma_round_trip(
    ty: Type,
    abi: Seq<ArgumentType>,
    at: int,
    x: Seq<bool>,
    slots: Seq<Seq<bool>>,
)
    requires
        ty.valid(),
        valid_types(abi),
        x.len() == ty.spec_bits(),
        abi_span(ty, abi, at) is Ok,
        slots.len() >= abi_span(ty, abi, at)->Ok_0,
        forall|j: int|
            at <= j < abi_span(ty, abi, at)->Ok_0 ==> #[trigger] slots[j] == lower_bits(
                ty,
                abi,
                at,
                x,
            )[j - at],
    ensures
        raise_bits(ty, abi, at, slots) == x,
    decreases distance(ty, abi, at),
{
    let end = abi_span(ty, abi, at)->Ok_0;
    if abi[at].value_type == ty {
        assert(slots[at] == lower_bits(ty, abi, at, x)[0]);
    } else {
        let (conv, to) = step(ty, abi[at])->Ok_0;
        lemma_step_lowers(ty, abi, at, at);
        lemma_step_bits(ty, abi[at]);
        let h = to.spec_bits() as int;
        match conv {
            ValueConversion::IntSplit | ValueConversion::VectorSplit => {
                let mid = abi_span(to, abi, at)->Ok_0;
                lemma_step_lowers(ty, abi, at, mid);
                let lo = x.subrange(0, h);
                let hi = x.subrange(h, x.len() as int);
                let first = lower_bits(to, abi, at, lo);
                let second = lower_bits(to, abi, mid, hi);
                lemma_lower_len(to, abi, at, lo);
                lemma_lower_len(to, abi, mid, hi);
                assert(lower_bits(ty, abi, at, x) == first + second);
                assert forall|j: int| at <= j < mid implies #[trigger] slots[j] == first[j - at] by {
                    assert(slots[j] == (first + second)[j - at]);
                }
                assert forall|j: int| mid <= j < end implies #[trigger] slots[j] == second[j
                    - mid] by {
                    assert(slots[j] == (first + second)[j - at]);
                }
                lemma_round_trip(to, abi, at, lo, slots);
                lemma_round_trip(to, abi, mid, hi, slots);
                assert(lo + hi =~= x);
            },
            ValueConversion::IntBits => {
                lemma_round_trip(to, abi, at, x, slots);
            },
            ValueConversion::Sext(_) => {
                let wide = extend(x, h, true);
                lemma_round_trip(to, abi, at, wide, slots);
                assert(wide.subrange(0, ty.spec_bits() as int) =~= x);
            },
            ValueConversion::Uext(_) => {
                let wide = extend(x, h, false);
                lemma_round_trip(to, abi, at, wide, slots);
                assert(wide.subrange(0, ty.spec_bits() as int) =~= x);
            },
        }
    }
}

/// As many ABI arguments carry the values of a list as their span says.
pub proof fn lemma_lower_args_len(
    types: Seq<Type>,
    abi: Seq<ArgumentType>,
    k: int,
    at: int,
    xs: Seq<Seq<bool>>,
)
    requires
        0 <= k,
        args_span(types, abi, k, at) is Ok,
    ensures
        lower_args(types, abi, k, at, xs).len() == args_span(types, abi, k, at)->Ok_0 - at,
    decreases types.len() - k,
{
    if k < types.len() {
        let next = abi_span(types[k], abi, at)->Ok_0;
        lemma_lower_len(types[k], abi, at, xs[k]);
        lemma_lower_args_len(types, abi, k + 1, next, xs);
    }
}

/// Where the values of a list can be carried from argument `at` on, each of them can be
/// carried from where its turn comes, and the turns come in order.
pub proof fn lemma_arg_start(types: Seq<Type>, abi: Seq<ArgumentType>, k: int)
    requires
        0 <= k <= types.len(),
        args_span(types, abi, 0, 0) is Ok,
    ensures
        args_span(types, abi, k, arg_start(types, abi, k)) == args_span(types, abi, 0, 0),
        k < types.len() ==> abi_span(types[k], abi, arg_start(types, abi, k)) is Ok,
        0 <= arg_start(types, abi, k),
    decreases k,
{
    if k > 0 {
        lemma_arg_start(types, abi, k - 1);
        lemma_span_grows(types[k - 1], abi, arg_start(types, abi, k - 1));
    }
}

/// What the values `xs[k..]` lower to is, for each of them, what it lowers to alone, at the
/// place where its turn comes.
pub proof fn lemma_lower_args_at(
    types: Seq<Type>,
    abi: Seq<ArgumentType>,
    k: int,
    xs: Seq<Seq<bool>>,
    j: int,
)
    requires
        0 <= k < types.len(),
        args_span(types, abi, 0, 0) is Ok,
        arg_start(types, abi, k) <= j < abi_span(types[k], abi, arg_start(types, abi, k))->Ok_0,
    ensures
        0 <= j < lower_args(types, abi, 0, 0, xs).len(),
        lower_args(types, abi, 0, 0, xs)[j] == lower_bits(
            types[k],
            abi,
            arg_start(types, abi, k),
            xs[k],
        )[j - arg_start(types, abi, k)],
{
    lemma_lower_args_from(types, abi, k, k, xs, j);
    lemma_lower_args_from(types, abi, 0, k, xs, j);
}

/// What the values `xs[i..]` lower to holds, from the turn of value `k` on, what the values
/// `xs[k..]` lower to.
proof fn lemma_lower_args_from(
    types: Seq<Type>,
    abi: Seq<ArgumentType>,
    i: int,
    k: int,
    xs: Seq<Seq<bool>>,
    j: int,
)
    requires
        0 <= i <= k < types.len(),
        args_span(types, abi, 0, 0) is Ok,
        arg_start(types, abi, k) <= j < abi_span(types[k], abi, arg_start(types, abi, k))->Ok_0,
    ensures
        arg_start(types, abi, i) <= arg_start(types, abi, k),
        0 <= j - arg_start(types, abi, i) < lower_args(
            types,
            abi,
            i,
            arg_start(types, abi, i),
            xs,
        ).len(),
        lower_args(types, abi, i, arg_start(types, abi, i), xs)[j - arg_start(types, abi, i)]
            == lower_bits(types[k], abi, arg_start(types, abi, k), xs[k])[j - arg_start(
            types,
            abi,
            k,
        )],
    decreases k - i,
{
    let at = arg_start(types, abi, i);
    lemma_arg_start(types, abi, i);
    let next = abi_span(types[i], abi, at)->Ok_0;
    let head = lower_bits(types[i], abi, at, xs[i]);
    let tail = lower_args(types, abi, i + 1, next, xs);
    lemma_lower_len(types[i], abi, at, xs[i]);
    lemma_arg_start(types, abi, i + 1);
    lemma_lower_args_len(types, abi, i + 1, next, xs);
    assert(arg_start(types, abi, i + 1) == next);
    assert(lower_args(types, abi, i, at, xs) == head + tail);
    if i < k {
        lemma_lower_args_from(types, abi, i + 1, k, xs, j);
    } else {
        lemma_arg_span_within(types, abi, i + 1, next);
    }
}

/// The span of the values `types[k..]` does not end before it starts.
proof fn lemma_arg_span_within(types: Seq<Type>, abi: Seq<ArgumentType>, k: int, at: int)
    requires
        0 <= k,
        args_span(types, abi, k, at) is Ok,
    ensures
        at <= args_span(types, abi, k, at)->Ok_0,
    decreases types.len() - k,
{
    if k < types.len() {
        let next = abi_span(types[k], abi, at)->Ok_0;
        lemma_lower_len(types[k], abi, at, Seq::empty());
        lemma_arg_span_within(types, abi, k + 1, next);
    }
}

/// Converting the values of a list to ABI arguments and each of them back gives the value
/// again.
///
/// Let `xs` be values of the types `types` that the arguments of `abi` can carry, all of
/// them and in order, and let `slots` hold, for each argument, the value that they are
/// converted to. Then the value that is computed back from the arguments that carry value
/// number `k` is `xs[k]`.
pub proof fn lemma_args_round_trip(
    types: Seq<Type>,
    abi: Seq<ArgumentType>,
    xs: Seq<Seq<bool>>,
    slots: Seq<Seq<bool>>,
    k: int,
)
    requires
        0 <= k < types.len(),
        forall|i: int| 0 <= i < types.len() ==> (#[trigger] types[i]).valid(),
        valid_types(abi),
        xs.len() == types.len(),
        xs[k].len() == types[k].spec_bits(),
        args_span(types, abi, 0, 0) is Ok,
        slots == lower_args(types, abi, 0, 0, xs),
    ensures
        raise_bits(types[k], abi, arg_start(types, abi, k), slots) == xs[k],
{
    let at = arg_start(types, abi, k);
    lemma_arg_start(types, abi, k);
    let end = abi_span(types[k], abi, at)->Ok_0;
    assert forall|j: int| at <= j < end implies #[trigger] slots[j] == lower_bits(
        types[k],
        abi,
        at,
        xs[k],
    )[j - at] by {
        lemma_lower_args_at(types, abi, k, xs, j);
    }
    lemma_span_grows(types[k], abi, at);
    lemma_lower_args_at(types, abi, k, xs, end - 1);
    lemma_round_trip(types[k], abi, at, xs[k], slots);
}

} // verus!
