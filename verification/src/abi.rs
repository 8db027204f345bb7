//! Signatures, ABI argument types, and how a value of a natural type is carried by ABI arguments.

use crate::error::LegalizeError;
use crate::types::Type;
use vstd::prelude::*;

verus! {

/// How the ABI wants a narrow integer argument widened.
#[derive(Clone, Copy, Debug, PartialEq, Eq, Structural)]
pub enum ArgumentExtension {
    /// No extension: the high bits are unspecified.
    Unextended,
    /// Zero-extended to the full width.
    Uext,
    /// Sign-extended to the full width.
    Sext,
}

/// Where the ABI places an argument.
#[derive(Clone, Copy, Debug, PartialEq, Eq, Structural)]
pub enum ArgumentLoc {
    /// Not yet assigned by the target.
    Unassigned,
    /// In the register unit with this number.
    Reg(u16),
    /// On the stack at this byte offset.
    Stack(u32),
}

impl ArgumentLoc {
    /// True for every location but [`Unassigned`](ArgumentLoc::Unassigned).
    pub open spec fn spec_is_assigned(self) -> bool {
        self != ArgumentLoc::Unassigned
    }

    #[verifier::when_used_as_spec(spec_is_assigned)]
    pub fn is_assigned(self) -> (r: bool)
        ensures
            r == self.spec_is_assigned(),
    {
        !matches!(self, ArgumentLoc::Unassigned)
    }
}

/// The type of one argument or return value of a signature, with its ABI annotations.
#[derive(Clone, Copy, Debug, PartialEq, Eq, Structural)]
pub struct ArgumentType {
    pub value_type: Type,
    pub extension: ArgumentExtension,
    pub location: ArgumentLoc,
}

impl ArgumentType {
    pub open spec fn spec_new(value_type: Type) -> ArgumentType {
        ArgumentType {
            value_type,
            extension: ArgumentExtension::Unextended,
            location: ArgumentLoc::Unassigned,
        }
    }

    /// An argument of the given type without ABI annotations.
    #[verifier::when_used_as_spec(spec_new)]
    pub fn new(value_type: Type) -> (r: ArgumentType)
        ensures
            r == ArgumentType::spec_new(value_type),
    {
        ArgumentType {
            value_type,
            extension: ArgumentExtension::Unextended,
            location: ArgumentLoc::Unassigned,
        }
    }
}

/// The value types of a list of ABI arguments, in order.
pub open spec fn value_types(abi: Seq<ArgumentType>) -> Seq<Type> {
    Seq::new(abi.len(), |i: int| abi[i].value_type)
}

/// True when every argument in the list has a location.
pub open spec fn all_assigned(abi: Seq<ArgumentType>) -> bool {
    forall|i: int| 0 <= i < abi.len() ==> (#[trigger] abi[i]).location.spec_is_assigned()
}

/// A function signature.
#[derive(Clone, Debug)]
pub struct Signature {
    pub argument_types: Vec<ArgumentType>,
    pub return_types: Vec<ArgumentType>,
}

impl Signature {
    /// The signature without arguments or return values.
    pub fn new() -> (r: Signature)
        ensures
            r.argument_types@ == Seq::<ArgumentType>::empty(),
            r.return_types@ == Seq::<ArgumentType>::empty(),
    {
        Signature { argument_types: Vec::new(), return_types: Vec::new() }
    }

    /// True when every argument and return value has a location: the signature is legalized.
    pub open spec fn spec_is_legalized(&self) -> bool {
        all_assigned(self.argument_types@) && all_assigned(self.return_types@)
    }

    #[verifier::when_used_as_spec(spec_is_legalized)]
    pub fn is_legalized(&self) -> (r: bool)
        ensures
            r == self.spec_is_legalized(),
    {
        list_assigned(&self.argument_types) && list_assigned(&self.return_types)
    }

    /// True when both signatures list the same arguments and return values.
    pub open spec fn same_as(&self, other: &Signature) -> bool {
        self.argument_types@ == other.argument_types@ && self.return_types@ == other.return_types@
    }
}

/// Tests whether every argument in the list has a location.
pub fn list_assigned(abi: &Vec<ArgumentType>) -> (r: bool)
    ensures
        r == all_assigned(abi@),
{
    let mut i: usize = 0;
    while i < abi.len()
        invariant
            i <= abi.len(),
            forall|j: int| 0 <= j < i ==> (#[trigger] abi@[j]).location.spec_is_assigned(),
        decreases abi.len() - i,
    {
        if !abi[i].location.is_assigned() {
            return false;
        }
        i += 1;
    }
    true
}

/// What has to be done to a value so that it can be passed as ABI arguments.
#[derive(Clone, Copy, Debug, PartialEq, Eq, Structural)]
pub enum ValueConversion {
    /// Split an integer into its low and high halves.
    IntSplit,
    /// Split a vector into its low and high halves.
    VectorSplit,
    /// Reinterpret the bits as the integer of the same width.
    IntBits,
    /// Sign-extend an integer to the given wider type.
    Sext(Type),
    /// Zero-extend an integer to the given wider type.
    Uext(Type),
}

impl ValueConversion {
    /// The type that a value of type `ty` has after this conversion (for a split: the type of
    /// each half), where the conversion applies to `ty`.
    pub open spec fn spec_apply(self, ty: Type) -> Option<Type> {
        match self {
            ValueConversion::IntSplit => ty.spec_half_width(),
            ValueConversion::VectorSplit => ty.spec_half_vector(),
            ValueConversion::IntBits => Type::spec_integer(ty.spec_bits()),
            ValueConversion::Sext(to) => Some(to),
            ValueConversion::Uext(to) => Some(to),
        }
    }

    #[verifier::when_used_as_spec(spec_apply)]
    pub fn apply(self, ty: Type) -> (r: Option<Type>)
        ensures
            r == self.spec_apply(ty),
    {
        match self {
            ValueConversion::IntSplit => ty.half_width(),
            ValueConversion::VectorSplit => ty.half_vector(),
            ValueConversion::IntBits => Type::integer(ty.bits()),
            ValueConversion::Sext(to) => Some(to),
            ValueConversion::Uext(to) => Some(to),
        }
    }

    /// True for the two kinds of split.
    pub open spec fn spec_is_split(self) -> bool {
        self == ValueConversion::IntSplit || self == ValueConversion::VectorSplit
    }

    /// True when the conversion turns one value into two.
    #[verifier::when_used_as_spec(spec_is_split)]
    pub fn is_split(self) -> (r: bool)
        ensures
            r == self.spec_is_split(),
    {
        matches!(self, ValueConversion::IntSplit | ValueConversion::VectorSplit)
    }
}

/// The conversion that brings a value of type `have` one step closer to the ABI argument `arg`,
/// for `have` different from the argument's type.
///
/// A narrower integer is extended as the argument asks. A vector that is wider than the
/// argument, or as wide as an integer argument, is split. A scalar that is wider than the
/// argument is split if it is an integer, and reinterpreted as the integer of its width if it
/// is not; so is a scalar that is no integer and as wide as an integer argument. Nothing else
/// is supported.
pub open spec fn conversion(have: Type, arg: ArgumentType) -> Result<ValueConversion, LegalizeError> {
    let have_bits = have.spec_bits();
    let arg_bits = arg.value_type.spec_bits();
    if have_bits < arg_bits {
        if have.spec_is_int() && arg.value_type.spec_is_int() {
            match arg.extension {
                ArgumentExtension::Uext => Ok(ValueConversion::Uext(arg.value_type)),
                ArgumentExtension::Sext => Ok(ValueConversion::Sext(arg.value_type)),
                ArgumentExtension::Unextended => Err(LegalizeError::UnsupportedConversion),
            }
        } else {
            Err(LegalizeError::UnsupportedConversion)
        }
    } else if have_bits == arg_bits {
        if !arg.value_type.spec_is_int() {
            Err(LegalizeError::UnsupportedConversion)
        } else if !have.spec_is_scalar() {
            Ok(ValueConversion::VectorSplit)
        } else if have.spec_is_int() {
            Err(LegalizeError::UnsupportedConversion)
        } else {
            Ok(ValueConversion::IntBits)
        }
    } else if !have.spec_is_scalar() {
        Ok(ValueConversion::VectorSplit)
    } else if have.spec_is_int() {
        Ok(ValueConversion::IntSplit)
    } else {
        Ok(ValueConversion::IntBits)
    }
}

/// Determines how a value of type `have` is converted towards the ABI argument `arg`.
pub fn legalize_abi_value(have: Type, arg: &ArgumentType) -> (r: Result<
    ValueConversion,
    LegalizeError,
>)
    ensures
        r == conversion(have, *arg),
{
    let have_bits: u32 = have.bits();
    let arg_bits: u32 = arg.value_type.bits();
    if have_bits < arg_bits {
        if have.is_int() && arg.value_type.is_int() {
            match arg.extension {
                ArgumentExtension::Uext => Ok(ValueConversion::Uext(arg.value_type)),
                ArgumentExtension::Sext => Ok(ValueConversion::Sext(arg.value_type)),
                ArgumentExtension::Unextended => Err(LegalizeError::UnsupportedConversion),
            }
        } else {
            Err(LegalizeError::UnsupportedConversion)
        }
    } else if have_bits == arg_bits {
        if !arg.value_type.is_int() {
            Err(LegalizeError::UnsupportedConversion)
        } else if !have.is_scalar() {
            Ok(ValueConversion::VectorSplit)
        } else if have.is_int() {
            Err(LegalizeError::UnsupportedConversion)
        } else {
            Ok(ValueConversion::IntBits)
        }
    } else if !have.is_scalar() {
        Ok(ValueConversion::VectorSplit)
    } else if have.is_int() {
        Ok(ValueConversion::IntSplit)
    } else {
        Ok(ValueConversion::IntBits)
    }
}

/// The type one conversion step away from `ty` on the way to the ABI argument `arg`.
pub open spec fn step(ty: Type, arg: ArgumentType) -> Result<(ValueConversion, Type), LegalizeError> {
    match conversion(ty, arg) {
        Err(e) => Err(e),
        Ok(conv) => match conv.spec_apply(ty) {
            None => Err(LegalizeError::UnsupportedConversion),
            Some(to) => Ok((conv, to)),
        },
    }
}

/// What is left to convert before a value of type `ty` meets argument `at` of `abi`: zero when
/// the types agree, and lowered by every conversion step.
pub open spec fn distance(ty: Type, abi: Seq<ArgumentType>, at: int) -> nat {
    if 0 <= at < abi.len() && abi[at].value_type == ty {
        0
    } else {
        ty.weight() + 1
    }
}

/// A conversion step lowers the distance: a half is closer to every argument of the list, and
/// what comes out of another step is closer to the argument itself.
pub proof fn lemma_step_lowers(ty: Type, abi: Seq<ArgumentType>, at: int, next: int)
    requires
        0 <= at < abi.len(),
        abi[at].value_type != ty,
        step(ty, abi[at]) is Ok,
    ensures
        step(ty, abi[at])->Ok_0.0.spec_is_split() ==> distance(
            step(ty, abi[at])->Ok_0.1,
            abi,
            next,
        ) < distance(ty, abi, at),
        !step(ty, abi[at])->Ok_0.0.spec_is_split() ==> distance(
            step(ty, abi[at])->Ok_0.1,
            abi,
            at,
        ) < distance(ty, abi, at),
{
    let (conv, to) = step(ty, abi[at])->Ok_0;
    match conv {
        ValueConversion::IntSplit => {},
        ValueConversion::VectorSplit => {},
        ValueConversion::IntBits => {
            assert(ty.spec_lane_count() == 1);
            assert(ty.spec_bits() == ty.lane.spec_bits());
            assert(!ty.lane.spec_is_int());
        },
        ValueConversion::Sext(t) => {
            assert(t == abi[at].value_type);
        },
        ValueConversion::Uext(t) => {
            assert(t == abi[at].value_type);
        },
    }
}

/// The ABI arguments of `abi` that carry a value of type `ty` when the first of them is
/// argument `at`: the result is the index after the last of them.
///
/// An argument of type `ty` carries the value alone. Otherwise the value is converted one
/// step towards the argument at `at`, and what comes out is carried from `at` on: the two
/// halves of a split one after the other, low half first.
pub open spec fn abi_span(ty: Type, abi: Seq<ArgumentType>, at: int) -> Result<int, LegalizeError>
    decreases distance(ty, abi, at),
{
    if !(0 <= at < abi.len()) {
        Err(LegalizeError::AbiArgumentsExhausted)
    } else if abi[at].value_type == ty {
        Ok(at + 1)
    } else {
        match step(ty, abi[at]) {
            Err(e) => Err(e),
            Ok((conv, to)) => {
                proof {
                    lemma_step_lowers(ty, abi, at, at);
                }
                if conv.spec_is_split() {
                    match abi_span(to, abi, at) {
                        Err(e) => Err(e),
                        Ok(mid) => {
                            proof {
                                lemma_step_lowers(ty, abi, at, mid);
                            }
                            abi_span(to, abi, mid)
                        },
                    }
                } else {
                    abi_span(to, abi, at)
                }
            },
        }
    }
}

/// The number of conversion steps between a value of type `ty` and the ABI arguments that
/// carry it, the first of which is argument `at` of `abi`: none for an argument of type `ty`,
/// and otherwise one step and those of what comes out of it.
pub open spec fn conversion_steps(ty: Type, abi: Seq<ArgumentType>, at: int) -> nat
    decreases distance(ty, abi, at),
{
    if !(0 <= at < abi.len()) || abi[at].value_type == ty {
        0
    } else {
        match step(ty, abi[at]) {
            Err(_) => 0,
            Ok((conv, to)) => {
                proof {
                    lemma_step_lowers(ty, abi, at, at);
                }
                if conv.spec_is_split() {
                    match abi_span(to, abi, at) {
                        Err(_) => 0,
                        Ok(mid) => {
                            proof {
                                lemma_step_lowers(ty, abi, at, mid);
                            }
                            1 + conversion_steps(to, abi, at) + conversion_steps(to, abi, mid)
                        },
                    }
                } else {
                    1 + conversion_steps(to, abi, at)
                }
            },
        }
    }
}

/// The arguments that carry a value are at least one and lie within the list.
pub proof fn lemma_span_grows(ty: Type, abi: Seq<ArgumentType>, at: int)
    requires
        abi_span(ty, abi, at) is Ok,
    ensures
        0 <= at < abi_span(ty, abi, at)->Ok_0 <= abi.len(),
    decreases distance(ty, abi, at),
{
    if abi[at].value_type != ty {
        let (conv, to) = step(ty, abi[at])->Ok_0;
        lemma_step_lowers(ty, abi, at, at);
        if conv.spec_is_split() {
            let mid = abi_span(to, abi, at)->Ok_0;
            lemma_step_lowers(ty, abi, at, mid);
            lemma_span_grows(to, abi, at);
            lemma_span_grows(to, abi, mid);
        } else {
            lemma_span_grows(to, abi, at);
        }
    }
}

/// The ABI arguments of `abi` that carry, one value after the other, values of the types
/// `types[k..]`, when the first of them is argument `at`: the result is the index after the
/// last of them. Before each value is converted there must be at least one ABI argument left
/// for it and for each value after it.
pub open spec fn args_span(types: Seq<Type>, abi: Seq<ArgumentType>, k: int, at: int) -> Result<
    int,
    LegalizeError,
>
    decreases types.len() - k,
{
    if k >= types.len() {
        Ok(at)
    } else if types.len() - k > abi.len() - at {
        Err(LegalizeError::AbiArgumentsExhausted)
    } else {
        match abi_span(types[k], abi, at) {
            Err(e) => Err(e),
            Ok(next) => args_span(types, abi, k + 1, next),
        }
    }
}

/// Whether values of the types `types` can be carried by the ABI arguments `abi`, all of them
/// and in order, and if not, why not.
pub open spec fn args_outcome(types: Seq<Type>, abi: Seq<ArgumentType>) -> Result<(), LegalizeError> {
    match args_span(types, abi, 0, 0) {
        Err(e) => Err(e),
        Ok(end) => if end == abi.len() {
            Ok(())
        } else {
            Err(LegalizeError::AbiArgumentsLeftOver)
        },
    }
}

/// The number of conversion steps between values of the types `types[k..]` and the ABI
/// arguments that carry them one after the other, the first of which is argument `at`.
pub open spec fn args_steps(types: Seq<Type>, abi: Seq<ArgumentType>, k: int, at: int) -> nat
    decreases types.len() - k,
{
    if k >= types.len() {
        0
    } else {
        match abi_span(types[k], abi, at) {
            Err(_) => 0,
            Ok(next) => conversion_steps(types[k], abi, at) + args_steps(types, abi, k + 1, next),
        }
    }
}

/// Where no ABI arguments carry a value, there are too few of them or a conversion is not
/// supported.
pub proof fn lemma_span_error(ty: Type, abi: Seq<ArgumentType>, at: int)
    ensures
        abi_span(ty, abi, at) matches Err(e) ==> e == LegalizeError::AbiArgumentsExhausted || e
            == LegalizeError::UnsupportedConversion,
    decreases distance(ty, abi, at),
{
    if 0 <= at < abi.len() && abi[at].value_type != ty {
        match step(ty, abi[at]) {
            Err(_) => {},
            Ok((conv, to)) => {
                lemma_step_lowers(ty, abi, at, at);
                lemma_span_error(to, abi, at);
                if conv.spec_is_split() {
                    match abi_span(to, abi, at) {
                        Err(_) => {},
                        Ok(mid) => {
                            lemma_step_lowers(ty, abi, at, mid);
                            lemma_span_error(to, abi, mid);
                        },
                    }
                }
            },
        }
    }
}

/// Where no ABI arguments carry the values of a list, there are too few of them or a
/// conversion is not supported.
pub proof fn lemma_args_error(types: Seq<Type>, abi: Seq<ArgumentType>, k: int, at: int)
    ensures
        args_span(types, abi, k, at) matches Err(e) ==> e == LegalizeError::AbiArgumentsExhausted
            || e == LegalizeError::UnsupportedConversion,
    decreases types.len() - k,
{
    if k < types.len() && !(types.len() - k > abi.len() - at) {
        lemma_span_error(types[k], abi, at);
        match abi_span(types[k], abi, at) {
            Err(_) => {},
            Ok(next) => {
                lemma_args_error(types, abi, k + 1, next);
            },
        }
    }
}

/// Values that the ABI arguments cannot carry fail with an error of conversion.
pub proof fn lemma_outcome_error(types: Seq<Type>, abi: Seq<ArgumentType>)
    ensures
        args_outcome(types, abi) matches Err(e) ==> e.is_conversion(),
{
    lemma_args_error(types, abi, 0, 0);
}

} // verus!
