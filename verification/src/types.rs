//! Value types: a lane type repeated over a power-of-two number of lanes.

use vstd::prelude::*;

verus! {

/// The type of a single lane.
#[derive(Clone, Copy, Debug, PartialEq, Eq, Structural)]
pub enum Lane {
    B1,
    B8,
    B16,
    B32,
    B64,
    I8,
    I16,
    I32,
    I64,
    F32,
    F64,
}

impl Lane {
    /// Number of bits in one lane.
    pub open spec fn spec_bits(self) -> u32 {
        match self {
            Lane::B1 => 1,
            Lane::B8 | Lane::I8 => 8,
            Lane::B16 | Lane::I16 => 16,
            Lane::B32 | Lane::I32 | Lane::F32 => 32,
            Lane::B64 | Lane::I64 | Lane::F64 => 64,
        }
    }

    #[verifier::when_used_as_spec(spec_bits)]
    pub fn bits(self) -> (r: u32)
        ensures
            r == self.spec_bits(),
    {
        match self {
            Lane::B1 => 1,
            Lane::B8 | Lane::I8 => 8,
            Lane::B16 | Lane::I16 => 16,
            Lane::B32 | Lane::I32 | Lane::F32 => 32,
            Lane::B64 | Lane::I64 | Lane::F64 => 64,
        }
    }

    /// True for the integer lane types.
    pub open spec fn spec_is_int(self) -> bool {
        self == Lane::I8 || self == Lane::I16 || self == Lane::I32 || self == Lane::I64
    }

    #[verifier::when_used_as_spec(spec_is_int)]
    pub fn is_int(self) -> (r: bool)
        ensures
            r == self.spec_is_int(),
    {
        matches!(self, Lane::I8 | Lane::I16 | Lane::I32 | Lane::I64)
    }

    /// True for the floating-point lane types.
    pub open spec fn spec_is_float(self) -> bool {
        self == Lane::F32 || self == Lane::F64
    }

    #[verifier::when_used_as_spec(spec_is_float)]
    pub fn is_float(self) -> (r: bool)
        ensures
            r == self.spec_is_float(),
    {
        matches!(self, Lane::F32 | Lane::F64)
    }

    /// The lane type of the same kind with half as many bits, where one exists.
    pub open spec fn spec_half(self) -> Option<Lane> {
        match self {
            Lane::B16 => Some(Lane::B8),
            Lane::B32 => Some(Lane::B16),
            Lane::B64 => Some(Lane::B32),
            Lane::I16 => Some(Lane::I8),
            Lane::I32 => Some(Lane::I16),
            Lane::I64 => Some(Lane::I32),
            Lane::F64 => Some(Lane::F32),
            _ => None,
        }
    }

    #[verifier::when_used_as_spec(spec_half)]
    pub fn half(self) -> (r: Option<Lane>)
        ensures
            r == self.spec_half(),
    {
        match self {
            Lane::B16 => Some(Lane::B8),
            Lane::B32 => Some(Lane::B16),
            Lane::B64 => Some(Lane::B32),
            Lane::I16 => Some(Lane::I8),
            Lane::I32 => Some(Lane::I16),
            Lane::I64 => Some(Lane::I32),
            Lane::F64 => Some(Lane::F32),
            _ => None,
        }
    }

    /// The integer lane type with the given number of bits, where one exists.
    pub open spec fn spec_integer(bits: u32) -> Option<Lane> {
        if bits == 8 {
            Some(Lane::I8)
        } else if bits == 16 {
            Some(Lane::I16)
        } else if bits == 32 {
            Some(Lane::I32)
        } else if bits == 64 {
            Some(Lane::I64)
        } else {
            None
        }
    }

    #[verifier::when_used_as_spec(spec_integer)]
    pub fn integer(bits: u32) -> (r: Option<Lane>)
        ensures
            r == Lane::spec_integer(bits),
    {
        if bits == 8 {
            Some(Lane::I8)
        } else if bits == 16 {
            Some(Lane::I16)
        } else if bits == 32 {
            Some(Lane::I32)
        } else if bits == 64 {
            Some(Lane::I64)
        } else {
            None
        }
    }
}

/// Largest supported base-2 logarithm of a lane count: vectors have at most 256 lanes.
pub const MAX_LOG2_LANES: u8 = 8;

/// A value type: `2^log2_lanes` lanes of type `lane`.
///
/// A `log2_lanes` above [`MAX_LOG2_LANES`] is read as [`MAX_LOG2_LANES`].
#[derive(Clone, Copy, Debug, PartialEq, Eq, Structural)]
pub struct Type {
    pub lane: Lane,
    pub log2_lanes: u8,
}

impl Type {
    pub open spec fn spec_scalar(lane: Lane) -> Type {
        Type { lane, log2_lanes: 0 }
    }

    /// The scalar type with one lane of type `lane`.
    #[verifier::when_used_as_spec(spec_scalar)]
    pub fn scalar(lane: Lane) -> (r: Type)
        ensures
            r == Type::spec_scalar(lane),
    {
        Type { lane, log2_lanes: 0 }
    }

    pub open spec fn spec_lane_count(self) -> u32 {
        match self.log2_lanes {
            0 => 1,
            1 => 2,
            2 => 4,
            3 => 8,
            4 => 16,
            5 => 32,
            6 => 64,
            7 => 128,
            _ => 256,
        }
    }

    /// Number of lanes.
    #[verifier::when_used_as_spec(spec_lane_count)]
    pub fn lane_count(self) -> (r: u32)
        ensures
            r == self.spec_lane_count(),
    {
        match self.log2_lanes {
            0 => 1,
            1 => 2,
            2 => 4,
            3 => 8,
            4 => 16,
            5 => 32,
            6 => 64,
            7 => 128,
            _ => 256,
        }
    }

    pub open spec fn spec_bits(self) -> u32 {
        (self.lane.spec_bits() * self.spec_lane_count()) as u32
    }

    /// Total number of bits in a value of this type.
    #[verifier::when_used_as_spec(spec_bits)]
    pub fn bits(self) -> (r: u32)
        ensures
            r == self.spec_bits(),
            r == self.lane.spec_bits() * self.spec_lane_count(),
            1 <= r <= 16384,
    {
        self.lane.bits() * self.lane_count()
    }

    pub open spec fn spec_is_scalar(self) -> bool {
        self.log2_lanes == 0
    }

    /// True for a type with a single lane.
    #[verifier::when_used_as_spec(spec_is_scalar)]
    pub fn is_scalar(self) -> (r: bool)
        ensures
            r == self.spec_is_scalar(),
    {
        self.log2_lanes == 0
    }

    pub open spec fn spec_is_int(self) -> bool {
        self.spec_is_scalar() && self.lane.spec_is_int()
    }

    /// True for a scalar integer type.
    #[verifier::when_used_as_spec(spec_is_int)]
    pub fn is_int(self) -> (r: bool)
        ensures
            r == self.spec_is_int(),
    {
        self.is_scalar() && self.lane.is_int()
    }

    pub open spec fn spec_is_float(self) -> bool {
        self.spec_is_scalar() && self.lane.spec_is_float()
    }

    /// True for a scalar floating-point type.
    #[verifier::when_used_as_spec(spec_is_float)]
    pub fn is_float(self) -> (r: bool)
        ensures
            r == self.spec_is_float(),
    {
        self.is_scalar() && self.lane.is_float()
    }

    pub open spec fn spec_half_width(self) -> Option<Type> {
        match self.lane.spec_half() {
            Some(lane) => Some(Type { lane, log2_lanes: self.log2_lanes }),
            None => None,
        }
    }

    /// The type with as many lanes, each half as wide, where one exists.
    #[verifier::when_used_as_spec(spec_half_width)]
    pub fn half_width(self) -> (r: Option<Type>)
        ensures
            r == self.spec_half_width(),
    {
        match self.lane.half() {
            Some(lane) => Some(Type { lane, log2_lanes: self.log2_lanes }),
            None => None,
        }
    }

    pub open spec fn spec_half_vector(self) -> Option<Type> {
        if self.log2_lanes == 0 {
            None
        } else {
            Some(Type { lane: self.lane, log2_lanes: (self.log2_lanes - 1) as u8 })
        }
    }

    /// The type with the same lanes and half as many of them, where this is a vector.
    #[verifier::when_used_as_spec(spec_half_vector)]
    pub fn half_vector(self) -> (r: Option<Type>)
        ensures
            r == self.spec_half_vector(),
    {
        if self.log2_lanes == 0 {
            None
        } else {
            Some(Type { lane: self.lane, log2_lanes: self.log2_lanes - 1 })
        }
    }

    pub open spec fn spec_integer(bits: u32) -> Option<Type> {
        match Lane::spec_integer(bits) {
            Some(lane) => Some(Type { lane, log2_lanes: 0 }),
            None => None,
        }
    }

    /// The scalar integer type with the given number of bits, where one exists.
    #[verifier::when_used_as_spec(spec_integer)]
    pub fn integer(bits: u32) -> (r: Option<Type>)
        ensures
            r == Type::spec_integer(bits),
    {
        match Lane::integer(bits) {
            Some(lane) => Some(Type { lane, log2_lanes: 0 }),
            None => None,
        }
    }

    /// True for a type with at most 256 lanes: its lane count is `2^log2_lanes`.
    pub open spec fn valid(self) -> bool {
        self.log2_lanes <= MAX_LOG2_LANES
    }

    /// A measure that every step of an ABI conversion lowers: halving the lanes, halving the
    /// lane width, and turning a scalar that is no integer into the integer of its width.
    pub open spec fn weight(self) -> nat {
        (200 * self.log2_lanes + 2 * self.lane.spec_bits() + if self.lane.spec_is_int() {
            0nat
        } else {
            1nat
        }) as nat
    }
}

} // verus!
