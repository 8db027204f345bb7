use legalizer::abi::{
    legalize_abi_value, list_assigned, ArgumentExtension, ArgumentLoc, ArgumentType, Signature,
    ValueConversion,
};
use legalizer::error::LegalizeError;
use legalizer::types::{Lane, Type};

fn scalar(lane: Lane) -> Type {
    Type::scalar(lane)
}

fn vector(lane: Lane, log2_lanes: u8) -> Type {
    Type { lane, log2_lanes }
}

fn abi(ty: Type, extension: ArgumentExtension) -> ArgumentType {
    ArgumentType { value_type: ty, extension, location: ArgumentLoc::Unassigned }
}

#[test]
fn lane_bits_are_exact() {
    assert_eq!(Lane::B1.bits(), 1);
    assert_eq!(Lane::B8.bits(), 8);
    assert_eq!(Lane::I8.bits(), 8);
    assert_eq!(Lane::I16.bits(), 16);
    assert_eq!(Lane::B32.bits(), 32);
    assert_eq!(Lane::F32.bits(), 32);
    assert_eq!(Lane::I64.bits(), 64);
    assert_eq!(Lane::F64.bits(), 64);
}

#[test]
fn type_bits_multiply_lanes() {
    assert_eq!(scalar(Lane::I32).bits(), 32);
    assert_eq!(vector(Lane::I32, 2).bits(), 128);
    assert_eq!(vector(Lane::F64, 1).bits(), 128);
    assert_eq!(vector(Lane::B1, 3).bits(), 8);
    assert_eq!(vector(Lane::I64, 8).bits(), 16384);
    assert_eq!(vector(Lane::I8, 4).lane_count(), 16);
}

#[test]
fn lane_count_saturates_at_256() {
    assert_eq!(vector(Lane::I8, 8).lane_count(), 256);
    assert_eq!(vector(Lane::I8, 9).lane_count(), 256);
    assert_eq!(vector(Lane::I8, 255).lane_count(), 256);
}

#[test]
fn scalar_kinds() {
    assert!(scalar(Lane::I8).is_int());
    assert!(!scalar(Lane::F32).is_int());
    assert!(!scalar(Lane::B8).is_int());
    assert!(!vector(Lane::I32, 1).is_int());
    assert!(scalar(Lane::F64).is_float());
    assert!(!vector(Lane::F64, 1).is_float());
    assert!(scalar(Lane::B1).is_scalar());
    assert!(!vector(Lane::B1, 1).is_scalar());
}

#[test]
fn half_width_halves_each_lane() {
    assert_eq!(scalar(Lane::I64).half_width(), Some(scalar(Lane::I32)));
    assert_eq!(scalar(Lane::I32).half_width(), Some(scalar(Lane::I16)));
    assert_eq!(scalar(Lane::I16).half_width(), Some(scalar(Lane::I8)));
    assert_eq!(scalar(Lane::I8).half_width(), None);
    assert_eq!(scalar(Lane::F64).half_width(), Some(scalar(Lane::F32)));
    assert_eq!(scalar(Lane::F32).half_width(), None);
    assert_eq!(scalar(Lane::B16).half_width(), Some(scalar(Lane::B8)));
    assert_eq!(scalar(Lane::B8).half_width(), None);
    assert_eq!(scalar(Lane::B1).half_width(), None);
    assert_eq!(vector(Lane::I32, 2).half_width(), Some(vector(Lane::I16, 2)));
}

#[test]
fn half_vector_halves_the_lanes() {
    assert_eq!(vector(Lane::I32, 2).half_vector(), Some(vector(Lane::I32, 1)));
    assert_eq!(vector(Lane::I32, 1).half_vector(), Some(scalar(Lane::I32)));
    assert_eq!(scalar(Lane::I32).half_vector(), None);
}

#[test]
fn integer_types_by_width() {
    assert_eq!(Type::integer(8), Some(scalar(Lane::I8)));
    assert_eq!(Type::integer(16), Some(scalar(Lane::I16)));
    assert_eq!(Type::integer(32), Some(scalar(Lane::I32)));
    assert_eq!(Type::integer(64), Some(scalar(Lane::I64)));
    assert_eq!(Type::integer(1), None);
    assert_eq!(Type::integer(128), None);
    assert_eq!(Type::integer(0), None);
}

#[test]
fn new_argument_has_no_annotations() {
    let a = ArgumentType::new(scalar(Lane::I32));
    assert_eq!(a.value_type, scalar(Lane::I32));
    assert_eq!(a.extension, ArgumentExtension::Unextended);
    assert_eq!(a.location, ArgumentLoc::Unassigned);
    assert!(!a.location.is_assigned());
    assert!(ArgumentLoc::Reg(3).is_assigned());
    assert!(ArgumentLoc::Stack(8).is_assigned());
}

#[test]
fn signature_is_legalized_when_all_locations_are_assigned() {
    let mut sig = Signature::new();
    assert!(sig.is_legalized());
    sig.argument_types.push(ArgumentType {
        value_type: scalar(Lane::I32),
        extension: ArgumentExtension::Unextended,
        location: ArgumentLoc::Reg(10),
    });
    assert!(sig.is_legalized());
    sig.return_types.push(ArgumentType::new(scalar(Lane::I32)));
    assert!(!sig.is_legalized());
    assert!(list_assigned(&sig.argument_types));
    assert!(!list_assigned(&sig.return_types));
}

#[test]
fn wide_integer_is_split() {
    let r = legalize_abi_value(scalar(Lane::I64), &abi(scalar(Lane::I32), ArgumentExtension::Unextended));
    assert_eq!(r, Ok(ValueConversion::IntSplit));
    assert_eq!(ValueConversion::IntSplit.apply(scalar(Lane::I64)), Some(scalar(Lane::I32)));
    assert!(ValueConversion::IntSplit.is_split());
}

#[test]
fn wide_float_becomes_integer_bits() {
    let r = legalize_abi_value(scalar(Lane::F64), &abi(scalar(Lane::I32), ArgumentExtension::Unextended));
    assert_eq!(r, Ok(ValueConversion::IntBits));
    assert_eq!(ValueConversion::IntBits.apply(scalar(Lane::F64)), Some(scalar(Lane::I64)));
    assert!(!ValueConversion::IntBits.is_split());
}

#[test]
fn scalar_of_the_width_of_an_integer_argument_becomes_integer_bits() {
    let r = legalize_abi_value(scalar(Lane::F32), &abi(scalar(Lane::I32), ArgumentExtension::Unextended));
    assert_eq!(r, Ok(ValueConversion::IntBits));
    assert_eq!(ValueConversion::IntBits.apply(scalar(Lane::F32)), Some(scalar(Lane::I32)));
    let r = legalize_abi_value(scalar(Lane::B64), &abi(scalar(Lane::I64), ArgumentExtension::Unextended));
    assert_eq!(r, Ok(ValueConversion::IntBits));
    // A wide scalar that is no integer becomes one before it is split.
    let r = legalize_abi_value(scalar(Lane::B64), &abi(scalar(Lane::I32), ArgumentExtension::Unextended));
    assert_eq!(r, Ok(ValueConversion::IntBits));
    // No integer has one bit.
    assert_eq!(ValueConversion::IntBits.apply(scalar(Lane::B1)), None);
}

#[test]
fn wide_vector_is_split() {
    let r = legalize_abi_value(vector(Lane::I32, 2), &abi(scalar(Lane::I64), ArgumentExtension::Unextended));
    assert_eq!(r, Ok(ValueConversion::VectorSplit));
    assert_eq!(ValueConversion::VectorSplit.apply(vector(Lane::I32, 2)), Some(vector(Lane::I32, 1)));
    assert!(ValueConversion::VectorSplit.is_split());
}

#[test]
fn vector_of_the_width_of_an_integer_argument_is_split() {
    let r = legalize_abi_value(vector(Lane::I32, 1), &abi(scalar(Lane::I64), ArgumentExtension::Unextended));
    assert_eq!(r, Ok(ValueConversion::VectorSplit));
}

#[test]
fn narrow_integer_is_extended_as_the_argument_asks() {
    let i8t = scalar(Lane::I8);
    let i32t = scalar(Lane::I32);
    assert_eq!(
        legalize_abi_value(i8t, &abi(i32t, ArgumentExtension::Uext)),
        Ok(ValueConversion::Uext(i32t))
    );
    assert_eq!(
        legalize_abi_value(i8t, &abi(i32t, ArgumentExtension::Sext)),
        Ok(ValueConversion::Sext(i32t))
    );
    assert_eq!(ValueConversion::Sext(i32t).apply(i8t), Some(i32t));
    assert_eq!(ValueConversion::Uext(i32t).apply(i8t), Some(i32t));
    assert!(!ValueConversion::Uext(i32t).is_split());
}

#[test]
fn unsupported_shapes_are_errors() {
    let i8t = scalar(Lane::I8);
    let i32t = scalar(Lane::I32);
    // Narrower, and no extension asked for.
    assert_eq!(
        legalize_abi_value(i8t, &abi(i32t, ArgumentExtension::Unextended)),
        Err(LegalizeError::UnsupportedConversion)
    );
    // Narrower, and not an integer.
    assert_eq!(
        legalize_abi_value(scalar(Lane::F32), &abi(scalar(Lane::I64), ArgumentExtension::Uext)),
        Err(LegalizeError::UnsupportedConversion)
    );
    // Same width, an integer.
    assert_eq!(
        legalize_abi_value(scalar(Lane::I32), &abi(scalar(Lane::F32), ArgumentExtension::Unextended)),
        Err(LegalizeError::UnsupportedConversion)
    );
    // Same width, argument not an integer.
    assert_eq!(
        legalize_abi_value(vector(Lane::I32, 1), &abi(scalar(Lane::F64), ArgumentExtension::Unextended)),
        Err(LegalizeError::UnsupportedConversion)
    );
}
