use legalizer::abi::{ArgumentExtension, ArgumentLoc, ArgumentType, Signature};
use legalizer::boundary::{
    check_arg_types, check_call_signature, grow_at, handle_call_abi, handle_return_abi,
    legalize_inst_arguments,
};
use legalizer::convert::{convert_from_abi, convert_to_abi, ArgSlots};
use legalizer::entities::{Ebb, Inst, SigRef, Value};
use legalizer::entry::legalize_entry_arguments;
use legalizer::error::LegalizeError;
use legalizer::function::{CallTarget, Cursor, Function, Opcode};
use legalizer::types::{Lane, Type};

fn i8t() -> Type {
    Type::scalar(Lane::I8)
}

fn i16t() -> Type {
    Type::scalar(Lane::I16)
}

fn i32t() -> Type {
    Type::scalar(Lane::I32)
}

fn i64t() -> Type {
    Type::scalar(Lane::I64)
}

fn f32t() -> Type {
    Type::scalar(Lane::F32)
}

fn f64t() -> Type {
    Type::scalar(Lane::F64)
}

fn reg(ty: Type, n: u16) -> ArgumentType {
    ArgumentType {
        value_type: ty,
        extension: ArgumentExtension::Unextended,
        location: ArgumentLoc::Reg(n),
    }
}

fn reg_ext(ty: Type, extension: ArgumentExtension, n: u16) -> ArgumentType {
    ArgumentType { value_type: ty, extension, location: ArgumentLoc::Reg(n) }
}

fn sig(args: Vec<ArgumentType>, rets: Vec<ArgumentType>) -> Signature {
    Signature { argument_types: args, return_types: rets }
}

/// A function with one block whose parameters have the given types.
fn func_with_params(signature: Signature, params: &[Type]) -> (Function, Vec<Value>) {
    let mut func = Function::new(signature);
    let ebb = func.make_ebb();
    let mut values = Vec::new();
    for ty in params {
        values.push(func.append_ebb_arg(ebb, *ty));
    }
    (func, values)
}

fn types_of(func: &Function, values: &[Value]) -> Vec<Type> {
    values.iter().map(|v| func.values[v.0].ty).collect()
}

fn opcodes(func: &Function, ebb: usize) -> Vec<Opcode> {
    func.blocks[ebb].insts.iter().map(|i| func.insts[i.0].opcode).collect()
}

#[test]
fn arg_types_are_compared_one_for_one() {
    let (func, v) = func_with_params(Signature::new(), &[i32t(), i64t(), i8t()]);
    assert!(check_arg_types(&func, &v, 0, &vec![reg(i32t(), 1), reg(i64t(), 2), reg(i8t(), 3)]));
    assert!(!check_arg_types(&func, &v, 0, &vec![reg(i32t(), 1), reg(i64t(), 2)]));
    assert!(!check_arg_types(&func, &v, 0, &vec![reg(i32t(), 1), reg(i64t(), 2), reg(i8t(), 3), reg(i8t(), 4)]));
    assert!(!check_arg_types(&func, &v, 0, &vec![reg(i32t(), 1), reg(i32t(), 2), reg(i8t(), 3)]));
    // Leaving out the first value.
    assert!(check_arg_types(&func, &v, 1, &vec![reg(i64t(), 2), reg(i8t(), 3)]));
    assert!(check_arg_types(&func, &v, 3, &vec![]));
    assert!(check_arg_types(&func, &vec![], 0, &vec![]));
    assert!(!check_arg_types(&func, &vec![], 0, &vec![reg(i8t(), 1)]));
}

#[test]
fn grow_at_moves_the_tail() {
    let mut list = vec![Value(1), Value(2), Value(3)];
    grow_at(&mut list, 1, 2, Value(9));
    assert_eq!(list, vec![Value(1), Value(9), Value(9), Value(2), Value(3)]);
    grow_at(&mut list, 5, 1, Value(7));
    assert_eq!(list, vec![Value(1), Value(9), Value(9), Value(2), Value(3), Value(7)]);
    grow_at(&mut list, 0, 0, Value(7));
    assert_eq!(list.len(), 6);
}

/// A call whose arguments and results match its signature is left alone.
#[test]
fn call_that_matches_is_not_changed() {
    let (mut func, v) = func_with_params(Signature::new(), &[i32t(), i32t()]);
    let s = func.import_signature(sig(vec![reg(i32t(), 10), reg(i32t(), 11)], vec![reg(i32t(), 10)]));
    let f = func.import_function(s);
    let call = func.append_inst(Ebb(0), Opcode::Call, vec![v[0], v[1]], CallTarget::Direct(f), &vec![i32t()]);
    assert_eq!(check_call_signature(&func, call), None);
    let before = func.clone();
    let mut pos = Cursor { block: 0, inst: 0 };
    assert_eq!(handle_call_abi(&mut func, &mut pos), Ok(false));
    assert_eq!(pos, Cursor { block: 0, inst: 0 });
    assert_eq!(func.insts[call.0].args, vec![v[0], v[1]]);
    assert_eq!(func.insts[call.0].args, before.insts[call.0].args);
    assert_eq!(func.insts.len(), before.insts.len());
    assert_eq!(func.values.len(), before.values.len());
    assert_eq!(func.blocks[0].insts, before.blocks[0].insts);
}

/// An `i8` argument for an ABI argument that is `i32`, zero-extended: the operand list keeps
/// its length, and one extension is put before the call.
#[test]
fn narrow_argument_is_extended() {
    let (mut func, v) = func_with_params(Signature::new(), &[i8t()]);
    let s = func.import_signature(sig(vec![reg_ext(i32t(), ArgumentExtension::Uext, 10)], vec![]));
    let f = func.import_function(s);
    let call = func.append_inst(Ebb(0), Opcode::Call, vec![v[0]], CallTarget::Direct(f), &vec![]);
    assert_eq!(check_call_signature(&func, call), Some(s));
    let mut pos = Cursor { block: 0, inst: 0 };
    assert_eq!(handle_call_abi(&mut func, &mut pos), Ok(true));
    // The cursor is still at the call, which is now the second instruction.
    assert_eq!(pos, Cursor { block: 0, inst: 1 });
    assert_eq!(func.blocks[0].insts.len(), 2);
    assert_eq!(func.blocks[0].insts[1], call);
    let ext = func.blocks[0].insts[0];
    assert_eq!(func.insts[ext.0].opcode, Opcode::Uextend);
    assert_eq!(func.insts[ext.0].args, vec![v[0]]);
    assert_eq!(func.insts[ext.0].results.len(), 1);
    let extended = func.insts[ext.0].results[0];
    assert_eq!(func.values[extended.0].ty, i32t());
    assert_eq!(func.insts[call.0].args, vec![extended]);
    assert_eq!(check_call_signature(&func, call), None);
    // A second look finds nothing to do.
    assert_eq!(handle_call_abi(&mut func, &mut pos), Ok(false));
}

#[test]
fn signed_argument_is_sign_extended() {
    let (mut func, v) = func_with_params(Signature::new(), &[i16t()]);
    let s = func.import_signature(sig(vec![reg_ext(i32t(), ArgumentExtension::Sext, 10)], vec![]));
    let f = func.import_function(s);
    func.append_inst(Ebb(0), Opcode::Call, vec![v[0]], CallTarget::Direct(f), &vec![]);
    let mut pos = Cursor { block: 0, inst: 0 };
    assert_eq!(handle_call_abi(&mut func, &mut pos), Ok(true));
    assert_eq!(opcodes(&func, 0), vec![Opcode::Sextend, Opcode::Call]);
}

/// An `i64` argument for two `i32` ABI arguments: the operand list grows by one, and the two
/// halves come from one split.
#[test]
fn wide_argument_is_split_in_place() {
    let (mut func, v) = func_with_params(Signature::new(), &[i32t(), i64t(), i32t()]);
    let s = func.import_signature(sig(
        vec![reg(i32t(), 10), reg(i32t(), 11), reg(i32t(), 12), reg(i32t(), 13)],
        vec![],
    ));
    let f = func.import_function(s);
    let call = func.append_inst(Ebb(0), Opcode::Call, vec![v[0], v[1], v[2]], CallTarget::Direct(f), &vec![]);
    let mut pos = Cursor { block: 0, inst: 0 };
    assert_eq!(handle_call_abi(&mut func, &mut pos), Ok(true));
    assert_eq!(opcodes(&func, 0), vec![Opcode::IsplitLohi, Opcode::Call]);
    let split = func.blocks[0].insts[0];
    assert_eq!(func.insts[split.0].args, vec![v[1]]);
    let lo = func.insts[split.0].results[0];
    let hi = func.insts[split.0].results[1];
    assert_eq!(func.insts[call.0].args, vec![v[0], lo, hi, v[2]]);
    assert_eq!(
        types_of(&func, &func.insts[call.0].args),
        vec![i32t(), i32t(), i32t(), i32t()]
    );
}

/// An `f64` argument on a 32-bit ABI: cast to `i64`, then split.
#[test]
fn float_argument_is_cast_and_split() {
    let (mut func, v) = func_with_params(Signature::new(), &[f64t()]);
    let s = func.import_signature(sig(vec![reg(i32t(), 10), reg(i32t(), 11)], vec![]));
    let f = func.import_function(s);
    let call = func.append_inst(Ebb(0), Opcode::Call, vec![v[0]], CallTarget::Direct(f), &vec![]);
    let mut pos = Cursor { block: 0, inst: 0 };
    assert_eq!(handle_call_abi(&mut func, &mut pos), Ok(true));
    assert_eq!(opcodes(&func, 0), vec![Opcode::Bitcast, Opcode::IsplitLohi, Opcode::Call]);
    let cast = func.blocks[0].insts[0];
    let split = func.blocks[0].insts[1];
    assert_eq!(func.insts[cast.0].args, vec![v[0]]);
    assert_eq!(func.values[func.insts[cast.0].results[0].0].ty, i64t());
    assert_eq!(func.insts[split.0].args, vec![func.insts[cast.0].results[0]]);
    assert_eq!(func.insts[call.0].args, func.insts[split.0].results);
    assert_eq!(pos, Cursor { block: 0, inst: 2 });
}

/// The callee of an indirect call is no argument of the signature and stays in front.
#[test]
fn indirect_call_keeps_its_callee() {
    let (mut func, v) = func_with_params(Signature::new(), &[i32t(), i64t()]);
    let s = func.import_signature(sig(vec![reg(i32t(), 10), reg(i32t(), 11)], vec![]));
    let call = func.append_inst(
        Ebb(0),
        Opcode::CallIndirect,
        vec![v[0], v[1]],
        CallTarget::Indirect(s),
        &vec![],
    );
    assert_eq!(check_call_signature(&func, call), Some(s));
    let mut pos = Cursor { block: 0, inst: 0 };
    assert_eq!(handle_call_abi(&mut func, &mut pos), Ok(true));
    let split = func.blocks[0].insts[0];
    assert_eq!(func.insts[split.0].opcode, Opcode::IsplitLohi);
    let lo = func.insts[split.0].results[0];
    let hi = func.insts[split.0].results[1];
    assert_eq!(func.insts[call.0].args, vec![v[0], lo, hi]);
    assert_eq!(check_call_signature(&func, call), None);
}

#[test]
fn indirect_call_that_matches_is_not_changed() {
    let (mut func, v) = func_with_params(Signature::new(), &[i64t(), i32t()]);
    let s = func.import_signature(sig(vec![reg(i32t(), 10)], vec![]));
    let call = func.append_inst(
        Ebb(0),
        Opcode::CallIndirect,
        vec![v[0], v[1]],
        CallTarget::Indirect(s),
        &vec![],
    );
    assert_eq!(check_call_signature(&func, call), None);
    let mut pos = Cursor { block: 0, inst: 0 };
    assert_eq!(handle_call_abi(&mut func, &mut pos), Ok(false));
    assert_eq!(func.insts[call.0].args, vec![v[0], v[1]]);
}

/// Results are not converted: a call whose arguments match and whose results do not is an
/// error that names the call.
#[test]
fn call_results_that_do_not_match_are_an_error() {
    let (mut func, v) = func_with_params(Signature::new(), &[i32t()]);
    let s = func.import_signature(sig(vec![reg(i32t(), 10)], vec![reg(i32t(), 10), reg(i32t(), 11)]));
    let f = func.import_function(s);
    let call = func.append_inst(Ebb(0), Opcode::Call, vec![v[0]], CallTarget::Direct(f), &vec![i64t()]);
    assert_eq!(check_call_signature(&func, call), Some(s));
    let mut pos = Cursor { block: 0, inst: 0 };
    assert_eq!(
        handle_call_abi(&mut func, &mut pos),
        Err(LegalizeError::UnconvertedCallResults(call))
    );
    assert_eq!(func.blocks[0].insts, vec![call]);
}

#[test]
fn return_that_matches_is_not_changed() {
    let (mut func, v) = func_with_params(sig(vec![], vec![reg(i32t(), 10)]), &[i32t()]);
    let ret = func.append_inst(Ebb(0), Opcode::Return, vec![v[0]], CallTarget::NotACall, &vec![]);
    let mut pos = Cursor { block: 0, inst: 0 };
    assert_eq!(handle_return_abi(&mut func, &mut pos), Ok(false));
    assert_eq!(func.insts[ret.0].args, vec![v[0]]);
    assert_eq!(func.blocks[0].insts, vec![ret]);
}

#[test]
fn wide_return_value_is_split() {
    let (mut func, v) = func_with_params(sig(vec![], vec![reg(i32t(), 10), reg(i32t(), 11)]), &[i64t()]);
    let ret = func.append_inst(Ebb(0), Opcode::Return, vec![v[0]], CallTarget::NotACall, &vec![]);
    let mut pos = Cursor { block: 0, inst: 0 };
    assert_eq!(handle_return_abi(&mut func, &mut pos), Ok(true));
    assert_eq!(opcodes(&func, 0), vec![Opcode::IsplitLohi, Opcode::Return]);
    let split = func.blocks[0].insts[0];
    assert_eq!(func.insts[ret.0].args, func.insts[split.0].results);
    assert_eq!(handle_return_abi(&mut func, &mut pos), Ok(false));
}

#[test]
fn conversion_goes_before_the_instruction_in_the_middle_of_a_block() {
    let (mut func, v) = func_with_params(sig(vec![], vec![reg(i32t(), 10), reg(i32t(), 11)]), &[i64t()]);
    let first = func.append_inst(Ebb(0), Opcode::Nop, vec![], CallTarget::NotACall, &vec![]);
    let ret = func.append_inst(Ebb(0), Opcode::Return, vec![v[0]], CallTarget::NotACall, &vec![]);
    let other = func.make_ebb();
    let last = func.append_inst(other, Opcode::Nop, vec![], CallTarget::NotACall, &vec![]);
    let mut pos = Cursor { block: 0, inst: 1 };
    assert_eq!(handle_return_abi(&mut func, &mut pos), Ok(true));
    assert_eq!(pos, Cursor { block: 0, inst: 2 });
    assert_eq!(func.blocks[0].insts.len(), 3);
    assert_eq!(func.blocks[0].insts[0], first);
    assert_eq!(func.blocks[0].insts[2], ret);
    assert_eq!(func.blocks[1].insts, vec![last]);
}

#[test]
fn too_few_abi_arguments() {
    let (mut func, v) = func_with_params(Signature::new(), &[i64t(), i32t()]);
    let s = func.import_signature(sig(vec![reg(i32t(), 10), reg(i32t(), 11)], vec![]));
    let f = func.import_function(s);
    func.append_inst(Ebb(0), Opcode::Call, vec![v[0], v[1]], CallTarget::Direct(f), &vec![]);
    let mut pos = Cursor { block: 0, inst: 0 };
    assert_eq!(handle_call_abi(&mut func, &mut pos), Err(LegalizeError::AbiArgumentsExhausted));
}

#[test]
fn more_arguments_than_abi_arguments() {
    let (mut func, v) = func_with_params(Signature::new(), &[i32t(), i32t()]);
    let s = func.import_signature(sig(vec![reg(i32t(), 10)], vec![]));
    let f = func.import_function(s);
    func.append_inst(Ebb(0), Opcode::Call, vec![v[0], v[1]], CallTarget::Direct(f), &vec![]);
    let mut pos = Cursor { block: 0, inst: 0 };
    assert_eq!(handle_call_abi(&mut func, &mut pos), Err(LegalizeError::AbiArgumentsExhausted));
}

#[test]
fn abi_arguments_left_over() {
    let (mut func, v) = func_with_params(Signature::new(), &[i32t()]);
    let s = func.import_signature(sig(vec![reg(i32t(), 10), reg(i32t(), 11)], vec![]));
    let f = func.import_function(s);
    func.append_inst(Ebb(0), Opcode::Call, vec![v[0]], CallTarget::Direct(f), &vec![]);
    let mut pos = Cursor { block: 0, inst: 0 };
    assert_eq!(handle_call_abi(&mut func, &mut pos), Err(LegalizeError::AbiArgumentsLeftOver));
}

#[test]
fn argument_that_cannot_be_converted() {
    let (mut func, v) = func_with_params(Signature::new(), &[i8t()]);
    // Wider, but no extension is asked for.
    let s = func.import_signature(sig(vec![reg(i32t(), 10)], vec![]));
    let f = func.import_function(s);
    func.append_inst(Ebb(0), Opcode::Call, vec![v[0]], CallTarget::Direct(f), &vec![]);
    let mut pos = Cursor { block: 0, inst: 0 };
    assert_eq!(handle_call_abi(&mut func, &mut pos), Err(LegalizeError::UnsupportedConversion));
}

#[test]
fn legalize_inst_arguments_fills_every_slot() {
    let (mut func, v) = func_with_params(Signature::new(), &[i64t(), i8t()]);
    let ret = func.append_inst(Ebb(0), Opcode::Return, vec![v[0], v[1]], CallTarget::NotACall, &vec![]);
    let mut pos = Cursor { block: 0, inst: 0 };
    let abi = vec![reg(i32t(), 1), reg(i32t(), 2), reg_ext(i32t(), ArgumentExtension::Sext, 3)];
    assert_eq!(legalize_inst_arguments(&mut func, &mut pos, abi), Ok(()));
    assert_eq!(opcodes(&func, 0), vec![Opcode::IsplitLohi, Opcode::Sextend, Opcode::Return]);
    assert_eq!(types_of(&func, &func.insts[ret.0].args), vec![i32t(), i32t(), i32t()]);
    assert_eq!(pos, Cursor { block: 0, inst: 2 });
}

#[test]
fn put_arg_takes_a_value_of_the_slot_type() {
    let (func, v) = func_with_params(Signature::new(), &[i32t(), i64t()]);
    let mut slots = ArgSlots {
        values: vec![Value(0), Value(0), Value(0)],
        fixed: 1,
        abi_types: vec![reg(i32t(), 1), reg(i32t(), 2)],
        next: 0,
    };
    assert_eq!(slots.put_arg(&func, v[1]), Ok(Some(reg(i32t(), 1))));
    assert_eq!(slots.next, 0);
    assert_eq!(slots.put_arg(&func, v[0]), Ok(None));
    assert_eq!(slots.next, 1);
    assert_eq!(slots.values, vec![Value(0), v[0], Value(0)]);
    assert_eq!(slots.put_arg(&func, v[0]), Ok(None));
    assert_eq!(slots.values, vec![Value(0), v[0], v[0]]);
    assert_eq!(slots.put_arg(&func, v[0]), Err(LegalizeError::AbiArgumentsExhausted));
}

#[test]
fn convert_to_abi_splits_down_to_the_slot_type() {
    let (mut func, v) = func_with_params(Signature::new(), &[i64t()]);
    let mut slots = ArgSlots {
        values: vec![Value(0); 4],
        fixed: 0,
        abi_types: vec![reg(i16t(), 1), reg(i16t(), 2), reg(i16t(), 3), reg(i16t(), 4)],
        next: 0,
    };
    let mut pos = Cursor { block: 0, inst: 0 };
    assert_eq!(convert_to_abi(&mut func, &mut pos, v[0], &mut slots), Ok(()));
    assert_eq!(slots.next, 4);
    assert_eq!(
        opcodes(&func, 0),
        vec![Opcode::IsplitLohi, Opcode::IsplitLohi, Opcode::IsplitLohi]
    );
    assert_eq!(types_of(&func, &slots.values), vec![i16t(); 4]);
    // Low half first: the first two slots come from the split of the low half.
    let top = func.blocks[0].insts[0];
    let low = func.blocks[0].insts[1];
    let high = func.blocks[0].insts[2];
    assert_eq!(func.insts[low.0].args, vec![func.insts[top.0].results[0]]);
    assert_eq!(func.insts[high.0].args, vec![func.insts[top.0].results[1]]);
    assert_eq!(slots.values[0..2].to_vec(), func.insts[low.0].results);
    assert_eq!(slots.values[2..4].to_vec(), func.insts[high.0].results);
}

#[test]
fn convert_to_abi_splits_a_vector() {
    let v2 = Type { lane: Lane::I32, log2_lanes: 1 };
    let (mut func, v) = func_with_params(Signature::new(), &[v2]);
    let mut slots = ArgSlots {
        values: vec![Value(0); 2],
        fixed: 0,
        abi_types: vec![reg(i32t(), 1), reg(i32t(), 2)],
        next: 0,
    };
    let mut pos = Cursor { block: 0, inst: 0 };
    assert_eq!(convert_to_abi(&mut func, &mut pos, v[0], &mut slots), Ok(()));
    assert_eq!(opcodes(&func, 0), vec![Opcode::Vsplit]);
    assert_eq!(types_of(&func, &slots.values), vec![i32t(), i32t()]);
}

/// A function taking an `i64` on a target that passes 32-bit arguments: the entry block
/// gets two `i32` parameters and one concatenation, and the old parameter stands for the
/// result of the concatenation.
#[test]
fn wide_entry_parameter_is_put_together() {
    let (mut func, v) = func_with_params(sig(vec![reg(i32t(), 10), reg(i32t(), 11)], vec![]), &[i64t()]);
    let user = func.append_inst(Ebb(0), Opcode::Iadd, vec![v[0], v[0]], CallTarget::NotACall, &vec![i64t()]);
    assert_eq!(legalize_entry_arguments(&mut func, Ebb(0)), Ok(()));
    let params = func.blocks[0].params.clone();
    assert_eq!(params.len(), 2);
    assert_eq!(types_of(&func, &params), vec![i32t(), i32t()]);
    assert_eq!(opcodes(&func, 0), vec![Opcode::IconcatLohi, Opcode::Iadd]);
    let concat = func.blocks[0].insts[0];
    assert_eq!(func.insts[concat.0].args, params);
    let whole = func.insts[concat.0].results[0];
    assert_eq!(func.values[whole.0].ty, i64t());
    // The old parameter is detached and stands for the concatenation.
    assert!(!params.contains(&v[0]));
    assert_eq!(func.values[v[0].0].alias, Some(whole));
    assert_eq!(func.resolve_aliases(v[0]), whole);
    assert_eq!(func.values[v[0].0].ty, i64t());
    // Its uses are untouched.
    assert_eq!(func.insts[user.0].args, vec![v[0], v[0]]);
}

/// An `i64` and an `i16` against the ABI arguments `i32`, `i32`, `i16`: the second parameter
/// stays as it is, behind the two halves of the first.
#[test]
fn kept_entry_parameter_is_no_alias() {
    let (mut func, v) = func_with_params(
        sig(vec![reg(i32t(), 10), reg(i32t(), 11), reg(i16t(), 12)], vec![]),
        &[i64t(), i16t()],
    );
    let other = func.append_inst(Ebb(0), Opcode::Iconst, vec![], CallTarget::NotACall, &vec![i32t()]);
    let other = func.insts[other.0].results[0];
    assert_eq!(legalize_entry_arguments(&mut func, Ebb(0)), Ok(()));
    let params = func.blocks[0].params.clone();
    assert_eq!(params.len(), 3);
    assert_eq!(params[2], v[1]);
    assert_eq!(types_of(&func, &params), vec![i32t(), i32t(), i16t()]);
    assert_eq!(opcodes(&func, 0), vec![Opcode::IconcatLohi, Opcode::Iconst]);
    let concat = func.blocks[0].insts[0];
    assert_eq!(func.insts[concat.0].args, vec![params[0], params[1]]);
    assert_eq!(func.values[v[0].0].alias, Some(func.insts[concat.0].results[0]));
    // The parameter that stays, the new parameters and every other value are no aliases.
    assert_eq!(func.values[v[1].0].alias, None);
    assert_eq!(func.values[other.0].alias, None);
    assert_eq!(func.values[params[0].0].alias, None);
    assert_eq!(func.values[params[1].0].alias, None);
    assert_eq!(func.values.iter().filter(|d| d.alias.is_some()).count(), 1);
}

/// A value that stood for a parameter that is converted stands for what is computed, through
/// the parameter.
#[test]
fn alias_of_a_converted_parameter_follows() {
    let (mut func, v) = func_with_params(sig(vec![reg(i32t(), 10), reg(i32t(), 11)], vec![]), &[i64t()]);
    let other = func.append_inst(Ebb(0), Opcode::Iconst, vec![], CallTarget::NotACall, &vec![i64t()]);
    let other = func.insts[other.0].results[0];
    func.change_to_alias(other, v[0]);
    assert_eq!(legalize_entry_arguments(&mut func, Ebb(0)), Ok(()));
    let whole = func.insts[func.blocks[0].insts[0].0].results[0];
    assert_eq!(func.values[v[0].0].alias, Some(whole));
    // The chain of the other value has one link more.
    assert_eq!(func.values[other.0].alias, Some(v[0]));
    assert_eq!(func.resolve_aliases(other), whole);
    assert!(func.is_well_formed());
    assert!(func.aliases_resolve());
}

#[test]
fn entry_parameters_that_match_are_kept() {
    let (mut func, v) = func_with_params(sig(vec![reg(i32t(), 10), reg(f32t(), 11)], vec![]), &[i32t(), f32t()]);
    let before = func.clone();
    assert_eq!(legalize_entry_arguments(&mut func, Ebb(0)), Ok(()));
    assert_eq!(func.blocks[0].params, v);
    assert_eq!(func.values.len(), before.values.len());
    assert_eq!(func.insts.len(), 0);
    assert_eq!(func.values[v[0].0].alias, None);
}

#[test]
fn entry_parameters_mixed() {
    let (mut func, v) = func_with_params(
        sig(
            vec![
                reg(i32t(), 10),
                reg(i32t(), 11),
                reg(i32t(), 12),
                reg_ext(i32t(), ArgumentExtension::Sext, 13),
                reg(i32t(), 14),
            ],
            vec![],
        ),
        &[i32t(), f64t(), i8t(), i32t()],
    );
    assert_eq!(legalize_entry_arguments(&mut func, Ebb(0)), Ok(()));
    let params = func.blocks[0].params.clone();
    assert_eq!(types_of(&func, &params), vec![i32t(); 5]);
    assert_eq!(params[0], v[0]);
    assert_eq!(params[4], v[3]);
    assert_eq!(opcodes(&func, 0), vec![Opcode::IconcatLohi, Opcode::Bitcast, Opcode::Ireduce]);
    let concat = func.blocks[0].insts[0];
    let cast = func.blocks[0].insts[1];
    let reduce = func.blocks[0].insts[2];
    assert_eq!(func.insts[concat.0].args, vec![params[1], params[2]]);
    assert_eq!(func.values[func.insts[concat.0].results[0].0].ty, i64t());
    assert_eq!(func.insts[cast.0].args, func.insts[concat.0].results);
    assert_eq!(func.values[v[1].0].alias, Some(func.insts[cast.0].results[0]));
    assert_eq!(func.values[func.insts[cast.0].results[0].0].ty, f64t());
    assert_eq!(func.insts[reduce.0].args, vec![params[3]]);
    assert_eq!(func.values[v[2].0].alias, Some(func.insts[reduce.0].results[0]));
    assert_eq!(func.values[func.insts[reduce.0].results[0].0].ty, i8t());
}

#[test]
fn entry_conversion_code_goes_to_an_empty_block() {
    let (mut func, v) = func_with_params(sig(vec![reg(i32t(), 10), reg(i32t(), 11)], vec![]), &[i64t()]);
    assert_eq!(legalize_entry_arguments(&mut func, Ebb(0)), Ok(()));
    assert_eq!(opcodes(&func, 0), vec![Opcode::IconcatLohi]);
    assert_eq!(func.resolve_aliases(v[0]), func.insts[0].results[0]);
}

#[test]
fn entry_errors() {
    // The signature has an argument that no parameter stands for.
    let (mut func, _) = func_with_params(sig(vec![reg(i32t(), 10), reg(i32t(), 11)], vec![]), &[i32t()]);
    assert_eq!(legalize_entry_arguments(&mut func, Ebb(0)), Err(LegalizeError::AbiArgumentsLeftOver));
    // The signature has too few arguments.
    let (mut func, _) = func_with_params(sig(vec![reg(i32t(), 10)], vec![]), &[i64t()]);
    assert_eq!(legalize_entry_arguments(&mut func, Ebb(0)), Err(LegalizeError::AbiArgumentsExhausted));
    let (mut func, _) = func_with_params(sig(vec![], vec![]), &[i32t()]);
    assert_eq!(legalize_entry_arguments(&mut func, Ebb(0)), Err(LegalizeError::AbiArgumentsExhausted));
    // No conversion leads from the parameter to the argument.
    let (mut func, _) = func_with_params(sig(vec![reg(i64t(), 10)], vec![]), &[i32t()]);
    assert_eq!(legalize_entry_arguments(&mut func, Ebb(0)), Err(LegalizeError::UnsupportedConversion));
    let (mut func, _) = func_with_params(sig(vec![reg(f32t(), 10)], vec![]), &[i32t()]);
    assert_eq!(legalize_entry_arguments(&mut func, Ebb(0)), Err(LegalizeError::UnsupportedConversion));
}

#[test]
fn convert_from_abi_takes_the_arguments_in_order() {
    let (mut func, _) = func_with_params(Signature::new(), &[]);
    let abi = vec![reg(i32t(), 1), reg(i16t(), 2), reg(i16t(), 3), reg(i32t(), 4)];
    let mut pos = Cursor { block: 0, inst: 0 };
    let mut abi_arg = 0;
    let a = convert_from_abi(&mut func, &mut pos, Ebb(0), &mut abi_arg, &abi, i32t()).unwrap();
    assert_eq!(abi_arg, 1);
    assert_eq!(func.blocks[0].params, vec![a]);
    let b = convert_from_abi(&mut func, &mut pos, Ebb(0), &mut abi_arg, &abi, i32t()).unwrap();
    assert_eq!(abi_arg, 3);
    assert_eq!(func.blocks[0].params.len(), 3);
    assert_eq!(opcodes(&func, 0), vec![Opcode::IconcatLohi]);
    assert_eq!(func.insts[0].args, func.blocks[0].params[1..3].to_vec());
    assert_eq!(func.insts[0].results, vec![b]);
    assert_eq!(func.values[b.0].ty, i32t());
    assert_eq!(pos, Cursor { block: 0, inst: 1 });
    let r = convert_from_abi(&mut func, &mut pos, Ebb(0), &mut abi_arg, &abi, i64t());
    assert_eq!(r, Err(LegalizeError::AbiArgumentsExhausted));
}

#[test]
fn aliases_form_chains() {
    let (mut func, v) = func_with_params(Signature::new(), &[i32t(), i32t(), i32t()]);
    func.change_to_alias(v[0], v[1]);
    assert_eq!(func.resolve_aliases(v[0]), v[1]);
    func.change_to_alias(v[1], v[2]);
    // `v[0]` still stands for `v[1]`, which stands for `v[2]` now.
    assert_eq!(func.values[v[0].0].alias, Some(v[1]));
    assert_eq!(func.values[v[1].0].alias, Some(v[2]));
    assert_eq!(func.resolve_aliases(v[0]), v[2]);
    assert_eq!(func.resolve_aliases(v[1]), v[2]);
    assert_eq!(func.resolve_aliases(v[2]), v[2]);
    assert!(func.is_well_formed());
    assert!(func.aliases_resolve());
}

#[test]
fn alias_of_what_an_alias_stands_for() {
    let (mut func, v) = func_with_params(Signature::new(), &[i32t(), i32t(), i32t()]);
    func.change_to_alias(v[1], v[2]);
    // `v[1]` stands for `v[2]`, so `v[0]` does too.
    func.change_to_alias(v[0], v[1]);
    assert_eq!(func.values[v[0].0].alias, Some(v[2]));
    assert_eq!(func.values[v[1].0].alias, Some(v[2]));
    assert!(func.is_well_formed());
}

#[test]
fn check_inst_tests_shape_and_references() {
    let (mut func, v) = func_with_params(Signature::new(), &[i32t()]);
    let s = func.import_signature(Signature::new());
    let f = func.import_function(s);
    assert!(func.check_inst(Opcode::Iadd, &vec![v[0], v[0]], CallTarget::NotACall));
    assert!(!func.check_inst(Opcode::Iadd, &vec![Value(7)], CallTarget::NotACall));
    assert!(!func.check_inst(Opcode::Iadd, &vec![], CallTarget::Direct(f)));
    assert!(func.check_inst(Opcode::Call, &vec![], CallTarget::Direct(f)));
    assert!(!func.check_inst(Opcode::Call, &vec![], CallTarget::Direct(legalizer::entities::FuncRef(3))));
    assert!(!func.check_inst(Opcode::Call, &vec![], CallTarget::NotACall));
    assert!(func.check_inst(Opcode::CallIndirect, &vec![v[0]], CallTarget::Indirect(s)));
    assert!(!func.check_inst(Opcode::CallIndirect, &vec![], CallTarget::Indirect(s)));
    assert!(!func.check_inst(Opcode::CallIndirect, &vec![v[0]], CallTarget::Indirect(SigRef(5))));
    assert_eq!(Opcode::CallIndirect.fixed_value_arguments(), 1);
    assert_eq!(Opcode::Call.fixed_value_arguments(), 0);
    assert!(Opcode::Call.is_call() && Opcode::CallIndirect.is_call() && !Opcode::Return.is_call());
    assert!(Opcode::Return.is_return() && !Opcode::Call.is_return());
    let _ = Inst(0);
}
