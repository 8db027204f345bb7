use legalizer::abi::{ArgumentExtension, ArgumentLoc, ArgumentType, Signature};
use legalizer::boundary::handle_call_abi;
use legalizer::entities::{Ebb, Value};
use legalizer::entry::legalize_entry_arguments;
use legalizer::function::{CallTarget, Cursor, Function, Opcode};
use legalizer::types::{Lane, Type};

fn reg(ty: Type, extension: ArgumentExtension, n: u16) -> ArgumentType {
    ArgumentType { value_type: ty, extension, location: ArgumentLoc::Reg(n) }
}

fn scalar(lane: Lane) -> Type {
    Type::scalar(lane)
}

/// The lowest `width` bits of `x`, the lowest first.
fn bits(x: u128, width: u32) -> Vec<bool> {
    (0..width).map(|i| (x >> i) & 1 == 1).collect()
}

/// Computes the results of the conversion instructions of a block, in order. `env[v]` is the
/// value of `v`, once it is known.
fn run(func: &Function, ebb: usize, env: &mut Vec<Option<Vec<bool>>>) {
    env.resize(func.values.len(), None);
    for inst in &func.blocks[ebb].insts {
        let data = &func.insts[inst.0];
        let arg = |n: usize| env[data.args[n].0].clone().expect("operand is not computed");
        let width = |n: usize| func.values[data.results[n].0].ty.bits() as usize;
        let results: Vec<Vec<bool>> = match data.opcode {
            Opcode::IsplitLohi | Opcode::Vsplit => {
                let x = arg(0);
                vec![x[..width(0)].to_vec(), x[width(0)..].to_vec()]
            }
            Opcode::IconcatLohi | Opcode::Vconcat => {
                let mut x = arg(0);
                x.extend(arg(1));
                vec![x]
            }
            Opcode::Bitcast => vec![arg(0)],
            Opcode::Uextend => {
                let mut x = arg(0);
                x.resize(width(0), false);
                vec![x]
            }
            Opcode::Sextend => {
                let mut x = arg(0);
                let sign = *x.last().unwrap();
                x.resize(width(0), sign);
                vec![x]
            }
            Opcode::Ireduce => vec![arg(0)[..width(0)].to_vec()],
            _ => continue,
        };
        assert_eq!(results.len(), data.results.len());
        for (v, x) in data.results.iter().zip(results) {
            assert_eq!(x.len(), func.values[v.0].ty.bits() as usize);
            env[v.0] = Some(x);
        }
    }
}

/// Passes values of the types `types` through the ABI arguments `abi`: a call is rewritten
/// for them, and the entry block of the function that is called. Returns what arrives.
fn pass(types: &[Type], abi: Vec<ArgumentType>, values: &[Vec<bool>]) -> Vec<Vec<bool>> {
    let sig = Signature { argument_types: abi, return_types: vec![] };
    // The caller has the values as parameters of its only block and passes them on.
    let mut caller = Function::new(Signature::new());
    let ebb = caller.make_ebb();
    let args: Vec<Value> = types.iter().map(|ty| caller.append_ebb_arg(ebb, *ty)).collect();
    let s = caller.import_signature(sig.clone());
    let f = caller.import_function(s);
    let call = caller.append_inst(ebb, Opcode::Call, args.clone(), CallTarget::Direct(f), &vec![]);
    let mut pos = Cursor { block: 0, inst: 0 };
    let changed = handle_call_abi(&mut caller, &mut pos).unwrap();
    assert_eq!(changed, types.iter().zip(&sig.argument_types).any(|(t, a)| *t != a.value_type)
        || types.len() != sig.argument_types.len());
    let mut env: Vec<Option<Vec<bool>>> = vec![None; caller.values.len()];
    for (v, x) in args.iter().zip(values) {
        env[v.0] = Some(x.clone());
    }
    run(&caller, 0, &mut env);
    let passed: Vec<Vec<bool>> =
        caller.insts[call.0].args.iter().map(|v| env[v.0].clone().unwrap()).collect();
    for (x, a) in passed.iter().zip(&sig.argument_types) {
        assert_eq!(x.len(), a.value_type.bits() as usize);
    }

    // The function that is called had parameters of the types of the values.
    let mut callee = Function::new(sig);
    let ebb = callee.make_ebb();
    let params: Vec<Value> = types.iter().map(|ty| callee.append_ebb_arg(ebb, *ty)).collect();
    legalize_entry_arguments(&mut callee, Ebb(0)).unwrap();
    let mut env: Vec<Option<Vec<bool>>> = vec![None; callee.values.len()];
    assert_eq!(callee.blocks[0].params.len(), passed.len());
    for (v, x) in callee.blocks[0].params.iter().zip(&passed) {
        env[v.0] = Some(x.clone());
    }
    run(&callee, 0, &mut env);
    params.iter().map(|p| env[callee.resolve_aliases(*p).0].clone().unwrap()).collect()
}

#[test]
fn wide_integer_round_trip() {
    let i32r = |n| reg(scalar(Lane::I32), ArgumentExtension::Unextended, n);
    let x = bits(0x0123_4567_89ab_cdef, 64);
    let back = pass(&[scalar(Lane::I64)], vec![i32r(10), i32r(11)], &[x.clone()]);
    assert_eq!(back, vec![x]);
}

#[test]
fn wide_integer_in_four_parts_round_trip() {
    let i16r = |n| reg(scalar(Lane::I16), ArgumentExtension::Unextended, n);
    let x = bits(0xfedc_ba98_7654_3210, 64);
    let back = pass(&[scalar(Lane::I64)], vec![i16r(1), i16r(2), i16r(3), i16r(4)], &[x.clone()]);
    assert_eq!(back, vec![x]);
}

#[test]
fn float_round_trip() {
    let i32r = |n| reg(scalar(Lane::I32), ArgumentExtension::Unextended, n);
    let x = bits(0x4009_21fb_5444_2d18, 64);
    let back = pass(&[scalar(Lane::F64)], vec![i32r(10), i32r(11)], &[x.clone()]);
    assert_eq!(back, vec![x]);
}

#[test]
fn float_in_an_integer_register_round_trip() {
    let x = bits(0x3fc0_0000, 32);
    let abi = vec![reg(scalar(Lane::I32), ArgumentExtension::Unextended, 10)];
    let back = pass(&[scalar(Lane::F32)], abi, &[x.clone()]);
    assert_eq!(back, vec![x]);
}

#[test]
fn vector_round_trip() {
    let i32r = |n| reg(scalar(Lane::I32), ArgumentExtension::Unextended, n);
    let ty = Type { lane: Lane::I32, log2_lanes: 2 };
    let x = bits(0x0011_2233_4455_6677_8899_aabb_ccdd_eeff, 128);
    let back = pass(&[ty], vec![i32r(1), i32r(2), i32r(3), i32r(4)], &[x.clone()]);
    assert_eq!(back, vec![x]);
}

#[test]
fn vector_of_wide_lanes_round_trip() {
    // Two lanes of 64 bits in four registers of 32: the vector is split, then each lane.
    let i32r = |n| reg(scalar(Lane::I32), ArgumentExtension::Unextended, n);
    let ty = Type { lane: Lane::I64, log2_lanes: 1 };
    let x = bits(0x0011_2233_4455_6677_8899_aabb_ccdd_eeff, 128);
    let back = pass(&[ty], vec![i32r(1), i32r(2), i32r(3), i32r(4)], &[x.clone()]);
    assert_eq!(back, vec![x]);
}

#[test]
fn extended_integer_round_trip() {
    // The narrow value comes back whatever the extension makes of the high bits.
    for value in [0x00u128, 0x01, 0x7f, 0x80, 0xff] {
        for extension in [ArgumentExtension::Sext, ArgumentExtension::Uext] {
            let x = bits(value, 8);
            let back = pass(&[scalar(Lane::I8)], vec![reg(scalar(Lane::I32), extension, 10)], &[x.clone()]);
            assert_eq!(back, vec![x]);
        }
    }
}

#[test]
fn extension_fills_the_high_bits() {
    let mut func = Function::new(Signature::new());
    let ebb = func.make_ebb();
    let a = func.append_ebb_arg(ebb, scalar(Lane::I8));
    let s = func.import_signature(Signature {
        argument_types: vec![
            reg(scalar(Lane::I32), ArgumentExtension::Sext, 10),
            reg(scalar(Lane::I32), ArgumentExtension::Uext, 11),
        ],
        return_types: vec![],
    });
    let f = func.import_function(s);
    let call = func.append_inst(ebb, Opcode::Call, vec![a, a], CallTarget::Direct(f), &vec![]);
    let mut pos = Cursor { block: 0, inst: 0 };
    assert_eq!(handle_call_abi(&mut func, &mut pos), Ok(true));
    let mut env = vec![None; func.values.len()];
    env[a.0] = Some(bits(0x80, 8));
    run(&func, 0, &mut env);
    let args = &func.insts[call.0].args;
    assert_eq!(env[args[0].0], Some(bits(0xffff_ff80, 32)));
    assert_eq!(env[args[1].0], Some(bits(0x0000_0080, 32)));
}

#[test]
fn several_values_round_trip() {
    let i32r = |n| reg(scalar(Lane::I32), ArgumentExtension::Unextended, n);
    let types = [scalar(Lane::I32), scalar(Lane::F64), scalar(Lane::I16), scalar(Lane::I64), scalar(Lane::F32)];
    let abi = vec![
        i32r(1),
        i32r(2),
        i32r(3),
        reg(scalar(Lane::I32), ArgumentExtension::Sext, 4),
        i32r(5),
        i32r(6),
        reg(scalar(Lane::F32), ArgumentExtension::Unextended, 7),
    ];
    let values = vec![
        bits(0xdead_beef, 32),
        bits(0xc000_0000_0000_0001, 64),
        bits(0x8001, 16),
        bits(0x1122_3344_5566_7788, 64),
        bits(0x3f80_0000, 32),
    ];
    let back = pass(&types, abi, &values);
    assert_eq!(back, values);
}

#[test]
fn values_that_match_pass_unchanged() {
    let i32r = |n| reg(scalar(Lane::I32), ArgumentExtension::Unextended, n);
    let values = vec![bits(7, 32), bits(9, 32)];
    let back = pass(&[scalar(Lane::I32), scalar(Lane::I32)], vec![i32r(1), i32r(2)], &values);
    assert_eq!(back, values);
}
