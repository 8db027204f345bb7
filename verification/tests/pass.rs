use legalizer::abi::{ArgumentExtension, ArgumentLoc, ArgumentType, Signature};
use legalizer::driver::{legalize_one_signature, legalize_signatures, record_encoding, revisit};
use legalizer::entities::{Ebb, Inst, Value};
use legalizer::error::LegalizeError;
use legalizer::function::{CallTarget, Encoding, Function, Opcode};
use legalizer::isa::{Legalize, TargetIsa};
use legalizer::legalize_function;
use legalizer::function::Cursor;
use legalizer::rewriter::{apply_rewrite, NewInst, Replacement, Rewrite};
use legalizer::types::{Lane, Type};

fn i8t() -> Type {
    Type::scalar(Lane::I8)
}

fn i32t() -> Type {
    Type::scalar(Lane::I32)
}

fn i64t() -> Type {
    Type::scalar(Lane::I64)
}

fn f64t() -> Type {
    Type::scalar(Lane::F64)
}

fn plain(ty: Type) -> ArgumentType {
    ArgumentType::new(ty)
}

fn ext(ty: Type, extension: ArgumentExtension) -> ArgumentType {
    ArgumentType { value_type: ty, extension, location: ArgumentLoc::Unassigned }
}

fn sig(args: Vec<ArgumentType>, rets: Vec<ArgumentType>) -> Signature {
    Signature { argument_types: args, return_types: rets }
}

fn types_of(func: &Function, values: &[Value]) -> Vec<Type> {
    values.iter().map(|v| func.values[v.0].ty).collect()
}

fn value_types(abi: &[ArgumentType]) -> Vec<Type> {
    abi.iter().map(|a| a.value_type).collect()
}

fn opcodes(func: &Function, ebb: usize) -> Vec<Opcode> {
    func.blocks[ebb].insts.iter().map(|i| func.insts[i.0].opcode).collect()
}

/// A target with 32-bit registers. Arguments go to registers in order: wide ones in halves,
/// floats as integers, and small integers extended where the signature says how.
struct Target32 {
    /// What `expand` does to a multiplication.
    expand_mul: Expansion,
}

#[derive(Clone, Copy, PartialEq)]
enum Expansion {
    /// Nothing, and says so.
    Refuse,
    /// Puts a `nop` before it and says that it changed something.
    Stutter,
    /// Replaces it by an addition.
    MulToAdd,
}

fn assign(list: &mut Vec<ArgumentType>) {
    let mut n = 0;
    let mut reg = 10;
    while n < list.len() {
        let arg = list[n];
        // Leave the assigned arguments alone.
        if arg.location.is_assigned() {
            n += 1;
            continue;
        }
        let ty = arg.value_type;
        if !ty.is_scalar() {
            list[n].value_type = ty.half_vector().unwrap();
            list.insert(n + 1, list[n]);
        } else if ty.bits() > 32 && ty.is_float() {
            list[n].value_type = Type::integer(ty.bits()).unwrap();
        } else if ty.bits() > 32 {
            list[n].value_type = ty.half_width().unwrap();
            list.insert(n + 1, list[n]);
        } else if ty.is_int() && ty.bits() < 32 && arg.extension != ArgumentExtension::Unextended {
            list[n].value_type = i32t();
        } else {
            list[n].location = ArgumentLoc::Reg(reg);
            reg += 1;
            n += 1;
        }
    }
}

impl TargetIsa for Target32 {
    fn legalize_signature(&self, sig: &mut Signature) {
        assign(&mut sig.argument_types);
        assign(&mut sig.return_types);
    }

    fn encode(&self, func: &Function, inst: Inst) -> Result<Encoding, Legalize> {
        let data = &func.insts[inst.0];
        let wide = data.results.iter().any(|v| func.values[v.0].ty.bits() > 32);
        match data.opcode {
            Opcode::Iadd if wide => Err(Legalize::Narrow),
            Opcode::Imul => Err(Legalize::Expand),
            _ => Ok(Encoding { recipe: 7, bits: inst.0 as u16 }),
        }
    }

    fn expand(&self, func: &Function, inst: Inst, rewrite: &mut Rewrite) -> bool {
        match self.expand_mul {
            Expansion::Refuse => false,
            Expansion::Stutter => {
                rewrite.insert_inst(Opcode::Nop, vec![], CallTarget::NotACall, vec![]).is_some()
            }
            Expansion::MulToAdd => {
                let args = func.insts[inst.0].args.clone();
                rewrite.replace_inst(Opcode::Iadd, args, CallTarget::NotACall);
                true
            }
        }
    }

    /// `iadd.i64 a, b` becomes an addition of the low halves and one of the high halves.
    fn narrow(&self, func: &Function, inst: Inst, rewrite: &mut Rewrite) -> bool {
        let data = &func.insts[inst.0];
        if data.opcode != Opcode::Iadd {
            return false;
        }
        let half = func.values[data.results[0].0].ty.half_width().unwrap();
        let mut halves = Vec::new();
        for arg in &data.args {
            halves.push(
                rewrite
                    .insert_inst(Opcode::IsplitLohi, vec![*arg], CallTarget::NotACall, vec![half, half])
                    .unwrap(),
            );
        }
        let lo = rewrite
            .insert_inst(Opcode::Iadd, vec![halves[0][0], halves[1][0]], CallTarget::NotACall, vec![half])
            .unwrap()[0];
        let hi = rewrite
            .insert_inst(Opcode::Iadd, vec![halves[0][1], halves[1][1]], CallTarget::NotACall, vec![half])
            .unwrap()[0];
        rewrite.replace_inst(Opcode::IconcatLohi, vec![lo, hi], CallTarget::NotACall);
        true
    }
}

fn target() -> Target32 {
    Target32 { expand_mul: Expansion::MulToAdd }
}

/// A target that leaves signatures as they are.
struct Lazy;

impl TargetIsa for Lazy {
    fn legalize_signature(&self, _sig: &mut Signature) {}

    fn encode(&self, _func: &Function, _inst: Inst) -> Result<Encoding, Legalize> {
        Ok(Encoding { recipe: 0, bits: 0 })
    }

    fn expand(&self, _func: &Function, _inst: Inst, _rewrite: &mut Rewrite) -> bool {
        false
    }

    fn narrow(&self, _func: &Function, _inst: Inst, _rewrite: &mut Rewrite) -> bool {
        false
    }
}

/// What the pass promises of a function that it returns `Ok` for.
fn assert_legalized(func: &Function) {
    assert!(func.is_well_formed());
    assert!(func.aliases_resolve());
    assert!(func.is_legalized());
    assert!(func.signature.is_legalized());
    for s in &func.signatures {
        assert!(s.is_legalized());
    }
    if !func.blocks.is_empty() {
        assert_eq!(
            types_of(func, &func.blocks[0].params),
            value_types(&func.signature.argument_types)
        );
    }
    let mut seen = vec![false; func.insts.len()];
    for block in &func.blocks {
        for inst in &block.insts {
            assert!(!seen[inst.0], "laid out twice");
            seen[inst.0] = true;
            assert!(func.encodings[inst.0].is_some(), "no encoding");
            let data = &func.insts[inst.0];
            let fixed = data.opcode.fixed_value_arguments();
            match data.target {
                CallTarget::Direct(f) => {
                    let s = &func.signatures[func.ext_funcs[f.0].0];
                    assert_eq!(types_of(func, &data.args[fixed..]), value_types(&s.argument_types));
                    assert_eq!(types_of(func, &data.results), value_types(&s.return_types));
                }
                CallTarget::Indirect(s) => {
                    let s = &func.signatures[s.0];
                    assert_eq!(types_of(func, &data.args[fixed..]), value_types(&s.argument_types));
                    assert_eq!(types_of(func, &data.results), value_types(&s.return_types));
                }
                CallTarget::NotACall => {}
            }
            if data.opcode == Opcode::Return {
                assert_eq!(types_of(func, &data.args), value_types(&func.signature.return_types));
            }
        }
    }
}

/// `fn(i64, i8 uext) -> i64`, calling `g(i64, i8 sext) -> i32` and adding.
fn sample() -> Function {
    let mut func = Function::new(sig(
        vec![plain(i64t()), ext(i8t(), ArgumentExtension::Uext)],
        vec![plain(i64t())],
    ));
    let s = func.import_signature(sig(
        vec![plain(i64t()), ext(i8t(), ArgumentExtension::Sext)],
        vec![plain(i32t())],
    ));
    let g = func.import_function(s);
    let ebb0 = func.make_ebb();
    let a = func.append_ebb_arg(ebb0, i64t());
    let b = func.append_ebb_arg(ebb0, i8t());
    let sum = func.append_inst(ebb0, Opcode::Iadd, vec![a, a], CallTarget::NotACall, &vec![i64t()]);
    let sum = func.insts[sum.0].results[0];
    func.append_inst(ebb0, Opcode::Call, vec![sum, b], CallTarget::Direct(g), &vec![i32t()]);
    func.append_inst(ebb0, Opcode::Jump, vec![], CallTarget::NotACall, &vec![]);
    let ebb1 = func.make_ebb();
    func.append_inst(ebb1, Opcode::Return, vec![sum], CallTarget::NotACall, &vec![]);
    func
}

#[test]
fn pass_legalizes_the_sample() {
    let mut func = sample();
    assert!(func.is_well_formed());
    assert!(!func.is_legalized());
    assert_eq!(legalize_function(&mut func, &target(), 100), Ok(()));
    assert_legalized(&func);
    // The signatures are split and extended.
    assert_eq!(value_types(&func.signature.argument_types), vec![i32t(), i32t(), i32t()]);
    assert_eq!(value_types(&func.signature.return_types), vec![i32t(), i32t()]);
    assert_eq!(value_types(&func.signatures[0].argument_types), vec![i32t(), i32t(), i32t()]);
    assert_eq!(
        opcodes(&func, 0),
        vec![
            // The entry parameters: i64 from two halves, i8 from the extended argument.
            Opcode::IconcatLohi,
            Opcode::Ireduce,
            // The narrowed addition.
            Opcode::IsplitLohi,
            Opcode::IsplitLohi,
            Opcode::Iadd,
            Opcode::Iadd,
            Opcode::IconcatLohi,
            // The arguments of the call.
            Opcode::IsplitLohi,
            Opcode::Sextend,
            Opcode::Call,
            Opcode::Jump,
        ]
    );
    assert_eq!(opcodes(&func, 1), vec![Opcode::IsplitLohi, Opcode::Return]);
    // Every encoding is the one that the target gave for the instruction.
    for block in &func.blocks {
        for inst in &block.insts {
            assert_eq!(func.encodings[inst.0], Some(Encoding { recipe: 7, bits: inst.0 as u16 }));
        }
    }
}

#[test]
fn pass_counts_the_rewrites() {
    // The sample needs three: the addition, the call and the return.
    let mut func = sample();
    assert_eq!(legalize_function(&mut func, &target(), 3), Ok(()));
    assert_legalized(&func);
    let mut func = sample();
    assert_eq!(legalize_function(&mut func, &target(), 2), Err(LegalizeError::RewriteLimit));
    let mut func = sample();
    assert_eq!(legalize_function(&mut func, &target(), 0), Err(LegalizeError::RewriteLimit));
}

#[test]
fn pass_on_a_function_without_blocks() {
    let mut func = Function::new(sig(vec![plain(i64t())], vec![]));
    assert_eq!(legalize_function(&mut func, &target(), 0), Ok(()));
    assert_legalized(&func);
    assert_eq!(value_types(&func.signature.argument_types), vec![i32t(), i32t()]);
}

#[test]
fn pass_on_empty_blocks() {
    let mut func = Function::new(Signature::new());
    func.make_ebb();
    func.make_ebb();
    let last = func.make_ebb();
    let nop = func.append_inst(last, Opcode::Nop, vec![], CallTarget::NotACall, &vec![]);
    assert_eq!(legalize_function(&mut func, &target(), 0), Ok(()));
    assert_legalized(&func);
    assert_eq!(func.encodings[nop.0], Some(Encoding { recipe: 7, bits: 0 }));
}

/// A function whose signatures are legalized, whose entry block matches and which has no
/// instruction gives the target nothing to decide.
#[test]
fn pass_leaves_alone_what_needs_nothing() {
    let reg = |n| ArgumentType {
        value_type: i32t(),
        extension: ArgumentExtension::Unextended,
        location: ArgumentLoc::Reg(n),
    };
    let mut func = Function::new(sig(vec![reg(10), reg(11)], vec![reg(10)]));
    func.import_signature(sig(vec![reg(10)], vec![]));
    let ebb = func.make_ebb();
    func.append_ebb_arg(ebb, i32t());
    func.append_ebb_arg(ebb, i32t());
    func.make_ebb();
    let before = func.clone();
    assert_eq!(legalize_function(&mut func, &Lazy, 0), Ok(()));
    assert_eq!(func.signature.argument_types, before.signature.argument_types);
    assert_eq!(func.signature.return_types, before.signature.return_types);
    assert_eq!(func.signatures[0].argument_types, before.signatures[0].argument_types);
    assert_eq!(func.values, before.values);
    assert_eq!(func.insts.len(), 0);
    assert_eq!(func.blocks[0].params, before.blocks[0].params);
    assert_eq!(func.blocks.len(), 2);
    assert_eq!(func.encodings, before.encodings);
    assert_legalized(&func);
}

/// With nothing to fix and an encoding for every instruction, only the encoding table is
/// changed, and it holds what the target answered.
#[test]
fn pass_only_records_encodings_where_nothing_is_to_fix() {
    let reg = |n| ArgumentType {
        value_type: i32t(),
        extension: ArgumentExtension::Unextended,
        location: ArgumentLoc::Reg(n),
    };
    let mut func = Function::new(sig(vec![reg(10)], vec![reg(10)]));
    let s = func.import_signature(sig(vec![reg(10), reg(11)], vec![reg(10)]));
    let g = func.import_function(s);
    let ebb = func.make_ebb();
    let a = func.append_ebb_arg(ebb, i32t());
    let call = func.append_inst(ebb, Opcode::Call, vec![a, a], CallTarget::Direct(g), &vec![i32t()]);
    let r = func.insts[call.0].results[0];
    let sum = func.append_inst(ebb, Opcode::Iadd, vec![a, r], CallTarget::NotACall, &vec![i32t()]);
    let sum = func.insts[sum.0].results[0];
    func.append_inst(ebb, Opcode::Jump, vec![], CallTarget::NotACall, &vec![]);
    let next = func.make_ebb();
    func.append_inst(next, Opcode::Return, vec![sum], CallTarget::NotACall, &vec![]);
    // An entry of the table that is out of date.
    func.set_encoding(Inst(1), Encoding { recipe: 99, bits: 99 });
    let before = func.clone();
    assert_eq!(legalize_function(&mut func, &target(), 0), Ok(()));
    assert_eq!(func.signature.argument_types, before.signature.argument_types);
    assert_eq!(func.signature.return_types, before.signature.return_types);
    assert_eq!(func.signatures[0].argument_types, before.signatures[0].argument_types);
    assert_eq!(func.ext_funcs, before.ext_funcs);
    assert_eq!(func.values, before.values);
    assert_eq!(func.insts.len(), before.insts.len());
    for (i, j) in func.insts.iter().zip(before.insts.iter()) {
        assert_eq!((i.opcode, &i.args, i.target, &i.results), (j.opcode, &j.args, j.target, &j.results));
    }
    for (x, y) in func.blocks.iter().zip(before.blocks.iter()) {
        assert_eq!((&x.params, &x.insts), (&y.params, &y.insts));
    }
    for i in 0..func.insts.len() {
        assert_eq!(func.encodings[i], Some(Encoding { recipe: 7, bits: i as u16 }));
    }
}

/// What is left when the pass gives up: the signatures are legalized unless that is the
/// error, and the entry block matches where the walk had begun.
#[test]
fn pass_gives_up_in_a_known_state() {
    let mut func = sample();
    assert_eq!(legalize_function(&mut func, &target(), 0), Err(LegalizeError::RewriteLimit));
    assert!(func.is_well_formed());
    assert!(func.signature.is_legalized() && func.signatures[0].is_legalized());
    assert_eq!(types_of(&func, &func.blocks[0].params), value_types(&func.signature.argument_types));
    let mut func = sample();
    assert_eq!(legalize_function(&mut func, &Lazy, 9), Err(LegalizeError::SignatureNotLegalized));
    assert!(func.is_well_formed());
    assert!(!func.signature.is_legalized());
    // An entry block that cannot be rewritten: the signature has too few arguments.
    let mut func = Function::new(sig(vec![], vec![]));
    let ebb = func.make_ebb();
    func.append_ebb_arg(ebb, i32t());
    assert_eq!(legalize_function(&mut func, &target(), 9), Err(LegalizeError::AbiArgumentsExhausted));
    assert!(func.is_well_formed());
    assert!(func.signature.is_legalized());
}

#[test]
fn pass_legalizes_what_a_rewrite_put_in() {
    // The multiplication becomes a wide addition, which is narrowed in turn.
    let mut func = Function::new(sig(vec![plain(i32t())], vec![]));
    let ebb = func.make_ebb();
    let a = func.append_ebb_arg(ebb, i32t());
    let wide = func.append_inst(ebb, Opcode::Uextend, vec![a], CallTarget::NotACall, &vec![i64t()]);
    let wide = func.insts[wide.0].results[0];
    let mul = func.append_inst(ebb, Opcode::Imul, vec![wide, wide], CallTarget::NotACall, &vec![i64t()]);
    assert_eq!(legalize_function(&mut func, &target(), 2), Ok(()));
    assert_legalized(&func);
    assert_eq!(
        opcodes(&func, 0),
        vec![
            Opcode::Uextend,
            Opcode::IsplitLohi,
            Opcode::IsplitLohi,
            Opcode::Iadd,
            Opcode::Iadd,
            Opcode::IconcatLohi,
        ]
    );
    // The instruction is the same one; its results are untouched.
    assert_eq!(func.blocks[0].insts[5], mul);
    assert_eq!(func.values[func.insts[mul.0].results[0].0].ty, i64t());
}

/// The target has no encoding, and the rewrite that it names changes nothing.
#[test]
fn pass_fails_where_no_rewrite_applies() {
    let mut func = Function::new(Signature::new());
    let ebb = func.make_ebb();
    let a = func.append_ebb_arg(ebb, i32t());
    func.signature.argument_types.push(plain(i32t()));
    func.append_inst(ebb, Opcode::Nop, vec![], CallTarget::NotACall, &vec![]);
    let mul = func.append_inst(ebb, Opcode::Imul, vec![a, a], CallTarget::NotACall, &vec![i32t()]);
    let isa = Target32 { expand_mul: Expansion::Refuse };
    assert_eq!(legalize_function(&mut func, &isa, 100), Err(LegalizeError::NoLegalization(mul)));
    assert_eq!(func.encodings.get(mul.0).copied().flatten(), None);
}

#[test]
fn pass_gives_up_on_a_rewrite_that_never_ends() {
    let mut func = Function::new(Signature::new());
    let ebb = func.make_ebb();
    func.append_inst(ebb, Opcode::Imul, vec![], CallTarget::NotACall, &vec![]);
    let isa = Target32 { expand_mul: Expansion::Stutter };
    assert_eq!(legalize_function(&mut func, &isa, 10), Err(LegalizeError::RewriteLimit));
    // Ten rewrites are revisited. The eleventh is made, and there the pass gives up.
    assert_eq!(func.blocks[0].insts.len(), 12);
}

#[test]
fn pass_fails_where_the_target_leaves_a_signature_open() {
    let mut func = Function::new(sig(vec![plain(i32t())], vec![]));
    assert_eq!(legalize_function(&mut func, &Lazy, 0), Err(LegalizeError::SignatureNotLegalized));
    let mut func = Function::new(Signature::new());
    func.import_signature(sig(vec![], vec![plain(i32t())]));
    assert_eq!(legalize_signatures(&mut func, &Lazy), Err(LegalizeError::SignatureNotLegalized));
    let mut s = sig(vec![], vec![plain(i32t())]);
    assert_eq!(legalize_one_signature(&mut s, &Lazy), Err(LegalizeError::SignatureNotLegalized));
    assert_eq!(legalize_one_signature(&mut s, &target()), Ok(()));
    assert_eq!(legalize_one_signature(&mut s, &Lazy), Ok(()));
}

#[test]
fn pass_reports_call_results_that_do_not_match() {
    let mut func = Function::new(Signature::new());
    let s = func.import_signature(sig(vec![], vec![plain(i64t())]));
    let g = func.import_function(s);
    let ebb = func.make_ebb();
    let call = func.append_inst(ebb, Opcode::Call, vec![], CallTarget::Direct(g), &vec![i64t()]);
    assert_eq!(
        legalize_function(&mut func, &target(), 10),
        Err(LegalizeError::UnconvertedCallResults(call))
    );
}

/// Legalizing the signatures of a function whose signatures are legalized changes nothing.
#[test]
fn signatures_are_legalized_once() {
    let mut func = sample();
    assert_eq!(legalize_signatures(&mut func, &target()), Ok(()));
    let once = func.clone();
    assert_eq!(legalize_signatures(&mut func, &target()), Ok(()));
    assert_eq!(func.signature.argument_types, once.signature.argument_types);
    assert_eq!(func.signature.return_types, once.signature.return_types);
    assert_eq!(func.signatures.len(), once.signatures.len());
    for (a, b) in func.signatures.iter().zip(once.signatures.iter()) {
        assert_eq!(a.argument_types, b.argument_types);
        assert_eq!(a.return_types, b.return_types);
    }
}

/// Legalizing the signatures touches nothing but the signatures: the entry block keeps its
/// parameters, though they do not match the signature any more.
#[test]
fn signatures_are_legalized_alone() {
    let mut func = sample();
    let before = func.clone();
    assert_eq!(legalize_signatures(&mut func, &target()), Ok(()));
    assert_eq!(value_types(&func.signature.argument_types), vec![i32t(), i32t(), i32t()]);
    assert_eq!(func.values, before.values);
    assert_eq!(func.insts.len(), before.insts.len());
    for (a, b) in func.insts.iter().zip(before.insts.iter()) {
        assert_eq!(a.opcode, b.opcode);
        assert_eq!(a.args, b.args);
        assert_eq!(a.results, b.results);
    }
    assert_eq!(func.blocks.len(), before.blocks.len());
    for (a, b) in func.blocks.iter().zip(before.blocks.iter()) {
        assert_eq!(a.params, b.params);
        assert_eq!(a.insts, b.insts);
    }
    assert_eq!(types_of(&func, &func.blocks[0].params), vec![i64t(), i8t()]);
    assert_eq!(func.ext_funcs, before.ext_funcs);
    assert_eq!(func.encodings, before.encodings);
}

#[test]
fn pass_twice_changes_nothing_more() {
    let mut func = sample();
    assert_eq!(legalize_function(&mut func, &target(), 100), Ok(()));
    let once = func.clone();
    assert_eq!(legalize_function(&mut func, &target(), 0), Ok(()));
    assert_eq!(func.values, once.values);
    assert_eq!(func.insts.len(), once.insts.len());
    for (a, b) in func.blocks.iter().zip(once.blocks.iter()) {
        assert_eq!(a.params, b.params);
        assert_eq!(a.insts, b.insts);
    }
}

#[test]
fn signatures_of_the_table_are_legalized() {
    let mut func = Function::new(Signature::new());
    func.import_signature(sig(vec![plain(f64t())], vec![ext(i8t(), ArgumentExtension::Sext)]));
    func.import_signature(sig(vec![plain(Type { lane: Lane::I32, log2_lanes: 1 })], vec![]));
    assert_eq!(legalize_signatures(&mut func, &target()), Ok(()));
    assert_eq!(value_types(&func.signatures[0].argument_types), vec![i32t(), i32t()]);
    assert_eq!(value_types(&func.signatures[0].return_types), vec![i32t()]);
    assert_eq!(func.signatures[0].return_types[0].extension, ArgumentExtension::Sext);
    assert_eq!(value_types(&func.signatures[1].argument_types), vec![i32t(), i32t()]);
    assert!(func.signatures[0].is_legalized() && func.signatures[1].is_legalized());
}

#[test]
fn encoding_is_recorded_or_the_action_handed_on() {
    let mut func = Function::new(Signature::new());
    let e = Encoding { recipe: 3, bits: 4 };
    assert_eq!(record_encoding(&mut func, Inst(2), Ok(e)), None);
    assert_eq!(func.encodings, vec![None, None, Some(e)]);
    assert_eq!(record_encoding(&mut func, Inst(0), Err(Legalize::Narrow)), Some(Legalize::Narrow));
    assert_eq!(record_encoding(&mut func, Inst(0), Err(Legalize::Expand)), Some(Legalize::Expand));
    assert_eq!(func.encodings, vec![None, None, Some(e)]);
    let e2 = Encoding { recipe: 5, bits: 6 };
    assert_eq!(record_encoding(&mut func, Inst(2), Ok(e2)), None);
    assert_eq!(record_encoding(&mut func, Inst(0), Ok(e)), None);
    assert_eq!(func.encodings, vec![Some(e), None, Some(e2)]);
}

#[test]
fn revisit_takes_one_rewrite() {
    let mut left = 2;
    assert_eq!(revisit(true, Inst(4), &mut left), Ok(()));
    assert_eq!(left, 1);
    assert_eq!(revisit(false, Inst(4), &mut left), Err(LegalizeError::NoLegalization(Inst(4))));
    assert_eq!(left, 1);
    assert_eq!(revisit(true, Inst(4), &mut left), Ok(()));
    assert_eq!(left, 0);
    assert_eq!(revisit(true, Inst(4), &mut left), Err(LegalizeError::RewriteLimit));
    assert_eq!(revisit(false, Inst(5), &mut left), Err(LegalizeError::NoLegalization(Inst(5))));
    assert_eq!(left, 0);
}

/// A target that asks for a rewriting that cannot be made.
struct Meddler {
    /// The operand of the instruction that it asks for.
    operand: Value,
}

impl TargetIsa for Meddler {
    fn legalize_signature(&self, _sig: &mut Signature) {}

    fn encode(&self, func: &Function, inst: Inst) -> Result<Encoding, Legalize> {
        if func.insts[inst.0].opcode == Opcode::Imul {
            Err(Legalize::Expand)
        } else {
            Ok(Encoding { recipe: 1, bits: 1 })
        }
    }

    fn expand(&self, _func: &Function, _inst: Inst, rewrite: &mut Rewrite) -> bool {
        rewrite.insert_inst(Opcode::Iconst, vec![], CallTarget::NotACall, vec![i32t()]);
        rewrite.insert_inst(Opcode::Ireduce, vec![self.operand], CallTarget::NotACall, vec![i8t()]);
        rewrite.replace_inst(Opcode::Nop, vec![], CallTarget::NotACall);
        true
    }

    fn narrow(&self, _func: &Function, _inst: Inst, _rewrite: &mut Rewrite) -> bool {
        false
    }
}

fn three() -> (Function, Inst, Inst, Inst) {
    let mut func = Function::new(Signature::new());
    let ebb = func.make_ebb();
    let first = func.append_inst(ebb, Opcode::Nop, vec![], CallTarget::NotACall, &vec![]);
    let mul = func.append_inst(ebb, Opcode::Imul, vec![], CallTarget::NotACall, &vec![]);
    let last = func.append_inst(ebb, Opcode::Jump, vec![], CallTarget::NotACall, &vec![]);
    (func, first, mul, last)
}

#[test]
fn pass_makes_the_rewriting_that_the_target_asks_for() {
    let (mut func, first, mul, last) = three();
    // The second new instruction takes the result of the first.
    assert_eq!(legalize_function(&mut func, &Meddler { operand: Value(0) }, 1), Ok(()));
    assert_eq!(func.blocks[0].insts, vec![first, Inst(3), Inst(4), mul, last]);
    assert_eq!(
        opcodes(&func, 0),
        vec![Opcode::Nop, Opcode::Iconst, Opcode::Ireduce, Opcode::Nop, Opcode::Jump]
    );
    assert_eq!(func.insts[4].args, func.insts[3].results);
    assert_legalized(&func);
}

#[test]
fn pass_refuses_a_rewriting_that_cannot_be_made() {
    let (mut func, first, mul, last) = three();
    // A value that does not exist.
    assert_eq!(
        legalize_function(&mut func, &Meddler { operand: Value(9) }, 1),
        Err(LegalizeError::InvalidRewrite(mul))
    );
    assert!(func.is_well_formed());
    // What was there is still there, in its order.
    let old: Vec<Inst> = func.blocks[0].insts.iter().copied().filter(|i| i.0 < 3).collect();
    assert_eq!(old, vec![first, mul, last]);
}

#[test]
fn rewrite_numbers_the_new_values() {
    let (func, _, _, _) = three();
    let mut rewrite = Rewrite::new(&func);
    assert_eq!(rewrite.next_value, 0);
    let a = rewrite.insert_inst(Opcode::Iconst, vec![], CallTarget::NotACall, vec![i32t(), i64t()]);
    assert_eq!(a, Some(vec![Value(0), Value(1)]));
    let b = rewrite.insert_inst(Opcode::Iadd, vec![Value(0), Value(0)], CallTarget::NotACall, vec![i32t()]);
    assert_eq!(b, Some(vec![Value(2)]));
    assert_eq!(rewrite.next_value, 3);
    assert_eq!(rewrite.before.len(), 2);
    assert_eq!(rewrite.before[1].opcode, Opcode::Iadd);
    assert_eq!(rewrite.before[1].args, vec![Value(0), Value(0)]);
    assert!(rewrite.replace.is_none());
    rewrite.replace_inst(Opcode::Nop, vec![], CallTarget::NotACall);
    assert_eq!(rewrite.replace.as_ref().unwrap().opcode, Opcode::Nop);
    // No numbers are left.
    rewrite.next_value = usize::MAX;
    assert_eq!(rewrite.insert_inst(Opcode::Iconst, vec![], CallTarget::NotACall, vec![i32t()]), None);
    assert_eq!(rewrite.before.len(), 2);
    assert_eq!(rewrite.insert_inst(Opcode::Nop, vec![], CallTarget::NotACall, vec![]), Some(vec![]));
}

#[test]
fn apply_rewrite_puts_the_new_instructions_before() {
    let (mut func, first, mul, last) = three();
    let rewrite = Rewrite {
        before: vec![
            NewInst {
                opcode: Opcode::Iconst,
                args: vec![],
                target: CallTarget::NotACall,
                result_types: vec![i32t()],
            },
            NewInst {
                opcode: Opcode::Uextend,
                args: vec![Value(0)],
                target: CallTarget::NotACall,
                result_types: vec![i64t()],
            },
        ],
        replace: Some(Replacement { opcode: Opcode::Iadd, args: vec![Value(1), Value(1)], target: CallTarget::NotACall }),
        next_value: 0,
    };
    let mut pos = Cursor { block: 0, inst: 1 };
    assert_eq!(apply_rewrite(&mut func, &mut pos, rewrite), Ok(()));
    assert_eq!(pos, Cursor { block: 0, inst: 3 });
    assert_eq!(func.blocks[0].insts, vec![first, Inst(3), Inst(4), mul, last]);
    assert_eq!(func.insts[3].opcode, Opcode::Iconst);
    assert_eq!(func.insts[3].results, vec![Value(0)]);
    assert_eq!(func.insts[4].opcode, Opcode::Uextend);
    assert_eq!(func.insts[4].args, vec![Value(0)]);
    assert_eq!(func.insts[4].results, vec![Value(1)]);
    assert_eq!(func.values[1].ty, i64t());
    assert_eq!(func.insts[mul.0].opcode, Opcode::Iadd);
    assert_eq!(func.insts[mul.0].args, vec![Value(1), Value(1)]);
    assert!(func.is_well_formed());
}

#[test]
fn apply_rewrite_tests_every_part() {
    let new = |opcode, args: Vec<Value>, target| NewInst { opcode, args, target, result_types: vec![] };
    // An operand that does not exist yet.
    let (mut func, _, mul, _) = three();
    let rewrite = Rewrite {
        before: vec![new(Opcode::Ireduce, vec![Value(0)], CallTarget::NotACall)],
        replace: None,
        next_value: 0,
    };
    let mut pos = Cursor { block: 0, inst: 1 };
    assert_eq!(apply_rewrite(&mut func, &mut pos, rewrite), Err(LegalizeError::InvalidRewrite(mul)));
    // A call without a callee.
    let (mut func, _, mul, _) = three();
    let rewrite = Rewrite {
        before: vec![new(Opcode::Call, vec![], CallTarget::NotACall)],
        replace: None,
        next_value: 0,
    };
    assert_eq!(apply_rewrite(&mut func, &mut pos.clone(), rewrite), Err(LegalizeError::InvalidRewrite(mul)));
    // A replacement that refers to a signature that does not exist.
    let (mut func, _, mul, _) = three();
    let rewrite = Rewrite {
        before: vec![],
        replace: Some(Replacement {
            opcode: Opcode::CallIndirect,
            args: vec![],
            target: CallTarget::Indirect(legalizer::entities::SigRef(0)),
        }),
        next_value: 0,
    };
    let mut pos = Cursor { block: 0, inst: 1 };
    assert_eq!(apply_rewrite(&mut func, &mut pos, rewrite), Err(LegalizeError::InvalidRewrite(mul)));
    assert_eq!(func.insts[mul.0].opcode, Opcode::Imul);
    // Nothing asked for: nothing happens.
    let (mut func, first, mul, last) = three();
    let rewrite = Rewrite::new(&func);
    let mut pos = Cursor { block: 0, inst: 1 };
    assert_eq!(apply_rewrite(&mut func, &mut pos, rewrite), Ok(()));
    assert_eq!(func.blocks[0].insts, vec![first, mul, last]);
    assert_eq!(pos, Cursor { block: 0, inst: 1 });
    let _ = Ebb(0);
}

/// A function with a chain of aliases of two links is legalized like any other.
#[test]
fn pass_takes_chains_of_aliases() {
    let mut func = sample();
    let ebb = Ebb(1);
    let x = func.append_inst(ebb, Opcode::Iconst, vec![], CallTarget::NotACall, &vec![i64t()]);
    let x = func.insts[x.0].results[0];
    let y = func.append_inst(ebb, Opcode::Iconst, vec![], CallTarget::NotACall, &vec![i64t()]);
    let y = func.insts[y.0].results[0];
    // `y` stands for `x`, which stands for the first entry parameter.
    func.values[x.0].alias = Some(Value(0));
    func.values[y.0].alias = Some(x);
    assert!(func.is_well_formed() && func.aliases_resolve());
    assert_eq!(legalize_function(&mut func, &target(), 100), Ok(()));
    assert_legalized(&func);
    // The parameter was converted; the chain is one link longer and still ends.
    let whole = func.values[0].alias.unwrap();
    assert_eq!(func.resolve_aliases(y), whole);
    assert_eq!(func.values[y.0].alias, Some(x));
    assert_eq!(func.values[x.0].alias, Some(Value(0)));
}

/// Whatever comes of the pass, what the function had is still there.
#[test]
fn pass_keeps_what_the_function_had() {
    for limit in [0, 1, 2, 100] {
        let before = sample();
        let mut func = sample();
        let _ = legalize_function(&mut func, &target(), limit);
        assert_eq!(func.blocks.len(), before.blocks.len());
        for (v, w) in before.values.iter().zip(func.values.iter()) {
            assert_eq!(v.ty, w.ty);
        }
        for (i, j) in before.insts.iter().zip(func.insts.iter()) {
            assert_eq!(i.results, j.results);
        }
        for (a, b) in before.blocks.iter().zip(func.blocks.iter()) {
            let old: Vec<Inst> = b.insts.iter().copied().filter(|i| i.0 < before.insts.len()).collect();
            assert_eq!(old, a.insts);
        }
    }
}
