//! The function that is legalized: its signature tables, values, instructions, block layout and
//! encoding table, with the operations that grow it.

use crate::abi::{value_types, Signature};
use crate::entities::{Ebb, FuncRef, Inst, SigRef, Value};
use crate::types::Type;
use vstd::prelude::*;

verus! {

/// An instruction opcode.
#[derive(Clone, Copy, Debug, PartialEq, Eq, Structural)]
pub enum Opcode {
    Nop,
    Iconst,
    Iadd,
    Isub,
    Imul,
    Jump,
    /// Direct call of an external function.
    Call,
    /// Call through a pointer, which is the first operand.
    CallIndirect,
    Return,
    /// Split an integer into low and high halves.
    IsplitLohi,
    /// Concatenate low and high halves into an integer.
    IconcatLohi,
    /// Split a vector into low and high halves.
    Vsplit,
    /// Concatenate low and high halves into a vector.
    Vconcat,
    /// Reinterpret the bits of a value as another type of the same width.
    Bitcast,
    Sextend,
    Uextend,
    /// Truncate an integer to a narrower type.
    Ireduce,
}

impl Opcode {
    /// True for the opcodes that call a function.
    pub open spec fn spec_is_call(self) -> bool {
        self == Opcode::Call || self == Opcode::CallIndirect
    }

    #[verifier::when_used_as_spec(spec_is_call)]
    pub fn is_call(self) -> (r: bool)
        ensures
            r == self.spec_is_call(),
    {
        matches!(self, Opcode::Call | Opcode::CallIndirect)
    }

    /// True for the opcode that returns from the function.
    pub open spec fn spec_is_return(self) -> bool {
        self == Opcode::Return
    }

    #[verifier::when_used_as_spec(spec_is_return)]
    pub fn is_return(self) -> (r: bool)
        ensures
            r == self.spec_is_return(),
    {
        matches!(self, Opcode::Return)
    }

    pub open spec fn spec_fixed_value_arguments(self) -> usize {
        if self == Opcode::CallIndirect {
            1
        } else {
            0
        }
    }

    /// How many operands at the front of the operand list are fixed by the opcode and are no
    /// arguments of a signature: the callee of an indirect call.
    #[verifier::when_used_as_spec(spec_fixed_value_arguments)]
    pub fn fixed_value_arguments(self) -> (r: usize)
        ensures
            r == self.spec_fixed_value_arguments(),
    {
        if matches!(self, Opcode::CallIndirect) {
            1
        } else {
            0
        }
    }
}

/// What a call instruction calls.
#[derive(Clone, Copy, Debug, PartialEq, Eq, Structural)]
pub enum CallTarget {
    NotACall,
    Direct(FuncRef),
    Indirect(SigRef),
}

/// True when the opcode goes with this call target and this number of operands.
pub open spec fn shape_ok(opcode: Opcode, target: CallTarget, operands: int) -> bool {
    match opcode {
        Opcode::Call => target is Direct,
        Opcode::CallIndirect => target is Indirect && operands >= 1,
        _ => target is NotACall,
    }
}

/// An instruction: opcode, operand list, call target and results.
#[derive(Clone, Debug)]
pub struct InstructionData {
    pub opcode: Opcode,
    pub args: Vec<Value>,
    pub target: CallTarget,
    pub results: Vec<Value>,
}

/// A value: its type, and the value it stands for if it is an alias.
#[derive(Clone, Copy, Debug, PartialEq, Eq, Structural)]
pub struct ValueData {
    pub ty: Type,
    pub alias: Option<Value>,
}

/// A basic block: its parameters and its instructions in order.
#[derive(Clone, Debug)]
pub struct Block {
    pub params: Vec<Value>,
    pub insts: Vec<Inst>,
}

/// How the target encodes an instruction.
#[derive(Clone, Copy, Debug, PartialEq, Eq, Structural)]
pub struct Encoding {
    pub recipe: u16,
    pub bits: u16,
}

/// A place in the layout: before instruction number `inst` of block `block`, or at the end of
/// the block when `inst` is the number of its instructions.
#[derive(Clone, Copy, Debug, PartialEq, Eq, Structural)]
pub struct Cursor {
    pub block: usize,
    pub inst: usize,
}

/// A function.
#[derive(Clone, Debug)]
pub struct Function {
    /// The function's own signature.
    pub signature: Signature,
    /// The signatures that call instructions refer to.
    pub signatures: Vec<Signature>,
    /// The signature of each external function.
    pub ext_funcs: Vec<SigRef>,
    pub values: Vec<ValueData>,
    pub insts: Vec<InstructionData>,
    /// The blocks in layout order. The first is the entry block.
    pub blocks: Vec<Block>,
    /// The encoding of each instruction that has one, indexed by instruction.
    pub encodings: Vec<Option<Encoding>>,
}

impl Function {
    /// True when `v` is a value of the function.
    pub open spec fn has_value(self, v: Value) -> bool {
        v.0 < self.values.len()
    }

    /// True when every value of the list is a value of the function.
    pub open spec fn has_values(self, vs: Seq<Value>) -> bool {
        forall|i: int| 0 <= i < vs.len() ==> (#[trigger] vs[i]).0 < self.values.len()
    }

    /// The type of a value.
    pub open spec fn value_type(self, v: Value) -> Type {
        self.values@[v.0 as int].ty
    }

    /// The types of a list of values, in order.
    pub open spec fn types_of(self, vs: Seq<Value>) -> Seq<Type> {
        Seq::new(vs.len(), |i: int| self.value_type(vs[i]))
    }

    /// True when what a call target refers to exists.
    pub open spec fn target_ok(self, target: CallTarget) -> bool {
        match target {
            CallTarget::NotACall => true,
            CallTarget::Direct(f) => f.0 < self.ext_funcs.len(),
            CallTarget::Indirect(s) => s.0 < self.signatures.len(),
        }
    }

    /// True when an instruction with these parts can be part of the function.
    pub open spec fn accepts(self, opcode: Opcode, args: Seq<Value>, target: CallTarget) -> bool {
        &&& self.has_values(args)
        &&& shape_ok(opcode, target, args.len() as int)
        &&& self.target_ok(target)
    }

    /// True when the function accepts the instruction and has its results.
    pub open spec fn inst_ok(self, data: InstructionData) -> bool {
        &&& self.accepts(data.opcode, data.args@, data.target)
        &&& self.has_values(data.results@)
    }

    /// An alias stands for a value of the function that has its type.
    pub open spec fn alias_ok(self, data: ValueData) -> bool {
        data.alias matches Some(to) ==> {
            &&& to.0 < self.values.len()
            &&& self.values@[to.0 as int].ty == data.ty
        }
    }

    /// The value that is reached from `v` along at most `links` links of its chain of
    /// aliases: the end of the chain, if it ends within as many.
    pub open spec fn resolve_in(self, v: Value, links: nat) -> Value
        decreases links,
    {
        if links > 0 && v.0 < self.values.len() {
            match self.values@[v.0 as int].alias {
                Some(to) => self.resolve_in(to, (links - 1) as nat),
                None => v,
            }
        } else {
            v
        }
    }

    /// The chain of aliases of `v` ends within `links` links, in a value that is no alias.
    pub open spec fn resolves_in(self, v: Value, links: nat) -> bool {
        let end = self.resolve_in(v, links);
        end.0 < self.values.len() && self.values@[end.0 as int].alias is None
    }

    /// The value that `v` stands for: the end of its chain of aliases, where the chain ends
    /// within as many links as the function has values.
    pub open spec fn resolved(self, v: Value) -> Value {
        self.resolve_in(v, self.values.len() as nat)
    }

    /// The chain of aliases of every value ends: none goes on for more links than the
    /// function has values.
    pub open spec fn aliases_end(self) -> bool {
        forall|v: int|
            0 <= v < self.values.len() ==> #[trigger] self.resolves_in(
                Value(v as usize),
                self.values.len() as nat,
            )
    }

    /// A chain that ends within some links ends within more, in the same value.
    pub proof fn lemma_resolve_longer(self, v: Value, links: nat, more: nat)
        requires
            self.resolves_in(v, links),
            links <= more,
        ensures
            self.resolve_in(v, more) == self.resolve_in(v, links),
        decreases links,
    {
        if links > 0 && v.0 < self.values.len() {
            match self.values@[v.0 as int].alias {
                Some(to) => {
                    self.lemma_resolve_longer(to, (links - 1) as nat, (more - 1) as nat);
                },
                None => {},
            }
        }
    }

    /// Chains are what they were in a function that has every value unchanged.
    pub proof fn lemma_resolve_kept(self, new: Function, v: Value, links: nat)
        requires
            self.values_ok(),
            self.values_kept(new),
            v.0 < self.values.len(),
        ensures
            new.resolve_in(v, links) == self.resolve_in(v, links),
            self.resolve_in(v, links).0 < self.values.len(),
        decreases links,
    {
        if links > 0 {
            assert(new.values@[v.0 as int] == self.values@[v.0 as int]);
            assert(self.alias_ok(self.values@[v.0 as int]));
            match self.values@[v.0 as int].alias {
                Some(to) => {
                    self.lemma_resolve_kept(new, to, (links - 1) as nat);
                },
                None => {},
            }
        }
    }

    /// Every chain still ends in a function that has every value unchanged, and new values
    /// that are no aliases.
    pub proof fn lemma_aliases_end_grown(self, new: Function)
        requires
            self.values_ok(),
            self.aliases_end(),
            self.values_kept(new),
            forall|v: int|
                self.values.len() <= v < new.values.len() ==> (#[trigger] new.values@[v]).alias
                    is None,
        ensures
            new.aliases_end(),
    {
        assert forall|v: int| 0 <= v < new.values.len() implies #[trigger] new.resolves_in(
            Value(v as usize),
            new.values.len() as nat,
        ) by {
            let x = Value(v as usize);
            if v < self.values.len() {
                assert(self.resolves_in(x, self.values.len() as nat));
                self.lemma_resolve_kept(new, x, self.values.len() as nat);
                let end = self.resolve_in(x, self.values.len() as nat);
                assert(new.values@[end.0 as int] == self.values@[end.0 as int]);
                assert(new.resolves_in(x, self.values.len() as nat));
                new.lemma_resolve_longer(x, self.values.len() as nat, new.values.len() as nat);
            } else {
                assert(new.values@[v].alias is None);
                if new.values.len() > 0 {
                    assert(new.resolve_in(x, new.values.len() as nat) == x);
                }
            }
        }
    }

    /// Every chain still ends when new values that are no aliases are made and an old value
    /// becomes an alias of one of them.
    pub proof fn lemma_aliases_end_aliased(self, made: Function, new: Function, dest: Value, end: Value)
        requires
            self.values_ok(),
            made.values_ok(),
            self.aliases_end(),
            self.values_kept(made),
            forall|v: int|
                self.values.len() <= v < made.values.len() ==> (#[trigger] made.values@[v]).alias
                    is None,
            dest.0 < self.values.len(),
            self.values.len() <= end.0 < made.values.len(),
            new.values.len() == made.values.len(),
            new.values@[dest.0 as int].alias == Some(end),
            forall|x: int|
                0 <= x < made.values.len() && x != dest.0 ==> #[trigger] new.values@[x]
                    == made.values@[x],
        ensures
            new.aliases_end(),
    {
        self.lemma_aliases_end_grown(made);
        let n = self.values.len() as nat;
        assert forall|v: int| 0 <= v < new.values.len() implies #[trigger] new.resolves_in(
            Value(v as usize),
            new.values.len() as nat,
        ) by {
            let x = Value(v as usize);
            if v < self.values.len() {
                assert(self.resolves_in(x, n));
                self.lemma_resolve_kept(made, x, n);
                let last = self.resolve_in(x, n);
                assert(made.values@[last.0 as int] == self.values@[last.0 as int]);
                assert(made.resolves_in(x, n));
            } else {
                assert(made.values@[v].alias is None);
                assert(made.resolve_in(x, 0) == x);
                assert(made.resolves_in(x, 0));
                made.lemma_resolve_longer(x, 0, n);
            }
            made.lemma_resolve_aliased(new, dest, end, x, n);
            new.lemma_resolve_longer(x, n + 1, new.values.len() as nat);
        }
    }

    /// A value that becomes an alias of a value that is none makes no chain longer by more
    /// than one link.
    pub proof fn lemma_resolve_aliased(self, new: Function, dest: Value, end: Value, v: Value, links: nat)
        requires
            self.values_ok(),
            new.values.len() == self.values.len(),
            dest.0 < self.values.len(),
            end.0 < self.values.len(),
            dest != end,
            self.values@[end.0 as int].alias is None,
            new.values@[dest.0 as int].alias == Some(end),
            forall|x: int|
                0 <= x < self.values.len() && x != dest.0 ==> #[trigger] new.values@[x]
                    == self.values@[x],
            v.0 < self.values.len(),
            self.resolves_in(v, links),
        ensures
            new.resolves_in(v, links + 1),
        decreases links,
    {
        assert(new.values@[end.0 as int].alias is None);
        if v == dest {
            assert(new.resolve_in(end, links) == end);
        } else {
            assert(new.values@[v.0 as int] == self.values@[v.0 as int]);
            assert(self.alias_ok(self.values@[v.0 as int]));
            match self.values@[v.0 as int].alias {
                Some(to) => {
                    if links > 0 {
                        self.lemma_resolve_aliased(new, dest, end, to, (links - 1) as nat);
                    }
                },
                None => {},
            }
        }
    }

    /// True when block `b` has an instruction number `k`.
    pub open spec fn laid_out(self, b: int, k: int) -> bool {
        0 <= b < self.blocks.len() && 0 <= k < self.blocks@[b].insts.len()
    }

    /// Instruction number `k` of block `b`.
    pub open spec fn inst_at(self, b: int, k: int) -> Inst {
        self.blocks@[b].insts@[k]
    }

    /// True when new instructions can be put before instruction `k` of block `b`.
    pub open spec fn insertion_point(self, b: int, k: int) -> bool {
        0 <= b < self.blocks.len() && 0 <= k <= self.blocks@[b].insts.len()
    }

    /// Every external function has a signature of the table.
    pub open spec fn tables_ok(self) -> bool {
        forall|f: int|
            0 <= f < self.ext_funcs.len() ==> (#[trigger] self.ext_funcs@[f]).0
                < self.signatures.len()
    }

    /// Every alias stands for a value of its type.
    pub open spec fn values_ok(self) -> bool {
        forall|v: int| 0 <= v < self.values.len() ==> self.alias_ok(#[trigger] self.values@[v])
    }

    /// The function accepts each of its instructions.
    pub open spec fn insts_ok(self) -> bool {
        forall|i: int| 0 <= i < self.insts.len() ==> self.inst_ok(#[trigger] self.insts@[i])
    }

    /// Every block parameter is a value of the function.
    pub open spec fn params_ok(self) -> bool {
        forall|b: int|
            0 <= b < self.blocks.len() ==> self.has_values((#[trigger] self.blocks@[b]).params@)
    }

    /// Every instruction of the layout exists, and none is laid out twice.
    pub open spec fn layout_ok(self) -> bool {
        &&& forall|b: int, k: int|
            self.laid_out(b, k) ==> (#[trigger] self.inst_at(b, k)).0 < self.insts.len()
        &&& forall|b1: int, k1: int, b2: int, k2: int|
            self.laid_out(b1, k1) && self.laid_out(b2, k2) && #[trigger] self.inst_at(b1, k1)
                == #[trigger] self.inst_at(b2, k2) ==> b1 == b2 && k1 == k2
    }

    /// The function is consistent: every reference is to something that exists, an alias has
    /// the type of what it stands for, and no instruction is laid out twice.
    pub open spec fn wf(self) -> bool {
        &&& self.tables_ok()
        &&& self.values_ok()
        &&& self.insts_ok()
        &&& self.params_ok()
        &&& self.layout_ok()
    }

    /// `new` has the layout of `self`.
    pub open spec fn layout_kept(self, new: Function) -> bool {
        &&& new.blocks.len() == self.blocks.len()
        &&& forall|b: int|
            0 <= b < self.blocks.len() ==> (#[trigger] new.blocks@[b]).insts@
                == self.blocks@[b].insts@
    }

    /// A function with the layout of a consistent one, and at least its instructions, has a
    /// consistent layout.
    pub proof fn lemma_layout_kept(self, new: Function)
        requires
            self.layout_ok(),
            self.layout_kept(new),
            self.insts.len() <= new.insts.len(),
        ensures
            new.layout_ok(),
    {
        assert forall|b: int, k: int| new.laid_out(b, k) implies (#[trigger] new.inst_at(b, k)).0
            < new.insts.len() by {
            assert(self.laid_out(b, k));
            assert(new.inst_at(b, k) == self.inst_at(b, k));
        }
        assert forall|b1: int, k1: int, b2: int, k2: int|
            new.laid_out(b1, k1) && new.laid_out(b2, k2) && #[trigger] new.inst_at(b1, k1)
                == #[trigger] new.inst_at(b2, k2) implies b1 == b2 && k1 == k2 by {
            assert(self.laid_out(b1, k1) && self.laid_out(b2, k2));
            assert(self.inst_at(b1, k1) == self.inst_at(b2, k2));
        }
    }

    /// The encoding of an instruction, if the table has one.
    pub open spec fn encoding(self, inst: Inst) -> Option<Encoding> {
        if inst.0 < self.encodings.len() {
            self.encodings@[inst.0 as int]
        } else {
            None
        }
    }

    /// The types of the parameters of a block.
    pub open spec fn param_types(self, ebb: Ebb) -> Seq<Type> {
        self.types_of(self.blocks@[ebb.0 as int].params@)
    }

    /// The signature that a call instruction has to match.
    pub open spec fn call_signature(self, inst: Inst) -> SigRef {
        match self.insts@[inst.0 as int].target {
            CallTarget::Direct(f) => self.ext_funcs@[f.0 as int],
            CallTarget::Indirect(s) => s,
            CallTarget::NotACall => SigRef(0),
        }
    }

    /// The operands of an instruction that are arguments of a signature: those after the
    /// operands that the opcode fixes.
    pub open spec fn abi_args(self, inst: Inst) -> Seq<Value> {
        let data = self.insts@[inst.0 as int];
        data.args@.skip(data.opcode.spec_fixed_value_arguments() as int)
    }

    /// The arguments of a call have the types of the arguments of its signature.
    pub open spec fn call_args_match(self, inst: Inst) -> bool {
        self.types_of(self.abi_args(inst)) == value_types(
            self.signatures@[self.call_signature(inst).0 as int].argument_types@,
        )
    }

    /// The results of a call have the types of the return values of its signature.
    pub open spec fn call_results_match(self, inst: Inst) -> bool {
        self.types_of(self.insts@[inst.0 as int].results@) == value_types(
            self.signatures@[self.call_signature(inst).0 as int].return_types@,
        )
    }

    /// The arguments of a return have the types of the return values of the function's
    /// signature.
    pub open spec fn return_matches(self, inst: Inst) -> bool {
        self.types_of(self.abi_args(inst)) == value_types(self.signature.return_types@)
    }

    /// The instruction follows the ABI: a call matches its signature, a return matches the
    /// function's. Any other instruction does.
    pub open spec fn abi_ok(self, inst: Inst) -> bool {
        let opcode = self.insts@[inst.0 as int].opcode;
        if opcode.spec_is_call() {
            self.call_args_match(inst) && self.call_results_match(inst)
        } else if opcode.spec_is_return() {
            self.return_matches(inst)
        } else {
            true
        }
    }

    /// The parameters of the entry block have the types of the arguments of the function's
    /// signature, one for one. A function without blocks has no parameters to compare.
    pub open spec fn entry_matches(self) -> bool {
        self.blocks.len() > 0 ==> self.param_types(Ebb(0)) == value_types(
            self.signature.argument_types@,
        )
    }

    /// The function's signature and every signature of its table are legalized.
    pub open spec fn signatures_legalized(self) -> bool {
        &&& self.signature.spec_is_legalized()
        &&& forall|i: int|
            0 <= i < self.signatures.len() ==> (#[trigger] self.signatures@[i]).spec_is_legalized()
    }

    /// Both functions have the same content: the same signatures, values, instructions and
    /// encodings, and blocks with the same parameters and instructions.
    pub open spec fn same_as(self, other: Function) -> bool {
        &&& self.signature.same_as(&other.signature)
        &&& self.signatures.len() == other.signatures.len()
        &&& forall|i: int|
            0 <= i < self.signatures.len() ==> (#[trigger] self.signatures@[i]).same_as(
                &other.signatures@[i],
            )
        &&& self.ext_funcs == other.ext_funcs
        &&& self.values == other.values
        &&& self.insts == other.insts
        &&& self.encodings == other.encodings
        &&& self.blocks.len() == other.blocks.len()
        &&& forall|b: int|
            0 <= b < self.blocks.len() ==> (#[trigger] self.blocks@[b]).params@
                == other.blocks@[b].params@ && self.blocks@[b].insts@ == other.blocks@[b].insts@
    }

    /// No block has an instruction.
    pub open spec fn nothing_laid_out(self) -> bool {
        forall|b: int| 0 <= b < self.blocks.len() ==> (#[trigger] self.blocks@[b]).insts.len() == 0
    }

    /// The instruction is in the layout.
    pub open spec fn has_laid_out(self, inst: Inst) -> bool {
        exists|b: int, k: int| self.laid_out(b, k) && #[trigger] self.inst_at(b, k) == inst
    }

    /// Both functions have the same content but for their encoding tables.
    pub open spec fn same_but_encodings(self, other: Function) -> bool {
        &&& self.signature.same_as(&other.signature)
        &&& self.signatures.len() == other.signatures.len()
        &&& forall|i: int|
            0 <= i < self.signatures.len() ==> (#[trigger] self.signatures@[i]).same_as(
                &other.signatures@[i],
            )
        &&& self.ext_funcs == other.ext_funcs
        &&& self.values == other.values
        &&& self.insts == other.insts
        &&& self.blocks.len() == other.blocks.len()
        &&& forall|b: int|
            0 <= b < self.blocks.len() ==> (#[trigger] self.blocks@[b]).params@
                == other.blocks@[b].params@ && self.blocks@[b].insts@ == other.blocks@[b].insts@
    }

    /// An instruction follows the ABI in a function with the same content if it does here.
    pub proof fn lemma_abi_ok_same(self, other: Function, inst: Inst)
        requires
            self.same_but_encodings(other),
            self.wf(),
            inst.0 < self.insts.len(),
        ensures
            other.abi_ok(inst) == self.abi_ok(inst),
    {
        assert(self.inst_ok(self.insts@[inst.0 as int]));
        assert(other.types_of(other.abi_args(inst)) =~= self.types_of(self.abi_args(inst)));
        assert(other.types_of(other.insts@[inst.0 as int].results@) =~= self.types_of(
            self.insts@[inst.0 as int].results@,
        ));
        assert(other.call_signature(inst) == self.call_signature(inst));
        if self.insts@[inst.0 as int].opcode.spec_is_call() {
            let s = self.call_signature(inst).0 as int;
            assert(self.signatures@[s].same_as(&other.signatures@[s]));
        }
    }

    /// The instruction is legal: it has an encoding and follows the ABI.
    pub open spec fn inst_legal(self, inst: Inst) -> bool {
        self.encoding(inst) is Some && self.abi_ok(inst)
    }

    /// Every instruction laid out before instruction `k` of block `b` is legal: those of the
    /// blocks before `b`, and the first `k` of block `b`.
    pub open spec fn legal_before(self, b: int, k: int) -> bool {
        forall|c: int, j: int|
            self.laid_out(c, j) && (c < b || (c == b && j < k)) ==> self.inst_legal(
                #[trigger] self.inst_at(c, j),
            )
    }

    /// The function is legalized: its signatures are, the parameters of the entry block match
    /// its own signature, and every instruction of the layout is legal.
    pub open spec fn legalized(self) -> bool {
        &&& self.signatures_legalized()
        &&& self.entry_matches()
        &&& forall|b: int, k: int| self.laid_out(b, k) ==> self.inst_legal(#[trigger] self.inst_at(b, k))
    }

    /// What holds while the layout is walked and the walk stands before instruction `k` of
    /// block `b`: the function is consistent, its boundaries follow the ABI, and what the walk
    /// has passed is legal.
    pub open spec fn legal_up_to(self, b: int, k: int) -> bool {
        &&& self.wf()
        &&& self.signatures_legalized()
        &&& self.entry_matches()
        &&& self.legal_before(b, k)
    }

    /// An instruction that is unchanged in a function whose tables and value types are
    /// unchanged follows the ABI there if it did before.
    pub proof fn lemma_abi_ok_kept(self, new: Function, inst: Inst)
        requires
            self.wf(),
            inst.0 < self.insts.len(),
            self.signature == new.signature,
            self.signatures == new.signatures,
            self.ext_funcs == new.ext_funcs,
            self.values.len() <= new.values.len(),
            forall|v: int|
                0 <= v < self.values.len() ==> (#[trigger] new.values@[v]).ty == self.values@[v].ty,
            new.insts@[inst.0 as int] == self.insts@[inst.0 as int],
        ensures
            new.abi_ok(inst) == self.abi_ok(inst),
    {
        assert(self.inst_ok(self.insts@[inst.0 as int]));
        let data = self.insts@[inst.0 as int];
        assert(new.abi_args(inst) == self.abi_args(inst));
        assert(new.types_of(new.abi_args(inst)) =~= self.types_of(self.abi_args(inst))) by {
            assert forall|i: int| 0 <= i < self.abi_args(inst).len() implies new.value_type(
                self.abi_args(inst)[i],
            ) == self.value_type(self.abi_args(inst)[i]) by {
                let fixed = data.opcode.spec_fixed_value_arguments() as int;
                assert(self.abi_args(inst)[i] == data.args@[fixed + i]);
            }
        }
        assert(new.types_of(data.results@) =~= self.types_of(data.results@));
        assert(new.call_signature(inst) == self.call_signature(inst));
    }

    /// Putting instructions before instruction `at` of block `b` and changing instruction
    /// `inst`, which is that instruction, leaves legal what is laid out before an
    /// instruction `k` of the block that is not behind `at`.
    pub proof fn lemma_legal_kept(self, new: Function, b: int, at: int, n: int, k: int)
        requires
            self.legal_up_to(b, k),
            new.wf(),
            self.laid_out(b, at),
            0 <= k <= at,
            self.stable(new),
            self.insts_kept_but(new, self.inst_at(b, at)),
            self.spliced(new, b, at, n),
            self.params_kept(new),
        ensures
            new.legal_up_to(b, k),
    {
        let inst = self.inst_at(b, at);
        assert forall|c: int, j: int|
            new.laid_out(c, j) && (c < b || (c == b && j < k)) implies new.inst_legal(
            #[trigger] new.inst_at(c, j),
        ) by {
            if c != b {
                assert(new.blocks@[c].insts@ == self.blocks@[c].insts@);
            }
            assert(self.laid_out(c, j));
            let i = self.inst_at(c, j);
            assert(new.inst_at(c, j) == i);
            assert(i != inst);
            assert(self.inst_legal(i));
            assert(new.insts@[i.0 as int] == self.insts@[i.0 as int]);
            self.lemma_abi_ok_kept(new, i);
        }
        if self.blocks.len() > 0 {
            let before = self.blocks@[0].params@;
            assert(new.blocks@[0].params@ == before);
            assert(self.has_values(before));
            assert(new.param_types(Ebb(0)) =~= self.param_types(Ebb(0)));
        }
    }

    /// `new` has the signatures and external functions of `self`, every value of `self` with
    /// its type, every encoding, and as many blocks; it may have more values and instructions.
    pub open spec fn stable(self, new: Function) -> bool {
        &&& new.signature == self.signature
        &&& new.signatures == self.signatures
        &&& new.ext_funcs == self.ext_funcs
        &&& new.encodings == self.encodings
        &&& self.values.len() <= new.values.len()
        &&& forall|v: int|
            0 <= v < self.values.len() ==> (#[trigger] new.values@[v]).ty == self.values@[v].ty
        &&& self.insts.len() <= new.insts.len()
        &&& new.blocks.len() == self.blocks.len()
    }

    /// Every value of `self` is unchanged in `new`: it has its type and stands for what it
    /// stood for.
    pub open spec fn values_kept(self, new: Function) -> bool {
        &&& self.values.len() <= new.values.len()
        &&& forall|v: int| 0 <= v < self.values.len() ==> #[trigger] new.values@[v] == self.values@[v]
    }

    /// Every instruction of `self` is unchanged in `new`.
    pub open spec fn insts_kept(self, new: Function) -> bool {
        forall|i: int| 0 <= i < self.insts.len() ==> #[trigger] new.insts@[i] == self.insts@[i]
    }

    /// Every instruction of `self` but `inst` is unchanged in `new`.
    pub open spec fn insts_kept_but(self, new: Function, inst: Inst) -> bool {
        forall|i: int|
            0 <= i < self.insts.len() && i != inst.0 ==> #[trigger] new.insts@[i] == self.insts@[i]
    }

    /// Every block of `new` has the parameters that it has in `self`.
    pub open spec fn params_kept(self, new: Function) -> bool {
        forall|b: int|
            0 <= b < self.blocks.len() ==> (#[trigger] new.blocks@[b]).params@
                == self.blocks@[b].params@
    }

    /// The layout of `new` is that of `self` with `n` instructions put before instruction `at`
    /// of block `b`, none of which `self` has.
    pub open spec fn spliced(self, new: Function, b: int, at: int, n: int) -> bool {
        &&& n >= 0
        &&& new.blocks.len() == self.blocks.len()
        &&& forall|c: int|
            0 <= c < self.blocks.len() && c != b ==> (#[trigger] new.blocks@[c]).insts@
                == self.blocks@[c].insts@
        &&& new.blocks@[b].insts.len() == self.blocks@[b].insts.len() + n
        &&& forall|k: int| 0 <= k < at ==> #[trigger] new.inst_at(b, k) == self.inst_at(b, k)
        &&& forall|k: int|
            at <= k < at + n ==> self.insts.len() <= (#[trigger] new.inst_at(b, k)).0
        &&& forall|k: int|
            at + n <= k < new.blocks@[b].insts.len() ==> #[trigger] new.inst_at(b, k)
                == self.inst_at(b, k - n)
    }

    /// `new` is `self` with `n` new instructions before instruction `at` of block `b`: what
    /// `self` has is unchanged in `new`.
    pub open spec fn grown(self, new: Function, b: int, at: int, n: int) -> bool {
        &&& self.stable(new)
        &&& self.insts_kept(new)
        &&& self.spliced(new, b, at, n)
    }

    /// Growing twice at one place is growing once by the sum.
    pub proof fn lemma_grown_twice(self, mid: Function, new: Function, b: int, at: int, n: int, m: int)
        requires
            0 <= b < self.blocks.len(),
            0 <= at <= self.blocks@[b].insts.len(),
            self.grown(mid, b, at, n),
            mid.grown(new, b, at + n, m),
        ensures
            self.grown(new, b, at, n + m),
    {
        assert forall|c: int| 0 <= c < self.blocks.len() && c != b implies (
        #[trigger] new.blocks@[c]).insts@ == self.blocks@[c].insts@ by {
            assert(mid.blocks@[c].insts@ == self.blocks@[c].insts@);
        }
        assert forall|k: int| 0 <= k < at implies #[trigger] new.inst_at(b, k) == self.inst_at(
            b,
            k,
        ) by {
            assert(new.inst_at(b, k) == mid.inst_at(b, k));
        }
        assert forall|k: int| at <= k < at + n + m implies self.insts.len() <= (
        #[trigger] new.inst_at(b, k)).0 by {
            if k < at + n {
                assert(new.inst_at(b, k) == mid.inst_at(b, k));
            }
        }
        assert forall|k: int| at + n + m <= k < new.blocks@[b].insts.len() implies
            #[trigger] new.inst_at(b, k) == self.inst_at(b, k - (n + m)) by {
            assert(new.inst_at(b, k) == mid.inst_at(b, k - m));
            assert(mid.inst_at(b, k - m) == self.inst_at(b, k - m - n));
        }
        assert forall|i: int| 0 <= i < self.insts.len() implies #[trigger] new.insts@[i]
            == self.insts@[i] by {
            assert(mid.insts@[i] == self.insts@[i]);
        }
        assert forall|v: int| 0 <= v < self.values.len() implies (#[trigger] new.values@[v]).ty
            == self.values@[v].ty by {
            assert(mid.values@[v].ty == self.values@[v].ty);
        }
    }

    /// `new` has the instructions and the layout of `self`; it may have more values.
    pub open spec fn preserved(self, new: Function) -> bool {
        &&& self.stable(new)
        &&& self.insts_kept(new)
        &&& self.layout_kept(new)
    }

    /// A function that is preserved has grown by nothing, wherever one looks.
    pub proof fn lemma_preserved_grown(self, new: Function, b: int, at: int)
        requires
            self.preserved(new),
            0 <= b < self.blocks.len(),
        ensures
            self.grown(new, b, at, 0),
    {
        assert forall|k: int| 0 <= k < at implies #[trigger] new.inst_at(b, k) == self.inst_at(
            b,
            k,
        ) by {
            if 0 <= b < self.blocks.len() {
                assert(new.blocks@[b].insts@ == self.blocks@[b].insts@);
            }
        }
        assert forall|k: int| at <= k < new.blocks@[b].insts.len() implies #[trigger] new.inst_at(
            b,
            k,
        ) == self.inst_at(b, k - 0) by {
            if 0 <= b < self.blocks.len() {
                assert(new.blocks@[b].insts@ == self.blocks@[b].insts@);
            }
        }
    }

    /// `new` is `self` with `n` new instructions before instruction `at` of block `b`, and
    /// with another operand list for `inst`. Nothing else of what `self` has differs.
    pub open spec fn rewired(self, new: Function, b: int, at: int, n: int, inst: Inst) -> bool {
        &&& self.stable(new)
        &&& self.insts_kept_but(new, inst)
        &&& self.spliced(new, b, at, n)
        &&& self.params_kept(new)
        &&& new.insts@[inst.0 as int].opcode == self.insts@[inst.0 as int].opcode
        &&& new.insts@[inst.0 as int].target == self.insts@[inst.0 as int].target
        &&& new.insts@[inst.0 as int].results == self.insts@[inst.0 as int].results
    }

    /// Growing and then replacing the operand list of `inst` is rewiring.
    pub proof fn lemma_grown_rewired(self, mid: Function, new: Function, b: int, at: int, n: int, inst: Inst)
        requires
            inst.0 < self.insts.len(),
            self.grown(mid, b, at, n),
            self.params_kept(mid),
            mid.stable(new),
            mid.insts_kept_but(new, inst),
            new.blocks == mid.blocks,
            new.insts@[inst.0 as int].opcode == mid.insts@[inst.0 as int].opcode,
            new.insts@[inst.0 as int].target == mid.insts@[inst.0 as int].target,
            new.insts@[inst.0 as int].results == mid.insts@[inst.0 as int].results,
        ensures
            self.rewired(new, b, at, n, inst),
    {
        assert(mid.insts@[inst.0 as int] == self.insts@[inst.0 as int]);
        assert forall|i: int| 0 <= i < self.insts.len() && i != inst.0 implies
            #[trigger] new.insts@[i] == self.insts@[i] by {
            assert(mid.insts@[i] == self.insts@[i]);
        }
        assert forall|v: int| 0 <= v < self.values.len() implies (#[trigger] new.values@[v]).ty
            == self.values@[v].ty by {
            assert(mid.values@[v].ty == self.values@[v].ty);
        }
        assert forall|k: int| 0 <= k < at implies #[trigger] new.inst_at(b, k) == self.inst_at(
            b,
            k,
        ) by {
            assert(new.inst_at(b, k) == mid.inst_at(b, k));
        }
        assert forall|k: int| at <= k < at + n implies self.insts.len() <= (#[trigger] new.inst_at(
            b,
            k,
        )).0 by {
            assert(new.inst_at(b, k) == mid.inst_at(b, k));
        }
        assert forall|k: int| at + n <= k < new.blocks@[b].insts.len() implies
            #[trigger] new.inst_at(b, k) == self.inst_at(b, k - n) by {
            assert(new.inst_at(b, k) == mid.inst_at(b, k));
        }
    }

    /// Giving an encoding to instruction `k` of block `b`, which follows the ABI, makes legal
    /// what is laid out before instruction `k + 1`, if what is laid out before `k` was.
    pub proof fn lemma_legal_encoded(self, new: Function, b: int, k: int)
        requires
            self.legal_up_to(b, k),
            self.laid_out(b, k),
            self.abi_ok(self.inst_at(b, k)),
            new.signature == self.signature,
            new.signatures == self.signatures,
            new.ext_funcs == self.ext_funcs,
            new.values == self.values,
            new.insts == self.insts,
            new.blocks == self.blocks,
            new.encoding(self.inst_at(b, k)) is Some,
            forall|i: Inst| i != self.inst_at(b, k) ==> #[trigger] new.encoding(i) == self.encoding(i),
        ensures
            new.legal_up_to(b, k + 1),
    {
        self.lemma_layout_kept(new);
        assert(new.values_ok()) by {
            assert forall|v: int| 0 <= v < new.values.len() implies new.alias_ok(
                #[trigger] new.values@[v],
            ) by {
                assert(self.alias_ok(self.values@[v]));
            }
        }
        assert(new.insts_ok()) by {
            assert forall|i: int| 0 <= i < new.insts.len() implies new.inst_ok(
                #[trigger] new.insts@[i],
            ) by {
                assert(self.inst_ok(self.insts@[i]));
            }
        }
        assert(new.params_ok()) by {
            assert forall|c: int| 0 <= c < new.blocks.len() implies new.has_values(
                (#[trigger] new.blocks@[c]).params@,
            ) by {
                assert(self.has_values(self.blocks@[c].params@));
            }
        }
        assert forall|c: int, j: int|
            new.laid_out(c, j) && (c < b || (c == b && j < k + 1)) implies new.inst_legal(
            #[trigger] new.inst_at(c, j),
        ) by {
            assert(self.laid_out(c, j));
            let i = self.inst_at(c, j);
            assert(new.inst_at(c, j) == i);
            self.lemma_abi_ok_kept(new, i);
            if !(c == b && j == k) {
                assert(self.inst_legal(i));
                assert(i != self.inst_at(b, k));
            }
        }
        if self.blocks.len() > 0 {
            assert(new.param_types(Ebb(0)) =~= self.param_types(Ebb(0)));
        }
    }

    /// A consistent function stays consistent when only the content of its signatures
    /// changes.
    pub proof fn lemma_signatures_changed(self, new: Function)
        requires
            self.wf(),
            new.signatures.len() == self.signatures.len(),
            new.ext_funcs == self.ext_funcs,
            new.values == self.values,
            new.insts == self.insts,
            new.blocks == self.blocks,
        ensures
            new.wf(),
    {
        self.lemma_layout_kept(new);
        assert forall|v: int| 0 <= v < new.values.len() implies new.alias_ok(
            #[trigger] new.values@[v],
        ) by {
            assert(self.alias_ok(self.values@[v]));
        }
        assert forall|i: int| 0 <= i < new.insts.len() implies new.inst_ok(
            #[trigger] new.insts@[i],
        ) by {
            assert(self.inst_ok(self.insts@[i]));
        }
        assert forall|c: int| 0 <= c < new.blocks.len() implies new.has_values(
            (#[trigger] new.blocks@[c]).params@,
        ) by {
            assert(self.has_values(self.blocks@[c].params@));
        }
    }

    /// Keeping the parameters twice is keeping them.
    pub proof fn lemma_params_kept_twice(self, mid: Function, new: Function)
        requires
            self.blocks.len() == mid.blocks.len(),
            self.params_kept(mid),
            mid.params_kept(new),
        ensures
            self.params_kept(new),
    {
        assert forall|b: int| 0 <= b < self.blocks.len() implies (#[trigger] new.blocks@[b]).params@
            == self.blocks@[b].params@ by {
            assert(mid.blocks@[b].params@ == self.blocks@[b].params@);
        }
    }

    /// A function with the given signature and nothing else.
    pub fn new(signature: Signature) -> (r: Function)
        ensures
            r.wf(),
            r.signature == signature,
            r.signatures.len() == 0,
            r.ext_funcs.len() == 0,
            r.values.len() == 0,
            r.insts.len() == 0,
            r.blocks.len() == 0,
            r.encodings.len() == 0,
    {
        Function {
            signature,
            signatures: Vec::new(),
            ext_funcs: Vec::new(),
            values: Vec::new(),
            insts: Vec::new(),
            blocks: Vec::new(),
            encodings: Vec::new(),
        }
    }
}

} // verus!
