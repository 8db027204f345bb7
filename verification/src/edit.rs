//! The operations that change a function.

use crate::abi::Signature;
use crate::entities::{Ebb, FuncRef, Inst, SigRef, Value};
use crate::function::{Block, CallTarget, Cursor, Encoding, Function, InstructionData, Opcode, ValueData};
use crate::types::Type;
use vstd::prelude::*;

verus! {

impl Function {
    /// Adds a signature to the table of signatures that calls can refer to.
    pub fn import_signature(&mut self, signature: Signature) -> (r: SigRef)
        requires
            old(self).wf(),
        ensures
            final(self).wf(),
            r.0 == old(self).signatures.len(),
            final(self).signatures@ == old(self).signatures@.push(signature),
            final(self).signature == old(self).signature,
            final(self).ext_funcs == old(self).ext_funcs,
            final(self).values == old(self).values,
            final(self).insts == old(self).insts,
            final(self).blocks == old(self).blocks,
            final(self).encodings == old(self).encodings,
    {
        let r = SigRef(self.signatures.len());
        self.signatures.push(signature);
        proof {
            old(self).lemma_layout_kept(*self);
        }
        r
    }

    /// Declares an external function with the given signature.
    pub fn import_function(&mut self, signature: SigRef) -> (r: FuncRef)
        requires
            old(self).wf(),
            signature.0 < old(self).signatures.len(),
        ensures
            final(self).wf(),
            r.0 == old(self).ext_funcs.len(),
            final(self).ext_funcs@ == old(self).ext_funcs@.push(signature),
            final(self).signature == old(self).signature,
            final(self).signatures == old(self).signatures,
            final(self).values == old(self).values,
            final(self).insts == old(self).insts,
            final(self).blocks == old(self).blocks,
            final(self).encodings == old(self).encodings,
    {
        let r = FuncRef(self.ext_funcs.len());
        self.ext_funcs.push(signature);
        proof {
            old(self).lemma_layout_kept(*self);
        }
        r
    }

    /// Appends an empty block to the layout.
    pub fn make_ebb(&mut self) -> (r: Ebb)
        requires
            old(self).wf(),
        ensures
            final(self).wf(),
            r.0 == old(self).blocks.len(),
            final(self).blocks.len() == old(self).blocks.len() + 1,
            forall|b: int|
                0 <= b < old(self).blocks.len() ==> #[trigger] final(self).blocks@[b] == old(self).blocks@[b],
            final(self).blocks@[r.0 as int].params@ == Seq::<Value>::empty(),
            final(self).blocks@[r.0 as int].insts@ == Seq::<Inst>::empty(),
            final(self).signature == old(self).signature,
            final(self).signatures == old(self).signatures,
            final(self).ext_funcs == old(self).ext_funcs,
            final(self).values == old(self).values,
            final(self).insts == old(self).insts,
            final(self).encodings == old(self).encodings,
    {
        let r = Ebb(self.blocks.len());
        self.blocks.push(Block { params: Vec::new(), insts: Vec::new() });
        proof {
            assert forall|b: int, k: int| self.laid_out(b, k) implies (#[trigger] self.inst_at(
                b,
                k,
            )).0 < self.insts.len() by {
                assert(old(self).laid_out(b, k));
                assert(self.inst_at(b, k) == old(self).inst_at(b, k));
            }
            assert forall|b1: int, k1: int, b2: int, k2: int|
                self.laid_out(b1, k1) && self.laid_out(b2, k2) && #[trigger] self.inst_at(b1, k1)
                    == #[trigger] self.inst_at(b2, k2) implies b1 == b2 && k1 == k2 by {
                assert(old(self).laid_out(b1, k1) && old(self).laid_out(b2, k2));
                assert(old(self).inst_at(b1, k1) == old(self).inst_at(b2, k2));
            }
        }
        r
    }

    /// Tests whether an instruction with these parts can be part of the function.
    pub fn check_inst(&self, opcode: Opcode, args: &Vec<Value>, target: CallTarget) -> (r: bool)
        ensures
            r == self.accepts(opcode, args@, target),
    {
        let shape = match opcode {
            Opcode::Call => matches!(target, CallTarget::Direct(_)),
            Opcode::CallIndirect => matches!(target, CallTarget::Indirect(_)) && args.len() >= 1,
            _ => matches!(target, CallTarget::NotACall),
        };
        let target_ok = match target {
            CallTarget::NotACall => true,
            CallTarget::Direct(f) => f.0 < self.ext_funcs.len(),
            CallTarget::Indirect(s) => s.0 < self.signatures.len(),
        };
        if !shape || !target_ok {
            return false;
        }
        let mut i: usize = 0;
        while i < args.len()
            invariant
                i <= args.len(),
                forall|j: int| 0 <= j < i ==> (#[trigger] args@[j]).0 < self.values.len(),
            decreases args.len() - i,
        {
            if args[i].0 >= self.values.len() {
                return false;
            }
            i += 1;
        }
        true
    }

    /// Makes an instruction with new result values of the given types and puts it at `pos`.
    ///
    /// The instruction gets the next instruction number and its results the next value
    /// numbers. The cursor then stands behind the new instruction: before the instruction that
    /// it stood before.
    pub fn insert_inst(
        &mut self,
        pos: &mut Cursor,
        opcode: Opcode,
        args: Vec<Value>,
        target: CallTarget,
        result_types: &Vec<Type>,
    ) -> (inst: Inst)
        requires
            old(self).wf(),
            old(self).insertion_point(old(pos).block as int, old(pos).inst as int),
            old(self).accepts(opcode, args@, target),
        ensures
            final(self).wf(),
            inst.0 == old(self).insts.len(),
            final(self).insts.len() == old(self).insts.len() + 1,
            final(self).insts@[inst.0 as int].opcode == opcode,
            final(self).insts@[inst.0 as int].args@ == args@,
            final(self).insts@[inst.0 as int].target == target,
            final(self).insts@[inst.0 as int].results@ == Seq::new(
                result_types.len() as nat,
                |i: int| Value((old(self).values.len() + i) as usize),
            ),
            final(self).values@ == old(self).values@ + Seq::new(
                result_types.len() as nat,
                |i: int| ValueData { ty: result_types@[i], alias: None },
            ),
            final(pos).block == old(pos).block,
            final(pos).inst == old(pos).inst + 1,
            final(self).inst_at(old(pos).block as int, old(pos).inst as int) == inst,
            old(self).stable(*final(self)),
            old(self).insts_kept(*final(self)),
            old(self).params_kept(*final(self)),
            old(self).spliced(*final(self), old(pos).block as int, old(pos).inst as int, 1),
    {
        let first: usize = self.values.len();
        let mut results: Vec<Value> = Vec::new();
        let mut i: usize = 0;
        while i < result_types.len()
            invariant
                i <= result_types.len(),
                first == old(self).values.len(),
                self.values@ == old(self).values@ + Seq::new(
                    i as nat,
                    |j: int| ValueData { ty: result_types@[j], alias: None },
                ),
                results@ == Seq::new(i as nat, |j: int| Value((first + j) as usize)),
                self.signature == old(self).signature,
                self.signatures == old(self).signatures,
                self.ext_funcs == old(self).ext_funcs,
                self.insts == old(self).insts,
                self.blocks == old(self).blocks,
                self.encodings == old(self).encodings,
            decreases result_types.len() - i,
        {
            let v = Value(self.values.len());
            assert(v.0 == first + i);
            self.values.push(ValueData { ty: result_types[i], alias: None });
            results.push(v);
            i += 1;
        }
        let inst = Inst(self.insts.len());
        self.insts.push(InstructionData { opcode, args, target, results });
        self.blocks[pos.block].insts.insert(pos.inst, inst);
        proof {
            let b = pos.block as int;
            let at = pos.inst as int;
            assert forall|c: int, k: int| self.laid_out(c, k) implies (#[trigger] self.inst_at(
                c,
                k,
            )).0 < self.insts.len() by {
                if c == b {
                    if k < at {
                        assert(self.inst_at(c, k) == old(self).inst_at(c, k));
                    } else if k > at {
                        assert(self.inst_at(c, k) == old(self).inst_at(c, k - 1));
                    }
                } else {
                    assert(self.inst_at(c, k) == old(self).inst_at(c, k));
                }
            }
            assert forall|b1: int, k1: int, b2: int, k2: int|
                self.laid_out(b1, k1) && self.laid_out(b2, k2) && #[trigger] self.inst_at(b1, k1)
                    == #[trigger] self.inst_at(b2, k2) implies b1 == b2 && k1 == k2 by {
                let j1 = if b1 == b && k1 > at {
                    k1 - 1
                } else {
                    k1
                };
                let j2 = if b2 == b && k2 > at {
                    k2 - 1
                } else {
                    k2
                };
                if b1 == b && k1 == at {
                    if !(b2 == b && k2 == at) {
                        assert(self.inst_at(b2, k2) == old(self).inst_at(b2, j2));
                        assert(old(self).laid_out(b2, j2));
                    }
                } else if b2 == b && k2 == at {
                    assert(self.inst_at(b1, k1) == old(self).inst_at(b1, j1));
                    assert(old(self).laid_out(b1, j1));
                } else {
                    assert(self.inst_at(b1, k1) == old(self).inst_at(b1, j1));
                    assert(self.inst_at(b2, k2) == old(self).inst_at(b2, j2));
                    assert(old(self).laid_out(b1, j1) && old(self).laid_out(b2, j2));
                }
            }
            assert forall|v: int| 0 <= v < self.values.len() implies self.alias_ok(
                #[trigger] self.values@[v],
            ) by {
                if v < old(self).values.len() {
                    assert(old(self).alias_ok(old(self).values@[v]));
                }
            }
            assert forall|j: int| 0 <= j < self.insts.len() implies self.inst_ok(
                #[trigger] self.insts@[j],
            ) by {
                if j < old(self).insts.len() {
                    assert(old(self).inst_ok(old(self).insts@[j]));
                }
            }
            assert forall|c: int| 0 <= c < self.blocks.len() implies self.has_values(
                (#[trigger] self.blocks@[c]).params@,
            ) by {
                assert(old(self).has_values(old(self).blocks@[c].params@));
            }
        }
        assert(pos.inst < self.blocks@[pos.block as int].insts.len());
        pos.inst = pos.inst + 1;
        inst
    }

    /// Makes an instruction with new result values and appends it to a block.
    pub fn append_inst(
        &mut self,
        ebb: Ebb,
        opcode: Opcode,
        args: Vec<Value>,
        target: CallTarget,
        result_types: &Vec<Type>,
    ) -> (inst: Inst)
        requires
            old(self).wf(),
            ebb.0 < old(self).blocks.len(),
            old(self).accepts(opcode, args@, target),
        ensures
            final(self).wf(),
            inst.0 == old(self).insts.len(),
            final(self).insts.len() == old(self).insts.len() + 1,
            final(self).insts@[inst.0 as int].opcode == opcode,
            final(self).insts@[inst.0 as int].args@ == args@,
            final(self).insts@[inst.0 as int].target == target,
            final(self).insts@[inst.0 as int].results@ == Seq::new(
                result_types.len() as nat,
                |i: int| Value((old(self).values.len() + i) as usize),
            ),
            final(self).values@ == old(self).values@ + Seq::new(
                result_types.len() as nat,
                |i: int| ValueData { ty: result_types@[i], alias: None },
            ),
            old(self).grown(
                *final(self),
                ebb.0 as int,
                old(self).blocks@[ebb.0 as int].insts.len() as int,
                1,
            ),
            old(self).params_kept(*final(self)),
            final(self).inst_at(ebb.0 as int, old(self).blocks@[ebb.0 as int].insts.len() as int)
                == inst,
    {
        let mut pos = Cursor { block: ebb.0, inst: self.blocks[ebb.0].insts.len() };
        self.insert_inst(&mut pos, opcode, args, target, result_types)
    }

    /// Appends a new value of type `ty` to the parameters of a block.
    pub fn append_ebb_arg(&mut self, ebb: Ebb, ty: Type) -> (v: Value)
        requires
            old(self).wf(),
            ebb.0 < old(self).blocks.len(),
        ensures
            final(self).wf(),
            v.0 == old(self).values.len(),
            final(self).values@ == old(self).values@.push(ValueData { ty, alias: None }),
            final(self).insts == old(self).insts,
            final(self).blocks@[ebb.0 as int].params@ == old(self).blocks@[ebb.0 as int].params@.push(
                v,
            ),
            forall|b: int|
                0 <= b < old(self).blocks.len() && b != ebb.0 ==> (
                #[trigger] final(self).blocks@[b]).params@ == old(self).blocks@[b].params@,
            old(self).preserved(*final(self)),
    {
        let v = Value(self.values.len());
        self.values.push(ValueData { ty, alias: None });
        self.blocks[ebb.0].params.push(v);
        proof {
            old(self).lemma_layout_kept(*self);
            assert forall|x: int| 0 <= x < self.values.len() implies self.alias_ok(
                #[trigger] self.values@[x],
            ) by {
                if x < old(self).values.len() {
                    assert(old(self).alias_ok(old(self).values@[x]));
                }
            }
            assert forall|j: int| 0 <= j < self.insts.len() implies self.inst_ok(
                #[trigger] self.insts@[j],
            ) by {
                assert(old(self).inst_ok(old(self).insts@[j]));
            }
            assert forall|c: int| 0 <= c < self.blocks.len() implies self.has_values(
                (#[trigger] self.blocks@[c]).params@,
            ) by {
                assert(old(self).has_values(old(self).blocks@[c].params@));
            }
        }
        v
    }

    /// Detaches the parameters of a block and returns them. The values stay in the function.
    pub fn take_ebb_args(&mut self, ebb: Ebb) -> (params: Vec<Value>)
        requires
            old(self).wf(),
            ebb.0 < old(self).blocks.len(),
        ensures
            final(self).wf(),
            params@ == old(self).blocks@[ebb.0 as int].params@,
            final(self).blocks@[ebb.0 as int].params@ == Seq::<Value>::empty(),
            forall|b: int|
                0 <= b < old(self).blocks.len() && b != ebb.0 ==> (
                #[trigger] final(self).blocks@[b]).params@ == old(self).blocks@[b].params@,
            final(self).values == old(self).values,
            final(self).insts == old(self).insts,
            old(self).preserved(*final(self)),
    {
        let mut params: Vec<Value> = Vec::new();
        core::mem::swap(&mut params, &mut self.blocks[ebb.0].params);
        proof {
            old(self).lemma_layout_kept(*self);
            assert forall|c: int| 0 <= c < self.blocks.len() implies self.has_values(
                (#[trigger] self.blocks@[c]).params@,
            ) by {
                assert(old(self).has_values(old(self).blocks@[c].params@));
            }
        }
        params
    }

    /// Appends an existing value to the parameters of a block.
    pub fn put_ebb_arg(&mut self, ebb: Ebb, v: Value)
        requires
            old(self).wf(),
            ebb.0 < old(self).blocks.len(),
            old(self).has_value(v),
        ensures
            final(self).wf(),
            final(self).blocks@[ebb.0 as int].params@ == old(self).blocks@[ebb.0 as int].params@.push(
                v,
            ),
            forall|b: int|
                0 <= b < old(self).blocks.len() && b != ebb.0 ==> (
                #[trigger] final(self).blocks@[b]).params@ == old(self).blocks@[b].params@,
            final(self).values == old(self).values,
            final(self).insts == old(self).insts,
            old(self).preserved(*final(self)),
    {
        self.blocks[ebb.0].params.push(v);
        proof {
            old(self).lemma_layout_kept(*self);
            assert forall|c: int| 0 <= c < self.blocks.len() implies self.has_values(
                (#[trigger] self.blocks@[c]).params@,
            ) by {
                assert(old(self).has_values(old(self).blocks@[c].params@));
            }
        }
    }

    /// The value that `v` stands for: the end of its chain of aliases. Where the chain goes
    /// on for more links than the function has values, it is the value reached after as many.
    pub fn resolve_aliases(&self, v: Value) -> (r: Value)
        requires
            self.wf(),
            self.has_value(v),
        ensures
            r == self.resolved(v),
            self.has_value(r),
            self.value_type(r) == self.value_type(v),
    {
        let mut cur = v;
        let mut left: usize = self.values.len();
        while left > 0
            invariant
                self.wf(),
                self.has_value(cur),
                self.value_type(cur) == self.value_type(v),
                left <= self.values.len(),
                self.resolve_in(cur, left as nat) == self.resolved(v),
            decreases left,
        {
            proof {
                assert(self.alias_ok(self.values@[cur.0 as int]));
            }
            match self.values[cur.0].alias {
                Some(to) => {
                    cur = to;
                    left -= 1;
                },
                None => {
                    return cur;
                },
            }
        }
        cur
    }

    /// Turns `dest` into an alias of the value that `src` stands for, which is no alias and
    /// not `dest`. No other value is changed.
    pub fn change_to_alias(&mut self, dest: Value, src: Value)
        requires
            old(self).wf(),
            old(self).has_value(dest),
            old(self).has_value(src),
            old(self).values@[old(self).resolved(src).0 as int].alias is None,
            dest != old(self).resolved(src),
            old(self).value_type(dest) == old(self).value_type(src),
        ensures
            final(self).wf(),
            final(self).values.len() == old(self).values.len(),
            final(self).values@[dest.0 as int] == (ValueData {
                ty: old(self).values@[dest.0 as int].ty,
                alias: Some(old(self).resolved(src)),
            }),
            forall|v: int|
                0 <= v < old(self).values.len() && v != dest.0 ==> #[trigger] final(self).values@[v]
                    == old(self).values@[v],
            final(self).blocks == old(self).blocks,
            final(self).insts == old(self).insts,
            old(self).preserved(*final(self)),
    {
        let original = self.resolve_aliases(src);
        let data = self.values[dest.0];
        self.values[dest.0] = ValueData { ty: data.ty, alias: Some(original) };
        proof {
            old(self).lemma_layout_kept(*self);
            assert forall|v: int| 0 <= v < self.values.len() implies self.alias_ok(
                #[trigger] self.values@[v],
            ) by {
                assert(old(self).alias_ok(old(self).values@[v]));
            }
            assert forall|j: int| 0 <= j < self.insts.len() implies self.inst_ok(
                #[trigger] self.insts@[j],
            ) by {
                assert(old(self).inst_ok(old(self).insts@[j]));
            }
            assert forall|c: int| 0 <= c < self.blocks.len() implies self.has_values(
                (#[trigger] self.blocks@[c]).params@,
            ) by {
                assert(old(self).has_values(old(self).blocks@[c].params@));
            }
        }
    }

    /// Replaces the operand list of an instruction.
    pub fn put_value_list(&mut self, inst: Inst, args: Vec<Value>)
        requires
            old(self).wf(),
            inst.0 < old(self).insts.len(),
            old(self).accepts(
                old(self).insts@[inst.0 as int].opcode,
                args@,
                old(self).insts@[inst.0 as int].target,
            ),
        ensures
            final(self).wf(),
            final(self).insts.len() == old(self).insts.len(),
            final(self).insts@[inst.0 as int].args@ == args@,
            final(self).insts@[inst.0 as int].opcode == old(self).insts@[inst.0 as int].opcode,
            final(self).insts@[inst.0 as int].target == old(self).insts@[inst.0 as int].target,
            final(self).insts@[inst.0 as int].results == old(self).insts@[inst.0 as int].results,
            old(self).insts_kept_but(*final(self), inst),
            old(self).stable(*final(self)),
            final(self).values == old(self).values,
            final(self).blocks == old(self).blocks,
    {
        self.insts[inst.0].args = args;
        proof {
            old(self).lemma_layout_kept(*self);
            assert forall|j: int| 0 <= j < self.insts.len() implies self.inst_ok(
                #[trigger] self.insts@[j],
            ) by {
                assert(old(self).inst_ok(old(self).insts@[j]));
            }
        }
    }

    /// Records the encoding of an instruction, growing the table as needed.
    pub fn set_encoding(&mut self, inst: Inst, encoding: Encoding)
        ensures
            final(self).encoding(inst) == Some(encoding),
            forall|i: Inst| i != inst ==> #[trigger] final(self).encoding(i) == old(self).encoding(i),
            old(self).wf() ==> final(self).wf(),
            final(self).signature == old(self).signature,
            final(self).signatures == old(self).signatures,
            final(self).ext_funcs == old(self).ext_funcs,
            final(self).values == old(self).values,
            final(self).insts == old(self).insts,
            final(self).blocks == old(self).blocks,
    {
        while self.encodings.len() <= inst.0
            invariant
                old(self).encodings.len() <= self.encodings.len(),
                forall|k: int|
                    0 <= k < old(self).encodings.len() ==> #[trigger] self.encodings@[k] == old(self).encodings@[k],
                forall|k: int|
                    old(self).encodings.len() <= k < self.encodings.len()
                        ==> #[trigger] self.encodings@[k] is None,
                self.signature == old(self).signature,
                self.signatures == old(self).signatures,
                self.ext_funcs == old(self).ext_funcs,
                self.values == old(self).values,
                self.insts == old(self).insts,
                self.blocks == old(self).blocks,
            decreases inst.0 + 1 - self.encodings.len(),
        {
            self.encodings.push(None);
        }
        self.encodings[inst.0] = Some(encoding);
        proof {
            if old(self).wf() {
                old(self).lemma_signatures_changed(*self);
            }
        }
    }

    /// Puts an instruction with one operand and one result of type `ty` at `pos`, and
    /// returns the result.
    pub fn ins_unary(&mut self, pos: &mut Cursor, opcode: Opcode, ty: Type, arg: Value) -> (v: Value)
        requires
            old(self).wf(),
            old(self).insertion_point(old(pos).block as int, old(pos).inst as int),
            old(self).has_value(arg),
            !opcode.spec_is_call(),
        ensures
            final(self).wf(),
            v.0 == old(self).values.len(),
            final(self).values@ == old(self).values@.push(ValueData { ty, alias: None }),
            final(self).insts.len() == old(self).insts.len() + 1,
            final(self).insts@[old(self).insts.len() as int].opcode == opcode,
            final(self).insts@[old(self).insts.len() as int].args@ == seq![arg],
            final(self).insts@[old(self).insts.len() as int].results@ == seq![v],
            final(self).insts@[old(self).insts.len() as int].target == CallTarget::NotACall,
            final(self).inst_at(old(pos).block as int, old(pos).inst as int) == Inst(
                old(self).insts.len(),
            ),
            final(pos).block == old(pos).block,
            final(pos).inst == old(pos).inst + 1,
            old(self).grown(*final(self), old(pos).block as int, old(pos).inst as int, 1),
            old(self).params_kept(*final(self)),
    {
        let mut args: Vec<Value> = Vec::new();
        args.push(arg);
        let mut result_types: Vec<Type> = Vec::new();
        result_types.push(ty);
        let inst = self.insert_inst(pos, opcode, args, CallTarget::NotACall, &result_types);
        proof {
            assert(self.values@ =~= old(self).values@.push(ValueData { ty, alias: None }));
            assert(self.insts@[inst.0 as int].results@ =~= seq![Value(old(self).values.len())]);
        }
        Value(self.values.len() - 1)
    }

    /// Puts an instruction with two operands and one result of type `ty` at `pos`, and
    /// returns the result.
    pub fn ins_binary(
        &mut self,
        pos: &mut Cursor,
        opcode: Opcode,
        ty: Type,
        lhs: Value,
        rhs: Value,
    ) -> (v: Value)
        requires
            old(self).wf(),
            old(self).insertion_point(old(pos).block as int, old(pos).inst as int),
            old(self).has_value(lhs),
            old(self).has_value(rhs),
            !opcode.spec_is_call(),
        ensures
            final(self).wf(),
            v.0 == old(self).values.len(),
            final(self).values@ == old(self).values@.push(ValueData { ty, alias: None }),
            final(self).insts.len() == old(self).insts.len() + 1,
            final(self).insts@[old(self).insts.len() as int].opcode == opcode,
            final(self).insts@[old(self).insts.len() as int].args@ == seq![lhs, rhs],
            final(self).insts@[old(self).insts.len() as int].results@ == seq![v],
            final(self).insts@[old(self).insts.len() as int].target == CallTarget::NotACall,
            final(self).inst_at(old(pos).block as int, old(pos).inst as int) == Inst(
                old(self).insts.len(),
            ),
            final(pos).block == old(pos).block,
            final(pos).inst == old(pos).inst + 1,
            old(self).grown(*final(self), old(pos).block as int, old(pos).inst as int, 1),
            old(self).params_kept(*final(self)),
    {
        let mut args: Vec<Value> = Vec::new();
        args.push(lhs);
        args.push(rhs);
        let mut result_types: Vec<Type> = Vec::new();
        result_types.push(ty);
        let inst = self.insert_inst(pos, opcode, args, CallTarget::NotACall, &result_types);
        proof {
            assert(self.values@ =~= old(self).values@.push(ValueData { ty, alias: None }));
            assert(self.insts@[inst.0 as int].results@ =~= seq![Value(old(self).values.len())]);
        }
        Value(self.values.len() - 1)
    }

    /// Puts an instruction with one operand and two results of type `ty` at `pos`, and
    /// returns the results.
    pub fn ins_split(&mut self, pos: &mut Cursor, opcode: Opcode, ty: Type, arg: Value) -> (r: (
        Value,
        Value,
    ))
        requires
            old(self).wf(),
            old(self).insertion_point(old(pos).block as int, old(pos).inst as int),
            old(self).has_value(arg),
            !opcode.spec_is_call(),
        ensures
            final(self).wf(),
            r.0.0 == old(self).values.len(),
            r.1.0 == old(self).values.len() + 1,
            final(self).values@ == old(self).values@.push(ValueData { ty, alias: None }).push(
                ValueData { ty, alias: None },
            ),
            final(self).insts.len() == old(self).insts.len() + 1,
            final(self).insts@[old(self).insts.len() as int].opcode == opcode,
            final(self).insts@[old(self).insts.len() as int].args@ == seq![arg],
            final(self).insts@[old(self).insts.len() as int].results@ == seq![r.0, r.1],
            final(self).insts@[old(self).insts.len() as int].target == CallTarget::NotACall,
            final(self).inst_at(old(pos).block as int, old(pos).inst as int) == Inst(
                old(self).insts.len(),
            ),
            final(pos).block == old(pos).block,
            final(pos).inst == old(pos).inst + 1,
            old(self).grown(*final(self), old(pos).block as int, old(pos).inst as int, 1),
            old(self).params_kept(*final(self)),
    {
        let mut args: Vec<Value> = Vec::new();
        args.push(arg);
        let mut result_types: Vec<Type> = Vec::new();
        result_types.push(ty);
        result_types.push(ty);
        let inst = self.insert_inst(pos, opcode, args, CallTarget::NotACall, &result_types);
        proof {
            assert(self.values@ =~= old(self).values@.push(ValueData { ty, alias: None }).push(
                ValueData { ty, alias: None },
            ));
            assert(self.insts@[inst.0 as int].results@ =~= seq![
                Value(old(self).values.len()),
                Value((old(self).values.len() + 1) as usize),
            ]);
        }
        (Value(self.values.len() - 2), Value(self.values.len() - 1))
    }

    /// Replaces the opcode, the operand list and the call target of an instruction. Its
    /// results stay.
    pub fn replace_inst(&mut self, inst: Inst, opcode: Opcode, args: Vec<Value>, target: CallTarget)
        requires
            old(self).wf(),
            inst.0 < old(self).insts.len(),
            old(self).accepts(opcode, args@, target),
        ensures
            final(self).wf(),
            final(self).insts.len() == old(self).insts.len(),
            final(self).insts@[inst.0 as int].opcode == opcode,
            final(self).insts@[inst.0 as int].args@ == args@,
            final(self).insts@[inst.0 as int].target == target,
            final(self).insts@[inst.0 as int].results == old(self).insts@[inst.0 as int].results,
            old(self).insts_kept_but(*final(self), inst),
            old(self).stable(*final(self)),
            final(self).values == old(self).values,
            final(self).blocks == old(self).blocks,
    {
        self.insts[inst.0].opcode = opcode;
        self.insts[inst.0].args = args;
        self.insts[inst.0].target = target;
        proof {
            old(self).lemma_layout_kept(*self);
            assert forall|j: int| 0 <= j < self.insts.len() implies self.inst_ok(
                #[trigger] self.insts@[j],
            ) by {
                assert(old(self).inst_ok(old(self).insts@[j]));
            }
        }
    }
}

} // verus!
