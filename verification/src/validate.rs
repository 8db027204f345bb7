//! Tests of a function: whether it is consistent, and whether it is legalized.

use crate::boundary::{check_arg_types, check_call_signature};
use crate::entities::{Inst, Value};
use crate::function::Function;
use vstd::prelude::*;

verus! {

/// True when the place `(c, j)` of a layout comes before the place `(b, k)`.
pub open spec fn comes_before(c: int, j: int, b: int, k: int) -> bool {
    c < b || (c == b && j < k)
}

impl Function {
    /// Tests whether every value of the list is a value of the function.
    pub fn check_values(&self, values: &Vec<Value>) -> (r: bool)
        ensures
            r == self.has_values(values@),
    {
        let mut i: usize = 0;
        while i < values.len()
            invariant
                i <= values.len(),
                forall|j: int| 0 <= j < i ==> (#[trigger] values@[j]).0 < self.values.len(),
            decreases values.len() - i,
        {
            if values[i].0 >= self.values.len() {
                return false;
            }
            i += 1;
        }
        true
    }

    /// Tests whether every external function has a signature of the table.
    fn check_tables(&self) -> (r: bool)
        ensures
            r == self.tables_ok(),
    {
        let mut f: usize = 0;
        while f < self.ext_funcs.len()
            invariant
                f <= self.ext_funcs.len(),
                forall|g: int| 0 <= g < f ==> (#[trigger] self.ext_funcs@[g]).0 < self.signatures.len(),
            decreases self.ext_funcs.len() - f,
        {
            if self.ext_funcs[f].0 >= self.signatures.len() {
                return false;
            }
            f += 1;
        }
        true
    }

    /// Tests whether every alias stands for a value of the function that has its type.
    fn check_aliases(&self) -> (r: bool)
        ensures
            r == self.values_ok(),
    {
        let mut v: usize = 0;
        while v < self.values.len()
            invariant
                v <= self.values.len(),
                forall|w: int| 0 <= w < v ==> self.alias_ok(#[trigger] self.values@[w]),
            decreases self.values.len() - v,
        {
            let data = self.values[v];
            match data.alias {
                Some(to) => {
                    if to.0 >= self.values.len() {
                        assert(!self.alias_ok(self.values@[v as int]));
                        return false;
                    }
                    if self.values[to.0].ty != data.ty {
                        assert(!self.alias_ok(self.values@[v as int]));
                        return false;
                    }
                },
                None => {},
            }
            v += 1;
        }
        true
    }

    /// Tests whether the chain of aliases of every value ends.
    pub fn aliases_resolve(&self) -> (r: bool)
        requires
            self.wf(),
        ensures
            r == self.aliases_end(),
    {
        let mut v: usize = 0;
        while v < self.values.len()
            invariant
                self.wf(),
                v <= self.values.len(),
                forall|w: int|
                    0 <= w < v ==> #[trigger] self.resolves_in(
                        Value(w as usize),
                        self.values.len() as nat,
                    ),
            decreases self.values.len() - v,
        {
            let end = self.resolve_aliases(Value(v));
            if self.values[end.0].alias.is_some() {
                proof {
                    let w = v as int;
                    assert(Value(w as usize) == Value(v));
                    assert(!self.resolves_in(Value(w as usize), self.values.len() as nat));
                }
                return false;
            }
            v += 1;
        }
        true
    }

    /// Tests whether the function accepts each of its instructions.
    fn check_insts(&self) -> (r: bool)
        ensures
            r == self.insts_ok(),
    {
        let mut i: usize = 0;
        while i < self.insts.len()
            invariant
                i <= self.insts.len(),
                forall|j: int| 0 <= j < i ==> self.inst_ok(#[trigger] self.insts@[j]),
            decreases self.insts.len() - i,
        {
            let data = &self.insts[i];
            if !self.check_inst(data.opcode, &data.args, data.target) || !self.check_values(
                &data.results,
            ) {
                assert(!self.inst_ok(self.insts@[i as int]));
                return false;
            }
            i += 1;
        }
        true
    }

    /// Tests whether every block parameter is a value of the function.
    fn check_params(&self) -> (r: bool)
        ensures
            r == self.params_ok(),
    {
        let mut b: usize = 0;
        while b < self.blocks.len()
            invariant
                b <= self.blocks.len(),
                forall|c: int| 0 <= c < b ==> self.has_values((#[trigger] self.blocks@[c]).params@),
            decreases self.blocks.len() - b,
        {
            if !self.check_values(&self.blocks[b].params) {
                return false;
            }
            b += 1;
        }
        true
    }

    /// Tests whether every instruction of the layout exists and none is laid out twice.
    fn check_layout(&self) -> (r: bool)
        ensures
            r == self.layout_ok(),
    {
        // Which instructions the layout has so far.
        let mut seen: Vec<bool> = Vec::new();
        let mut n: usize = 0;
        while n < self.insts.len()
            invariant
                n <= self.insts.len(),
                seen.len() == n,
                forall|i: int| 0 <= i < n ==> !(#[trigger] seen@[i]),
            decreases self.insts.len() - n,
        {
            seen.push(false);
            n += 1;
        }
        // Where each of them is.
        let ghost mut place: Seq<(int, int)> = Seq::new(self.insts.len() as nat, |i: int| (0, 0));
        let mut b: usize = 0;
        while b < self.blocks.len()
            invariant
                b <= self.blocks.len(),
                seen.len() == self.insts.len(),
                place.len() == self.insts.len(),
                forall|c: int, j: int|
                    self.laid_out(c, j) && c < b ==> (#[trigger] self.inst_at(c, j)).0
                        < self.insts.len() && seen@[self.inst_at(c, j).0 as int] && place[self.inst_at(
                        c,
                        j,
                    ).0 as int] == (c, j),
                forall|i: int|
                    0 <= i < self.insts.len() && #[trigger] seen@[i] ==> self.laid_out(
                        place[i].0,
                        place[i].1,
                    ) && place[i].0 < b && self.inst_at(place[i].0, place[i].1) == Inst(i as usize),
            decreases self.blocks.len() - b,
        {
            let mut k: usize = 0;
            while k < self.blocks[b].insts.len()
                invariant
                    b < self.blocks.len(),
                    k <= self.blocks@[b as int].insts.len(),
                    seen.len() == self.insts.len(),
                    place.len() == self.insts.len(),
                    forall|c: int, j: int|
                        self.laid_out(c, j) && comes_before(c, j, b as int, k as int) ==> (
                        #[trigger] self.inst_at(c, j)).0 < self.insts.len() && seen@[self.inst_at(
                            c,
                            j,
                        ).0 as int] && place[self.inst_at(c, j).0 as int] == (c, j),
                    forall|i: int|
                        0 <= i < self.insts.len() && #[trigger] seen@[i] ==> self.laid_out(
                            place[i].0,
                            place[i].1,
                        ) && comes_before(place[i].0, place[i].1, b as int, k as int)
                            && self.inst_at(place[i].0, place[i].1) == Inst(i as usize),
                decreases self.blocks@[b as int].insts.len() - k,
            {
                let inst = self.blocks[b].insts[k];
                assert(inst == self.inst_at(b as int, k as int));
                assert(self.laid_out(b as int, k as int));
                if inst.0 >= self.insts.len() {
                    return false;
                }
                if seen[inst.0] {
                    proof {
                        let at = place[inst.0 as int];
                        assert(self.laid_out(at.0, at.1));
                        assert(self.inst_at(at.0, at.1) == self.inst_at(b as int, k as int));
                        assert(!(at.0 == b && at.1 == k));
                    }
                    return false;
                }
                seen[inst.0] = true;
                proof {
                    place = place.update(inst.0 as int, (b as int, k as int));
                    assert forall|c: int, j: int|
                        self.laid_out(c, j) && comes_before(c, j, b as int, k + 1) implies (
                    #[trigger] self.inst_at(c, j)).0 < self.insts.len() && seen@[self.inst_at(
                        c,
                        j,
                    ).0 as int] && place[self.inst_at(c, j).0 as int] == (c, j) by {
                        if !(c == b && j == k) {
                            assert(comes_before(c, j, b as int, k as int));
                            assert(self.inst_at(c, j) != inst);
                        }
                    }
                }
                k += 1;
            }
            b += 1;
        }
        proof {
            assert forall|b1: int, k1: int, b2: int, k2: int|
                self.laid_out(b1, k1) && self.laid_out(b2, k2) && #[trigger] self.inst_at(b1, k1)
                    == #[trigger] self.inst_at(b2, k2) implies b1 == b2 && k1 == k2 by {
                assert(place[self.inst_at(b1, k1).0 as int] == (b1, k1));
                assert(place[self.inst_at(b2, k2).0 as int] == (b2, k2));
            }
        }
        true
    }

    /// Tests whether the function is consistent.
    pub fn is_well_formed(&self) -> (r: bool)
        ensures
            r == self.wf(),
    {
        self.check_tables() && self.check_aliases() && self.check_insts() && self.check_params()
            && self.check_layout()
    }

    /// Tests whether an instruction has an encoding and follows the ABI.
    pub fn is_legal(&self, inst: Inst) -> (r: bool)
        requires
            self.wf(),
            inst.0 < self.insts.len(),
        ensures
            r == self.inst_legal(inst),
    {
        if inst.0 >= self.encodings.len() || self.encodings[inst.0].is_none() {
            return false;
        }
        proof {
            assert(self.inst_ok(self.insts@[inst.0 as int]));
        }
        let data = &self.insts[inst.0];
        if data.opcode.is_call() {
            check_call_signature(self, inst).is_none()
        } else if data.opcode.is_return() {
            check_arg_types(
                self,
                &data.args,
                data.opcode.fixed_value_arguments(),
                &self.signature.return_types,
            )
        } else {
            true
        }
    }

    /// Tests whether the function is legalized.
    pub fn is_legalized(&self) -> (r: bool)
        requires
            self.wf(),
        ensures
            r == self.legalized(),
    {
        if !self.signature.is_legalized() {
            return false;
        }
        let mut s: usize = 0;
        while s < self.signatures.len()
            invariant
                s <= self.signatures.len(),
                forall|i: int| 0 <= i < s ==> (#[trigger] self.signatures@[i]).spec_is_legalized(),
            decreases self.signatures.len() - s,
        {
            if !self.signatures[s].is_legalized() {
                return false;
            }
            s += 1;
        }
        if self.blocks.len() > 0 {
            proof {
                assert(self.has_values(self.blocks@[0].params@));
                assert(self.blocks@[0].params@.skip(0) =~= self.blocks@[0].params@);
            }
            if !check_arg_types(self, &self.blocks[0].params, 0, &self.signature.argument_types) {
                return false;
            }
        }
        let mut b: usize = 0;
        while b < self.blocks.len()
            invariant
                self.wf(),
                b <= self.blocks.len(),
                forall|c: int, j: int|
                    self.laid_out(c, j) && c < b ==> self.inst_legal(#[trigger] self.inst_at(c, j)),
            decreases self.blocks.len() - b,
        {
            let mut k: usize = 0;
            while k < self.blocks[b].insts.len()
                invariant
                    self.wf(),
                    b < self.blocks.len(),
                    k <= self.blocks@[b as int].insts.len(),
                    forall|c: int, j: int|
                        self.laid_out(c, j) && comes_before(c, j, b as int, k as int)
                            ==> self.inst_legal(#[trigger] self.inst_at(c, j)),
                decreases self.blocks@[b as int].insts.len() - k,
            {
                let inst = self.blocks[b].insts[k];
                assert(inst == self.inst_at(b as int, k as int));
                assert(self.laid_out(b as int, k as int));
                if !self.is_legal(inst) {
                    return false;
                }
                k += 1;
            }
            b += 1;
        }
        true
    }
}

} // verus!
