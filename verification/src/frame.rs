//! What legalization passes on of a function: its blocks, its values and its instructions in
//! their order.

use crate::entities::Inst;
use crate::function::Function;
use vstd::prelude::*;

verus! {

/// The test of an instruction that it is one of the first `n`.
pub open spec fn one_of_first(n: int) -> spec_fn(Inst) -> bool {
    |i: Inst| i.0 < n
}

impl Function {
    /// `new` has what `self` has: as many blocks; every value, with its type; every
    /// instruction, with its results; and in every block the instructions that `self` has
    /// laid out there, in their order. It may have more values, more instructions between
    /// those that `self` has laid out, and other operands.
    pub open spec fn passed_on(self, new: Function) -> bool {
        &&& new.blocks.len() == self.blocks.len()
        &&& self.values.len() <= new.values.len()
        &&& forall|v: int|
            0 <= v < self.values.len() ==> (#[trigger] new.values@[v]).ty == self.values@[v].ty
        &&& self.insts.len() <= new.insts.len()
        &&& forall|i: int|
            0 <= i < self.insts.len() ==> (#[trigger] new.insts@[i]).results@
                == self.insts@[i].results@
        &&& forall|b: int|
            0 <= b < self.blocks.len() ==> (#[trigger] new.blocks@[b]).insts@.filter(
                one_of_first(self.insts.len() as int),
            ) == self.blocks@[b].insts@
    }

    /// A function with a consistent layout has what it has.
    pub proof fn lemma_passed_on_self(self)
        requires
            self.layout_ok(),
        ensures
            self.passed_on(self),
    {
        assert forall|b: int| 0 <= b < self.blocks.len() implies (
        #[trigger] self.blocks@[b]).insts@.filter(one_of_first(self.insts.len() as int))
            == self.blocks@[b].insts@ by {
            let list = self.blocks@[b].insts@;
            assert forall|k: int| 0 <= k < list.len() implies one_of_first(
                self.insts.len() as int,
            )(#[trigger] list[k]) by {
                assert(self.laid_out(b, k));
                assert(self.inst_at(b, k) == list[k]);
            }
            lemma_filter_all(list, one_of_first(self.insts.len() as int));
        }
    }

    /// New instructions put into one block of a function that has what `self` has, with the
    /// values and results kept, leave what `self` has.
    pub proof fn lemma_passed_on_step(self, mid: Function, new: Function, b: int, at: int, n: int)
        requires
            self.passed_on(mid),
            mid.stable(new),
            forall|i: int|
                0 <= i < mid.insts.len() ==> (#[trigger] new.insts@[i]).results@
                    == mid.insts@[i].results@,
            mid.spliced(new, b, at, n),
            0 <= b < mid.blocks.len(),
            0 <= at <= mid.blocks@[b].insts.len(),
        ensures
            self.passed_on(new),
    {
        let pred = one_of_first(self.insts.len() as int);
        assert forall|v: int| 0 <= v < self.values.len() implies (#[trigger] new.values@[v]).ty
            == self.values@[v].ty by {
            assert(mid.values@[v].ty == self.values@[v].ty);
        }
        assert forall|i: int| 0 <= i < self.insts.len() implies (#[trigger] new.insts@[i]).results@
            == self.insts@[i].results@ by {
            assert(mid.insts@[i].results@ == self.insts@[i].results@);
        }
        assert forall|c: int| 0 <= c < self.blocks.len() implies (
        #[trigger] new.blocks@[c]).insts@.filter(pred) == self.blocks@[c].insts@ by {
            assert(mid.blocks@[c].insts@.filter(pred) == self.blocks@[c].insts@);
            if c == b {
                let was = mid.blocks@[b].insts@;
                let now = new.blocks@[b].insts@;
                let head = was.subrange(0, at);
                let put = now.subrange(at, at + n);
                let tail = was.subrange(at, was.len() as int);
                assert(now =~= head + put + tail) by {
                    assert forall|k: int| 0 <= k < now.len() implies now[k] == (head + put
                        + tail)[k] by {
                        assert(new.inst_at(b, k) == now[k]);
                        if k < at {
                            assert(mid.inst_at(b, k) == was[k]);
                        } else if k >= at + n {
                            assert(mid.inst_at(b, k - n) == was[k - n]);
                        }
                    }
                }
                assert(was =~= head + tail);
                assert forall|k: int| 0 <= k < put.len() implies !pred(#[trigger] put[k]) by {
                    assert(new.inst_at(b, at + k) == put[k]);
                }
                put.lemma_all_neg_filter_empty(pred);
                Seq::filter_distributes_over_add(head + put, tail, pred);
                Seq::filter_distributes_over_add(head, put, pred);
                Seq::filter_distributes_over_add(head, tail, pred);
                assert(head.filter(pred) + put.filter(pred) =~= head.filter(pred));
            }
        }
    }
}

/// A list whose elements all pass a test is what passes the test.
pub proof fn lemma_filter_all<A>(list: Seq<A>, pred: spec_fn(A) -> bool)
    requires
        forall|k: int| 0 <= k < list.len() ==> pred(#[trigger] list[k]),
    ensures
        list.filter(pred) == list,
    decreases list.len(),
{
    reveal(Seq::filter);
    if list.len() > 0 {
        let front = list.drop_last();
        assert forall|k: int| 0 <= k < front.len() implies pred(#[trigger] front[k]) by {
            assert(front[k] == list[k]);
        }
        lemma_filter_all(front, pred);
        assert(front.push(list.last()) =~= list);
    } else {
        assert(list.filter(pred) =~= list);
    }
}

} // verus!
