//! The rewriting of an instruction that the target has no encoding for: the target says what
//! to put before the instruction and what to make of it, and the pass does it.

use crate::entities::Value;
use crate::error::LegalizeError;
use crate::function::{shape_ok, CallTarget, Cursor, Function, Opcode};
use crate::plan::{lemma_code_kept, lemma_put_in_nothing, lemma_put_in_twice, new_values, put_in, Step};
use crate::types::Type;
use vstd::prelude::*;

verus! {

/// An instruction that is to be made: its parts, and the types of its results.
#[derive(Clone, Debug)]
pub struct NewInst {
    pub opcode: Opcode,
    pub args: Vec<Value>,
    pub target: CallTarget,
    pub result_types: Vec<Type>,
}

/// What an instruction is to become: its results stay.
#[derive(Clone, Debug)]
pub struct Replacement {
    pub opcode: Opcode,
    pub args: Vec<Value>,
    pub target: CallTarget,
}

/// The rewriting of one instruction, as a target asks for it.
///
/// The instructions of `before` are to be made and put before the instruction, in order, and
/// the instruction is to become `replace`, if there is one. The results of the new
/// instructions are new values, numbered in order from `next_value` on, so that a later
/// instruction can take them as operands.
#[derive(Clone, Debug)]
pub struct Rewrite {
    pub before: Vec<NewInst>,
    pub replace: Option<Replacement>,
    pub next_value: usize,
}

/// An instruction that is asked for, as it is read: its parts, and the types of its results.
/// What an instruction is to become is read in the same way, without results.
pub struct Asked {
    pub opcode: Opcode,
    pub args: Seq<Value>,
    pub target: CallTarget,
    pub result_types: Seq<Type>,
}

/// A rewriting as it is read: the instructions to put before, in order, and what the
/// instruction is to become.
pub struct RewriteView {
    pub before: Seq<Asked>,
    pub replace: Option<Asked>,
}

impl View for NewInst {
    type V = Asked;

    open spec fn view(&self) -> Asked {
        Asked {
            opcode: self.opcode,
            args: self.args@,
            target: self.target,
            result_types: self.result_types@,
        }
    }
}

impl View for Replacement {
    type V = Asked;

    open spec fn view(&self) -> Asked {
        Asked {
            opcode: self.opcode,
            args: self.args@,
            target: self.target,
            result_types: Seq::empty(),
        }
    }
}

impl View for Rewrite {
    type V = RewriteView;

    open spec fn view(&self) -> RewriteView {
        RewriteView {
            before: Seq::new(self.before.len() as nat, |j: int| self.before@[j]@),
            replace: match self.replace {
                Some(to) => Some(to@),
                None => None,
            },
        }
    }
}

impl Asked {
    /// The instruction as it is read when its results are numbered from `nv` on.
    pub open spec fn step(self, nv: int) -> Step {
        Step {
            opcode: self.opcode,
            args: self.args,
            target: self.target,
            results: Seq::new(self.result_types.len(), |i: int| Value((nv + i) as usize)),
        }
    }
}

impl RewriteView {
    /// The rewriting that asks for nothing.
    pub open spec fn nothing() -> RewriteView {
        RewriteView { before: Seq::empty(), replace: None }
    }

    /// True when the rewriting can be made in `func`: each new instruction in turn, and what
    /// the instruction is to become.
    pub open spec fn fits(self, func: Function) -> bool {
        &&& fits_from(func, self.before, 0, func.values.len() as int)
        &&& self.replace matches Some(to) ==> fits_one(
            func,
            to.opcode,
            to.args,
            to.target,
            func.values.len() + made_types(self.before, 0).len(),
        )
    }
}

/// True when a function with the tables of `func` and `nv` values accepts an instruction
/// with these parts.
pub open spec fn fits_one(
    func: Function,
    opcode: Opcode,
    args: Seq<Value>,
    target: CallTarget,
    nv: int,
) -> bool {
    &&& forall|i: int| 0 <= i < args.len() ==> (#[trigger] args[i]).0 < nv
    &&& shape_ok(opcode, target, args.len() as int)
    &&& func.target_ok(target)
}

/// True when each of the instructions `before[j..]` can be made in turn in a function with
/// the tables of `func` that has `nv` values before the first of them is made.
pub open spec fn fits_from(func: Function, before: Seq<Asked>, j: int, nv: int) -> bool
    decreases before.len() - j,
{
    if j >= before.len() {
        true
    } else {
        &&& fits_one(func, before[j].opcode, before[j].args, before[j].target, nv)
        &&& fits_from(func, before, j + 1, nv + before[j].result_types.len())
    }
}

/// The types of the results of the instructions `before[j..]`, in order.
pub open spec fn made_types(before: Seq<Asked>, j: int) -> Seq<Type>
    decreases before.len() - j,
{
    if j >= before.len() {
        Seq::empty()
    } else {
        before[j].result_types + made_types(before, j + 1)
    }
}

/// The instructions `before[j..]` as they are read when their results are numbered from `nv`
/// on.
pub open spec fn made_steps(before: Seq<Asked>, j: int, nv: int) -> Seq<Step>
    decreases before.len() - j,
{
    if j >= before.len() {
        Seq::empty()
    } else {
        seq![before[j].step(nv)] + made_steps(before, j + 1, nv + before[j].result_types.len())
    }
}

impl Rewrite {
    /// The rewriting that does nothing, for a function.
    pub fn new(func: &Function) -> (r: Rewrite)
        ensures
            r@ == RewriteView::nothing(),
            r.before@ == Seq::<NewInst>::empty(),
            r.replace is None,
            r.next_value == func.values.len(),
    {
        let r = Rewrite { before: Vec::new(), replace: None, next_value: func.values.len() };
        assert(r@.before =~= Seq::<Asked>::empty());
        r
    }

    /// Asks for one more instruction before the instruction that is rewritten, behind those
    /// asked for so far. Returns the values that its results will be. Returns `None` and
    /// changes nothing where there are no numbers left for them.
    pub fn insert_inst(
        &mut self,
        opcode: Opcode,
        args: Vec<Value>,
        target: CallTarget,
        result_types: Vec<Type>,
    ) -> (r: Option<Vec<Value>>)
        ensures
            match r {
                None => old(self).next_value + result_types.len() > usize::MAX && *final(self)
                    == *old(self),
                Some(results) => {
                    &&& final(self)@.before == old(self)@.before.push(
                        Asked { opcode, args: args@, target, result_types: result_types@ },
                    )
                    &&& final(self)@.replace == old(self)@.replace
                    &&& results@ == Seq::new(
                        result_types.len() as nat,
                        |i: int| Value((old(self).next_value + i) as usize),
                    )
                    &&& final(self).next_value == old(self).next_value + result_types.len()
                    &&& final(self).replace == old(self).replace
                    &&& final(self).before.len() == old(self).before.len() + 1
                    &&& forall|j: int|
                        0 <= j < old(self).before.len() ==> #[trigger] final(self).before@[j]
                            == old(self).before@[j]
                    &&& final(self).before@.last().opcode == opcode
                    &&& final(self).before@.last().args@ == args@
                    &&& final(self).before@.last().target == target
                    &&& final(self).before@.last().result_types@ == result_types@
                },
            },
    {
        let next = match self.next_value.checked_add(result_types.len()) {
            Some(next) => next,
            None => {
                return None;
            },
        };
        let mut results: Vec<Value> = Vec::new();
        let mut i: usize = 0;
        while i < result_types.len()
            invariant
                i <= result_types.len(),
                self.next_value + result_types.len() == next,
                *self == *old(self),
                results@ == Seq::new(i as nat, |j: int| Value((self.next_value + j) as usize)),
            decreases result_types.len() - i,
        {
            results.push(Value(self.next_value + i));
            i += 1;
        }
        let ghost asked = Asked { opcode, args: args@, target, result_types: result_types@ };
        self.before.push(NewInst { opcode, args, target, result_types });
        self.next_value = next;
        assert(self@.before =~= old(self)@.before.push(asked));
        Some(results)
    }

    /// Asks that the instruction that is rewritten becomes one with these parts. Its results
    /// stay.
    pub fn replace_inst(&mut self, opcode: Opcode, args: Vec<Value>, target: CallTarget)
        ensures
            final(self)@.before == old(self)@.before,
            final(self)@.replace == Some(
                Asked { opcode, args: args@, target, result_types: Seq::empty() },
            ),
            final(self).before == old(self).before,
            final(self).next_value == old(self).next_value,
            final(self).replace matches Some(to) && to.opcode == opcode && to.args@ == args@
                && to.target == target,
    {
        self.replace = Some(Replacement { opcode, args, target });
    }
}

/// Rewrites the instruction at `pos` as `rewrite` says: the new instructions are made and put
/// before it, in order, and it becomes what it is to become.
///
/// Each part is tested before it is made. A rewriting that [fits](Rewrite::fits) is made as
/// a whole. With the first part that does not fit, the error names the instruction, and the
/// parts before it are made.
pub fn apply_rewrite(func: &mut Function, pos: &mut Cursor, rewrite: Rewrite) -> (r: Result<
    (),
    LegalizeError,
>)
    requires
        old(func).wf(),
        old(func).laid_out(old(pos).block as int, old(pos).inst as int),
    ensures
        final(func).wf(),
        final(pos).block == old(pos).block,
        final(pos).inst >= old(pos).inst,
        final(func).laid_out(final(pos).block as int, final(pos).inst as int),
        final(func).inst_at(final(pos).block as int, final(pos).inst as int) == old(func).inst_at(
            old(pos).block as int,
            old(pos).inst as int,
        ),
        old(func).stable(*final(func)),
        old(func).insts_kept_but(
            *final(func),
            old(func).inst_at(old(pos).block as int, old(pos).inst as int),
        ),
        old(func).spliced(
            *final(func),
            old(pos).block as int,
            old(pos).inst as int,
            final(pos).inst - old(pos).inst,
        ),
        old(func).params_kept(*final(func)),
        ({
            let inst = old(func).inst_at(old(pos).block as int, old(pos).inst as int);
            &&& final(func).insts@[inst.0 as int].results == old(func).insts@[inst.0 as int].results
            &&& r == if rewrite@.fits(*old(func)) {
                Ok::<(), LegalizeError>(())
            } else {
                Err::<(), LegalizeError>(LegalizeError::InvalidRewrite(inst))
            }
            &&& r is Ok ==> {
                &&& put_in(
                    *old(func),
                    *final(func),
                    old(pos).block as int,
                    old(pos).inst as int,
                    made_types(rewrite@.before, 0),
                    made_steps(rewrite@.before, 0, old(func).values.len() as int),
                )
                &&& final(pos).inst == old(pos).inst + made_steps(
                    rewrite@.before,
                    0,
                    old(func).values.len() as int,
                ).len()
                &&& match rewrite@.replace {
                    Some(to) => {
                        &&& final(func).insts@[inst.0 as int].opcode == to.opcode
                        &&& final(func).insts@[inst.0 as int].args@ == to.args
                        &&& final(func).insts@[inst.0 as int].target == to.target
                    },
                    None => final(func).insts@[inst.0 as int] == old(func).insts@[inst.0 as int],
                }
            }
        }),
{
    let ghost start = *func;
    let ghost b = pos.block as int;
    let ghost at = pos.inst as int;
    let inst = func.blocks[pos.block].insts[pos.inst];
    assert(inst == func.inst_at(b, at));
    let ghost asked = rewrite@.before;
    let Rewrite { before, replace, next_value: _ } = rewrite;
    assert(asked.len() == before.len());
    let ghost mut done_types: Seq<Type> = Seq::empty();
    let ghost mut done_code: Seq<Step> = Seq::empty();
    let ghost all_types = made_types(asked, 0);
    let ghost all_code = made_steps(asked, 0, start.values.len() as int);
    proof {
        start.lemma_preserved_grown(start, b, at);
        lemma_put_in_nothing(start, b, at);
        assert(all_types =~= done_types + made_types(asked, 0));
        assert(all_code =~= done_code + made_steps(asked, 0, start.values.len() as int));
    }
    let mut j: usize = 0;
    while j < before.len()
        invariant
            j <= before.len(),
            start == *old(func),
            b == old(pos).block,
            at == old(pos).inst,
            start.wf(),
            start.laid_out(b, at),
            inst == start.inst_at(b, at),
            func.wf(),
            pos.block == b,
            pos.inst >= at,
            start.grown(*func, b, at, pos.inst - at),
            start.params_kept(*func),
            before == rewrite.before,
            replace == rewrite.replace,
            asked == rewrite@.before,
            asked.len() == before.len(),
            put_in(start, *func, b, at, done_types, done_code),
            pos.inst == at + done_code.len(),
            all_types == made_types(asked, 0),
            all_code == made_steps(asked, 0, start.values.len() as int),
            all_types == done_types + made_types(asked, j as int),
            all_code == done_code + made_steps(asked, j as int, func.values.len() as int),
            fits_from(start, asked, 0, start.values.len() as int) == fits_from(
                start,
                asked,
                j as int,
                func.values.len() as int,
            ),
        decreases before.len() - j,
    {
        let new = &before[j];
        assert(asked[j as int] == new@);
        let ghost mid = *func;
        let ghost mid_pos = *pos;
        proof {
            assert(func.accepts(new.opcode, new.args@, new.target) == fits_one(
                start,
                new.opcode,
                new.args@,
                new.target,
                func.values.len() as int,
            ));
        }
        if !func.check_inst(new.opcode, &new.args, new.target) {
            proof {
                assert(func.inst_at(b, pos.inst as int) == start.inst_at(b, pos.inst - (pos.inst - at)));
            }
            return Err(LegalizeError::InvalidRewrite(inst));
        }
        let made = func.insert_inst(pos, new.opcode, new.args.clone(), new.target, &new.result_types);
        proof {
            start.lemma_grown_twice(mid, *func, b, at, mid_pos.inst - at, 1);
            start.lemma_params_kept_twice(mid, *func);
            let step = new@.step(mid.values.len() as int);
            assert(put_in(mid, *func, b, mid_pos.inst as int, new.result_types@, seq![step])) by {
                assert(func.values@ =~= mid.values@ + new_values(new.result_types@));
                assert(func.steps(mid.insts.len() as int, func.insts.len() as int) =~= seq![step]);
            }
            lemma_put_in_twice(
                start,
                mid,
                *func,
                b,
                at,
                done_types,
                done_code,
                new.result_types@,
                seq![step],
            );
            let rest_types = made_types(asked, j + 1);
            let rest_code = made_steps(asked, j + 1, func.values.len() as int);
            assert((done_types + new.result_types@) + rest_types =~= done_types + (
            new.result_types@ + rest_types));
            assert((done_code + seq![step]) + rest_code =~= done_code + (seq![step] + rest_code));
            done_types = done_types + new.result_types@;
            done_code = done_code + seq![step];
        }
        j += 1;
    }
    proof {
        assert(func.inst_at(b, pos.inst as int) == start.inst_at(b, pos.inst - (pos.inst - at)));
        assert(all_types =~= done_types);
        assert(all_code =~= done_code);
        assert(func.insts@[inst.0 as int] == start.insts@[inst.0 as int]);
    }
    let ghost grown = *func;
    match replace {
        None => Ok(()),
        Some(to) => {
            proof {
                assert(func.accepts(to.opcode, to.args@, to.target) == fits_one(
                    start,
                    to.opcode,
                    to.args@,
                    to.target,
                    func.values.len() as int,
                ));
            }
            if !func.check_inst(to.opcode, &to.args, to.target) {
                return Err(LegalizeError::InvalidRewrite(inst));
            }
            func.replace_inst(inst, to.opcode, to.args, to.target);
            proof {
                assert forall|i: int| 0 <= i < start.insts.len() && i != inst.0 implies
                    #[trigger] func.insts@[i] == start.insts@[i] by {
                    assert(grown.insts@[i] == start.insts@[i]);
                }
                assert forall|v: int| 0 <= v < start.values.len() implies (
                #[trigger] func.values@[v]).ty == start.values@[v].ty by {
                    assert(grown.values@[v].ty == start.values@[v].ty);
                }
                assert(start.spliced(*func, b, at, pos.inst - at)) by {
                    assert forall|k: int| 0 <= k < at implies #[trigger] func.inst_at(b, k)
                        == start.inst_at(b, k) by {
                        assert(func.inst_at(b, k) == grown.inst_at(b, k));
                    }
                    assert forall|k: int| at <= k < at + (pos.inst - at) implies start.insts.len() <= (
                    #[trigger] func.inst_at(b, k)).0 by {
                        assert(func.inst_at(b, k) == grown.inst_at(b, k));
                    }
                    assert forall|k: int| at + (pos.inst - at) <= k < func.blocks@[b].insts.len() implies
                        #[trigger] func.inst_at(b, k) == start.inst_at(b, k - (pos.inst - at)) by {
                        assert(func.inst_at(b, k) == grown.inst_at(b, k));
                    }
                }
                lemma_code_kept(start, grown, *func, b, at, done_code);
            }
            Ok(())
        },
    }
}

} // verus!
