//! The legalization pass.
//!
//! A legal instruction is one that the target can encode directly. The pass walks the layout
//! of a function and transforms every instruction that is not legal, until each instruction
//! has an encoding and each call and return follows the ABI of the target.

use crate::abi::{args_outcome, lemma_outcome_error, Signature};
use crate::boundary::{handle_call_abi, handle_return_abi};
use crate::entities::{Ebb, Inst};
use crate::entry::legalize_entry_arguments;
use crate::error::LegalizeError;
use crate::function::{Cursor, Encoding, Function};
use crate::isa::{Legalize, TargetIsa};
use crate::rewriter::{apply_rewrite, Rewrite};
use crate::walk::{
    begun, boundary_abi, boundary_step, left_in_block, lemma_begun_passes, lemma_runs_boundary,
    lemma_runs_cannot, lemma_runs_invalid, lemma_runs_none, lemma_runs_over,
    lemma_runs_recorded, lemma_runs_rewritten, lemma_runs_skip, lemma_runs_unconverted, passes,
    recorded_step, rewrite_step, runs,
};
use vstd::prelude::*;

verus! {

/// Has the target legalize one signature, and tests that it did: that every argument and
/// return value has a location afterwards.
pub fn legalize_one_signature<T: TargetIsa>(sig: &mut Signature, isa: &T) -> (r: Result<
    (),
    LegalizeError,
>)
    ensures
        final(sig).same_as(&isa.legalized(*old(sig))),
        r == if isa.legalized(*old(sig)).spec_is_legalized() {
            Ok::<(), LegalizeError>(())
        } else {
            Err::<(), LegalizeError>(LegalizeError::SignatureNotLegalized)
        },
        r is Ok <==> final(sig).spec_is_legalized(),
        old(sig).spec_is_legalized() ==> final(sig).same_as(old(sig)),
{
    isa.legalize_signature(sig);
    if sig.is_legalized() {
        Ok(())
    } else {
        Err(LegalizeError::SignatureNotLegalized)
    }
}

/// The target is asked about signature `i` of the table of `func`: what it made of the
/// function's own signature and of every signature of the table before is legalized.
pub open spec fn reached<T: TargetIsa>(isa: &T, func: Function, i: int) -> bool {
    &&& isa.legalized(func.signature).spec_is_legalized()
    &&& forall|j: int|
        0 <= j < i && j < func.signatures.len() ==> isa.legalized(
            #[trigger] func.signatures@[j],
        ).spec_is_legalized()
}

/// `after` is `before` with its signatures legalized by the target: the function's own
/// signature is what the target makes of it, and so is every signature of the table that
/// the target is asked about. A signature that was legalized is as it was. The others, and
/// everything else, are as they were.
pub open spec fn signed_by<T: TargetIsa>(isa: &T, before: Function, after: Function) -> bool {
    &&& after.signature.same_as(&isa.legalized(before.signature))
    &&& after.signatures.len() == before.signatures.len()
    &&& forall|i: int|
        0 <= i < before.signatures.len() ==> if reached(isa, before, i) {
            (#[trigger] after.signatures@[i]).same_as(&isa.legalized(before.signatures@[i]))
        } else {
            after.signatures@[i] == before.signatures@[i]
        }
    &&& before.signature.spec_is_legalized() ==> after.signature.same_as(&before.signature)
    &&& forall|i: int|
        0 <= i < before.signatures.len() && before.signatures@[i].spec_is_legalized() ==> (
        #[trigger] after.signatures@[i]).same_as(&before.signatures@[i])
    &&& after.ext_funcs == before.ext_funcs
    &&& after.values == before.values
    &&& after.insts == before.insts
    &&& after.blocks == before.blocks
    &&& after.encodings == before.encodings
}

/// Every signature of `after` is what the target makes of the signature of `before`.
pub open spec fn signatures_by<T: TargetIsa>(isa: &T, before: Function, after: Function) -> bool {
    &&& after.signature.same_as(&isa.legalized(before.signature))
    &&& after.signatures.len() == before.signatures.len()
    &&& forall|i: int|
        0 <= i < before.signatures.len() ==> (#[trigger] after.signatures@[i]).same_as(
            &isa.legalized(before.signatures@[i]),
        )
}

/// Legalizes the signatures of `func`: its own and those of its table, one after the other,
/// until the target leaves one without a location.
///
/// Nothing but the signatures is touched: neither the entry block nor calls and returns, so
/// their parameters and arguments may not match the signatures afterwards. A signature that
/// is legalized is left as it is.
pub fn legalize_signatures<T: TargetIsa>(func: &mut Function, isa: &T) -> (r: Result<
    (),
    LegalizeError,
>)
    ensures
        signed_by(isa, *old(func), *final(func)),
        r == if reached(isa, *old(func), old(func).signatures.len() as int) {
            Ok::<(), LegalizeError>(())
        } else {
            Err::<(), LegalizeError>(LegalizeError::SignatureNotLegalized)
        },
        r is Ok <==> final(func).signatures_legalized(),
        old(func).signature.spec_is_legalized() ==> final(func).signature.same_as(
            &old(func).signature,
        ),
        forall|i: int|
            0 <= i < old(func).signatures.len() && old(func).signatures@[i].spec_is_legalized()
                ==> (#[trigger] final(func).signatures@[i]).same_as(&old(func).signatures@[i]),
        old(func).wf() ==> final(func).wf(),
{
    let ghost start = *func;
    match legalize_one_signature(&mut func.signature, isa) {
        Err(e) => {
            proof {
                if start.wf() {
                    start.lemma_signatures_changed(*func);
                }
                assert(!func.signature.spec_is_legalized());
            }
            return Err(e);
        },
        Ok(_) => {},
    }
    let mut i: usize = 0;
    while i < func.signatures.len()
        invariant
            i <= func.signatures.len(),
            start == *old(func),
            func.signatures.len() == start.signatures.len(),
            func.signature.same_as(&isa.legalized(start.signature)),
            reached(isa, start, i as int),
            forall|j: int|
                0 <= j < i ==> (#[trigger] func.signatures@[j]).same_as(
                    &isa.legalized(start.signatures@[j]),
                ),
            func.signature.spec_is_legalized(),
            start.signature.spec_is_legalized() ==> func.signature.same_as(&start.signature),
            forall|j: int| 0 <= j < i ==> (#[trigger] func.signatures@[j]).spec_is_legalized(),
            forall|j: int|
                0 <= j < i && start.signatures@[j].spec_is_legalized() ==> (
                #[trigger] func.signatures@[j]).same_as(&start.signatures@[j]),
            forall|j: int|
                i <= j < func.signatures.len() ==> #[trigger] func.signatures@[j]
                    == start.signatures@[j],
            func.ext_funcs == start.ext_funcs,
            func.values == start.values,
            func.insts == start.insts,
            func.blocks == start.blocks,
            func.encodings == start.encodings,
        decreases func.signatures.len() - i,
    {
        match legalize_one_signature(&mut func.signatures[i], isa) {
            Err(e) => {
                proof {
                    if start.wf() {
                        start.lemma_signatures_changed(*func);
                    }
                    assert(!func.signatures@[i as int].spec_is_legalized());
                    assert(!isa.legalized(start.signatures@[i as int]).spec_is_legalized());
                    assert forall|j: int| i < j < start.signatures.len() implies !reached(
                        isa,
                        start,
                        j,
                    ) by {}
                }
                return Err(e);
            },
            Ok(_) => {},
        }
        i += 1;
    }
    proof {
        if start.wf() {
            start.lemma_signatures_changed(*func);
        }
        assert(func.signatures_legalized());
    }
    Ok(())
}

/// Takes the target's answer for an instruction: an encoding is recorded in the encoding
/// table, and a transformation is handed on.
pub fn record_encoding(func: &mut Function, inst: Inst, answer: Result<Encoding, Legalize>) -> (r:
    Option<Legalize>)
    ensures
        match answer {
            Ok(encoding) => {
                &&& r is None
                &&& final(func).encoding(inst) == Some(encoding)
                &&& forall|i: Inst| i != inst ==> #[trigger] final(func).encoding(i) == old(func).encoding(i)
                &&& final(func).signature == old(func).signature
                &&& final(func).signatures == old(func).signatures
                &&& final(func).ext_funcs == old(func).ext_funcs
                &&& final(func).values == old(func).values
                &&& final(func).insts == old(func).insts
                &&& final(func).blocks == old(func).blocks
            },
            Err(action) => r == Some(action) && *final(func) == *old(func),
        },
        old(func).wf() ==> final(func).wf(),
{
    match answer {
        Ok(encoding) => {
            func.set_encoding(inst, encoding);
            None
        },
        Err(action) => Some(action),
    }
}

/// Decides what follows the attempt to rewrite instruction `inst`. Where nothing was changed
/// there is no way to legalize the instruction. Where something was, what was put in is
/// visited next, which takes one of the rewrites that are left.
pub fn revisit(changed: bool, inst: Inst, rewrites_left: &mut usize) -> (r: Result<(), LegalizeError>)
    ensures
        r == if !changed {
            Err::<(), LegalizeError>(LegalizeError::NoLegalization(inst))
        } else if *old(rewrites_left) == 0 {
            Err::<(), LegalizeError>(LegalizeError::RewriteLimit)
        } else {
            Ok::<(), LegalizeError>(())
        },
        *final(rewrites_left) == if r is Ok {
            (*old(rewrites_left) - 1) as usize
        } else {
            *old(rewrites_left)
        },
{
    if !changed {
        Err(LegalizeError::NoLegalization(inst))
    } else if *rewrites_left == 0 {
        Err(LegalizeError::RewriteLimit)
    } else {
        *rewrites_left = *rewrites_left - 1;
        Ok(())
    }
}

/// What holds of the function `after` when the pass has given up on the function `before`
/// with the error `e`.
///
/// The error is that a signature is not legalized exactly when one is not. With any other
/// error the signatures are legalized. Where the entry block does not match the function's
/// signature then, the error is why its parameters cannot be rewritten. The entry block
/// matches with every error of the walk. Where the error is that the results of a call are not
/// converted, the call is in the layout, its arguments match its signature and its results
/// do not. Where the error is that an instruction has no legalization, the instruction is in
/// the layout and follows the ABI.
pub open spec fn given_up(before: Function, after: Function, e: LegalizeError) -> bool {
    &&& e == LegalizeError::SignatureNotLegalized <==> !after.signatures_legalized()
    &&& after.signatures_legalized() && !after.entry_matches() ==> {
        &&& before.blocks.len() > 0
        &&& Err::<(), LegalizeError>(e) == args_outcome(
            before.param_types(Ebb(0)),
            after.signature.argument_types@,
        )
    }
    &&& !e.is_conversion() && e != LegalizeError::SignatureNotLegalized ==> after.entry_matches()
    &&& e matches LegalizeError::UnconvertedCallResults(inst) ==> {
        &&& after.has_laid_out(inst)
        &&& inst.0 < after.insts.len()
        &&& after.insts@[inst.0 as int].opcode.spec_is_call()
        &&& after.call_args_match(inst)
        &&& !after.call_results_match(inst)
    }
    &&& e matches LegalizeError::NoLegalization(inst) ==> {
        &&& after.has_laid_out(inst)
        &&& inst.0 < after.insts.len()
        &&& after.abi_ok(inst)
    }
}

/// The function needs nothing but encodings, and the target has them: the signatures are
/// legalized, the entry block matches, every instruction of the layout follows the ABI, and
/// the target has an encoding for each of them, whatever the encoding table holds.
pub open spec fn encodable<T: TargetIsa>(isa: &T, func: Function) -> bool {
    &&& func.signatures_legalized()
    &&& func.entry_matches()
    &&& forall|b: int, k: int| func.laid_out(b, k) ==> func.abi_ok(#[trigger] func.inst_at(b, k))
    &&& forall|f: Function, b: int, k: int|
        func.same_but_encodings(f) && func.laid_out(b, k) ==> #[trigger] isa.encoding(
            f,
            func.inst_at(b, k),
        ) is Ok
}

/// The encoding that `after` has for the instruction is what the target answers when it is
/// asked about the instruction of a function with the content of `before`.
pub open spec fn answered<T: TargetIsa>(isa: &T, before: Function, after: Function, inst: Inst) -> bool {
    exists|f: Function|
        before.same_but_encodings(f) && #[trigger] isa.encoding(f, inst) is Ok && after.encoding(inst)
            == Some(isa.encoding(f, inst)->Ok_0)
}

/// The encoding that `func` has for the instruction is what the target answered when it was
/// asked about the instruction as it is now, in a state of the function between `start` and
/// `func` in which the instruction followed the ABI.
pub open spec fn encoded_by<T: TargetIsa>(isa: &T, start: Function, func: Function, inst: Inst) -> bool {
    exists|f: Function|
        #![trigger isa.encoding(f, inst)]
        {
            &&& start.passed_on(f)
            &&& f.passed_on(func)
            &&& inst.0 < f.insts.len()
            &&& f.insts@[inst.0 as int] == func.insts@[inst.0 as int]
            &&& f.abi_ok(inst)
            &&& isa.encoding(f, inst) is Ok
            &&& func.encoding(inst) == Some(isa.encoding(f, inst)->Ok_0)
        }
}

/// An instruction that is rewritten leaves the encodings of what is laid out before it what
/// the target answered.
pub proof fn lemma_encoded_kept<T: TargetIsa>(
    isa: &T,
    start: Function,
    before: Function,
    after: Function,
    b: int,
    k: int,
    n: int,
)
    requires
        before.wf(),
        before.laid_out(b, k),
        before.stable(after),
        before.insts_kept_but(after, before.inst_at(b, k)),
        after.insts@[before.inst_at(b, k).0 as int].results == before.insts@[before.inst_at(
            b,
            k,
        ).0 as int].results,
        before.spliced(after, b, k, n),
        forall|c: int, j: int|
            before.laid_out(c, j) && (c < b || (c == b && j < k)) ==> encoded_by(
                isa,
                start,
                before,
                #[trigger] before.inst_at(c, j),
            ),
    ensures
        forall|c: int, j: int|
            after.laid_out(c, j) && (c < b || (c == b && j < k)) ==> encoded_by(
                isa,
                start,
                after,
                #[trigger] after.inst_at(c, j),
            ),
{
    let inst = before.inst_at(b, k);
    assert forall|x: int| 0 <= x < before.insts.len() implies (#[trigger] after.insts@[x]).results@
        == before.insts@[x].results@ by {
        if x != inst.0 {
            assert(after.insts@[x] == before.insts@[x]);
        }
    }
    assert forall|c: int, j: int|
        after.laid_out(c, j) && (c < b || (c == b && j < k)) implies encoded_by(
        isa,
        start,
        after,
        #[trigger] after.inst_at(c, j),
    ) by {
        if c != b {
            assert(after.blocks@[c].insts@ == before.blocks@[c].insts@);
        }
        assert(before.laid_out(c, j));
        let i = before.inst_at(c, j);
        assert(after.inst_at(c, j) == i);
        assert(i != inst);
        assert(encoded_by(isa, start, before, i));
        let f = choose|f: Function|
            #![trigger isa.encoding(f, i)]
            {
                &&& start.passed_on(f)
                &&& f.passed_on(before)
                &&& i.0 < f.insts.len()
                &&& f.insts@[i.0 as int] == before.insts@[i.0 as int]
                &&& f.abi_ok(i)
                &&& isa.encoding(f, i) is Ok
                &&& before.encoding(i) == Some(isa.encoding(f, i)->Ok_0)
            };
        f.lemma_passed_on_step(before, after, b, k, n);
        assert(after.insts@[i.0 as int] == before.insts@[i.0 as int]);
        assert(after.encoding(i) == before.encoding(i));
    }
}

/// An encoding that is recorded is what the target answered, and leaves the other encodings
/// what the target answered.
pub proof fn lemma_encoded_recorded<T: TargetIsa>(
    isa: &T,
    start: Function,
    before: Function,
    after: Function,
    b: int,
    k: int,
)
    requires
        before.wf(),
        before.laid_out(b, k),
        start.passed_on(before),
        before.abi_ok(before.inst_at(b, k)),
        isa.encoding(before, before.inst_at(b, k)) is Ok,
        after.encoding(before.inst_at(b, k)) == Some(
            isa.encoding(before, before.inst_at(b, k))->Ok_0,
        ),
        forall|i: Inst| i != before.inst_at(b, k) ==> #[trigger] after.encoding(i) == before.encoding(i),
        after.values == before.values,
        after.insts == before.insts,
        after.blocks == before.blocks,
        forall|c: int, j: int|
            before.laid_out(c, j) && (c < b || (c == b && j < k)) ==> encoded_by(
                isa,
                start,
                before,
                #[trigger] before.inst_at(c, j),
            ),
    ensures
        forall|c: int, j: int|
            after.laid_out(c, j) && (c < b || (c == b && j < k + 1)) ==> encoded_by(
                isa,
                start,
                after,
                #[trigger] after.inst_at(c, j),
            ),
{
    let inst = before.inst_at(b, k);
    before.lemma_passed_on_self();
    assert(before.passed_on(after));
    assert forall|c: int, j: int|
        after.laid_out(c, j) && (c < b || (c == b && j < k + 1)) implies encoded_by(
        isa,
        start,
        after,
        #[trigger] after.inst_at(c, j),
    ) by {
        assert(before.laid_out(c, j));
        let i = before.inst_at(c, j);
        assert(after.inst_at(c, j) == i);
        if c == b && j == k {
            assert(isa.encoding(before, i) is Ok);
        } else {
            assert(i != inst);
            assert(encoded_by(isa, start, before, i));
            let f = choose|f: Function|
                #![trigger isa.encoding(f, i)]
                {
                    &&& start.passed_on(f)
                    &&& f.passed_on(before)
                    &&& i.0 < f.insts.len()
                    &&& f.insts@[i.0 as int] == before.insts@[i.0 as int]
                    &&& f.abi_ok(i)
                    &&& isa.encoding(f, i) is Ok
                    &&& before.encoding(i) == Some(isa.encoding(f, i)->Ok_0)
                };
            assert(f.passed_on(after));
            assert(after.encoding(i) == before.encoding(i));
        }
    }
}

/// Legalizes `func` for the target `isa`.
///
/// First the signatures are legalized. Then the parameters of the entry block are brought in
/// line with the function's signature. Then the instructions are gone through in layout order. A
/// call or return whose arguments do not match the signature is rewritten. Any other
/// instruction is handed to the target: an encoding is recorded in the encoding table, and an
/// instruction without one is handed to the rewrite that the target names. After a change
/// the walk goes back to where it stood before the instruction, so that what was put in is
/// legalized in turn.
///
/// Nothing bounds the number of rewrites that a target may ask for, so the caller does: the
/// pass gives up when more than `max_rewrites` are needed.
///
/// Whatever comes of it, the function keeps what it [had](Function::passed_on): its blocks,
/// its values with their types, its instructions with their results, and in each block the
/// instructions that were laid out there, in their order. A function for which the pass
/// returns `Ok` is legalized, and each encoding of its table is what the target answered for
/// the instruction ([`encoded_by`]). Where the function needs nothing but encodings and the target
/// has them ([`encodable`]), the pass returns `Ok`, nothing but the encoding table is changed,
/// and the table holds what the target answered. Otherwise the target decides whether it does, but for a function that gives it nothing to decide: one whose signatures are
/// legalized, whose entry block matches, and which has no instruction in its layout is left
/// as it is. What holds when the pass gives up is said by [`given_up`].
#[verifier::rlimit(60)]
pub fn legalize_function<T: TargetIsa>(func: &mut Function, isa: &T, max_rewrites: usize) -> (r:
    Result<(), LegalizeError>)
    requires
        old(func).wf(),
    ensures
        final(func).wf(),
        r is Ok ==> final(func).legalized(),
        r is Ok ==> forall|b: int, k: int|
            final(func).laid_out(b, k) ==> encoded_by(
                isa,
                *old(func),
                *final(func),
                #[trigger] final(func).inst_at(b, k),
            ),
        old(func).signatures_legalized() && old(func).entry_matches() && old(func).nothing_laid_out()
            ==> r is Ok && final(func).same_as(*old(func)),
        encodable(isa, *old(func)) ==> {
            &&& r is Ok
            &&& old(func).same_but_encodings(*final(func))
            &&& forall|b: int, k: int|
                final(func).laid_out(b, k) ==> answered(
                    isa,
                    *old(func),
                    *final(func),
                    #[trigger] final(func).inst_at(b, k),
                )
        },
        passes(isa, *old(func), max_rewrites as nat, *final(func), r),
        final(func).signature.same_as(&isa.legalized(old(func).signature)),
        r != Err::<(), LegalizeError>(LegalizeError::SignatureNotLegalized) ==> signatures_by(
            isa,
            *old(func),
            *final(func),
        ),
        r is Ok && old(func).aliases_end() ==> final(func).aliases_end(),
        r matches Err(e) ==> given_up(*old(func), *final(func), e),
        r matches Err(LegalizeError::NoLegalization(inst)) ==> isa.encoding(*final(func), inst) is Err,
        old(func).passed_on(*final(func)),
{
    let ghost start = *func;
    match legalize_signatures(func, isa) {
        Err(e) => {
            proof {
                start.lemma_passed_on_self();
                assert(start.passed_on(*func));
                assert(signed_by(isa, start, *func));
            }
            return Err(e);
        },
        Ok(_) => {},
    }
    let ghost signed = *func;
    proof {
        assert(signatures_by(isa, start, signed)) by {
            assert(reached(isa, start, start.signatures.len() as int));
            assert forall|i: int| 0 <= i < start.signatures.len() implies (
            #[trigger] signed.signatures@[i]).same_as(&isa.legalized(start.signatures@[i])) by {
                assert(reached(isa, start, i));
            }
        }
        if start.aliases_end() {
            start.lemma_aliases_end_grown(signed);
        }
        start.lemma_passed_on_self();
        assert(start.passed_on(signed));
        assert(signed.param_types(Ebb(0)) == start.param_types(Ebb(0)));
        if start.signatures_legalized() {
            assert(signed.same_as(start));
        }
    }
    if func.blocks.len() > 0 {
        let r = legalize_entry_arguments(func, Ebb(0));
        proof {
            start.lemma_passed_on_step(
                signed,
                *func,
                0,
                0,
                func.blocks@[0].insts.len() - signed.blocks@[0].insts.len(),
            );
        }
        match r {
            Err(e) => {
                proof {
                    lemma_outcome_error(
                        start.param_types(Ebb(0)),
                        signed.signature.argument_types@,
                    );
                    assert(signed_by(isa, start, signed));
                }
                return Err(e);
            },
            Ok(_) => {},
        }
    }
    let ghost entered = *func;
    proof {
        if start.signatures_legalized() && start.entry_matches() {
            assert(entered.same_as(signed));
            assert forall|j: int| 0 <= j < entered.signatures.len() implies (
            #[trigger] entered.signatures@[j]).same_as(&start.signatures@[j]) by {
                assert(signed.signatures@[j].same_as(&start.signatures@[j]));
            }
            assert forall|c: int| 0 <= c < entered.blocks.len() implies (
            #[trigger] entered.blocks@[c]).params@ == start.blocks@[c].params@
                && entered.blocks@[c].insts@ == start.blocks@[c].insts@ by {
                assert(signed.blocks@[c] == start.blocks@[c]);
            }
            assert(entered.same_as(start));
        }
        if start.signatures_legalized() && start.entry_matches() && start.nothing_laid_out() {
            assert forall|c: int| 0 <= c < entered.blocks.len() implies (
            #[trigger] entered.blocks@[c]).insts.len() == 0 by {
                assert(entered.blocks@[c].insts@ == start.blocks@[c].insts@);
                assert(start.blocks@[c].insts.len() == 0);
            }
        }
    }
    let ghost easy = encodable(isa, start);
    proof {
        assert(begun(isa, start, signed, entered));
        if easy {
            assert(start.same_but_encodings(entered));
        }
    }
    let mut rewrites_left: usize = max_rewrites;
    // The walk stands before instruction `k` of block `b`. It comes back here when the
    // instruction is replaced.
    let mut b: usize = 0;
    let mut k: usize = 0;
    loop
        invariant
            start == *old(func),
            start.signatures_legalized() && start.entry_matches() ==> entered.same_as(start),
            start.signatures_legalized() && start.entry_matches() && start.nothing_laid_out()
                ==> entered.nothing_laid_out(),
            entered.nothing_laid_out() ==> *func == entered,
            start.passed_on(*func),
            start.wf(),
            forall|c: int, j: int|
                func.laid_out(c, j) && (c < b || (c == b && j < k)) ==> encoded_by(
                    isa,
                    start,
                    *func,
                    #[trigger] func.inst_at(c, j),
                ),
            easy == encodable(isa, start),
            easy ==> start.same_but_encodings(*func),
            easy ==> forall|c: int, j: int|
                func.laid_out(c, j) && (c < b || (c == b && j < k)) ==> answered(
                    isa,
                    start,
                    *func,
                    #[trigger] func.inst_at(c, j),
                ),
            func.legal_up_to(b as int, k as int),
            b <= func.blocks.len(),
            b < func.blocks.len() ==> k <= func.blocks@[b as int].insts.len(),
            begun(isa, start, signed, entered),
            func.signature == signed.signature,
            func.signatures == signed.signatures,
            signatures_by(isa, start, signed),
            start.aliases_end() ==> func.aliases_end(),
            forall|out: Function, r: Result<(), LegalizeError>| #[trigger]
                runs(isa, *func, b as int, k as int, rewrites_left as nat, out, r) ==> runs(
                    isa,
                    entered,
                    0,
                    0,
                    max_rewrites as nat,
                    out,
                    r,
                ),
        decreases rewrites_left, func.blocks.len() - b, left_in_block(*func, b as int, k as int),
    {
        if b >= func.blocks.len() {
            proof {
                lemma_runs_over(isa, *func, b as int, k as int, rewrites_left as nat);
                lemma_begun_passes(
                    isa,
                    start,
                    signed,
                    entered,
                    max_rewrites as nat,
                    *func,
                    Ok::<(), LegalizeError>(()),
                );
            }
            return Ok(());
        }
        if k >= func.blocks[b].insts.len() {
            proof {
                assert forall|out: Function, r: Result<(), LegalizeError>| #[trigger]
                    runs(isa, *func, b + 1, 0, rewrites_left as nat, out, r) implies runs(
                    isa,
                    entered,
                    0,
                    0,
                    max_rewrites as nat,
                    out,
                    r,
                ) by {
                    lemma_runs_skip(isa, *func, b as int, k as int, rewrites_left as nat, out, r);
                }
            }
            b += 1;
            k = 0;
            continue ;
        }
        let inst = func.blocks[b].insts[k];
        assert(inst == func.inst_at(b as int, k as int));
        proof {
            // There is an instruction, so the target may have something to decide.
            if entered.nothing_laid_out() {
                assert(entered.blocks@[b as int].insts.len() == 0);
            }
            assert(!entered.nothing_laid_out());
            assert(func.inst_ok(func.insts@[inst.0 as int]));
            if easy {
                // The instruction follows the ABI and the target has an encoding for it.
                assert(start.blocks@[b as int].insts@ == func.blocks@[b as int].insts@);
                assert(start.laid_out(b as int, k as int));
                assert(start.inst_at(b as int, k as int) == inst);
                assert(start.abi_ok(inst));
                start.lemma_abi_ok_same(*func, inst);
                assert(isa.encoding(*func, start.inst_at(b as int, k as int)) is Ok);
            }
        }
        let opcode = func.insts[inst.0].opcode;
        let ghost before = *func;
        let ghost fuel = rewrites_left as nat;
        let mut pos = Cursor { block: b, inst: k };
        // Check for ABI boundaries that need to be converted to the legalized signature.
        if opcode.is_call() {
            let ghost sig = before.signatures@[before.call_signature(inst).0 as int];
            let r = handle_call_abi(func, &mut pos);
            proof {
                assert forall|i: int| 0 <= i < before.insts.len() implies (
                #[trigger] func.insts@[i]).results@ == before.insts@[i].results@ by {
                    if i != inst.0 {
                        assert(func.insts@[i] == before.insts@[i]);
                    }
                }
                start.lemma_passed_on_step(before, *func, b as int, k as int, pos.inst - k);
                lemma_encoded_kept(isa, start, before, *func, b as int, k as int, pos.inst - k);
            }
            match r {
                Err(e) => {
                    proof {
                        before.lemma_legal_kept(*func, b as int, k as int, pos.inst - k, k as int);
                        lemma_outcome_error(
                            before.types_of(before.abi_args(inst)),
                            sig.argument_types@,
                        );
                        if before.call_args_match(inst) {
                            assert(func.laid_out(b as int, k as int));
                            assert(func.has_laid_out(inst));
                            lemma_runs_unconverted(isa, before, b as int, k as int, fuel);
                        } else {
                            lemma_runs_cannot(isa, before, b as int, k as int, fuel, *func, e);
                        }
                        lemma_begun_passes(
                            isa,
                            start,
                            signed,
                            entered,
                            max_rewrites as nat,
                            *func,
                            Err::<(), LegalizeError>(e),
                        );
                    }
                    return Err(e);
                },
                Ok(true) => {
                    // Go back and legalize the inserted argument conversion instructions.
                    proof {
                        before.lemma_legal_kept(*func, b as int, k as int, pos.inst - k, k as int);
                        if before.aliases_end() {
                            before.lemma_aliases_end_grown(*func);
                        }
                        assert(boundary_abi(before, inst) == sig.argument_types@);
                        assert(boundary_step(before, *func, b as int, k as int, sig.argument_types@));
                    }
                    match revisit(true, inst, &mut rewrites_left) {
                        Err(e) => {
                            proof {
                                lemma_runs_boundary(
                                    isa,
                                    before,
                                    *func,
                                    b as int,
                                    k as int,
                                    fuel,
                                    *func,
                                    Err::<(), LegalizeError>(e),
                                );
                                lemma_begun_passes(
                                    isa,
                                    start,
                                    signed,
                                    entered,
                                    max_rewrites as nat,
                                    *func,
                                    Err::<(), LegalizeError>(e),
                                );
                            }
                            return Err(e);
                        },
                        Ok(_) => {},
                    }
                    proof {
                        assert forall|out: Function, r: Result<(), LegalizeError>| #[trigger]
                            runs(isa, *func, b as int, k as int, rewrites_left as nat, out, r) implies runs(
                            isa,
                            entered,
                            0,
                            0,
                            max_rewrites as nat,
                            out,
                            r,
                        ) by {
                            lemma_runs_boundary(isa, before, *func, b as int, k as int, fuel, out, r);
                        }
                    }
                    continue ;
                },
                Ok(false) => {},
            }
        }
        if opcode.is_return() {
            let r = handle_return_abi(func, &mut pos);
            proof {
                assert forall|i: int| 0 <= i < before.insts.len() implies (
                #[trigger] func.insts@[i]).results@ == before.insts@[i].results@ by {
                    if i != inst.0 {
                        assert(func.insts@[i] == before.insts@[i]);
                    }
                }
                start.lemma_passed_on_step(before, *func, b as int, k as int, pos.inst - k);
                lemma_encoded_kept(isa, start, before, *func, b as int, k as int, pos.inst - k);
            }
            match r {
                Err(e) => {
                    proof {
                        before.lemma_legal_kept(*func, b as int, k as int, pos.inst - k, k as int);
                        lemma_outcome_error(
                            before.types_of(before.abi_args(inst)),
                            before.signature.return_types@,
                        );
                        lemma_runs_cannot(isa, before, b as int, k as int, fuel, *func, e);
                        lemma_begun_passes(
                            isa,
                            start,
                            signed,
                            entered,
                            max_rewrites as nat,
                            *func,
                            Err::<(), LegalizeError>(e),
                        );
                    }
                    return Err(e);
                },
                Ok(true) => {
                    // Go back and legalize the inserted return value conversion instructions.
                    proof {
                        before.lemma_legal_kept(*func, b as int, k as int, pos.inst - k, k as int);
                        if before.aliases_end() {
                            before.lemma_aliases_end_grown(*func);
                        }
                        assert(boundary_step(
                            before,
                            *func,
                            b as int,
                            k as int,
                            before.signature.return_types@,
                        ));
                    }
                    match revisit(true, inst, &mut rewrites_left) {
                        Err(e) => {
                            proof {
                                lemma_runs_boundary(
                                    isa,
                                    before,
                                    *func,
                                    b as int,
                                    k as int,
                                    fuel,
                                    *func,
                                    Err::<(), LegalizeError>(e),
                                );
                                lemma_begun_passes(
                            isa,
                            start,
                            signed,
                            entered,
                            max_rewrites as nat,
                            *func,
                            Err::<(), LegalizeError>(e),
                        );
                            }
                            return Err(e);
                        },
                        Ok(_) => {},
                    }
                    proof {
                        assert forall|out: Function, r: Result<(), LegalizeError>| #[trigger]
                            runs(isa, *func, b as int, k as int, rewrites_left as nat, out, r) implies runs(
                            isa,
                            entered,
                            0,
                            0,
                            max_rewrites as nat,
                            out,
                            r,
                        ) by {
                            lemma_runs_boundary(isa, before, *func, b as int, k as int, fuel, out, r);
                        }
                    }
                    continue ;
                },
                Ok(false) => {},
            }
        }
        assert(*func == before);
        assert(func.abi_ok(inst));
        let answer = isa.encode(func, inst);
        match record_encoding(func, inst, answer) {
            None => {
                proof {
                    before.lemma_legal_encoded(*func, b as int, k as int);
                    lemma_encoded_recorded(isa, start, before, *func, b as int, k as int);
                    if easy {
                        assert forall|c: int, j: int|
                            func.laid_out(c, j) && (c < b || (c == b && j < k + 1)) implies answered(
                            isa,
                            start,
                            *func,
                            #[trigger] func.inst_at(c, j),
                        ) by {
                            let i = func.inst_at(c, j);
                            assert(before.laid_out(c, j) && before.inst_at(c, j) == i);
                            if c == b && j == k {
                                assert(isa.encoding(before, i) is Ok);
                                assert(func.encoding(i) == Some(isa.encoding(before, i)->Ok_0));
                            } else {
                                assert(i != inst);
                                assert(answered(isa, start, before, before.inst_at(c, j)));
                                let f = choose|f: Function|
                                    start.same_but_encodings(f) && #[trigger] isa.encoding(f, i) is Ok
                                        && before.encoding(i) == Some(isa.encoding(f, i)->Ok_0);
                                assert(func.encoding(i) == Some(isa.encoding(f, i)->Ok_0));
                            }
                        }
                    }
                    assert(recorded_step(before, *func, inst, answer->Ok_0));
                    if before.aliases_end() {
                        before.lemma_aliases_end_grown(*func);
                    }
                    assert forall|out: Function, r: Result<(), LegalizeError>| #[trigger]
                        runs(isa, *func, b as int, k + 1, rewrites_left as nat, out, r) implies runs(
                        isa,
                        entered,
                        0,
                        0,
                        max_rewrites as nat,
                        out,
                        r,
                    ) by {
                        lemma_runs_recorded(isa, before, *func, b as int, k as int, fuel, out, r);
                    }
                }
                k += 1;
            },
            Some(action) => {
                // The instruction is to be transformed into legal ones. The target says how,
                // and what it says is made here.
                let mut rewrite = Rewrite::new(func);
                let changed = match action {
                    Legalize::Expand => isa.expand(func, inst, &mut rewrite),
                    Legalize::Narrow => isa.narrow(func, inst, &mut rewrite),
                };
                let ghost asked = rewrite@;
                proof {
                    assert(func.laid_out(b as int, k as int));
                    assert(func.has_laid_out(inst));
                    assert(isa.rewriting(action, before, inst) == (changed, asked));
                }
                if changed {
                    let r = apply_rewrite(func, &mut pos, rewrite);
                    proof {
                        assert forall|i: int| 0 <= i < before.insts.len() implies (
                        #[trigger] func.insts@[i]).results@ == before.insts@[i].results@ by {
                            if i != inst.0 {
                                assert(func.insts@[i] == before.insts@[i]);
                            }
                        }
                        start.lemma_passed_on_step(before, *func, b as int, k as int, pos.inst - k);
                        lemma_encoded_kept(isa, start, before, *func, b as int, k as int, pos.inst - k);
                        before.lemma_legal_kept(*func, b as int, k as int, pos.inst - k, k as int);
                    }
                    match r {
                        Err(e) => {
                            proof {
                                lemma_runs_invalid(isa, before, b as int, k as int, fuel, *func);
                                lemma_begun_passes(
                            isa,
                            start,
                            signed,
                            entered,
                            max_rewrites as nat,
                            *func,
                            Err::<(), LegalizeError>(e),
                        );
                            }
                            return Err(e);
                        },
                        Ok(_) => {
                            proof {
                                if before.aliases_end() {
                                    before.lemma_aliases_end_grown(*func);
                                }
                            }
                            assert(rewrite_step(before, *func, b as int, k as int, asked));
                        },
                    }
                }
                // If the instruction was replaced, go back and visit what replaced it: to
                // assign encodings, and possibly to transform further.
                match revisit(changed, inst, &mut rewrites_left) {
                    Err(e) => {
                        proof {
                            if changed {
                                lemma_runs_rewritten(
                                    isa,
                                    before,
                                    *func,
                                    b as int,
                                    k as int,
                                    fuel,
                                    *func,
                                    Err::<(), LegalizeError>(e),
                                );
                            } else {
                                lemma_runs_none(isa, before, b as int, k as int, fuel);
                            }
                            lemma_begun_passes(
                            isa,
                            start,
                            signed,
                            entered,
                            max_rewrites as nat,
                            *func,
                            Err::<(), LegalizeError>(e),
                        );
                        }
                        return Err(e);
                    },
                    Ok(_) => {},
                }
                proof {
                    assert forall|out: Function, r: Result<(), LegalizeError>| #[trigger]
                        runs(isa, *func, b as int, k as int, rewrites_left as nat, out, r) implies runs(
                        isa,
                        entered,
                        0,
                        0,
                        max_rewrites as nat,
                        out,
                        r,
                    ) by {
                        lemma_runs_rewritten(isa, before, *func, b as int, k as int, fuel, out, r);
                    }
                }
            },
        }
    }
}

} // verus!
