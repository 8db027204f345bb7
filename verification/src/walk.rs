//! What the pass does, step by step: which function it leaves and what it returns, for a
//! target with given answers.

use crate::abi::{args_outcome, ArgumentType};
use crate::driver::signed_by;
use crate::entities::{Ebb, Inst};
use crate::error::LegalizeError;
use crate::function::{Encoding, Function};
use crate::isa::TargetIsa;
use crate::plan::{args_lowering, entry_plan, entry_put_in, put_in};
use crate::rewriter::{made_steps, made_types, RewriteView};
use vstd::prelude::*;

verus! {

/// `g` is `f` with the arguments of the call or return that is instruction `k` of block `b`
/// rewritten for the ABI arguments `abi`: the instructions that convert them are put before
/// it, and it has the new arguments.
pub open spec fn boundary_step(f: Function, g: Function, b: int, k: int, abi: Seq<ArgumentType>) -> bool {
    let inst = f.inst_at(b, k);
    let plan = args_lowering(
        f.types_of(f.abi_args(inst)),
        abi,
        0,
        0,
        f.abi_args(inst),
        f.values.len() as int,
    );
    let fixed = f.insts@[inst.0 as int].opcode.spec_fixed_value_arguments() as int;
    &&& g.wf()
    &&& f.rewired(g, b, k, g.blocks@[b].insts.len() - f.blocks@[b].insts.len(), inst)
    &&& put_in(f, g, b, k, plan.types, plan.code)
    &&& g.abi_args(inst) == plan.slots
    &&& g.insts@[inst.0 as int].args@.take(fixed) == f.insts@[inst.0 as int].args@.take(fixed)
}

/// `g` is `f` with the encoding of an instruction recorded.
pub open spec fn recorded_step(f: Function, g: Function, inst: Inst, encoding: Encoding) -> bool {
    &&& g.encoding(inst) == Some(encoding)
    &&& forall|i: Inst| i != inst ==> #[trigger] g.encoding(i) == f.encoding(i)
    &&& g.signature == f.signature
    &&& g.signatures == f.signatures
    &&& g.ext_funcs == f.ext_funcs
    &&& g.values == f.values
    &&& g.insts == f.insts
    &&& g.blocks == f.blocks
}

/// `g` is `f` with instruction `k` of block `b` rewritten as `rewrite` says.
pub open spec fn rewrite_step(f: Function, g: Function, b: int, k: int, rewrite: RewriteView) -> bool {
    let inst = f.inst_at(b, k);
    &&& g.wf()
    &&& f.stable(g)
    &&& f.insts_kept_but(g, inst)
    &&& g.insts@[inst.0 as int].results == f.insts@[inst.0 as int].results
    &&& f.spliced(g, b, k, g.blocks@[b].insts.len() - f.blocks@[b].insts.len())
    &&& f.params_kept(g)
    &&& put_in(
        f,
        g,
        b,
        k,
        made_types(rewrite.before, 0),
        made_steps(rewrite.before, 0, f.values.len() as int),
    )
    &&& match rewrite.replace {
        Some(to) => {
            &&& g.insts@[inst.0 as int].opcode == to.opcode
            &&& g.insts@[inst.0 as int].args@ == to.args
            &&& g.insts@[inst.0 as int].target == to.target
        },
        None => g.insts@[inst.0 as int] == f.insts@[inst.0 as int],
    }
}

/// `h` is `g` with the parameters of the entry block rewritten for the function's signature.
pub open spec fn entry_step(g: Function, h: Function) -> bool {
    &&& h.wf()
    &&& g.grown(h, 0, 0, h.blocks@[0].insts.len() - g.blocks@[0].insts.len())
    &&& entry_put_in(
        g,
        h,
        0,
        entry_plan(
            g.param_types(Ebb(0)),
            g.signature.argument_types@,
            0,
            0,
            g.blocks@[0].params@,
            g.values.len() as int,
        ),
    )
}

/// The number of instructions of block `b` from instruction `k` on.
pub open spec fn left_in_block(func: Function, b: int, k: int) -> int {
    if 0 <= b < func.blocks.len() {
        func.blocks@[b].insts.len() - k
    } else {
        0
    }
}

/// The walk from instruction `k` of block `b` of `f` on, with `fuel` rewrites left, leaves
/// the function `out` and returns `r`.
///
/// Behind the last block the walk is over. Behind the last instruction of a block it goes
/// on with the next block. At a call whose arguments match and whose results do not, it gives
/// up. At a call or return whose arguments do not match, they are rewritten, or it gives up
/// with the reason why they cannot be. At any other instruction the target is asked: an
/// encoding is recorded and the walk goes on with the next instruction; without one, the
/// rewriting that the target answers is made, or the walk gives up where there is none or
/// where it does not fit. After a rewriting the walk gives up if no rewrite is left; else it
/// goes on where it stood, with one rewrite less. Where the walk gives up within a rewriting,
/// nothing is said of the function that it leaves.
#[verifier::opaque]
pub open spec fn runs<T: TargetIsa>(
    isa: &T,
    f: Function,
    b: int,
    k: int,
    fuel: nat,
    out: Function,
    r: Result<(), LegalizeError>,
) -> bool
    decreases fuel, f.blocks.len() - b, left_in_block(f, b, k),
{
    if b < 0 || k < 0 {
        false
    } else if b >= f.blocks.len() {
        out == f && r == Ok::<(), LegalizeError>(())
    } else if k >= f.blocks@[b].insts.len() {
        runs(isa, f, b + 1, 0, fuel, out, r)
    } else {
        let inst = f.inst_at(b, k);
        let opcode = f.insts@[inst.0 as int].opcode;
        if opcode.spec_is_call() && !f.abi_ok(inst) {
            if f.call_args_match(inst) {
                out == f && r == Err::<(), LegalizeError>(
                    LegalizeError::UnconvertedCallResults(inst),
                )
            } else {
                let abi = f.signatures@[f.call_signature(inst).0 as int].argument_types@;
                match args_outcome(f.types_of(f.abi_args(inst)), abi) {
                    Err(e) => r == Err::<(), LegalizeError>(e),
                    Ok(_) => exists|g: Function|
                        #![trigger boundary_step(f, g, b, k, abi)]
                        boundary_step(f, g, b, k, abi) && if fuel == 0 {
                            out == g && r == Err::<(), LegalizeError>(LegalizeError::RewriteLimit)
                        } else {
                            runs(isa, g, b, k, (fuel - 1) as nat, out, r)
                        },
                }
            }
        } else if opcode.spec_is_return() && !f.abi_ok(inst) {
            let abi = f.signature.return_types@;
            match args_outcome(f.types_of(f.abi_args(inst)), abi) {
                Err(e) => r == Err::<(), LegalizeError>(e),
                Ok(_) => exists|g: Function|
                    #![trigger boundary_step(f, g, b, k, abi)]
                    boundary_step(f, g, b, k, abi) && if fuel == 0 {
                        out == g && r == Err::<(), LegalizeError>(LegalizeError::RewriteLimit)
                    } else {
                        runs(isa, g, b, k, (fuel - 1) as nat, out, r)
                    },
            }
        } else {
            match isa.encoding(f, inst) {
                Ok(encoding) => exists|g: Function|
                    #![trigger recorded_step(f, g, inst, encoding)]
                    recorded_step(f, g, inst, encoding) && runs(isa, g, b, k + 1, fuel, out, r),
                Err(action) => {
                    let answer = isa.rewriting(action, f, inst);
                    if !answer.0 {
                        out == f && r == Err::<(), LegalizeError>(
                            LegalizeError::NoLegalization(inst),
                        )
                    } else if !answer.1.fits(f) {
                        r == Err::<(), LegalizeError>(LegalizeError::InvalidRewrite(inst))
                    } else {
                        exists|g: Function|
                            #![trigger rewrite_step(f, g, b, k, answer.1)]
                            rewrite_step(f, g, b, k, answer.1) && if fuel == 0 {
                                out == g && r == Err::<(), LegalizeError>(
                                    LegalizeError::RewriteLimit,
                                )
                            } else {
                                runs(isa, g, b, k, (fuel - 1) as nat, out, r)
                            }
                    }
                },
            }
        }
    }
}

/// The ABI arguments that instruction `inst` of `f` has to match if it is a call, and else
/// the return values of the function's signature.
pub open spec fn boundary_abi(f: Function, inst: Inst) -> Seq<ArgumentType> {
    if f.insts@[inst.0 as int].opcode.spec_is_call() {
        f.signatures@[f.call_signature(inst).0 as int].argument_types@
    } else {
        f.signature.return_types@
    }
}

/// True when instruction `inst` of `f` is a call or return whose arguments do not match.
pub open spec fn boundary_open(f: Function, inst: Inst) -> bool {
    let opcode = f.insts@[inst.0 as int].opcode;
    (opcode.spec_is_call() && !f.call_args_match(inst)) || (opcode.spec_is_return()
        && !f.return_matches(inst))
}

/// Behind the last block the walk is over.
pub proof fn lemma_runs_over<T: TargetIsa>(isa: &T, f: Function, b: int, k: int, fuel: nat)
    requires
        0 <= k,
        0 <= b,
        b >= f.blocks.len(),
    ensures
        runs(isa, f, b, k, fuel, f, Ok::<(), LegalizeError>(())),
{
    reveal(runs);
}

/// Behind the last instruction of a block the walk goes on with the next block.
pub proof fn lemma_runs_skip<T: TargetIsa>(
    isa: &T,
    f: Function,
    b: int,
    k: int,
    fuel: nat,
    out: Function,
    r: Result<(), LegalizeError>,
)
    requires
        0 <= b < f.blocks.len(),
        k >= f.blocks@[b].insts.len(),
        runs(isa, f, b + 1, 0, fuel, out, r),
    ensures
        runs(isa, f, b, k, fuel, out, r),
{
    reveal(runs);
}

/// At a call whose arguments match and whose results do not, the walk gives up.
pub proof fn lemma_runs_unconverted<T: TargetIsa>(isa: &T, f: Function, b: int, k: int, fuel: nat)
    requires
        f.laid_out(b, k),
        f.insts@[f.inst_at(b, k).0 as int].opcode.spec_is_call(),
        f.call_args_match(f.inst_at(b, k)),
        !f.call_results_match(f.inst_at(b, k)),
    ensures
        runs(
            isa,
            f,
            b,
            k,
            fuel,
            f,
            Err::<(), LegalizeError>(LegalizeError::UnconvertedCallResults(f.inst_at(b, k))),
        ),
{
    reveal(runs);
}

/// At a call or return whose arguments cannot be carried, the walk gives up with the reason.
pub proof fn lemma_runs_cannot<T: TargetIsa>(
    isa: &T,
    f: Function,
    b: int,
    k: int,
    fuel: nat,
    out: Function,
    e: LegalizeError,
)
    requires
        f.laid_out(b, k),
        boundary_open(f, f.inst_at(b, k)),
        args_outcome(
            f.types_of(f.abi_args(f.inst_at(b, k))),
            boundary_abi(f, f.inst_at(b, k)),
        ) == Err::<(), LegalizeError>(e),
    ensures
        runs(isa, f, b, k, fuel, out, Err::<(), LegalizeError>(e)),
{
    reveal(runs);
}

/// At a call or return whose arguments do not match and can be carried, they are rewritten.
/// Then the walk gives up if no rewrite is left, and else goes on where it stood.
pub proof fn lemma_runs_boundary<T: TargetIsa>(
    isa: &T,
    f: Function,
    g: Function,
    b: int,
    k: int,
    fuel: nat,
    out: Function,
    r: Result<(), LegalizeError>,
)
    requires
        f.laid_out(b, k),
        boundary_open(f, f.inst_at(b, k)),
        args_outcome(
            f.types_of(f.abi_args(f.inst_at(b, k))),
            boundary_abi(f, f.inst_at(b, k)),
        ) is Ok,
        boundary_step(f, g, b, k, boundary_abi(f, f.inst_at(b, k))),
        if fuel == 0 {
            out == g && r == Err::<(), LegalizeError>(LegalizeError::RewriteLimit)
        } else {
            runs(isa, g, b, k, (fuel - 1) as nat, out, r)
        },
    ensures
        runs(isa, f, b, k, fuel, out, r),
{
    reveal(runs);
}

/// At an instruction that follows the ABI and has an encoding, the encoding is recorded and
/// the walk goes on with the next instruction.
pub proof fn lemma_runs_recorded<T: TargetIsa>(
    isa: &T,
    f: Function,
    g: Function,
    b: int,
    k: int,
    fuel: nat,
    out: Function,
    r: Result<(), LegalizeError>,
)
    requires
        f.laid_out(b, k),
        f.abi_ok(f.inst_at(b, k)),
        isa.encoding(f, f.inst_at(b, k)) is Ok,
        recorded_step(f, g, f.inst_at(b, k), isa.encoding(f, f.inst_at(b, k))->Ok_0),
        runs(isa, g, b, k + 1, fuel, out, r),
    ensures
        runs(isa, f, b, k, fuel, out, r),
{
    reveal(runs);
}

/// At an instruction without an encoding for which the target has no rewriting, the walk
/// gives up.
pub proof fn lemma_runs_none<T: TargetIsa>(isa: &T, f: Function, b: int, k: int, fuel: nat)
    requires
        f.laid_out(b, k),
        f.abi_ok(f.inst_at(b, k)),
        isa.encoding(f, f.inst_at(b, k)) is Err,
        !isa.rewriting(isa.encoding(f, f.inst_at(b, k))->Err_0, f, f.inst_at(b, k)).0,
    ensures
        runs(
            isa,
            f,
            b,
            k,
            fuel,
            f,
            Err::<(), LegalizeError>(LegalizeError::NoLegalization(f.inst_at(b, k))),
        ),
{
    reveal(runs);
}

/// At an instruction without an encoding for which the target's rewriting does not fit, the
/// walk gives up.
pub proof fn lemma_runs_invalid<T: TargetIsa>(
    isa: &T,
    f: Function,
    b: int,
    k: int,
    fuel: nat,
    out: Function,
)
    requires
        f.laid_out(b, k),
        f.abi_ok(f.inst_at(b, k)),
        isa.encoding(f, f.inst_at(b, k)) is Err,
        isa.rewriting(isa.encoding(f, f.inst_at(b, k))->Err_0, f, f.inst_at(b, k)).0,
        !isa.rewriting(isa.encoding(f, f.inst_at(b, k))->Err_0, f, f.inst_at(b, k)).1.fits(f),
    ensures
        runs(
            isa,
            f,
            b,
            k,
            fuel,
            out,
            Err::<(), LegalizeError>(LegalizeError::InvalidRewrite(f.inst_at(b, k))),
        ),
{
    reveal(runs);
}

/// At an instruction without an encoding, the rewriting that the target answers is made.
/// Then the walk gives up if no rewrite is left, and else goes on where it stood.
pub proof fn lemma_runs_rewritten<T: TargetIsa>(
    isa: &T,
    f: Function,
    g: Function,
    b: int,
    k: int,
    fuel: nat,
    out: Function,
    r: Result<(), LegalizeError>,
)
    requires
        f.laid_out(b, k),
        f.abi_ok(f.inst_at(b, k)),
        isa.encoding(f, f.inst_at(b, k)) is Err,
        isa.rewriting(isa.encoding(f, f.inst_at(b, k))->Err_0, f, f.inst_at(b, k)).0,
        isa.rewriting(isa.encoding(f, f.inst_at(b, k))->Err_0, f, f.inst_at(b, k)).1.fits(f),
        rewrite_step(
            f,
            g,
            b,
            k,
            isa.rewriting(isa.encoding(f, f.inst_at(b, k))->Err_0, f, f.inst_at(b, k)).1,
        ),
        if fuel == 0 {
            out == g && r == Err::<(), LegalizeError>(LegalizeError::RewriteLimit)
        } else {
            runs(isa, g, b, k, (fuel - 1) as nat, out, r)
        },
    ensures
        runs(isa, f, b, k, fuel, out, r),
{
    reveal(runs);
}

/// The pass on the function `before`, with `max_rewrites` rewrites allowed, leaves the
/// function `out` and returns `r`.
///
/// The signatures are legalized by the target. Where one is left without a location, the
/// pass gives up. The parameters of the entry block are rewritten for the function's
/// signature, or the pass gives up with the reason why they cannot be. Then the walk
/// [runs](runs) from the first instruction on.
pub open spec fn passes<T: TargetIsa>(
    isa: &T,
    before: Function,
    max_rewrites: nat,
    out: Function,
    r: Result<(), LegalizeError>,
) -> bool {
    exists|g: Function|
        #![trigger signed_by(isa, before, g)]
        signed_by(isa, before, g) && if !g.signatures_legalized() {
            out == g && r == Err::<(), LegalizeError>(LegalizeError::SignatureNotLegalized)
        } else if g.blocks.len() == 0 {
            runs(isa, g, 0, 0, max_rewrites, out, r)
        } else {
            match args_outcome(g.param_types(Ebb(0)), g.signature.argument_types@) {
                Err(e) => r == Err::<(), LegalizeError>(e),
                Ok(_) => exists|h: Function|
                    #![trigger entry_step(g, h)]
                    entry_step(g, h) && runs(isa, h, 0, 0, max_rewrites, out, r),
            }
        }
}

/// What the pass has done before the walk begins: `signed` is `before` with its signatures
/// legalized, all of them, and `entered` is `signed` with the entry block rewritten, if
/// there is one.
pub open spec fn begun<T: TargetIsa>(isa: &T, before: Function, signed: Function, entered: Function) -> bool {
    &&& signed_by(isa, before, signed)
    &&& signed.signatures_legalized()
    &&& if signed.blocks.len() == 0 {
        entered == signed
    } else {
        &&& args_outcome(signed.param_types(Ebb(0)), signed.signature.argument_types@) is Ok
        &&& entry_step(signed, entered)
    }
}

/// The pass is its beginning and the walk.
pub proof fn lemma_begun_passes<T: TargetIsa>(
    isa: &T,
    before: Function,
    signed: Function,
    entered: Function,
    max_rewrites: nat,
    out: Function,
    r: Result<(), LegalizeError>,
)
    requires
        begun(isa, before, signed, entered),
        runs(isa, entered, 0, 0, max_rewrites, out, r),
    ensures
        passes(isa, before, max_rewrites, out, r),
{
}

} // verus!
