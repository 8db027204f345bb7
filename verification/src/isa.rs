//! What legalization asks of a target.

use crate::abi::Signature;
use crate::entities::Inst;
use crate::function::{Encoding, Function};
use crate::rewriter::{Rewrite, RewriteView};
use vstd::prelude::*;

verus! {

/// How an instruction without an encoding is to be transformed.
#[derive(Clone, Copy, Debug, PartialEq, Eq, Structural)]
pub enum Legalize {
    /// Replace the instruction by a sequence of legal instructions that does the same.
    Expand,
    /// Split the controlling type of the instruction into its low and high halves.
    Narrow,
}

/// A target instruction set architecture.
pub trait TargetIsa {
    /// What the target makes of a signature when it legalizes it. Nothing is said of it here;
    /// a target that is verified says what it is.
    open spec fn legalized(&self, sig: Signature) -> Signature {
        arbitrary()
    }

    /// Annotates the arguments and return values of a signature for the target's ABI. An
    /// argument may be replaced by several that carry it together. What is made of a
    /// signature depends on the signature alone.
    ///
    /// A signature that is legalized already is to be left as it is.
    fn legalize_signature(&self, sig: &mut Signature)
        ensures
            final(sig).same_as(&self.legalized(*old(sig))),
            old(sig).spec_is_legalized() ==> final(sig).same_as(old(sig)),
    ;

    /// What the target answers when it is asked about an instruction of a function: the
    /// encoding, or how to transform the instruction where it has none. Nothing is said of
    /// it here; a target that is verified says what its answer is.
    open spec fn encoding(&self, func: Function, inst: Inst) -> Result<Encoding, Legalize> {
        arbitrary()
    }

    /// The encoding of the instruction, or how to transform it where it has none. The answer
    /// depends on the function and the instruction alone.
    ///
    /// The target is asked about an instruction that follows the ABI only: a call or return
    /// is brought in line with its signature before.
    fn encode(&self, func: &Function, inst: Inst) -> (r: Result<Encoding, Legalize>)
        requires
            func.wf(),
            inst.0 < func.insts.len(),
            func.abi_ok(inst),
        ensures
            r == self.encoding(*func, inst),
    ;

    /// What the target answers when it is asked how to transform an instruction of a
    /// function in the way `action`: whether it has a rewriting, and the rewriting. Nothing
    /// is said of it here; a target that is verified says what its answer is.
    open spec fn rewriting(&self, action: Legalize, func: Function, inst: Inst) -> (bool, RewriteView) {
        arbitrary()
    }

    /// Says how to replace instruction `inst` by a sequence of legal instructions that does
    /// the same: what `rewrite` holds afterwards is made by the pass. Returns true where
    /// there is such a rewriting. The answer depends on the function and the instruction
    /// alone.
    fn expand(&self, func: &Function, inst: Inst, rewrite: &mut Rewrite) -> (changed: bool)
        requires
            func.wf(),
            inst.0 < func.insts.len(),
            old(rewrite)@ == RewriteView::nothing(),
            old(rewrite).next_value == func.values.len(),
        ensures
            (changed, final(rewrite)@) == self.rewriting(Legalize::Expand, *func, inst),
    ;

    /// Says how to replace instruction `inst` by instructions on the halves of its
    /// controlling type: what `rewrite` holds afterwards is made by the pass. Returns true
    /// where there is such a rewriting. The answer depends on the function and the
    /// instruction alone.
    fn narrow(&self, func: &Function, inst: Inst, rewrite: &mut Rewrite) -> (changed: bool)
        requires
            func.wf(),
            inst.0 < func.insts.len(),
            old(rewrite)@ == RewriteView::nothing(),
            old(rewrite).next_value == func.values.len(),
        ensures
            (changed, final(rewrite)@) == self.rewriting(Legalize::Narrow, *func, inst),
    ;
}

} // verus!
