//! The interface of a code generation target.

use crate::parser::{model, ASTNode, Op};
use vstd::prelude::*;

verus! {

/// The target language for code generation.
pub trait CodegenTarget {
    /// Whether the tree is within the limits of the target, so that code can
    /// be generated for it.
    spec fn accepts(&self, ops: Seq<Op>) -> bool;

    /// The source text in the target language that the tree stands for.
    spec fn listing(&self, ops: Seq<Op>) -> Seq<char>;

    /// Tests whether the tree is within the limits of the target.
    fn can_generate(&self, ast: &[ASTNode]) -> (ok: bool)
        ensures
            ok == self.accepts(model(ast@)),
    ;

    /// Generates the target language source code for the tree.
    fn generate(&self, ast: &[ASTNode]) -> (text: String)
        requires
            self.accepts(model(ast@)),
        ensures
            text@ == self.listing(model(ast@)),
    ;
}

} // verus!
