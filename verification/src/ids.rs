//! Opaque 64-bit identifiers that correlate coverage data across sessions.

use vstd::prelude::*;

verus! {

/// Identifier of a monomorphized function, stable across compilation sessions.
#[derive(Clone, Copy, Debug, PartialEq, Eq, Hash, Structural)]
pub struct Function(u64);

impl Function {
    /// The raw handle this identifier stands for.
    pub closed spec fn view(&self) -> u64 {
        self.0
    }

    pub fn new(function: u64) -> (made: Self)
        ensures
            made@ == function,
    {
        Function(function)
    }

    pub fn raw(&self) -> (handle: u64)
        ensures
            handle == self@,
    {
        self.0
    }

    /// Two identifiers are the same exactly when their raw handles are.
    pub proof fn lemma_same_handle(a: Function, b: Function)
        ensures
            (a@ == b@) == (a == b),
    {
    }
}

/// Identifier of a basic block within some function, stable across sessions
/// as long as every block that can reach it in the normalized control-flow
/// graph is unchanged.
#[derive(Clone, Copy, Debug, PartialEq, Eq, Hash, Structural)]
pub struct BasicBlock(u64);

impl BasicBlock {
    /// The raw handle this identifier stands for.
    pub closed spec fn view(&self) -> u64 {
        self.0
    }

    pub fn new(basic_block: u64) -> (made: Self)
        ensures
            made@ == basic_block,
    {
        BasicBlock(basic_block)
    }

    pub fn raw(&self) -> (handle: u64)
        ensures
            handle == self@,
    {
        self.0
    }

    /// Two identifiers are the same exactly when their raw handles are.
    pub proof fn lemma_same_handle(a: BasicBlock, b: BasicBlock)
        ensures
            (a@ == b@) == (a == b),
    {
    }
}

/// Identifier of a downstream artifact (a test case, say) that a block's
/// coverage touches. The consumer allocates these; the library only compares
/// and forwards them.
#[derive(Clone, Copy, Debug, PartialEq, Eq, Hash, Structural)]
pub struct ProjectionId(u64);

impl ProjectionId {
    /// The raw handle this identifier stands for.
    pub closed spec fn view(&self) -> u64 {
        self.0
    }

    pub fn new(projection_id: u64) -> (made: Self)
        ensures
            made@ == projection_id,
    {
        ProjectionId(projection_id)
    }

    pub fn raw(&self) -> (handle: u64)
        ensures
            handle == self@,
    {
        self.0
    }

    /// Two identifiers are the same exactly when their raw handles are.
    pub proof fn lemma_same_handle(a: ProjectionId, b: ProjectionId)
        ensures
            (a@ == b@) == (a == b),
    {
    }
}

} // verus!
