//! Execution core of a small functional-language runtime: a stack-based
//! bytecode interpreter with a tracing garbage collector and a
//! closure/partial-application calling convention.
//!
//! The surface-language parser, type checker and compiler are external
//! collaborators: they hand this core a compiled function (bytecode plus
//! constant tables), and the core executes it against one shared value
//! stack, one frame stack and one garbage-collected heap.

use vstd::prelude::*;

pub mod value;
pub mod code;
pub mod heap;
pub mod laws;
pub mod machine;
pub mod pretty;
pub mod stack;

verus! {

/// Machine-level integer values manipulated by the interpreter.
pub type VmInt = i64;

/// Index into the value stack, an instruction list or a table.
pub type VmIndex = usize;

/// Tag carried by a data structure value.
pub type VmTag = usize;

/// A reference into the heap: a stable arena index. Valid only while the
/// object it names is kept alive by a root.
#[derive(Clone, Copy, Debug, PartialEq, Eq, Structural, Hash)]
pub struct GcRef {
    pub ix: usize,
}

/// A condition that a well-typed compiled function can never trigger.
/// The type checker upstream guarantees these never occur for valid input;
/// they are reported as errors rather than bringing the process down.
#[derive(Clone, Copy, Debug, PartialEq, Eq, Structural)]
pub enum Fault {
    /// Popping past the current frame's base.
    StackUnderflow,
    /// A stack slot operand out of range.
    SlotRange,
    /// A string, nested-function, global or upvalue index out of range.
    ConstRange,
    /// A data field index out of range.
    FieldRange,
    /// Arithmetic or an indexing operation on mismatched operand kinds.
    KindMismatch,
    /// A closure backfill instruction found no closure to fill.
    ExpectedClosure,
    /// A frame entered with excess arguments lost its excess bundle.
    ExpectedExcess,
    /// Execution was driven while no frame was active.
    NoFrame,
}

/// The errors the core reports. `Message` is the recoverable tier: malformed
/// call targets, native-function failures, duplicate or missing
/// registrations. `OutOfMemory` reports an allocation that failed even after
/// a full collection. `Fault` is the programming-error tier; see [`Fault`].
#[derive(Debug)]
pub enum Error {
    Message(String),
    OutOfMemory,
    Fault(Fault),
}

} // verus!
