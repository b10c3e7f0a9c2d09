//! The compiled-function format the interpreter consumes, and the
//! instruction set it executes. The compiler that produces this format is an
//! external collaborator; the format and its semantics are this core's own.

use vstd::prelude::*;
use crate::VmIndex;
use crate::VmInt;
use crate::VmTag;
use crate::value::Symbol;
use crate::value::TypeDesc;

verus! {

/// One bytecode instruction. Operand meanings are relative to the currently
/// executing frame; see the interpreter for the exact semantics. Stack slots
/// count from the frame's base, `PushFloat` carries the number's bit
/// pattern.
#[derive(Clone, Copy, Debug, PartialEq, Eq, Structural)]
pub enum Instruction {
    /// Duplicate the stack value in the given frame slot.
    Push(VmIndex),
    /// Push an immediate integer.
    PushInt(VmInt),
    /// Push an immediate float, given as its bit pattern.
    PushFloat(u64),
    /// Push the function's string constant with the given index.
    PushString(VmIndex),
    /// Push a global's current value.
    PushGlobal(VmIndex),
    /// Push the executing closure's captured value with the given index.
    PushUpVar(VmIndex),
    /// Call the callable found below the top `n` values.
    Call(VmIndex),
    /// Call in return position, reusing the current frame's stack region.
    TailCall(VmIndex),
    /// Allocate a tagged data structure from the top `n` values.
    Construct(VmTag, VmIndex),
    /// Replace the top data structure by its field with the given index.
    GetField(VmIndex),
    /// Push 1 if the top value is a data structure with the given tag,
    /// otherwise 0; error if it is not a data structure.
    TestTag(VmTag),
    /// Replace the top data structure by all of its fields in order.
    Split,
    /// Continue at the given instruction index.
    Jump(VmIndex),
    /// Pop the top value; continue at the given index unless it is `Int(0)`.
    CJump(VmIndex),
    /// Discard the top `n` values.
    Pop(VmIndex),
    /// Keep the top value, discard the `n` below it.
    Slide(VmIndex),
    /// Pop an integer index and a data structure; push the indexed field.
    GetIndex,
    /// Pop a value, an integer index and a data structure; store the value
    /// into the indexed field.
    SetIndex,
    /// Allocate a closure over the given nested function, capturing the top
    /// `n` values as its upvalues.
    MakeClosure(VmIndex, VmIndex),
    /// Allocate a closure over the given nested function with `n`
    /// placeholder upvalues, for recursive closure groups.
    NewClosure(VmIndex, VmIndex),
    /// Backfill the pre-allocated closure found below the top `n` values by
    /// popping those values in reverse, then remove the closure's own slot.
    CloseClosure(VmIndex),
    /// Pop two integers, push their wrapping sum.
    AddInt,
    /// Pop two integers, push their wrapping difference.
    SubtractInt,
    /// Pop two integers, push their wrapping product.
    MultiplyInt,
    /// Pop two integers, push 1 if the lower one is less, else 0.
    IntLT,
    /// Pop two integers, push 1 if they are equal, else 0.
    IntEQ,
}

/// A compiled function as handed over by the compiler: fully resolved and
/// well-typed. Loading it into the heap turns it into an immutable bytecode
/// object.
#[derive(Debug)]
pub struct CompiledFunction {
    pub id: Symbol,
    pub typ: TypeDesc,
    pub args: VmIndex,
    pub instructions: Vec<Instruction>,
    pub inner_functions: Vec<CompiledFunction>,
    pub strings: Vec<String>,
}

} // verus!
