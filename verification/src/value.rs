//! The tagged union of immediate and heap-referencing values manipulated by
//! the interpreter, and the callable sum used by the calling convention.

use vstd::prelude::*;
use crate::GcRef;
use crate::VmIndex;

verus! {

/// Index into the machine's symbol table.
pub type Symbol = usize;

/// A value as it sits on the stack, in a global cell or in a heap object's
/// field. `Int` and `Float` are immediate; every other variant is a
/// non-owning reference into the heap, valid only while reachable from a
/// root. `Float` carries the number's bit pattern, so that equality of
/// values is equality of bits.
#[derive(Clone, Copy, Debug, PartialEq, Eq, Structural)]
pub enum Value {
    Int(i64),
    Float(u64),
    String(GcRef),
    Data(GcRef),
    Function(GcRef),
    Closure(GcRef),
    PartialApplication(GcRef),
    Userdata(GcRef),
    Lazy(GcRef),
}

impl Value {
    /// The heap reference this value carries, if any.
    pub open spec fn spec_ref(self) -> Option<GcRef> {
        match self {
            Value::Int(_) => None::<GcRef>,
            Value::Float(_) => None::<GcRef>,
            Value::String(r) => Some(r),
            Value::Data(r) => Some(r),
            Value::Function(r) => Some(r),
            Value::Closure(r) => Some(r),
            Value::PartialApplication(r) => Some(r),
            Value::Userdata(r) => Some(r),
            Value::Lazy(r) => Some(r),
        }
    }

    /// Executable twin of `spec_ref`.
    pub fn value_ref(&self) -> (r: Option<GcRef>)
        ensures
            r == self.spec_ref(),
    {
        match *self {
            Value::Int(_) => None,
            Value::Float(_) => None,
            Value::String(r) => Some(r),
            Value::Data(r) => Some(r),
            Value::Function(r) => Some(r),
            Value::Closure(r) => Some(r),
            Value::PartialApplication(r) => Some(r),
            Value::Userdata(r) => Some(r),
            Value::Lazy(r) => Some(r),
        }
    }
}

/// What a call can enter: a bytecode closure or a native (extern) function.
#[derive(Clone, Copy, Debug, PartialEq, Eq, Structural)]
pub enum Callable {
    Closure(GcRef),
    Extern(GcRef),
}

impl Callable {
    /// The heap reference behind the callable.
    pub open spec fn spec_ref(self) -> GcRef {
        match self {
            Callable::Closure(r) => r,
            Callable::Extern(r) => r,
        }
    }

    /// Executable twin of `spec_ref`.
    pub fn callable_ref(&self) -> (r: GcRef)
        ensures
            r == self.spec_ref(),
    {
        match *self {
            Callable::Closure(r) => r,
            Callable::Extern(r) => r,
        }
    }

    /// The value form of this callable, as it sits on the stack below its
    /// arguments.
    pub open spec fn spec_value(self) -> Value {
        match self {
            Callable::Closure(r) => Value::Closure(r),
            Callable::Extern(r) => Value::Function(r),
        }
    }

    /// Executable twin of `spec_value`.
    pub fn to_value(&self) -> (v: Value)
        ensures
            v == self.spec_value(),
    {
        match *self {
            Callable::Closure(r) => Value::Closure(r),
            Callable::Extern(r) => Value::Function(r),
        }
    }
}

/// Outcome a native function reports to the bridge. On `Error` the native
/// function leaves a message string on top of the stack.
#[derive(Clone, Copy, Debug, PartialEq, Eq, Structural)]
pub enum Status {
    Success,
    Error,
}

/// A global: created once, never removed; its cell may be written only while
/// the defining script still runs.
#[derive(Clone, Copy, Debug)]
pub struct Global {
    pub id: Symbol,
    pub typ: TypeDesc,
    pub value: Value,
}

/// The statically recorded type of a global or a registered native type.
/// The surface language's type system lives outside this core; the core
/// records only the identity it needs to check host lookups and to
/// recognise an IO action.
#[derive(Clone, Copy, Debug, PartialEq, Eq, Structural)]
pub enum TypeDesc {
    Unit,
    Bool,
    Int,
    Float,
    Str,
    Chr,
    /// An IO action; running a module of this type triggers one extra call.
    Io,
    /// A registered native type, by its registration index.
    Named(usize),
}

} // verus!
