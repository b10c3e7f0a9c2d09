//! The calling convention's laws, stated over the resolution and
//! instruction contracts and proved once and for all.

use vstd::prelude::*;
use crate::GcRef;
use crate::VmIndex;
use crate::VmTag;
use crate::heap::Heap;
use crate::heap::HeapObject;
use crate::machine::VM;
use crate::machine::resolves_call;
use crate::machine::spec_callable_args;
use crate::stack::Frame;
use crate::value::Callable;
use crate::value::Value;

verus! {

/// Applying fewer arguments than a callable's arity yields a partial
/// application value capturing the callable and exactly those arguments, in
/// order — and applies no side computation: the frame stack is untouched,
/// so nothing ran.
pub proof fn lemma_under_application_is_partial(
    h: Heap,
    vals: Seq<Value>,
    frames: Seq<Frame>,
    vm2: VM,
    callable: Callable,
    args: VmIndex,
)
    requires
        resolves_call(h, vals, frames, vm2, callable, args),
        args < spec_callable_args(h, callable),
        args < vals.len(),
    ensures
        vm2.stack.frames@ == frames,
        vm2.stack.values@.last() matches Value::PartialApplication(p) && (vm2.heap.obj_at(p)
            matches HeapObject::PartialApp(pd) && pd.function == callable && pd.arguments@
            == vals.skip(vals.len() - args)),
        vm2.stack.values@.len() == vals.len() - args,
{
}

/// Applying the remaining arguments to a partial application later enters
/// exactly the same scope as a single direct call with all the arguments:
/// the same callable, no excess, and an identical frame over the captured
/// arguments followed by the remaining ones, against the same heap. The
/// result of the completed call is therefore the same as that of the
/// direct call.
pub proof fn lemma_partial_application_completes(
    h: Heap,
    prefix_d: Seq<Value>,
    prefix_l: Seq<Value>,
    frames_d: Seq<Frame>,
    frames_l: Seq<Frame>,
    vm_d: VM,
    vm_l: VM,
    callable: Callable,
    p: GcRef,
    caps: Seq<Value>,
    extra: Seq<Value>,
)
    requires
        // the partial application captured the callable and `caps`
        h.obj_at(p) matches HeapObject::PartialApp(pd) && pd.function == callable
            && pd.arguments@ == caps,
        // together, the captured and remaining arguments meet the arity
        caps.len() + extra.len() == spec_callable_args(h, callable),
        caps.len() + extra.len() <= usize::MAX,
        prefix_d.len() + caps.len() + extra.len() <= usize::MAX,
        prefix_l.len() + 1 + caps.len() + extra.len() <= usize::MAX,
        // the direct call: all arguments supplied at once
        resolves_call(
            h,
            prefix_d + caps + extra,
            frames_d,
            vm_d,
            callable,
            (caps.len() + extra.len()) as VmIndex,
        ),
        // the later call: the captured arguments re-expanded ahead of the
        // remaining ones, as the interpreter resolves a partial application
        resolves_call(
            h,
            prefix_l.push(Value::PartialApplication(p)) + caps + extra,
            frames_l,
            vm_l,
            callable,
            (caps.len() + extra.len()) as VmIndex,
        ),
    ensures
        vm_d.heap == h,
        vm_l.heap == h,
        vm_d.stack.frames@.len() == frames_d.len() + 1,
        vm_l.stack.frames@.len() == frames_l.len() + 1,
        vm_d.stack.frames@.last().function == Some(callable),
        vm_l.stack.frames@.last().function == Some(callable),
        !vm_d.stack.frames@.last().excess,
        !vm_l.stack.frames@.last().excess,
        vm_d.stack.frame_view() == caps + extra,
        vm_l.stack.frame_view() == caps + extra,
        vm_d.stack.frame_view() == vm_l.stack.frame_view(),
{
    let n = (caps.len() + extra.len()) as VmIndex;
    let vals_d = prefix_d + caps + extra;
    let vals_l = prefix_l.push(Value::PartialApplication(p)) + caps + extra;
    assert(vm_d.stack.values@ == vals_d);
    assert(vm_l.stack.values@ == vals_l);
    assert(vm_d.stack.frames@.last().offset == vals_d.len() - n);
    assert(vm_l.stack.frames@.last().offset == vals_l.len() - n);
    assert(vm_d.stack.frame_view() =~= caps + extra);
    assert(vm_l.stack.frame_view() =~= caps + extra);
}

/// Round-trip: constructing a data value with tag `T` and fields `F`, then
/// reading its `i`-th field, returns `F[i]` unchanged, for every `i`. The
/// hypotheses are exactly the contracts of [`VM::construct`] and
/// [`VM::get_field`] for two consecutive successful steps.
pub proof fn lemma_construct_get_field_round_trip(
    vm1: VM,
    vm2: VM,
    vm3: VM,
    tag: VmTag,
    n: VmIndex,
    i: VmIndex,
)
    requires
        n <= vm1.stack.values@.len(),
        // the state after `construct(tag, n)` succeeded
        vm2.stack.values@.len() == vm1.stack.values@.len() - n + 1,
        vm2.stack.values@.last() matches Value::Data(d) && (vm2.heap.obj_at(d)
            matches HeapObject::Data(ds) && ds.tag == tag && ds.fields@
            == vm1.stack.values@.skip(vm1.stack.values@.len() - n)),
        // the heap is unchanged between the two steps
        vm3.heap == vm2.heap,
        i < n,
        // the state after `get_field(i)` succeeded
        vm2.stack.values@.last() matches Value::Data(d) && vm3.stack.values@
            == vm2.stack.values@.drop_last().push(vm2.heap.obj_at(d)->Data_0.fields@[i as int]),
    ensures
        vm3.stack.values@.last() == vm1.stack.values@[vm1.stack.values@.len() - n + i],
{
    let d = vm2.stack.values@.last()->Data_0;
    let fields = vm2.heap.obj_at(d)->Data_0.fields@;
    assert(fields[i as int] == vm1.stack.values@[vm1.stack.values@.len() - n + i]);
}

} // verus!
