//! The virtual machine: one heap, one value stack, one frame stack, the
//! global table, the symbol table and the string interner, driven by the
//! bytecode interpreter loop and the calling convention.

use vstd::prelude::*;
use vstd::std_specs::iter::IteratorSpec;
use crate::Error;
use crate::Fault;
use crate::GcRef;
use crate::VmIndex;
use crate::VmInt;
use crate::VmTag;
use crate::code::CompiledFunction;
use crate::code::Instruction;
use crate::heap::BytecodeFunction;
use crate::heap::ClosureData;
use crate::heap::DataStruct;
use crate::heap::ExternFunction;
use crate::heap::Heap;
use crate::heap::HeapKind;
use crate::heap::HeapObject;
use crate::heap::PartialApplicationData;
use crate::heap::Userdata_;
use crate::heap::obj_has_edge;
use crate::heap::seq_has_ref;
use crate::stack::Frame;
use crate::stack::Stack;
use crate::value::Callable;
use crate::value::Global;
use crate::value::Status;
use crate::value::Symbol;
use crate::value::TypeDesc;
use crate::value::Value;

verus! {

broadcast use vstd::string::group_string_axioms;

/// Heap capacity, in objects, of a machine made by [`VM::new`].
pub const DEFAULT_HEAP_CAPACITY: usize = 1048576;

/// Whether some global's cell carries the reference `q`.
pub open spec fn globals_have_ref(gs: Seq<Global>, q: GcRef) -> bool {
    exists|i: int| 0 <= i < gs.len() && #[trigger] gs[i].value.spec_ref() == Some(q)
}

/// Whether every entry of `roots` is held by one of the machine's root
/// sources.
pub open spec fn roots_cover(vm: VM, roots: Seq<GcRef>) -> bool {
    forall|k: int| 0 <= k < roots.len() ==> vm.vm_rooted(#[trigger] roots[k])
}

/// Whether some frame's callable is the reference `q`.
pub open spec fn frames_have_ref(fs: Seq<Frame>, q: GcRef) -> bool {
    exists|i: int|
        0 <= i < fs.len() && ((#[trigger] fs[i].function) matches Some(c) && c.spec_ref() == q)
}

/// The whole VM state.
pub struct VM {
    pub heap: Heap,
    pub stack: Stack,
    pub globals: Vec<Global>,
    pub symbols: Vec<String>,
    pub interner: Vec<GcRef>,
    pub roots: Vec<GcRef>,
    pub rooted_values: Vec<Value>,
    pub type_names: Vec<String>,
}

impl VM {
    /// Whether `q` is held by any root source: a stack slot in use, a
    /// global's cell, an interned string, a pinned handle, a pinned value,
    /// or an active frame's callable. These are exactly the references the
    /// collector starts tracing from.
    pub open spec fn vm_rooted(self, q: GcRef) -> bool {
        ||| seq_has_ref(self.stack.values@, q)
        ||| globals_have_ref(self.globals@, q)
        ||| self.interner@.contains(q)
        ||| self.roots@.contains(q)
        ||| seq_has_ref(self.rooted_values@, q)
        ||| frames_have_ref(self.stack.frames@, q)
    }

    pub open spec fn opt_callable_wf(self, f: Option<Callable>) -> bool {
        match f {
            Option::None => true,
            Option::Some(c) => self.heap.callable_wf(c),
        }
    }

    /// Machine well-formedness: the heap and stack are well formed, and
    /// every value any root source holds is a valid, kind-matched
    /// reference. This is the GC-safety invariant every operation
    /// preserves: nothing the machine holds is ever dangling.
    pub open spec fn wf(self) -> bool {
        &&& self.heap.wf()
        &&& self.stack.wf()
        &&& forall|i: int|
            0 <= i < self.stack.values@.len() ==> self.heap.val_wf(
                #[trigger] self.stack.values@[i],
            )
        &&& forall|i: int|
            0 <= i < self.stack.frames@.len() ==> self.opt_callable_wf(
                (#[trigger] self.stack.frames@[i]).function,
            )
        &&& forall|i: int|
            0 <= i < self.globals@.len() ==> self.heap.val_wf(
                (#[trigger] self.globals@[i]).value,
            ) && self.globals@[i].id < self.symbols@.len()
        &&& forall|i: int|
            0 <= i < self.interner@.len() ==> self.heap.has_kind(
                #[trigger] self.interner@[i],
                HeapKind::KStr,
            )
        &&& forall|i: int| 0 <= i < self.roots@.len() ==> self.heap.live(#[trigger] self.roots@[i])
        &&& forall|i: int|
            0 <= i < self.rooted_values@.len() ==> self.heap.val_wf(
                #[trigger] self.rooted_values@[i],
            )
        &&& forall|i: int, j: int|
            0 <= i < j < self.interner@.len() ==> self.heap.obj_at(
                self.interner@[i],
            )->Str_0@ != self.heap.obj_at(self.interner@[j])->Str_0@
        &&& forall|i: int, j: int|
            0 <= i < j < self.symbols@.len() ==> self.symbols@[i]@ != self.symbols@[j]@
        &&& forall|i: int, j: int|
            0 <= i < j < self.globals@.len() ==> (#[trigger] self.globals@[i]).id != (
            #[trigger] self.globals@[j]).id
    }

    /// A rooted reference is live.
    pub proof fn lemma_rooted_live(self, q: GcRef)
        requires
            self.wf(),
            self.vm_rooted(q),
        ensures
            self.heap.live(q),
    {
        if seq_has_ref(self.stack.values@, q) {
            let i = choose|i: int|
                0 <= i < self.stack.values@.len() && #[trigger] self.stack.values@[i].spec_ref()
                    == Some(q);
            assert(self.heap.val_wf(self.stack.values@[i]));
        } else if globals_have_ref(self.globals@, q) {
            let i = choose|i: int|
                0 <= i < self.globals@.len() && #[trigger] self.globals@[i].value.spec_ref()
                    == Some(q);
            assert(self.heap.val_wf(self.globals@[i].value));
        } else if self.interner@.contains(q) {
            let i = choose|i: int| 0 <= i < self.interner@.len() && self.interner@[i] == q;
            assert(self.heap.has_kind(self.interner@[i], HeapKind::KStr));
        } else if self.roots@.contains(q) {
            let i = choose|i: int| 0 <= i < self.roots@.len() && self.roots@[i] == q;
            assert(self.heap.live(self.roots@[i]));
        } else if seq_has_ref(self.rooted_values@, q) {
            let i = choose|i: int|
                0 <= i < self.rooted_values@.len()
                    && #[trigger] self.rooted_values@[i].spec_ref() == Some(q);
            assert(self.heap.val_wf(self.rooted_values@[i]));
        } else {
            let i = choose|i: int|
                0 <= i < self.stack.frames@.len() && ((
                #[trigger] self.stack.frames@[i].function) matches Some(c) && c.spec_ref() == q);
            assert(self.opt_callable_wf(self.stack.frames@[i].function));
        }
    }

    /// Gather the full root set: every reference held by a root source.
    fn gather_roots(&self) -> (out: Vec<GcRef>)
        requires
            self.wf(),
        ensures
            forall|k: int| 0 <= k < out@.len() ==> self.vm_rooted(#[trigger] out@[k]),
            forall|q: GcRef| #[trigger] self.vm_rooted(q) ==> out@.contains(q),
            forall|k: int| 0 <= k < out@.len() ==> self.heap.live(#[trigger] out@[k]),
    {
        let o0: Vec<GcRef> = Vec::new();
        let o1 = crate::heap::push_value_refs(&self.stack.values, o0);
        let ghost n1 = o1@.len();
        let o2 = push_global_refs(&self.globals, o1);
        let ghost n2 = o2@.len();
        let o3 = crate::heap::push_all_refs(&self.interner, o2);
        let ghost n3 = o3@.len();
        let o4 = crate::heap::push_all_refs(&self.roots, o3);
        let ghost n4 = o4@.len();
        let o5 = crate::heap::push_value_refs(&self.rooted_values, o4);
        let ghost n5 = o5@.len();
        let out = push_frame_refs(&self.stack.frames, o5);
        proof {
            assert forall|k: int| 0 <= k < out@.len() implies self.vm_rooted(
                #[trigger] out@[k],
            ) by {
                let q = out@[k];
                if k < n1 {
                    assert(seq_has_ref(self.stack.values@, q));
                } else if k < n2 {
                    assert(globals_have_ref(self.globals@, q));
                } else if k < n3 {
                    assert(self.interner@.contains(q));
                } else if k < n4 {
                    assert(self.roots@.contains(q));
                } else if k < n5 {
                    assert(seq_has_ref(self.rooted_values@, q));
                } else {
                    assert(frames_have_ref(self.stack.frames@, q));
                }
            }
            assert forall|q: GcRef| #[trigger] self.vm_rooted(q) implies out@.contains(q) by {
                if seq_has_ref(self.stack.values@, q) {
                    let m = choose|m: int|
                        0 <= m < self.stack.values@.len()
                            && #[trigger] self.stack.values@[m].spec_ref() == Some(q);
                    let i = choose|i: int| 0 <= i < o1@.len() && o1@[i] == q;
                    assert(out@[i] == q);
                } else if globals_have_ref(self.globals@, q) {
                    let i = choose|i: int| 0 <= i < o2@.len() && o2@[i] == q;
                    assert(out@[i] == q);
                } else if self.interner@.contains(q) {
                    let i = choose|i: int| 0 <= i < o3@.len() && o3@[i] == q;
                    assert(out@[i] == q);
                } else if self.roots@.contains(q) {
                    let i = choose|i: int| 0 <= i < o4@.len() && o4@[i] == q;
                    assert(out@[i] == q);
                } else if seq_has_ref(self.rooted_values@, q) {
                    let i = choose|i: int| 0 <= i < o5@.len() && o5@[i] == q;
                    assert(out@[i] == q);
                } else if frames_have_ref(self.stack.frames@, q) {
                    assert(out@.contains(q));
                }
            }
            assert forall|k: int| 0 <= k < out@.len() implies self.heap.live(
                #[trigger] out@[k],
            ) by {
                self.lemma_rooted_live(out@[k]);
            }
        }
        out
    }

    /// Explicit synchronous collection over the full root set.
    pub fn collect(&mut self)
        requires
            old(self).wf(),
        ensures
            final(self).wf(),
            final(self).stack == old(self).stack,
            final(self).globals == old(self).globals,
            final(self).symbols == old(self).symbols,
            final(self).interner == old(self).interner,
            final(self).roots == old(self).roots,
            final(self).rooted_values == old(self).rooted_values,
            final(self).type_names == old(self).type_names,
            forall|q: GcRef|
                #[trigger] old(self).vm_rooted(q) ==> final(self).heap.live(q) && final(self).heap.obj_at(q) == old(self).heap.obj_at(q),
            forall|i: int| #[trigger] final(self).heap.live_ix(i) ==> old(self).heap.live_ix(i)
                && final(self).heap.objects@[i] == old(self).heap.objects@[i],
            // completeness: everything retained was reachable from the
            // machine's root sources
            exists|roots: Seq<GcRef>|
                #[trigger] roots_cover(*old(self), roots) && (forall|i: int|
                    #[trigger] final(self).heap.live_ix(i) ==> crate::heap::reachable(
                        old(self).heap,
                        roots,
                        (GcRef { ix: i as usize }),
                    )),
    {
        let roots = self.gather_roots();
        let ghost h1 = self.heap;
        self.heap.collect(&roots);
        proof {
            let h2 = self.heap;
            assert forall|q: GcRef| #[trigger] old(self).vm_rooted(q) implies h2.live(q)
                && h2.obj_at(q) == h1.obj_at(q) by {
                assert(roots@.contains(q));
                let j = choose|j: int| 0 <= j < roots@.len() && roots@[j] == q;
                assert(h2.live(roots@[j]));
            }
            lemma_wf_preserved(*old(self), *self);
            assert(roots_cover(*old(self), roots@));
        }
    }

    /// Allocate a heap object, collecting over the full root set if the
    /// heap is at capacity. Everything any root source holds survives
    /// unchanged; the fresh reference aliases none of it.
    fn vm_alloc(&mut self, obj: HeapObject) -> (r: Result<GcRef, Error>)
        requires
            old(self).wf(),
            old(self).heap.obj_wf(obj),
        ensures
            final(self).wf(),
            final(self).stack == old(self).stack,
            final(self).globals == old(self).globals,
            final(self).symbols == old(self).symbols,
            final(self).interner == old(self).interner,
            final(self).roots == old(self).roots,
            final(self).rooted_values == old(self).rooted_values,
            final(self).type_names == old(self).type_names,
            match r {
                Ok(r) => {
                    &&& final(self).heap.live(r)
                    &&& final(self).heap.obj_at(r) == obj
                    &&& forall|q: GcRef|
                        #[trigger] old(self).vm_rooted(q) ==> final(self).heap.live(q) && final(self).heap.obj_at(q) == old(self).heap.obj_at(q) && q != r
                    &&& forall|e: GcRef|
                        #[trigger] obj_has_edge(obj, e) ==> final(self).heap.live(e) && final(self).heap.obj_at(e) == old(self).heap.obj_at(e) && e != r
                    &&& forall|i: int|
                        #[trigger] final(self).heap.live_ix(i) && i != r.ix as int ==> old(self).heap.live_ix(i) && final(self).heap.objects@[i] == old(self).heap.objects@[i]
                },
                Err(e) => {
                    &&& e is OutOfMemory
                    &&& final(self).heap.live == final(self).heap.capacity
                    &&& forall|q: GcRef|
                        #[trigger] old(self).vm_rooted(q) ==> final(self).heap.live(q) && final(self).heap.obj_at(q) == old(self).heap.obj_at(q)
                },
            },
            old(self).heap.live < old(self).heap.capacity ==> r is Ok,
    {
        let roots = self.gather_roots();
        let ghost h1 = self.heap;
        let res = self.heap.allocate(&roots, obj);
        proof {
            let h2 = self.heap;
            match res {
                Ok(r) => {
                    assert forall|q: GcRef| #[trigger] old(self).vm_rooted(q) implies h2.live(q)
                        && h2.obj_at(q) == h1.obj_at(q) && q != r by {
                        assert(roots@.contains(q));
                        let j = choose|j: int| 0 <= j < roots@.len() && roots@[j] == q;
                        assert(h2.live(roots@[j]));
                    }
                }
                Err(_) => {
                    assert forall|q: GcRef| #[trigger] old(self).vm_rooted(q) implies h2.live(q)
                        && h2.obj_at(q) == h1.obj_at(q) by {
                        assert(roots@.contains(q));
                        let j = choose|j: int| 0 <= j < roots@.len() && roots@[j] == q;
                        assert(h2.live(roots@[j]));
                    }
                }
            }
            lemma_wf_preserved(*old(self), *self);
        }
        res
    }
}

/// Extend `work` with every reference held in a global's cell.
fn push_global_refs(gs: &Vec<Global>, work: Vec<GcRef>) -> (out: Vec<GcRef>)
    ensures
        out@.len() >= work@.len(),
        forall|k: int| 0 <= k < work@.len() ==> out@[k] == work@[k],
        forall|k: int|
            #![trigger out@[k]]
            work@.len() <= k < out@.len() ==> globals_have_ref(gs@, out@[k]),
        forall|q: GcRef| #[trigger] globals_have_ref(gs@, q) ==> out@.contains(q),
{
    let mut out = work;
    let ghost orig = out@;
    let n = gs.len();
    let mut m: usize = 0;
    while m < n
        invariant
            n == gs@.len(),
            m <= n,
            out@.len() >= orig.len(),
            forall|k: int| 0 <= k < orig.len() ==> out@[k] == orig[k],
            forall|k: int|
                #![trigger out@[k]]
                orig.len() <= k < out@.len() ==> globals_have_ref(gs@, out@[k]),
            forall|mm: int|
                0 <= mm < m && (#[trigger] gs@[mm]).value.spec_ref() is Some ==> out@.contains(
                    gs@[mm].value.spec_ref()->0,
                ),
        decreases n - m,
    {
        let ghost prev = out@;
        match gs[m].value.value_ref() {
            Some(r) => {
                out.push(r);
                proof {
                    assert(globals_have_ref(gs@, r)) by {
                        assert(gs@[m as int].value.spec_ref() == Some(r));
                    }
                    assert forall|mm: int|
                        0 <= mm < m + 1 && (#[trigger] gs@[mm]).value.spec_ref() is Some implies
                        out@.contains(gs@[mm].value.spec_ref()->0) by {
                        if mm < m {
                            let i = choose|i: int|
                                0 <= i < prev.len() && prev[i] == gs@[mm].value.spec_ref()->0;
                            assert(out@[i] == gs@[mm].value.spec_ref()->0);
                        } else {
                            assert(out@[out@.len() - 1] == gs@[mm].value.spec_ref()->0);
                        }
                    }
                }
            }
            None => {}
        }
        m += 1;
    }
    proof {
        assert forall|q: GcRef| #[trigger] globals_have_ref(gs@, q) implies out@.contains(q) by {
            let i = choose|i: int|
                0 <= i < gs@.len() && #[trigger] gs@[i].value.spec_ref() == Some(q);
        }
    }
    out
}

/// Extend `work` with every active frame's callable reference.
fn push_frame_refs(fs: &Vec<Frame>, work: Vec<GcRef>) -> (out: Vec<GcRef>)
    ensures
        out@.len() >= work@.len(),
        forall|k: int| 0 <= k < work@.len() ==> out@[k] == work@[k],
        forall|k: int|
            #![trigger out@[k]]
            work@.len() <= k < out@.len() ==> frames_have_ref(fs@, out@[k]),
        forall|q: GcRef| #[trigger] frames_have_ref(fs@, q) ==> out@.contains(q),
{
    let mut out = work;
    let ghost orig = out@;
    let n = fs.len();
    let mut m: usize = 0;
    while m < n
        invariant
            n == fs@.len(),
            m <= n,
            out@.len() >= orig.len(),
            forall|k: int| 0 <= k < orig.len() ==> out@[k] == orig[k],
            forall|k: int|
                #![trigger out@[k]]
                orig.len() <= k < out@.len() ==> frames_have_ref(fs@, out@[k]),
            forall|mm: int|
                0 <= mm < m && (#[trigger] fs@[mm]).function is Some ==> out@.contains(
                    fs@[mm].function->0.spec_ref(),
                ),
        decreases n - m,
    {
        let ghost prev = out@;
        match &fs[m].function {
            Some(c) => {
                let r = c.callable_ref();
                out.push(r);
                proof {
                    assert(frames_have_ref(fs@, r)) by {
                        assert((fs@[m as int].function) matches Some(cc) && cc.spec_ref() == r);
                    }
                    assert forall|mm: int|
                        0 <= mm < m + 1 && (#[trigger] fs@[mm]).function is Some implies
                        out@.contains(fs@[mm].function->0.spec_ref()) by {
                        if mm < m {
                            let i = choose|i: int|
                                0 <= i < prev.len() && prev[i] == fs@[mm].function->0.spec_ref();
                            assert(out@[i] == fs@[mm].function->0.spec_ref());
                        } else {
                            assert(out@[out@.len() - 1] == fs@[mm].function->0.spec_ref());
                        }
                    }
                }
            }
            None => {}
        }
        m += 1;
    }
    proof {
        assert forall|q: GcRef| #[trigger] frames_have_ref(fs@, q) implies out@.contains(q) by {
            let i = choose|i: int|
                0 <= i < fs@.len() && ((#[trigger] fs@[i].function) matches Some(c)
                    && c.spec_ref() == q);
            assert(fs@[i].function is Some && fs@[i].function->0.spec_ref() == q);
        }
    }
    out
}

/// If the heap changed but every rooted reference survived with unchanged
/// contents and the heap stayed well formed, the machine is well formed.
proof fn lemma_wf_preserved(vm1: VM, vm2: VM)
    requires
        vm1.wf(),
        vm2.heap.wf(),
        vm2.stack == vm1.stack,
        vm2.globals == vm1.globals,
        vm2.symbols == vm1.symbols,
        vm2.interner == vm1.interner,
        vm2.roots == vm1.roots,
        vm2.rooted_values == vm1.rooted_values,
        forall|q: GcRef|
            #[trigger] vm1.vm_rooted(q) ==> vm2.heap.live(q) && vm2.heap.obj_at(q)
                == vm1.heap.obj_at(q),
    ensures
        vm2.wf(),
{
    assert forall|i: int| 0 <= i < vm2.stack.values@.len() implies vm2.heap.val_wf(
        #[trigger] vm2.stack.values@[i],
    ) by {
        let v = vm2.stack.values@[i];
        assert(vm1.heap.val_wf(v));
        if v.spec_ref() is Some {
            let q = v.spec_ref()->0;
            assert(seq_has_ref(vm1.stack.values@, q)) by {
                assert(vm1.stack.values@[i].spec_ref() == Some(q));
            }
            assert(vm1.vm_rooted(q));
        }
    }
    assert forall|i: int| 0 <= i < vm2.stack.frames@.len() implies vm2.opt_callable_wf(
        (#[trigger] vm2.stack.frames@[i]).function,
    ) by {
        assert(vm1.opt_callable_wf(vm1.stack.frames@[i].function));
        match vm2.stack.frames@[i].function {
            Option::None => {}
            Option::Some(c) => {
                let q = c.spec_ref();
                assert(frames_have_ref(vm1.stack.frames@, q)) by {
                    assert((vm1.stack.frames@[i].function) matches Some(cc) && cc.spec_ref()
                        == q);
                }
                assert(vm1.vm_rooted(q));
            }
        }
    }
    assert forall|i: int| 0 <= i < vm2.globals@.len() implies vm2.heap.val_wf(
        (#[trigger] vm2.globals@[i]).value,
    ) && vm2.globals@[i].id < vm2.symbols@.len() by {
        let v = vm2.globals@[i].value;
        assert(vm1.heap.val_wf(v));
        assert(vm1.globals@[i].id < vm1.symbols@.len());
        if v.spec_ref() is Some {
            let q = v.spec_ref()->0;
            assert(globals_have_ref(vm1.globals@, q)) by {
                assert(vm1.globals@[i].value.spec_ref() == Some(q));
            }
            assert(vm1.vm_rooted(q));
        }
    }
    assert forall|i: int| 0 <= i < vm2.interner@.len() implies vm2.heap.has_kind(
        #[trigger] vm2.interner@[i],
        HeapKind::KStr,
    ) by {
        let q = vm2.interner@[i];
        assert(vm1.heap.has_kind(q, HeapKind::KStr));
        assert(vm1.interner@.contains(q));
        assert(vm1.vm_rooted(q));
    }
    assert forall|i: int| 0 <= i < vm2.roots@.len() implies vm2.heap.live(
        #[trigger] vm2.roots@[i],
    ) by {
        let q = vm2.roots@[i];
        assert(vm1.roots@.contains(q));
        assert(vm1.vm_rooted(q));
    }
    assert forall|i: int| 0 <= i < vm2.rooted_values@.len() implies vm2.heap.val_wf(
        #[trigger] vm2.rooted_values@[i],
    ) by {
        let v = vm2.rooted_values@[i];
        assert(vm1.heap.val_wf(v));
        if v.spec_ref() is Some {
            let q = v.spec_ref()->0;
            assert(seq_has_ref(vm1.rooted_values@, q)) by {
                assert(vm1.rooted_values@[i].spec_ref() == Some(q));
            }
            assert(vm1.vm_rooted(q));
        }
    }
    assert forall|i: int, j: int| 0 <= i < j < vm2.interner@.len() implies vm2.heap.obj_at(
        vm2.interner@[i],
    )->Str_0@ != vm2.heap.obj_at(vm2.interner@[j])->Str_0@ by {
        assert(vm1.interner@.contains(vm1.interner@[i]));
        assert(vm1.interner@.contains(vm1.interner@[j]));
        assert(vm1.vm_rooted(vm1.interner@[i]));
        assert(vm1.vm_rooted(vm1.interner@[j]));
        assert(vm2.heap.obj_at(vm2.interner@[i]) == vm1.heap.obj_at(vm1.interner@[i]));
        assert(vm2.heap.obj_at(vm2.interner@[j]) == vm1.heap.obj_at(vm1.interner@[j]));
    }
}


/// Copy a sequence of values (values are plain copies).
fn clone_values(vals: &Vec<Value>) -> (out: Vec<Value>)
    ensures
        out@ == vals@,
{
    let mut out: Vec<Value> = Vec::new();
    let n = vals.len();
    let mut i: usize = 0;
    while i < n
        invariant
            n == vals@.len(),
            i <= n,
            out@ == vals@.take(i as int),
        decreases n - i,
    {
        out.push(vals[i]);
        proof {
            assert(out@ =~= vals@.take(i + 1));
        }
        i += 1;
    }
    proof {
        assert(vals@.take(n as int) =~= vals@);
    }
    out
}

/// Character-for-character string equality.
fn str_eq(a: &str, b: &str) -> (r: bool)
    ensures
        r == (a@ == b@),
{
    let sa = a.to_owned();
    let sb = b.to_owned();
    sa == sb
}

impl VM {
    /// Whether a global with this name is defined.
    pub open spec fn global_with_name(self, name: Seq<char>, i: int) -> bool {
        0 <= i < self.globals@.len() && self.symbols@[self.globals@[i].id as int]@ == name
    }

    pub open spec fn has_global(self, name: Seq<char>) -> bool {
        exists|i: int| self.global_with_name(name, i)
    }

    /// Whether a native type with this name is registered.
    pub open spec fn has_type_name(self, name: Seq<char>) -> bool {
        exists|i: int| 0 <= i < self.type_names@.len() && #[trigger] self.type_names@[i]@ == name
    }

    /// A fresh machine with the default heap capacity: an empty heap, an
    /// empty global table, and the top-level scope already entered.
    pub fn new() -> (vm: VM)
        ensures
            vm.wf(),
            vm.stack.values@.len() == 0,
            vm.stack.frames@.len() == 1,
            vm.stack.frames@[0].offset == 0,
            vm.stack.frames@[0].function is None,
            vm.globals@.len() == 0,
            vm.symbols@.len() == 0,
            vm.type_names@.len() == 0,
            vm.heap.live == 0,
            vm.heap.capacity == DEFAULT_HEAP_CAPACITY,
    {
        Self::with_heap_capacity(DEFAULT_HEAP_CAPACITY)
    }

    /// A fresh machine whose heap holds at most `capacity` objects; a small
    /// capacity forces frequent collections.
    pub fn with_heap_capacity(capacity: usize) -> (vm: VM)
        ensures
            vm.wf(),
            vm.stack.values@.len() == 0,
            vm.stack.frames@.len() == 1,
            vm.stack.frames@[0].offset == 0,
            vm.stack.frames@[0].function is None,
            vm.globals@.len() == 0,
            vm.symbols@.len() == 0,
            vm.type_names@.len() == 0,
            vm.heap.live == 0,
            vm.heap.capacity == capacity,
    {
        let mut vm = VM {
            heap: Heap::new(capacity),
            stack: Stack::new(),
            globals: Vec::new(),
            symbols: Vec::new(),
            interner: Vec::new(),
            roots: Vec::new(),
            rooted_values: Vec::new(),
            type_names: Vec::new(),
        };
        vm.stack.frame(0, None);
        vm
    }

    /// Push a value onto the current frame.
    pub fn push(&mut self, v: Value)
        requires
            old(self).wf(),
            old(self).heap.val_wf(v),
        ensures
            final(self).wf(),
            final(self).stack.values@ == old(self).stack.values@.push(v),
            final(self).stack.frames@ == old(self).stack.frames@,
            final(self).heap == old(self).heap,
            final(self).globals == old(self).globals,
            final(self).symbols == old(self).symbols,
            final(self).interner == old(self).interner,
            final(self).roots == old(self).roots,
            final(self).rooted_values == old(self).rooted_values,
            final(self).type_names == old(self).type_names,
    {
        self.stack.push(v);
        proof {
            assert forall|i: int| 0 <= i < self.stack.values@.len() implies self.heap.val_wf(
                #[trigger] self.stack.values@[i],
            ) by {
                if i < old(self).stack.values@.len() {
                    assert(old(self).heap.val_wf(old(self).stack.values@[i]));
                }
            }
        }
    }

    /// Pop the top value of the current frame.
    pub fn pop(&mut self) -> (v: Value)
        requires
            old(self).wf(),
            old(self).stack.frame_len() > 0,
        ensures
            final(self).wf(),
            v == old(self).stack.values@.last(),
            final(self).heap.val_wf(v),
            final(self).stack.values@ == old(self).stack.values@.drop_last(),
            final(self).stack.frames@ == old(self).stack.frames@,
            final(self).heap == old(self).heap,
            final(self).globals == old(self).globals,
            final(self).symbols == old(self).symbols,
            final(self).interner == old(self).interner,
            final(self).roots == old(self).roots,
            final(self).rooted_values == old(self).rooted_values,
            final(self).type_names == old(self).type_names,
    {
        let v = self.stack.pop();
        proof {
            assert(old(self).heap.val_wf(old(self).stack.values@.last()));
        }
        v
    }

    /// Read the top value of the current frame.
    pub fn top(&self) -> (v: Value)
        requires
            self.wf(),
            self.stack.frame_len() > 0,
        ensures
            v == self.stack.values@.last(),
            self.heap.val_wf(v),
    {
        let v = self.stack.top();
        proof {
            assert(self.heap.val_wf(
                self.stack.values@[self.stack.values@.len() - 1],
            ));
        }
        v
    }

    /// The current frame record.
    pub fn current_frame(&self) -> (f: Frame)
        requires
            self.stack.frames@.len() > 0,
        ensures
            f == self.stack.frames@.last(),
    {
        self.stack.current_frame()
    }

    /// Look a name up in the symbol table without interning it.
    pub fn find_symbol(&self, name: &str) -> (r: Option<Symbol>)
        ensures
            match r {
                Some(s) => s < self.symbols@.len() && self.symbols@[s as int]@ == name@,
                None => forall|i: int|
                    0 <= i < self.symbols@.len() ==> self.symbols@[i]@ != name@,
            },
    {
        let n = self.symbols.len();
        let mut i: usize = 0;
        while i < n
            invariant
                n == self.symbols@.len(),
                i <= n,
                forall|j: int| 0 <= j < i ==> self.symbols@[j]@ != name@,
            decreases n - i,
        {
            if str_eq(self.symbols[i].as_str(), name) {
                return Some(i);
            }
            i += 1;
        }
        None
    }

    /// Intern a name in the symbol table.
    pub fn symbol(&mut self, name: &str) -> (s: Symbol)
        requires
            old(self).wf(),
        ensures
            final(self).wf(),
            s < final(self).symbols@.len(),
            final(self).symbols@[s as int]@ == name@,
            final(self).symbols@.len() >= old(self).symbols@.len(),
            forall|i: int|
                0 <= i < old(self).symbols@.len() ==> final(self).symbols@[i] == old(self).symbols@[i],
            old(self).has_global(name@) == final(self).has_global(name@),
            final(self).heap == old(self).heap,
            final(self).stack == old(self).stack,
            final(self).globals == old(self).globals,
            final(self).interner == old(self).interner,
            final(self).roots == old(self).roots,
            final(self).rooted_values == old(self).rooted_values,
            final(self).type_names == old(self).type_names,
    {
        match self.find_symbol(name) {
            Some(s) => s,
            None => {
                let s = self.symbols.len();
                self.symbols.push(name.to_owned());
                proof {
                    assert forall|i: int, j: int|
                        0 <= i < j < self.symbols@.len() implies self.symbols@[i]@
                        != self.symbols@[j]@ by {
                        if j < old(self).symbols@.len() {
                            assert(old(self).symbols@[i]@ != old(self).symbols@[j]@);
                        } else {
                            assert(old(self).symbols@[i]@ != name@);
                        }
                    }
                    if old(self).has_global(name@) {
                        let i = choose|i: int| old(self).global_with_name(name@, i);
                        assert(self.global_with_name(name@, i));
                    }
                    if self.has_global(name@) {
                        let i = choose|i: int| self.global_with_name(name@, i);
                        assert(old(self).global_with_name(name@, i));
                    }
                }
                s
            }
        }
    }

    /// The text of a symbol.
    pub fn symbol_string(&self, s: Symbol) -> (r: String)
        requires
            s < self.symbols@.len(),
        ensures
            r@ == self.symbols@[s as int]@,
    {
        self.symbols[s].clone()
    }
}


impl VM {
    /// Intern a string in the heap: repeated interning of equal text
    /// yields the same reference. Interned strings are roots.
    pub fn intern(&mut self, s: &str) -> (r: Result<GcRef, Error>)
        requires
            old(self).wf(),
        ensures
            final(self).wf(),
            final(self).stack == old(self).stack,
            final(self).globals == old(self).globals,
            final(self).symbols == old(self).symbols,
            final(self).roots == old(self).roots,
            final(self).rooted_values == old(self).rooted_values,
            final(self).type_names == old(self).type_names,
            match r {
                Ok(r) => {
                    &&& final(self).heap.has_kind(r, HeapKind::KStr)
                    &&& (final(self).heap.obj_at(r) matches HeapObject::Str(st) && st@ == s@)
                    &&& final(self).interner@.contains(r)
                    // repeated interning of equal text yields this same
                    // reference: it is the one entry with this text
                    &&& forall|k: int|
                        0 <= k < final(self).interner@.len() && final(self).heap.obj_at(
                            #[trigger] final(self).interner@[k],
                        )->Str_0@ == s@ ==> final(self).interner@[k] == r
                    &&& forall|q: GcRef|
                        #[trigger] old(self).heap.live(q) ==> final(self).heap.live(q) && final(self).heap.obj_at(q) == old(self).heap.obj_at(q)
                },
                Err(e) => e is OutOfMemory && final(self).heap == old(self).heap && final(self).interner == old(self).interner && final(self).heap.live == final(self).heap.capacity,
            },
            old(self).heap.live < old(self).heap.capacity ==> r is Ok,
    {
        let n = self.interner.len();
        let mut i: usize = 0;
        while i < n
            invariant
                self.wf(),
                n == self.interner@.len(),
                i <= n,
                *self == *old(self),
                forall|j: int|
                    0 <= j < i ==> self.heap.obj_at(#[trigger] self.interner@[j])->Str_0@ != s@,
            decreases n - i,
        {
            let r = self.interner[i];
            proof {
                assert(self.heap.has_kind(self.interner@[i as int], HeapKind::KStr));
            }
            let found = match self.heap.obj(r) {
                HeapObject::Str(st) => str_eq(st.as_str(), s),
                _ => vstd::pervasive::unreached(),
            };
            if found {
                proof {
                    assert(self.interner@.contains(r)) by {
                        assert(self.interner@[i as int] == r);
                    }
                }
                return Ok(r);
            }
            i += 1;
        }
        let obj = HeapObject::Str(s.to_owned());
        let r = match self.vm_alloc_raw(obj) {
            Ok(r) => r,
            Err(e) => {
                return Err(e);
            }
        };
        self.interner.push(r);
        proof {
            assert(self.interner@.contains(r)) by {
                assert(self.interner@[self.interner@.len() - 1] == r);
            }
            assert forall|k: int| 0 <= k < self.interner@.len() implies self.heap.has_kind(
                #[trigger] self.interner@[k],
                HeapKind::KStr,
            ) by {
                if k < self.interner@.len() - 1 {
                    assert(old(self).interner@[k] == self.interner@[k]);
                    assert(old(self).heap.live(self.interner@[k]));
                    assert(self.heap.obj_at(self.interner@[k]) == old(self).heap.obj_at(
                        self.interner@[k],
                    ));
                }
            }
            assert forall|k: int, j: int|
                0 <= k < j < self.interner@.len() implies self.heap.obj_at(
                self.interner@[k],
            )->Str_0@ != self.heap.obj_at(self.interner@[j])->Str_0@ by {
                if j < self.interner@.len() - 1 {
                    assert(old(self).heap.live(self.interner@[k]));
                    assert(old(self).heap.live(self.interner@[j]));
                    assert(self.heap.obj_at(self.interner@[k]) == old(self).heap.obj_at(
                        self.interner@[k],
                    ));
                    assert(self.heap.obj_at(self.interner@[j]) == old(self).heap.obj_at(
                        self.interner@[j],
                    ));
                } else {
                    assert(self.interner@[j] == r);
                    assert(old(self).heap.live(self.interner@[k]));
                    assert(self.heap.obj_at(self.interner@[k]) == old(self).heap.obj_at(
                        self.interner@[k],
                    ));
                    assert(old(self).heap.obj_at(self.interner@[k])->Str_0@ != s@);
                }
            }
        }
        Ok(r)
    }

    /// Whether `name` is bound as a global.
    pub fn global_exists(&self, name: &str) -> (r: bool)
        requires
            self.wf(),
        ensures
            r == self.has_global(name@),
    {
        match self.find_symbol(name) {
            None => {
                proof {
                    if self.has_global(name@) {
                        let i = choose|i: int| self.global_with_name(name@, i);
                        assert(self.symbols@[self.globals@[i].id as int]@ == name@);
                    }
                }
                false
            }
            Some(sym) => {
                let n = self.globals.len();
                let mut i: usize = 0;
                while i < n
                    invariant
                        self.wf(),
                        n == self.globals@.len(),
                        i <= n,
                        sym < self.symbols@.len(),
                        self.symbols@[sym as int]@ == name@,
                        forall|j: int| 0 <= j < i ==> (#[trigger] self.globals@[j]).id != sym,
                    decreases n - i,
                {
                    if self.globals[i].id == sym {
                        proof {
                            assert(self.global_with_name(name@, i as int));
                        }
                        return true;
                    }
                    i += 1;
                }
                proof {
                    if self.has_global(name@) {
                        let j = choose|j: int| self.global_with_name(name@, j);
                        // two symbols with the same text are the same index
                        assert(self.symbols@[self.globals@[j].id as int]@ == name@);
                        assert(self.globals@[j].id == sym);
                    }
                }
                false
            }
        }
    }

    /// Bind a global. Fails, changing nothing, exactly when the name is
    /// already bound.
    pub fn define_global(&mut self, name: &str, typ: TypeDesc, value: Value) -> (r: Result<
        (),
        Error,
    >)
        requires
            old(self).wf(),
            old(self).heap.val_wf(value),
        ensures
            final(self).wf(),
            (r is Ok) == !old(self).has_global(name@),
            final(self).heap == old(self).heap,
            final(self).stack == old(self).stack,
            final(self).interner == old(self).interner,
            final(self).roots == old(self).roots,
            final(self).rooted_values == old(self).rooted_values,
            final(self).type_names == old(self).type_names,
            match r {
                Ok(_) => {
                    &&& final(self).globals@.len() == old(self).globals@.len() + 1
                    &&& forall|i: int|
                        0 <= i < old(self).globals@.len() ==> final(self).globals@[i] == old(self).globals@[i]
                    &&& final(self).globals@.last().typ == typ
                    &&& final(self).globals@.last().value == value
                    &&& final(self).symbols@[final(self).globals@.last().id as int]@ == name@
                    &&& final(self).has_global(name@)
                },
                Err(e) => {
                    &&& (e matches Error::Message(m) && m@ == name@ + " is already defined"@)
                    &&& final(self).globals == old(self).globals
                    &&& final(self).symbols == old(self).symbols
                },
            },
    {
        if self.global_exists(name) {
            let mut m = name.to_owned();
            m.append(" is already defined");
            return Err(Error::Message(m));
        }
        let id = self.symbol(name);
        let g = Global { id, typ, value };
        self.globals.push(g);
        proof {
            assert(self.global_with_name(name@, self.globals@.len() - 1));
            assert forall|i: int| 0 <= i < self.globals@.len() implies self.heap.val_wf(
                (#[trigger] self.globals@[i]).value,
            ) && self.globals@[i].id < self.symbols@.len() by {
                if i < self.globals@.len() - 1 {
                    assert(self.globals@[i] == old(self).globals@[i]);
                    assert(old(self).heap.val_wf(old(self).globals@[i].value));
                    assert(old(self).globals@[i].id < old(self).symbols@.len());
                }
            }
            assert forall|i: int, j: int|
                0 <= i < j < self.globals@.len() implies (#[trigger] self.globals@[i]).id != (
            #[trigger] self.globals@[j]).id by {
                if j == self.globals@.len() - 1 {
                    // an old global with the new id would have carried the
                    // new name already
                    if self.globals@[i].id == id {
                        assert(self.global_with_name(name@, i));
                        assert(old(self).global_with_name(name@, i));
                    }
                }
            }
        }
        Ok(())
    }

    /// Read a global by name, checking its statically recorded type. Fails
    /// exactly when the name is unbound or the recorded type differs.
    pub fn get_global(&self, name: &str, typ: TypeDesc) -> (r: Result<Value, Error>)
        requires
            self.wf(),
        ensures
            match r {
                Ok(v) => exists|i: int|
                    #[trigger] self.global_with_name(name@, i) && self.globals@[i].typ == typ
                        && v == self.globals@[i].value && self.heap.val_wf(v),
                Err(e) => {
                    &&& (forall|i: int|
                        #[trigger] self.global_with_name(name@, i) ==> self.globals@[i].typ
                            != typ)
                    &&& (e matches Error::Message(m) && m@ == (if self.has_global(name@) {
                        "Could not retrieve global `"@ + name@
                            + "` as the types did not match"@
                    } else {
                        "Could not retrieve global `"@ + name@ + "`"@
                    }))
                },
            },
    {
        let sym = match self.find_symbol(name) {
            Some(s) => s,
            None => {
                proof {
                    assert forall|i: int| #[trigger] self.global_with_name(name@, i) implies
                        self.globals@[i].typ != typ by {
                        assert(self.symbols@[self.globals@[i].id as int]@ == name@);
                    }
                }
                let mut m = String::from_str("Could not retrieve global `");
                m.append(name);
                m.append("`");
                return Err(Error::Message(m));
            }
        };
        let n = self.globals.len();
        let mut i: usize = 0;
        while i < n
            invariant
                self.wf(),
                n == self.globals@.len(),
                i <= n,
                sym < self.symbols@.len(),
                self.symbols@[sym as int]@ == name@,
                forall|j: int| 0 <= j < i ==> (#[trigger] self.globals@[j]).id != sym,
            decreases n - i,
        {
            if self.globals[i].id == sym {
                proof {
                    assert(self.global_with_name(name@, i as int));
                }
                if self.globals[i].typ == typ {
                    proof {
                        assert(self.heap.val_wf(self.globals@[i as int].value));
                    }
                    return Ok(self.globals[i].value);
                } else {
                    proof {
                        assert forall|j: int| #[trigger] self.global_with_name(name@, j) implies
                            self.globals@[j].typ != typ by {
                            assert(self.symbols@[self.globals@[j].id as int]@ == name@);
                            assert(self.globals@[j].id == sym);
                            if j < i as int {
                            } else if j > i as int {
                                assert(self.globals@[i as int].id != self.globals@[j].id);
                            }
                        }
                    }
                    let mut m = String::from_str("Could not retrieve global `");
                    m.append(name);
                    m.append("` as the types did not match");
                    return Err(Error::Message(m));
                }
            }
            i += 1;
        }
        proof {
            assert forall|j: int| #[trigger] self.global_with_name(name@, j) implies
                self.globals@[j].typ != typ by {
                assert(self.symbols@[self.globals@[j].id as int]@ == name@);
                assert(self.globals@[j].id == sym);
            }
        }
        let mut m = String::from_str("Could not retrieve global `");
        m.append(name);
        m.append("`");
        Err(Error::Message(m))
    }

    /// Register a native type name, giving it a fresh type identity. Fails,
    /// changing nothing, exactly when the name is already registered.
    pub fn register_type(&mut self, name: &str) -> (r: Result<TypeDesc, Error>)
        requires
            old(self).wf(),
        ensures
            final(self).wf(),
            (r is Ok) == !old(self).has_type_name(name@),
            final(self).heap == old(self).heap,
            final(self).stack == old(self).stack,
            final(self).globals == old(self).globals,
            final(self).symbols == old(self).symbols,
            final(self).interner == old(self).interner,
            final(self).roots == old(self).roots,
            final(self).rooted_values == old(self).rooted_values,
            match r {
                Ok(t) => {
                    &&& t == TypeDesc::Named(old(self).type_names@.len() as usize)
                    &&& final(self).type_names@.len() == old(self).type_names@.len() + 1
                    &&& final(self).type_names@[old(self).type_names@.len() as int]@ == name@
                    &&& forall|i: int|
                        0 <= i < old(self).type_names@.len() ==> final(self).type_names@[i]
                            == old(self).type_names@[i]
                    &&& final(self).has_type_name(name@)
                },
                Err(e) => (e matches Error::Message(m) && m@ == "Type '"@ + name@
                    + "' has already been registered"@) && final(self).type_names == old(self).type_names,
            },
    {
        let n = self.type_names.len();
        let mut i: usize = 0;
        while i < n
            invariant
                self.wf(),
                n == self.type_names@.len(),
                i <= n,
                forall|j: int| 0 <= j < i ==> self.type_names@[j]@ != name@,
                *self == *old(self),
            decreases n - i,
        {
            if str_eq(self.type_names[i].as_str(), name) {
                proof {
                    assert(self.has_type_name(name@)) by {
                        assert(self.type_names@[i as int]@ == name@);
                    }
                }
                let mut m = String::from_str("Type '");
                m.append(name);
                m.append("' has already been registered");
                return Err(Error::Message(m));
            }
            i += 1;
        }
        self.type_names.push(name.to_owned());
        proof {
            assert(self.has_type_name(name@)) by {
                assert(self.type_names@[n as int]@ == name@);
            }
            if old(self).has_type_name(name@) {
                let i = choose|i: int|
                    0 <= i < old(self).type_names@.len() && #[trigger] old(self).type_names@[i]@ == name@;
                assert(false);
            }
        }
        Ok(TypeDesc::Named(n))
    }

    /// Look up a registered native type by name.
    pub fn get_type(&self, name: &str) -> (r: Option<TypeDesc>)
        ensures
            match r {
                Some(t) => exists|i: int|
                    0 <= i < self.type_names@.len() && #[trigger] self.type_names@[i]@ == name@
                        && t == TypeDesc::Named(i as usize),
                None => !self.has_type_name(name@),
            },
    {
        let n = self.type_names.len();
        let mut i: usize = 0;
        while i < n
            invariant
                n == self.type_names@.len(),
                i <= n,
                forall|j: int| 0 <= j < i ==> self.type_names@[j]@ != name@,
            decreases n - i,
        {
            if str_eq(self.type_names[i].as_str(), name) {
                return Some(TypeDesc::Named(i));
            }
            i += 1;
        }
        None
    }

    /// Allocate a tagged data structure from the given field values.
    pub fn new_data(&mut self, tag: VmTag, fields: &Vec<Value>) -> (r: Result<Value, Error>)
        requires
            old(self).wf(),
            forall|k: int| 0 <= k < fields@.len() ==> old(self).heap.val_wf(#[trigger] fields@[k]),
        ensures
            final(self).wf(),
            final(self).stack == old(self).stack,
            final(self).globals == old(self).globals,
            final(self).symbols == old(self).symbols,
            final(self).interner == old(self).interner,
            final(self).roots == old(self).roots,
            final(self).rooted_values == old(self).rooted_values,
            final(self).type_names == old(self).type_names,
            match r {
                Ok(v) => {
                    &&& v matches Value::Data(d) && (final(self).heap.obj_at(d)
                        matches HeapObject::Data(ds) && ds.tag == tag && ds.fields@ == fields@)
                    &&& final(self).heap.val_wf(v)
                    &&& forall|q: GcRef|
                        #[trigger] old(self).heap.live(q) ==> final(self).heap.live(q) && final(self).heap.obj_at(q) == old(self).heap.obj_at(q)
                },
                Err(e) => e is OutOfMemory,
            },
            old(self).heap.live < old(self).heap.capacity ==> r is Ok,
    {
        let obj = HeapObject::Data(DataStruct { tag, fields: clone_values(fields) });
        proof {
            assert(old(self).heap.obj_wf(obj));
        }
        match self.vm_alloc_raw(obj) {
            Ok(r) => Ok(Value::Data(r)),
            Err(e) => Err(e),
        }
    }
}


impl VM {
    /// Allocate without collecting: used while wiring up objects not yet
    /// reachable from a root, and for host-driven allocation. Never frees
    /// anything.
    fn vm_alloc_raw(&mut self, obj: HeapObject) -> (r: Result<GcRef, Error>)
        requires
            old(self).wf(),
            old(self).heap.obj_wf(obj),
        ensures
            final(self).wf(),
            final(self).stack == old(self).stack,
            final(self).globals == old(self).globals,
            final(self).symbols == old(self).symbols,
            final(self).interner == old(self).interner,
            final(self).roots == old(self).roots,
            final(self).rooted_values == old(self).rooted_values,
            final(self).type_names == old(self).type_names,
            final(self).heap.capacity == old(self).heap.capacity,
            match r {
                Ok(r) => {
                    &&& final(self).heap.live(r)
                    &&& final(self).heap.obj_at(r) == obj
                    &&& !old(self).heap.live(r)
                    &&& forall|q: GcRef|
                        #[trigger] old(self).heap.live(q) ==> final(self).heap.live(q) && final(self).heap.obj_at(q) == old(self).heap.obj_at(q) && q != r
                    &&& forall|i: int|
                        #[trigger] final(self).heap.live_ix(i) && i != r.ix as int ==> old(self).heap.live_ix(i)
                    &&& final(self).heap.live == old(self).heap.live + 1
                },
                Err(e) => {
                    &&& e is OutOfMemory
                    &&& final(self).heap == old(self).heap
                    &&& old(self).heap.live == old(self).heap.capacity
                },
            },
            old(self).heap.live < old(self).heap.capacity ==> r is Ok,
    {
        let ghost h1 = self.heap;
        let res = self.heap.allocate_raw(obj);
        proof {
            let h2 = self.heap;
            match res {
                Ok(r) => {
                    assert forall|q: GcRef| #[trigger] h1.live(q) implies h2.live(q)
                        && h2.obj_at(q) == h1.obj_at(q) && q != r by {
                        assert(h2.objects@[q.ix as int] == h1.objects@[q.ix as int]);
                    }
                    assert forall|q: GcRef| #[trigger] old(self).vm_rooted(q) implies h2.live(q)
                        && h2.obj_at(q) == h1.obj_at(q) by {
                        old(self).lemma_rooted_live(q);
                    }
                    lemma_wf_preserved(*old(self), *self);
                }
                Err(_) => {}
            }
        }
        res
    }

    /// Read the current frame's value at `index` from the frame's base.
    pub fn get_slot(&self, index: VmIndex) -> (v: Value)
        requires
            self.wf(),
            index < self.stack.frame_len(),
        ensures
            v == self.stack.values@[self.stack.base() + index],
            self.heap.val_wf(v),
    {
        let v = self.stack.get(index);
        proof {
            assert(self.heap.val_wf(self.stack.values@[self.stack.base() + index]));
        }
        v
    }

    /// Splice values into the current frame at `index` from its base.
    fn vm_insert_slice(&mut self, index: VmIndex, vals: &Vec<Value>)
        requires
            old(self).wf(),
            index <= old(self).stack.frame_len(),
            forall|k: int| 0 <= k < vals@.len() ==> old(self).heap.val_wf(#[trigger] vals@[k]),
        ensures
            final(self).wf(),
            final(self).heap == old(self).heap,
            final(self).globals == old(self).globals,
            final(self).symbols == old(self).symbols,
            final(self).interner == old(self).interner,
            final(self).roots == old(self).roots,
            final(self).rooted_values == old(self).rooted_values,
            final(self).type_names == old(self).type_names,
            final(self).stack.values@ == old(self).stack.values@.take(
                old(self).stack.base() + index,
            ) + vals@ + old(self).stack.values@.skip(old(self).stack.base() + index),
            final(self).stack.frames@.len() == old(self).stack.frames@.len(),
            forall|i: int|
                0 <= i < old(self).stack.frames@.len() ==> #[trigger] final(self).stack.frames@[i] == (if old(self).stack.frames@[i].offset > old(self).stack.base() + index {
                    Frame {
                        offset: (old(self).stack.frames@[i].offset + vals@.len()) as usize,
                        ..old(self).stack.frames@[i]
                    }
                } else {
                    old(self).stack.frames@[i]
                }),
            final(self).stack.base() == old(self).stack.base(),
            final(self).stack.frame_len() == old(self).stack.frame_len() + vals@.len(),
    {
        let ghost pos = self.stack.base() + index;
        self.stack.insert_slice(index, vals);
        proof {
            assert forall|i: int| 0 <= i < self.stack.values@.len() implies self.heap.val_wf(
                #[trigger] self.stack.values@[i],
            ) by {
                if i < pos {
                    assert(self.stack.values@[i] == old(self).stack.values@[i]);
                    assert(old(self).heap.val_wf(old(self).stack.values@[i]));
                } else if i < pos + vals@.len() {
                    assert(self.stack.values@[i] == vals@[i - pos]);
                } else {
                    assert(self.stack.values@[i] == old(self).stack.values@[
                        i - vals@.len()]);
                    assert(old(self).heap.val_wf(old(self).stack.values@[i - vals@.len()]));
                }
            }
            assert forall|i: int| 0 <= i < self.stack.frames@.len() implies self.opt_callable_wf(
                (#[trigger] self.stack.frames@[i]).function,
            ) by {
                assert(old(self).opt_callable_wf(old(self).stack.frames@[i].function));
            }
        }
    }

    /// Remove the current frame's values in `[from, to)` from its base.
    fn vm_remove_range(&mut self, from: VmIndex, to: VmIndex)
        requires
            old(self).wf(),
            from <= to <= old(self).stack.frame_len(),
            forall|i: int|
                0 <= i < old(self).stack.frames@.len() ==> ((#[trigger] old(self).stack.frames@[i]).offset <= old(self).stack.base() + from || old(self).stack.frames@[i].offset >= old(self).stack.base() + to),
        ensures
            final(self).wf(),
            final(self).heap == old(self).heap,
            final(self).globals == old(self).globals,
            final(self).symbols == old(self).symbols,
            final(self).interner == old(self).interner,
            final(self).roots == old(self).roots,
            final(self).rooted_values == old(self).rooted_values,
            final(self).type_names == old(self).type_names,
            final(self).stack.values@ == old(self).stack.values@.take(
                old(self).stack.base() + from,
            ) + old(self).stack.values@.skip(old(self).stack.base() + to),
            final(self).stack.frames@.len() == old(self).stack.frames@.len(),
            forall|i: int|
                0 <= i < old(self).stack.frames@.len() ==> #[trigger] final(self).stack.frames@[i] == (if old(self).stack.frames@[i].offset >= old(self).stack.base() + to {
                    Frame {
                        offset: (old(self).stack.frames@[i].offset - (to - from)) as usize,
                        ..old(self).stack.frames@[i]
                    }
                } else {
                    old(self).stack.frames@[i]
                }),
            final(self).stack.base() == old(self).stack.base(),
            final(self).stack.frame_len() == old(self).stack.frame_len() - (to - from),
    {
        let ghost a = self.stack.base() + from;
        let ghost b = self.stack.base() + to;
        self.stack.remove_range(from, to);
        proof {
            assert forall|i: int| 0 <= i < self.stack.values@.len() implies self.heap.val_wf(
                #[trigger] self.stack.values@[i],
            ) by {
                if i < a {
                    assert(self.stack.values@[i] == old(self).stack.values@[i]);
                    assert(old(self).heap.val_wf(old(self).stack.values@[i]));
                } else {
                    assert(self.stack.values@[i] == old(self).stack.values@[i + (b - a)]);
                    assert(old(self).heap.val_wf(old(self).stack.values@[i + (b - a)]));
                }
            }
            assert forall|i: int| 0 <= i < self.stack.frames@.len() implies self.opt_callable_wf(
                (#[trigger] self.stack.frames@[i]).function,
            ) by {
                assert(old(self).opt_callable_wf(old(self).stack.frames@[i].function));
            }
        }
    }

    /// Enter a scope over the last `args` values of the current frame.
    fn vm_enter_scope(&mut self, args: VmIndex, function: Option<Callable>)
        requires
            old(self).wf(),
            args <= old(self).stack.frame_len(),
            old(self).opt_callable_wf(function),
        ensures
            final(self).wf(),
            final(self).heap == old(self).heap,
            final(self).globals == old(self).globals,
            final(self).symbols == old(self).symbols,
            final(self).interner == old(self).interner,
            final(self).roots == old(self).roots,
            final(self).rooted_values == old(self).rooted_values,
            final(self).type_names == old(self).type_names,
            final(self).stack.values@ == old(self).stack.values@,
            final(self).stack.frames@ == old(self).stack.frames@.push(
                Frame {
                    offset: (old(self).stack.values@.len() - args) as usize,
                    instruction_index: 0,
                    function,
                    excess: false,
                },
            ),
            final(self).stack.frame_len() == args,
    {
        self.stack.enter_scope(args, function);
        proof {
            assert forall|i: int| 0 <= i < self.stack.frames@.len() implies self.opt_callable_wf(
                (#[trigger] self.stack.frames@[i]).function,
            ) by {
                if i < self.stack.frames@.len() - 1 {
                    assert(old(self).opt_callable_wf(old(self).stack.frames@[i].function));
                }
            }
        }
    }

    /// Leave the current scope; `false` means the last frame was exited and
    /// the whole computation is complete.
    fn vm_exit_scope(&mut self) -> (had_parent: bool)
        requires
            old(self).wf(),
            old(self).stack.frames@.len() > 0,
        ensures
            final(self).wf(),
            final(self).heap == old(self).heap,
            final(self).globals == old(self).globals,
            final(self).symbols == old(self).symbols,
            final(self).interner == old(self).interner,
            final(self).roots == old(self).roots,
            final(self).rooted_values == old(self).rooted_values,
            final(self).type_names == old(self).type_names,
            final(self).stack.values@ == old(self).stack.values@,
            final(self).stack.frames@ == old(self).stack.frames@.drop_last(),
            had_parent == (final(self).stack.frames@.len() > 0),
    {
        let had = self.stack.exit_scope();
        proof {
            assert forall|i: int| 0 <= i < self.stack.frames@.len() implies self.opt_callable_wf(
                (#[trigger] self.stack.frames@[i]).function,
            ) by {
                assert(old(self).opt_callable_wf(old(self).stack.frames@[i].function));
            }
        }
        had
    }

    /// Record where the current frame resumes.
    fn vm_set_instruction_index(&mut self, ii: VmIndex)
        requires
            old(self).wf(),
            old(self).stack.frames@.len() > 0,
        ensures
            final(self).wf(),
            final(self).heap == old(self).heap,
            final(self).globals == old(self).globals,
            final(self).symbols == old(self).symbols,
            final(self).interner == old(self).interner,
            final(self).roots == old(self).roots,
            final(self).rooted_values == old(self).rooted_values,
            final(self).type_names == old(self).type_names,
            final(self).stack.values@ == old(self).stack.values@,
            final(self).stack.frames@ == old(self).stack.frames@.update(
                old(self).stack.frames@.len() - 1,
                Frame { instruction_index: ii, ..old(self).stack.frames@.last() },
            ),
            final(self).stack.base() == old(self).stack.base(),
            final(self).stack.frame_len() == old(self).stack.frame_len(),
    {
        self.stack.set_instruction_index(ii);
        proof {
            assert forall|i: int| 0 <= i < self.stack.frames@.len() implies self.opt_callable_wf(
                (#[trigger] self.stack.frames@[i]).function,
            ) by {
                assert(old(self).opt_callable_wf(old(self).stack.frames@[i].function));
                assert(self.stack.frames@[i].function == old(self).stack.frames@[i].function);
            }
        }
    }

    /// Flag the current frame as entered with excess arguments.
    fn vm_set_excess(&mut self, excess: bool)
        requires
            old(self).wf(),
            old(self).stack.frames@.len() > 0,
        ensures
            final(self).wf(),
            final(self).heap == old(self).heap,
            final(self).globals == old(self).globals,
            final(self).symbols == old(self).symbols,
            final(self).interner == old(self).interner,
            final(self).roots == old(self).roots,
            final(self).rooted_values == old(self).rooted_values,
            final(self).type_names == old(self).type_names,
            final(self).stack.values@ == old(self).stack.values@,
            final(self).stack.frames@ == old(self).stack.frames@.update(
                old(self).stack.frames@.len() - 1,
                Frame { excess, ..old(self).stack.frames@.last() },
            ),
            final(self).stack.base() == old(self).stack.base(),
            final(self).stack.frame_len() == old(self).stack.frame_len(),
    {
        self.stack.set_excess(excess);
        proof {
            assert forall|i: int| 0 <= i < self.stack.frames@.len() implies self.opt_callable_wf(
                (#[trigger] self.stack.frames@[i]).function,
            ) by {
                assert(old(self).opt_callable_wf(old(self).stack.frames@[i].function));
                assert(self.stack.frames@[i].function == old(self).stack.frames@[i].function);
            }
        }
    }
}


/// What a driven execution has come to: the computation yielded control
/// back to its caller, suspended awaiting a native (extern) call that the
/// host must perform, or ran out of the step budget it was given.
#[derive(Clone, Copy, Debug, PartialEq, Eq, Structural)]
pub enum Run {
    Done,
    AwaitNative(GcRef),
    OutOfFuel,
}

/// The declared arity of a callable.
pub open spec fn spec_callable_args(h: Heap, c: Callable) -> VmIndex {
    match c {
        Callable::Closure(r) => (h.obj_at(
            h.obj_at(r)->ClosureObj_0.function,
        ))->Code_0.args,
        Callable::Extern(r) => h.obj_at(r)->ExternObj_0.args,
    }
}

impl VM {
    /// The executable length of the current frame.
    fn stack_len(&self) -> (n: usize)
        requires
            self.wf(),
        ensures
            n as int == self.stack.frame_len(),
    {
        self.stack.len()
    }

    /// Read a value at an absolute stack position.
    fn get_value_at(&self, i: usize) -> (v: Value)
        requires
            self.wf(),
            i < self.stack.values@.len(),
        ensures
            v == self.stack.values@[i as int],
            self.heap.val_wf(v),
    {
        proof {
            assert(self.heap.val_wf(self.stack.values@[i as int]));
        }
        self.stack.values[i]
    }

    /// The declared required argument count of a callable: a closure's
    /// bytecode arity, or a native function's declared arity.
    pub fn callable_args(&self, c: Callable) -> (n: VmIndex)
        requires
            self.wf(),
            self.heap.callable_wf(c),
        ensures
            n == spec_callable_args(self.heap, c),
    {
        match c {
            Callable::Closure(r) => {
                let fref = match self.heap.obj(r) {
                    HeapObject::ClosureObj(cd) => cd.function,
                    _ => vstd::pervasive::unreached(),
                };
                proof {
                    assert(self.heap.obj_wf(self.heap.obj_at(r)));
                }
                match self.heap.obj(fref) {
                    HeapObject::Code(b) => b.args,
                    _ => vstd::pervasive::unreached(),
                }
            }
            Callable::Extern(r) => {
                match self.heap.obj(r) {
                    HeapObject::ExternObj(e) => e.args,
                    _ => vstd::pervasive::unreached(),
                }
            }
        }
    }

    /// The name a callable declares, if any.
    pub fn callable_name(&self, c: Callable) -> (n: Option<Symbol>)
        requires
            self.wf(),
            self.heap.callable_wf(c),
        ensures
            match c {
                Callable::Closure(r) => n == (self.heap.obj_at(
                    self.heap.obj_at(r)->ClosureObj_0.function,
                ))->Code_0.name,
                Callable::Extern(r) => n == Some(self.heap.obj_at(r)->ExternObj_0.id),
            },
    {
        match c {
            Callable::Closure(r) => {
                let fref = match self.heap.obj(r) {
                    HeapObject::ClosureObj(cd) => cd.function,
                    _ => vstd::pervasive::unreached(),
                };
                proof {
                    assert(self.heap.obj_wf(self.heap.obj_at(r)));
                }
                match self.heap.obj(fref) {
                    HeapObject::Code(b) => b.name,
                    _ => vstd::pervasive::unreached(),
                }
            }
            Callable::Extern(r) => {
                match self.heap.obj(r) {
                    HeapObject::ExternObj(e) => Some(e.id),
                    _ => vstd::pervasive::unreached(),
                }
            }
        }
    }

    /// Write one field of a live data structure.
    fn vm_set_data_field(&mut self, r: GcRef, i: VmIndex, v: Value)
        requires
            old(self).wf(),
            old(self).heap.has_kind(r, HeapKind::KData),
            old(self).heap.obj_at(r) matches HeapObject::Data(d) && i < d.fields@.len(),
            old(self).heap.val_wf(v),
        ensures
            final(self).wf(),
            final(self).stack == old(self).stack,
            final(self).globals == old(self).globals,
            final(self).symbols == old(self).symbols,
            final(self).interner == old(self).interner,
            final(self).roots == old(self).roots,
            final(self).rooted_values == old(self).rooted_values,
            final(self).type_names == old(self).type_names,
            final(self).heap.obj_at(r) matches HeapObject::Data(d2) && old(self).heap.obj_at(
                r,
            ) matches HeapObject::Data(d) && d2.tag == d.tag && d2.fields@ == d.fields@.update(
                i as int,
                v,
            ),
            forall|q: GcRef| old(self).heap.live(q) <==> final(self).heap.live(q),
            forall|q: GcRef|
                #[trigger] old(self).heap.live(q) && q != r ==> final(self).heap.obj_at(q) == old(self).heap.obj_at(q),
    {
        self.heap.set_data_field(r, i, v);
        proof {
            assert forall|q: GcRef|
                #[trigger] old(self).heap.live(q) && q != r implies final(self).heap.obj_at(q)
                == old(self).heap.obj_at(q) by {
                assert(final(self).heap.objects@[q.ix as int] == old(self).heap.objects@[
                    q.ix as int]);
            }
            crate::heap::lemma_val_wf_same_kinds(old(self).heap, self.heap);
            assert forall|i2: int|
                0 <= i2 < self.stack.values@.len() implies self.heap.val_wf(
                #[trigger] self.stack.values@[i2],
            ) by {
                assert(old(self).heap.val_wf(old(self).stack.values@[i2]));
            }
            assert forall|i2: int|
                0 <= i2 < self.stack.frames@.len() implies self.opt_callable_wf(
                (#[trigger] self.stack.frames@[i2]).function,
            ) by {
                assert(old(self).opt_callable_wf(old(self).stack.frames@[i2].function));
            }
            assert forall|i2: int| 0 <= i2 < self.globals@.len() implies self.heap.val_wf(
                (#[trigger] self.globals@[i2]).value,
            ) && self.globals@[i2].id < self.symbols@.len() by {
                assert(old(self).heap.val_wf(old(self).globals@[i2].value));
                assert(old(self).globals@[i2].id < old(self).symbols@.len());
            }
            assert forall|i2: int| 0 <= i2 < self.interner@.len() implies self.heap.has_kind(
                #[trigger] self.interner@[i2],
                HeapKind::KStr,
            ) by {
                assert(old(self).heap.has_kind(old(self).interner@[i2], HeapKind::KStr));
            }
            assert forall|i2: int| 0 <= i2 < self.rooted_values@.len() implies self.heap.val_wf(
                #[trigger] self.rooted_values@[i2],
            ) by {
                assert(old(self).heap.val_wf(old(self).rooted_values@[i2]));
            }
        }
    }

    /// Backfill one upvalue of a live closure.
    fn vm_set_closure_upvar(&mut self, r: GcRef, i: VmIndex, v: Value)
        requires
            old(self).wf(),
            old(self).heap.has_kind(r, HeapKind::KClosure),
            old(self).heap.obj_at(r) matches HeapObject::ClosureObj(c) && i < c.upvars@.len(),
            old(self).heap.val_wf(v),
        ensures
            final(self).wf(),
            final(self).stack == old(self).stack,
            final(self).globals == old(self).globals,
            final(self).symbols == old(self).symbols,
            final(self).interner == old(self).interner,
            final(self).roots == old(self).roots,
            final(self).rooted_values == old(self).rooted_values,
            final(self).type_names == old(self).type_names,
            final(self).heap.obj_at(r) matches HeapObject::ClosureObj(c2) && old(self).heap.obj_at(r) matches HeapObject::ClosureObj(c) && c2.function == c.function
                && c2.upvars@ == c.upvars@.update(i as int, v),
            forall|q: GcRef| old(self).heap.live(q) <==> final(self).heap.live(q),
            forall|q: GcRef|
                #[trigger] old(self).heap.live(q) && q != r ==> final(self).heap.obj_at(q) == old(self).heap.obj_at(q),
    {
        self.heap.set_closure_upvar(r, i, v);
        proof {
            assert forall|q: GcRef|
                #[trigger] old(self).heap.live(q) && q != r implies final(self).heap.obj_at(q)
                == old(self).heap.obj_at(q) by {
                assert(final(self).heap.objects@[q.ix as int] == old(self).heap.objects@[
                    q.ix as int]);
            }
            crate::heap::lemma_val_wf_same_kinds(old(self).heap, self.heap);
            assert forall|i2: int|
                0 <= i2 < self.stack.values@.len() implies self.heap.val_wf(
                #[trigger] self.stack.values@[i2],
            ) by {
                assert(old(self).heap.val_wf(old(self).stack.values@[i2]));
            }
            assert forall|i2: int|
                0 <= i2 < self.stack.frames@.len() implies self.opt_callable_wf(
                (#[trigger] self.stack.frames@[i2]).function,
            ) by {
                assert(old(self).opt_callable_wf(old(self).stack.frames@[i2].function));
            }
            assert forall|i2: int| 0 <= i2 < self.globals@.len() implies self.heap.val_wf(
                (#[trigger] self.globals@[i2]).value,
            ) && self.globals@[i2].id < self.symbols@.len() by {
                assert(old(self).heap.val_wf(old(self).globals@[i2].value));
                assert(old(self).globals@[i2].id < old(self).symbols@.len());
            }
            assert forall|i2: int| 0 <= i2 < self.interner@.len() implies self.heap.has_kind(
                #[trigger] self.interner@[i2],
                HeapKind::KStr,
            ) by {
                assert(old(self).heap.has_kind(old(self).interner@[i2], HeapKind::KStr));
            }
            assert forall|i2: int| 0 <= i2 < self.rooted_values@.len() implies self.heap.val_wf(
                #[trigger] self.rooted_values@[i2],
            ) by {
                assert(old(self).heap.val_wf(old(self).rooted_values@[i2]));
            }
        }
    }
}


impl VM {
    /// Copy the top `n` values of the current frame, in stack order.
    fn top_values(&self, n: VmIndex) -> (out: Vec<Value>)
        requires
            self.wf(),
            n <= self.stack.frame_len(),
        ensures
            out@ == self.stack.values@.skip(self.stack.values@.len() - n),
            forall|k: int| 0 <= k < out@.len() ==> self.heap.val_wf(#[trigger] out@[k]),
    {
        let flen = self.stack_len();
        let mut out: Vec<Value> = Vec::new();
        let mut k: usize = 0;
        while k < n
            invariant
                self.wf(),
                n <= flen,
                flen as int == self.stack.frame_len(),
                k <= n,
                out@ == self.stack.values@.subrange(
                    self.stack.values@.len() - n,
                    self.stack.values@.len() - n + k,
                ),
            decreases n - k,
        {
            let v = self.get_slot(flen - n + k);
            out.push(v);
            proof {
                assert(out@ =~= self.stack.values@.subrange(
                    self.stack.values@.len() - n,
                    self.stack.values@.len() - n + k + 1,
                ));
            }
            k += 1;
        }
        proof {
            assert(out@ =~= self.stack.values@.skip(self.stack.values@.len() - n));
            assert forall|k2: int| 0 <= k2 < out@.len() implies self.heap.val_wf(
                #[trigger] out@[k2],
            ) by {
                assert(out@[k2] == self.stack.values@[self.stack.values@.len() - n + k2]);
            }
        }
        out
    }

    /// Discard the top `n` values of the current frame.
    fn drop_values(&mut self, n: VmIndex)
        requires
            old(self).wf(),
            n <= old(self).stack.frame_len(),
        ensures
            final(self).wf(),
            final(self).stack.values@ == old(self).stack.values@.take(
                old(self).stack.values@.len() - n,
            ),
            final(self).stack.frames@ == old(self).stack.frames@,
            final(self).heap == old(self).heap,
            final(self).globals == old(self).globals,
            final(self).symbols == old(self).symbols,
            final(self).interner == old(self).interner,
            final(self).roots == old(self).roots,
            final(self).rooted_values == old(self).rooted_values,
            final(self).type_names == old(self).type_names,
    {
        let mut k: usize = 0;
        while k < n
            invariant
                self.wf(),
                k <= n,
                n <= old(self).stack.frame_len(),
                self.stack.values@ == old(self).stack.values@.take(
                    old(self).stack.values@.len() - k,
                ),
                self.stack.frames@ == old(self).stack.frames@,
                self.heap == old(self).heap,
                self.globals == old(self).globals,
                self.symbols == old(self).symbols,
                self.interner == old(self).interner,
                self.roots == old(self).roots,
                self.rooted_values == old(self).rooted_values,
                self.type_names == old(self).type_names,
            decreases n - k,
        {
            proof {
                assert(self.stack.frame_len() == old(self).stack.frame_len() - k);
            }
            self.pop();
            proof {
                assert(self.stack.values@ =~= old(self).stack.values@.take(
                    old(self).stack.values@.len() - (k + 1),
                ));
            }
            k += 1;
        }
    }

    /// `Construct(tag, n)`: allocate a tagged data structure from the top
    /// `n` values and leave it in their place.
    pub fn construct(&mut self, tag: VmTag, n: VmIndex) -> (r: Result<(), Error>)
        requires
            old(self).wf(),
            n <= old(self).stack.frame_len(),
        ensures
            final(self).wf(),
            final(self).stack.frames@ == old(self).stack.frames@,
            final(self).globals == old(self).globals,
            final(self).symbols == old(self).symbols,
            final(self).interner == old(self).interner,
            final(self).roots == old(self).roots,
            final(self).rooted_values == old(self).rooted_values,
            final(self).type_names == old(self).type_names,
            match r {
                Ok(_) => {
                    &&& final(self).stack.values@.len() == old(self).stack.values@.len() - n + 1
                    &&& forall|i: int|
                        0 <= i < old(self).stack.values@.len() - n ==> final(self).stack.values@[i] == old(self).stack.values@[i]
                    &&& final(self).stack.values@.last() matches Value::Data(d) && (final(self).heap.obj_at(d) matches HeapObject::Data(ds) && ds.tag == tag && ds.fields@
                        == old(self).stack.values@.skip(old(self).stack.values@.len() - n))
                    &&& forall|q: GcRef|
                        #[trigger] old(self).vm_rooted(q) ==> final(self).heap.live(q) && final(self).heap.obj_at(q) == old(self).heap.obj_at(q)
                },
                Err(e) => e is OutOfMemory && final(self).heap.live == final(self).heap.capacity,
            },
            old(self).heap.live < old(self).heap.capacity ==> r is Ok,
    {
        let fields = self.top_values(n);
        let obj = HeapObject::Data(DataStruct { tag, fields });
        proof {
            assert(self.heap.obj_wf(obj));
        }
        let d = match self.vm_alloc(obj) {
            Ok(d) => d,
            Err(e) => {
                return Err(e);
            }
        };
        self.drop_values(n);
        self.push(Value::Data(d));
        Ok(())
    }

    /// `GetField(i)`: replace the top data structure by its `i`-th field.
    /// Reports a recoverable error on a non-data value, and an
    /// out-of-range fault on a bad field index.
    pub fn get_field(&mut self, i: VmIndex) -> (r: Result<(), Error>)
        requires
            old(self).wf(),
            old(self).stack.frame_len() > 0,
        ensures
            final(self).wf(),
            final(self).heap == old(self).heap,
            final(self).stack.frames@ == old(self).stack.frames@,
            final(self).globals == old(self).globals,
            final(self).symbols == old(self).symbols,
            final(self).interner == old(self).interner,
            final(self).roots == old(self).roots,
            final(self).rooted_values == old(self).rooted_values,
            final(self).type_names == old(self).type_names,
            (r is Ok) == (old(self).stack.values@.last() matches Value::Data(d)
                && i < old(self).heap.obj_at(d)->Data_0.fields@.len()),
            match r {
                Ok(_) => old(self).stack.values@.last() matches Value::Data(d) && final(self).stack.values@ == old(self).stack.values@.drop_last().push(
                    old(self).heap.obj_at(d)->Data_0.fields@[i as int],
                ),
                Err(e) => {
                    &&& final(self).stack.values@ == old(self).stack.values@.drop_last()
                    &&& (if old(self).stack.values@.last() is Data {
                        e == Error::Fault(Fault::FieldRange)
                    } else {
                        e matches Error::Message(m) && m@ == "GetField on non data type"@
                    })
                },
            },
    {
        let v = self.pop();
        match v {
            Value::Data(d) => {
                proof {
                    assert(self.heap.obj_wf(self.heap.obj_at(d)));
                }
                let field = match self.heap.obj(d) {
                    HeapObject::Data(ds) => {
                        if i < ds.fields.len() {
                            Some(ds.fields[i])
                        } else {
                            None
                        }
                    }
                    _ => vstd::pervasive::unreached(),
                };
                match field {
                    Some(f) => {
                        self.push(f);
                        Ok(())
                    }
                    None => Err(Error::Fault(Fault::FieldRange)),
                }
            }
            _ => Err(Error::Message("GetField on non data type".to_owned())),
        }
    }

    /// `TestTag(tag)`: push 1 if the top value is a data structure with
    /// this tag, 0 if its tag differs; report a recoverable error, never a
    /// silent success, if the top value is not a data structure.
    pub fn test_tag(&mut self, tag: VmTag) -> (r: Result<(), Error>)
        requires
            old(self).wf(),
            old(self).stack.frame_len() > 0,
        ensures
            final(self).wf(),
            final(self).heap == old(self).heap,
            final(self).stack.frames@ == old(self).stack.frames@,
            final(self).globals == old(self).globals,
            final(self).symbols == old(self).symbols,
            final(self).interner == old(self).interner,
            final(self).roots == old(self).roots,
            final(self).rooted_values == old(self).rooted_values,
            final(self).type_names == old(self).type_names,
            (r is Ok) == (old(self).stack.values@.last() is Data),
            match r {
                Ok(_) => old(self).stack.values@.last() matches Value::Data(d) && final(self).stack.values@ == old(self).stack.values@.push(
                    Value::Int(
                        if old(self).heap.obj_at(d)->Data_0.tag == tag {
                            1
                        } else {
                            0
                        },
                    ),
                ),
                Err(e) => (e matches Error::Message(m) && m@
                    == "Op TestTag called on non data type"@) && final(self).stack.values@
                    == old(self).stack.values@,
            },
    {
        let v = self.top();
        match v {
            Value::Data(d) => {
                let hit = match self.heap.obj(d) {
                    HeapObject::Data(ds) => ds.tag == tag,
                    _ => vstd::pervasive::unreached(),
                };
                if hit {
                    self.push(Value::Int(1));
                } else {
                    self.push(Value::Int(0));
                }
                Ok(())
            }
            _ => Err(Error::Message("Op TestTag called on non data type".to_owned())),
        }
    }

    /// `Split`: replace the top data structure by all of its fields in
    /// order.
    pub fn split_data(&mut self) -> (r: Result<(), Error>)
        requires
            old(self).wf(),
            old(self).stack.frame_len() > 0,
        ensures
            final(self).wf(),
            final(self).heap == old(self).heap,
            final(self).stack.frames@ == old(self).stack.frames@,
            final(self).globals == old(self).globals,
            final(self).symbols == old(self).symbols,
            final(self).interner == old(self).interner,
            final(self).roots == old(self).roots,
            final(self).rooted_values == old(self).rooted_values,
            final(self).type_names == old(self).type_names,
            (r is Ok) == (old(self).stack.values@.last() is Data),
            match r {
                Ok(_) => old(self).stack.values@.last() matches Value::Data(d) && final(self).stack.values@ == old(self).stack.values@.drop_last() + old(self).heap.obj_at(
                    d,
                )->Data_0.fields@,
                Err(e) => (e matches Error::Message(m) && m@
                    == "Op Split called on non data type"@) && final(self).stack.values@ == old(self).stack.values@.drop_last(),
            },
    {
        let v = self.pop();
        match v {
            Value::Data(d) => {
                proof {
                    assert(self.heap.obj_wf(self.heap.obj_at(d)));
                }
                let fields = match self.heap.obj(d) {
                    HeapObject::Data(ds) => clone_values(&ds.fields),
                    _ => vstd::pervasive::unreached(),
                };
                let ghost mid = self.stack.values@;
                let n = fields.len();
                let mut k: usize = 0;
                while k < n
                    invariant
                        self.wf(),
                        k <= n,
                        n == fields@.len(),
                        forall|k2: int|
                            0 <= k2 < fields@.len() ==> self.heap.val_wf(#[trigger] fields@[k2]),
                        self.stack.values@ == mid + fields@.take(k as int),
                        self.stack.frames@ == old(self).stack.frames@,
                        self.heap == old(self).heap,
                        self.globals == old(self).globals,
                        self.symbols == old(self).symbols,
                        self.interner == old(self).interner,
                        self.roots == old(self).roots,
                        self.rooted_values == old(self).rooted_values,
                        self.type_names == old(self).type_names,
                    decreases n - k,
                {
                    self.push(fields[k]);
                    proof {
                        assert(self.stack.values@ =~= mid + fields@.take(k + 1));
                    }
                    k += 1;
                }
                proof {
                    assert(fields@.take(n as int) =~= fields@);
                }
                Ok(())
            }
            _ => Err(Error::Message("Op Split called on non data type".to_owned())),
        }
    }

    /// `GetIndex`: pop an integer index and a data structure; push the
    /// indexed field.
    pub fn get_index(&mut self) -> (r: Result<(), Error>)
        requires
            old(self).wf(),
            old(self).stack.frame_len() >= 2,
        ensures
            final(self).wf(),
            final(self).heap == old(self).heap,
            final(self).stack.frames@ == old(self).stack.frames@,
            final(self).globals == old(self).globals,
            final(self).symbols == old(self).symbols,
            final(self).interner == old(self).interner,
            final(self).roots == old(self).roots,
            final(self).rooted_values == old(self).rooted_values,
            final(self).type_names == old(self).type_names,
            match r {
                Ok(_) => {
                    &&& old(self).stack.values@.last() is Int
                    &&& old(self).stack.values@[old(self).stack.values@.len() - 2] is Data
                    &&& {
                        let ix = old(self).stack.values@.last()->Int_0;
                        let d = old(self).stack.values@[old(self).stack.values@.len()
                            - 2]->Data_0;
                        0 <= ix < old(self).heap.obj_at(d)->Data_0.fields@.len() && final(self).stack.values@ == old(self).stack.values@.drop_last().drop_last().push(
                            old(self).heap.obj_at(d)->Data_0.fields@[ix as int],
                        )
                    }
                },
                Err(e) => final(self).stack.values@ == old(self).stack.values@.drop_last().drop_last() && (if old(self).stack.values@[old(self).stack.values@.len() - 2] is Data
                    && old(self).stack.values@.last() is Int {
                    e == Error::Fault(Fault::FieldRange)
                } else {
                    e matches Error::Message(m) && m@
                        == "Op GetIndex called on invalid types"@
                }),
            },
            (r is Ok) == (old(self).stack.values@.last() is Int && old(self).stack.values@[old(self).stack.values@.len() - 2] is Data && 0 <= old(self).stack.values@.last()->Int_0
                < old(self).heap.obj_at(old(self).stack.values@[old(self).stack.values@.len()
                - 2]->Data_0)->Data_0.fields@.len()),
    {
        let index = self.pop();
        let array = self.pop();
        match (array, index) {
            (Value::Data(d), Value::Int(ix)) => {
                proof {
                    assert(self.heap.obj_wf(self.heap.obj_at(d)));
                }
                let field = match self.heap.obj(d) {
                    HeapObject::Data(ds) => {
                        if ix >= 0 && (ix as u64) < (ds.fields.len() as u64) {
                            Some(ds.fields[ix as usize])
                        } else {
                            None
                        }
                    }
                    _ => vstd::pervasive::unreached(),
                };
                match field {
                    Some(f) => {
                        self.push(f);
                        Ok(())
                    }
                    None => Err(Error::Fault(Fault::FieldRange)),
                }
            }
            _ => Err(Error::Message("Op GetIndex called on invalid types".to_owned())),
        }
    }

    /// `SetIndex`: pop a value, an integer index and a data structure;
    /// store the value into the indexed field.
    pub fn set_index(&mut self) -> (r: Result<(), Error>)
        requires
            old(self).wf(),
            old(self).stack.frame_len() >= 3,
        ensures
            final(self).wf(),
            final(self).stack.frames@ == old(self).stack.frames@,
            final(self).stack.values@ == old(self).stack.values@.drop_last().drop_last().drop_last(),
            final(self).globals == old(self).globals,
            final(self).symbols == old(self).symbols,
            final(self).interner == old(self).interner,
            final(self).roots == old(self).roots,
            final(self).rooted_values == old(self).rooted_values,
            final(self).type_names == old(self).type_names,
            match r {
                Ok(_) => {
                    &&& old(self).stack.values@[old(self).stack.values@.len() - 3] is Data
                    &&& old(self).stack.values@[old(self).stack.values@.len() - 2] is Int
                    &&& {
                        let d = old(self).stack.values@[old(self).stack.values@.len()
                            - 3]->Data_0;
                        let ix = old(self).stack.values@[old(self).stack.values@.len()
                            - 2]->Int_0;
                        &&& 0 <= ix < old(self).heap.obj_at(d)->Data_0.fields@.len()
                        &&& (final(self).heap.obj_at(d) matches HeapObject::Data(ds2)
                            && ds2.tag == old(self).heap.obj_at(d)->Data_0.tag && ds2.fields@
                            == old(self).heap.obj_at(d)->Data_0.fields@.update(
                            ix as int,
                            old(self).stack.values@.last(),
                        ))
                        &&& forall|q: GcRef|
                            #[trigger] old(self).heap.live(q) && q != d ==> final(self).heap.obj_at(q) == old(self).heap.obj_at(q)
                    }
                },
                Err(e) => final(self).heap == old(self).heap && (if old(self).stack.values@[old(self).stack.values@.len() - 3] is Data && old(self).stack.values@[old(self).stack.values@.len() - 2] is Int {
                    e == Error::Fault(Fault::FieldRange)
                } else {
                    e matches Error::Message(m) && m@
                        == "Op SetIndex called on invalid types"@
                }),
            },
            (r is Ok) == (old(self).stack.values@[old(self).stack.values@.len() - 3] is Data
                && old(self).stack.values@[old(self).stack.values@.len() - 2] is Int && 0 <= old(self).stack.values@[old(self).stack.values@.len() - 2]->Int_0 < old(self).heap.obj_at(
                old(self).stack.values@[old(self).stack.values@.len() - 3]->Data_0,
            )->Data_0.fields@.len()),
    {
        let value = self.pop();
        let index = self.pop();
        let array = self.pop();
        match (array, index) {
            (Value::Data(d), Value::Int(ix)) => {
                proof {
                    assert(self.heap.obj_wf(self.heap.obj_at(d)));
                }
                let len = match self.heap.obj(d) {
                    HeapObject::Data(ds) => ds.fields.len(),
                    _ => vstd::pervasive::unreached(),
                };
                if ix >= 0 && (ix as u64) < (len as u64) {
                    self.vm_set_data_field(d, ix as usize, value);
                    Ok(())
                } else {
                    Err(Error::Fault(Fault::FieldRange))
                }
            }
            _ => Err(Error::Message("Op SetIndex called on invalid types".to_owned())),
        }
    }
}


/// Resolution outcome, exact call: a scope is entered over the callable's
/// required arguments; nothing else moves.
pub open spec fn resolves_exact(
    vals1: Seq<Value>,
    frames1: Seq<Frame>,
    vm2: VM,
    callable: Callable,
    args: VmIndex,
    excess: bool,
) -> bool {
    &&& vm2.stack.values@ == vals1
    &&& vm2.stack.frames@ == frames1.push(
        Frame {
            offset: (vals1.len() - args) as usize,
            instruction_index: 0,
            function: Some(callable),
            excess,
        },
    )
}

/// Resolution outcome, under-application: the supplied arguments and the
/// callable's slot are replaced by a partial application capturing the
/// callable and exactly those arguments, in order. No scope is entered:
/// no computation runs.
pub open spec fn resolves_partial(
    vals1: Seq<Value>,
    frames1: Seq<Frame>,
    vm2: VM,
    callable: Callable,
    args: VmIndex,
) -> bool {
    let pos = vals1.len() - args - 1;
    &&& vm2.stack.values@.len() == pos + 1
    &&& (forall|i: int| 0 <= i < pos ==> vm2.stack.values@[i] == vals1[i])
    &&& vm2.stack.values@.last() matches Value::PartialApplication(p) && (vm2.heap.obj_at(p)
        matches HeapObject::PartialApp(pd) && pd.function == callable && pd.arguments@
        == vals1.skip(vals1.len() - args))
    &&& vm2.stack.frames@ == frames1
}

/// Resolution outcome, over-application: the excess arguments are bundled
/// into a tag-0 data structure spliced in below the callable (keeping it a
/// root), and a scope is entered over the required arguments with the
/// excess flag raised.
pub open spec fn resolves_over(
    vals1: Seq<Value>,
    frames1: Seq<Frame>,
    vm2: VM,
    callable: Callable,
    args: VmIndex,
    required: VmIndex,
) -> bool {
    let pos = vals1.len() - args - 1;
    let exc = args - required;
    &&& vm2.stack.values@.len() == vals1.len() - exc + 1
    &&& (forall|i: int| 0 <= i < pos ==> vm2.stack.values@[i] == vals1[i])
    &&& vm2.stack.values@[pos] matches Value::Data(b) && (vm2.heap.obj_at(b)
        matches HeapObject::Data(ds) && ds.tag == 0 && ds.fields@ == vals1.skip(
        vals1.len() - exc,
    ))
    &&& vm2.stack.values@[pos + 1] == vals1[pos]
    &&& (forall|i: int|
        0 <= i < required ==> #[trigger] vm2.stack.values@[pos + 2 + i] == vals1[pos + 1 + i])
    &&& vm2.stack.frames@ == frames1.push(
        Frame {
            offset: (vals1.len() - exc + 1 - required) as usize,
            instruction_index: 0,
            function: Some(callable),
            excess: true,
        },
    )
}

/// The calling convention: given a callable of declared arity `R` (in heap
/// `h1`) and `args` arguments already pushed, an exact call enters the
/// callable's scope, an under-application builds a partial application, and
/// an over-application bundles the excess and enters the scope with the
/// excess flag raised.
pub open spec fn resolves_call(
    h1: Heap,
    vals1: Seq<Value>,
    frames1: Seq<Frame>,
    vm2: VM,
    callable: Callable,
    args: VmIndex,
) -> bool {
    let required = spec_callable_args(h1, callable);
    if args == required {
        resolves_exact(vals1, frames1, vm2, callable, args, false) && vm2.heap == h1
    } else if args < required {
        resolves_partial(vals1, frames1, vm2, callable, args)
    } else {
        resolves_over(vals1, frames1, vm2, callable, args, required)
    }
}

/// The text of the error reported for a call whose target is not callable,
/// naming the kind of the offending value.
pub open spec fn cannot_call_text(v: Value) -> Seq<char> {
    match v {
        Value::Int(_) => "Cannot call an Int value"@,
        Value::Float(_) => "Cannot call a Float value"@,
        Value::String(_) => "Cannot call a String value"@,
        Value::Data(_) => "Cannot call a Data value"@,
        Value::Userdata(_) => "Cannot call a Userdata value"@,
        Value::Lazy(_) => "Cannot call a Lazy value"@,
        _ => Seq::empty(),
    }
}

/// The calling convention applied to the callable found below the top
/// `args` values of `vals1`: a native function or closure resolves
/// directly; a partial application re-expands its captured arguments ahead
/// of the new ones and resolves with the combined count.
pub open spec fn calls_into(
    h: Heap,
    vals1: Seq<Value>,
    frames1: Seq<Frame>,
    vm2: VM,
    args: VmIndex,
) -> bool {
    match vals1[vals1.len() - 1 - args] {
        Value::Function(x) => resolves_call(h, vals1, frames1, vm2, Callable::Extern(x), args),
        Value::Closure(c) => resolves_call(h, vals1, frames1, vm2, Callable::Closure(c), args),
        Value::PartialApplication(p) => {
            let pd = h.obj_at(p)->PartialApp_0;
            let splice_at = vals1.len() - args;
            resolves_call(
                h,
                vals1.take(splice_at) + pd.arguments@ + vals1.skip(splice_at),
                frames1,
                vm2,
                pd.function,
                (args + pd.arguments@.len()) as VmIndex,
            )
        },
        _ => false,
    }
}

impl VM {
    /// Enter a callable's scope directly over its required arguments,
    /// recording whether excess arguments await re-application.
    fn execute_callable(&mut self, callable: Callable, excess: bool) -> (r: Result<(), Error>)
        requires
            old(self).wf(),
            old(self).heap.callable_wf(callable),
        ensures
            final(self).wf(),
            final(self).heap == old(self).heap,
            final(self).globals == old(self).globals,
            final(self).symbols == old(self).symbols,
            final(self).interner == old(self).interner,
            final(self).roots == old(self).roots,
            final(self).rooted_values == old(self).rooted_values,
            final(self).type_names == old(self).type_names,
            (r is Ok) == (spec_callable_args(old(self).heap, callable) <= old(self).stack.frame_len()),
            match r {
                Ok(_) => resolves_exact(
                    old(self).stack.values@,
                    old(self).stack.frames@,
                    *final(self),
                    callable,
                    spec_callable_args(old(self).heap, callable),
                    excess,
                ),
                Err(e) => e == Error::Fault(Fault::StackUnderflow) && final(self).stack == old(self).stack,
            },
    {
        let args = self.callable_args(callable);
        let flen = self.stack_len();
        if args > flen {
            return Err(Error::Fault(Fault::StackUnderflow));
        }
        self.vm_enter_scope(args, Some(callable));
        self.vm_set_excess(excess);
        proof {
            assert(self.stack.frames@ =~= old(self).stack.frames@.push(
                Frame {
                    offset: (old(self).stack.values@.len() - args) as usize,
                    instruction_index: 0,
                    function: Some(callable),
                    excess,
                },
            ));
        }
        Ok(())
    }

    /// Arity resolution: dispatch `args` supplied arguments to a callable
    /// of declared arity `required_args`, as an exact call, a partial
    /// application or an over-application.
    fn call_function_with_upvars(
        &mut self,
        args: VmIndex,
        required_args: VmIndex,
        callable: Callable,
    ) -> (r: Result<(), Error>)
        requires
            old(self).wf(),
            old(self).heap.callable_wf(callable),
            args < old(self).stack.frame_len(),
            required_args == spec_callable_args(old(self).heap, callable),
            old(self).vm_rooted(callable.spec_ref()) || (exists|p: GcRef|
                #[trigger] old(self).vm_rooted(p) && old(self).heap.has_kind(
                    p,
                    HeapKind::KPartial,
                ) && old(self).heap.obj_at(p)->PartialApp_0.function == callable),
        ensures
            final(self).wf(),
            final(self).globals == old(self).globals,
            final(self).symbols == old(self).symbols,
            final(self).interner == old(self).interner,
            final(self).roots == old(self).roots,
            final(self).rooted_values == old(self).rooted_values,
            final(self).type_names == old(self).type_names,
            final(self).stack.frames@.len() <= old(self).stack.frames@.len() + 1,
            match r {
                Ok(_) => {
                    &&& resolves_call(
                        old(self).heap,
                        old(self).stack.values@,
                        old(self).stack.frames@,
                        *final(self),
                        callable,
                        args,
                    )
                    &&& forall|q: GcRef|
                        #[trigger] old(self).vm_rooted(q) ==> final(self).heap.live(q) && final(self).heap.obj_at(q) == old(self).heap.obj_at(q)
                },
                Err(e) => e is OutOfMemory && final(self).heap.live == final(self).heap.capacity,
            },
            args == required_args ==> r is Ok,
            old(self).heap.live < old(self).heap.capacity ==> r is Ok,
    {
        if args == required_args {
            let r = self.execute_callable(callable, false);
            proof {
                assert(r is Ok);
            }
            match r {
                Ok(_) => Ok(()),
                Err(_) => vstd::pervasive::unreached(),
            }
        } else if args < required_args {
            // under-application: capture the supplied arguments
            let fields = self.top_values(args);
            let obj = HeapObject::PartialApp(
                PartialApplicationData { function: callable, arguments: fields },
            );
            proof {
                assert(self.heap.obj_wf(obj));
            }
            let p = match self.vm_alloc(obj) {
                Ok(p) => p,
                Err(e) => {
                    return Err(e);
                }
            };
            self.drop_values(args + 1);
            self.push(Value::PartialApplication(p));
            Ok(())
        } else {
            // over-application: bundle the excess below the callable
            let excess_args = args - required_args;
            let fields = self.top_values(excess_args);
            let obj = HeapObject::Data(DataStruct { tag: 0, fields });
            proof {
                assert(self.heap.obj_wf(obj));
            }
            let b = match self.vm_alloc(obj) {
                Ok(b) => b,
                Err(e) => {
                    return Err(e);
                }
            };
            proof {
                lemma_callable_preserved(*old(self), *self, callable, b);
            }
            self.drop_values(excess_args);
            let flen = self.stack_len();
            let ghost mid = *self;
            let bundle = vec![Value::Data(b)];
            self.vm_insert_slice(flen - required_args - 1, &bundle);
            proof {
                assert forall|i: int| 0 <= i < self.stack.frames@.len() implies
                    self.stack.frames@[i] == mid.stack.frames@[i] by {
                    assert(mid.stack.frames@[i].offset <= mid.stack.base());
                }
                assert(self.stack.frames@ =~= mid.stack.frames@);
                assert(spec_callable_args(self.heap, callable) == required_args);
            }
            let r = self.execute_callable(callable, true);
            proof {
                assert(r is Ok);
            }
            match r {
                Ok(_) => {
                    proof {
                        let vals1 = old(self).stack.values@;
                        let pos = vals1.len() - args - 1;
                        let exc = args - required_args;
                        assert forall|i: int| 0 <= i < pos implies self.stack.values@[i]
                            == vals1[i] by {
                            assert(self.stack.values@[i] == mid.stack.values@[i]);
                        }
                        assert(self.stack.values@[pos] == Value::Data(b));
                        assert(self.stack.values@[pos + 1] == mid.stack.values@[pos]);
                        assert(mid.stack.values@[pos] == vals1[pos]);
                        assert forall|i: int| 0 <= i < required_args implies #[trigger] self.stack.values@[
                            pos + 2 + i
                        ] == vals1[pos + 1 + i] by {
                            assert(self.stack.values@[pos + 2 + i] == mid.stack.values@[
                                pos + 1 + i
                            ]);
                            assert(mid.stack.values@[pos + 1 + i] == vals1[pos + 1 + i]);
                        }
                    }
                    Ok(())
                }
                Err(_) => vstd::pervasive::unreached(),
            }
        }
    }

    /// Resolve and invoke the callable found below the top `args` stack
    /// values: the entry point of every call. A partial application
    /// re-expands its captured arguments ahead of the new ones and
    /// re-enters the same resolution with the combined count; a value that
    /// is not callable is a recoverable error naming its kind, and changes
    /// nothing.
    fn do_call(&mut self, args: VmIndex) -> (r: Result<(), Error>)
        requires
            old(self).wf(),
            args < old(self).stack.frame_len(),
        ensures
            final(self).wf(),
            final(self).globals == old(self).globals,
            final(self).symbols == old(self).symbols,
            final(self).interner == old(self).interner,
            final(self).roots == old(self).roots,
            final(self).rooted_values == old(self).rooted_values,
            final(self).type_names == old(self).type_names,
            final(self).stack.frames@.len() <= old(self).stack.frames@.len() + 1,
            (r matches Err(e) && e is Message) == !(old(self).stack.values@[old(self).stack.values@.len() - 1 - args] is Function || old(self).stack.values@[old(self).stack.values@.len() - 1 - args] is Closure || old(self).stack.values@[old(self).stack.values@.len() - 1 - args] is PartialApplication),
            match r {
                Ok(_) => {
                    &&& calls_into(
                        old(self).heap,
                        old(self).stack.values@,
                        old(self).stack.frames@,
                        *final(self),
                        args,
                    )
                    &&& forall|q: GcRef|
                        #[trigger] old(self).vm_rooted(q) ==> final(self).heap.live(q) && final(self).heap.obj_at(q) == old(self).heap.obj_at(q)
                },
                Err(e) => {
                    &&& e is Message || (e is OutOfMemory && final(self).heap.live == final(self).heap.capacity)
                    &&& e matches Error::Message(m) ==> *final(self) == *old(self) && m@
                        == cannot_call_text(
                        old(self).stack.values@[old(self).stack.values@.len() - 1 - args],
                    )
                },
            },
            (old(self).heap.live < old(self).heap.capacity && (old(self).stack.values@[old(self).stack.values@.len() - 1 - args] is Function || old(self).stack.values@[old(self).stack.values@.len() - 1 - args] is Closure || old(self).stack.values@[old(self).stack.values@.len() - 1 - args] is PartialApplication)) ==> r is Ok,
    {
        let flen = self.stack_len();
        let function_index = flen - 1 - args;
        let v = self.get_slot(function_index);
        match v {
            Value::Function(x) => {
                let callable = Callable::Extern(x);
                let required = self.callable_args(callable);
                proof {
                    assert(seq_has_ref(self.stack.values@, x)) by {
                        assert(self.stack.values@[self.stack.base()
                            + function_index].spec_ref() == Some(x));
                    }
                }
                let r = self.call_function_with_upvars(args, required, callable);
                proof {
                    if r is Ok {
                        assert(calls_into(
                            old(self).heap,
                            old(self).stack.values@,
                            old(self).stack.frames@,
                            *self,
                            args,
                        ));
                    }
                }
                r
            }
            Value::Closure(c) => {
                let callable = Callable::Closure(c);
                let required = self.callable_args(callable);
                proof {
                    assert(seq_has_ref(self.stack.values@, c)) by {
                        assert(self.stack.values@[self.stack.base()
                            + function_index].spec_ref() == Some(c));
                    }
                }
                let r = self.call_function_with_upvars(args, required, callable);
                proof {
                    if r is Ok {
                        assert(calls_into(
                            old(self).heap,
                            old(self).stack.values@,
                            old(self).stack.frames@,
                            *self,
                            args,
                        ));
                    }
                }
                r
            }
            Value::PartialApplication(p) => {
                proof {
                    assert(self.heap.obj_wf(self.heap.obj_at(p)));
                }
                let (callable, captured) = match self.heap.obj(p) {
                    HeapObject::PartialApp(pd) => (pd.function, clone_values(&pd.arguments)),
                    _ => vstd::pervasive::unreached(),
                };
                self.vm_insert_slice(flen - args, &captured);
                let ghost mid = *self;
                proof {
                    // no frame begins above the splice point, so none moved
                    assert forall|i: int| 0 <= i < mid.stack.frames@.len() implies
                        mid.stack.frames@[i] == old(self).stack.frames@[i] by {
                        assert(old(self).stack.frames@[i].offset <= old(self).stack.base());
                    }
                    assert(mid.stack.frames@ =~= old(self).stack.frames@);
                }
                let flen2 = self.stack_len();
                proof {
                    assert(args + captured@.len() + 1 <= flen2);
                    // the partial application itself is still on the stack,
                    // keeping its captured callable alive
                    assert(seq_has_ref(self.stack.values@, p)) by {
                        assert(self.stack.values@[self.stack.base() + function_index]
                            == old(self).stack.values@[old(self).stack.base()
                            + function_index]);
                        assert(self.stack.values@[self.stack.base()
                            + function_index].spec_ref() == Some(p));
                    }
                    assert(self.vm_rooted(p));
                }
                let total_args = args + captured.len();
                let required = self.callable_args(callable);
                let r = self.call_function_with_upvars(total_args, required, callable);
                proof {
                    if r is Ok {
                        assert forall|q: GcRef| #[trigger] old(self).vm_rooted(q) implies
                            self.heap.live(q) && self.heap.obj_at(q) == old(self).heap.obj_at(
                            q,
                        ) by {
                            if seq_has_ref(old(self).stack.values@, q) {
                                lemma_seq_has_ref_insert(
                                    old(self).stack.values@,
                                    captured@,
                                    old(self).stack.values@.len() - args,
                                    q,
                                );
                                assert(seq_has_ref(mid.stack.values@, q));
                            }
                            assert(mid.vm_rooted(q));
                        }
                        assert(calls_into(
                            old(self).heap,
                            old(self).stack.values@,
                            old(self).stack.frames@,
                            *self,
                            args,
                        ));
                    }
                }
                r
            }
            Value::Int(_) => Err(Error::Message("Cannot call an Int value".to_owned())),
            Value::Float(_) => Err(Error::Message("Cannot call a Float value".to_owned())),
            Value::String(_) => Err(Error::Message("Cannot call a String value".to_owned())),
            Value::Data(_) => Err(Error::Message("Cannot call a Data value".to_owned())),
            Value::Userdata(_) => Err(
                Error::Message("Cannot call a Userdata value".to_owned()),
            ),
            Value::Lazy(_) => Err(Error::Message("Cannot call a Lazy value".to_owned())),
        }
    }
}

/// A value sequence that carries a reference still carries it after a
/// splice: splicing only adds values.
proof fn lemma_seq_has_ref_insert(vals1: Seq<Value>, ins: Seq<Value>, at: int, q: GcRef)
    requires
        0 <= at <= vals1.len(),
        seq_has_ref(vals1, q),
    ensures
        seq_has_ref(vals1.take(at) + ins + vals1.skip(at), q),
{
    let out = vals1.take(at) + ins + vals1.skip(at);
    let i = choose|i: int| 0 <= i < vals1.len() && #[trigger] vals1[i].spec_ref() == Some(q);
    if i < at {
        assert(out[i] == vals1[i]);
        assert(out[i].spec_ref() == Some(q));
    } else {
        assert(out[i + ins.len()] == vals1[i]);
        assert(out[i + ins.len()].spec_ref() == Some(q));
    }
}


/// A callable that is rooted, or captured by a rooted partial application,
/// keeps its identity and declared arity across an allocation: the fresh
/// object is a data bundle, so it can be none of the callable's objects.
proof fn lemma_callable_preserved(vm1: VM, vm2: VM, callable: Callable, fresh: GcRef)
    requires
        vm1.wf(),
        vm2.heap.wf(),
        vm1.heap.callable_wf(callable),
        vm1.vm_rooted(callable.spec_ref()) || (exists|p: GcRef|
            #[trigger] vm1.vm_rooted(p) && vm1.heap.has_kind(p, HeapKind::KPartial)
                && vm1.heap.obj_at(p)->PartialApp_0.function == callable),
        vm2.heap.has_kind(fresh, HeapKind::KData),
        forall|q: GcRef|
            #[trigger] vm1.vm_rooted(q) ==> vm2.heap.live(q) && vm2.heap.obj_at(q)
                == vm1.heap.obj_at(q) && q != fresh,
        forall|i: int|
            #[trigger] vm2.heap.live_ix(i) && i != fresh.ix as int ==> vm1.heap.live_ix(i)
                && vm2.heap.objects@[i] == vm1.heap.objects@[i],
    ensures
        vm2.heap.callable_wf(callable),
        spec_callable_args(vm2.heap, callable) == spec_callable_args(vm1.heap, callable),
{
    let c = callable.spec_ref();
    if vm1.vm_rooted(c) {
        assert(vm2.heap.live(c) && vm2.heap.obj_at(c) == vm1.heap.obj_at(c));
    } else {
        let p = choose|p: GcRef|
            #[trigger] vm1.vm_rooted(p) && vm1.heap.has_kind(p, HeapKind::KPartial)
                && vm1.heap.obj_at(p)->PartialApp_0.function == callable;
        assert(vm2.heap.live(p) && vm2.heap.obj_at(p) == vm1.heap.obj_at(p));
        assert(vm2.heap.live_ix(p.ix as int));
        assert(vm2.heap.obj_wf(vm2.heap.obj_at_ix(p.ix as int)));
        assert(vm2.heap.callable_wf(callable));
        assert(c != fresh);
        assert(vm2.heap.live_ix(c.ix as int));
        assert(vm2.heap.obj_at(c) == vm1.heap.obj_at(c));
    }
    match callable {
        Callable::Closure(r) => {
            assert(vm2.heap.obj_at(r) == vm1.heap.obj_at(r));
            let f = vm1.heap.obj_at(r)->ClosureObj_0.function;
            assert(vm1.heap.live_ix(r.ix as int));
            assert(vm1.heap.obj_wf(vm1.heap.obj_at_ix(r.ix as int)));
            assert(vm2.heap.obj_wf(vm2.heap.obj_at_ix(r.ix as int)));
            assert(vm2.heap.has_kind(f, HeapKind::KCode));
            assert(f != fresh);
            assert(vm2.heap.live_ix(f.ix as int));
            assert(vm2.heap.obj_at(f) == vm1.heap.obj_at(f));
        }
        Callable::Extern(r) => {
            assert(vm2.heap.obj_at(r) == vm1.heap.obj_at(r));
        }
    }
}


/// A tail call is well shaped when the frame has no pending excess bundle,
/// holds the callable and its `args` arguments, and a caller frame strictly
/// below it remains to resolve the call in.
pub open spec fn tail_call_shaped(vm: VM, args: VmIndex) -> bool {
    &&& vm.stack.frames@.len() >= 2
    &&& !vm.stack.frames@.last().excess
    &&& args < vm.stack.frame_len()
    &&& vm.stack.frame_len() < usize::MAX
    &&& vm.stack.base() > vm.stack.frames@[vm.stack.frames@.len() - 2].offset
}

impl VM {
    /// Read the executing closure's captured value with the given index.
    pub fn get_upvar(&self, index: VmIndex) -> (r: Result<Value, Error>)
        requires
            self.wf(),
        ensures
            match r {
                Ok(v) => {
                    &&& self.stack.frames@.len() > 0
                    &&& self.stack.frames@.last().function matches Some(Callable::Closure(c))
                        && (index < self.heap.obj_at(c)->ClosureObj_0.upvars@.len() && v
                        == self.heap.obj_at(c)->ClosureObj_0.upvars@[index as int])
                    &&& self.heap.val_wf(v)
                },
                Err(e) => e is Fault,
            },
            (r is Ok) == (self.stack.frames@.len() > 0
                && (self.stack.frames@.last().function matches Some(Callable::Closure(c))
                && index < self.heap.obj_at(c)->ClosureObj_0.upvars@.len())),
    {
        if self.stack.frames.len() == 0 {
            return Err(Error::Fault(Fault::NoFrame));
        }
        let fr = self.current_frame();
        match fr.function {
            Some(Callable::Closure(c)) => {
                proof {
                    assert(self.opt_callable_wf(self.stack.frames@.last().function));
                    assert(self.heap.obj_wf(self.heap.obj_at(c)));
                }
                let v = match self.heap.obj(c) {
                    HeapObject::ClosureObj(cd) => {
                        if index < cd.upvars.len() {
                            Some(cd.upvars[index])
                        } else {
                            None
                        }
                    }
                    _ => vstd::pervasive::unreached(),
                };
                match v {
                    Some(v) => Ok(v),
                    None => Err(Error::Fault(Fault::ConstRange)),
                }
            }
            _ => Err(Error::Fault(Fault::NoFrame)),
        }
    }

    /// A function's instructions ran out: pop its single result, discard
    /// its working values, leave its scope, and drop the callable's own
    /// slot. If the frame was entered with excess arguments, unpack the
    /// bundle and re-apply it to the result with a fresh call.
    fn frame_return(&mut self) -> (r: Result<(), Error>)
        requires
            old(self).wf(),
            old(self).stack.frames@.len() > 0,
        ensures
            final(self).wf(),
            final(self).stack.frames@.len() <= old(self).stack.frames@.len(),
            final(self).globals == old(self).globals,
            final(self).symbols == old(self).symbols,
            final(self).interner == old(self).interner,
            final(self).roots == old(self).roots,
            final(self).rooted_values == old(self).rooted_values,
            final(self).type_names == old(self).type_names,
            // without excess arguments, exactly one result value replaces
            // the frame's values and the callable's slot
            (r is Ok && !old(self).stack.frames@.last().excess && old(self).stack.frame_len() > 0
                && old(self).stack.base() >= 1) ==> {
                &&& final(self).stack.values@ == old(self).stack.values@.take(
                    old(self).stack.base() - 1,
                ).push(old(self).stack.values@.last())
                &&& final(self).stack.frames@ == old(self).stack.frames@.drop_last()
                &&& final(self).heap == old(self).heap
            },
            // with excess arguments, the bundle beneath the callable's slot
            // is unpacked and re-applied to the result with a fresh call
            (r is Ok && old(self).stack.frames@.last().excess && old(self).stack.frame_len() > 0
                && old(self).stack.frames@.len() >= 2 && old(self).stack.base() - 1 > old(self).stack.frames@[old(self).stack.frames@.len() - 2].offset && old(self).stack.values@[old(self).stack.base() - 2] is Data) ==> calls_into(
                old(self).heap,
                old(self).stack.values@.take(old(self).stack.base() - 2) + seq![
                    old(self).stack.values@.last(),
                ] + old(self).heap.obj_at(
                    old(self).stack.values@[old(self).stack.base() - 2]->Data_0,
                )->Data_0.fields@,
                old(self).stack.frames@.drop_last(),
                *final(self),
                old(self).heap.obj_at(
                    old(self).stack.values@[old(self).stack.base() - 2]->Data_0,
                )->Data_0.fields@.len() as VmIndex,
            ),
    {
        let flen = self.stack_len();
        if flen == 0 {
            return Err(Error::Fault(Fault::StackUnderflow));
        }
        let result = self.pop();
        let flen2 = self.stack_len();
        self.drop_values(flen2);
        let fr = self.current_frame();
        let had = self.vm_exit_scope();
        let plen = self.stack_len();
        if plen == 0 {
            return Err(Error::Fault(Fault::StackUnderflow));
        }
        self.pop();
        if fr.excess {
            let plen2 = self.stack_len();
            if plen2 == 0 {
                return Err(Error::Fault(Fault::ExpectedExcess));
            }
            let bundle = self.pop();
            match bundle {
                Value::Data(b) => {
                    self.push(result);
                    proof {
                        assert(self.heap.obj_wf(self.heap.obj_at(b)));
                    }
                    let fields = match self.heap.obj(b) {
                        HeapObject::Data(ds) => clone_values(&ds.fields),
                        _ => vstd::pervasive::unreached(),
                    };
                    let ghost mid = *self;
                    let n = fields.len();
                    let mut k: usize = 0;
                    while k < n
                        invariant
                            self.wf(),
                            k <= n,
                            n == fields@.len(),
                            forall|k2: int|
                                0 <= k2 < fields@.len() ==> self.heap.val_wf(
                                    #[trigger] fields@[k2],
                                ),
                            self.stack.frames@ == mid.stack.frames@,
                            self.stack.values@ == mid.stack.values@ + fields@.take(k as int),
                            self.stack.frame_len() == mid.stack.frame_len() + k,
                            self.heap == mid.heap,
                            self.globals == mid.globals,
                            self.symbols == mid.symbols,
                            self.interner == mid.interner,
                            self.roots == mid.roots,
                            self.rooted_values == mid.rooted_values,
                            self.type_names == mid.type_names,
                        decreases n - k,
                    {
                        self.push(fields[k]);
                        proof {
                            assert(self.stack.values@ =~= mid.stack.values@ + fields@.take(
                                k + 1,
                            ));
                        }
                        k += 1;
                    }
                    if had {
                        proof {
                            assert(n < self.stack.frame_len());
                            assert(fields@.take(n as int) =~= fields@);
                            if old(self).stack.frames@.len() >= 2 && old(self).stack.base() - 1
                                > old(self).stack.frames@[old(self).stack.frames@.len()
                                - 2].offset {
                                assert(self.stack.values@ =~= old(self).stack.values@.take(
                                    old(self).stack.base() - 2,
                                ) + seq![old(self).stack.values@.last()] + fields@);
                            }
                        }
                        self.do_call(n)
                    } else {
                        Ok(())
                    }
                }
                _ => Err(Error::Fault(Fault::ExpectedExcess)),
            }
        } else {
            self.push(result);
            Ok(())
        }
    }

    /// `TailCall(args)`: re-absorb any pending excess bundle, discard the
    /// current frame's locals, splice the arguments down to the caller's
    /// frame and resolve the call there, never growing the frame stack:
    /// arbitrarily deep tail recursion uses constant frame-stack depth.
    pub fn tail_call(&mut self, args: VmIndex) -> (r: Result<(), Error>)
        requires
            old(self).wf(),
            old(self).stack.frames@.len() > 0,
        ensures
            final(self).wf(),
            final(self).stack.frames@.len() <= old(self).stack.frames@.len(),
            final(self).globals == old(self).globals,
            final(self).symbols == old(self).symbols,
            final(self).interner == old(self).interner,
            final(self).roots == old(self).roots,
            final(self).rooted_values == old(self).rooted_values,
            final(self).type_names == old(self).type_names,
            // well shaped and without a pending excess bundle: the frame's
            // locals are discarded, the callable and its arguments are
            // spliced down to the caller's frame, and the call resolves
            // there without growing the frame stack
            (tail_call_shaped(*old(self), args) && r is Ok) ==> calls_into(
                old(self).heap,
                old(self).stack.values@.take(old(self).stack.base() - 1) + old(self).stack.values@.skip(old(self).stack.values@.len() - args - 1),
                old(self).stack.frames@.drop_last(),
                *final(self),
                args,
            ),
            tail_call_shaped(*old(self), args) ==> match r {
                Ok(_) => true,
                Err(e) => (e matches Error::Message(m) && !(old(self).stack.values@[old(self).stack.values@.len() - 1 - args] is Function || old(self).stack.values@[old(self).stack.values@.len() - 1 - args] is Closure || old(self).stack.values@[old(self).stack.values@.len() - 1 - args] is PartialApplication) && m@ == cannot_call_text(
                    old(self).stack.values@[old(self).stack.values@.len() - 1 - args],
                )) || (e is OutOfMemory && final(self).heap.live == final(self).heap.capacity),
            },
    {
        let flen = self.stack_len();
        if args > flen || flen == usize::MAX {
            return Err(Error::Fault(Fault::StackUnderflow));
        }
        let mut amount = flen - args;
        let mut all_args = args;
        let fr = self.current_frame();
        if fr.excess {
            amount = amount + 1;
            let b = self.stack.base_offset();
            if b < 2 {
                return Err(Error::Fault(Fault::ExpectedExcess));
            }
            let bundle = self.get_value_at(b - 2);
            match bundle {
                Value::Data(bd) => {
                    proof {
                        assert(self.heap.obj_wf(self.heap.obj_at(bd)));
                    }
                    let fields = match self.heap.obj(bd) {
                        HeapObject::Data(ds) => clone_values(&ds.fields),
                        _ => vstd::pervasive::unreached(),
                    };
                    let ghost mid = *self;
                    let n = fields.len();
                    let mut k: usize = 0;
                    while k < n
                        invariant
                            self.wf(),
                            k <= n,
                            n == fields@.len(),
                            forall|k2: int|
                                0 <= k2 < fields@.len() ==> self.heap.val_wf(
                                    #[trigger] fields@[k2],
                                ),
                            self.stack.frames@ == mid.stack.frames@,
                            self.stack.frame_len() == mid.stack.frame_len() + k,
                            self.heap == mid.heap,
                            self.globals == mid.globals,
                            self.symbols == mid.symbols,
                            self.interner == mid.interner,
                            self.roots == mid.roots,
                            self.rooted_values == mid.rooted_values,
                            self.type_names == mid.type_names,
                        decreases n - k,
                    {
                        self.push(fields[k]);
                        k += 1;
                    }
                    let flen3 = self.stack_len();
                    proof {
                        assert(args + n <= flen3);
                    }
                    all_args = args + n;
                }
                _ => {
                    return Err(Error::Fault(Fault::ExpectedExcess));
                }
            }
        }
        let had = self.vm_exit_scope();
        if !had {
            // a tail call out of the last frame ends the computation
            return Ok(());
        }
        let plen = self.stack_len();
        if plen == 0 || all_args > plen - 1 {
            return Err(Error::Fault(Fault::StackUnderflow));
        }
        let end = plen - all_args - 1;
        if amount > end {
            return Err(Error::Fault(Fault::StackUnderflow));
        }
        proof {
            assert forall|i: int| 0 <= i < self.stack.frames@.len() implies ((
            #[trigger] self.stack.frames@[i]).offset <= self.stack.base() + (end - amount)
                || self.stack.frames@[i].offset >= self.stack.base() + end) by {
                assert(self.stack.frames@[i].offset <= self.stack.base());
            }
        }
        let ghost pre_removal = *self;
        self.vm_remove_range(end - amount, end);
        proof {
            assert(all_args < self.stack.frame_len());
            if tail_call_shaped(*old(self), args) {
                assert(self.stack.values@ =~= old(self).stack.values@.take(
                    old(self).stack.base() - 1,
                ) + old(self).stack.values@.skip(old(self).stack.values@.len() - args - 1));
                assert(end >= 1);
                assert forall|i: int| 0 <= i < self.stack.frames@.len() implies
                    self.stack.frames@[i] == old(self).stack.frames@.drop_last()[i] by {
                    assert(pre_removal.stack.frames@[i]
                        == old(self).stack.frames@.drop_last()[i]);
                    // every caller frame begins at or below the caller's
                    // base, which sits below the removed range
                    assert(pre_removal.stack.frames@[i].offset <= (
                    pre_removal.stack.frames@[pre_removal.stack.frames@.len() - 1]).offset);
                    assert(pre_removal.stack.frames@[i].offset < pre_removal.stack.base()
                        + end);
                }
                assert(self.stack.frames@ =~= old(self).stack.frames@.drop_last());
            }
        }
        let r = self.do_call(all_args);
        proof {
            if tail_call_shaped(*old(self), args) && r is Ok {
                assert(calls_into(
                    old(self).heap,
                    old(self).stack.values@.take(old(self).stack.base() - 1) + old(self).stack.values@.skip(old(self).stack.values@.len() - args - 1),
                    old(self).stack.frames@.drop_last(),
                    *self,
                    args,
                ));
            }
        }
        r
    }
}


/// The success effect of one integer instruction: two integer operands are
/// replaced by the operation's result.
pub open spec fn int_binop_effect(vm1: VM, vm2: VM, instr: Instruction) -> bool {
    let v1 = vm1.stack.values@;
    &&& vm1.stack.frame_len() >= 2
    &&& v1.last() is Int
    &&& v1[v1.len() - 2] is Int
    &&& vm2.stack.frames@ == vm1.stack.frames@
    &&& vm2.heap == vm1.heap
    &&& {
        let x = v1[v1.len() - 2]->Int_0;
        let y = v1.last()->Int_0;
        vm2.stack.values@ == v1.drop_last().drop_last().push(
            Value::Int(
                match instr {
                    Instruction::AddInt => vstd::wrapping::i64_specs::wrapping_add(x, y),
                    Instruction::SubtractInt => vstd::wrapping::i64_specs::wrapping_sub(x, y),
                    Instruction::MultiplyInt => vstd::wrapping::i64_specs::wrapping_mul(x, y),
                    Instruction::IntLT => if x < y {
                        1
                    } else {
                        0
                    },
                    Instruction::IntEQ => if x == y {
                        1
                    } else {
                        0
                    },
                    _ => 0,
                },
            ),
        )
    }
}

/// What executing one instruction of the closure `c` does when it
/// succeeds, relating the machine before (with the resume index already
/// advanced past the instruction) to the machine after.
pub open spec fn step_effect(vm1: VM, c: GcRef, instr: Instruction, vm2: VM) -> bool {
    let v1 = vm1.stack.values@;
    let f1 = vm1.stack.frames@;
    let h1 = vm1.heap;
    match instr {
        Instruction::Push(i) => i < vm1.stack.frame_len() && vm2.stack.values@ == v1.push(
            v1[vm1.stack.base() + i],
        ) && vm2.stack.frames@ == f1 && vm2.heap == h1,
        Instruction::PushInt(n) => vm2.stack.values@ == v1.push(Value::Int(n))
            && vm2.stack.frames@ == f1 && vm2.heap == h1,
        Instruction::PushFloat(bits) => vm2.stack.values@ == v1.push(Value::Float(bits))
            && vm2.stack.frames@ == f1 && vm2.heap == h1,
        Instruction::PushString(idx) => {
            let b = h1.obj_at(h1.obj_at(c)->ClosureObj_0.function)->Code_0;
            &&& idx < b.strings@.len()
            &&& vm2.stack.values@ == v1.push(Value::String(b.strings@[idx as int]))
            &&& vm2.stack.frames@ == f1
            &&& vm2.heap == h1
        },
        Instruction::PushGlobal(i) => i < vm1.globals@.len() && vm2.stack.values@ == v1.push(
            vm1.globals@[i as int].value,
        ) && vm2.stack.frames@ == f1 && vm2.heap == h1,
        Instruction::PushUpVar(i) => {
            let cd = h1.obj_at(c)->ClosureObj_0;
            &&& i < cd.upvars@.len()
            &&& vm2.stack.values@ == v1.push(cd.upvars@[i as int])
            &&& vm2.stack.frames@ == f1
            &&& vm2.heap == h1
        },
        Instruction::Call(args) => args < vm1.stack.frame_len() && calls_into(
            h1,
            v1,
            f1,
            vm2,
            args,
        ),
        Instruction::TailCall(args) => vm2.stack.frames@.len() <= f1.len() && (tail_call_shaped(
            vm1,
            args,
        ) ==> calls_into(
            h1,
            v1.take(vm1.stack.base() - 1) + v1.skip(v1.len() - args - 1),
            f1.drop_last(),
            vm2,
            args,
        )),
        Instruction::Construct(tag, n) => {
            &&& n <= vm1.stack.frame_len()
            &&& vm2.stack.values@.len() == v1.len() - n + 1
            &&& (forall|j: int| 0 <= j < v1.len() - n ==> vm2.stack.values@[j] == v1[j])
            &&& (vm2.stack.values@.last() matches Value::Data(d) && (vm2.heap.obj_at(d)
                matches HeapObject::Data(ds) && ds.tag == tag && ds.fields@ == v1.skip(
                v1.len() - n,
            )))
            &&& vm2.stack.frames@ == f1
        },
        Instruction::GetField(i) => {
            &&& v1.last() matches Value::Data(d) && (i < h1.obj_at(d)->Data_0.fields@.len()
                && vm2.stack.values@ == v1.drop_last().push(
                h1.obj_at(d)->Data_0.fields@[i as int],
            ))
            &&& vm2.stack.frames@ == f1
            &&& vm2.heap == h1
        },
        Instruction::TestTag(tag) => {
            &&& v1.last() matches Value::Data(d) && vm2.stack.values@ == v1.push(
                Value::Int(
                    if h1.obj_at(d)->Data_0.tag == tag {
                        1
                    } else {
                        0
                    },
                ),
            )
            &&& vm2.stack.frames@ == f1
            &&& vm2.heap == h1
        },
        Instruction::Split => {
            &&& v1.last() matches Value::Data(d) && vm2.stack.values@ == v1.drop_last()
                + h1.obj_at(d)->Data_0.fields@
            &&& vm2.stack.frames@ == f1
            &&& vm2.heap == h1
        },
        Instruction::Jump(t) => vm2.stack.values@ == v1 && vm2.stack.frames@ == f1.update(
            f1.len() - 1,
            Frame { instruction_index: t, ..f1.last() },
        ) && vm2.heap == h1,
        Instruction::CJump(t) => {
            &&& vm1.stack.frame_len() >= 1
            &&& vm2.stack.values@ == v1.drop_last()
            &&& vm2.heap == h1
            &&& vm2.stack.frames@ == (if v1.last() == Value::Int(0) {
                f1
            } else {
                f1.update(f1.len() - 1, Frame { instruction_index: t, ..f1.last() })
            })
        },
        Instruction::Pop(n) => n <= vm1.stack.frame_len() && vm2.stack.values@ == v1.take(
            v1.len() - n,
        ) && vm2.stack.frames@ == f1 && vm2.heap == h1,
        Instruction::Slide(n) => vm1.stack.frame_len() >= n + 1 && vm2.stack.values@ == v1.take(
            v1.len() - 1 - n,
        ).push(v1.last()) && vm2.stack.frames@ == f1 && vm2.heap == h1,
        Instruction::GetIndex => {
            &&& v1.last() is Int
            &&& v1[v1.len() - 2] is Data
            &&& {
                let ix = v1.last()->Int_0;
                let d = v1[v1.len() - 2]->Data_0;
                0 <= ix < h1.obj_at(d)->Data_0.fields@.len() && vm2.stack.values@
                    == v1.drop_last().drop_last().push(h1.obj_at(d)->Data_0.fields@[ix as int])
            }
            &&& vm2.stack.frames@ == f1
            &&& vm2.heap == h1
        },
        Instruction::SetIndex => {
            &&& v1[v1.len() - 3] is Data
            &&& v1[v1.len() - 2] is Int
            &&& vm2.stack.values@ == v1.drop_last().drop_last().drop_last()
            &&& vm2.stack.frames@ == f1
            &&& {
                let d = v1[v1.len() - 3]->Data_0;
                let ix = v1[v1.len() - 2]->Int_0;
                0 <= ix < h1.obj_at(d)->Data_0.fields@.len() && (vm2.heap.obj_at(d)
                    matches HeapObject::Data(ds2) && ds2.tag == h1.obj_at(d)->Data_0.tag
                    && ds2.fields@ == h1.obj_at(d)->Data_0.fields@.update(
                    ix as int,
                    v1.last(),
                ))
            }
        },
        Instruction::MakeClosure(fi, n) => {
            let b = h1.obj_at(h1.obj_at(c)->ClosureObj_0.function)->Code_0;
            &&& fi < b.inner_functions@.len()
            &&& n <= vm1.stack.frame_len()
            &&& vm2.stack.values@.len() == v1.len() - n + 1
            &&& (forall|j: int| 0 <= j < v1.len() - n ==> vm2.stack.values@[j] == v1[j])
            &&& (vm2.stack.values@.last() matches Value::Closure(r) && (vm2.heap.obj_at(r)
                matches HeapObject::ClosureObj(cd) && cd.function == b.inner_functions@[
                fi as int
            ] && cd.upvars@ == v1.skip(v1.len() - n)))
            &&& vm2.stack.frames@ == f1
        },
        Instruction::NewClosure(fi, n) => {
            let b = h1.obj_at(h1.obj_at(c)->ClosureObj_0.function)->Code_0;
            &&& fi < b.inner_functions@.len()
            &&& vm2.stack.values@.len() == v1.len() + 1
            &&& (forall|j: int| 0 <= j < v1.len() ==> vm2.stack.values@[j] == v1[j])
            &&& (vm2.stack.values@.last() matches Value::Closure(r) && (vm2.heap.obj_at(r)
                matches HeapObject::ClosureObj(cd) && cd.function == b.inner_functions@[
                fi as int
            ] && cd.upvars@.len() == n && (forall|j: int|
                0 <= j < n ==> cd.upvars@[j] == Value::Int(0))))
            &&& vm2.stack.frames@ == f1
        },
        Instruction::CloseClosure(n) => {
            &&& vm1.stack.frame_len() >= n + 1
            &&& (v1[v1.len() - n - 1] matches Value::Closure(cl) && {
                &&& vm2.stack.values@ == v1.take(v1.len() - n - 1)
                &&& (vm2.heap.obj_at(cl) matches HeapObject::ClosureObj(cd2) && cd2.function
                    == h1.obj_at(cl)->ClosureObj_0.function && cd2.upvars@.len() == n && (
                forall|j: int| 0 <= j < n ==> cd2.upvars@[j] == v1[v1.len() - n + j]))
                &&& (forall|q: GcRef|
                    #[trigger] h1.live(q) && q != cl ==> vm2.heap.obj_at(q) == h1.obj_at(q))
            })
            &&& vm2.stack.frames@ == f1
        },
        Instruction::AddInt => int_binop_effect(vm1, vm2, instr),
        Instruction::SubtractInt => int_binop_effect(vm1, vm2, instr),
        Instruction::MultiplyInt => int_binop_effect(vm1, vm2, instr),
        Instruction::IntLT => int_binop_effect(vm1, vm2, instr),
        Instruction::IntEQ => int_binop_effect(vm1, vm2, instr),
    }
}

impl VM {
    /// Execute one instruction of the closure `c` whose frame is current.
    /// The resume index has already been advanced past this instruction;
    /// jumps and calls overwrite it.
    fn step(&mut self, c: GcRef, instr: Instruction) -> (r: Result<(), Error>)
        requires
            old(self).wf(),
            old(self).stack.frames@.len() > 0,
            old(self).heap.has_kind(c, HeapKind::KClosure),
            old(self).stack.frames@.last().function == Some(Callable::Closure(c)),
        ensures
            final(self).wf(),
            final(self).stack.frames@.len() <= old(self).stack.frames@.len() + 1,
            instr is TailCall ==> final(self).stack.frames@.len() <= old(self).stack.frames@.len(),
            final(self).globals == old(self).globals,
            final(self).symbols == old(self).symbols,
            final(self).interner == old(self).interner,
            final(self).roots == old(self).roots,
            final(self).rooted_values == old(self).rooted_values,
            final(self).type_names == old(self).type_names,
            // the success effect of each instruction
            r is Ok ==> step_effect(*old(self), c, instr, *final(self)),
    {
        match instr {
            Instruction::Push(i) => {
                let flen = self.stack_len();
                if i >= flen {
                    return Err(Error::Fault(Fault::SlotRange));
                }
                let v = self.get_slot(i);
                self.push(v);
                Ok(())
            }
            Instruction::PushInt(n) => {
                self.push(Value::Int(n));
                Ok(())
            }
            Instruction::PushFloat(bits) => {
                self.push(Value::Float(bits));
                Ok(())
            }
            Instruction::PushString(idx) => {
                proof {
                    assert(self.heap.obj_wf(self.heap.obj_at(c)));
                }
                let fref = match self.heap.obj(c) {
                    HeapObject::ClosureObj(cd) => cd.function,
                    _ => vstd::pervasive::unreached(),
                };
                proof {
                    assert(self.heap.obj_wf(self.heap.obj_at(fref)));
                }
                let sref = match self.heap.obj(fref) {
                    HeapObject::Code(b) => {
                        if idx < b.strings.len() {
                            Some(b.strings[idx])
                        } else {
                            None
                        }
                    }
                    _ => vstd::pervasive::unreached(),
                };
                match sref {
                    Some(sr) => {
                        self.push(Value::String(sr));
                        Ok(())
                    }
                    None => Err(Error::Fault(Fault::ConstRange)),
                }
            }
            Instruction::PushGlobal(i) => {
                if i >= self.globals.len() {
                    return Err(Error::Fault(Fault::ConstRange));
                }
                let v = self.globals[i].value;
                proof {
                    assert(self.heap.val_wf(self.globals@[i as int].value));
                }
                self.push(v);
                Ok(())
            }
            Instruction::PushUpVar(i) => {
                let v = match self.get_upvar(i) {
                    Ok(v) => v,
                    Err(e) => {
                        return Err(e);
                    }
                };
                self.push(v);
                Ok(())
            }
            Instruction::Call(args) => {
                let flen = self.stack_len();
                if args >= flen {
                    return Err(Error::Fault(Fault::StackUnderflow));
                }
                self.do_call(args)
            }
            Instruction::TailCall(args) => self.tail_call(args),
            Instruction::Construct(tag, n) => {
                let flen = self.stack_len();
                if n > flen {
                    return Err(Error::Fault(Fault::StackUnderflow));
                }
                self.construct(tag, n)
            }
            Instruction::GetField(i) => {
                let flen = self.stack_len();
                if flen == 0 {
                    return Err(Error::Fault(Fault::StackUnderflow));
                }
                self.get_field(i)
            }
            Instruction::TestTag(tag) => {
                let flen = self.stack_len();
                if flen == 0 {
                    return Err(Error::Fault(Fault::StackUnderflow));
                }
                self.test_tag(tag)
            }
            Instruction::Split => {
                let flen = self.stack_len();
                if flen == 0 {
                    return Err(Error::Fault(Fault::StackUnderflow));
                }
                self.split_data()
            }
            Instruction::Jump(target) => {
                self.vm_set_instruction_index(target);
                Ok(())
            }
            Instruction::CJump(target) => {
                let flen = self.stack_len();
                if flen == 0 {
                    return Err(Error::Fault(Fault::StackUnderflow));
                }
                let v = self.pop();
                match v {
                    Value::Int(0) => Ok(()),
                    _ => {
                        self.vm_set_instruction_index(target);
                        Ok(())
                    }
                }
            }
            Instruction::Pop(n) => {
                let flen = self.stack_len();
                if n > flen {
                    return Err(Error::Fault(Fault::StackUnderflow));
                }
                self.drop_values(n);
                Ok(())
            }
            Instruction::Slide(n) => {
                let flen = self.stack_len();
                if flen == 0 || n > flen - 1 {
                    return Err(Error::Fault(Fault::StackUnderflow));
                }
                let v = self.pop();
                self.drop_values(n);
                self.push(v);
                proof {
                    assert(self.stack.values@ =~= old(self).stack.values@.take(
                        old(self).stack.values@.len() - 1 - n,
                    ).push(old(self).stack.values@.last()));
                }
                Ok(())
            }
            Instruction::GetIndex => {
                let flen = self.stack_len();
                if flen < 2 {
                    return Err(Error::Fault(Fault::StackUnderflow));
                }
                self.get_index()
            }
            Instruction::SetIndex => {
                let flen = self.stack_len();
                if flen < 3 {
                    return Err(Error::Fault(Fault::StackUnderflow));
                }
                self.set_index()
            }
            Instruction::MakeClosure(fi, n) => {
                let flen = self.stack_len();
                if n > flen {
                    return Err(Error::Fault(Fault::StackUnderflow));
                }
                proof {
                    assert(self.heap.obj_wf(self.heap.obj_at(c)));
                }
                let fref = match self.heap.obj(c) {
                    HeapObject::ClosureObj(cd) => cd.function,
                    _ => vstd::pervasive::unreached(),
                };
                proof {
                    assert(self.heap.obj_wf(self.heap.obj_at(fref)));
                }
                let inner = match self.heap.obj(fref) {
                    HeapObject::Code(b) => {
                        if fi < b.inner_functions.len() {
                            Some(b.inner_functions[fi])
                        } else {
                            None
                        }
                    }
                    _ => vstd::pervasive::unreached(),
                };
                let func = match inner {
                    Some(f) => f,
                    None => {
                        return Err(Error::Fault(Fault::ConstRange));
                    }
                };
                let upvars = self.top_values(n);
                let obj = HeapObject::ClosureObj(ClosureData { function: func, upvars });
                proof {
                    assert(self.heap.obj_wf(obj));
                }
                let r = match self.vm_alloc(obj) {
                    Ok(r) => r,
                    Err(e) => {
                        return Err(e);
                    }
                };
                self.drop_values(n);
                self.push(Value::Closure(r));
                Ok(())
            }
            Instruction::NewClosure(fi, n) => {
                proof {
                    assert(self.heap.obj_wf(self.heap.obj_at(c)));
                }
                let fref = match self.heap.obj(c) {
                    HeapObject::ClosureObj(cd) => cd.function,
                    _ => vstd::pervasive::unreached(),
                };
                proof {
                    assert(self.heap.obj_wf(self.heap.obj_at(fref)));
                }
                let inner = match self.heap.obj(fref) {
                    HeapObject::Code(b) => {
                        if fi < b.inner_functions.len() {
                            Some(b.inner_functions[fi])
                        } else {
                            None
                        }
                    }
                    _ => vstd::pervasive::unreached(),
                };
                let func = match inner {
                    Some(f) => f,
                    None => {
                        return Err(Error::Fault(Fault::ConstRange));
                    }
                };
                // placeholder upvalues, backfilled by `CloseClosure`
                let mut upvars: Vec<Value> = Vec::new();
                let mut k: usize = 0;
                while k < n
                    invariant
                        k <= n,
                        upvars@.len() == k,
                        forall|j: int| 0 <= j < k ==> upvars@[j] == Value::Int(0),
                    decreases n - k,
                {
                    upvars.push(Value::Int(0));
                    k += 1;
                }
                let obj = HeapObject::ClosureObj(ClosureData { function: func, upvars });
                proof {
                    assert(self.heap.obj_wf(obj));
                }
                let r = match self.vm_alloc(obj) {
                    Ok(r) => r,
                    Err(e) => {
                        return Err(e);
                    }
                };
                self.push(Value::Closure(r));
                Ok(())
            }
            Instruction::CloseClosure(n) => {
                let flen = self.stack_len();
                if flen == 0 || n > flen - 1 {
                    return Err(Error::Fault(Fault::StackUnderflow));
                }
                let slot = flen - n - 1;
                let v = self.get_slot(slot);
                match v {
                    Value::Closure(cl) => {
                        let count = match self.heap.obj(cl) {
                            HeapObject::ClosureObj(cd) => cd.upvars.len(),
                            _ => vstd::pervasive::unreached(),
                        };
                        if count != n {
                            return Err(Error::Fault(Fault::ExpectedClosure));
                        }
                        // backfill the upvalues by popping in reverse
                        let ghost orig_fn = self.heap.obj_at(cl)->ClosureObj_0.function;
                        let mut k: usize = 0;
                        while k < n
                            invariant
                                self.wf(),
                                k <= n,
                                self.heap.has_kind(cl, HeapKind::KClosure),
                                self.heap.obj_at(cl)->ClosureObj_0.upvars@.len() == n,
                                self.heap.obj_at(cl)->ClosureObj_0.function == orig_fn,
                                old(self).stack.values@.len() >= n + 1,
                                self.stack.frame_len() >= n - k + 1,
                                self.stack.values@ == old(self).stack.values@.take(
                                    old(self).stack.values@.len() - k,
                                ),
                                forall|j: int|
                                    n - k <= j < n
                                        ==> self.heap.obj_at(cl)->ClosureObj_0.upvars@[j]
                                        == old(self).stack.values@[old(self).stack.values@.len()
                                        - n + j],
                                forall|q: GcRef|
                                    #[trigger] old(self).heap.live(q) && q != cl
                                        ==> self.heap.live(q) && self.heap.obj_at(q) == old(self).heap.obj_at(q),
                                forall|q: GcRef|
                                    old(self).heap.live(q) <==> self.heap.live(q),
                                self.stack.frames@ == old(self).stack.frames@,
                                self.globals == old(self).globals,
                                self.symbols == old(self).symbols,
                                self.interner == old(self).interner,
                                self.roots == old(self).roots,
                                self.rooted_values == old(self).rooted_values,
                                self.type_names == old(self).type_names,
                            decreases n - k,
                        {
                            let v2 = self.pop();
                            self.vm_set_closure_upvar(cl, n - 1 - k, v2);
                            proof {
                                assert(self.stack.values@ =~= old(self).stack.values@.take(
                                    old(self).stack.values@.len() - (k + 1),
                                ));
                            }
                            k += 1;
                        }
                        // remove the closure's own slot
                        self.pop();
                        proof {
                            assert(self.stack.values@ =~= old(self).stack.values@.take(
                                old(self).stack.values@.len() - n - 1,
                            ));
                        }
                        Ok(())
                    }
                    _ => Err(Error::Fault(Fault::ExpectedClosure)),
                }
            }
            Instruction::AddInt => self.binop_int(instr),
            Instruction::SubtractInt => self.binop_int(instr),
            Instruction::MultiplyInt => self.binop_int(instr),
            Instruction::IntLT => self.binop_int(instr),
            Instruction::IntEQ => self.binop_int(instr),
        }
    }

    /// Pop two integer operands and push the operation's result. Operand
    /// kinds are guaranteed by the type checker; a mismatch is a fault.
    fn binop_int(&mut self, instr: Instruction) -> (r: Result<(), Error>)
        requires
            old(self).wf(),
        ensures
            final(self).wf(),
            final(self).heap == old(self).heap,
            final(self).stack.frames@ == old(self).stack.frames@,
            final(self).globals == old(self).globals,
            final(self).symbols == old(self).symbols,
            final(self).interner == old(self).interner,
            final(self).roots == old(self).roots,
            final(self).rooted_values == old(self).rooted_values,
            final(self).type_names == old(self).type_names,
            (r is Ok) == (old(self).stack.frame_len() >= 2 && old(self).stack.values@.last()
                is Int && old(self).stack.values@[old(self).stack.values@.len() - 2] is Int),
            r is Ok ==> {
                let x = old(self).stack.values@[old(self).stack.values@.len() - 2]->Int_0;
                let y = old(self).stack.values@.last()->Int_0;
                final(self).stack.values@ == old(self).stack.values@.drop_last().drop_last().push(
                    Value::Int(
                        match instr {
                            Instruction::AddInt => vstd::wrapping::i64_specs::wrapping_add(x, y),
                            Instruction::SubtractInt => vstd::wrapping::i64_specs::wrapping_sub(
                                x,
                                y,
                            ),
                            Instruction::MultiplyInt => vstd::wrapping::i64_specs::wrapping_mul(
                                x,
                                y,
                            ),
                            Instruction::IntLT => if x < y {
                                1
                            } else {
                                0
                            },
                            Instruction::IntEQ => if x == y {
                                1
                            } else {
                                0
                            },
                            _ => 0,
                        },
                    ),
                )
            },
    {
        let flen = self.stack_len();
        if flen < 2 {
            return Err(Error::Fault(Fault::StackUnderflow));
        }
        let rv = self.pop();
        let lv = self.pop();
        match (lv, rv) {
            (Value::Int(x), Value::Int(y)) => {
                let z: i64 = match instr {
                    Instruction::AddInt => x.wrapping_add(y),
                    Instruction::SubtractInt => x.wrapping_sub(y),
                    Instruction::MultiplyInt => x.wrapping_mul(y),
                    Instruction::IntLT => {
                        if x < y {
                            1
                        } else {
                            0
                        }
                    }
                    Instruction::IntEQ => {
                        if x == y {
                            1
                        } else {
                            0
                        }
                    }
                    _ => 0,
                };
                self.push(Value::Int(z));
                Ok(())
            }
            _ => Err(Error::Fault(Fault::KindMismatch)),
        }
    }
}


/// The frame stack with the current frame's resume index rewritten.
pub open spec fn frames_with_ii(fs: Seq<Frame>, ii: VmIndex) -> Seq<Frame> {
    fs.update(fs.len() - 1, Frame { instruction_index: ii, ..fs.last() })
}

/// The machine `mid` is `vm1` with the current frame's resume index
/// advanced to `ii` and nothing else changed.
pub open spec fn advanced_from(vm1: VM, mid: VM, ii: VmIndex) -> bool {
    &&& mid.heap == vm1.heap
    &&& mid.stack.values@ == vm1.stack.values@
    &&& mid.stack.frames@ == frames_with_ii(vm1.stack.frames@, ii)
    &&& mid.globals == vm1.globals
    &&& mid.symbols == vm1.symbols
    &&& mid.interner == vm1.interner
    &&& mid.roots == vm1.roots
    &&& mid.rooted_values == vm1.rooted_values
    &&& mid.type_names == vm1.type_names
}

/// The current frame's function ran out of instructions and returned: one
/// result value replaces the frame and the callable's slot, or a pending
/// excess bundle is re-applied to it; the frame stack never grows.
pub open spec fn returned_from(vm1: VM, vm2: VM) -> bool {
    &&& vm2.stack.frames@.len() < vm1.stack.frames@.len()
        || vm2.stack.frames@.len() == vm1.stack.frames@.len()
    &&& vm2.stack.frames@.len() <= vm1.stack.frames@.len()
    &&& ((!vm1.stack.frames@.last().excess && vm1.stack.frame_len() > 0 && vm1.stack.base()
        >= 1) ==> vm2.stack.values@ == vm1.stack.values@.take(vm1.stack.base() - 1).push(
        vm1.stack.values@.last(),
    ) && vm2.stack.frames@ == vm1.stack.frames@.drop_last() && vm2.heap == vm1.heap)
    &&& ((vm1.stack.frames@.last().excess && vm1.stack.frame_len() > 0
        && vm1.stack.frames@.len() >= 2 && vm1.stack.base() - 1 > vm1.stack.frames@[
        vm1.stack.frames@.len() - 2
    ].offset && vm1.stack.values@[vm1.stack.base() - 2] is Data) ==> calls_into(
        vm1.heap,
        vm1.stack.values@.take(vm1.stack.base() - 2) + seq![vm1.stack.values@.last()]
            + vm1.heap.obj_at(
            vm1.stack.values@[vm1.stack.base() - 2]->Data_0,
        )->Data_0.fields@,
        vm1.stack.frames@.drop_last(),
        vm2,
        vm1.heap.obj_at(
            vm1.stack.values@[vm1.stack.base() - 2]->Data_0,
        )->Data_0.fields@.len() as VmIndex,
    ))
}

/// One fetch-decode-execute transition of the driver loop: the current
/// frame runs a closure whose next instruction is advanced past and then
/// executed with its specified effect, or whose instructions have run out
/// and whose frame returns.
pub open spec fn driver_step(vm1: VM, vm2: VM) -> bool {
    &&& vm1.stack.frames@.len() > 0
    &&& (vm1.stack.frames@.last().function matches Some(Callable::Closure(c)) && {
        let b = vm1.heap.obj_at(vm1.heap.obj_at(c)->ClosureObj_0.function)->Code_0;
        let ii = vm1.stack.frames@.last().instruction_index;
        if ii < b.instructions@.len() {
            exists|mid: VM|
                #[trigger] advanced_from(vm1, mid, (ii + 1) as VmIndex) && step_effect(
                    mid,
                    c,
                    b.instructions@[ii as int],
                    vm2,
                )
        } else {
            returned_from(vm1, vm2)
        }
    })
}

/// A chain of `n` driver transitions from `vm1` to `vm2`.
pub open spec fn driver_trace(vm1: VM, vm2: VM, trace: Seq<VM>, n: nat) -> bool {
    &&& trace.len() == n + 1
    &&& trace[0] == vm1
    &&& trace.last() == vm2
    &&& forall|i: int| 0 <= i < trace.len() - 1 ==> driver_step(#[trigger] trace[i], trace[i + 1])
}

impl VM {
    /// The fetch-decode-execute loop: run the current frame's bytecode,
    /// dispatching calls and frame exits, until control returns to a
    /// top-level scope (`Done`, result on top of the stack), a native
    /// function must run (`AwaitNative`; perform it, then call
    /// [`VM::resume_native`] and execute again), or the step budget is
    /// spent (`OutOfFuel`).
    pub fn execute(&mut self, fuel: u64) -> (r: Result<Run, Error>)
        requires
            old(self).wf(),
        ensures
            final(self).wf(),
            final(self).globals == old(self).globals,
            final(self).symbols == old(self).symbols,
            final(self).interner == old(self).interner,
            final(self).roots == old(self).roots,
            final(self).rooted_values == old(self).rooted_values,
            final(self).type_names == old(self).type_names,
            match r {
                Ok(Run::AwaitNative(e)) => {
                    &&& final(self).heap.has_kind(e, HeapKind::KExtern)
                    &&& final(self).stack.frames@.len() > 0
                    &&& final(self).stack.frames@.last().function == Some(Callable::Extern(e))
                },
                Ok(Run::Done) => final(self).stack.frames@.len() == 0 || final(self).stack.frames@.last().function is None || (final(self).stack.frames@.last().function matches Some(Callable::Extern(_)) && final(self).stack.frames@.last().instruction_index != 0),
                _ => true,
            },
            // control that already belongs to the caller is yielded at once
            (fuel >= 1 && old(self).stack.frames@.len() == 0) ==> (r matches Ok(rr) && rr
                == Run::Done) && *final(self) == *old(self),
            (fuel >= 1 && old(self).stack.frames@.len() > 0 && old(self).stack.frames@.last().function is None) ==> (r matches Ok(rr) && rr == Run::Done)
                && *final(self) == *old(self),
            // a fresh extern frame suspends at once, marked as called
            (fuel >= 1 && old(self).stack.frames@.len() > 0 && old(self).stack.frames@.last().function is Some && old(self).stack.frames@.last().function->0
                is Extern && old(self).stack.frames@.last().instruction_index == 0) ==> {
                let e = old(self).stack.frames@.last().function->0->Extern_0;
                &&& (r matches Ok(rr) && rr == Run::AwaitNative(e))
                &&& final(self).stack.values@ == old(self).stack.values@
                &&& final(self).stack.frames@ == old(self).stack.frames@.update(
                    old(self).stack.frames@.len() - 1,
                    Frame { instruction_index: 1, ..old(self).stack.frames@.last() },
                )
                &&& final(self).heap == old(self).heap
            },
            // an extern frame whose callback already ran yields control
            // back to the host at once, never re-suspending
            (fuel >= 1 && old(self).stack.frames@.len() > 0 && old(self).stack.frames@.last().function is Some && old(self).stack.frames@.last().function->0
                is Extern && old(self).stack.frames@.last().instruction_index != 0) ==> (r
                matches Ok(rr) && rr == Run::Done) && *final(self) == *old(self),
            // running out of the step budget obliges execution: the final
            // machine is reached from the initial one by exactly `fuel`
            // driver transitions
            (r matches Ok(rr) && rr == Run::OutOfFuel) ==> exists|trace: Seq<VM>|
                #[trigger] driver_trace(*old(self), *final(self), trace, fuel as nat),
    {
        let mut remaining = fuel;
        let ghost mut trace: Seq<VM> = seq![*old(self)];
        loop
            invariant
                self.wf(),
                self.globals == old(self).globals,
                self.symbols == old(self).symbols,
                self.interner == old(self).interner,
                self.roots == old(self).roots,
                self.rooted_values == old(self).rooted_values,
                self.type_names == old(self).type_names,
                old(self).stack.frames@.len() == 0 ==> *self == *old(self) && remaining
                    == fuel,
                (old(self).stack.frames@.len() > 0 && old(self).stack.frames@.last().function
                    is None) ==> *self == *old(self) && remaining == fuel,
                (old(self).stack.frames@.len() > 0 && old(self).stack.frames@.last().function
                    is Some && old(self).stack.frames@.last().function->0 is Extern && old(self).stack.frames@.last().instruction_index == 0) ==> *self == *old(self)
                    && remaining == fuel,
                (old(self).stack.frames@.len() > 0 && old(self).stack.frames@.last().function
                    is Some && old(self).stack.frames@.last().function->0 is Extern && old(self).stack.frames@.last().instruction_index != 0) ==> *self == *old(self)
                    && remaining == fuel,
                remaining <= fuel,
                trace.len() == 1 + fuel - remaining,
                trace[0] == *old(self),
                trace.last() == *self,
                forall|i: int|
                    0 <= i < trace.len() - 1 ==> driver_step(#[trigger] trace[i], trace[i + 1]),
            decreases remaining,
        {
            if remaining == 0 {
                proof {
                    assert(driver_trace(*old(self), *self, trace, fuel as nat));
                }
                return Ok(Run::OutOfFuel);
            }
            remaining = remaining - 1;
            let ghost head = *self;
            if self.stack.frames.len() == 0 {
                return Ok(Run::Done);
            }
            let fr = self.current_frame();
            match fr.function {
                None => {
                    return Ok(Run::Done);
                }
                Some(Callable::Extern(e)) => {
                    if fr.instruction_index != 0 {
                        // this function was already called; control belongs
                        // to the host again
                        return Ok(Run::Done);
                    }
                    proof {
                        assert(self.opt_callable_wf(self.stack.frames@.last().function));
                    }
                    self.vm_set_instruction_index(1);
                    proof {
                        assert(self.stack.frames@.last().function == Some(Callable::Extern(e)));
                    }
                    return Ok(Run::AwaitNative(e));
                }
                Some(Callable::Closure(c)) => {
                    proof {
                        assert(self.opt_callable_wf(self.stack.frames@.last().function));
                        assert(self.heap.obj_wf(self.heap.obj_at(c)));
                    }
                    let fref = match self.heap.obj(c) {
                        HeapObject::ClosureObj(cd) => cd.function,
                        _ => vstd::pervasive::unreached(),
                    };
                    proof {
                        assert(self.heap.has_kind(fref, HeapKind::KCode));
                    }
                    let instr_opt = match self.heap.obj(fref) {
                        HeapObject::Code(b) => {
                            if fr.instruction_index < b.instructions.len() {
                                Some(b.instructions[fr.instruction_index])
                            } else {
                                None
                            }
                        }
                        _ => vstd::pervasive::unreached(),
                    };
                    match instr_opt {
                        None => {
                            // reached the end of the function's instructions
                            match self.frame_return() {
                                Ok(_) => {}
                                Err(e) => {
                                    return Err(e);
                                }
                            }
                            proof {
                                assert(returned_from(head, *self));
                                assert(driver_step(head, *self));
                                trace = trace.push(*self);
                            }
                        }
                        Some(instr) => {
                            self.vm_set_instruction_index(fr.instruction_index + 1);
                            let ghost mid = *self;
                            proof {
                                assert(mid.stack.frames@ =~= frames_with_ii(
                                    head.stack.frames@,
                                    (fr.instruction_index + 1) as VmIndex,
                                ));
                                assert(advanced_from(
                                    head,
                                    mid,
                                    (fr.instruction_index + 1) as VmIndex,
                                ));
                            }
                            match self.step(c, instr) {
                                Ok(_) => {}
                                Err(e) => {
                                    return Err(e);
                                }
                            }
                            proof {
                                assert(step_effect(mid, c, instr, *self));
                                assert(driver_step(head, *self));
                                trace = trace.push(*self);
                            }
                        }
                    }
                }
            }
        }
    }

    /// Whether the machine sits in a completed native call: the current
    /// frame is an extern frame holding at least the result value, and a
    /// parent frame with the callable's slot remains below it.
    pub open spec fn native_frame_shaped(self) -> bool {
        &&& self.stack.frames@.len() >= 2
        &&& (self.stack.frames@.last().function matches Some(Callable::Extern(_)))
        &&& self.stack.frame_len() >= 1
        &&& self.stack.base() > self.stack.frames@[self.stack.frames@.len() - 2].offset
    }

    /// The native bridge's second half. The host has performed the awaited
    /// native call, leaving exactly one result (or, on `Error`, a message
    /// string) on top of the stack and reporting a status. Restore the
    /// caller's frame: discard the callee's working values, exit its
    /// scope, drop the callable's slot and leave the single result; on
    /// `Error`, propagate the message string's text, or a fixed message
    /// when no string was left. Excess arguments are re-applied to the
    /// result with a fresh call.
    pub fn resume_native(&mut self, status: Status) -> (r: Result<(), Error>)
        requires
            old(self).wf(),
        ensures
            final(self).wf(),
            final(self).stack.frames@.len() <= old(self).stack.frames@.len(),
            final(self).globals == old(self).globals,
            final(self).symbols == old(self).symbols,
            final(self).interner == old(self).interner,
            final(self).roots == old(self).roots,
            final(self).rooted_values == old(self).rooted_values,
            final(self).type_names == old(self).type_names,
            // a successful return without excess: the single result
            // replaces the callee's values and the callable's slot
            (old(self).native_frame_shaped() && status == Status::Success && !old(self).stack.frames@.last().excess) ==> r is Ok && final(self).heap == old(self).heap
                && final(self).stack.values@ == old(self).stack.values@.take(
                old(self).stack.base() - 1,
            ).push(old(self).stack.values@.last()) && final(self).stack.frames@ == old(self).stack.frames@.drop_last(),
            // a successful return with excess re-applies the bundle's
            // fields to the result with a fresh call
            (old(self).native_frame_shaped() && status == Status::Success && old(self).stack.frames@.last().excess && old(self).stack.base() - 1 > old(self).stack.frames@[old(self).stack.frames@.len() - 2].offset && old(self).stack.values@[old(self).stack.base() - 2] is Data && r is Ok) ==> calls_into(
                old(self).heap,
                old(self).stack.values@.take(old(self).stack.base() - 2) + seq![
                    old(self).stack.values@.last(),
                ] + old(self).heap.obj_at(
                    old(self).stack.values@[old(self).stack.base() - 2]->Data_0,
                )->Data_0.fields@,
                old(self).stack.frames@.drop_last(),
                *final(self),
                old(self).heap.obj_at(
                    old(self).stack.values@[old(self).stack.base() - 2]->Data_0,
                )->Data_0.fields@.len() as VmIndex,
            ),
            // a reported failure propagates the message string's text
            (old(self).native_frame_shaped() && status == Status::Error) ==> final(self).heap
                == old(self).heap && final(self).stack.values@ == old(self).stack.values@.take(
                old(self).stack.base() - 1,
            ) && final(self).stack.frames@ == old(self).stack.frames@.drop_last() && (r matches Err(e) && e matches Error::Message(m) && m@ == (
            if old(self).stack.values@.last() is String {
                old(self).heap.obj_at(old(self).stack.values@.last()->String_0)->Str_0@
            } else {
                "Unexpected panic in VM"@
            })),
    {
        if self.stack.frames.len() == 0 {
            return Err(Error::Fault(Fault::NoFrame));
        }
        let fr = self.current_frame();
        match fr.function {
            Some(Callable::Extern(_)) => {}
            _ => {
                return Err(Error::Fault(Fault::NoFrame));
            }
        }
        let flen = self.stack_len();
        if flen == 0 {
            return Err(Error::Fault(Fault::StackUnderflow));
        }
        let result = self.pop();
        let flen2 = self.stack_len();
        self.drop_values(flen2);
        let had = self.vm_exit_scope();
        if !had {
            return Err(Error::Message("Poped the last frame in a native return".to_owned()));
        }
        let plen = self.stack_len();
        if plen == 0 {
            return Err(Error::Fault(Fault::StackUnderflow));
        }
        self.pop();
        match status {
            Status::Error => {
                match result {
                    Value::String(sr) => {
                        proof {
                            assert(self.heap.has_kind(sr, HeapKind::KStr));
                        }
                        let msg = match self.heap.obj(sr) {
                            HeapObject::Str(st) => st.clone(),
                            _ => vstd::pervasive::unreached(),
                        };
                        Err(Error::Message(msg))
                    }
                    _ => Err(Error::Message("Unexpected panic in VM".to_owned())),
                }
            }
            Status::Success => {
                if fr.excess {
                    let plen2 = self.stack_len();
                    if plen2 == 0 {
                        return Err(Error::Fault(Fault::ExpectedExcess));
                    }
                    let bundle = self.pop();
                    match bundle {
                        Value::Data(b) => {
                            self.push(result);
                            proof {
                                assert(self.heap.obj_wf(self.heap.obj_at(b)));
                            }
                            let fields = match self.heap.obj(b) {
                                HeapObject::Data(ds) => clone_values(&ds.fields),
                                _ => vstd::pervasive::unreached(),
                            };
                            let ghost mid = *self;
                            let n = fields.len();
                            let mut k: usize = 0;
                            while k < n
                                invariant
                                    self.wf(),
                                    k <= n,
                                    n == fields@.len(),
                                    forall|k2: int|
                                        0 <= k2 < fields@.len() ==> self.heap.val_wf(
                                            #[trigger] fields@[k2],
                                        ),
                                    self.stack.frames@ == mid.stack.frames@,
                                    self.stack.values@ == mid.stack.values@ + fields@.take(
                                        k as int,
                                    ),
                                    self.stack.frame_len() == mid.stack.frame_len() + k,
                                    self.heap == mid.heap,
                                    self.globals == mid.globals,
                                    self.symbols == mid.symbols,
                                    self.interner == mid.interner,
                                    self.roots == mid.roots,
                                    self.rooted_values == mid.rooted_values,
                                    self.type_names == mid.type_names,
                                decreases n - k,
                            {
                                self.push(fields[k]);
                                proof {
                                    assert(self.stack.values@ =~= mid.stack.values@
                                        + fields@.take(k + 1));
                                }
                                k += 1;
                            }
                            proof {
                                assert(n < self.stack.frame_len());
                                assert(fields@.take(n as int) =~= fields@);
                                assert(self.stack.values@ =~= old(self).stack.values@.take(
                                    old(self).stack.base() - 2,
                                ) + seq![old(self).stack.values@.last()] + fields@);
                            }
                            self.do_call(n)
                        }
                        _ => Err(Error::Fault(Fault::ExpectedExcess)),
                    }
                } else {
                    self.push(result);
                    Ok(())
                }
            }
        }
    }

    /// Resolve and run the call whose callable sits below the top `args`
    /// stack values.
    pub fn call_function(&mut self, args: VmIndex, fuel: u64) -> (r: Result<Run, Error>)
        requires
            old(self).wf(),
        ensures
            final(self).wf(),
            final(self).globals == old(self).globals,
            final(self).symbols == old(self).symbols,
            final(self).interner == old(self).interner,
            final(self).roots == old(self).roots,
            final(self).rooted_values == old(self).rooted_values,
            final(self).type_names == old(self).type_names,
            args >= old(self).stack.frame_len() ==> r == Err::<Run, Error>(
                Error::Fault(Fault::StackUnderflow),
            ) && *final(self) == *old(self),
            // a non-callable target is a recoverable error naming its kind,
            // and changes nothing
            (args < old(self).stack.frame_len() && !(old(self).stack.values@[old(self).stack.values@.len() - 1 - args] is Function || old(self).stack.values@[old(self).stack.values@.len() - 1 - args] is Closure || old(self).stack.values@[old(self).stack.values@.len() - 1 - args] is PartialApplication)) ==> (r matches Err(e) && e matches Error::Message(m) && m@ == cannot_call_text(
                old(self).stack.values@[old(self).stack.values@.len() - 1 - args],
            )) && *final(self) == *old(self),
    {
        let flen = self.stack_len();
        if args >= flen {
            return Err(Error::Fault(Fault::StackUnderflow));
        }
        match self.do_call(args) {
            Ok(_) => {}
            Err(e) => {
                return Err(e);
            }
        }
        self.execute(fuel)
    }

    /// Run a closure of no arguments: push it, enter its scope, execute.
    /// On `Done` the result value is on top of the stack.
    pub fn call_bytecode(&mut self, closure: GcRef, fuel: u64) -> (r: Result<Run, Error>)
        requires
            old(self).wf(),
            old(self).heap.has_kind(closure, HeapKind::KClosure),
        ensures
            final(self).wf(),
            final(self).globals == old(self).globals,
            final(self).symbols == old(self).symbols,
            final(self).interner == old(self).interner,
            final(self).roots == old(self).roots,
            final(self).rooted_values == old(self).rooted_values,
            final(self).type_names == old(self).type_names,
    {
        self.push(Value::Closure(closure));
        self.vm_enter_scope(0, Some(Callable::Closure(closure)));
        self.execute(fuel)
    }

    /// Call a module's closure; a module of IO type has its action run by
    /// one extra unit-argument call. On `Done` the module's value is on top
    /// of the stack.
    pub fn call_module(&mut self, typ: TypeDesc, closure: GcRef, fuel: u64) -> (r: Result<
        Run,
        Error,
    >)
        requires
            old(self).wf(),
            old(self).heap.has_kind(closure, HeapKind::KClosure),
        ensures
            final(self).wf(),
            final(self).globals == old(self).globals,
            final(self).symbols == old(self).symbols,
            final(self).interner == old(self).interner,
            final(self).roots == old(self).roots,
            final(self).rooted_values == old(self).rooted_values,
            final(self).type_names == old(self).type_names,
    {
        let run = match self.call_bytecode(closure, fuel) {
            Ok(run) => run,
            Err(e) => {
                return Err(e);
            }
        };
        if !matches!(typ, TypeDesc::Io) {
            return Ok(run);
        }
        match run {
            Run::Done => {}
            other => {
                return Ok(other);
            }
        }
        let flen = self.stack_len();
        if flen == 0 {
            return Err(Error::Fault(Fault::StackUnderflow));
        }
        let value = self.pop();
        // a dummy value fills the callable's place for a tail call, then
        // the IO action is applied to one unit argument
        self.push(Value::Int(0));
        self.push(value);
        self.push(Value::Int(0));
        self.vm_enter_scope(2, None);
        let run2 = match self.call_function(1, fuel) {
            Ok(run2) => run2,
            Err(e) => {
                return Err(e);
            }
        };
        match run2 {
            Run::Done => {}
            other => {
                return Ok(other);
            }
        }
        if self.stack.frames.len() == 0 {
            return Err(Error::Fault(Fault::NoFrame));
        }
        let flen2 = self.stack_len();
        if flen2 == 0 {
            return Err(Error::Fault(Fault::StackUnderflow));
        }
        let result = self.pop();
        let flen3 = self.stack_len();
        self.drop_values(flen3);
        self.vm_exit_scope();
        let flen4 = self.stack_len();
        if flen4 == 0 {
            return Err(Error::Fault(Fault::StackUnderflow));
        }
        self.pop();
        self.push(result);
        Ok(Run::Done)
    }
}


/// The compiled function `f` has been loaded at `r`: the bytecode object
/// mirrors its name, arity and instructions, its string constants hold the
/// same text, and every nested function is loaded in turn.
pub open spec fn loads(h: Heap, r: GcRef, f: CompiledFunction) -> bool
    decreases f,
{
    &&& h.has_kind(r, HeapKind::KCode)
    &&& (h.obj_at(r) matches HeapObject::Code(b) && {
        &&& b.name == Some(f.id)
        &&& b.args == f.args
        &&& b.instructions@ == f.instructions@
        &&& b.strings@.len() == f.strings@.len()
        &&& (forall|k: int|
            0 <= k < b.strings@.len() ==> ((#[trigger] h.obj_at(b.strings@[k]))
                matches HeapObject::Str(st) && st@ == f.strings@[k]@))
        &&& b.inner_functions@.len() == f.inner_functions@.len()
        &&& (forall|k: int|
            0 <= k < b.inner_functions@.len() ==> loads(
                h,
                #[trigger] b.inner_functions@[k],
                f.inner_functions@[k],
            ))
    })
}

/// A loaded function stays loaded in any heap that preserves every live
/// object.
pub proof fn lemma_loads_preserved(h1: Heap, h2: Heap, r: GcRef, f: CompiledFunction)
    requires
        loads(h1, r, f),
        forall|q: GcRef|
            #[trigger] h1.live(q) ==> h2.live(q) && h2.obj_at(q) == h1.obj_at(q),
        h1.wf(),
    ensures
        loads(h2, r, f),
    decreases f,
{
    let b = h1.obj_at(r)->Code_0;
    assert(h2.live(r) && h2.obj_at(r) == h1.obj_at(r));
    assert(h1.obj_wf(h1.obj_at_ix(r.ix as int)));
    assert forall|k: int| 0 <= k < b.strings@.len() implies ((#[trigger] h2.obj_at(
        b.strings@[k],
    )) matches HeapObject::Str(st) && st@ == f.strings@[k]@) by {
        assert(h1.has_kind(b.strings@[k], HeapKind::KStr));
        assert(h2.obj_at(b.strings@[k]) == h1.obj_at(b.strings@[k]));
    }
    assert forall|k: int| 0 <= k < b.inner_functions@.len() implies loads(
        h2,
        #[trigger] b.inner_functions@[k],
        f.inner_functions@[k],
    ) by {
        lemma_loads_preserved(h1, h2, b.inner_functions@[k], f.inner_functions@[k]);
    }
}

/// Copy a sequence of instructions.
fn clone_instructions(v: &Vec<Instruction>) -> (out: Vec<Instruction>)
    ensures
        out@ == v@,
{
    let mut out: Vec<Instruction> = Vec::new();
    let n = v.len();
    let mut i: usize = 0;
    while i < n
        invariant
            n == v@.len(),
            i <= n,
            out@ == v@.take(i as int),
        decreases n - i,
    {
        out.push(v[i]);
        proof {
            assert(out@ =~= v@.take(i + 1));
        }
        i += 1;
    }
    proof {
        assert(v@.take(n as int) =~= v@);
    }
    out
}

impl VM {
    /// Load a compiled function into the heap as an immutable bytecode
    /// object, loading nested functions and interning string constants
    /// first. Never collects: the wiring is not yet reachable from a root.
    pub fn new_function(&mut self, f: &CompiledFunction) -> (r: Result<GcRef, Error>)
        requires
            old(self).wf(),
        ensures
            final(self).wf(),
            final(self).stack == old(self).stack,
            final(self).globals == old(self).globals,
            final(self).symbols == old(self).symbols,
            final(self).roots == old(self).roots,
            final(self).rooted_values == old(self).rooted_values,
            final(self).type_names == old(self).type_names,
            forall|q: GcRef|
                #[trigger] old(self).heap.live(q) ==> final(self).heap.live(q) && final(self).heap.obj_at(q) == old(self).heap.obj_at(q),
            match r {
                Ok(r) => loads(final(self).heap, r, *f),
                Err(e) => e is OutOfMemory && final(self).heap.live == final(self).heap.capacity,
            },
        decreases *f,
    {
        let n_inner = f.inner_functions.len();
        let mut inner: Vec<GcRef> = Vec::new();
        let mut i: usize = 0;
        while i < n_inner
            invariant
                self.wf(),
                i <= n_inner,
                n_inner == f.inner_functions@.len(),
                inner@.len() == i,
                forall|k: int|
                    0 <= k < i ==> loads(self.heap, #[trigger] inner@[k], f.inner_functions@[k]),
                self.stack == old(self).stack,
                self.globals == old(self).globals,
                self.symbols == old(self).symbols,
                self.roots == old(self).roots,
                self.rooted_values == old(self).rooted_values,
                self.type_names == old(self).type_names,
                forall|q: GcRef|
                    #[trigger] old(self).heap.live(q) ==> self.heap.live(q) && self.heap.obj_at(q)
                        == old(self).heap.obj_at(q),
            decreases n_inner - i,
        {
            let ghost pre = self.heap;
            let child = match self.new_function(&f.inner_functions[i]) {
                Ok(c) => c,
                Err(e) => {
                    return Err(e);
                }
            };
            inner.push(child);
            proof {
                assert forall|k: int| 0 <= k < i + 1 implies loads(
                    self.heap,
                    #[trigger] inner@[k],
                    f.inner_functions@[k],
                ) by {
                    if k < i {
                        lemma_loads_preserved(pre, self.heap, inner@[k], f.inner_functions@[k]);
                    }
                }
            }
            i += 1;
        }
        let n_str = f.strings.len();
        let mut strs: Vec<GcRef> = Vec::new();
        let mut j: usize = 0;
        let ghost after_inner = self.heap;
        while j < n_str
            invariant
                self.wf(),
                j <= n_str,
                n_str == f.strings@.len(),
                strs@.len() == j,
                inner@.len() == f.inner_functions@.len(),
                forall|k: int|
                    0 <= k < inner@.len() ==> loads(
                        self.heap,
                        #[trigger] inner@[k],
                        f.inner_functions@[k],
                    ),
                forall|k: int|
                    0 <= k < j ==> self.heap.has_kind(#[trigger] strs@[k], HeapKind::KStr)
                        && (self.heap.obj_at(strs@[k]) matches HeapObject::Str(st) && st@
                        == f.strings@[k]@),
                self.stack == old(self).stack,
                self.globals == old(self).globals,
                self.symbols == old(self).symbols,
                self.roots == old(self).roots,
                self.rooted_values == old(self).rooted_values,
                self.type_names == old(self).type_names,
                forall|q: GcRef|
                    #[trigger] old(self).heap.live(q) ==> self.heap.live(q) && self.heap.obj_at(q)
                        == old(self).heap.obj_at(q),
            decreases n_str - j,
        {
            let ghost pre = self.heap;
            let sref = match self.intern(f.strings[j].as_str()) {
                Ok(sr) => sr,
                Err(e) => {
                    return Err(e);
                }
            };
            strs.push(sref);
            proof {
                assert forall|k: int| 0 <= k < inner@.len() implies loads(
                    self.heap,
                    #[trigger] inner@[k],
                    f.inner_functions@[k],
                ) by {
                    lemma_loads_preserved(pre, self.heap, inner@[k], f.inner_functions@[k]);
                }
                assert forall|k: int| 0 <= k < j + 1 implies self.heap.has_kind(
                    #[trigger] strs@[k],
                    HeapKind::KStr,
                ) && (self.heap.obj_at(strs@[k]) matches HeapObject::Str(st) && st@
                    == f.strings@[k]@) by {
                    if k < j {
                        assert(pre.live(strs@[k]));
                        assert(self.heap.obj_at(strs@[k]) == pre.obj_at(strs@[k]));
                    }
                }
            }
            j += 1;
        }
        let instructions = clone_instructions(&f.instructions);
        let obj = HeapObject::Code(
            BytecodeFunction {
                name: Some(f.id),
                args: f.args,
                instructions,
                inner_functions: inner,
                strings: strs,
            },
        );
        proof {
            assert(self.heap.obj_wf(obj));
        }
        let ghost pre = self.heap;
        let r = match self.vm_alloc_raw(obj) {
            Ok(r) => r,
            Err(e) => {
                return Err(e);
            }
        };
        proof {
            let b = self.heap.obj_at(r)->Code_0;
            assert forall|k: int| 0 <= k < b.strings@.len() implies ((
            #[trigger] self.heap.obj_at(b.strings@[k])) matches HeapObject::Str(st) && st@
                == f.strings@[k]@) by {
                assert(pre.live(b.strings@[k]));
                assert(self.heap.obj_at(b.strings@[k]) == pre.obj_at(b.strings@[k]));
            }
            assert forall|k: int| 0 <= k < b.inner_functions@.len() implies loads(
                self.heap,
                #[trigger] b.inner_functions@[k],
                f.inner_functions@[k],
            ) by {
                lemma_loads_preserved(pre, self.heap, b.inner_functions@[k],
                    f.inner_functions@[k]);
            }
            assert(loads(self.heap, r, *f));
        }
        Ok(r)
    }

    /// Register a native function: its name, declared arity and the
    /// host-side identity of its callback. The returned reference can be
    /// bound as a global and called like any other value.
    pub fn new_extern_function(&mut self, name: &str, args: VmIndex, function: usize) -> (r:
        Result<Value, Error>)
        requires
            old(self).wf(),
        ensures
            final(self).wf(),
            final(self).stack == old(self).stack,
            final(self).globals == old(self).globals,
            final(self).roots == old(self).roots,
            final(self).rooted_values == old(self).rooted_values,
            final(self).type_names == old(self).type_names,
            forall|q: GcRef|
                #[trigger] old(self).heap.live(q) ==> final(self).heap.live(q) && final(self).heap.obj_at(q) == old(self).heap.obj_at(q),
            match r {
                Ok(v) => {
                    &&& v matches Value::Function(fr) && (final(self).heap.obj_at(fr)
                        matches HeapObject::ExternObj(e) && e.args == args && e.function
                        == function && e.id < final(self).symbols@.len() && final(self).symbols@[e.id as int]@ == name@)
                    &&& final(self).heap.val_wf(v)
                },
                Err(e) => e is OutOfMemory,
            },
            old(self).heap.live < old(self).heap.capacity ==> r is Ok,
    {
        let id = self.symbol(name);
        let obj = HeapObject::ExternObj(ExternFunction { id, args, function });
        match self.vm_alloc_raw(obj) {
            Ok(r) => Ok(Value::Function(r)),
            Err(e) => Err(e),
        }
    }

    /// Compile-free loading: wrap raw instructions as a global function of
    /// the given name, type and arity. Fails with a message when the name
    /// is already bound.
    pub fn add_bytecode(&mut self, name: &str, typ: TypeDesc, args: VmIndex, instructions: Vec<
        Instruction,
    >) -> (r: Result<VmIndex, Error>)
        requires
            old(self).wf(),
        ensures
            final(self).wf(),
            (r matches Err(e) && e is Message) == old(self).has_global(name@),
            match r {
                Ok(ix) => {
                    &&& ix == old(self).globals@.len()
                    &&& final(self).globals@.len() == old(self).globals@.len() + 1
                    &&& final(self).globals@.last().typ == typ
                    &&& final(self).symbols@[final(self).globals@.last().id as int]@ == name@
                    &&& final(self).globals@.last().value matches Value::Closure(cl) && (final(self).heap.obj_at(cl) matches HeapObject::ClosureObj(cd)
                        && cd.upvars@.len() == 0 && (final(self).heap.obj_at(cd.function)
                        matches HeapObject::Code(b) && b.args == args && b.instructions@
                        == instructions@))
                    &&& final(self).has_global(name@)
                },
                Err(e) => (e matches Error::Message(m) && old(self).has_global(name@) && m@
                    == name@ + " is already defined"@) || (e is OutOfMemory
                    && final(self).heap.live == final(self).heap.capacity),
            },
    {
        if self.global_exists(name) {
            let mut m = name.to_owned();
            m.append(" is already defined");
            return Err(Error::Message(m));
        }
        let id = self.symbol(name);
        let cf = CompiledFunction {
            id,
            typ,
            args,
            instructions,
            inner_functions: Vec::new(),
            strings: Vec::new(),
        };
        let fref = match self.new_function(&cf) {
            Ok(fref) => fref,
            Err(e) => {
                return Err(e);
            }
        };
        let obj = HeapObject::ClosureObj(ClosureData { function: fref, upvars: Vec::new() });
        proof {
            assert(self.heap.obj_wf(obj));
        }
        let cl = match self.vm_alloc_raw(obj) {
            Ok(cl) => cl,
            Err(e) => {
                return Err(e);
            }
        };
        let ix = self.globals.len();
        let g = Global { id, typ, value: Value::Closure(cl) };
        self.globals.push(g);
        proof {
            assert(self.global_with_name(name@, ix as int));
            assert forall|i: int| 0 <= i < self.globals@.len() implies self.heap.val_wf(
                (#[trigger] self.globals@[i]).value,
            ) && self.globals@[i].id < self.symbols@.len() by {
                if i < ix as int {
                    assert(self.globals@[i] == old(self).globals@[i]);
                    assert(old(self).heap.val_wf(old(self).globals@[i].value));
                    assert(old(self).globals@[i].id < old(self).symbols@.len());
                    match old(self).globals@[i].value {
                        Value::Int(_) => {}
                        Value::Float(_) => {}
                        Value::String(q) => {
                            assert(old(self).heap.live(q));
                        }
                        Value::Data(q) => {
                            assert(old(self).heap.live(q));
                        }
                        Value::Function(q) => {
                            assert(old(self).heap.live(q));
                        }
                        Value::Closure(q) => {
                            assert(old(self).heap.live(q));
                        }
                        Value::PartialApplication(q) => {
                            assert(old(self).heap.live(q));
                        }
                        Value::Userdata(q) => {
                            assert(old(self).heap.live(q));
                        }
                        Value::Lazy(q) => {
                            assert(old(self).heap.live(q));
                        }
                    }
                }
            }
            assert forall|i: int, j: int|
                0 <= i < j < self.globals@.len() implies (#[trigger] self.globals@[i]).id != (
            #[trigger] self.globals@[j]).id by {
                if j == ix as int {
                    if self.globals@[i].id == id {
                        assert(self.global_with_name(name@, i));
                        assert(old(self).global_with_name(name@, i));
                    }
                }
            }
        }
        Ok(ix)
    }
}


/// Deep structural equality of values, to the given depth: immediates by
/// their bits, strings by their text, data structures by tag and fields;
/// opaque payloads by identity; functions, closures and partial
/// applications are never equal.
pub open spec fn val_eq_spec(h: Heap, a: Value, b: Value, depth: nat) -> bool
    decreases depth,
{
    match (a, b) {
        (Value::Int(x), Value::Int(y)) => x == y,
        (Value::Float(x), Value::Float(y)) => x == y,
        (Value::String(r1), Value::String(r2)) => h.obj_at(r1)->Str_0@ == h.obj_at(r2)->Str_0@,
        (Value::Data(r1), Value::Data(r2)) => depth > 0 && {
            let d1 = h.obj_at(r1)->Data_0;
            let d2 = h.obj_at(r2)->Data_0;
            &&& d1.tag == d2.tag
            &&& d1.fields@.len() == d2.fields@.len()
            &&& forall|k: int|
                0 <= k < d1.fields@.len() ==> val_eq_spec(
                    h,
                    #[trigger] d1.fields@[k],
                    d2.fields@[k],
                    (depth - 1) as nat,
                )
        },
        (Value::Userdata(r1), Value::Userdata(r2)) => r1 == r2,
        _ => false,
    }
}

impl VM {
    /// Deep structural equality of two values, recursing through data
    /// structures at most `depth` levels.
    pub fn value_eq(&self, a: Value, b: Value, depth: u64) -> (r: bool)
        requires
            self.wf(),
            self.heap.val_wf(a),
            self.heap.val_wf(b),
        ensures
            r == val_eq_spec(self.heap, a, b, depth as nat),
        decreases depth,
    {
        match (a, b) {
            (Value::Int(x), Value::Int(y)) => x == y,
            (Value::Float(x), Value::Float(y)) => x == y,
            (Value::String(r1), Value::String(r2)) => {
                let s1 = match self.heap.obj(r1) {
                    HeapObject::Str(st) => st.clone(),
                    _ => vstd::pervasive::unreached(),
                };
                let s2 = match self.heap.obj(r2) {
                    HeapObject::Str(st) => st.clone(),
                    _ => vstd::pervasive::unreached(),
                };
                s1 == s2
            }
            (Value::Data(r1), Value::Data(r2)) => {
                if depth == 0 {
                    return false;
                }
                proof {
                    assert(self.heap.obj_wf(self.heap.obj_at(r1)));
                    assert(self.heap.obj_wf(self.heap.obj_at(r2)));
                }
                let (tag1, len1) = match self.heap.obj(r1) {
                    HeapObject::Data(ds) => (ds.tag, ds.fields.len()),
                    _ => vstd::pervasive::unreached(),
                };
                let (tag2, len2) = match self.heap.obj(r2) {
                    HeapObject::Data(ds) => (ds.tag, ds.fields.len()),
                    _ => vstd::pervasive::unreached(),
                };
                if tag1 != tag2 || len1 != len2 {
                    return false;
                }
                let mut k: usize = 0;
                while k < len1
                    invariant
                        self.wf(),
                        self.heap.val_wf(a),
                        self.heap.val_wf(b),
                        a == Value::Data(r1),
                        b == Value::Data(r2),
                        self.heap.has_kind(r1, HeapKind::KData),
                        self.heap.has_kind(r2, HeapKind::KData),
                        k <= len1,
                        depth >= 1,
                        len1 == self.heap.obj_at(r1)->Data_0.fields@.len(),
                        len1 == self.heap.obj_at(r2)->Data_0.fields@.len(),
                        forall|j: int|
                            0 <= j < k ==> val_eq_spec(
                                self.heap,
                                #[trigger] self.heap.obj_at(r1)->Data_0.fields@[j],
                                self.heap.obj_at(r2)->Data_0.fields@[j],
                                (depth - 1) as nat,
                            ),
                    decreases len1 - k,
                {
                    let f1 = match self.heap.obj(r1) {
                        HeapObject::Data(ds) => ds.fields[k],
                        _ => vstd::pervasive::unreached(),
                    };
                    let f2 = match self.heap.obj(r2) {
                        HeapObject::Data(ds) => ds.fields[k],
                        _ => vstd::pervasive::unreached(),
                    };
                    proof {
                        assert(self.heap.obj_wf(self.heap.obj_at(r1)));
                        assert(self.heap.obj_wf(self.heap.obj_at(r2)));
                        assert(self.heap.val_wf(f1));
                        assert(self.heap.val_wf(f2));
                    }
                    if !self.value_eq(f1, f2, depth - 1) {
                        return false;
                    }
                    k += 1;
                }
                true
            }
            (Value::Userdata(r1), Value::Userdata(r2)) => r1 == r2,
            _ => false,
        }
    }

    /// Pin a value so it survives collections until released; pins are
    /// released in reverse order of acquisition.
    pub fn root_value(&mut self, v: Value)
        requires
            old(self).wf(),
            old(self).heap.val_wf(v),
        ensures
            final(self).wf(),
            final(self).rooted_values@ == old(self).rooted_values@.push(v),
            final(self).heap == old(self).heap,
            final(self).stack == old(self).stack,
            final(self).globals == old(self).globals,
            final(self).symbols == old(self).symbols,
            final(self).interner == old(self).interner,
            final(self).roots == old(self).roots,
            final(self).type_names == old(self).type_names,
    {
        self.rooted_values.push(v);
        proof {
            assert forall|i: int| 0 <= i < self.rooted_values@.len() implies self.heap.val_wf(
                #[trigger] self.rooted_values@[i],
            ) by {
                if i < old(self).rooted_values@.len() {
                    assert(old(self).heap.val_wf(old(self).rooted_values@[i]));
                }
            }
        }
    }

    /// Release the most recently pinned value.
    pub fn release_value(&mut self)
        requires
            old(self).wf(),
            old(self).rooted_values@.len() > 0,
        ensures
            final(self).wf(),
            final(self).rooted_values@ == old(self).rooted_values@.drop_last(),
            final(self).heap == old(self).heap,
            final(self).stack == old(self).stack,
            final(self).globals == old(self).globals,
            final(self).symbols == old(self).symbols,
            final(self).interner == old(self).interner,
            final(self).roots == old(self).roots,
            final(self).type_names == old(self).type_names,
    {
        self.rooted_values.pop();
    }

    /// Pin an opaque boxed payload, handing back its identity and handle;
    /// fails without pinning when the reference is not a boxed payload.
    pub fn root(&mut self, r: GcRef) -> (res: Option<Userdata_>)
        requires
            old(self).wf(),
            old(self).heap.live(r),
        ensures
            final(self).wf(),
            final(self).heap == old(self).heap,
            final(self).stack == old(self).stack,
            final(self).globals == old(self).globals,
            final(self).symbols == old(self).symbols,
            final(self).interner == old(self).interner,
            final(self).rooted_values == old(self).rooted_values,
            final(self).type_names == old(self).type_names,
            match res {
                Some(u) => old(self).heap.obj_at(r) == HeapObject::Boxed(u) && final(self).roots@ == old(self).roots@.push(r),
                None => !(old(self).heap.obj_at(r) is Boxed) && final(self).roots == old(self).roots,
            },
    {
        let u = match self.heap.obj(r) {
            HeapObject::Boxed(u) => Some(*u),
            _ => None,
        };
        match u {
            Some(u) => {
                self.roots.push(r);
                proof {
                    assert forall|i: int| 0 <= i < self.roots@.len() implies self.heap.live(
                        #[trigger] self.roots@[i],
                    ) by {
                        if i < old(self).roots@.len() {
                            assert(old(self).heap.live(old(self).roots@[i]));
                        }
                    }
                }
                Some(u)
            }
            None => None,
        }
    }

    /// Pin a heap string and hand back its text.
    pub fn root_string(&mut self, r: GcRef) -> (s: String)
        requires
            old(self).wf(),
            old(self).heap.has_kind(r, HeapKind::KStr),
        ensures
            final(self).wf(),
            s@ == old(self).heap.obj_at(r)->Str_0@,
            final(self).roots@ == old(self).roots@.push(r),
            final(self).heap == old(self).heap,
            final(self).stack == old(self).stack,
            final(self).globals == old(self).globals,
            final(self).symbols == old(self).symbols,
            final(self).interner == old(self).interner,
            final(self).rooted_values == old(self).rooted_values,
            final(self).type_names == old(self).type_names,
    {
        let s = match self.heap.obj(r) {
            HeapObject::Str(st) => st.clone(),
            _ => vstd::pervasive::unreached(),
        };
        self.roots.push(r);
        proof {
            assert forall|i: int| 0 <= i < self.roots@.len() implies self.heap.live(
                #[trigger] self.roots@[i],
            ) by {
                if i < old(self).roots@.len() {
                    assert(old(self).heap.live(old(self).roots@[i]));
                }
            }
        }
        s
    }

    /// Release the most recently pinned handle.
    pub fn release_root(&mut self)
        requires
            old(self).wf(),
            old(self).roots@.len() > 0,
        ensures
            final(self).wf(),
            final(self).roots@ == old(self).roots@.drop_last(),
            final(self).heap == old(self).heap,
            final(self).stack == old(self).stack,
            final(self).globals == old(self).globals,
            final(self).symbols == old(self).symbols,
            final(self).interner == old(self).interner,
            final(self).rooted_values == old(self).rooted_values,
            final(self).type_names == old(self).type_names,
    {
        self.roots.pop();
    }

    /// Box an opaque native payload: a registered type identity plus a
    /// host-side handle.
    pub fn new_userdata(&mut self, type_id: usize, data: u64) -> (r: Result<Value, Error>)
        requires
            old(self).wf(),
        ensures
            final(self).wf(),
            final(self).stack == old(self).stack,
            final(self).globals == old(self).globals,
            final(self).symbols == old(self).symbols,
            final(self).interner == old(self).interner,
            final(self).roots == old(self).roots,
            final(self).rooted_values == old(self).rooted_values,
            final(self).type_names == old(self).type_names,
            forall|q: GcRef|
                #[trigger] old(self).heap.live(q) ==> final(self).heap.live(q) && final(self).heap.obj_at(q) == old(self).heap.obj_at(q),
            match r {
                Ok(v) => v matches Value::Userdata(u) && final(self).heap.obj_at(u)
                    == HeapObject::Boxed(Userdata_ { type_id, data }) && final(self).heap.val_wf(
                    v,
                ),
                Err(e) => e is OutOfMemory,
            },
            old(self).heap.live < old(self).heap.capacity ==> r is Ok,
    {
        match self.vm_alloc_raw(HeapObject::Boxed(Userdata_ { type_id, data })) {
            Ok(r) => Ok(Value::Userdata(r)),
            Err(e) => Err(e),
        }
    }

    /// Box a value as a lazy cell.
    pub fn new_lazy(&mut self, v: Value) -> (r: Result<Value, Error>)
        requires
            old(self).wf(),
            old(self).heap.val_wf(v),
        ensures
            final(self).wf(),
            final(self).stack == old(self).stack,
            final(self).globals == old(self).globals,
            final(self).symbols == old(self).symbols,
            final(self).interner == old(self).interner,
            final(self).roots == old(self).roots,
            final(self).rooted_values == old(self).rooted_values,
            final(self).type_names == old(self).type_names,
            forall|q: GcRef|
                #[trigger] old(self).heap.live(q) ==> final(self).heap.live(q) && final(self).heap.obj_at(q) == old(self).heap.obj_at(q),
            match r {
                Ok(lv) => lv matches Value::Lazy(u) && final(self).heap.obj_at(u)
                    == HeapObject::LazyCell(v) && final(self).heap.val_wf(lv),
                Err(e) => e is OutOfMemory,
            },
            old(self).heap.live < old(self).heap.capacity ==> r is Ok,
    {
        match self.vm_alloc_raw(HeapObject::LazyCell(v)) {
            Ok(r) => Ok(Value::Lazy(r)),
            Err(e) => Err(e),
        }
    }
}


impl VM {
    /// Allocate a closure over a loaded bytecode function, capturing the
    /// given upvalues.
    pub fn new_closure(&mut self, function: GcRef, upvars: Vec<Value>) -> (r: Result<
        Value,
        Error,
    >)
        requires
            old(self).wf(),
            old(self).heap.has_kind(function, HeapKind::KCode),
            forall|k: int| 0 <= k < upvars@.len() ==> old(self).heap.val_wf(#[trigger] upvars@[k]),
        ensures
            final(self).wf(),
            final(self).stack == old(self).stack,
            final(self).globals == old(self).globals,
            final(self).symbols == old(self).symbols,
            final(self).interner == old(self).interner,
            final(self).roots == old(self).roots,
            final(self).rooted_values == old(self).rooted_values,
            final(self).type_names == old(self).type_names,
            forall|q: GcRef|
                #[trigger] old(self).heap.live(q) ==> final(self).heap.live(q) && final(self).heap.obj_at(q) == old(self).heap.obj_at(q),
            match r {
                Ok(v) => v matches Value::Closure(cl) && (final(self).heap.obj_at(cl)
                    matches HeapObject::ClosureObj(cd) && cd.function == function && cd.upvars@
                    == upvars@) && final(self).heap.val_wf(v),
                Err(e) => e is OutOfMemory,
            },
            old(self).heap.live < old(self).heap.capacity ==> r is Ok,
    {
        let obj = HeapObject::ClosureObj(ClosureData { function, upvars });
        proof {
            assert(self.heap.obj_wf(obj));
        }
        match self.vm_alloc_raw(obj) {
            Ok(r) => Ok(Value::Closure(r)),
            Err(e) => Err(e),
        }
    }
}


/// Position `p` holds the dot that begins a filename's extension: the last
/// dot, lying within the final path component and not leading it.
pub open spec fn extension_dot_at(s: Seq<char>, p: int) -> bool {
    &&& 0 < p < s.len()
    &&& s[p] == '.'
    &&& s[p - 1] != '/'
    &&& forall|j: int| p < j < s.len() ==> s[j] != '.' && s[j] != '/'
}

/// A path's text with every separator replaced by a dot.
pub open spec fn dotted(s: Seq<char>) -> Seq<char> {
    Seq::new(
        s.len(),
        |i: int|
            if s[i] == '/' {
                '.'
            } else {
                s[i]
            },
    )
}

/// The module name recorded for a loaded script file: the filename with
/// its extension stripped and every path separator replaced by a dot. A
/// filename without an extension is excluded: loading such a file is a
/// caller error.
pub fn filename_to_module(filename: &str) -> (r: String)
    requires
        exists|p: int| extension_dot_at(filename@, p),
    ensures
        forall|p: int| extension_dot_at(filename@, p) ==> r@ == dotted(filename@.take(p)),
{
    let chars = chars_of(filename);
    let n = chars.len();
    let mut i: usize = n;
    loop
        invariant
            chars@ == filename@,
            n == chars@.len(),
            i <= n,
            exists|p: int| extension_dot_at(filename@, p),
            forall|j: int| i <= j < n ==> filename@[j] != '.' && filename@[j] != '/',
        decreases i,
    {
        if i == 0 {
            proof {
                let p = choose|p: int| extension_dot_at(filename@, p);
                assert(filename@[p] == '.');
                assert(false);
            }
            return vstd::pervasive::unreached();
        }
        i = i - 1;
        let c = chars[i];
        if c == '.' {
            if i == 0 || chars[i - 1] == '/' {
                proof {
                    let p = choose|p: int| extension_dot_at(filename@, p);
                    assert(p <= i);
                    assert(p == i);
                    assert(false);
                }
                return vstd::pervasive::unreached();
            }
            // the extension's dot: keep what precedes it, dotted
            let mut out = String::new();
            let mut k: usize = 0;
            while k < i
                invariant
                    chars@ == filename@,
                    n == chars@.len(),
                    i < n,
                    k <= i,
                    out@ == dotted(filename@.take(i as int)).take(k as int),
                decreases i - k,
            {
                let ck = chars[k];
                if ck == '/' {
                    crate::pretty::push_char(&mut out, '.');
                } else {
                    crate::pretty::push_char(&mut out, ck);
                }
                proof {
                    assert(out@ =~= dotted(filename@.take(i as int)).take(k + 1));
                }
                k += 1;
            }
            proof {
                assert(out@ =~= dotted(filename@.take(i as int)));
                assert forall|p: int| extension_dot_at(filename@, p) implies out@ == dotted(
                    filename@.take(p),
                ) by {
                    assert(p == i);
                }
            }
            return out;
        }
        if c == '/' {
            proof {
                let p = choose|p: int| extension_dot_at(filename@, p);
                assert(p < i);
                assert(filename@[i as int] == '/');
                assert(false);
            }
            return vstd::pervasive::unreached();
        }
    }
}

/// The characters of a string, in order.
fn chars_of(s: &str) -> (out: Vec<char>)
    ensures
        out@ == s@,
{
    let mut out: Vec<char> = Vec::new();
    let mut it = s.chars();
    let ghost mut done: Seq<char> = Seq::empty();
    loop
        invariant
            done + it.remaining() == s@,
            out@ == done,
            it.decrease() is Some,
        decreases it.decrease()->0,
    {
        let ghost prev = it;
        match it.next() {
            Some(c) => {
                proof {
                    assert(prev.remaining()[0] == c);
                    done = done.push(c);
                    assert(done + it.remaining() =~= s@);
                }
                out.push(c);
            }
            None => {
                proof {
                    assert(done =~= s@);
                }
                return out;
            }
        }
    }
}

} // verus!
