//! The heap and its tracing garbage collector. The heap exclusively owns
//! every runtime allocation; values hold stable arena indices into it. When
//! an allocation request cannot be satisfied the collector performs a
//! synchronous trace-and-reclaim over the full root set and the allocation
//! is retried; that is the only trigger.

use vstd::prelude::*;
use crate::Error;
use crate::GcRef;
use crate::VmIndex;
use crate::VmTag;
use crate::code::Instruction;
use crate::value::Callable;
use crate::value::Symbol;
use crate::value::Value;

verus! {

/// A tagged record: ordered mutable value cells behind a heap reference.
#[derive(Clone, Debug)]
pub struct DataStruct {
    pub tag: VmTag,
    pub fields: Vec<Value>,
}

/// A closure: a bytecode function paired with captured mutable upvalues.
#[derive(Clone, Debug)]
pub struct ClosureData {
    pub function: GcRef,
    pub upvars: Vec<Value>,
}

/// An immutable bytecode object: one compiled function loaded into the heap.
/// Nested functions and string constants are held as heap references.
#[derive(Clone, Debug)]
pub struct BytecodeFunction {
    pub name: Option<Symbol>,
    pub args: VmIndex,
    pub instructions: Vec<Instruction>,
    pub inner_functions: Vec<GcRef>,
    pub strings: Vec<GcRef>,
}

impl BytecodeFunction {
    /// An empty, nameless function of no arguments and no instructions.
    pub fn empty() -> (f: BytecodeFunction)
        ensures
            f.name is None,
            f.args == 0,
            f.instructions@.len() == 0,
            f.inner_functions@.len() == 0,
            f.strings@.len() == 0,
    {
        BytecodeFunction {
            name: None,
            args: 0,
            instructions: Vec::new(),
            inner_functions: Vec::new(),
            strings: Vec::new(),
        }
    }
}

/// A host-provided function: its name, declared arity and the host-side
/// identity of its callback. The callback itself lives outside the core;
/// the interpreter suspends to let the host run it.
#[derive(Clone, Copy, Debug)]
pub struct ExternFunction {
    pub id: Symbol,
    pub args: VmIndex,
    pub function: usize,
}

/// A partial application: a callable plus fewer arguments than its arity,
/// awaiting the remainder.
#[derive(Clone, Debug)]
pub struct PartialApplicationData {
    pub function: Callable,
    pub arguments: Vec<Value>,
}

/// An opaque boxed native payload: a stable per-native-type identity plus a
/// host-side handle, downcast fallibly by comparing the identity.
#[derive(Clone, Copy, Debug)]
pub struct Userdata_ {
    pub type_id: usize,
    pub data: u64,
}

/// Any heap allocation.
#[derive(Clone, Debug)]
pub enum HeapObject {
    Str(String),
    Data(DataStruct),
    Code(BytecodeFunction),
    ClosureObj(ClosureData),
    PartialApp(PartialApplicationData),
    ExternObj(ExternFunction),
    Boxed(Userdata_),
    LazyCell(Value),
}

/// The kind of a heap object, used to state that a reference is
/// kind-matched with the value variant that carries it.
#[derive(Clone, Copy, Debug, PartialEq, Eq, Structural)]
pub enum HeapKind {
    KStr,
    KData,
    KCode,
    KClosure,
    KPartial,
    KExtern,
    KBoxed,
    KLazy,
}

pub open spec fn kind_of(o: HeapObject) -> HeapKind {
    match o {
        HeapObject::Str(_) => HeapKind::KStr,
        HeapObject::Data(_) => HeapKind::KData,
        HeapObject::Code(_) => HeapKind::KCode,
        HeapObject::ClosureObj(_) => HeapKind::KClosure,
        HeapObject::PartialApp(_) => HeapKind::KPartial,
        HeapObject::ExternObj(_) => HeapKind::KExtern,
        HeapObject::Boxed(_) => HeapKind::KBoxed,
        HeapObject::LazyCell(_) => HeapKind::KLazy,
    }
}

/// Whether some value in `vals` carries the reference `e`.
pub open spec fn seq_has_ref(vals: Seq<Value>, e: GcRef) -> bool {
    exists|m: int| 0 <= m < vals.len() && #[trigger] vals[m].spec_ref() == Some(e)
}

/// The fixed per-kind edge set the collector traces: `e` is an edge of `o`
/// exactly when `o` holds a reference to `e`.
pub open spec fn obj_has_edge(o: HeapObject, e: GcRef) -> bool {
    match o {
        HeapObject::Str(_) => false,
        HeapObject::Data(d) => seq_has_ref(d.fields@, e),
        HeapObject::Code(f) => f.inner_functions@.contains(e) || f.strings@.contains(e),
        HeapObject::ClosureObj(c) => c.function == e || seq_has_ref(c.upvars@, e),
        HeapObject::PartialApp(p) => p.function.spec_ref() == e || seq_has_ref(p.arguments@, e),
        HeapObject::ExternObj(_) => false,
        HeapObject::Boxed(_) => false,
        HeapObject::LazyCell(v) => v.spec_ref() == Some(e),
    }
}

/// How many slots of an arena hold an object.
pub open spec fn live_count(s: Seq<Option<HeapObject>>) -> nat
    decreases s.len(),
{
    if s.len() == 0 {
        0
    } else {
        live_count(s.drop_last()) + (if s.last() is Some {
            1nat
        } else {
            0nat
        })
    }
}

pub proof fn lemma_live_count_le(s: Seq<Option<HeapObject>>)
    ensures
        live_count(s) <= s.len(),
    decreases s.len(),
{
    if s.len() > 0 {
        lemma_live_count_le(s.drop_last());
    }
}

pub proof fn lemma_live_count_push(s: Seq<Option<HeapObject>>, v: Option<HeapObject>)
    ensures
        live_count(s.push(v)) == live_count(s) + (if v is Some {
            1int
        } else {
            0int
        }),
{
    assert(s.push(v).drop_last() =~= s);
    assert(s.push(v).last() == v);
}

pub proof fn lemma_live_count_update(s: Seq<Option<HeapObject>>, i: int, v: Option<HeapObject>)
    requires
        0 <= i < s.len(),
    ensures
        live_count(s.update(i, v)) == live_count(s) - (if s[i] is Some {
            1int
        } else {
            0int
        }) + (if v is Some {
            1int
        } else {
            0int
        }),
    decreases s.len(),
{
    let t = s.update(i, v);
    if i == s.len() - 1 {
        assert(t.drop_last() =~= s.drop_last());
    } else {
        assert(t.drop_last() =~= s.drop_last().update(i, v));
        lemma_live_count_update(s.drop_last(), i, v);
    }
}

pub proof fn lemma_live_count_all_some(s: Seq<Option<HeapObject>>)
    requires
        live_count(s) == s.len(),
    ensures
        forall|i: int| 0 <= i < s.len() ==> s[i] is Some,
    decreases s.len(),
{
    if s.len() > 0 {
        lemma_live_count_le(s.drop_last());
        lemma_live_count_all_some(s.drop_last());
        assert(forall|i: int|
            0 <= i < s.len() - 1 ==> s[i] == s.drop_last()[i]);
    }
}

pub proof fn lemma_live_count_full(s: Seq<Option<HeapObject>>)
    requires
        forall|i: int| 0 <= i < s.len() ==> s[i] is Some,
    ensures
        live_count(s) == s.len(),
    decreases s.len(),
{
    if s.len() > 0 {
        lemma_live_count_full(s.drop_last());
    }
}

pub proof fn lemma_live_count_pos(s: Seq<Option<HeapObject>>, i: int)
    requires
        0 <= i < s.len(),
        s[i] is Some,
    ensures
        live_count(s) >= 1,
    decreases s.len(),
{
    if i == s.len() - 1 {
    } else {
        lemma_live_count_pos(s.drop_last(), i);
    }
}

/// The heap: an arena of slots with stable indices, a live-object counter
/// and a capacity in objects. Allocation past the capacity triggers a
/// collection.
pub struct Heap {
    pub objects: Vec<Option<HeapObject>>,
    pub capacity: usize,
    pub live: usize,
}

impl Heap {
    pub open spec fn live_ix(self, i: int) -> bool {
        0 <= i < self.objects@.len() && self.objects@[i] is Some
    }

    pub open spec fn live(self, r: GcRef) -> bool {
        self.live_ix(r.ix as int)
    }

    pub open spec fn obj_at_ix(self, i: int) -> HeapObject {
        self.objects@[i]->0
    }

    pub open spec fn obj_at(self, r: GcRef) -> HeapObject {
        self.obj_at_ix(r.ix as int)
    }

    pub open spec fn kind_at(self, r: GcRef) -> HeapKind {
        kind_of(self.obj_at(r))
    }

    pub open spec fn has_kind(self, r: GcRef, k: HeapKind) -> bool {
        self.live(r) && self.kind_at(r) == k
    }

    /// A value is well formed when any reference it carries is live and
    /// kind-matched: dereferencing it cannot go wrong.
    pub open spec fn val_wf(self, v: Value) -> bool {
        match v {
            Value::Int(_) => true,
            Value::Float(_) => true,
            Value::String(r) => self.has_kind(r, HeapKind::KStr),
            Value::Data(r) => self.has_kind(r, HeapKind::KData),
            Value::Function(r) => self.has_kind(r, HeapKind::KExtern),
            Value::Closure(r) => self.has_kind(r, HeapKind::KClosure),
            Value::PartialApplication(r) => self.has_kind(r, HeapKind::KPartial),
            Value::Userdata(r) => self.has_kind(r, HeapKind::KBoxed),
            Value::Lazy(r) => self.has_kind(r, HeapKind::KLazy),
        }
    }

    pub open spec fn callable_wf(self, c: Callable) -> bool {
        match c {
            Callable::Closure(r) => self.has_kind(r, HeapKind::KClosure),
            Callable::Extern(r) => self.has_kind(r, HeapKind::KExtern),
        }
    }

    /// A heap object is well formed when every reference it holds is live
    /// and kind-matched.
    pub open spec fn obj_wf(self, o: HeapObject) -> bool {
        match o {
            HeapObject::Str(_) => true,
            HeapObject::Data(d) => forall|k: int|
                0 <= k < d.fields@.len() ==> self.val_wf(#[trigger] d.fields@[k]),
            HeapObject::Code(f) => (forall|k: int|
                0 <= k < f.inner_functions@.len() ==> self.has_kind(
                    #[trigger] f.inner_functions@[k],
                    HeapKind::KCode,
                )) && (forall|k: int|
                0 <= k < f.strings@.len() ==> self.has_kind(
                    #[trigger] f.strings@[k],
                    HeapKind::KStr,
                )),
            HeapObject::ClosureObj(c) => self.has_kind(c.function, HeapKind::KCode)
                && forall|k: int|
                0 <= k < c.upvars@.len() ==> self.val_wf(#[trigger] c.upvars@[k]),
            HeapObject::PartialApp(p) => self.callable_wf(p.function) && forall|k: int|
                0 <= k < p.arguments@.len() ==> self.val_wf(#[trigger] p.arguments@[k]),
            HeapObject::ExternObj(_) => true,
            HeapObject::Boxed(_) => true,
            HeapObject::LazyCell(v) => self.val_wf(v),
        }
    }

    /// Heap well-formedness: the live counter is exact, the arena respects
    /// the capacity, and every live object is well formed.
    pub open spec fn wf(self) -> bool {
        &&& self.objects@.len() <= self.capacity
        &&& self.live == live_count(self.objects@)
        &&& forall|i: int| #[trigger] self.live_ix(i) ==> self.obj_wf(self.obj_at_ix(i))
    }

    pub fn new(capacity: usize) -> (h: Heap)
        ensures
            h.wf(),
            h.objects@.len() == 0,
            h.capacity == capacity,
            h.live == 0,
    {
        Heap { objects: Vec::new(), capacity, live: 0 }
    }

    /// Read a live object.
    pub fn obj(&self, r: GcRef) -> (o: &HeapObject)
        requires
            self.live(r),
        ensures
            *o == self.obj_at(r),
    {
        match &self.objects[r.ix] {
            Some(o) => o,
            None => vstd::pervasive::unreached(),
        }
    }
}

/// Every reference a well-formed object holds is live.
pub proof fn lemma_obj_edges_live(h: Heap, o: HeapObject, e: GcRef)
    requires
        h.obj_wf(o),
        obj_has_edge(o, e),
    ensures
        h.live(e),
{
    match o {
        HeapObject::Str(_) => {}
        HeapObject::Data(d) => {
            let k = choose|k: int|
                0 <= k < d.fields@.len() && #[trigger] d.fields@[k].spec_ref() == Some(e);
            assert(h.val_wf(d.fields@[k]));
        }
        HeapObject::Code(_) => {}
        HeapObject::ClosureObj(c) => {
            if c.function != e {
                let k = choose|k: int|
                    0 <= k < c.upvars@.len() && #[trigger] c.upvars@[k].spec_ref() == Some(e);
                assert(h.val_wf(c.upvars@[k]));
            }
        }
        HeapObject::PartialApp(p) => {
            if p.function.spec_ref() != e {
                let k = choose|k: int|
                    0 <= k < p.arguments@.len() && #[trigger] p.arguments@[k].spec_ref() == Some(
                        e,
                    );
                assert(h.val_wf(p.arguments@[k]));
            }
        }
        HeapObject::ExternObj(_) => {}
        HeapObject::Boxed(_) => {}
        HeapObject::LazyCell(_) => {}
    }
}

/// Two heaps that agree in liveness and kinds validate the same values.
pub proof fn lemma_val_wf_same_kinds(h1: Heap, h2: Heap)
    requires
        forall|r: GcRef| h1.live(r) <==> h2.live(r),
        forall|r: GcRef| #[trigger] h1.live(r) ==> h1.kind_at(r) == h2.kind_at(r),
    ensures
        forall|v: Value| #[trigger] h1.val_wf(v) == h2.val_wf(v),
        forall|c: Callable| #[trigger] h1.callable_wf(c) == h2.callable_wf(c),
        forall|o: HeapObject| #[trigger] h1.obj_wf(o) == h2.obj_wf(o),
{
    assert forall|v: Value| #[trigger] h1.val_wf(v) == h2.val_wf(v) by {
        match v {
            Value::Int(_) => {}
            Value::Float(_) => {}
            Value::String(r) => {}
            Value::Data(r) => {}
            Value::Function(r) => {}
            Value::Closure(r) => {}
            Value::PartialApplication(r) => {}
            Value::Userdata(r) => {}
            Value::Lazy(r) => {}
        }
    }
    assert forall|o: HeapObject| #[trigger] h1.obj_wf(o) == h2.obj_wf(o) by {
        match o {
            HeapObject::Str(_) => {}
            HeapObject::Data(_) => {}
            HeapObject::Code(_) => {}
            HeapObject::ClosureObj(_) => {}
            HeapObject::PartialApp(_) => {}
            HeapObject::ExternObj(_) => {}
            HeapObject::Boxed(_) => {}
            HeapObject::LazyCell(_) => {}
        }
    }
}

/// Extend `work` with every heap reference found in `vals`, preserving
/// what it already holds.
pub(crate) fn push_value_refs(vals: &Vec<Value>, work: Vec<GcRef>) -> (out: Vec<GcRef>)
    ensures
        out@.len() >= work@.len(),
        forall|k: int| 0 <= k < work@.len() ==> out@[k] == work@[k],
        forall|k: int|
            #![trigger out@[k]]
            work@.len() <= k < out@.len() ==> seq_has_ref(vals@, out@[k]),
        forall|m: int|
            0 <= m < vals@.len() && #[trigger] vals@[m].spec_ref() is Some ==> out@.contains(
                vals@[m].spec_ref()->0,
            ),
{
    let mut out = work;
    let ghost orig = out@;
    let n = vals.len();
    let mut m: usize = 0;
    while m < n
        invariant
            n == vals@.len(),
            m <= n,
            out@.len() >= orig.len(),
            forall|k: int| 0 <= k < orig.len() ==> out@[k] == orig[k],
            forall|k: int|
                #![trigger out@[k]]
                orig.len() <= k < out@.len() ==> seq_has_ref(vals@, out@[k]),
            forall|mm: int|
                0 <= mm < m && #[trigger] vals@[mm].spec_ref() is Some ==> out@.contains(
                    vals@[mm].spec_ref()->0,
                ),
        decreases n - m,
    {
        let ghost prev = out@;
        match vals[m].value_ref() {
            Some(r) => {
                out.push(r);
                proof {
                    assert(seq_has_ref(vals@, r)) by {
                        assert(vals@[m as int].spec_ref() == Some(r));
                    }
                    assert forall|mm: int|
                        0 <= mm < m + 1 && #[trigger] vals@[mm].spec_ref() is Some implies
                        out@.contains(vals@[mm].spec_ref()->0) by {
                        if mm < m {
                            let i = choose|i: int|
                                0 <= i < prev.len() && prev[i] == vals@[mm].spec_ref()->0;
                            assert(out@[i] == vals@[mm].spec_ref()->0);
                        } else {
                            assert(out@[out@.len() - 1] == vals@[mm].spec_ref()->0);
                        }
                    }
                }
            }
            None => {}
        }
        m += 1;
    }
    out
}

/// Extend `work` with every element of `refs`, preserving what it already
/// holds.
pub(crate) fn push_all_refs(refs: &Vec<GcRef>, work: Vec<GcRef>) -> (out: Vec<GcRef>)
    ensures
        out@.len() == work@.len() + refs@.len(),
        forall|k: int| 0 <= k < work@.len() ==> out@[k] == work@[k],
        forall|k: int|
            #![trigger out@[k]]
            work@.len() <= k < out@.len() ==> refs@.contains(out@[k]),
        forall|m: int| 0 <= m < refs@.len() ==> out@[work@.len() + m] == #[trigger] refs@[m],
        forall|m: int| 0 <= m < refs@.len() ==> out@.contains(#[trigger] refs@[m]),
{
    let mut out = work;
    let ghost orig = out@;
    let n = refs.len();
    let mut m: usize = 0;
    while m < n
        invariant
            n == refs@.len(),
            m <= n,
            out@.len() == orig.len() + m,
            forall|k: int| 0 <= k < orig.len() ==> out@[k] == orig[k],
            forall|k: int|
                #![trigger out@[k]]
                orig.len() <= k < out@.len() ==> refs@.contains(out@[k]),
            forall|mm: int| 0 <= mm < m ==> out@[orig.len() + mm] == #[trigger] refs@[mm],
            forall|mm: int| 0 <= mm < m ==> out@.contains(#[trigger] refs@[mm]),
        decreases n - m,
    {
        let ghost prev = out@;
        out.push(refs[m]);
        proof {
            assert(refs@.contains(refs@[m as int]));
            assert forall|mm: int| 0 <= mm < m + 1 implies out@.contains(
                #[trigger] refs@[mm],
            ) by {
                if mm < m {
                    let i = choose|i: int| 0 <= i < prev.len() && prev[i] == refs@[mm];
                    assert(out@[i] == refs@[mm]);
                } else {
                    assert(out@[out@.len() - 1] == refs@[mm]);
                }
            }
        }
        m += 1;
    }
    out
}

impl HeapObject {
    /// Extend `work` with every edge of this object: afterwards it holds
    /// its old elements plus exactly the edges of the object.
    fn push_edges(&self, work: Vec<GcRef>) -> (out: Vec<GcRef>)
        ensures
            out@.len() >= work@.len(),
            forall|k: int| 0 <= k < work@.len() ==> out@[k] == work@[k],
            forall|k: int|
                #![trigger out@[k]]
                work@.len() <= k < out@.len() ==> obj_has_edge(*self, out@[k]),
            forall|e: GcRef| #[trigger] obj_has_edge(*self, e) ==> out@.contains(e),
    {
        match self {
            HeapObject::Str(_) => work,
            HeapObject::Data(d) => push_value_refs(&d.fields, work),
            HeapObject::Code(f) => {
                let ghost mid = work@;
                let out1 = push_all_refs(&f.inner_functions, work);
                let ghost mid2 = out1@;
                let out = push_all_refs(&f.strings, out1);
                proof {
                    assert forall|e: GcRef| #[trigger] obj_has_edge(*self, e) implies
                        out@.contains(e) by {
                        if f.inner_functions@.contains(e) {
                            let i = choose|i: int| 0 <= i < mid2.len() && mid2[i] == e;
                            assert(out@[i] == e);
                        }
                    }
                }
                out
            }
            HeapObject::ClosureObj(c) => {
                let ghost mid = work@;
                let mut out1 = work;
                out1.push(c.function);
                let out = push_value_refs(&c.upvars, out1);
                proof {
                    assert(out@[mid.len() as int] == c.function);
                }
                out
            }
            HeapObject::PartialApp(p) => {
                let ghost mid = work@;
                let mut out1 = work;
                out1.push(p.function.callable_ref());
                let out = push_value_refs(&p.arguments, out1);
                proof {
                    assert(out@[mid.len() as int] == p.function.spec_ref());
                }
                out
            }
            HeapObject::ExternObj(_) => work,
            HeapObject::Boxed(_) => work,
            HeapObject::LazyCell(v) => {
                match v.value_ref() {
                    Some(r) => {
                        let mut out = work;
                        out.push(r);
                        proof {
                            assert(out@[out@.len() - 1] == r);
                        }
                        out
                    }
                    None => work,
                }
            }
        }
    }
}

impl Heap {
    /// Write one field of a live data structure (`SetIndex`, record
    /// mutation). Everything else is untouched.
    pub fn set_data_field(&mut self, r: GcRef, i: VmIndex, v: Value)
        requires
            old(self).wf(),
            old(self).has_kind(r, HeapKind::KData),
            old(self).obj_at(r) matches HeapObject::Data(d) && i < d.fields@.len(),
            old(self).val_wf(v),
        ensures
            final(self).wf(),
            final(self).capacity == old(self).capacity,
            final(self).live == old(self).live,
            final(self).objects@.len() == old(self).objects@.len(),
            forall|j: int|
                0 <= j < old(self).objects@.len() && j != r.ix as int ==> final(self).objects@[j]
                    == old(self).objects@[j],
            final(self).live(r),
            final(self).obj_at(r) matches HeapObject::Data(d2) && old(self).obj_at(
                r,
            ) matches HeapObject::Data(d) && d2.tag == d.tag && d2.fields@ == d.fields@.update(
                i as int,
                v,
            ),
            forall|q: GcRef| old(self).live(q) <==> final(self).live(q),
            forall|q: GcRef| #[trigger] old(self).live(q) ==> old(self).kind_at(q) == final(self).kind_at(q),
    {
        let ghost h1 = *self;
        match &mut self.objects[r.ix] {
            Some(HeapObject::Data(d)) => {
                d.fields.set(i, v);
            }
            _ => {
                proof {
                    assert(false);
                }
            }
        }
        proof {
            let h2 = *self;
            assert(h2.objects@ =~= h1.objects@.update(
                r.ix as int,
                Some(HeapObject::Data(h2.obj_at(r)->Data_0)),
            ));
            lemma_live_count_update(
                h1.objects@,
                r.ix as int,
                h2.objects@[r.ix as int],
            );
            lemma_val_wf_same_kinds(h1, h2);
            assert forall|j: int| #[trigger] h2.live_ix(j) implies h2.obj_wf(h2.obj_at_ix(j)) by {
                assert(h1.live_ix(j));
                if j != r.ix as int {
                    assert(h2.obj_at_ix(j) == h1.obj_at_ix(j));
                    assert(h1.obj_wf(h1.obj_at_ix(j)));
                } else {
                    let d1 = h1.obj_at(r)->Data_0;
                    let d2 = h2.obj_at(r)->Data_0;
                    assert(h1.obj_wf(h1.obj_at_ix(j)));
                    assert forall|k: int| 0 <= k < d2.fields@.len() implies h2.val_wf(
                        #[trigger] d2.fields@[k],
                    ) by {
                        if k == i as int {
                            assert(h1.val_wf(v));
                        } else {
                            assert(d2.fields@[k] == d1.fields@[k]);
                            assert(h1.val_wf(d1.fields@[k]));
                        }
                    }
                }
            }
        }
    }

    /// Backfill one upvalue of a live closure (recursive-group fix-up).
    pub fn set_closure_upvar(&mut self, r: GcRef, i: VmIndex, v: Value)
        requires
            old(self).wf(),
            old(self).has_kind(r, HeapKind::KClosure),
            old(self).obj_at(r) matches HeapObject::ClosureObj(c) && i < c.upvars@.len(),
            old(self).val_wf(v),
        ensures
            final(self).wf(),
            final(self).capacity == old(self).capacity,
            final(self).live == old(self).live,
            final(self).objects@.len() == old(self).objects@.len(),
            forall|j: int|
                0 <= j < old(self).objects@.len() && j != r.ix as int ==> final(self).objects@[j]
                    == old(self).objects@[j],
            final(self).live(r),
            final(self).obj_at(r) matches HeapObject::ClosureObj(c2) && old(self).obj_at(
                r,
            ) matches HeapObject::ClosureObj(c) && c2.function == c.function && c2.upvars@
                == c.upvars@.update(i as int, v),
            forall|q: GcRef| old(self).live(q) <==> final(self).live(q),
            forall|q: GcRef| #[trigger] old(self).live(q) ==> old(self).kind_at(q) == final(self).kind_at(q),
    {
        let ghost h1 = *self;
        match &mut self.objects[r.ix] {
            Some(HeapObject::ClosureObj(c)) => {
                c.upvars.set(i, v);
            }
            _ => {
                proof {
                    assert(false);
                }
            }
        }
        proof {
            let h2 = *self;
            assert(h2.objects@ =~= h1.objects@.update(
                r.ix as int,
                Some(HeapObject::ClosureObj(h2.obj_at(r)->ClosureObj_0)),
            ));
            lemma_live_count_update(
                h1.objects@,
                r.ix as int,
                h2.objects@[r.ix as int],
            );
            lemma_val_wf_same_kinds(h1, h2);
            assert forall|j: int| #[trigger] h2.live_ix(j) implies h2.obj_wf(h2.obj_at_ix(j)) by {
                assert(h1.live_ix(j));
                if j != r.ix as int {
                    assert(h2.obj_at_ix(j) == h1.obj_at_ix(j));
                    assert(h1.obj_wf(h1.obj_at_ix(j)));
                } else {
                    let c1 = h1.obj_at(r)->ClosureObj_0;
                    let c2 = h2.obj_at(r)->ClosureObj_0;
                    assert(h1.obj_wf(h1.obj_at_ix(j)));
                    assert forall|k: int| 0 <= k < c2.upvars@.len() implies h2.val_wf(
                        #[trigger] c2.upvars@[k],
                    ) by {
                        if k == i as int {
                            assert(h1.val_wf(v));
                        } else {
                            assert(c2.upvars@[k] == c1.upvars@[k]);
                            assert(h1.val_wf(c1.upvars@[k]));
                        }
                    }
                }
            }
        }
    }
}

/// An object stays well formed in a new heap where all of its edges are
/// live with unchanged contents.
pub proof fn lemma_obj_wf_preserved(h1: Heap, h2: Heap, o: HeapObject)
    requires
        h1.obj_wf(o),
        forall|e: GcRef| #[trigger] obj_has_edge(o, e) ==> h2.live(e) && h2.obj_at(e)
            == h1.obj_at(e),
    ensures
        h2.obj_wf(o),
{
    match o {
        HeapObject::Str(_) => {}
        HeapObject::Data(d) => {
            assert forall|k: int| 0 <= k < d.fields@.len() implies h2.val_wf(
                #[trigger] d.fields@[k],
            ) by {
                let v = d.fields@[k];
                if v.spec_ref() is Some {
                    let e = v.spec_ref()->0;
                    assert(obj_has_edge(o, e));
                }
            }
        }
        HeapObject::Code(f) => {
            assert forall|k: int| 0 <= k < f.inner_functions@.len() implies h2.has_kind(
                #[trigger] f.inner_functions@[k],
                HeapKind::KCode,
            ) by {
                assert(obj_has_edge(o, f.inner_functions@[k]));
            }
            assert forall|k: int| 0 <= k < f.strings@.len() implies h2.has_kind(
                #[trigger] f.strings@[k],
                HeapKind::KStr,
            ) by {
                assert(obj_has_edge(o, f.strings@[k]));
            }
        }
        HeapObject::ClosureObj(c) => {
            assert(obj_has_edge(o, c.function));
            assert forall|k: int| 0 <= k < c.upvars@.len() implies h2.val_wf(
                #[trigger] c.upvars@[k],
            ) by {
                let v = c.upvars@[k];
                if v.spec_ref() is Some {
                    let e = v.spec_ref()->0;
                    assert(obj_has_edge(o, e));
                }
            }
        }
        HeapObject::PartialApp(p) => {
            assert(obj_has_edge(o, p.function.spec_ref()));
            assert forall|k: int| 0 <= k < p.arguments@.len() implies h2.val_wf(
                #[trigger] p.arguments@[k],
            ) by {
                let v = p.arguments@[k];
                if v.spec_ref() is Some {
                    let e = v.spec_ref()->0;
                    assert(obj_has_edge(o, e));
                }
            }
        }
        HeapObject::ExternObj(_) => {}
        HeapObject::Boxed(_) => {}
        HeapObject::LazyCell(v) => {
            if v.spec_ref() is Some {
                let e = v.spec_ref()->0;
                assert(obj_has_edge(o, e));
            }
        }
    }
}


/// A path witnessing reachability: it starts at a root, ends at `r`, and
/// every step follows an edge of a live object.
pub open spec fn is_path(h: Heap, roots: Seq<GcRef>, path: Seq<GcRef>, r: GcRef) -> bool {
    &&& path.len() > 0
    &&& roots.contains(path[0])
    &&& path.last() == r
    &&& forall|i: int|
        0 <= i < path.len() - 1 ==> h.live(#[trigger] path[i]) && obj_has_edge(
            h.obj_at(path[i]),
            path[i + 1],
        )
}

/// A reference is reachable from a root set: some path of live edges leads
/// from a root to it.
pub open spec fn reachable(h: Heap, roots: Seq<GcRef>, r: GcRef) -> bool {
    exists|path: Seq<GcRef>| is_path(h, roots, path, r)
}

/// A root is reachable.
pub proof fn lemma_reach_root(h: Heap, roots: Seq<GcRef>, r: GcRef)
    requires
        roots.contains(r),
    ensures
        reachable(h, roots, r),
{
    let path = seq![r];
    assert(is_path(h, roots, path, r));
}

/// Reachability takes a step through any edge of a live reachable object.
pub proof fn lemma_reach_step(h: Heap, roots: Seq<GcRef>, p: GcRef, e: GcRef)
    requires
        reachable(h, roots, p),
        h.live(p),
        obj_has_edge(h.obj_at(p), e),
    ensures
        reachable(h, roots, e),
{
    let path = choose|path: Seq<GcRef>| is_path(h, roots, path, p);
    let path2 = path.push(e);
    assert(path2.last() == e);
    assert(forall|i: int| 0 <= i < path.len() ==> path2[i] == path[i]);
    assert(is_path(h, roots, path2, e));
}

/// The collector's safety guarantee, abstracted over how two heaps relate:
/// if a collection preserved every root and the contents of everything it
/// retained, and the retained set is closed under edges, then everything
/// that was reachable is still there, unchanged. A value reachable from a
/// root may therefore still be dereferenced after a collection.
pub proof fn lemma_reachable_retained(h1: Heap, h2: Heap, roots: Seq<GcRef>, r: GcRef)
    requires
        forall|q: GcRef| roots.contains(q) ==> h2.live(q),
        forall|i: int| #[trigger] h2.live_ix(i) ==> h1.live_ix(i) && h2.objects@[i]
            == h1.objects@[i],
        forall|i: int, e: GcRef|
            h2.live_ix(i) && #[trigger] obj_has_edge(h2.obj_at_ix(i), e) ==> h2.live(e),
        reachable(h1, roots, r),
    ensures
        h2.live(r),
        h2.obj_at(r) == h1.obj_at(r),
{
    let path = choose|path: Seq<GcRef>| is_path(h1, roots, path, r);
    lemma_path_retained(h1, h2, roots, path, r);
}

proof fn lemma_path_retained(h1: Heap, h2: Heap, roots: Seq<GcRef>, path: Seq<GcRef>, r: GcRef)
    requires
        forall|q: GcRef| roots.contains(q) ==> h2.live(q),
        forall|i: int| #[trigger] h2.live_ix(i) ==> h1.live_ix(i) && h2.objects@[i]
            == h1.objects@[i],
        forall|i: int, e: GcRef|
            h2.live_ix(i) && #[trigger] obj_has_edge(h2.obj_at_ix(i), e) ==> h2.live(e),
        is_path(h1, roots, path, r),
    ensures
        h2.live(r),
        h2.obj_at(r) == h1.obj_at(r),
    decreases path.len(),
{
    if path.len() == 1 {
        assert(r == path[0]);
        assert(h2.live(r));
        assert(h2.live_ix(r.ix as int));
    } else {
        let p = path[path.len() - 2];
        let prefix = path.drop_last();
        assert(prefix.last() == p);
        assert(is_path(h1, roots, prefix, p));
        lemma_path_retained(h1, h2, roots, prefix, p);
        assert(h2.live_ix(p.ix as int));
        assert(obj_has_edge(h1.obj_at(p), r));
        assert(obj_has_edge(h2.obj_at_ix(p.ix as int), r));
        assert(h2.live_ix(r.ix as int));
    }
}

/// How many slots are marked.
pub open spec fn count_marked(s: Seq<bool>) -> nat
    decreases s.len(),
{
    if s.len() == 0 {
        0
    } else {
        count_marked(s.drop_last()) + (if s.last() {
            1nat
        } else {
            0nat
        })
    }
}

proof fn lemma_count_marked_le(s: Seq<bool>)
    ensures
        count_marked(s) <= s.len(),
    decreases s.len(),
{
    if s.len() > 0 {
        lemma_count_marked_le(s.drop_last());
    }
}

proof fn lemma_count_marked_lt(s: Seq<bool>, i: int)
    requires
        0 <= i < s.len(),
        !s[i],
    ensures
        count_marked(s) < s.len(),
    decreases s.len(),
{
    lemma_count_marked_le(s.drop_last());
    if i == s.len() - 1 {
    } else {
        lemma_count_marked_lt(s.drop_last(), i);
    }
}

proof fn lemma_count_marked_update(s: Seq<bool>, i: int, v: bool)
    requires
        0 <= i < s.len(),
    ensures
        count_marked(s.update(i, v)) == count_marked(s) - (if s[i] {
            1int
        } else {
            0int
        }) + (if v {
            1int
        } else {
            0int
        }),
    decreases s.len(),
{
    let t = s.update(i, v);
    if i == s.len() - 1 {
        assert(t.drop_last() =~= s.drop_last());
    } else {
        assert(t.drop_last() =~= s.drop_last().update(i, v));
        lemma_count_marked_update(s.drop_last(), i, v);
    }
}

impl Heap {
    /// The tracing mark phase: breadth-first closure of the root set over
    /// the per-kind edge sets. The result marks exactly a set that contains
    /// the roots, is closed under edges, and holds only live, reachable
    /// slots.
    fn mark(&self, roots: &Vec<GcRef>) -> (marks: Vec<bool>)
        requires
            self.wf(),
            forall|j: int| 0 <= j < roots@.len() ==> self.live(#[trigger] roots@[j]),
        ensures
            marks@.len() == self.objects@.len(),
            forall|j: int| 0 <= j < roots@.len() ==> marks@[(#[trigger] roots@[j]).ix as int],
            forall|i: int| 0 <= i < marks@.len() && #[trigger] marks@[i] ==> self.live_ix(i),
            forall|i: int, e: GcRef|
                0 <= i < marks@.len() && marks@[i] && #[trigger] obj_has_edge(
                    self.obj_at_ix(i),
                    e,
                ) ==> marks@[e.ix as int],
            forall|i: int|
                0 <= i < marks@.len() && #[trigger] marks@[i] ==> reachable(
                    *self,
                    roots@,
                    (GcRef { ix: i as usize }),
                ),
    {
        let n = self.objects.len();
        let mut marks: Vec<bool> = Vec::new();
        let mut k: usize = 0;
        while k < n
            invariant
                marks@.len() == k,
                k <= n,
                forall|i: int| 0 <= i < k ==> !marks@[i],
            decreases n - k,
        {
            marks.push(false);
            k += 1;
        }
        proof {
            assert(count_marked(marks@) == 0) by {
                lemma_count_all_false(marks@);
            }
        }
        let mut work: Vec<GcRef> = Vec::new();
        let mut j: usize = 0;
        while j < roots.len()
            invariant
                j <= roots@.len(),
                work@.len() == j,
                forall|i: int| 0 <= i < j ==> work@[i] == roots@[i],
            decreases roots@.len() - j,
        {
            work.push(roots[j]);
            j += 1;
        }
        proof {
            assert forall|i: int| 0 <= i < work@.len() implies self.live(work@[i]) && reachable(
                *self,
                roots@,
                work@[i],
            ) by {
                assert(work@[i] == roots@[i]);
                assert(roots@.contains(roots@[i]));
                lemma_reach_root(*self, roots@, roots@[i]);
            }
            assert forall|jj: int| 0 <= jj < roots@.len() implies marks@[
                (#[trigger] roots@[jj]).ix as int
            ] || work@.contains(roots@[jj]) by {
                assert(work@[jj] == roots@[jj]);
            }
        }
        while work.len() > 0
            invariant
                self.wf(),
                marks@.len() == n,
                n == self.objects@.len(),
                forall|j: int| 0 <= j < roots@.len() ==> self.live(#[trigger] roots@[j]),
                forall|i: int| 0 <= i < work@.len() ==> self.live(#[trigger] work@[i]),
                forall|i: int|
                    0 <= i < work@.len() ==> reachable(*self, roots@, #[trigger] work@[i]),
                forall|jj: int|
                    0 <= jj < roots@.len() ==> marks@[(#[trigger] roots@[jj]).ix as int]
                        || work@.contains(roots@[jj]),
                forall|i: int| 0 <= i < n && #[trigger] marks@[i] ==> self.live_ix(i),
                forall|i: int, e: GcRef|
                    0 <= i < n && marks@[i] && #[trigger] obj_has_edge(
                        self.obj_at_ix(i),
                        e,
                    ) ==> marks@[e.ix as int] || work@.contains(e),
                forall|i: int|
                    0 <= i < n && #[trigger] marks@[i] ==> reachable(
                        *self,
                        roots@,
                        (GcRef { ix: i as usize }),
                    ),
                count_marked(marks@) <= n,
            decreases n - count_marked(marks@), work@.len(),
        {
            let ghost prev_marks = marks@;
            let ghost prev_work = work@;
            let r = match work.pop() {
                Some(r) => r,
                None => vstd::pervasive::unreached(),
            };
            proof {
                assert(prev_work[prev_work.len() - 1] == r);
                assert(self.live(r));
                assert(reachable(*self, roots@, r));
            }
            if !marks[r.ix] {
                marks.set(r.ix, true);
                proof {
                    lemma_count_marked_update(prev_marks, r.ix as int, true);
                    lemma_count_marked_lt(prev_marks, r.ix as int);
                }
                let ghost mid_work = work@;
                let o = self.obj(r);
                let work2 = o.push_edges(work);
                work = work2;
                proof {
                    // new worklist entries are edges of a live reachable
                    // object, so they are live and reachable themselves
                    assert forall|i: int| 0 <= i < work@.len() implies self.live(
                        #[trigger] work@[i],
                    ) && reachable(*self, roots@, work@[i]) by {
                        if i < mid_work.len() {
                            assert(work@[i] == prev_work[i]);
                        } else {
                            assert(obj_has_edge(self.obj_at(r), work@[i]));
                            assert(self.live_ix(r.ix as int));
                            assert(self.obj_wf(self.obj_at(r)));
                            lemma_obj_edges_live(*self, self.obj_at(r), work@[i]);
                            lemma_reach_step(*self, roots@, r, work@[i]);
                        }
                    }
                    // roots stay marked or queued
                    assert forall|jj: int| 0 <= jj < roots@.len() implies marks@[
                        (#[trigger] roots@[jj]).ix as int
                    ] || work@.contains(roots@[jj]) by {
                        let q = roots@[jj];
                        assert(self.live(q));
                        if !prev_marks[q.ix as int] {
                            let i = choose|i: int| 0 <= i < prev_work.len() && prev_work[i] == q;
                            if i < prev_work.len() - 1 {
                                assert(work@[i] == q);
                            } else {
                                assert(q == r);
                            }
                        }
                    }
                    // marked slots keep their edges marked or queued
                    assert forall|i: int, e: GcRef|
                        0 <= i < n && marks@[i] && #[trigger] obj_has_edge(
                            self.obj_at_ix(i),
                            e,
                        ) implies marks@[e.ix as int] || work@.contains(e) by {
                        if i == r.ix as int {
                            assert(obj_has_edge(self.obj_at(r), e));
                            assert(work@.contains(e));
                        } else {
                            assert(prev_marks[i]);
                            if !prev_marks[e.ix as int] {
                                let ii = choose|ii: int|
                                    0 <= ii < prev_work.len() && prev_work[ii] == e;
                                if ii < prev_work.len() - 1 {
                                    assert(work@[ii] == e);
                                } else {
                                    assert(e == r);
                                    assert(marks@[e.ix as int]);
                                }
                            }
                        }
                    }
                }
            } else {
                proof {
                    // the popped reference was already marked; everything
                    // that pointed at the queue's last slot is covered
                    assert forall|jj: int| 0 <= jj < roots@.len() implies marks@[
                        (#[trigger] roots@[jj]).ix as int
                    ] || work@.contains(roots@[jj]) by {
                        let q = roots@[jj];
                        assert(self.live(q));
                        if !marks@[q.ix as int] {
                            let i = choose|i: int| 0 <= i < prev_work.len() && prev_work[i] == q;
                            if i < prev_work.len() - 1 {
                                assert(work@[i] == q);
                            } else {
                                assert(q == r);
                            }
                        }
                    }
                    assert forall|i: int, e: GcRef|
                        0 <= i < n && marks@[i] && #[trigger] obj_has_edge(
                            self.obj_at_ix(i),
                            e,
                        ) implies marks@[e.ix as int] || work@.contains(e) by {
                        if !marks@[e.ix as int] {
                            let ii = choose|ii: int|
                                0 <= ii < prev_work.len() && prev_work[ii] == e;
                            if ii < prev_work.len() - 1 {
                                assert(work@[ii] == e);
                            } else {
                                assert(e == r);
                            }
                        }
                    }
                }
            }
        }
        marks
    }
}

proof fn lemma_count_all_false(s: Seq<bool>)
    requires
        forall|i: int| 0 <= i < s.len() ==> !s[i],
    ensures
        count_marked(s) == 0,
    decreases s.len(),
{
    if s.len() > 0 {
        lemma_count_all_false(s.drop_last());
    }
}


impl Heap {
    /// The sweep phase: free every unmarked slot as a batch.
    fn sweep(&mut self, marks: &Vec<bool>)
        requires
            old(self).wf(),
            marks@.len() == old(self).objects@.len(),
            forall|i: int| 0 <= i < marks@.len() && #[trigger] marks@[i] ==> old(self).live_ix(i),
        ensures
            final(self).capacity == old(self).capacity,
            final(self).objects@.len() == old(self).objects@.len(),
            forall|i: int|
                0 <= i < marks@.len() && #[trigger] marks@[i] ==> final(self).objects@[i] == old(self).objects@[i],
            forall|i: int|
                0 <= i < marks@.len() && !(#[trigger] marks@[i]) ==> final(self).objects@[i]
                    is None,
            final(self).live == live_count(final(self).objects@),
            final(self).live <= old(self).live,
    {
        let n = self.objects.len();
        let mut i: usize = 0;
        while i < n
            invariant
                n == self.objects@.len(),
                n == old(self).objects@.len(),
                n == marks@.len(),
                i <= n,
                self.capacity == old(self).capacity,
                forall|j: int|
                    0 <= j < i && #[trigger] marks@[j] ==> self.objects@[j] == old(self).objects@[j],
                forall|j: int| 0 <= j < i && !(#[trigger] marks@[j]) ==> self.objects@[j] is None,
                forall|j: int| i <= j < n ==> self.objects@[j] == old(self).objects@[j],
                self.live == live_count(self.objects@),
                self.live <= old(self).live,
            decreases n - i,
        {
            if !marks[i] {
                let ghost prev = self.objects@;
                let freed = self.objects[i].is_some();
                if freed {
                    proof {
                        lemma_live_count_pos(prev, i as int);
                        lemma_live_count_update(prev, i as int, None);
                    }
                    self.objects.set(i, None);
                    self.live = self.live - 1;
                } else {
                    proof {
                        assert(self.objects@ =~= prev.update(i as int, None));
                        lemma_live_count_update(prev, i as int, None);
                    }
                    self.objects.set(i, None);
                }
            }
            i += 1;
        }
    }

    /// One full synchronous collection: trace from the given roots, then
    /// free everything unreached. Every root survives unchanged, whatever
    /// survives was reachable from the roots and is unchanged, and the
    /// surviving set is closed under edges, so the heap stays well formed.
    pub fn collect(&mut self, roots: &Vec<GcRef>)
        requires
            old(self).wf(),
            forall|j: int| 0 <= j < roots@.len() ==> old(self).live(#[trigger] roots@[j]),
        ensures
            final(self).wf(),
            final(self).capacity == old(self).capacity,
            final(self).objects@.len() == old(self).objects@.len(),
            final(self).live <= old(self).live,
            forall|j: int|
                0 <= j < roots@.len() ==> final(self).live(#[trigger] roots@[j]) && final(self).obj_at(roots@[j]) == old(self).obj_at(roots@[j]),
            forall|i: int| #[trigger] final(self).live_ix(i) ==> old(self).live_ix(i) && final(self).objects@[i] == old(self).objects@[i],
            forall|i: int, e: GcRef|
                final(self).live_ix(i) && #[trigger] obj_has_edge(final(self).obj_at_ix(i), e)
                    ==> final(self).live(e),
            forall|i: int| #[trigger] final(self).live_ix(i) ==> reachable(
                *old(self),
                roots@,
                (GcRef { ix: i as usize }),
            ),
    {
        let ghost h1 = *self;
        let marks = self.mark(roots);
        self.sweep(&marks);
        proof {
            let h2 = *self;
            // whatever survived was marked, hence live before and unchanged
            assert forall|i: int| #[trigger] h2.live_ix(i) implies h1.live_ix(i)
                && h2.objects@[i] == h1.objects@[i] by {
                assert(marks@[i]);
            }
            // roots survive unchanged
            assert forall|j: int| 0 <= j < roots@.len() implies h2.live(#[trigger] roots@[j])
                && h2.obj_at(roots@[j]) == h1.obj_at(roots@[j]) by {
                let q = roots@[j];
                assert(h1.live(q));
                assert(marks@[q.ix as int]);
                assert(h2.objects@[q.ix as int] == h1.objects@[q.ix as int]);
            }
            // the surviving set is closed under edges
            assert forall|i: int, e: GcRef|
                h2.live_ix(i) && #[trigger] obj_has_edge(h2.obj_at_ix(i), e) implies h2.live(
                e,
            ) by {
                assert(marks@[i]);
                assert(h2.obj_at_ix(i) == h1.obj_at_ix(i));
                assert(obj_has_edge(h1.obj_at_ix(i), e));
                assert(marks@[e.ix as int]);
                assert(h1.live_ix(e.ix as int));
                assert(h2.objects@[e.ix as int] == h1.objects@[e.ix as int]);
            }
            // whatever survived was marked, hence reachable from the roots
            assert forall|i: int| #[trigger] h2.live_ix(i) implies reachable(
                h1,
                roots@,
                (GcRef { ix: i as usize }),
            ) by {
                assert(marks@[i]);
            }
            // well-formedness carries over because contents are unchanged
            // and every edge of a survivor survives
            assert forall|i: int| #[trigger] h2.live_ix(i) implies h2.obj_wf(h2.obj_at_ix(i)) by {
                assert(h1.live_ix(i));
                assert(h1.obj_wf(h1.obj_at_ix(i)));
                assert forall|e: GcRef| #[trigger] obj_has_edge(h2.obj_at_ix(i), e) implies
                    h2.live(e) && h2.obj_at(e) == h1.obj_at(e) by {
                    assert(marks@[i]);
                    assert(marks@[e.ix as int]);
                }
                lemma_obj_wf_preserved(h1, h2, h2.obj_at_ix(i));
            }
        }
    }

    /// Allocate without collecting: used while wiring up objects that are
    /// not yet reachable from any root. Fails once the live count reaches
    /// the capacity.
    pub fn allocate_raw(&mut self, obj: HeapObject) -> (r: Result<GcRef, Error>)
        requires
            old(self).wf(),
            old(self).obj_wf(obj),
        ensures
            final(self).wf(),
            final(self).capacity == old(self).capacity,
            match r {
                Ok(r) => {
                    &&& old(self).live < old(self).capacity
                    &&& final(self).live == old(self).live + 1
                    &&& r.ix < final(self).objects@.len()
                    &&& !old(self).live(r)
                    &&& final(self).live(r)
                    &&& final(self).obj_at(r) == obj
                    &&& final(self).objects@.len() >= old(self).objects@.len()
                    &&& forall|i: int|
                        0 <= i < old(self).objects@.len() && i != r.ix as int ==> final(self).objects@[i] == old(self).objects@[i]
                    &&& forall|i: int|
                        #[trigger] final(self).live_ix(i) && i != r.ix as int ==> old(self).live_ix(i)
                },
                Err(e) => {
                    &&& e is OutOfMemory
                    &&& old(self).live == old(self).capacity
                    &&& *final(self) == *old(self)
                },
            },
            (old(self).live < old(self).capacity) == (r is Ok),
    {
        if self.live >= self.capacity {
            proof {
                lemma_live_count_le(self.objects@);
            }
            return Err(Error::OutOfMemory);
        }
        let ghost h1 = *self;
        // find a free slot, or grow the arena
        let n = self.objects.len();
        let mut i: usize = 0;
        while i < n
            invariant
                n == self.objects@.len(),
                i <= n,
                forall|j: int| 0 <= j < i ==> self.objects@[j] is Some,
                *self == h1,
                h1 == *old(self),
                h1.wf(),
                h1.obj_wf(obj),
                h1.live < h1.capacity,
            decreases n - i,
        {
            if self.objects[i].is_none() {
                let ghost prev = self.objects@;
                self.objects.set(i, Some(obj));
                self.live = self.live + 1;
                let r = GcRef { ix: i };
                proof {
                    lemma_live_count_update(prev, i as int, self.objects@[i as int]);
                    let h2 = *self;
                    lemma_val_wf_same_kinds_cond(h1, h2, r);
                    assert forall|j: int| #[trigger] h2.live_ix(j) implies h2.obj_wf(
                        h2.obj_at_ix(j),
                    ) by {
                        if j != i as int {
                            assert(h1.live_ix(j));
                            assert(h1.obj_wf(h1.obj_at_ix(j)));
                            lemma_obj_wf_grow(h1, h2, r, h1.obj_at_ix(j));
                        } else {
                            lemma_obj_wf_grow(h1, h2, r, obj);
                        }
                    }
                }
                return Ok(r);
            }
            i += 1;
        }
        proof {
            lemma_live_count_full(self.objects@);
            assert(self.live == n);
        }
        let ghost prev = self.objects@;
        self.objects.push(Some(obj));
        self.live = self.live + 1;
        let r = GcRef { ix: n };
        proof {
            lemma_live_count_push(prev, Some(obj));
            let h2 = *self;
            assert(forall|j: int| 0 <= j < prev.len() ==> h2.objects@[j] == prev[j]);
            lemma_val_wf_same_kinds_cond(h1, h2, r);
            assert forall|j: int| #[trigger] h2.live_ix(j) implies h2.obj_wf(
                h2.obj_at_ix(j),
            ) by {
                if j != n as int {
                    assert(h1.live_ix(j));
                    assert(h1.obj_wf(h1.obj_at_ix(j)));
                    lemma_obj_wf_grow(h1, h2, r, h1.obj_at_ix(j));
                } else {
                    lemma_obj_wf_grow(h1, h2, r, obj);
                }
            }
        }
        Ok(r)
    }

    /// Allocate, collecting first if the heap is at capacity: the one
    /// collection trigger. The caller names the roots; everything they
    /// reach survives, and the new object never aliases a root.
    pub fn allocate(&mut self, roots: &Vec<GcRef>, obj: HeapObject) -> (r: Result<GcRef, Error>)
        requires
            old(self).wf(),
            old(self).obj_wf(obj),
            forall|j: int| 0 <= j < roots@.len() ==> old(self).live(#[trigger] roots@[j]),
        ensures
            final(self).wf(),
            final(self).capacity == old(self).capacity,
            forall|j: int|
                0 <= j < roots@.len() ==> final(self).live(#[trigger] roots@[j]) && final(self).obj_at(roots@[j]) == old(self).obj_at(roots@[j]),
            match r {
                Ok(r) => {
                    &&& final(self).live(r)
                    &&& final(self).obj_at(r) == obj
                    &&& forall|j: int| 0 <= j < roots@.len() ==> #[trigger] roots@[j] != r
                    &&& forall|e: GcRef|
                        #[trigger] obj_has_edge(obj, e) ==> final(self).live(e) && final(self).obj_at(e) == old(self).obj_at(e) && e != r
                    &&& forall|i: int|
                        #[trigger] final(self).live_ix(i) && i != r.ix as int ==> old(self).live_ix(i) && final(self).objects@[i] == old(self).objects@[i]
                },
                Err(e) => e is OutOfMemory && final(self).live == final(self).capacity,
            },
            old(self).live < old(self).capacity ==> r is Ok,
    {
        let ghost h1 = *self;
        if self.live >= self.capacity {
            // gather the caller's roots plus the new object's own edges, so
            // the collection spares everything the object refers to
            let all: Vec<GcRef> = Vec::new();
            let all1 = push_all_refs(roots, all);
            let all2 = obj.push_edges(all1);
            proof {
                assert forall|j: int| 0 <= j < all2@.len() implies self.live(
                    #[trigger] all2@[j],
                ) by {
                    if j < all1@.len() {
                        assert(roots@.contains(all2@[j]));
                        let k = choose|k: int| 0 <= k < roots@.len() && roots@[k] == all2@[j];
                        assert(self.live(roots@[k]));
                    } else {
                        assert(obj_has_edge(obj, all2@[j]));
                        lemma_obj_edges_live(*self, obj, all2@[j]);
                    }
                }
            }
            self.collect(&all2);
            proof {
                let h2 = *self;
                // the object's edges survived the collection unchanged
                assert forall|e: GcRef| #[trigger] obj_has_edge(obj, e) implies h2.live(e)
                    && h2.obj_at(e) == h1.obj_at(e) by {
                    assert(all2@.contains(e));
                    let k = choose|k: int| 0 <= k < all2@.len() && all2@[k] == e;
                    assert(h2.live_ix(all2@[k].ix as int));
                }
                lemma_obj_wf_preserved(h1, h2, obj);
                // the caller's roots survived unchanged
                assert forall|j: int| 0 <= j < roots@.len() implies h2.live(#[trigger] roots@[j])
                    && h2.obj_at(roots@[j]) == h1.obj_at(roots@[j]) by {
                    assert(all2@[j] == roots@[j]);
                }
            }
            if self.live >= self.capacity {
                proof {
                    lemma_live_count_le(self.objects@);
                }
                return Err(Error::OutOfMemory);
            }
        }
        let ghost h3 = *self;
        proof {
            // in both paths: the object is still well formed, its edges and
            // the roots are live and unchanged, and nothing new became live
            assert(h3.obj_wf(obj));
            assert forall|e: GcRef| #[trigger] obj_has_edge(obj, e) implies h3.live(e)
                && h3.obj_at(e) == h1.obj_at(e) by {
                lemma_obj_edges_live(h1, obj, e);
            }
            assert forall|j: int| 0 <= j < roots@.len() implies h3.live(#[trigger] roots@[j])
                && h3.obj_at(roots@[j]) == h1.obj_at(roots@[j]) by {}
            assert(forall|i: int| #[trigger] h3.live_ix(i) ==> h1.live_ix(i));
        }
        let res = self.allocate_raw(obj);
        proof {
            let h4 = *self;
            match res {
                Ok(r) => {
                    assert forall|j: int| 0 <= j < roots@.len() implies h4.live(
                        #[trigger] roots@[j],
                    ) && h4.obj_at(roots@[j]) == h1.obj_at(roots@[j]) && roots@[j] != r by {
                        let q = roots@[j];
                        assert(h3.live(q));
                        assert(q.ix as int != r.ix as int);
                        assert(h4.objects@[q.ix as int] == h3.objects@[q.ix as int]);
                    }
                    assert forall|e: GcRef| #[trigger] obj_has_edge(obj, e) implies h4.live(e)
                        && h4.obj_at(e) == h1.obj_at(e) && e != r by {
                        assert(h3.live(e));
                        assert(e.ix as int != r.ix as int);
                        assert(h4.objects@[e.ix as int] == h3.objects@[e.ix as int]);
                    }
                    assert forall|i: int|
                        #[trigger] h4.live_ix(i) && i != r.ix as int implies h1.live_ix(i) by {
                        assert(h3.live_ix(i));
                    }
                }
                Err(_) => {
                    assert(h4 == h3);
                }
            }
        }
        res
    }
}

/// Validity of values is unaffected by giving a dead slot an object.
proof fn lemma_val_wf_same_kinds_cond(h1: Heap, h2: Heap, fresh: GcRef)
    requires
        !h1.live(fresh),
        h2.live(fresh),
        forall|q: GcRef| q != fresh ==> (h1.live(q) <==> h2.live(q)),
        forall|q: GcRef| #[trigger] h1.live(q) ==> h1.obj_at(q) == h2.obj_at(q),
    ensures
        forall|v: Value| #[trigger] h1.val_wf(v) ==> h2.val_wf(v),
        forall|c: Callable| #[trigger] h1.callable_wf(c) ==> h2.callable_wf(c),
{
}

/// An object well formed in a heap stays well formed when one dead slot is
/// given a new object.
proof fn lemma_obj_wf_grow(h1: Heap, h2: Heap, fresh: GcRef, o: HeapObject)
    requires
        h1.obj_wf(o),
        !h1.live(fresh),
        h2.live(fresh),
        forall|q: GcRef| q != fresh ==> (h1.live(q) <==> h2.live(q)),
        forall|q: GcRef| #[trigger] h1.live(q) ==> h1.obj_at(q) == h2.obj_at(q),
    ensures
        h2.obj_wf(o),
{
    assert forall|e: GcRef| #[trigger] obj_has_edge(o, e) implies h2.live(e) && h2.obj_at(e)
        == h1.obj_at(e) by {
        lemma_obj_edges_live(h1, o, e);
    }
    lemma_obj_wf_preserved(h1, h2, o);
}

} // verus!
