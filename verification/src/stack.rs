//! The shared value stack and the frame stack. One contiguous value stack
//! serves the whole machine; a frame stack records where each active call
//! begins, which callable runs there, and whether the frame was entered
//! with excess arguments. The frame stack, not a single return address, is
//! what execution resumes from.

use vstd::prelude::*;
use crate::VmIndex;
use crate::value::Callable;
use crate::value::Value;

verus! {

/// One call record: the stack offset where the frame begins, the
/// instruction to resume at, the callable executing there (`None` for the
/// top-level scope), and whether excess arguments await re-application.
#[derive(Clone, Copy, Debug)]
pub struct Frame {
    pub offset: VmIndex,
    pub instruction_index: VmIndex,
    pub function: Option<Callable>,
    pub excess: bool,
}

/// The single growable value stack plus the frame stack.
pub struct Stack {
    pub values: Vec<Value>,
    pub frames: Vec<Frame>,
}

impl Stack {
    /// The current frame's base offset; the whole stack when no frame is
    /// active.
    pub open spec fn base(self) -> int {
        if self.frames@.len() == 0 {
            0
        } else {
            self.frames@.last().offset as int
        }
    }

    /// How many values the current frame owns.
    pub open spec fn frame_len(self) -> int {
        self.values@.len() - self.base()
    }

    /// The values the current frame owns, in stack order.
    pub open spec fn frame_view(self) -> Seq<Value> {
        self.values@.skip(self.base())
    }

    /// Every frame begins within the stack, and frames are nested: an inner
    /// frame never begins below an outer one.
    pub open spec fn wf(self) -> bool {
        &&& forall|i: int|
            0 <= i < self.frames@.len() ==> (#[trigger] self.frames@[i]).offset
                <= self.values@.len()
        &&& forall|i: int, j: int|
            0 <= i <= j < self.frames@.len() ==> (#[trigger] self.frames@[i]).offset
                <= (#[trigger] self.frames@[j]).offset
    }

    pub fn new() -> (s: Stack)
        ensures
            s.wf(),
            s.values@.len() == 0,
            s.frames@.len() == 0,
    {
        Stack { values: Vec::new(), frames: Vec::new() }
    }

    /// The current frame's base, executable form.
    pub fn base_offset(&self) -> (b: usize)
        requires
            self.wf(),
        ensures
            b as int == self.base(),
    {
        if self.frames.len() == 0 {
            0
        } else {
            self.frames[self.frames.len() - 1].offset
        }
    }

    /// How many values the current frame owns.
    pub fn len(&self) -> (n: usize)
        requires
            self.wf(),
        ensures
            n as int == self.frame_len(),
    {
        let b = self.base_offset();
        self.values.len() - b
    }

    /// Push a value onto the current frame.
    pub fn push(&mut self, v: Value)
        requires
            old(self).wf(),
        ensures
            final(self).wf(),
            final(self).values@ == old(self).values@.push(v),
            final(self).frames@ == old(self).frames@,
    {
        self.values.push(v);
    }

    /// Pop the top value. Popping past the current frame's base is not
    /// allowed.
    pub fn pop(&mut self) -> (v: Value)
        requires
            old(self).wf(),
            old(self).frame_len() > 0,
        ensures
            final(self).wf(),
            v == old(self).values@.last(),
            final(self).values@ == old(self).values@.drop_last(),
            final(self).frames@ == old(self).frames@,
    {
        proof {
            assert(self.values@.len() > 0);
        }
        match self.values.pop() {
            Some(v) => v,
            None => vstd::pervasive::unreached(),
        }
    }

    /// Read the top value without removing it.
    pub fn top(&self) -> (v: Value)
        requires
            self.wf(),
            self.frame_len() > 0,
        ensures
            v == self.values@.last(),
    {
        self.values[self.values.len() - 1]
    }

    /// Read the current frame's value at `index`, counted from the frame's
    /// base.
    pub fn get(&self, index: VmIndex) -> (v: Value)
        requires
            self.wf(),
            index < self.frame_len(),
        ensures
            v == self.values@[self.base() + index],
    {
        let b = self.base_offset();
        let total = self.values.len();
        proof {
            assert(b + index < total);
        }
        self.values[b + index]
    }

    /// The current frame record.
    pub fn current_frame(&self) -> (f: Frame)
        requires
            self.frames@.len() > 0,
        ensures
            f == self.frames@.last(),
    {
        self.frames[self.frames.len() - 1]
    }

    /// Enter a scope over the last `args` stack values.
    pub fn enter_scope(&mut self, args: VmIndex, function: Option<Callable>)
        requires
            old(self).wf(),
            args <= old(self).frame_len(),
        ensures
            final(self).wf(),
            final(self).values@ == old(self).values@,
            final(self).frames@ == old(self).frames@.push(
                Frame {
                    offset: (old(self).values@.len() - args) as usize,
                    instruction_index: 0,
                    function,
                    excess: false,
                },
            ),
            final(self).base() == old(self).values@.len() - args,
            final(self).frame_len() == args,
    {
        let offset = self.values.len() - args;
        self.frames.push(
            Frame { offset, instruction_index: 0, function, excess: false },
        );
    }

    /// Enter a fresh frame over the last `args` stack values: how a
    /// computation's outermost scope is set up.
    pub fn frame(&mut self, args: VmIndex, function: Option<Callable>)
        requires
            old(self).wf(),
            args <= old(self).frame_len(),
        ensures
            final(self).wf(),
            final(self).values@ == old(self).values@,
            final(self).frames@ == old(self).frames@.push(
                Frame {
                    offset: (old(self).values@.len() - args) as usize,
                    instruction_index: 0,
                    function,
                    excess: false,
                },
            ),
    {
        self.enter_scope(args, function);
    }

    /// Leave the current scope. Returns whether a parent frame remains;
    /// `false` signals that the whole computation is complete.
    pub fn exit_scope(&mut self) -> (had_parent: bool)
        requires
            old(self).wf(),
            old(self).frames@.len() > 0,
        ensures
            final(self).wf(),
            final(self).values@ == old(self).values@,
            final(self).frames@ == old(self).frames@.drop_last(),
            had_parent == (final(self).frames@.len() > 0),
    {
        self.frames.pop();
        self.frames.len() > 0
    }

    /// Record where the current frame resumes.
    pub fn set_instruction_index(&mut self, ii: VmIndex)
        requires
            old(self).wf(),
            old(self).frames@.len() > 0,
        ensures
            final(self).wf(),
            final(self).values@ == old(self).values@,
            final(self).frames@ == old(self).frames@.update(
                old(self).frames@.len() - 1,
                Frame { instruction_index: ii, ..old(self).frames@.last() },
            ),
    {
        let n = self.frames.len();
        let mut f = self.frames[n - 1];
        f.instruction_index = ii;
        self.frames.set(n - 1, f);
    }

    /// Flag the current frame as entered with excess arguments.
    pub fn set_excess(&mut self, excess: bool)
        requires
            old(self).wf(),
            old(self).frames@.len() > 0,
        ensures
            final(self).wf(),
            final(self).values@ == old(self).values@,
            final(self).frames@ == old(self).frames@.update(
                old(self).frames@.len() - 1,
                Frame { excess, ..old(self).frames@.last() },
            ),
    {
        let n = self.frames.len();
        let mut f = self.frames[n - 1];
        f.excess = excess;
        self.frames.set(n - 1, f);
    }

    /// Splice `vals` into the current frame at `index` (counted from the
    /// frame's base). Frame base offsets above the edit point shift up so
    /// that every frame keeps its values.
    pub fn insert_slice(&mut self, index: VmIndex, vals: &Vec<Value>)
        requires
            old(self).wf(),
            index <= old(self).frame_len(),
        ensures
            final(self).wf(),
            final(self).values@ == old(self).values@.take(old(self).base() + index) + vals@
                + old(self).values@.skip(old(self).base() + index),
            final(self).frames@.len() == old(self).frames@.len(),
            forall|i: int|
                0 <= i < old(self).frames@.len() ==> #[trigger] final(self).frames@[i] == (
                if old(self).frames@[i].offset > old(self).base() + index {
                    Frame {
                        offset: (old(self).frames@[i].offset + vals@.len()) as usize,
                        ..old(self).frames@[i]
                    }
                } else {
                    old(self).frames@[i]
                }),
            final(self).base() == old(self).base(),
    {
        let b = self.base_offset();
        let total = self.values.len();
        proof {
            assert(b + index <= total);
        }
        let pos = b + index;
        let ghost old_values = self.values@;
        let ghost old_frames = self.frames@;
        let n = vals.len();
        let mut k: usize = n;
        while k > 0
            invariant
                n == vals@.len(),
                k <= n,
                pos <= old_values.len(),
                self.values@ =~= old_values.take(pos as int) + vals@.skip(k as int)
                    + old_values.skip(pos as int),
                self.frames@ == old_frames,
            decreases k,
        {
            k -= 1;
            self.values.insert(pos, vals[k]);
            proof {
                assert(self.values@ =~= old_values.take(pos as int) + vals@.skip(k as int)
                    + old_values.skip(pos as int));
            }
        }
        proof {
            assert(vals@.skip(0) =~= vals@);
        }
        let new_len = self.values.len();
        proof {
            assert(new_len as int == old_values.len() + n);
        }
        // shift the base offsets of frames above the edit point
        let m = self.frames.len();
        let mut j: usize = 0;
        while j < m
            invariant
                m == self.frames@.len(),
                m == old_frames.len(),
                j <= m,
                self.values@ == old_values.take(pos as int) + vals@ + old_values.skip(
                    pos as int,
                ),
                n == vals@.len(),
                pos <= old_values.len(),
                old_values.len() + n <= usize::MAX,
                forall|i: int|
                    0 <= i < m ==> (#[trigger] old_frames[i]).offset <= old_values.len(),
                forall|i: int|
                    0 <= i < j ==> #[trigger] self.frames@[i] == (
                    if old_frames[i].offset > pos as int {
                        Frame {
                            offset: (old_frames[i].offset + n) as usize,
                            ..old_frames[i]
                        }
                    } else {
                        old_frames[i]
                    }),
                forall|i: int| j <= i < m ==> #[trigger] self.frames@[i] == old_frames[i],
            decreases m - j,
        {
            let f = self.frames[j];
            if f.offset > pos {
                let mut f2 = f;
                f2.offset = f.offset + n;
                self.frames.set(j, f2);
            }
            j += 1;
        }
        proof {
            let h2 = *self;
            assert forall|i: int, jj: int|
                0 <= i <= jj < h2.frames@.len() implies (#[trigger] h2.frames@[i]).offset <= (
            #[trigger] h2.frames@[jj]).offset by {
                assert(old_frames[i].offset <= old_frames[jj].offset);
            }
            if old_frames.len() > 0 {
                assert(h2.frames@.last().offset <= pos as int || h2.frames@.last().offset
                    == old_frames.last().offset + n);
                assert(old_frames.last().offset <= pos as int);
            }
        }
    }

    /// Remove the current frame's values in `[from, to)` (counted from the
    /// frame's base), shifting frame base offsets above the removed range
    /// down. No frame may begin strictly inside the range.
    pub fn remove_range(&mut self, from: VmIndex, to: VmIndex)
        requires
            old(self).wf(),
            from <= to <= old(self).frame_len(),
            forall|i: int|
                0 <= i < old(self).frames@.len() ==> ((#[trigger] old(self).frames@[i]).offset
                    <= old(self).base() + from || old(self).frames@[i].offset >= old(self).base()
                    + to),
        ensures
            final(self).wf(),
            final(self).values@ == old(self).values@.take(old(self).base() + from) + old(
                self,
            ).values@.skip(old(self).base() + to),
            final(self).frames@.len() == old(self).frames@.len(),
            forall|i: int|
                0 <= i < old(self).frames@.len() ==> #[trigger] final(self).frames@[i] == (
                if old(self).frames@[i].offset >= old(self).base() + to {
                    Frame {
                        offset: (old(self).frames@[i].offset - (to - from)) as usize,
                        ..old(self).frames@[i]
                    }
                } else {
                    old(self).frames@[i]
                }),
            final(self).base() == old(self).base(),
    {
        let b = self.base_offset();
        let total = self.values.len();
        proof {
            assert(b + to <= total);
        }
        let start = b + from;
        let count = to - from;
        let ghost old_values = self.values@;
        let ghost old_frames = self.frames@;
        let mut k: usize = 0;
        while k < count
            invariant
                k <= count,
                start + count <= old_values.len(),
                self.values@ =~= old_values.take(start as int) + old_values.skip(
                    start + k,
                ).take(count - k) + old_values.skip(start + count),
                self.frames@ == old_frames,
            decreases count - k,
        {
            proof {
                assert(self.values@.len() == old_values.len() - k);
                assert(self.values@[start as int] == old_values[start + k]);
            }
            self.values.remove(start);
            proof {
                assert(self.values@ =~= old_values.take(start as int) + old_values.skip(
                    start + k + 1,
                ).take(count - k - 1) + old_values.skip(start + count));
            }
            k += 1;
        }
        proof {
            assert(self.values@ =~= old_values.take(start as int) + old_values.skip(
                start + count,
            ));
        }
        // shift the base offsets of frames above the removed range
        let m = self.frames.len();
        let mut j: usize = 0;
        while j < m
            invariant
                m == self.frames@.len(),
                m == old_frames.len(),
                j <= m,
                self.values@ == old_values.take(start as int) + old_values.skip(start + count),
                start == old(self).base() + from,
                count == to - from,
                start + count <= old_values.len(),
                old_values.len() <= usize::MAX,
                forall|i: int|
                    0 <= i < m ==> ((#[trigger] old_frames[i]).offset <= start as int
                        || old_frames[i].offset >= start + count),
                forall|i: int|
                    0 <= i < j ==> #[trigger] self.frames@[i] == (
                    if old_frames[i].offset >= start + count {
                        Frame {
                            offset: (old_frames[i].offset - count) as usize,
                            ..old_frames[i]
                        }
                    } else {
                        old_frames[i]
                    }),
                forall|i: int| j <= i < m ==> #[trigger] self.frames@[i] == old_frames[i],
                forall|i: int|
                    0 <= i < m ==> (#[trigger] old_frames[i]).offset <= old_values.len(),
            decreases m - j,
        {
            let f = self.frames[j];
            if f.offset >= start + count {
                let mut f2 = f;
                f2.offset = f.offset - count;
                self.frames.set(j, f2);
            }
            j += 1;
        }
        proof {
            let h2 = *self;
            assert forall|i: int, jj: int|
                0 <= i <= jj < h2.frames@.len() implies (#[trigger] h2.frames@[i]).offset <= (
            #[trigger] h2.frames@[jj]).offset by {
                assert(old_frames[i].offset <= old_frames[jj].offset);
            }
            if old_frames.len() > 0 {
                assert(old_frames.last().offset <= start as int);
            }
        }
    }
}

} // verus!
