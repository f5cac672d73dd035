//! Snapshot-based undo/redo history for one canvas.
//!
//! The history owns a [`PixelBuffer`] together with two stacks of full byte
//! snapshots. Pushing a state snapshots the current buffer, evicting the
//! oldest snapshot once the stack holds [`MAX_HISTORY_SIZE`] entries, and
//! clears the redo stack (linear-history semantics: new edits invalidate
//! redo). Undo and redo move snapshots between the two stacks and the buffer.

use crate::pixel_buffer::PixelBuffer;
use vstd::prelude::*;

verus! {

/// Upper bound on the number of undo snapshots kept.
pub const MAX_HISTORY_SIZE: usize = 50;

/// The mathematical state of a history: the buffer's bytes and the two
/// snapshot stacks, newest snapshot last.
pub ghost struct HistoryView {
    pub buf: Seq<u8>,
    pub undo: Seq<Seq<u8>>,
    pub redo: Seq<Seq<u8>>,
}

/// Saving the current buffer: the snapshot lands on top of the undo stack,
/// the oldest snapshot falls out once the stack is full, and the redo stack
/// empties.
pub open spec fn spec_push(h: HistoryView) -> HistoryView {
    let pushed = h.undo.push(h.buf);
    HistoryView {
        buf: h.buf,
        undo: if pushed.len() > MAX_HISTORY_SIZE as int {
            pushed.subrange(1, pushed.len() as int)
        } else {
            pushed
        },
        redo: Seq::empty(),
    }
}

/// Replacing the buffer's bytes, as a tool invocation does.
pub open spec fn spec_set_buf(h: HistoryView, data: Seq<u8>) -> HistoryView {
    HistoryView { buf: data, undo: h.undo, redo: h.redo }
}

/// Undoing: the current buffer moves onto the redo stack and the newest undo
/// snapshot becomes the buffer.
pub open spec fn spec_undo(h: HistoryView) -> HistoryView {
    HistoryView {
        buf: h.undo.last(),
        undo: h.undo.drop_last(),
        redo: h.redo.push(h.buf),
    }
}

/// Redoing: the mirror image of [`spec_undo`].
pub open spec fn spec_redo(h: HistoryView) -> HistoryView {
    HistoryView {
        buf: h.redo.last(),
        undo: h.undo.push(h.buf),
        redo: h.redo.drop_last(),
    }
}

/// A canvas buffer with bounded undo/redo snapshot stacks.
pub struct CanvasHistory {
    pub buffer: PixelBuffer,
    pub undo_stack: Vec<Vec<u8>>,
    pub redo_stack: Vec<Vec<u8>>,
}

impl View for CanvasHistory {
    type V = HistoryView;

    open spec fn view(&self) -> HistoryView {
        HistoryView {
            buf: self.buffer.data@,
            undo: self.undo_stack@.map_values(|v: Vec<u8>| v@),
            redo: self.redo_stack@.map_values(|v: Vec<u8>| v@),
        }
    }
}

/// Copies a byte vector. Snapshots are taken with this.
fn copy_bytes(v: &Vec<u8>) -> (r: Vec<u8>)
    ensures
        r@ == v@,
{
    let mut r: Vec<u8> = Vec::new();
    let mut i: usize = 0;
    while i < v.len()
        invariant
            i <= v@.len(),
            r@ =~= v@.subrange(0, i as int),
        decreases v@.len() - i,
    {
        r.push(v[i]);
        i = i + 1;
    }
    proof {
        assert(r@ =~= v@);
    }
    r
}

impl CanvasHistory {
    /// The buffer is well formed, the snapshots held across both stacks stay
    /// within the cap, and every snapshot has the buffer's byte length.
    pub open spec fn wf(self) -> bool {
        &&& self.buffer.wf()
        &&& self@.undo.len() + self@.redo.len() <= MAX_HISTORY_SIZE as int
        &&& forall|i: int| 0 <= i < self@.undo.len() ==> (#[trigger] self@.undo[i]).len()
            == self@.buf.len()
        &&& forall|i: int| 0 <= i < self@.redo.len() ==> (#[trigger] self@.redo[i]).len()
            == self@.buf.len()
    }

    /// A history over a fresh transparent canvas, with empty stacks.
    pub fn new(width: u32, height: u32) -> (r: CanvasHistory)
        requires
            width as int * height as int * 4 <= usize::MAX as int,
        ensures
            r.wf(),
            r.buffer.width == width,
            r.buffer.height == height,
            r@.undo == Seq::<Seq<u8>>::empty(),
            r@.redo == Seq::<Seq<u8>>::empty(),
            forall|i: int| 0 <= i < r@.buf.len() ==> r@.buf[i] == 0u8,
    {
        let r = CanvasHistory {
            buffer: PixelBuffer::new(width, height),
            undo_stack: Vec::new(),
            redo_stack: Vec::new(),
        };
        proof {
            assert(r@.undo =~= Seq::<Seq<u8>>::empty());
            assert(r@.redo =~= Seq::<Seq<u8>>::empty());
        }
        r
    }

    /// Saves the current buffer to the undo stack, evicting the oldest
    /// snapshot when the stack is full, and clears the redo stack.
    pub fn push_state(&mut self)
        requires
            old(self).wf(),
        ensures
            final(self).wf(),
            final(self).buffer == old(self).buffer,
            final(self)@ == spec_push(old(self)@),
    {
        let snapshot = copy_bytes(&self.buffer.data);
        self.undo_stack.push(snapshot);
        let ghost pushed = old(self)@.undo.push(old(self)@.buf);
        proof {
            assert(self.undo_stack@.map_values(|v: Vec<u8>| v@) =~= pushed);
        }
        if self.undo_stack.len() > MAX_HISTORY_SIZE {
            self.undo_stack.remove(0);
            proof {
                assert(self.undo_stack@.map_values(|v: Vec<u8>| v@) =~= pushed.subrange(
                    1,
                    pushed.len() as int,
                ));
            }
        }
        self.redo_stack.clear();
        proof {
            assert(self@.redo =~= Seq::<Seq<u8>>::empty());
        }
    }

    /// Restores the newest undo snapshot, saving the current buffer for redo.
    /// Fails exactly when there is nothing to undo, leaving the history
    /// untouched.
    pub fn undo(&mut self) -> (r: Result<(), String>)
        requires
            old(self).wf(),
        ensures
            final(self).wf(),
            r is Ok <==> old(self)@.undo.len() > 0,
            r is Ok ==> final(self)@ == spec_undo(old(self)@),
            r is Err ==> *final(self) == *old(self),
            final(self).buffer.width == old(self).buffer.width,
            final(self).buffer.height == old(self).buffer.height,
    {
        if self.undo_stack.len() == 0 {
            return Err("Nothing to undo".to_owned());
        }
        let previous_state = self.undo_stack.pop().unwrap();
        let current_state = copy_bytes(&self.buffer.data);
        self.redo_stack.push(current_state);
        self.buffer.data = previous_state;
        proof {
            assert(self@.undo =~= spec_undo(old(self)@).undo);
            assert(self@.redo =~= spec_undo(old(self)@).redo);
        }
        Ok(())
    }

    /// Restores the newest redo snapshot, saving the current buffer for undo.
    /// Fails exactly when there is nothing to redo, leaving the history
    /// untouched.
    pub fn redo(&mut self) -> (r: Result<(), String>)
        requires
            old(self).wf(),
        ensures
            final(self).wf(),
            r is Ok <==> old(self)@.redo.len() > 0,
            r is Ok ==> final(self)@ == spec_redo(old(self)@),
            r is Err ==> *final(self) == *old(self),
            final(self).buffer.width == old(self).buffer.width,
            final(self).buffer.height == old(self).buffer.height,
    {
        if self.redo_stack.len() == 0 {
            return Err("Nothing to redo".to_owned());
        }
        let next_state = self.redo_stack.pop().unwrap();
        let current_state = copy_bytes(&self.buffer.data);
        self.undo_stack.push(current_state);
        self.buffer.data = next_state;
        proof {
            assert(self@.undo =~= spec_redo(old(self)@).undo);
            assert(self@.redo =~= spec_redo(old(self)@).redo);
        }
        Ok(())
    }

    /// Whether an undo snapshot is available.
    pub fn can_undo(&self) -> (r: bool)
        ensures
            r == (self@.undo.len() > 0),
    {
        self.undo_stack.len() > 0
    }

    /// Whether a redo snapshot is available.
    pub fn can_redo(&self) -> (r: bool)
        ensures
            r == (self@.redo.len() > 0),
    {
        self.redo_stack.len() > 0
    }

    /// Number of undo snapshots held.
    pub fn undo_count(&self) -> (r: usize)
        ensures
            r as int == self@.undo.len(),
    {
        self.undo_stack.len()
    }

    /// Number of redo snapshots held.
    pub fn redo_count(&self) -> (r: usize)
        ensures
            r as int == self@.redo.len(),
    {
        self.redo_stack.len()
    }

    /// Drops every snapshot, keeping the buffer.
    pub fn clear_history(&mut self)
        requires
            old(self).wf(),
        ensures
            final(self).wf(),
            final(self).buffer == old(self).buffer,
            final(self)@.undo == Seq::<Seq<u8>>::empty(),
            final(self)@.redo == Seq::<Seq<u8>>::empty(),
    {
        self.undo_stack.clear();
        self.redo_stack.clear();
        proof {
            assert(self@.undo =~= Seq::<Seq<u8>>::empty());
            assert(self@.redo =~= Seq::<Seq<u8>>::empty());
        }
    }
}

/// Undo then redo is the identity on any history with something to undo: the
/// redo restores exactly the state the undo started from.
pub proof fn lemma_undo_redo_inverse(h: HistoryView)
    requires
        h.undo.len() > 0,
    ensures
        spec_redo(spec_undo(h)) == h,
{
    let u = spec_undo(h);
    assert(spec_redo(u).undo =~= h.undo);
    assert(spec_redo(u).redo =~= h.redo);
}

/// Around any single edit: saving the state and then editing the buffer,
/// `undo` alone restores the pre-edit bytes, and `undo` followed by `redo`
/// restores the post-edit bytes.
pub proof fn lemma_undo_redo_around_edit(h: HistoryView, edited: Seq<u8>)
    ensures
        spec_undo(spec_set_buf(spec_push(h), edited)).buf == h.buf,
        spec_redo(spec_undo(spec_set_buf(spec_push(h), edited))).buf == edited,
{
    let after_edit = spec_set_buf(spec_push(h), edited);
    assert(after_edit.undo.last() == h.buf);
    lemma_undo_redo_inverse(after_edit);
}

/// A run of state saves, each followed by some edit of the buffer.
pub open spec fn spec_push_all(h: HistoryView, edits: Seq<Seq<u8>>) -> HistoryView
    decreases edits.len(),
{
    if edits.len() == 0 {
        h
    } else {
        spec_push_all(spec_set_buf(spec_push(h), edits[0]), edits.drop_first())
    }
}

/// After `n` state saves the undo stack holds `min(initial + n, cap)`
/// snapshots.
pub proof fn lemma_push_all_len(h: HistoryView, edits: Seq<Seq<u8>>)
    requires
        h.undo.len() <= MAX_HISTORY_SIZE as int,
    ensures
        spec_push_all(h, edits).undo.len() == if h.undo.len() + edits.len()
            <= MAX_HISTORY_SIZE as int {
            h.undo.len() + edits.len() as int
        } else {
            MAX_HISTORY_SIZE as int
        },
    decreases edits.len(),
{
    if edits.len() > 0 {
        lemma_push_all_len(spec_set_buf(spec_push(h), edits[0]), edits.drop_first());
    }
}

/// History cap: saving the state `MAX_HISTORY_SIZE` times or more leaves
/// exactly `MAX_HISTORY_SIZE` undo snapshots, whatever edits happen between
/// the saves.
pub proof fn lemma_history_cap(h: HistoryView, edits: Seq<Seq<u8>>)
    requires
        h.undo.len() <= MAX_HISTORY_SIZE as int,
        edits.len() >= MAX_HISTORY_SIZE as int,
    ensures
        spec_push_all(h, edits).undo.len() == MAX_HISTORY_SIZE as int,
{
    lemma_push_all_len(h, edits);
}

} // verus!
