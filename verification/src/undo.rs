//! A local undo/redo manager over opaque serialized snapshots.
//!
//! Unlike the document store's own checkpoint stacks, this manager is
//! agnostic about what a snapshot holds: the caller hands it the bytes
//! of the current state and gets back the bytes to restore.

use vstd::prelude::*;

use crate::document::stack_views;

verus! {

/// Manages undo/redo with serialized snapshots.
pub struct UndoManager {
    pub undo_stack: Vec<Vec<u8>>,
    pub redo_stack: Vec<Vec<u8>>,
    pub max_history: usize,
}

impl UndoManager {
    /// Create a new undo manager with a bounded history depth.
    pub fn new(max_history: usize) -> (r: UndoManager)
        ensures
            r.undo_stack@.len() == 0,
            r.redo_stack@.len() == 0,
            r.max_history == max_history,
    {
        UndoManager { undo_stack: Vec::new(), redo_stack: Vec::new(), max_history }
    }

    /// Save the current state before a mutation: push it, clear the redo
    /// stack, and drop the oldest checkpoints beyond the depth bound.
    pub fn save_state(&mut self, snapshot: Vec<u8>)
        ensures
            final(self).max_history == old(self).max_history,
            final(self).redo_stack@.len() == 0,
            stack_views(final(self).undo_stack@) == ({
                let pushed = stack_views(old(self).undo_stack@).push(snapshot@);
                if pushed.len() <= old(self).max_history {
                    pushed
                } else {
                    pushed.skip(pushed.len() - old(self).max_history)
                }
            }),
    {
        let ghost base = stack_views(self.undo_stack@);
        self.undo_stack.push(snapshot);
        self.redo_stack = Vec::new();
        let ghost pushed = stack_views(self.undo_stack@);
        proof {
            assert(pushed =~= base.push(snapshot@));
            assert(pushed.skip(0) =~= pushed);
        }
        let ghost mut dropped: int = 0;
        while self.undo_stack.len() > self.max_history
            invariant
                0 <= dropped <= pushed.len(),
                stack_views(self.undo_stack@) == pushed.skip(dropped),
                self.undo_stack@.len() == pushed.len() - dropped,
                pushed.len() - dropped >= self.max_history || dropped == 0,
                self.redo_stack@.len() == 0,
                self.max_history == old(self).max_history,
            decreases self.undo_stack@.len(),
        {
            let ghost pre = self.undo_stack@;
            let _ = self.undo_stack.remove(0);
            proof {
                assert(self.undo_stack@ =~= pre.subrange(1, pre.len() as int));
                assert forall|j: int| 0 <= j < self.undo_stack@.len() implies stack_views(
                    self.undo_stack@,
                )[j] == pushed.skip(dropped + 1)[j] by {
                    assert(self.undo_stack@[j] == pre[j + 1]);
                    assert(stack_views(pre)[j + 1] == pre[j + 1]@);
                    assert(stack_views(pre)[j + 1] == pushed.skip(dropped)[j + 1]);
                }
                assert(stack_views(self.undo_stack@) =~= pushed.skip(dropped + 1));
                dropped = dropped + 1;
            }
        }
        proof {
            if pushed.len() <= self.max_history {
                assert(dropped == 0);
                assert(stack_views(self.undo_stack@) == pushed);
            } else {
                assert(dropped == pushed.len() - self.max_history);
            }
        }
    }

    /// Undo: pop the previous snapshot, remembering the current bytes on
    /// the redo stack.  `None` when there is nothing to undo.
    pub fn undo(&mut self, current: Vec<u8>) -> (r: Option<Vec<u8>>)
        ensures
            final(self).max_history == old(self).max_history,
            match r {
                Some(prev) => {
                    &&& old(self).undo_stack@.len() > 0
                    &&& prev@ == old(self).undo_stack@.last()@
                    &&& final(self).undo_stack@ == old(self).undo_stack@.drop_last()
                    &&& stack_views(final(self).redo_stack@) == stack_views(
                        old(self).redo_stack@,
                    ).push(current@)
                },
                None => old(self).undo_stack@.len() == 0 && final(self).undo_stack@ == old(
                    self,
                ).undo_stack@ && final(self).redo_stack@ == old(self).redo_stack@,
            },
    {
        if self.undo_stack.len() == 0 {
            return None;
        }
        let prev = match self.undo_stack.pop() {
            Some(p) => p,
            None => {
                proof {
                    assert(false);
                }
                Vec::new()
            },
        };
        let ghost pre = stack_views(self.redo_stack@);
        self.redo_stack.push(current);
        proof {
            assert(stack_views(self.redo_stack@) =~= pre.push(current@));
        }
        Some(prev)
    }

    /// Redo: the mirror of `undo`.
    pub fn redo(&mut self, current: Vec<u8>) -> (r: Option<Vec<u8>>)
        ensures
            final(self).max_history == old(self).max_history,
            match r {
                Some(next) => {
                    &&& old(self).redo_stack@.len() > 0
                    &&& next@ == old(self).redo_stack@.last()@
                    &&& final(self).redo_stack@ == old(self).redo_stack@.drop_last()
                    &&& stack_views(final(self).undo_stack@) == stack_views(
                        old(self).undo_stack@,
                    ).push(current@)
                },
                None => old(self).redo_stack@.len() == 0 && final(self).undo_stack@ == old(
                    self,
                ).undo_stack@ && final(self).redo_stack@ == old(self).redo_stack@,
            },
    {
        if self.redo_stack.len() == 0 {
            return None;
        }
        let next = match self.redo_stack.pop() {
            Some(p) => p,
            None => {
                proof {
                    assert(false);
                }
                Vec::new()
            },
        };
        let ghost pre = stack_views(self.undo_stack@);
        self.undo_stack.push(current);
        proof {
            assert(stack_views(self.undo_stack@) =~= pre.push(current@));
        }
        Some(next)
    }

    /// Check if undo is available.
    pub fn can_undo(&self) -> (r: bool)
        ensures
            r == (self.undo_stack@.len() > 0),
    {
        self.undo_stack.len() > 0
    }

    /// Check if redo is available.
    pub fn can_redo(&self) -> (r: bool)
        ensures
            r == (self.redo_stack@.len() > 0),
    {
        self.redo_stack.len() > 0
    }

    /// Clear all history.
    pub fn clear(&mut self)
        ensures
            final(self).undo_stack@.len() == 0,
            final(self).redo_stack@.len() == 0,
            final(self).max_history == old(self).max_history,
    {
        self.undo_stack = Vec::new();
        self.redo_stack = Vec::new();
    }

    /// Get the number of undo states available.
    pub fn undo_count(&self) -> (r: usize)
        ensures
            r == self.undo_stack@.len(),
    {
        self.undo_stack.len()
    }

    /// Get the number of redo states available.
    pub fn redo_count(&self) -> (r: usize)
        ensures
            r == self.redo_stack@.len(),
    {
        self.redo_stack.len()
    }
}

} // verus!
