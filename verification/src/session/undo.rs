//! Undo stack: last-in-first-out history of applied moves, each tagged
//! with whether it was an automatic follow-up of the move before it.

use vstd::prelude::*;

use super::moves::Move;

verus! {

#[derive(Clone, Debug)]
pub struct UndoStack {
    history: Vec<(Move, bool)>,
}

impl View for UndoStack {
    /// Entries oldest first: the move and whether it was automatic.
    type V = Seq<(Move, bool)>;

    closed spec fn view(&self) -> Seq<(Move, bool)> {
        self.history@
    }
}

impl UndoStack {
    pub fn new() -> (s: UndoStack)
        ensures
            s@ == Seq::<(Move, bool)>::empty(),
    {
        UndoStack { history: Vec::new() }
    }

    /// Record a player-initiated move.
    pub fn push(&mut self, m: Move)
        ensures
            final(self)@ == old(self)@.push((m, false)),
    {
        self.history.push((m, false));
    }

    /// Record a player-initiated move.
    pub fn push_user(&mut self, m: Move)
        ensures
            final(self)@ == old(self)@.push((m, false)),
    {
        self.history.push((m, false));
    }

    /// Record an automatic follow-up move; it is undone together with the
    /// player move before it.
    pub fn push_auto(&mut self, m: Move)
        ensures
            final(self)@ == old(self)@.push((m, true)),
    {
        self.history.push((m, true));
    }

    /// Remove and return the newest entry.
    pub fn pop(&mut self) -> (e: Option<(Move, bool)>)
        ensures
            old(self)@.len() == 0 ==> e is None && final(self)@ == old(self)@,
            old(self)@.len() > 0 ==> e == Some(old(self)@.last()) && final(self)@ == old(self)@.drop_last(),
    {
        self.history.pop()
    }

    pub fn len(&self) -> (n: usize)
        ensures
            n == self@.len(),
    {
        self.history.len()
    }

    pub fn is_empty(&self) -> (b: bool)
        ensures
            b == (self@.len() == 0),
    {
        self.history.len() == 0
    }

    pub fn clear(&mut self)
        ensures
            final(self)@ == Seq::<(Move, bool)>::empty(),
    {
        self.history.clear();
    }
}

/// Pushing a move and popping returns it and restores the stack.
pub proof fn law_push_pop(s: Seq<(Move, bool)>, e: (Move, bool))
    ensures
        s.push(e).last() == e,
        s.push(e).drop_last() == s,
{
    assert(s.push(e).drop_last() =~= s);
}

} // verus!
