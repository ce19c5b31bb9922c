//! `Pile`: one stack of cards.

use vstd::prelude::*;

use crate::cards::Card;

verus! {

#[derive(Clone, Copy, Debug, PartialEq, Eq, Structural)]
pub enum PileKind {
    Stock,
    Waste,
    Foundation,
    Tableau,
    /// FreeCell free-cell slot: holds at most one card.
    Cell,
}

/// How successive cards of a pile are offset on screen.
#[derive(Clone, Copy, Debug, PartialEq, Eq, Structural)]
pub enum PileLayout {
    /// All cards stacked on top of card 0; only the top card shows.
    Stacked,
    /// Cards fan downward, face-down cards by a smaller step.
    FannedDown,
    /// Like `FannedDown`, but cards inside a suited descending run
    /// compact to the face-down step.
    FannedDownCompactSuited,
}

/// What lies under a pointer: a card of a pile, or an empty pile's slot.
#[derive(Clone, Copy, Debug, PartialEq, Eq, Structural)]
pub enum HitResult {
    Card { pile: u8, card_idx: usize },
    EmptySlot { pile: u8 },
}

/// The per-pile configuration a game's rules declare: kind, layout and
/// whether an Ace on top is drawn as a gap (Mom's Solitaire).
#[derive(Clone, Copy, Debug, PartialEq, Eq, Structural)]
pub struct PileMeta {
    pub kind: PileKind,
    pub layout: PileLayout,
    pub render_ace_as_gap: bool,
}

#[derive(Clone, Debug)]
pub struct Pile {
    pub id: u8,
    pub kind: PileKind,
    pub layout: PileLayout,
    pub cards: Vec<Card>,
    /// Left-to-right screen position of the pile: smaller is further left.
    /// Click-to-move prefers destinations in this order, ties by id.
    pub column_order: i64,
    /// When `true`, an Ace on top is drawn as an empty gap.
    pub render_ace_as_gap: bool,
}

/// The top card of a card sequence, if any.
pub open spec fn top_of(s: Seq<Card>) -> Option<Card> {
    if s.len() == 0 {
        None
    } else {
        Some(s.last())
    }
}

impl Pile {
    /// An empty pile with the given id and configuration.
    pub fn from_meta(id: u8, meta: &PileMeta) -> (p: Pile)
        ensures
            p.id == id,
            p.kind == meta.kind,
            p.layout == meta.layout,
            p.render_ace_as_gap == meta.render_ace_as_gap,
            p.cards@.len() == 0,
            p.column_order == id as i64,
    {
        Pile {
            id,
            kind: meta.kind,
            layout: meta.layout,
            cards: Vec::new(),
            column_order: id as i64,
            render_ace_as_gap: meta.render_ace_as_gap,
        }
    }

    /// Re-apply a configuration without touching the cards.
    pub fn apply_meta(&mut self, meta: &PileMeta)
        ensures
            final(self).id == old(self).id,
            final(self).cards@ == old(self).cards@,
            final(self).column_order == old(self).column_order,
            final(self).kind == meta.kind,
            final(self).layout == meta.layout,
            final(self).render_ace_as_gap == meta.render_ace_as_gap,
    {
        self.kind = meta.kind;
        self.layout = meta.layout;
        self.render_ace_as_gap = meta.render_ace_as_gap;
    }

    pub fn top(&self) -> (r: Option<&Card>)
        ensures
            match r {
                Some(c) => top_of(self.cards@) == Some(*c),
                None => top_of(self.cards@) is None,
            },
    {
        let n = self.cards.len();
        if n == 0 {
            None
        } else {
            Some(&self.cards[n - 1])
        }
    }

    /// Top card by value.
    pub fn top_card(&self) -> (r: Option<Card>)
        ensures
            r == top_of(self.cards@),
    {
        let n = self.cards.len();
        if n == 0 {
            None
        } else {
            Some(self.cards[n - 1])
        }
    }

    /// A copy of the pile: same configuration, same cards.
    pub fn duplicate(&self) -> (r: Pile)
        ensures
            r.cards@ == self.cards@,
            r.id == self.id,
            r.kind == self.kind,
            r.layout == self.layout,
            r.column_order == self.column_order,
            r.render_ace_as_gap == self.render_ace_as_gap,
    {
        let mut cards: Vec<Card> = Vec::new();
        let n = self.cards.len();
        let mut i: usize = 0;
        while i < n
            invariant
                n == self.cards@.len(),
                i <= n,
                cards@ == self.cards@.subrange(0, i as int),
            decreases n - i,
        {
            cards.push(self.cards[i]);
            i = i + 1;
            assert(cards@ =~= self.cards@.subrange(0, i as int));
        }
        assert(cards@ =~= self.cards@);
        Pile {
            id: self.id,
            kind: self.kind,
            layout: self.layout,
            cards,
            column_order: self.column_order,
            render_ace_as_gap: self.render_ace_as_gap,
        }
    }

    pub fn len(&self) -> (n: usize)
        ensures
            n == self.cards@.len(),
    {
        self.cards.len()
    }

    pub fn is_empty(&self) -> (b: bool)
        ensures
            b == (self.cards@.len() == 0),
    {
        self.cards.len() == 0
    }
}

} // verus!
