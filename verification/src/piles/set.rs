//! `PileSet`: every pile of one game board, indexed by pile id.

use vstd::prelude::*;

use super::pile::{Pile, PileMeta};
use crate::cards::Card;

verus! {

#[derive(Clone, Debug)]
pub struct PileSet {
    piles: Vec<Pile>,
}

/// Everything about a pile except its cards.
pub open spec fn pile_shape(p: Pile) -> (u8, super::pile::PileKind, super::pile::PileLayout, i64, bool) {
    (p.id, p.kind, p.layout, p.column_order, p.render_ace_as_gap)
}

impl View for PileSet {
    /// The cards of each pile, bottom card first.
    type V = Seq<Seq<Card>>;

    closed spec fn view(&self) -> Seq<Seq<Card>> {
        self.piles@.map_values(|p: Pile| p.cards@)
    }
}

impl PileSet {
    /// The piles themselves.
    pub closed spec fn pile_seq(&self) -> Seq<Pile> {
        self.piles@
    }

    /// Everything except the cards, per pile.
    pub open spec fn shapes(&self) -> Seq<(u8, super::pile::PileKind, super::pile::PileLayout, i64, bool)> {
        self.pile_seq().map_values(|p: Pile| pile_shape(p))
    }

    /// Empty piles, one per entry of `metas`, with ids `0..n` in order.
    pub fn from_metas(metas: &[PileMeta]) -> (s: PileSet)
        requires
            metas@.len() <= 256,
        ensures
            s@.len() == metas@.len(),
            forall|i: int| 0 <= i < s@.len() ==> (#[trigger] s@[i]).len() == 0,
            forall|i: int| 0 <= i < s@.len() ==> {
                &&& (#[trigger] s.pile_seq()[i]).id == i
                &&& s.pile_seq()[i].kind == metas@[i].kind
                &&& s.pile_seq()[i].layout == metas@[i].layout
                &&& s.pile_seq()[i].render_ace_as_gap == metas@[i].render_ace_as_gap
                &&& s.pile_seq()[i].column_order == i
            },
    {
        let mut piles: Vec<Pile> = Vec::new();
        let mut i: usize = 0;
        while i < metas.len()
            invariant
                metas@.len() <= 256,
                i <= metas@.len(),
                piles@.len() == i,
                forall|j: int| 0 <= j < i ==> {
                    &&& (#[trigger] piles@[j]).id == j
                    &&& piles@[j].kind == metas@[j].kind
                    &&& piles@[j].layout == metas@[j].layout
                    &&& piles@[j].render_ace_as_gap == metas@[j].render_ace_as_gap
                    &&& piles@[j].column_order == j
                    &&& piles@[j].cards@.len() == 0
                },
            decreases metas@.len() - i,
        {
            piles.push(Pile::from_meta(i as u8, &metas[i]));
            i = i + 1;
        }
        PileSet { piles }
    }

    /// Re-apply per-pile configuration without touching the cards.
    pub fn update_metas(&mut self, metas: &[PileMeta])
        requires
            metas@.len() == old(self)@.len(),
        ensures
            final(self)@ == old(self)@,
            final(self).pile_seq().len() == old(self).pile_seq().len(),
            forall|i: int| 0 <= i < final(self)@.len() ==> {
                &&& (#[trigger] final(self).pile_seq()[i]).id == old(self).pile_seq()[i].id
                &&& final(self).pile_seq()[i].column_order == old(self).pile_seq()[i].column_order
                &&& final(self).pile_seq()[i].kind == metas@[i].kind
                &&& final(self).pile_seq()[i].layout == metas@[i].layout
                &&& final(self).pile_seq()[i].render_ace_as_gap == metas@[i].render_ace_as_gap
            },
    {
        let ghost old_piles = self.piles@;
        let mut i: usize = 0;
        while i < metas.len()
            invariant
                metas@.len() == old_piles.len(),
                self.piles@.len() == old_piles.len(),
                i <= metas@.len(),
                forall|j: int| 0 <= j < old_piles.len() ==> (#[trigger] self.piles@[j]).cards@ == old_piles[j].cards@,
                forall|j: int| 0 <= j < old_piles.len() ==> (#[trigger] self.piles@[j]).id == old_piles[j].id,
                forall|j: int| 0 <= j < old_piles.len() ==> (#[trigger] self.piles@[j]).column_order == old_piles[j].column_order,
                forall|j: int| 0 <= j < i ==> {
                    &&& (#[trigger] self.piles@[j]).kind == metas@[j].kind
                    &&& self.piles@[j].layout == metas@[j].layout
                    &&& self.piles@[j].render_ace_as_gap == metas@[j].render_ace_as_gap
                },
            decreases metas@.len() - i,
        {
            self.piles[i].apply_meta(&metas[i]);
            i = i + 1;
        }
        assert(self@ =~= old(self)@);
    }

    /// Set the screen column order of each pile.
    pub fn set_column_orders(&mut self, orders: &[i64])
        requires
            orders@.len() == old(self)@.len(),
        ensures
            final(self)@ == old(self)@,
            final(self).pile_seq().len() == old(self).pile_seq().len(),
            forall|i: int| 0 <= i < final(self)@.len() ==> (#[trigger] final(self).pile_seq()[i]).column_order == orders@[i],
    {
        let ghost old_piles = self.piles@;
        let mut i: usize = 0;
        while i < orders.len()
            invariant
                orders@.len() == old_piles.len(),
                self.piles@.len() == old_piles.len(),
                i <= orders@.len(),
                forall|j: int| 0 <= j < old_piles.len() ==> (#[trigger] self.piles@[j]).cards@ == old_piles[j].cards@,
                forall|j: int| 0 <= j < i ==> (#[trigger] self.piles@[j]).column_order == orders@[j],
            decreases orders@.len() - i,
        {
            self.piles[i].column_order = orders[i];
            i = i + 1;
        }
        assert(self@ =~= old(self)@);
    }

    /// Each pile is a vector in memory, so its length fits a `usize`.
    pub proof fn lemma_pile_lens(&self)
        ensures
            forall|i: int| 0 <= i < self@.len() ==> #[trigger] self@[i].len() <= usize::MAX,
    {
        assert forall|i: int| 0 <= i < self@.len() implies #[trigger] self@[i].len() <= usize::MAX by {
            let pile = self.piles@[i];
            vstd::std_specs::vec::axiom_spec_len(&pile.cards);
        }
    }

    pub fn len(&self) -> (n: usize)
        ensures
            n == self@.len(),
    {
        self.piles.len()
    }

    pub fn is_empty(&self) -> (b: bool)
        ensures
            b == (self@.len() == 0),
    {
        self.piles.len() == 0
    }

    /// A copy of the whole board.
    pub fn duplicate(&self) -> (r: PileSet)
        ensures
            r@ == self@,
            r.shapes() == self.shapes(),
    {
        let mut piles: Vec<Pile> = Vec::new();
        let n = self.piles.len();
        let mut i: usize = 0;
        while i < n
            invariant
                n == self.piles@.len(),
                i <= n,
                piles@.len() == i,
                forall|j: int| 0 <= j < i ==> (#[trigger] piles@[j]).cards@ == self.piles@[j].cards@
                    && pile_shape(piles@[j]) == pile_shape(self.piles@[j]),
            decreases n - i,
        {
            piles.push(self.piles[i].duplicate());
            i = i + 1;
        }
        let r = PileSet { piles };
        assert(r@ =~= self@);
        assert(r.shapes() =~= self.shapes());
        r
    }

    pub fn get(&self, id: u8) -> (p: &Pile)
        requires
            id < self@.len(),
        ensures
            *p == self.pile_seq()[id as int],
            p.cards@ == self@[id as int],
    {
        &self.piles[id as usize]
    }

    pub fn get_mut(&mut self, id: u8) -> (p: &mut Pile)
        requires
            id < old(self)@.len(),
        ensures
            *p == old(self).pile_seq()[id as int],
            final(self).pile_seq() == old(self).pile_seq().update(id as int, *final(p)),
    {
        &mut self.piles[id as usize]
    }

    /// The piles as a slice, in id order.
    pub fn as_slice(&self) -> (s: &[Pile])
        ensures
            s@ == self.pile_seq(),
    {
        self.piles.as_slice()
    }

    /// Number of cards in pile `id`.
    pub fn pile_len(&self, id: u8) -> (n: usize)
        requires
            id < self@.len(),
        ensures
            n == self@[id as int].len(),
    {
        self.piles[id as usize].cards.len()
    }

    /// Card `idx` of pile `id`.
    pub fn card_at(&self, id: u8, idx: usize) -> (c: Card)
        requires
            id < self@.len(),
            idx < self@[id as int].len(),
        ensures
            c == self@[id as int][idx as int],
    {
        self.piles[id as usize].cards[idx]
    }

    /// Top card of pile `id`, if any.
    pub fn top_card(&self, id: u8) -> (c: Option<Card>)
        requires
            id < self@.len(),
        ensures
            c == super::pile::top_of(self@[id as int]),
    {
        self.piles[id as usize].top_card()
    }

    /// Put `c` on top of pile `id`.
    pub fn push_card(&mut self, id: u8, c: Card)
        requires
            id < old(self)@.len(),
        ensures
            final(self)@ == old(self)@.update(id as int, old(self)@[id as int].push(c)),
            final(self).shapes() == old(self).shapes(),
    {
        self.piles[id as usize].cards.push(c);
        assert(self@ =~= old(self)@.update(id as int, old(self)@[id as int].push(c)));
        assert(self.shapes() =~= old(self).shapes());
    }

    /// Remove and return the top card of pile `id`.
    pub fn pop_card(&mut self, id: u8) -> (c: Option<Card>)
        requires
            id < old(self)@.len(),
        ensures
            c == super::pile::top_of(old(self)@[id as int]),
            final(self)@ == (if old(self)@[id as int].len() == 0 {
                old(self)@
            } else {
                old(self)@.update(id as int, old(self)@[id as int].drop_last())
            }),
            final(self).shapes() == old(self).shapes(),
    {
        let c = self.piles[id as usize].cards.pop();
        assert(self@ =~= (if old(self)@[id as int].len() == 0 {
            old(self)@
        } else {
            old(self)@.update(id as int, old(self)@[id as int].drop_last())
        }));
        assert(self.shapes() =~= old(self).shapes());
        c
    }

    /// Remove and return the cards of pile `id` from index `at` up, in order.
    pub fn split_off(&mut self, id: u8, at: usize) -> (moved: Vec<Card>)
        requires
            id < old(self)@.len(),
            at <= old(self)@[id as int].len(),
        ensures
            moved@ == old(self)@[id as int].subrange(at as int, old(self)@[id as int].len() as int),
            final(self)@ == old(self)@.update(id as int, old(self)@[id as int].subrange(0, at as int)),
            final(self).shapes() == old(self).shapes(),
    {
        let moved = self.piles[id as usize].cards.split_off(at);
        assert(self@ =~= old(self)@.update(id as int, old(self)@[id as int].subrange(0, at as int)));
        assert(self.shapes() =~= old(self).shapes());
        moved
    }

    /// Put `cards` on top of pile `id`, in order.
    pub fn extend(&mut self, id: u8, cards: Vec<Card>)
        requires
            id < old(self)@.len(),
        ensures
            final(self)@ == old(self)@.update(id as int, old(self)@[id as int] + cards@),
            final(self).shapes() == old(self).shapes(),
    {
        let mut cards = cards;
        let ghost added = cards@;
        self.piles[id as usize].cards.append(&mut cards);
        assert(self@ =~= old(self)@.update(id as int, old(self)@[id as int] + added));
        assert(self.shapes() =~= old(self).shapes());
    }

    /// Set the face-up flag of the top card of pile `id` (no-op when empty).
    pub fn set_top_face(&mut self, id: u8, up: bool)
        requires
            id < old(self)@.len(),
        ensures
            final(self)@ == set_top_face_spec(old(self)@, id as int, up),
            final(self).shapes() == old(self).shapes(),
    {
        let n = self.piles[id as usize].cards.len();
        if n > 0 {
            let mut c = self.piles[id as usize].cards[n - 1];
            c.face_up = up;
            self.piles[id as usize].cards.set(n - 1, c);
        }
        assert(self@ =~= set_top_face_spec(old(self)@, id as int, up));
        assert(self.shapes() =~= old(self).shapes());
    }

    /// Set the face-up flag of every card of pile `id` from index `from` up.
    pub fn set_faces_from(&mut self, id: u8, from: usize, up: bool)
        requires
            id < old(self)@.len(),
        ensures
            final(self)@ == old(self)@.update(id as int, set_faces_from_spec(old(self)@[id as int], from as int, up)),
            final(self).shapes() == old(self).shapes(),
    {
        let n = self.piles[id as usize].cards.len();
        let ghost old_piles = self.piles@;
        let mut i = from;
        while i < n
            invariant
                id < old_piles.len(),
                n == old_piles[id as int].cards@.len(),
                self.piles@.len() == old_piles.len(),
                from <= i,
                forall|k: int| 0 <= k < old_piles.len() && k != id ==> #[trigger] self.piles@[k] == old_piles[k],
                pile_shape(self.piles@[id as int]) == pile_shape(old_piles[id as int]),
                self.piles@[id as int].cards@.len() == n,
                forall|k: int| 0 <= k < n ==> #[trigger] self.piles@[id as int].cards@[k] == (if from <= k < i {
                    crate::cards::card::with_face(old_piles[id as int].cards@[k], up)
                } else {
                    old_piles[id as int].cards@[k]
                }),
            decreases n - i,
        {
            let mut c = self.piles[id as usize].cards[i];
            c.face_up = up;
            assert(c == crate::cards::card::with_face(old_piles[id as int].cards@[i as int], up));
            let ghost before = self.piles@[id as int].cards@;
            self.piles[id as usize].cards.set(i, c);
            assert(self.piles@[id as int].cards@ == before.update(i as int, c));
            assert forall|k: int| 0 <= k < n implies #[trigger] self.piles@[id as int].cards@[k] == (if from <= k < i + 1 {
                crate::cards::card::with_face(old_piles[id as int].cards@[k], up)
            } else {
                old_piles[id as int].cards@[k]
            }) by {
                if k != i {
                    assert(self.piles@[id as int].cards@[k] == before[k]);
                    assert(before[k] == (if from <= k < i {
                        crate::cards::card::with_face(old_piles[id as int].cards@[k], up)
                    } else {
                        old_piles[id as int].cards@[k]
                    }));
                } else {
                    assert(self.piles@[id as int].cards@[k] == c);
                    assert(from <= k);
                }
            }
            i = i + 1;
        }
        assert(self.piles@[id as int].cards@ =~= set_faces_from_spec(old(self)@[id as int], from as int, up));
        assert(self@ =~= old(self)@.update(id as int, set_faces_from_spec(old(self)@[id as int], from as int, up)));
        assert(self.shapes() =~= old(self).shapes());
    }
}

/// `s` with cards from index `from` up turned face-up (`up`) or face-down.
pub open spec fn set_faces_from_spec(s: Seq<Card>, from: int, up: bool) -> Seq<Card> {
    Seq::new(s.len(), |k: int| if from <= k { crate::cards::card::with_face(s[k], up) } else { s[k] })
}

/// `p` with the face-up flag of pile `id`'s top card set to `up`.
pub open spec fn set_top_face_spec(p: Seq<Seq<Card>>, id: int, up: bool) -> Seq<Seq<Card>> {
    if p[id].len() == 0 {
        p
    } else {
        p.update(id, p[id].update(p[id].len() - 1, crate::cards::card::with_face(p[id].last(), up)))
    }
}

} // verus!
