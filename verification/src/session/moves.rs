//! `Move`: one atomic transfer of cards from one pile to another, and the
//! functions that apply and revert it.
//!
//! Every variant's operations reduce to this single primitive: drag-drops,
//! stock clicks (`flip_moved`), stock recycles (`flip_moved` plus
//! `reverse_order`), tableau auto-reveal (`flip_source_after`), Spider run
//! collapses (`take = 13`) and Mom's Solitaire swaps (`swap_with_top`).

use vstd::prelude::*;

use crate::cards::card::{with_face, Card};
use crate::piles::set::{set_top_face_spec, PileSet};

verus! {

#[derive(Clone, Copy, Debug, PartialEq, Eq, Structural)]
pub struct Move {
    pub from: u8,
    pub take: u8,
    pub to: u8,
    /// Toggle the `face_up` flag of every moved card.
    pub flip_moved: bool,
    /// After moving, turn the new top of the source pile face-up.
    pub flip_source_after: bool,
    /// Reverse the order of the moved cards.
    pub reverse_order: bool,
    /// Exchange the top card of `from` with the top card of `to`.
    pub swap_with_top: bool,
}

/// The plain drag-drop move.
pub open spec fn simple_spec(from: u8, take: u8, to: u8) -> Move {
    Move {
        from,
        take,
        to,
        flip_moved: false,
        flip_source_after: false,
        reverse_order: false,
        swap_with_top: false,
    }
}

impl Move {
    /// A plain drag-drop of the top `take` cards of `from` onto `to`.
    pub fn simple(from: u8, take: u8, to: u8) -> (m: Move)
        ensures
            m == simple_spec(from, take, to),
    {
        Move {
            from,
            take,
            to,
            flip_moved: false,
            flip_source_after: false,
            reverse_order: false,
            swap_with_top: false,
        }
    }

    /// Swap the top cards of `from` and `to`.
    pub fn swap(from: u8, to: u8) -> (m: Move)
        ensures
            m == (Move { take: 1, swap_with_top: true, ..simple_spec(from, 1, to) }),
    {
        Move {
            from,
            take: 1,
            to,
            flip_moved: false,
            flip_source_after: false,
            reverse_order: false,
            swap_with_top: true,
        }
    }

    pub fn with_flip_source(self) -> (m: Move)
        ensures
            m == (Move { flip_source_after: true, ..self }),
    {
        Move { flip_source_after: true, ..self }
    }

    pub fn with_flip_moved(self) -> (m: Move)
        ensures
            m == (Move { flip_moved: true, ..self }),
    {
        Move { flip_moved: true, ..self }
    }

    pub fn with_reverse(self) -> (m: Move)
        ensures
            m == (Move { reverse_order: true, ..self }),
    {
        Move { reverse_order: true, ..self }
    }
}

/// Every card of `s` with its face flag toggled.
pub open spec fn flip_all(s: Seq<Card>) -> Seq<Card> {
    Seq::new(s.len(), |i: int| with_face(s[i], !s[i].face_up))
}

/// What `m` does to the moved cards on the way: flip, then reverse.
pub open spec fn transform(moved: Seq<Card>, m: Move) -> Seq<Card> {
    let a = if m.flip_moved { flip_all(moved) } else { moved };
    if m.reverse_order { a.reverse() } else { a }
}

/// The inverse of `transform`: reverse back, then flip back.
pub open spec fn untransform(moved: Seq<Card>, m: Move) -> Seq<Card> {
    let a = if m.reverse_order { moved.reverse() } else { moved };
    if m.flip_moved { flip_all(a) } else { a }
}

/// `m` can be applied to `p` without panicking: both ids exist, and there
/// are enough cards to take (a swap needs a card on each side).
pub open spec fn can_apply(p: Seq<Seq<Card>>, m: Move) -> bool {
    &&& m.from < p.len()
    &&& m.to < p.len()
    &&& if m.swap_with_top {
        &&& p[m.from as int].len() >= 1
        &&& if m.from == m.to {
            p[m.from as int].len() >= 2
        } else {
            p[m.to as int].len() >= 1
        }
    } else {
        m.take <= p[m.from as int].len()
    }
}

/// The board after applying `m` to `p`.
pub open spec fn apply_spec(p: Seq<Seq<Card>>, m: Move) -> Seq<Seq<Card>> {
    let from = m.from as int;
    let to = m.to as int;
    if m.swap_with_top {
        let a = p[from].last();
        let p1 = p.update(from, p[from].drop_last());
        let b = p1[to].last();
        let p2 = p1.update(to, p1[to].drop_last());
        let p3 = p2.update(from, p2[from].push(b));
        p3.update(to, p3[to].push(a))
    } else {
        let f = p[from];
        let k = f.len() - m.take;
        let p1 = p.update(from, f.subrange(0, k));
        let p2 = p1.update(to, p1[to] + transform(f.subrange(k, f.len() as int), m));
        if m.flip_source_after {
            set_top_face_spec(p2, from, true)
        } else {
            p2
        }
    }
}

/// `m` can be reverted on `p` without panicking.
pub open spec fn can_revert(p: Seq<Seq<Card>>, m: Move) -> bool {
    if m.swap_with_top {
        can_apply(p, m)
    } else {
        &&& m.from < p.len()
        &&& m.to < p.len()
        &&& m.take <= p[m.to as int].len()
    }
}

/// The board after reverting `m` on `p`.
pub open spec fn revert_spec(p: Seq<Seq<Card>>, m: Move) -> Seq<Seq<Card>> {
    let from = m.from as int;
    let to = m.to as int;
    if m.swap_with_top {
        apply_spec(p, m)
    } else {
        let q1 = if m.flip_source_after { set_top_face_spec(p, from, false) } else { p };
        let t = q1[to];
        let k = t.len() - m.take;
        let q2 = q1.update(to, t.subrange(0, k));
        q2.update(from, q2[from] + untransform(t.subrange(k, t.len() as int), m))
    }
}

/// `m` is undone exactly by `revert_move` on `p`: besides being applicable,
/// a non-swap move must go between distinct piles, and when it reveals the
/// source's new top card that card must have been face-down.
pub open spec fn reversible(p: Seq<Seq<Card>>, m: Move) -> bool {
    &&& can_apply(p, m)
    &&& !m.swap_with_top ==> m.from != m.to
    &&& (!m.swap_with_top && m.flip_source_after && m.take < p[m.from as int].len()) ==> !p[m.from as int][p[m.from as int].len() - m.take - 1].face_up
}

/// Pile lengths of a board.
pub open spec fn lengths(p: Seq<Seq<Card>>) -> Seq<int> {
    Seq::new(p.len(), |i: int| p[i].len() as int)
}

/// Flipping every card twice changes nothing.
pub proof fn lemma_flip_all_involutive(s: Seq<Card>)
    ensures
        flip_all(flip_all(s)) == s,
{
    assert(flip_all(flip_all(s)) =~= s);
}

/// `untransform` undoes `transform`.
pub proof fn lemma_untransform_transform(s: Seq<Card>, m: Move)
    ensures
        untransform(transform(s, m), m) == s,
        transform(s, m).len() == s.len(),
{
    let a = if m.flip_moved { flip_all(s) } else { s };
    if m.reverse_order {
        assert(a.reverse().reverse() =~= a);
    }
    lemma_flip_all_involutive(s);
}

/// Applying then reverting a reversible move restores the board.
pub proof fn law_revert_undoes_apply(p: Seq<Seq<Card>>, m: Move)
    requires
        reversible(p, m),
    ensures
        can_revert(apply_spec(p, m), m),
        revert_spec(apply_spec(p, m), m) == p,
{
    let from = m.from as int;
    let to = m.to as int;
    if m.swap_with_top {
        let q = apply_spec(p, m);
        if from == to {
            assert(q[from] =~= p[from]);
            assert(q =~= p);
        } else {
            assert(q[from] =~= p[from].drop_last().push(p[to].last()));
            assert(q[to] =~= p[to].drop_last().push(p[from].last()));
            assert(q[from].drop_last() =~= p[from].drop_last());
            assert(q[to].drop_last() =~= p[to].drop_last());
            assert(p[from].drop_last().push(p[from].last()) =~= p[from]);
            assert(p[to].drop_last().push(p[to].last()) =~= p[to]);
            let r = apply_spec(q, m);
            assert(r[from] =~= p[from]);
            assert(r[to] =~= p[to]);
            assert(r =~= p);
        }
    } else {
        let f = p[from];
        let k = f.len() - m.take;
        let moved = f.subrange(k, f.len() as int);
        lemma_untransform_transform(moved, m);
        let p1 = p.update(from, f.subrange(0, k));
        let p2 = p1.update(to, p1[to] + transform(moved, m));
        let q = apply_spec(p, m);
        let q1 = if m.flip_source_after { set_top_face_spec(q, from, false) } else { q };
        if m.flip_source_after {
            if k > 0 {
                assert(q1[from] =~= p2[from]);
            }
            assert(q1 =~= p2);
        }
        assert(q1 == p2);
        let t = q1[to];
        assert(t.subrange(0, t.len() - m.take) =~= p[to]);
        assert(t.subrange(t.len() - m.take, t.len() as int) =~= transform(moved, m));
        assert(f.subrange(0, k) + moved =~= f);
        assert(revert_spec(q, m) =~= p);
    }
}

/// Applying a move and reverting it restores every pile length, reversible
/// or not (only face flags can differ).
pub proof fn lemma_revert_apply_lengths(p: Seq<Seq<Card>>, m: Move)
    requires
        can_apply(p, m),
    ensures
        can_revert(apply_spec(p, m), m),
        lengths(revert_spec(apply_spec(p, m), m)) == lengths(p),
{
    let from = m.from as int;
    let to = m.to as int;
    let q = apply_spec(p, m);
    if m.swap_with_top {
        assert(lengths(apply_spec(q, m)) =~= lengths(p));
    } else {
        let f = p[from];
        let k = f.len() - m.take;
        let moved = f.subrange(k, f.len() as int);
        lemma_untransform_transform(moved, m);
        assert(lengths(revert_spec(q, m)) =~= lengths(p));
    }
}

/// Whether `m` can be reverted, and the lengths after reverting, depend only
/// on the pile lengths.
pub proof fn lemma_revert_depends_on_lengths(p: Seq<Seq<Card>>, q: Seq<Seq<Card>>, m: Move)
    requires
        lengths(p) == lengths(q),
    ensures
        can_revert(p, m) == can_revert(q, m),
        can_revert(p, m) ==> lengths(revert_spec(p, m)) == lengths(revert_spec(q, m)),
{
    assert(p.len() == lengths(p).len());
    assert(q.len() == lengths(q).len());
    assert forall|i: int| 0 <= i < p.len() implies p[i].len() == q[i].len() by {
        assert(lengths(p)[i] == lengths(q)[i]);
        assert(lengths(p)[i] == p[i].len());
        assert(lengths(q)[i] == q[i].len());
    }
    if can_revert(p, m) {
        assert(lengths(revert_spec(p, m)) =~= lengths(revert_spec(q, m)));
    }
}

/// Toggle the face of every card.
fn flip_cards(v: &mut Vec<Card>)
    ensures
        final(v)@ == flip_all(old(v)@),
{
    let n = v.len();
    let mut i: usize = 0;
    while i < n
        invariant
            n == old(v)@.len(),
            v@.len() == n,
            i <= n,
            forall|k: int| 0 <= k < n ==> #[trigger] v@[k] == (if k < i {
                with_face(old(v)@[k], !old(v)@[k].face_up)
            } else {
                old(v)@[k]
            }),
        decreases n - i,
    {
        let mut c = v[i];
        c.flip();
        v.set(i, c);
        i = i + 1;
    }
    assert(v@ =~= flip_all(old(v)@));
}

/// The cards in reverse order.
fn reversed(v: Vec<Card>) -> (r: Vec<Card>)
    ensures
        r@ == v@.reverse(),
{
    let mut r: Vec<Card> = Vec::with_capacity(v.len());
    let n = v.len();
    let mut i: usize = n;
    while i > 0
        invariant
            n == v@.len(),
            i <= n,
            r@ =~= v@.subrange(i as int, n as int).reverse(),
        decreases i,
    {
        i = i - 1;
        r.push(v[i]);
        assert(v@.subrange(i as int, n as int).reverse() =~= v@.subrange(i + 1, n as int).reverse().push(v@[i as int]));
    }
    assert(v@.subrange(0, n as int) =~= v@);
    r
}

/// Apply `m` to `piles`. The caller is responsible for legality; the move
/// must be applicable.
pub fn apply_move(piles: &mut PileSet, m: &Move)
    requires
        can_apply(old(piles)@, *m),
    ensures
        final(piles)@ == apply_spec(old(piles)@, *m),
        final(piles).shapes() == old(piles).shapes(),
{
    if m.swap_with_top {
        let a = piles.pop_card(m.from).unwrap();
        let b = piles.pop_card(m.to).unwrap();
        piles.push_card(m.from, b);
        piles.push_card(m.to, a);
        return;
    }
    let take = m.take as usize;
    let from_len = piles.pile_len(m.from);
    let mut moved = piles.split_off(m.from, from_len - take);
    if m.flip_moved {
        flip_cards(&mut moved);
    }
    if m.reverse_order {
        moved = reversed(moved);
    }
    piles.extend(m.to, moved);
    if m.flip_source_after {
        match piles.top_card(m.from) {
            Some(top) => {
                if !top.face_up {
                    piles.set_top_face(m.from, true);
                } else {
                    proof {
                        let p = piles@;
                        let id = m.from as int;
                        assert(with_face(p[id].last(), true) == p[id].last());
                        assert(p[id].update(p[id].len() - 1, p[id].last()) =~= p[id]);
                        assert(set_top_face_spec(p, id, true) =~= p);
                    }
                }
            },
            None => {},
        }
    }
}

/// Undo `m` on `piles`: the mirror image of `apply_move`.
pub fn revert_move(piles: &mut PileSet, m: &Move)
    requires
        can_revert(old(piles)@, *m),
    ensures
        final(piles)@ == revert_spec(old(piles)@, *m),
        final(piles).shapes() == old(piles).shapes(),
{
    if m.swap_with_top {
        apply_move(piles, m);
        return;
    }
    if m.flip_source_after {
        match piles.top_card(m.from) {
            Some(top) => {
                if top.face_up {
                    piles.set_top_face(m.from, false);
                } else {
                    proof {
                        let p = piles@;
                        let id = m.from as int;
                        assert(with_face(p[id].last(), false) == p[id].last());
                        assert(p[id].update(p[id].len() - 1, p[id].last()) =~= p[id]);
                        assert(set_top_face_spec(p, id, false) =~= p);
                    }
                }
            },
            None => {},
        }
    }
    let take = m.take as usize;
    let to_len = piles.pile_len(m.to);
    let mut moved = piles.split_off(m.to, to_len - take);
    if m.reverse_order {
        moved = reversed(moved);
    }
    if m.flip_moved {
        flip_cards(&mut moved);
    }
    piles.extend(m.from, moved);
}

} // verus!
