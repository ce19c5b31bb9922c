//! Reverse-shuffle Spider deal generator: start from the solved board
//! (eight King-to-Ace runs on the foundations) and walk it backwards to an
//! opening layout: runs onto the columns, random run moves between columns,
//! the columns evened out to their share, rows lifted into the stock,
//! every column's cards turned face-down but the top.
//!
//! Proved of every deal: the foundations are empty, the stock holds fifty
//! face-down cards, each column holds exactly its opening length with only
//! its top card face-up, and the board holds exactly the cards of the
//! solved board (up to which way they face).

use vstd::prelude::*;
use vstd::multiset::Multiset;

use rand::rngs::StdRng;

use super::spider::{is_cascade_spec, spider_metas, suited_run, CASCADE_FIRST, CASCADE_LAST, FOUND_FIRST, FOUND_LAST, N_CASCADES, STOCK};
use crate::cards::card::{with_face, Card};
use crate::cards::rank::{rank_of_value, rank_up, Rank};
use crate::cards::suit::Suit;
use crate::piles::pile::top_of;
use crate::piles::PileSet;
use crate::rng::{gen_range_inclusive_usize, gen_range_u8, gen_range_usize, rng_from_seed};

verus! {

/// Cards in the stock of a Spider opening.
pub const TARGET_STOCK: usize = 50;

/// Opening length of column `idx`: six for the first four, five after.
pub open spec fn target_cascade_size_spec(idx: int) -> int {
    if idx < 4 {
        6
    } else {
        5
    }
}

pub fn target_cascade_size(idx: usize) -> (n: usize)
    ensures
        n == target_cascade_size_spec(idx as int),
{
    if idx < 4 {
        6
    } else {
        5
    }
}

/// The suit of each of the eight runs.
pub open spec fn active_suits_spec(suit_count: u8, one_suit: Suit) -> Seq<Suit> {
    if suit_count == 1 {
        Seq::new(8, |i: int| one_suit)
    } else if suit_count == 2 {
        let s2 = if one_suit == Suit::Spades || one_suit == Suit::Clubs {
            Suit::Hearts
        } else {
            Suit::Spades
        };
        Seq::new(8, |i: int| if i < 4 { one_suit } else { s2 })
    } else {
        seq![Suit::Spades, Suit::Spades, Suit::Hearts, Suit::Hearts, Suit::Diamonds, Suit::Diamonds, Suit::Clubs, Suit::Clubs]
    }
}

fn active_suits(suit_count: u8, one_suit: Suit) -> (r: Vec<Suit>)
    requires
        suit_count == 1 || suit_count == 2 || suit_count == 4,
    ensures
        r@ == active_suits_spec(suit_count, one_suit),
{
    if suit_count == 1 {
        let r = vec![one_suit, one_suit, one_suit, one_suit, one_suit, one_suit, one_suit, one_suit];
        assert(r@ =~= active_suits_spec(suit_count, one_suit));
        r
    } else if suit_count == 2 {
        let s2 = match one_suit {
            Suit::Spades | Suit::Clubs => Suit::Hearts,
            _ => Suit::Spades,
        };
        let r = vec![one_suit, one_suit, one_suit, one_suit, s2, s2, s2, s2];
        assert(r@ =~= active_suits_spec(suit_count, one_suit));
        r
    } else {
        let r = vec![
            Suit::Spades,
            Suit::Spades,
            Suit::Hearts,
            Suit::Hearts,
            Suit::Diamonds,
            Suit::Diamonds,
            Suit::Clubs,
            Suit::Clubs,
        ];
        assert(r@ =~= active_suits_spec(suit_count, one_suit));
        r
    }
}

/// A face-up King-to-Ace run of `suit`.
pub open spec fn solved_run(suit: Suit) -> Seq<Card> {
    Seq::new(13, |k: int| Card { suit, rank: rank_of_value(13 - k).unwrap(), face_up: true, deck_id: 0 })
}

/// The solved board: run `i` on foundation `i`, everything else empty.
pub open spec fn solved_board(suits: Seq<Suit>) -> Seq<Seq<Card>> {
    Seq::new(19, |i: int| if i < 8 { solved_run(suits[i]) } else { Seq::empty() })
}

/// The cards of a pile, all taken face-up, as a multiset.
pub open spec fn normalized(s: Seq<Card>) -> Multiset<Card> {
    s.map_values(|c: Card| with_face(c, true)).to_multiset()
}

/// The cards of piles `0..n`, all taken face-up.
pub open spec fn cards_upto(p: Seq<Seq<Card>>, n: int) -> Multiset<Card>
    decreases n,
{
    if n <= 0 {
        Multiset::empty()
    } else {
        cards_upto(p, n - 1).add(normalized(p[n - 1]))
    }
}

/// Every card on the board, taken face-up.
pub open spec fn board_cards(p: Seq<Seq<Card>>) -> Multiset<Card> {
    cards_upto(p, p.len() as int)
}

proof fn lemma_cards_update(p: Seq<Seq<Card>>, i: int, x: Seq<Card>, n: int)
    requires
        0 <= i < p.len(),
        0 <= n <= p.len(),
    ensures
        i < n ==> cards_upto(p.update(i, x), n).add(normalized(p[i])) == cards_upto(p, n).add(normalized(x)),
        i >= n ==> cards_upto(p.update(i, x), n) == cards_upto(p, n),
    decreases n,
{
    broadcast use vstd::multiset::group_multiset_axioms;

    if n > 0 {
        lemma_cards_update(p, i, x, n - 1);
        let q = p.update(i, x);
        if i == n - 1 {
            assert(q[n - 1] == x);
            assert(cards_upto(q, n - 1) == cards_upto(p, n - 1));
            assert(cards_upto(q, n).add(normalized(p[i])) =~= cards_upto(p, n).add(normalized(x)));
        } else if i < n - 1 {
            assert(q[n - 1] == p[n - 1]);
            let a = cards_upto(q, n - 1);
            let b = cards_upto(p, n - 1);
            assert(a.add(normalized(p[i])) == b.add(normalized(x)));
            assert forall|v: Card| #[trigger] cards_upto(q, n).add(normalized(p[i])).count(v) == cards_upto(p, n).add(normalized(x)).count(v) by {
                assert(a.add(normalized(p[i])).count(v) == b.add(normalized(x)).count(v));
            }
            assert(cards_upto(q, n).add(normalized(p[i])) =~= cards_upto(p, n).add(normalized(x)));
        } else {
            assert(q[n - 1] == p[n - 1]);
        }
    }
}

proof fn lemma_normalized_concat(a: Seq<Card>, b: Seq<Card>)
    ensures
        normalized(a + b) == normalized(a).add(normalized(b)),
{
    let f = |c: Card| with_face(c, true);
    assert((a + b).map_values(f) =~= a.map_values(f) + b.map_values(f));
    vstd::seq_lib::lemma_multiset_commutative(a.map_values(f), b.map_values(f));
}

proof fn lemma_normalized_split(s: Seq<Card>, at: int)
    requires
        0 <= at <= s.len(),
    ensures
        normalized(s) == normalized(s.subrange(0, at)).add(normalized(s.subrange(at, s.len() as int))),
{
    assert(s =~= s.subrange(0, at) + s.subrange(at, s.len() as int));
    lemma_normalized_concat(s.subrange(0, at), s.subrange(at, s.len() as int));
}

/// Moving the cards of pile `from` from `at` up onto pile `to` keeps the
/// board's cards.
proof fn lemma_transfer_keeps_cards(p: Seq<Seq<Card>>, from: int, at: int, to: int)
    requires
        0 <= from < p.len(),
        0 <= to < p.len(),
        from != to,
        0 <= at <= p[from].len(),
    ensures
        board_cards(p.update(from, p[from].subrange(0, at)).update(to, p[to] + p[from].subrange(at, p[from].len() as int)))
            == board_cards(p),
{
    broadcast use vstd::multiset::group_multiset_axioms;

    let moved = p[from].subrange(at, p[from].len() as int);
    let p1 = p.update(from, p[from].subrange(0, at));
    let p2 = p1.update(to, p[to] + moved);
    let n = p.len() as int;
    lemma_cards_update(p, from, p[from].subrange(0, at), n);
    lemma_cards_update(p1, to, p[to] + moved, n);
    lemma_normalized_split(p[from], at);
    lemma_normalized_concat(p[to], moved);
    assert(p1[to] == p[to]);
    let sub0 = p[from].subrange(0, at);
    assert forall|v: Card| #[trigger] cards_upto(p2, n).count(v) == cards_upto(p, n).count(v) by {
        assert(cards_upto(p2, n).add(normalized(p1[to])).count(v) == cards_upto(p1, n).add(normalized(p[to] + moved)).count(v));
        assert(cards_upto(p1, n).add(normalized(p[from])).count(v) == cards_upto(p, n).add(normalized(sub0)).count(v));
        assert(normalized(p[from]).count(v) == normalized(sub0).count(v) + normalized(moved).count(v));
        assert(normalized(p[to] + moved).count(v) == normalized(p[to]).count(v) + normalized(moved).count(v));
    }
    assert(cards_upto(p2, n) =~= cards_upto(p, n));
}

/// Changing which way the cards of a pile face keeps the board's cards.
proof fn lemma_refacing_keeps_cards(p: Seq<Seq<Card>>, i: int, x: Seq<Card>)
    requires
        0 <= i < p.len(),
        x.len() == p[i].len(),
        forall|k: int| 0 <= k < x.len() ==> with_face(#[trigger] x[k], true) == with_face(p[i][k], true),
    ensures
        board_cards(p.update(i, x)) == board_cards(p),
{
    broadcast use vstd::multiset::group_multiset_axioms;

    let f = |c: Card| with_face(c, true);
    assert(x.map_values(f) =~= p[i].map_values(f));
    assert(normalized(x) == normalized(p[i]));
    let n = p.len() as int;
    lemma_cards_update(p, i, x, n);
    assert forall|v: Card| #[trigger] cards_upto(p.update(i, x), n).count(v) == cards_upto(p, n).count(v) by {
        assert(cards_upto(p.update(i, x), n).add(normalized(p[i])).count(v) == cards_upto(p, n).add(normalized(x)).count(v));
    }
    assert(cards_upto(p.update(i, x), n) =~= cards_upto(p, n));
}

/// The shape every generated deal has.
pub open spec fn opening_shape(p: Seq<Seq<Card>>) -> bool {
    &&& p.len() == 19
    &&& forall|f: int| FOUND_FIRST <= f <= FOUND_LAST ==> (#[trigger] p[f]).len() == 0
    &&& p[STOCK as int].len() == TARGET_STOCK
    &&& forall|k: int| 0 <= k < p[STOCK as int].len() ==> !(#[trigger] p[STOCK as int][k]).face_up
    &&& forall|c: int| CASCADE_FIRST <= c <= CASCADE_LAST ==> (#[trigger] p[c]).len() == target_cascade_size_spec(c - CASCADE_FIRST)
    &&& forall|c: int, k: int| CASCADE_FIRST <= c <= CASCADE_LAST && 0 <= k < p[c].len() ==>
            (#[trigger] p[c][k]).face_up == (k == p[c].len() - 1)
}

/// The solved board of the given suits.
fn build_solved_state(suits: &Vec<Suit>) -> (piles: PileSet)
    requires
        suits@.len() == 8,
    ensures
        piles@ == solved_board(suits@),
{
    let metas = spider_metas();
    let mut piles = PileSet::from_metas(metas.as_slice());
    let mut i: u8 = 0;
    while i < 8
        invariant
            suits@.len() == 8,
            i <= 8,
            piles@.len() == 19,
            forall|f: int| 0 <= f < i ==> #[trigger] piles@[f] == solved_run(suits@[f]),
            forall|f: int| i <= f < 19 ==> (#[trigger] piles@[f]).len() == 0,
        decreases 8 - i,
    {
        let suit = suits[i as usize];
        let mut r: u8 = 13;
        while r >= 1
            invariant
                suits@.len() == 8,
                i < 8,
                suit == suits@[i as int],
                0 <= r <= 13,
                piles@.len() == 19,
                forall|f: int| 0 <= f < i ==> #[trigger] piles@[f] == solved_run(suits@[f]),
                forall|f: int| i < f < 19 ==> (#[trigger] piles@[f]).len() == 0,
                piles@[i as int] == solved_run(suit).subrange(0, 13 - r),
            decreases r,
        {
            let rank = Rank::from_u8(r).unwrap();
            proof {
                crate::cards::rank::lemma_rank_of_value(r as int);
            }
            piles.push_card(i, Card::new(suit, rank).face_up());
            assert(piles@[i as int] =~= solved_run(suit).subrange(0, 14 - r));
            r = r - 1;
        }
        assert(solved_run(suit).subrange(0, 13) =~= solved_run(suit));
        i = i + 1;
    }
    assert forall|f: int| 0 <= f < 19 implies #[trigger] piles@[f] == solved_board(suits@)[f] by {
        if f >= 8 {
            assert(piles@[f] =~= Seq::<Card>::empty());
        }
    }
    assert(piles@ =~= solved_board(suits@));
    piles
}

/// `upper` may lie on `lower` in a suited run: both face-up, one suit,
/// `upper` one rank lower.
pub open spec fn extends_run(lower: Card, upper: Card) -> bool {
    &&& lower.face_up
    &&& upper.face_up
    &&& lower.suit == upper.suit
    &&& crate::cards::rank::rank_down(lower.rank) == Some(upper.rank)
}

/// Length of the suited face-up run on top of `cards` (0 when empty): the
/// longest one, a lone top card counting as one.
fn suited_run_length_at_top(cards: &[Card]) -> (len: usize)
    ensures
        cards@.len() == 0 ==> len == 0,
        cards@.len() > 0 ==> 1 <= len <= cards@.len(),
        len >= 2 ==> suited_run(cards@.subrange(cards@.len() - len, cards@.len() as int)),
        1 <= len < cards@.len() ==> !extends_run(cards@[cards@.len() - len - 1], cards@[cards@.len() - len]),
{
    let n = cards.len();
    if n == 0 {
        return 0;
    }
    let mut len: usize = 1;
    while len < n
        invariant
            n == cards@.len(),
            1 <= len <= n,
            len >= 2 ==> suited_run(cards@.subrange(n - len, n as int)),
        decreases n - len,
    {
        let upper = cards[n - 1 - (len - 1)];
        let lower = cards[n - 1 - len];
        if !upper.face_up || !lower.face_up {
            return len;
        }
        if upper.suit != lower.suit {
            return len;
        }
        if !crate::cards::rank::opt_rank_is(lower.rank.next_down(), upper.rank) {
            return len;
        }
        proof {
            let old_run = cards@.subrange(n - len, n as int);
            let run = cards@.subrange(n - len - 1, n as int);
            assert(run[0] == lower);
            assert(run[1] == upper);
            assert forall|i: int| 1 <= i < run.len() implies run[i] == old_run[i - 1] by {}
            if len >= 2 {
                assert(old_run[0] == upper);
            } else {
                assert(run.len() == 2);
            }
            assert(crate::cards::rank::rank_down(lower.rank) == Some(upper.rank));
            assert forall|i: int| 0 <= i < run.len() implies (#[trigger] run[i]).face_up by {
                if i >= 1 && len >= 2 {
                    assert(old_run[i - 1].face_up);
                }
            }
            assert forall|i: int| 0 <= i < run.len() implies (#[trigger] run[i]).suit == run[0].suit by {
                if i >= 1 && len >= 2 {
                    assert(old_run[i - 1].suit == old_run[0].suit);
                }
            }
            assert forall|i: int| 0 <= i < run.len() - 1 implies Some((#[trigger] run[i + 1]).rank) == crate::cards::rank::rank_down(run[i].rank) by {
                if i >= 1 {
                    assert(run[i + 1] == old_run[i]);
                    assert(len >= 2);
                    let j = i - 1;
                    assert(Some(old_run[j + 1].rank) == crate::cards::rank::rank_down(old_run[j].rank));
                }
            }
            assert(suited_run(run));
        }
        len = len + 1;
    }
    len
}

/// Shuffle `order` by Fisher-Yates with `rng`.
fn shuffle_order(order: &mut Vec<u8>, rng: &mut StdRng)
    ensures
        final(order)@.len() == old(order)@.len(),
        final(order)@.to_multiset() == old(order)@.to_multiset(),
{
    let n = order.len();
    if n < 2 {
        return;
    }
    let mut i: usize = n - 1;
    let ghost orig = order@;
    while i >= 1
        invariant
            n == order@.len(),
            n >= 2,
            i < n,
            order@.to_multiset() == orig.to_multiset(),
        decreases i,
    {
        let j = gen_range_inclusive_usize(rng, 0, i);
        let a = order[i];
        let b = order[j];
        let ghost before = order@;
        order.set(i, b);
        let ghost mid = order@;
        order.set(j, a);
        proof {
            broadcast use vstd::multiset::group_multiset_axioms;

            vstd::seq_lib::to_multiset_update(before, i as int, b);
            vstd::seq_lib::to_multiset_update(mid, j as int, a);
            assert(before[i as int] == a);
            vstd::seq_lib::to_multiset_contains(before, a);
            assert(before.contains(a));
            assert(mid[j as int] == b);
            assert(order@.to_multiset() =~= before.to_multiset());
        }
        i = i - 1;
    }
}

/// Move the cards of pile `from` from `at` up onto pile `to`, keeping
/// their order and faces.
fn transfer(state: &mut PileSet, from: u8, at: usize, to: u8)
    requires
        from < old(state)@.len(),
        to < old(state)@.len(),
        from != to,
        at <= old(state)@[from as int].len(),
    ensures
        final(state)@ == old(state)@.update(from as int, old(state)@[from as int].subrange(0, at as int))
            .update(to as int, old(state)@[to as int] + old(state)@[from as int].subrange(at as int, old(state)@[from as int].len() as int)),
        board_cards(final(state)@) == board_cards(old(state)@),
{
    proof {
        lemma_transfer_keeps_cards(state@, from as int, at as int, to as int);
    }
    let moved = state.split_off(from, at);
    state.extend(to, moved);
}

/// Move the top card of pile `from` onto pile `to`, turned face-down when
/// `face_down`.
fn move_top(state: &mut PileSet, from: u8, to: u8, face_down: bool)
    requires
        from < old(state)@.len(),
        to < old(state)@.len(),
        from != to,
        old(state)@[from as int].len() > 0,
    ensures
        final(state)@.len() == old(state)@.len(),
        board_cards(final(state)@) == board_cards(old(state)@),
        final(state)@[from as int] == old(state)@[from as int].drop_last(),
        final(state)@[to as int] == old(state)@[to as int].push(
            if face_down { with_face(old(state)@[from as int].last(), false) } else { old(state)@[from as int].last() }),
        forall|k: int| 0 <= k < old(state)@.len() && k != from && k != to ==> #[trigger] final(state)@[k] == old(state)@[k],
{
    let ghost p = state@;
    let n = state.pile_len(from);
    proof {
        lemma_transfer_keeps_cards(p, from as int, n - 1, to as int);
        assert(p[from as int].subrange(0, n - 1) =~= p[from as int].drop_last());
        assert(p[from as int].subrange(n - 1, n as int) =~= seq![p[from as int].last()]);
    }
    let mut card = state.pop_card(from).unwrap();
    if face_down {
        card.face_up = false;
    }
    state.push_card(to, card);
    proof {
        let p1 = p.update(from as int, p[from as int].drop_last());
        let q = p1.update(to as int, p[to as int] + seq![p[from as int].last()]);
        assert(p[to as int] + seq![p[from as int].last()] =~= p[to as int].push(p[from as int].last()));
        if face_down {
            let x = p[to as int].push(card);
            assert(state@ =~= q.update(to as int, x));
            lemma_refacing_keeps_cards(q, to as int, x);
        } else {
            assert(state@ =~= q);
        }
    }
}

/// Phase one: each foundation's run onto a random column, foundations in
/// random order.
fn phase1_dump_foundations(state: &mut PileSet, rng: &mut StdRng)
    requires
        old(state)@.len() == 19,
        forall|k: int| 0 <= k < old(state)@[STOCK as int].len() ==> !(#[trigger] old(state)@[STOCK as int][k]).face_up,
    ensures
        final(state)@.len() == 19,
        board_cards(final(state)@) == board_cards(old(state)@),
        forall|f: int| FOUND_FIRST <= f <= FOUND_LAST ==> (#[trigger] final(state)@[f]).len() == 0,
        final(state)@[STOCK as int] == old(state)@[STOCK as int],
{
    let mut order: Vec<u8> = Vec::new();
    let mut f: u8 = FOUND_FIRST;
    while f <= FOUND_LAST
        invariant
            f <= FOUND_LAST + 1,
            order@ == Seq::new(f as nat, |k: int| k as u8),
        decreases FOUND_LAST + 1 - f,
    {
        order.push(f);
        assert(order@ =~= Seq::new((f + 1) as nat, |k: int| k as u8));
        f = f + 1;
    }
    let ghost all = order@;
    shuffle_order(&mut order, rng);
    let ghost start = state@;
    let n = order.len();
    proof {
        assert forall|k: int| 0 <= k < 8 implies (#[trigger] order@[k]) < 8 by {
            vstd::seq_lib::to_multiset_contains(order@, order@[k]);
            vstd::seq_lib::to_multiset_contains(all, order@[k]);
            assert(order@.contains(order@[k]));
            let j = choose|j: int| 0 <= j < all.len() && all[j] == order@[k];
        }
    }
    let mut i: usize = 0;
    while i < n
        invariant
            n == order@.len(),
            n == 8,
            order@.to_multiset() == all.to_multiset(),
            all == Seq::new(8, |k: int| k as u8),
            i <= n,
            state@.len() == 19,
            board_cards(state@) == board_cards(start),
            state@[STOCK as int] == start[STOCK as int],
            forall|k: int| 0 <= k < i ==> (#[trigger] state@[order@[k] as int]).len() == 0,
            forall|k: int| 0 <= k < 8 ==> (#[trigger] order@[k]) < 8,
        decreases n - i,
    {
        let fid = order[i];
        let dst = CASCADE_FIRST + gen_range_u8(rng, 0, N_CASCADES as u8);
        transfer(state, fid, 0, dst);
        i = i + 1;
    }
    proof {
        assert forall|f: int| FOUND_FIRST <= f <= FOUND_LAST implies (#[trigger] state@[f]).len() == 0 by {
            vstd::seq_lib::to_multiset_contains(all, f as u8);
            vstd::seq_lib::to_multiset_contains(order@, f as u8);
            assert(all[f] == f as u8);
            assert(all.contains(f as u8));
            let k = choose|k: int| 0 <= k < order@.len() && order@[k] == f as u8;
            assert(state@[order@[k] as int].len() == 0);
        }
    }
}


/// The foundations are empty and the stock face-down.
pub open spec fn walk_ok(p: Seq<Seq<Card>>) -> bool {
    &&& p.len() == 19
    &&& forall|f: int| FOUND_FIRST <= f <= FOUND_LAST ==> (#[trigger] p[f]).len() == 0
    &&& forall|k: int| 0 <= k < p[STOCK as int].len() ==> !(#[trigger] p[STOCK as int][k]).face_up
}

/// The board after moving the cards of pile `from` from `at` up onto
/// pile `to`, keeping their order and faces.
pub open spec fn moved_onto(p: Seq<Seq<Card>>, from: int, at: int, to: int) -> Seq<Seq<Card>> {
    p.update(from, p[from].subrange(0, at)).update(to, p[to] + p[from].subrange(at, p[from].len() as int))
}

/// A mixing move: one to four top cards of column `src` (a suited face-up
/// run when more than one), from `at` up, onto another column `dst`
/// whose top is one rank above the lowest moved card.
pub open spec fn mix_move_ok(p: Seq<Seq<Card>>, src: int, at: int, dst: int) -> bool {
    &&& is_cascade_spec(src)
    &&& is_cascade_spec(dst)
    &&& src != dst
    &&& 0 <= at < p[src].len()
    &&& p[src].len() - at <= 4
    &&& (p[src].len() - at == 1 || suited_run(p[src].subrange(at, p[src].len() as int)))
    &&& top_of(p[dst]) matches Some(top) && rank_up(p[src][at].rank) == Some(top.rank)
}

/// The board after the mixing moves `steps` (column, start, destination).
pub open spec fn mix_apply(p: Seq<Seq<Card>>, steps: Seq<(int, int, int)>) -> Seq<Seq<Card>>
    decreases steps.len(),
{
    if steps.len() == 0 {
        p
    } else {
        let q = mix_apply(p, steps.drop_last());
        moved_onto(q, steps.last().0, steps.last().1, steps.last().2)
    }
}

/// Each of `steps`, made in turn from `p`, is a mixing move.
pub open spec fn mix_walk_ok(p: Seq<Seq<Card>>, steps: Seq<(int, int, int)>) -> bool
    decreases steps.len(),
{
    if steps.len() == 0 {
        true
    } else {
        &&& mix_walk_ok(p, steps.drop_last())
        &&& mix_move_ok(mix_apply(p, steps.drop_last()), steps.last().0, steps.last().1, steps.last().2)
    }
}

/// Phase two: two hundred random moves of up to four suited top cards
/// onto a column whose top is one rank higher.
fn phase2_mix_cascades(state: &mut PileSet, rng: &mut StdRng)
    requires
        walk_ok(old(state)@),
    ensures
        walk_ok(final(state)@),
        board_cards(final(state)@) == board_cards(old(state)@),
        final(state)@[STOCK as int] == old(state)@[STOCK as int],
        exists|steps: Seq<(int, int, int)>| {
            &&& steps.len() <= 200
            &&& mix_walk_ok(old(state)@, steps)
            &&& final(state)@ == #[trigger] mix_apply(old(state)@, steps)
        },
{
    let ghost start = state@;
    let ghost mut steps: Seq<(int, int, int)> = Seq::empty();
    let mut iter: u32 = 0;
    while iter < 200
        invariant
            walk_ok(state@),
            board_cards(state@) == board_cards(start),
            state@[STOCK as int] == start[STOCK as int],
            steps.len() <= iter,
            iter <= 200,
            mix_walk_ok(start, steps),
            state@ == mix_apply(start, steps),
        decreases 200 - iter,
    {
        iter = iter + 1;
        let src = CASCADE_FIRST + gen_range_u8(rng, 0, N_CASCADES as u8);
        let src_len = state.pile_len(src);
        if src_len == 0 {
            continue;
        }
        let suited_len = suited_run_length_at_top(state.get(src).cards.as_slice());
        let cap = if suited_len < 4 {
            suited_len
        } else {
            4
        };
        let take = gen_range_inclusive_usize(rng, 1, cap);
        let head_idx = src_len - take;
        let head_rank = state.card_at(src, head_idx).rank;
        let mut candidates: Vec<u8> = Vec::new();
        let mut dst: u8 = CASCADE_FIRST;
        while dst <= CASCADE_LAST
            invariant
                state@.len() == 19,
                CASCADE_FIRST <= src <= CASCADE_LAST,
                CASCADE_FIRST <= dst <= CASCADE_LAST + 1,
                forall|k: int| 0 <= k < candidates@.len() ==> CASCADE_FIRST <= #[trigger] candidates@[k] <= CASCADE_LAST
                    && candidates@[k] != src,
                forall|k: int| 0 <= k < candidates@.len() ==> (top_of(state@[#[trigger] candidates@[k] as int]) matches Some(top)
                    && rank_up(head_rank) == Some(top.rank)),
            decreases CASCADE_LAST + 1 - dst,
        {
            if dst != src {
                match state.top_card(dst) {
                    Some(top) => {
                        if crate::cards::rank::opt_rank_is(head_rank.next_up(), top.rank) {
                            candidates.push(dst);
                        }
                    },
                    None => {},
                }
            }
            dst = dst + 1;
        }
        if candidates.len() == 0 {
            continue;
        }
        let pick = gen_range_usize(rng, 0, candidates.len());
        let dst = candidates[pick];
        let ghost before = state@;
        proof {
            assert(top_of(state@[candidates@[pick as int] as int]) matches Some(top) && rank_up(head_rank) == Some(top.rank));
            assert(head_rank == state@[src as int][head_idx as int].rank);
            let at = (src_len - take) as int;
            let f = before[src as int];
            assert(f.subrange(at, f.len() as int)[0] == f[at]);
            if take >= 2 {
                let run = f.subrange(f.len() - suited_len, f.len() as int);
                let part = f.subrange(at, f.len() as int);
                assert forall|i: int| 0 <= i < part.len() implies #[trigger] part[i] == run[i + (suited_len - take)] by {}
                assert(part[0] == run[suited_len - take]);
                assert forall|i: int| 0 <= i < part.len() implies (#[trigger] part[i]).face_up by {
                    assert(part[i] == run[i + (suited_len - take)]);
                }
                assert forall|i: int| 0 <= i < part.len() implies (#[trigger] part[i]).suit == part[0].suit by {
                    assert(part[i] == run[i + (suited_len - take)]);
                    assert(run[i + (suited_len - take)].suit == run[0].suit);
                    assert(run[suited_len - take].suit == run[0].suit);
                }
                assert forall|i: int| 0 <= i < part.len() - 1 implies Some((#[trigger] part[i + 1]).rank) == crate::cards::rank::rank_down(part[i].rank) by {
                    let j = i + (suited_len - take);
                    assert(part[i] == run[j]);
                    assert(part[i + 1] == run[j + 1]);
                }
                assert(suited_run(part));
            }
            assert(mix_move_ok(before, src as int, at, dst as int));
        }
        transfer(state, src, src_len - take, dst);
        proof {
            let x = (src as int, (src_len - take) as int, dst as int);
            let ns = steps.push(x);
            assert(ns.drop_last() =~= steps);
            assert(ns.last() == x);
            steps = ns;
        }
    }
    assert(steps.len() <= 200 && mix_walk_ok(start, steps) && state@ == mix_apply(start, steps));
}

/// The column with the most cards, the last one among equals.
fn fullest_cascade(state: &PileSet) -> (d: u8)
    requires
        state@.len() == 19,
    ensures
        CASCADE_FIRST <= d <= CASCADE_LAST,
        forall|c: int| CASCADE_FIRST <= c <= CASCADE_LAST ==> (#[trigger] state@[c]).len() <= state@[d as int].len(),
{
    let mut best: u8 = CASCADE_FIRST;
    let mut c: u8 = CASCADE_FIRST + 1;
    while c <= CASCADE_LAST
        invariant
            state@.len() == 19,
            CASCADE_FIRST <= best < c <= CASCADE_LAST + 1,
            forall|k: int| CASCADE_FIRST <= k < c ==> (#[trigger] state@[k]).len() <= state@[best as int].len(),
        decreases CASCADE_LAST + 1 - c,
    {
        if state.pile_len(c) >= state.pile_len(best) {
            best = c;
        }
        c = c + 1;
    }
    best
}

/// The column ids in a random order: each exactly once.
fn shuffled_cascades(rng: &mut StdRng) -> (order: Vec<u8>)
    ensures
        order@.len() == 10,
        order@.no_duplicates(),
        forall|k: int| 0 <= k < 10 ==> CASCADE_FIRST <= #[trigger] order@[k] <= CASCADE_LAST,
        forall|c: u8| CASCADE_FIRST <= c <= CASCADE_LAST ==> order@.contains(c),
{
    let mut order: Vec<u8> = Vec::new();
    let mut c: u8 = CASCADE_FIRST;
    while c <= CASCADE_LAST
        invariant
            CASCADE_FIRST <= c <= CASCADE_LAST + 1,
            order@.len() == c - CASCADE_FIRST,
            forall|k: int| 0 <= k < order@.len() ==> #[trigger] order@[k] == CASCADE_FIRST + k,
        decreases CASCADE_LAST + 1 - c,
    {
        order.push(c);
        c = c + 1;
    }
    let ghost before = order@;
    proof {
        assert(before.no_duplicates());
        before.lemma_multiset_has_no_duplicates();
    }
    shuffle_order(&mut order, rng);
    proof {
        assert forall|x: u8| order@.to_multiset().contains(x) implies order@.to_multiset().count(x) == 1 by {
        }
        order@.lemma_multiset_has_no_duplicates_conv();
        assert forall|k: int| 0 <= k < 10 implies CASCADE_FIRST <= #[trigger] order@[k] <= CASCADE_LAST by {
            vstd::seq_lib::to_multiset_contains(order@, order@[k]);
            vstd::seq_lib::to_multiset_contains(before, order@[k]);
            assert(order@.contains(order@[k]));
            let j = choose|j: int| 0 <= j < before.len() && before[j] == order@[k];
        }
        assert forall|c: u8| CASCADE_FIRST <= c <= CASCADE_LAST implies order@.contains(c) by {
            assert(before[c - CASCADE_FIRST] == c);
            assert(before.contains(c));
            vstd::seq_lib::to_multiset_contains(order@, c);
            vstd::seq_lib::to_multiset_contains(before, c);
        }
    }
    order
}

/// Sum of the pile lengths over `lo..hi`.
pub open spec fn lens_sum(p: Seq<Seq<Card>>, lo: int, hi: int) -> int
    decreases hi - lo,
{
    if hi <= lo {
        0
    } else {
        lens_sum(p, lo, hi - 1) + p[hi - 1].len()
    }
}

/// Cards column `c` holds before the five rows go to the stock.
pub open spec fn quota(c: int) -> int {
    target_cascade_size_spec(c - CASCADE_FIRST) + 5
}

/// Sum of the quotas over columns `lo..hi`.
pub open spec fn quota_sum(lo: int, hi: int) -> int
    decreases hi - lo,
{
    if hi <= lo {
        0
    } else {
        quota_sum(lo, hi - 1) + quota(hi - 1)
    }
}

proof fn lemma_cards_len(p: Seq<Seq<Card>>, n: int)
    requires
        0 <= n <= p.len(),
    ensures
        cards_upto(p, n).len() == lens_sum(p, 0, n),
    decreases n,
{
    broadcast use vstd::multiset::group_multiset_axioms;

    if n > 0 {
        lemma_cards_len(p, n - 1);
        let f = |c: Card| with_face(c, true);
        vstd::seq_lib::to_multiset_len(p[n - 1].map_values(f));
    }
}

proof fn lemma_solved_len(suits: Seq<Suit>, n: int)
    requires
        suits.len() == 8,
        0 <= n <= 19,
    ensures
        lens_sum(solved_board(suits), 0, n) == 13 * (if n < 8 { n } else { 8 }),
    decreases n,
{
    if n > 0 {
        lemma_solved_len(suits, n - 1);
    }
}

proof fn lemma_quota_sum(n: int)
    requires
        CASCADE_FIRST <= n <= CASCADE_LAST + 1,
    ensures
        quota_sum(CASCADE_FIRST as int, n) == 11 * (if n - 9 < 4 { n - 9 } else { 4 }) + 10 * (if n - 9 < 4 { 0 } else { n - 13 }),
    decreases n,
{
    if n > CASCADE_FIRST {
        lemma_quota_sum(n - 1);
    }
}

/// Changing two piles `i`, `j` in `lo..hi` without changing their
/// combined length keeps the sum.
proof fn lemma_lens_sum_two(p: Seq<Seq<Card>>, q: Seq<Seq<Card>>, lo: int, hi: int, i: int, j: int)
    requires
        lo <= hi,
        hi <= p.len(),
        hi <= q.len(),
        forall|k: int| lo <= k < hi && k != i && k != j ==> #[trigger] q[k].len() == p[k].len(),
    ensures
        lens_sum(q, lo, hi) - lens_sum(p, lo, hi) == (if lo <= i < hi { q[i].len() - p[i].len() } else { 0int })
            + (if lo <= j < hi && j != i { q[j].len() - p[j].len() } else { 0int }),
    decreases hi - lo,
{
    if hi > lo {
        lemma_lens_sum_two(p, q, lo, hi - 1, i, j);
    }
}

/// Empty piles sum to nothing.
proof fn lemma_lens_sum_zero(p: Seq<Seq<Card>>, lo: int, hi: int)
    requires
        forall|k: int| lo <= k < hi ==> (#[trigger] p[k]).len() == 0,
    ensures
        lens_sum(p, lo, hi) == 0,
    decreases hi - lo,
{
    if hi > lo {
        lemma_lens_sum_zero(p, lo, hi - 1);
    }
}

/// Splitting a sum of lengths.
proof fn lemma_lens_sum_split(p: Seq<Seq<Card>>, lo: int, mid: int, hi: int)
    requires
        lo <= mid <= hi,
    ensures
        lens_sum(p, lo, hi) == lens_sum(p, lo, mid) + lens_sum(p, mid, hi),
    decreases hi - mid,
{
    if hi > mid {
        lemma_lens_sum_split(p, lo, mid, hi - 1);
    }
}

/// With every column of `lo..hi` at most at its quota, the lengths sum to
/// at most the quotas, strictly less when one column is short.
proof fn lemma_under_quota(p: Seq<Seq<Card>>, lo: int, hi: int, short: int)
    requires
        lo <= hi,
        hi <= p.len(),
        forall|k: int| lo <= k < hi ==> (#[trigger] p[k]).len() <= quota(k),
    ensures
        lens_sum(p, lo, hi) <= quota_sum(lo, hi),
        lo <= short < hi && p[short].len() < quota(short) ==> lens_sum(p, lo, hi) < quota_sum(lo, hi),
    decreases hi - lo,
{
    if hi > lo {
        lemma_under_quota(p, lo, hi - 1, short);
        assert(p[hi - 1].len() <= quota(hi - 1));
    }
}

/// With every column of `lo..hi` at least at its quota and the sums
/// equal, every column is exactly at its quota.
proof fn lemma_at_quota(p: Seq<Seq<Card>>, lo: int, hi: int)
    requires
        lo <= hi,
        hi <= p.len(),
        forall|k: int| lo <= k < hi ==> (#[trigger] p[k]).len() >= quota(k),
        lens_sum(p, lo, hi) == quota_sum(lo, hi),
    ensures
        forall|k: int| lo <= k < hi ==> (#[trigger] p[k]).len() == quota(k),
    decreases hi - lo,
{
    if hi > lo {
        lemma_over_quota_sum(p, lo, hi - 1);
        assert(p[hi - 1].len() >= quota(hi - 1));
        lemma_at_quota(p, lo, hi - 1);
    }
}

proof fn lemma_over_quota_sum(p: Seq<Seq<Card>>, lo: int, hi: int)
    requires
        lo <= hi,
        hi <= p.len(),
        forall|k: int| lo <= k < hi ==> (#[trigger] p[k]).len() >= quota(k),
    ensures
        lens_sum(p, lo, hi) >= quota_sum(lo, hi),
    decreases hi - lo,
{
    if hi > lo {
        lemma_over_quota_sum(p, lo, hi - 1);
        assert(p[hi - 1].len() >= quota(hi - 1));
    }
}

/// A column over its quota, when the columns hold exactly the quotas in
/// total and column `short` is under its own.
fn find_over_quota(state: &PileSet, Ghost(short): Ghost<int>) -> (d: u8)
    requires
        state@.len() == 19,
        lens_sum(state@, CASCADE_FIRST as int, CASCADE_LAST + 1) == quota_sum(CASCADE_FIRST as int, CASCADE_LAST + 1),
        CASCADE_FIRST <= short <= CASCADE_LAST,
        state@[short].len() < quota(short),
    ensures
        CASCADE_FIRST <= d <= CASCADE_LAST,
        state@[d as int].len() > quota(d as int),
{
    let mut d: u8 = CASCADE_FIRST;
    while d <= CASCADE_LAST
        invariant
            state@.len() == 19,
            lens_sum(state@, CASCADE_FIRST as int, CASCADE_LAST + 1) == quota_sum(CASCADE_FIRST as int, CASCADE_LAST + 1),
            CASCADE_FIRST <= short <= CASCADE_LAST,
            state@[short].len() < quota(short),
            CASCADE_FIRST <= d <= CASCADE_LAST + 1,
            forall|k: int| CASCADE_FIRST <= k < d ==> (#[trigger] state@[k]).len() <= quota(k),
        decreases CASCADE_LAST + 1 - d,
    {
        let q = target_cascade_size((d - CASCADE_FIRST) as usize) + 5;
        if state.pile_len(d) > q {
            return d;
        }
        d = d + 1;
    }
    proof {
        lemma_under_quota(state@, CASCADE_FIRST as int, CASCADE_LAST + 1, short);
    }
    CASCADE_FIRST
}

/// Even out the columns: fill each column up to its opening length plus
/// the five rows the stock will take, moving top cards from columns over
/// their share.
fn phase_even_out(state: &mut PileSet)
    requires
        walk_ok(old(state)@),
        lens_sum(old(state)@, CASCADE_FIRST as int, CASCADE_LAST + 1) == quota_sum(CASCADE_FIRST as int, CASCADE_LAST + 1),
    ensures
        walk_ok(final(state)@),
        board_cards(final(state)@) == board_cards(old(state)@),
        final(state)@[STOCK as int] == old(state)@[STOCK as int],
        forall|c: int| CASCADE_FIRST <= c <= CASCADE_LAST ==> (#[trigger] final(state)@[c]).len() == quota(c),
{
    let ghost start = state@;
    let mut c: u8 = CASCADE_FIRST;
    while c <= CASCADE_LAST
        invariant
            walk_ok(state@),
            board_cards(state@) == board_cards(start),
            state@[STOCK as int] == start[STOCK as int],
            lens_sum(state@, CASCADE_FIRST as int, CASCADE_LAST + 1) == quota_sum(CASCADE_FIRST as int, CASCADE_LAST + 1),
            CASCADE_FIRST <= c <= CASCADE_LAST + 1,
            forall|k: int| CASCADE_FIRST <= k < c ==> (#[trigger] state@[k]).len() >= quota(k),
        decreases CASCADE_LAST + 1 - c,
    {
        let q = target_cascade_size((c - CASCADE_FIRST) as usize) + 5;
        while state.pile_len(c) < q
            invariant
                walk_ok(state@),
                board_cards(state@) == board_cards(start),
                state@[STOCK as int] == start[STOCK as int],
                lens_sum(state@, CASCADE_FIRST as int, CASCADE_LAST + 1) == quota_sum(CASCADE_FIRST as int, CASCADE_LAST + 1),
                CASCADE_FIRST <= c <= CASCADE_LAST,
                q == quota(c as int),
                forall|k: int| CASCADE_FIRST <= k < c ==> (#[trigger] state@[k]).len() >= quota(k),
            decreases q - state@[c as int].len(),
        {
            let donor = find_over_quota(state, Ghost(c as int));
            let ghost before = state@;
            move_top(state, donor, c, false);
            proof {
                lemma_lens_sum_two(before, state@, CASCADE_FIRST as int, CASCADE_LAST + 1, donor as int, c as int);
            }
        }
        c = c + 1;
    }
    proof {
        lemma_at_quota(state@, CASCADE_FIRST as int, CASCADE_LAST + 1);
    }
}

/// Phase three: five times, refill any empty column from the fullest one
/// (when it has two cards to spare one), then lift one card off every
/// column, in random order, into the stock face-down. From evened-out
/// columns this leaves each at its opening length and fifty cards more in
/// the stock.
fn phase3_fill_stock(state: &mut PileSet, rng: &mut StdRng)
    requires
        walk_ok(old(state)@),
        forall|c: int| CASCADE_FIRST <= c <= CASCADE_LAST ==> (#[trigger] old(state)@[c]).len() == quota(c),
    ensures
        walk_ok(final(state)@),
        board_cards(final(state)@) == board_cards(old(state)@),
        final(state)@[STOCK as int].len() == old(state)@[STOCK as int].len() + 50,
        forall|c: int| CASCADE_FIRST <= c <= CASCADE_LAST ==> (#[trigger] final(state)@[c]).len() == target_cascade_size_spec(c - CASCADE_FIRST),
{
    let ghost start = state@;
    let rows_needed = TARGET_STOCK / N_CASCADES;
    let mut row: usize = 0;
    while row < rows_needed
        invariant
            rows_needed == 5,
            row <= 5,
            walk_ok(state@),
            board_cards(state@) == board_cards(start),
            state@[STOCK as int].len() == start[STOCK as int].len() + 10 * row,
            forall|c: int| CASCADE_FIRST <= c <= CASCADE_LAST ==> (#[trigger] state@[c]).len() == quota(c) - row,
        decreases rows_needed - row,
    {
        let mut c: u8 = CASCADE_FIRST;
        while c <= CASCADE_LAST
            invariant
                row < 5,
                walk_ok(state@),
                board_cards(state@) == board_cards(start),
                state@[STOCK as int].len() == start[STOCK as int].len() + 10 * row,
                forall|c2: int| CASCADE_FIRST <= c2 <= CASCADE_LAST ==> (#[trigger] state@[c2]).len() == quota(c2) - row,
                CASCADE_FIRST <= c <= CASCADE_LAST + 1,
            decreases CASCADE_LAST + 1 - c,
        {
            if state.pile_len(c) == 0 {
                let donor = fullest_cascade(state);
                if state.pile_len(donor) >= 2 {
                    move_top(state, donor, c, false);
                }
            }
            c = c + 1;
        }
        let order = shuffled_cascades(rng);
        let ghost base = state@;
        let mut i: usize = 0;
        while i < 10
            invariant
                row < 5,
                order@.len() == 10,
                order@.no_duplicates(),
                forall|k: int| 0 <= k < 10 ==> CASCADE_FIRST <= #[trigger] order@[k] <= CASCADE_LAST,
                walk_ok(state@),
                board_cards(state@) == board_cards(start),
                base.len() == 19,
                forall|c2: int| CASCADE_FIRST <= c2 <= CASCADE_LAST ==> (#[trigger] base[c2]).len() == quota(c2) - row,
                state@[STOCK as int].len() == start[STOCK as int].len() + 10 * row + i,
                forall|c2: int| CASCADE_FIRST <= c2 <= CASCADE_LAST ==> (#[trigger] state@[c2]).len()
                    == base[c2].len() - (if order@.subrange(0, i as int).contains(c2 as u8) { 1int } else { 0int }),
                i <= 10,
            decreases 10 - i,
        {
            let cid = order[i];
            proof {
                let sub = order@.subrange(0, i as int);
                if sub.contains(cid) {
                    let k = choose|k: int| 0 <= k < sub.len() && #[trigger] sub[k] == cid;
                    assert(order@[k] == order@[i as int]);
                }
                assert(state@[cid as int].len() == base[cid as int].len());
            }
            let ghost before = state@;
            move_top(state, cid, STOCK, true);
            proof {
                assert forall|k: int| 0 <= k < state@[STOCK as int].len() implies !(#[trigger] state@[STOCK as int][k]).face_up by {
                    if k < before[STOCK as int].len() {
                        assert(state@[STOCK as int][k] == before[STOCK as int][k]);
                    }
                }
                assert forall|c2: int| CASCADE_FIRST <= c2 <= CASCADE_LAST implies (#[trigger] state@[c2]).len()
                    == base[c2].len() - (if order@.subrange(0, i + 1).contains(c2 as u8) { 1int } else { 0int }) by {
                    assert(order@.subrange(0, i + 1) =~= order@.subrange(0, i as int).push(cid));
                    if c2 != cid {
                        assert(state@[c2] == before[c2]);
                        let sub = order@.subrange(0, i + 1);
                        if sub.contains(c2 as u8) {
                            let k = choose|k: int| 0 <= k < sub.len() && #[trigger] sub[k] == c2 as u8;
                            assert(order@.subrange(0, i as int)[k] == c2 as u8);
                        }
                    } else {
                        assert(order@.subrange(0, i + 1)[i as int] == cid);
                    }
                }
            }
            i = i + 1;
        }
        proof {
            assert(order@.subrange(0, 10) =~= order@);
            assert forall|c2: int| CASCADE_FIRST <= c2 <= CASCADE_LAST implies (#[trigger] state@[c2]).len() == quota(c2) - (row + 1) by {
                assert(order@.contains(c2 as u8)) by {
                    assert(CASCADE_FIRST <= c2 as u8 <= CASCADE_LAST);
                }
            }
        }
        row = row + 1;
    }
}

/// Every column at most at its opening length.
pub open spec fn within_targets(p: Seq<Seq<Card>>) -> bool {
    forall|c: int| CASCADE_FIRST <= c <= CASCADE_LAST ==> (#[trigger] p[c]).len() <= target_cascade_size_spec(c - CASCADE_FIRST)
}

/// Phase four: trim each column to its opening length, lifting extra top
/// cards into the stock face-down.
fn phase4_trim_cascades(state: &mut PileSet)
    requires
        walk_ok(old(state)@),
    ensures
        walk_ok(final(state)@),
        board_cards(final(state)@) == board_cards(old(state)@),
        forall|c: int| CASCADE_FIRST <= c <= CASCADE_LAST ==> (#[trigger] final(state)@[c]).len() <= target_cascade_size_spec(c - CASCADE_FIRST),
        within_targets(old(state)@) ==> final(state)@ == old(state)@,
{
    let ghost start = state@;
    let mut cid: u8 = CASCADE_FIRST;
    while cid <= CASCADE_LAST
        invariant
            walk_ok(state@),
            board_cards(state@) == board_cards(start),
            CASCADE_FIRST <= cid <= CASCADE_LAST + 1,
            forall|c: int| CASCADE_FIRST <= c < cid ==> (#[trigger] state@[c]).len() <= target_cascade_size_spec(c - CASCADE_FIRST),
            within_targets(start) ==> state@ == start,
        decreases CASCADE_LAST + 1 - cid,
    {
        let target = target_cascade_size((cid - CASCADE_FIRST) as usize);
        while state.pile_len(cid) > target
            invariant
                walk_ok(state@),
                board_cards(state@) == board_cards(start),
                CASCADE_FIRST <= cid <= CASCADE_LAST,
                target == target_cascade_size_spec(cid - CASCADE_FIRST),
                forall|c: int| CASCADE_FIRST <= c < cid ==> (#[trigger] state@[c]).len() <= target_cascade_size_spec(c - CASCADE_FIRST),
                within_targets(start) ==> state@ == start,
            decreases state@[cid as int].len(),
        {
            let ghost before = state@;
            move_top(state, cid, STOCK, true);
            proof {
                assert forall|k: int| 0 <= k < state@[STOCK as int].len() implies !(#[trigger] state@[STOCK as int][k]).face_up by {
                    if k < before[STOCK as int].len() {
                        assert(state@[STOCK as int][k] == before[STOCK as int][k]);
                    }
                }
            }
        }
        cid = cid + 1;
    }
}

/// Phase five: every column face-down but its top card.
fn phase5_face_down_below_top(state: &mut PileSet)
    requires
        walk_ok(old(state)@),
        forall|c: int| CASCADE_FIRST <= c <= CASCADE_LAST ==> (#[trigger] old(state)@[c]).len() <= target_cascade_size_spec(c - CASCADE_FIRST),
    ensures
        walk_ok(final(state)@),
        board_cards(final(state)@) == board_cards(old(state)@),
        final(state)@[STOCK as int] == old(state)@[STOCK as int],
        forall|i: int| 0 <= i < 19 ==> (#[trigger] final(state)@[i]).len() == old(state)@[i].len(),
        forall|c: int, k: int| CASCADE_FIRST <= c <= CASCADE_LAST && 0 <= k < final(state)@[c].len() ==>
            (#[trigger] final(state)@[c][k]).face_up == (k == final(state)@[c].len() - 1),
{
    let ghost start = state@;
    let mut cid: u8 = CASCADE_FIRST;
    while cid <= CASCADE_LAST
        invariant
            walk_ok(state@),
            board_cards(state@) == board_cards(start),
            state@[STOCK as int] == start[STOCK as int],
            forall|i: int| 0 <= i < 19 ==> (#[trigger] state@[i]).len() == start[i].len(),
            CASCADE_FIRST <= cid <= CASCADE_LAST + 1,
            forall|c: int| CASCADE_FIRST <= c <= CASCADE_LAST ==> (#[trigger] state@[c]).len() <= target_cascade_size_spec(c - CASCADE_FIRST),
            forall|c: int, k: int| CASCADE_FIRST <= c < cid && 0 <= k < state@[c].len() ==>
                (#[trigger] state@[c][k]).face_up == (k == state@[c].len() - 1),
        decreases CASCADE_LAST + 1 - cid,
    {
        let n = state.pile_len(cid);
        if n > 0 {
            let ghost p0 = state@;
            state.set_faces_from(cid, 0, false);
            proof {
                let x = crate::piles::set::set_faces_from_spec(p0[cid as int], 0, false);
                lemma_refacing_keeps_cards(p0, cid as int, x);
            }
            let ghost p1 = state@;
            state.set_top_face(cid, true);
            proof {
                let x = p1[cid as int].update(n - 1, with_face(p1[cid as int].last(), true));
                assert(state@ == p1.update(cid as int, x));
                lemma_refacing_keeps_cards(p1, cid as int, x);
            }
        }
        cid = cid + 1;
    }
}

/// A Spider opening for `seed`, walked backwards from the solved board of
/// `suit_count` suits (`one_suit` picks the suit of 1-suit games and the
/// first of 2-suit ones).
pub fn generate_winnable_deal(seed: u64, suit_count: u8, one_suit: Suit) -> (piles: PileSet)
    requires
        suit_count == 1 || suit_count == 2 || suit_count == 4,
    ensures
        opening_shape(piles@),
        board_cards(piles@) == board_cards(solved_board(active_suits_spec(suit_count, one_suit))),
{
    let mut rng = rng_from_seed(seed);
    let suits = active_suits(suit_count, one_suit);
    let mut state = build_solved_state(&suits);
    proof {
        assert(state@[STOCK as int].len() == 0);
    }
    let ghost solved = state@;
    phase1_dump_foundations(&mut state, &mut rng);
    phase2_mix_cascades(&mut state, &mut rng);
    proof {
        assert(state@[STOCK as int].len() == 0);
        lemma_cards_len(solved, 19);
        lemma_solved_len(suits@, 19);
        lemma_cards_len(state@, 19);
        assert(board_cards(state@).len() == board_cards(solved).len());
        lemma_lens_sum_split(state@, 0, 8, 19);
        lemma_lens_sum_split(state@, 8, 9, 19);
        lemma_lens_sum_zero(state@, 0, 8);
        lemma_quota_sum(CASCADE_LAST + 1);
        assert(lens_sum(state@, 0, 19) == 104);
        assert(lens_sum(state@, 8, 8) == 0);
        assert(lens_sum(state@, 8, 9) == 0);
        assert(lens_sum(state@, 0, 8) == 0);
    }
    phase_even_out(&mut state);
    phase3_fill_stock(&mut state, &mut rng);
    phase4_trim_cascades(&mut state);
    phase5_face_down_below_top(&mut state);
    state
}

} // verus!
