//! Spider: 8 foundations, 1 stock, 10 cascades over a 104-card deck of
//! 1, 2 or 4 suits.

use vstd::prelude::*;

use rand::rngs::StdRng;

use super::freecell::count_empty;
use super::klondike::{add_piles, all_face_up, all_face_up_from, screen_before, top_part};
use super::GameRules;
use crate::cards::card::{with_face, Card};
use crate::cards::deck::{copies_for, multi_deck, multi_deck_card};
use crate::cards::rank::{rank_down, Rank};
use crate::cards::suit::Suit;
use crate::piles::pile::top_of;
use crate::piles::{PileKind, PileLayout, PileMeta, PileSet};
use crate::rng::shuffle_cards;
use crate::session::moves::{apply_spec, can_apply, simple_spec, transform, Move};

verus! {

pub const FOUND_FIRST: u8 = 0;
pub const FOUND_LAST: u8 = 7;
pub const STOCK: u8 = 8;
pub const CASCADE_FIRST: u8 = 9;
pub const CASCADE_LAST: u8 = 18;
pub const N_CASCADES: usize = 10;

pub struct Spider {
    /// 1, 2 or 4 suits (any other count plays as 4).
    pub suit_count: u8,
    /// The suit used by 1-suit games.
    pub one_suit: Suit,
}

impl Spider {
    pub fn new(suit_count: u8) -> (s: Spider)
        ensures
            s.suit_count == suit_count,
            s.one_suit == Suit::Spades,
    {
        Spider { suit_count, one_suit: Suit::Spades }
    }

    pub fn one_suit() -> (s: Spider)
        ensures
            s.suit_count == 1,
            s.one_suit == Suit::Spades,
    {
        Spider::new(1)
    }

    pub fn one_suit_of(suit: Suit) -> (s: Spider)
        ensures
            s.suit_count == 1,
            s.one_suit == suit,
    {
        Spider { suit_count: 1, one_suit: suit }
    }

    pub fn two_suit() -> (s: Spider)
        ensures
            s.suit_count == 2,
            s.one_suit == Suit::Spades,
    {
        Spider::new(2)
    }

    pub fn four_suit() -> (s: Spider)
        ensures
            s.suit_count == 4,
            s.one_suit == Suit::Spades,
    {
        Spider::new(4)
    }

    /// The suits the deck is built from.
    pub fn suits(&self) -> (r: Vec<Suit>)
        ensures
            r@ == spider_game_suits(self),
    {
        if self.suit_count == 1 {
            vec![self.one_suit]
        } else if self.suit_count == 2 {
            vec![Suit::Spades, Suit::Hearts]
        } else {
            vec![Suit::Spades, Suit::Hearts, Suit::Diamonds, Suit::Clubs]
        }
    }
}

pub open spec fn spider_game_suits(s: &Spider) -> Seq<Suit> {
    if s.suit_count == 1 {
        seq![s.one_suit]
    } else if s.suit_count == 2 {
        seq![Suit::Spades, Suit::Hearts]
    } else {
        seq![Suit::Spades, Suit::Hearts, Suit::Diamonds, Suit::Clubs]
    }
}

pub open spec fn is_cascade_spec(id: int) -> bool {
    CASCADE_FIRST <= id <= CASCADE_LAST
}

pub open spec fn is_foundation_spec(id: int) -> bool {
    FOUND_FIRST <= id <= FOUND_LAST
}

/// `lower` continues a suited descending run below `higher`.
pub open spec fn suited_link(higher: Card, lower: Card) -> bool {
    higher.suit == lower.suit && Some(lower.rank) == rank_down(higher.rank)
}

/// A non-empty face-up run of one suit, descending by one rank.
pub open spec fn suited_run(s: Seq<Card>) -> bool {
    &&& s.len() >= 1
    &&& all_face_up(s)
    &&& forall|i: int| 0 <= i < s.len() ==> (#[trigger] s[i]).suit == s[0].suit
    &&& forall|i: int| 0 <= i < s.len() - 1 ==> Some((#[trigger] s[i + 1]).rank) == rank_down(s[i].rank)
}

/// Spider's legality rule.
pub open spec fn spider_legal(p: Seq<Seq<Card>>, m: Move) -> bool {
    let f = p[m.from as int];
    let take = m.take as int;
    if take == 0 || f.len() < take {
        false
    } else {
        let moved = top_part(f, take);
        if m.from == STOCK && is_cascade_spec(m.to as int) {
            take == 1 && m.flip_moved
        } else if is_cascade_spec(m.from as int) && is_foundation_spec(m.to as int) {
            &&& take == 13
            &&& p[m.to as int].len() == 0
            &&& suited_run(moved)
            &&& moved[0].rank == Rank::King
        } else if !all_face_up(moved) {
            false
        } else if is_cascade_spec(m.from as int) && is_cascade_spec(m.to as int) {
            &&& (take > 1 ==> suited_run(moved))
            &&& match top_of(p[m.to as int]) {
                None => true,
                Some(t) => Some(moved[0].rank) == rank_down(t.rank),
            }
        } else {
            false
        }
    }
}

pub open spec fn spider_won(p: Seq<Seq<Card>>) -> bool {
    forall|f: int| FOUND_FIRST <= f <= FOUND_LAST ==> (#[trigger] p[f]).len() == 13
}

/// The top 13 cards of `s` are a suited King-to-Ace run.
pub open spec fn complete_run_on_top(s: Seq<Card>) -> bool {
    &&& s.len() >= 13
    &&& suited_run(top_part(s, 13))
    &&& top_part(s, 13)[0].rank == Rank::King
    &&& top_part(s, 13)[12].rank == Rank::Ace
}

/// The first empty foundation at or after `f`.
pub open spec fn first_empty_foundation(p: Seq<Seq<Card>>, f: int) -> Option<int>
    decreases FOUND_LAST + 1 - f,
{
    if f > FOUND_LAST || f < 0 {
        None
    } else if p[f].len() == 0 {
        Some(f)
    } else {
        first_empty_foundation(p, f + 1)
    }
}

/// The collapse move of cascade `c` onto foundation `f`: 13 cards, turning
/// up the card underneath when it is face-down.
pub open spec fn collapse_move(p: Seq<Seq<Card>>, c: int, f: int) -> Move {
    let m = simple_spec(c as u8, 13, f as u8);
    let n = p[c].len();
    if n > 13 && !p[c][n - 14].face_up {
        Move { flip_source_after: true, ..m }
    } else {
        m
    }
}

/// The first complete run at or after cascade `c` and the first empty
/// foundation: the automatic collapse Spider performs after each move.
pub open spec fn spider_auto_from(p: Seq<Seq<Card>>, c: int) -> Option<Move>
    decreases CASCADE_LAST + 1 - c,
{
    if c > CASCADE_LAST || c < CASCADE_FIRST {
        None
    } else if complete_run_on_top(p[c]) && first_empty_foundation(p, FOUND_FIRST as int) is Some {
        Some(collapse_move(p, c, first_empty_foundation(p, FOUND_FIRST as int).unwrap()))
    } else {
        spider_auto_from(p, c + 1)
    }
}

/// Number of cards in the suited face-up run ending at position `j` and
/// extending downward from it (not counting card `j` itself).
pub open spec fn run_extension(s: Seq<Card>, j: int) -> nat
    decreases j,
{
    if j <= 0 || j >= s.len() {
        0
    } else if s[j - 1].face_up && suited_link(s[j - 1], s[j]) {
        1 + run_extension(s, j - 1)
    } else {
        0
    }
}

/// Length of the suited face-up run on top of `s`.
pub open spec fn suited_top_len(s: Seq<Card>) -> nat {
    if s.len() == 0 || !s.last().face_up {
        0
    } else {
        1 + run_extension(s, s.len() - 1)
    }
}

/// Click-to-move preference: longer suited run on the destination first,
/// then screen order.
pub open spec fn spider_before(ps: &PileSet, a: int, b: int) -> bool {
    let sa = suited_top_len(ps@[a]);
    let sb = suited_top_len(ps@[b]);
    sa > sb || (sa == sb && screen_before(ps, a, b))
}

pub open spec fn spider_click_move(p: Seq<Seq<Card>>, pile: u8, idx: int, dst: u8) -> Move {
    let m = simple_spec(pile, (p[pile as int].len() - idx) as u8, dst);
    if idx > 0 && !p[pile as int][idx - 1].face_up {
        Move { flip_source_after: true, ..m }
    } else {
        m
    }
}

pub open spec fn spider_click_ok(p: Seq<Seq<Card>>, pile: u8, idx: int, dst: u8) -> bool {
    &&& CASCADE_FIRST <= dst <= CASCADE_LAST
    &&& dst != pile
    &&& spider_legal(p, spider_click_move(p, pile, idx, dst))
}

/// Number of cards cascade `c` (0..10) receives in a deal.
pub open spec fn spider_col_len(c: int) -> int {
    if c < 4 {
        6
    } else {
        5
    }
}

pub open spec fn spider_col_start(c: int) -> int {
    if c < 4 {
        6 * c
    } else {
        24 + 5 * (c - 4)
    }
}

/// The piles a Spider deal of `deck` adds: cascade `c` gets 6 (first four)
/// or 5 cards with only the last face-up; the other 50 go to the stock.
pub open spec fn spider_deal_spec(deck: Seq<Card>) -> Seq<Seq<Card>> {
    Seq::new(19, |i: int| {
        if i == STOCK {
            deck.subrange(54, deck.len() as int)
        } else if is_cascade_spec(i) {
            let c = i - CASCADE_FIRST;
            Seq::new(spider_col_len(c) as nat, |r: int| if r == spider_col_len(c) - 1 {
                with_face(deck[spider_col_start(c) + r], true)
            } else {
                deck[spider_col_start(c) + r]
            })
        } else {
            Seq::empty()
        }
    })
}

pub fn is_cascade(id: u8) -> (r: bool)
    ensures
        r == is_cascade_spec(id as int),
{
    CASCADE_FIRST <= id && id <= CASCADE_LAST
}

fn is_foundation(id: u8) -> (r: bool)
    ensures
        r == is_foundation_spec(id as int),
{
    id <= FOUND_LAST
}

/// The cards of `cards` from `start` on form a suited descending face-up run.
pub fn suited_run_from(cards: &[Card], start: usize) -> (r: bool)
    requires
        start < cards@.len(),
    ensures
        r == suited_run(cards@.subrange(start as int, cards@.len() as int)),
{
    let n = cards.len();
    let ghost s = cards@.subrange(start as int, n as int);
    if !all_face_up_from(cards, start) {
        return false;
    }
    let suit = cards[start].suit;
    let mut i = start;
    while n - i > 1
        invariant
            n == cards@.len(),
            s == cards@.subrange(start as int, n as int),
            start <= i < n,
            suit == s[0].suit,
            forall|k: int| 0 <= k <= i - start ==> (#[trigger] s[k]).suit == suit,
            forall|k: int| 0 <= k < i - start ==> Some((#[trigger] s[k + 1]).rank) == rank_down(s[k].rank),
        decreases n - i,
    {
        let a = cards[i];
        let b = cards[i + 1];
        assert(s[i - start] == a);
        assert(s[i - start + 1] == b);
        if a.suit != suit || b.suit != suit {
            return false;
        }
        if !crate::cards::rank::opt_rank_is(a.rank.next_down(), b.rank) {
            return false;
        }
        i = i + 1;
    }
    true
}

/// Whether the top 13 cards of pile `c` are a suited King-to-Ace run.
pub fn has_complete_run_on_top(piles: &PileSet, c: u8) -> (r: bool)
    requires
        c < piles@.len(),
    ensures
        r == complete_run_on_top(piles@[c as int]),
{
    let n = piles.pile_len(c);
    if n < 13 {
        return false;
    }
    let pile = piles.get(c);
    let ghost s = piles@[c as int];
    assert(top_part(s, 13) =~= pile.cards@.subrange((n - 13) as int, n as int));
    if !suited_run_from(pile.cards.as_slice(), n - 13) {
        return false;
    }
    pile.cards[n - 13].rank == Rank::King && pile.cards[n - 1].rank == Rank::Ace
}

/// Length of the suited face-up run on top of pile `id`.
fn suited_run_len_on_top(piles: &PileSet, id: u8) -> (r: usize)
    requires
        id < piles@.len(),
    ensures
        r == suited_top_len(piles@[id as int]),
{
    let ghost s = piles@[id as int];
    let n = piles.pile_len(id);
    if n == 0 {
        return 0;
    }
    let top = piles.card_at(id, n - 1);
    if !top.face_up {
        return 0;
    }
    let mut len: usize = 1;
    let mut j: usize = n - 1;
    while j > 0
        invariant
            s == piles@[id as int],
            id < piles@.len(),
            n == s.len(),
            n > 0,
            s.last().face_up,
            j < n,
            len == n - j,
            1 + run_extension(s, (n - 1) as int) == len + run_extension(s, j as int),
        decreases j,
    {
        let higher = piles.card_at(id, j - 1);
        let lower = piles.card_at(id, j);
        if !higher.face_up || higher.suit != lower.suit
            || !crate::cards::rank::opt_rank_is(higher.rank.next_down(), lower.rank) {
            assert(higher == s[j - 1] && lower == s[j as int]);
            assert(run_extension(s, j as int) == 0);
            return len;
        }
        len = len + 1;
        j = j - 1;
    }
    len
}

/// Pile metas of a Spider board.
/// Pile `i` of a Spider board: eight foundations, the stock, then ten
/// fanned cascades.
pub open spec fn spider_meta(i: int) -> PileMeta {
    if i < 8 {
        PileMeta { kind: PileKind::Foundation, layout: PileLayout::Stacked, render_ace_as_gap: false }
    } else if i == 8 {
        PileMeta { kind: PileKind::Stock, layout: PileLayout::Stacked, render_ace_as_gap: false }
    } else {
        PileMeta { kind: PileKind::Tableau, layout: PileLayout::FannedDown, render_ace_as_gap: false }
    }
}

pub fn spider_metas() -> (r: Vec<PileMeta>)
    ensures
        r@ == Seq::new(19, |i: int| spider_meta(i)),
{
    let mut out: Vec<PileMeta> = Vec::new();
    let mut i: usize = 0;
    while i < 19
        invariant
            i <= 19,
            out@.len() == i,
            forall|k: int| 0 <= k < i ==> #[trigger] out@[k] == spider_meta(k),
        decreases 19 - i,
    {
        let meta = if i < 8 {
            PileMeta { kind: PileKind::Foundation, layout: PileLayout::Stacked, render_ace_as_gap: false }
        } else if i == 8 {
            PileMeta { kind: PileKind::Stock, layout: PileLayout::Stacked, render_ace_as_gap: false }
        } else {
            PileMeta { kind: PileKind::Tableau, layout: PileLayout::FannedDown, render_ace_as_gap: false }
        };
        out.push(meta);
        i = i + 1;
    }
    assert(out@ =~= Seq::new(19, |i: int| spider_meta(i)));
    out
}

/// A collapse onto an empty foundation fills it, so one fewer foundation
/// is empty.
proof fn lemma_collapse_decreases(p: Seq<Seq<Card>>, c: int, f: int)
    requires
        p.len() == 19,
        is_cascade_spec(c),
        is_foundation_spec(f),
        p[f].len() == 0,
        p[c].len() >= 13,
    ensures
        can_apply(p, collapse_move(p, c, f)),
        count_empty(apply_spec(p, collapse_move(p, c, f)), 0, 8, -1) < count_empty(p, 0, 8, -1),
{
    let m = collapse_move(p, c, f);
    let q = apply_spec(p, m);
    let k = p[c].len() - 13;
    assert(transform(p[c].subrange(k, p[c].len() as int), m).len() == 13);
    assert(q[f].len() == 13);
    assert forall|i: int| 0 <= i < 8 && i != f implies q[i] == p[i] by {
        if m.flip_source_after {
        }
    }
    lemma_count_empty_fill(p, q, 8, f);
}

/// Filling one empty pile `f` below `hi`, others unchanged, lowers the
/// count of empty piles.
proof fn lemma_count_empty_fill(p: Seq<Seq<Card>>, q: Seq<Seq<Card>>, hi: int, f: int)
    requires
        0 <= f < hi <= p.len(),
        hi <= q.len(),
        p[f].len() == 0,
        q[f].len() > 0,
        forall|i: int| 0 <= i < hi && i != f ==> q[i] == p[i],
    ensures
        count_empty(q, 0, hi, -1) < count_empty(p, 0, hi, -1),
    decreases hi,
{
    if hi - 1 == f {
        lemma_count_empty_same(p, q, hi - 1);
    } else {
        lemma_count_empty_fill(p, q, hi - 1, f);
    }
}

proof fn lemma_count_empty_same(p: Seq<Seq<Card>>, q: Seq<Seq<Card>>, hi: int)
    requires
        0 <= hi <= p.len(),
        hi <= q.len(),
        forall|i: int| 0 <= i < hi ==> #[trigger] q[i] == p[i],
    ensures
        count_empty(q, 0, hi, -1) == count_empty(p, 0, hi, -1),
    decreases hi,
{
    if hi > 0 {
        lemma_count_empty_same(p, q, hi - 1);
    }
}

proof fn lemma_first_empty(p: Seq<Seq<Card>>, f: int)
    requires
        p.len() == 19,
        0 <= f,
    ensures
        first_empty_foundation(p, f) matches Some(g) ==> f <= g <= FOUND_LAST && p[g].len() == 0,
    decreases FOUND_LAST + 1 - f,
{
    if f <= FOUND_LAST && p[f].len() != 0 {
        lemma_first_empty(p, f + 1);
    }
}

proof fn lemma_auto_from(p: Seq<Seq<Card>>, c: int)
    requires
        p.len() == 19,
    ensures
        spider_auto_from(p, c) is Some ==> exists|cc: int, f: int| {
            &&& is_cascade_spec(cc)
            &&& is_foundation_spec(f)
            &&& p[f].len() == 0
            &&& p[cc].len() >= 13
            &&& spider_auto_from(p, c) == Some(collapse_move(p, cc, f))
        },
    decreases CASCADE_LAST + 1 - c,
{
    if c <= CASCADE_LAST && c >= CASCADE_FIRST {
        if complete_run_on_top(p[c]) && first_empty_foundation(p, FOUND_FIRST as int) is Some {
            lemma_first_empty(p, FOUND_FIRST as int);
            let f = first_empty_foundation(p, FOUND_FIRST as int).unwrap();
            assert(is_foundation_spec(f) && p[f].len() == 0 && p[c].len() >= 13);
        } else {
            lemma_auto_from(p, c + 1);
        }
    }
}

/// The run of a suited descending sequence drops one rank per card, so it
/// holds at most 13 cards.
proof fn lemma_suited_values(s: Seq<Card>, i: int)
    requires
        suited_run(s),
        0 <= i < s.len(),
    ensures
        crate::cards::rank::rank_value(s[i].rank) <= 13 - i,
    decreases i,
{
    crate::cards::rank::lemma_rank_value(s[i].rank);
    if i > 0 {
        lemma_suited_values(s, i - 1);
        let k = i - 1;
        assert(Some(s[k + 1].rank) == rank_down(s[k].rank));
        crate::cards::rank::lemma_rank_of_value(crate::cards::rank::rank_value(s[i - 1].rank) - 1);
    }
}

/// A suited run holds at most 13 cards.
pub proof fn lemma_suited_run_len(s: Seq<Card>)
    requires
        suited_run(s),
    ensures
        s.len() <= 13,
{
    if s.len() > 13 {
        lemma_suited_values(s, 13);
        crate::cards::rank::lemma_rank_value(s[13].rank);
    }
}

/// The automatic collapse is applicable, legal, reversible, and fills an
/// empty foundation.
pub proof fn lemma_collapse_ok(p: Seq<Seq<Card>>)
    requires
        p.len() == 19,
        spider_auto_from(p, CASCADE_FIRST as int) is Some,
    ensures
        can_apply(p, spider_auto_from(p, CASCADE_FIRST as int).unwrap()),
        spider_legal(p, spider_auto_from(p, CASCADE_FIRST as int).unwrap()),
        crate::session::moves::reversible(p, spider_auto_from(p, CASCADE_FIRST as int).unwrap()),
        count_empty(apply_spec(p, spider_auto_from(p, CASCADE_FIRST as int).unwrap()), 0, 8, -1) < count_empty(p, 0, 8, -1),
{
    lemma_auto_from_complete(p, CASCADE_FIRST as int);
    let (c, f) = choose|cc: int, f: int| {
        &&& is_cascade_spec(cc)
        &&& is_foundation_spec(f)
        &&& p[f].len() == 0
        &&& complete_run_on_top(p[cc])
        &&& spider_auto_from(p, CASCADE_FIRST as int) == Some(collapse_move(p, cc, f))
    };
    lemma_collapse_decreases(p, c, f);
}

proof fn lemma_auto_from_complete(p: Seq<Seq<Card>>, c: int)
    requires
        p.len() == 19,
    ensures
        spider_auto_from(p, c) is Some ==> exists|cc: int, f: int| {
            &&& is_cascade_spec(cc)
            &&& is_foundation_spec(f)
            &&& p[f].len() == 0
            &&& complete_run_on_top(p[cc])
            &&& spider_auto_from(p, c) == Some(collapse_move(p, cc, f))
        },
    decreases CASCADE_LAST + 1 - c,
{
    if c <= CASCADE_LAST && c >= CASCADE_FIRST {
        if complete_run_on_top(p[c]) && first_empty_foundation(p, FOUND_FIRST as int) is Some {
            lemma_first_empty(p, FOUND_FIRST as int);
        } else {
            lemma_auto_from_complete(p, c + 1);
        }
    }
}

/// The automatic collapse after a move: the first cascade topped by a
/// complete King-to-Ace run goes to the first empty foundation.
pub fn collapse_step(piles: &PileSet) -> (r: Option<Move>)
    requires
        piles@.len() == 19,
    ensures
        r == spider_auto_from(piles@, CASCADE_FIRST as int),
{
    let mut c: u8 = CASCADE_FIRST;
    while c <= CASCADE_LAST
        invariant
            piles@.len() == 19,
            CASCADE_FIRST <= c <= CASCADE_LAST + 1,
            spider_auto_from(piles@, CASCADE_FIRST as int) == spider_auto_from(piles@, c as int),
        decreases CASCADE_LAST + 1 - c,
    {
        if has_complete_run_on_top(piles, c) {
            let mut f: u8 = FOUND_FIRST;
            while f <= FOUND_LAST
                invariant
                    piles@.len() == 19,
                    CASCADE_FIRST <= c <= CASCADE_LAST,
                    complete_run_on_top(piles@[c as int]),
                    spider_auto_from(piles@, CASCADE_FIRST as int) == spider_auto_from(piles@, c as int),
                    FOUND_FIRST <= f <= FOUND_LAST + 1,
                    first_empty_foundation(piles@, FOUND_FIRST as int) == first_empty_foundation(piles@, f as int),
                decreases FOUND_LAST + 1 - f,
            {
                if piles.pile_len(f) == 0 {
                    let mut m = Move::simple(c, 13, f);
                    let n = piles.pile_len(c);
                    if n > 13 && !piles.card_at(c, n - 14).face_up {
                        m = m.with_flip_source();
                    }
                    return Some(m);
                }
                f = f + 1;
            }
            assert(first_empty_foundation(piles@, FOUND_FIRST as int) is None);
        }
        c = c + 1;
    }
    None
}


impl Spider {
    /// Deal `deck` (104 cards, in order): cascade `c` gets the next 6 cards
    /// (first four) or 5, only the last face-up; the rest go to the stock.
    pub fn deal_from_deck(&self, piles: &mut PileSet, deck: &Vec<Card>)
        requires
            old(piles)@.len() == 19,
            deck@.len() >= 54,
        ensures
            final(piles)@ == add_piles(old(piles)@, spider_deal_spec(deck@)),
            final(piles).shapes() == old(piles).shapes(),
    {
        let ghost start = piles@;
        let ghost sh = piles.shapes();
        let mut next: usize = 0;
        let mut col: usize = 0;
        while col < N_CASCADES
            invariant
                piles.shapes() == sh,
                deck@.len() >= 54,
                start.len() == 19,
                piles@.len() == 19,
                col <= 10,
                next == (if col < 4 { 6 * col } else { 24 + 5 * (col - 4) }),
                forall|i: int| 0 <= i < 19 ==> #[trigger] piles@[i] == (if is_cascade_spec(i) && i - CASCADE_FIRST < col {
                    start[i] + spider_deal_spec(deck@)[i]
                } else {
                    start[i]
                }),
            decreases 10 - col,
        {
            let n: usize = if col < 4 { 6 } else { 5 };
            let id = CASCADE_FIRST + col as u8;
            let ghost before = piles@;
            let ghost cs = spider_col_start(col as int);
            let mut j: usize = 0;
            while j < n
                invariant
                    piles.shapes() == sh,
                    deck@.len() >= 54,
                    piles@.len() == 19,
                    col < 10,
                    id == CASCADE_FIRST + col,
                    n == spider_col_len(col as int),
                    cs == spider_col_start(col as int),
                    j <= n,
                    next == cs + j,
                    cs + n <= 54,
                    forall|i: int| 0 <= i < 19 && i != id ==> #[trigger] piles@[i] == before[i],
                    piles@[id as int] == before[id as int] + Seq::new(j as nat, |r: int| if r == n - 1 {
                        with_face(deck@[cs + r], true)
                    } else {
                        deck@[cs + r]
                    }),
                decreases n - j,
            {
                let mut card = deck[next];
                if j == n - 1 {
                    card.face_up = true;
                }
                assert(Seq::new((j + 1) as nat, |r: int| if r == n - 1 { with_face(deck@[cs + r], true) } else { deck@[cs + r] })
                    =~= Seq::new(j as nat, |r: int| if r == n - 1 { with_face(deck@[cs + r], true) } else { deck@[cs + r] }).push(card));
                piles.push_card(id, card);
                next = next + 1;
                j = j + 1;
            }
            col = col + 1;
        }
        let ghost mid = piles@;
        let total = deck.len();
        while next < total
            invariant
                piles.shapes() == sh,
                deck@.len() == total,
                total >= 54,
                piles@.len() == 19,
                54 <= next <= total,
                forall|i: int| 0 <= i < 19 && i != STOCK ==> #[trigger] piles@[i] == mid[i],
                piles@[STOCK as int] == mid[STOCK as int] + deck@.subrange(54, next as int),
            decreases total - next,
        {
            assert(deck@.subrange(54, next + 1) =~= deck@.subrange(54, next as int).push(deck@[next as int]));
            piles.push_card(STOCK, deck[next]);
            next = next + 1;
        }
        assert(piles@ =~= add_piles(start, spider_deal_spec(deck@)));
    }

    fn after_move_impl(&self, piles: &PileSet) -> (r: Option<Move>)
        requires
            piles@.len() == 19,
        ensures
            r == spider_auto_from(piles@, CASCADE_FIRST as int),
    {
        collapse_step(piles)
    }

    fn single_click_impl(&self, piles: &PileSet, pile: u8, card_idx: usize) -> (r: Option<Move>)
        requires
            piles@.len() == 19,
            pile < 19,
        ensures
            ({
                let p = piles@;
                let idx = card_idx as int;
                if !is_cascade_spec(pile as int) || idx >= p[pile as int].len() || !p[pile as int][idx].face_up {
                    r is None
                } else if exists|d: u8| spider_click_ok(p, pile, idx, d) {
                    exists|d: u8| {
                        &&& spider_click_ok(p, pile, idx, d)
                        &&& r == Some(spider_click_move(p, pile, idx, d))
                        &&& forall|d2: u8| spider_click_ok(p, pile, idx, d2) && d2 != d ==> spider_before(piles, d as int, d2 as int)
                    }
                } else {
                    r is None
                }
            }),
    {
        let ghost p = piles@;
        let ghost idx = card_idx as int;
        if !is_cascade(pile) {
            return None;
        }
        let n = piles.pile_len(pile);
        if card_idx >= n || !piles.card_at(pile, card_idx).face_up {
            return None;
        }
        let take = n - card_idx;
        let flip = card_idx > 0 && !piles.card_at(pile, card_idx - 1).face_up;
        let mut best: Option<(u8, usize)> = None;
        let mut dst: u8 = CASCADE_FIRST;
        while dst <= CASCADE_LAST
            invariant
                piles@ == p,
                p.len() == 19,
                pile < 19,
                idx == card_idx,
                idx < p[pile as int].len(),
                take == p[pile as int].len() - idx,
                flip == (idx > 0 && !p[pile as int][idx - 1].face_up),
                CASCADE_FIRST <= dst <= CASCADE_LAST + 1,
                match best {
                    None => forall|d2: u8| d2 < dst ==> !spider_click_ok(p, pile, idx, d2),
                    Some((b, sb)) => {
                        &&& b < dst
                        &&& sb == suited_top_len(p[b as int])
                        &&& spider_click_ok(p, pile, idx, b)
                        &&& forall|d2: u8| d2 < dst && spider_click_ok(p, pile, idx, d2) && d2 != b ==> spider_before(piles, b as int, d2 as int)
                    },
                },
            decreases CASCADE_LAST + 1 - dst,
        {
            if dst == pile {
                assert(!spider_click_ok(p, pile, idx, dst));
            } else {
                let mut m = Move::simple(pile, take as u8, dst);
                if flip {
                    m = m.with_flip_source();
                }
                assert(m == spider_click_move(p, pile, idx, dst));
                let ok = self.legal_move(piles, &m);
                assert(ok == spider_click_ok(p, pile, idx, dst));
                if ok {
                    let sd = suited_run_len_on_top(piles, dst);
                    match best {
                        None => {
                            best = Some((dst, sd));
                        },
                        Some((b, sb)) => {
                            let ob = piles.get(b).column_order;
                            let od = piles.get(dst).column_order;
                            if sd > sb || (sd == sb && od < ob) {
                                best = Some((dst, sd));
                                proof {
                                    assert forall|d2: u8| d2 < dst + 1 && spider_click_ok(p, pile, idx, d2) && d2 != dst implies spider_before(piles, dst as int, d2 as int) by {
                                        if d2 != b {
                                            assert(spider_before(piles, b as int, d2 as int));
                                        }
                                    }
                                }
                            } else {
                                proof {
                                    assert(spider_before(piles, b as int, dst as int));
                                }
                            }
                        },
                    }
                }
            }
            proof {
                match best {
                    None => {
                        assert forall|d2: u8| d2 < dst + 1 implies !spider_click_ok(p, pile, idx, d2) by {
                            if d2 >= dst {
                                assert(d2 == dst);
                            }
                        }
                    },
                    Some(_) => {},
                }
            }
            dst = dst + 1;
        }
        match best {
            None => None,
            Some((b, _)) => {
                let mut m = Move::simple(pile, take as u8, b);
                if flip {
                    m = m.with_flip_source();
                }
                Some(m)
            },
        }
    }
}

impl GameRules for Spider {
    open spec fn pile_count(&self) -> nat {
        19
    }

    fn pile_metas(&self) -> (r: Vec<PileMeta>)
        ensures
            r@ == Seq::new(19, |i: int| spider_meta(i)),
    {
        spider_metas()
    }

    open spec fn legal(&self, p: Seq<Seq<Card>>, m: Move) -> bool {
        spider_legal(p, m)
    }

    open spec fn won(&self, p: Seq<Seq<Card>>) -> bool {
        spider_won(p)
    }

    open spec fn auto_next(&self, p: Seq<Seq<Card>>) -> Option<Move> {
        spider_auto_from(p, CASCADE_FIRST as int)
    }

    open spec fn auto_measure(&self, p: Seq<Seq<Card>>) -> nat {
        count_empty(p, 0, 8, -1)
    }

    proof fn lemma_auto_next(&self, p: Seq<Seq<Card>>) {
        if self.auto_next(p) is Some {
            lemma_auto_from(p, CASCADE_FIRST as int);
            let (c, f) = choose|cc: int, f: int| {
                &&& is_cascade_spec(cc)
                &&& is_foundation_spec(f)
                &&& p[f].len() == 0
                &&& p[cc].len() >= 13
                &&& spider_auto_from(p, CASCADE_FIRST as int) == Some(collapse_move(p, cc, f))
            };
            lemma_collapse_decreases(p, c, f);
        }
    }

    /// Some order of this game's 104-card deck, dealt as `deal_from_deck`
    /// does.
    open spec fn dealt(&self, before: Seq<Seq<Card>>, after: Seq<Seq<Card>>) -> bool {
        exists|deck: Seq<Card>| {
            &&& deck.len() == 104
            &&& deck.to_multiset() == Seq::new(104, |j: int| multi_deck_card(spider_game_suits(self), j)).to_multiset()
            &&& after == add_piles(before, spider_deal_spec(deck))
        }
    }

    /// Shuffle this game's 104-card deck with `rng` and deal it with
    /// `deal_from_deck`.
    fn deal(&self, piles: &mut PileSet, rng: &mut StdRng)
        ensures
            exists|deck: Seq<Card>| {
                &&& deck.len() == 104
                &&& deck.to_multiset() == Seq::new(104, |j: int| multi_deck_card(spider_game_suits(self), j)).to_multiset()
                &&& final(piles)@ == add_piles(old(piles)@, spider_deal_spec(deck))
            },
    {
        let suits = self.suits();
        let mut deck = multi_deck(suits.as_slice());
        proof {
            assert(104int / 13 == 8);
            assert(104int / 26 == 4);
            assert(104int / 52 == 2);
            let k = spider_game_suits(self).len() as int;
            assert(k == 1 || k == 2 || k == 4);
            assert(copies_for(1) * 13 * 1 == 104);
            assert(copies_for(2) * 13 * 2 == 104);
            assert(copies_for(4) * 13 * 4 == 104);
            assert(deck@.len() == 104);
            assert(deck@ =~= Seq::new(104, |j: int| multi_deck_card(spider_game_suits(self), j)));
        }
        shuffle_cards(&mut deck, rng);
        self.deal_from_deck(piles, &deck);
    }

    fn legal_move(&self, piles: &PileSet, m: &Move) -> (r: bool) {
        if m.take == 0 {
            return false;
        }
        let take = m.take as usize;
        let from_len = piles.pile_len(m.from);
        if from_len < take {
            return false;
        }
        let from = piles.get(m.from);
        let start = from_len - take;
        proof {
            assert(top_part(piles@[m.from as int], take as int) =~= from.cards@.subrange(start as int, from_len as int));
        }
        if m.from == STOCK && is_cascade(m.to) {
            return m.take == 1 && m.flip_moved;
        }
        if is_cascade(m.from) && is_foundation(m.to) {
            return take == 13 && piles.pile_len(m.to) == 0 && suited_run_from(from.cards.as_slice(), start)
                && from.cards[start].rank == Rank::King;
        }
        if !all_face_up_from(from.cards.as_slice(), start) {
            return false;
        }
        if is_cascade(m.from) && is_cascade(m.to) {
            if take > 1 && !suited_run_from(from.cards.as_slice(), start) {
                return false;
            }
            let head = from.cards[start];
            return match piles.top_card(m.to) {
                None => true,
                Some(top) => crate::cards::rank::opt_rank_is(top.rank.next_down(), head.rank),
            };
        }
        false
    }

    fn auto_complete_step(&self, piles: &PileSet) -> (r: Option<Move>)
        ensures
            r is None,
    {
        None
    }

    fn is_won(&self, piles: &PileSet) -> (r: bool) {
        let mut f: u8 = FOUND_FIRST;
        while f <= FOUND_LAST
            invariant
                piles@.len() == 19,
                f <= FOUND_LAST + 1,
                forall|f2: int| FOUND_FIRST <= f2 < f ==> (#[trigger] piles@[f2]).len() == 13,
            decreases FOUND_LAST + 1 - f,
        {
            if piles.pile_len(f) != 13 {
                return false;
            }
            f = f + 1;
        }
        true
    }

    fn game_slug(&self) -> (s: &'static str)
        ensures
            s@ == "spider"@,
    {
        "spider"
    }

    /// A stock click deals one face-up card onto each cascade, empty ones
    /// included, when the stock holds at least 10 cards.
    fn on_pile_click(&self, piles: &PileSet, pile: u8) -> (r: Vec<Move>)
        ensures
            r@ == (if pile == STOCK && piles@[STOCK as int].len() >= 10 {
                Seq::new(10, |c: int| Move { flip_moved: true, ..simple_spec(STOCK, 1, (CASCADE_FIRST + c) as u8) })
            } else {
                Seq::<Move>::empty()
            }),
    {
        let mut out: Vec<Move> = Vec::new();
        if pile != STOCK {
            return out;
        }
        if piles.pile_len(STOCK) < N_CASCADES {
            return out;
        }
        let mut col: u8 = 0;
        while col < 10
            invariant
                col <= 10,
                out@ == Seq::new(col as nat, |c: int| Move { flip_moved: true, ..simple_spec(STOCK, 1, (CASCADE_FIRST + c) as u8) }),
            decreases 10 - col,
        {
            out.push(Move::simple(STOCK, 1, CASCADE_FIRST + col).with_flip_moved());
            assert(out@ =~= Seq::new((col + 1) as nat, |c: int| Move { flip_moved: true, ..simple_spec(STOCK, 1, (CASCADE_FIRST + c) as u8) }));
            col = col + 1;
        }
        out
    }

    /// The run from the clicked card goes to the legal cascade with the
    /// longest suited run on top, ties by screen order.
    fn single_click_move(&self, piles: &PileSet, pile: u8, card_idx: usize) -> (r: Option<Move>)
        ensures
            ({
                let p = piles@;
                let idx = card_idx as int;
                if !is_cascade_spec(pile as int) || idx >= p[pile as int].len() || !p[pile as int][idx].face_up {
                    r is None
                } else if exists|d: u8| spider_click_ok(p, pile, idx, d) {
                    exists|d: u8| {
                        &&& spider_click_ok(p, pile, idx, d)
                        &&& r == Some(spider_click_move(p, pile, idx, d))
                        &&& forall|d2: u8| spider_click_ok(p, pile, idx, d2) && d2 != d ==> spider_before(piles, d as int, d2 as int)
                    }
                } else {
                    r is None
                }
            }),
    {
        self.single_click_impl(piles, pile, card_idx)
    }

    fn after_move(&self, piles: &PileSet) -> (r: Option<Move>) {
        self.after_move_impl(piles)
    }
}

} // verus!
