//! Klondike: 1 stock, 1 waste, 4 foundations, 7 tableau piles.

use vstd::prelude::*;

use rand::rngs::StdRng;

use super::GameRules;
use crate::cards::card::{with_face, Card};
use crate::cards::deck::{standard_deck, standard_deck_spec};
use crate::cards::rank::{lemma_rank_of_value, lemma_rank_value, rank_down, rank_up, rank_value, Rank};
use crate::cards::suit::color_of;
use crate::piles::pile::top_of;
use crate::piles::{PileKind, PileLayout, PileMeta, PileSet};
use crate::rng::shuffle_cards;
use crate::session::moves::{simple_spec, Move};

verus! {

pub const STOCK: u8 = 0;
pub const WASTE: u8 = 1;
pub const FOUND_FIRST: u8 = 2;
pub const FOUND_LAST: u8 = 5;
pub const TABLEAU_FIRST: u8 = 6;
pub const TABLEAU_LAST: u8 = 12;
pub const KLONDIKE_STOCK: u8 = STOCK;
pub const KLONDIKE_WASTE: u8 = WASTE;

pub struct Klondike {
    /// Cards dispensed per stock click (1 or 3).
    pub draw_count: u8,
}

impl Klondike {
    pub fn new() -> (k: Klondike)
        ensures
            k.draw_count == 1,
    {
        Klondike { draw_count: 1 }
    }

    pub fn with_draw_count(draw_count: u8) -> (k: Klondike)
        ensures
            k.draw_count == draw_count,
    {
        Klondike { draw_count }
    }

    /// The Microsoft-style variant: Klondike with 3-card draw.
    pub fn classic() -> (k: Klondike)
        ensures
            k.draw_count == 3,
    {
        Klondike { draw_count: 3 }
    }
}

pub open spec fn is_tableau_spec(id: int) -> bool {
    TABLEAU_FIRST <= id <= TABLEAU_LAST
}

pub open spec fn is_foundation_spec(id: int) -> bool {
    FOUND_FIRST <= id <= FOUND_LAST
}

/// `cand` may go on `top` in a tableau: opposite colour, one rank lower.
pub open spec fn alt_color_desc(top: Card, cand: Card) -> bool {
    color_of(top.suit) != color_of(cand.suit) && Some(cand.rank) == rank_down(top.rank)
}

/// `cand` may go on `top` in a foundation: same suit, one rank higher.
pub open spec fn same_suit_asc(top: Card, cand: Card) -> bool {
    top.suit == cand.suit && Some(cand.rank) == rank_up(top.rank)
}

pub open spec fn all_face_up(s: Seq<Card>) -> bool {
    forall|i: int| 0 <= i < s.len() ==> (#[trigger] s[i]).face_up
}

/// A face-up run alternating in colour and descending by one rank.
pub open spec fn alt_run(s: Seq<Card>) -> bool {
    &&& all_face_up(s)
    &&& forall|i: int| 0 <= i < s.len() - 1 ==> alt_color_desc(#[trigger] s[i], s[i + 1])
}

/// The cards of an alternating run descend one rank per card.
pub proof fn lemma_run_values(s: Seq<Card>, i: int)
    requires
        alt_run(s),
        0 <= i < s.len(),
    ensures
        rank_value(s[i].rank) <= 13 - i,
    decreases i,
{
    lemma_rank_value(s[i].rank);
    if i > 0 {
        lemma_run_values(s, i - 1);
        assert(alt_color_desc(s[i - 1], s[i]));
        lemma_rank_of_value(rank_value(s[i - 1].rank) - 1);
    }
}

/// An alternating run holds at most 13 cards.
pub proof fn lemma_run_len(s: Seq<Card>)
    requires
        alt_run(s),
    ensures
        s.len() <= 13,
{
    if s.len() > 13 {
        lemma_run_values(s, 13);
        lemma_rank_value(s[13].rank);
    }
}

/// The top `take` cards of `s`.
pub open spec fn top_part(s: Seq<Card>, take: int) -> Seq<Card> {
    s.subrange(s.len() - take, s.len() as int)
}

/// A foundation holding `f` accepts `c`: an Ace when empty, else the next
/// card of the same suit.
pub open spec fn foundation_accepts(f: Seq<Card>, c: Card) -> bool {
    match top_of(f) {
        None => c.rank == Rank::Ace,
        Some(t) => same_suit_asc(t, c),
    }
}

/// A Klondike tableau holding `t` accepts a run headed by `head`: a King
/// when empty, else an opposite-colour card one rank lower than the top.
pub open spec fn tableau_accepts(t: Seq<Card>, head: Card) -> bool {
    match top_of(t) {
        None => head.rank == Rank::King,
        Some(top) => alt_color_desc(top, head),
    }
}

/// Klondike's legality rule, with `draw` cards per stock click.
pub open spec fn klondike_legal(draw: u8, p: Seq<Seq<Card>>, m: Move) -> bool {
    let f = p[m.from as int];
    let take = m.take as int;
    if take == 0 || f.len() < take {
        false
    } else {
        let moved = top_part(f, take);
        if m.from == STOCK && m.to == WASTE {
            take <= draw && m.flip_moved
        } else if m.from == WASTE && m.to == STOCK {
            f.len() == take && m.reverse_order && m.flip_moved
        } else if !all_face_up(moved) {
            false
        } else if is_foundation_spec(m.to as int) {
            take == 1 && foundation_accepts(p[m.to as int], moved[0])
        } else if is_tableau_spec(m.to as int) {
            alt_run(moved) && tableau_accepts(p[m.to as int], moved[0])
        } else {
            false
        }
    }
}

/// Every foundation holds 13 cards.
pub open spec fn klondike_won(p: Seq<Seq<Card>>) -> bool {
    forall|f: int| FOUND_FIRST <= f <= FOUND_LAST ==> (#[trigger] p[f]).len() == 13
}

/// First deck index dealt to tableau column `c`: 0, 1, 3, 6, 10, 15, 21.
pub open spec fn column_start(c: int) -> int {
    c * (c + 1) / 2
}

/// Row `r` of tableau column `c` in a deal of `deck`: only the last card
/// of the column (row `c`) is face-up.
pub open spec fn column_card(deck: Seq<Card>, c: int, r: int) -> Card {
    if r == c {
        with_face(deck[column_start(c) + r], true)
    } else {
        deck[column_start(c) + r]
    }
}

/// The piles a Klondike deal adds when dealing `deck`: column `c` gets
/// `c + 1` cards with only its last face-up, the other 24 go to the stock.
pub open spec fn klondike_deal_spec(deck: Seq<Card>) -> Seq<Seq<Card>> {
    Seq::new(13, |i: int| {
        if i == STOCK {
            deck.subrange(28, 52)
        } else if is_tableau_spec(i) {
            let c = i - TABLEAU_FIRST;
            Seq::new((c + 1) as nat, |r: int| column_card(deck, c, r))
        } else {
            Seq::empty()
        }
    })
}

/// Pile-wise concatenation of two boards of the same size.
pub open spec fn add_piles(a: Seq<Seq<Card>>, b: Seq<Seq<Card>>) -> Seq<Seq<Card>> {
    Seq::new(a.len(), |i: int| a[i] + b[i])
}

/// Source `j` (0..8) of the auto-complete scan: tableau 6..=12, then waste.
pub open spec fn auto_source(j: int) -> int {
    if j < 7 {
        TABLEAU_FIRST + j
    } else {
        WASTE as int
    }
}

/// Auto-complete may send the top of source `j` to foundation `f`.
pub open spec fn auto_candidate(p: Seq<Seq<Card>>, j: int, f: int) -> bool {
    &&& 0 <= j < 8
    &&& FOUND_FIRST <= f <= FOUND_LAST
    &&& top_of(p[auto_source(j)]) matches Some(t)
    &&& t.face_up
    &&& foundation_accepts(p[f], t)
}

/// Some tableau pile holds a face-down card.
pub open spec fn tableau_has_face_down(p: Seq<Seq<Card>>) -> bool {
    exists|t: int, i: int| is_tableau_spec(t) && 0 <= i < p[t].len() && !(#[trigger] p[t][i]).face_up
}

/// Pile `id` is laid out earlier than pile `other` on screen.
pub open spec fn screen_before(ps: &PileSet, a: int, b: int) -> bool {
    let oa = ps.pile_seq()[a].column_order;
    let ob = ps.pile_seq()[b].column_order;
    oa < ob || (oa == ob && a < b)
}

/// The move a click on card `idx` of `pile` tries towards `dst`.
pub open spec fn click_move(p: Seq<Seq<Card>>, pile: u8, idx: int, dst: u8) -> Move {
    let m = simple_spec(pile, (p[pile as int].len() - idx) as u8, dst);
    if is_tableau_spec(pile as int) && idx > 0 && !p[pile as int][idx - 1].face_up {
        Move { flip_source_after: true, ..m }
    } else {
        m
    }
}

pub open spec fn click_foundation_ok(k: &Klondike, p: Seq<Seq<Card>>, pile: u8, idx: int, dst: u8) -> bool {
    &&& FOUND_FIRST <= dst <= FOUND_LAST
    &&& dst != pile
    &&& p[pile as int].len() - idx == 1
    &&& klondike_legal(k.draw_count, p, click_move(p, pile, idx, dst))
}

pub open spec fn click_tableau_ok(k: &Klondike, p: Seq<Seq<Card>>, pile: u8, idx: int, dst: u8) -> bool {
    &&& TABLEAU_FIRST <= dst <= TABLEAU_LAST
    &&& dst != pile
    &&& klondike_legal(k.draw_count, p, click_move(p, pile, idx, dst))
}

pub fn is_tableau(id: u8) -> (r: bool)
    ensures
        r == is_tableau_spec(id as int),
{
    TABLEAU_FIRST <= id && id <= TABLEAU_LAST
}

pub fn is_foundation(id: u8) -> (r: bool)
    ensures
        r == is_foundation_spec(id as int),
{
    FOUND_FIRST <= id && id <= FOUND_LAST
}

pub fn is_tableau_pile(id: u8) -> (r: bool)
    ensures
        r == is_tableau_spec(id as int),
{
    is_tableau(id)
}

pub fn is_foundation_pile(id: u8) -> (r: bool)
    ensures
        r == is_foundation_spec(id as int),
{
    is_foundation(id)
}

pub fn alt_color_descending(top: &Card, cand: &Card) -> (r: bool)
    ensures
        r == alt_color_desc(*top, *cand),
{
    if top.suit.color() == cand.suit.color() {
        return false;
    }
    crate::cards::rank::opt_rank_is(top.rank.next_down(), cand.rank)
}

pub fn same_suit_ascending(top: &Card, cand: &Card) -> (r: bool)
    ensures
        r == same_suit_asc(*top, *cand),
{
    top.suit == cand.suit && crate::cards::rank::opt_rank_is(top.rank.next_up(), cand.rank)
}

/// Every card of `cards` from `start` on is face-up.
pub fn all_face_up_from(cards: &[Card], start: usize) -> (r: bool)
    requires
        start <= cards@.len(),
    ensures
        r == all_face_up(cards@.subrange(start as int, cards@.len() as int)),
{
    let n = cards.len();
    let mut i = start;
    while i < n
        invariant
            n == cards@.len(),
            start <= i <= n,
            forall|k: int| start <= k < i ==> (#[trigger] cards@[k]).face_up,
        decreases n - i,
    {
        if !cards[i].face_up {
            assert(!cards@.subrange(start as int, n as int)[i - start].face_up);
            return false;
        }
        i = i + 1;
    }
    assert forall|k: int| 0 <= k < n - start implies (#[trigger] cards@.subrange(start as int, n as int)[k]).face_up by {
        assert(cards@.subrange(start as int, n as int)[k] == cards@[k + start]);
    }
    true
}

/// The cards of `cards` from `start` on form an alternating-colour
/// descending face-up run.
pub fn valid_run_from(cards: &[Card], start: usize) -> (r: bool)
    requires
        start <= cards@.len(),
    ensures
        r == alt_run(cards@.subrange(start as int, cards@.len() as int)),
{
    let n = cards.len();
    let ghost s = cards@.subrange(start as int, n as int);
    if !all_face_up_from(cards, start) {
        return false;
    }
    let mut i = start;
    while n - i > 1
        invariant
            n == cards@.len(),
            s == cards@.subrange(start as int, n as int),
            start <= i <= n,
            forall|k: int| 0 <= k < i - start ==> alt_color_desc(#[trigger] s[k], s[k + 1]),
        decreases n - i,
    {
        if !alt_color_descending(&cards[i], &cards[i + 1]) {
            assert(s[i - start] == cards@[i as int]);
            assert(s[i - start + 1] == cards@[i + 1]);
            return false;
        }
        assert(s[i - start] == cards@[i as int]);
        assert(s[i - start + 1] == cards@[i + 1]);
        i = i + 1;
    }
    true
}

/// The whole slice is an alternating-colour descending face-up run.
pub fn is_valid_run(cards: &[Card]) -> (r: bool)
    ensures
        r == alt_run(cards@),
{
    assert(cards@.subrange(0, cards@.len() as int) =~= cards@);
    valid_run_from(cards, 0)
}

/// Whether the foundation pile `f` of `piles` accepts `c`.
pub fn foundation_accepts_exec(piles: &PileSet, f: u8, c: &Card) -> (r: bool)
    requires
        f < piles@.len(),
    ensures
        r == foundation_accepts(piles@[f as int], *c),
{
    match piles.top_card(f) {
        None => c.rank == Rank::Ace,
        Some(top) => same_suit_ascending(&top, c),
    }
}

/// Whether the Klondike tableau pile `t` of `piles` accepts a run headed by `head`.
pub fn tableau_accepts_exec(piles: &PileSet, t: u8, head: &Card) -> (r: bool)
    requires
        t < piles@.len(),
    ensures
        r == tableau_accepts(piles@[t as int], *head),
{
    match piles.top_card(t) {
        None => head.rank == Rank::King,
        Some(top) => alt_color_descending(&top, head),
    }
}

/// The pile metas of a Klondike board.
/// Pile `i` of a Klondike board: the stock, the waste, four foundations,
/// then seven fanned tableau columns.
pub open spec fn klondike_meta(i: int) -> PileMeta {
    if i == STOCK {
        PileMeta { kind: PileKind::Stock, layout: PileLayout::Stacked, render_ace_as_gap: false }
    } else if i == WASTE {
        PileMeta { kind: PileKind::Waste, layout: PileLayout::Stacked, render_ace_as_gap: false }
    } else if i <= FOUND_LAST {
        PileMeta { kind: PileKind::Foundation, layout: PileLayout::Stacked, render_ace_as_gap: false }
    } else {
        PileMeta { kind: PileKind::Tableau, layout: PileLayout::FannedDown, render_ace_as_gap: false }
    }
}

pub fn klondike_metas() -> (r: Vec<PileMeta>)
    ensures
        r@ == Seq::new(13, |i: int| klondike_meta(i)),
{
    let mut out: Vec<PileMeta> = Vec::new();
    out.push(PileMeta { kind: PileKind::Stock, layout: PileLayout::Stacked, render_ace_as_gap: false });
    out.push(PileMeta { kind: PileKind::Waste, layout: PileLayout::Stacked, render_ace_as_gap: false });
    let mut i: usize = 0;
    while i < 4
        invariant
            i <= 4,
            out@.len() == 2 + i,
            forall|k: int| 0 <= k < out@.len() ==> #[trigger] out@[k] == klondike_meta(k),
        decreases 4 - i,
    {
        out.push(PileMeta { kind: PileKind::Foundation, layout: PileLayout::Stacked, render_ace_as_gap: false });
        i = i + 1;
    }
    let mut i: usize = 0;
    while i < 7
        invariant
            i <= 7,
            out@.len() == 6 + i,
            forall|k: int| 0 <= k < out@.len() ==> #[trigger] out@[k] == klondike_meta(k),
        decreases 7 - i,
    {
        out.push(PileMeta { kind: PileKind::Tableau, layout: PileLayout::FannedDown, render_ace_as_gap: false });
        i = i + 1;
    }
    assert(out@ =~= Seq::new(13, |i: int| klondike_meta(i)));
    out
}

impl Klondike {
    /// Deal `deck` (52 cards, in order) onto `piles`: column `c` of the
    /// tableau gets the next `c + 1` cards with its last turned face-up;
    /// the remaining 24 go to the stock.
    pub fn deal_from_deck(&self, piles: &mut PileSet, deck: &Vec<Card>)
        requires
            old(piles)@.len() == 13,
            deck@.len() == 52,
        ensures
            final(piles)@ == add_piles(old(piles)@, klondike_deal_spec(deck@)),
            final(piles).shapes() == old(piles).shapes(),
    {
        let ghost start = piles@;
        let ghost sh = piles.shapes();
        let mut next: usize = 0;
        let mut col: u8 = 0;
        while col < 7
            invariant
                piles.shapes() == sh,
                deck@.len() == 52,
                start.len() == 13,
                piles@.len() == 13,
                col <= 7,
                next == column_start(col as int),
                forall|i: int| 0 <= i < 13 ==> #[trigger] piles@[i] == (if is_tableau_spec(i) && i - TABLEAU_FIRST < col {
                    start[i] + klondike_deal_spec(deck@)[i]
                } else {
                    start[i]
                }),
            decreases 7 - col,
        {
            assert(column_start(col as int + 1) == column_start(col as int) + col + 1) by (nonlinear_arith);
            assert(column_start(col as int) + col + 1 <= 28) by (nonlinear_arith)
                requires col < 7;
            let id = TABLEAU_FIRST + col;
            let ghost before = piles@;
            let mut row: u8 = 0;
            while row <= col
                invariant
                    piles.shapes() == sh,
                    deck@.len() == 52,
                    piles@.len() == 13,
                    col < 7,
                    id == TABLEAU_FIRST + col,
                    row <= col + 1,
                    next == column_start(col as int) + row,
                    column_start(col as int) + col + 1 <= 28,
                    forall|i: int| 0 <= i < 13 && i != id ==> #[trigger] piles@[i] == before[i],
                    piles@[id as int] == before[id as int] + Seq::new(row as nat, |r: int| column_card(deck@, col as int, r)),
                decreases col + 1 - row,
            {
                let mut card = deck[next];
                if row == col {
                    card.face_up = true;
                }
                assert(card == column_card(deck@, col as int, row as int));
                assert(Seq::new((row + 1) as nat, |r: int| column_card(deck@, col as int, r))
                    =~= Seq::new(row as nat, |r: int| column_card(deck@, col as int, r)).push(card));
                piles.push_card(id, card);
                next = next + 1;
                row = row + 1;
            }
            col = col + 1;
        }
        assert(column_start(7) == 28);
        assert(next == 28);
        let ghost mid = piles@;
        while next < 52
            invariant
                piles.shapes() == sh,
                deck@.len() == 52,
                piles@.len() == 13,
                28 <= next <= 52,
                forall|i: int| 0 <= i < 13 && i != STOCK ==> #[trigger] piles@[i] == mid[i],
                piles@[STOCK as int] == mid[STOCK as int] + deck@.subrange(28, next as int),
            decreases 52 - next,
        {
            assert(deck@.subrange(28, next + 1) =~= deck@.subrange(28, next as int).push(deck@[next as int]));
            piles.push_card(STOCK, deck[next]);
            next = next + 1;
        }
        assert(piles@ =~= add_piles(start, klondike_deal_spec(deck@)));
    }

    /// The first automatic play to a foundation, if no tableau card is
    /// face-down.
    fn auto_complete_impl(&self, piles: &PileSet) -> (r: Option<Move>)
        requires
            piles@.len() == 13,
        ensures
            tableau_has_face_down(piles@) ==> r is None,
            !tableau_has_face_down(piles@) ==> match r {
                None => forall|j: int, f: int| !auto_candidate(piles@, j, f),
                Some(m) => exists|j: int, f: int| {
                    &&& auto_candidate(piles@, j, f)
                    &&& m == simple_spec(auto_source(j) as u8, 1, f as u8)
                    &&& forall|j2: int, f2: int| (j2 < j || (j2 == j && f2 < f)) ==> !auto_candidate(piles@, j2, f2)
                },
            },
    {
        let mut t: u8 = TABLEAU_FIRST;
        while t <= TABLEAU_LAST
            invariant
                piles@.len() == 13,
                TABLEAU_FIRST <= t <= TABLEAU_LAST + 1,
                forall|t2: int, i: int| TABLEAU_FIRST <= t2 < t && 0 <= i < piles@[t2].len() ==> (#[trigger] piles@[t2][i]).face_up,
            decreases TABLEAU_LAST + 1 - t,
        {
            let n = piles.pile_len(t);
            let mut i: usize = 0;
            while i < n
                invariant
                    piles@.len() == 13,
                    TABLEAU_FIRST <= t <= TABLEAU_LAST,
                    n == piles@[t as int].len(),
                    i <= n,
                    forall|t2: int, i2: int| TABLEAU_FIRST <= t2 < t && 0 <= i2 < piles@[t2].len() ==> (#[trigger] piles@[t2][i2]).face_up,
                    forall|i2: int| 0 <= i2 < i ==> (#[trigger] piles@[t as int][i2]).face_up,
                decreases n - i,
            {
                if !piles.card_at(t, i).face_up {
                    return None;
                }
                i = i + 1;
            }
            t = t + 1;
        }
        assert(!tableau_has_face_down(piles@));
        let mut j: usize = 0;
        while j < 8
            invariant
                piles@.len() == 13,
                j <= 8,
                !tableau_has_face_down(piles@),
                forall|j2: int, f2: int| j2 < j ==> !auto_candidate(piles@, j2, f2),
            decreases 8 - j,
        {
            let src: u8 = if j < 7 { TABLEAU_FIRST + j as u8 } else { WASTE };
            assert(src == auto_source(j as int));
            match piles.top_card(src) {
                None => {},
                Some(top) => {
                    if top.face_up {
                        let mut f: u8 = FOUND_FIRST;
                        while f <= FOUND_LAST
                            invariant
                                piles@.len() == 13,
                                j < 8,
                                src == auto_source(j as int),
                                top_of(piles@[src as int]) == Some(top),
                                top.face_up,
                                !tableau_has_face_down(piles@),
                                FOUND_FIRST <= f <= FOUND_LAST + 1,
                                forall|j2: int, f2: int| j2 < j ==> !auto_candidate(piles@, j2, f2),
                                forall|f2: int| f2 < f ==> !auto_candidate(piles@, j as int, f2),
                            decreases FOUND_LAST + 1 - f,
                        {
                            if foundation_accepts_exec(piles, f, &top) {
                                let m = Move::simple(src, 1, f);
                                assert(auto_candidate(piles@, j as int, f as int));
                                return Some(m);
                            }
                            f = f + 1;
                        }
                    }
                },
            }
            j = j + 1;
        }
        None
    }

    /// The move a single click on card `card_idx` of `pile` performs:
    /// a lone card goes to the first foundation that takes it, otherwise
    /// the run from the card goes to the leftmost tableau pile that takes it.
    fn single_click_impl(&self, piles: &PileSet, pile: u8, card_idx: usize) -> (r: Option<Move>)
        requires
            piles@.len() == 13,
            pile < 13,
        ensures
            ({
                let p = piles@;
                let idx = card_idx as int;
                if idx >= p[pile as int].len() || !p[pile as int][idx].face_up {
                    r is None
                } else if exists|d: u8| click_foundation_ok(self, p, pile, idx, d) {
                    exists|d: u8| {
                        &&& click_foundation_ok(self, p, pile, idx, d)
                        &&& r == Some(click_move(p, pile, idx, d))
                        &&& forall|d2: u8| d2 < d ==> !click_foundation_ok(self, p, pile, idx, d2)
                    }
                } else if exists|d: u8| click_tableau_ok(self, p, pile, idx, d) {
                    exists|d: u8| {
                        &&& click_tableau_ok(self, p, pile, idx, d)
                        &&& r == Some(click_move(p, pile, idx, d))
                        &&& forall|d2: u8| click_tableau_ok(self, p, pile, idx, d2) && d2 != d ==> screen_before(piles, d as int, d2 as int)
                    }
                } else {
                    r is None
                }
            }),
    {
        let ghost p = piles@;
        let ghost idx = card_idx as int;
        let n = piles.pile_len(pile);
        if card_idx >= n || !piles.card_at(pile, card_idx).face_up {
            return None;
        }
        let take = n - card_idx;
        let can_flip_source = is_tableau(pile) && card_idx > 0 && !piles.card_at(pile, card_idx - 1).face_up;
        if take == 1 {
            let mut dst: u8 = FOUND_FIRST;
            while dst <= FOUND_LAST
                invariant
                    piles@ == p,
                    p.len() == 13,
                    pile < 13,
                    idx == card_idx,
                    idx < p[pile as int].len(),
                    p[pile as int][idx].face_up,
                    take == p[pile as int].len() - idx,
                    take == 1,
                    can_flip_source == (is_tableau_spec(pile as int) && idx > 0 && !p[pile as int][idx - 1].face_up),
                    FOUND_FIRST <= dst <= FOUND_LAST + 1,
                    forall|d2: u8| d2 < dst ==> !click_foundation_ok(self, p, pile, idx, d2),
                decreases FOUND_LAST + 1 - dst,
            {
                if dst != pile {
                    let mut m = Move::simple(pile, 1, dst);
                    if can_flip_source {
                        m = m.with_flip_source();
                    }
                    assert(m == click_move(p, pile, idx, dst));
                    if self.legal_move(piles, &m) {
                        assert(click_foundation_ok(self, p, pile, idx, dst));
                        assert(exists|d: u8| click_foundation_ok(self, p, pile, idx, d));
                        assert(forall|d2: u8| d2 < dst ==> !click_foundation_ok(self, p, pile, idx, d2));
                        return Some(m);
                    }
                }
                dst = dst + 1;
            }
        }
        assert(forall|d: u8| !click_foundation_ok(self, p, pile, idx, d));
        let mut best: Option<u8> = None;
        let mut dst: u8 = TABLEAU_FIRST;
        while dst <= TABLEAU_LAST
            invariant
                piles@ == p,
                p.len() == 13,
                pile < 13,
                idx == card_idx,
                idx < p[pile as int].len(),
                p[pile as int][idx].face_up,
                forall|d: u8| !click_foundation_ok(self, p, pile, idx, d),
                take == p[pile as int].len() - idx,
                can_flip_source == (is_tableau_spec(pile as int) && idx > 0 && !p[pile as int][idx - 1].face_up),
                TABLEAU_FIRST <= dst <= TABLEAU_LAST + 1,
                match best {
                    None => forall|d2: u8| d2 < dst ==> !click_tableau_ok(self, p, pile, idx, d2),
                    Some(b) => {
                        &&& b < dst
                        &&& click_tableau_ok(self, p, pile, idx, b)
                        &&& forall|d2: u8| d2 < dst && click_tableau_ok(self, p, pile, idx, d2) && d2 != b ==> screen_before(piles, b as int, d2 as int)
                    },
                },
            decreases TABLEAU_LAST + 1 - dst,
        {
            if dst == pile {
                assert(!click_tableau_ok(self, p, pile, idx, dst));
            } else {
                let mut m = Move::simple(pile, take as u8, dst);
                if can_flip_source {
                    m = m.with_flip_source();
                }
                assert(m == click_move(p, pile, idx, dst));
                let ok = self.legal_move(piles, &m);
                assert(ok == click_tableau_ok(self, p, pile, idx, dst));
                if ok {
                    match best {
                        None => {
                            best = Some(dst);
                        },
                        Some(b) => {
                            let ob = piles.get(b).column_order;
                            let od = piles.get(dst).column_order;
                            if od < ob {
                                best = Some(dst);
                                proof {
                                    assert forall|d2: u8| d2 < dst + 1 && click_tableau_ok(self, p, pile, idx, d2) && d2 != dst implies screen_before(piles, dst as int, d2 as int) by {
                                        if d2 != b {
                                            assert(screen_before(piles, b as int, d2 as int));
                                        }
                                    }
                                }
                            } else {
                                proof {
                                    assert(screen_before(piles, b as int, dst as int));
                                }
                            }
                        },
                    }
                }
            }
            proof {
                match best {
                    None => {
                        assert forall|d2: u8| d2 < dst + 1 implies !click_tableau_ok(self, p, pile, idx, d2) by {
                            if d2 < dst {
                            } else {
                                assert(d2 == dst);
                            }
                        }
                    },
                    Some(b) => {
                        assert(b < dst + 1);
                        assert(click_tableau_ok(self, p, pile, idx, b));
                    },
                }
            }
            dst = dst + 1;
        }
        match best {
            None => None,
            Some(b) => {
                let mut m = Move::simple(pile, take as u8, b);
                if can_flip_source {
                    m = m.with_flip_source();
                }
                Some(m)
            },
        }
    }
}

impl GameRules for Klondike {
    open spec fn pile_count(&self) -> nat {
        13
    }

    fn pile_metas(&self) -> (r: Vec<PileMeta>)
        ensures
            r@ == Seq::new(13, |i: int| klondike_meta(i)),
    {
        klondike_metas()
    }

    open spec fn legal(&self, p: Seq<Seq<Card>>, m: Move) -> bool {
        klondike_legal(self.draw_count, p, m)
    }

    open spec fn won(&self, p: Seq<Seq<Card>>) -> bool {
        klondike_won(p)
    }

    open spec fn auto_next(&self, p: Seq<Seq<Card>>) -> Option<Move> {
        None
    }

    open spec fn auto_measure(&self, p: Seq<Seq<Card>>) -> nat {
        0
    }

    proof fn lemma_auto_next(&self, p: Seq<Seq<Card>>) {
    }

    /// Some order of the standard deck, dealt as `deal_from_deck` does.
    open spec fn dealt(&self, before: Seq<Seq<Card>>, after: Seq<Seq<Card>>) -> bool {
        exists|deck: Seq<Card>| {
            &&& deck.len() == 52
            &&& deck.to_multiset() == standard_deck_spec().to_multiset()
            &&& after == add_piles(before, klondike_deal_spec(deck))
        }
    }

    /// Shuffle a standard deck with `rng` and deal it with `deal_from_deck`.
    fn deal(&self, piles: &mut PileSet, rng: &mut StdRng)
        ensures
            exists|deck: Seq<Card>| {
                &&& deck.len() == 52
                &&& deck.to_multiset() == standard_deck_spec().to_multiset()
                &&& final(piles)@ == add_piles(old(piles)@, klondike_deal_spec(deck))
            },
    {
        let mut deck = standard_deck();
        shuffle_cards(&mut deck, rng);
        self.deal_from_deck(piles, &deck);
    }

    fn legal_move(&self, piles: &PileSet, m: &Move) -> (r: bool) {
        if m.take == 0 {
            return false;
        }
        let from_len = piles.pile_len(m.from);
        let take = m.take as usize;
        if from_len < take {
            return false;
        }
        if m.from == STOCK && m.to == WASTE {
            return m.take >= 1 && m.take <= self.draw_count && m.flip_moved;
        }
        if m.from == WASTE && m.to == STOCK {
            return from_len == take && m.reverse_order && m.flip_moved;
        }
        let from = piles.get(m.from);
        let start = from_len - take;
        proof {
            assert(top_part(piles@[m.from as int], take as int) =~= from.cards@.subrange(start as int, from_len as int));
        }
        if !all_face_up_from(from.cards.as_slice(), start) {
            return false;
        }
        let head = piles.card_at(m.from, start);
        if is_foundation(m.to) {
            if take != 1 {
                return false;
            }
            return foundation_accepts_exec(piles, m.to, &head);
        }
        if is_tableau(m.to) {
            if !valid_run_from(from.cards.as_slice(), start) {
                return false;
            }
            return tableau_accepts_exec(piles, m.to, &head);
        }
        false
    }

    fn auto_complete_step(&self, piles: &PileSet) -> (r: Option<Move>)
        ensures
            tableau_has_face_down(piles@) ==> r is None,
            !tableau_has_face_down(piles@) ==> match r {
                None => forall|j: int, f: int| !auto_candidate(piles@, j, f),
                Some(m) => exists|j: int, f: int| {
                    &&& auto_candidate(piles@, j, f)
                    &&& m == simple_spec(auto_source(j) as u8, 1, f as u8)
                    &&& forall|j2: int, f2: int| (j2 < j || (j2 == j && f2 < f)) ==> !auto_candidate(piles@, j2, f2)
                },
            },
    {
        let r = self.auto_complete_impl(piles);
        proof {
            if let Some(m) = r {
                let (j, f) = choose|j: int, f: int| {
                    &&& auto_candidate(piles@, j, f)
                    &&& m == simple_spec(auto_source(j) as u8, 1, f as u8)
                    &&& forall|j2: int, f2: int| (j2 < j || (j2 == j && f2 < f)) ==> !auto_candidate(piles@, j2, f2)
                };
                let src = auto_source(j);
                assert(top_part(piles@[src], 1) =~= seq![piles@[src].last()]);
            }
        }
        r
    }

    fn is_won(&self, piles: &PileSet) -> (r: bool) {
        let mut f: u8 = FOUND_FIRST;
        while f <= FOUND_LAST
            invariant
                piles@.len() == 13,
                FOUND_FIRST <= f <= FOUND_LAST + 1,
                forall|f2: int| FOUND_FIRST <= f2 < f ==> (#[trigger] piles@[f2]).len() == 13,
            decreases FOUND_LAST + 1 - f,
        {
            if piles.pile_len(f) != 13 {
                return false;
            }
            f = f + 1;
        }
        true
    }

    fn game_slug(&self) -> (s: &'static str)
        ensures
            s@ == "klondike"@,
    {
        "klondike"
    }

    /// A stock click dispenses `min(stock, draw_count)` cards to the waste;
    /// on an empty stock it recycles the whole waste back, reversed.
    fn on_pile_click(&self, piles: &PileSet, pile: u8) -> (r: Vec<Move>)
        ensures
            r@ == (if pile != STOCK {
                Seq::<Move>::empty()
            } else if piles@[STOCK as int].len() > 0 {
                let n = piles@[STOCK as int].len() as u8;
                let take = if n < self.draw_count { n } else { self.draw_count };
                seq![Move { flip_moved: true, ..simple_spec(STOCK, take, WASTE) }]
            } else if piles@[WASTE as int].len() > 0 {
                seq![Move {
                    flip_moved: true,
                    reverse_order: true,
                    ..simple_spec(WASTE, piles@[WASTE as int].len() as u8, STOCK)
                }]
            } else {
                Seq::<Move>::empty()
            }),
    {
        let mut out: Vec<Move> = Vec::new();
        if pile == STOCK {
            let stock_len = piles.pile_len(STOCK);
            if stock_len > 0 {
                let n = stock_len as u8;
                let take = if n < self.draw_count { n } else { self.draw_count };
                out.push(Move::simple(STOCK, take, WASTE).with_flip_moved());
                return out;
            }
            let waste_len = piles.pile_len(WASTE);
            if waste_len > 0 {
                out.push(Move {
                    from: WASTE,
                    take: waste_len as u8,
                    to: STOCK,
                    flip_moved: true,
                    flip_source_after: false,
                    reverse_order: true,
                    swap_with_top: false,
                });
                return out;
            }
        }
        out
    }

    fn single_click_move(&self, piles: &PileSet, pile: u8, card_idx: usize) -> (r: Option<Move>)
        ensures
            ({
                let p = piles@;
                let idx = card_idx as int;
                if idx >= p[pile as int].len() || !p[pile as int][idx].face_up {
                    r is None
                } else if exists|d: u8| click_foundation_ok(self, p, pile, idx, d) {
                    exists|d: u8| {
                        &&& click_foundation_ok(self, p, pile, idx, d)
                        &&& r == Some(click_move(p, pile, idx, d))
                        &&& forall|d2: u8| d2 < d ==> !click_foundation_ok(self, p, pile, idx, d2)
                    }
                } else if exists|d: u8| click_tableau_ok(self, p, pile, idx, d) {
                    exists|d: u8| {
                        &&& click_tableau_ok(self, p, pile, idx, d)
                        &&& r == Some(click_move(p, pile, idx, d))
                        &&& forall|d2: u8| click_tableau_ok(self, p, pile, idx, d2) && d2 != d ==> screen_before(piles, d as int, d2 as int)
                    }
                } else {
                    r is None
                }
            }),
    {
        self.single_click_impl(piles, pile, card_idx)
    }

    fn after_move(&self, piles: &PileSet) -> (r: Option<Move>) {
        None
    }
}

} // verus!
