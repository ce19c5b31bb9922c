//! Mom's Solitaire (Montana): a 13 x 4 board of single-card cells; Aces are
//! gaps, and a move swaps a card into a gap.

use vstd::prelude::*;

use rand::rngs::StdRng;

use super::klondike::add_piles;
use super::GameRules;
use crate::cards::card::{with_face, Card};
use crate::cards::deck::{standard_deck, standard_deck_spec};
use crate::cards::rank::{lemma_rank_of_value, lemma_rank_value, rank_down, rank_value, Rank};
use crate::cards::suit::Suit;
use crate::piles::pile::top_of;
use crate::piles::{PileKind, PileLayout, PileMeta, PileSet};
use crate::rng::{gen_range_u8, shuffle_cards};
use crate::session::moves::{simple_spec, Move};

verus! {

pub const COLS: u8 = 13;
pub const ROWS: u8 = 4;

/// Pile id of the cell in column `x`, row `y`.
pub open spec fn cell_id_spec(x: int, y: int) -> int {
    y * COLS + x
}

pub fn cell_id(x: u8, y: u8) -> (id: u8)
    requires
        cell_id_spec(x as int, y as int) < 256,
    ensures
        id == cell_id_spec(x as int, y as int),
        x < COLS && y < ROWS ==> id < 52,
{
    y * COLS + x
}

pub fn cell_x(id: u8) -> (x: u8)
    ensures
        x == id % COLS,
{
    id % COLS
}

pub fn cell_y(id: u8) -> (y: u8)
    ensures
        y == id / COLS,
{
    id / COLS
}

pub struct MomsSolitaire {}

impl MomsSolitaire {
    pub fn new() -> MomsSolitaire {
        MomsSolitaire {}
    }
}

/// The swap `m` is legal: a non-Ace card moves into an Ace gap; in column 0
/// only a King may, elsewhere only the card one rank below the gap's left
/// neighbour, in the same suit.
pub open spec fn moms_legal(p: Seq<Seq<Card>>, m: Move) -> bool {
    &&& m.swap_with_top
    &&& m.take == 1
    &&& m.from != m.to
    &&& top_of(p[m.from as int]) matches Some(fc)
    &&& top_of(p[m.to as int]) matches Some(tc)
    &&& tc.rank == Rank::Ace
    &&& fc.rank != Rank::Ace
    &&& if m.to % COLS == 0 {
        fc.rank == Rank::King
    } else {
        &&& top_of(p[m.to as int - 1]) matches Some(left)
        &&& left.rank != Rank::Ace
        &&& fc.suit == left.suit
        &&& Some(fc.rank) == rank_down(left.rank)
    }
}

/// Each row reads King down to Two in one suit from column 0 to 11.
pub open spec fn moms_won(p: Seq<Seq<Card>>) -> bool {
    forall|y: int| 0 <= y < ROWS ==> {
        &&& top_of(#[trigger] p[cell_id_spec(0, y)]) matches Some(k)
        &&& k.rank == Rank::King
        &&& forall|x: int| 1 <= x < 12 ==> {
            &&& top_of(#[trigger] p[cell_id_spec(x, y)]) matches Some(c)
            &&& c.suit == k.suit
            &&& rank_value(c.rank) == 13 - x
        }
    }
}

/// The piles a deal of `deck` adds: cell `i` gets card `i`.
pub open spec fn moms_deal_spec(deck: Seq<Card>) -> Seq<Seq<Card>> {
    Seq::new(52, |i: int| seq![deck[i]])
}

/// The standard deck, all face-up.
pub open spec fn moms_fresh_deck() -> Seq<Card> {
    Seq::new(52, |i: int| with_face(standard_deck_spec()[i], true))
}

/// Card at cell `(x, y)` of `board` sits in its final place, as do all the
/// cards to its left: suit of the row, rank King at column 0 down by one
/// per column.
pub open spec fn in_order_spec(board: Seq<Option<Card>>, x: int, y: int) -> bool {
    &&& board[cell_id_spec(x, y)] matches Some(c)
    &&& rank_value(c.rank) == 13 - x
    &&& forall|i: int| 0 <= i < x ==> {
        &&& (#[trigger] board[cell_id_spec(i, y)]) matches Some(o)
        &&& o.suit == c.suit
        &&& rank_value(o.rank) == 13 - i
    }
}

#[derive(Clone, Copy, Debug, PartialEq, Eq, Structural)]
pub enum ClickResolution {
    /// The click does nothing.
    Ignored,
    /// A column-0 gap was clicked: wait for the player to pick a King.
    StartWaitingForKing(u8),
    /// Apply this swap.
    ApplySwap(Move),
}

/// The card one rank lower in the same suit, if any.
fn one_rank_lower_same_suit(c: &Card) -> (r: Option<(Suit, Rank)>)
    ensures
        r == (match rank_down(c.rank) {
            Some(d) => Some((c.suit, d)),
            None => None,
        }),
{
    match c.rank.next_down() {
        Some(r) => Some((c.suit, r)),
        None => None,
    }
}

/// A standard deck turned face-up.
fn fresh_deck() -> (d: Vec<Card>)
    ensures
        d@ == moms_fresh_deck(),
{
    let mut d = standard_deck();
    let n = d.len();
    let mut i: usize = 0;
    while i < n
        invariant
            n == 52,
            d@.len() == 52,
            i <= n,
            forall|k: int| 0 <= k < 52 ==> #[trigger] d@[k] == (if k < i {
                with_face(standard_deck_spec()[k], true)
            } else {
                standard_deck_spec()[k]
            }),
        decreases n - i,
    {
        let c = d[i].face_up();
        d.set(i, c);
        i = i + 1;
    }
    assert(d@ =~= moms_fresh_deck());
    d
}

/// Pile metas of a Mom's Solitaire board: 52 stacked cells showing Aces as gaps.
/// Every cell of the Mom's Solitaire grid: a stacked single-card pile whose
/// Ace shows as a gap.
pub open spec fn moms_meta() -> PileMeta {
    PileMeta { kind: PileKind::Tableau, layout: PileLayout::Stacked, render_ace_as_gap: true }
}

pub fn moms_metas() -> (r: Vec<PileMeta>)
    ensures
        r@ == Seq::new(52, |i: int| moms_meta()),
{
    let mut out: Vec<PileMeta> = Vec::new();
    let mut i: usize = 0;
    while i < 52
        invariant
            i <= 52,
            out@.len() == i,
            forall|k: int| 0 <= k < i ==> #[trigger] out@[k] == moms_meta(),
        decreases 52 - i,
    {
        out.push(PileMeta { kind: PileKind::Tableau, layout: PileLayout::Stacked, render_ace_as_gap: true });
        i = i + 1;
    }
    assert(out@ =~= Seq::new(52, |i: int| moms_meta()));
    out
}

/// Whether the card at `(x, y)` of `board` and every card to its left are
/// in their final places.
pub fn card_is_in_order(board: &[Option<Card>], x: u8, y: u8) -> (r: bool)
    requires
        board@.len() == 52,
        x < COLS,
        y < ROWS,
    ensures
        r == in_order_spec(board@, x as int, y as int),
{
    let card = match board[cell_id(x, y) as usize] {
        Some(c) => c,
        None => {
            return false;
        },
    };
    if card.rank.as_u8() != 13 - x {
        return false;
    }
    let mut i: u8 = 0;
    while i < x
        invariant
            board@.len() == 52,
            x < COLS,
            y < ROWS,
            i <= x,
            board@[cell_id_spec(x as int, y as int)] == Some(card),
            forall|k: int| 0 <= k < i ==> {
                &&& (#[trigger] board@[cell_id_spec(k, y as int)]) matches Some(o)
                &&& o.suit == card.suit
                &&& rank_value(o.rank) == 13 - k
            },
        decreases x - i,
    {
        match board[cell_id(i, y) as usize] {
            None => {
                return false;
            },
            Some(o) => {
                if o.suit != card.suit || o.rank.as_u8() != 13 - i {
                    return false;
                }
            },
        }
        i = i + 1;
    }
    true
}

/// The card (if any) on top of each of the 52 cells.
pub open spec fn board_tops(p: Seq<Seq<Card>>) -> Seq<Option<Card>> {
    Seq::new(52, |i: int| top_of(p[i]))
}

/// `b` with cells `a` and `c` exchanged.
pub open spec fn swap_cells(b: Seq<Option<Card>>, a: int, c: int) -> Seq<Option<Card>> {
    b.update(a, b[c]).update(c, b[a])
}

/// `b` after the swaps of `swaps`, in order.
pub open spec fn apply_swaps(b: Seq<Option<Card>>, swaps: Seq<(u8, u8)>) -> Seq<Option<Card>>
    decreases swaps.len(),
{
    if swaps.len() == 0 {
        b
    } else {
        swap_cells(apply_swaps(b, swaps.drop_last()), swaps.last().0 as int, swaps.last().1 as int)
    }
}

/// Cell `id` of `b` holds its final card (with everything to its left).
pub open spec fn cell_in_order(b: Seq<Option<Card>>, id: int) -> bool {
    in_order_spec(b, id % (COLS as int), id / (COLS as int))
}

/// Cell `(x, y)` is cell `cell_id_spec(x, y)`, and back.
proof fn lemma_cell_coords(x: int, y: int)
    requires
        0 <= x < COLS,
        0 <= y,
    ensures
        cell_id_spec(x, y) % (COLS as int) == x,
        cell_id_spec(x, y) / (COLS as int) == y,
{
    assert((y * 13 + x) % 13 == x && (y * 13 + x) / 13 == y) by (nonlinear_arith)
        requires
            0 <= x < 13,
            0 <= y,
    ;
}

/// The swaps that shuffle the board: cells are scanned in id order, and
/// each one out of place is exchanged with a random other out-of-place
/// cell (found within a bounded number of draws). Claimed of every
/// outcome: each swap exchanges two distinct cells, both out of place on
/// the board as the earlier swaps left it, and each cell starts at most
/// one swap, in increasing id order.
pub fn compute_shuffle_swaps(piles: &PileSet, rng: &mut StdRng) -> (swaps: Vec<(u8, u8)>)
    requires
        piles@.len() == 52,
    ensures
        forall|i: int| 0 <= i < swaps@.len() ==> (#[trigger] swaps@[i]).0 < 52 && swaps@[i].1 < 52 && swaps@[i].0 != swaps@[i].1,
        forall|i: int, j: int| 0 <= i < j < swaps@.len() ==> (#[trigger] swaps@[i]).0 < (#[trigger] swaps@[j]).0,
        forall|i: int| 0 <= i < swaps@.len() ==> {
            &&& !cell_in_order(apply_swaps(board_tops(piles@), swaps@.take(i)), (#[trigger] swaps@[i]).0 as int)
            &&& !cell_in_order(apply_swaps(board_tops(piles@), swaps@.take(i)), swaps@[i].1 as int)
        },
{
    let ghost initial = board_tops(piles@);
    let mut board: Vec<Option<Card>> = Vec::new();
    let mut id: u8 = 0;
    while id < 52
        invariant
            piles@.len() == 52,
            id <= 52,
            board@.len() == id,
            forall|k: int| 0 <= k < id ==> #[trigger] board@[k] == top_of(piles@[k]),
        decreases 52 - id,
    {
        board.push(piles.top_card(id));
        id = id + 1;
    }
    assert(board@ =~= initial);
    let mut swaps: Vec<(u8, u8)> = Vec::new();
    let mut y: u8 = 0;
    while y < ROWS
        invariant
            board@.len() == 52,
            y <= ROWS,
            board@ == apply_swaps(initial, swaps@),
            forall|i: int| 0 <= i < swaps@.len() ==> (#[trigger] swaps@[i]).0 < 52 && swaps@[i].1 < 52 && swaps@[i].0 != swaps@[i].1,
            forall|i: int, j: int| 0 <= i < j < swaps@.len() ==> (#[trigger] swaps@[i]).0 < (#[trigger] swaps@[j]).0,
            forall|i: int| 0 <= i < swaps@.len() ==> (#[trigger] swaps@[i]).0 < y * COLS,
            forall|i: int| 0 <= i < swaps@.len() ==> {
                &&& !cell_in_order(apply_swaps(initial, swaps@.take(i)), (#[trigger] swaps@[i]).0 as int)
                &&& !cell_in_order(apply_swaps(initial, swaps@.take(i)), swaps@[i].1 as int)
            },
        decreases ROWS - y,
    {
        let mut x: u8 = 0;
        while x < COLS
            invariant
                board@.len() == 52,
                y < ROWS,
                x <= COLS,
                board@ == apply_swaps(initial, swaps@),
                forall|i: int| 0 <= i < swaps@.len() ==> (#[trigger] swaps@[i]).0 < 52 && swaps@[i].1 < 52 && swaps@[i].0 != swaps@[i].1,
                forall|i: int, j: int| 0 <= i < j < swaps@.len() ==> (#[trigger] swaps@[i]).0 < (#[trigger] swaps@[j]).0,
                forall|i: int| 0 <= i < swaps@.len() ==> (#[trigger] swaps@[i]).0 < y * COLS + x,
                forall|i: int| 0 <= i < swaps@.len() ==> {
                    &&& !cell_in_order(apply_swaps(initial, swaps@.take(i)), (#[trigger] swaps@[i]).0 as int)
                    &&& !cell_in_order(apply_swaps(initial, swaps@.take(i)), swaps@[i].1 as int)
                },
            decreases COLS - x,
        {
            let id = cell_id(x, y);
            proof {
                lemma_cell_coords(x as int, y as int);
            }
            if !card_is_in_order(board.as_slice(), x, y) {
                let mut other_id = id;
                let mut tries: u32 = 0;
                while tries < 100_000
                    invariant
                        board@.len() == 52,
                        other_id < 52,
                        other_id == id || !cell_in_order(board@, other_id as int),
                    decreases 100_000 - tries,
                {
                    let ox = gen_range_u8(rng, 0, COLS);
                    let oy = gen_range_u8(rng, 0, ROWS);
                    if !card_is_in_order(board.as_slice(), ox, oy) {
                        other_id = cell_id(ox, oy);
                        proof {
                            lemma_cell_coords(ox as int, oy as int);
                        }
                        break;
                    }
                    tries = tries + 1;
                }
                if other_id != id {
                    let ghost before = swaps@;
                    let a = board[id as usize];
                    let b = board[other_id as usize];
                    board.set(id as usize, b);
                    board.set(other_id as usize, a);
                    swaps.push((id, other_id));
                    proof {
                        assert(swaps@.drop_last() =~= before);
                        assert(board@ =~= swap_cells(apply_swaps(initial, before), id as int, other_id as int));
                        assert forall|i: int| 0 <= i < swaps@.len() implies {
                            &&& !cell_in_order(apply_swaps(initial, swaps@.take(i)), (#[trigger] swaps@[i]).0 as int)
                            &&& !cell_in_order(apply_swaps(initial, swaps@.take(i)), swaps@[i].1 as int)
                        } by {
                            if i < before.len() {
                                assert(swaps@.take(i) =~= before.take(i));
                                assert(swaps@[i] == before[i]);
                            } else {
                                assert(swaps@.take(i) =~= before);
                            }
                        }
                    }
                }
            }
            x = x + 1;
        }
        y = y + 1;
    }
    swaps
}

/// What a click on cell `clicked` does, given the column-0 gap the player
/// may be waiting to fill with a King.
pub open spec fn resolve_click_spec(p: Seq<Seq<Card>>, clicked: int, waiting: Option<u8>) -> ClickResolution {
    match top_of(p[clicked]) {
        None => ClickResolution::Ignored,
        Some(top) => match waiting {
            Some(gap) => if top.rank == Rank::King {
                ClickResolution::ApplySwap(Move { take: 1, swap_with_top: true, ..simple_spec(clicked as u8, 1, gap) })
            } else {
                ClickResolution::Ignored
            },
            None => if top.rank != Rank::Ace {
                ClickResolution::Ignored
            } else if clicked % (COLS as int) == 0 {
                ClickResolution::StartWaitingForKing(clicked as u8)
            } else {
                match top_of(p[clicked - 1]) {
                    None => ClickResolution::Ignored,
                    Some(left) => if left.rank == Rank::Ace || left.rank == Rank::Two {
                        ClickResolution::Ignored
                    } else {
                        match first_holder(p, clicked, left.suit, rank_down(left.rank).unwrap(), 0) {
                            Some(id) => ClickResolution::ApplySwap(
                                Move { take: 1, swap_with_top: true, ..simple_spec(id as u8, 1, clicked as u8) }),
                            None => ClickResolution::Ignored,
                        }
                    },
                }
            },
        },
    }
}

/// Whether the pile's top card is `(suit, rank)`.
pub open spec fn top_is(pile: Seq<Card>, suit: Suit, rank: Rank) -> bool {
    match top_of(pile) {
        Some(c) => c.suit == suit && c.rank == rank,
        None => false,
    }
}

/// The first cell at or after `id`, other than `skip`, whose top card is
/// `(suit, rank)`.
pub open spec fn first_holder(p: Seq<Seq<Card>>, skip: int, suit: Suit, rank: Rank, id: int) -> Option<int>
    decreases 52 - id,
{
    if id >= 52 || id < 0 {
        None
    } else if id != skip && top_is(p[id], suit, rank) {
        Some(id)
    } else {
        first_holder(p, skip, suit, rank, id + 1)
    }
}

/// Resolve a click: with a column-0 gap pending, a King fills it; otherwise
/// clicking a gap pulls in the card one rank below its left neighbour.
pub fn resolve_click(piles: &PileSet, clicked: u8, currently_waiting: Option<u8>) -> (r: ClickResolution)
    requires
        piles@.len() == 52,
        clicked < 52,
    ensures
        r == resolve_click_spec(piles@, clicked as int, currently_waiting),
{
    let top = match piles.top_card(clicked) {
        None => {
            return ClickResolution::Ignored;
        },
        Some(t) => t,
    };
    match currently_waiting {
        Some(gap) => {
            if top.rank == Rank::King {
                return ClickResolution::ApplySwap(Move::swap(clicked, gap));
            }
            return ClickResolution::Ignored;
        },
        None => {},
    }
    if top.rank != Rank::Ace {
        return ClickResolution::Ignored;
    }
    let x = cell_x(clicked);
    let y = cell_y(clicked);
    if x == 0 {
        return ClickResolution::StartWaitingForKing(clicked);
    }
    let left_id = cell_id(x - 1, y);
    assert(left_id == clicked - 1);
    let left = match piles.top_card(left_id) {
        None => {
            return ClickResolution::Ignored;
        },
        Some(l) => l,
    };
    if left.rank == Rank::Ace || left.rank == Rank::Two {
        return ClickResolution::Ignored;
    }
    let (want_suit, want_rank) = match one_rank_lower_same_suit(&left) {
        None => {
            return ClickResolution::Ignored;
        },
        Some(w) => w,
    };
    let mut id: u8 = 0;
    while id < 52
        invariant
            piles@.len() == 52,
            clicked < 52,
            id <= 52,
            want_suit == left.suit,
            Some(want_rank) == rank_down(left.rank),
            currently_waiting is None,
            top_of(piles@[clicked as int]) == Some(top),
            top.rank == Rank::Ace,
            clicked % COLS != 0,
            top_of(piles@[clicked - 1]) == Some(left),
            left.rank != Rank::Ace && left.rank != Rank::Two,
            first_holder(piles@, clicked as int, want_suit, want_rank, 0) == first_holder(piles@, clicked as int, want_suit, want_rank, id as int),
        decreases 52 - id,
    {
        if id != clicked {
            match piles.top_card(id) {
                Some(c) => {
                    if c.suit == want_suit && c.rank == want_rank {
                        assert(top_is(piles@[id as int], want_suit, want_rank));
                        assert(first_holder(piles@, clicked as int, want_suit, want_rank, id as int) == Some(id as int));
                        return ClickResolution::ApplySwap(Move::swap(id, clicked));
                    }
                },
                None => {},
            }
        }
        id = id + 1;
    }
    ClickResolution::Ignored
}

impl MomsSolitaire {
    /// Deal `deck` (52 cards): cell `i` gets card `i`.
    pub fn deal_from_deck(&self, piles: &mut PileSet, deck: &Vec<Card>)
        requires
            old(piles)@.len() == 52,
            deck@.len() == 52,
        ensures
            final(piles)@ == add_piles(old(piles)@, moms_deal_spec(deck@)),
            final(piles).shapes() == old(piles).shapes(),
    {
        let ghost start = piles@;
        let ghost sh = piles.shapes();
        let mut y: u8 = 0;
        while y < ROWS
            invariant
                piles.shapes() == sh,
                start.len() == 52,
                piles@.len() == 52,
                deck@.len() == 52,
                y <= ROWS,
                forall|i: int| 0 <= i < 52 ==> #[trigger] piles@[i] == (if i < y * COLS { start[i].push(deck@[i]) } else { start[i] }),
            decreases ROWS - y,
        {
            let mut x: u8 = 0;
            while x < COLS
                invariant
                    piles.shapes() == sh,
                    start.len() == 52,
                    piles@.len() == 52,
                    deck@.len() == 52,
                    y < ROWS,
                    x <= COLS,
                    forall|i: int| 0 <= i < 52 ==> #[trigger] piles@[i] == (if i < y * COLS + x { start[i].push(deck@[i]) } else { start[i] }),
                decreases COLS - x,
            {
                let id = cell_id(x, y);
                piles.push_card(id, deck[id as usize]);
                x = x + 1;
            }
            y = y + 1;
        }
        assert forall|i: int| 0 <= i < 52 implies start[i].push(deck@[i]) == #[trigger] add_piles(start, moms_deal_spec(deck@))[i] by {
            assert(start[i] + seq![deck@[i]] =~= start[i].push(deck@[i]));
        }
        assert(piles@ =~= add_piles(start, moms_deal_spec(deck@)));
    }
}

impl GameRules for MomsSolitaire {
    open spec fn pile_count(&self) -> nat {
        52
    }

    fn pile_metas(&self) -> (r: Vec<PileMeta>)
        ensures
            r@ == Seq::new(52, |i: int| moms_meta()),
    {
        moms_metas()
    }

    open spec fn legal(&self, p: Seq<Seq<Card>>, m: Move) -> bool {
        moms_legal(p, m)
    }

    open spec fn won(&self, p: Seq<Seq<Card>>) -> bool {
        moms_won(p)
    }

    open spec fn auto_next(&self, p: Seq<Seq<Card>>) -> Option<Move> {
        None
    }

    open spec fn auto_measure(&self, p: Seq<Seq<Card>>) -> nat {
        0
    }

    proof fn lemma_auto_next(&self, p: Seq<Seq<Card>>) {
    }

    /// Some order of the face-up standard deck, card `i` in cell `i`.
    open spec fn dealt(&self, before: Seq<Seq<Card>>, after: Seq<Seq<Card>>) -> bool {
        exists|deck: Seq<Card>| {
            &&& deck.len() == 52
            &&& deck.to_multiset() == moms_fresh_deck().to_multiset()
            &&& after == add_piles(before, moms_deal_spec(deck))
        }
    }

    /// Shuffle a face-up standard deck with `rng`; cell `i` gets card `i`.
    fn deal(&self, piles: &mut PileSet, rng: &mut StdRng)
        ensures
            exists|deck: Seq<Card>| {
                &&& deck.len() == 52
                &&& deck.to_multiset() == moms_fresh_deck().to_multiset()
                &&& final(piles)@ == add_piles(old(piles)@, moms_deal_spec(deck))
            },
    {
        let mut deck = fresh_deck();
        shuffle_cards(&mut deck, rng);
        self.deal_from_deck(piles, &deck);
    }

    fn legal_move(&self, piles: &PileSet, m: &Move) -> (r: bool) {
        if !m.swap_with_top || m.take != 1 {
            return false;
        }
        if m.from == m.to {
            return false;
        }
        let from_card = match piles.top_card(m.from) {
            Some(c) => c,
            None => {
                return false;
            },
        };
        let to_card = match piles.top_card(m.to) {
            Some(c) => c,
            None => {
                return false;
            },
        };
        if to_card.rank != Rank::Ace || from_card.rank == Rank::Ace {
            return false;
        }
        let dst_x = cell_x(m.to);
        let dst_y = cell_y(m.to);
        if dst_x == 0 {
            return from_card.rank == Rank::King;
        }
        let left_id = cell_id(dst_x - 1, dst_y);
        assert(left_id == m.to - 1);
        let left_card = match piles.top_card(left_id) {
            Some(c) => c,
            None => {
                return false;
            },
        };
        if left_card.rank == Rank::Ace {
            return false;
        }
        match one_rank_lower_same_suit(&left_card) {
            None => false,
            Some((want_suit, want_rank)) => from_card.suit == want_suit && from_card.rank == want_rank,
        }
    }

    fn auto_complete_step(&self, piles: &PileSet) -> (r: Option<Move>)
        ensures
            r is None,
    {
        None
    }

    fn is_won(&self, piles: &PileSet) -> (r: bool) {
        let mut y: u8 = 0;
        while y < ROWS
            invariant
                piles@.len() == 52,
                y <= ROWS,
                forall|y2: int| 0 <= y2 < y ==> {
                    &&& top_of(#[trigger] piles@[cell_id_spec(0, y2)]) matches Some(k)
                    &&& k.rank == Rank::King
                    &&& forall|x: int| 1 <= x < 12 ==> {
                        &&& top_of(#[trigger] piles@[cell_id_spec(x, y2)]) matches Some(c)
                        &&& c.suit == k.suit
                        &&& rank_value(c.rank) == 13 - x
                    }
                },
            decreases ROWS - y,
        {
            let k = match piles.top_card(cell_id(0, y)) {
                Some(c) => c,
                None => {
                    return false;
                },
            };
            if k.rank != Rank::King {
                return false;
            }
            let mut x: u8 = 1;
            while x < 12
                invariant
                    piles@.len() == 52,
                    y < ROWS,
                    1 <= x <= 12,
                    top_of(piles@[cell_id_spec(0, y as int)]) == Some(k),
                    k.rank == Rank::King,
                    forall|x2: int| 1 <= x2 < x ==> {
                        &&& top_of(#[trigger] piles@[cell_id_spec(x2, y as int)]) matches Some(c)
                        &&& c.suit == k.suit
                        &&& rank_value(c.rank) == 13 - x2
                    },
                decreases 12 - x,
            {
                let c = match piles.top_card(cell_id(x, y)) {
                    Some(c) => c,
                    None => {
                        return false;
                    },
                };
                if c.suit != k.suit || c.rank.as_u8() != 13 - x {
                    return false;
                }
                x = x + 1;
            }
            y = y + 1;
        }
        true
    }

    fn game_slug(&self) -> (s: &'static str)
        ensures
            s@ == "moms"@,
    {
        "moms"
    }

    fn on_pile_click(&self, piles: &PileSet, pile: u8) -> (r: Vec<Move>)
        ensures
            r@.len() == 0,
    {
        Vec::new()
    }

    fn single_click_move(&self, piles: &PileSet, pile: u8, card_idx: usize) -> (r: Option<Move>)
        ensures
            r is None,
    {
        None
    }

    fn after_move(&self, piles: &PileSet) -> (r: Option<Move>) {
        None
    }
}

/// What `first_holder` finds is a cell of the board, not `skip`, holding
/// `(suit, rank)` on top.
proof fn lemma_first_holder(p: Seq<Seq<Card>>, skip: int, suit: Suit, rank: Rank, id: int)
    ensures
        first_holder(p, skip, suit, rank, id) matches Some(h) ==> {
            &&& 0 <= h < 52
            &&& h != skip
            &&& top_is(p[h], suit, rank)
        },
    decreases 52 - id,
{
    if 0 <= id < 52 && !(id != skip && top_is(p[id], suit, rank)) {
        lemma_first_holder(p, skip, suit, rank, id + 1);
    }
}

/// A click that swaps moves one card into the gap in question, the
/// column-0 gap waited for or else the clicked one, and the swap is a
/// legal move; a click that starts waiting does so on a column-0 Ace when
/// nothing was waited for.
pub proof fn law_click_resolves_legally(p: Seq<Seq<Card>>, clicked: int, waiting: Option<u8>)
    requires
        p.len() == 52,
        0 <= clicked < 52,
        waiting matches Some(g) ==> {
            &&& g < 52
            &&& g % COLS == 0
            &&& top_of(p[g as int]) matches Some(t)
            &&& t.rank == Rank::Ace
        },
    ensures
        match resolve_click_spec(p, clicked, waiting) {
            ClickResolution::ApplySwap(m) => {
                &&& m.swap_with_top
                &&& m.take == 1
                &&& m.to == (match waiting {
                    Some(g) => g,
                    None => clicked as u8,
                })
                &&& moms_legal(p, m)
            },
            ClickResolution::StartWaitingForKing(c) => {
                &&& c == clicked
                &&& waiting is None
                &&& clicked % (COLS as int) == 0
                &&& top_of(p[clicked]) matches Some(t)
                &&& t.rank == Rank::Ace
            },
            ClickResolution::Ignored => true,
        },
{
    match top_of(p[clicked]) {
        None => {},
        Some(top) => match waiting {
            Some(gap) => {},
            None => {
                if top.rank == Rank::Ace && clicked % (COLS as int) != 0 {
                    match top_of(p[clicked - 1]) {
                        None => {},
                        Some(left) => {
                            if left.rank != Rank::Ace && left.rank != Rank::Two {
                                lemma_rank_value(left.rank);
                                lemma_rank_of_value(rank_value(left.rank) - 1);
                                let want = rank_down(left.rank).unwrap();
                                lemma_first_holder(p, clicked, left.suit, want, 0);
                            }
                        },
                    }
                }
            },
        },
    }
}

/// A holder of `(suit, rank)` at or after `id` other than `skip` makes
/// `first_holder` find one.
proof fn lemma_first_holder_found(p: Seq<Seq<Card>>, skip: int, suit: Suit, rank: Rank, id: int, h: int)
    requires
        0 <= id <= h < 52,
        h != skip,
        top_is(p[h], suit, rank),
    ensures
        first_holder(p, skip, suit, rank, id) is Some,
    decreases h - id,
{
    if !(id != skip && top_is(p[id], suit, rank)) {
        lemma_first_holder_found(p, skip, suit, rank, id + 1, h);
    }
}

/// Clicking a gap outside column 0, with nothing waited for, pulls in the
/// card one rank below the gap's left neighbour, of the same suit, when
/// that neighbour is a Three or higher and the card lies in another cell:
/// the click swaps that card into the clicked gap.
pub proof fn law_click_fills_gap(p: Seq<Seq<Card>>, clicked: int, h: int)
    requires
        p.len() == 52,
        0 <= clicked < 52,
        clicked % (COLS as int) != 0,
        top_of(p[clicked]) matches Some(gap) && gap.rank == Rank::Ace,
        top_of(p[clicked - 1]) matches Some(left) && rank_value(left.rank) >= 3,
        0 <= h < 52,
        h != clicked,
        top_of(p[h]) matches Some(c) && c.suit == top_of(p[clicked - 1]).unwrap().suit && rank_value(c.rank)
            == rank_value(top_of(p[clicked - 1]).unwrap().rank) - 1,
    ensures
        resolve_click_spec(p, clicked, None) matches ClickResolution::ApplySwap(m) && {
            &&& m.swap_with_top
            &&& m.take == 1
            &&& m.to == clicked
            &&& m.from != clicked
            &&& top_of(p[m.from as int]) matches Some(mc)
            &&& mc.suit == top_of(p[clicked - 1]).unwrap().suit
            &&& rank_value(mc.rank) == rank_value(top_of(p[clicked - 1]).unwrap().rank) - 1
        },
{
    let left = top_of(p[clicked - 1]).unwrap();
    let c = top_of(p[h]).unwrap();
    lemma_rank_value(left.rank);
    lemma_rank_value(c.rank);
    lemma_rank_of_value(rank_value(left.rank) - 1);
    let want = rank_down(left.rank).unwrap();
    assert(c.rank == want) by {
        lemma_rank_of_value(rank_value(c.rank));
    }
    assert(top_is(p[h], left.suit, want));
    lemma_first_holder_found(p, clicked, left.suit, want, 0, h);
    lemma_first_holder(p, clicked, left.suit, want, 0);
    let id = first_holder(p, clicked, left.suit, want, 0).unwrap();
    assert(top_is(p[id], left.suit, want));
    assert(left.rank != Rank::Ace && left.rank != Rank::Two);
}

} // verus!
