//! FreeCell: 4 free cells, 4 foundations, 8 cascades; everything face-up.

use vstd::prelude::*;

use rand::rngs::StdRng;

use super::klondike::{
    add_piles, all_face_up, all_face_up_from, alt_color_desc, alt_color_descending, alt_run,
    foundation_accepts, foundation_accepts_exec, screen_before, top_part, valid_run_from,
};
use super::ms_freecell::{deal_columns, ms_column};
use super::GameRules;
use crate::cards::card::{with_face, Card};
use crate::cards::deck::{standard_deck, standard_deck_spec};
use crate::piles::pile::top_of;
use crate::piles::{PileKind, PileLayout, PileMeta, PileSet};
use crate::rng::shuffle_cards;
use crate::session::moves::{simple_spec, Move};

verus! {

pub const CELL_FIRST: u8 = 0;
pub const CELL_LAST: u8 = 3;
pub const FOUND_FIRST: u8 = 4;
pub const FOUND_LAST: u8 = 7;
pub const CASCADE_FIRST: u8 = 8;
pub const CASCADE_LAST: u8 = 15;

pub struct FreeCell {
    /// When set, deal Microsoft FreeCell game number `n` instead of a
    /// random shuffle.
    pub ms_game_number: Option<u32>,
}

impl FreeCell {
    pub fn new() -> (f: FreeCell)
        ensures
            f.ms_game_number is None,
    {
        FreeCell { ms_game_number: None }
    }

    pub fn with_ms_game_number(n: u32) -> (f: FreeCell)
        ensures
            f.ms_game_number == Some(n),
    {
        FreeCell { ms_game_number: Some(n) }
    }
}

pub open spec fn is_cell_spec(id: int) -> bool {
    CELL_FIRST <= id <= CELL_LAST
}

pub open spec fn is_foundation_spec(id: int) -> bool {
    FOUND_FIRST <= id <= FOUND_LAST
}

pub open spec fn is_cascade_spec(id: int) -> bool {
    CASCADE_FIRST <= id <= CASCADE_LAST
}

/// Number of empty piles among ids `lo..hi`, not counting `skip`.
pub open spec fn count_empty(p: Seq<Seq<Card>>, lo: int, hi: int, skip: int) -> nat
    decreases hi - lo,
{
    if hi <= lo {
        0
    } else {
        count_empty(p, lo, hi - 1, skip) + (if hi - 1 != skip && p[hi - 1].len() == 0 { 1nat } else { 0nat })
    }
}

/// `2^n`.
pub open spec fn pow2(n: nat) -> nat
    decreases n,
{
    if n == 0 {
        1
    } else {
        2 * pow2((n - 1) as nat)
    }
}

/// Longest run a single drag may move onto `dest`:
/// `(1 + empty cells) * 2^(empty cascades other than dest)`.
pub open spec fn max_movable_spec(p: Seq<Seq<Card>>, dest: int) -> nat {
    (1 + count_empty(p, CELL_FIRST as int, CELL_LAST + 1, -1)) * pow2(count_empty(p, CASCADE_FIRST as int, CASCADE_LAST + 1, dest))
}

/// FreeCell's legality rule.
pub open spec fn freecell_legal(p: Seq<Seq<Card>>, m: Move) -> bool {
    let f = p[m.from as int];
    let take = m.take as int;
    if take == 0 || f.len() < take {
        false
    } else {
        let moved = top_part(f, take);
        if !all_face_up(moved) {
            false
        } else if is_foundation_spec(m.to as int) {
            take == 1 && foundation_accepts(p[m.to as int], moved[0])
        } else if is_cell_spec(m.to as int) {
            take == 1 && p[m.to as int].len() == 0
        } else if is_cascade_spec(m.to as int) {
            &&& alt_run(moved)
            &&& take <= max_movable_spec(p, m.to as int)
            &&& match top_of(p[m.to as int]) {
                None => true,
                Some(t) => alt_color_desc(t, moved[0]),
            }
        } else {
            false
        }
    }
}

/// No pile among `lo..hi` other than `skip` is empty: none counts.
proof fn lemma_count_none_empty(p: Seq<Seq<Card>>, lo: int, hi: int, skip: int)
    requires
        forall|i: int| lo <= i < hi && i != skip ==> (#[trigger] p[i]).len() > 0,
    ensures
        count_empty(p, lo, hi, skip) == 0,
    decreases hi - lo,
{
    if hi > lo {
        lemma_count_none_empty(p, lo, hi - 1, skip);
    }
}

/// Empty piles among `lo..hi`, the one at `skip` counted or not as it is
/// empty: counting it adds one exactly when it is an empty pile in range.
proof fn lemma_count_skip(p: Seq<Seq<Card>>, lo: int, hi: int, skip: int)
    requires
        lo >= 0,
    ensures
        count_empty(p, lo, hi, -1) == count_empty(p, lo, hi, skip) + (if lo <= skip < hi && p[skip].len() == 0 && skip != -1 {
            1nat
        } else {
            0nat
        }),
    decreases hi - lo,
{
    if hi > lo {
        lemma_count_skip(p, lo, hi - 1, skip);
        assert(count_empty(p, lo, hi, -1) == count_empty(p, lo, hi - 1, -1) + (if p[hi - 1].len() == 0 { 1nat } else { 0nat }));
    }
}

/// How long a run one drag may move onto a cascade: one card, plus one
/// per empty free cell, doubled for each empty cascade other than the
/// destination (the destination itself is where the run lands, not
/// scratch space). In particular, with every free cell full and no empty
/// cascade but the destination, a single card at most.
pub proof fn law_run_capacity(p: Seq<Seq<Card>>, m: Move)
    requires
        p.len() == 16,
        is_cascade_spec(m.to as int),
        freecell_legal(p, m),
    ensures
        m.take <= (1 + count_empty(p, CELL_FIRST as int, CELL_LAST + 1, -1)) * pow2(
            (count_empty(p, CASCADE_FIRST as int, CASCADE_LAST + 1, -1) - (if p[m.to as int].len() == 0 {
                1int
            } else {
                0int
            })) as nat,
        ),
        (forall|c: int| CELL_FIRST <= c <= CELL_LAST ==> (#[trigger] p[c]).len() > 0) && (forall|k: int|
            CASCADE_FIRST <= k <= CASCADE_LAST && k != m.to ==> (#[trigger] p[k]).len() > 0) ==> m.take <= 1,
{
    lemma_count_skip(p, CASCADE_FIRST as int, CASCADE_LAST + 1, m.to as int);
    if (forall|c: int| CELL_FIRST <= c <= CELL_LAST ==> (#[trigger] p[c]).len() > 0) && (forall|k: int|
        CASCADE_FIRST <= k <= CASCADE_LAST && k != m.to ==> (#[trigger] p[k]).len() > 0) {
        lemma_count_none_empty(p, CELL_FIRST as int, CELL_LAST + 1, -1);
        lemma_count_none_empty(p, CASCADE_FIRST as int, CASCADE_LAST + 1, m.to as int);
        assert(pow2(0) == 1);
    }
}

pub open spec fn freecell_won(p: Seq<Seq<Card>>) -> bool {
    forall|f: int| FOUND_FIRST <= f <= FOUND_LAST ==> (#[trigger] p[f]).len() == 13
}

/// First deck index dealt to cascade `c`.
pub open spec fn cascade_start(c: int) -> int {
    if c < 4 {
        7 * c
    } else {
        28 + 6 * (c - 4)
    }
}

pub open spec fn cascade_len(c: int) -> int {
    if c < 4 {
        7
    } else {
        6
    }
}

/// The piles a random FreeCell deal of `deck` adds: cascade `c` gets the
/// next 7 (first four) or 6 (last four) cards, all face-up.
pub open spec fn freecell_deal_spec(deck: Seq<Card>) -> Seq<Seq<Card>> {
    Seq::new(16, |i: int| {
        if is_cascade_spec(i) {
            let c = i - CASCADE_FIRST;
            Seq::new(cascade_len(c) as nat, |r: int| with_face(deck[cascade_start(c) + r], true))
        } else {
            Seq::empty()
        }
    })
}

/// The piles a Microsoft deal of game `n` adds.
pub open spec fn freecell_ms_deal_spec(n: u32) -> Seq<Seq<Card>> {
    Seq::new(16, |i: int| if is_cascade_spec(i) { ms_column(n, i - CASCADE_FIRST) } else { Seq::empty() })
}

/// Auto-complete source `j` (0..12): cascades 8..=15, then cells 0..=3.
pub open spec fn fc_auto_source(j: int) -> int {
    if j < 8 {
        CASCADE_FIRST + j
    } else {
        j - 8
    }
}

pub open spec fn fc_auto_candidate(p: Seq<Seq<Card>>, j: int, f: int) -> bool {
    &&& 0 <= j < 12
    &&& FOUND_FIRST <= f <= FOUND_LAST
    &&& top_of(p[fc_auto_source(j)]) matches Some(t)
    &&& foundation_accepts(p[f], t)
}

pub open spec fn fc_click_move(p: Seq<Seq<Card>>, pile: u8, idx: int, dst: u8) -> Move {
    simple_spec(pile, (p[pile as int].len() - idx) as u8, dst)
}

/// A click can send the card to foundation or free cell `dst` (ids `lo..=hi`).
pub open spec fn fc_click_single_ok(p: Seq<Seq<Card>>, pile: u8, idx: int, dst: u8, lo: u8, hi: u8) -> bool {
    &&& lo <= dst <= hi
    &&& dst != pile
    &&& p[pile as int].len() - idx == 1
    &&& freecell_legal(p, fc_click_move(p, pile, idx, dst))
}

pub open spec fn fc_click_cascade_ok(p: Seq<Seq<Card>>, pile: u8, idx: int, dst: u8) -> bool {
    &&& CASCADE_FIRST <= dst <= CASCADE_LAST
    &&& dst != pile
    &&& freecell_legal(p, fc_click_move(p, pile, idx, dst))
}

/// The pile metas of a FreeCell board.
/// Pile `i` of a FreeCell board: four cells, four foundations, then
/// eight fanned cascades.
pub open spec fn freecell_meta(i: int) -> PileMeta {
    if i < 4 {
        PileMeta { kind: PileKind::Cell, layout: PileLayout::Stacked, render_ace_as_gap: false }
    } else if i < 8 {
        PileMeta { kind: PileKind::Foundation, layout: PileLayout::Stacked, render_ace_as_gap: false }
    } else {
        PileMeta { kind: PileKind::Tableau, layout: PileLayout::FannedDown, render_ace_as_gap: false }
    }
}

pub fn freecell_metas() -> (r: Vec<PileMeta>)
    ensures
        r@ == Seq::new(16, |i: int| freecell_meta(i)),
{
    let mut out: Vec<PileMeta> = Vec::new();
    let mut i: usize = 0;
    while i < 16
        invariant
            i <= 16,
            out@.len() == i,
            forall|k: int| 0 <= k < i ==> #[trigger] out@[k] == freecell_meta(k),
        decreases 16 - i,
    {
        let meta = if i < 4 {
            PileMeta { kind: PileKind::Cell, layout: PileLayout::Stacked, render_ace_as_gap: false }
        } else if i < 8 {
            PileMeta { kind: PileKind::Foundation, layout: PileLayout::Stacked, render_ace_as_gap: false }
        } else {
            PileMeta { kind: PileKind::Tableau, layout: PileLayout::FannedDown, render_ace_as_gap: false }
        };
        out.push(meta);
        i = i + 1;
    }
    assert(out@ =~= Seq::new(16, |i: int| freecell_meta(i)));
    out
}

fn is_cell(id: u8) -> (r: bool)
    ensures
        r == is_cell_spec(id as int),
{
    id <= CELL_LAST
}

fn is_foundation(id: u8) -> (r: bool)
    ensures
        r == is_foundation_spec(id as int),
{
    FOUND_FIRST <= id && id <= FOUND_LAST
}

fn is_cascade(id: u8) -> (r: bool)
    ensures
        r == is_cascade_spec(id as int),
{
    CASCADE_FIRST <= id && id <= CASCADE_LAST
}

/// Count the empty piles among ids `lo..hi`, skipping `skip`.
fn count_empty_exec(piles: &PileSet, lo: u8, hi: u8, skip: u8) -> (n: usize)
    requires
        lo <= hi <= piles@.len(),
    ensures
        n == count_empty(piles@, lo as int, hi as int, skip as int),
        n <= hi - lo,
{
    let mut n: usize = 0;
    let mut id = lo;
    while id < hi
        invariant
            lo <= id <= hi <= piles@.len(),
            n == count_empty(piles@, lo as int, id as int, skip as int),
            n <= id - lo,
        decreases hi - id,
    {
        if id != skip && piles.pile_len(id) == 0 {
            n = n + 1;
        }
        id = id + 1;
    }
    n
}

/// Maximum run length one drag can move onto `dest`.
fn max_movable(piles: &PileSet, dest: u8) -> (n: usize)
    requires
        piles@.len() == 16,
    ensures
        n == max_movable_spec(piles@, dest as int),
{
    let empty_cells = count_empty_exec(piles, CELL_FIRST, CELL_LAST + 1, 255);
    assert(count_empty(piles@, CELL_FIRST as int, CELL_LAST + 1, 255) == count_empty(piles@, CELL_FIRST as int, CELL_LAST + 1, -1)) by {
        lemma_count_empty_skip_outside(piles@, CELL_FIRST as int, CELL_LAST + 1, 255, -1);
    }
    let empty_cascades = count_empty_exec(piles, CASCADE_FIRST, CASCADE_LAST + 1, dest);
    let mut n: usize = 1 + empty_cells;
    let mut k: usize = 0;
    assert(pow2(0) == 1);
    while k < empty_cascades
        invariant
            empty_cascades <= 8,
            empty_cells <= 4,
            k <= empty_cascades,
            n == (1 + empty_cells) * pow2(k as nat),
            pow2(k as nat) <= 256,
        decreases empty_cascades - k,
    {
        assert(pow2((k + 1) as nat) == 2 * pow2(k as nat));
        assert(pow2((k + 1) as nat) <= 256) by {
            lemma_pow2_mono((k + 1) as nat, 8);
            assert(pow2(0) == 1);
            assert(pow2(1) == 2);
            assert(pow2(2) == 4);
            assert(pow2(3) == 8);
            assert(pow2(4) == 16);
            assert(pow2(5) == 32);
            assert(pow2(6) == 64);
            assert(pow2(7) == 128);
            assert(pow2(8) == 256);
        }
        assert(n * 2 == (1 + empty_cells) * pow2((k + 1) as nat)) by (nonlinear_arith)
            requires
                n == (1 + empty_cells) * pow2(k as nat),
                pow2((k + 1) as nat) == 2 * pow2(k as nat),
        ;
        assert(n * 2 <= 5 * 256) by (nonlinear_arith)
            requires
                n * 2 == (1 + empty_cells) * pow2((k + 1) as nat),
                empty_cells <= 4,
                pow2((k + 1) as nat) <= 256,
        ;
        n = n * 2;
        k = k + 1;
    }
    n
}

proof fn lemma_pow2_mono(a: nat, b: nat)
    requires
        a <= b,
    ensures
        pow2(a) <= pow2(b),
    decreases b,
{
    if a < b {
        lemma_pow2_mono(a, (b - 1) as nat);
    }
}

proof fn lemma_count_empty_skip_outside(p: Seq<Seq<Card>>, lo: int, hi: int, s1: int, s2: int)
    requires
        !(lo <= s1 < hi),
        !(lo <= s2 < hi),
    ensures
        count_empty(p, lo, hi, s1) == count_empty(p, lo, hi, s2),
    decreases hi - lo,
{
    if hi > lo {
        lemma_count_empty_skip_outside(p, lo, hi - 1, s1, s2);
    }
}

impl FreeCell {
    /// Deal `deck` (52 cards, in order): cascade `c` gets the next 7 cards
    /// (first four cascades) or 6 (last four), all face-up.
    pub fn deal_from_deck(&self, piles: &mut PileSet, deck: &Vec<Card>)
        requires
            old(piles)@.len() == 16,
            deck@.len() == 52,
        ensures
            final(piles)@ == add_piles(old(piles)@, freecell_deal_spec(deck@)),
            final(piles).shapes() == old(piles).shapes(),
    {
        let ghost start = piles@;
        let ghost sh = piles.shapes();
        let mut next: usize = 0;
        let mut col: usize = 0;
        while col < 8
            invariant
                piles.shapes() == sh,
                deck@.len() == 52,
                start.len() == 16,
                piles@.len() == 16,
                col <= 8,
                next == (if col < 4 { 7 * col } else { 28 + 6 * (col - 4) }),
                forall|i: int| 0 <= i < 16 ==> #[trigger] piles@[i] == (if is_cascade_spec(i) && i - CASCADE_FIRST < col {
                    start[i] + freecell_deal_spec(deck@)[i]
                } else {
                    start[i]
                }),
            decreases 8 - col,
        {
            let n: usize = if col < 4 { 7 } else { 6 };
            let id = CASCADE_FIRST + col as u8;
            let ghost before = piles@;
            let ghost cs = cascade_start(col as int);
            let mut j: usize = 0;
            while j < n
                invariant
                    piles.shapes() == sh,
                    deck@.len() == 52,
                    piles@.len() == 16,
                    col < 8,
                    id == CASCADE_FIRST + col,
                    n == cascade_len(col as int),
                    cs == cascade_start(col as int),
                    j <= n,
                    next == cs + j,
                    cs + n <= 52,
                    forall|i: int| 0 <= i < 16 && i != id ==> #[trigger] piles@[i] == before[i],
                    piles@[id as int] == before[id as int] + Seq::new(j as nat, |r: int| with_face(deck@[cs + r], true)),
                decreases n - j,
            {
                let mut card = deck[next];
                card.face_up = true;
                assert(Seq::new((j + 1) as nat, |r: int| with_face(deck@[cs + r], true))
                    =~= Seq::new(j as nat, |r: int| with_face(deck@[cs + r], true)).push(card));
                piles.push_card(id, card);
                next = next + 1;
                j = j + 1;
            }
            col = col + 1;
        }
        assert(piles@ =~= add_piles(start, freecell_deal_spec(deck@)));
    }

    /// Deal Microsoft game `n`: cascade `c` gets column `c` of the deal.
    pub fn deal_ms(&self, piles: &mut PileSet, n: u32)
        requires
            old(piles)@.len() == 16,
        ensures
            final(piles)@ == add_piles(old(piles)@, freecell_ms_deal_spec(n)),
            final(piles).shapes() == old(piles).shapes(),
    {
        let ghost start = piles@;
        let ghost sh = piles.shapes();
        let cols = deal_columns(n);
        let mut c: usize = 0;
        while c < 8
            invariant
                piles.shapes() == sh,
                start.len() == 16,
                piles@.len() == 16,
                cols@.len() == 8,
                forall|k: int| 0 <= k < 8 ==> (#[trigger] cols@[k])@ == ms_column(n, k),
                c <= 8,
                forall|i: int| 0 <= i < 16 ==> #[trigger] piles@[i] == (if is_cascade_spec(i) && i - CASCADE_FIRST < c {
                    start[i] + freecell_ms_deal_spec(n)[i]
                } else {
                    start[i]
                }),
            decreases 8 - c,
        {
            let id = CASCADE_FIRST + c as u8;
            let ghost before = piles@;
            let len = cols[c].len();
            let mut r: usize = 0;
            while r < len
                invariant
                    piles.shapes() == sh,
                    piles@.len() == 16,
                    cols@.len() == 8,
                    c < 8,
                    id == CASCADE_FIRST + c,
                    len == cols@[c as int]@.len(),
                    r <= len,
                    forall|i: int| 0 <= i < 16 && i != id ==> #[trigger] piles@[i] == before[i],
                    piles@[id as int] == before[id as int] + cols@[c as int]@.subrange(0, r as int),
                decreases len - r,
            {
                let card = cols[c][r];
                assert(cols@[c as int]@.subrange(0, r + 1) =~= cols@[c as int]@.subrange(0, r as int).push(card));
                piles.push_card(id, card);
                r = r + 1;
            }
            assert(cols@[c as int]@.subrange(0, len as int) =~= cols@[c as int]@);
            c = c + 1;
        }
        assert(piles@ =~= add_piles(start, freecell_ms_deal_spec(n)));
    }
}

impl GameRules for FreeCell {
    open spec fn pile_count(&self) -> nat {
        16
    }

    fn pile_metas(&self) -> (r: Vec<PileMeta>)
        ensures
            r@ == Seq::new(16, |i: int| freecell_meta(i)),
    {
        freecell_metas()
    }

    open spec fn legal(&self, p: Seq<Seq<Card>>, m: Move) -> bool {
        freecell_legal(p, m)
    }

    open spec fn won(&self, p: Seq<Seq<Card>>) -> bool {
        freecell_won(p)
    }

    open spec fn auto_next(&self, p: Seq<Seq<Card>>) -> Option<Move> {
        None
    }

    open spec fn auto_measure(&self, p: Seq<Seq<Card>>) -> nat {
        0
    }

    proof fn lemma_auto_next(&self, p: Seq<Seq<Card>>) {
    }

    /// The Microsoft deal of the game number when one is set, otherwise
    /// some order of the standard deck dealt as `deal_from_deck` does.
    open spec fn dealt(&self, before: Seq<Seq<Card>>, after: Seq<Seq<Card>>) -> bool {
        match self.ms_game_number {
            Some(n) => after == add_piles(before, freecell_ms_deal_spec(n)),
            None => exists|deck: Seq<Card>| {
                &&& deck.len() == 52
                &&& deck.to_multiset() == standard_deck_spec().to_multiset()
                &&& after == add_piles(before, freecell_deal_spec(deck))
            },
        }
    }

    /// A Microsoft deal when a game number is set, otherwise a shuffled
    /// standard deck dealt with `deal_from_deck`.
    fn deal(&self, piles: &mut PileSet, rng: &mut StdRng)
        ensures
            match self.ms_game_number {
                Some(n) => final(piles)@ == add_piles(old(piles)@, freecell_ms_deal_spec(n)),
                None => exists|deck: Seq<Card>| {
                    &&& deck.len() == 52
                    &&& deck.to_multiset() == standard_deck_spec().to_multiset()
                    &&& final(piles)@ == add_piles(old(piles)@, freecell_deal_spec(deck))
                },
            },
    {
        match self.ms_game_number {
            Some(n) => {
                self.deal_ms(piles, n);
            },
            None => {
                let mut deck = standard_deck();
                shuffle_cards(&mut deck, rng);
                self.deal_from_deck(piles, &deck);
            },
        }
    }

    fn legal_move(&self, piles: &PileSet, m: &Move) -> (r: bool) {
        if m.take == 0 {
            return false;
        }
        let take = m.take as usize;
        let from_len = piles.pile_len(m.from);
        if from_len < take {
            return false;
        }
        let from = piles.get(m.from);
        let start = from_len - take;
        proof {
            assert(top_part(piles@[m.from as int], take as int) =~= from.cards@.subrange(start as int, from_len as int));
        }
        if !all_face_up_from(from.cards.as_slice(), start) {
            return false;
        }
        let head = piles.card_at(m.from, start);
        if is_foundation(m.to) {
            if take != 1 {
                return false;
            }
            return foundation_accepts_exec(piles, m.to, &head);
        }
        if is_cell(m.to) {
            return take == 1 && piles.pile_len(m.to) == 0;
        }
        if is_cascade(m.to) {
            if !valid_run_from(from.cards.as_slice(), start) {
                return false;
            }
            let max_len = max_movable(piles, m.to);
            if take > max_len {
                return false;
            }
            return match piles.top_card(m.to) {
                None => true,
                Some(top) => alt_color_descending(&top, &head),
            };
        }
        false
    }

    /// The first card (cascades 8..=15, then cells 0..=3) that a foundation
    /// (4..=7, in order) takes.
    fn auto_complete_step(&self, piles: &PileSet) -> (r: Option<Move>)
        ensures
            match r {
                None => forall|j: int, f: int| !fc_auto_candidate(piles@, j, f),
                Some(m) => exists|j: int, f: int| {
                    &&& fc_auto_candidate(piles@, j, f)
                    &&& m == simple_spec(fc_auto_source(j) as u8, 1, f as u8)
                    &&& forall|j2: int, f2: int| (j2 < j || (j2 == j && f2 < f)) ==> !fc_auto_candidate(piles@, j2, f2)
                },
            },
    {
        let mut j: usize = 0;
        while j < 12
            invariant
                piles@.len() == 16,
                j <= 12,
                forall|j2: int, f2: int| j2 < j ==> !fc_auto_candidate(piles@, j2, f2),
            decreases 12 - j,
        {
            let src: u8 = if j < 8 { CASCADE_FIRST + j as u8 } else { (j - 8) as u8 };
            assert(src == fc_auto_source(j as int));
            match piles.top_card(src) {
                None => {},
                Some(top) => {
                    let mut f: u8 = FOUND_FIRST;
                    while f <= FOUND_LAST
                        invariant
                            piles@.len() == 16,
                            j < 12,
                            src == fc_auto_source(j as int),
                            top_of(piles@[src as int]) == Some(top),
                            FOUND_FIRST <= f <= FOUND_LAST + 1,
                            forall|j2: int, f2: int| j2 < j ==> !fc_auto_candidate(piles@, j2, f2),
                            forall|f2: int| f2 < f ==> !fc_auto_candidate(piles@, j as int, f2),
                        decreases FOUND_LAST + 1 - f,
                    {
                        if foundation_accepts_exec(piles, f, &top) {
                            assert(fc_auto_candidate(piles@, j as int, f as int));
                            return Some(Move::simple(src, 1, f));
                        }
                        f = f + 1;
                    }
                },
            }
            j = j + 1;
        }
        None
    }

    fn is_won(&self, piles: &PileSet) -> (r: bool) {
        let mut f: u8 = FOUND_FIRST;
        while f <= FOUND_LAST
            invariant
                piles@.len() == 16,
                FOUND_FIRST <= f <= FOUND_LAST + 1,
                forall|f2: int| FOUND_FIRST <= f2 < f ==> (#[trigger] piles@[f2]).len() == 13,
            decreases FOUND_LAST + 1 - f,
        {
            if piles.pile_len(f) != 13 {
                return false;
            }
            f = f + 1;
        }
        true
    }

    fn game_slug(&self) -> (s: &'static str)
        ensures
            s@ == "freecell"@,
    {
        "freecell"
    }

    fn on_pile_click(&self, piles: &PileSet, pile: u8) -> (r: Vec<Move>)
        ensures
            r@.len() == 0,
    {
        Vec::new()
    }

    /// A lone card goes to the first foundation that takes it; otherwise the
    /// run goes to the leftmost cascade that takes it; otherwise a lone card
    /// goes to the first free cell.
    fn single_click_move(&self, piles: &PileSet, pile: u8, card_idx: usize) -> (r: Option<Move>)
        ensures
            ({
                let p = piles@;
                let idx = card_idx as int;
                if idx >= p[pile as int].len() || !p[pile as int][idx].face_up {
                    r is None
                } else if exists|d: u8| fc_click_single_ok(p, pile, idx, d, FOUND_FIRST, FOUND_LAST) {
                    exists|d: u8| {
                        &&& fc_click_single_ok(p, pile, idx, d, FOUND_FIRST, FOUND_LAST)
                        &&& r == Some(fc_click_move(p, pile, idx, d))
                        &&& forall|d2: u8| d2 < d ==> !fc_click_single_ok(p, pile, idx, d2, FOUND_FIRST, FOUND_LAST)
                    }
                } else if exists|d: u8| fc_click_cascade_ok(p, pile, idx, d) {
                    exists|d: u8| {
                        &&& fc_click_cascade_ok(p, pile, idx, d)
                        &&& r == Some(fc_click_move(p, pile, idx, d))
                        &&& forall|d2: u8| fc_click_cascade_ok(p, pile, idx, d2) && d2 != d ==> screen_before(piles, d as int, d2 as int)
                    }
                } else if exists|d: u8| fc_click_single_ok(p, pile, idx, d, CELL_FIRST, CELL_LAST) {
                    exists|d: u8| {
                        &&& fc_click_single_ok(p, pile, idx, d, CELL_FIRST, CELL_LAST)
                        &&& r == Some(fc_click_move(p, pile, idx, d))
                        &&& forall|d2: u8| d2 < d ==> !fc_click_single_ok(p, pile, idx, d2, CELL_FIRST, CELL_LAST)
                    }
                } else {
                    r is None
                }
            }),
    {
        let ghost p = piles@;
        let ghost idx = card_idx as int;
        let n = piles.pile_len(pile);
        if card_idx >= n || !piles.card_at(pile, card_idx).face_up {
            return None;
        }
        let take = n - card_idx;
        if take == 1 {
            match self.first_single(piles, pile, card_idx, FOUND_FIRST, FOUND_LAST) {
                Some(m) => {
                    return Some(m);
                },
                None => {},
            }
        }
        assert(forall|d: u8| !fc_click_single_ok(p, pile, idx, d, FOUND_FIRST, FOUND_LAST));
        let mut best: Option<u8> = None;
        let mut dst: u8 = CASCADE_FIRST;
        while dst <= CASCADE_LAST
            invariant
                piles@ == p,
                p.len() == 16,
                pile < 16,
                idx == card_idx,
                idx < p[pile as int].len(),
                p[pile as int][idx].face_up,
                forall|d: u8| !fc_click_single_ok(p, pile, idx, d, FOUND_FIRST, FOUND_LAST),
                take == p[pile as int].len() - idx,
                CASCADE_FIRST <= dst <= CASCADE_LAST + 1,
                match best {
                    None => forall|d2: u8| d2 < dst ==> !fc_click_cascade_ok(p, pile, idx, d2),
                    Some(b) => {
                        &&& b < dst
                        &&& fc_click_cascade_ok(p, pile, idx, b)
                        &&& forall|d2: u8| d2 < dst && fc_click_cascade_ok(p, pile, idx, d2) && d2 != b ==> screen_before(piles, b as int, d2 as int)
                    },
                },
            decreases CASCADE_LAST + 1 - dst,
        {
            if dst == pile {
                assert(!fc_click_cascade_ok(p, pile, idx, dst));
            } else {
                let m = Move::simple(pile, take as u8, dst);
                let ok = self.legal_move(piles, &m);
                assert(ok == fc_click_cascade_ok(p, pile, idx, dst));
                if ok {
                    match best {
                        None => {
                            best = Some(dst);
                        },
                        Some(b) => {
                            let ob = piles.get(b).column_order;
                            let od = piles.get(dst).column_order;
                            if od < ob {
                                best = Some(dst);
                                proof {
                                    assert forall|d2: u8| d2 < dst + 1 && fc_click_cascade_ok(p, pile, idx, d2) && d2 != dst implies screen_before(piles, dst as int, d2 as int) by {
                                        if d2 != b {
                                            assert(screen_before(piles, b as int, d2 as int));
                                        }
                                    }
                                }
                            } else {
                                proof {
                                    assert(screen_before(piles, b as int, dst as int));
                                }
                            }
                        },
                    }
                }
            }
            proof {
                match best {
                    None => {
                        assert forall|d2: u8| d2 < dst + 1 implies !fc_click_cascade_ok(p, pile, idx, d2) by {
                            if d2 >= dst {
                                assert(d2 == dst);
                            }
                        }
                    },
                    Some(b) => {},
                }
            }
            dst = dst + 1;
        }
        match best {
            Some(b) => {
                return Some(Move::simple(pile, take as u8, b));
            },
            None => {},
        }
        if take == 1 {
            return self.first_single(piles, pile, card_idx, CELL_FIRST, CELL_LAST);
        }
        assert(forall|d: u8| !fc_click_single_ok(p, pile, idx, d, CELL_FIRST, CELL_LAST));
        None
    }

    fn after_move(&self, piles: &PileSet) -> (r: Option<Move>) {
        None
    }
}

impl FreeCell {
    /// The first id in `lo..=hi` other than `pile` that legally takes the
    /// single top card of `pile`.
    fn first_single(&self, piles: &PileSet, pile: u8, card_idx: usize, lo: u8, hi: u8) -> (r: Option<Move>)
        requires
            piles@.len() == 16,
            pile < 16,
            card_idx < piles@[pile as int].len(),
            piles@[pile as int].len() - card_idx == 1,
            lo <= hi < 16,
        ensures
            match r {
                None => forall|d: u8| !fc_click_single_ok(piles@, pile, card_idx as int, d, lo, hi),
                Some(m) => exists|d: u8| {
                    &&& fc_click_single_ok(piles@, pile, card_idx as int, d, lo, hi)
                    &&& m == fc_click_move(piles@, pile, card_idx as int, d)
                    &&& forall|d2: u8| d2 < d ==> !fc_click_single_ok(piles@, pile, card_idx as int, d2, lo, hi)
                },
            },
    {
        let mut dst = lo;
        while dst <= hi
            invariant
                piles@.len() == 16,
                pile < 16,
                card_idx < piles@[pile as int].len(),
                piles@[pile as int].len() - card_idx == 1,
                lo <= hi < 16,
                lo <= dst <= hi + 1,
                forall|d2: u8| d2 < dst ==> !fc_click_single_ok(piles@, pile, card_idx as int, d2, lo, hi),
            decreases hi + 1 - dst,
        {
            if dst != pile {
                let m = Move::simple(pile, 1, dst);
                assert(m == fc_click_move(piles@, pile, card_idx as int, dst));
                if self.legal_move(piles, &m) {
                    assert(fc_click_single_ok(piles@, pile, card_idx as int, dst, lo, hi));
                    return Some(m);
                }
            }
            dst = dst + 1;
        }
        None
    }
}

} // verus!
