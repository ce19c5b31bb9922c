//! Klondike hint ranking: of every visible move, the one with the highest
//! score, the first one scanned among equals; the stock when no move shows.
//!
//! Scores: a card to its foundation 10000 (+1000 when it uncovers a face-down
//! card); a tableau run onto another column 50 per card, +5000 when it
//! uncovers a face-down card, +1500 for a King into an empty column; the
//! waste top onto a column 800 (+500 for a King into an empty column). Each
//! score is lowered by the ids of the piles involved, so lower ids win ties.

use vstd::prelude::*;

use super::hint::Hint;
use super::klondike::{
    alt_color_desc, alt_color_descending, alt_run, foundation_accepts, foundation_accepts_exec, klondike_legal, top_part,
    is_foundation_spec, is_tableau, is_tableau_spec, lemma_run_len, valid_run_from, Klondike, FOUND_FIRST,
    FOUND_LAST, STOCK, TABLEAU_FIRST, TABLEAU_LAST, WASTE,
};
use crate::cards::card::Card;
use crate::cards::rank::{lemma_rank_of_value, rank_value, Rank};
use crate::piles::pile::top_of;
use crate::piles::PileSet;
use crate::session::moves::Move;

verus! {

/// Lexicographic order on scan positions.
pub open spec fn key_lt(a: (int, int, int, int), b: (int, int, int, int)) -> bool {
    ||| a.0 < b.0
    ||| a.0 == b.0 && a.1 < b.1
    ||| a.0 == b.0 && a.1 == b.1 && a.2 < b.2
    ||| a.0 == b.0 && a.1 == b.1 && a.2 == b.2 && a.3 < b.3
}

/// Where a foundation move's source comes in the scan: the tableau columns
/// in order, then the waste.
pub open spec fn source_pos(src: int) -> int {
    if src == WASTE {
        7
    } else {
        src - TABLEAU_FIRST
    }
}

/// When the scan meets a hint: foundation moves by source then foundation;
/// column moves by source, start index, destination; waste moves by
/// destination.
pub open spec fn hint_key(h: Hint) -> (int, int, int, int) {
    match h {
        Hint::StockDeal { .. } => (4, 0, 0, 0),
        Hint::Move { from, start_idx, take, to } => if is_foundation_spec(to as int) {
            (1, source_pos(from as int), to as int, 0)
        } else if from == WASTE {
            (3, to as int, 0, 0)
        } else {
            (2, from as int, start_idx as int, to as int)
        },
    }
}

/// A column holding `t` takes a run headed by `head`: a King when empty,
/// else onto a face-up top of the other colour one rank higher.
pub open spec fn column_takes(t: Seq<Card>, head: Card) -> bool {
    match top_of(t) {
        None => head.rank == Rank::King,
        Some(top) => top.face_up && alt_color_desc(top, head),
    }
}

/// The face-up top of a tableau column or of the waste goes to a foundation.
pub open spec fn to_foundation_candidate(p: Seq<Seq<Card>>, from: u8, start_idx: usize, take: u8, to: u8) -> bool {
    let s = p[from as int];
    &&& is_tableau_spec(from as int) || from == WASTE
    &&& is_foundation_spec(to as int)
    &&& s.len() > 0
    &&& start_idx == s.len() - 1
    &&& take == 1
    &&& s.last().face_up
    &&& foundation_accepts(p[to as int], s.last())
}

/// A run from `start_idx` to the top of a column moves onto another
/// column; a King already at the bottom of its column does not move to an
/// empty one.
pub open spec fn column_move_candidate(p: Seq<Seq<Card>>, from: u8, start_idx: usize, take: u8, to: u8) -> bool {
    let s = p[from as int];
    &&& is_tableau_spec(from as int)
    &&& is_tableau_spec(to as int)
    &&& from != to
    &&& start_idx < s.len()
    &&& alt_run(s.subrange(start_idx as int, s.len() as int))
    &&& take == s.len() - start_idx
    &&& column_takes(p[to as int], s[start_idx as int])
    &&& !(p[to as int].len() == 0 && s[start_idx as int].rank == Rank::King && start_idx == 0)
}

/// The waste top moves onto a column.
pub open spec fn waste_move_candidate(p: Seq<Seq<Card>>, from: u8, start_idx: usize, take: u8, to: u8) -> bool {
    let s = p[WASTE as int];
    &&& from == WASTE
    &&& is_tableau_spec(to as int)
    &&& s.len() > 0
    &&& start_idx == s.len() - 1
    &&& take == 1
    &&& column_takes(p[to as int], s.last())
}

/// `h` is one of the moves the ranker considers on board `p`.
pub open spec fn hint_candidate(p: Seq<Seq<Card>>, h: Hint) -> bool {
    match h {
        Hint::StockDeal { .. } => false,
        Hint::Move { from, start_idx, take, to } => {
            ||| to_foundation_candidate(p, from, start_idx, take, to)
            ||| column_move_candidate(p, from, start_idx, take, to)
            ||| waste_move_candidate(p, from, start_idx, take, to)
        },
    }
}

/// A King heading a run that fills its whole column moves to an empty
/// column: legal, but no candidate, as it changes nothing of substance.
pub open spec fn king_shift(p: Seq<Seq<Card>>, h: Hint) -> bool {
    match h {
        Hint::StockDeal { .. } => false,
        Hint::Move { from, start_idx, take, to } => {
            let s = p[from as int];
            &&& is_tableau_spec(from as int)
            &&& is_tableau_spec(to as int)
            &&& from != to
            &&& start_idx == 0
            &&& s.len() > 0
            &&& alt_run(s.subrange(0, s.len() as int))
            &&& take == s.len()
            &&& s[0].rank == Rank::King
            &&& p[to as int].len() == 0
        },
    }
}

/// `h` is the first King shift in scan order.
pub open spec fn first_king_shift(p: Seq<Seq<Card>>, h: Hint) -> bool {
    &&& king_shift(p, h)
    &&& forall|c: Hint| #[trigger] king_shift(p, c) ==> !key_lt(hint_key(c), hint_key(h))
}

/// The ranker has nothing to offer: no candidate, stock and waste empty,
/// no King shift.
pub open spec fn no_hint(p: Seq<Seq<Card>>) -> bool {
    &&& forall|c: Hint| !#[trigger] hint_candidate(p, c)
    &&& p[STOCK as int].len() == 0
    &&& p[WASTE as int].len() == 0
    &&& forall|c: Hint| !#[trigger] king_shift(p, c)
}

/// The score of candidate `h` on board `p`.
pub open spec fn hint_score(p: Seq<Seq<Card>>, h: Hint) -> int {
    match h {
        Hint::StockDeal { .. } => 0,
        Hint::Move { from, start_idx, take, to } => {
            let s = p[from as int];
            if is_foundation_spec(to as int) {
                10000 + (if is_tableau_spec(from as int) && s.len() > 1 && !s[s.len() - 2].face_up {
                    1000int
                } else {
                    0int
                }) - from
            } else if from == WASTE {
                800 + (if p[to as int].len() == 0 && s.last().rank == Rank::King {
                    500int
                } else {
                    0int
                }) - to
            } else {
                (if start_idx > 0 && !s[start_idx - 1].face_up {
                    5000int
                } else {
                    0int
                }) + (if p[to as int].len() == 0 && s[start_idx as int].rank == Rank::King {
                    1500int
                } else {
                    0int
                }) + take * 50 - from - to
            }
        },
    }
}

/// `h` is a candidate of the highest score, and every candidate scanned
/// before it scores less.
pub open spec fn is_best_hint(p: Seq<Seq<Card>>, h: Hint) -> bool {
    &&& hint_candidate(p, h)
    &&& forall|c: Hint| #[trigger] hint_candidate(p, c) ==> {
        &&& hint_score(p, c) <= hint_score(p, h)
        &&& key_lt(hint_key(c), hint_key(h)) ==> hint_score(p, c) < hint_score(p, h)
    }
}

/// `best` is the best of the candidates scanned before position `k`.
pub open spec fn best_so_far(p: Seq<Seq<Card>>, best: Option<(i64, Hint)>, k: (int, int, int, int)) -> bool {
    match best {
        None => forall|c: Hint| #[trigger] hint_candidate(p, c) ==> !key_lt(hint_key(c), k),
        Some((s, h)) => {
            &&& hint_candidate(p, h)
            &&& s == hint_score(p, h)
            &&& key_lt(hint_key(h), k)
            &&& forall|c: Hint| #[trigger] hint_candidate(p, c) && key_lt(hint_key(c), k) ==> {
                &&& hint_score(p, c) <= s
                &&& key_lt(hint_key(c), hint_key(h)) ==> hint_score(p, c) < s
            }
        },
    }
}

/// Keep `(score, hint)` when it beats the best so far.
pub open spec fn consider_spec(best: Option<(i64, Hint)>, score: i64, hint: Hint) -> Option<(i64, Hint)> {
    match best {
        None => Some((score, hint)),
        Some((s, _)) => if score > s {
            Some((score, hint))
        } else {
            best
        },
    }
}

fn consider(best: &mut Option<(i64, Hint)>, score: i64, hint: Hint)
    ensures
        *final(best) == consider_spec(*old(best), score, hint),
{
    let beats = match *best {
        None => true,
        Some((s, _)) => score > s,
    };
    if beats {
        *best = Some((score, hint));
    }
}

/// Moving the scan from `k` to `k2` keeps `best_so_far`, when the only
/// candidate between them, if any, is `h` and was considered.
proof fn lemma_step(
    p: Seq<Seq<Card>>,
    best: Option<(i64, Hint)>,
    k: (int, int, int, int),
    k2: (int, int, int, int),
    h: Hint,
    score: i64,
    found: bool,
)
    requires
        best_so_far(p, best, k),
        key_lt(k, k2),
        found ==> hint_candidate(p, h) && hint_key(h) == k && score == hint_score(p, h),
        forall|c: Hint| #[trigger] hint_candidate(p, c) && key_lt(hint_key(c), k2) && !key_lt(hint_key(c), k) ==> found && c == h,
    ensures
        best_so_far(p, if found { consider_spec(best, score, h) } else { best }, k2),
{
    let nb = if found { consider_spec(best, score, h) } else { best };
    match best {
        None => {},
        Some((s, bh)) => {
            assert(key_lt(hint_key(bh), k2));
        },
    }
    match nb {
        None => {},
        Some((s, bh)) => {
            assert forall|c: Hint| #[trigger] hint_candidate(p, c) && key_lt(hint_key(c), k2) implies {
                &&& hint_score(p, c) <= s
                &&& key_lt(hint_key(c), hint_key(bh)) ==> hint_score(p, c) < s
            } by {
                if !key_lt(hint_key(c), k) {
                    assert(found && c == h);
                }
            }
        },
    }
}

/// Whether the column `t` of `piles` takes a run headed by `head`.
fn column_takes_exec(piles: &PileSet, t: u8, head: &Card) -> (r: bool)
    requires
        t < piles@.len(),
    ensures
        r == column_takes(piles@[t as int], *head),
{
    match piles.top_card(t) {
        None => head.rank == Rank::King,
        Some(top) => top.face_up && alt_color_descending(&top, head),
    }
}

/// Foundation moves, sources in scan order.
fn scan_foundation_moves(piles: &PileSet, best: &mut Option<(i64, Hint)>)
    requires
        piles@.len() == 13,
        best_so_far(piles@, *old(best), (1, 0, 2, 0)),
    ensures
        best_so_far(piles@, *final(best), (1, 8, 2, 0)),
{
    let ghost p = piles@;
    let mut j: u8 = 0;
    while j < 8
        invariant
            p == piles@,
            p.len() == 13,
            j <= 8,
            best_so_far(p, *best, (1, j as int, 2, 0)),
        decreases 8 - j,
    {
        let src = if j < 7 {
            TABLEAU_FIRST + j
        } else {
            WASTE
        };
        assert(source_pos(src as int) == j);
        let n = piles.pile_len(src);
        let mut fid: u8 = FOUND_FIRST;
        while fid <= FOUND_LAST
            invariant
                p == piles@,
                p.len() == 13,
                j < 8,
                source_pos(src as int) == j,
                is_tableau_spec(src as int) || src == WASTE,
                n == p[src as int].len(),
                FOUND_FIRST <= fid <= FOUND_LAST + 1,
                best_so_far(p, *best, (1, j as int, fid as int, 0)),
            decreases FOUND_LAST + 1 - fid,
        {
            let h = Hint::Move { from: src, start_idx: if n > 0 { n - 1 } else { 0 }, take: 1, to: fid };
            let mut found = false;
            let mut score: i64 = 0;
            if n > 0 {
                let top = piles.card_at(src, n - 1);
                if top.face_up && foundation_accepts_exec(piles, fid, &top) {
                    let exposes = is_tableau(src) && n > 1 && !piles.card_at(src, n - 2).face_up;
                    score = 10_000;
                    if exposes {
                        score = score + 1_000;
                    }
                    score = score - src as i64;
                    found = true;
                }
            }
            proof {
                assert(found <==> hint_candidate(p, h));
                assert forall|c: Hint| #[trigger] hint_candidate(p, c) && key_lt(hint_key(c), (1, j as int, fid + 1, 0))
                    && !key_lt(hint_key(c), (1, j as int, fid as int, 0)) implies found && c == h by {
                    if src == WASTE {
                        assert(source_pos(src as int) == 7);
                    }
                }
                lemma_step(p, *best, (1, j as int, fid as int, 0), (1, j as int, fid + 1, 0), h, score, found);
            }
            if found {
                consider(best, score, h);
            }
            fid = fid + 1;
        }
        proof {
            lemma_step(p, *best, (1, j as int, 6, 0), (1, j + 1, 2, 0), Hint::StockDeal { stock: 0 }, 0, false);
        }
        j = j + 1;
    }
}

/// Tableau runs onto other columns, by source column, start index,
/// destination.
fn scan_column_moves(piles: &PileSet, best: &mut Option<(i64, Hint)>)
    requires
        piles@.len() == 13,
        best_so_far(piles@, *old(best), (2, 6, 0, 6)),
    ensures
        best_so_far(piles@, *final(best), (2, 13, 0, 6)),
{
    let ghost p = piles@;
    let mut src: u8 = TABLEAU_FIRST;
    while src <= TABLEAU_LAST
        invariant
            p == piles@,
            p.len() == 13,
            TABLEAU_FIRST <= src <= TABLEAU_LAST + 1,
            best_so_far(p, *best, (2, src as int, 0, 6)),
        decreases TABLEAU_LAST + 1 - src,
    {
        let n = piles.pile_len(src);
        let cards = piles.get(src).cards.as_slice();
        let mut start: usize = 0;
        while start < n
            invariant
                p == piles@,
                p.len() == 13,
                TABLEAU_FIRST <= src <= TABLEAU_LAST,
                n == p[src as int].len(),
                cards@ == p[src as int],
                start <= n,
                best_so_far(p, *best, (2, src as int, start as int, 6)),
            decreases n - start,
        {
            let run_ok = valid_run_from(cards, start);
            let take = n - start;
            if run_ok {
                proof {
                    lemma_run_len(p[src as int].subrange(start as int, n as int));
                }
            }
            let head = cards[start];
            let exposes = start > 0 && !cards[start - 1].face_up;
            let mut dst: u8 = TABLEAU_FIRST;
            while dst <= TABLEAU_LAST
                invariant
                    p == piles@,
                    p.len() == 13,
                    TABLEAU_FIRST <= src <= TABLEAU_LAST,
                    n == p[src as int].len(),
                    cards@ == p[src as int],
                    start < n,
                    take == n - start,
                    head == p[src as int][start as int],
                    exposes == (start > 0 && !p[src as int][start - 1].face_up),
                    run_ok == alt_run(p[src as int].subrange(start as int, n as int)),
                    run_ok ==> take <= 13,
                    TABLEAU_FIRST <= dst <= TABLEAU_LAST + 1,
                    best_so_far(p, *best, (2, src as int, start as int, dst as int)),
                decreases TABLEAU_LAST + 1 - dst,
            {
                let h = Hint::Move { from: src, start_idx: start, take: take as u8, to: dst };
                let dst_len = piles.pile_len(dst);
                let found = run_ok && dst != src && column_takes_exec(piles, dst, &head)
                    && !(dst_len == 0 && head.rank == Rank::King && start == 0);
                let mut score: i64 = 0;
                if found {
                    if exposes {
                        score = score + 5_000;
                    }
                    if dst_len == 0 && head.rank == Rank::King {
                        score = score + 1_500;
                    }
                    score = score + take as i64 * 50;
                    score = score - src as i64;
                    score = score - dst as i64;
                }
                proof {
                    if found {
                        assert(column_move_candidate(p, src, start, take as u8, dst));
                    }
                    assert(found ==> hint_candidate(p, h) && hint_key(h) == (2int, src as int, start as int, dst as int)
                        && score == hint_score(p, h));
                    assert forall|c: Hint| #[trigger] hint_candidate(p, c) && key_lt(hint_key(c), (2, src as int, start as int, dst + 1))
                        && !key_lt(hint_key(c), (2, src as int, start as int, dst as int)) implies found && c == h by {
                    }
                    lemma_step(p, *best, (2, src as int, start as int, dst as int), (2, src as int, start as int, dst + 1), h, score, found);
                }
                if found {
                    consider(best, score, h);
                }
                dst = dst + 1;
            }
            proof {
                lemma_step(p, *best, (2, src as int, start as int, 13), (2, src as int, start + 1, 6), Hint::StockDeal { stock: 0 }, 0, false);
            }
            start = start + 1;
        }
        proof {
            lemma_step(p, *best, (2, src as int, n as int, 6), (2, src + 1, 0, 6), Hint::StockDeal { stock: 0 }, 0, false);
        }
        src = src + 1;
    }
}

/// The waste top onto each column in turn.
fn scan_waste_moves(piles: &PileSet, best: &mut Option<(i64, Hint)>)
    requires
        piles@.len() == 13,
        best_so_far(piles@, *old(best), (3, 6, 0, 0)),
    ensures
        best_so_far(piles@, *final(best), (3, 13, 0, 0)),
{
    let ghost p = piles@;
    let n = piles.pile_len(WASTE);
    let mut dst: u8 = TABLEAU_FIRST;
    while dst <= TABLEAU_LAST
        invariant
            p == piles@,
            p.len() == 13,
            n == p[WASTE as int].len(),
            TABLEAU_FIRST <= dst <= TABLEAU_LAST + 1,
            best_so_far(p, *best, (3, dst as int, 0, 0)),
        decreases TABLEAU_LAST + 1 - dst,
    {
        let h = Hint::Move { from: WASTE, start_idx: if n > 0 { n - 1 } else { 0 }, take: 1, to: dst };
        let mut found = false;
        let mut score: i64 = 0;
        if n > 0 {
            let top = piles.card_at(WASTE, n - 1);
            if column_takes_exec(piles, dst, &top) {
                score = 800;
                if piles.pile_len(dst) == 0 && top.rank == Rank::King {
                    score = score + 500;
                }
                score = score - dst as i64;
                found = true;
            }
        }
        proof {
            assert(found <==> hint_candidate(p, h));
            assert forall|c: Hint| #[trigger] hint_candidate(p, c) && key_lt(hint_key(c), (3, dst + 1, 0, 0))
                && !key_lt(hint_key(c), (3, dst as int, 0, 0)) implies found && c == h by {
            }
            lemma_step(p, *best, (3, dst as int, 0, 0), (3, dst + 1, 0, 0), h, score, found);
        }
        if found {
            consider(best, score, h);
        }
        dst = dst + 1;
    }
}

/// The first King shift, by source column then destination.
fn find_king_shift(piles: &PileSet) -> (r: Option<Hint>)
    requires
        piles@.len() == 13,
    ensures
        r matches Some(h) ==> first_king_shift(piles@, h),
        r is None ==> forall|c: Hint| !#[trigger] king_shift(piles@, c),
{
    let ghost p = piles@;
    let mut src: u8 = TABLEAU_FIRST;
    while src <= TABLEAU_LAST
        invariant
            p == piles@,
            p.len() == 13,
            TABLEAU_FIRST <= src <= TABLEAU_LAST + 1,
            forall|c: Hint| #[trigger] king_shift(p, c) ==> c->from >= src,
        decreases TABLEAU_LAST + 1 - src,
    {
        let n = piles.pile_len(src);
        let cards = piles.get(src).cards.as_slice();
        if n > 0 && valid_run_from(cards, 0) && cards[0].rank == Rank::King {
            proof {
                lemma_run_len(p[src as int].subrange(0, n as int));
            }
            let mut dst: u8 = TABLEAU_FIRST;
            while dst <= TABLEAU_LAST
                invariant
                    p == piles@,
                    p.len() == 13,
                    TABLEAU_FIRST <= src <= TABLEAU_LAST,
                    n == p[src as int].len(),
                    0 < n <= 13,
                    alt_run(p[src as int].subrange(0, n as int)),
                    p[src as int][0].rank == Rank::King,
                    TABLEAU_FIRST <= dst <= TABLEAU_LAST + 1,
                    forall|c: Hint| #[trigger] king_shift(p, c) ==> c->from > src || (c->from == src && c->to >= dst),
                decreases TABLEAU_LAST + 1 - dst,
            {
                if dst != src && piles.pile_len(dst) == 0 {
                    let h = Hint::Move { from: src, start_idx: 0, take: n as u8, to: dst };
                    proof {
                        assert(king_shift(p, h));
                        assert forall|c: Hint| #[trigger] king_shift(p, c) implies !key_lt(hint_key(c), hint_key(h)) by {
                        }
                    }
                    return Some(h);
                }
                dst = dst + 1;
            }
        }
        src = src + 1;
    }
    None
}

/// The best Klondike move on the board: the highest-scoring candidate,
/// the first scanned among equals. With no candidate, the stock when the
/// stock or the waste holds a card (draw or recycle); else the first King
/// shift, so that nothing comes back only when no move is left.
pub fn best_klondike_hint(rules: &Klondike, piles: &PileSet) -> (r: Option<Hint>)
    requires
        piles@.len() == 13,
    ensures
        (exists|c: Hint| #[trigger] hint_candidate(piles@, c)) ==> r is Some && is_best_hint(piles@, r.unwrap()),
        (forall|c: Hint| !#[trigger] hint_candidate(piles@, c)) ==> {
            if piles@[STOCK as int].len() > 0 || piles@[WASTE as int].len() > 0 {
                r == Some(Hint::StockDeal { stock: STOCK })
            } else {
                &&& r matches Some(h) ==> first_king_shift(piles@, h)
                &&& r is None <==> forall|c: Hint| !#[trigger] king_shift(piles@, c)
            }
        },
        r is None <==> no_hint(piles@),
        hint_ranked(piles@, r),
{
    let r = best_hint_unranked(piles);
    proof {
        piles.lemma_pile_lens();
        law_hint_ranking(piles@, r);
    }
    r
}

/// The hint before its order of preference is drawn out: the best
/// candidate, else the stock, else the first King shift.
fn best_hint_unranked(piles: &PileSet) -> (r: Option<Hint>)
    requires
        piles@.len() == 13,
    ensures
        (exists|c: Hint| #[trigger] hint_candidate(piles@, c)) ==> r is Some && is_best_hint(piles@, r.unwrap()),
        (forall|c: Hint| !#[trigger] hint_candidate(piles@, c)) ==> {
            if piles@[STOCK as int].len() > 0 || piles@[WASTE as int].len() > 0 {
                r == Some(Hint::StockDeal { stock: STOCK })
            } else {
                &&& r matches Some(h) ==> first_king_shift(piles@, h)
                &&& r is None <==> forall|c: Hint| !#[trigger] king_shift(piles@, c)
            }
        },
        r is None <==> no_hint(piles@),
{
    let ghost p = piles@;
    let mut best: Option<(i64, Hint)> = None;
    scan_foundation_moves(piles, &mut best);
    proof {
        lemma_step(p, best, (1, 8, 2, 0), (2, 6, 0, 6), Hint::StockDeal { stock: 0 }, 0, false);
    }
    scan_column_moves(piles, &mut best);
    proof {
        lemma_step(p, best, (2, 13, 0, 6), (3, 6, 0, 0), Hint::StockDeal { stock: 0 }, 0, false);
    }
    scan_waste_moves(piles, &mut best);
    match best {
        Some((_, hint)) => {
            proof {
                assert forall|c: Hint| #[trigger] hint_candidate(p, c) implies key_lt(hint_key(c), (3, 13, 0, 0)) by {
                }
            }
            return Some(hint);
        },
        None => {},
    }
    proof {
        assert forall|c: Hint| !#[trigger] hint_candidate(p, c) by {
            if hint_candidate(p, c) {
                assert(key_lt(hint_key(c), (3, 13, 0, 0)));
            }
        }
    }
    if piles.pile_len(STOCK) > 0 || piles.pile_len(WASTE) > 0 {
        return Some(Hint::StockDeal { stock: STOCK });
    }
    find_king_shift(piles)
}

/// Down an alternating run, each card is one rank below the one before.
proof fn lemma_run_descends(s: Seq<Card>, i: int)
    requires
        alt_run(s),
        0 <= i < s.len(),
    ensures
        rank_value(s[i].rank) == rank_value(s[0].rank) - i,
    decreases i,
{
    if i > 0 {
        lemma_run_descends(s, i - 1);
        assert(alt_color_desc(s[i - 1], s[i]));
        lemma_rank_of_value(rank_value(s[i - 1].rank) - 1);
    }
}

/// When the ranker gives nothing, no move is left: on a board whose
/// non-empty columns show their top card, no move from the waste or a
/// column to a foundation or a column is legal, whatever the draw count.
/// (Each pile is a vector in memory, so its length fits a `usize`.)
pub proof fn law_no_hint_no_move(draw: u8, p: Seq<Seq<Card>>, m: Move)
    requires
        p.len() == 13,
        forall|i: int| 0 <= i < 13 ==> (#[trigger] p[i]).len() <= usize::MAX,
        forall|t: int| is_tableau_spec(t) && p[t].len() > 0 ==> (#[trigger] p[t]).last().face_up,
        no_hint(p),
        m.from == WASTE || is_tableau_spec(m.from as int),
        is_foundation_spec(m.to as int) || is_tableau_spec(m.to as int),
    ensures
        !klondike_legal(draw, p, m),
{
    if klondike_legal(draw, p, m) {
        let s = p[m.from as int];
        let n = s.len();
        let k = m.take as int;
        let start = n - k;
        let moved = top_part(s, k);
        assert(m.from != WASTE);
        if is_foundation_spec(m.to as int) {
            assert(moved[0] == s.last());
            let h = Hint::Move { from: m.from, start_idx: (n - 1) as usize, take: 1, to: m.to };
            assert(hint_candidate(p, h));
        } else if m.to == m.from {
            lemma_run_descends(moved, k - 1);
            assert(moved[k - 1] == s.last());
            lemma_rank_of_value(rank_value(moved[k - 1].rank) - 1);
        } else {
            let t = p[m.to as int];
            assert(moved =~= s.subrange(start, n as int));
            assert(moved[0] == s[start]);
            if t.len() == 0 && s[start].rank == Rank::King && start == 0 {
                let h = Hint::Move { from: m.from, start_idx: 0, take: m.take, to: m.to };
                assert(s.subrange(0, n as int) =~= moved);
                assert(king_shift(p, h));
            } else {
                let h = Hint::Move { from: m.from, start_idx: start as usize, take: m.take, to: m.to };
                if t.len() > 0 {
                    assert(t.last().face_up);
                }
                assert(column_move_candidate(p, m.from, start as usize, m.take, m.to));
                assert(hint_candidate(p, h));
            }
        }
    }
}

/// Some face-up top of a column or of the waste can go to a foundation.
pub open spec fn home_available(p: Seq<Seq<Card>>) -> bool {
    exists|src: int, f: int|
        #![trigger foundation_accepts(p[f], p[src].last())]
        (is_tableau_spec(src) || src == WASTE) && is_foundation_spec(f) && p[src].len() > 0 && p[src].last().face_up
            && foundation_accepts(p[f], p[src].last())
}

/// Some column top can go home and turn up the face-down card under it.
pub open spec fn exposing_home_available(p: Seq<Seq<Card>>) -> bool {
    exists|t: int, f: int|
        #![trigger foundation_accepts(p[f], p[t].last())]
        is_tableau_spec(t) && is_foundation_spec(f) && p[t].len() > 1 && p[t].last().face_up && !p[t][p[t].len() - 2].face_up
            && foundation_accepts(p[f], p[t].last())
}

/// Column `d` of `p` takes a run headed by `head`: a King when empty, else
/// onto a face-up top of the other colour one rank higher.
pub open spec fn column_accepts(p: Seq<Seq<Card>>, d: int, head: Card) -> bool {
    if p[d].len() == 0 {
        head.rank == Rank::King
    } else {
        p[d].last().face_up && alt_color_desc(p[d].last(), head)
    }
}

/// A run from `st` up in column `s` can go onto column `d`.
pub open spec fn run_fits(p: Seq<Seq<Card>>, s: int, st: int, d: int) -> bool {
    &&& is_tableau_spec(s)
    &&& is_tableau_spec(d)
    &&& s != d
    &&& 0 <= st < p[s].len()
    &&& alt_run(p[s].subrange(st, p[s].len() as int))
    &&& column_accepts(p, d, p[s][st])
}

/// Some run can move onto another column and turn up a face-down card.
pub open spec fn uncover_available(p: Seq<Seq<Card>>) -> bool {
    exists|s: int, st: int, d: int| #[trigger] run_fits(p, s, st, d) && st > 0 && !p[s][st - 1].face_up
}

/// Some King-led run, not the whole column and turning up nothing, can
/// move into an empty column.
pub open spec fn king_move_available(p: Seq<Seq<Card>>) -> bool {
    exists|s: int, st: int, d: int|
        #[trigger] run_fits(p, s, st, d) && st > 0 && p[s][st - 1].face_up && p[d].len() == 0
}

/// What `best_klondike_hint` promises, given a board and its answer.
pub open spec fn hint_contract(p: Seq<Seq<Card>>, r: Option<Hint>) -> bool {
    &&& (exists|c: Hint| #[trigger] hint_candidate(p, c)) ==> r is Some && is_best_hint(p, r.unwrap())
}

/// The hint's order of preference: a card home first; else a run onto a
/// column that turns up a face-down card; else a King-led run into an
/// empty column. (Waste plays and plain builds come only after these.)
pub open spec fn hint_ranked(p: Seq<Seq<Card>>, r: Option<Hint>) -> bool {
    &&& home_available(p) ==> (r matches Some(Hint::Move { to, .. }) && is_foundation_spec(to as int))
    &&& exposing_home_available(p) ==> (r matches Some(Hint::Move { from, to, .. }) && is_foundation_spec(to as int)
        && is_tableau_spec(from as int) && p[from as int].len() > 1 && !p[from as int][p[from as int].len() - 2].face_up)
    &&& !home_available(p) && uncover_available(p) ==> (r matches Some(Hint::Move { from, start_idx, to, .. })
        && is_tableau_spec(from as int) && is_tableau_spec(to as int) && start_idx > 0
        && !p[from as int][start_idx - 1].face_up)
    &&& !home_available(p) && !uncover_available(p) && king_move_available(p) ==> (r matches Some(
        Hint::Move { from, start_idx, to, .. },
    ) && is_tableau_spec(from as int) && is_tableau_spec(to as int) && p[to as int].len() == 0
        && p[from as int][start_idx as int].rank == Rank::King)
}

/// A candidate's score stays within the band of its kind.
proof fn lemma_score_bands(p: Seq<Seq<Card>>, h: Hint)
    requires
        p.len() == 13,
        hint_candidate(p, h),
    ensures
        h matches Hint::Move { from, start_idx, take, to } && {
            &&& to_foundation_candidate(p, from, start_idx, take, to) ==> hint_score(p, h) >= 10000 - 12
            &&& !to_foundation_candidate(p, from, start_idx, take, to) ==> hint_score(p, h) <= 5000 + 1500 + 650
            &&& waste_move_candidate(p, from, start_idx, take, to) && !to_foundation_candidate(p, from, start_idx, take, to)
                ==> hint_score(p, h) <= 1300
            &&& column_move_candidate(p, from, start_idx, take, to) && !to_foundation_candidate(p, from, start_idx, take, to)
                && !(start_idx > 0 && !p[from as int][start_idx - 1].face_up) ==> hint_score(p, h) <= 1500 + 650
            &&& column_move_candidate(p, from, start_idx, take, to) && !to_foundation_candidate(p, from, start_idx, take, to)
                && !(start_idx > 0 && !p[from as int][start_idx - 1].face_up) && !(p[to as int].len() == 0
                && p[from as int][start_idx as int].rank == Rank::King) ==> hint_score(p, h) <= 650
        },
{
    match h {
        Hint::Move { from, start_idx, take, to } => {
            if column_move_candidate(p, from, start_idx, take, to) {
                let s = p[from as int];
                lemma_run_len(s.subrange(start_idx as int, s.len() as int));
            }
        },
        _ => {},
    }
}

/// The hint's order of preference holds of every answer that keeps
/// `best_klondike_hint`'s promise.
pub proof fn law_hint_ranking(p: Seq<Seq<Card>>, r: Option<Hint>)
    requires
        p.len() == 13,
        forall|i: int| 0 <= i < 13 ==> #[trigger] p[i].len() <= usize::MAX,
        hint_contract(p, r),
    ensures
        hint_ranked(p, r),
{
    if exposing_home_available(p) {
        let (t, f) = choose|t: int, f: int|
            #![trigger foundation_accepts(p[f], p[t].last())]
            is_tableau_spec(t) && is_foundation_spec(f) && p[t].len() > 1 && p[t].last().face_up && !p[t][p[t].len() - 2].face_up
                && foundation_accepts(p[f], p[t].last());
        let c = Hint::Move { from: t as u8, start_idx: (p[t].len() - 1) as usize, take: 1, to: f as u8 };
        assert(to_foundation_candidate(p, t as u8, (p[t].len() - 1) as usize, 1, f as u8));
        assert(hint_candidate(p, c));
        assert(hint_score(p, c) >= 11000 - 12);
        let h = r.unwrap();
        lemma_score_bands(p, h);
    }
    if home_available(p) {
        let (src, f) = choose|src: int, f: int|
            #![trigger foundation_accepts(p[f], p[src].last())]
            (is_tableau_spec(src) || src == WASTE) && is_foundation_spec(f) && p[src].len() > 0 && p[src].last().face_up
                && foundation_accepts(p[f], p[src].last());
        let c = Hint::Move { from: src as u8, start_idx: (p[src].len() - 1) as usize, take: 1, to: f as u8 };
        assert(to_foundation_candidate(p, src as u8, (p[src].len() - 1) as usize, 1, f as u8));
        assert(hint_candidate(p, c));
        lemma_score_bands(p, c);
        let h = r.unwrap();
        lemma_score_bands(p, h);
    } else if uncover_available(p) {
        let (s, st, d) = choose|s: int, st: int, d: int| #[trigger] run_fits(p, s, st, d) && st > 0 && !p[s][st - 1].face_up;
        lemma_run_len(p[s].subrange(st, p[s].len() as int));
        let c = Hint::Move { from: s as u8, start_idx: st as usize, take: (p[s].len() - st) as u8, to: d as u8 };
        assert(column_move_candidate(p, s as u8, st as usize, (p[s].len() - st) as u8, d as u8));
        assert(hint_candidate(p, c));
        let h = r.unwrap();
        lemma_score_bands(p, h);
        match h {
            Hint::Move { from, start_idx, take, to } => {
                if to_foundation_candidate(p, from, start_idx, take, to) {
                    assert(foundation_accepts(p[to as int], p[from as int].last()));
                }
            },
            _ => {},
        }
    } else if king_move_available(p) {
        let (s, st, d) = choose|s: int, st: int, d: int|
            #[trigger] run_fits(p, s, st, d) && st > 0 && p[s][st - 1].face_up && p[d].len() == 0;
        lemma_run_len(p[s].subrange(st, p[s].len() as int));
        let c = Hint::Move { from: s as u8, start_idx: st as usize, take: (p[s].len() - st) as u8, to: d as u8 };
        assert(column_move_candidate(p, s as u8, st as usize, (p[s].len() - st) as u8, d as u8));
        assert(hint_candidate(p, c));
        let h = r.unwrap();
        lemma_score_bands(p, h);
        match h {
            Hint::Move { from, start_idx, take, to } => {
                if to_foundation_candidate(p, from, start_idx, take, to) {
                    assert(foundation_accepts(p[to as int], p[from as int].last()));
                }
                if column_move_candidate(p, from, start_idx, take, to) && start_idx > 0
                    && !p[from as int][start_idx - 1].face_up {
                    assert(run_fits(p, from as int, start_idx as int, to as int));
                }
            },
            _ => {},
        }
    }
}

} // verus!
