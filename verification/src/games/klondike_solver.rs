//! Klondike solver: depth-first search over the moves worth trying, most
//! promising first, with a table of boards already seen.
//!
//! A `Won` verdict is backed by a winning line: a sequence of moves, each
//! applicable and, on a sane board, legal, that ends with every foundation
//! full. `Exhausted` means no line of the solver's moves wins, provided
//! boards that share a fingerprint in the table of seen boards are equally
//! near a win (a hash collision could otherwise prune a board never
//! searched). With no deadline, `Timeout` means the node budget was
//! smaller than the pairs of reachable board and move the search met.

use vstd::prelude::*;
use vstd::std_specs::hash::DefaultHasherAdditionalSpecFns;

use std::collections::hash_map::DefaultHasher;
use std::collections::HashSet;
use std::time::Duration;

use super::klondike::{
    all_face_up, alt_color_desc, alt_color_descending, alt_run, foundation_accepts,
    foundation_accepts_exec, is_foundation_spec, is_tableau_spec, klondike_legal, klondike_won,
    lemma_run_len, top_part, valid_run_from, FOUND_FIRST, FOUND_LAST, STOCK, TABLEAU_FIRST,
    TABLEAU_LAST, WASTE,
};
use super::klondike_hint::key_lt;
use crate::cards::card::Card;
use crate::cards::rank::{rank_value, Rank};
use crate::cards::suit::{suit_index, Suit};
use crate::clock::{deadline_after, deadline_passed};
use crate::piles::pile::top_of;
use crate::piles::PileSet;
use crate::session::moves::{apply_move, apply_spec, can_apply, simple_spec, Move};
use crate::session::{apply_seq, lemma_apply_seq_push};

verus! {

#[derive(Clone, Copy, Debug, PartialEq, Eq, Structural)]
pub enum SolveResult {
    Won,
    Exhausted,
    Timeout,
}

#[derive(Clone, Copy, Debug)]
pub struct SolverBudget {
    /// When the search gives up; `None` for no time limit.
    pub deadline: Option<web_time::Instant>,
    pub max_nodes: u64,
    pub draw_count: u8,
}

impl SolverBudget {
    /// A budget of `duration` from now and `max_nodes` search nodes. A
    /// duration that runs past what an instant can hold means no time limit.
    pub fn from_duration(duration: Duration, max_nodes: u64, draw_count: u8) -> (b: SolverBudget)
        ensures
            b.max_nodes == max_nodes,
            b.draw_count == draw_count,
    {
        SolverBudget { deadline: deadline_after(duration), max_nodes, draw_count }
    }
}

/// The byte code of a card: suit, rank and face in one byte, then the deck.
pub open spec fn card_code(c: Card) -> Seq<u8> {
    seq![(suit_index(c.suit) * 32 + rank_value(c.rank) * 2 + (if c.face_up { 1int } else { 0int })) as u8, c.deck_id]
}

/// The bytes a pile is hashed as: its cards' codes in order.
pub open spec fn pile_bytes(s: Seq<Card>) -> Seq<u8>
    decreases s.len(),
{
    if s.len() == 0 {
        Seq::empty()
    } else {
        pile_bytes(s.drop_last()) + card_code(s.last())
    }
}

/// What the board's hasher is fed: one write per pile.
pub open spec fn board_writes(p: Seq<Seq<Card>>) -> Seq<Seq<u8>> {
    p.map_values(|s: Seq<Card>| pile_bytes(s))
}

/// The fingerprint of a board in the table of seen boards: std's
/// `DefaultHasher` run over the board's writes.
pub open spec fn klondike_fingerprint(p: Seq<Seq<Card>>) -> u64 {
    DefaultHasher::spec_finish(board_writes(p))
}

fn suit_byte(s: Suit) -> (b: u8)
    ensures
        b == suit_index(s),
{
    match s {
        Suit::Spades => 0,
        Suit::Hearts => 1,
        Suit::Diamonds => 2,
        Suit::Clubs => 3,
    }
}

/// The bytes of `cards`.
fn pile_bytes_exec(cards: &Vec<Card>) -> (r: Vec<u8>)
    ensures
        r@ == pile_bytes(cards@),
{
    let mut r: Vec<u8> = Vec::new();
    let n = cards.len();
    let mut i: usize = 0;
    while i < n
        invariant
            n == cards@.len(),
            i <= n,
            r@ == pile_bytes(cards@.subrange(0, i as int)),
        decreases n - i,
    {
        let c = cards[i];
        let face: u8 = if c.face_up {
            1
        } else {
            0
        };
        let code = suit_byte(c.suit) * 32 + c.rank.as_u8() * 2 + face;
        r.push(code);
        r.push(c.deck_id);
        proof {
            let t = cards@.subrange(0, i + 1);
            assert(t.drop_last() =~= cards@.subrange(0, i as int));
            assert(t.last() == c);
            assert(r@ =~= pile_bytes(t));
        }
        i = i + 1;
    }
    assert(cards@.subrange(0, n as int) =~= cards@);
    r
}

/// Fingerprint of a board for the table of seen boards.
fn hash_state(piles: &PileSet) -> (r: u64)
    requires
        piles@.len() == 13,
    ensures
        r == klondike_fingerprint(piles@),
{
    let mut h = DefaultHasher::new();
    let n = piles.len();
    let mut i: usize = 0;
    while i < n
        invariant
            n == piles@.len(),
            n == 13,
            i <= n,
            h@ == board_writes(piles@).subrange(0, i as int),
        decreases n - i,
    {
        let pile = piles.get(i as u8);
        let bytes = pile_bytes_exec(&pile.cards);
        std::hash::Hasher::write(&mut h, bytes.as_slice());
        proof {
            assert(board_writes(piles@).subrange(0, i + 1) =~= board_writes(piles@).subrange(0, i as int).push(bytes@));
        }
        i = i + 1;
    }
    assert(board_writes(piles@).subrange(0, n as int) =~= board_writes(piles@));
    std::hash::Hasher::finish(&h)
}

/// A board the move generator's legality claim covers: thirteen piles, the
/// waste face-up and under 256 cards (a move takes at most 255), and a
/// stock whose length taken as a byte is not zero unless it is empty (a
/// stock click takes the smaller of that byte and the draw count).
pub open spec fn klondike_sane(p: Seq<Seq<Card>>) -> bool {
    &&& p.len() == 13
    &&& all_face_up(p[WASTE as int])
    &&& (p[STOCK as int].len() == 0 || p[STOCK as int].len() % 256 != 0)
    &&& p[WASTE as int].len() < 256
}

/// `m` applies to `p`, and is a legal Klondike move with `draw` cards per
/// stock click whenever the board is sane and `draw` is at least one.
pub open spec fn solver_step_ok(draw: u8, p: Seq<Seq<Card>>, m: Move) -> bool {
    &&& can_apply(p, m)
    &&& (klondike_sane(p) && draw >= 1) ==> klondike_legal(draw, p, m)
}

/// Every move of `path`, played in turn from `p`, is a solver step.
pub open spec fn solver_path_ok(draw: u8, p: Seq<Seq<Card>>, path: Seq<Move>) -> bool
    decreases path.len(),
{
    if path.len() == 0 {
        true
    } else {
        solver_step_ok(draw, p, path[0]) && solver_path_ok(draw, apply_spec(p, path[0]), path.drop_first())
    }
}

proof fn lemma_solver_path_push(draw: u8, p: Seq<Seq<Card>>, path: Seq<Move>, m: Move)
    requires
        solver_path_ok(draw, p, path),
        solver_step_ok(draw, apply_seq(p, path), m),
    ensures
        solver_path_ok(draw, p, path.push(m)),
    decreases path.len(),
{
    if path.len() > 0 {
        let q = apply_spec(p, path[0]);
        assert(path.push(m).drop_first() =~= path.drop_first().push(m));
        assert(path.push(m)[0] == path[0]);
        assert(apply_seq(p, path) == apply_seq(q, path.drop_first()));
        lemma_solver_path_push(draw, q, path.drop_first(), m);
    } else {
        assert(apply_seq(p, path) == p);
        assert(path.push(m)[0] == m);
        assert(path.push(m).drop_first() =~= Seq::<Move>::empty());
        assert(solver_path_ok(draw, apply_spec(p, m), Seq::<Move>::empty()));
    }
}

/// Every foundation holds thirteen cards.
fn board_won(piles: &PileSet) -> (r: bool)
    requires
        piles@.len() == 13,
    ensures
        r == klondike_won(piles@),
{
    let mut fid: u8 = FOUND_FIRST;
    while fid <= FOUND_LAST
        invariant
            piles@.len() == 13,
            FOUND_FIRST <= fid <= FOUND_LAST + 1,
            forall|f: int| FOUND_FIRST <= f < fid ==> (#[trigger] piles@[f]).len() == 13,
        decreases FOUND_LAST + 1 - fid,
    {
        if piles.pile_len(fid) != 13 {
            return false;
        }
        fid = fid + 1;
    }
    true
}

/// The first foundation that accepts `card`.
fn legal_to_foundation(piles: &PileSet, card: &Card) -> (r: Option<u8>)
    requires
        piles@.len() == 13,
    ensures
        match r {
            Some(f) => first_foundation(piles@, *card, f as int),
            None => forall|f: int| is_foundation_spec(f) ==> !foundation_accepts(#[trigger] piles@[f], *card),
        },
{
    let mut fid: u8 = FOUND_FIRST;
    while fid <= FOUND_LAST
        invariant
            piles@.len() == 13,
            FOUND_FIRST <= fid <= FOUND_LAST + 1,
            forall|f: int| FOUND_FIRST <= f < fid ==> !foundation_accepts(#[trigger] piles@[f], *card),
        decreases FOUND_LAST + 1 - fid,
    {
        if foundation_accepts_exec(piles, fid, card) {
            return Some(fid);
        }
        fid = fid + 1;
    }
    None
}

/// `n` truncated to a byte, as a move's card count holds it.
fn low_byte(n: usize) -> (b: u8)
    ensures
        b <= n,
        n < 256 ==> b == n,
        b == n % 256,
{
    (n % 256) as u8
}

/// Entries of equal score come in rising `key` order.
pub open spec fn ties_rise(v: Seq<(i32, Move)>, key: spec_fn(Move) -> (int, int, int, int)) -> bool {
    forall|a: int, b: int| 0 <= a < b < v.len() && (#[trigger] v[a]).0 == (#[trigger] v[b]).0 ==> key_lt(key(v[a].1), key(v[b].1))
}

/// Exchanging two neighbours of different scores keeps the order of ties.
proof fn lemma_swap_ties(v: Seq<(i32, Move)>, j: int, key: spec_fn(Move) -> (int, int, int, int))
    requires
        ties_rise(v, key),
        0 < j < v.len(),
        v[j - 1].0 < v[j].0,
    ensures
        ties_rise(v.update(j - 1, v[j]).update(j, v[j - 1]), key),
{
    let w = v.update(j - 1, v[j]).update(j, v[j - 1]);
    assert forall|a: int, b: int| 0 <= a < b < w.len() && (#[trigger] w[a]).0 == (#[trigger] w[b]).0 implies key_lt(
        key(w[a].1),
        key(w[b].1),
    ) by {
        let sa = if a == j - 1 { j } else if a == j { j - 1 } else { a };
        let sb = if b == j - 1 { j } else if b == j { j - 1 } else { b };
        assert(w[a] == v[sa]);
        assert(w[b] == v[sb]);
        assert(sa < sb);
    }
}

/// Sort by score, highest first; equal scores keep their order.
pub(crate) fn sort_by_score_desc(v: &mut Vec<(i32, Move)>, Ghost(key): Ghost<spec_fn(Move) -> (int, int, int, int)>)
    requires
        ties_rise(old(v)@, key),
    ensures
        final(v)@.len() == old(v)@.len(),
        final(v)@.to_multiset() == old(v)@.to_multiset(),
        forall|i: int, j: int| 0 <= i < j < final(v)@.len() ==> (#[trigger] final(v)@[i]).0 >= (#[trigger] final(v)@[j]).0,
        ties_rise(final(v)@, key),
{
    broadcast use vstd::seq_lib::to_multiset_update;

    let ghost orig = v@;
    let n = v.len();
    let mut i: usize = 1;
    while i < n
        invariant
            n == v@.len(),
            v@.to_multiset() == orig.to_multiset(),
            ties_rise(v@, key),
            1 <= i,
            i <= n || n == 0,
            forall|a: int, b: int| 0 <= a < b < i && b < n ==> (#[trigger] v@[a]).0 >= (#[trigger] v@[b]).0,
        decreases n - i,
    {
        let mut j: usize = i;
        while j > 0 && v[j - 1].0 < v[j].0
            invariant
                n == v@.len(),
                v@.to_multiset() == orig.to_multiset(),
                ties_rise(v@, key),
                j <= i < n,
                forall|a: int, b: int| 0 <= a < b <= i && a != j && b != j ==> (#[trigger] v@[a]).0 >= (#[trigger] v@[b]).0,
                forall|b: int| j < b <= i ==> v@[j as int].0 > (#[trigger] v@[b]).0,
            decreases j,
        {
            let x = v[j - 1];
            let y = v[j];
            let ghost before = v@;
            proof {
                lemma_swap_ties(before, j as int, key);
            }
            v.set(j - 1, y);
            let ghost mid = v@;
            v.set(j, x);
            proof {
                broadcast use vstd::multiset::group_multiset_axioms;

                assert(mid == before.update(j - 1, y));
                vstd::seq_lib::to_multiset_update(before, j - 1, y);
                assert(v@ == mid.update(j as int, x));
                vstd::seq_lib::to_multiset_update(mid, j as int, x);
                assert(before.to_multiset().count(x) > 0) by {
                    broadcast use vstd::seq_lib::to_multiset_contains;

                    assert(before.contains(x));
                }
                assert(v@.to_multiset() =~= before.to_multiset());
            }
            j = j - 1;
        }
        i = i + 1;
    }
}

/// `f` is the first foundation that accepts `c`.
pub open spec fn first_foundation(p: Seq<Seq<Card>>, c: Card, f: int) -> bool {
    &&& is_foundation_spec(f)
    &&& foundation_accepts(p[f], c)
    &&& forall|g: int| FOUND_FIRST <= g < f ==> !foundation_accepts(#[trigger] p[g], c)
}

/// Column pile `q` takes `head` on top: an empty column a King, otherwise
/// a face-up top one rank above in the other colour.
pub open spec fn column_takes(q: Seq<Card>, head: Card) -> bool {
    match top_of(q) {
        None => head.rank == Rank::King,
        Some(top) => top.face_up && alt_color_desc(top, head),
    }
}

/// Lifting the cards of `s` from `st` up leaves a face-down card on top.
pub open spec fn uncovers(s: Seq<Card>, st: int) -> bool {
    st > 0 && !s[st - 1].face_up
}

/// Column `t`'s face-up top card goes to its first accepting foundation `f`.
pub open spec fn top_home_ok(p: Seq<Seq<Card>>, t: int, f: int) -> bool {
    &&& is_tableau_spec(t)
    &&& p[t].len() > 0
    &&& p[t].last().face_up
    &&& first_foundation(p, p[t].last(), f)
}

pub open spec fn top_home_move(p: Seq<Seq<Card>>, t: int, f: int) -> Move {
    Move { flip_source_after: uncovers(p[t], p[t].len() - 1), ..simple_spec(t as u8, 1, f as u8) }
}

/// The waste's top card goes to its first accepting foundation `f`.
pub open spec fn waste_home_ok(p: Seq<Seq<Card>>, f: int) -> bool {
    &&& p[WASTE as int].len() > 0
    &&& first_foundation(p, p[WASTE as int].last(), f)
}

/// The run of column `s` from `st` up (face-up, alternating, descending)
/// goes onto column `d`; a King-led whole column never goes to an empty one.
pub open spec fn run_move_ok(p: Seq<Seq<Card>>, s: int, st: int, d: int) -> bool {
    &&& is_tableau_spec(s)
    &&& is_tableau_spec(d)
    &&& d != s
    &&& 0 <= st < p[s].len()
    &&& alt_run(p[s].subrange(st, p[s].len() as int))
    &&& column_takes(p[d], p[s][st])
    &&& !(st == 0 && p[d].len() == 0 && p[s][st].rank == Rank::King)
}

pub open spec fn run_move(p: Seq<Seq<Card>>, s: int, st: int, d: int) -> Move {
    Move { flip_source_after: uncovers(p[s], st), ..simple_spec(s as u8, (p[s].len() - st) as u8, d as u8) }
}

/// The waste's top card goes onto column `d`.
pub open spec fn waste_to_column_ok(p: Seq<Seq<Card>>, d: int) -> bool {
    &&& is_tableau_spec(d)
    &&& p[WASTE as int].len() > 0
    &&& column_takes(p[d], p[WASTE as int].last())
}

/// The moves the solver tries on `p` before the stock click.
pub open spec fn solver_candidate(p: Seq<Seq<Card>>, m: Move) -> bool {
    ||| exists|t: int, f: int| top_home_ok(p, t, f) && m == top_home_move(p, t, f)
    ||| exists|f: int| waste_home_ok(p, f) && m == simple_spec(WASTE, 1, f as u8)
    ||| exists|s: int, st: int, d: int| run_move_ok(p, s, st, d) && m == run_move(p, s, st, d)
    ||| exists|d: int| waste_to_column_ok(p, d) && m == simple_spec(WASTE, 1, d as u8)
}

/// How promising the solver rates a candidate: a column top home 2000, the
/// waste top home 1900, a column run 1000 when it uncovers a face-down card
/// plus 3 per card moved, the waste top onto a column 500.
pub open spec fn move_score(m: Move) -> int {
    if is_foundation_spec(m.to as int) {
        if m.from == WASTE {
            1900
        } else {
            2000
        }
    } else if m.from == WASTE {
        500
    } else {
        (if m.flip_source_after { 1000int } else { 0int }) + 3 * m.take
    }
}

/// The stock click the solver tries last: draw (up to `draw`, at least
/// one) while the stock holds cards, else turn the waste over.
pub open spec fn stock_click(p: Seq<Seq<Card>>, draw: u8) -> Seq<Move> {
    if p[STOCK as int].len() > 0 {
        let d: u8 = if draw > 1 { draw } else { 1 };
        let s8 = (p[STOCK as int].len() % 256) as u8;
        seq![Move { flip_moved: true, ..simple_spec(STOCK, if s8 < d { s8 } else { d }, WASTE) }]
    } else if p[WASTE as int].len() > 0 {
        seq![Move { flip_moved: true, reverse_order: true, ..simple_spec(WASTE, (p[WASTE as int].len() % 256) as u8, STOCK) }]
    } else {
        Seq::empty()
    }
}

/// Where the move generator meets a candidate: column tops home by column,
/// then the waste home, then runs by source column, start and destination,
/// then the waste onto each column.
pub open spec fn solver_scan_key(p: Seq<Seq<Card>>, m: Move) -> (int, int, int, int) {
    if is_foundation_spec(m.to as int) {
        if m.from == WASTE {
            (1, 0, 0, 0)
        } else {
            (0, m.from as int, 0, 0)
        }
    } else if m.from == WASTE {
        (3, m.to as int, 0, 0)
    } else {
        (2, m.from as int, p[m.from as int].len() - m.take, m.to as int)
    }
}

/// The entries of `s` were met in rising `key` order, all before `bound`.
pub open spec fn keys_before(key: spec_fn(Move) -> (int, int, int, int), s: Seq<(i32, Move)>, bound: (int, int, int, int)) -> bool {
    &&& forall|i: int| 0 <= i < s.len() ==> key_lt(key((#[trigger] s[i]).1), bound)
    &&& forall|a: int, b: int| 0 <= a < b < s.len() ==> key_lt(key((#[trigger] s[a]).1), key((#[trigger] s[b]).1))
}

pub proof fn lemma_keys_raise(
    key: spec_fn(Move) -> (int, int, int, int),
    s: Seq<(i32, Move)>,
    b1: (int, int, int, int),
    b2: (int, int, int, int),
)
    requires
        keys_before(key, s, b1),
        key_lt(b1, b2),
    ensures
        keys_before(key, s, b2),
{
}

pub proof fn lemma_keys_push(
    key: spec_fn(Move) -> (int, int, int, int),
    s: Seq<(i32, Move)>,
    e: (i32, Move),
    b1: (int, int, int, int),
    b2: (int, int, int, int),
)
    requires
        keys_before(key, s, b1),
        key(e.1) == b1,
        key_lt(b1, b2),
    ensures
        keys_before(key, s.push(e), b2),
{
    let t = s.push(e);
    assert forall|a: int, b: int| 0 <= a < b < t.len() implies key_lt(key((#[trigger] t[a]).1), key((#[trigger] t[b]).1)) by {
        assert(t[a] == s[a]);
        if b < s.len() {
            assert(t[b] == s[b]);
        }
    }
    assert forall|i: int| 0 <= i < t.len() implies key_lt(key((#[trigger] t[i]).1), b2) by {
        if i < s.len() {
            assert(t[i] == s[i]);
        }
    }
}

/// Keys rising throughout leave ties rising.
pub proof fn lemma_keys_ties(key: spec_fn(Move) -> (int, int, int, int), s: Seq<(i32, Move)>, b: (int, int, int, int))
    requires
        keys_before(key, s, b),
    ensures
        ties_rise(s, key),
{
}

/// `out` is every candidate of `p`, highest score first, in scan order
/// among equal scores, then the stock click.
pub open spec fn ordered_moves(p: Seq<Seq<Card>>, draw: u8, out: Seq<Move>) -> bool {
    let k = out.len() - stock_click(p, draw).len();
    &&& out.len() >= stock_click(p, draw).len()
    &&& out.subrange(k, out.len() as int) == stock_click(p, draw)
    &&& forall|i: int| 0 <= i < k ==> solver_candidate(p, #[trigger] out[i])
    &&& forall|m: Move| solver_candidate(p, m) ==> out.subrange(0, k).contains(m)
    &&& forall|i: int, j: int| 0 <= i < j < k ==> move_score(#[trigger] out[i]) >= move_score(#[trigger] out[j])
    &&& forall|i: int, j: int| 0 <= i < j < k && move_score(#[trigger] out[i]) == move_score(#[trigger] out[j]) ==> key_lt(
        solver_scan_key(p, out[i]),
        solver_scan_key(p, out[j]),
    )
}

/// Some entry of `s` carries move `m`.
spec fn has_move(s: Seq<(i32, Move)>, m: Move) -> bool {
    exists|i: int| 0 <= i < s.len() && (#[trigger] s[i]).1 == m
}

proof fn lemma_has_push(s: Seq<(i32, Move)>, e: (i32, Move))
    ensures
        has_move(s.push(e), e.1),
        forall|m: Move| has_move(s, m) ==> #[trigger] has_move(s.push(e), m),
{
    assert(s.push(e)[s.len() as int] == e);
    assert forall|m: Move| has_move(s, m) implies #[trigger] has_move(s.push(e), m) by {
        let i = choose|i: int| 0 <= i < s.len() && (#[trigger] s[i]).1 == m;
        assert(s.push(e)[i] == s[i]);
    }
}

/// Every entry of `s` is a candidate step carrying its own score.
spec fn scored_ok(draw: u8, p: Seq<Seq<Card>>, s: Seq<(i32, Move)>) -> bool {
    forall|i: int| 0 <= i < s.len() ==> {
        &&& solver_step_ok(draw, p, (#[trigger] s[i]).1)
        &&& solver_candidate(p, s[i].1)
        &&& s[i].0 == move_score(s[i].1)
    }
}

proof fn lemma_scored_push(draw: u8, p: Seq<Seq<Card>>, s: Seq<(i32, Move)>, e: (i32, Move))
    requires
        scored_ok(draw, p, s),
        solver_step_ok(draw, p, e.1),
        solver_candidate(p, e.1),
        e.0 == move_score(e.1),
    ensures
        scored_ok(draw, p, s.push(e)),
{
    assert forall|i: int| 0 <= i < s.push(e).len() implies {
        &&& solver_step_ok(draw, p, (#[trigger] s.push(e)[i]).1)
        &&& solver_candidate(p, s.push(e)[i].1)
        &&& s.push(e)[i].0 == move_score(s.push(e)[i].1)
    } by {
        if i < s.len() {
            assert(s.push(e)[i] == s[i]);
        }
    }
}

spec fn tops_home_done(p: Seq<Seq<Card>>, s: Seq<(i32, Move)>, upto: int) -> bool {
    forall|t: int, f: int| t < upto && top_home_ok(p, t, f) ==> has_move(s, #[trigger] top_home_move(p, t, f))
}

spec fn waste_home_done(p: Seq<Seq<Card>>, s: Seq<(i32, Move)>) -> bool {
    forall|f: int| waste_home_ok(p, f) ==> has_move(s, #[trigger] simple_spec(WASTE, 1, f as u8))
}

spec fn runs_done(p: Seq<Seq<Card>>, s: Seq<(i32, Move)>, a: int, b: int, c: int) -> bool {
    forall|x: int, y: int, z: int|
        (x < a || (x == a && (y < b || (y == b && z < c)))) && run_move_ok(p, x, y, z) ==> has_move(s, #[trigger] run_move(p, x, y, z))
}

spec fn waste_col_done(p: Seq<Seq<Card>>, s: Seq<(i32, Move)>, upto: int) -> bool {
    forall|d: int| d < upto && waste_to_column_ok(p, d) ==> has_move(s, #[trigger] simple_spec(WASTE, 1, d as u8))
}

/// Growing `s` keeps whatever it already covered.
proof fn lemma_done_push(p: Seq<Seq<Card>>, s: Seq<(i32, Move)>, e: (i32, Move), t: int, a: int, b: int, c: int, w: int)
    ensures
        tops_home_done(p, s, t) ==> tops_home_done(p, s.push(e), t),
        waste_home_done(p, s) ==> waste_home_done(p, s.push(e)),
        runs_done(p, s, a, b, c) ==> runs_done(p, s.push(e), a, b, c),
        waste_col_done(p, s, w) ==> waste_col_done(p, s.push(e), w),
        has_move(s.push(e), e.1),
{
    lemma_has_push(s, e);
}

/// The first accepting foundation is unique.
proof fn lemma_first_foundation_unique(p: Seq<Seq<Card>>, c: Card, f: int, g: int)
    requires
        first_foundation(p, c, f),
        first_foundation(p, c, g),
    ensures
        f == g,
{
    if f < g {
        assert(!foundation_accepts(p[f], c));
    } else if g < f {
        assert(!foundation_accepts(p[g], c));
    }
}

/// The moves worth trying on `piles`, most promising first: every tableau
/// top that can go home, the waste top home, every run onto another column,
/// the waste top onto a column, ranked by `move_score` (equal scores in
/// that order), then the stock click (draw, or recycle the waste). Each is
/// applicable, and legal on a sane board.
pub fn generate_ordered_moves(piles: &PileSet, draw_count: u8) -> (out: Vec<Move>)
    requires
        piles@.len() == 13,
    ensures
        forall|i: int| 0 <= i < out@.len() ==> solver_step_ok(draw_count, piles@, #[trigger] out@[i]),
        ordered_moves(piles@, draw_count, out@),
{
    let ghost p = piles@;
    let ghost key = |m: Move| solver_scan_key(p, m);
    let mut scored: Vec<(i32, Move)> = Vec::new();

    // Tableau tops to a foundation.
    let mut tid: u8 = TABLEAU_FIRST;
    while tid <= TABLEAU_LAST
        invariant
            p == piles@,
            p.len() == 13,
            TABLEAU_FIRST <= tid <= TABLEAU_LAST + 1,
            scored_ok(draw_count, p, scored@),
            tops_home_done(p, scored@, tid as int),
            keys_before(key, scored@, (0, tid as int, 0, 0)),
            forall|m: Move| #[trigger] key(m) == solver_scan_key(p, m),
        decreases TABLEAU_LAST + 1 - tid,
    {
        let ghost s0 = scored@;
        let n = piles.pile_len(tid);
        if n > 0 {
            let top = piles.card_at(tid, n - 1);
            if top.face_up {
                match legal_to_foundation(piles, &top) {
                    Some(fid) => {
                        let exposes = n > 1 && !piles.card_at(tid, n - 2).face_up;
                        let mut m = Move::simple(tid, 1, fid);
                        if exposes {
                            m = m.with_flip_source();
                        }
                        let ghost before = scored@;
                        proof {
                            assert(top_part(p[tid as int], 1) =~= seq![top]);
                            assert(top_home_ok(p, tid as int, fid as int));
                            assert(m == top_home_move(p, tid as int, fid as int));
                            lemma_scored_push(draw_count, p, before, (2000, m));
                            lemma_done_push(p, before, (2000i32, m), tid as int, 0, 0, 0, 0);
                            lemma_keys_push(key, before, (2000i32, m), (0, tid as int, 0, 0), (0, tid + 1, 0, 0));
                            assert forall|t: int, f: int| t < tid + 1 && top_home_ok(p, t, f) implies has_move(
                                before.push((2000i32, m)),
                                #[trigger] top_home_move(p, t, f),
                            ) by {
                                if t == tid {
                                    lemma_first_foundation_unique(p, top, f, fid as int);
                                }
                            }
                        }
                        scored.push((2000, m));
                    },
                    None => {},
                }
            }
        }
        proof {
            if scored@ == s0 {
                lemma_keys_raise(key, s0, (0, tid as int, 0, 0), (0, tid + 1, 0, 0));
            }
        }
        tid = tid + 1;
    }
    proof {
        lemma_keys_raise(key, scored@, (0, tid as int, 0, 0), (1, 0, 0, 0));
    }

    // The waste top to a foundation.
    let wn = piles.pile_len(WASTE);
    if wn > 0 {
        let top = piles.card_at(WASTE, wn - 1);
        match legal_to_foundation(piles, &top) {
            Some(fid) => {
                let ghost before = scored@;
                let m = Move::simple(WASTE, 1, fid);
                proof {
                    assert(top_part(p[WASTE as int], 1) =~= seq![top]);
                    assert(waste_home_ok(p, fid as int));
                    lemma_scored_push(draw_count, p, before, (1900, m));
                    lemma_done_push(p, before, (1900i32, m), TABLEAU_LAST + 1, 0, 0, 0, 0);
                    lemma_keys_push(key, before, (1900i32, m), (1, 0, 0, 0), (2, 0, 0, 0));
                    assert forall|f: int| waste_home_ok(p, f) implies has_move(before.push((1900i32, m)), #[trigger] simple_spec(WASTE, 1, f as u8)) by {
                        lemma_first_foundation_unique(p, top, f, fid as int);
                    }
                }
                scored.push((1900, m));
            },
            None => {},
        }
    }
    assert(waste_home_done(p, scored@));
    proof {
        if !keys_before(key, scored@, (2, 0, 0, 0)) {
            lemma_keys_raise(key, scored@, (1, 0, 0, 0), (2, 0, 0, 0));
        }
    }

    // Tableau runs onto other columns.
    let mut src: u8 = TABLEAU_FIRST;
    while src <= TABLEAU_LAST
        invariant
            p == piles@,
            p.len() == 13,
            TABLEAU_FIRST <= src <= TABLEAU_LAST + 1,
            scored_ok(draw_count, p, scored@),
            tops_home_done(p, scored@, TABLEAU_LAST + 1),
            waste_home_done(p, scored@),
            runs_done(p, scored@, src as int, 0, 0),
            keys_before(key, scored@, (2, src as int, 0, 0)),
            forall|m: Move| #[trigger] key(m) == solver_scan_key(p, m),
        decreases TABLEAU_LAST + 1 - src,
    {
        let n = piles.pile_len(src);
        let cards = piles.get(src).cards.as_slice();
        let mut start: usize = 0;
        while start < n
            invariant
                p == piles@,
                p.len() == 13,
                TABLEAU_FIRST <= src <= TABLEAU_LAST,
                n == p[src as int].len(),
                cards@ == p[src as int],
                start <= n,
                scored_ok(draw_count, p, scored@),
                tops_home_done(p, scored@, TABLEAU_LAST + 1),
                waste_home_done(p, scored@),
                runs_done(p, scored@, src as int, start as int, 0),
                keys_before(key, scored@, (2, src as int, start as int, 0)),
                forall|m: Move| #[trigger] key(m) == solver_scan_key(p, m),
            decreases n - start,
        {
            if cards[start].face_up && valid_run_from(cards, start) {
                let take = n - start;
                proof {
                    lemma_run_len(p[src as int].subrange(start as int, n as int));
                    assert(top_part(p[src as int], take as int) =~= p[src as int].subrange(start as int, n as int));
                }
                let head = cards[start];
                let exposes = start > 0 && !cards[start - 1].face_up;
                let empties = start == 0;
                let mut dst: u8 = TABLEAU_FIRST;
                proof {
                    lemma_keys_raise(key, scored@, (2, src as int, start as int, 0), (2, src as int, start as int, TABLEAU_FIRST as int));
                    assert forall|x: int, y: int, z: int|
                        (x < src || (x == src && (y < start || (y == start && z < dst)))) && run_move_ok(p, x, y, z)
                        implies has_move(scored@, #[trigger] run_move(p, x, y, z)) by {
                        if x == src && y == start {
                            assert(z < TABLEAU_FIRST);
                        }
                    }
                }
                while dst <= TABLEAU_LAST
                    invariant
                        p == piles@,
                        p.len() == 13,
                        TABLEAU_FIRST <= src <= TABLEAU_LAST,
                        n == p[src as int].len(),
                        start < n,
                        take == n - start,
                        take <= 13,
                        head == p[src as int][start as int],
                        alt_run(top_part(p[src as int], take as int)),
                        top_part(p[src as int], take as int)[0] == head,
                        top_part(p[src as int], take as int) == p[src as int].subrange(start as int, n as int),
                        exposes == uncovers(p[src as int], start as int),
                        empties == (start == 0),
                        TABLEAU_FIRST <= dst <= TABLEAU_LAST + 1,
                        scored_ok(draw_count, p, scored@),
                        tops_home_done(p, scored@, TABLEAU_LAST + 1),
                        waste_home_done(p, scored@),
                        runs_done(p, scored@, src as int, start as int, dst as int),
                        keys_before(key, scored@, (2, src as int, start as int, dst as int)),
                        forall|m: Move| #[trigger] key(m) == solver_scan_key(p, m),
                    decreases TABLEAU_LAST + 1 - dst,
                {
                    let ghost s0 = scored@;
                    if dst != src {
                        let dst_len = piles.pile_len(dst);
                        let legal = match piles.top_card(dst) {
                            None => head.rank == Rank::King,
                            Some(top) => top.face_up && alt_color_descending(&top, &head),
                        };
                        if legal && !(empties && dst_len == 0 && head.rank == Rank::King) {
                            let mut score: i32 = 0;
                            if exposes {
                                score = score + 1000;
                            }
                            score = score + take as i32 * 3;
                            let mut m = Move::simple(src, take as u8, dst);
                            if exposes {
                                m = m.with_flip_source();
                            }
                            let ghost before = scored@;
                            proof {
                                assert(run_move_ok(p, src as int, start as int, dst as int));
                                assert(m == run_move(p, src as int, start as int, dst as int));
                                assert(solver_candidate(p, m));
                                lemma_scored_push(draw_count, p, before, (score, m));
                                lemma_done_push(p, before, (score, m), TABLEAU_LAST + 1, src as int, start as int, dst as int, 0);
                                lemma_keys_push(key, before, (score, m), (2, src as int, start as int, dst as int), (2, src as int, start as int, dst + 1));
                                assert forall|x: int, y: int, z: int|
                                    (x < src || (x == src && (y < start || (y == start && z < dst + 1)))) && run_move_ok(p, x, y, z)
                                    implies has_move(before.push((score, m)), #[trigger] run_move(p, x, y, z)) by {
                                    if x == src && y == start && z == dst {
                                    } else {
                                        assert(has_move(before, run_move(p, x, y, z)));
                                    }
                                }
                            }
                            scored.push((score, m));
                        } else {
                            proof {
                                assert(!run_move_ok(p, src as int, start as int, dst as int));
                            }
                        }
                    }
                    proof {
                        if scored@ == s0 {
                            lemma_keys_raise(key, s0, (2, src as int, start as int, dst as int), (2, src as int, start as int, dst + 1));
                        }
                    }
                    dst = dst + 1;
                }
                proof {
                    lemma_keys_raise(key, scored@, (2, src as int, start as int, dst as int), (2, src as int, start + 1, 0));
                }
            } else {
                proof {
                    lemma_keys_raise(key, scored@, (2, src as int, start as int, 0), (2, src as int, start + 1, 0));
                    assert forall|z: int| !run_move_ok(p, src as int, start as int, z) by {
                        if 0 <= start < n && !cards@[start as int].face_up {
                            assert(p[src as int].subrange(start as int, n as int)[0] == p[src as int][start as int]);
                        }
                    }
                }
            }
            start = start + 1;
        }
        proof {
            assert forall|x: int, y: int, z: int|
                (x < src + 1 || (x == src + 1 && (y < 0 || (y == 0 && z < 0)))) && run_move_ok(p, x, y, z)
                implies has_move(scored@, #[trigger] run_move(p, x, y, z)) by {
                if x == src {
                    assert(y < n);
                }
            }
            lemma_keys_raise(key, scored@, (2, src as int, start as int, 0), (2, src + 1, 0, 0));
        }
        src = src + 1;
    }
    proof {
        lemma_keys_raise(key, scored@, (2, src as int, 0, 0), (3, TABLEAU_FIRST as int, 0, 0));
    }

    // The waste top onto a column.
    if wn > 0 {
        let top = piles.card_at(WASTE, wn - 1);
        proof {
            assert(top_part(p[WASTE as int], 1) =~= seq![top]);
        }
        let mut dst: u8 = TABLEAU_FIRST;
        while dst <= TABLEAU_LAST
            invariant
                p == piles@,
                p.len() == 13,
                wn == p[WASTE as int].len(),
                wn > 0,
                top == p[WASTE as int][wn - 1],
                top_part(p[WASTE as int], 1) == seq![top],
                TABLEAU_FIRST <= dst <= TABLEAU_LAST + 1,
                scored_ok(draw_count, p, scored@),
                tops_home_done(p, scored@, TABLEAU_LAST + 1),
                waste_home_done(p, scored@),
                runs_done(p, scored@, TABLEAU_LAST + 1, 0, 0),
                waste_col_done(p, scored@, dst as int),
                keys_before(key, scored@, (3, dst as int, 0, 0)),
                forall|m: Move| #[trigger] key(m) == solver_scan_key(p, m),
            decreases TABLEAU_LAST + 1 - dst,
        {
            let ghost s0 = scored@;
            let legal = match piles.top_card(dst) {
                None => top.rank == Rank::King,
                Some(dt) => dt.face_up && alt_color_descending(&dt, &top),
            };
            if legal {
                let ghost before = scored@;
                let m = Move::simple(WASTE, 1, dst);
                proof {
                    assert(waste_to_column_ok(p, dst as int));
                    lemma_scored_push(draw_count, p, before, (500, m));
                    lemma_done_push(p, before, (500i32, m), TABLEAU_LAST + 1, TABLEAU_LAST + 1, 0, 0, dst as int);
                    lemma_keys_push(key, before, (500i32, m), (3, dst as int, 0, 0), (3, dst + 1, 0, 0));
                }
                scored.push((500, m));
            }
            proof {
                if scored@ == s0 {
                    lemma_keys_raise(key, s0, (3, dst as int, 0, 0), (3, dst + 1, 0, 0));
                }
            }
            dst = dst + 1;
        }
        proof {
            lemma_keys_raise(key, scored@, (3, dst as int, 0, 0), (4, 0, 0, 0));
        }
    } else {
        proof {
            lemma_keys_raise(key, scored@, (3, TABLEAU_FIRST as int, 0, 0), (4, 0, 0, 0));
        }
    }
    proof {
        assert forall|d: int| waste_to_column_ok(p, d) implies has_move(scored@, #[trigger] simple_spec(WASTE, 1, d as u8)) by {
            assert(wn > 0);
            assert(d < TABLEAU_LAST + 1);
        }
    }

    let ghost unsorted = scored@;
    proof {
        lemma_keys_ties(key, unsorted, (4, 0, 0, 0));
    }
    sort_by_score_desc(&mut scored, Ghost(key));
    proof {
        assert forall|i: int| 0 <= i < scored@.len() implies {
            &&& solver_step_ok(draw_count, p, (#[trigger] scored@[i]).1)
            &&& solver_candidate(p, scored@[i].1)
            &&& scored@[i].0 == move_score(scored@[i].1)
        } by {
            assert(scored@.contains(scored@[i]));
            vstd::seq_lib::to_multiset_contains(scored@, scored@[i]);
            vstd::seq_lib::to_multiset_contains(unsorted, scored@[i]);
            assert(unsorted.contains(scored@[i]));
            let j = choose|j: int| 0 <= j < unsorted.len() && unsorted[j] == scored@[i];
            assert(unsorted[j].1 == scored@[i].1);
        }
        assert forall|m: Move| solver_candidate(p, m) implies has_move(scored@, m) by {
            assert(has_move(unsorted, m));
            let j = choose|j: int| 0 <= j < unsorted.len() && (#[trigger] unsorted[j]).1 == m;
            assert(unsorted.contains(unsorted[j]));
            vstd::seq_lib::to_multiset_contains(unsorted, unsorted[j]);
            vstd::seq_lib::to_multiset_contains(scored@, unsorted[j]);
            assert(scored@.contains(unsorted[j]));
            let i = choose|i: int| 0 <= i < scored@.len() && scored@[i] == unsorted[j];
            assert(scored@[i].1 == m);
        }
    }
    let mut out: Vec<Move> = Vec::new();
    let k = scored.len();
    let mut i: usize = 0;
    while i < k
        invariant
            k == scored@.len(),
            i <= k,
            out@.len() == i,
            forall|j: int| 0 <= j < i ==> #[trigger] out@[j] == scored@[j].1,
        decreases k - i,
    {
        out.push(scored[i].1);
        i = i + 1;
    }
    let ghost body = out@;
    proof {
        assert forall|j: int| 0 <= j < out@.len() implies solver_step_ok(draw_count, p, #[trigger] out@[j]) by {
            assert(out@[j] == scored@[j].1);
        }
        assert forall|m: Move| solver_candidate(p, m) implies body.contains(m) by {
            assert(has_move(scored@, m));
            let i = choose|i: int| 0 <= i < scored@.len() && (#[trigger] scored@[i]).1 == m;
            assert(body[i] == m);
        }
        assert forall|a: int, b: int| 0 <= a < b < body.len() implies move_score(#[trigger] body[a]) >= move_score(#[trigger] body[b]) by {
            assert(body[a] == scored@[a].1);
            assert(body[b] == scored@[b].1);
        }
        assert forall|a: int, b: int| 0 <= a < b < body.len() && move_score(#[trigger] body[a]) == move_score(#[trigger] body[b])
            implies key_lt(solver_scan_key(p, body[a]), solver_scan_key(p, body[b])) by {
            assert(body[a] == scored@[a].1);
            assert(body[b] == scored@[b].1);
            assert(scored@[a].0 == scored@[b].0);
        }
    }

    // The stock click comes last.
    let sn = piles.pile_len(STOCK);
    if sn > 0 {
        let d = if draw_count > 1 {
            draw_count
        } else {
            1
        };
        let s8 = low_byte(sn);
        let take = if s8 < d {
            s8
        } else {
            d
        };
        let m = Move::simple(STOCK, take, WASTE).with_flip_moved();
        out.push(m);
    } else if wn > 0 {
        let m = Move::simple(WASTE, low_byte(wn), STOCK).with_flip_moved().with_reverse();
        out.push(m);
    }
    proof {
        let tail = stock_click(p, draw_count);
        assert(out@.subrange(0, body.len() as int) =~= body);
        assert(out@.subrange(body.len() as int, out@.len() as int) =~= tail);
        assert(out@.len() - tail.len() == body.len());
    }
    out
}

/// A move the solver tries on `p`: a candidate, or the stock click.
pub open spec fn solver_move(draw: u8, p: Seq<Seq<Card>>, m: Move) -> bool {
    solver_candidate(p, m) || stock_click(p, draw) == seq![m]
}

/// Every move of `path`, played in turn from `p`, is one the solver tries.
pub open spec fn move_line(draw: u8, p: Seq<Seq<Card>>, path: Seq<Move>) -> bool
    decreases path.len(),
{
    if path.len() == 0 {
        true
    } else {
        solver_move(draw, p, path[0]) && move_line(draw, apply_spec(p, path[0]), path.drop_first())
    }
}

/// The solver's moves lead from `p` to `q`.
pub open spec fn line_reaches(draw: u8, p: Seq<Seq<Card>>, q: Seq<Seq<Card>>) -> bool {
    exists|path: Seq<Move>| move_line(draw, p, path) && #[trigger] apply_seq(p, path) == q
}

/// Some line of at most `n` of the solver's moves from `q` wins.
pub open spec fn wins_within(draw: u8, q: Seq<Seq<Card>>, n: nat) -> bool {
    exists|path: Seq<Move>| path.len() <= n && move_line(draw, q, path) && klondike_won(#[trigger] apply_seq(q, path))
}

/// Boards the solver's moves reach from `p` that share a fingerprint are
/// equally near a win: for every `n`, both or neither win within `n`
/// moves. (Distinct fingerprints for distinct boards is one way for this
/// to hold.)
pub open spec fn merged_boards_alike(draw: u8, p: Seq<Seq<Card>>) -> bool {
    forall|q1: Seq<Seq<Card>>, q2: Seq<Seq<Card>>, n: nat|
        #![trigger line_reaches(draw, p, q1), line_reaches(draw, p, q2), wins_within(draw, q1, n)]
        line_reaches(draw, p, q1) && line_reaches(draw, p, q2) && klondike_fingerprint(q1) == klondike_fingerprint(q2)
            ==> wins_within(draw, q1, n) == wins_within(draw, q2, n)
}

/// No two boards the solver's moves reach from `p` share a fingerprint.
pub open spec fn fingerprints_distinct(draw: u8, p: Seq<Seq<Card>>) -> bool {
    forall|q1: Seq<Seq<Card>>, q2: Seq<Seq<Card>>|
        #![trigger line_reaches(draw, p, q1), line_reaches(draw, p, q2)]
        line_reaches(draw, p, q1) && line_reaches(draw, p, q2) && klondike_fingerprint(q1) == klondike_fingerprint(q2)
            ==> q1 == q2
}

/// Boards kept apart by their fingerprints are trivially alike.
pub proof fn law_distinct_fingerprints_alike(draw: u8, p: Seq<Seq<Card>>)
    requires
        fingerprints_distinct(draw, p),
    ensures
        merged_boards_alike(draw, p),
{
}

/// `t` holds pairs of a board the solver's moves reach from `p` and a move
/// it tries there, no two of its boards sharing a fingerprint unless they
/// are the same board.
pub open spec fn search_pairs(draw: u8, p: Seq<Seq<Card>>, t: Set<(Seq<Seq<Card>>, Move)>) -> bool {
    &&& t.finite()
    &&& forall|x: (Seq<Seq<Card>>, Move)| #[trigger] t.contains(x) ==> line_reaches(draw, p, x.0) && solver_move(draw, x.0, x.1)
    &&& forall|x: (Seq<Seq<Card>>, Move), y: (Seq<Seq<Card>>, Move)|
        #![trigger t.contains(x), t.contains(y)]
        t.contains(x) && t.contains(y) && klondike_fingerprint(x.0) == klondike_fingerprint(y.0) ==> x.0 == y.0
}

proof fn lemma_line_push(draw: u8, p: Seq<Seq<Card>>, path: Seq<Move>, m: Move)
    requires
        move_line(draw, p, path),
        solver_move(draw, apply_seq(p, path), m),
    ensures
        move_line(draw, p, path.push(m)),
    decreases path.len(),
{
    if path.len() > 0 {
        let q = apply_spec(p, path[0]);
        assert(path.push(m).drop_first() =~= path.drop_first().push(m));
        assert(path.push(m)[0] == path[0]);
        lemma_line_push(draw, q, path.drop_first(), m);
    } else {
        assert(path.push(m).drop_first() =~= Seq::<Move>::empty());
        assert(move_line(draw, apply_spec(p, m), Seq::<Move>::empty()));
    }
}

proof fn lemma_reach_push(draw: u8, s: Seq<Seq<Card>>, q: Seq<Seq<Card>>, m: Move)
    requires
        line_reaches(draw, s, q),
        solver_move(draw, q, m),
    ensures
        line_reaches(draw, s, apply_spec(q, m)),
{
    let path = choose|path: Seq<Move>| move_line(draw, s, path) && #[trigger] apply_seq(s, path) == q;
    lemma_line_push(draw, s, path, m);
    lemma_apply_seq_push(s, path, m);
    assert(apply_seq(s, path.push(m)) == apply_spec(q, m));
}

/// Every solver move of `q` is in `moves`.
#[verifier::opaque]
spec fn moves_cover(draw: u8, q: Seq<Seq<Card>>, moves: Seq<Move>) -> bool {
    forall|m: Move| #![trigger solver_move(draw, q, m)] solver_move(draw, q, m) ==> exists|k: int| 0 <= k < moves.len() && moves[k] == m
}

/// No move is listed twice.
#[verifier::opaque]
spec fn moves_distinct(moves: Seq<Move>) -> bool {
    forall|a: int, b: int| 0 <= a < b < moves.len() ==> moves[a] != moves[b]
}

/// What the generator lists is exactly the solver's moves, each once.
proof fn lemma_moves_listed(p: Seq<Seq<Card>>, draw: u8, out: Seq<Move>)
    requires
        ordered_moves(p, draw, out),
    ensures
        forall|k: int| 0 <= k < out.len() ==> solver_move(draw, p, #[trigger] out[k]),
        moves_cover(draw, p, out),
        moves_distinct(out),
{
    let sc = stock_click(p, draw);
    let kk = out.len() - sc.len();
    assert forall|k: int| 0 <= k < out.len() implies solver_move(draw, p, #[trigger] out[k]) by {
        if k >= kk {
            assert(out.subrange(kk, out.len() as int)[k - kk] == out[k]);
            assert(sc.len() == 1);
            assert(sc =~= seq![out[k]]);
        }
    }
    reveal(moves_cover);
    assert forall|m: Move| #![trigger solver_move(draw, p, m)] solver_move(draw, p, m) implies exists|k: int|
        0 <= k < out.len() && out[k] == m by {
        if solver_candidate(p, m) {
            assert(out.subrange(0, kk).contains(m));
            let k = choose|k: int| 0 <= k < kk && out.subrange(0, kk)[k] == m;
            assert(out[k] == m);
        } else {
            assert(sc[0] == m);
            assert(out.subrange(kk, out.len() as int)[0] == out[kk]);
        }
    }
    reveal(moves_distinct);
    assert forall|a: int, b: int| 0 <= a < b < out.len() implies out[a] != out[b] by {
        if b < kk {
            if move_score(out[a]) == move_score(out[b]) {
                assert(key_lt(solver_scan_key(p, out[a]), solver_scan_key(p, out[b])));
            }
        } else {
            assert(out.subrange(kk, out.len() as int)[b - kk] == out[b]);
            assert(solver_candidate(p, out[a]));
            assert(out[b].flip_moved);
        }
    }
}

/// A card some foundation accepts has a first accepting foundation.
proof fn lemma_first_foundation_exists(p: Seq<Seq<Card>>, c: Card, f: int)
    requires
        is_foundation_spec(f),
        foundation_accepts(p[f], c),
    ensures
        exists|g: int| first_foundation(p, c, g),
    decreases f,
{
    if exists|g: int| FOUND_FIRST <= g < f && foundation_accepts(#[trigger] p[g], c) {
        let g = choose|g: int| FOUND_FIRST <= g < f && foundation_accepts(#[trigger] p[g], c);
        lemma_first_foundation_exists(p, c, g);
    } else {
        assert(first_foundation(p, c, f));
    }
}

/// An entry of the generator's list that is move `m`.
pub open spec fn lists_move(out: Seq<Move>, from: u8, take: u8, to: u8) -> bool {
    exists|k: int| 0 <= k < out.len() && (#[trigger] out[k]).from == from && out[k].take == take && out[k].to == to
}

/// The move generator misses no legal Klondike play of a card or run: on a
/// board whose non-empty columns show their top card, every legal move of
/// a run onto another column (except a whole column going to an empty
/// one, which changes nothing), of the waste top onto a column, and of a
/// column or waste top to a foundation, is listed (to a foundation, by its
/// source, to the first foundation that takes the card).
pub proof fn law_generator_lists_legal_moves(p: Seq<Seq<Card>>, draw: u8, out: Seq<Move>, m: Move)
    requires
        p.len() == 13,
        ordered_moves(p, draw, out),
        forall|t: int| is_tableau_spec(t) && p[t].len() > 0 ==> (#[trigger] p[t]).last().face_up,
        klondike_legal(draw, p, m),
        is_tableau_spec(m.from as int) || m.from == WASTE,
        is_tableau_spec(m.to as int) || is_foundation_spec(m.to as int),
        !(is_tableau_spec(m.from as int) && is_tableau_spec(m.to as int) && m.take == p[m.from as int].len()
            && p[m.to as int].len() == 0),
    ensures
        is_tableau_spec(m.to as int) && (is_tableau_spec(m.from as int) || m.take == 1) ==> lists_move(
            out,
            m.from,
            m.take,
            m.to,
        ),
        is_foundation_spec(m.to as int) ==> exists|k: int|
            0 <= k < out.len() && (#[trigger] out[k]).from == m.from && out[k].take == 1 && is_foundation_spec(
                out[k].to as int,
            ),
{
    let s = p[m.from as int];
    let n = s.len() as int;
    let k0 = m.take as int;
    let sc = stock_click(p, draw);
    let kk = out.len() - sc.len();
    let moved = top_part(s, k0);
    let cand: Move = if is_foundation_spec(m.to as int) {
        assert(moved[0] == s.last());
        lemma_first_foundation_exists(p, s.last(), m.to as int);
        let g = choose|g: int| first_foundation(p, s.last(), g);
        if m.from == WASTE {
            assert(waste_home_ok(p, g));
            simple_spec(WASTE, 1, g as u8)
        } else {
            assert(top_home_ok(p, m.from as int, g));
            top_home_move(p, m.from as int, g)
        }
    } else if m.from == WASTE {
        if k0 == 1 {
            assert(moved[0] == s.last());
            if p[m.to as int].len() > 0 {
                assert(p[m.to as int].last().face_up);
            }
            assert(waste_to_column_ok(p, m.to as int));
        }
        simple_spec(WASTE, 1, m.to)
    } else {
        let st = n - k0;
        assert(moved =~= s.subrange(st, n));
        assert(moved[0] == s[st]);
        if p[m.to as int].len() > 0 {
            assert(p[m.to as int].last().face_up);
        }
        assert(run_move_ok(p, m.from as int, st, m.to as int));
        run_move(p, m.from as int, st, m.to as int)
    };
    if is_tableau_spec(m.to as int) && (is_tableau_spec(m.from as int) || m.take == 1) || is_foundation_spec(m.to as int) {
        assert(solver_candidate(p, cand));
        assert(out.subrange(0, kk).contains(cand));
        let k = choose|k: int| 0 <= k < kk && out.subrange(0, kk)[k] == cand;
        assert(out[k] == cand);
    }
}

/// How the solver ranks a move by kind: a card home first, then a run that
/// turns up a face-down card, then the waste top onto a column, then any
/// other run.
pub open spec fn move_kind(p: Seq<Seq<Card>>, m: Move) -> int {
    if is_foundation_spec(m.to as int) {
        0
    } else if m.from != WASTE && p[m.from as int].len() > m.take && !p[m.from as int][p[m.from as int].len() - m.take
        - 1].face_up {
        1
    } else if m.from == WASTE {
        2
    } else {
        3
    }
}

proof fn lemma_kind_band(p: Seq<Seq<Card>>, m: Move)
    requires
        p.len() == 13,
        solver_candidate(p, m),
    ensures
        move_kind(p, m) == 0 ==> move_score(m) >= 1900,
        move_kind(p, m) == 1 ==> 1000 < move_score(m) < 1100,
        move_kind(p, m) == 2 ==> move_score(m) == 500,
        move_kind(p, m) == 3 ==> move_score(m) < 100,
{
    if exists|s: int, st: int, d: int| run_move_ok(p, s, st, d) && m == run_move(p, s, st, d) {
        let (s, st, d) = choose|s: int, st: int, d: int| run_move_ok(p, s, st, d) && m == run_move(p, s, st, d);
        lemma_run_len(p[s].subrange(st, p[s].len() as int));
    }
}

/// The generator lists the solver's moves kind by kind: every move home
/// before any other, every run that turns up a face-down card before the
/// waste top onto a column, and those before any other run.
pub proof fn law_generator_order(p: Seq<Seq<Card>>, draw: u8, out: Seq<Move>, i: int, j: int)
    requires
        p.len() == 13,
        ordered_moves(p, draw, out),
        0 <= i < j < out.len() - stock_click(p, draw).len(),
    ensures
        move_kind(p, out[i]) <= move_kind(p, out[j]),
{
    lemma_kind_band(p, out[i]);
    lemma_kind_band(p, out[j]);
}

struct Frame {
    state: PileSet,
    moves: Vec<Move>,
    next_move_idx: usize,
    generated: bool,
    /// The moves that lead from the root board to `state`.
    path: Ghost<Seq<Move>>,
}

spec fn frame_ok(draw: u8, root: Seq<Seq<Card>>, f: Frame) -> bool {
    &&& f.state@.len() == 13
    &&& solver_path_ok(draw, root, f.path@)
    &&& apply_seq(root, f.path@) == f.state@
    &&& f.generated ==> forall|i: int| 0 <= i < f.moves@.len() ==> solver_step_ok(draw, f.state@, #[trigger] f.moves@[i])
    &&& move_line(draw, root, f.path@)
    &&& !f.generated ==> f.next_move_idx == 0
    &&& f.generated ==> forall|i: int| 0 <= i < f.moves@.len() ==> solver_move(draw, f.state@, #[trigger] f.moves@[i])
    &&& f.generated ==> moves_cover(draw, f.state@, f.moves@) && moves_distinct(f.moves@)
}

/// Every solver move from `q` leads to a board whose fingerprint is in `vs`.
#[verifier::opaque]
spec fn closed_ok(draw: u8, q: Seq<Seq<Card>>, vs: Set<u64>) -> bool {
    forall|m: Move| #[trigger] solver_move(draw, q, m) ==> vs.contains(klondike_fingerprint(apply_spec(q, m)))
}

/// Every move `f` has tried leads to a board whose fingerprint is in `vs`.
#[verifier::opaque]
spec fn frame_seen(f: Frame, vs: Set<u64>) -> bool {
    forall|k: int|
        0 <= k < f.next_move_idx && k < f.moves@.len() ==> vs.contains(
            klondike_fingerprint(apply_spec(f.state@, #[trigger] f.moves@[k])),
        )
}

/// What the search knows of the boards it has seen (`vis`, with their
/// fingerprints `vs`) and of those it has finished (`closed`).
spec fn search_ok(
    draw: u8,
    root: Seq<Seq<Card>>,
    vis: Set<Seq<Seq<Card>>>,
    closed: Set<Seq<Seq<Card>>>,
    vs: Set<u64>,
    stack: Seq<Frame>,
) -> bool {
    &&& forall|q: Seq<Seq<Card>>| #[trigger] vis.contains(q) ==> vs.contains(klondike_fingerprint(q))
    &&& forall|h: u64| #[trigger] vs.contains(h) ==> exists|q: Seq<Seq<Card>>| vis.contains(q) && klondike_fingerprint(q) == h
    &&& forall|q: Seq<Seq<Card>>| #[trigger] vis.contains(q) ==> {
        &&& line_reaches(draw, root, q)
        &&& !klondike_won(q)
        &&& closed.contains(q) || exists|i: int| 0 <= i < stack.len() && (#[trigger] stack[i]).state@ == q
    }
    &&& forall|q: Seq<Seq<Card>>| #[trigger] closed.contains(q) ==> vis.contains(q) && closed_ok(draw, q, vs)
    &&& forall|i: int| 0 <= i < stack.len() ==> vis.contains((#[trigger] stack[i]).state@) && frame_seen(stack[i], vs)
}

/// The top frame, finished, joins the closed boards.
proof fn lemma_search_close(
    draw: u8,
    root: Seq<Seq<Card>>,
    vis: Set<Seq<Seq<Card>>>,
    closed: Set<Seq<Seq<Card>>>,
    vs: Set<u64>,
    stack: Seq<Frame>,
)
    requires
        search_ok(draw, root, vis, closed, vs, stack),
        stack.len() > 0,
        stack.last().generated ==> moves_cover(draw, stack.last().state@, stack.last().moves@),
        stack.last().generated,
        stack.last().next_move_idx >= stack.last().moves@.len(),
    ensures
        search_ok(draw, root, vis, closed.insert(stack.last().state@), vs, stack.drop_last()),
{
    let f = stack.last();
    let n = stack.len();
    assert(vis.contains(stack[n - 1].state@) && frame_seen(stack[n - 1], vs));
    assert(closed_ok(draw, f.state@, vs)) by {
        reveal(closed_ok);
        reveal(frame_seen);
        reveal(moves_cover);
        assert forall|m: Move| #[trigger] solver_move(draw, f.state@, m) implies vs.contains(
            klondike_fingerprint(apply_spec(f.state@, m)),
        ) by {
            let k = choose|k: int| 0 <= k < f.moves@.len() && f.moves@[k] == m;
        }
    }
    let c2 = closed.insert(f.state@);
    let st = stack.drop_last();
    assert forall|q: Seq<Seq<Card>>| #[trigger] vis.contains(q) implies {
        &&& line_reaches(draw, root, q)
        &&& !klondike_won(q)
        &&& c2.contains(q) || exists|i: int| 0 <= i < st.len() && (#[trigger] st[i]).state@ == q
    } by {
        if !closed.contains(q) {
            let i = choose|i: int| 0 <= i < stack.len() && (#[trigger] stack[i]).state@ == q;
            if i < n - 1 {
                assert(st[i] == stack[i]);
            }
        }
    }
    assert forall|i: int| 0 <= i < st.len() implies vis.contains((#[trigger] st[i]).state@) && frame_seen(st[i], vs) by {
        assert(st[i] == stack[i]);
    }
}

/// The top frame, replaced by `f2` on the same board, keeps the bookkeeping.
proof fn lemma_search_replace(
    draw: u8,
    root: Seq<Seq<Card>>,
    vis: Set<Seq<Seq<Card>>>,
    closed: Set<Seq<Seq<Card>>>,
    vs: Set<u64>,
    stack: Seq<Frame>,
    f2: Frame,
)
    requires
        search_ok(draw, root, vis, closed, vs, stack),
        stack.len() > 0,
        f2.state@ == stack.last().state@,
        frame_seen(f2, vs),
    ensures
        search_ok(draw, root, vis, closed, vs, stack.drop_last().push(f2)),
{
    let n = stack.len();
    let st = stack.drop_last().push(f2);
    assert(vis.contains(stack[n - 1].state@));
    assert forall|q: Seq<Seq<Card>>| #[trigger] vis.contains(q) implies {
        &&& line_reaches(draw, root, q)
        &&& !klondike_won(q)
        &&& closed.contains(q) || exists|i: int| 0 <= i < st.len() && (#[trigger] st[i]).state@ == q
    } by {
        if !closed.contains(q) {
            let i = choose|i: int| 0 <= i < stack.len() && (#[trigger] stack[i]).state@ == q;
            if i < n - 1 {
                assert(st[i] == stack[i]);
            } else {
                assert(st[n - 1] == f2);
            }
        }
    }
    assert forall|i: int| 0 <= i < st.len() implies vis.contains((#[trigger] st[i]).state@) && frame_seen(st[i], vs) by {
        if i < n - 1 {
            assert(st[i] == stack[i]);
        } else {
            assert(st[i] == f2);
        }
    }
}

/// A new board `child`, in a fresh frame above `f2`, with its fingerprint
/// added: the bookkeeping holds.
proof fn lemma_search_new(
    draw: u8,
    root: Seq<Seq<Card>>,
    vis: Set<Seq<Seq<Card>>>,
    closed: Set<Seq<Seq<Card>>>,
    vs: Set<u64>,
    stack: Seq<Frame>,
    f2: Frame,
    child_frame: Frame,
)
    requires
        search_ok(draw, root, vis, closed, vs, stack),
        stack.len() > 0,
        f2.state@ == stack.last().state@,
        frame_seen(f2, vs.insert(klondike_fingerprint(child_frame.state@))),
        line_reaches(draw, root, child_frame.state@),
        !klondike_won(child_frame.state@),
        child_frame.next_move_idx == 0,
    ensures
        search_ok(
            draw,
            root,
            vis.insert(child_frame.state@),
            closed,
            vs.insert(klondike_fingerprint(child_frame.state@)),
            stack.drop_last().push(f2).push(child_frame),
        ),
{
    let n = stack.len() as int;
    let child = child_frame.state@;
    let h = klondike_fingerprint(child);
    let vs2 = vs.insert(h);
    let vis2 = vis.insert(child);
    let st = stack.drop_last().push(f2).push(child_frame);
    assert(vis.contains(stack[n - 1].state@));
    assert(vs.subset_of(vs2));
    assert forall|h2: u64| #[trigger] vs2.contains(h2) implies exists|q: Seq<Seq<Card>>| vis2.contains(q) && klondike_fingerprint(q) == h2 by {
        if h2 != h {
            let q = choose|q: Seq<Seq<Card>>| vis.contains(q) && klondike_fingerprint(q) == h2;
            assert(vis2.contains(q));
        } else {
            assert(vis2.contains(child));
        }
    }
    assert forall|q: Seq<Seq<Card>>| #[trigger] vis2.contains(q) implies {
        &&& line_reaches(draw, root, q)
        &&& !klondike_won(q)
        &&& closed.contains(q) || exists|i: int| 0 <= i < st.len() && (#[trigger] st[i]).state@ == q
    } by {
        if q == child {
            assert(st[n] == child_frame);
        } else if !closed.contains(q) {
            let i = choose|i: int| 0 <= i < stack.len() && (#[trigger] stack[i]).state@ == q;
            if i < n - 1 {
                assert(st[i] == stack[i]);
            } else {
                assert(st[n - 1] == f2);
            }
        }
    }
    assert forall|q: Seq<Seq<Card>>| #[trigger] closed.contains(q) implies vis2.contains(q) && closed_ok(draw, q, vs2) by {
        reveal(closed_ok);
    }
    assert forall|i: int| 0 <= i < st.len() implies vis2.contains((#[trigger] st[i]).state@) && frame_seen(st[i], vs2) by {
        reveal(frame_seen);
        if i < n - 1 {
            assert(st[i] == stack[i]);
        } else if i == n - 1 {
            assert(st[i] == f2);
        } else {
            assert(st[i] == child_frame);
        }
    }
}

/// `f2` is `f` after trying its next move, whose board's fingerprint is in `vs`.
proof fn lemma_frame_step(f: Frame, f2: Frame, vs1: Set<u64>, vs: Set<u64>)
    requires
        frame_seen(f, vs1),
        vs1.subset_of(vs),
        f2.state@ == f.state@,
        f2.moves@ == f.moves@,
        f2.next_move_idx == f.next_move_idx + 1,
        f.next_move_idx < f.moves@.len(),
        vs.contains(klondike_fingerprint(apply_spec(f.state@, f.moves@[f.next_move_idx as int]))),
    ensures
        frame_seen(f2, vs),
{
    reveal(frame_seen);
}

/// What the search knows of the (board, move) pairs it has tried.
spec fn tried_ok(tried: Set<(Seq<Seq<Card>>, Move)>, vis: Set<Seq<Seq<Card>>>, stack: Seq<Frame>, draw: u8) -> bool {
    &&& tried.finite()
    &&& forall|x: (Seq<Seq<Card>>, Move)| #[trigger] tried.contains(x) ==> vis.contains(x.0) && solver_move(draw, x.0, x.1)
    &&& forall|i: int, x: (Seq<Seq<Card>>, Move)|
        0 <= i < stack.len() && #[trigger] tried.contains(x) && x.0 == (#[trigger] stack[i]).state@ ==> exists|k: int|
            0 <= k < stack[i].next_move_idx && k < stack[i].moves@.len() && stack[i].moves@[k] == x.1
    &&& forall|i: int, j: int| 0 <= i < j < stack.len() ==> (#[trigger] stack[i]).state@ != (#[trigger] stack[j]).state@
    &&& forall|i: int| 0 <= i < stack.len() ==> vis.contains((#[trigger] stack[i]).state@)
    &&& forall|q1: Seq<Seq<Card>>, q2: Seq<Seq<Card>>|
        #![trigger vis.contains(q1), vis.contains(q2)]
        vis.contains(q1) && vis.contains(q2) && klondike_fingerprint(q1) == klondike_fingerprint(q2) ==> q1 == q2
}

proof fn lemma_tried_pop(tried: Set<(Seq<Seq<Card>>, Move)>, vis: Set<Seq<Seq<Card>>>, stack: Seq<Frame>, draw: u8)
    requires
        tried_ok(tried, vis, stack, draw),
        stack.len() > 0,
    ensures
        tried_ok(tried, vis, stack.drop_last(), draw),
{
    let st = stack.drop_last();
    assert forall|i: int, x: (Seq<Seq<Card>>, Move)|
        0 <= i < st.len() && #[trigger] tried.contains(x) && x.0 == (#[trigger] st[i]).state@ implies exists|k: int|
            0 <= k < st[i].next_move_idx && k < st[i].moves@.len() && st[i].moves@[k] == x.1 by {
        assert(st[i] == stack[i]);
    }
    assert forall|i: int, j: int| 0 <= i < j < st.len() implies (#[trigger] st[i]).state@ != (#[trigger] st[j]).state@ by {
        assert(st[i] == stack[i]);
        assert(st[j] == stack[j]);
    }
    assert forall|i: int| 0 <= i < st.len() implies vis.contains((#[trigger] st[i]).state@) by {
        assert(st[i] == stack[i]);
    }
}

/// Replacing a top frame that has tried nothing by another on the same
/// board that has tried nothing keeps the bookkeeping.
proof fn lemma_tried_regen(
    tried: Set<(Seq<Seq<Card>>, Move)>,
    vis: Set<Seq<Seq<Card>>>,
    stack: Seq<Frame>,
    draw: u8,
    f2: Frame,
)
    requires
        tried_ok(tried, vis, stack, draw),
        stack.len() > 0,
        stack.last().next_move_idx == 0,
        f2.next_move_idx == 0,
        f2.state@ == stack.last().state@,
    ensures
        tried_ok(tried, vis, stack.drop_last().push(f2), draw),
{
    let n = stack.len() as int;
    let st = stack.drop_last().push(f2);
    assert forall|i: int, x: (Seq<Seq<Card>>, Move)|
        0 <= i < st.len() && #[trigger] tried.contains(x) && x.0 == (#[trigger] st[i]).state@ implies exists|k: int|
            0 <= k < st[i].next_move_idx && k < st[i].moves@.len() && st[i].moves@[k] == x.1 by {
        if i < n - 1 {
            assert(st[i] == stack[i]);
        } else {
            assert(st[i] == f2);
            assert(x.0 == stack[n - 1].state@);
        }
    }
    assert forall|i: int, j: int| 0 <= i < j < st.len() implies (#[trigger] st[i]).state@ != (#[trigger] st[j]).state@ by {
        assert(st[i] == stack[i]);
        if j < n - 1 {
            assert(st[j] == stack[j]);
        } else {
            assert(stack[i].state@ != stack[n - 1].state@);
        }
    }
    assert forall|i: int| 0 <= i < st.len() implies vis.contains((#[trigger] st[i]).state@) by {
        if i < n - 1 {
            assert(st[i] == stack[i]);
        } else {
            assert(vis.contains(stack[n - 1].state@));
        }
    }
}

/// The top frame's next move has not been tried yet.
proof fn lemma_tried_fresh(tried: Set<(Seq<Seq<Card>>, Move)>, vis: Set<Seq<Seq<Card>>>, stack: Seq<Frame>, draw: u8)
    requires
        tried_ok(tried, vis, stack, draw),
        stack.len() > 0,
        stack.last().next_move_idx < stack.last().moves@.len(),
        moves_distinct(stack.last().moves@),
    ensures
        !tried.contains((stack.last().state@, stack.last().moves@[stack.last().next_move_idx as int])),
{
    let n = stack.len() as int;
    let f = stack[n - 1];
    let k0 = f.next_move_idx as int;
    let pair = (f.state@, f.moves@[k0]);
    if tried.contains(pair) {
        let k = choose|k: int| 0 <= k < f.next_move_idx && k < f.moves@.len() && f.moves@[k] == pair.1;
        reveal(moves_distinct);
        assert(f.moves@[k] != f.moves@[k0]);
    }
}

/// Trying the top frame's next move and moving the frame on (`f2`) keeps
/// the bookkeeping.
proof fn lemma_tried_step(
    tried: Set<(Seq<Seq<Card>>, Move)>,
    vis: Set<Seq<Seq<Card>>>,
    stack: Seq<Frame>,
    draw: u8,
    f2: Frame,
)
    requires
        tried_ok(tried, vis, stack, draw),
        stack.len() > 0,
        stack.last().next_move_idx < stack.last().moves@.len(),
        solver_move(draw, stack.last().state@, stack.last().moves@[stack.last().next_move_idx as int]),
        f2.state@ == stack.last().state@,
        f2.moves@ == stack.last().moves@,
        f2.next_move_idx == stack.last().next_move_idx + 1,
    ensures
        tried_ok(
            tried.insert((stack.last().state@, stack.last().moves@[stack.last().next_move_idx as int])),
            vis,
            stack.drop_last().push(f2),
            draw,
        ),
{
    let n = stack.len() as int;
    let f = stack[n - 1];
    let pair = (f.state@, f.moves@[f.next_move_idx as int]);
    let t2 = tried.insert(pair);
    let st = stack.drop_last().push(f2);
    assert(vis.contains(stack[n - 1].state@));
    assert forall|i: int, x: (Seq<Seq<Card>>, Move)|
        0 <= i < st.len() && #[trigger] t2.contains(x) && x.0 == (#[trigger] st[i]).state@ implies exists|k: int|
            0 <= k < st[i].next_move_idx && k < st[i].moves@.len() && st[i].moves@[k] == x.1 by {
        if i < n - 1 {
            assert(st[i] == stack[i]);
            if x == pair {
                assert(stack[i].state@ != stack[n - 1].state@);
            }
        } else {
            assert(st[i] == f2);
            if x != pair {
                assert(tried.contains(x) && x.0 == stack[n - 1].state@);
            }
        }
    }
    assert forall|i: int, j: int| 0 <= i < j < st.len() implies (#[trigger] st[i]).state@ != (#[trigger] st[j]).state@ by {
        assert(st[i] == stack[i]);
        if j < n - 1 {
            assert(st[j] == stack[j]);
        } else {
            assert(st[j] == f2);
            assert(stack[i].state@ != stack[n - 1].state@);
        }
    }
    assert forall|i: int| 0 <= i < st.len() implies vis.contains((#[trigger] st[i]).state@) by {
        if i < n - 1 {
            assert(st[i] == stack[i]);
        }
    }
}

/// A frame on a board with a fingerprint not seen before keeps the
/// bookkeeping once the board is seen.
proof fn lemma_tried_new(
    tried: Set<(Seq<Seq<Card>>, Move)>,
    vis: Set<Seq<Seq<Card>>>,
    stack: Seq<Frame>,
    draw: u8,
    child: Frame,
)
    requires
        tried_ok(tried, vis, stack, draw),
        forall|q: Seq<Seq<Card>>| #[trigger] vis.contains(q) ==> klondike_fingerprint(q) != klondike_fingerprint(child.state@),
        child.next_move_idx == 0,
    ensures
        tried_ok(tried, vis.insert(child.state@), stack.push(child), draw),
{
    let c = child.state@;
    let v2 = vis.insert(c);
    let st = stack.push(child);
    assert(!vis.contains(c));
    assert forall|i: int, x: (Seq<Seq<Card>>, Move)|
        0 <= i < st.len() && #[trigger] tried.contains(x) && x.0 == (#[trigger] st[i]).state@ implies exists|k: int|
            0 <= k < st[i].next_move_idx && k < st[i].moves@.len() && st[i].moves@[k] == x.1 by {
        if i < stack.len() {
            assert(st[i] == stack[i]);
        } else {
            assert(st[i] == child);
            assert(vis.contains(x.0));
        }
    }
    assert forall|i: int, j: int| 0 <= i < j < st.len() implies (#[trigger] st[i]).state@ != (#[trigger] st[j]).state@ by {
        assert(st[i] == stack[i]);
        if j < stack.len() {
            assert(st[j] == stack[j]);
        } else {
            assert(vis.contains(stack[i].state@));
        }
    }
    assert forall|i: int| 0 <= i < st.len() implies v2.contains((#[trigger] st[i]).state@) by {
        if i < stack.len() {
            assert(st[i] == stack[i]);
        }
    }
    assert forall|q1: Seq<Seq<Card>>, q2: Seq<Seq<Card>>|
        #![trigger v2.contains(q1), v2.contains(q2)]
        v2.contains(q1) && v2.contains(q2) && klondike_fingerprint(q1) == klondike_fingerprint(q2) implies q1 == q2 by {
        if q1 != c && q2 != c {
            assert(vis.contains(q1) && vis.contains(q2));
        }
    }
}

/// The pairs tried, and one more untried pair on a seen board, are pairs
/// the search can reach.
proof fn lemma_pairs_reached(
    draw: u8,
    root: Seq<Seq<Card>>,
    vis: Set<Seq<Seq<Card>>>,
    closed: Set<Seq<Seq<Card>>>,
    vs: Set<u64>,
    stack: Seq<Frame>,
    tried: Set<(Seq<Seq<Card>>, Move)>,
    pair: (Seq<Seq<Card>>, Move),
)
    requires
        search_ok(draw, root, vis, closed, vs, stack),
        tried_ok(tried, vis, stack, draw),
        vis.contains(pair.0),
        solver_move(draw, pair.0, pair.1),
        !tried.contains(pair),
    ensures
        search_pairs(draw, root, tried.insert(pair)),
        tried.insert(pair).len() == tried.len() + 1,
{
    let t = tried.insert(pair);
    assert forall|x: (Seq<Seq<Card>>, Move)| #[trigger] t.contains(x) implies line_reaches(draw, root, x.0) && solver_move(
        draw,
        x.0,
        x.1,
    ) by {
        assert(vis.contains(x.0));
    }
    assert forall|x: (Seq<Seq<Card>>, Move), y: (Seq<Seq<Card>>, Move)|
        #![trigger t.contains(x), t.contains(y)]
        t.contains(x) && t.contains(y) && klondike_fingerprint(x.0) == klondike_fingerprint(y.0) implies x.0 == y.0 by {
        assert(vis.contains(x.0) && vis.contains(y.0));
    }
}

/// With every seen board finished, and boards of one fingerprint equally
/// near a win, no seen board wins within `n` moves.
proof fn lemma_search_no_win(
    draw: u8,
    root: Seq<Seq<Card>>,
    vis: Set<Seq<Seq<Card>>>,
    closed: Set<Seq<Seq<Card>>>,
    vs: Set<u64>,
    n: nat,
)
    requires
        search_ok(draw, root, vis, closed, vs, Seq::<Frame>::empty()),
        merged_boards_alike(draw, root),
    ensures
        forall|v: Seq<Seq<Card>>| #[trigger] vis.contains(v) ==> !wins_within(draw, v, n),
    decreases n,
{
    if n > 0 {
        lemma_search_no_win(draw, root, vis, closed, vs, (n - 1) as nat);
    }
    assert forall|v: Seq<Seq<Card>>| #[trigger] vis.contains(v) implies !wins_within(draw, v, n) by {
        if wins_within(draw, v, n) {
            let path = choose|path: Seq<Move>| path.len() <= n && move_line(draw, v, path) && klondike_won(
                #[trigger] apply_seq(v, path),
            );
            assert(path.len() > 0);
            let m = path[0];
            let next = apply_spec(v, m);
            let rest = path.drop_first();
            assert(wins_within(draw, next, (n - 1) as nat)) by {
                assert(apply_seq(next, rest) == apply_seq(v, path));
            }
            assert(closed.contains(v));
            assert(closed_ok(draw, v, vs));
            assert(vs.contains(klondike_fingerprint(next))) by {
                reveal(closed_ok);
            }
            let w = choose|w: Seq<Seq<Card>>| vis.contains(w) && klondike_fingerprint(w) == klondike_fingerprint(next);
            lemma_reach_push(draw, root, v, m);
            assert(line_reaches(draw, root, w));
            assert(wins_within(draw, next, (n - 1) as nat) == wins_within(draw, w, (n - 1) as nat));
        }
    }
}

/// Nothing is left to try on `p`: not won, no candidate move, stock and
/// waste empty.
pub open spec fn klondike_stuck(p: Seq<Seq<Card>>) -> bool {
    &&& !klondike_won(p)
    &&& forall|m: Move| !#[trigger] solver_candidate(p, m)
    &&& p[STOCK as int].len() == 0
    &&& p[WASTE as int].len() == 0
}

/// On a stuck board the generator offers nothing.
proof fn lemma_stuck_no_moves(p: Seq<Seq<Card>>, draw: u8, out: Seq<Move>)
    requires
        klondike_stuck(p),
        ordered_moves(p, draw, out),
    ensures
        out.len() == 0,
{
    assert(stock_click(p, draw) =~= Seq::<Move>::empty());
    if out.len() > 0 {
        assert(solver_candidate(p, out[0]));
    }
}

/// Search for a win from `piles` within `budget`. `Won` means a winning
/// line of solver steps exists; `Exhausted` that no line of the solver's
/// moves wins (boards merged by their fingerprint being equally near a
/// win); a won board is `Won` and a stuck one `Exhausted`, whatever the
/// budget; with no deadline, `Timeout` only when the node budget runs out.
pub fn solve(piles: &PileSet, budget: SolverBudget) -> (r: SolveResult)
    requires
        piles@.len() == 13,
    ensures
        r == SolveResult::Won ==> exists|path: Seq<Move>| solver_path_ok(budget.draw_count, piles@, path)
            && klondike_won(#[trigger] apply_seq(piles@, path)),
        klondike_won(piles@) ==> r == SolveResult::Won,
        klondike_stuck(piles@) ==> r == SolveResult::Exhausted,
        r == SolveResult::Exhausted && merged_boards_alike(budget.draw_count, piles@) ==> forall|path: Seq<Move>|
            !(move_line(budget.draw_count, piles@, path) && klondike_won(#[trigger] apply_seq(piles@, path))),
        budget.deadline is None && r == SolveResult::Timeout ==> exists|t: Set<(Seq<Seq<Card>>, Move)>|
            #[trigger] search_pairs(budget.draw_count, piles@, t) && t.len() > budget.max_nodes,
{
    broadcast use vstd::std_specs::hash::group_hash_axioms;

    let ghost root = piles@;
    let draw = budget.draw_count;
    let state = piles.duplicate();
    if board_won(&state) {
        proof {
            assert(solver_path_ok(draw, root, Seq::<Move>::empty()));
            assert(apply_seq(root, Seq::<Move>::empty()) == root);
        }
        return SolveResult::Won;
    }
    let mut visited: HashSet<u64> = HashSet::new();
    visited.insert(hash_state(&state));
    let ghost mut vis: Set<Seq<Seq<Card>>> = Set::empty().insert(root);
    let ghost mut closed: Set<Seq<Seq<Card>>> = Set::empty();
    let ghost mut tried: Set<(Seq<Seq<Card>>, Move)> = Set::empty();
    let mut stack: Vec<Frame> = Vec::new();
    proof {
        assert(apply_seq(root, Seq::<Move>::empty()) == root);
    }
    stack.push(Frame { state, moves: Vec::new(), next_move_idx: 0, generated: false, path: Ghost(Seq::empty()) });
    proof {
        let f = stack@[0];
        assert(move_line(draw, root, Seq::<Move>::empty()));
        assert(line_reaches(draw, root, root));
        assert(frame_seen(f, visited@)) by {
            reveal(frame_seen);
        }
        assert forall|h: u64| #[trigger] visited@.contains(h) implies exists|q: Seq<Seq<Card>>| vis.contains(q)
            && klondike_fingerprint(q) == h by {
            assert(vis.contains(root));
        }
        assert(search_ok(draw, root, vis, closed, visited@, stack@));
        assert(tried_ok(tried, vis, stack@, draw));
    }
    let mut nodes: u64 = 0;
    while stack.len() > 0
        invariant
            root == piles@,
            !klondike_won(root),
            draw == budget.draw_count,
            nodes <= budget.max_nodes,
            forall|i: int| 0 <= i < stack@.len() ==> frame_ok(draw, root, #[trigger] stack@[i]),
            klondike_stuck(root) ==> stack@.len() <= 1 && (stack@.len() == 1 ==> stack@[0].state@ == root
                && stack@[0].next_move_idx == 0 && (stack@[0].generated ==> stack@[0].moves@.len() == 0)),
            search_ok(draw, root, vis, closed, visited@, stack@),
            tried_ok(tried, vis, stack@, draw),
            nodes == tried.len(),
            vis.contains(root),
        decreases budget.max_nodes - nodes, stack@.len(),
    {
        let ghost old_stack = stack@;
        let mut frame = stack.pop().unwrap();
        assert(frame == old_stack[old_stack.len() - 1]);
        assert(frame_ok(draw, root, frame));
        let ghost mut cur = old_stack;
        if !frame.generated {
            frame.moves = generate_ordered_moves(&frame.state, draw);
            frame.generated = true;
            proof {
                if klondike_stuck(root) {
                    lemma_stuck_no_moves(root, draw, frame.moves@);
                }
                lemma_moves_listed(frame.state@, draw, frame.moves@);
                assert(frame_seen(frame, visited@)) by {
                    reveal(frame_seen);
                }
                lemma_search_replace(draw, root, vis, closed, visited@, old_stack, frame);
                lemma_tried_regen(tried, vis, old_stack, draw, frame);
                cur = old_stack.drop_last().push(frame);
                assert(stack@ =~= cur.drop_last());
            }
        }
        assert(cur.last() == frame && stack@ == cur.drop_last());
        assert(frame_ok(draw, root, frame));
        if frame.next_move_idx >= frame.moves.len() {
            proof {
                lemma_search_close(draw, root, vis, closed, visited@, cur);
                lemma_tried_pop(tried, vis, cur, draw);
                closed = closed.insert(frame.state@);
            }
            continue;
        }
        let ghost pair = (frame.state@, frame.moves@[frame.next_move_idx as int]);
        proof {
            lemma_tried_fresh(tried, vis, cur, draw);
            assert(vis.contains(cur[cur.len() - 1].state@));
        }
        if nodes >= budget.max_nodes {
            proof {
                lemma_pairs_reached(draw, root, vis, closed, visited@, cur, tried, pair);
                assert(search_pairs(draw, root, tried.insert(pair)));
            }
            return SolveResult::Timeout;
        }
        nodes = nodes + 1;
        if nodes & 4095 == 0 && deadline_passed(budget.deadline) {
            return SolveResult::Timeout;
        }
        let m = frame.moves[frame.next_move_idx];
        let ghost f0 = frame;
        frame.next_move_idx = frame.next_move_idx + 1;
        proof {
            lemma_tried_step(tried, vis, cur, draw, frame);
            tried = tried.insert(pair);
        }
        assert(solver_step_ok(draw, frame.state@, m));
        let mut child = frame.state.duplicate();
        apply_move(&mut child, &m);
        let ghost child_path = frame.path@.push(m);
        proof {
            lemma_apply_seq_push(root, frame.path@, m);
            lemma_solver_path_push(draw, root, frame.path@, m);
            lemma_line_push(draw, root, frame.path@, m);
        }
        if board_won(&child) {
            assert(klondike_won(apply_seq(root, child_path)));
            return SolveResult::Won;
        }
        let ghost child_board = child@;
        let ch = hash_state(&child);
        let ghost vs0 = visited@;
        stack.push(frame);
        if !visited.insert(ch) {
            proof {
                assert(visited@ =~= vs0);
                lemma_frame_step(f0, frame, vs0, vs0);
                lemma_search_replace(draw, root, vis, closed, vs0, cur, frame);
                assert(stack@ =~= cur.drop_last().push(frame));
            }
            continue;
        }
        let ghost mid_stack = stack@;
        let child_frame = Frame { state: child, moves: Vec::new(), next_move_idx: 0, generated: false, path: Ghost(child_path) };
        proof {
            assert(mid_stack =~= cur.drop_last().push(frame));
            lemma_frame_step(f0, frame, vs0, visited@);
            assert(line_reaches(draw, root, child_board)) by {
                assert(apply_seq(root, child_path) == child_board);
            }
            lemma_search_new(draw, root, vis, closed, vs0, cur, frame, child_frame);
            assert forall|q: Seq<Seq<Card>>| #[trigger] vis.contains(q) implies klondike_fingerprint(q) != klondike_fingerprint(
                child_frame.state@,
            ) by {
                assert(vs0.contains(klondike_fingerprint(q)));
            }
            lemma_tried_new(tried, vis, mid_stack, draw, child_frame);
            vis = vis.insert(child_board);
        }
        stack.push(child_frame);
        proof {
            assert(stack@ =~= mid_stack.push(child_frame));
        }
    }
    proof {
        if merged_boards_alike(draw, root) {
            assert(stack@ =~= Seq::<Frame>::empty());
            assert forall|path: Seq<Move>| !(move_line(draw, root, path) && klondike_won(#[trigger] apply_seq(root, path))) by {
                if move_line(draw, root, path) && klondike_won(apply_seq(root, path)) {
                    lemma_search_no_win(draw, root, vis, closed, visited@, path.len());
                    assert(wins_within(draw, root, path.len()));
                }
            }
        }
    }
    SolveResult::Exhausted
}

} // verus!
