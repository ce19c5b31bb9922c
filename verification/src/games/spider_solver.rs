//! Spider solver: depth-first search that applies and reverts moves on one
//! shared board, with a table of boards already seen keyed by a 64-bit
//! hash that ignores the order of the tableau columns and, under a
//! streamliner mode, some suit detail.
//!
//! A `Won` verdict is backed by a winning line of rounds (a candidate move
//! or a whole ten-card deal, then the collapses it forces). `Exhausted`
//! means no such line wins, provided boards that share a fingerprint are
//! equally near a win: a hash collision, or the hash merging boards that
//! differ in column order or suits, can otherwise prune a board that was
//! never searched. With no deadline, `Timeout` means the node budget was
//! smaller than the pairs of reachable board and choice the search met.

use vstd::prelude::*;

use std::collections::HashSet;
use std::time::Duration;

use super::freecell::count_empty;
use super::klondike::{all_face_up, top_part};
use super::klondike_hint::key_lt;
use super::klondike_solver::{keys_before, lemma_keys_push, lemma_keys_raise, lemma_keys_ties, sort_by_score_desc, ties_rise};
use super::spider::{
    collapse_step, first_empty_foundation, is_cascade_spec, lemma_collapse_ok, lemma_suited_run_len, spider_auto_from,
    spider_legal, spider_won, suited_run, suited_run_from, CASCADE_FIRST, CASCADE_LAST,
    FOUND_FIRST, FOUND_LAST, N_CASCADES, STOCK,
};
use crate::cards::card::Card;
use crate::cards::rank::{rank_down, rank_value};
use crate::cards::suit::{color_of, Suit};
use crate::clock::{deadline_after, deadline_passed, duration_div, instant_checked_add, instant_now, instant_saturating_since};
use crate::piles::pile::top_of;
use crate::piles::PileSet;
use crate::session::moves::{apply_move, apply_spec, can_apply, revert_move, reversible, law_revert_undoes_apply, simple_spec, Move};
use crate::session::{apply_seq, lemma_apply_seq_push, lemma_reversible_seq_split, reversible_seq};

verus! {

#[derive(Clone, Copy, Debug, PartialEq, Eq, Structural)]
pub enum SolveResult {
    Won,
    /// The search ran out of boards without finding a win.
    Exhausted,
    /// The time or node budget ran out first.
    Timeout,
}

#[derive(Clone, Copy, Debug)]
pub struct SolverBudget {
    /// When the search gives up; `None` for no time limit.
    pub deadline: Option<web_time::Instant>,
    pub max_nodes: u64,
}

impl SolverBudget {
    /// A budget of `duration` from now and `max_nodes` search nodes. A
    /// duration that runs past what an instant can hold means no time limit.
    pub fn from_duration(duration: Duration, max_nodes: u64) -> (b: SolverBudget)
        ensures
            b.max_nodes == max_nodes,
    {
        SolverBudget { deadline: deadline_after(duration), max_nodes }
    }
}

/// How much suit detail the table of seen boards keeps.
#[derive(Clone, Copy, Debug, PartialEq, Eq, Structural)]
pub enum StreamlinerMode {
    /// Every suit distinct.
    Strict,
    /// All suits the same.
    SuitFlatten,
    /// Suits reduced to their colour.
    SuitColour,
}

/// The suit as the hash sees it under `mode`.
pub open spec fn suit_class(mode: StreamlinerMode, s: Suit) -> u64 {
    match mode {
        StreamlinerMode::Strict => match s {
            Suit::Clubs => 0,
            Suit::Diamonds => 1,
            Suit::Hearts => 2,
            Suit::Spades => 3,
        },
        StreamlinerMode::SuitColour => match s {
            Suit::Clubs | Suit::Spades => 0,
            Suit::Diamonds | Suit::Hearts => 1,
        },
        StreamlinerMode::SuitFlatten => 0,
    }
}

/// A card's hash value: `suit_class * 26 + 2 * rank + face_down`.
pub open spec fn card_byte_spec(c: Card, mode: StreamlinerMode) -> u64 {
    (suit_class(mode, c.suit) * 26 + 2 * rank_value(c.rank) + (if c.face_up { 0int } else { 1int })) as u64
}

pub fn card_byte(c: &Card, mode: StreamlinerMode) -> (r: u64)
    ensures
        r == card_byte_spec(*c, mode),
{
    let suit_class: u64 = match mode {
        StreamlinerMode::Strict => match c.suit {
            Suit::Clubs => 0,
            Suit::Diamonds => 1,
            Suit::Hearts => 2,
            Suit::Spades => 3,
        },
        StreamlinerMode::SuitColour => match c.suit {
            Suit::Clubs | Suit::Spades => 0,
            Suit::Diamonds | Suit::Hearts => 1,
        },
        StreamlinerMode::SuitFlatten => 0,
    };
    let rank_val: u64 = c.rank.as_u8() as u64;
    let fd: u64 = if c.face_up {
        0
    } else {
        1
    };
    suit_class * 26 + 2 * rank_val + fd
}

/// The golden-ratio hash combiner: `seed` with `v` folded in.
pub open spec fn mix_spec(seed: u64, v: u64) -> u64 {
    seed ^ v.wrapping_add(0x9e3779b9u64).wrapping_add(seed.wrapping_shl(6)).wrapping_add(seed.wrapping_shr(2))
}

fn mix(seed: &mut u64, v: u64)
    ensures
        *final(seed) == mix_spec(*old(seed), v),
{
    let s = *seed;
    *seed = s ^ v.wrapping_add(0x9e3779b9u64).wrapping_add(s.wrapping_shl(6)).wrapping_add(s.wrapping_shr(2));
}

/// `seed` with every value of `vs` folded in, in order.
pub open spec fn mix_all(seed: u64, vs: Seq<u64>) -> u64
    decreases vs.len(),
{
    if vs.len() == 0 {
        seed
    } else {
        mix_spec(mix_all(seed, vs.drop_last()), vs.last())
    }
}

/// The hash values of a card sequence.
pub open spec fn card_bytes(cards: Seq<Card>, mode: StreamlinerMode) -> Seq<u64> {
    cards.map_values(|c: Card| card_byte_spec(c, mode))
}

/// The FNV offset basis, the seed of a pile fingerprint.
pub const FINGERPRINT_SEED: u64 = 0xcbf29ce484222325;

/// Marker between the foundation count and the stock in the hash stream.
pub const STOCK_MARK: u64 = 0x57_4F_43_4B_4D_41_52_4B;

/// A pile's fingerprint: its length, then its cards.
pub open spec fn fingerprint_spec(cards: Seq<Card>, mode: StreamlinerMode) -> u64 {
    mix_all(FINGERPRINT_SEED, seq![cards.len() as u64] + card_bytes(cards, mode))
}

/// Fold the hash values of `cards` into `h`.
fn mix_cards(h: &mut u64, cards: &[Card], mode: StreamlinerMode, Ghost(vs): Ghost<Seq<u64>>, Ghost(seed): Ghost<u64>)
    requires
        *old(h) == mix_all(seed, vs),
    ensures
        *final(h) == mix_all(seed, vs + card_bytes(cards@, mode)),
{
    let n = cards.len();
    let mut i: usize = 0;
    while i < n
        invariant
            n == cards@.len(),
            i <= n,
            *h == mix_all(seed, vs + card_bytes(cards@.subrange(0, i as int), mode)),
        decreases n - i,
    {
        let b = card_byte(&cards[i], mode);
        proof {
            let prev = vs + card_bytes(cards@.subrange(0, i as int), mode);
            let next = vs + card_bytes(cards@.subrange(0, i + 1), mode);
            assert(next.drop_last() =~= prev);
            assert(next.last() == b);
        }
        mix(h, b);
        i = i + 1;
    }
    assert(cards@.subrange(0, n as int) =~= cards@);
}

pub fn pile_fingerprint(cards: &[Card], mode: StreamlinerMode) -> (r: u64)
    ensures
        r == fingerprint_spec(cards@, mode),
{
    let mut h: u64 = FINGERPRINT_SEED;
    let len = cards.len() as u64;
    proof {
        let s = seq![len];
        assert(s.drop_last() =~= Seq::<u64>::empty());
        assert(mix_all(FINGERPRINT_SEED, Seq::<u64>::empty()) == FINGERPRINT_SEED);
    }
    mix(&mut h, len);
    let ghost first = seq![len];
    assert(h == mix_all(FINGERPRINT_SEED, first));
    mix_cards(&mut h, cards, mode, Ghost(first), Ghost(FINGERPRINT_SEED));
    h
}

/// The sequence is in ascending order.
pub open spec fn ascending(s: Seq<u64>) -> bool {
    forall|i: int, j: int| 0 <= i < j < s.len() ==> s[i] <= s[j]
}

/// Two ascending sequences holding the same values are equal.
pub proof fn lemma_ascending_unique(a: Seq<u64>, b: Seq<u64>)
    requires
        ascending(a),
        ascending(b),
        a.to_multiset() == b.to_multiset(),
    ensures
        a == b,
    decreases a.len(),
{
    broadcast use vstd::seq_lib::to_multiset_contains;
    broadcast use vstd::multiset::group_multiset_axioms;

    vstd::seq_lib::to_multiset_len(a);
    vstd::seq_lib::to_multiset_len(b);
    if a.len() == 0 {
        assert(a =~= b);
    } else {
        assert(a.contains(a[0]));
        assert(b.contains(b[0]));
        vstd::seq_lib::to_multiset_contains(a, a[0]);
        vstd::seq_lib::to_multiset_contains(b, a[0]);
        vstd::seq_lib::to_multiset_contains(a, b[0]);
        vstd::seq_lib::to_multiset_contains(b, b[0]);
        assert(b.contains(a[0]));
        assert(a.contains(b[0]));
        let ia = choose|k: int| 0 <= k < a.len() && a[k] == b[0];
        let ib = choose|k: int| 0 <= k < b.len() && b[k] == a[0];
        assert(a[0] <= a[ia]);
        assert(b[0] <= b[ib]);
        assert(a[0] == b[0]);
        vstd::seq_lib::to_multiset_remove(a, 0);
        vstd::seq_lib::to_multiset_remove(b, 0);
        assert(a.remove(0) =~= a.drop_first());
        assert(b.remove(0) =~= b.drop_first());
        lemma_ascending_unique(a.drop_first(), b.drop_first());
        assert(a.len() == b.len());
        assert forall|i: int| 0 <= i < a.len() implies a[i] == b[i] by {
            if i > 0 {
                assert(a[i] == a.drop_first()[i - 1]);
                assert(b[i] == b.drop_first()[i - 1]);
            }
        }
        assert(a =~= b);
    }
}

/// Sort ascending.
fn sort_ascending(v: &mut Vec<u64>)
    ensures
        final(v)@.to_multiset() == old(v)@.to_multiset(),
        ascending(final(v)@),
{
    let ghost orig = v@;
    let n = v.len();
    let mut i: usize = 1;
    while i < n
        invariant
            n == v@.len(),
            v@.to_multiset() == orig.to_multiset(),
            1 <= i,
            i <= n || n == 0,
            forall|a: int, b: int| 0 <= a < b < i && b < n ==> v@[a] <= v@[b],
        decreases n - i,
    {
        let mut j: usize = i;
        while j > 0 && v[j - 1] > v[j]
            invariant
                n == v@.len(),
                v@.to_multiset() == orig.to_multiset(),
                j <= i < n,
                forall|a: int, b: int| 0 <= a < b <= i && a != j && b != j ==> v@[a] <= v@[b],
                forall|b: int| j < b <= i ==> v@[j as int] < v@[b],
            decreases j,
        {
            let x = v[j - 1];
            let y = v[j];
            let ghost before = v@;
            v.set(j - 1, y);
            let ghost mid = v@;
            v.set(j, x);
            proof {
                broadcast use vstd::multiset::group_multiset_axioms;

                assert(mid == before.update(j - 1, y));
                vstd::seq_lib::to_multiset_update(before, j - 1, y);
                assert(v@ == mid.update(j as int, x));
                vstd::seq_lib::to_multiset_update(mid, j as int, x);
                assert(before.to_multiset().count(x) > 0) by {
                    vstd::seq_lib::to_multiset_contains(before, x);
                    assert(before.contains(x));
                }
                assert(v@.to_multiset() =~= before.to_multiset());
            }
            j = j - 1;
        }
        i = i + 1;
    }
}

/// The fingerprints of the ten tableau columns, left to right.
pub open spec fn column_fingerprints(p: Seq<Seq<Card>>, mode: StreamlinerMode) -> Seq<u64> {
    Seq::new(N_CASCADES as nat, |i: int| fingerprint_spec(p[CASCADE_FIRST + i], mode))
}

/// The column fingerprints in ascending order.
pub open spec fn sorted_fingerprints(p: Seq<Seq<Card>>, mode: StreamlinerMode) -> Seq<u64> {
    choose|s: Seq<u64>| ascending(s) && s.to_multiset() == column_fingerprints(p, mode).to_multiset()
}

/// How many foundations hold thirteen cards, among `0..hi`.
pub open spec fn completed_count(p: Seq<Seq<Card>>, hi: int) -> nat
    decreases hi,
{
    if hi <= 0 {
        0
    } else {
        completed_count(p, hi - 1) + (if p[hi - 1].len() == 13 { 1nat } else { 0nat })
    }
}

/// The values the board hash folds in: completed foundations, a marker,
/// the stock (length, then cards), then the sorted column fingerprints.
pub open spec fn hash_stream(p: Seq<Seq<Card>>, mode: StreamlinerMode) -> Seq<u64> {
    seq![completed_count(p, 8) as u64, STOCK_MARK, p[STOCK as int].len() as u64]
        + card_bytes(p[STOCK as int], mode) + sorted_fingerprints(p, mode)
}

pub open spec fn hash_state_spec(p: Seq<Seq<Card>>, mode: StreamlinerMode) -> u64 {
    mix_all(0, hash_stream(p, mode))
}

/// The board's key in the table of seen boards.
pub fn hash_state(piles: &PileSet, mode: StreamlinerMode) -> (r: u64)
    requires
        piles@.len() == 19,
    ensures
        r == hash_state_spec(piles@, mode),
{
    let ghost p = piles@;
    let mut h: u64 = 0;
    let mut completed: u64 = 0;
    let mut fid: u8 = FOUND_FIRST;
    while fid <= FOUND_LAST
        invariant
            p == piles@,
            p.len() == 19,
            FOUND_FIRST <= fid <= FOUND_LAST + 1,
            completed == completed_count(p, fid as int),
            completed <= fid,
        decreases FOUND_LAST + 1 - fid,
    {
        if piles.pile_len(fid) == 13 {
            completed = completed + 1;
        }
        fid = fid + 1;
    }
    let ghost s0 = seq![completed];
    let ghost s1 = seq![completed, STOCK_MARK];
    let n = piles.pile_len(STOCK) as u64;
    let ghost s2 = seq![completed, STOCK_MARK, n];
    proof {
        assert(s0.drop_last() =~= Seq::<u64>::empty());
        assert(s1.drop_last() =~= s0);
        assert(s2.drop_last() =~= s1);
    }
    assert(mix_all(0, Seq::<u64>::empty()) == 0);
    mix(&mut h, completed);
    assert(h == mix_all(0, s0));
    mix(&mut h, STOCK_MARK);
    assert(h == mix_all(0, s1));
    mix(&mut h, n);
    assert(h == mix_all(0, s2));
    let stock = piles.get(STOCK);
    mix_cards(&mut h, stock.cards.as_slice(), mode, Ghost(s2), Ghost(0));
    let ghost s3 = s2 + card_bytes(p[STOCK as int], mode);

    let mut fps: Vec<u64> = Vec::new();
    let mut c: u8 = CASCADE_FIRST;
    while c <= CASCADE_LAST
        invariant
            p == piles@,
            p.len() == 19,
            CASCADE_FIRST <= c <= CASCADE_LAST + 1,
            fps@ == column_fingerprints(p, mode).subrange(0, c - CASCADE_FIRST),
        decreases CASCADE_LAST + 1 - c,
    {
        let fp = pile_fingerprint(piles.get(c).cards.as_slice(), mode);
        fps.push(fp);
        assert(fps@ =~= column_fingerprints(p, mode).subrange(0, c + 1 - CASCADE_FIRST));
        c = c + 1;
    }
    assert(fps@ =~= column_fingerprints(p, mode));
    sort_ascending(&mut fps);
    proof {
        let sf = sorted_fingerprints(p, mode);
        assert(ascending(sf) && sf.to_multiset() == column_fingerprints(p, mode).to_multiset());
        lemma_ascending_unique(fps@, sf);
    }
    let k = fps.len();
    let mut i: usize = 0;
    while i < k
        invariant
            k == fps@.len(),
            i <= k,
            h == mix_all(0, s3 + fps@.subrange(0, i as int)),
        decreases k - i,
    {
        proof {
            let prev = s3 + fps@.subrange(0, i as int);
            let next = s3 + fps@.subrange(0, i + 1);
            assert(next.drop_last() =~= prev);
        }
        mix(&mut h, fps[i]);
        i = i + 1;
    }
    proof {
        assert(fps@.subrange(0, k as int) =~= fps@);
        assert(s3 + fps@ =~= hash_stream(p, mode));
    }
    h
}


/// The completed-foundation count reads only piles `0..hi`.
proof fn lemma_completed_count_same(p: Seq<Seq<Card>>, q: Seq<Seq<Card>>, hi: int)
    requires
        forall|i: int| 0 <= i < hi ==> #[trigger] p[i].len() == q[i].len(),
    ensures
        completed_count(p, hi) == completed_count(q, hi),
    decreases hi,
{
    if hi > 0 {
        lemma_completed_count_same(p, q, hi - 1);
        assert(p[hi - 1].len() == q[hi - 1].len());
    }
}

/// Boards whose piles have the same lengths and whose cards have the same
/// hash values under `mode` hash the same.
pub proof fn lemma_hash_same_bytes(p: Seq<Seq<Card>>, q: Seq<Seq<Card>>, mode: StreamlinerMode)
    requires
        p.len() == 19,
        q.len() == 19,
        forall|i: int| 0 <= i < 19 ==> (#[trigger] p[i]).len() == q[i].len(),
        forall|i: int, k: int| 0 <= i < 19 && 0 <= k < p[i].len() ==> card_byte_spec(#[trigger] p[i][k], mode) == card_byte_spec(q[i][k], mode),
    ensures
        hash_state_spec(p, mode) == hash_state_spec(q, mode),
{
    lemma_completed_count_same(p, q, 8);
    assert forall|i: int| 0 <= i < 19 implies #[trigger] card_bytes(p[i], mode) == card_bytes(q[i], mode) by {
        assert(card_bytes(p[i], mode) =~= card_bytes(q[i], mode));
    }
    assert(card_bytes(p[STOCK as int], mode) == card_bytes(q[STOCK as int], mode));
    assert(column_fingerprints(p, mode) =~= column_fingerprints(q, mode)) by {
        assert forall|i: int| 0 <= i < 10 implies column_fingerprints(p, mode)[i] == column_fingerprints(q, mode)[i] by {
            assert(card_bytes(p[CASCADE_FIRST + i], mode) == card_bytes(q[CASCADE_FIRST + i], mode));
        }
    }
    assert(hash_stream(p, mode) =~= hash_stream(q, mode));
}

proof fn lemma_closed_grow(q: Seq<Seq<Card>>, vs1: Set<u64>, vs2: Set<u64>, mode: StreamlinerMode)
    requires
        closed_ok(q, vs1, mode),
        vs1.subset_of(vs2),
    ensures
        closed_ok(q, vs2, mode),
{
    reveal(closed_ok);
}

proof fn lemma_seen_grow(f: Frame, vs1: Set<u64>, vs2: Set<u64>, mode: StreamlinerMode)
    requires
        frame_seen(f, vs1, mode),
        vs1.subset_of(vs2),
    ensures
        frame_seen(f, vs2, mode),
{
    reveal(frame_seen);
}

/// `f2` is `f` after trying its next choice, whose child's fingerprint is
/// in `vs`.
proof fn lemma_frame_step(f: Frame, f2: Frame, vs: Set<u64>, mode: StreamlinerMode, cs: Seq<Move>)
    requires
        frame_seen(f, vs, mode),
        f2.at@ == f.at@,
        f2.choices@ == f.choices@,
        f2.next_idx == f.next_idx + 1,
        f.next_idx < f.choices@.len(),
        forced_collapses(apply_seq(f.at@, f.choices@[f.next_idx as int]@), cs),
        vs.contains(hash_state_spec(round_end(f.at@, (f.choices@[f.next_idx as int]@, cs)), mode)),
    ensures
        frame_seen(f2, vs, mode),
{
    reveal(frame_seen);
    assert forall|k: int, cs2: Seq<Move>|
        0 <= k < f2.next_idx && k < f2.choices@.len() && #[trigger] forced_collapses(apply_seq(f2.at@, f2.choices@[k]@), cs2)
            implies vs.contains(hash_state_spec(round_end(f2.at@, (f2.choices@[k]@, cs2)), mode)) by {
        if k == f.next_idx {
            lemma_forced_unique(apply_seq(f.at@, f.choices@[k]@), cs2, cs);
        }
    }
}

/// The top frame, replaced by `f2` on the same board, keeps the search
/// bookkeeping.
proof fn lemma_search_seen(
    start: Seq<Seq<Card>>,
    mode: StreamlinerMode,
    vis: Set<Seq<Seq<Card>>>,
    closed: Set<Seq<Seq<Card>>>,
    vs: Set<u64>,
    stack: Seq<Frame>,
    f2: Frame,
)
    requires
        search_ok(start, mode, vis, closed, vs, stack),
        stack.len() > 0,
        f2.at@ == stack.last().at@,
        frame_seen(f2, vs, mode),
    ensures
        search_ok(start, mode, vis, closed, vs, stack.drop_last().push(f2)),
{
    let n = stack.len();
    let st = stack.drop_last().push(f2);
    assert(vis.contains(stack[n - 1].at@));
    assert forall|q: Seq<Seq<Card>>| #[trigger] vis.contains(q) implies {
        &&& rounds_reach(start, q)
        &&& !spider_won(q)
        &&& closed.contains(q) || exists|i: int| 0 <= i < st.len() && (#[trigger] st[i]).at@ == q
    } by {
        if !closed.contains(q) {
            let i = choose|i: int| 0 <= i < stack.len() && (#[trigger] stack[i]).at@ == q;
            if i < n - 1 {
                assert(st[i] == stack[i]);
            } else {
                assert(st[n - 1] == f2);
            }
        }
    }
    assert forall|i: int| 0 <= i < st.len() implies vis.contains((#[trigger] st[i]).at@) && frame_seen(st[i], vs, mode) by {
        if i < n - 1 {
            assert(st[i] == stack[i]);
        } else {
            assert(st[i] == f2);
        }
    }
}

/// The top frame, replaced by `f2`, and a new board `child` pushed in a
/// fresh frame, with its fingerprint added: the bookkeeping holds.
proof fn lemma_search_new(
    start: Seq<Seq<Card>>,
    mode: StreamlinerMode,
    vis: Set<Seq<Seq<Card>>>,
    closed: Set<Seq<Seq<Card>>>,
    vs: Set<u64>,
    stack: Seq<Frame>,
    f2: Frame,
    child_frame: Frame,
    child: Seq<Seq<Card>>,
)
    requires
        search_ok(start, mode, vis, closed, vs, stack),
        stack.len() > 0,
        f2.at@ == stack.last().at@,
        frame_seen(f2, vs.insert(hash_state_spec(child, mode)), mode),
        rounds_reach(start, child),
        !spider_won(child),
        child_frame.at@ == child,
        child_frame.next_idx == 0,
    ensures
        search_ok(
            start,
            mode,
            vis.insert(child),
            closed,
            vs.insert(hash_state_spec(child, mode)),
            stack.drop_last().push(f2).push(child_frame),
        ),
{
    let n = stack.len() as int;
    let h = hash_state_spec(child, mode);
    let vs2 = vs.insert(h);
    let vis2 = vis.insert(child);
    let st = stack.drop_last().push(f2).push(child_frame);
    assert(vis.contains(stack[n - 1].at@));
    assert(vs.subset_of(vs2));
    assert forall|h2: u64| #[trigger] vs2.contains(h2) implies exists|q: Seq<Seq<Card>>| vis2.contains(q) && hash_state_spec(q, mode) == h2 by {
        if h2 != h {
            let q = choose|q: Seq<Seq<Card>>| vis.contains(q) && hash_state_spec(q, mode) == h2;
            assert(vis2.contains(q));
        } else {
            assert(vis2.contains(child));
        }
    }
    assert forall|q: Seq<Seq<Card>>| #[trigger] vis2.contains(q) implies {
        &&& rounds_reach(start, q)
        &&& !spider_won(q)
        &&& closed.contains(q) || exists|i: int| 0 <= i < st.len() && (#[trigger] st[i]).at@ == q
    } by {
        if q == child {
            assert(st[n] == child_frame);
        } else if !closed.contains(q) {
            let i = choose|i: int| 0 <= i < stack.len() && (#[trigger] stack[i]).at@ == q;
            if i < n - 1 {
                assert(st[i] == stack[i]);
            } else {
                assert(st[n - 1] == f2);
            }
        }
    }
    assert forall|q: Seq<Seq<Card>>| #[trigger] closed.contains(q) implies vis2.contains(q) && closed_ok(q, vs2, mode) by {
        lemma_closed_grow(q, vs, vs2, mode);
    }
    assert forall|i: int| 0 <= i < st.len() implies vis2.contains((#[trigger] st[i]).at@) && frame_seen(st[i], vs2, mode) by {
        if i < n - 1 {
            assert(st[i] == stack[i]);
            lemma_seen_grow(stack[i], vs, vs2, mode);
        } else if i == n - 1 {
            assert(st[i] == f2);
        } else {
            assert(st[i] == child_frame);
            reveal(frame_seen);
        }
    }
}

/// What the search knows of the (board, choice) pairs it has tried: each
/// on a seen board; on a board still on the stack, exactly the choices
/// before the frame's next one; the stack's boards distinct, and the seen
/// boards distinct in fingerprint.
spec fn tried_ok(
    tried: Set<(Seq<Seq<Card>>, Seq<Move>)>,
    vis: Set<Seq<Seq<Card>>>,
    stack: Seq<Frame>,
    mode: StreamlinerMode,
) -> bool {
    &&& tried.finite()
    &&& forall|x: (Seq<Seq<Card>>, Seq<Move>)| #[trigger] tried.contains(x) ==> vis.contains(x.0) && solver_choice(x.0, x.1)
    &&& forall|i: int, x: (Seq<Seq<Card>>, Seq<Move>)|
        0 <= i < stack.len() && #[trigger] tried.contains(x) && x.0 == (#[trigger] stack[i]).at@ ==> exists|k: int|
            0 <= k < stack[i].next_idx && k < stack[i].choices@.len() && stack[i].choices@[k]@ == x.1
    &&& forall|i: int, j: int| 0 <= i < j < stack.len() ==> (#[trigger] stack[i]).at@ != (#[trigger] stack[j]).at@
    &&& forall|i: int| 0 <= i < stack.len() ==> vis.contains((#[trigger] stack[i]).at@)
    &&& forall|q1: Seq<Seq<Card>>, q2: Seq<Seq<Card>>|
        #![trigger vis.contains(q1), vis.contains(q2)]
        vis.contains(q1) && vis.contains(q2) && hash_state_spec(q1, mode) == hash_state_spec(q2, mode) ==> q1 == q2
}

/// Popping the top frame keeps the bookkeeping.
proof fn lemma_tried_pop(
    tried: Set<(Seq<Seq<Card>>, Seq<Move>)>,
    vis: Set<Seq<Seq<Card>>>,
    stack: Seq<Frame>,
    mode: StreamlinerMode,
)
    requires
        tried_ok(tried, vis, stack, mode),
        stack.len() > 0,
    ensures
        tried_ok(tried, vis, stack.drop_last(), mode),
{
    let st = stack.drop_last();
    assert forall|i: int, x: (Seq<Seq<Card>>, Seq<Move>)|
        0 <= i < st.len() && #[trigger] tried.contains(x) && x.0 == (#[trigger] st[i]).at@ implies exists|k: int|
            0 <= k < st[i].next_idx && k < st[i].choices@.len() && st[i].choices@[k]@ == x.1 by {
        assert(st[i] == stack[i]);
    }
    assert forall|i: int, j: int| 0 <= i < j < st.len() implies (#[trigger] st[i]).at@ != (#[trigger] st[j]).at@ by {
        assert(st[i] == stack[i]);
        assert(st[j] == stack[j]);
    }
    assert forall|i: int| 0 <= i < st.len() implies vis.contains((#[trigger] st[i]).at@) by {
        assert(st[i] == stack[i]);
    }
}

/// The top frame's next choice has not been tried yet; trying it and
/// moving the frame on (`f2`) keeps the bookkeeping.
proof fn lemma_tried_step(
    tried: Set<(Seq<Seq<Card>>, Seq<Move>)>,
    vis: Set<Seq<Seq<Card>>>,
    stack: Seq<Frame>,
    mode: StreamlinerMode,
    f2: Frame,
)
    requires
        tried_ok(tried, vis, stack, mode),
        stack.len() > 0,
        stack.last().next_idx < stack.last().choices@.len(),
        choices_distinct(stack.last().choices@),
        solver_choice(stack.last().at@, stack.last().choices@[stack.last().next_idx as int]@),
        f2.at@ == stack.last().at@,
        f2.choices@ == stack.last().choices@,
        f2.next_idx == stack.last().next_idx + 1,
    ensures
        !tried.contains((stack.last().at@, stack.last().choices@[stack.last().next_idx as int]@)),
        tried_ok(
            tried.insert((stack.last().at@, stack.last().choices@[stack.last().next_idx as int]@)),
            vis,
            stack.drop_last().push(f2),
            mode,
        ),
{
    let n = stack.len() as int;
    let f = stack[n - 1];
    let k0 = f.next_idx as int;
    let pair = (f.at@, f.choices@[k0]@);
    if tried.contains(pair) {
        let k = choose|k: int| 0 <= k < f.next_idx && k < f.choices@.len() && f.choices@[k]@ == pair.1;
        reveal(choices_distinct);
        assert(f.choices@[k]@ != f.choices@[k0]@);
    }
    let t2 = tried.insert(pair);
    let st = stack.drop_last().push(f2);
    assert(vis.contains(stack[n - 1].at@));
    assert forall|i: int, x: (Seq<Seq<Card>>, Seq<Move>)|
        0 <= i < st.len() && #[trigger] t2.contains(x) && x.0 == (#[trigger] st[i]).at@ implies exists|k: int|
            0 <= k < st[i].next_idx && k < st[i].choices@.len() && st[i].choices@[k]@ == x.1 by {
        if i < n - 1 {
            assert(st[i] == stack[i]);
            if x == pair {
                assert(stack[i].at@ != stack[n - 1].at@);
            }
        } else {
            assert(st[i] == f2);
            if x != pair {
                assert(tried.contains(x) && x.0 == stack[n - 1].at@);
            }
        }
    }
    assert forall|i: int, j: int| 0 <= i < j < st.len() implies (#[trigger] st[i]).at@ != (#[trigger] st[j]).at@ by {
        assert(st[i] == stack[i]);
        if j < n - 1 {
            assert(st[j] == stack[j]);
        } else {
            assert(st[j] == f2);
            assert(stack[i].at@ != stack[n - 1].at@);
        }
    }
    assert forall|i: int| 0 <= i < st.len() implies vis.contains((#[trigger] st[i]).at@) by {
        if i < n - 1 {
            assert(st[i] == stack[i]);
        }
    }
}

/// Pushing a frame on a board not seen before, with a fingerprint not seen
/// before, keeps the bookkeeping once the board is seen.
proof fn lemma_tried_new(
    tried: Set<(Seq<Seq<Card>>, Seq<Move>)>,
    vis: Set<Seq<Seq<Card>>>,
    stack: Seq<Frame>,
    mode: StreamlinerMode,
    child: Frame,
)
    requires
        tried_ok(tried, vis, stack, mode),
        forall|q: Seq<Seq<Card>>| #[trigger] vis.contains(q) ==> hash_state_spec(q, mode) != hash_state_spec(child.at@, mode),
        child.next_idx == 0,
    ensures
        tried_ok(tried, vis.insert(child.at@), stack.push(child), mode),
{
    let c = child.at@;
    let v2 = vis.insert(c);
    let st = stack.push(child);
    assert(!vis.contains(c));
    assert forall|i: int, x: (Seq<Seq<Card>>, Seq<Move>)|
        0 <= i < st.len() && #[trigger] tried.contains(x) && x.0 == (#[trigger] st[i]).at@ implies exists|k: int|
            0 <= k < st[i].next_idx && k < st[i].choices@.len() && st[i].choices@[k]@ == x.1 by {
        if i < stack.len() {
            assert(st[i] == stack[i]);
        } else {
            assert(st[i] == child);
            assert(vis.contains(x.0));
        }
    }
    assert forall|i: int, j: int| 0 <= i < j < st.len() implies (#[trigger] st[i]).at@ != (#[trigger] st[j]).at@ by {
        assert(st[i] == stack[i]);
        if j < stack.len() {
            assert(st[j] == stack[j]);
        } else {
            assert(vis.contains(stack[i].at@));
        }
    }
    assert forall|i: int| 0 <= i < st.len() implies v2.contains((#[trigger] st[i]).at@) by {
        if i < stack.len() {
            assert(st[i] == stack[i]);
        }
    }
    assert forall|q1: Seq<Seq<Card>>, q2: Seq<Seq<Card>>|
        #![trigger v2.contains(q1), v2.contains(q2)]
        v2.contains(q1) && v2.contains(q2) && hash_state_spec(q1, mode) == hash_state_spec(q2, mode) implies q1 == q2 by {
        if q1 != c && q2 != c {
            assert(vis.contains(q1) && vis.contains(q2));
        }
    }
}

/// The top frame's next choice has not been tried yet.
proof fn lemma_tried_fresh(
    tried: Set<(Seq<Seq<Card>>, Seq<Move>)>,
    vis: Set<Seq<Seq<Card>>>,
    stack: Seq<Frame>,
    mode: StreamlinerMode,
)
    requires
        tried_ok(tried, vis, stack, mode),
        stack.len() > 0,
        stack.last().next_idx < stack.last().choices@.len(),
        choices_distinct(stack.last().choices@),
    ensures
        !tried.contains((stack.last().at@, stack.last().choices@[stack.last().next_idx as int]@)),
{
    let n = stack.len() as int;
    let f = stack[n - 1];
    let k0 = f.next_idx as int;
    let pair = (f.at@, f.choices@[k0]@);
    if tried.contains(pair) {
        let k = choose|k: int| 0 <= k < f.next_idx && k < f.choices@.len() && f.choices@[k]@ == pair.1;
        reveal(choices_distinct);
        assert(f.choices@[k]@ != f.choices@[k0]@);
    }
}

/// The pairs tried, and one more untried pair on a seen board, are pairs
/// the search can reach.
proof fn lemma_pairs_reached(
    root: Seq<Seq<Card>>,
    pre: Seq<Move>,
    start: Seq<Seq<Card>>,
    mode: StreamlinerMode,
    vis: Set<Seq<Seq<Card>>>,
    closed: Set<Seq<Seq<Card>>>,
    vs: Set<u64>,
    stack: Seq<Frame>,
    tried: Set<(Seq<Seq<Card>>, Seq<Move>)>,
    pair: (Seq<Seq<Card>>, Seq<Move>),
)
    requires
        forced_collapses(root, pre),
        apply_seq(root, pre) == start,
        search_ok(start, mode, vis, closed, vs, stack),
        tried_ok(tried, vis, stack, mode),
        vis.contains(pair.0),
        solver_choice(pair.0, pair.1),
        !tried.contains(pair),
    ensures
        search_pairs(root, mode, tried.insert(pair)),
        tried.insert(pair).len() == tried.len() + 1,
{
    let t = tried.insert(pair);
    assert forall|x: (Seq<Seq<Card>>, Seq<Move>)| #[trigger] t.contains(x) implies search_reaches(root, x.0) && solver_choice(
        x.0,
        x.1,
    ) by {
        assert(vis.contains(x.0));
        assert(rounds_reach(start, x.0));
        assert(rounds_reach(apply_seq(root, pre), x.0));
    }
    assert forall|x: (Seq<Seq<Card>>, Seq<Move>), y: (Seq<Seq<Card>>, Seq<Move>)|
        #![trigger t.contains(x), t.contains(y)]
        t.contains(x) && t.contains(y) && hash_state_spec(x.0, mode) == hash_state_spec(y.0, mode) implies x.0 == y.0 by {
        assert(vis.contains(x.0) && vis.contains(y.0));
    }
}

/// With every seen board finished, and boards of one fingerprint equally
/// near a win, no seen board wins within `n` rounds.
proof fn lemma_search_no_win(
    start: Seq<Seq<Card>>,
    mode: StreamlinerMode,
    vis: Set<Seq<Seq<Card>>>,
    closed: Set<Seq<Seq<Card>>>,
    vs: Set<u64>,
    n: nat,
)
    requires
        search_ok(start, mode, vis, closed, vs, Seq::<Frame>::empty()),
        forall|q1: Seq<Seq<Card>>, q2: Seq<Seq<Card>>, k: nat|
            #![trigger rounds_reach(start, q1), rounds_reach(start, q2), wins_within(q1, k)]
            rounds_reach(start, q1) && rounds_reach(start, q2) && hash_state_spec(q1, mode) == hash_state_spec(q2, mode)
                ==> wins_within(q1, k) == wins_within(q2, k),
    ensures
        forall|v: Seq<Seq<Card>>| #[trigger] vis.contains(v) ==> !wins_within(v, n),
    decreases n,
{
    if n > 0 {
        lemma_search_no_win(start, mode, vis, closed, vs, (n - 1) as nat);
    }
    assert forall|v: Seq<Seq<Card>>| #[trigger] vis.contains(v) implies !wins_within(v, n) by {
        if wins_within(v, n) {
            let rs = choose|rs: Seq<(Seq<Move>, Seq<Move>)>| rs.len() <= n && rounds_ok(v, rs) && spider_won(
                #[trigger] rounds_end(v, rs),
            );
            assert(rs.len() > 0);
            let r = rs[0];
            let next = round_end(v, r);
            let rest = rs.drop_first();
            assert(wins_within(next, (n - 1) as nat)) by {
                assert(rounds_end(next, rest) == rounds_end(v, rs));
            }
            assert(closed.contains(v));
            assert(closed_ok(v, vs, mode));
            assert(vs.contains(hash_state_spec(next, mode))) by {
                reveal(closed_ok);
                assert(forced_collapses(apply_seq(v, r.0), r.1));
            }
            let w = choose|w: Seq<Seq<Card>>| vis.contains(w) && hash_state_spec(w, mode) == hash_state_spec(next, mode);
            lemma_reach_push(start, v, r);
            assert(rounds_reach(start, w));
            assert(wins_within(next, (n - 1) as nat) == wins_within(w, (n - 1) as nat));
        }
    }
}

/// Mapping each element keeps two rearrangements of each other
/// rearrangements of each other.
proof fn lemma_map_same_multiset<A, B>(a: Seq<A>, b: Seq<A>, f: spec_fn(A) -> B)
    requires
        a.to_multiset() == b.to_multiset(),
    ensures
        a.map_values(f).to_multiset() == b.map_values(f).to_multiset(),
    decreases a.len(),
{
    broadcast use vstd::multiset::group_multiset_axioms;

    vstd::seq_lib::to_multiset_len(a);
    vstd::seq_lib::to_multiset_len(b);
    if a.len() == 0 {
        assert(a.map_values(f) =~= b.map_values(f));
    } else {
        let x = a[0];
        vstd::seq_lib::to_multiset_contains(a, x);
        assert(a.contains(x));
        vstd::seq_lib::to_multiset_contains(b, x);
        let k = choose|k: int| 0 <= k < b.len() && b[k] == x;
        vstd::seq_lib::to_multiset_remove(a, 0);
        vstd::seq_lib::to_multiset_remove(b, k);
        lemma_map_same_multiset(a.remove(0), b.remove(k), f);
        let fa = a.map_values(f);
        let fb = b.map_values(f);
        assert(fa.remove(0) =~= a.remove(0).map_values(f));
        assert(fb.remove(k) =~= b.remove(k).map_values(f));
        vstd::seq_lib::to_multiset_remove(fa, 0);
        vstd::seq_lib::to_multiset_remove(fb, k);
        assert(fa.contains(f(x)));
        assert(fb[k] == f(x));
        assert(fb.contains(f(x)));
        vstd::seq_lib::to_multiset_contains(fa, f(x));
        vstd::seq_lib::to_multiset_contains(fb, f(x));
        let ma = fa.to_multiset();
        let mb = fb.to_multiset();
        assert(ma.remove(f(x)) == mb.remove(f(x)));
        assert forall|y: B| ma.count(y) == mb.count(y) by {
            assert(ma.remove(f(x)).count(y) == mb.remove(f(x)).count(y));
        }
        assert(ma =~= mb);
    }
}

/// Rearranging a sequence by a permutation `pi` of its positions (with
/// inverse `sigma`) keeps its multiset.
pub proof fn lemma_permuted_multiset<A>(s: Seq<A>, t: Seq<A>, pi: spec_fn(int) -> int, sigma: spec_fn(int) -> int)
    requires
        t.len() == s.len(),
        forall|i: int| 0 <= i < t.len() ==> 0 <= #[trigger] pi(i) < s.len() && sigma(pi(i)) == i,
        forall|k: int| 0 <= k < s.len() ==> 0 <= #[trigger] sigma(k) < t.len() && pi(sigma(k)) == k,
        forall|i: int| 0 <= i < t.len() ==> t[i] == s[#[trigger] pi(i)],
    ensures
        t.to_multiset() == s.to_multiset(),
    decreases t.len(),
{
    broadcast use vstd::multiset::group_multiset_axioms;

    if t.len() == 0 {
        assert(t =~= s);
    } else {
        let n = t.len() as int;
        let j = pi(n - 1);
        let s2 = s.remove(j);
        let t2 = t.drop_last();
        let pi2 = |i: int| if pi(i) < j { pi(i) } else { pi(i) - 1 };
        let sigma2 = |k: int| sigma(if k < j { k } else { k + 1 });
        assert forall|i: int| 0 <= i < t2.len() implies 0 <= #[trigger] pi2(i) < s2.len() && sigma2(pi2(i)) == i by {
            assert(pi(i) != j) by {
                if pi(i) == j {
                    assert(sigma(pi(i)) == i);
                    assert(sigma(pi(n - 1)) == n - 1);
                }
            }
        }
        assert forall|k: int| 0 <= k < s2.len() implies 0 <= #[trigger] sigma2(k) < t2.len() && pi2(sigma2(k)) == k by {
            let kk = if k < j { k } else { k + 1 };
            assert(pi(sigma(kk)) == kk);
            if sigma(kk) == n - 1 {
                assert(pi(n - 1) == kk);
            }
        }
        assert forall|i: int| 0 <= i < t2.len() implies t2[i] == s2[#[trigger] pi2(i)] by {
            assert(pi(i) != j) by {
                if pi(i) == j {
                    assert(sigma(pi(i)) == i);
                    assert(sigma(pi(n - 1)) == n - 1);
                }
            }
            assert(t[i] == s[pi(i)]);
        }
        lemma_permuted_multiset(s2, t2, pi2, sigma2);
        vstd::seq_lib::to_multiset_remove(s, j);
        vstd::seq_lib::to_multiset_remove(t, n - 1);
        assert(t.remove(n - 1) =~= t2);
        assert(t[n - 1] == s[j]);
        vstd::seq_lib::to_multiset_contains(s, s[j]);
        vstd::seq_lib::to_multiset_contains(t, t[n - 1]);
        assert(s.contains(s[j]));
        assert(t.contains(t[n - 1]));
        let ms = s.to_multiset();
        let mt = t.to_multiset();
        assert forall|x: A| mt.count(x) == ms.count(x) by {
            assert(mt.remove(t[n - 1]).count(x) == ms.remove(s[j]).count(x));
        }
        assert(mt =~= ms);
    }
}

/// The board hash ignores any permutation of the tableau columns: when
/// column `i` of `b` is column `pi(i)` of `a` (for a permutation `pi` of
/// the ten columns, with inverse `sigma`) and the foundations and stock
/// agree, the boards hash alike in every mode.
pub proof fn law_hash_ignores_column_permutation(
    a: Seq<Seq<Card>>,
    b: Seq<Seq<Card>>,
    pi: spec_fn(int) -> int,
    sigma: spec_fn(int) -> int,
    mode: StreamlinerMode,
)
    requires
        a.len() == 19,
        b.len() == 19,
        forall|i: int| 0 <= i <= STOCK ==> #[trigger] b[i] == a[i],
        forall|i: int| 0 <= i < 10 ==> 0 <= #[trigger] pi(i) < 10 && sigma(pi(i)) == i,
        forall|k: int| 0 <= k < 10 ==> 0 <= #[trigger] sigma(k) < 10 && pi(sigma(k)) == k,
        forall|i: int| 0 <= i < 10 ==> b[CASCADE_FIRST + i] == a[CASCADE_FIRST + #[trigger] pi(i)],
    ensures
        hash_state_spec(b, mode) == hash_state_spec(a, mode),
{
    let sa = a.subrange(CASCADE_FIRST as int, 19);
    let sb = b.subrange(CASCADE_FIRST as int, 19);
    assert forall|i: int| 0 <= i < sb.len() implies sb[i] == sa[#[trigger] pi(i)] by {
        assert(b[CASCADE_FIRST + i] == a[CASCADE_FIRST + pi(i)]);
    }
    lemma_permuted_multiset(sa, sb, pi, sigma);
    law_hash_ignores_column_order(a, b, mode);
}

/// The board hash ignores the order of the tableau columns: two boards with
/// the same foundations and stock whose columns are the same cascades in
/// any order hash alike, in every mode.
pub proof fn law_hash_ignores_column_order(p: Seq<Seq<Card>>, q: Seq<Seq<Card>>, mode: StreamlinerMode)
    requires
        p.len() == 19,
        q.len() == 19,
        forall|i: int| 0 <= i <= STOCK ==> #[trigger] q[i] == p[i],
        q.subrange(CASCADE_FIRST as int, 19).to_multiset() == p.subrange(CASCADE_FIRST as int, 19).to_multiset(),
    ensures
        hash_state_spec(q, mode) == hash_state_spec(p, mode),
{
    lemma_completed_count_same(p, q, 8);
    let f = |c: Seq<Card>| fingerprint_spec(c, mode);
    lemma_map_same_multiset(q.subrange(CASCADE_FIRST as int, 19), p.subrange(CASCADE_FIRST as int, 19), f);
    assert(column_fingerprints(p, mode) =~= p.subrange(CASCADE_FIRST as int, 19).map_values(f));
    assert(column_fingerprints(q, mode) =~= q.subrange(CASCADE_FIRST as int, 19).map_values(f));
    assert(sorted_fingerprints(q, mode) == sorted_fingerprints(p, mode));
    assert(q[STOCK as int] == p[STOCK as int]);
    assert(hash_stream(q, mode) =~= hash_stream(p, mode));
}

/// Under `SuitFlatten`, boards that differ only in suits hash the same.
pub proof fn law_flatten_ignores_suits(p: Seq<Seq<Card>>, q: Seq<Seq<Card>>)
    requires
        p.len() == 19,
        q.len() == 19,
        forall|i: int| 0 <= i < 19 ==> (#[trigger] p[i]).len() == q[i].len(),
        forall|i: int, k: int| 0 <= i < 19 && 0 <= k < p[i].len() ==> (#[trigger] p[i][k]).rank == q[i][k].rank
            && p[i][k].face_up == q[i][k].face_up,
    ensures
        hash_state_spec(p, StreamlinerMode::SuitFlatten) == hash_state_spec(q, StreamlinerMode::SuitFlatten),
{
    lemma_hash_same_bytes(p, q, StreamlinerMode::SuitFlatten);
}

/// Under `SuitColour`, boards that differ only in suits of the same colour
/// hash the same.
pub proof fn law_colour_ignores_suits_within_colour(p: Seq<Seq<Card>>, q: Seq<Seq<Card>>)
    requires
        p.len() == 19,
        q.len() == 19,
        forall|i: int| 0 <= i < 19 ==> (#[trigger] p[i]).len() == q[i].len(),
        forall|i: int, k: int| 0 <= i < 19 && 0 <= k < p[i].len() ==> (#[trigger] p[i][k]).rank == q[i][k].rank
            && p[i][k].face_up == q[i][k].face_up && color_of(p[i][k].suit) == color_of(q[i][k].suit),
    ensures
        hash_state_spec(p, StreamlinerMode::SuitColour) == hash_state_spec(q, StreamlinerMode::SuitColour),
{
    lemma_hash_same_bytes(p, q, StreamlinerMode::SuitColour);
}


/// `m` applies to `p` and is a legal Spider move there.
pub open spec fn spider_step_ok(p: Seq<Seq<Card>>, m: Move) -> bool {
    can_apply(p, m) && spider_legal(p, m)
}

/// Every move of `path`, played in turn from `p`, is a legal Spider move.
pub open spec fn spider_path_ok(p: Seq<Seq<Card>>, path: Seq<Move>) -> bool
    decreases path.len(),
{
    if path.len() == 0 {
        true
    } else {
        spider_step_ok(p, path[0]) && spider_path_ok(apply_spec(p, path[0]), path.drop_first())
    }
}

proof fn lemma_spider_path_push(p: Seq<Seq<Card>>, path: Seq<Move>, m: Move)
    requires
        spider_path_ok(p, path),
        spider_step_ok(apply_seq(p, path), m),
    ensures
        spider_path_ok(p, path.push(m)),
    decreases path.len(),
{
    if path.len() > 0 {
        let q = apply_spec(p, path[0]);
        assert(path.push(m).drop_first() =~= path.drop_first().push(m));
        assert(path.push(m)[0] == path[0]);
        assert(apply_seq(p, path) == apply_seq(q, path.drop_first()));
        lemma_spider_path_push(q, path.drop_first(), m);
    } else {
        assert(apply_seq(p, path) == p);
        assert(path.push(m)[0] == m);
        assert(path.push(m).drop_first() =~= Seq::<Move>::empty());
        assert(spider_path_ok(apply_spec(p, m), Seq::<Move>::empty()));
    }
}

proof fn lemma_reversible_seq_push(p: Seq<Seq<Card>>, ms: Seq<Move>, m: Move)
    requires
        reversible_seq(p, ms),
        reversible(apply_seq(p, ms), m),
    ensures
        reversible_seq(p, ms.push(m)),
    decreases ms.len(),
{
    if ms.len() > 0 {
        let q = apply_spec(p, ms[0]);
        assert(ms.push(m).drop_first() =~= ms.drop_first().push(m));
        assert(ms.push(m)[0] == ms[0]);
        assert(apply_seq(p, ms) == apply_seq(q, ms.drop_first()));
        lemma_reversible_seq_push(q, ms.drop_first(), m);
    } else {
        assert(apply_seq(p, ms) == p);
        assert(ms.push(m)[0] == m);
        assert(ms.push(m).drop_first() =~= Seq::<Move>::empty());
        assert(reversible_seq(apply_spec(p, m), Seq::<Move>::empty()));
    }
}

/// The moves of a search choice can be played in turn from `p`, each legal
/// and reversible.
pub open spec fn choice_ok(p: Seq<Seq<Card>>, c: Seq<Move>) -> bool
    decreases c.len(),
{
    if c.len() == 0 {
        true
    } else {
        &&& spider_step_ok(p, c[0])
        &&& reversible(p, c[0])
        &&& choice_ok(apply_spec(p, c[0]), c.drop_first())
    }
}

/// Every foundation holds thirteen cards.
fn board_won(piles: &PileSet) -> (r: bool)
    requires
        piles@.len() == 19,
    ensures
        r == spider_won(piles@),
{
    let mut f: u8 = FOUND_FIRST;
    while f <= FOUND_LAST
        invariant
            piles@.len() == 19,
            f <= FOUND_LAST + 1,
            forall|g: int| FOUND_FIRST <= g < f ==> (#[trigger] piles@[g]).len() == 13,
        decreases FOUND_LAST + 1 - f,
    {
        if piles.pile_len(f) != 13 {
            return false;
        }
        f = f + 1;
    }
    true
}

/// The stock deal from column `k` on: one face-down stock card onto each
/// column, turned face-up.
pub open spec fn deal_moves(k: int) -> Seq<Move> {
    Seq::new((N_CASCADES - k) as nat, |i: int| Move {
        from: STOCK,
        take: 1,
        to: (CASCADE_FIRST + k + i) as u8,
        flip_moved: true,
        flip_source_after: false,
        reverse_order: false,
        swap_with_top: false,
    })
}

proof fn lemma_deal_choice_ok(p: Seq<Seq<Card>>, k: int)
    requires
        p.len() == 19,
        0 <= k <= 10,
        p[STOCK as int].len() >= 10 - k,
    ensures
        choice_ok(p, deal_moves(k)),
    decreases 10 - k,
{
    if k < 10 {
        let m = deal_moves(k)[0];
        let q = apply_spec(p, m);
        assert(deal_moves(k).drop_first() =~= deal_moves(k + 1));
        assert(q[STOCK as int].len() == p[STOCK as int].len() - 1);
        lemma_deal_choice_ok(q, k + 1);
    } else {
        assert(deal_moves(k).len() == 0);
    }
}

/// The card below the run of column `s` that starts at `st` (if any).
pub open spec fn below_run(p: Seq<Seq<Card>>, s: int, st: int) -> Card {
    p[s][st - 1]
}

/// Lifting the cards of column `s` from `st` up leaves a face-down card on top.
pub open spec fn run_uncovers(p: Seq<Seq<Card>>, s: int, st: int) -> bool {
    st > 0 && !below_run(p, s, st).face_up
}

/// Lifting the cards of column `s` from `st` up breaks a suited run: the
/// card below is face-up, of the same suit, one rank higher.
pub open spec fn run_breaks_suit(p: Seq<Seq<Card>>, s: int, st: int) -> bool {
    &&& st > 0
    &&& below_run(p, s, st).face_up
    &&& below_run(p, s, st).suit == p[s][st].suit
    &&& rank_down(below_run(p, s, st).rank) == Some(p[s][st].rank)
}

/// Putting `head` on column pile `q` extends a suited run there.
pub open spec fn lands_suited(q: Seq<Card>, head: Card) -> bool {
    match top_of(q) {
        None => false,
        Some(t) => t.face_up && t.suit == head.suit && rank_down(t.rank) == Some(head.rank),
    }
}

/// Column pile `q` takes `head`: when empty, or on a face-up top one rank higher.
pub open spec fn spider_takes(q: Seq<Card>, head: Card) -> bool {
    match top_of(q) {
        None => true,
        Some(t) => t.face_up && rank_down(t.rank) == Some(head.rank),
    }
}

/// The cards of column `s` from `st` up (one face-up card, or a suited
/// run) go onto column `d`; a lone card never moves from one empty column
/// to another, and a move that neither uncovers a card nor gives up a
/// suited run for another one is tried.
pub open spec fn spider_candidate_at(p: Seq<Seq<Card>>, s: int, st: int, d: int) -> bool {
    &&& is_cascade_spec(s)
    &&& is_cascade_spec(d)
    &&& d != s
    &&& 0 <= st < p[s].len()
    &&& p[s][st].face_up
    &&& (p[s].len() - st == 1 || suited_run(p[s].subrange(st, p[s].len() as int)))
    &&& spider_takes(p[d], p[s][st])
    &&& !(st == 0 && p[s].len() == 1 && p[d].len() == 0)
    &&& (run_uncovers(p, s, st) || !lands_suited(p[d], p[s][st]) || !run_breaks_suit(p, s, st))
}

pub open spec fn spider_candidate_move(p: Seq<Seq<Card>>, s: int, st: int, d: int) -> Move {
    Move { flip_source_after: run_uncovers(p, s, st), ..simple_spec(s as u8, (p[s].len() - st) as u8, d as u8) }
}

/// The single-move choices the solver tries on `p`.
pub open spec fn spider_candidate(p: Seq<Seq<Card>>, m: Move) -> bool {
    exists|s: int, st: int, d: int| spider_candidate_at(p, s, st, d) && m == spider_candidate_move(p, s, st, d)
}

/// How promising the solver rates moving the top `m.take` cards of column
/// `m.from` onto `m.to`: 1000 when it uncovers a face-down card, 100 when
/// it extends a suited run, minus 200 when it breaks one, plus 5 per card.
pub open spec fn spider_score(p: Seq<Seq<Card>>, m: Move) -> int {
    let s = m.from as int;
    let st = p[s].len() - m.take;
    (if run_uncovers(p, s, st) { 1000int } else { 0int }) + (if lands_suited(p[m.to as int], p[s][st]) { 100int } else { 0int })
        - (if run_breaks_suit(p, s, st) { 200int } else { 0int }) + 5 * m.take
}

/// Where the choice generator meets a candidate: by source column, start
/// and destination.
pub open spec fn spider_scan_key(p: Seq<Seq<Card>>, m: Move) -> (int, int, int, int) {
    (0, m.from as int, p[m.from as int].len() - m.take, m.to as int)
}

/// `out` is every single-move choice of `p`, highest score first, in scan
/// order among equal scores, then the stock deal when the stock holds ten
/// cards.
pub open spec fn ordered_choices(p: Seq<Seq<Card>>, out: Seq<Seq<Move>>) -> bool {
    let n_deal: int = if p[STOCK as int].len() >= N_CASCADES { 1 } else { 0 };
    let k = out.len() - n_deal;
    &&& out.len() >= n_deal
    &&& n_deal == 1 ==> out[k] == deal_moves(0)
    &&& forall|i: int| 0 <= i < k ==> (#[trigger] out[i]).len() == 1 && spider_candidate(p, out[i][0])
    &&& forall|m: Move| spider_candidate(p, m) ==> exists|i: int| 0 <= i < k && #[trigger] out[i] == seq![m]
    &&& forall|i: int, j: int| 0 <= i < j < k ==> spider_score(p, (#[trigger] out[i])[0]) >= spider_score(p, (#[trigger] out[j])[0])
    &&& forall|i: int, j: int| 0 <= i < j < k && spider_score(p, (#[trigger] out[i])[0]) == spider_score(p, (#[trigger] out[j])[0])
        ==> key_lt(spider_scan_key(p, out[i][0]), spider_scan_key(p, out[j][0]))
}

/// The generator misses no legal move of a card or run between columns:
/// on a board whose non-empty columns show their top card, every legal
/// move from one column to another, onto a card or into an empty column,
/// is listed as a single-move choice, except a lone card leaving its column
/// empty for an empty column, and a run that leaves a suited run for
/// another without turning up a card (neither changes anything of
/// substance).
pub proof fn law_generator_lists_legal_moves(p: Seq<Seq<Card>>, out: Seq<Seq<Move>>, m: Move)
    requires
        p.len() == 19,
        ordered_choices(p, out),
        forall|t: int| is_cascade_spec(t) && p[t].len() > 0 ==> (#[trigger] p[t]).last().face_up,
        spider_legal(p, m),
        is_cascade_spec(m.from as int),
        is_cascade_spec(m.to as int),
        m.from != m.to,
        !(m.take == p[m.from as int].len() && m.take == 1 && p[m.to as int].len() == 0),
        !({
            let s = p[m.from as int];
            let st = s.len() - m.take;
            let head = s[st];
            &&& st > 0
            &&& s[st - 1].face_up
            &&& s[st - 1].suit == head.suit
            &&& rank_down(s[st - 1].rank) == Some(head.rank)
            &&& p[m.to as int].len() > 0
            &&& p[m.to as int].last().suit == head.suit
            &&& rank_down(p[m.to as int].last().rank) == Some(head.rank)
        }),
    ensures
        exists|k: int|
            0 <= k < out.len() && (#[trigger] out[k]).len() == 1 && out[k][0].from == m.from && out[k][0].take == m.take
                && out[k][0].to == m.to,
{
    let s = p[m.from as int];
    let n = s.len() as int;
    let st = n - m.take;
    let moved = top_part(s, m.take as int);
    assert(moved =~= s.subrange(st, n));
    assert(moved[0] == s[st]);
    if p[m.to as int].len() > 0 {
        assert(p[m.to as int].last().face_up);
    }
    assert(spider_candidate_at(p, m.from as int, st, m.to as int));
    let c = spider_candidate_move(p, m.from as int, st, m.to as int);
    assert(spider_candidate(p, c));
    let k = choose|k: int|
        0 <= k < out.len() - (if p[STOCK as int].len() >= N_CASCADES { 1int } else { 0int }) && #[trigger] out[k] == seq![c];
    assert(out[k][0] == c);
}

/// A move turns up a face-down card: the card under the lifted cards is
/// face-down.
pub open spec fn turns_up(p: Seq<Seq<Card>>, m: Move) -> bool {
    p[m.from as int].len() > m.take && !p[m.from as int][p[m.from as int].len() - m.take - 1].face_up
}

/// The generator lists every single move that turns up a face-down card
/// before any single move that does not.
pub proof fn law_generator_uncovers_first(p: Seq<Seq<Card>>, out: Seq<Seq<Move>>, i: int, j: int)
    requires
        p.len() == 19,
        ordered_choices(p, out),
        0 <= i < j < out.len() - (if p[STOCK as int].len() >= N_CASCADES { 1int } else { 0int }),
        turns_up(p, out[j][0]),
    ensures
        turns_up(p, out[i][0]),
{
    let a = out[i][0];
    let b = out[j][0];
    assert(spider_candidate(p, a));
    assert(spider_candidate(p, b));
    let (s1, st1, d1) = choose|s: int, st: int, d: int| spider_candidate_at(p, s, st, d) && a == spider_candidate_move(p, s, st, d);
    let (s2, st2, d2) = choose|s: int, st: int, d: int| spider_candidate_at(p, s, st, d) && b == spider_candidate_move(p, s, st, d);
    if p[s1].len() - st1 > 1 {
        lemma_suited_run_len(p[s1].subrange(st1, p[s1].len() as int));
    }
    if p[s2].len() - st2 > 1 {
        lemma_suited_run_len(p[s2].subrange(st2, p[s2].len() as int));
    }
    assert(spider_score(p, a) >= spider_score(p, b));
}

/// Some entry of `s` carries move `m`.
spec fn has_choice(s: Seq<(i32, Move)>, m: Move) -> bool {
    exists|i: int| 0 <= i < s.len() && (#[trigger] s[i]).1 == m
}

/// Every entry of `s` is a legal, reversible candidate carrying its score.
spec fn choices_ok(p: Seq<Seq<Card>>, s: Seq<(i32, Move)>) -> bool {
    forall|i: int| 0 <= i < s.len() ==> {
        &&& spider_step_ok(p, (#[trigger] s[i]).1)
        &&& reversible(p, s[i].1)
        &&& spider_candidate(p, s[i].1)
        &&& s[i].0 == spider_score(p, s[i].1)
    }
}

spec fn candidates_done(p: Seq<Seq<Card>>, s: Seq<(i32, Move)>, a: int, b: int, c: int) -> bool {
    forall|x: int, y: int, z: int|
        (x < a || (x == a && (y < b || (y == b && z < c)))) && spider_candidate_at(p, x, y, z)
            ==> has_choice(s, #[trigger] spider_candidate_move(p, x, y, z))
}

proof fn lemma_choice_push(p: Seq<Seq<Card>>, s: Seq<(i32, Move)>, e: (i32, Move), a: int, b: int, c: int)
    requires
        choices_ok(p, s),
        spider_step_ok(p, e.1),
        reversible(p, e.1),
        spider_candidate(p, e.1),
        e.0 == spider_score(p, e.1),
    ensures
        choices_ok(p, s.push(e)),
        candidates_done(p, s, a, b, c) ==> candidates_done(p, s.push(e), a, b, c),
        has_choice(s.push(e), e.1),
{
    assert(s.push(e)[s.len() as int] == e);
    assert forall|i: int| 0 <= i < s.push(e).len() implies {
        &&& spider_step_ok(p, (#[trigger] s.push(e)[i]).1)
        &&& reversible(p, s.push(e)[i].1)
        &&& spider_candidate(p, s.push(e)[i].1)
        &&& s.push(e)[i].0 == spider_score(p, s.push(e)[i].1)
    } by {
        if i < s.len() {
            assert(s.push(e)[i] == s[i]);
        }
    }
    assert forall|m: Move| has_choice(s, m) implies #[trigger] has_choice(s.push(e), m) by {
        let i = choose|i: int| 0 <= i < s.len() && (#[trigger] s[i]).1 == m;
        assert(s.push(e)[i] == s[i]);
    }
}

/// The choices worth trying on `piles`, most promising first: every
/// single column move of `spider_candidate`, ranked by `spider_score`
/// (equal scores in column, start, destination order), then the stock deal
/// as one choice of ten moves when the stock holds ten cards.
pub fn generate_choices(piles: &PileSet) -> (out: Vec<Vec<Move>>)
    requires
        piles@.len() == 19,
    ensures
        forall|i: int| 0 <= i < out@.len() ==> choice_ok(piles@, (#[trigger] out@[i])@),
        ordered_choices(piles@, out@.map_values(|v: Vec<Move>| v@)),
{
    let ghost p = piles@;
    let ghost key = |m: Move| spider_scan_key(p, m);
    let mut scored: Vec<(i32, Move)> = Vec::new();
    let mut src: u8 = CASCADE_FIRST;
    while src <= CASCADE_LAST
        invariant
            p == piles@,
            p.len() == 19,
            CASCADE_FIRST <= src <= CASCADE_LAST + 1,
            choices_ok(p, scored@),
            candidates_done(p, scored@, src as int, 0, 0),
            keys_before(key, scored@, (0, src as int, 0, 0)),
            forall|m: Move| #[trigger] key(m) == spider_scan_key(p, m),
        decreases CASCADE_LAST + 1 - src,
    {
        let n = piles.pile_len(src);
        let cards = piles.get(src).cards.as_slice();
        let mut start: usize = 0;
        while start < n
            invariant
                p == piles@,
                p.len() == 19,
                CASCADE_FIRST <= src <= CASCADE_LAST,
                n == p[src as int].len(),
                cards@ == p[src as int],
                start <= n,
                choices_ok(p, scored@),
                candidates_done(p, scored@, src as int, start as int, 0),
                keys_before(key, scored@, (0, src as int, start as int, 0)),
                forall|m: Move| #[trigger] key(m) == spider_scan_key(p, m),
            decreases n - start,
        {
            let take = n - start;
            if cards[start].face_up && (take == 1 || suited_run_from(cards, start)) {
                proof {
                    if take > 1 {
                        lemma_suited_run_len(p[src as int].subrange(start as int, n as int));
                    }
                    assert(top_part(p[src as int], take as int) =~= p[src as int].subrange(start as int, n as int));
                }
                let head = cards[start];
                let exposes = start > 0 && !cards[start - 1].face_up;
                let destroys_suited = start > 0 && cards[start - 1].face_up && cards[start - 1].suit == head.suit
                    && crate::cards::rank::opt_rank_is(cards[start - 1].rank.next_down(), head.rank);
                let mut dst: u8 = CASCADE_FIRST;
                proof {
                    lemma_keys_raise(key, scored@, (0, src as int, start as int, 0), (0, src as int, start as int, CASCADE_FIRST as int));
                    assert forall|x: int, y: int, z: int|
                        (x < src || (x == src && (y < start || (y == start && z < dst)))) && spider_candidate_at(p, x, y, z)
                        implies has_choice(scored@, #[trigger] spider_candidate_move(p, x, y, z)) by {
                        if x == src && y == start {
                            assert(z < CASCADE_FIRST);
                        }
                    }
                }
                while dst <= CASCADE_LAST
                    invariant
                        p == piles@,
                        p.len() == 19,
                        CASCADE_FIRST <= src <= CASCADE_LAST,
                        n == p[src as int].len(),
                        cards@ == p[src as int],
                        start < n,
                        take == n - start,
                        take <= 13,
                        head == p[src as int][start as int],
                        head.face_up,
                        take == 1 || suited_run(p[src as int].subrange(start as int, n as int)),
                        take > 1 ==> suited_run(top_part(p[src as int], take as int)),
                        top_part(p[src as int], take as int) == p[src as int].subrange(start as int, n as int),
                        exposes == run_uncovers(p, src as int, start as int),
                        destroys_suited == run_breaks_suit(p, src as int, start as int),
                        CASCADE_FIRST <= dst <= CASCADE_LAST + 1,
                        choices_ok(p, scored@),
                        candidates_done(p, scored@, src as int, start as int, dst as int),
                        keys_before(key, scored@, (0, src as int, start as int, dst as int)),
                        forall|m: Move| #[trigger] key(m) == spider_scan_key(p, m),
                    decreases CASCADE_LAST + 1 - dst,
                {
                    let ghost s0 = scored@;
                    if dst != src {
                        let dst_top = piles.top_card(dst);
                        let legal = match dst_top {
                            None => true,
                            Some(top) => top.face_up && crate::cards::rank::opt_rank_is(top.rank.next_down(), head.rank),
                        };
                        let dst_empty = piles.pile_len(dst) == 0;
                        let creates_suited = match dst_top {
                            None => false,
                            Some(t) => t.face_up && t.suit == head.suit
                                && crate::cards::rank::opt_rank_is(t.rank.next_down(), head.rank),
                        };
                        proof {
                            assert(legal == spider_takes(p[dst as int], head));
                            assert(creates_suited == lands_suited(p[dst as int], head));
                        }
                        if legal && !(take == 1 && start == 0 && n == 1 && dst_empty) {
                            if exposes || !creates_suited || !destroys_suited {
                                let mut score: i32 = 0;
                                if exposes {
                                    score = score + 1000;
                                }
                                if creates_suited {
                                    score = score + 100;
                                }
                                if destroys_suited {
                                    score = score - 200;
                                }
                                score = score + take as i32 * 5;
                                let mut m = Move::simple(src, take as u8, dst);
                                if exposes {
                                    m = m.with_flip_source();
                                }
                                let ghost before = scored@;
                                proof {
                                    let moved = top_part(p[src as int], take as int);
                                    assert(moved[0] == head);
                                    if take == 1 {
                                        assert(moved =~= seq![head]);
                                    }
                                    assert(all_face_up(moved));
                                    assert(spider_candidate_at(p, src as int, start as int, dst as int));
                                    assert(m == spider_candidate_move(p, src as int, start as int, dst as int));
                                    assert(spider_candidate(p, m));
                                    assert(spider_score(p, m) == score);
                                    lemma_choice_push(p, before, (score, m), src as int, start as int, dst as int);
                                    lemma_keys_push(key, before, (score, m), (0, src as int, start as int, dst as int), (0, src as int, start as int, dst + 1));
                                    assert forall|x: int, y: int, z: int|
                                        (x < src || (x == src && (y < start || (y == start && z < dst + 1)))) && spider_candidate_at(p, x, y, z)
                                        implies has_choice(before.push((score, m)), #[trigger] spider_candidate_move(p, x, y, z)) by {
                                        if x == src && y == start && z == dst {
                                        } else {
                                            assert(has_choice(before, spider_candidate_move(p, x, y, z)));
                                        }
                                    }
                                }
                                scored.push((score, m));
                            } else {
                                proof {
                                    assert(!spider_candidate_at(p, src as int, start as int, dst as int));
                                }
                            }
                        } else {
                            proof {
                                assert(!spider_candidate_at(p, src as int, start as int, dst as int));
                            }
                        }
                    }
                    proof {
                        if scored@ == s0 {
                            lemma_keys_raise(key, s0, (0, src as int, start as int, dst as int), (0, src as int, start as int, dst + 1));
                        }
                    }
                    dst = dst + 1;
                }
                proof {
                    lemma_keys_raise(key, scored@, (0, src as int, start as int, dst as int), (0, src as int, start + 1, 0));
                }
            } else {
                proof {
                    lemma_keys_raise(key, scored@, (0, src as int, start as int, 0), (0, src as int, start + 1, 0));
                    assert forall|z: int| !spider_candidate_at(p, src as int, start as int, z) by {}
                }
            }
            start = start + 1;
        }
        proof {
            assert forall|x: int, y: int, z: int|
                (x < src + 1 || (x == src + 1 && (y < 0 || (y == 0 && z < 0)))) && spider_candidate_at(p, x, y, z)
                implies has_choice(scored@, #[trigger] spider_candidate_move(p, x, y, z)) by {
                if x == src {
                    assert(y < n);
                }
            }
            lemma_keys_raise(key, scored@, (0, src as int, start as int, 0), (0, src + 1, 0, 0));
        }
        src = src + 1;
    }
    let ghost unsorted = scored@;
    proof {
        lemma_keys_ties(key, unsorted, (0, CASCADE_LAST + 1, 0, 0));
    }
    sort_by_score_desc(&mut scored, Ghost(key));
    proof {
        assert forall|i: int| 0 <= i < scored@.len() implies {
            &&& spider_step_ok(p, (#[trigger] scored@[i]).1)
            &&& reversible(p, scored@[i].1)
            &&& spider_candidate(p, scored@[i].1)
            &&& scored@[i].0 == spider_score(p, scored@[i].1)
        } by {
            assert(scored@.contains(scored@[i]));
            vstd::seq_lib::to_multiset_contains(scored@, scored@[i]);
            vstd::seq_lib::to_multiset_contains(unsorted, scored@[i]);
            assert(unsorted.contains(scored@[i]));
            let j = choose|j: int| 0 <= j < unsorted.len() && unsorted[j] == scored@[i];
            assert(unsorted[j].1 == scored@[i].1);
        }
        assert forall|m: Move| spider_candidate(p, m) implies has_choice(scored@, m) by {
            let (x, y, z) = choose|x: int, y: int, z: int| spider_candidate_at(p, x, y, z) && m == spider_candidate_move(p, x, y, z);
            assert(x < CASCADE_LAST + 1);
            assert(has_choice(unsorted, spider_candidate_move(p, x, y, z)));
            let j = choose|j: int| 0 <= j < unsorted.len() && (#[trigger] unsorted[j]).1 == m;
            assert(unsorted.contains(unsorted[j]));
            vstd::seq_lib::to_multiset_contains(unsorted, unsorted[j]);
            vstd::seq_lib::to_multiset_contains(scored@, unsorted[j]);
            assert(scored@.contains(unsorted[j]));
            let i = choose|i: int| 0 <= i < scored@.len() && scored@[i] == unsorted[j];
            assert(scored@[i].1 == m);
        }
    }
    let mut out: Vec<Vec<Move>> = Vec::new();
    let k = scored.len();
    let mut i: usize = 0;
    while i < k
        invariant
            p == piles@,
            p.len() == 19,
            k == scored@.len(),
            choices_ok(p, scored@),
            i <= k,
            out@.len() == i,
            forall|j: int| 0 <= j < i ==> (#[trigger] out@[j])@ == seq![scored@[j].1],
            forall|j: int| 0 <= j < i ==> choice_ok(p, (#[trigger] out@[j])@),
        decreases k - i,
    {
        let m = scored[i].1;
        let mut single: Vec<Move> = Vec::new();
        single.push(m);
        proof {
            assert(spider_step_ok(p, scored@[i as int].1));
            assert(single@[0] == m);
            assert(single@.drop_first() =~= Seq::<Move>::empty());
            assert(choice_ok(apply_spec(p, m), Seq::<Move>::empty()));
            assert(choice_ok(p, single@));
            assert(single@ =~= seq![m]);
        }
        out.push(single);
        i = i + 1;
    }
    let ghost body = out@;
    if piles.pile_len(STOCK) >= N_CASCADES {
        let mut deal: Vec<Move> = Vec::new();
        let mut col: u8 = 0;
        while col < 10
            invariant
                col <= 10,
                deal@ == deal_moves(0).subrange(0, col as int),
            decreases 10 - col,
        {
            deal.push(Move::simple(STOCK, 1, CASCADE_FIRST + col).with_flip_moved());
            assert(deal@ =~= deal_moves(0).subrange(0, col + 1));
            col = col + 1;
        }
        proof {
            assert(deal@ =~= deal_moves(0));
            lemma_deal_choice_ok(p, 0);
        }
        out.push(deal);
    }
    proof {
        let o = out@.map_values(|v: Vec<Move>| v@);
        let n_deal: int = if p[STOCK as int].len() >= N_CASCADES { 1 } else { 0 };
        assert(o.len() == k + n_deal);
        assert forall|j: int| 0 <= j < k implies (#[trigger] o[j]).len() == 1 && spider_candidate(p, o[j][0]) by {
            assert(o[j] == body[j]@);
            assert(body[j]@ == seq![scored@[j].1]);
        }
        assert forall|m: Move| spider_candidate(p, m) implies exists|j: int| 0 <= j < k && #[trigger] o[j] == seq![m] by {
            let j = choose|j: int| 0 <= j < scored@.len() && (#[trigger] scored@[j]).1 == m;
            assert(o[j] == body[j]@);
            assert(o[j] == seq![m]);
        }
        assert forall|a: int, b: int| 0 <= a < b < k implies spider_score(p, (#[trigger] o[a])[0]) >= spider_score(p, (#[trigger] o[b])[0]) by {
            assert(o[a] == body[a]@);
            assert(o[b] == body[b]@);
            assert(body[a]@ == seq![scored@[a].1]);
            assert(body[b]@ == seq![scored@[b].1]);
        }
    }
    out
}

/// A copy of a move list.
fn copy_moves(v: &Vec<Move>) -> (r: Vec<Move>)
    ensures
        r@ == v@,
{
    let mut r: Vec<Move> = Vec::new();
    let n = v.len();
    let mut i: usize = 0;
    while i < n
        invariant
            n == v@.len(),
            i <= n,
            r@ == v@.subrange(0, i as int),
        decreases n - i,
    {
        r.push(v[i]);
        i = i + 1;
        assert(r@ =~= v@.subrange(0, i as int));
    }
    assert(r@ =~= v@);
    r
}

/// Play `m` on the shared board, recording it in `applied`.
fn play(
    state: &mut PileSet,
    m: Move,
    applied: &mut Vec<Move>,
    Ghost(base): Ghost<Seq<Seq<Card>>>,
    Ghost(root): Ghost<Seq<Seq<Card>>>,
    Ghost(path): Ghost<Seq<Move>>,
) -> (new_path: Ghost<Seq<Move>>)
    requires
        reversible_seq(base, old(applied)@),
        apply_seq(base, old(applied)@) == old(state)@,
        spider_path_ok(root, path),
        apply_seq(root, path) == old(state)@,
        spider_step_ok(old(state)@, m),
        reversible(old(state)@, m),
    ensures
        final(applied)@ == old(applied)@.push(m),
        final(state)@ == apply_spec(old(state)@, m),
        reversible_seq(base, final(applied)@),
        apply_seq(base, final(applied)@) == final(state)@,
        spider_path_ok(root, new_path@),
        apply_seq(root, new_path@) == final(state)@,
{
    proof {
        lemma_reversible_seq_push(base, applied@, m);
        lemma_apply_seq_push(base, applied@, m);
        lemma_spider_path_push(root, path, m);
        lemma_apply_seq_push(root, path, m);
    }
    apply_move(state, &m);
    applied.push(m);
    Ghost(path.push(m))
}

/// Take back the moves of `applied`, newest first.
fn revert_all(state: &mut PileSet, applied: &Vec<Move>, Ghost(base): Ghost<Seq<Seq<Card>>>)
    requires
        reversible_seq(base, applied@),
        apply_seq(base, applied@) == old(state)@,
    ensures
        final(state)@ == base,
{
    let mut j = applied.len();
    assert(applied@.subrange(0, j as int) =~= applied@);
    while j > 0
        invariant
            j <= applied@.len(),
            reversible_seq(base, applied@.subrange(0, j as int)),
            apply_seq(base, applied@.subrange(0, j as int)) == state@,
        decreases j,
    {
        let ghost ms = applied@.subrange(0, j as int);
        proof {
            lemma_reversible_seq_split(base, ms);
            assert(ms.drop_last() =~= applied@.subrange(0, j - 1));
            assert(ms =~= ms.drop_last().push(ms.last()));
            lemma_apply_seq_push(base, ms.drop_last(), ms.last());
            law_revert_undoes_apply(apply_seq(base, ms.drop_last()), ms.last());
        }
        revert_move(state, &applied[j - 1]);
        j = j - 1;
    }
    assert(applied@.subrange(0, 0) =~= Seq::<Move>::empty());
}

/// Nothing is left to do on `p`: not won, nothing to collapse, no
/// candidate move, and too few cards in the stock for a deal.
pub open spec fn spider_locked(p: Seq<Seq<Card>>) -> bool {
    &&& !spider_won(p)
    &&& spider_auto_from(p, CASCADE_FIRST as int) is None
    &&& forall|m: Move| !#[trigger] spider_candidate(p, m)
    &&& p[STOCK as int].len() < N_CASCADES
}

/// A choice the solver tries on `p`: one candidate move, or the whole
/// ten-card deal when the stock holds ten cards.
pub open spec fn solver_choice(p: Seq<Seq<Card>>, c: Seq<Move>) -> bool {
    ||| c.len() == 1 && spider_candidate(p, c[0])
    ||| p[STOCK as int].len() >= N_CASCADES && c == deal_moves(0)
}

/// `cs` are the collapses forced on `p`, one after another, until no
/// complete run is left to collapse.
pub open spec fn forced_collapses(p: Seq<Seq<Card>>, cs: Seq<Move>) -> bool
    decreases cs.len(),
{
    if cs.len() == 0 {
        spider_auto_from(p, CASCADE_FIRST as int) is None
    } else {
        spider_auto_from(p, CASCADE_FIRST as int) == Some(cs[0]) && forced_collapses(apply_spec(p, cs[0]), cs.drop_first())
    }
}

/// `cs` agrees so far with the collapses forced on `p`.
spec fn collapses_so_far(p: Seq<Seq<Card>>, cs: Seq<Move>) -> bool
    decreases cs.len(),
{
    if cs.len() == 0 {
        true
    } else {
        spider_auto_from(p, CASCADE_FIRST as int) == Some(cs[0]) && collapses_so_far(apply_spec(p, cs[0]), cs.drop_first())
    }
}

proof fn lemma_collapses_push(p: Seq<Seq<Card>>, cs: Seq<Move>, m: Move)
    requires
        collapses_so_far(p, cs),
        spider_auto_from(apply_seq(p, cs), CASCADE_FIRST as int) == Some(m),
    ensures
        collapses_so_far(p, cs.push(m)),
        apply_seq(p, cs.push(m)) == apply_spec(apply_seq(p, cs), m),
    decreases cs.len(),
{
    lemma_apply_seq_push(p, cs, m);
    if cs.len() == 0 {
        assert(cs.push(m)[0] == m);
        assert(cs.push(m).drop_first() =~= Seq::<Move>::empty());
        assert(collapses_so_far(apply_spec(p, m), Seq::<Move>::empty()));
        assert(apply_seq(p, cs) == p);
    } else {
        assert(cs.push(m)[0] == cs[0]);
        assert(cs.push(m).drop_first() =~= cs.drop_first().push(m));
        lemma_collapses_push(apply_spec(p, cs[0]), cs.drop_first(), m);
    }
}

proof fn lemma_collapses_close(p: Seq<Seq<Card>>, cs: Seq<Move>)
    requires
        collapses_so_far(p, cs),
        spider_auto_from(apply_seq(p, cs), CASCADE_FIRST as int) is None,
    ensures
        forced_collapses(p, cs),
    decreases cs.len(),
{
    if cs.len() > 0 {
        lemma_collapses_close(apply_spec(p, cs[0]), cs.drop_first());
    }
}

/// A round of the search: a legal choice, then the collapses it forces.
pub open spec fn round_ok(p: Seq<Seq<Card>>, r: (Seq<Move>, Seq<Move>)) -> bool {
    &&& solver_choice(p, r.0)
    &&& spider_path_ok(p, r.0)
    &&& forced_collapses(apply_seq(p, r.0), r.1)
}

/// The board a round ends on.
pub open spec fn round_end(p: Seq<Seq<Card>>, r: (Seq<Move>, Seq<Move>)) -> Seq<Seq<Card>> {
    apply_seq(apply_seq(p, r.0), r.1)
}

/// Rounds played in turn from `p`.
pub open spec fn rounds_ok(p: Seq<Seq<Card>>, rs: Seq<(Seq<Move>, Seq<Move>)>) -> bool
    decreases rs.len(),
{
    if rs.len() == 0 {
        true
    } else {
        round_ok(p, rs[0]) && rounds_ok(round_end(p, rs[0]), rs.drop_first())
    }
}

/// The board rounds played from `p` end on.
pub open spec fn rounds_end(p: Seq<Seq<Card>>, rs: Seq<(Seq<Move>, Seq<Move>)>) -> Seq<Seq<Card>>
    decreases rs.len(),
{
    if rs.len() == 0 {
        p
    } else {
        rounds_end(round_end(p, rs[0]), rs.drop_first())
    }
}

/// A line as the solver searches them wins `p`: the collapses forced on
/// `p`, then rounds, ending on a won board.
pub open spec fn solver_line_wins(p: Seq<Seq<Card>>, pre: Seq<Move>, rs: Seq<(Seq<Move>, Seq<Move>)>) -> bool {
    &&& forced_collapses(p, pre)
    &&& rounds_ok(apply_seq(p, pre), rs)
    &&& spider_won(rounds_end(apply_seq(p, pre), rs))
}

/// Rounds played from `s` end on `q`.
pub open spec fn rounds_reach(s: Seq<Seq<Card>>, q: Seq<Seq<Card>>) -> bool {
    exists|rs: Seq<(Seq<Move>, Seq<Move>)>| rounds_ok(s, rs) && #[trigger] rounds_end(s, rs) == q
}

/// The search can reach `q` from `p`: after the collapses forced on `p`,
/// rounds end on `q`.
pub open spec fn search_reaches(p: Seq<Seq<Card>>, q: Seq<Seq<Card>>) -> bool {
    exists|pre: Seq<Move>| forced_collapses(p, pre) && #[trigger] rounds_reach(apply_seq(p, pre), q)
}

/// `t` holds pairs of a board the search can reach from `p` and a choice
/// the solver tries on it, no two of its boards sharing a fingerprint
/// under `mode` unless they are the same board.
pub open spec fn search_pairs(p: Seq<Seq<Card>>, mode: StreamlinerMode, t: Set<(Seq<Seq<Card>>, Seq<Move>)>) -> bool {
    &&& t.finite()
    &&& forall|x: (Seq<Seq<Card>>, Seq<Move>)| #[trigger] t.contains(x) ==> search_reaches(p, x.0) && solver_choice(x.0, x.1)
    &&& forall|x: (Seq<Seq<Card>>, Seq<Move>), y: (Seq<Seq<Card>>, Seq<Move>)|
        #![trigger t.contains(x), t.contains(y)]
        t.contains(x) && t.contains(y) && hash_state_spec(x.0, mode) == hash_state_spec(y.0, mode) ==> x.0 == y.0
}

/// Some line of at most `n` rounds from `q` ends on a won board.
pub open spec fn wins_within(q: Seq<Seq<Card>>, n: nat) -> bool {
    exists|rs: Seq<(Seq<Move>, Seq<Move>)>| rs.len() <= n && rounds_ok(q, rs) && spider_won(#[trigger] rounds_end(q, rs))
}

/// Boards the search can reach from `p` that share a fingerprint under
/// `mode` are equally near a win: for every `n`, both or neither win
/// within `n` rounds. (Distinct fingerprints for distinct boards is one
/// way for this to hold.)
pub open spec fn merged_boards_alike(p: Seq<Seq<Card>>, mode: StreamlinerMode) -> bool {
    forall|q1: Seq<Seq<Card>>, q2: Seq<Seq<Card>>, n: nat|
        #![trigger search_reaches(p, q1), search_reaches(p, q2), wins_within(q1, n)]
        search_reaches(p, q1) && search_reaches(p, q2) && hash_state_spec(q1, mode) == hash_state_spec(q2, mode)
            ==> wins_within(q1, n) == wins_within(q2, n)
}

/// Boards kept apart by their fingerprints are trivially alike.
pub proof fn law_distinct_fingerprints_alike(p: Seq<Seq<Card>>, mode: StreamlinerMode)
    requires
        fingerprints_distinct(p, mode),
    ensures
        merged_boards_alike(p, mode),
{
}

/// No two boards the search can reach from `p` share a fingerprint under
/// `mode`.
pub open spec fn fingerprints_distinct(p: Seq<Seq<Card>>, mode: StreamlinerMode) -> bool {
    forall|q1: Seq<Seq<Card>>, q2: Seq<Seq<Card>>|
        #![trigger search_reaches(p, q1), search_reaches(p, q2)]
        search_reaches(p, q1) && search_reaches(p, q2) && hash_state_spec(q1, mode) == hash_state_spec(q2, mode)
            ==> q1 == q2
}

/// Every round from `q` ends on a board whose fingerprint is in `vs`.
#[verifier::opaque]
spec fn closed_ok(q: Seq<Seq<Card>>, vs: Set<u64>, mode: StreamlinerMode) -> bool {
    forall|c: Seq<Move>, cs: Seq<Move>| solver_choice(q, c) && #[trigger] forced_collapses(apply_seq(q, c), cs)
        ==> vs.contains(hash_state_spec(round_end(q, (c, cs)), mode))
}

/// The collapses forced on a board are determined by it.
proof fn lemma_forced_unique(p: Seq<Seq<Card>>, a: Seq<Move>, b: Seq<Move>)
    requires
        forced_collapses(p, a),
        forced_collapses(p, b),
    ensures
        a == b,
    decreases a.len(),
{
    if a.len() > 0 {
        assert(b.len() > 0);
        lemma_forced_unique(apply_spec(p, a[0]), a.drop_first(), b.drop_first());
        assert(a =~= seq![a[0]] + a.drop_first());
        assert(b =~= seq![b[0]] + b.drop_first());
    } else {
        assert(b.len() == 0);
    }
}

/// One more round from a board reached by rounds.
proof fn lemma_reach_push(s: Seq<Seq<Card>>, q: Seq<Seq<Card>>, r: (Seq<Move>, Seq<Move>))
    requires
        rounds_reach(s, q),
        round_ok(q, r),
    ensures
        rounds_reach(s, round_end(q, r)),
{
    let rs = choose|rs: Seq<(Seq<Move>, Seq<Move>)>| rounds_ok(s, rs) && #[trigger] rounds_end(s, rs) == q;
    lemma_rounds_push(s, rs, r);
    assert(rounds_end(s, rs.push(r)) == round_end(q, r));
}

proof fn lemma_rounds_push(p: Seq<Seq<Card>>, rs: Seq<(Seq<Move>, Seq<Move>)>, r: (Seq<Move>, Seq<Move>))
    requires
        rounds_ok(p, rs),
        round_ok(rounds_end(p, rs), r),
    ensures
        rounds_ok(p, rs.push(r)),
        rounds_end(p, rs.push(r)) == round_end(rounds_end(p, rs), r),
    decreases rs.len(),
{
    if rs.len() == 0 {
        let e = Seq::<(Seq<Move>, Seq<Move>)>::empty();
        assert(rs.push(r)[0] == r);
        assert(rs.push(r).drop_first() =~= e);
        assert(rounds_ok(round_end(p, r), e));
        assert(rounds_end(round_end(p, r), e) == round_end(p, r));
        assert(rounds_end(p, rs) == p);
    } else {
        assert(rs.push(r)[0] == rs[0]);
        assert(rs.push(r).drop_first() =~= rs.drop_first().push(r));
        lemma_rounds_push(round_end(p, rs[0]), rs.drop_first(), r);
    }
}

/// A choice of legal, reversible moves is a legal line.
proof fn lemma_choice_path(p: Seq<Seq<Card>>, c: Seq<Move>)
    requires
        choice_ok(p, c),
    ensures
        spider_path_ok(p, c),
    decreases c.len(),
{
    if c.len() > 0 {
        lemma_choice_path(apply_spec(p, c[0]), c.drop_first());
    }
}

/// The generator lists every choice the solver tries.
proof fn lemma_choices_cover(p: Seq<Seq<Card>>, out: Seq<Seq<Move>>)
    requires
        ordered_choices(p, out),
    ensures
        forall|c: Seq<Move>| #![trigger solver_choice(p, c)] solver_choice(p, c) ==> exists|k: int| 0 <= k < out.len() && out[k] == c,
{
    assert forall|c: Seq<Move>| #![trigger solver_choice(p, c)] solver_choice(p, c) implies exists|k: int| 0 <= k < out.len() && out[k] == c by {
        if c.len() == 1 && spider_candidate(p, c[0]) {
            assert(c =~= seq![c[0]]);
            let i = choose|i: int| 0 <= i < out.len() - (if p[STOCK as int].len() >= N_CASCADES { 1int } else { 0int })
                && #[trigger] out[i] == seq![c[0]];
            assert(out[i] == c);
        } else {
            assert(out[out.len() - 1] == c);
        }
    }
}

/// The Vec form of the generator's list covers every choice.
proof fn lemma_vec_choices_cover(p: Seq<Seq<Card>>, v: Seq<Vec<Move>>)
    requires
        ordered_choices(p, v.map_values(|x: Vec<Move>| x@)),
    ensures
        forall|c: Seq<Move>| #![trigger solver_choice(p, c)] solver_choice(p, c) ==> exists|k: int| 0 <= k < v.len() && (#[trigger] v[k])@ == c,
{
    let out = v.map_values(|x: Vec<Move>| x@);
    lemma_choices_cover(p, out);
    assert forall|c: Seq<Move>| #![trigger solver_choice(p, c)] solver_choice(p, c) implies exists|k: int| 0 <= k < v.len() && (#[trigger] v[k])@ == c by {
        let k = choose|k: int| 0 <= k < out.len() && out[k] == c;
        assert(v[k]@ == out[k]);
    }
}

/// Each choice the generator lists is one the solver tries.
proof fn lemma_listed_choices(p: Seq<Seq<Card>>, out: Seq<Seq<Move>>)
    requires
        ordered_choices(p, out),
    ensures
        forall|i: int| 0 <= i < out.len() ==> solver_choice(p, #[trigger] out[i]),
{
}

/// No foundation is empty at or after `f`.
proof fn lemma_full_no_empty(p: Seq<Seq<Card>>, f: int)
    requires
        spider_won(p),
        FOUND_FIRST <= f,
    ensures
        first_empty_foundation(p, f) is None,
    decreases FOUND_LAST + 1 - f,
{
    if f <= FOUND_LAST {
        lemma_full_no_empty(p, f + 1);
    }
}

/// No cascade at or after `c` collapses on a won board.
proof fn lemma_won_no_collapse_from(p: Seq<Seq<Card>>, c: int)
    requires
        spider_won(p),
    ensures
        spider_auto_from(p, c) is None,
    decreases CASCADE_LAST + 1 - c,
{
    lemma_full_no_empty(p, FOUND_FIRST as int);
    if CASCADE_FIRST <= c <= CASCADE_LAST {
        lemma_won_no_collapse_from(p, c + 1);
    }
}

/// A won board has nothing to collapse.
proof fn lemma_won_no_collapse(p: Seq<Seq<Card>>)
    requires
        spider_won(p),
    ensures
        spider_auto_from(p, CASCADE_FIRST as int) is None,
{
    lemma_won_no_collapse_from(p, CASCADE_FIRST as int);
}

struct Frame {
    /// Moves applied to reach this frame's board from its parent's.
    applied: Vec<Move>,
    choices: Vec<Vec<Move>>,
    next_idx: usize,
    /// This frame's board.
    at: Ghost<Seq<Seq<Card>>>,
    /// Moves from the search's starting board to this frame's board.
    path: Ghost<Seq<Move>>,
    /// The rounds from the board after the opening collapses to this one.
    rounds: Ghost<Seq<(Seq<Move>, Seq<Move>)>>,
}

spec fn frame_ok(root: Seq<Seq<Card>>, start: Seq<Seq<Card>>, f: Frame) -> bool {
    &&& f.at@.len() == 19
    &&& spider_path_ok(root, f.path@)
    &&& apply_seq(root, f.path@) == f.at@
    &&& rounds_ok(start, f.rounds@)
    &&& rounds_end(start, f.rounds@) == f.at@
    &&& forall|k: int| 0 <= k < f.choices@.len() ==> choice_ok(f.at@, (#[trigger] f.choices@[k])@)
    &&& forall|k: int| 0 <= k < f.choices@.len() ==> solver_choice(f.at@, (#[trigger] f.choices@[k])@)
    &&& choices_cover(f.at@, f.choices@)
    &&& choices_distinct(f.choices@)
}

/// No choice is listed twice.
#[verifier::opaque]
spec fn choices_distinct(c: Seq<Vec<Move>>) -> bool {
    forall|a: int, b: int| 0 <= a < b < c.len() ==> (#[trigger] c[a])@ != (#[trigger] c[b])@
}

/// Every choice the solver tries on `p` is listed in `choices`.
#[verifier::opaque]
spec fn choices_cover(p: Seq<Seq<Card>>, choices: Seq<Vec<Move>>) -> bool {
    forall|c: Seq<Move>| #![trigger solver_choice(p, c)] solver_choice(p, c) ==> exists|k: int|
        0 <= k < choices.len() && (#[trigger] choices[k])@ == c
}

/// Every child of the choices `f` has tried has its fingerprint in `vs`.
#[verifier::opaque]
spec fn frame_seen(f: Frame, vs: Set<u64>, mode: StreamlinerMode) -> bool {
    forall|k: int, cs: Seq<Move>|
        0 <= k < f.next_idx && k < f.choices@.len() && #[trigger] forced_collapses(apply_seq(f.at@, f.choices@[k]@), cs)
            ==> vs.contains(hash_state_spec(round_end(f.at@, (f.choices@[k]@, cs)), mode))
}

/// What the search knows of the boards it has seen (`vis`, with their
/// fingerprints `vs`) and of those it has finished (`closed`): each seen
/// board is reachable, not won, and finished or on the stack; a finished
/// board has every child's fingerprint in `vs`.
spec fn search_ok(
    start: Seq<Seq<Card>>,
    mode: StreamlinerMode,
    vis: Set<Seq<Seq<Card>>>,
    closed: Set<Seq<Seq<Card>>>,
    vs: Set<u64>,
    stack: Seq<Frame>,
) -> bool {
    &&& forall|q: Seq<Seq<Card>>| #[trigger] vis.contains(q) ==> vs.contains(hash_state_spec(q, mode))
    &&& forall|h: u64| #[trigger] vs.contains(h) ==> exists|q: Seq<Seq<Card>>| vis.contains(q) && hash_state_spec(q, mode) == h
    &&& forall|q: Seq<Seq<Card>>| #[trigger] vis.contains(q) ==> {
        &&& rounds_reach(start, q)
        &&& !spider_won(q)
        &&& closed.contains(q) || exists|i: int| 0 <= i < stack.len() && (#[trigger] stack[i]).at@ == q
    }
    &&& forall|q: Seq<Seq<Card>>| #[trigger] closed.contains(q) ==> vis.contains(q) && closed_ok(q, vs, mode)
    &&& forall|i: int| 0 <= i < stack.len() ==> vis.contains((#[trigger] stack[i]).at@) && frame_seen(stack[i], vs, mode)
}

proof fn lemma_search_close(
    start: Seq<Seq<Card>>,
    mode: StreamlinerMode,
    vis: Set<Seq<Seq<Card>>>,
    closed: Set<Seq<Seq<Card>>>,
    vs: Set<u64>,
    stack: Seq<Frame>,
    root: Seq<Seq<Card>>,
)
    requires
        search_ok(start, mode, vis, closed, vs, stack),
        stack.len() > 0,
        frame_ok(root, start, stack.last()),
        stack.last().next_idx >= stack.last().choices@.len(),
    ensures
        search_ok(start, mode, vis, closed.insert(stack.last().at@), vs, stack.drop_last()),
{
    let f = stack.last();
    let n = stack.len();
    assert(vis.contains(stack[n - 1].at@) && frame_seen(stack[n - 1], vs, mode));
    assert(closed_ok(f.at@, vs, mode)) by {
        reveal(closed_ok);
        reveal(frame_seen);
        reveal(choices_cover);
        assert forall|c: Seq<Move>, cs: Seq<Move>| solver_choice(f.at@, c) && #[trigger] forced_collapses(apply_seq(f.at@, c), cs)
            implies vs.contains(hash_state_spec(round_end(f.at@, (c, cs)), mode)) by {
            let k = choose|k: int| 0 <= k < f.choices@.len() && (#[trigger] f.choices@[k])@ == c;
            assert(forced_collapses(apply_seq(f.at@, f.choices@[k]@), cs));
        }
    }
    let c2 = closed.insert(f.at@);
    let st = stack.drop_last();
    assert forall|q: Seq<Seq<Card>>| #[trigger] vis.contains(q) implies {
        &&& rounds_reach(start, q)
        &&& !spider_won(q)
        &&& c2.contains(q) || exists|i: int| 0 <= i < st.len() && (#[trigger] st[i]).at@ == q
    } by {
        if !closed.contains(q) {
            let i = choose|i: int| 0 <= i < stack.len() && (#[trigger] stack[i]).at@ == q;
            if i < n - 1 {
                assert(st[i] == stack[i]);
            }
        }
    }
    assert forall|i: int| 0 <= i < st.len() implies vis.contains((#[trigger] st[i]).at@) && frame_seen(st[i], vs, mode) by {
        assert(st[i] == stack[i]);
    }
}

/// The generator's choices as the search uses them: each legal and
/// reversible, each one the solver tries, every such choice listed, and
/// none on a board with no candidate and too small a stock.
fn search_choices(piles: &PileSet) -> (out: Vec<Vec<Move>>)
    requires
        piles@.len() == 19,
    ensures
        forall|k: int| 0 <= k < out@.len() ==> choice_ok(piles@, (#[trigger] out@[k])@),
        forall|k: int| 0 <= k < out@.len() ==> solver_choice(piles@, (#[trigger] out@[k])@),
        choices_cover(piles@, out@),
        choices_distinct(out@),
        (forall|m: Move| !#[trigger] spider_candidate(piles@, m)) && piles@[STOCK as int].len() < N_CASCADES ==> out@.len()
            == 0,
{
    let out = generate_choices(piles);
    proof {
        let mapped = out@.map_values(|v: Vec<Move>| v@);
        lemma_vec_choices_cover(piles@, out@);
        reveal(choices_cover);
        lemma_listed_choices(piles@, mapped);
        assert forall|k: int| 0 <= k < out@.len() implies solver_choice(piles@, (#[trigger] out@[k])@) by {
            assert(mapped[k] == out@[k]@);
        }
        if (forall|m: Move| !#[trigger] spider_candidate(piles@, m)) && piles@[STOCK as int].len() < N_CASCADES
            && out@.len() > 0 {
            assert(spider_candidate(piles@, mapped[0][0]));
        }
        reveal(choices_distinct);
        let p = piles@;
        let kk = mapped.len() - (if p[STOCK as int].len() >= N_CASCADES { 1int } else { 0int });
        assert forall|a: int, b: int| 0 <= a < b < out@.len() implies (#[trigger] out@[a])@ != (#[trigger] out@[b])@ by {
            assert(mapped[a] == out@[a]@);
            assert(mapped[b] == out@[b]@);
            if b < kk {
                let ma = mapped[a][0];
                let mb = mapped[b][0];
                if spider_score(p, ma) == spider_score(p, mb) {
                    assert(key_lt(spider_scan_key(p, ma), spider_scan_key(p, mb)));
                }
                assert(ma != mb);
            } else {
                assert(mapped[b] == deal_moves(0));
                assert(mapped[b].len() == 10);
            }
        }
    }
    out
}

spec fn frames_linked(parent: Frame, child: Frame) -> bool {
    &&& reversible_seq(parent.at@, child.applied@)
    &&& apply_seq(parent.at@, child.applied@) == child.at@
}

/// `solve_with` under `Strict`.
pub fn solve(piles: &PileSet, budget: SolverBudget) -> (r: SolveResult)
    requires
        piles@.len() == 19,
    ensures
        r == SolveResult::Won ==> exists|path: Seq<Move>| spider_path_ok(piles@, path)
            && spider_won(#[trigger] apply_seq(piles@, path)),
        r == SolveResult::Won ==> exists|pre: Seq<Move>, rs: Seq<(Seq<Move>, Seq<Move>)>|
            #[trigger] solver_line_wins(piles@, pre, rs),
        budget.deadline is None && r == SolveResult::Timeout ==> exists|t: Set<(Seq<Seq<Card>>, Seq<Move>)>|
            #[trigger] search_pairs(piles@, StreamlinerMode::Strict, t) && t.len() > budget.max_nodes,
        r == SolveResult::Exhausted && merged_boards_alike(piles@, StreamlinerMode::Strict) ==> forall|
            pre: Seq<Move>,
            rs: Seq<(Seq<Move>, Seq<Move>)>,
        | !#[trigger] solver_line_wins(piles@, pre, rs),
        spider_won(piles@) ==> r == SolveResult::Won,
        spider_locked(piles@) ==> r == SolveResult::Exhausted,
{
    solve_with(piles, budget, StreamlinerMode::Strict)
}

/// Spend a tenth of the budget under `streamliner` looking for a quick
/// win, then search strictly with the whole budget: only a win from the
/// first pass is kept, so `Exhausted` comes from the strict pass alone.
pub fn smart_solve(piles: &PileSet, budget: SolverBudget, streamliner: StreamlinerMode) -> (r: SolveResult)
    requires
        piles@.len() == 19,
    ensures
        r == SolveResult::Won ==> exists|path: Seq<Move>| spider_path_ok(piles@, path)
            && spider_won(#[trigger] apply_seq(piles@, path)),
        r == SolveResult::Won ==> exists|pre: Seq<Move>, rs: Seq<(Seq<Move>, Seq<Move>)>|
            #[trigger] solver_line_wins(piles@, pre, rs),
        budget.deadline is None && r == SolveResult::Timeout ==> exists|t: Set<(Seq<Seq<Card>>, Seq<Move>)>|
            #[trigger] search_pairs(piles@, StreamlinerMode::Strict, t) && t.len() > budget.max_nodes,
        r == SolveResult::Exhausted && merged_boards_alike(piles@, StreamlinerMode::Strict) ==> forall|
            pre: Seq<Move>,
            rs: Seq<(Seq<Move>, Seq<Move>)>,
        | !#[trigger] solver_line_wins(piles@, pre, rs),
        spider_won(piles@) ==> r == SolveResult::Won,
        spider_locked(piles@) ==> r == SolveResult::Exhausted,
{
    let now = instant_now();
    let pre_deadline = match budget.deadline {
        None => None,
        Some(d) => {
            let total = instant_saturating_since(d, now);
            let pre = duration_div(total, 10);
            instant_checked_add(now, pre)
        },
    };
    let pre_budget = SolverBudget { deadline: pre_deadline, max_nodes: budget.max_nodes / 10 };
    let first = solve_with(piles, pre_budget, streamliner);
    match first {
        SolveResult::Won => {
            return SolveResult::Won;
        },
        _ => {},
    }
    solve_with(piles, budget, StreamlinerMode::Strict)
}

/// Search for a win from `piles` under `mode`, round by round: a
/// candidate move or a whole ten-card deal, then the collapses it forces.
/// `Won` means such a line wins; `Exhausted` means none does, unless two
/// reachable boards share a fingerprint under `mode`; a won board is `Won`
/// and a board with nothing left to do `Exhausted`, whatever the budget.
pub fn solve_with(piles: &PileSet, budget: SolverBudget, mode: StreamlinerMode) -> (r: SolveResult)
    requires
        piles@.len() == 19,
    ensures
        r == SolveResult::Won ==> exists|path: Seq<Move>| spider_path_ok(piles@, path)
            && spider_won(#[trigger] apply_seq(piles@, path)),
        r == SolveResult::Won ==> exists|pre: Seq<Move>, rs: Seq<(Seq<Move>, Seq<Move>)>|
            #[trigger] solver_line_wins(piles@, pre, rs),
        budget.deadline is None && r == SolveResult::Timeout ==> exists|t: Set<(Seq<Seq<Card>>, Seq<Move>)>|
            #[trigger] search_pairs(piles@, mode, t) && t.len() > budget.max_nodes,
        r == SolveResult::Exhausted && merged_boards_alike(piles@, mode) ==> forall|pre: Seq<Move>, rs: Seq<(Seq<Move>, Seq<Move>)>|
            !#[trigger] solver_line_wins(piles@, pre, rs),
        spider_won(piles@) ==> r == SolveResult::Won,
        spider_locked(piles@) ==> r == SolveResult::Exhausted,
{
    broadcast use vstd::std_specs::hash::group_hash_axioms;

    let ghost root = piles@;
    let mut state = piles.duplicate();
    let mut pre: Vec<Move> = Vec::new();
    let ghost mut path: Seq<Move> = Seq::empty();
    proof {
        assert(apply_seq(root, path) == root);
    }
    let mut cs = collapse_step(&state);
    proof {
        if spider_won(root) {
            lemma_won_no_collapse(root);
        }
    }
    while cs.is_some()
        invariant
            state@.len() == 19,
            cs == spider_auto_from(state@, CASCADE_FIRST as int),
            reversible_seq(root, pre@),
            apply_seq(root, pre@) == state@,
            spider_path_ok(root, path),
            apply_seq(root, path) == state@,
            spider_won(root) ==> state@ == root,
            spider_locked(root) ==> state@ == root,
            collapses_so_far(root, pre@),
        decreases count_empty(state@, 0, 8, -1),
    {
        let am = cs.unwrap();
        proof {
            lemma_collapse_ok(state@);
            if spider_won(root) {
                lemma_won_no_collapse(root);
            }
            lemma_collapses_push(root, pre@, am);
        }
        let ghost before = state@;
        let Ghost(np) = play(&mut state, am, &mut pre, Ghost(root), Ghost(root), Ghost(path));
        proof {
            path = np;
        }
        cs = collapse_step(&state);
    }
    proof {
        lemma_collapses_close(root, pre@);
    }
    let ghost start = state@;
    let ghost no_rounds = Seq::<(Seq<Move>, Seq<Move>)>::empty();
    if board_won(&state) {
        proof {
            assert(solver_line_wins(root, pre@, no_rounds));
        }
        return SolveResult::Won;
    }
    let mut visited: HashSet<u64> = HashSet::new();
    visited.insert(hash_state(&state, mode));
    let ghost mut vis: Set<Seq<Seq<Card>>> = Set::empty().insert(start);
    let ghost mut closed: Set<Seq<Seq<Card>>> = Set::empty();
    let ghost mut tried: Set<(Seq<Seq<Card>>, Seq<Move>)> = Set::empty();
    let mut stack: Vec<Frame> = Vec::new();
    let first_choices = search_choices(&state);
    stack.push(
        Frame {
            applied: Vec::new(),
            choices: first_choices,
            next_idx: 0,
            at: Ghost(state@),
            path: Ghost(path),
            rounds: Ghost(no_rounds),
        },
    );
    proof {
        let f = stack@[0];
        assert(f.choices@ == first_choices@);
        assert(frame_ok(root, start, f));
        assert(rounds_ok(start, no_rounds) && rounds_end(start, no_rounds) == start);
        assert(rounds_reach(start, start));
        assert(frame_seen(f, visited@, mode)) by {
            reveal(frame_seen);
        }
        assert forall|h: u64| #[trigger] visited@.contains(h) implies exists|q: Seq<Seq<Card>>| vis.contains(q) && hash_state_spec(q, mode) == h by {
            assert(vis.contains(start));
        }
        assert(stack@[0].at@ == start);
        assert(search_ok(start, mode, vis, closed, visited@, stack@));
        assert(tried_ok(tried, vis, stack@, mode));
    }
    let mut nodes: u64 = 0;
    while stack.len() > 0
        invariant
            root == piles@,
            !spider_won(root),
            nodes <= budget.max_nodes,
            state@.len() == 19,
            apply_seq(root, pre@) == start,
            forced_collapses(root, pre@),
            forall|i: int| 0 <= i < stack@.len() ==> frame_ok(root, start, #[trigger] stack@[i]),
            search_ok(start, mode, vis, closed, visited@, stack@),
            tried_ok(tried, vis, stack@, mode),
            nodes == tried.len(),
            forced_collapses(root, pre@),
            vis.contains(start),
            spider_locked(root) ==> stack@.len() <= 1 && (stack@.len() == 1 ==> stack@[0].choices@.len() == 0),
            forall|i: int| 0 < i < stack@.len() ==> frames_linked(stack@[i - 1], #[trigger] stack@[i]),
            stack@.len() > 0 ==> stack@[0].applied@.len() == 0,
            stack@.len() > 0 ==> state@ == stack@[stack@.len() - 1].at@,
        decreases budget.max_nodes - nodes, stack@.len(),
    {
        let ghost old_stack = stack@;
        let mut frame = stack.pop().unwrap();
        assert(frame == old_stack[old_stack.len() - 1]);
        assert(frame_ok(root, start, frame));
        assert(stack@ =~= old_stack.drop_last());
        if frame.next_idx >= frame.choices.len() {
            let ghost base = if stack@.len() > 0 { stack@[stack@.len() - 1].at@ } else { frame.at@ };
            proof {
                if stack@.len() > 0 {
                    assert(frames_linked(old_stack[old_stack.len() - 2], old_stack[old_stack.len() - 1]));
                } else {
                    assert(frame.applied@.len() == 0);
                    assert(frame.applied@ =~= Seq::<Move>::empty());
                }
            }
            proof {
                lemma_search_close(start, mode, vis, closed, visited@, old_stack, root);
                lemma_tried_pop(tried, vis, old_stack, mode);
                closed = closed.insert(frame.at@);
            }
            revert_all(&mut state, &frame.applied, Ghost(base));
            continue;
        }
        let ghost pair = (frame.at@, frame.choices@[frame.next_idx as int]@);
        proof {
            lemma_tried_fresh(tried, vis, old_stack, mode);
            assert(vis.contains(old_stack[old_stack.len() - 1].at@));
        }
        if nodes >= budget.max_nodes {
            proof {
                lemma_pairs_reached(root, pre@, start, mode, vis, closed, visited@, old_stack, tried, pair);
                assert(search_pairs(root, mode, tried.insert(pair)));
            }
            return SolveResult::Timeout;
        }
        nodes = nodes + 1;
        if nodes & 4095 == 0 && deadline_passed(budget.deadline) {
            return SolveResult::Timeout;
        }
        let choice = copy_moves(&frame.choices[frame.next_idx]);
        assert(choice_ok(frame.at@, choice@));
        assert(solver_choice(frame.at@, choice@));
        let ghost f0 = frame;
        frame.next_idx = frame.next_idx + 1;
        proof {
            lemma_tried_step(tried, vis, old_stack, mode, frame);
            tried = tried.insert(pair);
        }
        let ghost base = frame.at@;
        let mut applied: Vec<Move> = Vec::new();
        let ghost mut cpath = frame.path@;
        let cn = choice.len();
        proof {
            assert(apply_seq(base, applied@) == base);
            assert(state@ == base);
            assert(choice@.subrange(0, cn as int) =~= choice@);
        }
        let mut k: usize = 0;
        while k < cn
            invariant
                cn == choice@.len(),
                k <= cn,
                state@.len() == 19,
                choice_ok(state@, choice@.subrange(k as int, cn as int)),
                applied@ == choice@.subrange(0, k as int),
                reversible_seq(base, applied@),
                apply_seq(base, applied@) == state@,
                spider_path_ok(root, cpath),
                apply_seq(root, cpath) == state@,
            decreases cn - k,
        {
            let m = choice[k];
            proof {
                let rest = choice@.subrange(k as int, cn as int);
                assert(rest[0] == m);
                assert(rest.drop_first() =~= choice@.subrange(k + 1, cn as int));
            }
            let Ghost(np) = play(&mut state, m, &mut applied, Ghost(base), Ghost(root), Ghost(cpath));
            proof {
                cpath = np;
                assert(applied@ =~= choice@.subrange(0, k + 1));
            }
            k = k + 1;
        }
        proof {
            assert(applied@ =~= choice@);
        }
        let ghost after_choice = state@;
        assert(after_choice == apply_seq(base, choice@));
        let ghost mut cseq = Seq::<Move>::empty();
        let mut cs = collapse_step(&state);
        while cs.is_some()
            invariant
                state@.len() == 19,
                cs == spider_auto_from(state@, CASCADE_FIRST as int),
                reversible_seq(base, applied@),
                apply_seq(base, applied@) == state@,
                spider_path_ok(root, cpath),
                apply_seq(root, cpath) == state@,
                collapses_so_far(after_choice, cseq),
                apply_seq(after_choice, cseq) == state@,
            decreases count_empty(state@, 0, 8, -1),
        {
            let am = cs.unwrap();
            proof {
                lemma_collapse_ok(state@);
                lemma_collapses_push(after_choice, cseq, am);
            }
            let Ghost(np) = play(&mut state, am, &mut applied, Ghost(base), Ghost(root), Ghost(cpath));
            proof {
                cpath = np;
                cseq = cseq.push(am);
            }
            cs = collapse_step(&state);
        }
        let ghost round = (choice@, cseq);
        let ghost child_rounds = frame.rounds@.push(round);
        proof {
            lemma_collapses_close(after_choice, cseq);
            lemma_choice_path(base, choice@);
            assert(round_ok(base, round));
            lemma_rounds_push(start, frame.rounds@, round);
        }
        if board_won(&state) {
            proof {
                assert(solver_line_wins(root, pre@, child_rounds));
            }
            return SolveResult::Won;
        }
        let ghost child_board = state@;
        let ch = hash_state(&state, mode);
        let ghost vs0 = visited@;
        proof {
            assert(choice@ == f0.choices@[f0.next_idx as int]@);
            assert(round_end(f0.at@, (f0.choices@[f0.next_idx as int]@, cseq)) == child_board);
            assert(rounds_ok(start, child_rounds) && rounds_end(start, child_rounds) == child_board);
            assert(rounds_reach(start, child_board));
        }
        if !visited.insert(ch) {
            proof {
                assert(visited@ =~= vs0);
                lemma_frame_step(f0, frame, vs0, mode, cseq);
                lemma_search_seen(start, mode, vis, closed, vs0, old_stack, frame);
            }
            revert_all(&mut state, &applied, Ghost(base));
            stack.push(frame);
            proof {
                assert(stack@ =~= old_stack.drop_last().push(frame));
                assert forall|i: int| 0 < i < stack@.len() implies frames_linked(stack@[i - 1], #[trigger] stack@[i]) by {
                    assert(stack@[i] == (if i < old_stack.len() - 1 { old_stack[i] } else { frame }));
                    assert(stack@[i - 1] == old_stack[i - 1]);
                    if i == old_stack.len() - 1 {
                        assert(frames_linked(old_stack[i - 1], old_stack[i]));
                    }
                }
            }
            continue;
        }
        proof {
            lemma_seen_grow(f0, vs0, visited@, mode);
            lemma_frame_step(f0, frame, visited@, mode, cseq);
        }
        let child_choices = search_choices(&state);
        let ghost child_at = state@;
        stack.push(frame);
        proof {
            assert forall|i: int| 0 < i < stack@.len() implies frames_linked(stack@[i - 1], #[trigger] stack@[i]) by {
                assert(stack@[i - 1] == old_stack[i - 1]);
                if i == old_stack.len() - 1 {
                    assert(frames_linked(old_stack[i - 1], old_stack[i]));
                }
            }
        }
        let child = Frame {
            applied,
            choices: child_choices,
            next_idx: 0,
            at: Ghost(child_at),
            path: Ghost(cpath),
            rounds: Ghost(child_rounds),
        };
        proof {
            assert(frame_ok(root, start, child));
        }
        let ghost mid_stack = stack@;
        stack.push(child);
        proof {
            assert(stack@ =~= mid_stack.push(child));
            assert(frames_linked(frame, child));
            assert forall|i: int| 0 < i < stack@.len() implies frames_linked(stack@[i - 1], #[trigger] stack@[i]) by {
                if i < mid_stack.len() {
                    assert(stack@[i] == mid_stack[i]);
                    assert(stack@[i - 1] == mid_stack[i - 1]);
                }
            }
            assert(mid_stack =~= old_stack.drop_last().push(frame));
            lemma_search_new(start, mode, vis, closed, vs0, old_stack, frame, child, child_board);
            assert forall|q: Seq<Seq<Card>>| #[trigger] vis.contains(q) implies hash_state_spec(q, mode) != hash_state_spec(
                child.at@,
                mode,
            ) by {
                assert(vs0.contains(hash_state_spec(q, mode)));
            }
            lemma_tried_new(tried, vis, mid_stack, mode, child);
            vis = vis.insert(child_board);
        }
    }
    proof {
        if merged_boards_alike(root, mode) {
            assert forall|q1: Seq<Seq<Card>>, q2: Seq<Seq<Card>>, k: nat|
                #![trigger rounds_reach(start, q1), rounds_reach(start, q2), wins_within(q1, k)]
                rounds_reach(start, q1) && rounds_reach(start, q2) && hash_state_spec(q1, mode) == hash_state_spec(q2, mode)
                    implies wins_within(q1, k) == wins_within(q2, k) by {
                assert(rounds_reach(apply_seq(root, pre@), q1));
                assert(rounds_reach(apply_seq(root, pre@), q2));
                assert(search_reaches(root, q1));
                assert(search_reaches(root, q2));
            }
            assert(stack@ =~= Seq::<Frame>::empty());
            assert forall|pre2: Seq<Move>, rs: Seq<(Seq<Move>, Seq<Move>)>| !#[trigger] solver_line_wins(root, pre2, rs) by {
                if solver_line_wins(root, pre2, rs) {
                    lemma_forced_unique(root, pre2, pre@);
                    lemma_search_no_win(start, mode, vis, closed, visited@, rs.len());
                    assert(wins_within(start, rs.len()));
                }
            }
        }
    }
    SolveResult::Exhausted
}

} // verus!
