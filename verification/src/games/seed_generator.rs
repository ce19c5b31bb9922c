//! The decisions of the winnable-seed sweep: the status block a sweep
//! reports through, how each step of the sweep is decided, how an outcome
//! is recorded, where a sweep resumes, and the per-seed solve.
//!
//! The worker threads, the status singletons and the seed files belong to
//! the application, which runs the loop: it asks `next_step`, solves the
//! seed with `solve_seed`, appends a winner to its file, and reports the
//! outcome with `record_outcome`.

use vstd::prelude::*;

use std::collections::HashSet;
use std::collections::VecDeque;
use std::time::Duration;

use super::klondike::{add_piles, klondike_deal_spec, klondike_won, Klondike};
use super::klondike_solver;
use super::spider::{spider_deal_spec, spider_game_suits, spider_won, Spider};
use super::spider_solver;
use super::sweep_text::{
    complete_line, complete_text, outcome_line, outcome_text, resuming_line, resuming_text, starting_line,
    starting_text, stopped_line, stopped_text,
};
use super::winnable_seeds::{decode_seeds, decode_spec};
use crate::cards::card::Card;
use crate::cards::deck::{multi_deck_card, standard_deck_spec};
use crate::cards::suit::Suit;
use crate::session::{apply_seq, GameSession};
use crate::session::moves::Move;

verus! {

/// Winnable seeds a sweep collects per variant before it stops.
pub const TARGET_SEED_COUNT: u64 = 8_000;

/// Lines the rolling log keeps; older ones drop off the front.
pub const LOG_CAPACITY: usize = 200;

pub const SPIDER_PER_SEED_SECS: u64 = 120;
pub const SPIDER_PER_SEED_MAX_NODES: u64 = 50_000_000;
pub const KLONDIKE_PER_SEED_SECS: u64 = 30;
pub const KLONDIKE_PER_SEED_MAX_NODES: u64 = 10_000_000;

/// `log` with `line` appended, the oldest line dropped when the log is
/// already full.
pub open spec fn log_pushed(log: Seq<String>, line: String) -> Seq<String> {
    (if log.len() >= LOG_CAPACITY {
        log.drop_first()
    } else {
        log
    }).push(line)
}

/// `after` is `before` with a line reading `text` logged.
pub open spec fn logged_text(before: Seq<String>, after: Seq<String>, text: Seq<char>) -> bool {
    exists|line: String| line@ == text && after == #[trigger] log_pushed(before, line)
}

/// Rolling log of recent sweep events, capped at `LOG_CAPACITY` lines.
pub struct VecDequeWrapper(pub VecDeque<String>);

impl VecDequeWrapper {
    pub fn new() -> (w: VecDequeWrapper)
        ensures
            w.0@.len() == 0,
    {
        VecDequeWrapper(VecDeque::new())
    }

    /// Append `line`, dropping the oldest line when the log is full.
    pub fn push(&mut self, line: String)
        ensures
            final(self).0@ == log_pushed(old(self).0@, line),
    {
        if self.0.len() >= LOG_CAPACITY {
            let _ = self.0.pop_front();
        }
        self.0.push_back(line);
    }

    /// The lines, oldest first.
    pub fn iter(&self) -> (r: Vec<String>)
        ensures
            r@.len() == self.0@.len(),
            forall|i: int| 0 <= i < r@.len() ==> (#[trigger] r@[i])@ == self.0@[i]@,
    {
        let mut r: Vec<String> = Vec::new();
        let n = self.0.len();
        let mut i: usize = 0;
        while i < n
            invariant
                n == self.0@.len(),
                i <= n,
                r@.len() == i,
                forall|j: int| 0 <= j < i ==> (#[trigger] r@[j])@ == self.0@[j]@,
            decreases n - i,
        {
            r.push(self.0[i].clone());
            i = i + 1;
        }
        r
    }

    pub fn len(&self) -> (n: usize)
        ensures
            n == self.0@.len(),
    {
        self.0.len()
    }

    pub fn is_empty(&self) -> (b: bool)
        ensures
            b == (self.0@.len() == 0),
    {
        self.0.len() == 0
    }
}

impl Default for VecDequeWrapper {
    fn default() -> (w: VecDequeWrapper)
        ensures
            w.0@.len() == 0,
    {
        VecDequeWrapper::new()
    }
}

/// Progress of one variant's sweep.
pub struct SeedGenStatus {
    pub running: bool,
    pub finished: bool,
    pub current_seed: u64,
    pub won: u64,
    pub lost: u64,
    pub timed_out: u64,
    pub target: u64,
    /// Recent events, oldest first.
    pub log: VecDequeWrapper,
}

impl Default for SeedGenStatus {
    fn default() -> (s: SeedGenStatus)
        ensures
            !s.running && !s.finished,
            s.current_seed == 0 && s.won == 0 && s.lost == 0 && s.timed_out == 0 && s.target == 0,
            s.log.0@.len() == 0,
    {
        SeedGenStatus {
            running: false,
            finished: false,
            current_seed: 0,
            won: 0,
            lost: 0,
            timed_out: 0,
            target: 0,
            log: VecDequeWrapper::new(),
        }
    }
}

/// The variant a sweep runs.
#[derive(Clone, Copy, Debug, PartialEq, Eq, Structural)]
pub enum Variant {
    Spider,
    Klondike,
}

impl Variant {
    pub fn label(self) -> (s: &'static str)
        ensures
            self == Variant::Spider ==> s@ == "spider"@,
            self == Variant::Klondike ==> s@ == "klondike"@,
    {
        match self {
            Variant::Spider => "spider",
            Variant::Klondike => "klondike",
        }
    }

    /// The file of the variant's winnable seeds.
    pub fn file_name(self) -> (s: &'static str)
        ensures
            self == Variant::Spider ==> s@ == "spider_winnable_seeds.bin"@,
            self == Variant::Klondike ==> s@ == "klondike_winnable_seeds.bin"@,
    {
        match self {
            Variant::Spider => "spider_winnable_seeds.bin",
            Variant::Klondike => "klondike_winnable_seeds.bin",
        }
    }
}

/// The verdict on one seed.
#[derive(Clone, Copy, Debug, PartialEq, Eq, Structural)]
pub enum SolveOutcome {
    Won,
    Exhausted,
    Timeout,
}

/// What the sweep does next.
#[derive(Clone, Copy, Debug, PartialEq, Eq, Structural)]
pub enum SweepStep {
    /// The sweep was stopped from outside.
    Stop,
    /// The target count of winners is reached.
    Complete,
    /// Solve this seed.
    Solve(u64),
}

/// The name a variant goes by in the log.
pub open spec fn variant_label(v: Variant) -> Seq<char> {
    match v {
        Variant::Spider => "spider"@,
        Variant::Klondike => "klondike"@,
    }
}

/// The word an outcome is logged with, seven characters wide.
pub open spec fn outcome_word(o: SolveOutcome) -> Seq<char> {
    match o {
        SolveOutcome::Won => "WON    "@,
        SolveOutcome::Exhausted => "unwin  "@,
        SolveOutcome::Timeout => "timeout"@,
    }
}

/// Start a sweep unless one is running: returns `false` (and changes
/// nothing) when the status is already running.
pub fn begin_sweep(status: &mut SeedGenStatus, variant: Variant) -> (started: bool)
    ensures
        started == !old(status).running,
        !started ==> *final(status) == *old(status),
        started ==> final(status).running && !final(status).finished && final(status).target == TARGET_SEED_COUNT,
        started ==> final(status).won == old(status).won && final(status).lost == old(status).lost
            && final(status).timed_out == old(status).timed_out && final(status).current_seed == old(status).current_seed,
        started ==> logged_text(old(status).log.0@, final(status).log.0@, starting_text(variant_label(variant))),
{
    if status.running {
        return false;
    }
    status.running = true;
    status.finished = false;
    status.target = TARGET_SEED_COUNT;
    let line = starting_line(variant.label());
    status.log.push(line);
    true
}

/// Reset the counters for a sweep resuming at `next_seed` with
/// `already_won` winners on file.
pub fn resume_sweep(status: &mut SeedGenStatus, variant: Variant, next_seed: u64, already_won: u64)
    ensures
        final(status).won == already_won,
        final(status).lost == 0,
        final(status).timed_out == 0,
        final(status).running == old(status).running,
        final(status).finished == old(status).finished,
        final(status).target == old(status).target,
        final(status).current_seed == old(status).current_seed,
        logged_text(
            old(status).log.0@,
            final(status).log.0@,
            resuming_text(variant_label(variant), next_seed as nat, already_won as nat),
        ),
{
    status.won = already_won;
    status.lost = 0;
    status.timed_out = 0;
    let line = resuming_line(variant.label(), next_seed, already_won);
    status.log.push(line);
}

/// Decide the next step of a sweep at `next_seed`: stop when the status
/// is no longer running, finish when the target count of winners is
/// reached, else solve `next_seed` (noted as the current seed).
pub fn next_step(status: &mut SeedGenStatus, variant: Variant, next_seed: u64) -> (step: SweepStep)
    ensures
        step == (if !old(status).running {
            SweepStep::Stop
        } else if old(status).won >= TARGET_SEED_COUNT {
            SweepStep::Complete
        } else {
            SweepStep::Solve(next_seed)
        }),
        step is Solve ==> final(status).current_seed == next_seed,
        !(step is Solve) ==> final(status).current_seed == old(status).current_seed,
        final(status).running == old(status).running,
        final(status).finished == old(status).finished,
        final(status).won == old(status).won,
        final(status).lost == old(status).lost,
        final(status).timed_out == old(status).timed_out,
        final(status).target == old(status).target,
        step is Solve ==> final(status).log == old(status).log,
        step is Stop ==> logged_text(old(status).log.0@, final(status).log.0@, stopped_text(variant_label(variant), next_seed as nat)),
        step is Complete ==> logged_text(
            old(status).log.0@,
            final(status).log.0@,
            complete_text(variant_label(variant), old(status).won as nat, TARGET_SEED_COUNT as nat),
        ),
{
    if !status.running {
        let line = stopped_line(variant.label(), next_seed);
        status.log.push(line);
        return SweepStep::Stop;
    }
    if status.won >= TARGET_SEED_COUNT {
        let line = complete_line(variant.label(), status.won, TARGET_SEED_COUNT);
        status.log.push(line);
        return SweepStep::Complete;
    }
    status.current_seed = next_seed;
    SweepStep::Solve(next_seed)
}

/// Count an outcome and log it with the time it took.
pub fn record_outcome(status: &mut SeedGenStatus, variant: Variant, seed: u64, outcome: SolveOutcome, ms: u128)
    requires
        old(status).won < u64::MAX,
        old(status).lost < u64::MAX,
        old(status).timed_out < u64::MAX,
    ensures
        final(status).won == old(status).won + (if outcome == SolveOutcome::Won { 1int } else { 0int }),
        final(status).lost == old(status).lost + (if outcome == SolveOutcome::Exhausted { 1int } else { 0int }),
        final(status).timed_out == old(status).timed_out + (if outcome == SolveOutcome::Timeout { 1int } else { 0int }),
        final(status).running == old(status).running,
        final(status).finished == old(status).finished,
        final(status).target == old(status).target,
        final(status).current_seed == old(status).current_seed,
        logged_text(
            old(status).log.0@,
            final(status).log.0@,
            outcome_text(
                variant_label(variant),
                seed as nat,
                outcome_word(outcome),
                ms as nat,
                final(status).won as nat,
                final(status).lost as nat,
                final(status).timed_out as nat,
            ),
        ),
{
    let word = match outcome {
        SolveOutcome::Won => {
            status.won = status.won + 1;
            "WON    "
        },
        SolveOutcome::Exhausted => {
            status.lost = status.lost + 1;
            "unwin  "
        },
        SolveOutcome::Timeout => {
            status.timed_out = status.timed_out + 1;
            "timeout"
        },
    };
    assert(word@ == outcome_word(outcome));
    let line = outcome_line(variant.label(), seed, word, ms, status.won, status.lost, status.timed_out);
    status.log.push(line);
}

/// End a sweep: no longer running, finished.
pub fn end_sweep(status: &mut SeedGenStatus)
    ensures
        !final(status).running,
        final(status).finished,
        final(status).won == old(status).won,
        final(status).lost == old(status).lost,
        final(status).timed_out == old(status).timed_out,
        final(status).current_seed == old(status).current_seed,
        final(status).target == old(status).target,
        final(status).log == old(status).log,
{
    status.running = false;
    status.finished = true;
}

/// Ask a running sweep to stop.
pub fn request_stop(status: &mut SeedGenStatus)
    ensures
        !final(status).running,
        final(status).finished == old(status).finished,
        final(status).won == old(status).won,
        final(status).lost == old(status).lost,
        final(status).timed_out == old(status).timed_out,
        final(status).current_seed == old(status).current_seed,
        final(status).target == old(status).target,
        final(status).log == old(status).log,
{
    status.running = false;
}

/// Where a sweep resumes from its seed file: the number of distinct seeds
/// on file, and the seed after the largest (0 for an empty file; the
/// largest seed `u64::MAX` wraps to 0).
pub fn resume_point(bytes: &[u8]) -> (r: (u64, u64))
    ensures
        r.0 == decode_spec(bytes@).to_set().len(),
        decode_spec(bytes@).len() == 0 ==> r.1 == 0,
        decode_spec(bytes@).len() > 0 ==> exists|i: int| 0 <= i < decode_spec(bytes@).len() && {
            &&& forall|j: int| 0 <= j < decode_spec(bytes@).len() ==> decode_spec(bytes@)[j] <= decode_spec(bytes@)[i]
            &&& r.1 == decode_spec(bytes@)[i].wrapping_add(1)
        },
{
    broadcast use vstd::std_specs::hash::group_hash_axioms;

    let seeds = decode_seeds(bytes);
    let ghost s = seeds@;
    let mut set: HashSet<u64> = HashSet::new();
    let mut max: Option<u64> = None;
    let n = seeds.len();
    let mut i: usize = 0;
    while i < n
        invariant
            s == seeds@,
            n == s.len(),
            i <= n,
            set@ == s.subrange(0, i as int).to_set(),
            i == 0 ==> max is None,
            i > 0 ==> (max matches Some(m) && exists|k: int| 0 <= k < i && s[k] == m && forall|j: int| 0 <= j < i ==> s[j] <= m),
        decreases n - i,
    {
        let v = seeds[i];
        set.insert(v);
        proof {
            assert(s.subrange(0, i + 1) =~= s.subrange(0, i as int).push(v));
            s.subrange(0, i as int).lemma_push_to_set_commute(v);
        }
        max = match max {
            None => Some(v),
            Some(m) => if v > m { Some(v) } else { Some(m) },
        };
        i = i + 1;
    }
    assert(s.subrange(0, n as int) =~= s);
    proof {
        vstd::seq_lib::seq_to_set_is_finite(s);
    }
    let count = set.len() as u64;
    let next = match max {
        None => 0,
        Some(m) => m.wrapping_add(1),
    };
    (count, next)
}

/// Calls `Duration::from_secs`. Nothing is claimed of the duration.
#[verifier::external_body]
fn duration_from_secs(secs: u64) -> Duration {
    Duration::from_secs(secs)
}

/// Some line of solver steps wins the Spider board `p`.
pub open spec fn spider_winnable(p: Seq<Seq<Card>>) -> bool {
    exists|path: Seq<Move>| spider_solver::spider_path_ok(p, path) && spider_won(#[trigger] apply_seq(p, path))
}

/// Some line of 1-draw solver steps wins the Klondike board `p`.
pub open spec fn klondike_winnable(p: Seq<Seq<Card>>) -> bool {
    exists|path: Seq<Move>| klondike_solver::solver_path_ok(1, p, path) && klondike_won(#[trigger] apply_seq(p, path))
}

/// The 4-suit Spider deck, unshuffled.
pub open spec fn four_suit_spider_deck() -> Seq<Card> {
    Seq::new(104, |j: int| multi_deck_card(seq![Suit::Spades, Suit::Hearts, Suit::Diamonds, Suit::Clubs], j))
}

/// The opening Spider board dealt from `deck`.
pub open spec fn spider_opening(deck: Seq<Card>) -> Seq<Seq<Card>> {
    add_piles(Seq::new(19, |i: int| Seq::<Card>::empty()), spider_deal_spec(deck))
}

/// The opening Klondike board dealt from `deck`.
pub open spec fn klondike_opening(deck: Seq<Card>) -> Seq<Seq<Card>> {
    add_piles(Seq::new(13, |i: int| Seq::<Card>::empty()), klondike_deal_spec(deck))
}

/// A verdict of `Won` is owed to a deal: some order of the variant's deck
/// whose opening board a line of solver steps wins.
pub open spec fn won_deal_exists(variant: Variant) -> bool {
    match variant {
        Variant::Spider => exists|deck: Seq<Card>| {
            &&& deck.len() == 104
            &&& deck.to_multiset() == four_suit_spider_deck().to_multiset()
            &&& spider_winnable(#[trigger] spider_opening(deck))
        },
        Variant::Klondike => exists|deck: Seq<Card>| {
            &&& deck.len() == 52
            &&& deck.to_multiset() == standard_deck_spec().to_multiset()
            &&& klondike_winnable(#[trigger] klondike_opening(deck))
        },
    }
}

/// Deal the game of `seed` for the variant (4-suit Spider, or 1-draw
/// Klondike) in a fresh session, and run its solver with the
/// variant's per-seed budget. `Won` means the dealt board is winnable.
pub fn solve_seed(variant: Variant, seed: u64) -> (r: SolveOutcome)
    ensures
        r == SolveOutcome::Won ==> won_deal_exists(variant),
{
    match variant {
        Variant::Spider => {
            let session = GameSession::new(Spider::four_suit(), seed);
            let budget = spider_solver::SolverBudget::from_duration(
                duration_from_secs(SPIDER_PER_SEED_SECS),
                SPIDER_PER_SEED_MAX_NODES,
            );
            let r = match spider_solver::solve(&session.piles, budget) {
                spider_solver::SolveResult::Won => SolveOutcome::Won,
                spider_solver::SolveResult::Exhausted => SolveOutcome::Exhausted,
                spider_solver::SolveResult::Timeout => SolveOutcome::Timeout,
            };
            proof {
                let rules = session.rules;
                assert(spider_game_suits(&rules) =~= seq![Suit::Spades, Suit::Hearts, Suit::Diamonds, Suit::Clubs]);
                assert(Seq::new(104, |j: int| multi_deck_card(spider_game_suits(&rules), j)) =~= four_suit_spider_deck());
                let deck = choose|deck: Seq<Card>| {
                    &&& deck.len() == 104
                    &&& deck.to_multiset() == Seq::new(104, |j: int| multi_deck_card(spider_game_suits(&rules), j)).to_multiset()
                    &&& session.piles@ == add_piles(Seq::new(19, |i: int| Seq::<Card>::empty()), spider_deal_spec(deck))
                };
                if r == SolveOutcome::Won {
                    assert(spider_opening(deck) == session.piles@);
                    assert(spider_winnable(spider_opening(deck)));
                }
            }
            r
        },
        Variant::Klondike => {
            let session = GameSession::new(Klondike::with_draw_count(1), seed);
            let budget = klondike_solver::SolverBudget::from_duration(
                duration_from_secs(KLONDIKE_PER_SEED_SECS),
                KLONDIKE_PER_SEED_MAX_NODES,
                1,
            );
            let r = match klondike_solver::solve(&session.piles, budget) {
                klondike_solver::SolveResult::Won => SolveOutcome::Won,
                klondike_solver::SolveResult::Exhausted => SolveOutcome::Exhausted,
                klondike_solver::SolveResult::Timeout => SolveOutcome::Timeout,
            };
            proof {
                let deck = choose|deck: Seq<Card>| {
                    &&& deck.len() == 52
                    &&& deck.to_multiset() == standard_deck_spec().to_multiset()
                    &&& session.piles@ == add_piles(Seq::new(13, |i: int| Seq::<Card>::empty()), klondike_deal_spec(deck))
                };
                if r == SolveOutcome::Won {
                    assert(klondike_opening(deck) == session.piles@);
                    assert(klondike_winnable(klondike_opening(deck)));
                }
            }
            r
        },
    }
}

} // verus!
