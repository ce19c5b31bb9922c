//! Session: move application, the undo stack, and one play session.

pub mod moves;
pub mod undo;

pub use moves::{apply_move, revert_move, Move};
pub use undo::UndoStack;

use vstd::prelude::*;

use crate::cards::Card;
use crate::games::GameRules;
use crate::piles::PileSet;
use crate::rng::rng_from_seed;
use moves::{
    apply_spec, can_apply, can_revert, lemma_revert_apply_lengths, lemma_revert_depends_on_lengths,
    law_revert_undoes_apply, lengths, reversible, revert_spec,
};

verus! {

/// Apply the moves of `ms` in order.
pub open spec fn apply_seq(p: Seq<Seq<Card>>, ms: Seq<Move>) -> Seq<Seq<Card>>
    decreases ms.len(),
{
    if ms.len() == 0 {
        p
    } else {
        apply_seq(apply_spec(p, ms[0]), ms.drop_first())
    }
}

/// Every move of `ms` can be applied in turn.
pub open spec fn can_apply_seq(p: Seq<Seq<Card>>, ms: Seq<Move>) -> bool
    decreases ms.len(),
{
    if ms.len() == 0 {
        true
    } else {
        can_apply(p, ms[0]) && can_apply_seq(apply_spec(p, ms[0]), ms.drop_first())
    }
}

/// Undoing every entry of `hist`, newest first, never panics on board `p`.
pub open spec fn undo_ok(hist: Seq<(Move, bool)>, p: Seq<Seq<Card>>) -> bool
    decreases hist.len(),
{
    if hist.len() == 0 {
        true
    } else {
        can_revert(p, hist.last().0) && undo_ok(hist.drop_last(), revert_spec(p, hist.last().0))
    }
}

/// Revert the newest `n` entries of `hist` on `p`, newest first.
pub open spec fn revert_last(p: Seq<Seq<Card>>, hist: Seq<(Move, bool)>, n: nat) -> Seq<Seq<Card>>
    decreases n,
{
    if n == 0 || hist.len() == 0 {
        p
    } else {
        revert_last(revert_spec(p, hist.last().0), hist.drop_last(), (n - 1) as nat)
    }
}

/// Entries one Undo removes: the trailing automatic entries plus the player
/// move before them (or the whole history when it holds no player move).
pub open spec fn undo_group_len(hist: Seq<(Move, bool)>) -> nat
    decreases hist.len(),
{
    if hist.len() == 0 {
        0
    } else if !hist.last().1 {
        1
    } else {
        1 + undo_group_len(hist.drop_last())
    }
}

/// The entries for a player move followed by automatic ones.
pub open spec fn group_entries(m: Move, autos: Seq<Move>) -> Seq<(Move, bool)> {
    seq![(m, false)] + autos.map_values(|a: Move| (a, true))
}

/// `autos` is exactly the chain of automatic follow-ups the rules produce
/// from board `p`, ending where the rules produce none.
pub open spec fn auto_chain<R: GameRules>(rules: &R, p: Seq<Seq<Card>>, autos: Seq<Move>) -> bool
    decreases autos.len(),
{
    if autos.len() == 0 {
        rules.auto_next(p) is None
    } else {
        rules.auto_next(p) == Some(autos[0]) && auto_chain(rules, apply_spec(p, autos[0]), autos.drop_first())
    }
}

/// The moves of a batch that get applied: the longest prefix whose moves are
/// each legal after the ones before.
pub open spec fn batch_prefix<R: GameRules>(rules: &R, p: Seq<Seq<Card>>, ms: Seq<Move>) -> Seq<Move>
    decreases ms.len(),
{
    if ms.len() == 0 || !rules.legal(p, ms[0]) {
        Seq::empty()
    } else {
        seq![ms[0]] + batch_prefix(rules, apply_spec(p, ms[0]), ms.drop_first())
    }
}

/// Applying a batch never panics: the moves name existing piles, and each
/// one that is legal when its turn comes can be applied.
pub open spec fn batch_safe<R: GameRules>(rules: &R, p: Seq<Seq<Card>>, ms: Seq<Move>) -> bool
    decreases ms.len(),
{
    if ms.len() == 0 {
        true
    } else {
        &&& ms[0].from < p.len()
        &&& ms[0].to < p.len()
        &&& rules.legal(p, ms[0]) ==> can_apply(p, ms[0]) && batch_safe(rules, apply_spec(p, ms[0]), ms.drop_first())
    }
}

/// Reverting one more entry of the history.
pub proof fn lemma_revert_last_step(p: Seq<Seq<Card>>, h: Seq<(Move, bool)>, k: nat)
    requires
        k < h.len(),
    ensures
        revert_last(p, h, k + 1) == revert_spec(revert_last(p, h, k), h[h.len() - 1 - k].0),
    decreases k,
{
    if k > 0 {
        let q = revert_spec(p, h.last().0);
        lemma_revert_last_step(q, h.drop_last(), (k - 1) as nat);
        assert(h.drop_last()[h.drop_last().len() - 1 - (k - 1)] == h[h.len() - 1 - k]);
        assert(revert_last(p, h, k) == revert_last(q, h.drop_last(), (k - 1) as nat));
        assert(revert_last(p, h, k + 1) == revert_last(q, h.drop_last(), k));
    } else {
        let q = revert_spec(p, h.last().0);
        assert(revert_last(q, h.drop_last(), 0) == q);
        assert(revert_last(p, h, 1) == revert_last(q, h.drop_last(), 0));
    }
}

/// Whether undoing `hist` can go wrong depends only on the pile lengths.
pub proof fn lemma_undo_ok_lengths(hist: Seq<(Move, bool)>, p: Seq<Seq<Card>>, q: Seq<Seq<Card>>)
    requires
        lengths(p) == lengths(q),
    ensures
        undo_ok(hist, p) == undo_ok(hist, q),
    decreases hist.len(),
{
    if hist.len() > 0 {
        let m = hist.last().0;
        lemma_revert_depends_on_lengths(p, q, m);
        if can_revert(p, m) {
            lemma_undo_ok_lengths(hist.drop_last(), revert_spec(p, m), revert_spec(q, m));
        }
    }
}

/// Applying a move keeps the history undoable.
pub proof fn lemma_undo_ok_push(hist: Seq<(Move, bool)>, p: Seq<Seq<Card>>, m: Move, auto: bool)
    requires
        undo_ok(hist, p),
        can_apply(p, m),
    ensures
        undo_ok(hist.push((m, auto)), apply_spec(p, m)),
{
    let h2 = hist.push((m, auto));
    let q = apply_spec(p, m);
    lemma_revert_apply_lengths(p, m);
    lemma_undo_ok_lengths(hist, revert_spec(q, m), p);
    assert(h2.drop_last() =~= hist);
    assert(h2.last() == (m, auto));
}

/// Reverting the entries of a player move and its automatic follow-ups,
/// each reversible where it was applied, restores the board from before
/// the player move.
pub proof fn law_undo_group_restores(p: Seq<Seq<Card>>, hist: Seq<(Move, bool)>, m: Move, autos: Seq<Move>)
    requires
        reversible(p, m),
        reversible_seq(apply_spec(p, m), autos),
    ensures
        undo_group_len(hist + group_entries(m, autos)) == autos.len() + 1,
        revert_last(apply_seq(apply_spec(p, m), autos), hist + group_entries(m, autos), autos.len() + 1) == p,
    decreases autos.len(),
{
    let q = apply_spec(p, m);
    law_revert_undoes_apply(p, m);
    if autos.len() == 0 {
        let h = hist + group_entries(m, autos);
        assert(h =~= hist.push((m, false)));
        assert(h.drop_last() =~= hist);
        assert(revert_last(q, h, 1) == revert_last(revert_spec(q, m), hist, 0));
    } else {
        let n = autos.len();
        let last = autos[n - 1];
        let front = autos.drop_last();
        lemma_reversible_seq_split(q, autos);
        law_undo_group_restores(p, hist, m, front);
        let h = hist + group_entries(m, autos);
        let hf = hist + group_entries(m, front);
        assert(h =~= hf.push((last, true)));
        assert(h.drop_last() =~= hf);
        lemma_apply_seq_push(q, front, last);
        assert(autos =~= front.push(last));
        law_revert_undoes_apply(apply_seq(q, front), last);
        assert(undo_group_len(h) == 1 + undo_group_len(hf));
    }
}

/// Playing `a` then `b` is playing `a + b`.
pub proof fn lemma_apply_seq_concat(p: Seq<Seq<Card>>, a: Seq<Move>, b: Seq<Move>)
    ensures
        apply_seq(p, a + b) == apply_seq(apply_seq(p, a), b),
    decreases a.len(),
{
    if a.len() > 0 {
        assert((a + b)[0] == a[0]);
        assert((a + b).drop_first() =~= a.drop_first() + b);
        lemma_apply_seq_concat(apply_spec(p, a[0]), a.drop_first(), b);
    } else {
        assert(a + b =~= b);
    }
}

/// `a` then `b` is reversible move by move when `a + b` is.
pub proof fn lemma_reversible_seq_front(p: Seq<Seq<Card>>, a: Seq<Move>, b: Seq<Move>)
    requires
        a.len() > 0,
        reversible_seq(p, a + b),
    ensures
        reversible(p, a[0]),
        reversible_seq(apply_spec(p, a[0]), a.drop_first() + b),
{
    assert((a + b)[0] == a[0]);
    assert((a + b).drop_first() =~= a.drop_first() + b);
}

/// One Undo reverts a whole batch: once the applied prefix of a batch and
/// its automatic follow-ups are recorded on top of `hist` (as
/// `try_apply_batch` records them), the Undo group is exactly those
/// entries, and reverting it restores the board from before the batch and
/// leaves `hist`, provided each of those moves is reversible where it was
/// applied.
pub proof fn law_undo_reverts_batch<R: GameRules>(
    rules: &R,
    p: Seq<Seq<Card>>,
    hist: Seq<(Move, bool)>,
    ms: Seq<Move>,
    autos: Seq<Move>,
)
    requires
        batch_prefix(rules, p, ms).len() >= 1,
        reversible_seq(p, batch_prefix(rules, p, ms) + autos),
    ensures
        undo_group_len(batch_history(rules, p, hist, ms, autos)) == batch_prefix(rules, p, ms).len() + autos.len(),
        revert_last(
            apply_seq(apply_seq(p, batch_prefix(rules, p, ms)), autos),
            batch_history(rules, p, hist, ms, autos),
            undo_group_len(batch_history(rules, p, hist, ms, autos)),
        ) == p,
        batch_history(rules, p, hist, ms, autos).subrange(
            0,
            batch_history(rules, p, hist, ms, autos).len() - undo_group_len(batch_history(rules, p, hist, ms, autos)),
        ) == hist,
{
    let bp = batch_prefix(rules, p, ms);
    let rest = bp.drop_first() + autos;
    lemma_reversible_seq_front(p, bp, autos);
    law_undo_group_restores(p, hist, bp[0], rest);
    lemma_apply_seq_concat(p, bp, autos);
    assert(bp + autos =~= seq![bp[0]] + rest);
    assert((bp + autos)[0] == bp[0]);
    assert((bp + autos).drop_first() =~= rest);
    let h = batch_history(rules, p, hist, ms, autos);
    assert(h.subrange(0, h.len() - (rest.len() + 1)) =~= hist);
}

/// The history after a batch and its follow-ups are recorded on `hist`.
pub open spec fn batch_history<R: GameRules>(
    rules: &R,
    p: Seq<Seq<Card>>,
    hist: Seq<(Move, bool)>,
    ms: Seq<Move>,
    autos: Seq<Move>,
) -> Seq<(Move, bool)> {
    hist + group_entries(batch_prefix(rules, p, ms)[0], batch_prefix(rules, p, ms).drop_first() + autos)
}

/// Every move of `ms` is reversible where it is applied.
pub open spec fn reversible_seq(p: Seq<Seq<Card>>, ms: Seq<Move>) -> bool
    decreases ms.len(),
{
    if ms.len() == 0 {
        true
    } else {
        reversible(p, ms[0]) && reversible_seq(apply_spec(p, ms[0]), ms.drop_first())
    }
}

/// Applying `ms` then one more move.
pub proof fn lemma_apply_seq_push(p: Seq<Seq<Card>>, ms: Seq<Move>, m: Move)
    ensures
        apply_seq(p, ms.push(m)) == apply_spec(apply_seq(p, ms), m),
    decreases ms.len(),
{
    if ms.len() == 0 {
        assert(ms.push(m)[0] == m);
        assert(ms.push(m).drop_first() =~= Seq::<Move>::empty());
        assert(apply_seq(apply_spec(p, m), Seq::<Move>::empty()) == apply_spec(p, m));
    } else {
        assert(ms.push(m)[0] == ms[0]);
        assert(ms.push(m).drop_first() =~= ms.drop_first().push(m));
        lemma_apply_seq_push(apply_spec(p, ms[0]), ms.drop_first(), m);
    }
}

/// Splitting a reversible sequence at its last move.
pub proof fn lemma_reversible_seq_split(p: Seq<Seq<Card>>, ms: Seq<Move>)
    requires
        ms.len() > 0,
        reversible_seq(p, ms),
    ensures
        reversible_seq(p, ms.drop_last()),
        reversible(apply_seq(p, ms.drop_last()), ms.last()),
    decreases ms.len(),
{
    if ms.len() == 1 {
        assert(ms.drop_last() =~= Seq::<Move>::empty());
    } else {
        let rest = ms.drop_first();
        lemma_reversible_seq_split(apply_spec(p, ms[0]), rest);
        assert(rest.drop_last() =~= ms.drop_last().drop_first());
        assert(rest.last() == ms.last());
    }
}

/// One play session: the rules, the live piles, and an undo stack.
pub struct GameSession<R: GameRules> {
    pub rules: R,
    pub piles: PileSet,
    pub undo: UndoStack,
    pub seed: u64,
}

impl<R: GameRules> GameSession<R> {
    /// The piles match the rules and the history can be undone.
    pub open spec fn wf(&self) -> bool {
        &&& self.piles@.len() == self.rules.pile_count()
        &&& undo_ok(self.undo@, self.piles@)
    }

    /// A fresh session: the rules' piles, dealt with a generator seeded by `seed`.
    pub fn new(rules: R, seed: u64) -> (s: Self)
        ensures
            s.wf(),
            s.rules == rules,
            s.seed == seed,
            s.undo@.len() == 0,
            rules.dealt(Seq::new(rules.pile_count(), |i: int| Seq::<Card>::empty()), s.piles@),
    {
        let metas = rules.pile_metas();
        let mut piles = PileSet::from_metas(metas.as_slice());
        proof {
            assert forall|i: int| 0 <= i < piles@.len() implies #[trigger] piles@[i] == Seq::<Card>::empty() by {
                assert(piles@[i] =~= Seq::<Card>::empty());
            }
            assert(piles@ =~= Seq::new(rules.pile_count(), |i: int| Seq::<Card>::empty()));
        }
        let mut rng = rng_from_seed(seed);
        rules.deal(&mut piles, &mut rng);
        GameSession { rules, piles, undo: UndoStack::new(), seed }
    }

    /// Run the rules' automatic follow-ups until none applies.
    fn run_auto(&mut self) -> (autos: Ghost<Seq<Move>>)
        requires
            old(self).wf(),
        ensures
            final(self).wf(),
            final(self).rules == old(self).rules,
            final(self).seed == old(self).seed,
            auto_chain(&old(self).rules, old(self).piles@, autos@),
            can_apply_seq(old(self).piles@, autos@),
            final(self).piles@ == apply_seq(old(self).piles@, autos@),
            final(self).undo@ == old(self).undo@ + autos@.map_values(|a: Move| (a, true)),
    {
        let ghost p0 = self.piles@;
        let ghost h0 = self.undo@;
        let ghost mut autos: Seq<Move> = Seq::empty();
        loop
            invariant
                self.wf(),
                self.rules == old(self).rules,
                self.seed == old(self).seed,
                p0 == old(self).piles@,
                h0 == old(self).undo@,
                can_apply_seq(p0, autos),
                self.piles@ == apply_seq(p0, autos),
                self.undo@ == h0 + autos.map_values(|a: Move| (a, true)),
                auto_chain_prefix(&self.rules, p0, autos),
            ensures
                self.wf(),
                self.rules == old(self).rules,
                self.seed == old(self).seed,
                can_apply_seq(p0, autos),
                self.piles@ == apply_seq(p0, autos),
                self.undo@ == h0 + autos.map_values(|a: Move| (a, true)),
                auto_chain(&self.rules, p0, autos),
            decreases self.rules.auto_measure(self.piles@),
        {
            match self.rules.after_move(&self.piles) {
                None => {
                    proof {
                        lemma_auto_chain_close(&self.rules, p0, autos);
                    }
                    break;
                },
                Some(am) => {
                    proof {
                        self.rules.lemma_auto_next(self.piles@);
                        lemma_undo_ok_push(self.undo@, self.piles@, am, true);
                        lemma_apply_seq_push(p0, autos, am);
                        lemma_can_apply_seq_push(p0, autos, am);
                        lemma_auto_chain_prefix_push(&self.rules, p0, autos, am);
                    }
                    apply_move(&mut self.piles, &am);
                    self.undo.push_auto(am);
                    proof {
                        assert((h0 + autos.map_values(|a: Move| (a, true))).push((am, true))
                            =~= h0 + autos.push(am).map_values(|a: Move| (a, true)));
                        autos = autos.push(am);
                    }
                },
            }
        }
        Ghost(autos)
    }

    /// Try a player move: when the rules allow it, apply it, record it, then
    /// run the rules' automatic follow-ups, each recorded as automatic.
    pub fn try_apply(&mut self, m: Move) -> (r: bool)
        requires
            old(self).wf(),
            m.from < old(self).piles@.len(),
            m.to < old(self).piles@.len(),
            old(self).rules.legal(old(self).piles@, m) ==> can_apply(old(self).piles@, m),
        ensures
            final(self).wf(),
            final(self).rules == old(self).rules,
            final(self).seed == old(self).seed,
            r == old(self).rules.legal(old(self).piles@, m),
            !r ==> final(self).piles@ == old(self).piles@ && final(self).undo@ == old(self).undo@,
            r ==> exists|autos: Seq<Move>| {
                &&& auto_chain(&old(self).rules, apply_spec(old(self).piles@, m), autos)
                &&& final(self).piles@ == apply_seq(apply_spec(old(self).piles@, m), autos)
                &&& final(self).undo@ == old(self).undo@ + group_entries(m, autos)
            },
    {
        if !self.rules.legal_move(&self.piles, &m) {
            return false;
        }
        proof {
            lemma_undo_ok_push(self.undo@, self.piles@, m, false);
        }
        apply_move(&mut self.piles, &m);
        self.undo.push_user(m);
        let autos = self.run_auto();
        assert(self.undo@ =~= old(self).undo@ + group_entries(m, autos@));
        true
    }

    /// Apply a batch of player moves as one undo unit: the first must be
    /// legal; the rest are applied while each is legal in turn and recorded
    /// as automatic, so one Undo reverts the whole batch. Automatic
    /// follow-ups then run as in `try_apply`.
    pub fn try_apply_batch(&mut self, moves: Vec<Move>) -> (r: bool)
        requires
            old(self).wf(),
            batch_safe(&old(self).rules, old(self).piles@, moves@),
        ensures
            final(self).wf(),
            final(self).rules == old(self).rules,
            final(self).seed == old(self).seed,
            r == (moves@.len() > 0 && old(self).rules.legal(old(self).piles@, moves@[0])),
            !r ==> final(self).piles@ == old(self).piles@ && final(self).undo@ == old(self).undo@,
            r ==> batch_prefix(&old(self).rules, old(self).piles@, moves@).len() >= 1,
            r ==> exists|autos: Seq<Move>| {
                &&& #[trigger] auto_chain(&old(self).rules, apply_seq(old(self).piles@, batch_prefix(&old(self).rules, old(self).piles@, moves@)), autos)
                &&& final(self).piles@ == apply_seq(apply_seq(old(self).piles@, batch_prefix(&old(self).rules, old(self).piles@, moves@)), autos)
                &&& final(self).undo@ == old(self).undo@ + group_entries(
                    batch_prefix(&old(self).rules, old(self).piles@, moves@)[0],
                    batch_prefix(&old(self).rules, old(self).piles@, moves@).drop_first() + autos)
            },
    {
        let n = moves.len();
        if n == 0 {
            return false;
        }
        let first = moves[0];
        if !self.rules.legal_move(&self.piles, &first) {
            return false;
        }
        let ghost p0 = self.piles@;
        let ghost h0 = self.undo@;
        proof {
            lemma_undo_ok_push(self.undo@, self.piles@, first, false);
        }
        apply_move(&mut self.piles, &first);
        self.undo.push_user(first);
        let ghost mut applied: Seq<Move> = seq![first];
        proof {
            assert(apply_seq(apply_spec(p0, first), Seq::<Move>::empty()) == apply_spec(p0, first));
            assert(applied.drop_first() =~= Seq::<Move>::empty());
            assert(apply_seq(p0, applied) == apply_spec(p0, first));
            assert(moves@.drop_first() =~= moves@.subrange(1, n as int));
        }
        let mut i: usize = 1;
        while i < n
            invariant
                self.wf(),
                self.rules == old(self).rules,
                self.seed == old(self).seed,
                n == moves@.len(),
                1 <= i <= n,
                p0 == old(self).piles@,
                h0 == old(self).undo@,
                applied.len() >= 1,
                applied[0] == moves@[0],
                self.piles@ == apply_seq(p0, applied),
                self.undo@ == h0 + group_entries(applied[0], applied.drop_first()),
                batch_prefix(&self.rules, p0, moves@) == applied + batch_prefix(&self.rules, self.piles@, moves@.subrange(i as int, n as int)),
                batch_safe(&self.rules, self.piles@, moves@.subrange(i as int, n as int)),
            ensures
                self.wf(),
                self.rules == old(self).rules,
                self.seed == old(self).seed,
                applied.len() >= 1,
                applied[0] == moves@[0],
                self.piles@ == apply_seq(p0, applied),
                self.undo@ == h0 + group_entries(applied[0], applied.drop_first()),
                batch_prefix(&self.rules, p0, moves@) == applied,
            decreases n - i,
        {
            let m = moves[i];
            let ghost rest = moves@.subrange(i as int, n as int);
            assert(rest[0] == m);
            assert(rest.drop_first() =~= moves@.subrange(i + 1, n as int));
            if !self.rules.legal_move(&self.piles, &m) {
                assert(batch_prefix(&self.rules, self.piles@, rest) =~= Seq::<Move>::empty());
                assert(applied + Seq::<Move>::empty() =~= applied);
                break;
            }
            proof {
                lemma_undo_ok_push(self.undo@, self.piles@, m, true);
                lemma_apply_seq_push(p0, applied, m);
                assert(applied.push(m).drop_first() =~= applied.drop_first().push(m));
                assert((h0 + group_entries(applied[0], applied.drop_first())).push((m, true))
                    =~= h0 + group_entries(applied[0], applied.drop_first().push(m)));
                assert(applied + (seq![m] + batch_prefix(&self.rules, apply_spec(self.piles@, m), rest.drop_first()))
                    =~= applied.push(m) + batch_prefix(&self.rules, apply_spec(self.piles@, m), rest.drop_first()));
            }
            apply_move(&mut self.piles, &m);
            self.undo.push_auto(m);
            proof {
                applied = applied.push(m);
            }
            i = i + 1;
        }
        proof {
            if i == n {
                assert(moves@.subrange(n as int, n as int) =~= Seq::<Move>::empty());
                assert(applied + Seq::<Move>::empty() =~= applied);
            }
        }
        let autos = self.run_auto();
        proof {
            assert(group_entries(applied[0], applied.drop_first()) + autos@.map_values(|a: Move| (a, true))
                =~= group_entries(applied[0], applied.drop_first() + autos@));
            assert(self.undo@ =~= h0 + group_entries(applied[0], applied.drop_first() + autos@));
        }
        true
    }

    /// Apply a move without consulting the rules, recorded as a player move.
    pub fn apply_forced(&mut self, m: Move)
        requires
            old(self).wf(),
            can_apply(old(self).piles@, m),
        ensures
            final(self).wf(),
            final(self).rules == old(self).rules,
            final(self).seed == old(self).seed,
            final(self).piles@ == apply_spec(old(self).piles@, m),
            final(self).undo@ == old(self).undo@.push((m, false)),
    {
        proof {
            lemma_undo_ok_push(self.undo@, self.piles@, m, false);
        }
        apply_move(&mut self.piles, &m);
        self.undo.push_user(m);
    }

    /// Pop the most recent player move and the automatic follow-ups recorded
    /// after it, reverting them newest first. `false` when there is nothing
    /// to undo.
    pub fn try_undo(&mut self) -> (r: bool)
        requires
            old(self).wf(),
        ensures
            final(self).wf(),
            final(self).rules == old(self).rules,
            final(self).seed == old(self).seed,
            r == (old(self).undo@.len() > 0),
            final(self).piles@ == revert_last(old(self).piles@, old(self).undo@, undo_group_len(old(self).undo@)),
            final(self).undo@ == old(self).undo@.subrange(0, old(self).undo@.len() - undo_group_len(old(self).undo@)),
    {
        let ghost p0 = self.piles@;
        let ghost h0 = self.undo@;
        let ghost big_l = h0.len();
        let ghost g = undo_group_len(h0);
        let mut undone_anything = false;
        loop
            invariant
                self.wf(),
                self.rules == old(self).rules,
                self.seed == old(self).seed,
                p0 == old(self).piles@,
                h0 == old(self).undo@,
                big_l == h0.len(),
                g == undo_group_len(h0),
                self.undo@.len() <= big_l,
                self.undo@ == h0.subrange(0, self.undo@.len() as int),
                undone_anything == (self.undo@.len() < big_l),
                self.piles@ == revert_last(p0, h0, (big_l - self.undo@.len()) as nat),
                g == (big_l - self.undo@.len()) + undo_group_len(self.undo@),
            decreases self.undo@.len(),
        {
            let ghost hb = self.undo@;
            let ghost pb = self.piles@;
            match self.undo.pop() {
                None => {
                    proof {
                        assert(hb.len() == 0);
                        assert(h0.subrange(0, 0) =~= hb);
                    }
                    return undone_anything;
                },
                Some(entry) => {
                    let (m, auto) = entry;
                    let ghost k = (big_l - hb.len()) as nat;
                    proof {
                        assert(hb.last() == (m, auto));
                        assert(hb.last() == h0[big_l - 1 - k]);
                        lemma_revert_last_step(p0, h0, k);
                        assert(hb.drop_last() =~= h0.subrange(0, hb.len() - 1));
                    }
                    revert_move(&mut self.piles, &m);
                    undone_anything = true;
                    if !auto {
                        proof {
                            assert(undo_group_len(hb) == 1);
                        }
                        return true;
                    }
                },
            }
        }
    }

    pub fn is_won(&self) -> (r: bool)
        requires
            self.wf(),
        ensures
            r == self.rules.won(self.piles@),
    {
        self.rules.is_won(&self.piles)
    }
}

/// `autos` so far agrees with the rules' automatic follow-ups from `p`.
pub open spec fn auto_chain_prefix<R: GameRules>(rules: &R, p: Seq<Seq<Card>>, autos: Seq<Move>) -> bool
    decreases autos.len(),
{
    if autos.len() == 0 {
        true
    } else {
        rules.auto_next(p) == Some(autos[0]) && auto_chain_prefix(rules, apply_spec(p, autos[0]), autos.drop_first())
    }
}

pub proof fn lemma_auto_chain_prefix_push<R: GameRules>(rules: &R, p: Seq<Seq<Card>>, autos: Seq<Move>, m: Move)
    requires
        auto_chain_prefix(rules, p, autos),
        rules.auto_next(apply_seq(p, autos)) == Some(m),
    ensures
        auto_chain_prefix(rules, p, autos.push(m)),
    decreases autos.len(),
{
    if autos.len() == 0 {
        assert(autos.push(m)[0] == m);
        assert(autos.push(m).drop_first() =~= Seq::<Move>::empty());
        assert(auto_chain_prefix(rules, apply_spec(p, m), Seq::<Move>::empty()));
    } else {
        assert(autos.push(m)[0] == autos[0]);
        assert(autos.push(m).drop_first() =~= autos.drop_first().push(m));
        lemma_auto_chain_prefix_push(rules, apply_spec(p, autos[0]), autos.drop_first(), m);
    }
}

pub proof fn lemma_auto_chain_close<R: GameRules>(rules: &R, p: Seq<Seq<Card>>, autos: Seq<Move>)
    requires
        auto_chain_prefix(rules, p, autos),
        rules.auto_next(apply_seq(p, autos)) is None,
    ensures
        auto_chain(rules, p, autos),
    decreases autos.len(),
{
    if autos.len() > 0 {
        lemma_auto_chain_close(rules, apply_spec(p, autos[0]), autos.drop_first());
    }
}

pub proof fn lemma_can_apply_seq_push(p: Seq<Seq<Card>>, ms: Seq<Move>, m: Move)
    requires
        can_apply_seq(p, ms),
        can_apply(apply_seq(p, ms), m),
    ensures
        can_apply_seq(p, ms.push(m)),
    decreases ms.len(),
{
    if ms.len() == 0 {
        assert(ms.push(m)[0] == m);
        assert(ms.push(m).drop_first() =~= Seq::<Move>::empty());
        assert(can_apply_seq(apply_spec(p, m), Seq::<Move>::empty()));
    } else {
        assert(ms.push(m)[0] == ms[0]);
        assert(ms.push(m).drop_first() =~= ms.drop_first().push(m));
        lemma_can_apply_seq_push(apply_spec(p, ms[0]), ms.drop_first(), m);
    }
}

} // verus!
