//! `GameRules`: the seam between the four solitaire variants and the
//! shared engine, plus the variants themselves.

pub mod classic;
pub mod freecell;
pub mod hint;
pub mod klondike;
pub mod klondike_hint;
pub mod klondike_solver;
pub mod moms;
pub mod ms_freecell;
pub mod seed_generator;
pub mod spider;
pub mod spider_reverse_gen;
pub mod spider_solver;
pub mod sweep_text;
pub mod winnable_seeds;

use vstd::prelude::*;

use rand::rngs::StdRng;

use crate::cards::Card;
use crate::piles::{PileMeta, PileSet};
use crate::session::moves::{apply_spec, can_apply, Move};

verus! {

#[derive(Clone, Copy, Debug, PartialEq, Eq, Hash, Structural)]
pub enum GameKind {
    Klondike,
    FreeCell,
    Spider,
    MomsSolitaire,
}

pub open spec fn slug_spec(k: GameKind) -> Seq<char> {
    match k {
        GameKind::Klondike => "klondike"@,
        GameKind::FreeCell => "freecell"@,
        GameKind::Spider => "spider"@,
        GameKind::MomsSolitaire => "moms"@,
    }
}

pub open spec fn display_name_spec(k: GameKind) -> Seq<char> {
    match k {
        GameKind::Klondike => "Klondike"@,
        GameKind::FreeCell => "FreeCell"@,
        GameKind::Spider => "Spider"@,
        GameKind::MomsSolitaire => "Mom's Solitaire"@,
    }
}

impl GameKind {
    pub fn slug(self) -> (s: &'static str)
        ensures
            s@ == slug_spec(self),
    {
        match self {
            GameKind::Klondike => "klondike",
            GameKind::FreeCell => "freecell",
            GameKind::Spider => "spider",
            GameKind::MomsSolitaire => "moms",
        }
    }

    pub fn display_name(self) -> (s: &'static str)
        ensures
            s@ == display_name_spec(self),
    {
        match self {
            GameKind::Klondike => "Klondike",
            GameKind::FreeCell => "FreeCell",
            GameKind::Spider => "Spider",
            GameKind::MomsSolitaire => "Mom's Solitaire",
        }
    }
}

/// Every move of `ms` names piles that exist on a board of `n` piles.
pub open spec fn moves_in_range(ms: Seq<Move>, n: nat) -> bool {
    forall|i: int| 0 <= i < ms.len() ==> (#[trigger] ms[i]).from < n && ms[i].to < n
}

/// The rules of one solitaire variant.
pub trait GameRules: Sized {
    /// Number of piles on this variant's board.
    spec fn pile_count(&self) -> nat;

    /// Per-pile configuration; the board has one pile per entry, ids in order.
    fn pile_metas(&self) -> (r: Vec<PileMeta>)
        ensures
            r@.len() == self.pile_count(),
            r@.len() <= 256,
    ;

    /// Whether `m` is a legal player move on board `p`.
    spec fn legal(&self, p: Seq<Seq<Card>>, m: Move) -> bool;

    /// Whether board `p` is won.
    spec fn won(&self, p: Seq<Seq<Card>>) -> bool;

    /// The automatic follow-up move on `p`, if any.
    spec fn auto_next(&self, p: Seq<Seq<Card>>) -> Option<Move>;

    /// A measure that every automatic follow-up decreases.
    spec fn auto_measure(&self, p: Seq<Seq<Card>>) -> nat;

    /// An automatic follow-up is applicable and decreases the measure, so
    /// chains of follow-ups end.
    proof fn lemma_auto_next(&self, p: Seq<Seq<Card>>)
        requires
            p.len() == self.pile_count(),
        ensures
            self.auto_next(p) is Some ==> can_apply(p, self.auto_next(p).unwrap()),
            self.auto_next(p) is Some ==> self.auto_measure(apply_spec(p, self.auto_next(p).unwrap())) < self.auto_measure(p),
    ;

    /// `after` is `before` with one of this variant's deals added.
    spec fn dealt(&self, before: Seq<Seq<Card>>, after: Seq<Seq<Card>>) -> bool;

    /// Deal a fresh game onto `piles`.
    fn deal(&self, piles: &mut PileSet, rng: &mut StdRng)
        requires
            old(piles)@.len() == self.pile_count(),
        ensures
            final(piles)@.len() == self.pile_count(),
            self.dealt(old(piles)@, final(piles)@),
    ;

    fn legal_move(&self, piles: &PileSet, m: &Move) -> (r: bool)
        requires
            piles@.len() == self.pile_count(),
            m.from < piles@.len(),
            m.to < piles@.len(),
        ensures
            r == self.legal(piles@, *m),
    ;

    /// One automatic "play it home" step, if any applies.
    fn auto_complete_step(&self, piles: &PileSet) -> (r: Option<Move>)
        requires
            piles@.len() == self.pile_count(),
        ensures
            r matches Some(m) ==> m.from < piles@.len() && m.to < piles@.len(),
    ;

    fn is_won(&self, piles: &PileSet) -> (r: bool)
        requires
            piles@.len() == self.pile_count(),
        ensures
            r == self.won(piles@),
    ;

    fn game_slug(&self) -> &'static str;

    /// Click handler for stock taps; the moves to apply in order.
    fn on_pile_click(&self, piles: &PileSet, pile: u8) -> (r: Vec<Move>)
        requires
            piles@.len() == self.pile_count(),
            pile < piles@.len(),
        ensures
            moves_in_range(r@, piles@.len()),
    ;

    /// The move a single click on card `card_idx` of `pile` performs.
    fn single_click_move(&self, piles: &PileSet, pile: u8, card_idx: usize) -> (r: Option<Move>)
        requires
            piles@.len() == self.pile_count(),
            pile < piles@.len(),
        ensures
            r matches Some(m) ==> m.from == pile && m.to < piles@.len() && self.legal(piles@, m),
    ;

    /// Hook run after every player move; returns the automatic follow-up.
    fn after_move(&self, piles: &PileSet) -> (r: Option<Move>)
        requires
            piles@.len() == self.pile_count(),
        ensures
            r == self.auto_next(piles@),
    ;
}

} // verus!
