use solitaire_core::cards::{Card, Rank, Suit};
use solitaire_core::games::klondike::{Klondike, FOUND_FIRST, FOUND_LAST};
use solitaire_core::games::klondike::{STOCK, TABLEAU_FIRST, WASTE};
use solitaire_core::games::klondike_solver::{generate_ordered_moves, solve, SolveResult, SolverBudget};
use solitaire_core::session::GameSession;

#[test]
fn klondike_solver_solver_recognises_pre_won_board() {
    let mut s = GameSession::new(Klondike::with_draw_count(1), 1);
    for fid in FOUND_FIRST..=FOUND_LAST {
        s.piles.get_mut(fid).cards.clear();
        for _ in 0..13 {
            s.piles.get_mut(fid).cards.push(Card::new(Suit::Spades, Rank::King));
        }
    }
    let budget = SolverBudget::from_duration(std::time::Duration::from_millis(50), 1_000, 1);
    assert_eq!(solve(&s.piles, budget), SolveResult::Won);
}

#[test]
fn klondike_won_board_is_won_even_with_no_node_budget() {
    let mut s = GameSession::new(Klondike::with_draw_count(3), 9);
    for fid in FOUND_FIRST..=FOUND_LAST {
        s.piles.get_mut(fid).cards.clear();
        for _ in 0..13 {
            s.piles.get_mut(fid).cards.push(Card::new(Suit::Hearts, Rank::Two));
        }
    }
    let budget = SolverBudget::from_duration(std::time::Duration::from_secs(1), 0, 3);
    assert_eq!(solve(&s.piles, budget), SolveResult::Won);
}

#[test]
fn klondike_stuck_board_is_exhausted() {
    let rules = Klondike::with_draw_count(1);
    let mut piles = solitaire_core::piles::PileSet::from_metas(&solitaire_core::games::GameRules::pile_metas(&rules));
    for t in solitaire_core::games::klondike::TABLEAU_FIRST..=solitaire_core::games::klondike::TABLEAU_LAST {
        piles.get_mut(t).cards.push(Card::new(Suit::Clubs, Rank::King).face_up());
    }
    let budget = SolverBudget::from_duration(std::time::Duration::from_secs(1), 0, 1);
    assert_eq!(solve(&piles, budget), SolveResult::Exhausted);
}

#[test]
fn generated_moves_end_with_the_stock_click() {
    let rules = Klondike::with_draw_count(3);
    let mut piles = solitaire_core::piles::PileSet::from_metas(&solitaire_core::games::GameRules::pile_metas(&rules));
    for _ in 0..5 {
        piles.get_mut(STOCK).cards.push(Card::new(Suit::Hearts, Rank::Nine));
    }
    piles.get_mut(TABLEAU_FIRST).cards.push(Card::new(Suit::Spades, Rank::Ace).face_up());
    let moves = generate_ordered_moves(&piles, 3);
    assert_eq!(moves.len(), 2);
    assert_eq!((moves[0].from, moves[0].take, moves[0].to), (TABLEAU_FIRST, 1, FOUND_FIRST));
    let last = moves[1];
    assert_eq!((last.from, last.take, last.to, last.flip_moved), (STOCK, 3, WASTE, true));
}
