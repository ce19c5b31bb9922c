use solitaire_core::cards::{Card, Rank, Suit};
use solitaire_core::games::spider::{Spider, CASCADE_FIRST, CASCADE_LAST, FOUND_FIRST, FOUND_LAST, STOCK};
use solitaire_core::games::spider_solver::{
    generate_choices, hash_state, smart_solve, solve, SolveResult, SolverBudget, StreamlinerMode,
};
use solitaire_core::games::GameRules;
use solitaire_core::piles::PileSet;
use solitaire_core::session::GameSession;

fn board() -> PileSet {
    PileSet::from_metas(&Spider::four_suit().pile_metas())
}

#[test]
fn spider_solver_solver_recognises_pre_won_board() {
    let mut s = GameSession::new(Spider::four_suit(), 1);
    for fid in FOUND_FIRST..=FOUND_LAST {
        s.piles.get_mut(fid).cards.clear();
        for _ in 0..13 {
            s.piles.get_mut(fid).cards.push(Card::new(Suit::Spades, Rank::King));
        }
    }
    let budget = SolverBudget::from_duration(std::time::Duration::from_millis(50), 1_000);
    assert_eq!(solve(&s.piles, budget), SolveResult::Won);
}

#[test]
fn hash_state_collapses_tableau_column_permutations() {
    let mut a = board();
    let mut b = a.clone();
    a.get_mut(CASCADE_FIRST).cards.push(Card::new(Suit::Spades, Rank::King).face_up());
    a.get_mut(CASCADE_FIRST + 1).cards.push(Card::new(Suit::Hearts, Rank::Queen).face_up());
    b.get_mut(CASCADE_FIRST).cards.push(Card::new(Suit::Hearts, Rank::Queen).face_up());
    b.get_mut(CASCADE_FIRST + 1).cards.push(Card::new(Suit::Spades, Rank::King).face_up());
    assert_eq!(hash_state(&a, StreamlinerMode::Strict), hash_state(&b, StreamlinerMode::Strict));
}

#[test]
fn hash_state_collapses_suit_under_flatten_mode() {
    let mut a = board();
    let mut b = a.clone();
    a.get_mut(CASCADE_FIRST).cards.push(Card::new(Suit::Spades, Rank::King).face_up());
    b.get_mut(CASCADE_FIRST).cards.push(Card::new(Suit::Clubs, Rank::King).face_up());
    assert_ne!(hash_state(&a, StreamlinerMode::Strict), hash_state(&b, StreamlinerMode::Strict));
    assert_eq!(hash_state(&a, StreamlinerMode::SuitFlatten), hash_state(&b, StreamlinerMode::SuitFlatten));
}

#[test]
fn hash_state_collapses_suit_under_colour_mode() {
    let mut a = board();
    let mut b = a.clone();
    let mut c = a.clone();
    a.get_mut(CASCADE_FIRST).cards.push(Card::new(Suit::Spades, Rank::King).face_up());
    b.get_mut(CASCADE_FIRST).cards.push(Card::new(Suit::Clubs, Rank::King).face_up());
    c.get_mut(CASCADE_FIRST).cards.push(Card::new(Suit::Hearts, Rank::King).face_up());
    assert_eq!(hash_state(&a, StreamlinerMode::SuitColour), hash_state(&b, StreamlinerMode::SuitColour));
    assert_ne!(hash_state(&a, StreamlinerMode::SuitColour), hash_state(&c, StreamlinerMode::SuitColour));
}

#[test]
fn smart_solve_finds_win_on_pre_won_board() {
    let mut s = GameSession::new(Spider::four_suit(), 1);
    for fid in FOUND_FIRST..=FOUND_LAST {
        s.piles.get_mut(fid).cards.clear();
        for _ in 0..13 {
            s.piles.get_mut(fid).cards.push(Card::new(Suit::Spades, Rank::King));
        }
    }
    let budget = SolverBudget::from_duration(std::time::Duration::from_millis(50), 1_000);
    assert_eq!(smart_solve(&s.piles, budget, StreamlinerMode::SuitColour), SolveResult::Won);
}

#[test]
fn hash_state_distinguishes_face_up_from_face_down() {
    let mut a = board();
    let mut b = a.clone();
    a.get_mut(CASCADE_FIRST).cards.push(Card::new(Suit::Spades, Rank::King).face_up());
    b.get_mut(CASCADE_FIRST).cards.push(Card::new(Suit::Spades, Rank::King));
    assert_ne!(hash_state(&a, StreamlinerMode::Strict), hash_state(&b, StreamlinerMode::Strict));
}

#[test]
fn apply_revert_preserves_state_across_random_dfs() {
    let s = GameSession::new(Spider::four_suit(), 42);
    let starting = s.piles.clone();
    let budget = SolverBudget::from_duration(std::time::Duration::from_millis(80), 10_000);
    let _ = solve(&starting, budget);
    let r2 = solve(&starting, budget);
    let r3 = solve(&starting, budget);
    assert_eq!(r2, r3);
}

#[test]
fn solver_returns_exhausted_on_locked_board() {
    let mut piles = board();
    for cid in CASCADE_FIRST..=CASCADE_LAST {
        piles.get_mut(cid).cards.push(Card::new(Suit::Spades, Rank::King).face_up());
    }
    let budget = SolverBudget::from_duration(std::time::Duration::from_secs(1), 100_000);
    assert_eq!(solve(&piles, budget), SolveResult::Exhausted);
}

#[test]
fn won_board_is_won_even_with_no_node_budget() {
    let mut piles = board();
    for fid in FOUND_FIRST..=FOUND_LAST {
        for _ in 0..13 {
            piles.get_mut(fid).cards.push(Card::new(Suit::Hearts, Rank::Ace));
        }
    }
    let budget = SolverBudget::from_duration(std::time::Duration::from_secs(1), 0);
    assert_eq!(solve(&piles, budget), SolveResult::Won);
    assert_eq!(smart_solve(&piles, budget, StreamlinerMode::SuitColour), SolveResult::Won);
}

#[test]
fn smart_solve_reports_a_locked_board_exhausted() {
    let mut piles = board();
    for cid in CASCADE_FIRST..=CASCADE_LAST {
        piles.get_mut(cid).cards.push(Card::new(Suit::Hearts, Rank::King).face_up());
    }
    let budget = SolverBudget::from_duration(std::time::Duration::from_secs(1), 0);
    assert_eq!(smart_solve(&piles, budget, StreamlinerMode::SuitFlatten), SolveResult::Exhausted);
}

#[test]
fn hash_state_ignores_a_rotation_of_three_columns() {
    let mut a = board();
    let mut b = board();
    let cards = [
        Card::new(Suit::Spades, Rank::King).face_up(),
        Card::new(Suit::Hearts, Rank::Queen).face_up(),
        Card::new(Suit::Clubs, Rank::Five),
    ];
    for (i, c) in cards.iter().enumerate() {
        a.get_mut(CASCADE_FIRST + i as u8).cards.push(*c);
        b.get_mut(CASCADE_FIRST + ((i as u8 + 1) % 3)).cards.push(*c);
    }
    for mode in [StreamlinerMode::Strict, StreamlinerMode::SuitFlatten, StreamlinerMode::SuitColour] {
        assert_eq!(hash_state(&a, mode), hash_state(&b, mode));
    }
}

#[test]
fn generated_choices_end_with_the_whole_deal() {
    let mut piles = board();
    for _ in 0..10 {
        piles.get_mut(STOCK).cards.push(Card::new(Suit::Clubs, Rank::Two));
    }
    for cid in CASCADE_FIRST..=CASCADE_LAST {
        piles.get_mut(cid).cards.push(Card::new(Suit::Spades, Rank::King).face_up());
    }
    let choices = generate_choices(&piles);
    assert_eq!(choices.len(), 1);
    let deal = &choices[0];
    assert_eq!(deal.len(), 10);
    for (i, m) in deal.iter().enumerate() {
        assert_eq!((m.from, m.take, m.to, m.flip_moved), (STOCK, 1, CASCADE_FIRST + i as u8, true));
    }
}
