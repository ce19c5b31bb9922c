use std::time::Duration;

use solitaire_core::branding::{app_icon_rgba, CARD_BG, CARD_BORDER, HEART, SIDE};
use solitaire_core::cards::{shuffled_seeded, spider_deck, standard_deck, Card, Rank, Suit};
use solitaire_core::clock::{deadline_after, deadline_passed};
use solitaire_core::games::klondike::{Klondike, FOUND_FIRST, STOCK, TABLEAU_FIRST};
use solitaire_core::games::ms_freecell::deal_columns;
use solitaire_core::games::spider::{Spider, CASCADE_FIRST};
use solitaire_core::games::spider_reverse_gen::{generate_winnable_deal, target_cascade_size};
use solitaire_core::games::spider_solver::{hash_state, StreamlinerMode};
use solitaire_core::games::winnable_seeds::{
    decode_seeds, is_ms_freecell_unwinnable, pick_klondike_winnable, pick_ms_freecell_winnable,
    pick_spider_winnable, MS_FREECELL_MAX, MS_FREECELL_UNWINNABLE_LIST,
};
use solitaire_core::games::GameRules;
use solitaire_core::piles::{PileKind, PileLayout, PileMeta, PileSet};
use solitaire_core::render::svg_deck::{lcd_subpixel_collapse, paint_one_pixel_card_border, DeckBitmap};
use solitaire_core::session::{apply_move, revert_move, GameSession, Move, UndoStack};

fn key(c: &Card) -> (u8, u8) {
    let s = match c.suit {
        Suit::Spades => 0,
        Suit::Hearts => 1,
        Suit::Diamonds => 2,
        Suit::Clubs => 3,
    };
    (s, c.rank.as_u8())
}

#[test]
fn next_up_then_next_down_returns_each_rank_below_king() {
    for r in Rank::ALL {
        match r.next_up() {
            Some(up) => assert_eq!(up.next_down(), Some(r)),
            None => assert_eq!(r, Rank::King),
        }
        match r.next_down() {
            Some(down) => assert_eq!(down.next_up(), Some(r)),
            None => assert_eq!(r, Rank::Ace),
        }
    }
}

fn three_piles() -> PileSet {
    let meta = PileMeta { kind: PileKind::Tableau, layout: PileLayout::FannedDown, render_ace_as_gap: false };
    PileSet::from_metas(&[meta, meta, meta])
}

#[test]
fn revert_undoes_apply_with_every_flag() {
    let mut piles = three_piles();
    piles.get_mut(0).cards.push(Card::new(Suit::Clubs, Rank::Nine));
    piles.get_mut(0).cards.push(Card::new(Suit::Clubs, Rank::Eight).face_up());
    piles.get_mut(0).cards.push(Card::new(Suit::Hearts, Rank::Seven));
    piles.get_mut(1).cards.push(Card::new(Suit::Spades, Rank::Two).face_up());
    let before = piles.clone();
    let moves = [
        Move::simple(0, 2, 1),
        Move::simple(0, 2, 1).with_flip_source(),
        Move::simple(0, 2, 1).with_flip_moved().with_reverse(),
        Move::simple(0, 3, 2).with_flip_moved(),
        Move::swap(0, 1),
    ];
    for m in moves {
        apply_move(&mut piles, &m);
        revert_move(&mut piles, &m);
        for i in 0..3u8 {
            assert_eq!(piles.get(i).cards, before.get(i).cards, "pile {i} after {m:?}");
        }
    }
}

#[test]
fn swap_exchanges_the_two_top_cards() {
    let mut piles = three_piles();
    piles.get_mut(0).cards.push(Card::new(Suit::Clubs, Rank::Nine).face_up());
    piles.get_mut(1).cards.push(Card::new(Suit::Hearts, Rank::Ace).face_up());
    apply_move(&mut piles, &Move::swap(0, 1));
    assert_eq!(piles.get(0).cards[0].rank, Rank::Ace);
    assert_eq!(piles.get(1).cards[0].rank, Rank::Nine);
}

#[test]
fn undo_stack_pops_newest_first_with_its_flag() {
    let mut undo = UndoStack::new();
    let a = Move::simple(0, 1, 1);
    let b = Move::simple(1, 1, 2);
    undo.push_user(a);
    undo.push_auto(b);
    assert_eq!(undo.len(), 2);
    assert_eq!(undo.pop(), Some((b, true)));
    assert_eq!(undo.pop(), Some((a, false)));
    assert_eq!(undo.pop(), None);
    assert!(undo.is_empty());
}

fn same_board(a: &PileSet, b: &PileSet) -> bool {
    a.len() == b.len() && (0..a.len() as u8).all(|i| a.get(i).cards == b.get(i).cards)
}

#[test]
fn undo_restores_the_board_before_a_stock_click() {
    let mut s = GameSession::new(Klondike::with_draw_count(3), 5);
    let before = s.piles.clone();
    let moves = s.rules.on_pile_click(&s.piles, STOCK);
    assert_eq!(moves.len(), 1);
    assert!(s.try_apply(moves[0]));
    assert_eq!(s.piles.get(STOCK).len(), 21);
    assert!(!same_board(&s.piles, &before));
    assert!(s.try_undo());
    assert!(same_board(&s.piles, &before));
    assert!(!s.try_undo());
}

#[test]
fn illegal_move_changes_nothing() {
    let mut s = GameSession::new(Klondike::with_draw_count(1), 9);
    let before = s.piles.clone();
    assert!(!s.try_apply(Move::simple(FOUND_FIRST, 1, TABLEAU_FIRST)));
    assert!(same_board(&s.piles, &before));
    assert!(s.undo.is_empty());
}

#[test]
fn shuffled_deck_is_a_reordering_of_the_standard_deck() {
    let deck = standard_deck();
    let shuffled = shuffled_seeded(7);
    assert_ne!(shuffled, deck);
    let mut a: Vec<(u8, u8)> = deck.iter().map(key).collect();
    let mut b: Vec<(u8, u8)> = shuffled.iter().map(key).collect();
    a.sort();
    b.sort();
    assert_eq!(a, b);
    assert_eq!(shuffled_seeded(7), shuffled);
    assert_ne!(shuffled_seeded(8), shuffled);
}

#[test]
fn two_suit_spider_deck_has_four_copies_of_each_card() {
    let deck = spider_deck(2);
    assert_eq!(deck.len(), 104);
    for suit in [Suit::Spades, Suit::Hearts] {
        for rank in Rank::ALL {
            let n = deck.iter().filter(|c| c.suit == suit && c.rank == rank).count();
            assert_eq!(n, 4);
        }
    }
    assert!(deck.iter().all(|c| !c.face_up));
}

#[test]
fn unwinnable_ms_game_still_deals_every_card_once() {
    let cols = deal_columns(11_982);
    let mut all: Vec<(u8, u8)> = cols.iter().flatten().map(key).collect();
    assert_eq!(all.len(), 52);
    all.sort();
    all.dedup();
    assert_eq!(all.len(), 52);
    assert_eq!(cols.iter().map(|c| c.len()).collect::<Vec<_>>(), vec![7, 7, 7, 7, 6, 6, 6, 6]);
}

#[test]
fn hash_ignores_a_rotation_of_three_columns() {
    let base = PileSet::from_metas(&Spider::four_suit().pile_metas());
    let cards = [
        Card::new(Suit::Spades, Rank::King).face_up(),
        Card::new(Suit::Hearts, Rank::Queen).face_up(),
        Card::new(Suit::Clubs, Rank::Jack).face_up(),
    ];
    let mut a = base.clone();
    let mut b = base.clone();
    for i in 0..3u8 {
        a.get_mut(CASCADE_FIRST + i).cards.push(cards[i as usize]);
        b.get_mut(CASCADE_FIRST + (i + 1) % 3).cards.push(cards[i as usize]);
    }
    for mode in [StreamlinerMode::Strict, StreamlinerMode::SuitFlatten, StreamlinerMode::SuitColour] {
        assert_eq!(hash_state(&a, mode), hash_state(&b, mode));
    }
    let mut c = base.clone();
    c.get_mut(CASCADE_FIRST).cards.push(cards[0]);
    c.get_mut(CASCADE_FIRST).cards.push(cards[1]);
    c.get_mut(CASCADE_FIRST + 1).cards.push(cards[2]);
    assert_ne!(hash_state(&a, StreamlinerMode::Strict), hash_state(&c, StreamlinerMode::Strict));
}

#[test]
fn reverse_deals_hold_the_solved_cards_for_every_suit_count() {
    for (suits, one) in [(1u8, Suit::Hearts), (2, Suit::Diamonds), (4, Suit::Spades)] {
        for seed in 10..14u64 {
            let piles = generate_winnable_deal(seed, suits, one);
            let mut cards: Vec<(u8, u8)> = Vec::new();
            for pid in 0..piles.len() as u8 {
                cards.extend(piles.get(pid).cards.iter().map(key));
            }
            assert_eq!(cards.len(), 104);
            let expected_suits: Vec<Suit> = match suits {
                1 => vec![one],
                2 => vec![Suit::Diamonds, Suit::Spades],
                _ => vec![Suit::Spades, Suit::Hearts, Suit::Diamonds, Suit::Clubs],
            };
            let per_card = 8 / expected_suits.len();
            for suit in &expected_suits {
                for rank in Rank::ALL {
                    let k = key(&Card::new(*suit, rank));
                    assert_eq!(cards.iter().filter(|c| **c == k).count(), per_card, "seed {seed} suits {suits}");
                }
            }
            for i in 0..10usize {
                assert_eq!(piles.get(CASCADE_FIRST + i as u8).len(), target_cascade_size(i));
            }
        }
    }
}

#[test]
fn opening_column_lengths_are_six_then_five() {
    let sizes: Vec<usize> = (0..10).map(target_cascade_size).collect();
    assert_eq!(sizes, vec![6, 6, 6, 6, 5, 5, 5, 5, 5, 5]);
}

#[test]
fn decode_reads_full_little_endian_words_only() {
    let mut bytes = vec![1, 0, 0, 0, 0, 0, 0, 0, 0x00, 0x01, 0, 0, 0, 0, 0, 0];
    bytes.extend_from_slice(&[0xff; 8]);
    bytes.extend_from_slice(&[7, 7, 7]);
    assert_eq!(decode_seeds(&bytes), vec![1, 256, u64::MAX]);
    assert_eq!(decode_seeds(&[1, 2, 3]), Vec::<u64>::new());
}

#[test]
fn empty_bundled_lists_fall_back_to_the_given_seed() {
    assert_eq!(pick_spider_winnable(77), 77);
    assert_eq!(pick_klondike_winnable(5), 5);
}

#[test]
fn ms_freecell_picker_stays_in_range_and_off_the_list() {
    for n in MS_FREECELL_UNWINNABLE_LIST {
        assert!(is_ms_freecell_unwinnable(n));
    }
    assert!(!is_ms_freecell_unwinnable(1));
    assert!(!is_ms_freecell_unwinnable(11_983));
    for seed in 0..50u64 {
        let g = pick_ms_freecell_winnable(seed);
        assert!((1..=MS_FREECELL_MAX).contains(&g));
        assert!(!is_ms_freecell_unwinnable(g));
    }
    assert_eq!(pick_ms_freecell_winnable(3), pick_ms_freecell_winnable(3));
}

fn pixel(buf: &[u8], x: u32, y: u32) -> &[u8] {
    let i = (4 * (y * SIDE + x)) as usize;
    &buf[i..i + 4]
}

#[test]
fn icon_pixels_follow_the_layers() {
    let (_, _, buf) = app_icon_rgba();
    assert_eq!(pixel(&buf, 32, 34), &HEART);
    assert_eq!(pixel(&buf, 12, 50), &CARD_BG);
    assert_eq!(pixel(&buf, 30, 6), &CARD_BORDER);
}

#[test]
fn plain_sprite_is_outlined_on_its_edge() {
    let deck = DeckBitmap::build(3, 3);
    let out = deck.finish_sprite(vec![0xff; 36]);
    for y in 0..3 {
        for x in 0..3 {
            let i = 4 * (y * 3 + x);
            let expected: [u8; 4] = if x == 1 && y == 1 { [0xff; 4] } else { [0, 0, 0, 0xff] };
            assert_eq!(&out[i..i + 4], &expected, "pixel ({x}, {y})");
        }
    }
}

#[test]
fn lcd_sprite_is_collapsed_then_outlined() {
    let deck = DeckBitmap::build_lcd(2, 2);
    assert!(deck.lcd_subpixel());
    assert_eq!(deck.raster_width(), 6);
    let raster: Vec<u8> = (0..(6 * 2 * 4) as u32).map(|i| (i * 37 % 256) as u8).collect();
    let mut expected = lcd_subpixel_collapse(&raster, 6, 2, 2);
    paint_one_pixel_card_border(&mut expected, 2, 2);
    let out = deck.finish_sprite(raster.clone());
    assert_eq!(out, expected);
    assert_eq!(out.len(), 2 * 2 * 4);
}

#[test]
fn clock_deadlines() {
    assert!(!deadline_passed(None));
    let now = deadline_after(Duration::ZERO);
    assert!(deadline_passed(now));
    let later = deadline_after(Duration::from_secs(3600));
    assert!(later.is_some());
    assert!(!deadline_passed(later));
}
