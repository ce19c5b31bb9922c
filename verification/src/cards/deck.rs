//! Deck construction and seeded shuffling.

use vstd::prelude::*;

use super::card::Card;
use super::rank::{lemma_rank_of_value, rank_of_value, Rank};
use super::suit::{suit_at, Suit};
use crate::rng::{rng_from_seed, shuffle_cards};

verus! {

/// Card `i` of the standard deck: Spades A..K, Hearts A..K, Diamonds A..K,
/// Clubs A..K, all face down, deck id 0.
pub open spec fn standard_card(i: int) -> Card {
    Card {
        suit: suit_at(i / 13),
        rank: rank_of_value(i % 13 + 1).unwrap(),
        face_up: false,
        deck_id: 0,
    }
}

/// The 52-card standard deck as a sequence.
pub open spec fn standard_deck_spec() -> Seq<Card> {
    Seq::new(52, |i: int| standard_card(i))
}

/// The standard deck holds 52 different cards: every suit with every rank
/// once.
pub proof fn law_standard_deck_distinct()
    ensures
        standard_deck_spec().len() == 52,
        standard_deck_spec().no_duplicates(),
{
    assert forall|i: int, j: int| 0 <= i < 52 && 0 <= j < 52 && i != j implies
        standard_deck_spec()[i] != standard_deck_spec()[j] by {
        lemma_rank_of_value(i % 13 + 1);
        lemma_rank_of_value(j % 13 + 1);
        if i / 13 == j / 13 {
            assert(i % 13 != j % 13);
        } else {
            assert(0 <= i / 13 < 4 && 0 <= j / 13 < 4);
        }
    }
}

/// Card `j` of a multi-deck built over `suits`: runs of 13 ranks Ace..King
/// cycle through `suits`, and each full cycle is one more deck copy.
pub open spec fn multi_deck_card(suits: Seq<Suit>, j: int) -> Card {
    Card {
        suit: suits[(j / 13) % (suits.len() as int)],
        rank: rank_of_value(j % 13 + 1).unwrap(),
        face_up: false,
        deck_id: (j / (13 * suits.len() as int)) as u8,
    }
}

/// Number of full copies of `k` suits that fit in 104 cards.
pub open spec fn copies_for(k: int) -> int {
    104int / (13 * k)
}

/// The suits a Spider deck of `suit_count` suits is built from.
pub open spec fn spider_suits(suit_count: u8) -> Seq<Suit> {
    if suit_count == 1 {
        seq![Suit::Spades]
    } else if suit_count == 2 {
        seq![Suit::Spades, Suit::Hearts]
    } else {
        seq![Suit::Spades, Suit::Hearts, Suit::Diamonds, Suit::Clubs]
    }
}

/// Index arithmetic behind the deck loops: position `n` of the
/// `(copy, suit, rank)` triple `(d, s, r)` decomposes back into it.
proof fn lemma_deck_index(n: int, d: int, s: int, r: int, k: int)
    requires
        0 <= d,
        0 <= s < k,
        0 <= r < 13,
        n == (d * k + s) * 13 + r,
    ensures
        n / 13 == d * k + s,
        n % 13 == r,
        (n / 13) % k == s,
        n / (13 * k) == d,
{
    vstd::arithmetic::div_mod::lemma_fundamental_div_mod_converse(n, 13, d * k + s, r);
    vstd::arithmetic::div_mod::lemma_fundamental_div_mod_converse(d * k + s, k, d, s);
    assert(n == d * (13 * k) + (s * 13 + r) && 0 <= s * 13 + r < 13 * k) by (nonlinear_arith)
        requires
            n == (d * k + s) * 13 + r,
            0 <= s < k,
            0 <= r < 13,
    ;
    vstd::arithmetic::div_mod::lemma_fundamental_div_mod_converse(n, 13 * k, d, s * 13 + r);
}

/// 52 cards, all face-down, deck id 0, in the order Spades A..K,
/// Hearts A..K, Diamonds A..K, Clubs A..K.
pub fn standard_deck() -> (out: Vec<Card>)
    ensures
        out@ == standard_deck_spec(),
{
    let mut out: Vec<Card> = Vec::with_capacity(52);
    let mut s: usize = 0;
    while s < 4
        invariant
            s <= 4,
            out@.len() == s * 13,
            forall|j: int| 0 <= j < out@.len() ==> out@[j] == standard_card(j),
        decreases 4 - s,
    {
        let suit = Suit::from_index(s);
        let mut r: u8 = 0;
        while r < 13
            invariant
                s < 4,
                r <= 13,
                suit == suit_at(s as int),
                out@.len() == s * 13 + r,
                forall|j: int| 0 <= j < out@.len() ==> out@[j] == standard_card(j),
            decreases 13 - r,
        {
            proof {
                lemma_deck_index(out@.len() as int, 0, s as int, r as int, 4);
                lemma_rank_of_value(r + 1);
            }
            let rank = Rank::from_u8(r + 1).unwrap();
            out.push(Card::new(suit, rank));
            r = r + 1;
        }
        s = s + 1;
    }
    assert(out@ =~= standard_deck_spec());
    out
}

/// `standard_deck()` shuffled by a generator seeded with `seed`.
pub fn shuffled_seeded(seed: u64) -> (deck: Vec<Card>)
    ensures
        deck@.len() == 52,
        deck@.to_multiset() == standard_deck_spec().to_multiset(),
{
    let mut rng = rng_from_seed(seed);
    let mut deck = standard_deck();
    shuffle_cards(&mut deck, &mut rng);
    deck
}

/// A deck of `copies_for(suits.len())` copies of 13 ranks per suit in
/// `suits`, all face-down, each copy tagged with its own deck id.
pub fn multi_deck(suits: &[Suit]) -> (out: Vec<Card>)
    requires
        1 <= suits@.len() <= 8,
    ensures
        out@.len() == copies_for(suits@.len() as int) * 13 * suits@.len(),
        forall|j: int| 0 <= j < out@.len() ==> #[trigger] out@[j] == multi_deck_card(suits@, j),
{
    let k = suits.len();
    let copies = 104 / (k * 13);
    let mut out: Vec<Card> = Vec::with_capacity(104);
    let mut d: usize = 0;
    assert(copies * k * 13 <= 104) by (nonlinear_arith)
        requires
            copies == 104int / (k * 13),
            k >= 1,
    ;
    while d < copies
        invariant
            k == suits@.len(),
            1 <= k <= 8,
            copies == 104int / (k * 13),
            copies * k * 13 <= 104,
            d <= copies,
            out@.len() == d * k * 13,
            forall|j: int| 0 <= j < out@.len() ==> #[trigger] out@[j] == multi_deck_card(suits@, j),
        decreases copies - d,
    {
        let mut s: usize = 0;
        while s < k
            invariant
                k == suits@.len(),
                1 <= k <= 8,
                copies * k * 13 <= 104,
                d < copies,
                s <= k,
                out@.len() == (d * k + s) * 13,
                forall|j: int| 0 <= j < out@.len() ==> #[trigger] out@[j] == multi_deck_card(suits@, j),
            decreases k - s,
        {
            let suit = suits[s];
            let mut r: u8 = 0;
            while r < 13
                invariant
                    k == suits@.len(),
                    1 <= k <= 8,
                    copies * k * 13 <= 104,
                    d < copies,
                    s < k,
                    suit == suits@[s as int],
                    r <= 13,
                    out@.len() == (d * k + s) * 13 + r,
                    forall|j: int| 0 <= j < out@.len() ==> #[trigger] out@[j] == multi_deck_card(suits@, j),
                decreases 13 - r,
            {
                proof {
                    lemma_deck_index(out@.len() as int, d as int, s as int, r as int, k as int);
                    lemma_rank_of_value(r + 1);
                    assert(d * k * 13 + k * 13 <= copies * k * 13) by (nonlinear_arith)
                        requires
                            d < copies,
                            k >= 1,
                    ;
                    assert(out@.len() < 104) by (nonlinear_arith)
                        requires
                            out@.len() == (d * k + s) * 13 + r,
                            s < k,
                            r < 13,
                            d * k * 13 + k * 13 <= copies * k * 13,
                            copies * k * 13 <= 104,
                    ;
                }
                let rank = Rank::from_u8(r + 1).unwrap();
                let card = Card { suit, rank, face_up: false, deck_id: d as u8 };
                out.push(card);
                r = r + 1;
            }
            s = s + 1;
        }
        assert((d * k + k) * 13 == (d + 1) * k * 13) by (nonlinear_arith);
        d = d + 1;
    }
    assert(copies_for(k as int) == copies as int) by (nonlinear_arith)
        requires
            copies == 104int / (k * 13),
    ;
    assert(copies * k * 13 == copies_for(k as int) * 13 * k) by (nonlinear_arith)
        requires
            copies_for(k as int) == copies as int,
    ;
    out
}

/// Spider deck: 104 cards over 1, 2 or 4 suits (any other count means 4);
/// `deck_id` counts the copies so duplicate (suit, rank) pairs stay apart.
pub fn spider_deck(suit_count: u8) -> (out: Vec<Card>)
    ensures
        out@.len() == 104,
        forall|j: int| 0 <= j < 104 ==> #[trigger] out@[j] == multi_deck_card(spider_suits(suit_count), j),
{
    let suits: Vec<Suit> = if suit_count == 1 {
        vec![Suit::Spades]
    } else if suit_count == 2 {
        vec![Suit::Spades, Suit::Hearts]
    } else {
        vec![Suit::Spades, Suit::Hearts, Suit::Diamonds, Suit::Clubs]
    };
    assert(suits@ =~= spider_suits(suit_count));
    let out = multi_deck(suits.as_slice());
    assert(suits@.len() == 1 || suits@.len() == 2 || suits@.len() == 4);
    assert(104int / 13 == 8);
    assert(104int / 26 == 4);
    assert(104int / 52 == 2);
    assert(copies_for(1) * 13 * 1 == 104);
    assert(copies_for(2) * 13 * 2 == 104);
    assert(copies_for(4) * 13 * 4 == 104);
    out
}

} // verus!
