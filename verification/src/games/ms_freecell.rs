//! Microsoft FreeCell deal generator: reproduces the deal that Windows
//! FreeCell produced for game number `n`.
//!
//! 1. Seed the Microsoft C runtime `rand()` (a 31-bit LCG) with the game
//!    number: `state = (state * 214013 + 2531011) mod 2^31`, output
//!    `state >> 16`.
//! 2. Fill 52 card bytes in the order Ace of Clubs, Ace of Diamonds, Ace of
//!    Hearts, Ace of Spades, Two of Clubs, ..., King of Spades.
//! 3. For `cc` from 52 down to 1: `nc = rand() % cc`, swap `cc - 1` and `nc`.
//! 4. Deal row by row, eight cards per row, reading the deck from index 51
//!    downward: columns 0..3 get 7 cards, columns 4..7 get 6.

use vstd::prelude::*;

use crate::cards::card::Card;
use crate::cards::rank::Rank;
use crate::cards::suit::Suit;

verus! {

/// LCG state after `i` calls of `rand()` seeded with `seed`.
pub open spec fn ms_state(seed: u32, i: nat) -> int
    decreases i,
{
    if i == 0 {
        seed as int
    } else {
        (ms_state(seed, (i - 1) as nat) * 214013 + 2531011) % 0x8000_0000
    }
}

/// The `i`-th output of `rand()` seeded with `seed` (0-based).
pub open spec fn ms_rand(seed: u32, i: nat) -> int {
    ms_state(seed, i + 1) / 65536
}

/// Byte `p` of the unshuffled deck: rank index in the low nibble (Ace = 0),
/// suit index (Clubs, Diamonds, Hearts, Spades) in the high nibble.
pub open spec fn initial_byte(p: int) -> u8 {
    ((p / 4) + (p % 4) * 16) as u8
}

pub open spec fn initial_deck() -> Seq<u8> {
    Seq::new(52, |p: int| initial_byte(p))
}

/// `s` with positions `i` and `j` exchanged.
pub open spec fn swap_spec(s: Seq<u8>, i: int, j: int) -> Seq<u8> {
    s.update(i, s[j]).update(j, s[i])
}

/// The deck after the first `j` swap steps of the shuffle for `seed`.
#[verifier::opaque]
pub open spec fn ms_deck_after(seed: u32, j: nat) -> Seq<u8>
    decreases j,
{
    if j == 0 {
        initial_deck()
    } else {
        let prev = ms_deck_after(seed, (j - 1) as nat);
        let cc = 52 - (j - 1);
        let nc = ms_rand(seed, (j - 1) as nat) % cc;
        swap_spec(prev, cc - 1, nc)
    }
}

/// The fully shuffled deck for game `seed`.
pub open spec fn ms_shuffled(seed: u32) -> Seq<u8> {
    ms_deck_after(seed, 52)
}

pub open spec fn rank_from_idx_spec(i: int) -> Rank {
    crate::cards::rank::rank_of_value(i + 1).unwrap()
}

pub open spec fn suit_from_idx_spec(i: int) -> Suit {
    if i == 0 {
        Suit::Clubs
    } else if i == 1 {
        Suit::Diamonds
    } else if i == 2 {
        Suit::Hearts
    } else {
        Suit::Spades
    }
}

/// The face-up card a deck byte stands for.
pub open spec fn card_from_byte_spec(b: u8) -> Card {
    Card {
        suit: suit_from_idx_spec((b / 16) as int),
        rank: rank_from_idx_spec((b % 16) as int),
        face_up: true,
        deck_id: 0,
    }
}

/// A byte that stands for a card: rank index below 13, suit index below 4.
pub open spec fn valid_byte(b: u8) -> bool {
    b % 16 < 13 && b / 16 < 4
}

/// Number of cards column `c` receives.
pub open spec fn column_len(c: int) -> int {
    if c < 4 {
        7
    } else {
        6
    }
}

/// Column `c` of game `seed`, top card first.
pub open spec fn ms_column(seed: u32, c: int) -> Seq<Card> {
    Seq::new(column_len(c) as nat, |r: int| card_from_byte_spec(ms_shuffled(seed)[51 - (8 * r + c)]))
}

fn rank_from_idx(i: u8) -> (r: Rank)
    requires
        i < 13,
    ensures
        r == rank_from_idx_spec(i as int),
{
    match i {
        0 => Rank::Ace,
        1 => Rank::Two,
        2 => Rank::Three,
        3 => Rank::Four,
        4 => Rank::Five,
        5 => Rank::Six,
        6 => Rank::Seven,
        7 => Rank::Eight,
        8 => Rank::Nine,
        9 => Rank::Ten,
        10 => Rank::Jack,
        11 => Rank::Queen,
        _ => Rank::King,
    }
}

fn suit_from_idx(i: u8) -> (s: Suit)
    requires
        i < 4,
    ensures
        s == suit_from_idx_spec(i as int),
{
    match i {
        0 => Suit::Clubs,
        1 => Suit::Diamonds,
        2 => Suit::Hearts,
        _ => Suit::Spades,
    }
}

fn card_from_byte(b: u8) -> (c: Card)
    requires
        valid_byte(b),
    ensures
        c == card_from_byte_spec(b),
{
    let rank_idx = b % 16;
    let suit_idx = b / 16;
    Card::new(suit_from_idx(suit_idx), rank_from_idx(rank_idx)).face_up()
}

/// Microsoft C `rand()`: a 31-bit LCG seeded with the game number.
struct MsRand {
    state: u32,
    calls: Ghost<nat>,
    seed: Ghost<u32>,
}

impl MsRand {
    fn new(seed: u32) -> (r: MsRand)
        ensures
            r.calls@ == 0,
            r.seed@ == seed,
            r.state == ms_state(seed, 0),
    {
        MsRand { state: seed, calls: Ghost(0), seed: Ghost(seed) }
    }

    fn next(&mut self) -> (v: u32)
        requires
            old(self).state == ms_state(old(self).seed@, old(self).calls@),
        ensures
            final(self).seed@ == old(self).seed@,
            final(self).calls@ == old(self).calls@ + 1,
            final(self).state == ms_state(final(self).seed@, final(self).calls@),
            v == ms_rand(old(self).seed@, old(self).calls@),
            v < 0x8000,
    {
        let next = ((self.state as u64) * 214013 + 2531011) % 0x8000_0000;
        self.state = next as u32;
        proof {
            self.calls = Ghost((self.calls@ + 1) as nat);
        }
        next as u32 / 65536
    }
}

/// Exchanging two positions keeps the multiset of values.
proof fn lemma_swap_multiset(s: Seq<u8>, i: int, j: int)
    requires
        0 <= i < s.len(),
        0 <= j < s.len(),
    ensures
        swap_spec(s, i, j).to_multiset() == s.to_multiset(),
        swap_spec(s, i, j).len() == s.len(),
{
    broadcast use vstd::seq_lib::to_multiset_update, vstd::seq_lib::to_multiset_contains, vstd::multiset::group_multiset_axioms;
    let s1 = s.update(i, s[j]);
    assert(s.to_multiset().contains(s[i]));
    assert(s1.to_multiset() == s.to_multiset().insert(s[j]).remove(s[i]));
    assert(swap_spec(s, i, j).to_multiset() == s1.to_multiset().insert(s[i]).remove(s1[j]));
    if i == j {
        assert(swap_spec(s, i, j) =~= s);
    } else {
        assert(s1[j] == s[j]);
        let m = s.to_multiset();
        assert(m.count(s[i]) > 0);
        assert forall|x: u8| #[trigger] swap_spec(s, i, j).to_multiset().count(x) == m.count(x) by {
        }
        assert(swap_spec(s, i, j).to_multiset() =~= s.to_multiset());
    }
}

/// Every byte of the unshuffled deck stands for a card.
proof fn lemma_initial_valid(p: int)
    requires
        0 <= p < 52,
    ensures
        valid_byte(initial_byte(p)),
{
    assert(initial_byte(p) as int == p / 4 + (p % 4) * 16);
    vstd::arithmetic::div_mod::lemma_fundamental_div_mod_converse(initial_byte(p) as int, 16, p % 4, p / 4);
}

/// The shuffle is a permutation of the unshuffled deck, so the deal holds
/// every one of the 52 cards exactly once.
pub proof fn law_ms_shuffle_is_permutation(seed: u32, j: nat)
    requires
        j <= 52,
    ensures
        ms_deck_after(seed, j).len() == 52,
        ms_deck_after(seed, j).to_multiset() == initial_deck().to_multiset(),
    decreases j,
{
    reveal(ms_deck_after);
    if j > 0 {
        law_ms_shuffle_is_permutation(seed, (j - 1) as nat);
        let prev = ms_deck_after(seed, (j - 1) as nat);
        let cc = 52 - (j - 1);
        let nc = ms_rand(seed, (j - 1) as nat) % cc;
        lemma_swap_multiset(prev, cc - 1, nc);
    }
}

/// Swaps keep every position holding a byte of the unshuffled deck.
proof fn lemma_deck_after_valid(seed: u32, j: nat)
    requires
        j <= 52,
    ensures
        ms_deck_after(seed, j).len() == 52,
        forall|k: int| 0 <= k < 52 ==> valid_byte(#[trigger] ms_deck_after(seed, j)[k]),
    decreases j,
{
    reveal(ms_deck_after);
    if j == 0 {
        assert forall|k: int| 0 <= k < 52 implies valid_byte(#[trigger] ms_deck_after(seed, j)[k]) by {
            lemma_initial_valid(k);
        }
    } else {
        lemma_deck_after_valid(seed, (j - 1) as nat);
    }
}

/// The eight cascades of Microsoft FreeCell game `game_number`, top card of
/// each column first; columns 0..3 hold 7 cards, columns 4..7 hold 6.
pub fn deal_columns(game_number: u32) -> (cols: Vec<Vec<Card>>)
    ensures
        cols@.len() == 8,
        forall|c: int| 0 <= c < 8 ==> (#[trigger] cols@[c])@ == ms_column(game_number, c),
{
    let mut deck: Vec<u8> = Vec::with_capacity(52);
    let mut p: usize = 0;
    while p < 52
        invariant
            p <= 52,
            deck@ == initial_deck().subrange(0, p as int),
        decreases 52 - p,
    {
        let rank = (p / 4) as u8;
        let suit = (p % 4) as u8;
        assert(initial_deck().subrange(0, p + 1) =~= initial_deck().subrange(0, p as int).push(initial_byte(p as int)));
        deck.push(rank + suit * 16);
        p = p + 1;
    }
    assert(deck@ =~= ms_deck_after(game_number, 0)) by {
        reveal(ms_deck_after);
    }

    let mut state = MsRand::new(game_number);
    let mut cc: usize = 52;
    while cc > 0
        invariant
            cc <= 52,
            state.seed@ == game_number,
            state.calls@ == 52 - cc,
            state.state == ms_state(game_number, state.calls@),
            deck@ == ms_deck_after(game_number, (52 - cc) as nat),
            deck@.len() == 52,
        decreases cc,
    {
        let r = state.next();
        let nc = (r as usize) % cc;
        cc = cc - 1;
        let a = deck[cc];
        let b = deck[nc];
        deck.set(cc, b);
        deck.set(nc, a);
        proof {
            reveal(ms_deck_after);
            law_ms_shuffle_is_permutation(game_number, (52 - cc) as nat);
        }
    }
    proof {
        lemma_deck_after_valid(game_number, 52);
    }

    // Dealing row by row from index 51 down puts byte `51 - (8 * r + c)`
    // at row `r` of column `c`; build each column directly.
    let ghost sh = ms_shuffled(game_number);
    let mut columns: Vec<Vec<Card>> = Vec::new();
    let mut c: usize = 0;
    while c < 8
        invariant
            deck@ == sh,
            sh == ms_shuffled(game_number),
            sh.len() == 52,
            forall|k: int| 0 <= k < 52 ==> valid_byte(#[trigger] sh[k]),
            c <= 8,
            columns@.len() == c,
            forall|k: int| 0 <= k < c ==> (#[trigger] columns@[k])@ == ms_column(game_number, k),
        decreases 8 - c,
    {
        let n: usize = if c < 4 { 7 } else { 6 };
        let mut column: Vec<Card> = Vec::new();
        let mut r: usize = 0;
        while r < n
            invariant
                deck@ == sh,
                sh == ms_shuffled(game_number),
                sh.len() == 52,
                forall|k: int| 0 <= k < 52 ==> valid_byte(#[trigger] sh[k]),
                c < 8,
                n == column_len(c as int),
                r <= n,
                column@ == ms_column(game_number, c as int).subrange(0, r as int),
            decreases n - r,
        {
            let idx = 51 - (8 * r + c);
            let card = card_from_byte(deck[idx]);
            assert(card == ms_column(game_number, c as int)[r as int]);
            assert(ms_column(game_number, c as int).subrange(0, r + 1)
                =~= ms_column(game_number, c as int).subrange(0, r as int).push(card));
            column.push(card);
            r = r + 1;
        }
        assert(column@ =~= ms_column(game_number, c as int));
        columns.push(column);
        c = c + 1;
    }
    columns
}

} // verus!
