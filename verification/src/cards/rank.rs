//! Rank, Ace through King.

use vstd::prelude::*;

verus! {

#[derive(Clone, Copy, Debug, PartialEq, Eq, Hash, PartialOrd, Ord, Structural)]
pub enum Rank {
    Ace,
    Two,
    Three,
    Four,
    Five,
    Six,
    Seven,
    Eight,
    Nine,
    Ten,
    Jack,
    Queen,
    King,
}

/// Numeric value of a rank: Ace is 1, King is 13.
pub open spec fn rank_value(r: Rank) -> int {
    match r {
        Rank::Ace => 1,
        Rank::Two => 2,
        Rank::Three => 3,
        Rank::Four => 4,
        Rank::Five => 5,
        Rank::Six => 6,
        Rank::Seven => 7,
        Rank::Eight => 8,
        Rank::Nine => 9,
        Rank::Ten => 10,
        Rank::Jack => 11,
        Rank::Queen => 12,
        Rank::King => 13,
    }
}

/// Rank with value `n`, for `1 <= n <= 13`.
pub open spec fn rank_of_value(n: int) -> Option<Rank> {
    if n == 1 {
        Some(Rank::Ace)
    } else if n == 2 {
        Some(Rank::Two)
    } else if n == 3 {
        Some(Rank::Three)
    } else if n == 4 {
        Some(Rank::Four)
    } else if n == 5 {
        Some(Rank::Five)
    } else if n == 6 {
        Some(Rank::Six)
    } else if n == 7 {
        Some(Rank::Seven)
    } else if n == 8 {
        Some(Rank::Eight)
    } else if n == 9 {
        Some(Rank::Nine)
    } else if n == 10 {
        Some(Rank::Ten)
    } else if n == 11 {
        Some(Rank::Jack)
    } else if n == 12 {
        Some(Rank::Queen)
    } else if n == 13 {
        Some(Rank::King)
    } else {
        None
    }
}

/// The rank one below `r`, if any.
pub open spec fn rank_down(r: Rank) -> Option<Rank> {
    rank_of_value(rank_value(r) - 1)
}

/// The rank one above `r`, if any.
pub open spec fn rank_up(r: Rank) -> Option<Rank> {
    rank_of_value(rank_value(r) + 1)
}

/// Corner label of a rank.
pub open spec fn rank_label(r: Rank) -> Seq<char> {
    match r {
        Rank::Ace => seq!['A'],
        Rank::Two => seq!['2'],
        Rank::Three => seq!['3'],
        Rank::Four => seq!['4'],
        Rank::Five => seq!['5'],
        Rank::Six => seq!['6'],
        Rank::Seven => seq!['7'],
        Rank::Eight => seq!['8'],
        Rank::Nine => seq!['9'],
        Rank::Ten => seq!['1', '0'],
        Rank::Jack => seq!['J'],
        Rank::Queen => seq!['Q'],
        Rank::King => seq!['K'],
    }
}

/// Every rank has a value in 1..=13, and the value determines the rank.
pub proof fn lemma_rank_value(r: Rank)
    ensures
        1 <= rank_value(r) <= 13,
        rank_of_value(rank_value(r)) == Some(r),
{
}

/// `rank_of_value` is defined exactly on 1..=13 and inverts `rank_value` there.
pub proof fn lemma_rank_of_value(n: int)
    ensures
        rank_of_value(n) is Some <==> 1 <= n <= 13,
        rank_of_value(n) is Some ==> rank_value(rank_of_value(n).unwrap()) == n,
{
}

impl Rank {
    /// Every rank, Ace to King.
    pub const ALL: [Rank; 13] = [
        Rank::Ace,
        Rank::Two,
        Rank::Three,
        Rank::Four,
        Rank::Five,
        Rank::Six,
        Rank::Seven,
        Rank::Eight,
        Rank::Nine,
        Rank::Ten,
        Rank::Jack,
        Rank::Queen,
        Rank::King,
    ];
}

impl Rank {
    pub fn as_u8(self) -> (v: u8)
        ensures
            v == rank_value(self),
    {
        match self {
            Rank::Ace => 1,
            Rank::Two => 2,
            Rank::Three => 3,
            Rank::Four => 4,
            Rank::Five => 5,
            Rank::Six => 6,
            Rank::Seven => 7,
            Rank::Eight => 8,
            Rank::Nine => 9,
            Rank::Ten => 10,
            Rank::Jack => 11,
            Rank::Queen => 12,
            Rank::King => 13,
        }
    }

    pub fn from_u8(n: u8) -> (r: Option<Rank>)
        ensures
            r == rank_of_value(n as int),
    {
        match n {
            1 => Some(Rank::Ace),
            2 => Some(Rank::Two),
            3 => Some(Rank::Three),
            4 => Some(Rank::Four),
            5 => Some(Rank::Five),
            6 => Some(Rank::Six),
            7 => Some(Rank::Seven),
            8 => Some(Rank::Eight),
            9 => Some(Rank::Nine),
            10 => Some(Rank::Ten),
            11 => Some(Rank::Jack),
            12 => Some(Rank::Queen),
            13 => Some(Rank::King),
            _ => None,
        }
    }

    /// One-or-two-character label drawn on the card corner.
    pub fn label(self) -> (s: &'static str)
        ensures
            s@ == rank_label(self),
    {
        proof {
            reveal_strlit("A");
            reveal_strlit("2");
            reveal_strlit("3");
            reveal_strlit("4");
            reveal_strlit("5");
            reveal_strlit("6");
            reveal_strlit("7");
            reveal_strlit("8");
            reveal_strlit("9");
            reveal_strlit("10");
            reveal_strlit("J");
            reveal_strlit("Q");
            reveal_strlit("K");
        }
        match self {
            Rank::Ace => "A",
            Rank::Two => "2",
            Rank::Three => "3",
            Rank::Four => "4",
            Rank::Five => "5",
            Rank::Six => "6",
            Rank::Seven => "7",
            Rank::Eight => "8",
            Rank::Nine => "9",
            Rank::Ten => "10",
            Rank::Jack => "J",
            Rank::Queen => "Q",
            Rank::King => "K",
        }
    }

    /// The rank one above this one; `None` for King.
    pub fn next_up(self) -> (r: Option<Rank>)
        ensures
            r == rank_up(self),
    {
        Rank::from_u8(self.as_u8() + 1)
    }

    /// The rank one below this one; `None` for Ace.
    pub fn next_down(self) -> (r: Option<Rank>)
        ensures
            r == rank_down(self),
    {
        if self.as_u8() <= 1 {
            None
        } else {
            Rank::from_u8(self.as_u8() - 1)
        }
    }
}

/// Exec equality on ranks.
pub fn rank_eq(a: Rank, b: Rank) -> (r: bool)
    ensures
        r == (a == b),
{
    a == b
}

/// `o == Some(r)` on optional ranks.
pub fn opt_rank_is(o: Option<Rank>, r: Rank) -> (b: bool)
    ensures
        b == (o == Some(r)),
{
    match o {
        Some(x) => x == r,
        None => false,
    }
}

/// Going one rank up and then one rank down returns to the start.
pub proof fn law_rank_up_down(r: Rank)
    ensures
        rank_up(r) is Some ==> rank_down(rank_up(r).unwrap()) == Some(r),
        rank_down(r) is Some ==> rank_up(rank_down(r).unwrap()) == Some(r),
        rank_down(Rank::Ace) is None,
        rank_up(Rank::King) is None,
{
}

} // verus!
