//! The lines a winnable-seed sweep writes to its log: numbers in decimal,
//! the seed and the time right-aligned in fixed widths.

use vstd::prelude::*;

verus! {

/// The decimal digit `d` (below ten).
pub open spec fn digit_char(d: nat) -> char {
    if d == 0 {
        '0'
    } else if d == 1 {
        '1'
    } else if d == 2 {
        '2'
    } else if d == 3 {
        '3'
    } else if d == 4 {
        '4'
    } else if d == 5 {
        '5'
    } else if d == 6 {
        '6'
    } else if d == 7 {
        '7'
    } else if d == 8 {
        '8'
    } else {
        '9'
    }
}

/// `n` in decimal, without leading zeros.
pub open spec fn decimal(n: nat) -> Seq<char>
    decreases n,
{
    if n < 10 {
        seq![digit_char(n)]
    } else {
        decimal(n / 10).push(digit_char(n % 10))
    }
}

/// `s` padded on the left with spaces to `width` characters.
pub open spec fn right_aligned(s: Seq<char>, width: nat) -> Seq<char> {
    if s.len() >= width {
        s
    } else {
        Seq::new((width - s.len()) as nat, |i: int| ' ') + s
    }
}

/// `[label] starting sweep…`
pub open spec fn starting_text(label: Seq<char>) -> Seq<char> {
    "["@ + label + "] starting sweep…"@
}

/// `[label] resuming at seed N (existing winners: W)`
pub open spec fn resuming_text(label: Seq<char>, next_seed: nat, already_won: nat) -> Seq<char> {
    "["@ + label + "] resuming at seed "@ + decimal(next_seed) + " (existing winners: "@ + decimal(already_won)
        + ")"@
}

/// `[label] stopped at seed N`
pub open spec fn stopped_text(label: Seq<char>, next_seed: nat) -> Seq<char> {
    "["@ + label + "] stopped at seed "@ + decimal(next_seed)
}

/// `[label] target reached (W/T) — sweep complete`
pub open spec fn complete_text(label: Seq<char>, won: nat, target: nat) -> Seq<char> {
    "["@ + label + "] target reached ("@ + decimal(won) + "/"@ + decimal(target) + ") — sweep complete"@
}

/// `[label] seed SSSSSSSS word in MMMMM ms  (won W/lost L/timeout T)`, the
/// seed right-aligned in eight places and the time in five.
pub open spec fn outcome_text(
    label: Seq<char>,
    seed: nat,
    word: Seq<char>,
    ms: nat,
    won: nat,
    lost: nat,
    timed_out: nat,
) -> Seq<char> {
    "["@ + label + "] seed "@ + right_aligned(decimal(seed), 8) + " "@ + word + " in "@ + right_aligned(
        decimal(ms),
        5,
    ) + " ms  (won "@ + decimal(won) + "/lost "@ + decimal(lost) + "/timeout "@ + decimal(timed_out) + ")"@
}

fn digit_text(d: u8) -> (s: &'static str)
    requires
        d < 10,
    ensures
        s@ == seq![digit_char(d as nat)],
{
    if d == 0 {
        proof {
            reveal_strlit("0");
        }
        "0"
    } else if d == 1 {
        proof {
            reveal_strlit("1");
        }
        "1"
    } else if d == 2 {
        proof {
            reveal_strlit("2");
        }
        "2"
    } else if d == 3 {
        proof {
            reveal_strlit("3");
        }
        "3"
    } else if d == 4 {
        proof {
            reveal_strlit("4");
        }
        "4"
    } else if d == 5 {
        proof {
            reveal_strlit("5");
        }
        "5"
    } else if d == 6 {
        proof {
            reveal_strlit("6");
        }
        "6"
    } else if d == 7 {
        proof {
            reveal_strlit("7");
        }
        "7"
    } else if d == 8 {
        proof {
            reveal_strlit("8");
        }
        "8"
    } else {
        proof {
            reveal_strlit("9");
        }
        "9"
    }
}

/// Append `n` in decimal.
fn push_decimal(out: &mut String, n: u128)
    ensures
        final(out)@ == old(out)@ + decimal(n as nat),
    decreases n,
{
    let ghost start = out@;
    if n >= 10 {
        push_decimal(out, n / 10);
    }
    out.append(digit_text((n % 10) as u8));
    proof {
        if n >= 10 {
            assert(out@ =~= start + decimal(n as nat));
        } else {
            assert(out@ =~= start + decimal(n as nat));
        }
    }
}

/// Ten to the power `k`.
spec fn pow10(k: nat) -> nat
    decreases k,
{
    if k == 0 {
        1
    } else {
        10 * pow10((k - 1) as nat)
    }
}

/// A number below `10^j` has at most `j` digits.
proof fn lemma_decimal_len(n: nat, j: nat)
    requires
        j >= 1,
        n < pow10(j),
    ensures
        decimal(n).len() <= j,
    decreases j,
{
    if n >= 10 {
        if j == 1 {
            assert(pow10(1) == 10 * pow10(0));
        } else {
            assert(n / 10 < pow10((j - 1) as nat));
            lemma_decimal_len(n / 10, (j - 1) as nat);
        }
    }
}

/// Every `u128` is below `10^39`.
proof fn lemma_u128_below_pow10()
    ensures
        u128::MAX < pow10(39),
{
    reveal_with_fuel(pow10, 40);
}

/// The number of decimal digits of `n`.
fn decimal_len(n: u128) -> (k: usize)
    ensures
        k == decimal(n as nat).len(),
    decreases n,
{
    if n < 10 {
        1
    } else {
        let k = decimal_len(n / 10);
        proof {
            lemma_u128_below_pow10();
            lemma_decimal_len(n as nat, 39);
        }
        k + 1
    }
}

/// Append `n` in decimal, padded with spaces on the left to `width`.
fn push_right_aligned(out: &mut String, n: u128, width: usize)
    ensures
        final(out)@ == old(out)@ + right_aligned(decimal(n as nat), width as nat),
{
    let ghost start = out@;
    let k = decimal_len(n);
    let mut i: usize = k;
    while i < width
        invariant
            k == decimal(n as nat).len(),
            k <= i,
            i <= width || i == k,
            out@ == start + Seq::new((i - k) as nat, |j: int| ' '),
        decreases width - i,
    {
        out.append(" ");
        proof {
            reveal_strlit(" ");
            assert(out@ =~= start + Seq::new((i + 1 - k) as nat, |j: int| ' '));
        }
        i = i + 1;
    }
    push_decimal(out, n);
    proof {
        if k < width {
            assert(out@ =~= start + right_aligned(decimal(n as nat), width as nat));
        } else {
            assert(out@ =~= start + right_aligned(decimal(n as nat), width as nat));
        }
    }
}

/// The line a sweep logs when it starts.
pub fn starting_line(label: &str) -> (s: String)
    ensures
        s@ == starting_text(label@),
{
    let mut s = String::new();
    s.append("[");
    s.append(label);
    s.append("] starting sweep…");
    s
}

/// The line a sweep logs when it resumes.
pub fn resuming_line(label: &str, next_seed: u64, already_won: u64) -> (s: String)
    ensures
        s@ == resuming_text(label@, next_seed as nat, already_won as nat),
{
    let mut s = String::new();
    s.append("[");
    s.append(label);
    s.append("] resuming at seed ");
    push_decimal(&mut s, next_seed as u128);
    s.append(" (existing winners: ");
    push_decimal(&mut s, already_won as u128);
    s.append(")");
    s
}

/// The line a sweep logs when it is stopped.
pub fn stopped_line(label: &str, next_seed: u64) -> (s: String)
    ensures
        s@ == stopped_text(label@, next_seed as nat),
{
    let mut s = String::new();
    s.append("[");
    s.append(label);
    s.append("] stopped at seed ");
    push_decimal(&mut s, next_seed as u128);
    s
}

/// The line a sweep logs when it reaches its target.
pub fn complete_line(label: &str, won: u64, target: u64) -> (s: String)
    ensures
        s@ == complete_text(label@, won as nat, target as nat),
{
    let mut s = String::new();
    s.append("[");
    s.append(label);
    s.append("] target reached (");
    push_decimal(&mut s, won as u128);
    s.append("/");
    push_decimal(&mut s, target as u128);
    s.append(") — sweep complete");
    s
}

/// The line a sweep logs for one seed's outcome.
pub fn outcome_line(label: &str, seed: u64, word: &str, ms: u128, won: u64, lost: u64, timed_out: u64) -> (s: String)
    ensures
        s@ == outcome_text(label@, seed as nat, word@, ms as nat, won as nat, lost as nat, timed_out as nat),
{
    let mut s = String::new();
    s.append("[");
    s.append(label);
    s.append("] seed ");
    push_right_aligned(&mut s, seed as u128, 8);
    s.append(" ");
    s.append(word);
    s.append(" in ");
    push_right_aligned(&mut s, ms, 5);
    s.append(" ms  (won ");
    push_decimal(&mut s, won as u128);
    s.append("/lost ");
    push_decimal(&mut s, lost as u128);
    s.append("/timeout ");
    push_decimal(&mut s, timed_out as u128);
    s.append(")");
    s
}

} // verus!
