//! Bundled lists of winnable seeds and the pickers the deal pipeline uses
//! when "Winnable deals only" is on.
//!
//! FreeCell uses the Microsoft deal numbering, where every game of
//! `1..=1_000_000` but eight is winnable. Spider and Klondike read bundled
//! lists of little-endian `u64` seeds, eight bytes each; the lists ship
//! empty, and the pickers then fall back to the seed they were given.

use vstd::prelude::*;

use crate::rng::{gen_range_inclusive_u32, gen_range_usize, rng_from_seed};

verus! {

/// The Microsoft FreeCell game numbers known to be unwinnable.
pub const MS_FREECELL_UNWINNABLE_LIST: [u32; 8] = [
    11_982,
    146_692,
    186_216,
    455_889,
    495_505,
    512_118,
    517_776,
    781_948,
];

/// The single unwinnable game of the classic 32,000.
pub const MS_FREECELL_UNWINNABLE: u32 = 11_982;

/// The highest Microsoft FreeCell game number handed out.
pub const MS_FREECELL_MAX: u32 = 1_000_000;

/// The unwinnable game numbers, as a sequence.
pub open spec fn unwinnable_list() -> Seq<u32> {
    seq![11_982u32, 146_692, 186_216, 455_889, 495_505, 512_118, 517_776, 781_948]
}

/// Little-endian value of a byte sequence.
pub open spec fn le_value(b: Seq<u8>) -> nat
    decreases b.len(),
{
    if b.len() == 0 {
        0
    } else {
        b[0] as nat + 256 * le_value(b.drop_first())
    }
}

/// The seeds a byte list holds: one per full eight bytes, little-endian.
pub open spec fn decode_spec(bytes: Seq<u8>) -> Seq<u64> {
    Seq::new(bytes.len() / 8, |i: int| le_value(bytes.subrange(8 * i, 8 * i + 8)) as u64)
}

/// The bundled Spider seed file (it ships empty).
pub open spec fn spider_seed_bytes() -> Seq<u8> {
    Seq::empty()
}

/// The bundled Klondike seed file (it ships empty).
pub open spec fn klondike_seed_bytes() -> Seq<u8> {
    Seq::empty()
}

pub fn spider_seeds_bin() -> (b: Vec<u8>)
    ensures
        b@ == spider_seed_bytes(),
{
    Vec::new()
}

pub fn klondike_seeds_bin() -> (b: Vec<u8>)
    ensures
        b@ == klondike_seed_bytes(),
{
    Vec::new()
}

pub fn spider_seeds() -> (r: Vec<u64>)
    ensures
        r@ == decode_spec(spider_seed_bytes()),
{
    let b = spider_seeds_bin();
    decode_seeds(b.as_slice())
}

pub fn klondike_seeds() -> (r: Vec<u64>)
    ensures
        r@ == decode_spec(klondike_seed_bytes()),
{
    let b = klondike_seeds_bin();
    decode_seeds(b.as_slice())
}

proof fn lemma_le_value_split(b: Seq<u8>, k: int)
    requires
        0 <= k < b.len(),
    ensures
        le_value(b.subrange(k, b.len() as int)) == b[k] + 256 * le_value(b.subrange(k + 1, b.len() as int)),
{
    let s = b.subrange(k, b.len() as int);
    assert(s.drop_first() =~= b.subrange(k + 1, b.len() as int));
}

proof fn lemma_le_value_bound(b: Seq<u8>)
    ensures
        le_value(b) < pow256(b.len()),
    decreases b.len(),
{
    if b.len() > 0 {
        lemma_le_value_bound(b.drop_first());
        let v = le_value(b.drop_first());
        let q = pow256(b.drop_first().len());
        let x = b[0] as int;
        assert(x + 256 * v < 256 * q) by (nonlinear_arith)
            requires
                0 <= x < 256,
                0 <= v < q,
        ;
    }
}

/// `256` to the power `n`.
pub open spec fn pow256(n: nat) -> nat
    decreases n,
{
    if n == 0 {
        1
    } else {
        256 * pow256((n - 1) as nat)
    }
}

/// The little-endian `u64` in `bytes[8 * i .. 8 * i + 8]`.
fn read_le_u64(bytes: &[u8], i: usize) -> (v: u64)
    requires
        8 * i + 8 <= bytes@.len(),
    ensures
        v == le_value(bytes@.subrange(8 * i, 8 * i + 8)),
{
    let ghost chunk = bytes@.subrange(8 * i as int, 8 * i + 8);
    let len = bytes.len();
    assert(len == bytes@.len());
    let base = 8 * i;
    let mut v: u64 = 0;
    let mut k: usize = 8;
    proof {
        assert(chunk.subrange(8, 8).len() == 0);
        reveal_with_fuel(pow256, 9);
        lemma_le_value_bound(chunk);
    }
    while k > 0
        invariant
            base == 8 * i,
            base + 8 <= bytes@.len(),
            len == bytes@.len(),
            chunk == bytes@.subrange(base as int, base + 8),
            k <= 8,
            v == le_value(chunk.subrange(k as int, 8)),
            le_value(chunk) < 0x1_0000_0000_0000_0000,
        decreases k,
    {
        proof {
            lemma_le_value_split(chunk, k - 1);
            assert(chunk.subrange(k - 1, 8) =~= chunk.subrange(k - 1, chunk.len() as int));
            assert(chunk.subrange(k as int, 8) =~= chunk.subrange(k as int, chunk.len() as int));
            lemma_le_suffix(chunk, k - 1);
        }
        let b = bytes[base + k - 1];
        v = v * 256 + b as u64;
        k = k - 1;
    }
    assert(chunk.subrange(0, 8) =~= chunk);
    v
}

/// A suffix of a byte sequence is worth no more than the whole.
proof fn lemma_le_suffix(b: Seq<u8>, k: int)
    requires
        0 <= k <= b.len(),
    ensures
        le_value(b.subrange(k, b.len() as int)) <= le_value(b),
    decreases k,
{
    if k > 0 {
        let t = b.drop_first();
        lemma_le_suffix(t, k - 1);
        assert(t.subrange(k - 1, t.len() as int) =~= b.subrange(k, b.len() as int));
    } else {
        assert(b.subrange(0, b.len() as int) =~= b);
    }
}

/// The seeds of `bytes`: one little-endian `u64` per full eight bytes.
pub fn decode_seeds(bytes: &[u8]) -> (r: Vec<u64>)
    ensures
        r@ == decode_spec(bytes@),
{
    let n = bytes.len() / 8;
    let mut out: Vec<u64> = Vec::new();
    let mut i: usize = 0;
    while i < n
        invariant
            n == bytes@.len() / 8,
            i <= n,
            out@.len() == i,
            forall|j: int| 0 <= j < i ==> #[trigger] out@[j] == decode_spec(bytes@)[j],
        decreases n - i,
    {
        let v = read_le_u64(bytes, i);
        out.push(v);
        i = i + 1;
    }
    assert(out@ =~= decode_spec(bytes@));
    out
}

/// A seed of the seed file `bytes` (as read from disk or bundled), chosen
/// by a generator seeded with `fallback_seed`; `fallback_seed` itself when
/// `bytes` holds no seed.
pub fn pick_from(bytes: &[u8], fallback_seed: u64) -> (r: u64)
    ensures
        decode_spec(bytes@).len() == 0 ==> r == fallback_seed,
        decode_spec(bytes@).len() > 0 ==> decode_spec(bytes@).contains(r),
{
    let seeds = decode_seeds(bytes);
    if seeds.len() == 0 {
        return fallback_seed;
    }
    let mut rng = rng_from_seed(fallback_seed);
    let idx = gen_range_usize(&mut rng, 0, seeds.len());
    let r = seeds[idx];
    assert(decode_spec(bytes@)[idx as int] == r);
    r
}

/// A Spider seed from the bundled list, or `fallback_seed` while the list
/// is empty.
pub fn pick_spider_winnable(fallback_seed: u64) -> (r: u64)
    ensures
        decode_spec(spider_seed_bytes()).len() == 0 ==> r == fallback_seed,
        decode_spec(spider_seed_bytes()).len() > 0 ==> decode_spec(spider_seed_bytes()).contains(r),
{
    let b = spider_seeds_bin();
    pick_from(b.as_slice(), fallback_seed)
}

/// A Klondike seed from the bundled list, or `fallback_seed` while the
/// list is empty.
pub fn pick_klondike_winnable(fallback_seed: u64) -> (r: u64)
    ensures
        decode_spec(klondike_seed_bytes()).len() == 0 ==> r == fallback_seed,
        decode_spec(klondike_seed_bytes()).len() > 0 ==> decode_spec(klondike_seed_bytes()).contains(r),
{
    let b = klondike_seeds_bin();
    pick_from(b.as_slice(), fallback_seed)
}

/// Whether `n` is a known-unwinnable Microsoft FreeCell game.
pub fn is_ms_freecell_unwinnable(n: u32) -> (r: bool)
    ensures
        r == unwinnable_list().contains(n),
{
    let list = MS_FREECELL_UNWINNABLE_LIST;
    let mut i: usize = 0;
    while i < 8
        invariant
            list@ == unwinnable_list(),
            i <= 8,
            forall|j: int| 0 <= j < i ==> list@[j] != n,
        decreases 8 - i,
    {
        if list[i] == n {
            assert(unwinnable_list()[i as int] == n);
            return true;
        }
        i = i + 1;
    }
    false
}

/// A Microsoft FreeCell game number in `1..=MS_FREECELL_MAX` that is not
/// known to be unwinnable, drawn from a generator seeded with
/// `fallback_seed`; draws again on a blocklisted number. After `u32::MAX`
/// blocklisted draws in a row it settles on game 1.
pub fn pick_ms_freecell_winnable(fallback_seed: u64) -> (r: u32)
    ensures
        1 <= r <= MS_FREECELL_MAX,
        !unwinnable_list().contains(r),
{
    let mut rng = rng_from_seed(fallback_seed);
    let mut tries: u32 = 0;
    while tries < u32::MAX
        decreases u32::MAX - tries,
    {
        let n = gen_range_inclusive_u32(&mut rng, 1, MS_FREECELL_MAX);
        if !is_ms_freecell_unwinnable(n) {
            return n;
        }
        tries = tries + 1;
    }
    proof {
        assert(!unwinnable_list().contains(1u32)) by {
            if unwinnable_list().contains(1u32) {
                let j = choose|j: int| 0 <= j < 8 && unwinnable_list()[j] == 1u32;
            }
        }
    }
    1
}

} // verus!
