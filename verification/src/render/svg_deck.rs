//! The card sprites cut from the bundled deck artwork: a 13 x 5 grid of
//! cards (rows Spades, Hearts, Diamonds, Clubs, then backs and jokers).
//!
//! Rasterizing a grid cell is the renderer's job; this module prepares the
//! artwork (inflated from its gzip file, its opaque felt background made
//! transparent), says which cell holds which card, and finishes a
//! rasterized cell: an optional LCD subpixel collapse from a triple-width
//! raster, then a one-pixel dark outline along the card's alpha silhouette.

use vstd::prelude::*;

use std::io::Read;

use flate2::read::GzDecoder;

use crate::cards::rank::{rank_value, Rank};
use crate::cards::suit::Suit;

verus! {

/// Card grid of the deck artwork.
pub const COLS: u32 = 13;
pub const ROWS: u32 = 5;

/// Alpha from which a pixel belongs to the card.
pub const ALPHA_THRESHOLD: u8 = 16;

/// Card-sized renderer settings for the bundled deck.
pub struct DeckBitmap {
    pub card_px_w: u32,
    pub card_px_h: u32,
    /// Rasterize at triple width and collapse per colour channel.
    pub lcd_subpixel: bool,
}

impl DeckBitmap {
    /// Plain rasterization, one source pixel per output pixel.
    pub fn build(card_px_w: u32, card_px_h: u32) -> (d: DeckBitmap)
        ensures
            d.card_px_w == card_px_w,
            d.card_px_h == card_px_h,
            !d.lcd(),
    {
        DeckBitmap { card_px_w, card_px_h, lcd_subpixel: false }
    }

    /// LCD-subpixel rasterization for RGB-stripe displays: a triple-width
    /// raster collapsed per colour channel.
    pub fn build_lcd(card_px_w: u32, card_px_h: u32) -> (d: DeckBitmap)
        ensures
            d.card_px_w == card_px_w,
            d.card_px_h == card_px_h,
            d.lcd(),
    {
        DeckBitmap { card_px_w, card_px_h, lcd_subpixel: true }
    }

    pub open spec fn lcd(&self) -> bool {
        self.lcd_subpixel
    }

    pub fn lcd_subpixel(&self) -> (r: bool)
        ensures
            r == self.lcd(),
    {
        self.lcd_subpixel
    }

    /// Width the raster of one card must have: triple for LCD builds.
    pub fn raster_width(&self) -> (w: u64)
        ensures
            w == (if self.lcd() { 3 * self.card_px_w } else { self.card_px_w as int }),
    {
        if self.lcd_subpixel {
            3 * (self.card_px_w as u64)
        } else {
            self.card_px_w as u64
        }
    }

    /// Finish the raster of one card (RGBA8, straight alpha, top-down
    /// rows of `raster_width` pixels): collapse it when the build is LCD,
    /// then outline the card.
    pub fn finish_sprite(&self, raster: Vec<u8>) -> (out: Vec<u8>)
        requires
            3 * self.card_px_w <= u32::MAX,
            raster@.len() == (if self.lcd() { 3 * self.card_px_w } else { self.card_px_w as int }) * self.card_px_h * 4,
        ensures
            out@ == bordered(
                if self.lcd() {
                    collapsed(raster@, 3 * self.card_px_w, self.card_px_h as int, self.card_px_w as int)
                } else {
                    raster@
                },
                self.card_px_w as int,
                self.card_px_h as int,
            ),
    {
        let w = self.card_px_w;
        let h = self.card_px_h;
        let mut out = if self.lcd_subpixel {
            lcd_subpixel_collapse(raster.as_slice(), 3 * w, h, w)
        } else {
            raster
        };
        paint_one_pixel_card_border(&mut out, w, h);
        out
    }
}

/// The opaque felt background of the deck artwork: the style text
/// `fill:#55aa55;fill-opacity:1`.
pub const BACKGROUND_FILL: [u8; 27] = [
    102, 105, 108, 108, 58, 35, 53, 53, 97, 97, 53, 53, 59, 102, 105, 108, 108, 45, 111, 112, 97, 99, 105, 116, 121, 58,
    49,
];

/// Index of the opacity digit within [`BACKGROUND_FILL`].
pub const OPACITY_DIGIT: usize = 26;

/// The background style text starts at `pos` of `s`.
pub open spec fn fill_at(s: Seq<u8>, pos: int) -> bool {
    &&& 0 <= pos
    &&& pos + 27 <= s.len()
    &&& s.subrange(pos, pos + 27) == BACKGROUND_FILL@
}

/// `pos` is the first place the background style text starts.
pub open spec fn first_fill_at(s: Seq<u8>, pos: int) -> bool {
    &&& fill_at(s, pos)
    &&& forall|q: int| 0 <= q < pos ==> !fill_at(s, q)
}

/// The artwork with the felt made transparent: the opacity digit of the
/// first background style text turned from `1` to `0` (same length, so
/// nothing else moves); unchanged when there is none.
pub open spec fn without_background(s: Seq<u8>) -> Seq<u8> {
    if exists|pos: int| first_fill_at(s, pos) {
        let pos = choose|pos: int| first_fill_at(s, pos);
        s.update(pos + OPACITY_DIGIT, 48u8)
    } else {
        s
    }
}

/// Make the artwork's felt background transparent (see
/// `without_background`).
pub fn strip_background(svg: &[u8]) -> (out: Vec<u8>)
    ensures
        out@ == without_background(svg@),
{
    let needle = BACKGROUND_FILL;
    let n = svg.len();
    let mut out: Vec<u8> = Vec::new();
    let mut k: usize = 0;
    while k < n
        invariant
            n == svg@.len(),
            k <= n,
            out@ == svg@.subrange(0, k as int),
        decreases n - k,
    {
        out.push(svg[k]);
        k = k + 1;
    }
    assert(out@ =~= svg@);
    if n < 27 {
        assert forall|pos: int| !first_fill_at(svg@, pos) by {}
        return out;
    }
    let mut i: usize = 0;
    while i <= n - 27
        invariant
            n == svg@.len(),
            n >= 27,
            i <= n - 26,
            out@ == svg@,
            needle@ == BACKGROUND_FILL@,
            forall|q: int| 0 <= q < i ==> !fill_at(svg@, q),
        decreases n - i,
    {
        let mut j: usize = 0;
        let mut same = true;
        while j < 27
            invariant
                n == svg@.len(),
                i + 27 <= n,
                j <= 27,
                needle@ == BACKGROUND_FILL@,
                same == (forall|t: int| 0 <= t < j ==> svg@[i + t] == needle@[t]),
            decreases 27 - j,
        {
            if svg[i + j] != needle[j] {
                same = false;
            }
            j = j + 1;
        }
        if same {
            assert(svg@.subrange(i as int, i + 27) =~= BACKGROUND_FILL@);
            assert(first_fill_at(svg@, i as int));
            proof {
                let p = choose|pos: int| first_fill_at(svg@, pos);
                assert(p == i as int) by {
                    if p < i {
                        assert(!fill_at(svg@, p));
                    } else if p > i {
                        assert(fill_at(svg@, i as int));
                    }
                }
            }
            out.set(i + OPACITY_DIGIT, 48);
            return out;
        }
        assert(!fill_at(svg@, i as int)) by {
            if fill_at(svg@, i as int) {
                let t = choose|t: int| 0 <= t < 27 && svg@[i + t] != needle@[t];
                assert(svg@.subrange(i as int, i + 27)[t] == svg@[i + t]);
            }
        }
        i = i + 1;
    }
    assert forall|pos: int| !first_fill_at(svg@, pos) by {
        if 0 <= pos && pos + 27 <= n {
            assert(pos < i);
        }
    }
    out
}

/// Name for what `flate2`'s `GzDecoder` reads out of `bytes` to the end:
/// the decompressed bytes, or `None` when decoding fails.
pub uninterp spec fn gunzip(bytes: Seq<u8>) -> Option<Seq<u8>>;

/// Calls `flate2::read::GzDecoder::new(bytes).read_to_end`. Claimed: the
/// result is `gunzip(bytes)`; `None` stands for a decoding error.
#[verifier::external_body]
fn inflate_gzip(bytes: &[u8]) -> (r: Option<Vec<u8>>)
    ensures
        match r {
            Some(v) => gunzip(bytes@) == Some(v@),
            None => gunzip(bytes@) is None,
        },
{
    let mut out = Vec::new();
    match GzDecoder::new(bytes).read_to_end(&mut out) {
        Ok(_) => Some(out),
        Err(_) => None,
    }
}

/// The deck artwork from its gzipped file: inflated, its felt background
/// made transparent; `None` when the file does not decompress.
pub fn deck_artwork(gz: &[u8]) -> (r: Option<Vec<u8>>)
    ensures
        match gunzip(gz@) {
            Some(raw) => r matches Some(v) && v@ == without_background(raw),
            None => r is None,
        },
{
    match inflate_gzip(gz) {
        Some(raw) => Some(strip_background(raw.as_slice())),
        None => None,
    }
}

/// Grid cell `(row, col)` of a card: the suit's row, the rank's column.
pub open spec fn position_spec(suit: Suit, rank: Rank) -> (u32, u32) {
    let row: u32 = match suit {
        Suit::Spades => 0,
        Suit::Hearts => 1,
        Suit::Diamonds => 2,
        Suit::Clubs => 3,
    };
    (row, (rank_value(rank) - 1) as u32)
}

pub fn position_for(suit: Suit, rank: Rank) -> (r: (u32, u32))
    ensures
        r == position_spec(suit, rank),
        r.0 < ROWS,
        r.1 < COLS,
{
    let row: u32 = match suit {
        Suit::Spades => 0,
        Suit::Hearts => 1,
        Suit::Diamonds => 2,
        Suit::Clubs => 3,
    };
    let col = (rank.as_u8() as u32) - 1;
    (row, col)
}

/// Grid cell of the default card back (the blue interlace pattern).
pub fn back_position() -> (r: (u32, u32))
    ensures
        r == (4u32, 4u32),
{
    (4, 4)
}

/// Column `s` clamped into `0..w`.
pub open spec fn clamp_col(s: int, w: int) -> int {
    if s < 0 {
        0
    } else if s > w - 1 {
        w - 1
    } else {
        s
    }
}

/// Channel `ch` of source pixel `(sub, y)`, the column clamped to the row.
pub open spec fn sample_spec(src: Seq<u8>, src_w: int, y: int, sub: int, ch: int) -> int {
    src[(y * src_w + clamp_col(sub, src_w)) * 4 + ch] as int
}

/// The `[1, 4, 7, 4, 1]` filter centred on column `c`.
pub open spec fn filtered(src: Seq<u8>, src_w: int, y: int, c: int, ch: int) -> int {
    sample_spec(src, src_w, y, c - 2, ch) + 4 * sample_spec(src, src_w, y, c - 1, ch)
        + 7 * sample_spec(src, src_w, y, c, ch) + 4 * sample_spec(src, src_w, y, c + 1, ch)
        + sample_spec(src, src_w, y, c + 2, ch)
}

/// Output channel `ch` of pixel `(x, y)`: red, green and blue filtered
/// around subcolumns `3x`, `3x + 1`, `3x + 2`, alpha around `3x + 1`;
/// divided by 17, rounded, capped at 255.
pub open spec fn collapse_byte(src: Seq<u8>, src_w: int, y: int, x: int, ch: int) -> u8 {
    let c = 3 * x + (if ch == 3 { 1 } else { ch });
    let v = (filtered(src, src_w, y, c, ch) + 8) / 17;
    (if v > 255 { 255 } else { v }) as u8
}

/// The collapsed image, row-major, four bytes per pixel.
pub open spec fn collapsed(src: Seq<u8>, src_w: int, h: int, out_w: int) -> Seq<u8> {
    Seq::new((out_w * h * 4) as nat, |i: int| collapse_byte(src, src_w, i / 4 / out_w, i / 4 % out_w, i % 4))
}

proof fn lemma_index_bounds(y: int, x: int, w: int, h: int)
    requires
        0 <= y < h,
        0 <= x < w,
    ensures
        0 <= y * w + x < w * h,
        (y * w + x) * 4 + 3 < w * h * 4,
        0 <= y * w,
{
    assert(y * w + x < w * h) by (nonlinear_arith)
        requires
            0 <= y < h,
            0 <= x < w,
    ;
    assert(0 <= y * w) by (nonlinear_arith)
        requires
            0 <= y,
            0 <= w,
    ;
}

proof fn lemma_index_decompose(y: int, x: int, w: int, c: int)
    requires
        0 <= y,
        0 <= x < w,
        0 <= c < 4,
    ensures
        ((y * w + x) * 4 + c) / 4 / w == y,
        ((y * w + x) * 4 + c) / 4 % w == x,
        ((y * w + x) * 4 + c) % 4 == c,
{
    let i = (y * w + x) * 4 + c;
    assert(i / 4 == y * w + x);
    assert((y * w + x) / w == y && (y * w + x) % w == x) by (nonlinear_arith)
        requires
            0 <= y,
            0 <= x < w,
    ;
}

/// Every sample of a raster in which each pixel has channels `color` is
/// that colour's channel.
proof fn lemma_uniform_sample(src: Seq<u8>, src_w: int, h: int, color: Seq<u8>, y: int, sub: int, ch: int)
    requires
        src_w > 0,
        0 <= y < h,
        0 <= ch < 4,
        color.len() == 4,
        src.len() == src_w * h * 4,
        forall|i: int| 0 <= i < src.len() ==> #[trigger] src[i] == color[i % 4],
    ensures
        sample_spec(src, src_w, y, sub, ch) == color[ch] as int,
{
    let k = clamp_col(sub, src_w);
    lemma_index_bounds(y, k, src_w, h);
    lemma_index_decompose(y, k, src_w, ch);
}

/// A raster of one uniform colour collapses to that same colour: the
/// filter's weights sum to its divisor, so every channel comes out as it
/// went in.
pub proof fn law_uniform_collapse_unchanged(src: Seq<u8>, out_w: int, h: int, color: Seq<u8>)
    requires
        out_w > 0,
        h >= 0,
        color.len() == 4,
        src.len() == 3 * out_w * h * 4,
        forall|i: int| 0 <= i < src.len() ==> #[trigger] src[i] == color[i % 4],
    ensures
        collapsed(src, 3 * out_w, h, out_w).len() == out_w * h * 4,
        forall|i: int| 0 <= i < out_w * h * 4 ==> #[trigger] collapsed(src, 3 * out_w, h, out_w)[i] == color[i % 4],
{
    let src_w = 3 * out_w;
    assert(src.len() == src_w * h * 4) by (nonlinear_arith)
        requires
            src.len() == 3 * out_w * h * 4,
            src_w == 3 * out_w,
    ;
    assert(out_w * h * 4 >= 0) by (nonlinear_arith)
        requires
            out_w > 0,
            h >= 0,
    ;
    assert forall|i: int| 0 <= i < out_w * h * 4 implies #[trigger] collapsed(src, src_w, h, out_w)[i] == color[i % 4] by {
        let x = i / 4 % out_w;
        let y = i / 4 / out_w;
        let ch = i % 4;
        assert(0 <= y < h) by (nonlinear_arith)
            requires
                0 <= i < out_w * h * 4,
                out_w > 0,
                y == i / 4 / out_w,
        ;
        let c = 3 * x + (if ch == 3 { 1 } else { ch });
        lemma_uniform_sample(src, src_w, h, color, y, c - 2, ch);
        lemma_uniform_sample(src, src_w, h, color, y, c - 1, ch);
        lemma_uniform_sample(src, src_w, h, color, y, c, ch);
        lemma_uniform_sample(src, src_w, h, color, y, c + 1, ch);
        lemma_uniform_sample(src, src_w, h, color, y, c + 2, ch);
        let v = color[ch] as int;
        assert(filtered(src, src_w, y, c, ch) == 17 * v);
        assert((17 * v + 8) / 17 == v);
    }
}

/// Collapse a triple-width RGBA raster into a normal-width one, sampling
/// each colour channel around its own subcolumn through a `[1, 4, 7, 4, 1]`
/// low-pass filter.
pub fn lcd_subpixel_collapse(src: &[u8], src_w: u32, h: u32, out_w: u32) -> (out: Vec<u8>)
    requires
        src_w == 3 * out_w,
        src@.len() == src_w * h * 4,
    ensures
        out@ == collapsed(src@, src_w as int, h as int, out_w as int),
{
    let ghost sw = src_w as int;
    let ghost hh = h as int;
    let ghost ow = out_w as int;
    let n = src.len();
    assert(n == src@.len());
    let mut out: Vec<u8> = Vec::new();
    let mut y: u32 = 0;
    while y < h
        invariant
            sw == src_w as int,
            hh == h as int,
            ow == out_w as int,
            src_w == 3 * out_w,
            src@.len() == src_w * h * 4,
            src@.len() <= usize::MAX,
            y <= h,
            out@.len() == (y * out_w) * 4,
            forall|i: int| 0 <= i < out@.len() ==> #[trigger] out@[i] == collapse_byte(src@, sw, i / 4 / ow, i / 4 % ow, i % 4),
        decreases h - y,
    {
        let mut x: u32 = 0;
        while x < out_w
            invariant
                sw == src_w as int,
                hh == h as int,
                ow == out_w as int,
                src_w == 3 * out_w,
                src@.len() == src_w * h * 4,
                src@.len() <= usize::MAX,
                y < h,
                x <= out_w,
                out@.len() == (y * out_w + x) * 4,
                forall|i: int| 0 <= i < out@.len() ==> #[trigger] out@[i] == collapse_byte(src@, sw, i / 4 / ow, i / 4 % ow, i % 4),
            decreases out_w - x,
        {
            let mut ch: usize = 0;
            while ch < 4
                invariant
                    sw == src_w as int,
                    hh == h as int,
                    ow == out_w as int,
                    src_w == 3 * out_w,
                    src@.len() == src_w * h * 4,
                    src@.len() <= usize::MAX,
                    y < h,
                    x < out_w,
                    ch <= 4,
                    out@.len() == (y * out_w + x) * 4 + ch,
                    forall|i: int| 0 <= i < out@.len() ==> #[trigger] out@[i] == collapse_byte(src@, sw, i / 4 / ow, i / 4 % ow, i % 4),
                decreases 4 - ch,
            {
                let center: u64 = 3 * (x as u64) + (if ch == 3 { 1 } else { ch as u64 });
                let mut acc: u64 = 0;
                let mut k: u64 = 0;
                while k < 5
                    invariant
                        sw == src_w as int,
                        hh == h as int,
                        src_w == 3 * out_w,
                        src@.len() == src_w * h * 4,
                        src@.len() <= usize::MAX,
                        y < h,
                        x < out_w,
                        ch < 4,
                        center == 3 * x + (if ch == 3 { 1 } else { ch as int }),
                        k <= 5,
                        acc == partial_filter(src@, sw, y as int, center as int, ch as int, k as int),
                        acc <= 255 * 7 * k,
                    decreases 5 - k,
                {
                    let weight: u64 = if k == 0 || k == 4 {
                        1
                    } else if k == 2 {
                        7
                    } else {
                        4
                    };
                    let sub: i64 = center as i64 + k as i64 - 2;
                    let s: u64 = if sub < 0 {
                        0
                    } else if sub > src_w as i64 - 1 {
                        src_w as u64 - 1
                    } else {
                        sub as u64
                    };
                    proof {
                        lemma_index_bounds(y as int, s as int, sw, hh);
                        lemma_u32_product(y, src_w);
                    }
                    let idx = ((y as u64 * src_w as u64 + s) * 4 + ch as u64) as usize;
                    let v = src[idx] as u64;
                    acc = acc + weight * v;
                    k = k + 1;
                }
                let q = (acc + 8) / 17;
                let b: u8 = if q > 255 {
                    255
                } else {
                    q as u8
                };
                proof {
                    lemma_index_decompose(y as int, x as int, ow, ch as int);
                    reveal_with_fuel(partial_filter, 6);
                    assert(acc == filtered(src@, sw, y as int, center as int, ch as int));
                }
                out.push(b);
                ch = ch + 1;
            }
            x = x + 1;
        }
        assert((y as int) * ow + ow == (y as int + 1) * ow) by (nonlinear_arith);
        y = y + 1;
    }
    proof {
        assert(hh * ow == ow * hh) by (nonlinear_arith);
        assert forall|i: int| 0 <= i < out@.len() implies #[trigger] out@[i] == collapsed(src@, sw, hh, ow)[i] by {
        }
        assert(out@ =~= collapsed(src@, sw, hh, ow));
    }
    out
}

/// The filter sum over the first `k` taps.
pub open spec fn partial_filter(src: Seq<u8>, src_w: int, y: int, c: int, ch: int, k: int) -> int
    decreases k,
{
    if k <= 0 {
        0
    } else {
        partial_filter(src, src_w, y, c, ch, k - 1)
            + (if k - 1 == 0 || k - 1 == 4 { 1int } else if k - 1 == 2 { 7int } else { 4int }) * sample_spec(src, src_w, y, c + k - 3, ch)
    }
}

/// Pixel `(x, y)` of `pixels` belongs to the card: alpha at least 16.
pub open spec fn belongs(pixels: Seq<u8>, w: int, x: int, y: int) -> bool {
    pixels[(y * w + x) * 4 + 3] >= ALPHA_THRESHOLD
}

/// A card pixel on the image edge or next to a non-card pixel (of the
/// eight around it).
pub open spec fn on_border(pixels: Seq<u8>, w: int, h: int, x: int, y: int) -> bool {
    &&& belongs(pixels, w, x, y)
    &&& {
        ||| x == 0 || y == 0 || x + 1 == w || y + 1 == h
        ||| !belongs(pixels, w, x - 1, y - 1) || !belongs(pixels, w, x, y - 1) || !belongs(pixels, w, x + 1, y - 1)
        ||| !belongs(pixels, w, x - 1, y) || !belongs(pixels, w, x + 1, y)
        ||| !belongs(pixels, w, x - 1, y + 1) || !belongs(pixels, w, x, y + 1) || !belongs(pixels, w, x + 1, y + 1)
    }
}

/// The image with its card outline painted: border pixels black, their
/// alpha raised to at least `0xcc`; every other byte unchanged.
pub open spec fn bordered(pixels: Seq<u8>, w: int, h: int) -> Seq<u8> {
    Seq::new(pixels.len(), |i: int| {
        let x = i / 4 % w;
        let y = i / 4 / w;
        let c = i % 4;
        if w > 0 && h > 0 && i < w * h * 4 && on_border(pixels, w, h, x, y) {
            if c < 3 {
                0u8
            } else if pixels[i] > 0xcc {
                pixels[i]
            } else {
                0xccu8
            }
        } else {
            pixels[i]
        }
    })
}

/// Paint a one-pixel dark outline along the card's alpha silhouette.
pub fn paint_one_pixel_card_border(pixels: &mut Vec<u8>, w: u32, h: u32)
    requires
        old(pixels)@.len() == w * h * 4,
    ensures
        final(pixels)@ == bordered(old(pixels)@, w as int, h as int),
{
    let ghost old_px = pixels@;
    if w == 0 || h == 0 {
        proof {
            assert(pixels@ =~= bordered(old_px, w as int, h as int));
        }
        return;
    }
    let src = pixels.clone();
    assert(src@ == old_px);
    let n = src.len();
    assert(n == src@.len());
    let ghost ww = w as int;
    let ghost hh = h as int;
    let mut y: u32 = 0;
    while y < h
        invariant
            ww == w as int,
            hh == h as int,
            src@ == old_px,
            old_px.len() == w * h * 4,
            old_px.len() <= usize::MAX,
            pixels@.len() == old_px.len(),
            w > 0,
            h > 0,
            y <= h,
            forall|i: int| 0 <= i < pixels@.len() ==> #[trigger] pixels@[i] == (if i < (y * w) * 4 {
                bordered(old_px, ww, hh)[i]
            } else {
                old_px[i]
            }),
        decreases h - y,
    {
        let mut x: u32 = 0;
        while x < w
            invariant
                ww == w as int,
                hh == h as int,
                src@ == old_px,
                old_px.len() == w * h * 4,
                old_px.len() <= usize::MAX,
                pixels@.len() == old_px.len(),
                w > 0,
                h > 0,
                y < h,
                x <= w,
                forall|i: int| 0 <= i < pixels@.len() ==> #[trigger] pixels@[i] == (if i < (y * w + x) * 4 {
                    bordered(old_px, ww, hh)[i]
                } else {
                    old_px[i]
                }),
            decreases w - x,
        {
            proof {
                lemma_index_bounds(y as int, x as int, ww, hh);
                lemma_u32_product(y, w);
            }
            let i = ((y as u64 * w as u64 + x as u64) * 4) as usize;
            if src[i + 3] >= ALPHA_THRESHOLD {
                let mut boundary = x == 0 || y == 0 || x + 1 == w || y + 1 == h;
                if !boundary {
                    boundary = !pixel_belongs(&src, w, h, x - 1, y - 1) || !pixel_belongs(&src, w, h, x, y - 1)
                        || !pixel_belongs(&src, w, h, x + 1, y - 1) || !pixel_belongs(&src, w, h, x - 1, y)
                        || !pixel_belongs(&src, w, h, x + 1, y) || !pixel_belongs(&src, w, h, x - 1, y + 1)
                        || !pixel_belongs(&src, w, h, x, y + 1) || !pixel_belongs(&src, w, h, x + 1, y + 1);
                }
                proof {
                    assert(boundary == on_border(old_px, ww, hh, x as int, y as int));
                }
                if boundary {
                    let a = src[i + 3];
                    pixels.set(i, 0);
                    pixels.set(i + 1, 0);
                    pixels.set(i + 2, 0);
                    pixels.set(i + 3, if a > 0xcc { a } else { 0xcc });
                }
            }
            proof {
                assert forall|j: int| 0 <= j < pixels@.len() implies #[trigger] pixels@[j] == (if j < (y * w + x + 1) * 4 {
                    bordered(old_px, ww, hh)[j]
                } else {
                    old_px[j]
                }) by {
                    if i <= j < i + 4 {
                        lemma_index_decompose(y as int, x as int, ww, j - i);
                    }
                }
            }
            x = x + 1;
        }
        assert((y as int) * ww + ww == (y as int + 1) * ww) by (nonlinear_arith);
        y = y + 1;
    }
    proof {
        assert(hh * ww == ww * hh) by (nonlinear_arith);
        assert(pixels@ =~= bordered(old_px, ww, hh));
    }
}

proof fn lemma_u32_product(a: u32, b: u32)
    ensures
        (a as u64) * (b as u64) <= 0xffff_fffe_0000_0001u64,
{
    assert((a as int) * (b as int) <= 0xffff_ffff * 0xffff_ffff) by (nonlinear_arith)
        requires
            0 <= a <= 0xffff_ffff,
            0 <= b <= 0xffff_ffff,
    ;
}

/// Whether pixel `(x, y)` of `src` belongs to the card.
fn pixel_belongs(src: &Vec<u8>, w: u32, h: u32, x: u32, y: u32) -> (r: bool)
    requires
        src@.len() == w * h * 4,
        x < w,
        y < h,
    ensures
        r == belongs(src@, w as int, x as int, y as int),
{
    let n = src.len();
    proof {
        lemma_index_bounds(y as int, x as int, w as int, h as int);
        lemma_u32_product(y, w);
    }
    let i = ((y as u64 * w as u64 + x as u64) * 4 + 3) as usize;
    src[i] >= ALPHA_THRESHOLD
}

} // verus!
