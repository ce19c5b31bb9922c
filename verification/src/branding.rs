//! The application icon, drawn procedurally: a white playing card with a
//! dark outline and a red heart, on green felt.
//!
//! `app_icon_rgba` returns `(width, height, rgba)`: top-down rows, four
//! bytes per pixel.

use vstd::prelude::*;

verus! {

/// Icon side length in pixels.
pub const SIDE: u32 = 64;

/// Dark felt green.
pub const BG: [u8; 4] = [0x0c, 0x52, 0x2c, 0xff];
/// White card.
pub const CARD_BG: [u8; 4] = [0xff, 0xff, 0xff, 0xff];
/// Card outline.
pub const CARD_BORDER: [u8; 4] = [0x33, 0x33, 0x33, 0xff];
/// Heart red.
pub const HEART: [u8; 4] = [0xd0, 0x1a, 0x1a, 0xff];

/// Card body: left edge, top edge, width, height, corner radius.
pub const CARD_X: u32 = 10;
pub const CARD_Y: u32 = 6;
pub const CARD_W: u32 = 44;
pub const CARD_H: u32 = 52;
pub const CARD_R: u32 = 5;

/// Heart: centre of the dip between the lobes, and lobe radius.
pub const HEART_CX: i32 = 32;
pub const HEART_CY: i32 = 34;
pub const HEART_SIZE: i32 = 14;

/// Whether `(dx, dy)` of a `w` x `h` rectangle lies inside its corners
/// rounded to radius `r` (a quarter-circle test in each corner square).
pub open spec fn corner_inside_spec(dx: int, dy: int, w: int, h: int, r: int) -> bool {
    if dx < r && dy < r {
        (r - dx) * (r - dx) + (r - dy) * (r - dy) <= r * r
    } else if dx >= w - r && dy < r {
        (dx - (w - r - 1)) * (dx - (w - r - 1)) + (r - dy) * (r - dy) <= r * r
    } else if dx < r && dy >= h - r {
        (r - dx) * (r - dx) + (dy - (h - r - 1)) * (dy - (h - r - 1)) <= r * r
    } else if dx >= w - r && dy >= h - r {
        (dx - (w - r - 1)) * (dx - (w - r - 1)) + (dy - (h - r - 1)) * (dy - (h - r - 1)) <= r * r
    } else {
        true
    }
}

/// `(dx, dy)` is a pixel of the card's rounded rectangle.
pub open spec fn in_card_spec(dx: int, dy: int) -> bool {
    0 <= dx < CARD_W && 0 <= dy < CARD_H && corner_inside_spec(dx, dy, CARD_W as int, CARD_H as int, CARD_R as int)
}

/// `(dx, dy)` is a card pixel with a neighbour outside the card.
pub open spec fn on_card_border_spec(dx: int, dy: int) -> bool {
    &&& in_card_spec(dx, dy)
    &&& (!in_card_spec(dx - 1, dy) || !in_card_spec(dx + 1, dy) || !in_card_spec(dx, dy - 1) || !in_card_spec(dx, dy + 1))
}

/// `(x, y)` is inside the heart: one of two lobe discs, or the triangle
/// from the line through the centre down to the tip.
pub open spec fn in_heart_spec(x: int, y: int) -> bool {
    let s = HEART_SIZE as int;
    let cx = HEART_CX as int;
    let cy = HEART_CY as int;
    let ly = cy - s + 1;
    let tip_h = (s * 5) / 3;
    let in_box = cx - 2 * s <= x <= cx + 2 * s && cy - 2 * s <= y <= cy + tip_h;
    let in_left = (x - (cx - s)) * (x - (cx - s)) + (y - ly) * (y - ly) <= s * s;
    let in_right = (x - (cx + s)) * (x - (cx + s)) + (y - ly) * (y - ly) <= s * s;
    let dy = y - cy;
    let adx = if x >= cx { x - cx } else { cx - x };
    let in_tri = 0 <= dy <= tip_h && adx * tip_h <= 2 * s * (tip_h - dy);
    in_box && (in_left || in_right || in_tri)
}

/// The colour of icon pixel `(x, y)`: the heart over the card outline over
/// the card over the felt.
pub open spec fn icon_color(x: int, y: int) -> Seq<u8> {
    if in_heart_spec(x, y) {
        HEART@
    } else if on_card_border_spec(x - CARD_X, y - CARD_Y) {
        CARD_BORDER@
    } else if in_card_spec(x - CARD_X, y - CARD_Y) {
        CARD_BG@
    } else {
        BG@
    }
}

fn corner_inside(dx: i32, dy: i32) -> (r: bool)
    requires
        -16 <= dx <= 64,
        -16 <= dy <= 64,
    ensures
        r == corner_inside_spec(dx as int, dy as int, CARD_W as int, CARD_H as int, CARD_R as int),
{
    let w: i32 = 44;
    let h: i32 = 52;
    let r: i32 = 5;
    let (rx, ry, in_corner) = if dx < r && dy < r {
        (r - dx, r - dy, true)
    } else if dx >= w - r && dy < r {
        (dx - (w - r - 1), r - dy, true)
    } else if dx < r && dy >= h - r {
        (r - dx, dy - (h - r - 1), true)
    } else if dx >= w - r && dy >= h - r {
        (dx - (w - r - 1), dy - (h - r - 1), true)
    } else {
        (0, 0, false)
    };
    if !in_corner {
        return true;
    }
    assert(0 <= rx * rx <= 100 * 100) by (nonlinear_arith)
        requires
            -100 <= rx <= 100,
    ;
    assert(0 <= ry * ry <= 100 * 100) by (nonlinear_arith)
        requires
            -100 <= ry <= 100,
    ;
    rx * rx + ry * ry <= r * r
}

fn in_card(dx: i32, dy: i32) -> (r: bool)
    requires
        -16 <= dx <= 64,
        -16 <= dy <= 64,
    ensures
        r == in_card_spec(dx as int, dy as int),
{
    0 <= dx && dx < 44 && 0 <= dy && dy < 52 && corner_inside(dx, dy)
}

fn on_card_border(dx: i32, dy: i32) -> (r: bool)
    requires
        -15 <= dx <= 63,
        -15 <= dy <= 63,
    ensures
        r == on_card_border_spec(dx as int, dy as int),
{
    in_card(dx, dy) && (!in_card(dx - 1, dy) || !in_card(dx + 1, dy) || !in_card(dx, dy - 1) || !in_card(dx, dy + 1))
}

fn in_heart(x: i32, y: i32) -> (r: bool)
    requires
        0 <= x < 64,
        0 <= y < 64,
    ensures
        r == in_heart_spec(x as int, y as int),
{
    let s: i32 = 14;
    let cx: i32 = 32;
    let cy: i32 = 34;
    let ly = cy - s + 1;
    let tip_h = (s * 5) / 3;
    let in_box = cx - 2 * s <= x && x <= cx + 2 * s && cy - 2 * s <= y && y <= cy + tip_h;
    let a = x - (cx - s);
    let b = y - ly;
    let c = x - (cx + s);
    assert(0 <= a * a <= 100 * 100 && 0 <= b * b <= 100 * 100 && 0 <= c * c <= 100 * 100) by (nonlinear_arith)
        requires
            -100 <= a <= 100,
            -100 <= b <= 100,
            -100 <= c <= 100,
    ;
    let in_left = a * a + b * b <= s * s;
    let in_right = c * c + b * b <= s * s;
    let dy = y - cy;
    let adx = if x >= cx {
        x - cx
    } else {
        cx - x
    };
    assert(0 <= adx * tip_h <= 100 * 100) by (nonlinear_arith)
        requires
            0 <= adx <= 100,
            tip_h == 23,
    ;
    let in_tri = 0 <= dy && dy <= tip_h && adx * tip_h <= 2 * s * (tip_h - dy);
    in_box && (in_left || in_right || in_tri)
}

/// The application icon: `(SIDE, SIDE, rgba)`, pixel `(x, y)` at bytes
/// `4 * (y * SIDE + x)` onward, coloured as `icon_color` says.
pub fn app_icon_rgba() -> (r: (u32, u32, Vec<u8>))
    ensures
        r.0 == SIDE,
        r.1 == SIDE,
        r.2@.len() == SIDE * SIDE * 4,
        forall|x: int, y: int, k: int| 0 <= x < SIDE && 0 <= y < SIDE && 0 <= k < 4 ==>
            #[trigger] r.2@[4 * (y * SIDE + x) + k] == icon_color(x, y)[k],
{
    let mut buf: Vec<u8> = Vec::new();
    let mut y: i32 = 0;
    while y < 64
        invariant
            0 <= y <= 64,
            buf@.len() == 4 * (y * 64),
            forall|px: int, py: int, k: int| 0 <= px < 64 && 0 <= py < y && 0 <= k < 4 ==>
                #[trigger] buf@[4 * (py * 64 + px) + k] == icon_color(px, py)[k],
        decreases 64 - y,
    {
        let mut x: i32 = 0;
        while x < 64
            invariant
                0 <= y < 64,
                0 <= x <= 64,
                buf@.len() == 4 * (y * 64 + x),
                forall|px: int, py: int, k: int| 0 <= px < 64 && 0 <= py < 64 && (py < y || (py == y && px < x)) && 0 <= k < 4 ==>
                    #[trigger] buf@[4 * (py * 64 + px) + k] == icon_color(px, py)[k],
            decreases 64 - x,
        {
            let color: [u8; 4] = if in_heart(x, y) {
                HEART
            } else if on_card_border(x - 10, y - 6) {
                CARD_BORDER
            } else if in_card(x - 10, y - 6) {
                CARD_BG
            } else {
                BG
            };
            assert(color@ == icon_color(x as int, y as int));
            let ghost before = buf@;
            buf.push(color[0]);
            buf.push(color[1]);
            buf.push(color[2]);
            buf.push(color[3]);
            proof {
                let base = 4 * (y * 64 + x);
                assert forall|px: int, py: int, k: int| 0 <= px < 64 && 0 <= py < 64 && (py < y || (py == y && px < x + 1)) && 0 <= k < 4 implies
                    #[trigger] buf@[4 * (py * 64 + px) + k] == icon_color(px, py)[k] by {
                    if py == y && px == x {
                        assert(4 * (py * 64 + px) + k == base + k);
                    } else {
                        assert(4 * (py * 64 + px) + k < base);
                        assert(buf@[4 * (py * 64 + px) + k] == before[4 * (py * 64 + px) + k]);
                    }
                }
            }
            x = x + 1;
        }
        y = y + 1;
    }
    (SIDE, SIDE, buf)
}

} // verus!
