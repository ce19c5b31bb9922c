use solitaire_core::cards::{Rank, Suit};
use solitaire_core::render::svg_deck::{lcd_subpixel_collapse, paint_one_pixel_card_border, position_for};

#[test]
fn lcd_collapse_uniform_color_is_unchanged() {
    let out_w = 4u32;
    let src_w = out_w * 3;
    let h = 2u32;
    let mut src = Vec::with_capacity((src_w * h * 4) as usize);
    for _ in 0..src_w * h {
        src.extend_from_slice(&[0x33, 0x55, 0x99, 0xff]);
    }
    let out = lcd_subpixel_collapse(&src, src_w, h, out_w);
    for px in out.chunks_exact(4) {
        assert_eq!(px, [0x33, 0x55, 0x99, 0xff]);
    }
}

#[test]
fn lcd_collapse_white_to_black_edge_has_rgb_staircase() {
    let out_w = 4u32;
    let src_w = out_w * 3;
    let h = 1u32;
    let mut src = Vec::with_capacity((src_w * 4) as usize);
    for sx in 0..src_w {
        if sx < src_w / 2 {
            src.extend_from_slice(&[0xff, 0xff, 0xff, 0xff]);
        } else {
            src.extend_from_slice(&[0x00, 0x00, 0x00, 0xff]);
        }
    }
    let out = lcd_subpixel_collapse(&src, src_w, h, out_w);
    let r = out[2 * 4];
    let g = out[2 * 4 + 1];
    let b = out[2 * 4 + 2];
    assert!(r > g && g > b, "edge pixel should be R>G>B but got R={r} G={g} B={b}");
    assert_eq!(&out[0..3], &[0xff, 0xff, 0xff]);
    assert_eq!(&out[(out_w as usize - 1) * 4..(out_w as usize - 1) * 4 + 3], &[0, 0, 0]);
}

#[test]
fn position_corners() {
    assert_eq!(position_for(Suit::Spades, Rank::Ace), (0, 0));
    assert_eq!(position_for(Suit::Spades, Rank::King), (0, 12));
    assert_eq!(position_for(Suit::Clubs, Rank::Ace), (3, 0));
    assert_eq!(position_for(Suit::Clubs, Rank::King), (3, 12));
    assert_eq!(position_for(Suit::Diamonds, Rank::Seven), (2, 6));
}

#[test]
fn card_border_pass_paints_alpha_silhouette_boundary() {
    let w = 5;
    let h = 5;
    let mut pixels = vec![0u8; w * h * 4];
    for y in 1..4 {
        for x in 1..4 {
            let i = (y * w + x) * 4;
            pixels[i] = 0xff;
            pixels[i + 1] = 0xff;
            pixels[i + 2] = 0xff;
            pixels[i + 3] = 0xff;
        }
    }

    paint_one_pixel_card_border(&mut pixels, w as u32, h as u32);

    let center = (2 * w + 2) * 4;
    assert_eq!(&pixels[center..center + 4], &[0xff, 0xff, 0xff, 0xff]);
    for &(x, y) in &[(1usize, 1usize), (2, 1), (3, 1), (1, 2), (3, 2), (1, 3), (2, 3), (3, 3)] {
        let i = (y * w + x) * 4;
        assert_eq!(&pixels[i..i + 4], &[0, 0, 0, 0xff]);
    }
}
