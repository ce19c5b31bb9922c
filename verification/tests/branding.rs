use solitaire_core::branding::{app_icon_rgba, BG, SIDE};

#[test]
fn icon_has_expected_buffer_size() {
    let (w, h, buf) = app_icon_rgba();
    assert_eq!(w, SIDE);
    assert_eq!(h, SIDE);
    assert_eq!(buf.len(), (SIDE * SIDE * 4) as usize);
}

#[test]
fn icon_has_non_uniform_content() {
    let (_, _, buf) = app_icon_rgba();
    let first: &[u8] = &buf[0..4];
    let mixed = buf.chunks_exact(4).any(|p| p != first);
    assert!(mixed, "icon should have multiple colours");
}

#[test]
fn icon_corner_is_background() {
    let (_, _, buf) = app_icon_rgba();
    assert_eq!(&buf[0..4], &BG);
}
