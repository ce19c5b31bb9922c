use std::io::Write;

use flate2::write::GzEncoder;
use flate2::Compression;

use solitaire_core::render::svg_deck::{deck_artwork, strip_background};

const FELT: &[u8] = b"<rect style=\"fill:#55aa55;fill-opacity:1\"/>";
const CLEAR: &[u8] = b"<rect style=\"fill:#55aa55;fill-opacity:0\"/>";

fn gz(bytes: &[u8]) -> Vec<u8> {
    let mut enc = GzEncoder::new(Vec::new(), Compression::default());
    enc.write_all(bytes).unwrap();
    enc.finish().unwrap()
}

#[test]
fn strip_clears_only_the_first_felt_fill() {
    let mut svg = b"<svg>".to_vec();
    svg.extend_from_slice(FELT);
    svg.extend_from_slice(FELT);
    let out = strip_background(&svg);
    let mut expected = b"<svg>".to_vec();
    expected.extend_from_slice(CLEAR);
    expected.extend_from_slice(FELT);
    assert_eq!(out, expected);
}

#[test]
fn strip_leaves_artwork_without_felt_alone() {
    let svg = b"<svg><rect style=\"fill:#55aa55;fill-opacity:0.5\"/></svg>".to_vec();
    assert_eq!(strip_background(&svg), svg);
    assert_eq!(strip_background(b"fill"), b"fill".to_vec());
}

#[test]
fn artwork_is_inflated_then_cleared() {
    let mut svg = b"<svg>".to_vec();
    svg.extend_from_slice(FELT);
    svg.extend_from_slice(b"</svg>");
    let out = deck_artwork(&gz(&svg)).expect("valid gzip");
    let mut expected = b"<svg>".to_vec();
    expected.extend_from_slice(CLEAR);
    expected.extend_from_slice(b"</svg>");
    assert_eq!(out, expected);
}

#[test]
fn artwork_that_is_not_gzip_is_refused() {
    assert_eq!(deck_artwork(b"plain text, not gzip"), None);
}
