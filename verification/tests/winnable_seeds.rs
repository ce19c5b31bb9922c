use solitaire_core::games::winnable_seeds::{
    is_ms_freecell_unwinnable, klondike_seeds_bin, pick_from, pick_ms_freecell_winnable, pick_spider_winnable,
    spider_seeds, spider_seeds_bin, MS_FREECELL_MAX, MS_FREECELL_UNWINNABLE_LIST,
};

#[test]
fn bundled_seed_lists_are_well_formed() {
    assert_eq!(spider_seeds_bin().len() % 8, 0);
    assert_eq!(klondike_seeds_bin().len() % 8, 0);
}

#[test]
fn picker_returns_a_listed_seed_when_list_nonempty() {
    let seeds = spider_seeds();
    if seeds.is_empty() {
        return;
    }
    let picked = pick_spider_winnable(12345);
    assert!(seeds.contains(&picked));
}

#[test]
fn ms_freecell_picker_skips_known_unwinnable() {
    for trial in 0..200 {
        let n = pick_ms_freecell_winnable(trial);
        assert!(!MS_FREECELL_UNWINNABLE_LIST.contains(&n));
        assert!((1..=MS_FREECELL_MAX).contains(&n));
    }
}

#[test]
fn ms_freecell_unwinnable_list_contains_known_examples() {
    assert!(is_ms_freecell_unwinnable(11_982));
    assert!(is_ms_freecell_unwinnable(781_948));
    assert!(!is_ms_freecell_unwinnable(1));
}

#[test]
fn pick_from_a_seed_file_returns_one_of_its_seeds() {
    let mut bytes = Vec::new();
    for seed in [7u64, 1_000_003, u64::MAX] {
        bytes.extend_from_slice(&seed.to_le_bytes());
    }
    for fallback in 0..50u64 {
        let picked = pick_from(&bytes, fallback);
        assert!([7u64, 1_000_003, u64::MAX].contains(&picked));
    }
    assert_eq!(pick_from(&[], 99), 99);
    assert_eq!(pick_from(&[1, 2, 3], 5), 5);
}
