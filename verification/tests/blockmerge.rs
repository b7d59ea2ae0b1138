use boolean_inference::blockmerge::{block_merge, Subcube};

/// Every config of `S` is covered by exactly one returned cube (an
/// independent re-derivation of the internal partition check).
fn covers_exactly(configs: &[u64], cubes: &[Subcube]) -> bool {
    configs.iter().all(|&s| {
        cubes
            .iter()
            .filter(|c| (s & c.mask) == (c.val & c.mask))
            .count()
            == 1
    })
}

#[test]
fn full_cube_merges_into_one_block() {
    // S = all 4 configs over 2 vars ⇒ one free-everything cube (mask 0).
    let cubes = block_merge(&[0, 1, 2, 3], 2);
    assert_eq!(cubes, vec![Subcube { mask: 0, val: 0 }]);
}

#[test]
fn half_space_is_one_block() {
    // S = {x1 = 1} over 2 vars = configs {2,3}: coordinate 0 free, 1 fixed.
    let cubes = block_merge(&[2, 3], 2);
    assert_eq!(cubes.len(), 1);
    assert_eq!(cubes[0].mask, 0b10);
    assert_eq!(cubes[0].val, 0b10);
}

#[test]
fn parity_set_does_not_compress() {
    // Even-parity over 2 vars = {00,11}: no two differ in exactly one bit, so
    // no coordinate can be freed — two singletons, compression ratio 1.
    let cubes = block_merge(&[0b00, 0b11], 2);
    assert_eq!(cubes.len(), 2);
    assert!(cubes.iter().all(|c| c.mask == 0b11)); // all fixed
    assert!(covers_exactly(&[0, 3], &cubes));
}

#[test]
fn three_of_four_splits_into_line_plus_point() {
    // S = {00,01,10} over 2 vars: {00,01} is a perfect block (var0 free),
    // leaving {10} a singleton — 2 cubes for 3 configs.
    let cubes = block_merge(&[0b00, 0b01, 0b10], 2);
    assert_eq!(cubes.len(), 2);
    assert!(covers_exactly(&[0, 1, 2], &cubes));
}

#[test]
fn three_var_full_cube() {
    // All 8 over 3 vars ⇒ single fully-free cube.
    let all: Vec<u64> = (0..8).collect();
    let cubes = block_merge(&all, 3);
    assert_eq!(cubes, vec![Subcube { mask: 0, val: 0 }]);
}

#[test]
fn empty_set_is_no_blocks() {
    assert!(block_merge(&[], 3).is_empty());
}

#[test]
fn every_config_covered_over_random_sets() {
    // 200 random config subsets over 4..6 vars: block_merge must always return
    // a strict partition (the internal asserts would fire otherwise) whose
    // cubes cover each config exactly once, and never MORE cubes than configs.
    fn next(s: &mut u64) -> u64 {
        let mut x = *s;
        x ^= x << 13;
        x ^= x >> 7;
        x ^= x << 17;
        *s = x;
        x
    }
    for seed in 1u64..=200 {
        let mut s = seed.wrapping_mul(0x9E3779B97F4A7C15).wrapping_add(1);
        let width = 4 + (next(&mut s) % 3) as usize; // 4..=6
        let mut set: Vec<u64> = (0u64..(1u64 << width))
            .filter(|_| next(&mut s) % 2 == 0)
            .collect();
        set.sort_unstable();
        if set.is_empty() {
            continue;
        }
        let cubes = block_merge(&set, width);
        assert!(covers_exactly(&set, &cubes), "seed {seed}: coverage");
        assert!(
            cubes.len() <= set.len(),
            "seed {seed}: more cubes than configs"
        );
    }
}
