use boolean_inference::blockmerge::{block_merge, partition_is_valid, Subcube};
use boolean_inference::gammacover::{gamma_cover_finish, gamma_cover_plan, CoverPlan, GammaCoverLimits};

fn limits() -> GammaCoverLimits {
    GammaCoverLimits::from_max_rows(128)
}

fn covers_exactly(configs: &[u64], cubes: &[Subcube]) -> bool {
    configs.iter().all(|&s| cubes.iter().filter(|c| (s & c.mask) == (c.val & c.mask)).count() == 1)
}

fn tiled_points(cubes: &[Subcube], width: usize) -> u128 {
    cubes.iter().map(|c| 1u128 << (width - c.mask.count_ones() as usize)).sum()
}

/// An exact cover of the configurations with the fewest candidates.
fn pick(open: &[usize], by_config: &[Vec<usize>], pool_size: usize, left: usize) -> Option<Vec<usize>> {
    if open.is_empty() {
        return Some(Vec::new());
    }
    if left == 0 {
        return None;
    }
    for &candidate in &by_config[open[0]] {
        assert!(candidate < pool_size);
        let mine: Vec<usize> = (0..by_config.len()).filter(|&c| by_config[c].contains(&candidate)).collect();
        if mine.iter().all(|c| open.contains(c)) {
            let rest: Vec<usize> = open.iter().copied().filter(|c| !mine.contains(c)).collect();
            if let Some(mut chosen) = pick(&rest, by_config, pool_size, left - 1) {
                chosen.push(candidate);
                return Some(chosen);
            }
        }
    }
    None
}

/// The plan carried out with the fewest subcubes.
fn cover(configs: &[u64], width: usize, limits: &GammaCoverLimits) -> (Vec<Subcube>, bool) {
    match gamma_cover_plan(configs, width, limits) {
        CoverPlan::Settled { cubes, fell_back } => (cubes, fell_back),
        CoverPlan::Choose { configs, pool, by_config } => {
            let all: Vec<usize> = (0..configs.len()).collect();
            let chosen = (1..=configs.len())
                .find_map(|k| pick(&all, &by_config, pool.len(), k))
                .expect("the candidates cover the configurations");
            let cubes = gamma_cover_finish(&configs, width, &pool, &chosen).expect("an exact cover is a partition");
            (cubes, false)
        }
    }
}

#[test]
fn full_cube_is_a_single_branch() {
    let (cubes, fell_back) = cover(&[0, 1, 2, 3], 2, &limits());
    assert!(!fell_back);
    assert_eq!(cubes, vec![Subcube { mask: 0, val: 0 }]);
}

#[test]
fn half_space_is_a_single_branch() {
    let (cubes, fell_back) = cover(&[2, 3], 2, &limits());
    assert!(!fell_back);
    assert_eq!(cubes.len(), 1);
    assert_eq!(cubes[0].mask, 0b10);
}

#[test]
fn parity_has_only_singletons() {
    let s = vec![0b000, 0b011, 0b101, 0b110];
    let (cubes, fell_back) = cover(&s, 3, &limits());
    assert!(!fell_back);
    assert_eq!(cubes.len(), 4);
    assert!(cubes.iter().all(|c| c.mask == 0b111)); // all fully fixed
    assert!(covers_exactly(&s, &cubes));
}

#[test]
fn compressible_set_beats_perconfig() {
    // S = {00,01,10} over 2 vars: {00,01} is a perfect block (coord 0 free),
    // leaving {10}: 2 cubes, not 3 singletons.
    let s = vec![0b00, 0b01, 0b10];
    let (cubes, fell_back) = cover(&s, 2, &limits());
    assert!(!fell_back);
    assert_eq!(cubes.len(), 2);
    assert!(covers_exactly(&s, &cubes));
    assert!(cubes.len() < s.len());
}

#[test]
fn never_more_cubes_than_blockmerge_greedy() {
    let s = vec![0b000, 0b001, 0b010, 0b011, 0b100];
    let (cubes, fell_back) = cover(&s, 3, &limits());
    let greedy = block_merge(&s, 3);
    assert!(!fell_back);
    assert!(covers_exactly(&s, &cubes));
    assert!(cubes.len() <= greedy.len());
}

#[test]
fn empty_set_is_no_cubes() {
    let (cubes, fell_back) = cover(&[], 3, &limits());
    assert!(cubes.is_empty());
    assert!(!fell_back);
}

#[test]
fn width_64_single_config() {
    // A lone config over the full 64-bit width ⇒ one singleton cube.
    let (cubes, fell_back) = cover(&[0x00ff_00ff_00ff_00ff], 64, &limits());
    assert!(!fell_back);
    assert_eq!(cubes.len(), 1);
    assert_eq!(cubes[0].mask, u64::MAX);
    assert_eq!(cubes[0].val, 0x00ff_00ff_00ff_00ff);
}

#[test]
fn pool_cap_overflow_falls_back() {
    // A tiny pool cap forces the fallback path; the result must still be a
    // legal partition (from block_merge) and flag fell_back.
    let s = vec![0b00, 0b01, 0b10];
    let tight = GammaCoverLimits { max_rows: 128, pool_cap: 1, max_itr: 20 };
    let (cubes, fell_back) = cover(&s, 2, &tight);
    assert!(fell_back);
    assert_eq!(cubes, block_merge(&s, 2));
    assert!(covers_exactly(&s, &cubes));
}

#[test]
fn max_rows_guard_falls_back() {
    // |S| over the max_rows guard ⇒ fallback without building the pool.
    let s = vec![0b00, 0b01, 0b10, 0b11];
    let tight = GammaCoverLimits { max_rows: 2, pool_cap: 4096, max_itr: 20 };
    let (_cubes, fell_back) = cover(&s, 2, &tight);
    assert!(fell_back);
}

#[test]
fn corrupted_partition_is_detected() {
    let s = vec![0b00, 0b01, 0b10];
    let (cubes, _) = cover(&s, 2, &limits());
    assert!(partition_is_valid(&s, &cubes, 2));
    assert_eq!(tiled_points(&cubes, 2), s.len() as u128);

    let mut corrupted = cubes.clone();
    corrupted.push(corrupted[0]); // duplicate one cube ⇒ overlap
    assert!(
        !partition_is_valid(&s, &corrupted, 2),
        "duplicated cube must be caught by the partition check"
    );
    assert_ne!(
        tiled_points(&corrupted, 2),
        s.len() as u128,
        "the corruption must move the counted point total"
    );
}

#[test]
fn a_choice_that_overlaps_is_refused() {
    let pool = vec![Subcube { mask: 0b10, val: 0 }, Subcube { mask: 0b01, val: 0 }];
    assert!(gamma_cover_finish(&[0, 1, 2], 2, &pool, &[0, 1]).is_none());
    assert!(gamma_cover_finish(&[0, 1], 2, &pool, &[0]).is_some());
}

#[test]
fn always_a_valid_partition_over_random_sets() {
    fn next(s: &mut u64) -> u64 {
        let mut x = *s;
        x ^= x << 13;
        x ^= x >> 7;
        x ^= x << 17;
        *s = x;
        x
    }
    for seed in 1u64..=60 {
        let mut s = seed.wrapping_mul(0x9E3779B97F4A7C15).wrapping_add(1);
        let width = 3 + (next(&mut s) % 2) as usize;
        let mut set: Vec<u64> = (0u64..(1u64 << width)).filter(|_| next(&mut s) % 2 == 0).collect();
        set.sort_unstable();
        if set.is_empty() {
            continue;
        }
        let (cubes, fell_back) = cover(&set, width, &limits());
        assert!(!fell_back, "seed {seed}: unexpected fallback");
        assert!(covers_exactly(&set, &cubes), "seed {seed}: coverage");
        assert!(cubes.len() <= set.len(), "seed {seed}: more cubes than configs");
        assert_eq!(tiled_points(&cubes, width), set.len() as u128, "seed {seed}: tiled point count != |S|");
    }
}
