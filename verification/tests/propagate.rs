use boolean_inference::ct::{build_tables, ct_propagate, enqueue_var_change};
use boolean_inference::domain::DomainMask;
use boolean_inference::network::setup_problem;
use boolean_inference::problem::{has_contradiction, SolverBuffer};
use boolean_inference::propagate::{compute_query_masks, dominate_fixpoint, feasible_configs, probe, propagate_core_rescan, scan_supports};
use boolean_inference::trail::Trail;

#[test]
fn domination_fixes_pure_literals_to_a_fixpoint() {
    // (x∨y) ∧ (x∨z): every literal is pure-positive, so domination alone
    // fixes all three vars to 1 — no branching, no contradiction.
    let or2 = vec![false, true, true, true];
    let cn =
        setup_problem(3, vec![vec![0, 1], vec![0, 2]], vec![or2.clone(), or2]);
    let (masks, mut tables) = build_tables(&cn);
    let mut doms = vec![DomainMask::BOTH; 3];
    let mut buffer = SolverBuffer::new(&cn);
    let mut trail = Trail::new();
    trail.open();
    dominate_fixpoint(&cn, &mut doms, &masks, &mut tables, &mut buffer, &mut trail);
    assert_eq!(doms, vec![DomainMask::D1; 3]);
}

#[test]
fn domination_respects_polarity() {
    // (¬x∨¬y): both literals pure-negative — dominated to 0.
    let nand = vec![true, true, true, false];
    let cn = setup_problem(2, vec![vec![0, 1]], vec![nand]);
    let (masks, mut tables) = build_tables(&cn);
    let mut doms = vec![DomainMask::BOTH; 2];
    let mut buffer = SolverBuffer::new(&cn);
    let mut trail = Trail::new();
    trail.open();
    dominate_fixpoint(&cn, &mut doms, &masks, &mut tables, &mut buffer, &mut trail);
    assert_eq!(doms, vec![DomainMask::D0; 2]);
}

#[test]
fn domination_leaves_xor_untouched() {
    // x⊕y: flipping either bit of a satisfying row leaves the support —
    // neither direction dominates, nothing is fixed.
    let xor = vec![false, true, true, false];
    let cn = setup_problem(2, vec![vec![0, 1]], vec![xor]);
    let (masks, mut tables) = build_tables(&cn);
    let mut doms = vec![DomainMask::BOTH; 2];
    let mut buffer = SolverBuffer::new(&cn);
    let mut trail = Trail::new();
    trail.open();
    dominate_fixpoint(&cn, &mut doms, &masks, &mut tables, &mut buffer, &mut trail);
    assert_eq!(doms, vec![DomainMask::BOTH; 2]);
}

#[test]
fn domination_is_undone_by_the_trail() {
    let or2 = vec![false, true, true, true];
    let cn = setup_problem(2, vec![vec![0, 1]], vec![or2]);
    let (masks, mut tables) = build_tables(&cn);
    let mut doms = vec![DomainMask::BOTH; 2];
    let mut buffer = SolverBuffer::new(&cn);
    let mut trail = Trail::new();
    trail.open();
    let m = trail.mark();
    dominate_fixpoint(&cn, &mut doms, &masks, &mut tables, &mut buffer, &mut trail);
    assert_eq!(doms, vec![DomainMask::D1; 2]);
    trail.restore_to(m, &mut doms, &mut tables);
    assert_eq!(doms, vec![DomainMask::BOTH; 2]);
}

#[test]
fn query_masks_pick_up_fixed_vars() {
    // var_axes = [0,1,2]; doms: v0=D1, v1=D0, v2=BOTH
    let doms = vec![DomainMask::D1, DomainMask::D0, DomainMask::BOTH];
    let (m0, m1) = compute_query_masks(&doms, &[0, 1, 2]);
    assert_eq!(m1, 0b001); // bit0 set (v0 = D1)
    assert_eq!(m0, 0b010); // bit1 set (v1 = D0)
}

#[test]
fn scan_supports_filters_by_compatibility() {
    // support configs {0b01, 0b11}; require bit0 = 1 (mask1=0b01, mask0=0)
    let support = vec![0b01u32, 0b11u32];
    let (vor, vand, found) = scan_supports(support.as_slice(), 0, 0b01);
    assert!(found);
    assert_eq!(vor, 0b11); // 01 | 11
    assert_eq!(vand, 0b01); // 01 & 11
}

#[test]
fn scan_supports_no_match() {
    // require bit1 = 1 but no support config has it
    let support = vec![0b01u32];
    let (_, _, found) = scan_supports(support.as_slice(), 0, 0b10);
    assert!(!found);
}

#[test]
fn unit_propagation_fixes_implied_var() {
    // single clause (x0 OR x1): tensor over [0,1], dense [F,T,T,T].
    // Fix x0 = 0 (D0). GAC must force x1 = 1 (D1).
    let cn = setup_problem(2, vec![vec![0, 1]], vec![vec![false, true, true, true]]);
    let mut doms = vec![DomainMask::D0, DomainMask::BOTH];
    let mut buf = SolverBuffer::new(&cn);
    // seed the queue with tensor 0
    buf.queue.push(0);
    buf.in_queue[0] = true;
    propagate_core_rescan(&cn, &mut doms, &mut buf);
    assert!(!has_contradiction(&doms));
    assert_eq!(doms[1], DomainMask::D1);
}

#[test]
fn conflicting_assignment_yields_contradiction() {
    // clause (x0 OR x1); fix x0=0 and x1=0 -> unsatisfiable.
    let cn = setup_problem(2, vec![vec![0, 1]], vec![vec![false, true, true, true]]);
    let mut doms = vec![DomainMask::D0, DomainMask::D0];
    let mut buf = SolverBuffer::new(&cn);
    buf.queue.push(0);
    buf.in_queue[0] = true;
    propagate_core_rescan(&cn, &mut doms, &mut buf);
    assert!(has_contradiction(&doms));
}

#[test]
fn propagate_core_leaves_clean_buffer_on_contradiction() {
    // clause (x0 OR x1); fix both to 0 -> contradiction. Buffer must be left clean.
    let cn = setup_problem(2, vec![vec![0, 1]], vec![vec![false, true, true, true]]);
    let mut doms = vec![DomainMask::D0, DomainMask::D0];
    let mut buf = SolverBuffer::new(&cn);
    buf.queue.push(0);
    buf.in_queue[0] = true;
    propagate_core_rescan(&cn, &mut doms, &mut buf);
    assert!(has_contradiction(&doms));
    assert!(
        buf.queue.is_empty(),
        "queue must be cleared on contradiction"
    );
    assert!(
        buf.in_queue.iter().all(|&q| !q),
        "no in_queue flag may remain set"
    );
}

#[test]
fn probe_propagates_from_base_and_restores() {
    let cn = setup_problem(2, vec![vec![0, 1]], vec![vec![false, true, true, true]]);
    let (masks, mut tables) = build_tables(&cn);
    let mut doms = vec![DomainMask::BOTH, DomainMask::BOTH];
    let mut buf = SolverBuffer::new(&cn);
    let mut trail = Trail::new();
    // probe x0 = 0 (mask bit0=1, value bit0=0)
    let (c0, c1) = probe(
        &cn,
        &mut doms,
        &masks,
        &mut tables,
        &mut buf,
        &mut trail,
        &[0],
        1u64,
        0u64,
        |d| (d[0], d[1]),
    );
    assert_eq!(c0, DomainMask::D0);
    assert_eq!(c1, DomainMask::D1); // forced
                                    // probe restores the base state
    assert_eq!(doms, vec![DomainMask::BOTH, DomainMask::BOTH]);
}

#[test]
fn feasible_configs_matches_known_set_on_or_chain() {
    // (x0 OR x1) AND (x1 OR x2): feasible assignments over [0,1,2] are
    // {010,011,101,110,111} = {2,3,5,6,7} (bit i = value of var i).
    let or2 = vec![false, true, true, true];
    let cn = setup_problem(3, vec![vec![0, 1], vec![1, 2]], vec![or2.clone(), or2]);
    let (masks, mut tables) = build_tables(&cn);
    let mut doms = vec![DomainMask::BOTH; 3];
    let mut buf = SolverBuffer::new(&cn);
    let mut trail = Trail::new();
    let region_vars = vec![0usize, 1, 2];
    let all: Vec<u64> = (0u64..8).collect();
    let mut got = feasible_configs(
        &cn,
        &mut doms,
        &masks,
        &mut tables,
        &mut buf,
        &mut trail,
        &region_vars,
        &all,
    );
    got.sort_unstable();
    assert_eq!(got, vec![2, 3, 5, 6, 7]);
    // base state fully restored
    assert_eq!(doms, vec![DomainMask::BOTH; 3]);
    assert!(buf.queue.is_empty());
    assert!(buf.in_queue.iter().all(|&q| !q));
}

#[test]
fn feasible_configs_empty_input_is_empty() {
    let or2 = vec![false, true, true, true];
    let cn = setup_problem(2, vec![vec![0, 1]], vec![or2]);
    let (masks, mut tables) = build_tables(&cn);
    let mut doms = vec![DomainMask::BOTH; 2];
    let mut buf = SolverBuffer::new(&cn);
    let mut trail = Trail::new();
    let got = feasible_configs(
        &cn,
        &mut doms,
        &masks,
        &mut tables,
        &mut buf,
        &mut trail,
        &[0, 1],
        &[],
    );
    assert!(got.is_empty());
}

#[test]
fn feasible_configs_prunes_infeasible_prefix() {
    // (x0 OR x1): assignment 00 (=0) is the only infeasible one.
    let or2 = vec![false, true, true, true];
    let cn = setup_problem(2, vec![vec![0, 1]], vec![or2]);
    let (masks, mut tables) = build_tables(&cn);
    let mut doms = vec![DomainMask::BOTH; 2];
    let mut buf = SolverBuffer::new(&cn);
    let mut trail = Trail::new();
    let mut got = feasible_configs(
        &cn,
        &mut doms,
        &masks,
        &mut tables,
        &mut buf,
        &mut trail,
        &[0, 1],
        &[0, 1, 2, 3],
    );
    got.sort_unstable();
    assert_eq!(got, vec![1, 2, 3]); // 00 pruned
    assert_eq!(doms, vec![DomainMask::BOTH; 2]);
}

#[test]
fn feasible_configs_all_region_vars_fixed_returns_all() {
    let or2 = vec![false, true, true, true];
    let cn = setup_problem(2, vec![vec![0, 1]], vec![or2]);
    let (masks, mut tables) = build_tables(&cn);
    // Fix both vars consistently (x0=1,x1=0 => config bit0=1 => value 1).
    let mut doms = vec![DomainMask::D1, DomainMask::D0];
    let mut buf = SolverBuffer::new(&cn);
    let mut trail = Trail::new();
    let got = feasible_configs(
        &cn,
        &mut doms,
        &masks,
        &mut tables,
        &mut buf,
        &mut trail,
        &[0, 1],
        &[1],
    );
    assert_eq!(got, vec![1]);
    assert_eq!(doms, vec![DomainMask::D1, DomainMask::D0]);
}

#[test]
fn feasible_configs_matches_probe_oracle_randomized() {

    // Tiny deterministic PRNG (xorshift64) — no external dep.
    fn next(s: &mut u64) -> u64 {
        let mut x = *s;
        x ^= x << 13;
        x ^= x >> 7;
        x ^= x << 17;
        *s = x;
        x
    }

    for seed in 1u64..=300 {
        let mut s = seed.wrapping_mul(0x9E3779B97F4A7C15).wrapping_add(1);
        let n_vars = 3 + (next(&mut s) % 3) as usize; // 3..=5 vars
        let n_tensors = 2 + (next(&mut s) % 3) as usize; // 2..=4 tensors

        // Build tensors over random distinct-var scopes with random non-empty support.
        let mut scopes: Vec<Vec<usize>> = Vec::new();
        let mut tables_dense: Vec<Vec<bool>> = Vec::new();
        for _ in 0..n_tensors {
            let arity = 2 + (next(&mut s) % 2) as usize; // 2 or 3
            let mut vs: Vec<usize> = Vec::new();
            while vs.len() < arity {
                let v = (next(&mut s) % n_vars as u64) as usize;
                if !vs.contains(&v) {
                    vs.push(v);
                }
            }
            let rows = 1usize << arity;
            let mut support = vec![false; rows];
            let mut any = false;
            for r in support.iter_mut() {
                if next(&mut s) % 100 < 60 {
                    *r = true;
                    any = true;
                }
            }
            if !any {
                support[(next(&mut s) as usize) % rows] = true; // ensure non-empty
            }
            scopes.push(vs);
            tables_dense.push(support);
        }
        let cn = setup_problem(n_vars, scopes, tables_dense);
        // setup_problem compresses out vars that appear in no tensor; use
        // the compressed count for everything after construction.
        let n_cvars = cn.n_vars();
        let (masks, mut tables) = build_tables(&cn);
        let mut doms = vec![DomainMask::BOTH; n_cvars];
        let mut buf = SolverBuffer::new(&cn);
        let mut trail = Trail::new();

        // Establish a base fixpoint: randomly fix ~1/3 of vars, propagate from base.
        buf.queue.clear();
        for b in buf.in_queue.iter_mut() {
            *b = false;
        }
        for v in 0..n_cvars {
            if next(&mut s) % 3 == 0 {
                let nd = if next(&mut s) & 1 == 1 {
                    DomainMask::D1
                } else {
                    DomainMask::D0
                };
                trail.record_dom(v, doms[v]);
                doms[v] = nd;
                enqueue_var_change(&cn, &mut buf, v);
            }
        }
        ct_propagate(&cn, &mut doms, &masks, &mut tables, &mut buf, &mut trail);
        if doms[0] == DomainMask::NONE {
            continue; // base already contradictory — skip this seed
        }

        // Region = all (compressed) vars. Candidate configs = all 2^n_cvars,
        // filtered to those consistent with the fixed vars (the caller's contract).
        let region_vars: Vec<usize> = (0..n_cvars).collect();
        let (check_mask, check_value) = mask_value_bits(&doms, &region_vars);
        let full_mask: u64 = if n_cvars >= 64 {
            u64::MAX
        } else {
            (1u64 << n_cvars) - 1
        };
        let all: Vec<u64> = (0u64..(1u64 << n_cvars))
            .filter(|c| (c & check_mask) == check_value)
            .collect();

        // Snapshot base for restore-integrity check.
        let doms_before = doms.clone();
        let words_before: Vec<Vec<u64>> = tables.iter().map(|t| t.words.clone()).collect();
        let limit_before: Vec<u32> = tables.iter().map(|t| t.limit).collect();

        // Oracle: probe each config independently.
        let mut want: Vec<u64> = Vec::new();
        for &c in &all {
            let feas = probe(
                &cn,
                &mut doms,
                &masks,
                &mut tables,
                &mut buf,
                &mut trail,
                &region_vars,
                full_mask,
                c,
                |d| d[0] != DomainMask::NONE,
            );
            if feas {
                want.push(c);
            }
        }
        want.sort_unstable();

        // System under test.
        let mut got = feasible_configs(
            &cn,
            &mut doms,
            &masks,
            &mut tables,
            &mut buf,
            &mut trail,
            &region_vars,
            &all,
        );
        got.sort_unstable();

        assert_eq!(
            got, want,
            "seed {seed}: feasible set mismatch vs probe oracle"
        );

        // Restore integrity.
        assert_eq!(doms, doms_before, "seed {seed}: doms not restored");
        for (i, t) in tables.iter().enumerate() {
            assert_eq!(
                t.words, words_before[i],
                "seed {seed}: table {i} words not restored"
            );
            assert_eq!(
                t.limit, limit_before[i],
                "seed {seed}: table {i} limit not restored"
            );
        }
        assert!(buf.queue.is_empty(), "seed {seed}: worklist leaked");
        assert!(
            buf.in_queue.iter().all(|&q| !q),
            "seed {seed}: in_queue leaked"
        );
    }
}

/// (mask, value): bit i set in `mask` iff region_vars[i] is fixed; the same bit
/// in `value` is its fixed value. Mirrors the call-site consistency filter.
fn mask_value_bits(doms: &[DomainMask], region_vars: &[usize]) -> (u64, u64) {
    let mut mask = 0u64;
    let mut value = 0u64;
    for (i, &v) in region_vars.iter().enumerate() {
        match doms[v] {
            DomainMask::D0 => {
                mask |= 1 << i;
            }
            DomainMask::D1 => {
                mask |= 1 << i;
                value |= 1 << i;
            }
            _ => {}
        }
    }
    (mask, value)
}
