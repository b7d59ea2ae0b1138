use boolean_inference::canonicalize::bounded_ve_canonicalize;
use boolean_inference::domain::DomainMask;
use boolean_inference::network::{setup_problem, ConstraintNetwork};
use boolean_inference::semiring::{BigCount, Weight};
use boolean_inference::wcanonicalize::{bounded_ve_canonicalize_weighted, WeightedCanonicalized};
use std::collections::HashSet;

const OR2: [bool; 4] = [false, true, true, true]; // x ∨ y

/// All satisfying assignments of `cn` projected onto original vars `orig_vars`,
/// as a set of bitmasks (bit j = orig_vars[j]). Brute force over compressed vars.
fn solutions_projected(cn: &ConstraintNetwork, orig_vars: &[usize]) -> HashSet<u64> {
    let n = cn.n_vars();
    let mut out = HashSet::new();
    for cfg in 0u64..(1u64 << n) {
        let ok = cn.tensors.iter().all(|t| {
            let mut idx = 0u32;
            for (i, &v) in t.var_axes.iter().enumerate() {
                if (cfg >> v) & 1 == 1 {
                    idx |= 1 << i;
                }
            }
            cn.is_sat(t, idx)
        });
        if !ok {
            continue;
        }
        let mut key = 0u64;
        for (j, &o) in orig_vars.iter().enumerate() {
            if let Some(c) = cn.orig_to_new[o] {
                if (cfg >> c) & 1 == 1 {
                    key |= 1u64 << j;
                }
            }
        }
        out.insert(key);
    }
    out
}

#[test]
fn eliminates_an_unprotected_chain_var() {
    // (x0∨x1)∧(x1∨x2); eliminate x1 (budget 3, x0 and x2 protected as read-out vars).
    // x1 is the interior chain var; x0,x2 are the endpoints we care about reading.
    let cn = setup_problem(
        3,
        vec![vec![0, 1], vec![1, 2]],
        vec![OR2.to_vec(), OR2.to_vec()],
    );
    let out = bounded_ve_canonicalize(&cn, 3, &[0, 2])
        .expect("SAT-preserving")
        .cn;
    // x1 is eliminated (unprotected, sc=3<=budget); x0,x2 survive (protected).
    assert!(out.orig_to_new[1].is_none(), "x1 should be eliminated");
    assert!(out.orig_to_new[0].is_some() && out.orig_to_new[2].is_some());
    // Solutions over {x0,x2} preserved: (x0∨x1)∧(x1∨x2) projected to x0,x2
    // allows everything except... brute-force equality is the real check below.
    assert_eq!(
        solutions_projected(&cn, &[0, 2]),
        solutions_projected(&out, &[0, 2]),
    );
}

#[test]
fn protected_var_is_never_eliminated() {
    let cn = setup_problem(
        3,
        vec![vec![0, 1], vec![1, 2]],
        vec![OR2.to_vec(), OR2.to_vec()],
    );
    let out = bounded_ve_canonicalize(&cn, 3, &[1])
        .expect("SAT-preserving")
        .cn; // protect x1
    assert!(out.orig_to_new[1].is_some(), "protected x1 must survive");
}

#[test]
fn budget_one_eliminates_nothing() {
    let cn = setup_problem(
        3,
        vec![vec![0, 1], vec![1, 2]],
        vec![OR2.to_vec(), OR2.to_vec()],
    );
    let out = bounded_ve_canonicalize(&cn, 1, &[])
        .expect("SAT-preserving")
        .cn;
    // every elimination needs sc = out.len()+1 >= 2 > 1, so all vars survive.
    assert_eq!(out.n_vars(), cn.n_vars());
}

#[test]
fn solutions_preserved_over_protected_with_elimination() {
    // 4-var chain (x0∨x1)∧(x1∨x2)∧(x2∨x3); protect {x0, x3}; budget 3.
    let cn = setup_problem(
        4,
        vec![vec![0, 1], vec![1, 2], vec![2, 3]],
        vec![OR2.to_vec(), OR2.to_vec(), OR2.to_vec()],
    );
    let out = bounded_ve_canonicalize(&cn, 3, &[0, 3])
        .expect("SAT-preserving")
        .cn;
    assert!(out.n_vars() < cn.n_vars(), "some vars eliminated");
    assert!(out.orig_to_new[0].is_some() && out.orig_to_new[3].is_some());
    assert_eq!(
        solutions_projected(&cn, &[0, 3]),
        solutions_projected(&out, &[0, 3]),
        "solution set projected to protected vars must be preserved"
    );
}

#[test]
fn contradictory_instance_returns_none() {
    // (x0) ∧ (¬x0): eliminating x0 joins the two unit relations to an empty
    // bucket -> UNSAT short-circuit.
    let cn = setup_problem(
        1,
        vec![vec![0], vec![0]],
        vec![vec![false, true], vec![true, false]],
    );
    assert!(bounded_ve_canonicalize(&cn, 3, &[]).is_none());
}

#[test]
fn reconstruction_extends_solutions_to_eliminated_vars() {
    // Random small networks: eliminate aggressively, brute-force the
    // canonicalized network, reconstruct, and check the FULL assignment
    // satisfies the ORIGINAL network. Deterministic xorshift.
    fn next(s: &mut u64) -> u64 {
        let mut x = *s;
        x ^= x << 13;
        x ^= x >> 7;
        x ^= x << 17;
        *s = x;
        x
    }
    for seed in 1u64..=300 {
        let mut s = seed.wrapping_mul(0x9E3779B97F4A7C15).wrapping_add(1);
        let n_vars = 3 + (next(&mut s) % 4) as usize; // 3..=6
        let n_tensors = 2 + (next(&mut s) % 4) as usize; // 2..=5
        let mut scopes = Vec::new();
        let mut dense = Vec::new();
        for _ in 0..n_tensors {
            let arity = 1 + (next(&mut s) % 3) as usize; // 1..=3
            let mut vs: Vec<usize> = Vec::new();
            while vs.len() < arity {
                let v = (next(&mut s) % n_vars as u64) as usize;
                if !vs.contains(&v) {
                    vs.push(v);
                }
            }
            let rows = 1usize << arity;
            let mut sup = vec![false; rows];
            let mut any = false;
            for r in sup.iter_mut() {
                if next(&mut s) % 100 < 60 {
                    *r = true;
                    any = true;
                }
            }
            if !any {
                sup[(next(&mut s) as usize) % rows] = true;
            }
            scopes.push(vs);
            dense.push(sup);
        }
        let cn = setup_problem(n_vars, scopes, dense);
        let n_cn = cn.n_vars();
        let budget = 2 + (next(&mut s) % 4) as usize; // 2..=5

        // Ground truth: is the original network satisfiable at all?
        let orig_sat = (0u64..(1u64 << n_cn)).any(|cfg| satisfies(&cn, cfg));

        let canon = match bounded_ve_canonicalize(&cn, budget, &[]) {
            Some(c) => c,
            None => {
                assert!(!orig_sat, "seed {seed}: VE said UNSAT but instance is SAT");
                continue;
            }
        };
        // Brute-force a model of the canonicalized network (if any).
        let nk = canon.cn.n_vars();
        let model = (0u64..(1u64 << nk)).find(|&cfg| satisfies(&canon.cn, cfg));
        match model {
            None => {
                assert!(!orig_sat, "seed {seed}: post-VE UNSAT but instance is SAT");
            }
            Some(cfg) => {
                assert!(orig_sat, "seed {seed}: post-VE SAT but instance is UNSAT");
                // Encode the brute-forced model as a DomainMask solution and
                // lift it back through the reconstructor.
                let solution: Vec<DomainMask> = (0..nk)
                    .map(|i| {
                        if (cfg >> i) & 1 == 1 {
                            DomainMask::D1
                        } else {
                            DomainMask::D0
                        }
                    })
                    .collect();
                let assignment = canon.model.reconstruct(&solution);
                let mut full = 0u64;
                for (c, a) in assignment.iter().enumerate() {
                    if a.unwrap_or(false) {
                        full |= 1u64 << c;
                    }
                }
                assert!(
                    satisfies(&cn, full),
                    "seed {seed}: reconstructed assignment violates the original network"
                );
            }
        }
    }
}

/// Does `cfg` (bit v = value of compressed var v) satisfy every tensor of `cn`?
fn satisfies(cn: &ConstraintNetwork, cfg: u64) -> bool {
    cn.tensors.iter().all(|t| {
        let mut idx = 0u32;
        for (i, &v) in t.var_axes.iter().enumerate() {
            if (cfg >> v) & 1 == 1 {
                idx |= 1 << i;
            }
        }
        cn.is_sat(t, idx)
    })
}

/// Weighted count of `surviving` × `scalar`: Σ over assignments of the
/// survivor vars of ∏ matching row weights, all times the global scalar. The
/// brute-force oracle for weighted VE (marginalization done right).
fn weighted_ve_count(wc: &WeightedCanonicalized<BigCount>) -> BigCount {
    let mut svars: Vec<usize> = wc
        .surviving
        .iter()
        .flat_map(|r| r.vars.iter().copied())
        .collect();
    svars.sort_unstable();
    svars.dedup();
    assert!(svars.len() <= 20, "brute survivor enumeration capped");
    let mut total = BigCount::zero();
    for cfg in 0u64..(1u64 << svars.len()) {
        let mut w = BigCount::one();
        for rel in &wc.surviving {
            let mut key = 0u64;
            for (j, &v) in rel.vars.iter().enumerate() {
                let pos = svars.iter().position(|&x| x == v).unwrap();
                if (cfg >> pos) & 1 == 1 {
                    key |= 1u64 << j;
                }
            }
            match rel.rows.iter().find(|(c, _)| *c == key) {
                Some((_, rw)) => w = w.mul(rw),
                None => {
                    w = BigCount::zero();
                    break;
                }
            }
        }
        total.add(&w);
    }
    wc.scalar.mul(&total)
}

#[test]
fn weighted_ve_preserves_the_model_count_at_every_budget() {
    // The VE-invariance guarantee (§5/§7): the exact model count is unchanged
    // by weighted bounded VE, at any width budget. For 300 random small
    // networks and budgets 2..=6, the weighted survivor count × scalar must
    // equal the brute-force model count of the ORIGINAL network. This is what
    // proves weighted projection (sum), weighted join (multiply), the 0-ary
    // scalar fold, and the eliminated-free-var doubling are all correct.
    fn next(s: &mut u64) -> u64 {
        let mut x = *s;
        x ^= x << 13;
        x ^= x >> 7;
        x ^= x << 17;
        *s = x;
        x
    }
    for seed in 1u64..=300 {
        let mut s = seed.wrapping_mul(0x9E3779B97F4A7C15).wrapping_add(1);
        let n_vars = 3 + (next(&mut s) % 4) as usize; // 3..=6
        let n_tensors = 2 + (next(&mut s) % 4) as usize; // 2..=5
        let mut scopes = Vec::new();
        let mut dense = Vec::new();
        for _ in 0..n_tensors {
            let arity = 1 + (next(&mut s) % 3) as usize; // 1..=3
            let mut vs: Vec<usize> = Vec::new();
            while vs.len() < arity {
                let v = (next(&mut s) % n_vars as u64) as usize;
                if !vs.contains(&v) {
                    vs.push(v);
                }
            }
            let rows = 1usize << arity;
            let mut sup = vec![false; rows];
            for r in sup.iter_mut() {
                if next(&mut s) % 100 < 60 {
                    *r = true;
                }
            }
            scopes.push(vs);
            dense.push(sup);
        }
        let cn = setup_problem(n_vars, scopes, dense);
        let n_cn = cn.n_vars();
        let want: u64 = (0u64..(1u64 << n_cn))
            .filter(|&c| satisfies(&cn, c))
            .count() as u64;
        let want = BigCount::from_u64(want);
        for budget in 2usize..=6 {
            let got = match bounded_ve_canonicalize_weighted::<BigCount>(&cn, budget) {
                Some(wc) => weighted_ve_count(&wc),
                None => BigCount::from_u64(0), // VE proved UNSAT
            };
            assert_eq!(
                got, want,
                "seed {seed}, budget {budget}: weighted VE count != model count"
            );
        }
    }
}

#[test]
fn produced_tensors_respect_the_budget() {
    let cn = setup_problem(
        4,
        vec![vec![0, 1], vec![1, 2], vec![2, 3]],
        vec![OR2.to_vec(), OR2.to_vec(), OR2.to_vec()],
    );
    let out = bounded_ve_canonicalize(&cn, 3, &[])
        .expect("SAT-preserving")
        .cn;
    for t in &out.tensors {
        assert!(t.var_axes.len() <= 3 - 1, "produced arity <= budget_b-1");
    }
}
