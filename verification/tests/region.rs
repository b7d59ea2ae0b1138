use boolean_inference::contract::contract_region;
use boolean_inference::domain::DomainMask;
use boolean_inference::network::{setup_problem, ConstraintNetwork};
use boolean_inference::region::{boundary_vars, grow_region, Region};

// A 5-var OR-chain: T0[0,1] T1[1,2] T2[2,3] T3[3,4], each a binary OR.
fn chain() -> ConstraintNetwork {
    let or2 = vec![false, true, true, true];
    setup_problem(
        5,
        vec![vec![0, 1], vec![1, 2], vec![2, 3], vec![3, 4]],
        vec![or2.clone(), or2.clone(), or2.clone(), or2],
    )
}

#[test]
fn boundary_vars_classifies_interface_vs_interior() {
    let cn = chain(); // T0[0,1] T1[1,2] T2[2,3] T3[3,4]
                      // Whole chain: every incident tensor is inside -> no boundary.
    let full = Region {
        id: 2,
        tensors: vec![0, 1, 2, 3],
        vars: vec![0, 1, 2, 3, 4],
    };
    assert!(boundary_vars(&cn, &full).is_empty());
    // Middle tensor only: both its vars touch tensors outside.
    let mid = Region {
        id: 1,
        tensors: vec![1],
        vars: vec![1, 2],
    };
    assert_eq!(boundary_vars(&cn, &mid), vec![1, 2]);
    // Left half {T0,T1}: vars 0,1 are interior, var 2 touches T2 outside.
    let left = Region {
        id: 0,
        tensors: vec![0, 1],
        vars: vec![0, 1, 2],
    };
    assert_eq!(boundary_vars(&cn, &left), vec![2]);
}

#[test]
fn generous_budget_absorbs_the_whole_chain() {
    let cn = chain();
    let doms = vec![DomainMask::BOTH; 5];
    let (region, rel) = grow_region(&cn, &doms, 2, 1 << 10);
    assert_eq!(region.tensors, vec![0, 1, 2, 3]);
    assert_eq!(region.vars, vec![0, 1, 2, 3, 4]);
    assert_eq!(region.vars, rel.vars);
    // The relation is exactly the region's satisfiable configs.
    let (configs, output_vars) = contract_region(&cn, &region, &doms);
    assert_eq!(rel.vars, output_vars);
    assert_eq!(rel.rows, configs);
}

#[test]
fn budget_stops_growth() {
    let cn = chain();
    let doms = vec![DomainMask::BOTH; 5];
    // A single OR has 3 rows; joining a second gives 5 rows over 3 vars.
    // Budget 3 admits the seed only.
    let (region, rel) = grow_region(&cn, &doms, 2, 3);
    assert_eq!(region.tensors.len(), 1);
    assert!(rel.rows.len() <= 3);
    assert_eq!(region.vars, rel.vars);
    // Budget 5 admits exactly one join.
    let (region5, rel5) = grow_region(&cn, &doms, 2, 5);
    assert_eq!(region5.tensors.len(), 2);
    assert_eq!(rel5.rows.len(), 5);
}

#[test]
fn fixed_vars_are_sliced_out_of_the_region() {
    let cn = chain();
    // Fix var 1 = 1: T0 and T1 are satisfied for any value of vars 0/2, and
    // var 1 must not appear in any grown region.
    let mut doms = vec![DomainMask::BOTH; 5];
    doms[1] = DomainMask::D1;
    let (region, rel) = grow_region(&cn, &doms, 2, 1 << 10);
    assert!(!region.vars.contains(&1));
    assert_eq!(region.vars, rel.vars);
    // Configs match the reference contraction under the same doms.
    let (configs, output_vars) = contract_region(&cn, &region, &doms);
    assert_eq!(rel.vars, output_vars);
    assert_eq!(rel.rows, configs);
}

#[test]
fn grown_relation_matches_reference_contraction_randomized() {
    // Deterministic xorshift; random small networks + random fixings.
    fn next(s: &mut u64) -> u64 {
        let mut x = *s;
        x ^= x << 13;
        x ^= x >> 7;
        x ^= x << 17;
        *s = x;
        x
    }
    for seed in 1u64..=200 {
        let mut s = seed.wrapping_mul(0x9E3779B97F4A7C15).wrapping_add(1);
        let n_vars = 3 + (next(&mut s) % 4) as usize; // 3..=6
        let n_tensors = 2 + (next(&mut s) % 4) as usize; // 2..=5
        let mut scopes = Vec::new();
        let mut dense = Vec::new();
        for _ in 0..n_tensors {
            let arity = 2 + (next(&mut s) % 2) as usize;
            let mut vs: Vec<usize> = Vec::new();
            while vs.len() < arity {
                let v = (next(&mut s) % n_vars as u64) as usize;
                if !vs.contains(&v) {
                    vs.push(v);
                }
            }
            let rows = 1usize << arity;
            let mut sup = vec![false; rows];
            let mut any = false;
            for r in sup.iter_mut() {
                if next(&mut s) % 100 < 70 {
                    *r = true;
                    any = true;
                }
            }
            if !any {
                sup[(next(&mut s) as usize) % rows] = true;
            }
            scopes.push(vs);
            dense.push(sup);
        }
        let cn = setup_problem(n_vars, scopes, dense);
        let n_cvars = cn.vars.len();
        let mut doms = vec![DomainMask::BOTH; n_cvars];
        for v in 0..n_cvars {
            if next(&mut s) % 4 == 0 {
                doms[v] = if next(&mut s) & 1 == 1 {
                    DomainMask::D1
                } else {
                    DomainMask::D0
                };
            }
        }
        let focus = match (0..n_cvars).find(|&v| !doms[v].is_fixed()) {
            Some(v) => v,
            None => continue,
        };
        let max_rows = 1 + (next(&mut s) % 32) as usize;
        let (region, rel) = grow_region(&cn, &doms, focus, max_rows);
        assert!(!region.tensors.is_empty(), "seed {seed}: empty region");
        assert_eq!(region.vars, rel.vars, "seed {seed}: vars mismatch");
        // Budget respected EXCEPT possibly by the forced seed tensor.
        if region.tensors.len() > 1 {
            assert!(
                rel.rows.len() <= max_rows,
                "seed {seed}: budget exceeded after a join"
            );
        }
        // The relation equals the reference contraction of the same region.
        let (configs, output_vars) = contract_region(&cn, &region, &doms);
        assert_eq!(rel.vars, output_vars, "seed {seed}");
        assert_eq!(rel.rows, configs, "seed {seed}");
    }
}
