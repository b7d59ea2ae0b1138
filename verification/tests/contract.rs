use boolean_inference::contract::{contract, contract_region, join_all, setup_from_relations, support_relation, Relation};
use boolean_inference::domain::DomainMask;
use boolean_inference::network::{setup_problem, ConstraintNetwork};
use boolean_inference::region::Region;
use boolean_inference::semiring::{BigCount, Weight};
use boolean_inference::weighted::{wjoin, WRelation};

const OR2: [bool; 4] = [false, true, true, true]; // x ∨ y

// Brute-force reference: all configs over `vars` (ascending) satisfying every
// region tensor, encoded as a bitmask over `vars` order.
fn brute(cn: &ConstraintNetwork, region: &Region, doms: &[DomainMask]) -> Vec<u64> {
    let vars: Vec<usize> = region
        .vars
        .iter()
        .copied()
        .filter(|&v| !doms[v].is_fixed())
        .collect();
    let mut out = Vec::new();
    for cfg in 0u64..(1u64 << vars.len()) {
        // assignment of region vars
        let val = |v: usize| -> u32 {
            if let Some(pos) = vars.iter().position(|&x| x == v) {
                ((cfg >> pos) & 1) as u32
            } else {
                // fixed var
                match doms[v] {
                    DomainMask::D1 => 1,
                    _ => 0,
                }
            }
        };
        let ok = region.tensors.iter().all(|&tid| {
            let t = &cn.tensors[tid];
            let mut idx = 0u32;
            for (i, &v) in t.var_axes.iter().enumerate() {
                idx |= val(v) << i;
            }
            cn.is_sat(t, idx)
        });
        if ok {
            out.push(cfg);
        }
    }
    out.sort_unstable();
    out
}

#[test]
fn single_tensor_region_is_its_support() {
    let cn = setup_problem(2, vec![vec![0, 1]], vec![OR2.to_vec()]);
    let region = Region {
        id: 0,
        tensors: vec![0],
        vars: vec![0, 1],
    };
    let doms = vec![DomainMask::BOTH; 2];
    let (configs, output_vars) = contract_region(&cn, &region, &doms);
    assert_eq!(output_vars, vec![0, 1]);
    assert_eq!(configs, vec![1, 2, 3]); // OR support: all but (0,0)
}

#[test]
fn two_tensor_join_matches_bruteforce() {
    let cn = setup_problem(
        3,
        vec![vec![0, 1], vec![1, 2]],
        vec![OR2.to_vec(), OR2.to_vec()],
    );
    let region = Region {
        id: 1,
        tensors: vec![0, 1],
        vars: vec![0, 1, 2],
    };
    let doms = vec![DomainMask::BOTH; 3];
    let (configs, output_vars) = contract_region(&cn, &region, &doms);
    assert_eq!(output_vars, vec![0, 1, 2]);
    assert_eq!(configs, brute(&cn, &region, &doms));
    assert_eq!(configs, vec![2, 3, 5, 6, 7]); // (x0∨x1)∧(x1∨x2)
}

#[test]
fn fixed_var_is_sliced_out_of_output() {
    // Fix v0 = 1; the OR over [0,1] is then satisfied for any v1.
    let cn = setup_problem(2, vec![vec![0, 1]], vec![OR2.to_vec()]);
    let region = Region {
        id: 1,
        tensors: vec![0],
        vars: vec![0, 1],
    };
    let doms = vec![DomainMask::D1, DomainMask::BOTH];
    let (configs, output_vars) = contract_region(&cn, &region, &doms);
    assert_eq!(output_vars, vec![1]); // v0 fixed, dropped from output
    assert_eq!(configs, vec![0, 1]); // v1 free either way
}

#[test]
fn support_relation_reencodes_unsorted_axes() {
    // Tensor over var_axes = [2, 0] (UNSORTED); support configs over (bit0=v2, bit1=v0)
    // are {1, 2}: config 0b01 (v2=1,v0=0) and 0b10 (v2=0,v0=1).
    // Relation must be over sorted vars [0, 2] with rows re-encoded:
    //   (v0=0,v2=1) -> bit0(v0)=0,bit1(v2)=1 -> 0b10 = 2
    //   (v0=1,v2=0) -> bit0(v0)=1,bit1(v2)=0 -> 0b01 = 1
    let rel = support_relation(&[2, 0], &[1u32, 2u32]);
    assert_eq!(rel.vars, vec![0, 2]);
    assert_eq!(rel.rows, vec![1u64, 2u64]);
}

#[test]
fn relation_project_reencodes_and_dedups() {
    // vars [0,1,2], bit j = vars[j]: rows encode (v0,v1,v2).
    //   0b011 -> v0=1,v1=1,v2=0 ; 0b111 -> all 1 ; 0b101 -> v0=1,v1=0,v2=1
    let rel = Relation {
        vars: vec![0, 1, 2],
        rows: vec![0b011, 0b111, 0b101],
    };
    // Project onto [0,2] (new bit0=v0, bit1=v2):
    //   0b011 -> (v0=1,v2=0)=0b01 ; 0b111 -> (1,1)=0b11 ; 0b101 -> (1,1)=0b11 (dup)
    let p = rel.project(&[0, 2]);
    assert_eq!(p.vars, vec![0, 2]);
    assert_eq!(p.rows, vec![0b01, 0b11]);
}

#[test]
fn setup_from_relations_matches_dense_setup() {
    let or2 = vec![false, true, true, true]; // support {1,2,3}
    let dense_cn = setup_problem(
        3,
        vec![vec![0, 1], vec![1, 2]],
        vec![or2.clone(), or2.clone()],
    );
    let rels = vec![
        Relation {
            vars: vec![0, 1],
            rows: vec![1, 2, 3],
        },
        Relation {
            vars: vec![1, 2],
            rows: vec![1, 2, 3],
        },
    ];
    let rel_cn = setup_from_relations(3, rels);
    assert_eq!(rel_cn.tensors.len(), dense_cn.tensors.len());
    assert_eq!(rel_cn.unique_tensors.len(), dense_cn.unique_tensors.len()); // both dedup to 1
    assert_eq!(rel_cn.n_vars(), dense_cn.n_vars());
    for t in 0..rel_cn.tensors.len() {
        assert_eq!(
            rel_cn.support(&rel_cn.tensors[t]),
            dense_cn.support(&dense_cn.tensors[t]),
        );
    }
}

#[test]
fn weighted_project_sums_multiplicities_not_dedups() {
    // vars [0,1], rows (00,01,10) each weight 1. Project onto [0] SUMS: the
    // two rows with x0=0 (00,01) collapse to x0=0 weight 2; x0=1 (10) → 1.
    // The boolean project would dedup to weight-less {0,1}. Summing is the
    // whole counting pivot.
    let wr: WRelation<BigCount> = WRelation {
        vars: vec![0, 1],
        rows: vec![
            (0b00, BigCount::one()),
            (0b01, BigCount::one()),
            (0b10, BigCount::one()),
        ],
    };
    let p = wr.project(&[0]);
    assert_eq!(p.vars, vec![0]);
    assert_eq!(p.rows[0], (0u64, BigCount::from_u64(2)));
    assert_eq!(p.rows[1], (1u64, BigCount::one()));
}

#[test]
fn weighted_factors_are_never_dropped_or_merged() {
    // §7 blocker 6: a weighted factor joined with itself must yield w·w, NOT
    // w (0/1 constraints are idempotent under boolean dedup; weighted ones
    // are NOT — w·w ≠ w whenever w ≠ 1). Two identical-SUPPORT relations with
    // weight-3 rows: the join weight must be 9, proving weights are carried
    // through and no flyweight dedup collapses them.
    let three = BigCount::from_u64(3);
    let a: WRelation<BigCount> = WRelation {
        vars: vec![0],
        rows: vec![(1u64, three.clone())],
    };
    let b = a.clone();
    let j = wjoin(&a, &b);
    assert_eq!(j.vars, vec![0]);
    assert_eq!(j.rows, vec![(1u64, BigCount::from_u64(9))]);
    assert_ne!(j.rows[0].1, three, "w·w must differ from w for w ≠ 1");
}

#[test]
fn weighted_join_multiplies_agreeing_rows() {
    // a over [0,1] rows {01:2, 11:1}; b over [1,2] rows {01:3, 11:5} (bit0 of
    // b = var1). Agreement is on var1. 01(a: v0=1,v1=0) joins b rows with
    // v1=0 → b 01 has v1=... let's keep it concrete and simple: single rows.
    let a: WRelation<BigCount> = WRelation {
        vars: vec![0, 1],
        rows: vec![(0b11, BigCount::from_u64(2))], // v0=1,v1=1
    };
    let b: WRelation<BigCount> = WRelation {
        vars: vec![1, 2],
        rows: vec![(0b11, BigCount::from_u64(3))], // v1=1,v2=1
    };
    let j = wjoin(&a, &b); // agree on v1=1 ⇒ v0=1,v1=1,v2=1 weight 2·3=6
    assert_eq!(j.vars, vec![0, 1, 2]);
    assert_eq!(j.rows, vec![(0b111, BigCount::from_u64(6))]);
}

#[test]
fn contract_matches_join_all_then_project() {
    // (x0∨x1) over [0,1] and (x1∨x2) over [1,2]; support {1,2,3} each.
    let a = Relation {
        vars: vec![0, 1],
        rows: vec![1, 2, 3],
    };
    let b = Relation {
        vars: vec![1, 2],
        rows: vec![1, 2, 3],
    };
    let keep = vec![0, 2];
    let got = contract(vec![a.clone(), b.clone()], &keep);
    // Reference: join then hand-project (guards the extraction).
    let want = join_all(vec![a, b]).project(&keep);
    assert_eq!(got.vars, want.vars);
    assert_eq!(got.rows, want.rows);
    // Concrete: (x0∨x1)∧(x1∨x2) projected to (x0,x2) allows all four configs.
    assert_eq!(got.vars, vec![0, 2]);
    assert_eq!(got.rows, vec![0, 1, 2, 3]);
}
