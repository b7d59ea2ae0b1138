use boolean_inference::ct::build_tables;
use boolean_inference::domain::DomainMask;
use boolean_inference::network::setup_problem;
use boolean_inference::util::{count_unfixed, get_active_tensors, is_entailed, mask_value_u64};

#[test]
fn mask_value_marks_fixed_bits() {
    // vars [0,1,2]; doms: v0=D1, v1=D0, v2=BOTH.
    let doms = vec![DomainMask::D1, DomainMask::D0, DomainMask::BOTH];
    let (mask, value) = mask_value_u64(&doms, &[0, 1, 2]);
    assert_eq!(mask, 0b011); // bits 0,1 fixed; bit 2 free
    assert_eq!(value, 0b001); // v0=1 -> bit0 set; v1=0 -> bit1 clear
}

#[test]
fn active_tensors_have_an_unfixed_var() {
    // T0 over [0,1], T1 over [2]. Fix v2 -> T1 inactive, T0 active.
    let cn = setup_problem(
        3,
        vec![vec![0, 1], vec![2]],
        vec![vec![false, true, true, true], vec![false, true]],
    );
    let doms = vec![DomainMask::BOTH, DomainMask::BOTH, DomainMask::D1];
    assert_eq!(get_active_tensors(&cn, &doms), vec![0]);
}

#[test]
fn entailment_tracks_slicing() {
    // T0 = OR over [0,1] (3/4 rows), T1 = full over [1,2] (4/4 rows).
    let or2 = vec![false, true, true, true];
    let full2 = vec![true, true, true, true];
    let cn = setup_problem(3, vec![vec![0, 1], vec![1, 2]], vec![or2, full2]);
    let (masks, _t) = build_tables(&cn);
    let doms = vec![DomainMask::BOTH; 3];
    // Unsliced: only the full table is entailed.
    assert!(!is_entailed(&cn, 0, &doms, &masks));
    assert!(is_entailed(&cn, 1, &doms, &masks));
    // v1 = 1 satisfies the OR: T0 becomes entailed (v0 free in it).
    let mut doms2 = doms.clone();
    doms2[1] = DomainMask::D1;
    assert!(is_entailed(&cn, 0, &doms2, &masks));
    // v1 = 0 leaves the OR forcing v0: 1 row over 1 unfixed var != 2.
    let mut doms3 = doms.clone();
    doms3[1] = DomainMask::D0;
    assert!(!is_entailed(&cn, 0, &doms3, &masks));
}

#[test]
fn count_unfixed_counts_free_vars() {
    let doms = vec![
        DomainMask::D1,
        DomainMask::BOTH,
        DomainMask::D0,
        DomainMask::BOTH,
    ];
    assert_eq!(count_unfixed(&doms), 2);
}
