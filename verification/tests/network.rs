use boolean_inference::network::{setup_problem, TensorData};

#[test]
fn tensordata_extracts_support_and_aggregates() {
    // 2-var tensor, satisfied configs = {01, 11} (i.e. index 1 and 3)
    let dense = vec![false, true, false, true];
    let td = TensorData::from_dense(dense);
    assert_eq!(td.support, vec![1u32, 3u32]);
    assert_eq!(td.support_or, 0b11); // 1 | 3
    assert_eq!(td.support_and, 0b01); // 1 & 3
}

#[test]
fn tensordata_empty_support_aggregates() {
    let td = TensorData::from_dense(vec![false, false]);
    assert!(td.support.is_empty());
    assert_eq!(td.support_or, 0);
    assert_eq!(td.support_and, 0xFFFF_FFFF);
}

#[test]
fn setup_problem_dedups_and_builds_incidence() {
    // 3 vars (0,1,2). Two tensors with identical truth tables share TensorData.
    // tensor 0 over vars [0,1], tensor 1 over vars [1,2], same dense table.
    let dense = vec![false, true, true, true]; // OR of 2 literals
    let cn = setup_problem(
        3,
        vec![vec![0, 1], vec![1, 2]],
        vec![dense.clone(), dense.clone()],
    );
    assert_eq!(cn.tensors.len(), 2);
    assert_eq!(cn.unique_tensors.len(), 1); // deduplicated
    assert_eq!(cn.tensors[0].data_idx, cn.tensors[1].data_idx);
    // incidence: var 1 is in both tensors
    assert_eq!(cn.v2t[1], vec![0, 1]);
    assert_eq!(cn.v2t[0], vec![0]);
    assert_eq!(cn.v2t[2], vec![1]);
    assert_eq!(cn.vars.len(), 3);
    assert_eq!(cn.vars[1].deg, 2);
}

#[test]
fn from_support_aggregates_match_from_dense() {
    // dense {false,true,false,true} -> support {1,3}.
    let a = TensorData::from_dense(vec![false, true, false, true]);
    let b = TensorData::from_support(vec![1u32, 3u32]);
    assert_eq!(a.support, b.support);
    assert_eq!(a.support_or, b.support_or);
    assert_eq!(a.support_and, b.support_and);
}

#[test]
fn setup_problem_compresses_unused_vars() {
    // var 1 appears in no tensor -> compressed out; var 2 remaps to id 1.
    let dense = vec![false, true]; // 1-var tensor, satisfied when var=1
    let cn = setup_problem(3, vec![vec![0], vec![2]], vec![dense.clone(), dense]);
    assert_eq!(cn.vars.len(), 2); // var 1 dropped
    assert_eq!(cn.orig_to_new[0], Some(0));
    assert_eq!(cn.orig_to_new[1], None);
    assert_eq!(cn.orig_to_new[2], Some(1));
    // the second tensor now references compressed var id 1
    assert_eq!(cn.tensors[1].var_axes, vec![1]);
}
