use boolean_inference::audit::{audit_cube, fixed_assignment_signature, read_cubes, AuditError, FrontierError};
use boolean_inference::domain::DomainMask;
use boolean_inference::network::setup_problem;
use boolean_inference::problem::TnProblem;
use boolean_inference::residual::diagnose;

#[test]
fn separates_constrained_components_from_entailed_free_variables() {
    let xor = vec![true, false, false, true];
    let full = vec![true, true];
    let network = setup_problem(
        5,
        vec![vec![0, 1], vec![2, 3], vec![4]],
        vec![xor.clone(), xor, full],
    );
    let problem = TnProblem::from_network_gac(network).unwrap();
    let result = diagnose(
        &problem.static_cn,
        &problem.doms,
        &problem.masks,
        &problem.tables,
    );
    assert_eq!(result.unfixed_variables, 5);
    assert_eq!(result.active_tensors, 2);
    assert_eq!(result.entailed_tensors, 1);
    assert_eq!(result.constrained_components, 2);
    assert_eq!(result.free_variables, 1);
    assert_eq!(result.components_including_free, 3);
    assert_eq!(result.largest_component_variables, 2);
    assert_eq!(result.largest_component_tensors, 1);
    assert_eq!(result.live_rows_total, 4);
    // Each of the two constraints has two open variables and two rows: one bit of compression.
    let bits: Vec<f64> = result
        .residual_arities
        .iter()
        .zip(&result.live_rows)
        .map(|(&arity, &rows)| arity as f64 - (rows as f64).log2())
        .collect();
    assert_eq!(bits.iter().sum::<f64>() / bits.len() as f64, 1.0);
    assert_eq!(result.active_degrees, vec![1, 1, 1, 1]);
    assert_eq!(result.component_variables, vec![2, 2]);
    assert_eq!(result.component_tensors, vec![1, 1]);
    assert_eq!(result.active_incidence_edges, 4);
}

#[test]
fn a_contradiction_leaves_nothing_to_measure() {
    let network = setup_problem(2, vec![vec![0, 1]], vec![vec![false, true, true, true]]);
    let problem = TnProblem::from_network_gac(network).unwrap();
    let doms = vec![DomainMask::NONE, DomainMask::BOTH];
    let result = diagnose(&problem.static_cn, &doms, &problem.masks, &problem.tables);
    assert!(result.contradiction);
    assert_eq!(result.active_tensors, 0);
    assert_eq!(result.entailed_tensors, 1);
    assert_eq!(result.largest_component_variables, 1);
    assert!(result.live_rows.is_empty());
}

#[test]
fn fixed_signature_preserves_original_variable_and_value() {
    let network = setup_problem(2, vec![vec![0]], vec![vec![false, true]]);
    let problem = TnProblem::from_network_gac(network).unwrap();
    let (fixed, mask, values) = fixed_assignment_signature(&problem.static_cn, &problem.doms);
    assert_eq!(fixed, 1);
    assert_eq!(mask, "0000000000000001");
    assert_eq!(values, "0000000000000001");
}

#[test]
fn signatures_span_words() {
    let scopes: Vec<Vec<usize>> = (0..70).map(|v| vec![v]).collect();
    let tables: Vec<Vec<bool>> = (0..70).map(|v| vec![v % 2 == 0, v % 2 == 1]).collect();
    let problem = TnProblem::from_network_gac(setup_problem(70, scopes, tables)).unwrap();
    let (fixed, mask, values) = fixed_assignment_signature(&problem.static_cn, &problem.doms);
    assert_eq!(fixed, 70);
    assert_eq!(mask, "ffffffffffffffff000000000000003f");
    assert_eq!(values, "aaaaaaaaaaaaaaaa000000000000002a");
}

#[test]
fn frontiers_are_read_line_by_line() {
    let cubes = read_cubes("c a comment\n\na 1 -2 0\r\na 0\n").unwrap();
    assert_eq!(cubes, vec![vec![1, -2], vec![]]);
    assert!(matches!(read_cubes("c only\n"), Err(FrontierError::Empty)));
    assert!(matches!(read_cubes("a 1 0\nb 1 0\n"), Err(FrontierError::ExpectedCube(2))));
    assert!(matches!(read_cubes("a 1\n"), Err(FrontierError::ExpectedCube(1))));
    assert!(matches!(read_cubes("a 1 x 0\n"), Err(FrontierError::InvalidLiteral(1, w)) if w == "x"));
    assert!(matches!(read_cubes("a 1 -1 0\n"), Err(FrontierError::ZeroOrDuplicate(1))));
    assert!(matches!(read_cubes("a 0 0\n"), Err(FrontierError::ZeroOrDuplicate(1))));
}

#[test]
fn auditing_a_cube_propagates_and_restores() {
    // (x0 or x1) and (x1 or x2), with x3 in no constraint.
    let or2 = vec![false, true, true, true];
    let network = setup_problem(4, vec![vec![0, 1], vec![1, 2]], vec![or2.clone(), or2]);
    let mut problem = TnProblem::from_network_gac(network).unwrap();
    let before = problem.doms.clone();
    let a = audit_cube(&mut problem, &[-2]).unwrap();
    assert_eq!(a.explicit_new_variables, 1);
    assert_eq!(a.gac_additional_fixed_variables, 2);
    assert_eq!(a.fixed_original_variables, 3);
    assert_eq!(a.fixed_mask_hex, "0000000000000007");
    assert_eq!(a.fixed_value_hex, "0000000000000005");
    assert_eq!(a.residual.unfixed_variables, 0);
    assert_eq!(problem.doms, before);
    assert!(matches!(audit_cube(&mut problem, &[5]), Err(AuditError::OutOfRange(5))));
    assert!(matches!(audit_cube(&mut problem, &[4]), Err(AuditError::CompressedOut(4))));
    assert!(matches!(audit_cube(&mut problem, &[1, -1]), Err(AuditError::Contradicts(-1))));
    let conflict = audit_cube(&mut problem, &[-1, -2]).unwrap();
    assert!(conflict.residual.contradiction);
    assert_eq!(problem.doms, before);
}
