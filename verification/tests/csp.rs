use boolean_inference::csp::{network_from_csp, CspError};

#[test]
fn parses_native_relations_without_flattening() {
    let network = network_from_csp("4\n0 1 : 1 2\n1 2 3 : 0 3 5 6\n").unwrap();
    assert_eq!(network.n_vars(), 4);
    assert_eq!(network.tensors.len(), 2);
    assert_eq!(network.tensors[0].var_axes, vec![0, 1]);
    assert_eq!(network.support(&network.tensors[0]), &[1, 2]);
    assert_eq!(network.tensors[1].var_axes, vec![1, 2, 3]);
    assert_eq!(network.support(&network.tensors[1]), &[0, 3, 5, 6]);
}

#[test]
fn rejects_out_of_scope_configuration_and_variable() {
    assert!(matches!(
        network_from_csp("2\n0 1 : 4\n"),
        Err(CspError::ConfigurationOutOfRange { .. })
    ));
    assert!(matches!(
        network_from_csp("2\n0 2 : 0\n"),
        Err(CspError::VariableOutOfRange { .. })
    ));
}
