use boolean_inference::domain::DomainMask;
use boolean_inference::measure::{measure_core, Measure};
use boolean_inference::network::setup_problem;

#[test]
fn measures_count_as_julia_does() {
    // T0 hard: degree-3 OR over [0,1,2]; T1 binary over [2,3].
    let t0 = vec![false, true, true, true, true, true, true, true];
    let or2 = vec![false, true, true, true];
    let cn = setup_problem(4, vec![vec![0, 1, 2], vec![2, 3]], vec![t0, or2]);

    // All unfixed.
    let doms = vec![DomainMask::BOTH; 4];
    assert_eq!(measure_core(&cn, &doms, Measure::NumUnfixedVars), 4);
    assert_eq!(measure_core(&cn, &doms, Measure::NumUnfixedTensors), 2);
    // T0 degree 3 -> excess 1; T1 degree 2 -> excess 0.
    assert_eq!(measure_core(&cn, &doms, Measure::NumHardTensors), 1);

    // Fix v3 -> T1 still active (v2 free), T0 still degree 3.
    let doms2 = vec![
        DomainMask::BOTH,
        DomainMask::BOTH,
        DomainMask::BOTH,
        DomainMask::D0,
    ];
    assert_eq!(measure_core(&cn, &doms2, Measure::NumUnfixedVars), 3);
    assert_eq!(measure_core(&cn, &doms2, Measure::NumUnfixedTensors), 2);
    assert_eq!(measure_core(&cn, &doms2, Measure::NumHardTensors), 1);

    // Fix v0,v1 -> T0 degree 1 (no longer hard); T1 degree 2.
    let doms3 = vec![
        DomainMask::D1,
        DomainMask::D0,
        DomainMask::BOTH,
        DomainMask::BOTH,
    ];
    assert_eq!(measure_core(&cn, &doms3, Measure::NumHardTensors), 0);
}

#[test]
fn cli_labels_round_trip() {
    for (label, measure) in [
        ("vars", Measure::NumUnfixedVars),
        ("tensors", Measure::NumUnfixedTensors),
        ("hard-tensors", Measure::NumHardTensors),
    ] {
        assert_eq!(Measure::parse(label), Ok(measure));
        assert_eq!(measure.label(), label);
    }
    assert!(Measure::parse("unknown").is_err());
}
