use boolean_inference::dimacs::{clause_to_tensor, network_from_dimacs, parse_dimacs, parse_mcc_weights, DimacsError};

#[test]
fn parse_basic_dimacs() {
    let text = "c comment\np cnf 3 2\n1 -2 0\n2 3 0\n";
    let (nvars, clauses) = parse_dimacs(text).unwrap();
    assert_eq!(nvars, 3);
    assert_eq!(clauses, vec![vec![1, -2], vec![2, 3]]);
}

#[test]
fn clause_to_tensor_or_semantics() {
    // clause (x1 OR NOT x2): var_axes = [0, 1] (0-based), polarity [+, -]
    // config bit0 = x1, bit1 = x2. Unsatisfied only when x1=0 AND x2=1 => config 0b10 = 2.
    let (vars, dense) = clause_to_tensor(&[1, -2]);
    assert_eq!(vars, vec![0, 1]);
    assert_eq!(dense, vec![true, true, false, true]);
}

#[test]
fn network_from_dimacs_end_to_end() {
    let text = "p cnf 2 1\n1 2 0\n";
    let cn = network_from_dimacs(text).unwrap();
    assert_eq!(cn.tensors.len(), 1);
    assert_eq!(cn.n_vars(), 2);
}

#[test]
fn rejects_projected_show_header() {
    // `c p show ... 0` marks a projected-counting instance — a total counter
    // must refuse it, not count the projection as a total (§7 guard d).
    let r = parse_dimacs("c p show 1 2 0\np cnf 3 1\n1 2 0\n");
    assert!(matches!(r, Err(DimacsError::ProjectedInstance)));
    // A plain comment starting with `c` but not `c p show` still parses.
    assert!(parse_dimacs("c p weight 1 0.5 0\np cnf 2 1\n1 2 0\n").is_ok());
}

#[test]
fn declared_but_unused_vars_survive_as_header_count() {
    // `p cnf 5 1 / 1 2 0`: declared 5, only vars 1,2 used. The declared count
    // must be 5 (the counting front-end multiplies 2^(5−2)=8 back in for a
    // total of 24). The builder compresses vars 3,4,5 to n_vars=2.
    let (nvars, _clauses) = parse_dimacs("p cnf 5 1\n1 2 0\n").unwrap();
    assert_eq!(nvars, 5);
    let cn = network_from_dimacs("p cnf 5 1\n1 2 0\n").unwrap();
    assert_eq!(cn.n_vars(), 2, "unused declared vars compressed out");
    assert_eq!(nvars - cn.n_vars(), 3, "three free vars ⇒ ×2^3 multiplier");
}

#[test]
fn parses_mcc_weight_lines_and_rejects_cachet() {
    // MCC 2021+ `c p weight <lit> <w> 0`, both polarities explicit.
    let mcc = "p cnf 2 1\nc p weight 1 0.75 0\nc p weight -1 0.25 0\n1 2 0\n";
    let ws = parse_mcc_weights(mcc).expect("mcc weights");
    assert_eq!(
        ws,
        vec![(1i64, "0.75".to_string()), (-1i64, "0.25".to_string())]
    );
    // Legacy Cachet `w <var> <p>` must be refused, not silently mis-parsed.
    assert!(matches!(
        parse_mcc_weights("p cnf 2 1\nw 1 0.75\n1 2 0\n"),
        Err(DimacsError::CachetWeightLine)
    ));
    // A plain CNF with no weight lines yields an empty weight list.
    assert!(parse_mcc_weights("p cnf 2 1\n1 2 0\n").unwrap().is_empty());
}

#[test]
fn parse_dimacs_reads_declared_nvars_not_nclauses() {
    // `p cnf 5 2` declares 5 vars, 2 clauses. nvars must come from index 2 (=5),
    // not index 3 (=2). Literals only reach var 3, so a buggy parser returns 3.
    let (nvars, clauses) = parse_dimacs("p cnf 5 2\n1 -2 0\n2 3 0\n").unwrap();
    assert_eq!(nvars, 5);
    assert_eq!(clauses, vec![vec![1, -2], vec![2, 3]]);
}
