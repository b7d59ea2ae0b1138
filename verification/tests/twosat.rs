use boolean_inference::domain::DomainMask;
use boolean_inference::network::{setup_problem, ConstraintNetwork};
use boolean_inference::twosat::solve_2sat;

// Does a fully-fixed assignment satisfy every tensor?
fn satisfies(cn: &ConstraintNetwork, sol: &[DomainMask]) -> bool {
    cn.tensors.iter().all(|t| {
        let mut cfg = 0u32;
        for (i, &v) in t.var_axes.iter().enumerate() {
            if sol[v].value().expect("fully assigned") {
                cfg |= 1 << i;
            }
        }
        cn.is_sat(t, cfg)
    })
}

const OR2: [bool; 4] = [false, true, true, true]; // x ∨ y

#[test]
fn satisfiable_2sat_returns_a_model() {
    // (x0∨x1) ∧ (¬x1∨x2): a binary chain, satisfiable.
    // ¬x1∨x2 over [1,2]: forbids (x1=1,x2=0) = config 0b01 -> dense[1]=false.
    let imp = vec![true, false, true, true];
    let cn = setup_problem(3, vec![vec![0, 1], vec![1, 2]], vec![OR2.to_vec(), imp]);
    let doms = vec![DomainMask::BOTH; 3];
    let sol = solve_2sat(&cn, &doms).expect("should be SAT");
    assert!(sol.iter().all(|d| d.is_fixed()));
    assert!(satisfies(&cn, &sol));
}

#[test]
fn unsatisfiable_2sat_returns_none() {
    // All four binary patterns of (x0,x1) forbidden -> UNSAT.
    let f00 = vec![false, true, true, true]; // forbids (0,0)
    let f10 = vec![true, false, true, true]; // forbids (1,0)  [config bit0=x0]
    let f01 = vec![true, true, false, true]; // forbids (0,1)
    let f11 = vec![true, true, true, false]; // forbids (1,1)
    let cn = setup_problem(
        2,
        vec![vec![0, 1], vec![0, 1], vec![0, 1], vec![0, 1]],
        vec![f00, f10, f01, f11],
    );
    let doms = vec![DomainMask::BOTH; 2];
    assert!(solve_2sat(&cn, &doms).is_none());
}
