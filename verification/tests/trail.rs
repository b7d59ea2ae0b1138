use boolean_inference::ct::RSparseBitSet;
use boolean_inference::domain::DomainMask;
use boolean_inference::trail::Trail;

#[test]
fn dom_record_and_restore_is_lifo() {
    let mut doms = vec![DomainMask::BOTH, DomainMask::BOTH];
    let mut tables: Vec<RSparseBitSet> = Vec::new();
    let mut tr = Trail::new();
    let m = tr.mark();
    tr.record_dom(0, doms[0]);
    doms[0] = DomainMask::D1;
    tr.record_dom(1, doms[1]);
    doms[1] = DomainMask::D0;
    tr.record_dom(0, doms[0]);
    doms[0] = DomainMask::NONE; // overwrite same var
    tr.restore_to(m, &mut doms, &mut tables);
    assert_eq!(doms, vec![DomainMask::BOTH, DomainMask::BOTH]);
}

#[test]
fn epoch_is_monotonic_across_open_and_restore() {
    let mut doms: Vec<DomainMask> = Vec::new();
    let mut tables: Vec<RSparseBitSet> = Vec::new();
    let mut tr = Trail::new();
    let e0 = tr.epoch();
    let e1 = tr.open();
    assert!(e1 > e0);
    let m = tr.mark();
    tr.restore_to(m, &mut doms, &mut tables);
    assert!(
        tr.epoch() > e1,
        "restore must bump epoch so scopes never share one"
    );
}
