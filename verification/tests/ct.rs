use boolean_inference::ct::TableMasks;

#[test]
fn masks_index_rows_by_literal() {
    // arity 2, support = configs {0b01, 0b11} (rows 0,1). bit0==1 in both;
    // bit1==1 only in row1 (0b11).
    let support = vec![0b01u32, 0b11u32];
    let m = TableMasks::build(&support, 2);
    assert_eq!(m.n_rows, 2);
    assert_eq!(m.n_words, 1);
    assert_eq!(m.support_slice(0, 1)[0], 0b11); // axis0==1: rows 0,1
    assert_eq!(m.support_slice(0, 0)[0], 0b00); // axis0==0: none
    assert_eq!(m.support_slice(1, 1)[0], 0b10); // axis1==1: row1
    assert_eq!(m.support_slice(1, 0)[0], 0b01); // axis1==0: row0
}

#[test]
fn empty_support_has_zero_words() {
    let m = TableMasks::build(&[], 2);
    assert_eq!(m.n_rows, 0);
    assert_eq!(m.n_words, 0);
    assert!(m.supports.is_empty());
}
