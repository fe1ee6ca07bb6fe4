use nicompiler_backend::error::ConstructionError;
use nicompiler_backend::record::InstrBook;

#[test]
fn minimum_length_rejected() {
    assert_eq!(
        InstrBook::new(5, Some((5, true)), "instr").err(),
        Some(ConstructionError::InvalidInterval { start_pos: 5, end_pos: Some(5) })
    );
    assert_eq!(
        InstrBook::new(5, Some((3, false)), "instr").err(),
        Some(ConstructionError::InvalidInterval { start_pos: 5, end_pos: Some(3) })
    );
    assert_eq!(
        InstrBook::new(usize::MAX, None, "instr").err(),
        Some(ConstructionError::InvalidInterval { start_pos: usize::MAX, end_pos: None })
    );
}

#[test]
fn one_tick_record_is_accepted() {
    let b = InstrBook::new(5, Some((6, false)), "instr").unwrap();
    assert_eq!(b.dur(), Some(1));
    assert_eq!(b.end_pos(), Some(6));
    assert_eq!(b.eff_end_pos(), 6);
}

#[test]
fn open_record_effective_end() {
    let b = InstrBook::new(4, None, "instr").unwrap();
    assert_eq!(b.eff_end_pos(), 5);
    assert_eq!(b.end_pos(), None);
    assert_eq!(b.dur(), None);
}

#[test]
fn closed_record_accessors() {
    let b = InstrBook::new(2, Some((9, true)), 1.5).unwrap();
    assert_eq!(b.start_pos(), 2);
    assert_eq!(b.end_spec(), Some((9, true)));
    assert_eq!(b.end_pos(), Some(9));
    assert_eq!(b.eff_end_pos(), 9);
    assert_eq!(b.dur(), Some(7));
    assert_eq!(*b.instr(), 1.5);
}

#[test]
fn records_ordered_by_start_only() {
    let a = InstrBook::new(3, Some((4, true)), 1.0).unwrap();
    let b = InstrBook::new(3, None, 2.0).unwrap();
    let c = InstrBook::new(7, Some((9, false)), 1.0).unwrap();
    assert!(a == b);
    assert!(a != c);
    assert!(a < c);
    assert!(c > b);
    assert_eq!(a.partial_cmp(&b), Some(std::cmp::Ordering::Equal));
}
