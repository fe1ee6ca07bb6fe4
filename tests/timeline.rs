use nicompiler_backend::error::CompileError;
use nicompiler_backend::record::InstrBook;
use nicompiler_backend::timeline::{assemble, layout, Span};

/// Compiles records whose instruction is a constant level.
fn compile_levels(
    records: &Vec<InstrBook<f64>>,
    total_length: usize,
    default: f64,
) -> Result<Vec<f64>, CompileError> {
    let spans = layout(records, total_length)?;
    let samples: Vec<Vec<f64>> = spans
        .iter()
        .map(|s| vec![*records[s.record].instr(); s.end - s.start])
        .collect();
    Ok(assemble(&spans, &samples, total_length, default))
}

fn closed(start: usize, end: usize, keep: bool, level: f64) -> InstrBook<f64> {
    InstrBook::new(start, Some((end, keep)), level).unwrap()
}

fn open(start: usize, level: f64) -> InstrBook<f64> {
    InstrBook::new(start, None, level).unwrap()
}

#[test]
fn const_fills_whole_channel() {
    let out = compile_levels(&vec![closed(0, 10, false, 5.0)], 10, 0.0).unwrap();
    assert_eq!(out, vec![5.0; 10]);
}

#[test]
fn gap_fill_retains_last_value() {
    let out = compile_levels(&vec![closed(0, 5, true, 3.0)], 8, 0.0).unwrap();
    assert_eq!(out.len(), 8);
    assert_eq!(&out[0..5], &[3.0; 5]);
    assert_eq!(&out[5..8], &[3.0; 3]);
}

#[test]
fn gap_fill_reverts_to_default() {
    let out = compile_levels(&vec![closed(0, 5, false, 3.0)], 8, 0.0).unwrap();
    assert_eq!(out, vec![3.0, 3.0, 3.0, 3.0, 3.0, 0.0, 0.0, 0.0]);
}

#[test]
fn gap_fill_uses_channel_default_value() {
    let out = compile_levels(&vec![closed(2, 4, false, 1.0)], 6, -2.5).unwrap();
    assert_eq!(out, vec![-2.5, -2.5, 1.0, 1.0, -2.5, -2.5]);
}

#[test]
fn retained_value_is_last_sample_of_record() {
    let spans = layout(&vec![InstrBook::new(1, Some((4, true)), ()).unwrap()], 6).unwrap();
    let out = assemble(&spans, &vec![vec![10, 20, 30]], 6, 0);
    assert_eq!(out, vec![0, 10, 20, 30, 30, 30]);
}

#[test]
fn overlap_is_rejected() {
    let records = vec![closed(0, 5, false, 1.0), closed(3, 6, false, 2.0)];
    assert_eq!(
        compile_levels(&records, 10, 0.0),
        Err(CompileError::Overlap { start_pos: 3, prev_start_pos: 0, prev_end_pos: 5 })
    );
}

#[test]
fn overlap_found_in_unordered_input() {
    let records = vec![closed(3, 6, false, 2.0), closed(0, 5, false, 1.0)];
    assert_eq!(
        layout(&records, 10),
        Err(CompileError::Overlap { start_pos: 3, prev_start_pos: 0, prev_end_pos: 5 })
    );
}

#[test]
fn equal_starts_overlap() {
    let records = vec![open(2, 1.0), closed(2, 3, false, 2.0)];
    assert!(matches!(layout(&records, 10), Err(CompileError::Overlap { start_pos: 2, .. })));
}

#[test]
fn record_after_open_record_needs_one_tick() {
    let records = vec![open(4, 1.0), closed(4, 6, false, 2.0)];
    assert_eq!(
        layout(&records, 10),
        Err(CompileError::Overlap { start_pos: 4, prev_start_pos: 4, prev_end_pos: 5 })
    );
    assert!(layout(&vec![open(4, 1.0), closed(5, 6, false, 2.0)], 10).is_ok());
}

#[test]
fn record_past_channel_end_is_rejected() {
    let records = vec![closed(0, 2, false, 1.0), closed(5, 12, false, 2.0)];
    assert_eq!(
        layout(&records, 10),
        Err(CompileError::ExceedsLength { start_pos: 5, end_pos: 12, total_length: 10 })
    );
    assert_eq!(
        layout(&vec![open(10, 1.0)], 10),
        Err(CompileError::ExceedsLength { start_pos: 10, end_pos: 11, total_length: 10 })
    );
}

#[test]
fn empty_record_set_gives_default() {
    let out = compile_levels(&vec![], 4, 7.0).unwrap();
    assert_eq!(out, vec![7.0; 4]);
    assert_eq!(layout::<()>(&vec![], 4), Ok(vec![]));
}

#[test]
fn records_are_swept_in_start_order() {
    let records = vec![closed(6, 8, false, 3.0), closed(0, 2, false, 1.0), closed(3, 5, true, 2.0)];
    let spans = layout(&records, 10).unwrap();
    assert_eq!(
        spans,
        vec![
            Span { record: 1, start: 0, end: 2, retain: false },
            Span { record: 2, start: 3, end: 5, retain: true },
            Span { record: 0, start: 6, end: 8, retain: false },
        ]
    );
    let out = compile_levels(&records, 10, 0.0).unwrap();
    assert_eq!(out, vec![1.0, 1.0, 0.0, 2.0, 2.0, 2.0, 3.0, 3.0, 0.0, 0.0]);
}

#[test]
fn open_record_runs_to_next_start() {
    let records = vec![closed(5, 7, false, 2.0), open(1, 1.0)];
    let spans = layout(&records, 9).unwrap();
    assert_eq!(spans[0], Span { record: 1, start: 1, end: 5, retain: false });
    let out = compile_levels(&records, 9, 0.0).unwrap();
    assert_eq!(out, vec![0.0, 1.0, 1.0, 1.0, 1.0, 2.0, 2.0, 0.0, 0.0]);
}

#[test]
fn open_record_runs_to_channel_end() {
    let out = compile_levels(&vec![open(3, 4.0)], 6, 0.0).unwrap();
    assert_eq!(out, vec![0.0, 0.0, 0.0, 4.0, 4.0, 4.0]);
}

#[test]
fn open_record_at_last_tick() {
    let out = compile_levels(&vec![open(5, 4.0)], 6, 0.0).unwrap();
    assert_eq!(out, vec![0.0, 0.0, 0.0, 0.0, 0.0, 4.0]);
}

#[test]
fn compile_length_matches_total() {
    let cases: Vec<(Vec<InstrBook<f64>>, usize)> = vec![
        (vec![], 0),
        (vec![], 5),
        (vec![closed(0, 1, true, 1.0)], 1),
        (vec![closed(2, 3, true, 1.0), open(7, 2.0)], 20),
        (vec![closed(0, 3, false, 1.0), closed(3, 6, true, 2.0)], 6),
    ];
    for (records, total) in cases {
        assert_eq!(compile_levels(&records, total, 0.0).unwrap().len(), total);
    }
}

#[test]
fn compile_twice_identical() {
    let records = vec![closed(4, 6, true, 0.1), open(0, 0.2), closed(8, 9, false, 0.3)];
    let a = compile_levels(&records, 12, 0.5).unwrap();
    let b = compile_levels(&records, 12, 0.5).unwrap();
    let bits_a: Vec<u64> = a.iter().map(|x| x.to_bits()).collect();
    let bits_b: Vec<u64> = b.iter().map(|x| x.to_bits()).collect();
    assert_eq!(bits_a, bits_b);
}

#[test]
fn adjacent_closed_records_leave_no_gap() {
    let out = compile_levels(&vec![closed(0, 2, false, 1.0), closed(2, 4, false, 2.0)], 4, 9.0)
        .unwrap();
    assert_eq!(out, vec![1.0, 1.0, 2.0, 2.0]);
}
