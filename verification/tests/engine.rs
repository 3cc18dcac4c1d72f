use gia::intersect::{intersect, IntersectParams};
use gia::merge::{merge, merge_stream, MergeStream};
use gia::record::{Frac, GiaError, Record, RecordFormat, Strand, validate_records};
use gia::sort::{sort_records, sort_stage};
use gia::subtract::subtract;
use gia::translate::Translater;
use gia::writer::{write_records_iter_with, WriteNamedIter, WriteNamedIterImpl};

fn b3(chr: u32, start: u64, end: u64) -> Record {
    Record::new_bed3(chr, start, end)
}

fn no_thresholds() -> IntersectParams {
    IntersectParams {
        fraction_query: None,
        fraction_target: None,
        reciprocal: false,
        either: false,
    }
}

fn total_len(records: &Vec<Record>) -> u64 {
    records.iter().map(|r| r.end - r.start).sum()
}

#[test]
fn test_sort_orders_and_keeps_records() {
    let input = vec![b3(2, 5, 6), b3(1, 30, 40), b3(1, 10, 50), b3(1, 10, 20)];
    let out = sort_records(&input);
    assert_eq!(
        out,
        vec![b3(1, 10, 20), b3(1, 10, 50), b3(1, 30, 40), b3(2, 5, 6)]
    );
}

#[test]
fn test_sort_keeps_sorted_input_identical() {
    // records with equal keys but different payload keep their order
    let input = vec![
        Record::new_bed6(1, 10, 20, 3, 5, Strand::Plus),
        Record::new_bed6(1, 10, 20, 9, 1, Strand::Minus),
        Record::new_bed6(2, 5, 6, 0, 0, Strand::Dot),
    ];
    assert_eq!(sort_records(&input), input);
}

#[test]
fn test_sort_stage_rejects_malformed() {
    let input = vec![b3(1, 10, 20), b3(1, 30, 25), b3(1, 5, 5)];
    match sort_stage(&input) {
        Err(GiaError::MalformedRecord { index }) => assert_eq!(index, 1),
        _ => panic!("expected the malformed record to be reported"),
    }
    assert!(validate_records(&input).is_err());
    assert!(validate_records(&vec![b3(1, 5, 5)]).is_ok());
}

#[test]
fn test_merge_idempotent_concrete() {
    let input = vec![b3(1, 10, 20), b3(1, 15, 45), b3(1, 45, 50), b3(2, 1, 3)];
    let once = merge(&input, false);
    let twice = merge(&once, false);
    assert_eq!(once, twice);
    assert_eq!(once, vec![b3(1, 10, 50), b3(2, 1, 3)]);
}

#[test]
fn test_merge_stream_matches_batch() {
    let sorted = vec![b3(1, 10, 20), b3(1, 20, 45), b3(1, 100, 300), b3(2, 105, 301)];
    assert_eq!(merge(&sorted, false), merge_stream(&sorted));
    assert_eq!(merge(&sorted, true), merge_stream(&sorted));
}

#[test]
fn test_merge_stream_push_emits_closed_runs() {
    let mut st = MergeStream::new();
    assert_eq!(st.push(b3(1, 10, 20)), None);
    assert_eq!(st.push(b3(1, 20, 45)), None);
    assert_eq!(st.push(b3(1, 100, 300)), Some(b3(1, 10, 45)));
    assert_eq!(st.push(b3(2, 105, 301)), Some(b3(1, 100, 300)));
    assert_eq!(st.finish(), Some(b3(2, 105, 301)));
}

#[test]
fn test_intersect_default_any_overlap() {
    let a = vec![b3(1, 100, 200), b3(1, 300, 400)];
    let b = vec![b3(1, 150, 350), b3(1, 390, 395), b3(2, 100, 200)];
    let out = intersect(&a, &b, no_thresholds()).unwrap();
    assert_eq!(out, vec![b3(1, 150, 200), b3(1, 300, 350), b3(1, 390, 395)]);
}

#[test]
fn test_intersect_fraction_query() {
    let a = vec![b3(1, 100, 200), b3(1, 300, 400)];
    let b = vec![b3(1, 150, 350), b3(1, 390, 395), b3(2, 100, 200)];
    let mut params = no_thresholds();
    params.fraction_query = Some(Frac::new(1, 2));
    let out = intersect(&a, &b, params).unwrap();
    // exactly half of each query record counts; five bases of the second do not
    assert_eq!(out, vec![b3(1, 150, 200), b3(1, 300, 350)]);
}

#[test]
fn test_intersect_fraction_target() {
    let a = vec![b3(1, 100, 200), b3(1, 300, 400)];
    let b = vec![b3(1, 150, 350), b3(1, 390, 395), b3(2, 100, 200)];
    let mut params = no_thresholds();
    params.fraction_target = Some(Frac::new(1, 2));
    let out = intersect(&a, &b, params).unwrap();
    assert_eq!(out, vec![b3(1, 390, 395)]);
}

#[test]
fn test_intersect_reciprocal() {
    let a = vec![b3(1, 100, 200), b3(1, 300, 400)];
    let b = vec![b3(1, 150, 350), b3(1, 390, 395), b3(2, 100, 200)];
    let mut params = no_thresholds();
    params.fraction_query = Some(Frac::new(1, 2));
    params.reciprocal = true;
    let out = intersect(&a, &b, params).unwrap();
    assert_eq!(out, Vec::<Record>::new());
}

#[test]
fn test_intersect_either() {
    let a = vec![b3(1, 100, 200), b3(1, 300, 400)];
    let b = vec![b3(1, 150, 350), b3(1, 390, 395), b3(2, 100, 200)];
    let mut params = no_thresholds();
    params.fraction_query = Some(Frac::new(1, 2));
    params.fraction_target = Some(Frac::new(1, 2));
    params.either = true;
    let out = intersect(&a, &b, params).unwrap();
    assert_eq!(out, vec![b3(1, 150, 200), b3(1, 300, 350), b3(1, 390, 395)]);
}

#[test]
fn test_intersect_carries_query_payload() {
    let a = vec![Record::new_bed6(1, 100, 200, 7, 35, Strand::Minus)];
    let b = vec![b3(1, 150, 350)];
    let out = intersect(&a, &b, no_thresholds()).unwrap();
    assert_eq!(out, vec![Record::new_bed6(1, 150, 200, 7, 35, Strand::Minus)]);
    let text = write_records_iter_with(&out, None, RecordFormat::Bed6).unwrap();
    assert_eq!(text, "1\t150\t200\t7\t3.5\t-\n");
}

#[test]
fn test_subtract_exact_cover_emits_nothing() {
    // a subtrahend record exactly covering a minuend record leaves no
    // zero-length fragment behind
    let a = vec![b3(1, 100, 200), b3(1, 300, 400)];
    let b = vec![b3(1, 100, 200)];
    let out = subtract(&a, &b, None, true).unwrap();
    assert_eq!(out, vec![b3(1, 300, 400)]);
}

#[test]
fn test_subtract_zero_length_cut_removes_nothing() {
    // a zero-length subtrahend interval has no positive overlap and must
    // not split the minuend
    let a = vec![b3(1, 100, 200)];
    let b = vec![b3(1, 150, 150)];
    let out = subtract(&a, &b, None, true).unwrap();
    assert_eq!(out, vec![b3(1, 100, 200)]);
}

#[test]
fn test_subtract_intersect_duality_concrete() {
    // with no threshold and a merged subtrahend, fragment length plus
    // overlap length accounts for every base of the minuend set
    let a = vec![b3(1, 100, 200), b3(1, 250, 400), b3(2, 10, 20)];
    let b = vec![b3(1, 150, 300), b3(1, 350, 360)];
    let sub = subtract(&a, &b, None, true).unwrap();
    let inter = intersect(&a, &b, no_thresholds()).unwrap();
    assert_eq!(total_len(&sub) + total_len(&inter), total_len(&a));
}

#[test]
fn test_translator_intern_idempotent() {
    let mut tr = Translater::new();
    let a = tr.intern(&"chr1".to_string());
    let b = tr.intern(&"chr2".to_string());
    let a2 = tr.intern(&"chr1".to_string());
    assert_eq!(a, 0);
    assert_eq!(b, 1);
    assert_eq!(a2, a);
    assert_eq!(tr.len(), 2);
    assert_eq!(tr.get_name(a).unwrap(), "chr1".to_string());
    assert_eq!(tr.get_name(b).unwrap(), "chr2".to_string());
}

#[test]
fn test_translator_unknown_id() {
    let mut tr = Translater::new();
    tr.intern(&"chr1".to_string());
    match tr.get_name(5) {
        Err(GiaError::UnknownId { id }) => assert_eq!(id, 5),
        _ => panic!("expected the unknown id to be reported"),
    }
    let records = vec![b3(5, 1, 2)];
    let named = WriteNamedIterImpl::write_named_iter(&records, &tr, RecordFormat::Bed3);
    assert!(matches!(named, Err(GiaError::UnknownId { id: 5 })));
}

#[test]
fn test_writer_score_and_strand_rendering() {
    let records = vec![
        Record::new_bed6(3, 0, 18446744073709551615, 12, 1007, Strand::Dot),
    ];
    let text = write_records_iter_with(&records, None, RecordFormat::Bed6).unwrap();
    assert_eq!(text, "3\t0\t18446744073709551615\t12\t100.7\t.\n");
}

#[test]
fn test_fraction_boundary_is_inclusive() {
    // a cut covering exactly half of the minuend record still counts
    let a = vec![b3(1, 100, 200)];
    let b = vec![b3(1, 100, 150)];
    let out = subtract(&a, &b, Some(Frac::new(1, 2)), true).unwrap();
    assert_eq!(out, vec![b3(1, 150, 200)]);
    // one base short of half does not
    let b2 = vec![b3(1, 100, 149)];
    let out2 = subtract(&a, &b2, Some(Frac::new(1, 2)), true).unwrap();
    assert_eq!(out2, vec![b3(1, 100, 200)]);
}
