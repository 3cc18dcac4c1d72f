use gia::merge::{merge, merge_stream};
use gia::record::{Record, RecordFormat, Strand};
use gia::translate::Translater;
use gia::writer::{write_records_iter_with, WriteIter, WriteIterImpl};

fn b3(chr: u32, start: u64, end: u64) -> Record {
    Record::new_bed3(chr, start, end)
}

fn b6(chr: u32, start: u64, end: u64, name: u32, score_tenths: u64, strand: Strand) -> Record {
    Record::new_bed6(chr, start, end, name, score_tenths, strand)
}

fn build_expected_str(expected: &Vec<(u32, u32, u32)>) -> String {
    expected
        .iter()
        .map(|(chr, start, end)| format!("{}\t{}\t{}\n", chr, start, end))
        .collect::<Vec<String>>()
        .join("")
}

fn build_expected_str_bed6(expected: &Vec<(String, u32, u32, String, f64, char)>) -> String {
    expected
        .iter()
        .map(|(chr, start, end, name, score, strand)| {
            format!(
                "{}\t{}\t{}\t{}\t{:.1}\t{}\n",
                chr, start, end, name, score, strand
            )
        })
        .collect::<Vec<String>>()
        .join("")
}

fn sorted_bed3() -> Vec<Record> {
    vec![b3(1, 10, 20), b3(1, 20, 45), b3(1, 100, 300), b3(2, 105, 301)]
}

fn unsorted_bed3() -> Vec<Record> {
    vec![b3(1, 100, 300), b3(2, 105, 301), b3(1, 10, 20), b3(1, 20, 45)]
}

fn sorted_bed6() -> Vec<Record> {
    vec![
        b6(1, 10, 20, 0, 0, Strand::Plus),
        b6(1, 20, 45, 0, 0, Strand::Plus),
        b6(1, 100, 300, 0, 0, Strand::Plus),
        b6(2, 105, 301, 0, 0, Strand::Plus),
    ]
}

fn unsorted_bed6() -> Vec<Record> {
    vec![
        b6(1, 100, 300, 0, 0, Strand::Plus),
        b6(2, 105, 301, 0, 0, Strand::Plus),
        b6(1, 10, 20, 0, 0, Strand::Plus),
        b6(1, 20, 45, 0, 0, Strand::Plus),
    ]
}

#[test]
fn test_merge_sorted_bed3() {
    let input = sorted_bed3();
    let out = merge(&input, false);
    let text = write_records_iter_with(&out, None, RecordFormat::Bed3).unwrap();

    let expected = vec![(1, 10, 45), (1, 100, 300), (2, 105, 301)];
    let expected_str = build_expected_str(&expected);
    assert_eq!(text, expected_str);
}

#[test]
fn test_merge_sorted_bed6() {
    let input = sorted_bed6();
    let out = merge(&input, false);
    let text = write_records_iter_with(&out, None, RecordFormat::Bed6).unwrap();

    let expected = vec![
        ("1".to_string(), 10, 45, "0".to_string(), 0.0, '+'),
        ("1".to_string(), 100, 300, "0".to_string(), 0.0, '+'),
        ("2".to_string(), 105, 301, "0".to_string(), 0.0, '+'),
    ];
    let expected_str = build_expected_str_bed6(&expected);
    assert_eq!(text, expected_str);
}

#[test]
fn test_merge_sorted_skip_sort() {
    let input = sorted_bed3();
    let out = merge(&input, true);
    let text = write_records_iter_with(&out, None, RecordFormat::Bed3).unwrap();

    let expected = vec![(1, 10, 45), (1, 100, 300), (2, 105, 301)];
    let expected_str = build_expected_str(&expected);
    assert_eq!(text, expected_str);
}

#[test]
fn test_merge_unsorted_bed3() {
    let input = unsorted_bed3();
    let out = merge(&input, false);
    let text = write_records_iter_with(&out, None, RecordFormat::Bed3).unwrap();

    let expected = vec![(1, 10, 45), (1, 100, 300), (2, 105, 301)];
    let expected_str = build_expected_str(&expected);
    assert_eq!(text, expected_str);
}

#[test]
fn test_merge_unsorted_bed6() {
    let input = unsorted_bed6();
    let out = merge(&input, false);
    let text = write_records_iter_with(&out, None, RecordFormat::Bed6).unwrap();

    let expected = vec![
        ("1".to_string(), 10, 45, "0".to_string(), 0.0, '+'),
        ("1".to_string(), 100, 300, "0".to_string(), 0.0, '+'),
        ("2".to_string(), 105, 301, "0".to_string(), 0.0, '+'),
    ];
    let expected_str = build_expected_str_bed6(&expected);
    assert_eq!(text, expected_str);
}

#[test]
fn test_merge_unsorted_named_bed3() {
    // names interned in first-seen order over the unsorted input
    let mut tr = Translater::new();
    let chr1 = tr.intern(&"chr1".to_string());
    let chr2 = tr.intern(&"chr2".to_string());
    let input = vec![
        b3(chr1, 100, 300),
        b3(chr2, 105, 301),
        b3(chr1, 10, 20),
        b3(chr1, 20, 45),
    ];
    let out = merge(&input, false);
    let text = write_records_iter_with(&out, Some(&tr), RecordFormat::Bed3).unwrap();

    let expected = vec![("chr1", 10, 45), ("chr1", 100, 300), ("chr2", 105, 301)];
    let expected_str = expected
        .iter()
        .map(|(chr, start, end)| format!("{}\t{}\t{}\n", chr, start, end))
        .collect::<Vec<String>>()
        .join("");
    assert_eq!(text, expected_str);
}

#[test]
fn test_merge_unsorted_named_bed6() {
    let mut tr = Translater::new();
    let chr1 = tr.intern(&"chr1".to_string());
    let chr2 = tr.intern(&"chr2".to_string());
    let zero = tr.intern(&"0".to_string());
    let input = vec![
        b6(chr1, 100, 300, zero, 0, Strand::Plus),
        b6(chr2, 105, 301, zero, 0, Strand::Plus),
        b6(chr1, 10, 20, zero, 0, Strand::Plus),
        b6(chr1, 20, 45, zero, 0, Strand::Plus),
    ];
    let out = merge(&input, false);
    // merged runs carry the neutral name id, which must resolve too
    let named: Vec<Record> = out
        .iter()
        .map(|r| Record::new_bed6(r.chr, r.start, r.end, zero, r.score_tenths, r.strand))
        .collect();
    let text = write_records_iter_with(&named, Some(&tr), RecordFormat::Bed6).unwrap();

    let expected = vec![
        ("chr1".to_string(), 10, 45, "0".to_string(), 0.0, '+'),
        ("chr1".to_string(), 100, 300, "0".to_string(), 0.0, '+'),
        ("chr2".to_string(), 105, 301, "0".to_string(), 0.0, '+'),
    ];
    let expected_str = build_expected_str_bed6(&expected);
    assert_eq!(text, expected_str);
}

#[test]
fn test_merge_sorted_named_bed3() {
    let mut tr = Translater::new();
    let chr1 = tr.intern(&"chr1".to_string());
    let chr2 = tr.intern(&"chr2".to_string());
    let input = vec![
        b3(chr1, 10, 20),
        b3(chr1, 20, 45),
        b3(chr1, 100, 300),
        b3(chr2, 105, 301),
    ];
    let out = merge(&input, false);
    let text = write_records_iter_with(&out, Some(&tr), RecordFormat::Bed3).unwrap();

    let expected = vec![("chr1", 10, 45), ("chr1", 100, 300), ("chr2", 105, 301)];
    let expected_str = expected
        .iter()
        .map(|(chr, start, end)| format!("{}\t{}\t{}\n", chr, start, end))
        .collect::<Vec<String>>()
        .join("");
    assert_eq!(text, expected_str);
}

#[test]
fn test_merge_sorted_named_bed6() {
    let mut tr = Translater::new();
    let chr1 = tr.intern(&"chr1".to_string());
    let chr2 = tr.intern(&"chr2".to_string());
    let zero = tr.intern(&"0".to_string());
    let input = vec![
        b6(chr1, 10, 20, zero, 0, Strand::Plus),
        b6(chr1, 20, 45, zero, 0, Strand::Plus),
        b6(chr1, 100, 300, zero, 0, Strand::Plus),
        b6(chr2, 105, 301, zero, 0, Strand::Plus),
    ];
    let out = merge(&input, false);
    let named: Vec<Record> = out
        .iter()
        .map(|r| Record::new_bed6(r.chr, r.start, r.end, zero, r.score_tenths, r.strand))
        .collect();
    let text = write_records_iter_with(&named, Some(&tr), RecordFormat::Bed6).unwrap();

    let expected = vec![
        ("chr1".to_string(), 10, 45, "0".to_string(), 0.0, '+'),
        ("chr1".to_string(), 100, 300, "0".to_string(), 0.0, '+'),
        ("chr2".to_string(), 105, 301, "0".to_string(), 0.0, '+'),
    ];
    let expected_str = build_expected_str_bed6(&expected);
    assert_eq!(text, expected_str);
}

#[test]
fn test_merge_stream() {
    let input = sorted_bed3();
    let out = merge_stream(&input);
    let text = WriteIterImpl::write_iter(&out, RecordFormat::Bed3);

    let expected = vec![(1, 10, 45), (1, 100, 300), (2, 105, 301)];
    let expected_str = build_expected_str(&expected);
    assert_eq!(text, expected_str);
}
