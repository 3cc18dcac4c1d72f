use gia::record::{Record, RecordFormat, Strand, Frac};
use gia::subtract::subtract;
use gia::writer::write_records_iter_with;

fn b3(chr: u32, start: u64, end: u64) -> Record {
    Record::new_bed3(chr, start, end)
}

fn b6(chr: u32, start: u64, end: u64, name: u32, score_tenths: u64, strand: Strand) -> Record {
    Record::new_bed6(chr, start, end, name, score_tenths, strand)
}

fn build_expected_str(expected: &Vec<(u32, u32, u32)>) -> String {
    expected
        .iter()
        .map(|(chr, start, end)| format!("{}\t{}\t{}\n", chr, start, end))
        .collect::<Vec<String>>()
        .join("")
}

fn build_expected_str_bed6(expected: &Vec<(u32, u32, u32, u32, f64, char)>) -> String {
    expected
        .iter()
        .map(|(chr, start, end, name, score, strand)| {
            format!(
                "{}\t{}\t{}\t{}\t{:.1}\t{}\n",
                chr, start, end, name, score, strand
            )
        })
        .collect::<Vec<String>>()
        .join("")
}

fn subtract_a_bed3() -> Vec<Record> {
    vec![b3(1, 100, 200), b3(1, 200, 300), b3(1, 400, 475), b3(1, 500, 550)]
}

fn subtract_b_bed3() -> Vec<Record> {
    vec![b3(1, 120, 125), b3(1, 150, 160), b3(1, 460, 470), b3(1, 475, 500)]
}

fn subtract_a_bed6() -> Vec<Record> {
    vec![
        b6(1, 100, 200, 0, 0, Strand::Plus),
        b6(1, 200, 300, 0, 0, Strand::Plus),
        b6(1, 400, 475, 0, 0, Strand::Plus),
        b6(1, 500, 550, 0, 0, Strand::Plus),
    ]
}

fn subtract_b_bed6() -> Vec<Record> {
    vec![
        b6(1, 120, 125, 0, 0, Strand::Plus),
        b6(1, 150, 160, 0, 0, Strand::Plus),
        b6(1, 460, 470, 0, 0, Strand::Plus),
        b6(1, 475, 500, 0, 0, Strand::Plus),
    ]
}

#[test]
fn test_subtract_merged_bed3() {
    let a = subtract_a_bed3();
    let b = subtract_b_bed3();
    let out = subtract(&a, &b, None, false).unwrap();
    let text = write_records_iter_with(&out, None, RecordFormat::Bed3).unwrap();

    let expected = vec![
        (1, 100, 120),
        (1, 125, 150),
        (1, 160, 300),
        (1, 400, 460),
        (1, 470, 475),
        (1, 500, 550),
    ];
    let expected_str = build_expected_str(&expected);
    assert_eq!(text, expected_str);
}

#[test]
fn test_subtract_merged_bed6() {
    let a = subtract_a_bed6();
    let b = subtract_b_bed6();
    let out = subtract(&a, &b, None, false).unwrap();
    let text = write_records_iter_with(&out, None, RecordFormat::Bed6).unwrap();

    let expected = vec![
        (1, 100, 120, 0, 0.0, '+'),
        (1, 125, 150, 0, 0.0, '+'),
        (1, 160, 300, 0, 0.0, '+'),
        (1, 400, 460, 0, 0.0, '+'),
        (1, 470, 475, 0, 0.0, '+'),
        (1, 500, 550, 0, 0.0, '+'),
    ];
    let expected_str = build_expected_str_bed6(&expected);
    assert_eq!(text, expected_str);
}

#[test]
fn test_subtract_unmerged_bed3() {
    let a = subtract_a_bed3();
    let b = subtract_b_bed3();
    let out = subtract(&a, &b, None, true).unwrap();
    let text = write_records_iter_with(&out, None, RecordFormat::Bed3).unwrap();

    let expected = vec![
        (1, 100, 120),
        (1, 125, 150),
        (1, 160, 200),
        (1, 200, 300),
        (1, 400, 460),
        (1, 470, 475),
        (1, 500, 550),
    ];
    let expected_str = build_expected_str(&expected);
    assert_eq!(text, expected_str);
}

#[test]
fn test_subtract_unmerged_bed6() {
    let a = subtract_a_bed6();
    let b = subtract_b_bed6();
    let out = subtract(&a, &b, None, true).unwrap();
    let text = write_records_iter_with(&out, None, RecordFormat::Bed6).unwrap();

    let expected = vec![
        (1, 100, 120, 0, 0.0, '+'),
        (1, 125, 150, 0, 0.0, '+'),
        (1, 160, 200, 0, 0.0, '+'),
        (1, 200, 300, 0, 0.0, '+'),
        (1, 400, 460, 0, 0.0, '+'),
        (1, 470, 475, 0, 0.0, '+'),
        (1, 500, 550, 0, 0.0, '+'),
    ];
    let expected_str = build_expected_str_bed6(&expected);
    assert_eq!(text, expected_str);
}

#[test]
fn test_subtract_fractional_query() {
    let a = subtract_a_bed3();
    let b = subtract_b_bed3();
    let out = subtract(&a, &b, Some(Frac::new(1, 2)), true).unwrap();
    let text = write_records_iter_with(&out, None, RecordFormat::Bed3).unwrap();

    let expected = vec![(1, 100, 200), (1, 200, 300), (1, 400, 475), (1, 500, 550)];
    let expected_str = build_expected_str(&expected);
    assert_eq!(text, expected_str);
}
