use ccll_guidelines::labels::{create_guidelines, parse_labels, render_guidelines};
use ccll_guidelines::{Error, GuidelineColor, LabelEntry};

fn entry(time_micros: u64, color: GuidelineColor) -> LabelEntry {
    LabelEntry { time_micros, color }
}

#[test]
fn two_lines_parse_and_sort_by_time() {
    let entries = parse_labels(b"1.500000\tA\n0.250000\tA\x01").unwrap();
    assert_eq!(entries.len(), 2);
    assert_eq!(entries[0], entry(250000, GuidelineColor::Green));
    assert_eq!(entries[1], entry(1500000, GuidelineColor::Yellow));
}

#[test]
fn render_of_empty_is_the_empty_field() {
    assert_eq!(render_guidelines(&[]).as_slice(), b"");
}

#[test]
fn render_writes_six_decimals_and_color_codes() {
    let out = render_guidelines(&[
        entry(250000, GuidelineColor::Green),
        entry(1500000, GuidelineColor::Yellow),
    ]);
    assert_eq!(out.as_slice(), b"0.250000~1~1.500000~0.9~");
}

#[test]
fn color_values_match_the_on_disk_codes() {
    assert_eq!(GuidelineColor::Orange.value(), "0");
    assert_eq!(GuidelineColor::Yellow.value(), "0.9");
    assert_eq!(GuidelineColor::Green.value(), "1");
}

#[test]
fn category_digits_select_their_colors() {
    let entries =
        parse_labels(b"1.0\tA0\n2.0\tA1\n3.0\tA2\n4.0\tA\x00\n5.0\tA\x02\n6.0\tAx").unwrap();
    let colors: Vec<GuidelineColor> = entries.iter().map(|e| e.color).collect();
    assert_eq!(
        colors,
        vec![
            GuidelineColor::Yellow,
            GuidelineColor::Green,
            GuidelineColor::Orange,
            GuidelineColor::Yellow,
            GuidelineColor::Orange,
            GuidelineColor::Yellow,
        ]
    );
}

#[test]
fn equal_times_keep_input_order() {
    let entries = parse_labels(b"1.0\tA\x02\n1.0\tA\x01").unwrap();
    assert_eq!(entries[0], entry(1000000, GuidelineColor::Orange));
    assert_eq!(entries[1], entry(1000000, GuidelineColor::Green));
}

#[test]
fn empty_lines_and_crlf_endings_are_handled() {
    let entries = parse_labels(b"\n1.0\tA\x01\r\n\r\n0.5\tA\n").unwrap();
    assert_eq!(entries.len(), 2);
    assert_eq!(entries[0], entry(500000, GuidelineColor::Yellow));
    assert_eq!(entries[1], entry(1000000, GuidelineColor::Green));
}

#[test]
fn line_without_tab_still_parses_its_number() {
    let entries = parse_labels(b"2.5").unwrap();
    assert_eq!(entries.len(), 1);
    assert_eq!(entries[0], entry(2500000, GuidelineColor::Yellow));
}

#[test]
fn unparseable_time_is_a_parse_error() {
    assert_eq!(parse_labels(b"abc\tX"), Err(Error::ParseError));
    assert_eq!(parse_labels(b"1.5e3\tX"), Err(Error::ParseError));
    assert_eq!(parse_labels(b"-1.0\tX"), Err(Error::ParseError));
    assert_eq!(parse_labels(b".\tX"), Err(Error::ParseError));
}

#[test]
fn oversized_integer_part_is_a_parse_error() {
    assert_eq!(parse_labels(b"99999999999999.0\tX"), Err(Error::ParseError));
    assert!(parse_labels(b"9999999999999.0\tX").is_ok());
}

#[test]
fn fractional_digits_beyond_the_sixth_are_dropped() {
    let entries = parse_labels(b"0.1234567\tX").unwrap();
    assert_eq!(entries[0].time_micros, 123456);
}

#[test]
fn bare_fraction_and_bare_integer_parse() {
    let entries = parse_labels(b".5\tX\n3\tX\n7.\tX").unwrap();
    assert_eq!(entries[0].time_micros, 500000);
    assert_eq!(entries[1].time_micros, 3000000);
    assert_eq!(entries[2].time_micros, 7000000);
}

#[test]
fn create_guidelines_parses_sorts_and_renders() {
    let out = create_guidelines(b"1.500000\tA\n0.250000\tA\x01").unwrap();
    assert_eq!(out.as_slice(), b"0.250000~1~1.500000~0.9~");
    assert_eq!(create_guidelines(b"bad\tX"), Err(Error::ParseError));
}

#[test]
fn empty_label_source_renders_to_the_empty_field() {
    assert_eq!(create_guidelines(b"").unwrap().as_slice(), b"");
}
