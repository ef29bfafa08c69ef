use std::io::Read;

use ccll_guidelines::locator::{
    extract_level_names, find_guideline_field_range, find_payload_range,
    find_payload_range_by_name, replace_guidelines, resolve_payload, splice_range,
};
use ccll_guidelines::{Error, GuidelineColor, LabelEntry};

const BLOB: &[u8] =
    b"<s>Alpha</s><k>k4</k><s>DATA|kA14,|one</s><s>Beta</s><k>k4</k><s>MORE|two</s>";

#[test]
fn names_come_back_in_order_of_appearance() {
    let names = extract_level_names(BLOB);
    assert_eq!(names.len(), 2);
    assert_eq!(names[0].as_slice(), b"Alpha");
    assert_eq!(names[1].as_slice(), b"Beta");
}

#[test]
fn every_ordinal_below_the_count_succeeds_and_the_count_fails() {
    let names = extract_level_names(BLOB);
    let n = names.len();
    for ordinal in 0..n {
        assert!(find_payload_range(BLOB, ordinal).is_ok());
    }
    assert_eq!(find_payload_range(BLOB, n), Err(Error::RecordNotFound));
}

#[test]
fn payload_ranges_point_at_the_embedded_data() {
    let (a, b) = find_payload_range(BLOB, 0).unwrap();
    assert_eq!(&BLOB[a..b], b"DATA|kA14,|one");
    let (a, b) = find_payload_range(BLOB, 1).unwrap();
    assert_eq!(&BLOB[a..b], b"MORE|two");
}

#[test]
fn lookup_by_name_joins_names_to_payloads_by_position() {
    let (a, b) = find_payload_range_by_name(BLOB, b"Beta").unwrap();
    assert_eq!(&BLOB[a..b], b"MORE|two");
    assert_eq!(find_payload_range_by_name(BLOB, b"Gamma"), Err(Error::RecordNotFound));
}

#[test]
fn name_with_disallowed_bytes_never_matches() {
    // An equals sign may not stand in a name, so no sub-record is found.
    let blob = b"<s>A=B</s><k>k4</k><s>X|Y</s>";
    assert!(extract_level_names(blob).is_empty());
}

#[test]
fn guideline_field_range_is_the_run_after_the_marker() {
    let (a, b) = find_guideline_field_range(b"xxkA14,0.5~1~yy").unwrap();
    assert_eq!((a, b), (7, 13));
}

#[test]
fn empty_guideline_field_has_an_empty_range() {
    let (a, b) = find_guideline_field_range(b"DATA|kA14,|one").unwrap();
    assert_eq!((a, b), (10, 10));
}

#[test]
fn missing_guideline_marker_is_field_not_found() {
    assert_eq!(find_guideline_field_range(b"DATA|no marker here"), Err(Error::FieldNotFound));
}

#[test]
fn splice_replaces_exactly_the_range() {
    let out = splice_range(b"hello world", 5, 6, b"---");
    assert_eq!(out.as_slice(), b"hello---world");
}

#[test]
fn splice_into_empty_range_disturbs_no_byte_outside_it() {
    let payload = b"DATA|kA14,|one";
    let out = splice_range(payload, 10, 10, b"2.000000~0.9~");
    assert_eq!(&out[..10], &payload[..10]);
    assert_eq!(&out[10..23], b"2.000000~0.9~");
    assert_eq!(&out[23..], &payload[10..]);
}

#[test]
fn plain_payload_resolves_to_itself() {
    let (p, was_encoded) = resolve_payload(b"DATA|kA14,|one").unwrap();
    assert_eq!(p.as_slice(), b"DATA|kA14,|one");
    assert!(!was_encoded);
}

#[test]
fn encoded_payload_resolves_through_the_decoder() {
    let plain = b"DATA|kA14,0.5~1~|one";
    let mut encoder =
        flate2::read::DeflateEncoder::new(plain.as_slice(), flate2::Compression::default());
    let mut compressed = Vec::new();
    encoder.read_to_end(&mut compressed).unwrap();
    let mut with_header = vec![0u8; 10];
    with_header.extend_from_slice(&compressed);
    let encoded = base64::Engine::encode(
        &base64::engine::general_purpose::URL_SAFE,
        &with_header,
    );
    assert!(!encoded.as_bytes().contains(&b'|'));
    let (p, was_encoded) = resolve_payload(encoded.as_bytes()).unwrap();
    assert_eq!(p.as_slice(), plain.as_slice());
    assert!(was_encoded);
}

#[test]
fn garbage_payload_without_separator_is_invalid_encoding() {
    assert_eq!(resolve_payload(b"!!!"), Err(Error::InvalidEncoding));
}

#[test]
fn replace_guidelines_discards_the_old_field_wholesale() {
    let payload = b"A|kA14,9.000000~0~|B";
    let labels = [LabelEntry { time_micros: 250000, color: GuidelineColor::Green }];
    let out = replace_guidelines(payload, &labels).unwrap();
    assert_eq!(out.as_slice(), b"A|kA14,0.250000~1~|B");
}

#[test]
fn replace_guidelines_without_marker_is_field_not_found() {
    let labels = [LabelEntry { time_micros: 0, color: GuidelineColor::Yellow }];
    assert_eq!(replace_guidelines(b"A|B", &labels), Err(Error::FieldNotFound));
}
