use std::io::Read;

use ccll_guidelines::codec::xor_mask;
use ccll_guidelines::{apply_guidelines_to_level, list_levels, modify_save_data, Error};

const PLAIN_CONTAINER: &[u8] = b"<s>Test</s><k>k4</k><s>X|kA14,|Y</s>";

#[test]
fn list_levels_reads_a_plain_container() {
    let names = list_levels(PLAIN_CONTAINER).unwrap();
    assert_eq!(names.len(), 1);
    assert_eq!(names[0].as_slice(), b"Test");
}

#[test]
fn end_to_end_splices_the_guideline_field_and_nothing_else() {
    let out =
        apply_guidelines_to_level(PLAIN_CONTAINER, b"Test", b"2.000000\tX").unwrap();
    assert_eq!(out.as_slice(), b"<s>Test</s><k>k4</k><s>X|kA14,2.000000~0.9~|Y</s>");
}

#[test]
fn spliced_output_is_readable_by_the_same_decode_path() {
    let out =
        apply_guidelines_to_level(PLAIN_CONTAINER, b"Test", b"2.000000\tX").unwrap();
    let names = list_levels(out.as_slice()).unwrap();
    assert_eq!(names.len(), 1);
    assert_eq!(names[0].as_slice(), b"Test");
}

#[test]
fn unknown_level_name_is_record_not_found() {
    assert_eq!(
        apply_guidelines_to_level(PLAIN_CONTAINER, b"Missing", b"2.0\tX"),
        Err(Error::RecordNotFound)
    );
}

#[test]
fn bad_label_line_aborts_before_any_change() {
    assert_eq!(
        apply_guidelines_to_level(PLAIN_CONTAINER, b"Test", b"nonsense"),
        Err(Error::ParseError)
    );
}

#[test]
fn mismatched_name_and_payload_counts_are_rejected() {
    // One name marker but no payload marker at all.
    let blob = b"<s>Test</s><k>k4</k>no payload here";
    assert_eq!(
        apply_guidelines_to_level(blob, b"Test", b"2.0\tX"),
        Err(Error::RecordNotFound)
    );
}

#[test]
fn flagged_container_flows_through_the_whole_pipeline() {
    let mut encoder = flate2::read::DeflateEncoder::new(
        PLAIN_CONTAINER,
        flate2::Compression::default(),
    );
    let mut compressed = Vec::new();
    encoder.read_to_end(&mut compressed).unwrap();
    let mut with_header = vec![0x1Du8, 0, 0, 0, 0, 0, 0, 0, 0, 0];
    with_header.extend_from_slice(&compressed);
    let encoded = base64::Engine::encode(
        &base64::engine::general_purpose::URL_SAFE,
        &with_header,
    );
    let raw = xor_mask(encoded.as_bytes());
    assert_eq!(raw[0], 67);

    let names = list_levels(raw.as_slice()).unwrap();
    assert_eq!(names[0].as_slice(), b"Test");
    let out = apply_guidelines_to_level(raw.as_slice(), b"Test", b"0.250000\tA\x01").unwrap();
    assert_eq!(out.as_slice(), b"<s>Test</s><k>k4</k><s>X|kA14,0.250000~1~|Y</s>");
}

#[test]
fn encoded_payload_is_decoded_and_written_back_in_plain_form() {
    let plain_payload = b"L|kA14,|R";
    let mut encoder = flate2::read::DeflateEncoder::new(
        plain_payload.as_slice(),
        flate2::Compression::default(),
    );
    let mut compressed = Vec::new();
    encoder.read_to_end(&mut compressed).unwrap();
    let mut with_header = vec![0u8; 10];
    with_header.extend_from_slice(&compressed);
    let encoded = base64::Engine::encode(
        &base64::engine::general_purpose::URL_SAFE,
        &with_header,
    );

    let mut blob = b"<s>Enc</s><k>k4</k><s>".to_vec();
    blob.extend_from_slice(encoded.as_bytes());
    blob.extend_from_slice(b"</s>");

    let out = apply_guidelines_to_level(blob.as_slice(), b"Enc", b"1.000000\tA\x01").unwrap();
    assert_eq!(out.as_slice(), b"<s>Enc</s><k>k4</k><s>L|kA14,1.000000~1~|R</s>");
}

#[test]
fn undecodable_container_is_invalid_encoding() {
    assert_eq!(list_levels(b"\xff\xfe"), Err(Error::InvalidEncoding));
}

#[test]
fn modify_save_data_splices_by_ordinal() {
    let mut save_data = PLAIN_CONTAINER.to_vec();
    modify_save_data(0, b"9.000000~1~", &mut save_data).unwrap();
    assert_eq!(save_data.as_slice(), b"<s>Test</s><k>k4</k><s>X|kA14,9.000000~1~|Y</s>");
}

#[test]
fn modify_save_data_out_of_range_leaves_the_blob_unchanged() {
    let mut save_data = PLAIN_CONTAINER.to_vec();
    assert_eq!(modify_save_data(1, b"1.000000~1~", &mut save_data), Err(Error::RecordNotFound));
    assert_eq!(save_data.as_slice(), PLAIN_CONTAINER);
}

#[test]
fn modify_save_data_without_marker_reports_field_not_found() {
    let mut save_data = b"<s>Test</s><k>k4</k><s>X|no marker|Y</s>".to_vec();
    let before = save_data.clone();
    assert_eq!(modify_save_data(0, b"1.000000~1~", &mut save_data), Err(Error::FieldNotFound));
    assert_eq!(save_data, before);
}
