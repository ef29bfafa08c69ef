use std::io::Read;

use ccll_guidelines::codec::{decode_level_data, read_ccll_file, xor_mask};
use ccll_guidelines::Error;

/// Builds a flagged container around `blob`: deflate-compress, prepend the
/// 10-byte header, URL-safe base64 encode, then XOR-mask every byte. The
/// first header byte is chosen so the masked first byte equals the flag.
fn build_flagged_container(blob: &[u8]) -> Vec<u8> {
    let mut encoder =
        flate2::read::DeflateEncoder::new(blob, flate2::Compression::default());
    let mut compressed = Vec::new();
    encoder.read_to_end(&mut compressed).unwrap();
    let mut with_header = vec![0x1Du8, 0, 0, 0, 0, 0, 0, 0, 0, 0];
    with_header.extend_from_slice(&compressed);
    let encoded = base64::Engine::encode(
        &base64::engine::general_purpose::URL_SAFE,
        &with_header,
    );
    let raw = xor_mask(encoded.as_bytes());
    assert_eq!(raw[0], 67, "masked first byte must carry the encoding flag");
    raw
}

#[test]
fn xor_mask_is_self_inverse() {
    let data = b"<s>Name</s><k>k4</k>\x00\xffarbitrary";
    let once = xor_mask(data);
    assert_ne!(once.as_slice(), data.as_slice());
    let twice = xor_mask(once.as_slice());
    assert_eq!(twice.as_slice(), data.as_slice());
}

#[test]
fn flagged_container_re_masked_reproduces_original_bytes() {
    let raw = build_flagged_container(b"<s>Test</s><k>k4</k><s>X|kA14,|Y</s>");
    let unmasked = xor_mask(raw.as_slice());
    let re_masked = xor_mask(unmasked.as_slice());
    assert_eq!(re_masked, raw);
}

#[test]
fn plain_container_round_trips_modulo_nul_padding() {
    let text = b"<s>Alpha</s><k>k4</k><s>A|kA14,|B</s>";
    let mut raw = text.to_vec();
    raw.extend_from_slice(&[0u8, 0, 0]);
    let decoded = read_ccll_file(raw.as_slice()).unwrap();
    assert_eq!(decoded.as_slice(), text.as_slice());
}

#[test]
fn plain_container_without_padding_is_unchanged() {
    let text = b"plain body with no markers";
    let decoded = read_ccll_file(text).unwrap();
    assert_eq!(decoded.as_slice(), text.as_slice());
}

#[test]
fn empty_container_decodes_to_empty_text() {
    let decoded = read_ccll_file(b"").unwrap();
    assert!(decoded.is_empty());
}

#[test]
fn flagged_container_decodes_to_blob() {
    let blob = b"<s>Test</s><k>k4</k><s>X|kA14,|Y</s>";
    let raw = build_flagged_container(blob);
    let decoded = read_ccll_file(raw.as_slice()).unwrap();
    assert_eq!(decoded.as_slice(), blob.as_slice());
}

#[test]
fn level_data_decodes_through_base64_and_deflate() {
    let payload = b"1,2,3;kA14,0.5~1~;more";
    let mut encoder =
        flate2::read::DeflateEncoder::new(payload.as_slice(), flate2::Compression::default());
    let mut compressed = Vec::new();
    encoder.read_to_end(&mut compressed).unwrap();
    let mut with_header = vec![9u8, 8, 7, 6, 5, 4, 3, 2, 1, 0];
    with_header.extend_from_slice(&compressed);
    let encoded = base64::Engine::encode(
        &base64::engine::general_purpose::URL_SAFE,
        &with_header,
    );
    let decoded = decode_level_data(encoded.as_bytes()).unwrap();
    assert_eq!(decoded.as_slice(), payload.as_slice());
}

#[test]
fn level_data_accepts_unpadded_base64() {
    let payload = b"unpadded-case";
    let mut encoder =
        flate2::read::DeflateEncoder::new(payload.as_slice(), flate2::Compression::default());
    let mut compressed = Vec::new();
    encoder.read_to_end(&mut compressed).unwrap();
    let mut with_header = vec![0u8; 10];
    with_header.extend_from_slice(&compressed);
    let encoded = base64::Engine::encode(
        &base64::engine::general_purpose::URL_SAFE_NO_PAD,
        &with_header,
    );
    let decoded = decode_level_data(encoded.as_bytes()).unwrap();
    assert_eq!(decoded.as_slice(), payload.as_slice());
}

#[test]
fn invalid_base64_is_invalid_encoding() {
    assert_eq!(decode_level_data(b"!!!not base64!!!"), Err(Error::InvalidEncoding));
}

#[test]
fn truncated_decoded_header_is_invalid_encoding() {
    // Five bytes decode to fewer than the ten header bytes that must exist.
    let encoded = base64::Engine::encode(
        &base64::engine::general_purpose::URL_SAFE,
        [1u8, 2, 3, 4, 5],
    );
    assert_eq!(decode_level_data(encoded.as_bytes()), Err(Error::InvalidEncoding));
}

#[test]
fn corrupt_deflate_stream_is_invalid_encoding() {
    let mut with_header = vec![0u8; 10];
    with_header.extend_from_slice(b"\xff\xff\xff\xff\xff\xff\xff\xff");
    let encoded = base64::Engine::encode(
        &base64::engine::general_purpose::URL_SAFE,
        &with_header,
    );
    assert_eq!(decode_level_data(encoded.as_bytes()), Err(Error::InvalidEncoding));
}

#[test]
fn invalid_utf8_plain_container_is_invalid_encoding() {
    assert_eq!(read_ccll_file(b"\xff\xfe\x80"), Err(Error::InvalidEncoding));
}
