//! Editor core for a game's proprietary save-file container: reversible
//! container decoding, positional lookup of named sub-records in the decoded
//! blob, and wholesale replacement of the guideline field inside one
//! sub-record's payload with text synthesized from timestamped labels.
//!
//! Re-encoding on write is deliberately omitted: a modified blob is returned
//! as decoded plain text for the caller to write verbatim, and the decode
//! path reads such a plain container back.

use vstd::prelude::*;

pub mod codec;
pub mod labels;
pub mod locator;
pub mod types;

verus! {

pub use types::Error;
pub use types::GuidelineColor;
pub use types::LabelEntry;

use codec::read_ccll_spec;
use locator::find_payload_range_spec;
use locator::guideline_field_range_spec;
use locator::index_of_name;
use locator::payload_ranges_spec;
use locator::range_ok;
use locator::replace_guidelines_spec;
use locator::resolve_payload_spec;
use locator::splice_spec;
use locator::sub_record_names;

/// Listing a container's sub-record names: decode, then scan.
pub open spec fn list_levels_spec(raw: Seq<u8>) -> Result<Seq<Seq<u8>>, Error> {
    match read_ccll_spec(raw) {
        Err(e) => Err(e),
        Ok(blob) => Ok(sub_record_names(blob)),
    }
}

/// Returns the names of all sub-records of a container, in order of
/// appearance, from the raw file bytes the caller has read.
pub fn list_levels(ccll_data: &[u8]) -> (r: Result<Vec<Vec<u8>>, Error>)
    ensures
        match r {
            Ok(v) => list_levels_spec(ccll_data@) == Ok::<Seq<Seq<u8>>, Error>(v.deep_view()),
            Err(e) => list_levels_spec(ccll_data@) == Err::<Seq<Seq<u8>>, Error>(e),
        },
{
    match codec::read_ccll_file(ccll_data) {
        Err(e) => Err(e),
        Ok(blob) => Ok(locator::extract_level_names(blob.as_slice())),
    }
}

/// Replacing the guideline field of the Nth payload of a decoded blob with
/// pre-rendered field text: locate the payload, decode it if it is not in
/// plain form, locate the field, and splice at both nesting levels.
pub open spec fn modify_save_data_spec(idx: int, g: Seq<u8>, s: Seq<u8>) -> Result<Seq<u8>, Error> {
    match find_payload_range_spec(s, idx) {
        Err(e) => Err(e),
        Ok((a, b)) => match resolve_payload_spec(s.subrange(a, b)) {
            Err(e) => Err(e),
            Ok((p, _enc)) => match guideline_field_range_spec(p) {
                None => Err(Error::FieldNotFound),
                Some((fa, fb)) => Ok(splice_spec(s, a, b, splice_spec(p, fa, fb, g))),
            },
        },
    }
}

/// Splices the pre-rendered guideline field text into the Nth sub-record's
/// payload of the decoded blob held in `save_data`. On any failure the blob
/// is left unchanged; nothing is written until every step has succeeded.
pub fn modify_save_data(level_index: usize, new_guidelines: &[u8], save_data: &mut Vec<u8>) -> (r:
    Result<(), Error>)
    ensures
        match r {
            Ok(_) => modify_save_data_spec(level_index as int, new_guidelines@, old(save_data)@)
                == Ok::<Seq<u8>, Error>(final(save_data)@),
            Err(e) => modify_save_data_spec(level_index as int, new_guidelines@, old(save_data)@)
                == Err::<Seq<u8>, Error>(e) && final(save_data)@ == old(save_data)@,
        },
{
    let (a, b) = match locator::find_payload_range(save_data.as_slice(), level_index) {
        Err(e) => {
            return Err(e);
        },
        Ok(range) => range,
    };
    let payload = vstd::slice::slice_subrange(save_data.as_slice(), a, b);
    let (p, _was_encoded) = match locator::resolve_payload(payload) {
        Err(e) => {
            return Err(e);
        },
        Ok(resolved) => resolved,
    };
    let (fa, fb) = match locator::find_guideline_field_range(p.as_slice()) {
        Err(e) => {
            return Err(e);
        },
        Ok(range) => range,
    };
    let new_payload = locator::splice_range(p.as_slice(), fa, fb, new_guidelines);
    let out = locator::splice_range(save_data.as_slice(), a, b, new_payload.as_slice());
    *save_data = out;
    Ok(())
}

/// The whole operation on one container: decode it, pair names and payloads
/// positionally (their counts must agree), find the named sub-record, decode
/// its payload if needed, parse the label source, replace the guideline
/// field, and splice everything back into the decoded blob. The result is
/// the full modified blob, ready to be written verbatim.
pub open spec fn apply_guidelines_spec(raw: Seq<u8>, name: Seq<u8>, labels_data: Seq<u8>) -> Result<
    Seq<u8>,
    Error,
> {
    match read_ccll_spec(raw) {
        Err(e) => Err(e),
        Ok(blob) => {
            let names = sub_record_names(blob);
            match index_of_name(names, name) {
                None => Err(Error::RecordNotFound),
                Some(idx) => if names.len() != payload_ranges_spec(blob).len() {
                    Err(Error::RecordNotFound)
                } else {
                    let (a, b) = payload_ranges_spec(blob)[idx];
                    match resolve_payload_spec(blob.subrange(a, b)) {
                        Err(e) => Err(e),
                        Ok((p, _enc)) => match crate::labels::parse_labels_spec(labels_data) {
                            Err(e) => Err(e),
                            Ok(ls) => match replace_guidelines_spec(p, ls) {
                                Err(e) => Err(e),
                                Ok(new_p) => Ok(splice_spec(blob, a, b, new_p)),
                            },
                        },
                    }
                },
            }
        },
    }
}

/// Applies the label source to the named sub-record of a container, handed
/// over as its raw file bytes, and returns the full modified decoded blob.
/// The positional name-payload pairing is checked explicitly: when the two
/// lists differ in length the record cannot be trusted and the operation
/// fails rather than guess.
pub fn apply_guidelines_to_level(ccll_data: &[u8], level_name: &[u8], labels_data: &[u8]) -> (r:
    Result<Vec<u8>, Error>)
    ensures
        match r {
            Ok(v) => apply_guidelines_spec(ccll_data@, level_name@, labels_data@) == Ok::<
                Seq<u8>,
                Error,
            >(v@),
            Err(e) => apply_guidelines_spec(ccll_data@, level_name@, labels_data@) == Err::<
                Seq<u8>,
                Error,
            >(e),
        },
{
    let blob = match codec::read_ccll_file(ccll_data) {
        Err(e) => {
            return Err(e);
        },
        Ok(b) => b,
    };
    let names = locator::extract_level_names(blob.as_slice());
    let idx = match locator::name_index(&names, level_name) {
        None => {
            return Err(Error::RecordNotFound);
        },
        Some(i) => i,
    };
    let ranges = locator::payload_ranges(blob.as_slice());
    if names.len() != ranges.len() {
        return Err(Error::RecordNotFound);
    }
    let (a, b) = ranges[idx];
    proof {
        locator::lemma_payload_ranges_bounds(blob@, 0);
        assert(range_ok(blob@, payload_ranges_spec(blob@)[idx as int]));
    }
    let payload = vstd::slice::slice_subrange(blob.as_slice(), a, b);
    let (p, _was_encoded) = match locator::resolve_payload(payload) {
        Err(e) => {
            return Err(e);
        },
        Ok(resolved) => resolved,
    };
    let entries = match labels::parse_labels(labels_data) {
        Err(e) => {
            return Err(e);
        },
        Ok(es) => es,
    };
    let new_payload = match locator::replace_guidelines(p.as_slice(), entries.as_slice()) {
        Err(e) => {
            return Err(e);
        },
        Ok(np) => np,
    };
    Ok(locator::splice_range(blob.as_slice(), a, b, new_payload.as_slice()))
}

} // verus!
