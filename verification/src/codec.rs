//! Container codec: the reversible transform between on-disk container bytes
//! and the decoded text blob. The outermost layer is a fixed self-inverse
//! per-byte XOR mask plus trailing-NUL padding; a flagged container body is
//! further URL-safe base64, a fixed 10-byte header to skip, and a raw deflate
//! stream.

use vstd::prelude::*;

use crate::types::Error;

verus! {

/// First byte of a container whose body is obfuscated and compressed.
pub const ENCODED_FLAG: u8 = 67;

/// The fixed self-inverse per-byte obfuscation mask.
pub const XOR_MASK: u8 = 11;

/// Number of non-data header bytes skipped after base64 decoding; their
/// internal structure is unknown and deliberately not interpreted.
pub const HEADER_LEN: usize = 10;

/// What decoding URL-safe base64 (padded or unpadded input both accepted)
/// returns for the given bytes: `None` exactly on rejected input.
pub uninterp spec fn b64_url_decode(s: Seq<u8>) -> Option<Seq<u8>>;

/// What raw-deflate inflation returns for the given bytes: `None` exactly on
/// a corrupt stream.
pub uninterp spec fn inflate_raw(s: Seq<u8>) -> Option<Seq<u8>>;

/// Whether the given bytes are valid UTF-8.
pub uninterp spec fn is_utf8(s: Seq<u8>) -> bool;

/// Relies on base64's `URL_SAFE_PAD_INDIFFERENT` engine (URL-safe alphabet,
/// padded and unpadded input both accepted): the result depends on the input
/// bytes alone, and is `None` exactly when the engine rejects the input.
#[verifier::external_body]
fn b64_decode(data: &[u8]) -> (r: Option<Vec<u8>>)
    ensures
        match r {
            Some(v) => b64_url_decode(data@) == Some(v@),
            None => b64_url_decode(data@) is None,
        },
{
    base64::Engine::decode(&base64::engine::general_purpose::URL_SAFE_PAD_INDIFFERENT, data).ok()
}

/// Relies on flate2's `read::DeflateDecoder` (raw deflate, no zlib or gzip
/// header, 32 KiB window): inflation of the given bytes depends on the bytes
/// alone, and fails exactly on a corrupt stream.
#[verifier::external_body]
fn inflate(data: &[u8]) -> (r: Option<Vec<u8>>)
    ensures
        match r {
            Some(v) => inflate_raw(data@) == Some(v@),
            None => inflate_raw(data@) is None,
        },
{
    let mut decoder = flate2::read::DeflateDecoder::new(data);
    let mut out: Vec<u8> = Vec::new();
    match std::io::Read::read_to_end(&mut decoder, &mut out) {
        Ok(_) => Some(out),
        Err(_) => None,
    }
}

/// Relies on std's `str::from_utf8`: whether the bytes are valid UTF-8
/// depends on the bytes alone.
#[verifier::external_body]
fn check_utf8(data: &[u8]) -> (r: bool)
    ensures
        r == is_utf8(data@),
{
    std::str::from_utf8(data).is_ok()
}

/// The container body with the fixed mask applied to every byte.
pub open spec fn xor_mask_spec(s: Seq<u8>) -> Seq<u8> {
    Seq::new(s.len(), |i: int| s[i] ^ XOR_MASK)
}

/// The bytes with all trailing NUL padding removed.
pub open spec fn strip_nuls_spec(s: Seq<u8>) -> Seq<u8>
    decreases s.len(),
{
    if s.len() > 0 && s.last() == 0u8 {
        strip_nuls_spec(s.drop_last())
    } else {
        s
    }
}

/// Decoding an embedded payload: base64, then the fixed header skip, then raw
/// deflate, then a UTF-8 check. There is no XOR step at this level.
pub open spec fn decode_level_data_spec(s: Seq<u8>) -> Result<Seq<u8>, Error> {
    match b64_url_decode(s) {
        None => Err(Error::InvalidEncoding),
        Some(d) => if d.len() < HEADER_LEN {
            Err(Error::InvalidEncoding)
        } else {
            match inflate_raw(d.skip(HEADER_LEN as int)) {
                None => Err(Error::InvalidEncoding),
                Some(t) => if is_utf8(t) {
                    Ok(t)
                } else {
                    Err(Error::InvalidEncoding)
                },
            }
        },
    }
}

/// Decoding a whole container: un-XOR if the first byte carries the encoding
/// flag, strip trailing NUL padding, check UTF-8, and, if flagged, decode the
/// body as an embedded payload is decoded.
pub open spec fn read_ccll_spec(raw: Seq<u8>) -> Result<Seq<u8>, Error> {
    let flagged = raw.len() > 0 && raw[0] == ENCODED_FLAG;
    let body = if flagged {
        xor_mask_spec(raw)
    } else {
        raw
    };
    let stripped = strip_nuls_spec(body);
    if !is_utf8(stripped) {
        Err(Error::InvalidEncoding)
    } else if flagged {
        decode_level_data_spec(stripped)
    } else {
        Ok(stripped)
    }
}

/// Applies the fixed self-inverse XOR mask to every byte, the flag byte
/// included: it is a sentinel, not excluded from the transform.
pub fn xor_mask(data: &[u8]) -> (r: Vec<u8>)
    ensures
        r@ == xor_mask_spec(data@),
{
    let mut out: Vec<u8> = Vec::new();
    let mut i: usize = 0;
    while i < data.len()
        invariant
            i <= data.len(),
            out@ == xor_mask_spec(data@).take(i as int),
        decreases data.len() - i,
    {
        out.push(data[i] ^ XOR_MASK);
        i = i + 1;
        proof {
            assert(out@ =~= xor_mask_spec(data@).take(i as int));
        }
    }
    proof {
        assert(out@ =~= xor_mask_spec(data@));
    }
    out
}

/// Removes all trailing NUL padding bytes.
pub fn strip_trailing_nuls(data: Vec<u8>) -> (r: Vec<u8>)
    ensures
        r@ == strip_nuls_spec(data@),
{
    let mut end: usize = data.len();
    proof {
        assert(data@.take(end as int) =~= data@);
    }
    while end > 0 && data[end - 1] == 0u8
        invariant
            end <= data.len(),
            strip_nuls_spec(data@) == strip_nuls_spec(data@.take(end as int)),
        decreases end,
    {
        proof {
            assert(data@.take(end as int).last() == data@[end - 1]);
            assert(data@.take(end as int).drop_last() =~= data@.take(end - 1));
        }
        end = end - 1;
    }
    proof {
        assert(strip_nuls_spec(data@.take(end as int)) == data@.take(end as int));
    }
    let mut out: Vec<u8> = Vec::new();
    let mut i: usize = 0;
    while i < end
        invariant
            i <= end,
            end <= data.len(),
            out@ == data@.take(end as int).take(i as int),
        decreases end - i,
    {
        out.push(data[i]);
        i = i + 1;
        proof {
            assert(out@ =~= data@.take(end as int).take(i as int));
        }
    }
    proof {
        assert(data@.take(end as int).take(end as int) =~= data@.take(end as int));
    }
    out
}

/// Decodes one embedded payload: URL-safe base64, skip the fixed non-data
/// header, raw-deflate inflate, and check the result is UTF-8 text. Each
/// failure is `InvalidEncoding`; exactly the inputs the spec accepts succeed.
pub fn decode_level_data(data: &[u8]) -> (r: Result<Vec<u8>, Error>)
    ensures
        match r {
            Ok(v) => decode_level_data_spec(data@) == Ok::<Seq<u8>, Error>(v@),
            Err(e) => decode_level_data_spec(data@) == Err::<Seq<u8>, Error>(e),
        },
{
    let decoded = match b64_decode(data) {
        Some(v) => v,
        None => {
            return Err(Error::InvalidEncoding);
        },
    };
    if decoded.len() < HEADER_LEN {
        return Err(Error::InvalidEncoding);
    }
    let mut body: Vec<u8> = Vec::new();
    let mut i: usize = HEADER_LEN;
    while i < decoded.len()
        invariant
            HEADER_LEN <= i <= decoded.len(),
            body@ == decoded@.skip(HEADER_LEN as int).take(i - HEADER_LEN),
        decreases decoded.len() - i,
    {
        body.push(decoded[i]);
        i = i + 1;
        proof {
            assert(body@ =~= decoded@.skip(HEADER_LEN as int).take(i - HEADER_LEN));
        }
    }
    proof {
        assert(body@ =~= decoded@.skip(HEADER_LEN as int));
    }
    let inflated = match inflate(body.as_slice()) {
        Some(v) => v,
        None => {
            return Err(Error::InvalidEncoding);
        },
    };
    if check_utf8(inflated.as_slice()) {
        Ok(inflated)
    } else {
        Err(Error::InvalidEncoding)
    }
}

/// Decodes the contents of a whole container file, as read from disk by the
/// caller: un-XOR a flagged body, strip trailing NUL padding, and, for a
/// flagged container, decode the stripped text as an embedded payload.
pub fn read_ccll_file(raw: &[u8]) -> (r: Result<Vec<u8>, Error>)
    ensures
        match r {
            Ok(v) => read_ccll_spec(raw@) == Ok::<Seq<u8>, Error>(v@),
            Err(e) => read_ccll_spec(raw@) == Err::<Seq<u8>, Error>(e),
        },
{
    let flagged = raw.len() > 0 && raw[0] == ENCODED_FLAG;
    let body: Vec<u8> = if flagged {
        xor_mask(raw)
    } else {
        let mut v: Vec<u8> = Vec::new();
        let mut i: usize = 0;
        while i < raw.len()
            invariant
                i <= raw.len(),
                v@ == raw@.take(i as int),
            decreases raw.len() - i,
        {
            v.push(raw[i]);
            i = i + 1;
            proof {
                assert(v@ =~= raw@.take(i as int));
            }
        }
        proof {
            assert(v@ =~= raw@);
        }
        v
    };
    let stripped = strip_trailing_nuls(body);
    if !check_utf8(stripped.as_slice()) {
        Err(Error::InvalidEncoding)
    } else if flagged {
        decode_level_data(stripped.as_slice())
    } else {
        Ok(stripped)
    }
}

/// Applying the fixed mask twice is the identity: decoding's un-XOR step is
/// undone exactly by re-applying the same mask to every byte, the flag byte
/// included.
pub proof fn lemma_xor_self_inverse(s: Seq<u8>)
    ensures
        xor_mask_spec(xor_mask_spec(s)) == s,
{
    assert forall|i: int| 0 <= i < s.len() implies xor_mask_spec(xor_mask_spec(s))[i] == s[i] by {
        let b = s[i];
        assert((b ^ XOR_MASK) ^ XOR_MASK == b) by (bit_vector);
    }
    assert(xor_mask_spec(xor_mask_spec(s)) =~= s);
}

/// Round trip for a plain (unflagged) container: decoding text followed by
/// any amount of trailing NUL padding returns the text unchanged.
pub proof fn lemma_plain_round_trip(text: Seq<u8>, pad: nat)
    requires
        text.len() > 0 ==> text[0] != ENCODED_FLAG,
        text.len() > 0 ==> text.last() != 0u8,
        is_utf8(text),
    ensures
        read_ccll_spec(text + Seq::new(pad, |i: int| 0u8)) == Ok::<Seq<u8>, Error>(text),
    decreases pad,
{
    let raw = text + Seq::new(pad, |i: int| 0u8);
    if pad == 0 {
        assert(raw =~= text);
        assert(strip_nuls_spec(text) == text);
    } else {
        assert(raw.len() == text.len() + pad);
        assert(raw.last() == 0u8);
        assert(raw.drop_last() =~= text + Seq::new((pad - 1) as nat, |i: int| 0u8));
        lemma_plain_round_trip(text, (pad - 1) as nat);
    }
}

} // verus!
