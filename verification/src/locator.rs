//! Record locator: positional extraction of named sub-records from the
//! decoded blob, the byte range of a chosen sub-record's embedded payload,
//! the range of the guideline field inside a decoded payload, and the
//! wholesale range splices that put new text back.
//!
//! The blob is treated as opaque text with a minimal ad-hoc grammar: a
//! sub-record name is a nonempty run of bytes other than `<`, `>`, `=`
//! standing between the name-open marker and the name-close-plus-type marker;
//! a payload is a nonempty run of bytes other than `<`, `>` standing between
//! the type-plus-open marker and the close marker. Pairing of the two lists
//! is strictly positional. Markers occurring inside a record's own freeform
//! text are out of contract.

use vstd::prelude::*;

use crate::types::Error;

verus! {

/// A byte that may stand inside a sub-record name.
pub open spec fn is_name_byte(b: u8) -> bool {
    b != 60 && b != 62 && b != 61
}

/// A byte that may stand inside a payload.
pub open spec fn is_data_byte(b: u8) -> bool {
    b != 60 && b != 62
}

/// A byte of the guideline field: a digit, a dot, or a tilde.
pub open spec fn is_field_byte(b: u8) -> bool {
    (48 <= b && b <= 57) || b == 46 || b == 126
}

/// The marker opening a sub-record name: `<s>`.
pub open spec fn name_open() -> Seq<u8> {
    seq![60u8, 115u8, 62u8]
}

/// The marker that must follow a sub-record name: `</s><k>k4</k>`.
pub open spec fn name_close() -> Seq<u8> {
    seq![60u8, 47u8, 115u8, 62u8, 60u8, 107u8, 62u8, 107u8, 52u8, 60u8, 47u8, 107u8, 62u8]
}

/// The marker that must precede a payload: `<k>k4</k><s>`.
pub open spec fn payload_open() -> Seq<u8> {
    seq![60u8, 107u8, 62u8, 107u8, 52u8, 60u8, 47u8, 107u8, 62u8, 60u8, 115u8, 62u8]
}

/// The marker that must follow a payload: `</s>`.
pub open spec fn payload_close() -> Seq<u8> {
    seq![60u8, 47u8, 115u8, 62u8]
}

/// The marker that introduces the guideline field in a decoded payload:
/// `kA14,`.
pub open spec fn guideline_marker() -> Seq<u8> {
    seq![107u8, 65u8, 49u8, 52u8, 44u8]
}

/// End of the run of name bytes starting at `i`.
pub open spec fn name_run_end(s: Seq<u8>, i: int) -> int
    decreases s.len() - i,
{
    if 0 <= i < s.len() && is_name_byte(s[i]) {
        name_run_end(s, i + 1)
    } else {
        i
    }
}

/// End of the run of payload bytes starting at `i`.
pub open spec fn data_run_end(s: Seq<u8>, i: int) -> int
    decreases s.len() - i,
{
    if 0 <= i < s.len() && is_data_byte(s[i]) {
        data_run_end(s, i + 1)
    } else {
        i
    }
}

/// End of the run of guideline-field bytes starting at `i`.
pub open spec fn field_run_end(s: Seq<u8>, i: int) -> int
    decreases s.len() - i,
{
    if 0 <= i < s.len() && is_field_byte(s[i]) {
        field_run_end(s, i + 1)
    } else {
        i
    }
}

/// A sub-record name match starts at `i`: the open marker stands directly
/// before it, the run of name bytes from `i` is nonempty, and the close
/// marker follows the run directly.
pub open spec fn name_match_at(s: Seq<u8>, i: int) -> bool {
    let j = name_run_end(s, i);
    &&& 3 <= i
    &&& s.subrange(i - 3, i) == name_open()
    &&& j > i
    &&& j + 13 <= s.len()
    &&& s.subrange(j, j + 13) == name_close()
}

/// A payload match starts at `i`, in the same way.
pub open spec fn payload_match_at(s: Seq<u8>, i: int) -> bool {
    let j = data_run_end(s, i);
    &&& 12 <= i
    &&& s.subrange(i - 12, i) == payload_open()
    &&& j > i
    &&& j + 4 <= s.len()
    &&& s.subrange(j, j + 4) == payload_close()
}

/// The sub-record names whose match starts at or after position `i`, in
/// order of appearance. Scanning resumes at the end of each match.
pub open spec fn names_from(s: Seq<u8>, i: int) -> Seq<Seq<u8>>
    decreases s.len() - i,
{
    if i < 0 || i >= s.len() {
        Seq::empty()
    } else if name_match_at(s, i) {
        seq![s.subrange(i, name_run_end(s, i))] + names_from(s, name_run_end(s, i))
    } else {
        names_from(s, i + 1)
    }
}

/// All sub-record names of the blob, in order of appearance.
pub open spec fn sub_record_names(s: Seq<u8>) -> Seq<Seq<u8>> {
    names_from(s, 0)
}

/// The payload byte ranges whose match starts at or after position `i`, in
/// order of appearance, each as (start, end) with end exclusive.
pub open spec fn payloads_from(s: Seq<u8>, i: int) -> Seq<(int, int)>
    decreases s.len() - i,
{
    if i < 0 || i >= s.len() {
        Seq::empty()
    } else if payload_match_at(s, i) {
        seq![(i, data_run_end(s, i))] + payloads_from(s, data_run_end(s, i))
    } else {
        payloads_from(s, i + 1)
    }
}

/// All payload byte ranges of the blob, in order of appearance.
pub open spec fn payload_ranges_spec(s: Seq<u8>) -> Seq<(int, int)> {
    payloads_from(s, 0)
}

/// A byte range that lies inside the blob and is nonempty.
pub open spec fn range_ok(s: Seq<u8>, r: (int, int)) -> bool {
    0 < r.0 < r.1 <= s.len()
}

/// Every payload range lies inside the blob and is nonempty.
pub proof fn lemma_payload_ranges_bounds(s: Seq<u8>, i: int)
    ensures
        forall|k: int|
            0 <= k < payloads_from(s, i).len() ==> range_ok(s, #[trigger] payloads_from(s, i)[k]),
    decreases s.len() - i,
{
    if i < 0 || i >= s.len() {
    } else if payload_match_at(s, i) {
        let j = data_run_end(s, i);
        lemma_payload_ranges_bounds(s, j);
        assert forall|k: int|
            0 <= k < payloads_from(s, i).len() implies range_ok(
            s,
            #[trigger] payloads_from(s, i)[k],
        ) by {
            if k == 0 {
                assert(payloads_from(s, i)[0] == (i, j));
                assert(range_ok(s, (i, j)));
            } else {
                assert(payloads_from(s, i)[k] == payloads_from(s, j)[k - 1]);
                assert(range_ok(s, payloads_from(s, j)[k - 1]));
            }
        }
    } else {
        lemma_payload_ranges_bounds(s, i + 1);
        assert(payloads_from(s, i) == payloads_from(s, i + 1));
    }
}

/// Whether the bytes of `pat` stand in `data` at position `pos`.
fn bytes_match_at(data: &[u8], pos: usize, pat: &[u8]) -> (r: bool)
    ensures
        r <==> (pos + pat@.len() <= data@.len() && data@.subrange(
            pos as int,
            pos as int + pat@.len(),
        ) == pat@),
{
    if pat.len() > data.len() || pos > data.len() - pat.len() {
        return false;
    }
    let mut j: usize = 0;
    while j < pat.len()
        invariant
            j <= pat@.len(),
            pos + pat@.len() <= data@.len(),
            data@.len() <= usize::MAX,
            forall|k: int| 0 <= k < j ==> data@[pos + k] == pat@[k],
        decreases pat@.len() - j,
    {
        proof {
            assert(pos + j < data@.len());
        }
        if data[pos + j] != pat[j] {
            proof {
                let k = j as int;
                assert(data@.subrange(pos as int, pos as int + pat@.len())[k] != pat@[k]);
            }
            return false;
        }
        j = j + 1;
    }
    proof {
        assert(data@.subrange(pos as int, pos as int + pat@.len()) =~= pat@);
    }
    true
}

/// A copy of `data[start..end]`.
fn copy_range(data: &[u8], start: usize, end: usize) -> (r: Vec<u8>)
    requires
        start <= end <= data@.len(),
    ensures
        r@ == data@.subrange(start as int, end as int),
{
    let mut out: Vec<u8> = Vec::new();
    let mut i: usize = start;
    while i < end
        invariant
            start <= i <= end <= data@.len(),
            out@ == data@.subrange(start as int, i as int),
        decreases end - i,
    {
        out.push(data[i]);
        i = i + 1;
        proof {
            assert(out@ =~= data@.subrange(start as int, i as int));
        }
    }
    out
}

/// The name-open marker as exec bytes.
fn name_open_vec() -> (r: Vec<u8>)
    ensures
        r@ == name_open(),
{
    let mut v: Vec<u8> = Vec::new();
    v.push(60);
    v.push(115);
    v.push(62);
    proof {
        assert(v@ =~= name_open());
    }
    v
}

/// The name-close marker as exec bytes.
fn name_close_vec() -> (r: Vec<u8>)
    ensures
        r@ == name_close(),
{
    let mut v: Vec<u8> = Vec::new();
    v.push(60);
    v.push(47);
    v.push(115);
    v.push(62);
    v.push(60);
    v.push(107);
    v.push(62);
    v.push(107);
    v.push(52);
    v.push(60);
    v.push(47);
    v.push(107);
    v.push(62);
    proof {
        assert(v@ =~= name_close());
    }
    v
}

/// The payload-open marker as exec bytes.
fn payload_open_vec() -> (r: Vec<u8>)
    ensures
        r@ == payload_open(),
{
    let mut v: Vec<u8> = Vec::new();
    v.push(60);
    v.push(107);
    v.push(62);
    v.push(107);
    v.push(52);
    v.push(60);
    v.push(47);
    v.push(107);
    v.push(62);
    v.push(60);
    v.push(115);
    v.push(62);
    proof {
        assert(v@ =~= payload_open());
    }
    v
}

/// The payload-close marker as exec bytes.
fn payload_close_vec() -> (r: Vec<u8>)
    ensures
        r@ == payload_close(),
{
    let mut v: Vec<u8> = Vec::new();
    v.push(60);
    v.push(47);
    v.push(115);
    v.push(62);
    proof {
        assert(v@ =~= payload_close());
    }
    v
}

/// The guideline marker as exec bytes.
fn guideline_marker_vec() -> (r: Vec<u8>)
    ensures
        r@ == guideline_marker(),
{
    let mut v: Vec<u8> = Vec::new();
    v.push(107);
    v.push(65);
    v.push(49);
    v.push(52);
    v.push(44);
    proof {
        assert(v@ =~= guideline_marker());
    }
    v
}

/// Scans to the end of the run of name bytes starting at `start`.
fn scan_name_run(data: &[u8], start: usize) -> (j: usize)
    requires
        start <= data@.len(),
    ensures
        j as int == name_run_end(data@, start as int),
        start <= j <= data@.len(),
{
    let mut j: usize = start;
    while j < data.len() && data[j] != 60 && data[j] != 62 && data[j] != 61
        invariant
            start <= j <= data@.len(),
            name_run_end(data@, start as int) == name_run_end(data@, j as int),
        decreases data@.len() - j,
    {
        j = j + 1;
    }
    j
}

/// Scans to the end of the run of payload bytes starting at `start`.
fn scan_data_run(data: &[u8], start: usize) -> (j: usize)
    requires
        start <= data@.len(),
    ensures
        j as int == data_run_end(data@, start as int),
        start <= j <= data@.len(),
{
    let mut j: usize = start;
    while j < data.len() && data[j] != 60 && data[j] != 62
        invariant
            start <= j <= data@.len(),
            data_run_end(data@, start as int) == data_run_end(data@, j as int),
        decreases data@.len() - j,
    {
        j = j + 1;
    }
    j
}

/// Scans to the end of the run of guideline-field bytes starting at `start`.
fn scan_field_run(data: &[u8], start: usize) -> (j: usize)
    requires
        start <= data@.len(),
    ensures
        j as int == field_run_end(data@, start as int),
        start <= j <= data@.len(),
{
    let mut j: usize = start;
    while j < data.len() && ((48 <= data[j] && data[j] <= 57) || data[j] == 46 || data[j] == 126)
        invariant
            start <= j <= data@.len(),
            field_run_end(data@, start as int) == field_run_end(data@, j as int),
        decreases data@.len() - j,
    {
        j = j + 1;
    }
    j
}

/// Returns every sub-record name of the decoded blob, in order of
/// appearance: each is a nonempty run of name bytes standing between the
/// open marker and the close-plus-type marker.
pub fn extract_level_names(data: &[u8]) -> (r: Vec<Vec<u8>>)
    ensures
        r.deep_view() == sub_record_names(data@),
{
    let open = name_open_vec();
    let close = name_close_vec();
    let mut out: Vec<Vec<u8>> = Vec::new();
    let mut i: usize = 0;
    proof {
        assert(out.deep_view() =~= Seq::<Seq<u8>>::empty());
    }
    while i < data.len()
        invariant
            i <= data@.len(),
            open@ == name_open(),
            close@ == name_close(),
            out.deep_view() + names_from(data@, i as int) == sub_record_names(data@),
        decreases data@.len() - i,
    {
        let mut matched = false;
        if i >= 3 && bytes_match_at(data, i - 3, open.as_slice()) {
            let j = scan_name_run(data, i);
            if j > i && bytes_match_at(data, j, close.as_slice()) {
                let ghost pre = out.deep_view();
                let name = copy_range(data, i, j);
                out.push(name);
                proof {
                    assert(name_match_at(data@, i as int));
                    assert(out.deep_view() =~~= pre + seq![name@]);
                    assert(pre + seq![name@] + names_from(data@, j as int) =~= pre + (seq![
                        data@.subrange(i as int, j as int),
                    ] + names_from(data@, j as int)));
                }
                i = j;
                matched = true;
            }
        }
        if !matched {
            proof {
                assert(!name_match_at(data@, i as int));
            }
            i = i + 1;
        }
    }
    proof {
        assert(out.deep_view() + names_from(data@, i as int) =~= out.deep_view());
    }
    out
}

/// Returns every payload byte range of the decoded blob, in order of
/// appearance, each as (start, end) with end exclusive.
pub fn payload_ranges(data: &[u8]) -> (r: Vec<(usize, usize)>)
    ensures
        r@.len() == payload_ranges_spec(data@).len(),
        forall|k: int|
            0 <= k < r@.len() ==> (#[trigger] r@[k]).0 as int == payload_ranges_spec(data@)[k].0
                && r@[k].1 as int == payload_ranges_spec(data@)[k].1,
{
    let open = payload_open_vec();
    let close = payload_close_vec();
    let mut out: Vec<(usize, usize)> = Vec::new();
    let mut i: usize = 0;
    while i < data.len()
        invariant
            i <= data@.len(),
            open@ == payload_open(),
            close@ == payload_close(),
            out@.len() + payloads_from(data@, i as int).len() == payload_ranges_spec(
                data@,
            ).len(),
            forall|k: int|
                0 <= k < out@.len() ==> (#[trigger] out@[k]).0 as int == payload_ranges_spec(
                    data@,
                )[k].0 && out@[k].1 as int == payload_ranges_spec(data@)[k].1,
            out@.len() == payload_ranges_spec(data@).len() - payloads_from(data@, i as int).len(),
            payload_ranges_spec(data@).skip(out@.len() as int) == payloads_from(data@, i as int),
        decreases data@.len() - i,
    {
        let mut matched = false;
        if i >= 12 && bytes_match_at(data, i - 12, open.as_slice()) {
            let j = scan_data_run(data, i);
            if j > i && bytes_match_at(data, j, close.as_slice()) {
                proof {
                    assert(payload_match_at(data@, i as int));
                    let prs = payload_ranges_spec(data@);
                    let n = out@.len() as int;
                    let rest = payloads_from(data@, j as int);
                    assert(payloads_from(data@, i as int) == seq![(i as int, j as int)] + rest);
                    assert(prs.skip(n)[0] == (i as int, j as int));
                    assert(prs[n] == (i as int, j as int));
                    assert forall|k: int| 0 <= k < rest.len() implies prs.skip(n + 1)[k]
                        == rest[k] by {
                        assert(prs.skip(n)[k + 1] == prs[n + 1 + k]);
                        assert(prs.skip(n)[k + 1] == (seq![(i as int, j as int)] + rest)[k + 1]);
                    }
                    assert(prs.skip(n + 1) =~= rest);
                }
                out.push((i, j));
                i = j;
                matched = true;
            }
        }
        if !matched {
            proof {
                assert(!payload_match_at(data@, i as int));
                assert(payloads_from(data@, i as int) == payloads_from(data@, i + 1));
            }
            i = i + 1;
        }
    }
    out
}

/// The Nth payload range, 0-based: defined exactly when fewer than N+1
/// payload matches do not exist.
pub open spec fn find_payload_range_spec(s: Seq<u8>, ordinal: int) -> Result<(int, int), Error> {
    if 0 <= ordinal < payload_ranges_spec(s).len() {
        Ok(payload_ranges_spec(s)[ordinal])
    } else {
        Err(Error::RecordNotFound)
    }
}

/// Returns the byte range of the Nth payload in the decoded blob (0-based
/// order of appearance), or `RecordNotFound` when fewer than N+1 payloads
/// exist.
pub fn find_payload_range(data: &[u8], ordinal: usize) -> (r: Result<(usize, usize), Error>)
    ensures
        match r {
            Ok((a, b)) => find_payload_range_spec(data@, ordinal as int) == Ok::<(int, int), Error>(
                (a as int, b as int),
            ) && a < b <= data@.len(),
            Err(e) => find_payload_range_spec(data@, ordinal as int) == Err::<(int, int), Error>(e),
        },
{
    let ranges = payload_ranges(data);
    if ordinal < ranges.len() {
        let (a, b) = ranges[ordinal];
        proof {
            lemma_payload_ranges_bounds(data@, 0);
            assert(range_ok(data@, payload_ranges_spec(data@)[ordinal as int]));
        }
        Ok((a, b))
    } else {
        Err(Error::RecordNotFound)
    }
}

/// The index of the first name equal to `name`, if any.
pub open spec fn index_of_name(names: Seq<Seq<u8>>, name: Seq<u8>) -> Option<int>
    decreases names.len(),
{
    if names.len() == 0 {
        None
    } else if names[0] == name {
        Some(0int)
    } else {
        match index_of_name(names.skip(1), name) {
            Some(k) => Some(k + 1),
            None => None,
        }
    }
}

/// Payload lookup by exact sub-record name: the first index at which the
/// name appears, joined positionally to the payload list.
pub open spec fn find_payload_range_by_name_spec(s: Seq<u8>, name: Seq<u8>) -> Result<
    (int, int),
    Error,
> {
    match index_of_name(sub_record_names(s), name) {
        None => Err(Error::RecordNotFound),
        Some(k) => find_payload_range_spec(s, k),
    }
}

/// Whether two byte strings are equal.
fn bytes_eq(a: &[u8], b: &[u8]) -> (r: bool)
    ensures
        r <==> a@ == b@,
{
    if a.len() != b.len() {
        proof {
            assert(a@.len() != b@.len());
        }
        return false;
    }
    let mut i: usize = 0;
    while i < a.len()
        invariant
            i <= a@.len(),
            a@.len() == b@.len(),
            forall|k: int| 0 <= k < i ==> a@[k] == b@[k],
        decreases a@.len() - i,
    {
        if a[i] != b[i] {
            return false;
        }
        i = i + 1;
    }
    proof {
        assert(a@ =~= b@);
    }
    true
}

/// Returns the index of the first name equal to `name`, if any.
pub fn name_index(names: &Vec<Vec<u8>>, name: &[u8]) -> (r: Option<usize>)
    ensures
        match r {
            Some(i) => index_of_name(names.deep_view(), name@) == Some(i as int) && i
                < names@.len(),
            None => index_of_name(names.deep_view(), name@) is None,
        },
{
    let ghost names_spec = names.deep_view();
    let mut i: usize = 0;
    while i < names.len()
        invariant
            i <= names@.len(),
            names.deep_view() == names_spec,
            forall|k: int| 0 <= k < i ==> names_spec[k] != name@,
        decreases names@.len() - i,
    {
        proof {
            assert(names.deep_view()[i as int] =~= names@[i as int]@);
        }
        if bytes_eq(names[i].as_slice(), name) {
            proof {
                assert(names_spec[i as int] == name@);
                lemma_index_of_name_found(names_spec, name@, i as int);
            }
            return Some(i);
        }
        i = i + 1;
    }
    proof {
        lemma_index_of_name_absent(names_spec, name@);
    }
    None
}

/// Returns the byte range of the payload paired positionally with the first
/// sub-record whose name equals `name` exactly; `RecordNotFound` when the
/// name is absent or when fewer payloads than names exist up to that index.
pub fn find_payload_range_by_name(data: &[u8], name: &[u8]) -> (r: Result<(usize, usize), Error>)
    ensures
        match r {
            Ok((a, b)) => find_payload_range_by_name_spec(data@, name@) == Ok::<
                (int, int),
                Error,
            >((a as int, b as int)) && a < b <= data@.len(),
            Err(e) => find_payload_range_by_name_spec(data@, name@) == Err::<(int, int), Error>(e),
        },
{
    let names = extract_level_names(data);
    match name_index(&names, name) {
        Some(i) => find_payload_range(data, i),
        None => Err(Error::RecordNotFound),
    }
}

/// When a name first appears at index `i`, `index_of_name` returns `i`.
proof fn lemma_index_of_name_found(names: Seq<Seq<u8>>, name: Seq<u8>, i: int)
    requires
        0 <= i < names.len(),
        names[i] == name,
        forall|k: int| 0 <= k < i ==> names[k] != name,
    ensures
        index_of_name(names, name) == Some(i),
    decreases names.len(),
{
    if i == 0 {
    } else {
        assert(names[0] != name);
        lemma_index_of_name_found(names.skip(1), name, i - 1);
    }
}

/// When a name appears nowhere, `index_of_name` returns `None`.
proof fn lemma_index_of_name_absent(names: Seq<Seq<u8>>, name: Seq<u8>)
    requires
        forall|k: int| 0 <= k < names.len() ==> names[k] != name,
    ensures
        index_of_name(names, name) is None,
    decreases names.len(),
{
    if names.len() > 0 {
        lemma_index_of_name_absent(names.skip(1), name);
    }
}

/// Position of the first occurrence of the guideline marker at or after
/// position `i`, if any.
pub open spec fn marker_pos_from(s: Seq<u8>, i: int) -> Option<int>
    decreases s.len() - i,
{
    if i < 0 || i + 5 > s.len() {
        None
    } else if s.subrange(i, i + 5) == guideline_marker() {
        Some(i)
    } else {
        marker_pos_from(s, i + 1)
    }
}

/// The char range of the guideline field of a decoded payload: the single
/// run of digits, dots and tildes directly following the first occurrence of
/// the guideline marker; `None` when the marker is absent.
pub open spec fn guideline_field_range_spec(s: Seq<u8>) -> Option<(int, int)> {
    match marker_pos_from(s, 0) {
        None => None,
        Some(m) => Some((m + 5, field_run_end(s, m + 5))),
    }
}

/// Returns the range of the guideline field inside a decoded payload, the
/// possibly empty run of `[0-9.~]` bytes directly after the first guideline
/// marker; `FieldNotFound` exactly when the marker is absent.
pub fn find_guideline_field_range(payload: &[u8]) -> (r: Result<(usize, usize), Error>)
    ensures
        match r {
            Ok((a, b)) => guideline_field_range_spec(payload@) == Some((a as int, b as int)) && a
                <= b <= payload@.len(),
            Err(e) => e == Error::FieldNotFound && guideline_field_range_spec(payload@) is None,
        },
{
    let marker = guideline_marker_vec();
    let mut i: usize = 0;
    if payload.len() < 5 {
        proof {
            assert(marker_pos_from(payload@, 0) is None);
        }
        return Err(Error::FieldNotFound);
    }
    while i <= payload.len() - 5
        invariant
            5 <= payload@.len() <= usize::MAX,
            i <= payload@.len() - 4,
            marker@ == guideline_marker(),
            marker_pos_from(payload@, 0) == marker_pos_from(payload@, i as int),
        decreases payload@.len() - i,
    {
        if bytes_match_at(payload, i, marker.as_slice()) {
            let start = i + 5;
            let end = scan_field_run(payload, start);
            return Ok((start, end));
        }
        proof {
            assert(marker_pos_from(payload@, i as int) == marker_pos_from(payload@, i + 1));
        }
        i = i + 1;
    }
    proof {
        assert(marker_pos_from(payload@, i as int) is None);
    }
    Err(Error::FieldNotFound)
}

/// Replacement of exactly the byte range `[a, b)` with `r`, all other bytes
/// unchanged.
pub open spec fn splice_spec(s: Seq<u8>, a: int, b: int, r: Seq<u8>) -> Seq<u8> {
    s.subrange(0, a) + r + s.subrange(b, s.len() as int)
}

/// Replaces exactly the byte range `[start, end)` of `data` with
/// `replacement`, preserving every byte before and after the range.
pub fn splice_range(data: &[u8], start: usize, end: usize, replacement: &[u8]) -> (r: Vec<u8>)
    requires
        start <= end <= data@.len(),
    ensures
        r@ == splice_spec(data@, start as int, end as int, replacement@),
{
    let mut out = copy_range(data, 0, start);
    let mut i: usize = 0;
    while i < replacement.len()
        invariant
            i <= replacement@.len(),
            out@ == data@.subrange(0, start as int) + replacement@.take(i as int),
        decreases replacement@.len() - i,
    {
        out.push(replacement[i]);
        i = i + 1;
        proof {
            assert(out@ =~= data@.subrange(0, start as int) + replacement@.take(i as int));
        }
    }
    proof {
        assert(replacement@.take(replacement@.len() as int) =~= replacement@);
    }
    let mut j: usize = end;
    while j < data.len()
        invariant
            end <= j <= data@.len(),
            start <= end,
            out@ == data@.subrange(0, start as int) + replacement@ + data@.subrange(
                end as int,
                j as int,
            ),
        decreases data@.len() - j,
    {
        out.push(data[j]);
        j = j + 1;
        proof {
            assert(out@ =~= data@.subrange(0, start as int) + replacement@ + data@.subrange(
                end as int,
                j as int,
            ));
        }
    }
    proof {
        assert(out@ =~= splice_spec(data@, start as int, end as int, replacement@));
    }
    out
}

/// Splicing disturbs nothing outside the replaced range: the prefix before
/// it and the suffix after it are byte-identical to the original, and the
/// replacement stands between them exactly.
pub proof fn lemma_splice_exact(s: Seq<u8>, a: int, b: int, r: Seq<u8>)
    requires
        0 <= a <= b <= s.len(),
    ensures
        splice_spec(s, a, b, r).len() == s.len() - (b - a) + r.len(),
        splice_spec(s, a, b, r).subrange(0, a) == s.subrange(0, a),
        splice_spec(s, a, b, r).subrange(a, a + r.len()) == r,
        splice_spec(s, a, b, r).subrange(a + r.len(), splice_spec(s, a, b, r).len() as int)
            == s.subrange(b, s.len() as int),
{
    assert(splice_spec(s, a, b, r).subrange(0, a) =~= s.subrange(0, a));
    assert(splice_spec(s, a, b, r).subrange(a, a + r.len()) =~= r);
    assert(splice_spec(s, a, b, r).subrange(a + r.len(), splice_spec(s, a, b, r).len() as int)
        =~= s.subrange(b, s.len() as int));
}

/// Whether the payload holds the literal separator byte `|`, the sign that
/// it is already in plain delimiter-separated form.
pub open spec fn contains_sep(s: Seq<u8>) -> bool {
    exists|k: int| 0 <= k < s.len() && s[k] == 124u8
}

/// Whether the payload holds the literal separator byte anywhere.
fn contains_sep_ex(data: &[u8]) -> (r: bool)
    ensures
        r == contains_sep(data@),
{
    let mut i: usize = 0;
    while i < data.len()
        invariant
            i <= data@.len(),
            forall|k: int| 0 <= k < i ==> data@[k] != 124u8,
        decreases data@.len() - i,
    {
        if data[i] == 124 {
            proof {
                assert(data@[i as int] == 124u8);
            }
            return true;
        }
        i = i + 1;
    }
    false
}

/// A payload in plain form is returned as-is with `wasEncoded == false`;
/// otherwise it is decoded as an embedded payload, `wasEncoded == true`.
pub open spec fn resolve_payload_spec(s: Seq<u8>) -> Result<(Seq<u8>, bool), Error> {
    if contains_sep(s) {
        Ok((s, false))
    } else {
        match crate::codec::decode_level_data_spec(s) {
            Ok(t) => Ok((t, true)),
            Err(e) => Err(e),
        }
    }
}

/// Returns the payload in decoded plain form, with a flag saying whether a
/// decode was needed: a payload holding the literal `|` separator is already
/// plain; any other payload is base64+deflate decoded.
pub fn resolve_payload(payload: &[u8]) -> (r: Result<(Vec<u8>, bool), Error>)
    ensures
        match r {
            Ok((v, enc)) => resolve_payload_spec(payload@) == Ok::<(Seq<u8>, bool), Error>(
                (v@, enc),
            ),
            Err(e) => resolve_payload_spec(payload@) == Err::<(Seq<u8>, bool), Error>(e),
        },
{
    let has_sep = contains_sep_ex(payload);
    if has_sep {
        let plain = copy_range(payload, 0, payload.len());
        proof {
            assert(plain@ =~= payload@);
        }
        Ok((plain, false))
    } else {
        proof {
            assert(!contains_sep(payload@));
        }
        match crate::codec::decode_level_data(payload) {
            Ok(t) => Ok((t, true)),
            Err(e) => Err(e),
        }
    }
}

/// Wholesale replacement of the guideline field of a decoded payload with
/// the rendering of the given entries; `FieldNotFound` when the marker is
/// absent. Prior field contents are discarded, nothing outside the field
/// range changes.
pub open spec fn replace_guidelines_spec(s: Seq<u8>, ls: Seq<crate::types::LabelEntry>) -> Result<
    Seq<u8>,
    Error,
> {
    match guideline_field_range_spec(s) {
        None => Err(Error::FieldNotFound),
        Some((a, b)) => Ok(splice_spec(s, a, b, crate::labels::render_spec(ls))),
    }
}

/// Replaces the guideline field of a decoded payload with the rendering of
/// the given entries, in their given order; everything outside the field
/// range is preserved byte for byte.
pub fn replace_guidelines(level_data: &[u8], labels: &[crate::types::LabelEntry]) -> (r: Result<
    Vec<u8>,
    Error,
>)
    ensures
        match r {
            Ok(v) => replace_guidelines_spec(level_data@, labels@) == Ok::<Seq<u8>, Error>(v@),
            Err(e) => replace_guidelines_spec(level_data@, labels@) == Err::<Seq<u8>, Error>(e),
        },
{
    let (a, b) = match find_guideline_field_range(level_data) {
        Err(e) => {
            return Err(e);
        },
        Ok(range) => range,
    };
    let field = crate::labels::render_guidelines(labels);
    Ok(splice_range(level_data, a, b, field.as_slice()))
}

/// Ordinal coverage: for a blob with N payload matches, every ordinal below
/// N resolves to that match's range, and every ordinal at or beyond N fails
/// with `RecordNotFound`; the name list holds exactly one name per name
/// match, in order.
pub proof fn lemma_ordinal_coverage(s: Seq<u8>, n: int)
    ensures
        0 <= n < payload_ranges_spec(s).len() ==> find_payload_range_spec(s, n) == Ok::<
            (int, int),
            Error,
        >(payload_ranges_spec(s)[n]),
        n >= payload_ranges_spec(s).len() ==> find_payload_range_spec(s, n) == Err::<
            (int, int),
            Error,
        >(Error::RecordNotFound),
{
}

} // verus!
