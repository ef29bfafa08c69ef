//! Guideline synthesizer: parses the external timestamped-label source into
//! (time, color) entries, stable-sorts them by time, and renders them into
//! the field's on-disk textual encoding.
//!
//! A label line is the time (a non-negative decimal number) up to the first
//! tab, with the line's last byte read as a base-3 category digit; the digit
//! zero and anything unrecognized select the default color. Times are held
//! in microseconds, the unit of the fixed six-decimal on-disk format;
//! fractional digits beyond the sixth are dropped.

use vstd::prelude::*;

use crate::types::color_code;
use crate::types::Error;
use crate::types::GuidelineColor;
use crate::types::LabelEntry;

verus! {

/// An ASCII decimal digit.
pub open spec fn is_digit(b: u8) -> bool {
    48 <= b && b <= 57
}

/// Integer parts at or above this limit are rejected, so that a time in
/// microseconds always fits the machine word.
pub const TIME_INT_LIMIT: u64 = 10000000000000;

/// The value of a big-endian digit string.
pub open spec fn digits_val(s: Seq<u8>) -> nat
    decreases s.len(),
{
    if s.len() == 0 {
        0
    } else {
        digits_val(s.drop_last()) * 10 + (s.last() - 48) as nat
    }
}

/// Ten to the `n`th.
pub open spec fn pow10(n: nat) -> nat
    decreases n,
{
    if n == 0 {
        1
    } else {
        10 * pow10((n - 1) as nat)
    }
}

/// The first position at or after `i` holding byte `b`; the length when `b`
/// does not occur there.
pub open spec fn find_byte_from(s: Seq<u8>, b: u8, i: int) -> int
    decreases s.len() - i,
{
    if i < 0 || i >= s.len() {
        s.len() as int
    } else if s[i] == b {
        i
    } else {
        find_byte_from(s, b, i + 1)
    }
}

/// `find_byte_from` stays within bounds and finds the first occurrence.
proof fn lemma_find_byte_bounds(s: Seq<u8>, b: u8, i: int)
    requires
        0 <= i <= s.len(),
    ensures
        i <= find_byte_from(s, b, i) <= s.len(),
        find_byte_from(s, b, i) < s.len() ==> s[find_byte_from(s, b, i)] == b,
        forall|k: int| i <= k < find_byte_from(s, b, i) ==> s[k] != b,
    decreases s.len() - i,
{
    if i < s.len() && s[i] != b {
        lemma_find_byte_bounds(s, b, i + 1);
    }
}

/// Whether every byte is a decimal digit.
pub open spec fn all_digits(s: Seq<u8>) -> bool {
    forall|k: int| 0 <= k < s.len() ==> is_digit(#[trigger] s[k])
}

/// The fractional digits cut or zero-padded to exactly six places.
pub open spec fn frac_digits6(d: Seq<u8>) -> Seq<u8> {
    if d.len() >= 6 {
        d.take(6)
    } else {
        d + Seq::new((6 - d.len()) as nat, |i: int| 48u8)
    }
}

/// Parsing a time string into microseconds: digits, an optional dot, and
/// fractional digits, at least one digit in all; no sign, no exponent.
/// Fractional digits beyond the sixth are dropped; an integer part at or
/// above the limit is rejected.
pub open spec fn parse_time_spec(s: Seq<u8>) -> Option<u64> {
    let dot = find_byte_from(s, 46, 0);
    let ip = s.take(dot);
    let fp = if dot < s.len() {
        s.skip(dot + 1)
    } else {
        Seq::empty()
    };
    if !(all_digits(ip) && all_digits(fp)) {
        None
    } else if ip.len() + fp.len() == 0 {
        None
    } else if digits_val(ip) >= TIME_INT_LIMIT {
        None
    } else {
        Some((digits_val(ip) * 1000000 + digits_val(frac_digits6(fp))) as u64)
    }
}

/// The color selected by the last byte of a label line, read as a base-3
/// digit: one selects green, two selects orange, zero and everything
/// unrecognized select the default yellow.
pub open spec fn category_of(b: u8) -> GuidelineColor {
    if b == 49 || b == 1 {
        GuidelineColor::Green
    } else if b == 50 || b == 2 {
        GuidelineColor::Orange
    } else {
        GuidelineColor::Yellow
    }
}

/// One nonempty label line: the time stands before the first tab (or is the
/// whole line), the category comes from the last byte.
pub open spec fn parse_line_spec(l: Seq<u8>) -> Option<LabelEntry> {
    let t = find_byte_from(l, 9, 0);
    match parse_time_spec(l.take(t)) {
        None => None,
        Some(tm) => Some(LabelEntry { time_micros: tm, color: category_of(l.last()) }),
    }
}

/// A line with one trailing carriage return removed.
pub open spec fn strip_cr(l: Seq<u8>) -> Seq<u8> {
    if l.len() > 0 && l.last() == 13u8 {
        l.drop_last()
    } else {
        l
    }
}

/// The lines of the label source from position `pos` on: split at newlines,
/// one carriage return stripped before each newline, the final line kept
/// as-is, and no empty final line after a terminating newline.
pub open spec fn split_lines_from(s: Seq<u8>, pos: int) -> Seq<Seq<u8>>
    decreases s.len() - pos,
{
    if pos < 0 || pos >= s.len() {
        Seq::empty()
    } else {
        let nl = find_byte_from(s, 10, pos);
        if nl < pos || nl > s.len() {
            Seq::empty()
        } else if nl == s.len() {
            seq![s.subrange(pos, s.len() as int)]
        } else {
            seq![strip_cr(s.subrange(pos, nl))] + split_lines_from(s, nl + 1)
        }
    }
}

/// All lines of the label source.
pub open spec fn split_lines(s: Seq<u8>) -> Seq<Seq<u8>> {
    split_lines_from(s, 0)
}

/// The entries of the given lines in order, empty lines skipped; `None` as
/// soon as any line fails to parse.
pub open spec fn parse_lines_spec(ls: Seq<Seq<u8>>) -> Option<Seq<LabelEntry>>
    decreases ls.len(),
{
    if ls.len() == 0 {
        Some(Seq::empty())
    } else if ls[0].len() == 0 {
        parse_lines_spec(ls.skip(1))
    } else {
        match parse_line_spec(ls[0]) {
            None => None,
            Some(e) => match parse_lines_spec(ls.skip(1)) {
                None => None,
                Some(rest) => Some(seq![e] + rest),
            },
        }
    }
}

/// Stable insertion of `x` into a sequence: `x` goes before the longest
/// suffix of entries with strictly greater times.
pub open spec fn insert_label(s: Seq<LabelEntry>, x: LabelEntry) -> Seq<LabelEntry>
    decreases s.len(),
{
    if s.len() == 0 {
        seq![x]
    } else if s.last().time_micros <= x.time_micros {
        s.push(x)
    } else {
        insert_label(s.drop_last(), x).push(s.last())
    }
}

/// Stable sort by time ascending: ties keep input order.
pub open spec fn sort_labels(s: Seq<LabelEntry>) -> Seq<LabelEntry>
    decreases s.len(),
{
    if s.len() == 0 {
        Seq::empty()
    } else {
        insert_label(sort_labels(s.drop_last()), s.last())
    }
}

/// Entries ordered by time ascending.
pub open spec fn sorted_by_time(s: Seq<LabelEntry>) -> bool {
    forall|i: int, j: int|
        0 <= i < j < s.len() ==> (#[trigger] s[i]).time_micros <= (#[trigger] s[j]).time_micros
}

/// Entries whose times all stay at or below a bound.
pub open spec fn times_le(s: Seq<LabelEntry>, bound: u64) -> bool {
    forall|k: int| 0 <= k < s.len() ==> (#[trigger] s[k]).time_micros <= bound
}

/// Stable insertion keeps every time at or below a bound that covers both
/// the sequence and the new entry.
proof fn lemma_insert_label_le(s: Seq<LabelEntry>, x: LabelEntry, bound: u64)
    requires
        times_le(s, bound),
        x.time_micros <= bound,
    ensures
        times_le(insert_label(s, x), bound),
    decreases s.len(),
{
    if s.len() == 0 {
    } else if s.last().time_micros <= x.time_micros {
        assert forall|k: int| 0 <= k < s.push(x).len() implies (#[trigger] s.push(x)[k]).time_micros
            <= bound by {
            if k < s.len() {
                assert(s.push(x)[k] == s[k]);
            }
        }
    } else {
        assert(times_le(s.drop_last(), bound)) by {
            assert forall|k: int|
                0 <= k < s.drop_last().len() implies (#[trigger] s.drop_last()[k]).time_micros
                <= bound by {
                assert(s.drop_last()[k] == s[k]);
            }
        }
        lemma_insert_label_le(s.drop_last(), x, bound);
        let t = insert_label(s.drop_last(), x);
        assert forall|k: int|
            0 <= k < t.push(s.last()).len() implies (#[trigger] t.push(s.last())[k]).time_micros
            <= bound by {
            if k < t.len() {
                assert(t.push(s.last())[k] == t[k]);
            }
        }
    }
}

/// Stable insertion preserves order by time.
proof fn lemma_insert_label_sorted(s: Seq<LabelEntry>, x: LabelEntry)
    requires
        sorted_by_time(s),
    ensures
        sorted_by_time(insert_label(s, x)),
    decreases s.len(),
{
    if s.len() == 0 {
    } else if s.last().time_micros <= x.time_micros {
        let r = s.push(x);
        assert forall|i: int, j: int| 0 <= i < j < r.len() implies (#[trigger] r[i]).time_micros
            <= (#[trigger] r[j]).time_micros by {
            if j < s.len() {
                assert(r[i] == s[i] && r[j] == s[j]);
            } else {
                assert(r[j] == x);
                assert(r[i] == s[i]);
                assert(s[i].time_micros <= s.last().time_micros);
            }
        }
    } else {
        assert(sorted_by_time(s.drop_last())) by {
            assert forall|i: int, j: int|
                0 <= i < j < s.drop_last().len() implies (#[trigger] s.drop_last()[i]).time_micros
                <= (#[trigger] s.drop_last()[j]).time_micros by {
                assert(s.drop_last()[i] == s[i] && s.drop_last()[j] == s[j]);
            }
        }
        lemma_insert_label_sorted(s.drop_last(), x);
        let t = insert_label(s.drop_last(), x);
        assert(times_le(s.drop_last(), s.last().time_micros)) by {
            assert forall|k: int|
                0 <= k < s.drop_last().len() implies (#[trigger] s.drop_last()[k]).time_micros
                <= s.last().time_micros by {
                assert(s.drop_last()[k] == s[k]);
                assert(s[k].time_micros <= s.last().time_micros);
            }
        }
        lemma_insert_label_le(s.drop_last(), x, s.last().time_micros);
        let r = t.push(s.last());
        assert forall|i: int, j: int| 0 <= i < j < r.len() implies (#[trigger] r[i]).time_micros
            <= (#[trigger] r[j]).time_micros by {
            if j < t.len() {
                assert(r[i] == t[i] && r[j] == t[j]);
            } else {
                assert(r[j] == s.last());
                assert(r[i] == t[i]);
            }
        }
    }
}

/// The stable sort leaves the entries ordered by time ascending; equal
/// times keep their input order by construction of the insertion.
pub proof fn lemma_sort_labels_sorted(s: Seq<LabelEntry>)
    ensures
        sorted_by_time(sort_labels(s)),
    decreases s.len(),
{
    if s.len() > 0 {
        lemma_sort_labels_sorted(s.drop_last());
        lemma_insert_label_sorted(sort_labels(s.drop_last()), s.last());
    }
}

/// Parsing the whole label source: split into lines, parse each nonempty
/// line, and stable-sort the entries by time ascending.
pub open spec fn parse_labels_spec(s: Seq<u8>) -> Result<Seq<LabelEntry>, Error> {
    match parse_lines_spec(split_lines(s)) {
        None => Err(Error::ParseError),
        Some(es) => Ok(sort_labels(es)),
    }
}

/// The decimal digits of `n`, no leading zeros (a single zero for zero).
pub open spec fn dec_str(n: nat) -> Seq<u8>
    decreases n,
{
    if n < 10 {
        seq![(48 + n) as u8]
    } else {
        dec_str(n / 10).push((48 + n % 10) as u8)
    }
}

/// The last `width` decimal digits of `n`, zero-padded.
pub open spec fn dec_str_pad(n: nat, width: nat) -> Seq<u8>
    decreases width,
{
    if width == 0 {
        Seq::empty()
    } else {
        dec_str_pad(n / 10, (width - 1) as nat).push((48 + n % 10) as u8)
    }
}

/// A time in microseconds in the on-disk fixed six-decimal format.
pub open spec fn format_fixed6(t: u64) -> Seq<u8> {
    dec_str((t / 1000000) as nat) + seq![46u8] + dec_str_pad((t % 1000000) as nat, 6)
}

/// The on-disk field text for the given entries in their given order:
/// `time~code~` for each, nothing between or around them. Empty input
/// renders to the empty field.
pub open spec fn render_spec(ls: Seq<LabelEntry>) -> Seq<u8>
    decreases ls.len(),
{
    if ls.len() == 0 {
        Seq::empty()
    } else {
        render_spec(ls.drop_last()) + format_fixed6(ls.last().time_micros) + seq![126u8]
            + color_code(ls.last().color) + seq![126u8]
    }
}

/// An empty entry list renders to the empty field, not an omitted one.
pub proof fn lemma_render_empty()
    ensures
        render_spec(Seq::empty()) == Seq::<u8>::empty(),
{
}

/// The first position at or after `from` holding byte `b`, or the length.
fn find_byte(data: &[u8], b: u8, from: usize) -> (r: usize)
    requires
        from <= data@.len(),
    ensures
        r as int == find_byte_from(data@, b, from as int),
        from <= r <= data@.len(),
        r < data@.len() ==> data@[r as int] == b,
        forall|k: int| from <= k < r ==> data@[k] != b,
{
    let mut i: usize = from;
    while i < data.len() && data[i] != b
        invariant
            from <= i <= data@.len(),
            find_byte_from(data@, b, from as int) == find_byte_from(data@, b, i as int),
            forall|k: int| from <= k < i ==> data@[k] != b,
        decreases data@.len() - i,
    {
        i = i + 1;
    }
    i
}

/// Ten to the power is monotone in the exponent.
proof fn lemma_pow10_mono(a: nat, b: nat)
    requires
        a <= b,
    ensures
        pow10(a) <= pow10(b),
    decreases b,
{
    if a < b {
        lemma_pow10_mono(a, (b - 1) as nat);
        assert(pow10(b) == 10 * pow10((b - 1) as nat));
    }
}

/// The value of a digit prefix never exceeds the value of the whole string.
proof fn lemma_digits_val_mono(s: Seq<u8>, n: int)
    requires
        0 <= n <= s.len(),
    ensures
        digits_val(s.take(n)) <= digits_val(s),
    decreases s.len(),
{
    if n < s.len() {
        lemma_digits_val_mono(s.drop_last(), n);
        assert(s.drop_last().take(n) =~= s.take(n));
        assert(digits_val(s.drop_last()) * 10 >= digits_val(s.drop_last()));
    } else {
        assert(s.take(n) =~= s);
    }
}

/// Parses a decimal time string to microseconds, exactly as the spec says.
fn parse_time(s: &[u8]) -> (r: Option<u64>)
    ensures
        r == parse_time_spec(s@),
{
    let ghost sv = s@;
    let dot = find_byte(s, 46, 0);
    let ghost ip = sv.take(dot as int);
    let ghost fp = if (dot as int) < sv.len() {
        sv.skip(dot as int + 1)
    } else {
        Seq::empty()
    };
    let mut k: usize = 0;
    while k < dot
        invariant
            k <= dot <= sv.len(),
            sv == s@,
            (dot as int) == find_byte_from(sv, 46, 0),
            ip == sv.take(dot as int),
            forall|j: int| 0 <= j < k ==> is_digit(#[trigger] ip[j]),
        decreases dot - k,
    {
        if !(48 <= s[k] && s[k] <= 57) {
            proof {
                assert(ip[k as int] == sv[k as int]);
                assert(!all_digits(ip));
            }
            return None;
        }
        k = k + 1;
    }
    proof {
        assert(all_digits(ip));
    }
    if dot < s.len() {
        let mut m: usize = dot + 1;
        while m < s.len()
            invariant
                (dot as int) + 1 <= m <= sv.len(),
                sv == s@,
                (dot as int) == find_byte_from(sv, 46, 0),
                (dot as int) < sv.len(),
                fp == sv.skip(dot as int + 1),
                forall|j: int| 0 <= j < m - dot - 1 ==> is_digit(#[trigger] fp[j]),
            decreases sv.len() - m,
        {
            if !(48 <= s[m] && s[m] <= 57) {
                proof {
                    assert(fp[m - dot - 1] == sv[m as int]);
                    assert(!all_digits(fp));
                }
                return None;
            }
            m = m + 1;
        }
    }
    proof {
        assert(all_digits(fp));
    }
    if dot == 0 && s.len() <= 1 {
        proof {
            assert(ip.len() + fp.len() == 0);
        }
        return None;
    }
    proof {
        assert(ip.len() + fp.len() > 0);
    }
    let mut acc: u64 = 0;
    let mut k2: usize = 0;
    while k2 < dot
        invariant
            k2 <= dot <= sv.len(),
            sv == s@,
            (dot as int) == find_byte_from(sv, 46, 0),
            ip == sv.take(dot as int),
            all_digits(ip),
            acc as nat == digits_val(ip.take(k2 as int)),
            acc < 10 * TIME_INT_LIMIT,
        decreases dot - k2,
    {
        if acc >= TIME_INT_LIMIT {
            proof {
                lemma_digits_val_mono(ip, k2 as int);
            }
            return None;
        }
        proof {
            assert(ip.take(k2 as int + 1).drop_last() =~= ip.take(k2 as int));
            assert(ip.take(k2 as int + 1).last() == sv[k2 as int]);
            assert(is_digit(ip[k2 as int]));
        }
        acc = acc * 10 + (s[k2] - 48) as u64;
        k2 = k2 + 1;
    }
    proof {
        assert(ip.take(dot as int) =~= ip);
    }
    if acc >= TIME_INT_LIMIT {
        return None;
    }
    let ghost f6 = frac_digits6(fp);
    let mut facc: u64 = 0;
    let mut m2: usize = 0;
    proof {
        assert(f6.len() == 6);
    }
    while m2 < 6
        invariant
            m2 <= 6,
            sv == s@,
            dot <= sv.len(),
            dot as int == find_byte_from(sv, 46, 0),
            fp == (if (dot as int) < sv.len() {
                sv.skip(dot as int + 1)
            } else {
                Seq::empty()
            }),
            all_digits(fp),
            f6 == frac_digits6(fp),
            f6.len() == 6,
            facc as nat == digits_val(f6.take(m2 as int)),
            facc < pow10(m2 as nat),
        decreases 6 - m2,
    {
        let d: u64 = if dot < s.len() && m2 < s.len() - dot - 1 {
            proof {
                assert(f6[m2 as int] == fp[m2 as int]);
                assert(is_digit(fp[m2 as int]));
                assert(sv[dot + 1 + m2] == fp[m2 as int]);
            }
            (s[dot + 1 + m2] - 48) as u64
        } else {
            proof {
                if (dot as int) < sv.len() {
                    assert(m2 >= fp.len());
                    assert(f6[m2 as int] == 48u8);
                } else {
                    assert(f6[m2 as int] == 48u8);
                }
            }
            0
        };
        proof {
            assert(f6.take(m2 as int + 1).drop_last() =~= f6.take(m2 as int));
            assert(f6.take(m2 as int + 1).last() == f6[m2 as int]);
            assert(pow10(m2 as nat + 1) == 10 * pow10(m2 as nat));
            assert(pow10(0) == 1);
            assert(pow10(1) == 10);
            assert(pow10(2) == 100);
            assert(pow10(3) == 1000);
            assert(pow10(4) == 10000);
            assert(pow10(5) == 100000);
            lemma_pow10_mono(m2 as nat, 5);
            assert(facc < 100000);
        }
        facc = facc * 10 + d;
        m2 = m2 + 1;
    }
    proof {
        assert(pow10(6) == 1000000) by {
            assert(pow10(0) == 1);
            assert(pow10(1) == 10);
            assert(pow10(2) == 100);
            assert(pow10(3) == 1000);
            assert(pow10(4) == 10000);
            assert(pow10(5) == 100000);
        }
        assert(f6.take(6) =~= f6);
    }
    Some(acc * 1000000 + facc)
}

/// A copy of `data[start..end]`.
fn copy_line(data: &[u8], start: usize, end: usize) -> (r: Vec<u8>)
    requires
        start <= end <= data@.len(),
    ensures
        r@ == data@.subrange(start as int, end as int),
{
    let mut out: Vec<u8> = Vec::new();
    let mut i: usize = start;
    while i < end
        invariant
            start <= i <= end <= data@.len(),
            out@ == data@.subrange(start as int, i as int),
        decreases end - i,
    {
        out.push(data[i]);
        i = i + 1;
        proof {
            assert(out@ =~= data@.subrange(start as int, i as int));
        }
    }
    out
}

/// Splits the label source into lines, as the spec says.
fn split_into_lines(data: &[u8]) -> (r: Vec<Vec<u8>>)
    ensures
        r.deep_view() == split_lines(data@),
{
    let mut out: Vec<Vec<u8>> = Vec::new();
    let mut pos: usize = 0;
    proof {
        assert(out.deep_view() =~= Seq::<Seq<u8>>::empty());
    }
    while pos < data.len()
        invariant
            pos <= data@.len(),
            out.deep_view() + split_lines_from(data@, pos as int) == split_lines(data@),
        decreases data@.len() - pos,
    {
        let ghost pre = out.deep_view();
        let nl = find_byte(data, 10, pos);
        proof {
            lemma_find_byte_bounds(data@, 10, pos as int);
        }
        if nl == data.len() {
            let line = copy_line(data, pos, data.len());
            out.push(line);
            proof {
                assert(split_lines_from(data@, pos as int) == seq![
                    data@.subrange(pos as int, data@.len() as int),
                ]);
                assert(out.deep_view() =~~= pre + seq![line@]);
                assert(pre + seq![line@] + Seq::<Seq<u8>>::empty() =~= split_lines(data@));
                assert(split_lines_from(data@, data@.len() as int) =~= Seq::<Seq<u8>>::empty());
            }
            pos = data.len();
        } else {
            let mut line = copy_line(data, pos, nl);
            if line.len() > 0 && line[line.len() - 1] == 13 {
                let _trailing = line.pop();
            }
            proof {
                assert(line@ == strip_cr(data@.subrange(pos as int, nl as int)));
                assert(split_lines_from(data@, pos as int) == seq![
                    strip_cr(data@.subrange(pos as int, nl as int)),
                ] + split_lines_from(data@, nl as int + 1));
            }
            out.push(line);
            proof {
                assert(out.deep_view() =~~= pre + seq![line@]);
                assert(pre + seq![line@] + split_lines_from(data@, nl as int + 1) =~= split_lines(
                    data@,
                ));
            }
            pos = nl + 1;
        }
    }
    proof {
        assert(split_lines_from(data@, pos as int) =~= Seq::<Seq<u8>>::empty());
        assert(out.deep_view() + Seq::<Seq<u8>>::empty() =~= out.deep_view());
    }
    out
}

/// Parses one nonempty label line, as the spec says.
fn parse_line(line: &[u8]) -> (r: Option<LabelEntry>)
    requires
        line@.len() > 0,
    ensures
        r == parse_line_spec(line@),
{
    let t = find_byte(line, 9, 0);
    let time_part = copy_line(line, 0, t);
    let tm = match parse_time(time_part.as_slice()) {
        None => {
            return None;
        },
        Some(tm) => tm,
    };
    let last = line[line.len() - 1];
    let color = if last == 49 || last == 1 {
        GuidelineColor::Green
    } else if last == 50 || last == 2 {
        GuidelineColor::Orange
    } else {
        GuidelineColor::Yellow
    };
    Some(LabelEntry { time_micros: tm, color })
}

/// Inserting at the position the scan found equals the spec's stable insert.
proof fn lemma_insert_label_at(s: Seq<LabelEntry>, x: LabelEntry, p: int)
    requires
        0 <= p <= s.len(),
        forall|k: int| p <= k < s.len() ==> (#[trigger] s[k]).time_micros > x.time_micros,
        p > 0 ==> s[p - 1].time_micros <= x.time_micros,
    ensures
        insert_label(s, x) == s.insert(p, x),
    decreases s.len(),
{
    if s.len() == 0 {
        assert(s.insert(0, x) =~= seq![x]);
    } else if s.last().time_micros <= x.time_micros {
        assert(p == s.len());
        assert(s.insert(p, x) =~= s.push(x));
    } else {
        assert(p < s.len());
        lemma_insert_label_at(s.drop_last(), x, p);
        assert(insert_label(s, x) == insert_label(s.drop_last(), x).push(s.last()));
        assert(s.drop_last().insert(p, x).push(s.last()) =~= s.insert(p, x));
    }
}

/// Stable-sorts the entries by time ascending, as the spec says.
fn sort_labels_exec(v: Vec<LabelEntry>) -> (r: Vec<LabelEntry>)
    ensures
        r@ == sort_labels(v@),
{
    let mut out: Vec<LabelEntry> = Vec::new();
    let mut i: usize = 0;
    proof {
        assert(v@.take(0) =~= Seq::<LabelEntry>::empty());
    }
    while i < v.len()
        invariant
            i <= v@.len(),
            out@ == sort_labels(v@.take(i as int)),
        decreases v@.len() - i,
    {
        let x = v[i];
        let mut p: usize = out.len();
        while p > 0 && out[p - 1].time_micros > x.time_micros
            invariant
                p <= out@.len(),
                forall|k: int|
                    p <= k < out@.len() ==> (#[trigger] out@[k]).time_micros > x.time_micros,
            decreases p,
        {
            p = p - 1;
        }
        let ghost pre = out@;
        out.insert(p, x);
        proof {
            lemma_insert_label_at(pre, x, p as int);
            assert(v@.take(i as int + 1).drop_last() =~= v@.take(i as int));
            assert(v@.take(i as int + 1).last() == v@[i as int]);
        }
        i = i + 1;
    }
    proof {
        assert(v@.take(v@.len() as int) =~= v@);
    }
    out
}

/// Appends the decimal digits of `n`, no leading zeros.
fn push_dec(n: u64, out: &mut Vec<u8>)
    ensures
        final(out)@ == old(out)@ + dec_str(n as nat),
    decreases n,
{
    if n < 10 {
        out.push(48 + n as u8);
        proof {
            assert(final(out)@ =~= old(out)@ + dec_str(n as nat));
        }
    } else {
        push_dec(n / 10, out);
        out.push(48 + (n % 10) as u8);
        proof {
            assert(final(out)@ =~= old(out)@ + dec_str(n as nat));
        }
    }
}

/// Appends the last `width` decimal digits of `n`, zero-padded.
fn push_dec_pad(n: u64, width: usize, out: &mut Vec<u8>)
    ensures
        final(out)@ == old(out)@ + dec_str_pad(n as nat, width as nat),
    decreases width,
{
    if width > 0 {
        push_dec_pad(n / 10, width - 1, out);
        out.push(48 + (n % 10) as u8);
        proof {
            assert(final(out)@ =~= old(out)@ + dec_str_pad(n as nat, width as nat));
        }
    } else {
        proof {
            assert(final(out)@ =~= old(out)@ + dec_str_pad(n as nat, 0));
        }
    }
}

/// Renders the entries, in their given order, into the on-disk field text:
/// each time in fixed six-decimal format, then a tilde, the entry's color
/// code, and a closing tilde. An empty list gives the empty field.
pub fn render_guidelines(labels: &[LabelEntry]) -> (r: Vec<u8>)
    ensures
        r@ == render_spec(labels@),
{
    let mut out: Vec<u8> = Vec::new();
    let mut i: usize = 0;
    proof {
        assert(labels@.take(0) =~= Seq::<LabelEntry>::empty());
    }
    while i < labels.len()
        invariant
            i <= labels@.len(),
            out@ == render_spec(labels@.take(i as int)),
        decreases labels@.len() - i,
    {
        let e = labels[i];
        push_dec(e.time_micros / 1000000, &mut out);
        out.push(46);
        push_dec_pad(e.time_micros % 1000000, 6, &mut out);
        out.push(126);
        let mut code = e.color.code_bytes();
        out.append(&mut code);
        out.push(126);
        proof {
            assert(labels@.take(i as int + 1).drop_last() =~= labels@.take(i as int));
            assert(labels@.take(i as int + 1).last() == labels@[i as int]);
            assert(out@ =~= render_spec(labels@.take(i as int + 1)));
        }
        i = i + 1;
    }
    proof {
        assert(labels@.take(labels@.len() as int) =~= labels@);
    }
    out
}

/// Parses the label source: nonempty lines to (time, color) entries, first
/// bad line reported as `ParseError`, the result stable-sorted by time
/// ascending.
pub fn parse_labels(content: &[u8]) -> (r: Result<Vec<LabelEntry>, Error>)
    ensures
        match r {
            Ok(v) => parse_labels_spec(content@) == Ok::<Seq<LabelEntry>, Error>(v@),
            Err(e) => parse_labels_spec(content@) == Err::<Seq<LabelEntry>, Error>(e),
        },
{
    let lines = split_into_lines(content);
    let ghost all_lines = split_lines(content@);
    let mut entries: Vec<LabelEntry> = Vec::new();
    let mut k: usize = 0;
    proof {
        assert(all_lines.skip(0) =~= all_lines);
    }
    while k < lines.len()
        invariant
            k <= lines@.len(),
            lines.deep_view() == all_lines,
            all_lines == split_lines(content@),
            parse_lines_spec(all_lines) == (match parse_lines_spec(all_lines.skip(k as int)) {
                None => None::<Seq<LabelEntry>>,
                Some(rest) => Some(entries@ + rest),
            }),
        decreases lines@.len() - k,
    {
        let ghost rest_lines = all_lines.skip(k as int);
        proof {
            assert(rest_lines[0] == lines.deep_view()[k as int]);
            assert(rest_lines[0] =~= lines@[k as int]@);
            assert(rest_lines.skip(1) =~= all_lines.skip(k as int + 1));
        }
        let line = &lines[k];
        if line.len() > 0 {
            match parse_line(line.as_slice()) {
                None => {
                    proof {
                        assert(parse_lines_spec(rest_lines) is None);
                    }
                    return Err(Error::ParseError);
                },
                Some(e) => {
                    let ghost pre = entries@;
                    entries.push(e);
                    proof {
                        assert(entries@ =~= pre + seq![e]);
                        if parse_lines_spec(all_lines.skip(k as int + 1)) is Some {
                            let rest = parse_lines_spec(all_lines.skip(k as int + 1))->Some_0;
                            assert(parse_lines_spec(rest_lines) == Some(seq![e] + rest));
                            assert(pre + (seq![e] + rest) =~= (pre + seq![e]) + rest);
                        }
                    }
                },
            }
        } else {
            proof {
                assert(parse_lines_spec(rest_lines) == parse_lines_spec(
                    all_lines.skip(k as int + 1),
                ));
            }
        }
        k = k + 1;
    }
    proof {
        assert(all_lines.skip(k as int) =~= Seq::<Seq<u8>>::empty());
        assert(parse_lines_spec(all_lines) == Some(entries@ + Seq::<LabelEntry>::empty()));
        assert(entries@ + Seq::<LabelEntry>::empty() =~= entries@);
    }
    Ok(sort_labels_exec(entries))
}

/// The on-disk guideline field text for the whole label source: parse, sort,
/// and render.
pub open spec fn create_guidelines_spec(s: Seq<u8>) -> Result<Seq<u8>, Error> {
    match parse_labels_spec(s) {
        Err(e) => Err(e),
        Ok(ls) => Ok(render_spec(ls)),
    }
}

/// Builds the new guideline field text from the label source in one step.
pub fn create_guidelines(labels_data: &[u8]) -> (r: Result<Vec<u8>, Error>)
    ensures
        match r {
            Ok(v) => create_guidelines_spec(labels_data@) == Ok::<Seq<u8>, Error>(v@),
            Err(e) => create_guidelines_spec(labels_data@) == Err::<Seq<u8>, Error>(e),
        },
{
    match parse_labels(labels_data) {
        Err(e) => Err(e),
        Ok(entries) => Ok(render_guidelines(entries.as_slice())),
    }
}

} // verus!
