//! Core value types: guideline colors, parsed label entries, and the error
//! kinds that every fallible operation of this crate reports.

use vstd::prelude::*;

verus! {

/// The three guideline colors a label line can select.
#[derive(Clone, Copy, Debug, PartialEq, Eq, Structural)]
pub enum GuidelineColor {
    Green,
    Orange,
    Yellow,
}

/// The on-disk code written for each color, as a byte sequence.
pub open spec fn color_code(c: GuidelineColor) -> Seq<u8> {
    match c {
        GuidelineColor::Orange => seq![48u8],
        GuidelineColor::Yellow => seq![48u8, 46u8, 57u8],
        GuidelineColor::Green => seq![49u8],
    }
}

impl GuidelineColor {
    /// The color value used in save data: `"0"` for orange, `"0.9"` for
    /// yellow, `"1"` for green.
    pub fn value(&self) -> (r: &'static str)
        ensures
            r@ == match self {
                GuidelineColor::Orange => "0"@,
                GuidelineColor::Yellow => "0.9"@,
                GuidelineColor::Green => "1"@,
            },
    {
        match self {
            GuidelineColor::Orange => "0",
            GuidelineColor::Yellow => "0.9",
            GuidelineColor::Green => "1",
        }
    }

    /// The same code as a byte vector, for building the on-disk field text.
    pub fn code_bytes(&self) -> (r: Vec<u8>)
        ensures
            r@ == color_code(*self),
    {
        let mut v: Vec<u8> = Vec::new();
        match self {
            GuidelineColor::Orange => {
                v.push(48);
            }
            GuidelineColor::Yellow => {
                v.push(48);
                v.push(46);
                v.push(57);
            }
            GuidelineColor::Green => {
                v.push(49);
            }
        }
        proof {
            assert(v@ =~= color_code(*self));
        }
        v
    }
}

/// One (time, color) pair from the external label source. The time is held in
/// microseconds, the unit behind the fixed six-decimal on-disk format.
#[derive(Clone, Copy, Debug, PartialEq, Eq, Structural)]
pub struct LabelEntry {
    pub time_micros: u64,
    pub color: GuidelineColor,
}

/// Every failure the library reports. `Io` is never produced here; it is the
/// variant through which a caller doing file I/O reports its own failures.
#[derive(Clone, Copy, Debug, PartialEq, Eq, Structural)]
pub enum Error {
    /// Bad UTF-8, bad base64, a corrupt deflate stream, or a truncated header.
    InvalidEncoding,
    /// A sub-record ordinal out of range, or a name that is absent.
    RecordNotFound,
    /// The guideline marker is missing from a payload.
    FieldNotFound,
    /// A malformed label line or an unparseable time value.
    ParseError,
    /// A file read or write failure, reported by the calling layer.
    Io,
}

} // verus!
