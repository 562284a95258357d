//! Fixed-point decoding of a temperature field such as `-3.7` into tenths.
use vstd::prelude::*;

verus! {

pub const MINUS: u8 = 45;

pub const DOT: u8 = 46;

const ZERO: u8 = 48;

const NINE: u8 = 57;

pub open spec fn is_digit(b: u8) -> bool {
    48 <= b <= 57
}

pub open spec fn digit_value(b: u8) -> int {
    b as int - 48
}

/// Value in tenths of an unsigned field shaped `D.D` or `DD.D`.
pub open spec fn magnitude_tenths(t: Seq<u8>) -> Option<int> {
    if t.len() == 3 && is_digit(t[0]) && t[1] == 46 && is_digit(t[2]) {
        Some(10 * digit_value(t[0]) + digit_value(t[2]))
    } else if t.len() == 4 && is_digit(t[0]) && is_digit(t[1]) && t[2] == 46 && is_digit(t[3]) {
        Some(100 * digit_value(t[0]) + 10 * digit_value(t[1]) + digit_value(t[3]))
    } else {
        None
    }
}

/// Value in tenths of a temperature field: an optional `-` followed by `D.D`
/// or `DD.D`; `None` for any other text.
pub open spec fn temperature_tenths(t: Seq<u8>) -> Option<int> {
    if t.len() > 0 && t[0] == 45 {
        match magnitude_tenths(t.drop_first()) {
            Some(m) => Some(-m),
            None => None,
        }
    } else {
        magnitude_tenths(t)
    }
}

/// Every decodable field lies within -99.9 ..= 99.9.
pub proof fn lemma_temperature_range(t: Seq<u8>)
    requires
        temperature_tenths(t) is Some,
    ensures
        -999 <= temperature_tenths(t)->0 <= 999,
{
}

fn is_digit_byte(b: u8) -> (r: bool)
    ensures
        r == is_digit(b),
{
    ZERO <= b && b <= NINE
}

/// Decodes a temperature field into tenths of a degree, without floating point.
/// `None` when the field is not an optional `-` followed by `D.D` or `DD.D`.
pub fn parse_temp(bytes: &[u8]) -> (r: Option<i16>)
    ensures
        match r {
            Some(v) => temperature_tenths(bytes@) == Some(v as int),
            None => temperature_tenths(bytes@) is None,
        },
{
    let n = bytes.len();
    let negative = n > 0 && bytes[0] == MINUS;
    let start: usize = if negative { 1 } else { 0 };
    let ghost t = if negative { bytes@.drop_first() } else { bytes@ };
    assert(t.len() == n - start);
    assert(forall|i: int| 0 <= i < t.len() ==> t[i] == bytes@[i + start]);
    let m = n - start;
    let magnitude: i16;
    if m == 3 && is_digit_byte(bytes[start]) && bytes[start + 1] == DOT && is_digit_byte(
        bytes[start + 2],
    ) {
        magnitude = (bytes[start] - ZERO) as i16 * 10 + (bytes[start + 2] - ZERO) as i16;
    } else if m == 4 && is_digit_byte(bytes[start]) && is_digit_byte(bytes[start + 1])
        && bytes[start + 2] == DOT && is_digit_byte(bytes[start + 3]) {
        magnitude = (bytes[start] - ZERO) as i16 * 100 + (bytes[start + 1] - ZERO) as i16 * 10 + (
        bytes[start + 3] - ZERO) as i16;
    } else {
        assert(magnitude_tenths(t) is None);
        return None;
    }
    assert(magnitude_tenths(t) == Some(magnitude as int));
    if negative {
        Some(-magnitude)
    } else {
        Some(magnitude)
    }
}

} // verus!
