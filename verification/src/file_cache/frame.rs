//! The frame of a stored record: where the fields of its encoding begin and
//! end. The encoding writes the path, the size, the two times and the
//! extension one after another. A number is one byte up to 250, or a mark
//! of 251, 252 or 253 followed by two, four or eight bytes, lowest first; a
//! text is its length in bytes as a number, then its bytes; a field that
//! may be absent begins with a byte that is 0 for absent and 1 for present.
//! Stored bytes are held against this frame before they are decoded, so
//! that no length in them asks for more than the bytes that are there.

use vstd::prelude::*;

verus! {

/// The greatest number that is written as one byte.
pub const SINGLE_BYTE_MAX: u8 = 250;

/// The mark of a number written in two bytes.
pub const MARK_TWO: u8 = 251;

/// The mark of a number written in four bytes.
pub const MARK_FOUR: u8 = 252;

/// The mark of a number written in eight bytes.
pub const MARK_EIGHT: u8 = 253;

/// The number that the two bytes at `at` spell, lowest first.
pub open spec fn two_bytes(bytes: Seq<u8>, at: int) -> int {
    bytes[at] as int + 256 * (bytes[at + 1] as int)
}

/// The number that the four bytes at `at` spell, lowest first.
pub open spec fn four_bytes(bytes: Seq<u8>, at: int) -> int {
    two_bytes(bytes, at) + 65536 * two_bytes(bytes, at + 2)
}

/// The number that the eight bytes at `at` spell, lowest first.
pub open spec fn eight_bytes(bytes: Seq<u8>, at: int) -> int {
    four_bytes(bytes, at) + 4294967296 * four_bytes(bytes, at + 4)
}

/// The number written at `at` and the place after it, where a whole number
/// is written there.
pub open spec fn number_at(bytes: Seq<u8>, at: int) -> Option<(int, int)> {
    if !(0 <= at < bytes.len()) {
        None
    } else if bytes[at] <= SINGLE_BYTE_MAX {
        Some((bytes[at] as int, at + 1))
    } else if bytes[at] == MARK_TWO && at + 3 <= bytes.len() {
        Some((two_bytes(bytes, at + 1), at + 3))
    } else if bytes[at] == MARK_FOUR && at + 5 <= bytes.len() {
        Some((four_bytes(bytes, at + 1), at + 5))
    } else if bytes[at] == MARK_EIGHT && at + 9 <= bytes.len() {
        Some((eight_bytes(bytes, at + 1), at + 9))
    } else {
        None
    }
}

/// The place after the number written at `at`.
pub open spec fn number_end(bytes: Seq<u8>, at: int) -> Option<int> {
    match number_at(bytes, at) {
        Some((value, end)) => Some(end),
        None => None,
    }
}

/// The place after the text written at `at`, where its length is written
/// there and as many bytes follow as it says.
pub open spec fn text_end(bytes: Seq<u8>, at: int) -> Option<int> {
    match number_at(bytes, at) {
        Some((length, end)) => if end + length <= bytes.len() {
            Some(end + length)
        } else {
            None
        },
        None => None,
    }
}

/// The place after the number written at `at` that may be absent.
pub open spec fn optional_number_end(bytes: Seq<u8>, at: int) -> Option<int> {
    if !(0 <= at < bytes.len()) {
        None
    } else if bytes[at] == 0 {
        Some(at + 1)
    } else if bytes[at] == 1 {
        number_end(bytes, at + 1)
    } else {
        None
    }
}

/// The place after the text written at `at` that may be absent.
pub open spec fn optional_text_end(bytes: Seq<u8>, at: int) -> Option<int> {
    if !(0 <= at < bytes.len()) {
        None
    } else if bytes[at] == 0 {
        Some(at + 1)
    } else if bytes[at] == 1 {
        text_end(bytes, at + 1)
    } else {
        None
    }
}

/// The place after the record written at the start of the bytes: after its
/// path, its size, its two times and its extension.
pub open spec fn record_end(bytes: Seq<u8>) -> Option<int> {
    match text_end(bytes, 0) {
        Some(a) => match number_end(bytes, a) {
            Some(b) => match optional_number_end(bytes, b) {
                Some(c) => match optional_number_end(bytes, c) {
                    Some(d) => optional_text_end(bytes, d),
                    None => None,
                },
                None => None,
            },
            None => None,
        },
        None => None,
    }
}

/// Whether the bytes begin with the frame of a record: each field is
/// written whole, and no text is longer than the bytes that follow its
/// length.
pub open spec fn record_frame(bytes: Seq<u8>) -> bool {
    record_end(bytes) is Some
}

fn read_two(bytes: &[u8], at: usize) -> (value: u64)
    requires
        at + 2 <= bytes.len(),
    ensures
        value == two_bytes(bytes@, at as int),
        value < 65536,
{
    let low: u64 = bytes[at] as u64;
    let high: u64 = bytes[at + 1] as u64;
    low + 256 * high
}

fn read_four(bytes: &[u8], at: usize) -> (value: u64)
    requires
        at + 4 <= bytes.len(),
    ensures
        value == four_bytes(bytes@, at as int),
        value < 4294967296,
{
    let low: u64 = read_two(bytes, at);
    let high: u64 = read_two(bytes, at + 2);
    low + 65536 * high
}

fn read_eight(bytes: &[u8], at: usize) -> (value: u64)
    requires
        at + 8 <= bytes.len(),
    ensures
        value == eight_bytes(bytes@, at as int),
{
    let low: u64 = read_four(bytes, at);
    let high: u64 = read_four(bytes, at + 4);
    low + 4294967296 * high
}

/// The number written at `at` and the place after it.
pub fn read_number(bytes: &[u8], at: usize) -> (found: Option<(u64, usize)>)
    ensures
        match found {
            Some((value, end)) => number_at(bytes@, at as int) == Some((value as int, end as int))
                && at < end <= bytes.len(),
            None => number_at(bytes@, at as int) is None,
        },
{
    if at >= bytes.len() {
        return None;
    }
    let first: u8 = bytes[at];
    let left: usize = bytes.len() - at;
    if first <= SINGLE_BYTE_MAX {
        Some((first as u64, at + 1))
    } else if first == MARK_TWO && left >= 3 {
        Some((read_two(bytes, at + 1), at + 3))
    } else if first == MARK_FOUR && left >= 5 {
        Some((read_four(bytes, at + 1), at + 5))
    } else if first == MARK_EIGHT && left >= 9 {
        Some((read_eight(bytes, at + 1), at + 9))
    } else {
        None
    }
}

/// The place after the number written at `at`.
pub fn skip_number(bytes: &[u8], at: usize) -> (end: Option<usize>)
    ensures
        match end {
            Some(e) => number_end(bytes@, at as int) == Some(e as int) && e <= bytes.len(),
            None => number_end(bytes@, at as int) is None,
        },
{
    match read_number(bytes, at) {
        Some((_, end)) => Some(end),
        None => None,
    }
}

/// The place after the text written at `at`.
pub fn skip_text(bytes: &[u8], at: usize) -> (end: Option<usize>)
    ensures
        match end {
            Some(e) => text_end(bytes@, at as int) == Some(e as int) && e <= bytes.len(),
            None => text_end(bytes@, at as int) is None,
        },
{
    match read_number(bytes, at) {
        Some((length, end)) => {
            let left: usize = bytes.len() - end;
            if length <= left as u64 {
                Some(end + length as usize)
            } else {
                None
            }
        },
        None => None,
    }
}

/// The place after the number written at `at` that may be absent.
pub fn skip_optional_number(bytes: &[u8], at: usize) -> (end: Option<usize>)
    ensures
        match end {
            Some(e) => optional_number_end(bytes@, at as int) == Some(e as int) && e
                <= bytes.len(),
            None => optional_number_end(bytes@, at as int) is None,
        },
{
    if at >= bytes.len() {
        None
    } else if bytes[at] == 0 {
        Some(at + 1)
    } else if bytes[at] == 1 {
        skip_number(bytes, at + 1)
    } else {
        None
    }
}

/// The place after the text written at `at` that may be absent.
pub fn skip_optional_text(bytes: &[u8], at: usize) -> (end: Option<usize>)
    ensures
        match end {
            Some(e) => optional_text_end(bytes@, at as int) == Some(e as int) && e <= bytes.len(),
            None => optional_text_end(bytes@, at as int) is None,
        },
{
    if at >= bytes.len() {
        None
    } else if bytes[at] == 0 {
        Some(at + 1)
    } else if bytes[at] == 1 {
        skip_text(bytes, at + 1)
    } else {
        None
    }
}

/// Whether the bytes begin with the frame of a record.
pub fn has_record_frame(bytes: &[u8]) -> (whole: bool)
    ensures
        whole == record_frame(bytes@),
{
    let a: usize = match skip_text(bytes, 0) {
        Some(a) => a,
        None => {
            return false;
        },
    };
    let b: usize = match skip_number(bytes, a) {
        Some(b) => b,
        None => {
            return false;
        },
    };
    let c: usize = match skip_optional_number(bytes, b) {
        Some(c) => c,
        None => {
            return false;
        },
    };
    let d: usize = match skip_optional_number(bytes, c) {
        Some(d) => d,
        None => {
            return false;
        },
    };
    skip_optional_text(bytes, d).is_some()
}

} // verus!
