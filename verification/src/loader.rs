//! Pure helpers for the loader boundary: normalizing an embedded bit string,
//! detecting a structured record, and counting symbols. Reading files and
//! parsing structured records stay outside the analytical core; these
//! functions take and return plain strings.

use vstd::prelude::*;

use crate::bitspec::bit_char;
use crate::counting::count_eq;

verus! {

/// Why a raw bit-stream text could not be harmonized.
#[derive(Clone, Copy, Debug, PartialEq, Eq, Structural)]
pub enum RawBitstreamError {
    /// The text held `character` at `index`, the leftmost position whose
    /// character is neither a bit nor blank.
    InvalidCharacter { character: char, index: usize },
    /// The text held no '0' or '1' at all.
    NoBits,
}

/// The subsequence of '0'/'1' characters of `s`, in order.
pub open spec fn kept_bits(s: Seq<char>) -> Seq<char>
    decreases s.len(),
{
    if s.len() == 0 {
        Seq::empty()
    } else if bit_char(s.last()) {
        kept_bits(s.drop_last()).push(s.last())
    } else {
        kept_bits(s.drop_last())
    }
}

/// A character a raw bit-stream text may hold: a bit or plain blank space.
pub open spec fn raw_allowed(c: char) -> bool {
    bit_char(c) || c == ' ' || c == '\n' || c == '\r' || c == '\t'
}

/// The first character of `s` at or after `i` that is not Unicode whitespace.
pub open spec fn first_non_ws_from(s: Seq<char>, i: int) -> Option<char>
    decreases s.len() - i,
{
    if i < 0 || i >= s.len() {
        None
    } else if !is_unicode_whitespace(s[i]) {
        Some(s[i])
    } else {
        first_non_ws_from(s, i + 1)
    }
}

/// What char::is_whitespace returns: whether the character has the Unicode
/// White_Space property, a function of the character alone.
pub uninterp spec fn is_unicode_whitespace(c: char) -> bool;

/// Relies on char::is_whitespace: true exactly for characters with the
/// Unicode White_Space property.
#[verifier::external_body]
fn whitespace_char(c: char) -> (r: bool)
    ensures
        r == is_unicode_whitespace(c),
{
    c.is_whitespace()
}

/// Relies on String::push: appends the given character to the end.
#[verifier::external_body]
fn push_char(s: &mut String, c: char)
    ensures
        final(s)@ == old(s)@.push(c),
{
    s.push(c);
}

/// Harmonizes a bit string extracted from a structured record: keeps only the
/// '0'/'1' characters, dropping brackets, whitespace and anything else, so
/// that the result is one contiguous bit stream.
pub fn harmonize_qrn_from_json(qrn: &str) -> (r: String)
    ensures
        r@ == kept_bits(qrn@),
{
    let n = qrn.unicode_len();
    let mut out = String::new();
    let mut i: usize = 0;
    proof {
        assert(qrn@.take(0) =~= Seq::<char>::empty());
        assert(out@ =~= kept_bits(qrn@.take(0)));
    }
    while i < n
        invariant
            i <= n,
            n == qrn@.len(),
            out@ == kept_bits(qrn@.take(i as int)),
        decreases n - i,
    {
        proof {
            assert(qrn@.take(i + 1).drop_last() =~= qrn@.take(i as int));
            assert(qrn@.take(i + 1).last() == qrn@[i as int]);
        }
        let c = qrn.get_char(i);
        if c == '0' || c == '1' {
            push_char(&mut out, c);
        }
        i = i + 1;
    }
    proof {
        assert(qrn@.take(n as int) =~= qrn@);
    }
    out
}

/// Harmonizes a raw bit-stream text: keeps '0'/'1', skips blank space, and
/// fails at the leftmost character that is neither, or when no bit is left.
pub fn harmonize_raw_bitstream(raw: &str) -> (r: Result<String, RawBitstreamError>)
    ensures
        match r {
            Ok(out) => (forall|j: int| 0 <= j < raw@.len() ==> raw_allowed(#[trigger] raw@[j]))
                && out@ == kept_bits(raw@) && out@.len() >= 1,
            Err(RawBitstreamError::InvalidCharacter { character, index }) => index < raw@.len()
                && raw@[index as int] == character && !raw_allowed(character) && (forall|j: int|
                0 <= j < index ==> raw_allowed(#[trigger] raw@[j])),
            Err(RawBitstreamError::NoBits) => (forall|j: int|
                0 <= j < raw@.len() ==> raw_allowed(#[trigger] raw@[j])) && kept_bits(raw@).len()
                == 0,
        },
{
    let n = raw.unicode_len();
    let mut out = String::new();
    let mut kept: usize = 0;
    let mut i: usize = 0;
    proof {
        assert(raw@.take(0) =~= Seq::<char>::empty());
        assert(out@ =~= kept_bits(raw@.take(0)));
    }
    while i < n
        invariant
            i <= n,
            n == raw@.len(),
            out@ == kept_bits(raw@.take(i as int)),
            kept == out@.len(),
            kept <= i,
            forall|j: int| 0 <= j < i ==> raw_allowed(#[trigger] raw@[j]),
        decreases n - i,
    {
        proof {
            assert(raw@.take(i + 1).drop_last() =~= raw@.take(i as int));
            assert(raw@.take(i + 1).last() == raw@[i as int]);
        }
        let c = raw.get_char(i);
        match c {
            '0' | '1' => {
                push_char(&mut out, c);
                kept = kept + 1;
            },
            ' ' | '\n' | '\r' | '\t' => {},
            _ => {
                return Err(RawBitstreamError::InvalidCharacter { character: c, index: i });
            },
        }
        i = i + 1;
    }
    proof {
        assert(raw@.take(n as int) =~= raw@);
    }
    if kept == 0 {
        return Err(RawBitstreamError::NoBits);
    }
    Ok(out)
}

/// Heuristic format detection: the content is taken for a structured record
/// exactly when its first non-whitespace character is an opening brace.
pub fn is_json_file_content(s: &str) -> (r: bool)
    ensures
        r == (first_non_ws_from(s@, 0) == Some('{')),
{
    let n = s.unicode_len();
    let mut i: usize = 0;
    while i < n
        invariant
            i <= n,
            n == s@.len(),
            first_non_ws_from(s@, 0) == first_non_ws_from(s@, i as int),
        decreases n - i,
    {
        let c = s.get_char(i);
        if !whitespace_char(c) {
            return c == '{';
        }
        i = i + 1;
    }
    false
}

/// Counts the bit symbols of `bitstream`: the result holds the count of '1'
/// characters first and of '0' characters second; any other character is
/// ignored.
pub fn quantity_oz(bitstream: &str) -> (r: [i32; 2])
    requires
        bitstream@.len() <= i32::MAX,
    ensures
        r[0] == count_eq(bitstream@, '1'),
        r[1] == count_eq(bitstream@, '0'),
{
    let n = bitstream.unicode_len();
    let mut ones: i32 = 0;
    let mut zeros: i32 = 0;
    let mut i: usize = 0;
    proof {
        assert(bitstream@.take(0) =~= Seq::<char>::empty());
    }
    while i < n
        invariant
            i <= n,
            n == bitstream@.len(),
            n <= i32::MAX,
            ones == count_eq(bitstream@.take(i as int), '1'),
            zeros == count_eq(bitstream@.take(i as int), '0'),
            0 <= ones <= i,
            0 <= zeros <= i,
        decreases n - i,
    {
        proof {
            assert(bitstream@.take(i + 1).drop_last() =~= bitstream@.take(i as int));
            assert(bitstream@.take(i + 1).last() == bitstream@[i as int]);
        }
        let c = bitstream.get_char(i);
        match c {
            '0' => {
                zeros = zeros + 1;
            },
            '1' => {
                ones = ones + 1;
            },
            _ => {},
        }
        i = i + 1;
    }
    proof {
        assert(bitstream@.take(n as int) =~= bitstream@);
    }
    [ones, zeros]
}

} // verus!
