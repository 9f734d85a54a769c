//! Binary grayscale PPM ("P5") images: parsing and encoding.
//!
//! The header is read line by line, each line as UTF-8 text: a magic line
//! starting with `P5`, a line `width height` (lines whose first non-blank
//! character is `#`, and lines that do not hold exactly two words, are
//! skipped), a line with the maximum value `255`, then `width * height`
//! bytes of pixels.
use vstd::prelude::*;
use vstd::utf8::valid_utf8;
use vstd::slice::slice_subrange;

verus! {

/// Why text is not a `u32`, as `u32::from_str` reports it.
#[derive(Debug, Clone, Copy, PartialEq, Eq)]
pub enum IntErrorKind {
    /// The text is empty.
    Empty,
    /// A character that is not a decimal digit comes before any overflow.
    InvalidDigit,
    /// The value passes `u32::MAX` before any character that is not a digit.
    PosOverflow,
}

/// Why a PPM image could not be read.
#[derive(Debug, Clone, Copy, PartialEq, Eq)]
pub enum PpmError {
    /// The magic line is not UTF-8 text.
    ReadMagic,
    /// The magic line does not start with `P5`.
    UnsupportedFormat,
    /// The input ended before a line with two words. A reader that keeps
    /// asking for the next line at the end of the input never returns here;
    /// this error is what a total function answers instead.
    MissingDimensions,
    /// A line before the dimensions is not UTF-8 text.
    ReadDimensions,
    /// The first word of the dimensions line is not a `u32`, for this reason.
    InvalidWidth(IntErrorKind),
    /// The second word of the dimensions line is not a `u32`, for this reason.
    InvalidHeight(IntErrorKind),
    /// The maximum-value line is not UTF-8 text.
    ReadMaxValue,
    /// The maximum-value line is not a `u32`, for this reason.
    InvalidMaxValue(IntErrorKind),
    /// The maximum value is not 255.
    UnsupportedMaxValue(u32),
    /// `width * height` does not fit in `u32`; multiplying the two as `u32`
    /// would overflow.
    DimensionsOverflow,
    /// Fewer than `width * height` bytes follow the header.
    ReadPixelData,
}

pub open spec fn is_ascii_ws(b: u8) -> bool {
    (0x09 <= b <= 0x0d) || b == 0x20
}

/// Byte length of the Unicode whitespace character (White_Space property)
/// whose UTF-8 encoding starts `s`, or 0 when `s` does not start with one.
pub open spec fn ws_len(s: Seq<u8>) -> int {
    if s.len() >= 1 && is_ascii_ws(s[0]) {
        1
    } else if s.len() >= 2 && s[0] == 0xc2 && (s[1] == 0x85 || s[1] == 0xa0) {
        2
    } else if s.len() >= 3 && ((s[0] == 0xe1 && s[1] == 0x9a && s[2] == 0x80) || (s[0] == 0xe2
        && s[1] == 0x80 && ((0x80 <= s[2] <= 0x8a) || s[2] == 0xa8 || s[2] == 0xa9 || s[2]
        == 0xaf)) || (s[0] == 0xe2 && s[1] == 0x81 && s[2] == 0x9f) || (s[0] == 0xe3 && s[1]
        == 0x80 && s[2] == 0x80)) {
        3
    } else {
        0
    }
}

/// Byte length of the Unicode whitespace character whose UTF-8 encoding
/// ends `s`, or 0 when `s` does not end with one.
pub open spec fn ws_len_end(s: Seq<u8>) -> int {
    let n = s.len() as int;
    if n >= 1 && is_ascii_ws(s[n - 1]) {
        1
    } else if n >= 2 && s[n - 2] == 0xc2 && (s[n - 1] == 0x85 || s[n - 1] == 0xa0) {
        2
    } else if n >= 3 && ((s[n - 3] == 0xe1 && s[n - 2] == 0x9a && s[n - 1] == 0x80) || (s[n
        - 3] == 0xe2 && s[n - 2] == 0x80 && ((0x80 <= s[n - 1] <= 0x8a) || s[n - 1] == 0xa8
        || s[n - 1] == 0xa9 || s[n - 1] == 0xaf)) || (s[n - 3] == 0xe2 && s[n - 2] == 0x81
        && s[n - 1] == 0x9f) || (s[n - 3] == 0xe3 && s[n - 2] == 0x80 && s[n - 1] == 0x80)) {
        3
    } else {
        0
    }
}

/// `s` without its leading whitespace (`str::trim_start`).
pub open spec fn trim_start(s: Seq<u8>) -> Seq<u8>
    decreases s.len(),
{
    if ws_len(s) > 0 {
        trim_start(s.skip(ws_len(s)))
    } else {
        s
    }
}

/// `s` without its trailing whitespace (`str::trim_end`).
pub open spec fn trim_end(s: Seq<u8>) -> Seq<u8>
    decreases s.len(),
{
    if ws_len_end(s) > 0 {
        trim_end(s.take(s.len() - ws_len_end(s)))
    } else {
        s
    }
}

/// `s` without leading and trailing whitespace (`str::trim`).
pub open spec fn trim(s: Seq<u8>) -> Seq<u8> {
    trim_end(trim_start(s))
}

/// Number of bytes before the first whitespace character of `s`.
pub open spec fn token_len(s: Seq<u8>) -> int
    decreases s.len(),
{
    if s.len() == 0 || ws_len(s) > 0 {
        0
    } else {
        1 + token_len(s.skip(1))
    }
}

/// Trimming leading whitespace keeps a suffix of the input that, when not
/// empty, starts with a non-whitespace character.
pub proof fn lemma_trim_start_suffix(s: Seq<u8>)
    ensures
        trim_start(s).len() <= s.len(),
        trim_start(s) == s.skip(s.len() - trim_start(s).len()),
        trim_start(s).len() > 0 ==> ws_len(trim_start(s)) == 0,
    decreases s.len(),
{
    if ws_len(s) > 0 {
        let k = ws_len(s);
        lemma_trim_start_suffix(s.skip(k));
        let t = trim_start(s.skip(k));
        assert(s.skip(k).skip(s.skip(k).len() - t.len()) =~= s.skip(s.len() - t.len()));
    } else {
        assert(s.skip(0) =~= s);
    }
}

/// A word is no longer than the input, and at least one byte long when the
/// input starts with a non-whitespace byte.
pub proof fn lemma_token_len(s: Seq<u8>)
    ensures
        0 <= token_len(s) <= s.len(),
        s.len() > 0 && ws_len(s) == 0 ==> token_len(s) >= 1,
    decreases s.len(),
{
    if s.len() > 0 && ws_len(s) == 0 {
        lemma_token_len(s.skip(1));
    }
}

/// The words of `s`, split at runs of whitespace (`str::split_whitespace`).
pub open spec fn split_ws(s: Seq<u8>) -> Seq<Seq<u8>>
    decreases s.len(),
{
    let t = trim_start(s);
    if t.len() == 0 {
        seq![]
    } else {
        proof {
            lemma_trim_start_suffix(s);
            lemma_token_len(t);
        }
        seq![t.take(token_len(t))] + split_ws(t.skip(token_len(t)))
    }
}

pub open spec fn is_digit(b: u8) -> bool {
    0x30 <= b <= 0x39
}

pub open spec fn all_digits(d: Seq<u8>) -> bool {
    forall|i: int| 0 <= i < d.len() ==> is_digit(#[trigger] d[i])
}

/// Value of a string of decimal digits.
pub open spec fn digits_value(d: Seq<u8>) -> int
    decreases d.len(),
{
    if d.len() == 0 {
        0
    } else {
        digits_value(d.drop_last()) * 10 + (d.last() - 0x30)
    }
}

/// The digits of `t` once an optional leading `+` is removed.
pub open spec fn unsigned_digits(t: Seq<u8>) -> Seq<u8> {
    if t.len() > 1 && t[0] == 0x2b {
        t.skip(1)
    } else {
        t
    }
}

/// `u32::from_str`: an optional `+` then at least one decimal digit, with a
/// value that fits in `u32`.
pub open spec fn spec_parse_u32(t: Seq<u8>) -> Option<u32> {
    let d = unsigned_digits(t);
    if d.len() > 0 && all_digits(d) && digits_value(d) <= 0xffff_ffff {
        Some(digits_value(d) as u32)
    } else {
        None
    }
}

/// The first error of reading the digits `d` from position `i` on, digit by
/// digit from the left, when the value of `d.take(i)` was read without one:
/// a byte that is not a digit, or a digit that takes the value past
/// `u32::MAX`. `None` when the rest reads without error.
pub open spec fn scan_error_at(d: Seq<u8>, i: int) -> Option<IntErrorKind>
    decreases d.len() - i,
{
    if i < 0 || i >= d.len() {
        None
    } else if !is_digit(d[i]) {
        Some(IntErrorKind::InvalidDigit)
    } else if digits_value(d.take(i + 1)) > 0xffff_ffff {
        Some(IntErrorKind::PosOverflow)
    } else {
        scan_error_at(d, i + 1)
    }
}

/// Why `u32::from_str` rejects `t`: empty text, or the first error of its
/// left-to-right digit scan after an optional `+`.
pub open spec fn spec_int_error(t: Seq<u8>) -> Option<IntErrorKind> {
    if t.len() == 0 {
        Some(IntErrorKind::Empty)
    } else {
        scan_error_at(unsigned_digits(t), 0)
    }
}

/// `u32::from_str` on the bytes of `t`: the value, or why there is none.
pub open spec fn spec_parse_u32_result(t: Seq<u8>) -> Result<u32, IntErrorKind> {
    match spec_parse_u32(t) {
        Some(v) => Ok(v),
        None => match spec_int_error(t) {
            Some(k) => Err(k),
            None => Err(IntErrorKind::InvalidDigit),
        },
    }
}

/// Length of the line starting at `pos` (`BufRead::read_line`): up to and
/// including the next `\n`, or to the end of the input.
pub open spec fn line_len(data: Seq<u8>, pos: int) -> int
    decreases data.len() - pos,
{
    if pos < 0 || pos >= data.len() {
        0
    } else if data[pos] == 0x0a {
        1
    } else {
        1 + line_len(data, pos + 1)
    }
}

/// The line of `data` that starts at `pos`, with its `\n` if it has one.
pub open spec fn line_at(data: Seq<u8>, pos: int) -> Seq<u8> {
    data.subrange(pos, pos + line_len(data, pos))
}

/// A line starting inside the input ends inside it and is at least one byte
/// long.
pub proof fn lemma_line_len(data: Seq<u8>, pos: int)
    requires
        0 <= pos,
    ensures
        0 <= line_len(data, pos),
        pos + line_len(data, pos) <= data.len() || pos >= data.len(),
        pos < data.len() ==> line_len(data, pos) >= 1,
    decreases data.len() - pos,
{
    if pos < data.len() && data[pos] != 0x0a {
        lemma_line_len(data, pos + 1);
    }
}

/// The dimensions line at or after `pos`, with the position after it.
pub open spec fn spec_read_dimensions(data: Seq<u8>, pos: int) -> Result<(u32, u32, int), PpmError>
    decreases data.len() - pos,
{
    if pos < 0 || pos >= data.len() {
        Err(PpmError::MissingDimensions)
    } else {
        let line = line_at(data, pos);
        let next = pos + line_len(data, pos);
        if !valid_utf8(line) {
            Err(PpmError::ReadDimensions)
        } else {
            let t = trim(line);
            proof {
                lemma_line_len(data, pos);
            }
            if t.len() > 0 && t[0] == 0x23 {
                spec_read_dimensions(data, next)
            } else {
                let parts = split_ws(t);
                if parts.len() == 2 {
                    match spec_parse_u32_result(parts[0]) {
                        Err(k) => Err(PpmError::InvalidWidth(k)),
                        Ok(w) => match spec_parse_u32_result(parts[1]) {
                            Err(k) => Err(PpmError::InvalidHeight(k)),
                            Ok(h) => Ok((w, h, next)),
                        },
                    }
                } else {
                    spec_read_dimensions(data, next)
                }
            }
        }
    }
}

/// The magic line starts with `P5`.
pub open spec fn is_p5(t: Seq<u8>) -> bool {
    t.len() >= 2 && t[0] == 0x50 && t[1] == 0x35
}

/// What reading `data` as a P5 image gives: the pixels, the width and the height.
pub open spec fn spec_parse_ppm(data: Seq<u8>) -> Result<(Seq<u8>, u32, u32), PpmError> {
    let magic = line_at(data, 0);
    if !valid_utf8(magic) {
        Err(PpmError::ReadMagic)
    } else if !is_p5(trim(magic)) {
        Err(PpmError::UnsupportedFormat)
    } else {
        match spec_read_dimensions(data, line_len(data, 0)) {
            Err(e) => Err(e),
            Ok((w, h, p2)) => {
                let max_line = line_at(data, p2);
                let p3 = p2 + line_len(data, p2);
                if !valid_utf8(max_line) {
                    Err(PpmError::ReadMaxValue)
                } else {
                    match spec_parse_u32_result(trim(max_line)) {
                        Err(k) => Err(PpmError::InvalidMaxValue(k)),
                        Ok(v) => if v != 255 {
                            Err(PpmError::UnsupportedMaxValue(v))
                        } else if w * h > 0xffff_ffff {
                            Err(PpmError::DimensionsOverflow)
                        } else if data.len() - p3 < w * h {
                            Err(PpmError::ReadPixelData)
                        } else {
                            Ok((data.subrange(p3, p3 + w * h), w, h))
                        },
                    }
                }
            },
        }
    }
}

/// Whether `bytes` are valid UTF-8 (what `std::str::from_utf8` accepts): a
/// sequence of well-formed encodings of Unicode scalars, with no overlong
/// encodings, no surrogates and nothing above U+10FFFF.
pub fn is_utf8(bytes: &[u8]) -> (r: bool)
    ensures
        r == valid_utf8(bytes@),
{
    let n = bytes.len();
    let mut i: usize = 0;
    assert(bytes@.subrange(0, n as int) =~= bytes@);
    while i < n
        invariant
            0 <= i <= n,
            n == bytes.len(),
            valid_utf8(bytes@) == valid_utf8(bytes@.subrange(i as int, n as int)),
        decreases n - i,
    {
        let ghost rest = bytes@.subrange(i as int, n as int);
        let b0 = bytes[i];
        assert(rest[0] == b0);
        let width: usize;
        let cp: u32;
        if b0 <= 0x7f {
            width = 1;
            cp = (b0 & 0x7f) as u32;
            assert(cp <= 0x7f) by (bit_vector)
                requires
                    cp == (b0 & 0x7f) as u32,
            ;
        } else if 0xc0 <= b0 && b0 <= 0xdf {
            if n - i <= 1 || bytes[i + 1] < 0x80 || bytes[i + 1] > 0xbf {
                return false;
            }
            let b1 = bytes[i + 1];
            assert(rest[1] == b1);
            width = 2;
            cp = (((b0 & 0x1f) as u32) << 6u32) | ((b1 & 0x3f) as u32);
            assert(cp == vstd::utf8::codepoint_width_2(b0, b1)) by (bit_vector)
                requires
                    cp == (((b0 & 0x1f) as u32) << 6u32) | ((b1 & 0x3f) as u32),
            ;
            assert(cp <= 0x7ff) by (bit_vector)
                requires
                    cp == (((b0 & 0x1f) as u32) << 6u32) | ((b1 & 0x3f) as u32),
            ;
            if cp < 0x80 {
                return false;
            }
        } else if 0xe0 <= b0 && b0 <= 0xef {
            if n - i <= 2 || bytes[i + 1] < 0x80 || bytes[i + 1] > 0xbf || bytes[i + 2] < 0x80
                || bytes[i + 2] > 0xbf {
                return false;
            }
            let b1 = bytes[i + 1];
            let b2 = bytes[i + 2];
            assert(rest[1] == b1 && rest[2] == b2);
            width = 3;
            cp = (((b0 & 0x0f) as u32) << 12u32) | (((b1 & 0x3f) as u32) << 6u32) | ((b2
                & 0x3f) as u32);
            assert(cp == vstd::utf8::codepoint_width_3(b0, b1, b2)) by (bit_vector)
                requires
                    cp == (((b0 & 0x0f) as u32) << 12u32) | (((b1 & 0x3f) as u32) << 6u32) | ((b2
                        & 0x3f) as u32),
            ;
            if cp < 0x800 || (0xd800 <= cp && cp <= 0xdfff) {
                return false;
            }
        } else if 0xf0 <= b0 && b0 <= 0xf7 {
            if n - i <= 3 || bytes[i + 1] < 0x80 || bytes[i + 1] > 0xbf || bytes[i + 2] < 0x80
                || bytes[i + 2] > 0xbf || bytes[i + 3] < 0x80 || bytes[i + 3] > 0xbf {
                return false;
            }
            let b1 = bytes[i + 1];
            let b2 = bytes[i + 2];
            let b3 = bytes[i + 3];
            assert(rest[1] == b1 && rest[2] == b2 && rest[3] == b3);
            width = 4;
            cp = (((b0 & 0x07) as u32) << 18u32) | (((b1 & 0x3f) as u32) << 12u32) | (((b2
                & 0x3f) as u32) << 6u32) | ((b3 & 0x3f) as u32);
            assert(cp == vstd::utf8::codepoint_width_4(b0, b1, b2, b3)) by (bit_vector)
                requires
                    cp == (((b0 & 0x07) as u32) << 18u32) | (((b1 & 0x3f) as u32) << 12u32) | (((b2
                        & 0x3f) as u32) << 6u32) | ((b3 & 0x3f) as u32),
            ;
            if cp < 0x10000 || cp > 0x10ffff {
                return false;
            }
        } else {
            return false;
        }
        assert(vstd::utf8::valid_first_scalar(rest));
        assert(vstd::utf8::length_of_first_scalar(rest) == width);
        assert(vstd::utf8::pop_first_scalar(rest) =~= bytes@.subrange(
            (i + width) as int,
            n as int,
        ));
        i = i + width;
    }
    assert(bytes@.subrange(n as int, n as int) =~= Seq::<u8>::empty());
    true
}

/// Byte length of the whitespace character that starts `s`, or 0.
pub fn whitespace_len(s: &[u8]) -> (r: usize)
    ensures
        r == ws_len(s@),
{
    let n = s.len();
    if n >= 1 && ((0x09 <= s[0] && s[0] <= 0x0d) || s[0] == 0x20) {
        1
    } else if n >= 2 && s[0] == 0xc2 && (s[1] == 0x85 || s[1] == 0xa0) {
        2
    } else if n >= 3 && ((s[0] == 0xe1 && s[1] == 0x9a && s[2] == 0x80) || (s[0] == 0xe2 && s[1]
        == 0x80 && ((0x80 <= s[2] && s[2] <= 0x8a) || s[2] == 0xa8 || s[2] == 0xa9 || s[2]
        == 0xaf)) || (s[0] == 0xe2 && s[1] == 0x81 && s[2] == 0x9f) || (s[0] == 0xe3 && s[1]
        == 0x80 && s[2] == 0x80)) {
        3
    } else {
        0
    }
}

/// Byte length of the whitespace character that ends `s`, or 0.
pub fn whitespace_len_end(s: &[u8]) -> (r: usize)
    ensures
        r == ws_len_end(s@),
{
    let n = s.len();
    if n >= 1 && ((0x09 <= s[n - 1] && s[n - 1] <= 0x0d) || s[n - 1] == 0x20) {
        1
    } else if n >= 2 && s[n - 2] == 0xc2 && (s[n - 1] == 0x85 || s[n - 1] == 0xa0) {
        2
    } else if n >= 3 && ((s[n - 3] == 0xe1 && s[n - 2] == 0x9a && s[n - 1] == 0x80) || (s[n
        - 3] == 0xe2 && s[n - 2] == 0x80 && ((0x80 <= s[n - 1] && s[n - 1] <= 0x8a) || s[n
        - 1] == 0xa8 || s[n - 1] == 0xa9 || s[n - 1] == 0xaf)) || (s[n - 3] == 0xe2 && s[n
        - 2] == 0x81 && s[n - 1] == 0x9f) || (s[n - 3] == 0xe3 && s[n - 2] == 0x80 && s[n
        - 1] == 0x80)) {
        3
    } else {
        0
    }
}

/// `s` without leading whitespace.
pub fn trim_start_slice(s: &[u8]) -> (r: &[u8])
    ensures
        r@ == trim_start(s@),
{
    let mut t: &[u8] = s;
    loop
        invariant
            trim_start(t@) == trim_start(s@),
        decreases t.len(),
    {
        let k = whitespace_len(t);
        if k == 0 {
            return t;
        }
        let ghost before = t@;
        t = slice_subrange(t, k, t.len());
        assert(t@ =~= before.skip(k as int));
    }
}

/// `s` without leading and trailing whitespace (`str::trim`).
pub fn trim_slice(s: &[u8]) -> (r: &[u8])
    ensures
        r@ == trim(s@),
{
    let t = trim_start_slice(s);
    let mut u: &[u8] = t;
    loop
        invariant
            t@ == trim_start(s@),
            trim_end(u@) == trim_end(t@),
        decreases u.len(),
    {
        let k = whitespace_len_end(u);
        if k == 0 {
            assert(trim_end(u@) == u@);
            return u;
        }
        let ghost before = u@;
        u = slice_subrange(u, 0, u.len() - k);
        assert(u@ =~= before.take(before.len() - k));
    }
}

/// Number of bytes before the first whitespace character of `s`.
pub fn word_len(s: &[u8]) -> (r: usize)
    ensures
        r == token_len(s@),
        r <= s.len(),
{
    let mut i: usize = 0;
    assert(s@.skip(0) =~= s@);
    while i < s.len()
        invariant
            0 <= i <= s.len(),
            token_len(s@) == i + token_len(s@.skip(i as int)),
        decreases s.len() - i,
    {
        let rest = slice_subrange(s, i, s.len());
        assert(rest@ =~= s@.skip(i as int));
        if whitespace_len(rest) > 0 {
            return i;
        }
        assert(s@.skip(i as int).skip(1) =~= s@.skip(i + 1));
        i = i + 1;
    }
    i
}

/// The words of `s` (`str::split_whitespace`).
pub fn split_whitespace(s: &[u8]) -> (r: Vec<&[u8]>)
    ensures
        r.len() == split_ws(s@).len(),
        forall|i: int| 0 <= i < r.len() ==> #[trigger] r[i]@ == split_ws(s@)[i],
{
    let mut parts: Vec<&[u8]> = Vec::new();
    let mut rest: &[u8] = s;
    loop
        invariant
            split_ws(s@) == parts@.map_values(|p: &[u8]| p@) + split_ws(rest@),
        decreases rest.len(),
    {
        let ghost prev_parts = parts@;
        let ghost prev_rest = rest@;
        let t = trim_start_slice(rest);
        proof {
            lemma_trim_start_suffix(rest@);
        }
        if t.len() == 0 {
            assert(split_ws(rest@) =~= Seq::<Seq<u8>>::empty());
            assert(split_ws(s@) =~= parts@.map_values(|p: &[u8]| p@));
            assert forall|i: int| 0 <= i < parts.len() implies #[trigger] parts[i]@ == split_ws(
                s@,
            )[i] by {
                assert(parts@.map_values(|p: &[u8]| p@)[i] == parts@[i]@);
            }
            return parts;
        }
        proof {
            lemma_token_len(t@);
        }
        let n = word_len(t);
        let word = slice_subrange(t, 0, n);
        rest = slice_subrange(t, n, t.len());
        parts.push(word);
        proof {
            assert(word@ =~= t@.take(n as int));
            assert(rest@ =~= t@.skip(n as int));
            assert(split_ws(prev_rest) == seq![t@.take(n as int)] + split_ws(rest@));
            assert(parts@.map_values(|p: &[u8]| p@) =~= prev_parts.map_values(|p: &[u8]| p@).push(
                word@,
            ));
            assert(split_ws(s@) =~= parts@.map_values(|p: &[u8]| p@) + split_ws(rest@));
        }
    }
}

/// The value of a string of digits is at least that of each of its prefixes.
proof fn lemma_prefix_value_le(d: Seq<u8>, k: int)
    requires
        0 <= k <= d.len(),
        all_digits(d),
    ensures
        0 <= digits_value(d.take(k)) <= digits_value(d),
    decreases d.len() - k,
{
    if k == d.len() {
        assert(d.take(k) =~= d);
        lemma_digits_value_nonneg(d);
    } else {
        lemma_prefix_value_le(d, k + 1);
        let p = d.take(k + 1);
        assert(p.drop_last() =~= d.take(k));
        assert(is_digit(d[k]));
        assert(all_digits(d.take(k))) by {
            assert forall|i: int| 0 <= i < d.take(k).len() implies is_digit(#[trigger] d.take(k)[i]) by {
                assert(d.take(k)[i] == d[i]);
            }
        }
        lemma_digits_value_nonneg(d.take(k));
    }
}

proof fn lemma_digits_value_nonneg(d: Seq<u8>)
    requires
        all_digits(d),
    ensures
        digits_value(d) >= 0,
    decreases d.len(),
{
    if d.len() > 0 {
        assert(all_digits(d.drop_last())) by {
            assert forall|i: int| 0 <= i < d.drop_last().len() implies is_digit(
                #[trigger] d.drop_last()[i],
            ) by {
                assert(d.drop_last()[i] == d[i]);
            }
        }
        assert(is_digit(d.last()));
        lemma_digits_value_nonneg(d.drop_last());
    }
}

proof fn lemma_scan_error_at(d: Seq<u8>, i: int)
    requires
        0 <= i <= d.len(),
        all_digits(d.take(i)),
        digits_value(d.take(i)) <= 0xffff_ffff,
    ensures
        scan_error_at(d, i) is None <==> (all_digits(d) && digits_value(d) <= 0xffff_ffff),
    decreases d.len() - i,
{
    if i == d.len() {
        assert(d.take(i) =~= d);
    } else {
        let p = d.take(i + 1);
        assert(p.drop_last() =~= d.take(i));
        if !is_digit(d[i]) {
            assert(!all_digits(d));
        } else {
            assert(all_digits(p)) by {
                assert forall|k: int| 0 <= k < p.len() implies is_digit(#[trigger] p[k]) by {
                    if k < i {
                        assert(p[k] == d.take(i)[k]);
                    }
                }
            }
            if digits_value(p) > 0xffff_ffff {
                if all_digits(d) {
                    lemma_prefix_value_le(d, i + 1);
                }
            } else {
                lemma_scan_error_at(d, i + 1);
            }
        }
    }
}

/// `u32::from_str` gives a reason exactly when it gives no value.
pub proof fn lemma_parse_error_reason(t: Seq<u8>)
    ensures
        spec_parse_u32(t) is None <==> spec_int_error(t) is Some,
{
    let d = unsigned_digits(t);
    if t.len() > 0 {
        assert(d.take(0) =~= Seq::<u8>::empty());
        lemma_scan_error_at(d, 0);
    }
}

/// `u32::from_str` on the bytes of `t`: the value, or why there is none.
/// Digits are read from the left; the first byte that is not a digit, or
/// the first digit that takes the value past `u32::MAX`, decides the error.
pub fn parse_u32(t: &[u8]) -> (r: Result<u32, IntErrorKind>)
    ensures
        r == spec_parse_u32_result(t@),
{
    if t.len() == 0 {
        return Err(IntErrorKind::Empty);
    }
    let d: &[u8] = if t.len() > 1 && t[0] == 0x2b {
        slice_subrange(t, 1, t.len())
    } else {
        t
    };
    assert(d@ =~= unsigned_digits(t@));
    if d.len() == 0 {
        return Err(IntErrorKind::InvalidDigit);
    }
    let mut value: u32 = 0;
    let mut i: usize = 0;
    assert(d@.take(0) =~= Seq::<u8>::empty());
    while i < d.len()
        invariant
            0 <= i <= d.len(),
            t@.len() > 0,
            d@ == unsigned_digits(t@),
            all_digits(d@.take(i as int)),
            value == digits_value(d@.take(i as int)),
            scan_error_at(d@, 0) == scan_error_at(d@, i as int),
        decreases d.len() - i,
    {
        let b = d[i];
        if b < 0x30 || b > 0x39 {
            assert(!all_digits(d@));
            return Err(IntErrorKind::InvalidDigit);
        }
        proof {
            let p = d@.take(i + 1);
            assert(p.drop_last() =~= d@.take(i as int));
            assert(p.last() == b);
            assert(all_digits(p)) by {
                assert forall|k: int| 0 <= k < p.len() implies is_digit(#[trigger] p[k]) by {
                    if k < i {
                        assert(p[k] == d@.take(i as int)[k]);
                    }
                }
            }
        }
        let next: u64 = value as u64 * 10 + (b - 0x30) as u64;
        if next > 0xffff_ffff {
            proof {
                if all_digits(d@) {
                    lemma_prefix_value_le(d@, i + 1);
                }
            }
            return Err(IntErrorKind::PosOverflow);
        }
        value = next as u32;
        i = i + 1;
    }
    assert(d@.take(d.len() as int) =~= d@);
    Ok(value)
}

/// Length of the line starting at `pos`, including its `\n`.
pub fn line_length(data: &[u8], pos: usize) -> (r: usize)
    requires
        pos <= data.len(),
    ensures
        r == line_len(data@, pos as int),
        pos + r <= data.len(),
{
    let mut i: usize = pos;
    while i < data.len()
        invariant
            pos <= i <= data.len(),
            line_len(data@, pos as int) == (i - pos) + line_len(data@, i as int),
        decreases data.len() - i,
    {
        if data[i] == 0x0a {
            return i + 1 - pos;
        }
        i = i + 1;
    }
    i - pos
}

/// Finds the dimensions line at or after `pos`: skips comment lines (first
/// non-blank character `#`) and lines that do not hold exactly two words,
/// then reads width and height. Returns them with the position after that
/// line. When the input ends before such a line, the answer is
/// `MissingDimensions`: a line-by-line reader that skips lines until it finds
/// the dimensions would keep reading empty lines at the end of the input
/// and never return, and this function terminates instead.
pub fn read_dimensions(data: &[u8], pos: usize) -> (r: Result<(u32, u32, usize), PpmError>)
    ensures
        match r {
            Ok((w, h, next)) => spec_read_dimensions(data@, pos as int) == Ok::<
                (u32, u32, int),
                PpmError,
            >((w, h, next as int)),
            Err(e) => spec_read_dimensions(data@, pos as int) == Err::<(u32, u32, int), PpmError>(
                e,
            ),
        },
{
    let mut p: usize = pos;
    loop
        invariant
            spec_read_dimensions(data@, p as int) == spec_read_dimensions(data@, pos as int),
        decreases data.len() - p,
    {
        if p >= data.len() {
            return Err(PpmError::MissingDimensions);
        }
        let n = line_length(data, p);
        proof {
            lemma_line_len(data@, p as int);
        }
        let line = slice_subrange(data, p, p + n);
        assert(line@ =~= line_at(data@, p as int));
        if !is_utf8(line) {
            return Err(PpmError::ReadDimensions);
        }
        let t = trim_slice(line);
        if t.len() > 0 && t[0] == 0x23 {
            p = p + n;
        } else {
            let parts = split_whitespace(t);
            if parts.len() == 2 {
                let w = parse_u32(parts[0]);
                match w {
                    Err(k) => {
                        return Err(PpmError::InvalidWidth(k));
                    },
                    Ok(w) => {
                        let h = parse_u32(parts[1]);
                        match h {
                            Err(k) => {
                                return Err(PpmError::InvalidHeight(k));
                            },
                            Ok(h) => {
                                return Ok((w, h, p + n));
                            },
                        }
                    },
                }
            } else {
                p = p + n;
            }
        }
    }
}

/// Reads a binary grayscale PPM (P5) image with maximum value 255 from
/// `data`: the pixels row by row, the width and the height.
pub fn parse_ppm(data: &[u8]) -> (r: Result<(Vec<u8>, u32, u32), PpmError>)
    ensures
        match r {
            Ok((pixels, w, h)) => spec_parse_ppm(data@) == Ok::<(Seq<u8>, u32, u32), PpmError>(
                (pixels@, w, h),
            ),
            Err(e) => spec_parse_ppm(data@) == Err::<(Seq<u8>, u32, u32), PpmError>(e),
        },
{
    let n0 = line_length(data, 0);
    let magic = slice_subrange(data, 0, n0);
    assert(magic@ =~= line_at(data@, 0));
    if !is_utf8(magic) {
        return Err(PpmError::ReadMagic);
    }
    let m = trim_slice(magic);
    if !(m.len() >= 2 && m[0] == 0x50 && m[1] == 0x35) {
        return Err(PpmError::UnsupportedFormat);
    }
    let dims = read_dimensions(data, n0);
    let (width, height, p2) = match dims {
        Err(e) => {
            return Err(e);
        },
        Ok(d) => d,
    };
    proof {
        reveal_with_fuel(spec_read_dimensions, 1);
    }
    assert(p2 <= data.len()) by {
        lemma_read_dimensions_position(data@, n0 as int);
    }
    let n2 = line_length(data, p2);
    let max_line = slice_subrange(data, p2, p2 + n2);
    assert(max_line@ =~= line_at(data@, p2 as int));
    if !is_utf8(max_line) {
        return Err(PpmError::ReadMaxValue);
    }
    let max_val = parse_u32(trim_slice(max_line));
    let max_val = match max_val {
        Err(k) => {
            return Err(PpmError::InvalidMaxValue(k));
        },
        Ok(v) => v,
    };
    if max_val != 255 {
        return Err(PpmError::UnsupportedMaxValue(max_val));
    }
    let w64: u64 = width as u64;
    let h64: u64 = height as u64;
    assert(w64 * h64 <= 0xffff_ffff_ffff_ffff) by (nonlinear_arith)
        requires
            w64 <= 0xffff_ffff,
            h64 <= 0xffff_ffff,
    ;
    let count: u64 = w64 * h64;
    if count > 0xffff_ffff {
        return Err(PpmError::DimensionsOverflow);
    }
    let p3 = p2 + n2;
    if ((data.len() - p3) as u64) < count {
        return Err(PpmError::ReadPixelData);
    }
    let pixels = vstd::slice::slice_to_vec(slice_subrange(data, p3, p3 + count as usize));
    Ok((pixels, width, height))
}

/// A successful dimensions read ends inside the input.
pub proof fn lemma_read_dimensions_position(data: Seq<u8>, pos: int)
    ensures
        spec_read_dimensions(data, pos) matches Ok((_, _, next)) ==> pos < next <= data.len(),
    decreases data.len() - pos,
{
    if 0 <= pos < data.len() {
        lemma_line_len(data, pos);
        lemma_read_dimensions_position(data, pos + line_len(data, pos));
    }
}

/// Decimal digits of `n`, most significant first, without leading zeros.
pub open spec fn decimal(n: nat) -> Seq<u8>
    decreases n,
{
    if n < 10 {
        seq![(0x30 + n) as u8]
    } else {
        decimal(n / 10).push((0x30 + n % 10) as u8)
    }
}

/// The bytes of a P5 image: header lines `P5`, `width height` and `255`,
/// each ending in `\n`, then the pixels.
pub open spec fn spec_encode_ppm(width: u32, height: u32, pixels: Seq<u8>) -> Seq<u8> {
    seq![0x50u8, 0x35u8, 0x0au8] + decimal(width as nat) + seq![0x20u8] + decimal(height as nat)
        + seq![0x0au8] + seq![0x32u8, 0x35u8, 0x35u8, 0x0au8] + pixels
}

/// Appends the decimal digits of `n` to `out`.
pub fn push_decimal(out: &mut Vec<u8>, n: u32)
    ensures
        final(out)@ == old(out)@ + decimal(n as nat),
    decreases n,
{
    if n >= 10 {
        push_decimal(out, n / 10);
    }
    let digit: u8 = (n % 10) as u8;
    out.push(0x30 + digit);
    proof {
        if n >= 10 {
            assert(decimal(n as nat) == decimal((n / 10) as nat).push((0x30 + n % 10) as u8));
        }
    }
    assert(out@ =~= old(out)@ + decimal(n as nat));
}

/// The bytes of a P5 image of `width` x `height` pixels: the header lines
/// `P5`, `width height` and `255`, then `pixels`.
pub fn encode_ppm(width: u32, height: u32, pixels: &[u8]) -> (r: Vec<u8>)
    ensures
        r@ == spec_encode_ppm(width, height, pixels@),
{
    let mut out: Vec<u8> = Vec::new();
    out.push(0x50);
    out.push(0x35);
    out.push(0x0a);
    push_decimal(&mut out, width);
    out.push(0x20);
    push_decimal(&mut out, height);
    out.push(0x0a);
    out.push(0x32);
    out.push(0x35);
    out.push(0x35);
    out.push(0x0a);
    let ghost header = out@;
    let mut i: usize = 0;
    while i < pixels.len()
        invariant
            0 <= i <= pixels.len(),
            out@ == header + pixels@.take(i as int),
        decreases pixels.len() - i,
    {
        out.push(pixels[i]);
        assert(pixels@.take(i + 1) =~= pixels@.take(i as int).push(pixels[i as int]));
        i = i + 1;
    }
    assert(pixels@.take(pixels.len() as int) =~= pixels@);
    assert(out@ =~= spec_encode_ppm(width, height, pixels@));
    out
}

pub open spec fn all_ascii(s: Seq<u8>) -> bool {
    forall|i: int| 0 <= i < s.len() ==> #[trigger] s[i] < 0x80
}

/// ASCII bytes are valid UTF-8.
pub proof fn lemma_ascii_utf8(s: Seq<u8>)
    requires
        all_ascii(s),
    ensures
        valid_utf8(s),
    decreases s.len(),
{
    if s.len() > 0 {
        let b = s[0];
        assert(b & 0x7f <= 0x7f) by (bit_vector);
        let rest = s.subrange(1, s.len() as int);
        assert(vstd::utf8::pop_first_scalar(s) =~= rest);
        lemma_ascii_utf8(rest);
    }
}

/// In ASCII text only the ASCII whitespace bytes count as whitespace.
pub proof fn lemma_ascii_ws(s: Seq<u8>)
    requires
        all_ascii(s),
    ensures
        ws_len(s) == (if s.len() >= 1 && is_ascii_ws(s[0]) { 1int } else { 0int }),
        ws_len_end(s) == (if s.len() >= 1 && is_ascii_ws(s[s.len() - 1]) { 1int } else { 0int }),
{
    if s.len() >= 2 {
        assert(s[1] < 0x80 && s[s.len() - 2] < 0x80);
    }
    if s.len() >= 3 {
        assert(s[s.len() - 3] < 0x80);
    }
    if s.len() >= 1 {
        assert(s[0] < 0x80 && s[s.len() - 1] < 0x80);
    }
}

/// `decimal(n)` is a non-empty string of digits of value `n`.
pub proof fn lemma_decimal(n: nat)
    ensures
        decimal(n).len() >= 1,
        all_digits(decimal(n)),
        digits_value(decimal(n)) == n,
    decreases n,
{
    if n >= 10 {
        lemma_decimal(n / 10);
        let d = decimal(n);
        assert(d.drop_last() =~= decimal(n / 10));
        assert(d.last() == (0x30 + n % 10) as u8);
        assert(((0x30 + n % 10) as u8) as int == 0x30 + n % 10);
        assert((n / 10) * 10 + n % 10 == n);
        assert(digits_value(d) == digits_value(decimal(n / 10)) * 10 + (n % 10));
        assert forall|i: int| 0 <= i < d.len() implies is_digit(#[trigger] d[i]) by {
            if i < d.len() - 1 {
                assert(d[i] == decimal(n / 10)[i]);
            }
        }
    } else {
        let d = decimal(n);
        assert(d.drop_last() =~= Seq::<u8>::empty());
        assert(((0x30 + n) as u8) as int == 0x30 + n);
        assert(d.last() == (0x30 + n) as u8);
        assert(digits_value(d) == digits_value(d.drop_last()) * 10 + (d.last() - 0x30));
    }
}

/// Reading back the decimal digits of `n` gives `n`.
pub proof fn lemma_parse_decimal(n: u32)
    ensures
        spec_parse_u32(decimal(n as nat)) == Some(n),
{
    lemma_decimal(n as nat);
    let d = decimal(n as nat);
    assert(is_digit(d[0]));
    assert(unsigned_digits(d) == d);
}

/// A line whose first `k` bytes are not `\n` and whose next byte is `\n`
/// is `k + 1` bytes long.
pub proof fn lemma_line_len_exact(data: Seq<u8>, pos: int, k: int)
    requires
        0 <= pos,
        0 <= k,
        pos + k < data.len(),
        forall|j: int| pos <= j < pos + k ==> #[trigger] data[j] != 0x0a,
        data[pos + k] == 0x0a,
    ensures
        line_len(data, pos) == k + 1,
    decreases k,
{
    if k > 0 {
        lemma_line_len_exact(data, pos + 1, k - 1);
    }
}

/// A word made of `d` (no whitespace in it) followed by nothing or by
/// whitespace is `d.len()` bytes long.
pub proof fn lemma_token_len_word(d: Seq<u8>, rest: Seq<u8>)
    requires
        all_digits(d),
        rest.len() == 0 || ws_len(rest) > 0,
    ensures
        token_len(d + rest) == d.len(),
    decreases d.len(),
{
    let s = d + rest;
    if d.len() == 0 {
        assert(s =~= rest);
    } else {
        assert(is_digit(d[0]));
        assert(s[0] == d[0]);
        assert(s.skip(1) =~= d.skip(1) + rest);
        assert(all_digits(d.skip(1))) by {
            assert forall|i: int| 0 <= i < d.skip(1).len() implies is_digit(#[trigger] d.skip(1)[i]) by {
                assert(d.skip(1)[i] == d[i + 1]);
            }
        }
        lemma_token_len_word(d.skip(1), rest);
    }
}

/// The words of `a b` for digit strings `a` and `b` are `a` and `b`.
pub proof fn lemma_split_two_numbers(a: Seq<u8>, b: Seq<u8>)
    requires
        a.len() >= 1,
        b.len() >= 1,
        all_digits(a),
        all_digits(b),
    ensures
        split_ws(a + seq![0x20u8] + b) == seq![a, b],
{
    let s = a + seq![0x20u8] + b;
    assert(is_digit(a[0]) && is_digit(b[0]));
    assert(s[0] == a[0]);
    assert(trim_start(s) == s);
    let sp = seq![0x20u8] + b;
    assert(s =~= a + sp);
    assert(ws_len(sp) == 1);
    lemma_token_len_word(a, sp);
    assert(s.take(a.len() as int) =~= a);
    let r1 = s.skip(a.len() as int);
    assert(r1 =~= sp);
    assert(sp.skip(1) =~= b);
    assert(trim_start(b) == b);
    assert(trim_start(r1) == b);
    lemma_token_len_word(b, Seq::<u8>::empty());
    assert(b + Seq::<u8>::empty() =~= b);
    assert(b.take(b.len() as int) =~= b);
    assert(b.skip(b.len() as int) =~= Seq::<u8>::empty());
    assert(trim_start(Seq::<u8>::empty()) =~= Seq::<u8>::empty());
    assert(split_ws(Seq::<u8>::empty()) =~= Seq::<Seq<u8>>::empty());
    assert(split_ws(r1) =~= seq![b]);
    assert(split_ws(s) =~= seq![a, b]);
}

/// An ASCII line `core` + `\n`, where `core` starts and ends with a
/// non-blank byte, trims to `core`.
pub proof fn lemma_trim_line(core: Seq<u8>)
    requires
        core.len() >= 1,
        all_ascii(core),
        !is_ascii_ws(core[0]),
        !is_ascii_ws(core.last()),
    ensures
        trim(core + seq![0x0au8]) == core,
{
    let s = core + seq![0x0au8];
    assert(all_ascii(s)) by {
        assert forall|i: int| 0 <= i < s.len() implies #[trigger] s[i] < 0x80 by {
            if i < core.len() {
                assert(s[i] == core[i]);
            }
        }
    }
    lemma_ascii_ws(s);
    assert(s[0] == core[0]);
    assert(trim_start(s) == s);
    assert(s[s.len() - 1] == 0x0a);
    assert(s.take(s.len() - 1) =~= core);
    lemma_ascii_ws(core);
    assert(trim_end(core) == core);
    assert(trim_end(s) == trim_end(core));
}

proof fn lemma_digits_ascii(d: Seq<u8>)
    requires
        all_digits(d),
    ensures
        all_ascii(d),
        forall|i: int| 0 <= i < d.len() ==> !is_ascii_ws(#[trigger] d[i]) && d[i] != 0x0a && d[i]
            != 0x23,
{
    assert forall|i: int| 0 <= i < d.len() implies #[trigger] d[i] < 0x80 by {
        assert(is_digit(d[i]));
    }
    assert forall|i: int| 0 <= i < d.len() implies !is_ascii_ws(#[trigger] d[i]) && d[i] != 0x0a
        && d[i] != 0x23 by {
        assert(is_digit(d[i]));
    }
}

/// The line of `data` at `pos` is `core` + `\n` when those bytes stand there
/// and `core` holds no `\n`.
pub proof fn lemma_line_at(data: Seq<u8>, pos: int, core: Seq<u8>)
    requires
        0 <= pos,
        pos + core.len() + 1 <= data.len(),
        data.subrange(pos, pos + core.len() + 1) == core + seq![0x0au8],
        forall|i: int| 0 <= i < core.len() ==> #[trigger] core[i] != 0x0a,
    ensures
        line_len(data, pos) == core.len() + 1,
        line_at(data, pos) == core + seq![0x0au8],
{
    let k = core.len() as int;
    assert forall|j: int| pos <= j < pos + k implies #[trigger] data[j] != 0x0a by {
        assert(data[j] == data.subrange(pos, pos + k + 1)[j - pos]);
        assert((core + seq![0x0au8])[j - pos] == core[j - pos]);
    }
    assert(data[pos + k] == data.subrange(pos, pos + k + 1)[k]);
    lemma_line_len_exact(data, pos, k);
}

/// An ASCII line `core` + `\n` is valid UTF-8.
proof fn lemma_ascii_line_utf8(core: Seq<u8>)
    requires
        all_ascii(core),
    ensures
        valid_utf8(core + seq![0x0au8]),
{
    let s = core + seq![0x0au8];
    assert forall|i: int| 0 <= i < s.len() implies #[trigger] s[i] < 0x80 by {
        if i < core.len() {
            assert(s[i] == core[i]);
        }
    }
    lemma_ascii_utf8(s);
}

/// `dw dh` for two digit strings: ASCII, no `\n`, starting and ending with a digit.
proof fn lemma_dims_core(dw: Seq<u8>, dh: Seq<u8>)
    requires
        dw.len() >= 1,
        dh.len() >= 1,
        all_digits(dw),
        all_digits(dh),
    ensures
        ({
            let b = dw + seq![0x20u8] + dh;
            &&& all_ascii(b)
            &&& forall|i: int| 0 <= i < b.len() ==> #[trigger] b[i] != 0x0a
            &&& !is_ascii_ws(b[0])
            &&& !is_ascii_ws(b.last())
            &&& b[0] != 0x23
        }),
{
    lemma_digits_ascii(dw);
    lemma_digits_ascii(dh);
    let b = dw + seq![0x20u8] + dh;
    assert forall|i: int| 0 <= i < b.len() implies #[trigger] b[i] < 0x80 && b[i] != 0x0a by {
        if i < dw.len() {
            assert(b[i] == dw[i]);
        } else if i > dw.len() {
            assert(b[i] == dh[i - dw.len() - 1]);
        }
    }
    assert(b[0] == dw[0]);
    assert(b.last() == dh[dh.len() - 1]);
}

/// A dimensions line `width height` at `pos` reads back as those dimensions.
proof fn lemma_read_encoded_dimensions(data: Seq<u8>, pos: int, width: u32, height: u32)
    requires
        0 <= pos,
        ({
            let b = decimal(width as nat) + seq![0x20u8] + decimal(height as nat);
            &&& pos + b.len() + 1 <= data.len()
            &&& data.subrange(pos, pos + b.len() + 1) == b + seq![0x0au8]
        }),
    ensures
        spec_read_dimensions(data, pos) == Ok::<(u32, u32, int), PpmError>(
            (
                width,
                height,
                pos + decimal(width as nat).len() + decimal(height as nat).len() + 2,
            ),
        ),
{
    let dw = decimal(width as nat);
    let dh = decimal(height as nat);
    lemma_decimal(width as nat);
    lemma_decimal(height as nat);
    lemma_parse_decimal(width);
    lemma_parse_decimal(height);
    let b = dw + seq![0x20u8] + dh;
    lemma_dims_core(dw, dh);
    lemma_line_at(data, pos, b);
    lemma_ascii_line_utf8(b);
    lemma_trim_line(b);
    lemma_split_two_numbers(dw, dh);
}

/// The line `255` at `pos` reads back as the maximum value 255.
proof fn lemma_read_encoded_max(data: Seq<u8>, pos: int)
    requires
        0 <= pos,
        pos + 4 <= data.len(),
        data.subrange(pos, pos + 4) == seq![0x32u8, 0x35u8, 0x35u8] + seq![0x0au8],
    ensures
        line_len(data, pos) == 4,
        valid_utf8(line_at(data, pos)),
        spec_parse_u32(trim(line_at(data, pos))) == Some(255u32),
{
    let c = seq![0x32u8, 0x35u8, 0x35u8];
    assert forall|i: int| 0 <= i < c.len() implies #[trigger] c[i] != 0x0a && c[i] < 0x80 by {}
    lemma_line_at(data, pos, c);
    lemma_ascii_line_utf8(c);
    lemma_trim_line(c);
    assert(c.drop_last() =~= seq![0x32u8, 0x35u8]);
    assert(c.drop_last().drop_last() =~= seq![0x32u8]);
    assert(c.drop_last().drop_last().drop_last() =~= Seq::<u8>::empty());
    assert(digits_value(Seq::<u8>::empty()) == 0);
    assert(digits_value(seq![0x32u8]) == 2) by {
        assert(seq![0x32u8].drop_last() =~= Seq::<u8>::empty());
        assert(seq![0x32u8].last() == 0x32u8);
    }
    assert(digits_value(seq![0x32u8, 0x35u8]) == 25) by {
        assert(seq![0x32u8, 0x35u8].drop_last() =~= seq![0x32u8]);
    }
    assert(digits_value(c) == 255);
    assert(all_digits(c));
    assert(unsigned_digits(c) == c);
}

/// The magic line `P5` reads back as a P5 image.
proof fn lemma_read_encoded_magic(data: Seq<u8>)
    requires
        3 <= data.len(),
        data.subrange(0, 3) == seq![0x50u8, 0x35u8] + seq![0x0au8],
    ensures
        line_len(data, 0) == 3,
        valid_utf8(line_at(data, 0)),
        is_p5(trim(line_at(data, 0))),
{
    let a = seq![0x50u8, 0x35u8];
    assert forall|i: int| 0 <= i < a.len() implies #[trigger] a[i] != 0x0a && a[i] < 0x80 by {}
    lemma_line_at(data, 0, a);
    lemma_ascii_line_utf8(a);
    lemma_trim_line(a);
}

/// An image is read only when its magic line starts with `P5` and its
/// maximum-value line reads exactly 255; its pixels are then `width * height`
/// consecutive bytes of the input. A maximum value `v` other than 255 is
/// answered by `UnsupportedMaxValue(v)`.
pub proof fn lemma_max_value_must_be_255(data: Seq<u8>)
    ensures
        spec_parse_ppm(data) is Ok ==> {
            &&& is_p5(trim(line_at(data, 0)))
            &&& spec_read_dimensions(data, line_len(data, 0)) is Ok
            &&& spec_parse_u32(
                trim(line_at(data, spec_read_dimensions(data, line_len(data, 0))->Ok_0.2)),
            ) == Some(255u32)
        },
        spec_parse_ppm(data) matches Ok((px, w, h)) ==> px.len() == w * h && exists|p3: int|
            0 <= p3 && p3 + w * h <= data.len() && px == #[trigger] data.subrange(p3, p3 + w * h),
        (valid_utf8(line_at(data, 0)) && is_p5(trim(line_at(data, 0)))) ==> (spec_read_dimensions(
            data,
            line_len(data, 0),
        ) matches Ok((w, h, p2)) ==> (valid_utf8(line_at(data, p2)) ==> (spec_parse_u32(
            trim(line_at(data, p2)),
        ) matches Some(v) ==> (v != 255 ==> spec_parse_ppm(data) == Err::<
            (Seq<u8>, u32, u32),
            PpmError,
        >(PpmError::UnsupportedMaxValue(v)))))),
{
    if let Ok((px, w, h)) = spec_parse_ppm(data) {
        let p2 = spec_read_dimensions(data, line_len(data, 0))->Ok_0.2;
        lemma_read_dimensions_position(data, line_len(data, 0));
        lemma_line_len(data, p2);
        let p3 = p2 + line_len(data, p2);
        assert(px == data.subrange(p3, p3 + w * h));
    }
}

/// Reading back an image written by `encode_ppm` gives the same pixels,
/// width and height.
pub proof fn lemma_ppm_roundtrip(width: u32, height: u32, pixels: Seq<u8>)
    requires
        width * height <= 0xffff_ffff,
        pixels.len() == width * height,
    ensures
        spec_parse_ppm(spec_encode_ppm(width, height, pixels)) == Ok::<(Seq<u8>, u32, u32), PpmError>(
            (pixels, width, height),
        ),
{
    let dw = decimal(width as nat);
    let dh = decimal(height as nat);
    let data = spec_encode_ppm(width, height, pixels);
    let b = dw + seq![0x20u8] + dh;
    let lb = b.len() as int;
    let p2: int = 3 + lb + 1;
    let p3: int = p2 + 4;
    let head = seq![0x50u8, 0x35u8] + seq![0x0au8];
    let dims = b + seq![0x0au8];
    let max_line = seq![0x32u8, 0x35u8, 0x35u8] + seq![0x0au8];
    assert(data =~= head + dims + max_line + pixels);
    assert(data.subrange(0, 3) =~= head);
    assert(data.subrange(3, 3 + lb + 1) =~= dims);
    assert(data.subrange(p2, p2 + 4) =~= max_line);
    lemma_read_encoded_magic(data);
    lemma_read_encoded_dimensions(data, 3, width, height);
    lemma_read_encoded_max(data, p2);
    assert(data.subrange(p3, p3 + width * height) =~= pixels);
}

} // verus!
