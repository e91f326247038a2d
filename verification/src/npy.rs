//! Reading the header of a NumPy `.npy` file, and decoding the little-endian arrays
//! that follow it.
//!
//! A `.npy` file starts with the magic bytes `\x93NUMPY`, a two-byte version, the
//! length of the header (two bytes little-endian for version 1, four otherwise) and
//! the header itself, a Python dict literal such as
//! `{'descr': '<u4', 'fortran_order': False, 'shape': (184030080,), }`. Only C-order,
//! little-endian (or byte-sized) arrays are accepted.
//!
//! The header is read as bytes: the patterns searched for are ASCII, and a shape entry
//! is trimmed of the UTF-8 encodings of Unicode white space.

use vstd::prelude::*;
use vstd::arithmetic::power::pow;

verus! {

/// Why a `.npy` header or array was refused.
#[derive(Clone, Copy, Debug, PartialEq, Eq, Structural)]
pub enum NpyError {
    /// The bytes end before the header does.
    UnexpectedEof,
    /// The magic bytes are missing.
    NotNumpy,
    /// The array is stored in Fortran (column-major) order.
    FortranOrder,
    /// The header has no `'descr'` entry.
    DescrNotFound,
    /// The dtype is big-endian.
    BigEndian,
    /// The dtype is not one of the known integer, boolean or float codes.
    UnrecognisedDtype,
    /// The header has no `'shape'` entry.
    ShapeNotFound,
    /// The shape tuple is not closed.
    ShapeNotClosed,
    /// An entry of the shape is not a number that fits in `usize`.
    BadShapeEntry,
    /// The array does not have the number of dimensions expected.
    WrongDimensions,
    /// The array does not have the length expected.
    WrongLength,
    /// The element size is not one that this array may have.
    UnsupportedElementSize,
}

/// What the header of a `.npy` file says.
pub struct NpyHeader {
    pub shape: Vec<usize>,
    /// Bytes per element.
    pub elem_size: usize,
    /// The dtype is an unsigned integer (kind `u`).
    pub unsigned: bool,
    /// Bytes from the start of the file to the first byte of the data.
    pub header_size: usize,
}

/// `pat` occurs in `s` at position `i`.
pub open spec fn matches_at(s: Seq<u8>, pat: Seq<u8>, i: int) -> bool {
    0 <= i && i + pat.len() <= s.len() && s.subrange(i, i + pat.len()) == pat
}

/// The first position from `i` on where `pat` occurs in `s`.
pub open spec fn find_from(s: Seq<u8>, pat: Seq<u8>, i: int) -> Option<int>
    decreases s.len() + 1 - i,
{
    if i < 0 || i + pat.len() > s.len() {
        None
    } else if matches_at(s, pat, i) {
        Some(i)
    } else {
        find_from(s, pat, i + 1)
    }
}

/// The first position where `pat` occurs in `s`.
pub open spec fn find(s: Seq<u8>, pat: Seq<u8>) -> Option<int> {
    find_from(s, pat, 0)
}

/// The text after the first `prefix` in `s`, up to the next single quote.
pub open spec fn extract_quoted_spec(s: Seq<u8>, prefix: Seq<u8>) -> Option<Seq<u8>> {
    match find(s, prefix) {
        None => None,
        Some(i) => {
            let rest = s.skip(i + prefix.len());
            match find(rest, seq![39u8]) {
                None => None,
                Some(e) => Some(rest.take(e)),
            }
        },
    }
}

/// The bytes of a type code: a kind letter and a size digit.
pub open spec fn code(kind: u8, size: u8) -> Seq<u8> {
    seq![kind, size]
}

/// The size in bytes of a NumPy type code (its byte-order mark removed).
pub open spec fn dtype_elem_size_spec(c: Seq<u8>) -> Option<usize> {
    // 'i' = 105, 'u' = 117, 'b' = 98, 'f' = 102; '1' = 49, '2' = 50, '4' = 52, '8' = 56.
    if c == code(105, 49) || c == code(117, 49) || c == code(98, 49) {
        Some(1)
    } else if c == code(105, 50) || c == code(117, 50) || c == code(102, 50) {
        Some(2)
    } else if c == code(105, 52) || c == code(117, 52) || c == code(102, 52) {
        Some(4)
    } else if c == code(105, 56) || c == code(117, 56) || c == code(102, 56) {
        Some(8)
    } else {
        None
    }
}

/// The type code is that of an unsigned integer (kind `u`).
pub open spec fn dtype_unsigned_spec(c: Seq<u8>) -> bool {
    c.len() > 0 && c[0] == 117u8
}

/// A byte-order mark: `<`, `=` or `|`.
pub open spec fn is_order_mark(b: u8) -> bool {
    b == 60u8 || b == 61u8 || b == 124u8
}

/// `s` without its leading byte-order marks.
pub open spec fn strip_order_marks(s: Seq<u8>) -> Seq<u8>
    decreases s.len(),
{
    if s.len() > 0 && is_order_mark(s[0]) {
        strip_order_marks(s.drop_first())
    } else {
        s
    }
}

/// ASCII white space: tab, line feed, vertical tab, form feed, carriage return, space.
pub open spec fn is_ascii_ws(b: u8) -> bool {
    (9u8 <= b && b <= 13u8) || b == 32u8
}

/// The three bytes are the UTF-8 encoding of a Unicode white-space character:
/// U+1680, U+2000 to U+200A, U+2028, U+2029, U+202F, U+205F or U+3000.
pub open spec fn is_ws3(a: u8, b: u8, c: u8) -> bool {
    ||| a == 0xE1u8 && b == 0x9Au8 && c == 0x80u8
    ||| a == 0xE2u8 && b == 0x80u8 && ((0x80u8 <= c && c <= 0x8Au8) || c == 0xA8u8 || c == 0xA9u8 || c == 0xAFu8)
    ||| a == 0xE2u8 && b == 0x81u8 && c == 0x9Fu8
    ||| a == 0xE3u8 && b == 0x80u8 && c == 0x80u8
}

/// The two bytes are the UTF-8 encoding of U+0085 or U+00A0.
pub open spec fn is_ws2(a: u8, b: u8) -> bool {
    a == 0xC2u8 && (b == 0x85u8 || b == 0xA0u8)
}

/// The length in bytes of the white-space character that `s` starts with (0 if none).
pub open spec fn ws_prefix_len(s: Seq<u8>) -> int {
    if s.len() >= 1 && is_ascii_ws(s[0]) {
        1
    } else if s.len() >= 2 && is_ws2(s[0], s[1]) {
        2
    } else if s.len() >= 3 && is_ws3(s[0], s[1], s[2]) {
        3
    } else {
        0
    }
}

/// The length in bytes of the white-space character that `s` ends with (0 if none).
pub open spec fn ws_suffix_len(s: Seq<u8>) -> int {
    let n = s.len() as int;
    if n >= 1 && is_ascii_ws(s[n - 1]) {
        1
    } else if n >= 2 && is_ws2(s[n - 2], s[n - 1]) {
        2
    } else if n >= 3 && is_ws3(s[n - 3], s[n - 2], s[n - 1]) {
        3
    } else {
        0
    }
}

/// `s` without its leading white space.
pub open spec fn trim_start_ws(s: Seq<u8>) -> Seq<u8>
    decreases s.len(),
{
    if ws_prefix_len(s) > 0 {
        trim_start_ws(s.skip(ws_prefix_len(s)))
    } else {
        s
    }
}

/// `s` without its trailing white space.
pub open spec fn trim_end_ws(s: Seq<u8>) -> Seq<u8>
    decreases s.len(),
{
    if ws_suffix_len(s) > 0 {
        trim_end_ws(s.take(s.len() - ws_suffix_len(s)))
    } else {
        s
    }
}

/// `s` without leading and trailing white space.
pub open spec fn trim_ws(s: Seq<u8>) -> Seq<u8> {
    trim_end_ws(trim_start_ws(s))
}

pub open spec fn is_digit(b: u8) -> bool {
    48u8 <= b && b <= 57u8
}

/// The value of a string of decimal digits.
pub open spec fn decimal_value(d: Seq<u8>) -> int
    decreases d.len(),
{
    if d.len() == 0 {
        0
    } else {
        decimal_value(d.drop_last()) * 10 + (d.last() - 48)
    }
}

/// The decimal rendering of `n`: its digits, most significant first, without leading
/// zeros.
pub open spec fn decimal_digits(n: nat) -> Seq<u8>
    decreases n,
{
    if n < 10 {
        seq![(48 + n) as u8]
    } else {
        decimal_digits(n / 10).push((48 + n % 10) as u8)
    }
}

proof fn lemma_decimal_digits_shape(n: nat)
    ensures
        decimal_digits(n).len() >= 1,
        all_digits(decimal_digits(n)),
        decimal_value(decimal_digits(n)) == n,
    decreases n,
{
    let d = decimal_digits(n);
    assert(decimal_value(Seq::<u8>::empty()) == 0);
    if n < 10 {
        assert(d.drop_last() =~= Seq::<u8>::empty());
        assert(d.last() as int == 48 + n);
    } else {
        lemma_decimal_digits_shape(n / 10);
        assert(d.drop_last() =~= decimal_digits(n / 10));
        assert forall|i: int| 0 <= i < d.len() implies is_digit(#[trigger] d[i]) by {
            if i < d.len() - 1 {
                assert(d[i] == decimal_digits(n / 10)[i]);
            }
        }
        assert(d.last() as int == 48 + n % 10);
        assert((n / 10) * 10 + n % 10 == n);
    }
}

/// Shape entries are read in base ten: the decimal rendering of any `usize` reads back
/// as that number.
pub proof fn lemma_decimal_round_trip(n: nat)
    requires
        n <= usize::MAX,
    ensures
        parse_usize_spec(decimal_digits(n)) == Some(n as usize),
{
    lemma_decimal_digits_shape(n);
    let d = decimal_digits(n);
    assert(is_digit(d[0]));
    assert(digits_part(d) == d);
}

/// A string of `k` decimal digits reads as a number below `10^k`, and at least
/// `10^(k-1)` when it does not start with `0`: each digit weighs ten times the next.
pub proof fn lemma_decimal_value_bounds(d: Seq<u8>)
    requires
        d.len() >= 1,
        all_digits(d),
    ensures
        0 <= decimal_value(d) < pow(10, d.len()),
        d[0] != 48u8 ==> pow(10, (d.len() - 1) as nat) <= decimal_value(d),
    decreases d.len(),
{
    let rest = d.drop_last();
    let c = d.last() - 48;
    assert(is_digit(d[d.len() - 1]));
    assert(0 <= c <= 9);
    reveal(pow);
    assert(pow(10, d.len()) == 10 * pow(10, (d.len() - 1) as nat));
    if d.len() == 1 {
        assert(rest =~= Seq::<u8>::empty());
        assert(decimal_value(rest) == 0);
        assert(pow(10, 0) == 1);
        assert(d[0] == d.last());
    } else {
        assert forall|i: int| 0 <= i < rest.len() implies is_digit(#[trigger] rest[i]) by {
            assert(rest[i] == d[i]);
        }
        lemma_decimal_value_bounds(rest);
        let v = decimal_value(rest);
        let p = pow(10, rest.len());
        assert(decimal_value(d) == v * 10 + c);
        assert(0 <= v * 10 + c < 10 * p) by (nonlinear_arith)
            requires
                0 <= v < p,
                0 <= c <= 9,
        ;
        assert(rest[0] == d[0]);
        if d[0] != 48u8 {
            let q = pow(10, (rest.len() - 1) as nat);
            assert(p == 10 * q);
            assert(10 * q <= v * 10 + c) by (nonlinear_arith)
                requires
                    q <= v,
                    0 <= c,
            ;
        }
    }
}

/// A `usize` written in decimal: an optional `+`, then at least one digit, the value
/// fitting in `usize`.
pub open spec fn parse_usize_spec(t: Seq<u8>) -> Option<usize> {
    if digits_part(t).len() >= 1 && all_digits(digits_part(t)) && decimal_value(digits_part(t)) <= usize::MAX {
        Some(decimal_value(digits_part(t)) as usize)
    } else {
        None
    }
}

/// The digits of a decimal number: the text without a leading `+` that is followed by
/// something.
pub open spec fn digits_part(t: Seq<u8>) -> Seq<u8> {
    if t.len() >= 2 && t[0] == 43u8 { t.drop_first() } else { t }
}

pub open spec fn all_digits(d: Seq<u8>) -> bool {
    forall|i: int| 0 <= i < d.len() ==> is_digit(#[trigger] d[i])
}

/// The entries of a shape tuple's contents from position `s` on: the text is split at
/// commas, blank pieces are skipped, and each other piece, trimmed, is a `usize`.
pub open spec fn parse_shape_from(inner: Seq<u8>, s: int) -> Option<Seq<usize>>
    decreases inner.len() + 1 - s,
{
    if s < 0 || s > inner.len() {
        None
    } else {
        let comma = find_from(inner, seq![44u8], s);
        let end = match comma {
            Some(e) => e,
            None => inner.len() as int,
        };
        let piece = trim_ws(inner.subrange(s, end));
        let rest = match comma {
            Some(e) => if s <= e < inner.len() { parse_shape_from(inner, e + 1) } else { None },
            None => Some(Seq::empty()),
        };
        if piece.len() == 0 {
            rest
        } else {
            match (parse_usize_spec(piece), rest) {
                (Some(v), Some(r)) => Some(seq![v] + r),
                _ => None,
            }
        }
    }
}

/// The bytes `'fortran_order': True`.
pub open spec fn fortran_true() -> Seq<u8> {
    seq![39u8, 102u8, 111u8, 114u8, 116u8, 114u8, 97u8, 110u8, 95u8, 111u8, 114u8, 100u8, 101u8, 114u8,
        39u8, 58u8, 32u8, 84u8, 114u8, 117u8, 101u8]
}

/// The bytes `'descr': '`.
pub open spec fn descr_key() -> Seq<u8> {
    seq![39u8, 100u8, 101u8, 115u8, 99u8, 114u8, 39u8, 58u8, 32u8, 39u8]
}

/// The bytes `'shape': (`.
pub open spec fn shape_key() -> Seq<u8> {
    seq![39u8, 115u8, 104u8, 97u8, 112u8, 101u8, 39u8, 58u8, 32u8, 40u8]
}

/// What the header dict says: the shape, the element size, and whether the elements
/// are unsigned integers.
pub open spec fn header_dict_spec(hdr: Seq<u8>) -> Result<(Seq<usize>, usize, bool), NpyError> {
    if find(hdr, fortran_true()) is Some {
        Err(NpyError::FortranOrder)
    } else {
        match extract_quoted_spec(hdr, descr_key()) {
            None => Err(NpyError::DescrNotFound),
            Some(descr) => if descr.len() > 0 && descr[0] == 62u8 {
                Err(NpyError::BigEndian)
            } else {
                match dtype_elem_size_spec(strip_order_marks(descr)) {
                    None => Err(NpyError::UnrecognisedDtype),
                    Some(elem) => match find(hdr, shape_key()) {
                        None => Err(NpyError::ShapeNotFound),
                        Some(si) => {
                            let rest = hdr.skip(si + shape_key().len());
                            match find(rest, seq![41u8]) {
                                None => Err(NpyError::ShapeNotClosed),
                                Some(ei) => match parse_shape_from(rest.take(ei), 0) {
                                    None => Err(NpyError::BadShapeEntry),
                                    Some(shape) => Ok((shape, elem, dtype_unsigned_spec(strip_order_marks(descr)))),
                                },
                            }
                        },
                    },
                }
            },
        }
    }
}

/// The magic bytes `\x93NUMPY`.
pub open spec fn npy_magic() -> Seq<u8> {
    seq![0x93u8, 78u8, 85u8, 77u8, 80u8, 89u8]
}

/// Bytes that hold the length of the header: two for version 1, four otherwise.
pub open spec fn header_len_bytes(major: u8) -> int {
    if major == 1 { 2 } else { 4 }
}

/// The length of the header, read little-endian after the version.
pub open spec fn header_len_spec(b: Seq<u8>) -> int {
    if b[6] == 1 {
        b[8] + 256 * b[9]
    } else {
        b[8] + 256 * b[9] + 65536 * b[10] + 16777216 * (b[11] as int)
    }
}

/// What the header at the start of `b` says: the shape, the element size, whether the
/// elements are unsigned integers, and the offset of the data.
pub open spec fn npy_header_spec(b: Seq<u8>) -> Result<(Seq<usize>, usize, bool, int), NpyError> {
    if b.len() < 6 {
        Err(NpyError::UnexpectedEof)
    } else if b.take(6) != npy_magic() {
        Err(NpyError::NotNumpy)
    } else if b.len() < 8 + header_len_bytes(b[6]) {
        Err(NpyError::UnexpectedEof)
    } else {
        let start = 8 + header_len_bytes(b[6]);
        let end = start + header_len_spec(b);
        if b.len() < end {
            Err(NpyError::UnexpectedEof)
        } else {
            match header_dict_spec(b.subrange(start, end)) {
                Err(e) => Err(e),
                Ok((shape, elem, unsigned)) => Ok((shape, elem, unsigned, end)),
            }
        }
    }
}

/// Whether `pat` occurs in `s` at position `i`.
fn matches_at_exec(s: &[u8], pat: &[u8], i: usize) -> (m: bool)
    ensures
        m == matches_at(s@, pat@, i as int),
{
    if i > s.len() || pat.len() > s.len() - i {
        return false;
    }
    let mut k: usize = 0;
    while k < pat.len()
        invariant
            i + pat@.len() <= s@.len(),
            pat.len() <= s.len(),
            i <= s.len() - pat.len(),
            0 <= k <= pat@.len(),
            forall|q: int| 0 <= q < k ==> s@[i + q] == pat@[q],
        decreases pat@.len() - k,
    {
        if s[i + k] != pat[k] {
            assert(s@.subrange(i as int, i + pat@.len())[k as int] != pat@[k as int]);
            return false;
        }
        k = k + 1;
    }
    assert(s@.subrange(i as int, i + pat@.len()) =~= pat@);
    true
}

/// The first position from `from` on where `pat` occurs in `s`.
pub fn find_bytes(s: &[u8], pat: &[u8], from: usize) -> (r: Option<usize>)
    ensures
        match r {
            Some(i) => find_from(s@, pat@, from as int) == Some(i as int),
            None => find_from(s@, pat@, from as int) is None,
        },
{
    let mut i = from;
    loop
        invariant
            find_from(s@, pat@, from as int) == find_from(s@, pat@, i as int),
        decreases s@.len() + 1 - i,
    {
        if i > s.len() || pat.len() > s.len() - i {
            return None;
        }
        if matches_at_exec(s, pat, i) {
            return Some(i);
        }
        if i == s.len() {
            assert(s@.subrange(i as int, i as int) =~= pat@);
        }
        i = i + 1;
    }
}

proof fn lemma_find_from_found(s: Seq<u8>, pat: Seq<u8>, i: int, e: int)
    requires
        find_from(s, pat, i) == Some(e),
    ensures
        i <= e,
        e + pat.len() <= s.len(),
        matches_at(s, pat, e),
    decreases s.len() + 1 - i,
{
    if !(i < 0 || i + pat.len() > s.len()) && !matches_at(s, pat, i) {
        lemma_find_from_found(s, pat, i + 1, e);
    }
}

fn copy_range(s: &[u8], lo: usize, hi: usize) -> (out: Vec<u8>)
    requires
        lo <= hi <= s@.len(),
    ensures
        out@ == s@.subrange(lo as int, hi as int),
{
    let mut out: Vec<u8> = Vec::new();
    let mut i = lo;
    while i < hi
        invariant
            lo <= i <= hi <= s@.len(),
            out@ =~= s@.subrange(lo as int, i as int),
        decreases hi - i,
    {
        out.push(s[i]);
        i = i + 1;
    }
    out
}

/// The text after the first `prefix` in `s`, up to the next single quote.
pub fn extract_quoted(s: &[u8], prefix: &[u8]) -> (r: Option<Vec<u8>>)
    ensures
        match r {
            Some(v) => extract_quoted_spec(s@, prefix@) == Some(v@),
            None => extract_quoted_spec(s@, prefix@) is None,
        },
{
    match find_bytes(s, prefix, 0) {
        None => None,
        Some(i) => {
            proof { lemma_find_from_found(s@, prefix@, 0, i as int); }
            assert(s@.len() == s.len());
            let start = i + prefix.len();
            let quote: [u8; 1] = [39u8];
            assert(quote@ =~= seq![39u8]);
            match find_bytes(s, quote.as_slice(), start) {
                None => {
                    proof { lemma_find_shift(s@, seq![39u8], start as int); }
                    None
                },
                Some(e) => {
                    proof {
                        lemma_find_shift(s@, seq![39u8], start as int);
                        lemma_find_from_found(s@, seq![39u8], start as int, e as int);
                    }
                    let v = copy_range(s, start, e);
                    assert(v@ =~= s@.skip(start as int).take(e - start));
                    Some(v)
                },
            }
        },
    }
}

/// Searching a suffix is searching the whole from where the suffix starts.
proof fn lemma_find_shift(s: Seq<u8>, pat: Seq<u8>, start: int)
    requires
        0 <= start <= s.len(),
    ensures
        match find(s.skip(start), pat) {
            Some(e) => find_from(s, pat, start) == Some(e + start),
            None => find_from(s, pat, start) is None,
        },
{
    lemma_find_shift_from(s, pat, start, 0);
}

proof fn lemma_find_shift_from(s: Seq<u8>, pat: Seq<u8>, start: int, i: int)
    requires
        0 <= start <= s.len(),
        0 <= i,
    ensures
        match find_from(s.skip(start), pat, i) {
            Some(e) => find_from(s, pat, start + i) == Some(e + start),
            None => find_from(s, pat, start + i) is None,
        },
    decreases s.len() + 1 - start - i,
{
    let t = s.skip(start);
    if i + pat.len() > t.len() {
    } else {
        assert(t.subrange(i, i + pat.len()) =~= s.subrange(start + i, start + i + pat.len()));
        if !matches_at(t, pat, i) {
            lemma_find_shift_from(s, pat, start, i + 1);
        }
    }
}

/// The size in bytes of a NumPy type code (its byte-order mark removed).
pub fn dtype_elem_size(c: &[u8]) -> (size: Option<usize>)
    ensures
        size == dtype_elem_size_spec(c@),
{
    if c.len() != 2 {
        assert(forall|k: u8, z: u8| c@ != code(k, z));
        return None;
    }
    let kind = c[0];
    let z = c[1];
    assert(c@ =~= code(kind, z));
    let int_like = kind == 105u8 || kind == 117u8;
    if z == 49u8 && (int_like || kind == 98u8) {
        Some(1)
    } else if z == 50u8 && (int_like || kind == 102u8) {
        Some(2)
    } else if z == 52u8 && (int_like || kind == 102u8) {
        Some(4)
    } else if z == 56u8 && (int_like || kind == 102u8) {
        Some(8)
    } else {
        None
    }
}

/// The number of leading byte-order marks of `s`.
fn order_marks_len(s: &[u8]) -> (k: usize)
    ensures
        k <= s@.len(),
        s@.skip(k as int) == strip_order_marks(s@),
{
    let mut k: usize = 0;
    assert(s@.skip(0) =~= s@);
    while k < s.len() && (s[k] == 60u8 || s[k] == 61u8 || s[k] == 124u8)
        invariant
            k <= s@.len(),
            strip_order_marks(s@) == strip_order_marks(s@.skip(k as int)),
        decreases s@.len() - k,
    {
        assert(s@.skip(k as int).drop_first() =~= s@.skip(k as int + 1));
        k = k + 1;
    }
    k
}

/// The length of the white-space character that `s[a..hi]` starts with (0 if none).
fn ws_prefix_at(s: &[u8], a: usize, hi: usize) -> (k: usize)
    requires
        a <= hi <= s@.len(),
    ensures
        k as int == ws_prefix_len(s@.subrange(a as int, hi as int)),
{
    let ghost t = s@.subrange(a as int, hi as int);
    let n = hi - a;
    if n >= 1 && ((9u8 <= s[a] && s[a] <= 13u8) || s[a] == 32u8) {
        assert(t[0] == s@[a as int]);
        return 1;
    }
    assert(n >= 1 ==> t[0] == s@[a as int]);
    if n >= 2 && s[a] == 0xC2u8 && (s[a + 1] == 0x85u8 || s[a + 1] == 0xA0u8) {
        assert(t[1] == s@[a + 1]);
        return 2;
    }
    assert(n >= 2 ==> t[1] == s@[a + 1]);
    if n >= 3 {
        let x = s[a];
        let y = s[a + 1];
        let z = s[a + 2];
        assert(t[2] == s@[a + 2]);
        if (x == 0xE1u8 && y == 0x9Au8 && z == 0x80u8)
            || (x == 0xE2u8 && y == 0x80u8 && ((0x80u8 <= z && z <= 0x8Au8) || z == 0xA8u8 || z == 0xA9u8 || z == 0xAFu8))
            || (x == 0xE2u8 && y == 0x81u8 && z == 0x9Fu8)
            || (x == 0xE3u8 && y == 0x80u8 && z == 0x80u8) {
            return 3;
        }
    }
    0
}

/// The length of the white-space character that `s[a..b]` ends with (0 if none).
fn ws_suffix_at(s: &[u8], a: usize, b: usize) -> (k: usize)
    requires
        a <= b <= s@.len(),
    ensures
        k as int == ws_suffix_len(s@.subrange(a as int, b as int)),
{
    let ghost t = s@.subrange(a as int, b as int);
    let n = b - a;
    if n >= 1 && ((9u8 <= s[b - 1] && s[b - 1] <= 13u8) || s[b - 1] == 32u8) {
        assert(t[n - 1] == s@[b - 1]);
        return 1;
    }
    assert(n >= 1 ==> t[n - 1] == s@[b - 1]);
    if n >= 2 && s[b - 2] == 0xC2u8 && (s[b - 1] == 0x85u8 || s[b - 1] == 0xA0u8) {
        assert(t[n - 2] == s@[b - 2]);
        return 2;
    }
    assert(n >= 2 ==> t[n - 2] == s@[b - 2]);
    if n >= 3 {
        let x = s[b - 3];
        let y = s[b - 2];
        let z = s[b - 1];
        assert(t[n - 3] == s@[b - 3]);
        if (x == 0xE1u8 && y == 0x9Au8 && z == 0x80u8)
            || (x == 0xE2u8 && y == 0x80u8 && ((0x80u8 <= z && z <= 0x8Au8) || z == 0xA8u8 || z == 0xA9u8 || z == 0xAFu8))
            || (x == 0xE2u8 && y == 0x81u8 && z == 0x9Fu8)
            || (x == 0xE3u8 && y == 0x80u8 && z == 0x80u8) {
            return 3;
        }
    }
    0
}

/// The part of `s[lo..hi]` without leading and trailing white space, as a range.
fn trim_range(s: &[u8], lo: usize, hi: usize) -> (r: (usize, usize))
    requires
        lo <= hi <= s@.len(),
    ensures
        lo <= r.0 <= r.1 <= hi,
        s@.subrange(r.0 as int, r.1 as int) == trim_ws(s@.subrange(lo as int, hi as int)),
{
    let ghost whole = s@.subrange(lo as int, hi as int);
    let mut a = lo;
    loop
        invariant
            lo <= a <= hi <= s@.len(),
            trim_start_ws(whole) == trim_start_ws(s@.subrange(a as int, hi as int)),
        ensures
            lo <= a <= hi <= s@.len(),
            trim_start_ws(whole) == trim_start_ws(s@.subrange(a as int, hi as int)),
            ws_prefix_len(s@.subrange(a as int, hi as int)) == 0,
        decreases hi - a,
    {
        let k = ws_prefix_at(s, a, hi);
        if k == 0 {
            break;
        }
        assert(s@.subrange(a as int, hi as int).skip(k as int) =~= s@.subrange(a + k, hi as int));
        a = a + k;
    }
    assert(trim_start_ws(s@.subrange(a as int, hi as int)) == s@.subrange(a as int, hi as int));
    let mut b = hi;
    loop
        invariant
            lo <= a <= b <= hi <= s@.len(),
            trim_ws(whole) == trim_end_ws(s@.subrange(a as int, b as int)),
        ensures
            lo <= a <= b <= hi <= s@.len(),
            trim_ws(whole) == trim_end_ws(s@.subrange(a as int, b as int)),
            ws_suffix_len(s@.subrange(a as int, b as int)) == 0,
        decreases b - a,
    {
        let k = ws_suffix_at(s, a, b);
        if k == 0 {
            break;
        }
        assert(s@.subrange(a as int, b as int).take(b - a - k) =~= s@.subrange(a as int, b - k));
        b = b - k;
    }
    (a, b)
}

proof fn lemma_decimal_prefix_le(d: Seq<u8>, j: int)
    requires
        0 <= j <= d.len(),
        forall|i: int| 0 <= i < d.len() ==> is_digit(#[trigger] d[i]),
    ensures
        decimal_value(d.take(j)) <= decimal_value(d),
        0 <= decimal_value(d.take(j)),
    decreases d.len(),
{
    if j == d.len() {
        assert(d.take(j) =~= d);
        if d.len() > 0 {
            lemma_decimal_prefix_le(d.drop_last(), d.len() - 1);
            assert(d.drop_last().take(d.len() - 1) =~= d.drop_last());
        }
    } else {
        assert(d.drop_last().take(j) =~= d.take(j));
        lemma_decimal_prefix_le(d.drop_last(), j);
        lemma_decimal_prefix_le(d.drop_last(), d.len() - 1);
        assert(d.drop_last().take(d.len() - 1) =~= d.drop_last());
    }
}

/// A `usize` written in decimal in `s[lo..hi]`.
fn parse_usize_range(s: &[u8], lo: usize, hi: usize) -> (v: Option<usize>)
    requires
        lo <= hi <= s@.len(),
    ensures
        v == parse_usize_spec(s@.subrange(lo as int, hi as int)),
{
    let ghost t = s@.subrange(lo as int, hi as int);
    let start = if hi - lo >= 2 && s[lo] == 43u8 { lo + 1 } else { lo };
    let ghost d = digits_part(t);
    assert(d =~= s@.subrange(start as int, hi as int));
    if start == hi {
        assert(d.len() == 0);
        assert(parse_usize_spec(t) is None);
        return None;
    }
    let mut i = start;
    while i < hi
        invariant
            start <= i <= hi <= s@.len(),
            t == s@.subrange(lo as int, hi as int),
            d == digits_part(t),
            d == s@.subrange(start as int, hi as int),
            forall|q: int| 0 <= q < i - start ==> is_digit(#[trigger] d[q]),
        decreases hi - i,
    {
        if !(48u8 <= s[i] && s[i] <= 57u8) {
            assert(d[i - start] == s@[i as int]);
            assert(!is_digit(d[i - start]));
            assert(parse_usize_spec(t) is None);
            return None;
        }
        i = i + 1;
    }
    let mut value: usize = 0;
    let mut i = start;
    while i < hi
        invariant
            start <= i <= hi <= s@.len(),
            t == s@.subrange(lo as int, hi as int),
            d == digits_part(t),
            d == s@.subrange(start as int, hi as int),
            forall|q: int| 0 <= q < d.len() ==> is_digit(#[trigger] d[q]),
            value == decimal_value(d.take(i - start)),
        decreases hi - i,
    {
        assert(d[i - start] == s@[i as int]);
        assert(is_digit(d[i - start]));
        let dig = (s[i] - 48u8) as usize;
        assert(d.take(i - start + 1).drop_last() =~= d.take(i - start));
        assert(d.take(i - start + 1).last() == d[i - start]);
        assert(is_digit(d[i - start]));
        if value > (usize::MAX - dig) / 10 {
            proof {
                let m = usize::MAX as int;
                assert(value * 10 + dig > m) by (nonlinear_arith)
                    requires
                        value > (m - dig) / 10,
                        0 <= dig <= 9,
                        m > 9,
                ;
                lemma_decimal_prefix_le(d, i - start + 1);
                assert(parse_usize_spec(t) is None);
            }
            return None;
        }
        proof {
            let m = usize::MAX as int;
            assert(value * 10 + dig <= m) by (nonlinear_arith)
                requires
                    value <= (m - dig) / 10,
                    0 <= dig <= 9,
                    m > 9,
            ;
        }
        value = value * 10 + dig;
        i = i + 1;
    }
    assert(d.take(hi - start) =~= d);
    Some(value)
}

/// The entries of a shape tuple's contents: split at commas, blank pieces skipped,
/// each other piece trimmed and read as a `usize`.
fn parse_shape(inner: &[u8]) -> (shape: Option<Vec<usize>>)
    ensures
        match shape {
            Some(v) => parse_shape_from(inner@, 0) == Some(v@),
            None => parse_shape_from(inner@, 0) is None,
        },
{
    let comma_arr: [u8; 1] = [44u8];
    let comma_pat = comma_arr.as_slice();
    assert(comma_pat@ =~= seq![44u8]);
    let mut acc: Vec<usize> = Vec::new();
    let mut s: usize = 0;
    loop
        invariant
            comma_pat@ == seq![44u8],
            s <= inner@.len(),
            parse_shape_from(inner@, 0) == match parse_shape_from(inner@, s as int) {
                Some(r) => Some(acc@ + r),
                None => None::<Seq<usize>>,
            },
        decreases inner@.len() + 1 - s,
    {
        let comma = find_bytes(inner, comma_pat, s);
        let end = match comma {
            Some(e) => e,
            None => inner.len(),
        };
        proof {
            if let Some(e) = comma {
                lemma_find_from_found(inner@, seq![44u8], s as int, e as int);
            }
        }
        let (a, b) = trim_range(inner, s, end);
        if b > a {
            match parse_usize_range(inner, a, b) {
                None => {
                    return None;
                },
                Some(v) => {
                    proof {
                        let rest = parse_shape_from(inner@, s as int);
                        match comma {
                            Some(e) => {
                                if let Some(r) = parse_shape_from(inner@, e + 1) {
                                    assert(acc@.push(v) + r =~= acc@ + (seq![v] + r));
                                }
                            },
                            None => {
                                assert(acc@.push(v) + Seq::<usize>::empty() =~= acc@ + (seq![v] + Seq::<usize>::empty()));
                            },
                        }
                    }
                    acc.push(v);
                },
            }
        }
        assert(inner@.len() == inner.len());
        match comma {
            Some(e) => {
                s = e + 1;
            },
            None => {
                proof {
                    assert(acc@ + Seq::<usize>::empty() =~= acc@);
                }
                return Some(acc);
            },
        }
    }
}

/// Reads the header dict: the shape, the element size and whether the elements are
/// unsigned integers.
fn parse_header_dict(hdr: &[u8]) -> (r: Result<(Vec<usize>, usize, bool), NpyError>)
    ensures
        match r {
            Ok((shape, elem, unsigned)) => header_dict_spec(hdr@) == Ok::<(Seq<usize>, usize, bool), NpyError>((shape@, elem, unsigned)),
            Err(e) => header_dict_spec(hdr@) == Err::<(Seq<usize>, usize, bool), NpyError>(e),
        },
{
    let fortran: [u8; 21] = [39u8, 102u8, 111u8, 114u8, 116u8, 114u8, 97u8, 110u8, 95u8, 111u8, 114u8, 100u8, 101u8, 114u8,
        39u8, 58u8, 32u8, 84u8, 114u8, 117u8, 101u8];
    assert(fortran@ =~= fortran_true());
    if find_bytes(hdr, fortran.as_slice(), 0).is_some() {
        return Err(NpyError::FortranOrder);
    }
    let descr_pat: [u8; 10] = [39u8, 100u8, 101u8, 115u8, 99u8, 114u8, 39u8, 58u8, 32u8, 39u8];
    assert(descr_pat@ =~= descr_key());
    let descr = match extract_quoted(hdr, descr_pat.as_slice()) {
        None => {
            return Err(NpyError::DescrNotFound);
        },
        Some(d) => d,
    };
    if descr.len() > 0 && descr[0] == 62u8 {
        return Err(NpyError::BigEndian);
    }
    let k = order_marks_len(descr.as_slice());
    let code_bytes = vstd::slice::slice_subrange(descr.as_slice(), k, descr.len());
    assert(code_bytes@ =~= descr@.skip(k as int));
    let elem = match dtype_elem_size(code_bytes) {
        None => {
            return Err(NpyError::UnrecognisedDtype);
        },
        Some(e) => e,
    };
    let unsigned = code_bytes.len() > 0 && code_bytes[0] == 117u8;
    let shape_pat: [u8; 10] = [39u8, 115u8, 104u8, 97u8, 112u8, 101u8, 39u8, 58u8, 32u8, 40u8];
    assert(shape_pat@ =~= shape_key());
    let si = match find_bytes(hdr, shape_pat.as_slice(), 0) {
        None => {
            return Err(NpyError::ShapeNotFound);
        },
        Some(i) => i,
    };
    proof { lemma_find_from_found(hdr@, shape_key(), 0, si as int); }
    assert(hdr@.len() == hdr.len());
    let rest_start = si + 10;
    let close_arr: [u8; 1] = [41u8];
    assert(close_arr@ =~= seq![41u8]);
    proof { lemma_find_shift(hdr@, seq![41u8], rest_start as int); }
    let ei = match find_bytes(hdr, close_arr.as_slice(), rest_start) {
        None => {
            return Err(NpyError::ShapeNotClosed);
        },
        Some(e) => e,
    };
    proof { lemma_find_from_found(hdr@, seq![41u8], rest_start as int, ei as int); }
    let inner = vstd::slice::slice_subrange(hdr, rest_start, ei);
    assert(inner@ =~= hdr@.skip(rest_start as int).take(ei - rest_start));
    match parse_shape(inner) {
        None => Err(NpyError::BadShapeEntry),
        Some(shape) => Ok((shape, elem, unsigned)),
    }
}

/// Where the header that starts `prefix` ends: the offset of the array data, read from
/// the magic, the version and the header length (the first 10 or 12 bytes).
pub fn npy_header_end(prefix: &[u8]) -> (r: Result<usize, NpyError>)
    ensures
        match r {
            Ok(end) => {
                &&& prefix@.len() >= 8 + header_len_bytes(prefix@[6])
                &&& prefix@.take(6) == npy_magic()
                &&& end == 8 + header_len_bytes(prefix@[6]) + header_len_spec(prefix@)
            },
            Err(e) => {
                &&& e == NpyError::UnexpectedEof || e == NpyError::NotNumpy
                &&& prefix@.len() < 6 ==> e == NpyError::UnexpectedEof
                &&& prefix@.len() >= 6 ==> (e == NpyError::NotNumpy <==> prefix@.take(6) != npy_magic())
                &&& e == NpyError::UnexpectedEof ==> prefix@.len() < 6 || prefix@.len() < 8 + header_len_bytes(prefix@[6])
                    || 8 + header_len_bytes(prefix@[6]) + header_len_spec(prefix@) > usize::MAX
            },
        },
{
    if prefix.len() < 6 {
        return Err(NpyError::UnexpectedEof);
    }
    let magic: [u8; 6] = [0x93u8, 78u8, 85u8, 77u8, 80u8, 89u8];
    assert(magic@ =~= npy_magic());
    let mut i: usize = 0;
    while i < 6
        invariant
            prefix@.len() >= 6,
            magic@ == npy_magic(),
            0 <= i <= 6,
            forall|q: int| 0 <= q < i ==> prefix@[q] == magic@[q],
        decreases 6 - i,
    {
        if prefix[i] != magic[i] {
            assert(prefix@.take(6)[i as int] != npy_magic()[i as int]);
            return Err(NpyError::NotNumpy);
        }
        i = i + 1;
    }
    assert(prefix@.take(6) =~= npy_magic());
    if prefix.len() < 8 {
        return Err(NpyError::UnexpectedEof);
    }
    let v1 = prefix[6] == 1u8;
    let len_bytes: usize = if v1 { 2 } else { 4 };
    if prefix.len() < 8 + len_bytes {
        return Err(NpyError::UnexpectedEof);
    }
    let header_len: usize = if v1 {
        prefix[8] as usize + 256 * (prefix[9] as usize)
    } else {
        let hl: u64 = prefix[8] as u64 + 256 * (prefix[9] as u64) + 65536 * (prefix[10] as u64) + 16777216 * (prefix[11] as u64);
        if hl > usize::MAX as u64 - 12 {
            // The data would start beyond any slice: no buffer can hold the header.
            return Err(NpyError::UnexpectedEof);
        }
        hl as usize
    };
    Ok(8 + len_bytes + header_len)
}

/// Reads the header of the `.npy` file whose first bytes are `bytes`.
pub fn parse_npy_header(bytes: &[u8]) -> (r: Result<NpyHeader, NpyError>)
    ensures
        match r {
            Ok(h) => npy_header_spec(bytes@) == Ok::<(Seq<usize>, usize, bool, int), NpyError>(
                (h.shape@, h.elem_size, h.unsigned, h.header_size as int)),
            Err(e) => npy_header_spec(bytes@) == Err::<(Seq<usize>, usize, bool, int), NpyError>(e),
        },
{
    assert(bytes@.len() == bytes.len());
    let end = match npy_header_end(bytes) {
        Err(e) => {
            return Err(e);
        },
        Ok(end) => end,
    };
    let start: usize = if bytes[6] == 1u8 { 10 } else { 12 };
    assert(bytes@.len() == bytes.len());
    if bytes.len() < end {
        return Err(NpyError::UnexpectedEof);
    }
    let hdr = vstd::slice::slice_subrange(bytes, start, end);
    match parse_header_dict(hdr) {
        Err(e) => Err(e),
        Ok((shape, elem_size, unsigned)) => Ok(NpyHeader { shape, elem_size, unsigned, header_size: end }),
    }
}

/// The little-endian 16-bit value of the bytes at `i`.
pub open spec fn le_u16_at(b: Seq<u8>, i: int) -> int {
    b[i] + 256 * b[i + 1]
}

/// The little-endian 32-bit value of the bytes at `i`.
pub open spec fn le_u32_at(b: Seq<u8>, i: int) -> int {
    b[i] + 256 * b[i + 1] + 65536 * b[i + 2] + 16777216 * (b[i + 3] as int)
}

/// The little-endian 64-bit value of the bytes at `i`.
pub open spec fn le_u64_at(b: Seq<u8>, i: int) -> int {
    le_u32_at(b, i) + 4294967296 * le_u32_at(b, i + 4)
}

fn le_u32_exec(b: &[u8], i: usize) -> (v: u32)
    requires
        i + 4 <= b@.len(),
    ensures
        v as int == le_u32_at(b@, i as int),
{
    b[i] as u32 + 256 * (b[i + 1] as u32) + 65536 * (b[i + 2] as u32) + 16777216 * (b[i + 3] as u32)
}

fn le_u64_exec(b: &[u8], i: usize) -> (v: u64)
    requires
        i + 8 <= b@.len(),
    ensures
        v as int == le_u64_at(b@, i as int),
{
    assert(b@.len() == b.len());
    let lo = le_u32_exec(b, i) as u64;
    let hi = le_u32_exec(b, i + 4) as u64;
    lo + 4294967296 * hi
}

/// The little-endian 16-bit values of `raw`, two bytes each (a trailing odd byte is
/// ignored): how `.npy` stores `float16` data, kept here as bit patterns.
pub fn decode_u16s(raw: &[u8]) -> (v: Vec<u16>)
    ensures
        v@.len() == raw@.len() / 2,
        forall|i: int| 0 <= i < v@.len() ==> #[trigger] v@[i] as int == le_u16_at(raw@, 2 * i),
{
    assert(raw@.len() == raw.len());
    let n = raw.len() / 2;
    let mut v: Vec<u16> = Vec::new();
    let mut i: usize = 0;
    while i < n
        invariant
            n == raw@.len() / 2,
            raw@.len() == raw.len(),
            0 <= i <= n,
            v@.len() == i,
            forall|q: int| 0 <= q < i ==> #[trigger] v@[q] as int == le_u16_at(raw@, 2 * q),
        decreases n - i,
    {
        let x = raw[2 * i] as u16 + 256 * (raw[2 * i + 1] as u16);
        v.push(x);
        i = i + 1;
    }
    v
}

/// The little-endian 32-bit unsigned values of `raw`, four bytes each, as `usize`.
pub fn decode_u32s(raw: &[u8]) -> (v: Vec<usize>)
    ensures
        v@.len() == raw@.len() / 4,
        forall|i: int| 0 <= i < v@.len() ==> #[trigger] v@[i] as int == le_u32_at(raw@, 4 * i),
{
    assert(raw@.len() == raw.len());
    let n = raw.len() / 4;
    let mut v: Vec<usize> = Vec::new();
    let mut i: usize = 0;
    while i < n
        invariant
            n == raw@.len() / 4,
            raw@.len() == raw.len(),
            0 <= i <= n,
            v@.len() == i,
            forall|q: int| 0 <= q < i ==> #[trigger] v@[q] as int == le_u32_at(raw@, 4 * q),
        decreases n - i,
    {
        let x = le_u32_exec(raw, 4 * i) as usize;
        v.push(x);
        i = i + 1;
    }
    v
}

/// The little-endian 32-bit signed values of `raw`, four bytes each, converted to
/// `usize` as Rust's `as` does (a negative value wraps around).
pub fn decode_i32s(raw: &[u8]) -> (v: Vec<usize>)
    ensures
        v@.len() == raw@.len() / 4,
        forall|i: int| 0 <= i < v@.len() ==> #[trigger] v@[i] == ((le_u32_at(raw@, 4 * i) as u32) as i32) as usize,
{
    assert(raw@.len() == raw.len());
    let n = raw.len() / 4;
    let mut v: Vec<usize> = Vec::new();
    let mut i: usize = 0;
    while i < n
        invariant
            n == raw@.len() / 4,
            raw@.len() == raw.len(),
            0 <= i <= n,
            v@.len() == i,
            forall|q: int| 0 <= q < i ==> #[trigger] v@[q] == ((le_u32_at(raw@, 4 * q) as u32) as i32) as usize,
        decreases n - i,
    {
        let u = le_u32_exec(raw, 4 * i);
        let x = (u as i32) as usize;
        v.push(x);
        i = i + 1;
    }
    v
}

/// The little-endian 64-bit values of `raw`, eight bytes each, converted to `usize` as
/// Rust's `as` does (truncated where `usize` is narrower). Signed and unsigned 64-bit
/// data give the same `usize`.
pub fn decode_u64s(raw: &[u8]) -> (v: Vec<usize>)
    ensures
        v@.len() == raw@.len() / 8,
        forall|i: int| 0 <= i < v@.len() ==> #[trigger] v@[i] == (le_u64_at(raw@, 8 * i) as u64) as usize,
{
    assert(raw@.len() == raw.len());
    let n = raw.len() / 8;
    let mut v: Vec<usize> = Vec::new();
    let mut i: usize = 0;
    while i < n
        invariant
            n == raw@.len() / 8,
            raw@.len() == raw.len(),
            0 <= i <= n,
            v@.len() == i,
            forall|q: int| 0 <= q < i ==> #[trigger] v@[q] == (le_u64_at(raw@, 8 * q) as u64) as usize,
        decreases n - i,
    {
        let u = le_u64_exec(raw, 8 * i);
        let x = u as usize;
        v.push(x);
        i = i + 1;
    }
    v
}

/// The rows to read of a 2-D array of 2-byte elements (at most `limit` of them, when
/// given) and its row length: `(rows, dim)`.
pub fn f16_matrix_extent(header: &NpyHeader, limit: Option<usize>) -> (r: Result<(usize, usize), NpyError>)
    ensures
        header.shape@.len() != 2 ==> r == Err::<(usize, usize), NpyError>(NpyError::WrongDimensions),
        header.shape@.len() == 2 && header.elem_size != 2 ==> r == Err::<(usize, usize), NpyError>(NpyError::UnsupportedElementSize),
        header.shape@.len() == 2 && header.elem_size == 2 ==> r == Ok::<(usize, usize), NpyError>((
            match limit {
                Some(l) => if l < header.shape@[0] { l } else { header.shape@[0] },
                None => header.shape@[0],
            },
            header.shape@[1],
        )),
{
    if header.shape.len() != 2 {
        return Err(NpyError::WrongDimensions);
    }
    if header.elem_size != 2 {
        return Err(NpyError::UnsupportedElementSize);
    }
    let total = header.shape[0];
    let rows = match limit {
        Some(l) => if l < total { l } else { total },
        None => total,
    };
    Ok((rows, header.shape[1]))
}

/// The entries to read of a 1-D array of token ids (4 or 8 bytes each), at most
/// `limit` of them when given.
pub fn token_ids_extent(header: &NpyHeader, limit: Option<usize>) -> (r: Result<usize, NpyError>)
    ensures
        header.shape@.len() != 1 ==> r == Err::<usize, NpyError>(NpyError::WrongDimensions),
        header.shape@.len() == 1 && header.elem_size != 4 && header.elem_size != 8
            ==> r == Err::<usize, NpyError>(NpyError::UnsupportedElementSize),
        header.shape@.len() == 1 && (header.elem_size == 4 || header.elem_size == 8) ==> r == Ok::<usize, NpyError>(
            match limit {
                Some(l) => if l < header.shape@[0] { l } else { header.shape@[0] },
                None => header.shape@[0],
            }),
{
    if header.shape.len() != 1 {
        return Err(NpyError::WrongDimensions);
    }
    if header.elem_size != 4 && header.elem_size != 8 {
        return Err(NpyError::UnsupportedElementSize);
    }
    let total = header.shape[0];
    Ok(match limit {
        Some(l) => if l < total { l } else { total },
        None => total,
    })
}

/// Token ids from their raw data: 64-bit signed (`i64`) or 32-bit unsigned entries.
pub fn decode_token_ids(elem_size: usize, raw: &[u8]) -> (ids: Vec<usize>)
    requires
        elem_size == 4 || elem_size == 8,
    ensures
        elem_size == 8 ==> ids@.len() == raw@.len() / 8
            && forall|i: int| 0 <= i < ids@.len() ==> #[trigger] ids@[i] == (le_u64_at(raw@, 8 * i) as u64) as usize,
        elem_size == 4 ==> ids@.len() == raw@.len() / 4
            && forall|i: int| 0 <= i < ids@.len() ==> #[trigger] ids@[i] as int == le_u32_at(raw@, 4 * i),
{
    if elem_size == 8 {
        decode_u64s(raw)
    } else {
        decode_u32s(raw)
    }
}

/// The entries of a 1-D array of centroid assignments, which must number `expected_len`.
pub fn assignments_extent(header: &NpyHeader, expected_len: usize) -> (r: Result<usize, NpyError>)
    ensures
        header.shape@.len() != 1 ==> r == Err::<usize, NpyError>(NpyError::WrongDimensions),
        header.shape@.len() == 1 && header.shape@[0] != expected_len ==> r == Err::<usize, NpyError>(NpyError::WrongLength),
        header.shape@.len() == 1 && header.shape@[0] == expected_len ==> r == Ok::<usize, NpyError>(expected_len),
{
    if header.shape.len() != 1 {
        return Err(NpyError::WrongDimensions);
    }
    if header.shape[0] != expected_len {
        return Err(NpyError::WrongLength);
    }
    Ok(expected_len)
}

/// Centroid assignments from their raw data: 64-bit or 32-bit unsigned entries.
pub fn decode_assignments(elem_size: usize, raw: &[u8]) -> (r: Result<Vec<usize>, NpyError>)
    ensures
        elem_size == 8 ==> (r matches Ok(a) && a@.len() == raw@.len() / 8
            && forall|i: int| 0 <= i < a@.len() ==> #[trigger] a@[i] == (le_u64_at(raw@, 8 * i) as u64) as usize),
        elem_size == 4 ==> (r matches Ok(a) && a@.len() == raw@.len() / 4
            && forall|i: int| 0 <= i < a@.len() ==> #[trigger] a@[i] as int == le_u32_at(raw@, 4 * i)),
        elem_size != 4 && elem_size != 8 ==> r == Err::<Vec<usize>, NpyError>(NpyError::UnsupportedElementSize),
{
    if elem_size == 8 {
        Ok(decode_u64s(raw))
    } else if elem_size == 4 {
        Ok(decode_u32s(raw))
    } else {
        Err(NpyError::UnsupportedElementSize)
    }
}

/// The entries of a 1-D array of document lengths.
pub fn doclens_extent(header: &NpyHeader) -> (r: Result<usize, NpyError>)
    ensures
        header.shape@.len() != 1 ==> r == Err::<usize, NpyError>(NpyError::WrongDimensions),
        header.shape@.len() == 1 ==> r == Ok::<usize, NpyError>(header.shape@[0]),
{
    if header.shape.len() != 1 {
        return Err(NpyError::WrongDimensions);
    }
    Ok(header.shape[0])
}

/// Document lengths from their raw data: 32-bit entries, unsigned (`u4`) or signed
/// (`i4`), or 64-bit entries (`u8` or `i8`, which give the same `usize`), converted to
/// `usize` as Rust's `as` does.
pub fn decode_doclens(elem_size: usize, unsigned: bool, raw: &[u8]) -> (r: Result<Vec<usize>, NpyError>)
    ensures
        elem_size == 4 && unsigned ==> (r matches Ok(a) && a@.len() == raw@.len() / 4
            && forall|i: int| 0 <= i < a@.len() ==> #[trigger] a@[i] as int == le_u32_at(raw@, 4 * i)),
        elem_size == 4 && !unsigned ==> (r matches Ok(a) && a@.len() == raw@.len() / 4
            && forall|i: int| 0 <= i < a@.len() ==> #[trigger] a@[i] == ((le_u32_at(raw@, 4 * i) as u32) as i32) as usize),
        elem_size == 8 ==> (r matches Ok(a) && a@.len() == raw@.len() / 8
            && forall|i: int| 0 <= i < a@.len() ==> #[trigger] a@[i] == (le_u64_at(raw@, 8 * i) as u64) as usize),
        elem_size != 4 && elem_size != 8 ==> r == Err::<Vec<usize>, NpyError>(NpyError::UnsupportedElementSize),
{
    if elem_size == 4 && unsigned {
        Ok(decode_u32s(raw))
    } else if elem_size == 4 {
        Ok(decode_i32s(raw))
    } else if elem_size == 8 {
        Ok(decode_u64s(raw))
    } else {
        Err(NpyError::UnsupportedElementSize)
    }
}

} // verus!
