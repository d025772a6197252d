//! Byte-level scanning primitives shared by the log formats.
//!
//! Every log line is handled as its UTF-8 bytes. All delimiters that the
//! formats search for are ASCII, so every position a scan stops at is a
//! character boundary, and the pieces cut out of a line are valid strings.

use vstd::prelude::*;
use vstd::string::StringSliceAdditionalSpecFns;
use vstd::utf8::*;

verus! {

broadcast use vstd::string::group_string_axioms;

/// The bytes of an ASCII string, one byte per character.
pub open spec fn ascii(s: Seq<char>) -> Seq<u8> {
    s.map_values(|c: char| c as u8)
}

/// All bytes are below 0x80.
pub open spec fn all_ascii(s: Seq<u8>) -> bool {
    forall|k: int| 0 <= k < s.len() ==> #[trigger] s[k] < 0x80
}

/// The UTF-8 bytes of a string slice.
pub open spec fn bytes_of(s: &str) -> Seq<u8> {
    s.spec_bytes()
}

/// Option of an index, seen as an integer.
pub open spec fn oi(o: Option<usize>) -> Option<int> {
    match o {
        Some(i) => Some(i as int),
        None => None,
    }
}

/// The bytes of an ASCII string literal.
pub fn lit_bytes(s: &str) -> (r: &[u8])
    requires
        s.is_ascii(),
    ensures
        r@ == ascii(s@),
        all_ascii(r@),
{
    proof {
        is_ascii_chars_encode_utf8(s@);
    }
    let r = s.as_bytes();
    assert(r@ =~= ascii(s@));
    r
}

// ------------------------------------------------------------ UTF-8 boundaries

/// A position that is safe to cut a valid UTF-8 byte string at: either end,
/// or next to an ASCII byte.
pub open spec fn cut_ok(b: Seq<u8>, i: int) -> bool {
    ||| i == 0
    ||| i == b.len()
    ||| (0 <= i < b.len() && b[i] < 0x80)
    ||| (0 < i <= b.len() && b[i - 1] < 0x80)
}

pub proof fn lemma_boundary_after_ascii(b: Seq<u8>, i: int)
    requires
        valid_utf8(b),
        0 <= i < b.len(),
        is_char_boundary(b, i),
        b[i] < 0x80,
    ensures
        is_char_boundary(b, i + 1),
    decreases b.len(),
{
    reveal_with_fuel(is_char_boundary, 2);
    let k = length_of_first_scalar(b);
    let rest = pop_first_scalar(b);
    if i == 0 {
        assert(k == 1);
    } else {
        assert(i - k >= 0);
        assert(rest[i - k] == b[i]);
        lemma_boundary_after_ascii(rest, i - k);
    }
}

/// A position next to an ASCII byte is a character boundary.
pub proof fn lemma_cut_ok(b: Seq<u8>, i: int)
    requires
        valid_utf8(b),
        0 <= i <= b.len(),
        cut_ok(b, i),
    ensures
        is_char_boundary(b, i),
{
    is_char_boundary_start_end_of_seq(b);
    if i == 0 || i == b.len() {
    } else if b[i] < 0x80 {
        is_char_boundary_iff_not_is_continuation_byte(b, i);
    } else {
        is_char_boundary_iff_not_is_continuation_byte(b, i - 1);
        lemma_boundary_after_ascii(b, i - 1);
    }
}

/// Cuts `line` at byte positions `s..e`.
pub fn slice_str<'a>(line: &'a str, s: usize, e: usize) -> (r: &'a str)
    requires
        s <= e <= bytes_of(line).len(),
        cut_ok(bytes_of(line), s as int),
        cut_ok(bytes_of(line), e as int),
    ensures
        bytes_of(r) == bytes_of(line).subrange(s as int, e as int),
{
    let ghost b = bytes_of(line);
    proof {
        encode_utf8_valid_utf8(line@);
        lemma_cut_ok(b, s as int);
    }
    let (_, tail) = line.split_at(s);
    let ghost t = bytes_of(tail);
    proof {
        encode_utf8_valid_utf8(tail@);
        assert(t =~= b.subrange(s as int, b.len() as int));
        assert(cut_ok(t, (e - s) as int));
        lemma_cut_ok(t, (e - s) as int);
    }
    let (mid, _) = tail.split_at(e - s);
    assert(bytes_of(mid) =~= b.subrange(s as int, e as int));
    mid
}

// ------------------------------------------------------------ searching

/// `lit` occurs at `i` and ends at or before `hi`.
pub open spec fn match_at(b: Seq<u8>, lit: Seq<u8>, i: int, hi: int) -> bool {
    &&& 0 <= i
    &&& i + lit.len() <= hi
    &&& hi <= b.len()
    &&& b.subrange(i, i + lit.len()) == lit
}

/// The first position at or after `i` where a nonempty `lit` occurs
/// entirely before `hi`.
pub open spec fn find_in(b: Seq<u8>, lit: Seq<u8>, i: int, hi: int) -> Option<int>
    decreases hi - i,
{
    if lit.len() == 0 || i < 0 || i + lit.len() > hi {
        None
    } else if match_at(b, lit, i, hi) {
        Some(i)
    } else {
        find_in(b, lit, i + 1, hi)
    }
}

/// [`find_in`] gives the least position at or after `lo` where `lit` occurs,
/// and `None` when it occurs nowhere there.
pub proof fn lemma_find_in_least(b: Seq<u8>, lit: Seq<u8>, lo: int, hi: int)
    requires
        0 <= lo,
        lit.len() > 0,
    ensures
        match find_in(b, lit, lo, hi) {
            Some(p) => lo <= p && match_at(b, lit, p, hi) && forall|j: int|
                lo <= j < p ==> !#[trigger] match_at(b, lit, j, hi),
            None => forall|j: int| lo <= j ==> !#[trigger] match_at(b, lit, j, hi),
        },
    decreases hi - lo,
{
    if lo + lit.len() > hi {
    } else if match_at(b, lit, lo, hi) {
    } else {
        lemma_find_in_least(b, lit, lo + 1, hi);
    }
}

/// Whether `lit` occurs at `i`, ending at or before `hi`.
pub fn matches_at(b: &[u8], lit: &[u8], i: usize, hi: usize) -> (r: bool)
    requires
        hi <= b@.len(),
    ensures
        r == match_at(b@, lit@, i as int, hi as int),
{
    if i > hi || lit.len() > hi - i {
        return false;
    }
    let mut k: usize = 0;
    while k < lit.len()
        invariant
            i + lit@.len() <= hi <= b@.len(),
            0 <= k <= lit@.len(),
            forall|j: int| 0 <= j < k ==> b@[i + j] == lit@[j],
        decreases lit@.len() - k,
    {
        if b[i + k] != lit[k] {
            assert(b@.subrange(i as int, i + lit@.len())[k as int] != lit@[k as int]);
            return false;
        }
        k += 1;
    }
    assert(b@.subrange(i as int, i + lit@.len()) =~= lit@);
    true
}

/// The first occurrence of `lit` at or after `from` that ends by `hi`.
pub fn find(b: &[u8], lit: &[u8], from: usize, hi: usize) -> (r: Option<usize>)
    requires
        hi <= b@.len(),
    ensures
        oi(r) == find_in(b@, lit@, from as int, hi as int),
{
    if lit.len() == 0 || from > hi || lit.len() > hi - from {
        return None;
    }
    let mut i = from;
    while i <= hi - lit.len()
        invariant
            hi <= b@.len(),
            lit@.len() > 0,
            from <= i,
            lit@.len() <= hi,
            find_in(b@, lit@, from as int, hi as int) == find_in(b@, lit@, i as int, hi as int),
        decreases hi - i,
    {
        if matches_at(b, lit, i, hi) {
            return Some(i);
        }
        i += 1;
    }
    None
}

/// A found literal starts and ends at safe cut positions.
pub proof fn lemma_find_cut_ok(b: Seq<u8>, lit: Seq<u8>, i: int, hi: int)
    requires
        all_ascii(lit),
        find_in(b, lit, i, hi) is Some,
    ensures
        ({
            let p = find_in(b, lit, i, hi)->0;
            &&& i <= p
            &&& match_at(b, lit, p, hi)
            &&& cut_ok(b, p)
            &&& cut_ok(b, p + lit.len())
        }),
    decreases hi - i,
{
    if match_at(b, lit, i, hi) {
        assert(b.subrange(i, i + lit.len())[0] == lit[0]);
        assert(b[i] == lit[0]);
        assert(b.subrange(i, i + lit.len())[lit.len() - 1] == lit[lit.len() - 1]);
    } else {
        lemma_find_cut_ok(b, lit, i + 1, hi);
    }
}


// ------------------------------------------------------------ byte classes

/// The ASCII byte classes that scans skip over.
#[derive(Clone, Copy, PartialEq, Eq)]
pub enum Class {
    /// `' '`
    Space,
    /// `' '` and `'\t'`
    SpaceTab,
    /// `' '`, `'\t'`, `'\r'` and `'\n'`
    Blank,
    /// ASCII whitespace: `' '`, `'\t'`, `'\n'`, form feed and `'\r'`
    AsciiWs,
    /// `';'` and `' '`
    SemiSpace,
    /// `','` and ASCII whitespace
    CommaWs,
    /// `'0'..='9'`
    Digit,
    /// `'A'..='Z'`, `'0'..='9'` and `'_'`
    UpperDigitUnderscore,
    /// hex digits and `'x'`/`'X'`
    HexOrX,
    /// `';'`
    Semi,
    /// `'A'..='Z'` and `'a'..='z'`
    Alpha,
}

pub open spec fn is_digit(c: u8) -> bool {
    48 <= c <= 57
}

pub open spec fn is_ascii_ws(c: u8) -> bool {
    c == 32 || c == 9 || c == 10 || c == 12 || c == 13
}

pub open spec fn in_class(k: Class, c: u8) -> bool {
    match k {
        Class::Space => c == 32,
        Class::SpaceTab => c == 32 || c == 9,
        Class::Blank => c == 32 || c == 9 || c == 13 || c == 10,
        Class::AsciiWs => is_ascii_ws(c),
        Class::SemiSpace => c == 59 || c == 32,
        Class::CommaWs => c == 44 || is_ascii_ws(c),
        Class::Digit => is_digit(c),
        Class::UpperDigitUnderscore => (65 <= c <= 90) || is_digit(c) || c == 95,
        Class::HexOrX => is_digit(c) || (65 <= c <= 70) || (97 <= c <= 102) || c == 120 || c == 88,
        Class::Semi => c == 59,
        Class::Alpha => (65 <= c <= 90) || (97 <= c <= 122),
    }
}

impl Class {
    pub fn has(&self, c: u8) -> (r: bool)
        ensures
            r == in_class(*self, c),
    {
        match self {
            Class::Space => c == 32,
            Class::SpaceTab => c == 32 || c == 9,
            Class::Blank => c == 32 || c == 9 || c == 13 || c == 10,
            Class::AsciiWs => c == 32 || c == 9 || c == 10 || c == 12 || c == 13,
            Class::SemiSpace => c == 59 || c == 32,
            Class::CommaWs => c == 44 || c == 32 || c == 9 || c == 10 || c == 12 || c == 13,
            Class::Digit => 48 <= c && c <= 57,
            Class::UpperDigitUnderscore => (65 <= c && c <= 90) || (48 <= c && c <= 57) || c == 95,
            Class::HexOrX => (48 <= c && c <= 57) || (65 <= c && c <= 70) || (97 <= c && c <= 102)
                || c == 120 || c == 88,
            Class::Semi => c == 59,
            Class::Alpha => (65 <= c && c <= 90) || (97 <= c && c <= 122),
        }
    }
}

/// The first position at or after `i` (and at most `hi`) whose byte is not in `k`.
pub open spec fn skip_fwd(b: Seq<u8>, k: Class, i: int, hi: int) -> int
    decreases hi - i,
{
    if i < hi && in_class(k, b[i]) {
        skip_fwd(b, k, i + 1, hi)
    } else {
        i
    }
}

/// The last position at or before `e` (and at least `lo`) whose preceding
/// byte is not in `k`.
pub open spec fn skip_back(b: Seq<u8>, k: Class, lo: int, e: int) -> int
    decreases e - lo,
{
    if e > lo && in_class(k, b[e - 1]) {
        skip_back(b, k, lo, e - 1)
    } else {
        e
    }
}

pub proof fn lemma_skip_fwd(b: Seq<u8>, k: Class, i: int, hi: int)
    requires
        0 <= i,
        hi <= b.len(),
    ensures
        i <= hi ==> i <= skip_fwd(b, k, i, hi) <= hi,
        i > hi ==> skip_fwd(b, k, i, hi) == i,
        forall|j: int| i <= j < skip_fwd(b, k, i, hi) ==> #[trigger] in_class(k, b[j]),
        skip_fwd(b, k, i, hi) < hi ==> !in_class(k, b[skip_fwd(b, k, i, hi)]),
        skip_fwd(b, k, i, hi) == i || b[skip_fwd(b, k, i, hi) - 1] < 0x80,
        cut_ok(b, i) ==> cut_ok(b, skip_fwd(b, k, i, hi)),
    decreases hi - i,
{
    if i < hi && in_class(k, b[i]) {
        lemma_skip_fwd(b, k, i + 1, hi);
    }
}

pub proof fn lemma_skip_back(b: Seq<u8>, k: Class, lo: int, e: int)
    requires
        0 <= lo,
        e <= b.len(),
    ensures
        lo <= e ==> lo <= skip_back(b, k, lo, e) <= e,
        lo > e ==> skip_back(b, k, lo, e) == e,
        forall|j: int| skip_back(b, k, lo, e) <= j < e ==> #[trigger] in_class(k, b[j]),
        skip_back(b, k, lo, e) > lo ==> !in_class(k, b[skip_back(b, k, lo, e) - 1]),
        skip_back(b, k, lo, e) == e || b[skip_back(b, k, lo, e) as int] < 0x80,
        cut_ok(b, e) ==> cut_ok(b, skip_back(b, k, lo, e)),
    decreases e - lo,
{
    if e > lo && in_class(k, b[e - 1]) {
        lemma_skip_back(b, k, lo, e - 1);
    }
}

/// Skips forward over bytes of class `k`, stopping at `hi`.
pub fn skip_forward(b: &[u8], k: Class, i: usize, hi: usize) -> (r: usize)
    requires
        hi <= b@.len(),
    ensures
        r == skip_fwd(b@, k, i as int, hi as int),
{
    let mut j = i;
    while j < hi && k.has(b[j])
        invariant
            hi <= b@.len(),
            i <= j,
            skip_fwd(b@, k, i as int, hi as int) == skip_fwd(b@, k, j as int, hi as int),
        decreases hi - j,
    {
        j += 1;
    }
    j
}

/// Skips backward over bytes of class `k`, stopping at `lo`.
pub fn skip_backward(b: &[u8], k: Class, lo: usize, e: usize) -> (r: usize)
    requires
        e <= b@.len(),
    ensures
        r == skip_back(b@, k, lo as int, e as int),
{
    let mut j = e;
    while j > lo && k.has(b[j - 1])
        invariant
            e <= b@.len(),
            j <= e,
            skip_back(b@, k, lo as int, e as int) == skip_back(b@, k, lo as int, j as int),
        decreases j,
    {
        j -= 1;
    }
    j
}

// ------------------------------------------------------------ decimal digits

/// The decimal value of the digits `b[i..j]`.
pub open spec fn dec_value(b: Seq<u8>, i: int, j: int) -> int
    decreases j - i,
{
    if j <= i {
        0
    } else {
        dec_value(b, i, j - 1) * 10 + (b[j - 1] - 48)
    }
}

/// The run of decimal digits starting at `i` (ending by `hi`) and its value,
/// when there is at least one digit and the value fits in an `i64`.
pub open spec fn take_digits(b: Seq<u8>, i: int, hi: int) -> Option<(int, int)> {
    let j = skip_fwd(b, Class::Digit, i, hi);
    if j <= i || dec_value(b, i, j) > i64::MAX {
        None
    } else {
        Some((dec_value(b, i, j), j))
    }
}

pub proof fn lemma_dec_value_mono(b: Seq<u8>, i: int, j: int, k: int)
    requires
        i <= j <= k <= b.len(),
        0 <= i,
        forall|m: int| i <= m < k ==> is_digit(#[trigger] b[m]),
    ensures
        0 <= dec_value(b, i, j) <= dec_value(b, i, k),
    decreases k - j,
{
    if j < k {
        lemma_dec_value_mono(b, i, j, k - 1);
        lemma_dec_value_nonneg(b, i, k - 1);
    } else {
        lemma_dec_value_nonneg(b, i, j);
    }
}

pub proof fn lemma_dec_value_nonneg(b: Seq<u8>, i: int, j: int)
    requires
        0 <= i,
        j <= b.len(),
        forall|m: int| i <= m < j ==> is_digit(#[trigger] b[m]),
    ensures
        0 <= dec_value(b, i, j),
    decreases j - i,
{
    if j > i {
        lemma_dec_value_nonneg(b, i, j - 1);
    }
}

/// Reads the decimal digits starting at `i`, stopping at `hi`; `None` when
/// there is no digit or the value does not fit in an `i64`.
pub fn take_i64(b: &[u8], i: usize, hi: usize) -> (r: Option<(i64, usize)>)
    requires
        hi <= b@.len(),
    ensures
        match r {
            Some((v, j)) => take_digits(b@, i as int, hi as int) == Some((v as int, j as int)),
            None => take_digits(b@, i as int, hi as int) is None,
        },
{
    if i >= hi {
        return None;
    }
    let ghost end = skip_fwd(b@, Class::Digit, i as int, hi as int);
    proof {
        lemma_skip_fwd(b@, Class::Digit, i as int, hi as int);
        assert forall|m: int| i <= m < end implies is_digit(#[trigger] b@[m]) by {
            assert(in_class(Class::Digit, b@[m]));
        }
    }
    let mut j = i;
    let mut v: i64 = 0;
    while j < hi && 48 <= b[j] && b[j] <= 57
        invariant
            hi <= b@.len(),
            i <= j <= end,
            end <= hi,
            0 <= v,
            end == skip_fwd(b@, Class::Digit, i as int, hi as int),
            skip_fwd(b@, Class::Digit, j as int, hi as int) == end,
            forall|m: int| i <= m < end ==> is_digit(#[trigger] b@[m]),
            v as int == dec_value(b@, i as int, j as int),
        decreases hi - j,
    {
        let d = (b[j] - 48) as i64;
        proof {
            assert(skip_fwd(b@, Class::Digit, j as int, hi as int) == skip_fwd(b@, Class::Digit, j + 1, hi as int));
            lemma_skip_fwd(b@, Class::Digit, j + 1, hi as int);
        }
        if v > (i64::MAX - d) / 10 {
            proof {
                assert(dec_value(b@, i as int, j + 1) == v * 10 + d);
                assert(v * 10 + d > i64::MAX) by (nonlinear_arith)
                    requires
                        v > (i64::MAX - d) / 10,
                        0 <= d <= 9,
                ;
                lemma_dec_value_mono(b@, i as int, j + 1, end);
            }
            return None;
        }
        proof {
            assert(v * 10 + d <= i64::MAX) by (nonlinear_arith)
                requires
                    v <= (i64::MAX - d) / 10,
                    0 <= d <= 9,
                    v >= 0,
            ;
            lemma_dec_value_nonneg(b@, i as int, j as int);
        }
        v = v * 10 + d;
        j += 1;
    }
    if j == i {
        None
    } else {
        Some((v, j))
    }
}


/// An `i64` narrowed to an `i32` when it fits.
pub open spec fn to_i32(v: i64) -> Option<i32> {
    if i32::MIN <= v <= i32::MAX {
        Some(v as i32)
    } else {
        None
    }
}

/// Narrows an `i64` to an `i32` when it fits.
pub fn narrow_i32(v: i64) -> (r: Option<i32>)
    ensures
        r == to_i32(v),
{
    if i32::MIN as i64 <= v && v <= i32::MAX as i64 {
        Some(v as i32)
    } else {
        None
    }
}

// ------------------------------------------------------------ tail markers

/// `pos` follows a `';'`, with only spaces between, and not before `lo`.
pub open spec fn field_boundary(b: Seq<u8>, lo: int, pos: int) -> bool {
    let j = skip_back(b, Class::Space, lo, pos);
    j > lo && b[j - 1] == 59
}

/// Scans from `i` for `lit` outside of quoted text. Quotes are `'` and `"`;
/// inside a quote a backslash escapes the next byte. With `boundary` set,
/// a match only counts at a field boundary (see [`field_boundary`]).
pub open spec fn marker_scan(
    b: Seq<u8>,
    lit: Seq<u8>,
    lo: int,
    boundary: bool,
    i: int,
    quote: Option<u8>,
    escaped: bool,
) -> Option<int>
    decreases b.len() - i,
{
    if i < 0 || i >= b.len() {
        None
    } else {
        match quote {
            Some(q) => {
                if escaped {
                    marker_scan(b, lit, lo, boundary, i + 1, Some(q), false)
                } else if b[i] == 92 {
                    marker_scan(b, lit, lo, boundary, i + 1, Some(q), true)
                } else if b[i] == q {
                    marker_scan(b, lit, lo, boundary, i + 1, None, false)
                } else {
                    marker_scan(b, lit, lo, boundary, i + 1, Some(q), false)
                }
            },
            None => {
                if b[i] == 39 || b[i] == 34 {
                    marker_scan(b, lit, lo, boundary, i + 1, Some(b[i]), escaped)
                } else if match_at(b, lit, i, b.len() as int) && (!boundary || field_boundary(
                    b,
                    lo,
                    i,
                )) {
                    Some(i)
                } else {
                    marker_scan(b, lit, lo, boundary, i + 1, None, escaped)
                }
            },
        }
    }
}

/// The first marker `lit` at or after `from` outside of quoted text.
pub open spec fn find_marker_spec(b: Seq<u8>, lit: Seq<u8>, lo: int, boundary: bool, from: int) -> Option<int> {
    marker_scan(b, lit, lo, boundary, from, None, false)
}

/// The quote open at position `i` when scanning starts at `from` outside of
/// quotes, and whether the byte before `i` is an escaping backslash inside
/// that quote.
pub open spec fn quote_state(b: Seq<u8>, from: int, i: int) -> (Option<u8>, bool)
    decreases i - from,
{
    if i <= from {
        (None, false)
    } else {
        let (q, esc) = quote_state(b, from, i - 1);
        let c = b[i - 1];
        match q {
            Some(qq) => if esc {
                (Some(qq), false)
            } else if c == 92 {
                (Some(qq), true)
            } else if c == qq {
                (None, false)
            } else {
                (Some(qq), false)
            },
            None => if c == 39 || c == 34 {
                (Some(c), esc)
            } else {
                (None, esc)
            },
        }
    }
}

/// `lit` occurs at `i`, outside of the quoted spans opened at or after
/// `from`, and (with `boundary` set) at a field boundary.
pub open spec fn marker_hit(b: Seq<u8>, lit: Seq<u8>, lo: int, boundary: bool, from: int, i: int) -> bool {
    &&& from <= i < b.len()
    &&& quote_state(b, from, i).0 is None
    &&& b[i] != 39 && b[i] != 34
    &&& match_at(b, lit, i, b.len() as int)
    &&& (!boundary || field_boundary(b, lo, i))
}

proof fn lemma_marker_scan_least(
    b: Seq<u8>,
    lit: Seq<u8>,
    lo: int,
    boundary: bool,
    from: int,
    i: int,
)
    requires
        0 <= from <= i,
        forall|j: int| from <= j < i ==> !#[trigger] marker_hit(b, lit, lo, boundary, from, j),
    ensures
        ({
            let (q, e) = quote_state(b, from, i);
            match marker_scan(b, lit, lo, boundary, i, q, e) {
                Some(p) => marker_hit(b, lit, lo, boundary, from, p) && forall|j: int|
                    from <= j < p ==> !#[trigger] marker_hit(b, lit, lo, boundary, from, j),
                None => forall|j: int|
                    from <= j < b.len() ==> !#[trigger] marker_hit(b, lit, lo, boundary, from, j),
            }
        }),
    decreases b.len() - i,
{
    let (q, e) = quote_state(b, from, i);
    if i < b.len() {
        assert(quote_state(b, from, i + 1) == (match q {
            Some(qq) => if e {
                (Some(qq), false)
            } else if b[i] == 92 {
                (Some(qq), true)
            } else if b[i] == qq {
                (None, false)
            } else {
                (Some(qq), false)
            },
            None => if b[i] == 39 || b[i] == 34 {
                (Some(b[i]), e)
            } else {
                (None, e)
            },
        }));
        if marker_hit(b, lit, lo, boundary, from, i) {
        } else {
            assert forall|j: int| from <= j < i + 1 implies !#[trigger] marker_hit(
                b,
                lit,
                lo,
                boundary,
                from,
                j,
            ) by {}
            lemma_marker_scan_least(b, lit, lo, boundary, from, i + 1);
        }
    }
}

/// The marker scan in declarative form: it finds the least position at or
/// after `from` where `lit` occurs outside of quoted spans (quotes `'` and
/// `"`, inside which a backslash escapes the next byte) and, with `boundary`
/// set, after a `';'` and spaces; `None` when there is no such position.
pub proof fn lemma_find_marker_least(
    b: Seq<u8>,
    lit: Seq<u8>,
    lo: int,
    boundary: bool,
    from: int,
)
    requires
        0 <= from,
    ensures
        match find_marker_spec(b, lit, lo, boundary, from) {
            Some(p) => marker_hit(b, lit, lo, boundary, from, p) && forall|j: int|
                from <= j < p ==> !#[trigger] marker_hit(b, lit, lo, boundary, from, j),
            None => forall|j: int|
                from <= j < b.len() ==> !#[trigger] marker_hit(b, lit, lo, boundary, from, j),
        },
{
    lemma_marker_scan_least(b, lit, lo, boundary, from, from);
}

pub proof fn lemma_marker_scan(
    b: Seq<u8>,
    lit: Seq<u8>,
    lo: int,
    boundary: bool,
    i: int,
    quote: Option<u8>,
    escaped: bool,
)
    requires
        all_ascii(lit),
        lit.len() > 0,
    ensures
        marker_scan(b, lit, lo, boundary, i, quote, escaped) matches Some(p) ==> {
            &&& i <= p
            &&& match_at(b, lit, p, b.len() as int)
            &&& cut_ok(b, p)
            &&& cut_ok(b, p + lit.len())
        },
    decreases b.len() - i,
{
    if i < 0 || i >= b.len() {
    } else {
        match quote {
            Some(q) => {
                if escaped {
                    lemma_marker_scan(b, lit, lo, boundary, i + 1, Some(q), false);
                } else if b[i] == 92 {
                    lemma_marker_scan(b, lit, lo, boundary, i + 1, Some(q), true);
                } else if b[i] == q {
                    lemma_marker_scan(b, lit, lo, boundary, i + 1, None, false);
                } else {
                    lemma_marker_scan(b, lit, lo, boundary, i + 1, Some(q), false);
                }
            },
            None => {
                if b[i] == 39 || b[i] == 34 {
                    lemma_marker_scan(b, lit, lo, boundary, i + 1, Some(b[i]), escaped);
                } else if match_at(b, lit, i, b.len() as int) && (!boundary || field_boundary(
                    b,
                    lo,
                    i,
                )) {
                    assert(b.subrange(i, i + lit.len())[0] == lit[0]);
                    assert(b.subrange(i, i + lit.len())[lit.len() - 1] == lit[lit.len() - 1]);
                } else {
                    lemma_marker_scan(b, lit, lo, boundary, i + 1, None, escaped);
                }
            },
        }
    }
}

/// Finds a tail marker; see [`marker_scan`].
pub fn find_marker(b: &[u8], lit: &[u8], lo: usize, boundary: bool, from: usize) -> (r: Option<usize>)
    ensures
        oi(r) == find_marker_spec(b@, lit@, lo as int, boundary, from as int),
{
    let mut i = from;
    let mut quote: Option<u8> = None;
    let mut escaped = false;
    while i < b.len()
        invariant
            from <= i,
            find_marker_spec(b@, lit@, lo as int, boundary, from as int) == marker_scan(
                b@,
                lit@,
                lo as int,
                boundary,
                i as int,
                quote,
                escaped,
            ),
        decreases b@.len() - i,
    {
        let ch = b[i];
        match quote {
            Some(q) => {
                if escaped {
                    escaped = false;
                } else if ch == 92 {
                    escaped = true;
                } else if ch == q {
                    quote = None;
                }
                i += 1;
            },
            None => {
                if ch == 39 || ch == 34 {
                    quote = Some(ch);
                    i += 1;
                } else {
                    if matches_at(b, lit, i, b.len()) {
                        if !boundary {
                            return Some(i);
                        }
                        let j = skip_backward(b, Class::Space, lo, i);
                        proof {
                            lemma_skip_back(b@, Class::Space, lo as int, i as int);
                        }
                        if j > lo && b[j - 1] == 59 {
                            return Some(i);
                        }
                    }
                    i += 1;
                }
            },
        }
    }
    None
}


// ------------------------------------------------------------ calendar

/// Division rounding toward zero, as Rust's integer `/` does.
pub open spec fn trunc_div(a: int, d: int) -> int {
    if a >= 0 {
        a / d
    } else {
        -((-a) / d)
    }
}

/// Days from 1970-01-01 to the given civil date (Howard Hinnant's
/// `days_from_civil`, with Rust's rounding toward zero).
pub open spec fn days_from_civil(y: int, m: int, d: int) -> int {
    let y = if m <= 2 {
        y - 1
    } else {
        y
    };
    let era = trunc_div(
        if y >= 0 {
            y
        } else {
            y - 399
        },
        400,
    );
    let yoe = y - era * 400;
    let mp = if m > 2 {
        m - 3
    } else {
        m + 9
    };
    let doy = trunc_div(153 * mp + 2, 5) + d - 1;
    let doe = yoe * 365 + trunc_div(yoe, 4) - trunc_div(yoe, 100) + doy;
    era * 146097 + doe - 719468
}

/// Milliseconds since the epoch, before adding the millisecond field.
pub open spec fn civil_seconds_millis(y: int, mo: int, d: int, h: int, mi: int, s: int) -> int {
    (days_from_civil(y, mo, d) * 86400 + h * 3600 + mi * 60 + s) * 1000
}

/// Computes [`civil_seconds_millis`] for fields of at most four (year) and
/// two (the others) decimal digits.
pub fn civil_to_millis(y: i64, mo: i64, d: i64, h: i64, mi: i64, s: i64) -> (r: i64)
    requires
        0 <= y <= 9999,
        0 <= mo <= 99,
        0 <= d <= 99,
        0 <= h <= 99,
        0 <= mi <= 99,
        0 <= s <= 99,
    ensures
        r == civil_seconds_millis(y as int, mo as int, d as int, h as int, mi as int, s as int),
        -100_000_000_000_000 <= r <= 300_000_000_000_000,
{
    let y2 = if mo <= 2 {
        y - 1
    } else {
        y
    };
    let era = if y2 >= 0 {
        y2 / 400
    } else {
        -((399 - y2) / 400)
    };
    assert(-1 <= era <= 24);
    let yoe = y2 - era * 400;
    assert(0 <= yoe <= 399);
    let mp = if mo > 2 {
        mo - 3
    } else {
        mo + 9
    };
    let doy = (153 * mp + 2) / 5 + d - 1;
    assert(-1 <= doy <= 3100) by (nonlinear_arith)
        requires
            0 <= mp <= 96,
            0 <= d <= 99,
            doy == (153 * mp + 2) / 5 + d - 1,
    ;
    let doe = yoe * 365 + yoe / 4 - yoe / 100 + doy;
    assert(-1 <= doe <= 150000) by (nonlinear_arith)
        requires
            0 <= yoe <= 399,
            -1 <= doy <= 3100,
            doe == yoe * 365 + yoe / 4 - yoe / 100 + doy,
    ;
    let days = era * 146097 + doe - 719468;
    assert(-870000 <= days <= 3000000) by (nonlinear_arith)
        requires
            -1 <= era <= 24,
            -1 <= doe <= 150000,
            days == era * 146097 + doe - 719468,
    ;
    let secs = days * 86400 + h * 3600 + mi * 60 + s;
    assert(-80_000_000_000 <= secs <= 260_000_000_000) by (nonlinear_arith)
        requires
            -870000 <= days <= 3000000,
            0 <= h <= 99,
            0 <= mi <= 99,
            0 <= s <= 99,
            secs == days * 86400 + h * 3600 + mi * 60 + s,
    ;
    secs * 1000
}

/// Whether `y` is a leap year of the Gregorian calendar.
pub open spec fn is_leap(y: int) -> bool {
    y % 4 == 0 && (y % 100 != 0 || y % 400 == 0)
}

/// The number of days of year `y`.
pub open spec fn year_days(y: int) -> int {
    if is_leap(y) {
        366
    } else {
        365
    }
}

/// The number of days of month `m` (1 to 12) of year `y`.
pub open spec fn month_days(y: int, m: int) -> int {
    if m == 2 {
        if is_leap(y) {
            29
        } else {
            28
        }
    } else if m == 4 || m == 6 || m == 9 || m == 11 {
        30
    } else {
        31
    }
}

/// The days of year `y` before the first of month `m`.
pub open spec fn days_before_month(y: int, m: int) -> int
    decreases m,
{
    if m <= 1 {
        0
    } else {
        days_before_month(y, m - 1) + month_days(y, m - 1)
    }
}

/// A date of the Gregorian calendar.
pub open spec fn valid_date(y: int, m: int, d: int) -> bool {
    1 <= m <= 12 && 1 <= d <= month_days(y, m)
}

/// Days from 0000-03-01 to the first of March of year `y`.
spec fn march_days(y: int) -> int {
    (y / 400) * 146097 + 365 * (y % 400) + (y % 400) / 4 - (y % 400) / 100
}

spec fn month_offset(m: int) -> int {
    (153 * (if m > 2 {
        m - 3
    } else {
        m + 9
    }) + 2) / 5
}

proof fn lemma_civil_is_march(y: int, m: int, d: int)
    requires
        0 <= y <= 10000,
        1 <= m <= 12,
    ensures
        days_from_civil(y, m, d) == march_days(if m <= 2 {
            y - 1
        } else {
            y
        }) + month_offset(m) + d - 1 - 719468,
{
    let yy = if m <= 2 {
        y - 1
    } else {
        y
    };
    if yy < 0 {
        assert(yy == -1);
        assert(trunc_div(yy - 399, 400) == -1);
        assert(yy / 400 == -1);
        assert(yy % 400 == 399);
    } else {
        assert(trunc_div(yy, 400) == yy / 400);
        assert(yy == (yy / 400) * 400 + yy % 400);
    }
}

proof fn lemma_march_step(y: int)
    requires
        -1 <= y <= 10000,
    ensures
        march_days(y + 1) == march_days(y) + year_days(y + 1),
{
    let q = y / 400;
    let r = y % 400;
    assert(y == q * 400 + r);
    assert(0 <= r < 400);
    if r < 399 {
        assert((y + 1) / 400 == q);
        assert((y + 1) % 400 == r + 1);
        assert((y + 1) % 4 == (r + 1) % 4);
        assert((y + 1) % 100 == (r + 1) % 100);
        assert((y + 1) % 400 != 0);
    } else {
        assert((y + 1) / 400 == q + 1);
        assert((y + 1) % 400 == 0);
        assert((y + 1) % 4 == 0);
        assert((y + 1) % 100 == 0);
    }
}

/// [`days_from_civil`] counts calendar days: 1970-01-01 is day 0, a date
/// is the first of its year plus the days before its month and day, and
/// the first of a year follows the first of the year before by that year's
/// length.
pub proof fn lemma_days_from_civil_counts_days(y: int, m: int, d: int)
    requires
        0 <= y <= 9999,
        1 <= m <= 12,
    ensures
        days_from_civil(1970, 1, 1) == 0,
        days_from_civil(y, m, d) == days_from_civil(y, 1, 1) + days_before_month(y, m) + d - 1,
        days_from_civil(y + 1, 1, 1) == days_from_civil(y, 1, 1) + year_days(y),
{
    lemma_civil_is_march(1970, 1, 1);
    lemma_civil_is_march(y, m, d);
    lemma_civil_is_march(y, 1, 1);
    lemma_civil_is_march(y + 1, 1, 1);
    lemma_march_step(y - 1);
    reveal_with_fuel(days_before_month, 12);
    assert(march_days(1969) == 719468 - 306);
}

proof fn lemma_month_table(y: int, m: int)
    requires
        1 <= m <= 12,
    ensures
        days_before_month(y, m) + month_days(y, m) <= year_days(y),
        forall|m2: int| m < m2 <= 12 ==> days_before_month(y, m) + month_days(y, m)
            <= #[trigger] days_before_month(y, m2),
        days_before_month(y, m) >= 0,
        month_days(y, m) >= 1,
{
    reveal_with_fuel(days_before_month, 13);
    assert(days_before_month(y, 13) == year_days(y));
    assert forall|m2: int| m < m2 <= 12 implies days_before_month(y, m) + month_days(y, m)
        <= #[trigger] days_before_month(y, m2) by {
        reveal_with_fuel(days_before_month, 13);
    }
}

proof fn lemma_years_ordered(y1: int, y2: int)
    requires
        0 <= y1 < y2 <= 9999,
    ensures
        days_from_civil(y1, 1, 1) + year_days(y1) <= days_from_civil(y2, 1, 1),
    decreases y2 - y1,
{
    lemma_days_from_civil_counts_days(y1, 1, 1);
    if y1 + 1 < y2 {
        lemma_years_ordered(y1 + 1, y2);
        lemma_days_from_civil_counts_days(y1 + 1, 1, 1);
    }
}

/// A timestamp's fields: year, month, day, hour, minute, second, millisecond.
pub type Stamp = (int, int, int, int, int, int, int);

/// A real date and time of day, in a year of at most four digits.
pub open spec fn valid_stamp(t: Stamp) -> bool {
    &&& 0 <= t.0 <= 9999
    &&& valid_date(t.0, t.1, t.2)
    &&& 0 <= t.3 < 24 && 0 <= t.4 < 60 && 0 <= t.5 < 60 && 0 <= t.6 < 1000
}

/// Milliseconds since 1970-01-01 00:00:00.000 UTC.
pub open spec fn stamp_millis(t: Stamp) -> int {
    civil_seconds_millis(t.0, t.1, t.2, t.3, t.4, t.5) + t.6
}

/// `a` comes before `b`, field by field from the year down.
pub open spec fn stamp_before(a: Stamp, b: Stamp) -> bool {
    ||| a.0 < b.0
    ||| a.0 == b.0 && a.1 < b.1
    ||| a.0 == b.0 && a.1 == b.1 && a.2 < b.2
    ||| a.0 == b.0 && a.1 == b.1 && a.2 == b.2 && a.3 < b.3
    ||| a.0 == b.0 && a.1 == b.1 && a.2 == b.2 && a.3 == b.3 && a.4 < b.4
    ||| a.0 == b.0 && a.1 == b.1 && a.2 == b.2 && a.3 == b.3 && a.4 == b.4 && a.5 < b.5
    ||| a.0 == b.0 && a.1 == b.1 && a.2 == b.2 && a.3 == b.3 && a.4 == b.4 && a.5 == b.5 && a.6
        < b.6
}

proof fn lemma_days_ordered(a: Stamp, b: Stamp)
    requires
        valid_stamp(a),
        valid_stamp(b),
        a.0 < b.0 || (a.0 == b.0 && a.1 < b.1) || (a.0 == b.0 && a.1 == b.1 && a.2 < b.2),
    ensures
        days_from_civil(a.0, a.1, a.2) < days_from_civil(b.0, b.1, b.2),
{
    lemma_days_from_civil_counts_days(a.0, a.1, a.2);
    lemma_days_from_civil_counts_days(b.0, b.1, b.2);
    lemma_month_table(a.0, a.1);
    lemma_month_table(b.0, b.1);
    if a.0 < b.0 {
        lemma_years_ordered(a.0, b.0);
    }
}

/// Milliseconds of a time of day.
spec fn day_millis(h: int, mi: int, s: int, ms: int) -> int {
    (h * 3600 + mi * 60 + s) * 1000 + ms
}

/// Epoch milliseconds count real time: for real dates and times, one
/// timestamp comes before another exactly when it has fewer milliseconds
/// since 1970-01-01 00:00:00.000 UTC, and [`days_from_civil`] counts the
/// calendar's days (see [`lemma_days_from_civil_counts_days`]).
pub proof fn lemma_stamp_millis_monotone(a: Stamp, b: Stamp)
    requires
        valid_stamp(a),
        valid_stamp(b),
    ensures
        stamp_before(a, b) <==> stamp_millis(a) < stamp_millis(b),
{
    let da = days_from_civil(a.0, a.1, a.2);
    let db = days_from_civil(b.0, b.1, b.2);
    let ta = day_millis(a.3, a.4, a.5, a.6);
    let tb = day_millis(b.3, b.4, b.5, b.6);
    assert(stamp_millis(a) == da * 86_400_000 + ta);
    assert(stamp_millis(b) == db * 86_400_000 + tb);
    assert(0 <= ta < 86_400_000 && 0 <= tb < 86_400_000);
    if a.0 < b.0 || (a.0 == b.0 && a.1 < b.1) || (a.0 == b.0 && a.1 == b.1 && a.2 < b.2) {
        lemma_days_ordered(a, b);
        assert(da * 86_400_000 + ta < db * 86_400_000 + tb) by (nonlinear_arith)
            requires
                da < db,
                0 <= ta < 86_400_000,
                0 <= tb,
        ;
    } else if b.0 < a.0 || (a.0 == b.0 && b.1 < a.1) || (a.0 == b.0 && a.1 == b.1 && b.2 < a.2) {
        lemma_days_ordered(b, a);
        assert(db * 86_400_000 + tb < da * 86_400_000 + ta) by (nonlinear_arith)
            requires
                db < da,
                0 <= tb < 86_400_000,
                0 <= ta,
        ;
    } else {
        assert(da == db);
    }
}

/// Bounds of [`civil_seconds_millis`] for fields of at most four (year) and
/// two (the others) decimal digits.
pub proof fn lemma_civil_bounds(y: int, mo: int, d: int, h: int, mi: int, s: int)
    requires
        0 <= y <= 9999,
        0 <= mo <= 99,
        0 <= d <= 99,
        0 <= h <= 99,
        0 <= mi <= 99,
        0 <= s <= 99,
    ensures
        -100_000_000_000_000 <= civil_seconds_millis(y, mo, d, h, mi, s) <= 300_000_000_000_000,
{
    let y2 = if mo <= 2 {
        y - 1
    } else {
        y
    };
    let era = trunc_div(
        if y2 >= 0 {
            y2
        } else {
            y2 - 399
        },
        400,
    );
    assert(-1 <= era <= 24);
    let yoe = y2 - era * 400;
    assert(0 <= yoe <= 399);
    let mp = if mo > 2 {
        mo - 3
    } else {
        mo + 9
    };
    let doy = trunc_div(153 * mp + 2, 5) + d - 1;
    assert(-1 <= doy <= 3100) by (nonlinear_arith)
        requires
            0 <= mp <= 96,
            0 <= d <= 99,
            doy == (153 * mp + 2) / 5 + d - 1,
    ;
    let doe = yoe * 365 + trunc_div(yoe, 4) - trunc_div(yoe, 100) + doy;
    assert(-1 <= doe <= 150000) by (nonlinear_arith)
        requires
            0 <= yoe <= 399,
            -1 <= doy <= 3100,
            doe == yoe * 365 + yoe / 4 - yoe / 100 + doy,
    ;
    let days = era * 146097 + doe - 719468;
    assert(days == days_from_civil(y, mo, d));
    assert(-870000 <= days <= 3000000) by (nonlinear_arith)
        requires
            -1 <= era <= 24,
            -1 <= doe <= 150000,
            days == era * 146097 + doe - 719468,
    ;
    let secs = days * 86400 + h * 3600 + mi * 60 + s;
    assert(-80_000_000_000 <= secs <= 260_000_000_000) by (nonlinear_arith)
        requires
            -870000 <= days <= 3000000,
            0 <= h <= 99,
            0 <= mi <= 99,
            0 <= s <= 99,
            secs == days * 86400 + h * 3600 + mi * 60 + s,
    ;
}

pub open spec fn pow10(n: nat) -> int
    decreases n,
{
    if n == 0 {
        1
    } else {
        10 * pow10((n - 1) as nat)
    }
}

/// A run of `j - i` digits has a value below `10^(j-i)`.
pub proof fn lemma_dec_bound(b: Seq<u8>, i: int, j: int)
    requires
        0 <= i <= j <= b.len(),
        forall|m: int| i <= m < j ==> is_digit(#[trigger] b[m]),
    ensures
        0 <= dec_value(b, i, j) < pow10((j - i) as nat),
    decreases j - i,
{
    if j > i {
        lemma_dec_bound(b, i, j - 1);
        let p = pow10((j - 1 - i) as nat);
        let v = dec_value(b, i, j - 1);
        assert(v * 10 + (b[j - 1] - 48) < p * 10) by (nonlinear_arith)
            requires
                0 <= v < p,
                0 <= b[j - 1] - 48 <= 9,
        ;
    }
}

/// Facts about a digit run read by [`take_digits`].
pub proof fn lemma_take_digits(b: Seq<u8>, i: int, hi: int)
    requires
        0 <= i,
        hi <= b.len(),
    ensures
        take_digits(b, i, hi) matches Some((v, j)) ==> {
            &&& i < j <= hi
            &&& 0 <= v < pow10((j - i) as nat)
            &&& v <= i64::MAX
            &&& forall|m: int| i <= m < j ==> is_digit(#[trigger] b[m])
            &&& (j < hi ==> !is_digit(b[j]))
            &&& cut_ok(b, j)
        },
{
    lemma_skip_fwd(b, Class::Digit, i, hi);
    let j = skip_fwd(b, Class::Digit, i, hi);
    if i < j {
        assert forall|m: int| i <= m < j implies is_digit(#[trigger] b[m]) by {
            assert(in_class(Class::Digit, b[m]));
        }
        lemma_dec_bound(b, i, j);
    }
}

/// When byte `k` is not a digit, a digit run starting at or before `k` ends by `k`.
pub proof fn lemma_digits_stop(b: Seq<u8>, i: int, hi: int, k: int)
    requires
        0 <= i <= k < hi <= b.len(),
        !is_digit(b[k]),
    ensures
        take_digits(b, i, hi) matches Some((v, j)) ==> j <= k,
{
    lemma_skip_fwd(b, Class::Digit, i, hi);
    let j = skip_fwd(b, Class::Digit, i, hi);
    if j > k {
        assert(in_class(Class::Digit, b[k]));
    }
}


// ------------------------------------------------------------ Unicode whitespace

/// The characters with the Unicode `White_Space` property (those that
/// `char::is_whitespace` and `str::trim` recognise) have these UTF-8
/// encodings: U+0009..U+000D and U+0020 (one byte), U+0085 and U+00A0
/// (`C2 85`, `C2 A0`), U+1680 (`E1 9A 80`), U+2000..U+200A (`E2 80 80..8A`),
/// U+2028, U+2029, U+202F (`E2 80 A8`, `A9`, `AF`), U+205F (`E2 81 9F`) and
/// U+3000 (`E3 80 80`).
pub open spec fn ws1(c: u8) -> bool {
    (9 <= c <= 13) || c == 32
}

pub open spec fn ws2(c0: u8, c1: u8) -> bool {
    c0 == 0xC2 && (c1 == 0x85 || c1 == 0xA0)
}

pub open spec fn ws3(c0: u8, c1: u8, c2: u8) -> bool {
    ||| (c0 == 0xE1 && c1 == 0x9A && c2 == 0x80)
    ||| (c0 == 0xE2 && c1 == 0x80 && ((0x80 <= c2 <= 0x8A) || c2 == 0xA8 || c2 == 0xA9 || c2
        == 0xAF))
    ||| (c0 == 0xE2 && c1 == 0x81 && c2 == 0x9F)
    ||| (c0 == 0xE3 && c1 == 0x80 && c2 == 0x80)
}

/// The byte length of a whitespace character starting at `i` and ending by
/// `hi`; 0 when there is none.
pub open spec fn ws_at(b: Seq<u8>, i: int, hi: int) -> int {
    if 0 <= i < hi && ws1(b[i]) {
        1
    } else if 0 <= i && i + 2 <= hi && ws2(b[i], b[i + 1]) {
        2
    } else if 0 <= i && i + 3 <= hi && ws3(b[i], b[i + 1], b[i + 2]) {
        3
    } else {
        0
    }
}

/// The byte length of a whitespace character ending at `e` and starting at
/// or after `lo`; 0 when there is none.
pub open spec fn ws_before(b: Seq<u8>, lo: int, e: int) -> int {
    if lo <= e - 1 && e - 1 >= 0 && ws1(b[e - 1]) {
        1
    } else if lo <= e - 2 && e - 2 >= 0 && ws2(b[e - 2], b[e - 1]) {
        2
    } else if lo <= e - 3 && e - 3 >= 0 && ws3(b[e - 3], b[e - 2], b[e - 1]) {
        3
    } else {
        0
    }
}

/// `b[s..e]` with leading whitespace removed: its new start.
pub open spec fn trim_ws_start(b: Seq<u8>, s: int, e: int) -> int
    decreases e - s,
{
    if s < e && ws_at(b, s, e) > 0 {
        trim_ws_start(b, s + ws_at(b, s, e), e)
    } else {
        s
    }
}

/// `b[s..e]` with trailing whitespace removed: its new end.
pub open spec fn trim_ws_end(b: Seq<u8>, s: int, e: int) -> int
    decreases e - s,
{
    if s < e && ws_before(b, s, e) > 0 {
        trim_ws_end(b, s, e - ws_before(b, s, e))
    } else {
        e
    }
}

/// `b[s..e]` as `str::trim` leaves it.
pub open spec fn utrim(b: Seq<u8>, s: int, e: int) -> (int, int) {
    let s2 = trim_ws_start(b, s, e);
    (s2, trim_ws_end(b, s2, e))
}

/// The first position in `i..hi` where a whitespace character starts.
pub open spec fn find_ws(b: Seq<u8>, i: int, hi: int) -> Option<int>
    decreases hi - i,
{
    if i >= hi || i < 0 {
        None
    } else if ws_at(b, i, hi) > 0 {
        Some(i)
    } else {
        find_ws(b, i + 1, hi)
    }
}

pub fn ws_len_at(b: &[u8], i: usize, hi: usize) -> (r: usize)
    requires
        hi <= b@.len(),
    ensures
        r == ws_at(b@, i as int, hi as int),
        r <= 3,
{
    if i < hi && ((9 <= b[i] && b[i] <= 13) || b[i] == 32) {
        1
    } else if i < hi && hi - i >= 2 && b[i] == 0xC2 && (b[i + 1] == 0x85 || b[i + 1] == 0xA0) {
        2
    } else if i < hi && hi - i >= 3 && ((b[i] == 0xE1 && b[i + 1] == 0x9A && b[i + 2] == 0x80) || (
    b[i] == 0xE2 && b[i + 1] == 0x80 && ((0x80 <= b[i + 2] && b[i + 2] <= 0x8A) || b[i + 2] == 0xA8
        || b[i + 2] == 0xA9 || b[i + 2] == 0xAF)) || (b[i] == 0xE2 && b[i + 1] == 0x81 && b[i + 2]
        == 0x9F) || (b[i] == 0xE3 && b[i + 1] == 0x80 && b[i + 2] == 0x80)) {
        3
    } else {
        0
    }
}

pub fn ws_len_before(b: &[u8], lo: usize, e: usize) -> (r: usize)
    requires
        e <= b@.len(),
    ensures
        r == ws_before(b@, lo as int, e as int),
        r <= 3,
{
    if e >= 1 && lo <= e - 1 && ((9 <= b[e - 1] && b[e - 1] <= 13) || b[e - 1] == 32) {
        1
    } else if e >= 2 && lo <= e - 2 && b[e - 2] == 0xC2 && (b[e - 1] == 0x85 || b[e - 1] == 0xA0) {
        2
    } else if e >= 3 && lo <= e - 3 && ((b[e - 3] == 0xE1 && b[e - 2] == 0x9A && b[e - 1] == 0x80)
        || (b[e - 3] == 0xE2 && b[e - 2] == 0x80 && ((0x80 <= b[e - 1] && b[e - 1] <= 0x8A) || b[e
        - 1] == 0xA8 || b[e - 1] == 0xA9 || b[e - 1] == 0xAF)) || (b[e - 3] == 0xE2 && b[e - 2]
        == 0x81 && b[e - 1] == 0x9F) || (b[e - 3] == 0xE3 && b[e - 2] == 0x80 && b[e - 1] == 0x80)) {
        3
    } else {
        0
    }
}

/// A character boundary of valid UTF-8 bytes.
pub open spec fn bnd(b: Seq<u8>, i: int) -> bool {
    valid_utf8(b) && 0 <= i <= b.len() && is_char_boundary(b, i)
}

pub proof fn lemma_next_scalar(b: Seq<u8>, i: int)
    requires
        valid_utf8(b),
        0 <= i < b.len(),
        is_char_boundary(b, i),
    ensures
        is_char_boundary(b, i + length_of_first_scalar(b.subrange(i, b.len() as int))),
        i + length_of_first_scalar(b.subrange(i, b.len() as int)) <= b.len(),
    decreases b.len(),
{
    reveal_with_fuel(is_char_boundary, 2);
    let k = length_of_first_scalar(b);
    let rest = pop_first_scalar(b);
    if i == 0 {
        assert(b.subrange(0, b.len() as int) =~= b);
        is_char_boundary_start_end_of_seq(rest);
    } else {
        assert(rest.subrange(i - k, rest.len() as int) =~= b.subrange(i, b.len() as int));
        lemma_next_scalar(rest, i - k);
    }
}

pub proof fn lemma_ws_at_bnd(b: Seq<u8>, i: int, hi: int)
    requires
        bnd(b, i),
        hi <= b.len(),
        ws_at(b, i, hi) > 0,
    ensures
        bnd(b, i + ws_at(b, i, hi)),
{
    let k = ws_at(b, i, hi);
    if k == 1 {
        lemma_boundary_after_ascii(b, i);
    } else {
        lemma_next_scalar(b, i);
        let t = b.subrange(i, b.len() as int);
        assert(t[0] == b[i]);
    }
}

pub proof fn lemma_ws_before_bnd(b: Seq<u8>, lo: int, e: int)
    requires
        bnd(b, e),
        ws_before(b, lo, e) > 0,
    ensures
        bnd(b, e - ws_before(b, lo, e)),
{
    let k = ws_before(b, lo, e);
    is_char_boundary_iff_not_is_continuation_byte(b, e - k);
}

pub proof fn lemma_trim_ws_start(b: Seq<u8>, s: int, e: int)
    requires
        bnd(b, s),
        e <= b.len(),
    ensures
        bnd(b, trim_ws_start(b, s, e)),
        s <= e ==> s <= trim_ws_start(b, s, e) <= e,
        s > e ==> trim_ws_start(b, s, e) == s,
    decreases e - s,
{
    if s < e && ws_at(b, s, e) > 0 {
        lemma_ws_at_bnd(b, s, e);
        lemma_trim_ws_start(b, s + ws_at(b, s, e), e);
    }
}

pub proof fn lemma_trim_ws_end(b: Seq<u8>, s: int, e: int)
    requires
        bnd(b, e),
        0 <= s,
    ensures
        bnd(b, trim_ws_end(b, s, e)),
        s <= e ==> s <= trim_ws_end(b, s, e) <= e,
        s > e ==> trim_ws_end(b, s, e) == e,
    decreases e - s,
{
    if s < e && ws_before(b, s, e) > 0 {
        lemma_ws_before_bnd(b, s, e);
        lemma_trim_ws_end(b, s, e - ws_before(b, s, e));
    }
}

pub open spec fn brange(b: Seq<u8>, r: (int, int)) -> bool {
    &&& r.0 <= r.1
    &&& bnd(b, r.0)
    &&& bnd(b, r.1)
}

/// [`utrim`] stays within the range it trims.
pub proof fn lemma_utrim_bounds(b: Seq<u8>, s: int, e: int)
    requires
        s <= e,
    ensures
        s <= utrim(b, s, e).0 <= utrim(b, s, e).1 <= e,
{
    lemma_trim_ws_start_bounds(b, s, e);
    lemma_trim_ws_end_bounds(b, trim_ws_start(b, s, e), e);
}

pub proof fn lemma_trim_ws_start_bounds(b: Seq<u8>, s: int, e: int)
    requires
        s <= e,
    ensures
        s <= trim_ws_start(b, s, e) <= e,
    decreases e - s,
{
    if s < e && ws_at(b, s, e) > 0 {
        lemma_trim_ws_start_bounds(b, s + ws_at(b, s, e), e);
    }
}

proof fn lemma_trim_ws_end_bounds(b: Seq<u8>, s: int, e: int)
    requires
        s <= e,
    ensures
        s <= trim_ws_end(b, s, e) <= e,
    decreases e - s,
{
    if s < e && ws_before(b, s, e) > 0 {
        lemma_trim_ws_end_bounds(b, s, e - ws_before(b, s, e));
    }
}

pub proof fn lemma_utrim(b: Seq<u8>, s: int, e: int)
    requires
        brange(b, (s, e)),
    ensures
        brange(b, utrim(b, s, e)),
        s <= utrim(b, s, e).0,
        utrim(b, s, e).1 <= e,
{
    lemma_trim_ws_start(b, s, e);
    lemma_trim_ws_end(b, trim_ws_start(b, s, e), e);
}

/// `str::trim` on `b[s..e]`.
pub fn trim_ws(b: &[u8], s: usize, e: usize) -> (r: (usize, usize))
    requires
        e <= b@.len(),
        s <= e,
    ensures
        (r.0 as int, r.1 as int) == utrim(b@, s as int, e as int),
        s <= r.0 <= r.1 <= e,
{
    let mut i = s;
    while i < e && ws_len_at(b, i, e) > 0
        invariant
            s <= i <= e <= b@.len(),
            trim_ws_start(b@, s as int, e as int) == trim_ws_start(b@, i as int, e as int),
        decreases e - i,
    {
        let k = ws_len_at(b, i, e);
        i += k;
    }
    let mut j = e;
    while j > i && ws_len_before(b, i, j) > 0
        invariant
            i <= j <= e <= b@.len(),
            trim_ws_end(b@, i as int, e as int) == trim_ws_end(b@, i as int, j as int),
        decreases j - i,
    {
        let k = ws_len_before(b, i, j);
        j -= k;
    }
    (i, j)
}

/// The first whitespace character in `b[i..hi]`.
pub fn find_ws_exec(b: &[u8], i: usize, hi: usize) -> (r: Option<usize>)
    requires
        hi <= b@.len(),
    ensures
        oi(r) == find_ws(b@, i as int, hi as int),
{
    let mut j = i;
    while j < hi
        invariant
            i <= j,
            hi <= b@.len(),
            find_ws(b@, i as int, hi as int) == find_ws(b@, j as int, hi as int),
        decreases hi - j,
    {
        if ws_len_at(b, j, hi) > 0 {
            return Some(j);
        }
        j += 1;
    }
    None
}

pub proof fn lemma_find_ws_bnd(b: Seq<u8>, i: int, hi: int)
    requires
        hi <= b.len(),
        valid_utf8(b),
        0 <= i,
    ensures
        find_ws(b, i, hi) matches Some(p) ==> i <= p < hi && ws_at(b, p, hi) > 0 && bnd(b, p),
    decreases hi - i,
{
    if i >= hi || i < 0 {
    } else if ws_at(b, i, hi) > 0 {
        is_char_boundary_iff_not_is_continuation_byte(b, i);
    } else {
        lemma_find_ws_bnd(b, i + 1, hi);
    }
}

// ------------------------------------------------------------ integers as `str::parse` reads them

/// What `str::parse` of a signed integer type with range `min..=max` makes
/// of `b[s..e]`: an optional `'+'` or `'-'`, then one or more decimal digits
/// and nothing else, with the value in range.
pub open spec fn parse_int_spec(b: Seq<u8>, s: int, e: int, min: int, max: int) -> Option<int> {
    if s >= e {
        None
    } else {
        let neg = b[s] == 45;
        let ds = if b[s] == 45 || b[s] == 43 {
            s + 1
        } else {
            s
        };
        if ds >= e || skip_fwd(b, Class::Digit, ds, e) != e {
            None
        } else {
            let v = if neg {
                -dec_value(b, ds, e)
            } else {
                dec_value(b, ds, e)
            };
            if min <= v <= max {
                Some(v)
            } else {
                None
            }
        }
    }
}

/// `str::parse::<i64>()` on `b[s..e]`.
pub fn parse_i64(b: &[u8], s: usize, e: usize) -> (r: Option<i64>)
    requires
        s <= e <= b@.len(),
    ensures
        oi64(r) == parse_int_spec(b@, s as int, e as int, i64::MIN as int, i64::MAX as int),
{
    if s >= e {
        return None;
    }
    let neg = b[s] == 45;
    let ds = if b[s] == 45 || b[s] == 43 {
        s + 1
    } else {
        s
    };
    if ds >= e {
        return None;
    }
    let end = skip_forward(b, Class::Digit, ds, e);
    if end != e {
        return None;
    }
    proof {
        lemma_skip_fwd(b@, Class::Digit, ds as int, e as int);
        assert forall|m: int| ds <= m < e implies is_digit(#[trigger] b@[m]) by {
            assert(in_class(Class::Digit, b@[m]));
        }
    }
    let limit: i128 = 9_223_372_036_854_775_808;
    let mut j = ds;
    let mut v: i128 = 0;
    while j < e
        invariant
            ds <= j <= e <= b@.len(),
            s < ds || s == ds,
            ds < e,
            ds == (if b@[s as int] == 45 || b@[s as int] == 43 {
                s + 1
            } else {
                s as int
            }),
            skip_fwd(b@, Class::Digit, ds as int, e as int) == e,
            0 <= v <= limit,
            limit == 9_223_372_036_854_775_808,
            forall|m: int| ds <= m < e ==> is_digit(#[trigger] b@[m]),
            v == dec_value(b@, ds as int, j as int),
        decreases e - j,
    {
        let d = (b[j] - 48) as i128;
        assert(dec_value(b@, ds as int, j + 1) == v * 10 + d);
        v = v * 10 + d;
        j += 1;
        if v > limit {
            proof {
                lemma_dec_value_mono(b@, ds as int, j as int, e as int);
                assert(dec_value(b@, ds as int, e as int) > limit);
            }
            return None;
        }
    }
    if neg {
        Some((-v) as i64)
    } else if v <= i64::MAX as i128 {
        Some(v as i64)
    } else {
        None
    }
}

/// `str::parse::<i32>()` on `b[s..e]`.
pub fn parse_i32(b: &[u8], s: usize, e: usize) -> (r: Option<i32>)
    requires
        s <= e <= b@.len(),
    ensures
        oi32(r) == parse_int_spec(b@, s as int, e as int, i32::MIN as int, i32::MAX as int),
{
    let ghost neg = b@[s as int] == 45;
    match parse_i64(b, s, e) {
        Some(v) => if i32::MIN as i64 <= v && v <= i32::MAX as i64 {
            Some(v as i32)
        } else {
            None
        },
        None => {
            None
        },
    }
}

pub open spec fn oi64(o: Option<i64>) -> Option<int> {
    match o {
        Some(v) => Some(v as int),
        None => None,
    }
}

pub open spec fn oi32(o: Option<i32>) -> Option<int> {
    match o {
        Some(v) => Some(v as int),
        None => None,
    }
}


/// A boundary at or after a boundary `s` stays one in `b[s..]`.
pub proof fn lemma_bnd_tail(b: Seq<u8>, s: int, i: int)
    requires
        bnd(b, s),
        bnd(b, i),
        s <= i,
    ensures
        bnd(b.subrange(s, b.len() as int), i - s),
{
    let t = b.subrange(s, b.len() as int);
    valid_utf8_split(b, s);
    is_char_boundary_start_end_of_seq(t);
    if i < b.len() {
        is_char_boundary_iff_not_is_continuation_byte(b, i);
        is_char_boundary_iff_not_is_continuation_byte(t, i - s);
    }
}

/// Cuts `line` at the character boundaries `s..e`.
pub fn slice_bnd<'a>(line: &'a str, s: usize, e: usize) -> (r: &'a str)
    requires
        s <= e <= bytes_of(line).len(),
        bnd(bytes_of(line), s as int),
        bnd(bytes_of(line), e as int),
    ensures
        bytes_of(r) == bytes_of(line).subrange(s as int, e as int),
{
    let ghost b = bytes_of(line);
    let (_, tail) = line.split_at(s);
    let ghost t = bytes_of(tail);
    proof {
        assert(t =~= b.subrange(s as int, b.len() as int));
        lemma_bnd_tail(b, s as int, e as int);
    }
    let (mid, _) = tail.split_at(e - s);
    assert(bytes_of(mid) =~= b.subrange(s as int, e as int));
    mid
}

/// A safe cut position of a line's bytes is a character boundary.
pub proof fn lemma_cut_bnd(b: Seq<u8>, i: int)
    requires
        valid_utf8(b),
        0 <= i <= b.len(),
        cut_ok(b, i),
    ensures
        bnd(b, i),
{
    lemma_cut_ok(b, i);
}


pub proof fn lemma_pow10_mono(a: nat, c: nat)
    requires
        a <= c,
    ensures
        pow10(a) <= pow10(c),
        pow10(a) >= 1,
    decreases c,
{
    if c > a {
        lemma_pow10_mono(a, (c - 1) as nat);
    } else if a > 0 {
        lemma_pow10_mono((a - 1) as nat, (a - 1) as nat);
    }
}


/// Whether two strings are equal.
pub fn str_eq(a: &str, c: &str) -> (r: bool)
    ensures
        r == (a@ == c@),
{
    let x = a.as_bytes();
    let y = c.as_bytes();
    proof {
        encode_utf8_decode_utf8(a@);
        encode_utf8_decode_utf8(c@);
    }
    if x.len() != y.len() {
        return false;
    }
    let r = matches_at(x, y, 0, x.len());
    proof {
        if r {
            assert(x@ =~= x@.subrange(0, y@.len() as int));
        } else {
            assert(x@.subrange(0, y@.len() as int) =~= x@);
        }
    }
    r
}

} // verus!
