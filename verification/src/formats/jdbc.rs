//! Parser for DM (Dameng) JDBC driver log lines.
//!
//! A line has one of two shapes:
//!
//! ```text
//! [LEVEL - ts] tid:N - [thread] { conn-x, pstmt-y, rs-z } method(args): ret;  [PARAMS]: p;  [USED TIME]: t ms; [EXEC_ID]: e;
//! [DEBUG - ts] tid:N - [thread] { conn-x } access();  CMD_EXECUTE2
//! ```
//!
//! The header is read delimiter by delimiter without backtracking. Tail
//! markers (`[PARAMS]`, `[USED TIME]`, `[EXEC_ID]`, `CMD_`) only count right
//! after a `';'` (spaces allowed) and outside quoted text, so values that hold
//! semicolons or brackets are not cut. A field ends where the next marker
//! starts.

use vstd::prelude::*;
use vstd::string::StringSliceAdditionalSpecFns;
use vstd::utf8::{decode_utf8, decode_utf8_encode_utf8, encode_utf8, encode_utf8_decode_utf8, valid_utf8};
use crate::encoding::{decode, decode_spec, utf8_strict, FileEncodingHint};
use crate::error::ParseError;
use crate::text;
use crate::text::{
    all_ascii, ascii, bytes_of, cut_ok, find_in, find_marker, find_marker_spec, lemma_marker_scan, oi, lemma_find_cut_ok, lemma_skip_back, lemma_skip_fwd,
    lit_bytes, match_at, matches_at, skip_back, skip_backward, skip_forward, skip_fwd, take_digits,
    take_i64, Class, narrow_i32, to_i32, slice_str, civil_seconds_millis, civil_to_millis, pow10, lemma_take_digits, dec_value, marker_hit, lemma_find_marker_least, lemma_find_in_least,
};

verus! {

broadcast use vstd::string::group_string_axioms;

/// The literal `s` as bytes.
pub open spec fn lit(s: &str) -> Seq<u8> {
    ascii(s@)
}

/// A format failure: byte offset and what was expected.
pub struct Fail {
    pub offset: int,
    pub what: Seq<char>,
}

pub open spec fn fail(offset: int, what: Seq<char>) -> Fail {
    Fail { offset, what }
}

/// `e` is the failure `f`, still without context.
pub open spec fn is_fail(e: ParseError, f: Fail) -> bool {
    e matches ParseError::InvalidFormat { raw, line_number, offset, what } && raw@.len() == 0
        && line_number == 0 && offset == f.offset && what@ == f.what
}

/// `e` is the failure `f` with `raw` and line `line` as its context.
pub open spec fn is_fail_in(e: ParseError, f: Fail, raw: Seq<char>, line: u64) -> bool {
    e matches ParseError::InvalidFormat { raw: r, line_number, offset, what } && r@ == raw
        && line_number == line && offset == f.offset && what@ == f.what
}

/// `b[s..e]` without surrounding spaces, tabs, CRs and LFs.
pub open spec fn trim_blank(b: Seq<u8>, s: int, e: int) -> (int, int) {
    let s2 = skip_fwd(b, Class::Blank, s, e);
    (s2, skip_back(b, Class::Blank, s2, e))
}

pub open spec fn range_ok(b: Seq<u8>, r: (int, int)) -> bool {
    &&& 0 <= r.0 <= r.1 <= b.len()
    &&& cut_ok(b, r.0)
    &&& cut_ok(b, r.1)
}

pub open spec fn span(b: Seq<u8>, r: (int, int)) -> Seq<u8> {
    b.subrange(r.0, r.1)
}

pub proof fn lemma_trim_blank(b: Seq<u8>, s: int, e: int)
    requires
        range_ok(b, (s, e)),
    ensures
        range_ok(b, trim_blank(b, s, e)),
        s <= trim_blank(b, s, e).0,
        trim_blank(b, s, e).1 <= e,
{
    lemma_skip_fwd(b, Class::Blank, s, e);
    let s2 = skip_fwd(b, Class::Blank, s, e);
    lemma_skip_back(b, Class::Blank, s2, e);
}

pub proof fn lemma_match_cut(b: Seq<u8>, l: Seq<u8>, p: int, hi: int)
    requires
        all_ascii(l),
        l.len() > 0,
        match_at(b, l, p, hi),
    ensures
        cut_ok(b, p),
        cut_ok(b, p + l.len()),
        b[p] == l[0],
{
    assert(b.subrange(p, p + l.len())[0] == l[0]);
    assert(b.subrange(p, p + l.len())[l.len() - 1] == l[l.len() - 1]);
}

// ------------------------------------------------------------------ header

/// Positions of the header fields of a line.
pub struct Head {
    pub level: (int, int),
    pub ts: (int, int),
    pub tid: i64,
    pub thread: (int, int),
    pub ids: (int, int),
    /// Start of the text after the id block.
    pub rest: int,
    pub method: (int, int),
    pub args: (int, int),
    /// Just after the `')'` that closes the arguments.
    pub after: int,
}

/// Reads the header `[LEVEL - ts] tid:N - [thread] { ids } method(args)`.
pub open spec fn head_spec(b: Seq<u8>) -> Result<Head, Fail> {
    let n = b.len() as int;
    if n == 0 {
        Err(fail(0, "empty line"@))
    } else if b[0] != 91 {
        Err(fail(0, "line does not start with '['"@))
    } else {
        match find_in(b, lit("]"), 1, n) {
            None => Err(fail(1, "unterminated level header"@)),
            Some(he) => match find_in(b, lit(" - "), 1, he) {
                None => Err(fail(1, "missing ' - ' in header"@)),
                Some(sep) => {
                    let i0 = skip_fwd(b, Class::Space, he + 1, n);
                    if !match_at(b, lit("tid:"), i0, n) {
                        Err(fail(i0, "expected 'tid:'"@))
                    } else {
                        match take_digits(b, i0 + 4, n) {
                            None => Err(fail(i0 + 4, "bad tid"@)),
                            Some((tid, ni)) => {
                                let i2 = skip_fwd(b, Class::Space, ni, n);
                                if !match_at(b, lit("-"), i2, n) {
                                    Err(fail(i2, "expected '-'"@))
                                } else {
                                    let i3 = skip_fwd(b, Class::Space, i2 + 1, n);
                                    if !match_at(b, lit("["), i3, n) {
                                        Err(fail(i3, "expected '['"@))
                                    } else {
                                        match find_in(b, lit("]"), i3 + 1, n) {
                                            None => Err(fail(i3, "unterminated thread"@)),
                                            Some(te) => {
                                                let i4 = skip_fwd(b, Class::Space, te + 1, n);
                                                if !match_at(b, lit("{"), i4, n) {
                                                    Err(fail(i4, "expected '{'"@))
                                                } else {
                                                    match find_in(b, lit("}"), i4 + 1, n) {
                                                        None => Err(
                                                            fail(i4, "unterminated id block"@),
                                                        ),
                                                        Some(ie) => {
                                                            let r0 = skip_fwd(
                                                                b,
                                                                Class::SpaceTab,
                                                                ie + 1,
                                                                n,
                                                            );
                                                            match find_in(b, lit("("), r0, n) {
                                                                None => Err(
                                                                    fail(
                                                                        0,
                                                                        "missing '(' after method"@,
                                                                    ),
                                                                ),
                                                                Some(po) => match find_in(
                                                                    b,
                                                                    lit(")"),
                                                                    po + 1,
                                                                    n,
                                                                ) {
                                                                    None => Err(
                                                                        fail(
                                                                            po - r0,
                                                                            "unterminated method args"@,
                                                                        ),
                                                                    ),
                                                                    Some(pc) => Ok(
                                                                        Head {
                                                                            level: trim_blank(
                                                                                b,
                                                                                1,
                                                                                sep,
                                                                            ),
                                                                            ts: trim_blank(
                                                                                b,
                                                                                sep + 3,
                                                                                he,
                                                                            ),
                                                                            tid: tid as i64,
                                                                            thread: trim_blank(
                                                                                b,
                                                                                i3 + 1,
                                                                                te,
                                                                            ),
                                                                            ids: trim_blank(
                                                                                b,
                                                                                i4 + 1,
                                                                                ie,
                                                                            ),
                                                                            rest: r0,
                                                                            method: trim_blank(
                                                                                b,
                                                                                r0,
                                                                                po,
                                                                            ),
                                                                            args: trim_blank(
                                                                                b,
                                                                                po + 1,
                                                                                pc,
                                                                            ),
                                                                            after: pc + 1,
                                                                        },
                                                                    ),
                                                                },
                                                            }
                                                        },
                                                    }
                                                }
                                            },
                                        }
                                    }
                                }
                            },
                        }
                    }
                },
            },
        }
    }
}

/// Header positions found by [`parse_head`].
pub struct HeadPos {
    pub level: (usize, usize),
    pub ts: (usize, usize),
    pub tid: i64,
    pub thread: (usize, usize),
    pub ids: (usize, usize),
    pub rest: usize,
    pub method: (usize, usize),
    pub args: (usize, usize),
    pub after: usize,
}

pub open spec fn ri(r: (usize, usize)) -> (int, int) {
    (r.0 as int, r.1 as int)
}

impl HeadPos {
    pub open spec fn view(&self) -> Head {
        Head {
            level: ri(self.level),
            ts: ri(self.ts),
            tid: self.tid,
            thread: ri(self.thread),
            ids: ri(self.ids),
            rest: self.rest as int,
            method: ri(self.method),
            args: ri(self.args),
            after: self.after as int,
        }
    }

    pub open spec fn ranges_ok(&self, b: Seq<u8>) -> bool {
        &&& range_ok(b, ri(self.level))
        &&& range_ok(b, ri(self.ts))
        &&& range_ok(b, ri(self.thread))
        &&& range_ok(b, ri(self.ids))
        &&& range_ok(b, ri(self.method))
        &&& range_ok(b, ri(self.args))
        &&& cut_ok(b, self.rest as int)
        &&& cut_ok(b, self.after as int)
        &&& self.rest <= self.method.0
        &&& self.method.1 < self.after <= b.len()
    }
}

fn trim_range(b: &[u8], s: usize, e: usize) -> (r: (usize, usize))
    requires
        e <= b@.len(),
        range_ok(b@, (s as int, e as int)),
    ensures
        ri(r) == trim_blank(b@, s as int, e as int),
        range_ok(b@, ri(r)),
        s <= r.0,
        r.1 <= e,
{
    proof {
        lemma_trim_blank(b@, s as int, e as int);
    }
    let s2 = skip_forward(b, Class::Blank, s, e);
    let e2 = skip_backward(b, Class::Blank, s2, e);
    (s2, e2)
}

/// Reads the header; see [`head_spec`].
pub fn parse_head(b: &[u8]) -> (r: Result<HeadPos, ParseError>)
    ensures
        match r {
            Ok(h) => head_spec(b@) == Ok::<Head, Fail>(h.view()) && h.ranges_ok(b@),
            Err(e) => head_spec(b@) matches Err(f) && is_fail(e, f),
        },
{
    let n = b.len();
    if n == 0 {
        return Err(ParseError::invalid(0, "empty line"));
    }
    if b[0] != 91 {
        return Err(ParseError::invalid(0, "line does not start with '['"));
    }
    proof {
        reveal_strlit("]");
        reveal_strlit(" - ");
        reveal_strlit("tid:");
        reveal_strlit("-");
        reveal_strlit("[");
        reveal_strlit("{");
        reveal_strlit("}");
        reveal_strlit("(");
        reveal_strlit(")");
    }
    let close_bracket = lit_bytes("]");
    let he = match text::find(b, close_bracket, 1, n) {
        Some(p) => p,
        None => return Err(ParseError::invalid(1, "unterminated level header")),
    };
    proof {
        lemma_find_cut_ok(b@, close_bracket@, 1, n as int);
    }
    let sep_lit = lit_bytes(" - ");
    let sep = match text::find(b, sep_lit, 1, he) {
        Some(p) => p,
        None => return Err(ParseError::invalid(1, "missing ' - ' in header")),
    };
    proof {
        lemma_find_cut_ok(b@, sep_lit@, 1, he as int);
        assert(cut_ok(b@, 1));
    }
    let level = trim_range(b, 1, sep);
    let ts = trim_range(b, sep + 3, he);
    let i0 = skip_forward(b, Class::Space, he + 1, n);
    proof {
        lemma_skip_fwd(b@, Class::Space, he + 1, n as int);
    }
    if !matches_at(b, lit_bytes("tid:"), i0, n) {
        return Err(ParseError::invalid(i0, "expected 'tid:'"));
    }
    let (tid, ni) = match take_i64(b, i0 + 4, n) {
        Some(t) => t,
        None => return Err(ParseError::invalid(i0 + 4, "bad tid")),
    };
    proof {
        lemma_skip_fwd(b@, Class::Digit, i0 + 4, n as int);
    }
    let i2 = skip_forward(b, Class::Space, ni, n);
    proof {
        lemma_skip_fwd(b@, Class::Space, ni as int, n as int);
    }
    if !matches_at(b, lit_bytes("-"), i2, n) {
        return Err(ParseError::invalid(i2, "expected '-'"));
    }
    let i3 = skip_forward(b, Class::Space, i2 + 1, n);
    proof {
        lemma_skip_fwd(b@, Class::Space, i2 + 1, n as int);
    }
    let open_bracket = lit_bytes("[");
    if !matches_at(b, open_bracket, i3, n) {
        return Err(ParseError::invalid(i3, "expected '['"));
    }
    proof {
        lemma_match_cut(b@, open_bracket@, i3 as int, n as int);
    }
    let te = match text::find(b, close_bracket, i3 + 1, n) {
        Some(p) => p,
        None => return Err(ParseError::invalid(i3, "unterminated thread")),
    };
    proof {
        lemma_find_cut_ok(b@, close_bracket@, i3 + 1, n as int);
    }
    let thread = trim_range(b, i3 + 1, te);
    let i4 = skip_forward(b, Class::Space, te + 1, n);
    proof {
        lemma_skip_fwd(b@, Class::Space, te + 1, n as int);
    }
    let open_brace = lit_bytes("{");
    if !matches_at(b, open_brace, i4, n) {
        return Err(ParseError::invalid(i4, "expected '{'"));
    }
    proof {
        lemma_match_cut(b@, open_brace@, i4 as int, n as int);
    }
    let close_brace = lit_bytes("}");
    let ie = match text::find(b, close_brace, i4 + 1, n) {
        Some(p) => p,
        None => return Err(ParseError::invalid(i4, "unterminated id block")),
    };
    proof {
        lemma_find_cut_ok(b@, close_brace@, i4 + 1, n as int);
    }
    let ids = trim_range(b, i4 + 1, ie);
    let r0 = skip_forward(b, Class::SpaceTab, ie + 1, n);
    proof {
        lemma_skip_fwd(b@, Class::SpaceTab, ie + 1, n as int);
    }
    let open_paren = lit_bytes("(");
    let po = match text::find(b, open_paren, r0, n) {
        Some(p) => p,
        None => return Err(ParseError::invalid(0, "missing '(' after method")),
    };
    proof {
        lemma_find_cut_ok(b@, open_paren@, r0 as int, n as int);
    }
    let close_paren = lit_bytes(")");
    let pc = match text::find(b, close_paren, po + 1, n) {
        Some(p) => p,
        None => return Err(ParseError::invalid(po - r0, "unterminated method args")),
    };
    proof {
        lemma_find_cut_ok(b@, close_paren@, po + 1, n as int);
    }
    let method = trim_range(b, r0, po);
    let args = trim_range(b, po + 1, pc);
    Ok(HeadPos { level, ts, tid, thread, ids, rest: r0, method, args, after: pc + 1 })
}


// ------------------------------------------------------------------ categories

/// How a JDBC method is classified.
#[derive(Clone, Copy)]
pub enum Kind {
    Unparsed,
    Prepare,
    Bind,
    Execute,
    FetchNext,
    NullCheck,
    Clear,
    Close,
    DriverAccess,
    ReadValue,
    ReadMeta,
    Other,
}

/// `m` starts with `p`.
pub open spec fn starts(m: Seq<u8>, p: Seq<u8>) -> bool {
    p.len() <= m.len() && m.subrange(0, p.len() as int) == p
}

/// The getters that read a column value.
pub open spec fn is_value_getter(m: Seq<u8>) -> bool {
    ||| m == lit("getString")
    ||| m == lit("getTimestamp")
    ||| m == lit("getLong")
    ||| m == lit("getInt")
    ||| m == lit("getShort")
    ||| m == lit("getDouble")
    ||| m == lit("getFloat")
    ||| m == lit("getBoolean")
    ||| m == lit("getBytes")
    ||| m == lit("getBigDecimal")
    ||| m == lit("getDate")
    ||| m == lit("getTime")
    ||| m == lit("getObject")
    ||| m == lit("getBlob")
    ||| m == lit("getClob")
    ||| m == lit("getNString")
    ||| m == lit("getNClob")
    ||| m == lit("getURL")
    ||| m == lit("getAsciiStream")
    ||| m == lit("getBinaryStream")
    ||| m == lit("getCharacterStream")
}

/// The category of a JDBC method name.
pub open spec fn kind_of(m: Seq<u8>) -> Kind {
    if m.len() == 0 {
        Kind::Unparsed
    } else if m == lit("prepareStatement") {
        Kind::Prepare
    } else if starts(m, lit("set")) {
        Kind::Bind
    } else if starts(m, lit("execute")) {
        Kind::Execute
    } else if m == lit("next") {
        Kind::FetchNext
    } else if m == lit("wasNull") {
        Kind::NullCheck
    } else if starts(m, lit("clear")) {
        Kind::Clear
    } else if m == lit("close") {
        Kind::Close
    } else if m == lit("access") {
        Kind::DriverAccess
    } else if starts(m, lit("get")) {
        if is_value_getter(m) {
            Kind::ReadValue
        } else {
            Kind::ReadMeta
        }
    } else {
        Kind::Other
    }
}

pub open spec fn kind_name(k: Kind) -> Seq<char> {
    match k {
        Kind::Unparsed => "unparsed"@,
        Kind::Prepare => "prepare"@,
        Kind::Bind => "bind"@,
        Kind::Execute => "execute"@,
        Kind::FetchNext => "fetch_next"@,
        Kind::NullCheck => "null_check"@,
        Kind::Clear => "clear"@,
        Kind::Close => "close"@,
        Kind::DriverAccess => "driver_access"@,
        Kind::ReadValue => "read_value"@,
        Kind::ReadMeta => "read_meta"@,
        Kind::Other => "other"@,
    }
}

impl Kind {
    pub fn name(&self) -> (r: &'static str)
        ensures
            r@ == kind_name(*self),
    {
        match self {
            Kind::Unparsed => "unparsed",
            Kind::Prepare => "prepare",
            Kind::Bind => "bind",
            Kind::Execute => "execute",
            Kind::FetchNext => "fetch_next",
            Kind::NullCheck => "null_check",
            Kind::Clear => "clear",
            Kind::Close => "close",
            Kind::DriverAccess => "driver_access",
            Kind::ReadValue => "read_value",
            Kind::ReadMeta => "read_meta",
            Kind::Other => "other",
        }
    }
}

/// Whether `m` equals the literal `l`.
fn eq_lit(m: &[u8], l: &str) -> (r: bool)
    requires
        l.is_ascii(),
    ensures
        r == (m@ == lit(l)),
{
    let lb = lit_bytes(l);
    if m.len() != lb.len() {
        return false;
    }
    let r = matches_at(m, lb, 0, m.len());
    proof {
        if r {
            assert(m@ =~= m@.subrange(0, lb@.len() as int));
        } else {
            assert(m@.subrange(0, lb@.len() as int) =~= m@);
        }
    }
    r
}

/// Whether `m` starts with the literal `l`.
fn starts_lit(m: &[u8], l: &str) -> (r: bool)
    requires
        l.is_ascii(),
    ensures
        r == starts(m@, lit(l)),
{
    matches_at(m, lit_bytes(l), 0, m.len())
}

fn is_value_getter_exec(m: &[u8]) -> (r: bool)
    ensures
        r == is_value_getter(m@),
{
    proof {
        reveal_strlit("getString");
        reveal_strlit("getTimestamp");
        reveal_strlit("getLong");
        reveal_strlit("getInt");
        reveal_strlit("getShort");
        reveal_strlit("getDouble");
        reveal_strlit("getFloat");
        reveal_strlit("getBoolean");
        reveal_strlit("getBytes");
        reveal_strlit("getBigDecimal");
        reveal_strlit("getDate");
        reveal_strlit("getTime");
        reveal_strlit("getObject");
        reveal_strlit("getBlob");
        reveal_strlit("getClob");
        reveal_strlit("getNString");
        reveal_strlit("getNClob");
        reveal_strlit("getURL");
        reveal_strlit("getAsciiStream");
        reveal_strlit("getBinaryStream");
        reveal_strlit("getCharacterStream");
    }
    eq_lit(m, "getString") || eq_lit(m, "getTimestamp") || eq_lit(m, "getLong") || eq_lit(
        m,
        "getInt",
    ) || eq_lit(m, "getShort") || eq_lit(m, "getDouble") || eq_lit(m, "getFloat") || eq_lit(
        m,
        "getBoolean",
    ) || eq_lit(m, "getBytes") || eq_lit(m, "getBigDecimal") || eq_lit(m, "getDate") || eq_lit(
        m,
        "getTime",
    ) || eq_lit(m, "getObject") || eq_lit(m, "getBlob") || eq_lit(m, "getClob") || eq_lit(
        m,
        "getNString",
    ) || eq_lit(m, "getNClob") || eq_lit(m, "getURL") || eq_lit(m, "getAsciiStream") || eq_lit(
        m,
        "getBinaryStream",
    ) || eq_lit(m, "getCharacterStream")
}

/// Classifies a method name given as bytes.
pub fn kind_of_bytes(m: &[u8]) -> (r: Kind)
    ensures
        r == kind_of(m@),
{
    proof {
        reveal_strlit("prepareStatement");
        reveal_strlit("set");
        reveal_strlit("execute");
        reveal_strlit("next");
        reveal_strlit("wasNull");
        reveal_strlit("clear");
        reveal_strlit("close");
        reveal_strlit("access");
        reveal_strlit("get");
    }
    if m.len() == 0 {
        Kind::Unparsed
    } else if eq_lit(m, "prepareStatement") {
        Kind::Prepare
    } else if starts_lit(m, "set") {
        Kind::Bind
    } else if starts_lit(m, "execute") {
        Kind::Execute
    } else if eq_lit(m, "next") {
        Kind::FetchNext
    } else if eq_lit(m, "wasNull") {
        Kind::NullCheck
    } else if starts_lit(m, "clear") {
        Kind::Clear
    } else if eq_lit(m, "close") {
        Kind::Close
    } else if eq_lit(m, "access") {
        Kind::DriverAccess
    } else if starts_lit(m, "get") {
        if is_value_getter_exec(m) {
            Kind::ReadValue
        } else {
            Kind::ReadMeta
        }
    } else {
        Kind::Other
    }
}

/// Maps a method name to its event category.
pub fn category_of(method: &str) -> (r: &'static str)
    ensures
        r@ == kind_name(kind_of(bytes_of(method))),
{
    kind_of_bytes(method.as_bytes()).name()
}

// ------------------------------------------------------------------ tail

/// Positions of the tail markers.
pub struct Markers {
    pub params: Option<int>,
    pub time: Option<int>,
    pub exec_id: Option<int>,
    pub cmd: Option<int>,
}

pub open spec fn markers_spec(b: Seq<u8>, h: Head) -> Markers {
    Markers {
        params: find_marker_spec(b, lit("[PARAMS]: "), h.rest, true, h.after),
        time: find_marker_spec(b, lit("[USED TIME]: "), h.rest, true, h.after),
        exec_id: find_marker_spec(b, lit("[EXEC_ID]: "), h.rest, true, h.after),
        cmd: find_marker_spec(b, lit("CMD_"), h.rest, true, h.after),
    }
}

pub open spec fn min_opt(a: Option<int>, c: Option<int>) -> Option<int> {
    match (a, c) {
        (Some(x), Some(y)) => Some(if x <= y { x } else { y }),
        (Some(x), None) => Some(x),
        (None, y) => y,
    }
}

/// `a`, when it lies after `start`.
pub open spec fn after_opt(a: Option<int>, start: int) -> Option<int> {
    match a {
        Some(x) => if x > start {
            Some(x)
        } else {
            None
        },
        None => None,
    }
}

/// A field value `b[s..e]` without surrounding blanks and trailing `';'`/`' '`;
/// `None` when nothing is left.
pub open spec fn value_range(b: Seq<u8>, s: int, e: int) -> Option<(int, int)> {
    let t = trim_blank(b, s, e);
    let e2 = skip_back(b, Class::SemiSpace, t.0, t.1);
    if e2 > t.0 {
        Some((t.0, e2))
    } else {
        None
    }
}

/// The return value: text after `"):"` up to the first tail marker.
pub open spec fn return_spec(b: Seq<u8>, h: Head, m: Markers) -> Option<(int, int)> {
    if h.after < b.len() && b[h.after] == 58 {
        let end = match min_opt(min_opt(min_opt(m.params, m.time), m.exec_id), m.cmd) {
            Some(x) => x,
            None => b.len() as int,
        };
        if end > h.after + 1 {
            value_range(b, h.after + 1, end)
        } else {
            None
        }
    } else {
        None
    }
}

/// `[PARAMS]:` up to the next marker after it.
pub open spec fn params_spec(b: Seq<u8>, m: Markers) -> Option<(int, int)> {
    match m.params {
        Some(p) => {
            let start = p + lit("[PARAMS]: ").len();
            let end = match min_opt(
                min_opt(after_opt(m.time, start), after_opt(m.exec_id, start)),
                after_opt(m.cmd, start),
            ) {
                Some(x) => x,
                None => b.len() as int,
            };
            if end > start {
                value_range(b, start, end)
            } else {
                None
            }
        },
        None => None,
    }
}

/// `[USED TIME]:` up to the following `ms`.
pub open spec fn used_time_spec(b: Seq<u8>, m: Markers) -> Option<(int, int)> {
    match m.time {
        Some(p) => {
            let start = p + lit("[USED TIME]: ").len();
            match find_in(b, lit("ms"), start, b.len() as int) {
                Some(mm) => {
                    let t = trim_blank(b, start, mm);
                    if t.0 < t.1 {
                        Some(t)
                    } else {
                        None
                    }
                },
                None => None,
            }
        },
        None => None,
    }
}

/// The digits after `[EXEC_ID]:`.
pub open spec fn exec_id_spec(b: Seq<u8>, m: Markers) -> Option<i64> {
    match m.exec_id {
        Some(p) => match take_digits(b, p + lit("[EXEC_ID]: ").len(), b.len() as int) {
            Some((v, _)) => Some(v as i64),
            None => None,
        },
        None => None,
    }
}

/// `CMD_` followed by upper-case letters, digits and `'_'`.
pub open spec fn cmd_spec(b: Seq<u8>, m: Markers) -> Option<(int, int)> {
    match m.cmd {
        Some(p) => {
            let e = skip_fwd(b, Class::UpperDigitUnderscore, p, b.len() as int);
            if e - p > lit("CMD_").len() {
                Some((p, e))
            } else {
                None
            }
        },
        None => None,
    }
}

pub struct MarkerPos {
    pub params: Option<usize>,
    pub time: Option<usize>,
    pub exec_id: Option<usize>,
    pub cmd: Option<usize>,
}

impl MarkerPos {
    pub open spec fn view(&self) -> Markers {
        Markers {
            params: oi(self.params),
            time: oi(self.time),
            exec_id: oi(self.exec_id),
            cmd: oi(self.cmd),
        }
    }
}

pub open spec fn opt_cut_ok(b: Seq<u8>, o: Option<int>, len: int) -> bool {
    o matches Some(p) ==> p + len <= b.len() && cut_ok(b, p) && cut_ok(b, p + len)
}

pub open spec fn opt_range_ok(b: Seq<u8>, o: Option<(int, int)>) -> bool {
    o matches Some(r) ==> range_ok(b, r)
}

pub open spec fn opt_ri(o: Option<(usize, usize)>) -> Option<(int, int)> {
    match o {
        Some(r) => Some(ri(r)),
        None => None,
    }
}

fn marker(b: &[u8], l: &str, h: &HeadPos) -> (r: Option<usize>)
    requires
        l.is_ascii(),
        l@.len() > 0,
    ensures
        oi(r) == find_marker_spec(b@, lit(l), h.rest as int, true, h.after as int),
        opt_cut_ok(b@, oi(r), lit(l).len() as int),
{
    let lb = lit_bytes(l);
    let r = find_marker(b, lb, h.rest, true, h.after);
    proof {
        lemma_marker_scan(b@, lb@, h.rest as int, true, h.after as int, None, false);
    }
    r
}

fn min_pos(a: Option<usize>, c: Option<usize>) -> (r: Option<usize>)
    ensures
        oi(r) == min_opt(oi(a), oi(c)),
        r matches Some(x) ==> (a == Some(x) || c == Some(x)),
{
    match (a, c) {
        (Some(x), Some(y)) => Some(if x <= y { x } else { y }),
        (Some(x), None) => Some(x),
        (None, y) => y,
    }
}

fn after_pos(a: Option<usize>, start: usize) -> (r: Option<usize>)
    ensures
        oi(r) == after_opt(oi(a), start as int),
        r matches Some(x) ==> a == Some(x),
{
    match a {
        Some(x) => if x > start {
            Some(x)
        } else {
            None
        },
        None => None,
    }
}

fn value_in(b: &[u8], s: usize, e: usize) -> (r: Option<(usize, usize)>)
    requires
        e <= b@.len(),
        range_ok(b@, (s as int, e as int)),
    ensures
        opt_ri(r) == value_range(b@, s as int, e as int),
        opt_range_ok(b@, opt_ri(r)),
{
    let t = trim_range(b, s, e);
    let e2 = skip_backward(b, Class::SemiSpace, t.0, t.1);
    proof {
        lemma_skip_back(b@, Class::SemiSpace, t.0 as int, t.1 as int);
    }
    if e2 > t.0 {
        Some((t.0, e2))
    } else {
        None
    }
}


// ------------------------------------------------------------------ id block

/// The object numbers read from the id block.
#[derive(Clone, Copy)]
pub struct Ids {
    pub conn: Option<i32>,
    pub pstmt: Option<i32>,
    pub rs: Option<i32>,
    pub handle: Option<i32>,
}

/// `prefix` followed by digits filling the whole token `b[s..e]`.
pub open spec fn strip_digits(b: Seq<u8>, s: int, e: int, prefix: Seq<u8>) -> Option<i64> {
    if e - s > prefix.len() && match_at(b, prefix, s, e) {
        match take_digits(b, s + prefix.len(), e) {
            Some((v, j)) => if j == e {
                Some(v as i64)
            } else {
                None
            },
            None => None,
        }
    } else {
        None
    }
}

/// Applies one id-block token `b[s..e]` to `acc`.
pub open spec fn apply_token(b: Seq<u8>, s: int, e: int, acc: Ids) -> Ids {
    let t = trim_blank(b, s, e);
    if let Some(v) = strip_digits(b, t.0, t.1, lit("conn-")) {
        Ids { conn: to_i32(v), ..acc }
    } else if let Some(v) = strip_digits(b, t.0, t.1, lit("pstmt-")) {
        Ids { pstmt: to_i32(v), ..acc }
    } else if let Some(v) = strip_digits(b, t.0, t.1, lit("rs-")) {
        Ids { rs: to_i32(v), ..acc }
    } else if let Some(v) = strip_digits(b, t.0, t.1, lit("handle-")) {
        Ids { handle: to_i32(v), ..acc }
    } else {
        acc
    }
}

/// Applies the `','`-separated tokens of `b[s..e]`, left to right.
pub open spec fn ids_fold(b: Seq<u8>, s: int, e: int, acc: Ids) -> Ids
    decreases e - s,
{
    match find_in(b, lit(","), s, e) {
        Some(c) => if s <= c < e {
            ids_fold(b, c + 1, e, apply_token(b, s, c, acc))
        } else {
            acc
        },
        None => apply_token(b, s, e, acc),
    }
}

pub open spec fn no_ids() -> Ids {
    Ids { conn: None, pstmt: None, rs: None, handle: None }
}

pub proof fn lemma_find_in_bounds(b: Seq<u8>, l: Seq<u8>, i: int, hi: int)
    ensures
        find_in(b, l, i, hi) matches Some(p) ==> i <= p && p + l.len() <= hi && match_at(
            b,
            l,
            p,
            hi,
        ),
    decreases hi - i,
{
    if l.len() == 0 || i < 0 || i + l.len() > hi {
    } else if match_at(b, l, i, hi) {
    } else {
        lemma_find_in_bounds(b, l, i + 1, hi);
    }
}

fn strip_digits_exec(b: &[u8], s: usize, e: usize, prefix: &[u8]) -> (r: Option<i64>)
    requires
        s <= e <= b@.len(),
    ensures
        r == strip_digits(b@, s as int, e as int, prefix@),
{
    if e - s > prefix.len() && matches_at(b, prefix, s, e) {
        match take_i64(b, s + prefix.len(), e) {
            Some((v, j)) => if j == e {
                Some(v)
            } else {
                None
            },
            None => None,
        }
    } else {
        None
    }
}

fn apply_token_exec(b: &[u8], s: usize, e: usize, acc: Ids) -> (r: Ids)
    requires
        e <= b@.len(),
        range_ok(b@, (s as int, e as int)),
    ensures
        r == apply_token(b@, s as int, e as int, acc),
{
    proof {
        reveal_strlit("conn-");
        reveal_strlit("pstmt-");
        reveal_strlit("rs-");
        reveal_strlit("handle-");
    }
    let t = trim_range(b, s, e);
    if let Some(v) = strip_digits_exec(b, t.0, t.1, lit_bytes("conn-")) {
        Ids { conn: narrow_i32(v), ..acc }
    } else if let Some(v) = strip_digits_exec(b, t.0, t.1, lit_bytes("pstmt-")) {
        Ids { pstmt: narrow_i32(v), ..acc }
    } else if let Some(v) = strip_digits_exec(b, t.0, t.1, lit_bytes("rs-")) {
        Ids { rs: narrow_i32(v), ..acc }
    } else if let Some(v) = strip_digits_exec(b, t.0, t.1, lit_bytes("handle-")) {
        Ids { handle: narrow_i32(v), ..acc }
    } else {
        acc
    }
}

/// Reads the id block `b[s..e]`; see [`ids_fold`].
fn parse_ids(b: &[u8], s: usize, e: usize) -> (r: Ids)
    requires
        e <= b@.len(),
        range_ok(b@, (s as int, e as int)),
    ensures
        r == ids_fold(b@, s as int, e as int, no_ids()),
{
    proof {
        reveal_strlit(",");
    }
    let comma = lit_bytes(",");
    let mut acc = Ids { conn: None, pstmt: None, rs: None, handle: None };
    let mut i = s;
    loop
        invariant
            e <= b@.len(),
            s <= i <= e,
            cut_ok(b@, i as int),
            cut_ok(b@, e as int),
            comma@ == lit(","),
            comma@.len() == 1,
            all_ascii(comma@),
            ids_fold(b@, s as int, e as int, no_ids()) == ids_fold(b@, i as int, e as int, acc),
        decreases e - i,
    {
        proof {
            lemma_find_in_bounds(b@, comma@, i as int, e as int);
        }
        match text::find(b, comma, i, e) {
            Some(c) => {
                proof {
                    lemma_find_cut_ok(b@, comma@, i as int, e as int);
                    assert(comma@.len() == 1);
                }
                acc = apply_token_exec(b, i, c, acc);
                i = c + 1;
            },
            None => {
                return apply_token_exec(b, i, e, acc);
            },
        }
    }
}


// ------------------------------------------------------------------ timestamp

/// A run of exactly `len` digits at `off`.
pub open spec fn fixed_digits(b: Seq<u8>, off: int, len: int) -> Option<int> {
    match take_digits(b, off, b.len() as int) {
        Some((v, end)) => if end == off + len {
            Some(v)
        } else {
            None
        },
        None => None,
    }
}

/// `YYYY-MM-DD HH:MM:SS.mmm` as milliseconds since the epoch (UTC, no
/// time zone); `None` for any other shape.
pub open spec fn epoch_millis_spec(b: Seq<u8>) -> Option<i64> {
    if b.len() < 23 || b[4] != 45 || b[7] != 45 || b[10] != 32 || b[13] != 58 || b[16] != 58
        || b[19] != 46 {
        None
    } else {
        match (
            fixed_digits(b, 0, 4),
            fixed_digits(b, 5, 2),
            fixed_digits(b, 8, 2),
            fixed_digits(b, 11, 2),
            fixed_digits(b, 14, 2),
            fixed_digits(b, 17, 2),
            fixed_digits(b, 20, 3),
        ) {
            (Some(y), Some(mo), Some(d), Some(h), Some(mi), Some(s), Some(ms)) => Some(
                (civil_seconds_millis(y, mo, d, h, mi, s) + ms) as i64,
            ),
            _ => None,
        }
    }
}

fn fixed(b: &[u8], off: usize, len: usize) -> (r: Option<i64>)
    requires
        off + len <= b@.len(),
    ensures
        oi64(r) == fixed_digits(b@, off as int, len as int),
        r matches Some(v) ==> 0 <= v < pow10(len as nat),
{
    proof {
        lemma_take_digits(b@, off as int, b@.len() as int);
    }
    match take_i64(b, off, b.len()) {
        Some((v, end)) => if end == off + len {
            Some(v)
        } else {
            None
        },
        None => None,
    }
}

pub open spec fn oi64(o: Option<i64>) -> Option<int> {
    match o {
        Some(v) => Some(v as int),
        None => None,
    }
}

/// `YYYY-MM-DD HH:MM:SS.mmm` to epoch milliseconds (UTC, no time zone).
pub fn epoch_millis(ts: &str) -> (r: Option<i64>)
    ensures
        r == epoch_millis_spec(bytes_of(ts)),
{
    let b = ts.as_bytes();
    if b.len() < 23 || b[4] != 45 || b[7] != 45 || b[10] != 32 || b[13] != 58 || b[16] != 58
        || b[19] != 46 {
        return None;
    }
    proof {
        reveal_with_fuel(pow10, 5);
    }
    let y = fixed(b, 0, 4);
    let mo = fixed(b, 5, 2);
    let d = fixed(b, 8, 2);
    let h = fixed(b, 11, 2);
    let mi = fixed(b, 14, 2);
    let s = fixed(b, 17, 2);
    let ms = fixed(b, 20, 3);
    match (y, mo, d, h, mi, s, ms) {
        (Some(y), Some(mo), Some(d), Some(h), Some(mi), Some(s), Some(ms)) => {
            let base = civil_to_millis(y, mo, d, h, mi, s);
            Some(base + ms)
        },
        _ => None,
    }
}

// ------------------------------------------------------------------ return value objects

/// Numbers read from the return value.
pub struct Objects {
    pub result_set: Option<i32>,
    pub pstmt: Option<i32>,
    pub handle: Option<i32>,
    pub session: Option<(int, int)>,
}

/// `prefix` at the start of `b[s..e]` followed by digits (more text may follow).
pub open spec fn digits_after(b: Seq<u8>, s: int, e: int, prefix: Seq<u8>) -> Option<i64> {
    if match_at(b, prefix, s, e) {
        match take_digits(b, s + prefix.len(), e) {
            Some((v, _)) => Some(v as i64),
            None => None,
        }
    } else {
        None
    }
}

/// `executeQuery(): rs-N` names the result set; `prepareStatement(): pstmt-N,
/// handle-M, sessionID-0x..` names the statement, its handle and session.
pub open spec fn objects_spec(b: Seq<u8>, rv: Option<(int, int)>, ids: Ids) -> Objects {
    let base = Objects { result_set: None, pstmt: ids.pstmt, handle: ids.handle, session: None };
    match rv {
        None => base,
        Some((s, e)) => match digits_after(b, s, e, lit("rs-")) {
            Some(v) => Objects { result_set: to_i32(v), ..base },
            None => match digits_after(b, s, e, lit("pstmt-")) {
                Some(v) => {
                    let handle = match find_in(b, lit("handle-"), s, e) {
                        Some(i) => match take_digits(b, i + lit("handle-").len(), e) {
                            Some((h, _)) => to_i32(h as i64),
                            None => ids.handle,
                        },
                        None => ids.handle,
                    };
                    let session = match find_in(b, lit("sessionID-"), s, e) {
                        Some(x) => {
                            let st = x + lit("sessionID-").len();
                            Some((st, skip_fwd(b, Class::HexOrX, st, e)))
                        },
                        None => None,
                    };
                    Objects { result_set: None, pstmt: to_i32(v), handle, session }
                },
                None => base,
            },
        },
    }
}

pub struct ObjectPos {
    pub result_set: Option<i32>,
    pub pstmt: Option<i32>,
    pub handle: Option<i32>,
    pub session: Option<(usize, usize)>,
}

impl ObjectPos {
    pub open spec fn view(&self) -> Objects {
        Objects {
            result_set: self.result_set,
            pstmt: self.pstmt,
            handle: self.handle,
            session: opt_ri(self.session),
        }
    }
}

fn digits_after_exec(b: &[u8], s: usize, e: usize, prefix: &[u8]) -> (r: Option<i64>)
    requires
        e <= b@.len(),
    ensures
        r == digits_after(b@, s as int, e as int, prefix@),
{
    if matches_at(b, prefix, s, e) {
        match take_i64(b, s + prefix.len(), e) {
            Some((v, _)) => Some(v),
            None => None,
        }
    } else {
        None
    }
}

fn objects(b: &[u8], rv: Option<(usize, usize)>, ids: Ids) -> (r: ObjectPos)
    requires
        opt_range_ok(b@, opt_ri(rv)),
    ensures
        r.view() == objects_spec(b@, opt_ri(rv), ids),
        opt_range_ok(b@, opt_ri(r.session)),
{
    proof {
        reveal_strlit("rs-");
        reveal_strlit("pstmt-");
        reveal_strlit("handle-");
        reveal_strlit("sessionID-");
    }
    let base = ObjectPos { result_set: None, pstmt: ids.pstmt, handle: ids.handle, session: None };
    match rv {
        None => base,
        Some((s, e)) => match digits_after_exec(b, s, e, lit_bytes("rs-")) {
            Some(v) => ObjectPos { result_set: narrow_i32(v), ..base },
            None => match digits_after_exec(b, s, e, lit_bytes("pstmt-")) {
                Some(v) => {
                    let handle_lit = lit_bytes("handle-");
                    proof {
                        lemma_find_in_bounds(b@, handle_lit@, s as int, e as int);
                    }
                    let handle = match text::find(b, handle_lit, s, e) {
                        Some(i) => match take_i64(b, i + handle_lit.len(), e) {
                            Some((h, _)) => narrow_i32(h),
                            None => ids.handle,
                        },
                        None => ids.handle,
                    };
                    let session_lit = lit_bytes("sessionID-");
                    proof {
                        lemma_find_in_bounds(b@, session_lit@, s as int, e as int);
                    }
                    let session = match text::find(b, session_lit, s, e) {
                        Some(x) => {
                            let st = x + session_lit.len();
                            proof {
                                lemma_find_cut_ok(b@, session_lit@, s as int, e as int);
                                lemma_skip_fwd(b@, Class::HexOrX, st as int, e as int);
                            }
                            Some((st, skip_forward(b, Class::HexOrX, st, e)))
                        },
                        None => None,
                    };
                    ObjectPos { result_set: None, pstmt: narrow_i32(v), handle, session }
                },
                None => base,
            },
        },
    }
}

// ------------------------------------------------------------------ bound parameters and columns

/// `setXxx` events carry `[PARAMS]: 1, "value"`: the index and the value.
pub open spec fn bind_spec(b: Seq<u8>, kind: Kind, params: Option<(int, int)>) -> (
    Option<i32>,
    Option<(int, int)>,
) {
    match (kind, params) {
        (Kind::Bind, Some((ps, pe))) => match take_digits(b, ps, pe) {
            Some((idx, ni)) => {
                let vs = skip_fwd(b, Class::CommaWs, ni, pe);
                let t = trim_blank(b, vs, pe);
                (
                    to_i32(idx as i64),
                    if t.0 < t.1 {
                        Some(t)
                    } else {
                        None
                    },
                )
            },
            None => (None, None),
        },
        _ => (None, None),
    }
}

/// `getXxx` events carry `[PARAMS]: "column"`: the quoted column name.
pub open spec fn column_spec(b: Seq<u8>, method: (int, int), params: Option<(int, int)>) -> Option<
    (int, int),
> {
    match params {
        Some((ps, pe)) => if starts(span(b, method), lit("get")) && pe - ps >= 2 && b[ps] == 34
            && b[pe - 1] == 34 {
            Some((ps + 1, pe - 1))
        } else {
            None
        },
        None => None,
    }
}

fn bind(b: &[u8], kind: Kind, params: Option<(usize, usize)>) -> (r: (
    Option<i32>,
    Option<(usize, usize)>,
))
    requires
        opt_range_ok(b@, opt_ri(params)),
    ensures
        (r.0, opt_ri(r.1)) == bind_spec(b@, kind, opt_ri(params)),
        opt_range_ok(b@, opt_ri(r.1)),
{
    match (kind, params) {
        (Kind::Bind, Some((ps, pe))) => {
            proof {
                lemma_take_digits(b@, ps as int, pe as int);
            }
            match take_i64(b, ps, pe) {
                Some((idx, ni)) => {
                    let vs = skip_forward(b, Class::CommaWs, ni, pe);
                    proof {
                        lemma_skip_fwd(b@, Class::CommaWs, ni as int, pe as int);
                    }
                    let t = trim_range(b, vs, pe);
                    (
                        narrow_i32(idx),
                        if t.0 < t.1 {
                            Some(t)
                        } else {
                            None
                        },
                    )
                },
                None => (None, None),
            }
        },
        _ => (None, None),
    }
}

fn column(b: &[u8], method: (usize, usize), params: Option<(usize, usize)>) -> (r: Option<
    (usize, usize),
>)
    requires
        range_ok(b@, ri(method)),
        opt_range_ok(b@, opt_ri(params)),
    ensures
        opt_ri(r) == column_spec(b@, ri(method), opt_ri(params)),
        opt_range_ok(b@, opt_ri(r)),
{
    proof {
        reveal_strlit("get");
    }
    match params {
        Some((ps, pe)) => {
            let get = lit_bytes("get");
            let is_get = matches_at(b, get, method.0, method.1);
            assert(is_get == starts(span(b@, ri(method)), lit("get"))) by {
                if is_get {
                    assert(span(b@, ri(method)).subrange(0, 3) =~= b@.subrange(
                        method.0 as int,
                        method.0 + 3,
                    ));
                }
                if starts(span(b@, ri(method)), lit("get")) {
                    assert(span(b@, ri(method)).subrange(0, 3) =~= b@.subrange(
                        method.0 as int,
                        method.0 + 3,
                    ));
                }
            }
            if is_get && pe - ps >= 2 && b[ps] == 34 && b[pe - 1] == 34 {
                Some((ps + 1, pe - 1))
            } else {
                None
            }
        },
        None => None,
    }
}


// ------------------------------------------------------------------ the whole record

/// The fields of a parsed JDBC record, as bytes and numbers.
pub struct JdbcRecord {
    pub level: Seq<u8>,
    pub event_time_text: Seq<u8>,
    pub event_time_ms: Option<i64>,
    pub tid: Option<i32>,
    pub thread: Seq<u8>,
    pub conn_id: Option<i32>,
    pub pstmt_id: Option<i32>,
    pub rs_id: Option<i32>,
    pub result_set_id: Option<i32>,
    pub handle_id: Option<i32>,
    pub session_id_hex: Option<Seq<u8>>,
    pub method: Seq<u8>,
    pub arg_types: Seq<u8>,
    pub return_value: Option<Seq<u8>>,
    pub params: Option<Seq<u8>>,
    pub param_index: Option<i32>,
    pub param_value: Option<Seq<u8>>,
    pub column_name: Option<Seq<u8>>,
    pub used_time_text: Option<Seq<u8>>,
    pub exec_id: Option<i64>,
    pub cmd: Option<Seq<u8>>,
    pub category: Seq<char>,
}

pub open spec fn opt_span(b: Seq<u8>, o: Option<(int, int)>) -> Option<Seq<u8>> {
    match o {
        Some(r) => Some(span(b, r)),
        None => None,
    }
}

/// The record read from a line whose header is `h`.
pub open spec fn record_of(b: Seq<u8>, h: Head) -> JdbcRecord {
    let m = markers_spec(b, h);
    let rv = return_spec(b, h, m);
    let params = params_spec(b, m);
    let ids = ids_fold(b, h.ids.0, h.ids.1, no_ids());
    let objs = objects_spec(b, rv, ids);
    let kind = kind_of(span(b, h.method));
    let bound = bind_spec(b, kind, params);
    JdbcRecord {
        level: span(b, h.level),
        event_time_text: span(b, h.ts),
        event_time_ms: epoch_millis_spec(span(b, h.ts)),
        tid: to_i32(h.tid),
        thread: span(b, h.thread),
        conn_id: ids.conn,
        pstmt_id: objs.pstmt,
        rs_id: ids.rs,
        result_set_id: match objs.result_set {
            Some(x) => Some(x),
            None => ids.rs,
        },
        handle_id: objs.handle,
        session_id_hex: opt_span(b, objs.session),
        method: span(b, h.method),
        arg_types: span(b, h.args),
        return_value: opt_span(b, rv),
        params: opt_span(b, params),
        param_index: bound.0,
        param_value: opt_span(b, bound.1),
        column_name: opt_span(b, column_spec(b, h.method, params)),
        used_time_text: opt_span(b, used_time_spec(b, m)),
        exec_id: exec_id_spec(b, m),
        cmd: opt_span(b, cmd_spec(b, m)),
        category: kind_name(kind),
    }
}

/// What parsing the line `b` gives: its record, or the first failure.
pub open spec fn parse_spec(b: Seq<u8>) -> Result<JdbcRecord, Fail> {
    match head_spec(b) {
        Ok(h) => Ok(record_of(b, h)),
        Err(f) => Err(f),
    }
}

fn markers(b: &[u8], h: &HeadPos) -> (m: MarkerPos)
    requires
        h.ranges_ok(b@),
    ensures
        m.view() == markers_spec(b@, h.view()),
        opt_cut_ok(b@, oi(m.params), lit("[PARAMS]: ").len() as int),
        opt_cut_ok(b@, oi(m.time), lit("[USED TIME]: ").len() as int),
        opt_cut_ok(b@, oi(m.exec_id), lit("[EXEC_ID]: ").len() as int),
        opt_cut_ok(b@, oi(m.cmd), lit("CMD_").len() as int),
{
    proof {
        reveal_strlit("[PARAMS]: ");
        reveal_strlit("[USED TIME]: ");
        reveal_strlit("[EXEC_ID]: ");
        reveal_strlit("CMD_");
    }
    MarkerPos {
        params: marker(b, "[PARAMS]: ", h),
        time: marker(b, "[USED TIME]: ", h),
        exec_id: marker(b, "[EXEC_ID]: ", h),
        cmd: marker(b, "CMD_", h),
    }
}

pub open spec fn markers_ok(b: Seq<u8>, m: Markers) -> bool {
    &&& opt_cut_ok(b, m.params, lit("[PARAMS]: ").len() as int)
    &&& opt_cut_ok(b, m.time, lit("[USED TIME]: ").len() as int)
    &&& opt_cut_ok(b, m.exec_id, lit("[EXEC_ID]: ").len() as int)
    &&& opt_cut_ok(b, m.cmd, lit("CMD_").len() as int)
}

fn return_value(b: &[u8], h: &HeadPos, m: &MarkerPos) -> (r: Option<(usize, usize)>)
    requires
        h.ranges_ok(b@),
        markers_ok(b@, m.view()),
    ensures
        opt_ri(r) == return_spec(b@, h.view(), m.view()),
        opt_range_ok(b@, opt_ri(r)),
{
    let n = b.len();
    if h.after < n && b[h.after] == 58 {
        let first = min_pos(min_pos(min_pos(m.params, m.time), m.exec_id), m.cmd);
        let end = match first {
            Some(x) => x,
            None => n,
        };
        if end > h.after + 1 {
            value_in(b, h.after + 1, end)
        } else {
            None
        }
    } else {
        None
    }
}

fn params(b: &[u8], m: &MarkerPos) -> (r: Option<(usize, usize)>)
    requires
        markers_ok(b@, m.view()),
    ensures
        opt_ri(r) == params_spec(b@, m.view()),
        opt_range_ok(b@, opt_ri(r)),
{
    proof {
        reveal_strlit("[PARAMS]: ");
    }
    let n = b.len();
    match m.params {
        Some(p) => {
            let start = p + lit_bytes("[PARAMS]: ").len();
            let next = min_pos(
                min_pos(after_pos(m.time, start), after_pos(m.exec_id, start)),
                after_pos(m.cmd, start),
            );
            let end = match next {
                Some(x) => x,
                None => n,
            };
            if end > start {
                value_in(b, start, end)
            } else {
                None
            }
        },
        None => None,
    }
}

fn used_time(b: &[u8], m: &MarkerPos) -> (r: Option<(usize, usize)>)
    requires
        markers_ok(b@, m.view()),
    ensures
        opt_ri(r) == used_time_spec(b@, m.view()),
        opt_range_ok(b@, opt_ri(r)),
{
    proof {
        reveal_strlit("[USED TIME]: ");
        reveal_strlit("ms");
    }
    let n = b.len();
    match m.time {
        Some(p) => {
            let start = p + lit_bytes("[USED TIME]: ").len();
            let ms_lit = lit_bytes("ms");
            proof {
                lemma_find_in_bounds(b@, ms_lit@, start as int, n as int);
            }
            match text::find(b, ms_lit, start, n) {
                Some(mm) => {
                    proof {
                        lemma_find_cut_ok(b@, ms_lit@, start as int, n as int);
                    }
                    let t = trim_range(b, start, mm);
                    if t.0 < t.1 {
                        Some(t)
                    } else {
                        None
                    }
                },
                None => None,
            }
        },
        None => None,
    }
}

fn exec_id(b: &[u8], m: &MarkerPos) -> (r: Option<i64>)
    requires
        markers_ok(b@, m.view()),
    ensures
        r == exec_id_spec(b@, m.view()),
{
    proof {
        reveal_strlit("[EXEC_ID]: ");
    }
    let n = b.len();
    let exec_lit = lit_bytes("[EXEC_ID]: ");
    match m.exec_id {
        Some(p) => {
            let start = p + exec_lit.len();
            match take_i64(b, start, n) {
                Some((v, _)) => Some(v),
                None => None,
            }
        },
        None => None,
    }
}

fn cmd(b: &[u8], m: &MarkerPos) -> (r: Option<(usize, usize)>)
    requires
        markers_ok(b@, m.view()),
    ensures
        opt_ri(r) == cmd_spec(b@, m.view()),
        opt_range_ok(b@, opt_ri(r)),
{
    proof {
        reveal_strlit("CMD_");
    }
    let n = b.len();
    match m.cmd {
        Some(p) => {
            let e = skip_forward(b, Class::UpperDigitUnderscore, p, n);
            proof {
                lemma_skip_fwd(b@, Class::UpperDigitUnderscore, p as int, n as int);
            }
            if e - p > lit_bytes("CMD_").len() {
                Some((p, e))
            } else {
                None
            }
        },
        None => None,
    }
}


// ------------------------------------------------------------------ events

/// A parsed line whose text fields borrow from the line.
#[derive(Debug, Clone)]
pub struct Event<'a> {
    pub level: &'a str,
    pub event_time_text: &'a str,
    /// `event_time_text` as epoch milliseconds.
    pub event_time_ms: Option<i64>,
    pub tid: Option<i32>,
    pub thread: &'a str,
    pub conn_id: Option<i32>,
    pub pstmt_id: Option<i32>,
    pub rs_id: Option<i32>,
    /// The result set: `rs-N` from the return value of `executeQuery`,
    /// otherwise `rs-N` from the id block.
    pub result_set_id: Option<i32>,
    pub handle_id: Option<i32>,
    pub session_id_hex: Option<&'a str>,
    pub method: &'a str,
    pub arg_types: &'a str,
    pub return_value: Option<&'a str>,
    pub params: Option<&'a str>,
    pub param_index: Option<i32>,
    pub param_value: Option<&'a str>,
    pub column_name: Option<&'a str>,
    /// The number before `ms` in `[USED TIME]:`.
    pub used_time_text: Option<&'a str>,
    pub exec_id: Option<i64>,
    pub cmd: Option<&'a str>,
    pub category: &'static str,
}

pub open spec fn obytes(o: Option<&str>) -> Option<Seq<u8>> {
    match o {
        Some(s) => Some(bytes_of(s)),
        None => None,
    }
}

/// The UTF-8 bytes of a string.
pub open spec fn sbytes(s: String) -> Seq<u8> {
    encode_utf8(s@)
}

pub open spec fn osbytes(o: Option<String>) -> Option<Seq<u8>> {
    match o {
        Some(s) => Some(sbytes(s)),
        None => None,
    }
}

/// A copy of a line's event that does not borrow from the line.
#[derive(Debug, Clone, PartialEq)]
pub struct DriverLogEvent {
    pub line_number: u64,
    pub raw: String,
    pub level: String,
    pub event_time_text: String,
    pub event_time_ms: Option<i64>,
    pub tid: Option<i32>,
    pub thread: String,
    pub conn_id: Option<i32>,
    pub pstmt_id: Option<i32>,
    pub rs_id: Option<i32>,
    pub result_set_id: Option<i32>,
    pub handle_id: Option<i32>,
    pub session_id_hex: Option<String>,
    pub method: String,
    pub arg_types: String,
    pub return_value: Option<String>,
    pub params: Option<String>,
    pub param_index: Option<i32>,
    pub param_value: Option<String>,
    pub column_name: Option<String>,
    pub used_time_text: Option<String>,
    pub exec_id: Option<i64>,
    pub cmd: Option<String>,
    pub category: &'static str,
}

/// Another name for [`DriverLogEvent`].
pub type JdbcEvent = DriverLogEvent;

impl<'a> Default for Event<'a> {
    /// An event with empty texts and no values.
    fn default() -> (r: Self)
        ensures
            r.level@.len() == 0,
            r.event_time_text@.len() == 0,
            r.thread@.len() == 0,
            r.method@.len() == 0,
            r.arg_types@.len() == 0,
            r.category@.len() == 0,
            r.event_time_ms is None,
            r.tid is None,
            r.conn_id is None,
            r.pstmt_id is None,
            r.rs_id is None,
            r.result_set_id is None,
            r.handle_id is None,
            r.session_id_hex is None,
            r.return_value is None,
            r.params is None,
            r.param_index is None,
            r.param_value is None,
            r.column_name is None,
            r.used_time_text is None,
            r.exec_id is None,
            r.cmd is None,
    {
        proof {
            reveal_strlit("");
        }
        Event {
            level: "",
            event_time_text: "",
            event_time_ms: None,
            tid: None,
            thread: "",
            conn_id: None,
            pstmt_id: None,
            rs_id: None,
            result_set_id: None,
            handle_id: None,
            session_id_hex: None,
            method: "",
            arg_types: "",
            return_value: None,
            params: None,
            param_index: None,
            param_value: None,
            column_name: None,
            used_time_text: None,
            exec_id: None,
            cmd: None,
            category: "",
        }
    }
}

impl<'a> Event<'a> {
    pub open spec fn record(&self) -> JdbcRecord {
        JdbcRecord {
            level: bytes_of(self.level),
            event_time_text: bytes_of(self.event_time_text),
            event_time_ms: self.event_time_ms,
            tid: self.tid,
            thread: bytes_of(self.thread),
            conn_id: self.conn_id,
            pstmt_id: self.pstmt_id,
            rs_id: self.rs_id,
            result_set_id: self.result_set_id,
            handle_id: self.handle_id,
            session_id_hex: obytes(self.session_id_hex),
            method: bytes_of(self.method),
            arg_types: bytes_of(self.arg_types),
            return_value: obytes(self.return_value),
            params: obytes(self.params),
            param_index: self.param_index,
            param_value: obytes(self.param_value),
            column_name: obytes(self.column_name),
            used_time_text: obytes(self.used_time_text),
            exec_id: self.exec_id,
            cmd: obytes(self.cmd),
            category: self.category@,
        }
    }

    /// An event with every field empty, of category `"unparsed"`.
    pub fn degraded() -> (r: Event<'static>)
        ensures
            r.category@ == "unparsed"@,
            r.level@.len() == 0,
            r.event_time_text@.len() == 0,
            r.thread@.len() == 0,
            r.method@.len() == 0,
            r.arg_types@.len() == 0,
            r.event_time_ms is None,
            r.tid is None,
            r.conn_id is None,
            r.pstmt_id is None,
            r.rs_id is None,
            r.result_set_id is None,
            r.handle_id is None,
            r.session_id_hex is None,
            r.return_value is None,
            r.params is None,
            r.param_index is None,
            r.param_value is None,
            r.column_name is None,
            r.used_time_text is None,
            r.exec_id is None,
            r.cmd is None,
    {
        proof {
            reveal_strlit("");
        }
        Event {
            level: "",
            event_time_text: "",
            event_time_ms: None,
            tid: None,
            thread: "",
            conn_id: None,
            pstmt_id: None,
            rs_id: None,
            result_set_id: None,
            handle_id: None,
            session_id_hex: None,
            method: "",
            arg_types: "",
            return_value: None,
            params: None,
            param_index: None,
            param_value: None,
            column_name: None,
            used_time_text: None,
            exec_id: None,
            cmd: None,
            category: "unparsed",
        }
    }

    /// Copies the event so that it no longer borrows from the line, and
    /// records the line text and its line number.
    pub fn to_owned(&self, raw: &str, line_number: u64) -> (r: DriverLogEvent)
        ensures
            r.record() == self.record(),
            r.raw@ == raw@,
            r.line_number == line_number,
    {
        DriverLogEvent {
            line_number,
            raw: raw.to_owned(),
            level: self.level.to_owned(),
            event_time_text: self.event_time_text.to_owned(),
            event_time_ms: self.event_time_ms,
            tid: self.tid,
            thread: self.thread.to_owned(),
            conn_id: self.conn_id,
            pstmt_id: self.pstmt_id,
            rs_id: self.rs_id,
            result_set_id: self.result_set_id,
            handle_id: self.handle_id,
            session_id_hex: own(self.session_id_hex),
            method: self.method.to_owned(),
            arg_types: self.arg_types.to_owned(),
            return_value: own(self.return_value),
            params: own(self.params),
            param_index: self.param_index,
            param_value: own(self.param_value),
            column_name: own(self.column_name),
            used_time_text: own(self.used_time_text),
            exec_id: self.exec_id,
            cmd: own(self.cmd),
            category: self.category,
        }
    }
}

fn own(o: Option<&str>) -> (r: Option<String>)
    ensures
        osbytes(r) == obytes(o),
{
    match o {
        Some(s) => Some(s.to_owned()),
        None => None,
    }
}

impl DriverLogEvent {
    pub open spec fn record(&self) -> JdbcRecord {
        JdbcRecord {
            level: sbytes(self.level),
            event_time_text: sbytes(self.event_time_text),
            event_time_ms: self.event_time_ms,
            tid: self.tid,
            thread: sbytes(self.thread),
            conn_id: self.conn_id,
            pstmt_id: self.pstmt_id,
            rs_id: self.rs_id,
            result_set_id: self.result_set_id,
            handle_id: self.handle_id,
            session_id_hex: osbytes(self.session_id_hex),
            method: sbytes(self.method),
            arg_types: sbytes(self.arg_types),
            return_value: osbytes(self.return_value),
            params: osbytes(self.params),
            param_index: self.param_index,
            param_value: osbytes(self.param_value),
            column_name: osbytes(self.column_name),
            used_time_text: osbytes(self.used_time_text),
            exec_id: self.exec_id,
            cmd: osbytes(self.cmd),
            category: self.category@,
        }
    }
}

fn opt_slice<'a>(line: &'a str, o: Option<(usize, usize)>) -> (r: Option<&'a str>)
    requires
        opt_range_ok(bytes_of(line), opt_ri(o)),
    ensures
        obytes(r) == opt_span(bytes_of(line), opt_ri(o)),
{
    match o {
        Some((s, e)) => Some(slice_str(line, s, e)),
        None => None,
    }
}

fn span_str<'a>(line: &'a str, r: (usize, usize)) -> (s: &'a str)
    requires
        range_ok(bytes_of(line), ri(r)),
    ensures
        bytes_of(s) == span(bytes_of(line), ri(r)),
{
    slice_str(line, r.0, r.1)
}

#[verifier::rlimit(80)]
#[verifier::spinoff_prover]
fn parse_inner(line: &str) -> (r: Result<Event<'_>, ParseError>)
    ensures
        match r {
            Ok(ev) => parse_spec(bytes_of(line)) == Ok::<JdbcRecord, Fail>(ev.record()),
            Err(e) => parse_spec(bytes_of(line)) matches Err(f) && is_fail(e, f),
        },
{
    let b = line.as_bytes();
    let h = match parse_head(b) {
        Ok(h) => h,
        Err(e) => return Err(e),
    };
    let m = markers(b, &h);
    let rv = return_value(b, &h, &m);
    let params = params(b, &m);
    let used = used_time(b, &m);
    let exec = exec_id(b, &m);
    let cmd = cmd(b, &m);
    let ids = parse_ids(b, h.ids.0, h.ids.1);
    let objs = objects(b, rv, ids);
    let method = span_str(line, h.method);
    let kind = kind_of_bytes(method.as_bytes());
    let bound = bind(b, kind, params);
    let col = column(b, h.method, params);
    let ts = span_str(line, h.ts);
    let result_set_id = match objs.result_set {
        Some(x) => Some(x),
        None => ids.rs,
    };
    Ok(
        Event {
            level: span_str(line, h.level),
            event_time_text: ts,
            event_time_ms: epoch_millis(ts),
            tid: narrow_i32(h.tid),
            thread: span_str(line, h.thread),
            conn_id: ids.conn,
            pstmt_id: objs.pstmt,
            rs_id: ids.rs,
            result_set_id,
            handle_id: objs.handle,
            session_id_hex: opt_slice(line, objs.session),
            method,
            arg_types: span_str(line, h.args),
            return_value: opt_slice(line, rv),
            params: opt_slice(line, params),
            param_index: bound.0,
            param_value: opt_slice(line, bound.1),
            column_name: opt_slice(line, col),
            used_time_text: opt_slice(line, used),
            exec_id: exec,
            cmd: opt_slice(line, cmd),
            category: kind.name(),
        },
    )
}

/// Parses one line (without its line ending). On failure the error carries
/// the line as its raw text and line number 0.
pub fn parse(line: &str) -> (r: Result<Event<'_>, ParseError>)
    ensures
        match r {
            Ok(ev) => parse_spec(bytes_of(line)) == Ok::<JdbcRecord, Fail>(ev.record()),
            Err(e) => parse_spec(bytes_of(line)) matches Err(f) && is_fail_in(e, f, line@, 0),
        },
{
    match parse_inner(line) {
        Ok(ev) => Ok(ev),
        Err(e) => Err(e.with_context(line, 0)),
    }
}

/// The first position at or after `from` where `needle` occurs in `hay`;
/// `None` for an empty needle.
pub fn find(hay: &[u8], needle: &[u8], from: usize) -> (r: Option<usize>)
    ensures
        oi(r) == find_in(hay@, needle@, from as int, hay@.len() as int),
{
    text::find(hay, needle, from, hay.len())
}

/// The text of UTF-8 bytes without leading and trailing spaces, tabs, CRs
/// and LFs.
pub fn trim(b: &[u8]) -> (r: &str)
    requires
        valid_utf8(b@),
    ensures
        bytes_of(r) == span(b@, trim_blank(b@, 0, b@.len() as int)),
        r@ == trim_blank_chars(decode_utf8(b@)),
{
    let text = utf8_strict(b).unwrap();
    proof {
        decode_utf8_encode_utf8(b@);
    }
    let bb = text.as_bytes();
    assert(bb@ == b@);
    let (s, e) = trim_range(bb, 0, bb.len());
    let r = slice_str(text, s, e);
    proof {
        lemma_trim_bytes_is_trim_chars(decode_utf8(b@));
        encode_utf8_decode_utf8(r@);
        encode_utf8_decode_utf8(trim_blank_chars(decode_utf8(b@)));
    }
    r
}

/// The JDBC log format: one record per physical line.
#[derive(Copy, Clone, Debug, Default)]
pub struct JdbcFormat;

impl JdbcFormat {
    /// Whether a line starts a record: it starts with `'['`.
    pub fn is_record_start(line: &str) -> (r: bool)
        ensures
            r == (bytes_of(line).len() > 0 && bytes_of(line)[0] == 91),
    {
        let b = line.as_bytes();
        b.len() > 0 && b[0] == 91
    }

    /// Parses a record found at `line_number` into an owned event that keeps
    /// the record text.
    pub fn parse_record(record: &str, line_number: u64) -> (r: Result<DriverLogEvent, ParseError>)
        ensures
            match r {
                Ok(ev) => parse_spec(bytes_of(record)) == Ok::<JdbcRecord, Fail>(ev.record())
                    && ev.raw@ == record@ && ev.line_number == line_number,
                Err(e) => parse_spec(bytes_of(record)) matches Err(f) && is_fail_in(
                    e,
                    f,
                    record@,
                    0,
                ),
            },
    {
        match parse(record) {
            Ok(ev) => Ok(ev.to_owned(record, line_number)),
            Err(e) => Err(e),
        }
    }
}


/// Parses one line into an event that owns its text. Its `line_number` is 0;
/// file iterators fill in line numbers.
pub fn parse_line(line: &str) -> (r: Result<DriverLogEvent, ParseError>)
    ensures
        match r {
            Ok(ev) => parse_spec(bytes_of(line)) == Ok::<JdbcRecord, Fail>(ev.record())
                && ev.raw@ == line@ && ev.line_number == 0,
            Err(e) => parse_spec(bytes_of(line)) matches Err(f) && is_fail_in(e, f, line@, 0),
        },
{
    match parse(line) {
        Ok(ev) => Ok(ev.to_owned(line, 0)),
        Err(e) => Err(e),
    }
}

/// Parses one line given as bytes in the given encoding.
pub fn parse_bytes_with_encoding(line: &[u8], encoding: FileEncodingHint) -> (r: Result<
    DriverLogEvent,
    ParseError,
>)
    ensures
        match r {
            Ok(ev) => parse_spec(encode_utf8(decode_spec(line@, encoding))) == Ok::<
                JdbcRecord,
                Fail,
            >(ev.record()) && ev.raw@ == decode_spec(line@, encoding) && ev.line_number == 0,
            Err(e) => parse_spec(encode_utf8(decode_spec(line@, encoding))) matches Err(f)
                && is_fail_in(e, f, decode_spec(line@, encoding), 0),
        },
{
    let text = decode(line, encoding);
    parse_line(text.as_str())
}

/// Parses one line given as bytes: UTF-8, or GB18030 when it is not valid
/// UTF-8.
pub fn parse_bytes(line: &[u8]) -> (r: Result<DriverLogEvent, ParseError>)
    ensures
        match r {
            Ok(ev) => parse_spec(encode_utf8(decode_spec(line@, FileEncodingHint::Auto))) == Ok::<
                JdbcRecord,
                Fail,
            >(ev.record()) && ev.raw@ == decode_spec(line@, FileEncodingHint::Auto)
                && ev.line_number == 0,
            Err(e) => parse_spec(encode_utf8(decode_spec(line@, FileEncodingHint::Auto))) matches Err(
                f,
            ) && is_fail_in(e, f, decode_spec(line@, FileEncodingHint::Auto), 0),
        },
{
    parse_bytes_with_encoding(line, FileEncodingHint::Auto)
}

// ------------------------------------------------------------------ laws of a parsed line

/// The position of the first `']'` of a line, and of the first `" - "`
/// before it.
pub open spec fn level_cut(b: Seq<u8>) -> (int, int) {
    let n = b.len() as int;
    let he = match find_in(b, lit("]"), 1, n) {
        Some(x) => x,
        None => n,
    };
    let sep = match find_in(b, lit(" - "), 1, he) {
        Some(x) => x,
        None => he,
    };
    (sep, he)
}

/// The number after `tid:` in a line's header.
pub open spec fn tid_number(b: Seq<u8>) -> int {
    let i0 = skip_fwd(b, Class::Space, level_cut(b).1 + 1, b.len() as int);
    match take_digits(b, i0 + 4, b.len() as int) {
        Some((v, _)) => v,
        None => 0,
    }
}

/// In a parsed JDBC line, the level and the timestamp are the trimmed texts
/// before and after the first `" - "` inside the leading `[..]`; the event
/// time is the timestamp read by [`epoch_millis`]; the category is the one
/// [`category_of`] gives for the method; the tid is the number after `tid:`
/// when it fits an `i32`.
#[verifier::rlimit(80)]
#[verifier::spinoff_prover]
pub proof fn lemma_line_fields(b: Seq<u8>)
    requires
        parse_spec(b) is Ok,
    ensures
        ({
            let r = parse_spec(b)->Ok_0;
            let (sep, he) = level_cut(b);
            &&& r.level == span(b, trim_blank(b, 1, sep))
            &&& r.event_time_text == span(b, trim_blank(b, sep + 3, he))
            &&& r.event_time_ms == epoch_millis_spec(r.event_time_text)
            &&& r.category == kind_name(kind_of(r.method))
            &&& r.tid == to_i32(tid_number(b) as i64)
        }),
{
}

/// The result set that a return value names: `rs-N` at its start, when `N`
/// fits an `i32`.
pub open spec fn rs_named_by(v: Seq<u8>) -> Option<i32> {
    match digits_after(v, 0, v.len() as int, lit("rs-")) {
        Some(n) => to_i32(n),
        None => None,
    }
}

pub proof fn lemma_skip_fwd_shift(b: Seq<u8>, k: Class, s: int, e: int, i: int)
    requires
        0 <= s <= i <= e <= b.len(),
    ensures
        skip_fwd(b, k, i, e) == s + skip_fwd(b.subrange(s, e), k, i - s, e - s),
    decreases e - i,
{
    if i < e {
        assert(b.subrange(s, e)[i - s] == b[i]);
        lemma_skip_fwd_shift(b, k, s, e, i + 1);
    }
}

pub proof fn lemma_dec_value_shift(b: Seq<u8>, s: int, e: int, i: int, j: int)
    requires
        0 <= s <= i,
        j <= e <= b.len(),
    ensures
        dec_value(b, i, j) == dec_value(b.subrange(s, e), i - s, j - s),
    decreases j - i,
{
    if j > i {
        assert(b.subrange(s, e)[j - 1 - s] == b[j - 1]);
        lemma_dec_value_shift(b, s, e, i, j - 1);
    }
}

pub proof fn lemma_digits_after_shift(b: Seq<u8>, s: int, e: int, prefix: Seq<u8>)
    requires
        0 <= s <= e <= b.len(),
    ensures
        digits_after(b, s, e, prefix) == digits_after(b.subrange(s, e), 0, e - s, prefix),
{
    let v = b.subrange(s, e);
    if s + prefix.len() <= e {
        assert(v.subrange(0, prefix.len() as int) =~= b.subrange(s, s + prefix.len()));
        let i = s + prefix.len();
        lemma_skip_fwd_shift(b, Class::Digit, s, e, i);
        let j = skip_fwd(b, Class::Digit, i, e);
        lemma_skip_fwd(b, Class::Digit, i, e);
        lemma_dec_value_shift(b, s, e, i, j);
    }
}

proof fn lemma_return_range(b: Seq<u8>, h: Head)
    requires
        head_spec(b) == Ok::<Head, Fail>(h),
    ensures
        return_spec(b, h, markers_spec(b, h)) matches Some((s, e)) ==> 0 <= s <= e <= b.len(),
        0 <= h.after <= b.len(),
        0 <= h.rest,
{
    let n = b.len() as int;
    reveal_strlit("]");
    reveal_strlit(" - ");
    reveal_strlit("[");
    reveal_strlit("{");
    reveal_strlit("}");
    reveal_strlit("(");
    reveal_strlit(")");
    reveal_strlit("tid:");
    reveal_strlit("-");
    let he = find_in(b, lit("]"), 1, n)->Some_0;
    lemma_find_in_bounds(b, lit("]"), 1, n);
    let i0 = skip_fwd(b, Class::Space, he + 1, n);
    lemma_skip_fwd(b, Class::Space, he + 1, n);
    lemma_take_digits(b, i0 + 4, n);
    let ni = take_digits(b, i0 + 4, n)->Some_0.1;
    let i2 = skip_fwd(b, Class::Space, ni, n);
    lemma_skip_fwd(b, Class::Space, ni, n);
    let i3 = skip_fwd(b, Class::Space, i2 + 1, n);
    lemma_skip_fwd(b, Class::Space, i2 + 1, n);
    let te = find_in(b, lit("]"), i3 + 1, n)->Some_0;
    lemma_find_in_bounds(b, lit("]"), i3 + 1, n);
    let i4 = skip_fwd(b, Class::Space, te + 1, n);
    lemma_skip_fwd(b, Class::Space, te + 1, n);
    let ie = find_in(b, lit("}"), i4 + 1, n)->Some_0;
    lemma_find_in_bounds(b, lit("}"), i4 + 1, n);
    let r0 = skip_fwd(b, Class::SpaceTab, ie + 1, n);
    lemma_skip_fwd(b, Class::SpaceTab, ie + 1, n);
    let po = find_in(b, lit("("), r0, n)->Some_0;
    lemma_find_in_bounds(b, lit("("), r0, n);
    lemma_find_in_bounds(b, lit(")"), po + 1, n);
    assert(h.after >= 0);
    let m = markers_spec(b, h);
    reveal_strlit("[PARAMS]: ");
    reveal_strlit("[USED TIME]: ");
    reveal_strlit("[EXEC_ID]: ");
    reveal_strlit("CMD_");
    lemma_marker_scan(b, lit("[PARAMS]: "), h.rest, true, h.after, None, false);
    lemma_marker_scan(b, lit("[USED TIME]: "), h.rest, true, h.after, None, false);
    lemma_marker_scan(b, lit("[EXEC_ID]: "), h.rest, true, h.after, None, false);
    lemma_marker_scan(b, lit("CMD_"), h.rest, true, h.after, None, false);
    if h.after < n && b[h.after] == 58 {
        let end = match min_opt(min_opt(min_opt(m.params, m.time), m.exec_id), m.cmd) {
            Some(x) => x,
            None => n,
        };
        if end > h.after + 1 {
            assert(end <= n);
            let t = trim_blank(b, h.after + 1, end);
            lemma_skip_fwd(b, Class::Blank, h.after + 1, end);
            lemma_skip_back(b, Class::Blank, t.0, end);
            lemma_skip_back(b, Class::SemiSpace, t.0, t.1);
        }
    }
}

/// In a parsed JDBC line, the result set is the `rs-N` that the return value
/// starts with, when `N` fits an `i32`; otherwise the `rs-` token of the id
/// block.
#[verifier::rlimit(80)]
#[verifier::spinoff_prover]
pub proof fn lemma_result_set_from_return_value(b: Seq<u8>)
    requires
        parse_spec(b) is Ok,
    ensures
        ({
            let r = parse_spec(b)->Ok_0;
            r.result_set_id == match r.return_value {
                Some(v) => match rs_named_by(v) {
                    Some(n) => Some(n),
                    None => r.rs_id,
                },
                None => r.rs_id,
            }
        }),
{
    let h = head_spec(b)->Ok_0;
    let m = markers_spec(b, h);
    let rv = return_spec(b, h, m);
    lemma_return_range(b, h);
    reveal_strlit("rs-");
    reveal_strlit("pstmt-");
    match rv {
        Some((s, e)) => {
            lemma_digits_after_shift(b, s, e, lit("rs-"));
        },
        None => {},
    }
}

// ------------------------------------------------------------------ trim on characters

/// Space, tab, CR and LF.
pub open spec fn blank_char(c: char) -> bool {
    c == ' ' || c == '\t' || c == '\r' || c == '\n'
}

pub open spec fn drop_blank_front(cs: Seq<char>) -> Seq<char>
    decreases cs.len(),
{
    if cs.len() > 0 && blank_char(cs[0]) {
        drop_blank_front(cs.drop_first())
    } else {
        cs
    }
}

pub open spec fn drop_blank_back(cs: Seq<char>) -> Seq<char>
    decreases cs.len(),
{
    if cs.len() > 0 && blank_char(cs.last()) {
        drop_blank_back(cs.drop_last())
    } else {
        cs
    }
}

/// The characters without leading and trailing spaces, tabs, CRs and LFs.
pub open spec fn trim_blank_chars(cs: Seq<char>) -> Seq<char> {
    drop_blank_back(drop_blank_front(cs))
}

proof fn lemma_encode_concat(a: Seq<char>, c: Seq<char>)
    ensures
        encode_utf8(a + c) == encode_utf8(a) + encode_utf8(c),
    decreases a.len(),
{
    if a.len() > 0 {
        assert((a + c).drop_first() =~= a.drop_first() + c);
        lemma_encode_concat(a.drop_first(), c);
        assert(encode_utf8(a + c) =~= encode_utf8(a) + encode_utf8(c));
    } else {
        assert(a + c =~= c);
        assert(encode_utf8(a) =~= Seq::<u8>::empty());
        assert(encode_utf8(a) + encode_utf8(c) =~= encode_utf8(c));
    }
}

/// The bytes of one character: a blank character is the one byte of its
/// value; no byte of any other character is a blank byte.
proof fn lemma_char_bytes(c: char)
    ensures
        blank_char(c) ==> encode_utf8(seq![c]) == seq![c as u32 as u8],
        forall|k: int| 0 <= k < encode_utf8(seq![c]).len() ==> (crate::text::in_class(
            Class::Blank,
            #[trigger] encode_utf8(seq![c])[k],
        ) <==> blank_char(c)),
        encode_utf8(seq![c]).len() > 0,
{
    let v = c as u32;
    assert(seq![c].drop_first() =~= Seq::<char>::empty());
    assert(seq![c][0] == c);
    assert(encode_utf8(Seq::<char>::empty()) =~= Seq::<u8>::empty());
    assert(encode_utf8(seq![c]) == vstd::utf8::encode_scalar(v) + encode_utf8(
        Seq::<char>::empty(),
    ));
    assert(encode_utf8(seq![c]) =~= vstd::utf8::encode_scalar(v));
    vstd::utf8::char_is_scalar(c);
    if v <= 0x7F {
        assert((v & 0x7F) == v) by (bit_vector)
            requires
                v <= 0x7F,
        ;
        assert(c == ' ' <==> v == 32);
        assert(c == '\t' <==> v == 9);
        assert(c == '\r' <==> v == 13);
        assert(c == '\n' <==> v == 10);
    } else {
        assert(!blank_char(c));
        assert forall|x: u8| #[trigger] (0xC0u8 | x) >= 0x80 by {
            assert((0xC0u8 | x) >= 0x80) by (bit_vector);
        }
        assert forall|x: u8| #[trigger] (0xE0u8 | x) >= 0x80 by {
            assert((0xE0u8 | x) >= 0x80) by (bit_vector);
        }
        assert forall|x: u8| #[trigger] (0xF0u8 | x) >= 0x80 by {
            assert((0xF0u8 | x) >= 0x80) by (bit_vector);
        }
        assert forall|x: u8| #[trigger] (0x80u8 | x) >= 0x80 by {
            assert((0x80u8 | x) >= 0x80) by (bit_vector);
        }
    }
}

proof fn lemma_skip_back_shift(b: Seq<u8>, k: Class, s: int, e: int, j: int)
    requires
        0 <= s <= j <= e <= b.len(),
    ensures
        skip_back(b, k, s, j) == s + skip_back(b.subrange(s, e), k, 0, j - s),
    decreases j - s,
{
    if j > s {
        assert(b.subrange(s, e)[j - 1 - s] == b[j - 1]);
        lemma_skip_back_shift(b, k, s, e, j - 1);
    }
}

proof fn lemma_drop_front_bytes(cs: Seq<char>)
    ensures
        ({
            let e = encode_utf8(cs);
            encode_utf8(drop_blank_front(cs)) == e.subrange(
                skip_fwd(e, Class::Blank, 0, e.len() as int),
                e.len() as int,
            )
        }),
    decreases cs.len(),
{
    let e = encode_utf8(cs);
    let n = e.len() as int;
    if cs.len() == 0 {
        assert(e.subrange(0, n) =~= e);
    } else {
        let c = cs[0];
        let rest = cs.drop_first();
        assert(cs =~= seq![c] + rest);
        lemma_encode_concat(seq![c], rest);
        lemma_char_bytes(c);
        let w = encode_utf8(seq![c]);
        assert(e[0] == w[0]);
        if blank_char(c) {
            lemma_drop_front_bytes(rest);
            lemma_skip_fwd_shift(e, Class::Blank, 1, n, 1);
            assert(e.subrange(1, n) =~= encode_utf8(rest));
            let k = skip_fwd(encode_utf8(rest), Class::Blank, 0, n - 1);
            lemma_skip_fwd(encode_utf8(rest), Class::Blank, 0, n - 1);
            assert(e.subrange(1 + k, n) =~= encode_utf8(rest).subrange(k, n - 1));
        } else {
            assert(e.subrange(0, n) =~= e);
        }
    }
}

proof fn lemma_drop_back_bytes(cs: Seq<char>)
    ensures
        ({
            let e = encode_utf8(cs);
            encode_utf8(drop_blank_back(cs)) == e.subrange(
                0,
                skip_back(e, Class::Blank, 0, e.len() as int),
            )
        }),
    decreases cs.len(),
{
    let e = encode_utf8(cs);
    let n = e.len() as int;
    if cs.len() == 0 {
        assert(e.subrange(0, n) =~= e);
    } else {
        let c = cs.last();
        let init = cs.drop_last();
        assert(cs =~= init + seq![c]);
        lemma_encode_concat(init, seq![c]);
        lemma_char_bytes(c);
        let w = encode_utf8(seq![c]);
        let m = encode_utf8(init).len() as int;
        assert(e[n - 1] == w[w.len() - 1]);
        if blank_char(c) {
            lemma_drop_back_bytes(init);
            lemma_skip_back_shift(e, Class::Blank, 0, m, m);
            assert(e.subrange(0, m) =~= encode_utf8(init));
            let k = skip_back(encode_utf8(init), Class::Blank, 0, m);
            lemma_skip_back(encode_utf8(init), Class::Blank, 0, m);
            assert(e.subrange(0, k) =~= encode_utf8(init).subrange(0, k));
        } else {
            assert(e.subrange(0, n) =~= e);
        }
    }
}

/// Trimming the bytes of a text as [`trim`] does is trimming its characters:
/// the bytes kept are those of the text without leading and trailing
/// spaces, tabs, CRs and LFs.
pub proof fn lemma_trim_bytes_is_trim_chars(cs: Seq<char>)
    ensures
        ({
            let e = encode_utf8(cs);
            span(e, trim_blank(e, 0, e.len() as int)) == encode_utf8(trim_blank_chars(cs))
        }),
{
    let e = encode_utf8(cs);
    let n = e.len() as int;
    lemma_drop_front_bytes(cs);
    let a = skip_fwd(e, Class::Blank, 0, n);
    lemma_skip_fwd(e, Class::Blank, 0, n);
    let f = drop_blank_front(cs);
    lemma_drop_back_bytes(f);
    let ef = encode_utf8(f);
    assert(ef == e.subrange(a, n));
    lemma_skip_back_shift(e, Class::Blank, a, n, n);
    let z = skip_back(e, Class::Blank, a, n);
    lemma_skip_back(e, Class::Blank, a, n);
    assert(ef.subrange(0, z - a) =~= e.subrange(a, z));
}

// ------------------------------------------------------------------ epoch laws

/// The fields of a `YYYY-MM-DD HH:MM:SS.mmm` timestamp, read as
/// [`epoch_millis`] reads them.
pub open spec fn stamp_fields(b: Seq<u8>) -> crate::text::Stamp {
    (
        fixed_digits(b, 0, 4)->Some_0,
        fixed_digits(b, 5, 2)->Some_0,
        fixed_digits(b, 8, 2)->Some_0,
        fixed_digits(b, 11, 2)->Some_0,
        fixed_digits(b, 14, 2)->Some_0,
        fixed_digits(b, 17, 2)->Some_0,
        fixed_digits(b, 20, 3)->Some_0,
    )
}

proof fn lemma_epoch_value(b: Seq<u8>)
    ensures
        epoch_millis_spec(b) matches Some(v) ==> v == crate::text::stamp_millis(stamp_fields(b)),
{
    if epoch_millis_spec(b) is Some {
        let f = stamp_fields(b);
        lemma_take_digits(b, 0, b.len() as int);
        lemma_take_digits(b, 5, b.len() as int);
        lemma_take_digits(b, 8, b.len() as int);
        lemma_take_digits(b, 11, b.len() as int);
        lemma_take_digits(b, 14, b.len() as int);
        lemma_take_digits(b, 17, b.len() as int);
        lemma_take_digits(b, 20, b.len() as int);
        reveal_with_fuel(pow10, 5);
        crate::text::lemma_civil_bounds(f.0, f.1, f.2, f.3, f.4, f.5);
    }
}

/// [`epoch_millis`] counts real milliseconds: its value is the milliseconds
/// since 1970-01-01 00:00:00.000 UTC of the fields it reads, and for real
/// dates and times, one timestamp comes before another exactly when its
/// value is smaller.
pub proof fn lemma_epoch_millis_monotone(a: Seq<u8>, b: Seq<u8>)
    requires
        epoch_millis_spec(a) is Some,
        epoch_millis_spec(b) is Some,
        crate::text::valid_stamp(stamp_fields(a)),
        crate::text::valid_stamp(stamp_fields(b)),
    ensures
        epoch_millis_spec(a)->Some_0 == crate::text::stamp_millis(stamp_fields(a)),
        epoch_millis_spec(b)->Some_0 == crate::text::stamp_millis(stamp_fields(b)),
        crate::text::stamp_before(stamp_fields(a), stamp_fields(b)) <==> epoch_millis_spec(a)->Some_0
            < epoch_millis_spec(b)->Some_0,
{
    lemma_epoch_value(a);
    lemma_epoch_value(b);
    crate::text::lemma_stamp_millis_monotone(stamp_fields(a), stamp_fields(b));
}

// ------------------------------------------------------------------ laws of categories

/// The getters that read a column value.
pub open spec fn value_getter_names() -> Seq<Seq<char>> {
    seq![
        "getString"@, "getTimestamp"@, "getLong"@, "getInt"@, "getShort"@, "getDouble"@,
        "getFloat"@, "getBoolean"@, "getBytes"@, "getBigDecimal"@, "getDate"@, "getTime"@,
        "getObject"@, "getBlob"@, "getClob"@, "getNString"@, "getNClob"@, "getURL"@,
        "getAsciiStream"@, "getBinaryStream"@, "getCharacterStream"@,
    ]
}

/// A method named `get...` reads a value when it is one of the value
/// getters, and metadata otherwise.
pub proof fn lemma_get_methods(m: Seq<u8>)
    requires
        m.len() >= 3,
        m[0] == 103 && m[1] == 101 && m[2] == 116,
    ensures
        kind_of(m) == (if is_value_getter(m) {
            Kind::ReadValue
        } else {
            Kind::ReadMeta
        }),
{
    reveal_strlit("prepareStatement");
    reveal_strlit("set");
    reveal_strlit("execute");
    reveal_strlit("next");
    reveal_strlit("wasNull");
    reveal_strlit("clear");
    reveal_strlit("close");
    reveal_strlit("access");
    reveal_strlit("get");
    assert(lit("prepareStatement")[0] == 112);
    assert(lit("next")[0] == 110);
    assert(lit("wasNull")[0] == 119);
    assert(lit("close")[0] == 99);
    assert(lit("access")[0] == 97);
    assert(m.subrange(0, 3)[0] == 103);
    assert(lit("set")[0] == 115);
    assert(lit("execute").subrange(0, 3)[0] == 101);
    assert(lit("clear").subrange(0, 5)[0] == 99);
    if starts(m, lit("execute")) {
        assert(m.subrange(0, 7)[0] == m[0]);
    }
    if starts(m, lit("clear")) {
        assert(m.subrange(0, 5)[0] == m[0]);
    }
    assert(m.subrange(0, 3) =~= lit("get"));
}

/// Every value getter is categorised `read_value` by [`category_of`].
pub proof fn lemma_value_getters_read_values()
    ensures
        forall|i: int|
            0 <= i < value_getter_names().len() ==> kind_name(
                kind_of(#[trigger] ascii(value_getter_names()[i])),
            ) == "read_value"@,
{
    reveal_strlit("read_value");
    assert forall|i: int| 0 <= i < value_getter_names().len() implies kind_name(
        kind_of(#[trigger] ascii(value_getter_names()[i])),
    ) == "read_value"@ by {
        reveal_strlit("getString");
        reveal_strlit("getTimestamp");
        reveal_strlit("getLong");
        reveal_strlit("getInt");
        reveal_strlit("getShort");
        reveal_strlit("getDouble");
        reveal_strlit("getFloat");
        reveal_strlit("getBoolean");
        reveal_strlit("getBytes");
        reveal_strlit("getBigDecimal");
        reveal_strlit("getDate");
        reveal_strlit("getTime");
        reveal_strlit("getObject");
        reveal_strlit("getBlob");
        reveal_strlit("getClob");
        reveal_strlit("getNString");
        reveal_strlit("getNClob");
        reveal_strlit("getURL");
        reveal_strlit("getAsciiStream");
        reveal_strlit("getBinaryStream");
        reveal_strlit("getCharacterStream");
        let n = value_getter_names()[i];
        let m = ascii(n);
        assert(n.len() >= 3 && n[0] == 'g' && n[1] == 'e' && n[2] == 't');
        lemma_get_methods(m);
        assert(is_value_getter(m));
    }
}

// ------------------------------------------------------------------ laws of the id block

/// The number of the token `b[s..e]`, trimmed, when it is exactly `prefix`
/// followed by digits.
pub open spec fn exact_token(b: Seq<u8>, s: int, e: int, prefix: Seq<u8>) -> Option<i64> {
    let t = trim_blank(b, s, e);
    strip_digits(b, t.0, t.1, prefix)
}

/// The number of the last `','`-separated token of `b[s..e]` that is exactly
/// `prefix` followed by digits, narrowed to an `i32`; `acc` when no token is.
pub open spec fn last_exact_token(b: Seq<u8>, s: int, e: int, prefix: Seq<u8>, acc: Option<i32>) -> Option<i32>
    decreases e - s,
{
    let here = |x: int| match exact_token(b, s, x, prefix) {
        Some(v) => to_i32(v),
        None => acc,
    };
    match find_in(b, lit(","), s, e) {
        Some(c) => if s <= c < e {
            last_exact_token(b, c + 1, e, prefix, here(c))
        } else {
            acc
        },
        None => here(e),
    }
}

proof fn lemma_apply_token_fields(b: Seq<u8>, s: int, e: int, acc: Ids)
    ensures
        ({
            let r = apply_token(b, s, e, acc);
            let pick = |p: Seq<u8>, old: Option<i32>| match exact_token(b, s, e, p) {
                Some(v) => to_i32(v),
                None => old,
            };
            &&& r.conn == pick(lit("conn-"), acc.conn)
            &&& r.pstmt == pick(lit("pstmt-"), acc.pstmt)
            &&& r.rs == pick(lit("rs-"), acc.rs)
            &&& r.handle == pick(lit("handle-"), acc.handle)
        }),
{
    reveal_strlit("conn-");
    reveal_strlit("pstmt-");
    reveal_strlit("rs-");
    reveal_strlit("handle-");
    let t = trim_blank(b, s, e);
    let first = |p: Seq<u8>| b.subrange(t.0, t.0 + p.len())[0];
    if exact_token(b, s, e, lit("conn-")) is Some {
        assert(b.subrange(t.0, t.0 + 5)[0] == 99);
    }
    if exact_token(b, s, e, lit("pstmt-")) is Some {
        assert(b.subrange(t.0, t.0 + 6)[0] == 112);
    }
    if exact_token(b, s, e, lit("rs-")) is Some {
        assert(b.subrange(t.0, t.0 + 3)[0] == 114);
    }
    if exact_token(b, s, e, lit("handle-")) is Some {
        assert(b.subrange(t.0, t.0 + 7)[0] == 104);
    }
}

/// Each field of the id block is the number of its last token of the form
/// `conn-N`, `pstmt-N`, `rs-N` or `handle-N`; tokens of other forms leave
/// the fields as they were.
pub proof fn lemma_id_block_fields(b: Seq<u8>, s: int, e: int, acc: Ids)
    ensures
        ({
            let r = ids_fold(b, s, e, acc);
            &&& r.conn == last_exact_token(b, s, e, lit("conn-"), acc.conn)
            &&& r.pstmt == last_exact_token(b, s, e, lit("pstmt-"), acc.pstmt)
            &&& r.rs == last_exact_token(b, s, e, lit("rs-"), acc.rs)
            &&& r.handle == last_exact_token(b, s, e, lit("handle-"), acc.handle)
        }),
    decreases e - s,
{
    match find_in(b, lit(","), s, e) {
        Some(c) => if s <= c < e {
            lemma_apply_token_fields(b, s, c, acc);
            lemma_id_block_fields(b, c + 1, e, apply_token(b, s, c, acc));
        },
        None => {
            lemma_apply_token_fields(b, s, e, acc);
        },
    }
}

/// The statement named by a return value: `pstmt-N` at its start.
pub open spec fn pstmt_named_by(v: Seq<u8>) -> Option<i64> {
    digits_after(v, 0, v.len() as int, lit("pstmt-"))
}

/// In a parsed JDBC line whose return value does not start with `pstmt-N`,
/// the statement is the last token of the id block that is exactly `pstmt-N`
/// (narrowed to an `i32`); the connection is always the last `conn-N` token,
/// and `rs_id` the last `rs-N` token.
#[verifier::rlimit(80)]
#[verifier::spinoff_prover]
pub proof fn lemma_line_ids(b: Seq<u8>)
    requires
        parse_spec(b) is Ok,
    ensures
        ({
            let r = parse_spec(b)->Ok_0;
            let ids = head_spec(b)->Ok_0.ids;
            &&& r.conn_id == last_exact_token(b, ids.0, ids.1, lit("conn-"), None)
            &&& r.rs_id == last_exact_token(b, ids.0, ids.1, lit("rs-"), None)
            &&& (match r.return_value {
                Some(v) => pstmt_named_by(v) is None,
                None => true,
            }) ==> r.pstmt_id == last_exact_token(b, ids.0, ids.1, lit("pstmt-"), None)
        }),
{
    let h = head_spec(b)->Ok_0;
    lemma_id_block_fields(b, h.ids.0, h.ids.1, no_ids());
    let m = markers_spec(b, h);
    let rv = return_spec(b, h, m);
    lemma_return_range(b, h);
    reveal_strlit("rs-");
    reveal_strlit("pstmt-");
    match rv {
        Some((s, e)) => {
            lemma_digits_after_shift(b, s, e, lit("pstmt-"));
            lemma_digits_after_shift(b, s, e, lit("rs-"));
        },
        None => {},
    }
}

// ------------------------------------------------------------------ laws of the return value

/// `b` has a tail marker (`[PARAMS]: `, `[USED TIME]: `, `[EXEC_ID]: ` or
/// `CMD_`) at `q`, outside of quoted text opened at or after `from` and
/// after a `';'` and spaces.
pub open spec fn tail_marker_at(b: Seq<u8>, lo: int, from: int, q: int) -> bool {
    ||| marker_hit(b, lit("[PARAMS]: "), lo, true, from, q)
    ||| marker_hit(b, lit("[USED TIME]: "), lo, true, from, q)
    ||| marker_hit(b, lit("[EXEC_ID]: "), lo, true, from, q)
    ||| marker_hit(b, lit("CMD_"), lo, true, from, q)
}

/// Where the return value's search ends: the first tail marker after the
/// closing parenthesis, or the end of the line.
pub open spec fn tail_end(b: Seq<u8>, h: Head) -> int {
    let m = markers_spec(b, h);
    match min_opt(min_opt(min_opt(m.params, m.time), m.exec_id), m.cmd) {
        Some(x) => x,
        None => b.len() as int,
    }
}

proof fn lemma_first_tail(b: Seq<u8>, h: Head)
    requires
        0 <= h.after <= b.len(),
    ensures
        forall|q: int|
            h.after <= q < tail_end(b, h) ==> !#[trigger] tail_marker_at(b, h.rest, h.after, q),
        tail_end(b, h) == b.len() || tail_marker_at(b, h.rest, h.after, tail_end(b, h)),
        h.after <= tail_end(b, h) <= b.len(),
{
    let m = markers_spec(b, h);
    let n = b.len() as int;
    lemma_find_marker_least(b, lit("[PARAMS]: "), h.rest, true, h.after);
    lemma_find_marker_least(b, lit("[USED TIME]: "), h.rest, true, h.after);
    lemma_find_marker_least(b, lit("[EXEC_ID]: "), h.rest, true, h.after);
    lemma_find_marker_least(b, lit("CMD_"), h.rest, true, h.after);
    let end = tail_end(b, h);
    let bp = match m.params {
        Some(p) => p,
        None => n,
    };
    let bt = match m.time {
        Some(p) => p,
        None => n,
    };
    let be = match m.exec_id {
        Some(p) => p,
        None => n,
    };
    let bc = match m.cmd {
        Some(p) => p,
        None => n,
    };
    assert(h.after <= bp <= n && h.after <= bt <= n && h.after <= be <= n && h.after <= bc <= n);
    assert(end <= bp && end <= bt && end <= be && end <= bc);
    assert(end == bp || end == bt || end == be || end == bc);
    assert(end == n || tail_marker_at(b, h.rest, h.after, end));
    assert forall|q: int| h.after <= q < end implies !#[trigger] tail_marker_at(
        b,
        h.rest,
        h.after,
        q,
    ) by {
        if q < n {
            assert(!marker_hit(b, lit("[PARAMS]: "), h.rest, true, h.after, q));
            assert(!marker_hit(b, lit("[USED TIME]: "), h.rest, true, h.after, q));
            assert(!marker_hit(b, lit("[EXEC_ID]: "), h.rest, true, h.after, q));
            assert(!marker_hit(b, lit("CMD_"), h.rest, true, h.after, q));
        }
    }
}

/// In a parsed JDBC line, the return value is the text after `"):"`, up to
/// the first tail marker after the closing parenthesis (or the end of the
/// line), without surrounding blanks and trailing `';'`: no tail marker lies
/// within it.
#[verifier::rlimit(80)]
#[verifier::spinoff_prover]
pub proof fn lemma_return_value_ends_at_first_marker(b: Seq<u8>)
    requires
        parse_spec(b) is Ok,
    ensures
        ({
            let r = parse_spec(b)->Ok_0;
            let h = head_spec(b)->Ok_0;
            match return_spec(b, h, markers_spec(b, h)) {
                Some((s, e)) => {
                    &&& r.return_value == Some(b.subrange(s, e))
                    &&& h.after < s <= e <= b.len()
                    &&& b[h.after] == 58
                    &&& forall|q: int| s <= q < e ==> !#[trigger] tail_marker_at(b, h.rest, h.after, q)
                    &&& exists|end: int|
                        #![trigger value_range(b, h.after + 1, end)]
                        h.after < end <= b.len() && (end == b.len() || tail_marker_at(
                            b,
                            h.rest,
                            h.after,
                            end,
                        )) && (forall|q: int|
                            h.after <= q < end ==> !#[trigger] tail_marker_at(b, h.rest, h.after, q))
                            && value_range(b, h.after + 1, end) == Some((s, e))
                },
                None => r.return_value is None,
            }
        }),
{
    let h = head_spec(b)->Ok_0;
    lemma_return_range(b, h);
    lemma_first_tail(b, h);
    let m = markers_spec(b, h);
    let end = tail_end(b, h);
    match return_spec(b, h, m) {
        Some((s, e)) => {
            let t = trim_blank(b, h.after + 1, end);
            lemma_skip_fwd(b, Class::Blank, h.after + 1, end);
            lemma_skip_back(b, Class::Blank, t.0, end);
            lemma_skip_back(b, Class::SemiSpace, t.0, t.1);
            assert(e <= end);
            assert(value_range(b, h.after + 1, end) == Some((s, e)));
        },
        None => {},
    }
}

// ------------------------------------------------------------------ laws of all categories

proof fn lemma_lit_bytes()
    ensures
        lit("prepareStatement").len() == 16 && lit("prepareStatement")[0] == 112,
        lit("set").len() == 3 && lit("set")[0] == 115,
        lit("execute").len() == 7 && lit("execute")[0] == 101,
        lit("next").len() == 4 && lit("next")[0] == 110,
        lit("wasNull").len() == 7 && lit("wasNull")[0] == 119,
        lit("clear").len() == 5 && lit("clear")[0] == 99 && lit("clear")[2] == 101,
        lit("close").len() == 5 && lit("close")[0] == 99 && lit("close")[2] == 111,
        lit("access").len() == 6 && lit("access")[0] == 97,
        lit("get").len() == 3 && lit("get")[0] == 103,
{
    reveal_strlit("prepareStatement");
    reveal_strlit("set");
    reveal_strlit("execute");
    reveal_strlit("next");
    reveal_strlit("wasNull");
    reveal_strlit("clear");
    reveal_strlit("close");
    reveal_strlit("access");
    reveal_strlit("get");
}

proof fn lemma_starts_first(m: Seq<u8>, p: Seq<u8>)
    requires
        starts(m, p),
        p.len() > 0,
    ensures
        m.len() > 0 && m[0] == p[0],
{
    assert(m.subrange(0, p.len() as int)[0] == m[0]);
}

/// The category of a JDBC method: `prepareStatement` prepares; `set...`
/// binds; `execute...` executes; `next`, `wasNull`, `clear...`, `close` and
/// `access` have their own categories; `get...` reads (see
/// [`lemma_get_methods`]); an empty name is unparsed; any other name is
/// `other`.
pub proof fn lemma_method_categories(m: Seq<u8>)
    ensures
        m.len() == 0 ==> kind_of(m) == Kind::Unparsed,
        m == lit("prepareStatement") ==> kind_of(m) == Kind::Prepare,
        starts(m, lit("set")) ==> kind_of(m) == Kind::Bind,
        starts(m, lit("execute")) ==> kind_of(m) == Kind::Execute,
        m == lit("next") ==> kind_of(m) == Kind::FetchNext,
        m == lit("wasNull") ==> kind_of(m) == Kind::NullCheck,
        starts(m, lit("clear")) ==> kind_of(m) == Kind::Clear,
        m == lit("close") ==> kind_of(m) == Kind::Close,
        m == lit("access") ==> kind_of(m) == Kind::DriverAccess,
        m.len() > 0 && m != lit("prepareStatement") && !starts(m, lit("set")) && !starts(
            m,
            lit("execute"),
        ) && m != lit("next") && m != lit("wasNull") && !starts(m, lit("clear")) && m != lit(
            "close",
        ) && m != lit("access") && !starts(m, lit("get")) ==> kind_of(m) == Kind::Other,
{
    lemma_lit_bytes();
    if starts(m, lit("set")) {
        lemma_starts_first(m, lit("set"));
    }
    if starts(m, lit("execute")) {
        lemma_starts_first(m, lit("execute"));
    }
    if starts(m, lit("clear")) {
        lemma_starts_first(m, lit("clear"));
        assert(m.subrange(0, 5)[2] == m[2]);
        assert(m != lit("close"));
    }
    if m == lit("close") {
        assert(m.subrange(0, 5)[2] == m[2]);
    }
}

// ------------------------------------------------------------------ laws of the tail values

/// In a parsed JDBC line, the parameters follow the `[PARAMS]: ` marker and
/// end before every later tail marker; the column of a `get...` event is its
/// quoted parameter text without the quotes; the bound index of a `set...`
/// event is the number the parameters start with; the command is `CMD_`
/// followed by the longest run of upper-case letters, digits and `'_'`.
#[verifier::rlimit(80)]
#[verifier::spinoff_prover]
pub proof fn lemma_tail_values(b: Seq<u8>)
    requires
        parse_spec(b) is Ok,
    ensures
        ({
            let r = parse_spec(b)->Ok_0;
            let h = head_spec(b)->Ok_0;
            let m = markers_spec(b, h);
            let pr = params_spec(b, m);
            &&& (pr matches Some((s, e)) ==> {
                &&& m.params matches Some(p)
                &&& p + 10 <= s < e <= b.len()
                &&& r.params == Some(b.subrange(s, e))
                &&& (m.time matches Some(q) ==> !(p + 10 < q < e))
                &&& (m.exec_id matches Some(q) ==> !(p + 10 < q < e))
                &&& (m.cmd matches Some(q) ==> !(p + 10 < q < e))
            })
            &&& (r.column_name matches Some(c) ==> {
                &&& starts(r.method, lit("get"))
                &&& r.params matches Some(v)
                &&& v.len() >= 2 && v[0] == 34 && v[v.len() - 1] == 34
                &&& c == v.subrange(1, v.len() - 1)
            })
            &&& (r.param_index matches Some(i) ==> {
                &&& starts(r.method, lit("set"))
                &&& r.params matches Some(v)
                &&& take_digits(v, 0, v.len() as int) matches Some((x, _)) && to_i32(
                    x as i64,
                ) == Some(i)
            })
            &&& (r.cmd matches Some(c) ==> {
                &&& starts(c, lit("CMD_")) && c.len() > 4
                &&& forall|k: int| 0 <= k < c.len() ==> crate::text::in_class(
                    Class::UpperDigitUnderscore,
                    #[trigger] c[k],
                )
            })
        }),
{
    let h = head_spec(b)->Ok_0;
    lemma_return_range(b, h);
    let m = markers_spec(b, h);
    let n = b.len() as int;
    reveal_strlit("[PARAMS]: ");
    reveal_strlit("[USED TIME]: ");
    reveal_strlit("[EXEC_ID]: ");
    reveal_strlit("CMD_");
    reveal_strlit("get");
    reveal_strlit("set");
    lemma_marker_scan(b, lit("[PARAMS]: "), h.rest, true, h.after, None, false);
    lemma_marker_scan(b, lit("[USED TIME]: "), h.rest, true, h.after, None, false);
    lemma_marker_scan(b, lit("[EXEC_ID]: "), h.rest, true, h.after, None, false);
    lemma_marker_scan(b, lit("CMD_"), h.rest, true, h.after, None, false);
    if let Some(p) = m.params {
        let start = p + 10;
        let end = match min_opt(
            min_opt(after_opt(m.time, start), after_opt(m.exec_id, start)),
            after_opt(m.cmd, start),
        ) {
            Some(x) => x,
            None => n,
        };
        if end > start {
            let t = trim_blank(b, start, end);
            lemma_skip_fwd(b, Class::Blank, start, end);
            lemma_skip_back(b, Class::Blank, t.0, end);
            lemma_skip_back(b, Class::SemiSpace, t.0, t.1);
        }
    }
    let pr = params_spec(b, m);
    let kind = kind_of(span(b, h.method));
    if let Some((ps, pe)) = pr {
        let v = b.subrange(ps, pe);
        if kind == Kind::Bind {
            lemma_method_categories(span(b, h.method));
            lemma_lit_bytes();
            lemma_skip_fwd_shift(b, Class::Digit, ps, pe, ps);
            let j = skip_fwd(b, Class::Digit, ps, pe);
            lemma_skip_fwd(b, Class::Digit, ps, pe);
            lemma_dec_value_shift(b, ps, pe, ps, j);
            lemma_get_or_set(span(b, h.method));
        }
        if column_spec(b, h.method, pr) is Some {
            assert(v[0] == b[ps]);
            assert(v[v.len() - 1] == b[pe - 1]);
            assert(b.subrange(ps + 1, pe - 1) =~= v.subrange(1, v.len() - 1));
        }
    }
    if let Some((cs, ce)) = cmd_spec(b, m) {
        let c = b.subrange(cs, ce);
        lemma_skip_fwd(b, Class::UpperDigitUnderscore, cs, n);
        assert(c.subrange(0, 4) =~= b.subrange(cs, cs + 4));
        assert forall|k: int| 0 <= k < c.len() implies crate::text::in_class(
            Class::UpperDigitUnderscore,
            #[trigger] c[k],
        ) by {
            assert(c[k] == b[cs + k]);
        }
    }
}

/// Only `set...` methods are binds.
proof fn lemma_get_or_set(m: Seq<u8>)
    ensures
        kind_of(m) == Kind::Bind ==> starts(m, lit("set")),
{
    lemma_lit_bytes();
    if kind_of(m) == Kind::Bind && !starts(m, lit("set")) {
        assert(false);
    }
}

/// In a parsed JDBC line whose return value names a statement
/// (`pstmt-N, handle-M, sessionID-0x..`, not a result set), the statement is
/// `N`, the handle is the number after the first `handle-` in the return
/// value (the id block's last `handle-M` token when there is none), and the
/// session is the run of hex digits and `x` after the first `sessionID-`.
#[verifier::rlimit(80)]
#[verifier::spinoff_prover]
pub proof fn lemma_statement_objects(b: Seq<u8>)
    requires
        parse_spec(b) is Ok,
    ensures
        ({
            let r = parse_spec(b)->Ok_0;
            let h = head_spec(b)->Ok_0;
            match return_spec(b, h, markers_spec(b, h)) {
                Some((s, e)) => digits_after(b, s, e, lit("rs-")) is None ==> match digits_after(
                    b,
                    s,
                    e,
                    lit("pstmt-"),
                ) {
                    Some(v) => {
                    &&& r.pstmt_id == to_i32(v)
                    &&& r.result_set_id == last_exact_token(b, h.ids.0, h.ids.1, lit("rs-"), None)
                    &&& r.handle_id == match find_in(b, lit("handle-"), s, e) {
                        Some(i) => match take_digits(b, i + 7, e) {
                            Some((x, _)) => to_i32(x as i64),
                            None => last_exact_token(b, h.ids.0, h.ids.1, lit("handle-"), None),
                        },
                        None => last_exact_token(b, h.ids.0, h.ids.1, lit("handle-"), None),
                    }
                    &&& r.session_id_hex == match find_in(b, lit("sessionID-"), s, e) {
                        Some(x) => Some(
                            b.subrange(x + 10, skip_fwd(b, Class::HexOrX, x + 10, e)),
                        ),
                        None => None,
                    }
                    },
                    None => true,
                },
                None => true,
            }
        }),
{
    let h = head_spec(b)->Ok_0;
    lemma_id_block_fields(b, h.ids.0, h.ids.1, no_ids());
    reveal_strlit("handle-");
    reveal_strlit("sessionID-");
}

/// In a parsed JDBC line, the used time is the text between the
/// `[USED TIME]: ` marker and the first `ms` after it, without surrounding
/// blanks; the execution id is the digit run right after the `[EXEC_ID]: `
/// marker.
#[verifier::rlimit(80)]
#[verifier::spinoff_prover]
pub proof fn lemma_used_time_and_exec_id(b: Seq<u8>)
    requires
        parse_spec(b) is Ok,
    ensures
        ({
            let r = parse_spec(b)->Ok_0;
            let h = head_spec(b)->Ok_0;
            let m = markers_spec(b, h);
            let n = b.len() as int;
            &&& (r.used_time_text is Some ==> (match m.time {
                Some(p) => exists|mm: int|
                    #![trigger match_at(b, lit("ms"), mm, n)]
                    p + 13 <= mm && match_at(b, lit("ms"), mm, n) && (forall|j: int|
                        p + 13 <= j < mm ==> !#[trigger] match_at(b, lit("ms"), j, n))
                        && r.used_time_text == Some(span(b, trim_blank(b, p + 13, mm))),
                None => false,
            }))
            &&& (r.exec_id is Some ==> (match m.exec_id {
                Some(p) => take_digits(b, p + 11, n) is Some && r.exec_id == Some(
                    take_digits(b, p + 11, n)->Some_0.0 as i64,
                ),
                None => false,
            }))
        }),
{
    let h = head_spec(b)->Ok_0;
    lemma_return_range(b, h);
    let m = markers_spec(b, h);
    let n = b.len() as int;
    reveal_strlit("[USED TIME]: ");
    reveal_strlit("[EXEC_ID]: ");
    reveal_strlit("ms");
    lemma_find_marker_least(b, lit("[USED TIME]: "), h.rest, true, h.after);
    if let Some(p) = m.time {
        lemma_find_in_least(b, lit("ms"), p + 13, n);
        if let Some(mm) = find_in(b, lit("ms"), p + 13, n) {
            assert(match_at(b, lit("ms"), mm, n));
        }
    }
    lemma_find_marker_least(b, lit("[EXEC_ID]: "), h.rest, true, h.after);
    if let Some(p) = m.exec_id {
        lemma_take_digits(b, p + 11, n);
    }
}

} // verus!
