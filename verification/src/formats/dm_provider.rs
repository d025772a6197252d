//! Parser for DM Provider log records.
//!
//! Unlike JDBC lines, the thread is in round brackets, the id block is
//! optional, durations come in `ns`, `us`, `ms` or `s`, and the SQL text of a
//! record often spans several physical lines.

use vstd::prelude::*;
use vstd::string::StringSliceAdditionalSpecFns;
use vstd::utf8::{encode_utf8, valid_utf8, encode_utf8_valid_utf8};
use crate::encoding::{decode, decode_spec, FileEncodingHint};
use crate::error::ParseError;
use crate::formats::jdbc::{
    after_opt, fail, is_fail, is_fail_in, lit, min_opt, opt_ri, ri, span, Fail, lemma_match_cut,
    lemma_find_in_bounds, sbytes, osbytes,
};
use crate::text::{
    bnd, brange, bytes_of, cut_ok, find, find_in, find_marker, find_marker_spec, find_ws,
    find_ws_exec, lemma_cut_bnd, lemma_find_cut_ok, lemma_find_ws_bnd, lemma_marker_scan,
    lemma_skip_back, lemma_skip_fwd, lemma_utrim, lit_bytes, lemma_find_marker_least, match_at, matches_at, oi, skip_back,
    skip_backward, skip_forward, skip_fwd, slice_bnd, take_digits, take_i64, trim_ws, utrim,
    trim_ws_start, Class, lemma_trim_ws_start, narrow_i32, to_i32,
};

verus! {

broadcast use vstd::string::group_string_axioms;

/// Positions of the header fields of a record.
pub struct PHead {
    pub level: (int, int),
    pub ts: (int, int),
    pub tid: i64,
    pub thread: (int, int),
    pub ids: (int, int),
    /// Start of the body, after leading whitespace.
    pub body: int,
}

/// Reads the header `[LEVEL - ts] tid:N (thread) { ids } body`; the id block
/// is optional and the body must not be empty.
pub open spec fn phead_spec(b: Seq<u8>) -> Result<PHead, Fail> {
    let n = b.len() as int;
    if n == 0 {
        Err(fail(0, "empty record"@))
    } else if b[0] != 91 {
        Err(fail(0, "record does not start with '['"@))
    } else {
        match find_in(b, lit("]"), 1, n) {
            None => Err(fail(1, "unterminated level header"@)),
            Some(he) => match find_in(b, lit(" - "), 1, he) {
                None => Err(fail(1, "missing ' - ' in header"@)),
                Some(sep) => {
                    let c0 = skip_fwd(b, Class::AsciiWs, he + 1, n);
                    if !match_at(b, lit("tid:"), c0, n) {
                        Err(fail(c0, "unexpected provider header"@))
                    } else {
                        match take_digits(b, c0 + 4, n) {
                            None => Err(fail(c0 + 4, "bad tid"@)),
                            Some((tid, nx)) => {
                                let c2 = skip_fwd(b, Class::AsciiWs, nx, n);
                                if !match_at(b, lit("("), c2, n) {
                                    Err(fail(c2, "unexpected provider header"@))
                                } else {
                                    match find_in(b, lit(")"), c2 + 1, n) {
                                        None => Err(fail(c2, "unterminated thread"@)),
                                        Some(te) => {
                                            let c3 = skip_fwd(b, Class::AsciiWs, te + 1, n);
                                            let ids_and_start: Result<((int, int), int), Fail> =
                                                if c3 < n && b[c3] == 123 {
                                                match find_in(b, lit("}"), c3 + 1, n) {
                                                    None => Err(fail(c3, "unterminated id block"@)),
                                                    Some(ie) => Ok(
                                                        (
                                                            utrim(b, c3 + 1, ie),
                                                            skip_fwd(b, Class::AsciiWs, ie + 1, n),
                                                        ),
                                                    ),
                                                }
                                            } else {
                                                Ok(((c3, c3), c3))
                                            };
                                            match ids_and_start {
                                                Err(f) => Err(f),
                                                Ok((ids, bstart)) => {
                                                    let bs = trim_ws_start(b, bstart, n);
                                                    if bs >= n {
                                                        Err(fail(bstart, "missing provider body"@))
                                                    } else {
                                                        Ok(
                                                            PHead {
                                                                level: utrim(b, 1, sep),
                                                                ts: utrim(b, sep + 3, he),
                                                                tid: tid as i64,
                                                                thread: utrim(b, c2 + 1, te),
                                                                ids,
                                                                body: bs,
                                                            },
                                                        )
                                                    }
                                                },
                                            }
                                        },
                                    }
                                }
                            },
                        }
                    }
                },
            },
        }
    }
}

pub struct PHeadPos {
    pub level: (usize, usize),
    pub ts: (usize, usize),
    pub tid: i64,
    pub thread: (usize, usize),
    pub ids: (usize, usize),
    pub body: usize,
}

impl PHeadPos {
    pub open spec fn view(&self) -> PHead {
        PHead {
            level: ri(self.level),
            ts: ri(self.ts),
            tid: self.tid,
            thread: ri(self.thread),
            ids: ri(self.ids),
            body: self.body as int,
        }
    }

    pub open spec fn ok(&self, b: Seq<u8>) -> bool {
        &&& brange(b, ri(self.level))
        &&& brange(b, ri(self.ts))
        &&& brange(b, ri(self.thread))
        &&& brange(b, ri(self.ids))
        &&& bnd(b, self.body as int)
        &&& self.body < b.len()
    }
}

fn utrim_exec(b: &[u8], s: usize, e: usize) -> (r: (usize, usize))
    requires
        e <= b@.len(),
        brange(b@, (s as int, e as int)),
    ensures
        ri(r) == utrim(b@, s as int, e as int),
        brange(b@, ri(r)),
        s <= r.0 <= r.1 <= e,
{
    proof {
        lemma_utrim(b@, s as int, e as int);
    }
    trim_ws(b, s, e)
}

/// Reads the header; see [`phead_spec`].
fn parse_phead(b: &[u8]) -> (r: Result<PHeadPos, ParseError>)
    requires
        valid_utf8(b@),
    ensures
        match r {
            Ok(h) => phead_spec(b@) == Ok::<PHead, Fail>(h.view()) && h.ok(b@),
            Err(e) => phead_spec(b@) matches Err(f) && is_fail(e, f),
        },
{
    let n = b.len();
    if n == 0 {
        return Err(ParseError::invalid(0, "empty record"));
    }
    if b[0] != 91 {
        return Err(ParseError::invalid(0, "record does not start with '['"));
    }
    proof {
        reveal_strlit("]");
        reveal_strlit(" - ");
        reveal_strlit("tid:");
        reveal_strlit("(");
        reveal_strlit(")");
        reveal_strlit("}");
        lemma_cut_bnd(b@, 1);
    }
    let close_bracket = lit_bytes("]");
    let he = match find(b, close_bracket, 1, n) {
        Some(p) => p,
        None => return Err(ParseError::invalid(1, "unterminated level header")),
    };
    proof {
        lemma_find_cut_ok(b@, close_bracket@, 1, n as int);
        lemma_cut_bnd(b@, he as int);
    }
    let sep_lit = lit_bytes(" - ");
    let sep = match find(b, sep_lit, 1, he) {
        Some(p) => p,
        None => return Err(ParseError::invalid(1, "missing ' - ' in header")),
    };
    proof {
        lemma_find_cut_ok(b@, sep_lit@, 1, he as int);
        lemma_cut_bnd(b@, sep as int);
        lemma_cut_bnd(b@, sep + 3);
    }
    let level = utrim_exec(b, 1, sep);
    let ts = utrim_exec(b, sep + 3, he);
    let c0 = skip_forward(b, Class::AsciiWs, he + 1, n);
    proof {
        lemma_skip_fwd(b@, Class::AsciiWs, he + 1, n as int);
    }
    if !matches_at(b, lit_bytes("tid:"), c0, n) {
        return Err(ParseError::invalid(c0, "unexpected provider header"));
    }
    let (tid, nx) = match take_i64(b, c0 + 4, n) {
        Some(t) => t,
        None => return Err(ParseError::invalid(c0 + 4, "bad tid")),
    };
    proof {
        lemma_skip_fwd(b@, Class::Digit, c0 + 4, n as int);
    }
    let c2 = skip_forward(b, Class::AsciiWs, nx, n);
    proof {
        lemma_skip_fwd(b@, Class::AsciiWs, nx as int, n as int);
    }
    let open_paren = lit_bytes("(");
    if !matches_at(b, open_paren, c2, n) {
        return Err(ParseError::invalid(c2, "unexpected provider header"));
    }
    proof {
        lemma_match_cut(b@, open_paren@, c2 as int, n as int);
        lemma_cut_bnd(b@, c2 + 1);
    }
    let close_paren = lit_bytes(")");
    let te = match find(b, close_paren, c2 + 1, n) {
        Some(p) => p,
        None => return Err(ParseError::invalid(c2, "unterminated thread")),
    };
    proof {
        lemma_find_cut_ok(b@, close_paren@, c2 + 1, n as int);
        lemma_cut_bnd(b@, te as int);
    }
    let thread = utrim_exec(b, c2 + 1, te);
    let c3 = skip_forward(b, Class::AsciiWs, te + 1, n);
    proof {
        lemma_skip_fwd(b@, Class::AsciiWs, te + 1, n as int);
        lemma_cut_bnd(b@, c3 as int);
    }
    let (ids, bstart) = if c3 < n && b[c3] == 123 {
        let close_brace = lit_bytes("}");
        let ie = match find(b, close_brace, c3 + 1, n) {
            Some(p) => p,
            None => return Err(ParseError::invalid(c3, "unterminated id block")),
        };
        proof {
            lemma_find_cut_ok(b@, close_brace@, c3 + 1, n as int);
            assert(cut_ok(b@, c3 + 1));
            lemma_cut_bnd(b@, c3 + 1);
            lemma_cut_bnd(b@, ie as int);
            lemma_skip_fwd(b@, Class::AsciiWs, ie + 1, n as int);
            lemma_cut_bnd(b@, skip_fwd(b@, Class::AsciiWs, ie + 1, n as int));
        }
        (utrim_exec(b, c3 + 1, ie), skip_forward(b, Class::AsciiWs, ie + 1, n))
    } else {
        ((c3, c3), c3)
    };
    proof {
        lemma_trim_ws_start(b@, bstart as int, n as int);
        lemma_cut_bnd(b@, n as int);
    }
    let body = trim_ws(b, bstart, n).0;
    if body >= n {
        return Err(ParseError::invalid(bstart, "missing provider body"));
    }
    Ok(PHeadPos { level, ts, tid, thread, ids, body })
}


// ------------------------------------------------------------------ body markers

/// Positions of the body markers.
pub struct PMarkers {
    pub ret: Option<int>,
    pub params: Option<int>,
    pub sql: Option<int>,
    pub time: Option<int>,
    pub exec_id: Option<int>,
}

pub open spec fn pmarkers_spec(b: Seq<u8>, body: int) -> PMarkers {
    PMarkers {
        ret: find_marker_spec(b, lit("[RETURN]:"), body, false, body),
        params: find_marker_spec(b, lit("[PARAMS]:"), body, false, body),
        sql: find_marker_spec(b, lit("[SQL]:"), body, false, body),
        time: find_marker_spec(b, lit("[USED TIME]:"), body, false, body),
        exec_id: find_marker_spec(b, lit("[EXEC_ID]:"), body, false, body),
    }
}

/// The first marker of the body.
pub open spec fn first_marker(m: PMarkers) -> Option<int> {
    min_opt(min_opt(min_opt(min_opt(m.ret, m.params), m.sql), m.time), m.exec_id)
}

/// Where the value that starts at `start` ends: the first marker after it,
/// or the end of the record.
pub open spec fn value_end(m: PMarkers, start: int, n: int) -> int {
    match min_opt(
        min_opt(
            min_opt(min_opt(after_opt(m.ret, start), after_opt(m.params, start)), after_opt(m.sql, start)),
            after_opt(m.time, start),
        ),
        after_opt(m.exec_id, start),
    ) {
        Some(x) => x,
        None => n,
    }
}

/// `b[s..e]` trimmed, without trailing `';'`, trimmed again; `None` when empty.
pub open spec fn separated_value(b: Seq<u8>, s: int, e: int) -> Option<(int, int)> {
    let t = utrim(b, s, e);
    let e2 = skip_back(b, Class::Semi, t.0, t.1);
    let v = utrim(b, t.0, e2);
    if v.0 < v.1 {
        Some(v)
    } else {
        None
    }
}

/// The value of the marker found at `pos` with length `len`.
pub open spec fn value_for(b: Seq<u8>, m: PMarkers, pos: Option<int>, len: int) -> Option<(int, int)> {
    match pos {
        Some(p) => separated_value(b, p + len, value_end(m, p + len, b.len() as int)),
        None => None,
    }
}

pub struct PMarkerPos {
    pub ret: Option<usize>,
    pub params: Option<usize>,
    pub sql: Option<usize>,
    pub time: Option<usize>,
    pub exec_id: Option<usize>,
}

impl PMarkerPos {
    pub open spec fn view(&self) -> PMarkers {
        PMarkers {
            ret: oi(self.ret),
            params: oi(self.params),
            sql: oi(self.sql),
            time: oi(self.time),
            exec_id: oi(self.exec_id),
        }
    }
}

/// A found marker ends inside the record at a character boundary.
pub open spec fn marker_ok(b: Seq<u8>, o: Option<int>, len: int) -> bool {
    o matches Some(p) ==> p + len <= b.len() && bnd(b, p) && bnd(b, p + len)
}

pub open spec fn pmarkers_ok(b: Seq<u8>, m: PMarkers) -> bool {
    &&& marker_ok(b, m.ret, lit("[RETURN]:").len() as int)
    &&& marker_ok(b, m.params, lit("[PARAMS]:").len() as int)
    &&& marker_ok(b, m.sql, lit("[SQL]:").len() as int)
    &&& marker_ok(b, m.time, lit("[USED TIME]:").len() as int)
    &&& marker_ok(b, m.exec_id, lit("[EXEC_ID]:").len() as int)
}

fn pmarker(b: &[u8], l: &str, body: usize) -> (r: Option<usize>)
    requires
        l.is_ascii(),
        l@.len() > 0,
        valid_utf8(b@),
    ensures
        oi(r) == find_marker_spec(b@, lit(l), body as int, false, body as int),
        marker_ok(b@, oi(r), lit(l).len() as int),
        r matches Some(p) ==> p >= body,
{
    let lb = lit_bytes(l);
    let r = find_marker(b, lb, body, false, body);
    proof {
        lemma_marker_scan(b@, lb@, body as int, false, body as int, None, false);
        if let Some(p) = r {
            lemma_cut_bnd(b@, p as int);
            lemma_cut_bnd(b@, p + lb@.len());
        }
    }
    r
}

fn pmarkers(b: &[u8], body: usize) -> (m: PMarkerPos)
    requires
        valid_utf8(b@),
    ensures
        m.view() == pmarkers_spec(b@, body as int),
        pmarkers_ok(b@, m.view()),
        m.ret matches Some(p) ==> p >= body,
        m.params matches Some(p) ==> p >= body,
        m.sql matches Some(p) ==> p >= body,
        m.time matches Some(p) ==> p >= body,
        m.exec_id matches Some(p) ==> p >= body,
{
    proof {
        reveal_strlit("[RETURN]:");
        reveal_strlit("[PARAMS]:");
        reveal_strlit("[SQL]:");
        reveal_strlit("[USED TIME]:");
        reveal_strlit("[EXEC_ID]:");
    }
    PMarkerPos {
        ret: pmarker(b, "[RETURN]:", body),
        params: pmarker(b, "[PARAMS]:", body),
        sql: pmarker(b, "[SQL]:", body),
        time: pmarker(b, "[USED TIME]:", body),
        exec_id: pmarker(b, "[EXEC_ID]:", body),
    }
}

fn min_p(a: Option<usize>, c: Option<usize>) -> (r: Option<usize>)
    ensures
        oi(r) == min_opt(oi(a), oi(c)),
        r matches Some(x) ==> (a == Some(x) || c == Some(x)),
{
    match (a, c) {
        (Some(x), Some(y)) => Some(if x <= y { x } else { y }),
        (Some(x), None) => Some(x),
        (None, y) => y,
    }
}

fn after_p(a: Option<usize>, start: usize) -> (r: Option<usize>)
    ensures
        oi(r) == after_opt(oi(a), start as int),
        r matches Some(x) ==> a == Some(x),
{
    match a {
        Some(x) => if x > start {
            Some(x)
        } else {
            None
        },
        None => None,
    }
}

fn value_end_exec(m: &PMarkerPos, start: usize, n: usize) -> (r: usize)
    ensures
        r == value_end(m.view(), start as int, n as int),
        r == n || r == m.ret.unwrap_or(n) || r == m.params.unwrap_or(n) || r == m.sql.unwrap_or(n)
            || r == m.time.unwrap_or(n) || r == m.exec_id.unwrap_or(n),
        r == n || r > start,
{
    let x = min_p(
        min_p(
            min_p(min_p(after_p(m.ret, start), after_p(m.params, start)), after_p(m.sql, start)),
            after_p(m.time, start),
        ),
        after_p(m.exec_id, start),
    );
    match x {
        Some(x) => x,
        None => n,
    }
}

fn separated_value_exec(b: &[u8], s: usize, e: usize) -> (r: Option<(usize, usize)>)
    requires
        e <= b@.len(),
        brange(b@, (s as int, e as int)),
    ensures
        match r {
            Some(v) => separated_value(b@, s as int, e as int) == Some(ri(v)) && brange(b@, ri(v)),
            None => separated_value(b@, s as int, e as int) is None,
        },
{
    let t = utrim_exec(b, s, e);
    let e2 = skip_backward(b, Class::Semi, t.0, t.1);
    proof {
        lemma_skip_back(b@, Class::Semi, t.0 as int, t.1 as int);
        if e2 < t.1 {
            assert(b@[e2 as int] < 0x80);
            vstd::utf8::is_char_boundary_iff_not_is_continuation_byte(b@, e2 as int);
        }
    }
    let v = utrim_exec(b, t.0, e2);
    if v.0 < v.1 {
        Some(v)
    } else {
        None
    }
}

fn value_for_exec(b: &[u8], m: &PMarkerPos, pos: Option<usize>, len: usize) -> (r: Option<
    (usize, usize),
>)
    requires
        valid_utf8(b@),
        pmarkers_ok(b@, m.view()),
        marker_ok(b@, oi(pos), len as int),
        pos is Some ==> (pos == m.ret || pos == m.params || pos == m.sql || pos == m.time || pos
            == m.exec_id),
    ensures
        match r {
            Some(v) => value_for(b@, m.view(), oi(pos), len as int) == Some(ri(v)) && brange(
                b@,
                ri(v),
            ),
            None => value_for(b@, m.view(), oi(pos), len as int) is None,
        },
{
    let n = b.len();
    match pos {
        Some(p) => {
            let start = p + len;
            let end = value_end_exec(m, start, n);
            proof {
                vstd::utf8::is_char_boundary_start_end_of_seq(b@);
            }
            separated_value_exec(b, start, end)
        },
        None => None,
    }
}


// ------------------------------------------------------------------ method and arguments

/// Splits `Method(args)` (or `Method args`) out of the method part `mp`:
/// the method name and its argument text.
pub open spec fn method_spec(b: Seq<u8>, mp: (int, int)) -> ((int, int), (int, int)) {
    match find_in(b, lit("("), mp.0, mp.1) {
        None => (utrim(b, mp.0, mp.1), (mp.1, mp.1)),
        Some(open) => {
            let close = match find_in(b, lit(")"), open + 1, mp.1) {
                Some(c) => c,
                None => mp.1,
            };
            let prefix = utrim(b, mp.0, open);
            let args = utrim(b, open + 1, close);
            match find_ws(b, prefix.0, prefix.1) {
                Some(sp) => {
                    let method = utrim(b, prefix.0, sp);
                    let prefix_args = utrim(b, sp, prefix.1);
                    if args.0 == args.1 {
                        (method, prefix_args)
                    } else {
                        (method, args)
                    }
                },
                None => (prefix, args),
            }
        },
    }
}

fn parse_method(b: &[u8], mp: (usize, usize)) -> (r: ((usize, usize), (usize, usize)))
    requires
        mp.1 <= b@.len(),
        brange(b@, ri(mp)),
    ensures
        (ri(r.0), ri(r.1)) == method_spec(b@, ri(mp)),
        brange(b@, ri(r.0)),
        brange(b@, ri(r.1)),
{
    proof {
        reveal_strlit("(");
        reveal_strlit(")");
    }
    let open_lit = lit_bytes("(");
    proof {
        lemma_find_in_bounds(b@, open_lit@, mp.0 as int, mp.1 as int);
    }
    match find(b, open_lit, mp.0, mp.1) {
        None => (utrim_exec(b, mp.0, mp.1), (mp.1, mp.1)),
        Some(open) => {
            proof {
                lemma_find_cut_ok(b@, open_lit@, mp.0 as int, mp.1 as int);
                lemma_cut_bnd(b@, open as int);
                lemma_cut_bnd(b@, open + 1);
            }
            let close_lit = lit_bytes(")");
            proof {
                lemma_find_in_bounds(b@, close_lit@, open + 1, mp.1 as int);
            }
            let close = match find(b, close_lit, open + 1, mp.1) {
                Some(c) => {
                    proof {
                        lemma_find_cut_ok(b@, close_lit@, open + 1, mp.1 as int);
                        lemma_cut_bnd(b@, c as int);
                    }
                    c
                },
                None => mp.1,
            };
            let prefix = utrim_exec(b, mp.0, open);
            let args = utrim_exec(b, open + 1, close);
            proof {
                lemma_find_ws_bnd(b@, prefix.0 as int, prefix.1 as int);
            }
            match find_ws_exec(b, prefix.0, prefix.1) {
                Some(sp) => {
                    let method = utrim_exec(b, prefix.0, sp);
                    let prefix_args = utrim_exec(b, sp, prefix.1);
                    if args.0 == args.1 {
                        (method, prefix_args)
                    } else {
                        (method, args)
                    }
                },
                None => (prefix, args),
            }
        },
    }
}

/// How a provider method is classified.
#[derive(Clone, Copy)]
pub enum PKind {
    DriverAccess,
    Execute,
    Fetch,
    ReadValue,
    Bind,
    Close,
    Unparsed,
    Message,
    Other,
}

pub open spec fn pstarts(m: Seq<u8>, p: Seq<u8>) -> bool {
    p.len() <= m.len() && m.subrange(0, p.len() as int) == p
}

pub open spec fn contains_byte(m: Seq<u8>, c: u8) -> bool {
    exists|k: int| 0 <= k < m.len() && m[k] == c
}

/// The category of a provider method name.
pub open spec fn pkind_of(m: Seq<u8>) -> PKind {
    if m == lit("access") {
        PKind::DriverAccess
    } else if pstarts(m, lit("Execute")) {
        PKind::Execute
    } else if pstarts(m, lit("Read")) {
        PKind::Fetch
    } else if pstarts(m, lit("get")) {
        PKind::ReadValue
    } else if pstarts(m, lit("set")) || m == lit("Add") {
        PKind::Bind
    } else if m == lit("Close") || m == lit("Dispose") {
        PKind::Close
    } else if m.len() == 0 {
        PKind::Unparsed
    } else if !contains_byte(m, 40) && contains_byte(m, 32) {
        PKind::Message
    } else {
        PKind::Other
    }
}

pub open spec fn pkind_name(k: PKind) -> Seq<char> {
    match k {
        PKind::DriverAccess => "driver_access"@,
        PKind::Execute => "execute"@,
        PKind::Fetch => "fetch"@,
        PKind::ReadValue => "read_value"@,
        PKind::Bind => "bind"@,
        PKind::Close => "close"@,
        PKind::Unparsed => "unparsed"@,
        PKind::Message => "message"@,
        PKind::Other => "other"@,
    }
}

impl PKind {
    pub fn name(&self) -> (r: &'static str)
        ensures
            r@ == pkind_name(*self),
    {
        match self {
            PKind::DriverAccess => "driver_access",
            PKind::Execute => "execute",
            PKind::Fetch => "fetch",
            PKind::ReadValue => "read_value",
            PKind::Bind => "bind",
            PKind::Close => "close",
            PKind::Unparsed => "unparsed",
            PKind::Message => "message",
            PKind::Other => "other",
        }
    }
}

fn eq_l(m: &[u8], l: &str) -> (r: bool)
    requires
        l.is_ascii(),
    ensures
        r == (m@ == lit(l)),
{
    let lb = lit_bytes(l);
    if m.len() != lb.len() {
        return false;
    }
    let r = matches_at(m, lb, 0, m.len());
    proof {
        if r {
            assert(m@ =~= m@.subrange(0, lb@.len() as int));
        } else {
            assert(m@.subrange(0, lb@.len() as int) =~= m@);
        }
    }
    r
}

fn starts_l(m: &[u8], l: &str) -> (r: bool)
    requires
        l.is_ascii(),
    ensures
        r == pstarts(m@, lit(l)),
{
    matches_at(m, lit_bytes(l), 0, m.len())
}

fn has_byte(m: &[u8], c: u8) -> (r: bool)
    ensures
        r == contains_byte(m@, c),
{
    let mut k: usize = 0;
    while k < m.len()
        invariant
            k <= m@.len(),
            forall|j: int| 0 <= j < k ==> m@[j] != c,
        decreases m@.len() - k,
    {
        if m[k] == c {
            return true;
        }
        k += 1;
    }
    false
}

/// Classifies a provider method name given as bytes.
pub fn pkind_of_bytes(m: &[u8]) -> (r: PKind)
    ensures
        r == pkind_of(m@),
{
    proof {
        reveal_strlit("access");
        reveal_strlit("Execute");
        reveal_strlit("Read");
        reveal_strlit("get");
        reveal_strlit("set");
        reveal_strlit("Add");
        reveal_strlit("Close");
        reveal_strlit("Dispose");
    }
    if eq_l(m, "access") {
        PKind::DriverAccess
    } else if starts_l(m, "Execute") {
        PKind::Execute
    } else if starts_l(m, "Read") {
        PKind::Fetch
    } else if starts_l(m, "get") {
        PKind::ReadValue
    } else if starts_l(m, "set") || eq_l(m, "Add") {
        PKind::Bind
    } else if eq_l(m, "Close") || eq_l(m, "Dispose") {
        PKind::Close
    } else if m.len() == 0 {
        PKind::Unparsed
    } else if !has_byte(m, 40) && has_byte(m, 32) {
        PKind::Message
    } else {
        PKind::Other
    }
}


// ------------------------------------------------------------------ id block

/// What the id block names.
pub struct PIds {
    pub object: Option<(int, int)>,
    pub conn: Option<i32>,
    pub command: Option<i32>,
    pub result_set: Option<i32>,
    pub param_coll: Option<i32>,
    pub session: Option<i64>,
}

/// `prefix` at the start of `b[s..e]` followed by digits (more may follow).
pub open spec fn prefixed_number(b: Seq<u8>, s: int, e: int, prefix: Seq<u8>) -> Option<i64> {
    if match_at(b, prefix, s, e) {
        match take_digits(b, s + prefix.len(), e) {
            Some((v, _)) => Some(v as i64),
            None => None,
        }
    } else {
        None
    }
}

/// Applies one token `b[s..e]` of the id block to `acc`.
pub open spec fn papply(b: Seq<u8>, s: int, e: int, acc: PIds) -> PIds {
    let t = utrim(b, s, e);
    let named = if let Some(v) = prefixed_number(b, t.0, t.1, lit("conn-")) {
        PIds { conn: to_i32(v), ..acc }
    } else if let Some(v) = prefixed_number(b, t.0, t.1, lit("command-")) {
        PIds { command: to_i32(v), ..acc }
    } else if let Some(v) = prefixed_number(b, t.0, t.1, lit("dateReader-")) {
        PIds { result_set: to_i32(v), ..acc }
    } else if let Some(v) = prefixed_number(b, t.0, t.1, lit("parameterCollection-")) {
        PIds { param_coll: to_i32(v), ..acc }
    } else if match_at(b, lit("B@"), t.0, t.1) && t.0 + 2 < t.1 {
        PIds { object: Some((t.0 + 2, t.1)), ..acc }
    } else {
        acc
    };
    match find_in(b, lit("sessId:"), t.0, t.1) {
        Some(st) => PIds {
            session: match take_digits(b, st + 7, t.1) {
                Some((v, _)) => Some(v as i64),
                None => None,
            },
            ..named
        },
        None => named,
    }
}

/// Applies the `','`-separated tokens of `b[s..e]`, left to right.
pub open spec fn pids_fold(b: Seq<u8>, s: int, e: int, acc: PIds) -> PIds
    decreases e - s,
{
    match find_in(b, lit(","), s, e) {
        Some(c) => if s <= c < e {
            pids_fold(b, c + 1, e, papply(b, s, c, acc))
        } else {
            acc
        },
        None => papply(b, s, e, acc),
    }
}

pub open spec fn no_pids() -> PIds {
    PIds {
        object: None,
        conn: None,
        command: None,
        result_set: None,
        param_coll: None,
        session: None,
    }
}

pub struct PIdsPos {
    pub object: Option<(usize, usize)>,
    pub conn: Option<i32>,
    pub command: Option<i32>,
    pub result_set: Option<i32>,
    pub param_coll: Option<i32>,
    pub session: Option<i64>,
}

impl PIdsPos {
    pub open spec fn view(&self) -> PIds {
        PIds {
            object: opt_ri(self.object),
            conn: self.conn,
            command: self.command,
            result_set: self.result_set,
            param_coll: self.param_coll,
            session: self.session,
        }
    }

    pub open spec fn ok(&self, b: Seq<u8>) -> bool {
        self.object matches Some(r) ==> brange(b, ri(r))
    }
}

fn prefixed_number_exec(b: &[u8], s: usize, e: usize, prefix: &[u8]) -> (r: Option<i64>)
    requires
        e <= b@.len(),
    ensures
        r == prefixed_number(b@, s as int, e as int, prefix@),
{
    if matches_at(b, prefix, s, e) {
        match take_i64(b, s + prefix.len(), e) {
            Some((v, _)) => Some(v),
            None => None,
        }
    } else {
        None
    }
}

fn papply_exec(b: &[u8], s: usize, e: usize, acc: PIdsPos) -> (r: PIdsPos)
    requires
        e <= b@.len(),
        brange(b@, (s as int, e as int)),
        acc.ok(b@),
    ensures
        r.view() == papply(b@, s as int, e as int, acc.view()),
        r.ok(b@),
{
    proof {
        reveal_strlit("conn-");
        reveal_strlit("command-");
        reveal_strlit("dateReader-");
        reveal_strlit("parameterCollection-");
        reveal_strlit("B@");
        reveal_strlit("sessId:");
    }
    let t = utrim_exec(b, s, e);
    let named = if let Some(v) = prefixed_number_exec(b, t.0, t.1, lit_bytes("conn-")) {
        PIdsPos { conn: narrow_i32(v), ..acc }
    } else if let Some(v) = prefixed_number_exec(b, t.0, t.1, lit_bytes("command-")) {
        PIdsPos { command: narrow_i32(v), ..acc }
    } else if let Some(v) = prefixed_number_exec(b, t.0, t.1, lit_bytes("dateReader-")) {
        PIdsPos { result_set: narrow_i32(v), ..acc }
    } else if let Some(v) = prefixed_number_exec(
        b,
        t.0,
        t.1,
        lit_bytes("parameterCollection-"),
    ) {
        PIdsPos { param_coll: narrow_i32(v), ..acc }
    } else {
        let at = lit_bytes("B@");
        if matches_at(b, at, t.0, t.1) && t.0 + 2 < t.1 {
            proof {
                lemma_match_cut(b@, at@, t.0 as int, t.1 as int);
                lemma_cut_bnd(b@, t.0 + 2);
            }
            PIdsPos { object: Some((t.0 + 2, t.1)), ..acc }
        } else {
            acc
        }
    };
    let sess = lit_bytes("sessId:");
    proof {
        lemma_find_in_bounds(b@, sess@, t.0 as int, t.1 as int);
    }
    match find(b, sess, t.0, t.1) {
        Some(st) => PIdsPos {
            session: match take_i64(b, st + 7, t.1) {
                Some((v, _)) => Some(v),
                None => None,
            },
            ..named
        },
        None => named,
    }
}

fn parse_pids(b: &[u8], s: usize, e: usize) -> (r: PIdsPos)
    requires
        e <= b@.len(),
        brange(b@, (s as int, e as int)),
    ensures
        r.view() == pids_fold(b@, s as int, e as int, no_pids()),
        r.ok(b@),
{
    proof {
        reveal_strlit(",");
    }
    let comma = lit_bytes(",");
    let mut acc = PIdsPos {
        object: None,
        conn: None,
        command: None,
        result_set: None,
        param_coll: None,
        session: None,
    };
    let mut i = s;
    loop
        invariant
            e <= b@.len(),
            s <= i <= e,
            bnd(b@, i as int),
            bnd(b@, e as int),
            comma@ == lit(","),
            comma@.len() == 1,
            crate::text::all_ascii(comma@),
            acc.ok(b@),
            pids_fold(b@, s as int, e as int, no_pids()) == pids_fold(
                b@,
                i as int,
                e as int,
                acc.view(),
            ),
        decreases e - i,
    {
        proof {
            lemma_find_in_bounds(b@, comma@, i as int, e as int);
        }
        match find(b, comma, i, e) {
            Some(c) => {
                proof {
                    lemma_find_cut_ok(b@, comma@, i as int, e as int);
                    lemma_cut_bnd(b@, c as int);
                    lemma_cut_bnd(b@, c + 1);
                }
                acc = papply_exec(b, i, c, acc);
                i = c + 1;
            },
            None => {
                return papply_exec(b, i, e, acc);
            },
        }
    }
}


// ------------------------------------------------------------------ durations

/// The unit of a driver-reported duration.
#[derive(Clone, Copy, Debug, PartialEq, Eq)]
pub enum TimeUnit {
    Nanos,
    Micros,
    Millis,
    Seconds,
}

/// A duration as the log writes it: the number text and its unit. Converting
/// the number to floating point is left to the caller.
#[derive(Clone, Debug, PartialEq)]
pub struct UsedTime {
    pub number: String,
    pub unit: TimeUnit,
}

/// The first position in `i..hi` whose byte is in class `k`, or `hi`.
pub open spec fn find_class(b: Seq<u8>, k: Class, i: int, hi: int) -> int
    decreases hi - i,
{
    if i >= hi {
        i
    } else if crate::text::in_class(k, b[i]) {
        i
    } else {
        find_class(b, k, i + 1, hi)
    }
}

/// The unit named by `b[s..e]`, if it is one of `ns`, `us`, `ms`, `s`.
pub open spec fn unit_of(u: Seq<u8>) -> Option<TimeUnit> {
    if u == lit("ns") {
        Some(TimeUnit::Nanos)
    } else if u == lit("us") {
        Some(TimeUnit::Micros)
    } else if u == lit("ms") {
        Some(TimeUnit::Millis)
    } else if u == lit("s") {
        Some(TimeUnit::Seconds)
    } else {
        None
    }
}

/// A duration text `b[s..e]`: the number before its first ASCII letter, and
/// the unit those letters name; `None` for any other unit.
pub open spec fn duration_spec(b: Seq<u8>, s: int, e: int) -> Option<((int, int), TimeUnit)> {
    let v = utrim(b, s, e);
    let us = find_class(b, Class::Alpha, v.0, v.1);
    let num = utrim(b, v.0, us);
    let unit = utrim(b, us, v.1);
    match unit_of(span(b, unit)) {
        Some(u) => Some((num, u)),
        None => None,
    }
}

fn duration(b: &[u8], s: usize, e: usize) -> (r: Option<((usize, usize), TimeUnit)>)
    requires
        e <= b@.len(),
        brange(b@, (s as int, e as int)),
    ensures
        match r {
            Some((num, u)) => duration_spec(b@, s as int, e as int) == Some((ri(num), u))
                && brange(b@, ri(num)),
            None => duration_spec(b@, s as int, e as int) is None,
        },
{
    proof {
        reveal_strlit("ns");
        reveal_strlit("us");
        reveal_strlit("ms");
        reveal_strlit("s");
    }
    let v = utrim_exec(b, s, e);
    let mut us = v.0;
    while us < v.1 && !Class::Alpha.has(b[us])
        invariant
            v.0 <= us <= v.1 <= b@.len(),
            find_class(b@, Class::Alpha, v.0 as int, v.1 as int) == find_class(
                b@,
                Class::Alpha,
                us as int,
                v.1 as int,
            ),
        decreases v.1 - us,
    {
        us += 1;
    }
    proof {
        if us < v.1 {
            crate::text::lemma_cut_ok(b@, us as int);
        }
    }
    let num = utrim_exec(b, v.0, us);
    let unit = utrim_exec(b, us, v.1);
    let ub = slice_of(b, unit.0, unit.1);
    let u = if eq_l(ub, "ns") {
        Some(TimeUnit::Nanos)
    } else if eq_l(ub, "us") {
        Some(TimeUnit::Micros)
    } else if eq_l(ub, "ms") {
        Some(TimeUnit::Millis)
    } else if eq_l(ub, "s") {
        Some(TimeUnit::Seconds)
    } else {
        None
    };
    match u {
        Some(u) => Some((num, u)),
        None => None,
    }
}

/// `b[s..e]` as a slice.
fn slice_of(b: &[u8], s: usize, e: usize) -> (r: &[u8])
    requires
        s <= e <= b@.len(),
    ensures
        r@ == b@.subrange(s as int, e as int),
{
    vstd::slice::slice_subrange(b, s, e)
}

// ------------------------------------------------------------------ timestamp

/// The digit run at `off`, read up to the end of `b`.
pub open spec fn run_at(b: Seq<u8>, off: int) -> Option<int> {
    match take_digits(b, off, b.len() as int) {
        Some((v, _)) => Some(v),
        None => None,
    }
}

/// `YYYY-MM-DD HH:MM:SS.mmm` as epoch milliseconds (UTC). Each field is the
/// digit run at its offset, so the millisecond field may hold more than three
/// digits; `None` when the result does not fit in an `i64`.
pub open spec fn provider_epoch_spec(b: Seq<u8>) -> Option<i64> {
    if b.len() < 23 || b[4] != 45 || b[7] != 45 || b[10] != 32 || b[13] != 58 || b[16] != 58
        || b[19] != 46 {
        None
    } else {
        match (
            run_at(b, 0),
            run_at(b, 5),
            run_at(b, 8),
            run_at(b, 11),
            run_at(b, 14),
            run_at(b, 17),
            run_at(b, 20),
        ) {
            (Some(y), Some(mo), Some(d), Some(h), Some(mi), Some(s), Some(ms)) => {
                let v = crate::text::civil_seconds_millis(y, mo, d, h, mi, s) + ms;
                if v <= i64::MAX {
                    Some(v as i64)
                } else {
                    None
                }
            },
            _ => None,
        }
    }
}

fn run_exec(b: &[u8], off: usize, stop: usize) -> (r: Option<i64>)
    requires
        off < stop < b@.len(),
        !crate::text::is_digit(b@[stop as int]),
    ensures
        crate::formats::jdbc::oi64(r) == run_at(b@, off as int),
        r matches Some(v) ==> 0 <= v < crate::text::pow10((stop - off) as nat),
{
    proof {
        crate::text::lemma_take_digits(b@, off as int, b@.len() as int);
        crate::text::lemma_digits_stop(b@, off as int, b@.len() as int, stop as int);
        if let Some((v, j)) = take_digits(b@, off as int, b@.len() as int) {
            crate::text::lemma_pow10_mono((j - off) as nat, (stop - off) as nat);
        }
    }
    match take_i64(b, off, b.len()) {
        Some((v, _)) => Some(v),
        None => None,
    }
}

/// Provider timestamps to epoch milliseconds; see [`provider_epoch_spec`].
pub fn provider_epoch_millis(ts: &[u8]) -> (r: Option<i64>)
    ensures
        r == provider_epoch_spec(ts@),
{
    let b = ts;
    if b.len() < 23 || b[4] != 45 || b[7] != 45 || b[10] != 32 || b[13] != 58 || b[16] != 58
        || b[19] != 46 {
        return None;
    }
    proof {
        reveal_with_fuel(crate::text::pow10, 5);
        crate::text::lemma_take_digits(b@, 20, b@.len() as int);
    }
    let y = run_exec(b, 0, 4);
    let mo = run_exec(b, 5, 7);
    let d = run_exec(b, 8, 10);
    let h = run_exec(b, 11, 13);
    let mi = run_exec(b, 14, 16);
    let s = run_exec(b, 17, 19);
    let ms = match take_i64(b, 20, b.len()) {
        Some((v, _)) => Some(v),
        None => None,
    };
    match (y, mo, d, h, mi, s, ms) {
        (Some(y), Some(mo), Some(d), Some(h), Some(mi), Some(s), Some(ms)) => {
            let base = crate::text::civil_to_millis(y, mo, d, h, mi, s);
            assert(run_at(b@, 20) == Some(ms as int));
            base.checked_add(ms)
        },
        _ => None,
    }
}


// ------------------------------------------------------------------ the whole record

/// The fields of a parsed provider record, as bytes and numbers.
pub struct ProviderRecord {
    pub level: Seq<u8>,
    pub event_time_text: Seq<u8>,
    pub event_time_ms: Option<i64>,
    pub tid: Option<i32>,
    pub thread: Seq<u8>,
    pub ids: Seq<u8>,
    pub object_id: Option<Seq<u8>>,
    pub conn_id: Option<i32>,
    pub session_id: Option<i64>,
    pub command_id: Option<i32>,
    pub result_set_id: Option<i32>,
    pub parameter_collection_id: Option<i32>,
    pub method: Seq<u8>,
    pub arg_types: Seq<u8>,
    pub return_value: Option<Seq<u8>>,
    pub params: Option<Seq<u8>>,
    pub sql: Option<Seq<u8>>,
    pub used_time_text: Option<Seq<u8>>,
    pub used_time: Option<(Seq<u8>, TimeUnit)>,
    pub exec_id: Option<i64>,
    pub cmd: Option<i32>,
    pub category: Seq<char>,
}

pub open spec fn pspan(b: Seq<u8>, o: Option<(int, int)>) -> Option<Seq<u8>> {
    match o {
        Some(r) => Some(span(b, r)),
        None => None,
    }
}

pub open spec fn opt_i64(o: Option<int>) -> Option<i64> {
    match o {
        Some(v) => Some(v as i64),
        None => None,
    }
}

pub open spec fn opt_i32(o: Option<int>) -> Option<i32> {
    match o {
        Some(v) => Some(v as i32),
        None => None,
    }
}

/// The `Cmd:N` number of an `access Cmd:N()` record.
pub open spec fn cmd_spec(b: Seq<u8>, method: (int, int), args: (int, int)) -> Option<i32> {
    if span(b, method) == lit("access") && pstarts(span(b, args), lit("Cmd:")) {
        let c = utrim(b, args.0 + 4, args.1);
        opt_i32(crate::text::parse_int_spec(b, c.0, c.1, i32::MIN as int, i32::MAX as int))
    } else {
        None
    }
}

/// Positions in the body of a record.
pub struct PLay {
    pub m: PMarkers,
    pub method: (int, int),
    pub args: (int, int),
    pub ret: Option<(int, int)>,
    pub params: Option<(int, int)>,
    pub sql: Option<(int, int)>,
    pub time: Option<(int, int)>,
    pub exec_v: Option<(int, int)>,
}

/// Where the method and the marker values of the body lie.
#[verifier::opaque]
pub open spec fn play_spec(b: Seq<u8>, body: int) -> PLay {
    let m = pmarkers_spec(b, body);
    let mp = utrim(
        b,
        body,
        match first_marker(m) {
            Some(x) => x,
            None => b.len() as int,
        },
    );
    let ma = method_spec(b, mp);
    PLay {
        m,
        method: ma.0,
        args: ma.1,
        ret: value_for(b, m, m.ret, lit("[RETURN]:").len() as int),
        params: value_for(b, m, m.params, lit("[PARAMS]:").len() as int),
        sql: value_for(b, m, m.sql, lit("[SQL]:").len() as int),
        time: value_for(b, m, m.time, lit("[USED TIME]:").len() as int),
        exec_v: value_for(b, m, m.exec_id, lit("[EXEC_ID]:").len() as int),
    }
}

/// The record read from `b`, whose header is `h`.
pub open spec fn precord_of(b: Seq<u8>, h: PHead) -> ProviderRecord {
    let l = play_spec(b, h.body);
    let ids = pids_fold(b, h.ids.0, h.ids.1, no_pids());
    let result_set = match l.ret {
        Some((s, e)) => match prefixed_number(b, s, e, lit("dateReader-")) {
            Some(v) => to_i32(v),
            None => ids.result_set,
        },
        None => ids.result_set,
    };
    ProviderRecord {
        level: span(b, h.level),
        event_time_text: span(b, h.ts),
        event_time_ms: provider_epoch_spec(span(b, h.ts)),
        tid: to_i32(h.tid),
        thread: span(b, h.thread),
        ids: span(b, h.ids),
        object_id: pspan(b, ids.object),
        conn_id: ids.conn,
        session_id: ids.session,
        command_id: ids.command,
        result_set_id: result_set,
        parameter_collection_id: ids.param_coll,
        method: span(b, l.method),
        arg_types: span(b, l.args),
        return_value: pspan(b, l.ret),
        params: pspan(b, l.params),
        sql: pspan(b, l.sql),
        used_time_text: pspan(b, l.time),
        used_time: match l.time {
            Some(t) => match duration_spec(b, t.0, t.1) {
                Some((num, u)) => Some((span(b, num), u)),
                None => None,
            },
            None => None,
        },
        exec_id: match l.exec_v {
            Some(v) => opt_i64(
                crate::text::parse_int_spec(b, v.0, v.1, i64::MIN as int, i64::MAX as int),
            ),
            None => None,
        },
        cmd: cmd_spec(b, l.method, l.args),
        category: pkind_name(pkind_of(span(b, l.method))),
    }
}

/// What parsing the record `b` gives: its fields, or the first failure.
pub open spec fn provider_spec(b: Seq<u8>) -> Result<ProviderRecord, Fail> {
    match phead_spec(b) {
        Ok(h) => Ok(precord_of(b, h)),
        Err(f) => Err(f),
    }
}

/// One DM Provider log record.
#[derive(Debug, Clone, PartialEq)]
pub struct DmProviderEvent {
    pub line_number: u64,
    pub raw: String,
    pub level: String,
    pub event_time_text: String,
    pub event_time_ms: Option<i64>,
    pub tid: Option<i32>,
    pub thread: String,
    /// The id block as written, e.g. `conn-... (sessId:...)`.
    pub ids: String,
    pub object_id: Option<String>,
    pub conn_id: Option<i32>,
    pub session_id: Option<i64>,
    pub command_id: Option<i32>,
    pub result_set_id: Option<i32>,
    pub parameter_collection_id: Option<i32>,
    pub method: String,
    pub arg_types: String,
    pub return_value: Option<String>,
    pub params: Option<String>,
    pub sql: Option<String>,
    pub used_time_text: Option<String>,
    /// `used_time_text` split into its number and unit (`ns`, `us`, `ms`, `s`).
    pub used_time: Option<UsedTime>,
    pub exec_id: Option<i64>,
    /// The number in `access Cmd:N()`.
    pub cmd: Option<i32>,
    pub category: &'static str,
}

pub open spec fn used_view(o: Option<UsedTime>) -> Option<(Seq<u8>, TimeUnit)> {
    match o {
        Some(u) => Some((sbytes(u.number), u.unit)),
        None => None,
    }
}

impl DmProviderEvent {
    pub open spec fn record(&self) -> ProviderRecord {
        ProviderRecord {
            level: sbytes(self.level),
            event_time_text: sbytes(self.event_time_text),
            event_time_ms: self.event_time_ms,
            tid: self.tid,
            thread: sbytes(self.thread),
            ids: sbytes(self.ids),
            object_id: osbytes(self.object_id),
            conn_id: self.conn_id,
            session_id: self.session_id,
            command_id: self.command_id,
            result_set_id: self.result_set_id,
            parameter_collection_id: self.parameter_collection_id,
            method: sbytes(self.method),
            arg_types: sbytes(self.arg_types),
            return_value: osbytes(self.return_value),
            params: osbytes(self.params),
            sql: osbytes(self.sql),
            used_time_text: osbytes(self.used_time_text),
            used_time: used_view(self.used_time),
            exec_id: self.exec_id,
            cmd: self.cmd,
            category: self.category@,
        }
    }
}

fn owned(line: &str, r: (usize, usize)) -> (s: String)
    requires
        r.1 <= bytes_of(line).len(),
        brange(bytes_of(line), ri(r)),
    ensures
        sbytes(s) == span(bytes_of(line), ri(r)),
{
    slice_bnd(line, r.0, r.1).to_owned()
}

fn owned_opt(line: &str, o: Option<(usize, usize)>) -> (s: Option<String>)
    requires
        o matches Some(r) ==> r.1 <= bytes_of(line).len() && brange(bytes_of(line), ri(r)),
    ensures
        osbytes(s) == pspan(bytes_of(line), opt_ri(o)),
{
    match o {
        Some(r) => Some(owned(line, r)),
        None => None,
    }
}


fn used_time(record: &str, t: Option<(usize, usize)>) -> (r: Option<UsedTime>)
    requires
        t matches Some(v) ==> v.1 <= bytes_of(record).len() && brange(bytes_of(record), ri(v)),
    ensures
        used_view(r) == match opt_ri(t) {
            Some(t) => match duration_spec(bytes_of(record), t.0, t.1) {
                Some((num, u)) => Some((span(bytes_of(record), num), u)),
                None => None,
            },
            None => None,
        },
{
    let b = record.as_bytes();
    match t {
        Some(t) => match duration(b, t.0, t.1) {
            Some((num, u)) => Some(UsedTime { number: owned(record, num), unit: u }),
            None => None,
        },
        None => None,
    }
}

fn command_number(b: &[u8], method: (usize, usize), args: (usize, usize)) -> (r: Option<i32>)
    requires
        method.1 <= b@.len(),
        args.1 <= b@.len(),
        brange(b@, ri(method)),
        brange(b@, ri(args)),
    ensures
        r == cmd_spec(b@, ri(method), ri(args)),
{
    proof {
        reveal_strlit("access");
        reveal_strlit("Cmd:");
    }
    let mb = slice_of(b, method.0, method.1);
    let ab = slice_of(b, args.0, args.1);
    if eq_l(mb, "access") && starts_l(ab, "Cmd:") {
        proof {
            assert(span(b@, ri(args)).subrange(0, 4) =~= b@.subrange(args.0 as int, args.0 + 4));
            assert(b@[args.0 + 3] == span(b@, ri(args))[3]);
            assert(cut_ok(b@, args.0 + 4));
            lemma_cut_bnd(b@, args.0 + 4);
        }
        let c = utrim_exec(b, args.0 + 4, args.1);
        crate::text::parse_i32(b, c.0, c.1)
    } else {
        None
    }
}

pub struct PLayPos {
    pub m: PMarkerPos,
    pub method: (usize, usize),
    pub args: (usize, usize),
    pub ret: Option<(usize, usize)>,
    pub params: Option<(usize, usize)>,
    pub sql: Option<(usize, usize)>,
    pub time: Option<(usize, usize)>,
    pub exec_v: Option<(usize, usize)>,
}

pub open spec fn opt_brange(b: Seq<u8>, o: Option<(usize, usize)>) -> bool {
    o matches Some(r) ==> r.1 <= b.len() && brange(b, ri(r))
}

impl PLayPos {
    pub open spec fn view(&self) -> PLay {
        PLay {
            m: self.m.view(),
            method: ri(self.method),
            args: ri(self.args),
            ret: opt_ri(self.ret),
            params: opt_ri(self.params),
            sql: opt_ri(self.sql),
            time: opt_ri(self.time),
            exec_v: opt_ri(self.exec_v),
        }
    }

    pub open spec fn ok(&self, b: Seq<u8>) -> bool {
        &&& self.method.1 <= b.len()
        &&& self.args.1 <= b.len()
        &&& brange(b, ri(self.method))
        &&& brange(b, ri(self.args))
        &&& opt_brange(b, self.ret)
        &&& opt_brange(b, self.params)
        &&& opt_brange(b, self.sql)
        &&& opt_brange(b, self.time)
        &&& opt_brange(b, self.exec_v)
    }
}

#[verifier::rlimit(60)]
#[verifier::spinoff_prover]
fn layout(b: &[u8], body: usize) -> (l: PLayPos)
    requires
        valid_utf8(b@),
        bnd(b@, body as int),
        body < b@.len(),
    ensures
        l.view() == play_spec(b@, body as int),
        l.ok(b@),
{
    proof {
        reveal(play_spec);
        vstd::utf8::is_char_boundary_start_end_of_seq(b@);
        reveal_strlit("[RETURN]:");
        reveal_strlit("[PARAMS]:");
        reveal_strlit("[SQL]:");
        reveal_strlit("[USED TIME]:");
        reveal_strlit("[EXEC_ID]:");
    }
    let n = b.len();
    let m = pmarkers(b, body);
    let first = min_p(min_p(min_p(min_p(m.ret, m.params), m.sql), m.time), m.exec_id);
    let mpe = match first {
        Some(x) => x,
        None => n,
    };
    let mp = utrim_exec(b, body, mpe);
    let (method, args) = parse_method(b, mp);
    PLayPos {
        ret: value_for_exec(b, &m, m.ret, lit_bytes("[RETURN]:").len()),
        params: value_for_exec(b, &m, m.params, lit_bytes("[PARAMS]:").len()),
        sql: value_for_exec(b, &m, m.sql, lit_bytes("[SQL]:").len()),
        time: value_for_exec(b, &m, m.time, lit_bytes("[USED TIME]:").len()),
        exec_v: value_for_exec(b, &m, m.exec_id, lit_bytes("[EXEC_ID]:").len()),
        m,
        method,
        args,
    }
}

#[verifier::rlimit(80)]
#[verifier::spinoff_prover]
fn parse_inner(record: &str) -> (r: Result<DmProviderEvent, ParseError>)
    ensures
        match r {
            Ok(ev) => provider_spec(bytes_of(record)) == Ok::<ProviderRecord, Fail>(ev.record())
                && ev.line_number == 0 && ev.raw@.len() == 0,
            Err(e) => provider_spec(bytes_of(record)) matches Err(f) && is_fail(e, f),
        },
{
    let b = record.as_bytes();
    proof {
        encode_utf8_valid_utf8(record@);
        vstd::utf8::is_char_boundary_start_end_of_seq(b@);
        reveal_strlit("dateReader-");
    }
    let n = b.len();
    let h = match parse_phead(b) {
        Ok(h) => h,
        Err(e) => return Err(e),
    };
    let l = layout(b, h.body);
    let method = l.method;
    let args = l.args;
    let ret = l.ret;
    let params = l.params;
    let sql = l.sql;
    let time = l.time;
    let exec_v = l.exec_v;
    let ids = parse_pids(b, h.ids.0, h.ids.1);
    let result_set = match ret {
        Some((s, e)) => match prefixed_number_exec(b, s, e, lit_bytes("dateReader-")) {
            Some(v) => narrow_i32(v),
            None => ids.result_set,
        },
        None => ids.result_set,
    };
    let kind = pkind_of_bytes(slice_of(b, method.0, method.1));
    let exec_id = match exec_v {
        Some(v) => crate::text::parse_i64(b, v.0, v.1),
        None => None,
    };
    Ok(
        DmProviderEvent {
            line_number: 0,
            raw: String::new(),
            level: owned(record, h.level),
            event_time_text: owned(record, h.ts),
            event_time_ms: provider_epoch_millis(slice_of(b, h.ts.0, h.ts.1)),
            tid: narrow_i32(h.tid),
            thread: owned(record, h.thread),
            ids: owned(record, h.ids),
            object_id: owned_opt(record, ids.object),
            conn_id: ids.conn,
            session_id: ids.session,
            command_id: ids.command,
            result_set_id: result_set,
            parameter_collection_id: ids.param_coll,
            method: owned(record, method),
            arg_types: owned(record, args),
            return_value: owned_opt(record, ret),
            params: owned_opt(record, params),
            sql: owned_opt(record, sql),
            used_time_text: owned_opt(record, time),
            used_time: used_time(record, time),
            exec_id,
            cmd: command_number(b, method, args),
            category: kind.name(),
        },
    )
}


/// Parses one provider record; the SQL text in it may span lines. The event
/// has line number 0 and an empty raw text; on failure the error carries the
/// record as its raw text and line number 0.
pub fn parse_line(record: &str) -> (r: Result<DmProviderEvent, ParseError>)
    ensures
        match r {
            Ok(ev) => provider_spec(bytes_of(record)) == Ok::<ProviderRecord, Fail>(ev.record())
                && ev.line_number == 0 && ev.raw@.len() == 0,
            Err(e) => provider_spec(bytes_of(record)) matches Err(f) && is_fail_in(
                e,
                f,
                record@,
                0,
            ),
        },
{
    match parse_inner(record) {
        Ok(ev) => Ok(ev),
        Err(e) => Err(e.with_context(record, 0)),
    }
}

/// Parses a record given as bytes, decoded as UTF-8, or GB18030 when it is
/// not valid UTF-8.
pub fn parse_bytes(record: &[u8]) -> (r: Result<DmProviderEvent, ParseError>)
    ensures
        match r {
            Ok(ev) => provider_spec(
                encode_utf8(decode_spec(record@, FileEncodingHint::Auto)),
            ) == Ok::<ProviderRecord, Fail>(ev.record()) && ev.line_number == 0 && ev.raw@.len() == 0,
            Err(e) => provider_spec(
                encode_utf8(decode_spec(record@, FileEncodingHint::Auto)),
            ) matches Err(f) && is_fail_in(e, f, decode_spec(record@, FileEncodingHint::Auto), 0),
        },
{
    let text = decode(record, FileEncodingHint::Auto);
    parse_line(text.as_str())
}

/// Whether a line starts a record: it starts with `'['` and holds `"] tid:"`.
pub open spec fn is_record_start_spec(b: Seq<u8>) -> bool {
    b.len() > 0 && b[0] == 91 && find_in(b, lit("] tid:"), 0, b.len() as int) is Some
}

/// The DM Provider log format: a record runs from a header line up to the
/// next header line.
#[derive(Copy, Clone, Debug, Default)]
pub struct DmProviderFormat;

impl DmProviderFormat {
    /// Whether a line starts a record; see [`is_record_start_spec`].
    pub fn is_record_start(line: &str) -> (r: bool)
        ensures
            r == is_record_start_spec(bytes_of(line)),
    {
        proof {
            reveal_strlit("] tid:");
        }
        let b = line.as_bytes();
        b.len() > 0 && b[0] == 91 && find(b, lit_bytes("] tid:"), 0, b.len()).is_some()
    }

    /// Parses a record that starts at `line_number`; the event keeps the
    /// record text and line number.
    pub fn parse_record(record: &str, line_number: u64) -> (r: Result<
        DmProviderEvent,
        ParseError,
    >)
        ensures
            match r {
                Ok(ev) => provider_spec(bytes_of(record)) == Ok::<ProviderRecord, Fail>(
                    ev.record(),
                ) && ev.line_number == line_number && ev.raw@ == record@,
                Err(e) => provider_spec(bytes_of(record)) matches Err(f) && is_fail_in(
                    e,
                    f,
                    record@,
                    0,
                ),
            },
    {
        match parse_line(record) {
            Ok(ev) => {
                let mut ev = ev;
                ev.line_number = line_number;
                ev.raw = record.to_owned();
                Ok(ev)
            },
            Err(e) => Err(e),
        }
    }
}

// ------------------------------------------------------------------ timestamps agree

/// `b[off..off + len]` are decimal digits.
pub open spec fn digits_in(b: Seq<u8>, off: int, len: int) -> bool {
    forall|k: int| off <= k < off + len ==> crate::text::is_digit(#[trigger] b[k])
}

/// A timestamp of the shape `YYYY-MM-DD HH:MM:SS.mmm` with every field made
/// of digits and no digit right after the milliseconds.
pub open spec fn well_formed_stamp(b: Seq<u8>) -> bool {
    &&& b.len() >= 23
    &&& b[4] == 45 && b[7] == 45 && b[10] == 32 && b[13] == 58 && b[16] == 58 && b[19] == 46
    &&& digits_in(b, 0, 4) && digits_in(b, 5, 2) && digits_in(b, 8, 2) && digits_in(b, 11, 2)
    &&& digits_in(b, 14, 2) && digits_in(b, 17, 2) && digits_in(b, 20, 3)
    &&& (b.len() == 23 || !crate::text::is_digit(b[23]))
}

proof fn lemma_field_run(b: Seq<u8>, off: int, len: int)
    requires
        0 <= off,
        1 <= len <= 4,
        off + len <= b.len(),
        digits_in(b, off, len),
        off + len == b.len() || !crate::text::is_digit(b[off + len]),
    ensures
        run_at(b, off) == crate::formats::jdbc::fixed_digits(b, off, len),
        run_at(b, off) matches Some(v) && 0 <= v < crate::text::pow10(len as nat),
{
    let n = b.len() as int;
    lemma_skip_fwd(b, Class::Digit, off, n);
    let j = skip_fwd(b, Class::Digit, off, n);
    if j < off + len {
        assert(crate::text::is_digit(b[j]));
        assert(crate::text::in_class(Class::Digit, b[j]));
    }
    if off + len < n {
        crate::text::lemma_digits_stop(b, off, n, off + len);
        assert(!crate::text::in_class(Class::Digit, b[off + len]));
    }
    assert(j == off + len);
    assert forall|m: int| off <= m < j implies crate::text::is_digit(#[trigger] b[m]) by {}
    crate::text::lemma_dec_bound(b, off, j);
    reveal_with_fuel(crate::text::pow10, 5);
}

/// On a well-formed timestamp, the DM Provider reading (digit runs) and the
/// JDBC reading (fixed-width fields) give the same epoch milliseconds; on a
/// too short line or a wrong separator both give `None`.
pub proof fn lemma_provider_epoch_agrees(b: Seq<u8>)
    ensures
        well_formed_stamp(b) ==> provider_epoch_spec(b) == crate::formats::jdbc::epoch_millis_spec(b),
        (b.len() < 23 || b[4] != 45 || b[7] != 45 || b[10] != 32 || b[13] != 58 || b[16] != 58
            || b[19] != 46) ==> provider_epoch_spec(b) is None
            && crate::formats::jdbc::epoch_millis_spec(b) is None,
{
    if well_formed_stamp(b) {
        lemma_field_run(b, 0, 4);
        lemma_field_run(b, 5, 2);
        lemma_field_run(b, 8, 2);
        lemma_field_run(b, 11, 2);
        lemma_field_run(b, 14, 2);
        lemma_field_run(b, 17, 2);
        lemma_field_run(b, 20, 3);
        let y = run_at(b, 0)->Some_0;
        let mo = run_at(b, 5)->Some_0;
        let d = run_at(b, 8)->Some_0;
        let h = run_at(b, 11)->Some_0;
        let mi = run_at(b, 14)->Some_0;
        let s = run_at(b, 17)->Some_0;
        reveal_with_fuel(crate::text::pow10, 5);
        crate::text::lemma_civil_bounds(y, mo, d, h, mi, s);
    }
}

// ------------------------------------------------------------------ laws of the id block

/// The number of the token `b[s..e]`, trimmed, when it starts with `prefix`
/// followed by digits.
pub open spec fn prefixed_token(b: Seq<u8>, s: int, e: int, prefix: Seq<u8>) -> Option<i64> {
    let t = utrim(b, s, e);
    prefixed_number(b, t.0, t.1, prefix)
}

/// The number of the last `','`-separated token of `b[s..e]` that starts
/// with `prefix` followed by digits, narrowed to an `i32`; `acc` when no
/// token does.
pub open spec fn last_prefixed_token(
    b: Seq<u8>,
    s: int,
    e: int,
    prefix: Seq<u8>,
    acc: Option<i32>,
) -> Option<i32>
    decreases e - s,
{
    let here = |x: int| match prefixed_token(b, s, x, prefix) {
        Some(v) => to_i32(v),
        None => acc,
    };
    match find_in(b, lit(","), s, e) {
        Some(c) => if s <= c < e {
            last_prefixed_token(b, c + 1, e, prefix, here(c))
        } else {
            acc
        },
        None => here(e),
    }
}

/// The session of the token `b[s..e]`: the digits after its first
/// `sessId:` (`Some(None)` when no digits follow); `None` when it has no
/// `sessId:`.
pub open spec fn session_token(b: Seq<u8>, s: int, e: int) -> Option<Option<i64>> {
    let t = utrim(b, s, e);
    match find_in(b, lit("sessId:"), t.0, t.1) {
        Some(st) => Some(
            match take_digits(b, st + 7, t.1) {
                Some((v, _)) => Some(v as i64),
                None => None,
            },
        ),
        None => None,
    }
}

/// The object of the token `b[s..e]`: what follows `B@` when the trimmed
/// token starts with it and more follows.
pub open spec fn object_token(b: Seq<u8>, s: int, e: int) -> Option<(int, int)> {
    let t = utrim(b, s, e);
    if match_at(b, lit("B@"), t.0, t.1) && t.0 + 2 < t.1 {
        Some((t.0 + 2, t.1))
    } else {
        None
    }
}

/// The session of the last `','`-separated token of `b[s..e]` that holds
/// `sessId:`; `acc` when none does.
pub open spec fn last_session(b: Seq<u8>, s: int, e: int, acc: Option<i64>) -> Option<i64>
    decreases e - s,
{
    let here = |x: int| match session_token(b, s, x) {
        Some(v) => v,
        None => acc,
    };
    match find_in(b, lit(","), s, e) {
        Some(c) => if s <= c < e {
            last_session(b, c + 1, e, here(c))
        } else {
            acc
        },
        None => here(e),
    }
}

/// The object of the last `','`-separated token of `b[s..e]` that starts
/// with `B@`; `acc` when none does.
pub open spec fn last_object(b: Seq<u8>, s: int, e: int, acc: Option<(int, int)>) -> Option<(int, int)>
    decreases e - s,
{
    let here = |x: int| match object_token(b, s, x) {
        Some(v) => Some(v),
        None => acc,
    };
    match find_in(b, lit(","), s, e) {
        Some(c) => if s <= c < e {
            last_object(b, c + 1, e, here(c))
        } else {
            acc
        },
        None => here(e),
    }
}

proof fn lemma_papply_fields(b: Seq<u8>, s: int, e: int, acc: PIds)
    ensures
        ({
            let r = papply(b, s, e, acc);
            let pick = |p: Seq<u8>, old: Option<i32>| match prefixed_token(b, s, e, p) {
                Some(v) => to_i32(v),
                None => old,
            };
            &&& r.conn == pick(lit("conn-"), acc.conn)
            &&& r.command == pick(lit("command-"), acc.command)
            &&& r.result_set == pick(lit("dateReader-"), acc.result_set)
            &&& r.param_coll == pick(lit("parameterCollection-"), acc.param_coll)
            &&& r.session == match session_token(b, s, e) {
                Some(v) => v,
                None => acc.session,
            }
            &&& r.object == match object_token(b, s, e) {
                Some(v) => Some(v),
                None => acc.object,
            }
        }),
{
    reveal_strlit("B@");
    reveal_strlit("conn-");
    reveal_strlit("command-");
    reveal_strlit("dateReader-");
    reveal_strlit("parameterCollection-");
    let t = utrim(b, s, e);
    if prefixed_token(b, s, e, lit("conn-")) is Some {
        assert(b.subrange(t.0, t.0 + 5)[0] == 99);
        assert(b.subrange(t.0, t.0 + 5)[2] == 110);
    }
    if prefixed_token(b, s, e, lit("command-")) is Some {
        assert(b.subrange(t.0, t.0 + 8)[0] == 99);
        assert(b.subrange(t.0, t.0 + 8)[2] == 109);
    }
    if prefixed_token(b, s, e, lit("dateReader-")) is Some {
        assert(b.subrange(t.0, t.0 + 11)[0] == 100);
    }
    if prefixed_token(b, s, e, lit("parameterCollection-")) is Some {
        assert(b.subrange(t.0, t.0 + 20)[0] == 112);
    }
    if object_token(b, s, e) is Some {
        assert(b.subrange(t.0, t.0 + 2)[0] == 66);
    }
}

/// Each numbered field of a provider id block is the number of its last
/// token that starts with `conn-N`, `command-N`, `dateReader-N` or
/// `parameterCollection-N`; tokens of other forms leave the fields as they
/// were.
pub proof fn lemma_provider_id_block_fields(b: Seq<u8>, s: int, e: int, acc: PIds)
    ensures
        ({
            let r = pids_fold(b, s, e, acc);
            &&& r.conn == last_prefixed_token(b, s, e, lit("conn-"), acc.conn)
            &&& r.command == last_prefixed_token(b, s, e, lit("command-"), acc.command)
            &&& r.result_set == last_prefixed_token(b, s, e, lit("dateReader-"), acc.result_set)
            &&& r.param_coll == last_prefixed_token(
                b,
                s,
                e,
                lit("parameterCollection-"),
                acc.param_coll,
            )
            &&& r.session == last_session(b, s, e, acc.session)
            &&& r.object == last_object(b, s, e, acc.object)
        }),
    decreases e - s,
{
    match find_in(b, lit(","), s, e) {
        Some(c) => if s <= c < e {
            lemma_papply_fields(b, s, c, acc);
            lemma_provider_id_block_fields(b, c + 1, e, papply(b, s, c, acc));
        },
        None => {
            lemma_papply_fields(b, s, e, acc);
        },
    }
}

/// In a parsed provider record, the connection, command and parameter
/// collection are the last `conn-N`, `command-N` and `parameterCollection-N`
/// tokens of the id block; the result set is the `dateReader-N` that the
/// return value starts with, and otherwise the last `dateReader-N` token of
/// the id block.
#[verifier::rlimit(80)]
#[verifier::spinoff_prover]
pub proof fn lemma_provider_record_ids(b: Seq<u8>)
    requires
        provider_spec(b) is Ok,
    ensures
        ({
            let r = provider_spec(b)->Ok_0;
            let h = phead_spec(b)->Ok_0;
            let ret = play_spec(b, h.body).ret;
            let named = match ret {
                Some((s, e)) => prefixed_number(b, s, e, lit("dateReader-")),
                None => None,
            };
            &&& r.conn_id == last_prefixed_token(b, h.ids.0, h.ids.1, lit("conn-"), None)
            &&& r.command_id == last_prefixed_token(b, h.ids.0, h.ids.1, lit("command-"), None)
            &&& r.parameter_collection_id == last_prefixed_token(
                b,
                h.ids.0,
                h.ids.1,
                lit("parameterCollection-"),
                None,
            )
            &&& named is None ==> r.result_set_id == last_prefixed_token(
                b,
                h.ids.0,
                h.ids.1,
                lit("dateReader-"),
                None,
            )
            &&& named matches Some(v) ==> r.result_set_id == to_i32(v)
            &&& r.session_id == last_session(b, h.ids.0, h.ids.1, None)
            &&& r.object_id == pspan(b, last_object(b, h.ids.0, h.ids.1, None))
        }),
{
    let h = phead_spec(b)->Ok_0;
    lemma_provider_id_block_fields(b, h.ids.0, h.ids.1, no_pids());
}

// ------------------------------------------------------------------ laws of the marker values

proof fn lemma_separated_value_bounds(b: Seq<u8>, s: int, e: int)
    requires
        0 <= s,
        e <= b.len(),
    ensures
        separated_value(b, s, e) matches Some((x, y)) ==> s <= x < y <= e,
{
    if s <= e {
        crate::text::lemma_utrim_bounds(b, s, e);
        let t = utrim(b, s, e);
        lemma_skip_back(b, Class::Semi, t.0, t.1);
        let e2 = skip_back(b, Class::Semi, t.0, t.1);
        crate::text::lemma_utrim_bounds(b, t.0, e2);
    }
}

/// Where a marker of the body is: the first occurrence of its text at or
/// after the body, outside of quoted text.
pub open spec fn marker_pos_ok(b: Seq<u8>, body: int, lit: Seq<u8>, p: Option<int>) -> bool {
    match p {
        Some(x) => crate::text::marker_hit(b, lit, body, false, body, x) && forall|j: int|
            body <= j < x ==> !#[trigger] crate::text::marker_hit(b, lit, body, false, body, j),
        None => forall|j: int|
            body <= j < b.len() ==> !#[trigger] crate::text::marker_hit(b, lit, body, false, body, j),
    }
}

/// A value lies after its marker and ends before every other marker that
/// comes after its start: its range `(s, e)` has `start <= s < e`, and no
/// marker position `q` of the body has `start < q < e`.
pub open spec fn value_fits(b: Seq<u8>, m: PMarkers, start: int, v: Option<(int, int)>) -> bool {
    v matches Some((s, e)) ==> {
        &&& start <= s < e <= b.len()
        &&& (m.ret matches Some(q) ==> !(start < q < e))
        &&& (m.params matches Some(q) ==> !(start < q < e))
        &&& (m.sql matches Some(q) ==> !(start < q < e))
        &&& (m.time matches Some(q) ==> !(start < q < e))
        &&& (m.exec_id matches Some(q) ==> !(start < q < e))
    }
}

proof fn lemma_value_for_fits(b: Seq<u8>, body: int, m: PMarkers, pos: Option<int>, len: int)
    requires
        0 <= body,
        len > 0,
        m == pmarkers_spec(b, body),
        pos matches Some(p) ==> 0 <= p && p + len <= b.len(),
    ensures
        pos matches Some(p) ==> value_fits(b, m, p + len, value_for(b, m, pos, len)),
{
    lemma_find_marker_least(b, lit("[RETURN]:"), body, false, body);
    lemma_find_marker_least(b, lit("[PARAMS]:"), body, false, body);
    lemma_find_marker_least(b, lit("[SQL]:"), body, false, body);
    lemma_find_marker_least(b, lit("[USED TIME]:"), body, false, body);
    lemma_find_marker_least(b, lit("[EXEC_ID]:"), body, false, body);
    if let Some(p) = pos {
        let start = p + len;
        let n = b.len() as int;
        let end = value_end(m, start, n);
        assert(start < end <= n || end == n);
        lemma_separated_value_bounds(b, start, end);
    }
}

/// The markers of a provider body are the first occurrences of their texts
/// outside quoted text, and each marker's value lies after it and ends
/// before every other marker that comes after the value's start.
#[verifier::rlimit(80)]
#[verifier::spinoff_prover]
pub proof fn lemma_provider_values(b: Seq<u8>, body: int)
    requires
        0 <= body,
    ensures
        ({
            let l = play_spec(b, body);
            let m = l.m;
            &&& marker_pos_ok(b, body, lit("[RETURN]:"), m.ret)
            &&& marker_pos_ok(b, body, lit("[PARAMS]:"), m.params)
            &&& marker_pos_ok(b, body, lit("[SQL]:"), m.sql)
            &&& marker_pos_ok(b, body, lit("[USED TIME]:"), m.time)
            &&& marker_pos_ok(b, body, lit("[EXEC_ID]:"), m.exec_id)
            &&& (m.ret matches Some(p) ==> value_fits(b, m, p + 9, l.ret))
            &&& (m.params matches Some(p) ==> value_fits(b, m, p + 9, l.params))
            &&& (m.sql matches Some(p) ==> value_fits(b, m, p + 6, l.sql))
            &&& (m.time matches Some(p) ==> value_fits(b, m, p + 12, l.time))
            &&& (m.exec_id matches Some(p) ==> value_fits(b, m, p + 10, l.exec_v))
        }),
{
    reveal(play_spec);
    reveal_strlit("[RETURN]:");
    reveal_strlit("[PARAMS]:");
    reveal_strlit("[SQL]:");
    reveal_strlit("[USED TIME]:");
    reveal_strlit("[EXEC_ID]:");
    let m = pmarkers_spec(b, body);
    lemma_find_marker_least(b, lit("[RETURN]:"), body, false, body);
    lemma_find_marker_least(b, lit("[PARAMS]:"), body, false, body);
    lemma_find_marker_least(b, lit("[SQL]:"), body, false, body);
    lemma_find_marker_least(b, lit("[USED TIME]:"), body, false, body);
    lemma_find_marker_least(b, lit("[EXEC_ID]:"), body, false, body);
    lemma_value_for_fits(b, body, m, m.ret, 9);
    lemma_value_for_fits(b, body, m, m.params, 9);
    lemma_value_for_fits(b, body, m, m.sql, 6);
    lemma_value_for_fits(b, body, m, m.time, 12);
    lemma_value_for_fits(b, body, m, m.exec_id, 10);
}

pub proof fn lemma_prefixed_number_shift(b: Seq<u8>, s: int, e: int, prefix: Seq<u8>)
    requires
        0 <= s <= e <= b.len(),
    ensures
        prefixed_number(b, s, e, prefix) == prefixed_number(b.subrange(s, e), 0, e - s, prefix),
{
    crate::formats::jdbc::lemma_digits_after_shift(b, s, e, prefix);
    assert(prefixed_number(b, s, e, prefix) == crate::formats::jdbc::digits_after(b, s, e, prefix));
    assert(prefixed_number(b.subrange(s, e), 0, e - s, prefix)
        == crate::formats::jdbc::digits_after(b.subrange(s, e), 0, e - s, prefix));
}

/// The result set that a provider return value names: `dateReader-N` at its
/// start.
pub open spec fn data_reader_named_by(v: Seq<u8>) -> Option<i64> {
    prefixed_number(v, 0, v.len() as int, lit("dateReader-"))
}

proof fn lemma_phead_body(b: Seq<u8>)
    requires
        phead_spec(b) is Ok,
    ensures
        0 <= phead_spec(b)->Ok_0.body < b.len(),
{
    let n = b.len() as int;
    reveal_strlit("]");
    reveal_strlit(" - ");
    reveal_strlit("tid:");
    reveal_strlit("(");
    reveal_strlit(")");
    reveal_strlit("}");
    let he = find_in(b, lit("]"), 1, n)->Some_0;
    lemma_find_in_bounds(b, lit("]"), 1, n);
    let c0 = skip_fwd(b, Class::AsciiWs, he + 1, n);
    lemma_skip_fwd(b, Class::AsciiWs, he + 1, n);
    crate::text::lemma_take_digits(b, c0 + 4, n);
    let nx = take_digits(b, c0 + 4, n)->Some_0.1;
    let c2 = skip_fwd(b, Class::AsciiWs, nx, n);
    lemma_skip_fwd(b, Class::AsciiWs, nx, n);
    let te = find_in(b, lit(")"), c2 + 1, n)->Some_0;
    lemma_find_in_bounds(b, lit(")"), c2 + 1, n);
    let c3 = skip_fwd(b, Class::AsciiWs, te + 1, n);
    lemma_skip_fwd(b, Class::AsciiWs, te + 1, n);
    if c3 < n && b[c3] == 123 {
        let ie = find_in(b, lit("}"), c3 + 1, n)->Some_0;
        lemma_find_in_bounds(b, lit("}"), c3 + 1, n);
        let bstart = skip_fwd(b, Class::AsciiWs, ie + 1, n);
        lemma_skip_fwd(b, Class::AsciiWs, ie + 1, n);
        crate::text::lemma_trim_ws_start_bounds(b, bstart, n);
    } else {
        crate::text::lemma_trim_ws_start_bounds(b, c3, n);
    }
}

/// In a parsed provider record, the result set is the `dateReader-N` that
/// the return value starts with (narrowed to an `i32`), and otherwise the
/// last `dateReader-N` token of the id block.
#[verifier::rlimit(80)]
#[verifier::spinoff_prover]
pub proof fn lemma_provider_result_set(b: Seq<u8>)
    requires
        provider_spec(b) is Ok,
    ensures
        ({
            let r = provider_spec(b)->Ok_0;
            let h = phead_spec(b)->Ok_0;
            r.result_set_id == match r.return_value {
                Some(v) => match data_reader_named_by(v) {
                    Some(n) => to_i32(n),
                    None => last_prefixed_token(b, h.ids.0, h.ids.1, lit("dateReader-"), None),
                },
                None => last_prefixed_token(b, h.ids.0, h.ids.1, lit("dateReader-"), None),
            }
        }),
{
    let h = phead_spec(b)->Ok_0;
    lemma_provider_record_ids(b);
    lemma_phead_body(b);
    lemma_provider_values(b, h.body);
    reveal(play_spec);
    let l = play_spec(b, h.body);
    if let Some((s, e)) = l.ret {
        lemma_prefixed_number_shift(b, s, e, lit("dateReader-"));
    }
}

// ------------------------------------------------------------------ laws of the categories

proof fn lemma_pstarts_first(m: Seq<u8>, p: Seq<u8>)
    requires
        pstarts(m, p),
        p.len() > 0,
    ensures
        m.len() > 0 && m[0] == p[0],
{
    assert(m.subrange(0, p.len() as int)[0] == m[0]);
}

/// The category of a provider method: `access` is a driver access;
/// `Execute...` executes; `Read...` fetches; `get...` reads a value;
/// `set...` and `Add` bind; `Close` and `Dispose` close; an empty method is
/// unparsed; any other text with a space and no `'('` is a message; the rest
/// is `other`.
pub proof fn lemma_provider_method_categories(m: Seq<u8>)
    ensures
        m == lit("access") ==> pkind_of(m) == PKind::DriverAccess,
        pstarts(m, lit("Execute")) ==> pkind_of(m) == PKind::Execute,
        pstarts(m, lit("Read")) ==> pkind_of(m) == PKind::Fetch,
        pstarts(m, lit("get")) ==> pkind_of(m) == PKind::ReadValue,
        pstarts(m, lit("set")) || m == lit("Add") ==> pkind_of(m) == PKind::Bind,
        m == lit("Close") || m == lit("Dispose") ==> pkind_of(m) == PKind::Close,
        m.len() == 0 ==> pkind_of(m) == PKind::Unparsed,
        ({
            let named = m == lit("access") || pstarts(m, lit("Execute")) || pstarts(m, lit("Read"))
                || pstarts(m, lit("get")) || pstarts(m, lit("set")) || m == lit("Add") || m == lit(
                "Close",
            ) || m == lit("Dispose");
            !named && m.len() > 0 ==> pkind_of(m) == (if !contains_byte(m, 40) && contains_byte(
                m,
                32,
            ) {
                PKind::Message
            } else {
                PKind::Other
            })
        }),
{
    reveal_strlit("access");
    reveal_strlit("Execute");
    reveal_strlit("Read");
    reveal_strlit("get");
    reveal_strlit("set");
    reveal_strlit("Add");
    reveal_strlit("Close");
    reveal_strlit("Dispose");
    if pstarts(m, lit("Execute")) {
        lemma_pstarts_first(m, lit("Execute"));
    }
    if pstarts(m, lit("Read")) {
        lemma_pstarts_first(m, lit("Read"));
    }
    if pstarts(m, lit("get")) {
        lemma_pstarts_first(m, lit("get"));
    }
    if pstarts(m, lit("set")) {
        lemma_pstarts_first(m, lit("set"));
    }
}

/// In a parsed provider record, a command number comes only from an
/// `access` method whose arguments start with `Cmd:`; the category is the
/// one its method gives.
#[verifier::rlimit(80)]
#[verifier::spinoff_prover]
pub proof fn lemma_provider_cmd(b: Seq<u8>)
    requires
        provider_spec(b) is Ok,
    ensures
        ({
            let r = provider_spec(b)->Ok_0;
            &&& r.cmd is Some ==> r.method == lit("access") && pstarts(r.arg_types, lit("Cmd:"))
            &&& r.category == pkind_name(pkind_of(r.method))
        }),
{
}

} // verus!
