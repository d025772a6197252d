//! One entry point for both built-in formats: the format of a line is
//! recognised from its header.

use vstd::prelude::*;
use vstd::utf8::encode_utf8;
use crate::encoding::{decode, decode_spec, FileEncodingHint};
use crate::error::ParseError;
use crate::formats::dm_provider::{
    self as provider, provider_spec, DmProviderEvent, ProviderRecord, TimeUnit, UsedTime,
};
use crate::formats::jdbc::{self, is_fail_in, lit, parse_spec, DriverLogEvent, Fail, JdbcRecord};
use crate::framing::RecordFraming;
use crate::text::{bytes_of, find, find_in, lemma_find_in_least, lit_bytes, match_at, str_eq, trim_ws, utrim};

verus! {

broadcast use vstd::string::group_string_axioms;

/// The built-in log formats.
#[derive(Copy, Clone, Debug, PartialEq, Eq)]
pub enum LogFormatKind {
    Jdbc,
    DmProvider,
}

/// An event of either built-in format.
#[derive(Debug, Clone, PartialEq)]
pub enum LogEvent {
    Jdbc(DriverLogEvent),
    DmProvider(DmProviderEvent),
}

impl LogEvent {
    /// The format the event was read in.
    pub fn format(&self) -> (r: LogFormatKind)
        ensures
            r == match self {
                LogEvent::Jdbc(_) => LogFormatKind::Jdbc,
                LogEvent::DmProvider(_) => LogFormatKind::DmProvider,
            },
    {
        match self {
            LogEvent::Jdbc(_) => LogFormatKind::Jdbc,
            LogEvent::DmProvider(_) => LogFormatKind::DmProvider,
        }
    }

    /// The driver or provider method name.
    pub fn method(&self) -> (r: &str)
        ensures
            r@ == match self {
                LogEvent::Jdbc(e) => e.method@,
                LogEvent::DmProvider(e) => e.method@,
            },
    {
        match self {
            LogEvent::Jdbc(e) => e.method.as_str(),
            LogEvent::DmProvider(e) => e.method.as_str(),
        }
    }

    /// The event category.
    pub fn category(&self) -> (r: &str)
        ensures
            r@ == match self {
                LogEvent::Jdbc(e) => e.category@,
                LogEvent::DmProvider(e) => e.category@,
            },
    {
        match self {
            LogEvent::Jdbc(e) => e.category,
            LogEvent::DmProvider(e) => e.category,
        }
    }

    /// The duration the driver reported, as its number and unit; JDBC logs
    /// report milliseconds.
    pub fn used_time(&self) -> (r: Option<UsedTime>)
        ensures
            match self {
                LogEvent::Jdbc(e) => match e.used_time_text {
                    Some(t) => r matches Some(u) && u.number@ == t@ && u.unit == TimeUnit::Millis,
                    None => r is None,
                },
                LogEvent::DmProvider(e) => match e.used_time {
                    Some(t) => r matches Some(u) && u.number@ == t.number@ && u.unit == t.unit,
                    None => r is None,
                },
            },
    {
        match self {
            LogEvent::Jdbc(e) => match &e.used_time_text {
                Some(t) => Some(UsedTime { number: t.clone(), unit: TimeUnit::Millis }),
                None => None,
            },
            LogEvent::DmProvider(e) => match &e.used_time {
                Some(t) => Some(UsedTime { number: t.number.clone(), unit: t.unit }),
                None => None,
            },
        }
    }

    /// The execution id.
    pub fn exec_id(&self) -> (r: Option<i64>)
        ensures
            r == match self {
                LogEvent::Jdbc(e) => e.exec_id,
                LogEvent::DmProvider(e) => e.exec_id,
            },
    {
        match self {
            LogEvent::Jdbc(e) => e.exec_id,
            LogEvent::DmProvider(e) => e.exec_id,
        }
    }

    /// The physical line the record starts at; 0 for standalone parses.
    pub fn line_number(&self) -> (r: u64)
        ensures
            r == match self {
                LogEvent::Jdbc(e) => e.line_number,
                LogEvent::DmProvider(e) => e.line_number,
            },
    {
        match self {
            LogEvent::Jdbc(e) => e.line_number,
            LogEvent::DmProvider(e) => e.line_number,
        }
    }

    /// The record text.
    pub fn raw(&self) -> (r: &str)
        ensures
            r@ == match self {
                LogEvent::Jdbc(e) => e.raw@,
                LogEvent::DmProvider(e) => e.raw@,
            },
    {
        match self {
            LogEvent::Jdbc(e) => e.raw.as_str(),
            LogEvent::DmProvider(e) => e.raw.as_str(),
        }
    }

    /// The JDBC fields, for a JDBC event.
    pub fn as_jdbc(&self) -> (r: Option<&DriverLogEvent>)
        ensures
            match self {
                LogEvent::Jdbc(e) => r == Some(e),
                LogEvent::DmProvider(_) => r is None,
            },
    {
        match self {
            LogEvent::Jdbc(e) => Some(e),
            LogEvent::DmProvider(_) => None,
        }
    }

    /// The provider fields, for a DM Provider event.
    pub fn as_dm_provider(&self) -> (r: Option<&DmProviderEvent>)
        ensures
            match self {
                LogEvent::Jdbc(_) => r is None,
                LogEvent::DmProvider(e) => r == Some(e),
            },
    {
        match self {
            LogEvent::Jdbc(_) => None,
            LogEvent::DmProvider(e) => Some(e),
        }
    }
}

/// The format a line's header shows: after the first `']'`, `" - ["` marks
/// JDBC and otherwise `" ("` marks DM Provider.
pub open spec fn detect_spec(b: Seq<u8>) -> Option<LogFormatKind> {
    match find_in(b, lit("]"), 0, b.len() as int) {
        None => None,
        Some(he) => if find_in(b, lit(" - ["), he + 1, b.len() as int) is Some {
            Some(LogFormatKind::Jdbc)
        } else if find_in(b, lit(" ("), he + 1, b.len() as int) is Some {
            Some(LogFormatKind::DmProvider)
        } else {
            None
        },
    }
}

/// The format used for a line: the detected one, JDBC when none is.
pub open spec fn format_for(b: Seq<u8>) -> LogFormatKind {
    match detect_spec(b) {
        Some(k) => k,
        None => LogFormatKind::Jdbc,
    }
}

/// Recognises the format of a line from its header.
pub fn detect_line_format(line: &str) -> (r: Option<LogFormatKind>)
    ensures
        r == detect_spec(bytes_of(line)),
{
    proof {
        reveal_strlit("]");
        reveal_strlit(" - [");
        reveal_strlit(" (");
    }
    let b = line.as_bytes();
    let n = b.len();
    let close = lit_bytes("]");
    proof {
        jdbc::lemma_find_in_bounds(b@, close@, 0, n as int);
    }
    match find(b, close, 0, n) {
        None => None,
        Some(he) => if find(b, lit_bytes(" - ["), he + 1, n).is_some() {
            Some(LogFormatKind::Jdbc)
        } else if find(b, lit_bytes(" ("), he + 1, n).is_some() {
            Some(LogFormatKind::DmProvider)
        } else {
            None
        },
    }
}

/// The format a line shows is decided after its first `']'`: JDBC wherever
/// `" - ["` follows, whatever else does; otherwise DM Provider wherever
/// `" ("` follows; otherwise none. A line without `']'` shows none.
pub proof fn lemma_detect_after_first_bracket(b: Seq<u8>, he: int)
    ensures
        (forall|j: int| 0 <= j ==> !#[trigger] match_at(b, lit("]"), j, b.len() as int))
            ==> detect_spec(b) is None,
        match_at(b, lit("]"), he, b.len() as int) && (forall|j: int|
            0 <= j < he ==> !#[trigger] match_at(b, lit("]"), j, b.len() as int)) ==> {
            &&& (exists|i: int| he < i && #[trigger] match_at(b, lit(" - ["), i, b.len() as int))
                ==> detect_spec(b) == Some(LogFormatKind::Jdbc)
            &&& (!(exists|i: int| he < i && #[trigger] match_at(b, lit(" - ["), i, b.len() as int))
                && (exists|i: int| he < i && #[trigger] match_at(b, lit(" ("), i, b.len() as int)))
                ==> detect_spec(b) == Some(LogFormatKind::DmProvider)
            &&& (!(exists|i: int| he < i && #[trigger] match_at(b, lit(" - ["), i, b.len() as int))
                && !(exists|i: int| he < i && #[trigger] match_at(b, lit(" ("), i, b.len() as int)))
                ==> detect_spec(b) is None
        },
{
    reveal_strlit("]");
    reveal_strlit(" - [");
    reveal_strlit(" (");
    let n = b.len() as int;
    lemma_find_in_least(b, lit("]"), 0, n);
    if match_at(b, lit("]"), he, n) && (forall|j: int|
        0 <= j < he ==> !#[trigger] match_at(b, lit("]"), j, n)) {
        assert(he >= 0);
        assert(find_in(b, lit("]"), 0, n) == Some(he)) by {
            if let Some(p) = find_in(b, lit("]"), 0, n) {
                if p < he {
                    assert(!match_at(b, lit("]"), p, n));
                }
                if p > he {
                    assert(!match_at(b, lit("]"), he, n));
                }
            }
        }
        lemma_find_in_least(b, lit(" - ["), he + 1, n);
        lemma_find_in_least(b, lit(" ("), he + 1, n);
        if exists|i: int| he < i && #[trigger] match_at(b, lit(" - ["), i, n) {
            let i = choose|i: int| he < i && #[trigger] match_at(b, lit(" - ["), i, n);
            assert(he + 1 <= i);
        }
        if exists|i: int| he < i && #[trigger] match_at(b, lit(" ("), i, n) {
            let i = choose|i: int| he < i && #[trigger] match_at(b, lit(" ("), i, n);
            assert(he + 1 <= i);
        }
    }
}

/// The format used when a line shows none.
pub fn default_format() -> (r: Option<LogFormatKind>)
    ensures
        r == Some(LogFormatKind::Jdbc),
{
    Some(LogFormatKind::Jdbc)
}

/// `r` is what parsing the text `t` (with bytes `b`) in format `k` gives.
pub open spec fn parsed_as(k: LogFormatKind, b: Seq<u8>, t: Seq<char>, r: Result<LogEvent, ParseError>) -> bool {
    match k {
        LogFormatKind::Jdbc => match r {
            Ok(LogEvent::Jdbc(ev)) => parse_spec(b) == Ok::<JdbcRecord, Fail>(ev.record())
                && ev.raw@ == t && ev.line_number == 0,
            Ok(_) => false,
            Err(e) => parse_spec(b) matches Err(f) && is_fail_in(e, f, t, 0),
        },
        LogFormatKind::DmProvider => match r {
            Ok(LogEvent::DmProvider(ev)) => provider_spec(b) == Ok::<ProviderRecord, Fail>(
                ev.record(),
            ) && ev.raw@ == t && ev.line_number == 0,
            Ok(_) => false,
            Err(e) => provider_spec(b) matches Err(f) && is_fail_in(e, f, t, 0),
        },
    }
}

/// Parses a line in the given format.
pub fn parse_line_with_format(line: &str, format: LogFormatKind) -> (r: Result<LogEvent, ParseError>)
    ensures
        parsed_as(format, bytes_of(line), line@, r),
{
    match format {
        LogFormatKind::Jdbc => match jdbc::parse_line(line) {
            Ok(ev) => Ok(LogEvent::Jdbc(ev)),
            Err(e) => Err(e),
        },
        LogFormatKind::DmProvider => match provider::DmProviderFormat::parse_record(line, 0) {
            Ok(ev) => Ok(LogEvent::DmProvider(ev)),
            Err(e) => Err(e),
        },
    }
}

/// Parses one JDBC or DM Provider record, recognising its format from the
/// header (JDBC when the header shows neither).
pub fn parse_line(line: &str) -> (r: Result<LogEvent, ParseError>)
    ensures
        parsed_as(format_for(bytes_of(line)), bytes_of(line), line@, r),
{
    let format = match detect_line_format(line) {
        Some(k) => k,
        None => match default_format() {
            Some(k) => k,
            None => LogFormatKind::Jdbc,
        },
    };
    parse_line_with_format(line, format)
}

/// Parses one record given as bytes in the given encoding.
pub fn parse_bytes_with_encoding(line: &[u8], encoding: FileEncodingHint) -> (r: Result<
    LogEvent,
    ParseError,
>)
    ensures
        parsed_as(
            format_for(encode_utf8(decode_spec(line@, encoding))),
            encode_utf8(decode_spec(line@, encoding)),
            decode_spec(line@, encoding),
            r,
        ),
{
    let text = decode(line, encoding);
    parse_line(text.as_str())
}

/// Parses one record given as bytes: UTF-8, or GB18030 when it is not
/// valid UTF-8.
pub fn parse_bytes(line: &[u8]) -> (r: Result<LogEvent, ParseError>)
    ensures
        parsed_as(
            format_for(encode_utf8(decode_spec(line@, FileEncodingHint::Auto))),
            encode_utf8(decode_spec(line@, FileEncodingHint::Auto)),
            decode_spec(line@, FileEncodingHint::Auto),
            r,
        ),
{
    parse_bytes_with_encoding(line, FileEncodingHint::Auto)
}

/// `parse_bytes` on the UTF-8 bytes of a text promises exactly what
/// `parse_line` promises on the text: every result one admits, the other
/// admits too.
pub proof fn lemma_parse_bytes_agrees_with_parse_line(t: Seq<char>, r: Result<LogEvent, ParseError>)
    ensures
        parsed_as(
            format_for(encode_utf8(decode_spec(encode_utf8(t), FileEncodingHint::Auto))),
            encode_utf8(decode_spec(encode_utf8(t), FileEncodingHint::Auto)),
            decode_spec(encode_utf8(t), FileEncodingHint::Auto),
            r,
        ) == parsed_as(format_for(encode_utf8(t)), encode_utf8(t), t, r),
{
    crate::encoding::lemma_auto_decodes_utf8_text(t);
}

// ------------------------------------------------------------------ files

/// How records of a format are laid out in a file.
pub open spec fn framing_of(k: LogFormatKind) -> RecordFraming {
    match k {
        LogFormatKind::Jdbc => RecordFraming::Line,
        LogFormatKind::DmProvider => RecordFraming::HeaderDelimited,
    }
}

/// Whether a line starts a record of format `k`.
pub open spec fn record_start_spec(k: LogFormatKind, b: Seq<u8>) -> bool {
    match k {
        LogFormatKind::Jdbc => b.len() > 0 && b[0] == 91,
        LogFormatKind::DmProvider => provider::is_record_start_spec(b),
    }
}

impl LogFormatKind {
    /// JDBC logs hold one record per line; DM Provider records run from one
    /// header line to the next.
    pub fn framing(&self) -> (r: RecordFraming)
        ensures
            r == framing_of(*self),
    {
        match self {
            LogFormatKind::Jdbc => RecordFraming::Line,
            LogFormatKind::DmProvider => RecordFraming::HeaderDelimited,
        }
    }

    /// Whether `line` is a header line of this format; an empty line never is.
    pub fn is_record_start(&self, line: &str) -> (r: bool)
        ensures
            r == record_start_spec(*self, bytes_of(line)),
            r ==> line@.len() > 0,
    {
        let r = match self {
            LogFormatKind::Jdbc => jdbc::JdbcFormat::is_record_start(line),
            LogFormatKind::DmProvider => provider::DmProviderFormat::is_record_start(line),
        };
        proof {
            if r && line@.len() == 0 {
                assert(bytes_of(line) =~= Seq::<u8>::empty());
            }
        }
        r
    }
}

/// `r` is what reading the record `t` (with bytes `b`) that begins at line
/// `line` of a file in format `k` gives: the event keeps the record text and
/// its line number; a failure carries both as its context.
pub open spec fn read_as(
    k: LogFormatKind,
    b: Seq<u8>,
    t: Seq<char>,
    line: u64,
    r: Result<LogEvent, ParseError>,
) -> bool {
    match k {
        LogFormatKind::Jdbc => match r {
            Ok(LogEvent::Jdbc(ev)) => parse_spec(b) == Ok::<JdbcRecord, Fail>(ev.record())
                && ev.raw@ == t && ev.line_number == line,
            Ok(_) => false,
            Err(e) => parse_spec(b) matches Err(f) && is_fail_in(e, f, t, line),
        },
        LogFormatKind::DmProvider => match r {
            Ok(LogEvent::DmProvider(ev)) => provider_spec(b) == Ok::<ProviderRecord, Fail>(
                ev.record(),
            ) && ev.raw@ == t && ev.line_number == line,
            Ok(_) => false,
            Err(e) => provider_spec(b) matches Err(f) && is_fail_in(e, f, t, line),
        },
    }
}

/// Parses a record of a file that begins at `line_number`.
pub fn read_record(format: LogFormatKind, record: &str, line_number: u64) -> (r: Result<
    LogEvent,
    ParseError,
>)
    ensures
        read_as(format, bytes_of(record), record@, line_number, r),
{
    match format {
        LogFormatKind::Jdbc => match jdbc::JdbcFormat::parse_record(record, line_number) {
            Ok(ev) => Ok(LogEvent::Jdbc(ev)),
            Err(e) => Err(e.with_context(record, line_number)),
        },
        LogFormatKind::DmProvider => match provider::DmProviderFormat::parse_record(
            record,
            line_number,
        ) {
            Ok(ev) => Ok(LogEvent::DmProvider(ev)),
            Err(e) => Err(e.with_context(record, line_number)),
        },
    }
}

/// Whether a line holds nothing but whitespace.
pub open spec fn blank_spec(b: Seq<u8>) -> bool {
    utrim(b, 0, b.len() as int).0 == utrim(b, 0, b.len() as int).1
}

/// What a line says of the format of the file it begins: nothing when it is
/// blank (the next line decides); otherwise the format its header shows, or
/// the failure "unknown driver log format" with the line as its context.
pub fn format_of_first_line(line: &str, line_number: u64) -> (r: Option<
    Result<LogFormatKind, ParseError>,
>)
    ensures
        blank_spec(bytes_of(line)) ==> r is None,
        !blank_spec(bytes_of(line)) ==> match detect_spec(bytes_of(line)) {
            Some(k) => r == Some(Ok::<LogFormatKind, ParseError>(k)),
            None => r matches Some(Err(ParseError::InvalidFormat { raw, line_number: n, offset, what }))
                && raw@ == line@ && n == line_number && offset == 0
                && what@ == "unknown driver log format"@,
        },
{
    let b = line.as_bytes();
    let (s, e) = trim_ws(b, 0, b.len());
    if s == e {
        return None;
    }
    match detect_line_format(line) {
        Some(k) => Some(Ok(k)),
        None => Some(Err(ParseError::invalid(0, "unknown driver log format").with_context(line, line_number))),
    }
}

// ------------------------------------------------------------------ filters

/// Whether a stream filter on the method keeps `item`: events of that
/// method, and every failure.
pub fn keep_method(item: &Result<LogEvent, ParseError>, method: &str) -> (r: bool)
    ensures
        r == match item {
            Ok(ev) => event_method(*ev) == method@,
            Err(_) => true,
        },
{
    match item {
        Ok(ev) => str_eq(ev.method(), method),
        Err(_) => true,
    }
}

/// Whether a stream filter on the category keeps `item`.
pub fn keep_category(item: &Result<LogEvent, ParseError>, category: &str) -> (r: bool)
    ensures
        r == match item {
            Ok(ev) => event_category(*ev) == category@,
            Err(_) => true,
        },
{
    match item {
        Ok(ev) => str_eq(ev.category(), category),
        Err(_) => true,
    }
}

/// Whether a stream filter on the execution id keeps `item`.
pub fn keep_exec_id(item: &Result<LogEvent, ParseError>, exec_id: i64) -> (r: bool)
    ensures
        r == match item {
            Ok(ev) => event_exec_id(*ev) == Some(exec_id),
            Err(_) => true,
        },
{
    match item {
        Ok(ev) => match ev.exec_id() {
            Some(id) => id == exec_id,
            None => false,
        },
        Err(_) => true,
    }
}

pub open spec fn event_method(ev: LogEvent) -> Seq<char> {
    match ev {
        LogEvent::Jdbc(e) => e.method@,
        LogEvent::DmProvider(e) => e.method@,
    }
}

pub open spec fn event_category(ev: LogEvent) -> Seq<char> {
    match ev {
        LogEvent::Jdbc(e) => e.category@,
        LogEvent::DmProvider(e) => e.category@,
    }
}

pub open spec fn event_exec_id(ev: LogEvent) -> Option<i64> {
    match ev {
        LogEvent::Jdbc(e) => e.exec_id,
        LogEvent::DmProvider(e) => e.exec_id,
    }
}

} // verus!
