//! Parse failures and where they happened.

use vstd::prelude::*;
use vstd::string::StringExecFns;

verus! {

broadcast use vstd::string::group_string_axioms;

/// Why and where a parse failed.
///
/// `line_number == 0` means the failure came from a standalone parse call,
/// not from a file iterator. The raw text is only kept on the failure path.
#[derive(Debug, Clone, PartialEq, Eq)]
pub enum ParseError {
    /// The text is not a record of the expected format.
    InvalidFormat {
        /// The offending record.
        raw: String,
        /// The physical line the record starts at; 0 for standalone calls.
        line_number: u64,
        /// Byte offset of the failure.
        offset: usize,
        /// What was expected there.
        what: &'static str,
    },
    /// The input could not be read.
    IoError(String),
}

/// The decimal digits of `n`.
pub open spec fn decimal(n: nat) -> Seq<char>
    decreases n,
{
    if n < 10 {
        seq![digit_char(n)]
    } else {
        decimal(n / 10).push(digit_char(n % 10))
    }
}

pub open spec fn digit_char(d: nat) -> char {
    ((d + 48) as u8) as char
}

/// The text of an error, as its `Display` form would print it.
pub open spec fn message_spec(e: ParseError) -> Seq<char> {
    match e {
        ParseError::InvalidFormat { raw, line_number, offset, what } => "invalid format at line "@
            + decimal(line_number as nat) + ", offset "@ + decimal(offset as nat) + ": "@ + what@
            + " | raw: "@ + raw@,
        ParseError::IoError(text) => "IO error: "@ + text@,
    }
}

fn digit_str(d: u64) -> (r: &'static str)
    requires
        d < 10,
    ensures
        r@ == seq![digit_char(d as nat)],
{
    proof {
        reveal_strlit("0");
        reveal_strlit("1");
        reveal_strlit("2");
        reveal_strlit("3");
        reveal_strlit("4");
        reveal_strlit("5");
        reveal_strlit("6");
        reveal_strlit("7");
        reveal_strlit("8");
        reveal_strlit("9");
    }
    let r = match d {
        0 => "0",
        1 => "1",
        2 => "2",
        3 => "3",
        4 => "4",
        5 => "5",
        6 => "6",
        7 => "7",
        8 => "8",
        _ => "9",
    };
    assert(r@ =~= seq![digit_char(d as nat)]);
    r
}

/// Appends the decimal digits of `n` to `out`.
fn push_decimal(out: &mut String, n: u64)
    ensures
        final(out)@ == old(out)@ + decimal(n as nat),
    decreases n,
{
    if n < 10 {
        out.append(digit_str(n));
    } else {
        push_decimal(out, n / 10);
        out.append(digit_str(n % 10));
        assert(old(out)@ + decimal(n as nat) =~= old(out)@ + decimal((n / 10) as nat) + seq![
            digit_char((n % 10) as nat),
        ]);
    }
}

impl ParseError {
    /// A format failure at `offset`, without context yet.
    pub fn invalid(offset: usize, what: &'static str) -> (r: Self)
        ensures
            r matches ParseError::InvalidFormat { raw, line_number, offset: o, what: w } && raw@
                == Seq::<char>::empty() && line_number == 0 && o == offset && w == what,
    {
        ParseError::InvalidFormat { raw: String::new(), line_number: 0, offset, what }
    }

    /// Adds the record text (unless one is already kept) and its line number
    /// to a format failure; I/O failures are returned unchanged.
    pub fn with_context(self, raw: &str, line_number: u64) -> (r: Self)
        ensures
            match self {
                ParseError::InvalidFormat { raw: saved, line_number: _, offset, what } => r matches ParseError::InvalidFormat {
                    raw: r_raw,
                    line_number: r_line,
                    offset: r_offset,
                    what: r_what,
                } && r_raw@ == (if saved@.len() == 0 {
                    raw@
                } else {
                    saved@
                }) && r_line == line_number && r_offset == offset && r_what == what,
                ParseError::IoError(text) => r matches ParseError::IoError(r_text) && r_text@
                    == text@,
            },
    {
        match self {
            ParseError::InvalidFormat { raw: saved, line_number: _, offset, what } => {
                let kept = if saved.as_str().is_empty() {
                    raw.to_owned()
                } else {
                    saved
                };
                ParseError::InvalidFormat { raw: kept, line_number, offset, what }
            },
            ParseError::IoError(text) => ParseError::IoError(text),
        }
    }

    /// The line number of a format failure from a file; `None` for
    /// standalone calls and I/O failures.
    pub fn line_number(&self) -> (r: Option<u64>)
        ensures
            r == match self {
                ParseError::InvalidFormat { line_number, .. } => if *line_number == 0 {
                    None
                } else {
                    Some(*line_number)
                },
                ParseError::IoError(_) => None,
            },
    {
        match self {
            ParseError::InvalidFormat { line_number, .. } => if *line_number == 0 {
                None
            } else {
                Some(*line_number)
            },
            ParseError::IoError(_) => None,
        }
    }

    /// The byte offset of a format failure; `None` for I/O failures.
    pub fn offset(&self) -> (r: Option<usize>)
        ensures
            r == match self {
                ParseError::InvalidFormat { offset, .. } => Some(*offset),
                ParseError::IoError(_) => None,
            },
    {
        match self {
            ParseError::InvalidFormat { offset, .. } => Some(*offset),
            ParseError::IoError(_) => None,
        }
    }

    /// The error as text: `invalid format at line L, offset O: WHAT | raw: RAW`
    /// or `IO error: TEXT`.
    pub fn message(&self) -> (r: String)
        ensures
            r@ == message_spec(*self),
    {
        match self {
            ParseError::InvalidFormat { raw, line_number, offset, what } => {
                let mut out = String::from_str("invalid format at line ");
                push_decimal(&mut out, *line_number);
                out.append(", offset ");
                push_decimal(&mut out, *offset as u64);
                out.append(": ");
                out.append(what);
                out.append(" | raw: ");
                out.append(raw.as_str());
                out
            },
            ParseError::IoError(text) => {
                let mut out = String::from_str("IO error: ");
                out.append(text.as_str());
                out
            },
        }
    }
}

} // verus!
