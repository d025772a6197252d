//! How the physical lines of a log file are grouped into records.
//!
//! A file reader hands each line to an [`Assembler`] together with whether
//! the format sees a record header in it; the assembler answers with the
//! records that the line completes. [`frame_spec`] states the whole grouping
//! of a sequence of lines at once.

use vstd::prelude::*;
use vstd::string::StringExecFns;

verus! {

broadcast use vstd::string::group_string_axioms;

/// Where one record of a file ends.
#[derive(Copy, Clone, Debug, PartialEq, Eq)]
pub enum RecordFraming {
    /// Every physical line is a record.
    Line,
    /// A record runs from a header line up to the next header line.
    HeaderDelimited,
}

/// A physical line: its number, its text, and whether it starts a record.
pub type LineView = (u64, Seq<char>, bool);

/// A record: the number of its first line, and its text.
pub type RecordView = (u64, Seq<char>);

pub open spec fn nl() -> Seq<char> {
    seq!['\n']
}

/// What one line does: the record it completes, if any, and the record left
/// open after it.
pub open spec fn step(f: RecordFraming, open: Option<RecordView>, l: LineView) -> (
    Option<RecordView>,
    Option<RecordView>,
) {
    let started = if l.1.len() == 0 {
        None
    } else {
        Some((l.0, l.1))
    };
    match f {
        RecordFraming::Line => (started, None),
        RecordFraming::HeaderDelimited => match open {
            None => (None, started),
            Some((s, t)) => if l.2 {
                (Some((s, t)), started)
            } else {
                (None, Some((s, t + nl() + l.1)))
            },
        },
    }
}

pub open spec fn opt_seq(o: Option<RecordView>) -> Seq<RecordView> {
    match o {
        Some(r) => seq![r],
        None => Seq::empty(),
    }
}

/// The records completed by `lines`, starting with `open` open, and the
/// record left open at the end.
pub open spec fn run(f: RecordFraming, open: Option<RecordView>, lines: Seq<LineView>) -> (
    Seq<RecordView>,
    Option<RecordView>,
)
    decreases lines.len(),
{
    if lines.len() == 0 {
        (Seq::empty(), open)
    } else {
        let (done, next) = step(f, open, lines[0]);
        let (rest, last) = run(f, next, lines.drop_first());
        (opt_seq(done) + rest, last)
    }
}

/// All records of a file whose lines are `lines`.
pub open spec fn frame_spec(f: RecordFraming, lines: Seq<LineView>) -> Seq<RecordView> {
    let (done, last) = run(f, None, lines);
    done + opt_seq(last)
}

/// The end of a line's content in `b[..e]`: before the CR and LF bytes that
/// end it.
pub open spec fn content_end(b: Seq<u8>, e: int) -> int
    decreases e,
{
    if e > 0 && (b[e - 1] == 10 || b[e - 1] == 13) {
        content_end(b, e - 1)
    } else {
        e
    }
}

/// Where the content of a line read with its terminator ends: trailing
/// `'\n'` and `'\r'` bytes are not part of it.
pub fn line_content_end(b: &[u8]) -> (r: usize)
    ensures
        r == content_end(b@, b@.len() as int),
        r <= b@.len(),
{
    let mut e = b.len();
    while e > 0 && (b[e - 1] == 10 || b[e - 1] == 13)
        invariant
            e <= b@.len(),
            content_end(b@, e as int) == content_end(b@, b@.len() as int),
        decreases e,
    {
        e -= 1;
    }
    e
}

/// Groups lines into records, one line at a time.
pub struct Assembler {
    framing: RecordFraming,
    open: Option<(u64, String)>,
}

pub open spec fn record_view(o: Option<(u64, String)>) -> Option<RecordView> {
    match o {
        Some((n, t)) => Some((n, t@)),
        None => None,
    }
}

impl Assembler {
    pub closed spec fn framing(&self) -> RecordFraming {
        self.framing
    }

    /// The record still open.
    pub closed spec fn open(&self) -> Option<RecordView> {
        record_view(self.open)
    }

    /// An assembler with no record open.
    pub fn new(framing: RecordFraming) -> (r: Self)
        ensures
            r.framing() == framing,
            r.open() is None,
    {
        Assembler { framing, open: None }
    }

    /// Takes the next line; returns the record it completes, if any.
    pub fn push(&mut self, line_number: u64, line: String, is_start: bool) -> (r: Option<
        (u64, String),
    >)
        ensures
            final(self).framing() == old(self).framing(),
            (record_view(r), final(self).open()) == step(
                old(self).framing(),
                old(self).open(),
                (line_number, line@, is_start),
            ),
    {
        proof {
            reveal_strlit("\n");
        }
        let empty = line.as_str().is_empty();
        match self.framing {
            RecordFraming::Line => {
                self.open = None;
                if empty {
                    None
                } else {
                    Some((line_number, line))
                }
            },
            RecordFraming::HeaderDelimited => {
                let open = self.open.take();
                match open {
                    None => {
                        if !empty {
                            self.open = Some((line_number, line));
                        }
                        None
                    },
                    Some((start, text)) => {
                        if is_start {
                            if !empty {
                                self.open = Some((line_number, line));
                            }
                            Some((start, text))
                        } else {
                            let mut text = text;
                            text.append("\n");
                            text.append(line.as_str());
                            self.open = Some((start, text));
                            None
                        }
                    },
                }
            },
        }
    }

    /// Ends the input; returns the record still open, if any.
    pub fn finish(&mut self) -> (r: Option<(u64, String)>)
        ensures
            final(self).framing() == old(self).framing(),
            record_view(r) == old(self).open(),
            final(self).open() is None,
    {
        self.open.take()
    }
}

/// Groups a whole sequence of lines; see [`frame_spec`].
pub fn frame_lines(framing: RecordFraming, lines: &Vec<(u64, String, bool)>) -> (r: Vec<(u64, String)>)
    ensures
        r@.map_values(|x: (u64, String)| (x.0, x.1@)) == frame_spec(
            framing,
            lines@.map_values(|x: (u64, String, bool)| (x.0, x.1@, x.2)),
        ),
{
    let ghost all = lines@.map_values(|x: (u64, String, bool)| (x.0, x.1@, x.2));
    let mut out: Vec<(u64, String)> = Vec::new();
    let mut assembler = Assembler::new(framing);
    let mut i: usize = 0;
    proof {
        assert(all.subrange(0, all.len() as int) =~= all);
        let (d0, l0) = run(framing, None, all);
        assert(out@.map_values(|x: (u64, String)| (x.0, x.1@)) + d0 + opt_seq(l0) =~= d0 + opt_seq(
            l0,
        ));
    }
    while i < lines.len()
        invariant
            assembler.framing() == framing,
            all == lines@.map_values(|x: (u64, String, bool)| (x.0, x.1@, x.2)),
            i <= lines@.len(),
            ({
                let (done, last) = run(framing, assembler.open(), all.subrange(i as int, all.len() as int));
                frame_spec(framing, all) == out@.map_values(|x: (u64, String)| (x.0, x.1@)) + done
                    + opt_seq(last)
            }),
        decreases lines@.len() - i,
    {
        let ghost before = out@.map_values(|x: (u64, String)| (x.0, x.1@));
        let number = lines[i].0;
        let text = lines[i].1.clone();
        let start = lines[i].2;
        assert((number, text@, start) == all[i as int]);
        let done = assembler.push(number, text, start);
        let ghost rest = all.subrange(i + 1, all.len() as int);
        assert(all.subrange(i as int, all.len() as int).drop_first() =~= rest);
        match done {
            Some(rec) => {
                out.push(rec);
            },
            None => {},
        }
        proof {
            let after = out@.map_values(|x: (u64, String)| (x.0, x.1@));
            assert(after =~= before + opt_seq(record_view(done)));
            let (d2, l2) = run(framing, assembler.open(), rest);
            assert(before + (opt_seq(record_view(done)) + d2) + opt_seq(l2) =~= after + d2 + opt_seq(
                l2,
            ));
        }
        i += 1;
    }
    let last = assembler.finish();
    let ghost before = out@.map_values(|x: (u64, String)| (x.0, x.1@));
    match last {
        Some(rec) => {
            out.push(rec);
        },
        None => {},
    }
    proof {
        assert(all.subrange(all.len() as int, all.len() as int) =~= Seq::<LineView>::empty());
        assert(out@.map_values(|x: (u64, String)| (x.0, x.1@)) =~= before + opt_seq(record_view(last)));
    }
    out
}


/// The records of the non-empty lines among `lines`, one per line, in order.
pub open spec fn nonempty_lines(lines: Seq<LineView>) -> Seq<RecordView>
    decreases lines.len(),
{
    if lines.len() == 0 {
        Seq::empty()
    } else {
        let l = lines[0];
        let here: Seq<RecordView> = if l.1.len() == 0 {
            Seq::empty()
        } else {
            seq![(l.0, l.1)]
        };
        here + nonempty_lines(lines.drop_first())
    }
}

proof fn lemma_run_line(open: Option<RecordView>, lines: Seq<LineView>)
    requires
        lines.len() > 0,
    ensures
        run(RecordFraming::Line, open, lines) == (nonempty_lines(lines), None::<RecordView>),
    decreases lines.len(),
{
    let rest = lines.drop_first();
    let (d, next) = step(RecordFraming::Line, open, lines[0]);
    assert(next is None);
    if rest.len() > 0 {
        lemma_run_line(None, rest);
    } else {
        assert(nonempty_lines(rest) =~= Seq::<RecordView>::empty());
    }
    let (rd, rl) = run(RecordFraming::Line, next, rest);
    assert(rd == nonempty_lines(rest));
    assert(rl is None);
    assert(opt_seq(d) + nonempty_lines(rest) =~= nonempty_lines(lines));
    assert(run(RecordFraming::Line, open, lines).0 =~= nonempty_lines(lines));
}

/// With one record per line, the records are the non-empty lines, in order,
/// each under its own physical line number: empty lines are skipped and no
/// other line is lost.
pub proof fn lemma_line_framing_keeps_nonempty_lines(lines: Seq<LineView>)
    ensures
        frame_spec(RecordFraming::Line, lines) == nonempty_lines(lines),
{
    if lines.len() == 0 {
        assert(frame_spec(RecordFraming::Line, lines) =~= nonempty_lines(lines));
    } else {
        lemma_run_line(None, lines);
        assert(frame_spec(RecordFraming::Line, lines) =~= nonempty_lines(lines));
    }
}

/// Texts joined by line breaks, each preceded by one.
pub open spec fn each_after_nl(ts: Seq<Seq<char>>) -> Seq<char>
    decreases ts.len(),
{
    if ts.len() == 0 {
        Seq::empty()
    } else {
        nl() + ts[0] + each_after_nl(ts.drop_first())
    }
}

/// Texts joined by line breaks.
pub open spec fn joined(ts: Seq<Seq<char>>) -> Seq<char> {
    if ts.len() == 0 {
        Seq::empty()
    } else {
        ts[0] + each_after_nl(ts.drop_first())
    }
}

pub open spec fn line_texts(lines: Seq<LineView>) -> Seq<Seq<char>> {
    lines.map_values(|l: LineView| l.1)
}

pub open spec fn record_texts(rs: Seq<RecordView>) -> Seq<Seq<char>> {
    rs.map_values(|r: RecordView| r.1)
}

pub open spec fn record_numbers(rs: Seq<RecordView>) -> Seq<u64> {
    rs.map_values(|r: RecordView| r.0)
}

/// `lines` without the empty lines that come before the first non-empty one.
pub open spec fn skip_leading_empty(lines: Seq<LineView>) -> Seq<LineView>
    decreases lines.len(),
{
    if lines.len() == 0 {
        lines
    } else if lines[0].1.len() == 0 {
        skip_leading_empty(lines.drop_first())
    } else {
        lines
    }
}

/// The numbers of the header lines among `lines`.
pub open spec fn header_numbers(lines: Seq<LineView>) -> Seq<u64>
    decreases lines.len(),
{
    if lines.len() == 0 {
        Seq::empty()
    } else {
        let here: Seq<u64> = if lines[0].2 {
            seq![lines[0].0]
        } else {
            Seq::empty()
        };
        here + header_numbers(lines.drop_first())
    }
}

/// Where each record begins: at the first non-empty line, then at every
/// header line after it.
pub open spec fn record_starts(lines: Seq<LineView>) -> Seq<u64> {
    let ls = skip_leading_empty(lines);
    if ls.len() == 0 {
        Seq::empty()
    } else {
        seq![ls[0].0] + header_numbers(ls.drop_first())
    }
}

/// Header lines are never empty.
pub open spec fn headers_nonempty(lines: Seq<LineView>) -> bool {
    forall|i: int| 0 <= i < lines.len() && (#[trigger] lines[i]).2 ==> lines[i].1.len() > 0
}

proof fn lemma_each_after_nl_cons(t: Seq<char>, ts: Seq<Seq<char>>)
    ensures
        each_after_nl(seq![t] + ts) == nl() + t + each_after_nl(ts),
{
    assert((seq![t] + ts).drop_first() =~= ts);
}

proof fn lemma_run_open_texts(s: u64, t: Seq<char>, lines: Seq<LineView>)
    requires
        headers_nonempty(lines),
    ensures
        ({
            let (done, last) = run(RecordFraming::HeaderDelimited, Some((s, t)), lines);
            &&& last is Some
            &&& joined(record_texts(done + opt_seq(last))) == t + each_after_nl(line_texts(lines))
            &&& record_numbers(done + opt_seq(last)) == seq![s] + header_numbers(lines)
        }),
    decreases lines.len(),
{
    let f = RecordFraming::HeaderDelimited;
    if lines.len() == 0 {
        let (done, last) = run(f, Some((s, t)), lines);
        assert(record_texts(done + opt_seq(last)) =~= seq![t]);
        assert(line_texts(lines) =~= Seq::<Seq<char>>::empty());
        assert(t + each_after_nl(line_texts(lines)) =~= t);
        assert(record_numbers(done + opt_seq(last)) =~= seq![s]);
        assert(seq![s] + header_numbers(lines) =~= seq![s]);
    } else {
        let l = lines[0];
        let rest = lines.drop_first();
        assert forall|i: int| 0 <= i < rest.len() && (#[trigger] rest[i]).2 implies rest[i].1.len()
            > 0 by {
            assert(rest[i] == lines[i + 1]);
        }
        assert(line_texts(lines) =~= seq![l.1] + line_texts(rest));
        lemma_each_after_nl_cons(l.1, line_texts(rest));
        let (done, last) = run(f, Some((s, t)), lines);
        if l.2 {
            assert(lines[0].2);
            lemma_run_open_texts(l.0, l.1, rest);
            let (rd, rl) = run(f, Some((l.0, l.1)), rest);
            assert(done + opt_seq(last) =~= seq![(s, t)] + (rd + opt_seq(rl)));
            let xs = record_texts(rd + opt_seq(rl));
            assert(record_texts(done + opt_seq(last)) =~= seq![t] + xs);
            assert(xs.len() > 0);
            assert(xs =~= seq![xs[0]] + xs.drop_first());
            lemma_each_after_nl_cons(xs[0], xs.drop_first());
            assert((seq![t] + xs).drop_first() =~= xs);
            assert(joined(record_texts(done + opt_seq(last))) =~= t + (nl() + joined(xs)));
            assert(t + (nl() + (l.1 + each_after_nl(line_texts(rest)))) =~= t + (nl() + l.1
                + each_after_nl(line_texts(rest))));
            assert(record_numbers(done + opt_seq(last)) =~= seq![s] + record_numbers(
                rd + opt_seq(rl),
            ));
            assert(header_numbers(lines) =~= seq![l.0] + header_numbers(rest));
            assert(seq![s] + (seq![l.0] + header_numbers(rest)) =~= seq![s] + header_numbers(
                lines,
            ));
        } else {
            lemma_run_open_texts(s, t + nl() + l.1, rest);
            assert(header_numbers(lines) =~= header_numbers(rest));
            assert(t + nl() + l.1 + each_after_nl(line_texts(rest)) =~= t + (nl() + l.1
                + each_after_nl(line_texts(rest))));
        }
    }
}

proof fn lemma_run_closed_texts(lines: Seq<LineView>)
    requires
        headers_nonempty(lines),
    ensures
        ({
            let recs = frame_spec(RecordFraming::HeaderDelimited, lines);
            let ls = skip_leading_empty(lines);
            &&& joined(record_texts(recs)) == joined(line_texts(ls))
            &&& record_numbers(recs) == record_starts(lines)
        }),
    decreases lines.len(),
{
    let f = RecordFraming::HeaderDelimited;
    if lines.len() == 0 {
        assert(frame_spec(f, lines) =~= Seq::<RecordView>::empty());
        assert(record_texts(frame_spec(f, lines)) =~= Seq::<Seq<char>>::empty());
        assert(line_texts(lines) =~= Seq::<Seq<char>>::empty());
        assert(record_numbers(frame_spec(f, lines)) =~= Seq::<u64>::empty());
    } else {
        let l = lines[0];
        let rest = lines.drop_first();
        assert forall|i: int| 0 <= i < rest.len() && (#[trigger] rest[i]).2 implies rest[i].1.len()
            > 0 by {
            assert(rest[i] == lines[i + 1]);
        }
        if l.1.len() == 0 {
            lemma_run_closed_texts(rest);
            assert(frame_spec(f, lines) == frame_spec(f, rest));
        } else {
            lemma_run_open_texts(l.0, l.1, rest);
            let (d, last) = run(f, Some((l.0, l.1)), rest);
            assert(frame_spec(f, lines) == d + opt_seq(last));
            assert(skip_leading_empty(lines) == lines);
            assert(line_texts(lines).drop_first() =~= line_texts(rest));
            assert(lines.drop_first() =~= rest);
        }
    }
}

/// With records delimited by header lines, no text is lost or reordered:
/// joined by line breaks, the records give back the lines from the first
/// non-empty one on. Each record begins at the first non-empty line or at a
/// header line, under that line's number, and every header line after the
/// first non-empty line begins a record.
pub proof fn lemma_header_framing_preserves_lines(lines: Seq<LineView>)
    requires
        headers_nonempty(lines),
    ensures
        joined(record_texts(frame_spec(RecordFraming::HeaderDelimited, lines))) == joined(
            line_texts(skip_leading_empty(lines)),
        ),
        record_numbers(frame_spec(RecordFraming::HeaderDelimited, lines)) == record_starts(lines),
{
    lemma_run_closed_texts(lines);
}

/// The index of the first header line of `ls` at or after `i`, or its
/// length when there is none.
pub open spec fn next_header(ls: Seq<LineView>, i: int) -> int
    decreases ls.len() - i,
{
    if i < 0 || i >= ls.len() {
        ls.len() as int
    } else if ls[i].2 {
        i
    } else {
        next_header(ls, i + 1)
    }
}

pub proof fn lemma_next_header_bounds(ls: Seq<LineView>, i: int)
    requires
        0 <= i <= ls.len(),
    ensures
        i <= next_header(ls, i) <= ls.len(),
    decreases ls.len() - i,
{
    if i < ls.len() && !ls[i].2 {
        lemma_next_header_bounds(ls, i + 1);
    }
}

/// The records of `ls` when one begins at line `k`: each runs from its
/// first line up to the line before the next header line, its lines joined
/// by line breaks, under the number of its first line.
pub open spec fn segments_from(ls: Seq<LineView>, k: int) -> Seq<RecordView>
    decreases ls.len() - k,
{
    if k < 0 || k >= ls.len() {
        Seq::empty()
    } else {
        let e = next_header(ls, k + 1);
        proof {
            lemma_next_header_bounds(ls, k + 1);
        }
        seq![(ls[k].0, joined(line_texts(ls.subrange(k, e))))] + segments_from(ls, e)
    }
}

proof fn lemma_next_header_shift(ls: Seq<LineView>, i: int)
    requires
        1 <= i <= ls.len(),
    ensures
        next_header(ls, i) == 1 + next_header(ls.drop_first(), i - 1),
    decreases ls.len() - i,
{
    if i < ls.len() {
        assert(ls.drop_first()[i - 1] == ls[i]);
        if !ls[i].2 {
            lemma_next_header_shift(ls, i + 1);
        }
    }
}

proof fn lemma_segments_shift(ls: Seq<LineView>, k: int)
    requires
        1 <= k <= ls.len(),
    ensures
        segments_from(ls, k) == segments_from(ls.drop_first(), k - 1),
    decreases ls.len() - k,
{
    let rs = ls.drop_first();
    if k < ls.len() {
        lemma_next_header_bounds(ls, k + 1);
        lemma_next_header_shift(ls, k + 1);
        let e = next_header(ls, k + 1);
        assert(ls.subrange(k, e) =~= rs.subrange(k - 1, e - 1));
        assert(rs[k - 1] == ls[k]);
        lemma_segments_shift(ls, e);
    }
}

proof fn lemma_segments_head(ls: Seq<LineView>)
    requires
        ls.len() > 0,
    ensures
        ({
            let rs = ls.drop_first();
            let er = next_header(rs, 0);
            segments_from(ls, 0) == seq![
                (ls[0].0, ls[0].1 + each_after_nl(line_texts(rs.subrange(0, er)))),
            ] + segments_from(rs, er)
        }),
{
    let rs = ls.drop_first();
    lemma_next_header_bounds(ls, 1);
    lemma_next_header_shift(ls, 1);
    lemma_next_header_bounds(rs, 0);
    let e = next_header(ls, 1);
    let er = next_header(rs, 0);
    assert(line_texts(ls.subrange(0, e)) =~= seq![ls[0].1] + line_texts(rs.subrange(0, er)));
    assert(line_texts(ls.subrange(0, e)).drop_first() =~= line_texts(rs.subrange(0, er)));
    lemma_segments_shift(ls, e);
}

proof fn lemma_run_open_segments(s: u64, t: Seq<char>, ls: Seq<LineView>)
    requires
        headers_nonempty(ls),
    ensures
        ({
            let (done, last) = run(RecordFraming::HeaderDelimited, Some((s, t)), ls);
            let e = next_header(ls, 0);
            done + opt_seq(last) == seq![
                (s, t + each_after_nl(line_texts(ls.subrange(0, e)))),
            ] + segments_from(ls, e)
        }),
    decreases ls.len(),
{
    let f = RecordFraming::HeaderDelimited;
    let (done, last) = run(f, Some((s, t)), ls);
    if ls.len() == 0 {
        assert(line_texts(ls.subrange(0, 0)) =~= Seq::<Seq<char>>::empty());
        assert(t + each_after_nl(Seq::<Seq<char>>::empty()) =~= t);
        assert(done + opt_seq(last) =~= seq![(s, t)] + Seq::<RecordView>::empty());
    } else {
        let l = ls[0];
        let rs = ls.drop_first();
        assert forall|i: int| 0 <= i < rs.len() && (#[trigger] rs[i]).2 implies rs[i].1.len()
            > 0 by {
            assert(rs[i] == ls[i + 1]);
        }
        lemma_next_header_bounds(rs, 0);
        let er = next_header(rs, 0);
        if l.2 {
            assert(ls[0].2);
            assert(next_header(ls, 0) == 0);
            lemma_run_open_segments(l.0, l.1, rs);
            let (rd, rl) = run(f, Some((l.0, l.1)), rs);
            assert(done + opt_seq(last) =~= seq![(s, t)] + (rd + opt_seq(rl)));
            lemma_segments_head(ls);
            assert(line_texts(ls.subrange(0, 0)) =~= Seq::<Seq<char>>::empty());
            assert(t + each_after_nl(line_texts(ls.subrange(0, 0))) =~= t);
        } else {
            lemma_next_header_shift(ls, 1);
            assert(next_header(ls, 0) == next_header(ls, 1));
            let e = 1 + er;
            lemma_run_open_segments(s, t + nl() + l.1, rs);
            assert(line_texts(ls.subrange(0, e)) =~= seq![l.1] + line_texts(rs.subrange(0, er)));
            lemma_each_after_nl_cons(l.1, line_texts(rs.subrange(0, er)));
            assert(t + nl() + l.1 + each_after_nl(line_texts(rs.subrange(0, er))) =~= t
                + each_after_nl(line_texts(ls.subrange(0, e))));
            lemma_segments_shift(ls, e);
        }
    }
}

/// With records delimited by header lines, the records are exactly the
/// spans between header lines: the first begins at the first non-empty
/// line, and each runs up to the line before the next header line, its
/// lines joined by line breaks, under the number of its first line.
pub proof fn lemma_header_framing_spans(lines: Seq<LineView>)
    requires
        headers_nonempty(lines),
    ensures
        frame_spec(RecordFraming::HeaderDelimited, lines) == segments_from(
            skip_leading_empty(lines),
            0,
        ),
    decreases lines.len(),
{
    let f = RecordFraming::HeaderDelimited;
    if lines.len() == 0 {
        assert(frame_spec(f, lines) =~= Seq::<RecordView>::empty());
    } else {
        let l = lines[0];
        let rs = lines.drop_first();
        assert forall|i: int| 0 <= i < rs.len() && (#[trigger] rs[i]).2 implies rs[i].1.len()
            > 0 by {
            assert(rs[i] == lines[i + 1]);
        }
        if l.1.len() == 0 {
            lemma_header_framing_spans(rs);
            assert(frame_spec(f, lines) == frame_spec(f, rs));
        } else {
            lemma_run_open_segments(l.0, l.1, rs);
            let (d, last) = run(f, Some((l.0, l.1)), rs);
            assert(frame_spec(f, lines) == d + opt_seq(last));
            assert(skip_leading_empty(lines) == lines);
            lemma_segments_head(lines);
        }
    }
}

} // verus!
