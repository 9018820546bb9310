use vstd::prelude::*;
use crate::text::{decimal_chars, push_decimal};
use vstd::string::StringSliceAdditionalSpecFns;
use vstd::utf8::{encode_utf8, is_char_boundary};

verus! {

/// A half-open range of byte offsets into the source text.
#[derive(Debug, Clone, Copy, PartialEq, Eq)]
pub struct Span {
    pub start: usize,
    pub end: usize,
}

impl Span {
    pub fn new(start: usize, end: usize) -> (s: Self)
        ensures
            s.start == start,
            s.end == end,
    {
        Self { start, end }
    }

    /// The one-byte span at `pos` (empty only when `pos` is the largest offset).
    pub fn point(pos: usize) -> (s: Self)
        ensures
            s.start == pos,
            s.end == if pos < usize::MAX { pos + 1 } else { pos as int },
    {
        Self { start: pos, end: if pos < usize::MAX { pos + 1 } else { pos } }
    }

    /// The smallest span covering both spans.
    pub open spec fn join_spec(self, other: Self) -> Self {
        Span {
            start: if self.start <= other.start { self.start } else { other.start },
            end: if self.end >= other.end { self.end } else { other.end },
        }
    }

    /// The smallest span covering both spans.
    pub fn join(self, other: Self) -> (s: Self)
        ensures
            s == self.join_spec(other),
    {
        Self {
            start: if self.start <= other.start { self.start } else { other.start },
            end: if self.end >= other.end { self.end } else { other.end },
        }
    }
}

/// A compiler error: a message and, when known, the source span it points at.
#[derive(Debug, Clone, PartialEq, Eq)]
pub struct Diagnostic {
    pub message: String,
    pub span: Option<Span>,
}

/// Number of characters that start in a UTF-8 byte range (bytes that are not continuation bytes).
pub open spec fn count_char_starts(b: Seq<u8>) -> nat
    decreases b.len(),
{
    if b.len() == 0 {
        0
    } else {
        count_char_starts(b.drop_last()) + if 0x80 <= b.last() < 0xC0 { 0nat } else { 1nat }
    }
}

/// Where the line holding offset `p` starts: just after the last newline before `p`.
pub open spec fn line_start_of(b: Seq<u8>, p: int) -> int
    decreases p,
{
    if p <= 0 {
        0
    } else if b[p - 1] == 10 {
        p
    } else {
        line_start_of(b, p - 1)
    }
}

/// The 1-based line of byte offset `pos` (clamped to the text's length).
pub open spec fn line_of(b: Seq<u8>, pos: usize) -> nat {
    1 + count_newlines(b.take(min_usize(pos, b.len() as usize) as int))
}

/// The 1-based column, in characters, of byte offset `pos` (clamped to the text's length).
pub open spec fn column_of(b: Seq<u8>, pos: usize) -> nat {
    let p = min_usize(pos, b.len() as usize) as int;
    1 + count_char_starts(b.subrange(line_start_of(b, p), p))
}

/// The `  --> path:line:column` line that follows the message of a diagnostic at `pos`.
pub open spec fn location_line(path: Seq<char>, b: Seq<u8>, pos: usize) -> Seq<char> {
    "\n  --> "@ + path + seq![':'] + decimal_chars(line_of(b, pos)) + seq![':'] + decimal_chars(
        column_of(b, pos),
    )
}

/// Number of newline bytes in a byte sequence.
pub open spec fn count_newlines(b: Seq<u8>) -> nat
    decreases b.len(),
{
    if b.len() == 0 {
        0
    } else {
        count_newlines(b.drop_last()) + if b.last() == 10 { 1nat } else { 0nat }
    }
}

/// Where a byte offset falls in the source: its line (1-based), column (1-based, in characters)
/// and the byte range of that line without its newline.
/// The end of the line that starts at `k`: its newline, or the end of the text.
pub open spec fn line_end_of(b: Seq<u8>, k: int) -> int
    decreases b.len() - k,
{
    if k >= b.len() || k < 0 {
        b.len() as int
    } else if b[k] == 10 {
        k
    } else {
        line_end_of(b, k + 1)
    }
}

/// `q` is the source line around `pos` as the text shows it: the line's bytes decoded, when
/// the line starts and ends on character boundaries (as every line of a text does), else
/// nothing.
pub open spec fn quoted_line(b: Seq<u8>, pos: usize, q: Seq<char>) -> bool {
    let p = min_usize(pos, b.len() as usize) as int;
    let s = line_start_of(b, p);
    let e = line_end_of(b, s);
    if is_char_boundary(b, s) && is_char_boundary(b.subrange(s, b.len() as int), e - s) {
        encode_utf8(q) == b.subrange(s, e)
    } else {
        q.len() == 0
    }
}

/// The lines between the location and the caret: an empty gutter, then the line number
/// right-aligned in two columns and the quoted source line `q`.
pub open spec fn gutter_text(b: Seq<u8>, pos: usize, q: Seq<char>) -> Seq<char> {
    "\n   |\n"@ + (if line_of(b, pos) < 10 {
        " "@
    } else {
        Seq::empty()
    }) + decimal_chars(line_of(b, pos)) + " | "@ + q
}

/// The column of a span's start, less one: the characters before it on its line.
pub open spec fn caret_start_of(b: Seq<u8>, span: Span) -> int {
    let p = min_usize(span.start, b.len() as usize) as int;
    count_char_starts(b.subrange(line_start_of(b, p), p)) as int
}

/// The last line of a rendered diagnostic: spaces up to the span's column, then one caret.
pub open spec fn caret_line(b: Seq<u8>, span: Span) -> Seq<char> {
    "\n   | "@ + Seq::new(caret_start_of(b, span) as nat, |i: int| ' ') + seq!['^']
}

pub struct Location {
    pub line: usize,
    pub column: usize,
    pub line_start: usize,
    pub line_end: usize,
}

impl Diagnostic {
    pub fn new(message: String, span: Span) -> (d: Self)
        ensures
            d.message == message,
            d.span == Some(span),
    {
        Self { message, span: Some(span) }
    }

    pub fn bare(message: String) -> (d: Self)
        ensures
            d.message == message,
            d.span.is_none(),
    {
        Self { message, span: None }
    }

    /// Renders the message followed by `  --> path:line:column`, the source line and a line
    /// with one caret under the span's first character; a diagnostic without span renders as
    /// its message alone.
    pub fn render(&self, path: &str, src: &str) -> (out: String)
        ensures
            self.span.is_none() ==> out@ == self.message@,
            self.span.is_some() ==> out@.len() > self.message@.len() && out@.subrange(
                0,
                self.message@.len() as int,
            ) == self.message@,
            self.span is Some && src.spec_bytes().len() < usize::MAX ==> (self.message@
                + location_line(path@, src.spec_bytes(), self.span->0.start)).is_prefix_of(out@),
            self.span is Some && src.spec_bytes().len() < usize::MAX ==> caret_line(
                src.spec_bytes(),
                self.span->0,
            ).is_suffix_of(out@),
            self.span is Some && src.spec_bytes().len() < usize::MAX ==> exists|q: Seq<char>|
                quoted_line(src.spec_bytes(), self.span->0.start, q) && out@ == self.message@
                    + location_line(path@, src.spec_bytes(), self.span->0.start) + gutter_text(
                    src.spec_bytes(),
                    self.span->0.start,
                    q,
                ) + caret_line(src.spec_bytes(), self.span->0),
    {
        let span = match self.span {
            None => {
                return self.message.clone();
            },
            Some(span) => span,
        };
        proof {
            reveal_strlit("\n");
            reveal_strlit(":");
            reveal_strlit(" ");
            reveal_strlit("^");
        }
        let bytes = src.as_bytes();
        if bytes.len() == usize::MAX {
            // No real string has this many bytes; this keeps the offsets below in range.
            let mut out = self.message.clone();
            out.append("\n");
            assert(out@.subrange(0, self.message@.len() as int) =~= self.message@);
            return out;
        }
        let loc = locate(bytes, span.start);
        let caret_start = loc.column - 1;

        let mut out = self.message.clone();
        let ghost head = out@;
        out.append("\n  --> ");
        out.append(path);
        out.append(":");
        push_decimal(&mut out, loc.line as u64);
        out.append(":");
        push_decimal(&mut out, loc.column as u64);
        let ghost hdr = out@;
        proof {
            assert(hdr =~= head + location_line(path@, bytes@, span.start));
            assert(hdr.len() > head.len());
        }
        let mut rest = String::new();
        rest.append("\n   |\n");
        if loc.line < 10 {
            rest.append(" ");
        }
        push_decimal(&mut rest, loc.line as u64);
        rest.append(" | ");
        let ghost before_line = rest@;
        let quoted = str_range(src, loc.line_start, loc.line_end);
        match &quoted {
            Some(line) => rest.append(line.as_str()),
            None => {},
        }
        let ghost gutter = rest@;
        let ghost q = gutter.subrange(before_line.len() as int, gutter.len() as int);
        proof {
            assert(before_line + q =~= gutter);
            let p = min_usize(span.start, bytes@.len() as usize) as int;
            assert(loc.line_start == line_start_of(bytes@, p));
            match quoted {
                Some(line) => {
                    assert(q =~= line@);
                },
                None => {
                    assert(q.len() == 0);
                },
            }
            assert(quoted_line(bytes@, span.start, q));
            assert(gutter =~= gutter_text(bytes@, span.start, q));
        }
        rest.append("\n   | ");
        let mut i: usize = 0;
        while i < caret_start
            invariant
                i <= caret_start,
                rest@ == gutter + "\n   | "@ + Seq::new(i as nat, |k: int| ' '),
            decreases caret_start - i,
        {
            proof {
                reveal_strlit(" ");
            }
            rest.append(" ");
            i = i + 1;
            assert(rest@ =~= gutter + "\n   | "@ + Seq::new(i as nat, |k: int| ' '));
        }
        rest.append("^");
        let ghost before = out@;
        out.append(rest.as_str());
        proof {
            assert(out@.subrange(0, hdr.len() as int) =~= hdr);
            assert(out@.subrange(0, head.len() as int) =~= head);
            let tail = caret_line(bytes@, span);
            assert(caret_start == caret_start_of(bytes@, span));
            assert(tail =~= "\n   | "@ + Seq::new(caret_start as nat, |k: int| ' ') + seq!['^']);
            assert(out@.subrange(out@.len() - tail.len(), out@.len() as int) =~= tail);
            assert(out@ =~= self.message@ + location_line(path@, bytes@, span.start) + gutter_text(
                bytes@,
                span.start,
                q,
            ) + tail);
        }
        out
    }
}

/// The source text between two byte offsets, when both are character boundaries.
/// (`end` is tested as a boundary of the text that follows `start`.)
pub fn str_range(src: &str, start: usize, end: usize) -> (r: Option<String>)
    ensures
        r is Some <==> (start <= end <= src.spec_bytes().len() && is_char_boundary(
            src.spec_bytes(),
            start as int,
        ) && is_char_boundary(
            src.spec_bytes().subrange(start as int, src.spec_bytes().len() as int),
            end - start,
        )),
        r matches Some(s) ==> encode_utf8(s@) == src.spec_bytes().subrange(start as int, end as int),
{
    let bytes = src.as_bytes();
    assert(src.spec_bytes().len() == bytes.len());
    if start <= end && end <= src.len() && src.is_char_boundary(start) {
        let (_, tail) = src.split_at(start);
        let len = end - start;
        assert(tail.spec_bytes() =~= src.spec_bytes().subrange(start as int, src.spec_bytes().len() as int));
        if len <= tail.len() && tail.is_char_boundary(len) {
            let (mid, _) = tail.split_at(len);
            let out = mid.to_string();
            proof {
                broadcast use vstd::string::to_string_from_display_ensures_for_str;
                assert(mid.spec_bytes() =~= src.spec_bytes().subrange(start as int, end as int));
                assert(out@ == mid@);
            }
            return Some(out);
        }
    }
    None
}

/// Line, column and line range of byte offset `pos` (clamped to the text's length).
pub fn locate(src: &[u8], pos: usize) -> (loc: Location)
    requires
        src@.len() < usize::MAX,
    ensures
        loc.line_start <= loc.line_end <= src@.len(),
        loc.line == 1 + count_newlines(src@.take(min_usize(pos, src@.len() as usize) as int)),
        loc.line_start <= min_usize(pos, src@.len() as usize),
        loc.column == 1 + count_char_starts(
            src@.subrange(loc.line_start as int, min_usize(pos, src@.len() as usize) as int),
        ),
        forall|k: int| loc.line_start <= k < loc.line_end ==> src@[k] != 10,
        loc.line_start > 0 ==> src@[loc.line_start - 1] == 10,
        loc.line_end < src@.len() ==> src@[loc.line_end as int] == 10,
        loc.line_start == line_start_of(src@, min_usize(pos, src@.len() as usize) as int),
        loc.line == line_of(src@, pos),
        loc.column == column_of(src@, pos),
        loc.line_end == line_end_of(src@, loc.line_start as int),
{
    let pos = if pos <= src.len() { pos } else { src.len() };
    let mut line: usize = 1;
    let mut line_start: usize = 0;
    let mut idx: usize = 0;
    while idx < pos
        invariant
            pos <= src@.len(),
            idx <= pos,
            line_start <= idx,
            line == 1 + count_newlines(src@.take(idx as int)),
            line <= idx + 1,
            src@.len() < usize::MAX,
            forall|k: int| line_start <= k < idx ==> src@[k] != 10,
            line_start > 0 ==> src@[line_start - 1] == 10,
            line_start == line_start_of(src@, idx as int),
        decreases pos - idx,
    {
        assert(src@.take(idx + 1).drop_last() =~= src@.take(idx as int));
        if src[idx] == 10u8 {
            line = line + 1;
            line_start = idx + 1;
        }
        idx = idx + 1;
    }
    let mut line_end: usize = line_start;
    while line_end < src.len() && src[line_end] != 10u8
        invariant
            line_start <= line_end <= src@.len(),
            forall|k: int| line_start <= k < line_end ==> src@[k] != 10,
            line_end_of(src@, line_start as int) == line_end_of(src@, line_end as int),
        decreases src@.len() - line_end,
    {
        line_end = line_end + 1;
    }
    let mut column: usize = 1;
    let mut k: usize = line_start;
    while k < pos
        invariant
            line_start <= k <= pos,
            pos <= src@.len(),
            column == 1 + count_char_starts(src@.subrange(line_start as int, k as int)),
            column <= k - line_start + 1,
            src@.len() < usize::MAX,
        decreases pos - k,
    {
        assert(src@.subrange(line_start as int, k + 1).drop_last() =~= src@.subrange(
            line_start as int,
            k as int,
        ));
        if !(0x80u8 <= src[k] && src[k] < 0xC0u8) {
            column = column + 1;
        }
        k = k + 1;
    }
    Location { line, column, line_start, line_end }
}

pub open spec fn min_usize(a: usize, b: usize) -> usize {
    if a <= b { a } else { b }
}

} // verus!
