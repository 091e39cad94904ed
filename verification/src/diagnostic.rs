//! Error reports that point into a source file.

use vstd::prelude::*;

use crate::lexer::line_col;
use crate::text::{decimal, push_decimal, push_str};

verus! {

/// A range of byte offsets into a source text.
#[derive(Debug, Clone, Copy)]
pub struct Span {
    start: usize,
    end: usize,
}

impl Span {
    pub closed spec fn spec_start(&self) -> usize {
        self.start
    }

    pub closed spec fn spec_end(&self) -> usize {
        self.end
    }
}

impl From<std::ops::Range<usize>> for Span {
    fn from(value: std::ops::Range<usize>) -> (r: Self) {
        Span { start: value.start, end: value.end }
    }
}

impl vstd::std_specs::convert::FromSpecImpl<std::ops::Range<usize>> for Span {
    open spec fn obeys_from_spec() -> bool {
        true
    }

    closed spec fn from_spec(v: std::ops::Range<usize>) -> Span {
        Span { start: v.start, end: v.end }
    }
}

/// A span from a range keeps its bounds.
pub proof fn lemma_span_from_range(v: std::ops::Range<usize>)
    ensures
        <Span as vstd::std_specs::convert::FromSpec<std::ops::Range<usize>>>::from_spec(v).spec_start() == v.start,
        <Span as vstd::std_specs::convert::FromSpec<std::ops::Range<usize>>>::from_spec(v).spec_end() == v.end,
{
}

/// An error, with the file it concerns (its path as text) and where in it,
/// if known.
#[derive(Debug)]
pub struct Diagnostic<'a> {
    pub path: &'a str,
    pub source: &'a str,
    pub error: String,
    pub span: Option<Span>,
}

/// The number of bytes that UTF-8 takes for a character.
pub open spec fn utf8_width(c: char) -> int {
    let u = c as u32;
    if u < 0x80 {
        1
    } else if u < 0x800 {
        2
    } else if u < 0x10000 {
        3
    } else {
        4
    }
}

/// How many characters from `k` on start before byte offset `offset`, given
/// that character `k` starts at byte `pos`.
pub open spec fn chars_before(s: Seq<char>, k: int, pos: int, offset: int) -> int
    decreases s.len() - k,
{
    if k < 0 || k >= s.len() || pos >= offset {
        k
    } else {
        chars_before(s, k + 1, pos + utf8_width(s[k]), offset)
    }
}

/// The line and column (from 1) of byte offset `offset` of the text: the
/// characters that start before it are counted.
pub open spec fn offset_position(s: Seq<char>, offset: int) -> (nat, nat) {
    line_col(s.take(chars_before(s, 0, 0, offset)))
}

impl<'a> Diagnostic<'a> {
    fn offset_to_line_col(&self, offset: usize) -> (r: (usize, usize))
        requires
            self.source@.len() < usize::MAX,
        ensures
            (r.0 as nat, r.1 as nat) == offset_position(self.source@, offset as int),
    {
        let ghost s = self.source@;
        let n = self.source.unicode_len();
        let mut line: usize = 1;
        let mut col: usize = 1;
        let mut k: usize = 0;
        let mut pos: usize = 0;
        while k < n && pos < offset
            invariant
                n == s.len(),
                n < usize::MAX,
                s == self.source@,
                k <= n,
                pos <= offset,
                chars_before(s, 0, 0, offset as int) == chars_before(s, k as int, pos as int, offset as int),
                (line as nat, col as nat) == line_col(s.take(k as int)),
                line <= k + 1,
                col <= k + 1,
            decreases n - k,
        {
            let ch = self.source.get_char(k);
            let w: usize = if ch <= '\x7f' {
                1
            } else if ch <= '\u{7ff}' {
                2
            } else if ch <= '\u{ffff}' {
                3
            } else {
                4
            };
            assert(s.take(k + 1).drop_last() =~= s.take(k as int));
            if ch == '\n' {
                line = line + 1;
                col = 1;
            } else {
                col = col + 1;
            }
            let ghost next = pos + utf8_width(ch);
            assert(w == utf8_width(ch));
            k = k + 1;
            if offset - pos <= w {
                pos = offset;
            } else {
                pos = pos + w;
            }
            assert(chars_before(s, k as int, pos as int, offset as int) == chars_before(
                s,
                k as int,
                next,
                offset as int,
            ));
        }
        assert(chars_before(s, k as int, pos as int, offset as int) == k);
        (line, col)
    }

    /// The line and column (from 1) of the start and the end of the span, if
    /// there is one.
    pub fn resolve_positions(&self) -> (r: Option<((usize, usize), (usize, usize))>)
        requires
            self.source@.len() < usize::MAX,
        ensures
            match self.span {
                None => r is None,
                Some(span) => r matches Some(((a, b), (c, d))) && (a as nat, b as nat)
                    == offset_position(self.source@, span.spec_start() as int) && (c as nat, d as nat)
                    == offset_position(self.source@, span.spec_end() as int),
            },
    {
        let span = match self.span {
            Some(span) => span,
            None => {
                return None;
            },
        };
        Some((self.offset_to_line_col(span.start), self.offset_to_line_col(span.end)))
    }
}

/// Whether line and column `a` come no later than `b`.
pub open spec fn position_le(a: (nat, nat), b: (nat, nat)) -> bool {
    a.0 < b.0 || (a.0 == b.0 && a.1 <= b.1)
}

proof fn lemma_line_col_monotone(s: Seq<char>, i: int, j: int)
    requires
        0 <= i <= j <= s.len(),
    ensures
        position_le(line_col(s.take(i)), line_col(s.take(j))),
    decreases j - i,
{
    if i < j {
        lemma_line_col_monotone(s, i, j - 1);
        assert(s.take(j).drop_last() =~= s.take(j - 1));
    }
}

proof fn lemma_chars_before_bounds(s: Seq<char>, k: int, pos: int, offset: int)
    requires
        0 <= k <= s.len(),
    ensures
        k <= chars_before(s, k, pos, offset) <= s.len(),
    decreases s.len() - k,
{
    if k < s.len() && pos < offset {
        lemma_chars_before_bounds(s, k + 1, pos + utf8_width(s[k]), offset);
    }
}

proof fn lemma_chars_before_monotone(s: Seq<char>, k: int, pos: int, a: int, b: int)
    requires
        0 <= k <= s.len(),
        a <= b,
    ensures
        chars_before(s, k, pos, a) <= chars_before(s, k, pos, b),
    decreases s.len() - k,
{
    if k < s.len() {
        if pos < a {
            lemma_chars_before_monotone(s, k + 1, pos + utf8_width(s[k]), a, b);
        } else {
            lemma_chars_before_bounds(s, k, pos, b);
        }
    }
}

/// A later byte offset is at a later position: for offsets `a <= b`, the
/// line and column of `a` come no later than those of `b`. So the start of a
/// span is not placed after its end.
pub proof fn lemma_positions_ordered(s: Seq<char>, a: int, b: int)
    requires
        a <= b,
    ensures
        position_le(offset_position(s, a), offset_position(s, b)),
{
    lemma_chars_before_monotone(s, 0, 0, a, b);
    lemma_chars_before_bounds(s, 0, 0, a);
    lemma_chars_before_bounds(s, 0, 0, b);
    lemma_line_col_monotone(s, chars_before(s, 0, 0, a), chars_before(s, 0, 0, b));
}

/// The text of a report: the file and, where the span is known, the line
/// and column of its start and end; then the error, each on a line of its
/// own.
pub open spec fn message_text<'a>(d: Diagnostic<'a>) -> Seq<char> {
    let place = match d.span {
        None => "An error occurred in "@ + d.path@ + ":"@,
        Some(span) => {
            let (start_line, start_col) = offset_position(d.source@, span.spec_start() as int);
            let (end_line, end_col) = offset_position(d.source@, span.spec_end() as int);
            "An error occurred in "@ + d.path@ + " at "@ + decimal(start_line) + ":"@ + decimal(
                start_col,
            ) + " (to "@ + decimal(end_line) + ":"@ + decimal(end_col) + "):"@
        },
    };
    place + "\n"@ + d.error@ + "\n"@
}

impl<'a> Diagnostic<'a> {
    /// The report as text: where the error is, then the error.
    pub fn message(&self) -> (m: String)
        requires
            self.source@.len() < usize::MAX,
        ensures
            m@ == message_text(*self),
    {
        let mut m = String::new();
        push_str(&mut m, "An error occurred in ");
        push_str(&mut m, self.path);
        match self.resolve_positions() {
            Some(((start_line, start_col), (end_line, end_col))) => {
                push_str(&mut m, " at ");
                push_decimal(&mut m, start_line);
                push_str(&mut m, ":");
                push_decimal(&mut m, start_col);
                push_str(&mut m, " (to ");
                push_decimal(&mut m, end_line);
                push_str(&mut m, ":");
                push_decimal(&mut m, end_col);
                push_str(&mut m, "):");
            },
            None => {
                push_str(&mut m, ":");
            },
        }
        push_str(&mut m, "\n");
        push_str(&mut m, self.error.as_str());
        push_str(&mut m, "\n");
        m
    }
}

} // verus!
