//! Source positions.
//!
//! Columns count **grapheme clusters**: one user-perceived character. A family emoji is
//! several code points and many bytes, and exactly 1 column.
//!
//! Carets are drawn in **display width** instead, because a caret's only job is to line
//! up on screen. The two measures are never compared.

use unicode_segmentation::UnicodeSegmentation;
use unicode_width::UnicodeWidthStr;
use vstd::prelude::*;
use vstd::slice::slice_subrange;
use vstd::string::*;
use vstd::utf8::*;

use crate::text::{chars_of, text_of};

verus! {

/// A byte offset into a source file. Cheap to carry; converted to line/column only
/// when something is actually reported.
#[derive(Debug, Clone, Copy, PartialEq, Eq, PartialOrd, Ord, Structural)]
pub struct BytePos(pub usize);

/// A half-open byte range: `start` up to but not including `end`.
#[derive(Debug, Clone, Copy, PartialEq, Eq, Structural)]
pub struct Span {
    pub start: BytePos,
    pub end: BytePos,
}

impl Span {
    pub fn new(start: usize, end: usize) -> (r: Self)
        ensures
            r == (Span { start: BytePos(start), end: BytePos(end) }),
    {
        Span { start: BytePos(start), end: BytePos(end) }
    }

    /// A zero-width span, for pointing between characters.
    pub fn at(pos: usize) -> (r: Self)
        ensures
            r == (Span { start: BytePos(pos), end: BytePos(pos) }),
    {
        Span::new(pos, pos)
    }

    pub fn to(self, other: Span) -> (r: Span)
        ensures
            r == (Span { start: self.start, end: other.end }),
    {
        Span { start: self.start, end: other.end }
    }

    pub fn is_empty(&self) -> (r: bool)
        ensures
            r == (self.start.0 == self.end.0),
    {
        self.start.0 == self.end.0
    }
}

/// A human-facing position: 1-based line, 1-based column in grapheme clusters.
#[derive(Debug, Clone, Copy, PartialEq, Eq, Structural)]
pub struct LineCol {
    pub line: usize,
    pub column: usize,
}

// ── bytes and lines ─────────────────────────────────────────────────────────

/// The bytes of a text.
pub open spec fn bytes_of(t: Seq<char>) -> Seq<u8> {
    encode_utf8(t)
}

/// The text between two byte offsets.
pub open spec fn text_between(t: Seq<char>, from: int, to: int) -> Seq<char> {
    decode_utf8(bytes_of(t).subrange(from, to))
}

/// The byte offsets at which lines start, as far as the first `n` bytes show.
pub open spec fn starts_in(bytes: Seq<u8>, n: int) -> Seq<usize>
    decreases n,
{
    if n <= 0 {
        seq![0usize]
    } else if bytes[n - 1] == 10 {
        starts_in(bytes, n - 1).push(n as usize)
    } else {
        starts_in(bytes, n - 1)
    }
}

/// An offset no further than the end of the text.
pub open spec fn clamped(t: Seq<char>, pos: int) -> int {
    if pos <= bytes_of(t).len() {
        pos
    } else {
        bytes_of(t).len() as int
    }
}

/// Whether an offset can be shown: it lies between two characters, or past the end.
pub open spec fn showable(t: Seq<char>, pos: int) -> bool {
    is_char_boundary(bytes_of(t), clamped(t, pos))
}

/// The 1-based number of the line that an offset lies in.
pub open spec fn line_number(t: Seq<char>, pos: int) -> nat {
    starts_in(bytes_of(t), clamped(t, pos)).len()
}

/// The offset at which the line starts that an offset lies in.
pub open spec fn line_start(t: Seq<char>, pos: int) -> int {
    starts_in(bytes_of(t), clamped(t, pos)).last() as int
}

/// How many grapheme clusters a text is made of: what iterating over the extended clusters
/// of `unicode_segmentation` counts.
pub uninterp spec fn cluster_count(s: Seq<char>) -> nat;

/// `UnicodeSegmentation::graphemes` with extended clusters, counted. The count depends on
/// the text alone, and an empty text has none.
#[verifier::external_body]
fn count_clusters(s: &str) -> (r: usize)
    ensures
        r == cluster_count(s@),
        s@.len() == 0 ==> r == 0,
{
    UnicodeSegmentation::graphemes(s, true).count()
}

/// How many terminal cells a text occupies, as `unicode_width` measures it.
pub uninterp spec fn cell_count(s: Seq<char>) -> nat;

/// `UnicodeWidthStr::width`. The width depends on the text alone.
#[verifier::external_body]
fn count_cells(s: &str) -> (r: usize)
    ensures
        r == cell_count(s@),
{
    UnicodeWidthStr::width(s)
}

/// One more, as far as the machine counts.
pub open spec fn one_more(n: nat) -> nat {
    if n < usize::MAX {
        n + 1
    } else {
        n
    }
}

/// The line and the column of an offset.
pub open spec fn position_of(t: Seq<char>, pos: int) -> (nat, nat) {
    (
        line_number(t, pos),
        one_more(cluster_count(text_between(t, line_start(t, pos), clamped(t, pos)))),
    )
}

/// A text without the line ends behind it.
pub open spec fn without_line_end(s: Seq<char>) -> Seq<char>
    decreases s.len(),
{
    if s.len() > 0 && (s.last() == '\n' || s.last() == '\r') {
        without_line_end(s.drop_last())
    } else {
        s
    }
}

/// The byte offsets at which lines start.
pub open spec fn all_starts(t: Seq<char>) -> Seq<usize> {
    starts_in(bytes_of(t), bytes_of(t).len() as int)
}

/// Where a 1-based line ends: where the next one starts, or where the text ends.
pub open spec fn line_end(t: Seq<char>, line: int) -> int {
    if line < all_starts(t).len() {
        all_starts(t)[line] as int
    } else {
        bytes_of(t).len() as int
    }
}

/// The text of a 1-based line, without its line end.
pub open spec fn text_of_line(t: Seq<char>, line: int) -> Seq<char> {
    without_line_end(text_between(t, all_starts(t)[line - 1] as int, line_end(t, line)))
}

/// The number of lines with content. A trailing newline does not start a new line.
pub open spec fn lines_in(t: Seq<char>) -> nat {
    if t.len() > 0 && t.last() == '\n' && all_starts(t).len() > 1 {
        (all_starts(t).len() - 1) as nat
    } else {
        all_starts(t).len()
    }
}

/// An offset moved into a line.
pub open spec fn into_line(t: Seq<char>, line: int, pos: int) -> int {
    let from = all_starts(t)[line - 1] as int;
    let to = line_end(t, line);
    if pos < from {
        from
    } else if pos > to {
        to
    } else {
        pos
    }
}

/// Cells to skip, then cells to underline, for a span on a line; nothing where the span is
/// not on that line at all. What ends where the line ends is on it.
pub open spec fn caret_cells(t: Seq<char>, line: int, span: Span) -> Option<(nat, nat)> {
    if line > all_starts(t).len() {
        None
    } else if span.start.0 > line_end(t, line) || span.end.0 < all_starts(t)[line - 1] {
        None
    } else {
        let from = all_starts(t)[line - 1] as int;
        let s = into_line(t, line, span.start.0 as int);
        let e = into_line(t, line, span.end.0 as int);
        let w = cell_count(without_line_end(text_between(t, s, e)));
        Some(
            (
                cell_count(without_line_end(text_between(t, from, s))),
                if w >= 1 {
                    w
                } else {
                    1
                },
            ),
        )
    }
}

/// Whether a span can be shown.
pub open spec fn span_showable(t: Seq<char>, span: Span) -> bool {
    &&& showable(t, span.start.0 as int)
    &&& showable(t, span.end.0 as int)
    &&& span.start.0 <= span.end.0
}

// ── lemmas ──────────────────────────────────────────────────────────────────

/// Line starts come in order, the first of them 0, none past what has been seen.
proof fn lemma_starts(bytes: Seq<u8>, n: int)
    requires
        0 <= n <= bytes.len() <= usize::MAX,
    ensures
        ({
            let s = starts_in(bytes, n);
            &&& s.len() > 0
            &&& s[0] == 0
            &&& s.len() <= n + 1
            &&& forall|i: int, j: int| 0 <= i < j < s.len() ==> #[trigger] s[i] < #[trigger] s[j]
            &&& forall|i: int| 0 <= i < s.len() ==> #[trigger] s[i] <= n
            &&& forall|i: int| 0 < i < s.len() ==> bytes[#[trigger] s[i] - 1] == 10
        }),
    decreases n,
{
    if n > 0 {
        lemma_starts(bytes, n - 1);
    }
}

/// What the first bytes show of the line starts stays, and what comes later lies past them.
proof fn lemma_starts_prefix(bytes: Seq<u8>, n: int, m: int)
    requires
        0 <= n <= m <= bytes.len() <= usize::MAX,
    ensures
        ({
            let a = starts_in(bytes, n);
            let b = starts_in(bytes, m);
            &&& a.len() <= b.len()
            &&& forall|i: int| 0 <= i < a.len() ==> #[trigger] a[i] == b[i]
            &&& forall|i: int| a.len() <= i < b.len() ==> #[trigger] b[i] > n
        }),
    decreases m,
{
    if n < m {
        lemma_starts_prefix(bytes, n, m - 1);
    }
}

/// A newline is one byte, so the offset behind it lies between two characters.
proof fn lemma_after_newline(bytes: Seq<u8>, i: int)
    requires
        valid_utf8(bytes),
        0 <= i < bytes.len(),
        bytes[i] == 10,
    ensures
        is_char_boundary(bytes, i + 1),
    decreases bytes.len(),
{
    let k = length_of_first_scalar(bytes);
    if i == 0 {
        assert(is_leading_byte_width_1(bytes[0])) by {
            utf8_byte_ranges_bitwise(bytes[0]);
        }
        assert(k == 1);
        reveal_with_fuel(is_char_boundary, 2);
    } else if i < k {
        utf8_byte_ranges_bitwise(bytes[i]);
        assert(is_continuation_byte(bytes[i]));
    } else {
        lemma_after_newline(pop_first_scalar(bytes), i - k);
        reveal_with_fuel(is_char_boundary, 2);
    }
}

/// Every line starts between two characters.
proof fn lemma_start_is_boundary(t: Seq<char>, i: int)
    requires
        bytes_of(t).len() <= usize::MAX,
        0 <= i < all_starts(t).len(),
    ensures
        is_char_boundary(bytes_of(t), all_starts(t)[i] as int),
        all_starts(t)[i] <= bytes_of(t).len(),
{
    let b = bytes_of(t);
    encode_utf8_valid_utf8(t);
    lemma_starts(b, b.len() as int);
    if i == 0 {
        is_char_boundary_start_end_of_seq(b);
    } else {
        lemma_after_newline(b, all_starts(t)[i] - 1);
    }
}

proof fn lemma_end_is_boundary(t: Seq<char>, line: int)
    requires
        bytes_of(t).len() <= usize::MAX,
        0 <= line,
    ensures
        is_char_boundary(bytes_of(t), line_end(t, line)),
        0 <= line_end(t, line) <= bytes_of(t).len(),
{
    encode_utf8_valid_utf8(t);
    if line < all_starts(t).len() {
        lemma_start_is_boundary(t, line);
    } else {
        is_char_boundary_start_end_of_seq(bytes_of(t));
    }
}

/// Cutting a text at a boundary and cutting what is left again.
proof fn lemma_boundary_of_rest(bytes: Seq<u8>, a: int, b: int)
    requires
        valid_utf8(bytes),
        is_char_boundary(bytes, a),
        is_char_boundary(bytes, b),
        0 <= a <= b <= bytes.len(),
    ensures
        valid_utf8(bytes.skip(a)),
        is_char_boundary(bytes.skip(a), b - a),
{
    valid_utf8_split(bytes, a);
    assert(bytes.skip(a) =~= bytes.subrange(a, bytes.len() as int));
    let rest = bytes.skip(a);
    if b == bytes.len() {
        is_char_boundary_start_end_of_seq(rest);
    } else {
        is_char_boundary_iff_not_is_continuation_byte(bytes, b);
        is_char_boundary_iff_not_is_continuation_byte(rest, b - a);
        assert(rest[b - a] == bytes[b]);
    }
}

/// The text between two byte offsets of a text.
fn cut(s: &str, from: usize, to: usize) -> (r: &str)
    requires
        is_char_boundary(bytes_of(s@), from as int),
        is_char_boundary(bytes_of(s@), to as int),
        from <= to <= bytes_of(s@).len(),
    ensures
        r@ == text_between(s@, from as int, to as int),
{
    let ghost b = bytes_of(s@);
    proof {
        encode_utf8_valid_utf8(s@);
        lemma_boundary_of_rest(b, from as int, to as int);
    }
    let (_, rest) = s.split_at(from);
    proof {
        assert(bytes_of(rest@) == b.skip(from as int));
    }
    let (mid, _) = rest.split_at(to - from);
    proof {
        assert(bytes_of(mid@) =~= b.subrange(from as int, to as int));
        encode_utf8_decode_utf8(mid@);
    }
    mid
}

/// A text without the line ends behind it.
fn trim_line_end(s: &str) -> (r: String)
    ensures
        r@ == without_line_end(s@),
{
    let t: Vec<char> = chars_of(s);
    let mut n: usize = t.len();
    assert(t@.take(n as int) =~= t@);
    while n > 0 && (t[n - 1] == '\n' || t[n - 1] == '\r')
        invariant
            n <= t.len(),
            t@ == s@,
            without_line_end(s@) == without_line_end(t@.take(n as int)),
        decreases n,
    {
        assert(t@.take(n as int).drop_last() =~= t@.take(n as int - 1));
        n = n - 1;
    }
    assert(t@.take(n as int) =~= t@.subrange(0, n as int));
    text_of(slice_subrange(t.as_slice(), 0, n))
}

/// One source file, with a precomputed line index.
#[derive(Debug)]
pub struct SourceFile {
    name: String,
    text: String,
    /// Byte offset at which each line starts.
    line_starts: Vec<usize>,
}

impl SourceFile {
    /// The line index belongs to the text.
    #[verifier::type_invariant]
    spec fn indexed(&self) -> bool {
        &&& self.line_starts@ == all_starts(self.text@)
        &&& bytes_of(self.text@).len() <= usize::MAX
    }

    /// The file's name.
    pub closed spec fn title(&self) -> Seq<char> {
        self.name@
    }

    /// The file's text.
    pub closed spec fn content(&self) -> Seq<char> {
        self.text@
    }

    pub fn name(&self) -> (r: &str)
        ensures
            r@ == self.title(),
    {
        self.name.as_str()
    }

    pub fn text(&self) -> (r: &str)
        ensures
            r@ == self.content(),
    {
        self.text.as_str()
    }

    pub fn new(name: String, text: String) -> (r: Self)
        ensures
            r.title() == name@,
            r.content() == text@,
    {
        let mut line_starts: Vec<usize> = Vec::new();
        line_starts.push(0);
        let bytes: &[u8] = text.as_str().as_bytes();
        assert(line_starts@ =~= starts_in(bytes@, 0));
        let mut i: usize = 0;
        while i < bytes.len()
            invariant
                i <= bytes.len(),
                line_starts@ == starts_in(bytes@, i as int),
            decreases bytes.len() - i,
        {
            if bytes[i] == 10 {
                line_starts.push(i + 1);
            }
            i = i + 1;
        }
        SourceFile { name, text, line_starts }
    }

    /// Number of lines with content. A trailing newline does not start a new line.
    pub fn line_count(&self) -> (r: usize)
        ensures
            r == lines_in(self.content()),
            r >= 1,
    {
        proof {
            use_type_invariant(self);
            lemma_starts(bytes_of(self.content()), bytes_of(self.content()).len() as int);
        }
        let n: usize = self.text.as_str().unicode_len();
        let ends: bool = n > 0 && self.text.as_str().get_char(n - 1) == '\n';
        if ends && self.line_starts.len() > 1 {
            self.line_starts.len() - 1
        } else {
            self.line_starts.len()
        }
    }

    /// Zero-based number of the line containing `pos`.
    fn line_index(&self, pos: usize) -> (r: usize)
        requires
            pos <= bytes_of(self.content()).len(),
        ensures
            r < self.line_starts@.len(),
            r + 1 == starts_in(bytes_of(self.content()), pos as int).len(),
            self.line_starts@[r as int] == starts_in(bytes_of(self.content()), pos as int).last(),
            self.line_starts@[r as int] <= pos,
    {
        let ghost b = bytes_of(self.content());
        let ghost seen = starts_in(b, pos as int);
        proof {
            use_type_invariant(self);
            lemma_starts(b, pos as int);
            lemma_starts(b, b.len() as int);
            lemma_starts_prefix(b, pos as int, b.len() as int);
            assert forall|i: int| 0 <= i < seen.len() implies #[trigger] self.line_starts@[i] <= pos by {
                assert(seen[i] == self.line_starts@[i]);
            }
        }
        let mut lo: usize = 0;
        let mut hi: usize = self.line_starts.len();
        while hi - lo > 1
            invariant
                lo < hi <= self.line_starts@.len(),
                lo < seen.len() <= hi,
                seen.len() <= self.line_starts@.len(),
                forall|i: int| 0 <= i < seen.len() ==> #[trigger] self.line_starts@[i] <= pos,
                forall|i: int| seen.len() <= i < self.line_starts@.len() ==> #[trigger] self.line_starts@[i] > pos,
            decreases hi - lo,
        {
            let mid: usize = lo + (hi - lo) / 2;
            if self.line_starts[mid] <= pos {
                lo = mid;
            } else {
                hi = mid;
            }
        }
        lo
    }

    /// Text of a 1-based line, without its trailing newline.
    pub fn line_text(&self, line: usize) -> (r: String)
        requires
            1 <= line <= all_starts(self.content()).len(),
        ensures
            r@ == text_of_line(self.content(), line as int),
    {
        proof {
            use_type_invariant(self);
            lemma_start_is_boundary(self.content(), line - 1);
            lemma_end_is_boundary(self.content(), line as int);
            lemma_starts(bytes_of(self.content()), bytes_of(self.content()).len() as int);
        }
        let start: usize = self.line_starts[line - 1];
        let end: usize = if line < self.line_starts.len() {
            self.line_starts[line]
        } else {
            self.text.as_str().len()
        };
        trim_line_end(cut(self.text.as_str(), start, end))
    }

    /// Convert a byte offset to line and grapheme column, both 1-based.
    pub fn line_col(&self, pos: BytePos) -> (r: LineCol)
        requires
            showable(self.content(), pos.0 as int),
        ensures
            (r.line as nat, r.column as nat) == position_of(self.content(), pos.0 as int),
            1 <= r.line <= all_starts(self.content()).len(),
            clamped(self.content(), pos.0 as int) == line_start(self.content(), pos.0 as int) ==> r.column == 1,
    {
        proof {
            use_type_invariant(self);
        }
        let len: usize = self.text.as_str().len();
        let at: usize = if pos.0 <= len {
            pos.0
        } else {
            len
        };
        let idx: usize = self.line_index(at);
        proof {
            lemma_start_is_boundary(self.content(), idx as int);
            lemma_starts_prefix(bytes_of(self.content()), at as int, bytes_of(self.content()).len() as int);
        }
        let start: usize = self.line_starts[idx];
        let count: usize = count_clusters(cut(self.text.as_str(), start, at));
        assert(idx < self.line_starts.len());
        LineCol {
            line: idx + 1,
            column: if count < usize::MAX {
                count + 1
            } else {
                count
            },
        }
    }

    /// How many terminal cells `text` occupies. Used only to position carets.
    pub fn display_width(text: &str) -> (r: usize)
        ensures
            r == cell_count(text@),
    {
        count_cells(text)
    }

    /// Cells to skip, then cells to underline, for a span on one line.
    /// Returns `None` if the span is not on that line at all.
    pub fn caret_extent(&self, line: usize, span: Span) -> (r: Option<(usize, usize)>)
        requires
            line >= 1,
            span_showable(self.content(), span),
        ensures
            match r {
                Some((pad, width)) => caret_cells(self.content(), line as int, span) == Some((pad as nat, width as nat)),
                None => caret_cells(self.content(), line as int, span) is None,
            },
    {
        proof {
            use_type_invariant(self);
        }
        if line > self.line_starts.len() {
            return None;
        }
        let start: usize = self.line_starts[line - 1];
        let end: usize = if line < self.line_starts.len() {
            self.line_starts[line]
        } else {
            self.text.as_str().len()
        };
        proof {
            lemma_start_is_boundary(self.content(), line - 1);
            lemma_end_is_boundary(self.content(), line as int);
            lemma_starts(bytes_of(self.content()), bytes_of(self.content()).len() as int);
        }
        if span.start.0 > end || span.end.0 < start {
            return None;
        }
        let s: usize = if span.start.0 < start {
            start
        } else {
            span.start.0
        };
        let e: usize = if span.end.0 > end {
            end
        } else {
            span.end.0
        };
        let before: &str = cut(self.text.as_str(), start, s);
        let inner: &str = cut(self.text.as_str(), s, e);
        let pad: usize = Self::display_width(trim_line_end(before).as_str());
        let width: usize = Self::display_width(trim_line_end(inner).as_str());
        Some(
            (
                pad,
                if width >= 1 {
                    width
                } else {
                    1
                },
            ),
        )
    }
}

// ── laws ────────────────────────────────────────────────────────────────────

/// What comes later in a text does not stand on an earlier line.
pub proof fn lines_come_in_order(t: Seq<char>, a: int, b: int)
    requires
        bytes_of(t).len() <= usize::MAX,
        0 <= a <= b,
    ensures
        line_number(t, a) <= line_number(t, b),
        line_start(t, a) <= line_start(t, b),
{
    let bytes = bytes_of(t);
    let x = clamped(t, a);
    let y = clamped(t, b);
    lemma_starts(bytes, x);
    lemma_starts(bytes, y);
    lemma_starts_prefix(bytes, x, y);
    let s = starts_in(bytes, x);
    let u = starts_in(bytes, y);
    assert(s.last() == u[s.len() - 1]);
    assert(s.len() - 1 < u.len() - 1 ==> u[s.len() - 1] < u[u.len() - 1]);
}

/// Lines are counted from 1: the offset at which the `i`-th of them starts, counted from 0,
/// lies on line `i + 1`, and that line starts there.
pub proof fn a_line_starts_where_it_starts(t: Seq<char>, i: int)
    requires
        bytes_of(t).len() <= usize::MAX,
        0 <= i < all_starts(t).len(),
    ensures
        line_number(t, all_starts(t)[i] as int) == i + 1,
        line_start(t, all_starts(t)[i] as int) == all_starts(t)[i],
{
    let bytes = bytes_of(t);
    let n = bytes.len() as int;
    lemma_starts(bytes, n);
    let at = all_starts(t)[i] as int;
    lemma_starts(bytes, at);
    lemma_starts_prefix(bytes, at, n);
    let s = starts_in(bytes, at);
    if s.len() <= i {
        assert(all_starts(t)[i] > at);
    }
    if s.len() > i + 1 {
        assert(s[i + 1] == all_starts(t)[i + 1]);
        assert(all_starts(t)[i] < all_starts(t)[i + 1]);
        assert(s[i + 1] <= at);
    }
    assert(s[i] == all_starts(t)[i]);
}

/// The first `n` lines, joined by newlines.
pub open spec fn joined_lines(t: Seq<char>, n: nat) -> Seq<char>
    decreases n,
{
    if n == 0 {
        Seq::empty()
    } else if n == 1 {
        text_of_line(t, 1)
    } else {
        joined_lines(t, (n - 1) as nat).push('\n') + text_of_line(t, n as int)
    }
}

proof fn lemma_newline_bytes()
    ensures
        encode_utf8(seq!['\n']) == seq![10u8],
{
    reveal_with_fuel(encode_utf8, 2);
    assert(10u32 & 0x7F == 10) by (bit_vector);
    assert('\n' as u32 == 10u32);
    assert(seq!['\n'].drop_first() =~= Seq::<char>::empty());
    assert(encode_utf8(seq!['\n']) =~= seq![10u8]);
}

/// A newline among characters is a newline among their bytes.
proof fn lemma_newline_byte(chars: Seq<char>, i: int)
    requires
        0 <= i < chars.len(),
        chars[i] == '\n',
    ensures
        exists|j: int| 0 <= j < encode_utf8(chars).len() && encode_utf8(chars)[j] == 10,
    decreases chars.len(),
{
    let first = encode_scalar(chars[0] as u32);
    let rest = encode_utf8(chars.drop_first());
    if i == 0 {
        assert(10u32 & 0x7F == 10) by (bit_vector);
        assert('\n' as u32 == 10u32);
        assert(encode_utf8(chars)[0] == 10);
    } else {
        lemma_newline_byte(chars.drop_first(), i - 1);
        let j = choose|j: int| 0 <= j < rest.len() && rest[j] == 10;
        assert(encode_utf8(chars)[first.len() + j] == 10);
    }
}

/// Between the start of a line and its newline there is no other.
proof fn lemma_line_bytes(t: Seq<char>, line: int, j: int)
    requires
        bytes_of(t).len() <= usize::MAX,
        1 <= line <= all_starts(t).len(),
        all_starts(t)[line - 1] <= j,
        j < line_end(t, line) - (if line < all_starts(t).len() { 1int } else { 0int }),
    ensures
        j < bytes_of(t).len(),
        bytes_of(t)[j] != 10,
{
    let b = bytes_of(t);
    lemma_starts(b, b.len() as int);
    if b[j] == 10 {
        lemma_starts_prefix(b, j + 1, b.len() as int);
        let s = starts_in(b, j + 1);
        let k = s.len() - 1;
        assert(s[k] == j + 1);
        assert(all_starts(t)[k] == j + 1);
        if k < line - 1 {
            assert(all_starts(t)[k] < all_starts(t)[line - 1]);
        }
        if line < all_starts(t).len() && line < k {
            assert(all_starts(t)[line] < all_starts(t)[k]);
        }
        if line < all_starts(t).len() {
            assert(all_starts(t)[k] < all_starts(t)[line]);
        }
        assert(k >= line);
    }
}

/// Text from whose bytes a newline is missing has none.
proof fn lemma_no_newline(bytes: Seq<u8>)
    requires
        valid_utf8(bytes),
        forall|j: int| 0 <= j < bytes.len() ==> bytes[j] != 10,
    ensures
        !decode_utf8(bytes).contains('\n'),
{
    decode_utf8_encode_utf8(bytes);
    let d = decode_utf8(bytes);
    if d.contains('\n') {
        let i = choose|i: int| 0 <= i < d.len() && d[i] == '\n';
        lemma_newline_byte(d, i);
    }
}

/// A line with its line end, where it has one.
proof fn lemma_line_piece(t: Seq<char>, line: int)
    requires
        bytes_of(t).len() <= usize::MAX,
        !t.contains('\r'),
        1 <= line <= all_starts(t).len(),
    ensures
        ({
            let piece = text_between(t, all_starts(t)[line - 1] as int, line_end(t, line));
            let whole = text_between(t, 0, line_end(t, line));
            let before = text_between(t, 0, all_starts(t)[line - 1] as int);
            &&& whole == before + piece
            &&& line < all_starts(t).len() ==> piece == text_of_line(t, line).push('\n')
            &&& line == all_starts(t).len() ==> piece == text_of_line(t, line)
            &&& !text_of_line(t, line).contains('\n')
        }),
{
    let b = bytes_of(t);
    let from = all_starts(t)[line - 1] as int;
    let to = line_end(t, line);
    encode_utf8_valid_utf8(t);
    encode_utf8_decode_utf8(t);
    lemma_starts(b, b.len() as int);
    lemma_start_is_boundary(t, line - 1);
    lemma_end_is_boundary(t, line);
    assert(from <= to);
    // The text up to the line's end, and what is left of it behind the line's start.
    valid_utf8_split(b, to);
    decode_utf8_split(b, to);
    let upto = b.subrange(0, to);
    lemma_boundary_in_front(b, from, to);
    valid_utf8_split(upto, from);
    decode_utf8_split(upto, from);
    assert(upto.subrange(0, from) =~= b.subrange(0, from));
    let bytes = b.subrange(from, to);
    assert(upto.subrange(from, upto.len() as int) =~= bytes);
    let piece = decode_utf8(bytes);
    let before = decode_utf8(b.subrange(0, from));
    let rest = decode_utf8(b.subrange(to, b.len() as int));
    assert(t == before + piece + rest);
    if line < all_starts(t).len() {
        assert(b[to - 1] == 10);
        assert(from < to);
        let n = bytes.len() - 1;
        assert(bytes[n] == 10);
        assert(is_char_boundary(bytes, n)) by {
            is_char_boundary_iff_not_is_continuation_byte(bytes, n);
            utf8_byte_ranges_bitwise(bytes[n]);
        }
        valid_utf8_split(bytes, n);
        decode_utf8_split(bytes, n);
        let front = bytes.subrange(0, n);
        lemma_newline_bytes();
        encode_utf8_decode_utf8(seq!['\n']);
        assert(bytes.subrange(n, bytes.len() as int) =~= seq![10u8]);
        let line_text = decode_utf8(front);
        assert(piece =~= line_text.push('\n'));
        assert forall|j: int| 0 <= j < front.len() implies front[j] != 10 by {
            lemma_line_bytes(t, line, from + j);
        }
        lemma_no_newline(front);
        assert(piece.drop_last() =~= line_text);
        if line_text.len() > 0 {
            let i = line_text.len() - 1;
            assert(line_text.contains(line_text[i]));
            assert(t[before.len() + i] == line_text[i]);
            assert(line_text.last() != '\r');
        }
        reveal_with_fuel(without_line_end, 3);
        assert(text_of_line(t, line) == line_text);
    } else {
        assert forall|j: int| 0 <= j < bytes.len() implies bytes[j] != 10 by {
            lemma_line_bytes(t, line, from + j);
        }
        lemma_no_newline(bytes);
        if piece.len() > 0 {
            let i = piece.len() - 1;
            assert(piece.contains(piece[i]));
            assert(t[before.len() + i] == piece[i]);
            assert(piece.last() != '\r');
        }
        assert(text_of_line(t, line) == piece);
    }
}

/// A boundary of a text is one of its front.
proof fn lemma_boundary_in_front(b: Seq<u8>, from: int, to: int)
    requires
        valid_utf8(b),
        is_char_boundary(b, from),
        is_char_boundary(b, to),
        0 <= from <= to <= b.len(),
    ensures
        valid_utf8(b.subrange(0, to)),
        is_char_boundary(b.subrange(0, to), from),
{
    valid_utf8_split(b, to);
    let front = b.subrange(0, to);
    if from == to {
        is_char_boundary_start_end_of_seq(front);
    } else {
        is_char_boundary_iff_not_is_continuation_byte(b, from);
        is_char_boundary_iff_not_is_continuation_byte(front, from);
        assert(front[from] == b[from]);
    }
}

proof fn lemma_joined(t: Seq<char>, n: nat)
    requires
        bytes_of(t).len() <= usize::MAX,
        !t.contains('\r'),
        1 <= n <= all_starts(t).len(),
    ensures
        ({
            let whole = text_between(t, 0, line_end(t, n as int));
            if n < all_starts(t).len() {
                whole == joined_lines(t, n).push('\n')
            } else {
                whole == joined_lines(t, n)
            }
        }),
    decreases n,
{
    let b = bytes_of(t);
    lemma_line_piece(t, n as int);
    lemma_starts(b, b.len() as int);
    if n == 1 {
        assert(b.subrange(0, 0) =~= Seq::<u8>::empty());
        assert(decode_utf8(Seq::<u8>::empty()) =~= Seq::<char>::empty());
        assert(text_between(t, 0, line_end(t, 1)) =~= text_between(t, all_starts(t)[0] as int, line_end(t, 1)));
    } else {
        lemma_joined(t, (n - 1) as nat);
        assert(line_end(t, n - 1) == all_starts(t)[n - 1]);
        assert(text_between(t, 0, line_end(t, n as int)) =~= if n < all_starts(t).len() {
            joined_lines(t, n).push('\n')
        } else {
            joined_lines(t, n)
        });
    }
}

/// The lines of a text without carriage returns, joined by newlines, are the text, and none
/// of them holds a newline.
pub proof fn the_lines_are_the_text(t: Seq<char>, line: int)
    requires
        bytes_of(t).len() <= usize::MAX,
        !t.contains('\r'),
        1 <= line <= all_starts(t).len(),
    ensures
        joined_lines(t, all_starts(t).len()) == t,
        !text_of_line(t, line).contains('\n'),
{
    let b = bytes_of(t);
    lemma_line_piece(t, line);
    lemma_starts(b, b.len() as int);
    lemma_joined(t, all_starts(t).len());
    encode_utf8_decode_utf8(t);
    assert(b.subrange(0, b.len() as int) =~= b);
}

} // verus!
