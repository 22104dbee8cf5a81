//! Splitting message text into plain text and LaTeX math segments.

use vstd::prelude::*;
use crate::text::{chars_of, lemma_trim_idempotent, string_of_range, trim, trim_bounds};

verus! {

/// A segment of text that is either plain markdown or a LaTeX math block.
#[derive(Debug, Clone)]
pub enum Segment {
    /// Regular markdown text.
    Text(String),
    /// Inline math (was delimited by `$...$`).
    InlineMath(String),
    /// Display math (was delimited by `$$...$$`).
    DisplayMath(String),
}

/// What a `Segment` holds, as characters.
pub enum SegmentView {
    Text(Seq<char>),
    InlineMath(Seq<char>),
    DisplayMath(Seq<char>),
}

impl View for Segment {
    type V = SegmentView;

    open spec fn view(&self) -> SegmentView {
        match self {
            Segment::Text(s) => SegmentView::Text(s@),
            Segment::InlineMath(s) => SegmentView::InlineMath(s@),
            Segment::DisplayMath(s) => SegmentView::DisplayMath(s@),
        }
    }
}

impl DeepView for Segment {
    type V = SegmentView;

    open spec fn deep_view(&self) -> SegmentView {
        self@
    }
}

/// The first `j >= from` at which `$$` starts.
pub open spec fn find_double_dollar(c: Seq<char>, from: int) -> Option<int>
    decreases c.len() - from,
{
    if from < 0 || from + 1 >= c.len() {
        None
    } else if c[from] == '$' && c[from + 1] == '$' {
        Some(from)
    } else {
        find_double_dollar(c, from + 1)
    }
}

/// The first `j >= from` holding `$`, unless a line break comes first.
pub open spec fn find_dollar_on_line(c: Seq<char>, from: int) -> Option<int>
    decreases c.len() - from,
{
    if from < 0 || from >= c.len() {
        None
    } else if c[from] == '$' {
        Some(from)
    } else if c[from] == '\n' {
        None
    } else {
        find_dollar_on_line(c, from + 1)
    }
}

pub proof fn lemma_find_double_dollar(c: Seq<char>, from: int)
    ensures
        find_double_dollar(c, from) matches Some(j) ==> {
            &&& from <= j
            &&& j + 1 < c.len()
            &&& c[j] == '$'
            &&& c[j + 1] == '$'
        },
    decreases c.len() - from,
{
    if from >= 0 && from + 1 < c.len() && !(c[from] == '$' && c[from + 1] == '$') {
        lemma_find_double_dollar(c, from + 1);
    }
}

pub proof fn lemma_find_dollar_on_line(c: Seq<char>, from: int)
    ensures
        find_dollar_on_line(c, from) matches Some(j) ==> {
            &&& from <= j < c.len()
            &&& c[j] == '$'
        },
    decreases c.len() - from,
{
    if from >= 0 && from < c.len() && c[from] != '$' && c[from] != '\n' {
        lemma_find_dollar_on_line(c, from + 1);
    }
}

/// The text `c[t..p]` as a segment, when it is not empty.
pub open spec fn text_before(c: Seq<char>, t: int, p: int) -> Seq<SegmentView> {
    if t < p {
        seq![SegmentView::Text(c.subrange(t, p))]
    } else {
        seq![]
    }
}

/// A math segment of the given kind holding `m`, when `m` is not empty.
pub open spec fn math_segment(display: bool, m: Seq<char>) -> Seq<SegmentView> {
    if m.len() == 0 {
        seq![]
    } else if display {
        seq![SegmentView::DisplayMath(m)]
    } else {
        seq![SegmentView::InlineMath(m)]
    }
}

/// The segments of `c` from position `p` on, where the pending text started at `t`.
///
/// `$$` opens display math that runs to the next `$$`; a `$` that is not part
/// of `$$` and not preceded by a backslash opens inline math that ends at the
/// next `$` on the same line. Math is trimmed and dropped when empty. An
/// unclosed `$$` leaves the rest of the input as text; an unclosed `$` is
/// kept as the text `$` and the search goes on after it, so that every
/// character outside math lands in exactly one text segment.
pub open spec fn segments_from(c: Seq<char>, t: int, p: int) -> Seq<SegmentView>
    decreases c.len() - p,
{
    if p < 0 || p >= c.len() {
        if 0 <= t < c.len() {
            seq![SegmentView::Text(c.subrange(t, c.len() as int))]
        } else {
            seq![]
        }
    } else if c[p] != '$' {
        segments_from(c, t, p + 1)
    } else if p + 1 < c.len() && c[p + 1] == '$' {
        proof {
            lemma_find_double_dollar(c, p + 2);
        }
        match find_double_dollar(c, p + 2) {
            Some(j) => text_before(c, t, p) + math_segment(true, trim(c.subrange(p + 2, j)))
                + segments_from(c, j + 2, j + 2),
            None => text_before(c, t, p) + seq![SegmentView::Text(c.subrange(p, c.len() as int))],
        }
    } else if p > 0 && c[p - 1] == '\\' {
        segments_from(c, t, p + 1)
    } else {
        proof {
            lemma_find_dollar_on_line(c, p + 1);
        }
        match find_dollar_on_line(c, p + 1) {
            Some(j) => text_before(c, t, p) + math_segment(false, trim(c.subrange(p + 1, j)))
                + segments_from(c, j + 1, j + 1),
            None => text_before(c, t, p) + seq![SegmentView::Text(seq!['$'])] + segments_from(
                c,
                p + 1,
                p + 1,
            ),
        }
    }
}

/// The segments of a whole input.
pub open spec fn math_segments(c: Seq<char>) -> Seq<SegmentView> {
    segments_from(c, 0, 0)
}

pub fn find_double_dollar_exec(c: &Vec<char>, from: usize) -> (r: Option<usize>)
    ensures
        r matches Some(j) ==> find_double_dollar(c@, from as int) == Some(j as int),
        r is None ==> find_double_dollar(c@, from as int) is None,
{
    let mut i = from;
    while i < c.len() && i + 1 < c.len()
        invariant
            from <= i,
            find_double_dollar(c@, from as int) == find_double_dollar(c@, i as int),
        decreases c.len() - i,
    {
        if c[i] == '$' && c[i + 1] == '$' {
            return Some(i);
        }
        i = i + 1;
    }
    None
}

pub fn find_dollar_on_line_exec(c: &Vec<char>, from: usize) -> (r: Option<usize>)
    ensures
        r matches Some(j) ==> find_dollar_on_line(c@, from as int) == Some(j as int),
        r is None ==> find_dollar_on_line(c@, from as int) is None,
{
    let mut i = from;
    while i < c.len()
        invariant
            from <= i,
            find_dollar_on_line(c@, from as int) == find_dollar_on_line(c@, i as int),
        decreases c.len() - i,
    {
        if c[i] == '$' {
            return Some(i);
        }
        if c[i] == '\n' {
            return None;
        }
        i = i + 1;
    }
    None
}

fn push_math(segs: &mut Vec<Segment>, display: bool, c: &Vec<char>, lo: usize, hi: usize)
    requires
        lo <= hi <= c@.len(),
    ensures
        final(segs).deep_view() == old(segs).deep_view() + math_segment(
            display,
            trim(c@.subrange(lo as int, hi as int)),
        ),
{
    let (a, b) = trim_bounds(c, lo, hi);
    if a < b {
        let m = string_of_range(c, a, b);
        if display {
            segs.push(Segment::DisplayMath(m));
        } else {
            segs.push(Segment::InlineMath(m));
        }
    }
}

fn push_text(segs: &mut Vec<Segment>, c: &Vec<char>, lo: usize, hi: usize)
    requires
        lo <= hi <= c@.len(),
    ensures
        final(segs).deep_view() == old(segs).deep_view() + text_before(c@, lo as int, hi as int),
{
    if lo < hi {
        let s = string_of_range(c, lo, hi);
        segs.push(Segment::Text(s));
    }
}

/// Parse a string into segments of text and math.
/// Recognizes `$$...$$` (display math) and `$...$` (inline math).
pub fn parse_math_segments(input: &str) -> (r: Vec<Segment>)
    ensures
        r.deep_view() == math_segments(input@),
{
    let c = chars_of(input);
    let n = c.len();
    let mut segs: Vec<Segment> = Vec::new();
    let mut t: usize = 0;
    let mut p: usize = 0;
    while p < n
        invariant
            n == c@.len(),
            c@ == input@,
            t <= p <= n,
            segs.deep_view() + segments_from(c@, t as int, p as int) == math_segments(c@),
        decreases n - p,
    {
        if c[p] != '$' {
            p = p + 1;
        } else if p + 1 < n && c[p + 1] == '$' {
            proof {
                lemma_find_double_dollar(c@, p + 2);
            }
            match find_double_dollar_exec(&c, p + 2) {
                Some(j) => {
                    push_text(&mut segs, &c, t, p);
                    push_math(&mut segs, true, &c, p + 2, j);
                    t = j + 2;
                    p = j + 2;
                },
                None => {
                    push_text(&mut segs, &c, t, p);
                    t = p;
                    p = n;
                },
            }
        } else if p > 0 && c[p - 1] == '\\' {
            p = p + 1;
        } else {
            proof {
                lemma_find_dollar_on_line(c@, p + 1);
            }
            match find_dollar_on_line_exec(&c, p + 1) {
                Some(j) => {
                    push_text(&mut segs, &c, t, p);
                    push_math(&mut segs, false, &c, p + 1, j);
                    t = j + 1;
                    p = j + 1;
                },
                None => {
                    push_text(&mut segs, &c, t, p);
                    push_text(&mut segs, &c, p, p + 1);
                    assert(c@.subrange(p as int, p + 1) =~= seq!['$']);
                    t = p + 1;
                    p = p + 1;
                },
            }
        }
    }
    push_text(&mut segs, &c, t, n);
    segs
}

/// Returns true if the content contains any math delimiters.
pub fn contains_math(content: &str) -> (r: bool)
    ensures
        r == content@.contains('$'),
{
    let c = chars_of(content);
    let mut i: usize = 0;
    while i < c.len()
        invariant
            c@ == content@,
            i <= c@.len(),
            forall|j: int| 0 <= j < i ==> c@[j] != '$',
        decreases c.len() - i,
    {
        if c[i] == '$' {
            assert(content@[i as int] == '$');
            return true;
        }
        i = i + 1;
    }
    false
}

proof fn lemma_no_dollar_from(c: Seq<char>, t: int, p: int)
    requires
        0 <= t <= p <= c.len(),
        forall|j: int| p <= j < c.len() ==> c[j] != '$',
    ensures
        segments_from(c, t, p) == if t < c.len() {
            seq![SegmentView::Text(c.subrange(t, c.len() as int))]
        } else {
            seq![]
        },
    decreases c.len() - p,
{
    if p < c.len() {
        lemma_no_dollar_from(c, t, p + 1);
    }
}

/// Text that holds no `$` is a single text segment, or nothing when empty:
/// `contains_math` false means `parse_math_segments` finds no math.
pub proof fn lemma_no_dollar_is_plain_text(c: Seq<char>)
    requires
        !c.contains('$'),
    ensures
        math_segments(c) == if c.len() > 0 {
            seq![SegmentView::Text(c)]
        } else {
            seq![]
        },
{
    assert forall|j: int| 0 <= j < c.len() implies c[j] != '$' by {
        if c[j] == '$' {
            assert(c.contains('$'));
        }
    }
    lemma_no_dollar_from(c, 0, 0);
    assert(c.subrange(0, c.len() as int) =~= c);
}

/// Every math segment holds something, and nothing to trim.
pub open spec fn math_is_trimmed(segs: Seq<SegmentView>) -> bool {
    forall|i: int|
        0 <= i < segs.len() ==> match #[trigger] segs[i] {
            SegmentView::InlineMath(m) => m.len() > 0 && trim(m) == m,
            SegmentView::DisplayMath(m) => m.len() > 0 && trim(m) == m,
            SegmentView::Text(_) => true,
        }
}

proof fn lemma_trimmed_concat(a: Seq<SegmentView>, b: Seq<SegmentView>)
    requires
        math_is_trimmed(a),
        math_is_trimmed(b),
    ensures
        math_is_trimmed(a + b),
{
    assert forall|i: int| 0 <= i < (a + b).len() implies match #[trigger] (a + b)[i] {
        SegmentView::InlineMath(m) => m.len() > 0 && trim(m) == m,
        SegmentView::DisplayMath(m) => m.len() > 0 && trim(m) == m,
        SegmentView::Text(_) => true,
    } by {
        if i < a.len() {
            assert((a + b)[i] == a[i]);
        } else {
            assert((a + b)[i] == b[i - a.len()]);
        }
    }
}

proof fn lemma_math_segment_trimmed(display: bool, m: Seq<char>)
    ensures
        math_is_trimmed(math_segment(display, trim(m))),
{
    lemma_trim_idempotent(m);
}

proof fn lemma_segments_from_trimmed(c: Seq<char>, t: int, p: int)
    ensures
        math_is_trimmed(segments_from(c, t, p)),
    decreases c.len() - p,
{
    if p < 0 || p >= c.len() {
    } else if c[p] != '$' {
        lemma_segments_from_trimmed(c, t, p + 1);
    } else if p + 1 < c.len() && c[p + 1] == '$' {
        lemma_find_double_dollar(c, p + 2);
        match find_double_dollar(c, p + 2) {
            Some(j) => {
                lemma_segments_from_trimmed(c, j + 2, j + 2);
                lemma_math_segment_trimmed(true, c.subrange(p + 2, j));
                lemma_trimmed_concat(text_before(c, t, p), math_segment(true, trim(c.subrange(p + 2, j))));
                lemma_trimmed_concat(
                    text_before(c, t, p) + math_segment(true, trim(c.subrange(p + 2, j))),
                    segments_from(c, j + 2, j + 2),
                );
            },
            None => {
                lemma_trimmed_concat(text_before(c, t, p), seq![SegmentView::Text(c.subrange(p, c.len() as int))]);
            },
        }
    } else if p > 0 && c[p - 1] == '\\' {
        lemma_segments_from_trimmed(c, t, p + 1);
    } else {
        lemma_find_dollar_on_line(c, p + 1);
        match find_dollar_on_line(c, p + 1) {
            Some(j) => {
                lemma_segments_from_trimmed(c, j + 1, j + 1);
                lemma_math_segment_trimmed(false, c.subrange(p + 1, j));
                lemma_trimmed_concat(text_before(c, t, p), math_segment(false, trim(c.subrange(p + 1, j))));
                lemma_trimmed_concat(
                    text_before(c, t, p) + math_segment(false, trim(c.subrange(p + 1, j))),
                    segments_from(c, j + 1, j + 1),
                );
            },
            None => {
                lemma_segments_from_trimmed(c, p + 1, p + 1);
                lemma_trimmed_concat(text_before(c, t, p), seq![SegmentView::Text(c.subrange(t, p + 1))]);
                lemma_trimmed_concat(
                    text_before(c, t, p) + seq![SegmentView::Text(c.subrange(t, p + 1))],
                    segments_from(c, p + 1, p + 1),
                );
            },
        }
    }
}

/// Every math segment that `parse_math_segments` finds is non-empty and
/// already trimmed.
pub proof fn lemma_math_segments_trimmed(c: Seq<char>)
    ensures
        math_is_trimmed(math_segments(c)),
{
    lemma_segments_from_trimmed(c, 0, 0);
}

/// The text a segment stands for: text as it is, inline math between `$`,
/// display math between `$$`.
pub open spec fn segment_text(seg: SegmentView) -> Seq<char> {
    match seg {
        SegmentView::Text(t) => t,
        SegmentView::InlineMath(m) => seq!['$'] + m + seq!['$'],
        SegmentView::DisplayMath(m) => seq!['$', '$'] + m + seq!['$', '$'],
    }
}

/// The text that segments stand for, one after the other.
pub open spec fn rebuilt(segs: Seq<SegmentView>) -> Seq<char>
    decreases segs.len(),
{
    if segs.len() == 0 {
        seq![]
    } else {
        rebuilt(segs.drop_last()) + segment_text(segs.last())
    }
}

/// The number of inline math segments.
pub open spec fn inline_count(segs: Seq<SegmentView>) -> nat
    decreases segs.len(),
{
    if segs.len() == 0 {
        0
    } else {
        inline_count(segs.drop_last()) + if segs.last() is InlineMath {
            1nat
        } else {
            0nat
        }
    }
}

/// A text part of a message with inline math: no `$`, and no backslash at
/// its end (which would escape the `$` that follows).
pub open spec fn plain_part(t: Seq<char>) -> bool {
    !t.contains('$') && (t.len() == 0 || t.last() != '\\')
}

/// An inline math body that comes back as it was: not empty, nothing to
/// trim, no `$` and no line break.
pub open spec fn inline_body(m: Seq<char>) -> bool {
    m.len() > 0 && trim(m) == m && !m.contains('$') && !m.contains('\n')
}

/// The text `ts[k]`, `$ms[k]$`, `ts[k + 1]`, ... up to the last text.
pub open spec fn inline_joined(ts: Seq<Seq<char>>, ms: Seq<Seq<char>>, k: int) -> Seq<char>
    decreases ms.len() - k,
{
    if k < 0 || k >= ms.len() {
        ts[k]
    } else {
        ts[k] + seq!['$'] + ms[k] + seq!['$'] + inline_joined(ts, ms, k + 1)
    }
}

/// The segments of `inline_joined(ts, ms, k)`: every non-empty text and
/// every math body, in order.
pub open spec fn inline_pieces(ts: Seq<Seq<char>>, ms: Seq<Seq<char>>, k: int) -> Seq<SegmentView>
    decreases ms.len() - k,
{
    if k < 0 || k >= ms.len() {
        text_before(ts[k], 0, ts[k].len() as int)
    } else {
        text_before(ts[k], 0, ts[k].len() as int) + seq![SegmentView::InlineMath(ms[k])]
            + inline_pieces(ts, ms, k + 1)
    }
}

proof fn lemma_skip_text(c: Seq<char>, t: int, p: int, s: int)
    requires
        0 <= p <= s <= c.len(),
        forall|j: int| p <= j < s ==> c[j] != '$',
    ensures
        segments_from(c, t, p) == segments_from(c, t, s),
    decreases s - p,
{
    if p < s {
        lemma_skip_text(c, t, p + 1, s);
    }
}

proof fn lemma_find_closing(c: Seq<char>, j: int, e: int)
    requires
        0 <= j <= e < c.len(),
        c[e] == '$',
        forall|i: int| j <= i < e ==> c[i] != '$' && c[i] != '\n',
    ensures
        find_dollar_on_line(c, j) == Some(e),
    decreases e - j,
{
    if j < e {
        lemma_find_closing(c, j + 1, e);
    }
}

proof fn lemma_not_in(x: Seq<char>, ch: char, i: int)
    requires
        !x.contains(ch),
        0 <= i < x.len(),
    ensures
        x[i] != ch,
{
    if x[i] == ch {
        assert(x.contains(ch));
    }
}

proof fn lemma_inline_from(c: Seq<char>, ts: Seq<Seq<char>>, ms: Seq<Seq<char>>, k: int, q: int)
    requires
        ts.len() == ms.len() + 1,
        forall|i: int| 0 <= i < ts.len() ==> plain_part(#[trigger] ts[i]),
        forall|i: int| 0 <= i < ms.len() ==> inline_body(#[trigger] ms[i]),
        0 <= k <= ms.len(),
        0 <= q <= c.len(),
        c.subrange(q, c.len() as int) == inline_joined(ts, ms, k),
        q == 0 || c[q - 1] == '$',
    ensures
        segments_from(c, q, q) == inline_pieces(ts, ms, k),
    decreases ms.len() - k,
{
    let t = ts[k];
    let s = q + t.len();
    let rest = c.subrange(q, c.len() as int);
    assert(plain_part(t));
    if k == ms.len() {
        assert(rest == t);
    } else {
        assert(rest == t + seq!['$'] + ms[k] + seq!['$'] + inline_joined(ts, ms, k + 1));
    }
    assert(rest.len() >= t.len());
    assert forall|j: int| q <= j < s implies c[j] != '$' by {
        assert(c[j] == rest[j - q]);
        assert(rest[j - q] == t[j - q]);
        lemma_not_in(t, '$', j - q);
    }
    if k == ms.len() {
        assert forall|j: int| q <= j < c.len() implies c[j] != '$' by {}
        lemma_no_dollar_from(c, q, q);
        assert(t.subrange(0, t.len() as int) =~= t);
    } else {
        let m = ms[k];
        assert(inline_body(m));
        let e = s + 1 + m.len();
        assert(c[s] == rest[t.len() as int]);
        assert(c[s] == '$');
        assert(c[s + 1] == rest[t.len() + 1int]);
        assert(c[s + 1] == m[0]);
        lemma_not_in(m, '$', 0);
        assert(c[e] == rest[t.len() + 1int + m.len()]);
        assert(c[e] == '$');
        assert forall|i: int| s + 1 <= i < e implies c[i] == m[i - s - 1] by {
            assert(c[i] == rest[i - q]);
        }
        assert forall|i: int| s + 1 <= i < e implies c[i] != '$' && c[i] != '\n' by {
            lemma_not_in(m, '$', i - s - 1);
            lemma_not_in(m, '\n', i - s - 1);
        }
        lemma_find_closing(c, s + 1, e);
        assert(c.subrange(s + 1, e) =~= m);
        if s > 0 {
            if t.len() > 0 {
                assert(c[s - 1] == rest[t.len() - 1]);
                assert(c[s - 1] == t.last());
            } else {
                assert(c[s - 1] == c[q - 1]);
            }
        }
        lemma_skip_text(c, q, q, s);
        let tail = inline_joined(ts, ms, k + 1);
        assert(rest.len() == t.len() + 2 + m.len() + tail.len());
        assert forall|i: int| 0 <= i < tail.len() implies c.subrange(e + 1, c.len() as int)[i]
            == tail[i] by {
            assert(c[e + 1 + i] == rest[e + 1 + i - q]);
        }
        assert(c.subrange(e + 1, c.len() as int) =~= tail);
        lemma_inline_from(c, ts, ms, k + 1, e + 1);
        assert(c.subrange(q, s) =~= t);
        assert(t.subrange(0, t.len() as int) =~= t);
        assert(text_before(c, q, s) == text_before(t, 0, t.len() as int));
        assert(math_segment(false, trim(c.subrange(s + 1, e))) == seq![SegmentView::InlineMath(m)]);
    }
}

proof fn lemma_rebuilt_add(a: Seq<SegmentView>, b: Seq<SegmentView>)
    ensures
        rebuilt(a + b) == rebuilt(a) + rebuilt(b),
        inline_count(a + b) == inline_count(a) + inline_count(b),
    decreases b.len(),
{
    if b.len() == 0 {
        assert(a + b =~= a);
        assert(rebuilt(a) + rebuilt(b) =~= rebuilt(a));
    } else {
        lemma_rebuilt_add(a, b.drop_last());
        assert((a + b).drop_last() =~= a + b.drop_last());
        assert(rebuilt(a) + rebuilt(b.drop_last()) + segment_text(b.last()) =~= rebuilt(a) + (
        rebuilt(b.drop_last()) + segment_text(b.last())));
    }
}

proof fn lemma_inline_pieces_text(ts: Seq<Seq<char>>, ms: Seq<Seq<char>>, k: int)
    requires
        ts.len() == ms.len() + 1,
        0 <= k <= ms.len(),
    ensures
        rebuilt(inline_pieces(ts, ms, k)) == inline_joined(ts, ms, k),
        inline_count(inline_pieces(ts, ms, k)) == ms.len() - k,
        forall|i: int|
            0 <= i < inline_pieces(ts, ms, k).len() ==> !(#[trigger] inline_pieces(ts, ms, k)[i] is DisplayMath),
    decreases ms.len() - k,
{
    let t = ts[k];
    let tp = text_before(t, 0, t.len() as int);
    assert(t.subrange(0, t.len() as int) =~= t);
    assert(rebuilt(Seq::<SegmentView>::empty()) == Seq::<char>::empty());
    assert(inline_count(Seq::<SegmentView>::empty()) == 0);
    if t.len() > 0 {
        assert(tp.drop_last() =~= Seq::<SegmentView>::empty());
        assert(Seq::<char>::empty() + t =~= t);
    } else {
        assert(tp =~= Seq::<SegmentView>::empty());
        assert(t =~= Seq::<char>::empty());
    }
    assert(rebuilt(tp) == t);
    assert(inline_count(tp) == 0);
    if k < ms.len() {
        let mp = seq![SegmentView::InlineMath(ms[k])];
        lemma_inline_pieces_text(ts, ms, k + 1);
        let rest = inline_pieces(ts, ms, k + 1);
        lemma_rebuilt_add(tp, mp);
        lemma_rebuilt_add(tp + mp, rest);
        assert(mp.drop_last() =~= Seq::<SegmentView>::empty());
        assert(rebuilt(mp) =~= seq!['$'] + ms[k] + seq!['$']);
        assert(inline_pieces(ts, ms, k) == tp + mp + rest);
        assert(t + (seq!['$'] + ms[k] + seq!['$']) + inline_joined(ts, ms, k + 1) =~= t + seq!['$']
            + ms[k] + seq!['$'] + inline_joined(ts, ms, k + 1));
        assert forall|i: int|
            0 <= i < inline_pieces(ts, ms, k).len() implies !(#[trigger] inline_pieces(ts, ms, k)[i] is DisplayMath) by {
            let all = tp + mp + rest;
            if i >= tp.len() + 1 {
                assert(all[i] == rest[i - tp.len() - 1]);
            }
        }
    }
}

/// A text made of plain parts and inline math between `$` splits back into
/// exactly those parts: for texts `ts` with no `$` and no trailing
/// backslash, and math bodies `ms` that are not empty, already trimmed and
/// hold no `$` and no line break, the segments of `ts[0] $ms[0]$ ts[1] ...`
/// are the non-empty texts and the math bodies in order. Writing the
/// segments back out gives the input, and there are as many inline math
/// segments as math bodies, and no display math.
pub proof fn lemma_inline_math_round_trip(ts: Seq<Seq<char>>, ms: Seq<Seq<char>>)
    requires
        ts.len() == ms.len() + 1,
        forall|i: int| 0 <= i < ts.len() ==> plain_part(#[trigger] ts[i]),
        forall|i: int| 0 <= i < ms.len() ==> inline_body(#[trigger] ms[i]),
    ensures
        math_segments(inline_joined(ts, ms, 0)) == inline_pieces(ts, ms, 0),
        rebuilt(math_segments(inline_joined(ts, ms, 0))) == inline_joined(ts, ms, 0),
        inline_count(math_segments(inline_joined(ts, ms, 0))) == ms.len(),
        forall|i: int|
            0 <= i < math_segments(inline_joined(ts, ms, 0)).len() ==> !(#[trigger] math_segments(
                inline_joined(ts, ms, 0),
            )[i] is DisplayMath),
{
    let c = inline_joined(ts, ms, 0);
    assert(c.subrange(0, c.len() as int) =~= c);
    lemma_inline_from(c, ts, ms, 0, 0);
    lemma_inline_pieces_text(ts, ms, 0);
}

/// `$$` starts at position `i` of `c`.
pub open spec fn double_dollar_at(c: Seq<char>, i: int) -> bool {
    0 <= i && i + 1 < c.len() && c[i] == '$' && c[i + 1] == '$'
}

/// The search for the closing `$$` finds the first `$$` at or after
/// `from`, wherever it is: line breaks and single `$` in between do not
/// stop it. When it finds none, there is no `$$` at or after `from`.
pub proof fn lemma_find_double_dollar_is_first(c: Seq<char>, from: int)
    requires
        0 <= from,
    ensures
        match find_double_dollar(c, from) {
            Some(j) => {
                &&& from <= j
                &&& double_dollar_at(c, j)
                &&& forall|i: int| from <= i < j ==> !#[trigger] double_dollar_at(c, i)
            },
            None => forall|i: int| from <= i ==> !#[trigger] double_dollar_at(c, i),
        },
    decreases c.len() - from,
{
    if from + 1 < c.len() && !(c[from] == '$' && c[from + 1] == '$') {
        lemma_find_double_dollar_is_first(c, from + 1);
    }
    if from + 1 >= c.len() {
        assert forall|i: int| from <= i implies !#[trigger] double_dollar_at(c, i) by {}
    }
}

/// The text `ts[k]`, `$$ms[k]$$`, `ts[k + 1]`, ... up to the last text.
pub open spec fn display_joined(ts: Seq<Seq<char>>, ms: Seq<Seq<char>>, k: int) -> Seq<char>
    decreases ms.len() - k,
{
    if k < 0 || k >= ms.len() {
        ts[k]
    } else {
        ts[k] + seq!['$', '$'] + ms[k] + seq!['$', '$'] + display_joined(ts, ms, k + 1)
    }
}

/// The segments expected of `display_joined(ts, ms, k)`: every non-empty
/// text as it is, and every math body trimmed, as display math, unless it is
/// blank.
pub open spec fn display_pieces(ts: Seq<Seq<char>>, ms: Seq<Seq<char>>, k: int) -> Seq<SegmentView>
    decreases ms.len() - k,
{
    let t = ts[k];
    let text: Seq<SegmentView> = if t.len() > 0 {
        seq![SegmentView::Text(t)]
    } else {
        seq![]
    };
    if k < 0 || k >= ms.len() {
        text
    } else {
        let m = trim(ms[k]);
        let math: Seq<SegmentView> = if m.len() > 0 {
            seq![SegmentView::DisplayMath(m)]
        } else {
            seq![]
        };
        text + math + display_pieces(ts, ms, k + 1)
    }
}

proof fn lemma_find_dd_closing(c: Seq<char>, j: int, e: int)
    requires
        0 <= j <= e,
        e + 1 < c.len(),
        c[e] == '$',
        c[e + 1] == '$',
        forall|i: int| j <= i < e ==> c[i] != '$',
    ensures
        find_double_dollar(c, j) == Some(e),
    decreases e - j,
{
    if j < e {
        lemma_find_dd_closing(c, j + 1, e);
    }
}

proof fn lemma_display_from(c: Seq<char>, ts: Seq<Seq<char>>, ms: Seq<Seq<char>>, k: int, q: int)
    requires
        ts.len() == ms.len() + 1,
        forall|i: int| 0 <= i < ts.len() ==> !(#[trigger] ts[i]).contains('$'),
        forall|i: int| 0 <= i < ms.len() ==> !(#[trigger] ms[i]).contains('$'),
        0 <= k <= ms.len(),
        0 <= q <= c.len(),
        c.subrange(q, c.len() as int) == display_joined(ts, ms, k),
    ensures
        segments_from(c, q, q) == display_pieces(ts, ms, k),
    decreases ms.len() - k,
{
    let t = ts[k];
    let s = q + t.len();
    let rest = c.subrange(q, c.len() as int);
    assert(!t.contains('$'));
    if k == ms.len() {
        assert(rest == t);
    } else {
        assert(rest == t + seq!['$', '$'] + ms[k] + seq!['$', '$'] + display_joined(ts, ms, k + 1));
    }
    assert(rest.len() >= t.len());
    assert forall|j: int| q <= j < s implies c[j] != '$' by {
        assert(c[j] == rest[j - q]);
        assert(rest[j - q] == t[j - q]);
        lemma_not_in(t, '$', j - q);
    }
    if k == ms.len() {
        assert forall|j: int| q <= j < c.len() implies c[j] != '$' by {}
        lemma_no_dollar_from(c, q, q);
    } else {
        let m = ms[k];
        assert(!m.contains('$'));
        let e = s + 2 + m.len();
        let tail = display_joined(ts, ms, k + 1);
        assert(rest.len() == t.len() + 4 + m.len() + tail.len());
        assert(c[s] == rest[t.len() as int]);
        assert(c[s + 1] == rest[t.len() + 1int]);
        assert(c[e] == rest[t.len() + 2int + m.len()]);
        assert(c[e + 1] == rest[t.len() + 3int + m.len()]);
        assert forall|i: int| s + 2 <= i < e implies c[i] == m[i - s - 2] by {
            assert(c[i] == rest[i - q]);
        }
        assert forall|i: int| s + 2 <= i < e implies c[i] != '$' by {
            lemma_not_in(m, '$', i - s - 2);
        }
        lemma_find_dd_closing(c, s + 2, e);
        assert(c.subrange(s + 2, e) =~= m);
        lemma_skip_text(c, q, q, s);
        assert forall|i: int| 0 <= i < tail.len() implies c.subrange(e + 2, c.len() as int)[i]
            == tail[i] by {
            assert(c[e + 2 + i] == rest[e + 2 + i - q]);
        }
        assert(c.subrange(e + 2, c.len() as int) =~= tail);
        lemma_display_from(c, ts, ms, k + 1, e + 2);
        assert(c.subrange(q, s) =~= t);
        if t.len() == 0 {
            assert(text_before(c, q, s) =~= Seq::<SegmentView>::empty());
        }
    }
}

/// Display math between `$$` is found whatever its body holds besides `$`,
/// line breaks included: for texts `ts` and math bodies `ms` with no `$`,
/// the segments of `ts[0] $$ms[0]$$ ts[1] ...` are the non-empty texts as
/// they are and the bodies, trimmed, as display math (a blank body gives
/// none), in order.
pub proof fn lemma_display_math_found(ts: Seq<Seq<char>>, ms: Seq<Seq<char>>)
    requires
        ts.len() == ms.len() + 1,
        forall|i: int| 0 <= i < ts.len() ==> !(#[trigger] ts[i]).contains('$'),
        forall|i: int| 0 <= i < ms.len() ==> !(#[trigger] ms[i]).contains('$'),
    ensures
        math_segments(display_joined(ts, ms, 0)) == display_pieces(ts, ms, 0),
{
    let c = display_joined(ts, ms, 0);
    assert(c.subrange(0, c.len() as int) =~= c);
    lemma_display_from(c, ts, ms, 0, 0);
}

/// A display math block written over several lines is one display math
/// segment: `$$`, a line break, a body with no `$`, a line break and `$$`
/// give the trimmed lines as display math (nothing when they are blank).
pub proof fn lemma_display_math_over_lines(m: Seq<char>)
    requires
        !m.contains('$'),
    ensures
        math_segments(seq!['$', '$', '\n'] + m + seq!['\n', '$', '$']) == if trim(
            seq!['\n'] + m + seq!['\n'],
        ).len() > 0 {
            seq![SegmentView::DisplayMath(trim(seq!['\n'] + m + seq!['\n']))]
        } else {
            Seq::<SegmentView>::empty()
        },
{
    let body = seq!['\n'] + m + seq!['\n'];
    assert(!body.contains('$')) by {
        if body.contains('$') {
            let i = choose|i: int| 0 <= i < body.len() && body[i] == '$';
            assert(m[i - 1] == '$');
            assert(m.contains('$'));
        }
    }
    let e = Seq::<char>::empty();
    let ts = seq![e, e];
    let ms = seq![body];
    assert(!e.contains('$'));
    assert(display_joined(ts, ms, 1) == e);
    assert(display_joined(ts, ms, 0) =~= seq!['$', '$', '\n'] + m + seq!['\n', '$', '$']);
    lemma_display_math_found(ts, ms);
    assert(display_pieces(ts, ms, 1) =~= Seq::<SegmentView>::empty());
    if trim(body).len() > 0 {
        assert(display_pieces(ts, ms, 0) =~= seq![SegmentView::DisplayMath(trim(body))]);
    } else {
        assert(display_pieces(ts, ms, 0) =~= Seq::<SegmentView>::empty());
    }
}

} // verus!
