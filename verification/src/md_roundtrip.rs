//! Restoring protected math gives the text back, and the placeholders that
//! protecting hands out tell the math blocks apart.

use vstd::prelude::*;
use crate::math_render::{find_dollar_on_line, lemma_find_dollar_on_line};
use crate::md_render::{
    dollar, double_dollar, is_numbered, lemma_next_opener, lemma_protect_numbering, marker, next_opener, paren_open, placeholder,
    paren_close, protect_from, protected, restored, BlockView, Opener,
};
use crate::text::{decimal, digit_char, find_pat, lemma_find_pat, replace_all, replace_from, trim};

verus! {

/// `p` occurs in `x` at position `i`.
pub open spec fn occurs_at(x: Seq<char>, p: Seq<char>, i: int) -> bool {
    0 <= i && i + p.len() <= x.len() && x.subrange(i, i + p.len()) == p
}

/// Replacing starts scanning at `a.len() + j` exactly where it would start
/// scanning `x` at `j`.
proof fn lemma_replace_shift(a: Seq<char>, x: Seq<char>, p: Seq<char>, r: Seq<char>, j: int)
    requires
        0 <= j,
        p.len() > 0,
    ensures
        replace_from(a + x, p, r, a.len() + j) == replace_from(x, p, r, j),
    decreases x.len() - j,
{
    let ax = a + x;
    let i = a.len() + j;
    if j < x.len() {
        assert(ax[i] == x[j]);
        if j + p.len() <= x.len() {
            assert(ax.subrange(i, i + p.len()) =~= x.subrange(j, j + p.len()));
        }
        lemma_replace_shift(a, x, p, r, j + 1);
        if j + p.len() <= x.len() && x.subrange(j, j + p.len()) == p {
            lemma_replace_shift(a, x, p, r, j + p.len());
        }
    }
}

/// A prefix with no marker is copied as it is when the pattern starts with
/// a marker.
proof fn lemma_replace_marker_free_prefix(
    a: Seq<char>,
    x: Seq<char>,
    p: Seq<char>,
    r: Seq<char>,
    i: int,
)
    requires
        0 <= i <= a.len(),
        !a.contains(marker()),
        p.len() > 0,
        p[0] == marker(),
    ensures
        replace_from(a + x, p, r, i) == a.subrange(i, a.len() as int) + replace_from(x, p, r, 0),
    decreases a.len() - i,
{
    if i == a.len() {
        lemma_replace_shift(a, x, p, r, 0);
        assert(a.subrange(i, a.len() as int) =~= Seq::<char>::empty());
        assert(replace_from(a + x, p, r, i) =~= a.subrange(i, a.len() as int) + replace_from(x, p, r, 0));
    } else {
        let ax = a + x;
        assert(ax[i] == a[i]);
        if ax[i] == marker() {
            assert(a.contains(marker()));
        }
        if i + p.len() <= ax.len() {
            assert(ax.subrange(i, i + p.len())[0] == ax[i]);
        }
        lemma_replace_marker_free_prefix(a, x, p, r, i + 1);
        assert(a.subrange(i, a.len() as int) =~= seq![a[i]] + a.subrange(i + 1, a.len() as int));
    }
}

proof fn lemma_replace_all_marker_free_prefix(a: Seq<char>, x: Seq<char>, p: Seq<char>, r: Seq<char>)
    requires
        !a.contains(marker()),
        p.len() > 0,
        p[0] == marker(),
    ensures
        replace_all(a + x, p, r) == a + replace_all(x, p, r),
{
    lemma_replace_marker_free_prefix(a, x, p, r, 0);
    assert(a.subrange(0, a.len() as int) =~= a);
}

/// Every block's placeholder is non-empty and starts with a marker.
pub open spec fn blocks_marked(b: Seq<BlockView>) -> bool {
    forall|i: int| 0 <= i < b.len() ==> (#[trigger] b[i]).0.len() > 0 && b[i].0[0] == marker()
}

proof fn lemma_restored_marker_free_prefix(a: Seq<char>, x: Seq<char>, b: Seq<BlockView>)
    requires
        !a.contains(marker()),
        blocks_marked(b),
    ensures
        restored(a + x, b) == a + restored(x, b),
    decreases b.len(),
{
    if b.len() > 0 {
        let b0 = b.drop_last();
        assert(blocks_marked(b0)) by {
            assert forall|i: int| 0 <= i < b0.len() implies (#[trigger] b0[i]).0.len() > 0 && b0[i].0[0] == marker() by {
                assert(b0[i] == b[i]);
            }
        }
        lemma_restored_marker_free_prefix(a, x, b0);
        assert(b[b.len() - 1] == b.last());
        lemma_replace_all_marker_free_prefix(a, restored(x, b0), b.last().0, b.last().1);
    }
}

proof fn lemma_restored_cons(t: Seq<char>, x: BlockView, b: Seq<BlockView>)
    ensures
        restored(t, seq![x] + b) == restored(replace_all(t, x.0, x.1), b),
    decreases b.len(),
{
    let xb = seq![x] + b;
    if b.len() == 0 {
        assert(xb.drop_last() =~= Seq::<BlockView>::empty());
        assert(xb.last() == x);
        assert(restored(t, xb.drop_last()) == t);
        assert(restored(t, xb) == replace_all(t, x.0, x.1));
        assert(restored(replace_all(t, x.0, x.1), b) == replace_all(t, x.0, x.1));
    } else {
        lemma_restored_cons(t, x, b.drop_last());
        assert(xb.drop_last() =~= seq![x] + b.drop_last());
        assert(xb.last() == b.last());
        assert(restored(t, xb) == replace_all(restored(t, xb.drop_last()), b.last().0, b.last().1));
    }
}

/// With no occurrence of the pattern, replacing changes nothing.
proof fn lemma_replace_no_occurrence(x: Seq<char>, p: Seq<char>, r: Seq<char>, i: int)
    requires
        0 <= i <= x.len(),
        p.len() > 0,
        forall|j: int| !occurs_at(x, p, j),
    ensures
        replace_from(x, p, r, i) == x.subrange(i, x.len() as int),
    decreases x.len() - i,
{
    if i < x.len() {
        assert(!occurs_at(x, p, i));
        lemma_replace_no_occurrence(x, p, r, i + 1);
        assert(x.subrange(i, x.len() as int) =~= seq![x[i]] + x.subrange(i + 1, x.len() as int));
    } else {
        assert(x.subrange(i, x.len() as int) =~= Seq::<char>::empty());
    }
}

/// Replacing a pattern that the text starts with.
proof fn lemma_replace_leading(p: Seq<char>, x: Seq<char>, r: Seq<char>)
    requires
        p.len() > 0,
    ensures
        replace_all(p + x, p, r) == r + replace_all(x, p, r),
{
    assert((p + x).subrange(0, p.len() as int) =~= p);
    lemma_replace_shift(p, x, p, r, 0);
}

pub open spec fn is_digit(c: char) -> bool {
    '0' <= c && c <= '9'
}

proof fn lemma_decimal_digits(n: nat)
    ensures
        decimal(n).len() >= 1,
        forall|i: int| 0 <= i < decimal(n).len() ==> is_digit(#[trigger] decimal(n)[i]),
    decreases n,
{
    if n >= 10 {
        lemma_decimal_digits(n / 10);
        assert forall|i: int| 0 <= i < decimal(n).len() implies is_digit(#[trigger] decimal(n)[i]) by {
            if i < decimal(n / 10).len() {
                assert(decimal(n)[i] == decimal(n / 10)[i]);
            }
        }
    }
}

proof fn lemma_decimal_injective(a: nat, b: nat)
    requires
        decimal(a) == decimal(b),
    ensures
        a == b,
    decreases a,
{
    lemma_decimal_digits(a);
    lemma_decimal_digits(b);
    if a >= 10 {
        lemma_decimal_digits(a / 10);
    }
    if b >= 10 {
        lemma_decimal_digits(b / 10);
    }
    if a >= 10 && b >= 10 {
        assert(decimal(a).drop_last() =~= decimal(a / 10));
        assert(decimal(b).drop_last() =~= decimal(b / 10));
        lemma_decimal_injective(a / 10, b / 10);
        assert(decimal(a).last() == digit_char(a % 10));
        assert(decimal(b).last() == digit_char(b % 10));
        assert(a % 10 == b % 10);
    } else if a >= 10 {
        assert(decimal(a).len() == decimal(a / 10).len() + 1);
    } else if b >= 10 {
        assert(decimal(b).len() == decimal(b / 10).len() + 1);
    } else {
        assert(decimal(a)[0] == digit_char(a));
        assert(decimal(b)[0] == digit_char(b));
    }
}

/// The letter that tells display from inline placeholders.
pub open spec fn is_kind_letter(c: char) -> bool {
    c == 'D' || c == 'I'
}

proof fn lemma_placeholder_shape(k: nat, kind: char)
    ensures
        placeholder(k, kind).len() == decimal(k).len() + 7,
        placeholder(k, kind).len() >= 8,
        placeholder(k, kind)[0] == marker(),
        placeholder(k, kind)[1] == 'M',
        placeholder(k, kind)[2] == 'A',
        placeholder(k, kind)[3] == 'T',
        placeholder(k, kind)[4] == 'H',
        forall|i: int| 0 <= i < decimal(k).len() ==> placeholder(k, kind)[5 + i] == decimal(k)[i],
        placeholder(k, kind)[5 + decimal(k).len() as int] == kind,
        placeholder(k, kind)[6 + decimal(k).len() as int] == marker(),
        is_kind_letter(kind) ==> forall|i: int|
            0 < i < placeholder(k, kind).len() - 1 ==> #[trigger] placeholder(k, kind)[i]
                != marker(),
{
    lemma_decimal_digits(k);
    let d = decimal(k);
    let p = placeholder(k, kind);
    assert forall|i: int| 0 <= i < d.len() implies p[5 + i] == d[i] by {}
    if is_kind_letter(kind) {
        assert forall|i: int| 0 < i < p.len() - 1 implies #[trigger] p[i] != marker() by {
            if 5 <= i < 5 + d.len() {
                assert(p[i] == d[i - 5]);
                assert(is_digit(d[i - 5]));
            }
        }
    }
}

/// A placeholder never starts where a differently numbered one does.
proof fn lemma_placeholders_differ(j: nat, kj: char, k: nat, kk: char, t: Seq<char>)
    requires
        j != k,
        is_kind_letter(kj),
        is_kind_letter(kk),
    ensures
        !occurs_at(placeholder(j, kj) + t, placeholder(k, kk), 0),
{
    let x = placeholder(j, kj) + t;
    let p = placeholder(k, kk);
    lemma_placeholder_shape(j, kj);
    lemma_placeholder_shape(k, kk);
    lemma_decimal_digits(j);
    lemma_decimal_digits(k);
    let dj = decimal(j);
    let dk = decimal(k);
    if occurs_at(x, p, 0) {
        assert forall|i: int| 0 <= i < p.len() implies x[i] == p[i] by {
            assert(x.subrange(0, p.len() as int)[i] == x[i]);
        }
        if dk.len() == dj.len() {
            assert forall|i: int| 0 <= i < dk.len() implies dk[i] == dj[i] by {
                assert(x[5 + i] == p[5 + i]);
            }
            assert(dk =~= dj);
            lemma_decimal_injective(j, k);
        } else if dk.len() < dj.len() {
            assert(x[5 + dk.len() as int] == dj[dk.len() as int]);
            assert(is_digit(dj[dk.len() as int]));
            assert(p[5 + dk.len() as int] == kk);
        } else {
            assert(p[5 + dj.len() as int] == dk[dj.len() as int]);
            assert(is_digit(dk[dj.len() as int]));
            assert(x[5 + dj.len() as int] == kj);
        }
    }
}

/// `MATH` followed by a digit starts at position `i`.
pub open spec fn math_word_at(x: Seq<char>, i: int) -> bool {
    &&& 0 <= i
    &&& i + 5 <= x.len()
    &&& x[i] == 'M'
    &&& x[i + 1] == 'A'
    &&& x[i + 2] == 'T'
    &&& x[i + 3] == 'H'
    &&& is_digit(x[i + 4])
}

/// With no marker before it, an occurrence of a marker-led pattern lies in the rest.
proof fn lemma_no_occurrence_after_plain(a: Seq<char>, x: Seq<char>, p: Seq<char>)
    requires
        !a.contains(marker()),
        p.len() > 0,
        p[0] == marker(),
        forall|i: int| !occurs_at(x, p, i),
    ensures
        forall|i: int| !occurs_at(a + x, p, i),
{
    assert forall|i: int| !occurs_at(a + x, p, i) by {
        if occurs_at(a + x, p, i) {
            if i < a.len() {
                assert((a + x).subrange(i, i + p.len())[0] == (a + x)[i]);
                assert((a + x)[i] == a[i]);
                assert(a.contains(marker()));
            } else {
                assert((a + x).subrange(i, i + p.len()) =~= x.subrange(i - a.len(), i - a.len() + p.len()));
                assert(occurs_at(x, p, i - a.len()));
            }
        }
    }
}

/// After a placeholder numbered apart from `k`, and with the rest not
/// starting with `MATH` and a digit, placeholder `k` does not occur.
proof fn lemma_no_occurrence_after_placeholder(
    pre: Seq<char>,
    j: nat,
    kj: char,
    x: Seq<char>,
    k: nat,
    kk: char,
)
    requires
        !pre.contains(marker()),
        j != k,
        is_kind_letter(kj),
        is_kind_letter(kk),
        !math_word_at(x, 0),
        forall|i: int| !occurs_at(x, placeholder(k, kk), i),
    ensures
        forall|i: int| !occurs_at(pre + placeholder(j, kj) + x, placeholder(k, kk), i),
{
    let phj = placeholder(j, kj);
    let p = placeholder(k, kk);
    let whole = pre + phj + x;
    lemma_placeholder_shape(j, kj);
    lemma_placeholder_shape(k, kk);
    lemma_decimal_digits(k);
    assert forall|i: int| !occurs_at(whole, p, i) by {
        if occurs_at(whole, p, i) {
            assert forall|m: int| 0 <= m < p.len() implies whole[i + m] == p[m] by {
                assert(whole.subrange(i, i + p.len())[m] == whole[i + m]);
            }
            let a = pre.len() as int;
            let b = (pre.len() + phj.len()) as int;
            if i < a {
                assert(whole[i] == pre[i]);
                assert(pre.contains(marker()));
            } else if i == a {
                lemma_placeholders_differ(j, kj, k, kk, x);
                assert(whole.subrange(i, i + p.len()) =~= (phj + x).subrange(0, p.len() as int));
            } else if i < b - 1 {
                assert(whole[i] == phj[i - a]);
            } else if i == b - 1 {
                assert forall|m: int| 0 <= m < 5 implies x[m] == whole[b + m] by {}
                assert(whole[b] == p[1]);
                assert(whole[b + 4] == p[5]);
                assert(p[5] == decimal(k)[0]);
                assert(math_word_at(x, 0));
            } else {
                assert(whole.subrange(i, i + p.len()) =~= x.subrange(i - b, i - b + p.len()));
                assert(occurs_at(x, p, i - b));
            }
        }
    }
}

/// A plain condition under which the placeholders stay apart: no object
/// replacement character (the placeholders' bracket), no `\\(`, and no `$`
/// directly followed by `MATH` and a digit (which, right after a math
/// block, could join that block's placeholder end to the next placeholder).
pub open spec fn no_math_word_after_dollar(c: Seq<char>) -> bool {
    &&& !c.contains(marker())
    &&& find_pat(c, paren_open(), 0) is None
    &&& forall|i: int| #[trigger] math_word_at(c, i) ==> i == 0 || c[i - 1] != '$'
}

proof fn lemma_no_paren_from(c: Seq<char>, q: int)
    requires
        0 <= q,
        find_pat(c, paren_open(), 0) is None,
    ensures
        find_pat(c, paren_open(), q) is None,
{
    lemma_find_pat(c, paren_open(), 0);
    lemma_find_pat(c, paren_open(), q);
    if let Some(j) = find_pat(c, paren_open(), q) {
        assert(c.subrange(j, j + paren_open().len()) == paren_open());
    }
}

proof fn lemma_sub_no_marker(c: Seq<char>, a: int, b: int)
    requires
        0 <= a <= b <= c.len(),
        !c.contains(marker()),
    ensures
        !c.subrange(a, b).contains(marker()),
{
    if c.subrange(a, b).contains(marker()) {
        let i = choose|i: int| 0 <= i < c.subrange(a, b).len() && c.subrange(a, b)[i] == marker();
        assert(c[a + i] == marker());
        assert(c.contains(marker()));
    }
}

proof fn lemma_concat_no_marker(a: Seq<char>, b: Seq<char>)
    requires
        !a.contains(marker()),
        !b.contains(marker()),
    ensures
        !(a + b).contains(marker()),
{
    if (a + b).contains(marker()) {
        let i = choose|i: int| 0 <= i < (a + b).len() && (a + b)[i] == marker();
        if i < a.len() {
            assert(a[i] == marker());
            assert(a.contains(marker()));
        } else {
            assert(b[i - a.len()] == marker());
            assert(b.contains(marker()));
        }
    }
}

proof fn lemma_dollars_no_marker()
    ensures
        !double_dollar().contains(marker()),
        !dollar().contains(marker()),
{
    if double_dollar().contains(marker()) {
        let i = choose|i: int| 0 <= i < double_dollar().len() && double_dollar()[i] == marker();
    }
    if dollar().contains(marker()) {
        let i = choose|i: int| 0 <= i < dollar().len() && dollar()[i] == marker();
    }
}

proof fn lemma_prefix_not_math_word(c: Seq<char>, q: int, s: int, x: Seq<char>, y: Seq<char>)
    requires
        0 <= q <= s <= c.len(),
        x.len() > 0,
        x[0] == marker() || x[0] == '$',
        !math_word_at(c, q),
    ensures
        !math_word_at(c.subrange(q, s) + x + y, 0),
{
    let pre = c.subrange(q, s);
    let r = pre + x + y;
    if math_word_at(r, 0) {
        if pre.len() >= 5 {
            assert forall|m: int| 0 <= m < 5 implies r[m] == c[q + m] by {
                assert(r[m] == pre[m]);
            }
            assert(math_word_at(c, q));
        } else {
            assert(r[pre.len() as int] == x[0]);
        }
    }
}

/// What protecting yields from just after a `$` never starts with `MATH`
/// and a digit.
proof fn lemma_rest_not_math_word(c: Seq<char>, q: int, j: nat)
    requires
        no_math_word_after_dollar(c),
        0 < q <= c.len(),
        c[q - 1] == '$',
    ensures
        !math_word_at(protect_from(c, q, j).0, 0),
{
    if q < c.len() {
        lemma_next_opener(c, q);
        lemma_no_paren_from(c, q);
        let r = protect_from(c, q, j);
        if math_word_at(c, q) {
            assert(q == 0 || c[q - 1] != '$');
        }
        assert(!math_word_at(c, q));
        match next_opener(c, q) {
            None => {
                if math_word_at(r.0, 0) {
                    assert forall|m: int| 0 <= m < 5 implies r.0[m] == c[q + m] by {}
                    assert(math_word_at(c, q));
                }
            },
            Some((Opener::DoubleDollar, s)) => {
                lemma_find_pat(c, double_dollar(), s + 2);
                lemma_placeholder_shape(j, 'D');
                match find_pat(c, double_dollar(), s + 2) {
                    Some(e) => lemma_prefix_not_math_word(c, q, s, placeholder(j, 'D'), protect_from(c, e + 2, j + 1).0),
                    None => lemma_prefix_not_math_word(c, q, s, double_dollar(), protect_from(c, s + 2, j).0),
                }
            },
            Some((Opener::Dollar, s)) => {
                lemma_find_dollar_on_line(c, s + 1);
                lemma_placeholder_shape(j, 'I');
                match find_dollar_on_line(c, s + 1) {
                    Some(e) => {
                        if trim(c.subrange(s + 1, e)).len() > 0 {
                            lemma_prefix_not_math_word(c, q, s, placeholder(j, 'I'), protect_from(c, e + 1, j + 1).0);
                        } else {
                            let x = dollar() + c.subrange(s + 1, e + 1);
                            assert(c.subrange(q, s) + dollar() + c.subrange(s + 1, e + 1) + protect_from(c, e + 1, j).0
                                =~= c.subrange(q, s) + x + protect_from(c, e + 1, j).0);
                            lemma_prefix_not_math_word(c, q, s, x, protect_from(c, e + 1, j).0);
                        }
                    },
                    None => lemma_prefix_not_math_word(c, q, s, dollar(), protect_from(c, s + 1, j).0),
                }
            },
            Some((Opener::Paren, s)) => {},
        }
    }
}

/// Placeholder `k` does not occur in what protecting yields from `q` on
/// when numbering there starts past `k`.
proof fn lemma_rest_has_no_placeholder(c: Seq<char>, q: int, j: nat, k: nat, kk: char)
    requires
        no_math_word_after_dollar(c),
        0 <= q,
        k < j,
        is_kind_letter(kk),
    ensures
        forall|i: int| !occurs_at(protect_from(c, q, j).0, placeholder(k, kk), i),
    decreases c.len() - q,
{
    let p = placeholder(k, kk);
    lemma_placeholder_shape(k, kk);
    let empty = Seq::<char>::empty();
    if q >= c.len() {
        assert forall|i: int| !occurs_at(protect_from(c, q, j).0, p, i) by {}
    } else {
        lemma_next_opener(c, q);
        lemma_no_paren_from(c, q);
        lemma_dollars_no_marker();
        match next_opener(c, q) {
            None => {
                lemma_sub_no_marker(c, q, c.len() as int);
                assert forall|i: int| !occurs_at(empty, p, i) by {}
                lemma_no_occurrence_after_plain(c.subrange(q, c.len() as int), empty, p);
                assert(c.subrange(q, c.len() as int) + empty =~= protect_from(c, q, j).0);
            },
            Some((Opener::DoubleDollar, s)) => {
                lemma_sub_no_marker(c, q, s);
                lemma_find_pat(c, double_dollar(), s + 2);
                match find_pat(c, double_dollar(), s + 2) {
                    Some(e) => {
                        lemma_rest_has_no_placeholder(c, e + 2, j + 1, k, kk);
                        lemma_rest_not_math_word(c, e + 2, j + 1);
                        lemma_no_occurrence_after_placeholder(c.subrange(q, s), j, 'D', protect_from(c, e + 2, j + 1).0, k, kk);
                    },
                    None => {
                        lemma_rest_has_no_placeholder(c, s + 2, j, k, kk);
                        lemma_concat_no_marker(c.subrange(q, s), double_dollar());
                        lemma_no_occurrence_after_plain(c.subrange(q, s) + double_dollar(), protect_from(c, s + 2, j).0, p);
                    },
                }
            },
            Some((Opener::Dollar, s)) => {
                lemma_sub_no_marker(c, q, s);
                lemma_find_dollar_on_line(c, s + 1);
                match find_dollar_on_line(c, s + 1) {
                    Some(e) => {
                        if trim(c.subrange(s + 1, e)).len() > 0 {
                            lemma_rest_has_no_placeholder(c, e + 1, j + 1, k, kk);
                            lemma_rest_not_math_word(c, e + 1, j + 1);
                            lemma_no_occurrence_after_placeholder(c.subrange(q, s), j, 'I', protect_from(c, e + 1, j + 1).0, k, kk);
                        } else {
                            lemma_rest_has_no_placeholder(c, e + 1, j, k, kk);
                            lemma_sub_no_marker(c, s + 1, e + 1);
                            lemma_concat_no_marker(c.subrange(q, s), dollar());
                            lemma_concat_no_marker(c.subrange(q, s) + dollar(), c.subrange(s + 1, e + 1));
                            lemma_no_occurrence_after_plain(
                                c.subrange(q, s) + dollar() + c.subrange(s + 1, e + 1),
                                protect_from(c, e + 1, j).0,
                                p,
                            );
                        }
                    },
                    None => {
                        lemma_rest_has_no_placeholder(c, s + 1, j, k, kk);
                        lemma_concat_no_marker(c.subrange(q, s), dollar());
                        lemma_no_occurrence_after_plain(c.subrange(q, s) + dollar(), protect_from(c, s + 1, j).0, p);
                    },
                }
            },
            Some((Opener::Paren, s)) => {},
        }
    }
}

/// Placeholder `p` occurs nowhere in `x`.
pub open spec fn free_of(x: Seq<char>, p: Seq<char>) -> bool {
    forall|i: int| !occurs_at(x, p, i)
}

/// Protecting `c` from `pos` on, with `k` placeholders issued before, puts
/// no block's placeholder again into the text that follows that block.
///
/// The only way one can turn up there is for the text between two later
/// blocks to spell it between their placeholders' brackets, as the text
/// `MATH0I` does in `$a$ $b$MATH0I$c$`.
pub open spec fn placeholders_apart(c: Seq<char>, pos: int, k: nat) -> bool
    decreases c.len() - pos,
{
    if pos < 0 || pos >= c.len() {
        true
    } else {
        proof {
            lemma_next_opener(c, pos);
        }
        match next_opener(c, pos) {
            None => true,
            Some((Opener::DoubleDollar, s)) => {
                proof {
                    lemma_find_pat(c, double_dollar(), s + 2);
                }
                match find_pat(c, double_dollar(), s + 2) {
                    Some(e) => free_of(protect_from(c, e + 2, k + 1).0, placeholder(k, 'D'))
                        && placeholders_apart(c, e + 2, k + 1),
                    None => placeholders_apart(c, s + 2, k),
                }
            },
            Some((Opener::Dollar, s)) => {
                proof {
                    lemma_find_dollar_on_line(c, s + 1);
                }
                match find_dollar_on_line(c, s + 1) {
                    Some(e) => if trim(c.subrange(s + 1, e)).len() > 0 {
                        free_of(protect_from(c, e + 1, k + 1).0, placeholder(k, 'I'))
                            && placeholders_apart(c, e + 1, k + 1)
                    } else {
                        placeholders_apart(c, e + 1, k)
                    },
                    None => placeholders_apart(c, s + 1, k),
                }
            },
            Some((Opener::Paren, s)) => {
                proof {
                    lemma_find_pat(c, paren_close(), s + 2);
                }
                match find_pat(c, paren_close(), s + 2) {
                    Some(e) => if trim(c.subrange(s + 2, e)).len() > 0 {
                        free_of(protect_from(c, e + 2, k + 1).0, placeholder(k, 'I'))
                            && placeholders_apart(c, e + 2, k + 1)
                    } else {
                        placeholders_apart(c, e + 2, k)
                    },
                    None => placeholders_apart(c, s + 2, k),
                }
            },
        }
    }
}

/// The texts for which restoring protected math gives the text back: no
/// object replacement character (the placeholders' bracket), no `\\(`
/// (whose math comes back between `$`), and no placeholder put again into
/// the protected text after its own block.
pub open spec fn round_trip_safe(c: Seq<char>) -> bool {
    &&& !c.contains(marker())
    &&& find_pat(c, paren_open(), 0) is None
    &&& placeholders_apart(c, 0, 0)
}

proof fn lemma_apart_from(c: Seq<char>, q: int, k: nat)
    requires
        no_math_word_after_dollar(c),
        0 <= q,
    ensures
        placeholders_apart(c, q, k),
    decreases c.len() - q,
{
    if q < c.len() {
        lemma_next_opener(c, q);
        lemma_no_paren_from(c, q);
        match next_opener(c, q) {
            None => {},
            Some((Opener::DoubleDollar, s)) => {
                lemma_find_pat(c, double_dollar(), s + 2);
                match find_pat(c, double_dollar(), s + 2) {
                    Some(e) => {
                        lemma_rest_has_no_placeholder(c, e + 2, k + 1, k, 'D');
                        lemma_apart_from(c, e + 2, k + 1);
                    },
                    None => lemma_apart_from(c, s + 2, k),
                }
            },
            Some((Opener::Dollar, s)) => {
                lemma_find_dollar_on_line(c, s + 1);
                match find_dollar_on_line(c, s + 1) {
                    Some(e) => {
                        if trim(c.subrange(s + 1, e)).len() > 0 {
                            lemma_rest_has_no_placeholder(c, e + 1, k + 1, k, 'I');
                            lemma_apart_from(c, e + 1, k + 1);
                        } else {
                            lemma_apart_from(c, e + 1, k);
                        }
                    },
                    None => lemma_apart_from(c, s + 1, k),
                }
            },
            Some((Opener::Paren, s)) => {},
        }
    }
}

/// Texts with no object replacement character, no `\\(` and no `$`
/// directly followed by `MATH` and a digit all keep their placeholders
/// apart, so the round trip holds for them.
pub proof fn lemma_no_math_word_after_dollar_is_safe(c: Seq<char>)
    requires
        no_math_word_after_dollar(c),
    ensures
        round_trip_safe(c),
{
    lemma_apart_from(c, 0, 0);
}

proof fn lemma_blocks_marked(c: Seq<char>, q: int, k: nat)
    ensures
        blocks_marked(protect_from(c, q, k).1),
{
    lemma_protect_numbering(c, q, k);
    let b = protect_from(c, q, k).1;
    assert forall|i: int| 0 <= i < b.len() implies (#[trigger] b[i]).0.len() > 0 && b[i].0[0] == marker() by {
        assert(is_numbered(b[i].0, (k + i) as nat));
        lemma_placeholder_shape((k + i) as nat, 'D');
        lemma_placeholder_shape((k + i) as nat, 'I');
    }
}

/// Restoring after replacing the leading placeholder by its math.
proof fn lemma_restore_block(
    c: Seq<char>,
    pre: Seq<char>,
    k: nat,
    kk: char,
    o: Seq<char>,
    rest: (Seq<char>, Seq<BlockView>),
    q2: int,
)
    requires
        0 <= q2,
        is_kind_letter(kk),
        rest == protect_from(c, q2, k + 1),
        free_of(rest.0, placeholder(k, kk)),
        !pre.contains(marker()),
        !o.contains(marker()),
    ensures
        restored(pre + placeholder(k, kk) + rest.0, seq![(placeholder(k, kk), o)] + rest.1) == pre
            + o + restored(rest.0, rest.1),
{
    let ph = placeholder(k, kk);
    lemma_placeholder_shape(k, kk);
    lemma_restored_cons(pre + ph + rest.0, (ph, o), rest.1);
    assert(pre + ph + rest.0 =~= pre + (ph + rest.0));
    lemma_replace_all_marker_free_prefix(pre, ph + rest.0, ph, o);
    lemma_replace_leading(ph, rest.0, o);
    lemma_replace_no_occurrence(rest.0, ph, o, 0);
    assert(rest.0.subrange(0, rest.0.len() as int) =~= rest.0);
    assert(pre + (o + rest.0) =~= (pre + o) + rest.0);
    lemma_blocks_marked(c, q2, k + 1);
    lemma_concat_no_marker(pre, o);
    lemma_restored_marker_free_prefix(pre + o, rest.0, rest.1);
}

proof fn lemma_round_trip_from(c: Seq<char>, q: int, k: nat)
    requires
        !c.contains(marker()),
        find_pat(c, paren_open(), 0) is None,
        placeholders_apart(c, q, k),
        0 <= q <= c.len(),
    ensures
        restored(protect_from(c, q, k).0, protect_from(c, q, k).1) == c.subrange(q, c.len() as int),
    decreases c.len() - q,
{
    let n = c.len() as int;
    if q == n {
        assert(c.subrange(q, n) =~= Seq::<char>::empty());
    } else {
        lemma_next_opener(c, q);
        lemma_no_paren_from(c, q);
        lemma_dollars_no_marker();
        let r = protect_from(c, q, k);
        match next_opener(c, q) {
            None => {},
            Some((Opener::DoubleDollar, s)) => {
                lemma_sub_no_marker(c, q, s);
                lemma_find_pat(c, double_dollar(), s + 2);
                let pre = c.subrange(q, s);
                match find_pat(c, double_dollar(), s + 2) {
                    Some(e) => {
                        let rest = protect_from(c, e + 2, k + 1);
                        let o = double_dollar() + c.subrange(s + 2, e) + double_dollar();
                        assert(o =~= c.subrange(s, e + 2));
                        lemma_sub_no_marker(c, s, e + 2);
                        lemma_restore_block(c, pre, k, 'D', o, rest, e + 2);
                        lemma_round_trip_from(c, e + 2, k + 1);
                        assert(pre + o + c.subrange(e + 2, n) =~= c.subrange(q, n));
                    },
                    None => {
                        let rest = protect_from(c, s + 2, k);
                        lemma_round_trip_from(c, s + 2, k);
                        lemma_concat_no_marker(pre, double_dollar());
                        lemma_blocks_marked(c, s + 2, k);
                        lemma_restored_marker_free_prefix(pre + double_dollar(), rest.0, rest.1);
                        assert(pre + double_dollar() + c.subrange(s + 2, n) =~= c.subrange(q, n));
                    },
                }
            },
            Some((Opener::Dollar, s)) => {
                lemma_sub_no_marker(c, q, s);
                lemma_find_dollar_on_line(c, s + 1);
                let pre = c.subrange(q, s);
                match find_dollar_on_line(c, s + 1) {
                    Some(e) => {
                        if trim(c.subrange(s + 1, e)).len() > 0 {
                            let rest = protect_from(c, e + 1, k + 1);
                            let o = dollar() + c.subrange(s + 1, e) + dollar();
                            assert(o =~= c.subrange(s, e + 1));
                            lemma_sub_no_marker(c, s, e + 1);
                            lemma_restore_block(c, pre, k, 'I', o, rest, e + 1);
                            lemma_round_trip_from(c, e + 1, k + 1);
                            assert(pre + o + c.subrange(e + 1, n) =~= c.subrange(q, n));
                        } else {
                            let rest = protect_from(c, e + 1, k);
                            lemma_round_trip_from(c, e + 1, k);
                            let a = pre + dollar() + c.subrange(s + 1, e + 1);
                            lemma_sub_no_marker(c, s + 1, e + 1);
                            lemma_concat_no_marker(pre, dollar());
                            lemma_concat_no_marker(pre + dollar(), c.subrange(s + 1, e + 1));
                            lemma_blocks_marked(c, e + 1, k);
                            lemma_restored_marker_free_prefix(a, rest.0, rest.1);
                            assert(a + c.subrange(e + 1, n) =~= c.subrange(q, n));
                        }
                    },
                    None => {
                        let rest = protect_from(c, s + 1, k);
                        lemma_round_trip_from(c, s + 1, k);
                        lemma_concat_no_marker(pre, dollar());
                        lemma_blocks_marked(c, s + 1, k);
                        lemma_restored_marker_free_prefix(pre + dollar(), rest.0, rest.1);
                        assert(pre + dollar() + c.subrange(s + 1, n) =~= c.subrange(q, n));
                    },
                }
            },
            Some((Opener::Paren, s)) => {},
        }
    }
}

/// Restoring protected math gives the text back: for every text with no
/// object replacement character and no `\\(`, in which no math block's
/// placeholder turns up again after that block, `restore_math` applied to
/// what `protect_math` returns yields the text that was protected.
pub proof fn lemma_protect_restore_round_trip(c: Seq<char>)
    requires
        round_trip_safe(c),
    ensures
        restored(protected(c).0, protected(c).1) == c,
{
    lemma_round_trip_from(c, 0, 0);
    assert(c.subrange(0, c.len() as int) =~= c);
}

/// The block list that `protect_math` returns maps placeholders to math:
/// no two of its entries have the same placeholder, whatever the text.
pub proof fn lemma_protect_placeholders_distinct(c: Seq<char>)
    ensures
        forall|i: int, j: int|
            0 <= i < j < protected(c).1.len() ==> #[trigger] protected(c).1[i].0
                != #[trigger] protected(c).1[j].0,
{
    let b = protected(c).1;
    lemma_protect_numbering(c, 0, 0);
    assert forall|i: int, j: int| 0 <= i < j < b.len() implies #[trigger] b[i].0 != #[trigger] b[j].0 by {
        assert(is_numbered(b[i].0, i as nat));
        assert(is_numbered(b[j].0, j as nat));
        let ki = if b[i].0 == placeholder(i as nat, 'D') { 'D' } else { 'I' };
        let kj = if b[j].0 == placeholder(j as nat, 'D') { 'D' } else { 'I' };
        lemma_placeholders_differ(i as nat, ki, j as nat, kj, Seq::<char>::empty());
        assert(placeholder(i as nat, ki) + Seq::<char>::empty() =~= placeholder(i as nat, ki));
        if b[i].0 == b[j].0 {
            assert(occurs_at(placeholder(i as nat, ki), placeholder(j as nat, kj), 0)) by {
                assert(placeholder(i as nat, ki).subrange(0, placeholder(j as nat, kj).len() as int)
                    =~= placeholder(i as nat, ki));
            }
        }
    }
}

} // verus!
