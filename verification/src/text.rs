//! Character-level helpers shared by the math and markdown code: whitespace,
//! trimming, searching, and building strings out of character ranges.

use vstd::prelude::*;

verus! {

/// `String::push`: the character is appended at the end of the string.
pub assume_specification[ String::push ](s: &mut String, ch: char)
    ensures
        final(s)@ == old(s)@.push(ch),
;

/// Unicode `White_Space`, the set that `char::is_whitespace` tests.
pub open spec fn is_ws(c: char) -> bool {
    ||| ('\u{9}' <= c && c <= '\u{d}')
    ||| c == ' '
    ||| c == '\u{85}'
    ||| c == '\u{a0}'
    ||| c == '\u{1680}'
    ||| ('\u{2000}' <= c && c <= '\u{200a}')
    ||| c == '\u{2028}'
    ||| c == '\u{2029}'
    ||| c == '\u{202f}'
    ||| c == '\u{205f}'
    ||| c == '\u{3000}'
}

pub fn is_whitespace(c: char) -> (r: bool)
    ensures
        r == is_ws(c),
{
    ('\u{9}' <= c && c <= '\u{d}') || c == ' ' || c == '\u{85}' || c == '\u{a0}' || c
        == '\u{1680}' || ('\u{2000}' <= c && c <= '\u{200a}') || c == '\u{2028}' || c
        == '\u{2029}' || c == '\u{202f}' || c == '\u{205f}' || c == '\u{3000}'
}

/// `s` without its leading whitespace.
pub open spec fn trim_start(s: Seq<char>) -> Seq<char>
    decreases s.len(),
{
    if s.len() > 0 && is_ws(s[0]) {
        trim_start(s.drop_first())
    } else {
        s
    }
}

/// `s` without its trailing whitespace.
pub open spec fn trim_end(s: Seq<char>) -> Seq<char>
    decreases s.len(),
{
    if s.len() > 0 && is_ws(s.last()) {
        trim_end(s.drop_last())
    } else {
        s
    }
}

/// `s` without leading and trailing whitespace, as `str::trim` gives it.
pub open spec fn trim(s: Seq<char>) -> Seq<char> {
    trim_end(trim_start(s))
}

/// The characters of `s`, in order.
pub fn chars_of(s: &str) -> (r: Vec<char>)
    ensures
        r@ == s@,
{
    let mut r: Vec<char> = Vec::new();
    for c in it: s.chars()
        invariant
            r@ == it.seq().take(it.index() as int),
            it.seq() == s@,
    {
        r.push(c);
    }
    r
}

/// Appends `cs[lo..hi]` to `out`.
pub fn push_range(out: &mut String, cs: &Vec<char>, lo: usize, hi: usize)
    requires
        lo <= hi <= cs@.len(),
    ensures
        final(out)@ == old(out)@ + cs@.subrange(lo as int, hi as int),
{
    let mut i = lo;
    while i < hi
        invariant
            lo <= i <= hi <= cs@.len(),
            out@ == old(out)@ + cs@.subrange(lo as int, i as int),
        decreases hi - i,
    {
        out.push(cs[i]);
        i = i + 1;
        assert(cs@.subrange(lo as int, i as int) == cs@.subrange(lo as int, i - 1).push(
            cs@[i - 1],
        ));
    }
}

/// A new string holding `cs[lo..hi]`.
pub fn string_of_range(cs: &Vec<char>, lo: usize, hi: usize) -> (r: String)
    requires
        lo <= hi <= cs@.len(),
    ensures
        r@ == cs@.subrange(lo as int, hi as int),
{
    let mut r = String::new();
    push_range(&mut r, cs, lo, hi);
    r
}

/// Appends every character of `s` to `out`.
pub fn push_str_chars(out: &mut String, s: &str)
    ensures
        final(out)@ == old(out)@ + s@,
{
    let cs = chars_of(s);
    push_range(out, &cs, 0, cs.len());
    assert(cs@.subrange(0, cs@.len() as int) == cs@);
}

proof fn lemma_trim_start_step(c: Seq<char>, i: int, hi: int)
    requires
        0 <= i < hi <= c.len(),
    ensures
        is_ws(c[i]) ==> trim_start(c.subrange(i, hi)) == trim_start(c.subrange(i + 1, hi)),
        !is_ws(c[i]) ==> trim_start(c.subrange(i, hi)) == c.subrange(i, hi),
{
    assert(c.subrange(i, hi).drop_first() == c.subrange(i + 1, hi));
}

proof fn lemma_trim_end_step(c: Seq<char>, lo: int, j: int)
    requires
        0 <= lo < j <= c.len(),
    ensures
        is_ws(c[j - 1]) ==> trim_end(c.subrange(lo, j)) == trim_end(c.subrange(lo, j - 1)),
        !is_ws(c[j - 1]) ==> trim_end(c.subrange(lo, j)) == c.subrange(lo, j),
{
    assert(c.subrange(lo, j).drop_last() == c.subrange(lo, j - 1));
}

/// The bounds of `trim(cs[lo..hi])` inside `cs`.
pub fn trim_bounds(cs: &Vec<char>, lo: usize, hi: usize) -> (r: (usize, usize))
    requires
        lo <= hi <= cs@.len(),
    ensures
        lo <= r.0 <= r.1 <= hi,
        cs@.subrange(r.0 as int, r.1 as int) == trim(cs@.subrange(lo as int, hi as int)),
{
    let mut a = lo;
    while a < hi && is_whitespace(cs[a])
        invariant
            lo <= a <= hi <= cs@.len(),
            trim_start(cs@.subrange(lo as int, hi as int)) == trim_start(
                cs@.subrange(a as int, hi as int),
            ),
        decreases hi - a,
    {
        proof {
            lemma_trim_start_step(cs@, a as int, hi as int);
        }
        a = a + 1;
    }
    proof {
        if a < hi {
            lemma_trim_start_step(cs@, a as int, hi as int);
        }
    }
    assert(trim_start(cs@.subrange(lo as int, hi as int)) == cs@.subrange(a as int, hi as int));
    let mut b = hi;
    while b > a && is_whitespace(cs[b - 1])
        invariant
            lo <= a <= b <= hi <= cs@.len(),
            trim_end(cs@.subrange(a as int, hi as int)) == trim_end(
                cs@.subrange(a as int, b as int),
            ),
        decreases b - a,
    {
        proof {
            lemma_trim_end_step(cs@, a as int, b as int);
        }
        b = b - 1;
    }
    proof {
        if b > a {
            lemma_trim_end_step(cs@, a as int, b as int);
        }
    }
    (a, b)
}

} // verus!

verus! {

/// The decimal digit for `d < 10`.
pub open spec fn digit_char(d: nat) -> char {
    seq!['0', '1', '2', '3', '4', '5', '6', '7', '8', '9'][d as int]
}

/// The decimal representation of `n`, as `format!("{}", n)` writes it.
pub open spec fn decimal(n: nat) -> Seq<char>
    decreases n,
{
    if n < 10 {
        seq![digit_char(n)]
    } else {
        decimal(n / 10).push(digit_char(n % 10))
    }
}

/// Appends the decimal representation of `n` to `out`.
pub fn push_decimal(out: &mut String, n: u64)
    ensures
        final(out)@ == old(out)@ + decimal(n as nat),
    decreases n,
{
    let digits = ['0', '1', '2', '3', '4', '5', '6', '7', '8', '9'];
    if n >= 10 {
        push_decimal(out, n / 10);
    }
    let d = (n % 10) as usize;
    out.push(digits[d]);
    assert(digits@ == seq!['0', '1', '2', '3', '4', '5', '6', '7', '8', '9']);
}

/// The first `j >= from` at which `pat` occurs in `c`.
pub open spec fn find_pat(c: Seq<char>, pat: Seq<char>, from: int) -> Option<int>
    decreases c.len() + 1 - from,
{
    if from < 0 || from + pat.len() > c.len() {
        None
    } else if c.subrange(from, from + pat.len()) == pat {
        Some(from)
    } else {
        find_pat(c, pat, from + 1)
    }
}

pub proof fn lemma_find_pat(c: Seq<char>, pat: Seq<char>, from: int)
    requires
        0 <= from,
    ensures
        find_pat(c, pat, from) matches Some(j) ==> {
            &&& from <= j
            &&& j + pat.len() <= c.len()
            &&& c.subrange(j, j + pat.len()) == pat
        },
        find_pat(c, pat, from) is None ==> forall|j: int|
            from <= j && j + pat.len() <= c.len() ==> #[trigger] c.subrange(j, j + pat.len())
                != pat,
    decreases c.len() + 1 - from,
{
    if from >= 0 && from + pat.len() <= c.len() && c.subrange(from, from + pat.len()) != pat {
        lemma_find_pat(c, pat, from + 1);
        assert forall|j: int|
            from <= j && j + pat.len() <= c.len() && find_pat(c, pat, from) is None implies
            #[trigger] c.subrange(j, j + pat.len()) != pat by {
            if j > from {
            }
        }
    }
}

/// Whether `pat` occurs in `cs` at position `i`.
pub fn matches_at(cs: &Vec<char>, pat: &Vec<char>, i: usize) -> (r: bool)
    requires
        i <= cs@.len(),
    ensures
        r == (i + pat@.len() <= cs@.len() && cs@.subrange(i as int, i + pat@.len()) == pat@),
{
    if pat.len() > cs.len() - i {
        return false;
    }
    let mut k: usize = 0;
    while k < pat.len()
        invariant
            i + pat@.len() <= cs@.len(),
            i + pat.len() <= cs.len(),
            k <= pat@.len(),
            forall|m: int| 0 <= m < k ==> cs@[i + m] == pat@[m],
        decreases pat.len() - k,
    {
        if cs[i + k] != pat[k] {
            assert(cs@.subrange(i as int, i + pat@.len())[k as int] != pat@[k as int]);
            return false;
        }
        k = k + 1;
    }
    assert(cs@.subrange(i as int, i + pat@.len()) =~= pat@);
    true
}

/// The first position at or after `from` where `pat` occurs in `cs`.
pub fn find_pat_exec(cs: &Vec<char>, pat: &Vec<char>, from: usize) -> (r: Option<usize>)
    requires
        from <= cs@.len(),
    ensures
        r matches Some(j) ==> find_pat(cs@, pat@, from as int) == Some(j as int),
        r is None ==> find_pat(cs@, pat@, from as int) is None,
{
    let mut i = from;
    while i <= cs.len()
        invariant
            from <= i,
            find_pat(cs@, pat@, from as int) == find_pat(cs@, pat@, i as int),
        decreases cs.len() + 1 - i,
    {
        if pat.len() > cs.len() - i {
            return None;
        }
        if matches_at(cs, pat, i) {
            return Some(i);
        }
        assert(pat@.len() == 0 ==> cs@.subrange(i as int, i as int) =~= pat@);
        i = i + 1;
    }
    None
}

} // verus!

verus! {

/// `s[i..]` with every non-overlapping occurrence of the non-empty `pat`,
/// taken from left to right, replaced by `rep`.
pub open spec fn replace_from(s: Seq<char>, pat: Seq<char>, rep: Seq<char>, i: int) -> Seq<
    char,
>
    decreases s.len() - i,
{
    if i < 0 || i >= s.len() {
        seq![]
    } else if pat.len() > 0 && i + pat.len() <= s.len() && s.subrange(i, i + pat.len()) == pat {
        rep + replace_from(s, pat, rep, i + pat.len())
    } else {
        seq![s[i]] + replace_from(s, pat, rep, i + 1)
    }
}

/// `s` with `rep` put before, between and after its characters, which is
/// what replacing the empty pattern does.
pub open spec fn replace_empty(s: Seq<char>, rep: Seq<char>) -> Seq<char>
    decreases s.len(),
{
    if s.len() == 0 {
        rep
    } else {
        rep + seq![s[0]] + replace_empty(s.drop_first(), rep)
    }
}

/// `s` with `pat` replaced by `rep`, as `str::replace` does it.
pub open spec fn replace_all(s: Seq<char>, pat: Seq<char>, rep: Seq<char>) -> Seq<char> {
    if pat.len() == 0 {
        replace_empty(s, rep)
    } else {
        replace_from(s, pat, rep, 0)
    }
}

/// Appends `cs` to `out`.
pub fn push_all(out: &mut String, cs: &Vec<char>)
    ensures
        final(out)@ == old(out)@ + cs@,
{
    push_range(out, cs, 0, cs.len());
    assert(cs@.subrange(0, cs@.len() as int) == cs@);
}

/// `s` with `pat` replaced by `rep`.
pub fn replace_chars(s: &Vec<char>, pat: &Vec<char>, rep: &Vec<char>) -> (r: String)
    ensures
        r@ == replace_all(s@, pat@, rep@),
{
    let mut out = String::new();
    let n = s.len();
    if pat.len() == 0 {
        let mut i: usize = 0;
        assert(s@.skip(0) =~= s@);
        assert(out@ + replace_empty(s@, rep@) =~= replace_empty(s@, rep@));
        while i < n
            invariant
                n == s@.len(),
                i <= n,
                pat@.len() == 0,
                out@ + replace_empty(s@.skip(i as int), rep@) == replace_empty(s@, rep@),
            decreases n - i,
        {
            let ghost o = out@;
            assert(s@.skip(i as int).drop_first() =~= s@.skip(i + 1));
            push_all(&mut out, rep);
            out.push(s[i]);
            i = i + 1;
            assert(out@ + replace_empty(s@.skip(i as int), rep@) =~= o + replace_empty(
                s@.skip(i - 1),
                rep@,
            ));
        }
        push_all(&mut out, rep);
        assert(s@.skip(n as int).len() == 0);
        assert(out@ =~= out@ + seq![]);
        return out;
    }
    let mut i: usize = 0;
    while i < n
        invariant
            n == s@.len(),
            i <= n,
            pat@.len() > 0,
            out@ + replace_from(s@, pat@, rep@, i as int) == replace_from(s@, pat@, rep@, 0),
        decreases n - i,
    {
        let ghost o = out@;
        let ghost i0 = i as int;
        if matches_at(s, pat, i) {
            push_all(&mut out, rep);
            i = i + pat.len();
            assert(out@ + replace_from(s@, pat@, rep@, i as int) =~= o + replace_from(
                s@,
                pat@,
                rep@,
                i0,
            ));
        } else {
            out.push(s[i]);
            i = i + 1;
            assert(out@ + replace_from(s@, pat@, rep@, i as int) =~= o + replace_from(
                s@,
                pat@,
                rep@,
                i0,
            ));
        }
    }
    assert(out@ =~= out@ + replace_from(s@, pat@, rep@, n as int));
    out
}

} // verus!

verus! {

/// Whether two character vectors are equal.
pub fn chars_eq(a: &Vec<char>, b: &Vec<char>) -> (r: bool)
    ensures
        r == (a@ == b@),
{
    if a.len() != b.len() {
        return false;
    }
    let mut i: usize = 0;
    while i < a.len()
        invariant
            a@.len() == b@.len(),
            i <= a@.len(),
            forall|j: int| 0 <= j < i ==> a@[j] == b@[j],
        decreases a.len() - i,
    {
        if a[i] != b[i] {
            return false;
        }
        i = i + 1;
    }
    assert(a@ =~= b@);
    true
}

/// Whether two strings hold the same characters.
pub fn str_eq(a: &str, b: &str) -> (r: bool)
    ensures
        r == (a@ == b@),
{
    let ca = chars_of(a);
    let cb = chars_of(b);
    chars_eq(&ca, &cb)
}

} // verus!

verus! {

/// `s` after `keep` characters at most.
pub open spec fn prefix(s: Seq<char>, keep: int) -> Seq<char> {
    if keep < s.len() {
        s.subrange(0, keep)
    } else {
        s
    }
}

/// How many times `c` occurs in `s`.
pub open spec fn count_char(s: Seq<char>, c: char) -> nat
    decreases s.len(),
{
    if s.len() == 0 {
        0
    } else {
        count_char(s.drop_last(), c) + if s.last() == c {
            1nat
        } else {
            0nat
        }
    }
}

/// Whether `needle` occurs in `hay`, as `str::contains` tells it.
pub open spec fn contains_seq(hay: Seq<char>, needle: Seq<char>) -> bool {
    find_pat(hay, needle, 0) is Some
}

/// Whether `needle` occurs in `hay`.
pub fn contains_str(hay: &str, needle: &str) -> (r: bool)
    ensures
        r == contains_seq(hay@, needle@),
{
    let h = chars_of(hay);
    let n = chars_of(needle);
    find_pat_exec(&h, &n, 0).is_some()
}

/// A new string with the first `keep` characters of `s` at most.
pub fn prefix_string(s: &str, keep: usize) -> (r: String)
    ensures
        r@ == prefix(s@, keep as int),
{
    let c = chars_of(s);
    let end = if keep < c.len() {
        keep
    } else {
        c.len()
    };
    assert(c@.subrange(0, c@.len() as int) =~= c@);
    string_of_range(&c, 0, end)
}

/// `s` trimmed of surrounding whitespace.
pub fn trim_str(s: &str) -> (r: String)
    ensures
        r@ == trim(s@),
{
    let c = chars_of(s);
    let (a, b) = trim_bounds(&c, 0, c.len());
    assert(c@.subrange(0, c@.len() as int) =~= c@);
    string_of_range(&c, a, b)
}

/// How many times `c` occurs in `s`.
pub fn count_chars(s: &str, c: char) -> (r: usize)
    ensures
        r as nat == count_char(s@, c),
{
    let cs = chars_of(s);
    let mut n: usize = 0;
    let mut i: usize = 0;
    while i < cs.len()
        invariant
            i <= cs@.len(),
            n <= i,
            n as nat == count_char(cs@.take(i as int), c),
        decreases cs.len() - i,
    {
        assert(cs@.take(i + 1).drop_last() =~= cs@.take(i as int));
        if cs[i] == c {
            n = n + 1;
        }
        i = i + 1;
    }
    assert(cs@.take(cs@.len() as int) =~= cs@);
    n
}

/// The name for what `str::to_lowercase` gives for a text: each character
/// replaced by its Unicode lowercase mapping.
pub uninterp spec fn lowercase(s: Seq<char>) -> Seq<char>;

/// `str::to_lowercase`.
#[verifier::external_body]
pub(crate) fn to_lowercase(s: &str) -> (r: String)
    ensures
        r@ == lowercase(s@),
{
    s.to_lowercase()
}

proof fn lemma_trim_start_shape(s: Seq<char>)
    ensures
        exists|k: int|
            0 <= k <= s.len() && trim_start(s) == s.subrange(k, s.len() as int) && (k == s.len()
                || !is_ws(s[k])),
    decreases s.len(),
{
    if s.len() > 0 && is_ws(s[0]) {
        lemma_trim_start_shape(s.drop_first());
        let k = choose|k: int|
            0 <= k <= s.drop_first().len() && trim_start(s.drop_first())
                == s.drop_first().subrange(k, s.drop_first().len() as int) && (k
                == s.drop_first().len() || !is_ws(s.drop_first()[k]));
        assert(s.drop_first().subrange(k, s.drop_first().len() as int) =~= s.subrange(
            k + 1,
            s.len() as int,
        ));
        assert(0 <= k + 1 <= s.len() && trim_start(s) == s.subrange(k + 1, s.len() as int) && (k
            + 1 == s.len() || !is_ws(s[k + 1])));
    } else {
        assert(s.subrange(0, s.len() as int) =~= s);
        assert(0 <= 0 <= s.len() && trim_start(s) == s.subrange(0, s.len() as int) && (0
            == s.len() || !is_ws(s[0])));
    }
}

proof fn lemma_trim_end_shape(s: Seq<char>)
    ensures
        exists|k: int|
            0 <= k <= s.len() && trim_end(s) == s.subrange(0, k) && (k == 0 || !is_ws(s[k - 1])),
    decreases s.len(),
{
    if s.len() > 0 && is_ws(s.last()) {
        lemma_trim_end_shape(s.drop_last());
        let k = choose|k: int|
            0 <= k <= s.drop_last().len() && trim_end(s.drop_last()) == s.drop_last().subrange(0, k)
                && (k == 0 || !is_ws(s.drop_last()[k - 1]));
        assert(s.drop_last().subrange(0, k) =~= s.subrange(0, k));
        assert(0 <= k <= s.len() && trim_end(s) == s.subrange(0, k) && (k == 0 || !is_ws(
            s[k - 1],
        )));
    } else {
        assert(s.subrange(0, s.len() as int) =~= s);
        assert(0 <= s.len() <= s.len() && trim_end(s) == s.subrange(0, s.len() as int) && (
        s.len() == 0 || !is_ws(s[s.len() - 1])));
    }
}

/// Trimming twice is trimming once.
pub proof fn lemma_trim_idempotent(s: Seq<char>)
    ensures
        trim(trim(s)) == trim(s),
{
    let z = trim_start(s);
    lemma_trim_start_shape(s);
    lemma_trim_end_shape(z);
    let y = trim_end(z);
    let k = choose|k: int| 0 <= k <= z.len() && trim_end(z) == z.subrange(0, k) && (k == 0 || !is_ws(z[k - 1]));
    let k0 = choose|k0: int|
        0 <= k0 <= s.len() && trim_start(s) == s.subrange(k0, s.len() as int) && (k0 == s.len()
            || !is_ws(s[k0]));
    if y.len() > 0 {
        assert(y[0] == z[0]);
        assert(z[0] == s[k0]);
        assert(!is_ws(y[0]));
        assert(trim_start(y) == y);
        assert(y.last() == z[k - 1]);
        assert(trim_end(y) == y);
    } else {
        assert(trim_start(y) == y);
        assert(trim_end(y) == y);
    }
}

} // verus!
