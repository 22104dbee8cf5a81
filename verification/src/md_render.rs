//! The markdown side of message rendering: shielding math from the markdown
//! parser and putting it back, splitting styled text into text and math, and
//! the renderer's state machine that turns markdown events into drawing steps.

use vstd::prelude::*;
use crate::math_render::{
    find_dollar_on_line, find_double_dollar, lemma_find_dollar_on_line, lemma_find_double_dollar,
    math_segment, text_before, SegmentView,
};
use crate::text::{
    chars_of, decimal, find_pat, find_pat_exec, lemma_find_pat, push_decimal, push_range,
    push_str_chars, replace_all, replace_chars, string_of_range, trim, trim_bounds,
};

verus! {

/// The object replacement character that brackets every placeholder.
pub open spec fn marker() -> char {
    '\u{FFFC}'
}

/// The placeholder that stands for the `k`-th math block, `kind` being
/// `'D'` for display math and `'I'` for inline math.
pub open spec fn placeholder(k: nat, kind: char) -> Seq<char> {
    seq![marker(), 'M', 'A', 'T', 'H'] + decimal(k) + seq![kind, marker()]
}

pub open spec fn double_dollar() -> Seq<char> {
    seq!['$', '$']
}

pub open spec fn dollar() -> Seq<char> {
    seq!['$']
}

pub open spec fn paren_open() -> Seq<char> {
    seq!['\\', '(']
}

pub open spec fn paren_close() -> Seq<char> {
    seq!['\\', ')']
}

/// The three ways math can open.
pub enum Opener {
    DoubleDollar,
    Dollar,
    Paren,
}

/// The earliest math opener at or after `pos`: the first `$$`, the first `$`
/// unless it starts that `$$`, and the first `\(`, whichever comes first.
pub open spec fn next_opener(c: Seq<char>, pos: int) -> Option<(Opener, int)> {
    let dd = find_pat(c, double_dollar(), pos);
    let sd = match find_pat(c, dollar(), pos) {
        Some(x) => if dd == Some(x) {
            None
        } else {
            Some(x)
        },
        None => None,
    };
    let po = find_pat(c, paren_open(), pos);
    let e1: Option<(Opener, int)> = match dd {
        Some(x) => Some((Opener::DoubleDollar, x)),
        None => None,
    };
    let e2: Option<(Opener, int)> = match sd {
        Some(x) => if e1 is None || x < e1.unwrap().1 {
            Some((Opener::Dollar, x))
        } else {
            e1
        },
        None => e1,
    };
    match po {
        Some(x) => if e2 is None || x < e2.unwrap().1 {
            Some((Opener::Paren, x))
        } else {
            e2
        },
        None => e2,
    }
}

pub proof fn lemma_next_opener(c: Seq<char>, pos: int)
    requires
        0 <= pos,
    ensures
        next_opener(c, pos) matches Some((o, s)) ==> {
            &&& pos <= s
            &&& (o is DoubleDollar ==> s + 2 <= c.len() && c.subrange(s, s + 2)
                == double_dollar())
            &&& (o is Dollar ==> s + 1 <= c.len() && c[s] == '$')
            &&& (o is Paren ==> s + 2 <= c.len() && c.subrange(s, s + 2) == paren_open())
        },
{
    lemma_find_pat(c, double_dollar(), pos);
    lemma_find_pat(c, dollar(), pos);
    lemma_find_pat(c, paren_open(), pos);
    if let Some(x) = find_pat(c, dollar(), pos) {
        assert(c.subrange(x, x + 1)[0] == c[x]);
    }
}

/// A block list entry: the placeholder and the math it stands for.
pub type BlockView = (Seq<char>, Seq<char>);

/// What `protect_math` produces from `c[pos..]` when `k` placeholders were
/// issued before: the text with each math block replaced by a placeholder,
/// and the list of (placeholder, math) pairs.
///
/// `$$m$$` becomes a `D` placeholder for `$$m$$`; `$m$` on one line becomes an
/// `I` placeholder for `$m$` unless `m` is blank, in which case it stays as
/// it was; `\(m\)` becomes an `I` placeholder for `$m$` unless `m` is blank,
/// in which case it is dropped. An unclosed opener stays as text.
pub open spec fn protect_from(c: Seq<char>, pos: int, k: nat) -> (Seq<char>, Seq<BlockView>)
    decreases c.len() - pos,
{
    if pos < 0 || pos >= c.len() {
        (seq![], seq![])
    } else {
        proof {
            lemma_next_opener(c, pos);
        }
        match next_opener(c, pos) {
            None => (c.subrange(pos, c.len() as int), seq![]),
            Some((Opener::DoubleDollar, s)) => {
                let pre = c.subrange(pos, s);
                proof {
                    lemma_find_pat(c, double_dollar(), s + 2);
                }
                match find_pat(c, double_dollar(), s + 2) {
                    Some(e) => {
                        let ph = placeholder(k, 'D');
                        let rest = protect_from(c, e + 2, k + 1);
                        (
                            pre + ph + rest.0,
                            seq![(ph, double_dollar() + c.subrange(s + 2, e) + double_dollar())]
                                + rest.1,
                        )
                    },
                    None => {
                        let rest = protect_from(c, s + 2, k);
                        (pre + double_dollar() + rest.0, rest.1)
                    },
                }
            },
            Some((Opener::Dollar, s)) => {
                let pre = c.subrange(pos, s);
                proof {
                    lemma_find_dollar_on_line(c, s + 1);
                }
                match find_dollar_on_line(c, s + 1) {
                    Some(e) => {
                        let m = c.subrange(s + 1, e);
                        if trim(m).len() > 0 {
                            let ph = placeholder(k, 'I');
                            let rest = protect_from(c, e + 1, k + 1);
                            (pre + ph + rest.0, seq![(ph, dollar() + m + dollar())] + rest.1)
                        } else {
                            let rest = protect_from(c, e + 1, k);
                            (pre + dollar() + c.subrange(s + 1, e + 1) + rest.0, rest.1)
                        }
                    },
                    None => {
                        let rest = protect_from(c, s + 1, k);
                        (pre + dollar() + rest.0, rest.1)
                    },
                }
            },
            Some((Opener::Paren, s)) => {
                let pre = c.subrange(pos, s);
                proof {
                    lemma_find_pat(c, paren_close(), s + 2);
                }
                match find_pat(c, paren_close(), s + 2) {
                    Some(e) => {
                        let m = c.subrange(s + 2, e);
                        if trim(m).len() > 0 {
                            let ph = placeholder(k, 'I');
                            let rest = protect_from(c, e + 2, k + 1);
                            (pre + ph + rest.0, seq![(ph, dollar() + m + dollar())] + rest.1)
                        } else {
                            let rest = protect_from(c, e + 2, k);
                            (pre + rest.0, rest.1)
                        }
                    },
                    None => {
                        let rest = protect_from(c, s + 2, k);
                        (pre + paren_open() + rest.0, rest.1)
                    },
                }
            },
        }
    }
}

/// What `protect_math` produces from a whole text.
pub open spec fn protected(c: Seq<char>) -> (Seq<char>, Seq<BlockView>) {
    protect_from(c, 0, 0)
}

fn push_placeholder(out: &mut String, k: usize, kind: char)
    ensures
        final(out)@ == old(out)@ + placeholder(k as nat, kind),
{
    out.push('\u{FFFC}');
    out.push('M');
    out.push('A');
    out.push('T');
    out.push('H');
    push_decimal(out, k as u64);
    out.push(kind);
    out.push('\u{FFFC}');
}

fn placeholder_string(k: usize, kind: char) -> (r: String)
    ensures
        r@ == placeholder(k as nat, kind),
{
    let mut s = String::new();
    push_placeholder(&mut s, k, kind);
    s
}

/// A string holding `open`, then `c[lo..hi]`, then `close`.
fn wrapped_range(open: &str, c: &Vec<char>, lo: usize, hi: usize, close: &str) -> (r: String)
    requires
        lo <= hi <= c@.len(),
    ensures
        r@ == open@ + c@.subrange(lo as int, hi as int) + close@,
{
    let mut s = String::new();
    push_str_chars(&mut s, open);
    push_range(&mut s, c, lo, hi);
    push_str_chars(&mut s, close);
    s
}

fn next_opener_exec(c: &Vec<char>, pos: usize) -> (r: Option<(Opener, usize)>)
    requires
        pos <= c@.len(),
    ensures
        r matches Some((o, s)) ==> next_opener(c@, pos as int) == Some((o, s as int)),
        r is None ==> next_opener(c@, pos as int) is None,
{
    let dd_pat = vec!['$', '$'];
    let d_pat = vec!['$'];
    let po_pat = vec!['\\', '('];
    assert(dd_pat@ == double_dollar());
    assert(d_pat@ == dollar());
    assert(po_pat@ == paren_open());
    let dd = find_pat_exec(c, &dd_pat, pos);
    let sd = match find_pat_exec(c, &d_pat, pos) {
        Some(x) => match dd {
            Some(y) => if x == y {
                None
            } else {
                Some(x)
            },
            None => Some(x),
        },
        None => None,
    };
    let po = find_pat_exec(c, &po_pat, pos);
    let e1: Option<(Opener, usize)> = match dd {
        Some(x) => Some((Opener::DoubleDollar, x)),
        None => None,
    };
    let e2: Option<(Opener, usize)> = match sd {
        Some(x) => match e1 {
            Some((o, y)) => if x < y {
                Some((Opener::Dollar, x))
            } else {
                Some((o, y))
            },
            None => Some((Opener::Dollar, x)),
        },
        None => e1,
    };
    match po {
        Some(x) => match e2 {
            Some((o, y)) => if x < y {
                Some((Opener::Paren, x))
            } else {
                Some((o, y))
            },
            None => Some((Opener::Paren, x)),
        },
        None => e2,
    }
}

/// Text with no `$` and no `\\(` has nothing to protect: `protect_math`
/// hands it back unchanged with no blocks.
pub proof fn lemma_protect_plain_text(c: Seq<char>)
    requires
        !c.contains('$'),
        find_pat(c, paren_open(), 0) is None,
    ensures
        protected(c) == (c, Seq::<BlockView>::empty()),
{
    lemma_find_pat(c, double_dollar(), 0);
    lemma_find_pat(c, dollar(), 0);
    if let Some(j) = find_pat(c, double_dollar(), 0) {
        assert(c.subrange(j, j + 2)[0] == c[j]);
        assert(c.contains('$'));
    }
    if let Some(j) = find_pat(c, dollar(), 0) {
        assert(c.subrange(j, j + 1)[0] == c[j]);
        assert(c.contains('$'));
    }
    assert(next_opener(c, 0) is None);
    assert(c.subrange(0, c.len() as int) =~= c);
}

/// `p` is the placeholder numbered `k`, of either kind.
pub open spec fn is_numbered(p: Seq<char>, k: nat) -> bool {
    p == placeholder(k, 'D') || p == placeholder(k, 'I')
}

/// The placeholders of the blocks from `protect_from(c, pos, k)` are those
/// numbered `k`, `k + 1`, ... in order.
pub proof fn lemma_protect_numbering(c: Seq<char>, pos: int, k: nat)
    ensures
        forall|i: int|
            0 <= i < protect_from(c, pos, k).1.len() ==> is_numbered(
                #[trigger] protect_from(c, pos, k).1[i].0,
                (k + i) as nat,
            ),
    decreases c.len() - pos,
{
    if pos < 0 || pos >= c.len() {
    } else {
        lemma_next_opener(c, pos);
        let r = protect_from(c, pos, k);
        match next_opener(c, pos) {
            None => {},
            Some((Opener::DoubleDollar, s)) => {
                lemma_find_pat(c, double_dollar(), s + 2);
                match find_pat(c, double_dollar(), s + 2) {
                    Some(e) => {
                        lemma_protect_numbering(c, e + 2, k + 1);
                        let rest = protect_from(c, e + 2, k + 1);
                        assert forall|i: int| 0 <= i < r.1.len() implies is_numbered(
                            #[trigger] r.1[i].0,
                            (k + i) as nat,
                        ) by {
                            if i == 0 {
                                assert(r.1[i].0 == placeholder((k + i) as nat, 'D'));
                            } else {
                                assert(r.1[i] == rest.1[i - 1]);
                                assert((k + 1 + (i - 1)) as nat == (k + i) as nat);
                            }
                        }
                    },
                    None => {
                        lemma_protect_numbering(c, s + 2, k);
                        assert(r.1 == protect_from(c, s + 2, k).1);
                    },
                }
            },
            Some((Opener::Dollar, s)) => {
                lemma_find_dollar_on_line(c, s + 1);
                match find_dollar_on_line(c, s + 1) {
                    Some(e) => {
                        if trim(c.subrange(s + 1, e)).len() > 0 {
                            lemma_protect_numbering(c, e + 1, k + 1);
                            let rest = protect_from(c, e + 1, k + 1);
                            assert forall|i: int| 0 <= i < r.1.len() implies is_numbered(
                                #[trigger] r.1[i].0,
                                (k + i) as nat,
                            ) by {
                                if i == 0 {
                                    assert(r.1[i].0 == placeholder((k + i) as nat, 'I'));
                                } else {
                                    assert(r.1[i] == rest.1[i - 1]);
                                    assert((k + 1 + (i - 1)) as nat == (k + i) as nat);
                                }
                            }
                        } else {
                            lemma_protect_numbering(c, e + 1, k);
                        assert(r.1 == protect_from(c, e + 1, k).1);
                        }
                    },
                    None => {
                        lemma_protect_numbering(c, s + 1, k);
                        assert(r.1 == protect_from(c, s + 1, k).1);
                    },
                }
            },
            Some((Opener::Paren, s)) => {
                lemma_find_pat(c, paren_close(), s + 2);
                match find_pat(c, paren_close(), s + 2) {
                    Some(e) => {
                        if trim(c.subrange(s + 2, e)).len() > 0 {
                            lemma_protect_numbering(c, e + 2, k + 1);
                            let rest = protect_from(c, e + 2, k + 1);
                            assert forall|i: int| 0 <= i < r.1.len() implies is_numbered(
                                #[trigger] r.1[i].0,
                                (k + i) as nat,
                            ) by {
                                if i == 0 {
                                    assert(r.1[i].0 == placeholder((k + i) as nat, 'I'));
                                } else {
                                    assert(r.1[i] == rest.1[i - 1]);
                                    assert((k + 1 + (i - 1)) as nat == (k + i) as nat);
                                }
                            }
                        } else {
                            lemma_protect_numbering(c, e + 2, k);
                        assert(r.1 == protect_from(c, e + 2, k).1);
                        }
                    },
                    None => {
                        lemma_protect_numbering(c, s + 2, k);
                        assert(r.1 == protect_from(c, s + 2, k).1);
                    },
                }
            },
        }
    }
}

/// The step relation kept by `protect_math`: after consuming up to `np` with
/// `nk` placeholders issued, the output so far followed by what the rest
/// yields equals what the text from `pos` with `k` issued yields.
pub open spec fn protect_step_ok(
    c: Seq<char>,
    pos: int,
    k: nat,
    np: int,
    nk: nat,
    r0: Seq<char>,
    r1: Seq<char>,
    b0: Seq<BlockView>,
    b1: Seq<BlockView>,
) -> bool {
    let whole = protect_from(c, pos, k);
    let rest = protect_from(c, np, nk);
    &&& r1 + rest.0 == r0 + whole.0
    &&& b1 + rest.1 == b0 + whole.1
}

fn push_block(blocks: &mut Vec<(String, String)>, ph: String, orig: String)
    ensures
        final(blocks).deep_view() == old(blocks).deep_view().push((ph@, orig@)),
{
    let ghost pv = (ph@, orig@);
    let ghost bv = blocks@;
    blocks.push((ph, orig));
    assert(blocks@ == bv.push((ph, orig)));
    assert(blocks.deep_view() =~= old(blocks).deep_view().push(pv));
}

fn protect_double_dollar(
    c: &Vec<char>,
    pos: usize,
    s: usize,
    k: usize,
    result: &mut String,
    blocks: &mut Vec<(String, String)>,
) -> (r: (usize, usize))
    requires
        k <= pos < c@.len(),
        next_opener(c@, pos as int) == Some((Opener::DoubleDollar, s as int)),
    ensures
        k <= r.1 <= r.0 <= c@.len(),
        pos < r.0,
        protect_step_ok(c@, pos as int, k as nat, r.0 as int, r.1 as nat, old(result)@,
            final(result)@, old(blocks).deep_view(), final(blocks).deep_view()),
{
    proof {
        lemma_next_opener(c@, pos as int);
        lemma_find_pat(c@, double_dollar(), s + 2);
    }
    let ghost whole = protect_from(c@, pos as int, k as nat);
    let n = c.len();
    assert(pos <= s && s < n);
    push_range(result, c, pos, s);
    let dd_pat = vec!['$', '$'];
    assert(dd_pat@ == double_dollar());
    match find_pat_exec(c, &dd_pat, s + 2) {
        Some(e) => {
            let ph = placeholder_string(k, 'D');
            let orig = wrapped_range("$$", c, s + 2, e, "$$");
            proof {
                reveal_strlit("$$");
                assert(orig@ =~= double_dollar() + c@.subrange(s + 2, e as int) + double_dollar());
            }
            push_placeholder(result, k, 'D');
            push_block(blocks, ph, orig);
            proof {
                let rest = protect_from(c@, e + 2, (k + 1) as nat);
                let ph = placeholder(k as nat, 'D');
                assert(whole == (
                    c@.subrange(pos as int, s as int) + ph + rest.0,
                    seq![(ph, double_dollar() + c@.subrange(s + 2, e as int) + double_dollar())]
                        + rest.1,
                ));
                assert(final(result)@ + rest.0 =~= old(result)@ + whole.0);
                assert(final(blocks).deep_view() + rest.1 =~= old(blocks).deep_view() + whole.1);
            }
            (e + 2, k + 1)
        },
        None => {
            result.push('$');
            result.push('$');
            proof {
                let rest = protect_from(c@, s + 2, k as nat);
                assert(whole == (c@.subrange(pos as int, s as int) + double_dollar() + rest.0, rest.1));
                assert(final(result)@ + rest.0 =~= old(result)@ + whole.0);
            }
            (s + 2, k)
        },
    }
}

fn protect_dollar(
    c: &Vec<char>,
    pos: usize,
    s: usize,
    k: usize,
    result: &mut String,
    blocks: &mut Vec<(String, String)>,
) -> (r: (usize, usize))
    requires
        k <= pos < c@.len(),
        next_opener(c@, pos as int) == Some((Opener::Dollar, s as int)),
    ensures
        k <= r.1 <= r.0 <= c@.len(),
        pos < r.0,
        protect_step_ok(c@, pos as int, k as nat, r.0 as int, r.1 as nat, old(result)@,
            final(result)@, old(blocks).deep_view(), final(blocks).deep_view()),
{
    proof {
        lemma_next_opener(c@, pos as int);
        lemma_find_dollar_on_line(c@, s + 1);
    }
    let ghost whole = protect_from(c@, pos as int, k as nat);
    let n = c.len();
    assert(pos <= s && s < n);
    push_range(result, c, pos, s);
    match crate::math_render::find_dollar_on_line_exec(c, s + 1) {
        Some(e) => {
            let ghost m = c@.subrange(s + 1, e as int);
            let (a, b) = trim_bounds(c, s + 1, e);
            if a < b {
                let ph = placeholder_string(k, 'I');
                let orig = wrapped_range("$", c, s + 1, e, "$");
                proof {
                    reveal_strlit("$");
                    assert(orig@ =~= dollar() + m + dollar());
                }
                push_placeholder(result, k, 'I');
                push_block(blocks, ph, orig);
                proof {
                    let rest = protect_from(c@, e + 1, (k + 1) as nat);
                    let ph = placeholder(k as nat, 'I');
                    assert(whole == (
                        c@.subrange(pos as int, s as int) + ph + rest.0,
                        seq![(ph, dollar() + m + dollar())] + rest.1,
                    ));
                    assert(final(result)@ + rest.0 =~= old(result)@ + whole.0);
                    assert(final(blocks).deep_view() + rest.1 =~= old(blocks).deep_view()
                        + whole.1);
                }
                (e + 1, k + 1)
            } else {
                result.push('$');
                push_range(result, c, s + 1, e + 1);
                proof {
                    let rest = protect_from(c@, e + 1, k as nat);
                    assert(whole == (
                        c@.subrange(pos as int, s as int) + dollar() + c@.subrange(s + 1, e + 1)
                            + rest.0,
                        rest.1,
                    ));
                    assert(final(result)@ + rest.0 =~= old(result)@ + whole.0);
                }
                (e + 1, k)
            }
        },
        None => {
            result.push('$');
            proof {
                let rest = protect_from(c@, s + 1, k as nat);
                assert(whole == (c@.subrange(pos as int, s as int) + dollar() + rest.0, rest.1));
                assert(final(result)@ + rest.0 =~= old(result)@ + whole.0);
            }
            (s + 1, k)
        },
    }
}

fn protect_paren(
    c: &Vec<char>,
    pos: usize,
    s: usize,
    k: usize,
    result: &mut String,
    blocks: &mut Vec<(String, String)>,
) -> (r: (usize, usize))
    requires
        k <= pos < c@.len(),
        next_opener(c@, pos as int) == Some((Opener::Paren, s as int)),
    ensures
        k <= r.1 <= r.0 <= c@.len(),
        pos < r.0,
        protect_step_ok(c@, pos as int, k as nat, r.0 as int, r.1 as nat, old(result)@,
            final(result)@, old(blocks).deep_view(), final(blocks).deep_view()),
{
    proof {
        lemma_next_opener(c@, pos as int);
        lemma_find_pat(c@, paren_close(), s + 2);
    }
    let ghost whole = protect_from(c@, pos as int, k as nat);
    let n = c.len();
    assert(pos <= s && s < n);
    push_range(result, c, pos, s);
    let pc_pat = vec!['\\', ')'];
    assert(pc_pat@ == paren_close());
    match find_pat_exec(c, &pc_pat, s + 2) {
        Some(e) => {
            let ghost m = c@.subrange(s + 2, e as int);
            let (a, b) = trim_bounds(c, s + 2, e);
            if a < b {
                let ph = placeholder_string(k, 'I');
                let orig = wrapped_range("$", c, s + 2, e, "$");
                proof {
                    reveal_strlit("$");
                    assert(orig@ =~= dollar() + m + dollar());
                }
                push_placeholder(result, k, 'I');
                push_block(blocks, ph, orig);
                proof {
                    let rest = protect_from(c@, e + 2, (k + 1) as nat);
                    let ph = placeholder(k as nat, 'I');
                    assert(whole == (
                        c@.subrange(pos as int, s as int) + ph + rest.0,
                        seq![(ph, dollar() + m + dollar())] + rest.1,
                    ));
                    assert(final(result)@ + rest.0 =~= old(result)@ + whole.0);
                    assert(final(blocks).deep_view() + rest.1 =~= old(blocks).deep_view()
                        + whole.1);
                }
                (e + 2, k + 1)
            } else {
                proof {
                    let rest = protect_from(c@, e + 2, k as nat);
                    assert(whole == (c@.subrange(pos as int, s as int) + rest.0, rest.1));
                    assert(final(result)@ + rest.0 =~= old(result)@ + whole.0);
                }
                (e + 2, k)
            }
        },
        None => {
            result.push('\\');
            result.push('(');
            proof {
                let rest = protect_from(c@, s + 2, k as nat);
                assert(whole == (c@.subrange(pos as int, s as int) + paren_open() + rest.0, rest.1));
                assert(final(result)@ + rest.0 =~= old(result)@ + whole.0);
            }
            (s + 2, k)
        },
    }
}

/// Protect math from markdown parsing by replacing it with placeholders.
/// Returns the processed text and the (placeholder, math) pairs.
/// Handles `$$...$$`, `$...$` and `\(...\)`.
pub fn protect_math(content: &str) -> (r: (String, Vec<(String, String)>))
    ensures
        (r.0@, r.1.deep_view()) == protected(content@),
{
    let c = chars_of(content);
    let n = c.len();
    let mut result = String::new();
    let mut blocks: Vec<(String, String)> = Vec::new();
    let mut pos: usize = 0;
    let mut counter: usize = 0;
    while pos < n
        invariant
            n == c@.len(),
            c@ == content@,
            counter <= pos <= n,
            ({
                let rest = protect_from(c@, pos as int, counter as nat);
                (result@ + rest.0, blocks.deep_view() + rest.1) == protected(c@)
            }),
        decreases n - pos,
    {
        let ghost r0 = result@;
        let ghost b0 = blocks.deep_view();
        let ghost whole = protect_from(c@, pos as int, counter as nat);
        let (np, nk) = match next_opener_exec(&c, pos) {
            None => {
                push_range(&mut result, &c, pos, n);
                assert(result@ =~= r0 + whole.0);
                (n, counter)
            },
            Some((Opener::DoubleDollar, s)) => protect_double_dollar(
                &c,
                pos,
                s,
                counter,
                &mut result,
                &mut blocks,
            ),
            Some((Opener::Dollar, s)) => protect_dollar(
                &c,
                pos,
                s,
                counter,
                &mut result,
                &mut blocks,
            ),
            Some((Opener::Paren, s)) => protect_paren(
                &c,
                pos,
                s,
                counter,
                &mut result,
                &mut blocks,
            ),
        };
        proof {
            let rest = protect_from(c@, np as int, nk as nat);
            assert(result@ + rest.0 =~= r0 + whole.0);
            assert(blocks.deep_view() + rest.1 =~= b0 + whole.1);
            assert((r0 + whole.0, b0 + whole.1) == protected(c@));
            assert(r0 + whole.0 + seq![] =~= (r0 + whole.0));
        }
        pos = np;
        counter = nk;
    }
    (result, blocks)
}

/// `text` after replacing, in list order, each placeholder of `blocks` by
/// the math it stands for.
pub open spec fn restored(text: Seq<char>, blocks: Seq<BlockView>) -> Seq<char>
    decreases blocks.len(),
{
    if blocks.len() == 0 {
        text
    } else {
        replace_all(restored(text, blocks.drop_last()), blocks.last().0, blocks.last().1)
    }
}

/// Put the math back in place of its placeholders.
pub fn restore_math(text: &str, blocks: &[(String, String)]) -> (r: String)
    ensures
        r@ == restored(text@, blocks.deep_view()),
{
    let mut result = String::new();
    push_str_chars(&mut result, text);
    let mut i: usize = 0;
    while i < blocks.len()
        invariant
            i <= blocks@.len(),
            result@ == restored(text@, blocks.deep_view().take(i as int)),
        decreases blocks.len() - i,
    {
        let cur = chars_of(result.as_str());
        let pat = chars_of(blocks[i].0.as_str());
        let rep = chars_of(blocks[i].1.as_str());
        result = replace_chars(&cur, &pat, &rep);
        i = i + 1;
        assert(blocks.deep_view().take(i as int).drop_last() =~= blocks.deep_view().take(i - 1));
    }
    assert(blocks.deep_view().take(blocks@.len() as int) =~= blocks.deep_view());
    result
}

/// A run of text with one style, as the markdown parser hands it over.
pub struct TextSpan {
    pub text: String,
    pub bold: bool,
    pub italic: bool,
    pub code: bool,
    pub strikethrough: bool,
}

/// What a `TextSpan` holds.
pub struct TextSpanView {
    pub text: Seq<char>,
    pub bold: bool,
    pub italic: bool,
    pub code: bool,
    pub strikethrough: bool,
}

impl View for TextSpan {
    type V = TextSpanView;

    open spec fn view(&self) -> TextSpanView {
        TextSpanView {
            text: self.text@,
            bold: self.bold,
            italic: self.italic,
            code: self.code,
            strikethrough: self.strikethrough,
        }
    }
}

impl DeepView for TextSpan {
    type V = TextSpanView;

    open spec fn deep_view(&self) -> TextSpanView {
        self@
    }
}

impl Clone for TextSpan {
    fn clone(&self) -> (r: TextSpan)
        ensures
            r@ == self@,
    {
        let mut text = String::new();
        push_str_chars(&mut text, self.text.as_str());
        TextSpan {
            text,
            bold: self.bold,
            italic: self.italic,
            code: self.code,
            strikethrough: self.strikethrough,
        }
    }
}

/// A piece of a styled paragraph: text with its style, or math.
pub enum SpanSegment {
    StyledText { text: String, bold: bool, italic: bool, code: bool, strikethrough: bool },
    InlineMath(String),
    DisplayMath(String),
}

/// What a `SpanSegment` holds.
pub enum SpanSegmentView {
    StyledText { text: Seq<char>, bold: bool, italic: bool, code: bool, strikethrough: bool },
    InlineMath(Seq<char>),
    DisplayMath(Seq<char>),
}

impl View for SpanSegment {
    type V = SpanSegmentView;

    open spec fn view(&self) -> SpanSegmentView {
        match self {
            SpanSegment::StyledText { text, bold, italic, code, strikethrough } =>
                SpanSegmentView::StyledText {
                text: text@,
                bold: *bold,
                italic: *italic,
                code: *code,
                strikethrough: *strikethrough,
            },
            SpanSegment::InlineMath(m) => SpanSegmentView::InlineMath(m@),
            SpanSegment::DisplayMath(m) => SpanSegmentView::DisplayMath(m@),
        }
    }
}

impl DeepView for SpanSegment {
    type V = SpanSegmentView;

    open spec fn deep_view(&self) -> SpanSegmentView {
        self@
    }
}

/// The text and math pieces of one span's text `c`, from position `p` on.
///
/// The first `$` in the rest opens math; the text before it is kept. When a
/// second `$` follows at once, the pair opens display math up to the next
/// `$$` (kept as it is, even empty), or stays as the text `$$` when
/// unclosed. A single `$` opens inline math up to the next `$` on the line
/// (trimmed, dropped when empty), or stays as the text `$` when unclosed.
pub open spec fn span_pieces_from(c: Seq<char>, p: int) -> Seq<SegmentView>
    decreases c.len() - p,
{
    if p < 0 || p >= c.len() {
        seq![]
    } else {
        proof {
            lemma_find_pat(c, dollar(), p);
        }
        match find_pat(c, dollar(), p) {
            Some(s) => {
                proof {
                    lemma_find_double_dollar(c, s + 2);
                    lemma_find_dollar_on_line(c, s + 1);
                }
                text_before(c, p, s) + if s + 1 < c.len() && c[s + 1] == '$' {
                    match find_double_dollar(c, s + 2) {
                        Some(e) => seq![SegmentView::DisplayMath(c.subrange(s + 2, e))]
                            + span_pieces_from(c, e + 2),
                        None => seq![SegmentView::Text(double_dollar())] + span_pieces_from(c, s + 2),
                    }
                } else {
                    match find_dollar_on_line(c, s + 1) {
                        Some(e) => math_segment(false, trim(c.subrange(s + 1, e)))
                            + span_pieces_from(c, e + 1),
                        None => seq![SegmentView::Text(dollar())] + span_pieces_from(c, s + 1),
                    }
                }
            },
            None => seq![SegmentView::Text(c.subrange(p, c.len() as int))],
        }
    }
}

/// A piece of a span, with the span's style on its text.
pub open spec fn styled(piece: SegmentView, span: TextSpanView) -> SpanSegmentView {
    match piece {
        SegmentView::Text(t) => SpanSegmentView::StyledText {
            text: t,
            bold: span.bold,
            italic: span.italic,
            code: span.code,
            strikethrough: span.strikethrough,
        },
        SegmentView::InlineMath(m) => SpanSegmentView::InlineMath(m),
        SegmentView::DisplayMath(m) => SpanSegmentView::DisplayMath(m),
    }
}

/// Pieces with the span's style on their text.
pub open spec fn styled_all(pieces: Seq<SegmentView>, span: TextSpanView) -> Seq<SpanSegmentView> {
    pieces.map_values(|piece: SegmentView| styled(piece, span))
}

pub proof fn lemma_styled_all_add(a: Seq<SegmentView>, b: Seq<SegmentView>, span: TextSpanView)
    ensures
        styled_all(a + b, span) == styled_all(a, span) + styled_all(b, span),
{
    assert(styled_all(a + b, span) =~= styled_all(a, span) + styled_all(b, span));
}

/// The segments of one span.
pub open spec fn span_segments(span: TextSpanView) -> Seq<SpanSegmentView> {
    styled_all(span_pieces_from(span.text, 0), span)
}

/// The segments of a run of spans, span after span.
pub open spec fn spans_segments(spans: Seq<TextSpanView>) -> Seq<SpanSegmentView>
    decreases spans.len(),
{
    if spans.len() == 0 {
        seq![]
    } else {
        spans_segments(spans.drop_last()) + span_segments(spans.last())
    }
}

fn push_styled(out: &mut Vec<SpanSegment>, span: &TextSpan, c: &Vec<char>, lo: usize, hi: usize)
    requires
        lo <= hi <= c@.len(),
    ensures
        final(out).deep_view() == old(out).deep_view() + styled_all(text_before(c@, lo as int, hi as int), span@),
{
    if lo < hi {
        let text = string_of_range(c, lo, hi);
        out.push(
            SpanSegment::StyledText {
                text,
                bold: span.bold,
                italic: span.italic,
                code: span.code,
                strikethrough: span.strikethrough,
            },
        );
        assert(out.deep_view() =~= old(out).deep_view() + styled_all(text_before(c@, lo as int, hi as int), span@));
    } else {
        assert(out.deep_view() =~= old(out).deep_view() + styled_all(text_before(c@, lo as int, hi as int), span@));
    }
}

fn push_styled_literal(out: &mut Vec<SpanSegment>, span: &TextSpan, lit: &Vec<char>)
    ensures
        final(out).deep_view() == old(out).deep_view() + styled_all(seq![SegmentView::Text(lit@)], span@),
{
    let text = string_of_range(lit, 0, lit.len());
    assert(lit@.subrange(0, lit@.len() as int) =~= lit@);
    out.push(
        SpanSegment::StyledText {
            text,
            bold: span.bold,
            italic: span.italic,
            code: span.code,
            strikethrough: span.strikethrough,
        },
    );
    assert(out.deep_view() =~= old(out).deep_view() + styled_all(seq![SegmentView::Text(lit@)], span@));
}

/// The segments of one span, appended to `out`.
#[verifier::rlimit(40)]
fn push_span_segments(out: &mut Vec<SpanSegment>, span: &TextSpan)
    ensures
        final(out).deep_view() == old(out).deep_view() + span_segments(span@),
{
    let c = chars_of(span.text.as_str());
    let n = c.len();
    let dd_lit = vec!['$', '$'];
    let d_lit = vec!['$'];
    assert(dd_lit@ == double_dollar());
    assert(d_lit@ == dollar());
    let mut p: usize = 0;
    while p < n
        invariant
            n == c@.len(),
            c@ == span@.text,
            dd_lit@ == double_dollar(),
            d_lit@ == dollar(),
            p <= n,
            out.deep_view() + styled_all(span_pieces_from(c@, p as int), span@) == old(
                out,
            ).deep_view() + styled_all(span_pieces_from(c@, 0), span@),
        decreases n - p,
    {
        let ghost o = out.deep_view();
        let ghost p0 = p as int;
        proof {
            lemma_find_pat(c@, dollar(), p as int);
        }
        let np: usize;
        let ghost here: Seq<SegmentView>;
        match find_pat_exec(&c, &d_lit, p) {
            Some(s) => {
                proof {
                    lemma_find_double_dollar(c@, s + 2);
                    lemma_find_dollar_on_line(c@, s + 1);
                }
                push_styled(out, span, &c, p, s);
                let ghost o1 = out.deep_view();
                if s + 1 < n && c[s + 1] == '$' {
                    match crate::math_render::find_double_dollar_exec(&c, s + 2) {
                        Some(e) => {
                            let m = string_of_range(&c, s + 2, e);
                            let ghost mv = m@;
                            out.push(SpanSegment::DisplayMath(m));
                            np = e + 2;
                            proof {
                                let tail = seq![SegmentView::DisplayMath(c@.subrange(s + 2, e as int))];
                                here = text_before(c@, p0, s as int) + tail;
                                lemma_styled_all_add(text_before(c@, p0, s as int), tail, span@);
                                assert(styled_all(tail, span@) =~= seq![SpanSegmentView::DisplayMath(mv)]);
                                assert(out.deep_view() =~= o1.push(SpanSegmentView::DisplayMath(mv)));
                            }
                        },
                        None => {
                            push_styled_literal(out, span, &dd_lit);
                            np = s + 2;
                            proof {
                                let tail = seq![SegmentView::Text(double_dollar())];
                                here = text_before(c@, p0, s as int) + tail;
                                lemma_styled_all_add(text_before(c@, p0, s as int), tail, span@);
                            }
                        },
                    }
                } else {
                    match crate::math_render::find_dollar_on_line_exec(&c, s + 1) {
                        Some(e) => {
                            let (a, b) = trim_bounds(&c, s + 1, e);
                            let ghost tail = math_segment(false, trim(c@.subrange(s + 1, e as int)));
                            if a < b {
                                let m = string_of_range(&c, a, b);
                                let ghost mv = m@;
                                out.push(SpanSegment::InlineMath(m));
                                proof {
                                    assert(styled_all(tail, span@) =~= seq![SpanSegmentView::InlineMath(mv)]);
                                    assert(out.deep_view() =~= o1 + styled_all(tail, span@));
                                }
                            } else {
                                proof {
                                    assert(styled_all(tail, span@) =~= seq![]);
                                    assert(out.deep_view() =~= o1 + styled_all(tail, span@));
                                }
                            }
                            np = e + 1;
                            proof {
                                here = text_before(c@, p0, s as int) + tail;
                                lemma_styled_all_add(text_before(c@, p0, s as int), tail, span@);
                            }
                        },
                        None => {
                            push_styled_literal(out, span, &d_lit);
                            np = s + 1;
                            proof {
                                let tail = seq![SegmentView::Text(dollar())];
                                here = text_before(c@, p0, s as int) + tail;
                                lemma_styled_all_add(text_before(c@, p0, s as int), tail, span@);
                            }
                        },
                    }
                }
            },
            None => {
                push_styled(out, span, &c, p, n);
                np = n;
                proof {
                    here = text_before(c@, p0, n as int);
                }
            },
        }
        proof {
            assert(span_pieces_from(c@, p0) == here + span_pieces_from(c@, np as int));
            lemma_styled_all_add(here, span_pieces_from(c@, np as int), span@);
            assert(out.deep_view() =~= o + styled_all(here, span@));
        }
        p = np;
    }
    proof {
        assert(span_pieces_from(c@, n as int) =~= seq![]);
    }
}

/// Split a run of styled spans into styled text and math segments.
pub fn split_spans(spans: &[TextSpan]) -> (r: Vec<SpanSegment>)
    ensures
        r.deep_view() == spans_segments(spans.deep_view()),
{
    let mut out: Vec<SpanSegment> = Vec::new();
    let mut i: usize = 0;
    while i < spans.len()
        invariant
            i <= spans@.len(),
            out.deep_view() == spans_segments(spans.deep_view().take(i as int)),
        decreases spans.len() - i,
    {
        push_span_segments(&mut out, &spans[i]);
        i = i + 1;
        assert(spans.deep_view().take(i as int).drop_last() =~= spans.deep_view().take(i - 1));
    }
    assert(spans.deep_view().take(spans@.len() as int) =~= spans.deep_view());
    out
}

/// Whether any segment is math.
pub fn has_math(segs: &Vec<SpanSegment>) -> (r: bool)
    ensures
        r == exists|i: int|
            0 <= i < segs@.len() && !(#[trigger] segs.deep_view()[i] is StyledText),
{
    let mut i: usize = 0;
    while i < segs.len()
        invariant
            i <= segs@.len(),
            forall|j: int| 0 <= j < i ==> segs.deep_view()[j] is StyledText,
        decreases segs.len() - i,
    {
        match &segs[i] {
            SpanSegment::StyledText { .. } => {},
            _ => {
                assert(!(segs.deep_view()[i as int] is StyledText));
                return true;
            },
        }
        i = i + 1;
    }
    false
}

/// A span whose text holds no `$` stays one piece of text in its own style
/// (or none, when its text is empty): only `$` opens math inside a span.
pub proof fn lemma_span_without_dollar(span: TextSpanView)
    requires
        !span.text.contains('$'),
    ensures
        span_segments(span) == if span.text.len() > 0 {
            seq![
                SpanSegmentView::StyledText {
                    text: span.text,
                    bold: span.bold,
                    italic: span.italic,
                    code: span.code,
                    strikethrough: span.strikethrough,
                },
            ]
        } else {
            Seq::<SpanSegmentView>::empty()
        },
{
    let c = span.text;
    lemma_find_double_dollar(c, 0);
    lemma_find_pat(c, dollar(), 0);
    if let Some(j) = find_double_dollar(c, 0) {
        assert(c.contains('$'));
    }
    if let Some(j) = find_pat(c, dollar(), 0) {
        assert(c.subrange(j, j + 1)[0] == c[j]);
        assert(c.contains('$'));
    }
    assert(c.subrange(0, c.len() as int) =~= c);
    if c.len() > 0 {
        assert(styled_all(seq![SegmentView::Text(c)], span) =~= seq![styled(SegmentView::Text(c), span)]);
    } else {
        assert(styled_all(Seq::<SegmentView>::empty(), span) =~= Seq::<SpanSegmentView>::empty());
    }
}

} // verus!
