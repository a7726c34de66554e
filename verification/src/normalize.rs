//! The line normalizer.
//!
//! Raw input lines are trimmed of surrounding spaces, accent-folded, purged
//! of empties and duplicates, and sorted byte-lexicographically. The result
//! is the word list the grouping engine consumes; its sortedness is what
//! makes prefix runs contiguous.

use vstd::prelude::*;

use crate::codec::fold_accents;
use crate::codec::fold_c2_bytes;
use crate::codec::fold_c3_bytes;
use crate::order::bytes_eq;
use crate::order::lemma_lex_trichotomy;
use crate::order::lemma_sorted_indices;
use crate::order::lex_less;
use crate::order::lex_lt;
use crate::order::strictly_sorted;

verus! {

/// The byte views of a list of byte vectors.
pub open spec fn views(l: Seq<Vec<u8>>) -> Seq<Seq<u8>> {
    Seq::new(l.len(), |i: int| l[i]@)
}

/// Drop trailing space bytes.
pub open spec fn trim_back(s: Seq<u8>) -> Seq<u8>
    decreases s.len(),
{
    if s.len() > 0 && s[s.len() - 1] == 32 {
        trim_back(s.drop_last())
    } else {
        s
    }
}

/// Drop leading space bytes.
pub open spec fn trim_front(s: Seq<u8>) -> Seq<u8>
    decreases s.len(),
{
    if s.len() > 0 && s[0] == 32 {
        trim_front(s.skip(1))
    } else {
        s
    }
}

/// Drop spaces from both ends.
pub open spec fn trim(s: Seq<u8>) -> Seq<u8> {
    trim_front(trim_back(s))
}

/// The normal form of one input line: trimmed, then accent-folded.
pub open spec fn normal_form(s: Seq<u8>) -> Seq<u8> {
    fold_accents(trim(s))
}

/// The normalizer's contract, as a relation between the raw lines and the
/// produced word list: the words are exactly the nonempty normal forms of
/// the lines, each once, in strictly ascending byte order.
pub open spec fn normalizes_to(lines: Seq<Seq<u8>>, words: Seq<Seq<u8>>) -> bool {
    &&& strictly_sorted(words)
    &&& forall|w: Seq<u8>|
        words.contains(w) <==> (w.len() > 0 && exists|i: int|
            0 <= i < lines.len() && w == normal_form(#[trigger] lines[i]))
}

/// Trims surrounding spaces from a byte vector.
pub fn trim_bytes(x: &Vec<u8>) -> (r: Vec<u8>)
    ensures
        r@ == trim(x@),
{
    let mut end: usize = x.len();
    proof {
        assert(x@.take(x@.len() as int) =~= x@);
    }
    while end > 0 && x[end - 1] == 32
        invariant
            end <= x.len(),
            trim_back(x@) == trim_back(x@.take(end as int)),
        decreases end,
    {
        proof {
            let u = x@.take(end as int);
            assert(u[u.len() - 1] == 32);
            assert(u.drop_last() =~= x@.take(end as int - 1));
        }
        end = end - 1;
    }
    proof {
        let u = x@.take(end as int);
        assert(trim_back(u) == u);
        assert(u.skip(0) =~= u);
    }
    let ghost u = x@.take(end as int);
    let mut start: usize = 0;
    while start < end && x[start] == 32
        invariant
            start <= end <= x.len(),
            u == x@.take(end as int),
            trim_back(x@) == u,
            trim_back(u) == u,
            trim_front(u) == trim_front(u.skip(start as int)),
        decreases end - start,
    {
        proof {
            let v = u.skip(start as int);
            assert(v[0] == x@[start as int]);
            assert(v.skip(1) =~= u.skip(start as int + 1));
        }
        start = start + 1;
    }
    proof {
        let v = u.skip(start as int);
        if start < end {
            assert(v[0] == x@[start as int]);
            assert(trim_front(v) == v);
        } else {
            assert(v.len() == 0);
            assert(trim_front(v) == v);
        }
    }
    let mut r: Vec<u8> = Vec::new();
    let mut i: usize = start;
    while i < end
        invariant
            start <= i <= end <= x.len(),
            r@ =~= x@.subrange(start as int, i as int),
        decreases end - i,
    {
        r.push(x[i]);
        i = i + 1;
    }
    proof {
        assert(r@ =~= u.skip(start as int));
    }
    r
}

/// Computes the normal form of one line: trim, then both accent folds.
pub fn normal_form_bytes(x: &Vec<u8>) -> (r: Vec<u8>)
    ensures
        r@ == normal_form(x@),
{
    let t = trim_bytes(x);
    let f2 = fold_c2_bytes(&t);
    fold_c3_bytes(&f2)
}

/// Inserts a word into a strictly sorted list, keeping it strictly sorted;
/// a word already present is not inserted again.
fn insert_unique_sorted(out: &mut Vec<Vec<u8>>, w: Vec<u8>)
    requires
        strictly_sorted(views(old(out)@)),
    ensures
        strictly_sorted(views(final(out)@)),
        forall|v: Seq<u8>|
            views(final(out)@).contains(v) <==> (views(old(out)@).contains(v) || v == w@),
{
    let ghost olds = views(out@);
    let mut j: usize = 0;
    while j < out.len() && lex_less(&out[j], &w)
        invariant
            j <= out.len(),
            out@ == old(out)@,
            forall|k: int| 0 <= k < j ==> lex_lt(#[trigger] views(out@)[k], w@),
        decreases out.len() - j,
    {
        j = j + 1;
    }
    if j < out.len() && bytes_eq(&out[j], &w) {
        proof {
            assert(views(out@)[j as int] == w@);
            assert(views(out@).contains(w@));
        }
        return ;
    }
    proof {
        if j < out@.len() {
            lemma_lex_trichotomy(views(out@)[j as int], w@);
            assert(lex_lt(w@, views(out@)[j as int]));
        }
    }
    let ghost jj = j as int;
    out.insert(j, w);
    proof {
        let news = views(out@);
        assert(news =~= olds.insert(jj, w@)) by {
            assert(forall|k: int| 0 <= k < news.len() ==> news[k] == olds.insert(jj, w@)[k]);
        }
        assert(strictly_sorted(news)) by {
            assert(forall|i: int|
                0 <= i < news.len() - 1 ==> lex_lt(#[trigger] news[i], news[i + 1])) by {
                assert(forall|i: int|
                    0 <= i < jj - 1 ==> #[trigger] news[i] == olds[i] && news[i + 1] == olds[i
                        + 1]);
                assert(forall|i: int|
                    jj < i < news.len() - 1 ==> #[trigger] news[i] == olds[i - 1] && news[i + 1]
                        == olds[i]);
                if jj > 0 {
                    assert(news[jj - 1] == olds[jj - 1]);
                    assert(lex_lt(news[jj - 1], w@));
                }
                if jj < news.len() - 1 {
                    assert(news[jj + 1] == olds[jj]);
                }
            }
        }
        assert(forall|v: Seq<u8>| news.contains(v) <==> (olds.contains(v) || v == w@)) by {
            assert(forall|v: Seq<u8>| #[trigger] olds.contains(v) ==> news.contains(v)) by {
                assert(forall|k: int|
                    0 <= k < olds.len() ==> #[trigger] olds[k] == (if k < jj {
                        news[k]
                    } else {
                        news[k + 1]
                    }));
            }
            assert(news[jj] == w@);
            assert(news.contains(w@));
            assert(forall|v: Seq<u8>| #[trigger] news.contains(v) && v != w@ ==> olds.contains(v))
                by {
                assert(forall|k: int|
                    0 <= k < news.len() && k != jj ==> #[trigger] news[k] == (if k < jj {
                        olds[k]
                    } else {
                        olds[k - 1]
                    }));
            }
        }
    }
}

/// Normalizes the raw line list in place: trims every line, folds accented
/// letters to single bytes, drops blanks, sorts, and removes duplicates.
pub fn pre_process(input: &mut Vec<Vec<u8>>)
    ensures
        normalizes_to(views(old(input)@), views(final(input)@)),
{
    let ghost lines = views(input@);
    let mut out: Vec<Vec<u8>> = Vec::new();
    let mut k: usize = 0;
    while k < input.len()
        invariant
            k <= input.len(),
            input@ == old(input)@,
            lines == views(input@),
            strictly_sorted(views(out@)),
            forall|w: Seq<u8>|
                views(out@).contains(w) <==> (w.len() > 0 && exists|i: int|
                    0 <= i < k && w == normal_form(#[trigger] lines[i])),
        decreases input.len() - k,
    {
        let w = normal_form_bytes(&input[k]);
        let ghost wv = w@;
        let ghost pres = views(out@);
        if w.len() > 0 {
            insert_unique_sorted(&mut out, w);
            proof {
                assert(lines[k as int] == input@[k as int]@);
                assert(forall|v: Seq<u8>|
                    views(out@).contains(v) <==> (v.len() > 0 && exists|i: int|
                        0 <= i < k + 1 && v == normal_form(#[trigger] lines[i]))) by {
                    assert(wv == normal_form(lines[k as int]));
                    assert(forall|i: int|
                        0 <= i < k && normal_form(#[trigger] lines[i]).len() > 0 ==> pres.contains(
                            normal_form(lines[i]),
                        ));
                }
            }
        } else {
            proof {
                assert(normal_form(lines[k as int]).len() == 0);
                assert(forall|v: Seq<u8>|
                    views(out@).contains(v) <==> (v.len() > 0 && exists|i: int|
                        0 <= i < k + 1 && v == normal_form(#[trigger] lines[i]))) by {
                    assert(forall|i: int|
                        0 <= i < k + 1 && normal_form(#[trigger] lines[i]).len() > 0 ==> i < k);
                }
            }
        }
        k = k + 1;
    }
    *input = out;
}

/// Some line of the list has this nonempty normal form.
pub open spec fn normal_set_member(lines: Seq<Seq<u8>>, w: Seq<u8>) -> bool {
    w.len() > 0 && exists|i: int| 0 <= i < lines.len() && w == normal_form(#[trigger] lines[i])
}

/// Two raw line lists with the same nonempty normal forms — for instance,
/// lists differing only in duplicate lines, blank lines, or surrounding
/// spaces — admit exactly the same normalizer outputs.
pub proof fn lemma_normalize_line_insensitive(a: Seq<Seq<u8>>, b: Seq<Seq<u8>>, ws: Seq<Seq<u8>>)
    requires
        forall|w: Seq<u8>| #[trigger] normal_set_member(a, w) <==> normal_set_member(b, w),
        normalizes_to(a, ws),
    ensures
        normalizes_to(b, ws),
{
    assert forall|w: Seq<u8>| #[trigger]
        ws.contains(w) <==> (w.len() > 0 && exists|i: int|
            0 <= i < b.len() && w == normal_form(#[trigger] b[i])) by {
        assert(ws.contains(w) <==> normal_set_member(a, w));
        assert(normal_set_member(b, w) <==> (w.len() > 0 && exists|i: int|
            0 <= i < b.len() && w == normal_form(#[trigger] b[i])));
    }
}

/// A word list is in normal form when it is strictly sorted and every word
/// is nonempty, trimmed, and free of foldable accent pairs.
pub open spec fn is_normalized(ws: Seq<Seq<u8>>) -> bool {
    &&& strictly_sorted(ws)
    &&& forall|i: int|
        0 <= i < ws.len() ==> (#[trigger] ws[i]).len() > 0 && normal_form(ws[i]) == ws[i]
}

/// An already-normalized list satisfies the normalizer's contract with
/// itself as output: normalization is a no-op on it.
pub proof fn lemma_normalize_fixed(ws: Seq<Seq<u8>>)
    requires
        is_normalized(ws),
    ensures
        normalizes_to(ws, ws),
{
    assert(forall|w: Seq<u8>|
        ws.contains(w) ==> (w.len() > 0 && exists|i: int|
            0 <= i < ws.len() && w == normal_form(#[trigger] ws[i]))) by {
        assert(forall|k: int|
            0 <= k < ws.len() ==> #[trigger] ws[k] == normal_form(ws[k]) && ws[k].len() > 0);
    }
    assert(forall|i: int| 0 <= i < ws.len() ==> ws.contains(normal_form(#[trigger] ws[i]))) by {
        assert(forall|k: int|
            0 <= k < ws.len() ==> #[trigger] ws[k] == normal_form(ws[k]) && ws[k].len() > 0);
    }
}

/// Normalization is idempotent: on an already-normalized list, the only
/// output the normalizer's contract admits is the list itself.
pub proof fn lemma_normalize_idempotent(ws: Seq<Seq<u8>>, out: Seq<Seq<u8>>)
    requires
        is_normalized(ws),
        normalizes_to(ws, out),
    ensures
        out == ws,
{
    lemma_normalize_fixed(ws);
    lemma_sorted_set_unique(out, ws);
}

/// Two strictly sorted lists with the same members are equal: the
/// normalizer's contract determines its output uniquely.
pub proof fn lemma_sorted_set_unique(a: Seq<Seq<u8>>, b: Seq<Seq<u8>>)
    requires
        strictly_sorted(a),
        strictly_sorted(b),
        forall|w: Seq<u8>| a.contains(w) <==> b.contains(w),
    ensures
        a == b,
    decreases a.len(),
{
    if a.len() == 0 {
        if b.len() > 0 {
            assert(b.contains(b[0]));
            assert(a.contains(b[0]));
            assert(false);
        }
        assert(a =~= b);
    } else if b.len() == 0 {
        assert(a.contains(a[0]));
        assert(b.contains(a[0]));
        assert(false);
    } else {
        assert(a.contains(a[0]));
        assert(b.contains(a[0]));
        let j = choose|j: int| 0 <= j < b.len() && b[j] == a[0];
        assert(b.contains(b[0]));
        assert(a.contains(b[0]));
        let i = choose|i: int| 0 <= i < a.len() && a[i] == b[0];
        if j > 0 {
            lemma_sorted_indices(b, 0, j);
            if i > 0 {
                lemma_sorted_indices(a, 0, i);
                lemma_lex_trichotomy(a[0], b[0]);
                crate::order::lemma_lex_lt_trans(a[0], b[0], a[0]);
                lemma_lex_trichotomy(a[0], a[0]);
                assert(false);
            } else {
                lemma_lex_trichotomy(a[0], a[0]);
                assert(false);
            }
        }
        assert(a[0] == b[0]);
        let at = a.skip(1);
        let bt = b.skip(1);
        assert(strictly_sorted(at)) by {
            assert(forall|p: int|
                0 <= p < at.len() - 1 ==> #[trigger] at[p] == a[p + 1] && at[p + 1] == a[p + 2]);
        }
        assert(strictly_sorted(bt)) by {
            assert(forall|p: int|
                0 <= p < bt.len() - 1 ==> #[trigger] bt[p] == b[p + 1] && bt[p + 1] == b[p + 2]);
        }
        assert(forall|w: Seq<u8>| at.contains(w) <==> bt.contains(w)) by {
            assert(forall|w: Seq<u8>| #[trigger] at.contains(w) ==> bt.contains(w)) by {
                assert(forall|p: int|
                    0 <= p < at.len() ==> #[trigger] at[p] == a[p + 1] && a.contains(a[p + 1]));
                assert forall|w: Seq<u8>| #[trigger] at.contains(w) implies bt.contains(w) by {
                    let p = choose|p: int| 0 <= p < at.len() && at[p] == w;
                    assert(a[p + 1] == w);
                    assert(a.contains(w));
                    assert(b.contains(w));
                    let q = choose|q: int| 0 <= q < b.len() && b[q] == w;
                    if q == 0 {
                        lemma_sorted_indices(a, 0, p + 1);
                        lemma_lex_trichotomy(a[0], a[0]);
                        assert(false);
                    }
                    assert(bt[q - 1] == w);
                    assert(bt.contains(w));
                }
            }
            assert(forall|w: Seq<u8>| #[trigger] bt.contains(w) ==> at.contains(w)) by {
                assert forall|w: Seq<u8>| #[trigger] bt.contains(w) implies at.contains(w) by {
                    let p = choose|p: int| 0 <= p < bt.len() && bt[p] == w;
                    assert(b[p + 1] == w);
                    assert(b.contains(w));
                    assert(a.contains(w));
                    let q = choose|q: int| 0 <= q < a.len() && a[q] == w;
                    if q == 0 {
                        lemma_sorted_indices(b, 0, p + 1);
                        lemma_lex_trichotomy(b[0], b[0]);
                        assert(false);
                    }
                    assert(at[q - 1] == w);
                    assert(at.contains(w));
                }
            }
        }
        lemma_sorted_set_unique(at, bt);
        assert(a =~= b) by {
            assert(forall|p: int| 1 <= p < a.len() ==> #[trigger] a[p] == at[p - 1]);
            assert(forall|p: int| 1 <= p < b.len() ==> #[trigger] b[p] == bt[p - 1]);
        }
    }
}

} // verus!
