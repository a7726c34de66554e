//! The trie-flattening engine.
//!
//! One group is consumed in a single pass: letters common to a run of
//! adjacent suffixes are emitted once and open a nested alternation, a word
//! ending inside a shared prefix is absorbed as an optional-suffix debt, and
//! lone branches are flushed literally. Two parallel stacks (`counts`,
//! `eph`) stand in for what would otherwise be recursion depth. A step
//! budget bounds the pass: the loop provably terminates, and a state the
//! case analysis does not resolve gives up cleanly instead of looping or
//! panicking.

use vstd::prelude::*;

use crate::balance::lemma_excess_concat;
use crate::balance::lemma_excess_no_parens;
use crate::balance::lemma_excess_pair;
use crate::balance::lemma_excess_push;
use crate::balance::lemma_excess_single;
use crate::balance::lemma_no_parens_remove;
use crate::balance::lemma_vecs_no_parens_insert;
use crate::balance::lemma_vecs_no_parens_remove;
use crate::balance::no_parens;
use crate::balance::paren_delta;
use crate::balance::paren_excess;
use crate::balance::vecs_no_parens;
use crate::group::LSubGroup;
use crate::order::common_prefix_len;
use crate::order::lemma_common_prefix;
use crate::order::lemma_lex_lt_prefix;
use crate::order::lex_lt;

verus! {

/// The fragment the engine emits for a group of exactly two suffixes in
/// sorted order: the shared prefix is factored once, and either the second
/// suffix extends the first (which then ends there as an optional suffix —
/// a bare `x?` when the extension is a single letter, an optional group
/// otherwise) or the two diverging tails form a two-branch alternation.
pub open spec fn two_suffix_fragment(h: u8, t1: Seq<u8>, t2: Seq<u8>) -> Seq<u8> {
    let m = common_prefix_len(t1, t2);
    if m == t1.len() {
        let tail = t2.skip(m);
        if tail.len() == 1 {
            seq![h] + t1 + tail + seq![63u8, 124u8]
        } else {
            seq![h] + t1 + seq![40u8] + tail + seq![41u8, 63u8, 124u8]
        }
    } else {
        seq![h] + t1.take(m) + seq![40u8] + t1.skip(m) + seq![124u8] + t2.skip(m) + seq![
            41u8,
            124u8,
        ]
    }
}

/// Pass state for a two-suffix group: about to take the next letter off the
/// front suffix, `m` shared letters already consumed and merged.
spec fn ts_a(w: LSubGroup, g: LSubGroup, t1: Seq<u8>, t2: Seq<u8>, m: int) -> bool {
    &&& 0 <= m <= common_prefix_len(t1, t2)
    &&& w.inp@.len() == 2
    &&& w.inp@[0]@ == t1.skip(m)
    &&& w.inp@[1]@ == t2.skip(m)
    &&& w.outp@ == seq![g.l_last] + t1.take(m) + seq![40u8]
    &&& w.counts@ == seq![2usize]
    &&& w.eph@.len() == 0
    &&& w.n_match == 0
    &&& w.i_next == 0
}

/// Pass state for a two-suffix group: letter `t1[m]` taken, about to
/// compare it against the second suffix.
spec fn ts_b(w: LSubGroup, g: LSubGroup, t1: Seq<u8>, t2: Seq<u8>, m: int) -> bool {
    &&& 0 <= m <= common_prefix_len(t1, t2)
    &&& m < t1.len()
    &&& w.inp@.len() == 2
    &&& w.inp@[0]@ == t1.skip(m + 1)
    &&& w.inp@[1]@ == t2.skip(m)
    &&& w.l_last == t1[m]
    &&& w.outp@ == seq![g.l_last] + t1.take(m) + seq![40u8]
    &&& w.counts@ == seq![2usize]
    &&& w.eph@.len() == 0
    &&& w.n_match == 1
    &&& w.i_next == 1
}

/// Pass state after the tails diverged: the first tail is flushed as a
/// branch, only the second remains.
spec fn ts_c(w: LSubGroup, g: LSubGroup, t1: Seq<u8>, t2: Seq<u8>) -> bool {
    let m = common_prefix_len(t1, t2);
    &&& m < t1.len()
    &&& w.inp@.len() == 1
    &&& w.inp@[0]@ == t2.skip(m)
    &&& w.outp@ == seq![g.l_last] + t1.take(m) + seq![40u8] + t1.skip(m) + seq![124u8]
    &&& w.counts@ == seq![1usize]
    &&& w.eph@.len() == 0
    &&& w.n_match == 0
    &&& w.i_next == 0
}

/// Pass state after the first word ended inside the second: its empty
/// suffix was absorbed as an optional debt, only the extension remains.
spec fn ts_d(w: LSubGroup, g: LSubGroup, t1: Seq<u8>, t2: Seq<u8>) -> bool {
    let m = common_prefix_len(t1, t2);
    &&& m == t1.len()
    &&& w.inp@.len() == 1
    &&& w.inp@[0]@ == t2.skip(m)
    &&& w.outp@ == seq![g.l_last] + t1 + seq![40u8]
    &&& w.counts@ == seq![1usize]
    &&& w.eph@ == seq![1usize]
    &&& w.n_match == 0
    &&& w.i_next == 0
}

/// Pass state once the group is drained: the fragment is complete.
spec fn ts_e(w: LSubGroup, g: LSubGroup, t1: Seq<u8>, t2: Seq<u8>) -> bool {
    &&& w.inp@.len() == 0
    &&& w.outp@ == two_suffix_fragment(g.l_last, t1, t2)
    &&& w.counts@ == seq![1usize]
    &&& w.eph@.len() == 0
}

/// The two-suffix pass is always in one of the five states, with the step
/// budget tracking how far it has come; `shift` accounts for the budget
/// decrement still owed within the current iteration.
spec fn ts_inv(w: LSubGroup, g: LSubGroup, t1: Seq<u8>, t2: Seq<u8>, shift: int) -> bool {
    let cpl = common_prefix_len(t1, t2);
    let gl = g.lim as int;
    let wl = w.lim as int;
    ||| (exists|m: int| #[trigger] ts_a(w, g, t1, t2, m) && wl == gl - 2 * m + shift)
    ||| (exists|m: int| #[trigger] ts_b(w, g, t1, t2, m) && wl == gl - 2 * m - 1 + shift)
    ||| (ts_c(w, g, t1, t2) && wl == gl - 2 * cpl - 2 + shift)
    ||| (ts_d(w, g, t1, t2) && wl == gl - 2 * cpl - 1 + shift)
    ||| (ts_e(w, g, t1, t2) && wl >= 1 + shift)
}

/// The byte can appear in the group's fragment: it is the group letter,
/// one of the four structural bytes `( ) ? |`, or a byte of some suffix.
pub open spec fn from_group(g: LSubGroup, b: u8) -> bool {
    ||| b == g.l_last
    ||| b == 40
    ||| b == 41
    ||| b == 63
    ||| b == 124
    ||| exists|i: int, j: int|
        0 <= i < g.inp@.len() && 0 <= j < g.inp@[i]@.len() && #[trigger] g.inp@[i]@[j] == b
}

/// Every byte of the buffer can appear in the group's fragment.
pub open spec fn bytes_from(s: Seq<u8>, g: LSubGroup) -> bool {
    forall|k: int| 0 <= k < s.len() ==> from_group(g, #[trigger] s[k])
}

/// Every byte of every word of the list can appear in the fragment.
pub open spec fn words_from(l: Seq<Vec<u8>>, g: LSubGroup) -> bool {
    forall|i: int| 0 <= i < l.len() ==> bytes_from((#[trigger] l[i])@, g)
}

proof fn lemma_words_from_remove(l: Seq<Vec<u8>>, i: int, g: LSubGroup)
    requires
        words_from(l, g),
        0 <= i < l.len(),
    ensures
        words_from(l.remove(i), g),
{
    l.remove_ensures(i);
}

proof fn lemma_words_from_insert(l: Seq<Vec<u8>>, i: int, v: Vec<u8>, g: LSubGroup)
    requires
        words_from(l, g),
        bytes_from(v@, g),
        0 <= i <= l.len(),
    ensures
        words_from(l.insert(i, v), g),
{
    let t = l.insert(i, v);
    assert forall|j: int| 0 <= j < t.len() implies bytes_from((#[trigger] t[j])@, g) by {
        if j < i {
            assert(t[j] == l[j]);
        } else if j == i {
            assert(t[j] == v);
        } else {
            assert(t[j] == l[j - 1]);
        }
    }
}

proof fn lemma_bytes_from_remove(s: Seq<u8>, i: int, g: LSubGroup)
    requires
        bytes_from(s, g),
        0 <= i < s.len(),
    ensures
        bytes_from(s.remove(i), g),
{
    s.remove_ensures(i);
}

proof fn lemma_bytes_from_push(s: Seq<u8>, b: u8, g: LSubGroup)
    requires
        bytes_from(s, g),
        from_group(g, b),
    ensures
        bytes_from(s.push(b), g),
{
    assert(forall|k: int| 0 <= k < s.len() ==> #[trigger] s.push(b)[k] == s[k]);
    assert(s.push(b)[s.len() as int] == b);
}

proof fn lemma_bytes_from_concat(a: Seq<u8>, b: Seq<u8>, g: LSubGroup)
    requires
        bytes_from(a, g),
        bytes_from(b, g),
    ensures
        bytes_from(a + b, g),
{
    assert(forall|k: int| 0 <= k < a.len() ==> #[trigger] (a + b)[k] == a[k]);
    assert(forall|k: int| a.len() <= k < a.len() + b.len() ==> #[trigger] (a + b)[k] == b[k
        - a.len()]);
}

proof fn lemma_bytes_from_drop_last(s: Seq<u8>, g: LSubGroup)
    requires
        bytes_from(s, g),
        s.len() >= 1,
    ensures
        bytes_from(s.drop_last(), g),
{
    assert(forall|k: int| 0 <= k < s.len() - 1 ==> #[trigger] s.drop_last()[k] == s[k]);
}

/// With the cursor at zero on two suffixes, the pass must be about to take
/// a letter: state `ts_a`, at a recoverable depth.
proof fn lemma_ts_at_a(w: LSubGroup, g: LSubGroup, t1: Seq<u8>, t2: Seq<u8>) -> (m: int)
    requires
        ts_inv(w, g, t1, t2, 0),
        w.inp@.len() == 2,
        w.i_next == 0,
    ensures
        ts_a(w, g, t1, t2, m),
        (w.lim as int) == (g.lim as int) - 2 * m,
{
    let cpl = common_prefix_len(t1, t2);
    let gl = g.lim as int;
    let wl = w.lim as int;
    if exists|k: int| #[trigger] ts_a(w, g, t1, t2, k) && wl == gl - 2 * k {
        choose|k: int| #[trigger] ts_a(w, g, t1, t2, k) && wl == gl - 2 * k
    } else {
        if exists|k: int| #[trigger] ts_b(w, g, t1, t2, k) && wl == gl - 2 * k - 1 {
            let k = choose|k: int| #[trigger] ts_b(w, g, t1, t2, k) && wl == gl - 2 * k - 1;
            assert(false);
        }
        assert(false);
        0
    }
}

/// With the cursor advanced on two suffixes, the pass must be comparing:
/// state `ts_b`, at a recoverable depth.
proof fn lemma_ts_at_b(w: LSubGroup, g: LSubGroup, t1: Seq<u8>, t2: Seq<u8>) -> (m: int)
    requires
        ts_inv(w, g, t1, t2, 0),
        w.inp@.len() >= 2,
        w.i_next != 0,
    ensures
        ts_b(w, g, t1, t2, m),
        (w.lim as int) == (g.lim as int) - 2 * m - 1,
{
    let cpl = common_prefix_len(t1, t2);
    let gl = g.lim as int;
    let wl = w.lim as int;
    if exists|k: int| #[trigger] ts_b(w, g, t1, t2, k) && wl == gl - 2 * k - 1 {
        choose|k: int| #[trigger] ts_b(w, g, t1, t2, k) && wl == gl - 2 * k - 1
    } else {
        if exists|k: int| #[trigger] ts_a(w, g, t1, t2, k) && wl == gl - 2 * k {
            let k = choose|k: int| #[trigger] ts_a(w, g, t1, t2, k) && wl == gl - 2 * k;
            assert(false);
        }
        assert(false);
        0
    }
}

/// With one suffix left, the pass is in an endgame state: a diverged tail
/// (`ts_c`) or an absorbed prefix word (`ts_d`).
proof fn lemma_ts_at_cd(w: LSubGroup, g: LSubGroup, t1: Seq<u8>, t2: Seq<u8>)
    requires
        ts_inv(w, g, t1, t2, 0),
        w.inp@.len() == 1,
    ensures
        (ts_c(w, g, t1, t2) && (w.lim as int) == (g.lim as int) - 2 * common_prefix_len(t1, t2)
            - 2) || (ts_d(w, g, t1, t2) && (w.lim as int) == (g.lim as int) - 2
            * common_prefix_len(t1, t2) - 1),
{
    let cpl = common_prefix_len(t1, t2);
    let gl = g.lim as int;
    let wl = w.lim as int;
    if exists|k: int| #[trigger] ts_a(w, g, t1, t2, k) && wl == gl - 2 * k {
        let k = choose|k: int| #[trigger] ts_a(w, g, t1, t2, k) && wl == gl - 2 * k;
        assert(false);
    }
    if exists|k: int| #[trigger] ts_b(w, g, t1, t2, k) && wl == gl - 2 * k - 1 {
        let k = choose|k: int| #[trigger] ts_b(w, g, t1, t2, k) && wl == gl - 2 * k - 1;
        assert(false);
    }
}

/// In every two-suffix pass state the innermost depth still has a branch.
proof fn lemma_ts_counts(w: LSubGroup, g: LSubGroup, t1: Seq<u8>, t2: Seq<u8>, shift: int)
    requires
        ts_inv(w, g, t1, t2, shift),
    ensures
        w.counts@.len() >= 1,
        w.counts@.last() >= 1,
{
    let cpl = common_prefix_len(t1, t2);
    let gl = g.lim as int;
    let wl = w.lim as int;
    if exists|k: int| #[trigger] ts_a(w, g, t1, t2, k) && wl == gl - 2 * k + shift {
        let k = choose|k: int| #[trigger] ts_a(w, g, t1, t2, k) && wl == gl - 2 * k + shift;
    } else if exists|k: int| #[trigger] ts_b(w, g, t1, t2, k) && wl == gl - 2 * k - 1 + shift {
        let k = choose|k: int| #[trigger] ts_b(w, g, t1, t2, k) && wl == gl - 2 * k - 1 + shift;
    }
}

/// Paying the iteration's budget decrement moves the invariant's shift
/// down, and the budget stays positive while the bound of the two-suffix
/// hypothesis holds.
proof fn lemma_ts_dec(w1: LSubGroup, w2: LSubGroup, g: LSubGroup, t1: Seq<u8>, t2: Seq<u8>)
    requires
        ts_inv(w1, g, t1, t2, 1),
        2 * common_prefix_len(t1, t2) + 4 <= g.lim,
        w2.inp == w1.inp,
        w2.outp == w1.outp,
        w2.counts == w1.counts,
        w2.eph == w1.eph,
        w2.n_match == w1.n_match,
        w2.i_next == w1.i_next,
        w2.l_last == w1.l_last,
        (w2.lim as int) == (w1.lim as int) - 1,
    ensures
        ts_inv(w2, g, t1, t2, 0),
        w2.lim >= 1,
{
    let cpl = common_prefix_len(t1, t2);
    let gl = g.lim as int;
    let wl = w1.lim as int;
    if exists|k: int| #[trigger] ts_a(w1, g, t1, t2, k) && wl == gl - 2 * k + 1 {
        let k = choose|k: int| #[trigger] ts_a(w1, g, t1, t2, k) && wl == gl - 2 * k + 1;
        assert(ts_a(w2, g, t1, t2, k));
    } else if exists|k: int| #[trigger] ts_b(w1, g, t1, t2, k) && wl == gl - 2 * k - 1 + 1 {
        let k = choose|k: int| #[trigger] ts_b(w1, g, t1, t2, k) && wl == gl - 2 * k - 1 + 1;
        assert(ts_b(w2, g, t1, t2, k));
    } else if ts_c(w1, g, t1, t2) {
        assert(ts_c(w2, g, t1, t2));
    } else if ts_d(w1, g, t1, t2) {
        assert(ts_d(w2, g, t1, t2));
    } else {
        assert(ts_e(w1, g, t1, t2) && wl >= 2);
        assert(ts_e(w2, g, t1, t2));
    }
}

/// A drained two-suffix pass carries the finished fragment.
proof fn lemma_ts_empty(w: LSubGroup, g: LSubGroup, t1: Seq<u8>, t2: Seq<u8>)
    requires
        ts_inv(w, g, t1, t2, 0),
        w.inp@.len() == 0,
    ensures
        ts_e(w, g, t1, t2),
{
    let cpl = common_prefix_len(t1, t2);
    let gl = g.lim as int;
    let wl = w.lim as int;
    if exists|k: int| #[trigger] ts_a(w, g, t1, t2, k) && wl == gl - 2 * k {
        let k = choose|k: int| #[trigger] ts_a(w, g, t1, t2, k) && wl == gl - 2 * k;
        assert(false);
    }
    if exists|k: int| #[trigger] ts_b(w, g, t1, t2, k) && wl == gl - 2 * k - 1 {
        let k = choose|k: int| #[trigger] ts_b(w, g, t1, t2, k) && wl == gl - 2 * k - 1;
        assert(false);
    }
}

/// Every entry of the vector is at least one.
fn all_at_least_one(v: &Vec<usize>) -> (r: bool)
    ensures
        r == (forall|k: int| 0 <= k < v@.len() ==> v@[k] >= 1),
{
    let mut k: usize = 0;
    while k < v.len()
        invariant
            k <= v@.len(),
            forall|j: int| 0 <= j < k ==> v@[j] >= 1,
        decreases v@.len() - k,
    {
        if v[k] < 1 {
            return false;
        }
        k = k + 1;
    }
    true
}

/// Flattens one group into its regex fragment, ending in a `|` separator.
///
/// A group of a single suffix is the degenerate leaf case and produces
/// exactly the letter, the suffix, and the separator, with no parentheses;
/// when those bytes are plain literals, the fragment's language is exactly
/// that one word. A group of two sorted paren-free suffixes always
/// succeeds within the budget bound of the contract, produces exactly
/// `two_suffix_fragment`, and — for plain literal bytes — its fragment
/// matches exactly the group's two words. In general the fragment starts
/// with the group letter, ends with the separator, holds only bytes the
/// group supplies plus the four structural bytes, and — when the group's
/// bytes carry no parens of their own — closes every paren it opens.
///
/// `None` is returned when the step budget runs out before the suffix list
/// empties, and on a handful of guarded states (an empty suffix at the
/// cursor, exhausted depth counts, a close-collapse without its open
/// paren) that the case analysis does not resolve; those states do not
/// arise from groups the partitioner builds out of sorted distinct words,
/// which the one- and two-suffix clauses witness, but for deeper groups
/// that is checked rather than proved.
#[verifier::rlimit(100)]
pub fn treeify(words: LSubGroup) -> (r: Option<Vec<u8>>)
    requires
        words.inp@.len() >= 1,
        words.counts@.len() == 1,
        words.counts@[0] == words.inp@.len(),
        words.outp@ == seq![words.l_last, 40u8],
        words.n_match == 0,
        words.i_next == 0,
        words.eph@.len() == 0,
        words.lim >= 1,
    ensures
        words.inp@.len() == 1 ==> r is Some,
        r matches Some(o) ==> (words.inp@.len() == 1 ==> o@ == seq![words.l_last] + words.inp@[0]@
            + seq![124u8]),
        r matches Some(o) ==> o@.len() >= 2 && o@[0] == words.l_last && o@[o@.len() - 1] == 124u8,
        vecs_no_parens(words.inp@) && words.l_last != 40 && words.l_last != 41 && r is Some
            ==> paren_excess(r->0@) == 0,
        ({
            let t1 = words.inp@[0]@;
            let t2 = words.inp@[1]@;
            (words.inp@.len() == 2 && lex_lt(t1, t2) && no_parens(t1) && no_parens(t2) && 2
                * common_prefix_len(t1, t2) + 4 <= words.lim) ==> (r is Some && r->0@
                == two_suffix_fragment(words.l_last, t1, t2))
        }),
        r matches Some(o) ==> (words.inp@.len() == 1 && crate::lang::literal_word(
            seq![words.l_last] + words.inp@[0]@,
        ) ==> (forall|v: Seq<u8>|
            crate::lang::alt_matches(o@.drop_last(), v) <==> v == seq![words.l_last]
                + words.inp@[0]@)),
        r matches Some(o) ==> bytes_from(o@, words),
        ({
            let t1 = words.inp@[0]@;
            let t2 = words.inp@[1]@;
            (words.inp@.len() == 2 && lex_lt(t1, t2) && no_parens(t1) && no_parens(t2) && 2
                * common_prefix_len(t1, t2) + 4 <= words.lim && crate::lang::literal_word(
                seq![words.l_last],
            ) && crate::lang::literal_word(t1) && crate::lang::literal_word(t2)) ==> (r is Some
                && (forall|v: Seq<u8>|
                crate::lang::alt_matches(r->0@.drop_last(), v) <==> (v == seq![words.l_last] + t1
                    || v == seq![words.l_last] + t2)))
        }),
{
    let ghost g = words;
    let mut w = words;
    let ghost l0 = g.l_last;
    let ghost p = vecs_no_parens(g.inp@) && l0 != 40 && l0 != 41;
    if w.inp.len() == 1 {
        w.outp.pop();
        let mut first = w.inp.remove(0);
        w.outp.append(&mut first);
        w.outp.push(124);
        proof {
            assert(g.outp@.subrange(0, 1) =~= seq![l0]);
            assert(w.outp@ =~= seq![l0] + g.inp@[0]@ + seq![124u8]);
            if p {
                assert(no_parens(g.inp@[0]@));
                lemma_excess_concat(seq![l0] + g.inp@[0]@, seq![124u8]);
                lemma_excess_concat(seq![l0], g.inp@[0]@);
                lemma_excess_single(l0);
                lemma_excess_single(124u8);
                lemma_excess_no_parens(g.inp@[0]@);
            }
            assert(bytes_from(w.outp@, g)) by {
                assert forall|k: int| 0 <= k < w.outp@.len() implies from_group(
                    g,
                    w.outp@[k],
                ) by {
                    if 1 <= k < 1 + g.inp@[0]@.len() {
                        assert(w.outp@[k] == g.inp@[0]@[k - 1]);
                    }
                }
            }
            let lit = seq![l0] + g.inp@[0]@;
            if crate::lang::literal_word(lit) {
                assert(w.outp@.drop_last() =~= lit);
                assert forall|v: Seq<u8>| crate::lang::alt_matches(w.outp@.drop_last(), v) <==> v
                    == lit by {
                    crate::lang::lemma_literal_matches(lit, v);
                }
            }
        }
        return Some(w.outp);
    }
    let ghost t1 = g.inp@[0]@;
    let ghost t2 = g.inp@[1]@;
    let ghost cpl = common_prefix_len(t1, t2);
    let ghost h2 = g.inp@.len() == 2 && lex_lt(t1, t2) && no_parens(t1) && no_parens(t2) && 2
        * cpl + 4 <= g.lim;
    let ghost lit2 = h2 && crate::lang::literal_word(seq![l0]) && crate::lang::literal_word(t1)
        && crate::lang::literal_word(t2);
    proof {
        if p {
            lemma_excess_pair(l0, 40u8);
        }
        if h2 {
            lemma_common_prefix(t1, t2);
            lemma_lex_lt_prefix(t1, t2);
            assert(t1.skip(0) =~= t1);
            assert(t2.skip(0) =~= t2);
            assert(w.outp@ =~= seq![g.l_last] + t1.take(0) + seq![40u8]);
            assert(w.counts@ =~= seq![2usize]);
            assert(ts_a(w, g, t1, t2, 0));
            assert(ts_inv(w, g, t1, t2, 0));
        }
        assert(words_from(w.inp@, g)) by {
            assert forall|i: int| 0 <= i < w.inp@.len() implies bytes_from(
                (#[trigger] w.inp@[i])@,
                g,
            ) by {
                assert forall|k: int| 0 <= k < w.inp@[i]@.len() implies from_group(
                    g,
                    w.inp@[i]@[k],
                ) by {
                    assert(g.inp@[i]@[k] == w.inp@[i]@[k]);
                }
            }
        }
        assert(bytes_from(w.outp@, g)) by {
            assert(w.outp@[0] == g.l_last && w.outp@[1] == 40u8);
        }
    }

    while !w.inp.is_empty()
        invariant
            g == words,
            g.inp@.len() >= 2,
            g.l_last == l0,
            p == (vecs_no_parens(g.inp@) && l0 != 40 && l0 != 41),
            h2 == (g.inp@.len() == 2 && lex_lt(t1, t2) && no_parens(t1) && no_parens(t2) && 2 * cpl
                + 4 <= g.lim),
            lit2 == (h2 && crate::lang::literal_word(seq![l0]) && crate::lang::literal_word(t1)
                && crate::lang::literal_word(t2)),
            cpl == common_prefix_len(t1, t2),
            t1 == g.inp@[0]@ && t2 == g.inp@[1]@,
            h2 ==> 0 <= cpl <= t1.len() && cpl < t2.len(),
            h2 ==> (forall|j: int| 0 <= j < cpl ==> t1[j] == t2[j]),
            h2 ==> (cpl < t1.len() ==> t1[cpl as int] != t2[cpl as int]),
            h2 ==> ts_inv(w, g, t1, t2, 0),
            w.n_match == w.i_next,
            w.lim >= 1,
            w.outp@.len() >= 2,
            w.outp@[0] == l0,
            w.counts@.len() == 0 || w.counts@.last() >= 1,
            w.inp@.len() == 0 ==> w.outp@.last() == 124u8,
            w.i_next == 0 || w.i_next < w.inp@.len(),
            p ==> vecs_no_parens(w.inp@),
            p ==> w.l_last != 40 && w.l_last != 41,
            p ==> (w.inp@.len() > 0 ==> paren_excess(w.outp@) == w.counts@.len()),
            p ==> (w.inp@.len() == 0 ==> paren_excess(w.outp@) == 0),
            words_from(w.inp@, g),
            bytes_from(w.outp@, g),
            w.i_next >= 1 ==> from_group(g, w.l_last),
        decreases w.lim,
    {
        if w.inp.len() == 1 {
            // Last line: flush the final suffix, close every open depth,
            // paying optional debts, and terminate the fragment.
            let ghost w0 = w;
            proof {
                if h2 {
                    lemma_ts_at_cd(w0, g, t1, t2);
                }
            }
            let ghost outp0 = w.outp@;
            let mut first = w.inp.remove(0);
            let ghost first0 = first@;
            w.outp.append(&mut first);
            let total = w.counts.len();
            proof {
                if p {
                    assert(no_parens(first0));
                    lemma_excess_concat(outp0, first0);
                    lemma_excess_no_parens(first0);
                    assert(paren_excess(w.outp@) == total);
                }
                lemma_bytes_from_concat(outp0, first0, g);
            }
            let ghost pre_close = w.outp@;
            let ghost eph_pre = w.eph@;
            let ghost close_res = (if eph_pre.len() > 0 && pre_close.len() >= 3
                && pre_close[pre_close.len() - 2] == 40u8 {
                pre_close.remove(pre_close.len() - 2).push(63u8)
            } else if eph_pre.len() > 0 {
                pre_close + seq![41u8, 63u8]
            } else {
                pre_close + seq![41u8]
            });
            let ghost lim_entry = w.lim;
            let mut d: usize = 0;
            #[verifier::loop_isolation(false)]
            while d < total
                invariant
                    d <= total,
                    w.outp@.len() >= 2,
                    w.outp@[0] == l0,
                    w.inp@.len() == 0,
                    w.counts@.len() == 0 || w.counts@.last() >= 1,
                    w.n_match == w.i_next,
                    w.i_next == 0,
                    w.lim == lim_entry,
                    p ==> w.l_last != 40 && w.l_last != 41,
                    p ==> paren_excess(w.outp@) == total - d,
                    bytes_from(w.outp@, g),
                    h2 ==> total == 1 && w.counts@ == seq![1usize] && ((d == 0 && w.outp@
                        == pre_close && w.eph@ == eph_pre) || (d == 1 && w.eph@.len() == 0
                        && w.outp@ == close_res)),
                decreases total - d,
            {
                if !w.eph.is_empty() && w.outp.len() >= 3 && w.outp[w.outp.len() - 2] == 40 {
                    // A lone byte inside an optional group needs no group:
                    // the close collapses `(x)?` to a bare `x?`.
                    let open_ix = w.outp.len() - 2;
                    proof {
                        if p {
                            crate::balance::lemma_excess_remove(w.outp@, open_ix as int);
                        }
                        lemma_bytes_from_remove(w.outp@, open_ix as int, g);
                    }
                    w.outp.remove(open_ix);
                    proof {
                        if p {
                            lemma_excess_push(w.outp@, 63u8);
                        }
                        lemma_bytes_from_push(w.outp@, 63u8, g);
                    }
                    w.outp.push(63);
                    w.eph.pop();
                    proof {
                        if h2 {
                            assert(w.outp@ =~= pre_close.remove(pre_close.len() - 2).push(63u8));
                        }
                    }
                } else {
                    proof {
                        if p {
                            lemma_excess_push(w.outp@, 41u8);
                        }
                        lemma_bytes_from_push(w.outp@, 41u8, g);
                    }
                    w.outp.push(41);
                    if !w.eph.is_empty() {
                        proof {
                            if p {
                                lemma_excess_push(w.outp@, 63u8);
                            }
                            lemma_bytes_from_push(w.outp@, 63u8, g);
                        }
                        w.outp.push(63);
                        w.eph.pop();
                    }
                }
                d = d + 1;
                proof {
                    if h2 {
                        assert(w0.eph@ == eph_pre);
                        if ts_c(w0, g, t1, t2) {
                            assert(eph_pre.len() == 0);
                        } else {
                            assert(ts_d(w0, g, t1, t2));
                            assert(eph_pre == seq![1usize]);
                        }
                        assert(w.eph@.len() == 0);
                        assert(w.outp@ == close_res);
                        assert(d == 1);
                    }
                }
            }
            proof {
                if p {
                    lemma_excess_push(w.outp@, 124u8);
                }
                lemma_bytes_from_push(w.outp@, 124u8, g);
            }
            w.outp.push(124);
            proof {
                if h2 {
                    assert(pre_close == outp0 + first0);
                    if ts_c(w0, g, t1, t2) {
                        assert(eph_pre.len() == 0);
                        assert(w.outp@ =~= seq![g.l_last] + t1.take(cpl) + seq![40u8] + t1.skip(
                            cpl,
                        ) + seq![124u8] + t2.skip(cpl) + seq![41u8, 124u8]);
                        assert(w.outp@ == two_suffix_fragment(g.l_last, t1, t2));
                    } else {
                        assert(ts_d(w0, g, t1, t2));
                        assert(eph_pre == seq![1usize]);
                        let tail = t2.skip(cpl);
                        assert(tail.len() >= 1);
                        assert(pre_close =~= seq![g.l_last] + t1 + seq![40u8] + tail);
                        if tail.len() == 1 {
                            assert(pre_close[pre_close.len() - 2] == 40u8);
                            assert(close_res == pre_close.remove(pre_close.len() - 2).push(63u8));
                            assert(pre_close.remove(pre_close.len() - 2) =~= seq![g.l_last] + t1
                                + tail) by {
                                pre_close.remove_ensures(pre_close.len() - 2);
                            }
                            assert(w.outp@ =~= seq![g.l_last] + t1 + tail + seq![63u8, 124u8]);
                        } else {
                            assert(pre_close[pre_close.len() - 2] == tail[tail.len() - 2]);
                            assert(tail[tail.len() - 2] == t2[cpl + tail.len() - 2]);
                            assert(tail[tail.len() - 2] != 40u8);
                            assert(close_res == pre_close + seq![41u8, 63u8]);
                            assert(w.outp@ =~= seq![g.l_last] + t1 + seq![40u8] + tail + seq![
                                41u8,
                                63u8,
                                124u8,
                            ]);
                        }
                        assert(w.outp@ == two_suffix_fragment(g.l_last, t1, t2));
                    }
                    assert(ts_e(w, g, t1, t2));
                    assert((w.lim as int) >= 2);
                    assert(ts_inv(w, g, t1, t2, 1));
                }
            }
        } else if w.i_next == 0 {
            // Reset state: absorb an empty suffix (a word that ended right
            // here) or take the next letter off the front suffix.
            let ghost w0 = w;
            let ghost mw: int = 0;
            proof {
                if h2 {
                    mw = lemma_ts_at_a(w0, g, t1, t2);
                }
            }
            if w.inp[0].is_empty() {
                proof {
                    if p {
                        lemma_vecs_no_parens_remove(w.inp@, 0);
                    }
                    if h2 {
                        assert(t1.skip(mw).len() == 0);
                        assert(mw == t1.len() && mw == cpl);
                    }
                    lemma_words_from_remove(w.inp@, 0, g);
                }
                w.inp.remove(0);
                w.l_last = 0;
                w.i_next = 0;
                w.deceph();
                if !all_at_least_one(&w.counts) {
                    return None;
                }
                w.decount();
                if w.counts.is_empty() {
                    return None;
                }
                let lastc = w.counts[w.counts.len() - 1];
                if lastc > 0 {
                    w.eph.push(lastc);
                }
                proof {
                    if h2 {
                        assert(w.counts@ =~= seq![1usize]);
                        assert(w.eph@ =~= seq![1usize]);
                        assert(w.inp@.len() == 1 && w.inp@[0]@ == t2.skip(cpl));
                        assert(w.outp@ =~= seq![g.l_last] + t1 + seq![40u8]) by {
                            assert(t1.take(mw) =~= t1);
                        }
                        assert(ts_d(w, g, t1, t2));
                        assert(ts_inv(w, g, t1, t2, 1));
                    }
                }
            } else {
                proof {
                    if p {
                        assert(no_parens(w.inp@[0]@));
                        lemma_vecs_no_parens_remove(w.inp@, 0);
                    }
                    if h2 {
                        assert(mw < t1.len());
                    }
                    assert(bytes_from(w.inp@[0]@, g));
                    lemma_words_from_remove(w.inp@, 0, g);
                }
                let mut head = w.inp.remove(0);
                let ghost head0 = head@;
                let b = head.remove(0);
                proof {
                    if p {
                        lemma_no_parens_remove(head0, 0);
                        lemma_vecs_no_parens_insert(w.inp@, 0, head);
                    }
                    if h2 {
                        assert(head0 == t1.skip(mw));
                        assert(head@ =~= t1.skip(mw + 1)) by {
                            head0.remove_ensures(0);
                        }
                        assert(b == t1[mw as int]);
                    }
                    lemma_bytes_from_remove(head0, 0, g);
                    lemma_words_from_insert(w.inp@, 0, head, g);
                    assert(from_group(g, head0[0]));
                }
                w.inp.insert(0, head);
                w.l_last = b;
                w.incr();
                proof {
                    if h2 {
                        assert(w.inp@.len() == 2);
                        assert(w.inp@[0]@ == t1.skip(mw + 1));
                        assert(w.inp@[1]@ == t2.skip(mw));
                        assert(ts_b(w, g, t1, t2, mw));
                        assert(ts_inv(w, g, t1, t2, 1));
                    }
                }
            }
        } else {
            let ghost w0 = w;
            let ghost mw: int = 0;
            proof {
                if h2 {
                    mw = lemma_ts_at_b(w0, g, t1, t2);
                }
            }
            if w.inp[w.i_next].len() == 0 {
                proof {
                    if h2 {
                        assert(w.inp@[1]@ == t2.skip(mw));
                        assert(false);
                    }
                }
                return None;
            }
            let cur = w.inp[w.i_next][0];
            proof {
                if h2 {
                    assert(cur == t2[mw as int]);
                }
            }
            if w.l_last == cur {
                // Letter matched.
                proof {
                    if h2 {
                        if mw >= cpl {
                            assert(t1[cpl as int] != t2[cpl as int]);
                            assert(false);
                        }
                        assert(mw < cpl);
                    }
                }
                if w.counts.is_empty() {
                    proof {
                        if h2 {
                            assert(false);
                        }
                    }
                    return None;
                }
                let lastc = w.counts[w.counts.len() - 1];
                if w.i_next >= lastc {
                    // The letter is common to every branch still open at
                    // the innermost depth: emit it once.
                    proof {
                        if p {
                            lemma_excess_push(w.outp@, w.l_last);
                        }
                        lemma_bytes_from_push(w.outp@, w.l_last, g);
                    }
                    w.outp.push(w.l_last);
                    w.zero();
                } else {
                    proof {
                        if p {
                            assert(no_parens(w.inp@[w.i_next as int]@));
                            lemma_vecs_no_parens_remove(w.inp@, w.i_next as int);
                        }
                        assert(bytes_from(w.inp@[w.i_next as int]@, g));
                        lemma_words_from_remove(w.inp@, w.i_next as int, g);
                    }
                    let idx = w.i_next;
                    let mut v = w.inp.remove(idx);
                    let ghost v0 = v@;
                    v.remove(0);
                    proof {
                        if p {
                            lemma_no_parens_remove(v0, 0);
                            lemma_vecs_no_parens_insert(w.inp@, idx as int, v);
                        }
                        lemma_bytes_from_remove(v0, 0, g);
                        lemma_words_from_insert(w.inp@, idx as int, v, g);
                        if h2 {
                            assert(v0 == t2.skip(mw));
                            assert(v@ =~= t2.skip(mw + 1)) by {
                                v0.remove_ensures(0);
                            }
                        }
                    }
                    w.inp.insert(idx, v);
                    w.incr();
                    proof {
                        if h2 {
                            assert(w.inp@.len() == 2);
                            assert(w.inp@[0]@ == t1.skip(mw + 1));
                            assert(w.inp@[1]@ == t2.skip(mw + 1));
                        }
                    }
                }
                if w.i_next >= w.inp.len() {
                    let ghost pre = w;
                    w.consecutive_match();
                    proof {
                        if p {
                            let merge = pre.counts@.len() > 0 && pre.counts@.last() == pre.n_match
                                && pre.outp@.len() > 0 && pre.outp@.last() == 40u8;
                            if merge {
                                lemma_excess_push(pre.outp@.drop_last(), pre.l_last);
                                lemma_excess_push(
                                    pre.outp@.drop_last().push(pre.l_last),
                                    40u8,
                                );
                                assert(paren_delta(pre.outp@.last()) == 1);
                            } else {
                                lemma_excess_push(pre.outp@, pre.l_last);
                                lemma_excess_push(pre.outp@.push(pre.l_last), 40u8);
                            }
                        }
                        let mrg = pre.counts@.len() > 0 && pre.counts@.last() == pre.n_match
                            && pre.outp@.len() > 0 && pre.outp@.last() == 40u8;
                        assert(from_group(g, pre.l_last));
                        if mrg {
                            lemma_bytes_from_drop_last(pre.outp@, g);
                            lemma_bytes_from_push(pre.outp@.drop_last(), pre.l_last, g);
                            lemma_bytes_from_push(
                                pre.outp@.drop_last().push(pre.l_last),
                                40u8,
                                g,
                            );
                        } else {
                            lemma_bytes_from_push(pre.outp@, pre.l_last, g);
                            lemma_bytes_from_push(pre.outp@.push(pre.l_last), 40u8, g);
                        }
                        if h2 {
                            assert(pre.outp@ == seq![g.l_last] + t1.take(mw) + seq![40u8]);
                            assert(pre.outp@.last() == 40u8);
                            assert(pre.counts@.last() == 2 && pre.n_match == 2);
                            assert(pre.outp@.drop_last() =~= seq![g.l_last] + t1.take(mw));
                            assert(t1.take(mw + 1) =~= t1.take(mw).push(t1[mw as int]));
                            assert(w.outp@ =~= seq![g.l_last] + t1.take(mw + 1) + seq![40u8]);
                            assert(ts_a(w, g, t1, t2, mw + 1));
                            assert(ts_inv(w, g, t1, t2, 1));
                        }
                    }
                }
            } else {
                // Letter not matched.
                proof {
                    if h2 {
                        if mw < cpl {
                            assert(t1[mw as int] == t2[mw as int]);
                            assert(false);
                        }
                        assert(mw == cpl && cpl < t1.len());
                    }
                }
                if w.n_match > 1 {
                    let ghost pre = w;
                    w.consecutive_match();
                    proof {
                        if p {
                            let merge = pre.counts@.len() > 0 && pre.counts@.last() == pre.n_match
                                && pre.outp@.len() > 0 && pre.outp@.last() == 40u8;
                            if merge {
                                lemma_excess_push(pre.outp@.drop_last(), pre.l_last);
                                lemma_excess_push(
                                    pre.outp@.drop_last().push(pre.l_last),
                                    40u8,
                                );
                                assert(paren_delta(pre.outp@.last()) == 1);
                            } else {
                                lemma_excess_push(pre.outp@, pre.l_last);
                                lemma_excess_push(pre.outp@.push(pre.l_last), 40u8);
                            }
                        }
                        let mrg = pre.counts@.len() > 0 && pre.counts@.last() == pre.n_match
                            && pre.outp@.len() > 0 && pre.outp@.last() == 40u8;
                        assert(from_group(g, pre.l_last));
                        if mrg {
                            lemma_bytes_from_drop_last(pre.outp@, g);
                            lemma_bytes_from_push(pre.outp@.drop_last(), pre.l_last, g);
                            lemma_bytes_from_push(
                                pre.outp@.drop_last().push(pre.l_last),
                                40u8,
                                g,
                            );
                        } else {
                            lemma_bytes_from_push(pre.outp@, pre.l_last, g);
                            lemma_bytes_from_push(pre.outp@.push(pre.l_last), 40u8, g);
                        }
                    }
                } else if w.n_match == 1 {
                    let special = w.inp[0].len() == 0 && w.eph.len() > 0 && w.eph[w.eph.len()
                        - 1] == 1 && w.counts.len() > 0 && w.counts[w.counts.len() - 1] == 1;
                    if special {
                        // Collapse a singleton optional group to a bare
                        // trailing `?` instead of emitting `(x)?`. The group
                        // being closed must end in its open paren here; any
                        // other shape is a state the analysis does not
                        // cover, and gives up.
                        if w.outp[w.outp.len() - 1] != 40 {
                            return None;
                        }
                        proof {
                            if p {
                                lemma_vecs_no_parens_remove(w.inp@, 0);
                            }
                            lemma_words_from_remove(w.inp@, 0, g);
                        }
                        w.inp.remove(0);
                        let ghost outp0 = w.outp@;
                        w.outp.pop();
                        proof {
                            if p {
                                assert(paren_excess(outp0) == paren_excess(outp0.drop_last())
                                    + paren_delta(outp0.last()));
                            }
                            assert(w.outp@ =~= outp0.drop_last());
                            lemma_bytes_from_drop_last(outp0, g);
                        }
                        w.counts.pop();
                        proof {
                            if p {
                                lemma_excess_push(w.outp@, w.l_last);
                            }
                            assert(from_group(g, w.l_last));
                            lemma_bytes_from_push(w.outp@, w.l_last, g);
                        }
                        w.outp.push(w.l_last);
                        proof {
                            if p {
                                lemma_excess_push(w.outp@, 63u8);
                            }
                            lemma_bytes_from_push(w.outp@, 63u8, g);
                        }
                        w.outp.push(63);
                        w.eph.pop();
                    } else {
                        proof {
                            if p {
                                lemma_excess_push(w.outp@, w.l_last);
                                assert(no_parens(w.inp@[0]@));
                                lemma_vecs_no_parens_remove(w.inp@, 0);
                            }
                            assert(from_group(g, w.l_last));
                            lemma_bytes_from_push(w.outp@, w.l_last, g);
                            assert(bytes_from(w.inp@[0]@, g));
                            lemma_words_from_remove(w.inp@, 0, g);
                        }
                        w.outp.push(w.l_last);
                        let ghost outp1 = w.outp@;
                        let mut head = w.inp.remove(0);
                        let ghost head0 = head@;
                        w.outp.append(&mut head);
                        proof {
                            if p {
                                lemma_excess_concat(outp1, head0);
                                lemma_excess_no_parens(head0);
                            }
                            lemma_bytes_from_concat(outp1, head0, g);
                            if h2 {
                                assert(head0 == t1.skip(cpl + 1));
                                assert(seq![t1[cpl as int]] + t1.skip(cpl + 1) =~= t1.skip(cpl));
                                assert(w.outp@ =~= seq![g.l_last] + t1.take(cpl) + seq![40u8]
                                    + t1.skip(cpl));
                            }
                        }
                    }
                    if w.counts.len() > 0 && w.counts[w.counts.len() - 1] > 1 {
                        proof {
                            if p {
                                lemma_excess_push(w.outp@, 124u8);
                            }
                            lemma_bytes_from_push(w.outp@, 124u8, g);
                        }
                        w.outp.push(124);
                    }
                    if !all_at_least_one(&w.counts) {
                        proof {
                            if h2 {
                                assert(false);
                            }
                        }
                        return None;
                    }
                    w.decount();
                    w.deceph();
                    w.zero();
                    proof {
                        if h2 {
                            assert(w.counts@ =~= seq![1usize]);
                            assert(w.inp@.len() == 1 && w.inp@[0]@ == t2.skip(cpl));
                            assert(w.outp@ =~= seq![g.l_last] + t1.take(cpl) + seq![40u8]
                                + t1.skip(cpl) + seq![124u8]);
                            assert(ts_c(w, g, t1, t2));
                            assert(ts_inv(w, g, t1, t2, 1));
                        }
                    }
                }
            }
        }

        // Clear counts: close every depth whose branches are used up.
        let ghost lim_clear = w.lim;
        while w.counts.len() > 0 && w.counts[w.counts.len() - 1] < 1
            invariant
                w.outp@.len() >= 2,
                w.outp@[0] == l0,
                w.n_match == w.i_next,
                w.i_next == 0 || w.i_next < w.inp@.len(),
                w.lim == lim_clear,
                w.lim >= 1,
                w.inp@.len() == 0 ==> w.outp@.last() == 124u8 && (w.counts@.len() == 0
                    || w.counts@.last() >= 1),
                p ==> vecs_no_parens(w.inp@),
                p ==> w.l_last != 40 && w.l_last != 41,
                p ==> (w.inp@.len() > 0 ==> paren_excess(w.outp@) == w.counts@.len()),
                p ==> (w.inp@.len() == 0 ==> paren_excess(w.outp@) == 0),
                h2 ==> ts_inv(w, g, t1, t2, 1),
                words_from(w.inp@, g),
                bytes_from(w.outp@, g),
                w.i_next >= 1 ==> from_group(g, w.l_last),
            decreases w.counts@.len(),
        {
            proof {
                if h2 {
                    lemma_ts_counts(w, g, t1, t2, 1);
                    assert(false);
                }
            }
            if w.eph.len() > 0 && w.eph[w.eph.len() - 1] < 1 && w.outp.len() >= 3
                && w.outp[w.outp.len() - 2] == 40 {
                // A lone byte inside an optional group needs no group: the
                // close collapses `(x)?` to a bare `x?`.
                let open_ix = w.outp.len() - 2;
                proof {
                    if p {
                        crate::balance::lemma_excess_remove(w.outp@, open_ix as int);
                    }
                    lemma_bytes_from_remove(w.outp@, open_ix as int, g);
                }
                w.outp.remove(open_ix);
                proof {
                    if p {
                        lemma_excess_push(w.outp@, 63u8);
                    }
                    lemma_bytes_from_push(w.outp@, 63u8, g);
                }
                w.outp.push(63);
                w.eph.pop();
            } else {
                proof {
                    if p {
                        lemma_excess_push(w.outp@, 41u8);
                    }
                    lemma_bytes_from_push(w.outp@, 41u8, g);
                }
                w.outp.push(41);
                if w.eph.len() > 0 && w.eph[w.eph.len() - 1] < 1 {
                    proof {
                        if p {
                            lemma_excess_push(w.outp@, 63u8);
                        }
                        lemma_bytes_from_push(w.outp@, 63u8, g);
                    }
                    w.outp.push(63);
                    w.eph.pop();
                }
            }
            if w.counts.len() > 1 {
                if w.counts[w.counts.len() - 2] != 0 {
                    proof {
                        if p {
                            lemma_excess_push(w.outp@, 124u8);
                        }
                        lemma_bytes_from_push(w.outp@, 124u8, g);
                    }
                    w.outp.push(124);
                }
            }
            w.counts.pop();
        }

        let ghost wd = w;
        w.lim = w.lim - 1;
        proof {
            if h2 {
                lemma_ts_dec(wd, w, g, t1, t2);
            }
        }
        if w.lim == 0 {
            return None;
        }
    }

    proof {
        if h2 {
            lemma_ts_empty(w, g, t1, t2);
        }
        if lit2 {
            let frag = two_suffix_fragment(l0, t1, t2);
            assert(w.outp@ == frag);
            let hw1 = seq![l0] + t1;
            let hw2 = seq![l0] + t2;
            if cpl == t1.len() {
                let tail = t2.skip(cpl as int);
                let lpre = seq![l0] + t1;
                assert(crate::lang::literal_word(lpre)) by {
                    assert(seq![l0][0] == l0);
                    assert(forall|j: int| 1 <= j < lpre.len() ==> #[trigger] lpre[j] == t1[j - 1]);
                }
                assert(t1 =~= t2.take(cpl as int));
                if tail.len() == 1 {
                    let x = tail[0];
                    assert(x == t2[cpl as int]);
                    assert(frag.drop_last() =~= lpre + seq![x, 63u8]);
                    assert forall|vb: Seq<u8>| crate::lang::alt_matches(frag.drop_last(), vb)
                        <==> (vb == hw1 || vb == hw2) by {
                        crate::lang::lemma_optional_letter_language(lpre, x, vb);
                        assert(lpre.push(x) =~= hw2);
                        assert(lpre == hw1);
                    }
                } else {
                    assert(crate::lang::literal_word(tail)) by {
                        assert(forall|j: int|
                            0 <= j < tail.len() ==> #[trigger] tail[j] == t2[cpl + j]);
                    }
                    assert(frag.drop_last() =~= lpre + seq![40u8] + tail + seq![41u8, 63u8]);
                    assert forall|vb: Seq<u8>| crate::lang::alt_matches(frag.drop_last(), vb)
                        <==> (vb == hw1 || vb == hw2) by {
                        crate::lang::lemma_optional_group_language(lpre, tail, vb);
                        assert(lpre + tail =~= hw2);
                        assert(lpre == hw1);
                    }
                }
            } else {
                let c = t1.take(cpl as int);
                let lpre = seq![l0] + c;
                let u = t1.skip(cpl as int);
                let v2 = t2.skip(cpl as int);
                assert(crate::lang::literal_word(lpre)) by {
                    assert(seq![l0][0] == l0);
                    assert(forall|j: int| 1 <= j < lpre.len() ==> #[trigger] lpre[j] == t1[j - 1]);
                }
                assert(crate::lang::literal_word(u)) by {
                    assert(forall|j: int| 0 <= j < u.len() ==> #[trigger] u[j] == t1[cpl + j]);
                }
                assert(crate::lang::literal_word(v2)) by {
                    assert(forall|j: int| 0 <= j < v2.len() ==> #[trigger] v2[j] == t2[cpl + j]);
                }
                assert(frag.drop_last() =~= lpre + seq![40u8] + u + seq![124u8] + v2 + seq![41u8]);
                assert forall|vb: Seq<u8>| crate::lang::alt_matches(frag.drop_last(), vb) <==> (vb
                    == hw1 || vb == hw2) by {
                    crate::lang::lemma_group_alt_language(lpre, u, v2, vb);
                    assert(lpre + u =~= hw1);
                    assert(lpre + v2 =~= hw2);
                }
            }
        }
    }
    Some(w.outp)
}

} // verus!
