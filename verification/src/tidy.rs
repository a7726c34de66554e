//! The regex tidier.
//!
//! Four passes over the assembled buffer, in order: two-branch alternations
//! of single letters collapse into bracket classes; folded diacritics are
//! optionally wrapped with their base vowel in a bracket class; open parens
//! are optionally marked non-capturing; and folded accent bytes are
//! re-expanded into two-byte UTF-8.

use vstd::prelude::*;

use crate::balance::lemma_excess_concat;
use crate::balance::lemma_excess_cons;
use crate::balance::paren_delta;
use crate::balance::paren_excess;
use crate::codec::expand;
use crate::codec::expand_bytes;

verus! {

/// The exact five-byte pattern `(x|y)` stands at position `i`.
pub open spec fn is_pat(s: Seq<u8>, i: int) -> bool {
    0 <= i && i + 5 <= s.len() && s[i] == 40 && s[i + 2] == 124 && s[i + 4] == 41
}

/// The position of the first pattern at or after `i`, or the length when
/// there is none.
pub open spec fn first_pat_from(s: Seq<u8>, i: int) -> int
    decreases s.len() - i,
        when 0 <= i
{
    if i + 5 > s.len() {
        s.len() as int
    } else if is_pat(s, i) {
        i
    } else {
        first_pat_from(s, i + 1)
    }
}

/// The position of the first pattern, or the length when there is none.
pub open spec fn first_pat(s: Seq<u8>) -> int {
    first_pat_from(s, 0)
}

/// One rewrite: `(x|y)` at `i` becomes `[xy]`, one byte shorter.
pub open spec fn rewrite_at(s: Seq<u8>, i: int) -> Seq<u8> {
    s.take(i) + seq![91u8, s[i + 1], s[i + 3], 93u8] + s.skip(i + 5)
}

pub proof fn lemma_first_pat_from_props(s: Seq<u8>, i: int)
    requires
        0 <= i <= s.len(),
    ensures
        i <= first_pat_from(s, i) <= s.len(),
        first_pat_from(s, i) < s.len() ==> is_pat(s, first_pat_from(s, i)),
        forall|j: int| i <= j < first_pat_from(s, i) ==> !is_pat(s, j),
        first_pat_from(s, i) == s.len() ==> forall|j: int| i <= j ==> !is_pat(s, j),
    decreases s.len() - i,
{
    if i + 5 > s.len() {
    } else if is_pat(s, i) {
    } else {
        lemma_first_pat_from_props(s, i + 1);
    }
}

/// Scanning over a pattern-free region does not move the first pattern.
pub proof fn lemma_first_pat_from_skip(s: Seq<u8>, i: int, m: int)
    requires
        0 <= i <= m <= s.len(),
        forall|j: int| i <= j < m ==> !is_pat(s, j),
    ensures
        first_pat_from(s, i) == first_pat_from(s, m),
    decreases m - i,
{
    if i < m {
        lemma_first_pat_from_skip(s, i + 1, m);
    }
}

/// The bracket-collapse pass: rewrite the first `(x|y)` to `[xy]` and
/// repeat until no pattern remains. Every rewrite shortens the buffer by
/// one byte, so the pass terminates.
pub open spec fn collapse(s: Seq<u8>) -> Seq<u8>
    decreases s.len(),
{
    if first_pat(s) == s.len() {
        s
    } else {
        proof {
            lemma_first_pat_from_props(s, 0);
        }
        collapse(rewrite_at(s, first_pat(s)))
    }
}

/// A pattern-free buffer is untouched by the collapse pass.
pub proof fn lemma_collapse_fixed(s: Seq<u8>)
    requires
        first_pat(s) == s.len(),
    ensures
        collapse(s) == s,
{
}

/// The collapse pass leaves no pattern behind.
pub proof fn lemma_collapse_no_pat(s: Seq<u8>)
    ensures
        first_pat(collapse(s)) == collapse(s).len(),
    decreases s.len(),
{
    if first_pat(s) == s.len() {
    } else {
        lemma_first_pat_from_props(s, 0);
        lemma_collapse_no_pat(rewrite_at(s, first_pat(s)));
    }
}

/// Collapsing twice is the same as collapsing once: the pass reaches a
/// fixed point.
pub proof fn lemma_collapse_idempotent(s: Seq<u8>)
    ensures
        collapse(collapse(s)) == collapse(s),
{
    lemma_collapse_no_pat(s);
    lemma_collapse_fixed(collapse(s));
}

/// One collapse rewrite removes one `(` and one `)` together, keeping the
/// open-paren surplus unchanged.
pub proof fn lemma_excess_rewrite(s: Seq<u8>, i: int)
    requires
        is_pat(s, i),
    ensures
        paren_excess(rewrite_at(s, i)) == paren_excess(s),
        rewrite_at(s, i).len() == s.len() - 1,
{
    let x = s[i + 1];
    let y = s[i + 3];
    let mid = seq![40u8, x, 124u8, y, 41u8];
    let mid2 = seq![91u8, x, y, 93u8];
    assert(s =~= s.take(i) + mid + s.skip(i + 5));
    lemma_excess_concat(s.take(i) + mid, s.skip(i + 5));
    lemma_excess_concat(s.take(i), mid);
    lemma_excess_concat(s.take(i) + mid2, s.skip(i + 5));
    lemma_excess_concat(s.take(i), mid2);
    crate::balance::lemma_excess_quint(40u8, x, 124u8, y, 41u8);
    crate::balance::lemma_excess_quad(91u8, x, y, 93u8);
}

/// The whole collapse pass keeps the open-paren surplus unchanged.
pub proof fn lemma_excess_collapse(s: Seq<u8>)
    ensures
        paren_excess(collapse(s)) == paren_excess(s),
    decreases s.len(),
{
    if first_pat(s) == s.len() {
    } else {
        lemma_first_pat_from_props(s, 0);
        lemma_excess_rewrite(s, first_pat(s));
        lemma_excess_collapse(rewrite_at(s, first_pat(s)));
    }
}

/// Diacritic bracketing adds only bracket bytes, never parens.
pub proof fn lemma_excess_wrap(s: Seq<u8>)
    ensures
        paren_excess(wrap_diac_seq(s)) == paren_excess(s),
    decreases s.len(),
{
    if s.len() == 0 {
    } else {
        let b = s[0];
        lemma_excess_wrap(s.skip(1));
        assert(s =~= seq![b] + s.skip(1));
        lemma_excess_cons(b, s.skip(1));
        if is_diac(b) {
            let h = seq![91u8, diac_base(b), b, 93u8];
            lemma_excess_concat(h, wrap_diac_seq(s.skip(1)));
            crate::balance::lemma_excess_quad(91u8, diac_base(b), b, 93u8);
            assert(paren_delta(b) == 0);
        } else {
            lemma_excess_cons(b, wrap_diac_seq(s.skip(1)));
        }
    }
}

/// The non-capturing markers follow existing parens without adding any.
pub proof fn lemma_excess_mark(s: Seq<u8>)
    ensures
        paren_excess(mark_groups_seq(s)) == paren_excess(s),
    decreases s.len(),
{
    if s.len() == 0 {
    } else {
        let b = s[0];
        lemma_excess_mark(s.skip(1));
        assert(s =~= seq![b] + s.skip(1));
        lemma_excess_cons(b, s.skip(1));
        if b == 40 {
            let h = seq![40u8, 63u8, 58u8];
            lemma_excess_concat(h, mark_groups_seq(s.skip(1)));
            crate::balance::lemma_excess_triple(40u8, 63u8, 58u8);
        } else {
            lemma_excess_cons(b, mark_groups_seq(s.skip(1)));
        }
    }
}

/// UTF-8 re-expansion touches only bytes at or above 161, never parens.
pub proof fn lemma_excess_expand(s: Seq<u8>)
    ensures
        paren_excess(expand(s)) == paren_excess(s),
    decreases s.len(),
{
    if s.len() == 0 {
    } else {
        let b = s[0];
        lemma_excess_expand(s.skip(1));
        assert(s =~= seq![b] + s.skip(1));
        lemma_excess_cons(b, s.skip(1));
        if b >= 192 {
            let h = seq![195u8, (b - 64) as u8];
            lemma_excess_concat(h, expand(s.skip(1)));
            crate::balance::lemma_excess_pair(195u8, (b - 64) as u8);
        } else if 161 <= b && b < 192 {
            let h = seq![194u8, b];
            lemma_excess_concat(h, expand(s.skip(1)));
            crate::balance::lemma_excess_pair(194u8, b);
        } else {
            lemma_excess_cons(b, expand(s.skip(1)));
        }
    }
}

/// A buffer with no open paren holds no collapsible pattern.
pub proof fn lemma_no_open_no_pat(s: Seq<u8>)
    requires
        forall|i: int| 0 <= i < s.len() ==> s[i] != 40,
    ensures
        first_pat(s) == s.len(),
        collapse(s) == s,
{
    lemma_first_pat_from_props(s, 0);
    if first_pat(s) < s.len() {
        assert(is_pat(s, first_pat(s)));
        assert(false);
    }
    lemma_collapse_fixed(s);
}

/// Diacritic bracketing leaves a buffer without folded vowels unchanged.
pub proof fn lemma_wrap_identity(s: Seq<u8>)
    requires
        forall|i: int| 0 <= i < s.len() ==> !is_diac(#[trigger] s[i]),
    ensures
        wrap_diac_seq(s) == s,
    decreases s.len(),
{
    if s.len() > 0 {
        assert(forall|i: int| 0 <= i < s.skip(1).len() ==> s.skip(1)[i] == s[i + 1]);
        lemma_wrap_identity(s.skip(1));
        assert(seq![s[0]] + s.skip(1) =~= s);
    }
}

/// Marking leaves a buffer without open parens unchanged.
pub proof fn lemma_mark_identity(s: Seq<u8>)
    requires
        forall|i: int| 0 <= i < s.len() ==> s[i] != 40,
    ensures
        mark_groups_seq(s) == s,
    decreases s.len(),
{
    if s.len() > 0 {
        assert(forall|i: int| 0 <= i < s.skip(1).len() ==> s.skip(1)[i] == s[i + 1]);
        lemma_mark_identity(s.skip(1));
        assert(seq![s[0]] + s.skip(1) =~= s);
    }
}

/// The whole tidier is the identity on a buffer of plain bytes below the
/// accent range with no open paren.
pub proof fn lemma_tidy_identity(s: Seq<u8>, diacritics: bool, noncapture: bool)
    requires
        forall|i: int| 0 <= i < s.len() ==> s[i] < 161 && s[i] != 40,
    ensures
        tidy_spec(s, diacritics, noncapture) == s,
{
    lemma_no_open_no_pat(s);
    if diacritics {
        lemma_wrap_identity(s);
    }
    if noncapture {
        lemma_mark_identity(s);
    }
    crate::codec::lemma_expand_identity(s);
}

/// The collapse pass never empties a nonempty buffer.
pub proof fn lemma_collapse_nonempty(s: Seq<u8>)
    requires
        s.len() >= 1,
    ensures
        collapse(s).len() >= 1,
    decreases s.len(),
{
    if first_pat(s) == s.len() {
    } else {
        lemma_first_pat_from_props(s, 0);
        lemma_excess_rewrite(s, first_pat(s));
        lemma_collapse_nonempty(rewrite_at(s, first_pat(s)));
    }
}

/// Diacritic bracketing never shortens the buffer.
pub proof fn lemma_wrap_len(s: Seq<u8>)
    ensures
        wrap_diac_seq(s).len() >= s.len(),
    decreases s.len(),
{
    if s.len() > 0 {
        lemma_wrap_len(s.skip(1));
    }
}

/// Marking never shortens the buffer.
pub proof fn lemma_mark_len(s: Seq<u8>)
    ensures
        mark_groups_seq(s).len() >= s.len(),
    decreases s.len(),
{
    if s.len() > 0 {
        lemma_mark_len(s.skip(1));
    }
}

/// The whole tidier never empties a nonempty buffer.
pub proof fn lemma_tidy_nonempty(s: Seq<u8>, diacritics: bool, noncapture: bool)
    requires
        s.len() >= 1,
    ensures
        tidy_spec(s, diacritics, noncapture).len() >= 1,
{
    lemma_collapse_nonempty(s);
    let c = collapse(s);
    if diacritics {
        lemma_wrap_len(c);
    }
    let w = if diacritics {
        wrap_diac_seq(c)
    } else {
        c
    };
    if noncapture {
        lemma_mark_len(w);
    }
    let m = if noncapture {
        mark_groups_seq(w)
    } else {
        w
    };
    crate::codec::lemma_expand_len(m);
}

/// The tidier as a whole keeps the open-paren surplus of the assembled
/// buffer unchanged.
pub proof fn lemma_excess_tidy(s: Seq<u8>, diacritics: bool, noncapture: bool)
    ensures
        paren_excess(tidy_spec(s, diacritics, noncapture)) == paren_excess(s),
{
    lemma_excess_collapse(s);
    let c = collapse(s);
    let w = if diacritics {
        wrap_diac_seq(c)
    } else {
        c
    };
    if diacritics {
        lemma_excess_wrap(c);
    }
    if noncapture {
        lemma_excess_mark(w);
        lemma_excess_expand(mark_groups_seq(w));
    } else {
        lemma_excess_expand(w);
    }
}

/// Builds the buffer with the pattern at `i` rewritten to a bracket class.
fn rewrite_pair(input: &Vec<u8>, i: usize) -> (r: Vec<u8>)
    requires
        is_pat(input@, i as int),
    ensures
        r@ == rewrite_at(input@, i as int),
{
    let total = input.len();
    proof {
        assert(i + 5 <= total);
    }
    let mut r: Vec<u8> = Vec::new();
    let mut j: usize = 0;
    while j < i
        invariant
            j <= i,
            i + 5 <= input@.len(),
            r@ =~= input@.take(j as int),
        decreases i - j,
    {
        r.push(input[j]);
        j = j + 1;
    }
    r.push(91);
    r.push(input[i + 1]);
    r.push(input[i + 3]);
    r.push(93);
    let mut k: usize = i + 5;
    while k < input.len()
        invariant
            i + 5 <= k <= input@.len(),
            r@ =~= input@.take(i as int) + seq![
                91u8,
                input@[i as int + 1],
                input@[i as int + 3],
                93u8,
            ] + input@.subrange(i as int + 5, k as int),
        decreases input@.len() - k,
    {
        r.push(input[k]);
        k = k + 1;
    }
    proof {
        assert(input@.subrange(i as int + 5, input@.len() as int) =~= input@.skip(i as int + 5));
        assert(r@ =~= rewrite_at(input@, i as int));
    }
    r
}

/// Repeatedly collapses `(x|y)` alternations into `[xy]` bracket classes,
/// until none is left.
pub fn collapse_brackets(input: &mut Vec<u8>)
    ensures
        final(input)@ == collapse(old(input)@),
{
    loop
        invariant
            collapse(input@) == collapse(old(input)@),
        ensures
            collapse(input@) == collapse(old(input)@),
            first_pat(input@) == input@.len(),
        decreases input@.len(),
    {
        let n = input.len();
        let mut i: usize = 0;
        while n >= 5 && i <= n - 5 && !(input[i] == 40 && input[i + 2] == 124 && input[i + 4]
            == 41)
            invariant
                n == input@.len(),
                0 <= i <= n,
                forall|j: int| 0 <= j < i ==> !is_pat(input@, j),
            decreases n - i,
        {
            i = i + 1;
        }
        if n >= 5 && i <= n - 5 {
            proof {
                assert(is_pat(input@, i as int));
                lemma_first_pat_from_skip(input@, 0, i as int);
                assert(first_pat(input@) == i as int);
            }
            let ghost pre = input@;
            let r = rewrite_pair(input, i);
            *input = r;
            proof {
                assert(collapse(pre) == collapse(input@));
                assert(input@.len() < pre.len());
            }
        } else {
            proof {
                if n >= 5 {
                    assert(forall|j: int| i <= j ==> !is_pat(input@, j));
                    lemma_first_pat_from_skip(input@, 0, i as int);
                    lemma_first_pat_from_props(input@, i as int);
                    assert(first_pat_from(input@, i as int) == n) by {
                        if first_pat_from(input@, i as int) < n {
                            lemma_first_pat_from_props(input@, i as int);
                        }
                    }
                } else {
                    assert(first_pat(input@) == input@.len());
                }
            }
            break ;
        }
    }
    proof {
        lemma_collapse_fixed(input@);
    }
}

/// The base vowel of a folded accented letter, or 0 when the byte is no
/// folded vowel.
pub open spec fn diac_base(b: u8) -> u8 {
    if 224 <= b && b <= 229 {
        97u8
    } else if 232 <= b && b <= 235 {
        101u8
    } else if 236 <= b && b <= 239 {
        105u8
    } else if 242 <= b && b <= 246 {
        111u8
    } else if 249 <= b && b <= 252 {
        117u8
    } else {
        0u8
    }
}

/// The byte is a folded accented vowel with a known base letter.
pub open spec fn is_diac(b: u8) -> bool {
    diac_base(b) != 0
}

/// The diacritic-bracketing pass: every folded vowel becomes a bracket
/// class of its base letter and itself.
pub open spec fn wrap_diac_seq(s: Seq<u8>) -> Seq<u8>
    decreases s.len(),
{
    if s.len() == 0 {
        Seq::empty()
    } else {
        (if is_diac(s[0]) {
            seq![91u8, diac_base(s[0]), s[0], 93u8]
        } else {
            seq![s[0]]
        }) + wrap_diac_seq(s.skip(1))
    }
}

/// The non-capturing pass: a `?:` marker follows every open paren.
pub open spec fn mark_groups_seq(s: Seq<u8>) -> Seq<u8>
    decreases s.len(),
{
    if s.len() == 0 {
        Seq::empty()
    } else {
        (if s[0] == 40 {
            seq![40u8, 63u8, 58u8]
        } else {
            seq![s[0]]
        }) + mark_groups_seq(s.skip(1))
    }
}

/// Looks up the base vowel of a folded accented letter.
fn diac_base_byte(b: u8) -> (r: u8)
    ensures
        r == diac_base(b),
{
    if 224 <= b && b <= 229 {
        97
    } else if 232 <= b && b <= 235 {
        101
    } else if 236 <= b && b <= 239 {
        105
    } else if 242 <= b && b <= 246 {
        111
    } else if 249 <= b && b <= 252 {
        117
    } else {
        0
    }
}

/// Applies the diacritic-bracketing pass to a byte vector.
pub fn wrap_diacritics(x: &Vec<u8>) -> (r: Vec<u8>)
    ensures
        r@ == wrap_diac_seq(x@),
{
    let mut out: Vec<u8> = Vec::new();
    let mut i: usize = 0;
    proof {
        assert(x@.skip(0) =~= x@);
    }
    while i < x.len()
        invariant
            i <= x.len(),
            wrap_diac_seq(x@) == out@ + wrap_diac_seq(x@.skip(i as int)),
        decreases x.len() - i,
    {
        let ghost pre = out@;
        let ghost suf = x@.skip(i as int);
        let b = x[i];
        proof {
            assert(suf[0] == x@[i as int]);
            assert(suf.skip(1) =~= x@.skip(i as int + 1));
        }
        let base = diac_base_byte(b);
        if base != 0 {
            out.push(91);
            out.push(base);
            out.push(b);
            out.push(93);
            proof {
                assert(pre + (seq![91u8, diac_base(suf[0]), suf[0], 93u8] + wrap_diac_seq(
                    suf.skip(1),
                )) =~= out@ + wrap_diac_seq(x@.skip(i as int + 1)));
            }
        } else {
            out.push(b);
            proof {
                assert(pre + (seq![suf[0]] + wrap_diac_seq(suf.skip(1))) =~= out@ + wrap_diac_seq(
                    x@.skip(i as int + 1),
                ));
            }
        }
        i = i + 1;
    }
    proof {
        assert(x@.skip(i as int).len() == 0);
        assert(out@ + wrap_diac_seq(x@.skip(i as int)) =~= out@);
    }
    out
}

/// Applies the non-capturing pass to a byte vector.
pub fn mark_groups_bytes(x: &Vec<u8>) -> (r: Vec<u8>)
    ensures
        r@ == mark_groups_seq(x@),
{
    let mut out: Vec<u8> = Vec::new();
    let mut i: usize = 0;
    proof {
        assert(x@.skip(0) =~= x@);
    }
    while i < x.len()
        invariant
            i <= x.len(),
            mark_groups_seq(x@) == out@ + mark_groups_seq(x@.skip(i as int)),
        decreases x.len() - i,
    {
        let ghost pre = out@;
        let ghost suf = x@.skip(i as int);
        let b = x[i];
        proof {
            assert(suf[0] == x@[i as int]);
            assert(suf.skip(1) =~= x@.skip(i as int + 1));
        }
        if b == 40 {
            out.push(40);
            out.push(63);
            out.push(58);
            proof {
                assert(pre + (seq![40u8, 63u8, 58u8] + mark_groups_seq(suf.skip(1))) =~= out@
                    + mark_groups_seq(x@.skip(i as int + 1)));
            }
        } else {
            out.push(b);
            proof {
                assert(pre + (seq![suf[0]] + mark_groups_seq(suf.skip(1))) =~= out@
                    + mark_groups_seq(x@.skip(i as int + 1)));
            }
        }
        i = i + 1;
    }
    proof {
        assert(x@.skip(i as int).len() == 0);
        assert(out@ + mark_groups_seq(x@.skip(i as int)) =~= out@);
    }
    out
}

/// What the tidier as a whole produces from an assembled buffer.
pub open spec fn tidy_spec(s: Seq<u8>, diacritics: bool, noncapture: bool) -> Seq<u8> {
    let collapsed = collapse(s);
    let wrapped = if diacritics {
        wrap_diac_seq(collapsed)
    } else {
        collapsed
    };
    let marked = if noncapture {
        mark_groups_seq(wrapped)
    } else {
        wrapped
    };
    expand(marked)
}

/// Post-processes the assembled buffer in place: bracket collapse, the two
/// optional passes, and UTF-8 re-expansion, in that order.
pub fn post_process(input: &mut Vec<u8>, diacritics: bool, noncapture: bool)
    ensures
        final(input)@ == tidy_spec(old(input)@, diacritics, noncapture),
{
    collapse_brackets(input);
    if diacritics {
        let wrapped = wrap_diacritics(input);
        *input = wrapped;
    }
    if noncapture {
        let marked = mark_groups_bytes(input);
        *input = marked;
    }
    let expanded = expand_bytes(input);
    *input = expanded;
}

} // verus!
