//! What a produced pattern matches.
//!
//! The pipeline emits only literal bytes, groups `( )`, alternation `|`,
//! two-byte bracket classes `[xy]` and the optional marker `?`. This module
//! gives that subset a matching relation: a pattern is read as top-level
//! alternation branches, each a sequence of atoms, where an atom is a
//! literal byte, a two-byte bracket class, or a parenthesized group, each
//! optionally followed by `?`. Language-level contracts of the engine and
//! the assembler are stated over this relation.

use vstd::prelude::*;

verus! {

/// The word holds none of the pattern metacharacters: it reads as a
/// literal pattern matching exactly itself.
pub open spec fn literal_word(w: Seq<u8>) -> bool {
    forall|i: int|
        0 <= i < w.len() ==> (#[trigger] w[i]) != 40 && w[i] != 41 && w[i] != 63 && w[i] != 91
            && w[i] != 93 && w[i] != 124
}

/// The position of the first `|` at paren depth zero, scanning from `i` at
/// depth `depth`; the length when there is none.
pub open spec fn top_bar(p: Seq<u8>, i: int, depth: int) -> int
    decreases p.len() - i,
        when 0 <= i
{
    if i >= p.len() {
        p.len() as int
    } else if p[i] == 124 && depth == 0 {
        i
    } else {
        top_bar(
            p,
            i + 1,
            depth + (if p[i] == 40 {
                1int
            } else if p[i] == 41 {
                -1int
            } else {
                0int
            }),
        )
    }
}

/// The position of the first `)` at depth zero, scanning from `i`; the
/// length when there is none.
pub open spec fn close_paren(p: Seq<u8>, i: int, depth: int) -> int
    decreases p.len() - i,
        when 0 <= i
{
    if i >= p.len() {
        p.len() as int
    } else if p[i] == 41 && depth == 0 {
        i
    } else {
        close_paren(
            p,
            i + 1,
            depth + (if p[i] == 40 {
                1int
            } else if p[i] == 41 {
                -1int
            } else {
                0int
            }),
        )
    }
}

pub proof fn lemma_top_bar_bounds(p: Seq<u8>, i: int, depth: int)
    requires
        0 <= i <= p.len(),
    ensures
        i <= top_bar(p, i, depth) <= p.len(),
    decreases p.len() - i,
{
    if i < p.len() && !(p[i] == 124 && depth == 0) {
        lemma_top_bar_bounds(
            p,
            i + 1,
            depth + (if p[i] == 40 {
                1int
            } else if p[i] == 41 {
                -1int
            } else {
                0int
            }),
        );
    }
}

pub proof fn lemma_close_paren_bounds(p: Seq<u8>, i: int, depth: int)
    requires
        0 <= i <= p.len(),
    ensures
        i <= close_paren(p, i, depth) <= p.len(),
    decreases p.len() - i,
{
    if i < p.len() && !(p[i] == 41 && depth == 0) {
        lemma_close_paren_bounds(
            p,
            i + 1,
            depth + (if p[i] == 40 {
                1int
            } else if p[i] == 41 {
                -1int
            } else {
                0int
            }),
        );
    }
}

/// The word matches the pattern read as an alternation of branches.
pub open spec fn alt_matches(p: Seq<u8>, w: Seq<u8>) -> bool
    decreases p.len(), 1int,
{
    proof {
        lemma_top_bar_bounds(p, 0, 0);
    }
    let b = top_bar(p, 0, 0);
    if b == p.len() {
        seq_matches(p, w)
    } else {
        seq_matches(p.take(b), w) || alt_matches(p.skip(b + 1), w)
    }
}

/// The word matches the pattern read as one branch: a sequence of atoms,
/// each a literal byte or a group, either optionally followed by `?`.
pub open spec fn seq_matches(p: Seq<u8>, w: Seq<u8>) -> bool
    decreases p.len(), 0int,
{
    if p.len() == 0 {
        w.len() == 0
    } else if p[0] == 40 {
        proof {
            lemma_close_paren_bounds(p, 1, 0);
        }
        let j = close_paren(p, 1, 0);
        if j >= p.len() {
            false
        } else {
            let inner = p.subrange(1, j);
            let rest = p.skip(j + 1);
            if rest.len() > 0 && rest[0] == 63 {
                (exists|k: int|
                    0 <= k <= w.len() && alt_matches(inner, w.take(k)) && seq_matches(
                        rest.skip(1),
                        w.skip(k),
                    )) || seq_matches(rest.skip(1), w)
            } else {
                exists|k: int|
                    0 <= k <= w.len() && alt_matches(inner, w.take(k)) && seq_matches(
                        rest,
                        w.skip(k),
                    )
            }
        }
    } else if p[0] == 91 && p.len() >= 4 && p[3] == 93 {
        let rest = p.skip(4);
        if rest.len() > 0 && rest[0] == 63 {
            (w.len() > 0 && (w[0] == p[1] || w[0] == p[2]) && seq_matches(
                rest.skip(1),
                w.skip(1),
            )) || seq_matches(rest.skip(1), w)
        } else {
            w.len() > 0 && (w[0] == p[1] || w[0] == p[2]) && seq_matches(rest, w.skip(1))
        }
    } else if p.len() >= 2 && p[1] == 63 {
        (w.len() > 0 && w[0] == p[0] && seq_matches(p.skip(2), w.skip(1))) || seq_matches(
            p.skip(2),
            w,
        )
    } else {
        w.len() > 0 && w[0] == p[0] && seq_matches(p.skip(1), w.skip(1))
    }
}

/// A bar-free stretch does not move the top-level bar search.
pub proof fn lemma_top_bar_from(p: Seq<u8>, i: int, m: int)
    requires
        0 <= i <= m <= p.len(),
        forall|j: int| i <= j < m ==> (#[trigger] p[j]) != 124 && p[j] != 40 && p[j] != 41,
    ensures
        top_bar(p, i, 0) == top_bar(p, m, 0),
    decreases m - i,
{
    if i < m {
        lemma_top_bar_from(p, i + 1, m);
    }
}

/// In a literal pattern the bar search runs to the end.
pub proof fn lemma_top_bar_literal(p: Seq<u8>)
    requires
        literal_word(p),
    ensures
        top_bar(p, 0, 0) == p.len(),
{
    lemma_top_bar_from(p, 0, p.len() as int);
}

/// A branch of literal bytes matches exactly itself.
proof fn lemma_seq_literal(p: Seq<u8>, w: Seq<u8>)
    requires
        literal_word(p),
    ensures
        seq_matches(p, w) <==> w == p,
    decreases p.len(),
{
    if p.len() == 0 {
        if w.len() == 0 {
            assert(w =~= p);
        }
    } else {
        assert(literal_word(p.skip(1))) by {
            assert(forall|i: int| 0 <= i < p.skip(1).len() ==> #[trigger] p.skip(1)[i] == p[i + 1]);
        }
        lemma_seq_literal(p.skip(1), w.skip(1));
        if seq_matches(p, w) {
            assert(w =~= seq![w[0]] + w.skip(1));
            assert(p =~= seq![p[0]] + p.skip(1));
        }
        if w == p {
            assert(w.skip(1) =~= p.skip(1));
        }
    }
}

/// A literal pattern matches exactly itself.
pub proof fn lemma_literal_matches(p: Seq<u8>, w: Seq<u8>)
    requires
        literal_word(p),
    ensures
        alt_matches(p, w) <==> w == p,
{
    lemma_top_bar_literal(p);
    lemma_seq_literal(p, w);
}

/// Below the surface of a group the bar search passes everything but
/// parens.
proof fn lemma_top_bar_deep(p: Seq<u8>, i: int, m: int, depth: int)
    requires
        0 <= i <= m <= p.len(),
        depth != 0,
        forall|j: int| i <= j < m ==> (#[trigger] p[j]) != 40 && p[j] != 41,
    ensures
        top_bar(p, i, depth) == top_bar(p, m, depth),
    decreases m - i,
{
    if i < m {
        lemma_top_bar_deep(p, i + 1, m, depth);
    }
}

/// A paren-free stretch does not move the close-paren search.
proof fn lemma_close_paren_from(p: Seq<u8>, i: int, m: int)
    requires
        0 <= i <= m <= p.len(),
        forall|j: int| i <= j < m ==> (#[trigger] p[j]) != 40 && p[j] != 41,
    ensures
        close_paren(p, i, 0) == close_paren(p, m, 0),
    decreases m - i,
{
    if i < m {
        lemma_close_paren_from(p, i + 1, m);
    }
}

/// A branch starting with literal bytes matches a word exactly when the
/// word starts with those bytes and the rest of the branch matches the
/// rest of the word.
proof fn lemma_seq_literal_prefix(l: Seq<u8>, q: Seq<u8>, w: Seq<u8>)
    requires
        literal_word(l),
        q.len() == 0 || q[0] != 63,
    ensures
        seq_matches(l + q, w) <==> (w.len() >= l.len() && w.take(l.len() as int) == l
            && seq_matches(q, w.skip(l.len() as int))),
    decreases l.len(),
{
    let p = l + q;
    if l.len() == 0 {
        assert(p =~= q);
        assert(w.take(0) =~= Seq::<u8>::empty());
        assert(l =~= Seq::<u8>::empty());
        assert(w.skip(0) =~= w);
    } else {
        let b = l[0];
        assert(p[0] == b && b != 40);
        assert(p.len() < 2 || p[1] != 63) by {
            if p.len() >= 2 {
                if l.len() >= 2 {
                    assert(p[1] == l[1]);
                } else {
                    assert(p[1] == q[0]);
                }
            }
        }
        assert(p.skip(1) =~= l.skip(1) + q);
        assert(literal_word(l.skip(1))) by {
            assert(forall|j: int| 0 <= j < l.skip(1).len() ==> #[trigger] l.skip(1)[j] == l[j + 1]);
        }
        lemma_seq_literal_prefix(l.skip(1), q, w.skip(1));
        if w.len() > 0 {
            if w.len() >= l.len() {
                assert(w.skip(1).skip(l.len() - 1) =~= w.skip(l.len() as int));
            }
            if w[0] == b && w.skip(1).len() >= l.len() - 1 && w.skip(1).take(l.len() - 1) == l.skip(
                1,
            ) {
                assert(w.take(l.len() as int) =~= l) by {
                    assert(forall|j: int|
                        1 <= j < l.len() ==> #[trigger] w.take(l.len() as int)[j] == w.skip(
                            1,
                        ).take(l.len() - 1)[j - 1]);
                }
            }
            if w.len() >= l.len() && w.take(l.len() as int) == l {
                assert(w[0] == l[0]);
                assert(w.skip(1).take(l.len() - 1) =~= l.skip(1)) by {
                    assert(forall|j: int|
                        0 <= j < l.len() - 1 ==> #[trigger] w.skip(1).take(l.len() - 1)[j]
                            == w.take(l.len() as int)[j + 1]);
                }
            }
        }
    }
}

/// A two-branch alternation of literal words matches exactly those two.
proof fn lemma_two_literal_alt(u: Seq<u8>, v: Seq<u8>, t: Seq<u8>)
    requires
        literal_word(u),
        literal_word(v),
    ensures
        alt_matches(u + seq![124u8] + v, t) <==> (t == u || t == v),
{
    let p = u + seq![124u8] + v;
    assert(forall|j: int| 0 <= j < u.len() ==> #[trigger] p[j] == u[j]);
    lemma_top_bar_from(p, 0, u.len() as int);
    assert(p[u.len() as int] == 124u8);
    assert(top_bar(p, u.len() as int, 0) == u.len());
    assert(top_bar(p, 0, 0) == u.len() < p.len());
    assert(p.take(u.len() as int) =~= u);
    assert(p.skip(u.len() as int + 1) =~= v);
    lemma_top_bar_literal(u);
    lemma_seq_literal(u, t);
    lemma_literal_matches(v, t);
}

/// `L[xy]` with a literal prefix and letters matches exactly `Lx` and `Ly`.
pub proof fn lemma_bracket_language(l: Seq<u8>, x: u8, y: u8, w: Seq<u8>)
    requires
        literal_word(l),
        x != 40 && x != 41 && x != 63 && x != 91 && x != 93 && x != 124,
        y != 40 && y != 41 && y != 63 && y != 91 && y != 93 && y != 124,
    ensures
        alt_matches(l + seq![91u8, x, y, 93u8], w) <==> (w == l.push(x) || w == l.push(y)),
{
    let p = l + seq![91u8, x, y, 93u8];
    let q = seq![91u8, x, y, 93u8];
    assert(p =~= l + q);
    assert(forall|j: int|
        0 <= j < p.len() ==> (#[trigger] p[j]) != 124 && p[j] != 40 && p[j] != 41) by {
        assert(forall|j: int| 0 <= j < l.len() ==> #[trigger] p[j] == l[j]);
        assert(p[l.len() as int] == 91u8);
        assert(p[l.len() as int + 1] == x);
        assert(p[l.len() as int + 2] == y);
        assert(p[l.len() as int + 3] == 93u8);
    }
    lemma_top_bar_from(p, 0, p.len() as int);
    assert(q[0] != 63);
    lemma_seq_literal_prefix(l, q, w);
    let ww = w.skip(l.len() as int);
    assert(q[0] == 91 && q.len() >= 4 && q[3] == 93);
    assert(q[0] != 40);
    assert(q.skip(4).len() == 0);
    assert(seq_matches(q, ww) <==> (ww.len() > 0 && (ww[0] == x || ww[0] == y) && seq_matches(
        q.skip(4),
        ww.skip(1),
    )));
    assert(seq_matches(q, ww) <==> (ww == seq![x] || ww == seq![y])) by {
        if ww.len() > 0 && ww.skip(1).len() == 0 {
            if ww[0] == x {
                assert(ww =~= seq![x]);
            }
            if ww[0] == y {
                assert(ww =~= seq![y]);
            }
        }
        if ww == seq![x] || ww == seq![y] {
            assert(ww.skip(1).len() == 0);
        }
    }
    assert((w.len() >= l.len() && w.take(l.len() as int) == l && (w.skip(l.len() as int) == seq![x]
        || w.skip(l.len() as int) == seq![y])) <==> (w == l.push(x) || w == l.push(y))) by {
        if w.len() >= l.len() && w.take(l.len() as int) == l {
            assert(w =~= l + w.skip(l.len() as int));
            if w.skip(l.len() as int) == seq![x] {
                assert(w =~= l.push(x));
            }
            if w.skip(l.len() as int) == seq![y] {
                assert(w =~= l.push(y));
            }
        }
        if w == l.push(x) {
            assert(w.take(l.len() as int) =~= l);
            assert(w.skip(l.len() as int) =~= seq![x]);
        }
        if w == l.push(y) {
            assert(w.take(l.len() as int) =~= l);
            assert(w.skip(l.len() as int) =~= seq![y]);
        }
    }
}

/// `L(U|V)` with literal parts matches exactly `LU` and `LV`.
pub proof fn lemma_group_alt_language(l: Seq<u8>, u: Seq<u8>, v: Seq<u8>, w: Seq<u8>)
    requires
        literal_word(l),
        literal_word(u),
        literal_word(v),
    ensures
        alt_matches(l + seq![40u8] + u + seq![124u8] + v + seq![41u8], w) <==> (w == l + u || w == l
            + v),
    decreases 0int,
{
    let p = l + seq![40u8] + u + seq![124u8] + v + seq![41u8];
    let q = seq![40u8] + u + seq![124u8] + v + seq![41u8];
    assert(p =~= l + q);
    // no top-level bar: scan l, descend at the paren, pass u | v, close.
    assert(forall|j: int|
        0 <= j < l.len() ==> #[trigger] p[j] == l[j] && p[j] != 124 && p[j] != 40 && p[j] != 41);
    lemma_top_bar_from(p, 0, l.len() as int);
    assert(p[l.len() as int] == 40u8);
    let inner_end: int = l.len() as int + 1 + u.len() + 1 + v.len();
    assert(forall|j: int|
        l.len() + 1 <= j < inner_end ==> (#[trigger] p[j]) != 40 && p[j] != 41) by {
        assert(forall|j: int| 0 <= j < u.len() ==> #[trigger] p[l.len() + 1 + j] == u[j]);
        assert(p[l.len() as int + 1 + u.len()] == 124u8);
        assert(forall|j: int|
            0 <= j < v.len() ==> #[trigger] p[l.len() + 2 + u.len() + j] == v[j]);
    }
    lemma_top_bar_deep(p, l.len() as int + 1, inner_end, 1);
    assert(p[inner_end] == 41u8);
    assert(top_bar(p, inner_end, 1) == top_bar(p, inner_end + 1, 0));
    assert(top_bar(p, inner_end + 1, 0) == p.len());
    assert(top_bar(p, 0, 0) == p.len());
    // peel the literal prefix.
    assert(q[0] != 63);
    lemma_seq_literal_prefix(l, q, w);
    // the group atom: its close paren, inner alternation, empty rest.
    let ww = w.skip(l.len() as int);
    assert(q[0] == 40);
    lemma_close_paren_bounds(q, 1, 0);
    assert(forall|j: int| 1 <= j < q.len() - 1 ==> (#[trigger] q[j]) != 40 && q[j] != 41) by {
        assert(forall|j: int| 0 <= j < u.len() ==> #[trigger] q[1 + j] == u[j]);
        assert(q[1 + u.len() as int] == 124u8);
        assert(forall|j: int| 0 <= j < v.len() ==> #[trigger] q[2 + u.len() + j] == v[j]);
    }
    lemma_close_paren_from(q, 1, q.len() - 1);
    assert(q[q.len() - 1] == 41u8);
    assert(close_paren(q, q.len() - 1, 0) == q.len() - 1);
    let j = close_paren(q, 1, 0);
    assert(j == q.len() - 1);
    let inner = q.subrange(1, j);
    assert(inner =~= u + seq![124u8] + v);
    let rest = q.skip(j + 1);
    assert(rest.len() == 0);
    assert(seq_matches(q, ww) <==> (exists|k: int|
        0 <= k <= ww.len() && alt_matches(inner, ww.take(k)) && seq_matches(rest, ww.skip(k))));
    assert forall|t: Seq<u8>| alt_matches(inner, t) <==> (t == u || t == v) by {
        lemma_two_literal_alt(u, v, t);
    }
    assert(seq_matches(q, ww) <==> (ww == u || ww == v)) by {
        if seq_matches(q, ww) {
            let k = choose|k: int|
                0 <= k <= ww.len() && alt_matches(inner, ww.take(k)) && seq_matches(
                    rest,
                    ww.skip(k),
                );
            assert(ww.skip(k).len() == 0);
            assert(ww.take(k) =~= ww);
        }
        if ww == u || ww == v {
            let k = ww.len() as int;
            assert(ww.take(k) =~= ww);
            assert(ww.skip(k).len() == 0);
            assert(seq_matches(rest, ww.skip(k)));
            assert(alt_matches(inner, ww.take(k)));
        }
    }
    assert((w.len() >= l.len() && w.take(l.len() as int) == l && (w.skip(l.len() as int) == u
        || w.skip(l.len() as int) == v)) <==> (w == l + u || w == l + v)) by {
        if w.len() >= l.len() && w.take(l.len() as int) == l {
            assert(w =~= l + w.skip(l.len() as int));
        }
        if w == l + u {
            assert(w.take(l.len() as int) =~= l);
            assert(w.skip(l.len() as int) =~= u);
        }
        if w == l + v {
            assert(w.take(l.len() as int) =~= l);
            assert(w.skip(l.len() as int) =~= v);
        }
    }
}

/// `L(U)?` with literal parts matches exactly `L` and `LU`.
pub proof fn lemma_optional_group_language(l: Seq<u8>, u: Seq<u8>, w: Seq<u8>)
    requires
        literal_word(l),
        literal_word(u),
    ensures
        alt_matches(l + seq![40u8] + u + seq![41u8, 63u8], w) <==> (w == l || w == l + u),
{
    let p = l + seq![40u8] + u + seq![41u8, 63u8];
    let q = seq![40u8] + u + seq![41u8, 63u8];
    assert(p =~= l + q);
    assert(forall|j: int|
        0 <= j < l.len() ==> #[trigger] p[j] == l[j] && p[j] != 124 && p[j] != 40 && p[j] != 41);
    lemma_top_bar_from(p, 0, l.len() as int);
    assert(p[l.len() as int] == 40u8);
    let inner_end: int = l.len() as int + 1 + u.len();
    assert(forall|j: int|
        l.len() + 1 <= j < inner_end ==> (#[trigger] p[j]) != 40 && p[j] != 41) by {
        assert(forall|j: int| 0 <= j < u.len() ==> #[trigger] p[l.len() + 1 + j] == u[j]);
    }
    lemma_top_bar_deep(p, l.len() as int + 1, inner_end, 1);
    assert(p[inner_end] == 41u8);
    assert(top_bar(p, inner_end, 1) == top_bar(p, inner_end + 1, 0));
    assert(p[inner_end + 1] == 63u8);
    assert(top_bar(p, inner_end + 1, 0) == top_bar(p, inner_end + 2, 0));
    assert(top_bar(p, inner_end + 2, 0) == p.len());
    assert(top_bar(p, 0, 0) == p.len());
    assert(q[0] != 63);
    lemma_seq_literal_prefix(l, q, w);
    let ww = w.skip(l.len() as int);
    assert(q[0] == 40);
    lemma_close_paren_bounds(q, 1, 0);
    assert(forall|j: int| 1 <= j < q.len() - 2 ==> (#[trigger] q[j]) != 40 && q[j] != 41) by {
        assert(forall|j: int| 0 <= j < u.len() ==> #[trigger] q[1 + j] == u[j]);
    }
    lemma_close_paren_from(q, 1, q.len() - 2);
    assert(q[q.len() - 2] == 41u8);
    assert(close_paren(q, q.len() - 2, 0) == q.len() - 2);
    let j = close_paren(q, 1, 0);
    assert(j == q.len() - 2);
    let inner = q.subrange(1, j);
    assert(inner =~= u);
    let rest = q.skip(j + 1);
    assert(rest =~= seq![63u8]);
    assert(rest.skip(1).len() == 0);
    assert(seq_matches(q, ww) <==> ((exists|k: int|
        0 <= k <= ww.len() && alt_matches(inner, ww.take(k)) && seq_matches(
            rest.skip(1),
            ww.skip(k),
        )) || seq_matches(rest.skip(1), ww)));
    assert forall|t: Seq<u8>| alt_matches(inner, t) <==> t == u by {
        lemma_literal_matches(u, t);
    }
    assert(seq_matches(q, ww) <==> (ww == u || ww.len() == 0)) by {
        if seq_matches(q, ww) && !seq_matches(rest.skip(1), ww) {
            let k = choose|k: int|
                0 <= k <= ww.len() && alt_matches(inner, ww.take(k)) && seq_matches(
                    rest.skip(1),
                    ww.skip(k),
                );
            assert(ww.skip(k).len() == 0);
            assert(ww.take(k) =~= ww);
        }
        if ww == u {
            let k = ww.len() as int;
            assert(ww.take(k) =~= ww);
            assert(ww.skip(k).len() == 0);
            assert(alt_matches(inner, ww.take(k)));
        }
    }
    assert((w.len() >= l.len() && w.take(l.len() as int) == l && (w.skip(l.len() as int) == u
        || w.skip(l.len() as int).len() == 0)) <==> (w == l || w == l + u)) by {
        if w.len() >= l.len() && w.take(l.len() as int) == l {
            assert(w =~= l + w.skip(l.len() as int));
            if w.skip(l.len() as int).len() == 0 {
                assert(w =~= l);
            }
        }
        if w == l {
            assert(w.take(l.len() as int) =~= l);
            assert(w.skip(l.len() as int).len() == 0);
        }
        if w == l + u {
            assert(w.take(l.len() as int) =~= l);
            assert(w.skip(l.len() as int) =~= u);
        }
    }
}

/// `Lx?` with a literal prefix and letter matches exactly `L` and `Lx`.
pub proof fn lemma_optional_letter_language(l: Seq<u8>, x: u8, w: Seq<u8>)
    requires
        literal_word(l),
        x != 40 && x != 41 && x != 63 && x != 91 && x != 93 && x != 124,
    ensures
        alt_matches(l + seq![x, 63u8], w) <==> (w == l || w == l.push(x)),
{
    let p = l + seq![x, 63u8];
    let q = seq![x, 63u8];
    assert(p =~= l + q);
    assert(forall|j: int|
        0 <= j < l.len() ==> #[trigger] p[j] == l[j] && p[j] != 124 && p[j] != 40 && p[j] != 41);
    lemma_top_bar_from(p, 0, l.len() as int);
    assert(p[l.len() as int] == x);
    assert(top_bar(p, l.len() as int, 0) == top_bar(p, l.len() as int + 1, 0));
    assert(p[l.len() as int + 1] == 63u8);
    assert(top_bar(p, l.len() as int + 1, 0) == top_bar(p, l.len() as int + 2, 0));
    assert(top_bar(p, 0, 0) == p.len());
    assert(q[0] != 63);
    lemma_seq_literal_prefix(l, q, w);
    let ww = w.skip(l.len() as int);
    assert(q[0] == x && x != 40 && q.len() >= 2 && q[1] == 63);
    assert(q.skip(2).len() == 0);
    assert(seq_matches(q, ww) <==> ((ww.len() > 0 && ww[0] == x && seq_matches(
        q.skip(2),
        ww.skip(1),
    )) || seq_matches(q.skip(2), ww)));
    assert(seq_matches(q, ww) <==> (ww == seq![x] || ww.len() == 0)) by {
        if ww.len() > 0 && ww[0] == x && ww.skip(1).len() == 0 {
            assert(ww =~= seq![x]);
        }
        if ww == seq![x] {
            assert(ww.skip(1).len() == 0);
        }
    }
    assert((w.len() >= l.len() && w.take(l.len() as int) == l && (w.skip(l.len() as int) == seq![x]
        || w.skip(l.len() as int).len() == 0)) <==> (w == l || w == l.push(x))) by {
        if w.len() >= l.len() && w.take(l.len() as int) == l {
            assert(w =~= l + w.skip(l.len() as int));
            if w.skip(l.len() as int).len() == 0 {
                assert(w =~= l);
            }
            if w.skip(l.len() as int) == seq![x] {
                assert(w =~= l.push(x));
            }
        }
        if w == l {
            assert(w.take(l.len() as int) =~= l);
            assert(w.skip(l.len() as int).len() == 0);
        }
        if w == l.push(x) {
            assert(w.take(l.len() as int) =~= l);
            assert(w.skip(l.len() as int) =~= seq![x]);
        }
    }
}

} // verus!
