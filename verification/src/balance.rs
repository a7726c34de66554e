//! Parenthesis accounting for the emitted patterns.
//!
//! The engine opens a group for every depth it pushes and closes one for
//! every depth it clears, so a finished pattern built from words that carry
//! no paren bytes of their own has as many `(` as `)`. The counting spec
//! and its algebra live here; the engine and the assembler state their
//! balance clauses over it.

use vstd::prelude::*;

verus! {

/// What one byte contributes to the open-paren surplus.
pub open spec fn paren_delta(b: u8) -> int {
    if b == 40 {
        1
    } else if b == 41 {
        -1
    } else {
        0
    }
}

/// The number of `(` minus the number of `)` in the buffer.
pub open spec fn paren_excess(s: Seq<u8>) -> int
    decreases s.len(),
{
    if s.len() == 0 {
        0
    } else {
        paren_excess(s.drop_last()) + paren_delta(s.last())
    }
}

/// The buffer holds no paren byte at all.
pub open spec fn no_parens(s: Seq<u8>) -> bool {
    forall|i: int| 0 <= i < s.len() ==> s[i] != 40 && s[i] != 41
}

/// Every word of the list holds no paren byte.
pub open spec fn vecs_no_parens(l: Seq<Vec<u8>>) -> bool {
    forall|i: int| 0 <= i < l.len() ==> no_parens((#[trigger] l[i])@)
}

/// Every word of the list of byte views holds no paren byte.
pub open spec fn words_no_parens(l: Seq<Seq<u8>>) -> bool {
    forall|i: int| 0 <= i < l.len() ==> no_parens(#[trigger] l[i])
}

pub proof fn lemma_excess_push(s: Seq<u8>, b: u8)
    ensures
        paren_excess(s.push(b)) == paren_excess(s) + paren_delta(b),
{
    assert(s.push(b).drop_last() =~= s);
    assert(s.push(b).last() == b);
}

pub proof fn lemma_excess_concat(a: Seq<u8>, b: Seq<u8>)
    ensures
        paren_excess(a + b) == paren_excess(a) + paren_excess(b),
    decreases b.len(),
{
    if b.len() == 0 {
        assert(a + b =~= a);
    } else {
        lemma_excess_concat(a, b.drop_last());
        assert((a + b).drop_last() =~= a + b.drop_last());
        assert((a + b).last() == b.last());
    }
}

pub proof fn lemma_excess_single(b: u8)
    ensures
        paren_excess(seq![b]) == paren_delta(b),
{
    assert(seq![b].drop_last() =~= Seq::<u8>::empty());
    assert(seq![b].last() == b);
    assert(paren_excess(seq![b]) == paren_excess(Seq::<u8>::empty()) + paren_delta(b));
}

pub proof fn lemma_excess_cons(b: u8, s: Seq<u8>)
    ensures
        paren_excess(seq![b] + s) == paren_delta(b) + paren_excess(s),
{
    lemma_excess_single(b);
    lemma_excess_concat(seq![b], s);
}

pub proof fn lemma_excess_pair(a: u8, b: u8)
    ensures
        paren_excess(seq![a, b]) == paren_delta(a) + paren_delta(b),
{
    lemma_excess_single(a);
    assert(seq![a, b] =~= seq![a].push(b));
    lemma_excess_push(seq![a], b);
}

pub proof fn lemma_excess_triple(a: u8, b: u8, c: u8)
    ensures
        paren_excess(seq![a, b, c]) == paren_delta(a) + paren_delta(b) + paren_delta(c),
{
    lemma_excess_pair(a, b);
    assert(seq![a, b, c] =~= seq![a, b].push(c));
    lemma_excess_push(seq![a, b], c);
}

pub proof fn lemma_excess_quad(a: u8, b: u8, c: u8, d: u8)
    ensures
        paren_excess(seq![a, b, c, d]) == paren_delta(a) + paren_delta(b) + paren_delta(c)
            + paren_delta(d),
{
    lemma_excess_triple(a, b, c);
    assert(seq![a, b, c, d] =~= seq![a, b, c].push(d));
    lemma_excess_push(seq![a, b, c], d);
}

pub proof fn lemma_excess_quint(a: u8, b: u8, c: u8, d: u8, e: u8)
    ensures
        paren_excess(seq![a, b, c, d, e]) == paren_delta(a) + paren_delta(b) + paren_delta(c)
            + paren_delta(d) + paren_delta(e),
{
    lemma_excess_quad(a, b, c, d);
    assert(seq![a, b, c, d, e] =~= seq![a, b, c, d].push(e));
    lemma_excess_push(seq![a, b, c, d], e);
}

pub proof fn lemma_excess_remove(s: Seq<u8>, i: int)
    requires
        0 <= i < s.len(),
    ensures
        paren_excess(s.remove(i)) == paren_excess(s) - paren_delta(s[i]),
{
    assert(s =~= s.take(i) + seq![s[i]] + s.skip(i + 1));
    assert(s.remove(i) =~= s.take(i) + s.skip(i + 1));
    lemma_excess_concat(s.take(i) + seq![s[i]], s.skip(i + 1));
    lemma_excess_concat(s.take(i), seq![s[i]]);
    lemma_excess_concat(s.take(i), s.skip(i + 1));
    lemma_excess_single(s[i]);
}

/// A buffer without paren bytes is in perfect balance.
pub proof fn lemma_excess_no_parens(s: Seq<u8>)
    requires
        no_parens(s),
    ensures
        paren_excess(s) == 0,
    decreases s.len(),
{
    if s.len() > 0 {
        assert(no_parens(s.drop_last())) by {
            assert(forall|i: int| 0 <= i < s.len() - 1 ==> s.drop_last()[i] == s[i]);
        }
        lemma_excess_no_parens(s.drop_last());
        assert(paren_delta(s.last()) == 0);
    }
}

/// Taking a byte off a paren-free buffer leaves it paren-free.
pub proof fn lemma_no_parens_remove(s: Seq<u8>, i: int)
    requires
        no_parens(s),
        0 <= i < s.len(),
    ensures
        no_parens(s.remove(i)),
{
    s.remove_ensures(i);
}

/// Taking a word out of a paren-free list leaves it paren-free.
pub proof fn lemma_vecs_no_parens_remove(l: Seq<Vec<u8>>, i: int)
    requires
        vecs_no_parens(l),
        0 <= i < l.len(),
    ensures
        vecs_no_parens(l.remove(i)),
{
    l.remove_ensures(i);
}

/// Adding a paren-free word to a paren-free list leaves it paren-free.
pub proof fn lemma_vecs_no_parens_insert(l: Seq<Vec<u8>>, i: int, v: Vec<u8>)
    requires
        vecs_no_parens(l),
        no_parens(v@),
        0 <= i <= l.len(),
    ensures
        vecs_no_parens(l.insert(i, v)),
{
    let t = l.insert(i, v);
    assert forall|j: int| 0 <= j < t.len() implies no_parens((#[trigger] t[j])@) by {
        if j < i {
            assert(t[j] == l[j]);
        } else if j == i {
            assert(t[j] == v);
        } else {
            assert(t[j] == l[j - 1]);
        }
    }
}

} // verus!
