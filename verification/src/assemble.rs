//! The fragment assembler: the whole pipeline from raw lines to the
//! finished pattern.
//!
//! The word list is normalized, then drained group by group: each maximal
//! run of words sharing a first byte is flattened into one fragment, the
//! fragments are concatenated with their `|` separators, the single
//! trailing separator is stripped, and the tidier post-processes the
//! result. A group whose step budget runs out aborts the whole conversion.

use vstd::prelude::*;

use crate::balance::lemma_excess_concat;
use crate::balance::no_parens;
use crate::balance::paren_delta;
use crate::balance::paren_excess;
use crate::balance::words_no_parens;
use crate::engine::treeify;
use crate::engine::two_suffix_fragment;
use crate::lang::alt_matches;
use crate::lang::lemma_bracket_language;
use crate::lang::lemma_group_alt_language;
use crate::lang::lemma_literal_matches;
use crate::lang::lemma_optional_group_language;
use crate::lang::lemma_optional_letter_language;
use crate::lang::lemma_top_bar_from;
use crate::lang::literal_word;
use crate::lang::top_bar;
use crate::order::lemma_common_prefix;
use crate::order::lemma_lex_lt_prefix;
use crate::tidy::collapse;
use crate::tidy::is_pat;
use crate::tidy::lemma_collapse_fixed;
use crate::tidy::lemma_first_pat_from_props;
use crate::tidy::lemma_no_open_no_pat;
use crate::tidy::rewrite_at;
use crate::group::extract_sub_group;
use crate::group::head_run_len;
use crate::group::run_end;
use crate::normalize::normalizes_to;
use crate::order::common_prefix_len;
use crate::order::lemma_lex_lt_skip;
use crate::order::lex_lt;
use crate::normalize::pre_process;
use crate::normalize::views;
use crate::order::strictly_sorted;
use crate::tidy::post_process;
use crate::tidy::tidy_spec;

verus! {

/// The concatenation of the words, each followed by a `|` separator.
pub open spec fn join_frag(ws: Seq<Seq<u8>>) -> Seq<u8>
    decreases ws.len(),
{
    if ws.len() == 0 {
        Seq::empty()
    } else {
        ws[0] + seq![124u8] + join_frag(ws.skip(1))
    }
}

/// The words joined by `|` separators, with no trailing separator.
pub open spec fn join_words(ws: Seq<Seq<u8>>) -> Seq<u8> {
    if ws.len() == 0 {
        Seq::empty()
    } else {
        join_frag(ws).drop_last()
    }
}

/// No two adjacent words share a first byte; on a sorted list this means
/// every group is a single word.
pub open spec fn distinct_heads(ws: Seq<Seq<u8>>) -> bool {
    forall|i: int| 0 <= i < ws.len() - 1 ==> (#[trigger] ws[i])[0] != ws[i + 1][0]
}

proof fn lemma_join_frag_push(ws: Seq<Seq<u8>>, x: Seq<u8>)
    ensures
        join_frag(ws.push(x)) == join_frag(ws) + x + seq![124u8],
    decreases ws.len(),
{
    let t = ws.push(x).skip(1);
    if ws.len() == 0 {
        assert(t.len() == 0);
        assert(join_frag(t) == Seq::<u8>::empty());
        assert(join_frag(ws) == Seq::<u8>::empty());
        assert(ws.push(x)[0] == x);
        assert(join_frag(ws.push(x)) == x + seq![124u8] + join_frag(t));
        assert(x + seq![124u8] + Seq::<u8>::empty() =~= Seq::<u8>::empty() + x + seq![124u8]);
    } else {
        assert(t =~= ws.skip(1).push(x));
        lemma_join_frag_push(ws.skip(1), x);
        assert(ws.push(x)[0] == ws[0]);
        assert(join_frag(ws.push(x)) == ws[0] + seq![124u8] + join_frag(t));
        assert(join_frag(t) == join_frag(ws.skip(1)) + x + seq![124u8]);
        assert(ws[0] + seq![124u8] + (join_frag(ws.skip(1)) + x + seq![124u8]) =~= (ws[0] + seq![
            124u8,
        ] + join_frag(ws.skip(1))) + x + seq![124u8]);
    }
}

/// Every byte of every word is plain: below the folded accent range and no
/// open paren.
pub open spec fn words_plain(ws: Seq<Seq<u8>>) -> bool {
    forall|i: int, j: int|
        0 <= i < ws.len() && 0 <= j < ws[i].len() ==> (#[trigger] ws[i][j]) < 161 && ws[i][j] != 40
}

proof fn lemma_join_frag_plain(ws: Seq<Seq<u8>>)
    requires
        words_plain(ws),
    ensures
        forall|i: int|
            0 <= i < join_frag(ws).len() ==> (#[trigger] join_frag(ws)[i]) < 161 && join_frag(
                ws,
            )[i] != 40,
    decreases ws.len(),
{
    if ws.len() > 0 {
        assert(words_plain(ws.skip(1))) by {
            assert(forall|i: int| 0 <= i < ws.skip(1).len() ==> #[trigger] ws.skip(1)[i] == ws[i
                + 1]);
        }
        lemma_join_frag_plain(ws.skip(1));
        let h = ws[0] + seq![124u8];
        assert forall|i: int| 0 <= i < join_frag(ws).len() implies (#[trigger] join_frag(ws)[i])
            < 161 && join_frag(ws)[i] != 40 by {
            assert(join_frag(ws) == h + join_frag(ws.skip(1)));
            if i < h.len() {
                assert(join_frag(ws)[i] == h[i]);
                if i < ws[0].len() {
                    assert(h[i] == ws[0][i]);
                } else {
                    assert(h[i] == 124u8);
                }
            } else {
                assert(join_frag(ws)[i] == join_frag(ws.skip(1))[i - h.len()]);
            }
        }
    }
}

/// Every byte of every word is an ordinary literal: below the folded
/// accent range and none of the pattern metacharacters.
pub open spec fn plain_literal_words(ws: Seq<Seq<u8>>) -> bool {
    forall|i: int, j: int|
        0 <= i < ws.len() && 0 <= j < ws[i].len() ==> (#[trigger] ws[i][j]) < 161 && ws[i][j] != 40
            && ws[i][j] != 41 && ws[i][j] != 63 && ws[i][j] != 91 && ws[i][j] != 93 && ws[i][j]
            != 124
}

/// The language of a `|`-join of literal words is exactly that word set.
pub proof fn lemma_join_language(ws: Seq<Seq<u8>>, w: Seq<u8>)
    requires
        ws.len() >= 1,
        plain_literal_words(ws),
    ensures
        alt_matches(join_words(ws), w) <==> ws.contains(w),
    decreases ws.len(),
{
    let jn = join_words(ws);
    assert(literal_word(ws[0]));
    if ws.len() == 1 {
        assert(join_frag(ws.skip(1)).len() == 0);
        assert(join_frag(ws.skip(1)) == Seq::<u8>::empty());
        assert(jn =~= ws[0]);
        lemma_literal_matches(ws[0], w);
        if ws.contains(w) {
            let i = choose|i: int| 0 <= i < ws.len() && ws[i] == w;
            assert(w == ws[0]);
        }
        if w == ws[0] {
            assert(ws.contains(ws[0]));
        }
        assert(ws.contains(w) <==> w == ws[0]);
        assert(alt_matches(jn, w) <==> w == ws[0]);
    } else {
        let tail = ws.skip(1);
        assert(plain_literal_words(tail)) by {
            assert(forall|i: int| 0 <= i < tail.len() ==> #[trigger] tail[i] == ws[i + 1]);
        }
        assert(join_frag(tail).len() >= 1);
        assert(jn =~= ws[0] + seq![124u8] + join_words(tail)) by {
            assert(join_frag(ws) == ws[0] + seq![124u8] + join_frag(tail));
            assert(join_words(tail) == join_frag(tail).drop_last());
        }
        let m = ws[0].len() as int;
        assert(forall|j: int| 0 <= j < m ==> #[trigger] jn[j] == ws[0][j]);
        lemma_top_bar_from(jn, 0, m);
        assert(jn[m] == 124u8);
        assert(top_bar(jn, m, 0) == m);
        assert(top_bar(jn, 0, 0) == m);
        assert(jn.take(m) =~= ws[0]);
        assert(jn.skip(m + 1) =~= join_words(tail));
        lemma_literal_matches(ws[0], w);
        crate::lang::lemma_top_bar_literal(ws[0]);
        assert(crate::lang::seq_matches(ws[0], w) <==> w == ws[0]);
        assert(jn.len() > m);
        assert(alt_matches(jn, w) <==> (crate::lang::seq_matches(jn.take(m), w) || alt_matches(
            jn.skip(m + 1),
            w,
        )));
        lemma_join_language(tail, w);
        assert(ws.contains(w) <==> (w == ws[0] || tail.contains(w))) by {
            if ws.contains(w) {
                let i = choose|i: int| 0 <= i < ws.len() && ws[i] == w;
                if i > 0 {
                    assert(tail[i - 1] == w);
                    assert(tail.contains(w));
                }
            }
            if tail.contains(w) {
                let i = choose|i: int| 0 <= i < tail.len() && tail[i] == w;
                assert(ws[i + 1] == w);
                assert(ws.contains(w));
            }
            if w == ws[0] {
                assert(ws.contains(ws[0]));
            }
        }
    }
}

/// Every byte of the word is an ordinary literal: below the folded accent
/// range and none of the pattern metacharacters.
pub open spec fn plain_literal_word(s: Seq<u8>) -> bool {
    forall|j: int|
        0 <= j < s.len() ==> (#[trigger] s[j]) < 161 && s[j] != 40 && s[j] != 41 && s[j] != 63
            && s[j] != 91 && s[j] != 93 && s[j] != 124
}

/// The tidied two-suffix fragment for plain literal words, with both
/// optional passes off, matches exactly the two words: diverging single
/// letters collapse to a bracket class, longer tails keep their
/// alternation, and a prefix word makes the extension optional.
pub proof fn lemma_two_word_language(h: u8, t1: Seq<u8>, t2: Seq<u8>, w: Seq<u8>)
    requires
        lex_lt(t1, t2),
        plain_literal_word(seq![h]),
        plain_literal_word(t1),
        plain_literal_word(t2),
    ensures
        alt_matches(
            tidy_spec(two_suffix_fragment(h, t1, t2).drop_last(), false, false),
            w,
        ) <==> (w == seq![h] + t1 || w == seq![h] + t2),
{
    lemma_common_prefix(t1, t2);
    lemma_lex_lt_prefix(t1, t2);
    let m = common_prefix_len(t1, t2);
    let frag = two_suffix_fragment(h, t1, t2);
    if m == t1.len() {
        let tail = t2.skip(m);
        let lpre = seq![h] + t1;
        assert(literal_word(lpre) && (forall|j: int|
            0 <= j < lpre.len() ==> (#[trigger] lpre[j]) < 161)) by {
            assert(lpre[0] == h && seq![h][0] == h);
            assert(forall|j: int| 1 <= j < lpre.len() ==> #[trigger] lpre[j] == t1[j - 1]);
        }
        assert(t1 =~= t2.take(m));
        if tail.len() == 1 {
            let x = tail[0];
            assert(x == t2[m]);
            let fd = lpre + seq![x, 63u8];
            assert(frag.drop_last() =~= fd);
            assert(forall|j: int| 0 <= j < fd.len() ==> (#[trigger] fd[j]) != 40 && fd[j] < 161)
                by {
                assert(forall|j: int| 0 <= j < lpre.len() ==> #[trigger] fd[j] == lpre[j]);
                assert(fd[lpre.len() as int] == x && fd[lpre.len() as int + 1] == 63u8);
            }
            lemma_no_open_no_pat(fd);
            crate::codec::lemma_expand_identity(fd);
            assert(tidy_spec(fd, false, false) == fd);
            lemma_optional_letter_language(lpre, x, w);
            assert(lpre.push(x) =~= seq![h] + t2);
        } else {
            let fd = lpre + seq![40u8] + tail + seq![41u8, 63u8];
            assert(frag.drop_last() =~= fd);
            assert(literal_word(tail) && (forall|j: int|
                0 <= j < tail.len() ==> (#[trigger] tail[j]) < 161)) by {
                assert(forall|j: int| 0 <= j < tail.len() ==> #[trigger] tail[j] == t2[m + j]);
            }
            assert(forall|j: int| 0 <= j < fd.len() ==> (#[trigger] fd[j]) < 161) by {
                assert(forall|j: int| 0 <= j < lpre.len() ==> #[trigger] fd[j] == lpre[j]);
                assert(fd[lpre.len() as int] == 40u8);
                assert(forall|j: int|
                    0 <= j < tail.len() ==> #[trigger] fd[lpre.len() + 1 + j] == tail[j]);
                assert(fd[fd.len() - 2] == 41u8 && fd[fd.len() - 1] == 63u8);
            }
            assert(forall|i: int| 0 <= i < fd.len() ==> !is_pat(fd, i)) by {
                assert forall|i: int| 0 <= i < fd.len() implies !is_pat(fd, i) by {
                    if i < lpre.len() {
                        assert(fd[i] == lpre[i]);
                    } else if i == lpre.len() {
                        assert(fd[i + 2] == tail[1]);
                    } else if i < lpre.len() + 1 + tail.len() {
                        assert(fd[i] == tail[i - lpre.len() - 1]);
                    }
                }
            }
            lemma_first_pat_from_props(fd, 0);
            if crate::tidy::first_pat(fd) < fd.len() {
                assert(is_pat(fd, crate::tidy::first_pat(fd)));
            }
            lemma_collapse_fixed(fd);
            crate::codec::lemma_expand_identity(fd);
            assert(tidy_spec(fd, false, false) == fd);
            lemma_optional_group_language(lpre, tail, w);
            assert(lpre + tail =~= seq![h] + t2);
        }
    } else {
        let u = t1.skip(m);
        let v2 = t2.skip(m);
        let lpre = seq![h] + t1.take(m);
        let fd = lpre + seq![40u8] + u + seq![124u8] + v2 + seq![41u8];
        assert(frag.drop_last() =~= fd);
        assert(u.len() >= 1 && v2.len() >= 1);
        assert(literal_word(lpre) && (forall|j: int|
            0 <= j < lpre.len() ==> (#[trigger] lpre[j]) < 161)) by {
            assert(lpre[0] == h && seq![h][0] == h);
            assert(forall|j: int| 1 <= j < lpre.len() ==> #[trigger] lpre[j] == t1[j - 1]);
        }
        assert(literal_word(u) && (forall|j: int| 0 <= j < u.len() ==> (#[trigger] u[j]) < 161))
            by {
            assert(forall|j: int| 0 <= j < u.len() ==> #[trigger] u[j] == t1[m + j]);
        }
        assert(literal_word(v2) && (forall|j: int|
            0 <= j < v2.len() ==> (#[trigger] v2[j]) < 161)) by {
            assert(forall|j: int| 0 <= j < v2.len() ==> #[trigger] v2[j] == t2[m + j]);
        }
        let bar_ix = lpre.len() + 1 + u.len();
        assert(forall|j: int| 0 <= j < lpre.len() ==> #[trigger] fd[j] == lpre[j]);
        assert(fd[lpre.len() as int] == 40u8);
        assert(forall|j: int| 0 <= j < u.len() ==> #[trigger] fd[lpre.len() + 1 + j] == u[j]);
        assert(fd[bar_ix as int] == 124u8);
        assert(forall|j: int| 0 <= j < v2.len() ==> #[trigger] fd[bar_ix + 1 + j] == v2[j]);
        assert(fd[fd.len() - 1] == 41u8);
        assert(forall|j: int| 0 <= j < fd.len() ==> (#[trigger] fd[j]) < 161);
        if u.len() == 1 && v2.len() == 1 {
            assert(is_pat(fd, lpre.len() as int)) by {
                assert(fd[lpre.len() as int + 2] == 124u8);
                assert(fd[lpre.len() as int + 4] == 41u8);
            }
            assert(forall|i: int| 0 <= i < lpre.len() ==> !is_pat(fd, i)) by {
                assert forall|i: int| 0 <= i < lpre.len() implies !is_pat(fd, i) by {
                    assert(fd[i] == lpre[i]);
                }
            }
            crate::tidy::lemma_first_pat_from_skip(fd, 0, lpre.len() as int);
            assert(crate::tidy::first_pat(fd) == lpre.len());
            let rw = rewrite_at(fd, lpre.len() as int);
            assert(rw =~= lpre + seq![91u8, u[0], v2[0], 93u8]);
            assert(collapse(fd) == collapse(rw));
            assert(forall|j: int| 0 <= j < rw.len() ==> (#[trigger] rw[j]) != 40 && rw[j] < 161)
                by {
                assert(forall|j: int| 0 <= j < lpre.len() ==> #[trigger] rw[j] == lpre[j]);
                assert(rw[lpre.len() as int] == 91u8);
                assert(rw[lpre.len() as int + 1] == u[0]);
                assert(rw[lpre.len() as int + 2] == v2[0]);
                assert(rw[lpre.len() as int + 3] == 93u8);
            }
            lemma_no_open_no_pat(rw);
            crate::codec::lemma_expand_identity(rw);
            assert(tidy_spec(fd, false, false) == rw);
            lemma_bracket_language(lpre, u[0], v2[0], w);
            assert(lpre.push(u[0]) =~= seq![h] + t1);
            assert(lpre.push(v2[0]) =~= seq![h] + t2);
        } else {
            assert(forall|i: int| 0 <= i < fd.len() ==> !is_pat(fd, i)) by {
                assert forall|i: int| 0 <= i < fd.len() implies !is_pat(fd, i) by {
                    if i < lpre.len() {
                        assert(fd[i] == lpre[i]);
                    } else if i == lpre.len() {
                        if u.len() == 1 {
                            assert(fd[i + 2] == 124u8);
                            assert(fd[i + 4] == v2[1]);
                        } else {
                            assert(fd[i + 2] == u[1]);
                        }
                    } else if i < bar_ix {
                        assert(fd[i] == u[i - lpre.len() - 1]);
                    } else if i == bar_ix {
                    } else if i < fd.len() - 1 {
                        assert(fd[i] == v2[i - bar_ix - 1]);
                    }
                }
            }
            lemma_first_pat_from_props(fd, 0);
            if crate::tidy::first_pat(fd) < fd.len() {
                assert(is_pat(fd, crate::tidy::first_pat(fd)));
            }
            lemma_collapse_fixed(fd);
            crate::codec::lemma_expand_identity(fd);
            assert(tidy_spec(fd, false, false) == fd);
            lemma_group_alt_language(lpre, u, v2, w);
            assert(lpre + u =~= seq![h] + t1);
            assert(lpre + v2 =~= seq![h] + t2);
        }
    }
}

/// For a nonempty list of plain words the tidier leaves their `|`-join
/// untouched: with the assembler's contract for lists of pairwise-distinct
/// first bytes, the produced pattern is then exactly the alternation of the
/// words themselves.
pub proof fn lemma_plain_join_pattern(ws: Seq<Seq<u8>>, diacritics: bool, noncapture: bool)
    requires
        ws.len() > 0,
        words_plain(ws),
    ensures
        tidy_spec(join_words(ws), diacritics, noncapture) == join_words(ws),
{
    lemma_join_frag_plain(ws);
    let j = join_words(ws);
    assert(forall|i: int| 0 <= i < j.len() ==> (#[trigger] j[i]) < 161 && j[i] != 40) by {
        assert(j == join_frag(ws).drop_last());
        assert(forall|i: int| 0 <= i < j.len() ==> #[trigger] j[i] == join_frag(ws)[i]);
    }
    crate::tidy::lemma_tidy_identity(j, diacritics, noncapture);
}

/// Converts a raw line list into the finished alternation pattern, or
/// `None` when some group exhausts its step budget.
///
/// On lines that normalize to nothing the pattern is empty; on any lines
/// that normalize to at least one word, a produced pattern is nonempty. On
/// a word list whose first bytes are pairwise distinct, every group is a
/// single word and the pattern is exactly the tidied `|`-join of the
/// normalized words — and when those words are plain literals, the
/// pattern's language is exactly that word set. On exactly two words
/// sharing a first byte, the pattern is exactly the tidied two-suffix
/// fragment: shared prefix factored once, diverging tails as a two-branch
/// alternation, or an optional suffix when one word extends the other.
/// Whenever the words carry no paren bytes of their own, a produced
/// pattern holds as many `(` as `)`.
pub fn parse_file(lines: Vec<Vec<u8>>, diacritics: bool, noncapture: bool) -> (r: Option<Vec<u8>>)
    ensures
        forall|ws: Seq<Seq<u8>>|
            #[trigger] normalizes_to(views(lines@), ws) && ws.len() == 0 ==> r is Some
                && r->0@.len() == 0,
        forall|ws: Seq<Seq<u8>>|
            #[trigger] normalizes_to(views(lines@), ws) && ws.len() > 0 && distinct_heads(ws)
                ==> r is Some && r->0@ == tidy_spec(join_words(ws), diacritics, noncapture),
        forall|ws: Seq<Seq<u8>>|
            #[trigger] normalizes_to(views(lines@), ws) && words_no_parens(ws) && r is Some
                ==> paren_excess(r->0@) == 0,
        forall|ws: Seq<Seq<u8>>|
            #[trigger] normalizes_to(views(lines@), ws) && ws.len() == 2 && ws[0][0] == ws[1][0]
                && no_parens(ws[0]) && no_parens(ws[1]) && 2 * common_prefix_len(
                ws[0].skip(1),
                ws[1].skip(1),
            ) + 4 <= 1024 ==> r is Some && r->0@ == tidy_spec(
                two_suffix_fragment(ws[0][0], ws[0].skip(1), ws[1].skip(1)).drop_last(),
                diacritics,
                noncapture,
            ),
        forall|ws: Seq<Seq<u8>>|
            #[trigger] normalizes_to(views(lines@), ws) && ws.len() > 0 && r is Some
                ==> r->0@.len() >= 1,
        forall|ws: Seq<Seq<u8>>|
            #[trigger] normalizes_to(views(lines@), ws) && ws.len() > 0 && distinct_heads(ws)
                && plain_literal_words(ws) ==> r is Some && (forall|w: Seq<u8>|
                alt_matches(r->0@, w) <==> ws.contains(w)),
        forall|ws: Seq<Seq<u8>>|
            #[trigger] normalizes_to(views(lines@), ws) && ws.len() == 2 && ws[0][0] == ws[1][0]
                && plain_literal_words(ws) && 2 * common_prefix_len(ws[0].skip(1), ws[1].skip(1))
                + 4 <= 1024 && diacritics == false && noncapture == false ==> r is Some && (
            forall|w: Seq<u8>| alt_matches(r->0@, w) <==> (w == ws[0] || w == ws[1])),
{
    let ghost lines0 = views(lines@);
    let mut wlist = lines;
    pre_process(&mut wlist);
    let ghost ws = views(wlist@);
    proof {
        assert(normalizes_to(lines0, ws));
        assert(forall|i: int| 0 <= i < ws.len() ==> (#[trigger] ws[i]).len() > 0) by {
            assert(forall|i: int| 0 <= i < ws.len() ==> ws.contains(#[trigger] ws[i]));
        }
        assert(forall|i: int| 0 <= i < wlist@.len() ==> #[trigger] wlist@[i]@ == ws[i]);
    }
    let ghost frag2 = two_suffix_fragment(ws[0][0], ws[0].skip(1), ws[1].skip(1));
    let ghost h3 = ws.len() == 2 && ws[0][0] == ws[1][0] && no_parens(ws[0]) && no_parens(ws[1])
        && 2 * common_prefix_len(ws[0].skip(1), ws[1].skip(1)) + 4 <= 1024;
    let mut word_tree: Vec<u8> = Vec::new();
    let ghost k: int = 0;
    while wlist.len() > 0
        invariant
            lines0 == views(lines@),
            normalizes_to(lines0, ws),
            frag2 == two_suffix_fragment(ws[0][0], ws[0].skip(1), ws[1].skip(1)),
            h3 == (ws.len() == 2 && ws[0][0] == ws[1][0] && no_parens(ws[0]) && no_parens(ws[1])
                && 2 * common_prefix_len(ws[0].skip(1), ws[1].skip(1)) + 4 <= 1024),
            h3 ==> ((k == 0 && word_tree@.len() == 0) || (k == 2 && word_tree@ == frag2)),
            k >= 1 ==> word_tree@.len() >= 2,
            0 <= k <= ws.len(),
            wlist@.len() == ws.len() - k,
            forall|i: int| 0 <= i < wlist@.len() ==> #[trigger] wlist@[i]@ == ws[k + i],
            forall|i: int| 0 <= i < ws.len() ==> (#[trigger] ws[i]).len() > 0,
            distinct_heads(ws) ==> word_tree@ == join_frag(ws.take(k)),
            ws.len() == 0 ==> word_tree@.len() == 0,
            words_no_parens(ws) ==> paren_excess(word_tree@) == 0,
            word_tree@.len() == 0 || word_tree@.last() == 124u8,
        decreases wlist@.len(),
    {
        let ghost pre_lines = views(wlist@);
        proof {
            assert(forall|i: int|
                0 <= i < pre_lines.len() ==> #[trigger] pre_lines[i] == wlist@[i]@);
            assert(forall|i: int| 0 <= i < pre_lines.len() ==> #[trigger] pre_lines[i].len() > 0);
        }
        let letter_group = extract_sub_group(&mut wlist);
        let ghost n = head_run_len(pre_lines);
        proof {
            if distinct_heads(ws) {
                let b = pre_lines[0][0];
                assert(pre_lines[0] == ws[k]);
                if 1 < pre_lines.len() {
                    assert(pre_lines[1] == ws[k + 1]);
                    assert(ws[k][0] != ws[k + 1][0]);
                    assert(run_end(pre_lines, b, 1) == 1);
                } else {
                    assert(run_end(pre_lines, b, 1) == 1);
                }
                assert(n == 1);
            }
        }
        proof {
            if h3 {
                assert(k == 0);
                assert(pre_lines[0] == ws[0] && pre_lines[1] == ws[1]);
                assert(pre_lines.len() == 2);
                assert(run_end(pre_lines, pre_lines[0][0], 2) == 2);
                assert(run_end(pre_lines, pre_lines[0][0], 1) == 2);
                assert(run_end(pre_lines, pre_lines[0][0], 0) == 2);
                assert(n == 2);
                assert(views(letter_group.inp@)[0] == letter_group.inp@[0]@);
                assert(views(letter_group.inp@)[1] == letter_group.inp@[1]@);
                assert(letter_group.inp@[0]@ == ws[0].skip(1));
                assert(letter_group.inp@[1]@ == ws[1].skip(1));
                assert(lex_lt(ws[0], ws[1]));
                lemma_lex_lt_skip(ws[0], ws[1]);
                assert(lex_lt(letter_group.inp@[0]@, letter_group.inp@[1]@));
                assert(no_parens(ws[0].skip(1)) && no_parens(ws[1].skip(1))) by {
                    assert(forall|j: int|
                        0 <= j < ws[0].skip(1).len() ==> #[trigger] ws[0].skip(1)[j] == ws[0][j
                            + 1]);
                    assert(forall|j: int|
                        0 <= j < ws[1].skip(1).len() ==> #[trigger] ws[1].skip(1)[j] == ws[1][j
                            + 1]);
                }
                assert(2 * common_prefix_len(letter_group.inp@[0]@, letter_group.inp@[1]@) + 4
                    <= letter_group.lim);
            }
        }
        let sub_tree = treeify(letter_group);
        match sub_tree {
            None => {
                proof {
                    if distinct_heads(ws) {
                        assert(letter_group.inp@.len() == 1);
                        assert(false);
                    }
                    if h3 {
                        assert(false);
                    }
                    assert(ws.len() > 0);
                    assert forall|ws2: Seq<Seq<u8>>| #[trigger] normalizes_to(
                        lines0,
                        ws2,
                    ) implies ws2 == ws by {
                        crate::normalize::lemma_sorted_set_unique(ws2, ws);
                    }
                }
                return None;
            },
            Some(mut st) => {
                let ghost st0 = st@;
                let ghost pre_tree = word_tree@;
                word_tree.append(&mut st);
                proof {
                    assert(word_tree@.last() == st0[st0.len() - 1]);
                    if words_no_parens(ws) {
                        assert(crate::balance::vecs_no_parens(letter_group.inp@)) by {
                            assert forall|i: int|
                                0 <= i < letter_group.inp@.len() implies no_parens(
                                (#[trigger] letter_group.inp@[i])@,
                            ) by {
                                assert(views(letter_group.inp@)[i] == letter_group.inp@[i]@);
                                assert(letter_group.inp@[i]@ == pre_lines[i].skip(1));
                                assert(pre_lines[i] == ws[k + i]);
                                assert(no_parens(ws[k + i]));
                                assert(forall|j: int|
                                    0 <= j < pre_lines[i].skip(1).len()
                                        ==> #[trigger] pre_lines[i].skip(1)[j] == pre_lines[i][j
                                        + 1]);
                            }
                        }
                        assert(letter_group.l_last == pre_lines[0][0]);
                        assert(no_parens(ws[k as int]));
                        assert(letter_group.l_last != 40 && letter_group.l_last != 41);
                        assert(paren_excess(st0) == 0);
                        lemma_excess_concat(pre_tree, st0);
                    }
                    if distinct_heads(ws) {
                        assert(letter_group.inp@.len() == 1);
                        assert(views(letter_group.inp@)[0] == letter_group.inp@[0]@);
                        assert(letter_group.inp@[0]@ == pre_lines[0].skip(1));
                        assert(st0 == seq![letter_group.l_last] + pre_lines[0].skip(1) + seq![
                            124u8,
                        ]);
                        assert(seq![pre_lines[0][0]] + pre_lines[0].skip(1) =~= pre_lines[0]);
                        assert(st0 == ws[k] + seq![124u8]);
                        assert(ws.take(k + n) =~= ws.take(k).push(ws[k]));
                        lemma_join_frag_push(ws.take(k), ws[k]);
                        assert(word_tree@ =~= join_frag(ws.take(k + n)));
                    }
                    if h3 {
                        assert(st0 == frag2);
                        assert(pre_tree.len() == 0);
                        assert(word_tree@ =~= frag2);
                    }
                }
            },
        }
        proof {
            assert(views(wlist@) == pre_lines.skip(n));
            assert(wlist@.len() == views(wlist@).len());
            assert(wlist@.len() == pre_lines.len() - n);
            assert forall|i: int| 0 <= i < wlist@.len() implies #[trigger] wlist@[i]@ == ws[k + n
                + i] by {
                assert(views(wlist@)[i] == wlist@[i]@);
                assert(views(wlist@)[i] == pre_lines.skip(n)[i]);
                assert(pre_lines.skip(n)[i] == pre_lines[n + i]);
                assert(pre_lines[n + i] == ws[k + (n + i)]);
            }
            k = k + n;
        }
    }
    proof {
        assert(k == ws.len());
        if distinct_heads(ws) {
            assert(ws.take(k) =~= ws);
        }
    }
    let ghost tree0 = word_tree@;
    word_tree.pop();
    proof {
        if ws.len() > 0 && distinct_heads(ws) {
            assert(join_frag(ws).len() > 0);
            assert(word_tree@ == join_frag(ws).drop_last());
            assert(word_tree@ == join_words(ws));
        }
        if words_no_parens(ws) && tree0.len() > 0 {
            assert(paren_excess(tree0) == paren_excess(tree0.drop_last()) + paren_delta(
                tree0.last(),
            ));
            assert(word_tree@ =~= tree0.drop_last());
            assert(paren_excess(word_tree@) == 0);
        }
        if h3 {
            assert(tree0 == frag2);
            assert(frag2.len() >= 1 && frag2.last() == 124u8) by {
                let s1 = ws[0].skip(1);
                let s2 = ws[1].skip(1);
                let m = common_prefix_len(s1, s2);
                if m == s1.len() && s2.skip(m).len() == 1 {
                    assert(frag2 == seq![ws[0][0]] + s1 + s2.skip(m) + seq![63u8, 124u8]);
                } else if m == s1.len() {
                    assert(frag2 == seq![ws[0][0]] + s1 + seq![40u8] + s2.skip(m) + seq![
                        41u8,
                        63u8,
                        124u8,
                    ]);
                } else {
                    assert(frag2 == seq![ws[0][0]] + s1.take(m) + seq![40u8] + s1.skip(m) + seq![
                        124u8,
                    ] + s2.skip(m) + seq![41u8, 124u8]);
                }
            }
            assert(word_tree@ =~= frag2.drop_last());
        }
    }
    let ghost pre_post = word_tree@;
    post_process(&mut word_tree, diacritics, noncapture);
    proof {
        if words_no_parens(ws) {
            crate::tidy::lemma_excess_tidy(pre_post, diacritics, noncapture);
        }
        if ws.len() > 0 {
            assert(pre_post.len() >= 1);
            crate::tidy::lemma_tidy_nonempty(pre_post, diacritics, noncapture);
        }
        if ws.len() > 0 && distinct_heads(ws) && plain_literal_words(ws) {
            assert(words_plain(ws));
            lemma_plain_join_pattern(ws, diacritics, noncapture);
            assert(word_tree@ == join_words(ws));
            assert forall|w: Seq<u8>| alt_matches(word_tree@, w) <==> ws.contains(w) by {
                lemma_join_language(ws, w);
            }
        }
        if h3 && plain_literal_words(ws) && !diacritics && !noncapture {
            assert(word_tree@ == tidy_spec(frag2.drop_last(), false, false));
            assert(lex_lt(ws[0].skip(1), ws[1].skip(1))) by {
                assert(lex_lt(ws[0], ws[1]));
                lemma_lex_lt_skip(ws[0], ws[1]);
            }
            assert(plain_literal_word(seq![ws[0][0]])) by {
                assert(seq![ws[0][0]][0] == ws[0][0]);
            }
            assert(plain_literal_word(ws[0].skip(1)) && plain_literal_word(ws[1].skip(1))) by {
                assert(forall|j: int|
                    0 <= j < ws[0].skip(1).len() ==> #[trigger] ws[0].skip(1)[j] == ws[0][j + 1]);
                assert(forall|j: int|
                    0 <= j < ws[1].skip(1).len() ==> #[trigger] ws[1].skip(1)[j] == ws[1][j + 1]);
            }
            assert forall|w: Seq<u8>| alt_matches(word_tree@, w) <==> (w == ws[0] || w
                == ws[1]) by {
                lemma_two_word_language(ws[0][0], ws[0].skip(1), ws[1].skip(1), w);
                assert(seq![ws[0][0]] + ws[0].skip(1) =~= ws[0]);
                assert(seq![ws[0][0]] + ws[1].skip(1) =~= ws[1]);
            }
        }
        if ws.len() == 0 {
            assert(word_tree@ =~= tidy_spec(Seq::<u8>::empty(), diacritics, noncapture)) by {
                assert(word_tree@ == tidy_spec(Seq::<u8>::empty(), diacritics, noncapture));
            }
            assert(crate::tidy::first_pat(Seq::<u8>::empty()) == 0);
            assert(crate::tidy::collapse(Seq::<u8>::empty()) == Seq::<u8>::empty());
            assert(crate::tidy::wrap_diac_seq(Seq::<u8>::empty()) == Seq::<u8>::empty());
            assert(crate::tidy::mark_groups_seq(Seq::<u8>::empty()) == Seq::<u8>::empty());
            assert(crate::codec::expand(Seq::<u8>::empty()) == Seq::<u8>::empty());
            assert(word_tree@.len() == 0);
        }
        assert(forall|ws2: Seq<Seq<u8>>|
            #[trigger] normalizes_to(lines0, ws2) ==> ws2 == ws) by {
            assert forall|ws2: Seq<Seq<u8>>| #[trigger] normalizes_to(lines0, ws2) implies ws2
                == ws by {
                crate::normalize::lemma_sorted_set_unique(ws2, ws);
            }
        }
    }
    Some(word_tree)
}

} // verus!
