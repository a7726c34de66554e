//! The working group of the flattening engine, and the prefix partitioner.
//!
//! A group is the maximal leading run of sorted words that share a first
//! byte, with that byte stripped; the engine consumes it in one pass. The
//! group carries the output buffer under construction, a stack of open
//! branch counts standing in for recursion depth, a parallel stack of
//! optional-suffix debts, and a step budget guarding termination.

use vstd::prelude::*;

use crate::normalize::views;

verus! {

pub struct LSubGroup {
    /// The byte shared at the active depth; 0 is the exhausted sentinel.
    pub l_last: u8,
    /// The remaining suffixes, one per surviving word, in traversal order.
    pub inp: Vec<Vec<u8>>,
    /// The output fragment being built.
    pub outp: Vec<u8>,
    /// How many alternation branches remain open at each parenthesis depth.
    pub counts: Vec<usize>,
    /// Consecutive suffixes from the front that matched `l_last` this pass.
    pub n_match: usize,
    /// Index of the next suffix to compare.
    pub i_next: usize,
    /// Remaining step budget; exhaustion aborts the group.
    pub lim: u16,
    /// Depths whose eventual close-paren owes a trailing `?`.
    pub eph: Vec<usize>,
}

impl LSubGroup {
    /// One branch fewer remains open at every depth.
    pub fn decount(&mut self)
        requires
            forall|k: int| 0 <= k < old(self).counts@.len() ==> old(self).counts@[k] >= 1,
        ensures
            final(self).counts@.len() == old(self).counts@.len(),
            forall|k: int|
                0 <= k < old(self).counts@.len() ==> #[trigger] final(self).counts@[k] + 1 == old(
                    self,
                ).counts@[k],
            final(self).l_last == old(self).l_last,
            final(self).inp == old(self).inp,
            final(self).outp == old(self).outp,
            final(self).n_match == old(self).n_match,
            final(self).i_next == old(self).i_next,
            final(self).lim == old(self).lim,
            final(self).eph == old(self).eph,
    {
        let mut k: usize = 0;
        while k < self.counts.len()
            invariant
                k <= self.counts@.len(),
                self.counts@.len() == old(self).counts@.len(),
                forall|j: int| 0 <= j < self.counts@.len() ==> old(self).counts@[j] >= 1,
                forall|j: int| 0 <= j < k ==> #[trigger] self.counts@[j] + 1 == old(self).counts@[j],
                forall|j: int|
                    k <= j < self.counts@.len() ==> #[trigger] self.counts@[j] == old(
                        self,
                    ).counts@[j],
                self.l_last == old(self).l_last,
                self.inp == old(self).inp,
                self.outp == old(self).outp,
                self.n_match == old(self).n_match,
                self.i_next == old(self).i_next,
                self.lim == old(self).lim,
                self.eph == old(self).eph,
            decreases self.counts@.len() - k,
        {
            let c = self.counts[k];
            self.counts[k] = c - 1;
            k = k + 1;
        }
    }

    /// Every nonzero optional debt moves one depth closer to its close.
    pub fn deceph(&mut self)
        ensures
            final(self).eph@.len() == old(self).eph@.len(),
            forall|k: int|
                0 <= k < old(self).eph@.len() ==> #[trigger] final(self).eph@[k] == (if old(
                    self,
                ).eph@[k] == 0 {
                    0usize
                } else {
                    (old(self).eph@[k] - 1) as usize
                }),
            final(self).l_last == old(self).l_last,
            final(self).inp == old(self).inp,
            final(self).outp == old(self).outp,
            final(self).counts == old(self).counts,
            final(self).n_match == old(self).n_match,
            final(self).i_next == old(self).i_next,
            final(self).lim == old(self).lim,
    {
        let mut k: usize = 0;
        while k < self.eph.len()
            invariant
                k <= self.eph@.len(),
                self.eph@.len() == old(self).eph@.len(),
                forall|j: int|
                    0 <= j < k ==> #[trigger] self.eph@[j] == (if old(self).eph@[j] == 0 {
                        0usize
                    } else {
                        (old(self).eph@[j] - 1) as usize
                    }),
                forall|j: int|
                    k <= j < self.eph@.len() ==> #[trigger] self.eph@[j] == old(self).eph@[j],
                self.l_last == old(self).l_last,
                self.inp == old(self).inp,
                self.outp == old(self).outp,
                self.counts == old(self).counts,
                self.n_match == old(self).n_match,
                self.i_next == old(self).i_next,
                self.lim == old(self).lim,
            decreases self.eph@.len() - k,
        {
            let c = self.eph[k];
            if c != 0 {
                self.eph[k] = c - 1;
            }
            k = k + 1;
        }
    }

    /// Resets the match run and the comparison cursor.
    pub fn zero(&mut self)
        ensures
            final(self).n_match == 0,
            final(self).i_next == 0,
            final(self).l_last == old(self).l_last,
            final(self).inp == old(self).inp,
            final(self).outp == old(self).outp,
            final(self).counts == old(self).counts,
            final(self).lim == old(self).lim,
            final(self).eph == old(self).eph,
    {
        self.n_match = 0;
        self.i_next = 0;
    }

    /// Advances the comparison cursor and the match run together.
    pub fn incr(&mut self)
        requires
            old(self).i_next < usize::MAX,
            old(self).n_match < usize::MAX,
        ensures
            final(self).i_next == old(self).i_next + 1,
            final(self).n_match == old(self).n_match + 1,
            final(self).l_last == old(self).l_last,
            final(self).inp == old(self).inp,
            final(self).outp == old(self).outp,
            final(self).counts == old(self).counts,
            final(self).lim == old(self).lim,
            final(self).eph == old(self).eph,
    {
        self.i_next = self.i_next + 1;
        self.n_match = self.n_match + 1;
    }

    /// Opens a nested alternation for the run of suffixes that matched: the
    /// matched letter and a fresh `(` go to the output, and the run count is
    /// pushed as a new depth — unless it equals the current depth's count
    /// right after a `(`, in which case the redundant singleton group is
    /// merged instead of nested.
    pub fn consecutive_match(&mut self)
        ensures
            ({
                let before = *old(self);
                let after = *final(self);
                let merge = before.counts@.len() > 0 && before.counts@.last() == before.n_match
                    && before.outp@.len() > 0 && before.outp@.last() == 40u8;
                if merge {
                    after.outp@ == before.outp@.drop_last().push(before.l_last).push(40u8)
                        && after.counts == before.counts
                } else {
                    after.outp@ == before.outp@.push(before.l_last).push(40u8) && after.counts@
                        == before.counts@.push(before.n_match)
                }
            }),
            final(self).n_match == 0,
            final(self).i_next == 0,
            final(self).l_last == old(self).l_last,
            final(self).inp == old(self).inp,
            final(self).lim == old(self).lim,
            final(self).eph == old(self).eph,
    {
        let merge = self.counts.len() > 0 && self.counts[self.counts.len() - 1] == self.n_match
            && self.outp.len() > 0 && self.outp[self.outp.len() - 1] == 40;
        if merge {
            self.outp.pop();
        } else {
            self.counts.push(self.n_match);
        }
        self.outp.push(self.l_last);
        self.outp.push(40);
        self.zero();
        proof {
            if old(self).outp@.len() > 0 {
                assert(old(self).outp@.subrange(0, old(self).outp@.len() - 1) =~= old(
                    self,
                ).outp@.drop_last());
            }
        }
    }
}

/// The length of the maximal leading run of words of `s`, from index `i`
/// on, whose first byte is `b`.
pub open spec fn run_end(s: Seq<Seq<u8>>, b: u8, i: int) -> int
    decreases s.len() - i,
{
    if i < s.len() && s[i].len() > 0 && s[i][0] == b {
        run_end(s, b, i + 1)
    } else {
        i
    }
}

/// Where the leading same-first-byte run of a word list ends.
pub open spec fn head_run_len(s: Seq<Seq<u8>>) -> int {
    run_end(s, s[0][0], 0)
}

pub proof fn lemma_run_end_bounds(s: Seq<Seq<u8>>, b: u8, i: int)
    requires
        0 <= i <= s.len(),
    ensures
        i <= run_end(s, b, i) <= s.len(),
    decreases s.len() - i,
{
    if i < s.len() && s[i].len() > 0 && s[i][0] == b {
        lemma_run_end_bounds(s, b, i + 1);
    }
}

/// Removes and returns the maximal leading run of words sharing the first
/// byte, that byte stripped from each, packaged as a fresh group. Afterwards
/// the list is either empty or starts with a different first byte.
pub fn extract_sub_group(master_list: &mut Vec<Vec<u8>>) -> (g: LSubGroup)
    requires
        old(master_list)@.len() > 0,
        forall|i: int| 0 <= i < old(master_list)@.len() ==> views(old(master_list)@)[i].len() > 0,
    ensures
        ({
            let lines = views(old(master_list)@);
            let n = head_run_len(lines);
            &&& 1 <= n <= lines.len()
            &&& g.l_last == lines[0][0]
            &&& g.inp@.len() == n
            &&& forall|i: int| 0 <= i < n ==> views(g.inp@)[i] == lines[i].skip(1)
            &&& views(final(master_list)@) == lines.skip(n)
            &&& g.outp@ == seq![lines[0][0], 40u8]
            &&& g.counts@.len() == 1
            &&& g.counts@[0] == n
            &&& g.n_match == 0
            &&& g.i_next == 0
            &&& g.lim == 1024
            &&& g.eph@.len() == 0
        }),
{
    let ghost lines = views(old(master_list)@);
    proof {
        assert(views(master_list@)[0] == master_list@[0]@);
    }
    let first_letter: u8 = master_list[0][0];
    let mut in_vec: Vec<Vec<u8>> = Vec::new();
    let mut out_vec: Vec<u8> = Vec::new();
    out_vec.push(first_letter);
    out_vec.push(40);
    proof {
        assert(out_vec@ =~= seq![first_letter, 40u8]);
        assert(lines.skip(0) =~= lines);
    }
    let ghost k: int = 0;
    loop
        invariant
            0 <= k <= lines.len(),
            in_vec@.len() == k,
            master_list@.len() == lines.len() - k,
            forall|i: int|
                0 <= i < master_list@.len() ==> #[trigger] master_list@[i]@ == lines[k + i],
            forall|i: int| 0 <= i < lines.len() ==> #[trigger] lines[i].len() > 0,
            forall|i: int| 0 <= i < k ==> #[trigger] in_vec@[i]@ == lines[i].skip(1),
            run_end(lines, first_letter, 0) == run_end(lines, first_letter, k),
            out_vec@ == seq![first_letter, 40u8],
            lines.len() > 0 && first_letter == lines[0][0],
        ensures
            0 <= k <= lines.len(),
            in_vec@.len() == k,
            master_list@.len() == lines.len() - k,
            forall|i: int|
                0 <= i < master_list@.len() ==> #[trigger] master_list@[i]@ == lines[k + i],
            forall|i: int| 0 <= i < k ==> #[trigger] in_vec@[i]@ == lines[i].skip(1),
            run_end(lines, first_letter, 0) == run_end(lines, first_letter, k),
            out_vec@ == seq![first_letter, 40u8],
            k == lines.len() || lines[k][0] != first_letter,
        decreases lines.len() - k,
    {
        if master_list.is_empty() {
            break ;
        }
        proof {
            assert(master_list@[0]@ == lines[k]);
            assert(lines[k].len() > 0);
        }
        let head0: u8 = master_list[0][0];
        if head0 != first_letter {
            break ;
        }
        proof {
            assert(run_end(lines, first_letter, k) == run_end(lines, first_letter, k + 1));
        }
        let ghost pre_list = master_list@;
        let mut temp: Vec<u8> = master_list.remove(0);
        proof {
            pre_list.remove_ensures(0);
        }
        let ghost pre_word = temp@;
        temp.remove(0);
        proof {
            pre_word.remove_ensures(0);
            assert(temp@ =~= lines[k].skip(1));
        }
        in_vec.push(temp);
        proof {
            k = k + 1;
        }
    }
    proof {
        assert(run_end(lines, first_letter, k) == k);
        assert(head_run_len(lines) == k);
        assert(run_end(lines, first_letter, 0) == run_end(lines, first_letter, 1));
        assert(k >= 1);
        assert(views(master_list@) =~= lines.skip(k)) by {
            assert forall|i: int| 0 <= i < master_list@.len() implies views(master_list@)[i]
                == lines.skip(k)[i] by {
                assert(lines.skip(k)[i] == lines[k + i]);
                assert(views(master_list@)[i] == master_list@[i]@);
            }
        }
        assert(forall|i: int| 0 <= i < k ==> views(in_vec@)[i] == #[trigger] lines[i].skip(1)) by {
            assert(forall|i: int| 0 <= i < k ==> views(in_vec@)[i] == #[trigger] in_vec@[i]@);
        }
    }
    let n_words: usize = in_vec.len();
    let mut counts_vec: Vec<usize> = Vec::new();
    counts_vec.push(n_words);
    let sub_group = LSubGroup {
        l_last: first_letter,
        inp: in_vec,
        outp: out_vec,
        counts: counts_vec,
        n_match: 0,
        i_next: 0,
        lim: 1024,
        eph: Vec::new(),
    };
    proof {
        assert(sub_group.counts@ =~= seq![n_words]);
    }
    sub_group
}

} // verus!
