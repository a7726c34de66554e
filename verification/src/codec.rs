//! Reversible single-byte folding of accented letters.
//!
//! The normalizer folds the two-byte UTF-8 encodings of the Latin-1 range
//! into single bytes so that accented letters take part in byte-wise
//! comparison: a pair `0xC2, t` (with `t` in `161..192`) loses its lead byte,
//! and a pair `0xC3, t` (with `t` in `128..192`) becomes the single byte
//! `t + 64`. The tidier undoes the fold at the very end. Both directions are
//! specified here, together with the proof that they round-trip.

use vstd::prelude::*;

verus! {

/// Drop the lead byte of every `0xC2, t` pair with `t` in `161..192`.
pub open spec fn fold_c2(s: Seq<u8>) -> Seq<u8>
    decreases s.len(),
{
    if s.len() >= 2 && s[0] == 194 && 161 <= s[1] && s[1] < 192 {
        seq![s[1]] + fold_c2(s.skip(2))
    } else if s.len() >= 1 {
        seq![s[0]] + fold_c2(s.skip(1))
    } else {
        Seq::empty()
    }
}

/// Replace every `0xC3, t` pair with `t` in `128..192` by the byte `t + 64`.
pub open spec fn fold_c3(s: Seq<u8>) -> Seq<u8>
    decreases s.len(),
{
    if s.len() >= 2 && s[0] == 195 && 128 <= s[1] && s[1] < 192 {
        seq![(s[1] + 64) as u8] + fold_c3(s.skip(2))
    } else if s.len() >= 1 {
        seq![s[0]] + fold_c3(s.skip(1))
    } else {
        Seq::empty()
    }
}

/// Both folds, in the order the normalizer applies them.
pub open spec fn fold_accents(s: Seq<u8>) -> Seq<u8> {
    fold_c3(fold_c2(s))
}

/// Re-expand every folded byte into its two-byte UTF-8 encoding: bytes at or
/// above 192 become `0xC3, b - 64`, bytes in `161..192` regain a `0xC2` lead.
pub open spec fn expand(s: Seq<u8>) -> Seq<u8>
    decreases s.len(),
{
    if s.len() == 0 {
        Seq::empty()
    } else if s[0] >= 192 {
        seq![195u8, (s[0] - 64) as u8] + expand(s.skip(1))
    } else if 161 <= s[0] && s[0] < 192 {
        seq![194u8, s[0]] + expand(s.skip(1))
    } else {
        seq![s[0]] + expand(s.skip(1))
    }
}

/// The byte sequence consists of plain bytes below 161 and complete
/// two-byte encodings from the supported accent ranges.
pub open spec fn well_encoded(s: Seq<u8>) -> bool
    decreases s.len(),
{
    if s.len() == 0 {
        true
    } else if s[0] == 194 {
        s.len() >= 2 && 161 <= s[1] && s[1] < 192 && well_encoded(s.skip(2))
    } else if s[0] == 195 {
        s.len() >= 2 && 128 <= s[1] && s[1] < 192 && well_encoded(s.skip(2))
    } else {
        s[0] < 161 && well_encoded(s.skip(1))
    }
}

/// Folding a well-encoded byte sequence and re-expanding it yields the
/// original bytes; in particular every letter of the supported accent table
/// survives the round trip unchanged.
pub proof fn lemma_accent_round_trip(s: Seq<u8>)
    requires
        well_encoded(s),
    ensures
        expand(fold_accents(s)) == s,
    decreases s.len(),
{
    if s.len() == 0 {
        assert(expand(fold_accents(s)) =~= s);
    } else if s[0] == 194 {
        let rest = s.skip(2);
        lemma_accent_round_trip(rest);
        let t = s[1];
        let f2 = seq![t] + fold_c2(rest);
        assert(fold_c2(s) == f2);
        assert(f2.skip(1) =~= fold_c2(rest));
        assert(fold_c3(f2) == seq![t] + fold_c3(fold_c2(rest)));
        let f3 = seq![t] + fold_accents(rest);
        assert(f3.skip(1) =~= fold_accents(rest));
        assert(expand(f3) == seq![194u8, t] + expand(fold_accents(rest)));
        assert(seq![194u8, t] + rest =~= s);
    } else if s[0] == 195 {
        let rest = s.skip(2);
        lemma_accent_round_trip(rest);
        let t = s[1];
        let g = (t + 64) as u8;
        assert(s.len() >= 2 && !(s[0] == 194));
        assert(s.skip(1).skip(1) =~= rest);
        let f2 = fold_c2(s);
        assert(f2 == seq![s[0]] + fold_c2(s.skip(1)));
        assert(fold_c2(s.skip(1)) == seq![t] + fold_c2(rest)) by {
            assert(s.skip(1)[0] == t);
            assert(t != 194);
            if s.skip(1).len() >= 2 {
                assert(s.skip(1).skip(1) =~= rest);
            }
        }
        assert(f2 =~= seq![195u8, t] + fold_c2(rest));
        assert(f2.skip(2) =~= fold_c2(rest));
        assert(fold_c3(f2) == seq![g] + fold_accents(rest));
        let f3 = seq![g] + fold_accents(rest);
        assert(f3.skip(1) =~= fold_accents(rest));
        assert(g >= 192);
        assert(expand(f3) == seq![195u8, (g - 64) as u8] + expand(fold_accents(rest)));
        assert(seq![195u8, t] + rest =~= s);
    } else {
        let rest = s.skip(1);
        lemma_accent_round_trip(rest);
        let b = s[0];
        let f2 = seq![b] + fold_c2(rest);
        assert(fold_c2(s) == f2);
        assert(f2.skip(1) =~= fold_c2(rest));
        assert(b != 195);
        assert(fold_c3(f2) == seq![b] + fold_accents(rest));
        let f3 = seq![b] + fold_accents(rest);
        assert(f3.skip(1) =~= fold_accents(rest));
        assert(expand(f3) == seq![b] + expand(fold_accents(rest)));
        assert(seq![b] + rest =~= s);
    }
}

/// Re-expansion never shortens the buffer.
pub proof fn lemma_expand_len(s: Seq<u8>)
    ensures
        expand(s).len() >= s.len(),
    decreases s.len(),
{
    if s.len() > 0 {
        lemma_expand_len(s.skip(1));
    }
}

/// Re-expansion leaves a buffer of bytes below the folded ranges unchanged.
pub proof fn lemma_expand_identity(s: Seq<u8>)
    requires
        forall|i: int| 0 <= i < s.len() ==> s[i] < 161,
    ensures
        expand(s) == s,
    decreases s.len(),
{
    if s.len() > 0 {
        assert(forall|i: int| 0 <= i < s.skip(1).len() ==> s.skip(1)[i] == s[i + 1]);
        lemma_expand_identity(s.skip(1));
        assert(seq![s[0]] + s.skip(1) =~= s);
    }
}

/// A single accented letter of either supported range round-trips through
/// fold and re-expansion.
pub proof fn lemma_letter_round_trip(lead: u8, trail: u8)
    requires
        (lead == 194 && 161 <= trail && trail < 192) || (lead == 195 && 128 <= trail && trail
            < 192),
    ensures
        expand(fold_accents(seq![lead, trail])) == seq![lead, trail],
{
    let s = seq![lead, trail];
    assert(s.skip(2) =~= Seq::<u8>::empty());
    assert(well_encoded(Seq::<u8>::empty()));
    assert(well_encoded(s));
    lemma_accent_round_trip(s);
}

/// Applies `fold_c2` to a byte vector.
pub fn fold_c2_bytes(x: &Vec<u8>) -> (r: Vec<u8>)
    ensures
        r@ == fold_c2(x@),
{
    let mut out: Vec<u8> = Vec::new();
    let mut i: usize = 0;
    proof {
        assert(x@.skip(0) =~= x@);
    }
    while i < x.len()
        invariant
            i <= x.len(),
            fold_c2(x@) == out@ + fold_c2(x@.skip(i as int)),
        decreases x.len() - i,
    {
        let ghost pre = out@;
        let ghost suf = x@.skip(i as int);
        if i + 1 < x.len() && x[i] == 194 && 161 <= x[i + 1] && x[i + 1] < 192 {
            out.push(x[i + 1]);
            proof {
                assert(suf[0] == x@[i as int] && suf[1] == x@[i as int + 1]);
                assert(suf.skip(2) =~= x@.skip(i as int + 2));
                assert(pre + (seq![suf[1]] + fold_c2(suf.skip(2))) =~= out@ + fold_c2(
                    x@.skip(i as int + 2),
                ));
            }
            i = i + 2;
        } else {
            out.push(x[i]);
            proof {
                assert(suf[0] == x@[i as int]);
                if suf.len() >= 2 && suf[0] == 194 && 161 <= suf[1] && suf[1] < 192 {
                    assert(i as int + 1 < x@.len());
                    assert(false);
                }
                assert(suf.skip(1) =~= x@.skip(i as int + 1));
                assert(pre + (seq![suf[0]] + fold_c2(suf.skip(1))) =~= out@ + fold_c2(
                    x@.skip(i as int + 1),
                ));
            }
            i = i + 1;
        }
    }
    proof {
        assert(x@.skip(i as int).len() == 0);
        assert(out@ + fold_c2(x@.skip(i as int)) =~= out@);
    }
    out
}

/// Applies `fold_c3` to a byte vector.
pub fn fold_c3_bytes(x: &Vec<u8>) -> (r: Vec<u8>)
    ensures
        r@ == fold_c3(x@),
{
    let mut out: Vec<u8> = Vec::new();
    let mut i: usize = 0;
    proof {
        assert(x@.skip(0) =~= x@);
    }
    while i < x.len()
        invariant
            i <= x.len(),
            fold_c3(x@) == out@ + fold_c3(x@.skip(i as int)),
        decreases x.len() - i,
    {
        let ghost pre = out@;
        let ghost suf = x@.skip(i as int);
        if i + 1 < x.len() && x[i] == 195 && 128 <= x[i + 1] && x[i + 1] < 192 {
            out.push(x[i + 1] + 64);
            proof {
                assert(suf[0] == x@[i as int] && suf[1] == x@[i as int + 1]);
                assert(suf.skip(2) =~= x@.skip(i as int + 2));
                assert(pre + (seq![(suf[1] + 64) as u8] + fold_c3(suf.skip(2))) =~= out@
                    + fold_c3(x@.skip(i as int + 2)));
            }
            i = i + 2;
        } else {
            out.push(x[i]);
            proof {
                assert(suf[0] == x@[i as int]);
                if suf.len() >= 2 && suf[0] == 195 && 128 <= suf[1] && suf[1] < 192 {
                    assert(i as int + 1 < x@.len());
                    assert(false);
                }
                assert(suf.skip(1) =~= x@.skip(i as int + 1));
                assert(pre + (seq![suf[0]] + fold_c3(suf.skip(1))) =~= out@ + fold_c3(
                    x@.skip(i as int + 1),
                ));
            }
            i = i + 1;
        }
    }
    proof {
        assert(x@.skip(i as int).len() == 0);
        assert(out@ + fold_c3(x@.skip(i as int)) =~= out@);
    }
    out
}

/// Applies `expand` to a byte vector.
pub fn expand_bytes(x: &Vec<u8>) -> (r: Vec<u8>)
    ensures
        r@ == expand(x@),
{
    let mut out: Vec<u8> = Vec::new();
    let mut i: usize = 0;
    proof {
        assert(x@.skip(0) =~= x@);
    }
    while i < x.len()
        invariant
            i <= x.len(),
            expand(x@) == out@ + expand(x@.skip(i as int)),
        decreases x.len() - i,
    {
        let ghost pre = out@;
        let ghost suf = x@.skip(i as int);
        let b = x[i];
        proof {
            assert(suf[0] == x@[i as int]);
            assert(suf.skip(1) =~= x@.skip(i as int + 1));
        }
        if b >= 192 {
            out.push(195);
            out.push(b - 64);
            proof {
                assert(pre + (seq![195u8, (suf[0] - 64) as u8] + expand(suf.skip(1))) =~= out@
                    + expand(x@.skip(i as int + 1)));
            }
        } else if b >= 161 {
            out.push(194);
            out.push(b);
            proof {
                assert(pre + (seq![194u8, suf[0]] + expand(suf.skip(1))) =~= out@ + expand(
                    x@.skip(i as int + 1),
                ));
            }
        } else {
            out.push(b);
            proof {
                assert(pre + (seq![suf[0]] + expand(suf.skip(1))) =~= out@ + expand(
                    x@.skip(i as int + 1),
                ));
            }
        }
        i = i + 1;
    }
    proof {
        assert(x@.skip(i as int).len() == 0);
        assert(out@ + expand(x@.skip(i as int)) =~= out@);
    }
    out
}

} // verus!
