//! The randomness analyzer: a validated bit sequence and its read-only
//! statistical analyses.

use vstd::prelude::*;

use crate::Ratio;
use crate::bitspec::{
    bit_char, bits_of, valid_bits, one_positions, gaps_of, bursts_of, bursts_from, BurstModel,
    lemma_one_positions_facts, lemma_one_positions_take_step, lemma_gaps_facts,
    lemma_gap_prefix_sum_bound,
};
use crate::counting::{
    sum_of, sum_sq_of, lemma_sum_sq_le_sq_of_sum, to_ints, count_eq, count_ge, count_lt, max_of,
    abs_diff, lemma_count_lt_step, lemma_count_lt_zero, lemma_count_lt_all,
    lemma_count_eq_above_max, lemma_count_eq_negative, lemma_max_of_bounds,
    lemma_count_ge_zero_is_len, lemma_count_ge_antitone,
};

verus! {

/// The burst records as their mathematical (weight, length) pairs.
pub open spec fn bursts_view(v: Seq<Burst>) -> Seq<BurstModel> {
    Seq::new(v.len(), |i: int| (v[i].weight as int, v[i].length as int))
}

/// Sum of the numerators of a density mapping's entries.
pub open spec fn entries_total(s: Seq<(usize, Ratio)>) -> int
    decreases s.len(),
{
    if s.len() == 0 {
        0
    } else {
        entries_total(s.drop_last()) + s.last().1.num
    }
}

/// Occurrences of `k` in `v`.
fn count_eq_in(v: &Vec<usize>, k: usize) -> (c: usize)
    ensures
        c as int == count_eq(to_ints(v@), k as int),
        c <= v@.len(),
{
    let ghost s = to_ints(v@);
    let mut c: usize = 0;
    let mut j: usize = 0;
    proof {
        assert(s.take(0) =~= Seq::<int>::empty());
    }
    while j < v.len()
        invariant
            j <= v@.len(),
            s == to_ints(v@),
            c as int == count_eq(s.take(j as int), k as int),
            c <= j,
        decreases v@.len() - j,
    {
        proof {
            assert(s.take(j + 1).drop_last() =~= s.take(j as int));
            assert(s.take(j + 1).last() == s[j as int]);
        }
        if v[j] == k {
            c = c + 1;
        }
        j = j + 1;
    }
    proof {
        assert(s.take(v@.len() as int) =~= s);
    }
    c
}

/// Elements of `v` that are `>= k`.
fn count_ge_in(v: &Vec<usize>, k: usize) -> (c: usize)
    ensures
        c as int == count_ge(to_ints(v@), k as int),
        c <= v@.len(),
{
    let ghost s = to_ints(v@);
    let mut c: usize = 0;
    let mut j: usize = 0;
    proof {
        assert(s.take(0) =~= Seq::<int>::empty());
    }
    while j < v.len()
        invariant
            j <= v@.len(),
            s == to_ints(v@),
            c as int == count_ge(s.take(j as int), k as int),
            c <= j,
        decreases v@.len() - j,
    {
        proof {
            assert(s.take(j + 1).drop_last() =~= s.take(j as int));
            assert(s.take(j + 1).last() == s[j as int]);
        }
        if v[j] >= k {
            c = c + 1;
        }
        j = j + 1;
    }
    proof {
        assert(s.take(v@.len() as int) =~= s);
    }
    c
}

/// Maximum element of a non-empty `v`.
fn max_in(v: &Vec<usize>) -> (m: usize)
    requires
        v@.len() > 0,
    ensures
        m as int == max_of(to_ints(v@)),
{
    let ghost s = to_ints(v@);
    let mut m: usize = v[0];
    let mut j: usize = 1;
    proof {
        assert(s.take(1)[0] == s[0]);
    }
    while j < v.len()
        invariant
            1 <= j <= v@.len(),
            s == to_ints(v@),
            m as int == max_of(s.take(j as int)),
        decreases v@.len() - j,
    {
        proof {
            assert(s.take(j + 1).drop_last() =~= s.take(j as int));
            assert(s.take(j + 1).last() == s[j as int]);
        }
        if v[j] > m {
            m = v[j];
        }
        j = j + 1;
    }
    proof {
        assert(s.take(v@.len() as int) =~= s);
    }
    m
}

/// Why a bit sequence could not be constructed from a string.
#[derive(Clone, Copy, Debug, PartialEq, Eq, Structural)]
pub enum BitSequenceError {
    /// The input string was empty.
    EmptySequence,
    /// The input held `character` at `index`, the leftmost position whose
    /// character is neither '0' nor '1'.
    InvalidCharacter { character: char, index: usize },
}

/// A maximal run of ones in which consecutive ones are separated by fewer
/// than the chosen threshold of zeros.
#[derive(Clone, Copy, Debug, PartialEq, Eq, Structural)]
pub struct Burst {
    /// Number of ones merged into the burst.
    pub weight: usize,
    /// Inclusive span: last position minus first position, plus one.
    pub length: usize,
}

/// The exact population moments of a non-empty gap sequence, from which the
/// burstiness score `B = (sigma - mean) / (sigma + mean)` follows: the mean is
/// `gap_sum / gap_count`, the population variance is
/// `gap_square_sum / gap_count - mean^2`, and `sigma` is its square root.
/// When `gap_sum == 0` every gap is zero, `sigma + mean == 0`, and the score
/// is 0 by convention; when the variance is zero but the mean positive the
/// score is exactly -1. Taking the square root is left to the caller, since
/// it leaves exact arithmetic.
#[derive(Clone, Copy, Debug, PartialEq, Eq, Structural)]
pub struct BurstinessLevel {
    /// Number of gaps.
    pub gap_count: u128,
    /// Sum of the gaps.
    pub gap_sum: u128,
    /// Sum of the squared gaps.
    pub gap_square_sum: u128,
}

/// Wraps an immutable, validated bit sequence and derives randomness
/// indicators from it. All results are deterministic functions of the
/// sequence (and, for bursts, of an explicit threshold).
#[derive(Debug)]
pub struct RandomnessAnalyzer {
    bits: Vec<u8>,
}

impl View for RandomnessAnalyzer {
    type V = Seq<u8>;

    closed spec fn view(&self) -> Seq<u8> {
        self.bits@
    }
}

impl RandomnessAnalyzer {
    /// The data-model invariant: at least one symbol, each one 0 or 1.
    pub open spec fn wf(&self) -> bool {
        valid_bits(self@)
    }

    /// Validates `bitstring` and wraps it as a bit sequence. Fails with
    /// `InvalidCharacter` at the leftmost character outside {'0','1'}, and
    /// with `EmptySequence` for an empty input.
    pub fn new(bitstring: &str) -> (r: Result<Self, BitSequenceError>)
        ensures
            match r {
                Ok(a) => a.wf() && a@ == bits_of(bitstring@) && bitstring@.len() >= 1 && (forall|
                    j: int,
                |
                    0 <= j < bitstring@.len() ==> bit_char(#[trigger] bitstring@[j])),
                Err(BitSequenceError::EmptySequence) => bitstring@.len() == 0,
                Err(BitSequenceError::InvalidCharacter { character, index }) => index
                    < bitstring@.len() && bitstring@[index as int] == character && !bit_char(
                    character,
                ) && (forall|j: int| 0 <= j < index ==> bit_char(#[trigger] bitstring@[j])),
            },
    {
        let n = bitstring.unicode_len();
        let mut bits: Vec<u8> = Vec::new();
        let mut i: usize = 0;
        while i < n
            invariant
                i <= n,
                n == bitstring@.len(),
                bits@.len() == i,
                forall|j: int| 0 <= j < i ==> bit_char(#[trigger] bitstring@[j]),
                forall|j: int| 0 <= j < i ==> bits@[j] == bits_of(bitstring@)[j],
            decreases n - i,
        {
            let c = bitstring.get_char(i);
            match c {
                '0' => bits.push(0),
                '1' => bits.push(1),
                _ => {
                    return Err(BitSequenceError::InvalidCharacter { character: c, index: i });
                },
            }
            i = i + 1;
        }
        if n == 0 {
            return Err(BitSequenceError::EmptySequence);
        }
        let a = RandomnessAnalyzer { bits };
        proof {
            assert(a@ =~= bits_of(bitstring@));
        }
        Ok(a)
    }

    /// The ascending positions of the ones, as executable values.
    fn one_positions_vec(&self) -> (r: Vec<usize>)
        requires
            self.wf(),
        ensures
            r@.len() == one_positions(self@).len(),
            forall|i: int| 0 <= i < r@.len() ==> #[trigger] r@[i] as int == one_positions(self@)[i],
    {
        let n = self.bits.len();
        let mut out: Vec<usize> = Vec::new();
        let mut i: usize = 0;
        proof {
            assert(self@.take(0) =~= Seq::<u8>::empty());
        }
        while i < n
            invariant
                i <= n,
                n == self@.len(),
                self.wf(),
                out@.len() == one_positions(self@.take(i as int)).len(),
                forall|j: int|
                    0 <= j < out@.len() ==> #[trigger] out@[j] as int == one_positions(
                        self@.take(i as int),
                    )[j],
            decreases n - i,
        {
            proof {
                lemma_one_positions_take_step(self@, i as int);
            }
            if self.bits[i] == 1 {
                out.push(i);
            }
            i = i + 1;
        }
        proof {
            assert(self@.take(n as int) =~= self@);
        }
        out
    }

    /// Bit-occurrence probability: the exact fraction of symbols equal to 1.
    /// Its denominator is the sequence length, which is at least 1, and the
    /// value always lies in [0, 1].
    pub fn bop(&self) -> (r: Ratio)
        requires
            self.wf(),
        ensures
            r.num == one_positions(self@).len(),
            r.den == self@.len(),
            r.num <= r.den,
            r.den >= 1,
    {
        let pos = self.one_positions_vec();
        proof {
            lemma_one_positions_facts(self@);
        }
        Ratio { num: pos.len() as u128, den: self.bits.len() as u128 }
    }

    /// The inter-one gap sequence: for each pair of consecutive one-positions,
    /// the count of zeros strictly between them. Its length is the count of
    /// ones minus one, or zero when the sequence has fewer than two ones.
    pub fn gaps(&self) -> (r: Vec<usize>)
        requires
            self.wf(),
        ensures
            r@.len() == gaps_of(self@).len(),
            forall|i: int| 0 <= i < r@.len() ==> #[trigger] r@[i] as int == gaps_of(self@)[i],
            r@.len() == if one_positions(self@).len() == 0 {
                0int
            } else {
                one_positions(self@).len() - 1
            },
    {
        let pos = self.one_positions_vec();
        proof {
            lemma_one_positions_facts(self@);
            lemma_gaps_facts(self@);
        }
        let mut out: Vec<usize> = Vec::new();
        if pos.len() == 0 {
            return out;
        }
        let mut i: usize = 1;
        while i < pos.len()
            invariant
                1 <= i <= pos.len(),
                self.wf(),
                pos@.len() == one_positions(self@).len(),
                forall|j: int|
                    0 <= j < pos@.len() ==> #[trigger] pos@[j] as int == one_positions(self@)[j],
                forall|j: int, k: int|
                    0 <= j < k < one_positions(self@).len() ==> one_positions(self@)[j]
                        < one_positions(self@)[k],
                out@.len() == i - 1,
                forall|j: int| 0 <= j < i - 1 ==> #[trigger] out@[j] as int == gaps_of(self@)[j],
                gaps_of(self@).len() == pos@.len() - 1,
            decreases pos.len() - i,
        {
            let g = pos[i] - pos[i - 1] - 1;
            out.push(g);
            i = i + 1;
        }
        out
    }

    /// Segments the ones into bursts under threshold `a`: a following one is
    /// merged into the open burst exactly when fewer than `a` zeros separate
    /// it from the previous one. No ones yield an empty list; `a == 0` never
    /// merges, so every one is its own burst of length 1.
    pub fn bursts(&self, a: usize) -> (r: Vec<Burst>)
        requires
            self.wf(),
        ensures
            r@.len() == bursts_of(self@, a as int).len(),
            forall|i: int|
                0 <= i < r@.len() ==> (#[trigger] r@[i]).weight as int == bursts_of(
                    self@,
                    a as int,
                )[i].0 && r@[i].length as int == bursts_of(self@, a as int)[i].1,
    {
        let ghost p = one_positions(self@);
        let ghost model = bursts_of(self@, a as int);
        let pos = self.one_positions_vec();
        let n = self.bits.len();
        proof {
            lemma_one_positions_facts(self@);
        }
        let mut out: Vec<Burst> = Vec::new();
        if pos.len() == 0 {
            return out;
        }
        let mut start: usize = pos[0];
        let mut last: usize = pos[0];
        let mut weight: usize = 1;
        let mut i: usize = 1;
        proof {
            assert(bursts_view(out@) =~= Seq::<BurstModel>::empty());
            assert(bursts_view(out@) + bursts_from(p, a as int, 1, p[0], p[0], 1) =~= model);
        }
        while i < pos.len()
            invariant
                1 <= i <= pos.len(),
                self.wf(),
                p == one_positions(self@),
                pos@.len() == p.len(),
                pos@.len() >= 1,
                forall|j: int| 0 <= j < pos@.len() ==> #[trigger] pos@[j] as int == p[j],
                n == self@.len(),
                forall|j: int| 0 <= j < p.len() ==> 0 <= #[trigger] p[j] < self@.len(),
                forall|j: int, k: int| 0 <= j < k < p.len() ==> p[j] < p[k],
                start <= last,
                last < n,
                last as int == p[i - 1],
                1 <= weight <= i,
                bursts_view(out@) + bursts_from(
                    p,
                    a as int,
                    i as int,
                    start as int,
                    last as int,
                    weight as int,
                ) == model,
            decreases pos.len() - i,
        {
            let pcur = pos[i];
            let gap = pcur - last - 1;
            if gap < a {
                weight = weight + 1;
                last = pcur;
            } else {
                let b = Burst { weight, length: last - start + 1 };
                let ghost before = out@;
                out.push(b);
                proof {
                    assert(bursts_view(out@) =~= bursts_view(before).push(
                        (weight as int, last - start + 1),
                    ));
                    assert(bursts_view(before).push((weight as int, last - start + 1))
                        + bursts_from(p, a as int, i + 1, p[i as int], p[i as int], 1)
                        =~= bursts_view(before) + (seq![(weight as int, last - start + 1int)]
                        + bursts_from(p, a as int, i + 1, p[i as int], p[i as int], 1)));
                }
                start = pcur;
                last = pcur;
                weight = 1;
            }
            i = i + 1;
        }
        let b = Burst { weight, length: last - start + 1 };
        let ghost before = out@;
        out.push(b);
        proof {
            assert(bursts_from(p, a as int, i as int, start as int, last as int, weight as int)
                =~= seq![(weight as int, last - start + 1int)]);
            assert(bursts_view(out@) =~= bursts_view(before).push(
                (weight as int, last - start + 1),
            ));
            assert(bursts_view(before).push((weight as int, last - start + 1)) =~= bursts_view(
                before,
            ) + seq![(weight as int, last - start + 1int)]);
            assert(bursts_view(out@) =~= model);
        }
        out
    }

    /// The empirical gap density: one entry per distinct observed gap value,
    /// in ascending order, with the exact frequency of that value among all
    /// gaps. An empty gap sequence yields an empty mapping; otherwise the
    /// frequencies sum to exactly 1 (the numerators sum to the gap count).
    pub fn gap_density(&self) -> (r: Vec<(usize, Ratio)>)
        requires
            self.wf(),
        ensures
            gaps_of(self@).len() == 0 ==> r@.len() == 0,
            forall|e1: int, e2: int|
                0 <= e1 < e2 < r@.len() ==> (#[trigger] r@[e1]).0 < (#[trigger] r@[e2]).0,
            forall|e: int|
                0 <= e < r@.len() ==> (#[trigger] r@[e]).1.num == count_eq(
                    gaps_of(self@),
                    r@[e].0 as int,
                ) && r@[e].1.num > 0 && r@[e].1.den == gaps_of(self@).len(),
            forall|k: int|
                #[trigger] count_eq(gaps_of(self@), k) > 0 ==> exists|e: int|
                    0 <= e < r@.len() && (#[trigger] r@[e]).0 as int == k,
            gaps_of(self@).len() > 0 ==> entries_total(r@) == gaps_of(self@).len(),
    {
        let ghost gs = gaps_of(self@);
        let g = self.gaps();
        let n = self.bits.len();
        let mut out: Vec<(usize, Ratio)> = Vec::new();
        proof {
            lemma_gaps_facts(self@);
            assert(to_ints(g@) =~= gs);
        }
        if g.len() == 0 {
            proof {
                assert forall|k: int| #[trigger] count_eq(gs, k) > 0 implies exists|e: int|
                    0 <= e < out@.len() && (#[trigger] out@[e]).0 as int == k by {
                    assert(gs =~= Seq::<int>::empty());
                }
            }
            return out;
        }
        let total = g.len();
        let max = max_in(&g);
        proof {
            lemma_max_of_bounds(gs);
            lemma_count_lt_zero(gs);
        }
        let mut k: usize = 0;
        while k <= max
            invariant
                self.wf(),
                gs == gaps_of(self@),
                n == self@.len(),
                g@.len() == gs.len(),
                total == gs.len(),
                total >= 1,
                to_ints(g@) == gs,
                forall|j: int| 0 <= j < gs.len() ==> 0 <= #[trigger] gs[j] <= max as int,
                max < n,
                k <= max + 1,
                forall|e: int|
                    0 <= e < out@.len() ==> (#[trigger] out@[e]).0 < k && out@[e].1.num == count_eq(
                        gs,
                        out@[e].0 as int,
                    ) && out@[e].1.num > 0 && out@[e].1.den == total as u128,
                forall|e1: int, e2: int|
                    0 <= e1 < e2 < out@.len() ==> (#[trigger] out@[e1]).0 < (#[trigger] out@[e2]).0,
                forall|kk: int|
                    0 <= kk < k && count_eq(gs, kk) > 0 ==> exists|e: int|
                        0 <= e < out@.len() && (#[trigger] out@[e]).0 as int == kk,
                entries_total(out@) == count_lt(gs, k as int),
            decreases max + 1 - k,
        {
            let c = count_eq_in(&g, k);
            proof {
                lemma_count_lt_step(gs, k as int);
            }
            if c > 0 {
                let ghost before = out@;
                out.push((k, Ratio { num: c as u128, den: total as u128 }));
                proof {
                    assert(out@.drop_last() =~= before);
                    assert(out@.last() == (k, Ratio { num: c as u128, den: total as u128 }));
                    assert forall|kk: int|
                        0 <= kk < k + 1 && count_eq(gs, kk) > 0 implies exists|e: int|
                        0 <= e < out@.len() && (#[trigger] out@[e]).0 as int == kk by {
                        if kk == k as int {
                            assert(out@[out@.len() - 1].0 as int == kk);
                        } else {
                            let e = choose|e: int|
                                0 <= e < before.len() && (#[trigger] before[e]).0 as int == kk;
                            assert(out@[e].0 as int == kk);
                        }
                    }
                }
            }
            k = k + 1;
        }
        proof {
            assert(k == max + 1);
            lemma_count_lt_all(gs, k as int);
            assert forall|kk: int| #[trigger] count_eq(gs, kk) > 0 implies exists|e: int|
                0 <= e < out@.len() && (#[trigger] out@[e]).0 as int == kk by {
                if kk < 0 {
                    lemma_count_eq_negative(gs, kk);
                } else if kk > max as int {
                    lemma_count_eq_above_max(gs, max as int, kk);
                }
            }
        }
        out
    }

    /// The empirical gap survival distribution: for every integer `k` from 0
    /// to the maximum observed gap, the exact fraction of gaps that are
    /// `>= k` — dense over that whole range. An empty gap sequence yields an
    /// empty mapping; otherwise the value at 0 is exactly 1 and the values
    /// are weakly decreasing in `k`.
    pub fn gap_distribution(&self) -> (r: Vec<(usize, Ratio)>)
        requires
            self.wf(),
        ensures
            gaps_of(self@).len() == 0 ==> r@.len() == 0,
            gaps_of(self@).len() > 0 ==> r@.len() == max_of(gaps_of(self@)) + 1,
            forall|e: int|
                0 <= e < r@.len() ==> (#[trigger] r@[e]).0 == e && r@[e].1.num == count_ge(
                    gaps_of(self@),
                    e,
                ) && r@[e].1.den == gaps_of(self@).len(),
            gaps_of(self@).len() > 0 ==> r@[0].1.num == gaps_of(self@).len(),
            forall|e1: int, e2: int|
                0 <= e1 <= e2 < r@.len() ==> (#[trigger] r@[e2]).1.num <= (#[trigger] r@[e1]).1.num,
    {
        let ghost gs = gaps_of(self@);
        let g = self.gaps();
        let n = self.bits.len();
        let mut out: Vec<(usize, Ratio)> = Vec::new();
        proof {
            lemma_gaps_facts(self@);
            assert(to_ints(g@) =~= gs);
        }
        if g.len() == 0 {
            return out;
        }
        let total = g.len();
        let max = max_in(&g);
        proof {
            lemma_max_of_bounds(gs);
        }
        let mut k: usize = 0;
        while k <= max
            invariant
                self.wf(),
                gs == gaps_of(self@),
                n == self@.len(),
                g@.len() == gs.len(),
                total == gs.len(),
                total >= 1,
                to_ints(g@) == gs,
                max as int == max_of(gs),
                max < n,
                k <= max + 1,
                out@.len() == k,
                forall|e: int|
                    0 <= e < out@.len() ==> (#[trigger] out@[e]).0 == e && out@[e].1.num
                        == count_ge(gs, e) && out@[e].1.den == total as u128,
            decreases max + 1 - k,
        {
            let c = count_ge_in(&g, k);
            out.push((k, Ratio { num: c as u128, den: total as u128 }));
            k = k + 1;
        }
        proof {
            lemma_count_ge_zero_is_len(gs);
            assert forall|e1: int, e2: int| 0 <= e1 <= e2 < out@.len() implies (#[trigger] out@[e2]).1.num
                <= (#[trigger] out@[e1]).1.num by {
                lemma_count_ge_antitone(gs, e1, e2);
            }
        }
        out
    }

    /// The independence-consistency triple `(p_e, v0, |p_e - v0|)`: the
    /// bit-occurrence probability, the fraction of gaps exactly equal to 0
    /// (taken as 0 when the gap sequence is empty), and their exact absolute
    /// discrepancy. For an independent, identically-distributed source the
    /// first two should be close; no verdict is drawn here.
    pub fn iid_du_check(&self) -> (r: (Ratio, Ratio, Ratio))
        requires
            self.wf(),
        ensures
            r.0.num == one_positions(self@).len() && r.0.den == self@.len(),
            gaps_of(self@).len() == 0 ==> r.1 == (Ratio { num: 0, den: 1 }) && r.2 == r.0,
            gaps_of(self@).len() > 0 ==> {
                &&& r.1.num == count_eq(gaps_of(self@), 0)
                &&& r.1.den == gaps_of(self@).len()
                &&& r.2.num == abs_diff(
                    one_positions(self@).len() * gaps_of(self@).len() as int,
                    count_eq(gaps_of(self@), 0) * self@.len() as int,
                )
                &&& r.2.den == self@.len() * gaps_of(self@).len()
            },
    {
        let ghost gs = gaps_of(self@);
        let p = self.bop();
        let g = self.gaps();
        if g.len() == 0 {
            return (p, Ratio { num: 0, den: 1 }, p);
        }
        proof {
            assert(to_ints(g@) =~= gs);
        }
        let c0 = count_eq_in(&g, 0);
        let glen = g.len() as u128;
        let slen = self.bits.len() as u128;
        proof {
            assert(p.num * glen <= 0xFFFFFFFFFFFFFFFF * 0xFFFFFFFFFFFFFFFF) by (nonlinear_arith)
                requires
                    0 <= p.num <= 0xFFFFFFFFFFFFFFFF,
                    0 <= glen <= 0xFFFFFFFFFFFFFFFF,
            ;
            assert((c0 as u128) * slen <= 0xFFFFFFFFFFFFFFFF * 0xFFFFFFFFFFFFFFFF)
                by (nonlinear_arith)
                requires
                    0 <= c0 as u128 <= 0xFFFFFFFFFFFFFFFF,
                    0 <= slen <= 0xFFFFFFFFFFFFFFFF,
            ;
            assert(slen * glen <= 0xFFFFFFFFFFFFFFFF * 0xFFFFFFFFFFFFFFFF) by (nonlinear_arith)
                requires
                    0 <= slen <= 0xFFFFFFFFFFFFFFFF,
                    0 <= glen <= 0xFFFFFFFFFFFFFFFF,
            ;
        }
        let a = p.num * glen;
        let b = (c0 as u128) * slen;
        let num = if a >= b {
            a - b
        } else {
            b - a
        };
        (p, Ratio { num: c0 as u128, den: glen }, Ratio { num, den: slen * glen })
    }

    /// The exact moments behind the burstiness score, or `None` exactly when
    /// the gap sequence is empty (fewer than two ones): absence is a normal
    /// outcome for degenerate inputs, not an error.
    pub fn burstiness_level(&self) -> (r: Option<BurstinessLevel>)
        requires
            self.wf(),
        ensures
            r is Some <==> gaps_of(self@).len() > 0,
            match r {
                Some(b) => b.gap_count == gaps_of(self@).len() && b.gap_sum == sum_of(
                    gaps_of(self@),
                ) && b.gap_square_sum == sum_sq_of(gaps_of(self@)) && b.gap_sum < self@.len(),
                None => gaps_of(self@).len() == 0,
            },
    {
        let ghost gs = gaps_of(self@);
        let g = self.gaps();
        let n = self.bits.len();
        if g.len() == 0 {
            return None;
        }
        let mut sum: u128 = 0;
        let mut sq: u128 = 0;
        let mut i: usize = 0;
        proof {
            assert(gs.take(0) =~= Seq::<int>::empty());
        }
        while i < g.len()
            invariant
                0 <= i <= g.len(),
                self.wf(),
                gs == gaps_of(self@),
                n == self@.len(),
                g@.len() == gs.len(),
                forall|j: int| 0 <= j < g@.len() ==> #[trigger] g@[j] as int == gs[j],
                sum == sum_of(gs.take(i as int)),
                sq == sum_sq_of(gs.take(i as int)),
                sum < n,
            decreases g.len() - i,
        {
            proof {
                assert(gs.take(i + 1).drop_last() =~= gs.take(i as int));
                assert(gs.take(i + 1).last() == gs[i as int]);
                lemma_gaps_facts(self@);
                lemma_gap_prefix_sum_bound(self@, i + 1);
                assert(forall|j: int|
                    0 <= j < gs.take(i + 1).len() ==> #[trigger] gs.take(i + 1)[j] >= 0);
                lemma_sum_sq_le_sq_of_sum(gs.take(i + 1));
                assert(sum_of(gs.take(i + 1)) * sum_of(gs.take(i + 1)) < (n as int) * (n as int))
                    by (nonlinear_arith)
                    requires
                        0 <= sum_of(gs.take(i + 1)) < n as int,
                        n >= 1,
                ;
                assert((n as int) * (n as int) <= 0xFFFFFFFFFFFFFFFF * 0xFFFFFFFFFFFFFFFF)
                    by (nonlinear_arith)
                    requires
                        0 <= n as int <= 0xFFFFFFFFFFFFFFFF,
                ;
                assert((g@[i as int] as int) * (g@[i as int] as int) <= 0xFFFFFFFFFFFFFFFF
                    * 0xFFFFFFFFFFFFFFFF) by (nonlinear_arith)
                    requires
                        0 <= g@[i as int] as int <= 0xFFFFFFFFFFFFFFFF,
                ;
            }
            let gi = g[i] as u128;
            sum = sum + gi;
            sq = sq + gi * gi;
            i = i + 1;
        }
        proof {
            assert(gs.take(g@.len() as int) =~= gs);
        }
        Some(BurstinessLevel { gap_count: g.len() as u128, gap_sum: sum, gap_square_sum: sq })
    }
}

} // verus!
