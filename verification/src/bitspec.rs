//! The mathematical model of a bit sequence: which positions hold a one, the
//! inter-one gap sequence, and the threshold-based burst segmentation.

use vstd::prelude::*;

use crate::counting::{sum_of, lemma_sum_nonneg};

verus! {

/// A stored symbol is a bit.
pub open spec fn is_bit(b: u8) -> bool {
    b == 0 || b == 1
}

/// A character that spells a bit.
pub open spec fn bit_char(c: char) -> bool {
    c == '0' || c == '1'
}

/// The bit sequence spelled by a string of '0'/'1' characters.
pub open spec fn bits_of(s: Seq<char>) -> Seq<u8> {
    Seq::new(s.len(), |i: int| if s[i] == '1' { 1u8 } else { 0u8 })
}

/// The invariant of a constructed bit sequence: non-empty, every symbol 0 or 1.
pub open spec fn valid_bits(s: Seq<u8>) -> bool {
    s.len() >= 1 && forall|i: int| 0 <= i < s.len() ==> is_bit(s[i])
}

/// The ascending sequence of indices of `s` that hold a one.
pub open spec fn one_positions(s: Seq<u8>) -> Seq<int>
    decreases s.len(),
{
    if s.len() == 0 {
        Seq::empty()
    } else if s.last() == 1 {
        one_positions(s.drop_last()).push(s.len() - 1)
    } else {
        one_positions(s.drop_last())
    }
}

/// The inter-one gap sequence: the count of zeros strictly between each pair
/// of consecutive one-positions. Empty when `s` has fewer than two ones.
pub open spec fn gaps_of(s: Seq<u8>) -> Seq<int> {
    let p = one_positions(s);
    if p.len() == 0 {
        Seq::empty()
    } else {
        Seq::new((p.len() - 1) as nat, |i: int| p[i + 1] - p[i] - 1)
    }
}

/// One burst as a pair `(weight, length)`: the number of ones merged into it
/// and its inclusive span.
pub type BurstModel = (int, int);

/// The bursts still to be produced by a walk of the one-positions `p` from
/// index `i` on, with an open burst that started at `start`, last absorbed the
/// one at `last`, and holds `weight` ones so far. A following one-position
/// closer than `a` zeros away is merged; otherwise the open burst is closed.
pub open spec fn bursts_from(p: Seq<int>, a: int, i: int, start: int, last: int, weight: int) -> Seq<
    BurstModel,
>
    decreases p.len() - i,
{
    if i < 0 || i >= p.len() {
        seq![(weight, last - start + 1)]
    } else if p[i] - last - 1 < a {
        bursts_from(p, a, i + 1, start, p[i], weight + 1)
    } else {
        seq![(weight, last - start + 1)] + bursts_from(p, a, i + 1, p[i], p[i], 1)
    }
}

/// The burst segmentation of `s` under threshold `a`: maximal runs of ones in
/// which consecutive ones are separated by fewer than `a` zeros.
pub open spec fn bursts_of(s: Seq<u8>, a: int) -> Seq<BurstModel> {
    let p = one_positions(s);
    if p.len() == 0 {
        Seq::empty()
    } else {
        bursts_from(p, a, 1, p[0], p[0], 1)
    }
}

/// One-positions are strictly increasing indices into `s`, each holding a one,
/// and there are no more of them than `s` has symbols.
pub proof fn lemma_one_positions_facts(s: Seq<u8>)
    ensures
        one_positions(s).len() <= s.len(),
        forall|i: int|
            0 <= i < one_positions(s).len() ==> 0 <= #[trigger] one_positions(s)[i] < s.len(),
        forall|i: int|
            0 <= i < one_positions(s).len() ==> s[#[trigger] one_positions(s)[i]] == 1,
        forall|i: int, j: int|
            0 <= i < j < one_positions(s).len() ==> one_positions(s)[i] < one_positions(s)[j],
    decreases s.len(),
{
    if s.len() > 0 {
        let t = s.drop_last();
        lemma_one_positions_facts(t);
        assert(forall|i: int| 0 <= i < t.len() ==> t[i] == s[i]);
        if s.last() == 1 {
            assert(one_positions(s) == one_positions(t).push(s.len() - 1));
            assert(forall|i: int|
                0 <= i < one_positions(t).len() ==> one_positions(s)[i] == one_positions(t)[i]);
            assert(s[s.len() - 1] == 1);
        }
    }
}

/// Extending a prefix of `s` by one symbol extends its one-positions exactly
/// when that symbol is a one.
pub proof fn lemma_one_positions_take_step(s: Seq<u8>, i: int)
    requires
        0 <= i < s.len(),
    ensures
        one_positions(s.take(i + 1)) == if s[i] == 1 {
            one_positions(s.take(i)).push(i)
        } else {
            one_positions(s.take(i))
        },
{
    assert(s.take(i + 1).drop_last() =~= s.take(i));
    assert(s.take(i + 1).last() == s[i]);
}

/// Every gap is non-negative and the gap count is one less than the count of
/// ones (zero when there are no ones).
pub proof fn lemma_gaps_facts(s: Seq<u8>)
    ensures
        gaps_of(s).len() == if one_positions(s).len() == 0 {
            0int
        } else {
            one_positions(s).len() - 1
        },
        forall|i: int| 0 <= i < gaps_of(s).len() ==> #[trigger] gaps_of(s)[i] >= 0,
        forall|i: int| 0 <= i < gaps_of(s).len() ==> #[trigger] gaps_of(s)[i] < s.len(),
{
    lemma_one_positions_facts(s);
}

/// The sum of the first `m` gaps telescopes to the distance walked from the
/// first one-position, minus the ones passed on the way.
pub proof fn lemma_gap_prefix_sum(s: Seq<u8>, m: int)
    requires
        one_positions(s).len() >= 1,
        0 <= m < one_positions(s).len(),
    ensures
        sum_of(gaps_of(s).take(m)) == one_positions(s)[m] - one_positions(s)[0] - m,
    decreases m,
{
    let p = one_positions(s);
    let g = gaps_of(s);
    lemma_one_positions_facts(s);
    if m == 0 {
        assert(g.take(0) =~= Seq::<int>::empty());
    } else {
        lemma_gap_prefix_sum(s, m - 1);
        assert(g.take(m).drop_last() =~= g.take(m - 1));
        assert(g.take(m).last() == g[m - 1]);
        assert(g[m - 1] == p[m] - p[m - 1] - 1);
    }
}

/// Any prefix of the gap sequence sums to less than the length of `s`.
pub proof fn lemma_gap_prefix_sum_bound(s: Seq<u8>, m: int)
    requires
        0 <= m <= gaps_of(s).len(),
    ensures
        0 <= sum_of(gaps_of(s).take(m)) < s.len() || m == 0,
        m == 0 ==> sum_of(gaps_of(s).take(m)) == 0,
{
    let p = one_positions(s);
    let g = gaps_of(s);
    if m == 0 {
        assert(g.take(0) =~= Seq::<int>::empty());
    } else {
        lemma_one_positions_facts(s);
        lemma_gap_prefix_sum(s, m);
        assert(p[m] < s.len());
        assert(p[0] >= 0);
        lemma_gaps_facts(s);
        assert(forall|i: int| 0 <= i < g.take(m).len() ==> g.take(m)[i] >= 0);
        lemma_sum_nonneg(g.take(m));
    }
}

} // verus!
