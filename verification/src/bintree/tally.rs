//! Counting the free bits of a range.
use vstd::prelude::*;

verus! {

/// The number of clear bits among `bits[lo..hi]`.
pub open spec fn count_free(bits: Seq<bool>, lo: int, hi: int) -> nat
    decreases hi - lo,
{
    if lo >= hi {
        0
    } else {
        count_free(bits, lo, hi - 1) + if bits[hi - 1] {
            0nat
        } else {
            1nat
        }
    }
}

/// A range holds no more free bits than bits.
pub proof fn lemma_count_bound(bits: Seq<bool>, lo: int, hi: int)
    ensures
        count_free(bits, lo, hi) <= if lo <= hi {
            hi - lo
        } else {
            0
        },
    decreases hi - lo,
{
    if lo < hi {
        lemma_count_bound(bits, lo, hi - 1);
    }
}

/// The free bits of a range are those of its two parts.
pub proof fn lemma_count_split(bits: Seq<bool>, lo: int, mid: int, hi: int)
    requires
        lo <= mid <= hi,
    ensures
        count_free(bits, lo, hi) == count_free(bits, lo, mid) + count_free(bits, mid, hi),
    decreases hi - mid,
{
    if mid < hi {
        lemma_count_split(bits, lo, mid, hi - 1);
    }
}

/// Two bit arrays that agree on a range have as many free bits there.
pub proof fn lemma_count_same(a: Seq<bool>, b: Seq<bool>, lo: int, hi: int)
    requires
        forall|i: int| lo <= i < hi ==> #[trigger] a[i] == b[i],
    ensures
        count_free(a, lo, hi) == count_free(b, lo, hi),
    decreases hi - lo,
{
    if lo < hi {
        lemma_count_same(a, b, lo, hi - 1);
    }
}

/// A range of equal bits is all free or holds no free bit.
pub proof fn lemma_count_all(bits: Seq<bool>, lo: int, hi: int, used: bool)
    requires
        lo <= hi,
        forall|i: int| lo <= i < hi ==> #[trigger] bits[i] == used,
    ensures
        count_free(bits, lo, hi) == if used {
            0
        } else {
            hi - lo
        },
    decreases hi - lo,
{
    if lo < hi {
        lemma_count_all(bits, lo, hi - 1, used);
    }
}

/// Where `after` differs from `before` only on `[a, b)`, a part of
/// `[lo, hi)` on which `before` is all `!used` and `after` is all `used`,
/// the free bits of `[lo, hi)` change by `b - a`: down where the part became
/// used, up where it became free.
pub proof fn lemma_count_flip(
    before: Seq<bool>,
    after: Seq<bool>,
    lo: int,
    hi: int,
    a: int,
    b: int,
    used: bool,
)
    requires
        lo <= a <= b <= hi,
        forall|i: int| a <= i < b ==> #[trigger] before[i] == !used,
        forall|i: int| a <= i < b ==> #[trigger] after[i] == used,
        forall|i: int| lo <= i < hi && !(a <= i < b) ==> #[trigger] after[i] == before[i],
    ensures
        used ==> count_free(after, lo, hi) + (b - a) == count_free(before, lo, hi),
        !used ==> count_free(after, lo, hi) == count_free(before, lo, hi) + (b - a),
{
    lemma_count_split(before, lo, a, hi);
    lemma_count_split(before, a, b, hi);
    lemma_count_split(after, lo, a, hi);
    lemma_count_split(after, a, b, hi);
    lemma_count_same(after, before, lo, a);
    lemma_count_same(after, before, b, hi);
    lemma_count_all(before, a, b, !used);
    lemma_count_all(after, a, b, used);
}

} // verus!
