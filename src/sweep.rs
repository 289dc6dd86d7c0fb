use vstd::prelude::*;
use crate::key::ContactKey;

verus! {

/// Number of unordered pairs of distinct bodies among `n`: 0 + 1 + ... + (n - 1).
pub open spec fn pair_count(n: int) -> int
    decreases n,
{
    if n <= 0 {
        0
    } else {
        pair_count(n - 1) + (n - 1)
    }
}

/// `pair_count(n)` is `n * (n - 1) / 2`.
pub proof fn lemma_pair_count_closed(n: int)
    requires
        n >= 0,
    ensures
        2 * pair_count(n) == n * (n - 1),
    decreases n,
{
    if n > 0 {
        lemma_pair_count_closed(n - 1);
        assert((n - 1) * (n - 2) + 2 * (n - 1) == n * (n - 1)) by (nonlinear_arith);
    } else {
        assert(n * (n - 1) == 0) by (nonlinear_arith)
            requires
                n == 0,
        ;
    }
}

/// `a` comes before `b` in the detection sweep.
pub open spec fn sweep_before(a: ContactKey, b: ContactKey) -> bool {
    a.0 < b.0 || (a.0 == b.0 && a.1 < b.1)
}

proof fn lemma_pair_count_monotone(a: int, b: int)
    requires
        0 <= a <= b,
    ensures
        pair_count(a) <= pair_count(b),
        a < b ==> pair_count(a) + a <= pair_count(b),
    decreases b - a,
{
    if a < b {
        lemma_pair_count_monotone(a, b - 1);
    }
}

/// The place `pair_count(i) + j` of the pair `(i, j)` lies among the first
/// `pair_count(n)`.
pub proof fn lemma_pair_index(i: int, j: int, n: int)
    requires
        0 <= j < i < n,
    ensures
        0 <= pair_count(i) + j < pair_count(n),
{
    lemma_pair_count_monotone(0, i);
    lemma_pair_count_monotone(i, n);
}

/// Every unordered pair of distinct bodies among `n`, in the order in which a
/// step tests them for contact: body `i` goes from the first to the last, and
/// for each `i`, body `j` from the first up to, not including, `i`. The pair
/// `(i, j)` is the key `ContactKey(i, j)` and stands at `pair_count(i) + j`.
pub fn pairs(n: usize) -> (r: Vec<ContactKey>)
    ensures
        r@.len() == pair_count(n as int),
        2 * r@.len() == n * (n - 1),
        forall|i: int, j: int|
            0 <= j < i < n ==> #[trigger] r@[pair_count(i) + j] == ContactKey(i as usize, j as usize),
        forall|k: int| 0 <= k < r@.len() ==> (#[trigger] r@[k]).wf() && r@[k].0 < n,
        forall|k1: int, k2: int|
            0 <= k1 < k2 < r@.len() ==> sweep_before(#[trigger] r@[k1], #[trigger] r@[k2]),
{
    let mut r: Vec<ContactKey> = Vec::new();
    let mut i: usize = 0;
    while i < n
        invariant
            i <= n,
            r@.len() == pair_count(i as int),
            forall|a: int, b: int|
                0 <= b < a < i ==> #[trigger] r@[pair_count(a) + b] == ContactKey(a as usize, b as usize),
            forall|k: int| 0 <= k < r@.len() ==> (#[trigger] r@[k]).wf() && r@[k].0 < i,
            forall|k1: int, k2: int|
                0 <= k1 < k2 < r@.len() ==> sweep_before(#[trigger] r@[k1], #[trigger] r@[k2]),
        decreases n - i,
    {
        let mut j: usize = 0;
        while j < i
            invariant
                i < n,
                j <= i,
                r@.len() == pair_count(i as int) + j,
                forall|a: int, b: int|
                    0 <= b < a < i ==> #[trigger] r@[pair_count(a) + b] == ContactKey(a as usize, b as usize),
                forall|b: int| 0 <= b < j ==> #[trigger] r@[pair_count(i as int) + b] == ContactKey(i, b as usize),
                forall|k: int| 0 <= k < r@.len() ==> (#[trigger] r@[k]).wf() && r@[k].0 <= i,
                forall|k: int| 0 <= k < pair_count(i as int) ==> (#[trigger] r@[k]).0 < i,
                forall|k: int|
                    pair_count(i as int) <= k < r@.len() ==> (#[trigger] r@[k]).0 == i && r@[k].1 < j,
                forall|k1: int, k2: int|
                    0 <= k1 < k2 < r@.len() ==> sweep_before(#[trigger] r@[k1], #[trigger] r@[k2]),
            decreases i - j,
        {
            let ghost before = r@;
            proof {
                lemma_pair_count_monotone(0, i as int);
            }
            r.push(ContactKey(i, j));
            proof {
                assert forall|a: int, b: int| 0 <= b < a < i implies #[trigger] r@[pair_count(a) + b]
                    == ContactKey(a as usize, b as usize) by {
                    lemma_pair_count_monotone(0, a);
                    lemma_pair_count_monotone(a, i as int);
                    assert(r@[pair_count(a) + b] == before[pair_count(a) + b]);
                }
                assert forall|k: int| 0 <= k < before.len() implies sweep_before(
                    #[trigger] r@[k],
                    ContactKey(i, j),
                ) by {
                    assert(r@[k] == before[k]);
                }
            }
            j = j + 1;
        }
        i = i + 1;
    }
    proof {
        lemma_pair_count_closed(n as int);
    }
    r
}

} // verus!
