//! Symbol frequencies of a text and the distance between two of them.

use vstd::prelude::*;
use vstd::relations::*;
use vstd::seq_lib::*;
use crate::algo::lists_view;

verus! {

/// The order in which a histogram is sorted.
pub open spec fn ascending() -> spec_fn(u64, u64) -> bool {
    |x: u64, y: u64| x <= y
}

/// The frequency of each symbol of a text with the given position lists,
/// with `noise` expected insertions spread evenly over the 27 symbols:
/// `(count + noise / 27) / (length + noise)`, in units of
/// `1 / (27 * (length + noise))`, so that every entry is a whole number.
pub open spec fn scaled_frequencies(lists: Seq<Seq<usize>>, noise: int) -> Seq<u64> {
    Seq::new(27, |s: int| (27 * lists[s].len() + noise) as u64)
}

/// The frequencies in ascending order: which symbol owns which frequency is
/// forgotten, since the key is unknown.
pub open spec fn sorted_histogram(lists: Seq<Seq<usize>>, noise: int) -> Seq<u64> {
    scaled_frequencies(lists, noise).sort_by(ascending())
}

/// The sum of the squared differences of the first `n` entries of `a` and `b`.
pub open spec fn squared_distance_upto(a: Seq<u64>, b: Seq<u64>, n: int) -> int
    decreases n,
{
    if n <= 0 {
        0
    } else {
        squared_distance_upto(a, b, n - 1) + (a[n - 1] - b[n - 1]) * (a[n - 1] - b[n - 1])
    }
}

/// The sum of the squared differences of `a` and `b`, entry by entry, as far
/// as both reach.
pub open spec fn squared_distance(a: Seq<u64>, b: Seq<u64>) -> int {
    squared_distance_upto(a, b, if a.len() <= b.len() { a.len() as int } else { b.len() as int })
}

/// The distance over fewer entries is not larger, and never negative.
pub proof fn lemma_squared_distance_grows(a: Seq<u64>, b: Seq<u64>, n: int, k: int)
    requires
        n <= k,
    ensures
        0 <= squared_distance_upto(a, b, n) <= squared_distance_upto(a, b, k),
    decreases k,
{
    if k <= 0 {
    } else if n == k {
        lemma_squared_distance_grows(a, b, n - 1, k - 1);
        let d = a[k - 1] - b[k - 1];
        assert(d * d >= 0) by (nonlinear_arith);
    } else {
        lemma_squared_distance_grows(a, b, n, k - 1);
        let d = a[k - 1] - b[k - 1];
        assert(d * d >= 0) by (nonlinear_arith);
    }
}

/// Where no entry exceeds `bound`, the distance over `n` entries is at most
/// `n * bound * bound`.
pub proof fn lemma_squared_distance_bounded(a: Seq<u64>, b: Seq<u64>, n: int, bound: int)
    requires
        0 <= n <= a.len(),
        n <= b.len(),
        forall|i: int| 0 <= i < n ==> #[trigger] a[i] <= bound,
        forall|i: int| 0 <= i < n ==> #[trigger] b[i] <= bound,
    ensures
        squared_distance_upto(a, b, n) <= n * (bound * bound),
    decreases n,
{
    if n > 0 {
        lemma_squared_distance_bounded(a, b, n - 1, bound);
        let d = a[n - 1] - b[n - 1];
        assert(a[n - 1] <= bound && b[n - 1] <= bound);
        assert(d * d <= bound * bound) by (nonlinear_arith)
            requires
                -bound <= d <= bound,
        ;
        assert((n - 1) * (bound * bound) + bound * bound == n * (bound * bound))
            by (nonlinear_arith);
    } else {
        assert(n * (bound * bound) == 0) by (nonlinear_arith)
            requires
                n == 0,
        ;
    }
}

/// Where no frequency exceeds `bound`, no entry of the sorted histogram does.
pub proof fn lemma_histogram_bounded(lists: Seq<Seq<usize>>, noise: int, bound: int)
    requires
        0 <= noise,
        bound <= u64::MAX,
        forall|s: int| 0 <= s < 27 ==> 27 * (#[trigger] lists[s]).len() + noise <= bound,
    ensures
        sorted_histogram(lists, noise).len() == 27,
        forall|i: int| 0 <= i < 27 ==> #[trigger] sorted_histogram(lists, noise)[i] <= bound,
{
    let unsorted = scaled_frequencies(lists, noise);
    let sorted = sorted_histogram(lists, noise);
    unsorted.lemma_sort_by_ensures(ascending());
    unsorted.to_multiset_ensures();
    sorted.to_multiset_ensures();
    assert forall|i: int| 0 <= i < 27 implies #[trigger] sorted[i] <= bound by {
        assert(sorted.contains(sorted[i]));
        assert(unsorted.contains(sorted[i]));
        let j = choose|j: int| 0 <= j < unsorted.len() && unsorted[j] == sorted[i];
        assert(27 * lists[j].len() + noise <= bound);
    }
}

/// Sorts in place with `sort` of the standard library: afterwards the vector
/// holds what it held before, each value as often as before, in ascending
/// order.
#[verifier::external_body]
fn sort_ascending(values: &mut Vec<u64>)
    ensures
        final(values)@.to_multiset() == old(values)@.to_multiset(),
        sorted_by(final(values)@, ascending()),
{
    values.sort();
}

/// The sorted histogram of a text with the given position lists.
pub fn convert_to_frequency_distribution(
    text_positions: &[Vec<usize>],
    noise: usize,
) -> (histogram: Vec<u64>)
    requires
        text_positions@.len() == 27,
        forall|s: int|
            0 <= s < 27 ==> 27 * (#[trigger] text_positions@[s])@.len() + noise <= u64::MAX,
    ensures
        histogram@ == sorted_histogram(lists_view(text_positions@), noise as int),
        histogram@.len() == 27,
{
    let ghost lists = lists_view(text_positions@);
    let mut frequency_distribution: Vec<u64> = Vec::with_capacity(27);
    let mut index: usize = 0;
    while index < 27
        invariant
            index <= 27,
            text_positions@.len() == 27,
            lists == lists_view(text_positions@),
            forall|s: int|
                0 <= s < 27 ==> 27 * (#[trigger] text_positions@[s])@.len() + noise <= u64::MAX,
            frequency_distribution@.len() == index,
            forall|s: int|
                0 <= s < index ==> #[trigger] frequency_distribution@[s] == scaled_frequencies(
                    lists,
                    noise as int,
                )[s],
        decreases 27 - index,
    {
        let count = text_positions[index].len();
        proof {
            assert(27 * text_positions@[index as int]@.len() + noise <= u64::MAX);
        }
        frequency_distribution.push(27 * (count as u64) + (noise as u64));
        index += 1;
    }
    proof {
        assert(frequency_distribution@ =~= scaled_frequencies(lists, noise as int));
    }
    sort_ascending(&mut frequency_distribution);
    proof {
        let unsorted = scaled_frequencies(lists, noise as int);
        unsorted.lemma_sort_by_ensures(ascending());
        lemma_sorted_unique(frequency_distribution@, unsorted.sort_by(ascending()), ascending());
        unsorted.to_multiset_ensures();
        frequency_distribution@.to_multiset_ensures();
    }
    frequency_distribution
}

/// The sum of the squared differences of two histograms, entry by entry.
pub fn calculate_overall_difference(sorted_a: &[u64], sorted_b: &[u64]) -> (difference: u128)
    requires
        squared_distance(sorted_a@, sorted_b@) <= u128::MAX,
    ensures
        difference == squared_distance(sorted_a@, sorted_b@),
{
    let length = if sorted_a.len() <= sorted_b.len() {
        sorted_a.len()
    } else {
        sorted_b.len()
    };
    let mut difference: u128 = 0;
    let mut index: usize = 0;
    while index < length
        invariant
            index <= length,
            length <= sorted_a@.len(),
            length <= sorted_b@.len(),
            squared_distance_upto(sorted_a@, sorted_b@, length as int) <= u128::MAX,
            difference == squared_distance_upto(sorted_a@, sorted_b@, index as int),
        decreases length - index,
    {
        let a: u64 = sorted_a[index];
        let b: u64 = sorted_b[index];
        let gap: u128 = if a >= b {
            (a - b) as u128
        } else {
            (b - a) as u128
        };
        proof {
            lemma_squared_distance_grows(sorted_a@, sorted_b@, index as int + 1, length as int);
            assert(gap * gap == (a - b) * (a - b)) by (nonlinear_arith)
                requires
                    gap == a - b || gap == b - a,
            ;
            lemma_squared_distance_grows(sorted_a@, sorted_b@, index as int, index as int);
        }
        difference = difference + gap * gap;
        index += 1;
    }
    difference
}

} // verus!
