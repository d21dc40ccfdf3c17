//! Sums of counts.

use vstd::prelude::*;

verus! {

/// The sum of a list of counts.
pub open spec fn total(values: Seq<nat>) -> nat
    decreases values.len(),
{
    if values.len() == 0 {
        0
    } else {
        total(values.drop_last()) + values.last()
    }
}

/// One more count at the end adds that count to the sum.
pub proof fn lemma_total_push(values: Seq<nat>, value: nat)
    ensures
        total(values.push(value)) == total(values) + value,
{
    assert(values.push(value).drop_last() =~= values);
}

/// The sum of two lists put together is the sum of their sums, so counts
/// may be summed in groups of any size.
pub proof fn lemma_total_concat(first: Seq<nat>, second: Seq<nat>)
    ensures
        total(first + second) == total(first) + total(second),
    decreases second.len(),
{
    if second.len() == 0 {
        assert(first + second =~= first);
    } else {
        lemma_total_concat(first, second.drop_last());
        assert((first + second).drop_last() =~= first + second.drop_last());
    }
}

/// Taking one count out of a list takes that count out of the sum.
pub proof fn lemma_total_remove(values: Seq<nat>, at: int)
    requires
        0 <= at < values.len(),
    ensures
        total(values) == total(values.remove(at)) + values[at],
{
    let before = values.subrange(0, at);
    let after = values.subrange(at + 1, values.len() as int);
    assert(values =~= before.push(values[at]) + after);
    assert(values.remove(at) =~= before + after);
    lemma_total_concat(before.push(values[at]), after);
    lemma_total_concat(before, after);
    lemma_total_push(before, values[at]);
}

/// The order of the items does not matter to the sum of what they count:
/// two lists that hold the same items equally often give the same sum.
pub proof fn lemma_total_permutation<A>(first: Seq<A>, second: Seq<A>, count: spec_fn(A) -> nat)
    requires
        first.to_multiset() == second.to_multiset(),
    ensures
        total(first.map_values(count)) == total(second.map_values(count)),
    decreases first.len(),
{
    broadcast use vstd::seq_lib::group_to_multiset_ensures;

    vstd::seq_lib::to_multiset_len(first);
    vstd::seq_lib::to_multiset_len(second);
    if first.len() > 0 {
        let last = first.last();
        assert(first.to_multiset().count(last) > 0) by {
            assert(first.contains(last));
        }
        assert(second.contains(last));
        let at = second.index_of(last);
        assert(first.drop_last() =~= first.remove(first.len() - 1));
        vstd::seq_lib::to_multiset_remove(first, first.len() - 1);
        vstd::seq_lib::to_multiset_remove(second, at);
        lemma_total_permutation(first.drop_last(), second.remove(at), count);
        lemma_total_remove(second.map_values(count), at);
        assert(second.map_values(count).remove(at) =~= second.remove(at).map_values(count));
        assert(first.map_values(count).drop_last() =~= first.drop_last().map_values(count));
    }
}

} // verus!
