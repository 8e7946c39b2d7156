//! The aggregate size calculator: combines per-key size queries into a
//! prefix total when the backend exposes no native aggregate query.
//!
//! The per-key queries may be issued concurrently; their results arrive
//! here as a sequence. The first failure aborts the aggregate and
//! propagates that failure — no partial sum is returned.

use vstd::prelude::*;

verus! {

use crate::error::{BackendError, StorageError};

/// The sum of the reported sizes; a failed query contributes nothing.
pub open spec fn sum_of_sizes(results: Seq<Result<u64, BackendError>>) -> int
    decreases results.len(),
{
    if results.len() == 0 {
        0
    } else {
        sum_of_sizes(results.drop_last()) + (match results.last() {
            Ok(v) => v as int,
            Err(_) => 0,
        })
    }
}

/// Every per-key query succeeded.
pub open spec fn all_ok(results: Seq<Result<u64, BackendError>>) -> bool {
    forall|i: int| 0 <= i < results.len() ==> results[i] is Ok
}

/// No sum shrinks when more results are appended: every partial sum is
/// bounded by the total.
pub proof fn lemma_sum_prefix_bound(results: Seq<Result<u64, BackendError>>, i: int)
    requires
        0 <= i <= results.len(),
    ensures
        sum_of_sizes(results.take(i)) <= sum_of_sizes(results),
    decreases results.len() - i,
{
    if i == results.len() {
        assert(results.take(i) =~= results);
    } else {
        assert(results.drop_last().take(i) =~= results.take(i));
        lemma_sum_prefix_bound(results.drop_last(), i);
        assert(sum_of_sizes(results) >= sum_of_sizes(results.drop_last()));
    }
}

/// Sums the per-key size results, failing fast: the first failed query
/// aborts the aggregate with that failure's message, and a total beyond
/// the representable range is itself a failure rather than a wrong sum.
pub fn sum_size_results(results: &Vec<Result<u64, BackendError>>) -> (r: Result<u64, StorageError>)
    ensures
        (all_ok(results@) && sum_of_sizes(results@) <= u64::MAX) ==> (r matches Ok(t) && t
            == sum_of_sizes(results@)),
        !(all_ok(results@) && sum_of_sizes(results@) <= u64::MAX) ==> (r matches Err(e)
            && e is Other),
        forall|j: int|
            (0 <= j < results@.len() && !(#[trigger] results@[j] is Ok) && (forall|k: int|
                0 <= k < j ==> results@[k] is Ok) && sum_of_sizes(results@.take(j))
                <= u64::MAX) ==> (results@[j] matches Err(first) && (r matches Err(
                StorageError::Other(m),
            ) && m@ == first.message@)),
{
    let mut sum: u64 = 0;
    let mut i: usize = 0;
    while i < results.len()
        invariant
            i <= results@.len(),
            forall|j: int| 0 <= j < i ==> results@[j] is Ok,
            sum == sum_of_sizes(results@.take(i as int)),
        decreases results@.len() - i,
    {
        proof {
            assert(results@.take(i + 1).drop_last() =~= results@.take(i as int));
            assert(results@.take(i + 1).last() == results@[i as int]);
        }
        match &results[i] {
            Ok(v) => {
                if *v > u64::MAX - sum {
                    proof {
                        lemma_sum_prefix_bound(results@, i + 1);
                        // Any later first failure sits past a partial sum
                        // that already overflows, so the message clause
                        // asks nothing of this outcome.
                        assert forall|j: int|
                            i < j < results@.len() implies sum_of_sizes(results@.take(j))
                            > u64::MAX by {
                            assert(results@.take(j).take(i + 1) =~= results@.take(i + 1));
                            lemma_sum_prefix_bound(results@.take(j), i + 1);
                        }
                    }
                    return Err(StorageError::Other("the prefix size total overflows".to_owned()));
                }
                sum = sum + *v;
            },
            Err(e) => {
                proof {
                    assert(!all_ok(results@));
                    // This is the first failure: everything before it
                    // succeeded.
                    assert forall|j: int|
                        0 <= j < results@.len() && !(#[trigger] results@[j] is Ok) && (forall|
                            k: int,
                        |
                            0 <= k < j ==> results@[k] is Ok) implies j == i by {
                        if j < i {
                            assert(results@[j] is Ok);
                        }
                        if j > i {
                            assert(results@[i as int] is Ok);
                        }
                    }
                }
                return Err(StorageError::Other(e.message.clone()));
            },
        }
        i += 1;
    }
    proof {
        assert(results@.take(results@.len() as int) =~= results@);
    }
    Ok(sum)
}

} // verus!
