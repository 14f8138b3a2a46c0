//! Gathering the results of the items of a list, up to the first failure.

use vstd::prelude::*;

verus! {

/// The values among `items`, or the first failure among them.
pub open spec fn collected<A, E>(items: Seq<Result<Option<A>, E>>) -> Result<Seq<A>, E>
    decreases items.len(),
{
    if items.len() == 0 {
        Ok(Seq::empty())
    } else {
        match (collected(items.drop_last()), items.last()) {
            (Err(error), _) => Err(error),
            (Ok(_), Err(error)) => Err(error),
            (Ok(values), Ok(None)) => Ok(values),
            (Ok(values), Ok(Some(value))) => Ok(values.push(value)),
        }
    }
}

/// How many of the first `n` items are values.
pub open spec fn rank<A, E>(items: Seq<Result<Option<A>, E>>, n: int) -> nat
    decreases n,
{
    if n <= 0 {
        0
    } else if items[n - 1] matches Ok(Some(_)) {
        rank(items, n - 1) + 1
    } else {
        rank(items, n - 1)
    }
}

/// What one more item adds.
pub proof fn lemma_step<A, E>(items: Seq<Result<Option<A>, E>>, i: int)
    requires
        0 <= i < items.len(),
    ensures
        collected(items.take(i + 1)) == (match (collected(items.take(i)), items[i]) {
            (Err(error), _) => Err(error),
            (Ok(_), Err(error)) => Err(error),
            (Ok(values), Ok(None)) => Ok(values),
            (Ok(values), Ok(Some(value))) => Ok(values.push(value)),
        }),
{
    assert(items.take(i + 1).drop_last() =~= items.take(i));
}

/// A failure among the first items is the failure of all.
pub proof fn lemma_failure<A, E>(items: Seq<Result<Option<A>, E>>, n: int)
    requires
        0 <= n <= items.len(),
        collected(items.take(n)) is Err,
    ensures
        collected(items) == collected(items.take(n)),
    decreases items.len() - n,
{
    if n == items.len() {
        assert(items.take(n) =~= items);
    } else {
        lemma_step(items, n);
        lemma_failure(items, n + 1);
    }
}

/// A failure of all is the failure of one of them.
pub proof fn lemma_failure_source<A, E>(items: Seq<Result<Option<A>, E>>)
    requires
        collected(items) is Err,
    ensures
        exists|i: int|
            0 <= i < items.len() && #[trigger] items[i] == Err::<Option<A>, _>(
                collected(items)->Err_0,
            ),
    decreases items.len(),
{
    let rest = items.drop_last();
    if collected(rest) is Err {
        lemma_failure_source(rest);
        let i = choose|i: int|
            0 <= i < rest.len() && #[trigger] rest[i] == Err::<Option<A>, _>(
                collected(rest)->Err_0,
            );
        assert(items[i] == rest[i]);
    } else {
        assert(items[items.len() - 1] is Err);
    }
}

/// Where nothing fails, the values are as many as there are among the items, and stand in their
/// order.
pub proof fn lemma_values<A, E>(items: Seq<Result<Option<A>, E>>)
    requires
        collected(items) is Ok,
    ensures
        collected(items)->Ok_0.len() == rank(items, items.len() as int),
        forall|i: int| 0 <= i < items.len() ==> (#[trigger] items[i]) is Ok,
        forall|i: int|
            0 <= i < items.len() && (#[trigger] items[i])->Ok_0 is Some ==> rank(items, i)
                < collected(items)->Ok_0.len() && collected(items)->Ok_0[rank(items, i) as int]
                == items[i]->Ok_0->Some_0,
    decreases items.len(),
{
    if items.len() > 0 {
        let n = items.len() - 1;
        let rest = items.drop_last();
        lemma_values(rest);
        lemma_rank_prefix(items, rest, n);
        assert forall|i: int| 0 <= i < items.len() implies (#[trigger] items[i]) is Ok by {
            if i < n {
                assert(rest[i] is Ok);
            }
        }
        assert forall|i: int|
            0 <= i < items.len() && (#[trigger] items[i])->Ok_0 is Some implies rank(items, i)
            < collected(items)->Ok_0.len() && collected(items)->Ok_0[rank(items, i) as int]
            == items[i]->Ok_0->Some_0 by {
            if i < n {
                assert(rest[i]->Ok_0 is Some);
                lemma_rank_prefix(items, rest, i);
            }
        }
    }
}

/// Where nothing fails and no item is without a value, each item gives a value.
pub proof fn lemma_all_values<A, E>(items: Seq<Result<Option<A>, E>>)
    requires
        collected(items) is Ok,
        forall|i: int|
            0 <= i < items.len() && (#[trigger] items[i]) is Ok ==> items[i]->Ok_0 is Some,
    ensures
        collected(items)->Ok_0.len() == items.len(),
        forall|i: int|
            0 <= i < items.len() ==> (#[trigger] items[i]) == Ok::<_, E>(
                Some(collected(items)->Ok_0[i]),
            ),
    decreases items.len(),
{
    if items.len() > 0 {
        let rest = items.drop_last();
        assert forall|i: int|
            0 <= i < rest.len() && (#[trigger] rest[i]) is Ok implies rest[i]->Ok_0 is Some by {
            assert(rest[i] == items[i]);
        }
        lemma_all_values(rest);
        assert(items[items.len() - 1] is Ok);
        assert forall|i: int| 0 <= i < items.len() implies (#[trigger] items[i]) == Ok::<_, E>(
            Some(collected(items)->Ok_0[i]),
        ) by {
            if i < rest.len() {
                assert(rest[i] == items[i]);
            }
        }
    }
}

/// Where no item fails or has a value, there are no values.
pub proof fn lemma_no_values<A, E>(items: Seq<Result<Option<A>, E>>)
    requires
        forall|i: int| 0 <= i < items.len() ==> (#[trigger] items[i]) == Ok::<Option<A>, E>(None),
    ensures
        collected(items) == Ok::<_, E>(Seq::<A>::empty()),
    decreases items.len(),
{
    if items.len() > 0 {
        let rest = items.drop_last();
        assert forall|i: int| 0 <= i < rest.len() implies (#[trigger] rest[i]) == Ok::<
            Option<A>,
            E,
        >(None) by {
            assert(rest[i] == items[i]);
        }
        lemma_no_values(rest);
        assert(items[items.len() - 1] == Ok::<Option<A>, E>(None));
    }
}

/// Counting in a shorter list gives the same.
proof fn lemma_rank_prefix<A, E>(
    items: Seq<Result<Option<A>, E>>,
    rest: Seq<Result<Option<A>, E>>,
    n: int,
)
    requires
        0 <= n <= rest.len() <= items.len(),
        forall|i: int| 0 <= i < rest.len() ==> rest[i] == items[i],
    ensures
        rank(items, n) == rank(rest, n),
    decreases n,
{
    if n > 0 {
        lemma_rank_prefix(items, rest, n - 1);
    }
}

/// Gathering succeeds where no item is a failure, and gives the values among the items, in their
/// order, and nothing else. Otherwise it gives the first failure.
pub proof fn law_collected<A, E>(items: Seq<Result<Option<A>, E>>)
    ensures
        collected(items) is Ok <==> forall|i: int|
            0 <= i < items.len() ==> (#[trigger] items[i]) is Ok,
        collected(items) matches Ok(values) ==> values == items.filter(
            |item: Result<Option<A>, E>| item is Ok && item->Ok_0 is Some,
        ).map_values(|item: Result<Option<A>, E>| item->Ok_0->Some_0),
        collected(items) matches Err(error) ==> exists|n: int|
            {
                &&& 0 <= n < items.len()
                &&& #[trigger] items[n] == Err::<Option<A>, _>(error)
                &&& forall|i: int| 0 <= i < n ==> (#[trigger] items[i]) is Ok
            },
    decreases items.len(),
{
    reveal(Seq::filter);
    let is_value = |item: Result<Option<A>, E>| item is Ok && item->Ok_0 is Some;
    let value = |item: Result<Option<A>, E>| item->Ok_0->Some_0;
    if items.len() > 0 {
        let rest = items.drop_last();
        let last = items[items.len() - 1];
        law_collected(rest);
        assert forall|i: int| 0 <= i < rest.len() implies #[trigger] rest[i] == items[i] by {
        }
        if collected(rest) is Err {
            let n = choose|n: int|
                {
                    &&& 0 <= n < rest.len()
                    &&& #[trigger] rest[n] == Err::<Option<A>, _>(collected(rest)->Err_0)
                    &&& forall|i: int| 0 <= i < n ==> (#[trigger] rest[i]) is Ok
                };
            assert(items[n] == rest[n]);
            assert forall|i: int| 0 <= i < n implies (#[trigger] items[i]) is Ok by {
                assert(rest[i] is Ok);
            }
        } else {
            assert forall|i: int| 0 <= i < rest.len() implies (#[trigger] items[i]) is Ok by {
                assert(rest[i] is Ok);
            }
            if is_value(last) {
                assert(items.filter(is_value).map_values(value) =~= rest.filter(
                    is_value,
                ).map_values(value).push(value(last)));
            }
            if collected(items) is Err {
                assert(items[items.len() - 1] is Err);
            }
        }
    } else {
        assert(items.filter(is_value).map_values(value) =~= Seq::empty());
    }
}

/// The rank of a position is the number of values before it.
pub proof fn law_rank<A, E>(items: Seq<Result<Option<A>, E>>, n: int)
    requires
        0 <= n <= items.len(),
    ensures
        rank(items, n) == items.take(n).filter(
            |item: Result<Option<A>, E>| item is Ok && item->Ok_0 is Some,
        ).len(),
    decreases n,
{
    reveal(Seq::filter);
    if n > 0 {
        law_rank(items, n - 1);
        assert(items.take(n).drop_last() =~= items.take(n - 1));
        assert(items.take(n).last() == items[n - 1]);
    }
}

} // verus!
