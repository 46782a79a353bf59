//! Sizes of what a state root task is configured with.

use vstd::prelude::*;

verus! {

/// The sum of the sizes.
pub open spec fn sum(sizes: Seq<usize>) -> nat
    decreases sizes.len(),
{
    if sizes.len() == 0 {
        0
    } else {
        sum(sizes.drop_last()) + sizes.last() as nat
    }
}

proof fn lemma_sum_grows(sizes: Seq<usize>, n: int)
    requires
        0 <= n <= sizes.len(),
    ensures
        sum(sizes.take(n)) <= sum(sizes),
    decreases sizes.len() - n,
{
    if n < sizes.len() {
        lemma_sum_grows(sizes, n + 1);
        assert(sizes.take(n + 1).drop_last() =~= sizes.take(n));
    } else {
        assert(sizes.take(n) =~= sizes);
    }
}

/// Adds up how many prefixes of each storage have changed; `None` if the sum does not fit.
pub fn storage_prefix_count(sizes: &Vec<usize>) -> (count: Option<usize>)
    ensures
        count == (if sum(sizes@) <= usize::MAX {
            Some(sum(sizes@) as usize)
        } else {
            None
        }),
{
    let mut count: usize = 0;
    let mut i: usize = 0;
    while i < sizes.len()
        invariant
            i <= sizes@.len(),
            count == sum(sizes@.take(i as int)),
        decreases sizes@.len() - i,
    {
        assert(sizes@.take(i + 1).drop_last() =~= sizes@.take(i as int));
        proof {
            lemma_sum_grows(sizes@, i + 1);
        }
        match count.checked_add(sizes[i]) {
            Some(next) => {
                count = next;
            },
            None => {
                return None;
            },
        }
        i = i + 1;
    }
    assert(sizes@.take(i as int) =~= sizes@);
    Some(count)
}

/// The sum of one size is the size, the sum of two rows is that of both put one behind the other,
/// and it does not depend on the order.
pub proof fn sums_add_up(a: Seq<usize>, b: Seq<usize>, size: usize)
    ensures
        sum(Seq::empty()) == 0,
        sum(seq![size]) == size,
        sum(a + b) == sum(a) + sum(b),
        sum(b + a) == sum(a + b),
{
    reveal_with_fuel(sum, 2);
    assert(seq![size].drop_last() =~= Seq::empty());
    lemma_sum_of_both(a, b);
    lemma_sum_of_both(b, a);
}

proof fn lemma_sum_of_both(a: Seq<usize>, b: Seq<usize>)
    ensures
        sum(a + b) == sum(a) + sum(b),
    decreases b.len(),
{
    if b.len() == 0 {
        assert(a + b =~= a);
    } else {
        lemma_sum_of_both(a, b.drop_last());
        assert((a + b).drop_last() =~= a + b.drop_last());
    }
}

} // verus!
