use vstd::prelude::*;

verus! {

/// `i` is the first position at which `flags` holds `true`.
pub open spec fn is_first_true(flags: Seq<bool>, i: int) -> bool {
    &&& 0 <= i < flags.len()
    &&& flags[i]
    &&& forall|j: int| 0 <= j < i ==> !flags[j]
}

/// The first position at which `flags` holds `true`, if it holds one at all.
pub open spec fn first_true(flags: Seq<bool>) -> Option<int> {
    if exists|i: int| is_first_true(flags, i) {
        Some(choose|i: int| is_first_true(flags, i))
    } else {
        None
    }
}

/// `i` is the first position at which `values` is greatest: nothing in
/// `values` is above `values[i]`, and everything before it is below.
pub open spec fn is_first_max(values: Seq<int>, i: int) -> bool {
    &&& 0 <= i < values.len()
    &&& forall|j: int| 0 <= j < values.len() ==> values[j] <= values[i]
    &&& forall|j: int| 0 <= j < i ==> values[j] < values[i]
}

/// The first position at which `values` is greatest.
pub open spec fn first_max(values: Seq<int>) -> int {
    choose|i: int| is_first_max(values, i)
}

/// Only one position can be the first to hold `true`.
pub proof fn lemma_first_true_is(flags: Seq<bool>, i: int)
    requires
        is_first_true(flags, i),
    ensures
        first_true(flags) == Some(i),
{
    let k = choose|k: int| is_first_true(flags, k);
    if k < i {
        assert(!flags[k]);
    } else if i < k {
        assert(!flags[i]);
    }
}

/// Where no position holds `true`, there is no first one.
pub proof fn lemma_first_true_none(flags: Seq<bool>)
    requires
        forall|j: int| 0 <= j < flags.len() ==> !flags[j],
    ensures
        first_true(flags) is None,
{
}

/// `first_true` finds a position exactly when one holds `true`, and then it
/// is the first.
pub proof fn lemma_first_true(flags: Seq<bool>)
    ensures
        match first_true(flags) {
            Some(i) => is_first_true(flags, i),
            None => forall|j: int| 0 <= j < flags.len() ==> !flags[j],
        },
{
    if first_true(flags) is None {
        assert forall|j: int| 0 <= j < flags.len() implies !flags[j] by {
            if flags[j] {
                lemma_first_true_before(flags, j);
            }
        }
    }
}

proof fn lemma_first_true_before(flags: Seq<bool>, n: int)
    requires
        0 <= n < flags.len(),
        flags[n],
    ensures
        exists|i: int| is_first_true(flags, i),
    decreases n,
{
    if exists|j: int| 0 <= j < n && flags[j] {
        let j = choose|j: int| 0 <= j < n && flags[j];
        lemma_first_true_before(flags, j);
    } else {
        assert(is_first_true(flags, n));
    }
}

/// Only one position can be the first at which `values` is greatest.
pub proof fn lemma_first_max_is(values: Seq<int>, i: int)
    requires
        is_first_max(values, i),
    ensures
        first_max(values) == i,
{
    let k = first_max(values);
    if k < i {
        assert(values[k] < values[i]);
    } else if i < k {
        assert(values[i] < values[k]);
    }
}

proof fn lemma_first_max_of_prefix(values: Seq<int>, n: int) -> (i: int)
    requires
        0 < n <= values.len(),
    ensures
        0 <= i < n,
        forall|j: int| 0 <= j < n ==> values[j] <= values[i],
        forall|j: int| 0 <= j < i ==> values[j] < values[i],
    decreases n,
{
    if n == 1 {
        0
    } else {
        let before = lemma_first_max_of_prefix(values, n - 1);
        if values[n - 1] > values[before] {
            n - 1
        } else {
            before
        }
    }
}

/// A sequence that is not empty has a first position at which it is greatest.
pub proof fn lemma_first_max(values: Seq<int>)
    requires
        values.len() > 0,
    ensures
        is_first_max(values, first_max(values)),
{
    let i = lemma_first_max_of_prefix(values, values.len() as int);
    assert(is_first_max(values, i));
}

} // verus!
