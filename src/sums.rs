//! Sums of a per-record contribution over a table of records, and of the
//! amounts of a batch.
use vstd::prelude::*;

verus! {

/// The sum of `f` over the records of `s`.
pub open spec fn sum_of<T>(s: Seq<T>, f: spec_fn(T) -> int) -> int
    decreases s.len(),
{
    if s.len() == 0 {
        0
    } else {
        sum_of(s.drop_last(), f) + f(s.last())
    }
}

pub proof fn lemma_sum_push<T>(s: Seq<T>, x: T, f: spec_fn(T) -> int)
    ensures
        sum_of(s.push(x), f) == sum_of(s, f) + f(x),
{
    assert(s.push(x).drop_last() =~= s);
}

pub proof fn lemma_sum_update<T>(s: Seq<T>, i: int, x: T, f: spec_fn(T) -> int)
    requires
        0 <= i < s.len(),
    ensures
        sum_of(s.update(i, x), f) == sum_of(s, f) - f(s[i]) + f(x),
    decreases s.len(),
{
    if i == s.len() - 1 {
        assert(s.update(i, x).drop_last() =~= s.drop_last());
    } else {
        assert(s.update(i, x).drop_last() =~= s.drop_last().update(i, x));
        lemma_sum_update(s.drop_last(), i, x, f);
    }
}

/// With no record contributing but the one at `i`, the sum is its contribution.
pub proof fn lemma_sum_single<T>(s: Seq<T>, i: int, f: spec_fn(T) -> int)
    requires
        0 <= i < s.len(),
        forall|j: int| 0 <= j < s.len() && j != i ==> f(#[trigger] s[j]) == 0,
    ensures
        sum_of(s, f) == f(s[i]),
    decreases s.len(),
{
    if i == s.len() - 1 {
        lemma_sum_zero(s.drop_last(), f);
    } else {
        lemma_sum_single(s.drop_last(), i, f);
    }
}

/// With no record contributing, the sum is zero.
pub proof fn lemma_sum_zero<T>(s: Seq<T>, f: spec_fn(T) -> int)
    requires
        forall|j: int| 0 <= j < s.len() ==> f(#[trigger] s[j]) == 0,
    ensures
        sum_of(s, f) == 0,
    decreases s.len(),
{
    if s.len() > 0 {
        lemma_sum_zero(s.drop_last(), f);
    }
}

/// With no contribution negative, each record's contribution is at most the sum.
pub proof fn lemma_sum_bounds_part<T>(s: Seq<T>, i: int, f: spec_fn(T) -> int)
    requires
        0 <= i < s.len(),
        forall|j: int| 0 <= j < s.len() ==> f(#[trigger] s[j]) >= 0,
    ensures
        f(s[i]) <= sum_of(s, f),
    decreases s.len(),
{
    lemma_sum_nonneg(s.drop_last(), f);
    if i < s.len() - 1 {
        lemma_sum_bounds_part(s.drop_last(), i, f);
    }
}

pub proof fn lemma_sum_nonneg<T>(s: Seq<T>, f: spec_fn(T) -> int)
    requires
        forall|j: int| 0 <= j < s.len() ==> f(#[trigger] s[j]) >= 0,
    ensures
        sum_of(s, f) >= 0,
    decreases s.len(),
{
    if s.len() > 0 {
        lemma_sum_nonneg(s.drop_last(), f);
    }
}

/// The sum of the first `n` amounts.
pub open spec fn amount_sum(amounts: Seq<u128>, n: int) -> int
    decreases n,
{
    if n <= 0 {
        0
    } else {
        amount_sum(amounts, n - 1) + amounts[n - 1]
    }
}

/// The sum of the amounts among the first `n` pairs whose project is `p`.
pub open spec fn attributed(ids: Seq<u64>, amounts: Seq<u128>, n: int, p: u64) -> int
    decreases n,
{
    if n <= 0 {
        0
    } else {
        attributed(ids, amounts, n - 1, p) + (if ids[n - 1] == p { amounts[n - 1] as int } else { 0 })
    }
}

pub proof fn lemma_amount_sum_mono(amounts: Seq<u128>, m: int, n: int)
    requires
        0 <= m <= n,
    ensures
        0 <= amount_sum(amounts, m) <= amount_sum(amounts, n),
    decreases n,
{
    if m < n {
        lemma_amount_sum_mono(amounts, m, n - 1);
    } else if n > 0 {
        lemma_amount_sum_mono(amounts, n - 1, n - 1);
    }
}

pub proof fn lemma_attributed_mono(ids: Seq<u64>, amounts: Seq<u128>, m: int, n: int, p: u64)
    requires
        0 <= m <= n,
    ensures
        0 <= attributed(ids, amounts, m, p) <= attributed(ids, amounts, n, p),
    decreases n,
{
    if m < n {
        lemma_attributed_mono(ids, amounts, m, n - 1, p);
    } else if n > 0 {
        lemma_attributed_mono(ids, amounts, n - 1, n - 1, p);
    }
}

} // verus!
