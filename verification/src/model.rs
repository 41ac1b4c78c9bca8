//! The mathematical model shared by both scheduling stages: duration sums
//! and occurrence counts over per-day patient lists, with the lemmas that
//! track them through list surgery.

use vstd::prelude::*;

use crate::instance::Patient;

verus! {

/// Total surgery duration, in minutes, of the patients listed in `l`.
pub open spec fn dur_sum(patients: Seq<Patient>, l: Seq<usize>) -> int
    decreases l.len(),
{
    if l.len() == 0 {
        0
    } else {
        patients[l[0] as int].surgery_duration + dur_sum(patients, l.drop_first())
    }
}

/// How often patient index `p` occurs in `l`.
pub open spec fn count_of(l: Seq<usize>, p: usize) -> int {
    l.to_multiset().count(p) as int
}

/// How often patient index `p` occurs over all lists.
pub open spec fn total_count(lists: Seq<Seq<usize>>, p: usize) -> int
    decreases lists.len(),
{
    if lists.len() == 0 {
        0
    } else {
        count_of(lists[0], p) + total_count(lists.drop_first(), p)
    }
}

/// Summed length of all lists.
pub open spec fn total_len(lists: Seq<Seq<usize>>) -> int
    decreases lists.len(),
{
    if lists.len() == 0 {
        0
    } else {
        lists[0].len() + total_len(lists.drop_first())
    }
}

/// Duration sums are sums of non-negative terms.
pub proof fn lemma_dur_sum_nonneg(patients: Seq<Patient>, l: Seq<usize>)
    ensures
        dur_sum(patients, l) >= 0,
    decreases l.len(),
{
    if l.len() > 0 {
        lemma_dur_sum_nonneg(patients, l.drop_first());
    }
}

/// Appending a patient adds its duration to the sum.
pub proof fn lemma_dur_sum_push(patients: Seq<Patient>, l: Seq<usize>, x: usize)
    ensures
        dur_sum(patients, l.push(x)) == dur_sum(patients, l)
            + patients[x as int].surgery_duration,
    decreases l.len(),
{
    if l.len() == 0 {
        assert(l.push(x).drop_first() =~= Seq::<usize>::empty());
        assert(dur_sum(patients, Seq::<usize>::empty()) == 0);
    } else {
        assert(l.push(x).drop_first() =~= l.drop_first().push(x));
        lemma_dur_sum_push(patients, l.drop_first(), x);
    }
}

/// Removing a patient subtracts its duration from the sum.
pub proof fn lemma_dur_sum_remove(patients: Seq<Patient>, l: Seq<usize>, i: int)
    requires
        0 <= i < l.len(),
    ensures
        dur_sum(patients, l.remove(i)) == dur_sum(patients, l)
            - patients[l[i] as int].surgery_duration,
    decreases l.len(),
{
    if i == 0 {
        assert(l.remove(0) =~= l.drop_first());
    } else {
        assert(l.remove(i).drop_first() =~= l.drop_first().remove(i - 1));
        lemma_dur_sum_remove(patients, l.drop_first(), i - 1);
    }
}

/// A listed patient's duration never exceeds the list's duration sum.
pub proof fn lemma_dur_sum_element(patients: Seq<Patient>, l: Seq<usize>, i: int)
    requires
        0 <= i < l.len(),
    ensures
        dur_sum(patients, l) >= patients[l[i] as int].surgery_duration,
{
    lemma_dur_sum_remove(patients, l, i);
    lemma_dur_sum_nonneg(patients, l.remove(i));
}

/// When every listed patient takes at least a minute, the sum bounds the
/// list's length from above.
pub proof fn lemma_dur_sum_min(patients: Seq<Patient>, l: Seq<usize>)
    requires
        forall|j: int| 0 <= j < l.len() ==> patients[#[trigger] l[j] as int].surgery_duration >= 1,
    ensures
        dur_sum(patients, l) >= l.len(),
    decreases l.len(),
{
    if l.len() > 0 {
        assert(forall|j: int|
            0 <= j < l.drop_first().len() ==> l.drop_first()[j] == l[j + 1]);
        lemma_dur_sum_min(patients, l.drop_first());
    }
}

/// Duration sums distribute over concatenation.
pub proof fn lemma_dur_sum_add(patients: Seq<Patient>, a: Seq<usize>, b: Seq<usize>)
    ensures
        dur_sum(patients, a + b) == dur_sum(patients, a) + dur_sum(patients, b),
    decreases a.len(),
{
    if a.len() == 0 {
        assert(a + b =~= b);
    } else {
        assert((a + b).drop_first() =~= a.drop_first() + b);
        lemma_dur_sum_add(patients, a.drop_first(), b);
    }
}

/// Duration sums split at any position.
pub proof fn lemma_dur_sum_split(patients: Seq<Patient>, l: Seq<usize>, k: int)
    requires
        0 <= k <= l.len(),
    ensures
        dur_sum(patients, l) == dur_sum(patients, l.take(k)) + dur_sum(patients, l.skip(k)),
{
    assert(l =~= l.take(k) + l.skip(k));
    lemma_dur_sum_add(patients, l.take(k), l.skip(k));
}

/// Lists with the same contents have the same duration sum.
pub proof fn lemma_dur_sum_permutation(patients: Seq<Patient>, a: Seq<usize>, b: Seq<usize>)
    requires
        a.to_multiset() == b.to_multiset(),
    ensures
        dur_sum(patients, a) == dur_sum(patients, b),
    decreases a.len(),
{
    vstd::seq_lib::to_multiset_len(a);
    vstd::seq_lib::to_multiset_len(b);
    if a.len() > 0 {
        let x = a[0];
        assert(a.contains(x));
        vstd::seq_lib::to_multiset_contains(a, x);
        vstd::seq_lib::to_multiset_contains(b, x);
        assert(b.contains(x));
        let idx = choose|idx: int| 0 <= idx < b.len() && b[idx] == x;
        lemma_dur_sum_remove(patients, b, idx);
        vstd::seq_lib::to_multiset_remove(b, idx);
        vstd::seq_lib::to_multiset_remove(a, 0);
        assert(a.remove(0) =~= a.drop_first());
        lemma_dur_sum_permutation(patients, a.drop_first(), b.remove(idx));
        lemma_dur_sum_remove(patients, a, 0);
    } else {
        assert(b.len() == 0);
    }
}

/// Occurrence counts are non-negative, and zero exactly when absent.
pub proof fn lemma_count_of(l: Seq<usize>, p: usize)
    ensures
        count_of(l, p) >= 0,
        count_of(l, p) > 0 <==> l.contains(p),
{
    vstd::seq_lib::to_multiset_contains(l, p);
}

/// Appending changes the count of exactly the appended index.
pub proof fn lemma_count_push(l: Seq<usize>, x: usize, p: usize)
    ensures
        count_of(l.push(x), p) == count_of(l, p) + if x == p { 1int } else { 0int },
{
    vstd::seq_lib::to_multiset_build(l, x);
}

/// Inserting changes the count of exactly the inserted index.
pub proof fn lemma_count_insert(l: Seq<usize>, i: int, x: usize, p: usize)
    requires
        0 <= i <= l.len(),
    ensures
        count_of(l.insert(i, x), p) == count_of(l, p) + if x == p { 1int } else { 0int },
{
    vstd::seq_lib::to_multiset_insert(l, i, x);
}

/// Removing changes the count of exactly the removed index.
pub proof fn lemma_count_remove(l: Seq<usize>, i: int, p: usize)
    requires
        0 <= i < l.len(),
    ensures
        count_of(l.remove(i), p) == count_of(l, p) - if l[i] == p { 1int } else { 0int },
{
    vstd::seq_lib::to_multiset_remove(l, i);
    vstd::seq_lib::to_multiset_contains(l, p);
    if l[i] == p {
        assert(l.contains(p));
    }
}

/// An empty list counts nothing.
pub proof fn lemma_count_empty(l: Seq<usize>, p: usize)
    requires
        l.len() == 0,
    ensures
        count_of(l, p) == 0,
{
    vstd::seq_lib::to_multiset_contains(l, p);
}

/// A list's count of its own `i`th element is at least one.
pub proof fn lemma_count_element(l: Seq<usize>, i: int)
    requires
        0 <= i < l.len(),
    ensures
        count_of(l, l[i]) >= 1,
{
    assert(l.contains(l[i]));
    vstd::seq_lib::to_multiset_contains(l, l[i]);
}

/// A non-empty list counts its head once more than its tail.
pub proof fn lemma_count_drop_first(l: Seq<usize>, p: usize)
    requires
        l.len() > 0,
    ensures
        count_of(l, p) == count_of(l.drop_first(), p) + if l[0] == p { 1int } else { 0int },
{
    assert(l =~= l.drop_first().insert(0, l[0]));
    vstd::seq_lib::to_multiset_insert(l.drop_first(), 0, l[0]);
}

/// The two collections of lists hold each patient equally often, up to the
/// extra pool `extra` beside `now`.
pub open spec fn counts_match(base: Seq<Seq<usize>>, now: Seq<Seq<usize>>, extra: Seq<usize>) -> bool {
    forall|p: usize| #[trigger] total_count(now, p) + count_of(extra, p) == total_count(base, p)
}

/// The two collections of lists hold each patient equally often.
pub open spec fn counts_same(base: Seq<Seq<usize>>, now: Seq<Seq<usize>>) -> bool {
    forall|p: usize| #[trigger] total_count(now, p) == total_count(base, p)
}

/// Totals of non-negative counts are non-negative.
pub proof fn lemma_total_count_nonneg(lists: Seq<Seq<usize>>, p: usize)
    ensures
        total_count(lists, p) >= 0,
    decreases lists.len(),
{
    if lists.len() > 0 {
        lemma_count_of(lists[0], p);
        lemma_total_count_nonneg(lists.drop_first(), p);
    }
}

/// Replacing one list shifts the total count by that list's difference.
pub proof fn lemma_total_count_update(lists: Seq<Seq<usize>>, d: int, l: Seq<usize>, p: usize)
    requires
        0 <= d < lists.len(),
    ensures
        total_count(lists.update(d, l), p) == total_count(lists, p) - count_of(lists[d], p)
            + count_of(l, p),
    decreases lists.len(),
{
    if d == 0 {
        assert(lists.update(0, l).drop_first() =~= lists.drop_first());
    } else {
        assert(lists.update(d, l).drop_first() =~= lists.drop_first().update(d - 1, l));
        assert(lists.update(d, l)[0] =~= lists[0]);
        lemma_total_count_update(lists.drop_first(), d - 1, l, p);
    }
}

/// Lists with pointwise equal counts have equal totals.
pub proof fn lemma_total_count_pointwise(a: Seq<Seq<usize>>, b: Seq<Seq<usize>>, p: usize)
    requires
        a.len() == b.len(),
        forall|d: int| 0 <= d < a.len() ==> count_of(#[trigger] a[d], p) == count_of(b[d], p),
    ensures
        total_count(a, p) == total_count(b, p),
    decreases a.len(),
{
    if a.len() > 0 {
        assert(forall|d: int|
            0 <= d < a.drop_first().len() ==> #[trigger] a.drop_first()[d] == a[d + 1]);
        assert(forall|d: int|
            0 <= d < b.drop_first().len() ==> #[trigger] b.drop_first()[d] == b[d + 1]);
        lemma_total_count_pointwise(a.drop_first(), b.drop_first(), p);
    }
}

/// A list that occurs somewhere is no longer than the total length.
pub proof fn lemma_total_len_component(lists: Seq<Seq<usize>>, d: int)
    requires
        0 <= d < lists.len(),
    ensures
        total_len(lists) >= lists[d].len(),
        total_len(lists) >= 0,
    decreases lists.len(),
{
    if d == 0 {
        lemma_total_len_nonneg(lists.drop_first());
    } else {
        lemma_total_len_component(lists.drop_first(), d - 1);
        assert(lists.drop_first()[d - 1] == lists[d]);
    }
}

/// Total lengths are non-negative.
pub proof fn lemma_total_len_nonneg(lists: Seq<Seq<usize>>)
    ensures
        total_len(lists) >= 0,
    decreases lists.len(),
{
    if lists.len() > 0 {
        lemma_total_len_nonneg(lists.drop_first());
    }
}

/// Replacing one list shifts the total length by that list's difference.
pub proof fn lemma_total_len_update(lists: Seq<Seq<usize>>, d: int, l: Seq<usize>)
    requires
        0 <= d < lists.len(),
    ensures
        total_len(lists.update(d, l)) == total_len(lists) - lists[d].len() + l.len(),
    decreases lists.len(),
{
    if d == 0 {
        assert(lists.update(0, l).drop_first() =~= lists.drop_first());
    } else {
        assert(lists.update(d, l).drop_first() =~= lists.drop_first().update(d - 1, l));
        assert(lists.update(d, l)[0] =~= lists[0]);
        lemma_total_len_update(lists.drop_first(), d - 1, l);
    }
}

} // verus!
