//! Seeding of the per-surgeon, per-day patient lists: every patient starts at
//! its release day under its own surgeon, and each day's list is kept in the
//! canonical order (earlier due day first, longer surgery first among equal
//! due days, lower index first among full ties).

use vstd::prelude::*;

use crate::instance::{Instance, Patient, instance_valid, surgeon_of};
use crate::instance::find_surgeon;
use crate::model::{count_of, lemma_count_push, lemma_count_empty, lemma_count_element, lemma_count_of};

verus! {

/// The per-day list of every day of every surgeon, as mathematical sequences.
pub open spec fn day_views(v: Seq<Vec<usize>>) -> Seq<Seq<usize>> {
    v.map_values(|l: Vec<usize>| l@)
}

/// Patient `a` may stand before patient `b` within one day's list: strictly
/// earlier due day; or the same due day and a strictly longer surgery; or a
/// full tie broken by patient index.
pub open spec fn slot_le(patients: Seq<Patient>, a: usize, b: usize) -> bool {
    let pa = patients[a as int];
    let pb = patients[b as int];
    ||| pa.surgery_due_day < pb.surgery_due_day
    ||| (pa.surgery_due_day == pb.surgery_due_day && pa.surgery_duration > pb.surgery_duration)
    ||| (pa.surgery_due_day == pb.surgery_due_day && pa.surgery_duration == pb.surgery_duration
        && a <= b)
}

/// A day's list is sorted in the canonical order.
pub open spec fn slot_sorted(patients: Seq<Patient>, l: Seq<usize>) -> bool {
    forall|i: int, j: int| 0 <= i < j < l.len() ==> slot_le(patients, l[i], l[j])
}

/// Decides `slot_le` on two listed patients.
pub fn slot_le_exec(patients: &Vec<Patient>, a: usize, b: usize) -> (r: bool)
    requires
        a < patients@.len(),
        b < patients@.len(),
    ensures
        r == slot_le(patients@, a, b),
{
    let pa = &patients[a];
    let pb = &patients[b];
    if pa.surgery_due_day < pb.surgery_due_day {
        true
    } else if pa.surgery_due_day == pb.surgery_due_day {
        if pa.surgery_duration > pb.surgery_duration {
            true
        } else if pa.surgery_duration == pb.surgery_duration {
            a <= b
        } else {
            false
        }
    } else {
        false
    }
}

/// Inserting an element at the position an insertion sort chooses keeps the
/// sorted prefix sorted.
proof fn lemma_sorted_insert(patients: Seq<Patient>, l: Seq<usize>, i: int, k: int, x: usize)
    requires
        0 <= k <= i <= l.len(),
        slot_sorted(patients, l.take(i)),
        forall|j: int| 0 <= j < k ==> slot_le(patients, #[trigger] l[j], x),
        k < i ==> !slot_le(patients, l[k], x),
    ensures
        slot_sorted(patients, l.insert(k, x).take(i + 1)),
{
    l.insert_ensures(k, x);
    let nl = l.insert(k, x);
    assert(nl.len() == l.len() + 1);
    assert(nl[k] == x);
    assert forall|j: int| k < j < nl.len() implies #[trigger] nl[j] == l[j - 1] by {
        assert(nl[(j - 1) + 1] == l[j - 1]);
    }
    assert forall|p: int, q: int| 0 <= p < q <= i implies slot_le(patients, nl[p], nl[q]) by {
        if k < i {
            assert(slot_le(patients, x, l[k]));
        }
        if q < k {
            assert(slot_le(patients, l.take(i)[p], l.take(i)[q]));
            assert(l.take(i)[p] == l[p]);
            assert(l.take(i)[q] == l[q]);
        } else if q == k {
            assert(nl[p] == l[p]);
            assert(slot_le(patients, l[p], x));
        } else if p == k {
            assert(nl[q] == l[q - 1]);
            if q - 1 > k {
                assert(slot_le(patients, l.take(i)[k], l.take(i)[q - 1]));
                assert(l.take(i)[k] == l[k]);
                assert(l.take(i)[q - 1] == l[q - 1]);
            }
        } else if p < k {
            assert(nl[p] == l[p]);
            assert(nl[q] == l[q - 1]);
            assert(slot_le(patients, l.take(i)[p], l.take(i)[q - 1]));
            assert(l.take(i)[p] == l[p]);
            assert(l.take(i)[q - 1] == l[q - 1]);
        } else {
            assert(nl[p] == l[p - 1]);
            assert(nl[q] == l[q - 1]);
            assert(slot_le(patients, l.take(i)[p - 1], l.take(i)[q - 1]));
            assert(l.take(i)[p - 1] == l[p - 1]);
            assert(l.take(i)[q - 1] == l[q - 1]);
        }
    }
    let pre = nl.take(i + 1);
    assert forall|p: int, q: int| 0 <= p < q < pre.len() implies slot_le(patients, pre[p], pre[q]) by {
        assert(pre[p] == nl[p]);
        assert(pre[q] == nl[q]);
    }
}

/// Sorts one day's list into the canonical order by insertion, leaving its
/// contents unchanged as a multiset.
pub fn sort_patients_in_slot(patients: &Vec<Patient>, list: &mut Vec<usize>)
    requires
        forall|j: int| 0 <= j < old(list)@.len() ==> #[trigger] old(list)@[j] < patients@.len(),
    ensures
        final(list)@.len() == old(list)@.len(),
        final(list)@.to_multiset() == old(list)@.to_multiset(),
        slot_sorted(patients@, final(list)@),
        forall|j: int| 0 <= j < final(list)@.len() ==> #[trigger] final(list)@[j] < patients@.len(),
{
    if list.len() <= 1 {
        return;
    }
    let n = list.len();
    let mut i: usize = 1;
    while i < n
        invariant
            1 <= i <= n,
            n == list@.len(),
            list@.to_multiset() == old(list)@.to_multiset(),
            forall|j: int| 0 <= j < list@.len() ==> #[trigger] list@[j] < patients@.len(),
            slot_sorted(patients@, list@.take(i as int)),
        decreases n - i,
    {
        let ghost before = list@;
        let x = list.remove(i);
        proof {
            vstd::seq_lib::to_multiset_remove(before, i as int);
            assert(list@.take(i as int) =~= before.take(i as int));
            assert(slot_sorted(patients@, list@.take(i as int)));
        }
        let mut k: usize = 0;
        while k < i && slot_le_exec(patients, list[k], x)
            invariant
                0 <= k <= i < n,
                n == list@.len() + 1,
                list@ == before.remove(i as int),
                x == before[i as int],
                x < patients@.len(),
                slot_sorted(patients@, list@.take(i as int)),
                forall|j: int| 0 <= j < list@.len() ==> #[trigger] list@[j] < patients@.len(),
                forall|j: int| 0 <= j < k ==> slot_le(patients@, #[trigger] list@[j], x),
            decreases i - k,
        {
            k = k + 1;
        }
        let ghost removed = list@;
        list.insert(k, x);
        proof {
            broadcast use vstd::multiset::group_multiset_axioms;

            vstd::seq_lib::to_multiset_insert(removed, k as int, x);
            assert(before.contains(before[i as int]));
            vstd::seq_lib::to_multiset_contains(before, x);
            assert(list@.to_multiset() =~= before.to_multiset());
            lemma_sorted_insert(patients@, removed, i as int, k as int, x);
            removed.insert_ensures(k as int, x);
        }
        i = i + 1;
    }
    proof {
        assert(list@.take(n as int) =~= list@);
    }
}

/// Appends patient `i` to the day-`d` list of surgeon `s`, leaving every
/// other list untouched.
fn push_slot(r: &mut Vec<Vec<Vec<usize>>>, s: usize, d: usize, i: usize)
    requires
        s < old(r)@.len(),
        d < old(r)@[s as int]@.len(),
    ensures
        final(r)@.len() == old(r)@.len(),
        forall|a: int| 0 <= a < final(r)@.len() ==> (#[trigger] final(r)@[a])@.len()
            == old(r)@[a]@.len(),
        forall|a: int, b: int|
            0 <= a < final(r)@.len() && 0 <= b < final(r)@[a]@.len() && !(a == s as int && b
                == d as int) ==> (#[trigger] final(r)@[a]@[b])@ == old(r)@[a]@[b]@,
        final(r)@[s as int]@[d as int]@ == old(r)@[s as int]@[d as int]@.push(i),
{
    let ghost old_r = r@;
    let row = &mut r[s];
    let slot = &mut row[d];
    slot.push(i);
    proof {
        assert forall|a: int, b: int|
            0 <= a < r@.len() && 0 <= b < r@[a]@.len() && !(a == s as int && b == d as int)
            implies (#[trigger] r@[a]@[b])@ == old_r[a]@[b]@ by {}
    }
}

/// Sorts the day-`d` list of surgeon `s` in place, leaving every other list
/// untouched.
fn sort_slot(patients: &Vec<Patient>, r: &mut Vec<Vec<Vec<usize>>>, s: usize, d: usize)
    requires
        s < old(r)@.len(),
        d < old(r)@[s as int]@.len(),
        forall|j: int|
            0 <= j < old(r)@[s as int]@[d as int]@.len() ==> #[trigger] old(
                r,
            )@[s as int]@[d as int]@[j] < patients@.len(),
    ensures
        final(r)@.len() == old(r)@.len(),
        forall|a: int| 0 <= a < final(r)@.len() ==> (#[trigger] final(r)@[a])@.len()
            == old(r)@[a]@.len(),
        forall|a: int, b: int|
            0 <= a < final(r)@.len() && 0 <= b < final(r)@[a]@.len() && !(a == s as int && b
                == d as int) ==> (#[trigger] final(r)@[a]@[b])@ == old(r)@[a]@[b]@,
        final(r)@[s as int]@[d as int]@.to_multiset() == old(r)@[s as int]@[d as int]@.to_multiset(),
        final(r)@[s as int]@[d as int]@.len() == old(r)@[s as int]@[d as int]@.len(),
        slot_sorted(patients@, final(r)@[s as int]@[d as int]@),
{
    let ghost old_r = r@;
    let row = &mut r[s];
    let slot = &mut row[d];
    sort_patients_in_slot(patients, slot);
    proof {
        assert forall|a: int, b: int|
            0 <= a < r@.len() && 0 <= b < r@[a]@.len() && !(a == s as int && b == d as int)
            implies (#[trigger] r@[a]@[b])@ == old_r[a]@[b]@ by {}
    }
}

/// Seeds every patient at its release day under the first surgeon carrying
/// its surgeon id, each day's list in the canonical order.
pub fn prelim_day_assignment(instance: &Instance) -> (r: Vec<Vec<Vec<usize>>>)
    requires
        instance_valid(*instance),
    ensures
        r@.len() == instance.surgeons@.len(),
        forall|s: int| 0 <= s < r@.len() ==> (#[trigger] r@[s])@.len() == instance.days,
        forall|s: int, d: int, j: int|
            0 <= s < r@.len() && 0 <= d < instance.days && 0 <= j < r@[s]@[d]@.len() ==> {
                let i = (#[trigger] r@[s]@[d]@[j]) as int;
                &&& 0 <= i < instance.patients@.len()
                &&& surgeon_of(instance.surgeons@, instance.patients@[i].surgeon_id@) == s
                &&& instance.patients@[i].surgery_release_day == d
            },
        forall|s: int, d: int|
            0 <= s < r@.len() && 0 <= d < instance.days ==> slot_sorted(
                instance.patients@,
                (#[trigger] r@[s]@[d])@,
            ),
        forall|s: int, d: int, p: usize|
            0 <= s < r@.len() && 0 <= d < instance.days ==> #[trigger] count_of(r@[s]@[d]@, p)
                == if p < instance.patients@.len()
                    && surgeon_of(instance.surgeons@, instance.patients@[p as int].surgeon_id@) == s
                    && instance.patients@[p as int].surgery_release_day == d {
                    1int
                } else {
                    0int
                },
{
    let ns = instance.surgeons.len();
    let np = instance.patients.len();
    let mut r: Vec<Vec<Vec<usize>>> = Vec::new();
    let mut s: usize = 0;
    while s < ns
        invariant
            0 <= s <= ns,
            r@.len() == s,
            forall|a: int| 0 <= a < s ==> (#[trigger] r@[a])@.len() == instance.days,
            forall|a: int, d: int|
                0 <= a < s && 0 <= d < instance.days ==> (#[trigger] r@[a]@[d])@.len() == 0,
        decreases ns - s,
    {
        let mut row: Vec<Vec<usize>> = Vec::new();
        let mut d: usize = 0;
        while d < instance.days
            invariant
                0 <= d <= instance.days,
                row@.len() == d,
                forall|b: int| 0 <= b < d ==> (#[trigger] row@[b])@.len() == 0,
            decreases instance.days - d,
        {
            row.push(Vec::new());
            d = d + 1;
        }
        r.push(row);
        s = s + 1;
    }
    proof {
        assert forall|a: int, d: int, p: usize|
            0 <= a < ns && 0 <= d < instance.days implies #[trigger] count_of(r@[a]@[d]@, p)
            == 0 by {
            lemma_count_empty(r@[a]@[d]@, p);
        }
    }
    let mut i: usize = 0;
    while i < np
        invariant
            instance_valid(*instance),
            0 <= i <= np,
            np == instance.patients@.len(),
            ns == instance.surgeons@.len(),
            r@.len() == ns,
            forall|a: int| 0 <= a < ns ==> (#[trigger] r@[a])@.len() == instance.days,
            forall|a: int, d: int, j: int|
                0 <= a < ns && 0 <= d < instance.days && 0 <= j < r@[a]@[d]@.len() ==> {
                    let q = (#[trigger] r@[a]@[d]@[j]) as int;
                    &&& 0 <= q < i
                    &&& surgeon_of(instance.surgeons@, instance.patients@[q].surgeon_id@) == a
                    &&& instance.patients@[q].surgery_release_day == d
                },
            forall|a: int, d: int, p: usize|
                0 <= a < ns && 0 <= d < instance.days ==> #[trigger] count_of(r@[a]@[d]@, p)
                    == if p < i
                        && surgeon_of(instance.surgeons@, instance.patients@[p as int].surgeon_id@)
                            == a && instance.patients@[p as int].surgery_release_day == d {
                        1int
                    } else {
                        0int
                    },
        decreases np - i,
    {
        let sid = find_surgeon(&instance.surgeons, &instance.patients[i].surgeon_id);
        let day = instance.patients[i].surgery_release_day;
        let ghost old_r = r@;
        push_slot(&mut r, sid, day, i);
        proof {
            assert forall|a: int, d: int, p: usize|
                0 <= a < ns && 0 <= d < instance.days implies #[trigger] count_of(r@[a]@[d]@, p)
                == if p < i + 1
                    && surgeon_of(instance.surgeons@, instance.patients@[p as int].surgeon_id@)
                        == a && instance.patients@[p as int].surgery_release_day == d {
                    1int
                } else {
                    0int
                } by {
                if a == sid as int && d == day as int {
                    lemma_count_push(old_r[a]@[d]@, i, p);
                }
            }
        }
        i = i + 1;
    }
    // bring each day's list into the canonical order
    let mut s2: usize = 0;
    while s2 < ns
        invariant
            0 <= s2 <= ns,
            ns == instance.surgeons@.len(),
            np == instance.patients@.len(),
            instance.days >= 1,
            r@.len() == ns,
            forall|a: int| 0 <= a < ns ==> (#[trigger] r@[a])@.len() == instance.days,
            forall|a: int, d: int, j: int|
                0 <= a < ns && 0 <= d < instance.days && 0 <= j < r@[a]@[d]@.len() ==> {
                    let q = (#[trigger] r@[a]@[d]@[j]) as int;
                    &&& 0 <= q < np
                    &&& surgeon_of(instance.surgeons@, instance.patients@[q].surgeon_id@) == a
                    &&& instance.patients@[q].surgery_release_day == d
                },
            forall|a: int, d: int, p: usize|
                0 <= a < ns && 0 <= d < instance.days ==> #[trigger] count_of(r@[a]@[d]@, p)
                    == if p < np
                        && surgeon_of(instance.surgeons@, instance.patients@[p as int].surgeon_id@)
                            == a && instance.patients@[p as int].surgery_release_day == d {
                        1int
                    } else {
                        0int
                    },
            forall|a: int, d: int|
                0 <= a < s2 && 0 <= d < instance.days ==> slot_sorted(
                    instance.patients@,
                    (#[trigger] r@[a]@[d])@,
                ),
        decreases ns - s2,
    {
        let mut d2: usize = 0;
        while d2 < instance.days
            invariant
                0 <= s2 < ns,
                0 <= d2 <= instance.days,
                ns == instance.surgeons@.len(),
                np == instance.patients@.len(),
                r@.len() == ns,
                forall|a: int| 0 <= a < ns ==> (#[trigger] r@[a])@.len() == instance.days,
                forall|a: int, d: int, j: int|
                    0 <= a < ns && 0 <= d < instance.days && 0 <= j < r@[a]@[d]@.len() ==> {
                        let q = (#[trigger] r@[a]@[d]@[j]) as int;
                        &&& 0 <= q < np
                        &&& surgeon_of(instance.surgeons@, instance.patients@[q].surgeon_id@) == a
                        &&& instance.patients@[q].surgery_release_day == d
                    },
                forall|a: int, d: int, p: usize|
                    0 <= a < ns && 0 <= d < instance.days ==> #[trigger] count_of(r@[a]@[d]@, p)
                        == if p < np
                            && surgeon_of(
                                instance.surgeons@,
                                instance.patients@[p as int].surgeon_id@,
                            ) == a && instance.patients@[p as int].surgery_release_day == d {
                            1int
                        } else {
                            0int
                        },
                forall|a: int, d: int|
                    0 <= a < s2 && 0 <= d < instance.days ==> slot_sorted(
                        instance.patients@,
                        (#[trigger] r@[a]@[d])@,
                    ),
                forall|d: int|
                    0 <= d < d2 ==> slot_sorted(instance.patients@, (#[trigger] r@[s2 as int]@[d])@),
            decreases instance.days - d2,
        {
            let ghost old_r = r@;
            sort_slot(&instance.patients, &mut r, s2, d2);
            proof {
                assert forall|a: int, d: int, p: usize|
                    0 <= a < ns && 0 <= d < instance.days implies #[trigger] count_of(
                    r@[a]@[d]@,
                    p,
                ) == count_of(old_r[a]@[d]@, p) by {}
                assert forall|a: int, d: int, j: int|
                    0 <= a < ns && 0 <= d < instance.days && 0 <= j < r@[a]@[d]@.len() implies {
                    let q = (#[trigger] r@[a]@[d]@[j]) as int;
                    &&& 0 <= q < np
                    &&& surgeon_of(instance.surgeons@, instance.patients@[q].surgeon_id@) == a
                    &&& instance.patients@[q].surgery_release_day == d
                } by {
                    let l = r@[a]@[d]@;
                    let q = l[j];
                    if a == s2 as int && d == d2 as int {
                        lemma_count_element(l, j);
                        lemma_count_of(old_r[a]@[d]@, q);
                        let ol = old_r[a]@[d]@;
                        assert(count_of(ol, q) >= 1);
                        assert(ol.contains(q));
                        let jj = choose|jj: int| 0 <= jj < ol.len() && ol[jj] == q;
                        assert(ol[jj] == q);
                    }
                }
            }
            d2 = d2 + 1;
        }
        s2 = s2 + 1;
    }
    r
}

} // verus!
