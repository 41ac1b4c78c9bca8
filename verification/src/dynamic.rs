//! The day-forward bumping strategy for one surgeon: walk the days upward,
//! and whenever a day's load exceeds the surgeon's budget, move patients that
//! may still wait (their due day lies further ahead) onto the next day and
//! solve the remainder recursively, undoing the move when that fails.

use vstd::prelude::*;

use crate::ScheduleError;
use crate::instance::{Instance, Patient, instance_valid};
use crate::model::{
    count_of, counts_match, counts_same, dur_sum, lemma_count_drop_first, lemma_count_empty,
    lemma_count_insert, lemma_count_remove, lemma_dur_sum_element, lemma_dur_sum_push,
    lemma_dur_sum_remove, lemma_total_count_update, lemma_total_len_component,
    lemma_total_len_update, total_count, total_len,
};
use crate::prelim::day_views;

verus! {

/// Every listed patient index is in range and admissible on its day: the day
/// lies between the patient's release and due days.
pub open spec fn lists_wf(patients: Seq<Patient>, lists: Seq<Seq<usize>>) -> bool {
    forall|d: int, j: int|
        0 <= d < lists.len() && 0 <= j < lists[d].len() ==> {
            let i = (#[trigger] lists[d][j]) as int;
            &&& 0 <= i < patients.len()
            &&& patients[i].surgery_release_day <= d
            &&& d <= patients[i].surgery_due_day
        }
}

/// Every day from `from` onward fits its capacity.
pub open spec fn caps_ok_from(
    patients: Seq<Patient>,
    capacity: Seq<u16>,
    lists: Seq<Seq<usize>>,
    from: int,
) -> bool {
    forall|d: int|
        from <= d < lists.len() ==> dur_sum(patients, #[trigger] lists[d]) <= capacity[d]
}

/// The surgery time of the listed patients whose due day is at most `d`:
/// the load that no bumping can move past day `d`.
pub open spec fn dur_sum_due(patients: Seq<Patient>, l: Seq<usize>, d: int) -> int
    decreases l.len(),
{
    if l.len() == 0 {
        0
    } else {
        (if patients[l[0] as int].surgery_due_day <= d {
            patients[l[0] as int].surgery_duration as int
        } else {
            0
        }) + dur_sum_due(patients, l.drop_first(), d)
    }
}

/// When every listed patient is due by `d`, the restriction changes nothing.
proof fn lemma_dur_sum_due_all(patients: Seq<Patient>, l: Seq<usize>, d: int)
    requires
        forall|j: int|
            0 <= j < l.len() ==> patients[(#[trigger] l[j]) as int].surgery_due_day <= d,
    ensures
        dur_sum_due(patients, l, d) == dur_sum(patients, l),
    decreases l.len(),
{
    if l.len() > 0 {
        assert(forall|j: int| 0 <= j < l.drop_first().len() ==> l.drop_first()[j] == l[j + 1]);
        lemma_dur_sum_due_all(patients, l.drop_first(), d);
    }
}

/// Inserting a patient due after `d` leaves the restricted sum unchanged.
proof fn lemma_dur_sum_due_insert_late(
    patients: Seq<Patient>,
    l: Seq<usize>,
    i: int,
    x: usize,
    d: int,
)
    requires
        0 <= i <= l.len(),
        patients[x as int].surgery_due_day > d,
    ensures
        dur_sum_due(patients, l.insert(i, x), d) == dur_sum_due(patients, l, d),
    decreases l.len(),
{
    if i == 0 {
        assert(l.insert(0, x).drop_first() =~= l);
    } else {
        assert(l.insert(i, x).drop_first() =~= l.drop_first().insert(i - 1, x));
        lemma_dur_sum_due_insert_late(patients, l.drop_first(), i - 1, x, d);
    }
}

/// Sums the listed patients' surgery durations in minutes.
pub fn day_duration_sum(patients: &Vec<Patient>, list: &Vec<usize>) -> (s: u64)
    requires
        forall|j: int| 0 <= j < list@.len() ==> (#[trigger] list@[j]) < patients@.len(),
        list@.len() <= 0x1000_0000_0000,
    ensures
        s == dur_sum(patients@, list@),
{
    let mut s: u64 = 0;
    let mut j: usize = 0;
    while j < list.len()
        invariant
            0 <= j <= list@.len(),
            list@.len() <= 0x1000_0000_0000,
            forall|t: int| 0 <= t < list@.len() ==> (#[trigger] list@[t]) < patients@.len(),
            s == dur_sum(patients@, list@.take(j as int)),
            s <= 65535 * j,
        decreases list@.len() - j,
    {
        proof {
            assert(list@.take(j as int + 1) =~= list@.take(j as int).push(list@[j as int]));
            lemma_dur_sum_push(patients@, list@.take(j as int), list@[j as int]);
        }
        s = s + patients[list[j]].surgery_duration as u64;
        j = j + 1;
    }
    proof {
        assert(list@.take(list@.len() as int) =~= list@);
    }
    s
}

/// Removes position `j` from day `d`'s list, returning the patient index
/// that stood there and leaving every other day untouched.
fn slot_remove(lists: &mut Vec<Vec<usize>>, d: usize, j: usize) -> (x: usize)
    requires
        d < old(lists)@.len(),
        j < old(lists)@[d as int]@.len(),
    ensures
        final(lists)@.len() == old(lists)@.len(),
        forall|b: int|
            0 <= b < final(lists)@.len() && b != d as int ==> (#[trigger] final(lists)@[b])@
                == old(lists)@[b]@,
        final(lists)@[d as int]@ == old(lists)@[d as int]@.remove(j as int),
        x == old(lists)@[d as int]@[j as int],
        day_views(final(lists)@) == day_views(old(lists)@).update(
            d as int,
            old(lists)@[d as int]@.remove(j as int),
        ),
{
    let ghost old_l = lists@;
    let slot = &mut lists[d];
    let x = slot.remove(j);
    proof {
        assert forall|b: int| 0 <= b < lists@.len() && b != d as int implies (
        #[trigger] lists@[b])@ == old_l[b]@ by {}
        assert(day_views(lists@) =~= day_views(old_l).update(
            d as int,
            old_l[d as int]@.remove(j as int),
        ));
    }
    x
}

/// Inserts patient `x` at the front of day `d`'s list, leaving every other
/// day untouched.
fn slot_insert_front(lists: &mut Vec<Vec<usize>>, d: usize, x: usize)
    requires
        d < old(lists)@.len(),
        old(lists)@[d as int]@.len() < usize::MAX,
    ensures
        final(lists)@.len() == old(lists)@.len(),
        forall|b: int|
            0 <= b < final(lists)@.len() && b != d as int ==> (#[trigger] final(lists)@[b])@
                == old(lists)@[b]@,
        final(lists)@[d as int]@ == old(lists)@[d as int]@.insert(0, x),
        day_views(final(lists)@) == day_views(old(lists)@).update(
            d as int,
            old(lists)@[d as int]@.insert(0, x),
        ),
{
    let ghost old_l = lists@;
    let slot = &mut lists[d];
    slot.insert(0, x);
    proof {
        assert forall|b: int| 0 <= b < lists@.len() && b != d as int implies (
        #[trigger] lists@[b])@ == old_l[b]@ by {}
        assert(day_views(lists@) =~= day_views(old_l).update(
            d as int,
            old_l[d as int]@.insert(0, x),
        ));
    }
}

/// Moving one patient from a day list into a side pool keeps the combined
/// counts and shortens the lists by one.
proof fn lemma_counts_list_to_pool(lists: Seq<Seq<usize>>, d: int, j: int, pool: Seq<usize>)
    requires
        0 <= d < lists.len(),
        0 <= j < lists[d].len(),
    ensures
        forall|p: usize|
            #[trigger] total_count(lists.update(d, lists[d].remove(j)), p) + count_of(
                pool.insert(0, lists[d][j]),
                p,
            ) == total_count(lists, p) + count_of(pool, p),
        total_len(lists.update(d, lists[d].remove(j))) == total_len(lists) - 1,
{
    assert forall|p: usize|
        #[trigger] total_count(lists.update(d, lists[d].remove(j)), p) + count_of(
            pool.insert(0, lists[d][j]),
            p,
        ) == total_count(lists, p) + count_of(pool, p) by {
        lemma_total_count_update(lists, d, lists[d].remove(j), p);
        lemma_count_remove(lists[d], j, p);
        lemma_count_insert(pool, 0, lists[d][j], p);
    }
    lemma_total_len_update(lists, d, lists[d].remove(j));
}

/// Inserting one patient at a day's front raises exactly its count.
proof fn lemma_counts_insert_front(lists: Seq<Seq<usize>>, d: int, x: usize)
    requires
        0 <= d < lists.len(),
    ensures
        forall|p: usize|
            #[trigger] total_count(lists.update(d, lists[d].insert(0, x)), p) == total_count(
                lists,
                p,
            ) + if x == p {
                1int
            } else {
                0int
            },
        total_len(lists.update(d, lists[d].insert(0, x))) == total_len(lists) + 1,
{
    assert forall|p: usize|
        #[trigger] total_count(lists.update(d, lists[d].insert(0, x)), p) == total_count(lists, p)
            + if x == p {
            1int
        } else {
            0int
        } by {
        lemma_total_count_update(lists, d, lists[d].insert(0, x), p);
        lemma_count_insert(lists[d], 0, x, p);
    }
    lemma_total_len_update(lists, d, lists[d].insert(0, x));
}

/// Removing a listed patient keeps the lists well formed.
proof fn lemma_wf_remove(patients: Seq<Patient>, lists: Seq<Seq<usize>>, d: int, j: int)
    requires
        lists_wf(patients, lists),
        0 <= d < lists.len(),
        0 <= j < lists[d].len(),
    ensures
        lists_wf(patients, lists.update(d, lists[d].remove(j))),
{
    let nl = lists.update(d, lists[d].remove(j));
    assert forall|d2: int, j2: int|
        0 <= d2 < nl.len() && 0 <= j2 < nl[d2].len() implies {
        let i = (#[trigger] nl[d2][j2]) as int;
        &&& 0 <= i < patients.len()
        &&& patients[i].surgery_release_day <= d2
        &&& d2 <= patients[i].surgery_due_day
    } by {
        if d2 == d {
            lists[d].remove_ensures(j);
            if j2 < j {
                assert(nl[d2][j2] == lists[d][j2]);
            } else {
                assert(nl[d2][j2] == lists[d][j2 + 1]);
            }
        } else {
            assert(nl[d2][j2] == lists[d2][j2]);
        }
    }
}

/// Putting an admissible patient at a day's front keeps the lists well
/// formed.
proof fn lemma_wf_insert_front(patients: Seq<Patient>, lists: Seq<Seq<usize>>, d: int, x: usize)
    requires
        lists_wf(patients, lists),
        0 <= d < lists.len(),
        0 <= x < patients.len(),
        patients[x as int].surgery_release_day <= d,
        d <= patients[x as int].surgery_due_day,
    ensures
        lists_wf(patients, lists.update(d, lists[d].insert(0, x))),
{
    let nl = lists.update(d, lists[d].insert(0, x));
    assert forall|d2: int, j2: int|
        0 <= d2 < nl.len() && 0 <= j2 < nl[d2].len() implies {
        let i = (#[trigger] nl[d2][j2]) as int;
        &&& 0 <= i < patients.len()
        &&& patients[i].surgery_release_day <= d2
        &&& d2 <= patients[i].surgery_due_day
    } by {
        if d2 == d {
            lists[d].insert_ensures(0, x);
            if j2 == 0 {
                assert(nl[d2][0] == x);
            } else {
                assert(nl[d2][j2] == lists[d][(j2 - 1) + 1 - 1]);
                assert(nl[d2][(j2 - 1) + 1] == lists[d][j2 - 1]);
            }
        } else {
            assert(nl[d2][j2] == lists[d2][j2]);
        }
    }
}

/// Packs one surgeon's seeded day lists under the per-day budget by bumping
/// waiting patients forward, recursing day by day.  On success the returned
/// pool holds the optional patients that fell off the final day; days before
/// `first_day` are never touched, the lists keep exactly the patients they
/// held (up to the returned pool), and a state that already fits everywhere
/// comes back unchanged.
pub fn dynamic_by_day_surgery_knapsack(
    capacity: &Vec<u16>,
    assignment: &mut Vec<Vec<usize>>,
    first_day: usize,
    patients: &Vec<Patient>,
) -> (r: Result<Vec<usize>, ScheduleError>)
    requires
        old(assignment)@.len() == capacity@.len(),
        first_day < capacity@.len(),
        lists_wf(patients@, day_views(old(assignment)@)),
        total_len(day_views(old(assignment)@)) <= patients@.len(),
        patients@.len() <= 0x1000_0000,
        forall|i: int|
            0 <= i < patients@.len() ==> ((#[trigger] patients@[i]).mandatory
                ==> patients@[i].surgery_due_day < capacity@.len()),
    ensures
        final(assignment)@.len() == capacity@.len(),
        lists_wf(patients@, day_views(final(assignment)@)),
        forall|d: int|
            0 <= d < first_day ==> #[trigger] day_views(final(assignment)@)[d] == day_views(
                old(assignment)@,
            )[d],
        (r matches Ok(un) ==> {
            &&& caps_ok_from(patients@, capacity@, day_views(final(assignment)@), first_day as int)
            &&& counts_match(day_views(old(assignment)@), day_views(final(assignment)@), un@)
            &&& total_len(day_views(final(assignment)@)) + un@.len() == total_len(
                day_views(old(assignment)@),
            )
            &&& forall|j: int|
                0 <= j < un@.len() ==> {
                    let i = (#[trigger] un@[j]) as int;
                    &&& 0 <= i < patients@.len()
                    &&& !patients@[i].mandatory
                }
        }),
        (r matches Err(e) ==> {
            &&& counts_same(day_views(old(assignment)@), day_views(final(assignment)@))
            &&& total_len(day_views(final(assignment)@)) == total_len(day_views(old(assignment)@))
            &&& (e is CapacityUnreachable || e is AllAttemptsFailed)
            &&& !caps_ok_from(
                patients@,
                capacity@,
                day_views(old(assignment)@),
                first_day as int,
            )
            &&& (e matches ScheduleError::CapacityUnreachable(d) ==> first_day <= d
                < capacity@.len() && dur_sum_due(
                patients@,
                day_views(final(assignment)@)[d as int],
                d as int,
            ) > capacity@[d as int])
            &&& (e matches ScheduleError::AllAttemptsFailed(d) ==> first_day <= d && d + 1
                < capacity@.len())
        }),
        caps_ok_from(patients@, capacity@, day_views(old(assignment)@), first_day as int) ==> (
        r matches Ok(un) && un@.len() == 0 && day_views(final(assignment)@) == day_views(
            old(assignment)@,
        )),
    decreases capacity@.len() - first_day,
{
    let days = capacity.len();
    let ghost base = day_views(assignment@);
    let mut day: usize = first_day;
    while day < days
        invariant
            days == capacity@.len(),
            first_day < days,
            patients@.len() <= 0x1000_0000,
            forall|i: int|
                0 <= i < patients@.len() ==> ((#[trigger] patients@[i]).mandatory
                    ==> patients@[i].surgery_due_day < capacity@.len()),
            first_day <= day <= days,
            assignment@.len() == days,
            base == day_views(old(assignment)@),
            base.len() == days,
            lists_wf(patients@, day_views(assignment@)),
            counts_same(base, day_views(assignment@)),
            total_len(day_views(assignment@)) == total_len(base),
            total_len(base) <= patients@.len(),
            forall|d: int|
                0 <= d < first_day ==> #[trigger] day_views(assignment@)[d] == base[d],
            forall|d: int|
                first_day <= d < day ==> dur_sum(patients@, #[trigger] day_views(assignment@)[d])
                    <= capacity@[d],
            caps_ok_from(patients@, capacity@, base, first_day as int) ==> day_views(assignment@)
                == base,
        decreases days - day,
    {
        let daylen = assignment[day].len();
        if daylen == 0 {
            proof {
                assert(day_views(assignment@)[day as int] == assignment@[day as int]@);
                assert(dur_sum(patients@, day_views(assignment@)[day as int]) == 0);
            }
            day = day + 1;
        } else {
            let mut attempt: usize = 0;
            let mut fitted = false;
            while attempt < daylen && !fitted
                invariant
                    days == capacity@.len(),
                    first_day < days,
                    patients@.len() <= 0x1000_0000,
                    forall|i: int|
                        0 <= i < patients@.len() ==> ((#[trigger] patients@[i]).mandatory
                            ==> patients@[i].surgery_due_day < capacity@.len()),
                    first_day <= day < days,
                    assignment@.len() == days,
                    base == day_views(old(assignment)@),
                    base.len() == days,
                    lists_wf(patients@, day_views(assignment@)),
                    counts_same(base, day_views(assignment@)),
                    total_len(day_views(assignment@)) == total_len(base),
                    total_len(base) <= patients@.len(),
                    forall|d: int|
                        0 <= d < first_day ==> #[trigger] day_views(assignment@)[d] == base[d],
                    forall|d: int|
                        first_day <= d < day ==> dur_sum(
                            patients@,
                            #[trigger] day_views(assignment@)[d],
                        ) <= capacity@[d],
                    caps_ok_from(patients@, capacity@, base, first_day as int) ==> day_views(
                        assignment@,
                    ) == base,
                    fitted ==> dur_sum(patients@, day_views(assignment@)[day as int])
                        <= capacity@[day as int],
                    attempt > 0 ==> !caps_ok_from(patients@, capacity@, base, first_day as int),
                    attempt > 0 ==> day + 1 < days,
                decreases daylen - attempt, (if fitted { 0int } else { 1int }),
            {
                proof {
                    lemma_total_len_component(day_views(assignment@), day as int);
                    assert(day_views(assignment@)[day as int] == assignment@[day as int]@);
                }
                let sum = day_duration_sum(patients, &assignment[day]);
                let cap_d = capacity[day] as u64;
                if sum <= cap_d {
                    fitted = true;
                } else {
                    proof {
                        // a state that already fit everywhere never reaches this branch
                        if caps_ok_from(patients@, capacity@, base, first_day as int) {
                            assert(dur_sum(patients@, base[day as int]) <= capacity@[day as int]);
                            assert(false);
                        }
                    }
                    // walk the day's list from the tail, moving patients that
                    // may still wait into the bump pool until the day fits
                    let ghost pre = day_views(assignment@);
                    let mut to_bump: Vec<usize> = Vec::new();
                    let mut sum2: u64 = sum;
                    let mut j: usize = assignment[day].len();
                    proof {
                        assert forall|p: usize|
                            #[trigger] total_count(day_views(assignment@), p) + count_of(
                                to_bump@,
                                p,
                            ) == total_count(pre, p) by {
                            lemma_count_empty(to_bump@, p);
                        }
                    }
                    while j > 0 && sum2 > cap_d
                        invariant
                            days == capacity@.len(),
                            patients@.len() <= 0x1000_0000,
                            first_day <= day < days,
                            assignment@.len() == days,
                            pre.len() == days,
                            j <= day_views(assignment@)[day as int].len(),
                            sum2 == dur_sum(patients@, day_views(assignment@)[day as int]),
                            cap_d == capacity@[day as int],
                            lists_wf(patients@, day_views(assignment@)),
                            counts_match(pre, day_views(assignment@), to_bump@),
                            total_len(day_views(assignment@)) + to_bump@.len() == total_len(pre),
                            total_len(pre) <= patients@.len(),
                            forall|b: int|
                                0 <= b < days && b != day as int ==> #[trigger] day_views(
                                    assignment@,
                                )[b] == pre[b],
                            forall|t: int|
                                0 <= t < to_bump@.len() ==> {
                                    let i = (#[trigger] to_bump@[t]) as int;
                                    &&& 0 <= i < patients@.len()
                                    &&& patients@[i].surgery_release_day <= day as int
                                    &&& (day as int) < patients@[i].surgery_due_day
                                },
                            forall|q: int|
                                j <= q < day_views(assignment@)[day as int].len() ==> patients@[(
                                #[trigger] day_views(assignment@)[day as int][q]) as int].surgery_due_day
                                    <= day,
                        decreases j,
                    {
                        j = j - 1;
                        let cand = assignment[day][j];
                        if patients[cand].surgery_due_day > day {
                            let ghost now0 = day_views(assignment@);
                            let ghost pool0 = to_bump@;
                            proof {
                                lemma_dur_sum_remove(patients@, now0[day as int], j as int);
                                lemma_dur_sum_element(patients@, now0[day as int], j as int);
                                lemma_counts_list_to_pool(now0, day as int, j as int, pool0);
                                lemma_wf_remove(patients@, now0, day as int, j as int);
                                now0[day as int].remove_ensures(j as int);
                            }
                            let x = slot_remove(assignment, day, j);
                            to_bump.insert(0, x);
                            sum2 = sum2 - patients[x].surgery_duration as u64;
                        }
                    }
                    if sum2 > cap_d {
                        // even every waiting patient moved off the day cannot
                        // reach the budget: restore the day and give up
                        proof {
                            assert(to_bump@.skip(0) =~= to_bump@);
                            lemma_dur_sum_due_all(
                                patients@,
                                day_views(assignment@)[day as int],
                                day as int,
                            );
                        }
                        let mut bi: usize = 0;
                        while bi < to_bump.len()
                            invariant
                                days == capacity@.len(),
                                patients@.len() <= 0x1000_0000,
                                first_day <= day < days,
                                assignment@.len() == days,
                                pre.len() == days,
                                bi <= to_bump@.len(),
                                lists_wf(patients@, day_views(assignment@)),
                                counts_match(pre, day_views(assignment@), to_bump@.skip(bi as int)),
                                total_len(day_views(assignment@)) + to_bump@.len() - bi
                                    == total_len(pre),
                                total_len(pre) <= patients@.len(),
                                cap_d == capacity@[day as int],
                                dur_sum_due(
                                    patients@,
                                    day_views(assignment@)[day as int],
                                    day as int,
                                ) > cap_d,
                                forall|b: int|
                                    0 <= b < days && b != day as int ==> #[trigger] day_views(
                                        assignment@,
                                    )[b] == pre[b],
                                forall|t: int|
                                    0 <= t < to_bump@.len() ==> {
                                        let i = (#[trigger] to_bump@[t]) as int;
                                        &&& 0 <= i < patients@.len()
                                        &&& patients@[i].surgery_release_day <= day as int
                                        &&& (day as int) < patients@[i].surgery_due_day
                                    },
                            decreases to_bump@.len() - bi,
                        {
                            let x = to_bump[bi];
                            let ghost now0 = day_views(assignment@);
                            let ghost rest0 = to_bump@.skip(bi as int);
                            proof {
                                lemma_total_len_component(now0, day as int);
                                lemma_counts_insert_front(now0, day as int, x);
                                lemma_wf_insert_front(patients@, now0, day as int, x);
                                lemma_dur_sum_due_insert_late(
                                    patients@,
                                    now0[day as int],
                                    0,
                                    x,
                                    day as int,
                                );
                                assert(rest0.drop_first() =~= to_bump@.skip(bi as int + 1));
                                assert(rest0[0] == x);
                            }
                            slot_insert_front(assignment, day, x);
                            proof {
                                assert forall|p: usize|
                                    #[trigger] total_count(day_views(assignment@), p) + count_of(
                                        to_bump@.skip(bi as int + 1),
                                        p,
                                    ) == total_count(pre, p) by {
                                    lemma_count_drop_first(rest0, p);
                                }
                            }
                            bi = bi + 1;
                        }
                        proof {
                            assert(to_bump@.skip(to_bump@.len() as int) =~= Seq::<usize>::empty());
                            assert forall|p: usize|
                                #[trigger] total_count(day_views(assignment@), p) == total_count(
                                    base,
                                    p,
                                ) by {
                                lemma_count_empty(to_bump@.skip(to_bump@.len() as int), p);
                                assert(total_count(day_views(assignment@), p) + count_of(
                                    to_bump@.skip(to_bump@.len() as int),
                                    p,
                                ) == total_count(pre, p));
                            }
                        }
                        return Err(ScheduleError::CapacityUnreachable(day));
                    }
                    if day + 1 < days {
                        // hand the bumped patients to the next day's front
                        proof { assert(to_bump@.skip(0) =~= to_bump@); }
                        let mut bi: usize = 0;
                        while bi < to_bump.len()
                            invariant
                                days == capacity@.len(),
                                patients@.len() <= 0x1000_0000,
                                first_day <= day < days,
                                day + 1 < days,
                                assignment@.len() == days,
                                pre.len() == days,
                                bi <= to_bump@.len(),
                                lists_wf(patients@, day_views(assignment@)),
                                counts_match(pre, day_views(assignment@), to_bump@.skip(bi as int)),
                                total_len(day_views(assignment@)) + to_bump@.len() - bi
                                    == total_len(pre),
                                total_len(pre) <= patients@.len(),
                                dur_sum(patients@, day_views(assignment@)[day as int]) <= cap_d,
                                cap_d == capacity@[day as int],
                                forall|b: int|
                                    0 <= b < days && b != day as int && b != day as int + 1
                                        ==> #[trigger] day_views(assignment@)[b] == pre[b],
                                forall|t: int|
                                    0 <= t < to_bump@.len() ==> {
                                        let i = (#[trigger] to_bump@[t]) as int;
                                        &&& 0 <= i < patients@.len()
                                        &&& patients@[i].surgery_release_day <= day as int
                                        &&& (day as int) < patients@[i].surgery_due_day
                                    },
                            decreases to_bump@.len() - bi,
                        {
                            let x = to_bump[bi];
                            let ghost now0 = day_views(assignment@);
                            let ghost rest0 = to_bump@.skip(bi as int);
                            proof {
                                lemma_total_len_component(now0, day as int + 1);
                                lemma_counts_insert_front(now0, day as int + 1, x);
                                lemma_wf_insert_front(patients@, now0, day as int + 1, x);
                                assert(rest0.drop_first() =~= to_bump@.skip(bi as int + 1));
                                assert(rest0[0] == x);
                            }
                            slot_insert_front(assignment, day + 1, x);
                            proof {
                                assert forall|p: usize|
                                    #[trigger] total_count(day_views(assignment@), p) + count_of(
                                        to_bump@.skip(bi as int + 1),
                                        p,
                                    ) == total_count(pre, p) by {
                                    lemma_count_drop_first(rest0, p);
                                }
                            }
                            bi = bi + 1;
                        }
                        proof {
                            assert(to_bump@.skip(to_bump@.len() as int) =~= Seq::<usize>::empty());
                            assert forall|p: usize|
                                #[trigger] total_count(day_views(assignment@), p) == total_count(
                                    base,
                                    p,
                                ) by {
                                lemma_count_empty(to_bump@.skip(to_bump@.len() as int), p);
                                assert(total_count(day_views(assignment@), p) + count_of(
                                    to_bump@.skip(to_bump@.len() as int),
                                    p,
                                ) == total_count(pre, p));
                            }
                        }
                        let ghost at_call = day_views(assignment@);
                        let res = dynamic_by_day_surgery_knapsack(
                            capacity,
                            assignment,
                            day + 1,
                            patients,
                        );
                        match res {
                            Ok(un) => {
                                proof {
                                    let fin = day_views(assignment@);
                                    assert forall|p: usize|
                                        #[trigger] total_count(fin, p) + count_of(un@, p)
                                            == total_count(base, p) by {
                                        assert(total_count(fin, p) + count_of(un@, p)
                                            == total_count(at_call, p));
                                    }
                                    assert forall|d: int|
                                        first_day <= d < fin.len() implies dur_sum(
                                        patients@,
                                        #[trigger] fin[d],
                                    ) <= capacity@[d] by {
                                        if d <= day as int {
                                            assert(fin[d] == at_call[d]);
                                        }
                                    }
                                }
                                return Ok(un);
                            },
                            Err(_) => {
                                // move every patient admissible today back off
                                // the next day before the next attempt
                                let mut j2: usize = assignment[day + 1].len();
                                while j2 > 0
                                    invariant
                                        days == capacity@.len(),
                                        patients@.len() <= 0x1000_0000,
                                        first_day <= day < days,
                                        day + 1 < days,
                                        assignment@.len() == days,
                                        base.len() == days,
                                        base == day_views(old(assignment)@),
                                        j2 <= day_views(assignment@)[day as int + 1].len(),
                                        lists_wf(patients@, day_views(assignment@)),
                                        counts_same(base, day_views(assignment@)),
                                        total_len(day_views(assignment@)) == total_len(base),
                                        total_len(base) <= patients@.len(),
                                        forall|d: int|
                                            0 <= d < first_day ==> #[trigger] day_views(
                                                assignment@,
                                            )[d] == base[d],
                                        forall|d: int|
                                            first_day <= d < day ==> dur_sum(
                                                patients@,
                                                #[trigger] day_views(assignment@)[d],
                                            ) <= capacity@[d],
                                    decreases j2,
                                {
                                    j2 = j2 - 1;
                                    proof {
                                        assert(day_views(assignment@)[day as int + 1]
                                            == assignment@[day as int + 1]@);
                                    }
                                    let cand = assignment[day + 1][j2];
                                    if patients[cand].surgery_release_day <= day {
                                        let ghost now0 = day_views(assignment@);
                                        proof {
                                            lemma_wf_remove(patients@, now0, day as int + 1, j2 as int);
                                            lemma_counts_list_to_pool(
                                                now0,
                                                day as int + 1,
                                                j2 as int,
                                                Seq::<usize>::empty(),
                                            );
                                        }
                                        let x = slot_remove(assignment, day + 1, j2);
                                        let ghost mid = day_views(assignment@);
                                        proof {
                                            lemma_total_len_component(mid, day as int);
                                            lemma_counts_insert_front(mid, day as int, x);
                                            lemma_wf_insert_front(patients@, mid, day as int, x);
                                            assert forall|p: usize|
                                                #[trigger] total_count(
                                                    mid.update(
                                                        day as int,
                                                        mid[day as int].insert(0, x),
                                                    ),
                                                    p,
                                                ) == total_count(base, p) by {
                                                lemma_count_insert(
                                                    Seq::<usize>::empty(),
                                                    0,
                                                    x,
                                                    p,
                                                );
                                                lemma_count_empty(Seq::<usize>::empty(), p);
                                            }
                                        }
                                        slot_insert_front(assignment, day, x);
                                    }
                                }
                                attempt = attempt + 1;
                            },
                        }
                    } else {
                        // the final day: the bumped patients leave the
                        // schedule, and none of them is mandatory
                        proof {
                            assert forall|t: int| 0 <= t < to_bump@.len() implies {
                                let i = (#[trigger] to_bump@[t]) as int;
                                &&& 0 <= i < patients@.len()
                                &&& !patients@[i].mandatory
                            } by {
                                let i = to_bump@[t] as int;
                                assert((day as int) < patients@[i].surgery_due_day);
                            }
                            assert forall|d: int|
                                first_day <= d < days implies dur_sum(
                                patients@,
                                #[trigger] day_views(assignment@)[d],
                            ) <= capacity@[d] by {}
                            assert forall|p: usize|
                                #[trigger] total_count(day_views(assignment@), p) + count_of(
                                    to_bump@,
                                    p,
                                ) == total_count(base, p) by {}
                        }
                        return Ok(to_bump);
                    }
                }
            }
            if !fitted {
                return Err(ScheduleError::AllAttemptsFailed(day));
            }
            day = day + 1;
        }
    }
    let un: Vec<usize> = Vec::new();
    proof {
        assert forall|p: usize|
            #[trigger] total_count(day_views(assignment@), p) + count_of(un@, p) == total_count(
                base,
                p,
            ) by {
            lemma_count_empty(un@, p);
        }
    }
    Ok(un)
}

/// Whether the selection names surgeon `s` (no selection names everyone).
pub open spec fn selected(sel: Option<&Vec<usize>>, s: usize) -> bool {
    match sel {
        None => true,
        Some(v) => v@.contains(s),
    }
}

/// A prefix one longer contains exactly the old members and the new element.
proof fn lemma_take_contains(v: Seq<usize>, k: int, s: usize)
    requires
        0 <= k < v.len(),
    ensures
        v.take(k + 1).contains(s) <==> (v.take(k).contains(s) || v[k] == s),
{
    assert(v.take(k + 1) =~= v.take(k).push(v[k]));
    let a1 = v.take(k + 1);
    let a0 = v.take(k);
    if a1.contains(s) {
        let idx = choose|idx: int| 0 <= idx < a1.len() && #[trigger] a1[idx] == s;
        if idx < k {
            assert(a0[idx] == s);
        }
    }
    if a0.contains(s) {
        let idx = choose|idx: int| 0 <= idx < a0.len() && #[trigger] a0[idx] == s;
        assert(a1[idx] == s);
    }
    if v[k] == s {
        assert(a1[k] == s);
    }
}

/// Stores surgeon `s`'s unassigned pool, leaving the other pools untouched.
fn set_unassigned(un: &mut Vec<Vec<usize>>, s: usize, u: Vec<usize>)
    requires
        s < old(un)@.len(),
    ensures
        final(un)@.len() == old(un)@.len(),
        forall|a: int|
            0 <= a < final(un)@.len() && a != s as int ==> (#[trigger] final(un)@[a])@ == old(
                un,
            )@[a]@,
        final(un)@[s as int]@ == u@,
{
    let ghost old_u = un@;
    let slot = &mut un[s];
    *slot = u;
    proof {
        assert forall|a: int| 0 <= a < un@.len() && a != s as int implies (#[trigger] un@[a])@
            == old_u[a]@ by {}
    }
}

/// The state surgeon `s`'s day lists reach when the strategy succeeds: every
/// day within budget, the same patients as before up to the pool `u`, and
/// only optional patients in the pool.
pub open spec fn surgeon_arranged(
    instance: Instance,
    before: Seq<Seq<usize>>,
    now: Seq<Seq<usize>>,
    s: int,
    u: Seq<usize>,
) -> bool {
    &&& now.len() == instance.days
    &&& lists_wf(instance.patients@, now)
    &&& caps_ok_from(instance.patients@, instance.surgeons@[s].max_surgery_time@, now, 0)
    &&& counts_match(before, now, u)
    &&& total_len(now) + u.len() == total_len(before)
    &&& forall|j: int|
        0 <= j < u.len() ==> {
            let i = (#[trigger] u[j]) as int;
            &&& 0 <= i < instance.patients@.len()
            &&& !instance.patients@[i].mandatory
        }
}

/// Runs the bumping strategy for surgeon `s` on the shared state, filling
/// that surgeon's unassigned pool.
fn arrange_one(
    instance: &Instance,
    ppdps: &mut Vec<Vec<Vec<usize>>>,
    un: &mut Vec<Vec<usize>>,
    s: usize,
) -> (r: Result<(), ScheduleError>)
    requires
        instance_valid(*instance),
        old(ppdps)@.len() == instance.surgeons@.len(),
        old(un)@.len() == old(ppdps)@.len(),
        s < old(ppdps)@.len(),
        old(ppdps)@[s as int]@.len() == instance.days,
        lists_wf(instance.patients@, day_views(old(ppdps)@[s as int]@)),
        total_len(day_views(old(ppdps)@[s as int]@)) <= instance.patients@.len(),
        instance.patients@.len() <= 0x1000_0000,
    ensures
        final(ppdps)@.len() == old(ppdps)@.len(),
        final(un)@.len() == old(un)@.len(),
        forall|a: int|
            0 <= a < final(ppdps)@.len() && a != s as int ==> (#[trigger] final(ppdps)@[a])@
                == old(ppdps)@[a]@,
        forall|a: int|
            0 <= a < final(un)@.len() && a != s as int ==> (#[trigger] final(un)@[a])@ == old(
                un,
            )@[a]@,
        final(ppdps)@[s as int]@.len() == instance.days,
        lists_wf(instance.patients@, day_views(final(ppdps)@[s as int]@)),
        r is Ok ==> surgeon_arranged(
            *instance,
            day_views(old(ppdps)@[s as int]@),
            day_views(final(ppdps)@[s as int]@),
            s as int,
            final(un)@[s as int]@,
        ),
        r is Err ==> {
            &&& counts_same(
                day_views(old(ppdps)@[s as int]@),
                day_views(final(ppdps)@[s as int]@),
            )
            &&& final(un)@[s as int]@ == old(un)@[s as int]@
        },
        r matches Err(e) ==> {
            &&& (e is CapacityUnreachable || e is AllAttemptsFailed)
            &&& !caps_ok_from(
                instance.patients@,
                instance.surgeons@[s as int].max_surgery_time@,
                day_views(old(ppdps)@[s as int]@),
                0,
            )
        },
        caps_ok_from(
            instance.patients@,
            instance.surgeons@[s as int].max_surgery_time@,
            day_views(old(ppdps)@[s as int]@),
            0,
        ) ==> (r is Ok && day_views(final(ppdps)@[s as int]@) == day_views(
            old(ppdps)@[s as int]@,
        ) && final(un)@[s as int]@.len() == 0),
{
    let ghost old_p = ppdps@;
    let row = &mut ppdps[s];
    let res = dynamic_by_day_surgery_knapsack(
        &instance.surgeons[s].max_surgery_time,
        row,
        0,
        &instance.patients,
    );
    proof {
        assert forall|a: int| 0 <= a < ppdps@.len() && a != s as int implies (
        #[trigger] ppdps@[a])@ == old_p[a]@ by {}
    }
    match res {
        Ok(u) => {
            set_unassigned(un, s, u);
            Ok(())
        },
        Err(e) => Err(e),
    }
}

/// Runs the bumping strategy for every selected surgeon (all of them when no
/// selection is given), returning each surgeon's pool of patients that could
/// not be placed.
pub fn arrange_patients_for_surgeons(
    instance: &Instance,
    patients_per_day_per_surgeon: &mut Vec<Vec<Vec<usize>>>,
    surgeon_spec: Option<&Vec<usize>>,
) -> (r: Result<Vec<Vec<usize>>, ScheduleError>)
    requires
        instance_valid(*instance),
        old(patients_per_day_per_surgeon)@.len() == instance.surgeons@.len(),
        forall|a: int|
            0 <= a < old(patients_per_day_per_surgeon)@.len() ==> (#[trigger] old(patients_per_day_per_surgeon)@[a])@.len() == instance.days,
        forall|a: int|
            0 <= a < old(patients_per_day_per_surgeon)@.len() ==> lists_wf(
                instance.patients@,
                day_views((#[trigger] old(patients_per_day_per_surgeon)@[a])@),
            ),
        forall|a: int|
            0 <= a < old(patients_per_day_per_surgeon)@.len() ==> total_len(
                day_views((#[trigger] old(patients_per_day_per_surgeon)@[a])@),
            ) <= instance.patients@.len(),
        instance.patients@.len() <= 0x1000_0000,
        surgeon_spec matches Some(v) ==> v@.no_duplicates() && forall|t: int|
            0 <= t < v@.len() ==> (#[trigger] v@[t]) < instance.surgeons@.len(),
    ensures
        final(patients_per_day_per_surgeon)@.len() == instance.surgeons@.len(),
        forall|a: int|
            0 <= a < final(patients_per_day_per_surgeon)@.len() ==> (#[trigger] final(patients_per_day_per_surgeon)@[a])@.len() == instance.days,
        forall|a: int|
            0 <= a < final(patients_per_day_per_surgeon)@.len() ==> lists_wf(
                instance.patients@,
                day_views((#[trigger] final(patients_per_day_per_surgeon)@[a])@),
            ),
        r matches Ok(un) ==> {
            &&& un@.len() == instance.surgeons@.len()
            &&& forall|a: int|
                0 <= a < un@.len() && selected(surgeon_spec, a as usize) ==> surgeon_arranged(
                    *instance,
                    day_views(old(patients_per_day_per_surgeon)@[a]@),
                    day_views((#[trigger] final(patients_per_day_per_surgeon)@[a])@),
                    a,
                    un@[a]@,
                )
            &&& forall|a: int|
                0 <= a < un@.len() && !selected(surgeon_spec, a as usize) ==> (#[trigger] final(patients_per_day_per_surgeon)@[a])@ == old(patients_per_day_per_surgeon)@[a]@ && un@[a]@.len() == 0
        },
        // success is owed when every selected surgeon's lists already fit
        (forall|a: int|
            0 <= a < instance.surgeons@.len() && selected(surgeon_spec, a as usize)
                ==> caps_ok_from(
                instance.patients@,
                (#[trigger] instance.surgeons@[a]).max_surgery_time@,
                day_views(old(patients_per_day_per_surgeon)@[a]@),
                0,
            )) ==> r is Ok,
        r matches Err(e) ==> {
            &&& (e is CapacityUnreachable || e is AllAttemptsFailed)
            &&& exists|a: int|
                0 <= a < instance.surgeons@.len() && selected(surgeon_spec, a as usize)
                    && !caps_ok_from(
                    instance.patients@,
                    (#[trigger] instance.surgeons@[a]).max_surgery_time@,
                    day_views(old(patients_per_day_per_surgeon)@[a]@),
                    0,
                )
            &&& forall|a: int|
                0 <= a < instance.surgeons@.len() && !selected(surgeon_spec, a as usize) ==> (
                #[trigger] final(patients_per_day_per_surgeon)@[a])@ == old(
                    patients_per_day_per_surgeon,
                )@[a]@
        },
{
    let ns = instance.surgeons.len();
    let mut un: Vec<Vec<usize>> = Vec::new();
    let mut k0: usize = 0;
    while k0 < ns
        invariant
            0 <= k0 <= ns,
            un@.len() == k0,
            forall|a: int| 0 <= a < k0 ==> (#[trigger] un@[a])@.len() == 0,
        decreases ns - k0,
    {
        un.push(Vec::new());
        k0 = k0 + 1;
    }
    match surgeon_spec {
        Some(surgeon_slice) => {
            let m = surgeon_slice.len();
            let mut k: usize = 0;
            while k < m
                invariant
                    instance_valid(*instance),
                    0 <= k <= m,
                    m == surgeon_slice@.len(),
                    surgeon_spec == Some(surgeon_slice),
                    ns == instance.surgeons@.len(),
                    instance.patients@.len() <= 0x1000_0000,
                    surgeon_slice@.no_duplicates(),
                    forall|t: int| 0 <= t < m ==> (#[trigger] surgeon_slice@[t]) < ns,
                    patients_per_day_per_surgeon@.len() == ns,
                    old(patients_per_day_per_surgeon)@.len() == ns,
                    un@.len() == ns,
                    forall|a: int|
                        0 <= a < ns ==> (#[trigger] patients_per_day_per_surgeon@[a])@.len()
                            == instance.days,
                    forall|a: int|
                        0 <= a < ns ==> lists_wf(
                            instance.patients@,
                            day_views((#[trigger] patients_per_day_per_surgeon@[a])@),
                        ),
                    forall|a: int|
                        0 <= a < ns ==> total_len(
                            day_views((#[trigger] patients_per_day_per_surgeon@[a])@),
                        ) <= instance.patients@.len(),
                    forall|a: int|
                        0 <= a < ns && surgeon_slice@.take(k as int).contains(a as usize)
                            ==> surgeon_arranged(
                            *instance,
                            day_views(old(patients_per_day_per_surgeon)@[a]@),
                            day_views((#[trigger] patients_per_day_per_surgeon@[a])@),
                            a,
                            un@[a]@,
                        ),
                    forall|a: int|
                        0 <= a < ns && !surgeon_slice@.take(k as int).contains(a as usize) ==> (
                        #[trigger] patients_per_day_per_surgeon@[a])@ == old(patients_per_day_per_surgeon)@[a]@ && un@[a]@.len() == 0,
                decreases m - k,
            {
                let s = surgeon_slice[k];
                proof {
                    if surgeon_slice@.take(k as int).contains(s) {
                        let idx = choose|idx: int|
                            0 <= idx < k as int && surgeon_slice@.take(k as int)[idx] == s;
                        assert(surgeon_slice@[idx] == surgeon_slice@[k as int]);
                        assert(false);
                    }
                }
                let ghost pre_p = patients_per_day_per_surgeon@;
                let ghost pre_u = un@;
                let res = arrange_one(instance, patients_per_day_per_surgeon, &mut un, s);
                match res {
                    Ok(_) => {},
                    Err(e) => {
                        proof {
                            assert(surgeon_slice@.contains(s)) by {
                                assert(surgeon_slice@[k as int] == s);
                            }
                            assert(day_views(pre_p[s as int]@) == day_views(
                                old(patients_per_day_per_surgeon)@[s as int]@,
                            ));
                            assert(!caps_ok_from(
                                instance.patients@,
                                instance.surgeons@[s as int].max_surgery_time@,
                                day_views(old(patients_per_day_per_surgeon)@[s as int]@),
                                0,
                            ));
                            assert forall|a: int|
                                0 <= a < ns && !selected(surgeon_spec, a as usize) implies (
                            #[trigger] patients_per_day_per_surgeon@[a])@ == old(
                                patients_per_day_per_surgeon,
                            )@[a]@ by {
                                assert(!surgeon_slice@.contains(a as usize));
                                if surgeon_slice@.take(k as int).contains(a as usize) {
                                    let idx = choose|idx: int|
                                        0 <= idx < k as int && surgeon_slice@.take(k as int)[idx]
                                            == a as usize;
                                    assert(surgeon_slice@[idx] == a as usize);
                                }
                            }
                        }
                        return Err(e);
                    },
                }
                proof {
                    assert forall|a: int| 0 <= a < ns implies (#[trigger] surgeon_slice@.take(
                        k as int + 1,
                    ).contains(a as usize) <==> (surgeon_slice@.take(k as int).contains(a as usize)
                        || a == s as int)) by {
                        lemma_take_contains(surgeon_slice@, k as int, a as usize);
                    }
                    assert forall|a: int|
                        0 <= a < ns && !surgeon_slice@.take(k as int + 1).contains(a as usize)
                        implies ((#[trigger] patients_per_day_per_surgeon@[a])@ == old(patients_per_day_per_surgeon)@[a]@
                            && un@[a]@.len() == 0) by {
                        assert(!surgeon_slice@.take(k as int).contains(a as usize));
                        assert(a != s as int);
                        assert((patients_per_day_per_surgeon@[a])@ == pre_p[a]@);
                        assert((pre_p[a])@ == old(patients_per_day_per_surgeon)@[a]@);
                        assert(un@[a]@ == pre_u[a]@);
                        assert(pre_u[a]@.len() == 0);
                    }
                }
                k = k + 1;
            }
            proof {
                assert(surgeon_slice@.take(m as int) =~= surgeon_slice@);
                assert(surgeon_spec matches Some(v) && v@ == surgeon_slice@);
                assert forall|a: int| 0 <= a < ns implies (#[trigger] selected(
                    surgeon_spec,
                    a as usize,
                ) <==> surgeon_slice@.take(m as int).contains(a as usize)) by {}
            }
            Ok(un)
        },
        None => {
            let mut s: usize = 0;
            while s < ns
                invariant
                    instance_valid(*instance),
                    0 <= s <= ns,
                    surgeon_spec is None,
                    ns == instance.surgeons@.len(),
                    instance.patients@.len() <= 0x1000_0000,
                    patients_per_day_per_surgeon@.len() == ns,
                    old(patients_per_day_per_surgeon)@.len() == ns,
                    un@.len() == ns,
                    forall|a: int|
                        0 <= a < ns ==> (#[trigger] patients_per_day_per_surgeon@[a])@.len()
                            == instance.days,
                    forall|a: int|
                        0 <= a < ns ==> lists_wf(
                            instance.patients@,
                            day_views((#[trigger] patients_per_day_per_surgeon@[a])@),
                        ),
                    forall|a: int|
                        0 <= a < ns ==> total_len(
                            day_views((#[trigger] patients_per_day_per_surgeon@[a])@),
                        ) <= instance.patients@.len(),
                    forall|a: int|
                        0 <= a < s ==> surgeon_arranged(
                            *instance,
                            day_views(old(patients_per_day_per_surgeon)@[a]@),
                            day_views((#[trigger] patients_per_day_per_surgeon@[a])@),
                            a,
                            un@[a]@,
                        ),
                    forall|a: int|
                        s <= a < ns ==> (#[trigger] patients_per_day_per_surgeon@[a])@ == old(patients_per_day_per_surgeon)@[a]@ && un@[a]@.len() == 0,
                decreases ns - s,
            {
                let ghost pre_p = patients_per_day_per_surgeon@;
                let res = arrange_one(instance, patients_per_day_per_surgeon, &mut un, s);
                match res {
                    Ok(_) => {},
                    Err(e) => {
                        proof {
                            assert(day_views(pre_p[s as int]@) == day_views(
                                old(patients_per_day_per_surgeon)@[s as int]@,
                            ));
                            assert(!caps_ok_from(
                                instance.patients@,
                                instance.surgeons@[s as int].max_surgery_time@,
                                day_views(old(patients_per_day_per_surgeon)@[s as int]@),
                                0,
                            ));
                        }
                        return Err(e);
                    },
                }
                s = s + 1;
            }
            Ok(un)
        },
    }
}

} // verus!
