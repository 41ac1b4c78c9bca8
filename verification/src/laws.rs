//! Boundary laws of stage one, proved from the contracts alone: a surgeon
//! without operating time can never place a mandatory patient and leaves all
//! optional ones unassigned; an optional patient too long for every day ends
//! in the unassigned pool; and a single day whose budget equals the seeded
//! demand is owed an unchanged, exactly filled schedule.

use vstd::prelude::*;

use crate::instance::{Instance, Patient, instance_valid};
use crate::dynamic::caps_ok_from;
use crate::lp::{stage1_hi, stage1_lo};
use crate::model::{
    count_of, dur_sum, lemma_count_element, lemma_count_empty, lemma_count_of,
    lemma_dur_sum_element, lemma_dur_sum_min, total_count,
};
use crate::rounding::stage1_result_ok;

verus! {

/// A positive total count pins the patient to some list.
proof fn lemma_total_count_pos(lists: Seq<Seq<usize>>, p: usize)
    requires
        total_count(lists, p) > 0,
    ensures
        exists|d: int| 0 <= d < lists.len() && count_of(#[trigger] lists[d], p) > 0,
    decreases lists.len(),
{
    lemma_count_of(lists[0], p);
    if count_of(lists[0], p) > 0 {
        assert(0 <= 0 < lists.len() && count_of(lists[0], p) > 0);
    } else {
        lemma_total_count_pos(lists.drop_first(), p);
        let d0 = choose|d: int|
            0 <= d < lists.drop_first().len() && count_of(#[trigger] lists.drop_first()[d], p) > 0;
        assert(lists.drop_first()[d0] == lists[d0 + 1]);
        assert(count_of(lists[d0 + 1], p) > 0);
    }
}

/// When every list but the last is empty, the total count is the last's.
proof fn lemma_total_count_sink(lists: Seq<Seq<usize>>, p: usize)
    requires
        lists.len() >= 1,
        forall|d: int| 0 <= d < lists.len() - 1 ==> (#[trigger] lists[d]).len() == 0,
    ensures
        total_count(lists, p) == count_of(lists[lists.len() - 1], p),
    decreases lists.len(),
{
    if lists.len() == 1 {
        assert(total_count(lists.drop_first(), p) == 0);
    } else {
        lemma_count_empty(lists[0], p);
        assert(forall|d: int|
            0 <= d < lists.drop_first().len() ==> #[trigger] lists.drop_first()[d] == lists[d + 1]);
        lemma_total_count_sink(lists.drop_first(), p);
    }
}

/// A surgeon with no operating time on any day cannot come out of stage one
/// successfully while a mandatory patient is among those to place: no lists
/// satisfy the success contract.
pub proof fn lemma_zero_budget_mandatory_fails(
    instance: Instance,
    surgeon_idx: int,
    floor: int,
    barred: Option<(usize, usize)>,
    relevant: Seq<usize>,
    lists: Seq<Seq<usize>>,
)
    requires
        instance_valid(instance),
        0 <= surgeon_idx < instance.surgeons@.len(),
        forall|d: int|
            0 <= d < instance.days ==> (#[trigger] instance.surgeons@[surgeon_idx].max_surgery_time@[d])
                == 0,
        forall|t: int|
            0 <= t < relevant.len() ==> (#[trigger] relevant[t]) < instance.patients@.len(),
        exists|t: int|
            0 <= t < relevant.len() && instance.patients@[(#[trigger] relevant[t]) as int].mandatory,
        0 <= floor,
    ensures
        !stage1_result_ok(instance, surgeon_idx, floor, barred, relevant, lists),
{
    if stage1_result_ok(instance, surgeon_idx, floor, barred, relevant, lists) {
        let t = choose|t: int|
            0 <= t < relevant.len() && instance.patients@[(#[trigger] relevant[t]) as int].mandatory;
        let i = relevant[t];
        lemma_count_element(relevant, t);
        assert(total_count(lists, i) >= 1);
        lemma_total_count_pos(lists, i);
        let d = choose|d: int| 0 <= d < lists.len() && count_of(#[trigger] lists[d], i) > 0;
        lemma_count_of(lists[d], i);
        assert(lists[d].contains(i));
        let j = choose|j: int| 0 <= j < lists[d].len() && lists[d][j] == i;
        // a mandatory patient's window ends before the sink day, so it sits
        // on a real day, whose budget its surgery alone already exceeds
        assert(d <= stage1_hi(instance.patients@, instance.days as int, i));
        assert(d < instance.days);
        assert(floor <= stage1_lo(instance.patients@, floor, barred, i) <= d);
        lemma_dur_sum_element(instance.patients@, lists[d], j);
        assert(instance.patients@[i as int].surgery_duration >= 1);
        assert(dur_sum(instance.patients@, lists[d])
            <= instance.surgeons@[surgeon_idx].max_surgery_time@[d]);
        assert(false);
    }
}

/// A surgeon with no operating time on any day leaves every optional
/// patient unassigned: a successful stage-one result has every real day
/// empty and the pool holding exactly the patients to place.
pub proof fn lemma_zero_budget_optional_unassigned(
    instance: Instance,
    surgeon_idx: int,
    floor: int,
    barred: Option<(usize, usize)>,
    relevant: Seq<usize>,
    lists: Seq<Seq<usize>>,
)
    requires
        instance_valid(instance),
        0 <= surgeon_idx < instance.surgeons@.len(),
        forall|d: int|
            0 <= d < instance.days ==> (#[trigger] instance.surgeons@[surgeon_idx].max_surgery_time@[d])
                == 0,
        forall|t: int|
            0 <= t < relevant.len() ==> (#[trigger] relevant[t]) < instance.patients@.len(),
        0 <= floor,
        stage1_result_ok(instance, surgeon_idx, floor, barred, relevant, lists),
    ensures
        forall|d: int| 0 <= d < instance.days ==> (#[trigger] lists[d]).len() == 0,
        forall|p: usize|
            #[trigger] count_of(lists[instance.days as int], p) == count_of(relevant, p),
{
    assert forall|d: int| 0 <= d < instance.days implies (#[trigger] lists[d]).len() == 0 by {
        if lists[d].len() > 0 {
            if d < floor {
            } else {
                lemma_dur_sum_min(instance.patients@, lists[d]);
                assert(dur_sum(instance.patients@, lists[d])
                    <= instance.surgeons@[surgeon_idx].max_surgery_time@[d]);
                assert(false);
            }
        }
    }
    assert forall|p: usize|
        #[trigger] count_of(lists[instance.days as int], p) == count_of(relevant, p) by {
        lemma_total_count_sink(lists, p);
    }
}

/// An optional patient whose surgery outlasts every unlocked day's budget
/// ends in the unassigned pool of a successful stage-one result.
pub proof fn lemma_oversized_optional_unassigned(
    instance: Instance,
    surgeon_idx: int,
    floor: int,
    barred: Option<(usize, usize)>,
    relevant: Seq<usize>,
    lists: Seq<Seq<usize>>,
    i: usize,
)
    requires
        instance_valid(instance),
        0 <= surgeon_idx < instance.surgeons@.len(),
        relevant.contains(i),
        i < instance.patients@.len(),
        forall|d: int|
            0 <= d < instance.days ==> instance.patients@[i as int].surgery_duration > (
            #[trigger] instance.surgeons@[surgeon_idx].max_surgery_time@[d]),
        0 <= floor,
        stage1_result_ok(instance, surgeon_idx, floor, barred, relevant, lists),
    ensures
        count_of(lists[instance.days as int], i) >= 1,
{
    let t = choose|t: int| 0 <= t < relevant.len() && relevant[t] == i;
    lemma_count_element(relevant, t);
    assert(total_count(lists, i) >= 1);
    lemma_total_count_pos(lists, i);
    let d = choose|d: int| 0 <= d < lists.len() && count_of(#[trigger] lists[d], i) > 0;
    if d < instance.days {
        lemma_count_of(lists[d], i);
        assert(lists[d].contains(i));
        let j = choose|j: int| 0 <= j < lists[d].len() && lists[d][j] == i;
        assert(floor <= stage1_lo(instance.patients@, floor, barred, i) <= d);
        lemma_dur_sum_element(instance.patients@, lists[d], j);
        assert(dur_sum(instance.patients@, lists[d])
            <= instance.surgeons@[surgeon_idx].max_surgery_time@[d]);
        assert(false);
    }
    assert(d == instance.days);
    lemma_count_of(lists[instance.days as int], i);
}

/// A single day whose budget equals the seeded demand already satisfies the
/// capacity contract everywhere, so the day-forward strategy is owed success
/// without change: the day keeps exactly its seeded patients, filling its
/// budget to the minute, and nobody is left unassigned.
pub proof fn lemma_exact_fit_fills_single_day(
    patients: Seq<Patient>,
    capacity: Seq<u16>,
    seed: Seq<Seq<usize>>,
)
    requires
        capacity.len() == 1,
        seed.len() == 1,
        dur_sum(patients, seed[0]) == capacity[0],
    ensures
        caps_ok_from(patients, capacity, seed, 0),
{
}


/// The day-forward strategy leaves an optional patient whose surgery
/// outlasts every day's budget unassigned as well: whenever a run keeps the
/// patients (up to the returned pool) and every day within budget, such a
/// patient can only sit in the pool.
pub proof fn lemma_oversized_optional_unassigned_dynamic(
    patients: Seq<Patient>,
    capacity: Seq<u16>,
    before: Seq<Seq<usize>>,
    after: Seq<Seq<usize>>,
    un: Seq<usize>,
    i: usize,
)
    requires
        i < patients.len(),
        total_count(before, i) >= 1,
        crate::model::counts_match(before, after, un),
        caps_ok_from(patients, capacity, after, 0),
        after.len() == capacity.len(),
        forall|d: int|
            0 <= d < capacity.len() ==> patients[i as int].surgery_duration > (
            #[trigger] capacity[d]),
    ensures
        count_of(un, i) >= 1,
{
    assert(total_count(after, i) + count_of(un, i) == total_count(before, i));
    lemma_count_of(un, i);
    if count_of(un, i) == 0 {
        assert(total_count(after, i) >= 1);
        lemma_total_count_pos(after, i);
        let d = choose|d: int| 0 <= d < after.len() && count_of(#[trigger] after[d], i) > 0;
        lemma_count_of(after[d], i);
        assert(after[d].contains(i));
        let j = choose|j: int| 0 <= j < after[d].len() && after[d][j] == i;
        lemma_dur_sum_element(patients, after[d], j);
        assert(dur_sum(patients, after[d]) <= capacity[d]);
        assert(false);
    }
}


/// Over exactly two lists, the total count is the two lists' counts.
proof fn lemma_total_count_two(lists: Seq<Seq<usize>>, p: usize)
    requires
        lists.len() == 2,
    ensures
        total_count(lists, p) == count_of(lists[0], p) + count_of(lists[1], p),
{
    assert(lists.drop_first()[0] == lists[1]);
    assert(lists.drop_first().drop_first() =~= Seq::<Seq<usize>>::empty());
    assert(total_count(lists.drop_first().drop_first(), p) == 0);
    assert(total_count(lists.drop_first(), p) == count_of(lists[1], p) + total_count(
        lists.drop_first().drop_first(),
        p,
    ));
}

/// The exact-fit law for the LP strategy: with a single day and only
/// mandatory patients to place, a successful rounding puts exactly those
/// patients on that day, so a budget equal to their total demand is filled
/// to the minute.
pub proof fn lemma_exact_fit_fills_single_day_lp(
    instance: Instance,
    surgeon_idx: int,
    floor: int,
    barred: Option<(usize, usize)>,
    relevant: Seq<usize>,
    lists: Seq<Seq<usize>>,
)
    requires
        instance_valid(instance),
        0 <= surgeon_idx < instance.surgeons@.len(),
        instance.days == 1,
        forall|t: int|
            0 <= t < relevant.len() ==> (#[trigger] relevant[t]) < instance.patients@.len(),
        forall|t: int|
            0 <= t < relevant.len() ==> instance.patients@[(
            #[trigger] relevant[t]) as int].mandatory,
        stage1_result_ok(instance, surgeon_idx, floor, barred, relevant, lists),
    ensures
        lists[0].to_multiset() == relevant.to_multiset(),
        dur_sum(instance.patients@, lists[0]) == dur_sum(instance.patients@, relevant),
{
    // nobody sits in the pool: a pool member would be a relevant, hence
    // mandatory, patient whose due day lies past the single-day horizon
    assert(lists.len() == 2);
    assert(lists[1].len() == 0) by {
        if lists[1].len() > 0 {
            let i = lists[1][0];
            lemma_count_element(lists[1], 0);
            lemma_total_count_two(lists, i);
            lemma_count_of(lists[0], i);
            assert(count_of(relevant, i) >= 1);
            lemma_count_of(relevant, i);
            assert(relevant.contains(i));
            let ti = choose|ti: int| 0 <= ti < relevant.len() && relevant[ti] == i;
            assert(instance.patients@[i as int].mandatory);
            assert(1 <= crate::lp::stage1_hi(instance.patients@, instance.days as int, i));
            assert(false);
        }
    }
    lemma_count_empty(lists[1], 0);
    // the single day holds exactly the patients to place
    assert forall|p: usize| #[trigger] count_of(lists[0], p) == count_of(relevant, p) by {
        lemma_total_count_two(lists, p);
        lemma_count_empty(lists[1], p);
    }
    assert(lists[0].to_multiset() =~= relevant.to_multiset()) by {
        broadcast use vstd::multiset::group_multiset_axioms;

        assert forall|p: usize| #[trigger] lists[0].to_multiset().count(p)
            == relevant.to_multiset().count(p) by {
            assert(count_of(lists[0], p) == count_of(relevant, p));
        }
    }
    crate::model::lemma_dur_sum_permutation(instance.patients@, lists[0], relevant);
}

} // verus!
