//! The schedule under construction: for each surgeon a list of patients per
//! day plus a pool of unassigned optional patients, the per-patient theater
//! choices of stage two, and the per-surgeon locks that freeze earlier days
//! while later ones are repaired.

use vstd::prelude::*;

use crate::dynamic::{caps_ok_from, lists_wf};
use crate::instance::{Instance, Patient, Surgeon, instance_valid, surgeon_of, find_surgeon};
use crate::model::{
    count_of, dur_sum, lemma_count_remove, lemma_dur_sum_nonneg, lemma_dur_sum_push,
    lemma_dur_sum_split, total_count,
};
use crate::prelim::day_views;

verus! {

/// One surgeon's load on one day, split at the list's midpoint: the total
/// surgery time, the split position, and the times of the two halves (the
/// first half runs up to the split position exclusively).
#[derive(Debug, Clone, Copy)]
pub struct SurgeonPartitionInfo {
    pub total_duration: u16,
    pub partition_location: usize,
    pub partitioned_durations: (u16, u16),
}

/// The schedule being built: per surgeon and day the ordered patient list,
/// per surgeon the pool of unassigned optional patients and the first day
/// that may still change, and per patient the chosen theater once stage two
/// has run.
#[derive(Debug, Clone)]
pub struct Assignment {
    pub in_progress: bool,
    pub patients_per_day_per_surgeon: Vec<Vec<Vec<usize>>>,
    pub unassigned: Vec<Vec<usize>>,
    pub theater_of: Vec<Option<usize>>,
    pub locked_days: Vec<usize>,
}

impl Assignment {
    /// The shape invariant: one row of `instance.days` lists per surgeon,
    /// one pool and one lock per surgeon, one theater slot per patient.
    pub open spec fn shape_ok(self, instance: Instance) -> bool {
        &&& self.patients_per_day_per_surgeon@.len() == instance.surgeons@.len()
        &&& forall|s: int|
            0 <= s < instance.surgeons@.len() ==> (#[trigger] self.patients_per_day_per_surgeon@[s])@.len()
                == instance.days
        &&& self.unassigned@.len() == instance.surgeons@.len()
        &&& self.locked_days@.len() == instance.surgeons@.len()
        &&& forall|s: int|
            0 <= s < instance.surgeons@.len() ==> (#[trigger] self.locked_days@[s])
                <= instance.days
        &&& self.theater_of@.len() == instance.patients@.len()
    }

    /// The schedule invariant between top-level operations: besides the
    /// shape, every listed patient sits between its release and due days
    /// (and days under a budget of the right length), every day fits its
    /// surgeon's budget, every patient stands exactly once under its own
    /// surgeon (in a day list or the pool), and the pool holds only
    /// optional patients.
    pub open spec fn wf(self, instance: Instance) -> bool {
        &&& self.shape_ok(instance)
        &&& forall|s: int|
            0 <= s < instance.surgeons@.len() ==> lists_wf(
                instance.patients@,
                day_views((#[trigger] self.patients_per_day_per_surgeon@[s])@),
            )
        &&& forall|s: int, d: int|
            0 <= s < instance.surgeons@.len() && 0 <= d < instance.days ==> dur_sum(
                instance.patients@,
                #[trigger] day_views(self.patients_per_day_per_surgeon@[s]@)[d],
            ) <= instance.surgeons@[s].max_surgery_time@[d]
        &&& forall|s: int, p: usize|
            0 <= s < instance.surgeons@.len() ==> #[trigger] total_count(
                day_views(self.patients_per_day_per_surgeon@[s]@),
                p,
            ) + count_of(self.unassigned@[s]@, p) == if p < instance.patients@.len()
                && surgeon_of(instance.surgeons@, instance.patients@[p as int].surgeon_id@) == s {
                1int
            } else {
                0int
            }
        &&& forall|s: int, j: int|
            0 <= s < instance.surgeons@.len() && 0 <= j < self.unassigned@[s]@.len() ==> {
                let i = (#[trigger] self.unassigned@[s]@[j]) as int;
                &&& 0 <= i < instance.patients@.len()
                &&& !instance.patients@[i].mandatory
            }
    }

    /// An empty schedule: every list and pool empty, nothing locked, no
    /// theater chosen, not inside a writer epoch.
    pub fn new(instance: &Instance) -> (r: Assignment)
        requires
            instance_valid(*instance),
        ensures
            r.shape_ok(*instance),
            !r.in_progress,
            forall|s: int, d: int|
                0 <= s < instance.surgeons@.len() && 0 <= d < instance.days ==> (
                #[trigger] r.patients_per_day_per_surgeon@[s]@[d])@.len() == 0,
            forall|s: int|
                0 <= s < instance.surgeons@.len() ==> (#[trigger] r.unassigned@[s])@.len() == 0,
            forall|s: int|
                0 <= s < instance.surgeons@.len() ==> (#[trigger] r.locked_days@[s]) == 0,
            forall|i: int|
                0 <= i < instance.patients@.len() ==> (#[trigger] r.theater_of@[i]) is None,
    {
        let ns = instance.surgeons.len();
        let np = instance.patients.len();
        let mut rows: Vec<Vec<Vec<usize>>> = Vec::new();
        let mut un: Vec<Vec<usize>> = Vec::new();
        let mut locks: Vec<usize> = Vec::new();
        let mut s: usize = 0;
        while s < ns
            invariant
                0 <= s <= ns,
                instance.days >= 1,
                rows@.len() == s,
                un@.len() == s,
                locks@.len() == s,
                forall|a: int| 0 <= a < s ==> (#[trigger] rows@[a])@.len() == instance.days,
                forall|a: int, d: int|
                    0 <= a < s && 0 <= d < instance.days ==> (#[trigger] rows@[a]@[d])@.len() == 0,
                forall|a: int| 0 <= a < s ==> (#[trigger] un@[a])@.len() == 0,
                forall|a: int| 0 <= a < s ==> (#[trigger] locks@[a]) == 0,
            decreases ns - s,
        {
            let mut row: Vec<Vec<usize>> = Vec::new();
            let mut d: usize = 0;
            while d < instance.days
                invariant
                    0 <= d <= instance.days,
                    row@.len() == d,
                    forall|b: int| 0 <= b < d ==> (#[trigger] row@[b])@.len() == 0,
                decreases instance.days - d,
            {
                row.push(Vec::new());
                d = d + 1;
            }
            rows.push(row);
            un.push(Vec::new());
            locks.push(0);
            s = s + 1;
        }
        let mut theater_of: Vec<Option<usize>> = Vec::new();
        let mut i: usize = 0;
        while i < np
            invariant
                0 <= i <= np,
                theater_of@.len() == i,
                forall|a: int| 0 <= a < i ==> (#[trigger] theater_of@[a]) is None,
            decreases np - i,
        {
            theater_of.push(None);
            i = i + 1;
        }
        Assignment {
            in_progress: false,
            patients_per_day_per_surgeon: rows,
            unassigned: un,
            theater_of,
            locked_days: locks,
        }
    }
}

impl Surgeon {
    /// Checks this surgeon's budget against the given day lists, naming the
    /// first day whose scheduled surgery time exceeds the budget.
    pub fn has_valid_schedule(&self, day_lists: &Vec<Vec<usize>>, patients: &Vec<Patient>) -> (r:
        Result<(), usize>)
        requires
            day_lists@.len() == self.max_surgery_time@.len(),
            forall|d: int, j: int|
                0 <= d < day_lists@.len() && 0 <= j < day_lists@[d]@.len() ==> (
                #[trigger] day_lists@[d]@[j]) < patients@.len(),
            forall|d: int|
                0 <= d < day_lists@.len() ==> (#[trigger] day_lists@[d])@.len()
                    <= 0x1000_0000_0000,
        ensures
            r is Ok <==> caps_ok_from(
                patients@,
                self.max_surgery_time@,
                day_views(day_lists@),
                0,
            ),
            r matches Err(d) ==> d < day_lists@.len() && dur_sum(
                patients@,
                day_views(day_lists@)[d as int],
            ) > self.max_surgery_time@[d as int] && forall|b: int|
                0 <= b < d ==> dur_sum(patients@, #[trigger] day_views(day_lists@)[b])
                    <= self.max_surgery_time@[b],
    {
        let n = day_lists.len();
        let mut d: usize = 0;
        while d < n
            invariant
                0 <= d <= n,
                n == day_lists@.len(),
                n == self.max_surgery_time@.len(),
                forall|b: int, j: int|
                    0 <= b < day_lists@.len() && 0 <= j < day_lists@[b]@.len() ==> (
                    #[trigger] day_lists@[b]@[j]) < patients@.len(),
                forall|b: int|
                    0 <= b < day_lists@.len() ==> (#[trigger] day_lists@[b])@.len()
                        <= 0x1000_0000_0000,
                forall|b: int|
                    0 <= b < d ==> dur_sum(patients@, #[trigger] day_views(day_lists@)[b])
                        <= self.max_surgery_time@[b],
            decreases n - d,
        {
            proof {
                assert(day_views(day_lists@)[d as int] == day_lists@[d as int]@);
            }
            let sum = crate::dynamic::day_duration_sum(patients, &day_lists[d]);
            if sum > self.max_surgery_time[d] as u64 {
                return Err(d);
            }
            d = d + 1;
        }
        Ok(())
    }
}


/// Replaces one list of a row, leaving the others untouched.
fn set_slot(row: &mut Vec<Vec<usize>>, d: usize, l: Vec<usize>)
    requires
        d < old(row)@.len(),
    ensures
        final(row)@.len() == old(row)@.len(),
        forall|b: int|
            0 <= b < final(row)@.len() && b != d as int ==> (#[trigger] final(row)@[b])@ == old(
                row,
            )@[b]@,
        final(row)@[d as int]@ == l@,
{
    let ghost old_r = row@;
    let slot = &mut row[d];
    *slot = l;
    proof {
        assert forall|b: int| 0 <= b < row@.len() && b != d as int implies (#[trigger] row@[b])@
            == old_r[b]@ by {}
    }
}

/// The split position of a day list: its midpoint, the first half running
/// up to it exclusively.
pub open spec fn split_point(row: Seq<usize>) -> int {
    row.len() as int / 2
}

impl Assignment {
    /// For each surgeon, the total surgery time it has on the given day and
    /// the times of the two halves around its list's midpoint.
    pub fn get_surgeon_durations_partition_map(&self, instance: &Instance, day: usize) -> (r: Vec<
        SurgeonPartitionInfo,
    >)
        requires
            self.wf(*instance),
            instance_valid(*instance),
            day < instance.days,
        ensures
            r@.len() == instance.surgeons@.len(),
            forall|s: int|
                0 <= s < r@.len() ==> {
                    let row = day_views(
                        self.patients_per_day_per_surgeon@[s]@,
                    )[day as int];
                    &&& (#[trigger] r@[s]).total_duration == dur_sum(instance.patients@, row)
                    &&& r@[s].partition_location == row.len() as int / 2
                    &&& r@[s].partitioned_durations.0 == dur_sum(
                        instance.patients@,
                        row.take(split_point(row)),
                    )
                    &&& r@[s].partitioned_durations.1 == dur_sum(
                        instance.patients@,
                        row.skip(split_point(row)),
                    )
                },
    {
        let ns = instance.surgeons.len();
        let mut r: Vec<SurgeonPartitionInfo> = Vec::new();
        let mut s: usize = 0;
        while s < ns
            invariant
                self.wf(*instance),
                instance_valid(*instance),
                day < instance.days,
                0 <= s <= ns,
                ns == instance.surgeons@.len(),
                r@.len() == s,
                forall|a: int|
                    0 <= a < s ==> {
                        let row = day_views(
                            self.patients_per_day_per_surgeon@[a]@,
                        )[day as int];
                        &&& (#[trigger] r@[a]).total_duration == dur_sum(instance.patients@, row)
                        &&& r@[a].partition_location == row.len() as int / 2
                        &&& r@[a].partitioned_durations.0 == dur_sum(
                            instance.patients@,
                            row.take(split_point(row)),
                        )
                        &&& r@[a].partitioned_durations.1 == dur_sum(
                            instance.patients@,
                            row.skip(split_point(row)),
                        )
                    },
            decreases ns - s,
        {
            let row = &self.patients_per_day_per_surgeon[s][day];
            let ghost rv = row@;
            proof {
                assert(day_views(self.patients_per_day_per_surgeon@[s as int]@)[day as int] == rv);
                assert(dur_sum(instance.patients@, rv)
                    <= instance.surgeons@[s as int].max_surgery_time@[day as int]);
                lemma_dur_sum_nonneg(instance.patients@, rv);
            }
            let n = row.len();
            let loc: usize = n / 2;
            let split: usize = loc;
            proof {
                assert(split == split_point(rv));
            }
            let mut s0: u64 = 0;
            let mut j: usize = 0;
            while j < split
                invariant
                    self.wf(*instance),
                    day < instance.days,
                    s < ns,
                    ns == instance.surgeons@.len(),
                    rv == day_views(self.patients_per_day_per_surgeon@[s as int]@)[day as int],
                    rv == self.patients_per_day_per_surgeon@[s as int]@[day as int]@,
                    n == rv.len(),
                    0 <= j <= split <= n,
                    s0 == dur_sum(instance.patients@, rv.take(j as int)),
                    s0 <= 65535,
                decreases split - j,
            {
                proof {
                    assert(rv.take(j as int + 1) =~= rv.take(j as int).push(rv[j as int]));
                    lemma_dur_sum_push(instance.patients@, rv.take(j as int), rv[j as int]);
                    lemma_dur_sum_split(instance.patients@, rv, j as int + 1);
                    lemma_dur_sum_nonneg(instance.patients@, rv.skip(j as int + 1));
                    assert(dur_sum(instance.patients@, rv.take(j as int + 1)) <= dur_sum(
                        instance.patients@,
                        rv,
                    ));
                }
                let pi = self.patients_per_day_per_surgeon[s][day][j];
                s0 = s0 + instance.patients[pi].surgery_duration as u64;
                j = j + 1;
            }
            let mut s1: u64 = 0;
            let mut j2: usize = split;
            while j2 < n
                invariant
                    self.wf(*instance),
                    day < instance.days,
                    s < ns,
                    ns == instance.surgeons@.len(),
                    rv == day_views(self.patients_per_day_per_surgeon@[s as int]@)[day as int],
                    rv == self.patients_per_day_per_surgeon@[s as int]@[day as int]@,
                    n == rv.len(),
                    split <= j2 <= n,
                    split <= n,
                    s1 == dur_sum(instance.patients@, rv.subrange(split as int, j2 as int)),
                    s1 <= 65535,
                decreases n - j2,
            {
                proof {
                    assert(rv.subrange(split as int, j2 as int + 1) =~= rv.subrange(
                        split as int,
                        j2 as int,
                    ).push(rv[j2 as int]));
                    lemma_dur_sum_push(
                        instance.patients@,
                        rv.subrange(split as int, j2 as int),
                        rv[j2 as int],
                    );
                    lemma_dur_sum_split(instance.patients@, rv, split as int);
                    lemma_dur_sum_split(instance.patients@, rv.skip(split as int), j2 as int + 1
                        - split as int);
                    lemma_dur_sum_nonneg(instance.patients@, rv.take(split as int));
                    lemma_dur_sum_nonneg(
                        instance.patients@,
                        rv.skip(split as int).skip(j2 as int + 1 - split as int),
                    );
                    assert(rv.skip(split as int).take(j2 as int + 1 - split as int) =~= rv.subrange(
                        split as int,
                        j2 as int + 1,
                    ));
                }
                let pi = self.patients_per_day_per_surgeon[s][day][j2];
                s1 = s1 + instance.patients[pi].surgery_duration as u64;
                j2 = j2 + 1;
            }
            proof {
                lemma_dur_sum_split(instance.patients@, rv, split as int);
                assert(rv.take(split as int) =~= rv.subrange(0, split as int));
                assert(rv.skip(split as int) =~= rv.subrange(split as int, n as int));
            }
            let info = SurgeonPartitionInfo {
                total_duration: (s0 + s1) as u16,
                partition_location: loc,
                partitioned_durations: (s0 as u16, s1 as u16),
            };
            r.push(info);
            s = s + 1;
        }
        r
    }

    /// Installs one surgeon's stage-one result: the lists from the first
    /// unlocked day on are replaced, the pool is refilled, and the locked
    /// days and every other surgeon stay untouched.
    pub fn apply_stage1_result(
        &mut self,
        instance: &Instance,
        s: usize,
        lists: Vec<Vec<usize>>,
    )
        requires
            old(self).shape_ok(*instance),
            s < instance.surgeons@.len(),
            lists@.len() == instance.days + 1,
        ensures
            final(self).shape_ok(*instance),
            final(self).locked_days@ == old(self).locked_days@,
            final(self).theater_of@ == old(self).theater_of@,
            final(self).unassigned@.len() == old(self).unassigned@.len(),
            final(self).in_progress == old(self).in_progress,
            forall|a: int|
                0 <= a < instance.surgeons@.len() && a != s as int ==> (#[trigger] final(self).patients_per_day_per_surgeon@[a])@ == old(self).patients_per_day_per_surgeon@[a]@,
            forall|a: int|
                0 <= a < instance.surgeons@.len() && a != s as int ==> (#[trigger] final(self).unassigned@[a])@ == old(self).unassigned@[a]@,
            forall|d: int|
                0 <= d < old(self).locked_days@[s as int] ==> (#[trigger] final(self).patients_per_day_per_surgeon@[s as int]@[d])@ == old(self).patients_per_day_per_surgeon@[s as int]@[d]@,
            forall|d: int|
                old(self).locked_days@[s as int] <= d < instance.days ==> (#[trigger] final(self).patients_per_day_per_surgeon@[s as int]@[d])@ == lists@[d]@,
            final(self).unassigned@[s as int]@ == lists@[instance.days as int]@,
    {
        let mut lists = lists;
        let floor = self.locked_days[s];
        let ghost old_rows = self.patients_per_day_per_surgeon@;
        let ghost old_un = self.unassigned@;
        let ghost lv = lists@;
        let un_new = match lists.pop() {
            Some(l) => l,
            None => Vec::new(),
        };
        let days = instance.days;
        proof {
            assert(lists@ =~= lv.take(days as int));
        }
        let mut d: usize = days;
        while d > floor
            invariant
                floor <= d <= days,
                days == instance.days,
                lv.len() == days + 1,
                s < instance.surgeons@.len(),
                floor == self.locked_days@[s as int],
                self.patients_per_day_per_surgeon@.len() == instance.surgeons@.len(),
                self.patients_per_day_per_surgeon@[s as int]@.len() == days,
                lists@.len() == d,
                lists@ == lv.take(d as int),
                self.locked_days@ == old(self).locked_days@,
                self.theater_of@ == old(self).theater_of@,
                self.unassigned@ == old(self).unassigned@,
                self.in_progress == old(self).in_progress,
                forall|a: int|
                    0 <= a < instance.surgeons@.len() && a != s as int ==> (
                    #[trigger] self.patients_per_day_per_surgeon@[a])@ == old(self).patients_per_day_per_surgeon@[a]@,
                forall|b: int|
                    0 <= b < d ==> (#[trigger] self.patients_per_day_per_surgeon@[s as int]@[b])@
                        == old(self).patients_per_day_per_surgeon@[s as int]@[b]@,
                forall|b: int|
                    d <= b < days ==> (#[trigger] self.patients_per_day_per_surgeon@[s as int]@[b])@
                        == lv[b]@,
            decreases d,
        {
            d = d - 1;
            let l = match lists.pop() {
                Some(l) => l,
                None => Vec::new(),
            };
            proof {
                assert(lists@ =~= lv.take(d as int));
                assert(l@ == lv[d as int]@);
            }
            let ghost before = self.patients_per_day_per_surgeon@;
            let row = &mut self.patients_per_day_per_surgeon[s];
            set_slot(row, d, l);
            proof {
                assert forall|a: int|
                    0 <= a < self.patients_per_day_per_surgeon@.len() && a != s as int implies (
                #[trigger] self.patients_per_day_per_surgeon@[a])@ == before[a]@ by {}
            }
        }
        let ghost before_un = self.unassigned@;
        let uslot = &mut self.unassigned[s];
        *uslot = un_new;
        proof {
            assert forall|a: int|
                0 <= a < self.unassigned@.len() && a != s as int implies (
            #[trigger] self.unassigned@[a])@ == before_un[a]@ by {}
            assert(lv[instance.days as int]@ == self.unassigned@[s as int]@);
        }
    }

    /// Records the theater stage two chose for one patient.
    pub fn set_theater(&mut self, patient_idx: usize, t: usize)
        requires
            patient_idx < old(self).theater_of@.len(),
        ensures
            final(self).theater_of@ == old(self).theater_of@.update(patient_idx as int, Some(t)),
            final(self).patients_per_day_per_surgeon == old(self).patients_per_day_per_surgeon,
            final(self).unassigned == old(self).unassigned,
            final(self).locked_days == old(self).locked_days,
            final(self).in_progress == old(self).in_progress,
    {
        let slot = &mut self.theater_of[patient_idx];
        *slot = Some(t);
        proof {
            assert(self.theater_of@ =~= old(self).theater_of@.update(
                patient_idx as int,
                Some(t),
            ));
        }
    }

    /// Unfixes one patient: removes it from the unlocked day it stands on
    /// under its own surgeon and freezes that surgeon's earlier days, so a
    /// rerun of stage one may place it afresh.  Returns the day it left, or
    /// nothing when the patient stands on no unlocked day.
    #[verifier::rlimit(50)]
    pub fn bump_patient(&mut self, instance: &Instance, patient_idx: usize) -> (r: Option<usize>)
        requires
            old(self).shape_ok(*instance),
            instance_valid(*instance),
            patient_idx < instance.patients@.len(),
        ensures
            final(self).shape_ok(*instance),
            r is None ==> *final(self) == *old(self),
            r is None ==> ({
                let s = surgeon_of(
                    instance.surgeons@,
                    instance.patients@[patient_idx as int].surgeon_id@,
                );
                forall|d: int, j: int|
                    old(self).locked_days@[s] <= d < instance.days && 0 <= j < old(
                        self,
                    ).patients_per_day_per_surgeon@[s]@[d]@.len() ==> (#[trigger] old(
                        self,
                    ).patients_per_day_per_surgeon@[s]@[d]@[j]) != patient_idx
            }),
            r matches Some(d) ==> {
                let s = surgeon_of(
                    instance.surgeons@,
                    instance.patients@[patient_idx as int].surgeon_id@,
                );
                &&& old(self).locked_days@[s] <= d < instance.days
                &&& final(self).locked_days@ == old(self).locked_days@.update(s, d as usize)
                &&& final(self).theater_of@ == old(self).theater_of@
                &&& final(self).unassigned@ == old(self).unassigned@
                &&& final(self).in_progress == old(self).in_progress
                &&& forall|a: int|
                    0 <= a < instance.surgeons@.len() && a != s ==> (#[trigger] final(self).patients_per_day_per_surgeon@[a])@ == old(self).patients_per_day_per_surgeon@[a]@
                &&& forall|b: int|
                    0 <= b < instance.days && b != d as int ==> (#[trigger] final(self).patients_per_day_per_surgeon@[s]@[b])@ == old(self).patients_per_day_per_surgeon@[s]@[b]@
                &&& final(self).patients_per_day_per_surgeon@[s]@[d as int]@.len() == old(
                    self,
                ).patients_per_day_per_surgeon@[s]@[d as int]@.len() - 1
                &&& forall|p: usize|
                    #[trigger] count_of(
                        final(self).patients_per_day_per_surgeon@[s]@[d as int]@,
                        p,
                    ) == count_of(old(self).patients_per_day_per_surgeon@[s]@[d as int]@, p) - (
                    if p == patient_idx {
                        1int
                    } else {
                        0int
                    })
            },
    {
        let s = find_surgeon(&instance.surgeons, &instance.patients[patient_idx].surgeon_id);
        let days = instance.days;
        let floor = self.locked_days[s];
        let mut d: usize = floor;
        while d < days
            invariant
                old(self).shape_ok(*instance),
                self == old(self),
                instance_valid(*instance),
                s < instance.surgeons@.len(),
                s == surgeon_of(
                    instance.surgeons@,
                    instance.patients@[patient_idx as int].surgeon_id@,
                ),
                patient_idx < instance.patients@.len(),
                floor <= d <= days,
                days == instance.days,
                floor == self.locked_days@[s as int],
                forall|d2: int, j2: int|
                    floor <= d2 < d && 0 <= j2
                        < self.patients_per_day_per_surgeon@[s as int]@[d2]@.len() ==> (
                    #[trigger] self.patients_per_day_per_surgeon@[s as int]@[d2]@[j2])
                        != patient_idx,
            decreases days - d,
        {
            let n = self.patients_per_day_per_surgeon[s][d].len();
            let mut j: usize = 0;
            while j < n
                invariant
                    old(self).shape_ok(*instance),
                    self == old(self),
                    s < instance.surgeons@.len(),
                    s == surgeon_of(
                        instance.surgeons@,
                        instance.patients@[patient_idx as int].surgeon_id@,
                    ),
                    patient_idx < instance.patients@.len(),
                    d < instance.days,
                    self.locked_days@[s as int] <= d,
                    n == self.patients_per_day_per_surgeon@[s as int]@[d as int]@.len(),
                    0 <= j <= n,
                    forall|d2: int, j2: int|
                        self.locked_days@[s as int] <= d2 < d && 0 <= j2
                            < self.patients_per_day_per_surgeon@[s as int]@[d2]@.len() ==> (
                        #[trigger] self.patients_per_day_per_surgeon@[s as int]@[d2]@[j2])
                            != patient_idx,
                    forall|j2: int|
                        0 <= j2 < j ==> (
                        #[trigger] self.patients_per_day_per_surgeon@[s as int]@[d as int]@[j2])
                            != patient_idx,
                decreases n - j,
            {
                if self.patients_per_day_per_surgeon[s][d][j] == patient_idx {
                    let ghost before = self.patients_per_day_per_surgeon@;
                    let row = &mut self.patients_per_day_per_surgeon[s];
                    let slot = &mut row[d];
                    slot.remove(j);
                    proof {
                        assert forall|a: int|
                            0 <= a < self.patients_per_day_per_surgeon@.len() && a != s as int
                            implies (#[trigger] self.patients_per_day_per_surgeon@[a])@
                            == before[a]@ by {}
                        assert forall|b: int|
                            0 <= b < instance.days && b != d as int implies (
                        #[trigger] self.patients_per_day_per_surgeon@[s as int]@[b])@
                            == before[s as int]@[b]@ by {}
                    }
                    let lslot = &mut self.locked_days[s];
                    *lslot = d;
                    proof {
                        assert(self.locked_days@ =~= old(self).locked_days@.update(
                            s as int,
                            d as usize,
                        ));
                        assert(old(self).patients_per_day_per_surgeon@[s as int]@[d as int]@[
                            j as int] == patient_idx);
                        assert(self.patients_per_day_per_surgeon@[s as int]@[d as int]@ == old(
                            self,
                        ).patients_per_day_per_surgeon@[s as int]@[d as int]@.remove(j as int));
                        assert forall|p: usize|
                            #[trigger] count_of(
                                self.patients_per_day_per_surgeon@[s as int]@[d as int]@,
                                p,
                            ) == count_of(
                                old(self).patients_per_day_per_surgeon@[s as int]@[d as int]@,
                                p,
                            ) - (if p == patient_idx {
                                1int
                            } else {
                                0int
                            }) by {
                            lemma_count_remove(
                                old(self).patients_per_day_per_surgeon@[s as int]@[d as int]@,
                                j as int,
                                p,
                            );
                        }
                    }
                    return Some(d);
                }
                j = j + 1;
            }
            d = d + 1;
        }
        None
    }
}


/// Patient `a` is at least as good a bump victim as `b`: optional before
/// mandatory, then the shorter surgery, then the later due day (optional
/// patients carry the sentinel and thus unbounded slack).
pub open spec fn victim_le(patients: Seq<Patient>, a: usize, b: usize) -> bool {
    let pa = patients[a as int];
    let pb = patients[b as int];
    ||| (!pa.mandatory && pb.mandatory)
    ||| (pa.mandatory == pb.mandatory && pa.surgery_duration < pb.surgery_duration)
    ||| (pa.mandatory == pb.mandatory && pa.surgery_duration == pb.surgery_duration
        && pa.surgery_due_day >= pb.surgery_due_day)
}

impl Assignment {
    /// Chooses the patient to revoke from a day that stage two cannot pack:
    /// among everyone on that day, an optional patient with a short surgery
    /// and distant due day is preferred.  Returns nothing when the day is
    /// empty.
    pub fn choose_bump_victim(&self, instance: &Instance, day: usize) -> (r: Option<usize>)
        requires
            self.wf(*instance),
            instance_valid(*instance),
            day < instance.days,
        ensures
            r matches Some(i) ==> {
                &&& i < instance.patients@.len()
                &&& exists|s: int, j: int|
                    0 <= s < instance.surgeons@.len() && 0 <= j
                        < self.patients_per_day_per_surgeon@[s]@[day as int]@.len() && (
                    #[trigger] self.patients_per_day_per_surgeon@[s]@[day as int]@[j]) == i
                &&& forall|s: int, j: int|
                    0 <= s < instance.surgeons@.len() && 0 <= j
                        < self.patients_per_day_per_surgeon@[s]@[day as int]@.len() ==> victim_le(
                        instance.patients@,
                        i,
                        #[trigger] self.patients_per_day_per_surgeon@[s]@[day as int]@[j],
                    )
            },
            r is None ==> forall|s: int|
                0 <= s < instance.surgeons@.len() ==> (
                #[trigger] self.patients_per_day_per_surgeon@[s]@[day as int])@.len() == 0,
    {
        let ns = instance.surgeons.len();
        let mut best: Option<usize> = None;
        let mut s: usize = 0;
        while s < ns
            invariant
                self.wf(*instance),
                instance_valid(*instance),
                day < instance.days,
                ns == instance.surgeons@.len(),
                0 <= s <= ns,
                best matches Some(i) ==> {
                    &&& i < instance.patients@.len()
                    &&& exists|s2: int, j: int|
                        0 <= s2 < ns && 0 <= j
                            < self.patients_per_day_per_surgeon@[s2]@[day as int]@.len() && (
                        #[trigger] self.patients_per_day_per_surgeon@[s2]@[day as int]@[j]) == i
                    &&& forall|s2: int, j: int|
                        0 <= s2 < s && 0 <= j
                            < self.patients_per_day_per_surgeon@[s2]@[day as int]@.len()
                            ==> victim_le(
                            instance.patients@,
                            i,
                            #[trigger] self.patients_per_day_per_surgeon@[s2]@[day as int]@[j],
                        )
                },
                best is None ==> forall|s2: int|
                    0 <= s2 < s ==> (#[trigger] self.patients_per_day_per_surgeon@[s2]@[
                        day as int])@.len() == 0,
            decreases ns - s,
        {
            let n = self.patients_per_day_per_surgeon[s][day].len();
            let mut j: usize = 0;
            while j < n
                invariant
                    self.wf(*instance),
                    instance_valid(*instance),
                    day < instance.days,
                    ns == instance.surgeons@.len(),
                    s < ns,
                    n == self.patients_per_day_per_surgeon@[s as int]@[day as int]@.len(),
                    0 <= j <= n,
                    best matches Some(i) ==> {
                        &&& i < instance.patients@.len()
                        &&& exists|s2: int, j2: int|
                            0 <= s2 < ns && 0 <= j2
                                < self.patients_per_day_per_surgeon@[s2]@[day as int]@.len() && (
                            #[trigger] self.patients_per_day_per_surgeon@[s2]@[day as int]@[j2])
                                == i
                        &&& forall|s2: int, j2: int|
                            0 <= s2 < s && 0 <= j2
                                < self.patients_per_day_per_surgeon@[s2]@[day as int]@.len()
                                ==> victim_le(
                                instance.patients@,
                                i,
                                #[trigger] self.patients_per_day_per_surgeon@[s2]@[day as int]@[
                                    j2],
                            )
                        &&& forall|j2: int|
                            0 <= j2 < j ==> victim_le(
                                instance.patients@,
                                i,
                                #[trigger] self.patients_per_day_per_surgeon@[s as int]@[
                                    day as int]@[j2],
                            )
                    },
                    best is None ==> (forall|s2: int|
                        0 <= s2 < s ==> (#[trigger] self.patients_per_day_per_surgeon@[s2]@[
                            day as int])@.len() == 0) && j == 0,
                decreases n - j,
            {
                let cand = self.patients_per_day_per_surgeon[s][day][j];
                proof {
                    assert(day_views(self.patients_per_day_per_surgeon@[s as int]@)[day as int]
                        == self.patients_per_day_per_surgeon@[s as int]@[day as int]@);
                    assert(cand < instance.patients@.len());
                }
                let take = match best {
                    None => true,
                    Some(b) => {
                        let pc = &instance.patients[cand];
                        let pb = &instance.patients[b];
                        (!pc.mandatory && pb.mandatory) || (pc.mandatory == pb.mandatory
                            && pc.surgery_duration < pb.surgery_duration) || (pc.mandatory
                            == pb.mandatory && pc.surgery_duration == pb.surgery_duration
                            && pc.surgery_due_day > pb.surgery_due_day)
                    },
                };
                if take {
                    best = Some(cand);
                }
                proof {
                    assert(self.patients_per_day_per_surgeon@[s as int]@[day as int]@[j as int]
                        == cand);
                }
                j = j + 1;
            }
            s = s + 1;
        }
        best
    }
}

} // verus!
