//! The immutable problem instance: days, patients, surgeons, theaters, and
//! objective weights, together with the validity conditions checked before
//! stage one runs.

use vstd::prelude::*;

verus! {

/// Objective weights over the instance's penalty terms, stored as
/// non-negative integers.
#[derive(Debug, Clone, Copy, PartialEq, Eq, Structural)]
pub struct Weights {
    pub room_mixed_age: u64,
    pub room_nurse_skill: u64,
    pub continuity_of_care: u64,
    pub nurse_excessive_workload: u64,
    pub open_operating_theater: u64,
    pub surgeon_transfer: u64,
    pub patient_delay: u64,
    pub unscheduled_optional: u64,
}

/// A patient awaiting surgery.  `surgery_due_day` holds the sentinel
/// `usize::MAX` for optional patients, whose due day is absent.
#[derive(Debug, Clone)]
pub struct Patient {
    pub id: String,
    pub mandatory: bool,
    pub surgery_release_day: usize,
    pub surgery_due_day: usize,
    pub surgery_duration: u16,
    pub surgeon_id: String,
}

/// A surgeon with a per-day operating-minute budget.
#[derive(Debug, Clone)]
pub struct Surgeon {
    pub id: String,
    pub max_surgery_time: Vec<u16>,
}

/// An operating theater with a per-day availability budget in minutes.
#[derive(Debug, Clone)]
pub struct Theater {
    pub id: String,
    pub availability: Vec<u16>,
}

/// A full scheduling instance.
#[derive(Debug, Clone)]
pub struct Instance {
    pub days: usize,
    pub weights: Weights,
    pub patients: Vec<Patient>,
    pub surgeons: Vec<Surgeon>,
    pub theaters: Vec<Theater>,
}

/// The due day an input document assigns to a patient that carries none.
pub fn default_due_day() -> (r: usize)
    ensures
        r == usize::MAX,
{
    usize::MAX
}

/// Index of the first surgeon at or after position `k` whose id is `sid`,
/// or `surgeons.len()` when none matches.
pub open spec fn surgeon_of_from(surgeons: Seq<Surgeon>, sid: Seq<char>, k: int) -> int
    decreases surgeons.len() - k,
{
    if k < 0 || k >= surgeons.len() {
        surgeons.len() as int
    } else if surgeons[k].id@ == sid {
        k
    } else {
        surgeon_of_from(surgeons, sid, k + 1)
    }
}

/// Index of the first surgeon whose id is `sid`; `surgeons.len()` when none
/// matches.  Patients belong to the first surgeon carrying their id.
pub open spec fn surgeon_of(surgeons: Seq<Surgeon>, sid: Seq<char>) -> int {
    surgeon_of_from(surgeons, sid, 0)
}

/// A single patient record is well formed with respect to a horizon of
/// `days` days.
pub open spec fn patient_valid(p: Patient, days: int) -> bool {
    &&& 0 <= p.surgery_release_day < days
    &&& p.surgery_duration >= 1
    &&& if p.mandatory {
        p.surgery_release_day <= p.surgery_due_day < days
    } else {
        p.surgery_due_day == usize::MAX
    }
}

/// The pre-flight validity of an instance: a positive horizon strictly below
/// the optional-due-day sentinel, per-day budget rows of the right length,
/// well-formed patients, and every patient's surgeon id present among the
/// surgeons.
pub open spec fn instance_valid(inst: Instance) -> bool {
    &&& 1 <= inst.days < usize::MAX
    &&& forall|s: int|
        0 <= s < inst.surgeons.len() ==> (#[trigger] inst.surgeons[s].max_surgery_time)@.len()
            == inst.days
    &&& forall|t: int|
        0 <= t < inst.theaters.len() ==> (#[trigger] inst.theaters[t].availability)@.len()
            == inst.days
    &&& forall|i: int|
        0 <= i < inst.patients.len() ==> patient_valid(#[trigger] inst.patients[i], inst.days as int)
    &&& forall|i: int|
        0 <= i < inst.patients.len() ==> surgeon_of(inst.surgeons@, (#[trigger] inst.patients[i]).surgeon_id@)
            < inst.surgeons.len()
}

/// Finds the first surgeon whose id equals `sid`, as `surgeon_of` names it.
pub fn find_surgeon(surgeons: &Vec<Surgeon>, sid: &String) -> (r: usize)
    ensures
        r == surgeon_of(surgeons@, sid@),
{
    let n = surgeons.len();
    let mut k: usize = 0;
    while k < n
        invariant
            0 <= k <= n,
            n == surgeons@.len(),
            surgeon_of(surgeons@, sid@) == surgeon_of_from(surgeons@, sid@, k as int),
        decreases n - k,
    {
        if surgeons[k].id == *sid {
            return k;
        }
        k = k + 1;
    }
    n
}

/// Runs the pre-flight checks of `instance_valid` on an instance, rejecting
/// it before stage one when any fails.
pub fn check_instance(inst: &Instance) -> (r: bool)
    ensures
        r == instance_valid(*inst),
{
    if !(1 <= inst.days && inst.days < usize::MAX) {
        return false;
    }
    let ns = inst.surgeons.len();
    let mut s: usize = 0;
    while s < ns
        invariant
            0 <= s <= ns,
            ns == inst.surgeons@.len(),
            forall|j: int|
                0 <= j < s ==> (#[trigger] inst.surgeons@[j].max_surgery_time)@.len() == inst.days,
        decreases ns - s,
    {
        if inst.surgeons[s].max_surgery_time.len() != inst.days {
            return false;
        }
        s = s + 1;
    }
    let nt = inst.theaters.len();
    let mut t: usize = 0;
    while t < nt
        invariant
            0 <= t <= nt,
            nt == inst.theaters@.len(),
            forall|j: int|
                0 <= j < t ==> (#[trigger] inst.theaters@[j].availability)@.len() == inst.days,
        decreases nt - t,
    {
        if inst.theaters[t].availability.len() != inst.days {
            return false;
        }
        t = t + 1;
    }
    let np = inst.patients.len();
    let mut i: usize = 0;
    while i < np
        invariant
            0 <= i <= np,
            np == inst.patients@.len(),
            1 <= inst.days < usize::MAX,
            forall|j: int|
                0 <= j < i ==> patient_valid(#[trigger] inst.patients@[j], inst.days as int),
            forall|j: int|
                0 <= j < i ==> surgeon_of(inst.surgeons@, (#[trigger] inst.patients@[j]).surgeon_id@)
                    < inst.surgeons@.len(),
        decreases np - i,
    {
        let p = &inst.patients[i];
        if !(p.surgery_release_day < inst.days) {
            return false;
        }
        if p.surgery_duration < 1 {
            return false;
        }
        if p.mandatory {
            if !(p.surgery_release_day <= p.surgery_due_day && p.surgery_due_day < inst.days) {
                return false;
            }
        } else {
            if p.surgery_due_day != usize::MAX {
                return false;
            }
        }
        if find_surgeon(&inst.surgeons, &p.surgeon_id) >= inst.surgeons.len() {
            return false;
        }
        i = i + 1;
    }
    true
}

} // verus!
