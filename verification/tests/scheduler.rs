//! End-to-end checks of stage one: seeding, the day-forward bumping strategy,
//! and the randomized rounding of the day-assignment LP.

use ihtc_scheduler::ScheduleError;
use ihtc_scheduler::dynamic::{arrange_patients_for_surgeons, dynamic_by_day_surgery_knapsack};
use ihtc_scheduler::instance::{Instance, Patient, Surgeon, Theater, Weights, check_instance, default_due_day};
use ihtc_scheduler::lp::collect_relevant;
use ihtc_scheduler::prelim::prelim_day_assignment;
use ihtc_scheduler::rounding::lp_relaxation_surgery_knapsack;
use ihtc_scheduler::rng::SCALE;

fn weights() -> Weights {
    Weights {
        room_mixed_age: 5,
        room_nurse_skill: 1,
        continuity_of_care: 1,
        nurse_excessive_workload: 10,
        open_operating_theater: 30,
        surgeon_transfer: 1,
        patient_delay: 10,
        unscheduled_optional: 300,
    }
}

fn mandatory(id: &str, release: usize, due: usize, dur: u16, sid: &str) -> Patient {
    Patient {
        id: id.to_string(),
        mandatory: true,
        surgery_release_day: release,
        surgery_due_day: due,
        surgery_duration: dur,
        surgeon_id: sid.to_string(),
    }
}

fn optional(id: &str, release: usize, dur: u16, sid: &str) -> Patient {
    Patient {
        id: id.to_string(),
        mandatory: false,
        surgery_release_day: release,
        surgery_due_day: default_due_day(),
        surgery_duration: dur,
        surgeon_id: sid.to_string(),
    }
}

fn surgeon(id: &str, caps: Vec<u16>) -> Surgeon {
    Surgeon { id: id.to_string(), max_surgery_time: caps }
}

fn theater(id: &str, avail: Vec<u16>) -> Theater {
    Theater { id: id.to_string(), availability: avail }
}

fn instance(days: usize, patients: Vec<Patient>, surgeons: Vec<Surgeon>, theaters: Vec<Theater>) -> Instance {
    let inst = Instance { days, weights: weights(), patients, surgeons, theaters };
    assert!(check_instance(&inst));
    inst
}

fn rng(seed: u64) -> rand::rngs::StdRng {
    <rand::rngs::StdRng as rand::SeedableRng>::seed_from_u64(seed)
}

#[test]
fn prelim_seeds_at_release_days() {
    let inst = instance(
        2,
        vec![
            mandatory("p0", 0, 1, 60, "s0"),
            mandatory("p1", 1, 1, 30, "s0"),
            optional("p2", 0, 20, "s0"),
        ],
        vec![surgeon("s0", vec![120, 120])],
        vec![theater("t0", vec![120, 120])],
    );
    let seeded = prelim_day_assignment(&inst);
    assert_eq!(seeded.len(), 1);
    // day 0 sorted: earlier due day first, so p0 before the optional p2
    assert_eq!(seeded[0][0], vec![0, 2]);
    assert_eq!(seeded[0][1], vec![1]);
}

#[test]
fn dynamic_bumps_overfull_day() {
    // two interchangeable mandatory patients and one day of room each: the
    // later-listed one moves on to the next day
    let inst = instance(
        2,
        vec![mandatory("p0", 0, 1, 60, "s0"), mandatory("p1", 0, 1, 60, "s0")],
        vec![surgeon("s0", vec![60, 60])],
        vec![theater("t0", vec![60, 60])],
    );
    let mut seeded = prelim_day_assignment(&inst);
    let un = arrange_patients_for_surgeons(&inst, &mut seeded, None).unwrap();
    assert_eq!(seeded[0][0], vec![0]);
    assert_eq!(seeded[0][1], vec![1]);
    assert_eq!(un[0].len(), 0);
}

#[test]
fn dynamic_reports_unreachable_capacity() {
    // two mandatory patients due the same single day that holds only one
    let inst = instance(
        1,
        vec![mandatory("p0", 0, 0, 60, "s0"), mandatory("p1", 0, 0, 60, "s0")],
        vec![surgeon("s0", vec![100])],
        vec![theater("t0", vec![100])],
    );
    let mut seeded = prelim_day_assignment(&inst);
    let r = arrange_patients_for_surgeons(&inst, &mut seeded, None);
    assert_eq!(r.err().unwrap(), ScheduleError::CapacityUnreachable(0));
}

#[test]
fn rounding_reports_mandatory_unassignable() {
    // the LP path on the same instance: the first patient takes the day and
    // the second cannot be placed anywhere
    let inst = instance(
        1,
        vec![mandatory("p0", 0, 0, 60, "s0"), mandatory("p1", 0, 0, 60, "s0")],
        vec![surgeon("s0", vec![100])],
        vec![theater("t0", vec![100])],
    );
    let relevant = collect_relevant(&inst, 0);
    assert_eq!(relevant, vec![0, 1]);
    // each patient has one variable, fully on day 0
    let values = vec![SCALE, SCALE];
    let keys = vec![0u64, 0u64];
    let mut g = rng(11);
    let r = lp_relaxation_surgery_knapsack(&inst, 0, 0, &relevant, None, &values, &keys, &mut g);
    assert_eq!(r.err().unwrap(), ScheduleError::MandatoryUnassignable(1));
}

#[test]
fn oversized_optional_lands_in_pool() {
    // an optional surgery longer than every day's budget is never placed
    let inst = instance(
        3,
        vec![optional("p0", 0, 100, "s0")],
        vec![surgeon("s0", vec![30, 30, 30])],
        vec![theater("t0", vec![200, 200, 200])],
    );
    let relevant = collect_relevant(&inst, 0);
    // all mass on day 0; the sink carries none
    let values = vec![SCALE, 0, 0, 0];
    let keys = vec![0u64];
    let mut g = rng(5);
    let lists = lp_relaxation_surgery_knapsack(&inst, 0, 0, &relevant, None, &values, &keys, &mut g)
        .unwrap();
    assert_eq!(lists.len(), 4);
    assert_eq!(lists[0], Vec::<usize>::new());
    assert_eq!(lists[1], Vec::<usize>::new());
    assert_eq!(lists[2], Vec::<usize>::new());
    assert_eq!(lists[3], vec![0]);
}

#[test]
fn zero_budget_mandatory_fails() {
    // a surgeon with no operating time and a mandatory patient
    let inst = instance(
        2,
        vec![mandatory("p0", 0, 1, 10, "s0")],
        vec![surgeon("s0", vec![0, 0])],
        vec![theater("t0", vec![100, 100])],
    );
    let relevant = collect_relevant(&inst, 0);
    let values = vec![SCALE, 0];
    let keys = vec![0u64];
    let mut g = rng(3);
    let r = lp_relaxation_surgery_knapsack(&inst, 0, 0, &relevant, None, &values, &keys, &mut g);
    assert_eq!(r.err().unwrap(), ScheduleError::MandatoryUnassignable(0));
}

#[test]
fn zero_budget_optional_all_unassigned() {
    // a surgeon with no operating time and only optional patients
    let inst = instance(
        2,
        vec![optional("p0", 0, 10, "s0"), optional("p1", 0, 20, "s0")],
        vec![surgeon("s0", vec![0, 0])],
        vec![theater("t0", vec![100, 100])],
    );
    let relevant = collect_relevant(&inst, 0);
    // three days each (two real days and the sink)
    let values = vec![SCALE, 0, 0, SCALE, 0, 0];
    let keys = vec![0u64, 0u64];
    let mut g = rng(9);
    let lists = lp_relaxation_surgery_knapsack(&inst, 0, 0, &relevant, None, &values, &keys, &mut g)
        .unwrap();
    assert_eq!(lists[0], Vec::<usize>::new());
    assert_eq!(lists[1], Vec::<usize>::new());
    let mut pool = lists[2].clone();
    pool.sort();
    assert_eq!(pool, vec![0, 1]);
}

#[test]
fn exact_fit_fills_single_day() {
    // one day whose budget equals the seeded demand stays exactly as seeded
    let inst = instance(
        1,
        vec![mandatory("p0", 0, 0, 70, "s0"), mandatory("p1", 0, 0, 50, "s0")],
        vec![surgeon("s0", vec![120])],
        vec![theater("t0", vec![120])],
    );
    let mut seeded = prelim_day_assignment(&inst);
    let before = seeded.clone();
    let un = arrange_patients_for_surgeons(&inst, &mut seeded, None).unwrap();
    assert_eq!(seeded, before);
    assert_eq!(un[0].len(), 0);
    let total: u64 = seeded[0][0]
        .iter()
        .map(|&i| inst.patients[i].surgery_duration as u64)
        .sum();
    assert_eq!(total, 120);
}

#[test]
fn optional_bumped_when_mandatory_fill_day() {
    // both mandatory patients fill their due day; the optional one moves on
    let inst = instance(
        2,
        vec![
            mandatory("p0", 0, 0, 60, "s0"),
            mandatory("p1", 0, 0, 60, "s0"),
            optional("p2", 0, 60, "s0"),
        ],
        vec![surgeon("s0", vec![120, 60])],
        vec![theater("t0", vec![120, 60])],
    );
    let mut seeded = prelim_day_assignment(&inst);
    let un = arrange_patients_for_surgeons(&inst, &mut seeded, None).unwrap();
    let mut day0 = seeded[0][0].clone();
    day0.sort();
    assert_eq!(day0, vec![0, 1]);
    assert_eq!(seeded[0][1], vec![2]);
    assert_eq!(un[0].len(), 0);
}

#[test]
fn dynamic_knapsack_directly() {
    // the per-surgeon entry point, called as the strategy itself would be
    let inst = instance(
        2,
        vec![mandatory("p0", 0, 1, 60, "s0"), mandatory("p1", 0, 1, 60, "s0")],
        vec![surgeon("s0", vec![60, 60])],
        vec![theater("t0", vec![60, 60])],
    );
    let mut lists = prelim_day_assignment(&inst).remove(0);
    let un = dynamic_by_day_surgery_knapsack(
        &inst.surgeons[0].max_surgery_time,
        &mut lists,
        0,
        &inst.patients,
    )
    .unwrap();
    assert_eq!(un.len(), 0);
    assert_eq!(lists[0], vec![0]);
    assert_eq!(lists[1], vec![1]);
}

#[test]
fn dynamic_exhausts_attempts_on_dead_second_day() {
    // day one is overfull, both patients may still wait, yet the next day
    // has no budget at all: every bumping attempt fails
    let inst = instance(
        2,
        vec![mandatory("p0", 0, 1, 60, "s0"), mandatory("p1", 0, 1, 60, "s0")],
        vec![surgeon("s0", vec![60, 0])],
        vec![theater("t0", vec![60, 60])],
    );
    let mut seeded = prelim_day_assignment(&inst);
    let r = arrange_patients_for_surgeons(&inst, &mut seeded, None);
    assert_eq!(r.err().unwrap(), ScheduleError::AllAttemptsFailed(0));
}

#[test]
fn dynamic_leaves_oversized_optional_unassigned() {
    // the day-forward strategy pushes the too-long optional surgery off the
    // horizon entirely
    let inst = instance(
        2,
        vec![optional("p0", 0, 100, "s0")],
        vec![surgeon("s0", vec![30, 30])],
        vec![theater("t0", vec![200, 200])],
    );
    let mut seeded = prelim_day_assignment(&inst);
    let un = arrange_patients_for_surgeons(&inst, &mut seeded, None).unwrap();
    assert_eq!(seeded[0][0], Vec::<usize>::new());
    assert_eq!(seeded[0][1], Vec::<usize>::new());
    assert_eq!(un[0], vec![0]);
}
