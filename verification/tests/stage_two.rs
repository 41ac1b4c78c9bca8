//! Checks of stage two and of the pieces around it: the theater LP's
//! coefficients and constraints, its rounding, the greedy fallback packing,
//! the pre-flight validation, and the bump protocol.

use ihtc_scheduler::ScheduleError;
use ihtc_scheduler::assignment::{Assignment, SurgeonPartitionInfo};
use ihtc_scheduler::instance::{Instance, Patient, Surgeon, Theater, Weights, check_instance, default_due_day};
use ihtc_scheduler::lp::{ConstraintOp, build_surgeon_day_lp, collect_relevant, BUMP_WEIGHT, MANDATORY_MULT};
use ihtc_scheduler::dynamic::arrange_patients_for_surgeons;
use ihtc_scheduler::prelim::prelim_day_assignment;
use ihtc_scheduler::rounding::lp_relaxation_surgery_knapsack;
use ihtc_scheduler::rng::SCALE;
use ihtc_scheduler::theater::{
    TheaterChoice, biggest_in_biggest_bin_pack, lp_various_bin_packing,
    patient_OT_assignment_for_day,
};

fn weights() -> Weights {
    Weights {
        room_mixed_age: 5,
        room_nurse_skill: 1,
        continuity_of_care: 1,
        nurse_excessive_workload: 10,
        open_operating_theater: 30,
        surgeon_transfer: 1,
        patient_delay: 10,
        unscheduled_optional: 300,
    }
}

fn mandatory(id: &str, release: usize, due: usize, dur: u16, sid: &str) -> Patient {
    Patient {
        id: id.to_string(),
        mandatory: true,
        surgery_release_day: release,
        surgery_due_day: due,
        surgery_duration: dur,
        surgeon_id: sid.to_string(),
    }
}

fn optional(id: &str, release: usize, dur: u16, sid: &str) -> Patient {
    Patient {
        id: id.to_string(),
        mandatory: false,
        surgery_release_day: release,
        surgery_due_day: default_due_day(),
        surgery_duration: dur,
        surgeon_id: sid.to_string(),
    }
}

fn surgeon(id: &str, caps: Vec<u16>) -> Surgeon {
    Surgeon { id: id.to_string(), max_surgery_time: caps }
}

fn theater(id: &str, avail: Vec<u16>) -> Theater {
    Theater { id: id.to_string(), availability: avail }
}

fn instance(days: usize, patients: Vec<Patient>, surgeons: Vec<Surgeon>, theaters: Vec<Theater>) -> Instance {
    let inst = Instance { days, weights: weights(), patients, surgeons, theaters };
    assert!(check_instance(&inst));
    inst
}

fn rng(seed: u64) -> rand::rngs::StdRng {
    <rand::rngs::StdRng as rand::SeedableRng>::seed_from_u64(seed)
}

#[test]
fn check_lp_various_bin_packing() {
}

#[test]
fn surgeon_day_lp_coefficients() {
    // one mandatory patient over days 0..=2, one optional over days 1..=3
    // (day 3 being the unassigned sink)
    let inst = instance(
        3,
        vec![mandatory("p0", 0, 2, 40, "s0"), optional("p1", 1, 30, "s0")],
        vec![surgeon("s0", vec![100, 110, 120])],
        vec![theater("t0", vec![100, 100, 100])],
    );
    let relevant = collect_relevant(&inst, 0);
    let sp = build_surgeon_day_lp(&inst, 0, 0, &relevant, None).unwrap();
    assert_eq!(
        sp.var_map,
        vec![(0, 0), (0, 1), (0, 2), (1, 1), (1, 2), (1, 3)]
    );
    // a mandatory delay costs five-fold; the sink costs the bump weight
    assert_eq!(MANDATORY_MULT, 5);
    assert_eq!(BUMP_WEIGHT, 50);
    assert_eq!(sp.lp.costs, vec![0, 5, 10, 0, 1, 50]);
    // one spread constraint per patient, one capacity constraint per day
    assert_eq!(sp.lp.constraints.len(), 2 + 3);
    assert_eq!(sp.lp.constraints[0].op, ConstraintOp::Eq);
    assert_eq!(sp.lp.constraints[0].rhs, 1);
    assert_eq!(sp.lp.constraints[0].terms, vec![(0, 1), (1, 1), (2, 1)]);
    assert_eq!(sp.lp.constraints[1].terms, vec![(3, 1), (4, 1), (5, 1)]);
    let cap0 = &sp.lp.constraints[2];
    assert_eq!(cap0.op, ConstraintOp::Le);
    assert_eq!(cap0.rhs, 100);
    assert_eq!(cap0.terms, vec![(0, 40)]);
    let cap1 = &sp.lp.constraints[3];
    assert_eq!(cap1.rhs, 110);
    assert_eq!(cap1.terms, vec![(1, 40), (3, 30)]);
    let cap2 = &sp.lp.constraints[4];
    assert_eq!(cap2.rhs, 120);
    assert_eq!(cap2.terms, vec![(2, 40), (4, 30)]);
}

#[test]
fn surgeon_day_lp_rejects_closed_window() {
    // barring the only admissible day of a mandatory patient
    let inst = instance(
        2,
        vec![mandatory("p0", 0, 0, 40, "s0")],
        vec![surgeon("s0", vec![100, 100])],
        vec![theater("t0", vec![100, 100])],
    );
    let relevant = collect_relevant(&inst, 0);
    let r = build_surgeon_day_lp(&inst, 0, 0, &relevant, Some((0, 0)));
    assert_eq!(r.err().unwrap(), ScheduleError::MandatoryUnassignable(0));
}

#[test]
fn theater_lp_shape() {
    let infos = vec![SurgeonPartitionInfo {
        total_duration: 120,
        partition_location: 1,
        partitioned_durations: (60, 60),
    }];
    let caps: Vec<u16> = vec![60, 60];
    let ranks: Vec<u64> = vec![0, 1];
    let lp = lp_various_bin_packing(2, 1, 1, 30, &caps, &ranks, &infos);
    // per theater a whole and two half placements, then the opening variables
    assert_eq!(lp.costs, vec![0, 1, 0, 1, 2, 1, 30, 30]);
    assert_eq!(lp.constraints.len(), 2 * 1 + 2);
    // the two halves balance
    assert_eq!(lp.constraints[0].op, ConstraintOp::Eq);
    assert_eq!(lp.constraints[0].rhs, 0);
    assert_eq!(lp.constraints[0].terms, vec![(1, 1), (4, 1), (2, -1), (5, -1)]);
    // exactly one split level is chosen, fully
    assert_eq!(lp.constraints[1].rhs, 1);
    assert_eq!(lp.constraints[1].terms, vec![(0, 1), (3, 1), (1, 1), (4, 1)]);
    // each theater's load stays under its scaled availability
    assert_eq!(lp.constraints[2].op, ConstraintOp::Ge);
    assert_eq!(lp.constraints[2].terms, vec![(0, -120), (1, -60), (2, -60), (6, 60)]);
    assert_eq!(lp.constraints[3].terms, vec![(3, -120), (4, -60), (5, -60), (7, 60)]);
}

#[test]
fn theater_rounding_splits_surgeon() {
    // a surgeon whose day outgrows every single theater is split between two
    let inst = instance(
        2,
        vec![mandatory("p0", 0, 0, 60, "s0"), mandatory("p1", 0, 0, 60, "s0")],
        vec![surgeon("s0", vec![120, 0])],
        vec![theater("t0", vec![60, 60]), theater("t1", vec![60, 60])],
    );
    let mut a = Assignment::new(&inst);
    a.apply_stage1_result(&inst, 0, vec![vec![0, 1], vec![], vec![]]);
    // full mass on the first half into the first theater and the second half
    // into the second
    let values = vec![0, SCALE, 0, 0, 0, SCALE, SCALE, SCALE];
    let (lists, choices) = a.patient_OT_assignment_for_day(&inst, 0, &values).unwrap();
    assert_eq!(choices, vec![TheaterChoice::Split(0, 1)]);
    assert_eq!(lists[0], vec![0]);
    assert_eq!(lists[1], vec![1]);
}

#[test]
fn theater_rounding_rejects_overfull_theater() {
    let inst = instance(
        1,
        vec![mandatory("p0", 0, 0, 60, "s0"), mandatory("p1", 0, 0, 60, "s0")],
        vec![surgeon("s0", vec![120])],
        vec![theater("t0", vec![60])],
    );
    let mut a = Assignment::new(&inst);
    a.apply_stage1_result(&inst, 0, vec![vec![0, 1], vec![]]);
    // everything into the single theater, wholly
    let values = vec![SCALE, 0, 0, SCALE];
    let r = a.patient_OT_assignment_for_day(&inst, 0, &values);
    assert_eq!(r.err().unwrap(), ScheduleError::RoundingInfeasible(0));
}

#[test]
fn partition_map_values() {
    let inst = instance(
        1,
        vec![
            mandatory("p0", 0, 0, 10, "s0"),
            mandatory("p1", 0, 0, 20, "s0"),
            mandatory("p2", 0, 0, 30, "s0"),
        ],
        vec![surgeon("s0", vec![100])],
        vec![theater("t0", vec![100])],
    );
    let mut a = Assignment::new(&inst);
    a.apply_stage1_result(&inst, 0, vec![vec![0, 1, 2], vec![]]);
    let infos = a.get_surgeon_durations_partition_map(&inst, 0);
    assert_eq!(infos.len(), 1);
    assert_eq!(infos[0].total_duration, 60);
    assert_eq!(infos[0].partition_location, 1);
    assert_eq!(infos[0].partitioned_durations, (10, 50));
}

#[test]
fn greedy_pack_fills_roomiest_first() {
    let items: Vec<(usize, u16)> = vec![(7, 20), (8, 50), (9, 30)];
    let bins: Vec<(usize, u16)> = vec![(0, 60), (1, 50)];
    let out = biggest_in_biggest_bin_pack(&items, &bins).unwrap();
    assert_eq!(out[0], vec![(8, 50)]);
    assert_eq!(out[1], vec![(9, 30), (7, 20)]);
}

#[test]
fn greedy_pack_reports_failure() {
    let items: Vec<(usize, u16)> = vec![(0, 50), (1, 30), (2, 20)];
    let bins: Vec<(usize, u16)> = vec![(0, 60), (1, 40)];
    assert!(biggest_in_biggest_bin_pack(&items, &bins).is_none());
}

#[test]
fn greedy_day_packing_respects_availability() {
    let inst = instance(
        1,
        vec![
            mandatory("p0", 0, 0, 50, "s0"),
            mandatory("p1", 0, 0, 30, "s0"),
            mandatory("p2", 0, 0, 20, "s1"),
        ],
        vec![surgeon("s0", vec![80]), surgeon("s1", vec![20])],
        vec![theater("t0", vec![60]), theater("t1", vec![50])],
    );
    let rows = vec![vec![vec![0, 1]], vec![vec![2]]];
    let out = patient_OT_assignment_for_day(&inst, &rows, 0).unwrap();
    assert_eq!(out.len(), 2);
    assert_eq!(out[0], vec![(0, 50)]);
    assert_eq!(out[1], vec![(1, 30), (2, 20)]);
}

#[test]
fn bump_and_replace_restores_schedule() {
    // bump the second patient off its day, then rerun stage one on it with
    // the earlier day frozen: it lands on its old day again
    let inst = instance(
        2,
        vec![mandatory("p0", 0, 1, 60, "s0"), mandatory("p1", 0, 1, 60, "s0")],
        vec![surgeon("s0", vec![60, 60])],
        vec![theater("t0", vec![60, 60])],
    );
    let mut a = Assignment::new(&inst);
    a.apply_stage1_result(&inst, 0, vec![vec![0], vec![1], vec![]]);
    let d = a.bump_patient(&inst, 1).unwrap();
    assert_eq!(d, 1);
    assert_eq!(a.locked_days[0], 1);
    assert_eq!(a.patients_per_day_per_surgeon[0][0], vec![0]);
    assert_eq!(a.patients_per_day_per_surgeon[0][1], Vec::<usize>::new());
    // the victim may only be placed from the first unlocked day on
    let relevant = vec![1usize];
    let values = vec![SCALE];
    let keys = vec![0u64];
    let mut g = rng(4);
    let lists = lp_relaxation_surgery_knapsack(&inst, 0, 1, &relevant, None, &values, &keys, &mut g)
        .unwrap();
    assert_eq!(lists[0], Vec::<usize>::new());
    assert_eq!(lists[1], vec![1]);
    a.apply_stage1_result(&inst, 0, lists);
    assert_eq!(a.patients_per_day_per_surgeon[0][0], vec![0]);
    assert_eq!(a.patients_per_day_per_surgeon[0][1], vec![1]);
    assert_eq!(a.unassigned[0], Vec::<usize>::new());
}

#[test]
fn bump_skips_locked_days() {
    let inst = instance(
        2,
        vec![mandatory("p0", 0, 1, 60, "s0")],
        vec![surgeon("s0", vec![60, 60])],
        vec![theater("t0", vec![60, 60])],
    );
    let mut a = Assignment::new(&inst);
    a.apply_stage1_result(&inst, 0, vec![vec![0], vec![], vec![]]);
    let d = a.bump_patient(&inst, 0).unwrap();
    assert_eq!(d, 0);
    assert_eq!(a.locked_days[0], 0);
    // once removed, the patient stands on no unlocked day
    assert!(a.bump_patient(&inst, 0).is_none());
}

#[test]
fn squeeze_recovers_unassigned_optional() {
    // the sink mass pushes the optional patient out, yet the day has room,
    // so the squeeze pass brings it back
    let inst = instance(
        1,
        vec![optional("p0", 0, 30, "s0")],
        vec![surgeon("s0", vec![100])],
        vec![theater("t0", vec![100])],
    );
    let relevant = collect_relevant(&inst, 0);
    let values = vec![0, SCALE];
    let keys = vec![0u64];
    let mut g = rng(8);
    let lists = lp_relaxation_surgery_knapsack(&inst, 0, 0, &relevant, None, &values, &keys, &mut g)
        .unwrap();
    assert_eq!(lists[0], vec![0]);
    assert_eq!(lists[1], Vec::<usize>::new());
}

#[test]
fn check_instance_rejects_bad_input() {
    let good = Instance {
        days: 2,
        weights: weights(),
        patients: vec![mandatory("p0", 0, 1, 60, "s0")],
        surgeons: vec![surgeon("s0", vec![60, 60])],
        theaters: vec![theater("t0", vec![60, 60])],
    };
    assert!(check_instance(&good));
    // a surgeon id no surgeon carries
    let mut bad = good.clone();
    bad.patients[0].surgeon_id = "s9".to_string();
    assert!(!check_instance(&bad));
    // a mandatory patient due before its release
    let mut bad = good.clone();
    bad.patients[0].surgery_release_day = 1;
    bad.patients[0].surgery_due_day = 0;
    assert!(!check_instance(&bad));
    // an optional patient must carry the absent-due-day sentinel
    let mut bad = good.clone();
    bad.patients[0].mandatory = false;
    assert!(!check_instance(&bad));
    // a budget row of the wrong length
    let mut bad = good.clone();
    bad.surgeons[0].max_surgery_time = vec![60];
    assert!(!check_instance(&bad));
    // a zero-length surgery
    let mut bad = good.clone();
    bad.patients[0].surgery_duration = 0;
    assert!(!check_instance(&bad));
}

#[test]
fn has_valid_schedule_names_first_overfull_day() {
    let inst = instance(
        2,
        vec![mandatory("p0", 0, 1, 60, "s0"), mandatory("p1", 0, 1, 60, "s0")],
        vec![surgeon("s0", vec![60, 50])],
        vec![theater("t0", vec![60, 60])],
    );
    let ok_lists = vec![vec![0], vec![]];
    assert!(inst.surgeons[0].has_valid_schedule(&ok_lists, &inst.patients).is_ok());
    let bad_lists = vec![vec![0], vec![1]];
    assert_eq!(
        inst.surgeons[0].has_valid_schedule(&bad_lists, &inst.patients),
        Err(1)
    );
}

#[test]
fn two_stage_pipeline_schedules_both_patients() {
    // stage one spreads the two patients over the two days, stage two packs
    // each day's single patient into the only theater
    let inst = instance(
        2,
        vec![mandatory("p0", 0, 1, 60, "s0"), mandatory("p1", 0, 1, 60, "s0")],
        vec![surgeon("s0", vec![60, 60])],
        vec![theater("t0", vec![60, 60])],
    );
    let mut seeded = prelim_day_assignment(&inst);
    let un = arrange_patients_for_surgeons(&inst, &mut seeded, None).unwrap();
    assert_eq!(un[0].len(), 0);
    let day0 = patient_OT_assignment_for_day(&inst, &seeded, 0).unwrap();
    assert_eq!(day0[0], vec![(0, 60)]);
    let day1 = patient_OT_assignment_for_day(&inst, &seeded, 1).unwrap();
    assert_eq!(day1[0], vec![(1, 60)]);
}

#[test]
fn squeeze_never_moves_before_release() {
    // the roomiest day lies before the patient's release, so the squeeze
    // pass settles for the admissible one
    let inst = instance(
        2,
        vec![optional("p0", 1, 30, "s0")],
        vec![surgeon("s0", vec![100, 30])],
        vec![theater("t0", vec![100, 100])],
    );
    let relevant = collect_relevant(&inst, 0);
    // days 1 and the sink; all mass on the sink
    let values = vec![0, SCALE];
    let keys = vec![0u64];
    let mut g = rng(2);
    let lists = lp_relaxation_surgery_knapsack(&inst, 0, 0, &relevant, None, &values, &keys, &mut g)
        .unwrap();
    assert_eq!(lists[0], Vec::<usize>::new());
    assert_eq!(lists[1], vec![0]);
    assert_eq!(lists[2], Vec::<usize>::new());
}

#[test]
fn theater_rounding_places_single_patient() {
    // one patient on the day and a theater with room: the mass choice places
    // it wholly, and success is owed
    let inst = instance(
        2,
        vec![mandatory("p0", 0, 1, 60, "s0"), mandatory("p1", 0, 1, 60, "s0")],
        vec![surgeon("s0", vec![60, 60])],
        vec![theater("t0", vec![60, 60])],
    );
    let mut a = Assignment::new(&inst);
    a.apply_stage1_result(&inst, 0, vec![vec![0], vec![1], vec![]]);
    // variables: whole, first half, second half into the one theater, then
    // its opening variable
    let values = vec![SCALE, 0, 0, SCALE];
    let (lists, choices) = a.patient_OT_assignment_for_day(&inst, 0, &values).unwrap();
    assert_eq!(choices, vec![TheaterChoice::Whole(0)]);
    assert_eq!(lists[0], vec![0]);
    let (lists1, _) = a.patient_OT_assignment_for_day(&inst, 1, &values).unwrap();
    assert_eq!(lists1[0], vec![1]);
}

#[test]
fn theater_ranks_follow_falling_availability() {
    let inst = instance(
        1,
        vec![mandatory("p0", 0, 0, 10, "s0")],
        vec![surgeon("s0", vec![100])],
        vec![
            theater("t0", vec![60]),
            theater("t1", vec![480]),
            theater("t2", vec![60]),
        ],
    );
    let ranks = ihtc_scheduler::theater::theater_ranks(&inst, 0);
    assert_eq!(ranks, vec![1, 0, 2]);
}
