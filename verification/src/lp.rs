//! The linear-programming facade and the construction of one surgeon's
//! day-assignment LP: a continuous variable in [0,1] for each admissible
//! (patient, day) pair (with one extra sink day standing for "unassigned"
//! for optional patients), a spread constraint per patient, and a capacity
//! constraint per open day.  The continuous solve itself happens outside;
//! the construction here pins the problem down exactly.

use vstd::prelude::*;

use crate::ScheduleError;
use crate::instance::{Instance, Patient, instance_valid, surgeon_of, find_surgeon};

verus! {

/// Delaying a mandatory patient costs this many times an optional delay.
pub const MANDATORY_MULT: u64 = 5;

/// Leaving an optional patient unassigned costs this flat weight.
pub const BUMP_WEIGHT: u64 = 50;

/// The comparison of a linear constraint.
#[derive(Debug, Clone, Copy, PartialEq, Eq, Structural)]
pub enum ConstraintOp {
    Le,
    Eq,
    Ge,
}

/// A linear constraint over variables named by index.
#[derive(Debug, Clone)]
pub struct LinearConstraint {
    /// Summands, each a variable index with its integer coefficient.
    pub terms: Vec<(usize, i64)>,
    pub op: ConstraintOp,
    pub rhs: i64,
}

/// A minimization problem over continuous variables, each ranging over
/// [0, 1], with integer objective coefficients.
#[derive(Debug, Clone)]
pub struct LpProblem {
    /// Objective coefficient of each variable.
    pub costs: Vec<u64>,
    pub constraints: Vec<LinearConstraint>,
}

/// One surgeon's day-assignment LP together with the meaning of each
/// variable: the pair (patient index, day), where day `instance.days` is the
/// sink standing for "left unassigned".
#[derive(Debug, Clone)]
pub struct SurgeonLp {
    pub lp: LpProblem,
    pub var_map: Vec<(usize, usize)>,
}

/// The first day patient `i` may be placed on: its release day, raised to
/// the first unlocked day, and past the barred day when `i` is the bump
/// victim.
pub open spec fn stage1_lo(
    patients: Seq<Patient>,
    floor: int,
    barred: Option<(usize, usize)>,
    i: usize,
) -> int {
    let rel = patients[i as int].surgery_release_day as int;
    let base = if rel >= floor {
        rel
    } else {
        floor
    };
    match barred {
        Some(bp) => if bp.0 == i && bp.1 + 1 > base {
            bp.1 + 1
        } else {
            base
        },
        None => base,
    }
}

/// The last admissible day of patient `i`: its due day when mandatory, else
/// the sink day `days`.
pub open spec fn stage1_hi(patients: Seq<Patient>, days: int, i: usize) -> int {
    if patients[i as int].mandatory {
        patients[i as int].surgery_due_day as int
    } else {
        days
    }
}

/// How many variables patient `i` contributes.
pub open spec fn stage1_width(
    patients: Seq<Patient>,
    days: int,
    floor: int,
    barred: Option<(usize, usize)>,
    i: usize,
) -> int {
    stage1_hi(patients, days, i) - stage1_lo(patients, floor, barred, i) + 1
}

/// The index of the first variable of the patient at position `r` of the
/// relevant list.
pub open spec fn stage1_base(
    patients: Seq<Patient>,
    days: int,
    floor: int,
    barred: Option<(usize, usize)>,
    relevant: Seq<usize>,
    r: int,
) -> int
    decreases r,
{
    if r <= 0 {
        0
    } else {
        stage1_base(patients, days, floor, barred, relevant, r - 1) + stage1_width(
            patients,
            days,
            floor,
            barred,
            relevant[r - 1],
        )
    }
}

/// The objective coefficient of placing patient `i` on day `d`: a delay
/// cost growing with the distance from the release day, five-fold for
/// mandatory patients, and a flat bump weight at the sink.
pub open spec fn stage1_cost(patients: Seq<Patient>, days: int, i: usize, d: int) -> int {
    let rel = patients[i as int].surgery_release_day as int;
    if patients[i as int].mandatory {
        MANDATORY_MULT * (d - rel)
    } else if d < days {
        d - rel
    } else {
        BUMP_WEIGHT as int
    }
}

/// The terms of day `d`'s capacity constraint drawn from the first `upto`
/// variables: each variable standing for day `d`, weighted by its patient's
/// surgery duration.
pub open spec fn cap_terms(
    patients: Seq<Patient>,
    var_map: Seq<(usize, usize)>,
    d: int,
    upto: int,
) -> Seq<(usize, i64)>
    decreases upto,
{
    if upto <= 0 {
        Seq::empty()
    } else {
        let pre = cap_terms(patients, var_map, d, upto - 1);
        if var_map[upto - 1].1 == d {
            pre.push(
                (
                    (upto - 1) as usize,
                    patients[var_map[upto - 1].0 as int].surgery_duration as i64,
                ),
            )
        } else {
            pre
        }
    }
}

/// Every patient of the relevant list has an admissible day.
pub open spec fn stage1_feasible(
    patients: Seq<Patient>,
    days: int,
    floor: int,
    barred: Option<(usize, usize)>,
    relevant: Seq<usize>,
) -> bool {
    forall|t: int|
        0 <= t < relevant.len() ==> stage1_lo(patients, floor, barred, #[trigger] relevant[t])
            <= stage1_hi(patients, days, relevant[t])
}

/// The list of patients belonging to surgeon `surgeon_idx`, in increasing
/// index order.
pub fn collect_relevant(instance: &Instance, surgeon_idx: usize) -> (r: Vec<usize>)
    requires
        instance_valid(*instance),
    ensures
        r@.no_duplicates(),
        forall|t: int, t2: int| 0 <= t < t2 < r@.len() ==> r@[t] < r@[t2],
        forall|t: int|
            0 <= t < r@.len() ==> (#[trigger] r@[t]) < instance.patients@.len() && surgeon_of(
                instance.surgeons@,
                instance.patients@[r@[t] as int].surgeon_id@,
            ) == surgeon_idx,
        forall|i: usize|
            i < instance.patients@.len() && surgeon_of(
                instance.surgeons@,
                instance.patients@[i as int].surgeon_id@,
            ) == surgeon_idx ==> r@.contains(i),
{
    let np = instance.patients.len();
    let mut r: Vec<usize> = Vec::new();
    let mut i: usize = 0;
    while i < np
        invariant
            instance_valid(*instance),
            0 <= i <= np,
            np == instance.patients@.len(),
            forall|t: int, t2: int| 0 <= t < t2 < r@.len() ==> r@[t] < r@[t2],
            forall|t: int|
                0 <= t < r@.len() ==> (#[trigger] r@[t]) < i && surgeon_of(
                    instance.surgeons@,
                    instance.patients@[r@[t] as int].surgeon_id@,
                ) == surgeon_idx,
            forall|q: usize|
                q < i && surgeon_of(
                    instance.surgeons@,
                    instance.patients@[q as int].surgeon_id@,
                ) == surgeon_idx ==> r@.contains(q),
        decreases np - i,
    {
        if find_surgeon(&instance.surgeons, &instance.patients[i].surgeon_id) == surgeon_idx {
            let ghost old_r = r@;
            r.push(i);
            proof {
                assert forall|q: usize|
                    q < i + 1 && surgeon_of(
                        instance.surgeons@,
                        instance.patients@[q as int].surgeon_id@,
                    ) == surgeon_idx implies r@.contains(q) by {
                    if q < i {
                        assert(old_r.contains(q));
                        let t = choose|t: int| 0 <= t < old_r.len() && old_r[t] == q;
                        assert(r@[t] == q);
                    } else {
                        assert(r@[r@.len() - 1] == q);
                    }
                }
            }
        }
        i = i + 1;
    }
    proof {
        assert forall|t: int|
            0 <= t < r@.len() implies (#[trigger] r@[t]) < instance.patients@.len() && surgeon_of(
            instance.surgeons@,
            instance.patients@[r@[t] as int].surgeon_id@,
        ) == surgeon_idx by {}
    }
    r
}

/// A later position's first variable never precedes an earlier one's.
pub proof fn lemma_base_mono(
    patients: Seq<Patient>,
    days: int,
    floor: int,
    barred: Option<(usize, usize)>,
    relevant: Seq<usize>,
    r1: int,
    r2: int,
)
    requires
        0 <= r1 <= r2 <= relevant.len(),
        stage1_feasible(patients, days, floor, barred, relevant),
    ensures
        stage1_base(patients, days, floor, barred, relevant, r1) <= stage1_base(
            patients,
            days,
            floor,
            barred,
            relevant,
            r2,
        ),
    decreases r2 - r1,
{
    if r1 < r2 {
        lemma_base_mono(patients, days, floor, barred, relevant, r1, r2 - 1);
        assert(stage1_width(patients, days, floor, barred, relevant[r2 - 1]) >= 1);
    }
}

/// Builds one surgeon's day-assignment LP: a variable for each admissible
/// (patient, day) pair, the spread constraint of each patient, and the
/// capacity constraint of each unlocked day.  Fails exactly when a mandatory
/// patient has no admissible day left.
pub fn build_surgeon_day_lp(
    instance: &Instance,
    surgeon_idx: usize,
    floor: usize,
    relevant: &Vec<usize>,
    barred: Option<(usize, usize)>,
) -> (r: Result<SurgeonLp, ScheduleError>)
    requires
        instance_valid(*instance),
        surgeon_idx < instance.surgeons@.len(),
        floor < instance.days,
        barred matches Some(bp) ==> bp.1 < instance.days,
        forall|t: int|
            0 <= t < relevant@.len() ==> (#[trigger] relevant@[t]) < instance.patients@.len(),
        relevant@.len() <= 0x1000_0000,
        instance.days <= 1_000_000,
    ensures
        r is Ok <==> stage1_feasible(
            instance.patients@,
            instance.days as int,
            floor as int,
            barred,
            relevant@,
        ),
        r matches Err(e) ==> e matches ScheduleError::MandatoryUnassignable(i) && (exists|t: int|
            0 <= t < relevant@.len() && #[trigger] relevant@[t] == i
                && instance.patients@[i as int].mandatory && stage1_lo(
                instance.patients@,
                floor as int,
                barred,
                i,
            ) > stage1_hi(instance.patients@, instance.days as int, i)),
        r matches Ok(sp) ==> {
            let patients = instance.patients@;
            let days = instance.days as int;
            let nv = stage1_base(
                patients,
                days,
                floor as int,
                barred,
                relevant@,
                relevant@.len() as int,
            );
            &&& sp.var_map@.len() == nv
            &&& sp.lp.costs@.len() == nv
            &&& forall|t: int, off: int|
                #![trigger sp.var_map@[stage1_base(patients, days, floor as int, barred, relevant@, t) + off]]
                0 <= t < relevant@.len() && 0 <= off < stage1_width(
                    patients,
                    days,
                    floor as int,
                    barred,
                    relevant@[t],
                ) ==> {
                    let k = stage1_base(patients, days, floor as int, barred, relevant@, t) + off;
                    let i = relevant@[t];
                    let d = stage1_lo(patients, floor as int, barred, i) + off;
                    &&& sp.var_map@[k].0 == i
                    &&& sp.var_map@[k].1 == d
                    &&& sp.lp.costs@[k] == stage1_cost(patients, days, i, d)
                }
            &&& sp.lp.constraints@.len() == relevant@.len() + (instance.days - floor)
            &&& forall|t: int|
                0 <= t < relevant@.len() ==> {
                    let c = #[trigger] sp.lp.constraints@[t];
                    let base = stage1_base(patients, days, floor as int, barred, relevant@, t);
                    let w = stage1_width(patients, days, floor as int, barred, relevant@[t]);
                    &&& c.op == ConstraintOp::Eq
                    &&& c.rhs == 1
                    &&& c.terms@.len() == w
                    &&& forall|off: int|
                        0 <= off < w ==> (#[trigger] c.terms@[off]) == (((base + off) as usize), 1i64)
                }
            &&& forall|d: int|
                floor <= d < instance.days ==> {
                    let c = #[trigger] sp.lp.constraints@[relevant@.len() + d - floor];
                    &&& c.op == ConstraintOp::Le
                    &&& c.rhs == instance.surgeons@[surgeon_idx as int].max_surgery_time@[d] as i64
                    &&& c.terms@ == cap_terms(patients, sp.var_map@, d, nv)
                }
        },
{
    let np = instance.patients.len();
    let days = instance.days;
    let nr = relevant.len();
    // reject a mandatory patient whose admissible window is empty
    let mut t0: usize = 0;
    while t0 < nr
        invariant
            instance_valid(*instance),
            0 <= t0 <= nr,
            nr == relevant@.len(),
            days == instance.days,
            floor < days,
            barred matches Some(bp) ==> bp.1 < instance.days,
            forall|t: int| 0 <= t < nr ==> (#[trigger] relevant@[t]) < instance.patients@.len(),
            forall|t: int|
                0 <= t < t0 ==> stage1_lo(
                    instance.patients@,
                    floor as int,
                    barred,
                    #[trigger] relevant@[t],
                ) <= stage1_hi(instance.patients@, days as int, relevant@[t]),
        decreases nr - t0,
    {
        let i = relevant[t0];
        let p = &instance.patients[i];
        let mut lo: usize = p.surgery_release_day;
        if floor > lo {
            lo = floor;
        }
        match barred {
            Some((v, b)) => {
                if v == i && b + 1 > lo {
                    lo = b + 1;
                }
            },
            None => {},
        }
        let hi: usize = if p.mandatory {
            p.surgery_due_day
        } else {
            days
        };
        proof {
            assert(lo == stage1_lo(instance.patients@, floor as int, barred, i));
            assert(hi == stage1_hi(instance.patients@, days as int, i));
        }
        if lo > hi {
            proof {
                assert(instance.patients@[i as int].mandatory);
                assert(relevant@[t0 as int] == i);
            }
            return Err(ScheduleError::MandatoryUnassignable(i));
        }
        t0 = t0 + 1;
    }
    proof {
        assert(stage1_feasible(instance.patients@, days as int, floor as int, barred, relevant@));
    }
    // lay the variables out patient by patient, day by day
    let mut var_map: Vec<(usize, usize)> = Vec::new();
    let mut costs: Vec<u64> = Vec::new();
    let mut t1: usize = 0;
    while t1 < nr
        invariant
            instance_valid(*instance),
            0 <= t1 <= nr,
            nr == relevant@.len(),
            nr <= 0x1000_0000,
            days == instance.days,
            days <= 1_000_000,
            floor < days,
            barred matches Some(bp) ==> bp.1 < instance.days,
            forall|t: int| 0 <= t < nr ==> (#[trigger] relevant@[t]) < instance.patients@.len(),
            stage1_feasible(instance.patients@, days as int, floor as int, barred, relevant@),
            var_map@.len() == stage1_base(
                instance.patients@,
                days as int,
                floor as int,
                barred,
                relevant@,
                t1 as int,
            ),
            costs@.len() == var_map@.len(),
            forall|k: int|
                0 <= k < var_map@.len() ==> (#[trigger] var_map@[k]).0 < instance.patients@.len(),
            forall|t: int, off: int|
                #![trigger var_map@[stage1_base(instance.patients@, days as int, floor as int, barred, relevant@, t) + off]]
                0 <= t < t1 && 0 <= off < stage1_width(
                    instance.patients@,
                    days as int,
                    floor as int,
                    barred,
                    relevant@[t],
                ) ==> {
                    let k = stage1_base(
                        instance.patients@,
                        days as int,
                        floor as int,
                        barred,
                        relevant@,
                        t,
                    ) + off;
                    let i = relevant@[t];
                    let d = stage1_lo(instance.patients@, floor as int, barred, i) + off;
                    &&& var_map@[k].0 == i
                    &&& var_map@[k].1 == d
                    &&& costs@[k] == stage1_cost(instance.patients@, days as int, i, d)
                },
        decreases nr - t1,
    {
        let i = relevant[t1];
        let p = &instance.patients[i];
        let mut lo: usize = p.surgery_release_day;
        if floor > lo {
            lo = floor;
        }
        match barred {
            Some((v, b)) => {
                if v == i && b + 1 > lo {
                    lo = b + 1;
                }
            },
            None => {},
        }
        let hi: usize = if p.mandatory {
            p.surgery_due_day
        } else {
            days
        };
        proof {
            assert(lo == stage1_lo(instance.patients@, floor as int, barred, i));
            assert(hi == stage1_hi(instance.patients@, days as int, i));
            assert(lo <= hi);
            assert(hi <= days);
        }
        let ghost base = var_map@.len() as int;
        let ghost vm0 = var_map@;
        let ghost cs0 = costs@;
        let mut d: usize = lo;
        while d <= hi
            invariant
                instance_valid(*instance),
                days == instance.days,
                days <= 1_000_000,
                i < instance.patients@.len(),
                lo == stage1_lo(instance.patients@, floor as int, barred, i),
                hi == stage1_hi(instance.patients@, days as int, i),
                instance.patients@[i as int].surgery_release_day <= lo <= d <= hi + 1,
                hi <= days,
                base == vm0.len(),
                cs0.len() == vm0.len(),
                var_map@.len() == base + (d - lo),
                costs@.len() == var_map@.len(),
                forall|k: int|
                    0 <= k < var_map@.len() ==> (#[trigger] var_map@[k]).0
                        < instance.patients@.len(),
                forall|k: int| 0 <= k < base ==> #[trigger] var_map@[k] == vm0[k],
                forall|k: int| 0 <= k < base ==> #[trigger] costs@[k] == cs0[k],
                forall|k: int|
                    base <= k < var_map@.len() ==> (#[trigger] var_map@[k]) == (
                        i,
                        ((lo + (k - base)) as usize),
                    ) && costs@[k] == stage1_cost(
                        instance.patients@,
                        days as int,
                        i,
                        lo + (k - base),
                    ),
            decreases hi + 1 - d,
        {
            let pp = &instance.patients[i];
            let rel = pp.surgery_release_day;
            let cost: u64 = if pp.mandatory {
                MANDATORY_MULT * ((d - rel) as u64)
            } else if d < days {
                (d - rel) as u64
            } else {
                BUMP_WEIGHT
            };
            var_map.push((i, d));
            costs.push(cost);
            d = d + 1;
        }
        proof {
            assert(var_map@.len() == base + stage1_width(
                instance.patients@,
                days as int,
                floor as int,
                barred,
                i,
            ));
            assert(var_map@.len() == stage1_base(
                instance.patients@,
                days as int,
                floor as int,
                barred,
                relevant@,
                t1 as int + 1,
            ));
            assert forall|t: int, off: int|
                #![trigger var_map@[stage1_base(instance.patients@, days as int, floor as int, barred, relevant@, t) + off]]
                0 <= t < t1 as int + 1 && 0 <= off < stage1_width(
                    instance.patients@,
                    days as int,
                    floor as int,
                    barred,
                    relevant@[t],
                ) implies {
                let k = stage1_base(
                    instance.patients@,
                    days as int,
                    floor as int,
                    barred,
                    relevant@,
                    t,
                ) + off;
                let i2 = relevant@[t];
                let d2 = stage1_lo(instance.patients@, floor as int, barred, i2) + off;
                &&& var_map@[k].0 == i2
                &&& var_map@[k].1 == d2
                &&& costs@[k] == stage1_cost(instance.patients@, days as int, i2, d2)
            } by {
                let k = stage1_base(
                    instance.patients@,
                    days as int,
                    floor as int,
                    barred,
                    relevant@,
                    t,
                ) + off;
                lemma_base_mono(
                    instance.patients@,
                    days as int,
                    floor as int,
                    barred,
                    relevant@,
                    0,
                    t,
                );
                if t < t1 as int {
                    lemma_base_mono(
                        instance.patients@,
                        days as int,
                        floor as int,
                        barred,
                        relevant@,
                        t + 1,
                        t1 as int,
                    );
                    assert(0 <= k < base);
                    assert(var_map@[k] == vm0[k]);
                    assert(costs@[k] == cs0[k]);
                    assert(vm0[stage1_base(
                        instance.patients@,
                        days as int,
                        floor as int,
                        barred,
                        relevant@,
                        t,
                    ) + off] == vm0[k]);
                    assert(cs0[stage1_base(
                        instance.patients@,
                        days as int,
                        floor as int,
                        barred,
                        relevant@,
                        t,
                    ) + off] == cs0[k]);
                } else {
                    assert(t == t1 as int);
                    assert(base == stage1_base(
                        instance.patients@,
                        days as int,
                        floor as int,
                        barred,
                        relevant@,
                        t1 as int,
                    ));
                    assert(relevant@[t] == i);
                    assert(base <= k < var_map@.len());
                    assert(var_map@[k] == (i, ((lo + (k - base)) as usize)));
                    assert(var_map@[k].1 == lo + off);
                    assert(costs@[k] == stage1_cost(
                        instance.patients@,
                        days as int,
                        i,
                        lo + (k - base),
                    ));
                }
            }
        }
        t1 = t1 + 1;
    }
    let nv = var_map.len();
    proof {
        lemma_base_mono(
            instance.patients@,
            days as int,
            floor as int,
            barred,
            relevant@,
            0,
            nr as int,
        );
    }
    // the spread constraint of each patient: its variables sum to one
    let mut constraints: Vec<LinearConstraint> = Vec::new();
    let mut vbase: usize = 0;
    let mut t2: usize = 0;
    while t2 < nr
        invariant
            instance_valid(*instance),
            0 <= t2 <= nr,
            nr == relevant@.len(),
            days == instance.days,
            floor < days,
            barred matches Some(bp) ==> bp.1 < instance.days,
            forall|t: int| 0 <= t < nr ==> (#[trigger] relevant@[t]) < instance.patients@.len(),
            stage1_feasible(instance.patients@, days as int, floor as int, barred, relevant@),
            nv == var_map@.len(),
            nv == stage1_base(
                instance.patients@,
                days as int,
                floor as int,
                barred,
                relevant@,
                nr as int,
            ),
            vbase == stage1_base(
                instance.patients@,
                days as int,
                floor as int,
                barred,
                relevant@,
                t2 as int,
            ),
            constraints@.len() == t2,
            forall|t: int|
                0 <= t < t2 ==> {
                    let c = #[trigger] constraints@[t];
                    let b = stage1_base(
                        instance.patients@,
                        days as int,
                        floor as int,
                        barred,
                        relevant@,
                        t,
                    );
                    let w = stage1_width(
                        instance.patients@,
                        days as int,
                        floor as int,
                        barred,
                        relevant@[t],
                    );
                    &&& c.op == ConstraintOp::Eq
                    &&& c.rhs == 1
                    &&& c.terms@.len() == w
                    &&& forall|off: int|
                        0 <= off < w ==> (#[trigger] c.terms@[off]) == (((b + off) as usize), 1i64)
                },
        decreases nr - t2,
    {
        let i = relevant[t2];
        let p = &instance.patients[i];
        let mut lo: usize = p.surgery_release_day;
        if floor > lo {
            lo = floor;
        }
        match barred {
            Some((v, b)) => {
                if v == i && b + 1 > lo {
                    lo = b + 1;
                }
            },
            None => {},
        }
        let hi: usize = if p.mandatory {
            p.surgery_due_day
        } else {
            days
        };
        proof {
            assert(lo == stage1_lo(instance.patients@, floor as int, barred, i));
            assert(hi == stage1_hi(instance.patients@, days as int, i));
            assert(lo <= hi);
            lemma_base_mono(
                instance.patients@,
                days as int,
                floor as int,
                barred,
                relevant@,
                t2 as int + 1,
                nr as int,
            );
            assert(stage1_base(
                instance.patients@,
                days as int,
                floor as int,
                barred,
                relevant@,
                t2 as int + 1,
            ) == vbase + (hi - lo + 1));
        }
        let w: usize = hi - lo + 1;
        let mut terms: Vec<(usize, i64)> = Vec::new();
        let mut off: usize = 0;
        while off < w
            invariant
                0 <= off <= w,
                vbase + w <= nv,
                nv <= usize::MAX,
                terms@.len() == off,
                forall|o: int|
                    0 <= o < off ==> (#[trigger] terms@[o]) == (((vbase + o) as usize), 1i64),
            decreases w - off,
        {
            terms.push((vbase + off, 1i64));
            off = off + 1;
        }
        constraints.push(LinearConstraint { terms, op: ConstraintOp::Eq, rhs: 1 });
        vbase = vbase + w;
        t2 = t2 + 1;
    }
    // the capacity constraint of each unlocked day
    let mut dd: usize = floor;
    while dd < days
        invariant
            instance_valid(*instance),
            floor <= dd <= days,
            nr == relevant@.len(),
            days == instance.days,
            floor < days,
            surgeon_idx < instance.surgeons@.len(),
            nv == var_map@.len(),
            forall|k: int|
                0 <= k < nv ==> (#[trigger] var_map@[k]).0 < instance.patients@.len(),
            constraints@.len() == nr + (dd - floor),
            forall|t: int|
                0 <= t < nr ==> {
                    let c = #[trigger] constraints@[t];
                    let b = stage1_base(
                        instance.patients@,
                        days as int,
                        floor as int,
                        barred,
                        relevant@,
                        t,
                    );
                    let w = stage1_width(
                        instance.patients@,
                        days as int,
                        floor as int,
                        barred,
                        relevant@[t],
                    );
                    &&& c.op == ConstraintOp::Eq
                    &&& c.rhs == 1
                    &&& c.terms@.len() == w
                    &&& forall|off: int|
                        0 <= off < w ==> (#[trigger] c.terms@[off]) == (((b + off) as usize), 1i64)
                },
            forall|d: int|
                floor <= d < dd ==> {
                    let c = #[trigger] constraints@[nr + d - floor];
                    &&& c.op == ConstraintOp::Le
                    &&& c.rhs == instance.surgeons@[surgeon_idx as int].max_surgery_time@[d] as i64
                    &&& c.terms@ == cap_terms(instance.patients@, var_map@, d, nv as int)
                },
        decreases days - dd,
    {
        let mut terms: Vec<(usize, i64)> = Vec::new();
        let mut k: usize = 0;
        while k < nv
            invariant
                0 <= k <= nv,
                nv == var_map@.len(),
                forall|k2: int|
                    0 <= k2 < nv ==> (#[trigger] var_map@[k2]).0 < instance.patients@.len(),
                terms@ == cap_terms(instance.patients@, var_map@, dd as int, k as int),
            decreases nv - k,
        {
            let (pi, pd) = var_map[k];
            if pd == dd {
                terms.push((k, instance.patients[pi].surgery_duration as i64));
            }
            k = k + 1;
        }
        constraints.push(
            LinearConstraint {
                terms,
                op: ConstraintOp::Le,
                rhs: instance.surgeons[surgeon_idx].max_surgery_time[dd] as i64,
            },
        );
        dd = dd + 1;
    }
    Ok(SurgeonLp { lp: LpProblem { costs, constraints }, var_map })
}

} // verus!
