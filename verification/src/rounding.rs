//! Randomized rounding of one surgeon's day-assignment LP: patients are
//! processed one at a time (mandatory patients first, then by rising entropy
//! key), each drawing a day from its LP day distribution; a drawn day without
//! room left is cancelled and the draw retried over the remaining mass.  A
//! squeeze pass then moves unassigned optional patients into days that still
//! have room, and every day's list ends in the canonical order.

use vstd::prelude::*;

use crate::ScheduleError;
use crate::instance::{Instance, Patient, instance_valid};
use crate::lp::{stage1_base, stage1_feasible, stage1_hi, stage1_lo, stage1_width};
use crate::model::{
    count_of, dur_sum, lemma_count_drop_first, lemma_count_element, lemma_count_empty,
    lemma_count_of, lemma_count_push, lemma_dur_sum_permutation, lemma_dur_sum_push,
    lemma_total_count_update, total_count,
};
use crate::prelim::{day_views, slot_sorted, sort_patients_in_slot};
use crate::rng::{SCALE, draw_unit};

verus! {

/// How many positions are still unmarked.
pub open spec fn count_false(c: Seq<bool>) -> int
    decreases c.len(),
{
    if c.len() == 0 {
        0
    } else {
        (if c[0] {
            0int
        } else {
            1int
        }) + count_false(c.drop_first())
    }
}

/// Marking an unmarked position lowers `count_false` by one.
proof fn lemma_count_false_update(c: Seq<bool>, i: int)
    requires
        0 <= i < c.len(),
        !c[i],
    ensures
        count_false(c.update(i, true)) == count_false(c) - 1,
    decreases c.len(),
{
    if i == 0 {
        assert(c.update(0, true).drop_first() =~= c.drop_first());
    } else {
        assert(c.update(i, true).drop_first() =~= c.drop_first().update(i - 1, true));
        lemma_count_false_update(c.drop_first(), i - 1);
    }
}

/// A fully marked list has no unmarked positions.
proof fn lemma_count_false_all(c: Seq<bool>)
    requires
        forall|j: int| 0 <= j < c.len() ==> c[j],
    ensures
        count_false(c) == 0,
    decreases c.len(),
{
    if c.len() > 0 {
        assert(forall|j: int| 0 <= j < c.drop_first().len() ==> c.drop_first()[j] == c[j + 1]);
        lemma_count_false_all(c.drop_first());
    }
}

/// An unmarked list has as many unmarked positions as it is long.
proof fn lemma_count_false_none(c: Seq<bool>)
    requires
        forall|j: int| 0 <= j < c.len() ==> !c[j],
    ensures
        count_false(c) == c.len(),
    decreases c.len(),
{
    if c.len() > 0 {
        assert(forall|j: int| 0 <= j < c.drop_first().len() ==> c.drop_first()[j] == c[j + 1]);
        lemma_count_false_none(c.drop_first());
    }
}

/// An unmarked position keeps `count_false` positive.
proof fn lemma_count_false_element(c: Seq<bool>, i: int)
    requires
        0 <= i < c.len(),
        !c[i],
    ensures
        count_false(c) >= 1,
        count_false(c) >= 0,
    decreases c.len(),
{
    lemma_count_false_nonneg(c.drop_first());
    if i > 0 {
        lemma_count_false_element(c.drop_first(), i - 1);
    }
}

/// `count_false` never goes negative.
proof fn lemma_count_false_nonneg(c: Seq<bool>)
    ensures
        count_false(c) >= 0,
    decreases c.len(),
{
    if c.len() > 0 {
        lemma_count_false_nonneg(c.drop_first());
    }
}

/// How often patient `p` stands at a marked position of the relevant list.
pub open spec fn done_count(relevant: Seq<usize>, done: Seq<bool>, p: usize) -> int
    decreases done.len(),
{
    if done.len() == 0 || relevant.len() != done.len() {
        0
    } else {
        (if done[0] && relevant[0] == p {
            1int
        } else {
            0int
        }) + done_count(relevant.drop_first(), done.drop_first(), p)
    }
}

/// Marking position `r` adds exactly its patient to the marked counts.
proof fn lemma_done_count_update(relevant: Seq<usize>, done: Seq<bool>, r: int, p: usize)
    requires
        relevant.len() == done.len(),
        0 <= r < done.len(),
        !done[r],
    ensures
        done_count(relevant, done.update(r, true), p) == done_count(relevant, done, p) + if relevant[r] == p {
            1int
        } else {
            0int
        },
    decreases done.len(),
{
    if r == 0 {
        assert(done.update(0, true).drop_first() =~= done.drop_first());
    } else {
        assert(done.update(r, true).drop_first() =~= done.drop_first().update(r - 1, true));
        lemma_done_count_update(relevant.drop_first(), done.drop_first(), r - 1, p);
    }
}

/// With nothing marked, nothing is counted.
proof fn lemma_done_count_none(relevant: Seq<usize>, done: Seq<bool>, p: usize)
    requires
        relevant.len() == done.len(),
        forall|j: int| 0 <= j < done.len() ==> !done[j],
    ensures
        done_count(relevant, done, p) == 0,
    decreases done.len(),
{
    if done.len() > 0 {
        assert(forall|j: int|
            0 <= j < done.drop_first().len() ==> done.drop_first()[j] == done[j + 1]);
        lemma_done_count_none(relevant.drop_first(), done.drop_first(), p);
    }
}

/// With everything marked, the marked counts are the relevant counts.
proof fn lemma_done_count_full(relevant: Seq<usize>, done: Seq<bool>, p: usize)
    requires
        relevant.len() == done.len(),
        forall|j: int| 0 <= j < done.len() ==> done[j],
    ensures
        done_count(relevant, done, p) == count_of(relevant, p),
    decreases done.len(),
{
    if done.len() > 0 {
        assert(forall|j: int|
            0 <= j < done.drop_first().len() ==> done.drop_first()[j] == done[j + 1]);
        lemma_done_count_full(relevant.drop_first(), done.drop_first(), p);
        lemma_count_drop_first(relevant, p);
    } else {
        lemma_count_empty(relevant, p);
    }
}

/// Every listed patient is in range and sits inside its admissible window:
/// no earlier than its release day and the first unlocked day, past its
/// barred day when it is the bump victim, and no later than its due day (the
/// sink day is admissible only for optional patients).
pub open spec fn placement_ok(
    patients: Seq<Patient>,
    days: int,
    floor: int,
    barred: Option<(usize, usize)>,
    lists: Seq<Seq<usize>>,
) -> bool {
    forall|d: int, j: int|
        0 <= d < lists.len() && 0 <= j < lists[d].len() ==> {
            let i = #[trigger] lists[d][j];
            &&& i < patients.len()
            &&& stage1_lo(patients, floor, barred, i) <= d
            &&& d <= stage1_hi(patients, days, i)
        }
}

/// What a successful rounding returns: one list per day plus the unassigned
/// pool, each day within the surgeon's budget, days before the floor left
/// empty, every placement inside its window, exactly the relevant patients
/// spread over the lists, and each day's list in the canonical order.
pub open spec fn stage1_result_ok(
    instance: Instance,
    surgeon_idx: int,
    floor: int,
    barred: Option<(usize, usize)>,
    relevant: Seq<usize>,
    lists: Seq<Seq<usize>>,
) -> bool {
    &&& lists.len() == instance.days + 1
    &&& placement_ok(instance.patients@, instance.days as int, floor, barred, lists)
    &&& forall|d: int|
        floor <= d < instance.days ==> dur_sum(instance.patients@, #[trigger] lists[d])
            <= instance.surgeons@[surgeon_idx].max_surgery_time@[d]
    &&& forall|p: usize| #[trigger] total_count(lists, p) == count_of(relevant, p)
    &&& forall|d: int| 0 <= d < floor ==> (#[trigger] lists[d]).len() == 0
    &&& forall|d: int|
        0 <= d < instance.days ==> slot_sorted(instance.patients@, #[trigger] lists[d])
}

/// Appends patient `x` to day `d`'s list, leaving every other day untouched.
pub(crate) fn slot_push(lists: &mut Vec<Vec<usize>>, d: usize, x: usize)
    requires
        d < old(lists)@.len(),
    ensures
        final(lists)@.len() == old(lists)@.len(),
        forall|b: int|
            0 <= b < final(lists)@.len() && b != d as int ==> (#[trigger] final(lists)@[b])@
                == old(lists)@[b]@,
        final(lists)@[d as int]@ == old(lists)@[d as int]@.push(x),
        day_views(final(lists)@) == day_views(old(lists)@).update(
            d as int,
            old(lists)@[d as int]@.push(x),
        ),
{
    let ghost old_l = lists@;
    let slot = &mut lists[d];
    slot.push(x);
    proof {
        assert forall|b: int| 0 <= b < lists@.len() && b != d as int implies (
        #[trigger] lists@[b])@ == old_l[b]@ by {}
        assert(day_views(lists@) =~= day_views(old_l).update(
            d as int,
            old_l[d as int]@.push(x),
        ));
    }
}

/// Removes position `j` from day `d`'s list, returning the patient there.
fn slot_take(lists: &mut Vec<Vec<usize>>, d: usize, j: usize) -> (x: usize)
    requires
        d < old(lists)@.len(),
        j < old(lists)@[d as int]@.len(),
    ensures
        final(lists)@.len() == old(lists)@.len(),
        forall|b: int|
            0 <= b < final(lists)@.len() && b != d as int ==> (#[trigger] final(lists)@[b])@
                == old(lists)@[b]@,
        final(lists)@[d as int]@ == old(lists)@[d as int]@.remove(j as int),
        x == old(lists)@[d as int]@[j as int],
        day_views(final(lists)@) == day_views(old(lists)@).update(
            d as int,
            old(lists)@[d as int]@.remove(j as int),
        ),
{
    let ghost old_l = lists@;
    let slot = &mut lists[d];
    let x = slot.remove(j);
    proof {
        assert forall|b: int| 0 <= b < lists@.len() && b != d as int implies (
        #[trigger] lists@[b])@ == old_l[b]@ by {}
        assert(day_views(lists@) =~= day_views(old_l).update(
            d as int,
            old_l[d as int]@.remove(j as int),
        ));
    }
    x
}

/// Writes one position of a boolean list.
fn set_bool(v: &mut Vec<bool>, i: usize, x: bool)
    requires
        i < old(v)@.len(),
    ensures
        final(v)@ == old(v)@.update(i as int, x),
{
    let slot = &mut v[i];
    *slot = x;
    proof {
        assert(v@ =~= old(v)@.update(i as int, x));
    }
}

/// Writes one position of a numeric list.
fn set_u64(v: &mut Vec<u64>, i: usize, x: u64)
    requires
        i < old(v)@.len(),
    ensures
        final(v)@ == old(v)@.update(i as int, x),
{
    let slot = &mut v[i];
    *slot = x;
    proof {
        assert(v@ =~= old(v)@.update(i as int, x));
    }
}

/// Walks a patient's uncancelled days in order, accumulating their LP mass,
/// and picks the first whose cumulative share reaches the draw `u` (with a
/// one-unit guard against rounding underflow).  Returns the day offset, or
/// nothing when the mass runs out first.
fn pick_day(
    values: &Vec<u64>,
    vbase: usize,
    width: usize,
    cancelled: &Vec<bool>,
    u: u64,
    w: u64,
) -> (r: Option<usize>)
    requires
        vbase + width <= values@.len(),
        cancelled@.len() == width,
        width <= 1_000_001,
        forall|k: int| 0 <= k < values@.len() ==> (#[trigger] values@[k]) <= SCALE,
        u < SCALE,
        w <= SCALE,
    ensures
        r matches Some(off) ==> off < width && !cancelled@[off as int],
{
    let nv = values.len();
    let mut cumul: u64 = 0;
    let mut off: usize = 0;
    while off < width
        invariant
            0 <= off <= width,
            width <= 1_000_001,
            nv == values@.len(),
            vbase + width <= nv,
            cancelled@.len() == width,
            forall|k: int| 0 <= k < values@.len() ==> (#[trigger] values@[k]) <= SCALE,
            u < SCALE,
            w <= SCALE,
            cumul <= off * 1_000_000,
        decreases width - off,
    {
        if !cancelled[off] {
            cumul = cumul + values[vbase + off];
            proof {
                assert(u * w < 1_000_000 * 1_000_000) by (nonlinear_arith)
                    requires
                        u < 1_000_000,
                        w <= 1_000_000,
                ;
            }
            if u * w < cumul * SCALE + w {
                return Some(off);
            }
        }
        off = off + 1;
    }
    None
}


/// Appending one patient to a day raises exactly its count.
proof fn lemma_counts_push(lists: Seq<Seq<usize>>, dd: int, x: usize)
    requires
        0 <= dd < lists.len(),
    ensures
        forall|p: usize|
            #[trigger] total_count(lists.update(dd, lists[dd].push(x)), p) == total_count(lists, p)
                + if x == p {
                1int
            } else {
                0int
            },
{
    assert forall|p: usize|
        #[trigger] total_count(lists.update(dd, lists[dd].push(x)), p) == total_count(lists, p)
            + if x == p {
            1int
        } else {
            0int
        } by {
        lemma_total_count_update(lists, dd, lists[dd].push(x), p);
        lemma_count_push(lists[dd], x, p);
    }
}

/// Appending a patient inside its window keeps the placements admissible.
proof fn lemma_placement_push(
    patients: Seq<Patient>,
    days: int,
    floor: int,
    barred: Option<(usize, usize)>,
    lists: Seq<Seq<usize>>,
    dd: int,
    x: usize,
)
    requires
        placement_ok(patients, days, floor, barred, lists),
        0 <= dd < lists.len(),
        x < patients.len(),
        stage1_lo(patients, floor, barred, x) <= dd,
        dd <= stage1_hi(patients, days, x),
    ensures
        placement_ok(patients, days, floor, barred, lists.update(dd, lists[dd].push(x))),
{
    let nl = lists.update(dd, lists[dd].push(x));
    assert forall|d: int, j: int|
        0 <= d < nl.len() && 0 <= j < nl[d].len() implies {
        let i = #[trigger] nl[d][j];
        &&& i < patients.len()
        &&& stage1_lo(patients, floor, barred, i) <= d
        &&& d <= stage1_hi(patients, days, i)
    } by {
        if d == dd {
            if j < lists[dd].len() {
                assert(nl[d][j] == lists[dd][j]);
            } else {
                assert(nl[d][j] == x);
            }
        } else {
            assert(nl[d][j] == lists[d][j]);
        }
    }
}

/// Removing a patient keeps the placements admissible.
proof fn lemma_placement_remove(
    patients: Seq<Patient>,
    days: int,
    floor: int,
    barred: Option<(usize, usize)>,
    lists: Seq<Seq<usize>>,
    dd: int,
    j: int,
)
    requires
        placement_ok(patients, days, floor, barred, lists),
        0 <= dd < lists.len(),
        0 <= j < lists[dd].len(),
    ensures
        placement_ok(patients, days, floor, barred, lists.update(dd, lists[dd].remove(j))),
{
    let nl = lists.update(dd, lists[dd].remove(j));
    assert forall|d: int, j2: int|
        0 <= d < nl.len() && 0 <= j2 < nl[d].len() implies {
        let i = #[trigger] nl[d][j2];
        &&& i < patients.len()
        &&& stage1_lo(patients, floor, barred, i) <= d
        &&& d <= stage1_hi(patients, days, i)
    } by {
        if d == dd {
            lists[dd].remove_ensures(j);
            if j2 < j {
                assert(nl[d][j2] == lists[dd][j2]);
            } else {
                assert(nl[d][j2] == lists[dd][j2 + 1]);
            }
        } else {
            assert(nl[d][j2] == lists[d][j2]);
        }
    }
}

/// Picks the next patient position to round: among the unprocessed ones,
/// mandatory patients come first, then lower entropy keys, then lower
/// positions.
fn select_next(
    patients: &Vec<Patient>,
    relevant: &Vec<usize>,
    keys: &Vec<u64>,
    done: &Vec<bool>,
) -> (r: usize)
    requires
        relevant@.len() == done@.len(),
        keys@.len() == done@.len(),
        forall|t: int|
            0 <= t < relevant@.len() ==> (#[trigger] relevant@[t]) < patients@.len(),
        count_false(done@) > 0,
    ensures
        r < done@.len(),
        !done@[r as int],
{
    let n = done.len();
    let mut best: usize = n;
    let mut t: usize = 0;
    while t < n
        invariant
            0 <= t <= n,
            n == done@.len(),
            relevant@.len() == n,
            keys@.len() == n,
            forall|q: int|
                0 <= q < relevant@.len() ==> (#[trigger] relevant@[q]) < patients@.len(),
            best == n || (best < t && !done@[best as int]),
            best == n ==> forall|q: int| 0 <= q < t ==> done@[q],
        decreases n - t,
    {
        if !done[t] {
            if best == n {
                best = t;
            } else {
                let bm = patients[relevant[best]].mandatory;
                let tm = patients[relevant[t]].mandatory;
                if (tm && !bm) || (bm == tm && keys[t] < keys[best]) {
                    best = t;
                }
            }
        }
        t = t + 1;
    }
    proof {
        if best == n {
            lemma_count_false_all(done@);
        }
    }
    best
}

/// Places one relevant patient by drawing days from its LP distribution
/// until a day with room (or, for an optional patient, the unassigned sink)
/// accepts it.  A mandatory patient whose whole distribution runs out of
/// room cannot be placed.
fn place_one(
    instance: &Instance,
    surgeon_idx: usize,
    floor: usize,
    relevant: &Vec<usize>,
    barred: Option<(usize, usize)>,
    values: &Vec<u64>,
    r: usize,
    vbase: usize,
    lists: &mut Vec<Vec<usize>>,
    remaining: &mut Vec<u64>,
    rng: &mut rand::rngs::StdRng,
) -> (res: Result<(), ScheduleError>)
    requires
        instance_valid(*instance),
        surgeon_idx < instance.surgeons@.len(),
        floor < instance.days,
        barred matches Some(bp) ==> bp.1 < instance.days,
        instance.days <= 1_000_000,
        forall|t: int|
            0 <= t < relevant@.len() ==> (#[trigger] relevant@[t]) < instance.patients@.len(),
        stage1_feasible(
            instance.patients@,
            instance.days as int,
            floor as int,
            barred,
            relevant@,
        ),
        r < relevant@.len(),
        vbase == stage1_base(
            instance.patients@,
            instance.days as int,
            floor as int,
            barred,
            relevant@,
            r as int,
        ),
        vbase + stage1_width(
            instance.patients@,
            instance.days as int,
            floor as int,
            barred,
            relevant@[r as int],
        ) <= values@.len(),
        forall|k: int| 0 <= k < values@.len() ==> (#[trigger] values@[k]) <= SCALE,
        old(lists)@.len() == instance.days + 1,
        old(remaining)@.len() == instance.days,
        forall|d: int|
            0 <= d < instance.days ==> dur_sum(
                instance.patients@,
                #[trigger] day_views(old(lists)@)[d],
            ) + old(remaining)@[d]
                == instance.surgeons@[surgeon_idx as int].max_surgery_time@[d],
        placement_ok(
            instance.patients@,
            instance.days as int,
            floor as int,
            barred,
            day_views(old(lists)@),
        ),
    ensures
        final(lists)@.len() == instance.days + 1,
        final(remaining)@.len() == instance.days,
        res is Ok ==> {
            &&& forall|p: usize|
                #[trigger] total_count(day_views(final(lists)@), p) == total_count(
                    day_views(old(lists)@),
                    p,
                ) + if relevant@[r as int] == p {
                    1int
                } else {
                    0int
                }
            &&& forall|d: int|
                0 <= d < instance.days ==> dur_sum(
                    instance.patients@,
                    #[trigger] day_views(final(lists)@)[d],
                ) + final(remaining)@[d]
                    == instance.surgeons@[surgeon_idx as int].max_surgery_time@[d]
            &&& placement_ok(
                instance.patients@,
                instance.days as int,
                floor as int,
                barred,
                day_views(final(lists)@),
            )
        },
        res matches Err(e) ==> e == ScheduleError::MandatoryUnassignable(relevant@[r as int])
            && instance.patients@[relevant@[r as int] as int].mandatory,
{
    let i = relevant[r];
    let p_mandatory = instance.patients[i].mandatory;
    let duration = instance.patients[i].surgery_duration as u64;
    let days = instance.days;
    let mut lo: usize = instance.patients[i].surgery_release_day;
    if floor > lo {
        lo = floor;
    }
    match barred {
        Some((v, b)) => {
            if v == i && b + 1 > lo {
                lo = b + 1;
            }
        },
        None => {},
    }
    let hi: usize = if p_mandatory {
        instance.patients[i].surgery_due_day
    } else {
        days
    };
    proof {
        assert(lo == stage1_lo(instance.patients@, floor as int, barred, i));
        assert(hi == stage1_hi(instance.patients@, days as int, i));
        assert(lo <= hi);
        assert(hi <= days);
    }
    let width: usize = hi - lo + 1;
    let mut cancelled: Vec<bool> = Vec::new();
    let mut c0: usize = 0;
    while c0 < width
        invariant
            0 <= c0 <= width,
            cancelled@.len() == c0,
            forall|q: int| 0 <= q < c0 ==> !(#[trigger] cancelled@[q]),
        decreases width - c0,
    {
        cancelled.push(false);
        c0 = c0 + 1;
    }
    let mut active: usize = width;
    let nv = values.len();
    proof {
        lemma_count_false_none(cancelled@);
    }
    let ghost base_lists = day_views(lists@);
    let ghost base_rem = remaining@;
    let mut w: u64 = SCALE;
    loop
        invariant_except_break
            instance_valid(*instance),
            surgeon_idx < instance.surgeons@.len(),
            floor < days,
            days == instance.days,
            days <= 1_000_000,
            i == relevant@[r as int],
            i < instance.patients@.len(),
            p_mandatory == instance.patients@[i as int].mandatory,
            duration == instance.patients@[i as int].surgery_duration,
            lo == stage1_lo(instance.patients@, floor as int, barred, i),
            hi == stage1_hi(instance.patients@, days as int, i),
            lo <= hi <= days,
            width == hi - lo + 1,
            width <= 1_000_001,
            nv == values@.len(),
            vbase + width <= nv,
            forall|k: int| 0 <= k < values@.len() ==> (#[trigger] values@[k]) <= SCALE,
            cancelled@.len() == width,
            active == count_false(cancelled@),
            w <= SCALE,
            lists@.len() == days + 1,
            remaining@.len() == days,
            day_views(lists@) == base_lists,
            remaining@ == base_rem,
            base_lists == day_views(old(lists)@),
            base_rem == old(remaining)@,
            forall|d: int|
                0 <= d < days ==> dur_sum(instance.patients@, #[trigger] base_lists[d])
                    + base_rem[d]
                    == instance.surgeons@[surgeon_idx as int].max_surgery_time@[d],
            placement_ok(instance.patients@, days as int, floor as int, barred, base_lists),
        ensures
            lists@.len() == days + 1,
            remaining@.len() == days,
            forall|p: usize|
                #[trigger] total_count(day_views(lists@), p) == total_count(base_lists, p)
                    + if i == p {
                    1int
                } else {
                    0int
                },
            forall|d: int|
                0 <= d < days ==> dur_sum(instance.patients@, #[trigger] day_views(lists@)[d])
                    + remaining@[d]
                    == instance.surgeons@[surgeon_idx as int].max_surgery_time@[d],
            placement_ok(
                instance.patients@,
                days as int,
                floor as int,
                barred,
                day_views(lists@),
            ),
        decreases active,
    {
        let u = draw_unit(rng);
        let pick = pick_day(values, vbase, width, &cancelled, u, w);
        match pick {
            Some(off) => {
                let d = lo + off;
                if d == days {
                    proof {
                        assert(!p_mandatory);
                        lemma_counts_push(base_lists, days as int, i);
                        lemma_placement_push(
                            instance.patients@,
                            days as int,
                            floor as int,
                            barred,
                            base_lists,
                            days as int,
                            i,
                        );
                    }
                    slot_push(lists, days, i);
                    break;
                } else {
                    let rem_d = remaining[d];
                    if duration <= rem_d {
                        proof {
                            lemma_counts_push(base_lists, d as int, i);
                            lemma_placement_push(
                                instance.patients@,
                                days as int,
                                floor as int,
                                barred,
                                base_lists,
                                d as int,
                                i,
                            );
                            lemma_dur_sum_push(instance.patients@, base_lists[d as int], i);
                        }
                        slot_push(lists, d, i);
                        set_u64(remaining, d, rem_d - duration);
                        proof {
                            assert forall|d2: int|
                                0 <= d2 < days implies dur_sum(
                                instance.patients@,
                                #[trigger] day_views(lists@)[d2],
                            ) + remaining@[d2]
                                == instance.surgeons@[surgeon_idx as int].max_surgery_time@[d2] by {
                                if d2 != d as int {
                                    assert(day_views(lists@)[d2] == base_lists[d2]);
                                }
                            }
                        }
                        break;
                    } else {
                        let ghost old_cancelled = cancelled@;
                        set_bool(&mut cancelled, off, true);
                        proof {
                            lemma_count_false_element(old_cancelled, off as int);
                            lemma_count_false_update(old_cancelled, off as int);
                        }
                        active = active - 1;
                        let v = values[vbase + off];
                        w = if v >= w {
                            0
                        } else {
                            w - v
                        };
                        if w <= 1 {
                            if p_mandatory {
                                return Err(ScheduleError::MandatoryUnassignable(i));
                            } else {
                                proof {
                                    lemma_counts_push(base_lists, days as int, i);
                                    lemma_placement_push(
                                        instance.patients@,
                                        days as int,
                                        floor as int,
                                        barred,
                                        base_lists,
                                        days as int,
                                        i,
                                    );
                                }
                                slot_push(lists, days, i);
                                break;
                            }
                        }
                    }
                }
            },
            None => {
                if p_mandatory {
                    return Err(ScheduleError::MandatoryUnassignable(i));
                } else {
                    proof {
                        lemma_counts_push(base_lists, days as int, i);
                        lemma_placement_push(
                            instance.patients@,
                            days as int,
                            floor as int,
                            barred,
                            base_lists,
                            days as int,
                            i,
                        );
                    }
                    slot_push(lists, days, i);
                    break;
                }
            },
        }
    }
    Ok(())
}


/// All-empty lists count nothing.
pub proof fn lemma_total_count_empty(lists: Seq<Seq<usize>>, p: usize)
    requires
        forall|d: int| 0 <= d < lists.len() ==> (#[trigger] lists[d]).len() == 0,
    ensures
        total_count(lists, p) == 0,
    decreases lists.len(),
{
    if lists.len() > 0 {
        lemma_count_empty(lists[0], p);
        assert(forall|d: int|
            0 <= d < lists.drop_first().len() ==> #[trigger] lists.drop_first()[d] == lists[d + 1]);
        lemma_total_count_empty(lists.drop_first(), p);
    }
}

/// Moves unassigned optional patients back into days that still have room:
/// the shortest unassigned surgery is tried on the admissible day with the
/// most remaining budget, until none fits.
/// Patient `u` witnesses the squeeze pass's fixpoint: it is a shortest
/// member of the unassigned pool, and on every day it may still take, even
/// its surgery alone no longer fits beside the day's load.
pub open spec fn squeeze_stuck(
    instance: Instance,
    surgeon_idx: int,
    floor: int,
    barred: Option<(usize, usize)>,
    lists: Seq<Seq<usize>>,
    u: usize,
) -> bool {
    let pool = lists[instance.days as int];
    &&& pool.contains(u)
    &&& forall|j2: int|
        0 <= j2 < pool.len() ==> instance.patients@[u as int].surgery_duration
            <= instance.patients@[(#[trigger] pool[j2]) as int].surgery_duration
    &&& forall|d: int|
        stage1_lo(instance.patients@, floor, barred, u) <= d < instance.days ==> dur_sum(
            instance.patients@,
            #[trigger] lists[d],
        ) + instance.patients@[u as int].surgery_duration
            > instance.surgeons@[surgeon_idx].max_surgery_time@[d]
}

fn squeeze_unassigned(
    instance: &Instance,
    surgeon_idx: usize,
    floor: usize,
    barred: Option<(usize, usize)>,
    lists: &mut Vec<Vec<usize>>,
    remaining: &mut Vec<u64>,
)
    requires
        instance_valid(*instance),
        surgeon_idx < instance.surgeons@.len(),
        floor < instance.days,
        old(lists)@.len() == instance.days + 1,
        old(remaining)@.len() == instance.days,
        forall|d: int|
            0 <= d < instance.days ==> dur_sum(
                instance.patients@,
                #[trigger] day_views(old(lists)@)[d],
            ) + old(remaining)@[d]
                == instance.surgeons@[surgeon_idx as int].max_surgery_time@[d],
        placement_ok(
            instance.patients@,
            instance.days as int,
            floor as int,
            barred,
            day_views(old(lists)@),
        ),
    ensures
        final(lists)@.len() == instance.days + 1,
        final(remaining)@.len() == instance.days,
        forall|p: usize|
            #[trigger] total_count(day_views(final(lists)@), p) == total_count(
                day_views(old(lists)@),
                p,
            ),
        forall|d: int|
            0 <= d < instance.days ==> dur_sum(
                instance.patients@,
                #[trigger] day_views(final(lists)@)[d],
            ) + final(remaining)@[d]
                == instance.surgeons@[surgeon_idx as int].max_surgery_time@[d],
        placement_ok(
            instance.patients@,
            instance.days as int,
            floor as int,
            barred,
            day_views(final(lists)@),
        ),
        day_views(final(lists)@)[instance.days as int].len() > 0 ==> exists|u: usize|
            squeeze_stuck(
                *instance,
                surgeon_idx as int,
                floor as int,
                barred,
                day_views(final(lists)@),
                u,
            ),
{
    let days = instance.days;
    loop
        invariant_except_break
            instance_valid(*instance),
            surgeon_idx < instance.surgeons@.len(),
            floor < days,
            days == instance.days,
            lists@.len() == days + 1,
            remaining@.len() == days,
            forall|p: usize|
                #[trigger] total_count(day_views(lists@), p) == total_count(
                    day_views(old(lists)@),
                    p,
                ),
            forall|d: int|
                0 <= d < days ==> dur_sum(instance.patients@, #[trigger] day_views(lists@)[d])
                    + remaining@[d]
                    == instance.surgeons@[surgeon_idx as int].max_surgery_time@[d],
            placement_ok(
                instance.patients@,
                days as int,
                floor as int,
                barred,
                day_views(lists@),
            ),
        ensures
            lists@.len() == days + 1,
            remaining@.len() == days,
            forall|p: usize|
                #[trigger] total_count(day_views(lists@), p) == total_count(
                    day_views(old(lists)@),
                    p,
                ),
            forall|d: int|
                0 <= d < days ==> dur_sum(instance.patients@, #[trigger] day_views(lists@)[d])
                    + remaining@[d]
                    == instance.surgeons@[surgeon_idx as int].max_surgery_time@[d],
            placement_ok(
                instance.patients@,
                days as int,
                floor as int,
                barred,
                day_views(lists@),
            ),
            day_views(lists@)[days as int].len() > 0 ==> exists|u: usize|
                squeeze_stuck(
                    *instance,
                    surgeon_idx as int,
                    floor as int,
                    barred,
                    day_views(lists@),
                    u,
                ),
        decreases lists@[days as int]@.len(),
    {
        let un_len = lists[days].len();
        if un_len == 0 {
            break;
        }
        proof {
            assert(day_views(lists@)[days as int] == lists@[days as int]@);
        }
        // the shortest unassigned surgery
        let mut bestj: usize = 0;
        let mut bj: usize = 1;
        while bj < un_len
            invariant
                instance_valid(*instance),
                days == instance.days,
                lists@.len() == days + 1,
                un_len == lists@[days as int]@.len(),
                0 < un_len,
                bestj < un_len,
                1 <= bj <= un_len,
                placement_ok(
                    instance.patients@,
                    days as int,
                    floor as int,
                    barred,
                    day_views(lists@),
                ),
                forall|q: int|
                    0 <= q < bj ==> instance.patients@[(lists@[days as int]@[
                        bestj as int]) as int].surgery_duration <= instance.patients@[(
                    #[trigger] lists@[days as int]@[q]) as int].surgery_duration,
            decreases un_len - bj,
        {
            proof {
                assert(day_views(lists@)[days as int] == lists@[days as int]@);
            }
            if instance.patients[lists[days][bj]].surgery_duration
                < instance.patients[lists[days][bestj]].surgery_duration {
                bestj = bj;
            }
            bj = bj + 1;
        }
        proof {
            assert(day_views(lists@)[days as int] == lists@[days as int]@);
        }
        let u = lists[days][bestj];
        // the first admissible day of this patient
        let mut lo: usize = instance.patients[u].surgery_release_day;
        if floor > lo {
            lo = floor;
        }
        match barred {
            Some((v, b)) => {
                if v == u && b + 1 > lo {
                    lo = b + 1;
                }
            },
            None => {},
        }
        proof {
            assert(lo == stage1_lo(instance.patients@, floor as int, barred, u));
        }
        if lo >= days {
            proof {
                assert(day_views(lists@)[days as int].contains(u)) by {
                    assert(day_views(lists@)[days as int][bestj as int] == u);
                }
                assert(squeeze_stuck(
                    *instance,
                    surgeon_idx as int,
                    floor as int,
                    barred,
                    day_views(lists@),
                    u,
                ));
            }
            break;
        }
        // the admissible day with the most room
        let mut bestd: usize = lo;
        let mut dd: usize = lo + 1;
        while dd < days
            invariant
                days == instance.days,
                remaining@.len() == days,
                lo <= bestd < days,
                lo + 1 <= dd <= days,
                forall|q: int|
                    lo <= q < dd ==> (#[trigger] remaining@[q]) <= remaining@[bestd as int],
            decreases days - dd,
        {
            if remaining[dd] > remaining[bestd] {
                bestd = dd;
            }
            dd = dd + 1;
        }
        let dur = instance.patients[u].surgery_duration as u64;
        let rem = remaining[bestd];
        if dur <= rem {
            let ghost cur = day_views(lists@);
            proof {
                // the sink holds only patients whose window reaches the sink
                assert(days as int <= stage1_hi(instance.patients@, days as int, u));
                lemma_placement_remove(
                    instance.patients@,
                    days as int,
                    floor as int,
                    barred,
                    cur,
                    days as int,
                    bestj as int,
                );
                lemma_counts_take(cur, days as int, bestj as int);
            }
            let x = slot_take(lists, days, bestj);
            let ghost mid = day_views(lists@);
            proof {
                lemma_placement_push(
                    instance.patients@,
                    days as int,
                    floor as int,
                    barred,
                    mid,
                    bestd as int,
                    x,
                );
                lemma_counts_push(mid, bestd as int, x);
                lemma_dur_sum_push(instance.patients@, mid[bestd as int], x);
                assert(mid[bestd as int] == cur[bestd as int]);
            }
            slot_push(lists, bestd, x);
            set_u64(remaining, bestd, rem - dur);
            proof {
                assert forall|d2: int|
                    0 <= d2 < days implies dur_sum(
                    instance.patients@,
                    #[trigger] day_views(lists@)[d2],
                ) + remaining@[d2]
                    == instance.surgeons@[surgeon_idx as int].max_surgery_time@[d2] by {
                    if d2 != bestd as int {
                        assert(day_views(lists@)[d2] == cur[d2]);
                    }
                }
                assert forall|p: usize|
                    #[trigger] total_count(day_views(lists@), p) == total_count(
                        day_views(old(lists)@),
                        p,
                    ) by {}
            }
        } else {
            proof {
                assert(day_views(lists@)[days as int].contains(u)) by {
                    assert(day_views(lists@)[days as int][bestj as int] == u);
                }
                assert forall|d: int|
                    stage1_lo(instance.patients@, floor as int, barred, u) <= d < days
                    implies dur_sum(instance.patients@, #[trigger] day_views(lists@)[d])
                    + instance.patients@[u as int].surgery_duration
                    > instance.surgeons@[surgeon_idx as int].max_surgery_time@[d] by {
                    assert(remaining@[d] <= remaining@[bestd as int]);
                }
                assert(squeeze_stuck(
                    *instance,
                    surgeon_idx as int,
                    floor as int,
                    barred,
                    day_views(lists@),
                    u,
                ));
            }
            break;
        }
    }
}

/// Removing a listed patient lowers exactly its count.
proof fn lemma_counts_take(lists: Seq<Seq<usize>>, dd: int, j: int)
    requires
        0 <= dd < lists.len(),
        0 <= j < lists[dd].len(),
    ensures
        forall|p: usize|
            #[trigger] total_count(lists.update(dd, lists[dd].remove(j)), p) == total_count(
                lists,
                p,
            ) - if lists[dd][j] == p {
                1int
            } else {
                0int
            },
{
    assert forall|p: usize|
        #[trigger] total_count(lists.update(dd, lists[dd].remove(j)), p) == total_count(lists, p)
            - if lists[dd][j] == p {
            1int
        } else {
            0int
        } by {
        lemma_total_count_update(lists, dd, lists[dd].remove(j), p);
        crate::model::lemma_count_remove(lists[dd], j, p);
    }
}

/// Brings each day's list into the canonical order, leaving the unassigned
/// sink untouched and every list's contents unchanged.
fn sort_day_lists(patients: &Vec<Patient>, lists: &mut Vec<Vec<usize>>, days: usize)
    requires
        days < old(lists)@.len(),
        forall|d: int, j: int|
            0 <= d < old(lists)@.len() && 0 <= j < old(lists)@[d]@.len() ==> (#[trigger] old(
                lists,
            )@[d]@[j]) < patients@.len(),
    ensures
        final(lists)@.len() == old(lists)@.len(),
        forall|d: int|
            0 <= d < final(lists)@.len() ==> (#[trigger] final(lists)@[d])@.to_multiset() == old(
                lists,
            )@[d]@.to_multiset(),
        forall|d: int|
            days <= d < final(lists)@.len() ==> (#[trigger] final(lists)@[d])@ == old(
                lists,
            )@[d]@,
        forall|d: int|
            0 <= d < days ==> slot_sorted(patients@, (#[trigger] final(lists)@[d])@),
{
    let n = lists.len();
    let mut d: usize = 0;
    while d < days
        invariant
            0 <= d <= days,
            days < n,
            n == lists@.len(),
            forall|b: int, j: int|
                0 <= b < lists@.len() && 0 <= j < lists@[b]@.len() ==> (#[trigger] lists@[b]@[j])
                    < patients@.len(),
            forall|b: int|
                0 <= b < lists@.len() ==> (#[trigger] lists@[b])@.to_multiset() == old(
                    lists,
                )@[b]@.to_multiset(),
            forall|b: int|
                d <= b < lists@.len() ==> (#[trigger] lists@[b])@ == old(lists)@[b]@,
            forall|b: int| 0 <= b < d ==> slot_sorted(patients@, (#[trigger] lists@[b])@),
        decreases days - d,
    {
        let ghost old_l = lists@;
        let slot = &mut lists[d];
        sort_patients_in_slot(patients, slot);
        proof {
            assert forall|b: int| 0 <= b < lists@.len() && b != d as int implies (
            #[trigger] lists@[b])@ == old_l[b]@ by {}
            assert forall|b: int, j: int|
                0 <= b < lists@.len() && 0 <= j < lists@[b]@.len() implies (
            #[trigger] lists@[b]@[j]) < patients@.len() by {
                if b == d as int {
                } else {
                    assert(lists@[b]@ == old_l[b]@);
                }
            }
        }
        d = d + 1;
    }
}


/// Rounds one surgeon's day-assignment LP solution into day lists: each
/// relevant patient (mandatory ones first, then by rising entropy key) draws
/// a day from its solution values, days without room are cancelled and the
/// draw retried, unassigned optional patients are squeezed back where room
/// remains, and each day's list ends in the canonical order.  The solution
/// values are fixed-point fractions over `SCALE`, laid out in the variable
/// order of `build_surgeon_day_lp`.
pub fn lp_relaxation_surgery_knapsack(
    instance: &Instance,
    surgeon_idx: usize,
    floor: usize,
    relevant: &Vec<usize>,
    barred: Option<(usize, usize)>,
    values: &Vec<u64>,
    entropy_keys: &Vec<u64>,
    rng: &mut rand::rngs::StdRng,
) -> (r: Result<Vec<Vec<usize>>, ScheduleError>)
    requires
        instance_valid(*instance),
        surgeon_idx < instance.surgeons@.len(),
        floor < instance.days,
        barred matches Some(bp) ==> bp.1 < instance.days,
        instance.days <= 1_000_000,
        forall|t: int|
            0 <= t < relevant@.len() ==> (#[trigger] relevant@[t]) < instance.patients@.len(),
        relevant@.len() <= 0x1000_0000,
        stage1_feasible(
            instance.patients@,
            instance.days as int,
            floor as int,
            barred,
            relevant@,
        ),
        values@.len() == stage1_base(
            instance.patients@,
            instance.days as int,
            floor as int,
            barred,
            relevant@,
            relevant@.len() as int,
        ),
        forall|k: int| 0 <= k < values@.len() ==> (#[trigger] values@[k]) <= SCALE,
        entropy_keys@.len() == relevant@.len(),
    ensures
        r matches Ok(lists) ==> stage1_result_ok(
            *instance,
            surgeon_idx as int,
            floor as int,
            barred,
            relevant@,
            day_views(lists@),
        ),
        // the squeeze pass ran to its fixpoint: a non-empty pool keeps a
        // shortest member that fits no day it may still take
        r matches Ok(lists) ==> (day_views(lists@)[instance.days as int].len() > 0
            ==> exists|u: usize|
            squeeze_stuck(
                *instance,
                surgeon_idx as int,
                floor as int,
                barred,
                day_views(lists@),
                u,
            )),
        r matches Err(e) ==> (e matches ScheduleError::MandatoryUnassignable(i) && relevant@.contains(
            i,
        ) && instance.patients@[i as int].mandatory),
{
    let days = instance.days;
    let nr = relevant.len();
    // one empty list per day, plus the unassigned sink
    let mut lists: Vec<Vec<usize>> = Vec::new();
    let mut d0: usize = 0;
    while d0 < days + 1
        invariant
            instance.days <= 1_000_000,
            days == instance.days,
            0 <= d0 <= days + 1,
            lists@.len() == d0,
            forall|b: int| 0 <= b < d0 ==> (#[trigger] lists@[b])@.len() == 0,
        decreases days + 1 - d0,
    {
        lists.push(Vec::new());
        d0 = d0 + 1;
    }
    // the surgeon's remaining budget per day
    let mut remaining: Vec<u64> = Vec::new();
    let mut d1: usize = 0;
    while d1 < days
        invariant
            instance_valid(*instance),
            surgeon_idx < instance.surgeons@.len(),
            days == instance.days,
            0 <= d1 <= days,
            remaining@.len() == d1,
            forall|b: int|
                0 <= b < d1 ==> (#[trigger] remaining@[b]) == instance.surgeons@[surgeon_idx as int].max_surgery_time@[b],
        decreases days - d1,
    {
        remaining.push(instance.surgeons[surgeon_idx].max_surgery_time[d1] as u64);
        d1 = d1 + 1;
    }
    // where each patient's variables start
    let nv = values.len();
    let mut bases: Vec<usize> = Vec::new();
    let mut acc: usize = 0;
    let mut tb: usize = 0;
    while tb < nr
        invariant
            instance_valid(*instance),
            days == instance.days,
            floor < days,
            barred matches Some(bp) ==> bp.1 < instance.days,
            nr == relevant@.len(),
            forall|q: int|
                0 <= q < relevant@.len() ==> (#[trigger] relevant@[q]) < instance.patients@.len(),
            stage1_feasible(
                instance.patients@,
                days as int,
                floor as int,
                barred,
                relevant@,
            ),
            nv == values@.len(),
            nv == stage1_base(
                instance.patients@,
                days as int,
                floor as int,
                barred,
                relevant@,
                nr as int,
            ),
            0 <= tb <= nr,
            bases@.len() == tb,
            acc == stage1_base(
                instance.patients@,
                days as int,
                floor as int,
                barred,
                relevant@,
                tb as int,
            ),
            forall|q: int|
                0 <= q < tb ==> (#[trigger] bases@[q]) == stage1_base(
                    instance.patients@,
                    days as int,
                    floor as int,
                    barred,
                    relevant@,
                    q,
                ),
        decreases nr - tb,
    {
        bases.push(acc);
        let i = relevant[tb];
        let p = &instance.patients[i];
        let mut lo: usize = p.surgery_release_day;
        if floor > lo {
            lo = floor;
        }
        match barred {
            Some((v, b)) => {
                if v == i && b + 1 > lo {
                    lo = b + 1;
                }
            },
            None => {},
        }
        let hi: usize = if p.mandatory {
            p.surgery_due_day
        } else {
            days
        };
        proof {
            assert(lo == stage1_lo(instance.patients@, floor as int, barred, i));
            assert(hi == stage1_hi(instance.patients@, days as int, i));
            assert(lo <= hi);
            crate::lp::lemma_base_mono(
                instance.patients@,
                days as int,
                floor as int,
                barred,
                relevant@,
                tb as int + 1,
                nr as int,
            );
        }
        let wdt: usize = hi - lo + 1;
        acc = acc + wdt;
        tb = tb + 1;
    }
    // round the patients one at a time
    let mut done: Vec<bool> = Vec::new();
    let mut c0: usize = 0;
    while c0 < nr
        invariant
            0 <= c0 <= nr,
            done@.len() == c0,
            forall|q: int| 0 <= q < c0 ==> !(#[trigger] done@[q]),
        decreases nr - c0,
    {
        done.push(false);
        c0 = c0 + 1;
    }
    proof {
        lemma_count_false_none(done@);
        assert forall|p: usize|
            #[trigger] total_count(day_views(lists@), p) == done_count(relevant@, done@, p) by {
            lemma_total_count_empty(day_views(lists@), p);
            lemma_done_count_none(relevant@, done@, p);
        }
        assert forall|d: int|
            0 <= d < days implies dur_sum(instance.patients@, #[trigger] day_views(lists@)[d])
            + remaining@[d]
            == instance.surgeons@[surgeon_idx as int].max_surgery_time@[d] by {
            assert(day_views(lists@)[d].len() == 0);
        }
    }
    let mut t: usize = 0;
    while t < nr
        invariant
            instance_valid(*instance),
            surgeon_idx < instance.surgeons@.len(),
            floor < days,
            days == instance.days,
            days <= 1_000_000,
            barred matches Some(bp) ==> bp.1 < instance.days,
            nr == relevant@.len(),
            forall|q: int|
                0 <= q < relevant@.len() ==> (#[trigger] relevant@[q]) < instance.patients@.len(),
            stage1_feasible(
                instance.patients@,
                days as int,
                floor as int,
                barred,
                relevant@,
            ),
            nv == values@.len(),
            nv == stage1_base(
                instance.patients@,
                days as int,
                floor as int,
                barred,
                relevant@,
                nr as int,
            ),
            forall|k: int| 0 <= k < values@.len() ==> (#[trigger] values@[k]) <= SCALE,
            entropy_keys@.len() == nr,
            bases@.len() == nr,
            forall|q: int|
                0 <= q < nr ==> (#[trigger] bases@[q]) == stage1_base(
                    instance.patients@,
                    days as int,
                    floor as int,
                    barred,
                    relevant@,
                    q,
                ),
            0 <= t <= nr,
            done@.len() == nr,
            count_false(done@) == nr - t,
            forall|p: usize|
                #[trigger] total_count(day_views(lists@), p) == done_count(relevant@, done@, p),
            lists@.len() == days + 1,
            remaining@.len() == days,
            forall|d: int|
                0 <= d < days ==> dur_sum(instance.patients@, #[trigger] day_views(lists@)[d])
                    + remaining@[d]
                    == instance.surgeons@[surgeon_idx as int].max_surgery_time@[d],
            placement_ok(
                instance.patients@,
                days as int,
                floor as int,
                barred,
                day_views(lists@),
            ),
        decreases nr - t,
    {
        let r = select_next(&instance.patients, relevant, entropy_keys, &done);
        let vb = bases[r];
        proof {
            crate::lp::lemma_base_mono(
                instance.patients@,
                days as int,
                floor as int,
                barred,
                relevant@,
                r as int + 1,
                nr as int,
            );
        }
        let res = place_one(
            instance,
            surgeon_idx,
            floor,
            relevant,
            barred,
            values,
            r,
            vb,
            &mut lists,
            &mut remaining,
            rng,
        );
        match res {
            Ok(_) => {},
            Err(e) => {
                proof {
                    assert(relevant@.contains(relevant@[r as int]));
                }
                return Err(e);
            },
        }
        let ghost old_done = done@;
        set_bool(&mut done, r, true);
        proof {
            lemma_count_false_update(old_done, r as int);
            assert forall|p: usize|
                #[trigger] total_count(day_views(lists@), p) == done_count(relevant@, done@, p) by {
                lemma_done_count_update(relevant@, old_done, r as int, p);
            }
        }
        t = t + 1;
    }
    proof {
        assert forall|j: int| 0 <= j < done@.len() implies done@[j] by {
            if !done@[j] {
                lemma_count_false_element(done@, j);
            }
        }
        assert forall|p: usize|
            #[trigger] total_count(day_views(lists@), p) == count_of(relevant@, p) by {
            lemma_done_count_full(relevant@, done@, p);
        }
    }
    // squeeze unassigned optional patients back where room remains
    let ghost before_squeeze = day_views(lists@);
    squeeze_unassigned(instance, surgeon_idx, floor, barred, &mut lists, &mut remaining);
    // bring each day into the canonical order
    let ghost before_sort = day_views(lists@);
    proof {
        assert forall|d: int, j: int|
            0 <= d < lists@.len() && 0 <= j < lists@[d]@.len() implies (#[trigger] lists@[d]@[j])
            < instance.patients@.len() by {
            assert(day_views(lists@)[d][j] == lists@[d]@[j]);
        }
    }
    sort_day_lists(&instance.patients, &mut lists, days);
    proof {
        let fin = day_views(lists@);
        // the sorted lists hold the same patients day by day
        assert forall|d: int| 0 <= d < fin.len() implies #[trigger] fin[d].to_multiset()
            == before_sort[d].to_multiset() by {
            assert(fin[d] == lists@[d]@);
            assert(before_sort[d].to_multiset() == lists@[d]@.to_multiset());
        }
        assert forall|p: usize|
            #[trigger] total_count(fin, p) == count_of(relevant@, p) by {
            assert forall|d: int|
                0 <= d < fin.len() implies count_of(#[trigger] fin[d], p) == count_of(
                before_sort[d],
                p,
            ) by {}
            crate::model::lemma_total_count_pointwise(fin, before_sort, p);
        }
        assert forall|d: int|
            floor as int <= d < days implies dur_sum(instance.patients@, #[trigger] fin[d])
            <= instance.surgeons@[surgeon_idx as int].max_surgery_time@[d] by {
            lemma_dur_sum_permutation(instance.patients@, fin[d], before_sort[d]);
        }
        // placements stay admissible: every sorted element stood in the
        // same day before
        assert forall|d: int, j: int|
            0 <= d < fin.len() && 0 <= j < fin[d].len() implies {
            let i = #[trigger] fin[d][j];
            &&& i < instance.patients@.len()
            &&& stage1_lo(instance.patients@, floor as int, barred, i) <= d
            &&& d <= stage1_hi(instance.patients@, days as int, i)
        } by {
            let l = fin[d];
            let q = l[j];
            lemma_count_element(l, j);
            lemma_count_of(before_sort[d], q);
            assert(count_of(before_sort[d], q) >= 1);
            assert(before_sort[d].contains(q));
            let jj = choose|jj: int| 0 <= jj < before_sort[d].len() && before_sort[d][jj] == q;
            assert(before_sort[d][jj] == q);
        }
        // days before the floor stay empty
        assert forall|d: int| 0 <= d < floor implies (#[trigger] fin[d]).len() == 0 by {
            if fin[d].len() > 0 {
                let i = fin[d][0];
                assert(stage1_lo(instance.patients@, floor as int, barred, i) <= d);
            }
        }
        // the squeeze fixpoint carries over: the pool is untouched by the
        // sort and every day keeps its duration sum
        assert(fin[days as int] == before_sort[days as int]);
        if fin[days as int].len() > 0 {
            let u = choose|u: usize|
                squeeze_stuck(
                    *instance,
                    surgeon_idx as int,
                    floor as int,
                    barred,
                    before_sort,
                    u,
                );
            assert(squeeze_stuck(
                *instance,
                surgeon_idx as int,
                floor as int,
                barred,
                fin,
                u,
            )) by {
                assert forall|d: int|
                    stage1_lo(instance.patients@, floor as int, barred, u) <= d < days
                    implies dur_sum(instance.patients@, #[trigger] fin[d])
                    + instance.patients@[u as int].surgery_duration
                    > instance.surgeons@[surgeon_idx as int].max_surgery_time@[d] by {
                    lemma_dur_sum_permutation(instance.patients@, fin[d], before_sort[d]);
                }
            }
        }
    }
    Ok(lists)
}

} // verus!
