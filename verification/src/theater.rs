//! Packing the patients fixed to one day into operating theaters: a linear
//! program in which each surgeon is placed wholly into one theater or split
//! once at its list's midpoint between two, with an opening variable per
//! theater.  The LP construction and the rounding of a solution are verified;
//! the continuous solve happens outside.  A greedy first-fit packing over
//! sorted bins serves as the LP-free fallback.

use vstd::prelude::*;

use crate::ScheduleError;
use crate::assignment::{Assignment, SurgeonPartitionInfo};
use crate::instance::{Instance, Patient, instance_valid};
use crate::lp::{ConstraintOp, LinearConstraint, LpProblem};
use crate::model::{count_of, dur_sum, lemma_count_push, lemma_dur_sum_push, total_count, total_len};
use crate::prelim::day_views;

verus! {

/// The variable standing for surgeon `s` putting its whole list (`k == 0`),
/// its first half (`k == 1`), or its second half (`k == 2`) into theater
/// `t`, among `nb` theaters.
pub open spec fn xvar(nb: int, s: int, t: int, k: int) -> int {
    s * (3 * nb) + 3 * t + k
}

/// The variable standing for theater `t` being opened, after all placement
/// variables of `ns` surgeons over `nb` theaters.
pub open spec fn yvar(ns: int, nb: int, t: int) -> int {
    3 * ns * nb + t
}

/// The surgery time surgeon `s` puts into a theater under pattern `k`: its
/// whole list, its first half, or its second half.
pub open spec fn split_dur(info: SurgeonPartitionInfo, k: int) -> int {
    if k == 0 {
        info.total_duration as int
    } else if k == 1 {
        info.partitioned_durations.0 as int
    } else {
        info.partitioned_durations.1 as int
    }
}

/// Placement variables are laid out injectively and in bounds.
proof fn lemma_xvar_bounds(nb: int, ns: int, s: int, t: int, k: int)
    by (nonlinear_arith)
    requires
        0 <= s < ns,
        0 <= t < nb,
        0 <= k < 3,
    ensures
        0 <= xvar(nb, s, t, k) < 3 * ns * nb,
        xvar(nb, s, t, k) < xvar(nb, s + 1, 0, 0),
{
}

/// Laying the variables out surgeon-major, theater-minor is monotone.
proof fn lemma_xvar_mono(nb: int, ns: int, s1: int, t1: int, k1: int, s2: int, t2: int, k2: int)
    by (nonlinear_arith)
    requires
        0 <= s1 < ns,
        0 <= t1 < nb,
        0 <= k1 < 3,
        0 <= s2 < ns,
        0 <= t2 < nb,
        0 <= k2 < 3,
        (s1 < s2) || (s1 == s2 && t1 < t2) || (s1 == s2 && t1 == t2 && k1 < k2),
    ensures
        xvar(nb, s1, t1, k1) < xvar(nb, s2, t2, k2),
{
}


/// Constraint `s` of the LP balances surgeon `s`'s two half placements.
pub open spec fn halves_constraint_ok(c: LinearConstraint, nb: int, s: int) -> bool {
    &&& c.op == ConstraintOp::Eq
    &&& c.rhs == 0
    &&& c.terms@.len() == 2 * nb
    &&& forall|t: int|
        0 <= t < nb ==> (#[trigger] c.terms@[t]) == (xvar(nb, s, t, 1) as usize, 1i64)
            && c.terms@[nb + t] == (xvar(nb, s, t, 2) as usize, -1i64)
}

/// The coverage constraint of surgeon `s`: one split level, chosen fully.
pub open spec fn coverage_constraint_ok(c: LinearConstraint, nb: int, s: int) -> bool {
    &&& c.op == ConstraintOp::Eq
    &&& c.rhs == 1
    &&& c.terms@.len() == 2 * nb
    &&& forall|t: int|
        0 <= t < nb ==> (#[trigger] c.terms@[t]) == (xvar(nb, s, t, 0) as usize, 1i64)
            && c.terms@[nb + t] == (xvar(nb, s, t, 1) as usize, 1i64)
}

/// The capacity constraint of theater `t`: the load placed into it stays
/// under its availability scaled by its opening variable.
pub open spec fn capacity_constraint_ok(
    c: LinearConstraint,
    nb: int,
    ns: int,
    infos: Seq<SurgeonPartitionInfo>,
    cap: int,
    t: int,
) -> bool {
    &&& c.op == ConstraintOp::Ge
    &&& c.rhs == 0
    &&& c.terms@.len() == 3 * ns + 1
    &&& forall|s: int, k: int|
        #![trigger c.terms@[3 * s + k]]
        0 <= s < ns && 0 <= k < 3 ==> c.terms@[3 * s + k] == (
            xvar(nb, s, t, k) as usize,
            (-split_dur(infos[s], k)) as i64,
        )
    &&& c.terms@[3 * ns] == (yvar(ns, nb, t) as usize, cap as i64)
}

/// Builds the theater LP of one day: per surgeon and theater a whole and two
/// half placement variables, an opening variable per theater, the balance of
/// the two halves and the coverage of each surgeon as equalities, and each
/// theater's availability scaled by its opening variable as a lower bound on
/// the placed load.  The objective charges each opened theater, each split,
/// and a rank gradient that favors roomier theaters.
#[verifier::rlimit(100)]
#[verifier::spinoff_prover]
pub fn lp_various_bin_packing(
    num_bins: usize,
    num_surgeons: usize,
    surgeon_transfer_weight: u64,
    new_bin_weight: u64,
    bin_capacity_vec: &Vec<u16>,
    bin_rank: &Vec<u64>,
    infos: &Vec<SurgeonPartitionInfo>,
) -> (r: LpProblem)
    requires
        bin_capacity_vec@.len() == num_bins,
        bin_rank@.len() == num_bins,
        infos@.len() == num_surgeons,
        1 <= num_bins <= 10_000,
        1 <= num_surgeons <= 10_000,
        surgeon_transfer_weight <= 0x8000_0000,
        forall|t: int| 0 <= t < num_bins ==> (#[trigger] bin_rank@[t]) <= 0x8000_0000,
    ensures
        r.costs@.len() == 3 * num_surgeons * num_bins + num_bins,
        forall|s: int, t: int, k: int|
            #![trigger r.costs@[xvar(num_bins as int, s, t, k)]]
            0 <= s < num_surgeons && 0 <= t < num_bins && 0 <= k < 3 ==> r.costs@[xvar(
                num_bins as int,
                s,
                t,
                k,
            )] == if k == 1 {
                surgeon_transfer_weight + bin_rank@[t]
            } else {
                bin_rank@[t] as int
            },
        forall|t: int|
            #![trigger r.costs@[yvar(num_surgeons as int, num_bins as int, t)]]
            0 <= t < num_bins ==> r.costs@[yvar(num_surgeons as int, num_bins as int, t)]
                == new_bin_weight,
        r.constraints@.len() == 2 * num_surgeons + num_bins,
        forall|s: int|
            0 <= s < num_surgeons ==> halves_constraint_ok(
                #[trigger] r.constraints@[s],
                num_bins as int,
                s,
            ),
        forall|s: int|
            0 <= s < num_surgeons ==> coverage_constraint_ok(
                #[trigger] r.constraints@[num_surgeons + s],
                num_bins as int,
                s,
            ),
        forall|t: int|
            0 <= t < num_bins ==> capacity_constraint_ok(
                #[trigger] r.constraints@[2 * num_surgeons + t],
                num_bins as int,
                num_surgeons as int,
                infos@,
                bin_capacity_vec@[t] as int,
                t,
            ),
{
    let three_nb: usize = 3 * num_bins;
    proof {
        assert((num_surgeons as int) * (three_nb as int) <= 300_000_000 && (num_surgeons as int)
            * (three_nb as int) == 3 * num_surgeons * num_bins) by (nonlinear_arith)
            requires
                three_nb == 3 * num_bins,
                1 <= num_bins <= 10_000,
                1 <= num_surgeons <= 10_000,
        ;
    }
    let total_x: usize = num_surgeons * three_nb;
    let nb = num_bins;
    let ns = num_surgeons;
    // objective coefficients: placement variables surgeon-major, then the
    // opening variables
    let mut costs: Vec<u64> = Vec::new();
    let mut s: usize = 0;
    while s < ns
        invariant
            1 <= nb <= 10_000,
            1 <= ns <= 10_000,
            nb == num_bins,
            ns == num_surgeons,
            surgeon_transfer_weight <= 0x8000_0000,
            forall|t2: int| 0 <= t2 < nb ==> (#[trigger] bin_rank@[t2]) <= 0x8000_0000,
            bin_rank@.len() == nb,
            three_nb == 3 * nb,
            total_x == num_surgeons * three_nb,
            total_x == 3 * num_surgeons * num_bins,
            0 <= s <= ns,
            costs@.len() == s * three_nb,
            forall|s2: int, t2: int, k2: int|
                #![trigger costs@[xvar(nb as int, s2, t2, k2)]]
                0 <= s2 < s && 0 <= t2 < nb && 0 <= k2 < 3 ==> costs@[xvar(nb as int, s2, t2, k2)]
                    == if k2 == 1 {
                    surgeon_transfer_weight + bin_rank@[t2]
                } else {
                    bin_rank@[t2] as int
                },
        decreases ns - s,
    {
        let ghost base = costs@.len() as int;
        let ghost cs0 = costs@;
        let mut t: usize = 0;
        while t < nb
            invariant
                1 <= nb <= 10_000,
                surgeon_transfer_weight <= 0x8000_0000,
                forall|t2: int| 0 <= t2 < nb ==> (#[trigger] bin_rank@[t2]) <= 0x8000_0000,
                bin_rank@.len() == nb,
                0 <= t <= nb,
                base == cs0.len(),
                costs@.len() == base + 3 * t,
                forall|k2: int| 0 <= k2 < base ==> #[trigger] costs@[k2] == cs0[k2],
                forall|t2: int, k2: int|
                    #![trigger costs@[base + 3 * t2 + k2]]
                    0 <= t2 < t && 0 <= k2 < 3 ==> costs@[base + 3 * t2 + k2] == if k2 == 1 {
                        surgeon_transfer_weight + bin_rank@[t2]
                    } else {
                        bin_rank@[t2] as int
                    },
            decreases nb - t,
        {
            costs.push(bin_rank[t]);
            costs.push(surgeon_transfer_weight + bin_rank[t]);
            costs.push(bin_rank[t]);
            t = t + 1;
        }
        proof {
            assert(costs@.len() == (s + 1) * three_nb) by (nonlinear_arith)
                requires
                    costs@.len() == base + 3 * (nb as int),
                    base == s * (three_nb as int),
                    three_nb == 3 * nb,
            ;
            assert forall|s2: int, t2: int, k2: int|
                #![trigger costs@[xvar(nb as int, s2, t2, k2)]]
                0 <= s2 < s + 1 && 0 <= t2 < nb && 0 <= k2 < 3 implies costs@[xvar(
                nb as int,
                s2,
                t2,
                k2,
            )] == if k2 == 1 {
                surgeon_transfer_weight + bin_rank@[t2]
            } else {
                bin_rank@[t2] as int
            } by {
                lemma_xvar_bounds(nb as int, ns as int, s2, t2, k2);
                if s2 < s as int {
                    lemma_xvar_mono(nb as int, ns as int, s2, t2, k2, s as int, 0, 0);
                    assert(xvar(nb as int, s as int, 0, 0) == base) by (nonlinear_arith)
                        requires
                            base == s * (three_nb as int),
                            three_nb == 3 * nb,
                    ;
                    assert(costs@[xvar(nb as int, s2, t2, k2)] == cs0[xvar(nb as int, s2, t2, k2)]);
                } else {
                    assert(xvar(nb as int, s as int, t2, k2) == base + 3 * t2 + k2)
                        by (nonlinear_arith)
                        requires
                            base == s * (three_nb as int),
                            three_nb == 3 * nb,
                    ;
                }
            }
        }
        s = s + 1;
    }
    proof {
        assert(costs@.len() == total_x) by (nonlinear_arith)
            requires
                costs@.len() == (ns as int) * (three_nb as int),
                total_x == num_surgeons * three_nb,
                ns == num_surgeons,
        ;
    }
    let ghost cs1 = costs@;
    let mut ty: usize = 0;
    while ty < nb
        invariant
            nb == num_bins,
            ns == num_surgeons,
            0 <= ty <= nb,
            cs1.len() == total_x,
            total_x == 3 * num_surgeons * num_bins,
            costs@.len() == total_x + ty,
            forall|k2: int| 0 <= k2 < total_x ==> #[trigger] costs@[k2] == cs1[k2],
            forall|t2: int|
                0 <= t2 < ty ==> #[trigger] costs@[total_x + t2] == new_bin_weight,
        decreases nb - ty,
    {
        costs.push(new_bin_weight);
        ty = ty + 1;
    }
    proof {
        assert forall|s2: int, t2: int, k2: int|
            #![trigger costs@[xvar(nb as int, s2, t2, k2)]]
            0 <= s2 < ns && 0 <= t2 < nb && 0 <= k2 < 3 implies costs@[xvar(nb as int, s2, t2, k2)]
            == if k2 == 1 {
            surgeon_transfer_weight + bin_rank@[t2]
        } else {
            bin_rank@[t2] as int
        } by {
            lemma_xvar_bounds(nb as int, ns as int, s2, t2, k2);
            assert(costs@[xvar(nb as int, s2, t2, k2)] == cs1[xvar(nb as int, s2, t2, k2)]);
        }
        assert forall|t2: int|
            #![trigger costs@[yvar(ns as int, nb as int, t2)]]
            0 <= t2 < nb implies costs@[yvar(ns as int, nb as int, t2)] == new_bin_weight by {
            assert(yvar(ns as int, nb as int, t2) == total_x + t2);
        }
    }
    // the balance of the two halves and the coverage of each surgeon
    let mut constraints: Vec<LinearConstraint> = Vec::new();
    let mut s1: usize = 0;
    while s1 < ns
        invariant
            1 <= nb <= 10_000,
            1 <= ns <= 10_000,
            nb == num_bins,
            ns == num_surgeons,
            three_nb == 3 * nb,
            0 <= s1 <= ns,
            constraints@.len() == s1,
            forall|s2: int|
                0 <= s2 < s1 ==> halves_constraint_ok(
                    #[trigger] constraints@[s2],
                    nb as int,
                    s2,
                ),
        decreases ns - s1,
    {
        proof {
            assert((s1 as int) * (three_nb as int) <= 300_000_000) by (nonlinear_arith)
                requires
                    s1 <= 10_000,
                    three_nb <= 30_000,
                    0 <= s1,
                    0 <= three_nb,
            ;
        }
        let xbase: usize = s1 * three_nb;
        let mut terms: Vec<(usize, i64)> = Vec::new();
        let mut t: usize = 0;
        while t < nb
            invariant
                nb <= 10_000,
                three_nb == 3 * nb,
                xbase <= 300_000_000,
                xbase == s1 * three_nb,
                0 <= t <= nb,
                terms@.len() == t,
                forall|t2: int|
                    0 <= t2 < t ==> (#[trigger] terms@[t2]) == (
                        ((xbase + 3 * t2 + 1) as usize),
                        1i64,
                    ),
            decreases nb - t,
        {
            terms.push((xbase + 3 * t + 1, 1i64));
            t = t + 1;
        }
        let mut t2x: usize = 0;
        while t2x < nb
            invariant
                nb <= 10_000,
                three_nb == 3 * nb,
                xbase <= 300_000_000,
                xbase == s1 * three_nb,
                0 <= t2x <= nb,
                terms@.len() == nb + t2x,
                forall|t2: int|
                    0 <= t2 < nb ==> (#[trigger] terms@[t2]) == (
                        ((xbase + 3 * t2 + 1) as usize),
                        1i64,
                    ),
                forall|t2: int|
                    0 <= t2 < t2x ==> (#[trigger] terms@[nb + t2]) == (
                        ((xbase + 3 * t2 + 2) as usize),
                        -1i64,
                    ),
            decreases nb - t2x,
        {
            terms.push((xbase + 3 * t2x + 2, -1i64));
            t2x = t2x + 1;
        }
        constraints.push(LinearConstraint { terms, op: ConstraintOp::Eq, rhs: 0 });
        proof {
            assert(xbase == s1 * (3 * (nb as int))) by (nonlinear_arith)
                requires
                    xbase == s1 * (three_nb as int),
                    three_nb == 3 * nb,
            ;
            let c = constraints@[s1 as int];
            assert forall|t2: int|
                0 <= t2 < nb implies (#[trigger] c.terms@[t2]) == (
                xvar(nb as int, s1 as int, t2, 1) as usize,
                1i64,
            ) && c.terms@[nb + t2] == (xvar(nb as int, s1 as int, t2, 2) as usize, -1i64) by {
                assert(xvar(nb as int, s1 as int, t2, 1) == xbase + 3 * t2 + 1);
                assert(xvar(nb as int, s1 as int, t2, 2) == xbase + 3 * t2 + 2);
                assert(c.terms@[t2] == ((xbase + 3 * t2 + 1) as usize, 1i64));
                assert(c.terms@[nb + t2] == ((xbase + 3 * t2 + 2) as usize, -1i64));
            }
            assert(halves_constraint_ok(constraints@[s1 as int], nb as int, s1 as int));
        }
        s1 = s1 + 1;
    }
    let mut s2i: usize = 0;
    while s2i < ns
        invariant
            1 <= nb <= 10_000,
            1 <= ns <= 10_000,
            nb == num_bins,
            ns == num_surgeons,
            three_nb == 3 * nb,
            0 <= s2i <= ns,
            constraints@.len() == ns + s2i,
            forall|s2: int|
                0 <= s2 < ns ==> halves_constraint_ok(
                    #[trigger] constraints@[s2],
                    nb as int,
                    s2,
                ),
            forall|s2: int|
                0 <= s2 < s2i ==> coverage_constraint_ok(
                    #[trigger] constraints@[ns + s2],
                    nb as int,
                    s2,
                ),
        decreases ns - s2i,
    {
        proof {
            assert((s2i as int) * (three_nb as int) <= 300_000_000) by (nonlinear_arith)
                requires
                    s2i <= 10_000,
                    three_nb <= 30_000,
                    0 <= s2i,
                    0 <= three_nb,
            ;
        }
        let xbase: usize = s2i * three_nb;
        let mut terms: Vec<(usize, i64)> = Vec::new();
        let mut t: usize = 0;
        while t < nb
            invariant
                nb <= 10_000,
                three_nb == 3 * nb,
                xbase <= 300_000_000,
                xbase == s2i * three_nb,
                0 <= t <= nb,
                terms@.len() == t,
                forall|t2: int|
                    0 <= t2 < t ==> (#[trigger] terms@[t2]) == (((xbase + 3 * t2) as usize), 1i64),
            decreases nb - t,
        {
            terms.push((xbase + 3 * t, 1i64));
            t = t + 1;
        }
        let mut t2x: usize = 0;
        while t2x < nb
            invariant
                nb <= 10_000,
                three_nb == 3 * nb,
                xbase <= 300_000_000,
                xbase == s2i * three_nb,
                0 <= t2x <= nb,
                terms@.len() == nb + t2x,
                forall|t2: int|
                    0 <= t2 < nb ==> (#[trigger] terms@[t2]) == (((xbase + 3 * t2) as usize), 1i64),
                forall|t2: int|
                    0 <= t2 < t2x ==> (#[trigger] terms@[nb + t2]) == (
                        ((xbase + 3 * t2 + 1) as usize),
                        1i64,
                    ),
            decreases nb - t2x,
        {
            terms.push((xbase + 3 * t2x + 1, 1i64));
            t2x = t2x + 1;
        }
        constraints.push(LinearConstraint { terms, op: ConstraintOp::Eq, rhs: 1 });
        proof {
            assert(xbase == s2i * (3 * (nb as int))) by (nonlinear_arith)
                requires
                    xbase == s2i * (three_nb as int),
                    three_nb == 3 * nb,
            ;
            let c = constraints@[ns + s2i as int];
            assert forall|t2: int|
                0 <= t2 < nb implies (#[trigger] c.terms@[t2]) == (
                xvar(nb as int, s2i as int, t2, 0) as usize,
                1i64,
            ) && c.terms@[nb + t2] == (xvar(nb as int, s2i as int, t2, 1) as usize, 1i64) by {
                assert(xvar(nb as int, s2i as int, t2, 0) == xbase + 3 * t2);
                assert(xvar(nb as int, s2i as int, t2, 1) == xbase + 3 * t2 + 1);
                assert(c.terms@[t2] == ((xbase + 3 * t2) as usize, 1i64));
                assert(c.terms@[nb + t2] == ((xbase + 3 * t2 + 1) as usize, 1i64));
            }
            assert(coverage_constraint_ok(constraints@[ns + s2i as int], nb as int, s2i as int));
        }
        s2i = s2i + 1;
    }
    // each theater's availability, scaled by its opening variable, bounds
    // the load placed into it
    let mut tc: usize = 0;
    while tc < nb
        invariant
            1 <= nb <= 10_000,
            1 <= ns <= 10_000,
            nb == num_bins,
            ns == num_surgeons,
            three_nb == 3 * nb,
            total_x == 3 * num_surgeons * num_bins,
            total_x <= 300_000_000,
            bin_capacity_vec@.len() == nb,
            infos@.len() == ns,
            0 <= tc <= nb,
            constraints@.len() == 2 * ns + tc,
            forall|s2: int|
                0 <= s2 < ns ==> halves_constraint_ok(
                    #[trigger] constraints@[s2],
                    nb as int,
                    s2,
                ),
            forall|s2: int|
                0 <= s2 < ns ==> coverage_constraint_ok(
                    #[trigger] constraints@[ns + s2],
                    nb as int,
                    s2,
                ),
            forall|t2: int|
                0 <= t2 < tc ==> capacity_constraint_ok(
                    #[trigger] constraints@[2 * ns + t2],
                    nb as int,
                    ns as int,
                    infos@,
                    bin_capacity_vec@[t2] as int,
                    t2,
                ),
        decreases nb - tc,
    {
        let mut terms: Vec<(usize, i64)> = Vec::new();
        let mut sx: usize = 0;
        while sx < ns
            invariant
                1 <= nb <= 10_000,
                1 <= ns <= 10_000,
                three_nb == 3 * nb,
                infos@.len() == ns,
                tc < nb,
                0 <= sx <= ns,
                terms@.len() == 3 * sx,
                forall|s2: int, k2: int|
                    #![trigger terms@[3 * s2 + k2]]
                    0 <= s2 < sx && 0 <= k2 < 3 ==> terms@[3 * s2 + k2] == (
                        xvar(nb as int, s2, tc as int, k2) as usize,
                        (-split_dur(infos@[s2], k2)) as i64,
                    ),
            decreases ns - sx,
        {
            proof {
                assert((sx as int) * (three_nb as int) <= 300_000_000) by (nonlinear_arith)
                    requires
                        sx <= 10_000,
                        three_nb <= 30_000,
                        0 <= sx,
                        0 <= three_nb,
                ;
            }
            let xbase: usize = sx * three_nb;
            proof {
                assert(xbase == sx * (3 * (nb as int))) by (nonlinear_arith)
                    requires
                        xbase == sx * (three_nb as int),
                        three_nb == 3 * nb,
                ;
            }
            let info = &infos[sx];
            terms.push((xbase + 3 * tc, -(info.total_duration as i64)));
            terms.push((xbase + 3 * tc + 1, -(info.partitioned_durations.0 as i64)));
            terms.push((xbase + 3 * tc + 2, -(info.partitioned_durations.1 as i64)));
            sx = sx + 1;
        }
        terms.push((total_x + tc, bin_capacity_vec[tc] as i64));
        proof {
            assert(yvar(ns as int, nb as int, tc as int) == total_x + tc);
            assert(terms@.len() == 3 * ns + 1);
        }
        constraints.push(LinearConstraint { terms, op: ConstraintOp::Ge, rhs: 0 });
        proof {
            assert(capacity_constraint_ok(
                constraints@[2 * ns + tc as int],
                nb as int,
                ns as int,
                infos@,
                bin_capacity_vec@[tc as int] as int,
                tc as int,
            ));
        }
        tc = tc + 1;
    }
    LpProblem { costs, constraints }
}


/// Theater `a` comes before theater `b` in one day's rank order: it has the
/// larger availability, ties broken by index.
pub open spec fn ranks_before(instance: Instance, day: int, a: int, b: int) -> bool {
    ||| instance.theaters@[a].availability@[day]
        > instance.theaters@[b].availability@[day]
    ||| (instance.theaters@[a].availability@[day] == instance.theaters@[b].availability@[day]
        && a < b)
}

/// How many of the first `upto` theaters come before theater `t` in one
/// day's rank order.
pub open spec fn rank_count(instance: Instance, day: int, t: int, upto: int) -> int
    decreases upto,
{
    if upto <= 0 {
        0
    } else {
        rank_count(instance, day, t, upto - 1) + if ranks_before(instance, day, upto - 1, t) {
            1int
        } else {
            0int
        }
    }
}

/// The rank of theater `t` on one day: its position in the
/// falling-availability order over all theaters.
pub open spec fn theater_rank(instance: Instance, day: int, t: int) -> int {
    rank_count(instance, day, t, instance.theaters@.len() as int)
}

/// Rank counts stay within the number of theaters counted.
proof fn lemma_rank_count_le(instance: Instance, day: int, t: int, upto: int)
    requires
        0 <= upto,
    ensures
        0 <= rank_count(instance, day, t, upto) <= upto,
    decreases upto,
{
    if upto > 0 {
        lemma_rank_count_le(instance, day, t, upto - 1);
    }
}

/// The rank gradient of one day: for each theater its position in the
/// falling-availability order, roomier theaters first and ties kept in
/// theater order.  It biases the theater LP toward packing the most spacious
/// theaters first.
pub fn theater_ranks(instance: &Instance, day: usize) -> (r: Vec<u64>)
    requires
        instance_valid(*instance),
        day < instance.days,
        instance.theaters@.len() <= 10_000,
    ensures
        r@.len() == instance.theaters@.len(),
        forall|t: int|
            0 <= t < r@.len() ==> (#[trigger] r@[t]) == theater_rank(*instance, day as int, t),
        forall|t: int| 0 <= t < r@.len() ==> (#[trigger] r@[t]) <= instance.theaters@.len(),
{
    let nt = instance.theaters.len();
    let mut r: Vec<u64> = Vec::new();
    let mut t: usize = 0;
    while t < nt
        invariant
            instance_valid(*instance),
            day < instance.days,
            nt == instance.theaters@.len(),
            nt <= 10_000,
            0 <= t <= nt,
            r@.len() == t,
            forall|t2: int|
                0 <= t2 < t ==> (#[trigger] r@[t2]) == theater_rank(*instance, day as int, t2),
            forall|t2: int| 0 <= t2 < t ==> (#[trigger] r@[t2]) <= nt,
        decreases nt - t,
    {
        let mine = instance.theaters[t].availability[day];
        let mut c: usize = 0;
        let mut t2: usize = 0;
        while t2 < nt
            invariant
                instance_valid(*instance),
                day < instance.days,
                nt == instance.theaters@.len(),
                nt <= 10_000,
                t < nt,
                mine == instance.theaters@[t as int].availability@[day as int],
                0 <= t2 <= nt,
                c == rank_count(*instance, day as int, t as int, t2 as int),
                c <= t2,
            decreases nt - t2,
        {
            let other = instance.theaters[t2].availability[day];
            if other > mine || (other == mine && t2 < t) {
                c = c + 1;
            }
            t2 = t2 + 1;
        }
        r.push(c as u64);
        t = t + 1;
    }
    r
}

/// Where stage two placed one surgeon's day list: wholly into one theater,
/// or split at the midpoint between two.
#[derive(Debug, Clone, Copy, PartialEq, Eq, Structural)]
pub enum TheaterChoice {
    Whole(usize),
    Split(usize, usize),
}

/// The theater a choice sends the patient at list position `j` to, with the
/// first half running up to position `loc` exclusively.
pub open spec fn choice_target(ch: TheaterChoice, j: int, loc: int) -> int {
    match ch {
        TheaterChoice::Whole(t) => t as int,
        TheaterChoice::Split(t0, t1) => if j < loc {
            t0 as int
        } else {
            t1 as int
        },
    }
}

/// The theater carrying the largest mass of placement pattern `k` for the
/// surgeon whose variables start at `xbase`, among the first `nt` theaters;
/// ties keep the earlier theater.
pub open spec fn best_theater(values: Seq<u64>, xbase: int, k: int, nt: int) -> int
    decreases nt,
{
    if nt <= 1 {
        0
    } else {
        let b = best_theater(values, xbase, k, nt - 1);
        if values[xbase + 3 * (nt - 1) + k] > values[xbase + 3 * b + k] {
            nt - 1
        } else {
            b
        }
    }
}

/// The placement the rounding chooses for surgeon `s` from the solution
/// masses: wholly into the theater of largest whole mass, unless the largest
/// first-half mass dominates, in which case the two halves go to the
/// theaters of their largest half masses.
pub open spec fn surgeon_choice(values: Seq<u64>, nt: int, s: int) -> TheaterChoice {
    let xbase = xvar(nt, s, 0, 0);
    let tw = best_theater(values, xbase, 0, nt);
    let t0 = best_theater(values, xbase, 1, nt);
    let t1 = best_theater(values, xbase, 2, nt);
    if values[xbase + 3 * tw] >= values[xbase + 3 * t0 + 1] {
        TheaterChoice::Whole(tw as usize)
    } else {
        TheaterChoice::Split(t0 as usize, t1 as usize)
    }
}

/// The surgery time surgeon's chosen placement puts into theater `t`: its
/// whole list, or the half of it that `t` receives (both halves when the
/// split names `t` twice).
pub open spec fn choice_contrib(
    patients: Seq<Patient>,
    row: Seq<usize>,
    ch: TheaterChoice,
    t: int,
) -> int {
    match ch {
        TheaterChoice::Whole(tw) => if t == tw {
            dur_sum(patients, row)
        } else {
            0
        },
        TheaterChoice::Split(t0, t1) => (if t == t0 {
            dur_sum(patients, row.take(row.len() as int / 2))
        } else {
            0
        }) + (if t == t1 {
            dur_sum(patients, row.skip(row.len() as int / 2))
        } else {
            0
        }),
    }
}

/// The part of a surgeon's chosen load already standing in theater `t` after
/// its first `j` patients are placed.
pub open spec fn partial_contrib(
    patients: Seq<Patient>,
    row: Seq<usize>,
    ch: TheaterChoice,
    j: int,
    t: int,
) -> int {
    match ch {
        TheaterChoice::Whole(tw) => if t == tw {
            dur_sum(patients, row.take(j))
        } else {
            0
        },
        TheaterChoice::Split(t0, t1) => {
            let loc = row.len() as int / 2;
            if j <= loc {
                if t == t0 {
                    dur_sum(patients, row.take(j))
                } else {
                    0
                }
            } else {
                (if t == t0 {
                    dur_sum(patients, row.take(loc))
                } else {
                    0
                }) + (if t == t1 {
                    dur_sum(patients, row.subrange(loc, j))
                } else {
                    0
                })
            }
        },
    }
}

/// The load theater `t` receives from the first `s_upto` surgeons' mass
/// choices.
pub open spec fn choice_load(
    patients: Seq<Patient>,
    rows: Seq<Seq<usize>>,
    values: Seq<u64>,
    nt: int,
    t: int,
    s_upto: int,
) -> int
    decreases s_upto,
{
    if s_upto <= 0 {
        0
    } else {
        choice_load(patients, rows, values, nt, t, s_upto - 1) + choice_contrib(
            patients,
            rows[s_upto - 1],
            surgeon_choice(values, nt, s_upto - 1),
            t,
        )
    }
}

/// Appending a whole row to the counted lists adds exactly its counts.
proof fn lemma_total_count_push_row(lists: Seq<Seq<usize>>, l: Seq<usize>, p: usize)
    ensures
        total_count(lists.push(l), p) == total_count(lists, p) + count_of(l, p),
    decreases lists.len(),
{
    if lists.len() == 0 {
        assert(lists.push(l).drop_first() =~= Seq::<Seq<usize>>::empty());
        crate::model::lemma_count_of(l, p);
        assert(total_count(Seq::<Seq<usize>>::empty(), p) == 0);
    } else {
        assert(lists.push(l).drop_first() =~= lists.drop_first().push(l));
        lemma_total_count_push_row(lists.drop_first(), l, p);
    }
}


/// The per-surgeon day lists of one day.
pub open spec fn day_lists_of(a: Assignment, instance: Instance, day: int) -> Seq<Seq<usize>> {
    Seq::new(
        instance.surgeons@.len() as nat,
        |s: int| a.patients_per_day_per_surgeon@[s]@[day]@,
    )
}

/// Appending a whole row to the counted lists adds exactly its length.
proof fn lemma_total_len_push_row(lists: Seq<Seq<usize>>, l: Seq<usize>)
    ensures
        total_len(lists.push(l)) == total_len(lists) + l.len(),
    decreases lists.len(),
{
    if lists.len() == 0 {
        assert(lists.push(l).drop_first() =~= Seq::<Seq<usize>>::empty());
        assert(lists.push(l)[0] == l);
        assert(total_len(Seq::<Seq<usize>>::empty()) == 0);
    } else {
        assert(lists.push(l).drop_first() =~= lists.drop_first().push(l));
        assert(lists.push(l)[0] == lists[0]);
        lemma_total_len_push_row(lists.drop_first(), l);
    }
}

impl Assignment {
    /// Rounds a theater-LP solution for one day: each surgeon goes wholly to
    /// the theater carrying its largest whole-placement mass, or, when the
    /// split mass dominates, its two halves go to the theaters carrying the
    /// largest half masses.  Fails exactly when a theater ends over its
    /// availability, which triggers the bump protocol on this day.
    #[allow(non_snake_case)]
    pub fn patient_OT_assignment_for_day(
        &self,
        instance: &Instance,
        day: usize,
        values: &Vec<u64>,
    ) -> (r: Result<(Vec<Vec<usize>>, Vec<TheaterChoice>), ScheduleError>)
        requires
            self.wf(*instance),
            instance_valid(*instance),
            day < instance.days,
            1 <= instance.theaters@.len() <= 10_000,
            1 <= instance.surgeons@.len() <= 10_000,
            values@.len() == 3 * instance.surgeons@.len() * instance.theaters@.len()
                + instance.theaters@.len(),
            total_len(day_lists_of(*self, *instance, day as int)) <= 0x1000_0000_0000,
        ensures
            r matches Ok(out) ==> {
                let theaters = day_views(out.0@);
                let rows = day_lists_of(*self, *instance, day as int);
                let nt = instance.theaters@.len() as int;
                let ns = instance.surgeons@.len() as int;
                &&& out.0@.len() == nt
                &&& out.1@.len() == ns
                &&& forall|t: int|
                    0 <= t < nt ==> dur_sum(instance.patients@, #[trigger] theaters[t])
                        <= instance.theaters@[t].availability@[day as int]
                &&& forall|p: usize| #[trigger] total_count(theaters, p) == total_count(rows, p)
                &&& forall|s: int|
                    0 <= s < ns ==> match #[trigger] out.1@[s] {
                        TheaterChoice::Whole(t) => t < nt,
                        TheaterChoice::Split(t0, t1) => t0 < nt && t1 < nt,
                    }
                &&& forall|s: int, j: int|
                    #![trigger rows[s][j]]
                    0 <= s < ns && 0 <= j < rows[s].len() ==> count_of(
                        theaters[choice_target(out.1@[s], j, rows[s].len() as int / 2)],
                        rows[s][j],
                    ) >= 1
                &&& forall|s: int|
                    0 <= s < ns ==> #[trigger] out.1@[s] == surgeon_choice(values@, nt, s)
                &&& forall|t: int|
                    0 <= t < nt ==> dur_sum(instance.patients@, #[trigger] theaters[t])
                        == choice_load(instance.patients@, rows, values@, nt, t, ns)
            },
            r matches Err(e) ==> {
                let rows = day_lists_of(*self, *instance, day as int);
                let nt = instance.theaters@.len() as int;
                let ns = instance.surgeons@.len() as int;
                &&& e == ScheduleError::RoundingInfeasible(day)
                &&& exists|t: int|
                    0 <= t < nt && #[trigger] choice_load(
                        instance.patients@,
                        rows,
                        values@,
                        nt,
                        t,
                        ns,
                    ) > instance.theaters@[t].availability@[day as int]
            },
    {
        let nt = instance.theaters.len();
        let ns = instance.surgeons.len();
        let three_nt: usize = 3 * nt;
        let ghost rows = day_lists_of(*self, *instance, day as int);
        let nv = values.len();
        let mut theaters: Vec<Vec<usize>> = Vec::new();
        let mut t0i: usize = 0;
        while t0i < nt
            invariant
                0 <= t0i <= nt,
                theaters@.len() == t0i,
                forall|b: int| 0 <= b < t0i ==> (#[trigger] theaters@[b])@.len() == 0,
            decreases nt - t0i,
        {
            theaters.push(Vec::new());
            t0i = t0i + 1;
        }
        proof {
            assert forall|p: usize|
                #[trigger] total_count(day_views(theaters@), p) == total_count(
                    rows.take(0),
                    p,
                ) by {
                crate::rounding::lemma_total_count_empty(day_views(theaters@), p);
                assert(rows.take(0) =~= Seq::<Seq<usize>>::empty());
            }
            assert(total_len(day_views(theaters@)) == total_len(rows.take(0))) by {
                crate::model::lemma_total_len_nonneg(day_views(theaters@));
                lemma_total_len_empty(day_views(theaters@));
                assert(rows.take(0) =~= Seq::<Seq<usize>>::empty());
            }
            assert forall|t2: int|
                0 <= t2 < nt implies dur_sum(
                instance.patients@,
                #[trigger] day_views(theaters@)[t2],
            ) == choice_load(
                instance.patients@,
                rows,
                values@,
                nt as int,
                t2,
                0,
            ) by {
                assert(day_views(theaters@)[t2].len() == 0);
            }
        }
        let mut choices: Vec<TheaterChoice> = Vec::new();
        let mut s: usize = 0;
        while s < ns
            invariant
                self.wf(*instance),
                instance_valid(*instance),
                day < instance.days,
                1 <= nt <= 10_000,
                1 <= ns <= 10_000,
                nt == instance.theaters@.len(),
                ns == instance.surgeons@.len(),
                three_nt == 3 * nt,
                nv == values@.len(),
                nv == 3 * ns * nt + nt,
                rows == day_lists_of(*self, *instance, day as int),
                rows.len() == ns,
                total_len(rows) <= 0x1000_0000_0000,
                0 <= s <= ns,
                theaters@.len() == nt,
                choices@.len() == s,
                forall|p: usize|
                    #[trigger] total_count(day_views(theaters@), p) == total_count(
                        rows.take(s as int),
                        p,
                    ),
                total_len(day_views(theaters@)) == total_len(rows.take(s as int)),
                forall|t: int, j: int|
                    0 <= t < nt && 0 <= j < day_views(theaters@)[t].len() ==> (
                    #[trigger] day_views(theaters@)[t][j]) < instance.patients@.len(),
                forall|s2: int|
                    0 <= s2 < s ==> match #[trigger] choices@[s2] {
                        TheaterChoice::Whole(t) => t < nt,
                        TheaterChoice::Split(ta, tb) => ta < nt && tb < nt,
                    },
                forall|s2: int, j: int|
                    #![trigger rows[s2][j]]
                    0 <= s2 < s && 0 <= j < rows[s2].len() ==> count_of(
                        day_views(theaters@)[choice_target(
                            choices@[s2],
                            j,
                            rows[s2].len() as int / 2,
                        )],
                        rows[s2][j],
                    ) >= 1,
                forall|s2: int|
                    0 <= s2 < s ==> #[trigger] choices@[s2] == surgeon_choice(
                        values@,
                        nt as int,
                        s2,
                    ),
                forall|t2: int|
                    0 <= t2 < nt ==> dur_sum(
                        instance.patients@,
                        #[trigger] day_views(theaters@)[t2],
                    ) == choice_load(instance.patients@, rows, values@, nt as int, t2, s as int),
            decreases ns - s,
        {
            proof {
                assert((s as int) * (three_nt as int) + 3 * (nt as int) <= 3 * (ns as int) * (
                nt as int)) by (nonlinear_arith)
                    requires
                        0 <= s < ns,
                        three_nt == 3 * nt,
                        0 <= nt,
                ;
            }
            let xbase: usize = s * three_nt;
            let ghost xb = xbase as int;
            // the theater with the largest mass for each placement pattern
            let mut t_whole: usize = 0;
            let mut m_whole: u64 = values[xbase];
            let mut t_h0: usize = 0;
            let mut m_h0: u64 = values[xbase + 1];
            let mut t_h1: usize = 0;
            let mut m_h1: u64 = values[xbase + 2];
            let mut t: usize = 1;
            while t < nt
                invariant
                    1 <= t <= nt,
                    nt <= 10_000,
                    three_nt == 3 * nt,
                    s < ns,
                    nv == values@.len(),
                    nv == 3 * ns * nt + nt,
                    xbase == s * three_nt,
                    xbase + 3 * nt <= 3 * ns * nt,
                    xb == xbase as int,
                    t_whole < nt,
                    t_h0 < nt,
                    t_h1 < nt,
                    t_whole as int == best_theater(values@, xb, 0, t as int),
                    m_whole == values@[xb + 3 * (t_whole as int)],
                    t_h0 as int == best_theater(values@, xb, 1, t as int),
                    m_h0 == values@[xb + 3 * (t_h0 as int) + 1],
                    t_h1 as int == best_theater(values@, xb, 2, t as int),
                    m_h1 == values@[xb + 3 * (t_h1 as int) + 2],
                decreases nt - t,
            {
                if values[xbase + 3 * t] > m_whole {
                    t_whole = t;
                    m_whole = values[xbase + 3 * t];
                }
                if values[xbase + 3 * t + 1] > m_h0 {
                    t_h0 = t;
                    m_h0 = values[xbase + 3 * t + 1];
                }
                if values[xbase + 3 * t + 2] > m_h1 {
                    t_h1 = t;
                    m_h1 = values[xbase + 3 * t + 2];
                }
                t = t + 1;
            }
            let choice = if m_whole >= m_h0 {
                TheaterChoice::Whole(t_whole)
            } else {
                TheaterChoice::Split(t_h0, t_h1)
            };
            proof {
                assert(xb == xvar(nt as int, s as int, 0, 0)) by (nonlinear_arith)
                    requires
                        xb == xbase as int,
                        xbase == s * (three_nt as int),
                        three_nt == 3 * nt,
                ;
                assert(choice == surgeon_choice(values@, nt as int, s as int));
            }
            // place the surgeon's day list per the chosen pattern
            let row_len = self.patients_per_day_per_surgeon[s][day].len();
            let loc: usize = row_len / 2;
            proof {
                assert(rows[s as int] == self.patients_per_day_per_surgeon@[s as int]@[
                    day as int]@);
            }
            proof {
                assert forall|p: usize|
                    #[trigger] total_count(day_views(theaters@), p) == total_count(
                        rows.take(s as int),
                        p,
                    ) + count_of(rows[s as int].take(0), p) by {
                    assert(rows[s as int].take(0) =~= Seq::<usize>::empty());
                    crate::model::lemma_count_empty(rows[s as int].take(0), p);
                }
                assert forall|t2: int|
                    0 <= t2 < nt implies dur_sum(
                    instance.patients@,
                    #[trigger] day_views(theaters@)[t2],
                ) == choice_load(instance.patients@, rows, values@, nt as int, t2, s as int)
                    + partial_contrib(
                    instance.patients@,
                    rows[s as int],
                    choice,
                    0,
                    t2,
                ) by {
                    assert(rows[s as int].take(0) =~= Seq::<usize>::empty());
                    assert(dur_sum(instance.patients@, Seq::<usize>::empty()) == 0);
                }
            }
            let mut j: usize = 0;
            while j < row_len
                invariant
                    self.wf(*instance),
                    day < instance.days,
                    s < ns,
                    nt == instance.theaters@.len(),
                    ns == instance.surgeons@.len(),
                    rows == day_lists_of(*self, *instance, day as int),
                    rows.len() == ns,
                    rows[s as int] == self.patients_per_day_per_surgeon@[s as int]@[day as int]@,
                    row_len == rows[s as int].len(),
                    loc == row_len / 2,
                    0 <= j <= row_len,
                    theaters@.len() == nt,
                    (match choice {
                        TheaterChoice::Whole(tw) => tw < nt,
                        TheaterChoice::Split(ta, tb) => ta < nt && tb < nt,
                    }),
                    forall|p: usize|
                        #[trigger] total_count(day_views(theaters@), p) == total_count(
                            rows.take(s as int),
                            p,
                        ) + count_of(rows[s as int].take(j as int), p),
                    total_len(day_views(theaters@)) == total_len(rows.take(s as int)) + j,
                    forall|t2: int, j2: int|
                        0 <= t2 < nt && 0 <= j2 < day_views(theaters@)[t2].len() ==> (
                        #[trigger] day_views(theaters@)[t2][j2]) < instance.patients@.len(),
                    forall|s2: int, j2: int|
                        #![trigger rows[s2][j2]]
                        0 <= s2 < s && 0 <= j2 < rows[s2].len() ==> count_of(
                            day_views(theaters@)[choice_target(
                                choices@[s2],
                                j2,
                                rows[s2].len() as int / 2,
                            )],
                            rows[s2][j2],
                        ) >= 1,
                    forall|j2: int|
                        0 <= j2 < j ==> count_of(
                            day_views(theaters@)[choice_target(choice, j2, loc as int)],
                            #[trigger] rows[s as int][j2],
                        ) >= 1,
                    choices@.len() == s,
                    forall|s2: int|
                        0 <= s2 < s ==> match #[trigger] choices@[s2] {
                            TheaterChoice::Whole(tx) => tx < nt,
                            TheaterChoice::Split(ta, tb) => ta < nt && tb < nt,
                        },
                    forall|s2: int|
                        0 <= s2 < s ==> #[trigger] choices@[s2] == surgeon_choice(
                            values@,
                            nt as int,
                            s2,
                        ),
                    choice == surgeon_choice(values@, nt as int, s as int),
                    forall|t2: int|
                        0 <= t2 < nt ==> dur_sum(
                            instance.patients@,
                            #[trigger] day_views(theaters@)[t2],
                        ) == choice_load(
                            instance.patients@,
                            rows,
                            values@,
                            nt as int,
                            t2,
                            s as int,
                        ) + partial_contrib(
                            instance.patients@,
                            rows[s as int],
                            choice,
                            j as int,
                            t2,
                        ),
                decreases row_len - j,
            {
                let i = self.patients_per_day_per_surgeon[s][day][j];
                let target = match choice {
                    TheaterChoice::Whole(tw) => tw,
                    TheaterChoice::Split(ta, tb) => if j < loc {
                        ta
                    } else {
                        tb
                    },
                };
                let ghost before = day_views(theaters@);
                proof {
                    assert(target as int == choice_target(choice, j as int, loc as int));
                    assert(day_views(
                        self.patients_per_day_per_surgeon@[s as int]@,
                    )[day as int][j as int] == i);
                    assert(i < instance.patients@.len());
                }
                crate::rounding::slot_push(&mut theaters, target, i);
                proof {
                    assert forall|t2: int, j2: int|
                        0 <= t2 < nt && 0 <= j2 < day_views(theaters@)[t2].len() implies (
                    #[trigger] day_views(theaters@)[t2][j2]) < instance.patients@.len() by {
                        if t2 == target as int {
                            if j2 < before[t2].len() {
                                assert(day_views(theaters@)[t2][j2] == before[t2][j2]);
                            } else {
                                assert(day_views(theaters@)[t2][j2] == i);
                            }
                        } else {
                            assert(day_views(theaters@)[t2] == before[t2]);
                        }
                    }
                    assert forall|p: usize|
                        #[trigger] total_count(day_views(theaters@), p) == total_count(
                            rows.take(s as int),
                            p,
                        ) + count_of(rows[s as int].take(j as int + 1), p) by {
                        crate::model::lemma_total_count_update(
                            before,
                            target as int,
                            before[target as int].push(i),
                            p,
                        );
                        lemma_count_push(before[target as int], i, p);
                        assert(rows[s as int].take(j as int + 1) =~= rows[s as int].take(
                            j as int,
                        ).push(i));
                        lemma_count_push(rows[s as int].take(j as int), i, p);
                    }
                    crate::model::lemma_total_len_update(
                        before,
                        target as int,
                        before[target as int].push(i),
                    );
                    assert forall|s2: int, j2: int|
                        #![trigger rows[s2][j2]]
                        0 <= s2 < s && 0 <= j2 < rows[s2].len() implies count_of(
                        day_views(theaters@)[choice_target(
                            choices@[s2],
                            j2,
                            rows[s2].len() as int / 2,
                        )],
                        rows[s2][j2],
                    ) >= 1 by {
                        let tgt = choice_target(choices@[s2], j2, rows[s2].len() as int / 2);
                        if tgt == target as int {
                            lemma_count_push(before[target as int], i, rows[s2][j2]);
                        }
                    }
                    assert forall|j2: int|
                        0 <= j2 < j + 1 implies count_of(
                        day_views(theaters@)[choice_target(choice, j2, loc as int)],
                        #[trigger] rows[s as int][j2],
                    ) >= 1 by {
                        let tgt = choice_target(choice, j2, loc as int);
                        if j2 < j {
                            if tgt == target as int {
                                lemma_count_push(before[target as int], i, rows[s as int][j2]);
                            }
                        } else {
                            lemma_count_push(before[target as int], i, i);
                            crate::model::lemma_count_of(before[target as int], i);
                        }
                    }
                    assert forall|t2: int|
                        0 <= t2 < nt implies dur_sum(
                        instance.patients@,
                        #[trigger] day_views(theaters@)[t2],
                    ) == choice_load(instance.patients@, rows, values@, nt as int, t2, s as int)
                        + partial_contrib(
                        instance.patients@,
                        rows[s as int],
                        choice,
                        j as int + 1,
                        t2,
                    ) by {
                        let row = rows[s as int];
                        if t2 == target as int {
                            lemma_dur_sum_push(instance.patients@, before[t2], i);
                        } else {
                            assert(day_views(theaters@)[t2] == before[t2]);
                        }
                        match choice {
                            TheaterChoice::Whole(_) => {
                                assert(row.take(j as int + 1) =~= row.take(j as int).push(i));
                                lemma_dur_sum_push(instance.patients@, row.take(j as int), i);
                            },
                            TheaterChoice::Split(_, _) => {
                                if j < loc {
                                    assert(row.take(j as int + 1) =~= row.take(j as int).push(i));
                                    lemma_dur_sum_push(instance.patients@, row.take(j as int), i);
                                } else {
                                    assert(row.subrange(loc as int, j as int + 1) =~= row.subrange(
                                        loc as int,
                                        j as int,
                                    ).push(i));
                                    lemma_dur_sum_push(
                                        instance.patients@,
                                        row.subrange(loc as int, j as int),
                                        i,
                                    );
                                    if j == loc {
                                        assert(row.subrange(loc as int, loc as int) =~= Seq::<
                                            usize,
                                        >::empty());
                                        assert(dur_sum(
                                            instance.patients@,
                                            Seq::<usize>::empty(),
                                        ) == 0);
                                        assert(row.take(loc as int) == row.take(j as int));
                                    }
                                }
                            },
                        }
                    }
                }
                j = j + 1;
            }
            choices.push(choice);
            proof {
                assert(rows.take(s as int + 1) =~= rows.take(s as int).push(rows[s as int]));
                assert forall|p: usize|
                    #[trigger] total_count(day_views(theaters@), p) == total_count(
                        rows.take(s as int + 1),
                        p,
                    ) by {
                    lemma_total_count_push_row(rows.take(s as int), rows[s as int], p);
                    assert(rows[s as int].take(row_len as int) =~= rows[s as int]);
                }
                lemma_total_len_push_row(rows.take(s as int), rows[s as int]);
                assert forall|t2: int|
                    0 <= t2 < nt implies partial_contrib(
                    instance.patients@,
                    rows[s as int],
                    choice,
                    row_len as int,
                    t2,
                ) == choice_contrib(instance.patients@, rows[s as int], choice, t2) by {
                    let row = rows[s as int];
                    match choice {
                        TheaterChoice::Whole(_) => {
                            assert(row.take(row_len as int) =~= row);
                        },
                        TheaterChoice::Split(_, _) => {
                            if row_len == 0 {
                                assert(row.take(0) =~= Seq::<usize>::empty());
                                assert(row.skip(0) =~= Seq::<usize>::empty());
                                assert(dur_sum(instance.patients@, Seq::<usize>::empty()) == 0);
                            } else {
                                assert(row.subrange(loc as int, row_len as int) =~= row.skip(
                                    loc as int,
                                ));
                            }
                        },
                    }
                }
                assert forall|t2: int|
                    0 <= t2 < nt implies dur_sum(
                    instance.patients@,
                    #[trigger] day_views(theaters@)[t2],
                ) == choice_load(
                    instance.patients@,
                    rows,
                    values@,
                    nt as int,
                    t2,
                    s as int + 1,
                ) by {}
            }
            s = s + 1;
        }
        proof {
            assert(rows.take(ns as int) =~= rows);
        }
        // verify each theater against its availability
        let mut tv: usize = 0;
        while tv < nt
            invariant
                self.wf(*instance),
                instance_valid(*instance),
                day < instance.days,
                nt == instance.theaters@.len(),
                ns == instance.surgeons@.len(),
                rows == day_lists_of(*self, *instance, day as int),
                0 <= tv <= nt,
                theaters@.len() == nt,
                total_len(day_views(theaters@)) <= 0x1000_0000_0000,
                forall|t2: int, j2: int|
                    0 <= t2 < nt && 0 <= j2 < day_views(theaters@)[t2].len() ==> (
                    #[trigger] day_views(theaters@)[t2][j2]) < instance.patients@.len(),
                forall|t2: int|
                    0 <= t2 < nt ==> dur_sum(
                        instance.patients@,
                        #[trigger] day_views(theaters@)[t2],
                    ) == choice_load(instance.patients@, rows, values@, nt as int, t2, ns as int),
                forall|t2: int|
                    0 <= t2 < tv ==> dur_sum(
                        instance.patients@,
                        #[trigger] day_views(theaters@)[t2],
                    ) <= instance.theaters@[t2].availability@[day as int],
            decreases nt - tv,
        {
            proof {
                crate::model::lemma_total_len_component(day_views(theaters@), tv as int);
                assert(day_views(theaters@)[tv as int] == theaters@[tv as int]@);
            }
            let sum = crate::dynamic::day_duration_sum(&instance.patients, &theaters[tv]);
            if sum > instance.theaters[tv].availability[day] as u64 {
                proof {
                    assert(choice_load(
                        instance.patients@,
                        rows,
                        values@,
                        nt as int,
                        tv as int,
                        ns as int,
                    ) > instance.theaters@[tv as int].availability@[day as int]);
                }
                return Err(ScheduleError::RoundingInfeasible(day));
            }
            tv = tv + 1;
        }
        Ok((theaters, choices))
    }
}

/// An all-empty collection of lists has no length.
proof fn lemma_total_len_empty(lists: Seq<Seq<usize>>)
    requires
        forall|d: int| 0 <= d < lists.len() ==> (#[trigger] lists[d]).len() == 0,
    ensures
        total_len(lists) == 0,
    decreases lists.len(),
{
    if lists.len() > 0 {
        assert(forall|d: int|
            0 <= d < lists.drop_first().len() ==> #[trigger] lists.drop_first()[d] == lists[d + 1]);
        lemma_total_len_empty(lists.drop_first());
    }
}


/// The views of a collection of item lists.
pub open spec fn pviews(v: Seq<Vec<(usize, u16)>>) -> Seq<Seq<(usize, u16)>> {
    v.map_values(|l: Vec<(usize, u16)>| l@)
}

/// The summed duration of a list of (id, duration) items.
pub open spec fn psum(l: Seq<(usize, u16)>) -> int
    decreases l.len(),
{
    if l.len() == 0 {
        0
    } else {
        l[0].1 + psum(l.drop_first())
    }
}

/// How often an item occurs in a list.
pub open spec fn pcount(l: Seq<(usize, u16)>, x: (usize, u16)) -> int {
    l.to_multiset().count(x) as int
}

/// How often an item occurs over all lists.
pub open spec fn ptotal(lists: Seq<Seq<(usize, u16)>>, x: (usize, u16)) -> int
    decreases lists.len(),
{
    if lists.len() == 0 {
        0
    } else {
        pcount(lists[0], x) + ptotal(lists.drop_first(), x)
    }
}

/// Item sums are sums of non-negative durations.
proof fn lemma_psum_nonneg(l: Seq<(usize, u16)>)
    ensures
        psum(l) >= 0,
    decreases l.len(),
{
    if l.len() > 0 {
        lemma_psum_nonneg(l.drop_first());
    }
}

/// Appending an item adds its duration to the sum.
proof fn lemma_psum_push(l: Seq<(usize, u16)>, x: (usize, u16))
    ensures
        psum(l.push(x)) == psum(l) + x.1,
    decreases l.len(),
{
    if l.len() == 0 {
        assert(l.push(x).drop_first() =~= Seq::<(usize, u16)>::empty());
        assert(psum(Seq::<(usize, u16)>::empty()) == 0);
    } else {
        assert(l.push(x).drop_first() =~= l.drop_first().push(x));
        lemma_psum_push(l.drop_first(), x);
    }
}

/// An empty list counts nothing.
proof fn lemma_pcount_empty(l: Seq<(usize, u16)>, x: (usize, u16))
    requires
        l.len() == 0,
    ensures
        pcount(l, x) == 0,
{
    vstd::seq_lib::to_multiset_contains(l, x);
}

/// Appending changes the count of exactly the appended item.
proof fn lemma_pcount_push(l: Seq<(usize, u16)>, y: (usize, u16), x: (usize, u16))
    ensures
        pcount(l.push(y), x) == pcount(l, x) + if y == x {
            1int
        } else {
            0int
        },
{
    vstd::seq_lib::to_multiset_build(l, y);
}

/// Replacing one list shifts the total count by that list's difference.
proof fn lemma_ptotal_update(lists: Seq<Seq<(usize, u16)>>, d: int, l: Seq<(usize, u16)>, x: (usize, u16))
    requires
        0 <= d < lists.len(),
    ensures
        ptotal(lists.update(d, l), x) == ptotal(lists, x) - pcount(lists[d], x) + pcount(l, x),
    decreases lists.len(),
{
    if d == 0 {
        assert(lists.update(0, l).drop_first() =~= lists.drop_first());
    } else {
        assert(lists.update(d, l).drop_first() =~= lists.drop_first().update(d - 1, l));
        assert(lists.update(d, l)[0] =~= lists[0]);
        lemma_ptotal_update(lists.drop_first(), d - 1, l, x);
    }
}

/// All-empty lists count nothing.
proof fn lemma_ptotal_empty(lists: Seq<Seq<(usize, u16)>>, x: (usize, u16))
    requires
        forall|d: int| 0 <= d < lists.len() ==> (#[trigger] lists[d]).len() == 0,
    ensures
        ptotal(lists, x) == 0,
    decreases lists.len(),
{
    if lists.len() > 0 {
        lemma_pcount_empty(lists[0], x);
        assert(forall|d: int|
            0 <= d < lists.drop_first().len() ==> #[trigger] lists.drop_first()[d] == lists[d + 1]);
        lemma_ptotal_empty(lists.drop_first(), x);
    }
}

/// The summed duration over all bins.
pub open spec fn ptotal_sum(lists: Seq<Seq<(usize, u16)>>) -> int
    decreases lists.len(),
{
    if lists.len() == 0 {
        0
    } else {
        psum(lists[0]) + ptotal_sum(lists.drop_first())
    }
}

/// Replacing one bin shifts the summed duration by that bin's difference.
proof fn lemma_ptotal_sum_update(lists: Seq<Seq<(usize, u16)>>, d: int, l: Seq<(usize, u16)>)
    requires
        0 <= d < lists.len(),
    ensures
        ptotal_sum(lists.update(d, l)) == ptotal_sum(lists) - psum(lists[d]) + psum(l),
    decreases lists.len(),
{
    if d == 0 {
        assert(lists.update(0, l).drop_first() =~= lists.drop_first());
    } else {
        assert(lists.update(d, l).drop_first() =~= lists.drop_first().update(d - 1, l));
        assert(lists.update(d, l)[0] =~= lists[0]);
        lemma_ptotal_sum_update(lists.drop_first(), d - 1, l);
    }
}

/// All-empty bins hold no duration.
proof fn lemma_ptotal_sum_empty(lists: Seq<Seq<(usize, u16)>>)
    requires
        forall|d: int| 0 <= d < lists.len() ==> (#[trigger] lists[d]).len() == 0,
    ensures
        ptotal_sum(lists) == 0,
    decreases lists.len(),
{
    if lists.len() > 0 {
        assert(forall|d: int|
            0 <= d < lists.drop_first().len() ==> #[trigger] lists.drop_first()[d] == lists[d + 1]);
        lemma_ptotal_sum_empty(lists.drop_first());
    }
}

/// No single bin holds more than all bins together.
proof fn lemma_ptotal_sum_component(lists: Seq<Seq<(usize, u16)>>, d: int)
    requires
        0 <= d < lists.len(),
    ensures
        psum(lists[d]) <= ptotal_sum(lists),
        ptotal_sum(lists) >= 0,
    decreases lists.len(),
{
    lemma_psum_nonneg(lists[0]);
    if d == 0 {
        lemma_ptotal_sum_nonneg(lists.drop_first());
    } else {
        lemma_ptotal_sum_component(lists.drop_first(), d - 1);
        assert(lists.drop_first()[d - 1] == lists[d]);
    }
}

/// Summed durations never go negative.
proof fn lemma_ptotal_sum_nonneg(lists: Seq<Seq<(usize, u16)>>)
    ensures
        ptotal_sum(lists) >= 0,
    decreases lists.len(),
{
    if lists.len() > 0 {
        lemma_psum_nonneg(lists[0]);
        lemma_ptotal_sum_nonneg(lists.drop_first());
    }
}

/// Item sums distribute over concatenation.
proof fn lemma_psum_add(a: Seq<(usize, u16)>, b: Seq<(usize, u16)>)
    ensures
        psum(a + b) == psum(a) + psum(b),
    decreases a.len(),
{
    if a.len() == 0 {
        assert(a + b =~= b);
    } else {
        assert((a + b).drop_first() =~= a.drop_first() + b);
        lemma_psum_add(a.drop_first(), b);
    }
}

/// Item sums split at any position.
proof fn lemma_psum_split(l: Seq<(usize, u16)>, k: int)
    requires
        0 <= k <= l.len(),
    ensures
        psum(l) == psum(l.take(k)) + psum(l.skip(k)),
{
    assert(l =~= l.take(k) + l.skip(k));
    lemma_psum_add(l.take(k), l.skip(k));
}

/// Item lists with the same contents have the same summed duration.
proof fn lemma_psum_permutation(a: Seq<(usize, u16)>, b: Seq<(usize, u16)>)
    requires
        a.to_multiset() == b.to_multiset(),
    ensures
        psum(a) == psum(b),
    decreases a.len(),
{
    vstd::seq_lib::to_multiset_len(a);
    vstd::seq_lib::to_multiset_len(b);
    if a.len() > 0 {
        let x = a[0];
        assert(a.contains(x));
        vstd::seq_lib::to_multiset_contains(a, x);
        vstd::seq_lib::to_multiset_contains(b, x);
        assert(b.contains(x));
        let idx = choose|idx: int| 0 <= idx < b.len() && b[idx] == x;
        lemma_psum_remove(b, idx);
        vstd::seq_lib::to_multiset_remove(b, idx);
        vstd::seq_lib::to_multiset_remove(a, 0);
        assert(a.remove(0) =~= a.drop_first());
        lemma_psum_permutation(a.drop_first(), b.remove(idx));
        lemma_psum_remove(a, 0);
    } else {
        assert(b.len() == 0);
    }
}

/// Removing an item subtracts its duration from the sum.
proof fn lemma_psum_remove(l: Seq<(usize, u16)>, i: int)
    requires
        0 <= i < l.len(),
    ensures
        psum(l.remove(i)) == psum(l) - l[i].1,
    decreases l.len(),
{
    if i == 0 {
        assert(l.remove(0) =~= l.drop_first());
    } else {
        assert(l.remove(i).drop_first() =~= l.drop_first().remove(i - 1));
        lemma_psum_remove(l.drop_first(), i - 1);
    }
}

/// Exchanging two positions keeps a list's contents.
proof fn lemma_swap_multiset(s: Seq<usize>, i: int, j: int)
    requires
        0 <= i < j < s.len(),
    ensures
        s.update(i, s[j]).update(j, s[i]).to_multiset() == s.to_multiset(),
{
    broadcast use vstd::multiset::group_multiset_axioms;

    let s1 = s.update(i, s[j]);
    let s2 = s1.update(j, s[i]);
    assert(s1 =~= s.remove(i).insert(i, s[j]));
    vstd::seq_lib::to_multiset_remove(s, i);
    vstd::seq_lib::to_multiset_insert(s.remove(i), i, s[j]);
    assert(s1[j] == s[j]);
    assert(s2 =~= s1.remove(j).insert(j, s[i]));
    vstd::seq_lib::to_multiset_remove(s1, j);
    vstd::seq_lib::to_multiset_insert(s1.remove(j), j, s[i]);
    assert(s.contains(s[i]));
    vstd::seq_lib::to_multiset_contains(s, s[i]);
    assert(s1.to_multiset().contains(s[j]));
    assert(s2.to_multiset() =~= s.to_multiset());
}

/// Items ordered by falling duration.
pub open spec fn items_sorted(l: Seq<(usize, u16)>) -> bool {
    forall|i: int, j: int| 0 <= i < j < l.len() ==> (#[trigger] l[i]).1 >= (#[trigger] l[j]).1
}

/// Sorts items by falling duration, keeping their contents.
fn sort_items_desc(items: &Vec<(usize, u16)>) -> (r: Vec<(usize, u16)>)
    ensures
        r@.len() == items@.len(),
        r@.to_multiset() == items@.to_multiset(),
        items_sorted(r@),
{
    let n = items.len();
    let mut r: Vec<(usize, u16)> = Vec::new();
    proof {
        assert(r@ =~= items@.take(0));
        vstd::seq_lib::to_multiset_contains(items@.take(0), (0usize, 0u16));
    }
    let mut i: usize = 0;
    while i < n
        invariant
            0 <= i <= n,
            n == items@.len(),
            r@.len() == i,
            r@.to_multiset() == items@.take(i as int).to_multiset(),
            items_sorted(r@),
        decreases n - i,
    {
        let x = items[i];
        // the first position whose item is strictly shorter
        let mut k: usize = 0;
        while k < r.len() && r[k].1 >= x.1
            invariant
                0 <= k <= r@.len(),
                forall|q: int| 0 <= q < k ==> (#[trigger] r@[q]).1 >= x.1,
            decreases r@.len() - k,
        {
            k = k + 1;
        }
        let ghost before = r@;
        r.insert(k, x);
        proof {
            vstd::seq_lib::to_multiset_insert(before, k as int, x);
            vstd::seq_lib::to_multiset_build(items@.take(i as int), items@[i as int]);
            assert(items@.take(i as int + 1) =~= items@.take(i as int).push(items@[i as int]));
            before.insert_ensures(k as int, x);
            assert(r@.len() == before.len() + 1);
            assert forall|q: int| (k as int) < q < r@.len() implies #[trigger] r@[q] == before[q
                - 1] by {
                assert(r@[(q - 1) + 1] == before[q - 1]);
            }
            assert forall|p: int, q: int| 0 <= p < q < r@.len() implies (#[trigger] r@[p]).1 >= (
            #[trigger] r@[q]).1 by {
                if q < k {
                } else if q == k as int {
                    assert(r@[p] == before[p]);
                    assert(r@[q] == x);
                } else if p == k as int {
                    assert(r@[q] == before[q - 1]);
                    if k < before.len() {
                        assert(!(before[k as int].1 >= x.1));
                    }
                } else if p < k {
                    assert(r@[p] == before[p]);
                    assert(r@[q] == before[q - 1]);
                } else {
                    assert(r@[p] == before[p - 1]);
                    assert(r@[q] == before[q - 1]);
                }
            }
        }
        i = i + 1;
    }
    proof {
        assert(items@.take(n as int) =~= items@);
    }
    r
}

/// Writes one remaining-capacity slot.
fn pset_u64(v: &mut Vec<u64>, i: usize, x: u64)
    requires
        i < old(v)@.len(),
    ensures
        final(v)@ == old(v)@.update(i as int, x),
{
    let slot = &mut v[i];
    *slot = x;
    proof {
        assert(v@ =~= old(v)@.update(i as int, x));
    }
}

/// Appends an item to one bin's list, leaving the other bins untouched.
fn pbin_push(lists: &mut Vec<Vec<(usize, u16)>>, b: usize, x: (usize, u16))
    requires
        b < old(lists)@.len(),
    ensures
        final(lists)@.len() == old(lists)@.len(),
        pviews(final(lists)@) == pviews(old(lists)@).update(
            b as int,
            old(lists)@[b as int]@.push(x),
        ),
{
    let ghost old_l = lists@;
    let slot = &mut lists[b];
    slot.push(x);
    proof {
        assert(pviews(lists@) =~= pviews(old_l).update(b as int, old_l[b as int]@.push(x)));
    }
}

/// Packs items into bins greedily: both are taken by falling duration and
/// capacity, and each item goes to the first roomy-enough bin of that order.
/// Returns for each bin (in the callers' given bin order) the items placed
/// into it, or nothing when some item fits no bin.
pub fn biggest_in_biggest_bin_pack(
    items: &Vec<(usize, u16)>,
    bins: &Vec<(usize, u16)>,
) -> (r: Option<Vec<Vec<(usize, u16)>>>)
    requires
        forall|k: int| 0 <= k < bins@.len() ==> (#[trigger] bins@[k]).0 == k,
        items@.len() <= 0x1000_0000_0000,
    ensures
        r matches Some(out) ==> {
            &&& out@.len() == bins@.len()
            &&& forall|b: int|
                0 <= b < bins@.len() ==> psum(#[trigger] pviews(out@)[b]) <= bins@[b].1
            &&& forall|x: (usize, u16)|
                #[trigger] ptotal(pviews(out@), x) == pcount(items@, x)
        },
        r is None ==> forall|b: int| 0 <= b < bins@.len() ==> psum(items@) > (#[trigger] bins@[b]).1,
{
    let nb = bins.len();
    let ghost identity = Seq::new(bins@.len() as nat, |q: int| q as usize);
    let sorted = sort_items_desc(items);
    // bin indices by falling capacity
    let mut order: Vec<usize> = Vec::new();
    let mut b0: usize = 0;
    while b0 < nb
        invariant
            0 <= b0 <= nb,
            order@.len() == b0,
            forall|q: int| 0 <= q < b0 ==> (#[trigger] order@[q]) == q,
        decreases nb - b0,
    {
        order.push(b0);
        b0 = b0 + 1;
    }
    proof {
        assert(order@ =~= identity);
    }
    let mut oi: usize = 1;
    while oi < nb && nb > 0
        invariant
            1 <= oi,
            nb == bins@.len(),
            identity == Seq::new(bins@.len() as nat, |q: int| q as usize),
            order@.len() == nb,
            forall|q: int| 0 <= q < nb ==> (#[trigger] order@[q]) < nb,
            order@.to_multiset() == identity.to_multiset(),
        decreases nb - oi,
    {
        // keep the order sorted by falling capacity, by one insertion step
        let mut k: usize = oi;
        while k > 0 && bins[order[k - 1]].1 < bins[order[k]].1
            invariant
                0 <= k <= oi < nb,
                nb == bins@.len(),
                order@.len() == nb,
                forall|q: int| 0 <= q < nb ==> (#[trigger] order@[q]) < nb,
                order@.to_multiset() == identity.to_multiset(),
            decreases k,
        {
            let a = order[k - 1];
            let b = order[k];
            let ghost before = order@;
            pset_usize(&mut order, k - 1, b);
            pset_usize(&mut order, k, a);
            proof {
                assert forall|q: int| 0 <= q < nb implies (#[trigger] order@[q]) < nb by {}
                lemma_swap_multiset(before, k as int - 1, k as int);
            }
            k = k - 1;
        }
        oi = oi + 1;
    }
    // remaining capacity per bin and the per-bin results
    let mut remaining: Vec<u64> = Vec::new();
    let mut rb: usize = 0;
    while rb < nb
        invariant
            0 <= rb <= nb,
            nb == bins@.len(),
            remaining@.len() == rb,
            forall|q: int| 0 <= q < rb ==> (#[trigger] remaining@[q]) == bins@[q].1,
        decreases nb - rb,
    {
        remaining.push(bins[rb].1 as u64);
        rb = rb + 1;
    }
    let mut out: Vec<Vec<(usize, u16)>> = Vec::new();
    let mut ob: usize = 0;
    while ob < nb
        invariant
            0 <= ob <= nb,
            out@.len() == ob,
            forall|q: int| 0 <= q < ob ==> (#[trigger] out@[q])@.len() == 0,
        decreases nb - ob,
    {
        out.push(Vec::new());
        ob = ob + 1;
    }
    proof {
        assert forall|x: (usize, u16)|
            #[trigger] ptotal(pviews(out@), x) == pcount(sorted@.take(0), x) by {
            lemma_ptotal_empty(pviews(out@), x);
            assert(sorted@.take(0) =~= Seq::<(usize, u16)>::empty());
            lemma_pcount_empty(sorted@.take(0), x);
        }
    }
    proof {
        lemma_ptotal_sum_empty(pviews(out@));
        assert(sorted@.take(0) =~= Seq::<(usize, u16)>::empty());
    }
    let ni = sorted.len();
    let mut it: usize = 0;
    while it < ni
        invariant
            0 <= it <= ni,
            ni == sorted@.len(),
            ni <= 0x1000_0000_0000,
            nb == bins@.len(),
            identity == Seq::new(bins@.len() as nat, |q: int| q as usize),
            sorted@.to_multiset() == items@.to_multiset(),
            order@.len() == nb,
            forall|q: int| 0 <= q < nb ==> (#[trigger] order@[q]) < nb,
            order@.to_multiset() == identity.to_multiset(),
            remaining@.len() == nb,
            out@.len() == nb,
            forall|b: int|
                0 <= b < nb ==> psum(#[trigger] pviews(out@)[b]) + remaining@[b] == bins@[b].1,
            forall|x: (usize, u16)|
                #[trigger] ptotal(pviews(out@), x) == pcount(sorted@.take(it as int), x),
            ptotal_sum(pviews(out@)) == psum(sorted@.take(it as int)),
            forall|b: int, j: int|
                0 <= b < nb && 0 <= j < pviews(out@)[b].len() ==> (#[trigger] pviews(
                    out@,
                )[b][j]).1 <= 65535,
        decreases ni - it,
    {
        let x = sorted[it];
        let mut placed = false;
        let mut kk: usize = 0;
        while kk < nb && !placed
            invariant
                0 <= kk <= nb,
                nb == bins@.len(),
                order@.len() == nb,
                forall|q: int| 0 <= q < nb ==> (#[trigger] order@[q]) < nb,
                remaining@.len() == nb,
                out@.len() == nb,
                it < ni,
                ni == sorted@.len(),
                x == sorted@[it as int],
                forall|b: int|
                    0 <= b < nb ==> psum(#[trigger] pviews(out@)[b]) + remaining@[b]
                        == bins@[b].1,
                placed ==> (forall|xx: (usize, u16)|
                    #[trigger] ptotal(pviews(out@), xx) == pcount(
                        sorted@.take(it as int + 1),
                        xx,
                    )),
                !placed ==> (forall|xx: (usize, u16)|
                    #[trigger] ptotal(pviews(out@), xx) == pcount(sorted@.take(it as int), xx)),
                placed ==> ptotal_sum(pviews(out@)) == psum(sorted@.take(it as int + 1)),
                !placed ==> ptotal_sum(pviews(out@)) == psum(sorted@.take(it as int)),
                !placed ==> (forall|q: int|
                    0 <= q < kk ==> (x.1 as int) > remaining@[(#[trigger] order@[q]) as int]),
                forall|b: int, j: int|
                    0 <= b < nb && 0 <= j < pviews(out@)[b].len() ==> (#[trigger] pviews(
                        out@,
                    )[b][j]).1 <= 65535,
            decreases nb - kk, (if placed { 0int } else { 1int }),
        {
            let b = order[kk];
            let rem = remaining[b];
            if x.1 as u64 <= rem {
                let ghost before = pviews(out@);
                pbin_push(&mut out, b, x);
                pset_u64(&mut remaining, b, rem - x.1 as u64);
                proof {
                    lemma_psum_push(before[b as int], x);
                    lemma_ptotal_sum_update(before, b as int, before[b as int].push(x));
                    assert(sorted@.take(it as int + 1) =~= sorted@.take(it as int).push(x));
                    lemma_psum_push(sorted@.take(it as int), x);
                    assert forall|b2: int|
                        0 <= b2 < nb implies psum(#[trigger] pviews(out@)[b2]) + remaining@[b2]
                        == bins@[b2].1 by {
                        if b2 != b as int {
                            assert(pviews(out@)[b2] == before[b2]);
                        }
                    }
                    assert forall|xx: (usize, u16)|
                        #[trigger] ptotal(pviews(out@), xx) == pcount(
                            sorted@.take(it as int + 1),
                            xx,
                        ) by {
                        lemma_ptotal_update(before, b as int, before[b as int].push(x), xx);
                        lemma_pcount_push(before[b as int], x, xx);
                        assert(sorted@.take(it as int + 1) =~= sorted@.take(it as int).push(x));
                        lemma_pcount_push(sorted@.take(it as int), x, xx);
                    }
                    assert forall|b2: int, j: int|
                        0 <= b2 < nb && 0 <= j < pviews(out@)[b2].len() implies (
                    #[trigger] pviews(out@)[b2][j]).1 <= 65535 by {
                        if b2 == b as int {
                            if j < before[b2].len() {
                                assert(pviews(out@)[b2][j] == before[b2][j]);
                            } else {
                                assert(pviews(out@)[b2][j] == x);
                            }
                        } else {
                            assert(pviews(out@)[b2] == before[b2]);
                        }
                    }
                }
                placed = true;
            }
            kk = kk + 1;
        }
        if !placed {
            proof {
                assert forall|b: int|
                    0 <= b < bins@.len() implies psum(items@) > (#[trigger] bins@[b]).1 by {
                    // every bin was tried, so even this one lacked the room
                    assert(identity[b] == b as usize);
                    assert(identity.contains(b as usize));
                    vstd::seq_lib::to_multiset_contains(identity, b as usize);
                    vstd::seq_lib::to_multiset_contains(order@, b as usize);
                    assert(order@.contains(b as usize));
                    let q = choose|q: int| 0 <= q < order@.len() && order@[q] == b as usize;
                    assert((x.1 as int) > remaining@[b]);
                    // yet the whole remaining load, this item first, would
                    // have fit a bin that holds the full demand
                    lemma_ptotal_sum_component(pviews(out@), b);
                    lemma_psum_split(sorted@, it as int);
                    assert(sorted@.skip(it as int)[0] == x);
                    lemma_psum_nonneg(sorted@.skip(it as int).drop_first());
                    assert(psum(sorted@.skip(it as int)) >= x.1);
                    lemma_psum_permutation(items@, sorted@);
                }
            }
            return None;
        }
        it = it + 1;
    }
    proof {
        assert(sorted@.take(ni as int) =~= sorted@);
        assert forall|x: (usize, u16)| #[trigger] ptotal(pviews(out@), x) == pcount(
            items@,
            x,
        ) by {}
        assert forall|b: int|
            0 <= b < nb implies psum(#[trigger] pviews(out@)[b]) <= bins@[b].1 by {}
    }
    Some(out)
}

/// Writes one position of an index list.
fn pset_usize(v: &mut Vec<usize>, i: usize, x: usize)
    requires
        i < old(v)@.len(),
    ensures
        final(v)@ == old(v)@.update(i as int, x),
{
    let slot = &mut v[i];
    *slot = x;
    proof {
        assert(v@ =~= old(v)@.update(i as int, x));
    }
}


/// The per-surgeon day lists of one day, drawn from bare rows.
pub open spec fn day_rows_of(rows: Seq<Vec<Vec<usize>>>, day: int) -> Seq<Seq<usize>> {
    Seq::new(rows.len(), |s: int| rows[s]@[day]@)
}

/// The whole surgery demand of one day, over all surgeons.
pub open spec fn day_demand(patients: Seq<Patient>, rows: Seq<Seq<usize>>) -> int
    decreases rows.len(),
{
    if rows.len() == 0 {
        0
    } else {
        dur_sum(patients, rows[0]) + day_demand(patients, rows.drop_first())
    }
}

/// Appending a surgeon's list adds exactly its surgery time to the demand.
proof fn lemma_day_demand_push_row(patients: Seq<Patient>, rows: Seq<Seq<usize>>, l: Seq<usize>)
    ensures
        day_demand(patients, rows.push(l)) == day_demand(patients, rows) + dur_sum(patients, l),
    decreases rows.len(),
{
    if rows.len() == 0 {
        assert(rows.push(l).drop_first() =~= Seq::<Seq<usize>>::empty());
        assert(rows.push(l)[0] == l);
        assert(day_demand(patients, Seq::<Seq<usize>>::empty()) == 0);
    } else {
        assert(rows.push(l).drop_first() =~= rows.drop_first().push(l));
        assert(rows.push(l)[0] == rows[0]);
        lemma_day_demand_push_row(patients, rows.drop_first(), l);
    }
}

/// Packs one day's patients into the theaters by the greedy fallback:
/// longer surgeries go first, each into the roomiest theater that still
/// takes it.  Each returned item pairs a patient index with its surgery
/// duration; the outer order follows the instance's theaters.
#[allow(non_snake_case)]
pub fn patient_OT_assignment_for_day(
    instance: &Instance,
    patients_per_day_per_surgeon: &Vec<Vec<Vec<usize>>>,
    day: usize,
) -> (r: Result<Vec<Vec<(usize, u16)>>, ScheduleError>)
    requires
        instance_valid(*instance),
        day < instance.days,
        patients_per_day_per_surgeon@.len() == instance.surgeons@.len(),
        forall|s: int|
            0 <= s < instance.surgeons@.len() ==> (#[trigger] patients_per_day_per_surgeon@[s])@.len()
                == instance.days,
        forall|s: int, j: int|
            0 <= s < instance.surgeons@.len() && 0 <= j < day_rows_of(
                patients_per_day_per_surgeon@,
                day as int,
            )[s].len() ==> (#[trigger] day_rows_of(patients_per_day_per_surgeon@, day as int)[s][j])
                < instance.patients@.len(),
        total_len(day_rows_of(patients_per_day_per_surgeon@, day as int)) <= 0x1000_0000_0000,
    ensures
        r matches Ok(out) ==> {
            let rows = day_rows_of(patients_per_day_per_surgeon@, day as int);
            &&& out@.len() == instance.theaters@.len()
            &&& forall|t: int|
                0 <= t < instance.theaters@.len() ==> psum(#[trigger] pviews(out@)[t])
                    <= instance.theaters@[t].availability@[day as int]
            &&& forall|x: (usize, u16)|
                #[trigger] ptotal(pviews(out@), x) == if x.0 < instance.patients@.len() && x.1
                    == instance.patients@[x.0 as int].surgery_duration {
                    total_count(rows, x.0)
                } else {
                    0int
                }
        },
        r matches Err(e) ==> {
            let rows = day_rows_of(patients_per_day_per_surgeon@, day as int);
            &&& e == ScheduleError::RoundingInfeasible(day)
            &&& forall|t: int|
                0 <= t < instance.theaters@.len() ==> day_demand(instance.patients@, rows) > (
                #[trigger] instance.theaters@[t].availability@[day as int])
        },
{
    let ns = instance.surgeons.len();
    let nt = instance.theaters.len();
    let ghost rows = day_rows_of(patients_per_day_per_surgeon@, day as int);
    // every patient fixed to this day, with its surgery duration
    let mut items: Vec<(usize, u16)> = Vec::new();
    let mut s: usize = 0;
    proof {
        assert forall|x: (usize, u16)|
            #[trigger] pcount(items@, x) == ptarget(
                instance.patients@,
                rows,
                0,
                0,
                x,
            ) by {
            lemma_pcount_empty(items@, x);
            assert(rows.take(0) =~= Seq::<Seq<usize>>::empty());
            assert(total_count(rows.take(0), x.0) == 0);
            assert(rows[0].take(0) =~= Seq::<usize>::empty());
            crate::model::lemma_count_empty(rows[0].take(0), x.0);
        }
        assert(psum(items@) == day_demand(instance.patients@, rows.take(0)) + dur_sum(
            instance.patients@,
            rows[0].take(0),
        )) by {
            assert(rows.take(0) =~= Seq::<Seq<usize>>::empty());
            assert(rows[0].take(0) =~= Seq::<usize>::empty());
            assert(dur_sum(instance.patients@, Seq::<usize>::empty()) == 0);
        }
    }
    while s < ns
        invariant
            instance_valid(*instance),
            day < instance.days,
            ns == instance.surgeons@.len(),
            patients_per_day_per_surgeon@.len() == ns,
            rows == day_rows_of(patients_per_day_per_surgeon@, day as int),
            rows.len() == ns,
            forall|s2: int|
                0 <= s2 < ns ==> (#[trigger] patients_per_day_per_surgeon@[s2])@.len()
                    == instance.days,
            forall|s2: int, j2: int|
                0 <= s2 < ns && 0 <= j2 < rows[s2].len() ==> (#[trigger] rows[s2][j2])
                    < instance.patients@.len(),
            total_len(rows) <= 0x1000_0000_0000,
            0 <= s <= ns,
            items@.len() == total_len(rows.take(s as int)),
            forall|x: (usize, u16)|
                #[trigger] pcount(items@, x) == ptarget(instance.patients@, rows, s as int, 0, x),
            psum(items@) == day_demand(instance.patients@, rows.take(s as int)),
        decreases ns - s,
    {
        let rl = patients_per_day_per_surgeon[s][day].len();
        let mut j: usize = 0;
        while j < rl
            invariant
                instance_valid(*instance),
                day < instance.days,
                s < ns,
                ns == instance.surgeons@.len(),
                patients_per_day_per_surgeon@.len() == ns,
                rows == day_rows_of(patients_per_day_per_surgeon@, day as int),
                rows.len() == ns,
                forall|s2: int|
                    0 <= s2 < ns ==> (#[trigger] patients_per_day_per_surgeon@[s2])@.len()
                        == instance.days,
                rows[s as int] == patients_per_day_per_surgeon@[s as int]@[day as int]@,
                rl == rows[s as int].len(),
                forall|s2: int, j2: int|
                    0 <= s2 < ns && 0 <= j2 < rows[s2].len() ==> (#[trigger] rows[s2][j2])
                        < instance.patients@.len(),
                total_len(rows) <= 0x1000_0000_0000,
                0 <= j <= rl,
                items@.len() == total_len(rows.take(s as int)) + j,
                forall|x: (usize, u16)|
                    #[trigger] pcount(items@, x) == ptarget(
                        instance.patients@,
                        rows,
                        s as int,
                        j as int,
                        x,
                    ),
                psum(items@) == day_demand(instance.patients@, rows.take(s as int)) + dur_sum(
                    instance.patients@,
                    rows[s as int].take(j as int),
                ),
            decreases rl - j,
        {
            let i = patients_per_day_per_surgeon[s][day][j];
            let ghost before = items@;
            items.push((i, instance.patients[i].surgery_duration));
            proof {
                assert forall|x: (usize, u16)|
                    #[trigger] pcount(items@, x) == ptarget(
                        instance.patients@,
                        rows,
                        s as int,
                        j as int + 1,
                        x,
                    ) by {
                    lemma_pcount_push(
                        before,
                        (i, instance.patients@[i as int].surgery_duration),
                        x,
                    );
                    assert(rows[s as int].take(j as int + 1) =~= rows[s as int].take(
                        j as int,
                    ).push(i));
                    crate::model::lemma_count_push(rows[s as int].take(j as int), i, x.0);
                }
                crate::model::lemma_total_len_component(rows, s as int);
                lemma_psum_push(before, (i, instance.patients@[i as int].surgery_duration));
                assert(rows[s as int].take(j as int + 1) =~= rows[s as int].take(j as int).push(
                    i,
                ));
                lemma_dur_sum_push(instance.patients@, rows[s as int].take(j as int), i);
            }
            j = j + 1;
        }
        proof {
            assert(rows.take(s as int + 1) =~= rows.take(s as int).push(rows[s as int]));
            lemma_total_len_push_row(rows.take(s as int), rows[s as int]);
            assert forall|x: (usize, u16)|
                #[trigger] pcount(items@, x) == ptarget(
                    instance.patients@,
                    rows,
                    s as int + 1,
                    0,
                    x,
                ) by {
                crate::theater::lemma_total_count_push_row(rows.take(s as int), rows[s as int], x.0);
                assert(rows[s as int].take(rl as int) =~= rows[s as int]);
                crate::model::lemma_count_empty(rows[s as int + 1].take(0), x.0);
                assert(rows[s as int + 1].take(0) =~= Seq::<usize>::empty());
            }
            lemma_day_demand_push_row(instance.patients@, rows.take(s as int), rows[s as int]);
            assert(rows[s as int].take(rl as int) =~= rows[s as int]);
        }
        s = s + 1;
    }
    // the theaters, each with its availability on this day
    let mut bins: Vec<(usize, u16)> = Vec::new();
    let mut t: usize = 0;
    while t < nt
        invariant
            instance_valid(*instance),
            day < instance.days,
            nt == instance.theaters@.len(),
            0 <= t <= nt,
            bins@.len() == t,
            forall|q: int|
                0 <= q < t ==> (#[trigger] bins@[q]) == (
                    q as usize,
                    instance.theaters@[q].availability@[day as int],
                ),
        decreases nt - t,
    {
        bins.push((t, instance.theaters[t].availability[day]));
        t = t + 1;
    }
    proof {
        assert(rows.take(ns as int) =~= rows);
    }
    let packed = biggest_in_biggest_bin_pack(&items, &bins);
    match packed {
        Some(out) => {
            proof {
                assert forall|x: (usize, u16)|
                    #[trigger] ptotal(pviews(out@), x) == (if x.0 < instance.patients@.len() && x.1
                        == instance.patients@[x.0 as int].surgery_duration {
                        total_count(rows, x.0)
                    } else {
                        0int
                    }) by {
                    assert(rows[ns as int].take(0) =~= Seq::<usize>::empty());
                    crate::model::lemma_count_empty(rows[ns as int].take(0), x.0);
                }
            }
            Ok(out)
        },
        None => {
            proof {
                assert(psum(items@) == day_demand(instance.patients@, rows));
                assert forall|t2: int|
                    0 <= t2 < instance.theaters@.len() implies day_demand(
                    instance.patients@,
                    rows,
                ) > (#[trigger] instance.theaters@[t2].availability@[day as int]) by {
                    assert(bins@[t2].1 == instance.theaters@[t2].availability@[day as int]);
                }
            }
            Err(ScheduleError::RoundingInfeasible(day))
        },
    }
}

/// How often item `x` should occur among the items drawn from the first `s`
/// whole rows plus the first `j` entries of row `s`: once per listing of its
/// patient, and only when it carries that patient's true surgery duration.
pub open spec fn ptarget(
    patients: Seq<Patient>,
    rows: Seq<Seq<usize>>,
    s: int,
    j: int,
    x: (usize, u16),
) -> int {
    if x.0 < patients.len() && x.1 == patients[x.0 as int].surgery_duration {
        total_count(rows.take(s), x.0) + count_of(rows[s].take(j), x.0)
    } else {
        0
    }
}

} // verus!
