//! The transformation engine: counting flips from a start row to a target row.
//!
//! The solver is a deterministic greedy pass. It keeps a stack of pending
//! positions, resolves prerequisite chains depth-first, flips one light per
//! step, and stops when the working row equals the target or a step cap is
//! reached. The whole pass is mirrored by a mathematical model — one
//! [`step_state`] per outer iteration — and `get_min_steps` is proved to
//! return exactly what the model computes, which pins the count down as a
//! function of the inputs.

use vstd::prelude::*;

use crate::lights::{
    first_diff_spec, lemma_first_diff_exists, lemma_first_diff_range, lemma_no_diff_means_equal,
    prerequisite_spec, Lights,
};

verus! {

/// One solve's state: the working row, the stack of pending positions, and
/// the number of flips performed so far.
#[verifier::ext_equal]
pub struct SolveState {
    pub lights: Seq<bool>,
    pub pending: Seq<int>,
    pub steps: nat,
}

/// The pending stack as the model sees it.
pub open spec fn pend_view(p: Seq<usize>) -> Seq<int> {
    p.map_values(|u: usize| u as int)
}

/// Whether the step counter has reached the caller's limit, or the largest
/// count the counter itself can hold.
pub open spec fn cap_hit(steps: nat, limit: Option<usize>) -> bool {
    steps >= usize::MAX || match limit {
        Some(l) => steps >= l,
        None => false,
    }
}

/// Whether a solve halts in this state: nothing is pending, the step cap is
/// reached, or (defensively) the top pending position is out of range, which
/// the solver treats as fatal.
pub open spec fn done(st: SolveState, limit: Option<usize>) -> bool {
    st.pending.len() == 0 || cap_hit(st.steps, limit) || !(0 <= st.pending.last()
        < st.lights.len())
}

/// Resolves the prerequisite chain for `cand`: while a prerequisite exists
/// and is not already pending, the current candidate is pushed back and the
/// prerequisite chased instead. Returns the final stack and the position that
/// is ready to flip. Abandoning the chain when the prerequisite is already
/// pending is a deliberate cycle guard: it keeps the pass terminating, at the
/// price of not always flipping an eligible position.
pub open spec fn chase(lights: Seq<bool>, pending: Seq<int>, cand: int) -> (Seq<int>, int)
    decreases lights.len() - cand,
{
    match prerequisite_spec(lights, cand) {
        None => (pending, cand),
        Some(p) => {
            if !(cand < p && p < lights.len()) {
                (pending, cand)
            } else if pending.contains(p) {
                (pending, cand)
            } else {
                chase(lights, pending.push(cand), p)
            }
        },
    }
}

/// One outer iteration of the solve: pop the most recent pending position,
/// resolve its prerequisite chain, flip the ready position, refill the stack
/// from the first differing position when it emptied, and count the step.
/// A state that is already done is left unchanged.
pub open spec fn step_state(st: SolveState, target: Seq<bool>, limit: Option<usize>) -> SolveState {
    if done(st, limit) {
        st
    } else {
        let r = chase(st.lights, st.pending.drop_last(), st.pending.last());
        let flipped = st.lights.update(r.1, !st.lights[r.1]);
        let refilled = if r.0.len() == 0 {
            match first_diff_spec(flipped, target, 0) {
                Some(d) => seq![d],
                None => r.0,
            }
        } else {
            r.0
        };
        SolveState { lights: flipped, pending: refilled, steps: st.steps + 1 }
    }
}

/// The state after `k` outer iterations from `st`.
pub open spec fn iterate(st: SolveState, target: Seq<bool>, limit: Option<usize>, k: nat) -> SolveState
    decreases k,
{
    if k == 0 {
        st
    } else {
        step_state(iterate(st, target, limit, (k - 1) as nat), target, limit)
    }
}

/// The state a solve starts from once the rows are known to have equal
/// length and to differ: the first differing position is pending.
pub open spec fn init_state(start: Seq<bool>, target: Seq<bool>) -> SolveState {
    SolveState {
        lights: start,
        pending: seq![first_diff_spec(start, target, 0)->0],
        steps: 0,
    }
}

/// The step count in the halted state the iteration reaches.
pub open spec fn run_value(init: SolveState, target: Seq<bool>, limit: Option<usize>) -> nat {
    iterate(init, target, limit, choose|k: nat| done(iterate(init, target, limit, k), limit)).steps
}

/// What `get_min_steps` returns, as a function of the two rows and the
/// limit: `Some(0)` for equal rows, `None` for a length mismatch, and
/// otherwise the step count the greedy pass reaches.
pub open spec fn min_steps_spec(start: Seq<bool>, target: Seq<bool>, limit: Option<usize>) -> Option<
    nat,
> {
    if start == target {
        Some(0 as nat)
    } else if start.len() != target.len() {
        None
    } else {
        Some(run_value(init_state(start, target), target, limit))
    }
}

/// Whether an executable result agrees with the model's.
pub open spec fn result_matches(r: Option<usize>, m: Option<nat>) -> bool {
    match (r, m) {
        (None, None) => true,
        (Some(a), Some(b)) => a as nat == b,
        _ => false,
    }
}

/// Once the iteration is done it stays in place: later states are the same.
proof fn lemma_iterate_absorbing(
    init: SolveState,
    target: Seq<bool>,
    limit: Option<usize>,
    k1: nat,
    k2: nat,
)
    requires
        k1 <= k2,
        done(iterate(init, target, limit, k1), limit),
    ensures
        iterate(init, target, limit, k2) == iterate(init, target, limit, k1),
    decreases k2,
{
    if k2 > k1 {
        lemma_iterate_absorbing(init, target, limit, k1, (k2 - 1) as nat);
    }
}

/// Any done state of the iteration carries the run's final step count.
proof fn lemma_run_value_is(init: SolveState, target: Seq<bool>, limit: Option<usize>, k: nat)
    requires
        done(iterate(init, target, limit, k), limit),
    ensures
        run_value(init, target, limit) == iterate(init, target, limit, k).steps,
{
    let kc = choose|k2: nat| done(iterate(init, target, limit, k2), limit);
    assert(done(iterate(init, target, limit, k), limit));
    if kc <= k {
        lemma_iterate_absorbing(init, target, limit, kc, k);
    } else {
        lemma_iterate_absorbing(init, target, limit, k, kc);
    }
}

/// A step is counted on every iteration that moves: the counter can rise by
/// at most one per iteration.
proof fn lemma_steps_bound(init: SolveState, target: Seq<bool>, limit: Option<usize>, k: nat)
    ensures
        iterate(init, target, limit, k).steps <= init.steps + k,
    decreases k,
{
    if k > 0 {
        lemma_steps_bound(init, target, limit, (k - 1) as nat);
    }
}

/// The step counter never goes down as the iteration proceeds.
proof fn lemma_steps_monotone(
    init: SolveState,
    target: Seq<bool>,
    limit: Option<usize>,
    m: nat,
    n: nat,
)
    requires
        m <= n,
    ensures
        iterate(init, target, limit, m).steps <= iterate(init, target, limit, n).steps,
    decreases n,
{
    if n > m {
        lemma_steps_monotone(init, target, limit, m, (n - 1) as nat);
    }
}

/// While the iteration has not halted, each iteration counts exactly one
/// step, so after `k` live iterations the counter reads `k` more than at the
/// start.
proof fn lemma_steps_progress(init: SolveState, target: Seq<bool>, limit: Option<usize>, k: nat)
    requires
        forall|j: nat| j < k ==> !done(iterate(init, target, limit, j), limit),
    ensures
        iterate(init, target, limit, k).steps == init.steps + k,
    decreases k,
{
    if k > 0 {
        lemma_steps_progress(init, target, limit, (k - 1) as nat);
        assert(!done(iterate(init, target, limit, (k - 1) as nat), limit));
    }
}

/// Every run halts: the step counter cannot pass its own capacity, so some
/// iteration reaches a done state.
proof fn lemma_always_halts(init: SolveState, target: Seq<bool>, limit: Option<usize>)
    requires
        init.steps == 0,
    ensures
        exists|k: nat| done(iterate(init, target, limit, k), limit),
{
    let cap = usize::MAX as nat;
    if forall|j: nat| j < cap ==> !done(iterate(init, target, limit, j), limit) {
        lemma_steps_progress(init, target, limit, cap);
        assert(cap_hit(iterate(init, target, limit, cap).steps, limit));
        assert(done(iterate(init, target, limit, cap), limit));
    } else {
        let j = choose|j: nat| j < cap && done(iterate(init, target, limit, j), limit);
        assert(done(iterate(init, target, limit, j), limit));
    }
}

/// Repeated invocation with identical inputs yields identical step counts:
/// any two results that satisfy `get_min_steps`'s contract for the same
/// start, target and limit are equal.
pub proof fn lemma_deterministic(
    start: Seq<bool>,
    target: Seq<bool>,
    limit: Option<usize>,
    r1: Option<usize>,
    r2: Option<usize>,
)
    requires
        result_matches(r1, min_steps_spec(start, target, limit)),
        result_matches(r2, min_steps_spec(start, target, limit)),
    ensures
        r1 == r2,
{
}

/// Two runs that differ only in their limit move in lock-step as long as the
/// unlimited run is live and the limited run's cap lies at or past `n`.
proof fn lemma_agree_upto(init: SolveState, target: Seq<bool>, lim: usize, n: nat)
    requires
        init.steps == 0,
        n <= lim,
        forall|j: nat| j < n ==> !done(iterate(init, target, None, j), None),
    ensures
        iterate(init, target, Some(lim), n) == iterate(init, target, None, n),
        forall|j: nat| j < n ==> !done(iterate(init, target, Some(lim), j), Some(lim)),
    decreases n,
{
    if n > 0 {
        let m = (n - 1) as nat;
        lemma_agree_upto(init, target, lim, m);
        lemma_steps_progress(init, target, None, m);
        let st = iterate(init, target, None, m);
        assert(!done(st, None));
        assert(st.steps == m);
        assert(!cap_hit(st.steps, Some(lim)));
        assert(!done(st, Some(lim)));
        assert(iterate(init, target, Some(lim), n) == step_state(st, target, Some(lim)));
        assert(step_state(st, target, Some(lim)) == step_state(st, target, None));
    }
}

/// The run without a limit halts for the first time exactly when its count
/// is reached: before that it is live, and at that point it is done.
proof fn lemma_unlimited_halt_point(init: SolveState, target: Seq<bool>, k: nat)
    requires
        init.steps == 0,
        run_value(init, target, None) == k,
        k < usize::MAX,
    ensures
        forall|j: nat| j < k ==> !done(iterate(init, target, None, j), None),
        done(iterate(init, target, None, k), None),
{
    lemma_always_halts(init, target, None);
    let kd = choose|j: nat| done(iterate(init, target, None, j), None);
    assert(done(iterate(init, target, None, kd), None));
    assert forall|j: nat| j < k implies !done(iterate(init, target, None, j), None) by {
        if done(iterate(init, target, None, j), None) {
            lemma_run_value_is(init, target, None, j);
            lemma_steps_bound(init, target, None, j);
        }
    }
    if !done(iterate(init, target, None, k), None) {
        assert(forall|j: nat| j < k + 1 ==> !done(iterate(init, target, None, j), None));
        lemma_steps_progress(init, target, None, (k + 1) as nat);
        lemma_run_value_is(init, target, None, kd);
        assert(kd >= k + 1);
        lemma_steps_monotone(init, target, None, (k + 1) as nat, kd);
    }
}

/// Prerequisite chasing keeps every stacked position, and the position it
/// settles on, inside the row.
proof fn lemma_chase_range(lights: Seq<bool>, pending: Seq<int>, cand: int)
    requires
        0 <= cand < lights.len(),
        forall|i: int| 0 <= i < pending.len() ==> 0 <= #[trigger] pending[i] < lights.len(),
    ensures
        ({
            let r = chase(lights, pending, cand);
            &&& 0 <= r.1 < lights.len()
            &&& forall|i: int| 0 <= i < r.0.len() ==> 0 <= #[trigger] r.0[i] < lights.len()
        }),
    decreases lights.len() - cand,
{
    match prerequisite_spec(lights, cand) {
        None => {},
        Some(p) => {
            if cand < p && p < lights.len() && !pending.contains(p) {
                lemma_chase_range(lights, pending.push(cand), p);
            }
        },
    }
}

/// Every state the solve can reach keeps the row's length, keeps every
/// pending position inside the row, and only empties its stack once the
/// working row equals the target.
proof fn lemma_reachable_state(start: Seq<bool>, target: Seq<bool>, limit: Option<usize>, k: nat)
    requires
        start.len() == target.len(),
        start != target,
    ensures
        ({
            let st = iterate(init_state(start, target), target, limit, k);
            &&& st.lights.len() == target.len()
            &&& forall|i: int| 0 <= i < st.pending.len() ==> 0 <= #[trigger] st.pending[i]
                < st.lights.len()
            &&& st.pending.len() == 0 ==> st.lights == target
        }),
    decreases k,
{
    let init = init_state(start, target);
    if k == 0 {
        lemma_first_diff_exists(start, target);
        lemma_first_diff_range(start, target, 0);
        assert(init.pending[0] == first_diff_spec(start, target, 0)->0);
    } else {
        let m = (k - 1) as nat;
        lemma_reachable_state(start, target, limit, m);
        let st = iterate(init, target, limit, m);
        if !done(st, limit) {
            let r = chase(st.lights, st.pending.drop_last(), st.pending.last());
            assert(forall|i: int| 0 <= i < st.pending.drop_last().len() ==> 0
                <= #[trigger] st.pending.drop_last()[i] < st.lights.len());
            lemma_chase_range(st.lights, st.pending.drop_last(), st.pending.last());
            let flipped = st.lights.update(r.1, !st.lights[r.1]);
            if r.0.len() == 0 {
                match first_diff_spec(flipped, target, 0) {
                    Some(d) => {
                        lemma_first_diff_range(flipped, target, 0);
                        assert(iterate(init, target, limit, k).pending == seq![d]);
                    },
                    None => {
                        lemma_no_diff_means_equal(flipped, target);
                    },
                }
            }
        }
    }
}

/// A solve that was given no limit and returned a count below the counter's
/// own capacity has truly finished: at its halting point nothing is pending
/// and the working row equals the target.
pub proof fn lemma_unlimited_count_solves(start: Seq<bool>, target: Seq<bool>, k: nat)
    requires
        start.len() == target.len(),
        start != target,
        min_steps_spec(start, target, None) == Some(k),
        k < usize::MAX,
    ensures
        ({
            let st = iterate(init_state(start, target), target, None, k);
            &&& done(st, None)
            &&& st.pending.len() == 0
            &&& st.lights == target
        }),
{
    let init = init_state(start, target);
    lemma_unlimited_halt_point(init, target, k);
    lemma_steps_progress(init, target, None, k);
    lemma_reachable_state(start, target, None, k);
    let st = iterate(init, target, None, k);
    assert(st.steps == k);
    assert(!cap_hit(st.steps, None));
    if st.pending.len() > 0 {
        assert(0 <= st.pending[st.pending.len() - 1] < st.lights.len());
    }
}

/// How the limit shapes the count. For rows whose unlimited solve takes `k`
/// steps, any limit of at least `k` changes nothing and yields exactly `k`,
/// while a smaller limit stops the pass right at the limit, so the count
/// returned is the limit itself — in particular at most `k - 1` for a limit
/// of `k - 1`.
pub proof fn lemma_limit_behavior(start: Seq<bool>, target: Seq<bool>, k: nat, lim: usize)
    requires
        min_steps_spec(start, target, None) == Some(k),
        k < usize::MAX,
    ensures
        lim >= k ==> min_steps_spec(start, target, Some(lim)) == Some(k),
        lim < k ==> min_steps_spec(start, target, Some(lim)) == Some(lim as nat),
{
    if start == target {
        assert(k == 0);
    } else if start.len() != target.len() {
        assert(false);
    } else {
        let init = init_state(start, target);
        assert(run_value(init, target, None) == k);
        lemma_unlimited_halt_point(init, target, k);
        if lim >= k {
            lemma_agree_upto(init, target, lim, k);
            let st = iterate(init, target, Some(lim), k);
            lemma_steps_progress(init, target, None, k);
            assert(st.steps == k);
            assert(!cap_hit(st.steps, None));
            assert(done(st, Some(lim)));
            lemma_run_value_is(init, target, Some(lim), k);
        } else {
            lemma_agree_upto(init, target, lim, lim as nat);
            let st = iterate(init, target, Some(lim), lim as nat);
            lemma_steps_progress(init, target, Some(lim), lim as nat);
            assert(st.steps == lim);
            assert(cap_hit(st.steps, Some(lim)));
            assert(done(st, Some(lim)));
            lemma_run_value_is(init, target, Some(lim), lim as nat);
        }
    }
}

/// Whether `x` is on the pending stack.
fn stack_contains(v: &Vec<usize>, x: usize) -> (r: bool)
    ensures
        r == pend_view(v@).contains(x as int),
{
    let n = v.len();
    let mut i: usize = 0;
    while i < n
        invariant
            i <= n,
            n == v@.len(),
            forall|j: int| 0 <= j < i ==> pend_view(v@)[j] != x as int,
        decreases n - i,
    {
        if v[i] == x {
            proof {
                assert(pend_view(v@)[i as int] == x as int);
            }
            return true;
        }
        i += 1;
    }
    proof {
        assert forall|j: int| 0 <= j < pend_view(v@).len() implies pend_view(v@)[j] != x
            as int by {}
    }
    false
}

/// Counts the flips the greedy pass performs to turn `start` into `target`.
///
/// Equal rows cost zero steps; rows of different lengths have no solution.
/// Otherwise the pass always yields a count: when `limit` is reached the
/// count accumulated so far is returned rather than a failure, and the same
/// holds at the step counter's own capacity. Note that the return value
/// alone does not tell a capped, partial count apart from a completed solve;
/// a caller who must know can compare the limit against the count, as
/// [`lemma_limit_behavior`] makes precise. The result is exactly the step
/// count of the deterministic model, so identical inputs always yield
/// identical counts.
pub fn get_min_steps(start: Lights, target: Lights, limit: Option<usize>) -> (r: Option<usize>)
    ensures
        result_matches(r, min_steps_spec(start@, target@, limit)),
        start@ == target@ ==> r == Some(0usize),
        start@ != target@ && start@.len() != target@.len() ==> r is None,
        start@.len() == target@.len() ==> r is Some,
{
    let ghost s0 = start@;
    let ghost t0 = target@;
    if start.equals(&target) {
        return Some(0);
    }
    if start.len() != target.len() {
        return None;
    }
    let mut work = start;
    let mut steps: usize = 0;
    let mut pending: Vec<usize> = Vec::new();
    proof {
        lemma_first_diff_exists(s0, t0);
    }
    let first = match work.get_first_different_index(&target, 0) {
        Some(d) => d,
        None => unreached(),
    };
    pending.push(first);
    let ghost init = init_state(s0, t0);
    let ghost mut k: nat = 0;
    proof {
        assert(pend_view(pending@) =~= init.pending);
    }
    while pending.len() != 0
        invariant
            t0 == target@,
            work@.len() == t0.len(),
            forall|i: int| 0 <= i < pending@.len() ==> pending@[i] < work@.len(),
            work@ == iterate(init, t0, limit, k).lights,
            pend_view(pending@) == iterate(init, t0, limit, k).pending,
            steps as nat == iterate(init, t0, limit, k).steps,
            forall|j: nat| j < k ==> !done(iterate(init, t0, limit, j), limit),
        ensures
            done(iterate(init, t0, limit, k), limit),
            steps as nat == iterate(init, t0, limit, k).steps,
        decreases usize::MAX - steps,
    {
        let limit_reached = match limit {
            Some(l) => steps >= l,
            None => false,
        };
        if limit_reached || steps == usize::MAX {
            proof {
                assert(cap_hit(steps as nat, limit));
            }
            break ;
        }
        let ghost st = iterate(init, t0, limit, k);
        proof {
            assert(st.pending.last() == pending@.last() as int);
            assert(pending@.last() < work@.len());
            assert(!done(st, limit));
        }
        let cand0 = match pending.pop() {
            Some(c) => c,
            None => unreached(),
        };
        proof {
            assert(pend_view(pending@) =~= st.pending.drop_last());
        }
        let ghost chase_target = chase(work@, pend_view(pending@), cand0 as int);
        let mut cand = cand0;
        loop
            invariant
                work@.len() == t0.len(),
                cand < work@.len(),
                forall|i: int| 0 <= i < pending@.len() ==> pending@[i] < work@.len(),
                chase(work@, pend_view(pending@), cand as int) == chase_target,
            ensures
                cand < work@.len(),
                forall|i: int| 0 <= i < pending@.len() ==> pending@[i] < work@.len(),
                chase_target == (pend_view(pending@), cand as int),
            decreases work@.len() - cand,
        {
            match work.need_light_to_flip(cand) {
                Some(p) => {
                    if stack_contains(&pending, p) {
                        break ;
                    }
                    let ghost pv_old = pend_view(pending@);
                    let ghost cand_old = cand as int;
                    pending.push(cand);
                    proof {
                        assert(pend_view(pending@) =~= pv_old.push(cand_old));
                        assert(chase(work@, pv_old, cand_old) == chase(
                            work@,
                            pv_old.push(cand_old),
                            p as int,
                        ));
                    }
                    cand = p;
                },
                None => {
                    break ;
                },
            }
        }
        match work.flip(cand) {
            Ok(()) => {},
            Err(_) => unreached(),
        }
        if pending.len() == 0 {
            match work.get_first_different_index(&target, 0) {
                Some(next_index) => {
                    pending.push(next_index);
                    proof {
                        assert(pend_view(pending@) =~= seq![next_index as int]);
                    }
                },
                None => {},
            }
        }
        steps += 1;
        proof {
            k = k + 1;
            let stepped = step_state(st, t0, limit);
            assert(iterate(init, t0, limit, k) == stepped);
            assert(work@ == stepped.lights);
            assert(pend_view(pending@) =~= stepped.pending);
            assert(steps as nat == stepped.steps);
        }
    }
    proof {
        lemma_run_value_is(init, t0, limit, k);
    }
    Some(steps)
}

} // verus!
