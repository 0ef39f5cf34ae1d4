//! The escape-time evaluator: how many steps of the recurrence `z <- step(z, c)`
//! a point takes before its magnitude reaches the escape threshold.
//!
//! The evaluator is generic in the number type `Z`. The caller supplies the
//! recurrence step and the reading of a state's squared magnitude; the evaluator
//! owns the control flow.

use vstd::prelude::*;

verus! {

/// What the evaluator reads from the squared magnitude of a state.
#[derive(Clone, Copy, Debug)]
pub enum Magnitude {
    /// Finite and below the escape threshold.
    Inside,
    /// At or beyond the escape threshold, infinity included.
    Outside,
    /// Not comparable with the threshold (not a number).
    Unordered,
}

/// Each state of `orbit` but the first is a result of `step` on the state before it.
pub open spec fn follows<Z, S: Fn(Z, Z) -> Z>(step: S, c: Z, orbit: Seq<Z>) -> bool {
    forall|k: int|
        0 <= k && k + 1 < orbit.len() ==> call_ensures(step, (#[trigger] orbit[k], c), orbit[k + 1])
}

/// The escape check on `z` can come out negative: some reading of its magnitude
/// is not `Outside`.
pub open spec fn may_stay<Z, M: Fn(Z) -> Magnitude>(magnitude: M, z: Z) -> bool {
    exists|m: Magnitude| m != Magnitude::Outside && call_ensures(magnitude, (z,), m)
}

/// `orbit` records a checked run from `start` with budget `limit` that took
/// `steps` steps: the escape check came out negative before each step taken,
/// and positive on the last state unless the budget was used up.
pub open spec fn checked_run<Z, M: Fn(Z) -> Magnitude, S: Fn(Z, Z) -> Z>(
    magnitude: M,
    step: S,
    start: Z,
    c: Z,
    limit: nat,
    orbit: Seq<Z>,
    steps: nat,
) -> bool {
    &&& steps <= limit
    &&& orbit.len() == steps + 1
    &&& orbit[0] == start
    &&& follows(step, c, orbit)
    &&& forall|k: int| 0 <= k < steps ==> may_stay(magnitude, #[trigger] orbit[k])
    &&& steps < limit ==> call_ensures(magnitude, (orbit[steps as int],), Magnitude::Outside)
}

/// A checked run from `start` with budget `limit` can take `steps` steps and end in `end`.
pub open spec fn checked_outcome<Z, M: Fn(Z) -> Magnitude, S: Fn(Z, Z) -> Z>(
    magnitude: M,
    step: S,
    start: Z,
    c: Z,
    limit: nat,
    end: Z,
    steps: nat,
) -> bool {
    exists|orbit: Seq<Z>|
        checked_run(magnitude, step, start, c, limit, orbit, steps) && orbit.last() == end
}

/// `orbit` records `count` steps from `start`, taken without any escape check.
pub open spec fn unchecked_run<Z, S: Fn(Z, Z) -> Z>(
    step: S,
    start: Z,
    c: Z,
    count: nat,
    orbit: Seq<Z>,
) -> bool {
    &&& orbit.len() == count + 1
    &&& orbit[0] == start
    &&& follows(step, c, orbit)
}

/// A batched run from `start` with budget `limit` can take `steps` steps and end
/// in `end`: either the state after `limit` unchecked steps reads `Inside`, and the
/// run took the whole budget and ends there; or it reads otherwise, and the
/// outcome is that of a checked run from `start`.
pub open spec fn batched_outcome<Z, M: Fn(Z) -> Magnitude, S: Fn(Z, Z) -> Z>(
    magnitude: M,
    step: S,
    start: Z,
    c: Z,
    limit: nat,
    end: Z,
    steps: nat,
) -> bool {
    exists|sprint: Seq<Z>, reading: Magnitude|
        {
            &&& unchecked_run(step, start, c, limit, sprint)
            &&& call_ensures(magnitude, (sprint.last(),), reading)
            &&& if reading is Inside {
                steps == limit && end == sprint.last()
            } else {
                checked_outcome(magnitude, step, start, c, limit, end, steps)
            }
        }
}

/// Advances `z` by the recurrence until its magnitude reads `Outside` or `limit`
/// steps are done, whichever comes first, and returns the number of steps taken.
/// The check stands before each step; with `limit == 0` nothing is evaluated.
pub fn iter_mandel_many_inplace<Z: Copy, M: Fn(Z) -> Magnitude, S: Fn(Z, Z) -> Z>(
    z: &mut Z,
    c: &Z,
    limit: usize,
    magnitude: &M,
    step: &S,
) -> (steps: usize)
    requires
        forall|a: Z| call_requires(*magnitude, (a,)),
        forall|a: Z, b: Z| call_requires(*step, (a, b)),
    ensures
        steps <= limit,
        checked_outcome(*magnitude, *step, *old(z), *c, limit as nat, *final(z), steps as nat),
        limit >= 1 && (forall|m: Magnitude|
            call_ensures(*magnitude, (*old(z),), m) ==> m == Magnitude::Outside) ==> steps == 0
            && *final(z) == *old(z),
{
    let ghost mut orbit: Seq<Z> = seq![*z];
    let mut i: usize = 0;
    while i < limit
        invariant
            i <= limit,
            forall|a: Z| call_requires(*magnitude, (a,)),
            forall|a: Z, b: Z| call_requires(*step, (a, b)),
            orbit.len() == i + 1,
            orbit[0] == *old(z),
            orbit.last() == *z,
            follows(*step, *c, orbit),
            forall|k: int| 0 <= k < i ==> may_stay(*magnitude, #[trigger] orbit[k]),
        decreases limit - i,
    {
        let reading = magnitude(*z);
        match reading {
            Magnitude::Outside => {
                assert(checked_run(*magnitude, *step, *old(z), *c, limit as nat, orbit, i as nat));
                return i;
            },
            _ => {},
        }
        assert(may_stay(*magnitude, *z));
        let next = step(*z, *c);
        proof {
            orbit = orbit.push(next);
        }
        *z = next;
        i += 1;
    }
    assert(checked_run(*magnitude, *step, *old(z), *c, limit as nat, orbit, limit as nat));
    limit
}

/// The same evaluation, optimistic: it first takes `limit` steps on a scratch copy
/// without checking. If the copy then reads `Inside`, the copy becomes the new `z`
/// and the whole budget counts as taken. Only otherwise is the copy dropped and
/// the run redone on `z` with the check before each step.
pub fn iter_mandel_many_inplace_batched<Z: Copy, M: Fn(Z) -> Magnitude, S: Fn(Z, Z) -> Z>(
    z: &mut Z,
    c: &Z,
    limit: usize,
    magnitude: &M,
    step: &S,
) -> (steps: usize)
    requires
        forall|a: Z| call_requires(*magnitude, (a,)),
        forall|a: Z, b: Z| call_requires(*step, (a, b)),
    ensures
        steps <= limit,
        batched_outcome(*magnitude, *step, *old(z), *c, limit as nat, *final(z), steps as nat),
{
    let mut scratch: Z = *z;
    let ghost mut sprint: Seq<Z> = seq![*z];
    let mut i: usize = 0;
    while i < limit
        invariant
            i <= limit,
            forall|a: Z, b: Z| call_requires(*step, (a, b)),
            unchecked_run(*step, *z, *c, i as nat, sprint),
            sprint.last() == scratch,
        decreases limit - i,
    {
        let next = step(scratch, *c);
        proof {
            sprint = sprint.push(next);
        }
        scratch = next;
        i += 1;
    }
    let reading = magnitude(scratch);
    match reading {
        Magnitude::Inside => {
            *z = scratch;
            limit
        },
        _ => iter_mandel_many_inplace(z, c, limit, magnitude, step),
    }
}

/// A batched run takes no more steps than its budget.
pub proof fn lemma_batched_within_budget<Z, M: Fn(Z) -> Magnitude, S: Fn(Z, Z) -> Z>(
    magnitude: M,
    step: S,
    start: Z,
    c: Z,
    limit: nat,
    end: Z,
    steps: nat,
)
    requires
        batched_outcome(magnitude, step, start, c, limit, end, steps),
    ensures
        steps <= limit,
{
}

/// `step` is a function: one pair of arguments has one result.
pub open spec fn step_is_function<Z, S: Fn(Z, Z) -> Z>(step: S) -> bool {
    forall|a: Z, b: Z, r1: Z, r2: Z|
        call_ensures(step, (a, b), r1) && call_ensures(step, (a, b), r2) ==> r1 == r2
}

/// `magnitude` is a function: one state has one reading.
pub open spec fn magnitude_is_function<Z, M: Fn(Z) -> Magnitude>(magnitude: M) -> bool {
    forall|a: Z, m1: Magnitude, m2: Magnitude|
        call_ensures(magnitude, (a,), m1) && call_ensures(magnitude, (a,), m2) ==> m1 == m2
}

/// The assumption behind the batched evaluator: whenever the state after `limit`
/// unchecked steps from `start` reads `Inside`, no earlier state of that run
/// reads `Outside`.
pub open spec fn sprint_is_sound<Z, M: Fn(Z) -> Magnitude, S: Fn(Z, Z) -> Z>(
    magnitude: M,
    step: S,
    start: Z,
    c: Z,
    limit: nat,
) -> bool {
    forall|sprint: Seq<Z>, k: int|
        unchecked_run(step, start, c, limit, sprint) && call_ensures(
            magnitude,
            (sprint.last(),),
            Magnitude::Inside,
        ) && 0 <= k < limit ==> !call_ensures(magnitude, (#[trigger] sprint[k],), Magnitude::Outside)
}

/// Two runs of a step function from the same state agree as far as both reach.
pub proof fn lemma_orbits_agree<Z, S: Fn(Z, Z) -> Z>(step: S, c: Z, first: Seq<Z>, second: Seq<Z>, k: int)
    requires
        step_is_function(step),
        follows(step, c, first),
        follows(step, c, second),
        first.len() > 0,
        second.len() > 0,
        first[0] == second[0],
        0 <= k < first.len(),
        k < second.len(),
    ensures
        first[k] == second[k],
    decreases k,
{
    if k > 0 {
        lemma_orbits_agree(step, c, first, second, k - 1);
        assert(call_ensures(step, (first[k - 1], c), first[k - 1 + 1]));
        assert(call_ensures(step, (second[k - 1], c), second[k - 1 + 1]));
    }
}

/// With a step and a magnitude that are functions, a checked run has one outcome:
/// the step count and the final state are determined by the start, the offset and
/// the budget.
pub proof fn lemma_checked_outcome_unique<Z, M: Fn(Z) -> Magnitude, S: Fn(Z, Z) -> Z>(
    magnitude: M,
    step: S,
    start: Z,
    c: Z,
    limit: nat,
    end1: Z,
    steps1: nat,
    end2: Z,
    steps2: nat,
)
    requires
        step_is_function(step),
        magnitude_is_function(magnitude),
        checked_outcome(magnitude, step, start, c, limit, end1, steps1),
        checked_outcome(magnitude, step, start, c, limit, end2, steps2),
    ensures
        steps1 == steps2,
        end1 == end2,
{
    let first = choose|orbit: Seq<Z>|
        checked_run(magnitude, step, start, c, limit, orbit, steps1) && orbit.last() == end1;
    let second = choose|orbit: Seq<Z>|
        checked_run(magnitude, step, start, c, limit, orbit, steps2) && orbit.last() == end2;
    if steps1 < steps2 {
        lemma_orbits_agree(step, c, first, second, steps1 as int);
        assert(may_stay(magnitude, second[steps1 as int]));
    } else if steps2 < steps1 {
        lemma_orbits_agree(step, c, first, second, steps2 as int);
        assert(may_stay(magnitude, first[steps2 as int]));
    } else {
        lemma_orbits_agree(step, c, first, second, steps1 as int);
    }
}

/// The batched evaluator and the checked one agree: with a step and a magnitude
/// that are functions, and on inputs for which the batching assumption holds,
/// both take the same number of steps and end in the same state.
pub proof fn lemma_batched_agrees_with_checked<Z, M: Fn(Z) -> Magnitude, S: Fn(Z, Z) -> Z>(
    magnitude: M,
    step: S,
    start: Z,
    c: Z,
    limit: nat,
    checked_end: Z,
    checked_steps: nat,
    batched_end: Z,
    batched_steps: nat,
)
    requires
        step_is_function(step),
        magnitude_is_function(magnitude),
        sprint_is_sound(magnitude, step, start, c, limit),
        checked_outcome(magnitude, step, start, c, limit, checked_end, checked_steps),
        batched_outcome(magnitude, step, start, c, limit, batched_end, batched_steps),
    ensures
        batched_steps == checked_steps,
        batched_end == checked_end,
{
    let (sprint, reading) = choose|sprint: Seq<Z>, reading: Magnitude|
        {
            &&& unchecked_run(step, start, c, limit, sprint)
            &&& call_ensures(magnitude, (sprint.last(),), reading)
            &&& if reading is Inside {
                batched_steps == limit && batched_end == sprint.last()
            } else {
                checked_outcome(magnitude, step, start, c, limit, batched_end, batched_steps)
            }
        };
    if reading is Inside {
        let orbit = choose|orbit: Seq<Z>|
            checked_run(magnitude, step, start, c, limit, orbit, checked_steps) && orbit.last()
                == checked_end;
        lemma_orbits_agree(step, c, orbit, sprint, checked_steps as int);
        if checked_steps < limit {
            assert(call_ensures(magnitude, (sprint[checked_steps as int],), Magnitude::Outside));
        }
    } else {
        lemma_checked_outcome_unique(
            magnitude,
            step,
            start,
            c,
            limit,
            checked_end,
            checked_steps,
            batched_end,
            batched_steps,
        );
    }
}

/// A checked run that stopped before its budget was used up is a run for every
/// larger budget too.
pub proof fn lemma_escaped_run_ignores_budget<Z, M: Fn(Z) -> Magnitude, S: Fn(Z, Z) -> Z>(
    magnitude: M,
    step: S,
    start: Z,
    c: Z,
    limit: nat,
    larger: nat,
    end: Z,
    steps: nat,
)
    requires
        checked_outcome(magnitude, step, start, c, limit, end, steps),
        steps < limit <= larger,
    ensures
        checked_outcome(magnitude, step, start, c, larger, end, steps),
{
    let orbit = choose|orbit: Seq<Z>|
        checked_run(magnitude, step, start, c, limit, orbit, steps) && orbit.last() == end;
    assert(checked_run(magnitude, step, start, c, larger, orbit, steps));
}

/// Checked runs compose: a run with budget `first` followed by a run with budget
/// `second` from the state where the first ended comes to what one run with the
/// budget `first + second` comes to.
pub proof fn lemma_checked_runs_compose<Z, M: Fn(Z) -> Magnitude, S: Fn(Z, Z) -> Z>(
    magnitude: M,
    step: S,
    start: Z,
    c: Z,
    first: nat,
    second: nat,
    mid: Z,
    first_steps: nat,
    end: Z,
    second_steps: nat,
)
    requires
        magnitude_is_function(magnitude),
        checked_outcome(magnitude, step, start, c, first, mid, first_steps),
        checked_outcome(magnitude, step, mid, c, second, end, second_steps),
    ensures
        checked_outcome(magnitude, step, start, c, first + second, end, first_steps + second_steps),
{
    let head = choose|orbit: Seq<Z>|
        checked_run(magnitude, step, start, c, first, orbit, first_steps) && orbit.last() == mid;
    let tail = choose|orbit: Seq<Z>|
        checked_run(magnitude, step, mid, c, second, orbit, second_steps) && orbit.last() == end;
    if first_steps < first {
        assert(call_ensures(magnitude, (mid,), Magnitude::Outside));
        if second_steps > 0 {
            assert(may_stay(magnitude, tail[0]));
            let m = choose|m: Magnitude| m != Magnitude::Outside && call_ensures(magnitude, (mid,), m);
            assert(false);
        }
        assert(head.last() == end);
        assert(checked_run(magnitude, step, start, c, first + second, head, first_steps));
    } else {
        let whole = head + tail.subrange(1, tail.len() as int);
        assert forall|k: int| 0 <= k && k + 1 < whole.len() implies call_ensures(
            step,
            (#[trigger] whole[k], c),
            whole[k + 1],
        ) by {
            if k + 1 < head.len() {
                assert(call_ensures(step, (head[k], c), head[k + 1]));
            } else {
                assert(call_ensures(step, (tail[k - first], c), tail[k - first + 1]));
            }
        }
        assert forall|k: int| 0 <= k < first + second_steps implies may_stay(
            magnitude,
            #[trigger] whole[k],
        ) by {
            if k < first {
                assert(may_stay(magnitude, head[k]));
            } else {
                assert(may_stay(magnitude, tail[k - first]));
            }
        }
        assert(whole[(first + second_steps) as int] == tail[second_steps as int]);
        assert(whole.last() == end);
        assert(checked_run(
            magnitude,
            step,
            start,
            c,
            first + second,
            whole,
            first_steps + second_steps,
        ));
    }
}

/// The state `z` has a reading.
pub open spec fn has_reading<Z, M: Fn(Z) -> Magnitude>(magnitude: M, z: Z) -> bool {
    exists|m: Magnitude| call_ensures(magnitude, (z,), m)
}

/// Every state has a reading.
pub open spec fn magnitude_is_total<Z, M: Fn(Z) -> Magnitude>(magnitude: M) -> bool {
    forall|a: Z| #[trigger] has_reading(magnitude, a)
}

/// On this input every outcome of the batched evaluator is an outcome of the
/// checked one.
pub open spec fn batched_is_checked<Z, M: Fn(Z) -> Magnitude, S: Fn(Z, Z) -> Z>(
    magnitude: M,
    step: S,
    start: Z,
    c: Z,
    limit: nat,
) -> bool {
    forall|end: Z, steps: nat| #[trigger]
        batched_outcome(magnitude, step, start, c, limit, end, steps) ==> checked_outcome(
            magnitude,
            step,
            start,
            c,
            limit,
            end,
            steps,
        )
}

/// Where the batching assumption holds, and the magnitude is a total function,
/// every outcome of the batched evaluator is an outcome of the checked one.
pub proof fn lemma_sound_sprint_is_checked<Z, M: Fn(Z) -> Magnitude, S: Fn(Z, Z) -> Z>(
    magnitude: M,
    step: S,
    start: Z,
    c: Z,
    limit: nat,
)
    requires
        magnitude_is_function(magnitude),
        magnitude_is_total(magnitude),
        sprint_is_sound(magnitude, step, start, c, limit),
    ensures
        batched_is_checked(magnitude, step, start, c, limit),
{
    assert forall|end: Z, steps: nat| #[trigger]
        batched_outcome(magnitude, step, start, c, limit, end, steps) implies checked_outcome(
        magnitude,
        step,
        start,
        c,
        limit,
        end,
        steps,
    ) by {
        let (sprint, reading) = choose|sprint: Seq<Z>, reading: Magnitude|
            {
                &&& unchecked_run(step, start, c, limit, sprint)
                &&& call_ensures(magnitude, (sprint.last(),), reading)
                &&& if reading is Inside {
                    steps == limit && end == sprint.last()
                } else {
                    checked_outcome(magnitude, step, start, c, limit, end, steps)
                }
            };
        if reading is Inside {
            assert forall|k: int| 0 <= k < limit implies may_stay(magnitude, #[trigger] sprint[k]) by {
                assert(has_reading(magnitude, sprint[k]));
                let m = choose|m: Magnitude| call_ensures(magnitude, (sprint[k],), m);
                assert(!call_ensures(magnitude, (sprint[k],), Magnitude::Outside));
                assert(m != Magnitude::Outside);
            }
            assert(checked_run(magnitude, step, start, c, limit, sprint, limit));
        }
    }
}

} // verus!
