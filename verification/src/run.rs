//! The state of a run through a schedule: which phases wait, run, have
//! succeeded, have failed or are skipped.

use vstd::prelude::*;
use crate::graph::closed_graph;
use crate::graph::topological;
use crate::graph::depends;
use crate::lifecycle::Schedule;

verus! {

/// The state of one phase. `Succeeded`, `Failed` and `Skipped` are final.
#[derive(Debug, Clone, Copy, PartialEq, Eq, Structural)]
pub enum PhaseState {
    Pending,
    Running,
    Succeeded,
    Failed,
    Skipped,
}

/// Some dependency of phase `j` has failed or is skipped.
pub open spec fn blocked(deps: Seq<Seq<usize>>, states: Seq<PhaseState>, j: int) -> bool {
    exists|k: int|
        0 <= k < deps[j].len() && (states[(#[trigger] deps[j][k]) as int] == PhaseState::Failed
            || states[deps[j][k] as int] == PhaseState::Skipped)
}

/// Every dependency of phase `j` has succeeded.
pub open spec fn dependencies_succeeded(
    deps: Seq<Seq<usize>>,
    states: Seq<PhaseState>,
    j: int,
) -> bool {
    forall|k: int|
        0 <= k < deps[j].len() ==> states[(#[trigger] deps[j][k]) as int] == PhaseState::Succeeded
}

/// Phase `j` has been started.
pub open spec fn started(states: Seq<PhaseState>, j: int) -> bool {
    states[j] == PhaseState::Running || states[j] == PhaseState::Succeeded || states[j]
        == PhaseState::Failed
}

/// Phase `j` waits and all its dependencies have succeeded.
pub open spec fn startable(deps: Seq<Seq<usize>>, states: Seq<PhaseState>, j: int) -> bool {
    &&& 0 <= j < states.len()
    &&& states[j] == PhaseState::Pending
    &&& dependencies_succeeded(deps, states, j)
}

/// The states fit the graph: a phase is skipped exactly when one of its
/// dependencies has failed or is skipped, and a phase that was started has
/// all its dependencies succeeded.
pub open spec fn consistent(deps: Seq<Seq<usize>>, states: Seq<PhaseState>) -> bool {
    &&& states.len() == deps.len()
    &&& forall|j: int|
        0 <= j < states.len() ==> ((#[trigger] states[j]) == PhaseState::Skipped <==> blocked(
            deps,
            states,
            j,
        ))
    &&& forall|j: int|
        0 <= j < states.len() && #[trigger] started(states, j) ==> dependencies_succeeded(
            deps,
            states,
            j,
        )
}

/// `walk` follows dependencies: each member depends on the next.
pub open spec fn is_walk(deps: Seq<Seq<usize>>, walk: Seq<usize>) -> bool {
    forall|i: int| 0 <= i < walk.len() - 1 ==> depends(deps, #[trigger] walk[i], walk[i + 1])
}

/// Every phase that depends, directly or through other phases, on a failed
/// phase is skipped.
pub proof fn lemma_dependents_of_failed_are_skipped(
    deps: Seq<Seq<usize>>,
    states: Seq<PhaseState>,
    walk: Seq<usize>,
    i: int,
)
    requires
        closed_graph(deps),
        consistent(deps, states),
        is_walk(deps, walk),
        0 <= i < walk.len() - 1,
        walk.last() < deps.len(),
        states[walk.last() as int] == PhaseState::Failed,
    ensures
        walk[i] < deps.len(),
        states[walk[i] as int] == PhaseState::Skipped,
    decreases walk.len() - i,
{
    let a = walk[i];
    let b = walk[i + 1];
    assert(depends(deps, a, b));
    let k = choose|k: int| 0 <= k < deps[a as int].len() && deps[a as int][k] == b;
    assert(deps[a as int][k] < deps.len());
    if i + 1 < walk.len() - 1 {
        lemma_dependents_of_failed_are_skipped(deps, states, walk, i + 1);
    }
    assert(blocked(deps, states, a as int));
}

/// `walk` leads from phase `j` along dependencies to a failed phase.
pub open spec fn leads_to_failure(
    deps: Seq<Seq<usize>>,
    states: Seq<PhaseState>,
    j: int,
    walk: Seq<usize>,
) -> bool {
    &&& walk.len() >= 2
    &&& walk[0] == j
    &&& is_walk(deps, walk)
    &&& walk.last() < states.len()
    &&& states[walk.last() as int] == PhaseState::Failed
}

/// A phase is skipped only if it depends, directly or through other
/// phases, on a failed phase: a phase with no path to a failed phase is
/// not skipped.
pub proof fn lemma_skipped_depends_on_failed(
    deps: Seq<Seq<usize>>,
    order: Seq<usize>,
    pos: Seq<usize>,
    states: Seq<PhaseState>,
    j: int,
)
    requires
        closed_graph(deps),
        topological(deps, order, pos),
        consistent(deps, states),
        0 <= j < states.len(),
        states[j] == PhaseState::Skipped,
    ensures
        exists|walk: Seq<usize>| leads_to_failure(deps, states, j, walk),
    decreases pos[j],
{
    assert(blocked(deps, states, j));
    let k = choose|k: int|
        0 <= k < deps[j].len() && (states[(#[trigger] deps[j][k]) as int] == PhaseState::Failed
            || states[deps[j][k] as int] == PhaseState::Skipped);
    let d = deps[j][k];
    assert(d < deps.len());
    assert(pos[d as int] < pos[j]);
    assert(deps[j].contains(d));
    if states[d as int] == PhaseState::Failed {
        let walk = seq![j as usize, d];
        assert(is_walk(deps, walk)) by {
            assert forall|i: int| 0 <= i < walk.len() - 1 implies depends(
                deps,
                #[trigger] walk[i],
                walk[i + 1],
            ) by {
                assert(i == 0);
            }
        }
        assert(leads_to_failure(deps, states, j, walk));
    } else {
        lemma_skipped_depends_on_failed(deps, order, pos, states, d as int);
        let rest = choose|walk: Seq<usize>| leads_to_failure(deps, states, d as int, walk);
        let walk = seq![j as usize] + rest;
        assert(is_walk(deps, walk)) by {
            assert forall|i: int| 0 <= i < walk.len() - 1 implies depends(
                deps,
                #[trigger] walk[i],
                walk[i + 1],
            ) by {
                if i == 0 {
                    assert(walk[1] == rest[0]);
                } else {
                    assert(walk[i] == rest[i - 1]);
                    assert(walk[i + 1] == rest[i]);
                    assert(depends(deps, rest[i - 1], rest[i]));
                }
            }
        }
        assert(walk.last() == rest.last());
        assert(leads_to_failure(deps, states, j, walk));
    }
}

/// Whether some phase listed in `row` has failed or is skipped.
fn any_failed_or_skipped(row: &Vec<usize>, states: &Vec<PhaseState>) -> (out: bool)
    requires
        forall|k: int| 0 <= k < row@.len() ==> (#[trigger] row@[k]) < states@.len(),
    ensures
        out == exists|k: int|
            0 <= k < row@.len() && (states@[(#[trigger] row@[k]) as int] == PhaseState::Failed
                || states@[row@[k] as int] == PhaseState::Skipped),
{
    let mut k: usize = 0;
    while k < row.len()
        invariant
            k <= row.len(),
            forall|i: int| 0 <= i < row@.len() ==> (#[trigger] row@[i]) < states@.len(),
            forall|i: int|
                0 <= i < k ==> states@[(#[trigger] row@[i]) as int] != PhaseState::Failed
                    && states@[row@[i] as int] != PhaseState::Skipped,
        decreases row.len() - k,
    {
        let st: PhaseState = states[row[k]];
        if st == PhaseState::Failed || st == PhaseState::Skipped {
            return true;
        }
        k += 1;
    }
    false
}

/// Whether every phase listed in `row` has succeeded.
fn all_succeeded(row: &Vec<usize>, states: &Vec<PhaseState>) -> (out: bool)
    requires
        forall|k: int| 0 <= k < row@.len() ==> (#[trigger] row@[k]) < states@.len(),
    ensures
        out == forall|k: int|
            0 <= k < row@.len() ==> states@[(#[trigger] row@[k]) as int] == PhaseState::Succeeded,
{
    let mut k: usize = 0;
    while k < row.len()
        invariant
            k <= row.len(),
            forall|i: int| 0 <= i < row@.len() ==> (#[trigger] row@[i]) < states@.len(),
            forall|i: int|
                0 <= i < k ==> states@[(#[trigger] row@[i]) as int] == PhaseState::Succeeded,
        decreases row.len() - k,
    {
        if states[row[k]] != PhaseState::Succeeded {
            return false;
        }
        k += 1;
    }
    true
}

/// A run through a schedule.
pub struct Run {
    states: Vec<PhaseState>,
}

impl Run {
    /// The state of each phase, by index.
    pub closed spec fn states(&self) -> Seq<PhaseState> {
        self.states@
    }

    /// The run belongs to the schedule and its states fit the dependencies.
    pub open spec fn fits(&self, schedule: &Schedule) -> bool {
        schedule.wf() && consistent(schedule.deps(), self.states())
    }

    /// A run in which every phase waits.
    pub fn new(schedule: &Schedule) -> (out: Run)
        requires
            schedule.wf(),
        ensures
            out.fits(schedule),
            out.states().len() == schedule.phases().len(),
            forall|j: int| 0 <= j < out.states().len() ==> out.states()[j] == PhaseState::Pending,
    {
        let n: usize = schedule.len();
        let mut states: Vec<PhaseState> = Vec::new();
        while states.len() < n
            invariant
                states@.len() <= n,
                forall|j: int| 0 <= j < states@.len() ==> states@[j] == PhaseState::Pending,
            decreases n - states.len(),
        {
            states.push(PhaseState::Pending);
        }
        proof {
            let deps = schedule.deps();
            assert forall|j: int| 0 <= j < states@.len() implies ((#[trigger] states@[j])
                == PhaseState::Skipped <==> blocked(deps, states@, j)) by {
                if blocked(deps, states@, j) {
                    let k = choose|k: int|
                        0 <= k < deps[j].len() && (states@[(#[trigger] deps[j][k]) as int]
                            == PhaseState::Failed || states@[deps[j][k] as int]
                            == PhaseState::Skipped);
                    assert(deps[j][k] < deps.len());
                }
            }
        }
        Run { states }
    }

    /// The state of phase `j`.
    pub fn state(&self, j: usize) -> (out: PhaseState)
        requires
            j < self.states().len(),
        ensures
            out == self.states()[j as int],
    {
        self.states[j]
    }

    /// The state of each phase, by index.
    pub fn snapshot(&self) -> (out: Vec<PhaseState>)
        ensures
            out@ == self.states(),
    {
        let mut out: Vec<PhaseState> = Vec::new();
        let mut j: usize = 0;
        while j < self.states.len()
            invariant
                j <= self.states@.len(),
                out@ == self.states@.subrange(0, j as int),
            decreases self.states.len() - j,
        {
            out.push(self.states[j]);
            j += 1;
            assert(out@ =~= self.states@.subrange(0, j as int));
        }
        assert(self.states@.subrange(0, self.states@.len() as int) =~= self.states@);
        out
    }

    /// The next phase to start: the first in running order that waits with
    /// all its dependencies succeeded. `None` when no phase can start.
    pub fn next(&self, schedule: &Schedule) -> (out: Option<usize>)
        requires
            self.fits(schedule),
        ensures
            match out {
                Some(j) => startable(schedule.deps(), self.states(), j as int) && forall|p: int|
                    0 <= p < schedule.positions()[j as int] ==> !startable(
                        schedule.deps(),
                        self.states(),
                        (#[trigger] schedule.order()[p]) as int,
                    ),
                None => forall|j: int| !startable(schedule.deps(), self.states(), j),
            },
    {
        let order = schedule.running_order();
        let ghost deps = schedule.deps();
        let ghost pos = schedule.positions();
        let mut p: usize = 0;
        while p < order.len()
            invariant
                self.fits(schedule),
                order@ == schedule.order(),
                deps == schedule.deps(),
                pos == schedule.positions(),
                p <= order@.len(),
                forall|q: int|
                    0 <= q < p ==> !startable(deps, self.states@, (#[trigger] order@[q]) as int),
            decreases order.len() - p,
        {
            let j: usize = order[p];
            assert(j < deps.len());
            assert(pos[order@[p as int] as int] == p);
            if self.states[j] == PhaseState::Pending {
                let row = schedule.dependencies(j);
                assert forall|k: int| 0 <= k < row@.len() implies (#[trigger] row@[k])
                    < self.states@.len() by {
                    assert(deps[j as int][k] < deps.len());
                }
                if all_succeeded(row, &self.states) {
                    return Some(j);
                }
            }
            p += 1;
        }
        proof {
            assert forall|j: int| !startable(deps, self.states@, j) by {
                if 0 <= j < self.states@.len() {
                    let q = pos[j];
                    assert(order@[q as int] == j);
                    assert(!startable(deps, self.states@, order@[q as int] as int));
                }
            }
        }
        None
    }

    /// Starts phase `j` if it waits and all its dependencies have succeeded;
    /// says whether it did.
    pub fn start(&mut self, schedule: &Schedule, j: usize) -> (out: bool)
        requires
            old(self).fits(schedule),
        ensures
            final(self).fits(schedule),
            out == startable(schedule.deps(), old(self).states(), j as int),
            out ==> final(self).states() == old(self).states().update(
                j as int,
                PhaseState::Running,
            ),
            !out ==> final(self).states() == old(self).states(),
    {
        if j >= self.states.len() {
            return false;
        }
        if self.states[j] != PhaseState::Pending {
            return false;
        }
        let ghost deps = schedule.deps();
        let row = schedule.dependencies(j);
        assert forall|k: int| 0 <= k < row@.len() implies (#[trigger] row@[k])
            < self.states@.len() by {
            assert(deps[j as int][k] < deps.len());
        }
        if !all_succeeded(row, &self.states) {
            return false;
        }
        let ghost before = self.states@;
        self.states.set(j, PhaseState::Running);
        proof {
            let after = self.states@;
            assert forall|i: int| 0 <= i < after.len() implies (blocked(deps, after, i)
                <==> blocked(deps, before, i)) by {
                if blocked(deps, after, i) {
                    let k = choose|k: int|
                        0 <= k < deps[i].len() && (after[(#[trigger] deps[i][k]) as int]
                            == PhaseState::Failed || after[deps[i][k] as int]
                            == PhaseState::Skipped);
                    assert(deps[i][k] < deps.len());
                    assert(before[deps[i][k] as int] == after[deps[i][k] as int]);
                }
                if blocked(deps, before, i) {
                    let k = choose|k: int|
                        0 <= k < deps[i].len() && (before[(#[trigger] deps[i][k]) as int]
                            == PhaseState::Failed || before[deps[i][k] as int]
                            == PhaseState::Skipped);
                    assert(deps[i][k] < deps.len());
                    assert(before[deps[i][k] as int] == after[deps[i][k] as int]);
                }
            }
            assert forall|i: int| 0 <= i < after.len() && #[trigger] started(after, i)
                implies dependencies_succeeded(deps, after, i) by {
                if i != j {
                    assert(started(before, i));
                }
                assert forall|k: int| 0 <= k < deps[i].len() implies after[(
                #[trigger] deps[i][k]) as int] == PhaseState::Succeeded by {
                    assert(deps[i][k] < deps.len());
                    assert(before[deps[i][k] as int] == PhaseState::Succeeded);
                }
            }
            assert forall|i: int| 0 <= i < after.len() implies ((#[trigger] after[i])
                == PhaseState::Skipped <==> blocked(deps, after, i)) by {
                assert(before[i] == PhaseState::Skipped <==> blocked(deps, before, i));
            }
        }
        true
    }
}

/// Blocking is decided by the states of the dependencies alone.
proof fn lemma_blocked_by_dependencies(
    deps: Seq<Seq<usize>>,
    a: Seq<PhaseState>,
    b: Seq<PhaseState>,
    i: int,
)
    requires
        closed_graph(deps),
        a.len() == deps.len(),
        b.len() == deps.len(),
        0 <= i < deps.len(),
        forall|k: int|
            0 <= k < deps[i].len() ==> {
                let d = (#[trigger] deps[i][k]) as int;
                (a[d] == PhaseState::Failed || a[d] == PhaseState::Skipped) <==> (b[d]
                    == PhaseState::Failed || b[d] == PhaseState::Skipped)
            },
    ensures
        blocked(deps, a, i) <==> blocked(deps, b, i),
{
    if blocked(deps, a, i) {
        let k = choose|k: int|
            0 <= k < deps[i].len() && (a[(#[trigger] deps[i][k]) as int] == PhaseState::Failed
                || a[deps[i][k] as int] == PhaseState::Skipped);
        assert(deps[i][k] < deps.len());
    }
    if blocked(deps, b, i) {
        let k = choose|k: int|
            0 <= k < deps[i].len() && (b[(#[trigger] deps[i][k]) as int] == PhaseState::Failed
                || b[deps[i][k] as int] == PhaseState::Skipped);
        assert(deps[i][k] < deps.len());
    }
}

impl Run {
    /// Records how the running phase `j` ended; says whether `j` was running.
    ///
    /// On failure every waiting phase that depends on `j`, directly or
    /// through other phases, becomes skipped; no other state changes.
    pub fn finish(&mut self, schedule: &Schedule, j: usize, succeeded: bool) -> (out: bool)
        requires
            old(self).fits(schedule),
        ensures
            final(self).fits(schedule),
            out == (j < old(self).states().len() && old(self).states()[j as int]
                == PhaseState::Running),
            !out ==> final(self).states() == old(self).states(),
            out && succeeded ==> final(self).states() == old(self).states().update(
                j as int,
                PhaseState::Succeeded,
            ),
            out && !succeeded ==> final(self).states()[j as int] == PhaseState::Failed
                && forall|i: int|
                0 <= i < old(self).states().len() && i != j ==> (#[trigger] final(self).states()[i])
                    == old(self).states()[i] || (old(self).states()[i] == PhaseState::Pending
                    && final(self).states()[i] == PhaseState::Skipped),
    {
        if j >= self.states.len() {
            return false;
        }
        if self.states[j] != PhaseState::Running {
            return false;
        }
        let ghost deps = schedule.deps();
        let ghost pos = schedule.positions();
        let ghost before = self.states@;
        if succeeded {
            self.states.set(j, PhaseState::Succeeded);
            proof {
                let after = self.states@;
                assert forall|i: int| 0 <= i < after.len() implies ((#[trigger] after[i])
                    == PhaseState::Skipped <==> blocked(deps, after, i)) by {
                    lemma_blocked_by_dependencies(deps, before, after, i);
                    assert(before[i] == PhaseState::Skipped <==> blocked(deps, before, i));
                }
                assert forall|i: int| 0 <= i < after.len() && #[trigger] started(after, i)
                    implies dependencies_succeeded(deps, after, i) by {
                    assert(started(before, i));
                    assert forall|k: int| 0 <= k < deps[i].len() implies after[(
                    #[trigger] deps[i][k]) as int] == PhaseState::Succeeded by {
                        assert(deps[i][k] < deps.len());
                        assert(before[deps[i][k] as int] == PhaseState::Succeeded);
                    }
                }
            }
            return true;
        }
        self.states.set(j, PhaseState::Failed);
        let ghost marked = self.states@;
        let order = schedule.running_order();
        let n: usize = order.len();
        let mut p: usize = 0;
        while p < n
            invariant
                schedule.wf(),
                consistent(deps, before),
                deps == schedule.deps(),
                pos == schedule.positions(),
                order@ == schedule.order(),
                n == order@.len(),
                p <= n,
                j < before.len(),
                before[j as int] == PhaseState::Running,
                marked == before.update(j as int, PhaseState::Failed),
                self.states@.len() == marked.len(),
                forall|i: int|
                    0 <= i < marked.len() ==> (#[trigger] self.states@[i]) == marked[i] || (
                    marked[i] == PhaseState::Pending && self.states@[i] == PhaseState::Skipped),
                forall|i: int|
                    0 <= i < marked.len() && pos[i] >= p ==> (#[trigger] self.states@[i])
                        == marked[i],
                forall|i: int|
                    0 <= i < marked.len() && pos[i] < p ==> ((#[trigger] self.states@[i])
                        == PhaseState::Skipped <==> blocked(deps, self.states@, i)),
            decreases n - p,
        {
            let i: usize = order[p];
            let ghost cur = self.states@;
            assert(i < deps.len());
            assert(pos[order@[p as int] as int] == p);
            let row = schedule.dependencies(i);
            assert forall|k: int| 0 <= k < row@.len() implies (#[trigger] row@[k])
                < self.states@.len() by {
                assert(deps[i as int][k] < deps.len());
            }
            if self.states[i] == PhaseState::Pending {
                let is_blocked: bool = any_failed_or_skipped(row, &self.states);
                assert(is_blocked == blocked(deps, cur, i as int));
                if is_blocked {
                    self.states.set(i, PhaseState::Skipped);
                }
            } else {
                proof {
                    assert(cur[i as int] == marked[i as int]);
                    if marked[i as int] == PhaseState::Skipped {
                        assert(before[i as int] == PhaseState::Skipped);
                        assert(blocked(deps, before, i as int));
                        let k = choose|k: int|
                            0 <= k < deps[i as int].len() && (before[(
                            #[trigger] deps[i as int][k]) as int] == PhaseState::Failed
                                || before[deps[i as int][k] as int] == PhaseState::Skipped);
                        let d = deps[i as int][k] as int;
                        assert(d < deps.len());
                        assert(cur[d] == marked[d]);
                        assert(blocked(deps, cur, i as int));
                    } else {
                        assert(started(before, i as int));
                        assert(dependencies_succeeded(deps, before, i as int));
                        if blocked(deps, cur, i as int) {
                            let k = choose|k: int|
                                0 <= k < deps[i as int].len() && (cur[(
                                #[trigger] deps[i as int][k]) as int] == PhaseState::Failed
                                    || cur[deps[i as int][k] as int] == PhaseState::Skipped);
                            let d = deps[i as int][k] as int;
                            assert(d < deps.len());
                            assert(before[d] == PhaseState::Succeeded);
                            assert(cur[d] == marked[d]);
                        }
                    }
                }
            }
            proof {
                let now = self.states@;
                assert forall|a: int| 0 <= a < marked.len() && pos[a] < p + 1 implies ((
                #[trigger] now[a]) == PhaseState::Skipped <==> blocked(deps, now, a)) by {
                    assert forall|k: int| 0 <= k < deps[a].len() implies {
                        let d = (#[trigger] deps[a][k]) as int;
                        (cur[d] == PhaseState::Failed || cur[d] == PhaseState::Skipped) <==> (
                        now[d] == PhaseState::Failed || now[d] == PhaseState::Skipped)
                    } by {
                        let d = deps[a][k] as int;
                        assert(d < deps.len());
                        assert(pos[d] < pos[a]);
                        assert(d != i);
                    }
                    lemma_blocked_by_dependencies(deps, cur, now, a);
                    if a != i {
                        assert(pos[a] != p) by {
                            assert(order@[pos[a] as int] == a);
                        }
                        assert(now[a] == cur[a]);
                    }
                }
                assert forall|a: int| 0 <= a < marked.len() && pos[a] >= p + 1 implies (
                #[trigger] now[a]) == marked[a] by {
                    assert(a != i);
                    assert(cur[a] == marked[a]);
                }
            }
            p += 1;
        }
        proof {
            let after = self.states@;
            assert forall|i: int| 0 <= i < after.len() implies ((#[trigger] after[i])
                == PhaseState::Skipped <==> blocked(deps, after, i)) by {
                assert(pos[i] < n);
            }
            assert forall|i: int| 0 <= i < after.len() && #[trigger] started(after, i)
                implies dependencies_succeeded(deps, after, i) by {
                assert(after[i] == marked[i]);
                assert(started(before, i));
                assert forall|k: int| 0 <= k < deps[i].len() implies after[(
                #[trigger] deps[i][k]) as int] == PhaseState::Succeeded by {
                    let d = deps[i][k] as int;
                    assert(d < deps.len());
                    assert(before[d] == PhaseState::Succeeded);
                    assert(after[d] == marked[d]);
                }
            }
        }
        true
    }

    /// Whether every phase has reached a final state.
    pub fn is_settled(&self) -> (out: bool)
        ensures
            out == forall|j: int|
                0 <= j < self.states().len() ==> (#[trigger] self.states()[j])
                    != PhaseState::Pending && self.states()[j] != PhaseState::Running,
    {
        let mut j: usize = 0;
        while j < self.states.len()
            invariant
                j <= self.states@.len(),
                forall|i: int|
                    0 <= i < j ==> (#[trigger] self.states@[i]) != PhaseState::Pending
                        && self.states@[i] != PhaseState::Running,
            decreases self.states.len() - j,
        {
            let st: PhaseState = self.states[j];
            if st == PhaseState::Pending || st == PhaseState::Running {
                return false;
            }
            j += 1;
        }
        true
    }

    /// Whether the run as a whole succeeded: every phase has.
    pub fn succeeded(&self) -> (out: bool)
        ensures
            out == forall|j: int|
                0 <= j < self.states().len() ==> (#[trigger] self.states()[j])
                    == PhaseState::Succeeded,
    {
        let mut j: usize = 0;
        while j < self.states.len()
            invariant
                j <= self.states@.len(),
                forall|i: int| 0 <= i < j ==> (#[trigger] self.states@[i]) == PhaseState::Succeeded,
            decreases self.states.len() - j,
        {
            if self.states[j] != PhaseState::Succeeded {
                return false;
            }
            j += 1;
        }
        true
    }
}

} // verus!
