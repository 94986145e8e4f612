//! The lifecycle: named phases with dependencies, loaded into a schedule
//! that fixes the order in which they run.

use vstd::prelude::*;
use crate::text::views;
use crate::text::is_first_named;
use crate::text::index_named;
use crate::text::lemma_first_named_unique;
use crate::graph::closed_graph;
use crate::graph::running_order;
use crate::graph::topological;
use crate::graph::is_cycle;
use crate::graph::distinct;
use crate::graph::is_reported_cycle;
use crate::graph::placed_in_order;
use crate::graph::place_nodes;
use crate::graph::find_cycle;
use crate::graph::lemma_order_excludes_cycle;
use crate::graph::Placement;

verus! {

/// What a phase does when it runs.
#[derive(Debug, Clone, Copy, PartialEq, Eq, Structural)]
pub enum Action {
    Init,
    Setup,
    Generate,
    Build,
    Test,
    Deploy,
}

/// A named unit of the lifecycle. A `Generate` phase renders its templates,
/// given here as raw template texts, in the order listed.
#[derive(Debug)]
pub struct Phase {
    pub name: String,
    pub depends_on: Vec<String>,
    pub action: Action,
    pub templates: Vec<String>,
}

/// Why a set of phases is no schedule.
#[derive(Debug)]
pub enum SchedulerError {
    /// The phases named depend on one another in a circle: each on the
    /// next, the last on the first.
    CyclicDependency { members: Vec<String> },
    /// `phase` depends on `reference`, which no phase is called.
    UnknownPhase { phase: String, reference: String },
}

/// The names of the phases, in declaration order.
pub open spec fn names(phases: Seq<Phase>) -> Seq<Seq<char>> {
    Seq::new(phases.len(), |i: int| phases[i].name@)
}

/// The `k`-th dependency of phase `i` names no phase.
pub open spec fn unresolved(phases: Seq<Phase>, i: int, k: int) -> bool {
    &&& 0 <= i < phases.len()
    &&& 0 <= k < phases[i].depends_on@.len()
    &&& !names(phases).contains(phases[i].depends_on@[k]@)
}

/// Some dependency names no phase.
pub open spec fn has_unresolved(phases: Seq<Phase>) -> bool {
    exists|i: int, k: int| unresolved(phases, i, k)
}

/// The first dependency, in reading order, that names no phase.
pub open spec fn first_unresolved(phases: Seq<Phase>, i: int, k: int) -> bool {
    &&& unresolved(phases, i, k)
    &&& forall|i2: int, k2: int| #[trigger]
        unresolved(phases, i2, k2) ==> i < i2 || (i == i2 && k <= k2)
}

/// The dependency graph of the phases: each dependency name replaced by the
/// index of the first phase of that name.
pub open spec fn resolved(phases: Seq<Phase>) -> Seq<Seq<usize>> {
    Seq::new(
        phases.len(),
        |i: int|
            Seq::new(
                phases[i].depends_on@.len(),
                |k: int| index_named(names(phases), phases[i].depends_on@[k]@) as usize,
            ),
    )
}

/// The index of the first phase called `name`.
pub fn find_phase(phases: &Vec<Phase>, name: &String) -> (out: Option<usize>)
    ensures
        match out {
            Some(i) => is_first_named(names(phases@), name@, i as int) && i == index_named(
                names(phases@),
                name@,
            ),
            None => !names(phases@).contains(name@),
        },
{
    let ghost ns = names(phases@);
    let mut i: usize = 0;
    while i < phases.len()
        invariant
            i <= phases.len(),
            ns == names(phases@),
            forall|j: int| 0 <= j < i ==> ns[j] != name@,
        decreases phases.len() - i,
    {
        if phases[i].name == *name {
            proof {
                lemma_first_named_unique(ns, name@, i as int);
            }
            return Some(i);
        }
        i += 1;
    }
    None
}

/// Phases whose dependency names are resolved and whose running order is
/// fixed.
pub struct Schedule {
    phases: Vec<Phase>,
    deps: Vec<Vec<usize>>,
    order: Vec<usize>,
    pos: Vec<usize>,
}

/// The names of the phases with the given indices.
pub open spec fn names_at(phases: Seq<Phase>, indices: Seq<usize>) -> Seq<Seq<char>> {
    Seq::new(indices.len(), |i: int| phases[indices[i] as int].name@)
}

fn names_of(phases: &Vec<Phase>, indices: &Vec<usize>) -> (out: Vec<String>)
    requires
        forall|i: int| 0 <= i < indices@.len() ==> (#[trigger] indices@[i]) < phases@.len(),
    ensures
        views(out@) == names_at(phases@, indices@),
{
    let mut out: Vec<String> = Vec::new();
    let mut i: usize = 0;
    while i < indices.len()
        invariant
            i <= indices.len(),
            forall|j: int| 0 <= j < indices@.len() ==> (#[trigger] indices@[j]) < phases@.len(),
            out@.len() == i,
            forall|j: int| 0 <= j < i ==> (#[trigger] out@[j])@ == phases@[indices@[j] as int].name@,
        decreases indices.len() - i,
    {
        out.push(phases[indices[i]].name.clone());
        i += 1;
    }
    assert(views(out@) =~= names_at(phases@, indices@));
    out
}

/// Resolves the dependency names of phase `i`; on failure, the index of the
/// first name that no phase bears.
fn resolve_row(phases: &Vec<Phase>, i: usize) -> (out: Result<Vec<usize>, usize>)
    requires
        i < phases@.len(),
    ensures
        match out {
            Ok(row) => row@ == resolved(phases@)[i as int] && (forall|k: int|
                0 <= k < row@.len() ==> (#[trigger] row@[k]) < phases@.len()) && forall|k: int|
                !unresolved(phases@, i as int, k),
            Err(k) => unresolved(phases@, i as int, k as int) && forall|k2: int|
                0 <= k2 < k ==> !unresolved(phases@, i as int, k2),
        },
{
    let mut row: Vec<usize> = Vec::new();
    let mut k: usize = 0;
    let wanted = &phases[i].depends_on;
    while k < wanted.len()
        invariant
            i < phases@.len(),
            wanted@ == phases@[i as int].depends_on@,
            k <= wanted@.len(),
            row@.len() == k,
            forall|j: int| 0 <= j < k ==> (#[trigger] row@[j]) == resolved(phases@)[i as int][j],
            forall|j: int| 0 <= j < k ==> (#[trigger] row@[j]) < phases@.len(),
            forall|j: int| 0 <= j < k ==> !unresolved(phases@, i as int, j),
        decreases wanted.len() - k,
    {
        match find_phase(phases, &wanted[k]) {
            Some(j) => {
                assert(names(phases@)[j as int] == wanted@[k as int]@);
                assert(names(phases@).contains(wanted@[k as int]@));
                row.push(j);
            },
            None => {
                return Err(k);
            },
        }
        k += 1;
    }
    assert(row@ =~= resolved(phases@)[i as int]);
    Ok(row)
}

impl Schedule {
    /// The phases, in declaration order.
    pub closed spec fn phases(&self) -> Seq<Phase> {
        self.phases@
    }

    /// The dependency graph: for each phase the indices it depends on.
    pub closed spec fn deps(&self) -> Seq<Seq<usize>> {
        views(self.deps@)
    }

    /// The indices of the phases in running order.
    pub closed spec fn order(&self) -> Seq<usize> {
        self.order@
    }

    /// For each phase, its place in the running order.
    pub closed spec fn positions(&self) -> Seq<usize> {
        self.pos@
    }

    /// Every dependency names a phase, and the order is the running order
    /// of the dependency graph and holds every phase.
    pub open spec fn wf(&self) -> bool {
        &&& !has_unresolved(self.phases())
        &&& self.deps() == resolved(self.phases())
        &&& closed_graph(self.deps())
        &&& self.order() == running_order(self.deps())
        &&& topological(self.deps(), self.order(), self.positions())
    }

    /// Builds the schedule of the given phases.
    ///
    /// Fails with `UnknownPhase` for the first dependency, in reading order,
    /// that names no phase; otherwise with `CyclicDependency`, exactly
    /// when the dependencies hold a cycle. The members named are those of
    /// the cycle that is reached from the first phase that cannot run by
    /// going, from each phase, to its first dependency that cannot run;
    /// each is named once and is followed by a phase that it depends on.
    pub fn load(phases: Vec<Phase>) -> (out: Result<Schedule, SchedulerError>)
        ensures
            match out {
                Ok(s) => s.wf() && s.phases() == phases@,
                Err(SchedulerError::UnknownPhase { phase, reference }) => exists|i: int, k: int|
                    #![trigger unresolved(phases@, i, k)]
                    first_unresolved(phases@, i, k) && phase@ == phases@[i].name@ && reference@
                        == phases@[i].depends_on@[k]@,
                Err(SchedulerError::CyclicDependency { members }) => !has_unresolved(phases@)
                    && exists|cycle: Seq<usize>| #[trigger]
                    is_cycle(resolved(phases@), cycle) && distinct(cycle) && is_reported_cycle(
                        resolved(phases@),
                        placed_in_order(resolved(phases@)),
                        cycle,
                    ) && views(members@) == names_at(phases@, cycle),
            },
            out is Ok ==> forall|cycle: Seq<usize>| !is_cycle(resolved(phases@), cycle),
            out is Ok <==> !has_unresolved(phases@) && running_order(resolved(phases@)).len()
                == phases@.len(),
    {
        let n: usize = phases.len();
        let mut deps: Vec<Vec<usize>> = Vec::new();
        let mut i: usize = 0;
        while i < n
            invariant
                n == phases@.len(),
                i <= n,
                deps@.len() == i,
                forall|j: int| 0 <= j < i ==> (#[trigger] deps@[j])@ == resolved(phases@)[j],
                forall|j: int, k: int|
                    0 <= j < i && 0 <= k < deps@[j]@.len() ==> (#[trigger] deps@[j]@[k]) < n,
                forall|j: int, k: int| 0 <= j < i ==> !unresolved(phases@, j, k),
            decreases n - i,
        {
            match resolve_row(&phases, i) {
                Ok(row) => {
                    deps.push(row);
                },
                Err(k) => {
                    let phase = phases[i].name.clone();
                    let reference = phases[i].depends_on[k].clone();
                    proof {
                        assert(first_unresolved(phases@, i as int, k as int)) by {
                            assert forall|i2: int, k2: int| #[trigger]
                                unresolved(phases@, i2, k2) implies i < i2 || (i == i2 && k
                                <= k2) by {
                                if i2 < i {
                                    assert(!unresolved(phases@, i2, k2));
                                }
                            }
                        }
                        assert(has_unresolved(phases@));
                    }
                    return Err(SchedulerError::UnknownPhase { phase, reference });
                },
            }
            i += 1;
        }
        assert(views(deps@) =~= resolved(phases@));
        assert(!has_unresolved(phases@)) by {
            assert forall|i2: int, k2: int| !unresolved(phases@, i2, k2) by {
                if 0 <= i2 < n {
                    assert(!unresolved(phases@, i2, k2));
                }
            }
        }
        assert(closed_graph(views(deps@))) by {
            assert forall|j: int, k: int|
                0 <= j < views(deps@).len() && 0 <= k < views(deps@)[j].len() implies (
            #[trigger] views(deps@)[j][k]) < views(deps@).len() by {
                assert(deps@[j]@[k] < n);
            }
        }
        let placement: Placement = place_nodes(&deps);
        if placement.order.len() == n {
            proof {
                assert forall|cycle: Seq<usize>| !is_cycle(resolved(phases@), cycle) by {
                    lemma_order_excludes_cycle(
                        views(deps@),
                        placement.order@,
                        placement.pos@,
                        cycle,
                    );
                }
            }
            Ok(Schedule { phases, deps, order: placement.order, pos: placement.pos })
        } else {
            let cycle: Vec<usize> = find_cycle(&deps, &placement.pos);
            let members: Vec<String> = names_of(&phases, &cycle);
            Err(SchedulerError::CyclicDependency { members })
        }
    }
}

/// Phases whose dependencies hold a cycle are no schedule: the load fails
/// with `CyclicDependency`.
pub proof fn lemma_cycle_is_rejected(
    phases: Vec<Phase>,
    out: Result<Schedule, SchedulerError>,
    cycle: Seq<usize>,
)
    requires
        call_ensures(Schedule::load, (phases,), out),
        !has_unresolved(phases@),
        is_cycle(resolved(phases@), cycle),
    ensures
        out matches Err(SchedulerError::CyclicDependency { .. }),
{
    if out.is_ok() {
        assert(!is_cycle(resolved(phases@), cycle));
    }
}

impl Schedule {
    /// The number of phases.
    pub fn len(&self) -> (out: usize)
        requires
            self.wf(),
        ensures
            out == self.phases().len(),
            out == self.deps().len(),
    {
        self.phases.len()
    }

    /// The phase with index `i`.
    pub fn phase(&self, i: usize) -> (out: &Phase)
        requires
            i < self.phases().len(),
        ensures
            *out == self.phases()[i as int],
    {
        &self.phases[i]
    }

    /// The indices that phase `i` depends on.
    pub fn dependencies(&self, i: usize) -> (out: &Vec<usize>)
        requires
            self.wf(),
            i < self.phases().len(),
        ensures
            out@ == self.deps()[i as int],
    {
        &self.deps[i]
    }

    /// The indices of the phases in running order.
    pub fn running_order(&self) -> (out: &Vec<usize>)
        ensures
            out@ == self.order(),
    {
        &self.order
    }

    /// The names of the phases in running order.
    pub fn ordered_names(&self) -> (out: Vec<String>)
        requires
            self.wf(),
        ensures
            views(out@) == names_at(self.phases(), self.order()),
    {
        names_of(&self.phases, &self.order)
    }
}

} // verus!
