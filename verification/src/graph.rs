//! Dependency graphs over indices: the order in which their nodes can run,
//! and the cycles that forbid any such order.
//!
//! Node `j` of a graph `deps` depends on the nodes listed in `deps[j]`.

use vstd::prelude::*;
use crate::text::views;

verus! {

/// Every listed dependency is a node of the graph.
pub open spec fn closed_graph(deps: Seq<Seq<usize>>) -> bool {
    forall|j: int, k: int|
        0 <= j < deps.len() && 0 <= k < deps[j].len() ==> (#[trigger] deps[j][k]) < deps.len()
}

/// Node `j` is not placed yet and all its dependencies are.
pub open spec fn ready(deps: Seq<Seq<usize>>, placed: Seq<bool>, j: int) -> bool {
    &&& 0 <= j < deps.len()
    &&& !placed[j]
    &&& forall|k: int| 0 <= k < deps[j].len() ==> placed[(#[trigger] deps[j][k]) as int]
}

/// Node `j` is the ready node with the least index.
pub open spec fn least_ready(deps: Seq<Seq<usize>>, placed: Seq<bool>, j: int) -> bool {
    &&& ready(deps, placed, j)
    &&& forall|i: int| 0 <= i < j ==> !ready(deps, placed, i)
}

/// The ready node with the least index, if any node is ready.
pub open spec fn first_ready(deps: Seq<Seq<usize>>, placed: Seq<bool>) -> Option<int> {
    if exists|j: int| least_ready(deps, placed, j) {
        Some(choose|j: int| least_ready(deps, placed, j))
    } else {
        None
    }
}

/// The nodes placed from a given state on, one at a time, always the ready
/// node with the least index, for at most `steps` steps.
pub open spec fn order_from(deps: Seq<Seq<usize>>, placed: Seq<bool>, steps: nat) -> Seq<usize>
    decreases steps,
{
    if steps == 0 {
        Seq::empty()
    } else {
        match first_ready(deps, placed) {
            None => Seq::empty(),
            Some(j) => seq![j as usize] + order_from(
                deps,
                placed.update(j, true),
                (steps - 1) as nat,
            ),
        }
    }
}

/// The running order of a graph: dependencies first, and among the nodes
/// that could run next the one declared first. It holds every node exactly
/// when the graph has no cycle.
pub open spec fn running_order(deps: Seq<Seq<usize>>) -> Seq<usize> {
    order_from(deps, Seq::new(deps.len(), |j: int| false), deps.len())
}

/// `order` lists every node once, `pos` inverts it, and every node comes
/// after its dependencies.
pub open spec fn topological(deps: Seq<Seq<usize>>, order: Seq<usize>, pos: Seq<usize>) -> bool {
    &&& order.len() == deps.len()
    &&& pos.len() == deps.len()
    &&& forall|p: int| 0 <= p < order.len() ==> (#[trigger] order[p]) < deps.len()
    &&& forall|p: int| 0 <= p < order.len() ==> pos[(#[trigger] order[p]) as int] == p
    &&& forall|j: int| 0 <= j < pos.len() ==> (#[trigger] pos[j]) < order.len()
    &&& forall|j: int| 0 <= j < pos.len() ==> order[(#[trigger] pos[j]) as int] == j
    &&& forall|j: int, k: int|
        0 <= j < deps.len() && 0 <= k < deps[j].len() ==> pos[(#[trigger] deps[j][k]) as int]
            < pos[j]
}

/// Node `a` lists node `b` among its dependencies.
pub open spec fn depends(deps: Seq<Seq<usize>>, a: usize, b: usize) -> bool {
    a < deps.len() && deps[a as int].contains(b)
}

/// `cycle` is a closed walk along dependencies: each member depends on the
/// next, and the last on the first.
pub open spec fn is_cycle(deps: Seq<Seq<usize>>, cycle: Seq<usize>) -> bool {
    &&& cycle.len() > 0
    &&& forall|i: int| 0 <= i < cycle.len() - 1 ==> depends(deps, #[trigger] cycle[i], cycle[i + 1])
    &&& depends(deps, cycle.last(), cycle[0])
}

/// No node occurs twice.
pub open spec fn distinct(nodes: Seq<usize>) -> bool {
    forall|a: int, b: int| 0 <= a < b < nodes.len() ==> nodes[a] != nodes[b]
}

/// A graph with a topological order has no cycle.
pub proof fn lemma_order_excludes_cycle(
    deps: Seq<Seq<usize>>,
    order: Seq<usize>,
    pos: Seq<usize>,
    cycle: Seq<usize>,
)
    requires
        topological(deps, order, pos),
    ensures
        !is_cycle(deps, cycle),
{
    if is_cycle(deps, cycle) {
        lemma_walk_descends(deps, order, pos, cycle, cycle.len() - 1);
        let last = cycle.last();
        let first = cycle[0];
        let k = choose|k: int| 0 <= k < deps[last as int].len() && deps[last as int][k] == first;
        assert(pos[deps[last as int][k] as int] < pos[last as int]);
    }
}

/// Along a dependency walk the positions never rise.
proof fn lemma_walk_descends(
    deps: Seq<Seq<usize>>,
    order: Seq<usize>,
    pos: Seq<usize>,
    cycle: Seq<usize>,
    i: int,
)
    requires
        topological(deps, order, pos),
        is_cycle(deps, cycle),
        0 <= i < cycle.len(),
    ensures
        cycle[i] < deps.len(),
        pos[cycle[i] as int] <= pos[cycle[0] as int],
    decreases i,
{
    if i == 0 {
        if cycle.len() == 1 {
            assert(depends(deps, cycle.last(), cycle[0]));
        } else {
            assert(depends(deps, cycle[0], cycle[1]));
        }
    } else {
        lemma_walk_descends(deps, order, pos, cycle, i - 1);
        let a = cycle[i - 1];
        let b = cycle[i];
        assert(depends(deps, a, b));
        let k = choose|k: int| 0 <= k < deps[a as int].len() && deps[a as int][k] == b;
        assert(pos[deps[a as int][k] as int] < pos[a as int]);
        if i == cycle.len() - 1 {
            assert(depends(deps, cycle.last(), cycle[0]));
        } else {
            assert(depends(deps, cycle[i], cycle[i + 1]));
        }
    }
}

/// Which nodes a position table has placed: those whose position is below
/// the number of nodes.
pub open spec fn placed_of(pos: Seq<usize>) -> Seq<bool> {
    Seq::new(pos.len(), |j: int| pos[j] < pos.len())
}

/// How many nodes are placed.
pub open spec fn count_placed(placed: Seq<bool>) -> nat
    decreases placed.len(),
{
    if placed.len() == 0 {
        0
    } else {
        count_placed(placed.drop_last()) + if placed.last() {
            1nat
        } else {
            0nat
        }
    }
}

proof fn lemma_count_bound(placed: Seq<bool>)
    ensures
        count_placed(placed) <= placed.len(),
        count_placed(placed) == placed.len() ==> forall|j: int|
            0 <= j < placed.len() ==> placed[j],
        count_placed(placed) == 0 <== forall|j: int| 0 <= j < placed.len() ==> !placed[j],
        count_placed(placed) == placed.len() <== forall|j: int|
            0 <= j < placed.len() ==> placed[j],
    decreases placed.len(),
{
    if placed.len() > 0 {
        lemma_count_bound(placed.drop_last());
        if forall|j: int| 0 <= j < placed.len() ==> placed[j] {
            assert forall|j: int| 0 <= j < placed.drop_last().len() implies placed.drop_last()[j] by {
                assert(placed[j]);
            }
            assert(placed.last());
        }
        if count_placed(placed) == placed.len() {
            assert forall|j: int| 0 <= j < placed.len() implies placed[j] by {
                if j < placed.len() - 1 {
                    assert(placed.drop_last()[j]);
                }
            }
        }
        if forall|j: int| 0 <= j < placed.len() ==> !placed[j] {
            assert forall|j: int| 0 <= j < placed.drop_last().len() implies !placed.drop_last()[j] by {
                assert(!placed[j]);
            }
        }
    }
}

proof fn lemma_count_place(placed: Seq<bool>, j: int)
    requires
        0 <= j < placed.len(),
        !placed[j],
    ensures
        count_placed(placed.update(j, true)) == count_placed(placed) + 1,
    decreases placed.len(),
{
    let after = placed.update(j, true);
    if j == placed.len() - 1 {
        assert(after.drop_last() =~= placed.drop_last());
    } else {
        lemma_count_place(placed.drop_last(), j);
        assert(after.drop_last() =~= placed.drop_last().update(j, true));
    }
}

/// Whether every node listed in `row` is placed.
fn all_placed(row: &Vec<usize>, pos: &Vec<usize>) -> (out: bool)
    requires
        forall|k: int| 0 <= k < row@.len() ==> (#[trigger] row@[k]) < pos@.len(),
    ensures
        out == forall|k: int| 0 <= k < row@.len() ==> placed_of(pos@)[(#[trigger] row@[k]) as int],
{
    let mut k: usize = 0;
    while k < row.len()
        invariant
            k <= row.len(),
            forall|i: int| 0 <= i < row@.len() ==> (#[trigger] row@[i]) < pos@.len(),
            forall|i: int| 0 <= i < k ==> placed_of(pos@)[(#[trigger] row@[i]) as int],
        decreases row.len() - k,
    {
        if pos[row[k]] >= pos.len() {
            assert(!placed_of(pos@)[row@[k as int] as int]);
            return false;
        }
        k += 1;
    }
    true
}

/// The ready node with the least index.
fn find_ready(deps: &Vec<Vec<usize>>, pos: &Vec<usize>) -> (out: Option<usize>)
    requires
        closed_graph(views(deps@)),
        pos@.len() == deps@.len(),
    ensures
        match out {
            Some(j) => least_ready(views(deps@), placed_of(pos@), j as int),
            None => forall|j: int| !ready(views(deps@), placed_of(pos@), j),
        },
        out == match first_ready(views(deps@), placed_of(pos@)) {
            Some(j) => Some(j as usize),
            None => None,
        },
{
    let ghost graph = views(deps@);
    let ghost placed = placed_of(pos@);
    let mut j: usize = 0;
    while j < deps.len()
        invariant
            j <= deps.len(),
            graph == views(deps@),
            placed == placed_of(pos@),
            closed_graph(graph),
            pos@.len() == deps@.len(),
            forall|i: int| 0 <= i < j ==> !ready(graph, placed, i),
        decreases deps.len() - j,
    {
        assert(graph[j as int] == deps@[j as int]@);
        assert forall|k: int| 0 <= k < deps@[j as int]@.len() implies (
        #[trigger] deps@[j as int]@[k]) < pos@.len() by {
            assert(graph[j as int][k] < graph.len());
        }
        if pos[j] >= pos.len() && all_placed(&deps[j], pos) {
            assert(least_ready(graph, placed, j as int));
            let ghost chosen = choose|c: int| least_ready(graph, placed, c);
            assert(chosen == j) by {
                if chosen < j {
                    assert(!ready(graph, placed, chosen));
                } else if j < chosen {
                    assert(!ready(graph, placed, j as int));
                }
            }
            return Some(j);
        }
        assert(!ready(graph, placed, j as int));
        j += 1;
    }
    None
}

/// Which nodes the running order holds: the nodes that can run.
pub open spec fn placed_in_order(deps: Seq<Seq<usize>>) -> Seq<bool> {
    Seq::new(deps.len(), |j: int| running_order(deps).contains(j as usize))
}

/// What `place_nodes` found: the nodes it placed, in order, and where each
/// node stands (the number of nodes for a node that was not placed).
pub struct Placement {
    pub order: Vec<usize>,
    pub pos: Vec<usize>,
}

impl Placement {
    /// The table and the order agree, placed nodes come after their
    /// dependencies, and no node that is left can run.
    pub open spec fn describes(&self, deps: Seq<Seq<usize>>) -> bool {
        let order = self.order@;
        let pos = self.pos@;
        &&& pos.len() == deps.len()
        &&& order.len() <= deps.len()
        &&& forall|p: int| 0 <= p < order.len() ==> (#[trigger] order[p]) < deps.len()
        &&& forall|p: int| 0 <= p < order.len() ==> pos[(#[trigger] order[p]) as int] == p
        &&& forall|j: int|
            0 <= j < pos.len() ==> (#[trigger] pos[j]) < order.len() || pos[j] == deps.len()
        &&& forall|j: int|
            0 <= j < pos.len() && (#[trigger] pos[j]) < order.len() ==> order[pos[j] as int] == j
        &&& forall|j: int, k: int|
            0 <= j < deps.len() && pos[j] < deps.len() && 0 <= k < deps[j].len() ==> pos[(
            #[trigger] deps[j][k]) as int] < pos[j]
        &&& forall|j: int| !ready(deps, placed_of(pos), j)
        &&& order.len() < deps.len() ==> exists|j: int|
            0 <= j < pos.len() && (#[trigger] pos[j]) >= pos.len()
    }
}

/// Places the nodes of a graph in running order, as far as that goes.
pub fn place_nodes(deps: &Vec<Vec<usize>>) -> (out: Placement)
    requires
        closed_graph(views(deps@)),
    ensures
        out.order@ == running_order(views(deps@)),
        out.describes(views(deps@)),
        out.order@.len() == deps@.len() ==> topological(views(deps@), out.order@, out.pos@),
        placed_of(out.pos@) == placed_in_order(views(deps@)),
{
    let n: usize = deps.len();
    let ghost graph = views(deps@);
    let mut pos: Vec<usize> = Vec::new();
    while pos.len() < n
        invariant
            pos@.len() <= n,
            forall|j: int| 0 <= j < pos@.len() ==> pos@[j] == n,
        decreases n - pos.len(),
    {
        pos.push(n);
    }
    assert(placed_of(pos@) =~= Seq::new(graph.len(), |j: int| false));
    proof {
        lemma_count_bound(placed_of(pos@));
    }
    let mut order: Vec<usize> = Vec::new();
    let mut stuck: bool = false;
    while order.len() < n && !stuck
        invariant
            n == deps@.len(),
            graph == views(deps@),
            closed_graph(graph),
            pos@.len() == n,
            order@.len() <= n,
            order@ + order_from(graph, placed_of(pos@), (n - order@.len()) as nat)
                == running_order(graph),
            forall|p: int| 0 <= p < order@.len() ==> (#[trigger] order@[p]) < n,
            forall|p: int| 0 <= p < order@.len() ==> pos@[(#[trigger] order@[p]) as int] == p,
            forall|j: int| 0 <= j < n ==> (#[trigger] pos@[j]) < order@.len() || pos@[j] == n,
            forall|j: int|
                0 <= j < n && (#[trigger] pos@[j]) < order@.len() ==> order@[pos@[j] as int] == j,
            forall|j: int, k: int|
                0 <= j < n && pos@[j] < n && 0 <= k < graph[j].len() ==> pos@[(
                #[trigger] graph[j][k]) as int] < pos@[j],
            stuck ==> forall|j: int| !ready(graph, placed_of(pos@), j),
            count_placed(placed_of(pos@)) == order@.len(),
        decreases (n - order.len()) + (if stuck { 0int } else { 1int }),
    {
        match find_ready(deps, &pos) {
            None => {
                stuck = true;
            },
            Some(j) => {
                let ghost old_pos = pos@;
                let ghost old_order = order@;
                let at: usize = order.len();
                pos.set(j, at);
                order.push(j);
                proof {
                    assert(placed_of(pos@) =~= placed_of(old_pos).update(j as int, true));
                    lemma_count_place(placed_of(old_pos), j as int);
                    assert(old_order + order_from(graph, placed_of(old_pos), (n - at) as nat)
                        =~= order@ + order_from(graph, placed_of(pos@), (n - at - 1) as nat));
                    assert forall|a: int, k: int|
                        0 <= a < n && pos@[a] < n && 0 <= k < graph[a].len() implies pos@[(
                    #[trigger] graph[a][k]) as int] < pos@[a] by {
                        let d = graph[a][k];
                        assert(d < n);
                        if a == j {
                            assert(placed_of(old_pos)[d as int]);
                        } else {
                            assert(old_pos[d as int] < old_pos[a]);
                        }
                    }
                }
            },
        }
    }
    proof {
        if order@.len() == n {
            assert(order_from(graph, placed_of(pos@), 0) =~= Seq::<usize>::empty());
            lemma_count_bound(placed_of(pos@));
            assert forall|j: int| 0 <= j < n implies (#[trigger] pos@[j]) < n by {
                assert(placed_of(pos@)[j]);
            }
        } else {
            assert(first_ready(graph, placed_of(pos@)) is None);
            lemma_count_bound(placed_of(pos@));
            let w = choose|w: int| 0 <= w < n && !placed_of(pos@)[w];
            assert(pos@[w] >= pos@.len());
        }
        assert(order@ + Seq::<usize>::empty() =~= order@);
        assert forall|j: int| 0 <= j < n implies placed_of(pos@)[j] == order@.contains(
            j as usize,
        ) by {
            if pos@[j] < n {
                assert(order@[pos@[j] as int] == j);
            }
            if order@.contains(j as usize) {
                let p = choose|p: int| 0 <= p < order@.len() && order@[p] == j as usize;
                assert(pos@[order@[p] as int] == p);
            }
        }
        assert(placed_of(pos@) =~= placed_in_order(graph));
    }
    Placement { order, pos }
}

/// Index `k` is the first of `row` that lists a node that is not placed.
pub open spec fn first_unplaced_at(row: Seq<usize>, placed: Seq<bool>, k: int) -> bool {
    &&& 0 <= k < row.len()
    &&& !placed[row[k] as int]
    &&& forall|i: int| 0 <= i < k ==> placed[(#[trigger] row[i]) as int]
}

/// The first node listed in `row` that is not placed.
pub open spec fn next_in_row(row: Seq<usize>, placed: Seq<bool>) -> usize {
    row[choose|k: int| first_unplaced_at(row, placed, k)]
}

/// Node `j` is the first that is not placed.
pub open spec fn is_first_stuck(placed: Seq<bool>, j: int) -> bool {
    &&& 0 <= j < placed.len()
    &&& !placed[j]
    &&& forall|i: int| 0 <= i < j ==> #[trigger] placed[i]
}

/// The node reached in `i` steps from the first node that is not placed,
/// going in each step to the first dependency that is not placed.
pub open spec fn stuck_walk(deps: Seq<Seq<usize>>, placed: Seq<bool>, i: nat) -> usize
    decreases i,
{
    if i == 0 {
        (choose|j: int| is_first_stuck(placed, j)) as usize
    } else {
        next_in_row(deps[stuck_walk(deps, placed, (i - 1) as nat) as int], placed)
    }
}

/// `cycle` is what the walk through the nodes that are not placed runs
/// into: the walk comes back, for the first time, to a node that it has
/// passed, and `cycle` lists the nodes from there on.
pub open spec fn is_reported_cycle(deps: Seq<Seq<usize>>, placed: Seq<bool>, cycle: Seq<usize>) -> bool {
    exists|first: nat| #[trigger]
        closes_at(deps, placed, cycle, first)
}

/// The walk closes after `first + cycle.len()` steps, on the node that it
/// reached after `first` steps, and `cycle` lists the nodes between.
pub open spec fn closes_at(
    deps: Seq<Seq<usize>>,
    placed: Seq<bool>,
    cycle: Seq<usize>,
    first: nat,
) -> bool {
    &&& cycle.len() > 0
    &&& forall|i: int|
        0 <= i < cycle.len() ==> #[trigger] cycle[i] == stuck_walk(deps, placed, (first + i) as nat)
    &&& stuck_walk(deps, placed, first + cycle.len()) == stuck_walk(deps, placed, first)
    &&& forall|a: nat, b: nat|
        a < b < first + cycle.len() ==> stuck_walk(deps, placed, a) != stuck_walk(deps, placed, b)
}

/// The first node listed in `row` that is not placed.
fn unplaced_dependency(row: &Vec<usize>, pos: &Vec<usize>) -> (out: usize)
    requires
        forall|k: int| 0 <= k < row@.len() ==> (#[trigger] row@[k]) < pos@.len(),
        exists|k: int| 0 <= k < row@.len() && !placed_of(pos@)[(#[trigger] row@[k]) as int],
    ensures
        row@.contains(out),
        out < pos@.len(),
        pos@[out as int] >= pos@.len(),
        out == next_in_row(row@, placed_of(pos@)),
{
    let mut k: usize = 0;
    while k < row.len()
        invariant
            k <= row.len(),
            forall|i: int| 0 <= i < row@.len() ==> (#[trigger] row@[i]) < pos@.len(),
            forall|i: int| 0 <= i < k ==> placed_of(pos@)[(#[trigger] row@[i]) as int],
        decreases row.len() - k,
    {
        if pos[row[k]] >= pos.len() {
            proof {
                let placed = placed_of(pos@);
                assert(first_unplaced_at(row@, placed, k as int));
                let c = choose|c: int| first_unplaced_at(row@, placed, c);
                if c < k {
                    assert(placed[row@[c] as int]);
                } else if k < c {
                    assert(placed[row@[k as int] as int]);
                }
            }
            return row[k];
        }
        k += 1;
    }
    proof {
        let w = choose|w: int| 0 <= w < row@.len() && !placed_of(pos@)[(#[trigger] row@[w]) as int];
        assert(placed_of(pos@)[row@[w] as int]);
    }
    0
}

/// Finds a dependency cycle among the nodes that `pos` leaves unplaced,
/// given that there are such nodes and that none of them can run.
pub fn find_cycle(deps: &Vec<Vec<usize>>, pos: &Vec<usize>) -> (cycle: Vec<usize>)
    requires
        closed_graph(views(deps@)),
        pos@.len() == deps@.len(),
        exists|j: int| 0 <= j < pos@.len() && (#[trigger] pos@[j]) >= pos@.len(),
        forall|j: int| !ready(views(deps@), placed_of(pos@), j),
    ensures
        is_cycle(views(deps@), cycle@),
        distinct(cycle@),
        is_reported_cycle(views(deps@), placed_of(pos@), cycle@),
        forall|i: int|
            0 <= i < cycle@.len() ==> (#[trigger] cycle@[i]) < deps@.len() && pos@[cycle@[i] as int]
                >= pos@.len(),
{
    let n: usize = deps.len();
    let ghost graph = views(deps@);
    let ghost placed = placed_of(pos@);
    let mut cur: usize = 0;
    while cur < n && pos[cur] < n
        invariant
            n == pos@.len(),
            cur <= n,
            forall|i: int| 0 <= i < cur ==> (#[trigger] pos@[i]) < n,
        decreases n - cur,
    {
        cur += 1;
    }
    proof {
        assert(is_first_stuck(placed, cur as int)) by {
            assert forall|i: int| 0 <= i < cur implies #[trigger] placed[i] by {
                assert(pos@[i] < n);
            }
        }
        let c = choose|c: int| is_first_stuck(placed, c);
        if c < cur {
            assert(placed[c]);
        } else if cur < c {
            assert(placed[cur as int]);
        }
        assert(cur == stuck_walk(graph, placed, 0));
    }
    let mut at: Vec<usize> = Vec::new();
    while at.len() < n
        invariant
            at@.len() <= n,
            forall|j: int| 0 <= j < at@.len() ==> at@[j] == n,
        decreases n - at.len(),
    {
        at.push(n);
    }
    proof {
        lemma_count_bound(placed_of(at@));
    }
    let mut path: Vec<usize> = Vec::new();
    while at[cur] >= n
        invariant
            n == deps@.len(),
            n == pos@.len(),
            graph == views(deps@),
            closed_graph(graph),
            forall|j: int| !ready(graph, placed_of(pos@), j),
            cur < n,
            pos@[cur as int] >= n,
            at@.len() == n,
            forall|j: int|
                0 <= j < n ==> (#[trigger] at@[j]) == n || (at@[j] < path@.len() && path@[at@[j] as int]
                    == j),
            forall|p: int|
                0 <= p < path@.len() ==> (#[trigger] path@[p]) < n && at@[path@[p] as int] == p
                    && pos@[path@[p] as int] >= n,
            forall|p: int|
                0 <= p < path@.len() - 1 ==> depends(graph, #[trigger] path@[p], path@[p + 1]),
            path@.len() > 0 ==> depends(graph, path@.last(), cur),
            count_placed(placed_of(at@)) == path@.len(),
            placed == placed_of(pos@),
            forall|p: int|
                0 <= p < path@.len() ==> (#[trigger] path@[p]) == stuck_walk(graph, placed, p as nat),
            cur == stuck_walk(graph, placed, path@.len()),
        decreases n - path@.len(),
    {
        let ghost old_at = at@;
        let ghost old_path = path@;
        let here: usize = path.len();
        proof {
            lemma_count_place(placed_of(old_at), cur as int);
            lemma_count_bound(placed_of(old_at).update(cur as int, true));
        }
        at.set(cur, here);
        path.push(cur);
        assert(placed_of(at@) =~= placed_of(old_at).update(cur as int, true));
        assert(graph[cur as int] == deps@[cur as int]@);
        proof {
            assert(!ready(graph, placed_of(pos@), cur as int));
            assert(!placed_of(pos@)[cur as int]);
            assert forall|k: int| 0 <= k < deps@[cur as int]@.len() implies (
            #[trigger] deps@[cur as int]@[k]) < pos@.len() by {
                assert(graph[cur as int][k] < graph.len());
            }
        }
        let next: usize = unplaced_dependency(&deps[cur], pos);
        assert(depends(graph, cur, next));
        assert(next == stuck_walk(graph, placed, path@.len())) by {
            assert(stuck_walk(graph, placed, (path@.len() - 1) as nat) == cur);
        }
        assert forall|p: int| 0 <= p < path@.len() - 1 implies depends(
            graph,
            #[trigger] path@[p],
            path@[p + 1],
        ) by {
            if p < old_path.len() - 1 {
                assert(depends(graph, old_path[p], old_path[p + 1]));
            } else {
                assert(path@[p] == old_path.last());
            }
        }
        cur = next;
    }
    let first: usize = at[cur];
    let mut cycle: Vec<usize> = Vec::new();
    let mut p: usize = first;
    while p < path.len()
        invariant
            first <= p <= path@.len(),
            cycle@ == path@.subrange(first as int, p as int),
        decreases path.len() - p,
    {
        cycle.push(path[p]);
        p += 1;
        assert(cycle@ =~= path@.subrange(first as int, p as int));
    }
    proof {
        assert(path@[first as int] == cur);
        assert forall|i: int| 0 <= i < cycle@.len() - 1 implies depends(
            graph,
            #[trigger] cycle@[i],
            cycle@[i + 1],
        ) by {
            assert(depends(graph, path@[first + i], path@[first + i + 1]));
        }
        assert(cycle@.last() == path@.last());
        assert forall|a: int, b: int| 0 <= a < b < cycle@.len() implies cycle@[a] != cycle@[b] by {
            assert(at@[path@[first + a] as int] == first + a);
            assert(at@[path@[first + b] as int] == first + b);
        }
        assert(closes_at(graph, placed, cycle@, first as nat)) by {
            assert forall|i: int| 0 <= i < cycle@.len() implies #[trigger] cycle@[i] == stuck_walk(
                graph,
                placed,
                (first + i) as nat,
            ) by {
                assert(cycle@[i] == path@[first + i]);
            }
            assert forall|a: nat, b: nat| a < b < first + cycle@.len() implies stuck_walk(
                graph,
                placed,
                a,
            ) != stuck_walk(graph, placed, b) by {
                assert(path@[a as int] == stuck_walk(graph, placed, a));
                assert(path@[b as int] == stuck_walk(graph, placed, b));
                assert(at@[path@[a as int] as int] == a);
                assert(at@[path@[b as int] as int] == b);
            }
        }
    }
    cycle
}

} // verus!
