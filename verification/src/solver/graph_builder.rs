use std::collections::VecDeque;
use vstd::prelude::*;

use crate::game_elements::glass::Glass;
use crate::game_elements::glass_system::{
    lemma_moves_then, replay_final, same_system, spec_is_solved, spec_poured, step_is_valid, tops_ok, valid_moves,
    GlassSystem,
};
use crate::game_elements::step::{step_string, Step};
use crate::solver::data_structures::{Neighbour, SystemDictionary};
use crate::solver::evaluation::{spec_solution_value, value_fits, SolutionValue};
use crate::solver::data_structures::system_dictionary::registered;
use crate::solver::system_solver::{
    build_neighbours, closed_at, dict_tops_ok, distinct_systems, fresh_moves, lemma_distinct_grows,
    lemma_moves_stay_explored,
};
use crate::game_elements::glass_system::lists_valid_steps;
use crate::solver::{solution_value, SolutionValueMode, SystemId};
use crate::text::{decimal, u32_to_string, usize_to_string};

verus! {

/// A node of the explored state graph.
#[derive(Debug)]
pub struct GeneralNode {
    /// The id of the system.
    pub system: SystemId,
    /// The value of the system.
    pub solution_value: SolutionValue,
    /// Whether the system is solved.
    pub is_solved: bool,
    /// The systems first reached from this one, with the steps that reach them.
    pub neighbours: Vec<Neighbour>,
}

enum QueueElement {
    NewLevel,
    System(SystemId),
}

/// How a neighbour is written: `[step; system]`.
pub open spec fn neighbour_text(nb: Neighbour) -> Seq<char> {
    "["@ + step_string(nb.step) + "; "@ + decimal(nb.system as nat) + "]"@
}

/// The neighbours written one after another, joined by ` -> `.
pub open spec fn neighbours_text(ns: Seq<Neighbour>) -> Seq<char>
    decreases ns.len(),
{
    if ns.len() == 0 {
        Seq::empty()
    } else if ns.len() == 1 {
        neighbour_text(ns[0])
    } else {
        neighbours_text(ns.drop_last()) + " -> "@ + neighbour_text(ns.last())
    }
}

/// One line of the graph: a solution marker, the system id, its value in brackets,
/// and its neighbours (or `Dead end`).
pub open spec fn node_text(n: GeneralNode) -> Seq<char> {
    (if n.is_solved { "[SOLUTION]"@ } else { "[        ]"@ }) + decimal(n.system as nat) + "("@
        + decimal(n.solution_value as nat) + ")"@ + ": "@
        + (if n.neighbours@.len() == 0 { "Dead end"@ } else { neighbours_text(n.neighbours@) })
        + "\n"@
}

/// The lines of all the nodes, in order.
pub open spec fn graph_text(nodes: Seq<GeneralNode>) -> Seq<char>
    decreases nodes.len(),
{
    if nodes.len() == 0 {
        Seq::empty()
    } else {
        graph_text(nodes.drop_last()) + node_text(nodes.last())
    }
}

/// Appends the neighbours, joined by ` -> `.
fn write_neighbours(graph_repr: &mut String, neighbours: &Vec<Neighbour>)
    ensures
        final(graph_repr)@ == old(graph_repr)@ + neighbours_text(neighbours@),
{
    let connecting_str = " -> ";
    let ghost head = graph_repr@;
    let mut t: usize = 0;
    assert(neighbours@.subrange(0, 0) =~= Seq::<Neighbour>::empty());
    while t < neighbours.len()
        invariant
            t <= neighbours@.len(),
            connecting_str@ == " -> "@,
            graph_repr@ == head + neighbours_text(neighbours@.subrange(0, t as int)),
        decreases neighbours@.len() - t,
    {
        let nb = neighbours[t];
        let ghost before = graph_repr@;
        if t > 0 {
            graph_repr.append(connecting_str);
        }
        graph_repr.append("[");
        graph_repr.append("(");
        graph_repr.append(usize_to_string(nb.step.source).as_str());
        graph_repr.append(", ");
        graph_repr.append(usize_to_string(nb.step.destination).as_str());
        graph_repr.append(")");
        graph_repr.append("; ");
        graph_repr.append(u32_to_string(nb.system).as_str());
        graph_repr.append("]");
        proof {
            let sub = neighbours@.subrange(0, t + 1);
            assert(sub.drop_last() =~= neighbours@.subrange(0, t as int));
            assert(sub.last() == nb);
            if t > 0 {
                assert(graph_repr@ =~= before + " -> "@ + neighbour_text(nb));
            } else {
                assert(graph_repr@ =~= before + neighbour_text(nb));
            }
        }
        t = t + 1;
    }
    assert(neighbours@.subrange(0, neighbours@.len() as int) =~= neighbours@);
}

/// Appends the line of one node.
fn write_node(graph_repr: &mut String, node: &GeneralNode)
    ensures
        final(graph_repr)@ == old(graph_repr)@ + node_text(*node),
{
    if node.is_solved {
        graph_repr.append("[SOLUTION]");
    } else {
        graph_repr.append("[        ]");
    }
    graph_repr.append(u32_to_string(node.system).as_str());
    graph_repr.append("(");
    graph_repr.append(u32_to_string(node.solution_value).as_str());
    graph_repr.append(")");
    graph_repr.append(": ");
    write_neighbours(graph_repr, &node.neighbours);
    if node.neighbours.len() == 0 {
        graph_repr.append("Dead end");
    }
    graph_repr.append("\n");
    assert(graph_repr@ =~= old(graph_repr)@ + node_text(*node));
}

/// Writes the nodes, one line each.
pub fn graph_string(nodes: &[GeneralNode]) -> (s: String)
    ensures
        s@ == graph_text(nodes@),
{
    let mut graph_repr = String::new();
    let mut k: usize = 0;
    assert(nodes@.subrange(0, 0) =~= Seq::<GeneralNode>::empty());
    while k < nodes.len()
        invariant
            k <= nodes@.len(),
            graph_repr@ == graph_text(nodes@.subrange(0, k as int)),
        decreases nodes@.len() - k,
    {
        write_node(&mut graph_repr, &nodes[k]);
        proof {
            let sub = nodes@.subrange(0, k + 1);
            assert(sub.drop_last() =~= nodes@.subrange(0, k as int));
        }
        k = k + 1;
    }
    assert(nodes@.subrange(0, nodes@.len() as int) =~= nodes@);
    graph_repr
}

/// The explored state graph.
pub struct StateGraph {
    /// The explored nodes.
    pub state_graph: Vec<GeneralNode>,
    /// Whether the exploration ended before the depth limit. The level marker always stays
    /// queued, so an exploration always runs to the depth limit and this is always false.
    pub is_complete: bool,
}

/// Two nodes agree on every field.
pub open spec fn same_node(a: GeneralNode, b: GeneralNode) -> bool {
    &&& a.system == b.system
    &&& a.solution_value == b.solution_value
    &&& a.is_solved == b.is_solved
    &&& a.neighbours@ == b.neighbours@
}

/// `out` lists the nodes of `nodes`, each once, by increasing system id.
pub open spec fn sorted_copy(nodes: Seq<GeneralNode>, out: Seq<GeneralNode>) -> bool {
    &&& out.len() == nodes.len()
    &&& exists|p: Seq<int>| {
        &&& p.len() == out.len()
        &&& forall|i: int| 0 <= i < p.len() ==> 0 <= #[trigger] p[i] < nodes.len()
        &&& forall|i: int, j: int| 0 <= i < j < p.len() ==> p[i] != p[j]
        &&& forall|i: int| 0 <= i < p.len() ==> same_node(#[trigger] out[i], nodes[p[i]])
    }
    &&& forall|i: int, j: int| 0 <= i < j < out.len() ==> (#[trigger] out[i]).system <= (#[trigger] out[j]).system
}

/// Ids that differ between the nodes differ in a sorted copy, so it is strictly increasing.
proof fn lemma_sorted_copy_strict(nodes: Seq<GeneralNode>, out: Seq<GeneralNode>)
    requires
        sorted_copy(nodes, out),
        forall|a: int, b: int| 0 <= a < b < nodes.len() ==> (#[trigger] nodes[a]).system != (#[trigger] nodes[b]).system,
    ensures
        forall|i: int, j: int| 0 <= i < j < out.len() ==> (#[trigger] out[i]).system < (#[trigger] out[j]).system,
{
    let p = choose|p: Seq<int>| {
        &&& p.len() == out.len()
        &&& forall|i: int| 0 <= i < p.len() ==> 0 <= #[trigger] p[i] < nodes.len()
        &&& forall|i: int, j: int| 0 <= i < j < p.len() ==> p[i] != p[j]
        &&& forall|i: int| 0 <= i < p.len() ==> same_node(#[trigger] out[i], nodes[p[i]])
    };
    assert forall|i: int, j: int| 0 <= i < j < out.len() implies (#[trigger] out[i]).system < (#[trigger] out[j]).system by {
        assert(same_node(out[i], nodes[p[i]]));
        assert(same_node(out[j], nodes[p[j]]));
        assert(p[i] != p[j]);
        if p[i] < p[j] {
            assert(nodes[p[i]].system != nodes[p[j]].system);
        } else {
            assert(nodes[p[j]].system != nodes[p[i]].system);
        }
    }
}

/// A copy of a node.
fn copy_node(node: &GeneralNode) -> (r: GeneralNode)
    ensures
        same_node(r, *node),
{
    let mut neighbours: Vec<Neighbour> = Vec::new();
    let mut k: usize = 0;
    while k < node.neighbours.len()
        invariant
            k <= node.neighbours@.len(),
            neighbours@ == node.neighbours@.subrange(0, k as int),
        decreases node.neighbours@.len() - k,
    {
        neighbours.push(node.neighbours[k]);
        k = k + 1;
        assert(neighbours@ =~= node.neighbours@.subrange(0, k as int));
    }
    assert(neighbours@ =~= node.neighbours@);
    GeneralNode {
        system: node.system,
        solution_value: node.solution_value,
        is_solved: node.is_solved,
        neighbours,
    }
}

/// Each pair holds a position into `ids` and the id found there; no position occurs twice.
pub open spec fn keyed(v: Seq<(SystemId, usize)>, ids: Seq<SystemId>) -> bool {
    &&& forall|a: int| 0 <= a < v.len() ==> (#[trigger] v[a]).1 < ids.len() && v[a].0 == ids[v[a].1 as int]
    &&& forall|a: int, b: int| 0 <= a < b < v.len() ==> (#[trigger] v[a]).1 != (#[trigger] v[b]).1
}

/// Sorts pairs of an id and a position by the id (insertion sort).
fn sort_by_id(v: &mut Vec<(SystemId, usize)>, Ghost(ids): Ghost<Seq<SystemId>>)
    requires
        keyed(old(v)@, ids),
    ensures
        final(v)@.len() == old(v)@.len(),
        keyed(final(v)@, ids),
        forall|i: int, j: int| 0 <= i < j < final(v)@.len() ==> (#[trigger] final(v)@[i]).0 <= (#[trigger] final(v)@[j]).0,
{
    let n = v.len();
    let mut i: usize = 1;
    while i < n
        invariant
            n == v@.len(),
            1 <= i || n == 0,
            keyed(v@, ids),
            forall|a: int, b: int| 0 <= a < b < i && b < n ==> (#[trigger] v@[a]).0 <= (#[trigger] v@[b]).0,
        decreases n - i,
    {
        let mut j = i;
        while j > 0 && v[j - 1].0 > v[j].0
            invariant
                n == v@.len(),
                0 <= j <= i < n,
                keyed(v@, ids),
                forall|a: int, b: int| 0 <= a < b <= i && b != j && a != j ==> (#[trigger] v@[a]).0 <= (#[trigger] v@[b]).0,
                forall|a: int, b: int| 0 <= a < j && j < b <= i ==> (#[trigger] v@[a]).0 <= (#[trigger] v@[b]).0,
                forall|b: int| j < b <= i ==> v@[j as int].0 <= (#[trigger] v@[b]).0,
            decreases j,
        {
            let ghost before = v@;
            let x = v[j - 1];
            let y = v[j];
            v.set(j - 1, y);
            v.set(j, x);
            proof {
                assert forall|a: int, b: int| 0 <= a < b < v@.len() implies (#[trigger] v@[a]).1 != (#[trigger] v@[b]).1 by {
                    let oa = if a == j - 1 { j as int } else if a == j { j - 1 } else { a };
                    let ob = if b == j - 1 { j as int } else if b == j { j - 1 } else { b };
                    assert(v@[a] == before[oa] && v@[b] == before[ob]);
                    if oa < ob {
                        assert(before[oa].1 != before[ob].1);
                    } else {
                        assert(before[ob].1 != before[oa].1);
                    }
                }
                assert forall|a: int| 0 <= a < v@.len() implies (#[trigger] v@[a]).1 < ids.len() && v@[a].0 == ids[v@[a].1 as int] by {
                    let oa = if a == j - 1 { j as int } else if a == j { j - 1 } else { a };
                    assert(v@[a] == before[oa]);
                }
            }
            j = j - 1;
        }
        i = i + 1;
    }
}

impl StateGraph {
    /// An empty graph, not complete.
    /// No two nodes have the same system id (a set of nodes keyed by their id).
    pub open spec fn wf(&self) -> bool {
        forall|a: int, b: int| 0 <= a < b < self.state_graph@.len()
            ==> (#[trigger] self.state_graph@[a]).system != (#[trigger] self.state_graph@[b]).system
    }

    pub fn new() -> (g: Self)
        ensures
            g.state_graph@.len() == 0,
            !g.is_complete,
            g.wf(),
    {
        StateGraph { state_graph: Vec::new(), is_complete: false }
    }

    /// Adds a node unless a node of the same system is already there.
    pub fn insert(&mut self, node: GeneralNode)
        ensures
            final(self).is_complete == old(self).is_complete,
            (exists|i: int| 0 <= i < old(self).state_graph@.len() && (#[trigger] old(self).state_graph@[i]).system == node.system)
                ==> final(self).state_graph@ == old(self).state_graph@,
            !(exists|i: int| 0 <= i < old(self).state_graph@.len() && (#[trigger] old(self).state_graph@[i]).system == node.system)
                ==> final(self).state_graph@ == old(self).state_graph@.push(node),
            old(self).wf() ==> final(self).wf(),
    {
        let mut i: usize = 0;
        while i < self.state_graph.len()
            invariant
                i <= self.state_graph@.len(),
                self.state_graph@ == old(self).state_graph@,
                self.is_complete == old(self).is_complete,
                forall|t: int| 0 <= t < i ==> (#[trigger] self.state_graph@[t]).system != node.system,
            decreases self.state_graph@.len() - i,
        {
            if self.state_graph[i].system == node.system {
                return;
            }
            i = i + 1;
        }
        self.state_graph.push(node);
    }

    /// The nodes ordered by system id.
    pub fn get_sorted(&self) -> (r: Vec<GeneralNode>)
        requires
            self.wf(),
        ensures
            sorted_copy(self.state_graph@, r@),
            forall|i: int, j: int| 0 <= i < j < r@.len() ==> (#[trigger] r@[i]).system < (#[trigger] r@[j]).system,
    {
        let n = self.state_graph.len();
        let mut keys: Vec<(SystemId, usize)> = Vec::new();
        let mut k: usize = 0;
        while k < n
            invariant
                n == self.state_graph@.len(),
                k <= n,
                keys@.len() == k,
                forall|t: int| 0 <= t < k ==> (#[trigger] keys@[t]).1 == t && keys@[t].0 == self.state_graph@[t].system,
            decreases n - k,
        {
            keys.push((self.state_graph[k].system, k));
            k = k + 1;
        }
        let ghost ids = self.state_graph@.map_values(|g: GeneralNode| g.system);
        proof {
            assert forall|a: int, b: int| 0 <= a < b < keys@.len() implies (#[trigger] keys@[a]).1 != (#[trigger] keys@[b]).1 by {}
        }
        sort_by_id(&mut keys, Ghost(ids));
        let mut out: Vec<GeneralNode> = Vec::new();
        let mut t: usize = 0;
        while t < n
            invariant
                n == self.state_graph@.len() == keys@.len(),
                t <= n,
                out@.len() == t,
                keyed(keys@, ids),
                ids == self.state_graph@.map_values(|g: GeneralNode| g.system),
                forall|a: int| 0 <= a < t ==> same_node(#[trigger] out@[a], self.state_graph@[keys@[a].1 as int]),
            decreases n - t,
        {
            let idx = keys[t].1;
            out.push(copy_node(&self.state_graph[idx]));
            t = t + 1;
        }
        proof {
            let p = keys@.map_values(|e: (SystemId, usize)| e.1 as int);
            assert(p.len() == out@.len());
            assert forall|i: int| 0 <= i < p.len() implies 0 <= #[trigger] p[i] < self.state_graph@.len() by {}
            assert forall|i: int, j: int| 0 <= i < j < p.len() implies p[i] != p[j] by {
                assert(keys@[i].1 != keys@[j].1);
            }
            assert forall|i: int| 0 <= i < p.len() implies same_node(#[trigger] out@[i], self.state_graph@[p[i]]) by {}
            assert forall|i: int, j: int| 0 <= i < j < out@.len() implies (#[trigger] out@[i]).system <= (#[trigger] out@[j]).system by {
                assert(keys@[i].0 <= keys@[j].0);
                assert(out@[i].system == ids[keys@[i].1 as int]);
            }
            assert(sorted_copy(self.state_graph@, out@));
            lemma_sorted_copy_strict(self.state_graph@, out@);
        }
        out
    }

    /// The text written out for an explored graph: its nodes by increasing id,
    /// followed by whether the exploration was complete.
    pub fn report(&self) -> (s: String)
        requires
            self.wf(),
        ensures
            exists|sorted: Seq<GeneralNode>| {
                &&& sorted_copy(self.state_graph@, sorted)
                &&& forall|i: int, j: int| 0 <= i < j < sorted.len() ==> (#[trigger] sorted[i]).system < (#[trigger] sorted[j]).system
                &&& s@ == graph_text(sorted) + if self.is_complete { "Graph is complete!"@ } else { "Graph exploration ended at max depth"@ }
            },
    {
        let sorted = self.get_sorted();
        let mut graph_str = graph_string(sorted.as_slice());
        if self.is_complete {
            graph_str.append("Graph is complete!");
        } else {
            graph_str.append("Graph exploration ended at max depth");
        }
        graph_str
    }

    /// The nodes written one line each, in the order they are held.
    pub fn to_string(&self) -> (s: String)
        ensures
            s@ == graph_text(self.state_graph@),
    {
        graph_string(self.state_graph.as_slice())
    }
}

/// The system id a queue element holds, or -1 for a level marker.
spec fn queued_id(e: QueueElement) -> int {
    match e {
        QueueElement::NewLevel => -1,
        QueueElement::System(id) => id as int,
    }
}

/// A graph explored from `start`: with `dict` the systems numbered by their ids
/// (the start being 0), every node records the value and solvedness of its
/// system, and every neighbour is reached from the node's system by a valid step.
pub open spec fn explored_from(start: Seq<Glass>, mode: SolutionValueMode, dict: Seq<Seq<Glass>>, nodes: Seq<GeneralNode>) -> bool {
    &&& dict.len() >= 1
    &&& dict[0] == start
    &&& forall|i: int, j: int| 0 <= i < j < nodes.len() ==> (#[trigger] nodes[i]).system < (#[trigger] nodes[j]).system
    &&& forall|i: int| 0 <= i < nodes.len() ==> node_explored(mode, dict, #[trigger] nodes[i])
    &&& forall|i: int, ka: int, kb: int| 0 <= i < nodes.len() && 0 <= ka < kb < nodes[i].neighbours@.len()
        ==> (#[trigger] nodes[i].neighbours@[ka]).system < (#[trigger] nodes[i].neighbours@[kb]).system
    &&& forall|a: int, b: int, ka: int, kb: int|
        0 <= a < b < nodes.len() && 0 <= ka < nodes[a].neighbours@.len() && 0 <= kb < nodes[b].neighbours@.len()
        ==> (#[trigger] nodes[a].neighbours@[ka]).system < (#[trigger] nodes[b].neighbours@[kb]).system
}

/// Some node lists the system with id `c` as a neighbour.
pub open spec fn listed(nodes: Seq<GeneralNode>, c: int) -> bool {
    exists|a: int, k: int| 0 <= a < nodes.len() && 0 <= k < nodes[a].neighbours@.len() && (#[trigger] nodes[a].neighbours@[k]).system == c
}

/// Every registered system but the start is some node's neighbour.
pub open spec fn listed_all(dict: Seq<Seq<Glass>>, nodes: Seq<GeneralNode>) -> bool {
    forall|c: int| 1 <= c < dict.len() ==> #[trigger] listed(nodes, c)
}

/// `u32::MAX` systems, no two the same whatever the order of their glasses, each reached
/// from `start` by at most `max_depth` moves: more than the ids of an exploration can number.
pub open spec fn many_within(start: Seq<Glass>, d: Seq<Seq<Glass>>, max_depth: nat) -> bool {
    &&& d.len() == u32::MAX
    &&& distinct_systems(d)
    &&& forall|i: int| 0 <= i < d.len() ==> reached_within(start, #[trigger] d[i], max_depth + 1)
}

/// What a node of an explored graph records of its system: its value, whether it is solved,
/// and, as neighbours, moves to systems registered after it that are new (the same as no
/// system registered before them): exactly the valid moves, in order, whose results were
/// new when the node was explored, numbered from the registry's length at that time.
pub open spec fn node_explored(mode: SolutionValueMode, dict: Seq<Seq<Glass>>, n: GeneralNode) -> bool {
    &&& n.system < dict.len()
    &&& n.solution_value == spec_solution_value(dict[n.system as int], mode)
    &&& n.is_solved == spec_is_solved(dict[n.system as int])
    &&& forall|k: int| 0 <= k < n.neighbours@.len() ==> {
        let nb = #[trigger] n.neighbours@[k];
        &&& n.system < nb.system < dict.len()
        &&& step_is_valid(dict[n.system as int], nb.step.source as int, nb.step.destination as int)
        &&& dict[nb.system as int] == spec_poured(dict[n.system as int], nb.step.source as int, nb.step.destination as int)
        &&& !registered(dict.subrange(0, nb.system as int), dict[nb.system as int])
    }
    &&& exists|base: int, vs: Seq<Step>| {
        &&& 0 <= base <= dict.len()
        &&& lists_valid_steps(dict[n.system as int], vs)
        &&& n.neighbours@ == #[trigger] fresh_moves(dict.take(base), dict[n.system as int], vs)
    }
}

/// The distances that a sequence of levels gives.
pub open spec fn level_dist(lev: Seq<nat>) -> spec_fn(int) -> nat {
    |i: int| lev[i]
}

/// Every system that fewer than `max_depth` moves reach from `start` is, up to the order of
/// its glasses, the system of one of the nodes.
pub open spec fn covers(start: Seq<Glass>, dict: Seq<Seq<Glass>>, nodes: Seq<GeneralNode>, max_depth: nat) -> bool {
    forall|steps: Seq<Step>| #[trigger] valid_moves(start, steps) && steps.len() < max_depth ==> exists|i: int| {
        &&& 0 <= i < nodes.len()
        &&& same_system(dict[(#[trigger] nodes[i]).system as int], replay_final(start, steps))
    }
}

/// Some fewer than `max_depth` moves lead from `start` to `sys`.
pub open spec fn reached_within(start: Seq<Glass>, sys: Seq<Glass>, max_depth: nat) -> bool {
    exists|steps: Seq<Step>| #[trigger] valid_moves(start, steps) && steps.len() < max_depth && replay_final(start, steps) == sys
}

/// The system of every node is reached from `start` by fewer than `max_depth` moves.
pub open spec fn within_reach(start: Seq<Glass>, dict: Seq<Seq<Glass>>, nodes: Seq<GeneralNode>, max_depth: nat) -> bool {
    forall|i: int| 0 <= i < nodes.len() ==> reached_within(start, dict[(#[trigger] nodes[i]).system as int], max_depth)
}

/// The nodes of the explored systems, each reached by a recorded sequence of fewer than
/// `max_depth` moves, are within reach.
proof fn lemma_nodes_within_reach(
    start: Seq<Glass>,
    dict: Seq<Seq<Glass>>,
    nodes: Seq<GeneralNode>,
    reach: Seq<Seq<Step>>,
    lev: Seq<nat>,
    max_depth: nat,
)
    requires
        nodes.len() <= dict.len() <= reach.len(),
        nodes.len() <= lev.len(),
        forall|i: int| 0 <= i < nodes.len() ==> (#[trigger] nodes[i]).system == i,
        forall|i: int| 0 <= i < nodes.len() ==> #[trigger] lev[i] < max_depth,
        forall|i: int| 0 <= i < dict.len() ==> {
            &&& valid_moves(start, #[trigger] reach[i])
            &&& reach[i].len() == lev[i]
            &&& replay_final(start, reach[i]) == dict[i]
        },
    ensures
        within_reach(start, dict, nodes, max_depth),
{
    assert forall|i: int| 0 <= i < nodes.len() implies reached_within(start, dict[(#[trigger] nodes[i]).system as int], max_depth) by {
        assert(nodes[i].system as int == i);
        assert(valid_moves(start, reach[i]));
        assert(lev[i] < max_depth);
    }
}

/// Registering more systems keeps what the nodes record true.
proof fn lemma_explored_from_grow(start: Seq<Glass>, mode: SolutionValueMode, d0: Seq<Seq<Glass>>, d1: Seq<Seq<Glass>>, nodes: Seq<GeneralNode>)
    requires
        explored_from(start, mode, d0, nodes),
        d0.len() <= d1.len(),
        forall|i: int| 0 <= i < d0.len() ==> #[trigger] d1[i] == d0[i],
    ensures
        explored_from(start, mode, d1, nodes),
{
    assert forall|i: int| 0 <= i < nodes.len() implies node_explored(mode, d1, #[trigger] nodes[i]) by {
        assert(node_explored(mode, d0, nodes[i]));
        assert forall|kk: int| 0 <= kk < nodes[i].neighbours@.len() implies {
            let nb = #[trigger] nodes[i].neighbours@[kk];
            &&& nodes[i].system < nb.system < d1.len()
            &&& step_is_valid(d1[nodes[i].system as int], nb.step.source as int, nb.step.destination as int)
            &&& d1[nb.system as int] == spec_poured(d1[nodes[i].system as int], nb.step.source as int, nb.step.destination as int)
            &&& !registered(d1.subrange(0, nb.system as int), d1[nb.system as int])
        } by {
            let nb = nodes[i].neighbours@[kk];
            assert(d1.subrange(0, nb.system as int) =~= d0.subrange(0, nb.system as int));
        }
        let (base, vs) = choose|base: int, vs: Seq<Step>| {
            &&& 0 <= base <= d0.len()
            &&& lists_valid_steps(d0[nodes[i].system as int], vs)
            &&& nodes[i].neighbours@ == #[trigger] fresh_moves(d0.take(base), d0[nodes[i].system as int], vs)
        };
        assert(d1.take(base) =~= d0.take(base));
        assert(d1[nodes[i].system as int] == d0[nodes[i].system as int]);
    }
}

/// Explores the state graph breadth first from `start_system`, level by level, for
/// `max_depth` levels.
#[verifier::rlimit(60)]
pub fn build_state_graph(start_system: &GlassSystem, evaluation_mode: &SolutionValueMode, max_depth: u8) -> (graph: StateGraph)
    requires
        tops_ok(start_system@),
        value_fits(start_system@.len()),
    ensures
        !graph.is_complete,
        graph.wf(),
        exists|dict: Seq<Seq<Glass>>| {
            &&& #[trigger] explored_from(start_system@, *evaluation_mode, dict, graph.state_graph@)
            &&& distinct_systems(dict)
            &&& within_reach(start_system@, dict, graph.state_graph@, max_depth as nat)
            &&& (covers(start_system@, dict, graph.state_graph@, max_depth as nat) && listed_all(dict, graph.state_graph@))
                || many_within(start_system@, dict, max_depth as nat)
        },
{
    let mut graph = StateGraph::new();
    let mut queue: VecDeque<QueueElement> = VecDeque::new();
    let mut depth: u8 = 0;
    let mut system_dictionary = SystemDictionary::new();
    let start_id = system_dictionary.add_system(start_system.clone());
    queue.push_back(QueueElement::System(start_id));
    queue.push_back(QueueElement::NewLevel);
    let ghost mut h: int = 0;
    let ghost mut m: int = 1;
    let ghost mut lev: Seq<nat> = seq![0nat];
    let ghost mut reach: Seq<Seq<Step>> = seq![Seq::<Step>::empty()];
    proof {
        assert(system_dictionary@.len() == 1);
    }
    while queue.len() != 0 && depth < max_depth
        invariant
            !graph.is_complete,
            depth <= max_depth,
            1 <= system_dictionary@.len() <= u32::MAX,
            system_dictionary@[0] == start_system@,
            dict_tops_ok(system_dictionary@),
            forall|i: int| 0 <= i < system_dictionary@.len() ==> (#[trigger] system_dictionary@[i]).len() == start_system@.len(),
            value_fits(start_system@.len()),
            explored_from(start_system@, *evaluation_mode, system_dictionary@, graph.state_graph@),
            graph.state_graph@.len() == h,
            forall|i: int| 0 <= i < h ==> (#[trigger] graph.state_graph@[i]).system == i,
            distinct_systems(system_dictionary@),
            listed_all(system_dictionary@, graph.state_graph@),
            0 <= h <= m <= system_dictionary@.len(),
            queue@.len() == system_dictionary@.len() - h + 1,
            forall|t: int| 0 <= t < m - h ==> #[trigger] queue@[t] == QueueElement::System((h + t) as SystemId),
            queue@[m - h] == QueueElement::NewLevel,
            forall|t: int| m - h < t < queue@.len() ==> #[trigger] queue@[t] == QueueElement::System((h + t - 1) as SystemId),
            lev.len() == system_dictionary@.len(),
            lev[0] == 0,
            forall|i: int| 0 <= i < m ==> #[trigger] lev[i] <= depth,
            forall|i: int| h <= i < m ==> #[trigger] lev[i] == depth,
            forall|i: int| m <= i < lev.len() ==> #[trigger] lev[i] == depth + 1,
            forall|i: int| 0 <= i < h ==> #[trigger] closed_at(system_dictionary@, level_dist(lev), i),
            forall|i: int| 0 <= i < h ==> #[trigger] lev[i] < max_depth,
            reach.len() == system_dictionary@.len(),
            forall|i: int| 0 <= i < system_dictionary@.len() ==> {
                &&& valid_moves(start_system@, #[trigger] reach[i])
                &&& reach[i].len() == lev[i]
                &&& replay_final(start_system@, reach[i]) == system_dictionary@[i]
            },
        decreases max_depth - depth, 2 * (u32::MAX - system_dictionary@.len()) + queue@.len(),
    {
        let ghost q0 = queue@;
        let element = match queue.pop_front() {
            Some(e) => e,
            None => {
                assert(false);
                return graph;
            },
        };
        let node = match element {
            QueueElement::NewLevel => {
                assert(h == m) by {
                    if h < m {
                        assert(q0[0] == QueueElement::System((h + 0) as SystemId));
                    }
                }
                depth = depth + 1;
                queue.push_back(QueueElement::NewLevel);
                proof {
                    m = system_dictionary@.len() as int;
                    assert forall|t: int| 0 <= t < m - h implies #[trigger] queue@[t] == QueueElement::System((h + t) as SystemId) by {
                        assert(queue@[t] == q0[t + 1]);
                    }
                }
                continue;
            },
            QueueElement::System(system) => system,
        };
        assert(h < m && node == h) by {
            if h == m {
                assert(q0[0] == QueueElement::NewLevel);
            } else {
                assert(q0[0] == QueueElement::System((h + 0) as SystemId));
            }
        }
        let ghost d0 = system_dictionary@;
        let (value, solved) = match system_dictionary.get_system(&node) {
            Some(system) => (solution_value(system, evaluation_mode), system.is_solved()),
            None => (0, false),
        };
        let neighbours = match build_neighbours(node, &mut system_dictionary) {
            Ok(ns) => ns,
            Err(_) => {
                proof {
                    lemma_explored_from_grow(start_system@, *evaluation_mode, d0, system_dictionary@, graph.state_graph@);
                    lemma_nodes_within_reach(start_system@, d0, graph.state_graph@, reach, lev, max_depth as nat);
                    let d1 = system_dictionary@;
                    assert forall|i: int| 0 <= i < graph.state_graph@.len() implies reached_within(start_system@, d1[(#[trigger] graph.state_graph@[i]).system as int], max_depth as nat) by {
                        assert(reached_within(start_system@, d0[graph.state_graph@[i].system as int], max_depth as nat));
                        assert(d1[graph.state_graph@[i].system as int] == d0[graph.state_graph@[i].system as int]);
                    }
                    lemma_distinct_grows(d0, d1, d0[h]);
                    assert forall|i: int| 0 <= i < d1.len() implies reached_within(start_system@, #[trigger] d1[i], (max_depth + 1) as nat) by {
                        if i < d0.len() {
                            assert(d1[i] == d0[i]);
                            assert(valid_moves(start_system@, reach[i]));
                        } else {
                            let (s, d) = choose|s: int, d: int| #[trigger] step_is_valid(d0[h], s, d) && d1[i] == spec_poured(d0[h], s, d);
                            let st = crate::game_elements::glass_system::mk_step(s, d);
                            assert(st.source as int == s && st.destination as int == d);
                            assert(replay_final(start_system@, reach[h]) == d0[h]);
                            lemma_moves_then(start_system@, reach[h], st);
                            assert(valid_moves(start_system@, reach[h].push(st)));
                        }
                    }
                    assert(many_within(start_system@, d1, max_depth as nat));
                }
                return graph;
            },
        };
        let ghost q1 = queue@;
        let ghost d1 = system_dictionary@;
        let mut graph_node = GeneralNode { system: node, solution_value: value, is_solved: solved, neighbours: Vec::new() };
        let mut k: usize = 0;
        while k < neighbours.len()
            invariant
                k <= neighbours@.len(),
                graph_node.neighbours@ == neighbours@.subrange(0, k as int),
                graph_node.system == node,
                graph_node.solution_value == value,
                graph_node.is_solved == solved,
                queue@.len() == q1.len() + k,
                forall|t: int| 0 <= t < q1.len() ==> #[trigger] queue@[t] == q1[t],
                forall|t: int| q1.len() <= t < queue@.len() ==> #[trigger] queue@[t] == QueueElement::System(neighbours@[t - q1.len()].system),
            decreases neighbours@.len() - k,
        {
            queue.push_back(QueueElement::System(neighbours[k].system));
            graph_node.neighbours.push(neighbours[k]);
            k = k + 1;
            assert(graph_node.neighbours@ =~= neighbours@.subrange(0, k as int));
        }
        assert(graph_node.neighbours@ =~= neighbours@);
        let ghost g0 = graph.state_graph@;
        graph.state_graph.push(graph_node);
        proof {
            let n = neighbours@.len();
            let lev1 = lev + Seq::new(n, |i: int| (depth + 1) as nat);
            let l0 = d0.len() as int;
            assert forall|t: int| m - (h + 1) < t < queue@.len() implies #[trigger] queue@[t] == QueueElement::System((h + 1 + t - 1) as SystemId) by {
                if t < q1.len() {
                    assert(queue@[t] == q0[t + 1]);
                } else {
                    assert(neighbours@[t - q1.len()].system == l0 + (t - q1.len()));
                }
            }
            assert forall|t: int| 0 <= t < m - (h + 1) implies #[trigger] queue@[t] == QueueElement::System((h + 1 + t) as SystemId) by {
                assert(queue@[t] == q0[t + 1]);
            }
            assert(queue@[m - (h + 1)] == q0[m - h]);
            lemma_explored_from_grow(start_system@, *evaluation_mode, d0, d1, g0);
            lemma_distinct_grows(d0, d1, d0[h]);
            let nodes = graph.state_graph@;
            let vs = choose|vs: Seq<Step>| {
                &&& lists_valid_steps(d0[h], vs)
                &&& neighbours@ == fresh_moves(d0, d0[h], vs)
            };
            assert(d1.take(l0) =~= d0);
            assert(graph_node.neighbours@ == fresh_moves(d1.take(l0), d1[graph_node.system as int], vs));
            assert(nodes[h] == graph_node);
            assert forall|i: int| 0 <= i < g0.len() implies #[trigger] nodes[i] == g0[i] by {}
            assert forall|c: int| 1 <= c < d1.len() implies #[trigger] listed(nodes, c) by {
                if c < l0 {
                    assert(listed(g0, c));
                    let (a, k) = choose|a: int, k: int| 0 <= a < g0.len() && 0 <= k < g0[a].neighbours@.len() && (#[trigger] g0[a].neighbours@[k]).system == c;
                    assert(nodes[a] == g0[a]);
                    assert(nodes[a].neighbours@[k].system == c);
                } else {
                    let k = c - l0;
                    assert(neighbours@[k].system == c);
                    assert(nodes[h].neighbours@[k] == neighbours@[k]);
                }
            }
            assert forall|i: int, ka: int, kb: int| 0 <= i < nodes.len() && 0 <= ka < kb < nodes[i].neighbours@.len()
                implies (#[trigger] nodes[i].neighbours@[ka]).system < (#[trigger] nodes[i].neighbours@[kb]).system by {
                if i < g0.len() {
                    assert(nodes[i] == g0[i]);
                } else {
                    assert(nodes[i].neighbours@[ka] == neighbours@[ka]);
                    assert(nodes[i].neighbours@[kb] == neighbours@[kb]);
                }
            }
            assert forall|a: int, b: int, ka: int, kb: int|
                0 <= a < b < nodes.len() && 0 <= ka < nodes[a].neighbours@.len() && 0 <= kb < nodes[b].neighbours@.len()
                implies (#[trigger] nodes[a].neighbours@[ka]).system < (#[trigger] nodes[b].neighbours@[kb]).system by {
                assert(nodes[a] == g0[a]);
                if b < g0.len() {
                    assert(nodes[b] == g0[b]);
                } else {
                    assert(node_explored(*evaluation_mode, d0, g0[a]));
                    assert(g0[a].neighbours@[ka].system < d0.len());
                    assert(nodes[b].neighbours@[kb] == neighbours@[kb]);
                }
            }
            assert forall|i: int| 0 <= i < graph.state_graph@.len() implies node_explored(*evaluation_mode, d1, #[trigger] graph.state_graph@[i]) by {
                if i < g0.len() {
                    assert(graph.state_graph@[i] == g0[i]);
                } else {
                    assert(graph.state_graph@[i] == graph_node);
                    assert forall|kk: int| 0 <= kk < graph_node.neighbours@.len() implies {
                        let nb = #[trigger] graph_node.neighbours@[kk];
                        &&& graph_node.system < nb.system < d1.len()
                        &&& step_is_valid(d1[graph_node.system as int], nb.step.source as int, nb.step.destination as int)
                        &&& d1[nb.system as int] == spec_poured(d1[graph_node.system as int], nb.step.source as int, nb.step.destination as int)
                        &&& !registered(d1.subrange(0, nb.system as int), d1[nb.system as int])
                    } by {
                        assert(graph_node.neighbours@[kk] == neighbours@[kk]);
                    }
                }
            }
            assert forall|a: int, b: int| 0 <= a < b < graph.state_graph@.len() implies (#[trigger] graph.state_graph@[a]).system < (#[trigger] graph.state_graph@[b]).system by {
                assert(graph.state_graph@[a] == g0[a]);
                if b < g0.len() {
                    assert(graph.state_graph@[b] == g0[b]);
                }
            }
            assert forall|i: int| 0 <= i < h + 1 implies (#[trigger] graph.state_graph@[i]).system == i by {
                if i < h {
                    assert(graph.state_graph@[i] == g0[i]);
                }
            }
            assert forall|i: int| 0 <= i < h + 1 implies #[trigger] closed_at(d1, level_dist(lev1), i) by {
                assert(d1[i] == d0[i]);
                assert(lev1[i] == lev[i]);
                if i < h {
                    assert(closed_at(d0, level_dist(lev), i));
                    assert forall|s: int, d: int| #[trigger] step_is_valid(d1[i], s, d) implies exists|j: int| {
                        &&& 0 <= j < d1.len()
                        &&& same_system(#[trigger] d1[j], spec_poured(d1[i], s, d))
                        &&& level_dist(lev1)(j) <= level_dist(lev1)(i) + 1
                    } by {
                        let j = choose|j: int| {
                            &&& 0 <= j < d0.len()
                            &&& same_system(#[trigger] d0[j], spec_poured(d0[i], s, d))
                            &&& level_dist(lev)(j) <= level_dist(lev)(i) + 1
                        };
                        assert(d1[j] == d0[j]);
                        assert(lev1[j] == lev[j]);
                    }
                } else {
                    assert forall|s: int, d: int| #[trigger] step_is_valid(d1[i], s, d) implies exists|j: int| {
                        &&& 0 <= j < d1.len()
                        &&& same_system(#[trigger] d1[j], spec_poured(d1[i], s, d))
                        &&& level_dist(lev1)(j) <= level_dist(lev1)(i) + 1
                    } by {
                        assert(registered(d1, spec_poured(d0[h], s, d)));
                        let j = choose|j: int| 0 <= j < d1.len() && same_system(#[trigger] d1[j], spec_poured(d0[h], s, d));
                        if j < l0 {
                            assert(lev1[j] == lev[j]);
                            if j >= m {
                                assert(lev[j] == depth + 1);
                            } else {
                                assert(lev[j] <= depth);
                            }
                        } else {
                            assert(lev1[j] == depth + 1);
                        }
                    }
                }
            }
            assert forall|i: int| 0 <= i < m implies #[trigger] lev1[i] <= depth by {
                assert(lev1[i] == lev[i]);
            }
            assert forall|i: int| h + 1 <= i < m implies #[trigger] lev1[i] == depth by {
                assert(lev1[i] == lev[i]);
            }
            assert forall|i: int| m <= i < lev1.len() implies #[trigger] lev1[i] == depth + 1 by {
                if i < l0 {
                    assert(lev1[i] == lev[i]);
                }
            }
            let reach1 = reach + Seq::new(n, |i: int| reach[h].push(neighbours@[i].step));
            assert forall|i: int| 0 <= i < d1.len() implies {
                &&& valid_moves(start_system@, #[trigger] reach1[i])
                &&& reach1[i].len() == lev1[i]
                &&& replay_final(start_system@, reach1[i]) == d1[i]
            } by {
                if i < l0 {
                    assert(reach1[i] == reach[i]);
                    assert(lev1[i] == lev[i]);
                    assert(d1[i] == d0[i]);
                } else {
                    let nb = neighbours@[i - l0];
                    assert(nb.system == i);
                    assert(reach1[i] == reach[h].push(nb.step));
                    assert(replay_final(start_system@, reach[h]) == d0[h]);
                    lemma_moves_then(start_system@, reach[h], nb.step);
                }
            }
            assert forall|i: int| 0 <= i < h + 1 implies #[trigger] lev1[i] < max_depth by {
                assert(lev1[i] == lev[i]);
            }
            lev = lev1;
            reach = reach1;
            h = h + 1;
        }
    }
    proof {
        let dict = system_dictionary@;
        assert(depth == max_depth);
        assert forall|steps: Seq<Step>| #[trigger] valid_moves(start_system@, steps) && steps.len() < max_depth implies exists|i: int| {
            &&& 0 <= i < graph.state_graph@.len()
            &&& same_system(dict[(#[trigger] graph.state_graph@[i]).system as int], replay_final(start_system@, steps))
        } by {
            let explored = |i: int| i < h;
            assert forall|i: int| 0 <= i < dict.len() && #[trigger] level_dist(lev)(i) < max_depth implies explored(i) by {
                if i >= h {
                    if i < m {
                        assert(lev[i] == depth);
                    } else {
                        assert(lev[i] == depth + 1);
                    }
                }
            }
            lemma_moves_stay_explored(dict, level_dist(lev), explored, start_system@, 0, steps, max_depth as nat);
            let k = choose|k: int| 0 <= k < dict.len() && #[trigger] explored(k) && same_system(dict[k], replay_final(start_system@, steps));
            assert(graph.state_graph@[k].system == k);
        }
        assert(covers(start_system@, dict, graph.state_graph@, max_depth as nat));
        lemma_nodes_within_reach(start_system@, dict, graph.state_graph@, reach, lev, max_depth as nat);
    }
    graph.is_complete = depth < max_depth;
    graph
}

} // verus!
