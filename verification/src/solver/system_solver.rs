use std::collections::HashMap;
use vstd::prelude::*;

use crate::game_elements::glass::Glass;
use crate::game_elements::glass_system::{
    failing_step, indices_ok, lemma_move_reordered, lemma_moves_then, lemma_poured_keeps_tops, lemma_solved_has_no_move,
    lemma_solved_same_system, replay_final, same_system, valid_moves,
    spec_is_solved, spec_poured, step_is_valid, tops_ok, GlassSystem,
};
use crate::game_elements::step::Step;
use crate::solver::data_structures::system_dictionary::registered;
use crate::solver::data_structures::{EvaluatedNode, Neighbour, Paths, SolverQueue, SystemDictionary};
use crate::solver::evaluation::value_fits;
use crate::solver::solution::WaterSortSolution;
use crate::solver::{solution_value, SolutionValueMode, SolverError, SystemId};

verus! {

broadcast use vstd::std_specs::hash::group_hash_axioms;

/// Every registered system has its tops within capacity.
pub open spec fn dict_tops_ok(dict: Seq<Seq<Glass>>) -> bool {
    forall|i: int| 0 <= i < dict.len() ==> tops_ok(#[trigger] dict[i])
}

/// The recorded paths: each reached system `c` was reached by a step from a system `p`
/// registered before it, which is the start (id 0) or was itself reached.
#[verifier::opaque]
pub open spec fn paths_wf(paths: Map<SystemId, (Step, SystemId)>, dict: Seq<Seq<Glass>>) -> bool {
    forall|c: SystemId| #[trigger] paths.contains_key(c) ==> {
        let (st, p) = paths[c];
        &&& c < dict.len()
        &&& p < c
        &&& (p == 0 || paths.contains_key(p))
        &&& step_is_valid(dict[p as int], st.source as int, st.destination as int)
        &&& dict[c as int] == spec_poured(dict[p as int], st.source as int, st.destination as int)
    }
}

/// Registering more systems keeps the recorded paths consistent.
proof fn lemma_paths_grow_dict(paths: Map<SystemId, (Step, SystemId)>, d0: Seq<Seq<Glass>>, d1: Seq<Seq<Glass>>)
    requires
        paths_wf(paths, d0),
        d0.len() <= d1.len(),
        forall|i: int| 0 <= i < d0.len() ==> #[trigger] d1[i] == d0[i],
    ensures
        paths_wf(paths, d1),
{
    reveal(paths_wf);
}

/// Recording how a new system was reached keeps the recorded paths consistent.
proof fn lemma_paths_insert(paths: Map<SystemId, (Step, SystemId)>, dict: Seq<Seq<Glass>>, c: SystemId, st: Step, p: SystemId)
    requires
        paths_wf(paths, dict),
        !paths.contains_key(c),
        c < dict.len(),
        p < c,
        p == 0 || paths.contains_key(p),
        step_is_valid(dict[p as int], st.source as int, st.destination as int),
        dict[c as int] == spec_poured(dict[p as int], st.source as int, st.destination as int),
    ensures
        paths_wf(paths.insert(c, (st, p)), dict),
{
    reveal(paths_wf);
}

/// What the recorded paths say of one reached system.
proof fn lemma_paths_entry(paths: Map<SystemId, (Step, SystemId)>, dict: Seq<Seq<Glass>>, c: SystemId)
    requires
        paths_wf(paths, dict),
        paths.contains_key(c),
    ensures
        c < dict.len(),
        paths[c].1 < c,
        paths[c].1 == 0 || paths.contains_key(paths[c].1),
        step_is_valid(dict[paths[c].1 as int], paths[c].0.source as int, paths[c].0.destination as int),
        dict[c as int] == spec_poured(dict[paths[c].1 as int], paths[c].0.source as int, paths[c].0.destination as int),
{
    reveal(paths_wf);
}

/// No paths are recorded at the start.
proof fn lemma_paths_empty(dict: Seq<Seq<Glass>>)
    ensures
        paths_wf(Map::<SystemId, (Step, SystemId)>::empty(), dict),
{
    reveal(paths_wf);
}

/// The steps are moves of the game that lead from `from` to `to` (so none of them fails).
pub open spec fn leads_to(from: Seq<Glass>, steps: Seq<Step>, to: Seq<Glass>) -> bool {
    valid_moves(from, steps) && failing_step(from, steps) is None && replay_final(from, steps) == to
}

/// A found solution: moves of the game that can be carried out from the start one after
/// another and end in a solved system.
pub open spec fn solves(start: Seq<Glass>, steps: Seq<Step>) -> bool {
    valid_moves(start, steps) && failing_step(start, steps) is None && spec_is_solved(replay_final(start, steps))
}

/// The number of recorded steps that lead from the start (id 0) to the system with id `c`.
pub open spec fn path_len(paths: Map<SystemId, (Step, SystemId)>, c: SystemId) -> nat
    decreases c,
{
    if c != 0 && paths.contains_key(c) && paths[c].1 < c {
        1 + path_len(paths, paths[c].1)
    } else {
        0
    }
}

/// The recorded steps that lead from the start (id 0) to the system with id `c`, in order.
pub open spec fn recorded_path(paths: Map<SystemId, (Step, SystemId)>, c: SystemId) -> Seq<Step>
    decreases c,
{
    if c != 0 && paths.contains_key(c) && paths[c].1 < c {
        recorded_path(paths, paths[c].1).push(paths[c].0)
    } else {
        Seq::empty()
    }
}

/// The distances of the registered systems along the recorded paths.
pub open spec fn path_dist(paths: Map<SystemId, (Step, SystemId)>) -> spec_fn(int) -> nat {
    |i: int| path_len(paths, i as SystemId)
}

/// No distances at all: every system counts as distance 0.
pub open spec fn flat_dist() -> spec_fn(int) -> nat {
    |i: int| 0nat
}

/// Every move from the registered system `i` leads to a registered system (up to the order
/// of the glasses) whose distance is at most one more than that of `i`.
pub open spec fn closed_at(dict: Seq<Seq<Glass>>, dist: spec_fn(int) -> nat, i: int) -> bool {
    forall|s: int, d: int| #[trigger] step_is_valid(dict[i], s, d) ==> exists|j: int| {
        &&& 0 <= j < dict.len()
        &&& same_system(#[trigger] dict[j], spec_poured(dict[i], s, d))
        &&& dist(j) <= dist(i) + 1
    }
}

/// Recording paths of new systems keeps the distances of the systems reached before.
proof fn lemma_path_len_kept(p0: Map<SystemId, (Step, SystemId)>, p1: Map<SystemId, (Step, SystemId)>, dict: Seq<Seq<Glass>>, c: SystemId)
    requires
        paths_wf(p0, dict),
        c == 0 || p0.contains_key(c),
        forall|x: SystemId| #[trigger] p0.contains_key(x) ==> p1.contains_key(x) && p1[x] == p0[x],
    ensures
        path_len(p1, c) == path_len(p0, c),
    decreases c,
{
    if c != 0 {
        lemma_paths_entry(p0, dict, c);
        lemma_path_len_kept(p0, p1, dict, p0[c].1);
    }
}

/// A sequence of moves that solves the system registered as `j` must leave the explored part
/// of the registry: it reaches a registered system `k` that is not explored, and it is longer
/// than the distance of `k` minus that of `j`. This holds when every explored system has all
/// its moves registered and no registered system is solved.
proof fn lemma_solving_moves_leave(
    dict: Seq<Seq<Glass>>,
    dist: spec_fn(int) -> nat,
    explored: spec_fn(int) -> bool,
    a: Seq<Glass>,
    j: int,
    steps: Seq<Step>,
)
    requires
        0 <= j < dict.len(),
        same_system(dict[j], a),
        forall|i: int| 0 <= i < dict.len() && #[trigger] explored(i) ==> closed_at(dict, dist, i),
        forall|i: int| 0 <= i < dict.len() ==> !spec_is_solved(#[trigger] dict[i]),
        valid_moves(a, steps),
        spec_is_solved(replay_final(a, steps)),
    ensures
        exists|k: int| 0 <= k < dict.len() && !explored(k) && #[trigger] dist(k) + 1 <= dist(j) + steps.len(),
    decreases steps.len(),
{
    if steps.len() == 0 {
        lemma_solved_same_system(dict[j], a);
        assert(false);
    } else if !explored(j) {
        assert(dist(j) + 1 <= dist(j) + steps.len());
    } else {
        let s = steps[0].source as int;
        let d = steps[0].destination as int;
        assert(same_system(a, dict[j]));
        let m = lemma_move_reordered(a, dict[j], s, d);
        assert(closed_at(dict, dist, j));
        assert(step_is_valid(dict[j], m.0, m.1));
        let j2 = choose|j2: int| {
            &&& 0 <= j2 < dict.len()
            &&& same_system(#[trigger] dict[j2], spec_poured(dict[j], m.0, m.1))
            &&& dist(j2) <= dist(j) + 1
        };
        let next = spec_poured(a, s, d);
        assert(same_system(dict[j2], next));
        lemma_solving_moves_leave(dict, dist, explored, next, j2, steps.drop_first());
        let k = choose|k: int| 0 <= k < dict.len() && !explored(k) && #[trigger] dist(k) + 1 <= dist(j2) + steps.drop_first().len();
        assert(dist(k) + 1 <= dist(j) + steps.len());
    }
}

/// Moves from the system registered as `j` stay among the explored systems (up to the order of
/// the glasses) as long as they are fewer than `bound` minus the distance of `j`, when every
/// registered system closer than `bound` is explored and every explored system has all its
/// moves registered.
pub(crate) proof fn lemma_moves_stay_explored(
    dict: Seq<Seq<Glass>>,
    dist: spec_fn(int) -> nat,
    explored: spec_fn(int) -> bool,
    a: Seq<Glass>,
    j: int,
    steps: Seq<Step>,
    bound: nat,
)
    requires
        0 <= j < dict.len(),
        same_system(dict[j], a),
        forall|i: int| 0 <= i < dict.len() && #[trigger] explored(i) ==> closed_at(dict, dist, i),
        forall|i: int| 0 <= i < dict.len() && #[trigger] dist(i) < bound ==> explored(i),
        valid_moves(a, steps),
        dist(j) + steps.len() < bound,
    ensures
        exists|k: int| 0 <= k < dict.len() && #[trigger] explored(k) && same_system(dict[k], replay_final(a, steps)),
    decreases steps.len(),
{
    assert(explored(j));
    if steps.len() == 0 {
        assert(replay_final(a, steps) == a);
    } else {
        let s = steps[0].source as int;
        let d = steps[0].destination as int;
        assert(same_system(a, dict[j]));
        let m = lemma_move_reordered(a, dict[j], s, d);
        assert(closed_at(dict, dist, j));
        assert(step_is_valid(dict[j], m.0, m.1));
        let j2 = choose|j2: int| {
            &&& 0 <= j2 < dict.len()
            &&& same_system(#[trigger] dict[j2], spec_poured(dict[j], m.0, m.1))
            &&& dist(j2) <= dist(j) + 1
        };
        let next = spec_poured(a, s, d);
        assert(same_system(dict[j2], next));
        lemma_moves_stay_explored(dict, dist, explored, next, j2, steps.drop_first(), bound);
        assert(replay_final(a, steps) == replay_final(next, steps.drop_first()));
    }
}

/// A found solution replays: carrying out its steps one after another from the start fails
/// at no step and ends in a solved system (so `solve` gives back a solved system for it).
pub proof fn lemma_solution_replays(start: Seq<Glass>, steps: Seq<Step>)
    requires
        solves(start, steps),
    ensures
        failing_step(start, steps) is None,
        spec_is_solved(replay_final(start, steps)),
{
}

/// One move leads from `from` to `to`.
pub open spec fn one_move(from: Seq<Glass>, to: Seq<Glass>) -> bool {
    exists|s: int, d: int| #[trigger] step_is_valid(from, s, d) && to == spec_poured(from, s, d)
}

/// Some moves lead from `start` to `sys`.
pub open spec fn reachable(start: Seq<Glass>, sys: Seq<Glass>) -> bool {
    exists|steps: Seq<Step>| #[trigger] valid_moves(start, steps) && replay_final(start, steps) == sys
}

/// No two of the systems are the same, whatever the order of their glasses.
pub open spec fn distinct_systems(d: Seq<Seq<Glass>>) -> bool {
    forall|i: int, j: int| 0 <= i < j < d.len() ==> !same_system(#[trigger] d[i], #[trigger] d[j])
}

/// `u32::MAX` systems, no two the same whatever the order of their glasses, all reachable
/// from `start`: more than the ids of a search can number.
pub open spec fn many_reachable(start: Seq<Glass>, d: Seq<Seq<Glass>>) -> bool {
    &&& d.len() == u32::MAX
    &&& distinct_systems(d)
    &&& forall|i: int| 0 <= i < d.len() ==> reachable(start, #[trigger] d[i])
}

/// The systems registered after the old ones each come by one move from `from`, and each
/// is new: the same as no system registered before it.
pub open spec fn grown_by_moves(old_d: Seq<Seq<Glass>>, new_d: Seq<Seq<Glass>>, from: Seq<Glass>) -> bool {
    &&& old_d.len() <= new_d.len()
    &&& forall|i: int| 0 <= i < old_d.len() ==> #[trigger] new_d[i] == old_d[i]
    &&& forall|i: int| old_d.len() <= i < new_d.len() ==> {
        &&& one_move(from, #[trigger] new_d[i])
        &&& !registered(new_d.subrange(0, i), new_d[i])
    }
}

/// A system reachable from the start stays so after one more move.
pub(crate) proof fn lemma_reachable_then(start: Seq<Glass>, a: Seq<Glass>, b: Seq<Glass>)
    requires
        a.len() <= usize::MAX,
        reachable(start, a),
        one_move(a, b),
    ensures
        reachable(start, b),
{
    let steps = choose|steps: Seq<Step>| #[trigger] valid_moves(start, steps) && replay_final(start, steps) == a;
    let (s, d) = choose|s: int, d: int| #[trigger] step_is_valid(a, s, d) && b == spec_poured(a, s, d);
    let st = crate::game_elements::glass_system::mk_step(s, d);
    assert(st.source as int == s && st.destination as int == d);
    lemma_moves_then(start, steps, st);
    assert(valid_moves(start, steps.push(st)));
}

/// Growing a registry of distinct systems by new systems keeps it distinct.
pub(crate) proof fn lemma_distinct_grows(d0: Seq<Seq<Glass>>, d1: Seq<Seq<Glass>>, from: Seq<Glass>)
    requires
        distinct_systems(d0),
        grown_by_moves(d0, d1, from),
    ensures
        distinct_systems(d1),
{
    assert forall|i: int, j: int| 0 <= i < j < d1.len() implies !same_system(#[trigger] d1[i], #[trigger] d1[j]) by {
        if j < d0.len() {
            assert(d1[i] == d0[i] && d1[j] == d0[j]);
        } else {
            assert(!registered(d1.subrange(0, j), d1[j]));
            assert(d1.subrange(0, j)[i] == d1[i]);
        }
    }
}

/// Growing a registry of distinct systems reachable from the start by new systems one move
/// from one of them keeps it so.
proof fn lemma_registry_grows(start: Seq<Glass>, d0: Seq<Seq<Glass>>, d1: Seq<Seq<Glass>>, node: int)
    requires
        0 <= node < d0.len(),
        d0[node].len() <= usize::MAX,
        distinct_systems(d0),
        forall|i: int| 0 <= i < d0.len() ==> reachable(start, #[trigger] d0[i]),
        grown_by_moves(d0, d1, d0[node]),
    ensures
        distinct_systems(d1),
        forall|i: int| 0 <= i < d1.len() ==> reachable(start, #[trigger] d1[i]),
{
    lemma_distinct_grows(d0, d1, d0[node]);
    assert forall|i: int| 0 <= i < d1.len() implies reachable(start, #[trigger] d1[i]) by {
        if i < d0.len() {
            assert(d1[i] == d0[i]);
        } else {
            assert(one_move(d0[node], d1[i]));
            assert(reachable(start, d0[node]));
            lemma_reachable_then(start, d0[node], d1[i]);
        }
    }
}

/// The start alone: distinct and reachable from itself.
proof fn lemma_registry_start(start: Seq<Glass>, d: Seq<Seq<Glass>>)
    requires
        d == seq![start],
    ensures
        distinct_systems(d),
        forall|i: int| 0 <= i < d.len() ==> reachable(start, #[trigger] d[i]),
{
    let e = Seq::<Step>::empty();
    assert(valid_moves(start, e) && replay_final(start, e) == start);
    assert(d[0] == start);
}

/// Given a possible solution, iterate through the steps and
/// attempt to solve the game by mutating the starting system.
pub fn solve(start_system: GlassSystem, solution: &WaterSortSolution) -> (r: Result<GlassSystem, SolverError>)
    requires
        tops_ok(start_system@),
    ensures
        failing_step(start_system@, solution@) matches Some(k) ==> r == Err::<GlassSystem, SolverError>(SolverError::InvalidSolution(k as usize)),
        failing_step(start_system@, solution@) is None ==> (r matches Ok(f) && f@ == replay_final(start_system@, solution@)),
{
    let ghost start = start_system@;
    let mut system = start_system.clone();
    let steps = solution.steps();
    let n = steps.len();
    let mut idx: usize = 0;
    assert(solution@.skip(0) =~= solution@);
    while idx < n
        invariant
            n == solution@.len(),
            start == start_system@,
            steps@ == solution@,
            idx <= n,
            tops_ok(system@),
            failing_step(start, solution@) == (match failing_step(system@, solution@.skip(idx as int)) {
                Some(k) => Some((k + idx) as nat),
                None => None::<nat>,
            }),
            replay_final(start, solution@) == replay_final(system@, solution@.skip(idx as int)),
        decreases n - idx,
    {
        let step = steps[idx];
        let ghost rest = solution@.skip(idx as int);
        assert(rest[0] == step);
        assert(rest.drop_first() =~= solution@.skip(idx + 1));
        let ghost before = system@;
        match system.try_pour(step.source, step.destination) {
            Ok(()) => {
                proof {
                    assert(indices_ok(before, step.source as int, step.destination as int));
                    lemma_poured_keeps_tops(before, step.source as int, step.destination as int);
                }
            },
            Err(_) => {
                assert(!indices_ok(before, step.source as int, step.destination as int));
                assert(failing_step(before, rest) == Some(0nat));
                assert(failing_step(start, solution@) == Some(idx as nat));
                return Err(SolverError::InvalidSolution(idx));
            },
        }
        idx = idx + 1;
    }
    assert(solution@.skip(n as int) =~= Seq::<Step>::empty());
    Ok(system)
}

/// The systems the neighbours' moves lead to from `sys`.
pub open spec fn move_results(sys: Seq<Glass>, ns: Seq<Neighbour>) -> Seq<Seq<Glass>> {
    ns.map_values(|nb: Neighbour| spec_poured(sys, nb.step.source as int, nb.step.destination as int))
}

/// The moves of `steps`, taken in order from `sys`, whose result is new (the same as no
/// system of `reg` and as no result of an earlier new move), each with the next free id.
pub open spec fn fresh_moves(reg: Seq<Seq<Glass>>, sys: Seq<Glass>, steps: Seq<Step>) -> Seq<Neighbour>
    decreases steps.len(),
{
    if steps.len() == 0 {
        Seq::empty()
    } else {
        let prev = fresh_moves(reg, sys, steps.drop_last());
        let st = steps.last();
        let res = spec_poured(sys, st.source as int, st.destination as int);
        if registered(reg + move_results(sys, prev), res) {
            prev
        } else {
            prev.push(Neighbour { step: st, system: (reg.len() + prev.len()) as SystemId })
        }
    }
}

/// New systems registered one per neighbour, each reached by its neighbour's move and new,
/// make a registry grown by moves.
proof fn lemma_neighbours_grown(d0: Seq<Seq<Glass>>, d1: Seq<Seq<Glass>>, from: Seq<Glass>, ns: Seq<Neighbour>)
    requires
        d1.len() == d0.len() + ns.len(),
        forall|i: int| 0 <= i < d0.len() ==> #[trigger] d1[i] == d0[i],
        forall|i: int| 0 <= i < ns.len() ==> {
            let nb = #[trigger] ns[i];
            &&& nb.system == d0.len() + i
            &&& step_is_valid(from, nb.step.source as int, nb.step.destination as int)
            &&& d1[nb.system as int] == spec_poured(from, nb.step.source as int, nb.step.destination as int)
            &&& !registered(d1.subrange(0, nb.system as int), d1[nb.system as int])
        },
    ensures
        grown_by_moves(d0, d1, from),
{
    assert forall|i: int| d0.len() <= i < d1.len() implies {
        &&& one_move(from, #[trigger] d1[i])
        &&& !registered(d1.subrange(0, i), d1[i])
    } by {
        let nb = ns[i - d0.len()];
        assert(nb.system == i);
        assert(step_is_valid(from, nb.step.source as int, nb.step.destination as int));
    }
}

/// Collects all valid steps and creates all new undiscovered neighbours for each possible step.
pub(crate) fn build_neighbours(system_id: SystemId, system_dictionary: &mut SystemDictionary) -> (r: Result<Vec<Neighbour>, SolverError>)
    requires
        system_id < old(system_dictionary)@.len(),
        old(system_dictionary)@.len() <= u32::MAX,
        dict_tops_ok(old(system_dictionary)@),
    ensures
        final(system_dictionary)@.len() <= u32::MAX,
        dict_tops_ok(final(system_dictionary)@),
        old(system_dictionary)@.len() <= final(system_dictionary)@.len(),
        forall|i: int| 0 <= i < old(system_dictionary)@.len() ==> #[trigger] final(system_dictionary)@[i] == old(system_dictionary)@[i],
        forall|i: int| old(system_dictionary)@.len() <= i < final(system_dictionary)@.len() ==> (#[trigger] final(system_dictionary)@[i]).len() == old(system_dictionary)@[system_id as int].len(),
        r is Err ==> r == Err::<Vec<Neighbour>, SolverError>(SolverError::TooManySystems) && final(system_dictionary)@.len() == u32::MAX,
        grown_by_moves(old(system_dictionary)@, final(system_dictionary)@, old(system_dictionary)@[system_id as int]),
        r matches Ok(ns) ==> {
            &&& exists|vs: Seq<Step>| {
                &&& crate::game_elements::glass_system::lists_valid_steps(old(system_dictionary)@[system_id as int], vs)
                &&& ns@ == fresh_moves(old(system_dictionary)@, old(system_dictionary)@[system_id as int], vs)
            }
            &&& final(system_dictionary)@ == old(system_dictionary)@ + move_results(old(system_dictionary)@[system_id as int], ns@)
            &&& final(system_dictionary)@.len() == old(system_dictionary)@.len() + ns@.len()
            &&& forall|i: int| 0 <= i < ns@.len() ==> {
                let nb = #[trigger] ns@[i];
                &&& nb.system == old(system_dictionary)@.len() + i
                &&& step_is_valid(old(system_dictionary)@[system_id as int], nb.step.source as int, nb.step.destination as int)
                &&& final(system_dictionary)@[nb.system as int] == spec_poured(old(system_dictionary)@[system_id as int], nb.step.source as int, nb.step.destination as int)
                &&& !registered(final(system_dictionary)@.subrange(0, nb.system as int), final(system_dictionary)@[nb.system as int])
            }
            &&& forall|s: int, d: int| step_is_valid(old(system_dictionary)@[system_id as int], s, d) ==> registered(final(system_dictionary)@, spec_poured(old(system_dictionary)@[system_id as int], s, d))
        },
{
    let ghost old_dict = system_dictionary@;
    let system = match system_dictionary.get_system(&system_id) {
        Some(s) => s.clone(),
        None => {
            assert(false);
            return Ok(Vec::new());
        },
    };
    let ghost cur = system@;
    let n_glasses = system.get_state().len();
    let valid_steps = system.get_valid_steps();
    let mut neighbours: Vec<Neighbour> = Vec::new();
    let mut k: usize = 0;
    assert(valid_steps@.take(0) =~= Seq::<Step>::empty());
    assert(old_dict + move_results(cur, neighbours@) =~= old_dict);
    while k < valid_steps.len()
        invariant
            old_dict == old(system_dictionary)@,
            cur == old_dict[system_id as int],
            cur == system@,
            cur.len() == n_glasses,
            tops_ok(cur),
            system_id < old_dict.len(),
            crate::game_elements::glass_system::lists_valid_steps(cur, valid_steps@),
            k <= valid_steps@.len(),
            system_dictionary@.len() <= u32::MAX,
            dict_tops_ok(system_dictionary@),
            system_dictionary@.len() == old_dict.len() + neighbours@.len(),
            forall|i: int| 0 <= i < old_dict.len() ==> #[trigger] system_dictionary@[i] == old_dict[i],
            forall|i: int| old_dict.len() <= i < system_dictionary@.len() ==> (#[trigger] system_dictionary@[i]).len() == cur.len(),
            forall|i: int| 0 <= i < neighbours@.len() ==> {
                let nb = #[trigger] neighbours@[i];
                &&& nb.system == old_dict.len() + i
                &&& step_is_valid(cur, nb.step.source as int, nb.step.destination as int)
                &&& system_dictionary@[nb.system as int] == spec_poured(cur, nb.step.source as int, nb.step.destination as int)
                &&& !registered(system_dictionary@.subrange(0, nb.system as int), system_dictionary@[nb.system as int])
            },
            forall|t: int| 0 <= t < k ==> registered(system_dictionary@, spec_poured(cur, #[trigger] valid_steps@[t].source as int, valid_steps@[t].destination as int)),
            neighbours@ == fresh_moves(old_dict, cur, valid_steps@.take(k as int)),
            system_dictionary@ == old_dict + move_results(cur, neighbours@),
        decreases valid_steps@.len() - k,
    {
        let step = valid_steps[k];
        assert(step_is_valid(cur, step.source as int, step.destination as int));
        let mut next_system = system.clone();
        assert(indices_ok(next_system@, step.source as int, step.destination as int));
        if next_system.try_pour(step.source, step.destination).is_err() {
            assert(false);
            k = k + 1;
            continue;
        }
        assert(next_system@ == spec_poured(cur, valid_steps@[k as int].source as int, valid_steps@[k as int].destination as int));
        proof {
            lemma_poured_keeps_tops(cur, step.source as int, step.destination as int);
        }
        let ghost before = system_dictionary@;
        let ghost prev = neighbours@;
        proof {
            let tk = valid_steps@.take(k + 1);
            assert(tk.drop_last() =~= valid_steps@.take(k as int));
            assert(tk.last() == step);
            assert(fresh_moves(old_dict, cur, tk) == (if registered(old_dict + move_results(cur, prev), next_system@) {
                prev
            } else {
                prev.push(Neighbour { step: step, system: (old_dict.len() + prev.len()) as SystemId })
            }));
        }
        if system_dictionary.get_id(&next_system).is_none() {
            if system_dictionary.len() >= u32::MAX as usize {
                proof {
                    lemma_neighbours_grown(old_dict, system_dictionary@, cur, neighbours@);
                }
                return Err(SolverError::TooManySystems);
            }
            let id = system_dictionary.add_system(next_system);
            let nb = Neighbour { step: step, system: id };
            neighbours.push(nb);
            proof {
                assert(neighbours@[neighbours@.len() - 1] == nb);
                assert(same_system(system_dictionary@[id as int], next_system@));
                assert(system_dictionary@.subrange(0, id as int) =~= before);
                assert forall|i: int| 0 <= i < neighbours@.len() - 1 implies #[trigger] system_dictionary@.subrange(0, neighbours@[i].system as int) == before.subrange(0, neighbours@[i].system as int) by {
                    assert(system_dictionary@.subrange(0, neighbours@[i].system as int) =~= before.subrange(0, neighbours@[i].system as int));
                }
                assert forall|t: int| 0 <= t < k + 1 implies registered(system_dictionary@, spec_poured(cur, #[trigger] valid_steps@[t].source as int, valid_steps@[t].destination as int)) by {
                    if t < k {
                        let j = choose|j: int| 0 <= j < before.len() && same_system(#[trigger] before[j], spec_poured(cur, valid_steps@[t].source as int, valid_steps@[t].destination as int));
                        assert(system_dictionary@[j] == before[j]);
                    } else {
                        assert(system_dictionary@[id as int] == spec_poured(cur, valid_steps@[t].source as int, valid_steps@[t].destination as int));
                    }
                }
                assert(move_results(cur, neighbours@) =~= move_results(cur, prev).push(next_system@));
                assert(system_dictionary@ =~= old_dict + move_results(cur, neighbours@));
            }
        } else {
            proof {
                assert(registered(system_dictionary@, next_system@));
            }
        }
        k = k + 1;
    }
    proof {
        assert(cur.len() == n_glasses);
        assert forall|s: int, d: int| step_is_valid(cur, s, d) implies registered(system_dictionary@, spec_poured(cur, s, d)) by {
            let t = choose|t: int| 0 <= t < valid_steps@.len() && #[trigger] valid_steps@[t] == crate::game_elements::glass_system::mk_step(s, d);
            assert(crate::game_elements::glass_system::mk_step(s, d).source as int == s);
            assert(crate::game_elements::glass_system::mk_step(s, d).destination as int == d);
        }
        lemma_neighbours_grown(old_dict, system_dictionary@, cur, neighbours@);
        assert(valid_steps@.take(valid_steps@.len() as int) =~= valid_steps@);
    }
    Ok(neighbours)
}


/// Registers the undiscovered neighbours of `node`, records for each how it was reached,
/// and stops at the first one that is solved, which it returns as well.
fn expand(node: SystemId, system_dictionary: &mut SystemDictionary, paths: &mut Paths) -> (r: Result<(Vec<Neighbour>, Option<SystemId>), SolverError>)
    requires
        node < old(system_dictionary)@.len() <= u32::MAX,
        dict_tops_ok(old(system_dictionary)@),
        paths_wf(old(paths)@, old(system_dictionary)@),
        node == 0 || old(paths)@.contains_key(node),
    ensures
        final(system_dictionary)@.len() <= u32::MAX,
        dict_tops_ok(final(system_dictionary)@),
        old(system_dictionary)@.len() <= final(system_dictionary)@.len(),
        forall|i: int| 0 <= i < old(system_dictionary)@.len() ==> #[trigger] final(system_dictionary)@[i] == old(system_dictionary)@[i],
        forall|i: int| old(system_dictionary)@.len() <= i < final(system_dictionary)@.len() ==> (#[trigger] final(system_dictionary)@[i]).len() == old(system_dictionary)@[node as int].len(),
        paths_wf(final(paths)@, final(system_dictionary)@),
        forall|c: SystemId| #[trigger] old(paths)@.contains_key(c) ==> final(paths)@.contains_key(c) && final(paths)@[c] == old(paths)@[c],
        forall|c: SystemId| #[trigger] final(paths)@.contains_key(c) ==> old(paths)@.contains_key(c) || old(system_dictionary)@.len() <= c,
        r is Err ==> r == Err::<(Vec<Neighbour>, Option<SystemId>), SolverError>(SolverError::TooManySystems)
            && final(system_dictionary)@.len() == u32::MAX,
        grown_by_moves(old(system_dictionary)@, final(system_dictionary)@, old(system_dictionary)@[node as int]),
        r matches Ok((ns, found)) ==> {
            &&& final(system_dictionary)@.len() == old(system_dictionary)@.len() + ns@.len()
            &&& forall|i: int| 0 <= i < ns@.len() ==> (#[trigger] ns@[i]).system == old(system_dictionary)@.len() + i
            &&& forall|i: int| 0 <= i < ns@.len() ==> step_is_valid(old(system_dictionary)@[node as int], (#[trigger] ns@[i]).step.source as int, ns@[i].step.destination as int)
            &&& forall|s: int, d: int| step_is_valid(old(system_dictionary)@[node as int], s, d) ==> registered(final(system_dictionary)@, spec_poured(old(system_dictionary)@[node as int], s, d))
            &&& found is None ==> forall|i: int| 0 <= i < ns@.len() ==> {
                &&& final(paths)@.contains_key(#[trigger] ns@[i].system)
                &&& final(paths)@[ns@[i].system] == (ns@[i].step, node)
                &&& !spec_is_solved(final(system_dictionary)@[ns@[i].system as int])
            }
            &&& found matches Some(id) ==> {
                &&& old(system_dictionary)@.len() <= id < final(system_dictionary)@.len()
                &&& final(paths)@.contains_key(id)
                &&& final(paths)@[id].1 == node
                &&& spec_is_solved(final(system_dictionary)@[id as int])
            }
        },
{
    let ghost d0 = system_dictionary@;
    let ghost p0 = paths@;
    let result = build_neighbours(node, system_dictionary);
    proof {
        lemma_paths_grow_dict(p0, d0, system_dictionary@);
    }
    let neighbours = match result {
        Ok(ns) => ns,
        Err(e) => {
            return Err(e);
        },
    };
    let ghost d1 = system_dictionary@;
    proof {
        assert forall|c: SystemId| #[trigger] paths@.contains_key(c) implies c < d0.len() + 0 by {
            lemma_paths_entry(p0, d0, c);
        }
    }
    let mut k: usize = 0;
    while k < neighbours.len()
        invariant
            d0 == old(system_dictionary)@,
            p0 == old(paths)@,
            d1 == system_dictionary@,
            dict_tops_ok(d1),
            node < d0.len() <= d1.len() <= u32::MAX,
            forall|i: int| 0 <= i < d0.len() ==> #[trigger] d1[i] == d0[i],
            forall|i: int| d0.len() <= i < d1.len() ==> (#[trigger] d1[i]).len() == d0[node as int].len(),
            d1.len() == d0.len() + neighbours@.len(),
            forall|i: int| 0 <= i < neighbours@.len() ==> {
                let nb = #[trigger] neighbours@[i];
                &&& nb.system == d0.len() + i
                &&& step_is_valid(d0[node as int], nb.step.source as int, nb.step.destination as int)
                &&& d1[nb.system as int] == spec_poured(d0[node as int], nb.step.source as int, nb.step.destination as int)
            },
            node == 0 || p0.contains_key(node),
            k <= neighbours@.len(),
            paths_wf(paths@, d1),
            forall|c: SystemId| #[trigger] p0.contains_key(c) ==> paths@.contains_key(c) && paths@[c] == p0[c],
            forall|c: SystemId| #[trigger] paths@.contains_key(c) ==> c < d0.len() + k,
            forall|c: SystemId| #[trigger] paths@.contains_key(c) ==> p0.contains_key(c) || d0.len() <= c,
            forall|s: int, d: int| step_is_valid(d0[node as int], s, d) ==> registered(d1, spec_poured(d0[node as int], s, d)),
            grown_by_moves(d0, d1, d0[node as int]),
            forall|i: int| 0 <= i < k ==> {
                &&& paths@.contains_key(#[trigger] neighbours@[i].system)
                &&& paths@[neighbours@[i].system] == (neighbours@[i].step, node)
                &&& !spec_is_solved(d1[neighbours@[i].system as int])
            },
        decreases neighbours@.len() - k,
    {
        let nb = neighbours[k];
        proof {
            if paths@.contains_key(nb.system) {
                assert(nb.system < d0.len() + k);
            }
            assert(nb.system == d0.len() + k);
            assert(d1[node as int] == d0[node as int]);
            if node != 0 && !p0.contains_key(node) {
                assert(false);
            }
            lemma_paths_insert(paths@, d1, nb.system, nb.step, node);
        }
        let ghost pb = paths@;
        paths.insert(nb.system, (nb.step, node));
        let solved = match system_dictionary.get_system(&nb.system) {
            Some(s) => s.is_solved(),
            None => false,
        };
        if solved {
            return Ok((neighbours, Some(nb.system)));
        }
        proof {
            assert forall|i: int| 0 <= i < k + 1 implies {
                &&& paths@.contains_key(#[trigger] neighbours@[i].system)
                &&& paths@[neighbours@[i].system] == (neighbours@[i].step, node)
                &&& !spec_is_solved(d1[neighbours@[i].system as int])
            } by {
                if i < k {
                    assert(pb.contains_key(neighbours@[i].system));
                    assert(neighbours@[i].system != nb.system);
                }
            }
        }
        k = k + 1;
    }
    Ok((neighbours, None))
}

/// Following the recorded parents from `c` reaches, within `n` steps, a system with no
/// recorded parent.
pub open spec fn chain_ends(paths: Map<SystemId, (Step, SystemId)>, c: SystemId, n: nat) -> bool
    decreases n,
{
    !paths.contains_key(c) || (n > 0 && chain_ends(paths, paths[c].1, (n - 1) as nat))
}

/// The recorded steps along the chain of parents from `c` (at most `n` of them), in the
/// order they are taken: the step into `c` comes last.
pub open spec fn chain_steps(paths: Map<SystemId, (Step, SystemId)>, c: SystemId, n: nat) -> Seq<Step>
    decreases n,
{
    if !paths.contains_key(c) || n == 0 {
        Seq::empty()
    } else {
        chain_steps(paths, paths[c].1, (n - 1) as nat).push(paths[c].0)
    }
}

/// Once the chain ends, more room does not change its steps.
proof fn lemma_chain_steps_stable(paths: Map<SystemId, (Step, SystemId)>, c: SystemId, n: nat, m: nat)
    requires
        chain_ends(paths, c, n),
        chain_ends(paths, c, m),
    ensures
        chain_steps(paths, c, n) == chain_steps(paths, c, m),
    decreases n,
{
    if paths.contains_key(c) {
        lemma_chain_steps_stable(paths, paths[c].1, (n - 1) as nat, (m - 1) as nat);
    }
}

/// Consistent recorded paths end, within `c` steps, at the start, and their steps lead there
/// from the start.
proof fn lemma_chain_consistent(paths: Map<SystemId, (Step, SystemId)>, dict: Seq<Seq<Glass>>, c: SystemId)
    requires
        paths_wf(paths, dict),
        c < dict.len(),
        c == 0 || paths.contains_key(c),
    ensures
        chain_ends(paths, c, c as nat),
        chain_steps(paths, c, c as nat) == recorded_path(paths, c),
        recorded_path(paths, c).len() == path_len(paths, c),
        leads_to(dict[0], recorded_path(paths, c), dict[c as int]),
    decreases c,
{
    if c == 0 {
        if paths.contains_key(0) {
            lemma_paths_entry(paths, dict, 0);
        }
        assert(valid_moves(dict[0], Seq::<Step>::empty()));
    } else {
        lemma_paths_entry(paths, dict, c);
        let p = paths[c].1;
        let st = paths[c].0;
        lemma_chain_consistent(paths, dict, p);
        assert(chain_ends(paths, p, (c - 1) as nat)) by {
            lemma_chain_ends_more(paths, p, p as nat, (c - 1) as nat);
        }
        lemma_chain_steps_stable(paths, p, p as nat, (c - 1) as nat);
        let r = recorded_path(paths, p);
        lemma_moves_then(dict[0], r, st);
        lemma_moves_no_failure(dict[0], r.push(st));
    }
}

/// A chain that ends within `n` steps ends within any larger number.
proof fn lemma_chain_ends_more(paths: Map<SystemId, (Step, SystemId)>, c: SystemId, n: nat, m: nat)
    requires
        chain_ends(paths, c, n),
        n <= m,
    ensures
        chain_ends(paths, c, m),
    decreases n,
{
    if paths.contains_key(c) {
        lemma_chain_ends_more(paths, paths[c].1, (n - 1) as nat, (m - 1) as nat);
    }
}

/// Moves of the game never fail to be carried out.
proof fn lemma_moves_no_failure(sys: Seq<Glass>, steps: Seq<Step>)
    requires
        valid_moves(sys, steps),
    ensures
        failing_step(sys, steps) is None,
    decreases steps.len(),
{
    if steps.len() > 0 {
        lemma_moves_no_failure(spec_poured(sys, steps[0].source as int, steps[0].destination as int), steps.drop_first());
    }
}

/// Builds the solution based on the graph path: the recorded steps along the chain of
/// parents from `solution_node` until a system with no recorded parent.
fn retrace_solution_path(paths: &Paths, solution_node: &SystemId, Ghost(dict): Ghost<Seq<Seq<Glass>>>) -> (steps: WaterSortSolution)
    requires
        exists|n: nat| chain_ends(paths@, *solution_node, n),
    ensures
        forall|n: nat| chain_ends(paths@, *solution_node, n) ==> steps@ == chain_steps(paths@, *solution_node, n),
        paths_wf(paths@, dict) && *solution_node < dict.len() && (*solution_node == 0 || paths@.contains_key(*solution_node)) ==> {
            &&& leads_to(dict[0], steps@, dict[*solution_node as int])
            &&& steps@.len() == path_len(paths@, *solution_node)
            &&& steps@ == recorded_path(paths@, *solution_node)
        },
{
    let ghost n = choose|n: nat| chain_ends(paths@, *solution_node, n);
    let mut steps = WaterSortSolution::new();
    let mut cur: SystemId = *solution_node;
    let ghost mut k: nat = n;
    assert(chain_steps(paths@, cur, k) + steps@ =~= chain_steps(paths@, cur, k));
    loop
        invariant_except_break
            chain_ends(paths@, cur, k),
            chain_steps(paths@, cur, k) + steps@ == chain_steps(paths@, *solution_node, n),
        ensures
            steps@ == chain_steps(paths@, *solution_node, n),
        decreases k,
    {
        match paths.get(&cur) {
            Some(entry) => {
                let (step, parent) = *entry;
                let ghost before = steps@;
                steps.push(step);
                proof {
                    assert(steps@ =~= seq![step] + before);
                    assert(chain_steps(paths@, cur, k) == chain_steps(paths@, parent, (k - 1) as nat).push(step));
                    assert(chain_steps(paths@, parent, (k - 1) as nat) + steps@ =~= chain_steps(paths@, cur, k) + before);
                    k = (k - 1) as nat;
                }
                cur = parent;
            },
            None => {
                assert(chain_steps(paths@, cur, k) =~= Seq::<Step>::empty());
                assert(steps@ =~= chain_steps(paths@, cur, k) + steps@);
                break;
            },
        }
    }
    proof {
        assert forall|m: nat| chain_ends(paths@, *solution_node, m) implies steps@ == chain_steps(paths@, *solution_node, m) by {
            lemma_chain_steps_stable(paths@, *solution_node, n, m);
        }
        if paths_wf(paths@, dict) && *solution_node < dict.len() && (*solution_node == 0 || paths@.contains_key(*solution_node)) {
            lemma_chain_consistent(paths@, dict, *solution_node);
            lemma_chain_steps_stable(paths@, *solution_node, n, *solution_node as nat);
        }
    }
    steps
}

/// The state of a search: every registered system has the start's length and tops
/// within capacity, the start (not solved) is registered first, the paths are consistent, the
/// registered systems are distinct and reachable from the start, and every queued id is
/// registered and is the start or was reached.
pub open spec fn search_state(start: Seq<Glass>, dict: Seq<Seq<Glass>>, paths: Map<SystemId, (Step, SystemId)>, queued: Seq<SystemId>) -> bool {
    &&& 1 <= dict.len() <= u32::MAX
    &&& dict[0] == start
    &&& dict_tops_ok(dict)
    &&& forall|i: int| 0 <= i < dict.len() ==> (#[trigger] dict[i]).len() == start.len()
    &&& paths_wf(paths, dict)
    &&& start.len() <= usize::MAX
    &&& !spec_is_solved(start)
    &&& distinct_systems(dict)
    &&& forall|i: int| 0 <= i < dict.len() ==> reachable(start, #[trigger] dict[i])
    &&& forall|k: int| 0 <= k < queued.len() ==> {
        &&& #[trigger] queued[k] < dict.len()
        &&& (queued[k] == 0 || paths.contains_key(queued[k]))
    }
}

/// What breadth-first search keeps, with `h` the id of the next system to explore: the
/// systems with smaller ids are explored, every registered system but the start was reached,
/// the distances grow with the ids and none exceeds that of `h` by more than one, and no
/// registered system but the start is solved (nor the start, once a move was found).
pub open spec fn bfs_state(start: Seq<Glass>, dict: Seq<Seq<Glass>>, paths: Map<SystemId, (Step, SystemId)>, h: int) -> bool {
    &&& 0 <= h <= dict.len()
    &&& forall|c: SystemId| 1 <= c < dict.len() ==> #[trigger] paths.contains_key(c)
    &&& forall|i: SystemId, j: SystemId| #![trigger path_len(paths, i), path_len(paths, j)]
        i <= j < dict.len() ==> path_len(paths, i) <= path_len(paths, j)
    &&& h < dict.len() ==> forall|j: SystemId| j < dict.len() ==> #[trigger] path_len(paths, j) <= path_len(paths, h as SystemId) + 1
    &&& forall|i: int| 0 <= i < h ==> #[trigger] closed_at(dict, path_dist(paths), i)
    &&& forall|i: int| 1 <= i < dict.len() ==> !spec_is_solved(#[trigger] dict[i])
    &&& dict.len() >= 2 ==> !spec_is_solved(start)
}

/// Exploring the system `h` with nothing solved among its new neighbours moves the breadth-first
/// state on to `h + 1`.
proof fn lemma_bfs_explored(
    start: Seq<Glass>,
    d0: Seq<Seq<Glass>>,
    p0: Map<SystemId, (Step, SystemId)>,
    d1: Seq<Seq<Glass>>,
    p1: Map<SystemId, (Step, SystemId)>,
    h: int,
    ns: Seq<Neighbour>,
)
    requires
        bfs_state(start, d0, p0, h),
        h < d0.len() <= u32::MAX,
        d0[0] == start,
        paths_wf(p0, d0),
        paths_wf(p1, d1),
        d1.len() == d0.len() + ns.len(),
        forall|i: int| 0 <= i < d0.len() ==> #[trigger] d1[i] == d0[i],
        forall|c: SystemId| #[trigger] p0.contains_key(c) ==> p1.contains_key(c) && p1[c] == p0[c],
        forall|i: int| 0 <= i < ns.len() ==> (#[trigger] ns[i]).system == d0.len() + i,
        forall|i: int| 0 <= i < ns.len() ==> step_is_valid(d0[h], (#[trigger] ns[i]).step.source as int, ns[i].step.destination as int),
        forall|i: int| 0 <= i < ns.len() ==> {
            &&& p1.contains_key(#[trigger] ns[i].system)
            &&& p1[ns[i].system] == (ns[i].step, h as SystemId)
            &&& !spec_is_solved(d1[ns[i].system as int])
        },
        forall|s: int, d: int| step_is_valid(d0[h], s, d) ==> registered(d1, spec_poured(d0[h], s, d)),
    ensures
        bfs_state(start, d1, p1, h + 1),
{
    let l0 = d0.len();
    let l1 = d1.len();
    let hh = h as SystemId;
    let dh = path_len(p0, hh);
    assert(hh == 0 || p0.contains_key(hh));
    lemma_path_len_kept(p0, p1, d0, hh);
    // Distances of the systems registered before are kept.
    assert forall|c: SystemId| c < l0 implies #[trigger] path_len(p1, c) == path_len(p0, c) by {
        assert(c == 0 || p0.contains_key(c));
        lemma_path_len_kept(p0, p1, d0, c);
    }
    // The new systems are one step further than `h`.
    assert forall|c: SystemId| l0 <= c < l1 implies p1.contains_key(c) && #[trigger] path_len(p1, c) == dh + 1 by {
        let i = c - l0;
        assert(ns[i].system == c);
        assert(p1[c].1 == hh);
    }
    assert forall|c: SystemId| 1 <= c < l1 implies #[trigger] p1.contains_key(c) by {
        if c < l0 {
            assert(p0.contains_key(c));
        } else {
            let i = c - l0;
            assert(ns[i].system == c);
        }
    }
    assert forall|c: SystemId| c < l1 implies #[trigger] path_len(p1, c) <= dh + 1 by {
        if c < l0 {
            assert(path_len(p1, c) == path_len(p0, c));
        } else {
            assert(path_len(p1, c) == dh + 1 && p1.contains_key(c));
        }
    }
    assert forall|i: SystemId, j: SystemId| #![trigger path_len(p1, i), path_len(p1, j)]
        i <= j < l1 implies path_len(p1, i) <= path_len(p1, j) by {
        if j < l0 {
            assert(path_len(p1, i) == path_len(p0, i));
            assert(path_len(p1, j) == path_len(p0, j));
        } else {
            assert(path_len(p1, j) == dh + 1 && p1.contains_key(j));
            assert(path_len(p1, i) <= dh + 1);
        }
    }
    if h + 1 < l1 {
        let h1 = (h + 1) as SystemId;
        assert(path_len(p1, h1) >= dh) by {
            if h1 < l0 {
                assert(path_len(p1, h1) == path_len(p0, h1));
                assert(path_len(p0, hh) <= path_len(p0, h1));
            } else {
                assert(path_len(p1, h1) == dh + 1 && p1.contains_key(h1));
            }
        }
        assert forall|j: SystemId| j < l1 implies #[trigger] path_len(p1, j) <= path_len(p1, h1) + 1 by {
            assert(path_len(p1, j) <= dh + 1);
        }
    }
    assert forall|i: int| 0 <= i < h + 1 implies #[trigger] closed_at(d1, path_dist(p1), i) by {
        assert(d1[i] == d0[i]);
        assert(path_len(p1, i as SystemId) == path_len(p0, i as SystemId));
        if i < h {
            assert(closed_at(d0, path_dist(p0), i));
            assert forall|s: int, d: int| #[trigger] step_is_valid(d1[i], s, d) implies exists|j: int| {
                &&& 0 <= j < d1.len()
                &&& same_system(#[trigger] d1[j], spec_poured(d1[i], s, d))
                &&& path_dist(p1)(j) <= path_dist(p1)(i) + 1
            } by {
                let j = choose|j: int| {
                    &&& 0 <= j < d0.len()
                    &&& same_system(#[trigger] d0[j], spec_poured(d0[i], s, d))
                    &&& path_dist(p0)(j) <= path_dist(p0)(i) + 1
                };
                assert(d1[j] == d0[j]);
                assert(path_len(p1, j as SystemId) == path_len(p0, j as SystemId));
            }
        } else {
            assert forall|s: int, d: int| #[trigger] step_is_valid(d1[i], s, d) implies exists|j: int| {
                &&& 0 <= j < d1.len()
                &&& same_system(#[trigger] d1[j], spec_poured(d1[i], s, d))
                &&& path_dist(p1)(j) <= path_dist(p1)(i) + 1
            } by {
                assert(registered(d1, spec_poured(d0[h], s, d)));
                let j = choose|j: int| 0 <= j < d1.len() && same_system(#[trigger] d1[j], spec_poured(d0[h], s, d));
                assert(path_len(p1, j as SystemId) <= dh + 1);
            }
        }
    }
    assert forall|i: int| 1 <= i < l1 implies !spec_is_solved(#[trigger] d1[i]) by {
        if i < l0 {
            assert(d1[i] == d0[i]);
        } else {
            assert(ns[i - l0].system == i);
        }
    }
    if l1 >= 2 && l0 < 2 {
        assert(h == 0);
        assert(step_is_valid(d0[h], ns[0].step.source as int, ns[0].step.destination as int));
        if spec_is_solved(start) {
            lemma_solved_has_no_move(start, ns[0].step.source as int, ns[0].step.destination as int);
        }
    }
}

/// A solving sequence of moves from a start that is not solved is longer than the distance
/// of the next system that breadth-first search explores.
proof fn lemma_bfs_no_shorter(start: Seq<Glass>, dict: Seq<Seq<Glass>>, paths: Map<SystemId, (Step, SystemId)>, h: int, other: Seq<Step>)
    requires
        bfs_state(start, dict, paths, h),
        h < dict.len() <= u32::MAX,
        dict[0] == start,
        !spec_is_solved(start),
        solves(start, other),
    ensures
        path_len(paths, h as SystemId) + 1 <= other.len(),
{
    let explored = |i: int| i < h;
    assert forall|i: int| 0 <= i < dict.len() implies !spec_is_solved(#[trigger] dict[i]) by {
        if i == 0 {
            assert(dict[i] == start);
        }
    }
    lemma_solving_moves_leave(dict, path_dist(paths), explored, start, 0, other);
    let k = choose|k: int| 0 <= k < dict.len() && !explored(k) && #[trigger] path_dist(paths)(k) + 1 <= path_dist(paths)(0) + other.len();
    assert(path_len(paths, 0) == 0);
    assert(h <= k);
    let hh = h as SystemId;
    let kk = k as SystemId;
    assert(hh <= kk < dict.len());
    assert(path_len(paths, hh) <= path_len(paths, kk));
}

/// When every registered system is explored and none but the start is solved, only the
/// empty sequence of moves solves the start (and only if the start is solved already).
proof fn lemma_explored_all(start: Seq<Glass>, dict: Seq<Seq<Glass>>, dist: spec_fn(int) -> nat, other: Seq<Step>)
    requires
        1 <= dict.len(),
        dict[0] == start,
        forall|i: int| 0 <= i < dict.len() ==> #[trigger] closed_at(dict, dist, i),
        forall|i: int| 1 <= i < dict.len() ==> !spec_is_solved(#[trigger] dict[i]),
        solves(start, other),
    ensures
        other.len() == 0,
{
    if spec_is_solved(start) {
        if other.len() > 0 {
            lemma_solved_has_no_move(start, other[0].source as int, other[0].destination as int);
        }
    } else {
        assert forall|i: int| 0 <= i < dict.len() implies !spec_is_solved(#[trigger] dict[i]) by {
            if i == 0 {
                assert(dict[i] == start);
            }
        }
        lemma_solving_moves_leave(dict, dist, |i: int| true, start, 0, other);
    }
}

/// Regular BFS, guaranteed shortest path, but takes ages.
pub fn bfs_shortest_path(start_system: &GlassSystem) -> (r: Result<WaterSortSolution, SolverError>)
    requires
        tops_ok(start_system@),
    ensures
        r matches Ok(sol) ==> solves(start_system@, sol@),
        r matches Ok(sol) ==> forall|other: Seq<Step>| #[trigger] solves(start_system@, other) ==> sol@.len() <= other.len(),
        spec_is_solved(start_system@) ==> (r matches Ok(sol) && sol@.len() == 0),
        r == Err::<WaterSortSolution, SolverError>(SolverError::NoSolutionError) ==> forall|other: Seq<Step>| !(#[trigger] solves(start_system@, other)),
        r == Err::<WaterSortSolution, SolverError>(SolverError::TooManySystems) ==> exists|d: Seq<Seq<Glass>>| many_reachable(start_system@, d),
        r is Err ==> r == Err::<WaterSortSolution, SolverError>(SolverError::NoSolutionError) || r == Err::<WaterSortSolution, SolverError>(SolverError::TooManySystems),
{
    if start_system.is_solved() {
        let none = WaterSortSolution::new();
        proof {
            assert(replay_final(start_system@, none@) == start_system@);
            assert(failing_step(start_system@, none@) is None);
            assert(valid_moves(start_system@, none@));
        }
        return Ok(none);
    }
    let _glass_count = start_system.get_state().len();
    let mut queue: SolverQueue<SystemId> = SolverQueue::regular();
    let mut paths: Paths = HashMap::new();
    let mut system_dictionary = SystemDictionary::new();
    let start_id = system_dictionary.add_system(start_system.clone());
    queue.push(start_id);
    let ghost mut h: int = 0;
    proof {
        lemma_paths_empty(system_dictionary@);
        assert(system_dictionary@ =~= seq![start_system@]);
        lemma_registry_start(start_system@, system_dictionary@);
        assert(queue@[0] == 0);
    }
    while !queue.is_empty()
        invariant
            queue.is_regular(),
            queue.wf(),
            search_state(start_system@, system_dictionary@, paths@, queue@),
            bfs_state(start_system@, system_dictionary@, paths@, h),
            queue@.len() == system_dictionary@.len() - h,
            forall|t: int| 0 <= t < queue@.len() ==> #[trigger] queue@[t] == h + t,
        decreases 2 * (u32::MAX - system_dictionary@.len()) + queue@.len(),
    {
        let ghost q0 = queue@;
        let node = match queue.pop() {
            Some(n) => n,
            None => {
                assert(false);
                return Err(SolverError::NoSolutionError);
            },
        };
        assert(node == q0[0]);
        assert(node == h);
        let ghost d0 = system_dictionary@;
        let ghost p0 = paths@;
        let expanded = expand(node, &mut system_dictionary, &mut paths);
        proof {
            lemma_registry_grows(start_system@, d0, system_dictionary@, node as int);
        }
        let (neighbours, found) = match expanded {
            Ok(v) => v,
            Err(e) => {
                assert(many_reachable(start_system@, system_dictionary@));
                return Err(e);
            },
        };
        if let Some(id) = found {
            proof {
                lemma_chain_consistent(paths@, system_dictionary@, id);
            }
            let sol = retrace_solution_path(&paths, &id, Ghost(system_dictionary@));
            proof {
                let start = start_system@;
                assert(node == 0 || p0.contains_key(node));
                lemma_path_len_kept(p0, paths@, d0, node);
                assert(path_len(paths@, id) == 1 + path_len(p0, node));
                assert(!spec_is_solved(start)) by {
                    if h == 0 {
                        let ns = neighbours@;
                        assert(ns[id - d0.len()].system == id);
                        let st = ns[id - d0.len()].step;
                        assert(step_is_valid(d0[0], st.source as int, st.destination as int));
                        if spec_is_solved(start) {
                            lemma_solved_has_no_move(start, st.source as int, st.destination as int);
                        }
                    }
                }
                assert forall|other: Seq<Step>| #[trigger] solves(start, other) implies sol@.len() <= other.len() by {
                    lemma_bfs_no_shorter(start, d0, p0, h, other);
                }
            }
            return Ok(sol);
        }
        proof {
            lemma_bfs_explored(start_system@, d0, p0, system_dictionary@, paths@, h, neighbours@);
            h = h + 1;
        }
        let mut k: usize = 0;
        while k < neighbours.len()
            invariant
                queue.is_regular(),
                queue.wf(),
                search_state(start_system@, system_dictionary@, paths@, queue@),
                bfs_state(start_system@, system_dictionary@, paths@, h),
                k <= neighbours@.len(),
                queue@.len() == q0.len() - 1 + k,
                system_dictionary@.len() == d0.len() + neighbours@.len(),
                d0.len() <= system_dictionary@.len(),
                h == q0[0] + 1,
                q0.len() == d0.len() - q0[0],
                forall|t: int| 0 <= t < queue@.len() ==> #[trigger] queue@[t] == h + t,
                forall|i: int| 0 <= i < neighbours@.len() ==> {
                    &&& (#[trigger] neighbours@[i]).system < system_dictionary@.len()
                    &&& neighbours@[i].system == d0.len() + i
                    &&& paths@.contains_key(neighbours@[i].system)
                },
            decreases neighbours@.len() - k,
        {
            queue.push(neighbours[k].system);
            k = k + 1;
        }
    }
    proof {
        assert forall|i: int| 0 <= i < system_dictionary@.len() implies #[trigger] closed_at(system_dictionary@, path_dist(paths@), i) by {}
        assert forall|other: Seq<Step>| !(#[trigger] solves(start_system@, other)) by {
            if solves(start_system@, other) {
                lemma_explored_all(start_system@, system_dictionary@, path_dist(paths@), other);
                assert(other =~= Seq::<Step>::empty());
                assert(replay_final(start_system@, other) == start_system@);
            }
        }
    }
    Err(SolverError::NoSolutionError)
}


/// Every registered system is queued or explored, and none but the start is solved.
pub open spec fn queued_or_explored(dict: Seq<Seq<Glass>>, ids: Seq<SystemId>) -> bool {
    &&& forall|i: int| 0 <= i < dict.len() ==> ids.contains(i as SystemId) || #[trigger] closed_at(dict, flat_dist(), i)
    &&& forall|i: int| 1 <= i < dict.len() ==> !spec_is_solved(#[trigger] dict[i])
}

/// Exploring `node` (registering all its moves, none of the new systems solved) makes it
/// explored, and the systems explored before stay explored.
proof fn lemma_explored_grow(d0: Seq<Seq<Glass>>, d1: Seq<Seq<Glass>>, ids: Seq<SystemId>, node: int, ns: Seq<Neighbour>)
    requires
        0 <= node < d0.len(),
        d1.len() == d0.len() + ns.len(),
        forall|i: int| 0 <= i < d0.len() ==> #[trigger] d1[i] == d0[i],
        forall|i: int| 0 <= i < d0.len() && i != node ==> ids.contains(i as SystemId) || #[trigger] closed_at(d0, flat_dist(), i),
        forall|s: int, d: int| step_is_valid(d0[node], s, d) ==> registered(d1, spec_poured(d0[node], s, d)),
        forall|i: int| 1 <= i < d0.len() ==> !spec_is_solved(#[trigger] d0[i]),
        forall|i: int| 0 <= i < ns.len() ==> (#[trigger] ns[i]).system == d0.len() + i && !spec_is_solved(d1[ns[i].system as int]),
    ensures
        forall|i: int| 0 <= i < d0.len() ==> ids.contains(i as SystemId) || #[trigger] closed_at(d1, flat_dist(), i),
        forall|i: int| 1 <= i < d1.len() ==> !spec_is_solved(#[trigger] d1[i]),
{
    assert forall|i: int| 0 <= i < d0.len() implies ids.contains(i as SystemId) || #[trigger] closed_at(d1, flat_dist(), i) by {
        if i == node {
            assert forall|s: int, d: int| #[trigger] step_is_valid(d1[i], s, d) implies exists|j: int| {
                &&& 0 <= j < d1.len()
                &&& same_system(#[trigger] d1[j], spec_poured(d1[i], s, d))
                &&& flat_dist()(j) <= flat_dist()(i) + 1
            } by {
                assert(registered(d1, spec_poured(d0[node], s, d)));
            }
        } else if !ids.contains(i as SystemId) {
            assert(closed_at(d0, flat_dist(), i));
            assert forall|s: int, d: int| #[trigger] step_is_valid(d1[i], s, d) implies exists|j: int| {
                &&& 0 <= j < d1.len()
                &&& same_system(#[trigger] d1[j], spec_poured(d1[i], s, d))
                &&& flat_dist()(j) <= flat_dist()(i) + 1
            } by {
                assert(step_is_valid(d0[i], s, d));
                let j = choose|j: int| {
                    &&& 0 <= j < d0.len()
                    &&& same_system(#[trigger] d0[j], spec_poured(d0[i], s, d))
                    &&& flat_dist()(j) <= flat_dist()(i) + 1
                };
                assert(d1[j] == d0[j]);
            }
        }
    }
    assert forall|i: int| 1 <= i < d1.len() implies !spec_is_solved(#[trigger] d1[i]) by {
        if i < d0.len() {
            assert(d1[i] == d0[i]);
        } else {
            assert(ns[i - d0.len()].system == i);
        }
    }
}

/// Regular DFS, can be very fast but might find a very long path. Only the systems that moves
/// reach are checked for being solved, so an already solved start gives `NoSolutionError`.
pub fn dfs_shortest_path(start_system: &GlassSystem) -> (r: Result<WaterSortSolution, SolverError>)
    requires
        tops_ok(start_system@),
    ensures
        r matches Ok(sol) ==> solves(start_system@, sol@),
        spec_is_solved(start_system@) ==> r == Err::<WaterSortSolution, SolverError>(SolverError::NoSolutionError),
        r == Err::<WaterSortSolution, SolverError>(SolverError::NoSolutionError) && !spec_is_solved(start_system@)
            ==> forall|other: Seq<Step>| !(#[trigger] solves(start_system@, other)),
        r == Err::<WaterSortSolution, SolverError>(SolverError::TooManySystems) ==> exists|d: Seq<Seq<Glass>>| many_reachable(start_system@, d),
        r is Err ==> r == Err::<WaterSortSolution, SolverError>(SolverError::NoSolutionError) || r == Err::<WaterSortSolution, SolverError>(SolverError::TooManySystems),
{
    if start_system.is_solved() {
        return Err(SolverError::NoSolutionError);
    }
    let _glass_count = start_system.get_state().len();
    let mut queue: SolverQueue<SystemId> = SolverQueue::stack();
    let mut paths: Paths = HashMap::new();
    let mut system_dictionary = SystemDictionary::new();
    let start_id = system_dictionary.add_system(start_system.clone());
    queue.push(start_id);
    proof {
        lemma_paths_empty(system_dictionary@);
        assert(system_dictionary@ =~= seq![start_system@]);
        lemma_registry_start(start_system@, system_dictionary@);
        assert(queue@[0] == 0);
        assert(queue@.contains(0));
    }
    while !queue.is_empty()
        invariant
            queue.is_stack(),
            queue.wf(),
            search_state(start_system@, system_dictionary@, paths@, queue@),
            queued_or_explored(system_dictionary@, queue@),
        decreases 2 * (u32::MAX - system_dictionary@.len()) + queue@.len(),
    {
        let ghost q0 = queue@;
        let node = match queue.pop() {
            Some(n) => n,
            None => {
                return Err(SolverError::NoSolutionError);
            },
        };
        assert(node == q0[0]);
        let ghost d0 = system_dictionary@;
        let ghost q1 = queue@;
        proof {
            assert forall|i: int| 0 <= i < d0.len() && i != node implies q1.contains(i as SystemId) || #[trigger] closed_at(d0, flat_dist(), i) by {
                if q0.contains(i as SystemId) {
                    let t = choose|t: int| 0 <= t < q0.len() && q0[t] == i as SystemId;
                    assert(t != 0);
                    assert(q1[t - 1] == q0[t]);
                }
            }
        }
        let expanded = expand(node, &mut system_dictionary, &mut paths);
        proof {
            lemma_registry_grows(start_system@, d0, system_dictionary@, node as int);
        }
        let (neighbours, found) = match expanded {
            Ok(v) => v,
            Err(e) => {
                assert(many_reachable(start_system@, system_dictionary@));
                return Err(e);
            },
        };
        if let Some(id) = found {
            proof {
                lemma_chain_consistent(paths@, system_dictionary@, id);
            }
            let sol = retrace_solution_path(&paths, &id, Ghost(system_dictionary@));
            return Ok(sol);
        }
        proof {
            lemma_explored_grow(d0, system_dictionary@, q1, node as int, neighbours@);
        }
        let mut k: usize = 0;
        while k < neighbours.len()
            invariant
                queue.is_stack(),
                queue.wf(),
                search_state(start_system@, system_dictionary@, paths@, queue@),
                k <= neighbours@.len(),
                queue@.len() == q0.len() - 1 + k,
                system_dictionary@.len() == d0.len() + neighbours@.len(),
                d0.len() <= system_dictionary@.len(),
                forall|i: int| 0 <= i < neighbours@.len() ==> {
                    &&& (#[trigger] neighbours@[i]).system < system_dictionary@.len()
                    &&& neighbours@[i].system == d0.len() + i
                    &&& paths@.contains_key(neighbours@[i].system)
                },
                forall|i: int| 0 <= i < d0.len() + k ==> queue@.contains(i as SystemId) || #[trigger] closed_at(system_dictionary@, flat_dist(), i),
                forall|i: int| 1 <= i < system_dictionary@.len() ==> !spec_is_solved(#[trigger] system_dictionary@[i]),
            decreases neighbours@.len() - k,
        {
            let ghost qb = queue@;
            queue.push(neighbours[k].system);
            proof {
                assert forall|t: int| 0 <= t < queue@.len() implies {
                    &&& #[trigger] queue@[t] < system_dictionary@.len()
                    &&& (queue@[t] == 0 || paths@.contains_key(queue@[t]))
                } by {
                    if t > 0 {
                        assert(queue@[t] == qb[t - 1]);
                    }
                }
                assert forall|i: int| 0 <= i < d0.len() + k + 1 implies queue@.contains(i as SystemId) || #[trigger] closed_at(system_dictionary@, flat_dist(), i) by {
                    if i == d0.len() + k {
                        assert(queue@[0] == i as SystemId);
                    } else if qb.contains(i as SystemId) {
                        let t = choose|t: int| 0 <= t < qb.len() && qb[t] == i as SystemId;
                        assert(queue@[t + 1] == qb[t]);
                    }
                }
            }
            k = k + 1;
        }
    }
    proof {
        assert forall|i: int| 0 <= i < system_dictionary@.len() implies #[trigger] closed_at(system_dictionary@, flat_dist(), i) by {
            assert(!queue@.contains(i as SystemId));
        }
        assert forall|other: Seq<Step>| !(#[trigger] solves(start_system@, other)) by {
            if solves(start_system@, other) {
                lemma_explored_all(start_system@, system_dictionary@, flat_dist(), other);
                assert(other =~= Seq::<Step>::empty());
                assert(replay_final(start_system@, other) == start_system@);
            }
        }
    }
    Err(SolverError::NoSolutionError)
}

/// Dijkstra-like for constructing the valid-steps graph using heuristics to narrow the search.
/// This does not guarantee shortest path. Only the systems that moves reach are checked for
/// being solved, so an already solved start gives `NoSolutionError`.
pub fn heuristic_dijkstra_search(start_system: &GlassSystem, evaluation_mode: &SolutionValueMode) -> (r: Result<WaterSortSolution, SolverError>)
    requires
        tops_ok(start_system@),
        value_fits(start_system@.len()),
    ensures
        r matches Ok(sol) ==> solves(start_system@, sol@),
        spec_is_solved(start_system@) ==> r == Err::<WaterSortSolution, SolverError>(SolverError::NoSolutionError),
        r == Err::<WaterSortSolution, SolverError>(SolverError::NoSolutionError) && !spec_is_solved(start_system@)
            ==> forall|other: Seq<Step>| !(#[trigger] solves(start_system@, other)),
        r == Err::<WaterSortSolution, SolverError>(SolverError::TooManySystems) ==> exists|d: Seq<Seq<Glass>>| many_reachable(start_system@, d),
        r is Err ==> r == Err::<WaterSortSolution, SolverError>(SolverError::NoSolutionError) || r == Err::<WaterSortSolution, SolverError>(SolverError::TooManySystems),
{
    if start_system.is_solved() {
        return Err(SolverError::NoSolutionError);
    }
    let _glass_count = start_system.get_state().len();
    let mut queue: SolverQueue<EvaluatedNode> = SolverQueue::priority();
    let mut paths: Paths = HashMap::new();
    let mut system_dictionary = SystemDictionary::new();
    let start_id = system_dictionary.add_system(start_system.clone());
    queue.push(EvaluatedNode { system_id: start_id, solution_value: solution_value(start_system, evaluation_mode) });
    proof {
        lemma_paths_empty(system_dictionary@);
        assert(system_dictionary@ =~= seq![start_system@]);
        lemma_registry_start(start_system@, system_dictionary@);
        assert(queue@[0].system_id == 0);
        assert(queue@.map_values(|e: EvaluatedNode| e.system_id)[0] == 0);
    }
    while !queue.is_empty()
        invariant
            queue.is_priority(),
            queue.wf(),
            value_fits(start_system@.len()),
            search_state(start_system@, system_dictionary@, paths@, queue@.map_values(|e: EvaluatedNode| e.system_id)),
            queued_or_explored(system_dictionary@, queue@.map_values(|e: EvaluatedNode| e.system_id)),
        decreases 2 * (u32::MAX - system_dictionary@.len()) + queue@.len(),
    {
        let ghost q0 = queue@;
        let node = match queue.pop() {
            Some(n) => n,
            None => {
                return Err(SolverError::NoSolutionError);
            },
        };
        let ghost j = choose|j: int| {
            &&& crate::solver::data_structures::queues::is_top(q0, j)
            &&& Some(node) == Some(q0[j])
            &&& queue@ == q0.remove(j)
        };
        let ghost d0 = system_dictionary@;
        let ghost ids0 = q0.map_values(|e: EvaluatedNode| e.system_id);
        let ghost ids1 = queue@.map_values(|e: EvaluatedNode| e.system_id);
        proof {
            assert(ids0[j] == node.system_id);
            assert forall|t: int| 0 <= t < ids1.len() implies {
                &&& #[trigger] ids1[t] < system_dictionary@.len()
                &&& (ids1[t] == 0 || paths@.contains_key(ids1[t]))
            } by {
                if t < j {
                    assert(ids1[t] == ids0[t]);
                } else {
                    assert(ids1[t] == ids0[t + 1]);
                }
            }
            assert forall|i: int| 0 <= i < d0.len() && i != node.system_id implies ids1.contains(i as SystemId) || #[trigger] closed_at(d0, flat_dist(), i) by {
                if ids0.contains(i as SystemId) {
                    let t = choose|t: int| 0 <= t < ids0.len() && ids0[t] == i as SystemId;
                    assert(t != j);
                    if t < j {
                        assert(ids1[t] == ids0[t]);
                    } else {
                        assert(ids1[t - 1] == ids0[t]);
                    }
                }
            }
        }
        let expanded = expand(node.system_id, &mut system_dictionary, &mut paths);
        proof {
            lemma_registry_grows(start_system@, d0, system_dictionary@, node.system_id as int);
        }
        let (neighbours, found) = match expanded {
            Ok(v) => v,
            Err(e) => {
                assert(many_reachable(start_system@, system_dictionary@));
                return Err(e);
            },
        };
        if let Some(id) = found {
            proof {
                lemma_chain_consistent(paths@, system_dictionary@, id);
            }
            let sol = retrace_solution_path(&paths, &id, Ghost(system_dictionary@));
            return Ok(sol);
        }
        proof {
            lemma_explored_grow(d0, system_dictionary@, ids1, node.system_id as int, neighbours@);
        }
        let mut k: usize = 0;
        while k < neighbours.len()
            invariant
                queue.is_priority(),
                queue.wf(),
                value_fits(start_system@.len()),
                search_state(start_system@, system_dictionary@, paths@, queue@.map_values(|e: EvaluatedNode| e.system_id)),
                k <= neighbours@.len(),
                queue@.len() == q0.len() - 1 + k,
                system_dictionary@.len() == d0.len() + neighbours@.len(),
                d0.len() <= system_dictionary@.len(),
                forall|i: int| 0 <= i < neighbours@.len() ==> {
                    &&& (#[trigger] neighbours@[i]).system < system_dictionary@.len()
                    &&& neighbours@[i].system == d0.len() + i
                    &&& paths@.contains_key(neighbours@[i].system)
                },
                forall|i: int| 0 <= i < d0.len() + k ==> queue@.map_values(|e: EvaluatedNode| e.system_id).contains(i as SystemId) || #[trigger] closed_at(system_dictionary@, flat_dist(), i),
                forall|i: int| 1 <= i < system_dictionary@.len() ==> !spec_is_solved(#[trigger] system_dictionary@[i]),
            decreases neighbours@.len() - k,
        {
            let nb = neighbours[k];
            let value = match system_dictionary.get_system(&nb.system) {
                Some(s) => solution_value(s, evaluation_mode),
                None => 0,
            };
            let ghost qb = queue@;
            queue.push(EvaluatedNode { system_id: nb.system, solution_value: value });
            proof {
                let idsb = qb.map_values(|e: EvaluatedNode| e.system_id);
                let ids = queue@.map_values(|e: EvaluatedNode| e.system_id);
                assert forall|t: int| 0 <= t < ids.len() implies {
                    &&& #[trigger] ids[t] < system_dictionary@.len()
                    &&& (ids[t] == 0 || paths@.contains_key(ids[t]))
                } by {
                    if t < qb.len() {
                        assert(ids[t] == idsb[t]);
                    }
                }
                assert forall|i: int| 0 <= i < d0.len() + k + 1 implies ids.contains(i as SystemId) || #[trigger] closed_at(system_dictionary@, flat_dist(), i) by {
                    if i == d0.len() + k {
                        assert(ids[qb.len() as int] == i as SystemId);
                    } else if idsb.contains(i as SystemId) {
                        let t = choose|t: int| 0 <= t < idsb.len() && idsb[t] == i as SystemId;
                        assert(ids[t] == idsb[t]);
                    }
                }
            }
            k = k + 1;
        }
    }
    proof {
        assert forall|i: int| 0 <= i < system_dictionary@.len() implies #[trigger] closed_at(system_dictionary@, flat_dist(), i) by {
            assert(!queue@.map_values(|e: EvaluatedNode| e.system_id).contains(i as SystemId));
        }
        assert forall|other: Seq<Step>| !(#[trigger] solves(start_system@, other)) by {
            if solves(start_system@, other) {
                lemma_explored_all(start_system@, system_dictionary@, flat_dist(), other);
                assert(other =~= Seq::<Step>::empty());
                assert(replay_final(start_system@, other) == start_system@);
            }
        }
    }
    Err(SolverError::NoSolutionError)
}

} // verus!
