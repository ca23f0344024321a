use vstd::prelude::*;
use vstd::std_specs::cmp::PartialEqSpecImpl;

use crate::game_elements::color::{lemma_color_view_injective, lemma_empty_color_id, Color};
use crate::game_elements::glass::{
    contents, lemma_pop_push_keep_wf, lemma_pop_undoes_push, spec_pop, spec_push, top_color, Glass, GlassError,
};
use crate::game_elements::step::Step;
use crate::game_elements::GLASS_CAPACITY;

verus! {

broadcast use lemma_color_view_injective, lemma_empty_color_id;

/// Errors of a system of glasses.
#[derive(Debug, PartialEq, Eq, Structural, Clone, Copy)]
pub enum GlassSystemError {
    /// For over/under indexing: source index, destination index, number of glasses.
    InvalidGlassIndices(usize, usize, usize),
    /// Derived from the GlassError if an issue happens on that level.
    GlassError(GlassError),
}

/// A system should be the collection of the glasses and basic logic over them.
#[derive(Debug)]
pub struct GlassSystem {
    system: Vec<Glass>,
}

impl View for GlassSystem {
    type V = Seq<Glass>;

    closed spec fn view(&self) -> Seq<Glass> {
        self.system@
    }
}

/// Pouring from `src` into `dst`: one unit at a time moves from the top of `src`
/// onto `dst` while `src` is not empty, `dst` is not full, and the top of `dst` is empty
/// or equal to the top of `src`.
pub open spec fn spec_pour(src: Glass, dst: Glass) -> (Glass, Glass)
    decreases GLASS_CAPACITY - dst.top,
{
    if src.top > 0 && dst.top < GLASS_CAPACITY && (top_color(dst) == top_color(src) || top_color(dst)@ == 0) {
        spec_pour(spec_pop(src), spec_push(dst, top_color(src)))
    } else {
        (src, dst)
    }
}

/// `k` units taken off the top of a glass, one after another.
pub open spec fn pop_units(g: Glass, k: nat) -> Glass
    decreases k,
{
    if k == 0 {
        g
    } else {
        pop_units(spec_pop(g), (k - 1) as nat)
    }
}

/// `k` units of color `c` put on top of a glass, one after another.
pub open spec fn push_units(g: Glass, c: Color, k: nat) -> Glass
    decreases k,
{
    if k == 0 {
        g
    } else {
        push_units(spec_push(g, c), c, (k - 1) as nat)
    }
}

/// Pouring while the destination shows `c` (or is empty and the source shows `c`) moves units
/// of color `c` until the destination is full or the source shows another color.
proof fn lemma_pour_run(src: Glass, dst: Glass, c: Color) -> (k: nat)
    requires
        src.wf(),
        dst.wf(),
        c@ != 0,
        dst.top == 0 ==> top_color(src) == c,
        dst.top > 0 ==> top_color(dst) == c,
    ensures
        k <= src.top,
        dst.top + k <= GLASS_CAPACITY,
        spec_pour(src, dst) == (pop_units(src, k), push_units(dst, c, k)),
        spec_pour(src, dst).1.top == GLASS_CAPACITY || top_color(spec_pour(src, dst).0) != c,
        dst.top < GLASS_CAPACITY && top_color(src) == c ==> k >= 1,
    decreases GLASS_CAPACITY - dst.top,
{
    if src.top > 0 && dst.top < GLASS_CAPACITY && (top_color(dst) == top_color(src) || top_color(dst)@ == 0) {
        assert(top_color(src) == c);
        assert(src.top > 0);
        lemma_pop_push_keep_wf(src, c);
        lemma_pop_push_keep_wf(dst, c);
        lemma_pop_undoes_push(dst, c);
        let k1 = lemma_pour_run(spec_pop(src), spec_push(dst, c), c);
        k1 + 1
    } else {
        0
    }
}

/// Pouring moves as much as it can: when the destination is not full and is empty or shows
/// the source's top color, a run of `k >= 1` units of that color leaves the top of the source
/// and lands on the destination, and the pour stops only where the destination is full or the
/// source no longer shows that color (it is empty, or shows another one).
pub proof fn lemma_pour_moves_run(src: Glass, dst: Glass) -> (k: nat)
    requires
        src.wf(),
        dst.wf(),
        top_color(src)@ != 0,
        !dst.spec_is_full(),
        dst.spec_is_empty() || top_color(dst) == top_color(src),
    ensures
        1 <= k <= src.top,
        dst.top + k <= GLASS_CAPACITY,
        spec_pour(src, dst) == (pop_units(src, k), push_units(dst, top_color(src), k)),
        spec_pour(src, dst).1.spec_is_full() || top_color(spec_pour(src, dst).0) != top_color(src),
{
    lemma_pour_run(src, dst, top_color(src))
}

/// The system after pouring from glass `from` into glass `to`.
pub open spec fn spec_poured(sys: Seq<Glass>, from: int, to: int) -> Seq<Glass> {
    let (src, dst) = spec_pour(sys[from], sys[to]);
    sys.update(from, src).update(to, dst)
}

/// The indices of a pour name two different glasses of the system.
pub open spec fn indices_ok(sys: Seq<Glass>, from: int, to: int) -> bool {
    0 <= from < sys.len() && 0 <= to < sys.len() && from != to
}

/// Every glass of the system is consistent.
pub open spec fn system_wf(sys: Seq<Glass>) -> bool {
    forall|i: int| 0 <= i < sys.len() ==> (#[trigger] sys[i]).wf()
}

/// Every glass of the system is empty or sorted.
pub open spec fn spec_is_solved(sys: Seq<Glass>) -> bool {
    forall|i: int| 0 <= i < sys.len() ==> (#[trigger] sys[i]).spec_is_empty() || sys[i].spec_is_sorted()
}

/// A step that the game allows: two different glasses, a source that is neither
/// empty nor sorted, a destination that is not full and is empty or has the same top color.
pub open spec fn step_is_valid(sys: Seq<Glass>, s: int, d: int) -> bool {
    &&& indices_ok(sys, s, d)
    &&& !sys[s].spec_is_empty()
    &&& !sys[s].spec_is_sorted()
    &&& !sys[d].spec_is_full()
    &&& (sys[d].spec_is_empty() || top_color(sys[s]) == top_color(sys[d]))
}

/// The step from glass `s` to glass `d`.
pub open spec fn mk_step(s: int, d: int) -> Step {
    Step { source: s as usize, destination: d as usize }
}

/// Lexicographic order of steps by source, then destination.
pub open spec fn step_before(a: Step, b: Step) -> bool {
    a.source < b.source || (a.source == b.source && a.destination < b.destination)
}

/// The steps that `get_valid_steps` lists: exactly the valid ones, in increasing order.
pub open spec fn lists_valid_steps(sys: Seq<Glass>, steps: Seq<Step>) -> bool {
    &&& forall|k: int| 0 <= k < steps.len() ==> step_is_valid(sys, #[trigger] steps[k].source as int, steps[k].destination as int)
    &&& forall|s: int, d: int| step_is_valid(sys, s, d) ==> exists|k: int| 0 <= k < steps.len() && #[trigger] steps[k] == mk_step(s, d)
    &&& forall|i: int, j: int| 0 <= i < j < steps.len() ==> step_before(#[trigger] steps[i], #[trigger] steps[j])
}

/// Every glass of the system has its top within capacity.
pub open spec fn tops_ok(sys: Seq<Glass>) -> bool {
    forall|i: int| 0 <= i < sys.len() ==> (#[trigger] sys[i]).top <= GLASS_CAPACITY
}

/// The index of the first step that cannot be carried out when the steps are
/// carried out one after another from `sys`, if there is one.
pub open spec fn failing_step(sys: Seq<Glass>, steps: Seq<Step>) -> Option<nat>
    decreases steps.len(),
{
    if steps.len() == 0 {
        None
    } else if !indices_ok(sys, steps[0].source as int, steps[0].destination as int) {
        Some(0)
    } else {
        match failing_step(spec_poured(sys, steps[0].source as int, steps[0].destination as int), steps.drop_first()) {
            Some(k) => Some(k + 1),
            None => None,
        }
    }
}

/// The system after carrying out the steps one after another from `sys`
/// (meaningful when no step fails).
pub open spec fn replay_final(sys: Seq<Glass>, steps: Seq<Step>) -> Seq<Glass>
    decreases steps.len(),
{
    if steps.len() == 0 || !indices_ok(sys, steps[0].source as int, steps[0].destination as int) {
        sys
    } else {
        replay_final(spec_poured(sys, steps[0].source as int, steps[0].destination as int), steps.drop_first())
    }
}

/// Every step is allowed by the rules of the game in the system it is taken in.
pub open spec fn valid_moves(sys: Seq<Glass>, steps: Seq<Step>) -> bool
    decreases steps.len(),
{
    steps.len() == 0 || (step_is_valid(sys, steps[0].source as int, steps[0].destination as int)
        && valid_moves(spec_poured(sys, steps[0].source as int, steps[0].destination as int), steps.drop_first()))
}

/// One more move after a sequence of moves: the longer sequence is made of moves too, and
/// ends where that move leads.
pub proof fn lemma_moves_then(sys: Seq<Glass>, steps: Seq<Step>, st: Step)
    requires
        valid_moves(sys, steps),
        step_is_valid(replay_final(sys, steps), st.source as int, st.destination as int),
    ensures
        valid_moves(sys, steps.push(st)),
        replay_final(sys, steps.push(st)) == spec_poured(replay_final(sys, steps), st.source as int, st.destination as int),
    decreases steps.len(),
{
    if steps.len() == 0 {
        let one = steps.push(st);
        assert(replay_final(sys, steps) == sys);
        assert(one[0] == st);
        assert(one.drop_first() =~= Seq::<Step>::empty());
        let next = spec_poured(sys, st.source as int, st.destination as int);
        assert(valid_moves(next, one.drop_first()));
        assert(replay_final(next, one.drop_first()) == next);
    } else {
        let next = spec_poured(sys, steps[0].source as int, steps[0].destination as int);
        lemma_moves_then(next, steps.drop_first(), st);
        assert(steps.push(st).drop_first() =~= steps.drop_first().push(st));
        assert(steps.push(st)[0] == steps[0]);
    }
}

/// Every glass of the system is consistent and each of its units has a color.
pub open spec fn system_proper(sys: Seq<Glass>) -> bool {
    forall|i: int| 0 <= i < sys.len() ==> (#[trigger] sys[i]).wf() && sys[i].units_colored()
}

/// Pouring keeps two consistent glasses with colored units so.
pub proof fn lemma_pour_keeps_colored(src: Glass, dst: Glass)
    requires
        src.wf(),
        dst.wf(),
        src.units_colored(),
        dst.units_colored(),
    ensures
        spec_pour(src, dst).0.wf(),
        spec_pour(src, dst).1.wf(),
        spec_pour(src, dst).0.units_colored(),
        spec_pour(src, dst).1.units_colored(),
    decreases GLASS_CAPACITY - dst.top,
{
    if src.top > 0 && dst.top < GLASS_CAPACITY && (top_color(dst) == top_color(src) || top_color(dst)@ == 0) {
        let c = top_color(src);
        assert(c@ != 0);
        lemma_pop_push_keep_wf(src, c);
        lemma_pop_push_keep_wf(dst, c);
        let p = spec_pop(src);
        let q = spec_push(dst, c);
        assert forall|i: int| 1 <= i <= p.top implies (#[trigger] p.glass@[i])@ != 0 by {
            assert(p.glass@[i] == src.glass@[i]);
        }
        assert forall|i: int| 1 <= i <= q.top implies (#[trigger] q.glass@[i])@ != 0 by {
            if i <= dst.top {
                assert(q.glass@[i] == dst.glass@[i]);
            }
        }
        lemma_pour_keeps_colored(p, q);
    }
}

/// Carrying out two sequences of steps one after the other is carrying out their
/// concatenation: where no step of the first fails, the concatenation ends where the second
/// ends from where the first ended, and it is made of moves exactly when both are.
pub proof fn lemma_replay_concat(sys: Seq<Glass>, a: Seq<Step>, b: Seq<Step>)
    requires
        failing_step(sys, a) is None,
    ensures
        replay_final(sys, a + b) == replay_final(replay_final(sys, a), b),
        valid_moves(sys, a + b) == (valid_moves(sys, a) && valid_moves(replay_final(sys, a), b)),
    decreases a.len(),
{
    if a.len() == 0 {
        assert(a + b =~= b);
    } else {
        let next = spec_poured(sys, a[0].source as int, a[0].destination as int);
        assert((a + b)[0] == a[0]);
        assert((a + b).drop_first() =~= a.drop_first() + b);
        lemma_replay_concat(next, a.drop_first(), b);
    }
}

/// Pouring keeps every top within capacity.
pub proof fn lemma_pour_keeps_tops(src: Glass, dst: Glass)
    requires
        src.top <= GLASS_CAPACITY,
        dst.top <= GLASS_CAPACITY,
    ensures
        spec_pour(src, dst).0.top <= GLASS_CAPACITY,
        spec_pour(src, dst).1.top <= GLASS_CAPACITY,
    decreases GLASS_CAPACITY - dst.top,
{
    if src.top > 0 && dst.top < GLASS_CAPACITY && (top_color(dst) == top_color(src) || top_color(dst)@ == 0) {
        lemma_pour_keeps_tops(spec_pop(src), spec_push(dst, top_color(src)));
    }
}

/// Pouring between two glasses of a system keeps every top within capacity.
pub proof fn lemma_poured_keeps_tops(sys: Seq<Glass>, from: int, to: int)
    requires
        tops_ok(sys),
        indices_ok(sys, from, to),
    ensures
        tops_ok(spec_poured(sys, from, to)),
        spec_poured(sys, from, to).len() == sys.len(),
{
    lemma_pour_keeps_tops(sys[from], sys[to]);
}

/// Pouring never lowers the destination nor raises the source.
proof fn lemma_pour_monotone(src: Glass, dst: Glass)
    requires
        src.top <= GLASS_CAPACITY,
        dst.top <= GLASS_CAPACITY,
    ensures
        spec_pour(src, dst).1.top >= dst.top,
        spec_pour(src, dst).0.top <= src.top,
    decreases GLASS_CAPACITY - dst.top,
{
    if src.top > 0 && dst.top < GLASS_CAPACITY && (top_color(dst) == top_color(src) || top_color(dst)@ == 0) {
        lemma_pour_monotone(spec_pop(src), spec_push(dst, top_color(src)));
    }
}

/// A step that the game allows can be carried out, and it moves at least one unit:
/// the destination rises and the source sinks.
pub proof fn lemma_valid_step_moves(sys: Seq<Glass>, s: int, d: int)
    requires
        system_wf(sys),
        step_is_valid(sys, s, d),
    ensures
        indices_ok(sys, s, d),
        spec_poured(sys, s, d)[d].top > sys[d].top,
        spec_poured(sys, s, d)[s].top < sys[s].top,
        spec_poured(sys, s, d).len() == sys.len(),
{
    let src = sys[s];
    let dst = sys[d];
    assert(dst.spec_is_empty() ==> top_color(dst)@ == 0);
    lemma_pour_monotone(spec_pop(src), spec_push(dst, top_color(src)));
}

/// How often the color with id `x` occurs among the first `n` units.
pub open spec fn count_units(s: Seq<Color>, n: int, x: u8) -> nat
    decreases n,
{
    if n <= 0 {
        0
    } else {
        count_units(s, n - 1, x) + if s[n - 1]@ == x { 1nat } else { 0nat }
    }
}

/// How often the color with id `x` occurs in a glass.
pub open spec fn glass_units(g: Glass, x: u8) -> nat {
    count_units(contents(g), g.top as int, x)
}

/// How often the color with id `x` occurs in the first `n` glasses.
pub open spec fn system_units(sys: Seq<Glass>, n: int, x: u8) -> nat
    decreases n,
{
    if n <= 0 {
        0
    } else {
        system_units(sys, n - 1, x) + glass_units(sys[n - 1], x)
    }
}

pub(crate) proof fn lemma_count_units_prefix(a: Seq<Color>, b: Seq<Color>, n: int, x: u8)
    requires
        0 <= n <= a.len(),
        n <= b.len(),
        forall|i: int| 0 <= i < n ==> a[i] == b[i],
    ensures
        count_units(a, n, x) == count_units(b, n, x),
    decreases n,
{
    if n > 0 {
        lemma_count_units_prefix(a, b, n - 1, x);
    }
}

/// Taking the top unit off removes one occurrence of its color.
proof fn lemma_units_pop(g: Glass, x: u8)
    requires
        g.wf(),
    ensures
        glass_units(g, x) == glass_units(spec_pop(g), x) + if g.top > 0 && top_color(g)@ == x { 1nat } else { 0nat },
        g.top == 0 ==> top_color(g)@ == 0,
{
    if g.top > 0 {
        let p = spec_pop(g);
        assert(contents(p) =~= contents(g).drop_last());
        lemma_count_units_prefix(contents(p), contents(g), p.top as int, x);
        assert(contents(g)[g.top - 1] == top_color(g));
    }
}

/// Putting a unit on top adds one occurrence of its color.
proof fn lemma_units_push(g: Glass, c: Color, x: u8)
    requires
        g.wf(),
        g.top < GLASS_CAPACITY,
    ensures
        glass_units(spec_push(g, c), x) == glass_units(g, x) + if c@ == x { 1nat } else { 0nat },
{
    let p = spec_push(g, c);
    assert(contents(p) =~= contents(g).push(c));
    lemma_count_units_prefix(contents(p), contents(g), g.top as int, x);
}

/// Pouring between two consistent glasses keeps them consistent and keeps, for every
/// color, the number of its units in the two glasses together.
pub proof fn lemma_pour_conserves(src: Glass, dst: Glass, x: u8)
    requires
        src.wf(),
        dst.wf(),
        x != 0,
    ensures
        spec_pour(src, dst).0.wf(),
        spec_pour(src, dst).1.wf(),
        glass_units(spec_pour(src, dst).0, x) + glass_units(spec_pour(src, dst).1, x) == glass_units(src, x) + glass_units(dst, x),
    decreases GLASS_CAPACITY - dst.top,
{
    if src.top > 0 && dst.top < GLASS_CAPACITY && (top_color(dst) == top_color(src) || top_color(dst)@ == 0) {
        let c = top_color(src);
        lemma_units_pop(src, x);
        lemma_units_push(dst, c, x);
        crate::game_elements::glass::lemma_pop_push_keep_wf(src, c);
        crate::game_elements::glass::lemma_pop_push_keep_wf(dst, c);
        lemma_pour_conserves(spec_pop(src), spec_push(dst, c), x);
    }
}

proof fn lemma_system_units_update(sys: Seq<Glass>, n: int, i: int, g: Glass, x: u8)
    requires
        0 <= i < n <= sys.len(),
    ensures
        system_units(sys.update(i, g), n, x) + glass_units(sys[i], x) == system_units(sys, n, x) + glass_units(g, x),
    decreases n,
{
    if n - 1 > i {
        lemma_system_units_update(sys, n - 1, i, g, x);
    } else {
        lemma_system_units_same(sys.update(i, g), sys, i, x);
    }
}

proof fn lemma_system_units_same(a: Seq<Glass>, b: Seq<Glass>, n: int, x: u8)
    requires
        0 <= n <= a.len(),
        n <= b.len(),
        forall|i: int| 0 <= i < n ==> a[i] == b[i],
    ensures
        system_units(a, n, x) == system_units(b, n, x),
    decreases n,
{
    if n > 0 {
        lemma_system_units_same(a, b, n - 1, x);
    }
}

/// Pouring between two glasses of a consistent system keeps it consistent and keeps,
/// for every color, the number of its units in the whole system: no liquid is lost or made.
pub proof fn lemma_poured_conserves(sys: Seq<Glass>, from: int, to: int, x: u8)
    requires
        system_wf(sys),
        indices_ok(sys, from, to),
        x != 0,
    ensures
        system_wf(spec_poured(sys, from, to)),
        system_units(spec_poured(sys, from, to), sys.len() as int, x) == system_units(sys, sys.len() as int, x),
{
    let (src, dst) = spec_pour(sys[from], sys[to]);
    lemma_pour_conserves(sys[from], sys[to], x);
    let mid = sys.update(from, src);
    lemma_system_units_update(sys, sys.len() as int, from, src, x);
    lemma_system_units_update(mid, sys.len() as int, to, dst, x);
    assert(mid[to] == sys[to]);
}

/// Whether a system is solved does not depend on the order of its glasses.
pub proof fn lemma_solved_same_system(a: Seq<Glass>, b: Seq<Glass>)
    requires
        same_system(a, b),
    ensures
        spec_is_solved(a) == spec_is_solved(b),
{
    broadcast use vstd::seq_lib::group_to_multiset_ensures;

    assert forall|i: int| 0 <= i < b.len() && spec_is_solved(a) implies (#[trigger] b[i]).spec_is_empty() || b[i].spec_is_sorted() by {
        assert(b.contains(b[i]));
        assert(a.to_multiset().count(b[i]) > 0);
        assert(a.contains(b[i]));
    }
    assert forall|i: int| 0 <= i < a.len() && spec_is_solved(b) implies (#[trigger] a[i]).spec_is_empty() || a[i].spec_is_sorted() by {
        assert(a.contains(a[i]));
        assert(b.to_multiset().count(a[i]) > 0);
        assert(b.contains(a[i]));
    }
}

/// `p` reorders the glasses of `a` into those of `b`: it takes position `i` of `a` to a
/// position of `b` holding the same glass, no two positions to the same one.
pub open spec fn reorders(p: Seq<int>, a: Seq<Glass>, b: Seq<Glass>) -> bool {
    &&& p.len() == a.len()
    &&& a.len() == b.len()
    &&& forall|i: int| 0 <= i < p.len() ==> 0 <= #[trigger] p[i] < b.len() && b[p[i]] == a[i]
    &&& forall|i: int, j: int| 0 <= i < j < p.len() ==> #[trigger] p[i] != #[trigger] p[j]
}

/// A reordering of the glasses of `a` into those of `b`, where the two are the same system.
proof fn reordering_of(a: Seq<Glass>, b: Seq<Glass>) -> (p: Seq<int>)
    requires
        same_system(a, b),
    ensures
        reorders(p, a, b),
    decreases a.len(),
{
    broadcast use vstd::seq_lib::to_multiset_len, vstd::seq_lib::to_multiset_contains, vstd::seq_lib::to_multiset_remove;

    if a.len() == 0 {
        assert(b.to_multiset().len() == 0);
        Seq::empty()
    } else {
        let n = a.len() as int;
        let x = a.last();
        assert(a.contains(x));
        assert(a.to_multiset().count(x) > 0);
        assert(b.contains(x));
        let k = choose|k: int| 0 <= k < b.len() && b[k] == x;
        let a1 = a.drop_last();
        let b1 = b.remove(k);
        assert(a.remove(n - 1) =~= a1);
        assert(a1.to_multiset() == a.to_multiset().remove(x));
        assert(b1.to_multiset() == b.to_multiset().remove(x));
        let p1 = reordering_of(a1, b1);
        let p = p1.map_values(|j: int| if j < k { j } else { j + 1 }).push(k);
        assert forall|i: int| 0 <= i < p.len() implies 0 <= #[trigger] p[i] < b.len() && b[p[i]] == a[i] by {
            if i < n - 1 {
                assert(b1[p1[i]] == a1[i]);
            }
        }
        assert forall|i: int, j: int| 0 <= i < j < p.len() implies #[trigger] p[i] != #[trigger] p[j] by {
            if j < n - 1 {
                assert(p1[i] != p1[j]);
            }
        }
        p
    }
}

/// Two systems with a reordering between them are the same system.
proof fn lemma_reordered_same(p: Seq<int>, a: Seq<Glass>, b: Seq<Glass>)
    requires
        reorders(p, a, b),
    ensures
        same_system(a, b),
    decreases a.len(),
{
    broadcast use vstd::seq_lib::to_multiset_build, vstd::seq_lib::to_multiset_contains,
        vstd::seq_lib::to_multiset_remove, vstd::multiset::group_multiset_axioms;

    if a.len() == 0 {
        assert(b =~= Seq::<Glass>::empty());
        assert(a =~= Seq::<Glass>::empty());
    } else {
        let n = a.len() as int;
        let k = p[n - 1];
        let x = a[n - 1];
        let a1 = a.drop_last();
        let b1 = b.remove(k);
        let p1 = p.take(n - 1).map_values(|j: int| if j < k { j } else { j - 1 });
        assert forall|i: int| 0 <= i < p1.len() implies 0 <= #[trigger] p1[i] < b1.len() && b1[p1[i]] == a1[i] by {
            assert(p[i] != p[n - 1]);
        }
        assert forall|i: int, j: int| 0 <= i < j < p1.len() implies #[trigger] p1[i] != #[trigger] p1[j] by {
            assert(p[i] != p[j]);
            assert(p[i] != k && p[j] != k);
        }
        lemma_reordered_same(p1, a1, b1);
        assert(a1.push(x) =~= a);
        assert(b.contains(x));
        assert(b.to_multiset().count(x) > 0);
        assert(b1.to_multiset() == b.to_multiset().remove(x));
        assert(a.to_multiset() =~= b.to_multiset());
    }
}

/// Two systems are the same exactly when the glasses of one are a reordering of the glasses
/// of the other (as `==` on systems compares them).
pub proof fn lemma_same_system_reorders(a: Seq<Glass>, b: Seq<Glass>)
    ensures
        same_system(a, b) <==> exists|p: Seq<int>| reorders(p, a, b),
{
    if same_system(a, b) {
        let p = reordering_of(a, b);
        assert(reorders(p, a, b));
    }
    if exists|p: Seq<int>| reorders(p, a, b) {
        let p = choose|p: Seq<int>| reorders(p, a, b);
        lemma_reordered_same(p, a, b);
    }
}

/// A solved system allows no move: every glass is empty or sorted, so no glass can be a source.
pub proof fn lemma_solved_has_no_move(sys: Seq<Glass>, s: int, d: int)
    requires
        spec_is_solved(sys),
    ensures
        !step_is_valid(sys, s, d),
{
    if 0 <= s < sys.len() {
        assert(sys[s].spec_is_empty() || sys[s].spec_is_sorted());
    }
}

/// The game does not depend on the order of the glasses: a move that one system allows,
/// any reordering of it allows too, between the glasses with the same contents, and the
/// two results are reorderings of each other.
pub proof fn lemma_move_reordered(a: Seq<Glass>, b: Seq<Glass>, s: int, d: int) -> (m: (int, int))
    requires
        same_system(a, b),
        step_is_valid(a, s, d),
    ensures
        b[m.0] == a[s],
        b[m.1] == a[d],
        step_is_valid(b, m.0, m.1),
        same_system(spec_poured(a, s, d), spec_poured(b, m.0, m.1)),
{
    broadcast use vstd::seq_lib::to_multiset_contains, vstd::seq_lib::to_multiset_remove, vstd::seq_lib::to_multiset_update;

    let x = a[s];
    let y = a[d];
    assert(a.contains(x));
    assert(a.to_multiset().count(x) > 0);
    assert(b.to_multiset().count(x) > 0);
    assert(b.contains(x));
    let s2 = choose|i: int| 0 <= i < b.len() && b[i] == x;
    let ar = a.remove(s);
    let br = b.remove(s2);
    assert(ar.to_multiset() == a.to_multiset().remove(x));
    assert(br.to_multiset() == b.to_multiset().remove(x));
    let dr = if d < s { d } else { d - 1 };
    assert(ar[dr] == y);
    assert(ar.contains(y));
    assert(ar.to_multiset().count(y) > 0);
    assert(br.to_multiset().count(y) > 0);
    assert(br.contains(y));
    let e = choose|i: int| 0 <= i < br.len() && br[i] == y;
    let d2 = if e < s2 { e } else { e + 1 };
    assert(b[d2] == y);
    let (p, q) = spec_pour(x, y);
    let am = a.update(s, p);
    let bm = b.update(s2, p);
    assert(am[d] == y);
    assert(bm[d2] == y);
    assert(am.to_multiset() == a.to_multiset().insert(p).remove(x));
    assert(bm.to_multiset() == b.to_multiset().insert(p).remove(x));
    assert(am.update(d, q).to_multiset() == am.to_multiset().insert(q).remove(y));
    assert(bm.update(d2, q).to_multiset() == bm.to_multiset().insert(q).remove(y));
    (s2, d2)
}

/// A number that a glass is known by: its five slot ids and its top (modulo 256) packed
/// together. Equal glasses share their number; different glasses may too.
pub open spec fn glass_code(g: Glass) -> int {
    g.glass@[0]@ + 256 * g.glass@[1]@ + 65536 * g.glass@[2]@ + 16777216 * g.glass@[3]@
        + 4294967296 * g.glass@[4]@ + 1099511627776 * (g.top % 256)
}

/// The numbers of the glasses added up.
pub open spec fn codes_sum(sys: Seq<Glass>) -> int
    decreases sys.len(),
{
    if sys.len() == 0 {
        0
    } else {
        codes_sum(sys.drop_last()) + glass_code(sys.last())
    }
}

/// A number that a system is known by, whatever the order of its glasses.
pub open spec fn fingerprint(sys: Seq<Glass>) -> u64 {
    (codes_sum(sys) % 0x1_0000_0000_0000_0000) as u64
}

/// The number of a glass, computed.
fn glass_code_of(g: &Glass) -> (c: u64)
    ensures
        c == glass_code(*g),
        c < 0x1_0000_0000_0000,
{
    let a = g.glass[0].id() as u64;
    let b = g.glass[1].id() as u64;
    let c = g.glass[2].id() as u64;
    let d = g.glass[3].id() as u64;
    let e = g.glass[4].id() as u64;
    let t = (g.top % 256) as u64;
    a + 256 * b + 65536 * c + 16777216 * d + 4294967296 * e + 1099511627776 * t
}

/// Taking one glass out of the system takes its number out of the sum.
proof fn lemma_codes_sum_remove(sys: Seq<Glass>, k: int)
    requires
        0 <= k < sys.len(),
    ensures
        codes_sum(sys) == codes_sum(sys.remove(k)) + glass_code(sys[k]),
    decreases sys.len(),
{
    if k == sys.len() - 1 {
        assert(sys.remove(k) =~= sys.drop_last());
    } else {
        lemma_codes_sum_remove(sys.drop_last(), k);
        assert(sys.remove(k).drop_last() =~= sys.drop_last().remove(k));
        assert(sys.remove(k).last() == sys.last());
    }
}

/// The fingerprint does not depend on the order of the glasses.
pub proof fn lemma_fingerprint_reordered(a: Seq<Glass>, b: Seq<Glass>)
    requires
        same_system(a, b),
    ensures
        codes_sum(a) == codes_sum(b),
        fingerprint(a) == fingerprint(b),
    decreases a.len(),
{
    broadcast use vstd::seq_lib::to_multiset_len, vstd::seq_lib::to_multiset_contains, vstd::seq_lib::to_multiset_remove;

    if a.len() == 0 {
        assert(b.to_multiset().len() == 0);
        assert(b =~= Seq::<Glass>::empty());
    } else {
        let x = a.last();
        assert(a.contains(x));
        assert(a.to_multiset().count(x) > 0);
        assert(b.contains(x));
        let k = choose|k: int| 0 <= k < b.len() && b[k] == x;
        lemma_codes_sum_remove(b, k);
        assert(a.remove(a.len() - 1) =~= a.drop_last());
        assert(a.drop_last().to_multiset() == a.to_multiset().remove(x));
        assert(b.remove(k).to_multiset() == b.to_multiset().remove(x));
        lemma_fingerprint_reordered(a.drop_last(), b.remove(k));
    }
}

impl GlassSystem {
    /// Some system is necessary, even if just an empty Vec.
    pub fn new(system: Vec<Glass>) -> (s: Self)
        ensures
            s@ == system@,
    {
        GlassSystem { system }
    }

    /// Empty glasses are not considered sorted, but for a sorted
    /// system some empty glasses remain for sure.
    pub fn is_solved(&self) -> (r: bool)
        ensures
            r == spec_is_solved(self@),
    {
        let mut i: usize = 0;
        while i < self.system.len()
            invariant
                i <= self@.len(),
                forall|j: int| 0 <= j < i ==> (#[trigger] self@[j]).spec_is_empty() || self@[j].spec_is_sorted(),
            decreases self@.len() - i,
        {
            let g = &self.system[i];
            if !(g.is_empty() || g.is_sorted()) {
                return false;
            }
            i = i + 1;
        }
        true
    }

    /// Attempts to pour from one glass to another. "Try" refers to the fact that it can
    /// return an error.
    pub fn try_pour(&mut self, from_idx: usize, to_idx: usize) -> (r: Result<(), GlassSystemError>)
        requires
            indices_ok(old(self)@, from_idx as int, to_idx as int) ==> {
                &&& old(self)@[from_idx as int].top <= GLASS_CAPACITY
                &&& old(self)@[to_idx as int].top <= GLASS_CAPACITY
            },
        ensures
            r is Ok <==> indices_ok(old(self)@, from_idx as int, to_idx as int),
            !indices_ok(old(self)@, from_idx as int, to_idx as int) <==> r == Err::<(), GlassSystemError>(
                GlassSystemError::InvalidGlassIndices(from_idx, to_idx, old(self)@.len() as usize),
            ),
            !indices_ok(old(self)@, from_idx as int, to_idx as int) ==> final(self)@ == old(self)@,
            indices_ok(old(self)@, from_idx as int, to_idx as int) ==> final(self)@ == spec_poured(
                old(self)@,
                from_idx as int,
                to_idx as int,
            ),
            indices_ok(old(self)@, from_idx as int, to_idx as int) && old(self)@[from_idx as int].spec_is_empty()
                ==> final(self)@ == old(self)@,
            system_proper(old(self)@) ==> system_proper(final(self)@),
            system_proper(old(self)@) ==> forall|x: u8| x != 0 ==> #[trigger] system_units(final(self)@, final(self)@.len() as int, x)
                == system_units(old(self)@, old(self)@.len() as int, x),
    {
        proof {
            let sys = old(self)@;
            let f = from_idx as int;
            let t = to_idx as int;
            if indices_ok(sys, f, t) {
                if sys[f].spec_is_empty() {
                    assert(spec_poured(sys, f, t) =~= sys);
                }
                if system_proper(sys) {
                    lemma_pour_keeps_colored(sys[f], sys[t]);
                }
            }
        }
        let n = self.system.len();
        if from_idx >= n || to_idx >= n || from_idx == to_idx {
            return Err(GlassSystemError::InvalidGlassIndices(from_idx, to_idx, n));
        }
        let mut source = self.system[from_idx];
        let mut destination = self.system[to_idx];
        Self::pour_from_to(&mut source, &mut destination);
        self.system[from_idx] = source;
        self.system[to_idx] = destination;
        proof {
            let sys = old(self)@;
            if system_proper(sys) {
                assert(self@ == spec_poured(sys, from_idx as int, to_idx as int));
                assert forall|x: u8| x != 0 implies #[trigger] system_units(self@, self@.len() as int, x)
                    == system_units(sys, sys.len() as int, x) by {
                    lemma_poured_conserves(sys, from_idx as int, to_idx as int, x);
                }
            }
        }
        Ok(())
    }

    /// Moves units from the top of `source` onto `destination` while the rules allow it.
    fn pour_from_to(source: &mut Glass, destination: &mut Glass)
        requires
            old(source).top <= GLASS_CAPACITY,
            old(destination).top <= GLASS_CAPACITY,
        ensures
            (*final(source), *final(destination)) == spec_pour(*old(source), *old(destination)),
    {
        while !source.is_empty() && (destination.top() == source.top() || destination.top() == Color::empty()) && !destination.is_full()
            invariant
                source.top <= GLASS_CAPACITY,
                destination.top <= GLASS_CAPACITY,
                spec_pour(*source, *destination) == spec_pour(*old(source), *old(destination)),
            decreases GLASS_CAPACITY - destination.top,
        {
            let c = source.pop();
            let _ = destination.push(c);
        }
    }

    /// The fingerprint of the system, the same for every order of its glasses.
    pub fn fingerprint(&self) -> (f: u64)
        ensures
            f == fingerprint(self@),
    {
        let n = self.system.len();
        let mut acc: u128 = 0;
        let mut i: usize = 0;
        while i < n
            invariant
                n == self@.len(),
                i <= n,
                acc == codes_sum(self@.subrange(0, i as int)),
                acc <= i * 0x1_0000_0000_0000,
            decreases n - i,
        {
            let c = glass_code_of(&self.system[i]);
            assert(self@.subrange(0, i + 1).drop_last() =~= self@.subrange(0, i as int));
            acc = acc + c as u128;
            i = i + 1;
        }
        assert(self@.subrange(0, n as int) =~= self@);
        (acc % 0x1_0000_0000_0000_0000u128) as u64
    }

    /// The glasses of the system.
    pub fn get_state(&self) -> (r: &[Glass])
        ensures
            r@ == self@,
    {
        self.system.as_slice()
    }

    /// Gets all valid steps for a given node (or system)
    pub fn get_valid_steps(&self) -> (steps: Vec<Step>)
        requires
            forall|i: int| 0 <= i < self@.len() ==> (#[trigger] self@[i]).top <= GLASS_CAPACITY,
        ensures
            lists_valid_steps(self@, steps@),
    {
        let mut valid_steps: Vec<Step> = Vec::new();
        let n = self.system.len();
        let mut src_idx: usize = 0;
        while src_idx < n
            invariant
                n == self@.len(),
                src_idx <= n,
                forall|i: int| 0 <= i < self@.len() ==> (#[trigger] self@[i]).top <= GLASS_CAPACITY,
                forall|k: int| 0 <= k < valid_steps@.len() ==> step_is_valid(self@, #[trigger] valid_steps@[k].source as int, valid_steps@[k].destination as int),
                forall|k: int| 0 <= k < valid_steps@.len() ==> (#[trigger] valid_steps@[k]).source < src_idx,
                forall|s: int, d: int| 0 <= s < src_idx && step_is_valid(self@, s, d) ==> exists|k: int| 0 <= k < valid_steps@.len() && #[trigger] valid_steps@[k] == mk_step(s, d),
                forall|i: int, j: int| 0 <= i < j < valid_steps@.len() ==> step_before(#[trigger] valid_steps@[i], #[trigger] valid_steps@[j]),
            decreases n - src_idx,
        {
            let source = &self.system[src_idx];
            if !(source.is_empty() || source.is_sorted()) {
                let ghost before = valid_steps@;
                let mut dest_idx: usize = 0;
                while dest_idx < n
                    invariant
                        n == self@.len(),
                        src_idx < n,
                        dest_idx <= n,
                        *source == self@[src_idx as int],
                        !source.spec_is_empty() && !source.spec_is_sorted(),
                        forall|i: int| 0 <= i < self@.len() ==> (#[trigger] self@[i]).top <= GLASS_CAPACITY,
                        before.len() <= valid_steps@.len(),
                        forall|k: int| 0 <= k < before.len() ==> valid_steps@[k] == before[k],
                        forall|k: int| 0 <= k < before.len() ==> (#[trigger] before[k]).source < src_idx,
                        forall|k: int| before.len() <= k < valid_steps@.len() ==> (#[trigger] valid_steps@[k]).source == src_idx && valid_steps@[k].destination < dest_idx,
                        forall|k: int| 0 <= k < valid_steps@.len() ==> step_is_valid(self@, #[trigger] valid_steps@[k].source as int, valid_steps@[k].destination as int),
                        forall|s: int, d: int| 0 <= s < src_idx && step_is_valid(self@, s, d) ==> exists|k: int| 0 <= k < before.len() && #[trigger] before[k] == mk_step(s, d),
                        forall|d: int| 0 <= d < dest_idx && step_is_valid(self@, src_idx as int, d) ==> exists|k: int| 0 <= k < valid_steps@.len() && #[trigger] valid_steps@[k] == mk_step(src_idx as int, d),
                        forall|i: int, j: int| 0 <= i < j < valid_steps@.len() ==> step_before(#[trigger] valid_steps@[i], #[trigger] valid_steps@[j]),
                    decreases n - dest_idx,
                {
                    let destination = &self.system[dest_idx];
                    if !destination.is_full() && dest_idx != src_idx {
                        if destination.is_empty() || source.top() == destination.top() {
                            let st = Step { source: src_idx, destination: dest_idx };
                            let ghost prev = valid_steps@;
                            valid_steps.push(st);
                            assert(valid_steps@[valid_steps@.len() - 1] == st);
                            assert forall|i: int, j: int| 0 <= i < j < valid_steps@.len() implies step_before(#[trigger] valid_steps@[i], #[trigger] valid_steps@[j]) by {
                                if j < prev.len() {
                                    assert(valid_steps@[i] == prev[i] && valid_steps@[j] == prev[j]);
                                } else {
                                    assert(valid_steps@[i] == prev[i]);
                                    if i < before.len() {
                                        assert(before[i].source < src_idx);
                                    }
                                }
                            }
                            assert(st == mk_step(src_idx as int, dest_idx as int));
                            assert forall|d: int| 0 <= d < dest_idx + 1 && step_is_valid(self@, src_idx as int, d) implies exists|k: int| 0 <= k < valid_steps@.len() && #[trigger] valid_steps@[k] == mk_step(src_idx as int, d) by {
                                if d < dest_idx {
                                    let k = choose|k: int| 0 <= k < prev.len() && #[trigger] prev[k] == mk_step(src_idx as int, d);
                                    assert(valid_steps@[k] == prev[k]);
                                } else {
                                    assert(valid_steps@[prev.len() as int] == mk_step(src_idx as int, d));
                                }
                            }
                        }
                    }
                    dest_idx = dest_idx + 1;
                }
                assert forall|k: int| 0 <= k < valid_steps@.len() implies (#[trigger] valid_steps@[k]).source < src_idx + 1 by {
                    if k < before.len() {
                        assert(valid_steps@[k] == before[k]);
                    }
                }
                assert forall|s: int, d: int| 0 <= s < src_idx + 1 && step_is_valid(self@, s, d) implies exists|k: int| 0 <= k < valid_steps@.len() && #[trigger] valid_steps@[k] == mk_step(s, d) by {
                    if s < src_idx {
                        let k = choose|k: int| 0 <= k < before.len() && #[trigger] before[k] == mk_step(s, d);
                        assert(valid_steps@[k] == before[k]);
                    }
                }
            }
            src_idx = src_idx + 1;
        }
        valid_steps
    }
}

/// Two systems are the same when they hold the same glasses, in whatever order.
pub open spec fn same_system(a: Seq<Glass>, b: Seq<Glass>) -> bool {
    a.to_multiset() == b.to_multiset()
}

/// Whether two glasses are identical: same top and same slots.
pub fn glass_identical(a: &Glass, b: &Glass) -> (r: bool)
    ensures
        r == (*a == *b),
{
    if a.top != b.top {
        return false;
    }
    let mut i: usize = 0;
    while i < 5
        invariant
            i <= 5,
            forall|j: int| 0 <= j < i ==> #[trigger] a.glass@[j] == b.glass@[j],
        decreases 5 - i,
    {
        if a.glass[i] != b.glass[i] {
            return false;
        }
        i = i + 1;
    }
    assert(a.glass =~= b.glass);
    true
}

/// Two multisets that both hold `x` are equal exactly when they are equal after removing one `x`.
proof fn lemma_multiset_cancel<A>(m1: vstd::multiset::Multiset<A>, m2: vstd::multiset::Multiset<A>, x: A)
    requires
        m1.count(x) > 0,
        m2.count(x) > 0,
    ensures
        (m1 == m2) == (m1.remove(x) == m2.remove(x)),
{
    broadcast use vstd::multiset::group_multiset_axioms;

    if m1.remove(x) == m2.remove(x) {
        assert forall|y: A| m1.count(y) == m2.count(y) by {
            assert(m1.remove(x).count(y) == m2.remove(x).count(y));
        }
        assert(m1 =~= m2);
    }
}

/// The position of a glass identical to `g` in `v`, if there is one.
fn find_glass(v: &Vec<Glass>, g: &Glass) -> (r: Option<usize>)
    ensures
        r matches Some(j) ==> j < v@.len() && v@[j as int] == *g,
        r is None ==> !v@.contains(*g),
{
    let mut j: usize = 0;
    while j < v.len()
        invariant
            j <= v@.len(),
            forall|t: int| 0 <= t < j ==> v@[t] != *g,
        decreases v@.len() - j,
    {
        if glass_identical(&v[j], g) {
            return Some(j);
        }
        j = j + 1;
    }
    None
}

/// Whether two sequences of glasses hold the same glasses, in whatever order.
fn glasses_match(a: &[Glass], b: &[Glass]) -> (r: bool)
    ensures
        r == same_system(a@, b@),
{
    broadcast use vstd::seq_lib::group_to_multiset_ensures, vstd::multiset::group_multiset_axioms;

    if a.len() != b.len() {
        assert(a@.to_multiset().len() == a@.len());
        assert(b@.to_multiset().len() == b@.len());
        return false;
    }
    let n = a.len();
    let mut rest: Vec<Glass> = Vec::new();
    let mut k: usize = 0;
    while k < n
        invariant
            n == b@.len(),
            k <= n,
            rest@ == b@.subrange(0, k as int),
        decreases n - k,
    {
        rest.push(b[k]);
        k = k + 1;
        assert(rest@ =~= b@.subrange(0, k as int));
    }
    assert(rest@ =~= b@);
    assert(a@.subrange(0, n as int) =~= a@);
    let mut i: usize = 0;
    while i < n
        invariant
            n == a@.len(),
            i <= n,
            rest@.len() == n - i,
            same_system(a@, b@) == (a@.subrange(i as int, n as int).to_multiset() == rest@.to_multiset()),
        decreases n - i,
    {
        let ghost tail = a@.subrange(i as int, n as int);
        let found = find_glass(&rest, &a[i]);
        if found.is_none() {
            assert(tail[0] == a@[i as int]);
            assert(tail.contains(a@[i as int]));
            proof {
                vstd::seq_lib::to_multiset_contains(tail, a@[i as int]);
                vstd::seq_lib::to_multiset_contains(rest@, a@[i as int]);
            }
            assert(tail.to_multiset().count(a@[i as int]) > 0);
            assert(rest@.to_multiset().count(a@[i as int]) == 0);
            return false;
        }
        let j = found.unwrap();
        let ghost before = rest@;
        rest.remove(j);
        proof {
            let x = a@[i as int];
            vstd::seq_lib::to_multiset_remove(before, j as int);
            vstd::seq_lib::to_multiset_remove(tail, 0);
            assert(tail.remove(0) =~= a@.subrange(i + 1, n as int));
            vstd::seq_lib::to_multiset_contains(tail, x);
            vstd::seq_lib::to_multiset_contains(before, x);
            assert(tail.contains(x));
            assert(before[j as int] == x);
            lemma_multiset_cancel(tail.to_multiset(), before.to_multiset(), x);
        }
        i = i + 1;
    }
    assert(rest@.len() == 0);
    assert(rest@ =~= a@.subrange(n as int, n as int));
    true
}

impl PartialEq for GlassSystem {
    fn eq(&self, other: &Self) -> (r: bool) {
        glasses_match(self.system.as_slice(), other.system.as_slice())
    }
}

impl PartialEqSpecImpl for GlassSystem {
    open spec fn obeys_eq_spec() -> bool {
        true
    }

    open spec fn eq_spec(&self, other: &Self) -> bool {
        same_system(self@, other@)
    }
}

impl Eq for GlassSystem {}

impl Clone for GlassSystem {
    fn clone(&self) -> (r: Self)
        ensures
            r@ == self@,
    {
        let mut v: Vec<Glass> = Vec::new();
        let mut i: usize = 0;
        while i < self.system.len()
            invariant
                i <= self@.len(),
                v@ == self@.subrange(0, i as int),
            decreases self@.len() - i,
        {
            v.push(self.system[i]);
            i = i + 1;
            assert(v@ =~= self@.subrange(0, i as int));
        }
        assert(v@ =~= self@);
        GlassSystem { system: v }
    }
}

impl Default for GlassSystem {
    fn default() -> (r: Self)
        ensures
            r@ == Seq::<Glass>::empty(),
    {
        GlassSystem { system: Vec::new() }
    }
}

} // verus!
