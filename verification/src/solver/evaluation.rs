use vstd::prelude::*;

use crate::game_elements::color::{lemma_color_view_injective, lemma_empty_color_id, Color};
use crate::game_elements::glass::Glass;
use crate::game_elements::glass_system::GlassSystem;

verus! {

broadcast use lemma_color_view_injective, lemma_empty_color_id;

/// Lower is better.
/// A metric that determines how "far off" we are from a solution
pub type SolutionValue = u32;

/// How a system is evaluated.
#[derive(Debug, PartialEq, Eq, Structural, Clone, Copy)]
pub enum SolutionValueMode {
    /// No evaluation.
    Constant,
    /// Counts the number of different colors in each glass
    /// This means that the more homogeneus glasses are,
    /// the more promising that state is.
    ColorCount,
    /// Beyond the color count, it also might matter how mixed
    /// a glass is. Even if it contains just 2 colors, if they
    /// alternate, that probably needs more steps to tangle out.
    AlternatingColors,
}

/// Number of empty glasses among the first `k` glasses.
pub open spec fn empty_glasses(sys: Seq<Glass>, k: int) -> nat
    decreases k,
{
    if k <= 0 {
        0
    } else {
        empty_glasses(sys, k - 1) + if sys[k - 1].spec_is_empty() { 1nat } else { 0nat }
    }
}

/// Among the first `m` slots of a glass (the sentinel slot first), the number of slots whose
/// color no slot before holds: the number of distinct colors there, the empty color
/// counting as one.
pub open spec fn distinct_in_glass(g: Glass, m: int) -> nat
    decreases m,
{
    if m <= 0 {
        0
    } else {
        distinct_in_glass(g, m - 1) + if (forall|j: int| 0 <= j < m - 1 ==> (#[trigger] g.glass@[j])@ != g.glass@[m - 1]@) {
            1nat
        } else {
            0nat
        }
    }
}

/// The color-count metric over the first `k` glasses: for each glass, the number of
/// distinct colors in its five slots, counted for that glass alone.
pub open spec fn color_count_value(sys: Seq<Glass>, k: int) -> nat
    decreases k,
{
    if k <= 0 {
        0
    } else {
        color_count_value(sys, k - 1) + distinct_in_glass(sys[k - 1], 5)
    }
}

/// Number of slots among the first `m` of a glass, bottom (sentinel) slot first,
/// whose color differs from the slot below (the sentinel compared with the empty color).
pub open spec fn color_changes(g: Glass, m: int) -> nat
    decreases m,
{
    if m <= 0 {
        0
    } else {
        let prev = if m - 1 == 0 { 0u8 } else { g.glass@[m - 2]@ };
        color_changes(g, m - 1) + if prev != g.glass@[m - 1]@ { 1nat } else { 0nat }
    }
}

/// The alternating-colors metric over the first `k` glasses.
pub open spec fn alternation_value(sys: Seq<Glass>, k: int) -> nat
    decreases k,
{
    if k <= 0 {
        0
    } else {
        alternation_value(sys, k - 1) + color_changes(sys[k - 1], 5)
    }
}

/// The value of a system in a mode: the mode's metric plus one per empty glass.
pub open spec fn spec_solution_value(sys: Seq<Glass>, mode: SolutionValueMode) -> nat {
    let metric = match mode {
        SolutionValueMode::Constant => 1nat,
        SolutionValueMode::ColorCount => color_count_value(sys, sys.len() as int),
        SolutionValueMode::AlternatingColors => alternation_value(sys, sys.len() as int),
    };
    metric + empty_glasses(sys, sys.len() as int)
}

/// Systems small enough that every value fits a `SolutionValue`: a value is at most six per
/// glass plus one.
pub open spec fn value_fits(len: nat) -> bool {
    6 * len + 1 <= u32::MAX
}

proof fn lemma_distinct_in_glass_bound(g: Glass, m: int)
    requires
        0 <= m,
    ensures
        distinct_in_glass(g, m) <= m,
    decreases m,
{
    if m > 0 {
        lemma_distinct_in_glass_bound(g, m - 1);
    }
}

proof fn lemma_color_changes_bound(g: Glass, m: int)
    requires
        0 <= m,
    ensures
        color_changes(g, m) <= m,
    decreases m,
{
    if m > 0 {
        lemma_color_changes_bound(g, m - 1);
    }
}

/// Being empty means a bit more than being solved.
fn empty_glass_penalty(system: &GlassSystem, reward: SolutionValue) -> (value: SolutionValue)
    requires
        reward == 1,
        system@.len() <= u32::MAX,
    ensures
        value == empty_glasses(system@, system@.len() as int),
{
    let glasses = system.get_state();
    let mut value: SolutionValue = 0;
    let mut k: usize = 0;
    while k < glasses.len()
        invariant
            glasses@ == system@,
            reward == 1,
            k <= glasses@.len() <= u32::MAX,
            value == empty_glasses(system@, k as int),
            value <= k,
        decreases glasses@.len() - k,
    {
        if glasses[k].is_empty() {
            value = value + reward;
        }
        k = k + 1;
    }
    value
}

/// Counts the number of different colors in each glass and adds them up.
fn color_count_metric(system: &GlassSystem) -> (value: SolutionValue)
    requires
        value_fits(system@.len()),
    ensures
        value == color_count_value(system@, system@.len() as int),
{
    let glasses = system.get_state();
    let mut value: SolutionValue = 0;
    let mut k: usize = 0;
    while k < glasses.len()
        invariant
            glasses@ == system@,
            value_fits(system@.len()),
            k <= glasses@.len(),
            value == color_count_value(system@, k as int),
            value <= 5 * k,
        decreases glasses@.len() - k,
    {
        let g = glasses[k];
        let mut distinct: u32 = 0;
        let mut i: usize = 0;
        while i < 5
            invariant
                i <= 5,
                distinct == distinct_in_glass(g, i as int),
                distinct <= i,
            decreases 5 - i,
        {
            let mut fresh = true;
            let mut j: usize = 0;
            while j < i
                invariant
                    j <= i < 5,
                    fresh == (forall|t: int| 0 <= t < j ==> (#[trigger] g.glass@[t])@ != g.glass@[i as int]@),
                decreases i - j,
            {
                if g.glass[j].id() == g.glass[i].id() {
                    fresh = false;
                }
                j = j + 1;
            }
            if fresh {
                distinct = distinct + 1;
            }
            i = i + 1;
        }
        value = value + distinct;
        k = k + 1;
    }
    value
}


fn alternating_color_metric(system: &GlassSystem) -> (value: SolutionValue)
    requires
        value_fits(system@.len()),
    ensures
        value == alternation_value(system@, system@.len() as int),
{
    let glasses = system.get_state();
    let mut value: SolutionValue = 0;
    let mut k: usize = 0;
    while k < glasses.len()
        invariant
            glasses@ == system@,
            value_fits(system@.len()),
            k <= glasses@.len(),
            value == alternation_value(system@, k as int),
            value <= 5 * k,
        decreases glasses@.len() - k,
    {
        let g = glasses[k];
        let mut last_color = Color::empty();
        let mut changes: u32 = 0;
        let mut i: usize = 0;
        while i < 5
            invariant
                i <= 5,
                changes == color_changes(g, i as int),
                changes <= i,
                i == 0 ==> last_color@ == 0,
                i > 0 ==> last_color == g.glass@[i - 1],
            decreases 5 - i,
        {
            let c = g.glass[i];
            if last_color != c {
                changes = changes + 1;
                last_color = c;
            }
            i = i + 1;
        }
        value = value + changes;
        k = k + 1;
    }
    value
}

/// Calculates the value of a system.
pub fn solution_value(system: &GlassSystem, mode: &SolutionValueMode) -> (value: SolutionValue)
    requires
        value_fits(system@.len()),
    ensures
        value == spec_solution_value(system@, *mode),
{
    let empty_penalty: SolutionValue = 1;
    let value = match mode {
        SolutionValueMode::Constant => 1,
        SolutionValueMode::ColorCount => color_count_metric(system),
        SolutionValueMode::AlternatingColors => alternating_color_metric(system),
    };
    proof {
        lemma_value_bounds(system@);
    }
    value + empty_glass_penalty(system, empty_penalty)
}

proof fn lemma_value_bounds(sys: Seq<Glass>)
    ensures
        color_count_value(sys, sys.len() as int) <= 5 * sys.len(),
        alternation_value(sys, sys.len() as int) <= 5 * sys.len(),
        empty_glasses(sys, sys.len() as int) <= sys.len(),
{
    lemma_value_bounds_upto(sys, sys.len() as int);
}

proof fn lemma_value_bounds_upto(sys: Seq<Glass>, k: int)
    requires
        0 <= k,
    ensures
        color_count_value(sys, k) <= 5 * k,
        alternation_value(sys, k) <= 5 * k,
        empty_glasses(sys, k) <= k,
    decreases k,
{
    if k > 0 {
        lemma_value_bounds_upto(sys, k - 1);
        lemma_distinct_in_glass_bound(sys[k - 1], 5);
        lemma_color_changes_bound(sys[k - 1], 5);
    }
}

/// 1 where two color ids differ, else 0.
pub open spec fn differ(a: u8, b: u8) -> int {
    if a != b { 1 } else { 0 }
}

/// Replacing a glass changes the alternating-colors metric by the difference of the two
/// glasses' changes.
proof fn lemma_alternation_update(sys: Seq<Glass>, n: int, k: int, h: Glass)
    requires
        0 <= k < n <= sys.len(),
    ensures
        alternation_value(sys.update(k, h), n) + color_changes(sys[k], 5) == alternation_value(sys, n) + color_changes(h, 5),
    decreases n,
{
    if n - 1 > k {
        lemma_alternation_update(sys, n - 1, k, h);
    } else {
        lemma_alternation_same(sys.update(k, h), sys, k);
    }
}

proof fn lemma_alternation_same(a: Seq<Glass>, b: Seq<Glass>, n: int)
    requires
        0 <= n <= a.len(),
        n <= b.len(),
        forall|i: int| 0 <= i < n ==> a[i] == b[i],
    ensures
        alternation_value(a, n) == alternation_value(b, n),
        empty_glasses(a, n) == empty_glasses(b, n),
    decreases n,
{
    if n > 0 {
        lemma_alternation_same(a, b, n - 1);
    }
}

/// Replacing a glass by one with the same top keeps the number of empty glasses.
proof fn lemma_empty_update(sys: Seq<Glass>, n: int, k: int, h: Glass)
    requires
        0 <= k < n <= sys.len(),
        h.top == sys[k].top,
    ensures
        empty_glasses(sys.update(k, h), n) == empty_glasses(sys, n),
    decreases n,
{
    if n - 1 > k {
        lemma_empty_update(sys, n - 1, k, h);
    } else {
        lemma_alternation_same(sys.update(k, h), sys, k);
    }
}

/// The alternating-colors value looks at every one of the `GLASS_CAPACITY + 1` slots of every
/// glass: when one slot `i` of one glass changes (its top staying), the value changes by
/// exactly the color changes at that slot (against the slot below it, or the empty color
/// below the bottom slot) and at the slot above it (if there is one).
pub proof fn lemma_alternation_one_slot(sys: Seq<Glass>, k: int, h: Glass, i: int)
    requires
        0 <= k < sys.len(),
        0 <= i < 5,
        h.top == sys[k].top,
        forall|j: int| 0 <= j < 5 && j != i ==> #[trigger] h.glass@[j] == sys[k].glass@[j],
    ensures
        ({
            let g = sys[k];
            let below: u8 = if i == 0 { 0u8 } else { g.glass@[i - 1]@ };
            let above_old: int = if i < 4 { differ(g.glass@[i]@, g.glass@[i + 1]@) } else { 0 };
            let above_new: int = if i < 4 { differ(h.glass@[i]@, h.glass@[i + 1]@) } else { 0 };
            spec_solution_value(sys.update(k, h), SolutionValueMode::AlternatingColors) + differ(below, g.glass@[i]@) + above_old
                == spec_solution_value(sys, SolutionValueMode::AlternatingColors) + differ(below, h.glass@[i]@) + above_new
        }),
{
    let g = sys[k];
    let n = sys.len() as int;
    lemma_alternation_update(sys, n, k, h);
    lemma_empty_update(sys, n, k, h);
    assert(sys.update(k, h).len() == n);
    reveal_with_fuel(color_changes, 6);
    assert(color_changes(g, 5) == differ(0u8, g.glass@[0]@) + differ(g.glass@[0]@, g.glass@[1]@)
        + differ(g.glass@[1]@, g.glass@[2]@) + differ(g.glass@[2]@, g.glass@[3]@) + differ(g.glass@[3]@, g.glass@[4]@));
    assert(color_changes(h, 5) == differ(0u8, h.glass@[0]@) + differ(h.glass@[0]@, h.glass@[1]@)
        + differ(h.glass@[1]@, h.glass@[2]@) + differ(h.glass@[2]@, h.glass@[3]@) + differ(h.glass@[3]@, h.glass@[4]@));
    assert(h.glass@[0] == g.glass@[0] || i == 0);
    assert(h.glass@[1] == g.glass@[1] || i == 1);
    assert(h.glass@[2] == g.glass@[2] || i == 2);
    assert(h.glass@[3] == g.glass@[3] || i == 3);
    assert(h.glass@[4] == g.glass@[4] || i == 4);
}

} // verus!
