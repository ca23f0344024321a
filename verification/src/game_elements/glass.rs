use vstd::prelude::*;
use vstd::std_specs::cmp::PartialEqSpecImpl;

use vstd::array::spec_array_update;

use crate::game_elements::color::{empty_color, lemma_color_view_injective, lemma_empty_color_id, Color};
use crate::game_elements::GLASS_CAPACITY;

verus! {

broadcast use lemma_color_view_injective, lemma_empty_color_id;

/// A single glass in the game.
///
/// Slot 0 of `glass` is a sentinel that stays empty; slots `1..=top` hold the
/// liquid from the bottom up, and the slots above `top` are empty.
#[derive(Debug, Clone, Copy, Hash)]
pub struct Glass {
    /// Contains color IDs. Each glass has the same length.
    pub glass: [Color; 5],
    /// The index of the top element. If the glass is full
    /// it's `GLASS_CAPACITY`, and then -1 each time we pour out.
    pub top: usize,
}

/// Errors of a single glass.
#[derive(Debug, PartialEq, Eq, Structural, Clone, Copy)]
pub enum GlassError {
    /// A glass is built from exactly `GLASS_CAPACITY` colors; this many were given.
    InvalidConstructorColorLength(usize),
    /// The glass is full.
    FullGlass,
}

/// The colors of a glass from the bottom up.
pub open spec fn contents(g: Glass) -> Seq<Color> {
    g.glass@.subrange(1, g.top as int + 1)
}

/// The color on top of a glass (the empty sentinel when the glass is empty).
pub open spec fn top_color(g: Glass) -> Color {
    g.glass@[g.top as int]
}

/// The glass after taking its top unit off (unchanged when it is empty).
pub open spec fn spec_pop(g: Glass) -> Glass {
    if g.top == 0 {
        g
    } else {
        Glass { glass: spec_array_update(g.glass, g.top as int, empty_color()), top: (g.top - 1) as usize }
    }
}

/// The glass after putting `c` on top (for a glass that is not full).
pub open spec fn spec_push(g: Glass, c: Color) -> Glass {
    Glass { glass: spec_array_update(g.glass, g.top + 1, c), top: (g.top + 1) as usize }
}

impl Glass {
    /// A glass in a consistent state: `top` within bounds, sentinel slot empty,
    /// and every slot above `top` empty.
    pub open spec fn wf(&self) -> bool {
        &&& self.top <= GLASS_CAPACITY
        &&& self.glass@[0]@ == 0
        &&& forall|i: int| self.top < i < 5 ==> (#[trigger] self.glass@[i])@ == 0
    }

    /// Every unit of the glass (the slots `1..=top`) has a color: none is the empty color.
    pub open spec fn units_colored(&self) -> bool {
        forall|i: int| 1 <= i <= self.top ==> (#[trigger] self.glass@[i])@ != 0
    }

    /// The glass holds `GLASS_CAPACITY` units.
    pub open spec fn spec_is_full(&self) -> bool {
        self.top == GLASS_CAPACITY
    }

    /// The glass holds no unit.
    pub open spec fn spec_is_empty(&self) -> bool {
        self.top == 0
    }

    /// Full, with every unit of one color.
    pub open spec fn spec_is_sorted(&self) -> bool {
        &&& self.top == GLASS_CAPACITY
        &&& forall|i: int| 1 <= i < 5 ==> #[trigger] self.glass@[i] == self.glass@[1]
    }

    /// An empty glass: every slot empty.
    pub fn new() -> (g: Self)
        ensures
            g.top == 0,
            forall|i: int| 0 <= i < 5 ==> (#[trigger] g.glass@[i])@ == 0,
            g.wf(),
    {
        Glass {
            top: 0,
            glass: [Color::empty(), Color::empty(), Color::empty(), Color::empty(), Color::empty()],
        }
    }

    /// Left->right in array is bottom -> top in glass (stack).
    pub fn from_colors(colors: &[Color]) -> (r: Result<Self, GlassError>)
        ensures
            colors@.len() == GLASS_CAPACITY <==> r is Ok,
            colors@.len() != GLASS_CAPACITY <==> r == Err::<Glass, GlassError>(
                GlassError::InvalidConstructorColorLength(colors@.len() as usize),
            ),
            r matches Ok(g) ==> {
                &&& g.top == GLASS_CAPACITY
                &&& g.glass@[0]@ == 0
                &&& contents(g) == colors@
            },
    {
        if colors.len() != GLASS_CAPACITY {
            return Err(GlassError::InvalidConstructorColorLength(colors.len()));
        }
        let g = Glass {
            top: colors.len(),
            glass: [Color::empty(), colors[0], colors[1], colors[2], colors[3]],
        };
        assert(contents(g) =~= colors@);
        Ok(g)
    }

    /// Top color.
    pub fn top(&self) -> (c: Color)
        requires
            self.top < 5,
        ensures
            c == top_color(*self),
    {
        self.glass[self.top]
    }

    /// Pours the top-most color only. Same-color pouring
    /// is enforced in a different logic.
    pub fn pop(&mut self) -> (c: Color)
        requires
            old(self).top < 5,
        ensures
            c == top_color(*old(self)),
            *final(self) == spec_pop(*old(self)),
    {
        let current_color = self.glass[self.top];
        if self.top != 0 {
            let t = self.top;
            self.glass[t] = Color::empty();
            self.top = t - 1;
            assert(self.glass =~= spec_pop(*old(self)).glass);
        }
        current_color
    }

    /// If not full, put the desired color on top.
    /// The color-validity is enforced on another level.
    pub fn push(&mut self, color: Color) -> (r: Result<(), GlassError>)
        requires
            old(self).top <= GLASS_CAPACITY,
        ensures
            old(self).top == GLASS_CAPACITY <==> r == Err::<(), GlassError>(GlassError::FullGlass),
            old(self).top == GLASS_CAPACITY ==> *final(self) == *old(self),
            old(self).top < GLASS_CAPACITY ==> r is Ok && *final(self) == spec_push(*old(self), color),
    {
        if self.is_full() {
            return Err(GlassError::FullGlass);
        }
        let t = self.top + 1;
        self.top = t;
        self.glass[t] = color;
        assert(self.glass =~= spec_push(*old(self), color).glass);
        Ok(())
    }

    /// If true, cannot pour into it.
    pub fn is_full(&self) -> (r: bool)
        ensures
            r == self.spec_is_full(),
    {
        self.top == GLASS_CAPACITY
    }

    /// If true, cannot pour from it.
    pub fn is_empty(&self) -> (r: bool)
        ensures
            r == self.spec_is_empty(),
    {
        self.top == 0
    }

    /// If true, the glass is solved.
    pub fn is_sorted(&self) -> (r: bool)
        ensures
            r == self.spec_is_sorted(),
    {
        if self.top != GLASS_CAPACITY {
            return false;
        }
        let mut i: usize = 1;
        while i < 5
            invariant
                1 <= i <= 5,
                forall|j: int| 1 <= j < i ==> #[trigger] self.glass@[j] == self.glass@[1],
            decreases 5 - i,
        {
            if self.glass[i] != self.glass[1] {
                return false;
            }
            i = i + 1;
        }
        true
    }
}

/// Pushing a color onto a consistent glass that is not full and then popping
/// gives that color back and restores the glass.
pub proof fn lemma_pop_undoes_push(g: Glass, c: Color)
    requires
        g.wf(),
        g.top < GLASS_CAPACITY,
    ensures
        top_color(spec_push(g, c)) == c,
        spec_pop(spec_push(g, c)) == g,
{
    let p = spec_push(g, c);
    assert(spec_pop(p).glass =~= g.glass);
}

/// Popping the top unit of a consistent non-empty glass and pushing it back
/// restores the glass.
pub proof fn lemma_push_undoes_pop(g: Glass)
    requires
        g.wf(),
        g.top > 0,
    ensures
        spec_push(spec_pop(g), top_color(g)) == g,
{
    assert(spec_push(spec_pop(g), top_color(g)).glass =~= g.glass);
}

/// Popping and pushing keep a glass consistent.
pub proof fn lemma_pop_push_keep_wf(g: Glass, c: Color)
    requires
        g.wf(),
    ensures
        spec_pop(g).wf(),
        g.top < GLASS_CAPACITY ==> spec_push(g, c).wf(),
        g.top < GLASS_CAPACITY ==> spec_push(g, c).top <= GLASS_CAPACITY,
{
}

impl Default for Glass {
    fn default() -> (g: Self)
        ensures
            g.top == 0,
            forall|i: int| 0 <= i < 5 ==> (#[trigger] g.glass@[i])@ == 0,
    {
        Self::new()
    }
}

impl PartialEq for Glass {
    fn eq(&self, other: &Self) -> (r: bool) {
        let mut i: usize = 1;
        while i < 5
            invariant
                1 <= i <= 5,
                forall|j: int| 1 <= j < i ==> #[trigger] self.glass@[j] == other.glass@[j],
            decreases 5 - i,
        {
            if self.glass[i] != other.glass[i] {
                assert(self.glass@.subrange(1, 5)[i - 1] != other.glass@.subrange(1, 5)[i - 1]);
                return false;
            }
            i = i + 1;
        }
        assert(self.glass@.subrange(1, 5) =~= other.glass@.subrange(1, 5));
        true
    }
}

impl PartialEqSpecImpl for Glass {
    open spec fn obeys_eq_spec() -> bool {
        true
    }

    open spec fn eq_spec(&self, other: &Self) -> bool {
        self.glass@.subrange(1, 5) == other.glass@.subrange(1, 5)
    }
}

impl Eq for Glass {}

} // verus!
