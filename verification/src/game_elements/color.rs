use vstd::prelude::*;

verus! {

/// A single unit that occupies a slot in a glass. The id 0 stands for an empty slot.
#[derive(Debug, PartialEq, Eq, Structural, Clone, Copy, Hash)]
pub struct Color {
    id: u8,
}

impl View for Color {
    type V = u8;

    closed spec fn view(&self) -> u8 {
        self.id
    }
}

/// Two colors are the same value exactly when their ids agree.
pub broadcast proof fn lemma_color_view_injective(a: Color, b: Color)
    ensures
        #[trigger] a@ == #[trigger] b@ <==> a == b,
{
}

/// The empty slot.
pub closed spec fn empty_color() -> Color {
    Color { id: 0 }
}

/// The empty slot has id 0.
pub broadcast proof fn lemma_empty_color_id()
    ensures
        #[trigger] empty_color()@ == 0,
{
}

impl Color {
    /// The empty slot.
    pub fn empty() -> (c: Self)
        ensures
            c == empty_color(),
            c@ == 0,
    {
        Color { id: 0 }
    }

    pub fn new(id: u8) -> (c: Self)
        ensures
            c@ == id,
    {
        Color { id }
    }

    pub fn is_empty(&self) -> (r: bool)
        ensures
            r == (self@ == 0),
    {
        self.id == 0
    }

    pub fn id(&self) -> (r: u8)
        ensures
            r == self@,
    {
        self.id
    }
}

} // verus!
