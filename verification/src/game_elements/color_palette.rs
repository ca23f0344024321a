use vstd::prelude::*;

verus! {

/// Color schemes for different visual styles
#[derive(Debug, Clone, Copy, PartialEq, Eq, Structural)]
pub enum ColorScheme {
    /// Saturated colors
    Vibrant,
    /// Softer colors
    Pastel,
    /// Earthy tones
    Muted,
    /// High contrast
    HighContrast,
}

impl Default for ColorScheme {
    fn default() -> (s: Self)
        ensures
            s == ColorScheme::Vibrant,
    {
        ColorScheme::Vibrant
    }
}

/// RGB color representation
#[derive(Debug, Clone, Copy, PartialEq, Eq, Structural)]
pub struct Rgb {
    pub r: u8,
    pub g: u8,
    pub b: u8,
}

/// Color palette manager
pub struct ColorPalette {
    scheme: ColorScheme,
    colors: Vec<Rgb>,
}

impl ColorPalette {
    /// The scheme of the palette.
    pub closed spec fn spec_scheme(&self) -> ColorScheme {
        self.scheme
    }

    /// The colors of the palette.
    pub closed spec fn spec_colors(&self) -> Seq<Rgb> {
        self.colors@
    }

    /// A palette of the given colors for the scheme.
    pub fn with_colors(scheme: ColorScheme, colors: Vec<Rgb>) -> (p: Self)
        ensures
            p.spec_scheme() == scheme,
            p.spec_colors() == colors@,
    {
        ColorPalette { scheme, colors }
    }

    /// Get the color for a given color ID (1-based, 0 is empty); the ids wrap
    /// around the palette.
    pub fn get_color(&self, color_id: u8) -> (r: Option<&Rgb>)
        requires
            self.spec_colors().len() > 0,
        ensures
            color_id == 0 ==> r is None,
            color_id != 0 ==> r == Some(&self.spec_colors()[(color_id - 1) % (self.spec_colors().len() as int)]),
    {
        if color_id == 0 {
            return None;
        }
        let index = ((color_id - 1) as usize) % self.colors.len();
        Some(&self.colors[index])
    }

    /// Get the current color scheme
    pub fn scheme(&self) -> (s: ColorScheme)
        ensures
            s == self.spec_scheme(),
    {
        self.scheme
    }
}

} // verus!
