//! Font settings: style, weight and stretch enumerations with their textual
//! forms, and the font records the page renderer is configured with.

use vstd::prelude::*;

verus! {

/// Error returned if unable to parse a font property from a given `str`.
#[derive(Debug, PartialEq, Eq)]
pub struct ParseFontError;

// ---------------------------------------------------------------------------
// Style
// ---------------------------------------------------------------------------

/// The style of the font.
#[derive(Clone, Copy, Debug, PartialEq, Eq, Structural)]
pub enum Style {
    Normal,
    Oblique,
    Italic,
}

/// The style a textual form denotes, if any.
pub open spec fn style_of(s: Seq<char>) -> Option<Style> {
    if s == "Style::Normal"@ || s == "Style::normal"@ {
        Some(Style::Normal)
    } else if s == "Style::Oblique"@ || s == "Style::oblique"@ {
        Some(Style::Oblique)
    } else if s == "Style::Italic"@ || s == "Style::italic"@ {
        Some(Style::Italic)
    } else {
        None
    }
}

/// The canonical textual form of a style.
pub open spec fn style_name(v: Style) -> Seq<char> {
    match v {
        Style::Normal => "Normal"@,
        Style::Oblique => "Oblique"@,
        Style::Italic => "Italic"@,
    }
}

impl Default for Style {
    fn default() -> (r: Self)
        ensures
            r == Style::Normal,
    {
        Style::Normal
    }
}

impl Style {
    /// Parses the `Style::<name>` form, exactly as [`style_of`] reads it.
    pub fn from_str(s: &str) -> (r: Result<Self, ParseFontError>)
        ensures
            match r {
                Ok(v) => style_of(s@) == Some(v),
                Err(_) => style_of(s@) is None,
            },
    {
        if crate::codec::str_eq_str(s, "Style::Normal") || crate::codec::str_eq_str(
            s,
            "Style::normal",
        ) {
            Ok(Style::Normal)
        } else if crate::codec::str_eq_str(s, "Style::Oblique") || crate::codec::str_eq_str(
            s,
            "Style::oblique",
        ) {
            Ok(Style::Oblique)
        } else if crate::codec::str_eq_str(s, "Style::Italic") || crate::codec::str_eq_str(
            s,
            "Style::italic",
        ) {
            Ok(Style::Italic)
        } else {
            Err(ParseFontError)
        }
    }

    /// The style's name, as [`style_name`] writes it.
    pub fn as_str(&self) -> (r: &'static str)
        ensures
            r@ == style_name(*self),
    {
        match self {
            Style::Normal => "Normal",
            Style::Oblique => "Oblique",
            Style::Italic => "Italic",
        }
    }
}

// ---------------------------------------------------------------------------
// Weight
// ---------------------------------------------------------------------------

/// The weight of the font.
#[derive(Clone, Copy, Debug, PartialEq, Eq, Structural)]
pub enum Weight {
    Thin,
    Ultralight,
    Light,
    Semilight,
    Book,
    Normal,
    Medium,
    Semibold,
    Bold,
    Ultrabold,
    Heavy,
    Ultraheavy,
}

/// The weight a textual form denotes, if any; `Regular` is another name for
/// `Normal`.
pub open spec fn weight_of(s: Seq<char>) -> Option<Weight> {
    if s == "Weight::Thin"@ || s == "Weight::thin"@ {
        Some(Weight::Thin)
    } else if s == "Weight::Ultralight"@ || s == "Weight::ultralight"@ {
        Some(Weight::Ultralight)
    } else if s == "Weight::Light"@ || s == "Weight::light"@ {
        Some(Weight::Light)
    } else if s == "Weight::Semilight"@ || s == "Weight::semilight"@ {
        Some(Weight::Semilight)
    } else if s == "Weight::Book"@ || s == "Weight::book"@ {
        Some(Weight::Book)
    } else if s == "Weight::Normal"@ || s == "Weight::normal"@ || s == "Weight::Regular"@ || s
        == "Weight::regular"@ {
        Some(Weight::Normal)
    } else if s == "Weight::Medium"@ || s == "Weight::medium"@ {
        Some(Weight::Medium)
    } else if s == "Weight::Semibold"@ || s == "Weight::semibold"@ {
        Some(Weight::Semibold)
    } else if s == "Weight::Bold"@ || s == "Weight::bold"@ {
        Some(Weight::Bold)
    } else if s == "Weight::Ultrabold"@ || s == "Weight::ultrabold"@ {
        Some(Weight::Ultrabold)
    } else if s == "Weight::Heavy"@ || s == "Weight::heavy"@ {
        Some(Weight::Heavy)
    } else if s == "Weight::Ultraheavy"@ || s == "Weight::ultraheavy"@ {
        Some(Weight::Ultraheavy)
    } else {
        None
    }
}

/// The canonical textual form of a weight.
pub open spec fn weight_name(v: Weight) -> Seq<char> {
    match v {
        Weight::Thin => "Thin"@,
        Weight::Ultralight => "Ultralight"@,
        Weight::Light => "Light"@,
        Weight::Semilight => "Semilight"@,
        Weight::Book => "Book"@,
        Weight::Normal => "Normal"@,
        Weight::Medium => "Medium"@,
        Weight::Semibold => "Semibold"@,
        Weight::Bold => "Bold"@,
        Weight::Ultrabold => "Ultrabold"@,
        Weight::Heavy => "Heavy"@,
        Weight::Ultraheavy => "Ultraheavy"@,
    }
}

impl Default for Weight {
    fn default() -> (r: Self)
        ensures
            r == Weight::Normal,
    {
        Weight::Normal
    }
}

impl Weight {
    /// Parses the `Weight::<name>` form, exactly as [`weight_of`] reads it.
    pub fn from_str(s: &str) -> (r: Result<Self, ParseFontError>)
        ensures
            match r {
                Ok(v) => weight_of(s@) == Some(v),
                Err(_) => weight_of(s@) is None,
            },
    {
        if crate::codec::str_eq_str(s, "Weight::Thin") || crate::codec::str_eq_str(
            s,
            "Weight::thin",
        ) {
            Ok(Weight::Thin)
        } else if crate::codec::str_eq_str(s, "Weight::Ultralight") || crate::codec::str_eq_str(
            s,
            "Weight::ultralight",
        ) {
            Ok(Weight::Ultralight)
        } else if crate::codec::str_eq_str(s, "Weight::Light") || crate::codec::str_eq_str(
            s,
            "Weight::light",
        ) {
            Ok(Weight::Light)
        } else if crate::codec::str_eq_str(s, "Weight::Semilight") || crate::codec::str_eq_str(
            s,
            "Weight::semilight",
        ) {
            Ok(Weight::Semilight)
        } else if crate::codec::str_eq_str(s, "Weight::Book") || crate::codec::str_eq_str(
            s,
            "Weight::book",
        ) {
            Ok(Weight::Book)
        } else if crate::codec::str_eq_str(s, "Weight::Normal") || crate::codec::str_eq_str(
            s,
            "Weight::normal",
        ) || crate::codec::str_eq_str(s, "Weight::Regular") || crate::codec::str_eq_str(
            s,
            "Weight::regular",
        ) {
            Ok(Weight::Normal)
        } else if crate::codec::str_eq_str(s, "Weight::Medium") || crate::codec::str_eq_str(
            s,
            "Weight::medium",
        ) {
            Ok(Weight::Medium)
        } else if crate::codec::str_eq_str(s, "Weight::Semibold") || crate::codec::str_eq_str(
            s,
            "Weight::semibold",
        ) {
            Ok(Weight::Semibold)
        } else if crate::codec::str_eq_str(s, "Weight::Bold") || crate::codec::str_eq_str(
            s,
            "Weight::bold",
        ) {
            Ok(Weight::Bold)
        } else if crate::codec::str_eq_str(s, "Weight::Ultrabold") || crate::codec::str_eq_str(
            s,
            "Weight::ultrabold",
        ) {
            Ok(Weight::Ultrabold)
        } else if crate::codec::str_eq_str(s, "Weight::Heavy") || crate::codec::str_eq_str(
            s,
            "Weight::heavy",
        ) {
            Ok(Weight::Heavy)
        } else if crate::codec::str_eq_str(s, "Weight::Ultraheavy") || crate::codec::str_eq_str(
            s,
            "Weight::ultraheavy",
        ) {
            Ok(Weight::Ultraheavy)
        } else {
            Err(ParseFontError)
        }
    }

    /// The weight's name, as [`weight_name`] writes it.
    pub fn as_str(&self) -> (r: &'static str)
        ensures
            r@ == weight_name(*self),
    {
        match self {
            Weight::Thin => "Thin",
            Weight::Ultralight => "Ultralight",
            Weight::Light => "Light",
            Weight::Semilight => "Semilight",
            Weight::Book => "Book",
            Weight::Normal => "Normal",
            Weight::Medium => "Medium",
            Weight::Semibold => "Semibold",
            Weight::Bold => "Bold",
            Weight::Ultrabold => "Ultrabold",
            Weight::Heavy => "Heavy",
            Weight::Ultraheavy => "Ultraheavy",
        }
    }
}

// ---------------------------------------------------------------------------
// Stretch
// ---------------------------------------------------------------------------

/// The stretch of the font.
#[derive(Clone, Copy, Debug, PartialEq, Eq, Structural)]
pub enum Stretch {
    UltraCondensed,
    ExtraCondensed,
    Condensed,
    SemiCondensed,
    Normal,
    SemiExpanded,
    Expanded,
    ExtraExpanded,
    UltraExpanded,
}

/// The stretch a textual form denotes, if any.
pub open spec fn stretch_of(s: Seq<char>) -> Option<Stretch> {
    if s == "Stretch::UltraCondensed"@ {
        Some(Stretch::UltraCondensed)
    } else if s == "Stretch::ExtraCondensed"@ {
        Some(Stretch::ExtraCondensed)
    } else if s == "Stretch::Condensed"@ {
        Some(Stretch::Condensed)
    } else if s == "Stretch::SemiCondensed"@ {
        Some(Stretch::SemiCondensed)
    } else if s == "Stretch::Normal"@ {
        Some(Stretch::Normal)
    } else if s == "Stretch::SemiExpanded"@ {
        Some(Stretch::SemiExpanded)
    } else if s == "Stretch::Expanded"@ {
        Some(Stretch::Expanded)
    } else if s == "Stretch::ExtraExpanded"@ {
        Some(Stretch::ExtraExpanded)
    } else if s == "Stretch::UltraExpanded"@ {
        Some(Stretch::UltraExpanded)
    } else {
        None
    }
}

/// The canonical textual form of a stretch.
pub open spec fn stretch_name(v: Stretch) -> Seq<char> {
    match v {
        Stretch::UltraCondensed => "UltraCondensed"@,
        Stretch::ExtraCondensed => "ExtraCondensed"@,
        Stretch::Condensed => "Condensed"@,
        Stretch::SemiCondensed => "SemiCondensed"@,
        Stretch::Normal => "Normal"@,
        Stretch::SemiExpanded => "SemiExpanded"@,
        Stretch::Expanded => "Expanded"@,
        Stretch::ExtraExpanded => "ExtraExpanded"@,
        Stretch::UltraExpanded => "UltraExpanded"@,
    }
}

impl Default for Stretch {
    fn default() -> (r: Self)
        ensures
            r == Stretch::Normal,
    {
        Stretch::Normal
    }
}

impl Stretch {
    /// Parses the `Stretch::<name>` form, exactly as [`stretch_of`] reads
    /// it.
    pub fn from_str(s: &str) -> (r: Result<Self, ParseFontError>)
        ensures
            match r {
                Ok(v) => stretch_of(s@) == Some(v),
                Err(_) => stretch_of(s@) is None,
            },
    {
        if crate::codec::str_eq_str(s, "Stretch::UltraCondensed") {
            Ok(Stretch::UltraCondensed)
        } else if crate::codec::str_eq_str(s, "Stretch::ExtraCondensed") {
            Ok(Stretch::ExtraCondensed)
        } else if crate::codec::str_eq_str(s, "Stretch::Condensed") {
            Ok(Stretch::Condensed)
        } else if crate::codec::str_eq_str(s, "Stretch::SemiCondensed") {
            Ok(Stretch::SemiCondensed)
        } else if crate::codec::str_eq_str(s, "Stretch::Normal") {
            Ok(Stretch::Normal)
        } else if crate::codec::str_eq_str(s, "Stretch::SemiExpanded") {
            Ok(Stretch::SemiExpanded)
        } else if crate::codec::str_eq_str(s, "Stretch::Expanded") {
            Ok(Stretch::Expanded)
        } else if crate::codec::str_eq_str(s, "Stretch::ExtraExpanded") {
            Ok(Stretch::ExtraExpanded)
        } else if crate::codec::str_eq_str(s, "Stretch::UltraExpanded") {
            Ok(Stretch::UltraExpanded)
        } else {
            Err(ParseFontError)
        }
    }

    /// The stretch's name, as [`stretch_name`] writes it.
    pub fn as_str(&self) -> (r: &'static str)
        ensures
            r@ == stretch_name(*self),
    {
        match self {
            Stretch::UltraCondensed => "UltraCondensed",
            Stretch::ExtraCondensed => "ExtraCondensed",
            Stretch::Condensed => "Condensed",
            Stretch::SemiCondensed => "SemiCondensed",
            Stretch::Normal => "Normal",
            Stretch::SemiExpanded => "SemiExpanded",
            Stretch::Expanded => "Expanded",
            Stretch::ExtraExpanded => "ExtraExpanded",
            Stretch::UltraExpanded => "UltraExpanded",
        }
    }
}

// ---------------------------------------------------------------------------
// Font records
// ---------------------------------------------------------------------------

/// One configured font: family, style, weight, stretch and size (in pango
/// units, 1024 to the point).
pub struct Font {
    pub family: String,
    pub style: Style,
    pub weight: Weight,
    pub stretch: Stretch,
    pub size: i32,
}

impl Default for Font {
    /// Returns "Sans Normal" at size 12288.
    fn default() -> (r: Self)
        ensures
            r.family@ == "Sans"@,
            r.style == Style::Normal,
            r.weight == Weight::Normal,
            r.stretch == Stretch::Normal,
            r.size == 12288,
    {
        Font {
            family: "Sans".to_owned(),
            style: Style::Normal,
            weight: Weight::Normal,
            stretch: Stretch::Normal,
            size: 12288,
        }
    }
}

impl Font {
    /// Get the *family* of the font.
    pub fn family(&self) -> (r: String)
        ensures
            r@ == self.family@,
    {
        self.family.clone()
    }

    /// Set the *family* of the font.
    pub fn set_family(&mut self, family: String)
        ensures
            final(self).family == family,
            final(self).style == old(self).style,
            final(self).weight == old(self).weight,
            final(self).stretch == old(self).stretch,
            final(self).size == old(self).size,
    {
        self.family = family;
    }

    /// Get the *style* of the font.
    pub fn style(&self) -> (r: Style)
        ensures
            r == self.style,
    {
        self.style
    }

    /// Set the *style* of the font.
    pub fn set_style(&mut self, style: Style)
        ensures
            final(self).style == style,
            final(self).family == old(self).family,
            final(self).weight == old(self).weight,
            final(self).stretch == old(self).stretch,
            final(self).size == old(self).size,
    {
        self.style = style;
    }

    /// Get the *weight* of the font.
    pub fn weight(&self) -> (r: Weight)
        ensures
            r == self.weight,
    {
        self.weight
    }

    /// Set the *weight* of the font.
    pub fn set_weight(&mut self, weight: Weight)
        ensures
            final(self).weight == weight,
            final(self).family == old(self).family,
            final(self).style == old(self).style,
            final(self).stretch == old(self).stretch,
            final(self).size == old(self).size,
    {
        self.weight = weight;
    }

    /// Get the *stretch* of the font.
    pub fn stretch(&self) -> (r: Stretch)
        ensures
            r == self.stretch,
    {
        self.stretch
    }

    /// Set the *stretch* of the font.
    pub fn set_stretch(&mut self, stretch: Stretch)
        ensures
            final(self).stretch == stretch,
            final(self).family == old(self).family,
            final(self).style == old(self).style,
            final(self).weight == old(self).weight,
            final(self).size == old(self).size,
    {
        self.stretch = stretch;
    }

    /// Get the *size* of the font.
    pub fn size(&self) -> (r: i32)
        ensures
            r == self.size,
    {
        self.size
    }

    /// Set the *size* of the font.
    pub fn set_size(&mut self, size: i32)
        ensures
            final(self).size == size,
            final(self).family == old(self).family,
            final(self).style == old(self).style,
            final(self).weight == old(self).weight,
            final(self).stretch == old(self).stretch,
    {
        self.size = size;
    }
}

/// The fonts the page renderer is configured with, one per text element.
pub struct Fonts {
    pub pg: Font,
    pub pre: Font,
    pub quote: Font,
    pub h1: Font,
    pub h2: Font,
    pub h3: Font,
}

impl Default for Fonts {
    /// Sans for body text and headers (bold, in decreasing sizes), monospace
    /// for preformatted text, italic for quotes.
    fn default() -> (r: Self)
        ensures
            r.pg.family@ == "Sans"@ && r.pg.style == Style::Normal && r.pg.weight == Weight::Normal
                && r.pg.size == 12288,
            r.pre.family@ == "Monospace"@ && r.pre.style == Style::Normal && r.pre.size == 12288,
            r.quote.family@ == "Sans"@ && r.quote.style == Style::Italic && r.quote.size == 12288,
            r.h1.family@ == "Sans"@ && r.h1.weight == Weight::Bold && r.h1.size == 18432,
            r.h2.family@ == "Sans"@ && r.h2.weight == Weight::Bold && r.h2.size == 16384,
            r.h3.family@ == "Sans"@ && r.h3.weight == Weight::Bold && r.h3.size == 14336,
    {
        Fonts {
            pg: Font::default(),
            pre: Font {
                family: "Monospace".to_owned(),
                style: Style::Normal,
                weight: Weight::Normal,
                stretch: Stretch::Normal,
                size: 12288,
            },
            quote: Font {
                family: "Sans".to_owned(),
                style: Style::Italic,
                weight: Weight::Normal,
                stretch: Stretch::Normal,
                size: 12288,
            },
            h1: Font {
                family: "Sans".to_owned(),
                style: Style::Normal,
                weight: Weight::Bold,
                stretch: Stretch::Normal,
                size: 18432,
            },
            h2: Font {
                family: "Sans".to_owned(),
                style: Style::Normal,
                weight: Weight::Bold,
                stretch: Stretch::Normal,
                size: 16384,
            },
            h3: Font {
                family: "Sans".to_owned(),
                style: Style::Normal,
                weight: Weight::Bold,
                stretch: Stretch::Normal,
                size: 14336,
            },
        }
    }
}

} // verus!
