//! Font families, styles, and the choice of a standard PDF font.

use vstd::prelude::*;

verus! {

/// The 14 standard Type 1 fonts guaranteed in every PDF reader.
#[derive(Debug, Clone, Copy, PartialEq, Eq, Structural)]
pub enum BuiltInFont {
    /// Times-Roman (serif).
    TimesRoman,
    /// Times-Bold.
    TimesBold,
    /// Times-Italic.
    TimesItalic,
    /// Times-BoldItalic.
    TimesBoldItalic,
    /// Helvetica (sans-serif).
    Helvetica,
    /// Helvetica-Bold.
    HelveticaBold,
    /// Helvetica-Oblique.
    HelveticaOblique,
    /// Helvetica-BoldOblique.
    HelveticaBoldOblique,
    /// Courier (monospace).
    Courier,
    /// Courier-Bold.
    CourierBold,
    /// Courier-Oblique.
    CourierOblique,
    /// Courier-BoldOblique.
    CourierBoldOblique,
    /// Symbol.
    Symbol,
    /// ZapfDingbats.
    ZapfDingbats,
}

/// Font family specification.
#[derive(Debug, Clone, PartialEq, Eq)]
pub enum FontFamily {
    /// One of the 14 built-in PDF fonts.
    BuiltIn(BuiltInFont),
    /// A custom font loaded from a TTF/OTF file path.
    Custom(String),
}

/// Font style modifiers.
#[derive(Debug, Clone, Copy, PartialEq, Eq, Structural)]
pub struct FontStyle {
    /// Bold weight.
    pub bold: bool,
    /// Italic/oblique.
    pub italic: bool,
}

impl Default for FontStyle {
    fn default() -> (s: Self)
        ensures
            !s.bold && !s.italic,
    {
        FontStyle { bold: false, italic: false }
    }
}

/// The typeface group of a built-in font.
pub enum Typeface {
    /// Helvetica and its bold/oblique variants.
    Helvetica,
    /// Times and its bold/italic variants.
    Times,
    /// Courier and its bold/oblique variants.
    Courier,
}

/// The group of `f`, or `None` for Symbol and ZapfDingbats.
pub open spec fn typeface_of(f: BuiltInFont) -> Option<Typeface> {
    match f {
        BuiltInFont::Helvetica | BuiltInFont::HelveticaBold | BuiltInFont::HelveticaOblique
        | BuiltInFont::HelveticaBoldOblique => Some(Typeface::Helvetica),
        BuiltInFont::TimesRoman | BuiltInFont::TimesBold | BuiltInFont::TimesItalic
        | BuiltInFont::TimesBoldItalic => Some(Typeface::Times),
        BuiltInFont::Courier | BuiltInFont::CourierBold | BuiltInFont::CourierOblique
        | BuiltInFont::CourierBoldOblique => Some(Typeface::Courier),
        _ => None,
    }
}

/// Whether `f` is a bold variant.
pub open spec fn is_bold_font(f: BuiltInFont) -> bool {
    matches!(f, BuiltInFont::HelveticaBold | BuiltInFont::HelveticaBoldOblique
        | BuiltInFont::TimesBold | BuiltInFont::TimesBoldItalic | BuiltInFont::CourierBold
        | BuiltInFont::CourierBoldOblique)
}

/// Whether `f` is an italic (oblique) variant.
pub open spec fn is_italic_font(f: BuiltInFont) -> bool {
    matches!(f, BuiltInFont::HelveticaOblique | BuiltInFont::HelveticaBoldOblique
        | BuiltInFont::TimesItalic | BuiltInFont::TimesBoldItalic | BuiltInFont::CourierOblique
        | BuiltInFont::CourierBoldOblique)
}

/// The variant of `face` with the given weight and slant.
pub open spec fn face_variant(face: Typeface, bold: bool, italic: bool) -> BuiltInFont {
    match face {
        Typeface::Helvetica => if bold && italic {
            BuiltInFont::HelveticaBoldOblique
        } else if bold {
            BuiltInFont::HelveticaBold
        } else if italic {
            BuiltInFont::HelveticaOblique
        } else {
            BuiltInFont::Helvetica
        },
        Typeface::Times => if bold && italic {
            BuiltInFont::TimesBoldItalic
        } else if bold {
            BuiltInFont::TimesBold
        } else if italic {
            BuiltInFont::TimesItalic
        } else {
            BuiltInFont::TimesRoman
        },
        Typeface::Courier => if bold && italic {
            BuiltInFont::CourierBoldOblique
        } else if bold {
            BuiltInFont::CourierBold
        } else if italic {
            BuiltInFont::CourierOblique
        } else {
            BuiltInFont::Courier
        },
    }
}

/// The standard font used to draw text in `family` with `style`.
///
/// For Helvetica, Times and Courier the style decides the variant (the
/// variant named in the family itself is not used); Symbol and ZapfDingbats
/// are used as they are; a custom font falls back to Helvetica, bold when
/// the style is bold.
pub open spec fn spec_builtin_font_for(family: FontFamily, style: FontStyle) -> BuiltInFont {
    match family {
        FontFamily::BuiltIn(f) => match typeface_of(f) {
            Some(face) => face_variant(face, style.bold, style.italic),
            None => f,
        },
        FontFamily::Custom(_) => if style.bold {
            BuiltInFont::HelveticaBold
        } else {
            BuiltInFont::Helvetica
        },
    }
}

fn variant_of(face: Typeface, bold: bool, italic: bool) -> (f: BuiltInFont)
    ensures
        f == face_variant(face, bold, italic),
{
    match face {
        Typeface::Helvetica => if bold && italic {
            BuiltInFont::HelveticaBoldOblique
        } else if bold {
            BuiltInFont::HelveticaBold
        } else if italic {
            BuiltInFont::HelveticaOblique
        } else {
            BuiltInFont::Helvetica
        },
        Typeface::Times => if bold && italic {
            BuiltInFont::TimesBoldItalic
        } else if bold {
            BuiltInFont::TimesBold
        } else if italic {
            BuiltInFont::TimesItalic
        } else {
            BuiltInFont::TimesRoman
        },
        Typeface::Courier => if bold && italic {
            BuiltInFont::CourierBoldOblique
        } else if bold {
            BuiltInFont::CourierBold
        } else if italic {
            BuiltInFont::CourierOblique
        } else {
            BuiltInFont::Courier
        },
    }
}

/// Choose the standard font that draws text in `family` with `style`.
pub fn builtin_font_for(family: &FontFamily, style: FontStyle) -> (f: BuiltInFont)
    ensures
        f == spec_builtin_font_for(*family, style),
{
    match family {
        FontFamily::BuiltIn(b) => match b {
            BuiltInFont::Helvetica | BuiltInFont::HelveticaBold | BuiltInFont::HelveticaOblique
            | BuiltInFont::HelveticaBoldOblique => variant_of(
                Typeface::Helvetica,
                style.bold,
                style.italic,
            ),
            BuiltInFont::TimesRoman | BuiltInFont::TimesBold | BuiltInFont::TimesItalic
            | BuiltInFont::TimesBoldItalic => variant_of(Typeface::Times, style.bold, style.italic),
            BuiltInFont::Courier | BuiltInFont::CourierBold | BuiltInFont::CourierOblique
            | BuiltInFont::CourierBoldOblique => variant_of(
                Typeface::Courier,
                style.bold,
                style.italic,
            ),
            BuiltInFont::Symbol => BuiltInFont::Symbol,
            BuiltInFont::ZapfDingbats => BuiltInFont::ZapfDingbats,
        },
        FontFamily::Custom(_) => if style.bold {
            BuiltInFont::HelveticaBold
        } else {
            BuiltInFont::Helvetica
        },
    }
}

/// For a Helvetica, Times or Courier family, the chosen font keeps the
/// typeface and is bold exactly when the style is bold and italic exactly
/// when the style is italic.
pub proof fn law_font_follows_style(f: BuiltInFont, style: FontStyle)
    requires
        typeface_of(f) is Some,
    ensures
        typeface_of(spec_builtin_font_for(FontFamily::BuiltIn(f), style)) == typeface_of(f),
        is_bold_font(spec_builtin_font_for(FontFamily::BuiltIn(f), style)) == style.bold,
        is_italic_font(spec_builtin_font_for(FontFamily::BuiltIn(f), style)) == style.italic,
{
}

/// The choice of font does not depend on which variant of a typeface the
/// family names: only the style decides.
pub proof fn law_font_ignores_named_variant(f: BuiltInFont, g: BuiltInFont, style: FontStyle)
    requires
        typeface_of(f) is Some,
        typeface_of(f) == typeface_of(g),
    ensures
        spec_builtin_font_for(FontFamily::BuiltIn(f), style) == spec_builtin_font_for(
            FontFamily::BuiltIn(g),
            style,
        ),
{
}

} // verus!
