use vstd::prelude::*;
use crate::units::MAX_ADVANCE;

verus! {

/// A pair of subunit distances (horizontal, vertical).
#[derive(Clone, Copy, PartialEq, Eq, Structural, Debug)]
pub struct Vec2 {
    pub x: i64,
    pub y: i64,
}

/// A pixel position in the texture atlas.
#[derive(Clone, Copy, PartialEq, Eq, Structural, Debug)]
pub struct TexelPos {
    pub x: u16,
    pub y: u16,
}

/// Where a rasterized glyph sits in the shared texture atlas, and how to
/// place it relative to the text baseline when drawing.
#[derive(Clone, Copy, PartialEq, Eq, Structural, Debug)]
pub struct UvRect {
    /// Offset from the cursor to the glyph image, in subunits.
    pub offset: Vec2,

    /// Size of the glyph image, in subunits.
    pub size: Vec2,

    /// Top left corner of the glyph in the atlas, in texture pixels.
    pub min: TexelPos,

    /// Bottom right corner (exclusive), in texture pixels.
    pub max: TexelPos,
}

impl UvRect {
    /// A rasterized glyph covers a non-empty pixel rectangle.
    pub open spec fn wf(self) -> bool {
        &&& self.min.x < self.max.x
        &&& self.min.y < self.max.y
        &&& self.size.x >= 0
        &&& self.size.y >= 0
    }
}

/// Cached metrics of one character: an opaque handle into the font's outline
/// table (used for kerning lookups), the horizontal advance in subunits, and
/// the texture placement — `None` for glyphs with no visible ink, such as a
/// space.
#[derive(Clone, Copy, PartialEq, Eq, Structural, Debug)]
pub struct GlyphInfo {
    /// Handle into the font's outline table; only meaningful to the font
    /// instance that produced it.
    pub id: u16,

    /// Horizontal advance in subunits.
    pub advance_width: i64,

    /// Texture coordinates; `None` for invisible glyphs.
    pub uv_rect: Option<UvRect>,
}

impl GlyphInfo {
    /// The advance is non-negative and bounded, and any texture rectangle is
    /// itself well formed.
    pub open spec fn wf(self) -> bool {
        &&& 0 <= self.advance_width <= MAX_ADVANCE
        &&& match self.uv_rect {
            Some(r) => r.wf(),
            None => true,
        }
    }
}

} // verus!
