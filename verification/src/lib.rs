//! Converts Unicode text into positioned glyph geometry: a glyph cache maps
//! characters to metrics and texture placement, and a line layout engine
//! computes pixel-rounded cursor positions with kerning and greedy word wrap,
//! producing multi-row layouts ("galleys").
//!
//! Geometry is measured in integer subunits (a fixed number per physical
//! pixel, see [`units`]), so every position the engine computes is exact.
//! Rasterization itself — turning a glyph outline into pixel coverage — is an
//! external collaborator: its outcomes enter the cache as plain metric
//! values, and a failed rasterization is resolved by substituting the
//! replacement glyph, never by an error.

pub mod units;
pub mod glyph;
pub mod font;
pub mod layout;
