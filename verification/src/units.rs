use vstd::prelude::*;

verus! {

/// All horizontal and vertical distances in this crate are measured in
/// integer *subunits*: a fixed-point representation of layout space with
/// `SUBPIXELS_PER_PIXEL` subunits per physical pixel.  Rounding the text
/// cursor to the nearest pixel boundary — essential to avoid sub-pixel
/// jitter accumulating across a row — is then exact integer arithmetic:
/// rounding to the nearest multiple of `SUBPIXELS_PER_PIXEL`.
pub const SUBPIXELS_PER_PIXEL: i64 = 64;

/// Largest advance width (in subunits) a well-formed glyph may carry.
pub const MAX_ADVANCE: i64 = 0x100_0000;

/// Largest magnitude (in subunits) of a kerning adjustment between two glyphs.
pub const MAX_KERN: i64 = 0x100_0000;

/// Largest row height (in subunits) a font may be configured with.
pub const MAX_SCALE: i64 = 0x100_0000;

/// Upper bound on what one character can add to the cursor:
/// a kerning adjustment plus an advance width, plus pixel rounding.
pub const MAX_STEP: i64 = 0x200_0040;

/// Largest first-row indentation (in subunits) a layout call may ask for.
pub const MAX_INDENT: i64 = 0x1_0000_0000;

/// Largest number of characters a single layout call accepts; keeps every
/// cursor position representable in an `i64` without overflow.
pub const MAX_TEXT_CHARS: usize = 0x800_0000;

/// Nearest multiple of `SUBPIXELS_PER_PIXEL`, halves rounding up.
pub open spec fn round_to_pixel_spec(x: int) -> int {
    64 * ((x + 32) / 64)
}

/// The rounded value sits within half a pixel of its argument.
pub proof fn lemma_round_close(x: int)
    ensures
        x - 32 < round_to_pixel_spec(x) <= x + 32,
        round_to_pixel_spec(x) % 64 == 0,
{
    let q = (x + 32) / 64;
    vstd::arithmetic::div_mod::lemma_fundamental_div_mod(x + 32, 64);
    vstd::arithmetic::div_mod::lemma_mod_multiples_basic(q, 64);
}

/// Rounding does not move a value below a pixel boundary it already passed:
/// pixel rounding is monotone, and pixel boundaries are its fixed points.
pub proof fn lemma_round_keeps_floor(b: int, x: int)
    requires
        b % 64 == 0,
        b <= x,
    ensures
        b <= round_to_pixel_spec(x),
{
    vstd::arithmetic::div_mod::lemma_fundamental_div_mod_converse(b + 32, 64, b / 64, 32);
    vstd::arithmetic::div_mod::lemma_div_is_ordered(b + 32, x + 32, 64);
    vstd::arithmetic::div_mod::lemma_fundamental_div_mod(b, 64);
}

/// Extra vertical space inserted after each paragraph: two fifths of one row
/// height.  An empirical constant, preserved as the source of visual truth
/// rather than derived from font metrics.
pub open spec fn paragraph_gap_spec(h: int) -> int {
    (2 * h) / 5
}

pub fn paragraph_gap_su(h: i64) -> (g: i64)
    requires
        0 <= h <= MAX_SCALE,
    ensures
        g == paragraph_gap_spec(h as int),
        0 <= g <= h,
{
    let u: u64 = (h as u64) * 2;
    (u / 5) as i64
}

/// A pixel boundary passes through rounding unchanged, so rounding commutes
/// with shifting by any whole number of pixels.
pub proof fn lemma_round_shift(base: int, x: int)
    requires
        base % 64 == 0,
    ensures
        round_to_pixel_spec(base + x) == base + round_to_pixel_spec(x),
{
    vstd::arithmetic::div_mod::lemma_fundamental_div_mod(x + 32, 64);
    vstd::arithmetic::div_mod::lemma_fundamental_div_mod(base, 64);
    vstd::arithmetic::div_mod::lemma_fundamental_div_mod_converse(
        base + x + 32,
        64,
        base / 64 + (x + 32) / 64,
        (x + 32) % 64,
    );
}

/// Pixel rounding, executable form.  Total over negative distances too;
/// halves round toward positive infinity.
pub fn round_to_pixel_su(x: i64) -> (r: i64)
    requires
        -0x4000_0000_0000_0000 <= x <= 0x4000_0000_0000_0000,
    ensures
        r == round_to_pixel_spec(x as int),
        x - 32 < r <= x + 32,
        r % 64 == 0,
        x >= 0 ==> r >= 0,
{
    proof {
        lemma_round_close(x as int);
        if x >= 0 {
            lemma_round_keeps_floor(0, x as int);
        }
    }
    let q: i64 = (x + 32).checked_div_euclid(64).unwrap();
    q * 64
}

} // verus!
