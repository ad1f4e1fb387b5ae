use vstd::prelude::*;
use std::collections::HashMap;
use crate::glyph::{GlyphInfo, UvRect};
use crate::units::{round_to_pixel_spec, round_to_pixel_su, MAX_KERN, MAX_SCALE};

verus! {

broadcast use vstd::std_specs::hash::group_hash_axioms;

/// Every character the font cannot render is rendered as this one instead.
pub const REPLACEMENT_CHAR: char = '?';

/// Key of a kerning pair `(a, b)` in the kerning cache.
pub open spec fn kern_key(a: u16, b: u16) -> u64 {
    ((a as int) * 0x1_0000 + (b as int)) as u64
}

/// One font at one size: the per-instance configuration (row height,
/// replacement glyph) plus the cache of per-character metrics and pair
/// kerning adjustments.  Rasterization happens outside; its outcomes are
/// recorded here through [`Font::insert_glyph_info`], so `metrics_for`
/// never fails from a caller's perspective.
pub struct Font {
    /// Maximum character height, in subunits.
    scale_in_subunits: i64,
    /// Metrics of the pre-rasterized replacement glyph; substituting them is
    /// how a failed rasterization is resolved, silently and permanently.
    replacement_glyph_info: GlyphInfo,
    glyph_infos: HashMap<u32, GlyphInfo>,
    kerning: HashMap<u64, i64>,
}

impl Font {
    /// The character-to-metrics mapping, as a mathematical map.
    pub closed spec fn glyphs(self) -> Map<u32, GlyphInfo> {
        self.glyph_infos@
    }

    /// The cached kerning table, as a mathematical map.
    pub closed spec fn kerns(self) -> Map<u64, i64> {
        self.kerning@
    }

    /// Height of one row of text, in subunits.
    pub closed spec fn spec_row_height(self) -> int {
        self.scale_in_subunits as int
    }

    pub closed spec fn spec_replacement(self) -> GlyphInfo {
        self.replacement_glyph_info
    }

    pub open spec fn wf(self) -> bool {
        &&& 0 < self.spec_row_height() <= MAX_SCALE
        &&& self.spec_replacement().wf()
        &&& forall|k: u32| self.glyphs().contains_key(k) ==> (#[trigger] self.glyphs()[k]).wf()
        &&& forall|p: u64|
            self.kerns().contains_key(p) ==> -MAX_KERN <= #[trigger] self.kerns()[p] <= MAX_KERN
    }

    /// The metrics a character lays out with: its cached entry, or the
    /// replacement glyph's metrics when nothing is cached for it.
    pub open spec fn spec_glyph(self, c: char) -> GlyphInfo {
        if self.glyphs().contains_key(c as u32) {
            self.glyphs()[c as u32]
        } else {
            self.spec_replacement()
        }
    }

    /// The kerning adjustment between two glyph handles: the cached value,
    /// or zero when the pair was never recorded.
    pub open spec fn spec_kern(self, a: u16, b: u16) -> int {
        if self.kerns().contains_key(kern_key(a, b)) {
            self.kerns()[kern_key(a, b)] as int
        } else {
            0
        }
    }

    /// A fresh font: the replacement glyph's metrics are computed before
    /// construction (construction is refused when that rasterization fails),
    /// and they seed the cache under `REPLACEMENT_CHAR`.
    pub fn new(scale_in_subunits: i64, replacement_glyph_info: GlyphInfo) -> (font: Font)
        requires
            0 < scale_in_subunits <= MAX_SCALE,
            replacement_glyph_info.wf(),
        ensures
            font.wf(),
            font.spec_row_height() == scale_in_subunits,
            font.spec_replacement() == replacement_glyph_info,
            font.glyphs() == Map::<u32, GlyphInfo>::empty().insert(
                REPLACEMENT_CHAR as u32,
                replacement_glyph_info,
            ),
            font.kerns() == Map::<u64, i64>::empty(),
    {
        let mut glyph_infos: HashMap<u32, GlyphInfo> = HashMap::new();
        glyph_infos.insert(REPLACEMENT_CHAR as u32, replacement_glyph_info);
        let kerning: HashMap<u64, i64> = HashMap::new();
        Font { scale_in_subunits, replacement_glyph_info, glyph_infos, kerning }
    }

    pub fn row_height(&self) -> (h: i64)
        ensures
            h == self.spec_row_height(),
    {
        self.scale_in_subunits
    }

    /// Round a subunit distance to the nearest pixel boundary.
    pub fn round_to_pixel(&self, x: i64) -> (r: i64)
        requires
            -0x4000_0000_0000_0000 <= x <= 0x4000_0000_0000_0000,
        ensures
            r == round_to_pixel_spec(x as int),
    {
        round_to_pixel_su(x)
    }

    /// Fast path of `metrics_for`: the cached metrics, if any.
    pub fn cached_glyph_info(&self, c: char) -> (r: Option<GlyphInfo>)
        ensures
            self.glyphs().contains_key(c as u32) ==> r == Some(self.glyphs()[c as u32]),
            !self.glyphs().contains_key(c as u32) ==> r is None,
    {
        match self.glyph_infos.get(&(c as u32)) {
            Some(gi) => Some(*gi),
            None => None,
        }
    }

    /// Slow path of `metrics_for`: record a rasterization outcome for `c`.
    /// A failed rasterization (`None`) is resolved by caching the replacement
    /// glyph's metrics, never by an error, so `metrics_for` always succeeds.
    pub fn insert_glyph_info(&mut self, c: char, rasterized: Option<GlyphInfo>) -> (r: GlyphInfo)
        requires
            old(self).wf(),
            rasterized matches Some(g) ==> g.wf(),
        ensures
            final(self).wf(),
            r == glyph_decision(*old(self), rasterized),
            final(self).glyphs() == old(self).glyphs().insert(c as u32, r),
            final(self).spec_glyph(c) == r,
            final(self).kerns() == old(self).kerns(),
            final(self).spec_row_height() == old(self).spec_row_height(),
            final(self).spec_replacement() == old(self).spec_replacement(),
    {
        let r = match rasterized {
            Some(g) => g,
            None => self.replacement_glyph_info,
        };
        self.glyph_infos.insert(c as u32, r);
        proof {
            assert forall|k: u32| self.glyphs().contains_key(k) implies (
            #[trigger] self.glyphs()[k]).wf() by {
                if k != c as u32 {
                    assert(old(self).glyphs().contains_key(k));
                }
            }
            assert forall|p: u64| self.kerns().contains_key(p) implies -MAX_KERN
                <= #[trigger] self.kerns()[p] <= MAX_KERN by {
                assert(old(self).kerns().contains_key(p));
                assert(self.kerns()[p] == old(self).kerns()[p]);
            }
        }
        r
    }

    /// What a character lays out with: cached metrics, or the replacement
    /// glyph's when the character was never recorded.
    pub fn glyph_or_replacement(&self, c: char) -> (r: GlyphInfo)
        ensures
            r == self.spec_glyph(c),
    {
        match self.glyph_infos.get(&(c as u32)) {
            Some(gi) => *gi,
            None => self.replacement_glyph_info,
        }
    }

    /// Texture coordinates of a character, when it is cached and has visible
    /// ink.  Unlike layout, this read substitutes nothing.
    pub fn uv_rect(&self, c: char) -> (r: Option<UvRect>)
        ensures
            self.glyphs().contains_key(c as u32) ==> r == self.glyphs()[c as u32].uv_rect,
            !self.glyphs().contains_key(c as u32) ==> r is None,
    {
        match self.glyph_infos.get(&(c as u32)) {
            Some(gi) => gi.uv_rect,
            None => None,
        }
    }

    /// Horizontal advance of a character, in subunits.
    pub fn glyph_width(&self, c: char) -> (w: i64)
        ensures
            w == self.spec_glyph(c).advance_width,
    {
        self.glyph_or_replacement(c).advance_width
    }

    /// Fast path of the kerning cache.
    pub fn cached_pair_kerning(&self, a: u16, b: u16) -> (r: Option<i64>)
        ensures
            self.kerns().contains_key(kern_key(a, b)) ==> r == Some(self.kerns()[kern_key(a, b)]),
            !self.kerns().contains_key(kern_key(a, b)) ==> r is None,
    {
        let key: u64 = (a as u64) * 0x1_0000 + (b as u64);
        match self.kerning.get(&key) {
            Some(k) => Some(*k),
            None => None,
        }
    }

    /// Record the kerning adjustment between two glyph handles.
    pub fn insert_pair_kerning(&mut self, a: u16, b: u16, kern: i64)
        requires
            old(self).wf(),
            -MAX_KERN <= kern <= MAX_KERN,
        ensures
            final(self).wf(),
            final(self).kerns() == old(self).kerns().insert(kern_key(a, b), kern),
            final(self).spec_kern(a, b) == kern,
            final(self).glyphs() == old(self).glyphs(),
            final(self).spec_row_height() == old(self).spec_row_height(),
            final(self).spec_replacement() == old(self).spec_replacement(),
    {
        let key: u64 = (a as u64) * 0x1_0000 + (b as u64);
        self.kerning.insert(key, kern);
        proof {
            assert forall|p: u64| self.kerns().contains_key(p) implies -MAX_KERN
                <= #[trigger] self.kerns()[p] <= MAX_KERN by {
                if p != key {
                    assert(old(self).kerns().contains_key(p));
                }
            }
            assert forall|k: u32| self.glyphs().contains_key(k) implies (
            #[trigger] self.glyphs()[k]).wf() by {
                assert(old(self).glyphs().contains_key(k));
                assert(self.glyphs()[k] == old(self).glyphs()[k]);
            }
        }
    }

    /// The kerning adjustment a pair of glyphs lays out with: the cached
    /// value, or zero when the pair was never recorded.
    pub fn pair_kerning(&self, a: u16, b: u16) -> (k: i64)
        ensures
            k == self.spec_kern(a, b),
    {
        let key: u64 = (a as u64) * 0x1_0000 + (b as u64);
        match self.kerning.get(&key) {
            Some(k) => *k,
            None => 0,
        }
    }
}

/// What a cache miss resolves to: the rasterized metrics, or the replacement
/// glyph's metrics when the font has no glyph for the character.
pub open spec fn glyph_decision(font: Font, rasterized: Option<GlyphInfo>) -> GlyphInfo {
    match rasterized {
        Some(g) => g,
        None => font.spec_replacement(),
    }
}

/// Law: `metrics_for` is idempotent.  Once a miss for `c` has been resolved —
/// rasterized or substituted — the fast path hits, it returns exactly the
/// metrics that were recorded, and recording the same outcome again leaves
/// the cache unchanged, so nothing is ever re-rasterized.
pub proof fn lemma_metrics_for_idempotent(font: Font, cached: Font, c: char, r: GlyphInfo)
    requires
        cached.glyphs() == font.glyphs().insert(c as u32, r),
    ensures
        cached.glyphs().contains_key(c as u32),
        cached.spec_glyph(c) == r,
        cached.glyphs().insert(c as u32, cached.spec_glyph(c)) == cached.glyphs(),
{
    assert(cached.glyphs().insert(c as u32, r) =~= cached.glyphs());
}

} // verus!
