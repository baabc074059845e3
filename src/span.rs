use vstd::prelude::*;
use crate::geom::{Rect, coord_ok};

verus! {

/// Largest magnitude of a span's em-to-device scale, in thousandths.
pub const SCALE_LIMIT: i64 = 0x10_0000;

/// Largest font size the analysis accepts.
pub const FONT_LIMIT: i64 = 0x2000_0000;

/// Most glyphs a span may hold.
pub const GLYPH_LIMIT: u64 = 0x1_0000_0000;

/// A font as the analysis sees it: an identity and a name.
/// Two spans share a font exactly when their ids are equal.
#[derive(Clone, Debug)]
pub struct FontRef {
    pub id: u64,
    pub name: String,
}

/// Horizontal placement of one glyph, in em space.
/// `offset` is the index of the glyph's first char in the span's text.
#[derive(Clone, Copy, Debug, PartialEq, Eq, Structural)]
pub struct TextChar {
    pub offset: usize,
    pub pos: i64,
    pub width: i64,
}

/// One run of glyphs sharing a font and a transform.
///
/// The em-to-device mapping along x is `device = (em + em_origin) * em_scale / UNIT`:
/// `em_origin` is the em-space x of the span's origin and `em_scale` the
/// horizontal scale in thousandths.
#[derive(Clone, Debug)]
pub struct TextSpan {
    pub rect: Rect,
    pub font_size: i64,
    pub font: Option<FontRef>,
    pub text: String,
    pub chars: Vec<TextChar>,
    pub em_origin: i64,
    pub em_scale: i64,
}

impl TextChar {
    pub open spec fn wf(self) -> bool {
        &&& coord_ok(self.pos as int)
        &&& coord_ok(self.width as int)
    }
}

impl TextSpan {
    /// Geometry in range, glyph offsets ascending and inside the text.
    pub open spec fn wf(self) -> bool {
        &&& self.rect.wf()
        &&& 0 <= self.font_size <= FONT_LIMIT
        &&& self.chars@.len() <= GLYPH_LIMIT
        &&& coord_ok(self.em_origin as int)
        &&& -SCALE_LIMIT <= self.em_scale <= SCALE_LIMIT
        &&& forall|i: int| 0 <= i < self.chars@.len() ==> (#[trigger] self.chars@[i]).wf()
        &&& forall|i: int| 0 <= i < self.chars@.len() ==> (#[trigger] self.chars@[i]).offset < self.text@.len()
        &&& forall|i: int, j: int| 0 <= i < j < self.chars@.len() ==> (#[trigger] self.chars@[i]).offset <= (#[trigger] self.chars@[j]).offset
    }
}

pub open spec fn spans_wf(s: Seq<TextSpan>) -> bool {
    forall|i: int| 0 <= i < s.len() ==> (#[trigger] s[i]).wf()
}

/// The spans that a list of indices picks, in the list's order.
pub open spec fn select(spans: Seq<TextSpan>, idx: Seq<usize>) -> Seq<TextSpan> {
    idx.map_values(|i: usize| spans[i as int])
}

pub open spec fn indices_in(idx: Seq<usize>, n: nat) -> bool {
    forall|k: int| 0 <= k < idx.len() ==> (#[trigger] idx[k]) < n
}

} // verus!
