//! Reading-structure analysis of a rendered page: words, lines, paragraphs,
//! headers and tables recovered from positioned text spans and ruling strokes.
//!
//! All geometry is held in integer fixed point: one device unit is
//! `geom::UNIT` steps.
pub mod geom;
pub mod util;
pub mod span;
pub mod classify;
pub mod node;
pub mod table;
pub mod flow;
pub mod text;

use vstd::prelude::*;
use crate::flow::{Flow, emitted, runs_are, runs_clean};
use crate::node::{Node, node_indices, node_wf, page_layout};
use crate::geom::Rect;
use crate::node::line::strokes_ok;
use crate::span::{TextSpan, spans_wf};
use crate::text::glyphs_clean;

verus! {

/// The page's layout tree: well formed, every span in at most one leaf,
/// and, without trimming, every span in exactly one.
pub open spec fn layout_of(root: Node, spans: Seq<TextSpan>, page: Rect, without_header_and_footer: bool) -> bool {
    let n = spans.len();
    &&& page_layout(root, spans, page, without_header_and_footer)
    &&& node_wf(root)
    &&& forall|i: usize| #[trigger] node_indices(root).to_multiset().count(i) <= 1
    &&& forall|i: usize| i >= n ==> #[trigger] node_indices(root).to_multiset().count(i) == 0
    &&& !without_header_and_footer ==> forall|i: usize| i < n ==> #[trigger] node_indices(root).to_multiset().count(i) == 1
}

/// Analyses one page: builds the layout tree of the spans, with the ruling
/// strokes `[x1, y1, x2, y2]`, and emits its flow from the page's left edge.
pub fn analyze(spans: &Vec<TextSpan>, bbox: &Rect, strokes: &Vec<[i64; 4]>, without_header_and_footer: bool) -> (r: Flow)
    requires
        spans_wf(spans@),
        bbox.wf(),
        strokes_ok(strokes@),
    ensures
        r.lines@.len() == 0,
        exists|root: Node| layout_of(root, spans@, *bbox, without_header_and_footer) && #[trigger] runs_are(r.runs@, 0, emitted(spans@, root)),
        glyphs_clean(spans@) ==> runs_clean(r.runs@),
{
    let root = node::build(spans, bbox, strokes, without_header_and_footer);
    let mut flow = Flow::new();
    flow::build(&mut flow, spans, &root, bbox.min_x);
    proof {
        assert(layout_of(root, spans@, *bbox, without_header_and_footer));
        assert(runs_are(flow.runs@, 0, emitted(spans@, root)));
    }
    flow
}

} // verus!
