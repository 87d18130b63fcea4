//! Invisible-element elimination for an SVG-like document tree.
//!
//! The pass walks a document (an arena of nodes with parent links, typed
//! attributes and integer identifiers), removes nodes that can never
//! contribute to rendered output, cascades the removal to elements that
//! exist only to reference them, and rewrites paint-server references
//! into equivalent plain values. It is one deterministic sweep of eight
//! rules in a fixed order; the caller is told whether anything was
//! removed, so it can invoke its definition-pruning collaborator.

#![allow(unused_imports)]

use vstd::prelude::*;

pub mod laws;
pub mod links;
pub mod model;
pub mod paint;
pub mod rules;

use crate::model::{same_attrs, same_skeleton, wf, Document, Tag};
use crate::paint::{
    grad_doomed, grad_empty_cand, grad_none_rel, grad_single_cand, grad_single_rel,
    process_gradients,
};
use crate::rules::{
    cascade_rel, clip_invalid_child, clip_prune_rel, display_cand, display_rel, empty_cand,
    matrix_cand, matrix_rel, path_cand, path_rel, process_clip_paths, process_display_attribute,
    process_empty_filter, process_fe_color_matrix, process_paths, process_rect, process_use,
    rect_cand, rect_rel, use_cand, use_rel,
};

verus! {

/// The whole sweep, as a chain of the eight rules' relations in their
/// fixed order: display suppression, degenerate paths, clip-path
/// sanitizing (pruning then cascade), empty filters, identity color
/// matrices, dangling reference elements, paint-server collapse (the
/// `none` rewrite, the single-stop rewrite, then removal of the servers),
/// and zero-extent rectangles. `removed` reports whether any rule
/// removed a node.
pub open spec fn sweep_rel(d0: Document, dz: Document, removed: bool) -> bool {
    exists|
        s1: Document,
        s2: Document,
        m3: Document,
        s3: Document,
        s4: Document,
        s5: Document,
        s6: Document,
        g1: Document,
        g2: Document,
        s7: Document,
    |
        #![trigger display_rel(d0, s1), path_rel(s1, s2), clip_prune_rel(s2, m3),
            cascade_rel(m3, s3, Tag::ClipPath), cascade_rel(s3, s4, Tag::Filter),
            matrix_rel(s4, s5), use_rel(s5, s6), grad_none_rel(s6, g1),
            grad_single_rel(g1, g2), rect_rel(s7, dz)]
        {
            &&& display_rel(d0, s1)
            &&& path_rel(s1, s2)
            &&& clip_prune_rel(s2, m3)
            &&& cascade_rel(m3, s3, Tag::ClipPath)
            &&& cascade_rel(s3, s4, Tag::Filter)
            &&& matrix_rel(s4, s5)
            &&& use_rel(s5, s6)
            &&& grad_none_rel(s6, g1)
            &&& grad_single_rel(g1, g2)
            &&& same_skeleton(g2, s7)
            &&& same_attrs(g2, s7)
            &&& forall|j: int|
                #![trigger s7.nodes@[j].alive]
                0 <= j < s6.nodes@.len() ==> s7.nodes@[j].alive == (g2.nodes@[j].alive
                    && !grad_doomed(s6, g1, j))
            &&& rect_rel(s7, dz)
            &&& removed == ((exists|i: int| #[trigger] display_cand(d0, i)) || (exists|i: int|
                #[trigger] path_cand(s1, i)) || (exists|c: int|
                #[trigger] clip_invalid_child(s2, c)) || (exists|i: int|
                #[trigger] empty_cand(m3, Tag::ClipPath, i)) || (exists|i: int|
                #[trigger] empty_cand(s3, Tag::Filter, i)) || (exists|i: int|
                #[trigger] matrix_cand(s4, i)) || (exists|i: int| #[trigger] use_cand(s5, i)) || (
            exists|i: int| #[trigger] grad_empty_cand(s6, i)) || (exists|i: int|
                #[trigger] grad_single_cand(g1, i)) || (exists|i: int|
                #[trigger] rect_cand(s7, i)))
        }
}

/// Run the eight rules once, in their fixed order, over the document.
/// Returns whether anything was removed, so the caller can run its
/// prune-unused-definitions collaborator when needed.
pub fn remove_invisible_elements(doc: &mut Document) -> (removed: bool)
    requires
        wf(*old(doc)),
    ensures
        wf(*final(doc)),
        sweep_rel(*old(doc), *final(doc), removed),
{
    let ghost d0 = *doc;
    let f1 = process_display_attribute(doc);
    let ghost s1 = *doc;
    let f2 = process_paths(doc);
    let ghost s2 = *doc;
    let f3 = process_clip_paths(doc);
    let ghost s3 = *doc;
    let f4 = process_empty_filter(doc);
    let ghost s4 = *doc;
    let f5 = process_fe_color_matrix(doc);
    let ghost s5 = *doc;
    let f6 = process_use(doc);
    let ghost s6 = *doc;
    let f7 = process_gradients(doc);
    let ghost s7 = *doc;
    let f8 = process_rect(doc);
    let removed = f1 || f2 || f3 || f4 || f5 || f6 || f7 || f8;
    proof {
        let m3 = choose|mid: Document|
            {
                &&& #[trigger] clip_prune_rel(s2, mid)
                &&& cascade_rel(mid, s3, Tag::ClipPath)
                &&& f3 == ((exists|c: int| #[trigger] clip_invalid_child(s2, c)) || (exists|i: int|
                    #[trigger] empty_cand(mid, Tag::ClipPath, i)))
            };
        let (g1, g2) = choose|g1: Document, g2: Document|
            {
                &&& #[trigger] grad_none_rel(s6, g1)
                &&& #[trigger] grad_single_rel(g1, g2)
                &&& same_skeleton(g2, s7)
                &&& same_attrs(g2, s7)
                &&& forall|j: int|
                    #![trigger s7.nodes@[j].alive]
                    0 <= j < s6.nodes@.len() ==> s7.nodes@[j].alive == (g2.nodes@[j].alive
                        && !grad_doomed(s6, g1, j))
                &&& f7 == ((exists|i: int| #[trigger] grad_empty_cand(s6, i)) || (exists|i: int|
                    #[trigger] grad_single_cand(g1, i)))
            };
        assert(display_rel(d0, s1) && path_rel(s1, s2) && clip_prune_rel(s2, m3) && cascade_rel(
            m3,
            s3,
            Tag::ClipPath,
        ) && cascade_rel(s3, s4, Tag::Filter) && matrix_rel(s4, s5) && use_rel(s5, s6)
            && grad_none_rel(s6, g1) && grad_single_rel(g1, g2) && rect_rel(s7, *doc));
    }
    removed
}

} // verus!
