//! The rule set: each rule scans the document for one invisibility or
//! equivalence pattern, mutates the tree, and reports whether it removed
//! anything. Every rule collects its candidates first and mutates after,
//! so each candidate predicate is evaluated on the state the rule started
//! from.

use vstd::prelude::*;
use crate::model::{
    attr_links_to, attr_of, in_subtree, in_subtree_p, links_to, node_used, parent_seq, parents_ok,
    remove_all, same_attrs, same_skeleton, subtree_used, unique_keys, wf, doomed_by, get_attr,
    is_used, node_links_to, subtree_contains_used, Attr, AttrKey, AttrValue, Color, Document,
    Keyword, Length, Node, Tag, Unit,
};

verus! {

// ---------------------------------------------------------------------------
// Children and identifier lookup
// ---------------------------------------------------------------------------

/// Is `j` a live child of node `i`?
pub open spec fn is_live_child(doc: Document, i: usize, j: int) -> bool {
    0 <= j < doc.nodes@.len() && doc.nodes@[j].alive && doc.nodes@[j].parent == Option::Some(i)
}

/// Number of live children of node `i`, counting indices at or after `from`.
pub open spec fn live_child_count(doc: Document, i: usize, from: int) -> int
    decreases doc.nodes@.len() - from,
{
    if from < 0 || from >= doc.nodes@.len() {
        0
    } else {
        (if is_live_child(doc, i, from) {
            1int
        } else {
            0int
        }) + live_child_count(doc, i, from + 1)
    }
}

/// Index of the first live child of `i` at or after `from`, else -1.
pub open spec fn first_live_child(doc: Document, i: usize, from: int) -> int
    decreases doc.nodes@.len() - from,
{
    if from < 0 || from >= doc.nodes@.len() {
        -1
    } else if is_live_child(doc, i, from) {
        from
    } else {
        first_live_child(doc, i, from + 1)
    }
}

/// Count the live children of `i`; also report the first one, meaningful
/// when the count is positive.
#[verifier::loop_isolation(false)]
pub fn live_children(doc: &Document, i: usize) -> (r: (usize, usize))
    requires
        i < doc.nodes@.len(),
    ensures
        r.0 as int == live_child_count(*doc, i, 0),
        live_child_count(*doc, i, 0) > 0 ==> r.1 as int == first_live_child(*doc, i, 0) && (
        r.1 as int) < doc.nodes@.len(),
{
    let n = doc.nodes.len();
    let mut cnt: usize = 0;
    let mut first: usize = 0;
    let mut j: usize = 0;
    while j < n
        invariant
            j <= n,
            cnt as int <= j,
            cnt as int + live_child_count(*doc, i, j as int) == live_child_count(*doc, i, 0),
            cnt > 0 ==> first as int == first_live_child(*doc, i, 0) && first < n,
            cnt == 0 ==> first_live_child(*doc, i, 0) == first_live_child(*doc, i, j as int),
        decreases n - j,
    {
        let child = doc.nodes[j].alive && match doc.nodes[j].parent {
            Option::Some(p) => p == i,
            Option::None => false,
        };
        if child {
            if cnt == 0 {
                first = j;
            }
            cnt = cnt + 1;
        }
        j = j + 1;
    }
    (cnt, first)
}

/// Index of the first live node carrying identifier `id` at or after `from`,
/// else -1.
pub open spec fn find_live_id(doc: Document, id: u64, from: int) -> int
    decreases doc.nodes@.len() - from,
{
    if from < 0 || from >= doc.nodes@.len() {
        -1
    } else if doc.nodes@[from].alive && doc.nodes@[from].id == Option::Some(id) {
        from
    } else {
        find_live_id(doc, id, from + 1)
    }
}

/// Resolve an identifier to the live node carrying it.
#[verifier::loop_isolation(false)]
pub fn lookup_live_id(doc: &Document, id: u64) -> (r: Option<usize>)
    ensures
        match r {
            Option::Some(k) => (k as int) < doc.nodes@.len() && find_live_id(*doc, id, 0)
                == k as int,
            Option::None => find_live_id(*doc, id, 0) == -1,
        },
{
    let n = doc.nodes.len();
    let mut j: usize = 0;
    while j < n
        invariant
            j <= n,
            find_live_id(*doc, id, j as int) == find_live_id(*doc, id, 0),
        decreases n - j,
    {
        let hit = doc.nodes[j].alive && match doc.nodes[j].id {
            Option::Some(x) => x == id,
            Option::None => false,
        };
        if hit {
            return Option::Some(j);
        }
        j = j + 1;
    }
    Option::None
}

// ---------------------------------------------------------------------------
// Degenerate path rule
// ---------------------------------------------------------------------------

/// A path is invisible when its geometry attribute is absent, empty, or of
/// the wrong type: unparsable data reads as invisible, never as an error.
pub open spec fn path_invisible(attrs: Seq<Attr>) -> bool {
    match attr_of(attrs, AttrKey::D) {
        Option::Some(AttrValue::Path(segs)) => segs@.len() == 0,
        Option::Some(_) => true,
        Option::None => true,
    }
}

/// A path-kind node the degenerate-path rule removes.
pub open spec fn path_cand(doc: Document, i: int) -> bool {
    0 <= i < doc.nodes@.len() && doc.nodes@[i].alive && doc.nodes@[i].tag == Tag::Path
        && path_invisible(doc.nodes@[i].attrs@)
}

/// Node `j` lies under some candidate of the degenerate-path rule.
pub open spec fn path_doomed(doc: Document, j: int) -> bool {
    exists|i: int| path_cand(doc, i) && #[trigger] in_subtree(doc, i, j)
}

/// What the degenerate-path rule does: exactly the candidates' subtrees die.
pub open spec fn path_rel(d0: Document, d1: Document) -> bool {
    &&& same_skeleton(d0, d1)
    &&& same_attrs(d0, d1)
    &&& forall|j: int|
        #![trigger d1.nodes@[j].alive]
        0 <= j < d0.nodes@.len() ==> d1.nodes@[j].alive == (d0.nodes@[j].alive && !path_doomed(
            d0,
            j,
        ))
}

/// Remove paths whose geometry is absent, empty or malformed.
#[verifier::loop_isolation(false)]
pub fn process_paths(doc: &mut Document) -> (removed: bool)
    requires
        wf(*old(doc)),
    ensures
        wf(*final(doc)),
        path_rel(*old(doc), *final(doc)),
        removed == exists|i: int| #[trigger] path_cand(*old(doc), i),
{
    let ghost d0 = *doc;
    let n = doc.nodes.len();
    let mut cands: Vec<usize> = Vec::new();
    let mut i: usize = 0;
    while i < n
        invariant
            *doc == d0,
            n == d0.nodes@.len(),
            i <= n,
            forall|m: int|
                0 <= m < cands@.len() ==> (#[trigger] cands@[m]) < n && path_cand(
                    d0,
                    cands@[m] as int,
                ),
            forall|k: int|
                #![trigger path_cand(d0, k)]
                0 <= k < i && path_cand(d0, k) ==> exists|m: int|
                    0 <= m < cands@.len() && (#[trigger] cands@[m]) == k as usize,
        decreases n - i,
    {
        let invisible = match get_attr(&doc.nodes[i], AttrKey::D) {
            Option::Some(AttrValue::Path(segs)) => segs.len() == 0,
            Option::Some(_) => true,
            Option::None => true,
        };
        proof {
            assert(invisible == path_invisible(d0.nodes@[i as int].attrs@));
        }
        if doc.nodes[i].alive && doc.nodes[i].tag == Tag::Path && invisible {
            let ghost cpre = cands@;
            cands.push(i);
            proof {
                assert(forall|m: int| 0 <= m < cpre.len() ==> (#[trigger] cands@[m]) == cpre[m]);
                assert(cands@[cpre.len() as int] == i as usize);
                assert forall|k: int|
                    #![trigger path_cand(d0, k)]
                    0 <= k < i + 1 && path_cand(d0, k) implies exists|m: int|
                    0 <= m < cands@.len() && (#[trigger] cands@[m]) == k as usize by {
                    if k == i as int {
                        assert(cands@[cpre.len() as int] == k as usize);
                    } else {
                        let m = choose|m: int|
                            0 <= m < cpre.len() && (#[trigger] cpre[m]) == k as usize;
                        assert(cands@[m] == k as usize);
                    }
                }
            }
        }
        i = i + 1;
    }
    let removed = cands.len() > 0;
    remove_all(doc, &cands);
    proof {
        if removed {
            assert(path_cand(d0, cands@[0] as int));
        }
        assert forall|j: int|
            #![trigger doc.nodes@[j].alive]
            0 <= j < d0.nodes@.len() implies doc.nodes@[j].alive == (d0.nodes@[j].alive
            && !path_doomed(d0, j)) by {
            let ps = parent_seq(d0);
            if doomed_by(ps, cands@, j) {
                let m = choose|m: int|
                    0 <= m < cands@.len() && in_subtree_p(ps, (#[trigger] cands@[m]) as int, j);
                assert(in_subtree(d0, cands@[m] as int, j));
                assert(path_doomed(d0, j));
            }
            if path_doomed(d0, j) {
                let c = choose|c: int| path_cand(d0, c) && #[trigger] in_subtree(d0, c, j);
                let m = choose|m: int|
                    0 <= m < cands@.len() && (#[trigger] cands@[m]) == c as usize;
                assert(in_subtree_p(ps, cands@[m] as int, j));
                assert(doomed_by(ps, cands@, j));
            }
        }
    }
    removed
}

// ---------------------------------------------------------------------------
// Dangling reference-element rule
// ---------------------------------------------------------------------------

/// A reference element lacking its target attribute serves no purpose.
pub open spec fn use_cand(doc: Document, i: int) -> bool {
    0 <= i < doc.nodes@.len() && doc.nodes@[i].alive && doc.nodes@[i].tag == Tag::Use && attr_of(
        doc.nodes@[i].attrs@,
        AttrKey::XlinkHref,
    ) is None
}

/// Node `j` lies under some candidate of the dangling-reference rule.
pub open spec fn use_doomed(doc: Document, j: int) -> bool {
    exists|i: int| use_cand(doc, i) && #[trigger] in_subtree(doc, i, j)
}

/// What the dangling-reference rule does.
pub open spec fn use_rel(d0: Document, d1: Document) -> bool {
    &&& same_skeleton(d0, d1)
    &&& same_attrs(d0, d1)
    &&& forall|j: int|
        #![trigger d1.nodes@[j].alive]
        0 <= j < d0.nodes@.len() ==> d1.nodes@[j].alive == (d0.nodes@[j].alive && !use_doomed(
            d0,
            j,
        ))
}

/// Remove reference elements that have no target attribute at all.
#[verifier::loop_isolation(false)]
pub fn process_use(doc: &mut Document) -> (removed: bool)
    requires
        wf(*old(doc)),
    ensures
        wf(*final(doc)),
        use_rel(*old(doc), *final(doc)),
        removed == exists|i: int| #[trigger] use_cand(*old(doc), i),
{
    let ghost d0 = *doc;
    let n = doc.nodes.len();
    let mut cands: Vec<usize> = Vec::new();
    let mut i: usize = 0;
    while i < n
        invariant
            *doc == d0,
            n == d0.nodes@.len(),
            i <= n,
            forall|m: int|
                0 <= m < cands@.len() ==> (#[trigger] cands@[m]) < n && use_cand(
                    d0,
                    cands@[m] as int,
                ),
            forall|k: int|
                #![trigger use_cand(d0, k)]
                0 <= k < i && use_cand(d0, k) ==> exists|m: int|
                    0 <= m < cands@.len() && (#[trigger] cands@[m]) == k as usize,
        decreases n - i,
    {
        let missing = match get_attr(&doc.nodes[i], AttrKey::XlinkHref) {
            Option::Some(_) => false,
            Option::None => true,
        };
        proof {
            assert(missing == (attr_of(d0.nodes@[i as int].attrs@, AttrKey::XlinkHref) is None));
        }
        if doc.nodes[i].alive && doc.nodes[i].tag == Tag::Use && missing {
            let ghost cpre = cands@;
            cands.push(i);
            proof {
                assert(forall|m: int| 0 <= m < cpre.len() ==> (#[trigger] cands@[m]) == cpre[m]);
                assert(cands@[cpre.len() as int] == i as usize);
                assert forall|k: int|
                    #![trigger use_cand(d0, k)]
                    0 <= k < i + 1 && use_cand(d0, k) implies exists|m: int|
                    0 <= m < cands@.len() && (#[trigger] cands@[m]) == k as usize by {
                    if k == i as int {
                        assert(cands@[cpre.len() as int] == k as usize);
                    } else {
                        let m = choose|m: int|
                            0 <= m < cpre.len() && (#[trigger] cpre[m]) == k as usize;
                        assert(cands@[m] == k as usize);
                    }
                }
            }
        }
        i = i + 1;
    }
    let removed = cands.len() > 0;
    remove_all(doc, &cands);
    proof {
        if removed {
            assert(use_cand(d0, cands@[0] as int));
        }
        assert forall|j: int|
            #![trigger doc.nodes@[j].alive]
            0 <= j < d0.nodes@.len() implies doc.nodes@[j].alive == (d0.nodes@[j].alive
            && !use_doomed(d0, j)) by {
            let ps = parent_seq(d0);
            if doomed_by(ps, cands@, j) {
                let m = choose|m: int|
                    0 <= m < cands@.len() && in_subtree_p(ps, (#[trigger] cands@[m]) as int, j);
                assert(in_subtree(d0, cands@[m] as int, j));
                assert(use_doomed(d0, j));
            }
            if use_doomed(d0, j) {
                let c = choose|c: int| use_cand(d0, c) && #[trigger] in_subtree(d0, c, j);
                let m = choose|m: int|
                    0 <= m < cands@.len() && (#[trigger] cands@[m]) == c as usize;
                assert(in_subtree_p(ps, cands@[m] as int, j));
                assert(doomed_by(ps, cands@, j));
            }
        }
    }
    removed
}

// ---------------------------------------------------------------------------
// Zero-extent rectangle rule
// ---------------------------------------------------------------------------

/// Does this attribute value hold a length that is exactly zero?
pub open spec fn zero_size_val(v: Option<AttrValue>) -> bool {
    match v {
        Option::Some(AttrValue::Length(l)) => l.num == 0,
        _ => false,
    }
}

/// A rectangle with width or height exactly zero; no fuzzy tolerance.
/// An absent or ill-typed extent never counts as zero.
pub open spec fn rect_cand(doc: Document, i: int) -> bool {
    0 <= i < doc.nodes@.len() && doc.nodes@[i].alive && doc.nodes@[i].tag == Tag::Rect && (
    zero_size_val(attr_of(doc.nodes@[i].attrs@, AttrKey::Width)) || zero_size_val(
        attr_of(doc.nodes@[i].attrs@, AttrKey::Height),
    ))
}

/// Node `j` lies under some candidate of the zero-extent rule.
pub open spec fn rect_doomed(doc: Document, j: int) -> bool {
    exists|i: int| rect_cand(doc, i) && #[trigger] in_subtree(doc, i, j)
}

/// What the zero-extent rule does.
pub open spec fn rect_rel(d0: Document, d1: Document) -> bool {
    &&& same_skeleton(d0, d1)
    &&& same_attrs(d0, d1)
    &&& forall|j: int|
        #![trigger d1.nodes@[j].alive]
        0 <= j < d0.nodes@.len() ==> d1.nodes@[j].alive == (d0.nodes@[j].alive && !rect_doomed(
            d0,
            j,
        ))
}

/// Remove rectangles whose resolved width or height is exactly zero.
#[verifier::loop_isolation(false)]
pub fn process_rect(doc: &mut Document) -> (removed: bool)
    requires
        wf(*old(doc)),
    ensures
        wf(*final(doc)),
        rect_rel(*old(doc), *final(doc)),
        removed == exists|i: int| #[trigger] rect_cand(*old(doc), i),
{
    let ghost d0 = *doc;
    let n = doc.nodes.len();
    let mut cands: Vec<usize> = Vec::new();
    let mut i: usize = 0;
    while i < n
        invariant
            *doc == d0,
            n == d0.nodes@.len(),
            i <= n,
            forall|m: int|
                0 <= m < cands@.len() ==> (#[trigger] cands@[m]) < n && rect_cand(
                    d0,
                    cands@[m] as int,
                ),
            forall|k: int|
                #![trigger rect_cand(d0, k)]
                0 <= k < i && rect_cand(d0, k) ==> exists|m: int|
                    0 <= m < cands@.len() && (#[trigger] cands@[m]) == k as usize,
        decreases n - i,
    {
        let w0 = match get_attr(&doc.nodes[i], AttrKey::Width) {
            Option::Some(AttrValue::Length(l)) => l.num == 0,
            _ => false,
        };
        let h0 = match get_attr(&doc.nodes[i], AttrKey::Height) {
            Option::Some(AttrValue::Length(l)) => l.num == 0,
            _ => false,
        };
        proof {
            assert(w0 == zero_size_val(attr_of(d0.nodes@[i as int].attrs@, AttrKey::Width)));
            assert(h0 == zero_size_val(attr_of(d0.nodes@[i as int].attrs@, AttrKey::Height)));
        }
        if doc.nodes[i].alive && doc.nodes[i].tag == Tag::Rect && (w0 || h0) {
            let ghost cpre = cands@;
            cands.push(i);
            proof {
                assert(forall|m: int| 0 <= m < cpre.len() ==> (#[trigger] cands@[m]) == cpre[m]);
                assert(cands@[cpre.len() as int] == i as usize);
                assert forall|k: int|
                    #![trigger rect_cand(d0, k)]
                    0 <= k < i + 1 && rect_cand(d0, k) implies exists|m: int|
                    0 <= m < cands@.len() && (#[trigger] cands@[m]) == k as usize by {
                    if k == i as int {
                        assert(cands@[cpre.len() as int] == k as usize);
                    } else {
                        let m = choose|m: int|
                            0 <= m < cpre.len() && (#[trigger] cpre[m]) == k as usize;
                        assert(cands@[m] == k as usize);
                    }
                }
            }
        }
        i = i + 1;
    }
    let removed = cands.len() > 0;
    remove_all(doc, &cands);
    proof {
        if removed {
            assert(rect_cand(d0, cands@[0] as int));
        }
        assert forall|j: int|
            #![trigger doc.nodes@[j].alive]
            0 <= j < d0.nodes@.len() implies doc.nodes@[j].alive == (d0.nodes@[j].alive
            && !rect_doomed(d0, j)) by {
            let ps = parent_seq(d0);
            if doomed_by(ps, cands@, j) {
                let m = choose|m: int|
                    0 <= m < cands@.len() && in_subtree_p(ps, (#[trigger] cands@[m]) as int, j);
                assert(in_subtree(d0, cands@[m] as int, j));
                assert(rect_doomed(d0, j));
            }
            if rect_doomed(d0, j) {
                let c = choose|c: int| rect_cand(d0, c) && #[trigger] in_subtree(d0, c, j);
                let m = choose|m: int|
                    0 <= m < cands@.len() && (#[trigger] cands@[m]) == c as usize;
                assert(in_subtree_p(ps, cands@[m] as int, j));
                assert(doomed_by(ps, cands@, j));
            }
        }
    }
    removed
}

// ---------------------------------------------------------------------------
// Display-suppressed subtree rule
// ---------------------------------------------------------------------------

/// A node whose display keyword is `none` and whose subtree holds no node
/// that is referenced anywhere: the whole subtree can go. If any node of the
/// subtree is referenced, the subtree is retained unchanged.
pub open spec fn display_cand(doc: Document, i: int) -> bool {
    0 <= i < doc.nodes@.len() && doc.nodes@[i].alive && attr_of(
        doc.nodes@[i].attrs@,
        AttrKey::Display,
    ) == Option::Some(AttrValue::Keyword(Keyword::NoneKw)) && !subtree_used(doc, i)
}

/// Node `j` lies under some candidate of the display rule.
pub open spec fn display_doomed(doc: Document, j: int) -> bool {
    exists|i: int| display_cand(doc, i) && #[trigger] in_subtree(doc, i, j)
}

/// What the display rule does.
pub open spec fn display_rel(d0: Document, d1: Document) -> bool {
    &&& same_skeleton(d0, d1)
    &&& same_attrs(d0, d1)
    &&& forall|j: int|
        #![trigger d1.nodes@[j].alive]
        0 <= j < d0.nodes@.len() ==> d1.nodes@[j].alive == (d0.nodes@[j].alive && !display_doomed(
            d0,
            j,
        ))
}

/// Remove display-suppressed subtrees that nothing references.
#[verifier::loop_isolation(false)]
pub fn process_display_attribute(doc: &mut Document) -> (removed: bool)
    requires
        wf(*old(doc)),
    ensures
        wf(*final(doc)),
        display_rel(*old(doc), *final(doc)),
        removed == exists|i: int| #[trigger] display_cand(*old(doc), i),
{
    let ghost d0 = *doc;
    let n = doc.nodes.len();
    let mut cands: Vec<usize> = Vec::new();
    let mut i: usize = 0;
    while i < n
        invariant
            *doc == d0,
            n == d0.nodes@.len(),
            i <= n,
            forall|m: int|
                0 <= m < cands@.len() ==> (#[trigger] cands@[m]) < n && display_cand(
                    d0,
                    cands@[m] as int,
                ),
            forall|k: int|
                #![trigger display_cand(d0, k)]
                0 <= k < i && display_cand(d0, k) ==> exists|m: int|
                    0 <= m < cands@.len() && (#[trigger] cands@[m]) == k as usize,
        decreases n - i,
    {
        let suppressed = match get_attr(&doc.nodes[i], AttrKey::Display) {
            Option::Some(AttrValue::Keyword(Keyword::NoneKw)) => true,
            _ => false,
        };
        proof {
            assert(suppressed == (attr_of(d0.nodes@[i as int].attrs@, AttrKey::Display)
                == Option::Some(AttrValue::Keyword(Keyword::NoneKw))));
        }
        if doc.nodes[i].alive && suppressed && !subtree_contains_used(doc, i) {
            let ghost cpre = cands@;
            cands.push(i);
            proof {
                assert(forall|m: int| 0 <= m < cpre.len() ==> (#[trigger] cands@[m]) == cpre[m]);
                assert(cands@[cpre.len() as int] == i as usize);
                assert forall|k: int|
                    #![trigger display_cand(d0, k)]
                    0 <= k < i + 1 && display_cand(d0, k) implies exists|m: int|
                    0 <= m < cands@.len() && (#[trigger] cands@[m]) == k as usize by {
                    if k == i as int {
                        assert(cands@[cpre.len() as int] == k as usize);
                    } else {
                        let m = choose|m: int|
                            0 <= m < cpre.len() && (#[trigger] cpre[m]) == k as usize;
                        assert(cands@[m] == k as usize);
                    }
                }
            }
        }
        i = i + 1;
    }
    let removed = cands.len() > 0;
    remove_all(doc, &cands);
    proof {
        if removed {
            assert(display_cand(d0, cands@[0] as int));
        }
        assert forall|j: int|
            #![trigger doc.nodes@[j].alive]
            0 <= j < d0.nodes@.len() implies doc.nodes@[j].alive == (d0.nodes@[j].alive
            && !display_doomed(d0, j)) by {
            let ps = parent_seq(d0);
            if doomed_by(ps, cands@, j) {
                let m = choose|m: int|
                    0 <= m < cands@.len() && in_subtree_p(ps, (#[trigger] cands@[m]) as int, j);
                assert(in_subtree(d0, cands@[m] as int, j));
                assert(display_doomed(d0, j));
            }
            if display_doomed(d0, j) {
                let c = choose|c: int| display_cand(d0, c) && #[trigger] in_subtree(d0, c, j);
                let m = choose|m: int|
                    0 <= m < cands@.len() && (#[trigger] cands@[m]) == c as usize;
                assert(in_subtree_p(ps, cands@[m] as int, j));
                assert(doomed_by(ps, cands@, j));
            }
        }
    }
    removed
}

// ---------------------------------------------------------------------------
// Identity color-matrix rule
// ---------------------------------------------------------------------------

/// The bytes of the keyword `matrix`.
pub open spec fn matrix_word() -> Seq<u8> {
    seq![109u8, 97u8, 116u8, 114u8, 105u8, 120u8]
}

/// The exact text of the 4x5 identity matrix; the rule matches this text
/// literally, never a numeric parse, so any other spelling is left alone.
pub open spec fn identity_matrix_text() -> Seq<u8> {
    seq![
        49u8, 32u8, 48u8, 32u8, 48u8, 32u8, 48u8, 32u8, 48u8, 32u8, 32u8, 48u8, 32u8, 49u8, 32u8,
        48u8, 32u8, 48u8, 32u8, 48u8, 32u8, 32u8, 48u8, 32u8, 48u8, 32u8, 49u8, 32u8, 48u8, 32u8,
        48u8, 32u8, 32u8, 48u8, 32u8, 48u8, 32u8, 48u8, 32u8, 49u8, 32u8, 48u8,
    ]
}

/// Compare two byte strings.
#[verifier::loop_isolation(false)]
pub fn bytes_match(a: &Vec<u8>, b: &Vec<u8>) -> (r: bool)
    ensures
        r == (a@ == b@),
{
    if a.len() != b.len() {
        proof {
            assert(a@.len() != b@.len());
        }
        return false;
    }
    let mut i: usize = 0;
    while i < a.len()
        invariant
            i <= a@.len(),
            a@.len() == b@.len(),
            forall|k: int| 0 <= k < i ==> a@[k] == b@[k],
        decreases a@.len() - i,
    {
        if a[i] != b[i] {
            proof {
                assert(a@[i as int] != b@[i as int]);
            }
            return false;
        }
        i = i + 1;
    }
    proof {
        assert(a@ =~= b@);
    }
    true
}

/// The keyword `matrix` as a byte vector.
pub fn matrix_word_vec() -> (v: Vec<u8>)
    ensures
        v@ == matrix_word(),
{
    let mut v: Vec<u8> = Vec::new();
    v.push(109);
    v.push(97);
    v.push(116);
    v.push(114);
    v.push(105);
    v.push(120);
    proof {
        assert(v@ =~= matrix_word());
    }
    v
}

/// The identity-matrix text as a byte vector.
pub fn identity_matrix_vec() -> (v: Vec<u8>)
    ensures
        v@ == identity_matrix_text(),
{
    let mut v: Vec<u8> = Vec::new();
    v.push(49);
    v.push(32);
    v.push(48);
    v.push(32);
    v.push(48);
    v.push(32);
    v.push(48);
    v.push(32);
    v.push(48);
    v.push(32);
    v.push(32);
    v.push(48);
    v.push(32);
    v.push(49);
    v.push(32);
    v.push(48);
    v.push(32);
    v.push(48);
    v.push(32);
    v.push(48);
    v.push(32);
    v.push(32);
    v.push(48);
    v.push(32);
    v.push(48);
    v.push(32);
    v.push(49);
    v.push(32);
    v.push(48);
    v.push(32);
    v.push(48);
    v.push(32);
    v.push(32);
    v.push(48);
    v.push(32);
    v.push(48);
    v.push(32);
    v.push(48);
    v.push(32);
    v.push(49);
    v.push(32);
    v.push(48);
    proof {
        assert(v@ =~= identity_matrix_text());
    }
    v
}

/// The sole child of a filter is a color-matrix effect of kind `matrix`
/// whose values text is, letter for letter, the identity matrix.
pub open spec fn matrix_child_ok(doc: Document, c: int) -> bool {
    &&& 0 <= c < doc.nodes@.len()
    &&& doc.nodes@[c].tag == Tag::FeColorMatrix
    &&& match attr_of(doc.nodes@[c].attrs@, AttrKey::Type) {
        Option::Some(AttrValue::Text(t)) => t@ == matrix_word(),
        _ => false,
    }
    &&& match attr_of(doc.nodes@[c].attrs@, AttrKey::Values) {
        Option::Some(AttrValue::Text(t)) => t@ == identity_matrix_text(),
        _ => false,
    }
}

/// A filter whose sole child is an identity color matrix: a no-op.
pub open spec fn matrix_cand(doc: Document, i: int) -> bool {
    &&& 0 <= i < doc.nodes@.len()
    &&& doc.nodes@[i].alive
    &&& doc.nodes@[i].tag == Tag::Filter
    &&& live_child_count(doc, i as usize, 0) == 1
    &&& matrix_child_ok(doc, first_live_child(doc, i as usize, 0))
}

/// Node `j` lies under some candidate of the identity-matrix rule.
pub open spec fn matrix_doomed(doc: Document, j: int) -> bool {
    exists|i: int| matrix_cand(doc, i) && #[trigger] in_subtree(doc, i, j)
}

/// What the identity-matrix rule does: only the filter definition dies;
/// referrers are left holding a dangling filter reference on purpose, since
/// an absent filter reference renders normally.
pub open spec fn matrix_rel(d0: Document, d1: Document) -> bool {
    &&& same_skeleton(d0, d1)
    &&& same_attrs(d0, d1)
    &&& forall|j: int|
        #![trigger d1.nodes@[j].alive]
        0 <= j < d0.nodes@.len() ==> d1.nodes@[j].alive == (d0.nodes@[j].alive && !matrix_doomed(
            d0,
            j,
        ))
}

/// Remove filters whose sole effect stage is a literal identity color
/// matrix. No cascade: a dangling filter reference means no filter applied.
#[verifier::loop_isolation(false)]
pub fn process_fe_color_matrix(doc: &mut Document) -> (removed: bool)
    requires
        wf(*old(doc)),
    ensures
        wf(*final(doc)),
        matrix_rel(*old(doc), *final(doc)),
        removed == exists|i: int| #[trigger] matrix_cand(*old(doc), i),
{
    let ghost d0 = *doc;
    let word = matrix_word_vec();
    let ident = identity_matrix_vec();
    let n = doc.nodes.len();
    let mut cands: Vec<usize> = Vec::new();
    let mut i: usize = 0;
    while i < n
        invariant
            *doc == d0,
            n == d0.nodes@.len(),
            i <= n,
            word@ == matrix_word(),
            ident@ == identity_matrix_text(),
            forall|m: int|
                0 <= m < cands@.len() ==> (#[trigger] cands@[m]) < n && matrix_cand(
                    d0,
                    cands@[m] as int,
                ),
            forall|k: int|
                #![trigger matrix_cand(d0, k)]
                0 <= k < i && matrix_cand(d0, k) ==> exists|m: int|
                    0 <= m < cands@.len() && (#[trigger] cands@[m]) == k as usize,
        decreases n - i,
    {
        let mut cand = false;
        if doc.nodes[i].alive && doc.nodes[i].tag == Tag::Filter {
            let counted = live_children(doc, i);
            if counted.0 == 1 {
                let c = counted.1;
                if doc.nodes[c].tag == Tag::FeColorMatrix {
                    let tok = match get_attr(&doc.nodes[c], AttrKey::Type) {
                        Option::Some(AttrValue::Text(t)) => bytes_match(t, &word),
                        _ => false,
                    };
                    let vok = match get_attr(&doc.nodes[c], AttrKey::Values) {
                        Option::Some(AttrValue::Text(t)) => bytes_match(t, &ident),
                        _ => false,
                    };
                    cand = tok && vok;
                }
            }
        }
        proof {
            assert(cand == matrix_cand(d0, i as int));
        }
        if cand {
            let ghost cpre = cands@;
            cands.push(i);
            proof {
                assert(forall|m: int| 0 <= m < cpre.len() ==> (#[trigger] cands@[m]) == cpre[m]);
                assert(cands@[cpre.len() as int] == i as usize);
                assert forall|k: int|
                    #![trigger matrix_cand(d0, k)]
                    0 <= k < i + 1 && matrix_cand(d0, k) implies exists|m: int|
                    0 <= m < cands@.len() && (#[trigger] cands@[m]) == k as usize by {
                    if k == i as int {
                        assert(cands@[cpre.len() as int] == k as usize);
                    } else {
                        let m = choose|m: int|
                            0 <= m < cpre.len() && (#[trigger] cpre[m]) == k as usize;
                        assert(cands@[m] == k as usize);
                    }
                }
            }
        }
        i = i + 1;
    }
    let removed = cands.len() > 0;
    remove_all(doc, &cands);
    proof {
        if removed {
            assert(matrix_cand(d0, cands@[0] as int));
        }
        assert forall|j: int|
            #![trigger doc.nodes@[j].alive]
            0 <= j < d0.nodes@.len() implies doc.nodes@[j].alive == (d0.nodes@[j].alive
            && !matrix_doomed(d0, j)) by {
            let ps = parent_seq(d0);
            if doomed_by(ps, cands@, j) {
                let m = choose|m: int|
                    0 <= m < cands@.len() && in_subtree_p(ps, (#[trigger] cands@[m]) as int, j);
                assert(in_subtree(d0, cands@[m] as int, j));
                assert(matrix_doomed(d0, j));
            }
            if matrix_doomed(d0, j) {
                let c = choose|c: int| matrix_cand(d0, c) && #[trigger] in_subtree(d0, c, j);
                let m = choose|m: int|
                    0 <= m < cands@.len() && (#[trigger] cands@[m]) == c as usize;
                assert(in_subtree_p(ps, cands@[m] as int, j));
                assert(doomed_by(ps, cands@, j));
            }
        }
    }
    removed
}

// ---------------------------------------------------------------------------
// Cascading removal of empty definitions (filters and clip paths)
// ---------------------------------------------------------------------------

/// A live node of the given tag with no live children.
pub open spec fn empty_cand(doc: Document, tg: Tag, i: int) -> bool {
    0 <= i < doc.nodes@.len() && doc.nodes@[i].alive && doc.nodes@[i].tag == tg
        && live_child_count(doc, i as usize, 0) == 0
}

/// A live node holding a link attribute to node `i`'s identifier.
pub open spec fn referrer(doc: Document, i: int, r: int) -> bool {
    0 <= r < doc.nodes@.len() && doc.nodes@[r].alive && match doc.nodes@[i].id {
        Option::Some(id) => links_to(doc.nodes@[r], id),
        Option::None => false,
    }
}

/// `x` is an empty definition of tag `tg`, or a referrer of one.
pub open spec fn cascade_elem(doc: Document, tg: Tag, x: int) -> bool {
    exists|i: int| #[trigger] empty_cand(doc, tg, i) && (x == i || referrer(doc, i, x))
}

/// Node `j` dies in the cascade: it lies under an empty definition of tag
/// `tg`, or under a node that references one.
pub open spec fn cascade_doomed(doc: Document, tg: Tag, j: int) -> bool {
    exists|i: int|
        #![trigger empty_cand(doc, tg, i)]
        empty_cand(doc, tg, i) && (in_subtree(doc, i, j) || exists|r: int|
            #[trigger] referrer(doc, i, r) && in_subtree(doc, r, j))
}

/// What a cascading rule does: every empty definition of tag `tg` dies,
/// and so does every node referencing one, because a reference to a
/// missing definition of these kinds suppresses rendering of the referrer.
pub open spec fn cascade_rel(d0: Document, d1: Document, tg: Tag) -> bool {
    &&& same_skeleton(d0, d1)
    &&& same_attrs(d0, d1)
    &&& forall|j: int|
        #![trigger d1.nodes@[j].alive]
        0 <= j < d0.nodes@.len() ==> d1.nodes@[j].alive == (d0.nodes@[j].alive && !cascade_doomed(
            d0,
            tg,
            j,
        ))
}

/// Remove every childless definition of tag `tg` together with all its
/// referrers.
#[verifier::loop_isolation(false)]
#[verifier::rlimit(60)]
pub fn cascade_remove_empty(doc: &mut Document, tg: Tag) -> (removed: bool)
    requires
        wf(*old(doc)),
    ensures
        wf(*final(doc)),
        cascade_rel(*old(doc), *final(doc), tg),
        removed == exists|i: int| #[trigger] empty_cand(*old(doc), tg, i),
{
    let ghost d0 = *doc;
    let n = doc.nodes.len();
    let mut cands: Vec<usize> = Vec::new();
    let mut i: usize = 0;
    while i < n
        invariant
            *doc == d0,
            n == d0.nodes@.len(),
            i <= n,
            forall|m: int|
                0 <= m < cands@.len() ==> (#[trigger] cands@[m]) < n && cascade_elem(
                    d0,
                    tg,
                    cands@[m] as int,
                ),
            forall|k: int|
                #![trigger empty_cand(d0, tg, k)]
                0 <= k < i && empty_cand(d0, tg, k) ==> exists|m: int|
                    0 <= m < cands@.len() && (#[trigger] cands@[m]) == k as usize,
            forall|k: int, rr: int|
                #![trigger empty_cand(d0, tg, k), referrer(d0, k, rr)]
                0 <= k < i && empty_cand(d0, tg, k) && referrer(d0, k, rr) ==> exists|m: int|
                    0 <= m < cands@.len() && (#[trigger] cands@[m]) == rr as usize,
        decreases n - i,
    {
        let counted = live_children(doc, i);
        let ec = doc.nodes[i].alive && doc.nodes[i].tag == tg && counted.0 == 0;
        proof {
            assert(ec == empty_cand(d0, tg, i as int));
        }
        if ec {
            let ghost cpre = cands@;
            cands.push(i);
            proof {
                assert(forall|m: int| 0 <= m < cpre.len() ==> (#[trigger] cands@[m]) == cpre[m]);
                assert(cands@[cpre.len() as int] == i as usize);
                assert forall|k: int|
                    #![trigger empty_cand(d0, tg, k)]
                    0 <= k < i && empty_cand(d0, tg, k) implies exists|m: int|
                    0 <= m < cands@.len() && (#[trigger] cands@[m]) == k as usize by {
                    let m = choose|m: int|
                        0 <= m < cpre.len() && (#[trigger] cpre[m]) == k as usize;
                    assert(cands@[m] == k as usize);
                }
                assert forall|k: int, rr: int|
                    #![trigger empty_cand(d0, tg, k), referrer(d0, k, rr)]
                    0 <= k < i && empty_cand(d0, tg, k) && referrer(d0, k, rr) implies exists|
                    m: int,
                |
                    0 <= m < cands@.len() && (#[trigger] cands@[m]) == rr as usize by {
                    let m = choose|m: int|
                        0 <= m < cpre.len() && (#[trigger] cpre[m]) == rr as usize;
                    assert(cands@[m] == rr as usize);
                }
            }
            match doc.nodes[i].id {
                Option::Some(idval) => {
                    let mut r: usize = 0;
                    while r < n
                        invariant
                            *doc == d0,
                            n == d0.nodes@.len(),
                            i < n,
                            r <= n,
                            doc.nodes@[i as int].id == Option::Some(idval),
                            forall|m: int|
                                0 <= m < cands@.len() ==> (#[trigger] cands@[m]) < n
                                    && cascade_elem(d0, tg, cands@[m] as int),
                            exists|m: int|
                                0 <= m < cands@.len() && (#[trigger] cands@[m]) == i as usize,
                            forall|k: int|
                                #![trigger empty_cand(d0, tg, k)]
                                0 <= k < i && empty_cand(d0, tg, k) ==> exists|m: int|
                                    0 <= m < cands@.len() && (#[trigger] cands@[m]) == k as usize,
                            forall|k: int, rr: int|
                                #![trigger empty_cand(d0, tg, k), referrer(d0, k, rr)]
                                0 <= k < i && empty_cand(d0, tg, k) && referrer(d0, k, rr)
                                    ==> exists|m: int|
                                    0 <= m < cands@.len() && (#[trigger] cands@[m]) == rr as usize,
                            forall|rr: int|
                                #![trigger referrer(d0, i as int, rr)]
                                0 <= rr < r && referrer(d0, i as int, rr) ==> exists|m: int|
                                    0 <= m < cands@.len() && (#[trigger] cands@[m]) == rr as usize,
                        decreases n - r,
                    {
                        let isref = doc.nodes[r].alive && node_links_to(&doc.nodes[r], idval);
                        proof {
                            assert(isref == referrer(d0, i as int, r as int));
                        }
                        if isref {
                            let ghost rpre = cands@;
                            cands.push(r);
                            proof {
                                assert(forall|m: int|
                                    0 <= m < rpre.len() ==> (#[trigger] cands@[m]) == rpre[m]);
                                assert(cands@[rpre.len() as int] == r as usize);
                                assert(cascade_elem(d0, tg, r as int));
                                let m0 = choose|m: int|
                                    0 <= m < rpre.len() && (#[trigger] rpre[m]) == i as usize;
                                assert(cands@[m0] == i as usize);
                                assert forall|k: int|
                                    #![trigger empty_cand(d0, tg, k)]
                                    0 <= k < i && empty_cand(d0, tg, k) implies exists|m: int|
                                    0 <= m < cands@.len() && (#[trigger] cands@[m])
                                        == k as usize by {
                                    let m = choose|m: int|
                                        0 <= m < rpre.len() && (#[trigger] rpre[m]) == k as usize;
                                    assert(cands@[m] == k as usize);
                                }
                                assert forall|k: int, rr: int|
                                    #![trigger empty_cand(d0, tg, k), referrer(d0, k, rr)]
                                    0 <= k < i && empty_cand(d0, tg, k) && referrer(d0, k, rr)
                                    implies exists|m: int|
                                    0 <= m < cands@.len() && (#[trigger] cands@[m])
                                        == rr as usize by {
                                    let m = choose|m: int|
                                        0 <= m < rpre.len() && (#[trigger] rpre[m]) == rr as usize;
                                    assert(cands@[m] == rr as usize);
                                }
                                assert forall|rr: int|
                                    #![trigger referrer(d0, i as int, rr)]
                                    0 <= rr < r + 1 && referrer(d0, i as int, rr) implies exists|
                                    m: int,
                                |
                                    0 <= m < cands@.len() && (#[trigger] cands@[m])
                                        == rr as usize by {
                                    if rr == r as int {
                                        assert(cands@[rpre.len() as int] == rr as usize);
                                    } else {
                                        let m = choose|m: int|
                                            0 <= m < rpre.len() && (#[trigger] rpre[m])
                                                == rr as usize;
                                        assert(cands@[m] == rr as usize);
                                    }
                                }
                            }
                        }
                        r = r + 1;
                    }
                },
                Option::None => {
                    proof {
                        assert forall|rr: int| !(#[trigger] referrer(d0, i as int, rr)) by {}
                    }
                },
            }
        }
        i = i + 1;
    }
    let removed = cands.len() > 0;
    remove_all(doc, &cands);
    proof {
        if removed {
            assert(cascade_elem(d0, tg, cands@[0] as int));
        } else {
            assert forall|i2: int| !(#[trigger] empty_cand(d0, tg, i2)) by {
                if empty_cand(d0, tg, i2) {
                    assert(exists|m: int|
                        0 <= m < cands@.len() && (#[trigger] cands@[m]) == i2 as usize);
                }
            }
        }
        assert forall|j: int|
            #![trigger doc.nodes@[j].alive]
            0 <= j < d0.nodes@.len() implies doc.nodes@[j].alive == (d0.nodes@[j].alive
            && !cascade_doomed(d0, tg, j)) by {
            let ps = parent_seq(d0);
            if doomed_by(ps, cands@, j) {
                let m = choose|m: int|
                    0 <= m < cands@.len() && in_subtree_p(ps, (#[trigger] cands@[m]) as int, j);
                let x = cands@[m] as int;
                assert(cascade_elem(d0, tg, x));
                let i2 = choose|i2: int|
                    #[trigger] empty_cand(d0, tg, i2) && (x == i2 || referrer(d0, i2, x));
                assert(in_subtree(d0, x, j));
                assert(cascade_doomed(d0, tg, j));
            }
            if cascade_doomed(d0, tg, j) {
                let i2 = choose|i2: int|
                    #![trigger empty_cand(d0, tg, i2)]
                    empty_cand(d0, tg, i2) && (in_subtree(d0, i2, j) || exists|r: int|
                        #[trigger] referrer(d0, i2, r) && in_subtree(d0, r, j));
                if in_subtree(d0, i2, j) {
                    let m = choose|m: int|
                        0 <= m < cands@.len() && (#[trigger] cands@[m]) == i2 as usize;
                    assert(in_subtree_p(ps, cands@[m] as int, j));
                } else {
                    let r = choose|r: int|
                        #[trigger] referrer(d0, i2, r) && in_subtree(d0, r, j);
                    let m = choose|m: int|
                        0 <= m < cands@.len() && (#[trigger] cands@[m]) == r as usize;
                    assert(in_subtree_p(ps, cands@[m] as int, j));
                }
                assert(doomed_by(ps, cands@, j));
            }
        }
    }
    removed
}

/// Remove filter definitions that have no effect stages, together with
/// every node referencing them: an effect-free filter suppresses rendering
/// of its referrers.
pub fn process_empty_filter(doc: &mut Document) -> (removed: bool)
    requires
        wf(*old(doc)),
    ensures
        wf(*final(doc)),
        cascade_rel(*old(doc), *final(doc), Tag::Filter),
        removed == exists|i: int| #[trigger] empty_cand(*old(doc), Tag::Filter, i),
{
    cascade_remove_empty(doc, Tag::Filter)
}

// ---------------------------------------------------------------------------
// Clip-path sanitizer
// ---------------------------------------------------------------------------

/// Tags that may establish a clipping path: basic shapes, paths and text.
pub open spec fn clip_shape_tag(t: Tag) -> bool {
    t == Tag::Rect || t == Tag::Circle || t == Tag::Ellipse || t == Tag::Line || t == Tag::Polyline
        || t == Tag::Polygon || t == Tag::Path || t == Tag::Text
}

/// A child of a clip path is valid when it is a shape, a path or text, or
/// a reference element whose one-hop target is one of those. Chains of
/// reference elements, missing targets and ill-typed references are invalid.
pub open spec fn valid_clip_elem(doc: Document, c: int) -> bool {
    if doc.nodes@[c].tag == Tag::Use {
        match attr_of(doc.nodes@[c].attrs@, AttrKey::XlinkHref) {
            Option::Some(AttrValue::Link(id)) => {
                let k = find_live_id(doc, id, 0);
                k >= 0 && clip_shape_tag(doc.nodes@[k].tag)
            },
            _ => false,
        }
    } else {
        clip_shape_tag(doc.nodes@[c].tag)
    }
}

/// A live, invalid child of a live clip path: it gets detached.
pub open spec fn clip_invalid_child(doc: Document, c: int) -> bool {
    &&& 0 <= c < doc.nodes@.len()
    &&& doc.nodes@[c].alive
    &&& match doc.nodes@[c].parent {
        Option::Some(p) => doc.nodes@[p as int].alive && doc.nodes@[p as int].tag == Tag::ClipPath,
        Option::None => false,
    }
    &&& !valid_clip_elem(doc, c)
}

/// Node `j` lies under some invalid clip-path child.
pub open spec fn clip_prune_doomed(doc: Document, j: int) -> bool {
    exists|c: int| clip_invalid_child(doc, c) && #[trigger] in_subtree(doc, c, j)
}

/// What the pruning stage does: exactly the invalid children's subtrees die.
pub open spec fn clip_prune_rel(d0: Document, d1: Document) -> bool {
    &&& same_skeleton(d0, d1)
    &&& same_attrs(d0, d1)
    &&& forall|j: int|
        #![trigger d1.nodes@[j].alive]
        0 <= j < d0.nodes@.len() ==> d1.nodes@[j].alive == (d0.nodes@[j].alive
            && !clip_prune_doomed(d0, j))
}

/// Is `t` a tag that may stand in a clipping path?
pub fn is_clip_shape(t: Tag) -> (r: bool)
    ensures
        r == clip_shape_tag(t),
{
    match t {
        Tag::Rect => true,
        Tag::Circle => true,
        Tag::Ellipse => true,
        Tag::Line => true,
        Tag::Polyline => true,
        Tag::Polygon => true,
        Tag::Path => true,
        Tag::Text => true,
        _ => false,
    }
}

/// Is node `c` a valid clip-path child?
pub fn is_valid_clip_path_elem(doc: &Document, c: usize) -> (r: bool)
    requires
        c < doc.nodes@.len(),
    ensures
        r == valid_clip_elem(*doc, c as int),
{
    if doc.nodes[c].tag == Tag::Use {
        match get_attr(&doc.nodes[c], AttrKey::XlinkHref) {
            Option::Some(AttrValue::Link(id)) => match lookup_live_id(doc, *id) {
                Option::Some(k) => is_clip_shape(doc.nodes[k].tag),
                Option::None => false,
            },
            _ => false,
        }
    } else {
        is_clip_shape(doc.nodes[c].tag)
    }
}

/// Sanitize clip paths: detach invalid children, then remove clip paths
/// that are (or became) empty together with every node referencing them,
/// since an element referencing a missing clip path is not rendered.
#[verifier::loop_isolation(false)]
pub fn process_clip_paths(doc: &mut Document) -> (removed: bool)
    requires
        wf(*old(doc)),
    ensures
        wf(*final(doc)),
        exists|mid: Document|
            {
                &&& #[trigger] clip_prune_rel(*old(doc), mid)
                &&& cascade_rel(mid, *final(doc), Tag::ClipPath)
                &&& removed == ((exists|c: int| #[trigger] clip_invalid_child(*old(doc), c)) || (
                exists|i: int| #[trigger] empty_cand(mid, Tag::ClipPath, i)))
            },
{
    let ghost d0 = *doc;
    let n = doc.nodes.len();
    let mut cands: Vec<usize> = Vec::new();
    let mut c: usize = 0;
    while c < n
        invariant
            *doc == d0,
            n == d0.nodes@.len(),
            c <= n,
            forall|m: int|
                0 <= m < cands@.len() ==> (#[trigger] cands@[m]) < n && clip_invalid_child(
                    d0,
                    cands@[m] as int,
                ),
            forall|k: int|
                #![trigger clip_invalid_child(d0, k)]
                0 <= k < c && clip_invalid_child(d0, k) ==> exists|m: int|
                    0 <= m < cands@.len() && (#[trigger] cands@[m]) == k as usize,
        decreases n - c,
    {
        let under_clip = doc.nodes[c].alive && match doc.nodes[c].parent {
            Option::Some(p) => doc.nodes[p].alive && doc.nodes[p].tag == Tag::ClipPath,
            Option::None => false,
        };
        if under_clip && !is_valid_clip_path_elem(doc, c) {
            proof {
                assert(clip_invalid_child(d0, c as int));
            }
            let ghost cpre = cands@;
            cands.push(c);
            proof {
                assert(forall|m: int| 0 <= m < cpre.len() ==> (#[trigger] cands@[m]) == cpre[m]);
                assert(cands@[cpre.len() as int] == c as usize);
                assert forall|k: int|
                    #![trigger clip_invalid_child(d0, k)]
                    0 <= k < c + 1 && clip_invalid_child(d0, k) implies exists|m: int|
                    0 <= m < cands@.len() && (#[trigger] cands@[m]) == k as usize by {
                    if k == c as int {
                        assert(cands@[cpre.len() as int] == k as usize);
                    } else {
                        let m = choose|m: int|
                            0 <= m < cpre.len() && (#[trigger] cpre[m]) == k as usize;
                        assert(cands@[m] == k as usize);
                    }
                }
            }
        } else {
            proof {
                assert(!clip_invalid_child(d0, c as int));
            }
        }
        c = c + 1;
    }
    let pruned = cands.len() > 0;
    remove_all(doc, &cands);
    proof {
        if pruned {
            assert(clip_invalid_child(d0, cands@[0] as int));
        } else {
            assert forall|c2: int| !(#[trigger] clip_invalid_child(d0, c2)) by {
                if clip_invalid_child(d0, c2) {
                    assert(exists|m: int|
                        0 <= m < cands@.len() && (#[trigger] cands@[m]) == c2 as usize);
                }
            }
        }
        assert forall|j: int|
            #![trigger doc.nodes@[j].alive]
            0 <= j < d0.nodes@.len() implies doc.nodes@[j].alive == (d0.nodes@[j].alive
            && !clip_prune_doomed(d0, j)) by {
            let ps = parent_seq(d0);
            if doomed_by(ps, cands@, j) {
                let m = choose|m: int|
                    0 <= m < cands@.len() && in_subtree_p(ps, (#[trigger] cands@[m]) as int, j);
                assert(in_subtree(d0, cands@[m] as int, j));
                assert(clip_prune_doomed(d0, j));
            }
            if clip_prune_doomed(d0, j) {
                let c2 = choose|c2: int|
                    clip_invalid_child(d0, c2) && #[trigger] in_subtree(d0, c2, j);
                let m = choose|m: int|
                    0 <= m < cands@.len() && (#[trigger] cands@[m]) == c2 as usize;
                assert(in_subtree_p(ps, cands@[m] as int, j));
                assert(doomed_by(ps, cands@, j));
            }
        }
    }
    let ghost mid = *doc;
    proof {
        assert(clip_prune_rel(d0, mid));
    }
    let cascaded = cascade_remove_empty(doc, Tag::ClipPath);
    let removed = pruned || cascaded;
    proof {
        assert(clip_prune_rel(d0, mid) && cascade_rel(mid, *doc, Tag::ClipPath));
    }
    removed
}

} // verus!
