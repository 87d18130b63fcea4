//! Properties of the rules that hold for every document, proved once and
//! for all from the rules' contracts.

use vstd::prelude::*;
use crate::model::{
    in_subtree, lemma_subtree_trans, node_used, parent_seq, same_attrs, subtree_used, wf, Attr,
    AttrValue, Document, Keyword,
};
use crate::links::{
    lemma_attr_of_unique_at, lemma_attr_of_upsert_other, lemma_attr_of_upsert_same, upsert,
};
use crate::model::{attr_links_to, attr_of, spec_fuzzy_eq, unique_keys, Color, OPACITY_ONE};
use crate::model::AttrKey;
use crate::paint::{
    apply_single, colorize_attr, empty_target, fold_singles, grad_none_rel, grad_single_rel,
    lemma_attr_of_colorized, linked_at, none_attr, none_mapped, single_triples,
};
use crate::rules::{
    cascade_doomed, cascade_rel, display_cand, display_rel, empty_cand, rect_cand, rect_doomed,
    rect_rel, referrer,
};
use crate::model::Tag;

verus! {

/// A display-suppressed subtree that contains a node referenced anywhere
/// is retained unchanged by the display rule: the referenced node and
/// every live ancestor of it survive, and no attribute changes.
pub proof fn lemma_display_rule_keeps_used(d0: Document, d1: Document, j: int, a: int)
    requires
        wf(d0),
        display_rel(d0, d1),
        0 <= j < d0.nodes@.len(),
        d0.nodes@[j].alive,
        node_used(d0, j),
        0 <= a < d0.nodes@.len(),
        in_subtree(d0, a, j),
        d0.nodes@[a].alive,
    ensures
        d1.nodes@[a].alive,
        d1.nodes@[a].attrs@ == d0.nodes@[a].attrs@,
{
    if !d1.nodes@[a].alive {
        let i = choose|i: int| display_cand(d0, i) && #[trigger] in_subtree(d0, i, a);
        lemma_subtree_trans(parent_seq(d0), i, a, j);
        assert(in_subtree(d0, i, j));
        assert(subtree_used(d0, i));
        assert(false);
    }
}

/// The zero-extent rectangle rule is idempotent: a second run on its own
/// output changes nothing, neither liveness nor attributes.
pub proof fn lemma_rect_rule_idempotent(d0: Document, d1: Document, d2: Document)
    requires
        rect_rel(d0, d1),
        rect_rel(d1, d2),
    ensures
        forall|j: int|
            #![trigger d2.nodes@[j].alive]
            0 <= j < d0.nodes@.len() ==> d2.nodes@[j].alive == d1.nodes@[j].alive,
        same_attrs(d1, d2),
{
    assert(parent_seq(d0) =~= parent_seq(d1));
    assert forall|j: int|
        #![trigger d2.nodes@[j].alive]
        0 <= j < d0.nodes@.len() implies d2.nodes@[j].alive == d1.nodes@[j].alive by {
        if d1.nodes@[j].alive && rect_doomed(d1, j) {
            let i = choose|i: int| rect_cand(d1, i) && #[trigger] in_subtree(d1, i, j);
            assert(d1.nodes@[i].attrs@ == d0.nodes@[i].attrs@);
            assert(rect_cand(d0, i));
            assert(in_subtree(d0, i, i));
            assert(rect_doomed(d0, i));
            assert(!d1.nodes@[i].alive);
            assert(false);
        }
    }
}

/// An empty definition reachable by referrers is removed together with
/// every one of them: the cascade kills the definition and each referrer.
pub proof fn lemma_cascade_removes_definition_and_referrers(
    d0: Document,
    d1: Document,
    tg: Tag,
    i: int,
    r: int,
)
    requires
        cascade_rel(d0, d1, tg),
        empty_cand(d0, tg, i),
        referrer(d0, i, r),
    ensures
        !d1.nodes@[i].alive,
        !d1.nodes@[r].alive,
{
    assert(in_subtree(d0, i, i));
    assert(in_subtree(d0, r, r));
    assert(cascade_doomed(d0, tg, i));
    assert(cascade_doomed(d0, tg, r));
}

/// A node untouched by the cascade keeps its liveness, and no attribute
/// anywhere changes: the rest of the tree is unaffected.
pub proof fn lemma_cascade_leaves_rest_alone(d0: Document, d1: Document, tg: Tag, j: int)
    requires
        cascade_rel(d0, d1, tg),
        0 <= j < d0.nodes@.len(),
        !cascade_doomed(d0, tg, j),
    ensures
        d1.nodes@[j].alive == d0.nodes@[j].alive,
        d1.nodes@[j].attrs@ == d0.nodes@[j].attrs@,
{
}

/// On a live referrer, every link attribute whose target is an empty paint
/// server reads the keyword `none` after the rewrite, under its own key.
pub proof fn lemma_empty_server_link_reads_none(d0: Document, d1: Document, j: int, k: int)
    requires
        grad_none_rel(d0, d1),
        0 <= j < d0.nodes@.len(),
        d0.nodes@[j].alive,
        0 <= k < d0.nodes@[j].attrs@.len(),
        empty_target(d0, d0.nodes@[j].attrs@[k]),
    ensures
        d1.nodes@[j].attrs@[k].key == d0.nodes@[j].attrs@[k].key,
        d1.nodes@[j].attrs@[k].val == AttrValue::Keyword(Keyword::NoneKw),
{
    assert(d1.nodes@[j].attrs@ == none_mapped(d0, d0.nodes@[j].attrs@));
    assert(d1.nodes@[j].attrs@[k] == none_attr(d0.nodes@[j].attrs@[k]));
}

/// A referrer of the sole single-stop paint server, after the single-stop
/// rewrite: a fill link reads the stop color and, the stop opacity not
/// being fuzzy-one, fill-opacity reads the stop opacity; a stroke link
/// behaves the same with stroke-opacity.
pub proof fn lemma_single_stop_rewrites_links(
    d1: Document,
    d2: Document,
    j: int,
    id: u64,
    c: Color,
    o: i64,
)
    requires
        grad_single_rel(d1, d2),
        single_triples(d1, 0) == seq![(id, c, o)],
        0 <= j < d1.nodes@.len(),
        d1.nodes@[j].alive,
        unique_keys(d1.nodes@[j].attrs@),
        !spec_fuzzy_eq(o, OPACITY_ONE),
    ensures
        linked_at(d1.nodes@[j].attrs@, AttrKey::Fill, id) ==> attr_of(
            d2.nodes@[j].attrs@,
            AttrKey::Fill,
        ) == Option::Some(AttrValue::Color(c)) && attr_of(
            d2.nodes@[j].attrs@,
            AttrKey::FillOpacity,
        ) == Option::Some(AttrValue::Number(o)),
        linked_at(d1.nodes@[j].attrs@, AttrKey::Stroke, id) ==> attr_of(
            d2.nodes@[j].attrs@,
            AttrKey::Stroke,
        ) == Option::Some(AttrValue::Color(c)) && attr_of(
            d2.nodes@[j].attrs@,
            AttrKey::StrokeOpacity,
        ) == Option::Some(AttrValue::Number(o)),
{
    let a = d1.nodes@[j].attrs@;
    let cs = single_triples(d1, 0);
    assert(cs[0] == (id, c, o));
    assert(cs.drop_first() =~= Seq::<(u64, Color, i64)>::empty());
    assert(fold_singles(a, cs) == fold_singles(apply_single(a, id, c, o), cs.drop_first()));
    assert(d2.nodes@[j].attrs@ == apply_single(a, id, c, o));
    let base = a.map_values(|x: Attr| colorize_attr(x, id, c));
    let fl = linked_at(a, AttrKey::Fill, id);
    let sl = linked_at(a, AttrKey::Stroke, id);
    let s1 = if fl {
        upsert(base, AttrKey::FillOpacity, AttrValue::Number(o))
    } else {
        base
    };
    let s2 = if sl {
        upsert(s1, AttrKey::StrokeOpacity, AttrValue::Number(o))
    } else {
        s1
    };
    assert(d2.nodes@[j].attrs@ == s2);
    lemma_attr_of_colorized(a, id, c, AttrKey::Fill);
    lemma_attr_of_colorized(a, id, c, AttrKey::Stroke);
    if fl {
        let k = choose|k: int|
            0 <= k < a.len() && (#[trigger] a[k]).key == AttrKey::Fill && attr_links_to(a[k], id);
        lemma_attr_of_unique_at(a, AttrKey::Fill, k);
        assert(attr_of(base, AttrKey::Fill) == Option::Some(AttrValue::Color(c)));
        lemma_attr_of_upsert_other(base, AttrKey::FillOpacity, AttrValue::Number(o), AttrKey::Fill);
        lemma_attr_of_upsert_same(base, AttrKey::FillOpacity, AttrValue::Number(o));
        if sl {
            lemma_attr_of_upsert_other(
                s1,
                AttrKey::StrokeOpacity,
                AttrValue::Number(o),
                AttrKey::Fill,
            );
            lemma_attr_of_upsert_other(
                s1,
                AttrKey::StrokeOpacity,
                AttrValue::Number(o),
                AttrKey::FillOpacity,
            );
        }
    }
    if sl {
        let k = choose|k: int|
            0 <= k < a.len() && (#[trigger] a[k]).key == AttrKey::Stroke && attr_links_to(
                a[k],
                id,
            );
        lemma_attr_of_unique_at(a, AttrKey::Stroke, k);
        assert(attr_of(base, AttrKey::Stroke) == Option::Some(AttrValue::Color(c)));
        if fl {
            lemma_attr_of_upsert_other(
                base,
                AttrKey::FillOpacity,
                AttrValue::Number(o),
                AttrKey::Stroke,
            );
            lemma_attr_of_upsert_other(
                base,
                AttrKey::FillOpacity,
                AttrValue::Number(o),
                AttrKey::StrokeOpacity,
            );
        }
        lemma_attr_of_upsert_other(s1, AttrKey::StrokeOpacity, AttrValue::Number(o), AttrKey::Stroke);
        lemma_attr_of_upsert_same(s1, AttrKey::StrokeOpacity, AttrValue::Number(o));
    }
}

} // verus!
