//! Paint-server collapse: a gradient without an inheritance link and
//! without stops is rewritten on every referrer to the keyword `none`;
//! one with a single stop is rewritten to that stop's solid color and,
//! when the stop opacity is not fuzzy-equal to one, a companion opacity
//! attribute. The paint server itself is then removed.

use vstd::prelude::*;
use crate::model::{
    attr_links_to, attr_of, in_subtree, in_subtree_p, links_to, parent_seq, remove_all, same_attrs,
    same_skeleton, spec_fuzzy_eq, unique_keys, wf, doomed_by, fuzzy_eq, get_attr, node_links_to,
    Attr, AttrKey, AttrValue, Color, Document, Keyword, Tag, OPACITY_ONE,
};
use crate::links::{upsert, upsert_attr, lemma_upsert_unique};
use crate::model::attr_search;
use crate::rules::{first_live_child, live_child_count, live_children};

verus! {

/// Gradient element kinds: the paint servers this rule collapses.
pub open spec fn grad_tag(t: Tag) -> bool {
    t == Tag::LinearGradient || t == Tag::RadialGradient
}

/// A live gradient without an inheritance link to another paint server.
pub open spec fn grad_base(doc: Document, i: int) -> bool {
    0 <= i < doc.nodes@.len() && doc.nodes@[i].alive && grad_tag(doc.nodes@[i].tag) && attr_of(
        doc.nodes@[i].attrs@,
        AttrKey::XlinkHref,
    ) is None
}

/// An empty paint server: no live stop children at all.
pub open spec fn grad_empty_cand(doc: Document, i: int) -> bool {
    grad_base(doc, i) && live_child_count(doc, i as usize, 0) == 0
}

/// Resolved color and opacity of a stop node, when both are present with
/// the right types; anything else means the rule skips the paint server.
pub open spec fn stop_vals(doc: Document, c: int) -> Option<(Color, i64)> {
    if 0 <= c < doc.nodes@.len() {
        match attr_of(doc.nodes@[c].attrs@, AttrKey::StopColor) {
            Option::Some(AttrValue::Color(col)) => match attr_of(
                doc.nodes@[c].attrs@,
                AttrKey::StopOpacity,
            ) {
                Option::Some(AttrValue::Number(o)) => Option::Some((col, o)),
                _ => Option::None,
            },
            _ => Option::None,
        }
    } else {
        Option::None
    }
}

/// A single-stop paint server whose stop resolves to a color and opacity.
pub open spec fn grad_single_cand(doc: Document, i: int) -> bool {
    grad_base(doc, i) && live_child_count(doc, i as usize, 0) == 1 && stop_vals(
        doc,
        first_live_child(doc, i as usize, 0),
    ) is Some
}

/// Does `id` name some empty paint server?
pub open spec fn id_is_empty_grad(doc: Document, id: u64) -> bool {
    exists|i: int| #[trigger] grad_empty_cand(doc, i) && doc.nodes@[i].id == Option::Some(id)
}

/// Does this attribute link to some empty paint server?
pub open spec fn empty_target(doc: Document, a: Attr) -> bool {
    match a.val {
        AttrValue::Link(t) => id_is_empty_grad(doc, t),
        AttrValue::FuncLink(t) => id_is_empty_grad(doc, t),
        _ => false,
    }
}

/// The attribute rewritten to the keyword `none`, keeping its key.
pub open spec fn none_attr(a: Attr) -> Attr {
    Attr { key: a.key, val: AttrValue::Keyword(Keyword::NoneKw) }
}

/// Every link to an empty paint server becomes the keyword `none`.
pub open spec fn none_mapped(doc0: Document, a: Seq<Attr>) -> Seq<Attr> {
    a.map_values(
        |x: Attr|
            if empty_target(doc0, x) {
                none_attr(x)
            } else {
                x
            },
    )
}

/// What the empty-paint-server rewrite does to the whole document:
/// liveness and skeleton are untouched, and on every live node each link
/// attribute whose target is an empty paint server reads `none`.
pub open spec fn grad_none_rel(d0: Document, d1: Document) -> bool {
    &&& same_skeleton(d0, d1)
    &&& forall|j: int|
        #![trigger d1.nodes@[j].alive]
        0 <= j < d0.nodes@.len() ==> d1.nodes@[j].alive == d0.nodes@[j].alive
    &&& forall|j: int|
        #![trigger d1.nodes@[j].attrs]
        0 <= j < d0.nodes@.len() ==> d1.nodes@[j].attrs@ == (if d0.nodes@[j].alive {
            none_mapped(d0, d0.nodes@[j].attrs@)
        } else {
            d0.nodes@[j].attrs@
        })
}

/// A link to paint server `id` rewritten to the solid color, keeping keys.
pub open spec fn colorize_attr(a: Attr, id: u64, col: Color) -> Attr {
    if attr_links_to(a, id) {
        Attr { key: a.key, val: AttrValue::Color(col) }
    } else {
        a
    }
}

/// Does some attribute under `key` link to `id`?
pub open spec fn linked_at(attrs: Seq<Attr>, key: AttrKey, id: u64) -> bool {
    exists|k: int|
        0 <= k < attrs.len() && (#[trigger] attrs[k]).key == key && attr_links_to(attrs[k], id)
}

/// One single-stop collapse applied to one node's attributes: links to the
/// server become the stop color; when the stop opacity is not fuzzy-one, a
/// fill link also sets fill-opacity and a stroke link sets stroke-opacity.
pub open spec fn apply_single(attrs: Seq<Attr>, id: u64, col: Color, op: i64) -> Seq<Attr> {
    let base = attrs.map_values(|a: Attr| colorize_attr(a, id, col));
    let s1 = if !spec_fuzzy_eq(op, OPACITY_ONE) && linked_at(attrs, AttrKey::Fill, id) {
        upsert(base, AttrKey::FillOpacity, AttrValue::Number(op))
    } else {
        base
    };
    if !spec_fuzzy_eq(op, OPACITY_ONE) && linked_at(attrs, AttrKey::Stroke, id) {
        upsert(s1, AttrKey::StrokeOpacity, AttrValue::Number(op))
    } else {
        s1
    }
}

/// The single-stop collapses of all candidates, applied in index order.
pub open spec fn fold_singles(attrs: Seq<Attr>, cs: Seq<(u64, Color, i64)>) -> Seq<Attr>
    decreases cs.len(),
{
    if cs.len() == 0 {
        attrs
    } else {
        fold_singles(apply_single(attrs, cs[0].0, cs[0].1, cs[0].2), cs.drop_first())
    }
}

/// Appending one collapse to the list applies it last.
pub proof fn lemma_fold_snoc(attrs: Seq<Attr>, cs: Seq<(u64, Color, i64)>, x: (u64, Color, i64))
    ensures
        fold_singles(attrs, cs.push(x)) == apply_single(
            fold_singles(attrs, cs),
            x.0,
            x.1,
            x.2,
        ),
    decreases cs.len(),
{
    let pushed = cs.push(x);
    assert(pushed.len() == cs.len() + 1);
    assert(fold_singles(attrs, pushed) == fold_singles(
        apply_single(attrs, pushed[0].0, pushed[0].1, pushed[0].2),
        pushed.drop_first(),
    ));
    if cs.len() == 0 {
        assert(pushed[0] == x);
        assert(pushed.drop_first() =~= Seq::<(u64, Color, i64)>::empty());
        assert(fold_singles(apply_single(attrs, x.0, x.1, x.2), pushed.drop_first())
            == apply_single(attrs, x.0, x.1, x.2));
        assert(fold_singles(attrs, cs) == attrs);
    } else {
        assert(pushed[0] == cs[0]);
        assert(pushed.drop_first() =~= cs.drop_first().push(x));
        lemma_fold_snoc(apply_single(attrs, cs[0].0, cs[0].1, cs[0].2), cs.drop_first(), x);
        assert(fold_singles(attrs, cs) == fold_singles(
            apply_single(attrs, cs[0].0, cs[0].1, cs[0].2),
            cs.drop_first(),
        ));
    }
}

/// Identifier, stop color and stop opacity of every single-stop candidate
/// that carries an identifier, in index order.
pub open spec fn single_triples(doc: Document, from: int) -> Seq<(u64, Color, i64)>
    decreases doc.nodes@.len() - from,
{
    if from < 0 || from >= doc.nodes@.len() {
        Seq::empty()
    } else {
        let rest = single_triples(doc, from + 1);
        if grad_single_cand(doc, from) {
            match doc.nodes@[from].id {
                Option::Some(id) => match stop_vals(
                    doc,
                    first_live_child(doc, from as usize, 0),
                ) {
                    Option::Some(cv) => seq![(id, cv.0, cv.1)] + rest,
                    Option::None => rest,
                },
                Option::None => rest,
            }
        } else {
            rest
        }
    }
}

/// What the single-stop rewrite does: liveness and skeleton untouched;
/// every live node's attributes are the fold of all candidates' collapses.
pub open spec fn grad_single_rel(d1: Document, d2: Document) -> bool {
    &&& same_skeleton(d1, d2)
    &&& forall|j: int|
        #![trigger d2.nodes@[j].alive]
        0 <= j < d1.nodes@.len() ==> d2.nodes@[j].alive == d1.nodes@[j].alive
    &&& forall|j: int|
        #![trigger d2.nodes@[j].attrs]
        0 <= j < d1.nodes@.len() ==> d2.nodes@[j].attrs@ == (if d1.nodes@[j].alive {
            fold_singles(d1.nodes@[j].attrs@, single_triples(d1, 0))
        } else {
            d1.nodes@[j].attrs@
        })
}

/// Node `j` lies under a collapsed paint server: an empty candidate of the
/// starting state or a single-stop candidate of the rewritten state.
pub open spec fn grad_doomed(d0: Document, d1: Document, j: int) -> bool {
    exists|i: int|
        (grad_empty_cand(d0, i) || grad_single_cand(d1, i)) && #[trigger] in_subtree(d0, i, j)
}

/// The whole paint-server rule, as a chain: the `none` rewrite, then the
/// single-stop rewrite, then removal of the collapsed servers themselves.
pub open spec fn grad_rel(d0: Document, d3: Document, removed: bool) -> bool {
    exists|d1: Document, d2: Document|
        {
            &&& #[trigger] grad_none_rel(d0, d1)
            &&& #[trigger] grad_single_rel(d1, d2)
            &&& same_skeleton(d2, d3)
            &&& same_attrs(d2, d3)
            &&& forall|j: int|
                #![trigger d3.nodes@[j].alive]
                0 <= j < d0.nodes@.len() ==> d3.nodes@[j].alive == (d2.nodes@[j].alive
                    && !grad_doomed(d0, d1, j))
            &&& removed == ((exists|i: int| #[trigger] grad_empty_cand(d0, i)) || (exists|i: int|
                #[trigger] grad_single_cand(d1, i)))
        }
}

/// Apply one single-stop collapse to node `j`'s attributes, in place.
#[verifier::loop_isolation(false)]
#[verifier::rlimit(60)]
pub fn apply_single_node(doc: &mut Document, j: usize, id: u64, col: Color, op: i64)
    requires
        j < old(doc).nodes@.len(),
        unique_keys(old(doc).nodes@[j as int].attrs@),
    ensures
        final(doc).nodes@.len() == old(doc).nodes@.len(),
        forall|m: int|
            0 <= m < old(doc).nodes@.len() && m != j ==> final(doc).nodes@[m] == old(doc).nodes@[m],
        final(doc).nodes@[j as int].tag == old(doc).nodes@[j as int].tag,
        final(doc).nodes@[j as int].id == old(doc).nodes@[j as int].id,
        final(doc).nodes@[j as int].parent == old(doc).nodes@[j as int].parent,
        final(doc).nodes@[j as int].alive == old(doc).nodes@[j as int].alive,
        final(doc).nodes@[j as int].attrs@ == apply_single(
            old(doc).nodes@[j as int].attrs@,
            id,
            col,
            op,
        ),
        unique_keys(final(doc).nodes@[j as int].attrs@),
{
    let ghost a0 = doc.nodes@[j as int].attrs@;
    let n = doc.nodes[j].attrs.len();
    let mut fl = false;
    let mut sl = false;
    let mut k: usize = 0;
    while k < n
        invariant
            *doc == *old(doc),
            n == a0.len(),
            k <= n,
            fl == exists|x: int|
                0 <= x < k && (#[trigger] a0[x]).key == AttrKey::Fill && attr_links_to(a0[x], id),
            sl == exists|x: int|
                0 <= x < k && (#[trigger] a0[x]).key == AttrKey::Stroke && attr_links_to(a0[x], id),
        decreases n - k,
    {
        let islink = match &doc.nodes[j].attrs[k].val {
            AttrValue::Link(t) => *t == id,
            AttrValue::FuncLink(t) => *t == id,
            _ => false,
        };
        if islink {
            proof {
                assert(attr_links_to(a0[k as int], id));
            }
            if doc.nodes[j].attrs[k].key == AttrKey::Fill {
                fl = true;
            }
            if doc.nodes[j].attrs[k].key == AttrKey::Stroke {
                sl = true;
            }
        }
        k = k + 1;
    }
    proof {
        assert(fl == linked_at(a0, AttrKey::Fill, id));
        assert(sl == linked_at(a0, AttrKey::Stroke, id));
    }
    let mut k: usize = 0;
    while k < n
        invariant
            k <= n,
            n == a0.len(),
            doc.nodes@.len() == old(doc).nodes@.len(),
            forall|m: int|
                0 <= m < old(doc).nodes@.len() && m != j ==> doc.nodes@[m] == old(doc).nodes@[m],
            doc.nodes@[j as int].tag == old(doc).nodes@[j as int].tag,
            doc.nodes@[j as int].id == old(doc).nodes@[j as int].id,
            doc.nodes@[j as int].parent == old(doc).nodes@[j as int].parent,
            doc.nodes@[j as int].alive == old(doc).nodes@[j as int].alive,
            doc.nodes@[j as int].attrs@.len() == n,
            forall|x: int|
                0 <= x < k ==> (#[trigger] doc.nodes@[j as int].attrs@[x]) == colorize_attr(
                    a0[x],
                    id,
                    col,
                ),
            forall|x: int| k <= x < n ==> (#[trigger] doc.nodes@[j as int].attrs@[x]) == a0[x],
        decreases n - k,
    {
        let islink = match &doc.nodes[j].attrs[k].val {
            AttrValue::Link(t) => *t == id,
            AttrValue::FuncLink(t) => *t == id,
            _ => false,
        };
        if islink {
            let key = doc.nodes[j].attrs[k].key;
            doc.nodes[j].attrs[k] = Attr { key, val: AttrValue::Color(col) };
        }
        k = k + 1;
    }
    let ghost base = a0.map_values(|a: Attr| colorize_attr(a, id, col));
    proof {
        assert(doc.nodes@[j as int].attrs@ =~= base);
        assert forall|x1: int, x2: int|
            #![trigger base[x1], base[x2]]
            0 <= x1 < x2 < base.len() implies base[x1].key != base[x2].key by {
            assert(base[x1].key == a0[x1].key);
            assert(base[x2].key == a0[x2].key);
        }
    }
    let nz = !fuzzy_eq(op, OPACITY_ONE);
    if nz && fl {
        proof {
            lemma_upsert_unique(base, AttrKey::FillOpacity, AttrValue::Number(op));
        }
        upsert_attr(doc, j, AttrKey::FillOpacity, AttrValue::Number(op));
    }
    if nz && sl {
        proof {
            let s1 = if nz && fl {
                upsert(base, AttrKey::FillOpacity, AttrValue::Number(op))
            } else {
                base
            };
            lemma_upsert_unique(s1, AttrKey::StrokeOpacity, AttrValue::Number(op));
        }
        upsert_attr(doc, j, AttrKey::StrokeOpacity, AttrValue::Number(op));
    }
}

/// Is `t` one of the collected identifiers?
#[verifier::loop_isolation(false)]
fn id_in(ids: &Vec<u64>, t: u64) -> (r: bool)
    ensures
        r == ids@.contains(t),
{
    let mut i: usize = 0;
    while i < ids.len()
        invariant
            i <= ids@.len(),
            forall|k: int| 0 <= k < i ==> (#[trigger] ids@[k]) != t,
        decreases ids@.len() - i,
    {
        if ids[i] == t {
            assert(ids@[i as int] == t);
            return true;
        }
        i = i + 1;
    }
    false
}

/// Rewrite node `j`'s links to empty paint servers to the keyword `none`.
/// `ids` must list exactly the identifiers of the empty candidates of `d0`.
#[verifier::loop_isolation(false)]
fn none_rewrite_node(doc: &mut Document, j: usize, ids: &Vec<u64>, Ghost(d0): Ghost<Document>)
    requires
        j < old(doc).nodes@.len(),
        old(doc).nodes@[j as int].attrs@ == d0.nodes@[j as int].attrs@,
        unique_keys(old(doc).nodes@[j as int].attrs@),
        forall|m: int| 0 <= m < ids@.len() ==> id_is_empty_grad(d0, #[trigger] ids@[m]),
        forall|t: u64| #[trigger] id_is_empty_grad(d0, t) ==> ids@.contains(t),
    ensures
        final(doc).nodes@.len() == old(doc).nodes@.len(),
        forall|m: int|
            0 <= m < old(doc).nodes@.len() && m != j ==> final(doc).nodes@[m] == old(doc).nodes@[m],
        final(doc).nodes@[j as int].tag == old(doc).nodes@[j as int].tag,
        final(doc).nodes@[j as int].id == old(doc).nodes@[j as int].id,
        final(doc).nodes@[j as int].parent == old(doc).nodes@[j as int].parent,
        final(doc).nodes@[j as int].alive == old(doc).nodes@[j as int].alive,
        final(doc).nodes@[j as int].attrs@ == none_mapped(d0, d0.nodes@[j as int].attrs@),
        unique_keys(final(doc).nodes@[j as int].attrs@),
{
    let ghost a0 = doc.nodes@[j as int].attrs@;
    let an = doc.nodes[j].attrs.len();
    let mut k: usize = 0;
    while k < an
        invariant
            k <= an,
            an == a0.len(),
            doc.nodes@.len() == old(doc).nodes@.len(),
            forall|m: int|
                0 <= m < old(doc).nodes@.len() && m != j ==> doc.nodes@[m] == old(doc).nodes@[m],
            doc.nodes@[j as int].tag == old(doc).nodes@[j as int].tag,
            doc.nodes@[j as int].id == old(doc).nodes@[j as int].id,
            doc.nodes@[j as int].parent == old(doc).nodes@[j as int].parent,
            doc.nodes@[j as int].alive == old(doc).nodes@[j as int].alive,
            doc.nodes@[j as int].attrs@.len() == an,
            forall|x: int|
                0 <= x < k ==> (#[trigger] doc.nodes@[j as int].attrs@[x]) == (if empty_target(
                    d0,
                    a0[x],
                ) {
                    none_attr(a0[x])
                } else {
                    a0[x]
                }),
            forall|x: int| k <= x < an ==> (#[trigger] doc.nodes@[j as int].attrs@[x]) == a0[x],
        decreases an - k,
    {
        let hit = match &doc.nodes[j].attrs[k].val {
            AttrValue::Link(t) => id_in(ids, *t),
            AttrValue::FuncLink(t) => id_in(ids, *t),
            _ => false,
        };
        proof {
            assert(hit == empty_target(d0, a0[k as int])) by {
                match a0[k as int].val {
                    AttrValue::Link(t) => {
                        if ids@.contains(t) {
                            let m = choose|m: int|
                                0 <= m < ids@.len() && (#[trigger] ids@[m]) == t;
                            assert(id_is_empty_grad(d0, t));
                        }
                    },
                    AttrValue::FuncLink(t) => {
                        if ids@.contains(t) {
                            let m = choose|m: int|
                                0 <= m < ids@.len() && (#[trigger] ids@[m]) == t;
                            assert(id_is_empty_grad(d0, t));
                        }
                    },
                    _ => {},
                }
            }
        }
        if hit {
            let key = doc.nodes[j].attrs[k].key;
            doc.nodes[j].attrs[k] = Attr { key, val: AttrValue::Keyword(Keyword::NoneKw) };
        }
        k = k + 1;
    }
    proof {
        assert(doc.nodes@[j as int].attrs@ =~= none_mapped(d0, a0));
        let r = doc.nodes@[j as int].attrs@;
        assert forall|x1: int, x2: int|
            #![trigger r[x1], r[x2]]
            0 <= x1 < x2 < r.len() implies r[x1].key != r[x2].key by {
            assert(r[x1].key == a0[x1].key);
            assert(r[x2].key == a0[x2].key);
        }
    }
}

/// Collapse paint servers: an empty gradient has every referrer's links
/// rewritten to `none`; a single-stop gradient has them rewritten to the
/// stop's solid color, with a companion opacity attribute when the stop
/// opacity is not fuzzy-equal to one. The collapsed servers are removed.
#[verifier::loop_isolation(false)]
#[verifier::rlimit(100)]
pub fn process_gradients(doc: &mut Document) -> (removed: bool)
    requires
        wf(*old(doc)),
    ensures
        wf(*final(doc)),
        grad_rel(*old(doc), *final(doc), removed),
{
    let ghost d0 = *doc;
    let n = doc.nodes.len();
    // Empty paint servers and their identifiers.
    let mut ids: Vec<u64> = Vec::new();
    let mut rcands: Vec<usize> = Vec::new();
    let mut i: usize = 0;
    while i < n
        invariant
            *doc == d0,
            n == d0.nodes@.len(),
            i <= n,
            forall|m: int| 0 <= m < ids@.len() ==> id_is_empty_grad(d0, #[trigger] ids@[m]),
            forall|m: int|
                0 <= m < rcands@.len() ==> (#[trigger] rcands@[m]) < n && grad_empty_cand(
                    d0,
                    rcands@[m] as int,
                ),
            forall|k: int|
                #![trigger grad_empty_cand(d0, k)]
                0 <= k < i && grad_empty_cand(d0, k) ==> (match d0.nodes@[k].id {
                    Option::Some(idv) => ids@.contains(idv),
                    Option::None => true,
                }) && exists|m: int|
                    0 <= m < rcands@.len() && (#[trigger] rcands@[m]) == k as usize,
        decreases n - i,
    {
        let counted = live_children(doc, i);
        let nohref = match get_attr(&doc.nodes[i], AttrKey::XlinkHref) {
            Option::Some(_) => false,
            Option::None => true,
        };
        let gt = doc.nodes[i].tag == Tag::LinearGradient || doc.nodes[i].tag
            == Tag::RadialGradient;
        let ec = doc.nodes[i].alive && gt && nohref && counted.0 == 0;
        proof {
            assert(ec == grad_empty_cand(d0, i as int));
        }
        if ec {
            let ghost cpre = rcands@;
            let ghost ipre = ids@;
            rcands.push(i);
            match doc.nodes[i].id {
                Option::Some(idv) => {
                    ids.push(idv);
                },
                Option::None => {},
            }
            proof {
                assert(forall|m: int| 0 <= m < cpre.len() ==> (#[trigger] rcands@[m]) == cpre[m]);
                assert(rcands@[cpre.len() as int] == i as usize);
                assert(forall|m: int| 0 <= m < ipre.len() ==> (#[trigger] ids@[m]) == ipre[m]);
                assert forall|k: int|
                    #![trigger grad_empty_cand(d0, k)]
                    0 <= k < i + 1 && grad_empty_cand(d0, k) implies (match d0.nodes@[k].id {
                    Option::Some(idv) => ids@.contains(idv),
                    Option::None => true,
                }) && exists|m: int|
                    0 <= m < rcands@.len() && (#[trigger] rcands@[m]) == k as usize by {
                    if k == i as int {
                        assert(rcands@[cpre.len() as int] == k as usize);
                        match d0.nodes@[k].id {
                            Option::Some(idv) => {
                                assert(ids@[ipre.len() as int] == idv);
                            },
                            Option::None => {},
                        }
                    } else {
                        let m = choose|m: int|
                            0 <= m < cpre.len() && (#[trigger] cpre[m]) == k as usize;
                        assert(rcands@[m] == k as usize);
                        match d0.nodes@[k].id {
                            Option::Some(idv) => {
                                let m2 = choose|m2: int|
                                    0 <= m2 < ipre.len() && (#[trigger] ipre[m2]) == idv;
                                assert(ids@[m2] == idv);
                            },
                            Option::None => {},
                        }
                    }
                }
            }
        }
        i = i + 1;
    }
    proof {
        assert forall|t: u64| #[trigger] id_is_empty_grad(d0, t) implies ids@.contains(t) by {
            let i2 = choose|i2: int|
                #[trigger] grad_empty_cand(d0, i2) && d0.nodes@[i2].id == Option::Some(t);
        }
    }
    // Rewrite every live node's links to empty paint servers.
    let mut j: usize = 0;
    while j < n
        invariant
            n == doc.nodes@.len(),
            n == d0.nodes@.len(),
            j <= n,
            wf(*doc),
            same_skeleton(d0, *doc),
            forall|m: int| 0 <= m < ids@.len() ==> id_is_empty_grad(d0, #[trigger] ids@[m]),
            forall|t: u64| #[trigger] id_is_empty_grad(d0, t) ==> ids@.contains(t),
            forall|jj: int|
                #![trigger doc.nodes@[jj].alive]
                0 <= jj < n ==> doc.nodes@[jj].alive == d0.nodes@[jj].alive,
            forall|jj: int|
                #![trigger doc.nodes@[jj].attrs]
                0 <= jj < j ==> doc.nodes@[jj].attrs@ == (if d0.nodes@[jj].alive {
                    none_mapped(d0, d0.nodes@[jj].attrs@)
                } else {
                    d0.nodes@[jj].attrs@
                }),
            forall|jj: int|
                #![trigger doc.nodes@[jj].attrs]
                j <= jj < n ==> doc.nodes@[jj].attrs@ == d0.nodes@[jj].attrs@,
        decreases n - j,
    {
        if doc.nodes[j].alive {
            none_rewrite_node(doc, j, &ids, Ghost(d0));
        }
        j = j + 1;
    }
    let ghost m1 = *doc;
    proof {
        assert(grad_none_rel(d0, m1));
    }
    // Single-stop candidates of the rewritten state, with their values.
    let mut trips: Vec<(u64, Color, i64)> = Vec::new();
    let mut scands: Vec<usize> = Vec::new();
    let mut i: usize = 0;
    while i < n
        invariant
            *doc == m1,
            n == m1.nodes@.len(),
            i <= n,
            single_triples(m1, 0) == trips@ + single_triples(m1, i as int),
            forall|m: int|
                0 <= m < scands@.len() ==> (#[trigger] scands@[m]) < n && grad_single_cand(
                    m1,
                    scands@[m] as int,
                ),
            forall|k: int|
                #![trigger grad_single_cand(m1, k)]
                0 <= k < i && grad_single_cand(m1, k) ==> exists|m: int|
                    0 <= m < scands@.len() && (#[trigger] scands@[m]) == k as usize,
        decreases n - i,
    {
        let counted = live_children(doc, i);
        let nohref = match get_attr(&doc.nodes[i], AttrKey::XlinkHref) {
            Option::Some(_) => false,
            Option::None => true,
        };
        let gt = doc.nodes[i].tag == Tag::LinearGradient || doc.nodes[i].tag
            == Tag::RadialGradient;
        let mut sc = false;
        let mut col = Color { red: 0, green: 0, blue: 0 };
        let mut op: i64 = 0;
        if doc.nodes[i].alive && gt && nohref && counted.0 == 1 {
            let c = counted.1;
            let colv = match get_attr(&doc.nodes[c], AttrKey::StopColor) {
                Option::Some(AttrValue::Color(cv)) => Option::Some(*cv),
                _ => Option::None,
            };
            let opv = match get_attr(&doc.nodes[c], AttrKey::StopOpacity) {
                Option::Some(AttrValue::Number(o)) => Option::Some(*o),
                _ => Option::None,
            };
            match (colv, opv) {
                (Option::Some(cv), Option::Some(o)) => {
                    sc = true;
                    col = cv;
                    op = o;
                },
                _ => {},
            }
        }
        proof {
            assert(sc == grad_single_cand(m1, i as int));
            if sc {
                assert(stop_vals(m1, first_live_child(m1, i, 0)) == Option::Some((col, op)));
            }
        }
        let ghost tpre = trips@;
        let ghost spre = scands@;
        if sc {
            scands.push(i);
            match doc.nodes[i].id {
                Option::Some(idv) => {
                    trips.push((idv, col, op));
                },
                Option::None => {},
            }
            proof {
                assert(forall|m: int| 0 <= m < spre.len() ==> (#[trigger] scands@[m]) == spre[m]);
                assert(scands@[spre.len() as int] == i as usize);
                assert forall|k: int|
                    #![trigger grad_single_cand(m1, k)]
                    0 <= k < i + 1 && grad_single_cand(m1, k) implies exists|m: int|
                    0 <= m < scands@.len() && (#[trigger] scands@[m]) == k as usize by {
                    if k == i as int {
                        assert(scands@[spre.len() as int] == k as usize);
                    } else {
                        let m = choose|m: int|
                            0 <= m < spre.len() && (#[trigger] spre[m]) == k as usize;
                        assert(scands@[m] == k as usize);
                    }
                }
            }
        }
        proof {
            match m1.nodes@[i as int].id {
                Option::Some(idv) => {
                    if sc {
                        assert(single_triples(m1, i as int) == seq![(idv, col, op)]
                            + single_triples(m1, i as int + 1));
                        assert(trips@ =~= tpre.push((idv, col, op)));
                        assert(tpre + single_triples(m1, i as int) =~= trips@ + single_triples(
                            m1,
                            i as int + 1,
                        ));
                    } else {
                        assert(single_triples(m1, i as int) == single_triples(m1, i as int + 1));
                    }
                },
                Option::None => {
                    assert(single_triples(m1, i as int) == single_triples(m1, i as int + 1));
                },
            }
        }
        i = i + 1;
    }
    proof {
        assert(single_triples(m1, n as int) =~= Seq::<(u64, Color, i64)>::empty());
        assert(trips@ + single_triples(m1, n as int) =~= trips@);
        assert(trips@ == single_triples(m1, 0));
    }
    // Apply the single-stop collapses, one candidate at a time.
    let tn = trips.len();
    let mut t: usize = 0;
    while t < tn
        invariant
            t <= tn,
            tn == trips@.len(),
            trips@ == single_triples(m1, 0),
            n == doc.nodes@.len(),
            n == m1.nodes@.len(),
            wf(*doc),
            same_skeleton(m1, *doc),
            forall|jj: int|
                #![trigger doc.nodes@[jj].alive]
                0 <= jj < n ==> doc.nodes@[jj].alive == m1.nodes@[jj].alive,
            forall|jj: int|
                #![trigger doc.nodes@[jj].attrs]
                0 <= jj < n ==> doc.nodes@[jj].attrs@ == (if m1.nodes@[jj].alive {
                    fold_singles(m1.nodes@[jj].attrs@, trips@.take(t as int))
                } else {
                    m1.nodes@[jj].attrs@
                }),
        decreases tn - t,
    {
        let trip = trips[t];
        let mut j: usize = 0;
        while j < n
            invariant
                t < tn,
                tn == trips@.len(),
                trips@ == single_triples(m1, 0),
                trip == trips@[t as int],
                j <= n,
                n == doc.nodes@.len(),
                n == m1.nodes@.len(),
                wf(*doc),
                same_skeleton(m1, *doc),
                forall|jj: int|
                    #![trigger doc.nodes@[jj].alive]
                    0 <= jj < n ==> doc.nodes@[jj].alive == m1.nodes@[jj].alive,
                forall|jj: int|
                    #![trigger doc.nodes@[jj].attrs]
                    0 <= jj < j ==> doc.nodes@[jj].attrs@ == (if m1.nodes@[jj].alive {
                        fold_singles(m1.nodes@[jj].attrs@, trips@.take(t as int + 1))
                    } else {
                        m1.nodes@[jj].attrs@
                    }),
                forall|jj: int|
                    #![trigger doc.nodes@[jj].attrs]
                    j <= jj < n ==> doc.nodes@[jj].attrs@ == (if m1.nodes@[jj].alive {
                        fold_singles(m1.nodes@[jj].attrs@, trips@.take(t as int))
                    } else {
                        m1.nodes@[jj].attrs@
                    }),
            decreases n - j,
        {
            if doc.nodes[j].alive {
                apply_single_node(doc, j, trip.0, trip.1, trip.2);
                proof {
                    lemma_fold_snoc(m1.nodes@[j as int].attrs@, trips@.take(t as int), trip);
                    assert(trips@.take(t as int + 1) =~= trips@.take(t as int).push(trip));
                }
            }
            j = j + 1;
        }
        t = t + 1;
    }
    let ghost m2 = *doc;
    proof {
        assert(trips@.take(tn as int) =~= trips@);
        assert(grad_single_rel(m1, m2));
    }
    // Remove the collapsed paint servers: the empty candidates and the
    // single-stop candidates.
    let ghost epre = rcands@;
    let mut si: usize = 0;
    while si < scands.len()
        invariant
            si <= scands@.len(),
            *doc == m2,
            n == d0.nodes@.len(),
            rcands@.len() == epre.len() + si,
            forall|m: int| 0 <= m < epre.len() ==> (#[trigger] rcands@[m]) == epre[m],
            forall|m: int|
                epre.len() <= m < rcands@.len() ==> (#[trigger] rcands@[m]) == scands@[m
                    - epre.len()],
            forall|m: int|
                0 <= m < scands@.len() ==> (#[trigger] scands@[m]) < n && grad_single_cand(
                    m1,
                    scands@[m] as int,
                ),
        decreases scands@.len() - si,
    {
        rcands.push(scands[si]);
        si = si + 1;
    }
    let removed = rcands.len() > 0;
    proof {
        assert forall|m: int|
            0 <= m < rcands@.len() implies (#[trigger] rcands@[m]) < n && (grad_empty_cand(
            d0,
            rcands@[m] as int,
        ) || grad_single_cand(m1, rcands@[m] as int)) by {
            if m < epre.len() {
                assert(rcands@[m] == epre[m]);
            } else {
                assert(rcands@[m] == scands@[m - epre.len()]);
            }
        }
    }
    remove_all(doc, &rcands);
    proof {
        let ps2 = parent_seq(m2);
        let ps0 = parent_seq(d0);
        assert(same_skeleton(d0, m2));
        assert(ps2 =~= ps0);
        if removed {
            assert(grad_empty_cand(d0, rcands@[0] as int) || grad_single_cand(
                m1,
                rcands@[0] as int,
            ));
        } else {
            assert forall|i2: int| !(#[trigger] grad_empty_cand(d0, i2)) by {
                if grad_empty_cand(d0, i2) {
                    assert(exists|m: int|
                        0 <= m < epre.len() && (#[trigger] epre[m]) == i2 as usize);
                }
            }
            assert forall|i2: int| !(#[trigger] grad_single_cand(m1, i2)) by {
                if grad_single_cand(m1, i2) {
                    assert(exists|m: int|
                        0 <= m < scands@.len() && (#[trigger] scands@[m]) == i2 as usize);
                }
            }
        }
        assert forall|j2: int|
            #![trigger doc.nodes@[j2].alive]
            0 <= j2 < d0.nodes@.len() implies doc.nodes@[j2].alive == (m2.nodes@[j2].alive
            && !grad_doomed(d0, m1, j2)) by {
            if doomed_by(ps2, rcands@, j2) {
                let m = choose|m: int|
                    0 <= m < rcands@.len() && in_subtree_p(ps2, (#[trigger] rcands@[m]) as int, j2);
                let x = rcands@[m] as int;
                assert(grad_empty_cand(d0, x) || grad_single_cand(m1, x));
                assert(in_subtree(d0, x, j2));
                assert(grad_doomed(d0, m1, j2));
            }
            if grad_doomed(d0, m1, j2) {
                let c = choose|c: int|
                    (grad_empty_cand(d0, c) || grad_single_cand(m1, c)) && #[trigger] in_subtree(
                        d0,
                        c,
                        j2,
                    );
                if grad_empty_cand(d0, c) {
                    let m = choose|m: int|
                        0 <= m < epre.len() && (#[trigger] epre[m]) == c as usize;
                    assert(rcands@[m] == c as usize);
                    assert(in_subtree_p(ps2, rcands@[m] as int, j2));
                } else {
                    let m = choose|m: int|
                        0 <= m < scands@.len() && (#[trigger] scands@[m]) == c as usize;
                    assert(rcands@[m + epre.len()] == c as usize);
                    assert(in_subtree_p(ps2, rcands@[m + epre.len()] as int, j2));
                }
                assert(doomed_by(ps2, rcands@, j2));
            }
        }
        assert(grad_none_rel(d0, m1) && grad_single_rel(m1, m2));
    }
    removed
}

/// The value found under `key` after colorizing: the key is looked up in
/// the original attributes and its value rewritten when it links to `id`.
pub proof fn lemma_attr_of_colorized(attrs: Seq<Attr>, id: u64, col: Color, key: AttrKey)
    ensures
        attr_of(attrs.map_values(|a: Attr| colorize_attr(a, id, col)), key) == match attr_of(
            attrs,
            key,
        ) {
            Option::Some(v) => Option::Some(
                if v == AttrValue::Link(id) || v == AttrValue::FuncLink(id) {
                    AttrValue::Color(col)
                } else {
                    v
                },
            ),
            Option::None => Option::<AttrValue>::None,
        },
{
    lemma_search_colorized(attrs, id, col, key, 0);
}

proof fn lemma_search_colorized(attrs: Seq<Attr>, id: u64, col: Color, key: AttrKey, from: int)
    requires
        0 <= from,
    ensures
        attr_search(attrs.map_values(|a: Attr| colorize_attr(a, id, col)), key, from)
            == match attr_search(attrs, key, from) {
            Option::Some(v) => Option::Some(
                if v == AttrValue::Link(id) || v == AttrValue::FuncLink(id) {
                    AttrValue::Color(col)
                } else {
                    v
                },
            ),
            Option::None => Option::<AttrValue>::None,
        },
    decreases attrs.len() - from,
{
    if from < attrs.len() {
        lemma_search_colorized(attrs, id, col, key, from + 1);
    }
}

} // verus!
