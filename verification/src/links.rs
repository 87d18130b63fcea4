//! Reference resolution: finding link attributes on a referrer and
//! rewriting them when a paint server collapses.

use vstd::prelude::*;
use crate::model::{attr_links_to, attr_of, attr_search, links_to, unique_keys, Attr, AttrKey, AttrValue, Document, Node};

verus! {

/// Key of the first attribute at or after `from` that links to `id`.
pub open spec fn link_key_search(attrs: Seq<Attr>, id: u64, from: int) -> Option<AttrKey>
    decreases attrs.len() - from,
{
    if from < 0 || from >= attrs.len() {
        Option::None
    } else if attr_links_to(attrs[from], id) {
        Option::Some(attrs[from].key)
    } else {
        link_key_search(attrs, id, from + 1)
    }
}

/// Index of the first attribute at or after `from` with key `key`, else -1.
pub open spec fn key_index(attrs: Seq<Attr>, key: AttrKey, from: int) -> int
    decreases attrs.len() - from,
{
    if from < 0 || from >= attrs.len() {
        -1
    } else if attrs[from].key == key {
        from
    } else {
        key_index(attrs, key, from + 1)
    }
}

/// A negative `key_index` means the key is absent from the tail.
pub proof fn lemma_key_index_none(attrs: Seq<Attr>, key: AttrKey, from: int)
    requires
        0 <= from,
        key_index(attrs, key, from) < 0,
    ensures
        forall|k: int| from <= k < attrs.len() ==> (#[trigger] attrs[k]).key != key,
    decreases attrs.len() - from,
{
    if 0 <= from < attrs.len() {
        lemma_key_index_none(attrs, key, from + 1);
    }
}

/// Replace the value under `key`, or append the attribute when absent.
pub open spec fn upsert(attrs: Seq<Attr>, key: AttrKey, val: AttrValue) -> Seq<Attr> {
    let i = key_index(attrs, key, 0);
    if i >= 0 {
        attrs.update(i, Attr { key, val })
    } else {
        attrs.push(Attr { key, val })
    }
}

/// Upsert keeps keys unique.
pub proof fn lemma_upsert_unique(attrs: Seq<Attr>, key: AttrKey, val: AttrValue)
    requires
        unique_keys(attrs),
    ensures
        unique_keys(upsert(attrs, key, val)),
{
    let i = key_index(attrs, key, 0);
    let r = upsert(attrs, key, val);
    if i >= 0 {
        lemma_key_index_at(attrs, key, 0);
        assert forall|k1: int, k2: int|
            #![trigger r[k1], r[k2]]
            0 <= k1 < k2 < r.len() implies r[k1].key != r[k2].key by {
            assert(attrs[k1].key != attrs[k2].key);
            assert(r[k1].key == attrs[k1].key);
            assert(r[k2].key == attrs[k2].key);
        }
    } else {
        lemma_key_index_none(attrs, key, 0);
        assert forall|k1: int, k2: int|
            #![trigger r[k1], r[k2]]
            0 <= k1 < k2 < r.len() implies r[k1].key != r[k2].key by {
            if k2 < attrs.len() {
                assert(attrs[k1].key != attrs[k2].key);
            } else {
                assert(r[k2].key == key);
                assert(attrs[k1].key != key);
            }
        }
    }
}

/// A non-negative `key_index` points at the key.
pub proof fn lemma_key_index_at(attrs: Seq<Attr>, key: AttrKey, from: int)
    requires
        key_index(attrs, key, from) >= 0,
    ensures
        from <= key_index(attrs, key, from) < attrs.len(),
        attrs[key_index(attrs, key, from)].key == key,
    decreases attrs.len() - from,
{
    if 0 <= from < attrs.len() && attrs[from].key != key {
        lemma_key_index_at(attrs, key, from + 1);
    }
}

/// Key of the first attribute on `node` that links to `id`, scanning the
/// attributes in order, as the rewriting loop of the paint-server rule does.
pub fn find_link_attribute(node: &Node, id: u64) -> (r: Option<AttrKey>)
    ensures
        r == link_key_search(node.attrs@, id, 0),
        r is None <==> !links_to(*node, id),
{
    let mut i: usize = 0;
    #[verifier::loop_isolation(false)]
    while i < node.attrs.len()
        invariant
            i <= node.attrs@.len(),
            link_key_search(node.attrs@, id, i as int) == link_key_search(node.attrs@, id, 0),
            forall|k: int| 0 <= k < i ==> !attr_links_to(#[trigger] node.attrs@[k], id),
        decreases node.attrs@.len() - i,
    {
        let hit = match &node.attrs[i].val {
            AttrValue::Link(t) => *t == id,
            AttrValue::FuncLink(t) => *t == id,
            _ => false,
        };
        if hit {
            assert(attr_links_to(node.attrs@[i as int], id));
            return Option::Some(node.attrs[i].key);
        }
        i = i + 1;
    }
    Option::None
}

/// Replace the value under `key` on node `j`, or append it when absent.
/// Everything else in the document is untouched.
#[verifier::loop_isolation(false)]
pub fn upsert_attr(doc: &mut Document, j: usize, key: AttrKey, val: AttrValue)
    requires
        j < old(doc).nodes@.len(),
    ensures
        final(doc).nodes@.len() == old(doc).nodes@.len(),
        forall|m: int|
            0 <= m < old(doc).nodes@.len() && m != j ==> final(doc).nodes@[m] == old(doc).nodes@[m],
        final(doc).nodes@[j as int].tag == old(doc).nodes@[j as int].tag,
        final(doc).nodes@[j as int].id == old(doc).nodes@[j as int].id,
        final(doc).nodes@[j as int].parent == old(doc).nodes@[j as int].parent,
        final(doc).nodes@[j as int].alive == old(doc).nodes@[j as int].alive,
        final(doc).nodes@[j as int].attrs@ == upsert(old(doc).nodes@[j as int].attrs@, key, val),
{
    let ghost a0 = doc.nodes@[j as int].attrs@;
    let mut i: usize = 0;
    let n = doc.nodes[j].attrs.len();
    while i < n
        invariant
            *doc == *old(doc),
            n == a0.len(),
            i <= n,
            key_index(a0, key, i as int) == key_index(a0, key, 0),
        decreases n - i,
    {
        if doc.nodes[j].attrs[i].key == key {
            doc.nodes[j].attrs[i] = Attr { key, val };
            proof {
                assert(final(doc).nodes@[j as int].attrs@ =~= upsert(a0, key, val));
            }
            return ;
        }
        i = i + 1;
    }
    doc.nodes[j].attrs.push(Attr { key, val });
    proof {
        assert(final(doc).nodes@[j as int].attrs@ =~= upsert(a0, key, val));
    }
}

/// Before the first occurrence of `key`, no attribute has that key.
pub proof fn lemma_key_index_prefix(attrs: Seq<Attr>, key: AttrKey, from: int)
    requires
        0 <= from,
        key_index(attrs, key, from) >= 0,
    ensures
        forall|x: int|
            from <= x < key_index(attrs, key, from) ==> (#[trigger] attrs[x]).key != key,
    decreases attrs.len() - from,
{
    if from < attrs.len() && attrs[from].key != key {
        lemma_key_index_prefix(attrs, key, from + 1);
    }
}

/// After an upsert, the upserted key reads the new value.
pub proof fn lemma_attr_of_upsert_same(attrs: Seq<Attr>, key: AttrKey, val: AttrValue)
    ensures
        attr_of(upsert(attrs, key, val), key) == Option::Some(val),
{
    let i = key_index(attrs, key, 0);
    if i >= 0 {
        lemma_key_index_at(attrs, key, 0);
        lemma_key_index_prefix(attrs, key, 0);
        lemma_search_update_hit(attrs, key, val, 0);
    } else {
        lemma_key_index_none(attrs, key, 0);
        lemma_search_push_hit(attrs, key, val, 0);
    }
}

proof fn lemma_search_update_hit(attrs: Seq<Attr>, key: AttrKey, val: AttrValue, from: int)
    requires
        0 <= from <= key_index(attrs, key, 0) < attrs.len(),
        attrs[key_index(attrs, key, 0)].key == key,
        forall|x: int| 0 <= x < key_index(attrs, key, 0) ==> (#[trigger] attrs[x]).key != key,
    ensures
        attr_search(attrs.update(key_index(attrs, key, 0), Attr { key, val }), key, from)
            == Option::Some(val),
    decreases attrs.len() - from,
{
    let i = key_index(attrs, key, 0);
    if from < i {
        lemma_search_update_hit(attrs, key, val, from + 1);
    }
}

proof fn lemma_search_push_hit(attrs: Seq<Attr>, key: AttrKey, val: AttrValue, from: int)
    requires
        0 <= from <= attrs.len(),
        forall|x: int| 0 <= x < attrs.len() ==> (#[trigger] attrs[x]).key != key,
    ensures
        attr_search(attrs.push(Attr { key, val }), key, from) == Option::Some(val),
    decreases attrs.len() - from,
{
    if from < attrs.len() {
        lemma_search_push_hit(attrs, key, val, from + 1);
    }
}

/// An upsert leaves every other key's value alone.
pub proof fn lemma_attr_of_upsert_other(
    attrs: Seq<Attr>,
    key: AttrKey,
    val: AttrValue,
    other: AttrKey,
)
    requires
        other != key,
    ensures
        attr_of(upsert(attrs, key, val), other) == attr_of(attrs, other),
{
    let i = key_index(attrs, key, 0);
    if i >= 0 {
        lemma_key_index_at(attrs, key, 0);
        lemma_search_update_other(attrs, key, val, other, 0);
    } else {
        lemma_search_push_other(attrs, key, val, other, 0);
    }
}

proof fn lemma_search_update_other(
    attrs: Seq<Attr>,
    key: AttrKey,
    val: AttrValue,
    other: AttrKey,
    from: int,
)
    requires
        other != key,
        0 <= from,
        0 <= key_index(attrs, key, 0) < attrs.len(),
        attrs[key_index(attrs, key, 0)].key == key,
    ensures
        attr_search(attrs.update(key_index(attrs, key, 0), Attr { key, val }), other, from)
            == attr_search(attrs, other, from),
    decreases attrs.len() - from,
{
    if from < attrs.len() {
        lemma_search_update_other(attrs, key, val, other, from + 1);
    }
}

proof fn lemma_search_push_other(
    attrs: Seq<Attr>,
    key: AttrKey,
    val: AttrValue,
    other: AttrKey,
    from: int,
)
    requires
        other != key,
        0 <= from,
    ensures
        attr_search(attrs.push(Attr { key, val }), other, from) == attr_search(
            attrs,
            other,
            from,
        ),
    decreases attrs.len() + 1 - from,
{
    if from <= attrs.len() {
        lemma_search_push_other(attrs, key, val, other, from + 1);
    }
}

/// With unique keys, the attribute found under `key` is the one at any
/// index carrying that key.
pub proof fn lemma_attr_of_unique_at(attrs: Seq<Attr>, key: AttrKey, k: int)
    requires
        unique_keys(attrs),
        0 <= k < attrs.len(),
        attrs[k].key == key,
    ensures
        attr_of(attrs, key) == Option::Some(attrs[k].val),
{
    lemma_search_unique_at(attrs, key, k, 0);
}

proof fn lemma_search_unique_at(attrs: Seq<Attr>, key: AttrKey, k: int, from: int)
    requires
        unique_keys(attrs),
        0 <= from <= k < attrs.len(),
        attrs[k].key == key,
    ensures
        attr_search(attrs, key, from) == Option::Some(attrs[k].val),
    decreases attrs.len() - from,
{
    if attrs[from].key == key {
        assert(from == k);
    } else {
        lemma_search_unique_at(attrs, key, k, from + 1);
    }
}

} // verus!
