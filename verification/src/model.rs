//! The document model: nodes, typed attribute values, and the spec-level
//! view of liveness, subtrees and references.
//!
//! A document is an arena of nodes. Each node keeps an index to its parent
//! (always smaller than its own index, so ancestor chains terminate), an
//! `alive` flag (removal marks a whole subtree dead and never reuses slots),
//! a tag, an optional integer identifier, and an ordered list of typed
//! attributes with unique keys. Numeric attribute values are fixed-point:
//! an `i64` counting millionths, so an opacity of one is `1_000_000`.

use vstd::prelude::*;

verus! {

/// Element kind of a node.
#[derive(Clone, Copy, PartialEq, Eq, Structural, Debug)]
pub enum Tag {
    Svg,
    G,
    Defs,
    ClipPath,
    Path,
    Text,
    Use,
    Filter,
    FeColorMatrix,
    LinearGradient,
    RadialGradient,
    Rect,
    Circle,
    Ellipse,
    Line,
    Polyline,
    Polygon,
    Stop,
    Other,
}

/// Attribute kind; keys are unique on a node.
#[derive(Clone, Copy, PartialEq, Eq, Structural, Debug)]
pub enum AttrKey {
    Display,
    D,
    XlinkHref,
    ClipPath,
    Filter,
    Fill,
    Stroke,
    FillOpacity,
    StrokeOpacity,
    StopColor,
    StopOpacity,
    Type,
    Values,
    Width,
    Height,
    Offset,
}

/// Unit of a length value. `Unitless` stands for a bare number.
#[derive(Clone, Copy, PartialEq, Eq, Structural, Debug)]
pub enum Unit {
    Unitless,
    Px,
    Em,
    Ex,
    Percent,
    Cm,
    Mm,
    In,
    Pt,
    Pc,
}

/// A number with a unit; `num` is fixed-point (millionths).
#[derive(Clone, Copy, PartialEq, Eq, Structural, Debug)]
pub struct Length {
    pub num: i64,
    pub unit: Unit,
}

/// An RGB color.
#[derive(Clone, Copy, PartialEq, Eq, Structural, Debug)]
pub struct Color {
    pub red: u8,
    pub green: u8,
    pub blue: u8,
}

/// Enumerated keyword values; `NoneKw` is the keyword `none`.
#[derive(Clone, Copy, PartialEq, Eq, Structural, Debug)]
pub enum Keyword {
    NoneKw,
    Inline,
    Inherit,
}

/// One segment of path geometry; coordinates are fixed-point (millionths).
#[derive(Clone, Copy, PartialEq, Eq, Structural, Debug)]
pub enum PathSeg {
    MoveTo { x: i64, y: i64 },
    LineTo { x: i64, y: i64 },
    ClosePath,
}

/// A typed attribute value. `Link` and `FuncLink` name another node by its
/// integer identifier and are non-owning.
#[verifier::ext_equal]
#[derive(Clone, PartialEq, Eq, Debug)]
pub enum AttrValue {
    Number(i64),
    Length(Length),
    Color(Color),
    Text(Vec<u8>),
    Path(Vec<PathSeg>),
    Keyword(Keyword),
    Link(u64),
    FuncLink(u64),
}

/// One attribute: a key and a typed value.
#[verifier::ext_equal]
#[derive(Clone, PartialEq, Eq, Debug)]
pub struct Attr {
    pub key: AttrKey,
    pub val: AttrValue,
}

/// One element of the document tree.
#[verifier::ext_equal]
#[derive(Clone, PartialEq, Eq, Debug)]
pub struct Node {
    pub tag: Tag,
    pub id: Option<u64>,
    pub parent: Option<usize>,
    pub alive: bool,
    pub attrs: Vec<Attr>,
}

/// A document: an arena of nodes. Node 0, if present, is the root.
#[verifier::ext_equal]
#[derive(Clone, PartialEq, Eq, Debug)]
pub struct Document {
    pub nodes: Vec<Node>,
}

/// Fixed-point scale: one in millionths.
pub const OPACITY_ONE: i64 = 1000000;

/// Tolerance of the fuzzy comparison used for opacities.
pub const FUZZY_EPS: i64 = 1;

/// Fuzzy equality on fixed-point numbers: within `FUZZY_EPS` millionths.
pub open spec fn spec_fuzzy_eq(a: i64, b: i64) -> bool {
    -(FUZZY_EPS as int) <= a - b <= FUZZY_EPS as int
}

/// Fuzzy equality, executable form.
pub fn fuzzy_eq(a: i64, b: i64) -> (r: bool)
    ensures
        r == spec_fuzzy_eq(a, b),
{
    let d: i128 = (a as i128) - (b as i128);
    -(FUZZY_EPS as i128) <= d && d <= FUZZY_EPS as i128
}

/// Does this attribute hold a link (of either kind) to `id`?
pub open spec fn attr_links_to(a: Attr, id: u64) -> bool {
    a.val == AttrValue::Link(id) || a.val == AttrValue::FuncLink(id)
}

/// Does this node hold any link attribute to `id`?
pub open spec fn links_to(n: Node, id: u64) -> bool {
    exists|k: int| 0 <= k < n.attrs@.len() && attr_links_to(#[trigger] n.attrs@[k], id)
}

/// Value of the first attribute with key `key`, searching from `from`.
pub open spec fn attr_search(attrs: Seq<Attr>, key: AttrKey, from: int) -> Option<AttrValue>
    decreases attrs.len() - from,
{
    if from < 0 || from >= attrs.len() {
        Option::None
    } else if attrs[from].key == key {
        Option::Some(attrs[from].val)
    } else {
        attr_search(attrs, key, from + 1)
    }
}

/// Value of the attribute with key `key`, if present.
pub open spec fn attr_of(attrs: Seq<Attr>, key: AttrKey) -> Option<AttrValue> {
    attr_search(attrs, key, 0)
}

/// Keys are pairwise distinct.
pub open spec fn unique_keys(attrs: Seq<Attr>) -> bool {
    forall|k1: int, k2: int|
        #![trigger attrs[k1], attrs[k2]]
        0 <= k1 < k2 < attrs.len() ==> attrs[k1].key != attrs[k2].key
}

/// The parent pointer of every node.
pub open spec fn parent_seq(doc: Document) -> Seq<Option<usize>> {
    doc.nodes@.map_values(|n: Node| n.parent)
}

/// Is node `j` in the subtree rooted at `anc` (including `anc` itself),
/// following parent pointers? Well defined because parents precede children.
pub open spec fn in_subtree_p(ps: Seq<Option<usize>>, anc: int, j: int) -> bool
    decreases j,
{
    if j == anc {
        true
    } else if 0 <= j && j < ps.len() {
        match ps[j] {
            Option::Some(p) => (p as int) < j && in_subtree_p(ps, anc, p as int),
            Option::None => false,
        }
    } else {
        false
    }
}

/// Subtree membership over a document.
pub open spec fn in_subtree(doc: Document, anc: int, j: int) -> bool {
    in_subtree_p(parent_seq(doc), anc, j)
}

/// Every parent index precedes its child.
pub open spec fn parents_ok(doc: Document) -> bool {
    forall|i: int|
        #![trigger doc.nodes@[i].parent]
        0 <= i < doc.nodes@.len() ==> match doc.nodes@[i].parent {
            Option::Some(p) => (p as int) < i,
            Option::None => true,
        }
}

/// A live node's parent is live: dead subtrees are closed downward.
pub open spec fn alive_closed(doc: Document) -> bool {
    forall|i: int|
        #![trigger doc.nodes@[i].parent]
        0 <= i < doc.nodes@.len() ==> match doc.nodes@[i].parent {
            Option::Some(p) => doc.nodes@[i].alive ==> doc.nodes@[p as int].alive,
            Option::None => true,
        }
}

/// Every node's attribute keys are unique.
pub open spec fn keys_ok(doc: Document) -> bool {
    forall|i: int|
        #![trigger doc.nodes@[i].attrs]
        0 <= i < doc.nodes@.len() ==> unique_keys(doc.nodes@[i].attrs@)
}

/// Well-formedness of a document.
pub open spec fn wf(doc: Document) -> bool {
    parents_ok(doc) && alive_closed(doc) && keys_ok(doc)
}

/// Is node `j`'s identifier referenced by any live node?
pub open spec fn node_used(doc: Document, j: int) -> bool {
    match doc.nodes@[j].id {
        Option::Some(id) => exists|k: int|
            0 <= k < doc.nodes@.len() && doc.nodes@[k].alive && #[trigger] links_to(
                doc.nodes@[k],
                id,
            ),
        Option::None => false,
    }
}

/// Is any live node of the subtree rooted at `i` referenced anywhere?
pub open spec fn subtree_used(doc: Document, i: int) -> bool {
    exists|j: int|
        0 <= j < doc.nodes@.len() && #[trigger] in_subtree(doc, i, j) && doc.nodes@[j].alive
            && node_used(doc, j)
}

/// Same length, tags, identifiers and parent pointers: the sweep never
/// reshapes the arena, it only clears `alive` flags and rewrites attributes.
pub open spec fn same_skeleton(d1: Document, d2: Document) -> bool {
    &&& d1.nodes@.len() == d2.nodes@.len()
    &&& forall|j: int|
        #![trigger d2.nodes@[j].tag]
        #![trigger d2.nodes@[j].id]
        #![trigger d2.nodes@[j].parent]
        0 <= j < d1.nodes@.len() ==> {
            &&& d2.nodes@[j].tag == d1.nodes@[j].tag
            &&& d2.nodes@[j].id == d1.nodes@[j].id
            &&& d2.nodes@[j].parent == d1.nodes@[j].parent
        }
}

/// Every node keeps its attributes, byte for byte.
pub open spec fn same_attrs(d1: Document, d2: Document) -> bool {
    forall|j: int|
        #![trigger d2.nodes@[j].attrs]
        0 <= j < d1.nodes@.len() ==> d2.nodes@[j].attrs@ == d1.nodes@[j].attrs@
}

/// Subtree membership is transitive.
pub proof fn lemma_subtree_trans(ps: Seq<Option<usize>>, a: int, m: int, j: int)
    requires
        in_subtree_p(ps, a, m),
        in_subtree_p(ps, m, j),
    ensures
        in_subtree_p(ps, a, j),
    decreases j,
{
    if j != m {
        match ps[j] {
            Option::Some(p) => {
                lemma_subtree_trans(ps, a, m, p as int);
            },
            Option::None => {},
        }
    }
}

// ---------------------------------------------------------------------------
// Executable queries
// ---------------------------------------------------------------------------

/// First attribute value with the given key, if any.
#[verifier::loop_isolation(false)]
pub fn get_attr(n: &Node, key: AttrKey) -> (r: Option<&AttrValue>)
    ensures
        match r {
            Option::Some(v) => attr_of(n.attrs@, key) == Option::Some(*v),
            Option::None => attr_of(n.attrs@, key) == Option::<AttrValue>::None,
        },
{
    let mut i: usize = 0;
    while i < n.attrs.len()
        invariant
            i <= n.attrs@.len(),
            attr_search(n.attrs@, key, i as int) == attr_of(n.attrs@, key),
        decreases n.attrs@.len() - i,
    {
        if n.attrs[i].key == key {
            return Option::Some(&n.attrs[i].val);
        }
        i = i + 1;
    }
    Option::None
}

/// Does the node hold a link attribute (of either kind) to `id`?
#[verifier::loop_isolation(false)]
pub fn node_links_to(n: &Node, id: u64) -> (r: bool)
    ensures
        r == links_to(*n, id),
{
    let mut i: usize = 0;
    while i < n.attrs.len()
        invariant
            i <= n.attrs@.len(),
            forall|k: int| 0 <= k < i ==> !attr_links_to(#[trigger] n.attrs@[k], id),
        decreases n.attrs@.len() - i,
    {
        let hit = match &n.attrs[i].val {
            AttrValue::Link(t) => *t == id,
            AttrValue::FuncLink(t) => *t == id,
            _ => false,
        };
        if hit {
            assert(attr_links_to(n.attrs@[i as int], id));
            return true;
        }
        i = i + 1;
    }
    false
}

/// Is `j` in the subtree rooted at `anc`?
#[verifier::loop_isolation(false)]
pub fn is_in_subtree(doc: &Document, anc: usize, j: usize) -> (r: bool)
    requires
        parents_ok(*doc),
        j < doc.nodes@.len(),
    ensures
        r == in_subtree(*doc, anc as int, j as int),
{
    let mut cur: usize = j;
    loop
        invariant
            parents_ok(*doc),
            cur < doc.nodes@.len(),
            in_subtree(*doc, anc as int, cur as int) == in_subtree(*doc, anc as int, j as int),
        decreases cur,
    {
        if cur == anc {
            return true;
        }
        match doc.nodes[cur].parent {
            Option::Some(p) => {
                assert(doc.nodes@[cur as int].parent == Option::Some(p));
                cur = p;
            },
            Option::None => {
                return false;
            },
        }
    }
}

/// Is node `j`'s identifier referenced by any live node?
#[verifier::loop_isolation(false)]
pub fn is_used(doc: &Document, j: usize) -> (r: bool)
    requires
        j < doc.nodes@.len(),
    ensures
        r == node_used(*doc, j as int),
{
    let id = match doc.nodes[j].id {
        Option::Some(id) => id,
        Option::None => {
            return false;
        },
    };
    let mut k: usize = 0;
    while k < doc.nodes.len()
        invariant
            k <= doc.nodes@.len(),
            doc.nodes@[j as int].id == Option::Some(id),
            forall|m: int|
                0 <= m < k ==> !(doc.nodes@[m].alive && #[trigger] links_to(doc.nodes@[m], id)),
        decreases doc.nodes@.len() - k,
    {
        if doc.nodes[k].alive && node_links_to(&doc.nodes[k], id) {
            return true;
        }
        k = k + 1;
    }
    false
}

/// Is any live node of the subtree rooted at `i` referenced anywhere?
#[verifier::loop_isolation(false)]
pub fn subtree_contains_used(doc: &Document, i: usize) -> (r: bool)
    requires
        parents_ok(*doc),
        i < doc.nodes@.len(),
    ensures
        r == subtree_used(*doc, i as int),
{
    let mut j: usize = 0;
    while j < doc.nodes.len()
        invariant
            j <= doc.nodes@.len(),
            forall|m: int|
                0 <= m < j ==> !(#[trigger] in_subtree(*doc, i as int, m) && doc.nodes@[m].alive
                    && node_used(*doc, m)),
        decreases doc.nodes@.len() - j,
    {
        if doc.nodes[j].alive && is_in_subtree(doc, i, j) && is_used(doc, j) {
            return true;
        }
        j = j + 1;
    }
    false
}

// ---------------------------------------------------------------------------
// Removal
// ---------------------------------------------------------------------------

/// Detach the subtree rooted at `root`: its nodes are marked dead and keep
/// their slots, so indices, tags, identifiers, parents and attributes are
/// untouched.
#[verifier::rlimit(100)]
#[verifier::loop_isolation(false)]
pub fn remove_subtree(doc: &mut Document, root: usize)
    requires
        wf(*old(doc)),
        root < old(doc).nodes@.len(),
    ensures
        wf(*final(doc)),
        same_skeleton(*old(doc), *final(doc)),
        same_attrs(*old(doc), *final(doc)),
        forall|j: int|
            #![trigger final(doc).nodes@[j].alive]
            0 <= j < old(doc).nodes@.len() ==> final(doc).nodes@[j].alive == (old(
                doc,
            ).nodes@[j].alive && !in_subtree(*old(doc), root as int, j)),
{
    let ghost d0 = *doc;
    let n = doc.nodes.len();
    let mut j: usize = 0;
    while j < n
        invariant
            n == doc.nodes@.len(),
            doc.nodes@.len() == d0.nodes@.len(),
            same_skeleton(d0, *doc),
            same_attrs(d0, *doc),
            parent_seq(*doc) == parent_seq(d0),
            forall|k: int|
                #![trigger doc.nodes@[k].alive]
                0 <= k < j ==> doc.nodes@[k].alive == (d0.nodes@[k].alive
                    && !in_subtree(d0, root as int, k)),
            forall|k: int|
                #![trigger doc.nodes@[k].alive]
                j <= k < n ==> doc.nodes@[k].alive == d0.nodes@[k].alive,
        decreases n - j,
    {
        let ins = is_in_subtree(doc, root, j);
        if ins && doc.nodes[j].alive {
            doc.nodes[j].alive = false;
        }
        proof {
            assert(parent_seq(*doc) =~= parent_seq(d0));
        }
        j = j + 1;
    }
    proof {
        assert(wf(*doc)) by {
            assert forall|i: int|
                #![trigger doc.nodes@[i].parent]
                0 <= i < doc.nodes@.len() implies match doc.nodes@[i].parent {
                Option::Some(p) => doc.nodes@[i].alive ==> doc.nodes@[p as int].alive,
                Option::None => true,
            } by {
                match doc.nodes@[i].parent {
                    Option::Some(p) => {
                        if doc.nodes@[i].alive {
                            assert(d0.nodes@[i].alive && !in_subtree(d0, root as int, i));
                            assert(d0.nodes@[p as int].alive);
                            // A doomed parent would doom the child too.
                            if in_subtree(d0, root as int, p as int) {
                                assert(in_subtree_p(parent_seq(d0), root as int, i));
                            }
                        }
                    },
                    Option::None => {},
                }
            }
        }
    }
}

/// Every node that lies under some candidate in `cands`.
pub open spec fn doomed_by(ps: Seq<Option<usize>>, cands: Seq<usize>, j: int) -> bool {
    exists|m: int| 0 <= m < cands.len() && in_subtree_p(ps, (#[trigger] cands[m]) as int, j)
}

/// Remove the subtree of every node listed in `cands`.
#[verifier::rlimit(100)]
#[verifier::loop_isolation(false)]
pub fn remove_all(doc: &mut Document, cands: &Vec<usize>)
    requires
        wf(*old(doc)),
        forall|m: int| 0 <= m < cands@.len() ==> (#[trigger] cands@[m]) < old(doc).nodes@.len(),
    ensures
        wf(*final(doc)),
        same_skeleton(*old(doc), *final(doc)),
        same_attrs(*old(doc), *final(doc)),
        forall|j: int|
            #![trigger final(doc).nodes@[j].alive]
            0 <= j < old(doc).nodes@.len() ==> final(doc).nodes@[j].alive == (old(
                doc,
            ).nodes@[j].alive && !doomed_by(parent_seq(*old(doc)), cands@, j)),
{
    let ghost d0 = *doc;
    let mut t: usize = 0;
    while t < cands.len()
        invariant
            wf(*doc),
            forall|m: int| 0 <= m < cands@.len() ==> (#[trigger] cands@[m]) < d0.nodes@.len(),
            doc.nodes@.len() == d0.nodes@.len(),
            same_skeleton(d0, *doc),
            same_attrs(d0, *doc),
            parent_seq(*doc) == parent_seq(d0),
            t <= cands@.len(),
            forall|j: int|
                #![trigger doc.nodes@[j].alive]
                0 <= j < d0.nodes@.len() ==> doc.nodes@[j].alive == (d0.nodes@[j].alive
                    && !doomed_by(parent_seq(d0), cands@.take(t as int), j)),
        decreases cands@.len() - t,
    {
        let ghost dpre = *doc;
        let c = cands[t];
        remove_subtree(doc, c);
        proof {
            assert(parent_seq(*doc) =~= parent_seq(d0));
            assert(cands@.take(t as int + 1) =~= cands@.take(t as int).push(cands@[t as int]));
            assert forall|j: int|
                #![trigger doc.nodes@[j].alive]
                0 <= j < d0.nodes@.len() implies doc.nodes@[j].alive
                == (d0.nodes@[j].alive && !doomed_by(
                parent_seq(d0),
                cands@.take(t as int + 1),
                j,
            )) by {
                let ps = parent_seq(d0);
                let pre = cands@.take(t as int);
                let post = cands@.take(t as int + 1);
                assert(in_subtree(dpre, c as int, j) == in_subtree_p(ps, c as int, j));
                if doc.nodes@[j].alive {
                    assert(dpre.nodes@[j].alive && !in_subtree_p(ps, c as int, j));
                    assert(!doomed_by(ps, pre, j));
                    assert forall|m: int|
                        0 <= m < post.len() implies !in_subtree_p(
                        ps,
                        (#[trigger] post[m]) as int,
                        j,
                    ) by {
                        if m < t {
                            assert(post[m] == pre[m]);
                            assert(!in_subtree_p(ps, pre[m] as int, j));
                        } else {
                            assert(post[m] == c);
                        }
                    }
                } else {
                    if d0.nodes@[j].alive {
                        if dpre.nodes@[j].alive {
                            // killed by this step: candidate t dooms j
                            assert(in_subtree_p(ps, post[t as int] as int, j));
                            assert(doomed_by(ps, post, j));
                        } else {
                            let m = choose|m: int|
                                0 <= m < pre.len() && in_subtree_p(
                                    ps,
                                    (#[trigger] pre[m]) as int,
                                    j,
                                );
                            assert(post[m] == pre[m]);
                            assert(doomed_by(ps, post, j));
                        }
                    }
                }
            }
        }
        t = t + 1;
    }
    proof {
        assert(cands@.take(cands@.len() as int) =~= cands@);
    }
}

} // verus!
