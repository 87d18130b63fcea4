use svgclean::model::{
    Attr, AttrKey, AttrValue, Color, Document, Keyword, Length, Node, PathSeg, Tag, Unit,
};
use svgclean::links::find_link_attribute;
use svgclean::model::fuzzy_eq;
use svgclean::remove_invisible_elements;

fn node(tag: Tag, id: Option<u64>, parent: Option<usize>, attrs: Vec<Attr>) -> Node {
    Node { tag, id, parent, alive: true, attrs }
}

fn a(key: AttrKey, val: AttrValue) -> Attr {
    Attr { key, val }
}

fn len(micros: i64) -> AttrValue {
    AttrValue::Length(Length { num: micros, unit: Unit::Unitless })
}

fn red() -> Color {
    Color { red: 255, green: 0, blue: 0 }
}

fn size_attrs() -> Vec<Attr> {
    vec![a(AttrKey::Width, len(5_000_000)), a(AttrKey::Height, len(5_000_000))]
}

const IDENTITY: &str = "1 0 0 0 0  0 1 0 0 0  0 0 1 0 0  0 0 0 1 0";

#[test]
fn zero_width_rect_removed() {
    let mut doc = Document {
        nodes: vec![
            node(Tag::Svg, None, None, vec![]),
            node(
                Tag::Rect,
                None,
                Some(0),
                vec![a(AttrKey::Width, len(0)), a(AttrKey::Height, len(5_000_000))],
            ),
        ],
    };
    let removed = remove_invisible_elements(&mut doc);
    assert!(removed);
    assert!(doc.nodes[0].alive);
    assert!(!doc.nodes[1].alive);
}

#[test]
fn zero_height_rect_removed_regardless_of_other_attributes() {
    let mut doc = Document {
        nodes: vec![
            node(Tag::Svg, None, None, vec![]),
            node(
                Tag::Rect,
                Some(9),
                Some(0),
                vec![
                    a(AttrKey::Width, len(5_000_000)),
                    a(AttrKey::Height, len(0)),
                    a(AttrKey::Fill, AttrValue::Color(red())),
                ],
            ),
        ],
    };
    assert!(remove_invisible_elements(&mut doc));
    assert!(!doc.nodes[1].alive);
}

#[test]
fn nonzero_rect_kept() {
    let mut doc = Document {
        nodes: vec![node(Tag::Svg, None, None, vec![]), node(Tag::Rect, None, Some(0), size_attrs())],
    };
    let removed = remove_invisible_elements(&mut doc);
    assert!(!removed);
    assert!(doc.nodes[1].alive);
}

#[test]
fn path_without_geometry_removed() {
    let mut doc = Document {
        nodes: vec![node(Tag::Svg, None, None, vec![]), node(Tag::Path, None, Some(0), vec![])],
    };
    assert!(remove_invisible_elements(&mut doc));
    assert!(!doc.nodes[1].alive);
}

#[test]
fn path_with_empty_geometry_removed() {
    let mut doc = Document {
        nodes: vec![
            node(Tag::Svg, None, None, vec![]),
            node(Tag::Path, None, Some(0), vec![a(AttrKey::D, AttrValue::Path(vec![]))]),
        ],
    };
    assert!(remove_invisible_elements(&mut doc));
    assert!(!doc.nodes[1].alive);
}

#[test]
fn path_with_wrong_typed_geometry_removed() {
    let mut doc = Document {
        nodes: vec![
            node(Tag::Svg, None, None, vec![]),
            node(Tag::Path, None, Some(0), vec![a(AttrKey::D, AttrValue::Number(3))]),
        ],
    };
    assert!(remove_invisible_elements(&mut doc));
    assert!(!doc.nodes[1].alive);
}

#[test]
fn path_with_real_geometry_kept() {
    let segs = vec![PathSeg::MoveTo { x: 0, y: 0 }, PathSeg::LineTo { x: 1_000_000, y: 0 }];
    let mut doc = Document {
        nodes: vec![
            node(Tag::Svg, None, None, vec![]),
            node(Tag::Path, None, Some(0), vec![a(AttrKey::D, AttrValue::Path(segs))]),
        ],
    };
    assert!(!remove_invisible_elements(&mut doc));
    assert!(doc.nodes[1].alive);
}

#[test]
fn display_none_subtree_removed_when_unused() {
    let mut doc = Document {
        nodes: vec![
            node(Tag::Svg, None, None, vec![]),
            node(Tag::G, None, Some(0), vec![a(AttrKey::Display, AttrValue::Keyword(Keyword::NoneKw))]),
            node(Tag::Rect, None, Some(1), size_attrs()),
        ],
    };
    assert!(remove_invisible_elements(&mut doc));
    assert!(!doc.nodes[1].alive);
    assert!(!doc.nodes[2].alive);
}

#[test]
fn display_none_subtree_with_referenced_node_is_unchanged() {
    let mut doc = Document {
        nodes: vec![
            node(Tag::Svg, None, None, vec![]),
            node(Tag::G, None, Some(0), vec![a(AttrKey::Display, AttrValue::Keyword(Keyword::NoneKw))]),
            {
                let mut r = node(Tag::Rect, Some(1), Some(1), size_attrs());
                r.id = Some(1);
                r
            },
            node(Tag::Use, None, Some(0), vec![a(AttrKey::XlinkHref, AttrValue::Link(1))]),
        ],
    };
    let before = doc.clone();
    let removed = remove_invisible_elements(&mut doc);
    assert!(!removed);
    assert_eq!(doc, before);
}

#[test]
fn dangling_use_removed() {
    let mut doc = Document {
        nodes: vec![node(Tag::Svg, None, None, vec![]), node(Tag::Use, None, Some(0), vec![])],
    };
    assert!(remove_invisible_elements(&mut doc));
    assert!(!doc.nodes[1].alive);
}

#[test]
fn empty_clip_path_cascades_to_all_referrers() {
    let mut doc = Document {
        nodes: vec![
            node(Tag::Svg, None, None, vec![]),
            node(Tag::ClipPath, Some(1), Some(0), vec![]),
            {
                let mut r = node(Tag::Rect, None, Some(0), size_attrs());
                r.attrs.push(a(AttrKey::ClipPath, AttrValue::FuncLink(1)));
                r
            },
            {
                let mut r = node(Tag::Rect, None, Some(0), size_attrs());
                r.attrs.push(a(AttrKey::ClipPath, AttrValue::FuncLink(1)));
                r
            },
            node(Tag::Rect, None, Some(0), size_attrs()),
        ],
    };
    let untouched = doc.nodes[4].clone();
    assert!(remove_invisible_elements(&mut doc));
    assert!(!doc.nodes[1].alive);
    assert!(!doc.nodes[2].alive);
    assert!(!doc.nodes[3].alive);
    assert!(doc.nodes[4].alive);
    assert_eq!(doc.nodes[4], untouched);
}

#[test]
fn invalid_clip_path_children_pruned_valid_kept() {
    let mut doc = Document {
        nodes: vec![
            node(Tag::Svg, None, None, vec![]),
            node(Tag::ClipPath, None, Some(0), vec![]),
            node(Tag::G, None, Some(1), vec![]),
            node(Tag::Rect, None, Some(1), size_attrs()),
        ],
    };
    assert!(remove_invisible_elements(&mut doc));
    assert!(doc.nodes[1].alive);
    assert!(!doc.nodes[2].alive);
    assert!(doc.nodes[3].alive);
}

#[test]
fn clip_path_use_child_valid_only_with_shape_target() {
    let mut doc = Document {
        nodes: vec![
            node(Tag::Svg, None, None, vec![]),
            node(Tag::ClipPath, None, Some(0), vec![]),
            node(Tag::Use, None, Some(1), vec![a(AttrKey::XlinkHref, AttrValue::Link(10))]),
            node(Tag::Use, None, Some(1), vec![a(AttrKey::XlinkHref, AttrValue::Link(11))]),
            {
                let mut r = node(Tag::Rect, Some(10), Some(0), size_attrs());
                r.id = Some(10);
                r
            },
            {
                let mut g = node(Tag::G, Some(11), Some(0), vec![]);
                g.id = Some(11);
                g
            },
        ],
    };
    assert!(remove_invisible_elements(&mut doc));
    // the reference to the rectangle stands; the reference to the group goes
    assert!(doc.nodes[2].alive);
    assert!(!doc.nodes[3].alive);
    assert!(doc.nodes[1].alive);
}

#[test]
fn empty_filter_cascades_to_referrer() {
    let mut doc = Document {
        nodes: vec![
            node(Tag::Svg, None, None, vec![]),
            node(Tag::Filter, Some(4), Some(0), vec![]),
            {
                let mut r = node(Tag::Rect, None, Some(0), size_attrs());
                r.attrs.push(a(AttrKey::Filter, AttrValue::FuncLink(4)));
                r
            },
        ],
    };
    assert!(remove_invisible_elements(&mut doc));
    assert!(!doc.nodes[1].alive);
    assert!(!doc.nodes[2].alive);
}

#[test]
fn identity_color_matrix_filter_removed_without_cascade() {
    let mut doc = Document {
        nodes: vec![
            node(Tag::Svg, None, None, vec![]),
            node(Tag::Filter, Some(2), Some(0), vec![]),
            node(
                Tag::FeColorMatrix,
                None,
                Some(1),
                vec![
                    a(AttrKey::Type, AttrValue::Text(b"matrix".to_vec())),
                    a(AttrKey::Values, AttrValue::Text(IDENTITY.as_bytes().to_vec())),
                ],
            ),
            {
                let mut r = node(Tag::Rect, None, Some(0), size_attrs());
                r.attrs.push(a(AttrKey::Filter, AttrValue::FuncLink(2)));
                r
            },
        ],
    };
    assert!(remove_invisible_elements(&mut doc));
    assert!(!doc.nodes[1].alive);
    assert!(!doc.nodes[2].alive);
    // the referrer keeps its (now dangling) filter reference
    assert!(doc.nodes[3].alive);
    assert_eq!(doc.nodes[3].attrs.len(), 3);
    assert_eq!(doc.nodes[3].attrs[2], a(AttrKey::Filter, AttrValue::FuncLink(2)));
}

#[test]
fn numerically_equal_matrix_text_leaves_filter_untouched() {
    let other = "1 0 0 0 0 0 1 0 0 0 0 0 1 0 0 0 0 0 1 0";
    let mut doc = Document {
        nodes: vec![
            node(Tag::Svg, None, None, vec![]),
            node(Tag::Filter, None, Some(0), vec![]),
            node(
                Tag::FeColorMatrix,
                None,
                Some(1),
                vec![
                    a(AttrKey::Type, AttrValue::Text(b"matrix".to_vec())),
                    a(AttrKey::Values, AttrValue::Text(other.as_bytes().to_vec())),
                ],
            ),
        ],
    };
    let before = doc.clone();
    assert!(!remove_invisible_elements(&mut doc));
    assert_eq!(doc, before);
}

#[test]
fn empty_paint_server_rewrites_fill_and_stroke_to_none() {
    let mut doc = Document {
        nodes: vec![
            node(Tag::Svg, None, None, vec![]),
            node(Tag::LinearGradient, Some(7), Some(0), vec![]),
            {
                let mut r = node(Tag::Rect, None, Some(0), vec![]);
                r.attrs = vec![
                    a(AttrKey::Fill, AttrValue::FuncLink(7)),
                    a(AttrKey::Stroke, AttrValue::FuncLink(7)),
                    a(AttrKey::Width, len(5_000_000)),
                    a(AttrKey::Height, len(5_000_000)),
                ];
                r
            },
        ],
    };
    assert!(remove_invisible_elements(&mut doc));
    assert!(!doc.nodes[1].alive);
    assert!(doc.nodes[2].alive);
    assert_eq!(doc.nodes[2].attrs[0], a(AttrKey::Fill, AttrValue::Keyword(Keyword::NoneKw)));
    assert_eq!(doc.nodes[2].attrs[1], a(AttrKey::Stroke, AttrValue::Keyword(Keyword::NoneKw)));
}

#[test]
fn single_stop_paint_server_becomes_solid_color_with_opacity() {
    let mut doc = Document {
        nodes: vec![
            node(Tag::Svg, None, None, vec![]),
            node(Tag::LinearGradient, Some(7), Some(0), vec![]),
            node(
                Tag::Stop,
                None,
                Some(1),
                vec![
                    a(AttrKey::StopColor, AttrValue::Color(red())),
                    a(AttrKey::StopOpacity, AttrValue::Number(500_000)),
                ],
            ),
            {
                let mut r = node(Tag::Rect, None, Some(0), vec![]);
                r.attrs = vec![
                    a(AttrKey::Fill, AttrValue::FuncLink(7)),
                    a(AttrKey::Stroke, AttrValue::FuncLink(7)),
                    a(AttrKey::Width, len(5_000_000)),
                    a(AttrKey::Height, len(5_000_000)),
                ];
                r
            },
        ],
    };
    assert!(remove_invisible_elements(&mut doc));
    assert!(!doc.nodes[1].alive);
    assert!(!doc.nodes[2].alive);
    let attrs = &doc.nodes[3].attrs;
    assert_eq!(attrs[0], a(AttrKey::Fill, AttrValue::Color(red())));
    assert_eq!(attrs[1], a(AttrKey::Stroke, AttrValue::Color(red())));
    assert_eq!(attrs[4], a(AttrKey::FillOpacity, AttrValue::Number(500_000)));
    assert_eq!(attrs[5], a(AttrKey::StrokeOpacity, AttrValue::Number(500_000)));
}

#[test]
fn single_stop_with_full_opacity_adds_no_companion() {
    let mut doc = Document {
        nodes: vec![
            node(Tag::Svg, None, None, vec![]),
            node(Tag::LinearGradient, Some(7), Some(0), vec![]),
            node(
                Tag::Stop,
                None,
                Some(1),
                vec![
                    a(AttrKey::StopColor, AttrValue::Color(red())),
                    a(AttrKey::StopOpacity, AttrValue::Number(1_000_000)),
                ],
            ),
            {
                let mut r = node(Tag::Rect, None, Some(0), size_attrs());
                r.attrs.push(a(AttrKey::Fill, AttrValue::FuncLink(7)));
                r
            },
        ],
    };
    assert!(remove_invisible_elements(&mut doc));
    let attrs = &doc.nodes[3].attrs;
    assert_eq!(attrs.len(), 3);
    assert_eq!(attrs[2], a(AttrKey::Fill, AttrValue::Color(red())));
}

#[test]
fn gradient_with_inheritance_link_left_alone() {
    let mut doc = Document {
        nodes: vec![
            node(Tag::Svg, None, None, vec![]),
            node(
                Tag::LinearGradient,
                Some(7),
                Some(0),
                vec![a(AttrKey::XlinkHref, AttrValue::Link(8))],
            ),
            {
                let mut g = node(Tag::LinearGradient, Some(8), Some(0), vec![]);
                g.id = Some(8);
                g
            },
            node(
                Tag::Stop,
                None,
                Some(2),
                vec![
                    a(AttrKey::StopColor, AttrValue::Color(red())),
                    a(AttrKey::StopOpacity, AttrValue::Number(1_000_000)),
                ],
            ),
            node(
                Tag::Stop,
                None,
                Some(2),
                vec![
                    a(AttrKey::StopColor, AttrValue::Color(red())),
                    a(AttrKey::StopOpacity, AttrValue::Number(1_000_000)),
                ],
            ),
        ],
    };
    let before = doc.clone();
    assert!(!remove_invisible_elements(&mut doc));
    assert_eq!(doc, before);
}

#[test]
fn end_to_end_scenario() {
    // svg -> { linearGradient(no children, id), rect(fill->it), rect(stroke->it) }
    let mut doc = Document {
        nodes: vec![
            node(Tag::Svg, None, None, vec![]),
            node(Tag::LinearGradient, Some(1), Some(0), vec![]),
            {
                let mut r = node(Tag::Rect, None, Some(0), vec![]);
                r.attrs = vec![
                    a(AttrKey::Fill, AttrValue::FuncLink(1)),
                    a(AttrKey::Width, len(5_000_000)),
                    a(AttrKey::Height, len(5_000_000)),
                ];
                r
            },
            {
                let mut r = node(Tag::Rect, None, Some(0), vec![]);
                r.attrs = vec![
                    a(AttrKey::Stroke, AttrValue::FuncLink(1)),
                    a(AttrKey::Width, len(5_000_000)),
                    a(AttrKey::Height, len(5_000_000)),
                ];
                r
            },
        ],
    };
    assert!(remove_invisible_elements(&mut doc));
    assert!(doc.nodes[0].alive);
    assert!(!doc.nodes[1].alive);
    assert!(doc.nodes[2].alive);
    assert!(doc.nodes[3].alive);
    assert_eq!(doc.nodes[2].attrs[0], a(AttrKey::Fill, AttrValue::Keyword(Keyword::NoneKw)));
    assert_eq!(doc.nodes[3].attrs[0], a(AttrKey::Stroke, AttrValue::Keyword(Keyword::NoneKw)));
}

#[test]
fn sweep_is_idempotent_on_its_own_output() {
    // a document that exercises several rules at once
    let mut doc = Document {
        nodes: vec![
            node(Tag::Svg, None, None, vec![]),
            node(Tag::LinearGradient, Some(1), Some(0), vec![]),
            {
                let mut r = node(Tag::Rect, None, Some(0), vec![]);
                r.attrs = vec![
                    a(AttrKey::Fill, AttrValue::FuncLink(1)),
                    a(AttrKey::Width, len(5_000_000)),
                    a(AttrKey::Height, len(5_000_000)),
                ];
                r
            },
            node(Tag::Path, None, Some(0), vec![]),
            node(Tag::Rect, None, Some(0), vec![a(AttrKey::Width, len(0)), a(AttrKey::Height, len(0))]),
            node(Tag::Use, None, Some(0), vec![]),
            node(Tag::G, None, Some(0), vec![a(AttrKey::Display, AttrValue::Keyword(Keyword::NoneKw))]),
        ],
    };
    let removed_first = remove_invisible_elements(&mut doc);
    assert!(removed_first);
    let after_first = doc.clone();
    let removed_second = remove_invisible_elements(&mut doc);
    assert!(!removed_second);
    assert_eq!(doc, after_first);
}

#[test]
fn find_link_attribute_returns_first_matching_key() {
    let n = node(
        Tag::Rect,
        None,
        None,
        vec![
            a(AttrKey::Width, len(5_000_000)),
            a(AttrKey::Fill, AttrValue::FuncLink(3)),
            a(AttrKey::Stroke, AttrValue::FuncLink(3)),
        ],
    );
    assert_eq!(find_link_attribute(&n, 3), Some(AttrKey::Fill));
    assert_eq!(find_link_attribute(&n, 4), None);
}

#[test]
fn fuzzy_equality_has_a_tight_tolerance() {
    assert!(fuzzy_eq(1_000_000, 1_000_000));
    assert!(fuzzy_eq(1_000_000, 999_999));
    assert!(!fuzzy_eq(1_000_000, 999_998));
    assert!(!fuzzy_eq(500_000, 1_000_000));
}
