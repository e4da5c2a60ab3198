use blitz_paint::flex::{
    computed_overflow, resolve_row, row_offsets, ElementKind, FlexItem, Overflow,
};
use blitz_paint::ieee::Binary32;

fn b(x: f32) -> Binary32 {
    Binary32::from_bits(x.to_bits())
}

/// A flex row holding a 22px wide `svg` icon and an unshrinkable 100px sibling, so the icon
/// must absorb the whole deficit.
fn row(overflow: Option<Overflow>) -> Vec<FlexItem> {
    vec![
        FlexItem {
            basis: b(22.0),
            shrink: b(1.0),
            overflow: computed_overflow(ElementKind::InlineSvg, overflow),
            content_size: b(22.0),
        },
        FlexItem {
            basis: b(100.0),
            shrink: b(0.0),
            overflow: computed_overflow(ElementKind::Other, None),
            content_size: b(0.0),
        },
    ]
}

fn icon_width(container: f32, overflow: Option<Overflow>) -> f32 {
    f32::from_bits(resolve_row(&row(overflow), b(container))[0].bits)
}

fn sibling_x(container: f32, overflow: Option<Overflow>) -> f32 {
    let sizes = resolve_row(&row(overflow), b(container));
    f32::from_bits(row_offsets(&sizes)[1].bits)
}

#[test]
fn an_inline_svg_computes_overflow_hidden() {
    assert_eq!(computed_overflow(ElementKind::InlineSvg, None), Overflow::Hidden);
    assert_eq!(computed_overflow(ElementKind::Root, None), Overflow::Visible);
    assert_eq!(computed_overflow(ElementKind::Other, None), Overflow::Visible);
}

#[test]
fn an_svg_flex_item_shrinks_below_its_specified_width() {
    assert_eq!(icon_width(122.0, None), 22.0, "no deficit, no shrink");
    assert_eq!(icon_width(115.0, None), 15.0);
    assert_eq!(icon_width(107.0, None), 7.0);
    assert_eq!(icon_width(100.0, None), 0.0, "clamped at zero, not at 22");
    assert_eq!(icon_width(80.0, None), 0.0);
}

#[test]
fn a_shrunk_svg_flex_item_does_not_push_its_sibling_out() {
    for container in [100.0, 90.0, 80.0] {
        assert_eq!(
            sibling_x(container, None),
            0.0,
            "at {container}px the icon must yield all its space"
        );
    }
}

#[test]
fn an_svg_flex_item_with_visible_overflow_keeps_its_minimum_size() {
    for container in [115.0, 107.0, 100.0, 80.0] {
        assert_eq!(icon_width(container, Some(Overflow::Visible)), 22.0);
    }
}

#[test]
fn space_is_given_up_by_weight() {
    let item = |basis: f32, shrink: f32, overflow: Overflow, content: f32| FlexItem {
        basis: b(basis),
        shrink: b(shrink),
        overflow,
        content_size: b(content),
    };
    // 60 to give up, weights 100 and 200.
    let items = vec![
        item(100.0, 1.0, Overflow::Hidden, 100.0),
        item(200.0, 1.0, Overflow::Hidden, 200.0),
    ];
    let sizes = resolve_row(&items, b(240.0));
    assert_eq!(f32::from_bits(sizes[0].bits), 80.0);
    assert_eq!(f32::from_bits(sizes[1].bits), 160.0);
    // The first stops at its content, and the second gives up the rest.
    let items = vec![
        item(100.0, 1.0, Overflow::Visible, 95.0),
        item(200.0, 1.0, Overflow::Hidden, 200.0),
    ];
    let sizes = resolve_row(&items, b(240.0));
    assert_eq!(f32::from_bits(sizes[0].bits), 95.0);
    assert_eq!(f32::from_bits(sizes[1].bits), 145.0);
    assert!(resolve_row(&Vec::new(), b(10.0)).is_empty());
}
