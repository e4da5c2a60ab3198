use blitz_paint::border::BorderStyle;
use blitz_paint::color::Color;
use blitz_paint::element::{CornerRadii, CornerRadius, ElementCx, Frame, Surface, TreeNode};
use blitz_paint::geometry::{Insets, Rect};
use blitz_paint::ieee::{Binary32, Binary64};
use blitz_paint::table::{PhysicalTracks, RectFill, TableBorders, Track};
use blitz_paint::widget::{
    build_custom_widget_scenes, device_length, process_custom_widget_node, status_after,
    CustomWidgetStatus, Document, WidgetNode, WidgetPaint,
};

fn d(x: f64) -> Binary64 {
    Binary64::from_bits(x.to_bits())
}

fn s(x: f32) -> Binary32 {
    Binary32::from_bits(x.to_bits())
}

fn tracks(list: &[(f32, f32)]) -> PhysicalTracks {
    let first = list.first().map_or(0.0, |t| t.0);
    let last = list.last().map_or(0.0, |t| t.1);
    PhysicalTracks {
        tracks: list.iter().map(|t| Track { start: s(t.0), end: s(t.1) }).collect(),
        origin: s(first),
        span: s(last - first),
    }
}

fn with_cx<T>(scale: f64, f: impl Fn(&ElementCx<'_>) -> T) -> T {
    let zero = Rect { x0: d(0.0), y0: d(0.0), x1: d(0.0), y1: d(0.0) };
    let corner = CornerRadius { x: d(0.0), y: d(0.0) };
    let nodes: Vec<Option<TreeNode>> = Vec::new();
    f(&ElementCx {
        nodes: &nodes,
        node: 0,
        frame: Frame {
            border_box: zero,
            padding_box: zero,
            content_box: zero,
            border_width: Insets { x0: d(0.0), y0: d(0.0), x1: d(0.0), y1: d(0.0) },
            border_radii: CornerRadii {
                top_left: corner,
                top_right: corner,
                bottom_right: corner,
                bottom_left: corner,
            },
            outline_width: d(0.0),
            is_uniform_corner_border: true,
            is_elliptical_border: false,
            has_border_radius: false,
            centerline_perimeter: d(0.0),
        },
        scale: d(scale),
        surface: Surface { width: 1, height: 1, initial_x: d(0.0), initial_y: d(0.0) },
    })
}

fn rects(fills: &[RectFill]) -> Vec<[f64; 4]> {
    fills
        .iter()
        .map(|f| [f.rect.x0, f.rect.y0, f.rect.x1, f.rect.y1].map(|x| f64::from_bits(x.bits)))
        .collect()
}

fn red() -> Color {
    Color { r: s(1.0), g: s(0.0), b: s(0.0), a: s(1.0) }
}

fn collapsed() -> TableBorders {
    TableBorders {
        collapse: true,
        color: red(),
        style: BorderStyle::Solid,
        width: d(1.0),
        outer_top: BorderStyle::Solid,
        outer_right: BorderStyle::Solid,
        outer_bottom: BorderStyle::Solid,
        outer_left: BorderStyle::Solid,
    }
}

#[test]
fn collapsed_borders_fill_the_gutters_and_the_outside() {
    let rows = tracks(&[(1.0, 11.0), (12.0, 22.0), (23.0, 33.0)]);
    let columns = tracks(&[(1.0, 41.0), (42.0, 82.0)]);
    let fills = with_cx(2.0, |cx| cx.draw_table_borders(collapsed(), &rows, &columns));
    assert!(fills.iter().all(|f| f.color == red()));
    assert_eq!(
        rects(&fills),
        [
            [0.0, 20.0, 162.0, 22.0],
            [0.0, 42.0, 162.0, 44.0],
            [0.0, 0.0, 162.0, 2.0],
            [0.0, 64.0, 162.0, 66.0],
            [80.0, 0.0, 82.0, 64.0],
            [0.0, 0.0, 2.0, 64.0],
            [162.0, 0.0, 164.0, 64.0],
        ]
    );
}

#[test]
fn hidden_outer_borders_are_left_out() {
    let rows = tracks(&[(0.0, 10.0)]);
    let columns = tracks(&[(0.0, 20.0)]);
    let borders = TableBorders {
        outer_top: BorderStyle::Hidden,
        outer_right: BorderStyle::Hidden,
        outer_left: BorderStyle::Absent,
        ..collapsed()
    };
    let fills = with_cx(1.0, |cx| cx.draw_table_borders(borders, &rows, &columns));
    assert_eq!(rects(&fills), [[0.0, 10.0, 20.0, 11.0], [0.0, 0.0, 1.0, 10.0]]);
}

#[test]
fn only_visible_collapsed_borders_are_drawn() {
    let rows = tracks(&[(0.0, 10.0), (11.0, 20.0)]);
    let columns = tracks(&[(0.0, 20.0)]);
    let clear = Color { r: s(0.0), g: s(0.0), b: s(0.0), a: s(-0.0) };
    for borders in [
        TableBorders { collapse: false, ..collapsed() },
        TableBorders { color: clear, ..collapsed() },
        TableBorders { style: BorderStyle::Absent, ..collapsed() },
        TableBorders { style: BorderStyle::Hidden, ..collapsed() },
    ] {
        assert!(with_cx(1.0, |cx| cx.draw_table_borders(borders, &rows, &columns)).is_empty());
    }
}

#[test]
fn rows_are_filled_across_the_table() {
    let rows = tracks(&[(5.0, 15.0), (16.0, 26.0), (27.0, 37.0)]);
    let columns = tracks(&[(5.0, 45.0), (46.0, 86.0)]);
    let clear = Color { r: s(0.0), g: s(0.0), b: s(0.0), a: s(0.0) };
    let colors = vec![Some(red()), None, Some(red()), Some(red())];
    let fill = |colors: &Vec<Option<Color>>| {
        rects(&with_cx(2.0, |cx| cx.draw_table_row_backgrounds(colors, &rows, &columns)))
    };
    assert_eq!(fill(&colors), [[0.0, 0.0, 162.0, 20.0], [0.0, 44.0, 162.0, 64.0]]);
    assert_eq!(fill(&vec![Some(clear), Some(red())]), [[0.0, 22.0, 162.0, 42.0]]);
    assert!(fill(&Vec::new()).is_empty());
}

fn widget(node_id: usize, width: f32, height: f32) -> WidgetNode {
    WidgetNode {
        node_id,
        width: s(width),
        height: s(height),
        styled: true,
        status: Some(CustomWidgetStatus::Active),
    }
}

#[test]
fn widgets_are_sized_in_whole_device_pixels() {
    assert_eq!(device_length(s(10.6), d(1.0)), 10);
    assert_eq!(device_length(s(10.6), d(2.0)), 21);
    assert_eq!(device_length(s(-3.0), d(2.0)), 0);
    assert_eq!(device_length(s(f32::NAN), d(2.0)), 0);
    assert_eq!(device_length(s(1e30), d(2.0)), u32::MAX);
}

#[test]
fn some_widgets_do_not_paint() {
    let paint = |node: WidgetNode| process_custom_widget_node(node, d(2.0));
    let active = CustomWidgetStatus::Active;
    let want = WidgetPaint { width: 21, height: 8, resume: false, status: active };
    assert_eq!(paint(widget(1, 10.6, 4.0)), Some(want));
    let suspended =
        WidgetNode { status: Some(CustomWidgetStatus::Suspended), ..widget(1, 10.6, 4.0) };
    assert_eq!(paint(suspended), Some(WidgetPaint { resume: true, ..want }));
    assert_eq!(paint(widget(1, 0.4, 4.0)), None);
    assert_eq!(paint(widget(1, 10.0, 0.0)), None);
    assert_eq!(paint(WidgetNode { styled: false, ..widget(1, 10.0, 4.0) }), None);
    assert_eq!(paint(WidgetNode { status: None, ..widget(1, 10.0, 4.0) }), None);
}

#[test]
fn a_widget_that_painted_is_active() {
    let suspended = |width: f32| WidgetNode {
        status: Some(CustomWidgetStatus::Suspended),
        ..widget(1, width, 4.0)
    };
    assert_eq!(status_after(suspended(10.0), d(1.0)), Some(CustomWidgetStatus::Active));
    assert_eq!(status_after(widget(1, 10.0, 4.0), d(1.0)), Some(CustomWidgetStatus::Active));
    assert_eq!(status_after(suspended(0.5), d(1.0)), Some(CustomWidgetStatus::Suspended));
    let unstyled = WidgetNode { styled: false, ..suspended(10.0) };
    assert_eq!(status_after(unstyled, d(1.0)), Some(CustomWidgetStatus::Suspended));
    assert_eq!(status_after(WidgetNode { status: None, ..suspended(10.0) }, d(1.0)), None);
}

#[test]
fn widgets_of_sub_documents_are_painted_too() {
    let leaf = |id: usize, node: usize| Document {
        id,
        widgets: vec![widget(node, 1.0, 1.0)],
        sub_documents: Vec::new(),
    };
    let doc = Document {
        id: 1,
        widgets: vec![widget(4, 2.0, 2.0), widget(5, 0.0, 2.0), widget(6, 3.0, 2.0)],
        sub_documents: vec![
            Document { sub_documents: vec![leaf(3, 9)], ..leaf(2, 8) },
            leaf(7, 10),
        ],
    };
    let mut jobs = Vec::new();
    build_custom_widget_scenes(&mut jobs, &doc, d(1.0));
    let keys: Vec<(usize, usize)> = jobs.iter().map(|j| (j.document, j.node_id)).collect();
    assert_eq!(keys, [(1, 4), (1, 6), (2, 8), (3, 9), (7, 10)]);
    build_custom_widget_scenes(&mut jobs, &leaf(11, 12), d(1.0));
    assert_eq!(jobs.len(), 6);
    assert_eq!((jobs[5].document, jobs[5].node_id), (11, 12));
}
