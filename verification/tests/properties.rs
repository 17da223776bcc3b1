//! Exact box formulas, phantom behaviour, repeatable painting, and the
//! error cases of planning and surface allocation.

use remml::mml_types::{mfrac, mi, mn, mo, mphantom, mroot, mrow, msub, msup, Element};
use remml::render::{LayoutError, PaintOp, TextMetrics};
use remml::surface::{allocate_surface, paint_bars, RenderError};

fn metric(width: u32, height: u32, baseline: u32) -> TextMetrics {
    TextMetrics { width, height, baseline }
}

/// One synthetic metric per leaf: six tenths of the effective font size
/// per character, one font size tall, baseline at three quarters.
fn metrics_for(e: &Element, font_size: u32) -> Vec<TextMetrics> {
    let requests = e.text_requests(font_size);
    let mut ms: Vec<TextMetrics> = Vec::new();
    for q in &requests {
        let chars = q.text.chars().count().max(1) as u32;
        ms.push(metric(chars * (q.font_size * 6 / 10), q.font_size, q.font_size * 3 / 4));
    }
    ms
}

fn find_bar(ops: &[PaintOp]) -> Option<(u32, u32, u32, u32)> {
    for op in ops {
        if let PaintOp::Bar { x, y, width, height } = op {
            return Some((*x, *y, *width, *height));
        }
    }
    None
}

#[test]
fn row_with_fraction_box() {
    // Leaves measure 60x100 with baseline 75; the operator gains a
    // padding of 10 on each side; the fraction bar is 4 thick.
    let row = mrow(vec![mi("x"), mo("+"), mfrac(mn("1"), mn("2"))]);
    let ms = vec![
        metric(60, 100, 75),
        metric(60, 100, 75),
        metric(60, 100, 75),
        metric(60, 100, 75),
    ];
    let plan = row.plan_render(100, &ms).unwrap();

    // Fraction: term height 100, height 204, baseline 102; row baseline
    // is set by the fraction, the deepest child.
    assert_eq!(plan.width, 60 + 80 + 60);
    assert_eq!(plan.baseline, 102);
    assert_eq!(plan.height, 102 + 102);
}

#[test]
fn row_baseline_follows_leaves() {
    // The same row, but with a shallow fraction: its baseline (22) stays
    // below the leaves' (75), so the leaves set the row's baseline.
    let row = mrow(vec![mi("x"), mo("+"), mfrac(mn("1"), mn("2"))]);
    let ms = vec![
        metric(60, 100, 75),
        metric(60, 100, 75),
        metric(10, 20, 15),
        metric(10, 20, 15),
    ];
    let plan = row.plan_render(100, &ms).unwrap();

    assert_eq!(plan.baseline, 75);
    assert_eq!(plan.width, 60 + 80 + 10);
}

#[test]
fn fraction_bar_sits_at_term_height() {
    // Numerator is a subscript pair: base 60x100, script 42x70 at the
    // script size 70; its box is 102x140.  The denominator is 60x100, so
    // the term height is 140 and the bar spans the full width there.
    let fraction = mfrac(msub(mi("α"), mn("n")), mn("2"));
    let ms = vec![metric(60, 100, 75), metric(42, 70, 52), metric(60, 100, 75)];
    let plan = fraction.plan_render(100, &ms).unwrap();

    assert_eq!(plan.width, 102);
    assert_eq!(plan.height, 2 * 140 + 4);
    assert_eq!(plan.baseline, 140 + 2);
    let (bx, by, bw, bh) = find_bar(&plan.ops).expect("a fraction paints a bar");
    assert_eq!(bx, 0);
    assert_eq!(by, 140);
    assert_eq!(bw, 102);
    assert_eq!(bh, 4);
}

#[test]
fn scripts_compose_widths() {
    // Sub then sup: the widths concatenate and the baseline is pushed
    // below the box top.
    let whole = msup(msub(mi("β"), mi("α")), mn("2"));
    let ms = metrics_for(&whole, 100);
    let plan = whole.plan_render(100, &ms).unwrap();

    assert_eq!(plan.width, 60 + 42 + 42);
    assert_eq!(plan.height, 140);
    assert_eq!(plan.baseline, 95);

    // The base pair starts at the top left, its subscript hangs from the
    // base's midpoint, and the superscript is pinned to the box top
    // right of the pair.
    let glyphs: Vec<(&str, u32, u32, u32)> = plan
        .ops
        .iter()
        .filter_map(|op| match op {
            PaintOp::Glyphs { text, font_size, x, y } => {
                Some((text.as_str(), *font_size, *x, *y))
            },
            _ => None,
        })
        .collect();
    assert_eq!(glyphs, [("β", 100, 0, 20), ("α", 70, 60, 70), ("2", 70, 102, 0)]);
}

#[test]
fn operator_reserves_padding() {
    let op = mo("+");
    let ms = vec![metric(60, 100, 75)];
    let plan = op.plan_render(100, &ms).unwrap();

    assert_eq!(plan.width, 60 + 2 * 10);
    match &plan.ops[0] {
        PaintOp::Glyphs { text, font_size, x, y } => {
            assert_eq!(text, "+");
            assert_eq!(*font_size, 100);
            assert_eq!(*x, 10);
            assert_eq!(*y, 0);
        },
        other => panic!("expected glyphs, found {:?}", other),
    }
}

#[test]
fn radical_box_formulas() {
    let sqrt_2 = mroot(mn("2"), None);
    let ms = vec![metric(60, 100, 75)];
    let plan = sqrt_2.plan_render(100, &ms).unwrap();

    // line width 4: the radicand shifts right by half its height and
    // down by two line widths.
    assert_eq!(plan.width, 60 + 50);
    assert_eq!(plan.height, 100 + 12);
    assert_eq!(plan.baseline, 75 + 4);
    let mut seen_radical = false;
    for op in &plan.ops {
        if let PaintOp::Radical { x, y, width, height, inner_height, line_width } = op {
            seen_radical = true;
            assert_eq!((*x, *y), (0, 0));
            assert_eq!(*width, 110);
            assert_eq!(*height, 112);
            assert_eq!(*inner_height, 100);
            assert_eq!(*line_width, 4);
        }
    }
    assert!(seen_radical);
}

#[test]
fn phantom_reserves_row_box() {
    let children = || vec![mi("β"), mo("+"), mfrac(mn("1"), mn("2"))];
    let row = mrow(children());
    let phantom = mphantom(children());
    let ms_row = metrics_for(&row, 100);
    let ms_phantom = metrics_for(&phantom, 100);
    assert_eq!(ms_row.len(), ms_phantom.len());

    let row_plan = row.plan_render(100, &ms_row).unwrap();
    let phantom_plan = phantom.plan_render(100, &ms_phantom).unwrap();

    assert_eq!(phantom_plan.width, row_plan.width);
    assert_eq!(phantom_plan.height, row_plan.height);
    assert_eq!(phantom_plan.baseline, row_plan.baseline);
    assert!(phantom_plan.ops.is_empty());
    assert!(!row_plan.ops.is_empty());

    // Painting the phantom leaves a freshly cleared surface untouched.
    let mut surface = allocate_surface(&phantom_plan).unwrap();
    let cmds = phantom_plan.commands_at(0, 0).unwrap();
    paint_bars(&mut surface, &cmds).unwrap();
    let fresh = tiny_skia::Pixmap::new(phantom_plan.width, phantom_plan.height).unwrap();
    assert_eq!(surface.data(), fresh.data());
}

#[test]
fn painting_twice_is_identical() {
    let fraction = mfrac(mn("1"), mn("2"));
    let ms = vec![metric(60, 100, 75), metric(60, 100, 75)];
    let plan = fraction.plan_render(100, &ms).unwrap();
    let cmds = plan.commands_at(0, 0).unwrap();

    let mut first = allocate_surface(&plan).unwrap();
    let mut second = allocate_surface(&plan).unwrap();
    let painted_first = paint_bars(&mut first, &cmds).unwrap();
    let painted_second = paint_bars(&mut second, &cmds).unwrap();

    assert_eq!(painted_first, 1);
    assert_eq!(painted_second, 1);
    assert_eq!(first.data(), second.data());
    // The bar leaves real ink: at least its own area of opaque pixels.
    let inked = first.data().chunks(4).filter(|px| px[3] != 0).count();
    assert!(inked >= 60 * 4);
}

#[test]
fn commands_shift_with_the_origin() {
    let fraction = mfrac(mn("1"), mn("2"));
    let ms = vec![metric(60, 100, 75), metric(60, 100, 75)];
    let plan = fraction.plan_render(100, &ms).unwrap();

    let origin = plan.commands_at(0, 0).unwrap();
    let moved = plan.commands_at(5, 7).unwrap();
    let (x0, y0, w0, h0) = find_bar(&origin).unwrap();
    let (x1, y1, w1, h1) = find_bar(&moved).unwrap();
    assert_eq!((x1, y1), (x0 + 5, y0 + 7));
    assert_eq!((w1, h1), (w0, h0));

    // Shifting past the coordinate range is reported, not wrapped: the
    // operator glyph sits at x = 10, which cannot move right by
    // u32::MAX.
    let op = mo("+");
    let op_plan = op.plan_render(100, &vec![metric(60, 100, 75)]).unwrap();
    assert_eq!(op_plan.commands_at(u32::MAX, 0).unwrap_err(), LayoutError::Overflow);
}

#[test]
fn script_requests_shrink_the_font() {
    let whole = msup(msub(mi("β"), mi("α")), mn("2"));
    let requests = whole.text_requests(100);

    let texts: Vec<&str> = requests.iter().map(|q| q.text.as_str()).collect();
    let sizes: Vec<u32> = requests.iter().map(|q| q.font_size).collect();
    assert_eq!(texts, ["β", "α", "2"]);
    assert_eq!(sizes, [100, 70, 70]);
}

#[test]
fn wrong_metric_count_is_rejected() {
    let e = mi("x");
    let ms: Vec<TextMetrics> = Vec::new();
    assert_eq!(e.plan_render(100, &ms).unwrap_err(), LayoutError::MetricsMismatch);
}

#[test]
fn baseline_outside_box_is_rejected() {
    let e = mi("x");
    let ms = vec![metric(10, 5, 9)];
    assert_eq!(e.plan_render(100, &ms).unwrap_err(), LayoutError::InvalidMetrics);
}

#[test]
fn empty_row_is_rejected() {
    let e = mrow(Vec::new());
    let ms: Vec<TextMetrics> = Vec::new();
    assert_eq!(e.plan_render(100, &ms).unwrap_err(), LayoutError::EmptyRow);
}

#[test]
fn oversized_boxes_are_rejected() {
    let e = mo("+");
    let ms = vec![metric(u32::MAX, 10, 5)];
    assert_eq!(e.plan_render(100, &ms).unwrap_err(), LayoutError::Overflow);
}

#[test]
fn empty_boxes_cannot_be_rendered() {
    let e = mi("x");
    let ms = vec![metric(0, 10, 5)];
    let plan = e.plan_render(100, &ms).unwrap();
    assert_eq!(plan.width, 0);
    assert_eq!(allocate_surface(&plan).unwrap_err(), RenderError::EmptySurface);
}

#[test]
fn bars_are_counted_once_each() {
    // Two fractions side by side: exactly two bars reach the surface.
    let row = mrow(vec![mfrac(mn("1"), mn("2")), mo("+"), mfrac(mn("3"), mn("4"))]);
    let ms = metrics_for(&row, 100);
    let plan = row.plan_render(100, &ms).unwrap();
    let cmds = plan.commands_at(0, 0).unwrap();

    let mut surface = allocate_surface(&plan).unwrap();
    let painted = paint_bars(&mut surface, &cmds).unwrap();
    assert_eq!(painted, 2);
}

#[test]
fn nested_scripts_shrink_twice() {
    // A subscript of a subscript is planned at seven tenths of seven
    // tenths of the surrounding size.
    let whole = msub(mi("a"), msub(mi("b"), mi("c")));
    let requests = whole.text_requests(100);
    let sizes: Vec<u32> = requests.iter().map(|q| q.font_size).collect();
    assert_eq!(sizes, [100, 70, 49]);
}

#[test]
fn oversized_surface_allocation_fails() {
    // A box wider than the surface library's row limit (i32::MAX / 4)
    // plans fine but cannot be allocated.
    let e = mi("x");
    let ms = vec![metric(0x2000_0000, 10, 5)];
    let plan = e.plan_render(100, &ms).unwrap();
    assert_eq!(plan.width, 0x2000_0000);
    assert_eq!(allocate_surface(&plan).unwrap_err(), RenderError::AllocationFailed);
}
