//! End-to-end rendering: leaf texts measured by a real text shaper, the
//! plan executed onto a real surface, and the ink inspected.

use parley::{
    FontContext, GlyphRun, Layout, LayoutContext, PositionedLayoutItem, StyleProperty,
};
use remml::mml_types::{mi, mn, msub, msup};
use remml::render::{PaintOp, TextMetrics};
use remml::surface::{allocate_surface, paint_bars};
use skrifa::{
    instance::{LocationRef, NormalizedCoord, Size},
    outline::{DrawSettings, OutlinePen},
    raw::FontRef as ReadFontsRef,
    GlyphId, MetadataProvider, OutlineGlyph,
};
use tiny_skia::{Color, FillRule, Paint, PathBuilder, Pixmap, PixmapMut, Transform};

struct Shaper {
    font_cx: FontContext,
    layout_cx: LayoutContext<[u8; 4]>,
}

impl Shaper {
    fn new() -> Self {
        Self { font_cx: FontContext::new(), layout_cx: LayoutContext::new() }
    }

    fn layout_of(&mut self, text: &str, font_size: f32) -> Layout<[u8; 4]> {
        let mut builder = self.layout_cx.ranged_builder(&mut self.font_cx, text, 1.0, true);
        builder.push_default(StyleProperty::Brush([0, 0, 0, 255]));
        builder.push_default(StyleProperty::FontSize(font_size));
        let mut layout: Layout<[u8; 4]> = builder.build(text);
        layout.break_all_lines(None);
        layout
    }

    fn measure(&mut self, text: &str, font_size: u32) -> TextMetrics {
        let layout = self.layout_of(text, font_size as f32);
        let width = layout.width().ceil() as u32;
        let height = layout.height().ceil() as u32;
        let baseline = layout
            .lines()
            .next()
            .map(|line| line.metrics().ascent.ceil() as u32)
            .unwrap_or(height / 2);
        TextMetrics { width, height, baseline: baseline.min(height) }
    }

    fn paint(&mut self, text: &str, font_size: u32, img: &mut Pixmap, x: u32, y: u32) {
        let layout = self.layout_of(text, font_size as f32);
        let mut pen = InkPen {
            pixmap: img.as_mut(),
            x: 0.0,
            y: 0.0,
            paint: Paint::default(),
            open_path: PathBuilder::new(),
        };
        for line in layout.lines() {
            for item in line.items() {
                if let PositionedLayoutItem::GlyphRun(glyph_run) = item {
                    draw_glyph_run(&glyph_run, &mut pen, x, y);
                }
            }
        }
    }
}

fn draw_glyph_run(glyph_run: &GlyphRun<'_, [u8; 4]>, pen: &mut InkPen<'_>, offset_x: u32, offset_y: u32) {
    let mut run_x = glyph_run.offset();
    let run_y = glyph_run.baseline();
    let run = glyph_run.run();
    let font = run.font();
    let font_size = run.font_size();
    let normalized_coords = run
        .normalized_coords()
        .iter()
        .map(|coord| NormalizedCoord::from_bits(*coord))
        .collect::<Vec<_>>();
    let font_ref = match ReadFontsRef::from_index(font.data.as_ref(), font.index) {
        Ok(f) => f,
        Err(_) => return,
    };
    let outlines = font_ref.outline_glyphs();
    for glyph in glyph_run.glyphs() {
        let glyph_x = run_x + glyph.x + offset_x as f32;
        let glyph_y = run_y - glyph.y + offset_y as f32;
        run_x += glyph.advance;
        if let Some(outline) = outlines.get(GlyphId::from(glyph.id)) {
            pen.x = glyph_x;
            pen.y = glyph_y;
            pen.paint.set_color(Color::BLACK);
            pen.draw_glyph(&outline, font_size, &normalized_coords);
        }
    }
}

struct InkPen<'a> {
    pixmap: PixmapMut<'a>,
    x: f32,
    y: f32,
    paint: Paint<'static>,
    open_path: PathBuilder,
}

impl InkPen<'_> {
    fn draw_glyph(&mut self, glyph: &OutlineGlyph<'_>, size: f32, coords: &[NormalizedCoord]) {
        let settings = DrawSettings::unhinted(Size::new(size), LocationRef::new(coords));
        if glyph.draw(settings, self).is_err() {
            return;
        }
        let builder = core::mem::replace(&mut self.open_path, PathBuilder::new());
        if let Some(path) = builder.finish() {
            self.pixmap
                .fill_path(&path, &self.paint, FillRule::Winding, Transform::identity(), None);
        }
    }
}

impl OutlinePen for InkPen<'_> {
    fn move_to(&mut self, x: f32, y: f32) {
        self.open_path.move_to(self.x + x, self.y - y);
    }

    fn line_to(&mut self, x: f32, y: f32) {
        self.open_path.line_to(self.x + x, self.y - y);
    }

    fn quad_to(&mut self, cx0: f32, cy0: f32, x: f32, y: f32) {
        self.open_path.quad_to(self.x + cx0, self.y - cy0, self.x + x, self.y - y);
    }

    fn curve_to(&mut self, cx0: f32, cy0: f32, cx1: f32, cy1: f32, x: f32, y: f32) {
        self.open_path
            .cubic_to(self.x + cx0, self.y - cy0, self.x + cx1, self.y - cy1, self.x + x, self.y - y);
    }

    fn close(&mut self) {
        self.open_path.close();
    }
}

#[test]
fn scripted_pair_renders_with_ink() {
    let whole = msup(msub(mi("β"), mi("α")), mn("2"));
    let font_size = 100;

    let mut shaper = Shaper::new();
    let requests = whole.text_requests(font_size);
    let mut metrics: Vec<TextMetrics> = Vec::new();
    for q in &requests {
        metrics.push(shaper.measure(&q.text, q.font_size));
    }
    assert!(metrics.iter().all(|m| m.width > 0 && m.height > 0), "the shaper found no font");

    let plan = whole.plan_render(font_size, &metrics).unwrap();
    assert_eq!(plan.width, metrics[0].width + metrics[1].width + metrics[2].width);
    assert!(plan.baseline > 0);

    let mut surface = allocate_surface(&plan).unwrap();
    let cmds = plan.commands_at(0, 0).unwrap();
    for cmd in &cmds {
        if let PaintOp::Glyphs { text, font_size, x, y } = cmd {
            shaper.paint(text, *font_size, &mut surface, *x, *y);
        }
    }
    paint_bars(&mut surface, &cmds).unwrap();

    let total = (plan.width * plan.height) as usize;
    let inked = surface.data().chunks(4).filter(|px| px[3] != 0).count();
    assert!(inked * 50 > total, "ink covers only {inked} of {total} pixels");
}
