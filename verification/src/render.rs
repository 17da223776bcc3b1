//! Layout planning: maps a notation tree and a font size to a
//! [`RenderingPlan`] — a bounding box, a baseline, and a list of deferred
//! paint operations.
//!
//! Text shaping is an outside capability.  A caller first asks
//! [`Element::text_requests`] which leaf texts must be measured and at which
//! effective font sizes, measures them, and hands the metrics back to
//! [`Element::plan_render`] in the same order.  Layout itself is pure
//! integer arithmetic over those metrics.

use vstd::arithmetic::div_mod::{
    lemma_div_by_multiple,
    lemma_div_is_ordered,
    lemma_div_nonincreasing,
};
use vstd::math::*;
use vstd::prelude::*;

use crate::mml_types::Element;

verus! {

/// The measured box of one shaped text run: its ink width and height, and
/// the ascent from the box top to the alignment line.
#[derive(Clone, Copy, Debug, PartialEq, Eq, Structural)]
pub struct TextMetrics {
    pub width: u32,
    pub height: u32,
    pub baseline: u32,
}

/// One leaf text to be measured: the text and the effective font size at
/// which the planner will place it.
#[derive(Clone, Debug)]
pub struct TextRequest {
    pub text: String,
    pub font_size: u32,
}

/// A deferred paint operation.  Coordinates are relative to the origin of
/// the plan that carries the operation.
#[derive(Clone, Debug)]
pub enum PaintOp {
    /// Draw the glyphs of `text` shaped at `font_size`, with the box top
    /// left corner at `(x, y)`.
    Glyphs { text: String, font_size: u32, x: u32, y: u32 },
    /// Fill a solid rectangle: the bar of a fraction.
    Bar { x: u32, y: u32, width: u32, height: u32 },
    /// Stroke a radical sign over a box of `width` by `height` pixels whose
    /// radicand is `inner_height` pixels tall, with stroke width
    /// `line_width`.
    Radical { x: u32, y: u32, width: u32, height: u32, inner_height: u32, line_width: u32 },
}

/// The frozen result of planning one node: its box, its baseline, and the
/// paint operations of its whole subtree, relative to its own origin.
#[derive(Clone, Debug)]
pub struct RenderingPlan {
    pub width: u32,
    pub height: u32,
    pub baseline: u32,
    pub ops: Vec<PaintOp>,
}

/// Why planning failed.
#[derive(Clone, Copy, Debug, PartialEq, Eq, Structural)]
pub enum LayoutError {
    /// The metrics list does not hold exactly one entry per leaf.
    MetricsMismatch,
    /// Some metric reports a baseline below the bottom of its own box.
    InvalidMetrics,
    /// A row or phantom node has no children, so its box is undefined.
    EmptyRow,
    /// A computed dimension or coordinate does not fit in 32 bits.
    Overflow,
}

/// Mathematical mirror of [`PaintOp`].
pub ghost enum OpModel {
    Glyphs { text: Seq<char>, font_size: int, x: int, y: int },
    Bar { x: int, y: int, width: int, height: int },
    Radical { x: int, y: int, width: int, height: int, inner_height: int, line_width: int },
}

/// Mathematical mirror of [`RenderingPlan`].
pub ghost struct PlanModel {
    pub width: int,
    pub height: int,
    pub baseline: int,
    pub ops: Seq<OpModel>,
}

/// Mathematical mirror of [`TextRequest`].
pub ghost struct ReqModel {
    pub text: Seq<char>,
    pub font_size: int,
}

impl View for PaintOp {
    type V = OpModel;

    open spec fn view(&self) -> OpModel {
        match self {
            PaintOp::Glyphs { text, font_size, x, y } => OpModel::Glyphs {
                text: text@,
                font_size: *font_size as int,
                x: *x as int,
                y: *y as int,
            },
            PaintOp::Bar { x, y, width, height } => OpModel::Bar {
                x: *x as int,
                y: *y as int,
                width: *width as int,
                height: *height as int,
            },
            PaintOp::Radical { x, y, width, height, inner_height, line_width } => OpModel::Radical {
                x: *x as int,
                y: *y as int,
                width: *width as int,
                height: *height as int,
                inner_height: *inner_height as int,
                line_width: *line_width as int,
            },
        }
    }
}

impl View for RenderingPlan {
    type V = PlanModel;

    open spec fn view(&self) -> PlanModel {
        PlanModel {
            width: self.width as int,
            height: self.height as int,
            baseline: self.baseline as int,
            ops: self.ops@.map_values(|op: PaintOp| op@),
        }
    }
}

impl View for TextRequest {
    type V = ReqModel;

    open spec fn view(&self) -> ReqModel {
        ReqModel { text: self.text@, font_size: self.font_size as int }
    }
}

/// Horizontal padding reserved on each side of an operator.
pub open spec fn op_spacing(fs: int) -> int {
    fs / 10
}

/// Thickness of fraction bars and radical strokes.
pub open spec fn line_width_of(fs: int) -> int {
    (fs + 24) / 25
}

/// Font size at which subscripts and superscripts are planned: seven
/// tenths of the surrounding size, rounded down.
pub open spec fn script_size(fs: int) -> int {
    (fs * 7) / 10
}

/// Number of leaves the planner will measure in `e`, in traversal order.
/// The index of a root node takes no part in layout and is not counted.
pub open spec fn leaf_count(e: Element) -> nat
    decreases e,
{
    match e {
        Element::Mi(_) => 1,
        Element::Mn(_) => 1,
        Element::Mo(_) => 1,
        Element::Mtext(_) => 1,
        Element::Mrow(m) => leaf_count_seq(m.terms@),
        Element::Mphantom(m) => leaf_count_seq(m.terms@),
        Element::Msub(m) => leaf_count(*m.base) + leaf_count(*m.subscript),
        Element::Msup(m) => leaf_count(*m.base) + leaf_count(*m.superscript),
        Element::Mfrac(m) => leaf_count(*m.numerator) + leaf_count(*m.denominator),
        Element::Msqrt(m) => leaf_count(*m.term),
        Element::Mroot(m) => leaf_count(*m.base),
    }
}

pub open spec fn leaf_count_seq(ts: Seq<Element>) -> nat
    decreases ts,
{
    if ts.len() == 0 {
        0
    } else {
        leaf_count(ts[0]) + leaf_count_seq(ts.skip(1))
    }
}

/// Every row and phantom on the painted spine of `e` has at least one
/// child.  The index of a root node is not planned, so it is not scanned.
pub open spec fn no_empty_rows(e: Element) -> bool
    decreases e,
{
    match e {
        Element::Mi(_) => true,
        Element::Mn(_) => true,
        Element::Mo(_) => true,
        Element::Mtext(_) => true,
        Element::Mrow(m) => m.terms@.len() >= 1 && no_empty_rows_seq(m.terms@),
        Element::Mphantom(m) => m.terms@.len() >= 1 && no_empty_rows_seq(m.terms@),
        Element::Msub(m) => no_empty_rows(*m.base) && no_empty_rows(*m.subscript),
        Element::Msup(m) => no_empty_rows(*m.base) && no_empty_rows(*m.superscript),
        Element::Mfrac(m) => no_empty_rows(*m.numerator) && no_empty_rows(*m.denominator),
        Element::Msqrt(m) => no_empty_rows(*m.term),
        Element::Mroot(m) => no_empty_rows(*m.base),
    }
}

pub open spec fn no_empty_rows_seq(ts: Seq<Element>) -> bool
    decreases ts,
{
    forall|j: int| 0 <= j < ts.len() ==> no_empty_rows(#[trigger] ts[j])
}

/// Every metric is internally consistent: the alignment line lies inside
/// the measured box.
pub open spec fn valid_metrics(ms: Seq<TextMetrics>) -> bool {
    forall|i: int| 0 <= i < ms.len() ==> ms[i].baseline <= ms[i].height
}

pub open spec fn translate_op(op: OpModel, dx: int, dy: int) -> OpModel {
    match op {
        OpModel::Glyphs { text, font_size, x, y } => OpModel::Glyphs {
            text,
            font_size,
            x: x + dx,
            y: y + dy,
        },
        OpModel::Bar { x, y, width, height } => OpModel::Bar { x: x + dx, y: y + dy, width, height },
        OpModel::Radical { x, y, width, height, inner_height, line_width } => OpModel::Radical {
            x: x + dx,
            y: y + dy,
            width,
            height,
            inner_height,
            line_width,
        },
    }
}

pub open spec fn translate_ops(ops: Seq<OpModel>, dx: int, dy: int) -> Seq<OpModel> {
    ops.map_values(|op: OpModel| translate_op(op, dx, dy))
}

/// Box of a leaf: exactly the measured box, with the glyphs painted at the
/// leaf's own origin.
pub open spec fn leaf_model(text: Seq<char>, fs: int, m: TextMetrics) -> PlanModel {
    PlanModel {
        width: m.width as int,
        height: m.height as int,
        baseline: m.baseline as int,
        ops: seq![OpModel::Glyphs { text, font_size: fs, x: 0, y: 0 }],
    }
}

/// Box of an operator leaf: the measured box widened by `op_spacing(fs)`
/// on each side, the glyphs shifted right by that padding.
pub open spec fn mo_model(text: Seq<char>, fs: int, m: TextMetrics) -> PlanModel {
    PlanModel {
        width: m.width + 2 * op_spacing(fs),
        height: m.height as int,
        baseline: m.baseline as int,
        ops: seq![OpModel::Glyphs { text, font_size: fs, x: op_spacing(fs), y: 0 }],
    }
}

/// Combination rule for a base and a subscript.  The subscript hangs from
/// the vertical midpoint of the base; the base is pushed down when the
/// subscript would otherwise rise above the box top.
pub open spec fn sub_model(b: PlanModel, s: PlanModel) -> PlanModel {
    let base_y = max(0, s.height - b.height / 2);
    PlanModel {
        width: b.width + s.width,
        height: max(b.height, 2 * s.height),
        baseline: b.baseline + base_y,
        ops: translate_ops(b.ops, 0, base_y) + translate_ops(
            s.ops,
            b.width,
            base_y + b.height / 2,
        ),
    }
}

/// Combination rule for a base and a superscript: the mirror of
/// [`sub_model`], with the superscript pinned to the box top.
pub open spec fn sup_model(b: PlanModel, s: PlanModel) -> PlanModel {
    let base_y = max(0, s.height - b.height / 2);
    PlanModel {
        width: b.width + s.width,
        height: max(b.height, 2 * s.height),
        baseline: b.baseline + base_y,
        ops: translate_ops(b.ops, 0, base_y) + translate_ops(s.ops, b.width, 0),
    }
}

/// Combination rule for a fraction: numerator over denominator, the
/// narrower operand centered, a bar of thickness `lw` between them, and
/// the baseline through the vertical center of the bar.
pub open spec fn frac_model(n: PlanModel, d: PlanModel, lw: int) -> PlanModel {
    let width = max(n.width, d.width);
    let term_height = max(n.height, d.height);
    let n_x = if n.width < d.width {
        (d.width - n.width) / 2
    } else {
        0
    };
    let d_x = if n.width > d.width {
        (n.width - d.width) / 2
    } else {
        0
    };
    PlanModel {
        width,
        height: 2 * term_height + lw,
        baseline: term_height + lw / 2,
        ops: translate_ops(n.ops, n_x, term_height - n.height) + translate_ops(
            d.ops,
            d_x,
            term_height + lw,
        ) + seq![OpModel::Bar { x: 0, y: term_height, width, height: lw }],
    }
}

/// Combination rule for a radical: the radicand is shifted right and down
/// to leave room for the hook and the top bar of the radical sign.
pub open spec fn root_model(b: PlanModel, lw: int) -> PlanModel {
    let width = b.width + b.height / 2;
    let height = b.height + 3 * lw;
    PlanModel {
        width,
        height,
        baseline: b.baseline + lw,
        ops: translate_ops(b.ops, b.height / 2, 2 * lw) + seq![
            OpModel::Radical {
                x: 0,
                y: 0,
                width,
                height,
                inner_height: b.height,
                line_width: lw,
            },
        ],
    }
}

/// Deepest ascent over a row's children: the row's shared baseline.
pub open spec fn max_baseline(ps: Seq<PlanModel>) -> int
    decreases ps.len(),
{
    if ps.len() == 0 {
        0
    } else {
        max(max_baseline(ps.drop_last()), ps.last().baseline)
    }
}

/// Largest positive descent (height minus baseline) over a row's children.
pub open spec fn max_descent(ps: Seq<PlanModel>) -> int
    decreases ps.len(),
{
    if ps.len() == 0 {
        0
    } else {
        max(max_descent(ps.drop_last()), ps.last().height - ps.last().baseline)
    }
}

/// Sum of the children's widths: the row's width.
pub open spec fn sum_width(ps: Seq<PlanModel>) -> int
    decreases ps.len(),
{
    if ps.len() == 0 {
        0
    } else {
        sum_width(ps.drop_last()) + ps.last().width
    }
}

/// Paint operations of a row: each child's operations shifted right by the
/// widths before it and down so that its baseline lands on the row's.
pub open spec fn row_ops(ps: Seq<PlanModel>, baseline: int, x0: int) -> Seq<OpModel>
    decreases ps.len(),
{
    if ps.len() == 0 {
        Seq::empty()
    } else {
        translate_ops(ps[0].ops, x0, baseline - ps[0].baseline) + row_ops(
            ps.skip(1),
            baseline,
            x0 + ps[0].width,
        )
    }
}

/// Combination rule for a row of children.
pub open spec fn row_model(ps: Seq<PlanModel>) -> PlanModel {
    let baseline = max_baseline(ps);
    PlanModel {
        width: sum_width(ps),
        height: baseline + max_descent(ps),
        baseline,
        ops: row_ops(ps, baseline, 0),
    }
}

/// Box of a phantom: the same box a row over the same children would get,
/// with no paint operations at all.
pub open spec fn phantom_model(ps: Seq<PlanModel>) -> PlanModel {
    PlanModel { ops: Seq::empty(), ..row_model(ps) }
}

/// The planned box, baseline, and paint operations of `e` at font size
/// `fs`, where the metrics of `e`'s leaves stand in `ms` in traversal
/// order starting at index `pos`.
pub open spec fn spec_plan(e: Element, fs: int, ms: Seq<TextMetrics>, pos: int) -> PlanModel
    decreases e,
{
    match e {
        Element::Mi(m) => leaf_model(m.identifier@, fs, ms[pos]),
        Element::Mn(m) => leaf_model(m.number@, fs, ms[pos]),
        Element::Mtext(m) => leaf_model(m.text@, fs, ms[pos]),
        Element::Mo(m) => mo_model(m.operator@, fs, ms[pos]),
        Element::Msub(m) => sub_model(
            spec_plan(*m.base, fs, ms, pos),
            spec_plan(*m.subscript, script_size(fs), ms, pos + leaf_count(*m.base)),
        ),
        Element::Msup(m) => sup_model(
            spec_plan(*m.base, fs, ms, pos),
            spec_plan(*m.superscript, script_size(fs), ms, pos + leaf_count(*m.base)),
        ),
        Element::Mfrac(m) => frac_model(
            spec_plan(*m.numerator, fs, ms, pos),
            spec_plan(*m.denominator, fs, ms, pos + leaf_count(*m.numerator)),
            line_width_of(fs),
        ),
        Element::Msqrt(m) => root_model(spec_plan(*m.term, fs, ms, pos), line_width_of(fs)),
        Element::Mroot(m) => root_model(spec_plan(*m.base, fs, ms, pos), line_width_of(fs)),
        Element::Mrow(m) => row_model(spec_children_plans(m.terms@, fs, ms, pos)),
        Element::Mphantom(m) => phantom_model(spec_children_plans(m.terms@, fs, ms, pos)),
    }
}

/// Plans of a row's children, each over its own stretch of the metrics.
pub open spec fn spec_children_plans(ts: Seq<Element>, fs: int, ms: Seq<TextMetrics>, pos: int) -> Seq<
    PlanModel,
>
    decreases ts,
{
    if ts.len() == 0 {
        Seq::empty()
    } else {
        seq![spec_plan(ts[0], fs, ms, pos)] + spec_children_plans(
            ts.skip(1),
            fs,
            ms,
            pos + leaf_count(ts[0]),
        )
    }
}

/// The leaf texts of `e` in traversal order, each with the effective font
/// size at which the planner will place it.
pub open spec fn spec_requests(e: Element, fs: int) -> Seq<ReqModel>
    decreases e,
{
    match e {
        Element::Mi(m) => seq![ReqModel { text: m.identifier@, font_size: fs }],
        Element::Mn(m) => seq![ReqModel { text: m.number@, font_size: fs }],
        Element::Mtext(m) => seq![ReqModel { text: m.text@, font_size: fs }],
        Element::Mo(m) => seq![ReqModel { text: m.operator@, font_size: fs }],
        Element::Mrow(m) => spec_requests_seq(m.terms@, fs),
        Element::Mphantom(m) => spec_requests_seq(m.terms@, fs),
        Element::Msub(m) => spec_requests(*m.base, fs) + spec_requests(
            *m.subscript,
            script_size(fs),
        ),
        Element::Msup(m) => spec_requests(*m.base, fs) + spec_requests(
            *m.superscript,
            script_size(fs),
        ),
        Element::Mfrac(m) => spec_requests(*m.numerator, fs) + spec_requests(*m.denominator, fs),
        Element::Msqrt(m) => spec_requests(*m.term, fs),
        Element::Mroot(m) => spec_requests(*m.base, fs),
    }
}

pub open spec fn spec_requests_seq(ts: Seq<Element>, fs: int) -> Seq<ReqModel>
    decreases ts,
{
    if ts.len() == 0 {
        Seq::empty()
    } else {
        spec_requests(ts[0], fs) + spec_requests_seq(ts.skip(1), fs)
    }
}

/// Whether an operation lies inside a box of `w` by `h` pixels.  Glyph
/// operations carry no extent of their own, so only their anchor is
/// constrained.
pub open spec fn op_in_box(op: OpModel, w: int, h: int) -> bool {
    match op {
        OpModel::Glyphs { x, y, .. } => 0 <= x <= w && 0 <= y <= h,
        OpModel::Bar { x, y, width, height } => 0 <= x && 0 <= y && 0 <= width && 0 <= height && x
            + width <= w && y + height <= h,
        OpModel::Radical { x, y, width, height, inner_height, line_width } => 0 <= x && 0 <= y && 0
            <= inner_height && 0 <= line_width && x + width <= w && y + height <= h,
    }
}

/// Structural soundness of a planned box: the baseline lies inside it and
/// every paint operation lands inside it.
pub open spec fn wf_plan(p: PlanModel) -> bool {
    &&& 0 <= p.width
    &&& 0 <= p.baseline <= p.height
    &&& forall|i: int| 0 <= i < p.ops.len() ==> op_in_box(#[trigger] p.ops[i], p.width, p.height)
}

/// Every dimension the planner computes for `e` fits in 32 bits.  This is
/// exactly the condition under which planning succeeds.
pub open spec fn fits(e: Element, fs: int, ms: Seq<TextMetrics>, pos: int) -> bool
    decreases e,
{
    match e {
        Element::Mi(_) => true,
        Element::Mn(_) => true,
        Element::Mtext(_) => true,
        Element::Mo(_) => ms[pos].width + 2 * op_spacing(fs) <= u32::MAX,
        Element::Msub(m) => {
            let b = spec_plan(*m.base, fs, ms, pos);
            let s = spec_plan(*m.subscript, script_size(fs), ms, pos + leaf_count(*m.base));
            &&& fits(*m.base, fs, ms, pos)
            &&& fits(*m.subscript, script_size(fs), ms, pos + leaf_count(*m.base))
            &&& b.width + s.width <= u32::MAX
            &&& 2 * s.height <= u32::MAX
        },
        Element::Msup(m) => {
            let b = spec_plan(*m.base, fs, ms, pos);
            let s = spec_plan(*m.superscript, script_size(fs), ms, pos + leaf_count(*m.base));
            &&& fits(*m.base, fs, ms, pos)
            &&& fits(*m.superscript, script_size(fs), ms, pos + leaf_count(*m.base))
            &&& b.width + s.width <= u32::MAX
            &&& 2 * s.height <= u32::MAX
        },
        Element::Mfrac(m) => {
            let n = spec_plan(*m.numerator, fs, ms, pos);
            let d = spec_plan(*m.denominator, fs, ms, pos + leaf_count(*m.numerator));
            &&& fits(*m.numerator, fs, ms, pos)
            &&& fits(*m.denominator, fs, ms, pos + leaf_count(*m.numerator))
            &&& 2 * max(n.height, d.height) + line_width_of(fs) <= u32::MAX
        },
        Element::Msqrt(m) => {
            let b = spec_plan(*m.term, fs, ms, pos);
            &&& fits(*m.term, fs, ms, pos)
            &&& b.width + b.height / 2 <= u32::MAX
            &&& b.height + 3 * line_width_of(fs) <= u32::MAX
        },
        Element::Mroot(m) => {
            let b = spec_plan(*m.base, fs, ms, pos);
            &&& fits(*m.base, fs, ms, pos)
            &&& b.width + b.height / 2 <= u32::MAX
            &&& b.height + 3 * line_width_of(fs) <= u32::MAX
        },
        Element::Mrow(m) => {
            let ps = spec_children_plans(m.terms@, fs, ms, pos);
            &&& fits_seq(m.terms@, fs, ms, pos)
            &&& sum_width(ps) <= u32::MAX
            &&& max_baseline(ps) + max_descent(ps) <= u32::MAX
        },
        Element::Mphantom(m) => {
            let ps = spec_children_plans(m.terms@, fs, ms, pos);
            &&& fits_seq(m.terms@, fs, ms, pos)
            &&& sum_width(ps) <= u32::MAX
            &&& max_baseline(ps) + max_descent(ps) <= u32::MAX
        },
    }
}

pub open spec fn fits_seq(ts: Seq<Element>, fs: int, ms: Seq<TextMetrics>, pos: int) -> bool
    decreases ts,
{
    if ts.len() == 0 {
        true
    } else {
        fits(ts[0], fs, ms, pos) && fits_seq(ts.skip(1), fs, ms, pos + leaf_count(ts[0]))
    }
}

/// The leaf count of a prefix grows by exactly the next child's count.
pub proof fn lemma_leaf_count_seq_snoc(ts: Seq<Element>, i: int)
    requires
        0 <= i < ts.len(),
    ensures
        leaf_count_seq(ts.take(i + 1)) == leaf_count_seq(ts.take(i)) + leaf_count(ts[i]),
    decreases i,
{
    if i == 0 {
        reveal_with_fuel(leaf_count_seq, 2);
        assert(ts.take(1) =~= seq![ts[0]]);
        assert(ts.take(0).len() == 0);
        assert(ts.take(1).skip(1).len() == 0);
    } else {
        lemma_leaf_count_seq_snoc(ts.skip(1), i - 1);
        assert(ts.take(i + 1).skip(1) =~= ts.skip(1).take(i));
        assert(ts.take(i).skip(1) =~= ts.skip(1).take(i - 1));
        assert(ts.skip(1)[i - 1] == ts[i]);
        assert(ts.take(i + 1)[0] == ts[0]);
        assert(ts.take(i)[0] == ts[0]);
    }
}

/// The leaves of a row split at any point into those of the prefix and
/// those of the rest.
pub proof fn lemma_leaf_count_seq_split(ts: Seq<Element>, i: int)
    requires
        0 <= i <= ts.len(),
    ensures
        leaf_count_seq(ts) == leaf_count_seq(ts.take(i)) + leaf_count_seq(ts.skip(i)),
    decreases i,
{
    if i == 0 {
        assert(ts.take(0).len() == 0);
        assert(ts.skip(0) =~= ts);
    } else {
        lemma_leaf_count_seq_split(ts.skip(1), i - 1);
        assert(ts.skip(1).take(i - 1) =~= ts.take(i).skip(1));
        assert(ts.skip(1).skip(i - 1) =~= ts.skip(i));
        assert(ts.take(i)[0] == ts[0]);
    }
}

/// Extending a planned prefix of a row by one child appends exactly that
/// child's plan, and the prefix fits exactly when both parts fit.
pub proof fn lemma_children_snoc(ts: Seq<Element>, fs: int, ms: Seq<TextMetrics>, pos: int, i: int)
    requires
        0 <= i < ts.len(),
    ensures
        spec_children_plans(ts.take(i + 1), fs, ms, pos) == spec_children_plans(
            ts.take(i),
            fs,
            ms,
            pos,
        ) + seq![spec_plan(ts[i], fs, ms, pos + leaf_count_seq(ts.take(i)))],
        fits_seq(ts.take(i + 1), fs, ms, pos) <==> (fits_seq(ts.take(i), fs, ms, pos) && fits(
            ts[i],
            fs,
            ms,
            pos + leaf_count_seq(ts.take(i)),
        )),
    decreases i,
{
    if i == 0 {
        reveal_with_fuel(spec_children_plans, 2);
        reveal_with_fuel(fits_seq, 2);
        assert(ts.take(1) =~= seq![ts[0]]);
        assert(ts.take(0).len() == 0);
        assert(ts.take(1).skip(1).len() == 0);
        assert(spec_children_plans(ts.take(1), fs, ms, pos) =~= spec_children_plans(
            ts.take(0),
            fs,
            ms,
            pos,
        ) + seq![spec_plan(ts[0], fs, ms, pos)]);
    } else {
        lemma_children_snoc(ts.skip(1), fs, ms, pos + leaf_count(ts[0]), i - 1);
        assert(ts.take(i + 1).skip(1) =~= ts.skip(1).take(i));
        assert(ts.take(i).skip(1) =~= ts.skip(1).take(i - 1));
        assert(ts.skip(1)[i - 1] == ts[i]);
        assert(ts.take(i + 1)[0] == ts[0]);
        assert(ts.take(i)[0] == ts[0]);
        lemma_leaf_count_seq_snoc(ts, i);
        lemma_leaf_count_seq_snoc(ts.skip(1), i - 1);
        assert(leaf_count_seq(ts.take(i)) == leaf_count(ts[0]) + leaf_count_seq(
            ts.skip(1).take(i - 1),
        )) by {
            lemma_leaf_count_seq_split(ts.take(i), 1);
            assert(ts.take(i).take(1) =~= ts.take(1));
            assert(ts.take(1) =~= seq![ts[0]]);
            assert(ts.take(1).skip(1).len() == 0);
        }
        assert(spec_children_plans(ts.take(i + 1), fs, ms, pos) =~= spec_children_plans(
            ts.take(i),
            fs,
            ms,
            pos,
        ) + seq![spec_plan(ts[i], fs, ms, pos + leaf_count_seq(ts.take(i)))]);
    }
}

/// The row baseline bounds every child's baseline from above.
pub proof fn lemma_max_baseline_bounds(ps: Seq<PlanModel>)
    ensures
        0 <= max_baseline(ps),
        forall|i: int| 0 <= i < ps.len() ==> #[trigger] ps[i].baseline <= max_baseline(ps),
    decreases ps.len(),
{
    if ps.len() > 0 {
        lemma_max_baseline_bounds(ps.drop_last());
        assert forall|i: int| 0 <= i < ps.len() implies #[trigger] ps[i].baseline <= max_baseline(
            ps,
        ) by {
            if i < ps.len() - 1 {
                assert(ps.drop_last()[i] == ps[i]);
            }
        }
    }
}

/// The row descent bounds every child's own descent from above.
pub proof fn lemma_max_descent_bounds(ps: Seq<PlanModel>)
    ensures
        0 <= max_descent(ps),
        forall|i: int|
            0 <= i < ps.len() ==> (#[trigger] ps[i]).height - ps[i].baseline <= max_descent(ps),
    decreases ps.len(),
{
    if ps.len() > 0 {
        lemma_max_descent_bounds(ps.drop_last());
        assert forall|i: int|
            0 <= i < ps.len() implies (#[trigger] ps[i]).height - ps[i].baseline <= max_descent(
            ps,
        ) by {
            if i < ps.len() - 1 {
                assert(ps.drop_last()[i] == ps[i]);
            }
        }
    }
}

pub proof fn lemma_sum_width_nonneg(ps: Seq<PlanModel>)
    requires
        forall|i: int| 0 <= i < ps.len() ==> 0 <= (#[trigger] ps[i]).width,
    ensures
        0 <= sum_width(ps),
    decreases ps.len(),
{
    if ps.len() > 0 {
        assert forall|i: int| 0 <= i < ps.drop_last().len() implies 0 <= (#[trigger] ps.drop_last()[i]).width by {
            assert(ps.drop_last()[i] == ps[i]);
        }
        lemma_sum_width_nonneg(ps.drop_last());
    }
}

/// A row's width can also be split off at the front.
pub proof fn lemma_sum_width_skip(ps: Seq<PlanModel>)
    requires
        ps.len() >= 1,
    ensures
        sum_width(ps) == ps[0].width + sum_width(ps.skip(1)),
    decreases ps.len(),
{
    if ps.len() == 1 {
        assert(ps.skip(1).len() == 0);
        assert(sum_width(ps.skip(1)) == 0);
        assert(ps.drop_last().len() == 0);
        assert(sum_width(ps.drop_last()) == 0);
        assert(ps.last() == ps[0]);
    } else {
        let dl = ps.drop_last();
        lemma_sum_width_skip(dl);
        assert(dl[0] == ps[0]);
        assert(ps.skip(1).drop_last() =~= dl.skip(1));
        assert(ps.skip(1).last() == ps.last());
        assert(sum_width(ps.skip(1)) == sum_width(dl.skip(1)) + ps.last().width);
        assert(sum_width(ps) == sum_width(dl) + ps.last().width);
    }
}

/// A prefix of a row is no wider than the whole row.
pub proof fn lemma_sum_width_prefix_le(ps: Seq<PlanModel>, i: int)
    requires
        forall|j: int| 0 <= j < ps.len() ==> 0 <= (#[trigger] ps[j]).width,
        0 <= i <= ps.len(),
    ensures
        sum_width(ps.take(i)) <= sum_width(ps),
    decreases ps.len(),
{
    if i == ps.len() {
        assert(ps.take(i) =~= ps);
    } else {
        let dl = ps.drop_last();
        assert forall|j: int| 0 <= j < dl.len() implies 0 <= (#[trigger] dl[j]).width by {
            assert(dl[j] == ps[j]);
        }
        lemma_sum_width_prefix_le(dl, i);
        assert(ps.take(i) =~= dl.take(i));
        assert(0 <= ps[ps.len() - 1].width);
    }
}

/// Operations that fit a box still fit after the box and the operations
/// move together.
pub proof fn lemma_translate_ops_in_box(
    ops: Seq<OpModel>,
    dx: int,
    dy: int,
    w0: int,
    h0: int,
    w: int,
    h: int,
)
    requires
        forall|i: int| 0 <= i < ops.len() ==> op_in_box(#[trigger] ops[i], w0, h0),
        0 <= dx,
        0 <= dy,
        dx + w0 <= w,
        dy + h0 <= h,
    ensures
        translate_ops(ops, dx, dy).len() == ops.len(),
        forall|i: int|
            0 <= i < ops.len() ==> op_in_box(#[trigger] translate_ops(ops, dx, dy)[i], w, h),
{
    assert forall|i: int|
        0 <= i < ops.len() implies op_in_box(#[trigger] translate_ops(ops, dx, dy)[i], w, h) by {
        assert(translate_ops(ops, dx, dy)[i] == translate_op(ops[i], dx, dy));
        assert(op_in_box(ops[i], w0, h0));
    }
}

/// Every operation of a row lands inside a box that holds every child at
/// its offset.
pub proof fn lemma_row_ops_in_box(ps: Seq<PlanModel>, baseline: int, x0: int, w: int, h: int)
    requires
        forall|i: int| 0 <= i < ps.len() ==> wf_plan(#[trigger] ps[i]),
        forall|i: int| 0 <= i < ps.len() ==> (#[trigger] ps[i]).baseline <= baseline,
        forall|i: int|
            0 <= i < ps.len() ==> baseline - (#[trigger] ps[i]).baseline + ps[i].height <= h,
        0 <= x0,
        x0 + sum_width(ps) <= w,
    ensures
        forall|j: int|
            0 <= j < row_ops(ps, baseline, x0).len() ==> op_in_box(
                #[trigger] row_ops(ps, baseline, x0)[j],
                w,
                h,
            ),
    decreases ps.len(),
{
    if ps.len() > 0 {
        let head = ps[0];
        let rest = ps.skip(1);
        lemma_sum_width_skip(ps);
        assert forall|i: int| 0 <= i < rest.len() implies wf_plan(#[trigger] rest[i]) && rest[i].baseline
            <= baseline && baseline - rest[i].baseline + rest[i].height <= h by {
            assert(rest[i] == ps[i + 1]);
        }
        assert forall|i: int| 0 <= i < rest.len() implies 0 <= (#[trigger] rest[i]).width by {
            assert(wf_plan(rest[i]));
        }
        lemma_sum_width_nonneg(rest);
        lemma_row_ops_in_box(rest, baseline, x0 + head.width, w, h);
        lemma_translate_ops_in_box(
            head.ops,
            x0,
            baseline - head.baseline,
            head.width,
            head.height,
            x0 + head.width,
            baseline - head.baseline + head.height,
        );
        let head_ops = translate_ops(head.ops, x0, baseline - head.baseline);
        let rest_ops = row_ops(rest, baseline, x0 + head.width);
        assert forall|j: int|
            0 <= j < row_ops(ps, baseline, x0).len() implies op_in_box(
            #[trigger] row_ops(ps, baseline, x0)[j],
            w,
            h,
        ) by {
            assert(row_ops(ps, baseline, x0) == head_ops + rest_ops);
            if j < head_ops.len() {
                assert(row_ops(ps, baseline, x0)[j] == head_ops[j]);
                assert(op_in_box(head_ops[j], x0 + head.width, baseline - head.baseline
                    + head.height));
            } else {
                assert(row_ops(ps, baseline, x0)[j] == rest_ops[j - head_ops.len()]);
            }
        }
    }
}

/// Splitting a row in two splits its paint operations in two, the second
/// part shifted right by the width of the first.
pub proof fn lemma_row_ops_concat(a: Seq<PlanModel>, b: Seq<PlanModel>, baseline: int, x0: int)
    ensures
        row_ops(a + b, baseline, x0) == row_ops(a, baseline, x0) + row_ops(
            b,
            baseline,
            x0 + sum_width(a),
        ),
    decreases a.len(),
{
    if a.len() == 0 {
        assert(a + b =~= b);
        assert(row_ops(a + b, baseline, x0) =~= row_ops(a, baseline, x0) + row_ops(
            b,
            baseline,
            x0 + sum_width(a),
        ));
    } else {
        let t = a + b;
        assert(t[0] == a[0]);
        assert(t.skip(1) =~= a.skip(1) + b);
        lemma_row_ops_concat(a.skip(1), b, baseline, x0 + a[0].width);
        lemma_sum_width_skip(a);
        assert(row_ops(t, baseline, x0) =~= row_ops(a, baseline, x0) + row_ops(
            b,
            baseline,
            x0 + sum_width(a),
        ));
    }
}

/// A row over well-formed children is well-formed, and so is the phantom
/// that shares its box.
pub proof fn lemma_row_wf(ps: Seq<PlanModel>)
    requires
        forall|i: int| 0 <= i < ps.len() ==> wf_plan(#[trigger] ps[i]),
    ensures
        wf_plan(row_model(ps)),
        wf_plan(phantom_model(ps)),
{
    lemma_max_baseline_bounds(ps);
    lemma_max_descent_bounds(ps);
    assert forall|i: int| 0 <= i < ps.len() implies 0 <= (#[trigger] ps[i]).width by {}
    lemma_sum_width_nonneg(ps);
    let baseline = max_baseline(ps);
    let h = baseline + max_descent(ps);
    assert forall|i: int|
        0 <= i < ps.len() implies baseline - (#[trigger] ps[i]).baseline + ps[i].height <= h by {
        assert(ps[i].height - ps[i].baseline <= max_descent(ps));
    }
    lemma_row_ops_in_box(ps, baseline, 0, sum_width(ps), h);
}

/// A subscript combination of well-formed plans is well-formed, and both
/// operands stay inside the combined box at their offsets.
pub proof fn lemma_sub_wf(b: PlanModel, s: PlanModel)
    requires
        wf_plan(b),
        wf_plan(s),
    ensures
        wf_plan(sub_model(b, s)),
        b.height + max(0, s.height - b.height / 2) <= max(b.height, 2 * s.height),
        max(0, s.height - b.height / 2) + b.height / 2 + s.height <= max(b.height, 2 * s.height),
{
    let base_y = max(0, s.height - b.height / 2);
    let w = b.width + s.width;
    let h = max(b.height, 2 * s.height);
    assert(b.height - b.height / 2 <= b.height / 2 + 1);
    lemma_translate_ops_in_box(b.ops, 0, base_y, b.width, b.height, w, h);
    lemma_translate_ops_in_box(s.ops, b.width, base_y + b.height / 2, s.width, s.height, w, h);
    let b_ops = translate_ops(b.ops, 0, base_y);
    let s_ops = translate_ops(s.ops, b.width, base_y + b.height / 2);
    assert forall|j: int|
        0 <= j < (b_ops + s_ops).len() implies op_in_box(#[trigger] (b_ops + s_ops)[j], w, h) by {
        if j < b_ops.len() {
            assert((b_ops + s_ops)[j] == b_ops[j]);
        } else {
            assert((b_ops + s_ops)[j] == s_ops[j - b_ops.len()]);
        }
    }
}

/// The mirror of [`lemma_sub_wf`] for superscripts.
pub proof fn lemma_sup_wf(b: PlanModel, s: PlanModel)
    requires
        wf_plan(b),
        wf_plan(s),
    ensures
        wf_plan(sup_model(b, s)),
        b.height + max(0, s.height - b.height / 2) <= max(b.height, 2 * s.height),
{
    let base_y = max(0, s.height - b.height / 2);
    let w = b.width + s.width;
    let h = max(b.height, 2 * s.height);
    assert(b.height - b.height / 2 <= b.height / 2 + 1);
    lemma_translate_ops_in_box(b.ops, 0, base_y, b.width, b.height, w, h);
    lemma_translate_ops_in_box(s.ops, b.width, 0, s.width, s.height, w, h);
    let b_ops = translate_ops(b.ops, 0, base_y);
    let s_ops = translate_ops(s.ops, b.width, 0);
    assert forall|j: int|
        0 <= j < (b_ops + s_ops).len() implies op_in_box(#[trigger] (b_ops + s_ops)[j], w, h) by {
        if j < b_ops.len() {
            assert((b_ops + s_ops)[j] == b_ops[j]);
        } else {
            assert((b_ops + s_ops)[j] == s_ops[j - b_ops.len()]);
        }
    }
}

/// A fraction of well-formed operands is well-formed.
pub proof fn lemma_frac_wf(n: PlanModel, d: PlanModel, lw: int)
    requires
        wf_plan(n),
        wf_plan(d),
        0 <= lw,
    ensures
        wf_plan(frac_model(n, d, lw)),
{
    let w = max(n.width, d.width);
    let term_height = max(n.height, d.height);
    let h = 2 * term_height + lw;
    let n_x = if n.width < d.width {
        (d.width - n.width) / 2
    } else {
        0
    };
    let d_x = if n.width > d.width {
        (n.width - d.width) / 2
    } else {
        0
    };
    lemma_translate_ops_in_box(n.ops, n_x, term_height - n.height, n.width, n.height, n_x + n.width, term_height);
    lemma_translate_ops_in_box(d.ops, d_x, term_height + lw, d.width, d.height, d_x + d.width, h);
    let n_ops = translate_ops(n.ops, n_x, term_height - n.height);
    let d_ops = translate_ops(d.ops, d_x, term_height + lw);
    let bar = seq![OpModel::Bar { x: 0, y: term_height, width: w, height: lw }];
    let all = n_ops + d_ops + bar;
    assert forall|j: int| 0 <= j < all.len() implies op_in_box(#[trigger] all[j], w, h) by {
        if j < n_ops.len() {
            assert(all[j] == n_ops[j]);
            assert(op_in_box(n_ops[j], n_x + n.width, term_height));
        } else if j < n_ops.len() + d_ops.len() {
            assert(all[j] == d_ops[j - n_ops.len()]);
            assert(op_in_box(d_ops[j - n_ops.len()], d_x + d.width, h));
        } else {
            assert(all[j] == bar[0]);
        }
    }
}

/// Every plan the planner describes is structurally sound: its baseline
/// and all of its paint operations lie inside its box.
pub proof fn lemma_plan_wf(e: Element, fs: int, ms: Seq<TextMetrics>, pos: int)
    requires
        0 <= fs,
        valid_metrics(ms),
        0 <= pos,
        pos + leaf_count(e) <= ms.len(),
    ensures
        wf_plan(spec_plan(e, fs, ms, pos)),
    decreases e,
{
    match e {
        Element::Mi(_) => {},
        Element::Mn(_) => {},
        Element::Mtext(_) => {},
        Element::Mo(_) => {},
        Element::Msub(m) => {
            lemma_plan_wf(*m.base, fs, ms, pos);
            lemma_plan_wf(*m.subscript, script_size(fs), ms, pos + leaf_count(*m.base));
            lemma_sub_wf(
                spec_plan(*m.base, fs, ms, pos),
                spec_plan(*m.subscript, script_size(fs), ms, pos + leaf_count(*m.base)),
            );
        },
        Element::Msup(m) => {
            lemma_plan_wf(*m.base, fs, ms, pos);
            lemma_plan_wf(*m.superscript, script_size(fs), ms, pos + leaf_count(*m.base));
            lemma_sup_wf(
                spec_plan(*m.base, fs, ms, pos),
                spec_plan(*m.superscript, script_size(fs), ms, pos + leaf_count(*m.base)),
            );
        },
        Element::Mfrac(m) => {
            lemma_plan_wf(*m.numerator, fs, ms, pos);
            lemma_plan_wf(*m.denominator, fs, ms, pos + leaf_count(*m.numerator));
            lemma_frac_wf(
                spec_plan(*m.numerator, fs, ms, pos),
                spec_plan(*m.denominator, fs, ms, pos + leaf_count(*m.numerator)),
                line_width_of(fs),
            );
        },
        Element::Msqrt(m) => {
            lemma_plan_wf(*m.term, fs, ms, pos);
            lemma_root_wf(spec_plan(*m.term, fs, ms, pos), line_width_of(fs));
        },
        Element::Mroot(m) => {
            lemma_plan_wf(*m.base, fs, ms, pos);
            lemma_root_wf(spec_plan(*m.base, fs, ms, pos), line_width_of(fs));
        },
        Element::Mrow(m) => {
            lemma_children_plans_wf(m.terms@, fs, ms, pos);
            lemma_row_wf(spec_children_plans(m.terms@, fs, ms, pos));
        },
        Element::Mphantom(m) => {
            lemma_children_plans_wf(m.terms@, fs, ms, pos);
            lemma_row_wf(spec_children_plans(m.terms@, fs, ms, pos));
        },
    }
}

/// The children of a row are each structurally sound, and there are as
/// many child plans as children.
pub proof fn lemma_children_plans_wf(ts: Seq<Element>, fs: int, ms: Seq<TextMetrics>, pos: int)
    requires
        0 <= fs,
        valid_metrics(ms),
        0 <= pos,
        pos + leaf_count_seq(ts) <= ms.len(),
    ensures
        spec_children_plans(ts, fs, ms, pos).len() == ts.len(),
        forall|i: int|
            0 <= i < ts.len() ==> wf_plan(#[trigger] spec_children_plans(ts, fs, ms, pos)[i]),
    decreases ts,
{
    if ts.len() > 0 {
        let c = leaf_count(ts[0]) as int;
        lemma_plan_wf(ts[0], fs, ms, pos);
        lemma_children_plans_wf(ts.skip(1), fs, ms, pos + c);
        let ps = spec_children_plans(ts, fs, ms, pos);
        let rest = spec_children_plans(ts.skip(1), fs, ms, pos + c);
        assert forall|i: int| 0 <= i < ts.len() implies wf_plan(#[trigger] ps[i]) by {
            if i == 0 {
                assert(ps[0] == spec_plan(ts[0], fs, ms, pos));
            } else {
                assert(ps[i] == rest[i - 1]);
            }
        }
    }
}

/// A radical around a well-formed radicand is well-formed.
pub proof fn lemma_root_wf(b: PlanModel, lw: int)
    requires
        wf_plan(b),
        0 <= lw,
    ensures
        wf_plan(root_model(b, lw)),
{
    let w = b.width + b.height / 2;
    let h = b.height + 3 * lw;
    lemma_translate_ops_in_box(b.ops, b.height / 2, 2 * lw, b.width, b.height, w, h);
    let b_ops = translate_ops(b.ops, b.height / 2, 2 * lw);
    let sign = seq![
        OpModel::Radical { x: 0, y: 0, width: w, height: h, inner_height: b.height, line_width: lw },
    ];
    let all = b_ops + sign;
    assert forall|j: int| 0 <= j < all.len() implies op_in_box(#[trigger] all[j], w, h) by {
        if j < b_ops.len() {
            assert(all[j] == b_ops[j]);
        } else {
            assert(all[j] == sign[0]);
        }
    }
}

/// Bridges the operation quantifier of [`wf_plan`] from the model's
/// sequence to the carrying vector.
proof fn lemma_plan_ops_in_box(p: RenderingPlan)
    requires
        wf_plan(p@),
    ensures
        forall|i: int| 0 <= i < p.ops@.len() ==> op_in_box(#[trigger] p.ops@[i]@, p@.width, p@.height),
{
    assert forall|i: int| 0 <= i < p.ops@.len() implies op_in_box(
        #[trigger] p.ops@[i]@,
        p@.width,
        p@.height,
    ) by {
        assert(p@.ops[i] == p.ops@[i]@);
    }
}

/// Copies `ops`, shifting every operation right by `dx` and down by `dy`.
/// The ghost bounds carry the box the operations are known to fit, which
/// rules out overflow of the shifted coordinates.
fn translate_plan_ops(
    ops: &Vec<PaintOp>,
    dx: u32,
    dy: u32,
    Ghost(w0): Ghost<int>,
    Ghost(h0): Ghost<int>,
) -> (r: Vec<PaintOp>)
    requires
        forall|i: int| 0 <= i < ops@.len() ==> op_in_box(#[trigger] ops@[i]@, w0, h0),
        dx + w0 <= u32::MAX,
        dy + h0 <= u32::MAX,
    ensures
        r@.len() == ops@.len(),
        forall|i: int|
            0 <= i < ops@.len() ==> #[trigger] r@[i]@ == translate_op(
                ops@[i]@,
                dx as int,
                dy as int,
            ),
{
    let mut out: Vec<PaintOp> = Vec::new();
    let mut i: usize = 0;
    while i < ops.len()
        invariant
            i <= ops@.len(),
            out@.len() == i,
            forall|j: int|
                0 <= j < i ==> #[trigger] out@[j]@ == translate_op(ops@[j]@, dx as int, dy as int),
            forall|j: int| 0 <= j < ops@.len() ==> op_in_box(#[trigger] ops@[j]@, w0, h0),
            dx + w0 <= u32::MAX,
            dy + h0 <= u32::MAX,
        decreases ops@.len() - i,
    {
        proof {
            assert(op_in_box(ops@[i as int]@, w0, h0));
        }
        let op = match &ops[i] {
            PaintOp::Glyphs { text, font_size, x, y } => PaintOp::Glyphs {
                text: text.clone(),
                font_size: *font_size,
                x: *x + dx,
                y: *y + dy,
            },
            PaintOp::Bar { x, y, width, height } => PaintOp::Bar {
                x: *x + dx,
                y: *y + dy,
                width: *width,
                height: *height,
            },
            PaintOp::Radical { x, y, width, height, inner_height, line_width } => PaintOp::Radical {
                x: *x + dx,
                y: *y + dy,
                width: *width,
                height: *height,
                inner_height: *inner_height,
                line_width: *line_width,
            },
        };
        out.push(op);
        i = i + 1;
    }
    out
}

/// Lays out a base and its subscript, as [`sub_model`] describes.
pub(crate) fn combine_sub(base: RenderingPlan, script: RenderingPlan) -> (r: Result<
    RenderingPlan,
    LayoutError,
>)
    requires
        wf_plan(base@),
        wf_plan(script@),
    ensures
        r is Ok <==> base@.width + script@.width <= u32::MAX && 2 * script@.height <= u32::MAX,
        r matches Ok(p) ==> p@ == sub_model(base@, script@) && wf_plan(p@),
        r matches Err(er) ==> er == LayoutError::Overflow,
{
    let width = match base.width.checked_add(script.width) {
        Some(w) => w,
        None => {
            return Err(LayoutError::Overflow);
        },
    };
    let doubled = match script.height.checked_mul(2) {
        Some(h) => h,
        None => {
            return Err(LayoutError::Overflow);
        },
    };
    let height = if base.height >= doubled {
        base.height
    } else {
        doubled
    };
    let half = base.height / 2;
    let base_y = if script.height > half {
        script.height - half
    } else {
        0
    };
    proof {
        lemma_sub_wf(base@, script@);
        lemma_plan_ops_in_box(base);
        lemma_plan_ops_in_box(script);
        assert(height == max(base@.height, 2 * script@.height));
        assert(base_y == max(0, script@.height - base@.height / 2));
        assert(base@.height + base_y <= height);
        assert(base_y + half + script@.height <= height);
    }
    let baseline = base.baseline + base_y;
    let mut ops = translate_plan_ops(&base.ops, 0, base_y, Ghost(base@.width), Ghost(base@.height));
    let mut s_ops = translate_plan_ops(
        &script.ops,
        base.width,
        base_y + half,
        Ghost(script@.width),
        Ghost(script@.height),
    );
    ops.append(&mut s_ops);
    let p = RenderingPlan { width, height, baseline, ops };
    proof {
        let m1 = translate_ops(base@.ops, 0, base_y as int);
        let m2 = translate_ops(script@.ops, base@.width, base_y as int + base@.height / 2);
        assert forall|j: int| 0 <= j < p.ops@.len() implies #[trigger] p@.ops[j] == (m1 + m2)[j] by {
            if j < base.ops@.len() {
                assert(p.ops@[j]@ == translate_op(base@.ops[j], 0, base_y as int));
            } else {
                assert(p.ops@[j]@ == translate_op(
                    script@.ops[j - base.ops@.len()],
                    base@.width,
                    base_y as int + base@.height / 2,
                ));
            }
        }
        assert(p@.ops =~= m1 + m2);
        assert(p@ == sub_model(base@, script@));
    }
    Ok(p)
}

/// Lays out a base and its superscript, as [`sup_model`] describes.
pub(crate) fn combine_sup(base: RenderingPlan, script: RenderingPlan) -> (r: Result<
    RenderingPlan,
    LayoutError,
>)
    requires
        wf_plan(base@),
        wf_plan(script@),
    ensures
        r is Ok <==> base@.width + script@.width <= u32::MAX && 2 * script@.height <= u32::MAX,
        r matches Ok(p) ==> p@ == sup_model(base@, script@) && wf_plan(p@),
        r matches Err(er) ==> er == LayoutError::Overflow,
{
    let width = match base.width.checked_add(script.width) {
        Some(w) => w,
        None => {
            return Err(LayoutError::Overflow);
        },
    };
    let doubled = match script.height.checked_mul(2) {
        Some(h) => h,
        None => {
            return Err(LayoutError::Overflow);
        },
    };
    let height = if base.height >= doubled {
        base.height
    } else {
        doubled
    };
    let half = base.height / 2;
    let base_y = if script.height > half {
        script.height - half
    } else {
        0
    };
    proof {
        lemma_sup_wf(base@, script@);
        lemma_plan_ops_in_box(base);
        lemma_plan_ops_in_box(script);
        assert(height == max(base@.height, 2 * script@.height));
        assert(base_y == max(0, script@.height - base@.height / 2));
        assert(base@.height + base_y <= height);
        assert(script@.height <= height);
    }
    let baseline = base.baseline + base_y;
    let mut ops = translate_plan_ops(&base.ops, 0, base_y, Ghost(base@.width), Ghost(base@.height));
    let mut s_ops = translate_plan_ops(
        &script.ops,
        base.width,
        0,
        Ghost(script@.width),
        Ghost(script@.height),
    );
    ops.append(&mut s_ops);
    let p = RenderingPlan { width, height, baseline, ops };
    proof {
        let m1 = translate_ops(base@.ops, 0, base_y as int);
        let m2 = translate_ops(script@.ops, base@.width, 0);
        assert forall|j: int| 0 <= j < p.ops@.len() implies #[trigger] p@.ops[j] == (m1 + m2)[j] by {
            if j < base.ops@.len() {
                assert(p.ops@[j]@ == translate_op(base@.ops[j], 0, base_y as int));
            } else {
                assert(p.ops@[j]@ == translate_op(
                    script@.ops[j - base.ops@.len()],
                    base@.width,
                    0,
                ));
            }
        }
        assert(p@.ops =~= m1 + m2);
        assert(p@ == sup_model(base@, script@));
    }
    Ok(p)
}

/// Lays out a numerator over a denominator, as [`frac_model`] describes.
pub(crate) fn combine_frac(numer: RenderingPlan, denom: RenderingPlan, line_width: u32) -> (r:
    Result<RenderingPlan, LayoutError>)
    requires
        wf_plan(numer@),
        wf_plan(denom@),
    ensures
        r is Ok <==> 2 * max(numer@.height, denom@.height) + line_width <= u32::MAX,
        r matches Ok(p) ==> p@ == frac_model(numer@, denom@, line_width as int) && wf_plan(p@),
        r matches Err(er) ==> er == LayoutError::Overflow,
{
    let term_height = if numer.height >= denom.height {
        numer.height
    } else {
        denom.height
    };
    let h64: u64 = 2 * (term_height as u64) + (line_width as u64);
    if h64 > u32::MAX as u64 {
        return Err(LayoutError::Overflow);
    }
    let height = h64 as u32;
    let width = if numer.width >= denom.width {
        numer.width
    } else {
        denom.width
    };
    let n_x = if numer.width < denom.width {
        (denom.width - numer.width) / 2
    } else {
        0
    };
    let d_x = if numer.width > denom.width {
        (numer.width - denom.width) / 2
    } else {
        0
    };
    let baseline = term_height + line_width / 2;
    proof {
        lemma_frac_wf(numer@, denom@, line_width as int);
        lemma_plan_ops_in_box(numer);
        lemma_plan_ops_in_box(denom);
        assert(term_height == max(numer@.height, denom@.height));
        assert(width == max(numer@.width, denom@.width));
        assert(n_x + numer@.width <= width);
        assert(d_x + denom@.width <= width);
        assert(term_height + line_width <= height);
    }
    let mut ops = translate_plan_ops(
        &numer.ops,
        n_x,
        term_height - numer.height,
        Ghost(numer@.width),
        Ghost(numer@.height),
    );
    let mut d_ops = translate_plan_ops(
        &denom.ops,
        d_x,
        term_height + line_width,
        Ghost(denom@.width),
        Ghost(denom@.height),
    );
    ops.append(&mut d_ops);
    let mut bar: Vec<PaintOp> = Vec::new();
    bar.push(PaintOp::Bar { x: 0, y: term_height, width, height: line_width });
    ops.append(&mut bar);
    let p = RenderingPlan { width, height, baseline, ops };
    proof {
        let m1 = translate_ops(numer@.ops, n_x as int, term_height - numer@.height);
        let m2 = translate_ops(denom@.ops, d_x as int, term_height + line_width as int);
        let m3 = seq![
            OpModel::Bar {
                x: 0,
                y: term_height as int,
                width: width as int,
                height: line_width as int,
            },
        ];
        assert forall|j: int| 0 <= j < p.ops@.len() implies #[trigger] p@.ops[j] == (m1 + m2
            + m3)[j] by {
            if j < numer.ops@.len() {
                assert(p.ops@[j]@ == translate_op(
                    numer@.ops[j],
                    n_x as int,
                    term_height - numer@.height,
                ));
            } else if j < numer.ops@.len() + denom.ops@.len() {
                assert(p.ops@[j]@ == translate_op(
                    denom@.ops[j - numer.ops@.len()],
                    d_x as int,
                    term_height + line_width as int,
                ));
            } else {
                assert(p@.ops[j] == m3[0]);
            }
        }
        assert(p@.ops =~= m1 + m2 + m3);
        assert(p@ == frac_model(numer@, denom@, line_width as int));
    }
    Ok(p)
}

/// Lays out a radical sign around a radicand, as [`root_model`] describes.
pub(crate) fn combine_root(inner: RenderingPlan, line_width: u32) -> (r: Result<
    RenderingPlan,
    LayoutError,
>)
    requires
        wf_plan(inner@),
    ensures
        r is Ok <==> inner@.width + inner@.height / 2 <= u32::MAX && inner@.height + 3 * line_width
            <= u32::MAX,
        r matches Ok(p) ==> p@ == root_model(inner@, line_width as int) && wf_plan(p@),
        r matches Err(er) ==> er == LayoutError::Overflow,
{
    let half = inner.height / 2;
    let width = match inner.width.checked_add(half) {
        Some(w) => w,
        None => {
            return Err(LayoutError::Overflow);
        },
    };
    let h64: u64 = (inner.height as u64) + 3 * (line_width as u64);
    if h64 > u32::MAX as u64 {
        return Err(LayoutError::Overflow);
    }
    let height = h64 as u32;
    let baseline = inner.baseline + line_width;
    let two_lw = 2 * line_width;
    proof {
        lemma_root_wf(inner@, line_width as int);
        lemma_plan_ops_in_box(inner);
        assert(two_lw + inner@.height <= height);
    }
    let mut ops = translate_plan_ops(
        &inner.ops,
        half,
        two_lw,
        Ghost(inner@.width),
        Ghost(inner@.height),
    );
    let mut sign: Vec<PaintOp> = Vec::new();
    sign.push(
        PaintOp::Radical { x: 0, y: 0, width, height, inner_height: inner.height, line_width },
    );
    ops.append(&mut sign);
    let p = RenderingPlan { width, height, baseline, ops };
    proof {
        let m1 = translate_ops(inner@.ops, inner@.height / 2, 2 * line_width as int);
        let m2 = seq![
            OpModel::Radical {
                x: 0,
                y: 0,
                width: width as int,
                height: height as int,
                inner_height: inner@.height,
                line_width: line_width as int,
            },
        ];
        assert forall|j: int| 0 <= j < p.ops@.len() implies #[trigger] p@.ops[j] == (m1 + m2)[j] by {
            if j < inner.ops@.len() {
                assert(p.ops@[j]@ == translate_op(
                    inner@.ops[j],
                    inner@.height / 2,
                    2 * line_width as int,
                ));
            } else {
                assert(p@.ops[j] == m2[0]);
            }
        }
        assert(p@.ops =~= m1 + m2);
        assert(p@ == root_model(inner@, line_width as int));
    }
    Ok(p)
}

/// The models of a vector of plans.
pub open spec fn plans_of(children: Seq<RenderingPlan>) -> Seq<PlanModel> {
    children.map_values(|c: RenderingPlan| c@)
}

/// Lays out a row of already planned children, as [`row_model`] describes;
/// with `phantom` set it reserves the same box without any paint
/// operations, as [`phantom_model`] describes.
pub(crate) fn combine_row(children: &Vec<RenderingPlan>, phantom: bool) -> (r: Result<
    RenderingPlan,
    LayoutError,
>)
    requires
        forall|i: int| 0 <= i < children@.len() ==> wf_plan(#[trigger] children@[i]@),
    ensures
        r is Ok <==> sum_width(plans_of(children@)) <= u32::MAX && max_baseline(plans_of(children@))
            + max_descent(plans_of(children@)) <= u32::MAX,
        r matches Ok(p) ==> p@ == (if phantom {
            phantom_model(plans_of(children@))
        } else {
            row_model(plans_of(children@))
        }) && wf_plan(p@),
        r matches Err(er) ==> er == LayoutError::Overflow,
{
    let ghost ps = plans_of(children@);
    proof {
        assert forall|i: int| 0 <= i < ps.len() implies wf_plan(#[trigger] ps[i]) by {
            assert(ps[i] == children@[i]@);
        }
        lemma_max_baseline_bounds(ps);
        lemma_max_descent_bounds(ps);
        lemma_sum_width_nonneg(ps);
    }
    let mut b_max: u32 = 0;
    let mut d_max: u32 = 0;
    let mut i: usize = 0;
    while i < children.len()
        invariant
            i <= children@.len(),
            ps == plans_of(children@),
            forall|k: int| 0 <= k < children@.len() ==> wf_plan(#[trigger] children@[k]@),
            forall|k: int| 0 <= k < ps.len() ==> wf_plan(#[trigger] ps[k]),
            b_max == max_baseline(ps.take(i as int)),
            d_max == max_descent(ps.take(i as int)),
        decreases children@.len() - i,
    {
        proof {
            assert(children@[i as int]@ == ps[i as int]);
            assert(wf_plan(ps[i as int]));
            assert(ps.take(i as int + 1).drop_last() =~= ps.take(i as int));
            assert(ps.take(i as int + 1).last() == ps[i as int]);
        }
        let c = &children[i];
        if c.baseline > b_max {
            b_max = c.baseline;
        }
        let desc = c.height - c.baseline;
        if desc > d_max {
            d_max = desc;
        }
        i = i + 1;
    }
    proof {
        assert(ps.take(children@.len() as int) =~= ps);
    }
    let mut w_sum: u32 = 0;
    let mut i: usize = 0;
    while i < children.len()
        invariant
            i <= children@.len(),
            ps == plans_of(children@),
            forall|k: int| 0 <= k < children@.len() ==> wf_plan(#[trigger] children@[k]@),
            forall|k: int| 0 <= k < ps.len() ==> wf_plan(#[trigger] ps[k]),
            w_sum == sum_width(ps.take(i as int)),
        decreases children@.len() - i,
    {
        proof {
            assert(children@[i as int]@ == ps[i as int]);
            assert(ps.take(i as int + 1).drop_last() =~= ps.take(i as int));
            assert(ps.take(i as int + 1).last() == ps[i as int]);
        }
        match w_sum.checked_add(children[i].width) {
            Some(w) => {
                w_sum = w;
            },
            None => {
                proof {
                    lemma_sum_width_prefix_le(ps, i as int + 1);
                }
                return Err(LayoutError::Overflow);
            },
        }
        i = i + 1;
    }
    proof {
        assert(ps.take(children@.len() as int) =~= ps);
    }
    let height = match b_max.checked_add(d_max) {
        Some(h) => h,
        None => {
            return Err(LayoutError::Overflow);
        },
    };
    let mut ops: Vec<PaintOp> = Vec::new();
    if !phantom {
        let mut x0: u32 = 0;
        let mut i: usize = 0;
        while i < children.len()
            invariant
                i <= children@.len(),
                ps == plans_of(children@),
                forall|k: int| 0 <= k < children@.len() ==> wf_plan(#[trigger] children@[k]@),
                forall|k: int| 0 <= k < ps.len() ==> wf_plan(#[trigger] ps[k]),
                b_max == max_baseline(ps),
                d_max == max_descent(ps),
                w_sum == sum_width(ps),
                height == b_max + d_max,
                x0 == sum_width(ps.take(i as int)),
                ops@.map_values(|op: PaintOp| op@) == row_ops(ps.take(i as int), b_max as int, 0),
            decreases children@.len() - i,
        {
            proof {
                lemma_max_baseline_bounds(ps);
                lemma_max_descent_bounds(ps);
                assert(children@[i as int]@ == ps[i as int]);
                assert(wf_plan(ps[i as int]));
                lemma_plan_ops_in_box(children@[i as int]);
                lemma_sum_width_prefix_le(ps, i as int + 1);
                assert(ps.take(i as int + 1).drop_last() =~= ps.take(i as int));
                assert(ps.take(i as int + 1).last() == ps[i as int]);
                assert(x0 + ps[i as int].width == sum_width(ps.take(i as int + 1)));
                assert(ps[i as int].baseline <= b_max);
                assert(ps[i as int].height - ps[i as int].baseline <= d_max);
            }
            let c = &children[i];
            let dy = b_max - c.baseline;
            let ghost old_ops = ops@;
            let mut t = translate_plan_ops(
                &c.ops,
                x0,
                dy,
                Ghost(children@[i as int]@.width),
                Ghost(children@[i as int]@.height),
            );
            let ghost t_snap = t@;
            ops.append(&mut t);
            proof {
                assert(ps.take(i as int + 1) =~= ps.take(i as int) + seq![ps[i as int]]);
                lemma_row_ops_concat(ps.take(i as int), seq![ps[i as int]], b_max as int, 0);
                reveal_with_fuel(row_ops, 2);
                assert(row_ops(seq![ps[i as int]], b_max as int, x0 as int) =~= translate_ops(
                    ps[i as int].ops,
                    x0 as int,
                    b_max - ps[i as int].baseline,
                ));
                let lhs = ops@.map_values(|op: PaintOp| op@);
                let rhs = row_ops(ps.take(i as int + 1), b_max as int, 0);
                assert forall|j: int| 0 <= j < lhs.len() implies #[trigger] lhs[j] == rhs[j] by {
                    if j < old_ops.len() {
                        assert(ops@[j] == old_ops[j]);
                        assert(lhs[j] == row_ops(ps.take(i as int), b_max as int, 0)[j]);
                    } else {
                        assert(ops@[j] == t_snap[j - old_ops.len()]);
                        assert(t_snap[j - old_ops.len()]@ == translate_op(
                            c.ops@[j - old_ops.len()]@,
                            x0 as int,
                            dy as int,
                        ));
                        assert(ps[i as int].ops[j - old_ops.len()] == c.ops@[j - old_ops.len()]@);
                    }
                }
                assert(lhs =~= rhs);
            }
            x0 = x0 + c.width;
            i = i + 1;
        }
        proof {
            assert(ps.take(children@.len() as int) =~= ps);
        }
    }
    let p = RenderingPlan { width: w_sum, height, baseline: b_max, ops };
    proof {
        lemma_row_wf(ps);
        if phantom {
            assert(p@.ops =~= Seq::<OpModel>::empty());
            assert(p@ == phantom_model(ps));
        } else {
            assert(p@ == row_model(ps));
        }
    }
    Ok(p)
}

/// A row that fits still fits after cutting children off its end.
pub proof fn lemma_fits_seq_prefix(ts: Seq<Element>, fs: int, ms: Seq<TextMetrics>, pos: int, i: int)
    requires
        fits_seq(ts, fs, ms, pos),
        0 <= i <= ts.len(),
    ensures
        fits_seq(ts.take(i), fs, ms, pos),
    decreases ts.len() - i,
{
    if i == ts.len() {
        assert(ts.take(i) =~= ts);
    } else {
        lemma_fits_seq_prefix(ts, fs, ms, pos, i + 1);
        lemma_children_snoc(ts, fs, ms, pos, i);
    }
}

/// Exact font size for subscripts and superscripts.
fn script_font_size(fs: u32) -> (r: u32)
    ensures
        r == script_size(fs as int),
{
    let v: u64 = (fs as u64) * 7 / 10;
    proof {
        lemma_div_is_ordered(fs as int * 7, fs as int * 10, 10);
        lemma_div_by_multiple(fs as int, 10);
        assert(v <= fs as u64);
    }
    v as u32
}

/// Exact thickness of fraction bars and radical strokes.
fn line_width_px(fs: u32) -> (r: u32)
    ensures
        r == line_width_of(fs as int),
{
    let v: u64 = ((fs as u64) + 24) / 25;
    proof {
        lemma_div_nonincreasing(fs as int + 24, 25);
        assert(v <= fs as u64 + 24);
    }
    v as u32
}

/// Plan of a plain text leaf: the measured box, the glyphs at its origin.
fn leaf_plan(text: &String, fs: u32, m: TextMetrics) -> (p: RenderingPlan)
    requires
        m.baseline <= m.height,
    ensures
        p@ == leaf_model(text@, fs as int, m),
        wf_plan(p@),
{
    let mut ops: Vec<PaintOp> = Vec::new();
    ops.push(PaintOp::Glyphs { text: text.clone(), font_size: fs, x: 0, y: 0 });
    let p = RenderingPlan { width: m.width, height: m.height, baseline: m.baseline, ops };
    proof {
        assert(p@.ops =~= seq![OpModel::Glyphs { text: text@, font_size: fs as int, x: 0, y: 0 }]);
        assert(p@ == leaf_model(text@, fs as int, m));
    }
    p
}

/// Plan of an operator leaf: the measured box widened by the operator
/// padding on each side.
fn mo_plan(text: &String, fs: u32, m: TextMetrics) -> (r: Result<RenderingPlan, LayoutError>)
    requires
        m.baseline <= m.height,
    ensures
        r is Ok <==> m.width + 2 * op_spacing(fs as int) <= u32::MAX,
        r matches Ok(p) ==> p@ == mo_model(text@, fs as int, m) && wf_plan(p@),
        r matches Err(er) ==> er == LayoutError::Overflow,
{
    let spacing = fs / 10;
    let width = match m.width.checked_add(2 * spacing) {
        Some(w) => w,
        None => {
            return Err(LayoutError::Overflow);
        },
    };
    let mut ops: Vec<PaintOp> = Vec::new();
    ops.push(PaintOp::Glyphs { text: text.clone(), font_size: fs, x: spacing, y: 0 });
    let p = RenderingPlan { width, height: m.height, baseline: m.baseline, ops };
    proof {
        assert(p@.ops =~= seq![
            OpModel::Glyphs { text: text@, font_size: fs as int, x: op_spacing(fs as int), y: 0 },
        ]);
        assert(p@ == mo_model(text@, fs as int, m));
    }
    Ok(p)
}

/// Recursive planning pass: plans `e` against the metrics that start at
/// index `pos` and reports the index just past the metrics it consumed.
fn plan_rec(e: &Element, fs: u32, ms: &Vec<TextMetrics>, pos: usize) -> (r: Result<
    (RenderingPlan, usize),
    LayoutError,
>)
    requires
        valid_metrics(ms@),
        pos + leaf_count(*e) <= ms@.len(),
    ensures
        r matches Ok(p) ==> {
            &&& p.1 == pos + leaf_count(*e)
            &&& p.0@ == spec_plan(*e, fs as int, ms@, pos as int)
            &&& wf_plan(p.0@)
        },
        r is Ok <==> fits(*e, fs as int, ms@, pos as int),
        r matches Err(er) ==> er == LayoutError::Overflow,
    decreases *e, 1int,
{
    let n: usize = ms.len();
    proof {
        assert(n == ms@.len());
    }
    match e {
        Element::Mi(m) => Ok((leaf_plan(&m.identifier, fs, ms[pos]), pos + 1)),
        Element::Mn(m) => Ok((leaf_plan(&m.number, fs, ms[pos]), pos + 1)),
        Element::Mtext(m) => Ok((leaf_plan(&m.text, fs, ms[pos]), pos + 1)),
        Element::Mo(m) => match mo_plan(&m.operator, fs, ms[pos]) {
            Ok(p) => Ok((p, pos + 1)),
            Err(er) => Err(er),
        },
        Element::Msub(_) => plan_sub_node(e, fs, ms, pos),
        Element::Msup(_) => plan_sup_node(e, fs, ms, pos),
        Element::Mfrac(_) => plan_frac_node(e, fs, ms, pos),
        Element::Msqrt(_) => plan_sqrt_node(e, fs, ms, pos),
        Element::Mroot(_) => plan_mroot_node(e, fs, ms, pos),
        Element::Mrow(_) => plan_row_node(e, fs, ms, pos, false),
        Element::Mphantom(_) => plan_row_node(e, fs, ms, pos, true),
    }
}

/// The [`plan_rec`] case of a base with a subscript.
fn plan_sub_node(e: &Element, fs: u32, ms: &Vec<TextMetrics>, pos: usize) -> (r: Result<
    (RenderingPlan, usize),
    LayoutError,
>)
    requires
        *e is Msub,
        valid_metrics(ms@),
        pos + leaf_count(*e) <= ms@.len(),
    ensures
        r matches Ok(p) ==> {
            &&& p.1 == pos + leaf_count(*e)
            &&& p.0@ == spec_plan(*e, fs as int, ms@, pos as int)
            &&& wf_plan(p.0@)
        },
        r is Ok <==> fits(*e, fs as int, ms@, pos as int),
        r matches Err(er) ==> er == LayoutError::Overflow,
    decreases *e, 0int,
{
    match e {
        Element::Msub(m) => {
            let base = match plan_rec(&*m.base, fs, ms, pos) {
                Ok(x) => x,
                Err(er) => {
                    return Err(er);
                },
            };
            let sfs = script_font_size(fs);
            let script = match plan_rec(&*m.subscript, sfs, ms, base.1) {
                Ok(x) => x,
                Err(er) => {
                    return Err(er);
                },
            };
            let next = script.1;
            match combine_sub(base.0, script.0) {
                Ok(p) => Ok((p, next)),
                Err(er) => Err(er),
            }
        },
        _ => {
            proof {
                assert(false);
            }
            Err(LayoutError::Overflow)
        },
    }
}

/// The [`plan_rec`] case of a base with a superscript.
fn plan_sup_node(e: &Element, fs: u32, ms: &Vec<TextMetrics>, pos: usize) -> (r: Result<
    (RenderingPlan, usize),
    LayoutError,
>)
    requires
        *e is Msup,
        valid_metrics(ms@),
        pos + leaf_count(*e) <= ms@.len(),
    ensures
        r matches Ok(p) ==> {
            &&& p.1 == pos + leaf_count(*e)
            &&& p.0@ == spec_plan(*e, fs as int, ms@, pos as int)
            &&& wf_plan(p.0@)
        },
        r is Ok <==> fits(*e, fs as int, ms@, pos as int),
        r matches Err(er) ==> er == LayoutError::Overflow,
    decreases *e, 0int,
{
    match e {
        Element::Msup(m) => {
            let base = match plan_rec(&*m.base, fs, ms, pos) {
                Ok(x) => x,
                Err(er) => {
                    return Err(er);
                },
            };
            let sfs = script_font_size(fs);
            let script = match plan_rec(&*m.superscript, sfs, ms, base.1) {
                Ok(x) => x,
                Err(er) => {
                    return Err(er);
                },
            };
            let next = script.1;
            match combine_sup(base.0, script.0) {
                Ok(p) => Ok((p, next)),
                Err(er) => Err(er),
            }
        },
        _ => {
            proof {
                assert(false);
            }
            Err(LayoutError::Overflow)
        },
    }
}

/// The [`plan_rec`] case of a fraction.
fn plan_frac_node(e: &Element, fs: u32, ms: &Vec<TextMetrics>, pos: usize) -> (r: Result<
    (RenderingPlan, usize),
    LayoutError,
>)
    requires
        *e is Mfrac,
        valid_metrics(ms@),
        pos + leaf_count(*e) <= ms@.len(),
    ensures
        r matches Ok(p) ==> {
            &&& p.1 == pos + leaf_count(*e)
            &&& p.0@ == spec_plan(*e, fs as int, ms@, pos as int)
            &&& wf_plan(p.0@)
        },
        r is Ok <==> fits(*e, fs as int, ms@, pos as int),
        r matches Err(er) ==> er == LayoutError::Overflow,
    decreases *e, 0int,
{
    match e {
        Element::Mfrac(m) => {
            let numer = match plan_rec(&*m.numerator, fs, ms, pos) {
                Ok(x) => x,
                Err(er) => {
                    return Err(er);
                },
            };
            let denom = match plan_rec(&*m.denominator, fs, ms, numer.1) {
                Ok(x) => x,
                Err(er) => {
                    return Err(er);
                },
            };
            let next = denom.1;
            match combine_frac(numer.0, denom.0, line_width_px(fs)) {
                Ok(p) => Ok((p, next)),
                Err(er) => Err(er),
            }
        },
        _ => {
            proof {
                assert(false);
            }
            Err(LayoutError::Overflow)
        },
    }
}

/// The [`plan_rec`] case of a square root.
fn plan_sqrt_node(e: &Element, fs: u32, ms: &Vec<TextMetrics>, pos: usize) -> (r: Result<
    (RenderingPlan, usize),
    LayoutError,
>)
    requires
        *e is Msqrt,
        valid_metrics(ms@),
        pos + leaf_count(*e) <= ms@.len(),
    ensures
        r matches Ok(p) ==> {
            &&& p.1 == pos + leaf_count(*e)
            &&& p.0@ == spec_plan(*e, fs as int, ms@, pos as int)
            &&& wf_plan(p.0@)
        },
        r is Ok <==> fits(*e, fs as int, ms@, pos as int),
        r matches Err(er) ==> er == LayoutError::Overflow,
    decreases *e, 0int,
{
    match e {
        Element::Msqrt(m) => {
            let inner = match plan_rec(&*m.term, fs, ms, pos) {
                Ok(x) => x,
                Err(er) => {
                    return Err(er);
                },
            };
            match combine_root(inner.0, line_width_px(fs)) {
                Ok(p) => Ok((p, inner.1)),
                Err(er) => Err(er),
            }
        },
        _ => {
            proof {
                assert(false);
            }
            Err(LayoutError::Overflow)
        },
    }
}

/// The [`plan_rec`] case of an nth root; the index is carried but not
/// planned.
fn plan_mroot_node(e: &Element, fs: u32, ms: &Vec<TextMetrics>, pos: usize) -> (r: Result<
    (RenderingPlan, usize),
    LayoutError,
>)
    requires
        *e is Mroot,
        valid_metrics(ms@),
        pos + leaf_count(*e) <= ms@.len(),
    ensures
        r matches Ok(p) ==> {
            &&& p.1 == pos + leaf_count(*e)
            &&& p.0@ == spec_plan(*e, fs as int, ms@, pos as int)
            &&& wf_plan(p.0@)
        },
        r is Ok <==> fits(*e, fs as int, ms@, pos as int),
        r matches Err(er) ==> er == LayoutError::Overflow,
    decreases *e, 0int,
{
    match e {
        Element::Mroot(m) => {
            let inner = match plan_rec(&*m.base, fs, ms, pos) {
                Ok(x) => x,
                Err(er) => {
                    return Err(er);
                },
            };
            match combine_root(inner.0, line_width_px(fs)) {
                Ok(p) => Ok((p, inner.1)),
                Err(er) => Err(er),
            }
        },
        _ => {
            proof {
                assert(false);
            }
            Err(LayoutError::Overflow)
        },
    }
}

/// The [`plan_rec`] case of a row or a phantom.
fn plan_row_node(e: &Element, fs: u32, ms: &Vec<TextMetrics>, pos: usize, phantom: bool) -> (r:
    Result<(RenderingPlan, usize), LayoutError>)
    requires
        if phantom {
            *e is Mphantom
        } else {
            *e is Mrow
        },
        valid_metrics(ms@),
        pos + leaf_count(*e) <= ms@.len(),
    ensures
        r matches Ok(p) ==> {
            &&& p.1 == pos + leaf_count(*e)
            &&& p.0@ == spec_plan(*e, fs as int, ms@, pos as int)
            &&& wf_plan(p.0@)
        },
        r is Ok <==> fits(*e, fs as int, ms@, pos as int),
        r matches Err(er) ==> er == LayoutError::Overflow,
    decreases *e, 0int,
{
    let terms: &Vec<Element> = match e {
        Element::Mrow(m) => &m.terms,
        Element::Mphantom(m) => &m.terms,
        _ => {
            proof {
                assert(false);
            }
            return Err(LayoutError::Overflow);
        },
    };
    match plan_children(terms, fs, ms, pos) {
        Ok(x) => {
            let plans = x.0;
            match combine_row(&plans, phantom) {
                Ok(p) => Ok((p, x.1)),
                Err(er) => Err(er),
            }
        },
        Err(er) => Err(er),
    }
}

/// Plans every child of a row, left to right, threading the metric index
/// through the children.
fn plan_children(terms: &Vec<Element>, fs: u32, ms: &Vec<TextMetrics>, pos: usize) -> (r: Result<
    (Vec<RenderingPlan>, usize),
    LayoutError,
>)
    requires
        valid_metrics(ms@),
        pos + leaf_count_seq(terms@) <= ms@.len(),
    ensures
        r matches Ok(p) ==> {
            &&& p.1 == pos + leaf_count_seq(terms@)
            &&& plans_of(p.0@) == spec_children_plans(terms@, fs as int, ms@, pos as int)
            &&& p.0@.len() == terms@.len()
            &&& forall|k: int| 0 <= k < p.0@.len() ==> wf_plan(#[trigger] p.0@[k]@)
        },
        r is Ok <==> fits_seq(terms@, fs as int, ms@, pos as int),
        r matches Err(er) ==> er == LayoutError::Overflow,
    decreases terms@,
{
    let ghost ts = terms@;
    let mut plans: Vec<RenderingPlan> = Vec::new();
    let mut p: usize = pos;
    let mut i: usize = 0;
    while i < terms.len()
        invariant
            i <= ts.len(),
            ts == terms@,
            valid_metrics(ms@),
            pos + leaf_count_seq(ts) <= ms@.len(),
            p == pos + leaf_count_seq(ts.take(i as int)),
            plans@.len() == i,
            plans_of(plans@) == spec_children_plans(ts.take(i as int), fs as int, ms@, pos as int),
            forall|k: int| 0 <= k < plans@.len() ==> wf_plan(#[trigger] plans@[k]@),
            fits_seq(ts.take(i as int), fs as int, ms@, pos as int),
        decreases ts.len() - i,
    {
        proof {
            lemma_leaf_count_seq_snoc(ts, i as int);
            lemma_leaf_count_seq_split(ts, i as int + 1);
        }
        let ghost old_plans = plans@;
        match plan_rec(&terms[i], fs, ms, p) {
            Ok(x) => {
                let ghost child_model = x.0@;
                plans.push(x.0);
                p = x.1;
                proof {
                    lemma_children_snoc(ts, fs as int, ms@, pos as int, i as int);
                    let lhs = plans_of(plans@);
                    let rhs = spec_children_plans(ts.take(i as int + 1), fs as int, ms@, pos as int);
                    assert forall|j: int| 0 <= j < lhs.len() implies #[trigger] lhs[j] == rhs[j] by {
                        if j < i {
                            assert(plans@[j] == old_plans[j]);
                            assert(lhs[j] == plans_of(old_plans)[j]);
                        } else {
                            assert(plans@[j]@ == child_model);
                        }
                    }
                    assert(lhs =~= rhs);
                }
            },
            Err(er) => {
                proof {
                    if fits_seq(ts, fs as int, ms@, pos as int) {
                        lemma_fits_seq_prefix(ts, fs as int, ms@, pos as int, i as int + 1);
                        lemma_children_snoc(ts, fs as int, ms@, pos as int, i as int);
                        assert(false);
                    }
                }
                return Err(er);
            },
        }
        i = i + 1;
    }
    proof {
        assert(ts.take(ts.len() as int) =~= ts);
    }
    Ok((plans, p))
}

/// Whether every operation of a sequence keeps 32-bit coordinates after a
/// shift by `(dx, dy)`.
pub open spec fn op_translatable(op: OpModel, dx: int, dy: int) -> bool {
    match op {
        OpModel::Glyphs { x, y, .. } => x + dx <= u32::MAX && y + dy <= u32::MAX,
        OpModel::Bar { x, y, .. } => x + dx <= u32::MAX && y + dy <= u32::MAX,
        OpModel::Radical { x, y, .. } => x + dx <= u32::MAX && y + dy <= u32::MAX,
    }
}

/// Runtime check of [`valid_metrics`].
fn metrics_are_valid(ms: &Vec<TextMetrics>) -> (r: bool)
    ensures
        r == valid_metrics(ms@),
{
    let mut i: usize = 0;
    while i < ms.len()
        invariant
            i <= ms@.len(),
            forall|j: int| 0 <= j < i ==> ms@[j].baseline <= ms@[j].height,
        decreases ms@.len() - i,
    {
        if ms[i].baseline > ms[i].height {
            return false;
        }
        i = i + 1;
    }
    true
}

/// Runtime check of [`no_empty_rows`].
fn check_no_empty_rows(e: &Element) -> (r: bool)
    ensures
        r == no_empty_rows(*e),
    decreases *e, 1int,
{
    match e {
        Element::Mi(_) => true,
        Element::Mn(_) => true,
        Element::Mo(_) => true,
        Element::Mtext(_) => true,
        Element::Mrow(m) => m.terms.len() >= 1 && check_no_empty_rows_seq(&m.terms),
        Element::Mphantom(m) => m.terms.len() >= 1 && check_no_empty_rows_seq(&m.terms),
        Element::Msub(m) => check_no_empty_rows(&*m.base) && check_no_empty_rows(&*m.subscript),
        Element::Msup(m) => check_no_empty_rows(&*m.base) && check_no_empty_rows(&*m.superscript),
        Element::Mfrac(m) => check_no_empty_rows(&*m.numerator) && check_no_empty_rows(
            &*m.denominator,
        ),
        Element::Msqrt(m) => check_no_empty_rows(&*m.term),
        Element::Mroot(m) => check_no_empty_rows(&*m.base),
    }
}

fn check_no_empty_rows_seq(terms: &Vec<Element>) -> (r: bool)
    ensures
        r == no_empty_rows_seq(terms@),
    decreases terms@, 0int,
{
    let mut i: usize = 0;
    while i < terms.len()
        invariant
            i <= terms@.len(),
            forall|j: int| 0 <= j < i ==> no_empty_rows(#[trigger] terms@[j]),
        decreases terms@.len() - i,
    {
        if !check_no_empty_rows(&terms[i]) {
            return false;
        }
        i = i + 1;
    }
    true
}

/// Counts the leaves of `e`, giving up as soon as the count would pass
/// `cap`.
fn count_leaves(e: &Element, cap: usize) -> (r: Option<usize>)
    ensures
        r matches Some(c) ==> c == leaf_count(*e) && c <= cap,
        r is None ==> leaf_count(*e) > cap,
    decreases *e, 1int,
{
    match e {
        Element::Mi(_) => if cap >= 1 {
            Some(1)
        } else {
            None
        },
        Element::Mn(_) => if cap >= 1 {
            Some(1)
        } else {
            None
        },
        Element::Mo(_) => if cap >= 1 {
            Some(1)
        } else {
            None
        },
        Element::Mtext(_) => if cap >= 1 {
            Some(1)
        } else {
            None
        },
        Element::Msub(m) => {
            let b = match count_leaves(&*m.base, cap) {
                Some(x) => x,
                None => {
                    return None;
                },
            };
            match count_leaves(&*m.subscript, cap - b) {
                Some(s) => Some(b + s),
                None => None,
            }
        },
        Element::Msup(m) => {
            let b = match count_leaves(&*m.base, cap) {
                Some(x) => x,
                None => {
                    return None;
                },
            };
            match count_leaves(&*m.superscript, cap - b) {
                Some(s) => Some(b + s),
                None => None,
            }
        },
        Element::Mfrac(m) => {
            let n = match count_leaves(&*m.numerator, cap) {
                Some(x) => x,
                None => {
                    return None;
                },
            };
            match count_leaves(&*m.denominator, cap - n) {
                Some(d) => Some(n + d),
                None => None,
            }
        },
        Element::Msqrt(m) => count_leaves(&*m.term, cap),
        Element::Mroot(m) => count_leaves(&*m.base, cap),
        Element::Mrow(m) => count_leaves_seq(&m.terms, cap),
        Element::Mphantom(m) => count_leaves_seq(&m.terms, cap),
    }
}

fn count_leaves_seq(terms: &Vec<Element>, cap: usize) -> (r: Option<usize>)
    ensures
        r matches Some(c) ==> c == leaf_count_seq(terms@) && c <= cap,
        r is None ==> leaf_count_seq(terms@) > cap,
    decreases terms@, 0int,
{
    let ghost ts = terms@;
    let mut acc: usize = 0;
    let mut i: usize = 0;
    while i < terms.len()
        invariant
            i <= ts.len(),
            ts == terms@,
            acc == leaf_count_seq(ts.take(i as int)),
            acc <= cap,
        decreases ts.len() - i,
    {
        proof {
            lemma_leaf_count_seq_snoc(ts, i as int);
            lemma_leaf_count_seq_split(ts, i as int + 1);
        }
        match count_leaves(&terms[i], cap - acc) {
            Some(c) => {
                acc = acc + c;
            },
            None => {
                return None;
            },
        }
        i = i + 1;
    }
    proof {
        assert(ts.take(ts.len() as int) =~= ts);
    }
    Some(acc)
}

impl Element {
    /// Computes the plan of this element at `font_size`: its box, its
    /// baseline, and the deferred paint operations of its whole subtree.
    ///
    /// `metrics` must hold one measured entry per leaf, in the order of
    /// [`Element::text_requests`]; a list of the wrong length is rejected
    /// as `MetricsMismatch` and a metric whose baseline falls outside its
    /// box as `InvalidMetrics`.  A row or phantom without children is
    /// rejected as `EmptyRow`, and a tree whose computed dimensions pass
    /// 32 bits as `Overflow`.
    pub fn plan_render(&self, font_size: u32, metrics: &Vec<TextMetrics>) -> (r: Result<
        RenderingPlan,
        LayoutError,
    >)
        requires
            font_size >= 1,
        ensures
            (r matches Err(er) && er == LayoutError::MetricsMismatch) <==> metrics@.len()
                != leaf_count(*self),
            (r matches Err(er) && er == LayoutError::InvalidMetrics) <==> metrics@.len()
                == leaf_count(*self) && !valid_metrics(metrics@),
            (r matches Err(er) && er == LayoutError::EmptyRow) <==> metrics@.len() == leaf_count(
                *self,
            ) && valid_metrics(metrics@) && !no_empty_rows(*self),
            (r matches Err(er) && er == LayoutError::Overflow) <==> metrics@.len() == leaf_count(
                *self,
            ) && valid_metrics(metrics@) && no_empty_rows(*self) && !fits(
                *self,
                font_size as int,
                metrics@,
                0,
            ),
            r is Ok <==> metrics@.len() == leaf_count(*self) && valid_metrics(metrics@)
                && no_empty_rows(*self) && fits(*self, font_size as int, metrics@, 0),
            r matches Ok(p) ==> p@ == spec_plan(*self, font_size as int, metrics@, 0) && wf_plan(
                p@,
            ),
    {
        let ok_count = match count_leaves(self, metrics.len()) {
            Some(c) => c == metrics.len(),
            None => false,
        };
        if !ok_count {
            return Err(LayoutError::MetricsMismatch);
        }
        if !metrics_are_valid(metrics) {
            return Err(LayoutError::InvalidMetrics);
        }
        if !check_no_empty_rows(self) {
            return Err(LayoutError::EmptyRow);
        }
        match plan_rec(self, font_size, metrics, 0) {
            Ok(x) => Ok(x.0),
            Err(er) => Err(er),
        }
    }

    /// Lists every leaf text of this element in traversal order, paired
    /// with the effective font size at which the planner will place it.
    pub fn text_requests(&self, font_size: u32) -> (r: Vec<TextRequest>)
        ensures
            r@.map_values(|q: TextRequest| q@) == spec_requests(*self, font_size as int),
            r@.len() == leaf_count(*self),
    {
        let mut out: Vec<TextRequest> = Vec::new();
        requests_rec(self, font_size, &mut out);
        proof {
            assert(out@.map_values(|q: TextRequest| q@) =~= Seq::<ReqModel>::empty().add(
                spec_requests(*self, font_size as int),
            ));
            lemma_requests_len(*self, font_size as int);
        }
        out
    }
}

/// The number of measurement requests equals the number of leaves.
pub proof fn lemma_requests_len(e: Element, fs: int)
    ensures
        spec_requests(e, fs).len() == leaf_count(e),
    decreases e,
{
    match e {
        Element::Mi(_) => {},
        Element::Mn(_) => {},
        Element::Mo(_) => {},
        Element::Mtext(_) => {},
        Element::Mrow(m) => {
            lemma_requests_seq_len(m.terms@, fs);
        },
        Element::Mphantom(m) => {
            lemma_requests_seq_len(m.terms@, fs);
        },
        Element::Msub(m) => {
            lemma_requests_len(*m.base, fs);
            lemma_requests_len(*m.subscript, script_size(fs));
        },
        Element::Msup(m) => {
            lemma_requests_len(*m.base, fs);
            lemma_requests_len(*m.superscript, script_size(fs));
        },
        Element::Mfrac(m) => {
            lemma_requests_len(*m.numerator, fs);
            lemma_requests_len(*m.denominator, fs);
        },
        Element::Msqrt(m) => {
            lemma_requests_len(*m.term, fs);
        },
        Element::Mroot(m) => {
            lemma_requests_len(*m.base, fs);
        },
    }
}

pub proof fn lemma_requests_seq_len(ts: Seq<Element>, fs: int)
    ensures
        spec_requests_seq(ts, fs).len() == leaf_count_seq(ts),
    decreases ts,
{
    if ts.len() > 0 {
        lemma_requests_len(ts[0], fs);
        lemma_requests_seq_len(ts.skip(1), fs);
    }
}

/// Appends the measurement requests of `e` to `out`.
fn requests_rec(e: &Element, fs: u32, out: &mut Vec<TextRequest>)
    ensures
        final(out)@.map_values(|q: TextRequest| q@) == old(out)@.map_values(
            |q: TextRequest| q@,
        ).add(spec_requests(*e, fs as int)),
    decreases *e, 1int,
{
    let ghost base = out@.map_values(|q: TextRequest| q@);
    match e {
        Element::Mi(m) => {
            out.push(TextRequest { text: m.identifier.clone(), font_size: fs });
            proof {
                assert(out@.map_values(|q: TextRequest| q@) =~= base.add(
                    spec_requests(*e, fs as int),
                ));
            }
        },
        Element::Mn(m) => {
            out.push(TextRequest { text: m.number.clone(), font_size: fs });
            proof {
                assert(out@.map_values(|q: TextRequest| q@) =~= base.add(
                    spec_requests(*e, fs as int),
                ));
            }
        },
        Element::Mo(m) => {
            out.push(TextRequest { text: m.operator.clone(), font_size: fs });
            proof {
                assert(out@.map_values(|q: TextRequest| q@) =~= base.add(
                    spec_requests(*e, fs as int),
                ));
            }
        },
        Element::Mtext(m) => {
            out.push(TextRequest { text: m.text.clone(), font_size: fs });
            proof {
                assert(out@.map_values(|q: TextRequest| q@) =~= base.add(
                    spec_requests(*e, fs as int),
                ));
            }
        },
        Element::Msub(m) => {
            requests_rec(&*m.base, fs, out);
            let sfs = script_font_size(fs);
            requests_rec(&*m.subscript, sfs, out);
            proof {
                assert(out@.map_values(|q: TextRequest| q@) =~= base.add(
                    spec_requests(*e, fs as int),
                ));
            }
        },
        Element::Msup(m) => {
            requests_rec(&*m.base, fs, out);
            let sfs = script_font_size(fs);
            requests_rec(&*m.superscript, sfs, out);
            proof {
                assert(out@.map_values(|q: TextRequest| q@) =~= base.add(
                    spec_requests(*e, fs as int),
                ));
            }
        },
        Element::Mfrac(m) => {
            requests_rec(&*m.numerator, fs, out);
            requests_rec(&*m.denominator, fs, out);
            proof {
                assert(out@.map_values(|q: TextRequest| q@) =~= base.add(
                    spec_requests(*e, fs as int),
                ));
            }
        },
        Element::Msqrt(m) => {
            requests_rec(&*m.term, fs, out);
        },
        Element::Mroot(m) => {
            requests_rec(&*m.base, fs, out);
        },
        Element::Mrow(m) => {
            requests_seq_rec(&m.terms, fs, out);
        },
        Element::Mphantom(m) => {
            requests_seq_rec(&m.terms, fs, out);
        },
    }
}

/// Appends the measurement requests of every child, left to right.
fn requests_seq_rec(terms: &Vec<Element>, fs: u32, out: &mut Vec<TextRequest>)
    ensures
        final(out)@.map_values(|q: TextRequest| q@) == old(out)@.map_values(
            |q: TextRequest| q@,
        ).add(spec_requests_seq(terms@, fs as int)),
    decreases terms@, 0int,
{
    let ghost ts = terms@;
    let ghost base = out@.map_values(|q: TextRequest| q@);
    let mut i: usize = 0;
    while i < terms.len()
        invariant
            i <= ts.len(),
            ts == terms@,
            out@.map_values(|q: TextRequest| q@) == base.add(
                spec_requests_seq(ts.take(i as int), fs as int),
            ),
        decreases ts.len() - i,
    {
        requests_rec(&terms[i], fs, out);
        proof {
            lemma_requests_seq_snoc(ts, fs as int, i as int);
            assert(out@.map_values(|q: TextRequest| q@) =~= base.add(
                spec_requests_seq(ts.take(i as int + 1), fs as int),
            ));
        }
        i = i + 1;
    }
    proof {
        assert(ts.take(ts.len() as int) =~= ts);
    }
}

/// Extending a prefix of a row by one child appends exactly that child's
/// requests.
proof fn lemma_requests_seq_snoc(ts: Seq<Element>, fs: int, i: int)
    requires
        0 <= i < ts.len(),
    ensures
        spec_requests_seq(ts.take(i + 1), fs) == spec_requests_seq(ts.take(i), fs)
            + spec_requests(ts[i], fs),
    decreases i,
{
    if i == 0 {
        reveal_with_fuel(spec_requests_seq, 2);
        assert(ts.take(1) =~= seq![ts[0]]);
        assert(ts.take(0).len() == 0);
        assert(ts.take(1).skip(1).len() == 0);
        assert(spec_requests_seq(ts.take(1), fs) =~= spec_requests_seq(ts.take(0), fs)
            + spec_requests(ts[0], fs));
    } else {
        lemma_requests_seq_snoc(ts.skip(1), fs, i - 1);
        assert(ts.take(i + 1).skip(1) =~= ts.skip(1).take(i));
        assert(ts.take(i).skip(1) =~= ts.skip(1).take(i - 1));
        assert(ts.skip(1)[i - 1] == ts[i]);
        assert(ts.take(i + 1)[0] == ts[0]);
        assert(ts.take(i)[0] == ts[0]);
        assert(spec_requests_seq(ts.take(i + 1), fs) =~= spec_requests_seq(ts.take(i), fs)
            + spec_requests(ts[i], fs));
    }
}

impl RenderingPlan {
    /// The paint operations of this plan when its origin is placed at
    /// `(x, y)`, in painting order; children of a node come before its own
    /// ink.  Painting a well-formed plan at the origin never fails.
    pub fn commands_at(&self, x: u32, y: u32) -> (r: Result<Vec<PaintOp>, LayoutError>)
        ensures
            r matches Ok(v) ==> v@.map_values(|op: PaintOp| op@) == translate_ops(
                self@.ops,
                x as int,
                y as int,
            ),
            r is Ok <==> (forall|i: int|
                0 <= i < self@.ops.len() ==> op_translatable(
                    #[trigger] self@.ops[i],
                    x as int,
                    y as int,
                )),
            x == 0 && y == 0 && wf_plan(self@) ==> r is Ok,
            r matches Err(er) ==> er == LayoutError::Overflow,
    {
        let mut out: Vec<PaintOp> = Vec::new();
        let mut i: usize = 0;
        while i < self.ops.len()
            invariant
                i <= self.ops@.len(),
                out@.len() == i,
                forall|j: int|
                    0 <= j < i ==> #[trigger] out@[j]@ == translate_op(
                        self.ops@[j]@,
                        x as int,
                        y as int,
                    ),
                forall|j: int|
                    0 <= j < i ==> op_translatable(#[trigger] self.ops@[j]@, x as int, y as int),
            decreases self.ops@.len() - i,
        {
            let op = match &self.ops[i] {
                PaintOp::Glyphs { text, font_size, x: ox, y: oy } => {
                    if (*ox as u64) + (x as u64) > u32::MAX as u64 || (*oy as u64) + (y as u64)
                        > u32::MAX as u64 {
                        proof {
                            assert(!op_translatable(self@.ops[i as int], x as int, y as int));
                        }
                        return Err(LayoutError::Overflow);
                    }
                    PaintOp::Glyphs {
                        text: text.clone(),
                        font_size: *font_size,
                        x: *ox + x,
                        y: *oy + y,
                    }
                },
                PaintOp::Bar { x: ox, y: oy, width, height } => {
                    if (*ox as u64) + (x as u64) > u32::MAX as u64 || (*oy as u64) + (y as u64)
                        > u32::MAX as u64 {
                        proof {
                            assert(!op_translatable(self@.ops[i as int], x as int, y as int));
                        }
                        return Err(LayoutError::Overflow);
                    }
                    PaintOp::Bar { x: *ox + x, y: *oy + y, width: *width, height: *height }
                },
                PaintOp::Radical { x: ox, y: oy, width, height, inner_height, line_width } => {
                    if (*ox as u64) + (x as u64) > u32::MAX as u64 || (*oy as u64) + (y as u64)
                        > u32::MAX as u64 {
                        proof {
                            assert(!op_translatable(self@.ops[i as int], x as int, y as int));
                        }
                        return Err(LayoutError::Overflow);
                    }
                    PaintOp::Radical {
                        x: *ox + x,
                        y: *oy + y,
                        width: *width,
                        height: *height,
                        inner_height: *inner_height,
                        line_width: *line_width,
                    }
                },
            };
            out.push(op);
            i = i + 1;
        }
        proof {
            assert forall|j: int| 0 <= j < self@.ops.len() implies op_translatable(
                #[trigger] self@.ops[j],
                x as int,
                y as int,
            ) by {
                assert(self@.ops[j] == self.ops@[j]@);
            }
            let lhs = out@.map_values(|op: PaintOp| op@);
            let rhs = translate_ops(self@.ops, x as int, y as int);
            assert forall|j: int| 0 <= j < lhs.len() implies #[trigger] lhs[j] == rhs[j] by {
                assert(out@[j]@ == translate_op(self.ops@[j]@, x as int, y as int));
                assert(self@.ops[j] == self.ops@[j]@);
            }
            assert(lhs =~= rhs);
        }
        Ok(out)
    }
}

} // verus!
