//! The structural guarantees of the planner, stated and proved over the
//! mathematical model of [`crate::render`].

use vstd::math::*;
use vstd::prelude::*;

use crate::mml_types::Element;
use crate::render::{
    leaf_count, leaf_count_seq, lemma_children_plans_wf, lemma_max_baseline_bounds,
    lemma_max_descent_bounds, lemma_plan_wf, lemma_sum_width_nonneg, lemma_sum_width_skip,
    line_width_of, max_baseline, max_descent, no_empty_rows, row_ops, script_size,
    spec_children_plans, spec_plan, spec_requests, spec_requests_seq, sum_width, translate_op,
    translate_ops, valid_metrics, wf_plan, OpModel, PlanModel, RenderingPlan, ReqModel,
    TextMetrics,
};

verus! {

/// Every metric reports visible ink: a box at least one pixel wide and
/// one pixel tall.
pub open spec fn positive_metrics(ms: Seq<TextMetrics>) -> bool {
    forall|i: int| 0 <= i < ms.len() ==> ms[i].width >= 1 && ms[i].height >= 1
}

/// Positive leaf boxes give every node of the tree a positive box.
pub proof fn lemma_plan_positive(e: Element, fs: int, ms: Seq<TextMetrics>, pos: int)
    requires
        0 <= fs,
        valid_metrics(ms),
        positive_metrics(ms),
        no_empty_rows(e),
        0 <= pos,
        pos + leaf_count(e) <= ms.len(),
    ensures
        spec_plan(e, fs, ms, pos).width >= 1,
        spec_plan(e, fs, ms, pos).height >= 1,
    decreases e,
{
    match e {
        Element::Mi(_) => {},
        Element::Mn(_) => {},
        Element::Mtext(_) => {},
        Element::Mo(_) => {},
        Element::Msub(m) => {
            lemma_plan_positive(*m.base, fs, ms, pos);
            lemma_plan_positive(*m.subscript, script_size(fs), ms, pos + leaf_count(*m.base));
        },
        Element::Msup(m) => {
            lemma_plan_positive(*m.base, fs, ms, pos);
            lemma_plan_positive(*m.superscript, script_size(fs), ms, pos + leaf_count(*m.base));
        },
        Element::Mfrac(m) => {
            lemma_plan_positive(*m.numerator, fs, ms, pos);
            lemma_plan_positive(*m.denominator, fs, ms, pos + leaf_count(*m.numerator));
        },
        Element::Msqrt(m) => {
            lemma_plan_positive(*m.term, fs, ms, pos);
        },
        Element::Mroot(m) => {
            lemma_plan_positive(*m.base, fs, ms, pos);
        },
        Element::Mrow(m) => {
            lemma_row_positive(m.terms@, fs, ms, pos);
        },
        Element::Mphantom(m) => {
            lemma_row_positive(m.terms@, fs, ms, pos);
        },
    }
}

/// A row over at least one positive, well-formed child has a positive box.
proof fn lemma_row_positive(ts: Seq<Element>, fs: int, ms: Seq<TextMetrics>, pos: int)
    requires
        0 <= fs,
        valid_metrics(ms),
        positive_metrics(ms),
        ts.len() >= 1,
        crate::render::no_empty_rows_seq(ts),
        0 <= pos,
        pos + leaf_count_seq(ts) <= ms.len(),
    ensures
        sum_width(spec_children_plans(ts, fs, ms, pos)) >= 1,
        max_baseline(spec_children_plans(ts, fs, ms, pos)) + max_descent(
            spec_children_plans(ts, fs, ms, pos),
        ) >= 1,
    decreases ts,
{
    let ps = spec_children_plans(ts, fs, ms, pos);
    lemma_children_plans_wf(ts, fs, ms, pos);
    lemma_plan_wf(ts[0], fs, ms, pos);
    lemma_plan_positive(ts[0], fs, ms, pos);
    let head = spec_plan(ts[0], fs, ms, pos);
    assert(ps[0] == head);
    lemma_sum_width_skip(ps);
    assert(ps.skip(1) =~= spec_children_plans(ts.skip(1), fs, ms, pos + leaf_count(ts[0])));
    assert forall|j: int| 0 <= j < ps.skip(1).len() implies 0 <= (#[trigger] ps.skip(1)[j]).width by {
        assert(ps.skip(1)[j] == ps[j + 1]);
        assert(wf_plan(ps[j + 1]));
    }
    lemma_sum_width_nonneg(ps.skip(1));
    lemma_max_baseline_bounds(ps);
    lemma_max_descent_bounds(ps);
    assert(max_baseline(ps) >= head.baseline);
    assert(max_descent(ps) >= head.height - head.baseline);
}

/// Every metric reports a visible ascent: the alignment line sits at
/// least one pixel below the box top.
pub open spec fn positive_ascents(ms: Seq<TextMetrics>) -> bool {
    forall|i: int| 0 <= i < ms.len() ==> ms[i].baseline >= 1
}

/// Visible ascents give every node of the tree a baseline strictly below
/// its box top: a scripted pair, a fraction, a radical or a row over
/// measurable leaves never degenerates to a zero baseline.
pub proof fn lemma_plan_baseline_positive(e: Element, fs: int, ms: Seq<TextMetrics>, pos: int)
    requires
        0 <= fs,
        valid_metrics(ms),
        positive_ascents(ms),
        no_empty_rows(e),
        0 <= pos,
        pos + leaf_count(e) <= ms.len(),
    ensures
        spec_plan(e, fs, ms, pos).baseline >= 1,
    decreases e,
{
    match e {
        Element::Mi(_) => {},
        Element::Mn(_) => {},
        Element::Mtext(_) => {},
        Element::Mo(_) => {},
        Element::Msub(m) => {
            lemma_plan_baseline_positive(*m.base, fs, ms, pos);
        },
        Element::Msup(m) => {
            lemma_plan_baseline_positive(*m.base, fs, ms, pos);
        },
        Element::Mfrac(m) => {
            lemma_plan_baseline_positive(*m.numerator, fs, ms, pos);
            lemma_plan_wf(*m.numerator, fs, ms, pos);
            let n = spec_plan(*m.numerator, fs, ms, pos);
            assert(n.height >= n.baseline >= 1);
            assert(line_width_of(fs) / 2 >= 0);
        },
        Element::Msqrt(m) => {
            lemma_plan_baseline_positive(*m.term, fs, ms, pos);
        },
        Element::Mroot(m) => {
            lemma_plan_baseline_positive(*m.base, fs, ms, pos);
        },
        Element::Mrow(m) => {
            lemma_row_baseline_positive(m.terms@, fs, ms, pos);
        },
        Element::Mphantom(m) => {
            lemma_row_baseline_positive(m.terms@, fs, ms, pos);
        },
    }
}

/// The row case of [`lemma_plan_baseline_positive`]: the shared baseline
/// of at least one child with a visible ascent is itself visible.
proof fn lemma_row_baseline_positive(ts: Seq<Element>, fs: int, ms: Seq<TextMetrics>, pos: int)
    requires
        0 <= fs,
        valid_metrics(ms),
        positive_ascents(ms),
        ts.len() >= 1,
        crate::render::no_empty_rows_seq(ts),
        0 <= pos,
        pos + leaf_count_seq(ts) <= ms.len(),
    ensures
        max_baseline(spec_children_plans(ts, fs, ms, pos)) >= 1,
    decreases ts,
{
    let ps = spec_children_plans(ts, fs, ms, pos);
    lemma_plan_baseline_positive(ts[0], fs, ms, pos);
    assert(ps[0] == spec_plan(ts[0], fs, ms, pos));
    lemma_max_baseline_bounds(ps);
    assert(ps[0].baseline <= max_baseline(ps));
}

/// Structural soundness of every planned box: the baseline lies inside
/// the box, and when every measured leaf has visible ink the box is at
/// least a pixel in each direction.  This holds for every node of the
/// tree, since any subtree is itself a plannable element.
pub proof fn lemma_box_invariants(e: Element, fs: int, ms: Seq<TextMetrics>)
    requires
        0 <= fs,
        valid_metrics(ms),
        positive_metrics(ms),
        no_empty_rows(e),
        ms.len() == leaf_count(e),
    ensures
        0 <= spec_plan(e, fs, ms, 0).baseline <= spec_plan(e, fs, ms, 0).height,
        spec_plan(e, fs, ms, 0).width >= 1,
        spec_plan(e, fs, ms, 0).height >= 1,
{
    lemma_plan_wf(e, fs, ms, 0);
    lemma_plan_positive(e, fs, ms, 0);
}

/// The box of a row: its baseline is the maximum of its children's
/// baselines, its height adds the largest positive descent below that
/// line, and its width is the sum of the children's widths.
pub proof fn lemma_row_box(e: Element, fs: int, ms: Seq<TextMetrics>, pos: int)
    requires
        e is Mrow,
        0 <= fs,
        valid_metrics(ms),
        0 <= pos,
        pos + leaf_count(e) <= ms.len(),
    ensures
        ({
            let ps = spec_children_plans(e->Mrow_0.terms@, fs, ms, pos);
            &&& spec_plan(e, fs, ms, pos).baseline == max_baseline(ps)
            &&& spec_plan(e, fs, ms, pos).height == max_baseline(ps) + max_descent(ps)
            &&& spec_plan(e, fs, ms, pos).width == sum_width(ps)
            &&& forall|i: int|
                0 <= i < ps.len() ==> (#[trigger] ps[i]).baseline <= max_baseline(ps)
            &&& forall|i: int|
                0 <= i < ps.len() ==> (#[trigger] ps[i]).height - ps[i].baseline <= max_descent(ps)
            &&& 0 <= max_descent(ps)
            &&& ps.len() >= 1 ==> exists|i: int|
                0 <= i < ps.len() && (#[trigger] ps[i]).baseline == max_baseline(ps)
        }),
{
    let ps = spec_children_plans(e->Mrow_0.terms@, fs, ms, pos);
    lemma_children_plans_wf(e->Mrow_0.terms@, fs, ms, pos);
    lemma_max_baseline_bounds(ps);
    lemma_max_descent_bounds(ps);
    if ps.len() >= 1 {
        lemma_max_baseline_attained(ps);
    }
}

/// A nonempty row has a child whose baseline sets the row's.
proof fn lemma_max_baseline_attained(ps: Seq<PlanModel>)
    requires
        ps.len() >= 1,
        forall|i: int| 0 <= i < ps.len() ==> wf_plan(#[trigger] ps[i]),
    ensures
        exists|i: int| 0 <= i < ps.len() && (#[trigger] ps[i]).baseline == max_baseline(ps),
    decreases ps.len(),
{
    lemma_max_baseline_bounds(ps);
    if ps.len() == 1 {
        assert(ps.drop_last().len() == 0);
        assert(max_baseline(ps.drop_last()) == 0);
        assert(ps.last() == ps[0]);
        assert(ps[0].baseline == max_baseline(ps));
    } else {
        let dl = ps.drop_last();
        if ps.last().baseline >= max_baseline(dl) {
            assert(ps[ps.len() - 1].baseline == max_baseline(ps));
        } else {
            assert forall|i: int| 0 <= i < dl.len() implies wf_plan(#[trigger] dl[i]) by {
                assert(dl[i] == ps[i]);
            }
            lemma_max_baseline_attained(dl);
            let w = choose|i: int| 0 <= i < dl.len() && (#[trigger] dl[i]).baseline
                == max_baseline(dl);
            assert(ps[w].baseline == max_baseline(ps));
        }
    }
}

/// The box of a fraction: its width is the wider of the two operands and
/// its height stacks both operand boxes, leveled to the taller one, with
/// the bar between them; the baseline runs through the middle of the bar.
pub proof fn lemma_frac_box(e: Element, fs: int, ms: Seq<TextMetrics>, pos: int)
    requires
        e is Mfrac,
    ensures
        ({
            let n = spec_plan(*e->Mfrac_0.numerator, fs, ms, pos);
            let d = spec_plan(
                *e->Mfrac_0.denominator,
                fs,
                ms,
                pos + leaf_count(*e->Mfrac_0.numerator),
            );
            &&& spec_plan(e, fs, ms, pos).width == max(n.width, d.width)
            &&& spec_plan(e, fs, ms, pos).height == 2 * max(n.height, d.height) + line_width_of(fs)
            &&& spec_plan(e, fs, ms, pos).baseline == max(n.height, d.height) + line_width_of(fs)
                / 2
        }),
{
}

/// A phantom reserves exactly the box a row over the same children would
/// get, and paints nothing at all.
pub proof fn lemma_phantom_like_row(
    row: Element,
    phantom: Element,
    fs: int,
    ms: Seq<TextMetrics>,
    pos: int,
)
    requires
        row is Mrow,
        phantom is Mphantom,
        row->Mrow_0.terms@ == phantom->Mphantom_0.terms@,
    ensures
        spec_plan(phantom, fs, ms, pos).width == spec_plan(row, fs, ms, pos).width,
        spec_plan(phantom, fs, ms, pos).height == spec_plan(row, fs, ms, pos).height,
        spec_plan(phantom, fs, ms, pos).baseline == spec_plan(row, fs, ms, pos).baseline,
        spec_plan(phantom, fs, ms, pos).ops.len() == 0,
{
}

/// What a plan paints depends only on the plan's data and the origin it
/// is painted at: two structurally equal plans painted at one origin
/// yield the same operations, so repeated painting repeats them exactly.
pub proof fn lemma_paint_deterministic(a: RenderingPlan, b: RenderingPlan, x: int, y: int)
    requires
        a@ == b@,
    ensures
        translate_ops(a@.ops, x, y) == translate_ops(b@.ops, x, y),
{
}

/// The texts a command list draws, in painting order, with their font
/// sizes.
pub open spec fn glyph_texts(ops: Seq<OpModel>) -> Seq<ReqModel>
    decreases ops.len(),
{
    if ops.len() == 0 {
        Seq::empty()
    } else {
        glyph_texts(ops.drop_last()) + (match ops.last() {
            OpModel::Glyphs { text, font_size, .. } => seq![ReqModel { text, font_size }],
            _ => Seq::empty(),
        })
    }
}

/// A tree without phantoms: every measured leaf is also drawn.
pub open spec fn no_phantoms(e: Element) -> bool
    decreases e,
{
    match e {
        Element::Mi(_) => true,
        Element::Mn(_) => true,
        Element::Mo(_) => true,
        Element::Mtext(_) => true,
        Element::Mrow(m) => forall|j: int|
            0 <= j < m.terms@.len() ==> no_phantoms(#[trigger] m.terms@[j]),
        Element::Mphantom(_) => false,
        Element::Msub(m) => no_phantoms(*m.base) && no_phantoms(*m.subscript),
        Element::Msup(m) => no_phantoms(*m.base) && no_phantoms(*m.superscript),
        Element::Mfrac(m) => no_phantoms(*m.numerator) && no_phantoms(*m.denominator),
        Element::Msqrt(m) => no_phantoms(*m.term),
        Element::Mroot(m) => no_phantoms(*m.base),
    }
}

/// Splitting a command list splits the texts it draws.
proof fn lemma_glyph_texts_concat(a: Seq<OpModel>, b: Seq<OpModel>)
    ensures
        glyph_texts(a + b) == glyph_texts(a) + glyph_texts(b),
    decreases b.len(),
{
    if b.len() == 0 {
        assert(a + b =~= a);
        assert(glyph_texts(a + b) =~= glyph_texts(a) + glyph_texts(b));
    } else {
        lemma_glyph_texts_concat(a, b.drop_last());
        assert((a + b).drop_last() =~= a + b.drop_last());
        assert((a + b).last() == b.last());
        assert(glyph_texts(a + b) =~= glyph_texts(a) + glyph_texts(b));
    }
}

/// Moving a command list draws the same texts.
proof fn lemma_glyph_texts_translate(ops: Seq<OpModel>, dx: int, dy: int)
    ensures
        glyph_texts(translate_ops(ops, dx, dy)) == glyph_texts(ops),
    decreases ops.len(),
{
    if ops.len() > 0 {
        lemma_glyph_texts_translate(ops.drop_last(), dx, dy);
        let t = translate_ops(ops, dx, dy);
        assert(t.drop_last() =~= translate_ops(ops.drop_last(), dx, dy));
        assert(t.last() == translate_op(ops.last(), dx, dy));
        assert(glyph_texts(t) =~= glyph_texts(ops));
    }
}

/// What is measured is what is drawn: over a tree without phantoms, the
/// glyph operations of the plan, taken in painting order, carry exactly
/// the texts of [`spec_requests`], each at its requested
/// font size.
pub proof fn lemma_plan_draws_requests(e: Element, fs: int, ms: Seq<TextMetrics>, pos: int)
    requires
        no_phantoms(e),
    ensures
        glyph_texts(spec_plan(e, fs, ms, pos).ops) == spec_requests(e, fs),
    decreases e, 1int,
{
    reveal_with_fuel(glyph_texts, 3);
    match e {
        Element::Mi(_) => {
            assert(glyph_texts(spec_plan(e, fs, ms, pos).ops) =~= spec_requests(e, fs));
        },
        Element::Mn(_) => {
            assert(glyph_texts(spec_plan(e, fs, ms, pos).ops) =~= spec_requests(e, fs));
        },
        Element::Mtext(_) => {
            assert(glyph_texts(spec_plan(e, fs, ms, pos).ops) =~= spec_requests(e, fs));
        },
        Element::Mo(_) => {
            assert(glyph_texts(spec_plan(e, fs, ms, pos).ops) =~= spec_requests(e, fs));
        },
        Element::Msub(m) => {
            let b = spec_plan(*m.base, fs, ms, pos);
            let s = spec_plan(*m.subscript, script_size(fs), ms, pos + leaf_count(*m.base));
            let base_y = max(0, s.height - b.height / 2);
            lemma_plan_draws_requests(*m.base, fs, ms, pos);
            lemma_plan_draws_requests(*m.subscript, script_size(fs), ms, pos + leaf_count(*m.base));
            lemma_glyph_texts_translate(b.ops, 0, base_y);
            lemma_glyph_texts_translate(s.ops, b.width, base_y + b.height / 2);
            lemma_glyph_texts_concat(
                translate_ops(b.ops, 0, base_y),
                translate_ops(s.ops, b.width, base_y + b.height / 2),
            );
        },
        Element::Msup(m) => {
            let b = spec_plan(*m.base, fs, ms, pos);
            let s = spec_plan(*m.superscript, script_size(fs), ms, pos + leaf_count(*m.base));
            let base_y = max(0, s.height - b.height / 2);
            lemma_plan_draws_requests(*m.base, fs, ms, pos);
            lemma_plan_draws_requests(
                *m.superscript,
                script_size(fs),
                ms,
                pos + leaf_count(*m.base),
            );
            lemma_glyph_texts_translate(b.ops, 0, base_y);
            lemma_glyph_texts_translate(s.ops, b.width, 0);
            lemma_glyph_texts_concat(
                translate_ops(b.ops, 0, base_y),
                translate_ops(s.ops, b.width, 0),
            );
        },
        Element::Mfrac(m) => {
            let n = spec_plan(*m.numerator, fs, ms, pos);
            let d = spec_plan(*m.denominator, fs, ms, pos + leaf_count(*m.numerator));
            let lw = line_width_of(fs);
            let width = max(n.width, d.width);
            let term_height = max(n.height, d.height);
            let n_x = if n.width < d.width {
                (d.width - n.width) / 2
            } else {
                0
            };
            let d_x = if n.width > d.width {
                (n.width - d.width) / 2
            } else {
                0
            };
            lemma_plan_draws_requests(*m.numerator, fs, ms, pos);
            lemma_plan_draws_requests(*m.denominator, fs, ms, pos + leaf_count(*m.numerator));
            let tn = translate_ops(n.ops, n_x, term_height - n.height);
            let td = translate_ops(d.ops, d_x, term_height + lw);
            let bar = seq![
                OpModel::Bar { x: 0, y: term_height, width, height: lw },
            ];
            lemma_glyph_texts_translate(n.ops, n_x, term_height - n.height);
            lemma_glyph_texts_translate(d.ops, d_x, term_height + lw);
            lemma_glyph_texts_concat(tn, td);
            lemma_glyph_texts_concat(tn + td, bar);
            assert(glyph_texts(bar) =~= Seq::<ReqModel>::empty());
            assert(glyph_texts(spec_plan(e, fs, ms, pos).ops) =~= spec_requests(
                e,
                fs,
            ));
        },
        Element::Msqrt(m) => {
            let b = spec_plan(*m.term, fs, ms, pos);
            let lw = line_width_of(fs);
            lemma_plan_draws_requests(*m.term, fs, ms, pos);
            let tb = translate_ops(b.ops, b.height / 2, 2 * lw);
            let sign = seq![
                OpModel::Radical {
                    x: 0,
                    y: 0,
                    width: b.width + b.height / 2,
                    height: b.height + 3 * lw,
                    inner_height: b.height,
                    line_width: lw,
                },
            ];
            lemma_glyph_texts_translate(b.ops, b.height / 2, 2 * lw);
            lemma_glyph_texts_concat(tb, sign);
            assert(glyph_texts(sign) =~= Seq::<ReqModel>::empty());
            assert(glyph_texts(spec_plan(e, fs, ms, pos).ops) =~= spec_requests(
                e,
                fs,
            ));
        },
        Element::Mroot(m) => {
            let b = spec_plan(*m.base, fs, ms, pos);
            let lw = line_width_of(fs);
            lemma_plan_draws_requests(*m.base, fs, ms, pos);
            let tb = translate_ops(b.ops, b.height / 2, 2 * lw);
            let sign = seq![
                OpModel::Radical {
                    x: 0,
                    y: 0,
                    width: b.width + b.height / 2,
                    height: b.height + 3 * lw,
                    inner_height: b.height,
                    line_width: lw,
                },
            ];
            lemma_glyph_texts_translate(b.ops, b.height / 2, 2 * lw);
            lemma_glyph_texts_concat(tb, sign);
            assert(glyph_texts(sign) =~= Seq::<ReqModel>::empty());
            assert(glyph_texts(spec_plan(e, fs, ms, pos).ops) =~= spec_requests(
                e,
                fs,
            ));
        },
        Element::Mrow(m) => {
            let ps = spec_children_plans(m.terms@, fs, ms, pos);
            lemma_row_draws_requests(
                m.terms@,
                fs,
                ms,
                pos,
                max_baseline(ps),
                0,
            );
        },
        Element::Mphantom(_) => {},
    }
}

/// The row case of [`lemma_plan_draws_requests`]: wherever a row's
/// children are painted, they draw the children's requests from left to
/// right.
proof fn lemma_row_draws_requests(
    ts: Seq<Element>,
    fs: int,
    ms: Seq<TextMetrics>,
    pos: int,
    baseline: int,
    x0: int,
)
    requires
        forall|j: int| 0 <= j < ts.len() ==> no_phantoms(#[trigger] ts[j]),
    ensures
        glyph_texts(
            row_ops(spec_children_plans(ts, fs, ms, pos), baseline, x0),
        ) == spec_requests_seq(ts, fs),
    decreases ts, 0int,
{
    let ps = spec_children_plans(ts, fs, ms, pos);
    if ts.len() == 0 {
        assert(glyph_texts(row_ops(ps, baseline, x0))
            =~= spec_requests_seq(ts, fs));
    } else {
        let head = spec_plan(ts[0], fs, ms, pos);
        let rest = spec_children_plans(ts.skip(1), fs, ms, pos + leaf_count(ts[0]));
        assert(ps[0] == head);
        assert(ps.skip(1) =~= rest);
        lemma_plan_draws_requests(ts[0], fs, ms, pos);
        lemma_row_draws_requests(
            ts.skip(1),
            fs,
            ms,
            pos + leaf_count(ts[0]),
            baseline,
            x0 + head.width,
        );
        lemma_glyph_texts_translate(head.ops, x0, baseline - head.baseline);
        lemma_glyph_texts_concat(
            translate_ops(head.ops, x0, baseline - head.baseline),
            row_ops(rest, baseline, x0 + head.width),
        );
    }
}

} // verus!
