//! Whole expression trees, from a single glyph to a quadratic formula,
//! planned end to end with synthetic leaf metrics.

use remml::mml_types::{mfrac, mi, mn, mo, mphantom, mroot, mrow, msub, msup, mtext, Element};
use remml::render::{RenderingPlan, TextMetrics};

/// Synthesizes one metric per leaf: a box six tenths of the effective
/// font size per character, a full font size tall, with the baseline at
/// three quarters of the height.
fn metrics_for(e: &Element, font_size: u32) -> Vec<TextMetrics> {
    let requests = e.text_requests(font_size);
    let mut ms: Vec<TextMetrics> = Vec::new();
    for q in &requests {
        let chars = q.text.chars().count().max(1) as u32;
        ms.push(TextMetrics {
            width: chars * (q.font_size * 6 / 10).max(1),
            height: q.font_size.max(1),
            baseline: (q.font_size * 3 / 4).max(1).min(q.font_size.max(1)),
        });
    }
    ms
}

fn plan_checked(e: &Element, font_size: u32) -> RenderingPlan {
    let ms = metrics_for(e, font_size);
    let plan = e.plan_render(font_size, &ms).expect("planning should succeed");
    assert!(plan.baseline <= plan.height);
    assert!(plan.width > 0);
    assert!(plan.height > 0);
    plan
}

#[test]
fn single_char() {
    let whole = mi("β");
    let font_size = 100;

    plan_checked(&whole, font_size);
}

#[test]
fn beta_squared() {
    let whole = msup(mi("β"), mn("2"));
    let font_size = 100;

    plan_checked(&whole, font_size);
}

#[test]
fn phantom_plus() {
    let whole = mrow(vec![mi("β"), mphantom(vec![mo("+")]), mn("2")]);
    let font_size = 100;

    plan_checked(&whole, font_size);
}

#[test]
fn beta_sub_alpha_sup_2() {
    let whole = msup(msub(mi("β"), mi("α")), mn("2"));
    let font_size = 100;

    plan_checked(&whole, font_size);
}

#[test]
fn alpha_over_beta() {
    let fraction = mfrac(mi("α"), mi("β"));
    let font_size = 100;

    plan_checked(&fraction, font_size);
}

#[test]
fn half_alpha_n() {
    let fraction = mfrac(msub(mi("α"), mn("n")), mn("2"));
    let font_size = 100;

    plan_checked(&fraction, font_size);
}

#[test]
fn alpha_plus_beta() {
    let row = mrow(vec![mi("α"), mo("+"), mi("β")]);
    let font_size = 100;

    plan_checked(&row, font_size);
}

#[test]
fn x_and_a_half() {
    let row = mrow(vec![mi("x"), mo("+"), mfrac(mn("1"), mn("2"))]);
    let font_size = 100;

    plan_checked(&row, font_size);
}

#[test]
fn sqrt2() {
    let sqrt_2 = mroot(mn("2"), None);
    let font_size = 100;

    plan_checked(&sqrt_2, font_size);
}

#[test]
fn sqrtsqrt2() {
    let sqrt_2 = mroot(mroot(mn("2"), None), None);
    let font_size = 100;

    plan_checked(&sqrt_2, font_size);
}

#[test]
fn discriminant() {
    let font_size = 100;
    let whole = mrow(vec![
        mtext("roots"),
        mo("="),
        mfrac(
            mrow(vec![
                mo("−"),
                mi("b"),
                mo("±"),
                mroot(
                    mrow(vec![
                        msup(mi("b"), mn("2")),
                        mo("−"),
                        mn("4"),
                        mi("a"),
                        mi("c"),
                    ]),
                    None,
                ),
            ]),
            mrow(vec![mn("2"), mi("a")]),
        ),
    ]);

    plan_checked(&whole, font_size);
}
