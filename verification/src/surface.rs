//! The raster-surface side of the library: allocating the pixel target a
//! plan asks for, and filling the solid bars of a command list.  Glyph
//! and radical operations need a text painter and are left to the
//! caller.

use vstd::prelude::*;

use crate::render::{OpModel, PaintOp, RenderingPlan};

verus! {

#[verifier::external_type_specification]
#[verifier::external_body]
pub struct ExPixmap(tiny_skia::Pixmap);

/// Why executing a plan against a surface failed.
#[derive(Clone, Copy, Debug, PartialEq, Eq, Structural)]
pub enum RenderError {
    /// The plan's box has zero width or height: there is nothing to
    /// allocate, and the degenerate request is refused rather than
    /// silently clamped.
    EmptySurface,
    /// The surface library refused the allocation: the box passes its
    /// row-byte limit or its buffer would not fit the address space.
    AllocationFailed,
    /// A bar reaches outside the coordinate range the surface accepts.
    CoordinateOverflow,
}

/// Whether the surface library can allocate a pixel target of this size:
/// both sides are positive, a row of four-byte pixels stays within the
/// 31 bits the library demands of row bytes, and the whole buffer's byte
/// count fits the address space.
pub open spec fn surface_allocatable(width: int, height: int) -> bool {
    &&& 1 <= width <= 0x1fff_ffff
    &&& 1 <= height
    &&& (height - 1) * (4 * width) + 4 * width <= usize::MAX
}

/// Relies on tiny_skia::Pixmap::new: it returns a pixmap of the requested
/// size, filled with transparent black, exactly when the size passes its
/// checks — nonzero sides, row bytes within 31 bits, and a byte count
/// that fits usize, which is [`surface_allocatable`] — and a failed
/// buffer allocation aborts rather than returning.
#[verifier::external_body]
fn pixmap_new(width: u32, height: u32) -> (r: Option<tiny_skia::Pixmap>)
    ensures
        r is Some <==> surface_allocatable(width as int, height as int),
{
    tiny_skia::Pixmap::new(width, height)
}

/// Relies on tiny_skia::Pixmap::fill_rect and tiny_skia::IntRect::from_xywh:
/// fills the axis-aligned rectangle at `(x, y)` of the given size with
/// the library's default paint.  The bounds keep both corners within the
/// 31-bit range that from_xywh demands, so it cannot return `None`.
#[verifier::external_body]
fn pixmap_fill_rect(pixmap: &mut tiny_skia::Pixmap, x: u32, y: u32, width: u32, height: u32)
    requires
        width >= 1,
        height >= 1,
        x + width <= 0x7fff_ffff,
        y + height <= 0x7fff_ffff,
{
    let rect = tiny_skia::IntRect::from_xywh(x as i32, y as i32, width, height).unwrap().to_rect();
    pixmap.fill_rect(rect, &tiny_skia::Paint::default(), tiny_skia::Transform::identity(), None);
}

/// Allocates the surface a plan needs: a pixel target of exactly the
/// plan's width and height.  Allocation succeeds exactly on
/// [`surface_allocatable`] boxes; a degenerate box is reported as empty
/// and one past the library's limits as a failed allocation.
pub fn allocate_surface(plan: &RenderingPlan) -> (r: Result<tiny_skia::Pixmap, RenderError>)
    ensures
        (r matches Err(er) && er == RenderError::EmptySurface) <==> (plan.width == 0
            || plan.height == 0),
        (r matches Err(er) && er == RenderError::AllocationFailed) <==> (plan.width >= 1
            && plan.height >= 1 && !surface_allocatable(plan.width as int, plan.height as int)),
        r is Ok <==> surface_allocatable(plan.width as int, plan.height as int),
{
    if plan.width == 0 || plan.height == 0 {
        return Err(RenderError::EmptySurface);
    }
    match pixmap_new(plan.width, plan.height) {
        Some(p) => Ok(p),
        None => Err(RenderError::AllocationFailed),
    }
}

/// Whether a bar operation can be drawn on a surface: its corners stay
/// within the 31-bit range the surface accepts.  Operations other than
/// bars, and bars without area, make no demand.
pub open spec fn bar_paintable(op: OpModel) -> bool {
    match op {
        OpModel::Bar { x, y, width, height } => width >= 1 && height >= 1 ==> x + width
            <= 0x7fff_ffff && y + height <= 0x7fff_ffff,
        _ => true,
    }
}

/// Number of bar operations with visible area in a command list.
pub open spec fn count_bars(ops: Seq<OpModel>) -> int
    decreases ops.len(),
{
    if ops.len() == 0 {
        0
    } else {
        count_bars(ops.drop_last()) + (if ops.last() matches OpModel::Bar { width, height, .. }
            && width >= 1 && height >= 1 {
            1int
        } else {
            0int
        })
    }
}

/// Fills every solid bar of a command list into the surface and reports
/// how many it filled.  Glyph and radical operations are left untouched
/// for the caller's text painter; bars without area have no ink.
pub fn paint_bars(pixmap: &mut tiny_skia::Pixmap, ops: &Vec<PaintOp>) -> (r: Result<
    usize,
    RenderError,
>)
    ensures
        r matches Ok(n) ==> n == count_bars(ops@.map_values(|op: PaintOp| op@)),
        r is Ok <==> (forall|i: int|
            0 <= i < ops@.len() ==> bar_paintable(#[trigger] ops@[i]@)),
        r matches Err(er) ==> er == RenderError::CoordinateOverflow,
{
    let ghost mops = ops@.map_values(|op: PaintOp| op@);
    let mut painted: usize = 0;
    let mut i: usize = 0;
    while i < ops.len()
        invariant
            i <= ops@.len(),
            painted <= i,
            mops == ops@.map_values(|op: PaintOp| op@),
            painted == count_bars(mops.take(i as int)),
            forall|j: int| 0 <= j < i ==> bar_paintable(#[trigger] ops@[j]@),
        decreases ops@.len() - i,
    {
        proof {
            assert(mops.take(i as int + 1).drop_last() =~= mops.take(i as int));
            assert(mops.take(i as int + 1).last() == mops[i as int]);
            assert(mops[i as int] == ops@[i as int]@);
        }
        match &ops[i] {
            PaintOp::Bar { x, y, width, height } => {
                if *width >= 1 && *height >= 1 {
                    if (*x as u64) + (*width as u64) > 0x7fff_ffff || (*y as u64) + (*height
                        as u64) > 0x7fff_ffff {
                        proof {
                            assert(!bar_paintable(ops@[i as int]@));
                        }
                        return Err(RenderError::CoordinateOverflow);
                    }
                    pixmap_fill_rect(pixmap, *x, *y, *width, *height);
                    painted = painted + 1;
                }
            },
            _ => {},
        }
        i = i + 1;
    }
    proof {
        assert(mops.take(ops@.len() as int) =~= mops);
    }
    Ok(painted)
}

} // verus!
