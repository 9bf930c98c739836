//! Layout: the rectangle an axes occupies in a figure, from fixed margins.

use vstd::prelude::*;
use crate::numeric::number::{Binary32, Binary64};
use crate::scale::{Linear, Scale};
use crate::scene::{Axes, Color, Figure, Node, Rect, Size};

verus! {

/// Margins around an axes, in pixels.
pub struct LayoutParams {
    pub left: Binary32,
    pub right: Binary32,
    pub top: Binary32,
    pub bottom: Binary32,
}

impl LayoutParams {
    /// The margins every layout uses: left 60, right 20, top 20, bottom 40.
    pub open spec fn standard() -> LayoutParams {
        LayoutParams {
            left: Binary32 { bits: 0x4270_0000 },
            right: Binary32 { bits: 0x41a0_0000 },
            top: Binary32 { bits: 0x41a0_0000 },
            bottom: Binary32 { bits: 0x4220_0000 },
        }
    }
}

impl Default for LayoutParams {
    fn default() -> (r: LayoutParams)
        ensures
            r == LayoutParams::standard(),
    {
        LayoutParams {
            left: Binary32 { bits: 0x4270_0000 },
            right: Binary32 { bits: 0x41a0_0000 },
            top: Binary32 { bits: 0x41a0_0000 },
            bottom: Binary32 { bits: 0x4220_0000 },
        }
    }
}

/// The rectangle left inside the margins, in fractions of the surface:
/// `x = left / width`, `y = bottom / height`,
/// `w = (width - left - right) / width`, `h = (height - top - bottom) / height`,
/// anchored at the bottom-left corner.
pub open spec fn inner_rect(size: Size, lp: LayoutParams) -> Rect {
    let w = Binary32::of_whole(size.width);
    let h = Binary32::of_whole(size.height);
    Rect {
        x: lp.left.quotient(w),
        y: lp.bottom.quotient(h),
        w: w.difference(lp.left).difference(lp.right).quotient(w),
        h: h.difference(lp.top).difference(lp.bottom).quotient(h),
    }
}

/// The scale that takes the limits `lim` onto `[0, 1]`.
pub open spec fn unit_scale(lim: (Binary64, Binary64)) -> Scale {
    Scale::Linear(Linear { domain: lim, range: (Binary64::zero(), Binary64::one()) })
}

/// A new figure of the given size with one empty axes inside the standard
/// margins, its scales taking `xlim` and `ylim` onto `[0, 1]`; and the index
/// of that axes in the figure.
pub fn single_axes(size: Size, xlim: (Binary64, Binary64), ylim: (Binary64, Binary64)) -> (r: (
    Figure,
    usize,
))
    ensures
        r.0.size == size,
        r.0.clear_color == Color::white(),
        r.0.axes@.len() == 1,
        r.1 == r.0.axes@.len() - 1,
        r.0.axes@[0].rect == inner_rect(size, LayoutParams::standard()),
        r.0.axes@[0].x == unit_scale(xlim),
        r.0.axes@[0].y == unit_scale(ylim),
        r.0.axes@[0].children@ == Seq::<Node>::empty(),
{
    let mut fig = Figure::new(size);
    let lp = LayoutParams::default();
    let w = Binary32::from_whole(size.width);
    let h = Binary32::from_whole(size.height);
    let rect = Rect {
        x: lp.left.over(w),
        y: lp.bottom.over(h),
        w: w.minus(lp.left).minus(lp.right).over(w),
        h: h.minus(lp.top).minus(lp.bottom).over(h),
    };
    let zero = Binary64 { bits: 0 };
    let one = Binary64 { bits: 0x3ff0_0000_0000_0000 };
    let axes = Axes::new(rect, Scale::linear(xlim, (zero, one)), Scale::linear(ylim, (zero, one)));
    fig.add_axes(axes);
    let idx = fig.axes.len() - 1;
    (fig, idx)
}

} // verus!
