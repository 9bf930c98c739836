//! The scene: a figure owns its axes, and each axes its drawable nodes.

use vstd::prelude::*;
use crate::numeric::number::{Binary32, Binary64};
use crate::scale::Scale;

verus! {

/// Pixel dimensions and display density of a figure's target surface.
#[derive(Clone, Copy, Debug)]
pub struct Size {
    pub width: u32,
    pub height: u32,
    pub dpi: Binary32,
}

/// A color, each channel in `[0, 1]`.
#[derive(Clone, Copy, Debug)]
pub struct Color {
    pub r: Binary32,
    pub g: Binary32,
    pub b: Binary32,
    pub a: Binary32,
}

impl Color {
    pub open spec fn opaque(r: u32, g: u32, b: u32) -> Color {
        Color {
            r: Binary32 { bits: r },
            g: Binary32 { bits: g },
            b: Binary32 { bits: b },
            a: Binary32::one(),
        }
    }

    /// Opaque green: channels 0, 1, 0, 1.
    pub open spec fn green_spec() -> Color {
        Color::opaque(0, 0x3f80_0000, 0)
    }

    /// Opaque white: every channel 1.
    pub open spec fn white_spec() -> Color {
        Color::opaque(0x3f80_0000, 0x3f80_0000, 0x3f80_0000)
    }

    /// Opaque black: channels 0, 0, 0, 1.
    pub open spec fn black_spec() -> Color {
        Color::opaque(0, 0, 0)
    }

    #[verifier::when_used_as_spec(green_spec)]
    pub fn green() -> (c: Color)
        ensures
            c == Color::green_spec(),
    {
        let zero = Binary32 { bits: 0 };
        let one = Binary32 { bits: 0x3f80_0000 };
        Color { r: zero, g: one, b: zero, a: one }
    }

    #[verifier::when_used_as_spec(white_spec)]
    pub fn white() -> (c: Color)
        ensures
            c == Color::white_spec(),
    {
        let one = Binary32 { bits: 0x3f80_0000 };
        Color { r: one, g: one, b: one, a: one }
    }

    #[verifier::when_used_as_spec(black_spec)]
    pub fn black() -> (c: Color)
        ensures
            c == Color::black_spec(),
    {
        let zero = Binary32 { bits: 0 };
        let one = Binary32 { bits: 0x3f80_0000 };
        Color { r: zero, g: zero, b: zero, a: one }
    }
}

impl Default for Color {
    fn default() -> (r: Color)
        ensures
            r == Color::white(),
    {
        Color::white()
    }
}

/// A rectangle in fractions of the figure: origin corner and extent.
#[derive(Clone, Copy, Debug)]
pub struct Rect {
    pub x: Binary32,
    pub y: Binary32,
    pub w: Binary32,
    pub h: Binary32,
}

/// The shape drawn at each point of a scatter node.
#[derive(Clone, Copy, Debug)]
pub enum Marker {
    Circle,
    Square,
}

/// A polyline: `xs[i]` and `ys[i]` are paired by index.
#[derive(Clone, Debug)]
pub struct Line {
    pub xs: Vec<Binary64>,
    pub ys: Vec<Binary64>,
    pub color: Color,
    pub width: Binary32,
}

/// Independent point samples.
#[derive(Clone, Debug)]
pub struct Scatter {
    pub xs: Vec<Binary64>,
    pub ys: Vec<Binary64>,
    pub color: Color,
    pub size: Binary32,
    pub marker: Marker,
}

/// Bars at given positions.
#[derive(Clone, Debug)]
pub struct Bar {
    pub xs: Vec<Binary64>,
    pub heights: Vec<Binary64>,
    pub width: Binary32,
    pub color: Color,
}

/// A drawable element of an axes.
#[derive(Clone, Debug)]
pub enum Node {
    Line(Line),
    Scatter(Scatter),
    Bar(Bar),
}

/// A plotting region: where it lies in the figure, how data maps into it,
/// and what it draws, in drawing order.
#[derive(Clone, Debug)]
pub struct Axes {
    pub rect: Rect,
    pub x: Scale,
    pub y: Scale,
    pub children: Vec<Node>,
}

impl Axes {
    pub fn new(rect: Rect, x: Scale, y: Scale) -> (r: Axes)
        ensures
            r.rect == rect,
            r.x == x,
            r.y == y,
            r.children@ == Seq::<Node>::empty(),
    {
        Axes { rect, x, y, children: Vec::new() }
    }

    /// Appends a node; nothing else changes.
    pub fn add(&mut self, node: Node)
        ensures
            final(self).children@ == old(self).children@.push(node),
            final(self).rect == old(self).rect,
            final(self).x == old(self).x,
            final(self).y == old(self).y,
    {
        self.children.push(node);
    }
}

/// The root of a scene: a surface size, the axes in drawing order, and the
/// color the surface is cleared to.
#[non_exhaustive]
#[derive(Clone, Debug)]
pub struct Figure {
    pub size: Size,
    pub axes: Vec<Axes>,
    pub clear_color: Color,
}

impl Figure {
    pub fn new(size: Size) -> (r: Figure)
        ensures
            r.size == size,
            r.axes@ == Seq::<Axes>::empty(),
            r.clear_color == Color::white(),
    {
        Figure { size, axes: Vec::new(), clear_color: Color::white() }
    }

    /// Appends an axes; nothing else changes.
    pub fn add_axes(&mut self, axes: Axes)
        ensures
            final(self).axes@ == old(self).axes@.push(axes),
            final(self).size == old(self).size,
            final(self).clear_color == old(self).clear_color,
    {
        self.axes.push(axes);
    }
}

} // verus!
