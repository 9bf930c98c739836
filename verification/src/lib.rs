//! A declarative 2D plotting core: a scene of figure, axes and drawable
//! nodes, scales from data to normalized coordinates, a layout of axes inside
//! fixed margins, and the flattening of a figure into draw-ready batches.
//!
//! Numbers are double- and single-precision values held as bit patterns and
//! computed with in integer arithmetic; every operation is proved to return
//! the exact result rounded once to the nearest value, ties to even.

pub mod host;
pub mod layout;
pub mod numeric;
pub mod render;
pub mod scale;
pub mod scene;
pub mod style;

pub use host::{has_area, react, Reaction, WindowInput};
pub use layout::{single_axes, LayoutParams};
pub use numeric::number::{Binary32, Binary64};
pub use render::{build_batches, line_batch, Batches, LineBatch, RenderBackend, RenderTargetDesc};
pub use scale::{Linear, Scale};
pub use scene::{Axes, Bar, Color, Figure, Line, Marker, Node, Rect, Scatter, Size};
pub use style::Theme;
