//! The part of a widget's style and content that the layout pipeline reads.
//!
//! Lengths are whole pixels.
use vstd::prelude::*;

verus! {

/// A width and a height as the solver reports them.
#[derive(Clone, Copy, Debug, PartialEq, Eq, Structural)]
pub struct Size {
    pub width: i32,
    pub height: i32,
}

/// A pair of lengths: a place on the screen, or a width and a height.
#[derive(Clone, Copy, Debug, PartialEq, Eq, Structural)]
pub struct Vec2 {
    pub x: i64,
    pub y: i64,
}

/// The four edges of a box.
#[derive(Clone, Copy, Debug, PartialEq, Eq, Structural)]
pub struct Edge {
    pub top: i64,
    pub right: i64,
    pub bottom: i64,
    pub left: i64,
}

/// How a widget is placed.
#[derive(Clone, Copy, Debug, PartialEq, Eq, Structural)]
pub enum WidgetPosition {
    /// In the flow of its parent.
    Relative,
    /// Relative to its parent, out of the flow.
    Absolute,
    /// Relative to the root, whatever stands above the widget.
    Fixed,
}

/// A length of a style.
#[derive(Clone, Copy, Debug, PartialEq, Eq, Structural)]
pub enum Units {
    /// A number of pixels.
    Pixels(i32),
    /// A share of the parent, in percent.
    Percentage(i32),
    /// Left to the solver.
    Auto,
}

impl Units {
    /// The length in pixels; `default` where it is not given in pixels.
    pub open spec fn spec_value_or(self, default: i32) -> i32 {
        match self {
            Units::Pixels(value) => value,
            _ => default,
        }
    }

    /// The length in pixels; `default` where it is not given in pixels, as a
    /// share of a parent cannot be resolved without one.
    pub fn value_or(&self, default: i32) -> (value: i32)
        ensures
            value == self.spec_value_or(default),
    {
        match self {
            Units::Pixels(value) => *value,
            _ => default,
        }
    }
}

/// The style properties that decide where a widget's box is registered and
/// how large the root is.
#[derive(Clone, Copy, Debug, PartialEq, Eq, Structural)]
pub struct WoodpeckerStyle {
    pub position: WidgetPosition,
    pub width: Units,
    pub height: Units,
}

/// What a widget draws, as far as its intrinsic size depends on it.
#[derive(Clone, Copy, Debug, PartialEq, Eq, Structural)]
pub enum WidgetRender {
    /// A plain box; it has no intrinsic size.
    Quad,
    /// Text, to be shaped inside the box of the parent.
    Text { word_wrap: bool },
    /// An image, with its pixel dimensions once it is loaded.
    Image { size: Option<Size> },
    /// A vector graphic, with its dimensions once it is loaded.
    Svg { size: Option<Size> },
    /// Anything else; it has no intrinsic size.
    Custom,
}

/// The state attached to a persistent node that the layout pipeline reads.
#[derive(Clone, Copy, Debug, PartialEq, Eq, Structural)]
pub struct WidgetNode {
    pub styles: WoodpeckerStyle,
    /// `None` for a widget that draws nothing.
    pub render: Option<WidgetRender>,
    /// Set on nodes that only hold state or the snapshot of an earlier
    /// frame; the pipeline passes over them.
    pub hidden: bool,
}

} // verus!
