//! Intrinsic sizes: what a widget's content asks of the solver.
use crate::layout::style::Size;
use crate::layout::style::WidgetRender;
use crate::layout::ui_layout::SolverLayout;
use vstd::prelude::*;

verus! {

/// The height added to the parent's box when text is shaped, so that text is
/// never cut off at the bottom.
pub const TEXT_HEIGHT_SLACK: i64 = 100000;

/// The native size of an image or a vector graphic.
#[derive(Clone, Copy, Debug, PartialEq, Eq, Structural)]
pub struct ImageMeasure {
    pub size: Size,
}

/// Text that is to be shaped inside a box of the given width and height.
#[derive(Clone, Copy, Debug, PartialEq, Eq, Structural)]
pub struct TextMeasure {
    pub width: i64,
    pub height: i64,
    pub word_wrap: bool,
}

/// A size that is known.
#[derive(Clone, Copy, Debug, PartialEq, Eq, Structural)]
pub struct FixedMeasure {
    pub width: i64,
    pub height: i64,
}

/// How the solver learns the intrinsic size of a node.
#[derive(Clone, Copy, Debug, PartialEq, Eq, Structural)]
pub enum LayoutMeasure {
    Image(ImageMeasure),
    Text(TextMeasure),
    Fixed(FixedMeasure),
}

/// The measurement of a widget that draws `widget_render` under a parent with
/// the box `parent_layout`.
pub open spec fn render_size(widget_render: WidgetRender, parent_layout: SolverLayout) -> Option<
    LayoutMeasure,
> {
    match widget_render {
        WidgetRender::Image { size: Some(size) } => Some(
            LayoutMeasure::Image(ImageMeasure { size }),
        ),
        WidgetRender::Svg { size: Some(size) } => Some(LayoutMeasure::Image(ImageMeasure { size })),
        WidgetRender::Text { word_wrap } => Some(
            LayoutMeasure::Text(
                TextMeasure {
                    width: parent_layout.size.width as i64,
                    height: (parent_layout.size.height + TEXT_HEIGHT_SLACK) as i64,
                    word_wrap,
                },
            ),
        ),
        _ => None,
    }
}

/// The measurement of a widget from what it draws: the native size of a
/// loaded image or vector graphic, the box in which text is to be shaped, and
/// nothing for anything else.
pub fn match_render_size(widget_render: &WidgetRender, parent_layout: &SolverLayout) -> (measure:
    Option<LayoutMeasure>)
    ensures
        measure == render_size(*widget_render, *parent_layout),
{
    match widget_render {
        WidgetRender::Image { size } => {
            match size {
                Some(size) => Some(LayoutMeasure::Image(ImageMeasure { size: *size })),
                None => None,
            }
        },
        WidgetRender::Svg { size } => {
            match size {
                Some(size) => Some(LayoutMeasure::Image(ImageMeasure { size: *size })),
                None => None,
            }
        },
        WidgetRender::Text { word_wrap } => {
            let width: i64 = parent_layout.size.width as i64;
            let height: i64 = parent_layout.size.height as i64 + TEXT_HEIGHT_SLACK;
            Some(LayoutMeasure::Text(TextMeasure { width, height, word_wrap: *word_wrap }))
        },
        _ => None,
    }
}

/// One line of shaped text.
#[derive(Clone, Copy, Debug, PartialEq, Eq, Structural)]
pub struct LayoutRun {
    pub line_w: i32,
    pub line_height: i32,
}

/// The width of the widest of `runs`, and 0 where none is wider than 0.
pub open spec fn widest(runs: Seq<LayoutRun>) -> int
    decreases runs.len(),
{
    if runs.len() == 0 {
        0
    } else {
        let rest = widest(runs.drop_last());
        if runs.last().line_w > rest {
            runs.last().line_w as int
        } else {
            rest
        }
    }
}

/// The heights of `runs`, added up.
pub open spec fn total_height(runs: Seq<LayoutRun>) -> int
    decreases runs.len(),
{
    if runs.len() == 0 {
        0
    } else {
        total_height(runs.drop_last()) + runs.last().line_height
    }
}

/// The heights of `n` lines add up to a number between `n` times the least
/// and `n` times the greatest height.
pub proof fn lemma_total_height_bounds(runs: Seq<LayoutRun>)
    ensures
        runs.len() * (-0x8000_0000) <= total_height(runs) <= runs.len() * 0x7fff_ffff,
    decreases runs.len(),
{
    if runs.len() > 0 {
        lemma_total_height_bounds(runs.drop_last());
    }
}

/// The size of shaped text: as wide as its widest line, as high as all of
/// its lines together.
pub fn measure_text(runs: &Vec<LayoutRun>) -> (measure: FixedMeasure)
    requires
        runs.len() <= u32::MAX,
    ensures
        measure.width == widest(runs@),
        measure.height == total_height(runs@),
{
    let mut width: i64 = 0;
    let mut height: i64 = 0;
    let mut i: usize = 0;
    while i < runs.len()
        invariant
            i <= runs.len() <= u32::MAX,
            width == widest(runs@.take(i as int)),
            height == total_height(runs@.take(i as int)),
            0 <= width <= 0x7fff_ffff,
        decreases runs.len() - i,
    {
        proof {
            assert(runs@.take(i + 1).drop_last() =~= runs@.take(i as int));
            lemma_total_height_bounds(runs@.take(i as int));
            lemma_total_height_bounds(runs@.take(i + 1));
        }
        let run = runs[i];
        if run.line_w as i64 > width {
            width = run.line_w as i64;
        }
        height = height + run.line_height as i64;
        i += 1;
    }
    assert(runs@.take(runs.len() as int) =~= runs@);
    FixedMeasure { width, height }
}

} // verus!
