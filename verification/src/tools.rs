//! Editor tools, toolbar tabs, transform handles and the mouse-wheel parameter targets.

use vstd::prelude::*;
use vstd::arithmetic::div_mod::{lemma_small_mod, lemma_mod_add_multiples_vanish};

verus! {

/// The active drawing or selection tool.
#[derive(Debug, Clone, Copy, PartialEq, Eq, Structural)]
pub enum Tool {
    Select,
    VectorBrush,
    AddPoint,
    Rectangle,
    Ellipse,
    RasterBrush,
    RasterEraser,
    Image,
}

/// The tab shown in the top toolbar.
#[derive(Debug, Clone, Copy, PartialEq, Eq, Structural)]
pub enum ToolbarTab {
    Tools,
    File,
    Edit,
    View,
    Path,
    Layer,
}

/// The transform handle that is being dragged.
#[derive(Debug, Clone, Copy, PartialEq, Eq, Structural)]
pub enum TransformDragHandle {
    UniformResize,
    ScaleX,
    ScaleY,
    Rotate,
}

/// A transform handle found under the pointer on the canvas.
#[derive(Debug, Clone, Copy, PartialEq, Eq, Structural)]
pub enum TransformHandle {
    UniformResize,
    ScaleX,
    ScaleY,
    Rotate,
}

impl TransformHandle {
    /// The drag handle that corresponds to this canvas handle.
    pub fn to_drag(self) -> (r: TransformDragHandle)
        ensures
            r == match self {
                TransformHandle::UniformResize => TransformDragHandle::UniformResize,
                TransformHandle::ScaleX => TransformDragHandle::ScaleX,
                TransformHandle::ScaleY => TransformDragHandle::ScaleY,
                TransformHandle::Rotate => TransformDragHandle::Rotate,
            },
    {
        match self {
            TransformHandle::UniformResize => TransformDragHandle::UniformResize,
            TransformHandle::ScaleX => TransformDragHandle::ScaleX,
            TransformHandle::ScaleY => TransformDragHandle::ScaleY,
            TransformHandle::Rotate => TransformDragHandle::Rotate,
        }
    }
}


/// The PPW or color parameter that the mouse wheel edits.
#[derive(Debug, Clone, Copy, PartialEq, Eq, Structural)]
pub enum ParamWheelTarget {
    Weight,
    PsiPrev,
    PsiNext,
    PhiPrev,
    PhiNext,
    StrokeWidth,
    FillHue,
    FillBrightness,
    FillAlpha,
    PaintHue,
    PaintBrightness,
    PaintAlpha,
}

/// The text shown beside the cursor for a wheel target.
pub open spec fn wheel_label(target: ParamWheelTarget) -> Seq<char> {
    match target {
        ParamWheelTarget::Weight => "Weight"@,
        ParamWheelTarget::PsiPrev => "Psi Prev"@,
        ParamWheelTarget::PsiNext => "Psi Next"@,
        ParamWheelTarget::PhiPrev => "Phi Prev"@,
        ParamWheelTarget::PhiNext => "Phi Next"@,
        ParamWheelTarget::StrokeWidth => "Stroke Width"@,
        ParamWheelTarget::FillHue => "Fill Hue"@,
        ParamWheelTarget::FillBrightness => "Fill Brightness"@,
        ParamWheelTarget::FillAlpha => "Fill Alpha"@,
        ParamWheelTarget::PaintHue => "Stroke/Raster Brush Hue"@,
        ParamWheelTarget::PaintBrightness => "Stroke/Raster Brush Brightness"@,
        ParamWheelTarget::PaintAlpha => "Stroke/Raster Brush Alpha"@,
    }
}

impl ParamWheelTarget {
    /// The label shown for this target.
    pub fn label(self) -> (r: &'static str)
        ensures
            r@ == wheel_label(self),
    {
        match self {
            ParamWheelTarget::Weight => "Weight",
            ParamWheelTarget::PsiPrev => "Psi Prev",
            ParamWheelTarget::PsiNext => "Psi Next",
            ParamWheelTarget::PhiPrev => "Phi Prev",
            ParamWheelTarget::PhiNext => "Phi Next",
            ParamWheelTarget::StrokeWidth => "Stroke Width",
            ParamWheelTarget::FillHue => "Fill Hue",
            ParamWheelTarget::FillBrightness => "Fill Brightness",
            ParamWheelTarget::FillAlpha => "Fill Alpha",
            ParamWheelTarget::PaintHue => "Stroke/Raster Brush Hue",
            ParamWheelTarget::PaintBrightness => "Stroke/Raster Brush Brightness",
            ParamWheelTarget::PaintAlpha => "Stroke/Raster Brush Alpha",
        }
    }
}

/// Targets that edit the stroke width or a color: usable with any tool.
pub open spec fn spec_is_global_wheel_target(target: ParamWheelTarget) -> bool {
    target is StrokeWidth || spec_is_fill_color_target(target) || spec_is_paint_color_target(target)
}

/// Targets that edit per-point PPW parameters: they need selected nodes.
pub open spec fn spec_requires_selected_nodes(target: ParamWheelTarget) -> bool {
    target is Weight || target is PsiPrev || target is PsiNext || target is PhiPrev
        || target is PhiNext
}

/// Targets that edit a channel of the selected path's fill color.
pub open spec fn spec_is_fill_color_target(target: ParamWheelTarget) -> bool {
    target is FillHue || target is FillBrightness || target is FillAlpha
}

/// Targets that edit a channel of the stroke or raster brush color.
pub open spec fn spec_is_paint_color_target(target: ParamWheelTarget) -> bool {
    target is PaintHue || target is PaintBrightness || target is PaintAlpha
}

/// Whether the wheel target may be edited whatever tool is active.
pub fn is_global_wheel_target(target: ParamWheelTarget) -> (r: bool)
    ensures
        r == spec_is_global_wheel_target(target),
{
    match target {
        ParamWheelTarget::StrokeWidth | ParamWheelTarget::FillHue
        | ParamWheelTarget::FillBrightness | ParamWheelTarget::FillAlpha
        | ParamWheelTarget::PaintHue | ParamWheelTarget::PaintBrightness
        | ParamWheelTarget::PaintAlpha => true,
        _ => false,
    }
}

/// Whether the wheel target edits per-point parameters of selected nodes.
pub fn requires_selected_nodes(target: ParamWheelTarget) -> (r: bool)
    ensures
        r == spec_requires_selected_nodes(target),
{
    match target {
        ParamWheelTarget::Weight | ParamWheelTarget::PsiPrev | ParamWheelTarget::PsiNext
        | ParamWheelTarget::PhiPrev | ParamWheelTarget::PhiNext => true,
        _ => false,
    }
}

/// Whether the wheel target edits the fill color.
pub fn is_fill_color_target(target: ParamWheelTarget) -> (r: bool)
    ensures
        r == spec_is_fill_color_target(target),
{
    match target {
        ParamWheelTarget::FillHue | ParamWheelTarget::FillBrightness
        | ParamWheelTarget::FillAlpha => true,
        _ => false,
    }
}

/// Whether the wheel target edits the stroke or raster brush color.
pub fn is_paint_color_target(target: ParamWheelTarget) -> (r: bool)
    ensures
        r == spec_is_paint_color_target(target),
{
    match target {
        ParamWheelTarget::PaintHue | ParamWheelTarget::PaintBrightness
        | ParamWheelTarget::PaintAlpha => true,
        _ => false,
    }
}

/// The segment whose psi or phi a wheel target edits for a given point of a path.
pub open spec fn spec_segment_index_for_wheel_target(
    point_count: int,
    is_closed: bool,
    point_index: int,
    target: ParamWheelTarget,
) -> Option<int> {
    if point_count < 2 || point_index >= point_count {
        None
    } else if target is PsiPrev || target is PhiPrev {
        if is_closed {
            Some((point_index + point_count - 1) % point_count)
        } else if point_index > 0 {
            Some(point_index - 1)
        } else {
            None
        }
    } else if target is PsiNext || target is PhiNext {
        if is_closed || point_index + 1 < point_count {
            Some(point_index)
        } else {
            None
        }
    } else {
        None
    }
}

/// The segment index whose psi or phi the wheel edits at `point_index`, if any.
pub fn segment_index_for_wheel_target(
    point_count: usize,
    is_closed: bool,
    point_index: usize,
    target: ParamWheelTarget,
) -> (r: Option<usize>)
    ensures
        r matches Some(i) ==> spec_segment_index_for_wheel_target(
            point_count as int,
            is_closed,
            point_index as int,
            target,
        ) == Some(i as int),
        r is None ==> spec_segment_index_for_wheel_target(
            point_count as int,
            is_closed,
            point_index as int,
            target,
        ) is None,
        r matches Some(i) ==> i < point_count,
{
    if point_count < 2 || point_index >= point_count {
        return None;
    }
    match target {
        ParamWheelTarget::PsiPrev | ParamWheelTarget::PhiPrev => {
            if is_closed {
                if point_index == 0 {
                    proof {
                        lemma_small_mod((point_count - 1) as nat, point_count as nat);
                    }
                    Some(point_count - 1)
                } else {
                    proof {
                        lemma_mod_add_multiples_vanish(point_index - 1, point_count as int);
                        lemma_small_mod((point_index - 1) as nat, point_count as nat);
                    }
                    Some(point_index - 1)
                }
            } else if point_index > 0 {
                Some(point_index - 1)
            } else {
                None
            }
        },
        ParamWheelTarget::PsiNext | ParamWheelTarget::PhiNext => {
            if is_closed {
                Some(point_index)
            } else if point_index + 1 < point_count {
                Some(point_index)
            } else {
                None
            }
        },
        _ => None,
    }
}

/// What a color wheel target edits: the color's hue, its brightness (the HSV
/// value) or its alpha.
#[derive(Debug, Clone, Copy, PartialEq, Eq, Structural)]
pub enum ColorWheelChannel {
    Hue,
    Brightness,
    Alpha,
}

/// The color quantity that a wheel target edits, if it is a color target.
pub open spec fn color_channel_of(target: ParamWheelTarget) -> Option<ColorWheelChannel> {
    if target is FillHue || target is PaintHue {
        Some(ColorWheelChannel::Hue)
    } else if target is FillBrightness || target is PaintBrightness {
        Some(ColorWheelChannel::Brightness)
    } else if target is FillAlpha || target is PaintAlpha {
        Some(ColorWheelChannel::Alpha)
    } else {
        None
    }
}

/// The color quantity that a wheel target edits, if it is a color target.
pub fn color_wheel_channel(target: ParamWheelTarget) -> (r: Option<ColorWheelChannel>)
    ensures
        r == color_channel_of(target),
{
    match target {
        ParamWheelTarget::FillHue | ParamWheelTarget::PaintHue => Some(ColorWheelChannel::Hue),
        ParamWheelTarget::FillBrightness | ParamWheelTarget::PaintBrightness => Some(ColorWheelChannel::Brightness),
        ParamWheelTarget::FillAlpha | ParamWheelTarget::PaintAlpha => Some(ColorWheelChannel::Alpha),
        _ => None,
    }
}

/// `value + delta` held to the byte range.
pub open spec fn clamp_channel(value: int, delta: int) -> int {
    if value + delta < 0 {
        0
    } else if value + delta > 255 {
        255
    } else {
        value + delta
    }
}

/// The color after one wheel step on `target`: an alpha step moves byte 3 by
/// `delta` (the wheel direction times six, rounded), held to 0..=255; a hue or
/// brightness step puts in the red, green and blue of `hsv_stepped`, the color
/// with its hue or HSV value stepped, and keeps the alpha; any other target
/// leaves the color alone.
pub open spec fn wheel_stepped_color(color: Seq<u8>, target: ParamWheelTarget, delta: int, hsv_stepped: Seq<u8>) -> Seq<u8> {
    match color_channel_of(target) {
        Some(ColorWheelChannel::Alpha) => color.update(3, clamp_channel(color[3] as int, delta) as u8),
        Some(_) => seq![hsv_stepped[0], hsv_stepped[1], hsv_stepped[2], color[3]],
        None => color,
    }
}

/// Applies one wheel step on a color target (see `wheel_stepped_color`) and
/// tells whether the color changed. The hue and brightness steps go through
/// HSV in floating point, so the caller hands in their red, green and blue as
/// `hsv_stepped`; it is not read for alpha steps or other targets.
pub fn adjust_color_channel_by_wheel(
    color: &mut [u8; 4],
    target: ParamWheelTarget,
    delta: i32,
    hsv_stepped: [u8; 3],
) -> (changed: bool)
    ensures
        final(color)@ == wheel_stepped_color(old(color)@, target, delta as int, hsv_stepped@),
        changed == (final(color)@ != old(color)@),
{
    let before: [u8; 4] = *color;
    match color_wheel_channel(target) {
        None => {
            return false;
        },
        Some(ColorWheelChannel::Alpha) => {
            let sum: i64 = color[3] as i64 + delta as i64;
            let next: u8 = if sum < 0 {
                0
            } else if sum > 255 {
                255
            } else {
                sum as u8
            };
            color[3] = next;
            proof {
                assert(color@ =~= old(color)@.update(3, next));
            }
        },
        Some(_) => {
            color[0] = hsv_stepped[0];
            color[1] = hsv_stepped[1];
            color[2] = hsv_stepped[2];
            proof {
                assert(color@ =~= seq![hsv_stepped@[0], hsv_stepped@[1], hsv_stepped@[2], old(color)@[3]]);
            }
        },
    }
    let same: bool = color[0] == before[0] && color[1] == before[1] && color[2] == before[2] && color[3] == before[3];
    proof {
        if same {
            assert(color@ =~= before@);
        }
    }
    !same
}

} // verus!
