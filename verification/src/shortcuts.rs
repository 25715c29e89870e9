//! What the editor's keyboard shortcuts do: to the tool, the toolbar tab and
//! the point display, and which editing action they ask for.

use vstd::prelude::*;
use crate::document::LayerKind;
use crate::text::chars_of;
use crate::tools::{ParamWheelTarget, Tool, ToolbarTab};

verus! {

/// A key pressed without Command, Ctrl or Alt, among those the editor handles
/// one after another in this order within a frame.
#[derive(Debug, Clone, Copy, PartialEq, Eq, Structural)]
pub enum ShortcutKey {
    P,
    F,
    V,
    B,
    A,
    T,
    Y,
    Space,
    G,
}

/// The part of the editor state that shortcuts change directly.
#[derive(Debug, Clone, Copy, PartialEq, Eq, Structural)]
pub struct ToolState {
    pub tool: Tool,
    pub tab: ToolbarTab,
    pub show_points: bool,
}

/// The editing action a shortcut asks for besides its change of tool state.
#[derive(Debug, Clone, Copy, PartialEq, Eq, Structural)]
pub enum ShortcutEffect {
    Nothing,
    /// Report that Add Point appends to the selected path.
    AddPointStatus,
    /// Report that the vector brush drags out a new path.
    VectorBrushStatus,
    FinishPath,
    SimplifyPath,
    EnableTransform,
    DeleteSelectedImage,
    DeleteLastPoint,
    DeleteSelectedPoints,
    SplitPathLine,
}

/// A state with the tool and tab changed.
pub open spec fn with_tool(s: ToolState, tool: Tool) -> ToolState {
    ToolState { tool, tab: ToolbarTab::Tools, show_points: s.show_points }
}

/// The tool state after `key`, with `active_kind` the kind of the active layer
/// (if any) and `image_selected` whether a placed image is selected, and the
/// action the key asks for.
pub open spec fn spec_shortcut_step(
    s: ToolState,
    key: ShortcutKey,
    active_kind: Option<LayerKind>,
    image_selected: bool,
) -> (ToolState, ShortcutEffect) {
    match key {
        ShortcutKey::P => (ToolState { show_points: !s.show_points, ..s }, ShortcutEffect::Nothing),
        ShortcutKey::F => (with_tool(s, Tool::Select), ShortcutEffect::Nothing),
        ShortcutKey::V => match active_kind {
            Some(LayerKind::Vector) => (with_tool(s, Tool::AddPoint), ShortcutEffect::AddPointStatus),
            Some(LayerKind::Raster) => (with_tool(s, Tool::RasterBrush), ShortcutEffect::Nothing),
            None => (ToolState { tab: ToolbarTab::Tools, ..s }, ShortcutEffect::Nothing),
        },
        ShortcutKey::B => if active_kind == Some(LayerKind::Vector) {
            (with_tool(s, Tool::VectorBrush), ShortcutEffect::VectorBrushStatus)
        } else {
            (s, ShortcutEffect::Nothing)
        },
        ShortcutKey::A => (s, ShortcutEffect::FinishPath),
        ShortcutKey::T => (s, if s.tool == Tool::Select { ShortcutEffect::SimplifyPath } else { ShortcutEffect::Nothing }),
        ShortcutKey::Y => (s, if s.tool == Tool::Select { ShortcutEffect::EnableTransform } else { ShortcutEffect::Nothing }),
        ShortcutKey::Space => if image_selected {
            (s, ShortcutEffect::DeleteSelectedImage)
        } else {
            match s.tool {
                Tool::AddPoint => (s, ShortcutEffect::DeleteLastPoint),
                Tool::Select => (s, ShortcutEffect::DeleteSelectedPoints),
                Tool::RasterBrush => (ToolState { tool: Tool::RasterEraser, ..s }, ShortcutEffect::Nothing),
                Tool::RasterEraser => (ToolState { tool: Tool::RasterBrush, ..s }, ShortcutEffect::Nothing),
                _ => (s, ShortcutEffect::Nothing),
            }
        },
        ShortcutKey::G => (s, if s.tool == Tool::Select { ShortcutEffect::SplitPathLine } else { ShortcutEffect::Nothing }),
    }
}

/// Handles one shortcut key.
pub fn shortcut_step(
    s: ToolState,
    key: ShortcutKey,
    active_kind: Option<LayerKind>,
    image_selected: bool,
) -> (r: (ToolState, ShortcutEffect))
    ensures
        r == spec_shortcut_step(s, key, active_kind, image_selected),
{
    let select = s.tool == Tool::Select;
    match key {
        ShortcutKey::P => (ToolState { show_points: !s.show_points, ..s }, ShortcutEffect::Nothing),
        ShortcutKey::F => (ToolState { tool: Tool::Select, tab: ToolbarTab::Tools, ..s }, ShortcutEffect::Nothing),
        ShortcutKey::V => match active_kind {
            Some(LayerKind::Vector) => (
                ToolState { tool: Tool::AddPoint, tab: ToolbarTab::Tools, ..s },
                ShortcutEffect::AddPointStatus,
            ),
            Some(LayerKind::Raster) => (
                ToolState { tool: Tool::RasterBrush, tab: ToolbarTab::Tools, ..s },
                ShortcutEffect::Nothing,
            ),
            None => (ToolState { tab: ToolbarTab::Tools, ..s }, ShortcutEffect::Nothing),
        },
        ShortcutKey::B => match active_kind {
            Some(LayerKind::Vector) => (
                ToolState { tool: Tool::VectorBrush, tab: ToolbarTab::Tools, ..s },
                ShortcutEffect::VectorBrushStatus,
            ),
            _ => (s, ShortcutEffect::Nothing),
        },
        ShortcutKey::A => (s, ShortcutEffect::FinishPath),
        ShortcutKey::T => (s, if select { ShortcutEffect::SimplifyPath } else { ShortcutEffect::Nothing }),
        ShortcutKey::Y => (s, if select { ShortcutEffect::EnableTransform } else { ShortcutEffect::Nothing }),
        ShortcutKey::Space => if image_selected {
            (s, ShortcutEffect::DeleteSelectedImage)
        } else {
            match s.tool {
                Tool::AddPoint => (s, ShortcutEffect::DeleteLastPoint),
                Tool::Select => (s, ShortcutEffect::DeleteSelectedPoints),
                Tool::RasterBrush => (ToolState { tool: Tool::RasterEraser, ..s }, ShortcutEffect::Nothing),
                Tool::RasterEraser => (ToolState { tool: Tool::RasterBrush, ..s }, ShortcutEffect::Nothing),
                _ => (s, ShortcutEffect::Nothing),
            }
        },
        ShortcutKey::G => (s, if select { ShortcutEffect::SplitPathLine } else { ShortcutEffect::Nothing }),
    }
}

/// What typing a character does outside text fields.
#[derive(Debug, Clone, Copy, PartialEq, Eq, Structural)]
pub enum TypedEffect {
    Nothing,
    ZoomIn,
    ZoomOut,
    ShowTab(ToolbarTab),
}

/// The effect of typing `text`: `+` or `=` zooms in, `-` or `_` zooms out,
/// and `1` to `6` show the toolbar tabs in order.
pub open spec fn spec_typed_effect(text: Seq<char>) -> TypedEffect {
    if text.len() != 1 {
        TypedEffect::Nothing
    } else {
        let c = text[0];
        if c == '+' || c == '=' {
            TypedEffect::ZoomIn
        } else if c == '-' || c == '_' {
            TypedEffect::ZoomOut
        } else if c == '1' {
            TypedEffect::ShowTab(ToolbarTab::Tools)
        } else if c == '2' {
            TypedEffect::ShowTab(ToolbarTab::File)
        } else if c == '3' {
            TypedEffect::ShowTab(ToolbarTab::Edit)
        } else if c == '4' {
            TypedEffect::ShowTab(ToolbarTab::View)
        } else if c == '5' {
            TypedEffect::ShowTab(ToolbarTab::Path)
        } else if c == '6' {
            TypedEffect::ShowTab(ToolbarTab::Layer)
        } else {
            TypedEffect::Nothing
        }
    }
}

/// What typing `text` does.
pub fn typed_effect(text: &str) -> (r: TypedEffect)
    ensures
        r == spec_typed_effect(text@),
{
    let v = chars_of(text);
    if v.len() != 1 {
        return TypedEffect::Nothing;
    }
    let c = v[0];
    if c == '+' || c == '=' {
        TypedEffect::ZoomIn
    } else if c == '-' || c == '_' {
        TypedEffect::ZoomOut
    } else if c == '1' {
        TypedEffect::ShowTab(ToolbarTab::Tools)
    } else if c == '2' {
        TypedEffect::ShowTab(ToolbarTab::File)
    } else if c == '3' {
        TypedEffect::ShowTab(ToolbarTab::Edit)
    } else if c == '4' {
        TypedEffect::ShowTab(ToolbarTab::View)
    } else if c == '5' {
        TypedEffect::ShowTab(ToolbarTab::Path)
    } else if c == '6' {
        TypedEffect::ShowTab(ToolbarTab::Layer)
    } else {
        TypedEffect::Nothing
    }
}

/// The wheel target picked by the `i`-th of the keys Q, W, E, S, D, R, Z, X,
/// C: Z, X and C pick the fill color's channels, or with Shift the stroke's
/// (or raster brush's).
pub open spec fn target_of_key(i: int, shift: bool) -> ParamWheelTarget {
    if i == 0 {
        ParamWheelTarget::Weight
    } else if i == 1 {
        ParamWheelTarget::PsiPrev
    } else if i == 2 {
        ParamWheelTarget::PsiNext
    } else if i == 3 {
        ParamWheelTarget::PhiPrev
    } else if i == 4 {
        ParamWheelTarget::PhiNext
    } else if i == 5 {
        ParamWheelTarget::StrokeWidth
    } else if i == 6 {
        if shift { ParamWheelTarget::PaintHue } else { ParamWheelTarget::FillHue }
    } else if i == 7 {
        if shift { ParamWheelTarget::PaintBrightness } else { ParamWheelTarget::FillBrightness }
    } else {
        if shift { ParamWheelTarget::PaintAlpha } else { ParamWheelTarget::FillAlpha }
    }
}

fn target_of_key_exec(i: usize, shift: bool) -> (r: ParamWheelTarget)
    ensures
        r == target_of_key(i as int, shift),
{
    if i == 0 {
        ParamWheelTarget::Weight
    } else if i == 1 {
        ParamWheelTarget::PsiPrev
    } else if i == 2 {
        ParamWheelTarget::PsiNext
    } else if i == 3 {
        ParamWheelTarget::PhiPrev
    } else if i == 4 {
        ParamWheelTarget::PhiNext
    } else if i == 5 {
        ParamWheelTarget::StrokeWidth
    } else if i == 6 {
        if shift { ParamWheelTarget::PaintHue } else { ParamWheelTarget::FillHue }
    } else if i == 7 {
        if shift { ParamWheelTarget::PaintBrightness } else { ParamWheelTarget::FillBrightness }
    } else {
        if shift { ParamWheelTarget::PaintAlpha } else { ParamWheelTarget::FillAlpha }
    }
}

/// The first pressed key at or after `i` among `pressed`.
pub open spec fn first_pressed_from(pressed: Seq<bool>, i: int) -> Option<int>
    decreases pressed.len() - i,
{
    if i < 0 || i >= pressed.len() {
        None
    } else if pressed[i] {
        Some(i)
    } else {
        first_pressed_from(pressed, i + 1)
    }
}

/// The tool state and wheel target after the target keys Q, W, E, S, D, R,
/// Z, X, C (`pressed`, in that order; `shift` whether Shift is held): the
/// first pressed key picks its target and shows the Path tab; with none
/// pressed nothing changes.
pub open spec fn spec_pick_wheel_target(
    s: ToolState,
    target: Option<ParamWheelTarget>,
    pressed: Seq<bool>,
    shift: bool,
) -> (ToolState, Option<ParamWheelTarget>) {
    match first_pressed_from(pressed, 0) {
        Some(i) => (ToolState { tab: ToolbarTab::Path, ..s }, Some(target_of_key(i, shift))),
        None => (s, target),
    }
}

/// Picks the wheel target from the target keys pressed.
pub fn pick_wheel_target(
    s: ToolState,
    target: Option<ParamWheelTarget>,
    pressed: [bool; 9],
    shift: bool,
) -> (r: (ToolState, Option<ParamWheelTarget>))
    ensures
        r == spec_pick_wheel_target(s, target, pressed@, shift),
{
    let mut i: usize = 0;
    while i < 9
        invariant
            0 <= i <= 9,
            pressed@.len() == 9,
            first_pressed_from(pressed@, 0) == first_pressed_from(pressed@, i as int),
        decreases 9 - i,
    {
        if pressed[i] {
            return (ToolState { tab: ToolbarTab::Path, ..s }, Some(target_of_key_exec(i, shift)));
        }
        i = i + 1;
    }
    (s, target)
}

/// How far the arrow keys move: one unit per key (ten with Shift), left and
/// up negative; none if they cancel out or none is pressed.
pub open spec fn spec_arrow_delta(left: bool, right: bool, up: bool, down: bool, shift: bool) -> Option<(i32, i32)> {
    let step: int = if shift { 10 } else { 1 };
    let dx = (if right { step } else { 0 }) - (if left { step } else { 0 });
    let dy = (if down { step } else { 0 }) - (if up { step } else { 0 });
    if dx != 0 || dy != 0 {
        Some((dx as i32, dy as i32))
    } else {
        None
    }
}

/// The arrow keys' move.
pub fn arrow_delta(left: bool, right: bool, up: bool, down: bool, shift: bool) -> (r: Option<(i32, i32)>)
    ensures
        r == spec_arrow_delta(left, right, up, down, shift),
{
    let step: i32 = if shift { 10 } else { 1 };
    let mut dx: i32 = 0;
    let mut dy: i32 = 0;
    if left {
        dx = dx - step;
    }
    if right {
        dx = dx + step;
    }
    if up {
        dy = dy - step;
    }
    if down {
        dy = dy + step;
    }
    if dx != 0 || dy != 0 {
        Some((dx, dy))
    } else {
        None
    }
}

/// Whether the arrow keys move the selected points (with the select tool and
/// a selection) rather than pan the view.
pub open spec fn spec_arrows_move_points(tool: Tool, has_selection: bool) -> bool {
    tool == Tool::Select && has_selection
}

/// Whether the arrow keys move points rather than pan.
pub fn arrows_move_points(tool: Tool, has_selection: bool) -> (r: bool)
    ensures
        r == spec_arrows_move_points(tool, has_selection),
{
    tool == Tool::Select && has_selection
}

/// Pressing P twice gives back the point display, and pressing Space twice
/// with the raster brush or eraser (and no image selected) gives back the tool.
pub proof fn lemma_toggles_undo_themselves(s: ToolState, active_kind: Option<LayerKind>)
    ensures
        spec_shortcut_step(spec_shortcut_step(s, ShortcutKey::P, active_kind, false).0, ShortcutKey::P, active_kind, false).0
            == s,
        (s.tool == Tool::RasterBrush || s.tool == Tool::RasterEraser) ==> spec_shortcut_step(
            spec_shortcut_step(s, ShortcutKey::Space, active_kind, false).0,
            ShortcutKey::Space,
            active_kind,
            false,
        ).0 == s,
{
}

/// Every key leaves the point display alone but P, and only F, V, B and Space
/// change the tool.
pub proof fn lemma_keys_leave_other_state(s: ToolState, key: ShortcutKey, active_kind: Option<LayerKind>, image_selected: bool)
    ensures
        key != ShortcutKey::P ==> spec_shortcut_step(s, key, active_kind, image_selected).0.show_points == s.show_points,
        !(key == ShortcutKey::F || key == ShortcutKey::V || key == ShortcutKey::B || key == ShortcutKey::Space)
            ==> spec_shortcut_step(s, key, active_kind, image_selected).0.tool == s.tool,
{
}

} // verus!
