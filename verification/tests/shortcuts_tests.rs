use mohe_ji::document::LayerKind;
use mohe_ji::shortcuts::{
    arrow_delta, arrows_move_points, pick_wheel_target, shortcut_step, typed_effect, ShortcutEffect, ShortcutKey,
    ToolState, TypedEffect,
};
use mohe_ji::tools::{ParamWheelTarget, Tool, ToolbarTab};

fn state(tool: Tool) -> ToolState {
    ToolState { tool, tab: ToolbarTab::Layer, show_points: true }
}

#[test]
fn letter_keys_pick_tools() {
    let s = state(Tool::Rectangle);
    let (n, e) = shortcut_step(s, ShortcutKey::F, None, false);
    assert_eq!(n, ToolState { tool: Tool::Select, tab: ToolbarTab::Tools, show_points: true });
    assert_eq!(e, ShortcutEffect::Nothing);
    let (n, e) = shortcut_step(s, ShortcutKey::V, Some(LayerKind::Vector), false);
    assert_eq!((n.tool, n.tab, e), (Tool::AddPoint, ToolbarTab::Tools, ShortcutEffect::AddPointStatus));
    let (n, e) = shortcut_step(s, ShortcutKey::V, Some(LayerKind::Raster), false);
    assert_eq!((n.tool, n.tab, e), (Tool::RasterBrush, ToolbarTab::Tools, ShortcutEffect::Nothing));
    let (n, _) = shortcut_step(s, ShortcutKey::V, None, false);
    assert_eq!((n.tool, n.tab), (Tool::Rectangle, ToolbarTab::Tools));
    let (n, e) = shortcut_step(s, ShortcutKey::B, Some(LayerKind::Vector), false);
    assert_eq!((n.tool, n.tab, e), (Tool::VectorBrush, ToolbarTab::Tools, ShortcutEffect::VectorBrushStatus));
    let (n, e) = shortcut_step(s, ShortcutKey::B, Some(LayerKind::Raster), false);
    assert_eq!((n, e), (s, ShortcutEffect::Nothing));
    let (n, _) = shortcut_step(s, ShortcutKey::P, None, false);
    assert!(!n.show_points);
}

#[test]
fn select_tool_actions() {
    let s = state(Tool::Select);
    assert_eq!(shortcut_step(s, ShortcutKey::T, None, false).1, ShortcutEffect::SimplifyPath);
    assert_eq!(shortcut_step(s, ShortcutKey::Y, None, false).1, ShortcutEffect::EnableTransform);
    assert_eq!(shortcut_step(s, ShortcutKey::G, None, false).1, ShortcutEffect::SplitPathLine);
    assert_eq!(shortcut_step(s, ShortcutKey::Space, None, false).1, ShortcutEffect::DeleteSelectedPoints);
    assert_eq!(shortcut_step(s, ShortcutKey::A, None, false).1, ShortcutEffect::FinishPath);
    let o = state(Tool::Ellipse);
    assert_eq!(shortcut_step(o, ShortcutKey::T, None, false).1, ShortcutEffect::Nothing);
    assert_eq!(shortcut_step(o, ShortcutKey::Y, None, false).1, ShortcutEffect::Nothing);
    assert_eq!(shortcut_step(o, ShortcutKey::G, None, false).1, ShortcutEffect::Nothing);
    assert_eq!(shortcut_step(o, ShortcutKey::A, None, false).1, ShortcutEffect::FinishPath);
}

#[test]
fn space_depends_on_tool_and_image() {
    assert_eq!(shortcut_step(state(Tool::AddPoint), ShortcutKey::Space, None, false).1, ShortcutEffect::DeleteLastPoint);
    assert_eq!(shortcut_step(state(Tool::AddPoint), ShortcutKey::Space, None, true).1, ShortcutEffect::DeleteSelectedImage);
    let (n, _) = shortcut_step(state(Tool::RasterBrush), ShortcutKey::Space, None, false);
    assert_eq!(n.tool, Tool::RasterEraser);
    let (n2, _) = shortcut_step(n, ShortcutKey::Space, None, false);
    assert_eq!(n2, state(Tool::RasterBrush));
    assert_eq!(shortcut_step(state(Tool::Image), ShortcutKey::Space, None, false), (state(Tool::Image), ShortcutEffect::Nothing));
}

#[test]
fn typed_keys() {
    assert_eq!(typed_effect("+"), TypedEffect::ZoomIn);
    assert_eq!(typed_effect("="), TypedEffect::ZoomIn);
    assert_eq!(typed_effect("-"), TypedEffect::ZoomOut);
    assert_eq!(typed_effect("_"), TypedEffect::ZoomOut);
    assert_eq!(typed_effect("1"), TypedEffect::ShowTab(ToolbarTab::Tools));
    assert_eq!(typed_effect("4"), TypedEffect::ShowTab(ToolbarTab::View));
    assert_eq!(typed_effect("6"), TypedEffect::ShowTab(ToolbarTab::Layer));
    assert_eq!(typed_effect("7"), TypedEffect::Nothing);
    assert_eq!(typed_effect("++"), TypedEffect::Nothing);
    assert_eq!(typed_effect(""), TypedEffect::Nothing);
}

#[test]
fn first_target_key_wins() {
    let s = state(Tool::Select);
    let none = [false; 9];
    assert_eq!(pick_wheel_target(s, Some(ParamWheelTarget::FillHue), none, false), (s, Some(ParamWheelTarget::FillHue)));
    let mut pressed = [false; 9];
    pressed[3] = true;
    pressed[6] = true;
    let (n, t) = pick_wheel_target(s, None, pressed, false);
    assert_eq!(n.tab, ToolbarTab::Path);
    assert_eq!(t, Some(ParamWheelTarget::PhiPrev));
    let mut last = [false; 9];
    last[8] = true;
    assert_eq!(pick_wheel_target(s, None, last, true).1, Some(ParamWheelTarget::PaintAlpha));
}

#[test]
fn color_keys_pick_fill_or_with_shift_stroke() {
    let s = state(Tool::Select);
    let key = |i: usize| {
        let mut p = [false; 9];
        p[i] = true;
        p
    };
    assert_eq!(pick_wheel_target(s, None, key(0), false).1, Some(ParamWheelTarget::Weight));
    assert_eq!(pick_wheel_target(s, None, key(1), false).1, Some(ParamWheelTarget::PsiPrev));
    assert_eq!(pick_wheel_target(s, None, key(2), false).1, Some(ParamWheelTarget::PsiNext));
    assert_eq!(pick_wheel_target(s, None, key(4), true).1, Some(ParamWheelTarget::PhiNext));
    assert_eq!(pick_wheel_target(s, None, key(5), true).1, Some(ParamWheelTarget::StrokeWidth));
    assert_eq!(pick_wheel_target(s, None, key(6), false).1, Some(ParamWheelTarget::FillHue));
    assert_eq!(pick_wheel_target(s, None, key(7), false).1, Some(ParamWheelTarget::FillBrightness));
    assert_eq!(pick_wheel_target(s, None, key(8), false).1, Some(ParamWheelTarget::FillAlpha));
    assert_eq!(pick_wheel_target(s, None, key(6), true).1, Some(ParamWheelTarget::PaintHue));
    assert_eq!(pick_wheel_target(s, None, key(7), true).1, Some(ParamWheelTarget::PaintBrightness));
    assert_eq!(pick_wheel_target(s, None, key(8), true).1, Some(ParamWheelTarget::PaintAlpha));
}

#[test]
fn arrows() {
    assert_eq!(arrow_delta(false, false, false, false, false), None);
    assert_eq!(arrow_delta(true, true, false, false, true), None);
    assert_eq!(arrow_delta(true, false, false, true, false), Some((-1, 1)));
    assert_eq!(arrow_delta(false, true, true, false, true), Some((10, -10)));
    assert!(arrows_move_points(Tool::Select, true));
    assert!(!arrows_move_points(Tool::Select, false));
    assert!(!arrows_move_points(Tool::AddPoint, true));
}
