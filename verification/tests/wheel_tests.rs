use mohe_ji::document::LayerKind;
use mohe_ji::path::{PPWPath, SegmentDefaults};
use mohe_ji::selection::PointSelection;
use mohe_ji::tools::{ParamWheelTarget, Tool};
use mohe_ji::wheel::{color_wheel_target, wheel_action, wheel_edit_plan, ColorWheelTarget, WheelAction, WheelEdit};

fn node(path_index: usize, point_index: usize) -> PointSelection {
    PointSelection { path_index, point_index }
}

fn path(points: usize, closed: bool) -> PPWPath<(f32, f32), f32> {
    let d = SegmentDefaults { weight: 1.0, phi: 2.0, psi: 0.0 };
    let mut p = PPWPath::empty(2.5);
    for i in 0..points {
        p.add_point((i as f32, 0.0), d);
    }
    p.is_closed = closed;
    p.rebuild_open_segment_params(d);
    p
}

#[test]
fn wheel_action_decisions() {
    let vector = Some((false, LayerKind::Vector));
    let raster = Some((false, LayerKind::Raster));
    assert_eq!(wheel_action(Tool::AddPoint, ParamWheelTarget::Weight, true, vector), WheelAction::Ignore);
    assert_eq!(wheel_action(Tool::Select, ParamWheelTarget::Weight, false, vector), WheelAction::Ignore);
    assert_eq!(wheel_action(Tool::Select, ParamWheelTarget::Weight, true, vector), WheelAction::AdjustPaths);
    assert_eq!(wheel_action(Tool::Select, ParamWheelTarget::Weight, true, Some((true, LayerKind::Vector))), WheelAction::Ignore);
    assert_eq!(wheel_action(Tool::Select, ParamWheelTarget::Weight, true, None), WheelAction::Ignore);
    assert_eq!(wheel_action(Tool::RasterBrush, ParamWheelTarget::FillHue, false, vector), WheelAction::AdjustColor);
    assert_eq!(wheel_action(Tool::RasterEraser, ParamWheelTarget::StrokeWidth, false, raster), WheelAction::ResizeRasterEraser);
    assert_eq!(wheel_action(Tool::RasterBrush, ParamWheelTarget::StrokeWidth, false, raster), WheelAction::ResizeRasterBrush);
    assert_eq!(wheel_action(Tool::Rectangle, ParamWheelTarget::StrokeWidth, false, vector), WheelAction::AdjustPaths);
}

#[test]
fn color_target_decisions() {
    assert_eq!(color_wheel_target(ParamWheelTarget::PaintHue, LayerKind::Raster, false), ColorWheelTarget::RasterBrush);
    assert_eq!(color_wheel_target(ParamWheelTarget::FillHue, LayerKind::Raster, true), ColorWheelTarget::Nothing);
    assert_eq!(color_wheel_target(ParamWheelTarget::FillAlpha, LayerKind::Vector, true), ColorWheelTarget::PathFill);
    assert_eq!(color_wheel_target(ParamWheelTarget::PaintAlpha, LayerKind::Vector, true), ColorWheelTarget::PathStroke);
    assert_eq!(color_wheel_target(ParamWheelTarget::PaintAlpha, LayerKind::Vector, false), ColorWheelTarget::Nothing);
}

#[test]
fn stroke_width_plan() {
    let paths = vec![path(3, false), path(3, false)];
    assert_eq!(
        wheel_edit_plan(&paths, 1, &[], ParamWheelTarget::StrokeWidth),
        vec![WheelEdit::StrokeWidth { path: 1 }]
    );
    assert_eq!(
        wheel_edit_plan(&paths, 0, &[node(1, 0), node(5, 0), node(1, 2), node(0, 1)], ParamWheelTarget::StrokeWidth),
        vec![WheelEdit::StrokeWidth { path: 1 }, WheelEdit::StrokeWidth { path: 0 }]
    );
    assert!(wheel_edit_plan(&paths, 7, &[], ParamWheelTarget::StrokeWidth).is_empty());
}

#[test]
fn weight_plan() {
    let paths = vec![path(3, false)];
    assert_eq!(
        wheel_edit_plan(&paths, 0, &[node(0, 2), node(0, 9), node(1, 0)], ParamWheelTarget::Weight),
        vec![WheelEdit::Weight { path: 0, point: 2 }]
    );
}

#[test]
fn segment_plans_skip_repeats() {
    let paths = vec![path(4, false), path(3, true)];
    let nodes = [node(0, 1), node(0, 2), node(0, 0), node(1, 0), node(1, 0)];
    assert_eq!(
        wheel_edit_plan(&paths, 0, &nodes, ParamWheelTarget::PsiPrev),
        vec![
            WheelEdit::Psi { path: 0, segment: 0 },
            WheelEdit::Psi { path: 0, segment: 1 },
            WheelEdit::Psi { path: 1, segment: 2 },
        ]
    );
    assert_eq!(
        wheel_edit_plan(&paths, 0, &[node(0, 3), node(0, 2), node(0, 2)], ParamWheelTarget::PhiNext),
        vec![WheelEdit::Phi { path: 0, segment: 2 }]
    );
    assert!(wheel_edit_plan(&paths, 0, &nodes, ParamWheelTarget::FillHue).is_empty());
}
