use mohe_ji::tools::{
    adjust_color_channel_by_wheel, color_wheel_channel, is_fill_color_target, is_global_wheel_target, is_paint_color_target,
    requires_selected_nodes, segment_index_for_wheel_target, ParamWheelTarget, TransformDragHandle, TransformHandle,
    ColorWheelChannel,
};

#[test]
fn wheel_labels() {
    assert_eq!(ParamWheelTarget::Weight.label(), "Weight");
    assert_eq!(ParamWheelTarget::PsiPrev.label(), "Psi Prev");
    assert_eq!(ParamWheelTarget::FillHue.label(), "Fill Hue");
    assert_eq!(ParamWheelTarget::FillBrightness.label(), "Fill Brightness");
    assert_eq!(ParamWheelTarget::FillAlpha.label(), "Fill Alpha");
    assert_eq!(ParamWheelTarget::PaintHue.label(), "Stroke/Raster Brush Hue");
    assert_eq!(ParamWheelTarget::PaintBrightness.label(), "Stroke/Raster Brush Brightness");
    assert_eq!(ParamWheelTarget::PaintAlpha.label(), "Stroke/Raster Brush Alpha");
}

#[test]
fn wheel_target_classes() {
    assert!(is_global_wheel_target(ParamWheelTarget::StrokeWidth));
    assert!(is_global_wheel_target(ParamWheelTarget::FillAlpha));
    assert!(!is_global_wheel_target(ParamWheelTarget::Weight));
    assert!(requires_selected_nodes(ParamWheelTarget::PhiNext));
    assert!(!requires_selected_nodes(ParamWheelTarget::PaintHue));
    assert!(is_fill_color_target(ParamWheelTarget::FillBrightness));
    assert!(!is_fill_color_target(ParamWheelTarget::PaintBrightness));
    assert!(is_paint_color_target(ParamWheelTarget::PaintBrightness));
    assert!(!is_paint_color_target(ParamWheelTarget::StrokeWidth));
}

#[test]
fn segment_for_wheel_open_path() {
    assert_eq!(segment_index_for_wheel_target(4, false, 0, ParamWheelTarget::PsiPrev), None);
    assert_eq!(segment_index_for_wheel_target(4, false, 0, ParamWheelTarget::PsiNext), Some(0));
    assert_eq!(segment_index_for_wheel_target(4, false, 3, ParamWheelTarget::PhiNext), None);
    assert_eq!(segment_index_for_wheel_target(4, false, 2, ParamWheelTarget::PhiPrev), Some(1));
    assert_eq!(segment_index_for_wheel_target(4, false, 1, ParamWheelTarget::Weight), None);
    assert_eq!(segment_index_for_wheel_target(1, false, 0, ParamWheelTarget::PsiNext), None);
}

#[test]
fn segment_for_wheel_closed_path() {
    assert_eq!(segment_index_for_wheel_target(4, true, 0, ParamWheelTarget::PsiPrev), Some(3));
    assert_eq!(segment_index_for_wheel_target(4, true, 3, ParamWheelTarget::PsiNext), Some(3));
    assert_eq!(segment_index_for_wheel_target(4, true, 4, ParamWheelTarget::PsiNext), None);
}

#[test]
fn color_channel_wheel_clamps() {
    let mut c = [10u8, 250, 3, 9];
    assert!(adjust_color_channel_by_wheel(&mut c, ParamWheelTarget::PaintAlpha, 12, [0, 0, 0]));
    assert_eq!(c, [10, 250, 3, 21]);
    assert!(adjust_color_channel_by_wheel(&mut c, ParamWheelTarget::FillAlpha, -30, [0, 0, 0]));
    assert_eq!(c, [10, 250, 3, 0]);
    assert!(!adjust_color_channel_by_wheel(&mut c, ParamWheelTarget::PaintAlpha, -6, [0, 0, 0]));
    assert!(!adjust_color_channel_by_wheel(&mut c, ParamWheelTarget::Weight, 6, [1, 2, 3]));
    assert_eq!(c, [10, 250, 3, 0]);
    let mut d = [10u8, 20, 30, 250];
    assert!(adjust_color_channel_by_wheel(&mut d, ParamWheelTarget::PaintAlpha, 12, [0, 0, 0]));
    assert_eq!(d, [10, 20, 30, 255]);
}

#[test]
fn color_wheel_hue_and_brightness_take_stepped_rgb() {
    let mut c = [10u8, 250, 3, 9];
    assert!(adjust_color_channel_by_wheel(&mut c, ParamWheelTarget::FillHue, 6, [250, 10, 3]));
    assert_eq!(c, [250, 10, 3, 9]);
    assert!(!adjust_color_channel_by_wheel(&mut c, ParamWheelTarget::PaintBrightness, -6, [250, 10, 3]));
    assert!(adjust_color_channel_by_wheel(&mut c, ParamWheelTarget::PaintBrightness, -6, [244, 9, 2]));
    assert_eq!(c, [244, 9, 2, 9]);
    assert_eq!(color_wheel_channel(ParamWheelTarget::FillHue), Some(ColorWheelChannel::Hue));
    assert_eq!(color_wheel_channel(ParamWheelTarget::PaintBrightness), Some(ColorWheelChannel::Brightness));
    assert_eq!(color_wheel_channel(ParamWheelTarget::PaintAlpha), Some(ColorWheelChannel::Alpha));
    assert_eq!(color_wheel_channel(ParamWheelTarget::Weight), None);
}

#[test]
fn transform_handle_maps_to_drag() {
    assert_eq!(TransformHandle::Rotate.to_drag(), TransformDragHandle::Rotate);
    assert_eq!(TransformHandle::ScaleX.to_drag(), TransformDragHandle::ScaleX);
    assert_eq!(TransformHandle::UniformResize.to_drag(), TransformDragHandle::UniformResize);
}
