use xschem_viewer::text_layout::{resolve_text_layout, HAlign, LineDirection, VBaseline};

#[test]
fn rotacion_cero_sin_mirror_es_texto_normal() {
    let l = resolve_text_layout(0, 0, false, false);
    assert_eq!(l.h_align, HAlign::Start);
    assert_eq!(l.baseline, VBaseline::Top);
    assert_eq!(l.visual_angle_deg as f32, 0.0);
    assert_eq!(l.line_direction, LineDirection::Forward);
    assert!(!l.v_mirror);
    assert!(!l.h_mirror);
}

#[test]
fn rotacion_90_vertical_base_derecha() {
    let l = resolve_text_layout(1, 0, false, false);
    assert!(l.v_mirror);
    assert!(l.h_mirror);
    assert_eq!(l.line_direction, LineDirection::Reverse);
    assert_eq!(l.visual_angle_deg as f32, -90.0);
}

#[test]
fn rotacion_180_se_ve_horizontal_con_anchors_invertidos() {
    let l = resolve_text_layout(2, 0, false, false);
    assert_eq!(l.visual_angle_deg as f32, 0.0);
    assert_eq!(l.h_align, HAlign::End);
    assert_eq!(l.baseline, VBaseline::Bottom);
}

#[test]
fn rotacion_270_vertical_base_izquierda() {
    let l = resolve_text_layout(3, 0, false, false);
    assert!(!l.v_mirror);
    assert!(!l.h_mirror);
    assert_eq!(l.visual_angle_deg as f32, 90.0);
    assert_eq!(l.line_direction, LineDirection::Forward);
}

#[test]
fn mirror_invierte_h_cuando_rotacion_cero() {
    let l = resolve_text_layout(0, 1, false, false);
    assert!(l.h_mirror);
    assert_eq!(l.h_align, HAlign::End);
}

#[test]
fn h_center_y_v_center_sobrescriben_anchors() {
    let l = resolve_text_layout(1, 0, true, true);
    assert_eq!(l.h_align, HAlign::Middle);
    assert_eq!(l.baseline, VBaseline::Middle);
}

#[test]
fn mirror_with_upside_down_rotation_cancels_out() {
    let l = resolve_text_layout(2, 1, false, false);
    assert!(l.v_mirror);
    assert!(!l.h_mirror);
    assert_eq!(l.h_align, HAlign::Start);
    assert_eq!(l.baseline, VBaseline::Bottom);
}

#[test]
fn rotation_is_taken_modulo_four() {
    let l = resolve_text_layout(5, 0, false, false);
    assert_eq!(l.visual_angle_deg, -90);
    let m = resolve_text_layout(-1, 0, false, false);
    assert_eq!(m.visual_angle_deg, 90);
}
