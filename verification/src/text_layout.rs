//! Text layout with Xschem's readability rule: text is never drawn upside
//! down or mirrored; where rotation and mirror would make it so, the anchors
//! are flipped instead.
use vstd::prelude::*;

verus! {

/// Horizontal alignment, as SVG's `text-anchor`.
#[derive(Debug, Clone, Copy, PartialEq, Eq, Structural)]
pub enum HAlign {
    Start,
    Middle,
    End,
}

/// Vertical alignment, as SVG's `alignment-baseline`.
#[derive(Debug, Clone, Copy, PartialEq, Eq, Structural)]
pub enum VBaseline {
    Top,
    Middle,
    Bottom,
}

/// The order in which the lines of a multi-line text are stacked.
#[derive(Debug, Clone, Copy, PartialEq, Eq, Structural)]
pub enum LineDirection {
    Forward,
    Reverse,
}

/// Where and how a text is drawn.
#[derive(Debug, Clone, Copy, PartialEq, Eq, Structural)]
pub struct TextLayout {
    pub h_align: HAlign,
    pub baseline: VBaseline,
    /// Angle in degrees, clockwise positive: 0, -90 or 90.
    pub visual_angle_deg: i32,
    pub line_direction: LineDirection,
    /// The vertical readability flip was applied.
    pub v_mirror: bool,
    /// The horizontal readability flip was applied.
    pub h_mirror: bool,
}

/// The layout of a text rotated by `rotation` quarter turns, mirrored when `mirror == 1`.
pub open spec fn text_layout(rotation: i32, mirror: i32, h_center: bool, v_center: bool) -> TextLayout {
    let v_mirror = rotation == 1 || rotation == 2;
    let h_mirror = if mirror == 1 { !v_mirror } else { v_mirror };
    let q = rotation as int % 4;
    TextLayout {
        h_align: if h_center { HAlign::Middle } else if h_mirror { HAlign::End } else { HAlign::Start },
        baseline: if v_center { VBaseline::Middle } else if v_mirror { VBaseline::Bottom } else { VBaseline::Top },
        visual_angle_deg: if q == 1 { -90i32 } else if q == 3 { 90i32 } else { 0i32 },
        line_direction: if v_mirror { LineDirection::Reverse } else { LineDirection::Forward },
        v_mirror,
        h_mirror,
    }
}

/// Resolves the layout of a text from its `rotation` (quarter turns),
/// `mirror` (0 or 1) and centring flags.
pub fn resolve_text_layout(rotation: i32, mirror: i32, h_center: bool, v_center: bool) -> (l: TextLayout)
    ensures
        l == text_layout(rotation, mirror, h_center, v_center),
        l.visual_angle_deg == 0 || l.visual_angle_deg == 90 || l.visual_angle_deg == -90,
        (l.line_direction == LineDirection::Reverse) == l.v_mirror,
        h_center ==> l.h_align == HAlign::Middle,
        v_center ==> l.baseline == VBaseline::Middle,
{
    let v_mirror = rotation == 1 || rotation == 2;
    let h_mirror = if mirror == 1 { !v_mirror } else { v_mirror };
    let h_align = if h_center {
        HAlign::Middle
    } else if h_mirror {
        HAlign::End
    } else {
        HAlign::Start
    };
    let baseline = if v_center {
        VBaseline::Middle
    } else if v_mirror {
        VBaseline::Bottom
    } else {
        VBaseline::Top
    };
    let r = rotation % 4;
    let q = if r < 0 { r + 4 } else { r };
    assert(q as int == rotation as int % 4);
    let visual_angle_deg: i32 = if q == 1 {
        -90
    } else if q == 3 {
        90
    } else {
        0
    };
    let line_direction = if v_mirror { LineDirection::Reverse } else { LineDirection::Forward };
    TextLayout { h_align, baseline, visual_angle_deg, line_direction, v_mirror, h_mirror }
}

/// The readability rule, as relations between layouts: the vertical flip
/// is applied exactly for rotations 1 and 2; without mirroring the
/// horizontal flip goes with the vertical one, and mirroring (`mirror == 1`)
/// inverts it, while any other `mirror` value leaves it as unmirrored. An
/// uncentred text is anchored at its end exactly when flipped horizontally,
/// and at its bottom exactly when flipped vertically; a centred one in the
/// middle. The text reads at -90 degrees for a quarter turn, at 90 for three
/// quarters, and level otherwise.
pub proof fn lemma_readability(rotation: i32, mirror: i32, h_center: bool, v_center: bool)
    ensures
        text_layout(rotation, mirror, h_center, v_center).v_mirror == (rotation == 1 || rotation == 2),
        text_layout(rotation, 0, h_center, v_center).h_mirror == text_layout(rotation, 0, h_center, v_center).v_mirror,
        text_layout(rotation, 1, h_center, v_center).h_mirror != text_layout(rotation, 0, h_center, v_center).h_mirror,
        mirror != 1 ==> text_layout(rotation, mirror, h_center, v_center).h_mirror
            == text_layout(rotation, 0, h_center, v_center).h_mirror,
        !h_center ==> (text_layout(rotation, mirror, h_center, v_center).h_align
            == (if text_layout(rotation, mirror, h_center, v_center).h_mirror { HAlign::End } else { HAlign::Start })),
        !v_center ==> (text_layout(rotation, mirror, h_center, v_center).baseline
            == (if text_layout(rotation, mirror, h_center, v_center).v_mirror { VBaseline::Bottom } else { VBaseline::Top })),
        text_layout(rotation, mirror, h_center, v_center).h_mirror
            == ((rotation == 1 || rotation == 2) != (mirror == 1)),
        h_center ==> text_layout(rotation, mirror, h_center, v_center).h_align == HAlign::Middle,
        v_center ==> text_layout(rotation, mirror, h_center, v_center).baseline == VBaseline::Middle,
        text_layout(rotation, mirror, h_center, v_center).visual_angle_deg
            == (if rotation as int % 4 == 1 { -90i32 } else if rotation as int % 4 == 3 { 90i32 } else { 0i32 }),
{
}

} // verus!
