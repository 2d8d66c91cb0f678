use evosim::snapshot::{lod_level, vis_cells as level_vis_cells, GRASS_LOD_BUDGET_AXIS};

const GRASS_CELL_SIZE: f32 = 5.0;
const GRASS_LOD_MARGIN_FACTOR: f32 = 1.25;

fn compute_lod_level(world_size: f32, cam_zoom: f32, lod_bias: f32, max_level: usize) -> usize {
    let safe_zoom = if cam_zoom > 0.0 { cam_zoom } else { 1.0 };
    let visible_cell_span = (world_size / safe_zoom) / GRASS_CELL_SIZE;
    let bias_steps = lod_bias.max(0.0).ceil() as u32;
    lod_level(visible_cell_span.floor() as u64, bias_steps, max_level)
}

fn vis_cells(span_cells: f32, mip_level: usize) -> usize {
    level_vis_cells(span_cells.ceil() as u64, mip_level as u32) as usize
}

fn raw_win(vis: usize) -> usize {
    (vis as f32 * GRASS_LOD_MARGIN_FACTOR).ceil() as usize
}

#[test]
fn budget_4096_default_world_zoom1_is_level0() {
    let level = compute_lod_level(9600.0, 1.0, 0.0, 4);
    assert_eq!(level, 0, "default world at zoom=1 must be level 0");
}

#[test]
fn budget_4096_world16384_zoom1_is_level0() {
    let level = compute_lod_level(16384.0, 1.0, 0.0, 4);
    assert_eq!(
        level, 0,
        "16384-unit world at zoom=1 must be level 0 with 4096 budget"
    );
}

#[test]
fn budget_4096_world20480_zoom1_boundary_is_level0() {
    let level = compute_lod_level(20480.0, 1.0, 0.0, 4);
    assert_eq!(
        level, 0,
        "20480 world at zoom=1 should be exactly at the budget boundary → level 0"
    );
}

#[test]
fn budget_4096_world_over_budget_is_level1() {
    let level = compute_lod_level(40960.0, 1.0, 0.0, 4);
    assert_eq!(level, 1, "world at span=8192 (2× budget) should be level 1");
}

#[test]
fn budget_4096_span2049_stays_level0() {
    let level = compute_lod_level(10245.0, 1.0, 0.0, 4);
    assert_eq!(
        level, 0,
        "span 2049 should be level 0 with 4096 budget (was level 1 with 2048)"
    );
}

#[test]
fn lod_bias_zero_no_change() {
    let level = compute_lod_level(40960.0, 1.0, 0.0, 4);
    assert_eq!(level, 1);
}

#[test]
fn lod_bias_1_drives_level1_to_level0() {
    let level = compute_lod_level(40960.0, 1.0, 1.0, 4);
    assert_eq!(level, 0, "bias=1.0 should bring level 1 down to level 0");
}

#[test]
fn lod_bias_2_clamps_to_zero() {
    let level = compute_lod_level(163840.0, 1.0, 4.0, 4);
    assert_eq!(level, 0, "bias must clamp computed level to ≥ 0");
}

#[test]
fn lod_bias_negative_is_noop() {
    let level_no_bias = compute_lod_level(40960.0, 1.0, 0.0, 4);
    let level_neg_bias = compute_lod_level(40960.0, 1.0, -2.0, 4);
    assert_eq!(
        level_no_bias, level_neg_bias,
        "negative lod_bias must be treated as 0.0"
    );
}

#[test]
fn lod_bias_never_exceeds_max_level() {
    let max_level = 3;
    let level = compute_lod_level(163840.0, 1.0, 0.0, max_level);
    assert!(
        level <= max_level,
        "mip_level must not exceed pyramid max level"
    );
}

#[test]
fn aspect_square_viewport_equal_cells() {
    let span_x = 1920.0_f32;
    let aspect = 1.0_f32;
    let span_y = span_x * aspect;
    let mip = 0usize;
    let cx = vis_cells(span_x, mip);
    let cy = vis_cells(span_y, mip);
    assert_eq!(
        cx, cy,
        "square viewport must yield equal vis_cells in both axes"
    );
}

#[test]
fn aspect_16x9_viewport_y_less_than_x() {
    let span_x = 1920.0_f32;
    let aspect = 1080.0_f32 / 1920.0_f32;
    let span_y = span_x * aspect;
    let mip = 0usize;
    let cx = vis_cells(span_x, mip);
    let cy = vis_cells(span_y, mip);
    assert!(
        cy < cx,
        "16:9 viewport: vis_cells_y ({cy}) must be < vis_cells_x ({cx})"
    );
    assert_eq!(cx, 1920);
    assert_eq!(cy, 1080);
}

#[test]
fn aspect_portrait_viewport_y_greater_than_x() {
    let span_x = 1080.0_f32;
    let aspect = 1920.0_f32 / 1080.0_f32;
    let span_y = span_x * aspect;
    let mip = 0usize;
    let cx = vis_cells(span_x, mip);
    let cy = vis_cells(span_y, mip);
    assert!(
        cy > cx,
        "portrait viewport: vis_cells_y ({cy}) must be > vis_cells_x ({cx})"
    );
}

#[test]
fn raw_win_capped_at_budget() {
    let vis: usize = GRASS_LOD_BUDGET_AXIS * 2;
    let rw = raw_win(vis).min(GRASS_LOD_BUDGET_AXIS);
    assert_eq!(rw, GRASS_LOD_BUDGET_AXIS);
}

#[test]
fn lod_level_integer_boundaries() {
    assert_eq!(lod_level(0, 0, 8), 0);
    assert_eq!(lod_level(4095, 0, 8), 0);
    assert_eq!(lod_level(8191, 0, 8), 0);
    assert_eq!(lod_level(8192, 0, 8), 1);
    assert_eq!(lod_level(16384, 0, 8), 2);
    assert_eq!(lod_level(16384, 1, 8), 1);
    assert_eq!(lod_level(16384 * 64, 0, 3), 3);
}

#[test]
fn vis_cells_rounds_up_per_level() {
    assert_eq!(level_vis_cells(1921, 0), 1921);
    assert_eq!(level_vis_cells(1921, 1), 961);
    assert_eq!(level_vis_cells(1921, 2), 481);
    assert_eq!(level_vis_cells(0, 3), 0);
}
