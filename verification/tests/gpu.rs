use gravity_edge_bundling::gpu::{canvas_size, resized, GpuSchedule};

#[test]
fn new_schedule_reads_a_and_holds_nothing() {
    let s = GpuSchedule::new(256, 128);
    assert!(s.is_a_source);
    assert_eq!((s.num_control_points, s.num_indices, s.num_nodes), (0, 0, 0));
    assert_eq!((s.grid_width, s.grid_height), (256, 128));
}

#[test]
fn step_without_points_does_nothing() {
    let mut s = GpuSchedule::new(8, 8);
    assert_eq!(s.step_dispatch(), None);
    assert_eq!(s, GpuSchedule::new(8, 8));
}

#[test]
fn steps_ping_pong_between_buffers() {
    let mut s = GpuSchedule::new(8, 8);
    assert_eq!(s.buffers_updated(10, 6), 40);
    assert_eq!(s.num_control_points, 5);
    assert_eq!(s.num_indices, 6);
    assert_eq!(s.step_dispatch(), Some((true, 1)));
    assert!(!s.is_a_source);
    assert_eq!(s.readback(), Some((false, 40)));
    assert_eq!(s.step_dispatch(), Some((false, 1)));
    assert!(s.is_a_source);
    assert_eq!(s.readback(), Some((true, 40)));
}

#[test]
fn new_buffers_start_in_a() {
    let mut s = GpuSchedule::new(8, 8);
    s.buffers_updated(200, 0);
    s.step_dispatch();
    assert!(!s.is_a_source);
    s.buffers_updated(130, 2);
    assert!(s.is_a_source);
    assert_eq!(s.num_control_points, 65);
    assert_eq!(s.step_dispatch(), Some((true, 2)));
}

#[test]
fn readback_of_nothing_is_empty() {
    let s = GpuSchedule::new(8, 8);
    assert_eq!(s.readback(), None);
}

#[test]
fn gravity_needs_nodes() {
    let mut s = GpuSchedule::new(33, 16);
    assert_eq!(s.gravity_dispatch(), None);
    s.nodes_updated(2);
    assert_eq!(s.num_nodes, 2);
    assert_eq!(s.gravity_dispatch(), Some((3, 1)));
}

#[test]
fn render_plan_skips_empty_passes() {
    let mut s = GpuSchedule::new(8, 8);
    assert_eq!(s.render_plan(), (None, None));
    s.buffers_updated(10, 8);
    s.nodes_updated(3);
    assert_eq!(s.render_plan(), (Some(8), Some(3)));
}

#[test]
fn texture_rows_follow_grid_width() {
    let s = GpuSchedule::new(10, 7);
    assert_eq!(s.texture_rows(8), (80, 7));
    assert_eq!(s.texture_rows(4), (40, 7));
}

#[test]
fn canvas_size_defaults_without_surface() {
    assert_eq!(canvas_size(None), (800, 600));
    assert_eq!(canvas_size(Some((1024, 768))), (1024, 768));
}

#[test]
fn resize_ignores_empty_sizes() {
    assert_eq!(resized(Some((800, 600)), 1024, 768), Some((1024, 768)));
    assert_eq!(resized(Some((800, 600)), 0, 768), Some((800, 600)));
    assert_eq!(resized(Some((800, 600)), 1024, 0), Some((800, 600)));
    assert_eq!(resized(None, 1024, 768), None);
}
