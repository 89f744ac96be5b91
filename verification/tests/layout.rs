use gravity_edge_bundling::layout::{ControlPointLayout, ControlPointMeta, Edge, EdgeNodes};

/// Whole spacings along the segment between two points, as the simulation
/// measures them before laying out an edge.
fn steps_between(a: (f32, f32), b: (f32, f32), spacing: f32) -> usize {
    let dx = b.0 - a.0;
    let dy = b.1 - a.1;
    let dist = (dx * dx + dy * dy).sqrt();
    (dist / spacing.max(1.0)).floor() as usize
}

#[test]
fn test_get_control_point_metadata() {
    let nodes = [(0.0f32, 0.0f32), (10.0f32, 0.0f32)];
    let edges = vec![Edge { source: 0, target: 1 }];
    let steps = vec![steps_between(nodes[0], nodes[1], 4.0)];

    let layout = ControlPointLayout::new(edges, &steps).unwrap();
    assert_eq!(2 * layout.total_points(), 8);

    let (metas, edge_nodes, indices) = layout.get_control_point_metadata();

    assert_eq!(metas.len(), 4);
    assert_eq!(edge_nodes.len(), 4);
    assert_eq!(indices.len(), 6);
    assert_eq!(indices, vec![0, 1, 1, 2, 2, 3]);

    // Check static ends
    assert_eq!(metas[0].is_static, 1);
    assert_eq!(metas[0].prev_idx, -1);
    assert_eq!(metas[0].next_idx, -1);

    assert_eq!(metas[3].is_static, 1);
    assert_eq!(metas[3].prev_idx, -1);
    assert_eq!(metas[3].next_idx, -1);

    // Check dynamic inner points
    assert_eq!(metas[1].is_static, 0);
    assert_eq!(metas[1].prev_idx, 0);
    assert_eq!(metas[1].next_idx, 2);

    assert_eq!(metas[2].is_static, 0);
    assert_eq!(metas[2].prev_idx, 1);
    assert_eq!(metas[2].next_idx, 3);

    // Check edge nodes info
    for i in 0..4 {
        assert_eq!(edge_nodes[i].source, 0);
        assert_eq!(edge_nodes[i].target_node, 1);
    }
}

#[test]
fn diagonal_edge_gets_five_points() {
    // Spacing 1.5 on dist = sqrt(32) ~ 5.657 => floor(5.657 / 1.5) + 2 = 5 control points
    let steps = vec![steps_between((2.0, 2.0), (6.0, 6.0), 1.5)];
    assert_eq!(steps, vec![3]);
    let layout = ControlPointLayout::new(vec![Edge { source: 0, target: 1 }], &steps).unwrap();
    assert_eq!(2 * layout.total_points(), 10);
    assert_eq!(layout.num_edges(), 1);
    assert_eq!(layout.offset(0), 0);
    assert_eq!(layout.count(0), 5);
    assert_eq!(layout.offsets_u32(), vec![0]);
    assert_eq!(layout.counts_u32(), vec![5]);
}

#[test]
fn short_edges_get_three_points() {
    let edges = vec![Edge { source: 0, target: 1 }, Edge { source: 1, target: 2 }];
    let layout = ControlPointLayout::new(edges.clone(), &[0, 1]).unwrap();
    assert_eq!(layout.counts_u32(), vec![3, 3]);
    assert_eq!(layout.offsets_u32(), vec![0, 3]);
    assert_eq!(layout.total_points(), 6);
    assert_eq!(layout.edges(), edges.as_slice());
}

#[test]
fn offsets_are_running_totals() {
    let edges = vec![
        Edge { source: 0, target: 1 },
        Edge { source: 1, target: 2 },
        Edge { source: 2, target: 0 },
    ];
    let layout = ControlPointLayout::new(edges, &[5, 0, 2]).unwrap();
    assert_eq!(layout.counts_u32(), vec![7, 3, 4]);
    assert_eq!(layout.offsets_u32(), vec![0, 7, 10]);
    assert_eq!(layout.total_points(), 14);
}

#[test]
fn oversized_plans_are_refused() {
    let edges = vec![Edge { source: 0, target: 1 }];
    assert!(ControlPointLayout::new(edges.clone(), &[usize::MAX]).is_none());
    assert!(ControlPointLayout::new(edges.clone(), &[usize::MAX - 1]).is_none());
    assert!(ControlPointLayout::new(edges.clone(), &[usize::MAX / 2]).is_none());
    let two = vec![Edge { source: 0, target: 1 }, Edge { source: 1, target: 0 }];
    assert!(ControlPointLayout::new(two, &[usize::MAX / 4, usize::MAX / 4]).is_none());
    assert!(ControlPointLayout::new(Vec::new(), &[]).is_some());
}

#[test]
fn empty_layout_has_no_metadata() {
    let layout = ControlPointLayout::new(Vec::new(), &[]).unwrap();
    assert_eq!(layout.total_points(), 0);
    let (metas, edge_nodes, indices) = layout.get_control_point_metadata();
    assert!(metas.is_empty() && edge_nodes.is_empty() && indices.is_empty());
}

#[test]
fn metadata_of_two_edges() {
    let edges = vec![Edge { source: 4, target: 7 }, Edge { source: 7, target: 2 }];
    let layout = ControlPointLayout::new(edges, &[0, 2]).unwrap();
    let (metas, edge_nodes, indices) = layout.get_control_point_metadata();
    let pinned = ControlPointMeta { prev_idx: -1, next_idx: -1, is_static: 1, padding: 0 };
    let linked = |p: i32| ControlPointMeta { prev_idx: p - 1, next_idx: p + 1, is_static: 0, padding: 0 };
    assert_eq!(
        metas,
        vec![pinned, linked(1), pinned, pinned, linked(4), linked(5), pinned]
    );
    let first = EdgeNodes { source: 4, target_node: 7 };
    let second = EdgeNodes { source: 7, target_node: 2 };
    assert_eq!(edge_nodes, vec![first, first, first, second, second, second, second]);
    // Segments never join the last point of one edge to the first of the next.
    assert_eq!(indices, vec![0, 1, 1, 2, 3, 4, 4, 5, 5, 6]);
}

#[test]
fn step_moves_interior_points_from_the_old_positions() {
    let layout = ControlPointLayout::new(vec![Edge { source: 0, target: 1 }], &[2]).unwrap();
    // four points on a line, the two inner ones displaced
    let mut points: Vec<f32> = vec![0.0, 0.0, 1.0, 5.0, 2.0, -5.0, 3.0, 0.0];
    layout.step(&mut points, |_px, _py, ax, ay, bx, by| ((ax + bx) / 2.0, (ay + by) / 2.0));
    // Point 1 moves to the midpoint of the old points 0 and 2, point 2 to the
    // midpoint of the old points 1 and 3, not of the new point 1.
    assert_eq!(points, vec![0.0, 0.0, 1.0, -2.5, 2.0, 2.5, 3.0, 0.0]);
}

#[test]
fn step_keeps_the_ends_of_every_edge() {
    let edges = vec![Edge { source: 0, target: 1 }, Edge { source: 1, target: 2 }];
    let layout = ControlPointLayout::new(edges, &[2, 0]).unwrap();
    let mut points: Vec<i64> = (0..14).collect();
    // a trailing coordinate that belongs to no point stays too
    points.push(99);
    layout.step(&mut points, |px, py, _, _, _, _| (px + 100, py + 100));
    assert_eq!(
        points,
        vec![0, 1, 102, 103, 104, 105, 6, 7, 8, 9, 110, 111, 12, 13, 99]
    );
}
