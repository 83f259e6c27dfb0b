use system_foundation::bool_grid::BoolGrid;
use system_foundation::extractor::TopologyExtractor;
use system_foundation::graph::Graph;
use system_foundation::grid_map::{GridMap, GridMapCellState, OccupiedRegionColor};
use system_foundation::thinning::ZhangSuenThinningAlgorithm;
use system_foundation::topology::{TopologyEdge, TopologyNode, TopologyNodeType};
use system_foundation::vector2i::Vector2I;
use system_foundation::vectorizer::TopologyVectorizer;

/// Grid map whose vacant cells are exactly the given (x, y) pixels.
fn grid_with_vacant(width: usize, height: usize, vacant: &[(usize, usize)]) -> GridMap {
    // With OccupiedRegionColor::Black and threshold 128, a pixel below 128
    // is occupied; border cells are forced occupied regardless.
    let mut pixels = vec![0u8; width * height];
    for &(x, y) in vacant {
        pixels[y * width + x] = 200;
    }
    GridMap::from_image_pixels(width, height, &pixels, OccupiedRegionColor::Black, 128)
}

fn extract(grid: &GridMap) -> Graph<TopologyNode, TopologyEdge> {
    let extractor = TopologyExtractor::new();
    extractor.extract(grid)
}

#[test]
fn border_cells_are_occupied() {
    // Even an all-bright image keeps its border occupied.
    let pixels = vec![255u8; 5 * 4];
    let grid = GridMap::from_image_pixels(5, 4, &pixels, OccupiedRegionColor::Black, 128);
    for r in 0..4 {
        for c in 0..5 {
            let on_border = r == 0 || c == 0 || r == 3 || c == 4;
            let state = *grid.get_by_cell(r, c).unwrap().state();
            if on_border {
                assert_eq!(state, GridMapCellState::Occupied);
            } else {
                assert_eq!(state, GridMapCellState::Vacant);
            }
        }
    }
}

#[test]
fn white_occupied_region_color() {
    // With OccupiedRegionColor::White, bright interior pixels are occupied.
    let mut pixels = vec![0u8; 4 * 4];
    pixels[1 * 4 + 1] = 255;
    let grid = GridMap::from_image_pixels(4, 4, &pixels, OccupiedRegionColor::White, 128);
    assert_eq!(*grid.get_by_cell(1, 1).unwrap().state(), GridMapCellState::Occupied);
    assert_eq!(*grid.get_by_cell(1, 2).unwrap().state(), GridMapCellState::Vacant);
    assert_eq!(grid.horizontal_cells(), 4);
    assert_eq!(grid.vertical_cells(), 4);
}

#[test]
fn set_cell_state_updates_one_cell() {
    let mut grid = GridMap::with_cell_state(3, 3, GridMapCellState::Vacant);
    assert!(grid.set_cell_state(1, 2, GridMapCellState::Occupied));
    assert_eq!(*grid.get_by_cell(1, 2).unwrap().state(), GridMapCellState::Occupied);
    assert_eq!(*grid.get_by_cell(1, 1).unwrap().state(), GridMapCellState::Vacant);
    assert!(!grid.set_cell_state(3, 0, GridMapCellState::Occupied));
    assert!(grid.get_by_cell(9, 9).is_none());
}

/// Thin a foreground set and return the surviving pixels.
fn thin_pixels(width: usize, height: usize, foreground: &[(usize, usize)]) -> Vec<(usize, usize)> {
    let mut cells = vec![false; width * height];
    for &(x, y) in foreground {
        cells[y * width + x] = true;
    }
    let grid = BoolGrid::from_vec_grid(width, height, cells);
    let mut thinning = ZhangSuenThinningAlgorithm::new();
    let thinned = thinning.thin_grid(&grid);
    let mut out = Vec::new();
    for y in 0..height {
        for x in 0..width {
            if thinned.get(y, x) {
                out.push((x, y));
            }
        }
    }
    out
}

#[test]
fn thinning_reduces_a_thick_bar_to_one_pixel_width() {
    // A 2-wide horizontal bar thins to a single row.
    let mut fg = Vec::new();
    for x in 1..8 {
        fg.push((x, 2));
        fg.push((x, 3));
    }
    let thinned = thin_pixels(9, 6, &fg);
    let mut rows: Vec<usize> = thinned.iter().map(|p| p.1).collect();
    rows.sort();
    rows.dedup();
    assert_eq!(rows.len(), 1, "the skeleton must lie in a single row");
    assert!(thinned.len() < fg.len());
}

#[test]
fn thinning_is_idempotent() {
    // Running the thinner on its own output removes zero pixels.
    let mut fg = Vec::new();
    for x in 1..8 {
        for y in 1..5 {
            fg.push((x, y));
        }
    }
    let once = thin_pixels(9, 6, &fg);
    let twice = thin_pixels(9, 6, &once);
    assert_eq!(once, twice);
}

#[test]
fn thinning_through_ndarray_buffers() {
    // The ndarray-backed entry point must agree with the plain one; it
    // fails if the array bindings scramble dimensions or contents.
    let width = 7;
    let height = 5;
    let mut cells = vec![false; width * height];
    for x in 1..6 {
        cells[2 * width + x] = true;
        cells[3 * width + x] = true;
    }
    let grid = BoolGrid::from_vec_grid(width, height, cells.clone());
    let array = grid.to_array();
    let mut thinning = ZhangSuenThinningAlgorithm::new();
    let out_array = thinning.run(&array);
    let out_grid = BoolGrid::from_array(&out_array);

    let grid2 = BoolGrid::from_vec_grid(width, height, cells);
    let mut thinning2 = ZhangSuenThinningAlgorithm::new();
    let direct = thinning2.thin_grid(&grid2);
    for y in 0..height {
        for x in 0..width {
            assert_eq!(out_grid.get(y, x), direct.get(y, x));
        }
    }
}

#[test]
fn single_line_extracts_two_endpoints_and_one_edge() {
    // A 1 x 7 vacant strip: two endpoints joined by one 7-point polyline.
    let vacant: Vec<(usize, usize)> = (1..8).map(|x| (x, 2)).collect();
    let grid = grid_with_vacant(9, 5, &vacant);
    let map = extract(&grid);
    assert_eq!(map.get_node_count(), 2);
    assert_eq!(map.get_edge_count(), 1);
    let mut endpoint_count = 0;
    for nid in 1..map.next_node_id() {
        if let Some(node) = map.get_node_by_id(&nid) {
            assert_eq!(node.node_info().node_type, TopologyNodeType::Endpoint);
            endpoint_count += 1;
        }
    }
    assert_eq!(endpoint_count, 2);
    let edge = map.get_edge_by_id(&1).unwrap();
    assert_eq!(edge.edge_info().get_waypoints().len(), 7);

    // Post-vectorization the polyline collapses to its two ends.
    let (vectorized, groups) = TopologyVectorizer::vectorizer(&map);
    assert_eq!(vectorized.get_node_count(), 2);
    assert_eq!(vectorized.get_edge_count(), 1);
    assert_eq!(groups.len(), 1);
    assert_eq!(groups[0].len(), 2);
}

#[test]
fn plus_shape_extracts_one_intersection_four_endpoints() {
    // A "+" of arm length 3 (13 pixels): 1 intersection, 4 endpoints,
    // 4 edges.
    let mut vacant = vec![(5, 5)];
    for d in 1..4 {
        vacant.push((5 + d, 5));
        vacant.push((5 - d, 5));
        vacant.push((5, 5 + d));
        vacant.push((5, 5 - d));
    }
    let grid = grid_with_vacant(11, 11, &vacant);
    let map = extract(&grid);
    assert_eq!(map.get_node_count(), 5);
    assert_eq!(map.get_edge_count(), 4);
    let mut endpoints = 0;
    let mut intersections = 0;
    for nid in 1..map.next_node_id() {
        if let Some(node) = map.get_node_by_id(&nid) {
            match node.node_info().node_type {
                TopologyNodeType::Endpoint => endpoints += 1,
                TopologyNodeType::Intersection => intersections += 1,
                _ => panic!("unexpected node type"),
            }
            assert!(node.degree() >= 1);
        }
    }
    assert_eq!(endpoints, 4);
    assert_eq!(intersections, 1);
}

#[test]
fn closed_loop_extracts_one_waypoint_self_loop() {
    // A ring with no feature pixel: the coverage pass seeds one waypoint
    // and the collision closes a self-loop edge.
    let mut vacant = Vec::new();
    for x in 2..7 {
        vacant.push((x, 2));
        vacant.push((x, 6));
    }
    for y in 3..6 {
        vacant.push((2, y));
        vacant.push((6, y));
    }
    let grid = grid_with_vacant(9, 9, &vacant);
    let map = extract(&grid);
    assert_eq!(map.get_node_count(), 1);
    assert_eq!(map.get_edge_count(), 1);
    let node = map.get_node_by_id(&1).unwrap();
    assert_eq!(node.node_info().node_type, TopologyNodeType::Waypoint);
    let edge = map.get_edge_by_id(&1).unwrap();
    assert_eq!(edge.node1(), edge.node2());
}

#[test]
fn isolated_pixel_becomes_island() {
    // A lone vacant pixel yields one node with no edges; a node without
    // any incident edge is classified as an island.
    let grid = grid_with_vacant(5, 5, &[(2, 2)]);
    let map = extract(&grid);
    assert_eq!(map.get_node_count(), 1);
    assert_eq!(map.get_edge_count(), 0);
    let node = map.get_node_by_id(&1).unwrap();
    assert_eq!(node.node_info().node_type, TopologyNodeType::Island);
    assert_eq!(node.node_info().position, Vector2I { x: 2, y: 2 });
    assert_eq!(node.degree(), 0);
}

#[test]
fn pixel_score_stays_in_range() {
    // Feature scores are between 0 and 4; a full ring around the pixel
    // scores 0 and a diagonal cross scores 4.
    let mut cells = vec![false; 25];
    for y in 1..4 {
        for x in 1..4 {
            cells[y * 5 + x] = true;
        }
    }
    let grid = BoolGrid::from_vec_grid(5, 5, cells);
    assert_eq!(TopologyExtractor::compute_pixel_score(&grid, 2, 2), 0);

    let mut cells2 = vec![false; 25];
    cells2[2 * 5 + 2] = true;
    cells2[1 * 5 + 1] = true;
    cells2[1 * 5 + 3] = true;
    cells2[3 * 5 + 1] = true;
    cells2[3 * 5 + 3] = true;
    let grid2 = BoolGrid::from_vec_grid(5, 5, cells2);
    assert_eq!(TopologyExtractor::compute_pixel_score(&grid2, 2, 2), 4);
}

#[test]
fn neighboring_positions_respect_bounds() {
    let r = TopologyExtractor::get_neighboring_pos((0, 0), (5, 5), 0);
    assert_eq!(r, None);
    let r2 = TopologyExtractor::get_neighboring_pos((2, 2), (5, 5), 2);
    assert_eq!(r2, Some((3, 2)));
    let r3 = TopologyExtractor::get_neighboring_pos((4, 4), (5, 5), 3);
    assert_eq!(r3, None);
}

#[test]
fn bent_line_group_reproduces_the_simplified_polyline() {
    // An L-shaped path: the corner survives simplification, so the
    // vectorized group runs endpoint, corner waypoint, endpoint, and the
    // straight-line lengths along the group sum to the simplified
    // polyline's length.
    let mut vacant: Vec<(usize, usize)> = (1..6).map(|x| (x, 1)).collect();
    for y in 2..5 {
        vacant.push((5, y));
    }
    let grid = grid_with_vacant(8, 7, &vacant);
    let map = extract(&grid);
    assert_eq!(map.get_node_count(), 2);
    assert_eq!(map.get_edge_count(), 1);
    let waypoints = map.get_edge_by_id(&1).unwrap().edge_info().get_waypoints().clone();
    assert_eq!(waypoints.len(), 8);

    let (vectorized, groups) = TopologyVectorizer::vectorizer(&map);
    assert_eq!(groups.len(), 1);
    let group = &groups[0];
    assert_eq!(group.len(), 3);
    let positions: Vec<Vector2I> = group
        .iter()
        .map(|nid| vectorized.get_node_by_id(nid).unwrap().node_info().position)
        .collect();
    assert_eq!(positions[1], Vector2I { x: 5, y: 1 });
    assert_eq!(
        vectorized.get_node_by_id(&group[1]).unwrap().node_info().node_type,
        TopologyNodeType::Waypoint
    );
    // The group's positions are exactly the simplified polyline, so the
    // segment lengths sum to the simplified polyline's length.
    let length = |ps: &[Vector2I]| -> f64 {
        ps.windows(2)
            .map(|w| {
                let dx = (w[1].x - w[0].x) as f64;
                let dy = (w[1].y - w[0].y) as f64;
                (dx * dx + dy * dy).sqrt()
            })
            .sum()
    };
    let ends: Vec<Vector2I> = vec![waypoints[0], positions[1], waypoints[7]];
    assert_eq!(positions, ends);
    assert!((length(&positions) - length(&ends)).abs() < 1e-9);
    // Chained edges carry empty polylines.
    for eid in 1..vectorized.next_edge_id() {
        assert_eq!(
            vectorized.get_edge_by_id(&eid).unwrap().edge_info().get_waypoints().len(),
            0
        );
    }
}

#[test]
fn spurred_block_is_a_thinning_fixed_point() {
    // A 2x2 block whose four pixels each carry one diagonal spur satisfies
    // neither sub-pass's conditions anywhere, so the thinner returns it
    // unchanged: each block pixel keeps outside support.
    let fg = vec![
        (2, 2),
        (3, 2),
        (2, 3),
        (3, 3),
        (1, 1),
        (4, 1),
        (1, 4),
        (4, 4),
    ];
    let mut expected = fg.clone();
    expected.sort();
    let mut thinned = thin_pixels(6, 6, &fg);
    thinned.sort();
    assert_eq!(thinned, expected);
}
