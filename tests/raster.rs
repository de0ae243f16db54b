use hypercube::geometry::Edge;
use hypercube::raster::{
    draw_edge, intensity, pen_size, plot, rasterize, stamp, ScreenPoint, FIXED_ONE,
};
use hypercube::screen::to_screen;

fn pt(x: i32, y: i32, depth_units: i32) -> ScreenPoint {
    ScreenPoint { x, y, depth: depth_units * FIXED_ONE }
}

fn lit(grid: &Vec<Vec<u8>>) -> Vec<(usize, usize, u8)> {
    let mut r = Vec::new();
    for (y, row) in grid.iter().enumerate() {
        for (x, &v) in row.iter().enumerate() {
            if v != 0 {
                r.push((x, y, v));
            }
        }
    }
    r
}

#[test]
fn intensity_fades_with_depth_and_clamps_at_half() {
    assert_eq!(intensity(0), 255);
    assert_eq!(intensity(-5), 255);
    assert_eq!(intensity(FIXED_ONE as i64), 230);
    assert_eq!(intensity(5 * FIXED_ONE as i64), 128);
    assert_eq!(intensity(40 * FIXED_ONE as i64), 128);
    assert!(intensity(2 * FIXED_ONE as i64) < intensity(FIXED_ONE as i64));
}

#[test]
fn pen_scales_with_resolution() {
    assert_eq!(pen_size(1080, 1920), 11);
    assert_eq!(pen_size(10, 10), 1);
    assert_eq!(pen_size(150, 300), 2);
    assert_eq!(pen_size(149, 300), 1);
}

#[test]
fn plot_keeps_the_brighter_value_and_ignores_outside() {
    let mut g = vec![vec![0u8; 4]; 3];
    plot(&mut g, 4, 3, 1, 2, 100);
    plot(&mut g, 4, 3, 1, 2, 50);
    plot(&mut g, 4, 3, -1, 0, 200);
    plot(&mut g, 4, 3, 4, 0, 200);
    plot(&mut g, 4, 3, 0, 3, 200);
    assert_eq!(lit(&g), vec![(1, 2, 100)]);
    plot(&mut g, 4, 3, 1, 2, 150);
    assert_eq!(g[2][1], 150);
}

#[test]
fn stamp_covers_a_centred_square() {
    let mut g = vec![vec![0u8; 6]; 6];
    stamp(&mut g, 6, 6, 2, 2, 3, 9);
    let cells: Vec<(usize, usize)> = lit(&g).iter().map(|&(x, y, _)| (x, y)).collect();
    let mut expected = Vec::new();
    for y in 1..4 {
        for x in 1..4 {
            expected.push((x, y));
        }
    }
    assert_eq!(cells, expected);
    let mut g = vec![vec![0u8; 6]; 6];
    stamp(&mut g, 6, 6, 0, 0, 2, 9);
    assert_eq!(lit(&g), vec![(0, 0, 9)]);
}

#[test]
fn horizontal_edge_spans_its_end_points() {
    let g = rasterize(&vec![Edge::new(0, 1)], &vec![pt(6, 5, 1), pt(1, 5, 1)], 20, 20);
    let expected: Vec<(usize, usize, u8)> = (1..=6).map(|x| (x, 5, 230)).collect();
    assert_eq!(lit(&g), expected);
}

#[test]
fn horizontal_band_is_pen_tall() {
    let g = rasterize(&vec![Edge::new(0, 1)], &vec![pt(50, 100, 1), pt(150, 100, 1)], 300, 300);
    for y in 0..300 {
        for x in 0..300 {
            let inside = (49..=151).contains(&x) && (99..=101).contains(&y);
            assert_eq!(g[y][x] != 0, inside, "cell {x},{y}");
        }
    }
}

#[test]
fn brightness_falls_along_a_receding_edge() {
    let g = rasterize(&vec![Edge::new(0, 1)], &vec![pt(0, 0, 1), pt(9, 0, 4)], 10, 10);
    let row = &g[0];
    assert_eq!(row[0], 230);
    assert_eq!(row[9], 153);
    for x in 0..9 {
        assert!(row[x] >= row[x + 1]);
    }
    assert!(row[0] > row[9]);
}

#[test]
fn diagonal_steps_round_half_up() {
    let g = rasterize(&vec![Edge::new(0, 1)], &vec![pt(0, 0, 1), pt(4, 2, 1)], 8, 8);
    let cells: Vec<(usize, usize)> = lit(&g).iter().map(|&(x, y, _)| (x, y)).collect();
    assert_eq!(cells, vec![(0, 0), (1, 1), (2, 1), (3, 2), (4, 2)]);
    let g = rasterize(&vec![Edge::new(0, 1)], &vec![pt(2, 4, 1), pt(0, 0, 1)], 8, 8);
    let cells: Vec<(usize, usize)> = lit(&g).iter().map(|&(x, y, _)| (x, y)).collect();
    assert_eq!(cells, vec![(0, 0), (0, 1), (1, 2), (1, 3), (2, 4)]);
}

#[test]
fn zero_length_edge_is_one_point() {
    let g = rasterize(&vec![Edge::new(0, 1)], &vec![pt(3, 3, 1), pt(3, 3, 1)], 8, 8);
    assert_eq!(lit(&g), vec![(3, 3, 230)]);
}

#[test]
fn edge_behind_the_camera_is_culled_whole() {
    let points = vec![pt(0, 0, 1), pt(7, 0, 1), pt(7, 7, 0), pt(0, 7, -1)];
    let g = rasterize(&vec![Edge::new(1, 2), Edge::new(2, 3), Edge::new(3, 0)], &points, 8, 8);
    assert!(lit(&g).is_empty());
    let g = rasterize(
        &vec![Edge::new(0, 1), Edge::new(1, 2), Edge::new(3, 0)],
        &points,
        8,
        8,
    );
    let only = rasterize(&vec![Edge::new(0, 1)], &points, 8, 8);
    assert_eq!(g, only);
}

#[test]
fn brighter_wins_in_either_order() {
    let points = vec![pt(0, 3, 1), pt(7, 3, 1), pt(3, 0, 4), pt(3, 7, 4)];
    let near = Edge::new(0, 1);
    let far = Edge::new(2, 3);
    let a = rasterize(&vec![near, far], &points, 8, 8);
    let b = rasterize(&vec![far, near], &points, 8, 8);
    assert_eq!(a, b);
    assert_eq!(a[3][3], 230);
    assert_eq!(a[0][3], 153);
}

#[test]
fn draw_edge_composites_over_existing_cells() {
    let mut g = vec![vec![0u8; 5]; 1];
    g[0][0] = 240;
    g[0][4] = 10;
    draw_edge(&mut g, 5, 1, pt(0, 0, 1), pt(4, 0, 1), 1);
    assert_eq!(g[0], vec![240, 230, 230, 230, 230]);
}

#[test]
fn screen_mapping_centres_the_square() {
    let c = to_screen(0, 0, 7, 1080, 1920);
    assert_eq!((c.x, c.y, c.depth), (540, 960, 7));
    let c = to_screen(FIXED_ONE, -FIXED_ONE, 1, 1080, 1920);
    assert_eq!((c.x, c.y), (1080, 420));
    let c = to_screen(-2 * FIXED_ONE, 0, 1, 1080, 1080);
    assert_eq!(c.x, -540);
    let c = to_screen(-3 * FIXED_ONE / 2 - 1, 0, 1, 100, 100);
    assert_eq!(c.x, -25);
}

#[test]
fn mirror_points_straddle_the_centre() {
    let a = to_screen(21845, 0, 1, 100, 60);
    let b = to_screen(-21845, 0, 1, 100, 60);
    assert_eq!(a.x + b.x, 99);
    let a = to_screen(FIXED_ONE / 2, 0, 1, 100, 60);
    let b = to_screen(-FIXED_ONE / 2, 0, 1, 100, 60);
    assert_eq!((a.x, b.x), (65, 35));
}
