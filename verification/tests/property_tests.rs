// End-to-end properties of the generator: complete coverage, simple
// paths, determinism under a fixed seed, the connectivity oracle, the
// error taxonomy, and the rendering pipeline.

use mazegen::maze::{CellType, Frame, Grid, MazeError};
use mazegen::maze_display::{CellColor, Color, ColoredGrid, Rgb};

fn cell_id(g: &Grid, x: usize, y: usize) -> Option<usize> {
    match g.at((x, y)).unwrap() {
        CellType::Wall => None,
        CellType::Path(n) => Some(n),
    }
}

#[test]
fn test_run_succeeds_and_seed_keeps_id_zero() {
    for (size, seed) in [(2, 0u64), (4, 7), (6, 31), (9, 424242)] {
        let mut g = Grid::new(size, seed).unwrap();
        assert!(g.run().is_ok());
        assert_eq!(g.at((0, 0)).unwrap(), CellType::Path(0));
    }
}

#[test]
fn test_generate_exhausts_frontier() {
    for (size, seed) in [(2, 1u64), (3, 7), (5, 99), (9, 12345)] {
        let mut g = Grid::new(size, seed).unwrap();
        g.run().unwrap();
        assert!(g.clear_cells.is_empty());
        // Every cell is claimed, or is a used-up wall: one that touches
        // at least two committed cells and so left the frontier without
        // ever becoming a path origin.
        for x in 0..size {
            for y in 0..size {
                if cell_id(&g, x, y).is_none() {
                    let claimed = g
                        .collect_neighbours((x, y))
                        .into_iter()
                        .filter(|&(nx, ny)| cell_id(&g, nx, ny).is_some())
                        .count();
                    assert!(claimed >= 2, "unclaimed, unused cell ({x},{y}) size {size}");
                }
            }
        }
    }
}

#[test]
fn test_generate_deterministic() {
    let mut a = Grid::new(9, 42).unwrap();
    let mut b = Grid::new(9, 42).unwrap();
    a.run().unwrap();
    b.run().unwrap();
    assert_eq!(a.cells, b.cells);
    assert_eq!(a.npath, b.npath);
}

#[test]
fn test_generate_seed_scenario() {
    let mut g = Grid::new(4, 7).unwrap();
    g.run().unwrap();
    assert!(g.clear_cells.is_empty());
    let walls = (0..4)
        .flat_map(|x| (0..4).map(move |y| (x, y)))
        .filter(|&(x, y)| cell_id(&g, x, y).is_none())
        .count();
    // The number of distinct path ids and of used-up wall cells recorded
    // for this size and seed.
    assert_eq!((g.npath, walls), (6, 4));
}

#[test]
fn test_paths_are_simple() {
    let size: usize = 9;
    let mut g = Grid::new(size, 1).unwrap();
    g.run().unwrap();
    for id in 0..g.npath {
        let members: Vec<(usize, usize)> = (0..size)
            .flat_map(|x| (0..size).map(move |y| (x, y)))
            .filter(|&(x, y)| cell_id(&g, x, y) == Some(id))
            .collect();
        let n = members.len();
        assert!(n >= 1, "path id {id} has no cells");
        let same_id_neighbours = |x: usize, y: usize| -> Vec<(usize, usize)> {
            g.collect_neighbours((x, y))
                .into_iter()
                .filter(|&(nx, ny)| cell_id(&g, nx, ny) == Some(id))
                .collect()
        };
        // Degree at most two, and exactly n - 1 internal adjacencies.
        let mut degree_sum = 0;
        for &(x, y) in &members {
            let deg = same_id_neighbours(x, y).len();
            assert!(deg <= 2, "cell ({x},{y}) of path {id} touches {deg} cells of its own path");
            degree_sum += deg;
        }
        assert_eq!(degree_sum, 2 * (n - 1), "path {id} is not acyclic");
        // Connected: everything is reachable from the first member.
        let mut seen = vec![members[0]];
        let mut queue = vec![members[0]];
        while let Some((x, y)) = queue.pop() {
            for c in same_id_neighbours(x, y) {
                if !seen.contains(&c) {
                    seen.push(c);
                    queue.push(c);
                }
            }
        }
        assert_eq!(seen.len(), n, "path {id} is not connected");
    }
}

#[test]
fn test_boxed_in_cannot_join() {
    let mut g = Grid::new(9, 0).unwrap();
    // A committed maze far away in the opposite corner.
    g.cells[8 * 9 + 8] = CellType::Path(0);
    // A path in construction walling off the corner around (0,0).
    for cell in [(0, 2), (1, 2), (2, 2), (2, 1), (2, 0)] {
        g.path_in_construction.push(Frame { cell, candidates: Vec::new() });
    }
    assert!(!g.can_join_maze((0, 0)));
    assert!(g.can_join_maze((5, 5)));
}

#[test]
fn test_explorable_excludes_path_and_near_path() {
    let mut g = Grid::new(9, 0).unwrap();
    for cell in [(4, 4), (4, 5), (5, 5)] {
        g.path_in_construction.push(Frame { cell, candidates: Vec::new() });
    }
    for x in 0..9 {
        for y in 0..9 {
            for c in g.explorable_neighbours((x, y)) {
                assert!(!g.in_path(c));
                assert!(!g.near_path(c));
            }
        }
    }
}

#[test]
fn test_seeded_origin_near_maze() {
    let mut g = Grid::new(3, 0).unwrap();
    g.set_origin((0, 0)).unwrap();
    assert_eq!(g.at((0, 0)), Ok(CellType::Path(0)));
    assert!(g.near_maze((0, 1)));
    assert!(!g.near_maze((1, 1)));
}

#[test]
fn test_error_variants() {
    assert_eq!(Grid::new(0, 0).unwrap_err(), MazeError::InvalidSize);
    assert_eq!(Grid::new(1, 0).unwrap_err(), MazeError::InvalidSize);

    let mut g = Grid::new(3, 0).unwrap();
    assert_eq!(g.at((3, 0)).unwrap_err(), MazeError::OutOfBounds);
    assert_eq!(g.at((0, 3)).unwrap_err(), MazeError::OutOfBounds);
    assert_eq!(g.backtrack().unwrap_err(), MazeError::EmptyPath);
    g.new_path_origin((0, 0)).unwrap();
    assert_eq!(g.new_path_origin((1, 1)).unwrap_err(), MazeError::InvalidState);
    g.backtrack().unwrap();

    let mut done = Grid::new(3, 5).unwrap();
    done.run().unwrap();
    assert_eq!(done.new_random_origin().unwrap_err(), MazeError::FrontierExhausted);
}

#[test]
fn test_randab_range() {
    let mut s: u64 = 0xfeed;
    for _ in 0..100 {
        let r = Grid::randab(&mut s, 3, 10);
        assert!((3..10).contains(&r));
    }
    let mut t: u64 = 0xfeed;
    let mut u: u64 = 0xfeed;
    assert_eq!(Grid::randab(&mut t, 0, 23), Grid::randab(&mut u, 0, 23));
}

#[test]
fn test_hexchar_and_cell_rep() {
    assert_eq!(Grid::hexchar(0), '0');
    assert_eq!(Grid::hexchar(10), 'a');
    assert_eq!(Grid::hexchar(15), 'f');
    assert_eq!(Grid::hexchar(21), '5');
    assert_eq!(Grid::cell_rep(CellType::Wall), '.');
    assert_eq!(Grid::cell_rep(CellType::Path(11)), 'b');
}

#[test]
fn test_color_to_rgb() {
    assert_eq!(Color::Lime.to_rgb(), Rgb { r: 118, g: 210, b: 0 });
    assert_eq!(Color::Crayola.to_rgb(), Rgb { r: 24, g: 148, b: 196 });
    assert_eq!(CellColor::White.to_rgb(), Rgb { r: 253, g: 251, b: 249 });
    assert_eq!(CellColor::Black.to_rgb(), Rgb { r: 17, g: 41, b: 58 });
    assert_eq!(CellColor::C(Color::Pacific).to_rgb(), Rgb { r: 23, g: 174, b: 166 });
}

#[test]
fn test_from_grid_colors() {
    let mut g = Grid::new(4, 7).unwrap();
    g.run().unwrap();
    let npath = g.npath;
    let wall_slots: Vec<usize> = (0..4)
        .flat_map(|x| (0..4usize).map(move |y| (x, y)))
        .filter(|&(x, y)| cell_id(&g, x, y).is_none())
        .map(|(x, y)| x * 4 + y)
        .collect();
    let cg = ColoredGrid::from_grid(g);
    assert_eq!(cg.size, 4);
    assert_eq!(cg.cells.len(), 16);
    // The origin path is white, walls are black, every other path shows
    // a palette colour.
    assert_eq!(cg.cells[0], CellColor::White);
    assert!(npath >= 2);
    for idx in 0..16 {
        if wall_slots.contains(&idx) {
            assert_eq!(cg.cells[idx], CellColor::Black);
        } else {
            assert_ne!(cg.cells[idx], CellColor::Black);
        }
    }
    assert!(cg.cells.iter().any(|c| matches!(c, CellColor::C(_))));
}

#[test]
fn test_render_pixels_blocks() {
    let mut g = Grid::new(2, 3).unwrap();
    g.run().unwrap();
    let cg = ColoredGrid::from_grid(g);
    let pixels = cg.render_pixels(10);
    assert_eq!(pixels.len(), 3 * 20 * 20);
    // Pixel (0,0) shows cell (0,0); pixel (10,0) shows cell (1,0).
    let c00 = cg.cells[0].to_rgb();
    let c10 = cg.cells[1 * 2 + 0].to_rgb();
    assert_eq!(pixels[0], c00.r);
    assert_eq!(pixels[1], c00.g);
    assert_eq!(pixels[2], c00.b);
    assert_eq!(pixels[3 * 10 + 0], c10.r);
    assert_eq!(pixels[3 * 10 + 1], c10.g);
    assert_eq!(pixels[3 * 10 + 2], c10.b);
}

#[test]
fn test_render_png_signature() {
    let mut g = Grid::new(2, 3).unwrap();
    g.run().unwrap();
    let cg = ColoredGrid::from_grid(g);
    let png = cg.render_png().unwrap();
    // A PNG stream, not the raw pixel buffer handed back.
    assert_eq!(&png[0..8], &[137u8, 80, 78, 71, 13, 10, 26, 10]);
    assert_ne!(png.len(), 3 * 20 * 20);
}
