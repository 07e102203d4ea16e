// Tests of the core grid operations: lookups, neighbourhoods, the path
// predicates, and single growth steps.

use mazegen::maze::{CellType, Frame, Grid};

fn fresh() -> Grid {
    Grid::new(9, 0).unwrap()
}

#[test]
fn maze_test_at() {
    let g = fresh();

    assert_eq!(g.at((0, 0)), Ok(CellType::Wall));
}

#[test]
fn maze_test_collect_neighbours() {
    let g = fresh();

    {
        let ns = g.collect_neighbours((0, 0));

        assert_eq!(ns.len(), 2);

        {
            let (x, y) = ns[0];
            assert_eq!(x, 1);
            assert_eq!(y, 0);
        }

        {
            let (x, y) = ns[1];
            assert_eq!(x, 0);
            assert_eq!(y, 1);
        }
    }

    {
        let ns = g.collect_neighbours((1, 1));

        assert_eq!(ns.len(), 4);

        {
            let (x, y) = ns[0];
            assert_eq!(x, 0);
            assert_eq!(y, 1);
        }

        {
            let (x, y) = ns[1];
            assert_eq!(x, 1);
            assert_eq!(y, 0);
        }

        {
            let (x, y) = ns[2];
            assert_eq!(x, 2);
            assert_eq!(y, 1);
        }

        {
            let (x, y) = ns[3];
            assert_eq!(x, 1);
            assert_eq!(y, 2);
        }
    }
}

#[test]
fn maze_test_near_maze() {
    let mut g = fresh();

    g.cells[0] = CellType::Path(0);

    assert!(g.near_maze((0, 1)));
    assert!(!g.near_maze((1, 1)));
}

#[test]
fn maze_test_in_path() {
    let mut g = fresh();

    let v = Vec::new();
    g.path_in_construction.push(Frame { cell: (0, 0), candidates: v });

    assert!(g.in_path((0, 0)));
    assert!(!g.in_path((1, 1)));
}

#[test]
fn maze_test_near_path() {
    let mut g = fresh();

    let v = Vec::new();
    g.path_in_construction.push(Frame { cell: (0, 0), candidates: v });

    assert!(g.near_path((1, 0)));
    assert!(!g.near_path((1, 1)));
}

#[test]
fn maze_test_explorable_neighbours() {
    let mut g = fresh();

    let v1 = Vec::new();
    let v2 = Vec::new();
    g.path_in_construction.push(Frame { cell: (0, 0), candidates: v1 });
    g.path_in_construction.push(Frame { cell: (0, 1), candidates: v2 });

    let ns = g.explorable_neighbours((1, 1));

    assert_eq!(ns.len(), 2);
}

#[test]
fn maze_test_add_cell_to_path() {
    let mut g = fresh();

    let v1 = Vec::new();
    let v2 = Vec::new();
    g.path_in_construction.push(Frame { cell: (0, 0), candidates: v1 });
    g.path_in_construction.push(Frame { cell: (0, 1), candidates: v2 });

    assert_eq!(g.path_in_construction.len(), 2);

    g.add_cell_to_path((1, 1));

    assert_eq!(g.path_in_construction.len(), 3);
}

#[test]
fn maze_test_new_path_origin() {
    let mut g = fresh();

    assert_eq!(g.path_in_construction.len(), 0);

    g.new_path_origin((0, 0)).unwrap();
    assert_eq!(g.path_in_construction.len(), 1);
}

#[test]
fn maze_test_extend_path_1() {
    let mut g = fresh();

    // A distant committed cell, so that the connectivity oracle lets the
    // origin's two candidates pass.
    g.cells[8 * 9 + 8] = CellType::Path(0);

    g.new_path_origin((0, 0)).unwrap();
    g.extend_path();

    assert_eq!(g.path_in_construction.len(), 2);

    let cs = g.path_in_construction[1].cell;

    assert_eq!(cs.0 + cs.1, 1);
}

#[test]
fn maze_test_extend_path_2() {
    let mut g = fresh();

    let v1 = Vec::new();
    g.path_in_construction.push(Frame { cell: (0, 0), candidates: v1 });

    assert!(!g.extend_path());
}

#[test]
fn maze_test_new_path() {
    let mut g = fresh();

    g.cells[1 * 9 + 1] = CellType::Path(0);

    g.new_path((0, 0)).unwrap();

    assert_eq!(g.path_in_construction.len(), 2);
}
