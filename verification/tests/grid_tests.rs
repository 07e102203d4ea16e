// Tests of the full engine's grid: the same operations as the core
// tests, plus frontier maintenance and the commit of a finished path.

use mazegen::maze::{CellType, Frame, Grid};

fn fresh() -> Grid {
    Grid::new(9, 0).unwrap()
}

#[test]
fn mod_test_at() {
    let g = fresh();

    assert_eq!(g.at((0, 0)), Ok(CellType::Wall));
}

#[test]
fn mod_test_collect_neighbours() {
    let g = fresh();

    {
        let ns = g.collect_neighbours((0, 0));

        assert_eq!(ns.len(), 2);

        {
            let (x, y) = ns[0];
            assert_eq!(x, 1);
            assert_eq!(y, 0);
        }

        {
            let (x, y) = ns[1];
            assert_eq!(x, 0);
            assert_eq!(y, 1);
        }
    }

    {
        let ns = g.collect_neighbours((1, 1));

        assert_eq!(ns.len(), 4);

        {
            let (x, y) = ns[0];
            assert_eq!(x, 0);
            assert_eq!(y, 1);
        }

        {
            let (x, y) = ns[1];
            assert_eq!(x, 1);
            assert_eq!(y, 0);
        }

        {
            let (x, y) = ns[2];
            assert_eq!(x, 2);
            assert_eq!(y, 1);
        }

        {
            let (x, y) = ns[3];
            assert_eq!(x, 1);
            assert_eq!(y, 2);
        }
    }
}

#[test]
fn mod_test_near_maze() {
    let mut g = fresh();

    g.cells[0] = CellType::Path(0);

    assert!(g.near_maze((0, 1)));
    assert!(!g.near_maze((1, 1)));
}

#[test]
fn mod_test_in_path() {
    let mut g = fresh();

    let v = Vec::new();
    g.path_in_construction.push(Frame { cell: (0, 0), candidates: v });

    assert!(g.in_path((0, 0)));
    assert!(!g.in_path((1, 1)));
}

#[test]
fn mod_test_near_path() {
    let mut g = fresh();

    let v = Vec::new();
    g.path_in_construction.push(Frame { cell: (0, 0), candidates: v });

    assert!(g.near_path((1, 0)));
    assert!(!g.near_path((1, 1)));
}

#[test]
fn mod_test_explorable_neighbours() {
    let mut g = fresh();

    let v1 = Vec::new();
    let v2 = Vec::new();
    g.path_in_construction.push(Frame { cell: (0, 0), candidates: v1 });
    g.path_in_construction.push(Frame { cell: (0, 1), candidates: v2 });

    let ns = g.explorable_neighbours((1, 1));

    assert_eq!(ns.len(), 2);
}

#[test]
fn mod_test_add_cell_to_path() {
    let mut g = fresh();

    let v1 = Vec::new();
    let v2 = Vec::new();
    g.path_in_construction.push(Frame { cell: (0, 0), candidates: v1 });
    g.path_in_construction.push(Frame { cell: (0, 1), candidates: v2 });

    assert_eq!(g.path_in_construction.len(), 2);

    g.add_cell_to_path((1, 1));

    assert_eq!(g.path_in_construction.len(), 3);
}

#[test]
fn mod_test_new_path_origin() {
    let mut g = fresh();

    assert_eq!(g.path_in_construction.len(), 0);

    g.new_path_origin((0, 0)).unwrap();
    assert_eq!(g.path_in_construction.len(), 1);
}

#[test]
fn mod_test_extend_path_1() {
    let mut g = fresh();

    // A distant committed cell, so that the connectivity oracle lets the
    // origin's two candidates pass.
    g.cells[8 * 9 + 8] = CellType::Path(0);

    g.new_path_origin((0, 0)).unwrap();
    g.extend_path();

    assert_eq!(g.path_in_construction.len(), 2);

    let cs = g.path_in_construction[1].cell;

    assert_eq!(cs.0 + cs.1, 1);
}

#[test]
fn mod_test_extend_path_2() {
    let mut g = fresh();

    let v1 = Vec::new();
    g.path_in_construction.push(Frame { cell: (0, 0), candidates: v1 });

    assert!(!g.extend_path());
}

#[test]
fn mod_test_new_path() {
    let mut g = fresh();

    g.cells[1 * 9 + 1] = CellType::Path(0);

    g.new_path((0, 0)).unwrap();

    assert_eq!(g.path_in_construction.len(), 2);
}

#[test]
fn test_update_clear_cells() {
    let mut g = fresh();

    g.new_path_origin((0, 0)).unwrap();

    assert!(g.clear_cells.contains(&(0, 0)));
    assert!(g.clear_cells.contains(&(0, 1)));
    assert!(g.clear_cells.contains(&(1, 0)));

    g.update_clear_cells();

    // The path cell itself leaves the frontier. Its neighbours stay: no
    // cell is committed yet, so none of them touches more than one
    // claimed cell.
    assert!(!g.clear_cells.contains(&(0, 0)));
    assert!(g.clear_cells.contains(&(0, 1)));
    assert!(g.clear_cells.contains(&(1, 0)));
}

#[test]
fn test_commit_path() {
    let mut g = fresh();

    g.cells[1 * 9 + 1] = CellType::Path(0);

    g.add_cell_to_path((0, 0));
    g.add_cell_to_path((0, 1));

    g.commit_path();

    assert_eq!(g.at((0, 0)), Ok(CellType::Path(0)));
    assert_eq!(g.at((0, 1)), Ok(CellType::Path(0)));
}
