//! Core maze-generation engine: a square grid that grows random simple
//! paths from frontier cells until every cell belongs to the maze.

use vstd::prelude::*;

verus! {

broadcast use
    vstd::seq_lib::group_seq_properties,
    vstd::seq_lib::group_filter_ensures;

/// A grid cell: either still untouched wall, or claimed by the path with
/// the given id (id 0 is the seed cell of the maze).
#[derive(Clone, Copy, Debug, PartialEq, Eq, Structural)]
pub enum CellType {
    Wall,
    Path(usize),
}

/// Errors of the generation engine. All but `FrontierExhausted` signal a
/// broken internal invariant; `FrontierExhausted` is the normal signal that
/// no origin for a further path is left.
#[derive(Clone, Copy, Debug, PartialEq, Eq, Structural)]
pub enum MazeError {
    OutOfBounds,
    InvalidState,
    EmptyPath,
    FrontierExhausted,
    InvalidSize,
}

/// One frame of the backtracking stack: a cell of the path in construction
/// together with the coordinates still eligible to extend the path from it.
#[derive(Debug)]
pub struct Frame {
    pub cell: (usize, usize),
    pub candidates: Vec<(usize, usize)>,
}

/// The grid owns the cell matrix (row-major, `x * size + y`), the path in
/// construction, the frontier of cells still usable as path origins, the
/// count of committed paths, and the state of the deterministic random
/// number generator that drives all random choices.
#[derive(Debug)]
pub struct Grid {
    pub cells: Vec<CellType>,
    pub path_in_construction: Vec<Frame>,
    pub clear_cells: Vec<(usize, usize)>,
    pub npath: usize,
    pub size: usize,
    pub rng: u64,
}

/// Largest accepted side length: keeps every index computation,
/// including those of the renderer, far away from overflow.
pub const MAX_SIZE: usize = 4096;

pub open spec fn in_bounds(c: (usize, usize), size: nat) -> bool {
    c.0 < size && c.1 < size
}

/// The in-bounds 4-neighbourhood of `c`, in the fixed order
/// left, up, right, down.
pub open spec fn neighbors_seq(c: (usize, usize), size: nat) -> Seq<(usize, usize)> {
    let x = c.0;
    let y = c.1;
    (if x > 0 { seq![(((x - 1) as usize), y)] } else { Seq::empty() })
    + (if y > 0 { seq![(x, ((y - 1) as usize))] } else { Seq::empty() })
    + (if x + 1 < size { seq![(((x + 1) as usize), y)] } else { Seq::empty() })
    + (if y + 1 < size { seq![(x, ((y + 1) as usize))] } else { Seq::empty() })
}

impl Grid {
    pub open spec fn spec_size(self) -> nat {
        self.size as nat
    }

    pub open spec fn spec_npath(self) -> nat {
        self.npath as nat
    }

    pub open spec fn spec_rng(self) -> u64 {
        self.rng
    }

    pub open spec fn cell_at(self, c: (usize, usize)) -> CellType {
        self.cells@[c.0 * self.spec_size() + c.1]
    }

    pub open spec fn frames(self) -> Seq<Frame> {
        self.path_in_construction@
    }

    /// The coordinates of the path in construction, in stack order.
    pub open spec fn path_cells(self) -> Seq<(usize, usize)> {
        Seq::new(self.frames().len(), |i: int| self.frames()[i].cell)
    }

    pub open spec fn clear(self) -> Seq<(usize, usize)> {
        self.clear_cells@
    }

    /// Well-formedness: sizes agree, every stored coordinate is in bounds,
    /// the frontier has no duplicates, the path is a sequence of pairwise
    /// distinct cells, and the candidates of a frame avoid every path cell
    /// up to and including that frame's own.
    pub open spec fn wf(self) -> bool {
        &&& 2 <= self.spec_size() <= MAX_SIZE
        &&& self.cells@.len() == self.spec_size() * self.spec_size()
        &&& forall|j: int| 0 <= j < self.clear().len() ==> in_bounds(#[trigger] self.clear()[j], self.spec_size())
        &&& self.clear().no_duplicates()
        &&& self.path_cells().no_duplicates()
        &&& self.frames().len() <= self.spec_size() * self.spec_size()
        &&& forall|i: int| 0 <= i < self.frames().len() ==> in_bounds(#[trigger] self.frames()[i].cell, self.spec_size())
        &&& forall|i: int| 0 <= i < self.frames().len() ==> (#[trigger] self.frames()[i]).candidates@.len() <= 4
        &&& forall|i: int, k: int|
                0 <= i < self.frames().len() && 0 <= k < self.frames()[i].candidates@.len()
                ==> in_bounds(#[trigger] self.frames()[i].candidates@[k], self.spec_size())
        &&& forall|i: int, k: int|
                0 <= i < self.frames().len() && 0 <= k < self.frames()[i].candidates@.len()
                ==> !self.path_cells().subrange(0, i + 1).contains(#[trigger] self.frames()[i].candidates@[k])
        &&& forall|i: int| 1 <= i < self.frames().len()
                ==> neighbors_seq(self.frames()[i - 1].cell, self.spec_size())
                        .contains((#[trigger] self.frames()[i]).cell)
        &&& forall|i: int, j: int| 0 <= j < i - 1 && i < self.frames().len()
                ==> !neighbors_seq((#[trigger] self.frames()[j]).cell, self.spec_size())
                        .contains((#[trigger] self.frames()[i]).cell)
        &&& forall|i: int, k: int|
                0 <= i < self.frames().len() && 0 <= k < self.frames()[i].candidates@.len()
                ==> neighbors_seq(self.frames()[i].cell, self.spec_size())
                        .contains(#[trigger] self.frames()[i].candidates@[k])
        &&& forall|i: int, j: int, k: int|
                0 <= j < i < self.frames().len() && 0 <= k < self.frames()[i].candidates@.len()
                ==> !neighbors_seq((#[trigger] self.frames()[j]).cell, self.spec_size())
                        .contains(#[trigger] self.frames()[i].candidates@[k])
    }

    /// Builds an all-wall grid whose frontier holds every coordinate.
    /// Rejects degenerate sizes, as no maze fits a line or a point.
    pub fn new(size: usize, seed: u64) -> (r: Result<Grid, MazeError>)
        requires
            size <= MAX_SIZE,
        ensures
            size < 2 <==> r is Err,
            r is Err ==> r->Err_0 == MazeError::InvalidSize,
            r is Ok ==> {
                let g = r->Ok_0;
                &&& g.wf()
                &&& g.spec_size() == size
                &&& g.spec_npath() == 0
                &&& g.frames().len() == 0
                &&& g.spec_rng() == seed
                &&& forall|c: (usize, usize)| in_bounds(c, size as nat) ==> #[trigger] g.cell_at(c) == CellType::Wall
                &&& forall|c: (usize, usize)| g.clear().contains(c) <==> in_bounds(c, size as nat)
            },
    {
        if size < 2 {
            return Err(MazeError::InvalidSize);
        }
        proof {
            assert(size * size <= MAX_SIZE * MAX_SIZE) by (nonlinear_arith)
                requires size <= MAX_SIZE;
        }
        let n = size * size;
        let cells: Vec<CellType> = vec![CellType::Wall; n];
        let mut clear_cells: Vec<(usize, usize)> = Vec::new();
        let mut x: usize = 0;
        while x < size
            invariant
                x <= size,
                2 <= size <= MAX_SIZE,
                clear_cells@.len() == x * size,
                forall|j: int| 0 <= j < clear_cells@.len()
                    ==> (#[trigger] clear_cells@[j]).0 < x && clear_cells@[j].1 < size,
                forall|j: int| 0 <= j < clear_cells@.len()
                    ==> clear_cells@[j].0 * size + clear_cells@[j].1 == j,
                forall|c: (usize, usize)| #[trigger] clear_cells@.contains(c) <==> (c.0 < x && c.1 < size),
            decreases size - x,
        {
            let mut y: usize = 0;
            while y < size
                invariant
                    x < size,
                    y <= size,
                    2 <= size <= MAX_SIZE,
                    clear_cells@.len() == x * size + y,
                    forall|j: int| 0 <= j < clear_cells@.len()
                        ==> (#[trigger] clear_cells@[j]).0 <= x && clear_cells@[j].1 < size,
                    forall|j: int| 0 <= j < clear_cells@.len()
                        ==> clear_cells@[j].0 * size + clear_cells@[j].1 == j,
                    forall|c: (usize, usize)| #[trigger] clear_cells@.contains(c)
                        <==> (c.0 < x && c.1 < size) || (c.0 == x && c.1 < y),
                decreases size - y,
            {
                proof {
                    assert(x * size + y < size * size) by (nonlinear_arith)
                        requires x < size, y < size;
                    assert(forall|j: int| 0 <= j < clear_cells@.len()
                        ==> #[trigger] clear_cells@[j] != (x, y));
                }
                clear_cells.push((x, y));
                y = y + 1;
            }
            proof {
                assert((x + 1) * size == x * size + size) by (nonlinear_arith);
            }
            x = x + 1;
        }
        proof {
            lemma_index_distinct_implies_no_duplicates(clear_cells@, size as nat);
            assert forall|c: (usize, usize)| in_bounds(c, size as nat)
                implies 0 <= c.0 * (size as int) + c.1 < size * size by {
                lemma_row_major(c.0 as int, c.1 as int, size as int);
            }
        }
        Ok(Grid {
            cells,
            path_in_construction: Vec::new(),
            clear_cells,
            npath: 0,
            size,
            rng: seed,
        })
    }

    /// Read-only cell lookup; reports `OutOfBounds` for a coordinate
    /// outside the grid instead of touching memory it does not own.
    pub fn at(&self, coords: (usize, usize)) -> (r: Result<CellType, MazeError>)
        requires
            self.wf(),
        ensures
            r is Ok <==> in_bounds(coords, self.spec_size()),
            r is Err ==> r->Err_0 == MazeError::OutOfBounds,
            r is Ok ==> r->Ok_0 == self.cell_at(coords),
    {
        let (x, y) = coords;
        if x < self.size && y < self.size {
            proof {
                assert(x * self.spec_size() + y < self.spec_size() * self.spec_size()
                    && self.spec_size() * self.spec_size() <= MAX_SIZE * MAX_SIZE) by (nonlinear_arith)
                    requires x < self.spec_size(), y < self.spec_size(), self.spec_size() <= MAX_SIZE;
            }
            Ok(self.cells[x * self.size + y])
        } else {
            Err(MazeError::OutOfBounds)
        }
    }

    /// In-bounds cell lookup for callers that already know the coordinate
    /// is on the grid.
    pub fn cell(&self, coords: (usize, usize)) -> (r: CellType)
        requires
            self.wf(),
            in_bounds(coords, self.spec_size()),
        ensures
            r == self.cell_at(coords),
    {
        proof {
            assert(coords.0 * self.spec_size() + coords.1 < self.spec_size() * self.spec_size()
                && self.spec_size() * self.spec_size() <= MAX_SIZE * MAX_SIZE) by (nonlinear_arith)
                requires coords.0 < self.spec_size(), coords.1 < self.spec_size(), self.spec_size() <= MAX_SIZE;
        }
        self.cells[coords.0 * self.size + coords.1]
    }

    /// The in-bounds neighbours of `coords`, in the order left, up,
    /// right, down.
    pub fn collect_neighbours(&self, coords: (usize, usize)) -> (r: Vec<(usize, usize)>)
        requires
            self.wf(),
            in_bounds(coords, self.spec_size()),
        ensures
            r@ == neighbors_seq(coords, self.spec_size()),
    {
        let mut neighbours: Vec<(usize, usize)> = Vec::with_capacity(4);
        let (x, y) = coords;
        if x > 0 {
            neighbours.push((x - 1, y));
        }
        if y > 0 {
            neighbours.push((x, y - 1));
        }
        if x + 1 < self.size {
            neighbours.push((x + 1, y));
        }
        if y + 1 < self.size {
            neighbours.push((x, y + 1));
        }
        proof {
            assert(neighbours@ =~= neighbors_seq(coords, self.spec_size()));
        }
        neighbours
    }
}

impl Grid {
    /// A cell claimed by a committed path.
    pub open spec fn claimed(self, c: (usize, usize)) -> bool {
        self.cell_at(c) is Path
    }

    /// Some neighbour of `c` belongs to the committed maze.
    pub open spec fn near_maze_s(self, c: (usize, usize)) -> bool {
        exists|i: int| 0 <= i < neighbors_seq(c, self.spec_size()).len()
            && self.claimed(#[trigger] neighbors_seq(c, self.spec_size())[i])
    }

    /// `c` is a cell of the path in construction.
    pub open spec fn in_path_s(self, c: (usize, usize)) -> bool {
        self.path_cells().contains(c)
    }

    /// Some neighbour of `c` is a cell of the path in construction.
    pub open spec fn near_path_s(self, c: (usize, usize)) -> bool {
        exists|i: int| 0 <= i < neighbors_seq(c, self.spec_size()).len()
            && self.in_path_s(#[trigger] neighbors_seq(c, self.spec_size())[i])
    }

    /// How many cells of `s` are claimed by a committed path.
    pub open spec fn claimed_count(self, s: Seq<(usize, usize)>) -> nat
        decreases s.len(),
    {
        if s.len() == 0 {
            0
        } else {
            self.claimed_count(s.drop_last()) + (if self.claimed(s.last()) { 1nat } else { 0nat })
        }
    }

    /// More than one neighbour of `c` belongs to the committed maze.
    pub open spec fn near_several_maze_s(self, c: (usize, usize)) -> bool {
        self.claimed_count(neighbors_seq(c, self.spec_size())) > 1
    }

    /// A coordinate the path may still grow into: neither on the path in
    /// construction nor adjacent to it.
    pub open spec fn explorable_ok(self, n: (usize, usize)) -> bool {
        !self.in_path_s(n) && !self.near_path_s(n)
    }

    /// The neighbours of `c` that the path may grow into, in neighbour
    /// order.
    pub open spec fn explorable_seq(self, c: (usize, usize)) -> Seq<(usize, usize)> {
        neighbors_seq(c, self.spec_size()).filter(|n: (usize, usize)| self.explorable_ok(n))
    }

    /// True iff some neighbour of `coords` is claimed by a committed path.
    pub fn near_maze(&self, coords: (usize, usize)) -> (r: bool)
        requires
            self.wf(),
            in_bounds(coords, self.spec_size()),
        ensures
            r == self.near_maze_s(coords),
    {
        let neighbours = self.collect_neighbours(coords);
        let mut i: usize = 0;
        while i < neighbours.len()
            invariant
                self.wf(),
                in_bounds(coords, self.spec_size()),
                neighbours@ == neighbors_seq(coords, self.spec_size()),
                i <= neighbours@.len(),
                forall|j: int| 0 <= j < i ==> !self.claimed(#[trigger] neighbours@[j]),
            decreases neighbours@.len() - i,
        {
            proof {
                lemma_neighbors_props(coords, self.spec_size());
            }
            match self.cell(neighbours[i]) {
                CellType::Path(_) => {
                    return true;
                },
                CellType::Wall => {},
            }
            i = i + 1;
        }
        false
    }

    /// True iff `coords` is a cell of the path in construction.
    pub fn in_path(&self, coords: (usize, usize)) -> (r: bool)
        requires
            self.wf(),
        ensures
            r == self.in_path_s(coords),
    {
        let mut i: usize = 0;
        while i < self.path_in_construction.len()
            invariant
                forall|j: int| 0 <= j < i ==> (#[trigger] self.frames()[j]).cell != coords,
                i <= self.frames().len(),
            decreases self.frames().len() - i,
        {
            let (cx, cy) = self.path_in_construction[i].cell;
            if cx == coords.0 && cy == coords.1 {
                assert(self.path_cells()[i as int] == coords);
                return true;
            }
            i = i + 1;
        }
        proof {
            assert forall|j: int| 0 <= j < self.path_cells().len()
                implies self.path_cells()[j] != coords by {
                assert(self.frames()[j].cell != coords);
            }
        }
        false
    }

    /// True iff at least one neighbour of `coords` is on the path in
    /// construction.
    pub fn near_path(&self, coords: (usize, usize)) -> (r: bool)
        requires
            self.wf(),
            in_bounds(coords, self.spec_size()),
        ensures
            r == self.near_path_s(coords),
    {
        let neighbours = self.collect_neighbours(coords);
        let mut count: usize = 0;
        let mut i: usize = 0;
        while i < neighbours.len()
            invariant
                self.wf(),
                neighbours@ == neighbors_seq(coords, self.spec_size()),
                i <= neighbours@.len(),
                count <= i,
                count > 0 <==> exists|j: int| 0 <= j < i && self.in_path_s(#[trigger] neighbours@[j]),
            decreases neighbours@.len() - i,
        {
            if self.in_path(neighbours[i]) {
                count = count + 1;
            }
            i = i + 1;
        }
        count > 0
    }

    /// True iff more than one neighbour of `coords` is claimed; used only
    /// to shrink the frontier after a commit.
    pub fn near_several_maze(&self, coords: (usize, usize)) -> (r: bool)
        requires
            self.wf(),
            in_bounds(coords, self.spec_size()),
        ensures
            r == self.near_several_maze_s(coords),
    {
        let neighbours = self.collect_neighbours(coords);
        let mut count: usize = 0;
        let mut i: usize = 0;
        while i < neighbours.len()
            invariant
                self.wf(),
                in_bounds(coords, self.spec_size()),
                neighbours@ == neighbors_seq(coords, self.spec_size()),
                i <= neighbours@.len(),
                count <= i,
                count == self.claimed_count(neighbours@.subrange(0, i as int)),
            decreases neighbours@.len() - i,
        {
            proof {
                lemma_neighbors_props(coords, self.spec_size());
                let pre = neighbours@.subrange(0, i as int);
                let ext = neighbours@.subrange(0, i + 1);
                assert(ext.drop_last() =~= pre);
                assert(ext.last() == neighbours@[i as int]);
            }
            match self.cell(neighbours[i]) {
                CellType::Wall => {},
                CellType::Path(_) => {
                    count = count + 1;
                },
            }
            i = i + 1;
        }
        proof {
            assert(neighbours@.subrange(0, neighbours@.len() as int) =~= neighbours@);
        }
        count > 1
    }

    /// The neighbours of `coords` still eligible to extend the path:
    /// never a coordinate that is on the path or adjacent to it.
    pub fn explorable_neighbours(&self, coords: (usize, usize)) -> (r: Vec<(usize, usize)>)
        requires
            self.wf(),
            in_bounds(coords, self.spec_size()),
        ensures
            r@ == self.explorable_seq(coords),
            r@.len() <= 4,
            forall|k: int| 0 <= k < r@.len() ==> !self.in_path_s(#[trigger] r@[k]) && !self.near_path_s(r@[k]),
            forall|k: int| 0 <= k < r@.len() ==> neighbors_seq(coords, self.spec_size()).contains(#[trigger] r@[k]),
    {
        let neighbours = self.collect_neighbours(coords);
        let mut explorable: Vec<(usize, usize)> = Vec::with_capacity(4);
        let mut i: usize = 0;
        proof {
            lemma_neighbors_props(coords, self.spec_size());
        }
        while i < neighbours.len()
            invariant
                self.wf(),
                in_bounds(coords, self.spec_size()),
                neighbours@ == neighbors_seq(coords, self.spec_size()),
                neighbours@.len() <= 4,
                forall|j: int| 0 <= j < neighbours@.len() ==> in_bounds(#[trigger] neighbours@[j], self.spec_size()),
                i <= neighbours@.len(),
                explorable@ == neighbours@.subrange(0, i as int).filter(|n: (usize, usize)| self.explorable_ok(n)),
                forall|k: int| 0 <= k < explorable@.len()
                    ==> !self.in_path_s(#[trigger] explorable@[k]) && !self.near_path_s(explorable@[k]),
                forall|k: int| 0 <= k < explorable@.len() ==> neighbours@.contains(#[trigger] explorable@[k]),
            decreases neighbours@.len() - i,
        {
            proof {
                assert(neighbours@.subrange(0, i + 1) =~= neighbours@.subrange(0, i as int).push(neighbours@[i as int]));
                neighbours@.subrange(0, i as int).lemma_filter_push(neighbours@[i as int], |n: (usize, usize)| self.explorable_ok(n));
            }
            let cs = neighbours[i];
            if !(self.in_path(cs) || self.near_path(cs)) {
                explorable.push(cs);
            }
            i = i + 1;
        }
        proof {
            assert(neighbours@.subrange(0, neighbours@.len() as int) =~= neighbours@);
            assert(explorable@.len() <= neighbours@.len()) by {
                lemma_filter_len_le(neighbours@, |n: (usize, usize)| self.explorable_ok(n));
            }
        }
        explorable
    }
}

/// A filtered sequence is never longer than the sequence itself.
proof fn lemma_filter_len_le<A>(s: Seq<A>, p: spec_fn(A) -> bool)
    ensures
        s.filter(p).len() <= s.len(),
    decreases s.len(),
{
    if s.len() > 0 {
        lemma_filter_len_le(s.drop_last(), p);
        assert(s =~= s.drop_last().push(s.last()));
        s.drop_last().lemma_filter_push(s.last(), p);
    }
}

/// Two cells of the grid that share an edge.
pub open spec fn adjacent(a: (usize, usize), b: (usize, usize)) -> bool {
    ||| a.0 == b.0 && (a.1 + 1 == b.1 || b.1 + 1 == a.1)
    ||| a.1 == b.1 && (a.0 + 1 == b.0 || b.0 + 1 == a.0)
}

/// For in-bounds cells, membership in the neighbour list is exactly
/// grid adjacency; in particular it is symmetric.
pub proof fn lemma_neighbors_contains_iff(a: (usize, usize), b: (usize, usize), size: nat)
    requires
        in_bounds(a, size),
        in_bounds(b, size),
        size <= MAX_SIZE,
    ensures
        neighbors_seq(a, size).contains(b) == adjacent(a, b),
{
    let x = a.0;
    let y = a.1;
    let left = if x > 0 { seq![(((x - 1) as usize), y)] } else { Seq::<(usize, usize)>::empty() };
    let up = if y > 0 { seq![(x, ((y - 1) as usize))] } else { Seq::<(usize, usize)>::empty() };
    let right = if x + 1 < size { seq![(((x + 1) as usize), y)] } else { Seq::<(usize, usize)>::empty() };
    let down = if y + 1 < size { seq![(x, ((y + 1) as usize))] } else { Seq::<(usize, usize)>::empty() };
    let ns = neighbors_seq(a, size);
    assert(ns == left + up + right + down);
    if ns.contains(b) {
        assert(left.contains(b) || up.contains(b) || right.contains(b) || down.contains(b));
        assert(left.contains(b) ==> b == left[0]);
        assert(up.contains(b) ==> b == up[0]);
        assert(right.contains(b) ==> b == right[0]);
        assert(down.contains(b) ==> b == down[0]);
        assert(adjacent(a, b));
    }
    if adjacent(a, b) {
        if a.1 == b.1 && b.0 + 1 == a.0 {
            assert(left[0] == b);
            assert(left.contains(b));
        } else if a.1 == b.1 && a.0 + 1 == b.0 {
            assert(right[0] == b);
            assert(right.contains(b));
        } else if a.0 == b.0 && b.1 + 1 == a.1 {
            assert(up[0] == b);
            assert(up.contains(b));
        } else {
            assert(down[0] == b);
            assert(down.contains(b));
        }
        assert(ns.contains(b));
    }
}

/// Law: the path in construction is a simple path through the grid.
/// Its cells are pairwise distinct, consecutive cells share an edge, no
/// two non-consecutive cells do — and `commit_path` stamps exactly these
/// cells with one path id.
pub proof fn lemma_path_in_construction_simple(g: Grid)
    requires
        g.wf(),
    ensures
        g.path_cells().no_duplicates(),
        forall|i: int| 1 <= i < g.path_cells().len()
            ==> adjacent(g.path_cells()[i - 1], #[trigger] g.path_cells()[i]),
        forall|i: int, j: int|
            0 <= i < g.path_cells().len() && 0 <= j < g.path_cells().len()
            && (i - j > 1 || j - i > 1)
            ==> !adjacent(#[trigger] g.path_cells()[i], #[trigger] g.path_cells()[j]),
{
    assert forall|i: int| 1 <= i < g.path_cells().len()
        implies adjacent(g.path_cells()[i - 1], #[trigger] g.path_cells()[i]) by {
        assert(neighbors_seq(g.frames()[i - 1].cell, g.spec_size()).contains(g.frames()[i].cell));
        lemma_neighbors_contains_iff(g.frames()[i - 1].cell, g.frames()[i].cell, g.spec_size());
    }
    assert forall|i: int, j: int|
        0 <= i < g.path_cells().len() && 0 <= j < g.path_cells().len()
        && (i - j > 1 || j - i > 1)
        implies !adjacent(#[trigger] g.path_cells()[i], #[trigger] g.path_cells()[j]) by {
        if j < i - 1 {
            assert(!neighbors_seq(g.frames()[j].cell, g.spec_size()).contains(g.frames()[i].cell));
            lemma_neighbors_contains_iff(g.frames()[j].cell, g.frames()[i].cell, g.spec_size());
        } else {
            assert(!neighbors_seq(g.frames()[i].cell, g.spec_size()).contains(g.frames()[j].cell));
            lemma_neighbors_contains_iff(g.frames()[i].cell, g.frames()[j].cell, g.spec_size());
        }
    }
}

/// Shape of the neighbourhood: at most four cells, all in bounds, none
/// equal to the centre.
pub proof fn lemma_neighbors_props(c: (usize, usize), size: nat)
    requires
        in_bounds(c, size),
        size <= MAX_SIZE,
    ensures
        neighbors_seq(c, size).len() <= 4,
        forall|i: int| 0 <= i < neighbors_seq(c, size).len()
            ==> in_bounds(#[trigger] neighbors_seq(c, size)[i], size),
        forall|i: int| 0 <= i < neighbors_seq(c, size).len()
            ==> (#[trigger] neighbors_seq(c, size)[i]) != c,
{
    let x = c.0;
    let y = c.1;
    let left = if x > 0 { seq![(((x - 1) as usize), y)] } else { Seq::<(usize, usize)>::empty() };
    let up = if y > 0 { seq![(x, ((y - 1) as usize))] } else { Seq::<(usize, usize)>::empty() };
    let right = if x + 1 < size { seq![(((x + 1) as usize), y)] } else { Seq::<(usize, usize)>::empty() };
    let down = if y + 1 < size { seq![(x, ((y + 1) as usize))] } else { Seq::<(usize, usize)>::empty() };
    let ns = neighbors_seq(c, size);
    assert(ns == left + up + right + down);
    if x > 0 {
        assert(((x - 1) as usize) as int == x - 1);
        assert(left[0] != c);
    }
    if y > 0 {
        assert(((y - 1) as usize) as int == y - 1);
        assert(up[0] != c);
    }
    if x + 1 < size {
        assert(((x + 1) as usize) as int == x + 1);
        assert(right[0] != c);
    }
    if y + 1 < size {
        assert(((y + 1) as usize) as int == y + 1);
        assert(down[0] != c);
    }
    assert forall|i: int| 0 <= i < ns.len() implies (#[trigger] ns[i]) != c by {
        let v = ns[i];
        assert(ns.contains(v));
        assert(left.contains(v) || up.contains(v) || right.contains(v) || down.contains(v));
        assert(left.contains(v) ==> v == left[0]);
        assert(up.contains(v) ==> v == up[0]);
        assert(right.contains(v) ==> v == right[0]);
        assert(down.contains(v) ==> v == down[0]);
    }
}

/// One step of the xorshift generator that drives every random choice;
/// generation is a pure function of the construction seed.
pub open spec fn rng_next(s: u64) -> u64 {
    let a = s ^ (s << 13);
    let b = a ^ (a >> 7);
    b ^ (b << 17)
}

/// The value `randab` draws from state `s` for the half-open range
/// `[a, b)`.
pub open spec fn spec_randab(s: u64, a: int, b: int) -> int
    recommends
        a < b,
{
    a + (rng_next(s) as int) % (b - a)
}

impl Grid {
    /// Advances the generator state and returns a pseudo-random value in
    /// `[a, b)`.
    pub fn randab(rng: &mut u64, a: usize, b: usize) -> (r: usize)
        requires
            a < b,
        ensures
            *final(rng) == rng_next(*old(rng)),
            r == spec_randab(*old(rng), a as int, b as int),
            a <= r < b,
    {
        let s = *rng;
        let s1 = s ^ (s << 13);
        let s2 = s1 ^ (s1 >> 7);
        let s3 = s2 ^ (s2 << 17);
        *rng = s3;
        let span = b - a;
        let m = s3 % (span as u64);
        assert(m < span as u64);
        a + (m as usize)
    }

    /// Removes and returns a pseudo-randomly chosen element of `leads`,
    /// or `None` if there is nothing to choose from.
    pub fn select_at_random<T>(leads: &mut Vec<T>, rng: &mut u64) -> (r: Option<T>)
        ensures
            old(leads)@.len() == 0 ==> r is None
                && final(leads)@ == old(leads)@ && *final(rng) == *old(rng),
            old(leads)@.len() > 0 ==> ({
                let i = spec_randab(*old(rng), 0, old(leads)@.len() as int);
                &&& *final(rng) == rng_next(*old(rng))
                &&& 0 <= i < old(leads)@.len()
                &&& r == Some(old(leads)@[i])
                &&& final(leads)@ == old(leads)@.remove(i)
            }),
    {
        let l = leads.len();
        if l == 0 {
            return None;
        }
        let i = Grid::randab(rng, 0, l);
        Some(leads.remove(i))
    }

    /// Starts a fresh path: pushes `coords` with its full neighbourhood as
    /// candidates. Starting while another path is in progress is an
    /// `InvalidState` error.
    pub fn new_path_origin(&mut self, coords: (usize, usize)) -> (r: Result<(), MazeError>)
        requires
            old(self).wf(),
            in_bounds(coords, old(self).spec_size()),
        ensures
            r is Err <==> old(self).frames().len() > 0,
            r is Err ==> r->Err_0 == MazeError::InvalidState && *final(self) == *old(self),
            r is Ok ==> {
                &&& final(self).wf()
                &&& final(self).frames().len() == 1
                &&& final(self).frames()[0].cell == coords
                &&& final(self).frames()[0].candidates@ == neighbors_seq(coords, old(self).spec_size())
                &&& final(self).path_cells() == seq![coords]
                &&& final(self).rng == old(self).rng
                &&& same_but_path(*old(self), *final(self))
            },
    {
        if self.path_in_construction.len() > 0 {
            return Err(MazeError::InvalidState);
        }
        let neighbours = self.collect_neighbours(coords);
        let frame = Frame { cell: coords, candidates: neighbours };
        self.path_in_construction.push(frame);
        proof {
            lemma_neighbors_props(coords, self.spec_size());
            assert(1 <= self.spec_size() * self.spec_size()) by (nonlinear_arith)
                requires 2 <= self.spec_size();
            assert(self.path_cells() =~= seq![coords]);
            assert forall|i: int, k: int|
                0 <= i < self.frames().len() && 0 <= k < self.frames()[i].candidates@.len()
                implies !self.path_cells().subrange(0, i + 1).contains(#[trigger] self.frames()[i].candidates@[k]) by {
                assert(self.path_cells().subrange(0, 1) =~= seq![coords]);
                assert(self.frames()[0].candidates@[k] != coords);
            }
        }
        Ok(())
    }

    /// Pushes `coords` onto the path together with its still-explorable
    /// neighbours as candidates.
    pub fn add_cell_to_path(&mut self, coords: (usize, usize))
        requires
            old(self).wf(),
            in_bounds(coords, old(self).spec_size()),
            !old(self).in_path_s(coords),
            old(self).frames().len() > 0
                ==> neighbors_seq(old(self).frames().last().cell, old(self).spec_size()).contains(coords),
            forall|j: int| 0 <= j < old(self).frames().len() - 1
                ==> !neighbors_seq((#[trigger] old(self).frames()[j]).cell, old(self).spec_size()).contains(coords),
        ensures
            final(self).wf(),
            final(self).frames().len() == old(self).frames().len() + 1,
            final(self).frames() == old(self).frames().push(final(self).frames().last()),
            final(self).frames().last().cell == coords,
            final(self).frames().last().candidates@ == old(self).explorable_seq(coords),
            final(self).path_cells() == old(self).path_cells().push(coords),
            final(self).rng == old(self).rng,
            same_but_path(*old(self), *final(self)),
    {
        let ns = self.explorable_neighbours(coords);
        let ghost old_g = *self;
        let frame = Frame { cell: coords, candidates: ns };
        self.path_in_construction.push(frame);
        proof {
            assert(self.path_cells() =~= old_g.path_cells().push(coords));
            lemma_push_wf(old_g, *self, coords);
        }
    }

    /// Discards the top frame of the path in construction; popping an
    /// empty path is an `EmptyPath` error.
    pub fn backtrack(&mut self) -> (r: Result<(), MazeError>)
        requires
            old(self).wf(),
        ensures
            r is Err <==> old(self).frames().len() == 0,
            r is Err ==> r->Err_0 == MazeError::EmptyPath && *final(self) == *old(self),
            r is Ok ==> {
                &&& final(self).wf()
                &&& final(self).frames() == old(self).frames().drop_last()
                &&& final(self).path_cells() == old(self).path_cells().drop_last()
                &&& final(self).rng == old(self).rng
                &&& same_but_path(*old(self), *final(self))
            },
    {
        if self.path_in_construction.len() == 0 {
            return Err(MazeError::EmptyPath);
        }
        let popped = self.path_in_construction.pop();
        match popped {
            None => Err(MazeError::EmptyPath),
            Some(_) => {
                proof {
                    let old_g = *old(self);
                    assert(self.frames() =~= old_g.frames().drop_last());
                    assert(self.path_cells() =~= old_g.path_cells().drop_last());
                    assert forall|i: int, k: int|
                        0 <= i < self.frames().len() && 0 <= k < self.frames()[i].candidates@.len()
                        implies !self.path_cells().subrange(0, i + 1).contains(#[trigger] self.frames()[i].candidates@[k]) by {
                        assert(self.frames()[i] == old_g.frames()[i]);
                        assert(self.path_cells().subrange(0, i + 1) =~= old_g.path_cells().subrange(0, i + 1));
                        assert(!old_g.path_cells().subrange(0, i + 1).contains(self.frames()[i].candidates@[k]));
                    }
                    assert forall|i: int, j: int|
                        0 <= i < self.path_cells().len() && 0 <= j < self.path_cells().len() && i != j
                        implies self.path_cells()[i] != self.path_cells()[j] by {
                        assert(old_g.path_cells()[i] != old_g.path_cells()[j]);
                    }
                }
                Ok(())
            },
        }
    }
}

/// The hex digit for `u % 16`.
pub open spec fn spec_hexchar(u: int) -> char {
    let v = u % 16;
    if v == 0 { '0' } else if v == 1 { '1' } else if v == 2 { '2' } else if v == 3 { '3' }
    else if v == 4 { '4' } else if v == 5 { '5' } else if v == 6 { '6' } else if v == 7 { '7' }
    else if v == 8 { '8' } else if v == 9 { '9' } else if v == 10 { 'a' } else if v == 11 { 'b' }
    else if v == 12 { 'c' } else if v == 13 { 'd' } else if v == 14 { 'e' } else { 'f' }
}

/// The one-character sketch of a cell: a dot for a wall, the path id's
/// last hex digit otherwise.
pub open spec fn spec_cell_rep(c: CellType) -> char {
    match c {
        CellType::Wall => '.',
        CellType::Path(x) => spec_hexchar(x as int),
    }
}

impl Grid {
    /// Maps `u` modulo sixteen to its hex digit.
    pub fn hexchar(u: usize) -> (r: char)
        ensures
            r == spec_hexchar(u as int),
    {
        let v = u % 16;
        match v {
            0 => '0',
            1 => '1',
            2 => '2',
            3 => '3',
            4 => '4',
            5 => '5',
            6 => '6',
            7 => '7',
            8 => '8',
            9 => '9',
            10 => 'a',
            11 => 'b',
            12 => 'c',
            13 => 'd',
            14 => 'e',
            15 => 'f',
            _ => '?',
        }
    }

    /// The one-character sketch of a cell, for a plain-text dump of the
    /// grid.
    pub fn cell_rep(c: CellType) -> (r: char)
        ensures
            r == spec_cell_rep(c),
    {
        match c {
            CellType::Wall => '.',
            CellType::Path(x) => Grid::hexchar(x),
        }
    }
}

/// The two grids agree on everything but the path in construction and the
/// generator state.
pub open spec fn same_but_path(a: Grid, b: Grid) -> bool {
    &&& a.cells@ == b.cells@
    &&& a.clear_cells@ == b.clear_cells@
    &&& a.npath == b.npath
    &&& a.size == b.size
}

/// Every committed cell carries a path id below the path counter.
pub open spec fn ids_ok(g: Grid) -> bool {
    forall|d: (usize, usize)| in_bounds(d, g.spec_size())
        ==> ((#[trigger] g.cell_at(d)) matches CellType::Path(id) ==> id < g.npath)
}

/// Pushing a fresh, in-bounds cell with explorable candidates onto a
/// well-formed path keeps the grid well-formed.
proof fn lemma_push_wf(old_g: Grid, new_g: Grid, coords: (usize, usize))
    requires
        old_g.wf(),
        in_bounds(coords, old_g.spec_size()),
        !old_g.in_path_s(coords),
        old_g.frames().len() > 0
            ==> neighbors_seq(old_g.frames().last().cell, old_g.spec_size()).contains(coords),
        forall|j: int| 0 <= j < old_g.frames().len() - 1
            ==> !neighbors_seq((#[trigger] old_g.frames()[j]).cell, old_g.spec_size()).contains(coords),
        new_g.frames() == old_g.frames().push(new_g.frames().last()),
        new_g.frames().last().cell == coords,
        new_g.frames().last().candidates@ == old_g.explorable_seq(coords),
        same_but_path(old_g, new_g),
    ensures
        new_g.wf(),
{
    let k = old_g.frames().len() as int;
    lemma_neighbors_props(coords, old_g.spec_size());
    assert(new_g.path_cells() =~= old_g.path_cells().push(coords));
    let ns = neighbors_seq(coords, old_g.spec_size());
    let pred = |n: (usize, usize)| old_g.explorable_ok(n);
    let cands = old_g.explorable_seq(coords);
    assert(cands.len() <= ns.len());
    assert forall|kk: int| 0 <= kk < cands.len() implies
        in_bounds(#[trigger] cands[kk], old_g.spec_size())
        && cands[kk] != coords
        && !old_g.path_cells().contains(cands[kk]) by {
        let cand = cands[kk];
        assert(pred(cand));
        assert(ns.filter(pred).contains(cand));
        ns.lemma_filter_contains_rev(pred, cand);
        assert(!old_g.in_path_s(cand));
    }
    // the new path is still duplicate-free
    assert forall|i: int, j: int|
        0 <= i < new_g.path_cells().len() && 0 <= j < new_g.path_cells().len() && i != j
        implies new_g.path_cells()[i] != new_g.path_cells()[j] by {
        if i < k && j < k {
            assert(old_g.path_cells()[i] != old_g.path_cells()[j]);
        } else if i == k {
            assert(old_g.path_cells().contains(old_g.path_cells()[j]));
        } else if j == k {
            assert(old_g.path_cells().contains(old_g.path_cells()[i]));
        }
    }
    lemma_distinct_coords_bound(new_g.path_cells(), new_g.spec_size());
    // candidates of every frame still avoid the path up to their frame
    assert forall|i: int, kk: int|
        0 <= i < new_g.frames().len() && 0 <= kk < new_g.frames()[i].candidates@.len()
        implies !new_g.path_cells().subrange(0, i + 1).contains(#[trigger] new_g.frames()[i].candidates@[kk]) by {
        if i < k {
            assert(new_g.frames()[i] == old_g.frames()[i]);
            assert(new_g.path_cells().subrange(0, i + 1) =~= old_g.path_cells().subrange(0, i + 1));
            assert(!old_g.path_cells().subrange(0, i + 1).contains(new_g.frames()[i].candidates@[kk]));
        } else {
            let cand = new_g.frames()[i].candidates@[kk];
            assert(cand == cands[kk]);
            assert(new_g.path_cells().subrange(0, i + 1) =~= old_g.path_cells().push(coords));
        }
    }
    // the new cell's candidates touch it and nothing earlier on the path
    assert forall|kk: int| 0 <= kk < cands.len() implies
        ns.contains(#[trigger] cands[kk]) by {
        let cand = cands[kk];
        assert(pred(cand));
        assert(ns.filter(pred).contains(cand));
        ns.lemma_filter_contains_rev(pred, cand);
    }
    assert forall|j: int, kk: int| 0 <= j < k && 0 <= kk < cands.len() implies
        !neighbors_seq((#[trigger] old_g.frames()[j]).cell, old_g.spec_size())
            .contains(#[trigger] cands[kk]) by {
        let cand = cands[kk];
        assert(pred(cand));
        let fj = old_g.frames()[j].cell;
        assert(in_bounds(fj, old_g.spec_size()));
        assert(in_bounds(cand, old_g.spec_size()));
        lemma_neighbors_contains_iff(fj, cand, old_g.spec_size());
        lemma_neighbors_contains_iff(cand, fj, old_g.spec_size());
        if neighbors_seq(fj, old_g.spec_size()).contains(cand) {
            assert(adjacent(fj, cand));
            assert(adjacent(cand, fj));
            assert(neighbors_seq(cand, old_g.spec_size()).contains(fj));
            let ii = choose|ii: int| 0 <= ii < neighbors_seq(cand, old_g.spec_size()).len()
                && neighbors_seq(cand, old_g.spec_size())[ii] == fj;
            assert(old_g.path_cells()[j] == fj);
            assert(old_g.in_path_s(neighbors_seq(cand, old_g.spec_size())[ii]));
            assert(old_g.near_path_s(cand));
            assert(false);
        }
    }
    // consecutive cells touch, non-consecutive cells do not
    assert forall|i: int| 1 <= i < new_g.frames().len()
        implies neighbors_seq(new_g.frames()[i - 1].cell, new_g.spec_size())
            .contains((#[trigger] new_g.frames()[i]).cell) by {
        if i < k {
            assert(new_g.frames()[i] == old_g.frames()[i]);
            assert(new_g.frames()[i - 1] == old_g.frames()[i - 1]);
        } else {
            assert(new_g.frames()[i].cell == coords);
            assert(new_g.frames()[i - 1] == old_g.frames()[k - 1]);
        }
    }
    assert forall|i: int, j: int| 0 <= j < i - 1 && i < new_g.frames().len()
        implies !neighbors_seq((#[trigger] new_g.frames()[j]).cell, new_g.spec_size())
            .contains((#[trigger] new_g.frames()[i]).cell) by {
        assert(new_g.frames()[j] == old_g.frames()[j]);
        if i < k {
            assert(new_g.frames()[i] == old_g.frames()[i]);
        } else {
            assert(new_g.frames()[i].cell == coords);
        }
    }
    assert forall|i: int, kk: int|
        0 <= i < new_g.frames().len() && 0 <= kk < new_g.frames()[i].candidates@.len()
        implies neighbors_seq(new_g.frames()[i].cell, new_g.spec_size())
            .contains(#[trigger] new_g.frames()[i].candidates@[kk]) by {
        if i < k {
            assert(new_g.frames()[i] == old_g.frames()[i]);
        } else {
            assert(new_g.frames()[i].candidates@[kk] == cands[kk]);
        }
    }
    assert forall|i: int, j: int, kk: int|
        0 <= j < i < new_g.frames().len() && 0 <= kk < new_g.frames()[i].candidates@.len()
        implies !neighbors_seq((#[trigger] new_g.frames()[j]).cell, new_g.spec_size())
            .contains(#[trigger] new_g.frames()[i].candidates@[kk]) by {
        assert(new_g.frames()[j] == old_g.frames()[j]);
        if i < k {
            assert(new_g.frames()[i] == old_g.frames()[i]);
        } else {
            assert(new_g.frames()[i].candidates@[kk] == cands[kk]);
        }
    }
}

/// No more pairwise distinct in-bounds coordinates exist than the grid
/// has cells.
pub proof fn lemma_distinct_coords_bound(s: Seq<(usize, usize)>, size: nat)
    requires
        s.no_duplicates(),
        forall|i: int| 0 <= i < s.len() ==> in_bounds(#[trigger] s[i], size),
    ensures
        s.len() <= size * size,
{
    let n = (size * size) as int;
    let idx = Seq::new(s.len(), |i: int| s[i].0 * (size as int) + s[i].1);
    assert forall|i: int, j: int| 0 <= i < idx.len() && 0 <= j < idx.len() && i != j
        implies idx[i] != idx[j] by {
        assert(s[i] != s[j]);
        assert(s[i].0 * (size as int) + s[i].1 != s[j].0 * (size as int) + s[j].1) by (nonlinear_arith)
            requires
                s[i].0 < size, s[i].1 < size, s[j].0 < size, s[j].1 < size,
                s[i] != s[j];
    }
    assert(idx.no_duplicates());
    idx.unique_seq_to_set();
    assert forall|e: int| idx.to_set().contains(e) implies vstd::set_lib::set_int_range(0, n).contains(e) by {
        let i = choose|i: int| 0 <= i < idx.len() && idx[i] == e;
        lemma_row_major(s[i].0 as int, s[i].1 as int, size as int);
    }
    vstd::set_lib::lemma_int_range(0, n);
    vstd::set_lib::lemma_len_subset(idx.to_set(), vstd::set_lib::set_int_range(0, n));
}

/// Row-major index arithmetic: an in-bounds coordinate addresses a slot
/// inside the cell matrix.
pub proof fn lemma_row_major(x: int, y: int, size: int)
    requires
        0 <= x < size,
        0 <= y < size,
    ensures
        0 <= x * size + y < size * size,
{
    assert(x * size + y < size * size) by (nonlinear_arith)
        requires 0 <= x < size, 0 <= y < size;
}

/// A sequence of pairwise distinct row-major indices has no duplicate
/// coordinates.
proof fn lemma_index_distinct_implies_no_duplicates(s: Seq<(usize, usize)>, size: nat)
    requires
        forall|j: int| 0 <= j < s.len() ==> (#[trigger] s[j]).0 * size + s[j].1 == j,
    ensures
        s.no_duplicates(),
{
    assert forall|i: int, j: int| 0 <= i < s.len() && 0 <= j < s.len() && i != j
        implies s[i] != s[j] by {
        assert(s[i].0 * size + s[i].1 == i);
        assert(s[j].0 * size + s[j].1 == j);
    }
}

} // verus!
