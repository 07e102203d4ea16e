//! Committing a finished path into the grid and maintaining the frontier
//! of cells that may still serve as origins of future paths.

use vstd::prelude::*;
use crate::maze::{Grid, CellType, MazeError, in_bounds, neighbors_seq, adjacent, lemma_neighbors_props, lemma_path_in_construction_simple, lemma_row_major, ids_ok, spec_randab, rng_next, MAX_SIZE};
use crate::oracle::lemma_escape_from_anywhere;

verus! {

broadcast use vstd::seq_lib::group_seq_properties;

/// A cell that counts as claimed once the cells of `pcs` are committed.
pub open spec fn claimed_after(g: Grid, pcs: Seq<(usize, usize)>, c: (usize, usize)) -> bool {
    g.claimed(c) || pcs.contains(c)
}

/// How many cells of `s` count as claimed once `pcs` is committed.
pub open spec fn claimed_count_after(g: Grid, pcs: Seq<(usize, usize)>, s: Seq<(usize, usize)>) -> nat
    decreases s.len(),
{
    if s.len() == 0 {
        0
    } else {
        claimed_count_after(g, pcs, s.drop_last())
            + (if claimed_after(g, pcs, s.last()) { 1nat } else { 0nat })
    }
}

/// More than one neighbour of `c` counts as claimed once `pcs` is
/// committed.
pub open spec fn near_several_after(g: Grid, pcs: Seq<(usize, usize)>, c: (usize, usize)) -> bool {
    claimed_count_after(g, pcs, neighbors_seq(c, g.spec_size())) > 1
}

/// Whether the frontier member `d` survives the commit of the path cells
/// `pcs`: a committed cell leaves the frontier, and so does a neighbour
/// of a committed cell that now touches more than one claimed cell.
pub open spec fn frontier_keep(g: Grid, pcs: Seq<(usize, usize)>, d: (usize, usize)) -> bool {
    &&& !pcs.contains(d)
    &&& !(exists|i: int| 0 <= i < pcs.len()
            && neighbors_seq(#[trigger] pcs[i], g.spec_size()).contains(d)
            && near_several_after(g, pcs, d))
}

/// The same shrink rule, evaluated on a grid whose cells are already
/// written: used by `update_clear_cells`, which runs after the commit
/// wrote the path into the cell matrix.
pub open spec fn upd_keep(g: Grid, d: (usize, usize)) -> bool {
    &&& !g.in_path_s(d)
    &&& !(exists|i: int| 0 <= i < g.frames().len()
            && neighbors_seq((#[trigger] g.frames()[i]).cell, g.spec_size()).contains(d)
            && g.near_several_maze_s(d))
}

/// The shrink rule restricted to the first `n` frames.
pub open spec fn upd_keep_upto(g: Grid, d: (usize, usize), n: int) -> bool {
    &&& !(exists|i: int| 0 <= i < n && (#[trigger] g.frames()[i]).cell == d)
    &&& !(exists|i: int| 0 <= i < n
            && neighbors_seq((#[trigger] g.frames()[i]).cell, g.spec_size()).contains(d)
            && g.near_several_maze_s(d))
}

/// Removes the first (under no duplicates: the only) occurrence of `c`
/// from the frontier vector.
fn remove_coord(v: &mut Vec<(usize, usize)>, c: (usize, usize))
    requires
        old(v)@.no_duplicates(),
    ensures
        final(v)@.no_duplicates(),
        final(v)@.len() <= old(v)@.len(),
        old(v)@.contains(c) ==> final(v)@.len() == old(v)@.len() - 1,
        !old(v)@.contains(c) ==> final(v)@ == old(v)@,
        !final(v)@.contains(c),
        forall|d: (usize, usize)| d != c ==> final(v)@.contains(d) == old(v)@.contains(d),
        forall|j: int| 0 <= j < final(v)@.len() ==> old(v)@.contains(#[trigger] final(v)@[j]),
{
    let mut i: usize = 0;
    while i < v.len()
        invariant
            v@ == old(v)@,
            v@.no_duplicates(),
            i <= v@.len(),
            forall|j: int| 0 <= j < i ==> v@[j] != c,
        decreases v@.len() - i,
    {
        let (ax, ay) = v[i];
        if ax == c.0 && ay == c.1 {
            let ghost pre = v@;
            v.remove(i);
            proof {
                assert(pre[i as int] == c);
                assert(v@ == pre.subrange(0, i as int) + pre.subrange(i + 1, pre.len() as int));
                assert forall|k: int| 0 <= k < v@.len()
                    implies pre.contains(#[trigger] v@[k]) && v@[k] != c by {
                    if k < i {
                        assert(v@[k] == pre.subrange(0, i as int)[k]);
                        assert(v@[k] == pre[k]);
                    } else {
                        assert(v@[k] == pre.subrange(i + 1, pre.len() as int)[k - i]);
                        assert(v@[k] == pre[k + 1]);
                        assert(pre[k + 1] != pre[i as int]);
                    }
                }
                assert forall|k: int, l: int|
                    0 <= k < v@.len() && 0 <= l < v@.len() && k != l
                    implies v@[k] != v@[l] by {
                    let pk: int = if k < i { k } else { k + 1 };
                    let pl: int = if l < i { l } else { l + 1 };
                    if k < i {
                        assert(v@[k] == pre.subrange(0, i as int)[k]);
                    } else {
                        assert(v@[k] == pre.subrange(i + 1, pre.len() as int)[k - i]);
                    }
                    if l < i {
                        assert(v@[l] == pre.subrange(0, i as int)[l]);
                    } else {
                        assert(v@[l] == pre.subrange(i + 1, pre.len() as int)[l - i]);
                    }
                    assert(v@[k] == pre[pk] && v@[l] == pre[pl]);
                    assert(pre[pk] != pre[pl]);
                }
                assert forall|d: (usize, usize)| d != c && pre.contains(d)
                    implies v@.contains(d) by {
                    let k = choose|k: int| 0 <= k < pre.len() && pre[k] == d;
                    if k < i {
                        assert(v@[k] == pre.subrange(0, i as int)[k]);
                        assert(v@[k] == d);
                    } else {
                        assert(k != i);
                        assert(v@[k - 1] == pre.subrange(i + 1, pre.len() as int)[k - 1 - i]);
                        assert(v@[k - 1] == d);
                    }
                }
            }
            return;
        }
        i = i + 1;
    }
    proof {
        assert(!v@.contains(c));
    }
}

/// Path ids being in range depends only on the cells, the size and the
/// path counter.
proof fn lemma_ids_ok_congruent(a: Grid, b: Grid)
    requires
        a.cells@ == b.cells@,
        a.size == b.size,
        a.npath == b.npath,
    ensures
        ids_ok(a) == ids_ok(b),
{
    if ids_ok(a) {
        assert forall|d: (usize, usize)| in_bounds(d, b.spec_size())
            implies ((#[trigger] b.cell_at(d)) matches CellType::Path(id) ==> id < b.npath) by {
            assert(b.cell_at(d) == a.cell_at(d));
        }
    }
    if ids_ok(b) {
        assert forall|d: (usize, usize)| in_bounds(d, a.spec_size())
            implies ((#[trigger] a.cell_at(d)) matches CellType::Path(id) ==> id < a.npath) by {
            assert(a.cell_at(d) == b.cell_at(d));
        }
    }
}

/// Claimed-after counts agree for grids with the same cells and size.
proof fn lemma_count_after_congruent(a: Grid, b: Grid, pcs: Seq<(usize, usize)>, s: Seq<(usize, usize)>)
    requires
        a.cells@ == b.cells@,
        a.size == b.size,
    ensures
        claimed_count_after(a, pcs, s) == claimed_count_after(b, pcs, s),
    decreases s.len(),
{
    if s.len() > 0 {
        lemma_count_after_congruent(a, b, pcs, s.drop_last());
    }
}

/// Claimed counts agree for grids with the same cells and size.
proof fn lemma_claimed_count_congruent(a: Grid, b: Grid, s: Seq<(usize, usize)>)
    requires
        a.cells@ == b.cells@,
        a.size == b.size,
    ensures
        a.claimed_count(s) == b.claimed_count(s),
    decreases s.len(),
{
    if s.len() > 0 {
        lemma_claimed_count_congruent(a, b, s.drop_last());
    }
}

/// On a grid whose cells already hold the committed path, the claimed
/// count equals the claimed-after count of the grid before the commit.
proof fn lemma_count_after_eq(g0: Grid, pcs: Seq<(usize, usize)>, mid: Grid, s: Seq<(usize, usize)>)
    requires
        forall|j: int| 0 <= j < s.len() ==> in_bounds(#[trigger] s[j], g0.spec_size()),
        forall|c: (usize, usize)| in_bounds(c, g0.spec_size())
            ==> (#[trigger] mid.claimed(c) <==> claimed_after(g0, pcs, c)),
        mid.size == g0.size,
    ensures
        mid.claimed_count(s) == claimed_count_after(g0, pcs, s),
    decreases s.len(),
{
    if s.len() > 0 {
        lemma_count_after_eq(g0, pcs, mid, s.drop_last());
    }
}

/// The cells carrying path id `p` are exactly the range of `r`, and `r`
/// is a simple path: pairwise distinct in-bounds cells, consecutive ones
/// sharing an edge, non-consecutive ones not. So every non-endpoint cell
/// of the path has exactly its two neighbours on the path, and each
/// endpoint has at most one.
pub open spec fn id_path_witness(g: Grid, p: usize, r: Seq<(usize, usize)>) -> bool {
    &&& r.no_duplicates()
    &&& forall|k: int| 0 <= k < r.len() ==> in_bounds(#[trigger] r[k], g.spec_size())
    &&& forall|k: int| 0 <= k < r.len() ==> g.cell_at(#[trigger] r[k]) == CellType::Path(p)
    &&& forall|d: (usize, usize)| in_bounds(d, g.spec_size())
            && #[trigger] g.cell_at(d) == CellType::Path(p) ==> r.contains(d)
    &&& forall|k: int| 1 <= k < r.len() ==> adjacent(r[k - 1], #[trigger] r[k])
    &&& forall|i: int, j: int|
            0 <= i < r.len() && 0 <= j < r.len() && (i - j > 1 || j - i > 1)
            ==> !adjacent(#[trigger] r[i], #[trigger] r[j])
}

/// The last cell of the witness path touches a cell of an earlier path.
pub open spec fn touches_earlier(g: Grid, p: usize, r: Seq<(usize, usize)>) -> bool {
    r.len() >= 1 && exists|i: int| {
        &&& 0 <= i < neighbors_seq(r.last(), g.spec_size()).len()
        &&& (#[trigger] g.cell_at(neighbors_seq(r.last(), g.spec_size())[i]))
                matches CellType::Path(q) && q < p
    }
}

/// Path id `p`, committed after the seed id `n0`, has a simple-path
/// witness; every id after the seed also touches an earlier path.
pub open spec fn id_has_witness(g: Grid, n0: usize, p: usize) -> bool {
    exists|r: Seq<(usize, usize)>|
        #[trigger] id_path_witness(g, p, r) && (p > n0 ==> touches_earlier(g, p, r))
}

/// Every path id committed from `n0` on has its simple-path witness.
pub open spec fn committed_paths_simple(g: Grid, n0: usize) -> bool {
    forall|p: usize| n0 <= p < g.npath ==> #[trigger] id_has_witness(g, n0, p)
}

/// No frontier member is claimed by a committed path.
pub open spec fn frontier_unclaimed(g: Grid) -> bool {
    forall|j: int| 0 <= j < g.clear().len() ==> !g.claimed(#[trigger] g.clear()[j])
}

/// Witnesses carry over between grids with the same cells, size and
/// path counter.
proof fn lemma_structure_congruent(a: Grid, b: Grid, n0: usize)
    requires
        a.cells@ == b.cells@,
        a.size == b.size,
        a.npath == b.npath,
        committed_paths_simple(a, n0),
    ensures
        committed_paths_simple(b, n0),
{
    assert forall|p: usize| n0 <= p < b.npath implies #[trigger] id_has_witness(b, n0, p) by {
        assert(id_has_witness(a, n0, p));
        let r = choose|r: Seq<(usize, usize)>|
            #[trigger] id_path_witness(a, p, r) && (p > n0 ==> touches_earlier(a, p, r));
        assert forall|k: int| 0 <= k < r.len()
            implies b.cell_at(#[trigger] r[k]) == CellType::Path(p) by {
            assert(b.cell_at(r[k]) == a.cell_at(r[k]));
        }
        assert forall|d: (usize, usize)| in_bounds(d, b.spec_size())
            && #[trigger] b.cell_at(d) == CellType::Path(p) implies r.contains(d) by {
            assert(a.cell_at(d) == b.cell_at(d));
        }
        if p > n0 {
            assert(touches_earlier(b, p, r)) by {
                let i = choose|i: int| {
                    &&& 0 <= i < neighbors_seq(r.last(), a.spec_size()).len()
                    &&& (#[trigger] a.cell_at(neighbors_seq(r.last(), a.spec_size())[i]))
                            matches CellType::Path(q) && q < p
                };
                let y = neighbors_seq(r.last(), a.spec_size())[i];
                assert(b.cell_at(y) == a.cell_at(y));
            }
        }
        assert(id_path_witness(b, p, r));
    }
}

/// Seeding the origin cell starts the committed structure: the seed path
/// is the single cell, and nothing else carries its id.
proof fn lemma_structure_after_seed(g0: Grid, g2: Grid, coord: (usize, usize))
    requires
        g0.wf(),
        ids_ok(g0),
        in_bounds(coord, g0.spec_size()),
        g2.size == g0.size,
        g2.npath == g0.npath + 1,
        forall|d: (usize, usize)| in_bounds(d, g0.spec_size())
            ==> #[trigger] g2.cell_at(d) == (if d == coord {
                    CellType::Path(g0.npath)
                } else {
                    g0.cell_at(d)
                }),
    ensures
        committed_paths_simple(g2, g0.npath),
{
    assert forall|p: usize| g0.npath <= p < g2.npath
        implies #[trigger] id_has_witness(g2, g0.npath, p) by {
        assert(p == g0.npath);
        let r = seq![coord];
        assert(g2.cell_at(coord) == CellType::Path(p));
        assert forall|d: (usize, usize)| in_bounds(d, g2.spec_size())
            && #[trigger] g2.cell_at(d) == CellType::Path(p) implies r.contains(d) by {
            if d != coord {
                assert(g2.cell_at(d) == g0.cell_at(d));
                assert(false);
            }
            assert(r[0] == d);
        }
        assert(id_path_witness(g2, p, r));
    }
}

/// Committing the path in construction extends the committed structure:
/// the new id's cells are exactly the committed path cells, which form a
/// simple path whose last cell touched the maze, and every earlier id
/// keeps its witness because only unclaimed cells were written.
proof fn lemma_structure_after_commit(g1: Grid, g2: Grid, n0: usize)
    requires
        g1.wf(),
        ids_ok(g1),
        committed_paths_simple(g1, n0),
        g1.frames().len() >= 1,
        g1.near_maze_s(g1.path_cells().last()),
        forall|k: int| 0 <= k < g1.path_cells().len()
            ==> !g1.claimed(#[trigger] g1.path_cells()[k]),
        g1.npath > n0,
        g2.size == g1.size,
        g2.npath == g1.npath + 1,
        forall|d: (usize, usize)| in_bounds(d, g1.spec_size())
            ==> #[trigger] g2.cell_at(d) == (if g1.in_path_s(d) {
                    CellType::Path(g1.npath)
                } else {
                    g1.cell_at(d)
                }),
    ensures
        committed_paths_simple(g2, n0),
{
    let pcs = g1.path_cells();
    assert forall|p: usize| n0 <= p < g2.npath
        implies #[trigger] id_has_witness(g2, n0, p) by {
        if p < g1.npath {
            assert(id_has_witness(g1, n0, p));
            let r = choose|r: Seq<(usize, usize)>|
                #[trigger] id_path_witness(g1, p, r) && (p > n0 ==> touches_earlier(g1, p, r));
            assert forall|k: int| 0 <= k < r.len()
                implies g2.cell_at(#[trigger] r[k]) == CellType::Path(p) by {
                assert(g1.cell_at(r[k]) == CellType::Path(p));
                assert(g1.claimed(r[k]));
                assert(!g1.in_path_s(r[k])) by {
                    if g1.in_path_s(r[k]) {
                        let kk = choose|kk: int| 0 <= kk < pcs.len() && pcs[kk] == r[k];
                        assert(!g1.claimed(pcs[kk]));
                    }
                }
            }
            assert forall|d: (usize, usize)| in_bounds(d, g2.spec_size())
                && #[trigger] g2.cell_at(d) == CellType::Path(p) implies r.contains(d) by {
                if g1.in_path_s(d) {
                    assert(g2.cell_at(d) == CellType::Path(g1.npath));
                } else {
                    assert(g1.cell_at(d) == CellType::Path(p));
                }
            }
            if p > n0 {
                assert(touches_earlier(g2, p, r)) by {
                    let i = choose|i: int| {
                        &&& 0 <= i < neighbors_seq(r.last(), g1.spec_size()).len()
                        &&& (#[trigger] g1.cell_at(neighbors_seq(r.last(), g1.spec_size())[i]))
                                matches CellType::Path(q) && q < p
                    };
                    let y = neighbors_seq(r.last(), g1.spec_size())[i];
                    assert(in_bounds(y, g1.spec_size())) by {
                        lemma_neighbors_props(r.last(), g1.spec_size());
                    }
                    assert(g1.claimed(y));
                    assert(!g1.in_path_s(y)) by {
                        if g1.in_path_s(y) {
                            let kk = choose|kk: int| 0 <= kk < pcs.len() && pcs[kk] == y;
                            assert(!g1.claimed(pcs[kk]));
                        }
                    }
                    assert(g2.cell_at(y) == g1.cell_at(y));
                }
            }
            assert(id_path_witness(g2, p, r));
        } else {
            assert(p == g1.npath);
            let r = pcs;
            lemma_path_in_construction_simple(g1);
            assert forall|k: int| 0 <= k < r.len()
                implies g2.cell_at(#[trigger] r[k]) == CellType::Path(p)
                    && in_bounds(r[k], g1.spec_size()) by {
                assert(r[k] == g1.frames()[k].cell);
                assert(g1.in_path_s(r[k]));
            }
            assert forall|d: (usize, usize)| in_bounds(d, g2.spec_size())
                && #[trigger] g2.cell_at(d) == CellType::Path(p) implies r.contains(d) by {
                if !g1.in_path_s(d) {
                    assert(g1.cell_at(d) == CellType::Path(p));
                    assert(false);
                }
            }
            assert(touches_earlier(g2, p, r)) by {
                let i = choose|i: int| 0 <= i < neighbors_seq(r.last(), g1.spec_size()).len()
                    && g1.claimed(#[trigger] neighbors_seq(r.last(), g1.spec_size())[i]);
                let y = neighbors_seq(r.last(), g1.spec_size())[i];
                assert(in_bounds(y, g1.spec_size())) by {
                    assert(in_bounds(r.last(), g1.spec_size())) by {
                        assert(r.last() == g1.frames()[r.len() - 1].cell);
                    }
                    lemma_neighbors_props(r.last(), g1.spec_size());
                }
                assert(!g1.in_path_s(y)) by {
                    if g1.in_path_s(y) {
                        let kk = choose|kk: int| 0 <= kk < pcs.len() && pcs[kk] == y;
                        assert(!g1.claimed(pcs[kk]));
                    }
                }
                assert(g2.cell_at(y) == g1.cell_at(y));
                assert(g1.cell_at(y) matches CellType::Path(q) ==> q < g1.npath);
            }
            assert(id_path_witness(g2, p, r));
        }
    }
}

impl Grid {
    /// Shrinks the frontier for the path in construction: each path cell
    /// leaves the frontier, and so does each of its neighbours that now
    /// touches more than one claimed cell.
    #[verifier::spinoff_prover]
    #[verifier::rlimit(100)]
    pub fn update_clear_cells(&mut self)
        requires
            old(self).wf(),
        ensures
            final(self).wf(),
            final(self).cells@ == old(self).cells@,
            final(self).frames() == old(self).frames(),
            final(self).npath == old(self).npath,
            final(self).size == old(self).size,
            final(self).rng == old(self).rng,
            forall|d: (usize, usize)| #[trigger] final(self).clear().contains(d)
                <==> old(self).clear().contains(d) && upd_keep(*old(self), d),
            final(self).clear().len() <= old(self).clear().len(),
            old(self).frames().len() >= 1 && old(self).clear().contains(old(self).frames()[0].cell)
                ==> final(self).clear().len() < old(self).clear().len(),
    {
        let ghost g0 = *self;
        let flen = self.path_in_construction.len();
        let mut i: usize = 0;
        while i < flen
            invariant
                self.wf(),
                g0.wf(),
                flen == g0.frames().len(),
                i <= flen,
                self.cells@ == g0.cells@,
                self.frames() == g0.frames(),
                self.npath == g0.npath,
                self.size == g0.size,
                self.rng == g0.rng,
                forall|d: (usize, usize)| #[trigger] self.clear().contains(d)
                    <==> g0.clear().contains(d) && upd_keep_upto(g0, d, i as int),
                self.clear().len() <= g0.clear().len(),
                i >= 1 && g0.clear().contains(g0.frames()[0].cell)
                    ==> self.clear().len() < g0.clear().len(),
            decreases flen - i,
        {
            let cs = self.path_in_construction[i].cell;
            let ghost c_before = self.clear();
            remove_coord(&mut self.clear_cells, cs);
            proof {
                assert(in_bounds(g0.frames()[i as int].cell, g0.spec_size()));
                if i == 0 && g0.clear().contains(g0.frames()[0].cell) {
                    assert(upd_keep_upto(g0, g0.frames()[0].cell, 0));
                    assert(c_before.contains(g0.frames()[0].cell));
                }
                assert forall|d: (usize, usize)| #[trigger] self.clear().contains(d)
                    <==> g0.clear().contains(d) && upd_keep_upto(g0, d, i as int) && d != cs by {
                    if d != cs {
                        assert(self.clear().contains(d) == c_before.contains(d));
                    }
                }
            }
            let neighbours = self.collect_neighbours(cs);
            let mut j: usize = 0;
            while j < neighbours.len()
                invariant
                    self.wf(),
                    g0.wf(),
                    flen == g0.frames().len(),
                    i < flen,
                    j <= neighbours@.len(),
                    cs == g0.frames()[i as int].cell,
                    neighbours@ == neighbors_seq(cs, g0.spec_size()),
                    self.cells@ == g0.cells@,
                    self.frames() == g0.frames(),
                    self.npath == g0.npath,
                    self.size == g0.size,
                    self.rng == g0.rng,
                    forall|d: (usize, usize)| #[trigger] self.clear().contains(d)
                        <==> g0.clear().contains(d) && upd_keep_upto(g0, d, i as int) && d != cs
                            && !(neighbours@.subrange(0, j as int).contains(d) && g0.near_several_maze_s(d)),
                    self.clear().len() <= g0.clear().len(),
                    g0.clear().contains(g0.frames()[0].cell)
                        ==> self.clear().len() < g0.clear().len(),
                decreases neighbours@.len() - j,
            {
                let c = neighbours[j];
                proof {
                    lemma_neighbors_props(cs, g0.spec_size());
                    assert(neighbours@.subrange(0, j + 1)
                        =~= neighbours@.subrange(0, j as int).push(neighbours@[j as int]));
                }
                let several = self.near_several_maze(c);
                proof {
                    lemma_claimed_count_congruent(*self, g0, neighbors_seq(c, g0.spec_size()));
                    assert(self.near_several_maze_s(c) == g0.near_several_maze_s(c));
                }
                if several {
                    let ghost c_mid = self.clear();
                    remove_coord(&mut self.clear_cells, c);
                    proof {
                        assert forall|d: (usize, usize)| d != c
                            implies self.clear().contains(d) == c_mid.contains(d) by {}
                    }
                } else {
                }
                j = j + 1;
            }
            proof {
                assert(neighbours@.subrange(0, neighbours@.len() as int) =~= neighbours@);
                assert forall|d: (usize, usize)| #[trigger] self.clear().contains(d)
                    <==> g0.clear().contains(d) && upd_keep_upto(g0, d, i + 1) by {
                    if g0.clear().contains(d) {
                        assert(upd_keep_upto(g0, d, i + 1) == (
                            upd_keep_upto(g0, d, i as int) && d != cs
                            && !(neighbours@.contains(d) && g0.near_several_maze_s(d)))) by {
                            if upd_keep_upto(g0, d, i as int) && d != cs
                                && !(neighbours@.contains(d) && g0.near_several_maze_s(d)) {
                                assert forall|k: int| 0 <= k < i + 1
                                    implies (#[trigger] g0.frames()[k]).cell != d by {
                                    if k < i {
                                        assert(upd_keep_upto(g0, d, i as int));
                                    }
                                }
                                assert forall|k: int| 0 <= k < i + 1
                                    implies !(neighbors_seq((#[trigger] g0.frames()[k]).cell, g0.spec_size()).contains(d)
                                        && g0.near_several_maze_s(d)) by {
                                    if k < i {
                                    }
                                }
                            }
                        }
                    }
                }
            }
            i = i + 1;
        }
        proof {
            assert forall|d: (usize, usize)| #[trigger] self.clear().contains(d)
                <==> g0.clear().contains(d) && upd_keep(g0, d) by {
                if g0.clear().contains(d) {
                    if upd_keep_upto(g0, d, flen as int) {
                        assert(!g0.path_cells().contains(d)) by {
                            if g0.path_cells().contains(d) {
                                let k = choose|k: int| 0 <= k < g0.path_cells().len()
                                    && g0.path_cells()[k] == d;
                                assert(g0.frames()[k].cell == d);
                            }
                        }
                    }
                    if upd_keep(g0, d) {
                        assert(upd_keep_upto(g0, d, flen as int)) by {
                            if !upd_keep_upto(g0, d, flen as int) {
                                if exists|k: int| 0 <= k < flen && (#[trigger] g0.frames()[k]).cell == d {
                                    let k = choose|k: int| 0 <= k < flen
                                        && (#[trigger] g0.frames()[k]).cell == d;
                                    assert(g0.path_cells()[k] == d);
                                    assert(g0.in_path_s(d));
                                }
                            }
                        }
                    }
                }
            }
        }
    }

    /// Commits the path in construction: writes every path cell as
    /// `Path(npath)`, bumps the path counter, shrinks the frontier, and
    /// empties the path. Atomic from the caller's point of view.
    #[verifier::spinoff_prover]
    #[verifier::rlimit(100)]
    pub fn commit_path(&mut self)
        requires
            old(self).wf(),
            old(self).npath < usize::MAX,
        ensures
            final(self).wf(),
            final(self).size == old(self).size,
            final(self).rng == old(self).rng,
            final(self).npath == old(self).npath + 1,
            final(self).frames().len() == 0,
            forall|d: (usize, usize)| in_bounds(d, old(self).spec_size())
                ==> #[trigger] final(self).cell_at(d) == (if old(self).in_path_s(d) {
                        CellType::Path(old(self).npath)
                    } else {
                        old(self).cell_at(d)
                    }),
            forall|d: (usize, usize)| #[trigger] final(self).clear().contains(d)
                <==> old(self).clear().contains(d)
                    && frontier_keep(*old(self), old(self).path_cells(), d),
            final(self).clear().len() <= old(self).clear().len(),
            old(self).frames().len() >= 1 && old(self).clear().contains(old(self).frames()[0].cell)
                ==> final(self).clear().len() < old(self).clear().len(),
            ids_ok(*old(self)) ==> ids_ok(*final(self)),
    {
        let ghost g0 = *self;
        let ghost pcs = g0.path_cells();
        let flen = self.path_in_construction.len();
        let mut i: usize = 0;
        while i < flen
            invariant
                self.wf(),
                g0.wf(),
                flen == g0.frames().len(),
                pcs == g0.path_cells(),
                pcs.len() == flen,
                i <= flen,
                self.frames() == g0.frames(),
                self.clear() == g0.clear(),
                self.npath == g0.npath,
                self.size == g0.size,
                self.rng == g0.rng,
                forall|d: (usize, usize)| in_bounds(d, g0.spec_size())
                    ==> #[trigger] self.cell_at(d) == (if pcs.subrange(0, i as int).contains(d) {
                            CellType::Path(g0.npath)
                        } else {
                            g0.cell_at(d)
                        }),
            decreases flen - i,
        {
            let ghost snap = *self;
            let c = self.path_in_construction[i].cell;
            proof {
                assert(in_bounds(g0.frames()[i as int].cell, g0.spec_size()));
                lemma_row_major(c.0 as int, c.1 as int, self.size as int);
                assert(self.size * self.size <= MAX_SIZE * MAX_SIZE) by (nonlinear_arith)
                    requires self.size <= MAX_SIZE;
            }
            let idx = c.0 * self.size + c.1;
            let id = self.npath;
            self.cells[idx] = CellType::Path(id);
            proof {
                assert(self.cells@ == snap.cells@.update(idx as int, CellType::Path(g0.npath)));
                assert(pcs.subrange(0, i + 1) =~= pcs.subrange(0, i as int).push(pcs[i as int]));
                assert(pcs[i as int] == c);
                assert forall|d: (usize, usize)| in_bounds(d, g0.spec_size())
                    implies #[trigger] self.cell_at(d) == (if pcs.subrange(0, i + 1).contains(d) {
                        CellType::Path(g0.npath)
                    } else {
                        g0.cell_at(d)
                    }) by {
                    lemma_row_major(d.0 as int, d.1 as int, self.size as int);
                    assert(snap.cell_at(d) == (if pcs.subrange(0, i as int).contains(d) {
                        CellType::Path(g0.npath)
                    } else {
                        g0.cell_at(d)
                    }));
                    if d != c {
                        assert(d.0 != c.0 || d.1 != c.1);
                        assert(d.0 * (self.size as int) + d.1 != c.0 * (self.size as int) + c.1)
                            by (nonlinear_arith)
                            requires
                                d.0 < self.size, d.1 < self.size,
                                c.0 < self.size, c.1 < self.size,
                                d.0 != c.0 || d.1 != c.1;
                        assert(self.cell_at(d) == snap.cell_at(d));
                    } else {
                        assert(self.cell_at(d) == CellType::Path(g0.npath));
                        assert(pcs.subrange(0, i + 1).contains(d));
                    }
                }
            }
            i = i + 1;
        }
        proof {
            assert(pcs.subrange(0, flen as int) =~= pcs);
        }
        let ghost written = *self;
        self.npath = self.npath + 1;
        let ghost mid = *self;
        proof {
            assert forall|c: (usize, usize)| in_bounds(c, g0.spec_size())
                implies #[trigger] mid.cell_at(c) == (if pcs.contains(c) {
                    CellType::Path(g0.npath)
                } else {
                    g0.cell_at(c)
                }) by {
                assert(written.cell_at(c) == (if pcs.subrange(0, flen as int).contains(c) {
                    CellType::Path(g0.npath)
                } else {
                    g0.cell_at(c)
                }));
                assert(mid.cell_at(c) == written.cell_at(c));
            }
        }
        self.update_clear_cells();
        proof {
            assert forall|d: (usize, usize)|
                g0.clear().contains(d)
                implies (upd_keep(mid, d) <==> frontier_keep(g0, pcs, d)) by {
                assert(in_bounds(d, g0.spec_size()));
                assert(mid.in_path_s(d) <==> pcs.contains(d)) by {
                    assert(mid.path_cells() =~= pcs);
                }
                assert forall|c: (usize, usize)| in_bounds(c, g0.spec_size())
                    implies (#[trigger] mid.claimed(c) <==> claimed_after(g0, pcs, c)) by {
                    assert(mid.cell_at(c) == (if pcs.contains(c) {
                        CellType::Path(g0.npath)
                    } else {
                        g0.cell_at(c)
                    }));
                }
                lemma_neighbors_props(d, g0.spec_size());
                lemma_count_after_eq(g0, pcs, mid, neighbors_seq(d, g0.spec_size()));
                assert(mid.near_several_maze_s(d) == near_several_after(g0, pcs, d));
                assert forall|k: int| 0 <= k < flen
                    implies (#[trigger] mid.frames()[k]).cell == pcs[k] by {}
            }
        }
        self.path_in_construction.clear();
        proof {
            assert(self.path_cells() =~= Seq::<(usize, usize)>::empty());
            assert forall|d: (usize, usize)| in_bounds(d, g0.spec_size())
                implies #[trigger] self.cell_at(d) == (if g0.in_path_s(d) {
                    CellType::Path(g0.npath)
                } else {
                    g0.cell_at(d)
                }) by {
                assert(self.cell_at(d) == mid.cell_at(d));
                assert(g0.in_path_s(d) <==> pcs.contains(d));
            }
            if ids_ok(g0) {
                assert forall|d: (usize, usize)| in_bounds(d, self.spec_size())
                    implies ((#[trigger] self.cell_at(d)) matches CellType::Path(id)
                        ==> id < self.npath) by {
                    assert(self.cell_at(d) == mid.cell_at(d));
                }
            }
        }
    }

    /// Draws a random member of the frontier as the origin of the next
    /// path; `FrontierExhausted` when the frontier is empty, which is the
    /// normal termination signal of the generation loop.
    pub fn new_random_origin(&mut self) -> (r: Result<(usize, usize), MazeError>)
        requires
            old(self).wf(),
        ensures
            final(self).wf(),
            r is Err <==> old(self).clear().len() == 0,
            r is Err ==> r->Err_0 == MazeError::FrontierExhausted && *final(self) == *old(self),
            r is Ok ==> {
                &&& final(self).cells@ == old(self).cells@
                &&& final(self).frames() == old(self).frames()
                &&& final(self).clear() == old(self).clear()
                &&& final(self).npath == old(self).npath
                &&& final(self).size == old(self).size
                &&& final(self).rng == rng_next(old(self).rng)
                &&& r->Ok_0 == old(self).clear()[spec_randab(old(self).rng, 0, old(self).clear().len() as int)]
                &&& old(self).clear().contains(r->Ok_0)
                &&& in_bounds(r->Ok_0, old(self).spec_size())
            },
    {
        let l = self.clear_cells.len();
        if l == 0 {
            return Err(MazeError::FrontierExhausted);
        }
        let mut rng = self.rng;
        let ri = Grid::randab(&mut rng, 0, l);
        self.rng = rng;
        let c = self.clear_cells[ri];
        Ok(c)
    }

    /// Declares `coord` a committed single-cell path: the seed of the
    /// maze.
    pub fn set_origin(&mut self, coord: (usize, usize)) -> (r: Result<(), MazeError>)
        requires
            old(self).wf(),
            in_bounds(coord, old(self).spec_size()),
            old(self).npath < usize::MAX,
        ensures
            r is Err <==> old(self).frames().len() > 0,
            r is Err ==> r->Err_0 == MazeError::InvalidState && *final(self) == *old(self),
            r is Ok ==> {
                &&& final(self).wf()
                &&& final(self).size == old(self).size
                &&& final(self).npath == old(self).npath + 1
                &&& final(self).frames().len() == 0
                &&& final(self).rng == old(self).rng
                &&& forall|d: (usize, usize)| in_bounds(d, old(self).spec_size())
                        ==> #[trigger] final(self).cell_at(d) == (if d == coord {
                                CellType::Path(old(self).npath)
                            } else {
                                old(self).cell_at(d)
                            })
                &&& forall|d: (usize, usize)| #[trigger] final(self).clear().contains(d)
                        <==> old(self).clear().contains(d)
                            && frontier_keep(*old(self), seq![coord], d)
                &&& final(self).clear().len() <= old(self).clear().len()
                &&& (old(self).clear().contains(coord)
                        ==> final(self).clear().len() < old(self).clear().len())
                &&& (ids_ok(*old(self)) ==> ids_ok(*final(self)))
            },
    {
        let ghost g0 = *self;
        match self.new_path_origin(coord) {
            Err(e) => {
                return Err(e);
            },
            Ok(()) => {},
        }
        let ghost mid1 = *self;
        self.commit_path();
        proof {
            assert(mid1.path_cells() == seq![coord]);
            assert forall|d: (usize, usize)|
                #[trigger] frontier_keep(mid1, seq![coord], d) == frontier_keep(g0, seq![coord], d) by {
                lemma_count_after_congruent(mid1, g0, seq![coord], neighbors_seq(d, g0.spec_size()));
            }
            assert forall|d: (usize, usize)| in_bounds(d, g0.spec_size())
                implies #[trigger] self.cell_at(d) == (if d == coord {
                    CellType::Path(g0.npath)
                } else {
                    g0.cell_at(d)
                }) by {
                assert(mid1.in_path_s(d) <==> d == coord);
            }
        }
        Ok(())
    }

    /// Generates the whole maze: seeds the origin cell, then grows and
    /// commits one path per round until the frontier is exhausted. Once
    /// the seed is committed every frontier cell can still escape to the
    /// maze, so generation always succeeds: the frontier ends empty, no
    /// path is left in construction, and the seed cell keeps the id the
    /// path counter had at entry — 0 on a freshly built grid.
    pub fn run(&mut self) -> (r: Result<(), MazeError>)
        requires
            old(self).wf(),
            old(self).frames().len() == 0,
            old(self).npath + old(self).clear().len() + 2 < usize::MAX,
        ensures
            final(self).wf(),
            final(self).size == old(self).size,
            final(self).frames().len() == 0,
            r is Ok,
            final(self).clear().len() == 0,
            final(self).cell_at((0, 0)) == CellType::Path(old(self).npath),
            ids_ok(*old(self)) ==> ids_ok(*final(self)),
            ids_ok(*old(self)) && frontier_unclaimed(*old(self))
                ==> committed_paths_simple(*final(self), old(self).npath),
    {
        match self.set_origin((0, 0)) {
            Err(_) => {
                proof {
                    assert(false);
                }
                return Err(MazeError::EmptyPath);
            },
            Ok(()) => {},
        }
        proof {
            if ids_ok(*old(self)) && frontier_unclaimed(*old(self)) {
                lemma_structure_after_seed(*old(self), *self, (0, 0));
                assert forall|j: int| 0 <= j < self.clear().len()
                    implies !self.claimed(#[trigger] self.clear()[j]) by {
                    let d = self.clear()[j];
                    assert(self.clear().contains(d));
                    assert(old(self).clear().contains(d));
                    assert(frontier_keep(*old(self), seq![(0usize, 0usize)], d));
                    let jj = choose|jj: int| 0 <= jj < old(self).clear().len()
                        && old(self).clear()[jj] == d;
                    assert(!old(self).claimed(d));
                    assert(d != (0usize, 0usize));
                    assert(in_bounds(d, old(self).spec_size()));
                    assert(self.cell_at(d) == old(self).cell_at(d));
                }
            }
        }
        while self.clear_cells.len() > 0
            invariant
                self.wf(),
                self.frames().len() == 0,
                self.size == old(self).size,
                old(self).npath + old(self).clear().len() + 2 < usize::MAX,
                self.npath + self.clear().len() <= old(self).npath + old(self).clear().len() + 1,
                self.npath >= old(self).npath + 1,
                self.cell_at((0, 0)) == CellType::Path(old(self).npath),
                !self.clear().contains((0usize, 0usize)),
                ids_ok(*old(self)) ==> ids_ok(*self),
                ids_ok(*old(self)) && frontier_unclaimed(*old(self))
                    ==> frontier_unclaimed(*self)
                        && committed_paths_simple(*self, old(self).npath),
            decreases self.clear().len(),
        {
            let ghost at_start = *self;
            let cs = match self.new_random_origin() {
                Ok(c) => c,
                Err(_) => {
                    proof {
                        assert(false);
                    }
                    return Err(MazeError::EmptyPath);
                },
            };
            proof {
                lemma_ids_ok_congruent(at_start, *self);
                assert(cs != (0usize, 0usize));
                assert(self.claimed((0, 0))) by {
                    assert(in_bounds((0usize, 0usize), self.spec_size()));
                }
                lemma_escape_from_anywhere(*self, cs);
            }
            let ghost before_growth = *self;
            match self.new_path(cs) {
                Ok(()) => {},
                Err(e) => {
                    proof {
                        assert(false);
                    }
                    return Err(e);
                },
            }
            let ghost g1 = *self;
            proof {
                lemma_ids_ok_congruent(before_growth, *self);
                assert(!self.in_path_s((0usize, 0usize))) by {
                    if self.in_path_s((0usize, 0usize)) {
                        let i = choose|i: int| 0 <= i < self.path_cells().len()
                            && self.path_cells()[i] == (0usize, 0usize);
                        assert(self.path_cells()[0] == cs);
                        assert(i >= 1);
                        assert(!self.claimed(self.path_cells()[i]));
                        assert(self.cell_at((0, 0)) == before_growth.cell_at((0, 0)));
                    }
                }
                if ids_ok(*old(self)) && frontier_unclaimed(*old(self)) {
                    lemma_structure_congruent(at_start, g1, old(self).npath);
                    assert(frontier_unclaimed(g1)) by {
                        assert forall|j: int| 0 <= j < g1.clear().len()
                            implies !g1.claimed(#[trigger] g1.clear()[j]) by {
                            assert(at_start.clear()[j] == g1.clear()[j]);
                            assert(!at_start.claimed(at_start.clear()[j]));
                            assert(in_bounds(g1.clear()[j], g1.spec_size()));
                            assert(g1.cell_at(g1.clear()[j]) == at_start.cell_at(at_start.clear()[j]));
                        }
                    }
                    assert forall|k: int| 0 <= k < g1.path_cells().len()
                        implies !g1.claimed(#[trigger] g1.path_cells()[k]) by {
                        if k == 0 {
                            assert(g1.path_cells()[0] == cs);
                            assert(g1.clear().contains(cs));
                            let jj = choose|jj: int| 0 <= jj < g1.clear().len()
                                && g1.clear()[jj] == cs;
                            assert(!g1.claimed(g1.clear()[jj]));
                        }
                    }
                    assert(g1.path_cells().last() == g1.frames().last().cell);
                }
            }
            self.commit_path();
            proof {
                if ids_ok(*old(self)) && frontier_unclaimed(*old(self)) {
                    lemma_structure_after_commit(g1, *self, old(self).npath);
                    assert(frontier_unclaimed(*self)) by {
                        assert forall|j: int| 0 <= j < self.clear().len()
                            implies !self.claimed(#[trigger] self.clear()[j]) by {
                            let d = self.clear()[j];
                            assert(self.clear().contains(d));
                            assert(g1.clear().contains(d));
                            assert(frontier_keep(g1, g1.path_cells(), d));
                            let jj = choose|jj: int| 0 <= jj < g1.clear().len()
                                && g1.clear()[jj] == d;
                            assert(!g1.claimed(d));
                            assert(in_bounds(d, g1.spec_size()));
                            assert(!g1.in_path_s(d)) by {
                                if g1.in_path_s(d) {
                                    let kk = choose|kk: int| 0 <= kk < g1.path_cells().len()
                                        && g1.path_cells()[kk] == d;
                                }
                            }
                            assert(self.cell_at(d) == g1.cell_at(d));
                        }
                    }
                }
            }
        }
        Ok(())
    }
}

} // verus!
