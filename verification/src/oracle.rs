//! The connectivity oracle: a depth-first search that tells whether a
//! cell can still reach the committed maze without stepping on, or next
//! to, the path in construction.

use vstd::prelude::*;
use crate::maze::{Grid, in_bounds, neighbors_seq, lemma_neighbors_props, lemma_neighbors_contains_iff, lemma_row_major, MAX_SIZE};

verus! {

broadcast use vstd::seq_lib::group_seq_properties;

/// How many flags of a visited set are raised.
pub open spec fn count_true(s: Seq<bool>) -> nat
    decreases s.len(),
{
    if s.len() == 0 {
        0
    } else {
        count_true(s.drop_last()) + (if s.last() { 1nat } else { 0nat })
    }
}

/// No more flags are raised than there are flags.
proof fn lemma_count_true_le_len(s: Seq<bool>)
    ensures
        count_true(s) <= s.len(),
    decreases s.len(),
{
    if s.len() > 0 {
        lemma_count_true_le_len(s.drop_last());
    }
}

/// A sequence without raised flags counts zero.
proof fn lemma_count_true_zero(s: Seq<bool>)
    requires
        forall|i: int| 0 <= i < s.len() ==> !s[i],
    ensures
        count_true(s) == 0,
    decreases s.len(),
{
    if s.len() > 0 {
        lemma_count_true_zero(s.drop_last());
    }
}

/// Raising one lowered flag raises the count by exactly one.
proof fn lemma_count_true_update(s: Seq<bool>, i: int)
    requires
        0 <= i < s.len(),
        !s[i],
    ensures
        count_true(s.update(i, true)) == count_true(s) + 1,
    decreases s.len(),
{
    let t = s.update(i, true);
    if i == s.len() - 1 {
        assert(t.drop_last() =~= s.drop_last());
    } else {
        assert(t.drop_last() =~= s.drop_last().update(i, true));
        lemma_count_true_update(s.drop_last(), i);
    }
}

/// The private visited set of one connectivity search: one flag per grid
/// cell (row-major) and the number of flags raised so far.
pub struct Visited {
    pub flags: Vec<bool>,
    pub count: usize,
    pub size: usize,
}

impl Visited {
    pub open spec fn wf(self) -> bool {
        &&& 2 <= self.size <= MAX_SIZE
        &&& self.flags@.len() == self.size * self.size
        &&& self.count == count_true(self.flags@)
    }

    /// Whether `c` was already visited in this search.
    pub open spec fn has(self, c: (usize, usize)) -> bool {
        self.flags@[c.0 * (self.size as int) + c.1]
    }

    /// A fresh, empty visited set for a grid of side `size`.
    pub fn new(size: usize) -> (r: Visited)
        requires
            2 <= size <= MAX_SIZE,
        ensures
            r.wf(),
            r.size == size,
            r.count == 0,
            forall|c: (usize, usize)| in_bounds(c, size as nat) ==> !(#[trigger] r.has(c)),
    {
        proof {
            assert(size * size <= MAX_SIZE * MAX_SIZE) by (nonlinear_arith)
                requires size <= MAX_SIZE;
        }
        let n = size * size;
        let flags: Vec<bool> = vec![false; n];
        proof {
            lemma_count_true_zero(flags@);
            assert forall|c: (usize, usize)| in_bounds(c, size as nat)
                implies 0 <= c.0 * (size as int) + c.1 < n by {
                lemma_row_major(c.0 as int, c.1 as int, size as int);
            }
        }
        Visited { flags, count: 0, size }
    }

    /// Marks `c` visited; true iff it was not visited before.
    pub fn insert(&mut self, c: (usize, usize)) -> (r: bool)
        requires
            old(self).wf(),
            in_bounds(c, old(self).size as nat),
        ensures
            final(self).wf(),
            final(self).size == old(self).size,
            r <==> !old(self).has(c),
            final(self).has(c),
            forall|d: (usize, usize)| in_bounds(d, old(self).size as nat) && d != c
                ==> final(self).has(d) == old(self).has(d),
            r ==> final(self).count == old(self).count + 1,
            !r ==> *final(self) == *old(self),
    {
        proof {
            lemma_row_major(c.0 as int, c.1 as int, self.size as int);
            assert(self.size * self.size <= MAX_SIZE * MAX_SIZE) by (nonlinear_arith)
                requires self.size <= MAX_SIZE;
        }
        let idx = c.0 * self.size + c.1;
        if self.flags[idx] {
            false
        } else {
            proof {
                lemma_count_true_update(self.flags@, idx as int);
                lemma_count_true_le_len(self.flags@);
            }
            self.flags[idx] = true;
            self.count = self.count + 1;
            proof {
                assert forall|d: (usize, usize)| in_bounds(d, self.size as nat) && d != c
                    implies self.has(d) == old(self).has(d) by {
                    assert(d.0 != c.0 || d.1 != c.1);
                    lemma_row_major(d.0 as int, d.1 as int, self.size as int);
                    assert(self.size * self.size <= MAX_SIZE * MAX_SIZE) by (nonlinear_arith)
                        requires self.size <= MAX_SIZE;
                    assert(d.0 * (self.size as int) + d.1 != c.0 * (self.size as int) + c.1)
                        by (nonlinear_arith)
                        requires
                            d.0 < self.size, d.1 < self.size,
                            c.0 < self.size, c.1 < self.size,
                            d.0 != c.0 || d.1 != c.1;
                }
            }
            true
        }
    }
}

/// Within `fuel` steps one can walk from `c`, over cells that are neither
/// on nor beside the path in construction, to a cell that touches the
/// committed maze.
pub open spec fn esc_reach(g: Grid, c: (usize, usize), fuel: nat) -> bool
    decreases fuel,
{
    g.near_maze_s(c) || (fuel > 0 && exists|i: int| {
        &&& 0 <= i < neighbors_seq(c, g.spec_size()).len()
        &&& g.explorable_ok(#[trigger] neighbors_seq(c, g.spec_size())[i])
        &&& esc_reach(g, neighbors_seq(c, g.spec_size())[i], (fuel - 1) as nat)
    })
}

/// An escape of some length exists from `c`.
pub open spec fn can_escape(g: Grid, c: (usize, usize)) -> bool {
    exists|fuel: nat| esc_reach(g, c, fuel)
}

/// Every visited cell that the path does not block, except the ones the
/// search is still working on, is fully explored: it does not touch the
/// maze and all its neighbours are visited too.
pub open spec fn closed_except(g: Grid, v: Visited, gray: Set<(usize, usize)>) -> bool {
    forall|c: (usize, usize)|
        in_bounds(c, g.spec_size()) && #[trigger] v.has(c) && g.explorable_ok(c)
            && !gray.contains(c)
        ==> !g.near_maze_s(c)
            && (forall|j: int| 0 <= j < neighbors_seq(c, g.spec_size()).len()
                    ==> v.has(#[trigger] neighbors_seq(c, g.spec_size())[j]))
}

/// In a fully explored visited set, no visited unblocked cell can escape
/// to the maze, whatever the fuel.
proof fn lemma_closed_no_escape(g: Grid, v: Visited, c: (usize, usize), k: nat)
    requires
        g.wf(),
        v.wf(),
        v.size == g.size,
        closed_except(g, v, Set::empty()),
        in_bounds(c, g.spec_size()),
        v.has(c),
        g.explorable_ok(c),
    ensures
        !esc_reach(g, c, k),
    decreases k,
{
    let ns = neighbors_seq(c, g.spec_size());
    lemma_neighbors_props(c, g.spec_size());
    assert(!g.near_maze_s(c));
    if k > 0 {
        assert forall|i: int| 0 <= i < ns.len() && g.explorable_ok(#[trigger] ns[i])
            implies !esc_reach(g, ns[i], (k - 1) as nat) by {
            assert(v.has(ns[i]));
            lemma_closed_no_escape(g, v, ns[i], (k - 1) as nat);
        }
    }
}

impl Grid {
    /// Recursive step of the connectivity search. `gray` carries the
    /// cells whose exploration is still under way, `origin` among them.
    /// A `true` answer comes with an escape; a `false` answer leaves the
    /// visited set fully explored but for the cells still under way.
    #[verifier::spinoff_prover]
    #[verifier::rlimit(100)]
    pub fn cjm(&self, origin: (usize, usize), connex: &mut Visited, gray: Ghost<Set<(usize, usize)>>) -> (r: bool)
        requires
            self.wf(),
            in_bounds(origin, self.spec_size()),
            old(connex).wf(),
            old(connex).size == self.size,
            old(connex).has(origin),
            gray@.contains(origin),
            forall|c: (usize, usize)| #[trigger] gray@.contains(c)
                ==> in_bounds(c, self.spec_size()) && old(connex).has(c),
            closed_except(*self, *old(connex), gray@),
        ensures
            final(connex).wf(),
            final(connex).size == self.size,
            final(connex).count >= old(connex).count,
            forall|c: (usize, usize)| in_bounds(c, self.spec_size()) && old(connex).has(c)
                ==> #[trigger] final(connex).has(c),
            r ==> can_escape(*self, origin),
            !r ==> !self.near_maze_s(origin),
            !r ==> forall|j: int| 0 <= j < neighbors_seq(origin, self.spec_size()).len()
                    ==> final(connex).has(#[trigger] neighbors_seq(origin, self.spec_size())[j]),
            !r ==> closed_except(*self, *final(connex), gray@.remove(origin)),
        decreases self.spec_size() * self.spec_size() - old(connex).count,
    {
        if self.near_maze(origin) {
            proof {
                assert(esc_reach(*self, origin, 0));
            }
            return true;
        }
        let neighbours = self.collect_neighbours(origin);
        proof {
            lemma_neighbors_props(origin, self.spec_size());
        }
        let mut i: usize = 0;
        while i < neighbours.len()
            invariant
                self.wf(),
                in_bounds(origin, self.spec_size()),
                !self.near_maze_s(origin),
                neighbours@ == neighbors_seq(origin, self.spec_size()),
                forall|j: int| 0 <= j < neighbours@.len()
                    ==> in_bounds(#[trigger] neighbours@[j], self.spec_size()),
                i <= neighbours@.len(),
                connex.wf(),
                connex.size == self.size,
                connex.count >= old(connex).count,
                forall|c: (usize, usize)| in_bounds(c, self.spec_size()) && old(connex).has(c)
                    ==> #[trigger] connex.has(c),
                forall|c: (usize, usize)| #[trigger] gray@.contains(c)
                    ==> in_bounds(c, self.spec_size()) && connex.has(c),
                forall|j: int| 0 <= j < i ==> connex.has(#[trigger] neighbours@[j]),
                closed_except(*self, *connex, gray@),
            decreases neighbours@.len() - i,
        {
            let cs = neighbours[i];
            let ghost pre = *connex;
            if connex.insert(cs) {
                if !(self.near_path(cs) || self.in_path(cs)) {
                    proof {
                        lemma_count_true_le_len(connex.flags@);
                        assert(connex.count > old(connex).count);
                        assert(!gray@.contains(cs));
                        assert forall|c: (usize, usize)|
                            in_bounds(c, self.spec_size()) && #[trigger] connex.has(c)
                                && self.explorable_ok(c) && !gray@.insert(cs).contains(c)
                            implies !self.near_maze_s(c)
                                && (forall|j: int| 0 <= j < neighbors_seq(c, self.spec_size()).len()
                                        ==> connex.has(#[trigger] neighbors_seq(c, self.spec_size())[j])) by {
                            assert(c != cs);
                            assert(pre.has(c));
                        }
                    }
                    if self.cjm(cs, connex, Ghost(gray@.insert(cs))) {
                        proof {
                            let fuel = choose|f: nat| esc_reach(*self, cs, f);
                            assert(neighbors_seq(origin, self.spec_size())[i as int] == cs);
                            assert(esc_reach(*self, origin, fuel + 1));
                        }
                        return true;
                    }
                    proof {
                        assert(gray@.insert(cs).remove(cs) =~= gray@);
                    }
                } else {
                    proof {
                        assert forall|c: (usize, usize)|
                            in_bounds(c, self.spec_size()) && #[trigger] connex.has(c)
                                && self.explorable_ok(c) && !gray@.contains(c)
                            implies !self.near_maze_s(c)
                                && (forall|j: int| 0 <= j < neighbors_seq(c, self.spec_size()).len()
                                        ==> connex.has(#[trigger] neighbors_seq(c, self.spec_size())[j])) by {
                            assert(c != cs);
                            assert(pre.has(c));
                        }
                    }
                }
            }
            i = i + 1;
        }
        proof {
            assert forall|c: (usize, usize)|
                in_bounds(c, self.spec_size()) && #[trigger] connex.has(c)
                    && self.explorable_ok(c) && !gray@.remove(origin).contains(c)
                implies !self.near_maze_s(c)
                    && (forall|j: int| 0 <= j < neighbors_seq(c, self.spec_size()).len()
                            ==> connex.has(#[trigger] neighbors_seq(c, self.spec_size())[j])) by {
                if c != origin {
                    assert(!gray@.contains(c));
                }
            }
        }
        false
    }

    /// Decides whether `coords` can still reach the committed maze
    /// without crossing or touching the path in construction.
    pub fn can_join_maze(&self, coords: (usize, usize)) -> (r: bool)
        requires
            self.wf(),
            in_bounds(coords, self.spec_size()),
        ensures
            r == can_escape(*self, coords),
    {
        let mut connex = Visited::new(self.size);
        connex.insert(coords);
        let r = self.cjm(coords, &mut connex, Ghost(Set::empty().insert(coords)));
        proof {
            if !r {
                let v = connex;
                assert(Set::<(usize, usize)>::empty().insert(coords).remove(coords)
                    =~= Set::<(usize, usize)>::empty());
                assert forall|k: nat| !esc_reach(*self, coords, k) by {
                    lemma_neighbors_props(coords, self.spec_size());
                    if self.explorable_ok(coords) {
                        lemma_closed_no_escape(*self, v, coords, k);
                    } else {
                        if k > 0 {
                            let ns = neighbors_seq(coords, self.spec_size());
                            assert forall|i: int| 0 <= i < ns.len()
                                && self.explorable_ok(#[trigger] ns[i])
                                implies !esc_reach(*self, ns[i], (k - 1) as nat) by {
                                assert(v.has(ns[i]));
                                lemma_closed_no_escape(*self, v, ns[i], (k - 1) as nat);
                            }
                        }
                    }
                }
            }
        }
        r
    }
}


/// Some neighbour of `c` lies on the given snapshot of the path cells.
pub open spec fn near_path_l(path: Seq<(usize, usize)>, c: (usize, usize), size: nat) -> bool {
    exists|i: int| 0 <= i < neighbors_seq(c, size).len()
        && path.contains(#[trigger] neighbors_seq(c, size)[i])
}

/// Explorability measured against an explicit snapshot of the path
/// cells: `n` is neither on that path nor beside it.
pub open spec fn expl_ok_l(g: Grid, path: Seq<(usize, usize)>, n: (usize, usize)) -> bool {
    !path.contains(n) && !near_path_l(path, n, g.spec_size())
}

/// Escape within `fuel` steps, with the blocking path cells given
/// explicitly instead of read off the grid.
pub open spec fn esc_reach_l(g: Grid, path: Seq<(usize, usize)>, c: (usize, usize), fuel: nat) -> bool
    decreases fuel,
{
    g.near_maze_s(c) || (fuel > 0 && exists|i: int| {
        &&& 0 <= i < neighbors_seq(c, g.spec_size()).len()
        &&& expl_ok_l(g, path, #[trigger] neighbors_seq(c, g.spec_size())[i])
        &&& esc_reach_l(g, path, neighbors_seq(c, g.spec_size())[i], (fuel - 1) as nat)
    })
}

/// An escape of some length exists from `c` past the given path cells.
pub open spec fn can_escape_l(g: Grid, path: Seq<(usize, usize)>, c: (usize, usize)) -> bool {
    exists|fuel: nat| esc_reach_l(g, path, c, fuel)
}

/// Explorability on the grid agrees with explorability against the
/// grid's own path cells.
pub proof fn lemma_expl_ok_bridge(g: Grid, n: (usize, usize))
    ensures
        g.explorable_ok(n) == expl_ok_l(g, g.path_cells(), n),
{
    let ns = neighbors_seq(n, g.spec_size());
    if g.near_path_s(n) {
        let i = choose|i: int| 0 <= i < ns.len() && g.in_path_s(#[trigger] ns[i]);
        assert(g.path_cells().contains(ns[i]));
        assert(near_path_l(g.path_cells(), n, g.spec_size()));
    }
    if near_path_l(g.path_cells(), n, g.spec_size()) {
        let i = choose|i: int| 0 <= i < ns.len() && g.path_cells().contains(#[trigger] ns[i]);
        assert(g.in_path_s(ns[i]));
        assert(g.near_path_s(n));
    }
}

/// The two escape measures agree when the explicit path is the grid's
/// own.
pub proof fn lemma_esc_reach_bridge(g: Grid, c: (usize, usize), fuel: nat)
    ensures
        esc_reach(g, c, fuel) == esc_reach_l(g, g.path_cells(), c, fuel),
    decreases fuel,
{
    let ns = neighbors_seq(c, g.spec_size());
    if fuel > 0 {
        if esc_reach(g, c, fuel) && !g.near_maze_s(c) {
            let i = choose|i: int| 0 <= i < ns.len() && g.explorable_ok(#[trigger] ns[i])
                && esc_reach(g, ns[i], (fuel - 1) as nat);
            lemma_expl_ok_bridge(g, ns[i]);
            lemma_esc_reach_bridge(g, ns[i], (fuel - 1) as nat);
            assert(esc_reach_l(g, g.path_cells(), c, fuel));
        }
        if esc_reach_l(g, g.path_cells(), c, fuel) && !g.near_maze_s(c) {
            let i = choose|i: int| 0 <= i < ns.len() && expl_ok_l(g, g.path_cells(), #[trigger] ns[i])
                && esc_reach_l(g, g.path_cells(), ns[i], (fuel - 1) as nat);
            lemma_expl_ok_bridge(g, ns[i]);
            lemma_esc_reach_bridge(g, ns[i], (fuel - 1) as nat);
            assert(esc_reach(g, c, fuel));
        }
    }
}

/// The two escape predicates agree when the explicit path is the grid's
/// own.
pub proof fn lemma_can_escape_bridge(g: Grid, c: (usize, usize))
    ensures
        can_escape(g, c) == can_escape_l(g, g.path_cells(), c),
{
    if can_escape(g, c) {
        let fuel = choose|fuel: nat| esc_reach(g, c, fuel);
        lemma_esc_reach_bridge(g, c, fuel);
    }
    if can_escape_l(g, g.path_cells(), c) {
        let fuel = choose|fuel: nat| esc_reach_l(g, g.path_cells(), c, fuel);
        lemma_esc_reach_bridge(g, c, fuel);
    }
}

/// Touching the maze depends on the cells and the size alone.
pub proof fn lemma_near_maze_congruent(a: Grid, b: Grid, c: (usize, usize))
    requires
        a.cells@ == b.cells@,
        a.size == b.size,
    ensures
        a.near_maze_s(c) == b.near_maze_s(c),
{
    let ns = neighbors_seq(c, a.spec_size());
    if a.near_maze_s(c) {
        let i = choose|i: int| 0 <= i < ns.len() && a.claimed(#[trigger] ns[i]);
        assert(b.cell_at(ns[i]) == a.cell_at(ns[i]));
        assert(b.near_maze_s(c));
    }
    if b.near_maze_s(c) {
        let i = choose|i: int| 0 <= i < ns.len() && b.claimed(#[trigger] ns[i]);
        assert(a.cell_at(ns[i]) == b.cell_at(ns[i]));
        assert(a.near_maze_s(c));
    }
}

/// Escape past an explicit path depends on the cells and the size alone.
pub proof fn lemma_esc_reach_l_congruent(a: Grid, b: Grid, path: Seq<(usize, usize)>, c: (usize, usize), fuel: nat)
    requires
        a.cells@ == b.cells@,
        a.size == b.size,
    ensures
        esc_reach_l(a, path, c, fuel) == esc_reach_l(b, path, c, fuel),
    decreases fuel,
{
    lemma_near_maze_congruent(a, b, c);
    let ns = neighbors_seq(c, a.spec_size());
    if fuel > 0 {
        if esc_reach_l(a, path, c, fuel) && !a.near_maze_s(c) {
            let i = choose|i: int| 0 <= i < ns.len() && expl_ok_l(a, path, #[trigger] ns[i])
                && esc_reach_l(a, path, ns[i], (fuel - 1) as nat);
            lemma_esc_reach_l_congruent(a, b, path, ns[i], (fuel - 1) as nat);
            assert(expl_ok_l(b, path, ns[i]));
            assert(esc_reach_l(b, path, c, fuel));
        }
        if esc_reach_l(b, path, c, fuel) && !b.near_maze_s(c) {
            let i = choose|i: int| 0 <= i < ns.len() && expl_ok_l(b, path, #[trigger] ns[i])
                && esc_reach_l(b, path, ns[i], (fuel - 1) as nat);
            lemma_esc_reach_l_congruent(a, b, path, ns[i], (fuel - 1) as nat);
            assert(expl_ok_l(a, path, ns[i]));
            assert(esc_reach_l(a, path, c, fuel));
        }
    }
}

/// The escape predicate over an explicit path depends on the cells and
/// the size alone.
pub proof fn lemma_can_escape_l_congruent(a: Grid, b: Grid, path: Seq<(usize, usize)>, c: (usize, usize))
    requires
        a.cells@ == b.cells@,
        a.size == b.size,
    ensures
        can_escape_l(a, path, c) == can_escape_l(b, path, c),
{
    if can_escape_l(a, path, c) {
        let fuel = choose|fuel: nat| esc_reach_l(a, path, c, fuel);
        lemma_esc_reach_l_congruent(a, b, path, c, fuel);
    }
    if can_escape_l(b, path, c) {
        let fuel = choose|fuel: nat| esc_reach_l(b, path, c, fuel);
        lemma_esc_reach_l_congruent(a, b, path, c, fuel);
    }
}

/// A walk the escape search could take: in-bounds cells, each later one
/// an explorable neighbour of its predecessor, ending beside the maze.
pub open spec fn is_escape_route(g: Grid, path: Seq<(usize, usize)>, r: Seq<(usize, usize)>) -> bool {
    &&& r.len() >= 1
    &&& forall|k: int| 0 <= k < r.len() ==> in_bounds(#[trigger] r[k], g.spec_size())
    &&& g.near_maze_s(r.last())
    &&& forall|k: int| 1 <= k < r.len() ==> neighbors_seq(r[k - 1], g.spec_size()).contains(#[trigger] r[k])
    &&& forall|k: int| 1 <= k < r.len() ==> expl_ok_l(g, path, #[trigger] r[k])
}

/// Wherever the escape search reaches, a route leads.
proof fn lemma_reach_to_route(g: Grid, path: Seq<(usize, usize)>, c: (usize, usize), fuel: nat)
    requires
        g.wf(),
        in_bounds(c, g.spec_size()),
        esc_reach_l(g, path, c, fuel),
    ensures
        exists|r: Seq<(usize, usize)>| is_escape_route(g, path, r) && r[0] == c && r.len() <= fuel + 1,
    decreases fuel,
{
    if g.near_maze_s(c) {
        let r = seq![c];
        assert(r.last() == c);
        assert(is_escape_route(g, path, r) && r[0] == c && r.len() <= fuel + 1);
    } else {
        let ns = neighbors_seq(c, g.spec_size());
        let i = choose|i: int| 0 <= i < ns.len() && expl_ok_l(g, path, #[trigger] ns[i])
            && esc_reach_l(g, path, ns[i], (fuel - 1) as nat);
        lemma_neighbors_props(c, g.spec_size());
        lemma_reach_to_route(g, path, ns[i], (fuel - 1) as nat);
        let r0 = choose|r0: Seq<(usize, usize)>|
            is_escape_route(g, path, r0) && r0[0] == ns[i] && r0.len() <= fuel;
        let r = seq![c] + r0;
        assert forall|k: int| 1 <= k < r.len()
            implies neighbors_seq(r[k - 1], g.spec_size()).contains(#[trigger] r[k])
                && expl_ok_l(g, path, r[k]) && in_bounds(r[k], g.spec_size()) by {
            assert(r[k] == r0[k - 1]);
            if k == 1 {
                assert(r[0] == c && r0[0] == ns[i]);
                assert(ns.contains(ns[i]));
            } else {
                assert(r[k - 1] == r0[k - 2]);
            }
        }
        assert(r.last() == r0.last());
        assert(is_escape_route(g, path, r) && r[0] == c && r.len() <= fuel + 1);
    }
}

/// Wherever a route leads, the escape search reaches.
proof fn lemma_route_to_reach(g: Grid, path: Seq<(usize, usize)>, r: Seq<(usize, usize)>)
    requires
        g.wf(),
        is_escape_route(g, path, r),
    ensures
        esc_reach_l(g, path, r[0], (r.len() - 1) as nat),
    decreases r.len(),
{
    if r.len() == 1 {
        assert(g.near_maze_s(r[0]));
    } else {
        let t = r.skip(1);
        assert forall|k: int| 1 <= k < t.len()
            implies neighbors_seq(t[k - 1], g.spec_size()).contains(#[trigger] t[k])
                && expl_ok_l(g, path, t[k]) by {
            assert(t[k] == r[k + 1] && t[k - 1] == r[k]);
        }
        assert forall|k: int| 0 <= k < t.len() implies in_bounds(#[trigger] t[k], g.spec_size()) by {
            assert(t[k] == r[k + 1]);
        }
        assert(t.last() == r.last());
        assert(is_escape_route(g, path, t));
        lemma_route_to_reach(g, path, t);
        let ns = neighbors_seq(r[0], g.spec_size());
        assert(ns.contains(r[1]));
        let i = choose|i: int| 0 <= i < ns.len() && ns[i] == r[1];
        assert(t[0] == r[1]);
        assert(expl_ok_l(g, path, ns[i]));
        assert(esc_reach_l(g, path, ns[i], (r.len() - 2) as nat));
        assert(esc_reach_l(g, path, r[0], (r.len() - 1) as nat));
    }
}

/// Any route from a cell not yet beside the maze can be shortened until
/// its later cells neither revisit the start nor touch it.
proof fn lemma_route_avoiding(g: Grid, path: Seq<(usize, usize)>, c: (usize, usize), r: Seq<(usize, usize)>)
    requires
        g.wf(),
        in_bounds(c, g.spec_size()),
        !g.near_maze_s(c),
        is_escape_route(g, path, r),
        r[0] == c,
    ensures
        exists|r2: Seq<(usize, usize)>| {
            &&& is_escape_route(g, path, r2)
            &&& r2[0] == c
            &&& r2.len() >= 2
            &&& forall|k: int| 2 <= k < r2.len()
                    ==> #[trigger] r2[k] != c && !neighbors_seq(c, g.spec_size()).contains(r2[k])
        },
    decreases r.len(),
{
    let ns = neighbors_seq(c, g.spec_size());
    if exists|k: int| 2 <= k < r.len() && (#[trigger] r[k] == c || ns.contains(r[k])) {
        let k = choose|k: int| 2 <= k < r.len() && (#[trigger] r[k] == c || ns.contains(r[k]));
        if r[k] == c {
            let sub = r.skip(k);
            assert forall|j: int| 1 <= j < sub.len()
                implies neighbors_seq(sub[j - 1], g.spec_size()).contains(#[trigger] sub[j])
                    && expl_ok_l(g, path, sub[j]) by {
                assert(sub[j] == r[j + k] && sub[j - 1] == r[j + k - 1]);
            }
            assert forall|j: int| 0 <= j < sub.len() implies in_bounds(#[trigger] sub[j], g.spec_size()) by {
                assert(sub[j] == r[j + k]);
            }
            assert(sub.last() == r.last());
            assert(is_escape_route(g, path, sub) && sub[0] == c);
            lemma_route_avoiding(g, path, c, sub);
        } else {
            let sub = seq![c] + r.skip(k);
            assert forall|j: int| 1 <= j < sub.len()
                implies neighbors_seq(sub[j - 1], g.spec_size()).contains(#[trigger] sub[j])
                    && expl_ok_l(g, path, sub[j]) by {
                assert(sub[j] == r.skip(k)[j - 1]);
                assert(sub[j] == r[j + k - 1]);
                if j == 1 {
                    assert(sub[0] == c);
                    assert(ns.contains(r[k]));
                } else {
                    assert(sub[j - 1] == r[j + k - 2]);
                }
            }
            assert forall|j: int| 0 <= j < sub.len() implies in_bounds(#[trigger] sub[j], g.spec_size()) by {
                if j > 0 {
                    assert(sub[j] == r[j + k - 1]);
                }
            }
            assert(sub.last() == r.last());
            assert(is_escape_route(g, path, sub) && sub[0] == c);
            assert(sub.len() < r.len());
            lemma_route_avoiding(g, path, c, sub);
        }
    } else {
        assert(r.len() >= 2) by {
            if r.len() == 1 {
                assert(r.last() == c);
            }
        }
        assert forall|k: int| 2 <= k < r.len()
            implies #[trigger] r[k] != c && !ns.contains(r[k]) by {}
        assert(is_escape_route(g, path, r) && r[0] == c && r.len() >= 2
            && forall|k: int| 2 <= k < r.len()
                ==> #[trigger] r[k] != c && !neighbors_seq(c, g.spec_size()).contains(r[k]));
    }
}

/// When a cell that does not yet touch the maze is appended to the path,
/// a shortest escape walk from it hands its first step to the new frame
/// as a candidate that can still escape past the grown path.
pub proof fn lemma_escape_step(g: Grid, path: Seq<(usize, usize)>, c: (usize, usize))
    requires
        g.wf(),
        in_bounds(c, g.spec_size()),
        !g.near_maze_s(c),
        can_escape_l(g, path, c),
    ensures
        exists|n: (usize, usize)| {
            &&& neighbors_seq(c, g.spec_size()).contains(n)
            &&& expl_ok_l(g, path, n)
            &&& can_escape_l(g, path.push(c), n)
        },
{
    let fuel = choose|fuel: nat| esc_reach_l(g, path, c, fuel);
    lemma_reach_to_route(g, path, c, fuel);
    let r0 = choose|r0: Seq<(usize, usize)>|
        is_escape_route(g, path, r0) && r0[0] == c && r0.len() <= fuel + 1;
    lemma_route_avoiding(g, path, c, r0);
    let r = choose|r: Seq<(usize, usize)>| {
        &&& is_escape_route(g, path, r)
        &&& r[0] == c
        &&& r.len() >= 2
        &&& forall|k: int| 2 <= k < r.len()
                ==> #[trigger] r[k] != c && !neighbors_seq(c, g.spec_size()).contains(r[k])
    };
    let n = r[1];
    let tail = r.skip(1);
    assert forall|k: int| 1 <= k < tail.len()
        implies expl_ok_l(g, path.push(c), #[trigger] tail[k]) by {
        let x = tail[k];
        assert(x == r[k + 1]);
        assert(expl_ok_l(g, path, x));
        assert(x != c && !neighbors_seq(c, g.spec_size()).contains(x));
        assert(!path.push(c).contains(x)) by {
            if path.push(c).contains(x) {
                let ii = choose|ii: int| 0 <= ii < path.push(c).len() && path.push(c)[ii] == x;
                if ii < path.len() {
                    assert(path[ii] == x);
                    assert(path.contains(x));
                }
            }
        }
        assert(!near_path_l(path.push(c), x, g.spec_size())) by {
            if near_path_l(path.push(c), x, g.spec_size()) {
                let i = choose|i: int| 0 <= i < neighbors_seq(x, g.spec_size()).len()
                    && path.push(c).contains(#[trigger] neighbors_seq(x, g.spec_size())[i]);
                let y = neighbors_seq(x, g.spec_size())[i];
                let ii = choose|ii: int| 0 <= ii < path.push(c).len() && path.push(c)[ii] == y;
                if ii < path.len() {
                    assert(path.contains(y));
                    assert(near_path_l(path, x, g.spec_size()));
                    assert(false);
                } else {
                    assert(y == c);
                    assert(in_bounds(x, g.spec_size()));
                    lemma_neighbors_contains_iff(x, c, g.spec_size());
                    lemma_neighbors_contains_iff(c, x, g.spec_size());
                    assert(false);
                }
            }
        }
    }
    assert forall|k: int| 1 <= k < tail.len()
        implies neighbors_seq(tail[k - 1], g.spec_size()).contains(#[trigger] tail[k]) by {
        assert(tail[k] == r[k + 1] && tail[k - 1] == r[k]);
    }
    assert forall|k: int| 0 <= k < tail.len() implies in_bounds(#[trigger] tail[k], g.spec_size()) by {
        assert(tail[k] == r[k + 1]);
    }
    assert(tail.last() == r.last());
    assert(is_escape_route(g, path.push(c), tail));
    lemma_route_to_reach(g, path.push(c), tail);
    assert(tail[0] == n);
    assert(can_escape_l(g, path.push(c), n));
    assert(neighbors_seq(c, g.spec_size()).contains(n));
    assert(expl_ok_l(g, path, n));
}

/// With no path in construction and the seed cell claimed, every cell of
/// the grid can escape to the maze: walk towards the origin until a
/// claimed neighbour appears.
pub proof fn lemma_escape_from_anywhere(g: Grid, c: (usize, usize))
    requires
        g.wf(),
        g.frames().len() == 0,
        g.claimed((0, 0)),
        in_bounds(c, g.spec_size()),
    ensures
        can_escape(g, c),
    decreases c.0 + c.1,
{
    assert forall|n: (usize, usize)| #[trigger] g.explorable_ok(n) by {
        assert(g.path_cells().len() == 0);
        assert(!g.in_path_s(n));
        assert(!g.near_path_s(n)) by {
            if g.near_path_s(n) {
                let i = choose|i: int| 0 <= i < neighbors_seq(n, g.spec_size()).len()
                    && g.in_path_s(#[trigger] neighbors_seq(n, g.spec_size())[i]);
                assert(g.path_cells().contains(neighbors_seq(n, g.spec_size())[i]));
            }
        }
    }
    let ns = neighbors_seq(c, g.spec_size());
    if g.near_maze_s(c) {
        assert(esc_reach(g, c, 0));
        assert(can_escape(g, c));
    } else if c.0 > 0 {
        let n = (((c.0 - 1) as usize), c.1);
        assert(ns[0] == n);
        lemma_escape_from_anywhere(g, n);
        let fuel = choose|fuel: nat| esc_reach(g, n, fuel);
        assert((fuel + 1 - 1) as nat == fuel);
        assert(esc_reach(g, c, fuel + 1));
        assert(can_escape(g, c));
    } else if c.1 > 0 {
        let n = (c.0, ((c.1 - 1) as usize));
        assert(ns[0] == n);
        lemma_escape_from_anywhere(g, n);
        let fuel = choose|fuel: nat| esc_reach(g, n, fuel);
        assert((fuel + 1 - 1) as nat == fuel);
        assert(esc_reach(g, c, fuel + 1));
        assert(can_escape(g, c));
    } else {
        let n = (0usize, 1usize);
        assert(ns[1] == n);
        assert(g.near_maze_s(n)) by {
            let ns2 = neighbors_seq(n, g.spec_size());
            assert(ns2[0] == (0usize, 0usize));
            assert(g.claimed(ns2[0]));
        }
        assert(esc_reach(g, n, 0));
        assert(esc_reach(g, c, 1));
        assert(can_escape(g, c));
    }
}

} // verus!
