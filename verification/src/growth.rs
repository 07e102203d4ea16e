//! The path-growth engine: extends the path in construction with random
//! explorable neighbours, pruning choices that the connectivity oracle
//! rejects, and backtracks when a frame has no candidate left.

use vstd::prelude::*;
use crate::maze::{Grid, Frame, MazeError, in_bounds, neighbors_seq, same_but_path, spec_randab, rng_next};
use crate::oracle::{can_escape, can_escape_l, expl_ok_l, lemma_escape_step, lemma_can_escape_bridge,
    lemma_can_escape_l_congruent, lemma_near_maze_congruent, lemma_expl_ok_bridge};

verus! {

broadcast use vstd::seq_lib::group_seq_properties;

/// Powers of five, the weight base of the growth measure: a frame offers
/// at most four candidates, so its whole subtree weighs less than one
/// candidate of its parent.
pub open spec fn pow5(e: nat) -> nat
    decreases e,
{
    if e == 0 {
        1
    } else {
        5 * pow5((e - 1) as nat)
    }
}

proof fn lemma_pow5_pos(e: nat)
    ensures
        pow5(e) >= 1,
    decreases e,
{
    if e > 0 {
        lemma_pow5_pos((e - 1) as nat);
    }
}

/// Weighted candidate count of the path stack: the frame at depth `i`
/// weighs `pow5(cap - i)` per candidate. Extending consumes a candidate
/// and adds a frame whose full weight is smaller; backtracking pops a
/// frame that weighs nothing.
pub open spec fn phi(frames: Seq<Frame>, cap: nat) -> nat
    decreases frames.len(),
{
    if frames.len() == 0 {
        0
    } else {
        phi(frames.drop_last(), cap)
            + frames.last().candidates@.len() * pow5((cap + 1 - frames.len()) as nat)
    }
}

/// Replacing the top frame by one with no more candidates does not raise
/// the measure.
proof fn lemma_phi_update_last_le(s: Seq<Frame>, f: Frame, cap: nat)
    requires
        s.len() >= 1,
        f.candidates@.len() <= s.last().candidates@.len(),
    ensures
        phi(s.update(s.len() - 1, f), cap) <= phi(s, cap),
{
    let t = s.update(s.len() - 1, f);
    assert(t.drop_last() =~= s.drop_last());
    assert(t.last() == f);
    let p = pow5((cap + 1 - s.len()) as nat);
    assert(f.candidates@.len() * p <= s.last().candidates@.len() * p) by (nonlinear_arith)
        requires f.candidates@.len() <= s.last().candidates@.len(), p >= 0;
}

/// Consuming at least one candidate of the top frame and pushing a frame
/// with at most four candidates strictly lowers the measure.
proof fn lemma_phi_extend(s_old: Seq<Frame>, s_new: Seq<Frame>, cap: nat)
    requires
        1 <= s_old.len() <= cap,
        s_new.len() == s_old.len() + 1,
        forall|i: int| 0 <= i < s_old.len() - 1 ==> s_new[i] == s_old[i],
        s_new[s_old.len() - 1].candidates@.len() < s_old.last().candidates@.len(),
        s_new.last().candidates@.len() <= 4,
    ensures
        phi(s_new, cap) < phi(s_old, cap),
{
    let t = s_old.len() as int;
    let mid = s_new.drop_last();
    assert(mid =~= s_old.update(t - 1, s_new[t - 1]));
    assert(mid.drop_last() =~= s_old.drop_last());
    let e0 = (cap - s_old.len() + 1) as nat;
    let e1 = (cap - s_old.len()) as nat;
    assert(pow5(e0) == 5 * pow5(e1));
    lemma_pow5_pos(e1);
    let fl = s_old.last().candidates@.len() as int;
    let fp = s_new[t - 1].candidates@.len() as int;
    let nl = s_new.last().candidates@.len() as int;
    let p0 = pow5(e1) as int;
    assert(phi(mid, cap) == phi(s_old.drop_last(), cap) + fp * (5 * p0));
    assert(phi(s_new, cap) == phi(mid, cap) + nl * pow5((cap + 1 - s_new.len()) as nat));
    assert((cap + 1 - s_new.len()) as nat == e1);
    assert(phi(s_old, cap) == phi(s_old.drop_last(), cap) + fl * (5 * p0));
    assert(fp * (5 * p0) + nl * p0 < fl * (5 * p0)) by (nonlinear_arith)
        requires fp <= fl - 1, nl <= 4, p0 >= 1, fl >= 1;
}

/// Popping a frame without candidates keeps the measure unchanged.
proof fn lemma_phi_pop_empty(s: Seq<Frame>, cap: nat)
    requires
        s.len() >= 1,
        s.last().candidates@.len() == 0,
    ensures
        phi(s.drop_last(), cap) == phi(s, cap),
{
}

/// What is left of the top frame's candidate list after the oracle's
/// veto: with exactly two candidates on offer, each is kept only if it
/// can still escape to the maze; any other list stays as it is.
pub open spec fn pruned_candidates(g: Grid) -> Seq<(usize, usize)>
    recommends
        g.frames().len() > 0,
{
    let cands = g.frames().last().candidates@;
    if cands.len() == 2 {
        cands.filter(|c: (usize, usize)| can_escape(g, c))
    } else {
        cands
    }
}

impl Grid {
    /// One growth step. When the top frame offers exactly two candidates,
    /// each is first vetted by the connectivity oracle and dropped if it
    /// cannot reach the maze; then one remaining candidate is drawn at
    /// random and pushed with its explorable neighbours. Returns `false`,
    /// leaving the path cells untouched, when no candidate is left.
    #[verifier::spinoff_prover]
    #[verifier::rlimit(100)]
    pub fn extend_path(&mut self) -> (r: bool)
        requires
            old(self).wf(),
            old(self).frames().len() > 0,
        ensures
            r == (pruned_candidates(*old(self)).len() > 0),
            !r ==> final(self).frames().last().candidates@ == pruned_candidates(*old(self))
                && final(self).rng == old(self).rng,
            r ==> ({
                let pr = pruned_candidates(*old(self));
                let i = spec_randab(old(self).rng, 0, pr.len() as int);
                &&& final(self).rng == rng_next(old(self).rng)
                &&& final(self).frames().last().cell == pr[i]
                &&& final(self).frames()[old(self).frames().len() - 1].candidates@ == pr.remove(i)
            }),
            final(self).wf(),
            same_but_path(*old(self), *final(self)),
            final(self).path_cells()
                == if r { old(self).path_cells().push(final(self).frames().last().cell) }
                   else { old(self).path_cells() },
            forall|i: int| 0 <= i < old(self).frames().len() - 1
                ==> final(self).frames()[i] == old(self).frames()[i],
            final(self).frames()[old(self).frames().len() - 1].cell
                == old(self).frames().last().cell,
            !r ==> {
                &&& final(self).frames().len() == old(self).frames().len()
                &&& final(self).frames().last().candidates@.len() == 0
                &&& final(self).frames().last().candidates@.len()
                        <= old(self).frames().last().candidates@.len()
            },
            r ==> {
                &&& final(self).frames().len() == old(self).frames().len() + 1
                &&& final(self).frames()[old(self).frames().len() - 1].candidates@.len()
                        < old(self).frames().last().candidates@.len()
                &&& final(self).frames().last().candidates@.len() <= 4
                &&& old(self).frames().last().candidates@.contains(final(self).frames().last().cell)
                &&& in_bounds(final(self).frames().last().cell, old(self).spec_size())
                &&& !old(self).in_path_s(final(self).frames().last().cell)
                &&& final(self).frames().last().candidates@
                        == old(self).explorable_seq(final(self).frames().last().cell)
            },
    {
        self.prune_top();
        let ghost g1 = *self;
        let mut frame = match self.path_in_construction.pop() {
            Some(f) => f,
            None => {
                proof {
                    assert(false);
                }
                vstd::pervasive::unreached()
            },
        };
        let mut rng = self.rng;
        let picked = Grid::select_at_random(&mut frame.candidates, &mut rng);
        self.rng = rng;
        let ghost fr = frame;
        self.path_in_construction.push(frame);
        proof {
            let t = g1.frames().len() - 1;
            let pruned = g1.frames().last().candidates@;
            assert(self.frames() =~= g1.frames().update(t, fr));
            assert(self.path_cells() =~= g1.path_cells());
            if pruned.len() > 0 {
                let i = spec_randab(g1.rng, 0, pruned.len() as int);
                assert(fr.candidates@ == pruned.remove(i));
                lemma_remove_keeps_membership(pruned, i);
            }
            lemma_prune_wf(g1, *self, fr);
        }
        match picked {
            None => false,
            Some(cs) => {
                proof {
                    assert(g1.frames().last().candidates@.contains(cs));
                    lemma_candidate_placement(g1, cs);
                    assert(self.frames().last().cell == g1.frames().last().cell);
                    assert forall|j: int| 0 <= j < self.frames().len() - 1
                        implies !neighbors_seq((#[trigger] self.frames()[j]).cell, self.spec_size()).contains(cs) by {
                        assert(self.frames()[j] == g1.frames()[j]);
                    }
                    assert(!self.in_path_s(cs)) by {
                        assert(self.path_cells() =~= g1.path_cells());
                    }
                    lemma_explorable_congruent(*self, *old(self), cs);
                    let orig = old(self).frames().last().candidates@;
                    if orig.len() == 2 {
                        orig.lemma_filter_contains_rev(
                            |c: (usize, usize)| can_escape(*old(self), c), cs);
                    }
                }
                self.add_cell_to_path(cs);
                true
            },
        }
    }

    /// The oracle stage of one growth step: with exactly two candidates
    /// on offer in the top frame, drops each candidate that can no
    /// longer escape to the maze.
    #[verifier::spinoff_prover]
    #[verifier::rlimit(100)]
    fn prune_top(&mut self)
        requires
            old(self).wf(),
            old(self).frames().len() > 0,
        ensures
            final(self).wf(),
            same_but_path(*old(self), *final(self)),
            final(self).rng == old(self).rng,
            final(self).frames().len() == old(self).frames().len(),
            forall|i: int| 0 <= i < old(self).frames().len() - 1
                ==> final(self).frames()[i] == old(self).frames()[i],
            final(self).frames().last().cell == old(self).frames().last().cell,
            final(self).frames().last().candidates@ == pruned_candidates(*old(self)),
            final(self).path_cells() == old(self).path_cells(),
    {
        let tlen = self.path_in_construction.len();
        let mut rem0 = false;
        let mut rem1 = false;
        if self.path_in_construction[tlen - 1].candidates.len() == 2 {
            let c0 = self.path_in_construction[tlen - 1].candidates[0];
            let c1 = self.path_in_construction[tlen - 1].candidates[1];
            if !self.can_join_maze(c0) {
                rem0 = true;
            }
            if !self.can_join_maze(c1) {
                rem1 = true;
            }
        }
        let ghost g0 = *self;
        let mut frame = match self.path_in_construction.pop() {
            Some(f) => f,
            None => {
                proof {
                    assert(false);
                }
                vstd::pervasive::unreached()
            },
        };
        if rem0 && rem1 {
            frame.candidates.remove(1);
            frame.candidates.remove(0);
        } else if rem0 {
            frame.candidates.remove(0);
        } else if rem1 {
            frame.candidates.remove(1);
        }
        proof {
            let orig = g0.frames().last().candidates@;
            if rem0 && rem1 {
                lemma_remove_keeps_membership(orig, 1);
                lemma_remove_keeps_membership(orig.remove(1), 0);
                lemma_membership_transitive(orig.remove(1), orig, frame.candidates@);
            } else if rem0 {
                lemma_remove_keeps_membership(orig, 0);
            } else if rem1 {
                lemma_remove_keeps_membership(orig, 1);
            }
            if orig.len() == 2 {
                lemma_prune_to_filter(g0, orig, frame.candidates@, rem0, rem1);
            }
            assert(frame.candidates@ == pruned_candidates(g0));
        }
        let ghost fr = frame;
        self.path_in_construction.push(frame);
        proof {
            let t = g0.frames().len() - 1;
            assert(self.frames() =~= g0.frames().update(t, fr));
            assert(self.path_cells() =~= g0.path_cells());
            lemma_prune_wf(g0, *self, fr);
        }
    }
}

/// The growth loop can still conclude: the top of the path already
/// touches the maze, or some frame still offers a candidate that could
/// escape to the maze past the path as it stood when that frame was on
/// top.
pub open spec fn growth_live(g: Grid) -> bool {
    ||| g.frames().len() >= 1 && g.near_maze_s(g.frames().last().cell)
    ||| exists|i: int, j: int| {
        &&& 0 <= i < g.frames().len()
        &&& 0 <= j < g.frames()[i].candidates@.len()
        &&& can_escape_l(g, g.path_cells().take(i + 1), #[trigger] g.frames()[i].candidates@[j])
    }
}

/// A failing growth step cannot consume the liveness witness: the empty
/// pruned list shows no candidate of the popped frame could escape, so
/// the witness sits in an earlier frame and survives the pop.
proof fn lemma_live_after_backtrack(pre: Grid, mid: Grid, post: Grid)
    requires
        pre.wf(),
        pre.frames().len() >= 1,
        !pre.near_maze_s(pre.frames().last().cell),
        growth_live(pre),
        pruned_candidates(pre).len() == 0,
        mid.frames().len() == pre.frames().len(),
        forall|i: int| 0 <= i < pre.frames().len() - 1 ==> mid.frames()[i] == pre.frames()[i],
        post.frames() == mid.frames().drop_last(),
        post.cells@ == pre.cells@,
        post.size == pre.size,
    ensures
        post.frames().len() >= 1,
        growth_live(post),
{
    let tlen = pre.frames().len() as int;
    let (wi, wj) = choose|wi: int, wj: int| {
        &&& 0 <= wi < pre.frames().len()
        &&& 0 <= wj < pre.frames()[wi].candidates@.len()
        &&& can_escape_l(pre, pre.path_cells().take(wi + 1),
                #[trigger] pre.frames()[wi].candidates@[wj])
    };
    assert(wi < tlen - 1) by {
        if wi == tlen - 1 {
            let cstar = pre.frames()[wi].candidates@[wj];
            assert(pre.path_cells().take(tlen) =~= pre.path_cells());
            lemma_can_escape_bridge(pre, cstar);
            assert(can_escape(pre, cstar));
            let cands = pre.frames().last().candidates@;
            if cands.len() == 2 {
                cands.lemma_filter_contains(|c: (usize, usize)| can_escape(pre, c), wj);
                assert(pruned_candidates(pre).contains(cstar));
                assert(false);
            } else {
                assert(pruned_candidates(pre) == cands);
                assert(false);
            }
        }
    }
    assert(post.frames()[wi] == pre.frames()[wi]);
    assert(post.path_cells().take(wi + 1) =~= pre.path_cells().take(wi + 1));
    lemma_can_escape_l_congruent(pre, post,
        pre.path_cells().take(wi + 1), pre.frames()[wi].candidates@[wj]);
    assert(can_escape_l(post, post.path_cells().take(wi + 1),
        post.frames()[wi].candidates@[wj]));
    assert(growth_live(post));
}

/// A successful growth step keeps the liveness witness: if the pushed
/// cell could escape, its shortest escape hands the new frame an
/// escaping candidate; otherwise the old witness sits elsewhere and
/// survives unchanged.
proof fn lemma_live_after_extend(pre: Grid, post: Grid)
    requires
        pre.wf(),
        pre.frames().len() >= 1,
        !pre.near_maze_s(pre.frames().last().cell),
        growth_live(pre),
        pruned_candidates(pre).len() > 0,
        post.cells@ == pre.cells@,
        post.size == pre.size,
        post.frames().len() == pre.frames().len() + 1,
        forall|i: int| 0 <= i < pre.frames().len() - 1 ==> post.frames()[i] == pre.frames()[i],
        post.frames().last().cell == pruned_candidates(pre)[
            spec_randab(pre.rng, 0, pruned_candidates(pre).len() as int)],
        post.frames()[pre.frames().len() - 1].candidates@ == pruned_candidates(pre).remove(
            spec_randab(pre.rng, 0, pruned_candidates(pre).len() as int)),
        in_bounds(post.frames().last().cell, pre.spec_size()),
        post.frames().last().candidates@ == pre.explorable_seq(post.frames().last().cell),
        post.path_cells() == pre.path_cells().push(post.frames().last().cell),
    ensures
        growth_live(post),
{
    let tlen = pre.frames().len() as int;
    let csn = post.frames().last().cell;
    if post.near_maze_s(csn) {
        assert(growth_live(post));
    } else {
        lemma_near_maze_congruent(pre, post, csn);
        if can_escape(pre, csn) {
            lemma_can_escape_bridge(pre, csn);
            lemma_escape_step(pre, pre.path_cells(), csn);
            let n = choose|n: (usize, usize)| {
                &&& neighbors_seq(csn, pre.spec_size()).contains(n)
                &&& expl_ok_l(pre, pre.path_cells(), n)
                &&& can_escape_l(pre, pre.path_cells().push(csn), n)
            };
            lemma_expl_ok_bridge(pre, n);
            assert(pre.explorable_ok(n));
            let ns1 = neighbors_seq(csn, pre.spec_size());
            let jn = choose|jn: int| 0 <= jn < ns1.len() && ns1[jn] == n;
            ns1.lemma_filter_contains(|x: (usize, usize)| pre.explorable_ok(x), jn);
            assert(pre.explorable_seq(csn).contains(n));
            let cands_new = post.frames().last().candidates@;
            let j2 = choose|j2: int| 0 <= j2 < cands_new.len() && cands_new[j2] == n;
            let wi = post.frames().len() - 1;
            assert(post.path_cells().take(wi + 1) =~= pre.path_cells().push(csn));
            lemma_can_escape_l_congruent(pre, post, pre.path_cells().push(csn), n);
            assert(post.frames()[wi as int].candidates@[j2] == n);
            assert(can_escape_l(post, post.path_cells().take(wi + 1),
                post.frames()[wi as int].candidates@[j2]));
            assert(growth_live(post));
        } else {
            let (wi, wj) = choose|wi: int, wj: int| {
                &&& 0 <= wi < pre.frames().len()
                &&& 0 <= wj < pre.frames()[wi].candidates@.len()
                &&& can_escape_l(pre, pre.path_cells().take(wi + 1),
                        #[trigger] pre.frames()[wi].candidates@[wj])
            };
            let cstar = pre.frames()[wi].candidates@[wj];
            if wi == tlen - 1 {
                let cands = pre.frames().last().candidates@;
                let pr = pruned_candidates(pre);
                let ri = spec_randab(pre.rng, 0, pr.len() as int);
                assert(csn == pr[ri]);
                assert(0 <= ri < pr.len());
                if cands.len() == 2 {
                    cands.lemma_filter_pred(|c: (usize, usize)| can_escape(pre, c), ri);
                    assert(can_escape(pre, csn));
                    assert(false);
                }
                assert(pr == cands);
                assert(pre.path_cells().take(tlen) =~= pre.path_cells());
                lemma_can_escape_bridge(pre, cstar);
                assert(can_escape(pre, cstar));
                assert(cstar != csn);
                assert(wj != ri);
                let newcands = post.frames()[tlen - 1].candidates@;
                assert(newcands == pr.remove(ri));
                let j3: int = if wj < ri { wj } else { wj - 1 };
                assert(newcands[j3] == cstar);
                assert(post.path_cells().take(tlen) =~= pre.path_cells());
                lemma_can_escape_l_congruent(pre, post, pre.path_cells(), cstar);
                assert(can_escape_l(post, post.path_cells().take((tlen - 1) + 1),
                    post.frames()[tlen - 1].candidates@[j3]));
                assert(growth_live(post));
            } else {
                assert(post.frames()[wi] == pre.frames()[wi]);
                assert(post.path_cells().take(wi + 1) =~= pre.path_cells().take(wi + 1));
                lemma_can_escape_l_congruent(pre, post, pre.path_cells().take(wi + 1), cstar);
                assert(can_escape_l(post, post.path_cells().take(wi + 1),
                    post.frames()[wi].candidates@[wj]));
                assert(growth_live(post));
            }
        }
    }
}

/// Shrinking the path keeps its standing properties: every cell but the
/// last away from the maze, every cell but the first unclaimed.
proof fn lemma_prefix_after_pop(pre: Grid, post: Grid)
    requires
        post.path_cells() == pre.path_cells().drop_last(),
        pre.path_cells().len() >= 1,
        post.cells@ == pre.cells@,
        post.size == pre.size,
        forall|i: int| 0 <= i < pre.path_cells().len() - 1
            ==> !pre.near_maze_s(#[trigger] pre.path_cells()[i]),
        forall|i: int| 1 <= i < pre.path_cells().len()
            ==> !pre.claimed(#[trigger] pre.path_cells()[i]),
    ensures
        forall|i: int| 0 <= i < post.path_cells().len() - 1
            ==> !post.near_maze_s(#[trigger] post.path_cells()[i]),
        forall|i: int| 1 <= i < post.path_cells().len()
            ==> !post.claimed(#[trigger] post.path_cells()[i]),
{
    assert forall|i: int| 0 <= i < post.path_cells().len() - 1
        implies !post.near_maze_s(#[trigger] post.path_cells()[i]) by {
        assert(post.path_cells()[i] == pre.path_cells()[i]);
        lemma_near_maze_congruent(pre, post, pre.path_cells()[i]);
    }
    assert forall|i: int| 1 <= i < post.path_cells().len()
        implies !post.claimed(#[trigger] post.path_cells()[i]) by {
        assert(post.path_cells()[i] == pre.path_cells()[i]);
        assert(post.cell_at(post.path_cells()[i]) == pre.cell_at(pre.path_cells()[i]));
    }
}

/// Growing the path keeps its standing properties: the cell pushed on
/// top of a frame away from the maze cannot be claimed, or that frame
/// would have touched the maze through it.
proof fn lemma_prefix_after_push(pre: Grid, post: Grid, csn: (usize, usize))
    requires
        pre.wf(),
        pre.frames().len() >= 1,
        !pre.near_maze_s(pre.frames().last().cell),
        pre.frames().last().candidates@.contains(csn),
        post.path_cells() == pre.path_cells().push(csn),
        post.cells@ == pre.cells@,
        post.size == pre.size,
        forall|i: int| 0 <= i < pre.path_cells().len() - 1
            ==> !pre.near_maze_s(#[trigger] pre.path_cells()[i]),
        forall|i: int| 1 <= i < pre.path_cells().len()
            ==> !pre.claimed(#[trigger] pre.path_cells()[i]),
    ensures
        forall|i: int| 0 <= i < post.path_cells().len() - 1
            ==> !post.near_maze_s(#[trigger] post.path_cells()[i]),
        forall|i: int| 1 <= i < post.path_cells().len()
            ==> !post.claimed(#[trigger] post.path_cells()[i]),
{
    let tlen = pre.frames().len() as int;
    assert(!pre.claimed(csn)) by {
        let cands = pre.frames().last().candidates@;
        let k = choose|k: int| 0 <= k < cands.len() && cands[k] == csn;
        assert(neighbors_seq(pre.frames()[tlen - 1].cell, pre.spec_size())
            .contains(pre.frames()[tlen - 1].candidates@[k]));
        let ns0 = neighbors_seq(pre.frames().last().cell, pre.spec_size());
        let ik = choose|ik: int| 0 <= ik < ns0.len() && ns0[ik] == csn;
        if pre.claimed(csn) {
            assert(pre.near_maze_s(pre.frames().last().cell));
        }
    }
    assert forall|i: int| 1 <= i < post.path_cells().len()
        implies !post.claimed(#[trigger] post.path_cells()[i]) by {
        if i < tlen {
            assert(post.path_cells()[i] == pre.path_cells()[i]);
            assert(!pre.claimed(pre.path_cells()[i]));
        } else {
            assert(post.path_cells()[i] == csn);
        }
        assert(post.cell_at(post.path_cells()[i]) == pre.cell_at(post.path_cells()[i]));
    }
    assert forall|i: int| 0 <= i < post.path_cells().len() - 1
        implies !post.near_maze_s(#[trigger] post.path_cells()[i]) by {
        if i < tlen - 1 {
            assert(post.path_cells()[i] == pre.path_cells()[i]);
            assert(!pre.near_maze_s(pre.path_cells()[i]));
        } else {
            assert(post.path_cells()[i] == pre.frames().last().cell);
        }
        lemma_near_maze_congruent(pre, post, post.path_cells()[i]);
    }
}

impl Grid {
    /// Grows one full path: starts at `coords`, then extends or
    /// backtracks until the top of the path touches the committed maze.
    /// The committed cells, the frontier and the path counter are left
    /// untouched; only the path in construction and the generator state
    /// change. Growth stops at the first cell beside the maze, so no
    /// earlier path cell touches it, and no grown cell was claimed
    /// before. Started with no path in progress at a cell that can still
    /// escape to the maze, growth always succeeds.
    #[verifier::spinoff_prover]
    #[verifier::rlimit(100)]
    pub fn new_path(&mut self, coords: (usize, usize)) -> (r: Result<(), MazeError>)
        requires
            old(self).wf(),
            in_bounds(coords, old(self).spec_size()),
        ensures
            final(self).wf(),
            same_but_path(*old(self), *final(self)),
            r is Err ==> r->Err_0 == MazeError::InvalidState || r->Err_0 == MazeError::EmptyPath,
            (r is Err && r->Err_0 == MazeError::InvalidState) <==> old(self).frames().len() > 0,
            (r is Err && r->Err_0 == MazeError::EmptyPath) ==> final(self).frames().len() == 0,
            old(self).frames().len() == 0 && can_escape(*old(self), coords) ==> r is Ok,
            r is Ok ==> {
                &&& final(self).frames().len() >= 1
                &&& final(self).frames()[0].cell == coords
                &&& final(self).near_maze_s(final(self).frames().last().cell)
                &&& forall|i: int| 0 <= i < final(self).path_cells().len() - 1
                        ==> !final(self).near_maze_s(#[trigger] final(self).path_cells()[i])
                &&& forall|i: int| 1 <= i < final(self).path_cells().len()
                        ==> !final(self).claimed(#[trigger] final(self).path_cells()[i])
            },
    {
        match self.new_path_origin(coords) {
            Err(e) => {
                return Err(e);
            },
            Ok(()) => {},
        }
        proof {
            if can_escape(*old(self), coords) {
                lemma_can_escape_bridge(*old(self), coords);
                assert(old(self).path_cells() =~= Seq::<(usize, usize)>::empty());
                lemma_can_escape_l_congruent(*old(self), *self,
                    Seq::<(usize, usize)>::empty(), coords);
                if !self.near_maze_s(coords) {
                    lemma_escape_step(*self, Seq::<(usize, usize)>::empty(), coords);
                    let n = choose|n: (usize, usize)| {
                        &&& neighbors_seq(coords, self.spec_size()).contains(n)
                        &&& expl_ok_l(*self, Seq::<(usize, usize)>::empty(), n)
                        &&& can_escape_l(*self, Seq::<(usize, usize)>::empty().push(coords), n)
                    };
                    let ns = neighbors_seq(coords, self.spec_size());
                    let j = choose|j: int| 0 <= j < ns.len() && ns[j] == n;
                    assert(self.frames()[0].candidates@[j] == n);
                    assert(self.path_cells().take(1) =~= Seq::<(usize, usize)>::empty().push(coords));
                    assert(can_escape_l(*self, self.path_cells().take(1),
                        self.frames()[0].candidates@[j]));
                    assert(growth_live(*self));
                } else {
                    assert(self.frames().last().cell == coords);
                    assert(growth_live(*self));
                }
            }
        }
        loop
            invariant
                self.wf(),
                same_but_path(*old(self), *self),
                old(self).frames().len() == 0,
                in_bounds(coords, self.spec_size()),
                self.frames().len() >= 1 ==> self.frames()[0].cell == coords,
                can_escape(*old(self), coords)
                    ==> self.frames().len() >= 1 && growth_live(*self),
                forall|i: int| 0 <= i < self.path_cells().len() - 1
                    ==> !self.near_maze_s(#[trigger] self.path_cells()[i]),
                forall|i: int| 1 <= i < self.path_cells().len()
                    ==> !self.claimed(#[trigger] self.path_cells()[i]),
            decreases
                phi(self.frames(), (self.spec_size() * self.spec_size()) as nat),
                self.frames().len(),
        {
            if self.path_in_construction.len() == 0 {
                proof {
                    if can_escape(*old(self), coords) {
                        assert(false);
                    }
                }
                return Err(MazeError::EmptyPath);
            }
            let t = self.path_in_construction.len() - 1;
            let cs = self.path_in_construction[t].cell;
            proof {
                assert(in_bounds(self.frames()[t as int].cell, self.spec_size()));
            }
            if self.near_maze(cs) {
                return Ok(());
            }
            let ghost pre = *self;
            let ghost cap = (self.spec_size() * self.spec_size()) as nat;
            if !self.extend_path() {
                proof {
                    assert(self.frames() =~= pre.frames().update(
                        pre.frames().len() - 1, self.frames().last()));
                    lemma_phi_update_last_le(pre.frames(), self.frames().last(), cap);
                }
                let ghost mid = *self;
                match self.backtrack() {
                    Ok(()) => {},
                    Err(e) => {
                        return Err(e);
                    },
                }
                proof {
                    lemma_phi_pop_empty(mid.frames(), cap);
                    assert(self.frames() =~= mid.frames().drop_last());
                    assert(self.path_cells() =~= pre.path_cells().drop_last());
                    lemma_prefix_after_pop(pre, *self);
                    if can_escape(*old(self), coords) {
                        lemma_live_after_backtrack(pre, mid, *self);
                    }
                }
            } else {
                proof {
                    lemma_phi_extend(pre.frames(), self.frames(), cap);
                    lemma_prefix_after_push(pre, *self, self.frames().last().cell);
                    if can_escape(*old(self), coords) {
                        lemma_live_after_extend(pre, *self);
                    }
                }
            }
        }
    }
}

/// Filtering with pointwise equal predicates gives equal sequences.
proof fn lemma_filter_congruent<A>(s: Seq<A>, p: spec_fn(A) -> bool, q: spec_fn(A) -> bool)
    requires
        forall|x: A| #[trigger] p(x) == q(x),
    ensures
        s.filter(p) == s.filter(q),
    decreases s.len(),
{
    reveal(Seq::filter);
    if s.len() > 0 {
        lemma_filter_congruent(s.drop_last(), p, q);
        assert(p(s.last()) == q(s.last()));
    }
}

/// Two grids with the same size and the same path cells agree on which
/// neighbours are explorable.
proof fn lemma_explorable_congruent(a: Grid, b: Grid, c: (usize, usize))
    requires
        a.path_cells() == b.path_cells(),
        a.size == b.size,
    ensures
        a.explorable_seq(c) == b.explorable_seq(c),
{
    assert forall|x: (usize, usize)|
        #[trigger] a.explorable_ok(x) == b.explorable_ok(x) by {
        assert(a.in_path_s(x) == b.in_path_s(x));
        assert forall|i: int| 0 <= i < neighbors_seq(x, a.spec_size()).len()
            implies a.in_path_s(#[trigger] neighbors_seq(x, a.spec_size())[i])
                == b.in_path_s(neighbors_seq(x, b.spec_size())[i]) by {
        }
        assert(a.near_path_s(x) == b.near_path_s(x));
    }
    lemma_filter_congruent(
        neighbors_seq(c, a.spec_size()),
        |n: (usize, usize)| a.explorable_ok(n),
        |n: (usize, usize)| b.explorable_ok(n),
    );
}

/// A candidate drawn from the top frame's list may extend the path: it
/// is on the grid, off the path, adjacent to the path's last cell and to
/// no earlier one.
proof fn lemma_candidate_placement(g: Grid, cs: (usize, usize))
    requires
        g.wf(),
        g.frames().len() > 0,
        g.frames().last().candidates@.contains(cs),
    ensures
        in_bounds(cs, g.spec_size()),
        !g.in_path_s(cs),
        neighbors_seq(g.frames().last().cell, g.spec_size()).contains(cs),
        forall|j: int| 0 <= j < g.frames().len() - 1
            ==> !neighbors_seq((#[trigger] g.frames()[j]).cell, g.spec_size()).contains(cs),
{
    let t = g.frames().len() - 1;
    let cands = g.frames().last().candidates@;
    let kk = choose|kk: int| 0 <= kk < cands.len() && cands[kk] == cs;
    assert(g.frames()[t].candidates@[kk] == cs);
    assert(!g.path_cells().subrange(0, t + 1).contains(cs));
    assert(g.path_cells().subrange(0, t + 1) =~= g.path_cells());
    assert forall|j: int| 0 <= j < g.frames().len() - 1
        implies !neighbors_seq((#[trigger] g.frames()[j]).cell, g.spec_size()).contains(cs) by {
        assert(!neighbors_seq(g.frames()[j].cell, g.spec_size())
            .contains(g.frames()[t].candidates@[kk]));
    }
}

/// The removals that the oracle's veto performs on a two-entry candidate
/// list amount to filtering it by escape.
proof fn lemma_prune_to_filter(g: Grid, orig: Seq<(usize, usize)>, res: Seq<(usize, usize)>, rem0: bool, rem1: bool)
    requires
        orig.len() == 2,
        rem0 == !can_escape(g, orig[0]),
        rem1 == !can_escape(g, orig[1]),
        rem0 && rem1 ==> res == orig.remove(1).remove(0),
        rem0 && !rem1 ==> res == orig.remove(0),
        !rem0 && rem1 ==> res == orig.remove(1),
        !rem0 && !rem1 ==> res == orig,
    ensures
        res == orig.filter(|c: (usize, usize)| can_escape(g, c)),
{
    let p = |c: (usize, usize)| can_escape(g, c);
    let a = orig[0];
    let b = orig[1];
    assert(orig =~= Seq::<(usize, usize)>::empty().push(a).push(b));
    reveal(Seq::filter);
    assert(Seq::<(usize, usize)>::empty().filter(p) =~= Seq::<(usize, usize)>::empty());
    Seq::<(usize, usize)>::empty().lemma_filter_push(a, p);
    Seq::<(usize, usize)>::empty().push(a).lemma_filter_push(b, p);
    if rem0 && rem1 {
        assert(res =~= orig.filter(p));
    } else if rem0 {
        assert(res =~= orig.filter(p));
    } else if rem1 {
        assert(res =~= orig.filter(p));
    } else {
        assert(res =~= orig.filter(p));
    }
}

/// Every entry of a sequence with one element removed is an entry of the
/// original sequence.
proof fn lemma_remove_keeps_membership(s: Seq<(usize, usize)>, i: int)
    requires
        0 <= i < s.len(),
    ensures
        forall|k: int| 0 <= k < s.remove(i).len() ==> s.contains(#[trigger] s.remove(i)[k]),
{
    assert forall|k: int| 0 <= k < s.remove(i).len() implies s.contains(#[trigger] s.remove(i)[k]) by {
        if k < i {
            assert(s.remove(i)[k] == s[k]);
        } else {
            assert(s.remove(i)[k] == s[k + 1]);
        }
    }
}

/// Membership claims chain through an intermediate sequence.
proof fn lemma_membership_transitive(mid: Seq<(usize, usize)>, orig: Seq<(usize, usize)>, fin: Seq<(usize, usize)>)
    requires
        forall|k: int| 0 <= k < mid.len() ==> orig.contains(#[trigger] mid[k]),
        forall|k: int| 0 <= k < fin.len() ==> mid.contains(#[trigger] fin[k]),
    ensures
        forall|k: int| 0 <= k < fin.len() ==> orig.contains(#[trigger] fin[k]),
{
    assert forall|k: int| 0 <= k < fin.len() implies orig.contains(#[trigger] fin[k]) by {
        let j = choose|j: int| 0 <= j < mid.len() && mid[j] == fin[k];
        assert(orig.contains(mid[j]));
    }
}

/// Replacing the top frame's candidate list by a selection of its old
/// entries keeps the grid well-formed.
proof fn lemma_prune_wf(old_g: Grid, new_g: Grid, fr: Frame)
    requires
        old_g.wf(),
        old_g.frames().len() > 0,
        new_g.frames() == old_g.frames().update(old_g.frames().len() - 1, fr),
        fr.cell == old_g.frames().last().cell,
        fr.candidates@.len() <= old_g.frames().last().candidates@.len(),
        forall|k: int| 0 <= k < fr.candidates@.len()
            ==> old_g.frames().last().candidates@.contains(#[trigger] fr.candidates@[k]),
        same_but_path(old_g, new_g),
    ensures
        new_g.wf(),
{
    let t = old_g.frames().len() - 1;
    assert(new_g.path_cells() =~= old_g.path_cells());
    assert forall|i: int, j: int|
        0 <= i < new_g.path_cells().len() && 0 <= j < new_g.path_cells().len() && i != j
        implies new_g.path_cells()[i] != new_g.path_cells()[j] by {
        assert(old_g.path_cells()[i] != old_g.path_cells()[j]);
    }
    assert forall|i: int, k: int|
        0 <= i < new_g.frames().len() && 0 <= k < new_g.frames()[i].candidates@.len()
        implies in_bounds(#[trigger] new_g.frames()[i].candidates@[k], new_g.spec_size())
            && !new_g.path_cells().subrange(0, i + 1).contains(new_g.frames()[i].candidates@[k]) by {
        assert(new_g.path_cells().subrange(0, i + 1) =~= old_g.path_cells().subrange(0, i + 1));
        if i < t {
            assert(new_g.frames()[i] == old_g.frames()[i]);
            assert(!old_g.path_cells().subrange(0, i + 1).contains(old_g.frames()[i].candidates@[k]));
        } else {
            let cand = fr.candidates@[k];
            assert(old_g.frames().last().candidates@.contains(cand));
            let kk = choose|kk: int| 0 <= kk < old_g.frames().last().candidates@.len()
                && old_g.frames().last().candidates@[kk] == cand;
            assert(!old_g.path_cells().subrange(0, t + 1).contains(cand));
        }
    }
}

} // verus!
