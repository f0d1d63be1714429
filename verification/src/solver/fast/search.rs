//! Propagation of forced moves, and the depth-first search around it.

use std::collections::VecDeque;
use vstd::prelude::*;
use crate::solver::follow::{
    follows, lemma_block_follows, lemma_cand_count, lemma_candidates_hold, lemma_count_none,
    lemma_dark_uncovered, lemma_grown_follows, lemma_light_follows, lemma_unsolved_is_dark,
    lemma_wall_bounds, lemma_wanted_candidate, wants,
};
use crate::solver::fast::{
    advanced, branchable, cand_count, candidates, count_all, count_in, extends, is_candidate,
    lemma_advanced_chain, lemma_advanced_self, lemma_candidate_unknown, lemma_candidates_shape,
    lemma_count_in_bound, lemma_extends_chain, lemma_extends_self, lemma_member_concat,
    lemma_quiet_kept, lemma_refines_chain, member, queue_ok, quiet_outside, quiet_wall, refines,
    same_segment, solved, sound, uncovered, wall_same, CellState, Core,
};

verus! {

impl Core {
    /// Handles one wall taken from the queue: `false` where its number can
    /// no longer be met; where it is met, every unknown cell beside it is
    /// blocked; where all unknown cells beside it are needed, each gets a
    /// light. `changed` is set when a cell was settled. Every solution in
    /// reach stays in reach, and with one in reach the answer is `true`.
    pub(crate) fn settle_wall(&mut self, idx: usize, q_num: &mut VecDeque<usize>, changed: &mut bool) -> (ok:
        bool)
        requires
            old(self).wf(),
            old(self).settled(),
            old(self).mapped(),
            idx < old(self).layout().num_adj.len(),
            queue_ok(old(q_num)@, old(self).layout()),
            !*old(changed),
        ensures
            final(self).layout() == old(self).layout(),
            final(self).wf(),
            extends(old(self).snapshot(), final(self).snapshot()),
            queue_ok(final(q_num)@, final(self).layout()),
            advanced(
                old(self).layout(),
                old(self).snapshot(),
                final(self).snapshot(),
                old(q_num)@,
                final(q_num)@,
            ),
            ok ==> final(self).settled(),
            ok ==> member(final(q_num)@, idx as int) || quiet_wall(
                old(self).layout(),
                final(self).snapshot(),
                idx as int,
            ),
            final(self).unknowns() <= old(self).unknowns(),
            ok && !*final(changed) ==> final(self).snapshot() == old(self).snapshot() && final(q_num)@
                == old(q_num)@,
            ok && *final(changed) ==> final(self).unknowns() < old(self).unknowns(),
            forall|lights: Seq<Seq<bool>>| #[trigger]
                follows(old(self).layout(), old(self).snapshot(), lights) ==> ok && follows(
                    old(self).layout(),
                    final(self).snapshot(),
                    lights,
                ),
    {
        let ghost l = self.layout();
        let ghost a = self.snapshot();
        proof {
            lemma_extends_self(a);
            lemma_advanced_self(l, a, q_num@);
        }
        let on = self.num_cells[idx].on;
        let unk = self.num_cells[idx].unk;
        let value = self.num_cells[idx].value;
        proof {
            lemma_count_in_bound(l.num_adj[idx as int], a.cell_state, CellState::Light);
            lemma_count_in_bound(l.num_adj[idx as int], a.cell_state, CellState::Unknown);
            assert(on == a.num_on[idx as int]);
            assert(unk == a.num_unk[idx as int]);
            assert(value == l.num_value[idx as int]);
        }
        if on > value || on + unk < value {
            proof {
                assert forall|lights: Seq<Seq<bool>>| #[trigger] follows(l, a, lights) implies false by {
                    lemma_wall_bounds(l, a, lights, idx as int);
                }
            }
            return false;
        }
        let to_block = on == value;
        let to_light = !to_block && on + unk == value;
        if to_block || to_light {
            let count = self.num_cells[idx].adj.len();
            let mut j: usize = 0;
            while j < count
                invariant
                    self.layout() == l,
                    l == old(self).layout(),
                    a == old(self).snapshot(),
                    sound(l, a),
                    self.wf(),
                    self.settled(),
                    self.mapped(),
                    idx < l.num_adj.len(),
                    count == l.num_adj[idx as int].len(),
                    0 <= j <= count,
                    to_block || to_light,
                    to_block == (a.num_on[idx as int] == l.num_value[idx as int]),
                    to_light == (!to_block && a.num_on[idx as int] + a.num_unk[idx as int]
                        == l.num_value[idx as int]),
                    extends(a, self.snapshot()),
                    queue_ok(q_num@, l),
                    advanced(l, a, self.snapshot(), old(q_num)@, q_num@),
                    self.unknowns() <= count_all(a.cell_state, CellState::Unknown),
                    !*changed ==> self.snapshot() == a && q_num@ == old(q_num)@,
                    !*changed ==> forall|i: int|
                        0 <= i < j ==> a.cell_state[(#[trigger] l.num_adj[idx as int][i]) as int]
                            != CellState::Unknown,
                    *changed ==> member(q_num@, idx as int),
                    *changed ==> self.unknowns() < count_all(a.cell_state, CellState::Unknown),
                    forall|x: int|
                        0 <= x < l.n ==> ((#[trigger] self.snapshot().cell_state[x])
                            == CellState::Unknown ==> a.cell_state[x] == CellState::Unknown),
                    forall|lights: Seq<Seq<bool>>| #[trigger]
                        follows(l, a, lights) ==> follows(l, self.snapshot(), lights),
                decreases count - j,
            {
                let cell = self.num_cells[idx].adj[j];
                assert(cell == l.num_adj[idx as int][j as int]);
                assert(cell < l.n);
                let ghost before = self.snapshot();
                let ghost queued = q_num@;
                if self.cell_state[cell] == CellState::Unknown {
                    let done = if to_block {
                        self.set_blocked(cell, q_num)
                    } else {
                        self.set_light(cell, q_num)
                    };
                    proof {
                        lemma_advanced_chain(
                            l,
                            a,
                            before,
                            self.snapshot(),
                            old(q_num)@,
                            queued,
                            q_num@,
                        );
                        lemma_extends_chain(a, before, self.snapshot());
                        assert(done);
                        // the wall itself is queued again
                        assert(member(l.num_adj[idx as int], cell as int));
                        assert(member(l.num_adj_of_empty[cell as int], idx as int) <==> member(
                            l.num_adj[idx as int],
                            cell as int,
                        ));
                        if to_block {
                            lemma_member_concat(
                                queued,
                                l.num_adj_of_empty[cell as int],
                                idx as int,
                            );
                        }
                        assert(member(q_num@, idx as int));
                        let now = self.snapshot();
                        assert forall|x: int| 0 <= x < l.n implies ((#[trigger] now.cell_state[x])
                            == CellState::Unknown ==> a.cell_state[x] == CellState::Unknown) by {
                            assert(now.cell_state[x] == CellState::Unknown ==> before.cell_state[x]
                                == CellState::Unknown);
                        }
                        assert forall|lights: Seq<Seq<bool>>| #[trigger]
                            follows(l, a, lights) implies follows(l, now, lights) by {
                            assert(follows(l, before, lights));
                            lemma_wall_bounds(l, a, lights, idx as int);
                            assert(a.cell_state[cell as int] == CellState::Unknown);
                            assert(a.cell_state[l.num_adj[idx as int][j as int] as int]
                                == CellState::Unknown);
                            if to_block {
                                lemma_block_follows(l, before, now, lights, cell as int);
                            } else {
                                lemma_light_follows(l, before, now, lights, cell as int);
                            }
                        }
                    }
                    if !done {
                        return false;
                    }
                    *changed = true;
                }
                j = j + 1;
            }
            proof {
                if !*changed {
                    lemma_count_none(l.num_adj[idx as int], a.cell_state, CellState::Unknown);
                    assert(a.num_unk[idx as int] == count_in(
                        l.num_adj[idx as int],
                        a.cell_state,
                        CellState::Unknown,
                    ));
                }
            }
        }
        true
    }

    /// Handles one cell in the sweep for dark cells: `false` where a dark,
    /// uncovered cell has no candidate left; where it has exactly one, that
    /// one gets a light. `changed` is set when a cell was settled. Every
    /// solution in reach stays in reach, and with one in reach the answer
    /// is `true`.
    pub(crate) fn cover_cell(&mut self, cell: usize, q_num: &mut VecDeque<usize>, changed: &mut bool) -> (ok:
        bool)
        requires
            old(self).wf(),
            old(self).settled(),
            old(self).mapped(),
            cell < old(self).n_empty,
            queue_ok(old(q_num)@, old(self).layout()),
            !*old(changed),
        ensures
            final(self).layout() == old(self).layout(),
            final(self).wf(),
            extends(old(self).snapshot(), final(self).snapshot()),
            queue_ok(final(q_num)@, final(self).layout()),
            advanced(
                old(self).layout(),
                old(self).snapshot(),
                final(self).snapshot(),
                old(q_num)@,
                final(q_num)@,
            ),
            ok ==> final(self).settled(),
            final(self).unknowns() <= old(self).unknowns(),
            ok && !*final(changed) ==> final(self).snapshot() == old(self).snapshot() && final(q_num)@
                == old(q_num)@ && (uncovered(old(self).layout(), old(self).snapshot(), cell as int)
                ==> cand_count(old(self).layout(), old(self).snapshot(), cell as int) >= 2),
            ok && *final(changed) ==> final(self).unknowns() < old(self).unknowns(),
            forall|lights: Seq<Seq<bool>>| #[trigger]
                follows(old(self).layout(), old(self).snapshot(), lights) ==> ok && follows(
                    old(self).layout(),
                    final(self).snapshot(),
                    lights,
                ),
    {
        let ghost l = self.layout();
        let ghost a = self.snapshot();
        proof {
            lemma_extends_self(a);
            lemma_advanced_self(l, a, q_num@);
        }
        if self.lit_count[cell] > 0 {
            return true;
        }
        let rseg = self.row_seg_id[cell];
        let cseg = self.col_seg_id[cell];
        if self.row_segs[rseg].light.is_some() || self.col_segs[cseg].light.is_some() {
            return true;
        }
        let cand = self.count_candidates(cell);
        if cand == 0 {
            proof {
                assert forall|lights: Seq<Seq<bool>>| #[trigger] follows(l, a, lights) implies false by {
                    lemma_wanted_candidate(l, a, lights, cell as int);
                    let y = choose|y: int|
                        #[trigger] is_candidate(l, a, rseg as int, cseg as int, y) && wants(
                            l,
                            lights,
                            y,
                        );
                    lemma_cand_count(l, a, cell as int, y, y);
                }
            }
            return false;
        }
        if cand == 1 {
            if let Some(pos) = self.find_single_candidate(rseg, cseg) {
                proof {
                    assert(is_candidate(l, a, rseg as int, cseg as int, pos as int));
                    assert(same_segment(l, pos as int, cell as int));
                    lemma_candidate_unknown(l, a, cell as int, pos as int);
                }
                let done = self.set_light(pos, q_num);
                proof {
                    assert(done);
                    let now = self.snapshot();
                    assert forall|lights: Seq<Seq<bool>>| #[trigger]
                        follows(l, a, lights) implies follows(l, now, lights) by {
                        lemma_wanted_candidate(l, a, lights, cell as int);
                        let y = choose|y: int|
                            #[trigger] is_candidate(l, a, rseg as int, cseg as int, y) && wants(
                                l,
                                lights,
                                y,
                            );
                        assert(y == pos);
                        lemma_light_follows(l, a, now, lights, pos as int);
                    }
                }
                if !done {
                    return false;
                }
                *changed = true;
            } else {
                proof {
                    assert forall|lights: Seq<Seq<bool>>| #[trigger]
                        follows(l, a, lights) implies false by {
                        lemma_wanted_candidate(l, a, lights, cell as int);
                        let y = choose|y: int|
                            #[trigger] is_candidate(l, a, rseg as int, cseg as int, y) && wants(
                                l,
                                lights,
                                y,
                            );
                        let (p, q) = choose|p: int, q: int|
                            p != q && is_candidate(l, a, rseg as int, cseg as int, p)
                                && is_candidate(l, a, rseg as int, cseg as int, q);
                        lemma_cand_count(l, a, cell as int, p, q);
                    }
                }
                return false;
            }
        }
        true
    }

    /// Draws every forced conclusion: walls whose number is met block the
    /// unknown cells beside them, walls that need all their unknown cells
    /// light them, and a dark cell with a single candidate has it lit,
    /// until nothing changes. `false` where a wall cannot be met or a dark
    /// cell cannot be lit. No solution that was in reach is lost, so with
    /// one in reach the answer is `true`; and after `true` every dark,
    /// uncovered cell has at least two candidates.
    pub fn propagate(&mut self) -> (ok: bool)
        requires
            old(self).wf(),
            old(self).settled(),
            old(self).mapped(),
        ensures
            final(self).layout() == old(self).layout(),
            final(self).wf(),
            extends(old(self).snapshot(), final(self).snapshot()),
            ok ==> final(self).settled(),
            final(self).unknowns() <= old(self).unknowns(),
            refines(old(self).snapshot().cell_state, final(self).snapshot().cell_state),
            ok ==> forall|k: int|
                0 <= k < final(self).layout().num_adj.len() ==> #[trigger] quiet_wall(
                    final(self).layout(),
                    final(self).snapshot(),
                    k,
                ),
            ok ==> forall|x: int|
                0 <= x < final(self).layout().n && #[trigger] uncovered(
                    final(self).layout(),
                    final(self).snapshot(),
                    x,
                ) ==> cand_count(final(self).layout(), final(self).snapshot(), x) >= 2,
            forall|lights: Seq<Seq<bool>>| #[trigger]
                follows(old(self).layout(), old(self).snapshot(), lights) ==> ok && follows(
                    old(self).layout(),
                    final(self).snapshot(),
                    lights,
                ),
    {
        let ghost l = self.layout();
        let ghost a = self.snapshot();
        proof {
            lemma_extends_self(a);
        }
        let mut q_num: VecDeque<usize> = VecDeque::new();
        let walls = self.num_cells.len();
        let mut k: usize = 0;
        while k < walls
            invariant
                0 <= k <= walls,
                walls == l.num_adj.len(),
                queue_ok(q_num@, l),
                q_num@.len() == k,
                forall|i: int| 0 <= i < k ==> q_num@[i] == i,
            decreases walls - k,
        {
            q_num.push_back(k);
            k = k + 1;
        }
        proof {
            assert forall|k: int| 0 <= k < l.num_adj.len() implies member(q_num@, k) by {
                assert(q_num@[k] == k);
            }
        }
        loop
            invariant
                self.layout() == l,
                l == old(self).layout(),
                a == old(self).snapshot(),
                self.wf(),
                self.settled(),
                self.mapped(),
                extends(a, self.snapshot()),
                queue_ok(q_num@, l),
                quiet_outside(l, self.snapshot(), q_num@),
                refines(a.cell_state, self.snapshot().cell_state),
                self.unknowns() <= count_all(a.cell_state, CellState::Unknown),
                forall|lights: Seq<Seq<bool>>| #[trigger]
                    follows(l, a, lights) ==> follows(l, self.snapshot(), lights),
            ensures
                self.layout() == l,
                self.wf(),
                self.settled(),
                extends(a, self.snapshot()),
                refines(a.cell_state, self.snapshot().cell_state),
                forall|k: int| 0 <= k < l.num_adj.len() ==> #[trigger] quiet_wall(l, self.snapshot(), k),
                self.unknowns() <= count_all(a.cell_state, CellState::Unknown),
                forall|lights: Seq<Seq<bool>>| #[trigger]
                    follows(l, a, lights) ==> follows(l, self.snapshot(), lights),
                forall|x: int|
                    0 <= x < l.n && #[trigger] uncovered(l, self.snapshot(), x) ==> cand_count(
                        l,
                        self.snapshot(),
                        x,
                    ) >= 2,
            decreases self.unknowns(),
        {
            let ghost start = self.snapshot();
            let mut changed = false;
            while q_num.len() > 0
                invariant
                    self.layout() == l,
                    l == old(self).layout(),
                    a == old(self).snapshot(),
                    self.wf(),
                    self.settled(),
                    self.mapped(),
                    extends(a, self.snapshot()),
                    queue_ok(q_num@, l),
                    quiet_outside(l, self.snapshot(), q_num@),
                    refines(a.cell_state, self.snapshot().cell_state),
                    self.unknowns() <= count_all(start.cell_state, CellState::Unknown),
                    count_all(start.cell_state, CellState::Unknown) <= count_all(
                        a.cell_state,
                        CellState::Unknown,
                    ),
                    !changed ==> self.snapshot() == start,
                    changed ==> self.unknowns() < count_all(start.cell_state, CellState::Unknown),
                    forall|lights: Seq<Seq<bool>>| #[trigger]
                        follows(l, a, lights) ==> follows(l, self.snapshot(), lights),
                decreases self.unknowns(), q_num@.len(),
            {
                let ghost before = self.snapshot();
                let ghost whole = q_num@;
                let idx = q_num.pop_front().unwrap();
                assert(idx < l.num_adj.len());
                let ghost rest = q_num@;
                let mut moved_on = false;
                let fine = self.settle_wall(idx, &mut q_num, &mut moved_on);
                proof {
                    lemma_refines_chain(a.cell_state, before.cell_state, self.snapshot().cell_state);
                    if fine {
                        let now = self.snapshot();
                        assert forall|k: int|
                            0 <= k < l.num_adj.len() && !member(q_num@, k) implies #[trigger] quiet_wall(
                            l,
                            now,
                            k,
                        ) by {
                            if k != idx {
                                if member(rest, k) {
                                    assert(member(q_num@, k));
                                }
                                if member(whole, k) {
                                    let i = choose|i: int|
                                        0 <= i < whole.len() && #[trigger] whole[i] == k;
                                    assert(rest[i - 1] == k);
                                }
                                assert(quiet_wall(l, before, k));
                                assert(wall_same(before, now, k));
                            }
                        }
                    }
                    lemma_extends_chain(a, before, self.snapshot());
                    assert forall|lights: Seq<Seq<bool>>| #[trigger]
                        follows(l, a, lights) implies fine && follows(
                        l,
                        self.snapshot(),
                        lights,
                    ) by {
                        assert(follows(l, before, lights));
                    }
                }
                if !fine {
                    return false;
                }
                if moved_on {
                    changed = true;
                }
            }
            let n = self.n_empty;
            let mut cell: usize = 0;
            while cell < n
                invariant
                    self.layout() == l,
                    l == old(self).layout(),
                    a == old(self).snapshot(),
                    n == l.n,
                    0 <= cell <= n,
                    self.wf(),
                    self.settled(),
                    self.mapped(),
                    extends(a, self.snapshot()),
                    queue_ok(q_num@, l),
                    quiet_outside(l, self.snapshot(), q_num@),
                    refines(a.cell_state, self.snapshot().cell_state),
                    self.unknowns() <= count_all(start.cell_state, CellState::Unknown),
                    count_all(start.cell_state, CellState::Unknown) <= count_all(
                        a.cell_state,
                        CellState::Unknown,
                    ),
                    !changed ==> self.snapshot() == start && q_num@.len() == 0,
                    !changed ==> forall|x: int|
                        0 <= x < cell && #[trigger] uncovered(l, start, x) ==> cand_count(
                            l,
                            start,
                            x,
                        ) >= 2,
                    changed ==> self.unknowns() < count_all(start.cell_state, CellState::Unknown),
                    forall|lights: Seq<Seq<bool>>| #[trigger]
                        follows(l, a, lights) ==> follows(l, self.snapshot(), lights),
                decreases n - cell,
            {
                let ghost before = self.snapshot();
                let ghost queued = q_num@;
                let mut moved_on = false;
                let fine = self.cover_cell(cell, &mut q_num, &mut moved_on);
                proof {
                    lemma_refines_chain(a.cell_state, before.cell_state, self.snapshot().cell_state);
                    lemma_quiet_kept(l, before, self.snapshot(), queued, q_num@);
                    lemma_extends_chain(a, before, self.snapshot());
                    assert forall|lights: Seq<Seq<bool>>| #[trigger]
                        follows(l, a, lights) implies fine && follows(
                        l,
                        self.snapshot(),
                        lights,
                    ) by {
                        assert(follows(l, before, lights));
                    }
                }
                if !fine {
                    return false;
                }
                if moved_on {
                    changed = true;
                }
                cell = cell + 1;
            }
            if !changed && q_num.len() == 0 {
                proof {
                    assert forall|k: int| 0 <= k < l.num_adj.len() implies #[trigger] quiet_wall(
                        l,
                        self.snapshot(),
                        k,
                    ) by {
                        if member(q_num@, k) {
                            let i = choose|i: int| 0 <= i < q_num@.len() && #[trigger] q_num@[i] == k;
                        }
                    }
                }
                break ;
            }
        }
        true
    }

    /// Depth-first search: draws the forced conclusions, then tries each
    /// candidate of the chosen cell in turn, taking the state back to the
    /// checkpoint after a candidate that did not work out. After `true`
    /// the state is solved; with a solution in reach the answer is `true`.
    pub fn dfs(&mut self) -> (ok: bool)
        requires
            old(self).wf(),
            old(self).settled(),
            old(self).mapped(),
        ensures
            final(self).layout() == old(self).layout(),
            final(self).wf(),
            extends(old(self).snapshot(), final(self).snapshot()),
            refines(old(self).snapshot().cell_state, final(self).snapshot().cell_state),
            ok ==> final(self).settled() && solved(final(self).layout(), final(self).snapshot()),
            ok <==> exists|lights: Seq<Seq<bool>>|
                follows(old(self).layout(), old(self).snapshot(), lights),
        decreases old(self).unknowns(),
    {
        let ghost l = self.layout();
        let ghost a = self.snapshot();
        let ghost hope = exists|lights: Seq<Seq<bool>>| follows(l, a, lights);
        let ghost goal = choose|lights: Seq<Seq<bool>>| follows(l, a, lights);
        if !self.propagate() {
            proof {
                if hope {
                    assert(follows(l, a, goal));
                }
            }
            return false;
        }
        if self.is_solved() {
            proof {
                lemma_grown_follows(l, a, self.snapshot());
            }
            return true;
        }
        let ghost base = self.snapshot();
        proof {
            if hope {
                assert(follows(l, a, goal));
                assert(follows(l, base, goal));
                lemma_unsolved_is_dark(l, base, goal);
                let x = choose|x: int| 0 <= x < l.n && #[trigger] base.lit_count[x] == 0;
                lemma_dark_uncovered(l, base, x);
                assert(branchable(l, base, x));
            }
        }
        let candidates = match self.choose_branch_cell() {
            Some(list) => list,
            None => {
                return false;
            },
        };
        let ghost chosen = choose|x: int|
            #[trigger] branchable(l, base, x) && candidates@ == crate::solver::fast::candidates(l, base, x);
        proof {
            lemma_candidates_shape(l, base, chosen);
            assert forall|i: int| 0 <= i < candidates@.len() implies (#[trigger] candidates@[i])
                < l.n && base.cell_state[candidates@[i] as int] == CellState::Unknown by {
                lemma_candidate_unknown(l, base, chosen, candidates@[i] as int);
            }
        }
        let mut i: usize = 0;
        while i < candidates.len()
            invariant
                self.layout() == l,
                l == old(self).layout(),
                a == old(self).snapshot(),
                self.snapshot() == base,
                self.wf(),
                self.settled(),
                self.mapped(),
                extends(a, base),
                refines(a.cell_state, base.cell_state),
                count_all(base.cell_state, CellState::Unknown) <= count_all(
                    a.cell_state,
                    CellState::Unknown,
                ),
                0 <= i <= candidates@.len(),
                forall|j: int|
                    0 <= j < candidates@.len() ==> (#[trigger] candidates@[j]) < l.n
                        && base.cell_state[candidates@[j] as int] == CellState::Unknown,
                hope ==> follows(l, base, goal),
                hope ==> forall|j: int|
                    0 <= j < i ==> !wants(l, goal, (#[trigger] candidates@[j]) as int),
                candidates@ == crate::solver::fast::candidates(l, base, chosen),
                branchable(l, base, chosen),
            decreases candidates@.len() - i,
        {
            let pos = candidates[i];
            let cp = self.checkpoint();
            let mut q: VecDeque<usize> = VecDeque::new();
            if self.set_light(pos, &mut q) {
                let ghost mid = self.snapshot();
                proof {
                    if hope && wants(l, goal, pos as int) {
                        lemma_light_follows(l, base, mid, goal, pos as int);
                    }
                }
                if self.dfs() {
                    proof {
                        lemma_refines_chain(base.cell_state, mid.cell_state, self.snapshot().cell_state);
                        lemma_refines_chain(a.cell_state, base.cell_state, self.snapshot().cell_state);
                        lemma_grown_follows(l, a, self.snapshot());
                        lemma_extends_chain(base, mid, self.snapshot());
                        lemma_extends_chain(a, base, self.snapshot());
                    }
                    return true;
                }
                proof {
                    lemma_extends_chain(base, mid, self.snapshot());
                }
            }
            self.undo(cp);
            i = i + 1;
        }
        proof {
            if hope {
                lemma_wanted_candidate(l, base, goal, chosen);
                let y = choose|y: int|
                    #[trigger] is_candidate(
                        l,
                        base,
                        l.row_seg_id[chosen] as int,
                        l.col_seg_id[chosen] as int,
                        y,
                    ) && wants(l, goal, y);
                lemma_candidates_hold(l, base, chosen, y);
                let j = choose|j: int|
                    0 <= j < candidates@.len() && #[trigger] candidates@[j] == y;
                assert(!wants(l, goal, candidates@[j] as int));
                assert(false);
            }
        }
        false
    }
}

} // verus!
