//! The trail: what an edit records, and how undoing reads it back.

use vstd::prelude::*;
use crate::solver::fast::{Action, CellState, Core, Layout, Snapshot};

verus! {

/// The state before its last trail entry was written.
pub open spec fn undo_one(s: Snapshot) -> Snapshot {
    let rest = s.trail.drop_last();
    match s.trail.last() {
        Action::CellState { idx, prev } => Snapshot {
            cell_state: s.cell_state.update(idx as int, prev),
            trail: rest,
            ..s
        },
        Action::RowLight { seg, prev } => Snapshot {
            row_light: s.row_light.update(seg as int, prev),
            trail: rest,
            ..s
        },
        Action::ColLight { seg, prev } => Snapshot {
            col_light: s.col_light.update(seg as int, prev),
            trail: rest,
            ..s
        },
        Action::RowFree { seg, prev } => Snapshot {
            row_free: s.row_free.update(seg as int, prev),
            trail: rest,
            ..s
        },
        Action::ColFree { seg, prev } => Snapshot {
            col_free: s.col_free.update(seg as int, prev),
            trail: rest,
            ..s
        },
        Action::LitCount { idx, prev } => Snapshot {
            lit_count: s.lit_count.update(idx as int, prev),
            trail: rest,
            ..s
        },
        Action::NumOn { idx, prev } => Snapshot {
            num_on: s.num_on.update(idx as int, prev),
            trail: rest,
            ..s
        },
        Action::NumUnk { idx, prev } => Snapshot {
            num_unk: s.num_unk.update(idx as int, prev),
            trail: rest,
            ..s
        },
    }
}

/// The state after undoing trail entries, last first, until at most `cp` are left.
pub open spec fn rewind(s: Snapshot, cp: nat) -> Snapshot
    decreases s.trail.len(),
{
    if s.trail.len() <= cp {
        s
    } else {
        rewind(undo_one(s), cp)
    }
}

/// `b` was reached from `a` by edits that the trail records: undoing `b`
/// down to the length of `a`'s trail gives `a` again.
pub open spec fn extends(a: Snapshot, b: Snapshot) -> bool {
    a.trail.len() <= b.trail.len() && rewind(b, a.trail.len()) == a
}

/// Undoing to a later mark and then to an earlier one is undoing to the earlier one.
pub proof fn lemma_rewind_twice(s: Snapshot, later: nat, earlier: nat)
    requires
        earlier <= later,
    ensures
        rewind(rewind(s, later), earlier) == rewind(s, earlier),
    decreases s.trail.len(),
{
    if s.trail.len() > later {
        lemma_rewind_twice(undo_one(s), later, earlier);
    }
}

/// Edits after edits are edits.
pub proof fn lemma_extends_chain(a: Snapshot, b: Snapshot, c: Snapshot)
    requires
        extends(a, b),
        extends(b, c),
    ensures
        extends(a, c),
{
    lemma_rewind_twice(c, b.trail.len(), a.trail.len());
}

/// One recorded change is an edit.
pub proof fn lemma_one_edit(a: Snapshot, b: Snapshot)
    requires
        b.trail.len() == a.trail.len() + 1,
        undo_one(b) == a,
    ensures
        extends(a, b),
{
    assert(rewind(b, a.trail.len()) == rewind(undo_one(b), a.trail.len()));
    assert(rewind(a, a.trail.len()) == a);
}

/// Nothing done is an edit too.
pub proof fn lemma_extends_self(a: Snapshot)
    ensures
        extends(a, a),
{
}

/// Undo restores state: whatever edits were made since a checkpoint was
/// taken, undoing to the checkpoint gives back every cell state, segment
/// light, free count, lit count, wall counter and the trail itself as they
/// were. `states` holds the state at the checkpoint followed by the state
/// after each edit.
pub proof fn lemma_undo_restores(states: Seq<Snapshot>)
    requires
        states.len() > 0,
        forall|i: int| 0 <= i < states.len() - 1 ==> extends(#[trigger] states[i], states[i + 1]),
    ensures
        rewind(states.last(), states[0].trail.len()) == states[0],
    decreases states.len(),
{
    if states.len() > 1 {
        let shorter = states.drop_last();
        assert forall|i: int| 0 <= i < shorter.len() - 1 implies extends(
            #[trigger] shorter[i],
            shorter[i + 1],
        ) by {
            assert(extends(states[i], states[i + 1]));
        }
        lemma_undo_restores(shorter);
        assert(extends(states[states.len() - 2], states[states.len() - 2 + 1]));
        lemma_extends_chain(states[0], shorter.last(), states.last());
    }
}

/// The trail entry names a place that exists.
pub open spec fn action_ok(a: Action, n: nat, rows: nat, cols: nat, nums: nat) -> bool {
    match a {
        Action::CellState { idx, prev } => idx < n,
        Action::RowLight { seg, prev } => seg < rows,
        Action::ColLight { seg, prev } => seg < cols,
        Action::RowFree { seg, prev } => seg < rows,
        Action::ColFree { seg, prev } => seg < cols,
        Action::LitCount { idx, prev } => idx < n,
        Action::NumOn { idx, prev } => idx < nums,
        Action::NumUnk { idx, prev } => idx < nums,
    }
}

/// The changing part has the sizes that the fixed part asks for, and the
/// trail names only places that exist.
pub open spec fn sized(l: Layout, s: Snapshot) -> bool {
    &&& s.cell_state.len() == l.n
    &&& s.lit_count.len() == l.n
    &&& s.row_light.len() == l.row_cells.len()
    &&& s.row_free.len() == l.row_cells.len()
    &&& s.col_light.len() == l.col_cells.len()
    &&& s.col_free.len() == l.col_cells.len()
    &&& s.num_on.len() == l.num_adj.len()
    &&& s.num_unk.len() == l.num_adj.len()
    &&& forall|i: int|
        0 <= i < s.trail.len() ==> action_ok(
            #[trigger] s.trail[i],
            l.n,
            l.row_cells.len(),
            l.col_cells.len(),
            l.num_adj.len(),
        )
}

impl Core {
    /// The sizes agree; enough to touch any place that the trail names.
    pub open spec fn shaped(&self) -> bool {
        sized(self.layout(), self.snapshot())
    }

    /// A mark to which the state can later be taken back.
    pub fn checkpoint(&self) -> (cp: usize)
        ensures
            cp == self.snapshot().trail.len(),
    {
        self.trail.len()
    }

    /// Takes back, last first, every edit made since the trail had length `cp`.
    pub fn undo(&mut self, cp: usize)
        requires
            old(self).shaped(),
        ensures
            final(self).layout() == old(self).layout(),
            final(self).snapshot() == rewind(old(self).snapshot(), cp as nat),
            final(self).shaped(),
    {
        let ghost l = self.layout();
        let ghost start = self.snapshot();
        while self.trail.len() > cp
            invariant
                self.layout() == l,
                self.shaped(),
                rewind(self.snapshot(), cp as nat) == rewind(start, cp as nat),
            decreases self.trail@.len(),
        {
            let ghost before = self.snapshot();
            assert(action_ok(
                before.trail[before.trail.len() - 1],
                l.n,
                l.row_cells.len(),
                l.col_cells.len(),
                l.num_adj.len(),
            ));
            let action = self.trail.pop().unwrap();
            match action {
                Action::CellState { idx, prev } => {
                    self.cell_state[idx] = prev;
                },
                Action::RowLight { seg, prev } => {
                    self.row_segs[seg].light = prev;
                },
                Action::ColLight { seg, prev } => {
                    self.col_segs[seg].light = prev;
                },
                Action::RowFree { seg, prev } => {
                    self.row_segs[seg].free_cnt = prev;
                },
                Action::ColFree { seg, prev } => {
                    self.col_segs[seg].free_cnt = prev;
                },
                Action::LitCount { idx, prev } => {
                    self.lit_count[idx] = prev;
                },
                Action::NumOn { idx, prev } => {
                    self.num_cells[idx].on = prev;
                },
                Action::NumUnk { idx, prev } => {
                    self.num_cells[idx].unk = prev;
                },
            }
            proof {
                let now = self.snapshot();
                let want = undo_one(before);
                assert(now.cell_state =~= want.cell_state);
                assert(now.row_light =~= want.row_light);
                assert(now.col_light =~= want.col_light);
                assert(now.row_free =~= want.row_free);
                assert(now.col_free =~= want.col_free);
                assert(now.lit_count =~= want.lit_count);
                assert(now.num_on =~= want.num_on);
                assert(now.num_unk =~= want.num_unk);
                assert(now.trail =~= want.trail);
                assert(now == want);
                assert(self.layout().row_cells =~= l.row_cells);
                assert(self.layout().col_cells =~= l.col_cells);
                assert(self.layout().num_value =~= l.num_value);
                assert(self.layout().num_adj =~= l.num_adj);
                assert(self.layout() == l);
                assert forall|i: int| 0 <= i < now.trail.len() implies action_ok(
                    #[trigger] now.trail[i],
                    l.n,
                    l.row_cells.len(),
                    l.col_cells.len(),
                    l.num_adj.len(),
                ) by {
                    assert(now.trail[i] == before.trail[i]);
                }
            }
        }
    }

    /// Sets the state of cell `idx`, writing the value it held to the trail.
    pub fn write_state(&mut self, idx: usize, value: CellState)
        requires
            old(self).shaped(),
            idx < old(self).layout().n,
        ensures
            final(self).layout() == old(self).layout(),
            final(self).shaped(),
            final(self).snapshot() == (Snapshot {
                cell_state: old(self).snapshot().cell_state.update(idx as int, value),
                trail: old(self).snapshot().trail.push(
                    Action::CellState { idx, prev: old(self).snapshot().cell_state[idx as int] },
                ),
                ..old(self).snapshot()
            }),
            extends(old(self).snapshot(), final(self).snapshot()),
    {
        let ghost l = self.layout();
        let ghost before = self.snapshot();
        let prev = self.cell_state[idx];
        self.trail.push(Action::CellState { idx, prev });
        self.cell_state[idx] = value;
        proof {
            let now = self.snapshot();
            assert(now.cell_state =~= before.cell_state.update(idx as int, value));
            assert(now.row_light =~= before.row_light);
            assert(now.col_light =~= before.col_light);
            assert(now.row_free =~= before.row_free);
            assert(now.col_free =~= before.col_free);
            assert(now.lit_count =~= before.lit_count);
            assert(now.num_on =~= before.num_on);
            assert(now.num_unk =~= before.num_unk);
            assert(now.trail =~= before.trail.push(Action::CellState { idx, prev }));
            assert(self.layout().row_cells =~= l.row_cells);
            assert(self.layout().col_cells =~= l.col_cells);
            assert(self.layout().num_value =~= l.num_value);
            assert(self.layout().num_adj =~= l.num_adj);
            assert(self.layout() == l);
            assert forall|i: int| 0 <= i < now.trail.len() implies action_ok(
                #[trigger] now.trail[i],
                l.n,
                l.row_cells.len(),
                l.col_cells.len(),
                l.num_adj.len(),
            ) by {
                if i < before.trail.len() {
                    assert(now.trail[i] == before.trail[i]);
                }
            }
            let back = undo_one(now);
            assert(back.trail =~= before.trail);
            assert(back.cell_state =~= before.cell_state);
            assert(back == before);
            lemma_one_edit(before, now);
        }
    }

    /// Sets the light of row segment `seg`, writing the value it held to the trail.
    pub fn write_row_light(&mut self, seg: usize, value: Option<usize>)
        requires
            old(self).shaped(),
            seg < old(self).layout().row_cells.len(),
        ensures
            final(self).layout() == old(self).layout(),
            final(self).shaped(),
            final(self).snapshot() == (Snapshot {
                row_light: old(self).snapshot().row_light.update(seg as int, value),
                trail: old(self).snapshot().trail.push(
                    Action::RowLight { seg, prev: old(self).snapshot().row_light[seg as int] },
                ),
                ..old(self).snapshot()
            }),
            extends(old(self).snapshot(), final(self).snapshot()),
    {
        let ghost l = self.layout();
        let ghost before = self.snapshot();
        let prev = self.row_segs[seg].light;
        self.trail.push(Action::RowLight { seg, prev });
        self.row_segs[seg].light = value;
        proof {
            let now = self.snapshot();
            assert(now.row_light =~= before.row_light.update(seg as int, value));
            assert(now.cell_state =~= before.cell_state);
            assert(now.col_light =~= before.col_light);
            assert(now.row_free =~= before.row_free);
            assert(now.col_free =~= before.col_free);
            assert(now.lit_count =~= before.lit_count);
            assert(now.num_on =~= before.num_on);
            assert(now.num_unk =~= before.num_unk);
            assert(now.trail =~= before.trail.push(Action::RowLight { seg, prev }));
            assert(self.layout().row_cells =~= l.row_cells);
            assert(self.layout().col_cells =~= l.col_cells);
            assert(self.layout().num_value =~= l.num_value);
            assert(self.layout().num_adj =~= l.num_adj);
            assert(self.layout() == l);
            assert forall|i: int| 0 <= i < now.trail.len() implies action_ok(
                #[trigger] now.trail[i],
                l.n,
                l.row_cells.len(),
                l.col_cells.len(),
                l.num_adj.len(),
            ) by {
                if i < before.trail.len() {
                    assert(now.trail[i] == before.trail[i]);
                }
            }
            let back = undo_one(now);
            assert(back.trail =~= before.trail);
            assert(back.row_light =~= before.row_light);
            assert(back == before);
            lemma_one_edit(before, now);
        }
    }

    /// Sets the light of column segment `seg`, writing the value it held to the trail.
    pub fn write_col_light(&mut self, seg: usize, value: Option<usize>)
        requires
            old(self).shaped(),
            seg < old(self).layout().col_cells.len(),
        ensures
            final(self).layout() == old(self).layout(),
            final(self).shaped(),
            final(self).snapshot() == (Snapshot {
                col_light: old(self).snapshot().col_light.update(seg as int, value),
                trail: old(self).snapshot().trail.push(
                    Action::ColLight { seg, prev: old(self).snapshot().col_light[seg as int] },
                ),
                ..old(self).snapshot()
            }),
            extends(old(self).snapshot(), final(self).snapshot()),
    {
        let ghost l = self.layout();
        let ghost before = self.snapshot();
        let prev = self.col_segs[seg].light;
        self.trail.push(Action::ColLight { seg, prev });
        self.col_segs[seg].light = value;
        proof {
            let now = self.snapshot();
            assert(now.col_light =~= before.col_light.update(seg as int, value));
            assert(now.cell_state =~= before.cell_state);
            assert(now.row_light =~= before.row_light);
            assert(now.row_free =~= before.row_free);
            assert(now.col_free =~= before.col_free);
            assert(now.lit_count =~= before.lit_count);
            assert(now.num_on =~= before.num_on);
            assert(now.num_unk =~= before.num_unk);
            assert(now.trail =~= before.trail.push(Action::ColLight { seg, prev }));
            assert(self.layout().row_cells =~= l.row_cells);
            assert(self.layout().col_cells =~= l.col_cells);
            assert(self.layout().num_value =~= l.num_value);
            assert(self.layout().num_adj =~= l.num_adj);
            assert(self.layout() == l);
            assert forall|i: int| 0 <= i < now.trail.len() implies action_ok(
                #[trigger] now.trail[i],
                l.n,
                l.row_cells.len(),
                l.col_cells.len(),
                l.num_adj.len(),
            ) by {
                if i < before.trail.len() {
                    assert(now.trail[i] == before.trail[i]);
                }
            }
            let back = undo_one(now);
            assert(back.trail =~= before.trail);
            assert(back.col_light =~= before.col_light);
            assert(back == before);
            lemma_one_edit(before, now);
        }
    }

    /// Sets the free count of row segment `seg`, writing the value it held to the trail.
    pub fn write_row_free(&mut self, seg: usize, value: usize)
        requires
            old(self).shaped(),
            seg < old(self).layout().row_cells.len(),
        ensures
            final(self).layout() == old(self).layout(),
            final(self).shaped(),
            final(self).snapshot() == (Snapshot {
                row_free: old(self).snapshot().row_free.update(seg as int, value),
                trail: old(self).snapshot().trail.push(
                    Action::RowFree { seg, prev: old(self).snapshot().row_free[seg as int] },
                ),
                ..old(self).snapshot()
            }),
            extends(old(self).snapshot(), final(self).snapshot()),
    {
        let ghost l = self.layout();
        let ghost before = self.snapshot();
        let prev = self.row_segs[seg].free_cnt;
        self.trail.push(Action::RowFree { seg, prev });
        self.row_segs[seg].free_cnt = value;
        proof {
            let now = self.snapshot();
            assert(now.row_free =~= before.row_free.update(seg as int, value));
            assert(now.cell_state =~= before.cell_state);
            assert(now.row_light =~= before.row_light);
            assert(now.col_light =~= before.col_light);
            assert(now.col_free =~= before.col_free);
            assert(now.lit_count =~= before.lit_count);
            assert(now.num_on =~= before.num_on);
            assert(now.num_unk =~= before.num_unk);
            assert(now.trail =~= before.trail.push(Action::RowFree { seg, prev }));
            assert(self.layout().row_cells =~= l.row_cells);
            assert(self.layout().col_cells =~= l.col_cells);
            assert(self.layout().num_value =~= l.num_value);
            assert(self.layout().num_adj =~= l.num_adj);
            assert(self.layout() == l);
            assert forall|i: int| 0 <= i < now.trail.len() implies action_ok(
                #[trigger] now.trail[i],
                l.n,
                l.row_cells.len(),
                l.col_cells.len(),
                l.num_adj.len(),
            ) by {
                if i < before.trail.len() {
                    assert(now.trail[i] == before.trail[i]);
                }
            }
            let back = undo_one(now);
            assert(back.trail =~= before.trail);
            assert(back.row_free =~= before.row_free);
            assert(back == before);
            lemma_one_edit(before, now);
        }
    }

    /// Sets the free count of column segment `seg`, writing the value it held to the trail.
    pub fn write_col_free(&mut self, seg: usize, value: usize)
        requires
            old(self).shaped(),
            seg < old(self).layout().col_cells.len(),
        ensures
            final(self).layout() == old(self).layout(),
            final(self).shaped(),
            final(self).snapshot() == (Snapshot {
                col_free: old(self).snapshot().col_free.update(seg as int, value),
                trail: old(self).snapshot().trail.push(
                    Action::ColFree { seg, prev: old(self).snapshot().col_free[seg as int] },
                ),
                ..old(self).snapshot()
            }),
            extends(old(self).snapshot(), final(self).snapshot()),
    {
        let ghost l = self.layout();
        let ghost before = self.snapshot();
        let prev = self.col_segs[seg].free_cnt;
        self.trail.push(Action::ColFree { seg, prev });
        self.col_segs[seg].free_cnt = value;
        proof {
            let now = self.snapshot();
            assert(now.col_free =~= before.col_free.update(seg as int, value));
            assert(now.cell_state =~= before.cell_state);
            assert(now.row_light =~= before.row_light);
            assert(now.col_light =~= before.col_light);
            assert(now.row_free =~= before.row_free);
            assert(now.lit_count =~= before.lit_count);
            assert(now.num_on =~= before.num_on);
            assert(now.num_unk =~= before.num_unk);
            assert(now.trail =~= before.trail.push(Action::ColFree { seg, prev }));
            assert(self.layout().row_cells =~= l.row_cells);
            assert(self.layout().col_cells =~= l.col_cells);
            assert(self.layout().num_value =~= l.num_value);
            assert(self.layout().num_adj =~= l.num_adj);
            assert(self.layout() == l);
            assert forall|i: int| 0 <= i < now.trail.len() implies action_ok(
                #[trigger] now.trail[i],
                l.n,
                l.row_cells.len(),
                l.col_cells.len(),
                l.num_adj.len(),
            ) by {
                if i < before.trail.len() {
                    assert(now.trail[i] == before.trail[i]);
                }
            }
            let back = undo_one(now);
            assert(back.trail =~= before.trail);
            assert(back.col_free =~= before.col_free);
            assert(back == before);
            lemma_one_edit(before, now);
        }
    }

    /// Sets the lit count of cell `idx`, writing the value it held to the trail.
    pub fn write_lit_count(&mut self, idx: usize, value: usize)
        requires
            old(self).shaped(),
            idx < old(self).layout().n,
        ensures
            final(self).layout() == old(self).layout(),
            final(self).shaped(),
            final(self).snapshot() == (Snapshot {
                lit_count: old(self).snapshot().lit_count.update(idx as int, value),
                trail: old(self).snapshot().trail.push(
                    Action::LitCount { idx, prev: old(self).snapshot().lit_count[idx as int] },
                ),
                ..old(self).snapshot()
            }),
            extends(old(self).snapshot(), final(self).snapshot()),
    {
        let ghost l = self.layout();
        let ghost before = self.snapshot();
        let prev = self.lit_count[idx];
        self.trail.push(Action::LitCount { idx, prev });
        self.lit_count[idx] = value;
        proof {
            let now = self.snapshot();
            assert(now.lit_count =~= before.lit_count.update(idx as int, value));
            assert(now.cell_state =~= before.cell_state);
            assert(now.row_light =~= before.row_light);
            assert(now.col_light =~= before.col_light);
            assert(now.row_free =~= before.row_free);
            assert(now.col_free =~= before.col_free);
            assert(now.num_on =~= before.num_on);
            assert(now.num_unk =~= before.num_unk);
            assert(now.trail =~= before.trail.push(Action::LitCount { idx, prev }));
            assert(self.layout().row_cells =~= l.row_cells);
            assert(self.layout().col_cells =~= l.col_cells);
            assert(self.layout().num_value =~= l.num_value);
            assert(self.layout().num_adj =~= l.num_adj);
            assert(self.layout() == l);
            assert forall|i: int| 0 <= i < now.trail.len() implies action_ok(
                #[trigger] now.trail[i],
                l.n,
                l.row_cells.len(),
                l.col_cells.len(),
                l.num_adj.len(),
            ) by {
                if i < before.trail.len() {
                    assert(now.trail[i] == before.trail[i]);
                }
            }
            let back = undo_one(now);
            assert(back.trail =~= before.trail);
            assert(back.lit_count =~= before.lit_count);
            assert(back == before);
            lemma_one_edit(before, now);
        }
    }

    /// Sets the count of lights beside wall `idx`, writing the value it held to the trail.
    pub fn write_num_on(&mut self, idx: usize, value: usize)
        requires
            old(self).shaped(),
            idx < old(self).layout().num_adj.len(),
        ensures
            final(self).layout() == old(self).layout(),
            final(self).shaped(),
            final(self).snapshot() == (Snapshot {
                num_on: old(self).snapshot().num_on.update(idx as int, value),
                trail: old(self).snapshot().trail.push(
                    Action::NumOn { idx, prev: old(self).snapshot().num_on[idx as int] },
                ),
                ..old(self).snapshot()
            }),
            extends(old(self).snapshot(), final(self).snapshot()),
    {
        let ghost l = self.layout();
        let ghost before = self.snapshot();
        let prev = self.num_cells[idx].on;
        self.trail.push(Action::NumOn { idx, prev });
        self.num_cells[idx].on = value;
        proof {
            let now = self.snapshot();
            assert(now.num_on =~= before.num_on.update(idx as int, value));
            assert(now.cell_state =~= before.cell_state);
            assert(now.row_light =~= before.row_light);
            assert(now.col_light =~= before.col_light);
            assert(now.row_free =~= before.row_free);
            assert(now.col_free =~= before.col_free);
            assert(now.lit_count =~= before.lit_count);
            assert(now.num_unk =~= before.num_unk);
            assert(now.trail =~= before.trail.push(Action::NumOn { idx, prev }));
            assert(self.layout().row_cells =~= l.row_cells);
            assert(self.layout().col_cells =~= l.col_cells);
            assert(self.layout().num_value =~= l.num_value);
            assert(self.layout().num_adj =~= l.num_adj);
            assert(self.layout() == l);
            assert forall|i: int| 0 <= i < now.trail.len() implies action_ok(
                #[trigger] now.trail[i],
                l.n,
                l.row_cells.len(),
                l.col_cells.len(),
                l.num_adj.len(),
            ) by {
                if i < before.trail.len() {
                    assert(now.trail[i] == before.trail[i]);
                }
            }
            let back = undo_one(now);
            assert(back.trail =~= before.trail);
            assert(back.num_on =~= before.num_on);
            assert(back == before);
            lemma_one_edit(before, now);
        }
    }

    /// Sets the count of unknown cells beside wall `idx`, writing the value it held to the trail.
    pub fn write_num_unk(&mut self, idx: usize, value: usize)
        requires
            old(self).shaped(),
            idx < old(self).layout().num_adj.len(),
        ensures
            final(self).layout() == old(self).layout(),
            final(self).shaped(),
            final(self).snapshot() == (Snapshot {
                num_unk: old(self).snapshot().num_unk.update(idx as int, value),
                trail: old(self).snapshot().trail.push(
                    Action::NumUnk { idx, prev: old(self).snapshot().num_unk[idx as int] },
                ),
                ..old(self).snapshot()
            }),
            extends(old(self).snapshot(), final(self).snapshot()),
    {
        let ghost l = self.layout();
        let ghost before = self.snapshot();
        let prev = self.num_cells[idx].unk;
        self.trail.push(Action::NumUnk { idx, prev });
        self.num_cells[idx].unk = value;
        proof {
            let now = self.snapshot();
            assert(now.num_unk =~= before.num_unk.update(idx as int, value));
            assert(now.cell_state =~= before.cell_state);
            assert(now.row_light =~= before.row_light);
            assert(now.col_light =~= before.col_light);
            assert(now.row_free =~= before.row_free);
            assert(now.col_free =~= before.col_free);
            assert(now.lit_count =~= before.lit_count);
            assert(now.num_on =~= before.num_on);
            assert(now.trail =~= before.trail.push(Action::NumUnk { idx, prev }));
            assert(self.layout().row_cells =~= l.row_cells);
            assert(self.layout().col_cells =~= l.col_cells);
            assert(self.layout().num_value =~= l.num_value);
            assert(self.layout().num_adj =~= l.num_adj);
            assert(self.layout() == l);
            assert forall|i: int| 0 <= i < now.trail.len() implies action_ok(
                #[trigger] now.trail[i],
                l.n,
                l.row_cells.len(),
                l.col_cells.len(),
                l.num_adj.len(),
            ) by {
                if i < before.trail.len() {
                    assert(now.trail[i] == before.trail[i]);
                }
            }
            let back = undo_one(now);
            assert(back.trail =~= before.trail);
            assert(back.num_unk =~= before.num_unk);
            assert(back == before);
            lemma_one_edit(before, now);
        }
    }
}

} // verus!
