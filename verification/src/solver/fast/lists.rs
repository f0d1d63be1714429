//! Lists of cell numbers and counts over them.

use vstd::prelude::*;
use crate::solver::fast::CellState;

verus! {

/// `x` occurs in `ids`.
pub open spec fn member(ids: Seq<usize>, x: int) -> bool {
    exists|i: int| 0 <= i < ids.len() && #[trigger] ids[i] == x
}

/// Nothing occurs twice in `ids`.
pub open spec fn no_dups(ids: Seq<usize>) -> bool {
    forall|i: int, j: int| 0 <= i < j < ids.len() ==> #[trigger] ids[i] != #[trigger] ids[j]
}

/// Everything in `ids` is less than `n`.
pub open spec fn below(ids: Seq<usize>, n: nat) -> bool {
    forall|i: int| 0 <= i < ids.len() ==> (#[trigger] ids[i]) < n
}

/// One for `true`, zero for `false`.
pub open spec fn one_when(b: bool) -> int {
    if b {
        1
    } else {
        0
    }
}

/// How many of the cells `ids` are in state `kind`.
pub open spec fn count_in(ids: Seq<usize>, st: Seq<CellState>, kind: CellState) -> nat
    decreases ids.len(),
{
    if ids.len() == 0 {
        0
    } else {
        count_in(ids.drop_last(), st, kind) + (if st[ids.last() as int] == kind {
            1nat
        } else {
            0nat
        })
    }
}

/// How many cells are in state `kind`.
pub open spec fn count_all(st: Seq<CellState>, kind: CellState) -> nat
    decreases st.len(),
{
    if st.len() == 0 {
        0
    } else {
        count_all(st.drop_last(), kind) + (if st.last() == kind {
            1nat
        } else {
            0nat
        })
    }
}

/// A list counts no more cells than it names.
pub proof fn lemma_count_in_bound(ids: Seq<usize>, st: Seq<CellState>, kind: CellState)
    ensures
        count_in(ids, st, kind) <= ids.len(),
    decreases ids.len(),
{
    if ids.len() > 0 {
        lemma_count_in_bound(ids.drop_last(), st, kind);
    }
}

/// A change of one cell's state changes a count by that cell alone.
pub proof fn lemma_count_in_update(
    ids: Seq<usize>,
    st: Seq<CellState>,
    x: int,
    v: CellState,
    kind: CellState,
)
    requires
        below(ids, st.len()),
        no_dups(ids),
        0 <= x < st.len(),
    ensures
        count_in(ids, st.update(x, v), kind) == count_in(ids, st, kind) + (if member(ids, x) {
            one_when(v == kind) - one_when(st[x] == kind)
        } else {
            0
        }),
    decreases ids.len(),
{
    if ids.len() > 0 {
        let front = ids.drop_last();
        assert(below(front, st.len())) by {
            assert forall|i: int| 0 <= i < front.len() implies (#[trigger] front[i]) < st.len() by {
                assert(front[i] == ids[i]);
            }
        }
        assert(no_dups(front)) by {
            assert forall|i: int, j: int| 0 <= i < j < front.len() implies #[trigger] front[i]
                != #[trigger] front[j] by {
                assert(front[i] == ids[i] && front[j] == ids[j]);
            }
        }
        lemma_count_in_update(front, st, x, v, kind);
        let last = ids.last() as int;
        assert(ids[ids.len() - 1] < st.len());
        if last == x {
            assert(!member(front, x)) by {
                if member(front, x) {
                    let i = choose|i: int| 0 <= i < front.len() && #[trigger] front[i] == x;
                    assert(front[i] == ids[i]);
                    assert(ids[i] != ids[ids.len() - 1]);
                }
            }
            assert(member(ids, x)) by {
                assert(ids[ids.len() - 1] == x);
            }
        } else {
            assert(member(ids, x) == member(front, x)) by {
                if member(front, x) {
                    let i = choose|i: int| 0 <= i < front.len() && #[trigger] front[i] == x;
                    assert(ids[i] == x);
                }
                if member(ids, x) {
                    let i = choose|i: int| 0 <= i < ids.len() && #[trigger] ids[i] == x;
                    assert(front[i] == x);
                }
            }
        }
    }
}

/// A count is positive exactly when some counted cell is in that state.
pub proof fn lemma_count_in_positive(ids: Seq<usize>, st: Seq<CellState>, kind: CellState)
    ensures
        count_in(ids, st, kind) > 0 <==> exists|i: int|
            0 <= i < ids.len() && st[#[trigger] ids[i] as int] == kind,
    decreases ids.len(),
{
    if ids.len() > 0 {
        let front = ids.drop_last();
        lemma_count_in_positive(front, st, kind);
        if count_in(ids, st, kind) > 0 {
            if st[ids.last() as int] == kind {
                assert(st[ids[ids.len() - 1] as int] == kind);
            } else {
                let i = choose|i: int| 0 <= i < front.len() && st[#[trigger] front[i] as int] == kind;
                assert(st[ids[i] as int] == kind);
            }
        }
        if exists|i: int| 0 <= i < ids.len() && st[#[trigger] ids[i] as int] == kind {
            let i = choose|i: int| 0 <= i < ids.len() && st[#[trigger] ids[i] as int] == kind;
            if i < front.len() {
                assert(st[front[i] as int] == kind);
            }
        }
    }
}

/// A change of one cell's state changes the count over all cells by that cell alone.
pub proof fn lemma_count_all_update(st: Seq<CellState>, x: int, v: CellState, kind: CellState)
    requires
        0 <= x < st.len(),
    ensures
        count_all(st.update(x, v), kind) == count_all(st, kind) + one_when(v == kind) - one_when(
            st[x] == kind,
        ),
    decreases st.len(),
{
    if x == st.len() - 1 {
        assert(st.update(x, v).drop_last() =~= st.drop_last());
    } else {
        assert(st.update(x, v).drop_last() =~= st.drop_last().update(x, v));
        lemma_count_all_update(st.drop_last(), x, v, kind);
    }
}

/// Where cells only leave state `kind`, there are no more cells in that state than before.
pub proof fn lemma_count_all_shrinks(a: Seq<CellState>, b: Seq<CellState>, kind: CellState)
    requires
        a.len() == b.len(),
        forall|x: int| 0 <= x < a.len() ==> (#[trigger] b[x]) == kind ==> a[x] == kind,
    ensures
        count_all(b, kind) <= count_all(a, kind),
        (exists|x: int| 0 <= x < a.len() && #[trigger] a[x] == kind && b[x] != kind) ==> count_all(
            b,
            kind,
        ) < count_all(a, kind),
    decreases a.len(),
{
    if a.len() > 0 {
        let a0 = a.drop_last();
        let b0 = b.drop_last();
        assert forall|x: int| 0 <= x < a0.len() implies (#[trigger] b0[x]) == kind ==> a0[x]
            == kind by {
            assert(b[x] == b0[x]);
        }
        lemma_count_all_shrinks(a0, b0, kind);
        assert(b[b.len() - 1] == kind ==> a[a.len() - 1] == kind);
        if exists|x: int| 0 <= x < a.len() && #[trigger] a[x] == kind && b[x] != kind {
            let x = choose|x: int| 0 <= x < a.len() && #[trigger] a[x] == kind && b[x] != kind;
            if x < a0.len() {
                assert(a0[x] == kind && b0[x] != kind);
            }
        }
    }
}

/// The item at place `i` of a list without repeats is not among the items before it.
pub proof fn lemma_take_fresh(ids: Seq<usize>, i: int)
    requires
        no_dups(ids),
        0 <= i < ids.len(),
    ensures
        !member(ids.take(i), ids[i] as int),
{
    if member(ids.take(i), ids[i] as int) {
        let j = choose|j: int| 0 <= j < ids.take(i).len() && #[trigger] ids.take(i)[j] == ids[i];
        assert(ids[j] != ids[i]);
    }
}

/// The first `i + 1` items are the first `i` items and the item at place `i`.
pub proof fn lemma_take_member(ids: Seq<usize>, i: int, x: int)
    requires
        0 <= i < ids.len(),
    ensures
        member(ids.take(i + 1), x) <==> (member(ids.take(i), x) || ids[i] == x),
{
    if member(ids.take(i), x) {
        let j = choose|j: int| 0 <= j < ids.take(i).len() && #[trigger] ids.take(i)[j] == x;
        assert(ids.take(i + 1)[j] == x);
    }
    if ids[i] == x {
        assert(ids.take(i + 1)[i] == x);
    }
    if member(ids.take(i + 1), x) {
        let j = choose|j: int| 0 <= j < ids.take(i + 1).len() && #[trigger] ids.take(i + 1)[j] == x;
        if j < i {
            assert(ids.take(i)[j] == x);
        }
    }
}

/// Cells that only leave the unknown state, one of them for sure, leave fewer unknown cells.
pub proof fn lemma_unknowns_drop(a: Seq<CellState>, b: Seq<CellState>, cell: int)
    requires
        a.len() == b.len(),
        0 <= cell < a.len(),
        a[cell] == CellState::Unknown,
        b[cell] != CellState::Unknown,
        forall|x: int|
            0 <= x < a.len() ==> ((#[trigger] b[x]) == CellState::Unknown ==> a[x]
                == CellState::Unknown),
    ensures
        count_all(b, CellState::Unknown) < count_all(a, CellState::Unknown),
{
    lemma_count_all_shrinks(a, b, CellState::Unknown);
}

/// Leaving the unknown state step by step is leaving it.
pub proof fn lemma_unknowns_chain(a: Seq<CellState>, b: Seq<CellState>, c: Seq<CellState>)
    requires
        a.len() == b.len(),
        b.len() == c.len(),
        forall|x: int|
            0 <= x < a.len() ==> ((#[trigger] b[x]) == CellState::Unknown ==> a[x]
                == CellState::Unknown),
        forall|x: int|
            0 <= x < a.len() ==> ((#[trigger] c[x]) == b[x] || (b[x] == CellState::Unknown && c[x]
                == CellState::Blocked)),
    ensures
        forall|x: int|
            0 <= x < a.len() ==> ((#[trigger] c[x]) == CellState::Unknown ==> a[x]
                == CellState::Unknown),
{
    assert forall|x: int| 0 <= x < a.len() implies ((#[trigger] c[x]) == CellState::Unknown ==> a[x]
        == CellState::Unknown) by {
        assert(b[x] == CellState::Unknown ==> a[x] == CellState::Unknown);
    }
}

/// A list that names a cell not in state `kind` has fewer cells in that state than it has cells.
pub proof fn lemma_count_in_room(ids: Seq<usize>, st: Seq<CellState>, x: int, kind: CellState)
    requires
        member(ids, x),
        st[x] != kind,
    ensures
        count_in(ids, st, kind) < ids.len(),
    decreases ids.len(),
{
    if ids.len() > 0 {
        let front = ids.drop_last();
        lemma_count_in_bound(front, st, kind);
        if ids.last() == x {
        } else {
            let i = choose|i: int| 0 <= i < ids.len() && #[trigger] ids[i] == x;
            assert(front[i] == x);
            lemma_count_in_room(front, st, x, kind);
        }
    }
}

/// A list without repeats stays without repeats when something new is added.
pub proof fn lemma_pushed(ids: Seq<usize>, x: usize, n: nat)
    requires
        no_dups(ids),
        below(ids, n),
        !member(ids, x as int),
        x < n,
    ensures
        no_dups(ids.push(x)),
        below(ids.push(x), n),
{
    let more = ids.push(x);
    assert forall|i: int, j: int| 0 <= i < j < more.len() implies #[trigger] more[i]
        != #[trigger] more[j] by {
        if j < ids.len() {
            assert(more[i] == ids[i] && more[j] == ids[j]);
        } else {
            assert(more[i] == ids[i]);
        }
    }
    assert forall|i: int| 0 <= i < more.len() implies (#[trigger] more[i]) < n by {
        if i < ids.len() {
            assert(more[i] == ids[i]);
        }
    }
}

/// What a list holds after one more item is added.
pub proof fn lemma_push_member(ids: Seq<usize>, x: usize, y: int)
    ensures
        member(ids.push(x), y) <==> (member(ids, y) || x == y),
{
    let more = ids.push(x);
    if member(ids, y) {
        let i = choose|i: int| 0 <= i < ids.len() && #[trigger] ids[i] == y;
        assert(more[i] == y);
    }
    if x == y {
        assert(more[ids.len() as int] == y);
    }
    if member(more, y) {
        let i = choose|i: int| 0 <= i < more.len() && #[trigger] more[i] == y;
        if i < ids.len() {
            assert(ids[i] == y);
        }
    }
}

/// Before anything is known, nothing is counted but unknown cells.
pub proof fn lemma_count_fresh(ids: Seq<usize>, st: Seq<CellState>)
    requires
        below(ids, st.len()),
        forall|x: int| 0 <= x < st.len() ==> #[trigger] st[x] == CellState::Unknown,
    ensures
        count_in(ids, st, CellState::Unknown) == ids.len(),
        count_in(ids, st, CellState::Light) == 0,
        count_in(ids, st, CellState::Blocked) == 0,
    decreases ids.len(),
{
    if ids.len() > 0 {
        let front = ids.drop_last();
        assert(below(front, st.len())) by {
            assert forall|i: int| 0 <= i < front.len() implies (#[trigger] front[i]) < st.len() by {
                assert(front[i] == ids[i]);
            }
        }
        lemma_count_fresh(front, st);
        assert(ids[ids.len() - 1] < st.len());
    }
}

/// Counting over two lists in a row is counting over each.
pub proof fn lemma_count_in_concat(
    a: Seq<usize>,
    b: Seq<usize>,
    st: Seq<CellState>,
    kind: CellState,
)
    ensures
        count_in(a + b, st, kind) == count_in(a, st, kind) + count_in(b, st, kind),
    decreases b.len(),
{
    if b.len() == 0 {
        assert(a + b =~= a);
    } else {
        assert((a + b).drop_last() =~= a + b.drop_last());
        assert((a + b).last() == b.last());
        lemma_count_in_concat(a, b.drop_last(), st, kind);
    }
}

/// The states `b` know at least what the states `a` know: a cell keeps
/// the state it has once it is not unknown.
pub open spec fn refines(a: Seq<CellState>, b: Seq<CellState>) -> bool {
    &&& a.len() == b.len()
    &&& forall|x: int| 0 <= x < a.len() ==> (#[trigger] b[x]) == a[x] || a[x] == CellState::Unknown
}

/// Knowing more of what knows more is knowing more.
pub proof fn lemma_refines_chain(a: Seq<CellState>, b: Seq<CellState>, c: Seq<CellState>)
    requires
        refines(a, b),
        refines(b, c),
    ensures
        refines(a, c),
{
    assert forall|x: int| 0 <= x < a.len() implies (#[trigger] c[x]) == a[x] || a[x]
        == CellState::Unknown by {
        assert(b[x] == a[x] || a[x] == CellState::Unknown);
    }
}

/// What two lists in a row hold.
pub proof fn lemma_member_concat(a: Seq<usize>, b: Seq<usize>, x: int)
    ensures
        member(a + b, x) <==> (member(a, x) || member(b, x)),
{
    if member(a, x) {
        let i = choose|i: int| 0 <= i < a.len() && #[trigger] a[i] == x;
        assert((a + b)[i] == x);
    }
    if member(b, x) {
        let i = choose|i: int| 0 <= i < b.len() && #[trigger] b[i] == x;
        assert((a + b)[a.len() + i] == x);
    }
    if member(a + b, x) {
        let i = choose|i: int| 0 <= i < (a + b).len() && #[trigger] (a + b)[i] == x;
        if i < a.len() {
            assert(a[i] == x);
        } else {
            assert(b[i - a.len()] == x);
        }
    }
}

} // verus!
