//! The document in its flat, in-memory form: two arenas of entities keyed by
//! opaque handles, and an ordered list of root workspaces. A handle is a slot
//! index; a deleted entity leaves an empty slot behind, so a handle is never
//! reused within one session. Handles are process-local and never persisted.

use vstd::prelude::*;

use crate::store::{Store, Timestamp, Todo, TodoV, Workspace, WorkspaceV};
use crate::store::{todo_models, workspace_models};

verus! {

/// A todo as stored in the arena: its content, and the handles of its
/// subtasks, in order.
#[derive(Clone)]
pub struct TodoItem {
    pub id: String,
    pub description: String,
    pub due: Option<Timestamp>,
    pub effort: usize,
    pub urgency: usize,
    pub pending: bool,
    pub children: Vec<usize>,
}

/// A workspace as stored in the arena: its content, the handles of its child
/// workspaces, and the handles of its direct todos, in order.
#[derive(Clone)]
pub struct WorkspaceItem {
    pub id: String,
    pub description: String,
    pub todos: Vec<usize>,
    pub children: Vec<usize>,
}

/// The whole document in arena form.
pub struct SlotMapStore {
    pub workspaces_map: Vec<Option<WorkspaceItem>>,
    pub todos_map: Vec<Option<TodoItem>>,
    pub root_workspaces: Vec<usize>,
}

/// Whether `k` is the handle of a live todo slot.
pub open spec fn todo_live(tm: Seq<Option<TodoItem>>, k: int) -> bool {
    0 <= k < tm.len() && tm[k] is Some
}

/// Whether `k` is the handle of a live workspace slot.
pub open spec fn ws_live(wm: Seq<Option<WorkspaceItem>>, k: int) -> bool {
    0 <= k < wm.len() && wm[k] is Some
}

/// The todo in slot `k`.
pub open spec fn todo_at(tm: Seq<Option<TodoItem>>, k: int) -> TodoItem {
    tm[k]->Some_0
}

/// The workspace in slot `k`.
pub open spec fn ws_at(wm: Seq<Option<WorkspaceItem>>, k: int) -> WorkspaceItem {
    wm[k]->Some_0
}

/// Whether the todo subtree under `k` consists of live slots and has height
/// below `fuel`. A store whose live slots all satisfy this for one fuel has
/// an acyclic forest: every child link strictly lowers the bound.
pub open spec fn todo_bounded(tm: Seq<Option<TodoItem>>, k: int, fuel: nat) -> bool
    decreases fuel,
{
    &&& fuel > 0
    &&& todo_live(tm, k)
    &&& forall|i: int|
        0 <= i < todo_at(tm, k).children@.len() ==> todo_bounded(
            tm,
            #[trigger] todo_at(tm, k).children@[i] as int,
            (fuel - 1) as nat,
        )
}

/// Whether the workspace subtree under `k` consists of live slots and has
/// height below `fuel`; the todos hanging off each workspace are covered by
/// `todo_bounded` separately.
pub open spec fn ws_bounded(wm: Seq<Option<WorkspaceItem>>, k: int, fuel: nat) -> bool
    decreases fuel,
{
    &&& fuel > 0
    &&& ws_live(wm, k)
    &&& forall|i: int|
        0 <= i < ws_at(wm, k).children@.len() ==> ws_bounded(
            wm,
            #[trigger] ws_at(wm, k).children@[i] as int,
            (fuel - 1) as nat,
        )
}

/// The model of an empty todo; what `todo_v` maps dead slots to.
pub open spec fn blank_todo_v() -> TodoV {
    TodoV {
        id: Seq::empty(),
        description: Seq::empty(),
        due: None,
        effort: 0,
        urgency: 0,
        pending: false,
        children: Seq::empty(),
    }
}

/// The model of an empty workspace; what `ws_v` maps dead slots to.
pub open spec fn blank_ws_v() -> WorkspaceV {
    WorkspaceV {
        id: Seq::empty(),
        description: Seq::empty(),
        children: Seq::empty(),
        todos: Seq::empty(),
    }
}

/// The model of the todo subtree under `k`, unwound up to `fuel` levels.
/// Under `todo_bounded(tm, k, fuel)` this is the exact nested value.
pub open spec fn todo_v(tm: Seq<Option<TodoItem>>, k: int, fuel: nat) -> TodoV
    decreases fuel,
{
    if fuel == 0 || !todo_live(tm, k) {
        blank_todo_v()
    } else {
        let t = todo_at(tm, k);
        TodoV {
            id: t.id@,
            description: t.description@,
            due: t.due,
            effort: t.effort as int,
            urgency: t.urgency as int,
            pending: t.pending,
            children: Seq::new(
                t.children@.len(),
                |i: int| todo_v(tm, t.children@[i] as int, (fuel - 1) as nat),
            ),
        }
    }
}

/// The models of a list of todo handles, in order.
pub open spec fn todo_list_v(tm: Seq<Option<TodoItem>>, ks: Seq<usize>, fuel: nat) -> Seq<TodoV> {
    Seq::new(ks.len(), |i: int| todo_v(tm, ks[i] as int, fuel))
}

/// The model of the workspace subtree under `k`, unwound up to `fuel` levels
/// of child workspaces; `tfuel` bounds the todo trees hanging off it.
pub open spec fn ws_v(
    wm: Seq<Option<WorkspaceItem>>,
    tm: Seq<Option<TodoItem>>,
    k: int,
    fuel: nat,
    tfuel: nat,
) -> WorkspaceV
    decreases fuel,
{
    if fuel == 0 || !ws_live(wm, k) {
        blank_ws_v()
    } else {
        let w = ws_at(wm, k);
        WorkspaceV {
            id: w.id@,
            description: w.description@,
            children: Seq::new(
                w.children@.len(),
                |i: int| ws_v(wm, tm, w.children@[i] as int, (fuel - 1) as nat, tfuel),
            ),
            todos: todo_list_v(tm, w.todos@, tfuel),
        }
    }
}

/// The models of a list of workspace handles, in order.
pub open spec fn ws_list_v(
    wm: Seq<Option<WorkspaceItem>>,
    tm: Seq<Option<TodoItem>>,
    ks: Seq<usize>,
    fuel: nat,
    tfuel: nat,
) -> Seq<WorkspaceV> {
    Seq::new(ks.len(), |i: int| ws_v(wm, tm, ks[i] as int, fuel, tfuel))
}

/// Whether every todo handle hanging off a live workspace heads a bounded
/// todo tree.
pub open spec fn ws_todos_bounded(
    wm: Seq<Option<WorkspaceItem>>,
    tm: Seq<Option<TodoItem>>,
    tfuel: nat,
) -> bool {
    forall|k: int, i: int|
        ws_live(wm, k) && 0 <= i < ws_at(wm, k).todos@.len() ==> todo_bounded(
            tm,
            #[trigger] ws_at(wm, k).todos@[i] as int,
            tfuel,
        )
}

/// Whether every handle of `ks` lies in `[a, b)`.
pub open spec fn handles_in(ks: Seq<usize>, a: int, b: int) -> bool {
    forall|i: int| 0 <= i < ks.len() ==> a <= #[trigger] ks[i] < b
}

/// The slots `[a, b)` of the todo arena hold a self-contained forest: all
/// live, every child link pointing down within the range, and no slot owned
/// twice.
pub open spec fn todo_region_wf(tm: Seq<Option<TodoItem>>, a: int, b: int) -> bool {
    &&& forall|j: int| a <= j < b ==> todo_live(tm, j)
    &&& forall|j: int| a <= j < b ==> handles_in(#[trigger] todo_at(tm, j).children@, a, j)
    &&& forall|j1: int, i1: int, j2: int, i2: int|
        a <= j1 < b && a <= j2 < b && 0 <= i1 < todo_at(tm, j1).children@.len() && 0 <= i2
            < todo_at(tm, j2).children@.len() && (j1 != j2 || i1 != i2) ==> #[trigger] todo_at(
            tm,
            j1,
        ).children@[i1] != #[trigger] todo_at(tm, j2).children@[i2]
}

/// Whether no live todo of `[a, b)` holds `x` in its child list.
pub open spec fn todo_unreferenced_in(tm: Seq<Option<TodoItem>>, x: usize, a: int, b: int) -> bool {
    forall|j: int, i: int|
        a <= j < b && 0 <= i < todo_at(tm, j).children@.len() ==> #[trigger] todo_at(
            tm,
            j,
        ).children@[i] != x
}

/// The slots `[a, b)` of the workspace arena hold a self-contained forest.
pub open spec fn ws_region_wf(wm: Seq<Option<WorkspaceItem>>, a: int, b: int) -> bool {
    &&& forall|j: int| a <= j < b ==> ws_live(wm, j)
    &&& forall|j: int| a <= j < b ==> handles_in(#[trigger] ws_at(wm, j).children@, a, j)
    &&& forall|j1: int, i1: int, j2: int, i2: int|
        a <= j1 < b && a <= j2 < b && 0 <= i1 < ws_at(wm, j1).children@.len() && 0 <= i2 < ws_at(
            wm,
            j2,
        ).children@.len() && (j1 != j2 || i1 != i2) ==> #[trigger] ws_at(wm, j1).children@[i1]
            != #[trigger] ws_at(wm, j2).children@[i2]
}

/// Whether no live workspace of `[a, b)` holds `x` in its child list.
pub open spec fn ws_unreferenced_in(wm: Seq<Option<WorkspaceItem>>, x: usize, a: int, b: int) -> bool {
    forall|j: int, i: int|
        a <= j < b && 0 <= i < ws_at(wm, j).children@.len() ==> #[trigger] ws_at(
            wm,
            j,
        ).children@[i] != x
}

/// Whether the todos lists of the live workspaces of `[a, b)` stay within
/// `[ta, tb)` of the todo arena, own no todo twice, and only own todos that
/// no todo of `[ta, tb)` owns as a subtask.
pub open spec fn ws_region_todos_wf(
    wm: Seq<Option<WorkspaceItem>>,
    tm: Seq<Option<TodoItem>>,
    a: int,
    b: int,
    ta: int,
    tb: int,
) -> bool {
    &&& forall|j: int| a <= j < b ==> handles_in(#[trigger] ws_at(wm, j).todos@, ta, tb)
    &&& forall|j1: int, i1: int, j2: int, i2: int|
        a <= j1 < b && a <= j2 < b && 0 <= i1 < ws_at(wm, j1).todos@.len() && 0 <= i2 < ws_at(
            wm,
            j2,
        ).todos@.len() && (j1 != j2 || i1 != i2) ==> #[trigger] ws_at(wm, j1).todos@[i1]
            != #[trigger] ws_at(wm, j2).todos@[i2]
    &&& forall|j: int, i: int|
        a <= j < b && 0 <= i < ws_at(wm, j).todos@.len() ==> todo_unreferenced_in(
            tm,
            #[trigger] ws_at(wm, j).todos@[i],
            ta,
            tb,
        )
}

/// Region predicates read only their own slots: equal slots, same verdict.
pub proof fn lemma_todo_region_stable(
    tm1: Seq<Option<TodoItem>>,
    tm2: Seq<Option<TodoItem>>,
    a: int,
    b: int,
)
    requires
        todo_region_wf(tm1, a, b),
        0 <= a,
        b <= tm2.len(),
        forall|j: int| a <= j < b ==> tm2[j] == #[trigger] tm1[j],
    ensures
        todo_region_wf(tm2, a, b),
{
    assert forall|j: int| a <= j < b implies todo_live(tm2, j) && todo_at(tm2, j) == todo_at(
        tm1,
        j,
    ) by {
        assert(todo_live(tm1, j));
        assert(tm2[j] == tm1[j]);
    }
}

/// As `lemma_todo_region_stable`, for the workspace arena.
pub proof fn lemma_ws_region_stable(
    wm1: Seq<Option<WorkspaceItem>>,
    wm2: Seq<Option<WorkspaceItem>>,
    a: int,
    b: int,
)
    requires
        ws_region_wf(wm1, a, b),
        0 <= a,
        b <= wm2.len(),
        forall|j: int| a <= j < b ==> wm2[j] == #[trigger] wm1[j],
    ensures
        ws_region_wf(wm2, a, b),
{
    assert forall|j: int| a <= j < b implies ws_live(wm2, j) && ws_at(wm2, j) == ws_at(
        wm1,
        j,
    ) by {
        assert(ws_live(wm1, j));
        assert(wm2[j] == wm1[j]);
    }
}

/// As `lemma_todo_region_stable`, for the ownership of todos by workspaces.
pub proof fn lemma_ws_region_todos_stable(
    wm1: Seq<Option<WorkspaceItem>>,
    wm2: Seq<Option<WorkspaceItem>>,
    tm1: Seq<Option<TodoItem>>,
    tm2: Seq<Option<TodoItem>>,
    a: int,
    b: int,
    ta: int,
    tb: int,
)
    requires
        ws_region_todos_wf(wm1, tm1, a, b, ta, tb),
        0 <= a,
        b <= wm1.len(),
        b <= wm2.len(),
        0 <= ta,
        tb <= tm1.len(),
        tb <= tm2.len(),
        forall|j: int| a <= j < b ==> wm2[j] == #[trigger] wm1[j],
        forall|j: int| ta <= j < tb ==> tm2[j] == #[trigger] tm1[j],
    ensures
        ws_region_todos_wf(wm2, tm2, a, b, ta, tb),
{
    assert forall|j: int| a <= j < b implies ws_live(wm2, j) == ws_live(wm1, j) && ws_at(wm2, j)
        == ws_at(wm1, j) by {
        assert(wm2[j] == wm1[j]);
    }
    assert forall|j: int| ta <= j < tb implies todo_live(tm2, j) == todo_live(tm1, j) && todo_at(
        tm2,
        j,
    ) == todo_at(tm1, j) by {
        assert(tm2[j] == tm1[j]);
    }
    assert forall|j: int, i: int|
        a <= j < b && 0 <= i < ws_at(wm2, j).todos@.len() implies todo_unreferenced_in(
            tm2,
            #[trigger] ws_at(wm2, j).todos@[i],
            ta,
            tb,
        ) by {
        assert(todo_unreferenced_in(tm1, ws_at(wm1, j).todos@[i], ta, tb));
    }
}

/// Two adjacent self-contained regions make one.
pub proof fn lemma_todo_region_compose(tm: Seq<Option<TodoItem>>, a: int, m: int, b: int)
    requires
        a <= m <= b,
        todo_region_wf(tm, a, m),
        todo_region_wf(tm, m, b),
    ensures
        todo_region_wf(tm, a, b),
{
    assert forall|j: int| a <= j < b implies handles_in(
        #[trigger] todo_at(tm, j).children@,
        a,
        j,
    ) by {
        if j < m {
            assert(handles_in(todo_at(tm, j).children@, a, j));
        } else {
            assert(handles_in(todo_at(tm, j).children@, m, j));
            assert forall|i: int|
                0 <= i < todo_at(tm, j).children@.len() implies a <= #[trigger] todo_at(
                    tm,
                    j,
                ).children@[i] < j by {}
        }
    }
    assert forall|j1: int, i1: int, j2: int, i2: int|
        a <= j1 < b && a <= j2 < b && 0 <= i1 < todo_at(tm, j1).children@.len() && 0 <= i2
            < todo_at(tm, j2).children@.len() && (j1 != j2 || i1 != i2) implies #[trigger] todo_at(
            tm,
            j1,
        ).children@[i1] != #[trigger] todo_at(tm, j2).children@[i2] by {
        if j1 < m && j2 >= m {
            assert(todo_at(tm, j1).children@[i1] < m);
            assert(todo_at(tm, j2).children@[i2] >= m);
        } else if j1 >= m && j2 < m {
            assert(todo_at(tm, j1).children@[i1] >= m);
            assert(todo_at(tm, j2).children@[i2] < m);
        }
    }
}

/// As `lemma_todo_region_compose`, for the workspace arena.
pub proof fn lemma_ws_region_compose(wm: Seq<Option<WorkspaceItem>>, a: int, m: int, b: int)
    requires
        a <= m <= b,
        ws_region_wf(wm, a, m),
        ws_region_wf(wm, m, b),
    ensures
        ws_region_wf(wm, a, b),
{
    assert forall|j: int| a <= j < b implies handles_in(
        #[trigger] ws_at(wm, j).children@,
        a,
        j,
    ) by {
        if j < m {
            assert(handles_in(ws_at(wm, j).children@, a, j));
        } else {
            assert(handles_in(ws_at(wm, j).children@, m, j));
            assert forall|i: int|
                0 <= i < ws_at(wm, j).children@.len() implies a <= #[trigger] ws_at(
                    wm,
                    j,
                ).children@[i] < j by {}
        }
    }
    assert forall|j1: int, i1: int, j2: int, i2: int|
        a <= j1 < b && a <= j2 < b && 0 <= i1 < ws_at(wm, j1).children@.len() && 0 <= i2 < ws_at(
            wm,
            j2,
        ).children@.len() && (j1 != j2 || i1 != i2) implies #[trigger] ws_at(
            wm,
            j1,
        ).children@[i1] != #[trigger] ws_at(wm, j2).children@[i2] by {
        if j1 < m && j2 >= m {
            assert(ws_at(wm, j1).children@[i1] < m);
            assert(ws_at(wm, j2).children@[i2] >= m);
        } else if j1 >= m && j2 < m {
            assert(ws_at(wm, j1).children@[i1] >= m);
            assert(ws_at(wm, j2).children@[i2] < m);
        }
    }
}

/// Two adjacent regions of todo ownership by workspaces make one.
pub proof fn lemma_ws_region_todos_compose(
    wm: Seq<Option<WorkspaceItem>>,
    tm: Seq<Option<TodoItem>>,
    a: int,
    m: int,
    b: int,
    ta: int,
    tmid: int,
    tb: int,
)
    requires
        a <= m <= b,
        ta <= tmid <= tb,
        ws_region_todos_wf(wm, tm, a, m, ta, tmid),
        ws_region_todos_wf(wm, tm, m, b, tmid, tb),
        todo_region_wf(tm, ta, tmid),
        todo_region_wf(tm, tmid, tb),
    ensures
        ws_region_todos_wf(wm, tm, a, b, ta, tb),
{
    assert forall|j: int| a <= j < b implies handles_in(#[trigger] ws_at(wm, j).todos@, ta, tb) by {
        if j < m {
            assert(handles_in(ws_at(wm, j).todos@, ta, tmid));
            assert forall|i: int|
                0 <= i < ws_at(wm, j).todos@.len() implies ta <= #[trigger] ws_at(
                    wm,
                    j,
                ).todos@[i] < tb by {}
        } else {
            assert(handles_in(ws_at(wm, j).todos@, tmid, tb));
            assert forall|i: int|
                0 <= i < ws_at(wm, j).todos@.len() implies ta <= #[trigger] ws_at(
                    wm,
                    j,
                ).todos@[i] < tb by {}
        }
    }
    assert forall|j1: int, i1: int, j2: int, i2: int|
        a <= j1 < b && a <= j2 < b && 0 <= i1 < ws_at(wm, j1).todos@.len() && 0 <= i2 < ws_at(
            wm,
            j2,
        ).todos@.len() && (j1 != j2 || i1 != i2) implies #[trigger] ws_at(wm, j1).todos@[i1]
            != #[trigger] ws_at(wm, j2).todos@[i2] by {
        if j1 < m && j2 >= m {
            assert(ws_at(wm, j1).todos@[i1] < tmid);
            assert(ws_at(wm, j2).todos@[i2] >= tmid);
        } else if j1 >= m && j2 < m {
            assert(ws_at(wm, j1).todos@[i1] >= tmid);
            assert(ws_at(wm, j2).todos@[i2] < tmid);
        }
    }
    assert forall|j: int, i: int|
        a <= j < b && 0 <= i < ws_at(wm, j).todos@.len() implies todo_unreferenced_in(
            tm,
            #[trigger] ws_at(wm, j).todos@[i],
            ta,
            tb,
        ) by {
        let x = ws_at(wm, j).todos@[i];
        if j < m {
            assert(todo_unreferenced_in(tm, x, ta, tmid));
            assert forall|j2: int, i2: int|
                tmid <= j2 < tb && 0 <= i2 < todo_at(tm, j2).children@.len()
                implies #[trigger] todo_at(tm, j2).children@[i2] != x by {
                assert(todo_at(tm, j2).children@[i2] >= tmid);
                assert(x < tmid);
            }
        } else {
            assert(todo_unreferenced_in(tm, x, tmid, tb));
            assert forall|j2: int, i2: int|
                ta <= j2 < tmid && 0 <= i2 < todo_at(tm, j2).children@.len()
                implies #[trigger] todo_at(tm, j2).children@[i2] != x by {
                assert(todo_at(tm, j2).children@[i2] < tmid);
                assert(x >= tmid);
            }
        }
    }
}

/// Growing the todo side of an ownership region with an unowned todo region
/// keeps it well formed.
pub proof fn lemma_ws_region_todos_extend_tm(
    wm: Seq<Option<WorkspaceItem>>,
    tm: Seq<Option<TodoItem>>,
    a: int,
    b: int,
    ta: int,
    tmid: int,
    tb: int,
)
    requires
        ta <= tmid <= tb,
        ws_region_todos_wf(wm, tm, a, b, ta, tmid),
        todo_region_wf(tm, tmid, tb),
    ensures
        ws_region_todos_wf(wm, tm, a, b, ta, tb),
{
    assert forall|j: int| a <= j < b implies handles_in(#[trigger] ws_at(wm, j).todos@, ta, tb) by {
        assert(handles_in(ws_at(wm, j).todos@, ta, tmid));
        assert forall|i: int|
            0 <= i < ws_at(wm, j).todos@.len() implies ta <= #[trigger] ws_at(wm, j).todos@[i]
                < tb by {}
    }
    assert forall|j: int, i: int|
        a <= j < b && 0 <= i < ws_at(wm, j).todos@.len() implies todo_unreferenced_in(
            tm,
            #[trigger] ws_at(wm, j).todos@[i],
            ta,
            tb,
        ) by {
        let x = ws_at(wm, j).todos@[i];
        assert(todo_unreferenced_in(tm, x, ta, tmid));
        assert forall|j2: int, i2: int|
            tmid <= j2 < tb && 0 <= i2 < todo_at(tm, j2).children@.len() implies #[trigger] todo_at(
                tm,
                j2,
            ).children@[i2] != x by {
            assert(todo_at(tm, j2).children@[i2] >= tmid);
            assert(x < tmid);
        }
    }
}

/// Appending a root that owns only unowned handles of a region keeps the
/// grown region self-contained.
pub proof fn lemma_todo_region_push_root(tm: Seq<Option<TodoItem>>, a: int, b: int)
    requires
        todo_region_wf(tm, a, b),
        todo_live(tm, b),
        handles_in(todo_at(tm, b).children@, a, b),
        forall|i1: int, i2: int|
            0 <= i1 < i2 < todo_at(tm, b).children@.len() ==> #[trigger] todo_at(
                tm,
                b,
            ).children@[i1] != #[trigger] todo_at(tm, b).children@[i2],
        forall|i: int|
            0 <= i < todo_at(tm, b).children@.len() ==> todo_unreferenced_in(
                tm,
                #[trigger] todo_at(tm, b).children@[i],
                a,
                b,
            ),
    ensures
        todo_region_wf(tm, a, b + 1),
{
    assert forall|j1: int, i1: int, j2: int, i2: int|
        a <= j1 < b + 1 && a <= j2 < b + 1 && 0 <= i1 < todo_at(tm, j1).children@.len() && 0 <= i2
            < todo_at(tm, j2).children@.len() && (j1 != j2 || i1 != i2) implies #[trigger] todo_at(
            tm,
            j1,
        ).children@[i1] != #[trigger] todo_at(tm, j2).children@[i2] by {
        if j1 == b && j2 < b {
            assert(todo_unreferenced_in(tm, todo_at(tm, b).children@[i1], a, b));
        } else if j2 == b && j1 < b {
            assert(todo_unreferenced_in(tm, todo_at(tm, b).children@[i2], a, b));
        }
    }
}

/// As `lemma_todo_region_push_root`, for the workspace arena.
pub proof fn lemma_ws_region_push_root(wm: Seq<Option<WorkspaceItem>>, a: int, b: int)
    requires
        ws_region_wf(wm, a, b),
        ws_live(wm, b),
        handles_in(ws_at(wm, b).children@, a, b),
        forall|i1: int, i2: int|
            0 <= i1 < i2 < ws_at(wm, b).children@.len() ==> #[trigger] ws_at(wm, b).children@[i1]
                != #[trigger] ws_at(wm, b).children@[i2],
        forall|i: int|
            0 <= i < ws_at(wm, b).children@.len() ==> ws_unreferenced_in(
                wm,
                #[trigger] ws_at(wm, b).children@[i],
                a,
                b,
            ),
    ensures
        ws_region_wf(wm, a, b + 1),
{
    assert forall|j1: int, i1: int, j2: int, i2: int|
        a <= j1 < b + 1 && a <= j2 < b + 1 && 0 <= i1 < ws_at(wm, j1).children@.len() && 0 <= i2
            < ws_at(wm, j2).children@.len() && (j1 != j2 || i1 != i2) implies #[trigger] ws_at(
            wm,
            j1,
        ).children@[i1] != #[trigger] ws_at(wm, j2).children@[i2] by {
        if j1 == b && j2 < b {
            assert(ws_unreferenced_in(wm, ws_at(wm, b).children@[i1], a, b));
        } else if j2 == b && j1 < b {
            assert(ws_unreferenced_in(wm, ws_at(wm, b).children@[i2], a, b));
        }
    }
}

/// A new workspace root may own the todos of `[tmid, tb)` that nobody owns:
/// the grown ownership region stays well formed.
pub proof fn lemma_ws_region_todos_push_root(
    wm: Seq<Option<WorkspaceItem>>,
    tm: Seq<Option<TodoItem>>,
    a: int,
    b: int,
    ta: int,
    tmid: int,
    tb: int,
)
    requires
        ta <= tmid <= tb,
        ws_region_todos_wf(wm, tm, a, b, ta, tmid),
        ws_live(wm, b),
        todo_region_wf(tm, ta, tmid),
        todo_region_wf(tm, tmid, tb),
        handles_in(ws_at(wm, b).todos@, tmid, tb),
        forall|i1: int, i2: int|
            0 <= i1 < i2 < ws_at(wm, b).todos@.len() ==> #[trigger] ws_at(wm, b).todos@[i1]
                != #[trigger] ws_at(wm, b).todos@[i2],
        forall|i: int|
            0 <= i < ws_at(wm, b).todos@.len() ==> todo_unreferenced_in(
                tm,
                #[trigger] ws_at(wm, b).todos@[i],
                ta,
                tb,
            ),
    ensures
        ws_region_todos_wf(wm, tm, a, b + 1, ta, tb),
{
    lemma_ws_region_todos_extend_tm(wm, tm, a, b, ta, tmid, tb);
    assert forall|j: int| a <= j < b + 1 implies handles_in(
        #[trigger] ws_at(wm, j).todos@,
        ta,
        tb,
    ) by {
        if j < b {
            assert(handles_in(ws_at(wm, j).todos@, ta, tb));
        } else {
            assert forall|i: int|
                0 <= i < ws_at(wm, j).todos@.len() implies ta <= #[trigger] ws_at(wm, j).todos@[i]
                    < tb by {}
        }
    }
    assert forall|j1: int, i1: int, j2: int, i2: int|
        a <= j1 < b + 1 && a <= j2 < b + 1 && 0 <= i1 < ws_at(wm, j1).todos@.len() && 0 <= i2
            < ws_at(wm, j2).todos@.len() && (j1 != j2 || i1 != i2) implies #[trigger] ws_at(
            wm,
            j1,
        ).todos@[i1] != #[trigger] ws_at(wm, j2).todos@[i2] by {
        if j1 == b && j2 < b {
            assert(ws_at(wm, j2).todos@[i2] < tmid);
            assert(ws_at(wm, j1).todos@[i1] >= tmid);
        } else if j2 == b && j1 < b {
            assert(ws_at(wm, j1).todos@[i1] < tmid);
            assert(ws_at(wm, j2).todos@[i2] >= tmid);
        }
    }
}

/// Whether two todo arenas agree on liveness and on every live node's child
/// links; contents may differ.
pub open spec fn todo_links_same(tm1: Seq<Option<TodoItem>>, tm2: Seq<Option<TodoItem>>) -> bool {
    &&& tm1.len() == tm2.len()
    &&& forall|j: int| todo_live(tm1, j) == todo_live(tm2, j)
    &&& forall|j: int|
        todo_live(tm1, j) ==> (#[trigger] todo_at(tm2, j)).children@ == todo_at(tm1, j).children@
}

/// Whether two workspace arenas agree on liveness and on every live node's
/// child links; todos and contents may differ.
pub open spec fn ws_children_same(
    wm1: Seq<Option<WorkspaceItem>>,
    wm2: Seq<Option<WorkspaceItem>>,
) -> bool {
    &&& wm1.len() == wm2.len()
    &&& forall|j: int| ws_live(wm1, j) == ws_live(wm2, j)
    &&& forall|j: int|
        ws_live(wm1, j) ==> (#[trigger] ws_at(wm2, j)).children@ == ws_at(wm1, j).children@
}

/// Whether two workspace arenas agree on liveness, child links and todo
/// links; contents may differ.
pub open spec fn ws_links_same(
    wm1: Seq<Option<WorkspaceItem>>,
    wm2: Seq<Option<WorkspaceItem>>,
) -> bool {
    &&& ws_children_same(wm1, wm2)
    &&& forall|j: int|
        ws_live(wm1, j) ==> (#[trigger] ws_at(wm2, j)).todos@ == ws_at(wm1, j).todos@
}

/// Boundedness reads links alone.
pub proof fn lemma_todo_bounded_links(
    tm1: Seq<Option<TodoItem>>,
    tm2: Seq<Option<TodoItem>>,
    k: int,
    f: nat,
)
    requires
        todo_links_same(tm1, tm2),
        todo_bounded(tm1, k, f),
    ensures
        todo_bounded(tm2, k, f),
    decreases f,
{
    let t = todo_at(tm1, k);
    assert forall|i: int| 0 <= i < todo_at(tm2, k).children@.len() implies todo_bounded(
        tm2,
        #[trigger] todo_at(tm2, k).children@[i] as int,
        (f - 1) as nat,
    ) by {
        assert(todo_at(tm2, k).children@[i] == t.children@[i]);
        lemma_todo_bounded_links(tm1, tm2, t.children@[i] as int, (f - 1) as nat);
    }
}

/// Boundedness reads links alone.
pub proof fn lemma_ws_bounded_links(
    wm1: Seq<Option<WorkspaceItem>>,
    wm2: Seq<Option<WorkspaceItem>>,
    k: int,
    f: nat,
)
    requires
        ws_children_same(wm1, wm2),
        ws_bounded(wm1, k, f),
    ensures
        ws_bounded(wm2, k, f),
    decreases f,
{
    let t = ws_at(wm1, k);
    assert forall|i: int| 0 <= i < ws_at(wm2, k).children@.len() implies ws_bounded(
        wm2,
        #[trigger] ws_at(wm2, k).children@[i] as int,
        (f - 1) as nat,
    ) by {
        assert(ws_at(wm2, k).children@[i] == t.children@[i]);
        lemma_ws_bounded_links(wm1, wm2, t.children@[i] as int, (f - 1) as nat);
    }
}

/// A store whose links all match a consistent store's is itself consistent.
pub proof fn lemma_wf_links(s1: SlotMapStore, s2: SlotMapStore)
    requires
        s1.wf(),
        todo_links_same(s1.todos_map@, s2.todos_map@),
        ws_links_same(s1.workspaces_map@, s2.workspaces_map@),
        s2.root_workspaces@ == s1.root_workspaces@,
    ensures
        s2.wf(),
{
    let tm1 = s1.todos_map@;
    let tm2 = s2.todos_map@;
    let wm1 = s1.workspaces_map@;
    let wm2 = s2.workspaces_map@;
    assert forall|k: int| todo_live(tm2, k) implies #[trigger] todo_bounded(
        tm2,
        k,
        s2.tfuel(),
    ) by {
        lemma_todo_bounded_links(tm1, tm2, k, s1.tfuel());
    }
    assert forall|k: int| ws_live(wm2, k) implies #[trigger] ws_bounded(wm2, k, s2.wfuel()) by {
        lemma_ws_bounded_links(wm1, wm2, k, s1.wfuel());
    }
    assert forall|k: int| ws_live(wm2, k) implies forall|i: int|
        0 <= i < ws_at(wm2, k).todos@.len() ==> todo_live(
            tm2,
            #[trigger] ws_at(wm2, k).todos@[i] as int,
        ) by {
        assert(ws_at(wm2, k).todos@ == ws_at(wm1, k).todos@);
        assert forall|i: int| 0 <= i < ws_at(wm2, k).todos@.len() implies todo_live(
            tm2,
            #[trigger] ws_at(wm2, k).todos@[i] as int,
        ) by {
            assert(ws_at(wm1, k).todos@[i] == ws_at(wm2, k).todos@[i]);
            assert(todo_live(tm1, ws_at(wm1, k).todos@[i] as int));
        }
    }
    assert(s2.links_ok());
    assert forall|j1: int, i1: int, j2: int, i2: int|
        todo_live(tm2, j1) && todo_live(tm2, j2) && 0 <= i1 < todo_at(tm2, j1).children@.len()
            && 0 <= i2 < todo_at(tm2, j2).children@.len() && (j1 != j2 || i1 != i2)
        implies #[trigger] todo_at(tm2, j1).children@[i1] != #[trigger] todo_at(
            tm2,
            j2,
        ).children@[i2] by {
        assert(todo_at(tm2, j1).children@ == todo_at(tm1, j1).children@);
        assert(todo_at(tm2, j2).children@ == todo_at(tm1, j2).children@);
        assert(todo_at(tm1, j1).children@[i1] != todo_at(tm1, j2).children@[i2]);
    }
    assert forall|j1: int, i1: int, j2: int, i2: int|
        ws_live(wm2, j1) && ws_live(wm2, j2) && 0 <= i1 < ws_at(wm2, j1).todos@.len() && 0 <= i2
            < ws_at(wm2, j2).todos@.len() && (j1 != j2 || i1 != i2) implies #[trigger] ws_at(
            wm2,
            j1,
        ).todos@[i1] != #[trigger] ws_at(wm2, j2).todos@[i2] by {
        assert(ws_at(wm2, j1).todos@ == ws_at(wm1, j1).todos@);
        assert(ws_at(wm2, j2).todos@ == ws_at(wm1, j2).todos@);
        assert(ws_at(wm1, j1).todos@[i1] != ws_at(wm1, j2).todos@[i2]);
    }
    assert forall|j1: int, i1: int, j2: int, i2: int|
        ws_live(wm2, j1) && todo_live(tm2, j2) && 0 <= i1 < ws_at(wm2, j1).todos@.len() && 0 <= i2
            < todo_at(tm2, j2).children@.len() implies #[trigger] ws_at(wm2, j1).todos@[i1]
            != #[trigger] todo_at(tm2, j2).children@[i2] by {
        assert(ws_at(wm2, j1).todos@ == ws_at(wm1, j1).todos@);
        assert(todo_at(tm2, j2).children@ == todo_at(tm1, j2).children@);
        assert(ws_at(wm1, j1).todos@[i1] != todo_at(tm1, j2).children@[i2]);
    }
    assert(s2.todo_owners_ok());
    assert forall|j1: int, i1: int, j2: int, i2: int|
        ws_live(wm2, j1) && ws_live(wm2, j2) && 0 <= i1 < ws_at(wm2, j1).children@.len() && 0 <= i2
            < ws_at(wm2, j2).children@.len() && (j1 != j2 || i1 != i2) implies #[trigger] ws_at(
            wm2,
            j1,
        ).children@[i1] != #[trigger] ws_at(wm2, j2).children@[i2] by {
        assert(ws_at(wm2, j1).children@ == ws_at(wm1, j1).children@);
        assert(ws_at(wm2, j2).children@ == ws_at(wm1, j2).children@);
        assert(ws_at(wm1, j1).children@[i1] != ws_at(wm1, j2).children@[i2]);
    }
    assert forall|i: int, j: int, i2: int|
        0 <= i < s2.root_workspaces@.len() && ws_live(wm2, j) && 0 <= i2 < ws_at(
            wm2,
            j,
        ).children@.len() implies #[trigger] s2.root_workspaces@[i] != #[trigger] ws_at(
            wm2,
            j,
        ).children@[i2] by {
        assert(ws_at(wm2, j).children@ == ws_at(wm1, j).children@);
        assert(s1.root_workspaces@[i] != ws_at(wm1, j).children@[i2]);
    }
    assert(s2.ws_owners_ok());
}

/// A bounded todo tree keeps its model under any larger fuel.
pub proof fn lemma_todo_v_fuel(tm: Seq<Option<TodoItem>>, k: int, f: nat, g: nat)
    requires
        todo_bounded(tm, k, f),
        f <= g,
    ensures
        todo_bounded(tm, k, g),
        todo_v(tm, k, g) == todo_v(tm, k, f),
    decreases f,
{
    let t = todo_at(tm, k);
    assert forall|i: int| 0 <= i < t.children@.len() implies todo_bounded(
        tm,
        t.children@[i] as int,
        (g - 1) as nat,
    ) && todo_v(tm, t.children@[i] as int, (g - 1) as nat) == todo_v(
        tm,
        t.children@[i] as int,
        (f - 1) as nat,
    ) by {
        lemma_todo_v_fuel(tm, t.children@[i] as int, (f - 1) as nat, (g - 1) as nat);
    }
    assert(todo_v(tm, k, g).children =~= todo_v(tm, k, f).children);
}

/// As `lemma_todo_v_fuel`, for a list of todo handles.
pub proof fn lemma_todo_list_v_fuel(tm: Seq<Option<TodoItem>>, ks: Seq<usize>, f: nat, g: nat)
    requires
        forall|i: int| 0 <= i < ks.len() ==> todo_bounded(tm, #[trigger] ks[i] as int, f),
        f <= g,
    ensures
        forall|i: int| 0 <= i < ks.len() ==> todo_bounded(tm, #[trigger] ks[i] as int, g),
        todo_list_v(tm, ks, g) == todo_list_v(tm, ks, f),
{
    assert forall|i: int| 0 <= i < ks.len() implies todo_bounded(tm, #[trigger] ks[i] as int, g)
        && todo_v(tm, ks[i] as int, g) == todo_v(tm, ks[i] as int, f) by {
        lemma_todo_v_fuel(tm, ks[i] as int, f, g);
    }
    assert(todo_list_v(tm, ks, g) =~= todo_list_v(tm, ks, f));
}

/// A bounded workspace tree keeps its model under any larger fuel.
pub proof fn lemma_ws_v_fuel(
    wm: Seq<Option<WorkspaceItem>>,
    tm: Seq<Option<TodoItem>>,
    k: int,
    f: nat,
    g: nat,
    tfuel: nat,
)
    requires
        ws_bounded(wm, k, f),
        f <= g,
    ensures
        ws_bounded(wm, k, g),
        ws_v(wm, tm, k, g, tfuel) == ws_v(wm, tm, k, f, tfuel),
    decreases f,
{
    let w = ws_at(wm, k);
    assert forall|i: int| 0 <= i < w.children@.len() implies ws_bounded(
        wm,
        w.children@[i] as int,
        (g - 1) as nat,
    ) && ws_v(wm, tm, w.children@[i] as int, (g - 1) as nat, tfuel) == ws_v(
        wm,
        tm,
        w.children@[i] as int,
        (f - 1) as nat,
        tfuel,
    ) by {
        lemma_ws_v_fuel(wm, tm, w.children@[i] as int, (f - 1) as nat, (g - 1) as nat, tfuel);
    }
    assert(ws_v(wm, tm, k, g, tfuel).children =~= ws_v(wm, tm, k, f, tfuel).children);
}

/// A workspace tree whose todo trees are bounded keeps its model when the
/// todo fuel grows.
pub proof fn lemma_ws_v_tfuel(
    wm: Seq<Option<WorkspaceItem>>,
    tm: Seq<Option<TodoItem>>,
    k: int,
    fuel: nat,
    tf: nat,
    tg: nat,
)
    requires
        ws_todos_bounded(wm, tm, tf),
        tf <= tg,
    ensures
        ws_v(wm, tm, k, fuel, tg) == ws_v(wm, tm, k, fuel, tf),
    decreases fuel,
{
    if fuel > 0 && ws_live(wm, k) {
        let w = ws_at(wm, k);
        assert forall|i: int| 0 <= i < w.children@.len() implies ws_v(
            wm,
            tm,
            w.children@[i] as int,
            (fuel - 1) as nat,
            tg,
        ) == ws_v(wm, tm, w.children@[i] as int, (fuel - 1) as nat, tf) by {
            lemma_ws_v_tfuel(wm, tm, w.children@[i] as int, (fuel - 1) as nat, tf, tg);
        }
        lemma_todo_list_v_fuel(tm, w.todos@, tf, tg);
        assert(ws_v(wm, tm, k, fuel, tg).children =~= ws_v(wm, tm, k, fuel, tf).children);
        assert(ws_v(wm, tm, k, fuel, tg) == ws_v(wm, tm, k, fuel, tf));
    }
}

/// Whether `b` holds the same slots as `a`, with new slots appended after.
pub open spec fn arena_extends<T>(a: Seq<Option<T>>, b: Seq<Option<T>>) -> bool {
    a.len() <= b.len() && forall|i: int| 0 <= i < a.len() ==> a[i] == #[trigger] b[i]
}

/// A bounded todo tree keeps its model when the arena is only extended.
pub proof fn lemma_todo_v_extend(tm1: Seq<Option<TodoItem>>, tm2: Seq<Option<TodoItem>>, k: int, f: nat)
    requires
        todo_bounded(tm1, k, f),
        arena_extends(tm1, tm2),
    ensures
        todo_bounded(tm2, k, f),
        todo_v(tm2, k, f) == todo_v(tm1, k, f),
    decreases f,
{
    let t = todo_at(tm1, k);
    assert forall|i: int| 0 <= i < t.children@.len() implies todo_bounded(
        tm2,
        t.children@[i] as int,
        (f - 1) as nat,
    ) && todo_v(tm2, t.children@[i] as int, (f - 1) as nat) == todo_v(
        tm1,
        t.children@[i] as int,
        (f - 1) as nat,
    ) by {
        lemma_todo_v_extend(tm1, tm2, t.children@[i] as int, (f - 1) as nat);
    }
    assert(todo_v(tm2, k, f).children =~= todo_v(tm1, k, f).children);
}

/// As `lemma_todo_v_extend`, for a list of todo handles.
pub proof fn lemma_todo_list_v_extend(
    tm1: Seq<Option<TodoItem>>,
    tm2: Seq<Option<TodoItem>>,
    ks: Seq<usize>,
    f: nat,
)
    requires
        forall|i: int| 0 <= i < ks.len() ==> todo_bounded(tm1, #[trigger] ks[i] as int, f),
        arena_extends(tm1, tm2),
    ensures
        forall|i: int| 0 <= i < ks.len() ==> todo_bounded(tm2, #[trigger] ks[i] as int, f),
        todo_list_v(tm2, ks, f) == todo_list_v(tm1, ks, f),
{
    assert forall|i: int| 0 <= i < ks.len() implies todo_bounded(tm2, #[trigger] ks[i] as int, f)
        && todo_v(tm2, ks[i] as int, f) == todo_v(tm1, ks[i] as int, f) by {
        lemma_todo_v_extend(tm1, tm2, ks[i] as int, f);
    }
    assert(todo_list_v(tm2, ks, f) =~= todo_list_v(tm1, ks, f));
}

/// A bounded workspace tree keeps its model when both arenas are only
/// extended.
pub proof fn lemma_ws_v_extend(
    wm1: Seq<Option<WorkspaceItem>>,
    wm2: Seq<Option<WorkspaceItem>>,
    tm1: Seq<Option<TodoItem>>,
    tm2: Seq<Option<TodoItem>>,
    k: int,
    f: nat,
    tfuel: nat,
)
    requires
        ws_bounded(wm1, k, f),
        ws_todos_bounded(wm1, tm1, tfuel),
        arena_extends(wm1, wm2),
        arena_extends(tm1, tm2),
    ensures
        ws_bounded(wm2, k, f),
        ws_v(wm2, tm2, k, f, tfuel) == ws_v(wm1, tm1, k, f, tfuel),
    decreases f,
{
    let w = ws_at(wm1, k);
    assert forall|i: int| 0 <= i < w.children@.len() implies ws_bounded(
        wm2,
        w.children@[i] as int,
        (f - 1) as nat,
    ) && ws_v(wm2, tm2, w.children@[i] as int, (f - 1) as nat, tfuel) == ws_v(
        wm1,
        tm1,
        w.children@[i] as int,
        (f - 1) as nat,
        tfuel,
    ) by {
        lemma_ws_v_extend(wm1, wm2, tm1, tm2, w.children@[i] as int, (f - 1) as nat, tfuel);
    }
    lemma_todo_list_v_extend(tm1, tm2, w.todos@, tfuel);
    assert(ws_v(wm2, tm2, k, f, tfuel).children =~= ws_v(wm1, tm1, k, f, tfuel).children);
    assert(ws_v(wm2, tm2, k, f, tfuel) == ws_v(wm1, tm1, k, f, tfuel));
}

impl SlotMapStore {
    /// Copy one nested todo into the todo arena, subtasks first; the new
    /// subtree occupies exactly the slots appended, its root last.
    fn add_todo(todos_map: &mut Vec<Option<TodoItem>>, t: &Todo) -> (k: usize)
        ensures
            arena_extends(old(todos_map)@, final(todos_map)@),
            final(todos_map)@.len() > old(todos_map)@.len(),
            k as int == final(todos_map)@.len() - 1,
            todo_bounded(
                final(todos_map)@,
                k as int,
                (final(todos_map)@.len() - old(todos_map)@.len()) as nat,
            ),
            todo_v(
                final(todos_map)@,
                k as int,
                (final(todos_map)@.len() - old(todos_map)@.len()) as nat,
            ) == t.model(),
            forall|j: int|
                old(todos_map)@.len() <= j < final(todos_map)@.len() ==> #[trigger] todo_bounded(
                    final(todos_map)@,
                    j,
                    (final(todos_map)@.len() + 1) as nat,
                ),
            todo_region_wf(
                final(todos_map)@,
                old(todos_map)@.len() as int,
                final(todos_map)@.len() as int,
            ),
        decreases *t,
    {
        let ghost tm0 = todos_map@;
        let mut children: Vec<usize> = Vec::new();
        let mut i: usize = 0;
        while i < t.children.len()
            invariant
                i <= t.children@.len(),
                children@.len() == i,
                arena_extends(tm0, todos_map@),
                todo_region_wf(todos_map@, tm0.len() as int, todos_map@.len() as int),
                forall|j: int|
                    tm0.len() <= j < todos_map@.len() ==> #[trigger] todo_bounded(
                        todos_map@,
                        j,
                        (todos_map@.len() + 1) as nat,
                    ),
                forall|j: int| 0 <= j < i ==> tm0.len() <= #[trigger] children@[j] < todos_map@.len(),
                forall|j1: int, j2: int|
                    0 <= j1 < j2 < i ==> #[trigger] children@[j1] < #[trigger] children@[j2],
                forall|j: int|
                    0 <= j < i ==> todo_unreferenced_in(
                        todos_map@,
                        #[trigger] children@[j],
                        tm0.len() as int,
                        todos_map@.len() as int,
                    ),
                forall|j: int|
                    0 <= j < i ==> todo_bounded(
                        todos_map@,
                        #[trigger] children@[j] as int,
                        (todos_map@.len() - tm0.len()) as nat,
                    ),
                forall|j: int|
                    0 <= j < i ==> todo_v(
                        todos_map@,
                        #[trigger] children@[j] as int,
                        (todos_map@.len() - tm0.len()) as nat,
                    ) == t.children@[j].model(),
            decreases t.children@.len() - i,
        {
            let ghost tm_pre = todos_map@;
            proof {
                assert(decreases_to!(*t => t.children));
                assert(decreases_to!(t.children => t.children@));
                assert(decreases_to!(t.children@ => t.children@[i as int]));
            }
            let ck = Self::add_todo(todos_map, &t.children[i]);
            proof {
                let tm = todos_map@;
                let fpre = (tm_pre.len() - tm0.len()) as nat;
                let fcur = (tm.len() - tm0.len()) as nat;
                assert forall|j: int| tm0.len() <= j < tm_pre.len() implies todo_at(tm, j)
                    == todo_at(tm_pre, j) && todo_live(tm, j) == todo_live(tm_pre, j) by {
                    assert(tm[j] == tm_pre[j]);
                }
                assert forall|j: int| 0 <= j < i implies todo_bounded(
                    todos_map@,
                    #[trigger] children@[j] as int,
                    fcur,
                ) && todo_v(todos_map@, children@[j] as int, fcur) == t.children@[j].model() by {
                    lemma_todo_v_extend(tm_pre, tm, children@[j] as int, fpre);
                    lemma_todo_v_fuel(tm, children@[j] as int, fpre, fcur);
                }
                lemma_todo_v_fuel(tm, ck as int, (tm.len() - tm_pre.len()) as nat, fcur);
                assert forall|j: int| tm0.len() <= j < tm.len() implies #[trigger] todo_bounded(
                    tm,
                    j,
                    (tm.len() + 1) as nat,
                ) by {
                    if j < tm_pre.len() {
                        lemma_todo_v_extend(tm_pre, tm, j, (tm_pre.len() + 1) as nat);
                        lemma_todo_v_fuel(tm, j, (tm_pre.len() + 1) as nat, (tm.len() + 1) as nat);
                    }
                }
                assert(todo_region_wf(tm, tm0.len() as int, tm.len() as int));
            }
            children.push(ck);
            i += 1;
        }
        let item = TodoItem {
            id: t.id.clone(),
            description: t.description.clone(),
            due: t.due,
            effort: t.effort,
            urgency: t.urgency,
            pending: t.pending,
            children,
        };
        let ghost tm1 = todos_map@;
        let ghost ck = item.children@;
        let k = todos_map.len();
        todos_map.push(Some(item));
        proof {
            let tm = todos_map@;
            let fsub = (tm1.len() - tm0.len()) as nat;
            let fall = (tm.len() - tm0.len()) as nat;
            assert(arena_extends(tm1, tm));
            assert forall|j: int| tm0.len() <= j < tm1.len() implies todo_at(tm, j) == todo_at(
                tm1,
                j,
            ) && todo_live(tm, j) == todo_live(tm1, j) by {
                assert(tm[j] == tm1[j]);
            }
            assert(todo_at(tm, k as int) == item);
            assert forall|j: int| 0 <= j < ck.len() implies todo_bounded(
                tm,
                #[trigger] ck[j] as int,
                fsub,
            ) && todo_v(tm, ck[j] as int, fsub) == t.children@[j].model() by {
                lemma_todo_v_extend(tm1, tm, ck[j] as int, fsub);
            }
            crate::store::lemma_todo_models(t.children@);
            assert(todo_bounded(tm, k as int, fall));
            assert(todo_v(tm, k as int, fall).children =~= t.model().children);
            assert(todo_v(tm, k as int, fall) == t.model());
            assert forall|j: int| tm0.len() <= j < tm.len() implies #[trigger] todo_bounded(
                tm,
                j,
                (tm.len() + 1) as nat,
            ) by {
                if j < tm1.len() {
                    lemma_todo_v_extend(tm1, tm, j, (tm1.len() + 1) as nat);
                    lemma_todo_v_fuel(tm, j, (tm1.len() + 1) as nat, (tm.len() + 1) as nat);
                } else {
                    lemma_todo_v_fuel(tm, j, fall, (tm.len() + 1) as nat);
                }
            }
            assert(todo_region_wf(tm, tm0.len() as int, tm.len() as int));
        }
        k
    }

    /// Copy one nested workspace into the arenas: child workspaces first,
    /// then its direct todos; the new workspace subtree occupies exactly the
    /// workspace slots appended, its root last.
    fn add_workspace(
        workspace_map: &mut Vec<Option<WorkspaceItem>>,
        todos_map: &mut Vec<Option<TodoItem>>,
        w: &Workspace,
    ) -> (k: usize)
        requires
            ws_todos_bounded(old(workspace_map)@, old(todos_map)@, (old(todos_map)@.len() + 1) as nat),
        ensures
            arena_extends(old(workspace_map)@, final(workspace_map)@),
            arena_extends(old(todos_map)@, final(todos_map)@),
            final(workspace_map)@.len() > old(workspace_map)@.len(),
            k as int == final(workspace_map)@.len() - 1,
            ws_bounded(
                final(workspace_map)@,
                k as int,
                (final(workspace_map)@.len() - old(workspace_map)@.len()) as nat,
            ),
            ws_v(
                final(workspace_map)@,
                final(todos_map)@,
                k as int,
                (final(workspace_map)@.len() - old(workspace_map)@.len()) as nat,
                (final(todos_map)@.len() + 1) as nat,
            ) == w.model(),
            forall|j: int|
                old(workspace_map)@.len() <= j < final(workspace_map)@.len()
                    ==> #[trigger] ws_bounded(
                    final(workspace_map)@,
                    j,
                    (final(workspace_map)@.len() + 1) as nat,
                ),
            forall|j: int|
                old(todos_map)@.len() <= j < final(todos_map)@.len() ==> #[trigger] todo_bounded(
                    final(todos_map)@,
                    j,
                    (final(todos_map)@.len() + 1) as nat,
                ),
            ws_region_wf(
                final(workspace_map)@,
                old(workspace_map)@.len() as int,
                final(workspace_map)@.len() as int,
            ),
            todo_region_wf(
                final(todos_map)@,
                old(todos_map)@.len() as int,
                final(todos_map)@.len() as int,
            ),
            ws_region_todos_wf(
                final(workspace_map)@,
                final(todos_map)@,
                old(workspace_map)@.len() as int,
                final(workspace_map)@.len() as int,
                old(todos_map)@.len() as int,
                final(todos_map)@.len() as int,
            ),
            ws_todos_bounded(
                final(workspace_map)@,
                final(todos_map)@,
                (final(todos_map)@.len() + 1) as nat,
            ),
        decreases *w,
    {
        let ghost wm0 = workspace_map@;
        let ghost tm0 = todos_map@;
        let mut children: Vec<usize> = Vec::new();
        let mut i: usize = 0;
        while i < w.children.len()
            invariant
                i <= w.children@.len(),
                children@.len() == i,
                arena_extends(wm0, workspace_map@),
                arena_extends(tm0, todos_map@),
                ws_todos_bounded(workspace_map@, todos_map@, (todos_map@.len() + 1) as nat),
                ws_region_wf(workspace_map@, wm0.len() as int, workspace_map@.len() as int),
                todo_region_wf(todos_map@, tm0.len() as int, todos_map@.len() as int),
                ws_region_todos_wf(
                    workspace_map@,
                    todos_map@,
                    wm0.len() as int,
                    workspace_map@.len() as int,
                    tm0.len() as int,
                    todos_map@.len() as int,
                ),
                forall|j: int|
                    wm0.len() <= j < workspace_map@.len() ==> #[trigger] ws_bounded(
                        workspace_map@,
                        j,
                        (workspace_map@.len() + 1) as nat,
                    ),
                forall|j: int|
                    tm0.len() <= j < todos_map@.len() ==> #[trigger] todo_bounded(
                        todos_map@,
                        j,
                        (todos_map@.len() + 1) as nat,
                    ),
                forall|j: int|
                    0 <= j < i ==> wm0.len() <= #[trigger] children@[j] < workspace_map@.len(),
                forall|j1: int, j2: int|
                    0 <= j1 < j2 < i ==> #[trigger] children@[j1] < #[trigger] children@[j2],
                forall|j: int|
                    0 <= j < i ==> ws_unreferenced_in(
                        workspace_map@,
                        #[trigger] children@[j],
                        wm0.len() as int,
                        workspace_map@.len() as int,
                    ),
                forall|j: int|
                    0 <= j < i ==> ws_bounded(
                        workspace_map@,
                        #[trigger] children@[j] as int,
                        (workspace_map@.len() - wm0.len()) as nat,
                    ),
                forall|j: int|
                    0 <= j < i ==> ws_v(
                        workspace_map@,
                        todos_map@,
                        #[trigger] children@[j] as int,
                        (workspace_map@.len() - wm0.len()) as nat,
                        (todos_map@.len() + 1) as nat,
                    ) == w.children@[j].model(),
            decreases w.children@.len() - i,
        {
            let ghost wm_pre = workspace_map@;
            let ghost tm_pre = todos_map@;
            proof {
                assert(decreases_to!(*w => w.children));
                assert(decreases_to!(w.children => w.children@));
                assert(decreases_to!(w.children@ => w.children@[i as int]));
            }
            let ck = Self::add_workspace(workspace_map, todos_map, &w.children[i]);
            proof {
                let wm = workspace_map@;
                let tm = todos_map@;
                let fpre = (wm_pre.len() - wm0.len()) as nat;
                let fcur = (wm.len() - wm0.len()) as nat;
                assert forall|j: int| 0 <= j < wm_pre.len() implies wm[j] == wm_pre[j] by {}
                assert forall|j: int| 0 <= j < tm_pre.len() implies tm[j] == tm_pre[j] by {}
                assert forall|k2: int, i2: int|
                    ws_live(wm_pre, k2) && 0 <= i2 < ws_at(wm_pre, k2).todos@.len()
                    implies todo_bounded(
                        tm_pre,
                        #[trigger] ws_at(wm_pre, k2).todos@[i2] as int,
                        (tm.len() + 1) as nat,
                    ) by {
                    lemma_todo_v_fuel(
                        tm_pre,
                        ws_at(wm_pre, k2).todos@[i2] as int,
                        (tm_pre.len() + 1) as nat,
                        (tm.len() + 1) as nat,
                    );
                }
                assert forall|j: int| 0 <= j < i implies ws_bounded(
                    wm,
                    #[trigger] children@[j] as int,
                    fcur,
                ) && ws_v(wm, tm, children@[j] as int, fcur, (tm.len() + 1) as nat)
                    == w.children@[j].model() by {
                    lemma_ws_v_tfuel(
                        wm_pre,
                        tm_pre,
                        children@[j] as int,
                        fpre,
                        (tm_pre.len() + 1) as nat,
                        (tm.len() + 1) as nat,
                    );
                    lemma_ws_v_extend(
                        wm_pre,
                        wm,
                        tm_pre,
                        tm,
                        children@[j] as int,
                        fpre,
                        (tm.len() + 1) as nat,
                    );
                    lemma_ws_v_fuel(
                        wm,
                        tm,
                        children@[j] as int,
                        fpre,
                        fcur,
                        (tm.len() + 1) as nat,
                    );
                }
                lemma_ws_v_fuel(
                    wm,
                    tm,
                    ck as int,
                    (wm.len() - wm_pre.len()) as nat,
                    fcur,
                    (tm.len() + 1) as nat,
                );
                assert forall|j: int| wm0.len() <= j < wm.len() implies #[trigger] ws_bounded(
                    wm,
                    j,
                    (wm.len() + 1) as nat,
                ) by {
                    if j < wm_pre.len() {
                        lemma_ws_bounded_extend(wm_pre, wm, j, (wm_pre.len() + 1) as nat);
                        lemma_ws_v_fuel(wm, tm, j, (wm_pre.len() + 1) as nat, (wm.len() + 1) as nat, 1nat);
                    }
                }
                assert forall|j: int| tm0.len() <= j < tm.len() implies #[trigger] todo_bounded(
                    tm,
                    j,
                    (tm.len() + 1) as nat,
                ) by {
                    if j < tm_pre.len() {
                        lemma_todo_v_extend(tm_pre, tm, j, (tm_pre.len() + 1) as nat);
                        lemma_todo_v_fuel(tm, j, (tm_pre.len() + 1) as nat, (tm.len() + 1) as nat);
                    }
                }
                assert forall|j: int| 0 <= j < i implies ws_unreferenced_in(
                    wm,
                    #[trigger] children@[j],
                    wm0.len() as int,
                    wm.len() as int,
                ) by {
                    let r = children@[j];
                    assert(ws_unreferenced_in(wm_pre, r, wm0.len() as int, wm_pre.len() as int));
                    assert forall|j2: int, i2: int|
                        wm0.len() <= j2 < wm.len() && 0 <= i2 < ws_at(wm, j2).children@.len()
                        implies #[trigger] ws_at(wm, j2).children@[i2] != r by {
                        if j2 < wm_pre.len() {
                            assert(wm[j2] == wm_pre[j2]);
                            assert(ws_at(wm_pre, j2).children@[i2] != r);
                        } else {
                            assert(handles_in(ws_at(wm, j2).children@, wm_pre.len() as int, j2));
                            assert(ws_at(wm, j2).children@[i2] >= wm_pre.len());
                            assert(r < wm_pre.len());
                        }
                    }
                }
                lemma_ws_region_stable(wm_pre, wm, wm0.len() as int, wm_pre.len() as int);
                lemma_ws_region_compose(wm, wm0.len() as int, wm_pre.len() as int, wm.len() as int);
                lemma_todo_region_stable(tm_pre, tm, tm0.len() as int, tm_pre.len() as int);
                lemma_todo_region_compose(tm, tm0.len() as int, tm_pre.len() as int, tm.len() as int);
                lemma_ws_region_todos_stable(
                    wm_pre,
                    wm,
                    tm_pre,
                    tm,
                    wm0.len() as int,
                    wm_pre.len() as int,
                    tm0.len() as int,
                    tm_pre.len() as int,
                );
                lemma_ws_region_todos_compose(
                    wm,
                    tm,
                    wm0.len() as int,
                    wm_pre.len() as int,
                    wm.len() as int,
                    tm0.len() as int,
                    tm_pre.len() as int,
                    tm.len() as int,
                );
            }
            children.push(ck);
            i += 1;
        }
        let mut todos: Vec<usize> = Vec::new();
        let ghost wm1 = workspace_map@;
        let ghost tm1 = todos_map@;
        let mut n: usize = 0;
        while n < w.todos.len()
            invariant
                n <= w.todos@.len(),
                todos@.len() == n,
                workspace_map@ == wm1,
                arena_extends(tm1, todos_map@),
                arena_extends(tm0, todos_map@),
                arena_extends(wm0, workspace_map@),
                ws_todos_bounded(workspace_map@, todos_map@, (todos_map@.len() + 1) as nat),
                ws_region_wf(workspace_map@, wm0.len() as int, workspace_map@.len() as int),
                todo_region_wf(todos_map@, tm0.len() as int, tm1.len() as int),
                todo_region_wf(todos_map@, tm1.len() as int, todos_map@.len() as int),
                ws_region_todos_wf(
                    workspace_map@,
                    todos_map@,
                    wm0.len() as int,
                    workspace_map@.len() as int,
                    tm0.len() as int,
                    tm1.len() as int,
                ),
                forall|j: int|
                    wm0.len() <= j < workspace_map@.len() ==> #[trigger] ws_bounded(
                        workspace_map@,
                        j,
                        (workspace_map@.len() + 1) as nat,
                    ),
                forall|j: int|
                    tm0.len() <= j < todos_map@.len() ==> #[trigger] todo_bounded(
                        todos_map@,
                        j,
                        (todos_map@.len() + 1) as nat,
                    ),
                forall|j: int|
                    0 <= j < children@.len() ==> wm0.len() <= #[trigger] children@[j]
                        < workspace_map@.len(),
                forall|j1: int, j2: int|
                    0 <= j1 < j2 < children@.len() ==> #[trigger] children@[j1]
                        < #[trigger] children@[j2],
                forall|j: int|
                    0 <= j < children@.len() ==> ws_unreferenced_in(
                        workspace_map@,
                        #[trigger] children@[j],
                        wm0.len() as int,
                        workspace_map@.len() as int,
                    ),
                forall|j: int|
                    0 <= j < children@.len() ==> ws_bounded(
                        workspace_map@,
                        #[trigger] children@[j] as int,
                        (workspace_map@.len() - wm0.len()) as nat,
                    ),
                forall|j: int|
                    0 <= j < children@.len() ==> ws_v(
                        workspace_map@,
                        todos_map@,
                        #[trigger] children@[j] as int,
                        (workspace_map@.len() - wm0.len()) as nat,
                        (todos_map@.len() + 1) as nat,
                    ) == w.children@[j].model(),
                forall|j: int|
                    0 <= j < n ==> tm1.len() <= #[trigger] todos@[j] < todos_map@.len(),
                forall|j1: int, j2: int|
                    0 <= j1 < j2 < n ==> #[trigger] todos@[j1] < #[trigger] todos@[j2],
                forall|j: int|
                    0 <= j < n ==> todo_unreferenced_in(
                        todos_map@,
                        #[trigger] todos@[j],
                        tm0.len() as int,
                        todos_map@.len() as int,
                    ),
                forall|j: int|
                    0 <= j < n ==> todo_bounded(
                        todos_map@,
                        #[trigger] todos@[j] as int,
                        (todos_map@.len() + 1) as nat,
                    ),
                forall|j: int|
                    0 <= j < n ==> todo_v(
                        todos_map@,
                        #[trigger] todos@[j] as int,
                        (todos_map@.len() + 1) as nat,
                    ) == w.todos@[j].model(),
            decreases w.todos@.len() - n,
        {
            let ghost tm_pre = todos_map@;
            let tk = Self::add_todo(todos_map, &w.todos[n]);
            proof {
                let wm = workspace_map@;
                let tm = todos_map@;
                assert forall|j: int| 0 <= j < tm_pre.len() implies tm[j] == tm_pre[j] by {}
                assert forall|j: int| tm0.len() <= j < tm.len() implies #[trigger] todo_bounded(
                    tm,
                    j,
                    (tm.len() + 1) as nat,
                ) by {
                    if j < tm_pre.len() {
                        lemma_todo_v_extend(tm_pre, tm, j, (tm_pre.len() + 1) as nat);
                        lemma_todo_v_fuel(tm, j, (tm_pre.len() + 1) as nat, (tm.len() + 1) as nat);
                    }
                }
                assert forall|k2: int, i2: int|
                    ws_live(wm, k2) && 0 <= i2 < ws_at(wm, k2).todos@.len() implies todo_bounded(
                        tm,
                        #[trigger] ws_at(wm, k2).todos@[i2] as int,
                        (tm.len() + 1) as nat,
                    ) by {
                    lemma_todo_v_extend(
                        tm_pre,
                        tm,
                        ws_at(wm, k2).todos@[i2] as int,
                        (tm_pre.len() + 1) as nat,
                    );
                    lemma_todo_v_fuel(
                        tm,
                        ws_at(wm, k2).todos@[i2] as int,
                        (tm_pre.len() + 1) as nat,
                        (tm.len() + 1) as nat,
                    );
                }
                assert forall|k2: int, i2: int|
                    ws_live(wm, k2) && 0 <= i2 < ws_at(wm, k2).todos@.len()
                    implies todo_bounded(
                        tm_pre,
                        #[trigger] ws_at(wm, k2).todos@[i2] as int,
                        (tm.len() + 1) as nat,
                    ) by {
                    lemma_todo_v_fuel(
                        tm_pre,
                        ws_at(wm, k2).todos@[i2] as int,
                        (tm_pre.len() + 1) as nat,
                        (tm.len() + 1) as nat,
                    );
                }
                assert forall|j: int| 0 <= j < children@.len() implies ws_v(
                    wm,
                    tm,
                    #[trigger] children@[j] as int,
                    (wm.len() - wm0.len()) as nat,
                    (tm.len() + 1) as nat,
                ) == w.children@[j].model() by {
                    lemma_ws_v_tfuel(
                        wm,
                        tm_pre,
                        children@[j] as int,
                        (wm.len() - wm0.len()) as nat,
                        (tm_pre.len() + 1) as nat,
                        (tm.len() + 1) as nat,
                    );
                    lemma_ws_v_extend(
                        wm,
                        wm,
                        tm_pre,
                        tm,
                        children@[j] as int,
                        (wm.len() - wm0.len()) as nat,
                        (tm.len() + 1) as nat,
                    );
                }
                assert forall|j: int| 0 <= j < n implies todo_bounded(
                    tm,
                    #[trigger] todos@[j] as int,
                    (tm.len() + 1) as nat,
                ) && todo_v(tm, todos@[j] as int, (tm.len() + 1) as nat)
                    == w.todos@[j].model() by {
                    lemma_todo_v_extend(tm_pre, tm, todos@[j] as int, (tm_pre.len() + 1) as nat);
                    lemma_todo_v_fuel(
                        tm,
                        todos@[j] as int,
                        (tm_pre.len() + 1) as nat,
                        (tm.len() + 1) as nat,
                    );
                }
                lemma_todo_v_fuel(
                    tm,
                    tk as int,
                    (tm.len() - tm_pre.len()) as nat,
                    (tm.len() + 1) as nat,
                );
                assert forall|j: int| 0 <= j < n implies todo_unreferenced_in(
                    tm,
                    #[trigger] todos@[j],
                    tm0.len() as int,
                    tm.len() as int,
                ) by {
                    let r = todos@[j];
                    assert(todo_unreferenced_in(tm_pre, r, tm0.len() as int, tm_pre.len() as int));
                    assert forall|j2: int, i2: int|
                        tm0.len() <= j2 < tm.len() && 0 <= i2 < todo_at(tm, j2).children@.len()
                        implies #[trigger] todo_at(tm, j2).children@[i2] != r by {
                        if j2 < tm_pre.len() {
                            assert(tm[j2] == tm_pre[j2]);
                            assert(todo_at(tm_pre, j2).children@[i2] != r);
                        } else {
                            assert(handles_in(todo_at(tm, j2).children@, tm_pre.len() as int, j2));
                            assert(todo_at(tm, j2).children@[i2] >= tm_pre.len());
                            assert(r < tm_pre.len());
                        }
                    }
                }
                lemma_todo_region_stable(tm_pre, tm, tm0.len() as int, tm1.len() as int);
                lemma_todo_region_stable(tm_pre, tm, tm1.len() as int, tm_pre.len() as int);
                lemma_todo_region_compose(tm, tm1.len() as int, tm_pre.len() as int, tm.len() as int);
                lemma_ws_region_todos_stable(
                    wm,
                    wm,
                    tm_pre,
                    tm,
                    wm0.len() as int,
                    wm.len() as int,
                    tm0.len() as int,
                    tm1.len() as int,
                );
            }
            todos.push(tk);
            n += 1;
        }
        let item = WorkspaceItem { id: w.id.clone(), description: w.description.clone(), todos, children };
        let ghost wm1b = workspace_map@;
        let ghost tm2 = todos_map@;
        let ghost cks = item.children@;
        let ghost tks = item.todos@;
        let k = workspace_map.len();
        workspace_map.push(Some(item));
        proof {
            let wm = workspace_map@;
            let tm = todos_map@;
            let fsub = (wm1b.len() - wm0.len()) as nat;
            let fall = (wm.len() - wm0.len()) as nat;
            assert(arena_extends(wm1b, wm));
            assert forall|j: int| 0 <= j < wm1b.len() implies wm[j] == wm1b[j] by {}
            assert(ws_at(wm, k as int) == item);
            assert forall|j: int| 0 <= j < cks.len() implies ws_bounded(
                wm,
                #[trigger] cks[j] as int,
                fsub,
            ) && ws_v(wm, tm, cks[j] as int, fsub, (tm.len() + 1) as nat)
                == w.children@[j].model() by {
                lemma_ws_v_extend(wm1b, wm, tm, tm, cks[j] as int, fsub, (tm.len() + 1) as nat);
            }
            crate::store::lemma_workspace_models(w.children@);
            crate::store::lemma_todo_models(w.todos@);
            assert(ws_bounded(wm, k as int, fall));
            assert(ws_v(wm, tm, k as int, fall, (tm.len() + 1) as nat).children
                =~= w.model().children);
            assert(ws_v(wm, tm, k as int, fall, (tm.len() + 1) as nat).todos =~= w.model().todos);
            assert(ws_v(wm, tm, k as int, fall, (tm.len() + 1) as nat) == w.model());
            assert forall|j: int| wm0.len() <= j < wm.len() implies #[trigger] ws_bounded(
                wm,
                j,
                (wm.len() + 1) as nat,
            ) by {
                if j < wm1b.len() {
                    lemma_ws_bounded_extend(wm1b, wm, j, (wm1b.len() + 1) as nat);
                    lemma_ws_v_fuel(wm, tm, j, (wm1b.len() + 1) as nat, (wm.len() + 1) as nat, 1nat);
                } else {
                    lemma_ws_v_fuel(wm, tm, j, fall, (wm.len() + 1) as nat, 1nat);
                }
            }
            lemma_ws_region_stable(wm1b, wm, wm0.len() as int, wm1b.len() as int);
            assert(handles_in(ws_at(wm, k as int).children@, wm0.len() as int, k as int));
            assert forall|j: int|
                0 <= j < cks.len() implies ws_unreferenced_in(
                    wm,
                    #[trigger] cks[j],
                    wm0.len() as int,
                    wm1b.len() as int,
                ) by {
                let r = cks[j];
                assert(ws_unreferenced_in(wm1b, r, wm0.len() as int, wm1b.len() as int));
                assert forall|j2: int, i2: int|
                    wm0.len() <= j2 < wm1b.len() && 0 <= i2 < ws_at(wm, j2).children@.len()
                    implies #[trigger] ws_at(wm, j2).children@[i2] != r by {
                    assert(wm[j2] == wm1b[j2]);
                    assert(ws_at(wm1b, j2).children@[i2] != r);
                }
            }
            lemma_ws_region_push_root(wm, wm0.len() as int, wm1b.len() as int);
            lemma_ws_region_todos_stable(
                wm1b,
                wm,
                tm,
                tm,
                wm0.len() as int,
                wm1b.len() as int,
                tm0.len() as int,
                tm1.len() as int,
            );
            assert(handles_in(ws_at(wm, k as int).todos@, tm1.len() as int, tm.len() as int));
            lemma_ws_region_todos_push_root(
                wm,
                tm,
                wm0.len() as int,
                wm1b.len() as int,
                tm0.len() as int,
                tm1.len() as int,
                tm.len() as int,
            );
            lemma_todo_region_compose(tm, tm0.len() as int, tm1.len() as int, tm.len() as int);
            assert forall|k2: int, i2: int|
                ws_live(wm, k2) && 0 <= i2 < ws_at(wm, k2).todos@.len() implies todo_bounded(
                    tm,
                    #[trigger] ws_at(wm, k2).todos@[i2] as int,
                    (tm.len() + 1) as nat,
                ) by {
                if k2 < wm1b.len() {
                    assert(wm[k2] == wm1b[k2]);
                    assert(todo_bounded(tm, ws_at(wm1b, k2).todos@[i2] as int, (tm.len() + 1) as nat));
                } else {
                    assert(ws_at(wm, k2).todos@ == tks);
                    assert(todo_bounded(tm, tks[i2] as int, (tm.len() + 1) as nat));
                }
            }
            assert(ws_todos_bounded(wm, tm, (tm.len() + 1) as nat));
        }
        k
    }

    /// Build the arena form of a nested document. The document must obey the
    /// data model — urgency never exceeds three. Handles are assigned afresh;
    /// the result is consistent and carries the same model, so a saved
    /// document read back reproduces content and id structure exactly.
    pub fn from_store(store: &Store) -> (r: SlotMapStore)
        requires
            crate::store::wss_urgency_ok(store.model()),
        ensures
            r.wf(),
            r.model() == store.model(),
    {
        let mut workspaces_map: Vec<Option<WorkspaceItem>> = Vec::new();
        let mut todos_map: Vec<Option<TodoItem>> = Vec::new();
        let mut root_workspaces: Vec<usize> = Vec::new();
        let mut i: usize = 0;
        while i < store.workspaces.len()
            invariant
                i <= store.workspaces@.len(),
                root_workspaces@.len() == i,
                ws_todos_bounded(workspaces_map@, todos_map@, (todos_map@.len() + 1) as nat),
                ws_region_wf(workspaces_map@, 0, workspaces_map@.len() as int),
                todo_region_wf(todos_map@, 0, todos_map@.len() as int),
                ws_region_todos_wf(
                    workspaces_map@,
                    todos_map@,
                    0,
                    workspaces_map@.len() as int,
                    0,
                    todos_map@.len() as int,
                ),
                forall|j: int|
                    0 <= j < workspaces_map@.len() ==> #[trigger] ws_bounded(
                        workspaces_map@,
                        j,
                        (workspaces_map@.len() + 1) as nat,
                    ),
                forall|j: int|
                    0 <= j < todos_map@.len() ==> #[trigger] todo_bounded(
                        todos_map@,
                        j,
                        (todos_map@.len() + 1) as nat,
                    ),
                forall|j: int|
                    0 <= j < i ==> #[trigger] root_workspaces@[j] < workspaces_map@.len(),
                forall|j1: int, j2: int|
                    0 <= j1 < j2 < i ==> #[trigger] root_workspaces@[j1]
                        < #[trigger] root_workspaces@[j2],
                forall|j: int|
                    0 <= j < i ==> ws_unreferenced_in(
                        workspaces_map@,
                        #[trigger] root_workspaces@[j],
                        0,
                        workspaces_map@.len() as int,
                    ),
                forall|j: int|
                    0 <= j < i ==> ws_bounded(
                        workspaces_map@,
                        #[trigger] root_workspaces@[j] as int,
                        workspaces_map@.len() as nat,
                    ),
                forall|j: int|
                    0 <= j < i ==> ws_v(
                        workspaces_map@,
                        todos_map@,
                        #[trigger] root_workspaces@[j] as int,
                        workspaces_map@.len() as nat,
                        (todos_map@.len() + 1) as nat,
                    ) == store.workspaces@[j].model(),
            decreases store.workspaces@.len() - i,
        {
            let ghost wm_pre = workspaces_map@;
            let ghost tm_pre = todos_map@;
            let ck = Self::add_workspace(&mut workspaces_map, &mut todos_map, &store.workspaces[i]);
            proof {
                let wm = workspaces_map@;
                let tm = todos_map@;
                let fpre = wm_pre.len() as nat;
                let fcur = wm.len() as nat;
                assert forall|j: int| 0 <= j < wm_pre.len() implies wm[j] == wm_pre[j] by {}
                assert forall|j: int| 0 <= j < tm_pre.len() implies tm[j] == tm_pre[j] by {}
                assert forall|k2: int, i2: int|
                    ws_live(wm_pre, k2) && 0 <= i2 < ws_at(wm_pre, k2).todos@.len()
                    implies todo_bounded(
                        tm_pre,
                        #[trigger] ws_at(wm_pre, k2).todos@[i2] as int,
                        (tm.len() + 1) as nat,
                    ) by {
                    lemma_todo_v_fuel(
                        tm_pre,
                        ws_at(wm_pre, k2).todos@[i2] as int,
                        (tm_pre.len() + 1) as nat,
                        (tm.len() + 1) as nat,
                    );
                }
                assert forall|j: int| 0 <= j < i implies ws_bounded(
                    wm,
                    #[trigger] root_workspaces@[j] as int,
                    fcur,
                ) && ws_v(wm, tm, root_workspaces@[j] as int, fcur, (tm.len() + 1) as nat)
                    == store.workspaces@[j].model() by {
                    lemma_ws_v_tfuel(
                        wm_pre,
                        tm_pre,
                        root_workspaces@[j] as int,
                        fpre,
                        (tm_pre.len() + 1) as nat,
                        (tm.len() + 1) as nat,
                    );
                    lemma_ws_v_extend(
                        wm_pre,
                        wm,
                        tm_pre,
                        tm,
                        root_workspaces@[j] as int,
                        fpre,
                        (tm.len() + 1) as nat,
                    );
                    lemma_ws_v_fuel(
                        wm,
                        tm,
                        root_workspaces@[j] as int,
                        fpre,
                        fcur,
                        (tm.len() + 1) as nat,
                    );
                }
                lemma_ws_v_fuel(
                    wm,
                    tm,
                    ck as int,
                    (wm.len() - wm_pre.len()) as nat,
                    fcur,
                    (tm.len() + 1) as nat,
                );
                assert forall|j: int| 0 <= j < wm.len() implies #[trigger] ws_bounded(
                    wm,
                    j,
                    (wm.len() + 1) as nat,
                ) by {
                    if j < wm_pre.len() {
                        lemma_ws_bounded_extend(wm_pre, wm, j, (wm_pre.len() + 1) as nat);
                        lemma_ws_v_fuel(wm, tm, j, (wm_pre.len() + 1) as nat, (wm.len() + 1) as nat, 1nat);
                    }
                }
                assert forall|j: int| 0 <= j < tm.len() implies #[trigger] todo_bounded(
                    tm,
                    j,
                    (tm.len() + 1) as nat,
                ) by {
                    if j < tm_pre.len() {
                        lemma_todo_v_extend(tm_pre, tm, j, (tm_pre.len() + 1) as nat);
                        lemma_todo_v_fuel(tm, j, (tm_pre.len() + 1) as nat, (tm.len() + 1) as nat);
                    }
                }
                assert forall|j: int| 0 <= j < i implies ws_unreferenced_in(
                    wm,
                    #[trigger] root_workspaces@[j],
                    0,
                    wm.len() as int,
                ) by {
                    let r = root_workspaces@[j];
                    assert(ws_unreferenced_in(wm_pre, r, 0, wm_pre.len() as int));
                    assert forall|j2: int, i2: int|
                        0 <= j2 < wm.len() && 0 <= i2 < ws_at(wm, j2).children@.len()
                        implies #[trigger] ws_at(wm, j2).children@[i2] != r by {
                        if j2 < wm_pre.len() {
                            assert(wm[j2] == wm_pre[j2]);
                            assert(ws_at(wm_pre, j2).children@[i2] != r);
                        } else {
                            assert(handles_in(ws_at(wm, j2).children@, wm_pre.len() as int, j2));
                            assert(ws_at(wm, j2).children@[i2] >= wm_pre.len());
                            assert(r < wm_pre.len());
                        }
                    }
                }
                lemma_ws_region_stable(wm_pre, wm, 0, wm_pre.len() as int);
                lemma_ws_region_compose(wm, 0, wm_pre.len() as int, wm.len() as int);
                lemma_todo_region_stable(tm_pre, tm, 0, tm_pre.len() as int);
                lemma_todo_region_compose(tm, 0, tm_pre.len() as int, tm.len() as int);
                lemma_ws_region_todos_stable(
                    wm_pre,
                    wm,
                    tm_pre,
                    tm,
                    0,
                    wm_pre.len() as int,
                    0,
                    tm_pre.len() as int,
                );
                lemma_ws_region_todos_compose(
                    wm,
                    tm,
                    0,
                    wm_pre.len() as int,
                    wm.len() as int,
                    0,
                    tm_pre.len() as int,
                    tm.len() as int,
                );
            }
            root_workspaces.push(ck);
            i += 1;
        }
        let r = SlotMapStore { workspaces_map, todos_map, root_workspaces };
        proof {
            let wm = r.workspaces_map@;
            let tm = r.todos_map@;
            assert forall|j: int| 0 <= j < r.root_workspaces@.len() implies ws_v(
                wm,
                tm,
                #[trigger] r.root_workspaces@[j] as int,
                r.wfuel(),
                r.tfuel(),
            ) == store.workspaces@[j].model() by {
                lemma_ws_v_fuel(
                    wm,
                    tm,
                    r.root_workspaces@[j] as int,
                    wm.len() as nat,
                    r.wfuel(),
                    r.tfuel(),
                );
            }
            crate::store::lemma_workspace_models(store.workspaces@);
            assert(r.model() =~= store.model());
        }
        r
    }

    /// Rebuild one nested todo from the arena, subtasks included.
    fn create_todo(&self, key: usize, Ghost(fuel): Ghost<nat>) -> (t: Todo)
        requires
            todo_bounded(self.todos_map@, key as int, fuel),
        ensures
            t.model() == todo_v(self.todos_map@, key as int, fuel),
        decreases fuel,
    {
        let slot = &self.todos_map[key];
        let item = slot.as_ref().unwrap();
        let mut children: Vec<Todo> = Vec::new();
        let mut i: usize = 0;
        while i < item.children.len()
            invariant
                todo_bounded(self.todos_map@, key as int, fuel),
                *item == todo_at(self.todos_map@, key as int),
                i <= item.children@.len(),
                children@.len() == i,
                forall|j: int|
                    0 <= j < i ==> (#[trigger] children@[j]).model() == todo_v(
                        self.todos_map@,
                        item.children@[j] as int,
                        (fuel - 1) as nat,
                    ),
            decreases item.children@.len() - i,
        {
            let c = self.create_todo(item.children[i], Ghost((fuel - 1) as nat));
            children.push(c);
            i += 1;
        }
        let t = Todo {
            id: item.id.clone(),
            description: item.description.clone(),
            due: item.due,
            effort: item.effort,
            urgency: item.urgency,
            pending: item.pending,
            children,
        };
        proof {
            crate::store::lemma_todo_models(t.children@);
            assert(t.model().children =~= todo_v(self.todos_map@, key as int, fuel).children);
            assert(t.model() == todo_v(self.todos_map@, key as int, fuel));
        }
        t
    }

    /// Rebuild one nested workspace from the arena, children and todos
    /// included.
    fn create_workspace(&self, key: usize, Ghost(fuel): Ghost<nat>) -> (w: Workspace)
        requires
            ws_bounded(self.workspaces_map@, key as int, fuel),
            ws_todos_bounded(self.workspaces_map@, self.todos_map@, self.tfuel()),
        ensures
            w.model() == ws_v(
                self.workspaces_map@,
                self.todos_map@,
                key as int,
                fuel,
                self.tfuel(),
            ),
        decreases fuel,
    {
        let slot = &self.workspaces_map[key];
        let item = slot.as_ref().unwrap();
        let mut children: Vec<Workspace> = Vec::new();
        let mut i: usize = 0;
        while i < item.children.len()
            invariant
                ws_bounded(self.workspaces_map@, key as int, fuel),
                ws_todos_bounded(self.workspaces_map@, self.todos_map@, self.tfuel()),
                *item == ws_at(self.workspaces_map@, key as int),
                i <= item.children@.len(),
                children@.len() == i,
                forall|j: int|
                    0 <= j < i ==> (#[trigger] children@[j]).model() == ws_v(
                        self.workspaces_map@,
                        self.todos_map@,
                        item.children@[j] as int,
                        (fuel - 1) as nat,
                        self.tfuel(),
                    ),
            decreases item.children@.len() - i,
        {
            let c = self.create_workspace(item.children[i], Ghost((fuel - 1) as nat));
            children.push(c);
            i += 1;
        }
        let mut todos: Vec<Todo> = Vec::new();
        let mut n: usize = 0;
        while n < item.todos.len()
            invariant
                ws_bounded(self.workspaces_map@, key as int, fuel),
                ws_todos_bounded(self.workspaces_map@, self.todos_map@, self.tfuel()),
                *item == ws_at(self.workspaces_map@, key as int),
                n <= item.todos@.len(),
                todos@.len() == n,
                forall|j: int|
                    0 <= j < n ==> (#[trigger] todos@[j]).model() == todo_v(
                        self.todos_map@,
                        item.todos@[j] as int,
                        self.tfuel(),
                    ),
            decreases item.todos@.len() - n,
        {
            let c = self.create_todo(item.todos[n], Ghost(self.tfuel()));
            todos.push(c);
            n += 1;
        }
        let w = Workspace {
            id: item.id.clone(),
            description: item.description.clone(),
            children,
            todos,
        };
        proof {
            crate::store::lemma_workspace_models(w.children@);
            crate::store::lemma_todo_models(w.todos@);
            let v = ws_v(self.workspaces_map@, self.todos_map@, key as int, fuel, self.tfuel());
            assert(w.model().children =~= v.children);
            assert(w.model().todos =~= v.todos);
            assert(w.model() == v);
        }
        w
    }

    /// Walk the arena back into the nested, by-value form, in live child-list
    /// order. Together with `from_store` this says that a round trip through
    /// either form preserves the document's content and id structure.
    pub fn get_store(&self) -> (r: Store)
        requires
            self.wf(),
        ensures
            r.model() == self.model(),
    {
        let mut workspaces: Vec<Workspace> = Vec::new();
        let mut i: usize = 0;
        while i < self.root_workspaces.len()
            invariant
                self.wf(),
                i <= self.root_workspaces@.len(),
                workspaces@.len() == i,
                forall|j: int|
                    0 <= j < i ==> (#[trigger] workspaces@[j]).model() == ws_v(
                        self.workspaces_map@,
                        self.todos_map@,
                        self.root_workspaces@[j] as int,
                        self.wfuel(),
                        self.tfuel(),
                    ),
            decreases self.root_workspaces@.len() - i,
        {
            let c = self.create_workspace(self.root_workspaces[i], Ghost(self.wfuel()));
            workspaces.push(c);
            i += 1;
        }
        let r = Store { workspaces };
        proof {
            crate::store::lemma_workspace_models(r.workspaces@);
            assert(r.model() =~= self.model());
        }
        r
    }
}

/// A bounded workspace tree stays bounded when its arena is only extended.
pub proof fn lemma_ws_bounded_extend(
    wm1: Seq<Option<WorkspaceItem>>,
    wm2: Seq<Option<WorkspaceItem>>,
    k: int,
    f: nat,
)
    requires
        ws_bounded(wm1, k, f),
        arena_extends(wm1, wm2),
    ensures
        ws_bounded(wm2, k, f),
    decreases f,
{
    let w = ws_at(wm1, k);
    assert forall|i: int| 0 <= i < w.children@.len() implies ws_bounded(
        wm2,
        w.children@[i] as int,
        (f - 1) as nat,
    ) by {
        lemma_ws_bounded_extend(wm1, wm2, w.children@[i] as int, (f - 1) as nat);
    }
}

impl SlotMapStore {
    /// Fuel that exhausts every bounded todo tree of this arena.
    pub open spec fn tfuel(self) -> nat {
        self.todos_map@.len() + 1
    }

    /// Fuel that exhausts every bounded workspace tree of this arena.
    pub open spec fn wfuel(self) -> nat {
        self.workspaces_map@.len() + 1
    }

    /// The model of the todo in slot `k`.
    pub open spec fn todo_model(self, k: int) -> TodoV {
        todo_v(self.todos_map@, k, self.tfuel())
    }

    /// The model of the workspace in slot `k`.
    pub open spec fn ws_model(self, k: int) -> WorkspaceV {
        ws_v(self.workspaces_map@, self.todos_map@, k, self.wfuel(), self.tfuel())
    }

    /// The model of the whole document: the models of the root workspaces.
    pub open spec fn model(self) -> Seq<WorkspaceV> {
        ws_list_v(
            self.workspaces_map@,
            self.todos_map@,
            self.root_workspaces@,
            self.wfuel(),
            self.tfuel(),
        )
    }

    /// Single-parent ownership of todos: over all owners — the todos list of
    /// every live workspace and the children list of every live todo — no
    /// todo handle occurs twice.
    pub open spec fn todo_owners_ok(self) -> bool {
        let wm = self.workspaces_map@;
        let tm = self.todos_map@;
        &&& forall|j1: int, i1: int, j2: int, i2: int|
            todo_live(tm, j1) && todo_live(tm, j2) && 0 <= i1 < todo_at(tm, j1).children@.len()
                && 0 <= i2 < todo_at(tm, j2).children@.len() && (j1 != j2 || i1 != i2)
                ==> #[trigger] todo_at(tm, j1).children@[i1] != #[trigger] todo_at(
                tm,
                j2,
            ).children@[i2]
        &&& forall|j1: int, i1: int, j2: int, i2: int|
            ws_live(wm, j1) && ws_live(wm, j2) && 0 <= i1 < ws_at(wm, j1).todos@.len() && 0 <= i2
                < ws_at(wm, j2).todos@.len() && (j1 != j2 || i1 != i2) ==> #[trigger] ws_at(
                wm,
                j1,
            ).todos@[i1] != #[trigger] ws_at(wm, j2).todos@[i2]
        &&& forall|j1: int, i1: int, j2: int, i2: int|
            ws_live(wm, j1) && todo_live(tm, j2) && 0 <= i1 < ws_at(wm, j1).todos@.len() && 0 <= i2
                < todo_at(tm, j2).children@.len() ==> #[trigger] ws_at(wm, j1).todos@[i1]
                != #[trigger] todo_at(tm, j2).children@[i2]
    }

    /// Single-parent ownership of workspaces: over all owners — the root list
    /// and the children list of every live workspace — no workspace handle
    /// occurs twice.
    pub open spec fn ws_owners_ok(self) -> bool {
        let wm = self.workspaces_map@;
        let roots = self.root_workspaces@;
        &&& forall|i1: int, i2: int|
            0 <= i1 < i2 < roots.len() ==> #[trigger] roots[i1] != #[trigger] roots[i2]
        &&& forall|j1: int, i1: int, j2: int, i2: int|
            ws_live(wm, j1) && ws_live(wm, j2) && 0 <= i1 < ws_at(wm, j1).children@.len() && 0 <= i2
                < ws_at(wm, j2).children@.len() && (j1 != j2 || i1 != i2) ==> #[trigger] ws_at(
                wm,
                j1,
            ).children@[i1] != #[trigger] ws_at(wm, j2).children@[i2]
        &&& forall|i: int, j: int, i2: int|
            0 <= i < roots.len() && ws_live(wm, j) && 0 <= i2 < ws_at(wm, j).children@.len()
                ==> #[trigger] roots[i] != #[trigger] ws_at(wm, j).children@[i2]
    }

    /// A consistent arena store: sound links and single-parent ownership.
    pub open spec fn wf(self) -> bool {
        self.links_ok() && self.todo_owners_ok() && self.ws_owners_ok()
    }

    /// Every live slot heads a bounded tree of live slots, every root is
    /// live, and the todo handles of every live workspace head bounded todo
    /// trees: the forests are acyclic and no link dangles.
    pub open spec fn links_ok(self) -> bool {
        let wm = self.workspaces_map@;
        let tm = self.todos_map@;
        &&& forall|k: int| todo_live(tm, k) ==> #[trigger] todo_bounded(tm, k, self.tfuel())
        &&& forall|k: int| ws_live(wm, k) ==> #[trigger] ws_bounded(wm, k, self.wfuel())
        &&& forall|k: int| ws_live(wm, k) ==> forall|i: int|
            0 <= i < ws_at(wm, k).todos@.len() ==> todo_live(
                tm,
                #[trigger] ws_at(wm, k).todos@[i] as int,
            )
        &&& forall|i: int|
            0 <= i < self.root_workspaces@.len() ==> ws_live(
                wm,
                #[trigger] self.root_workspaces@[i] as int,
            )
    }
}

} // verus!
