//! The tree materializer: the depth-first pre-order sequence of visible
//! nodes, recomputed from the arenas after every mutation. A node's children
//! appear right after it exactly when its handle is in the opened set; a
//! collapsed subtree is skipped whole. Each row carries the handle, the
//! parent's handle (none for forest roots), and the depth.

use vstd::prelude::*;

use crate::arena::{SlotMapStore, TodoItem, WorkspaceItem};
use crate::arena::{todo_at, todo_bounded, todo_links_same, todo_live, ws_at, ws_bounded, ws_children_same, ws_live};

verus! {

/// One visible row of a flattened forest.
pub struct ActiveTree {
    pub key: usize,
    pub parent: Option<usize>,
    pub depth: usize,
}

/// The navigation state: selections, opened sets, multi-selections, and the
/// two flattened trees derived from the arenas.
pub struct SlotTreeState {
    pub selected_todo: Option<usize>,
    pub selected_workspace: Option<usize>,
    pub ws_opened: Vec<usize>,
    pub todo_opened: Vec<usize>,
    pub ws_tree: Vec<ActiveTree>,
    pub todo_tree: Vec<ActiveTree>,
    pub multi_selected_todos: Vec<usize>,
    pub multi_selected_workspaces: Vec<usize>,
}

impl Default for SlotTreeState {
    /// The state before any document is shown: nothing selected, nothing
    /// opened, both trees empty.
    fn default() -> (r: Self)
        ensures
            r.selected_todo is None,
            r.selected_workspace is None,
            r.ws_opened@ == Seq::<usize>::empty(),
            r.todo_opened@ == Seq::<usize>::empty(),
            r.ws_tree@ == Seq::<ActiveTree>::empty(),
            r.todo_tree@ == Seq::<ActiveTree>::empty(),
            r.multi_selected_todos@ == Seq::<usize>::empty(),
            r.multi_selected_workspaces@ == Seq::<usize>::empty(),
    {
        let r = SlotTreeState {
            selected_todo: None,
            selected_workspace: None,
            ws_opened: Vec::new(),
            todo_opened: Vec::new(),
            ws_tree: Vec::new(),
            todo_tree: Vec::new(),
            multi_selected_todos: Vec::new(),
            multi_selected_workspaces: Vec::new(),
        };
        proof {
            assert(r.ws_opened@ =~= Seq::<usize>::empty());
            assert(r.todo_opened@ =~= Seq::<usize>::empty());
            assert(r.ws_tree@ =~= Seq::<ActiveTree>::empty());
            assert(r.todo_tree@ =~= Seq::<ActiveTree>::empty());
            assert(r.multi_selected_todos@ =~= Seq::<usize>::empty());
            assert(r.multi_selected_workspaces@ =~= Seq::<usize>::empty());
        }
        r
    }
}

/// Whether `v` holds `k`; a `Vec<usize>` used as a small set.
pub fn vec_contains(v: &Vec<usize>, k: usize) -> (r: bool)
    ensures
        r == v@.contains(k),
{
    let mut i: usize = 0;
    while i < v.len()
        invariant
            i <= v@.len(),
            forall|j: int| 0 <= j < i ==> v@[j] != k,
        decreases v@.len() - i,
    {
        if v[i] == k {
            return true;
        }
        i += 1;
    }
    proof {
        assert(!v@.contains(k));
    }
    false
}

/// The visible rows of the todo subtree under `k`: the node itself, then —
/// only if `k` is opened — its children's rows, one level deeper.
pub open spec fn flat_todo(
    tm: Seq<Option<TodoItem>>,
    opened: Seq<usize>,
    k: usize,
    parent: Option<usize>,
    depth: usize,
    fuel: nat,
) -> Seq<ActiveTree>
    decreases fuel, 0nat,
{
    if fuel == 0 || !todo_live(tm, k as int) {
        Seq::empty()
    } else {
        seq![ActiveTree { key: k, parent, depth }] + if opened.contains(k) {
            flat_todo_list(
                tm,
                opened,
                todo_at(tm, k as int).children@,
                k,
                ((depth + 1) as usize),
                (fuel - 1) as nat,
            )
        } else {
            Seq::empty()
        }
    }
}

/// The visible rows of a list of todo subtrees, in order.
pub open spec fn flat_todo_list(
    tm: Seq<Option<TodoItem>>,
    opened: Seq<usize>,
    ks: Seq<usize>,
    parent: usize,
    depth: usize,
    fuel: nat,
) -> Seq<ActiveTree>
    decreases fuel, ks.len(),
{
    if ks.len() == 0 {
        Seq::empty()
    } else {
        flat_todo(tm, opened, ks[0], Some(parent), depth, fuel) + flat_todo_list(
            tm,
            opened,
            ks.drop_first(),
            parent,
            depth,
            fuel,
        )
    }
}

/// The visible rows of the workspace subtree under `k`.
pub open spec fn flat_ws(
    wm: Seq<Option<WorkspaceItem>>,
    opened: Seq<usize>,
    k: usize,
    parent: Option<usize>,
    depth: usize,
    fuel: nat,
) -> Seq<ActiveTree>
    decreases fuel, 0nat,
{
    if fuel == 0 || !ws_live(wm, k as int) {
        Seq::empty()
    } else {
        seq![ActiveTree { key: k, parent, depth }] + if opened.contains(k) {
            flat_ws_list(
                wm,
                opened,
                ws_at(wm, k as int).children@,
                k,
                ((depth + 1) as usize),
                (fuel - 1) as nat,
            )
        } else {
            Seq::empty()
        }
    }
}

/// The visible rows of a list of workspace subtrees, in order.
pub open spec fn flat_ws_list(
    wm: Seq<Option<WorkspaceItem>>,
    opened: Seq<usize>,
    ks: Seq<usize>,
    parent: usize,
    depth: usize,
    fuel: nat,
) -> Seq<ActiveTree>
    decreases fuel, ks.len(),
{
    if ks.len() == 0 {
        Seq::empty()
    } else {
        flat_ws(wm, opened, ks[0], Some(parent), depth, fuel) + flat_ws_list(
            wm,
            opened,
            ks.drop_first(),
            parent,
            depth,
            fuel,
        )
    }
}

/// The visible rows of the whole workspace forest: all roots at depth zero,
/// with no parent.
pub open spec fn ws_rows(s: SlotMapStore, opened: Seq<usize>) -> Seq<ActiveTree>
    decreases s.root_workspaces@.len(),
{
    ws_rows_from(s, opened, s.root_workspaces@)
}

/// The visible rows of the root workspaces listed in `roots`, in order.
pub open spec fn ws_rows_from(s: SlotMapStore, opened: Seq<usize>, roots: Seq<usize>) -> Seq<
    ActiveTree,
>
    decreases roots.len(),
{
    if roots.len() == 0 {
        Seq::empty()
    } else {
        flat_ws(s.workspaces_map@, opened, roots[0], None, 0, s.wfuel()) + ws_rows_from(
            s,
            opened,
            roots.drop_first(),
        )
    }
}

/// The visible rows of the todo forest of the selected workspace: its direct
/// todos at depth zero, with no parent; empty when no workspace is selected.
pub open spec fn todo_rows(s: SlotMapStore, opened: Seq<usize>, selected: Option<usize>) -> Seq<
    ActiveTree,
> {
    match selected {
        None => Seq::empty(),
        Some(w) => todo_rows_from(s, opened, ws_at(s.workspaces_map@, w as int).todos@),
    }
}

/// The visible rows of the top-level todos listed in `ks`, in order.
pub open spec fn todo_rows_from(s: SlotMapStore, opened: Seq<usize>, ks: Seq<usize>) -> Seq<
    ActiveTree,
>
    decreases ks.len(),
{
    if ks.len() == 0 {
        Seq::empty()
    } else {
        flat_todo(s.todos_map@, opened, ks[0], None, 0, s.tfuel()) + todo_rows_from(
            s,
            opened,
            ks.drop_first(),
        )
    }
}

/// Appending one more subtree to a list appends its rows.
pub proof fn lemma_flat_todo_list_snoc(
    tm: Seq<Option<TodoItem>>,
    opened: Seq<usize>,
    ks: Seq<usize>,
    x: usize,
    parent: usize,
    depth: usize,
    fuel: nat,
)
    ensures
        flat_todo_list(tm, opened, ks.push(x), parent, depth, fuel) == flat_todo_list(
            tm,
            opened,
            ks,
            parent,
            depth,
            fuel,
        ) + flat_todo(tm, opened, x, Some(parent), depth, fuel),
    decreases ks.len(),
{
    if ks.len() == 0 {
        assert(ks.push(x).drop_first() =~= Seq::<usize>::empty());
        assert(ks.push(x)[0] == x);
        assert(flat_todo_list(tm, opened, ks.push(x).drop_first(), parent, depth, fuel)
            =~= Seq::<ActiveTree>::empty());
        assert(flat_todo_list(tm, opened, ks.push(x), parent, depth, fuel) =~= flat_todo_list(
            tm,
            opened,
            ks,
            parent,
            depth,
            fuel,
        ) + flat_todo(tm, opened, x, Some(parent), depth, fuel));
    } else {
        lemma_flat_todo_list_snoc(tm, opened, ks.drop_first(), x, parent, depth, fuel);
        assert(ks.push(x).drop_first() =~= ks.drop_first().push(x));
        assert(ks.push(x)[0] == ks[0]);
        assert(flat_todo_list(tm, opened, ks.push(x).drop_first(), parent, depth, fuel)
            == flat_todo_list(tm, opened, ks.drop_first(), parent, depth, fuel) + flat_todo(
            tm,
            opened,
            x,
            Some(parent),
            depth,
            fuel,
        ));
        assert(flat_todo_list(tm, opened, ks.push(x), parent, depth, fuel) =~= flat_todo_list(
            tm,
            opened,
            ks,
            parent,
            depth,
            fuel,
        ) + flat_todo(tm, opened, x, Some(parent), depth, fuel));
    }
}

/// Appending one more subtree to a list appends its rows.
pub proof fn lemma_flat_ws_list_snoc(
    wm: Seq<Option<WorkspaceItem>>,
    opened: Seq<usize>,
    ks: Seq<usize>,
    x: usize,
    parent: usize,
    depth: usize,
    fuel: nat,
)
    ensures
        flat_ws_list(wm, opened, ks.push(x), parent, depth, fuel) == flat_ws_list(
            wm,
            opened,
            ks,
            parent,
            depth,
            fuel,
        ) + flat_ws(wm, opened, x, Some(parent), depth, fuel),
    decreases ks.len(),
{
    if ks.len() == 0 {
        assert(ks.push(x).drop_first() =~= Seq::<usize>::empty());
        assert(ks.push(x)[0] == x);
        assert(flat_ws_list(wm, opened, ks.push(x).drop_first(), parent, depth, fuel)
            =~= Seq::<ActiveTree>::empty());
        assert(flat_ws_list(wm, opened, ks.push(x), parent, depth, fuel) =~= flat_ws_list(
            wm,
            opened,
            ks,
            parent,
            depth,
            fuel,
        ) + flat_ws(wm, opened, x, Some(parent), depth, fuel));
    } else {
        lemma_flat_ws_list_snoc(wm, opened, ks.drop_first(), x, parent, depth, fuel);
        assert(ks.push(x).drop_first() =~= ks.drop_first().push(x));
        assert(ks.push(x)[0] == ks[0]);
        assert(flat_ws_list(wm, opened, ks.push(x).drop_first(), parent, depth, fuel)
            == flat_ws_list(wm, opened, ks.drop_first(), parent, depth, fuel) + flat_ws(
            wm,
            opened,
            x,
            Some(parent),
            depth,
            fuel,
        ));
        assert(flat_ws_list(wm, opened, ks.push(x), parent, depth, fuel) =~= flat_ws_list(
            wm,
            opened,
            ks,
            parent,
            depth,
            fuel,
        ) + flat_ws(wm, opened, x, Some(parent), depth, fuel));
    }
}

impl SlotTreeState {
    /// Emit the visible rows of the workspace subtree under `key`.
    fn add_workspace_to_tree(
        &self,
        ws_tree: &mut Vec<ActiveTree>,
        store: &SlotMapStore,
        key: usize,
        depth: usize,
        parent: Option<usize>,
        Ghost(fuel): Ghost<nat>,
    )
        requires
            ws_bounded(store.workspaces_map@, key as int, fuel),
            depth + fuel <= usize::MAX + 1,
        ensures
            final(ws_tree)@ == old(ws_tree)@ + flat_ws(
                store.workspaces_map@,
                self.ws_opened@,
                key,
                parent,
                depth,
                fuel,
            ),
        decreases fuel,
    {
        let ghost base = ws_tree@;
        ws_tree.push(ActiveTree { key, parent, depth });
        if vec_contains(&self.ws_opened, key) {
            let slot = &store.workspaces_map[key];
            let item = slot.as_ref().unwrap();
            let mut i: usize = 0;
            while i < item.children.len()
                invariant
                    ws_bounded(store.workspaces_map@, key as int, fuel),
                    depth + fuel <= usize::MAX + 1,
                    fuel >= 1,
                    *item == ws_at(store.workspaces_map@, key as int),
                    self.ws_opened@.contains(key),
                    i <= item.children@.len(),
                    ws_tree@ == base + seq![
                        ActiveTree { key, parent, depth },
                    ] + flat_ws_list(
                        store.workspaces_map@,
                        self.ws_opened@,
                        item.children@.take(i as int),
                        key,
                        ((depth + 1) as usize),
                        (fuel - 1) as nat,
                    ),
                decreases item.children@.len() - i,
            {
                let c = item.children[i];
                proof {
                    assert(ws_bounded(
                        store.workspaces_map@,
                        item.children@[i as int] as int,
                        (fuel - 1) as nat,
                    ));
                }
                self.add_workspace_to_tree(
                    ws_tree,
                    store,
                    c,
                    depth + 1,
                    Some(key),
                    Ghost((fuel - 1) as nat),
                );
                proof {
                    lemma_flat_ws_list_snoc(
                        store.workspaces_map@,
                        self.ws_opened@,
                        item.children@.take(i as int),
                        item.children@[i as int],
                        key,
                        ((depth + 1) as usize),
                        (fuel - 1) as nat,
                    );
                    assert(item.children@.take(i as int).push(item.children@[i as int])
                        =~= item.children@.take(i as int + 1));
                }
                i += 1;
            }
            proof {
                assert(item.children@.take(i as int) =~= item.children@);
            }
        }
    }

    /// Emit the visible rows of the todo subtree under `key`.
    fn add_todo_to_tree(
        &self,
        todo_tree: &mut Vec<ActiveTree>,
        store: &SlotMapStore,
        key: usize,
        depth: usize,
        parent: Option<usize>,
        Ghost(fuel): Ghost<nat>,
    )
        requires
            todo_bounded(store.todos_map@, key as int, fuel),
            depth + fuel <= usize::MAX + 1,
        ensures
            final(todo_tree)@ == old(todo_tree)@ + flat_todo(
                store.todos_map@,
                self.todo_opened@,
                key,
                parent,
                depth,
                fuel,
            ),
        decreases fuel,
    {
        let ghost base = todo_tree@;
        todo_tree.push(ActiveTree { key, parent, depth });
        if vec_contains(&self.todo_opened, key) {
            let slot = &store.todos_map[key];
            let item = slot.as_ref().unwrap();
            let mut i: usize = 0;
            while i < item.children.len()
                invariant
                    todo_bounded(store.todos_map@, key as int, fuel),
                    depth + fuel <= usize::MAX + 1,
                    fuel >= 1,
                    *item == todo_at(store.todos_map@, key as int),
                    self.todo_opened@.contains(key),
                    i <= item.children@.len(),
                    todo_tree@ == base + seq![
                        ActiveTree { key, parent, depth },
                    ] + flat_todo_list(
                        store.todos_map@,
                        self.todo_opened@,
                        item.children@.take(i as int),
                        key,
                        ((depth + 1) as usize),
                        (fuel - 1) as nat,
                    ),
                decreases item.children@.len() - i,
            {
                let c = item.children[i];
                proof {
                    assert(todo_bounded(
                        store.todos_map@,
                        item.children@[i as int] as int,
                        (fuel - 1) as nat,
                    ));
                }
                self.add_todo_to_tree(
                    todo_tree,
                    store,
                    c,
                    depth + 1,
                    Some(key),
                    Ghost((fuel - 1) as nat),
                );
                proof {
                    lemma_flat_todo_list_snoc(
                        store.todos_map@,
                        self.todo_opened@,
                        item.children@.take(i as int),
                        item.children@[i as int],
                        key,
                        ((depth + 1) as usize),
                        (fuel - 1) as nat,
                    );
                    assert(item.children@.take(i as int).push(item.children@[i as int])
                        =~= item.children@.take(i as int + 1));
                }
                i += 1;
            }
            proof {
                assert(item.children@.take(i as int) =~= item.children@);
            }
        }
    }

    /// Whether the selected workspace, if any, is a live handle; the todo
    /// tree is scoped to it.
    pub open spec fn sel_ws_ok(self, store: SlotMapStore) -> bool {
        match self.selected_workspace {
            None => true,
            Some(w) => ws_live(store.workspaces_map@, w as int),
        }
    }

    /// Recompute both flattened trees from the arenas; nothing else of the
    /// state changes.
    pub fn update_workspace_tree_state(&mut self, store: &SlotMapStore)
        requires
            store.wf(),
            old(self).sel_ws_ok(*store),
        ensures
            final(self).ws_tree@ == ws_rows(*store, old(self).ws_opened@),
            final(self).todo_tree@ == todo_rows(
                *store,
                old(self).todo_opened@,
                old(self).selected_workspace,
            ),
            final(self).selected_todo == old(self).selected_todo,
            final(self).selected_workspace == old(self).selected_workspace,
            final(self).ws_opened == old(self).ws_opened,
            final(self).todo_opened == old(self).todo_opened,
            final(self).multi_selected_todos == old(self).multi_selected_todos,
            final(self).multi_selected_workspaces == old(self).multi_selected_workspaces,
    {
        proof {
            assert(vstd::std_specs::vec::spec_vec_len(&store.workspaces_map)
                == store.workspaces_map@.len());
            assert(vstd::std_specs::vec::spec_vec_len(&store.todos_map)
                == store.todos_map@.len());
        }
        let mut ws_tree: Vec<ActiveTree> = Vec::new();
        let mut i: usize = 0;
        while i < store.root_workspaces.len()
            invariant
                store.wf(),
                store.workspaces_map@.len() <= usize::MAX,
                i <= store.root_workspaces@.len(),
                ws_tree@ == ws_rows_from(*store, self.ws_opened@, store.root_workspaces@.take(
                    i as int,
                )),
            decreases store.root_workspaces@.len() - i,
        {
            let r = store.root_workspaces[i];
            proof {
                assert(ws_live(store.workspaces_map@, store.root_workspaces@[i as int] as int));
                assert(ws_bounded(
                    store.workspaces_map@,
                    store.root_workspaces@[i as int] as int,
                    store.wfuel(),
                ));
            }
            self.add_workspace_to_tree(&mut ws_tree, store, r, 0, None, Ghost(store.wfuel()));
            proof {
                lemma_ws_rows_from_snoc(
                    *store,
                    self.ws_opened@,
                    store.root_workspaces@.take(i as int),
                    store.root_workspaces@[i as int],
                );
                assert(store.root_workspaces@.take(i as int).push(store.root_workspaces@[i as int])
                    =~= store.root_workspaces@.take(i as int + 1));
            }
            i += 1;
        }
        proof {
            assert(store.root_workspaces@.take(i as int) =~= store.root_workspaces@);
        }
        let mut todo_tree: Vec<ActiveTree> = Vec::new();
        match self.selected_workspace {
            None => {},
            Some(w) => {
                let slot = &store.workspaces_map[w];
                let item = slot.as_ref().unwrap();
                let mut n: usize = 0;
                while n < item.todos.len()
                    invariant
                        store.wf(),
                        store.todos_map@.len() <= usize::MAX,
                        self.sel_ws_ok(*store),
                        self.selected_workspace == Some(w),
                        *item == ws_at(store.workspaces_map@, w as int),
                        n <= item.todos@.len(),
                        todo_tree@ == todo_rows_from(*store, self.todo_opened@, item.todos@.take(
                            n as int,
                        )),
                    decreases item.todos@.len() - n,
                {
                    let t = item.todos[n];
                    proof {
                        assert(todo_live(store.todos_map@, ws_at(
                            store.workspaces_map@,
                            w as int,
                        ).todos@[n as int] as int));
                        assert(todo_bounded(
                            store.todos_map@,
                            ws_at(store.workspaces_map@, w as int).todos@[n as int] as int,
                            store.tfuel(),
                        ));
                    }
                    self.add_todo_to_tree(&mut todo_tree, store, t, 0, None, Ghost(store.tfuel()));
                    proof {
                        lemma_todo_rows_from_snoc(
                            *store,
                            self.todo_opened@,
                            item.todos@.take(n as int),
                            item.todos@[n as int],
                        );
                        assert(item.todos@.take(n as int).push(item.todos@[n as int])
                            =~= item.todos@.take(n as int + 1));
                    }
                    n += 1;
                }
                proof {
                    assert(item.todos@.take(n as int) =~= item.todos@);
                }
            },
        }
        self.ws_tree = ws_tree;
        self.todo_tree = todo_tree;
    }
}

/// Appending one more root to the listed roots appends its rows.
pub proof fn lemma_ws_rows_from_snoc(s: SlotMapStore, opened: Seq<usize>, ks: Seq<usize>, x: usize)
    ensures
        ws_rows_from(s, opened, ks.push(x)) == ws_rows_from(s, opened, ks) + flat_ws(
            s.workspaces_map@,
            opened,
            x,
            None,
            0,
            s.wfuel(),
        ),
    decreases ks.len(),
{
    if ks.len() == 0 {
        assert(ks.push(x).drop_first() =~= Seq::<usize>::empty());
        assert(ks.push(x)[0] == x);
        assert(ws_rows_from(s, opened, ks.push(x).drop_first()) =~= Seq::<ActiveTree>::empty());
        assert(ws_rows_from(s, opened, ks.push(x)) =~= ws_rows_from(s, opened, ks) + flat_ws(
            s.workspaces_map@,
            opened,
            x,
            None,
            0,
            s.wfuel(),
        ));
    } else {
        lemma_ws_rows_from_snoc(s, opened, ks.drop_first(), x);
        assert(ks.push(x).drop_first() =~= ks.drop_first().push(x));
        assert(ks.push(x)[0] == ks[0]);
        assert(ws_rows_from(s, opened, ks.push(x).drop_first()) == ws_rows_from(
            s,
            opened,
            ks.drop_first(),
        ) + flat_ws(s.workspaces_map@, opened, x, None, 0, s.wfuel()));
        assert(ws_rows_from(s, opened, ks.push(x)) =~= ws_rows_from(s, opened, ks) + flat_ws(
            s.workspaces_map@,
            opened,
            x,
            None,
            0,
            s.wfuel(),
        ));
    }
}

/// Appending one more top-level todo to the listed ones appends its rows.
pub proof fn lemma_todo_rows_from_snoc(
    s: SlotMapStore,
    opened: Seq<usize>,
    ks: Seq<usize>,
    x: usize,
)
    ensures
        todo_rows_from(s, opened, ks.push(x)) == todo_rows_from(s, opened, ks) + flat_todo(
            s.todos_map@,
            opened,
            x,
            None,
            0,
            s.tfuel(),
        ),
    decreases ks.len(),
{
    if ks.len() == 0 {
        assert(ks.push(x).drop_first() =~= Seq::<usize>::empty());
        assert(ks.push(x)[0] == x);
        assert(todo_rows_from(s, opened, ks.push(x).drop_first()) =~= Seq::<ActiveTree>::empty());
        assert(todo_rows_from(s, opened, ks.push(x)) =~= todo_rows_from(s, opened, ks) + flat_todo(
            s.todos_map@,
            opened,
            x,
            None,
            0,
            s.tfuel(),
        ));
    } else {
        lemma_todo_rows_from_snoc(s, opened, ks.drop_first(), x);
        assert(ks.push(x).drop_first() =~= ks.drop_first().push(x));
        assert(ks.push(x)[0] == ks[0]);
        assert(todo_rows_from(s, opened, ks.push(x).drop_first()) == todo_rows_from(
            s,
            opened,
            ks.drop_first(),
        ) + flat_todo(s.todos_map@, opened, x, None, 0, s.tfuel()));
        assert(todo_rows_from(s, opened, ks.push(x)) =~= todo_rows_from(s, opened, ks) + flat_todo(
            s.todos_map@,
            opened,
            x,
            None,
            0,
            s.tfuel(),
        ));
    }
}

/// The flattening reads links alone: stores with the same links flatten the
/// same.
pub proof fn lemma_flat_todo_links(
    tm1: Seq<Option<crate::arena::TodoItem>>,
    tm2: Seq<Option<crate::arena::TodoItem>>,
    opened: Seq<usize>,
    k: usize,
    parent: Option<usize>,
    depth: usize,
    fuel: nat,
)
    requires
        todo_links_same(tm1, tm2),
    ensures
        flat_todo(tm2, opened, k, parent, depth, fuel) == flat_todo(
            tm1,
            opened,
            k,
            parent,
            depth,
            fuel,
        ),
    decreases fuel, 0nat,
{
    if fuel > 0 && todo_live(tm1, k as int) {
        lemma_flat_todo_list_links(
            tm1,
            tm2,
            opened,
            todo_at(tm1, k as int).children@,
            k,
            ((depth + 1) as usize),
            (fuel - 1) as nat,
        );
        assert(todo_at(tm2, k as int).children@ == todo_at(tm1, k as int).children@);
    }
}

/// As `lemma_flat_todo_links`, over a list of subtrees.
pub proof fn lemma_flat_todo_list_links(
    tm1: Seq<Option<crate::arena::TodoItem>>,
    tm2: Seq<Option<crate::arena::TodoItem>>,
    opened: Seq<usize>,
    ks: Seq<usize>,
    parent: usize,
    depth: usize,
    fuel: nat,
)
    requires
        todo_links_same(tm1, tm2),
    ensures
        flat_todo_list(tm2, opened, ks, parent, depth, fuel) == flat_todo_list(
            tm1,
            opened,
            ks,
            parent,
            depth,
            fuel,
        ),
    decreases fuel, ks.len(),
{
    if ks.len() > 0 {
        lemma_flat_todo_links(tm1, tm2, opened, ks[0], Some(parent), depth, fuel);
        lemma_flat_todo_list_links(tm1, tm2, opened, ks.drop_first(), parent, depth, fuel);
    }
}

/// As `lemma_flat_todo_links`, for workspace subtrees.
pub proof fn lemma_flat_ws_links(
    wm1: Seq<Option<crate::arena::WorkspaceItem>>,
    wm2: Seq<Option<crate::arena::WorkspaceItem>>,
    opened: Seq<usize>,
    k: usize,
    parent: Option<usize>,
    depth: usize,
    fuel: nat,
)
    requires
        ws_children_same(wm1, wm2),
    ensures
        flat_ws(wm2, opened, k, parent, depth, fuel) == flat_ws(
            wm1,
            opened,
            k,
            parent,
            depth,
            fuel,
        ),
    decreases fuel, 0nat,
{
    if fuel > 0 && ws_live(wm1, k as int) {
        lemma_flat_ws_list_links(
            wm1,
            wm2,
            opened,
            ws_at(wm1, k as int).children@,
            k,
            ((depth + 1) as usize),
            (fuel - 1) as nat,
        );
        assert(ws_at(wm2, k as int).children@ == ws_at(wm1, k as int).children@);
    }
}

/// As `lemma_flat_ws_links`, over a list of subtrees.
pub proof fn lemma_flat_ws_list_links(
    wm1: Seq<Option<crate::arena::WorkspaceItem>>,
    wm2: Seq<Option<crate::arena::WorkspaceItem>>,
    opened: Seq<usize>,
    ks: Seq<usize>,
    parent: usize,
    depth: usize,
    fuel: nat,
)
    requires
        ws_children_same(wm1, wm2),
    ensures
        flat_ws_list(wm2, opened, ks, parent, depth, fuel) == flat_ws_list(
            wm1,
            opened,
            ks,
            parent,
            depth,
            fuel,
        ),
    decreases fuel, ks.len(),
{
    if ks.len() > 0 {
        lemma_flat_ws_links(wm1, wm2, opened, ks[0], Some(parent), depth, fuel);
        lemma_flat_ws_list_links(wm1, wm2, opened, ks.drop_first(), parent, depth, fuel);
    }
}

/// Stores with the same workspace links show the same workspace rows.
pub proof fn lemma_ws_rows_links(s1: SlotMapStore, s2: SlotMapStore, opened: Seq<usize>)
    requires
        ws_children_same(s1.workspaces_map@, s2.workspaces_map@),
        s2.root_workspaces@ == s1.root_workspaces@,
    ensures
        ws_rows(s2, opened) == ws_rows(s1, opened),
{
    lemma_ws_rows_from_links(s1, s2, opened, s1.root_workspaces@);
}

/// As `lemma_ws_rows_links`, for listed roots.
pub proof fn lemma_ws_rows_from_links(
    s1: SlotMapStore,
    s2: SlotMapStore,
    opened: Seq<usize>,
    roots: Seq<usize>,
)
    requires
        ws_children_same(s1.workspaces_map@, s2.workspaces_map@),
    ensures
        ws_rows_from(s2, opened, roots) == ws_rows_from(s1, opened, roots),
    decreases roots.len(),
{
    if roots.len() > 0 {
        lemma_flat_ws_links(
            s1.workspaces_map@,
            s2.workspaces_map@,
            opened,
            roots[0],
            None,
            0,
            s1.wfuel(),
        );
        lemma_ws_rows_from_links(s1, s2, opened, roots.drop_first());
    }
}

/// Stores with the same todo links and the same todos under the selected
/// workspace show the same todo rows.
pub proof fn lemma_todo_rows_links(
    s1: SlotMapStore,
    s2: SlotMapStore,
    opened: Seq<usize>,
    sel: Option<usize>,
)
    requires
        todo_links_same(s1.todos_map@, s2.todos_map@),
        match sel {
            Some(w) => ws_at(s2.workspaces_map@, w as int).todos@ == ws_at(
                s1.workspaces_map@,
                w as int,
            ).todos@,
            None => true,
        },
    ensures
        todo_rows(s2, opened, sel) == todo_rows(s1, opened, sel),
{
    match sel {
        None => {},
        Some(w) => {
            lemma_todo_rows_from_links(s1, s2, opened, ws_at(s1.workspaces_map@, w as int).todos@);
        },
    }
}

/// As `lemma_todo_rows_links`, for listed top-level todos.
pub proof fn lemma_todo_rows_from_links(
    s1: SlotMapStore,
    s2: SlotMapStore,
    opened: Seq<usize>,
    ks: Seq<usize>,
)
    requires
        todo_links_same(s1.todos_map@, s2.todos_map@),
    ensures
        todo_rows_from(s2, opened, ks) == todo_rows_from(s1, opened, ks),
    decreases ks.len(),
{
    if ks.len() > 0 {
        lemma_flat_todo_links(s1.todos_map@, s2.todos_map@, opened, ks[0], None, 0, s1.tfuel());
        lemma_todo_rows_from_links(s1, s2, opened, ks.drop_first());
    }
}

/// How many entities the todo subtree under `k` shows: the node itself and,
/// when it is opened, every visible entity below it.
pub open spec fn visible_todo_count(
    tm: Seq<Option<crate::arena::TodoItem>>,
    opened: Seq<usize>,
    k: usize,
    fuel: nat,
) -> nat
    decreases fuel, 0nat,
{
    if fuel == 0 || !todo_live(tm, k as int) {
        0
    } else {
        1 + if opened.contains(k) {
            visible_todo_count_list(
                tm,
                opened,
                todo_at(tm, k as int).children@,
                (fuel - 1) as nat,
            )
        } else {
            0
        }
    }
}

/// As `visible_todo_count`, over a list of subtrees.
pub open spec fn visible_todo_count_list(
    tm: Seq<Option<crate::arena::TodoItem>>,
    opened: Seq<usize>,
    ks: Seq<usize>,
    fuel: nat,
) -> nat
    decreases fuel, ks.len(),
{
    if ks.len() == 0 {
        0
    } else {
        visible_todo_count(tm, opened, ks[0], fuel) + visible_todo_count_list(
            tm,
            opened,
            ks.drop_first(),
            fuel,
        )
    }
}

/// As `visible_todo_count`, for a workspace subtree.
pub open spec fn visible_ws_count(
    wm: Seq<Option<crate::arena::WorkspaceItem>>,
    opened: Seq<usize>,
    k: usize,
    fuel: nat,
) -> nat
    decreases fuel, 0nat,
{
    if fuel == 0 || !ws_live(wm, k as int) {
        0
    } else {
        1 + if opened.contains(k) {
            visible_ws_count_list(wm, opened, ws_at(wm, k as int).children@, (fuel - 1) as nat)
        } else {
            0
        }
    }
}

/// As `visible_ws_count`, over a list of subtrees.
pub open spec fn visible_ws_count_list(
    wm: Seq<Option<crate::arena::WorkspaceItem>>,
    opened: Seq<usize>,
    ks: Seq<usize>,
    fuel: nat,
) -> nat
    decreases fuel, ks.len(),
{
    if ks.len() == 0 {
        0
    } else {
        visible_ws_count(wm, opened, ks[0], fuel) + visible_ws_count_list(
            wm,
            opened,
            ks.drop_first(),
            fuel,
        )
    }
}

/// The materializer's flattened length equals the count of visible reachable
/// entities of the subtree, whatever sequence of inserts and deletes
/// produced the store.
pub proof fn lemma_flat_todo_len(
    tm: Seq<Option<crate::arena::TodoItem>>,
    opened: Seq<usize>,
    k: usize,
    parent: Option<usize>,
    depth: usize,
    fuel: nat,
)
    ensures
        flat_todo(tm, opened, k, parent, depth, fuel).len() == visible_todo_count(
            tm,
            opened,
            k,
            fuel,
        ),
    decreases fuel, 0nat,
{
    if fuel > 0 && todo_live(tm, k as int) && opened.contains(k) {
        lemma_flat_todo_list_len(
            tm,
            opened,
            todo_at(tm, k as int).children@,
            k,
            ((depth + 1) as usize),
            (fuel - 1) as nat,
        );
    }
}

/// As `lemma_flat_todo_len`, over a list of subtrees.
pub proof fn lemma_flat_todo_list_len(
    tm: Seq<Option<crate::arena::TodoItem>>,
    opened: Seq<usize>,
    ks: Seq<usize>,
    parent: usize,
    depth: usize,
    fuel: nat,
)
    ensures
        flat_todo_list(tm, opened, ks, parent, depth, fuel).len() == visible_todo_count_list(
            tm,
            opened,
            ks,
            fuel,
        ),
    decreases fuel, ks.len(),
{
    if ks.len() > 0 {
        lemma_flat_todo_len(tm, opened, ks[0], Some(parent), depth, fuel);
        lemma_flat_todo_list_len(tm, opened, ks.drop_first(), parent, depth, fuel);
    }
}

/// As `lemma_flat_todo_len`, for a workspace subtree.
pub proof fn lemma_flat_ws_len(
    wm: Seq<Option<crate::arena::WorkspaceItem>>,
    opened: Seq<usize>,
    k: usize,
    parent: Option<usize>,
    depth: usize,
    fuel: nat,
)
    ensures
        flat_ws(wm, opened, k, parent, depth, fuel).len() == visible_ws_count(wm, opened, k, fuel),
    decreases fuel, 0nat,
{
    if fuel > 0 && ws_live(wm, k as int) && opened.contains(k) {
        lemma_flat_ws_list_len(
            wm,
            opened,
            ws_at(wm, k as int).children@,
            k,
            ((depth + 1) as usize),
            (fuel - 1) as nat,
        );
    }
}

/// As `lemma_flat_ws_len`, over a list of subtrees.
pub proof fn lemma_flat_ws_list_len(
    wm: Seq<Option<crate::arena::WorkspaceItem>>,
    opened: Seq<usize>,
    ks: Seq<usize>,
    parent: usize,
    depth: usize,
    fuel: nat,
)
    ensures
        flat_ws_list(wm, opened, ks, parent, depth, fuel).len() == visible_ws_count_list(
            wm,
            opened,
            ks,
            fuel,
        ),
    decreases fuel, ks.len(),
{
    if ks.len() > 0 {
        lemma_flat_ws_len(wm, opened, ks[0], Some(parent), depth, fuel);
        lemma_flat_ws_list_len(wm, opened, ks.drop_first(), parent, depth, fuel);
    }
}

/// The law for both panes: after any sequence of mutations the flattened
/// trees are exactly as long as the counts of visible entities they reach.
pub proof fn lemma_rows_len(s: SlotMapStore, opened_ws: Seq<usize>, opened_td: Seq<usize>, sel: Option<usize>)
    ensures
        ws_rows(s, opened_ws).len() == visible_ws_count_list(
            s.workspaces_map@,
            opened_ws,
            s.root_workspaces@,
            s.wfuel(),
        ),
        todo_rows(s, opened_td, sel).len() == match sel {
            None => 0,
            Some(w) => visible_todo_count_list(
                s.todos_map@,
                opened_td,
                ws_at(s.workspaces_map@, w as int).todos@,
                s.tfuel(),
            ),
        },
{
    lemma_ws_rows_from_len(s, opened_ws, s.root_workspaces@);
    match sel {
        None => {},
        Some(w) => {
            lemma_todo_rows_from_len(s, opened_td, ws_at(s.workspaces_map@, w as int).todos@);
        },
    }
}

/// As `lemma_rows_len`, for the listed roots.
pub proof fn lemma_ws_rows_from_len(s: SlotMapStore, opened: Seq<usize>, ks: Seq<usize>)
    ensures
        ws_rows_from(s, opened, ks).len() == visible_ws_count_list(
            s.workspaces_map@,
            opened,
            ks,
            s.wfuel(),
        ),
    decreases ks.len(),
{
    if ks.len() > 0 {
        lemma_flat_ws_len(s.workspaces_map@, opened, ks[0], None, 0, s.wfuel());
        lemma_ws_rows_from_len(s, opened, ks.drop_first());
    }
}

/// As `lemma_rows_len`, for the listed top-level todos.
pub proof fn lemma_todo_rows_from_len(s: SlotMapStore, opened: Seq<usize>, ks: Seq<usize>)
    ensures
        todo_rows_from(s, opened, ks).len() == visible_todo_count_list(
            s.todos_map@,
            opened,
            ks,
            s.tfuel(),
        ),
    decreases ks.len(),
{
    if ks.len() > 0 {
        lemma_flat_todo_len(s.todos_map@, opened, ks[0], None, 0, s.tfuel());
        lemma_todo_rows_from_len(s, opened, ks.drop_first());
    }
}

} // verus!
