//! The command engine: the state of the running application and one method
//! per abstract command. Every method keeps the store consistent and the two
//! flattened trees in step with it, recomputing them after each mutation.
//! Two mirrored families of methods exist, one over the workspace forest and
//! one over the todo forest of the selected workspace.

use vstd::prelude::*;

use crate::arena::{SlotMapStore, TodoItem, WorkspaceItem};
use crate::arena::{lemma_todo_v_extend, lemma_todo_v_fuel, lemma_wf_links, todo_at, todo_bounded, todo_links_same, todo_live};
use crate::arena::{ws_at, ws_bounded, ws_children_same, ws_links_same, ws_live};
use crate::store::{Store, TodoV};
use crate::tree::{vec_contains, ActiveTree, SlotTreeState};
use crate::tree::{todo_rows, ws_rows};
use crate::arena::{lemma_ws_v_fuel, todo_v};

verus! {

/// Which of the two panes the keyboard drives.
#[derive(PartialEq, Eq, Structural, Clone, Copy, Debug)]
pub enum Screen {
    Workspaces,
    Todos,
}

/// Whether a sort is armed, and on which selection it was armed.
#[derive(PartialEq, Eq, Structural, Clone, Copy, Debug)]
pub enum SortingItem {
    Workspace(usize),
    Todo(usize),
    Idle,
}

/// The keys a sort may order a container by.
#[derive(PartialEq, Eq, Structural, Clone, Copy)]
pub enum SortKey {
    Description,
    Pending,
    Urgency,
}

/// The handles of the rows, in row order.
pub open spec fn row_keys(rows: Seq<ActiveTree>) -> Seq<usize> {
    Seq::new(rows.len(), |i: int| rows[i].key)
}

/// The whole state of the application that the commands act on.
pub struct App {
    pub running: bool,
    pub slot_map_store: SlotMapStore,
    pub slot_tree_state: SlotTreeState,
    pub input: String,
    pub new_editing_id: Option<usize>,
    pub active_screen: Screen,
    pub sorting: SortingItem,
    pub clipboard_todos: Vec<usize>,
    pub clipboard_workspaces: Vec<usize>,
    pub search_mode: bool,
    pub search_str: String,
    pub search_matches: Vec<usize>,
    pub current_match_index: usize,
}

impl App {
    /// A consistent application state: a consistent store, trees that are
    /// its current flattening, selections and armed sorts that point at
    /// visible rows, clipboards whose handles head bounded subtrees, and an
    /// edit target that is live in the pane being edited.
    pub open spec fn wf(self) -> bool {
        let s = self.slot_map_store;
        let t = self.slot_tree_state;
        &&& s.wf()
        &&& t.sel_ws_ok(s)
        &&& t.ws_tree@ == ws_rows(s, t.ws_opened@)
        &&& t.todo_tree@ == todo_rows(s, t.todo_opened@, t.selected_workspace)
        &&& match t.selected_todo {
            Some(k) => todo_live(s.todos_map@, k as int),
            None => true,
        }
        &&& forall|i: int|
            0 <= i < self.clipboard_todos@.len() ==> todo_live(
                s.todos_map@,
                #[trigger] self.clipboard_todos@[i] as int,
            )
        &&& forall|i: int|
            0 <= i < self.clipboard_workspaces@.len() ==> ws_live(
                s.workspaces_map@,
                #[trigger] self.clipboard_workspaces@[i] as int,
            )
        &&& forall|i: int|
            0 <= i < t.multi_selected_todos@.len() ==> todo_live(
                s.todos_map@,
                #[trigger] t.multi_selected_todos@[i] as int,
            )
        &&& forall|i: int|
            0 <= i < t.multi_selected_workspaces@.len() ==> ws_live(
                s.workspaces_map@,
                #[trigger] t.multi_selected_workspaces@[i] as int,
            )
        &&& match self.new_editing_id {
            Some(id) => match self.active_screen {
                Screen::Workspaces => ws_live(s.workspaces_map@, id as int),
                Screen::Todos => todo_live(s.todos_map@, id as int),
            },
            None => true,
        }
        &&& (self.search_matches@.len() > 0 ==> self.current_match_index
            < self.search_matches@.len())
        &&& match self.sorting {
            SortingItem::Workspace(k) => self.active_screen == Screen::Workspaces && ws_live(
                s.workspaces_map@,
                k as int,
            ),
            SortingItem::Todo(k) => self.active_screen == Screen::Todos && todo_live(
                s.todos_map@,
                k as int,
            ),
            SortingItem::Idle => true,
        }
    }

    /// Start from a loaded document, which must obey the data model —
    /// urgency never exceeds three. Arenas are built afresh; nothing is
    /// selected, nothing opened, normal mode, the workspace pane active.
    pub fn new(store: Store) -> (r: App)
        requires
            crate::store::wss_urgency_ok(store.model()),
        ensures
            r.wf(),
            !r.running,
            r.slot_map_store.model() == store.model(),
            r.slot_tree_state.selected_workspace is None,
            r.slot_tree_state.selected_todo is None,
            r.active_screen == Screen::Workspaces,
            r.new_editing_id is None,
            r.sorting == SortingItem::Idle,
            !r.search_mode,
            r.clipboard_todos@.len() == 0,
            r.clipboard_workspaces@.len() == 0,
            r.slot_tree_state.ws_opened@ == Seq::<usize>::empty(),
            r.slot_tree_state.todo_opened@ == Seq::<usize>::empty(),
            r.slot_tree_state.multi_selected_todos@ == Seq::<usize>::empty(),
            r.slot_tree_state.multi_selected_workspaces@ == Seq::<usize>::empty(),
            r.input@ == Seq::<char>::empty(),
            r.search_str@ == Seq::<char>::empty(),
            r.search_matches@ == Seq::<usize>::empty(),
            r.current_match_index == 0,
    {
        let slot_map_store = SlotMapStore::from_store(&store);
        let mut slot_tree_state = SlotTreeState::default();
        slot_tree_state.update_workspace_tree_state(&slot_map_store);
        App {
            running: false,
            slot_map_store,
            slot_tree_state,
            input: String::new(),
            new_editing_id: None,
            active_screen: Screen::Workspaces,
            sorting: SortingItem::Idle,
            clipboard_todos: Vec::new(),
            clipboard_workspaces: Vec::new(),
            search_mode: false,
            search_str: String::new(),
            search_matches: Vec::new(),
            current_match_index: 0,
        }
    }

    /// Leave the main loop: only the running flag changes.
    pub fn quit(&mut self)
        requires
            old(self).wf(),
        ensures
            final(self).wf(),
            *final(self) == (App { running: false, ..*old(self) }),
    {
        self.running = false;
    }

    /// The current document, in nested form.
    pub fn get_store(&self) -> (r: Store)
        requires
            self.wf(),
        ensures
            r.model() == self.slot_map_store.model(),
    {
        self.slot_map_store.get_store()
    }
}

/// The first row of `tree` carrying `key`, if any.
pub fn find_row(tree: &Vec<ActiveTree>, key: usize) -> (r: Option<usize>)
    ensures
        match r {
            Some(j) => j < tree@.len() && tree@[j as int].key == key && forall|i: int|
                0 <= i < j ==> tree@[i].key != key,
            None => !row_keys(tree@).contains(key),
        },
{
    let mut i: usize = 0;
    while i < tree.len()
        invariant
            i <= tree@.len(),
            forall|j: int| 0 <= j < i ==> tree@[j].key != key,
        decreases tree@.len() - i,
    {
        if tree[i].key == key {
            return Some(i);
        }
        i += 1;
    }
    proof {
        assert forall|j: int| 0 <= j < row_keys(tree@).len() implies row_keys(tree@)[j] != key by {
            assert(tree@[j].key != key);
        }
        assert(!row_keys(tree@).contains(key));
    }
    None
}

impl App {
    /// Move the workspace selection one visible row down; from nowhere it
    /// lands on the first row; at the last row it stays. The todo selection
    /// resets, and — when the workspace under the cursor changed — so does
    /// the todo multi-selection. The trees are recomputed for the new
    /// selection.
    pub fn move_workspace_down(&mut self)
        requires
            old(self).wf(),
            old(self).active_screen == Screen::Workspaces,
        ensures
            final(self).wf(),
            final(self).slot_map_store == old(self).slot_map_store,
            final(self).slot_tree_state.selected_workspace == moved_down(
                old(self).slot_tree_state.ws_tree@,
                old(self).slot_tree_state.selected_workspace,
            ),
            final(self).slot_tree_state.selected_todo is None,
            final(self).slot_tree_state.ws_opened == old(self).slot_tree_state.ws_opened,
            final(self).slot_tree_state.todo_opened == old(self).slot_tree_state.todo_opened,
            final(self).slot_tree_state.multi_selected_workspaces == old(
                self,
            ).slot_tree_state.multi_selected_workspaces,
            final(self).slot_tree_state.multi_selected_todos@ == if final(self).slot_tree_state.selected_workspace
                == old(self).slot_tree_state.selected_workspace {
                old(self).slot_tree_state.multi_selected_todos@
            } else {
                Seq::<usize>::empty()
            },
            unchanged_modes(*old(self), *final(self)),
    {
        let old_ws = self.slot_tree_state.selected_workspace;
        match self.slot_tree_state.selected_workspace {
            Some(selected) => {
                let ix = find_row(&self.slot_tree_state.ws_tree, selected);
                match ix {
                    Some(index) => {
                        proof {
                            lemma_first_index_agrees(
                                self.slot_tree_state.ws_tree@,
                                selected,
                                index as int,
                            );
                        }
                        let n = self.slot_tree_state.ws_tree.len();
                        if index < n - 1 {
                            let k = self.slot_tree_state.ws_tree[index + 1].key;
                            proof {
                                assert(row_keys(self.slot_tree_state.ws_tree@).contains(k)) by {
                                    assert(row_keys(self.slot_tree_state.ws_tree@)[index + 1] == k);
                                }
                                lemma_ws_tree_member_live(
                                    self.slot_map_store,
                                    self.slot_tree_state.ws_opened@,
                                    k,
                                );
                            }
                            self.slot_tree_state.selected_workspace = Some(k);
                        }
                    },
                    None => {},
                }
            },
            None => {
                if self.slot_tree_state.ws_tree.len() > 0 {
                    let k = self.slot_tree_state.ws_tree[0].key;
                    proof {
                        assert(row_keys(self.slot_tree_state.ws_tree@).contains(k)) by {
                            assert(row_keys(self.slot_tree_state.ws_tree@)[0] == k);
                        }
                        lemma_ws_tree_member_live(
                            self.slot_map_store,
                            self.slot_tree_state.ws_opened@,
                            k,
                        );
                    }
                    self.slot_tree_state.selected_workspace = Some(k);
                }
            },
        }
        self.slot_tree_state.selected_todo = None;
        let changed = match (old_ws, self.slot_tree_state.selected_workspace) {
            (Some(a), Some(b)) => a != b,
            (None, None) => false,
            _ => true,
        };
        if changed {
            self.clear_multi_selection_when_workspace_changes();
        }
        self.slot_tree_state.update_workspace_tree_state(&self.slot_map_store);
    }

    /// Move the workspace selection one visible row up; at the first row it
    /// stays; from nowhere it stays nowhere. Resets mirror `move_workspace_down`.
    pub fn move_workspace_up(&mut self)
        requires
            old(self).wf(),
            old(self).active_screen == Screen::Workspaces,
        ensures
            final(self).wf(),
            final(self).slot_map_store == old(self).slot_map_store,
            final(self).slot_tree_state.selected_workspace == moved_up(
                old(self).slot_tree_state.ws_tree@,
                old(self).slot_tree_state.selected_workspace,
            ),
            final(self).slot_tree_state.selected_todo is None,
            final(self).slot_tree_state.ws_opened == old(self).slot_tree_state.ws_opened,
            final(self).slot_tree_state.todo_opened == old(self).slot_tree_state.todo_opened,
            final(self).slot_tree_state.multi_selected_workspaces == old(
                self,
            ).slot_tree_state.multi_selected_workspaces,
            final(self).slot_tree_state.multi_selected_todos@ == if final(self).slot_tree_state.selected_workspace
                == old(self).slot_tree_state.selected_workspace {
                old(self).slot_tree_state.multi_selected_todos@
            } else {
                Seq::<usize>::empty()
            },
            unchanged_modes(*old(self), *final(self)),
    {
        let old_ws = self.slot_tree_state.selected_workspace;
        match self.slot_tree_state.selected_workspace {
            Some(selected) => {
                let ix = find_row(&self.slot_tree_state.ws_tree, selected);
                match ix {
                    Some(index) => {
                        proof {
                            lemma_first_index_agrees(
                                self.slot_tree_state.ws_tree@,
                                selected,
                                index as int,
                            );
                        }
                        if index > 0 {
                            let k = self.slot_tree_state.ws_tree[index - 1].key;
                            proof {
                                assert(row_keys(self.slot_tree_state.ws_tree@).contains(k)) by {
                                    assert(row_keys(self.slot_tree_state.ws_tree@)[index - 1] == k);
                                }
                                lemma_ws_tree_member_live(
                                    self.slot_map_store,
                                    self.slot_tree_state.ws_opened@,
                                    k,
                                );
                            }
                            self.slot_tree_state.selected_workspace = Some(k);
                        }
                    },
                    None => {},
                }
            },
            None => {},
        }
        self.slot_tree_state.selected_todo = None;
        let changed = match (old_ws, self.slot_tree_state.selected_workspace) {
            (Some(a), Some(b)) => a != b,
            (None, None) => false,
            _ => true,
        };
        if changed {
            self.clear_multi_selection_when_workspace_changes();
        }
        self.slot_tree_state.update_workspace_tree_state(&self.slot_map_store);
    }

    /// Move the todo selection one visible row down; from nowhere it lands on
    /// the first row; at the last row it stays.
    pub fn move_todo_down(&mut self)
        requires
            old(self).wf(),
        ensures
            final(self).wf(),
            final(self).slot_map_store == old(self).slot_map_store,
            final(self).slot_tree_state == (SlotTreeState {
                selected_todo: moved_down(
                    old(self).slot_tree_state.todo_tree@,
                    old(self).slot_tree_state.selected_todo,
                ),
                ..old(self).slot_tree_state
            }),
            unchanged_modes(*old(self), *final(self)),
    {
        match self.slot_tree_state.selected_todo {
            Some(selected) => {
                let ix = find_row(&self.slot_tree_state.todo_tree, selected);
                match ix {
                    Some(index) => {
                        proof {
                            lemma_first_index_agrees(
                                self.slot_tree_state.todo_tree@,
                                selected,
                                index as int,
                            );
                        }
                        let n = self.slot_tree_state.todo_tree.len();
                        if index < n - 1 {
                            let k = self.slot_tree_state.todo_tree[index + 1].key;
                            proof {
                                assert(row_keys(self.slot_tree_state.todo_tree@).contains(k)) by {
                                    assert(row_keys(self.slot_tree_state.todo_tree@)[index + 1]
                                        == k);
                                }
                                lemma_todo_tree_member_live(
                                    self.slot_map_store,
                                    self.slot_tree_state.todo_opened@,
                                    self.slot_tree_state.selected_workspace,
                                    k,
                                );
                            }
                            self.slot_tree_state.selected_todo = Some(k);
                        }
                    },
                    None => {},
                }
            },
            None => {
                if self.slot_tree_state.todo_tree.len() > 0 {
                    let k = self.slot_tree_state.todo_tree[0].key;
                    proof {
                        assert(row_keys(self.slot_tree_state.todo_tree@).contains(k)) by {
                            assert(row_keys(self.slot_tree_state.todo_tree@)[0] == k);
                        }
                        lemma_todo_tree_member_live(
                            self.slot_map_store,
                            self.slot_tree_state.todo_opened@,
                            self.slot_tree_state.selected_workspace,
                            k,
                        );
                    }
                    self.slot_tree_state.selected_todo = Some(k);
                }
            },
        }
    }

    /// Move the todo selection one visible row up; at the first row it stays;
    /// from nowhere it stays nowhere.
    pub fn move_todo_up(&mut self)
        requires
            old(self).wf(),
        ensures
            final(self).wf(),
            final(self).slot_map_store == old(self).slot_map_store,
            final(self).slot_tree_state == (SlotTreeState {
                selected_todo: moved_up(
                    old(self).slot_tree_state.todo_tree@,
                    old(self).slot_tree_state.selected_todo,
                ),
                ..old(self).slot_tree_state
            }),
            unchanged_modes(*old(self), *final(self)),
    {
        match self.slot_tree_state.selected_todo {
            Some(selected) => {
                let ix = find_row(&self.slot_tree_state.todo_tree, selected);
                match ix {
                    Some(index) => {
                        proof {
                            lemma_first_index_agrees(
                                self.slot_tree_state.todo_tree@,
                                selected,
                                index as int,
                            );
                        }
                        if index > 0 {
                            let k = self.slot_tree_state.todo_tree[index - 1].key;
                            proof {
                                assert(row_keys(self.slot_tree_state.todo_tree@).contains(k)) by {
                                    assert(row_keys(self.slot_tree_state.todo_tree@)[index - 1]
                                        == k);
                                }
                                lemma_todo_tree_member_live(
                                    self.slot_map_store,
                                    self.slot_tree_state.todo_opened@,
                                    self.slot_tree_state.selected_workspace,
                                    k,
                                );
                            }
                            self.slot_tree_state.selected_todo = Some(k);
                        }
                    },
                    None => {},
                }
            },
            None => {},
        }
    }

    /// Clear the todo multi-selection; done whenever the selected workspace
    /// changes.
    pub fn clear_multi_selection_when_workspace_changes(&mut self)
        ensures
            final(self).slot_tree_state == (SlotTreeState {
                multi_selected_todos: final(self).slot_tree_state.multi_selected_todos,
                ..old(self).slot_tree_state
            }),
            final(self).slot_tree_state.multi_selected_todos@ == Seq::<usize>::empty(),
            final(self).slot_map_store == old(self).slot_map_store,
            unchanged_modes(*old(self), *final(self)),
    {
        self.slot_tree_state.multi_selected_todos = Vec::new();
        proof {
            assert(self.slot_tree_state.multi_selected_todos@ =~= Seq::<usize>::empty());
        }
    }
}

/// The selection that lies one visible row below `sel` in `rows`: the first
/// row from nowhere, unchanged at the end or when `sel` is not a row.
pub open spec fn moved_down(rows: Seq<ActiveTree>, sel: Option<usize>) -> Option<usize> {
    match sel {
        Some(k) => if row_keys(rows).contains(k) {
            let j = first_index(row_keys(rows), k);
            if j + 1 < rows.len() {
                Some(rows[j + 1].key)
            } else {
                sel
            }
        } else {
            sel
        },
        None => if rows.len() > 0 {
            Some(rows[0].key)
        } else {
            None
        },
    }
}

/// The selection that lies one visible row above `sel` in `rows`: unchanged
/// at the top, from nowhere, or when `sel` is not a row.
pub open spec fn moved_up(rows: Seq<ActiveTree>, sel: Option<usize>) -> Option<usize> {
    match sel {
        Some(k) => if row_keys(rows).contains(k) {
            let j = first_index(row_keys(rows), k);
            if j > 0 {
                Some(rows[j - 1].key)
            } else {
                sel
            }
        } else {
            sel
        },
        None => None,
    }
}

/// The exec search for a key agrees with `first_index` over the row keys.
pub proof fn lemma_first_index_agrees(rows: Seq<ActiveTree>, key: usize, j: int)
    requires
        0 <= j < rows.len(),
        rows[j].key == key,
        forall|i: int| 0 <= i < j ==> rows[i].key != key,
    ensures
        row_keys(rows).contains(key),
        first_index(row_keys(rows), key) == j,
{
    assert(row_keys(rows)[j] == key);
    lemma_first_index(row_keys(rows), key);
    let fi = first_index(row_keys(rows), key);
    if fi < j {
        assert(rows[fi].key == row_keys(rows)[fi]);
    }
    if fi > j {
        assert(row_keys(rows)[j] != key);
    }
}

/// The first position of `k` in `s`.
pub open spec fn first_index(s: Seq<usize>, k: usize) -> int
    decreases s.len(),
{
    if s.len() == 0 {
        0
    } else if s[0] == k {
        0
    } else {
        1 + first_index(s.drop_first(), k)
    }
}

/// `first_index` names the first position of a present value.
pub proof fn lemma_first_index(s: Seq<usize>, k: usize)
    requires
        s.contains(k),
    ensures
        0 <= first_index(s, k) < s.len(),
        s[first_index(s, k)] == k,
        forall|i: int| 0 <= i < first_index(s, k) ==> s[i] != k,
    decreases s.len(),
{
    if s[0] != k {
        assert(s.drop_first().contains(k)) by {
            let w = choose|w: int| 0 <= w < s.len() && s[w] == k;
            assert(s.drop_first()[w - 1] == k);
        }
        lemma_first_index(s.drop_first(), k);
        assert forall|i: int| 1 <= i < first_index(s, k) implies s[i] != k by {
            assert(s.drop_first()[i - 1] == s[i]);
        }
    }
}

/// Every row that the workspace flattening emits carries a live handle.
pub proof fn lemma_ws_rows_keys_live(
    s: SlotMapStore,
    opened: Seq<usize>,
    roots: Seq<usize>,
    j: int,
)
    requires
        0 <= j < crate::tree::ws_rows_from(s, opened, roots).len(),
    ensures
        ws_live(
            s.workspaces_map@,
            crate::tree::ws_rows_from(s, opened, roots)[j].key as int,
        ),
    decreases roots.len(),
{
    let rows = crate::tree::ws_rows_from(s, opened, roots);
    if roots.len() > 0 {
        let head = crate::tree::flat_ws(s.workspaces_map@, opened, roots[0], None, 0, s.wfuel());
        if j < head.len() {
            lemma_flat_ws_keys_live(s.workspaces_map@, opened, roots[0], None, 0, s.wfuel(), j);
        } else {
            lemma_ws_rows_keys_live(s, opened, roots.drop_first(), j - head.len());
        }
    }
}

/// Every row that `flat_ws` emits carries a live handle.
pub proof fn lemma_flat_ws_keys_live(
    wm: Seq<Option<WorkspaceItem>>,
    opened: Seq<usize>,
    k: usize,
    parent: Option<usize>,
    depth: usize,
    fuel: nat,
    j: int,
)
    requires
        0 <= j < crate::tree::flat_ws(wm, opened, k, parent, depth, fuel).len(),
    ensures
        ws_live(wm, crate::tree::flat_ws(wm, opened, k, parent, depth, fuel)[j].key as int),
    decreases fuel, 0nat,
{
    if fuel > 0 && ws_live(wm, k as int) {
        if j > 0 {
            lemma_flat_ws_list_keys_live(
                wm,
                opened,
                ws_at(wm, k as int).children@,
                k,
                ((depth + 1) as usize),
                (fuel - 1) as nat,
                j - 1,
            );
        }
    }
}

/// Every row that `flat_ws_list` emits carries a live handle.
pub proof fn lemma_flat_ws_list_keys_live(
    wm: Seq<Option<WorkspaceItem>>,
    opened: Seq<usize>,
    ks: Seq<usize>,
    parent: usize,
    depth: usize,
    fuel: nat,
    j: int,
)
    requires
        0 <= j < crate::tree::flat_ws_list(wm, opened, ks, parent, depth, fuel).len(),
    ensures
        ws_live(
            wm,
            crate::tree::flat_ws_list(wm, opened, ks, parent, depth, fuel)[j].key as int,
        ),
    decreases fuel, ks.len(),
{
    if ks.len() > 0 {
        let head = crate::tree::flat_ws(wm, opened, ks[0], Some(parent), depth, fuel);
        if j < head.len() {
            lemma_flat_ws_keys_live(wm, opened, ks[0], Some(parent), depth, fuel, j);
        } else {
            lemma_flat_ws_list_keys_live(
                wm,
                opened,
                ks.drop_first(),
                parent,
                depth,
                fuel,
                j - head.len(),
            );
        }
    }
}

/// Every row that the todo flattening emits carries a live handle.
pub proof fn lemma_flat_todo_keys_live(
    tm: Seq<Option<TodoItem>>,
    opened: Seq<usize>,
    k: usize,
    parent: Option<usize>,
    depth: usize,
    fuel: nat,
    j: int,
)
    requires
        0 <= j < crate::tree::flat_todo(tm, opened, k, parent, depth, fuel).len(),
    ensures
        todo_live(tm, crate::tree::flat_todo(tm, opened, k, parent, depth, fuel)[j].key as int),
    decreases fuel, 0nat,
{
    if fuel > 0 && todo_live(tm, k as int) {
        if j > 0 {
            lemma_flat_todo_list_keys_live(
                tm,
                opened,
                todo_at(tm, k as int).children@,
                k,
                ((depth + 1) as usize),
                (fuel - 1) as nat,
                j - 1,
            );
        }
    }
}

/// Every row that a todo list flattening emits carries a live handle.
pub proof fn lemma_flat_todo_list_keys_live(
    tm: Seq<Option<TodoItem>>,
    opened: Seq<usize>,
    ks: Seq<usize>,
    parent: usize,
    depth: usize,
    fuel: nat,
    j: int,
)
    requires
        0 <= j < crate::tree::flat_todo_list(tm, opened, ks, parent, depth, fuel).len(),
    ensures
        todo_live(
            tm,
            crate::tree::flat_todo_list(tm, opened, ks, parent, depth, fuel)[j].key as int,
        ),
    decreases fuel, ks.len(),
{
    if ks.len() > 0 {
        let head = crate::tree::flat_todo(tm, opened, ks[0], Some(parent), depth, fuel);
        if j < head.len() {
            lemma_flat_todo_keys_live(tm, opened, ks[0], Some(parent), depth, fuel, j);
        } else {
            lemma_flat_todo_list_keys_live(
                tm,
                opened,
                ks.drop_first(),
                parent,
                depth,
                fuel,
                j - head.len(),
            );
        }
    }
}

/// Every row of the todo pane carries a live handle.
pub proof fn lemma_todo_rows_keys_live(s: SlotMapStore, opened: Seq<usize>, ks: Seq<usize>, j: int)
    requires
        0 <= j < crate::tree::todo_rows_from(s, opened, ks).len(),
    ensures
        todo_live(s.todos_map@, crate::tree::todo_rows_from(s, opened, ks)[j].key as int),
    decreases ks.len(),
{
    if ks.len() > 0 {
        let head = crate::tree::flat_todo(s.todos_map@, opened, ks[0], None, 0, s.tfuel());
        if j < head.len() {
            lemma_flat_todo_keys_live(s.todos_map@, opened, ks[0], None, 0, s.tfuel(), j);
        } else {
            lemma_todo_rows_keys_live(s, opened, ks.drop_first(), j - head.len());
        }
    }
}

/// A member of the visible workspace rows is a live handle.
pub proof fn lemma_ws_tree_member_live(s: SlotMapStore, opened: Seq<usize>, x: usize)
    requires
        row_keys(ws_rows(s, opened)).contains(x),
    ensures
        ws_live(s.workspaces_map@, x as int),
{
    let rows = ws_rows(s, opened);
    let j = choose|j: int| 0 <= j < row_keys(rows).len() && row_keys(rows)[j] == x;
    lemma_ws_rows_keys_live(s, opened, s.root_workspaces@, j);
}

/// A member of the visible todo rows is a live handle.
pub proof fn lemma_todo_tree_member_live(
    s: SlotMapStore,
    opened: Seq<usize>,
    sel: Option<usize>,
    x: usize,
)
    requires
        row_keys(todo_rows(s, opened, sel)).contains(x),
    ensures
        todo_live(s.todos_map@, x as int),
{
    match sel {
        None => {},
        Some(w) => {
            let rows = todo_rows(s, opened, sel);
            let j = choose|j: int| 0 <= j < row_keys(rows).len() && row_keys(rows)[j] == x;
            lemma_todo_rows_keys_live(s, opened, ws_at(s.workspaces_map@, w as int).todos@, j);
        },
    }
}

/// A copy of a handle list.
pub fn copy_keys(v: &Vec<usize>) -> (r: Vec<usize>)
    ensures
        r@ == v@,
{
    let mut r: Vec<usize> = Vec::new();
    let mut i: usize = 0;
    while i < v.len()
        invariant
            i <= v@.len(),
            r@ == v@.take(i as int),
        decreases v@.len() - i,
    {
        r.push(v[i]);
        proof {
            assert(v@.take(i as int).push(v@[i as int]) =~= v@.take(i as int + 1));
        }
        i += 1;
    }
    proof {
        assert(v@.take(i as int) =~= v@);
    }
    r
}

/// `v` without any occurrence of `k`, order otherwise kept.
pub fn remove_key(v: &Vec<usize>, k: usize) -> (r: Vec<usize>)
    ensures
        r@ == v@.filter(|y: usize| y != k),
{
    let mut r: Vec<usize> = Vec::new();
    let mut i: usize = 0;
    while i < v.len()
        invariant
            i <= v@.len(),
            r@ == v@.take(i as int).filter(|y: usize| y != k),
        decreases v@.len() - i,
    {
        proof {
            assert(v@.take(i as int + 1).drop_last() =~= v@.take(i as int));
            assert(v@.take(i as int + 1).last() == v@[i as int]);
            reveal_with_fuel(Seq::filter, 2);
        }
        if v[i] != k {
            r.push(v[i]);
        }
        i += 1;
    }
    proof {
        assert(v@.take(i as int) =~= v@);
    }
    r
}

impl App {
    /// Mark the selected workspace opened, so that its children are visible;
    /// nothing happens with no selection. The todo selection resets.
    pub fn expand_workspace(&mut self)
        requires
            old(self).wf(),
            old(self).active_screen == Screen::Workspaces,
            old(self).sorting == SortingItem::Idle,
        ensures
            final(self).wf(),
            final(self).slot_map_store == old(self).slot_map_store,
            final(self).slot_tree_state.ws_opened@ == match old(
                self,
            ).slot_tree_state.selected_workspace {
                Some(k) => if old(self).slot_tree_state.ws_opened@.contains(k) {
                    old(self).slot_tree_state.ws_opened@
                } else {
                    old(self).slot_tree_state.ws_opened@.push(k)
                },
                None => old(self).slot_tree_state.ws_opened@,
            },
            final(self).slot_tree_state.selected_todo == if old(
                self,
            ).slot_tree_state.selected_workspace is Some {
                None::<usize>
            } else {
                old(self).slot_tree_state.selected_todo
            },
            final(self).slot_tree_state.selected_workspace == old(
                self,
            ).slot_tree_state.selected_workspace,
            final(self).slot_tree_state.todo_opened == old(self).slot_tree_state.todo_opened,
            final(self).slot_tree_state.multi_selected_todos == old(
                self,
            ).slot_tree_state.multi_selected_todos,
            final(self).slot_tree_state.multi_selected_workspaces == old(
                self,
            ).slot_tree_state.multi_selected_workspaces,
            unchanged_modes(*old(self), *final(self)),
    {
        match self.slot_tree_state.selected_workspace {
            Some(selected) => {
                let ghost opened1 = self.slot_tree_state.ws_opened@;
                if !vec_contains(&self.slot_tree_state.ws_opened, selected) {
                    self.slot_tree_state.ws_opened.push(selected);
                }
                self.slot_tree_state.selected_todo = None;
                proof {
                    let opened2 = self.slot_tree_state.ws_opened@;
                    assert forall|y: usize| opened1.contains(y) && y != selected implies
                        opened2.contains(y) by {
                        let w = choose|w: int| 0 <= w < opened1.len() && opened1[w] == y;
                        assert(opened2[w] == y);
                    }
                }
                let ghost sel = self.slot_tree_state.selected_workspace;
                self.slot_tree_state.update_workspace_tree_state(&self.slot_map_store);
            },
            None => {},
        }
    }

    /// Take the selected workspace out of the opened set, collapsing its
    /// subtree; nothing happens with no selection. The todo selection resets.
    pub fn collapse_workspace(&mut self)
        requires
            old(self).wf(),
            old(self).active_screen == Screen::Workspaces,
            old(self).sorting == SortingItem::Idle,
        ensures
            final(self).wf(),
            final(self).slot_map_store == old(self).slot_map_store,
            final(self).slot_tree_state.ws_opened@ == match old(
                self,
            ).slot_tree_state.selected_workspace {
                Some(k) => old(self).slot_tree_state.ws_opened@.filter(|y: usize| y != k),
                None => old(self).slot_tree_state.ws_opened@,
            },
            final(self).slot_tree_state.selected_todo == if old(
                self,
            ).slot_tree_state.selected_workspace is Some {
                None::<usize>
            } else {
                old(self).slot_tree_state.selected_todo
            },
            final(self).slot_tree_state.selected_workspace == old(
                self,
            ).slot_tree_state.selected_workspace,
            final(self).slot_tree_state.todo_opened == old(self).slot_tree_state.todo_opened,
            final(self).slot_tree_state.multi_selected_todos == old(
                self,
            ).slot_tree_state.multi_selected_todos,
            final(self).slot_tree_state.multi_selected_workspaces == old(
                self,
            ).slot_tree_state.multi_selected_workspaces,
            unchanged_modes(*old(self), *final(self)),
    {
        match self.slot_tree_state.selected_workspace {
            Some(selected) => {
                let ghost opened1 = self.slot_tree_state.ws_opened@;
                let no = remove_key(&self.slot_tree_state.ws_opened, selected);
                self.slot_tree_state.ws_opened = no;
                self.slot_tree_state.selected_todo = None;
                proof {
                    let opened2 = self.slot_tree_state.ws_opened@;
                    assert forall|y: usize| opened1.contains(y) && y != selected implies
                        opened2.contains(y) by {
                        let w = choose|w: int| 0 <= w < opened1.len() && opened1[w] == y;
                        opened1.lemma_filter_contains(|z: usize| z != selected, w);
                    }
                }
                self.slot_tree_state.update_workspace_tree_state(&self.slot_map_store);
            },
            None => {},
        }
    }

    /// Mark the selected todo opened; nothing happens with no selection.
    pub fn expand_todo(&mut self)
        requires
            old(self).wf(),
            old(self).active_screen == Screen::Todos,
            old(self).sorting == SortingItem::Idle,
        ensures
            final(self).wf(),
            final(self).slot_map_store == old(self).slot_map_store,
            final(self).slot_tree_state.todo_opened@ == match old(
                self,
            ).slot_tree_state.selected_todo {
                Some(k) => if old(self).slot_tree_state.todo_opened@.contains(k) {
                    old(self).slot_tree_state.todo_opened@
                } else {
                    old(self).slot_tree_state.todo_opened@.push(k)
                },
                None => old(self).slot_tree_state.todo_opened@,
            },
            final(self).slot_tree_state.selected_todo == old(self).slot_tree_state.selected_todo,
            final(self).slot_tree_state.selected_workspace == old(
                self,
            ).slot_tree_state.selected_workspace,
            final(self).slot_tree_state.ws_opened == old(self).slot_tree_state.ws_opened,
            final(self).slot_tree_state.multi_selected_todos == old(
                self,
            ).slot_tree_state.multi_selected_todos,
            final(self).slot_tree_state.multi_selected_workspaces == old(
                self,
            ).slot_tree_state.multi_selected_workspaces,
            unchanged_modes(*old(self), *final(self)),
    {
        match self.slot_tree_state.selected_todo {
            Some(selected) => {
                let ghost opened1 = self.slot_tree_state.todo_opened@;
                if !vec_contains(&self.slot_tree_state.todo_opened, selected) {
                    self.slot_tree_state.todo_opened.push(selected);
                }
                proof {
                    let opened2 = self.slot_tree_state.todo_opened@;
                    assert forall|y: usize| opened1.contains(y) && y != selected implies
                        opened2.contains(y) by {
                        let w = choose|w: int| 0 <= w < opened1.len() && opened1[w] == y;
                        assert(opened2[w] == y);
                    }
                    let s = self.slot_map_store;
                }
                self.slot_tree_state.update_workspace_tree_state(&self.slot_map_store);
            },
            None => {},
        }
    }

    /// Take the selected todo out of the opened set; nothing happens with no
    /// selection.
    pub fn collapse_todo(&mut self)
        requires
            old(self).wf(),
            old(self).active_screen == Screen::Todos,
            old(self).sorting == SortingItem::Idle,
        ensures
            final(self).wf(),
            final(self).slot_map_store == old(self).slot_map_store,
            final(self).slot_tree_state.todo_opened@ == match old(
                self,
            ).slot_tree_state.selected_todo {
                Some(k) => old(self).slot_tree_state.todo_opened@.filter(|y: usize| y != k),
                None => old(self).slot_tree_state.todo_opened@,
            },
            final(self).slot_tree_state.selected_todo == old(self).slot_tree_state.selected_todo,
            final(self).slot_tree_state.selected_workspace == old(
                self,
            ).slot_tree_state.selected_workspace,
            final(self).slot_tree_state.ws_opened == old(self).slot_tree_state.ws_opened,
            final(self).slot_tree_state.multi_selected_todos == old(
                self,
            ).slot_tree_state.multi_selected_todos,
            final(self).slot_tree_state.multi_selected_workspaces == old(
                self,
            ).slot_tree_state.multi_selected_workspaces,
            unchanged_modes(*old(self), *final(self)),
    {
        match self.slot_tree_state.selected_todo {
            Some(selected) => {
                let ghost opened1 = self.slot_tree_state.todo_opened@;
                let no = remove_key(&self.slot_tree_state.todo_opened, selected);
                self.slot_tree_state.todo_opened = no;
                proof {
                    let opened2 = self.slot_tree_state.todo_opened@;
                    assert forall|y: usize| opened1.contains(y) && y != selected implies
                        opened2.contains(y) by {
                        let w = choose|w: int| 0 <= w < opened1.len() && opened1[w] == y;
                        opened1.lemma_filter_contains(|z: usize| z != selected, w);
                    }
                    let s = self.slot_map_store;
                }
                self.slot_tree_state.update_workspace_tree_state(&self.slot_map_store);
            },
            None => {},
        }
    }

    /// Toggle the selected workspace in or out of the multi-selection; the
    /// cursor does not move.
    pub fn toggle_multi_select_workspace(&mut self)
        requires
            old(self).wf(),
            old(self).active_screen == Screen::Workspaces,
            old(self).sorting == SortingItem::Idle,
        ensures
            final(self).wf(),
            final(self).slot_map_store == old(self).slot_map_store,
            final(self).slot_tree_state == (SlotTreeState {
                multi_selected_workspaces:
                    final(self).slot_tree_state.multi_selected_workspaces,
                ..old(self).slot_tree_state
            }),
            final(self).slot_tree_state.multi_selected_workspaces@ == match old(
                self,
            ).slot_tree_state.selected_workspace {
                Some(k) => if old(self).slot_tree_state.multi_selected_workspaces@.contains(k) {
                    old(self).slot_tree_state.multi_selected_workspaces@.filter(
                        |y: usize| y != k,
                    )
                } else {
                    old(self).slot_tree_state.multi_selected_workspaces@.push(k)
                },
                None => old(self).slot_tree_state.multi_selected_workspaces@,
            },
            unchanged_modes(*old(self), *final(self)),
    {
        match self.slot_tree_state.selected_workspace {
            Some(selected) => {
                if vec_contains(&self.slot_tree_state.multi_selected_workspaces, selected) {
                    let m = remove_key(
                        &self.slot_tree_state.multi_selected_workspaces,
                        selected,
                    );
                    self.slot_tree_state.multi_selected_workspaces = m;
                    proof {
                        let base = old(self).slot_tree_state.multi_selected_workspaces@;
                        assert forall|i: int|
                            0 <= i < self.slot_tree_state.multi_selected_workspaces@.len()
                            implies ws_live(
                                self.slot_map_store.workspaces_map@,
                                #[trigger] self.slot_tree_state.multi_selected_workspaces@[i]
                                    as int,
                            ) by {
                            base.lemma_filter_pred(|y: usize| y != selected, i);
                            assert(base.filter(|y: usize| y != selected).contains(
                                base.filter(|y: usize| y != selected)[i],
                            ));
                            base.lemma_filter_contains_rev(
                                |y: usize| y != selected,
                                base.filter(|y: usize| y != selected)[i],
                            );
                        }
                    }
                } else {
                    self.slot_tree_state.multi_selected_workspaces.push(selected);
                }
            },
            None => {},
        }
    }

    /// Toggle the selected todo in or out of the multi-selection; the cursor
    /// does not move.
    pub fn toggle_multi_select_todo(&mut self)
        requires
            old(self).wf(),
            old(self).active_screen == Screen::Todos,
            old(self).sorting == SortingItem::Idle,
        ensures
            final(self).wf(),
            final(self).slot_map_store == old(self).slot_map_store,
            final(self).slot_tree_state == (SlotTreeState {
                multi_selected_todos: final(self).slot_tree_state.multi_selected_todos,
                ..old(self).slot_tree_state
            }),
            final(self).slot_tree_state.multi_selected_todos@ == match old(
                self,
            ).slot_tree_state.selected_todo {
                Some(k) => if old(self).slot_tree_state.multi_selected_todos@.contains(k) {
                    old(self).slot_tree_state.multi_selected_todos@.filter(|y: usize| y != k)
                } else {
                    old(self).slot_tree_state.multi_selected_todos@.push(k)
                },
                None => old(self).slot_tree_state.multi_selected_todos@,
            },
            unchanged_modes(*old(self), *final(self)),
    {
        match self.slot_tree_state.selected_todo {
            Some(selected) => {
                if vec_contains(&self.slot_tree_state.multi_selected_todos, selected) {
                    let m = remove_key(&self.slot_tree_state.multi_selected_todos, selected);
                    self.slot_tree_state.multi_selected_todos = m;
                    proof {
                        let base = old(self).slot_tree_state.multi_selected_todos@;
                        assert forall|i: int|
                            0 <= i < self.slot_tree_state.multi_selected_todos@.len()
                            implies todo_live(
                                self.slot_map_store.todos_map@,
                                #[trigger] self.slot_tree_state.multi_selected_todos@[i] as int,
                            ) by {
                            base.lemma_filter_pred(|y: usize| y != selected, i);
                            assert(base.filter(|y: usize| y != selected).contains(
                                base.filter(|y: usize| y != selected)[i],
                            ));
                            base.lemma_filter_contains_rev(
                                |y: usize| y != selected,
                                base.filter(|y: usize| y != selected)[i],
                            );
                        }
                    }
                } else {
                    self.slot_tree_state.multi_selected_todos.push(selected);
                }
            },
            None => {},
        }
    }

    /// Record the multi-selected workspaces — or, with none, the selected one
    /// — in the clipboard, without cloning anything.
    pub fn yank_workspaces(&mut self)
        requires
            old(self).wf(),
            old(self).active_screen == Screen::Workspaces,
            old(self).sorting == SortingItem::Idle,
        ensures
            final(self).wf(),
            final(self).slot_map_store == old(self).slot_map_store,
            final(self).slot_tree_state == old(self).slot_tree_state,
            final(self).clipboard_workspaces@ == if old(
                self,
            ).slot_tree_state.multi_selected_workspaces@.len() > 0 {
                old(self).slot_tree_state.multi_selected_workspaces@
            } else {
                match old(self).slot_tree_state.selected_workspace {
                    Some(k) => seq![k],
                    None => old(self).clipboard_workspaces@,
                }
            },
            *final(self) == (App {
                clipboard_workspaces: final(self).clipboard_workspaces,
                ..*old(self)
            }),
    {
        if self.slot_tree_state.multi_selected_workspaces.len() > 0 {
            let c = copy_keys(&self.slot_tree_state.multi_selected_workspaces);
            self.clipboard_workspaces = c;
        } else {
            match self.slot_tree_state.selected_workspace {
                Some(selected) => {
                    let mut c: Vec<usize> = Vec::new();
                    c.push(selected);
                    self.clipboard_workspaces = c;
                    proof {
                        assert(self.clipboard_workspaces@ =~= seq![selected]);
                    }
                },
                None => {},
            }
        }
    }

    /// Record the multi-selected todos — or, with none, the selected one —
    /// in the clipboard, without cloning anything.
    pub fn yank_todos(&mut self)
        requires
            old(self).wf(),
            old(self).active_screen == Screen::Todos,
            old(self).sorting == SortingItem::Idle,
        ensures
            final(self).wf(),
            final(self).slot_map_store == old(self).slot_map_store,
            final(self).slot_tree_state == old(self).slot_tree_state,
            final(self).clipboard_todos@ == if old(
                self,
            ).slot_tree_state.multi_selected_todos@.len() > 0 {
                old(self).slot_tree_state.multi_selected_todos@
            } else {
                match old(self).slot_tree_state.selected_todo {
                    Some(k) => seq![k],
                    None => old(self).clipboard_todos@,
                }
            },
            *final(self) == (App { clipboard_todos: final(self).clipboard_todos, ..*old(self) }),
    {
        if self.slot_tree_state.multi_selected_todos.len() > 0 {
            let c = copy_keys(&self.slot_tree_state.multi_selected_todos);
            self.clipboard_todos = c;
        } else {
            match self.slot_tree_state.selected_todo {
                Some(selected) => {
                    let mut c: Vec<usize> = Vec::new();
                    c.push(selected);
                    self.clipboard_todos = c;
                    proof {
                        assert(self.clipboard_todos@ =~= seq![selected]);
                    }
                },
                None => {},
            }
        }
    }
}

/// After changing only the content of one live todo slot — links untouched —
/// the store stays consistent and both panes show the same rows.
pub proof fn lemma_todo_content_step(
    s1: SlotMapStore,
    s2: SlotMapStore,
    k: int,
    opened_ws: Seq<usize>,
    opened_td: Seq<usize>,
    sel: Option<usize>,
)
    requires
        s1.wf(),
        todo_live(s1.todos_map@, k),
        s2.workspaces_map == s1.workspaces_map,
        s2.root_workspaces == s1.root_workspaces,
        s2.todos_map@.len() == s1.todos_map@.len(),
        forall|j: int|
            0 <= j < s1.todos_map@.len() && j != k ==> s2.todos_map@[j] == #[trigger] s1.todos_map@[j],
        todo_live(s2.todos_map@, k),
        todo_at(s2.todos_map@, k).children@ == todo_at(s1.todos_map@, k).children@,
    ensures
        s2.wf(),
        ws_rows(s2, opened_ws) == ws_rows(s1, opened_ws),
        todo_rows(s2, opened_td, sel) == todo_rows(s1, opened_td, sel),
{
    let tm1 = s1.todos_map@;
    let tm2 = s2.todos_map@;
    assert forall|j: int| todo_live(tm1, j) == todo_live(tm2, j) by {
        if 0 <= j < tm1.len() && j != k {
            assert(tm2[j] == tm1[j]);
        }
    }
    assert forall|j: int| todo_live(tm1, j) implies (#[trigger] todo_at(tm2, j)).children@
        == todo_at(tm1, j).children@ by {
        if 0 <= j < tm1.len() && j != k {
            assert(tm2[j] == tm1[j]);
        }
    }
    assert(todo_links_same(tm1, tm2));
    assert(ws_links_same(s1.workspaces_map@, s2.workspaces_map@));
    lemma_wf_links(s1, s2);
    crate::tree::lemma_ws_rows_links(s1, s2, opened_ws);
    crate::tree::lemma_todo_rows_links(s1, s2, opened_td, sel);
}

/// After changing only the content of one live workspace slot — links and
/// owned todos untouched — the store stays consistent and both panes show
/// the same rows.
pub proof fn lemma_ws_content_step(
    s1: SlotMapStore,
    s2: SlotMapStore,
    k: int,
    opened_ws: Seq<usize>,
    opened_td: Seq<usize>,
    sel: Option<usize>,
)
    requires
        s1.wf(),
        ws_live(s1.workspaces_map@, k),
        s2.todos_map == s1.todos_map,
        s2.root_workspaces == s1.root_workspaces,
        s2.workspaces_map@.len() == s1.workspaces_map@.len(),
        forall|j: int|
            0 <= j < s1.workspaces_map@.len() && j != k ==> s2.workspaces_map@[j]
                == #[trigger] s1.workspaces_map@[j],
        ws_live(s2.workspaces_map@, k),
        ws_at(s2.workspaces_map@, k).children@ == ws_at(s1.workspaces_map@, k).children@,
        ws_at(s2.workspaces_map@, k).todos@ == ws_at(s1.workspaces_map@, k).todos@,
        match sel {
            Some(w) => ws_live(s1.workspaces_map@, w as int),
            None => true,
        },
    ensures
        s2.wf(),
        ws_rows(s2, opened_ws) == ws_rows(s1, opened_ws),
        todo_rows(s2, opened_td, sel) == todo_rows(s1, opened_td, sel),
{
    let wm1 = s1.workspaces_map@;
    let wm2 = s2.workspaces_map@;
    assert forall|j: int| ws_live(wm1, j) == ws_live(wm2, j) by {
        if 0 <= j < wm1.len() && j != k {
            assert(wm2[j] == wm1[j]);
        }
    }
    assert forall|j: int| ws_live(wm1, j) implies (#[trigger] ws_at(wm2, j)).children@ == ws_at(
        wm1,
        j,
    ).children@ && ws_at(wm2, j).todos@ == ws_at(wm1, j).todos@ by {
        if 0 <= j < wm1.len() && j != k {
            assert(wm2[j] == wm1[j]);
        }
    }
    assert(ws_links_same(wm1, wm2));
    assert(todo_links_same(s1.todos_map@, s2.todos_map@));
    lemma_wf_links(s1, s2);
    crate::tree::lemma_ws_rows_links(s1, s2, opened_ws);
    match sel {
        Some(w) => {
            assert(ws_live(wm1, w as int));
            assert(ws_at(wm2, w as int).todos@ == ws_at(wm1, w as int).todos@);
        },
        None => {},
    }
    crate::tree::lemma_todo_rows_links(s1, s2, opened_td, sel);
}

impl App {
    /// Flip the pending flag of the selected todo; description, urgency and
    /// children stay as they are. Nothing happens with no selection.
    pub fn toggle_done(&mut self)
        requires
            old(self).wf(),
            old(self).active_screen == Screen::Todos,
            old(self).sorting == SortingItem::Idle,
        ensures
            final(self).wf(),
            match old(self).slot_tree_state.selected_todo {
                None => *final(self) == *old(self),
                Some(k) => {
                    let t1 = todo_at(old(self).slot_map_store.todos_map@, k as int);
                    final(self).slot_map_store.todos_map@ == old(
                        self,
                    ).slot_map_store.todos_map@.update(
                        k as int,
                        Some(TodoItem { pending: !t1.pending, ..t1 }),
                    )
                },
            },
            final(self).slot_map_store.workspaces_map == old(self).slot_map_store.workspaces_map,
            final(self).slot_map_store.root_workspaces == old(self).slot_map_store.root_workspaces,
            tree_state_same(old(self).slot_tree_state, final(self).slot_tree_state),
            unchanged_modes(*old(self), *final(self)),
    {
        match self.slot_tree_state.selected_todo {
            Some(selected) => {
                let ghost s1 = self.slot_map_store;
                let slot = &mut self.slot_map_store.todos_map[selected];
                match slot {
                    Some(it) => {
                        it.pending = !it.pending;
                    },
                    None => {},
                }
                proof {
                    lemma_todo_content_step(
                        s1,
                        self.slot_map_store,
                        selected as int,
                        self.slot_tree_state.ws_opened@,
                        self.slot_tree_state.todo_opened@,
                        self.slot_tree_state.selected_workspace,
                    );
                }
                self.slot_tree_state.update_workspace_tree_state(&self.slot_map_store);
            },
            None => {},
        }
    }

    /// Raise the selected todo's urgency by one, capped at three. Nothing
    /// happens with no selection.
    pub fn urgency_up(&mut self)
        requires
            old(self).wf(),
            old(self).active_screen == Screen::Todos,
            old(self).sorting == SortingItem::Idle,
        ensures
            final(self).wf(),
            match old(self).slot_tree_state.selected_todo {
                None => *final(self) == *old(self),
                Some(k) => {
                    let t1 = todo_at(old(self).slot_map_store.todos_map@, k as int);
                    final(self).slot_map_store.todos_map@ == old(
                        self,
                    ).slot_map_store.todos_map@.update(
                        k as int,
                        Some(
                            TodoItem {
                                urgency: if t1.urgency < 3 {
                                    (t1.urgency + 1) as usize
                                } else {
                                    t1.urgency
                                },
                                ..t1
                            },
                        ),
                    )
                },
            },
            final(self).slot_map_store.workspaces_map == old(self).slot_map_store.workspaces_map,
            final(self).slot_map_store.root_workspaces == old(self).slot_map_store.root_workspaces,
            tree_state_same(old(self).slot_tree_state, final(self).slot_tree_state),
            unchanged_modes(*old(self), *final(self)),
    {
        match self.slot_tree_state.selected_todo {
            Some(selected) => {
                let ghost s1 = self.slot_map_store;
                let slot = &mut self.slot_map_store.todos_map[selected];
                match slot {
                    Some(it) => {
                        if it.urgency < 3 {
                            it.urgency = it.urgency + 1;
                        }
                    },
                    None => {},
                }
                proof {
                    lemma_todo_content_step(
                        s1,
                        self.slot_map_store,
                        selected as int,
                        self.slot_tree_state.ws_opened@,
                        self.slot_tree_state.todo_opened@,
                        self.slot_tree_state.selected_workspace,
                    );
                }
                self.slot_tree_state.update_workspace_tree_state(&self.slot_map_store);
            },
            None => {},
        }
    }

    /// Lower the selected todo's urgency by one, floored at zero. Nothing
    /// happens with no selection.
    pub fn urgency_down(&mut self)
        requires
            old(self).wf(),
            old(self).active_screen == Screen::Todos,
            old(self).sorting == SortingItem::Idle,
        ensures
            final(self).wf(),
            match old(self).slot_tree_state.selected_todo {
                None => *final(self) == *old(self),
                Some(k) => {
                    let t1 = todo_at(old(self).slot_map_store.todos_map@, k as int);
                    final(self).slot_map_store.todos_map@ == old(
                        self,
                    ).slot_map_store.todos_map@.update(
                        k as int,
                        Some(
                            TodoItem {
                                urgency: if t1.urgency > 0 {
                                    (t1.urgency - 1) as usize
                                } else {
                                    t1.urgency
                                },
                                ..t1
                            },
                        ),
                    )
                },
            },
            final(self).slot_map_store.workspaces_map == old(self).slot_map_store.workspaces_map,
            final(self).slot_map_store.root_workspaces == old(self).slot_map_store.root_workspaces,
            tree_state_same(old(self).slot_tree_state, final(self).slot_tree_state),
            unchanged_modes(*old(self), *final(self)),
    {
        match self.slot_tree_state.selected_todo {
            Some(selected) => {
                let ghost s1 = self.slot_map_store;
                let slot = &mut self.slot_map_store.todos_map[selected];
                match slot {
                    Some(it) => {
                        if it.urgency > 0 {
                            it.urgency = it.urgency - 1;
                        }
                    },
                    None => {},
                }
                proof {
                    lemma_todo_content_step(
                        s1,
                        self.slot_map_store,
                        selected as int,
                        self.slot_tree_state.ws_opened@,
                        self.slot_tree_state.todo_opened@,
                        self.slot_tree_state.selected_workspace,
                    );
                }
                self.slot_tree_state.update_workspace_tree_state(&self.slot_map_store);
            },
            None => {},
        }
    }

    /// Enter edit mode on the selected workspace: the buffer is seeded from
    /// its description. Nothing happens with no selection.
    pub fn begin_edit_workspace(&mut self)
        requires
            old(self).wf(),
            old(self).active_screen == Screen::Workspaces,
            old(self).sorting == SortingItem::Idle,
            old(self).new_editing_id is None,
        ensures
            final(self).wf(),
            match old(self).slot_tree_state.selected_workspace {
                None => *final(self) == *old(self),
                Some(k) => *final(self) == (App {
                    input: final(self).input,
                    new_editing_id: Some(k),
                    ..*old(self)
                }) && final(self).input@ == ws_at(
                    old(self).slot_map_store.workspaces_map@,
                    k as int,
                ).description@,
            },
    {
        match self.slot_tree_state.selected_workspace {
            Some(selected) => {
                let slot = &self.slot_map_store.workspaces_map[selected];
                let it = slot.as_ref().unwrap();
                self.input = it.description.clone();
                self.new_editing_id = Some(selected);
            },
            None => {},
        }
    }

    /// Enter edit mode on the selected todo: the buffer is seeded from its
    /// description. Nothing happens with no selection.
    pub fn begin_edit_todo(&mut self)
        requires
            old(self).wf(),
            old(self).active_screen == Screen::Todos,
            old(self).sorting == SortingItem::Idle,
            old(self).new_editing_id is None,
        ensures
            final(self).wf(),
            match old(self).slot_tree_state.selected_todo {
                None => *final(self) == *old(self),
                Some(k) => *final(self) == (App {
                    input: final(self).input,
                    new_editing_id: Some(k),
                    ..*old(self)
                }) && final(self).input@ == todo_at(
                    old(self).slot_map_store.todos_map@,
                    k as int,
                ).description@,
            },
    {
        match self.slot_tree_state.selected_todo {
            Some(selected) => {
                let slot = &self.slot_map_store.todos_map[selected];
                let it = slot.as_ref().unwrap();
                self.input = it.description.clone();
                self.new_editing_id = Some(selected);
            },
            None => {},
        }
    }

    /// Append one typed character to the edit buffer.
    pub fn edit_char(&mut self, c: char)
        requires
            old(self).wf(),
            old(self).new_editing_id is Some,
        ensures
            final(self).wf(),
            *final(self) == (App { input: final(self).input, ..*old(self) }),
            final(self).input@ == old(self).input@.push(c),
    {
        push_char(&mut self.input, c);
    }

    /// Drop the last character of the edit buffer, if any.
    pub fn edit_backspace(&mut self)
        requires
            old(self).wf(),
            old(self).new_editing_id is Some,
        ensures
            final(self).wf(),
            *final(self) == (App { input: final(self).input, ..*old(self) }),
            final(self).input@ == if old(self).input@.len() == 0 {
                old(self).input@
            } else {
                old(self).input@.drop_last()
            },
    {
        pop_char(&mut self.input);
    }

    /// Leave edit mode writing the buffer back as the edited workspace's
    /// description; everything else of the workspace stays.
    pub fn commit_edit_workspace(&mut self)
        requires
            old(self).wf(),
            old(self).active_screen == Screen::Workspaces,
            old(self).new_editing_id is Some,
        ensures
            final(self).wf(),
            ({
                let k = old(self).new_editing_id->Some_0;
                let w1 = ws_at(old(self).slot_map_store.workspaces_map@, k as int);
                &&& final(self).slot_map_store.workspaces_map@ == old(
                    self,
                ).slot_map_store.workspaces_map@.update(
                    k as int,
                    Some(WorkspaceItem { description: final(self).input, ..w1 }),
                )
                &&& final(self).input@ == old(self).input@
                &&& final(self).new_editing_id is None
            }),
            final(self).slot_map_store.todos_map == old(self).slot_map_store.todos_map,
            final(self).slot_map_store.root_workspaces == old(self).slot_map_store.root_workspaces,
            tree_state_same(old(self).slot_tree_state, final(self).slot_tree_state),
            final(self).running == old(self).running,
            final(self).active_screen == old(self).active_screen,
            final(self).sorting == old(self).sorting,
            final(self).clipboard_todos == old(self).clipboard_todos,
            final(self).clipboard_workspaces == old(self).clipboard_workspaces,
            final(self).search_mode == old(self).search_mode,
            final(self).search_str == old(self).search_str,
            final(self).search_matches == old(self).search_matches,
            final(self).current_match_index == old(self).current_match_index,
    {
        let id = match self.new_editing_id {
            Some(id) => id,
            None => 0,
        };
        let ghost s1 = self.slot_map_store;
        let nd = self.input.clone();
        let slot = &mut self.slot_map_store.workspaces_map[id];
        match slot {
            Some(it) => {
                it.description = nd;
            },
            None => {},
        }
        self.new_editing_id = None;
        proof {
            lemma_ws_content_step(
                s1,
                self.slot_map_store,
                id as int,
                self.slot_tree_state.ws_opened@,
                self.slot_tree_state.todo_opened@,
                self.slot_tree_state.selected_workspace,
            );
        }
        self.slot_tree_state.update_workspace_tree_state(&self.slot_map_store);
    }

    /// Leave edit mode writing the buffer back as the edited todo's
    /// description; everything else of the todo stays.
    pub fn commit_edit_todo(&mut self)
        requires
            old(self).wf(),
            old(self).active_screen == Screen::Todos,
            old(self).new_editing_id is Some,
        ensures
            final(self).wf(),
            ({
                let k = old(self).new_editing_id->Some_0;
                let t1 = todo_at(old(self).slot_map_store.todos_map@, k as int);
                &&& final(self).slot_map_store.todos_map@ == old(
                    self,
                ).slot_map_store.todos_map@.update(
                    k as int,
                    Some(TodoItem { description: final(self).input, ..t1 }),
                )
                &&& final(self).input@ == old(self).input@
                &&& final(self).new_editing_id is None
            }),
            final(self).slot_map_store.workspaces_map == old(self).slot_map_store.workspaces_map,
            final(self).slot_map_store.root_workspaces == old(self).slot_map_store.root_workspaces,
            tree_state_same(old(self).slot_tree_state, final(self).slot_tree_state),
            final(self).running == old(self).running,
            final(self).active_screen == old(self).active_screen,
            final(self).sorting == old(self).sorting,
            final(self).clipboard_todos == old(self).clipboard_todos,
            final(self).clipboard_workspaces == old(self).clipboard_workspaces,
            final(self).search_mode == old(self).search_mode,
            final(self).search_str == old(self).search_str,
            final(self).search_matches == old(self).search_matches,
            final(self).current_match_index == old(self).current_match_index,
    {
        let id = match self.new_editing_id {
            Some(id) => id,
            None => 0,
        };
        let ghost s1 = self.slot_map_store;
        let nd = self.input.clone();
        let slot = &mut self.slot_map_store.todos_map[id];
        match slot {
            Some(it) => {
                it.description = nd;
            },
            None => {},
        }
        self.new_editing_id = None;
        proof {
            lemma_todo_content_step(
                s1,
                self.slot_map_store,
                id as int,
                self.slot_tree_state.ws_opened@,
                self.slot_tree_state.todo_opened@,
                self.slot_tree_state.selected_workspace,
            );
        }
        self.slot_tree_state.update_workspace_tree_state(&self.slot_map_store);
    }

    /// Leave edit mode discarding the buffer: the document is untouched.
    pub fn cancel_edit(&mut self)
        requires
            old(self).wf(),
            old(self).new_editing_id is Some,
        ensures
            final(self).wf(),
            *final(self) == (App { new_editing_id: None, ..*old(self) }),
    {
        self.new_editing_id = None;
    }
}

/// Whether two navigation states agree on everything, with the trees
/// compared by contents.
pub open spec fn tree_state_same(a: SlotTreeState, b: SlotTreeState) -> bool {
    &&& b.selected_todo == a.selected_todo
    &&& b.selected_workspace == a.selected_workspace
    &&& b.ws_opened == a.ws_opened
    &&& b.todo_opened == a.todo_opened
    &&& b.ws_tree@ == a.ws_tree@
    &&& b.todo_tree@ == a.todo_tree@
    &&& b.multi_selected_todos == a.multi_selected_todos
    &&& b.multi_selected_workspaces == a.multi_selected_workspaces
}

/// Relies on String::push: the pushed character is appended to the string's
/// characters.
#[verifier::external_body]
fn push_char(s: &mut String, c: char)
    ensures
        final(s)@ == old(s)@.push(c),
{
    s.push(c);
}

/// Relies on String::pop: the last character is removed; an empty string
/// stays empty.
#[verifier::external_body]
fn pop_char(s: &mut String)
    ensures
        final(s)@ == if old(s)@.len() == 0 {
            old(s)@
        } else {
            old(s)@.drop_last()
        },
{
    s.pop();
}

/// `s` with its first occurrence of `x` removed; unchanged when `x` is
/// absent.
pub open spec fn remove_first(s: Seq<usize>, x: usize) -> Seq<usize> {
    if s.contains(x) {
        s.remove(first_index(s, x))
    } else {
        s
    }
}

/// The first position of `x` in a handle list.
pub fn position_usize(v: &Vec<usize>, x: usize) -> (r: Option<usize>)
    ensures
        match r {
            Some(j) => j < v@.len() && v@[j as int] == x && forall|i: int|
                0 <= i < j ==> v@[i] != x,
            None => !v@.contains(x),
        },
{
    let mut i: usize = 0;
    while i < v.len()
        invariant
            i <= v@.len(),
            forall|j: int| 0 <= j < i ==> v@[j] != x,
        decreases v@.len() - i,
    {
        if v[i] == x {
            return Some(i);
        }
        i += 1;
    }
    None
}

/// The exec position agrees with `first_index`.
pub proof fn lemma_first_index_usize(s: Seq<usize>, x: usize, j: int)
    requires
        0 <= j < s.len(),
        s[j] == x,
        forall|i: int| 0 <= i < j ==> s[i] != x,
    ensures
        s.contains(x),
        first_index(s, x) == j,
    decreases s.len(),
{
    if s[0] == x {
    } else {
        assert(s.drop_first()[j - 1] == x);
        assert forall|i: int| 0 <= i < j - 1 implies s.drop_first()[i] != x by {
            assert(s.drop_first()[i] == s[i + 1]);
        }
        lemma_first_index_usize(s.drop_first(), x, j - 1);
    }
}

/// Fewer child links never break boundedness.
pub proof fn lemma_todo_bounded_shrink(
    tm1: Seq<Option<TodoItem>>,
    tm2: Seq<Option<TodoItem>>,
    k: int,
    f: nat,
)
    requires
        tm1.len() == tm2.len(),
        forall|j: int| todo_live(tm1, j) == todo_live(tm2, j),
        forall|j: int, i: int|
            todo_live(tm1, j) && 0 <= i < todo_at(tm2, j).children@.len() ==> todo_at(
                tm1,
                j,
            ).children@.contains(#[trigger] todo_at(tm2, j).children@[i]),
        todo_bounded(tm1, k, f),
    ensures
        todo_bounded(tm2, k, f),
    decreases f,
{
    assert forall|i: int| 0 <= i < todo_at(tm2, k).children@.len() implies todo_bounded(
        tm2,
        #[trigger] todo_at(tm2, k).children@[i] as int,
        (f - 1) as nat,
    ) by {
        let c = todo_at(tm2, k).children@[i];
        assert(todo_at(tm1, k).children@.contains(c));
        let w = choose|w: int|
            0 <= w < todo_at(tm1, k).children@.len() && todo_at(tm1, k).children@[w] == c;
        assert(todo_bounded(tm1, todo_at(tm1, k).children@[w] as int, (f - 1) as nat));
        lemma_todo_bounded_shrink(tm1, tm2, c as int, (f - 1) as nat);
    }
}

/// Fewer child links never break boundedness.
pub proof fn lemma_ws_bounded_shrink(
    wm1: Seq<Option<WorkspaceItem>>,
    wm2: Seq<Option<WorkspaceItem>>,
    k: int,
    f: nat,
)
    requires
        wm1.len() == wm2.len(),
        forall|j: int| ws_live(wm1, j) == ws_live(wm2, j),
        forall|j: int, i: int|
            ws_live(wm1, j) && 0 <= i < ws_at(wm2, j).children@.len() ==> ws_at(
                wm1,
                j,
            ).children@.contains(#[trigger] ws_at(wm2, j).children@[i]),
        ws_bounded(wm1, k, f),
    ensures
        ws_bounded(wm2, k, f),
    decreases f,
{
    assert forall|i: int| 0 <= i < ws_at(wm2, k).children@.len() implies ws_bounded(
        wm2,
        #[trigger] ws_at(wm2, k).children@[i] as int,
        (f - 1) as nat,
    ) by {
        let c = ws_at(wm2, k).children@[i];
        assert(ws_at(wm1, k).children@.contains(c));
        let w = choose|w: int|
            0 <= w < ws_at(wm1, k).children@.len() && ws_at(wm1, k).children@[w] == c;
        assert(ws_bounded(wm1, ws_at(wm1, k).children@[w] as int, (f - 1) as nat));
        lemma_ws_bounded_shrink(wm1, wm2, c as int, (f - 1) as nat);
    }
}

/// Where a todo row comes from: a top-level entry, or the child list of the
/// live todo named as its parent.
pub proof fn lemma_flat_todo_row_source(
    tm: Seq<Option<TodoItem>>,
    opened: Seq<usize>,
    k: usize,
    parent: Option<usize>,
    depth: usize,
    fuel: nat,
    j: int,
)
    requires
        0 <= j < crate::tree::flat_todo(tm, opened, k, parent, depth, fuel).len(),
    ensures
        ({
            let row = crate::tree::flat_todo(tm, opened, k, parent, depth, fuel)[j];
            j == 0 && row.key == k && row.parent == parent || match row.parent {
                Some(p) => todo_live(tm, p as int) && todo_at(tm, p as int).children@.contains(
                    row.key,
                ),
                None => false,
            }
        }),
    decreases fuel, 0nat,
{
    if fuel > 0 && todo_live(tm, k as int) && j > 0 {
        lemma_flat_todo_list_row_source(
            tm,
            opened,
            todo_at(tm, k as int).children@,
            k,
            ((depth + 1) as usize),
            (fuel - 1) as nat,
            j - 1,
        );
    }
}

/// Where a row of a child-list flattening comes from: the head of one of the
/// listed subtrees — whose parent is the list's owner — or deeper inside.
pub proof fn lemma_flat_todo_list_row_source(
    tm: Seq<Option<TodoItem>>,
    opened: Seq<usize>,
    ks: Seq<usize>,
    parent: usize,
    depth: usize,
    fuel: nat,
    j: int,
)
    requires
        0 <= j < crate::tree::flat_todo_list(tm, opened, ks, parent, depth, fuel).len(),
    ensures
        ({
            let row = crate::tree::flat_todo_list(tm, opened, ks, parent, depth, fuel)[j];
            ks.contains(row.key) && row.parent == Some(parent) || match row.parent {
                Some(p) => todo_live(tm, p as int) && todo_at(tm, p as int).children@.contains(
                    row.key,
                ),
                None => false,
            }
        }),
    decreases fuel, ks.len(),
{
    if ks.len() > 0 {
        let head = crate::tree::flat_todo(tm, opened, ks[0], Some(parent), depth, fuel);
        if j < head.len() {
            lemma_flat_todo_row_source(tm, opened, ks[0], Some(parent), depth, fuel, j);
        } else {
            lemma_flat_todo_list_row_source(
                tm,
                opened,
                ks.drop_first(),
                parent,
                depth,
                fuel,
                j - head.len(),
            );
            let row = crate::tree::flat_todo_list(
                tm,
                opened,
                ks.drop_first(),
                parent,
                depth,
                fuel,
            )[j - head.len()];
            if ks.drop_first().contains(row.key) {
                let w = choose|w: int|
                    0 <= w < ks.drop_first().len() && ks.drop_first()[w] == row.key;
                assert(ks[w + 1] == row.key);
            }
        }
    }
}

/// Where a row of the todo pane comes from: the selected workspace's own
/// list, or a live todo's child list.
pub proof fn lemma_todo_rows_row_source(s: SlotMapStore, opened: Seq<usize>, ks: Seq<usize>, j: int)
    requires
        0 <= j < crate::tree::todo_rows_from(s, opened, ks).len(),
    ensures
        ({
            let row = crate::tree::todo_rows_from(s, opened, ks)[j];
            ks.contains(row.key) && row.parent is None || match row.parent {
                Some(p) => todo_live(s.todos_map@, p as int) && todo_at(
                    s.todos_map@,
                    p as int,
                ).children@.contains(row.key),
                None => ks.contains(row.key),
            }
        }),
    decreases ks.len(),
{
    if ks.len() > 0 {
        let head = crate::tree::flat_todo(s.todos_map@, opened, ks[0], None, 0, s.tfuel());
        if j < head.len() {
            lemma_flat_todo_row_source(s.todos_map@, opened, ks[0], None, 0, s.tfuel(), j);
        } else {
            lemma_todo_rows_row_source(s, opened, ks.drop_first(), j - head.len());
            let row = crate::tree::todo_rows_from(s, opened, ks.drop_first())[j - head.len()];
            if ks.drop_first().contains(row.key) {
                let w = choose|w: int|
                    0 <= w < ks.drop_first().len() && ks.drop_first()[w] == row.key;
                assert(ks[w + 1] == row.key);
            }
        }
    }
}

/// Where a workspace row comes from: the root list, or the child list of the
/// live workspace named as its parent.
pub proof fn lemma_flat_ws_row_source(
    wm: Seq<Option<WorkspaceItem>>,
    opened: Seq<usize>,
    k: usize,
    parent: Option<usize>,
    depth: usize,
    fuel: nat,
    j: int,
)
    requires
        0 <= j < crate::tree::flat_ws(wm, opened, k, parent, depth, fuel).len(),
    ensures
        ({
            let row = crate::tree::flat_ws(wm, opened, k, parent, depth, fuel)[j];
            j == 0 && row.key == k && row.parent == parent || match row.parent {
                Some(p) => ws_live(wm, p as int) && ws_at(wm, p as int).children@.contains(
                    row.key,
                ),
                None => false,
            }
        }),
    decreases fuel, 0nat,
{
    if fuel > 0 && ws_live(wm, k as int) && j > 0 {
        lemma_flat_ws_list_row_source(
            wm,
            opened,
            ws_at(wm, k as int).children@,
            k,
            ((depth + 1) as usize),
            (fuel - 1) as nat,
            j - 1,
        );
    }
}

/// As `lemma_flat_todo_list_row_source`, for workspaces.
pub proof fn lemma_flat_ws_list_row_source(
    wm: Seq<Option<WorkspaceItem>>,
    opened: Seq<usize>,
    ks: Seq<usize>,
    parent: usize,
    depth: usize,
    fuel: nat,
    j: int,
)
    requires
        0 <= j < crate::tree::flat_ws_list(wm, opened, ks, parent, depth, fuel).len(),
    ensures
        ({
            let row = crate::tree::flat_ws_list(wm, opened, ks, parent, depth, fuel)[j];
            ks.contains(row.key) && row.parent == Some(parent) || match row.parent {
                Some(p) => ws_live(wm, p as int) && ws_at(wm, p as int).children@.contains(
                    row.key,
                ),
                None => false,
            }
        }),
    decreases fuel, ks.len(),
{
    if ks.len() > 0 {
        let head = crate::tree::flat_ws(wm, opened, ks[0], Some(parent), depth, fuel);
        if j < head.len() {
            lemma_flat_ws_row_source(wm, opened, ks[0], Some(parent), depth, fuel, j);
        } else {
            lemma_flat_ws_list_row_source(
                wm,
                opened,
                ks.drop_first(),
                parent,
                depth,
                fuel,
                j - head.len(),
            );
            let row = crate::tree::flat_ws_list(wm, opened, ks.drop_first(), parent, depth, fuel)[j
                - head.len()];
            if ks.drop_first().contains(row.key) {
                let w = choose|w: int|
                    0 <= w < ks.drop_first().len() && ks.drop_first()[w] == row.key;
                assert(ks[w + 1] == row.key);
            }
        }
    }
}

/// Where a row of the workspace pane comes from.
pub proof fn lemma_ws_rows_row_source(s: SlotMapStore, opened: Seq<usize>, roots: Seq<usize>, j: int)
    requires
        0 <= j < crate::tree::ws_rows_from(s, opened, roots).len(),
    ensures
        ({
            let row = crate::tree::ws_rows_from(s, opened, roots)[j];
            roots.contains(row.key) && row.parent is None || match row.parent {
                Some(p) => ws_live(s.workspaces_map@, p as int) && ws_at(
                    s.workspaces_map@,
                    p as int,
                ).children@.contains(row.key),
                None => roots.contains(row.key),
            }
        }),
    decreases roots.len(),
{
    if roots.len() > 0 {
        let head = crate::tree::flat_ws(s.workspaces_map@, opened, roots[0], None, 0, s.wfuel());
        if j < head.len() {
            lemma_flat_ws_row_source(s.workspaces_map@, opened, roots[0], None, 0, s.wfuel(), j);
        } else {
            lemma_ws_rows_row_source(s, opened, roots.drop_first(), j - head.len());
            let row = crate::tree::ws_rows_from(s, opened, roots.drop_first())[j - head.len()];
            if roots.drop_first().contains(row.key) {
                let w = choose|w: int|
                    0 <= w < roots.drop_first().len() && roots.drop_first()[w] == row.key;
                assert(roots[w + 1] == row.key);
            }
        }
    }
}

/// Whether no owner in the store — no live workspace's todos list, no live
/// todo's child list — holds the todo handle `x`.
pub open spec fn todo_nowhere(s: SlotMapStore, x: usize) -> bool {
    &&& forall|j: int, i: int|
        ws_live(s.workspaces_map@, j) && 0 <= i < ws_at(s.workspaces_map@, j).todos@.len()
            ==> #[trigger] ws_at(s.workspaces_map@, j).todos@[i] != x
    &&& forall|j: int, i: int|
        todo_live(s.todos_map@, j) && 0 <= i < todo_at(s.todos_map@, j).children@.len()
            ==> #[trigger] todo_at(s.todos_map@, j).children@[i] != x
}

/// Whether no owner in the store — not the root list, no live workspace's
/// child list — holds the workspace handle `x`.
pub open spec fn ws_nowhere(s: SlotMapStore, x: usize) -> bool {
    &&& forall|i: int| 0 <= i < s.root_workspaces@.len() ==> #[trigger] s.root_workspaces@[i] != x
    &&& forall|j: int, i: int|
        ws_live(s.workspaces_map@, j) && 0 <= i < ws_at(s.workspaces_map@, j).children@.len()
            ==> #[trigger] ws_at(s.workspaces_map@, j).children@[i] != x
}

/// A handle nowhere owned appears on no row of the todo pane.
pub proof fn lemma_todo_nowhere_not_shown(
    s: SlotMapStore,
    opened: Seq<usize>,
    sel: Option<usize>,
    x: usize,
)
    requires
        todo_nowhere(s, x),
        match sel {
            Some(w) => ws_live(s.workspaces_map@, w as int),
            None => true,
        },
    ensures
        !row_keys(todo_rows(s, opened, sel)).contains(x),
{
    match sel {
        None => {
            assert(row_keys(todo_rows(s, opened, sel)) =~= Seq::<usize>::empty());
        },
        Some(w) => {
            let rows = todo_rows(s, opened, sel);
            if row_keys(rows).contains(x) {
                let j = choose|j: int| 0 <= j < row_keys(rows).len() && row_keys(rows)[j] == x;
                lemma_todo_rows_row_source(s, opened, ws_at(s.workspaces_map@, w as int).todos@, j);
                if ws_at(s.workspaces_map@, w as int).todos@.contains(x) {
                    let i = choose|i: int|
                        0 <= i < ws_at(s.workspaces_map@, w as int).todos@.len() && ws_at(
                            s.workspaces_map@,
                            w as int,
                        ).todos@[i] == x;
                    assert(false);
                }
            }
        },
    }
}

/// A handle nowhere owned appears on no row of the workspace pane.
pub proof fn lemma_ws_nowhere_not_shown(s: SlotMapStore, opened: Seq<usize>, x: usize)
    requires
        ws_nowhere(s, x),
    ensures
        !row_keys(ws_rows(s, opened)).contains(x),
{
    let rows = ws_rows(s, opened);
    if row_keys(rows).contains(x) {
        let j = choose|j: int| 0 <= j < row_keys(rows).len() && row_keys(rows)[j] == x;
        lemma_ws_rows_row_source(s, opened, s.root_workspaces@, j);
        if s.root_workspaces@.contains(x) {
            let i = choose|i: int|
                0 <= i < s.root_workspaces@.len() && s.root_workspaces@[i] == x;
            assert(false);
        }
    }
}

/// Detaching one child from one live todo keeps the store consistent, leaves
/// the workspace pane as it was, and leaves the detached handle owned by
/// nobody.
pub proof fn lemma_todo_detach_from_todo(
    s1: SlotMapStore,
    s2: SlotMapStore,
    p: int,
    pos: int,
    opened_ws: Seq<usize>,
)
    requires
        s1.wf(),
        todo_live(s1.todos_map@, p),
        0 <= pos < todo_at(s1.todos_map@, p).children@.len(),
        s2.workspaces_map == s1.workspaces_map,
        s2.root_workspaces == s1.root_workspaces,
        s2.todos_map@.len() == s1.todos_map@.len(),
        forall|j: int|
            0 <= j < s1.todos_map@.len() && j != p ==> s2.todos_map@[j] == #[trigger] s1.todos_map@[j],
        todo_live(s2.todos_map@, p),
        todo_at(s2.todos_map@, p).children@ == todo_at(s1.todos_map@, p).children@.remove(pos),
    ensures
        s2.wf(),
        ws_rows(s2, opened_ws) == ws_rows(s1, opened_ws),
        todo_nowhere(s2, todo_at(s1.todos_map@, p).children@[pos]),
        forall|j: int| ws_live(s2.workspaces_map@, j) == ws_live(s1.workspaces_map@, j),
        forall|j: int| todo_live(s2.todos_map@, j) == todo_live(s1.todos_map@, j),
{
    let tm1 = s1.todos_map@;
    let tm2 = s2.todos_map@;
    let wm = s1.workspaces_map@;
    let c1 = todo_at(tm1, p).children@;
    let c2 = todo_at(tm2, p).children@;
    let x = c1[pos];
    c1.remove_ensures(pos);
    assert(c2.len() == c1.len() - 1);
    assert forall|j: int| todo_live(tm1, j) == todo_live(tm2, j) by {
        if 0 <= j < tm1.len() && j != p {
            assert(tm2[j] == tm1[j]);
        }
    }
    assert forall|j: int, i: int|
        todo_live(tm1, j) && 0 <= i < todo_at(tm2, j).children@.len() implies todo_at(
            tm1,
            j,
        ).children@.contains(#[trigger] todo_at(tm2, j).children@[i]) by {
        if j != p {
            assert(tm2[j] == tm1[j]);
            assert(todo_at(tm1, j).children@[i] == todo_at(tm2, j).children@[i]);
        } else {
            if i < pos {
                assert(c2[i] == c1[i]);
            } else {
                assert(c2[i] == c1[i + 1]);
            }
        }
    }
    assert forall|k: int| todo_live(tm2, k) implies #[trigger] todo_bounded(
        tm2,
        k,
        s2.tfuel(),
    ) by {
        lemma_todo_bounded_shrink(tm1, tm2, k, s1.tfuel());
    }
    assert forall|k: int| ws_live(wm, k) implies #[trigger] ws_bounded(wm, k, s2.wfuel()) by {
        assert(ws_bounded(wm, k, s1.wfuel()));
    }
    assert(s2.links_ok());
    // every child slot of a live todo in s2 maps to an owner slot in s1
    assert forall|j1: int, i1: int, j2: int, i2: int|
        todo_live(tm2, j1) && todo_live(tm2, j2) && 0 <= i1 < todo_at(tm2, j1).children@.len()
            && 0 <= i2 < todo_at(tm2, j2).children@.len() && (j1 != j2 || i1 != i2)
        implies #[trigger] todo_at(tm2, j1).children@[i1] != #[trigger] todo_at(
            tm2,
            j2,
        ).children@[i2] by {
        let m1 = if j1 != p { i1 } else if i1 < pos { i1 } else { i1 + 1 };
        let m2 = if j2 != p { i2 } else if i2 < pos { i2 } else { i2 + 1 };
        if j1 != p {
            assert(tm2[j1] == tm1[j1]);
        }
        if j2 != p {
            assert(tm2[j2] == tm1[j2]);
        }
        assert(todo_at(tm2, j1).children@[i1] == todo_at(tm1, j1).children@[m1]);
        assert(todo_at(tm2, j2).children@[i2] == todo_at(tm1, j2).children@[m2]);
        assert(todo_at(tm1, j1).children@[m1] != todo_at(tm1, j2).children@[m2]);
    }
    assert forall|j1: int, i1: int, j2: int, i2: int|
        ws_live(wm, j1) && ws_live(wm, j2) && 0 <= i1 < ws_at(wm, j1).todos@.len() && 0 <= i2
            < ws_at(wm, j2).todos@.len() && (j1 != j2 || i1 != i2) implies #[trigger] ws_at(
            wm,
            j1,
        ).todos@[i1] != #[trigger] ws_at(wm, j2).todos@[i2] by {
        assert(ws_at(s1.workspaces_map@, j1).todos@[i1] != ws_at(
            s1.workspaces_map@,
            j2,
        ).todos@[i2]);
    }
    assert forall|j1: int, i1: int, j2: int, i2: int|
        ws_live(wm, j1) && todo_live(tm2, j2) && 0 <= i1 < ws_at(wm, j1).todos@.len() && 0 <= i2
            < todo_at(tm2, j2).children@.len() implies #[trigger] ws_at(wm, j1).todos@[i1]
            != #[trigger] todo_at(tm2, j2).children@[i2] by {
        let m2 = if j2 != p { i2 } else if i2 < pos { i2 } else { i2 + 1 };
        if j2 != p {
            assert(tm2[j2] == tm1[j2]);
        }
        assert(todo_at(tm2, j2).children@[i2] == todo_at(tm1, j2).children@[m2]);
        assert(ws_at(wm, j1).todos@[i1] != todo_at(tm1, j2).children@[m2]);
    }
    assert(s2.todo_owners_ok());
    assert(s2.ws_owners_ok());
    assert(ws_children_same(s1.workspaces_map@, s2.workspaces_map@));
    crate::tree::lemma_ws_rows_links(s1, s2, opened_ws);
    // nobody owns x any more: its one owner slot was (p, pos)
    assert forall|j: int, i: int|
        ws_live(s2.workspaces_map@, j) && 0 <= i < ws_at(s2.workspaces_map@, j).todos@.len()
        implies #[trigger] ws_at(s2.workspaces_map@, j).todos@[i] != x by {
        assert(ws_at(wm, j).todos@[i] != todo_at(tm1, p).children@[pos]);
    }
    assert forall|j: int, i: int|
        todo_live(tm2, j) && 0 <= i < todo_at(tm2, j).children@.len()
        implies #[trigger] todo_at(tm2, j).children@[i] != x by {
        let m = if j != p { i } else if i < pos { i } else { i + 1 };
        if j != p {
            assert(tm2[j] == tm1[j]);
        }
        assert(todo_at(tm2, j).children@[i] == todo_at(tm1, j).children@[m]);
        assert((j, m) != (p, pos) ==> todo_at(tm1, j).children@[m] != todo_at(
            tm1,
            p,
        ).children@[pos]);
    }
}

/// Detaching one todo from a live workspace's own list keeps the store
/// consistent, leaves the workspace pane as it was, and leaves the detached
/// handle owned by nobody.
pub proof fn lemma_todo_detach_from_ws(
    s1: SlotMapStore,
    s2: SlotMapStore,
    w: int,
    pos: int,
    opened_ws: Seq<usize>,
)
    requires
        s1.wf(),
        ws_live(s1.workspaces_map@, w),
        0 <= pos < ws_at(s1.workspaces_map@, w).todos@.len(),
        s2.todos_map == s1.todos_map,
        s2.root_workspaces == s1.root_workspaces,
        s2.workspaces_map@.len() == s1.workspaces_map@.len(),
        forall|j: int|
            0 <= j < s1.workspaces_map@.len() && j != w ==> s2.workspaces_map@[j]
                == #[trigger] s1.workspaces_map@[j],
        ws_live(s2.workspaces_map@, w),
        ws_at(s2.workspaces_map@, w).children@ == ws_at(s1.workspaces_map@, w).children@,
        ws_at(s2.workspaces_map@, w).todos@ == ws_at(s1.workspaces_map@, w).todos@.remove(pos),
    ensures
        s2.wf(),
        ws_rows(s2, opened_ws) == ws_rows(s1, opened_ws),
        todo_nowhere(s2, ws_at(s1.workspaces_map@, w).todos@[pos]),
        forall|j: int| ws_live(s2.workspaces_map@, j) == ws_live(s1.workspaces_map@, j),
        forall|j: int| todo_live(s2.todos_map@, j) == todo_live(s1.todos_map@, j),
{
    let wm1 = s1.workspaces_map@;
    let wm2 = s2.workspaces_map@;
    let tm = s1.todos_map@;
    let t1 = ws_at(wm1, w).todos@;
    let t2 = ws_at(wm2, w).todos@;
    let x = t1[pos];
    t1.remove_ensures(pos);
    assert forall|j: int| ws_live(wm1, j) == ws_live(wm2, j) by {
        if 0 <= j < wm1.len() && j != w {
            assert(wm2[j] == wm1[j]);
        }
    }
    assert forall|j: int| ws_live(wm1, j) implies (#[trigger] ws_at(wm2, j)).children@ == ws_at(
        wm1,
        j,
    ).children@ by {
        if j != w {
            assert(wm2[j] == wm1[j]);
        }
    }
    assert(ws_children_same(wm1, wm2));
    assert forall|k: int| ws_live(wm2, k) implies #[trigger] ws_bounded(wm2, k, s2.wfuel()) by {
        crate::arena::lemma_ws_bounded_links(wm1, wm2, k, s1.wfuel());
    }
    assert forall|k: int| ws_live(wm2, k) implies forall|i: int|
        0 <= i < ws_at(wm2, k).todos@.len() ==> todo_live(
            tm,
            #[trigger] ws_at(wm2, k).todos@[i] as int,
        ) by {
        assert forall|i: int| 0 <= i < ws_at(wm2, k).todos@.len() implies todo_live(
            tm,
            #[trigger] ws_at(wm2, k).todos@[i] as int,
        ) by {
            let m = if k != w { i } else if i < pos { i } else { i + 1 };
            if k != w {
                assert(wm2[k] == wm1[k]);
            }
            assert(ws_at(wm2, k).todos@[i] == ws_at(wm1, k).todos@[m]);
            assert(todo_live(tm, ws_at(wm1, k).todos@[m] as int));
        }
    }
    assert forall|i: int| 0 <= i < s2.root_workspaces@.len() implies ws_live(
        wm2,
        #[trigger] s2.root_workspaces@[i] as int,
    ) by {
        assert(ws_live(wm1, s1.root_workspaces@[i] as int));
    }
    assert forall|k: int| todo_live(s2.todos_map@, k) implies #[trigger] todo_bounded(
        s2.todos_map@,
        k,
        s2.tfuel(),
    ) by {
        assert(todo_bounded(s1.todos_map@, k, s1.tfuel()));
    }
    assert(s2.links_ok());
    assert forall|j1: int, i1: int, j2: int, i2: int|
        ws_live(wm2, j1) && ws_live(wm2, j2) && 0 <= i1 < ws_at(wm2, j1).todos@.len() && 0 <= i2
            < ws_at(wm2, j2).todos@.len() && (j1 != j2 || i1 != i2) implies #[trigger] ws_at(
            wm2,
            j1,
        ).todos@[i1] != #[trigger] ws_at(wm2, j2).todos@[i2] by {
        let m1 = if j1 != w { i1 } else if i1 < pos { i1 } else { i1 + 1 };
        let m2 = if j2 != w { i2 } else if i2 < pos { i2 } else { i2 + 1 };
        if j1 != w {
            assert(wm2[j1] == wm1[j1]);
        }
        if j2 != w {
            assert(wm2[j2] == wm1[j2]);
        }
        assert(ws_at(wm2, j1).todos@[i1] == ws_at(wm1, j1).todos@[m1]);
        assert(ws_at(wm2, j2).todos@[i2] == ws_at(wm1, j2).todos@[m2]);
        assert(ws_at(wm1, j1).todos@[m1] != ws_at(wm1, j2).todos@[m2]);
    }
    assert forall|j1: int, i1: int, j2: int, i2: int|
        ws_live(wm2, j1) && todo_live(tm, j2) && 0 <= i1 < ws_at(wm2, j1).todos@.len() && 0 <= i2
            < todo_at(tm, j2).children@.len() implies #[trigger] ws_at(wm2, j1).todos@[i1]
            != #[trigger] todo_at(tm, j2).children@[i2] by {
        let m1 = if j1 != w { i1 } else if i1 < pos { i1 } else { i1 + 1 };
        if j1 != w {
            assert(wm2[j1] == wm1[j1]);
        }
        assert(ws_at(wm2, j1).todos@[i1] == ws_at(wm1, j1).todos@[m1]);
        assert(ws_at(wm1, j1).todos@[m1] != todo_at(tm, j2).children@[i2]);
    }
    assert(s2.todo_owners_ok());
    assert forall|j1: int, i1: int, j2: int, i2: int|
        ws_live(wm2, j1) && ws_live(wm2, j2) && 0 <= i1 < ws_at(wm2, j1).children@.len() && 0 <= i2
            < ws_at(wm2, j2).children@.len() && (j1 != j2 || i1 != i2) implies #[trigger] ws_at(
            wm2,
            j1,
        ).children@[i1] != #[trigger] ws_at(wm2, j2).children@[i2] by {
        assert(ws_at(wm1, j1).children@[i1] != ws_at(wm1, j2).children@[i2]);
    }
    assert forall|i: int, j: int, i2: int|
        0 <= i < s2.root_workspaces@.len() && ws_live(wm2, j) && 0 <= i2 < ws_at(
            wm2,
            j,
        ).children@.len() implies #[trigger] s2.root_workspaces@[i] != #[trigger] ws_at(
            wm2,
            j,
        ).children@[i2] by {
        assert(s1.root_workspaces@[i] != ws_at(wm1, j).children@[i2]);
    }
    assert(s2.ws_owners_ok());
    crate::tree::lemma_ws_rows_links(s1, s2, opened_ws);
    // nobody owns x any more: its one owner slot was (w, pos)
    assert forall|j: int, i: int|
        ws_live(wm2, j) && 0 <= i < ws_at(wm2, j).todos@.len() implies #[trigger] ws_at(
            wm2,
            j,
        ).todos@[i] != x by {
        let m = if j != w { i } else if i < pos { i } else { i + 1 };
        if j != w {
            assert(wm2[j] == wm1[j]);
        }
        assert(ws_at(wm2, j).todos@[i] == ws_at(wm1, j).todos@[m]);
        assert((j, m) != (w, pos) ==> ws_at(wm1, j).todos@[m] != ws_at(wm1, w).todos@[pos]);
    }
    assert forall|j: int, i: int|
        todo_live(tm, j) && 0 <= i < todo_at(tm, j).children@.len() implies #[trigger] todo_at(
            tm,
            j,
        ).children@[i] != x by {
        assert(todo_at(tm, j).children@[i] != ws_at(wm1, w).todos@[pos]);
    }
}

/// The selection after a deletion: the row at the deleted row's flattened
/// index, clamped to the shorter tree; none if the tree emptied.
pub open spec fn reselected(rows: Seq<ActiveTree>, j: int) -> Option<usize> {
    if rows.len() == 0 {
        None
    } else if j < rows.len() {
        Some(rows[j].key)
    } else {
        Some(rows[rows.len() - 1].key)
    }
}

/// How a store follows from another by detaching the todo `x` from the
/// owner named on its row: the owner's list loses its first occurrence of
/// `x`, and nothing else changes.
pub open spec fn detach_todo_rel(
    s1: SlotMapStore,
    s2: SlotMapStore,
    rows: Seq<ActiveTree>,
    sel_ws: Option<usize>,
    x: usize,
) -> bool {
    let j = first_index(row_keys(rows), x);
    match rows[j].parent {
        Some(p) => {
            &&& s2.workspaces_map == s1.workspaces_map
            &&& s2.root_workspaces == s1.root_workspaces
            &&& s2.todos_map@.len() == s1.todos_map@.len()
            &&& forall|q: int|
                0 <= q < s1.todos_map@.len() && q != p ==> s2.todos_map@[q]
                    == #[trigger] s1.todos_map@[q]
            &&& todo_live(s2.todos_map@, p as int)
            &&& todo_at(s2.todos_map@, p as int) == (TodoItem {
                children: todo_at(s2.todos_map@, p as int).children,
                ..todo_at(s1.todos_map@, p as int)
            })
            &&& todo_at(s2.todos_map@, p as int).children@ == remove_first(
                todo_at(s1.todos_map@, p as int).children@,
                x,
            )
        },
        None => {
            let w = sel_ws->Some_0;
            &&& sel_ws is Some
            &&& s2.todos_map == s1.todos_map
            &&& s2.root_workspaces == s1.root_workspaces
            &&& s2.workspaces_map@.len() == s1.workspaces_map@.len()
            &&& forall|q: int|
                0 <= q < s1.workspaces_map@.len() && q != w ==> s2.workspaces_map@[q]
                    == #[trigger] s1.workspaces_map@[q]
            &&& ws_live(s2.workspaces_map@, w as int)
            &&& ws_at(s2.workspaces_map@, w as int) == (WorkspaceItem {
                todos: ws_at(s2.workspaces_map@, w as int).todos,
                ..ws_at(s1.workspaces_map@, w as int)
            })
            &&& ws_at(s2.workspaces_map@, w as int).todos@ == remove_first(
                ws_at(s1.workspaces_map@, w as int).todos@,
                x,
            )
        },
    }
}

impl App {
    /// Detach the todo `selected` from whatever owns it — the parent todo
    /// named on its visible row, or the selected workspace's own list — then
    /// select the row now occupying its flattened index, clamped to the
    /// shorter tree, or nothing if the pane emptied. The detached handle sits
    /// on no row afterwards; its subtree's slots stay in the arena, so
    /// clipboard entries recorded before stay usable. A handle on no visible
    /// row is left alone.
    pub fn delete_todo(&mut self, selected: usize)
        requires
            old(self).wf(),
            old(self).active_screen == Screen::Todos,
            old(self).sorting == SortingItem::Idle,
        ensures
            final(self).wf(),
            !row_keys(old(self).slot_tree_state.todo_tree@).contains(selected) ==> *final(self)
                == *old(self),
            row_keys(old(self).slot_tree_state.todo_tree@).contains(selected) ==> {
                &&& !row_keys(final(self).slot_tree_state.todo_tree@).contains(selected)
                &&& final(self).slot_tree_state.selected_todo == reselected(
                    final(self).slot_tree_state.todo_tree@,
                    first_index(row_keys(old(self).slot_tree_state.todo_tree@), selected),
                )
                &&& detach_todo_rel(
                    old(self).slot_map_store,
                    final(self).slot_map_store,
                    old(self).slot_tree_state.todo_tree@,
                    old(self).slot_tree_state.selected_workspace,
                    selected,
                )
                &&& final(self).slot_tree_state.ws_tree@ == old(self).slot_tree_state.ws_tree@
                &&& final(self).slot_tree_state.selected_workspace == old(
                    self,
                ).slot_tree_state.selected_workspace
                &&& final(self).slot_tree_state.ws_opened == old(self).slot_tree_state.ws_opened
                &&& final(self).slot_tree_state.todo_opened == old(
                    self,
                ).slot_tree_state.todo_opened
                &&& final(self).slot_tree_state.multi_selected_todos == old(
                    self,
                ).slot_tree_state.multi_selected_todos
                &&& final(self).slot_tree_state.multi_selected_workspaces == old(
                    self,
                ).slot_tree_state.multi_selected_workspaces
                &&& unchanged_modes(*old(self), *final(self))
            },
    {
        let ix = find_row(&self.slot_tree_state.todo_tree, selected);
        match ix {
            None => {},
            Some(j) => {
                proof {
                    lemma_first_index_agrees(
                        self.slot_tree_state.todo_tree@,
                        selected,
                        j as int,
                    );
                    match self.slot_tree_state.selected_workspace {
                        Some(w) => {
                            lemma_todo_rows_row_source(
                                self.slot_map_store,
                                self.slot_tree_state.todo_opened@,
                                ws_at(
                                    self.slot_map_store.workspaces_map@,
                                    w as int,
                                ).todos@,
                                j as int,
                            );
                        },
                        None => {},
                    }
                }
                let par = self.slot_tree_state.todo_tree[j].parent;
                let ghost s1 = self.slot_map_store;
                match par {
                    Some(p) => {
                        let pos = {
                            let slot = &self.slot_map_store.todos_map[p];
                            let it = slot.as_ref().unwrap();
                            match position_usize(&it.children, selected) {
                                Some(q) => q,
                                None => 0,
                            }
                        };
                        proof {
                            lemma_first_index_usize(
                                todo_at(s1.todos_map@, p as int).children@,
                                selected,
                                pos as int,
                            );
                        }
                        let slot = &mut self.slot_map_store.todos_map[p];
                        match slot {
                            Some(it) => {
                                it.children.remove(pos);
                            },
                            None => {},
                        }
                        proof {
                            lemma_todo_detach_from_todo(
                                s1,
                                self.slot_map_store,
                                p as int,
                                pos as int,
                                self.slot_tree_state.ws_opened@,
                            );
                        }
                    },
                    None => {
                        let w = match self.slot_tree_state.selected_workspace {
                            Some(w) => w,
                            None => 0,
                        };
                        let pos = {
                            let slot = &self.slot_map_store.workspaces_map[w];
                            let it = slot.as_ref().unwrap();
                            match position_usize(&it.todos, selected) {
                                Some(q) => q,
                                None => 0,
                            }
                        };
                        proof {
                            lemma_first_index_usize(
                                ws_at(s1.workspaces_map@, w as int).todos@,
                                selected,
                                pos as int,
                            );
                        }
                        let slot = &mut self.slot_map_store.workspaces_map[w];
                        match slot {
                            Some(it) => {
                                it.todos.remove(pos);
                            },
                            None => {},
                        }
                        proof {
                            lemma_todo_detach_from_ws(
                                s1,
                                self.slot_map_store,
                                w as int,
                                pos as int,
                                self.slot_tree_state.ws_opened@,
                            );
                        }
                    },
                }
                self.slot_tree_state.update_workspace_tree_state(&self.slot_map_store);
                let n = self.slot_tree_state.todo_tree.len();
                if n == 0 {
                    self.slot_tree_state.selected_todo = None;
                } else {
                    let jj = if j < n {
                        j
                    } else {
                        n - 1
                    };
                    let k = self.slot_tree_state.todo_tree[jj].key;
                    proof {
                        assert(row_keys(self.slot_tree_state.todo_tree@)[jj as int] == k);
                        lemma_todo_tree_member_live(
                            self.slot_map_store,
                            self.slot_tree_state.todo_opened@,
                            self.slot_tree_state.selected_workspace,
                            k,
                        );
                    }
                    self.slot_tree_state.selected_todo = Some(k);
                }
                proof {
                    lemma_todo_nowhere_not_shown(
                        self.slot_map_store,
                        self.slot_tree_state.todo_opened@,
                        self.slot_tree_state.selected_workspace,
                        selected,
                    );
                }
            },
        }
    }
}

/// Detaching one child from one live workspace keeps the store consistent
/// and leaves the detached handle owned by nobody.
pub proof fn lemma_ws_detach_from_parent(s1: SlotMapStore, s2: SlotMapStore, p: int, pos: int)
    requires
        s1.wf(),
        ws_live(s1.workspaces_map@, p),
        0 <= pos < ws_at(s1.workspaces_map@, p).children@.len(),
        s2.todos_map == s1.todos_map,
        s2.root_workspaces == s1.root_workspaces,
        s2.workspaces_map@.len() == s1.workspaces_map@.len(),
        forall|j: int|
            0 <= j < s1.workspaces_map@.len() && j != p ==> s2.workspaces_map@[j]
                == #[trigger] s1.workspaces_map@[j],
        ws_live(s2.workspaces_map@, p),
        ws_at(s2.workspaces_map@, p).todos@ == ws_at(s1.workspaces_map@, p).todos@,
        ws_at(s2.workspaces_map@, p).children@ == ws_at(s1.workspaces_map@, p).children@.remove(
            pos,
        ),
    ensures
        s2.wf(),
        ws_nowhere(s2, ws_at(s1.workspaces_map@, p).children@[pos]),
        forall|j: int| ws_live(s2.workspaces_map@, j) == ws_live(s1.workspaces_map@, j),
        forall|j: int| todo_live(s2.todos_map@, j) == todo_live(s1.todos_map@, j),
{
    let wm1 = s1.workspaces_map@;
    let wm2 = s2.workspaces_map@;
    let tm = s1.todos_map@;
    let c1 = ws_at(wm1, p).children@;
    let c2 = ws_at(wm2, p).children@;
    let x = c1[pos];
    c1.remove_ensures(pos);
    assert forall|j: int| ws_live(wm1, j) == ws_live(wm2, j) by {
        if 0 <= j < wm1.len() && j != p {
            assert(wm2[j] == wm1[j]);
        }
    }
    assert forall|j: int, i: int|
        ws_live(wm1, j) && 0 <= i < ws_at(wm2, j).children@.len() implies ws_at(
            wm1,
            j,
        ).children@.contains(#[trigger] ws_at(wm2, j).children@[i]) by {
        if j != p {
            assert(wm2[j] == wm1[j]);
            assert(ws_at(wm1, j).children@[i] == ws_at(wm2, j).children@[i]);
        } else {
            if i < pos {
                assert(c2[i] == c1[i]);
            } else {
                assert(c2[i] == c1[i + 1]);
            }
        }
    }
    assert forall|k: int| ws_live(wm2, k) implies #[trigger] ws_bounded(wm2, k, s2.wfuel()) by {
        lemma_ws_bounded_shrink(wm1, wm2, k, s1.wfuel());
    }
    assert forall|k: int| ws_live(wm2, k) implies forall|i: int|
        0 <= i < ws_at(wm2, k).todos@.len() ==> todo_live(
            tm,
            #[trigger] ws_at(wm2, k).todos@[i] as int,
        ) by {
        assert forall|i: int| 0 <= i < ws_at(wm2, k).todos@.len() implies todo_live(
            tm,
            #[trigger] ws_at(wm2, k).todos@[i] as int,
        ) by {
            if k != p {
                assert(wm2[k] == wm1[k]);
            }
            assert(ws_at(wm2, k).todos@[i] == ws_at(wm1, k).todos@[i]);
            assert(todo_live(tm, ws_at(wm1, k).todos@[i] as int));
        }
    }
    assert forall|i: int| 0 <= i < s2.root_workspaces@.len() implies ws_live(
        wm2,
        #[trigger] s2.root_workspaces@[i] as int,
    ) by {
        assert(ws_live(wm1, s1.root_workspaces@[i] as int));
    }
    assert forall|k: int| todo_live(s2.todos_map@, k) implies #[trigger] todo_bounded(
        s2.todos_map@,
        k,
        s2.tfuel(),
    ) by {
        assert(todo_bounded(s1.todos_map@, k, s1.tfuel()));
    }
    assert(s2.links_ok());
    assert forall|j1: int, i1: int, j2: int, i2: int|
        ws_live(wm2, j1) && ws_live(wm2, j2) && 0 <= i1 < ws_at(wm2, j1).todos@.len() && 0 <= i2
            < ws_at(wm2, j2).todos@.len() && (j1 != j2 || i1 != i2) implies #[trigger] ws_at(
            wm2,
            j1,
        ).todos@[i1] != #[trigger] ws_at(wm2, j2).todos@[i2] by {
        if j1 != p {
            assert(wm2[j1] == wm1[j1]);
        }
        if j2 != p {
            assert(wm2[j2] == wm1[j2]);
        }
        assert(ws_at(wm2, j1).todos@[i1] == ws_at(wm1, j1).todos@[i1]);
        assert(ws_at(wm2, j2).todos@[i2] == ws_at(wm1, j2).todos@[i2]);
        assert(ws_at(wm1, j1).todos@[i1] != ws_at(wm1, j2).todos@[i2]);
    }
    assert forall|j1: int, i1: int, j2: int, i2: int|
        ws_live(wm2, j1) && todo_live(tm, j2) && 0 <= i1 < ws_at(wm2, j1).todos@.len() && 0 <= i2
            < todo_at(tm, j2).children@.len() implies #[trigger] ws_at(wm2, j1).todos@[i1]
            != #[trigger] todo_at(tm, j2).children@[i2] by {
        if j1 != p {
            assert(wm2[j1] == wm1[j1]);
        }
        assert(ws_at(wm2, j1).todos@[i1] == ws_at(wm1, j1).todos@[i1]);
        assert(ws_at(wm1, j1).todos@[i1] != todo_at(tm, j2).children@[i2]);
    }
    assert(s2.todo_owners_ok());
    assert forall|j1: int, i1: int, j2: int, i2: int|
        ws_live(wm2, j1) && ws_live(wm2, j2) && 0 <= i1 < ws_at(wm2, j1).children@.len() && 0 <= i2
            < ws_at(wm2, j2).children@.len() && (j1 != j2 || i1 != i2) implies #[trigger] ws_at(
            wm2,
            j1,
        ).children@[i1] != #[trigger] ws_at(wm2, j2).children@[i2] by {
        let m1 = if j1 != p { i1 } else if i1 < pos { i1 } else { i1 + 1 };
        let m2 = if j2 != p { i2 } else if i2 < pos { i2 } else { i2 + 1 };
        if j1 != p {
            assert(wm2[j1] == wm1[j1]);
        }
        if j2 != p {
            assert(wm2[j2] == wm1[j2]);
        }
        assert(ws_at(wm2, j1).children@[i1] == ws_at(wm1, j1).children@[m1]);
        assert(ws_at(wm2, j2).children@[i2] == ws_at(wm1, j2).children@[m2]);
        assert(ws_at(wm1, j1).children@[m1] != ws_at(wm1, j2).children@[m2]);
    }
    assert forall|i: int, j: int, i2: int|
        0 <= i < s2.root_workspaces@.len() && ws_live(wm2, j) && 0 <= i2 < ws_at(
            wm2,
            j,
        ).children@.len() implies #[trigger] s2.root_workspaces@[i] != #[trigger] ws_at(
            wm2,
            j,
        ).children@[i2] by {
        let m2 = if j != p { i2 } else if i2 < pos { i2 } else { i2 + 1 };
        if j != p {
            assert(wm2[j] == wm1[j]);
        }
        assert(ws_at(wm2, j).children@[i2] == ws_at(wm1, j).children@[m2]);
        assert(s1.root_workspaces@[i] != ws_at(wm1, j).children@[m2]);
    }
    assert(s2.ws_owners_ok());
    assert forall|i: int| 0 <= i < s2.root_workspaces@.len() implies #[trigger] s2.root_workspaces@[i]
        != x by {
        assert(s1.root_workspaces@[i] != ws_at(wm1, p).children@[pos]);
    }
    assert forall|j: int, i: int|
        ws_live(wm2, j) && 0 <= i < ws_at(wm2, j).children@.len() implies #[trigger] ws_at(
            wm2,
            j,
        ).children@[i] != x by {
        let m = if j != p { i } else if i < pos { i } else { i + 1 };
        if j != p {
            assert(wm2[j] == wm1[j]);
        }
        assert(ws_at(wm2, j).children@[i] == ws_at(wm1, j).children@[m]);
        assert((j, m) != (p, pos) ==> ws_at(wm1, j).children@[m] != ws_at(
            wm1,
            p,
        ).children@[pos]);
    }
}

/// Taking one workspace out of the root list keeps the store consistent and
/// leaves the detached handle owned by nobody.
pub proof fn lemma_ws_detach_from_roots(s1: SlotMapStore, s2: SlotMapStore, pos: int)
    requires
        s1.wf(),
        0 <= pos < s1.root_workspaces@.len(),
        s2.todos_map == s1.todos_map,
        s2.workspaces_map == s1.workspaces_map,
        s2.root_workspaces@ == s1.root_workspaces@.remove(pos),
    ensures
        s2.wf(),
        ws_nowhere(s2, s1.root_workspaces@[pos]),
        forall|j: int| ws_live(s2.workspaces_map@, j) == ws_live(s1.workspaces_map@, j),
        forall|j: int| todo_live(s2.todos_map@, j) == todo_live(s1.todos_map@, j),
{
    let wm = s1.workspaces_map@;
    let r1 = s1.root_workspaces@;
    let r2 = s2.root_workspaces@;
    let x = r1[pos];
    r1.remove_ensures(pos);
    assert forall|i: int| 0 <= i < r2.len() implies ws_live(
        wm,
        #[trigger] r2[i] as int,
    ) by {
        let m = if i < pos { i } else { i + 1 };
        assert(r2[i] == r1[m]);
        assert(ws_live(wm, r1[m] as int));
    }
    assert forall|k: int| todo_live(s2.todos_map@, k) implies #[trigger] todo_bounded(
        s2.todos_map@,
        k,
        s2.tfuel(),
    ) by {
        assert(todo_bounded(s1.todos_map@, k, s1.tfuel()));
    }
    assert forall|k: int| ws_live(s2.workspaces_map@, k) implies #[trigger] ws_bounded(
        s2.workspaces_map@,
        k,
        s2.wfuel(),
    ) by {
        assert(ws_bounded(s1.workspaces_map@, k, s1.wfuel()));
    }
    assert(s2.links_ok());
    assert(s2.todo_owners_ok());
    assert forall|i1: int, i2: int| 0 <= i1 < i2 < r2.len() implies #[trigger] r2[i1]
        != #[trigger] r2[i2] by {
        let m1 = if i1 < pos { i1 } else { i1 + 1 };
        let m2 = if i2 < pos { i2 } else { i2 + 1 };
        assert(r2[i1] == r1[m1]);
        assert(r2[i2] == r1[m2]);
        assert(r1[m1] != r1[m2]);
    }
    assert forall|i: int, j: int, i2: int|
        0 <= i < r2.len() && ws_live(wm, j) && 0 <= i2 < ws_at(wm, j).children@.len()
        implies #[trigger] r2[i] != #[trigger] ws_at(wm, j).children@[i2] by {
        let m = if i < pos { i } else { i + 1 };
        assert(r2[i] == r1[m]);
        assert(r1[m] != ws_at(wm, j).children@[i2]);
    }
    assert(s2.ws_owners_ok());
    assert forall|i: int| 0 <= i < r2.len() implies #[trigger] r2[i] != x by {
        let m = if i < pos { i } else { i + 1 };
        assert(r2[i] == r1[m]);
        assert(r1[m] != r1[pos]);
    }
    assert forall|j: int, i: int|
        ws_live(wm, j) && 0 <= i < ws_at(wm, j).children@.len() implies #[trigger] ws_at(
            wm,
            j,
        ).children@[i] != x by {
        assert(ws_at(wm, j).children@[i] != r1[pos]);
    }
}

/// How a store follows from another by detaching the workspace `x` from the
/// owner named on its row: the parent's child list — or the root list —
/// loses its first occurrence of `x`, and nothing else changes.
pub open spec fn detach_ws_rel(
    s1: SlotMapStore,
    s2: SlotMapStore,
    rows: Seq<ActiveTree>,
    x: usize,
) -> bool {
    let j = first_index(row_keys(rows), x);
    match rows[j].parent {
        Some(p) => {
            &&& s2.todos_map == s1.todos_map
            &&& s2.root_workspaces == s1.root_workspaces
            &&& s2.workspaces_map@.len() == s1.workspaces_map@.len()
            &&& forall|q: int|
                0 <= q < s1.workspaces_map@.len() && q != p ==> s2.workspaces_map@[q]
                    == #[trigger] s1.workspaces_map@[q]
            &&& ws_live(s2.workspaces_map@, p as int)
            &&& ws_at(s2.workspaces_map@, p as int) == (WorkspaceItem {
                children: ws_at(s2.workspaces_map@, p as int).children,
                ..ws_at(s1.workspaces_map@, p as int)
            })
            &&& ws_at(s2.workspaces_map@, p as int).children@ == remove_first(
                ws_at(s1.workspaces_map@, p as int).children@,
                x,
            )
        },
        None => {
            &&& s2.todos_map == s1.todos_map
            &&& s2.workspaces_map == s1.workspaces_map
            &&& s2.root_workspaces@ == remove_first(s1.root_workspaces@, x)
        },
    }
}

impl App {
    /// Detach the workspace `selected` from whatever owns it — the parent
    /// workspace named on its visible row, or the root list — then select
    /// the row now occupying its flattened index, clamped to the shorter
    /// tree, or nothing if the pane emptied. The detached handle sits on no
    /// row afterwards. The todo selection and the todo multi-selection
    /// reset. A handle on no visible row is left alone.
    pub fn delete_workspace(&mut self, selected: usize)
        requires
            old(self).wf(),
            old(self).active_screen == Screen::Workspaces,
            old(self).sorting == SortingItem::Idle,
        ensures
            final(self).wf(),
            !row_keys(old(self).slot_tree_state.ws_tree@).contains(selected) ==> *final(self)
                == *old(self),
            row_keys(old(self).slot_tree_state.ws_tree@).contains(selected) ==> {
                &&& !row_keys(final(self).slot_tree_state.ws_tree@).contains(selected)
                &&& final(self).slot_tree_state.selected_workspace == reselected(
                    final(self).slot_tree_state.ws_tree@,
                    first_index(row_keys(old(self).slot_tree_state.ws_tree@), selected),
                )
                &&& detach_ws_rel(
                    old(self).slot_map_store,
                    final(self).slot_map_store,
                    old(self).slot_tree_state.ws_tree@,
                    selected,
                )
                &&& final(self).slot_tree_state.selected_todo is None
                &&& final(self).slot_tree_state.multi_selected_todos@ == Seq::<usize>::empty()
                &&& final(self).slot_tree_state.ws_opened == old(self).slot_tree_state.ws_opened
                &&& final(self).slot_tree_state.todo_opened == old(
                    self,
                ).slot_tree_state.todo_opened
                &&& final(self).slot_tree_state.multi_selected_workspaces == old(
                    self,
                ).slot_tree_state.multi_selected_workspaces
                &&& unchanged_modes(*old(self), *final(self))
            },
    {
        let ix = find_row(&self.slot_tree_state.ws_tree, selected);
        match ix {
            None => {},
            Some(j) => {
                proof {
                    lemma_first_index_agrees(self.slot_tree_state.ws_tree@, selected, j as int);
                    lemma_ws_rows_row_source(
                        self.slot_map_store,
                        self.slot_tree_state.ws_opened@,
                        self.slot_map_store.root_workspaces@,
                        j as int,
                    );
                }
                let par = self.slot_tree_state.ws_tree[j].parent;
                let ghost s1 = self.slot_map_store;
                match par {
                    Some(p) => {
                        let pos = {
                            let slot = &self.slot_map_store.workspaces_map[p];
                            let it = slot.as_ref().unwrap();
                            match position_usize(&it.children, selected) {
                                Some(q) => q,
                                None => 0,
                            }
                        };
                        proof {
                            lemma_first_index_usize(
                                ws_at(s1.workspaces_map@, p as int).children@,
                                selected,
                                pos as int,
                            );
                        }
                        let slot = &mut self.slot_map_store.workspaces_map[p];
                        match slot {
                            Some(it) => {
                                it.children.remove(pos);
                            },
                            None => {},
                        }
                        proof {
                            lemma_ws_detach_from_parent(
                                s1,
                                self.slot_map_store,
                                p as int,
                                pos as int,
                            );
                        }
                    },
                    None => {
                        let pos = match position_usize(
                            &self.slot_map_store.root_workspaces,
                            selected,
                        ) {
                            Some(q) => q,
                            None => 0,
                        };
                        proof {
                            lemma_first_index_usize(
                                s1.root_workspaces@,
                                selected,
                                pos as int,
                            );
                        }
                        self.slot_map_store.root_workspaces.remove(pos);
                        proof {
                            lemma_ws_detach_from_roots(s1, self.slot_map_store, pos as int);
                        }
                    },
                }
                self.slot_tree_state.selected_todo = None;
                self.slot_tree_state.update_workspace_tree_state(&self.slot_map_store);
                let n = self.slot_tree_state.ws_tree.len();
                if n == 0 {
                    self.slot_tree_state.selected_workspace = None;
                } else {
                    let jj = if j < n {
                        j
                    } else {
                        n - 1
                    };
                    let k = self.slot_tree_state.ws_tree[jj].key;
                    proof {
                        assert(row_keys(self.slot_tree_state.ws_tree@)[jj as int] == k);
                        lemma_ws_tree_member_live(
                            self.slot_map_store,
                            self.slot_tree_state.ws_opened@,
                            k,
                        );
                    }
                    self.slot_tree_state.selected_workspace = Some(k);
                }
                self.clear_multi_selection_when_workspace_changes();
                self.slot_tree_state.update_workspace_tree_state(&self.slot_map_store);
                proof {
                    lemma_ws_nowhere_not_shown(
                        self.slot_map_store,
                        self.slot_tree_state.ws_opened@,
                        selected,
                    );
                }
            },
        }
    }
}

/// A bounded tree whose slots all lie in a self-contained region is immune
/// to changes outside the region.
pub proof fn lemma_todo_bounded_region(
    tma: Seq<Option<TodoItem>>,
    tmb: Seq<Option<TodoItem>>,
    a: int,
    b: int,
    k: int,
    g: nat,
)
    requires
        crate::arena::todo_region_wf(tma, a, b),
        b <= tma.len(),
        b <= tmb.len(),
        forall|j: int| a <= j < b ==> tmb[j] == #[trigger] tma[j],
        a <= k < b,
        todo_bounded(tma, k, g),
    ensures
        todo_bounded(tmb, k, g),
    decreases g,
{
    assert(tmb[k] == tma[k]);
    assert(crate::arena::handles_in(todo_at(tma, k).children@, a, k));
    assert forall|i: int| 0 <= i < todo_at(tmb, k).children@.len() implies todo_bounded(
        tmb,
        #[trigger] todo_at(tmb, k).children@[i] as int,
        (g - 1) as nat,
    ) by {
        let c = todo_at(tma, k).children@[i];
        assert(a <= c < k);
        assert(todo_bounded(tma, c as int, (g - 1) as nat));
        lemma_todo_bounded_region(tma, tmb, a, b, c as int, (g - 1) as nat);
    }
}

/// Attaching a bounded fresh subtree below one node keeps every old tree
/// bounded, at fuel grown by the fresh subtree's.
#[verifier::rlimit(100)]
pub proof fn lemma_todo_bounded_attach(
    tm1: Seq<Option<TodoItem>>,
    tm2: Seq<Option<TodoItem>>,
    p: int,
    pos: int,
    n: usize,
    k: int,
    f: nat,
    g: nat,
)
    requires
        tm1.len() <= tm2.len(),
        forall|j: int| 0 <= j < tm1.len() && j != p ==> tm2[j] == #[trigger] tm1[j],
        todo_live(tm1, p),
        todo_live(tm2, p),
        0 <= pos <= todo_at(tm1, p).children@.len(),
        todo_at(tm2, p).children@ == todo_at(tm1, p).children@.insert(pos, n),
        todo_bounded(tm2, n as int, g),
        todo_bounded(tm1, k, f),
    ensures
        todo_bounded(tm2, k, (f + g) as nat),
    decreases f,
{
    let c1 = todo_at(tm1, k).children@;
    let c2 = todo_at(tm2, k).children@;
    if k != p {
        assert(tm2[k] == tm1[k]);
    }
    assert forall|i: int| 0 <= i < c2.len() implies todo_bounded(
        tm2,
        #[trigger] c2[i] as int,
        (f + g - 1) as nat,
    ) by {
        if k == p {
            todo_at(tm1, p).children@.insert_ensures(pos, n);
            if i == pos {
                lemma_todo_v_fuel(tm2, n as int, g, (f + g - 1) as nat);
            } else {
                let m = if i < pos {
                    i
                } else {
                    i - 1
                };
                assert(c2[i] == c1[m]);
                assert(todo_bounded(tm1, c1[m] as int, (f - 1) as nat));
                lemma_todo_bounded_attach(tm1, tm2, p, pos, n, c1[m] as int, (f - 1) as nat, g);
            }
        } else {
            assert(c2[i] == c1[i]);
            assert(todo_bounded(tm1, c1[i] as int, (f - 1) as nat));
            lemma_todo_bounded_attach(tm1, tm2, p, pos, n, c1[i] as int, (f - 1) as nat, g);
        }
    }
}

/// Entries of live todos' child lists are live.
pub proof fn lemma_todo_child_entries_live(s: SlotMapStore, j: int, i: int)
    requires
        s.wf(),
        todo_live(s.todos_map@, j),
        0 <= i < todo_at(s.todos_map@, j).children@.len(),
    ensures
        todo_live(s.todos_map@, todo_at(s.todos_map@, j).children@[i] as int),
{
    assert(todo_bounded(s.todos_map@, j, s.tfuel()));
    assert(todo_bounded(
        s.todos_map@,
        todo_at(s.todos_map@, j).children@[i] as int,
        (s.tfuel() - 1) as nat,
    ));
}

/// How a store follows from another by growing the todo arena with a fresh
/// self-contained subtree rooted at `n` and hanging `n` at position `pos` of
/// one owner — the children of todo `p`, or the todos of workspace `w`.
pub open spec fn attach_todo_shape(
    s1: SlotMapStore,
    s2: SlotMapStore,
    owner_todo: Option<usize>,
    w: usize,
    pos: int,
    n: usize,
) -> bool {
    let tm1 = s1.todos_map@;
    let tm2 = s2.todos_map@;
    &&& s2.root_workspaces == s1.root_workspaces
    &&& tm1.len() < tm2.len()
    &&& tm1.len() <= n < tm2.len()
    &&& crate::arena::todo_region_wf(tm2, tm1.len() as int, tm2.len() as int)
    &&& crate::arena::todo_unreferenced_in(tm2, n, tm1.len() as int, tm2.len() as int)
    &&& todo_bounded(tm2, n as int, (tm2.len() - tm1.len()) as nat)
    &&& forall|j: int|
        tm1.len() <= j < tm2.len() ==> #[trigger] todo_bounded(
            tm2,
            j,
            (tm2.len() + 1) as nat,
        )
    &&& match owner_todo {
        Some(p) => {
            &&& s2.workspaces_map == s1.workspaces_map
            &&& todo_live(tm1, p as int)
            &&& 0 <= pos <= todo_at(tm1, p as int).children@.len()
            &&& forall|j: int|
                0 <= j < tm1.len() && j != p ==> tm2[j] == #[trigger] tm1[j]
            &&& todo_live(tm2, p as int)
            &&& todo_at(tm2, p as int) == (TodoItem {
                children: todo_at(tm2, p as int).children,
                ..todo_at(tm1, p as int)
            })
            &&& todo_at(tm2, p as int).children@ == todo_at(tm1, p as int).children@.insert(
                pos,
                n,
            )
        },
        None => {
            &&& forall|j: int| 0 <= j < tm1.len() ==> tm2[j] == #[trigger] tm1[j]
            &&& ws_live(s1.workspaces_map@, w as int)
            &&& 0 <= pos <= ws_at(s1.workspaces_map@, w as int).todos@.len()
            &&& s2.workspaces_map@.len() == s1.workspaces_map@.len()
            &&& forall|q: int|
                0 <= q < s1.workspaces_map@.len() && q != w ==> s2.workspaces_map@[q]
                    == #[trigger] s1.workspaces_map@[q]
            &&& ws_live(s2.workspaces_map@, w as int)
            &&& ws_at(s2.workspaces_map@, w as int) == (WorkspaceItem {
                todos: ws_at(s2.workspaces_map@, w as int).todos,
                ..ws_at(s1.workspaces_map@, w as int)
            })
            &&& ws_at(s2.workspaces_map@, w as int).todos@ == ws_at(
                s1.workspaces_map@,
                w as int,
            ).todos@.insert(pos, n)
        },
    }
}

/// Growing the todo arena by a fresh subtree and hanging it under one owner
/// keeps the store consistent and the workspace pane unchanged.
pub proof fn lemma_todo_attach(
    s1: SlotMapStore,
    s2: SlotMapStore,
    owner_todo: Option<usize>,
    w: usize,
    pos: int,
    n: usize,
    opened_ws: Seq<usize>,
)
    requires
        s1.wf(),
        attach_todo_shape(s1, s2, owner_todo, w, pos, n),
    ensures
        s2.wf(),
        ws_rows(s2, opened_ws) == ws_rows(s1, opened_ws),
        forall|j: int| ws_live(s2.workspaces_map@, j) == ws_live(s1.workspaces_map@, j),
        forall|j: int| todo_live(s1.todos_map@, j) ==> todo_live(s2.todos_map@, j),
    decreases 1int,
{
    let tm1 = s1.todos_map@;
    let tm2 = s2.todos_map@;
    let wm1 = s1.workspaces_map@;
    let wm2 = s2.workspaces_map@;
    let a = tm1.len() as int;
    let b = tm2.len() as int;
    let g = (b - a) as nat;
    let p_or = owner_todo;
    // liveness of old and new slots
    assert forall|j: int| todo_live(tm1, j) implies todo_live(tm2, j) by {
        if match p_or {
            Some(p) => j != p,
            None => true,
        } {
            assert(tm2[j] == tm1[j]);
        }
    }
    assert forall|j: int| ws_live(wm2, j) == ws_live(wm1, j) by {
        match p_or {
            Some(p) => {},
            None => {
                if 0 <= j < wm1.len() && j != w {
                    assert(wm2[j] == wm1[j]);
                }
            },
        }
    }
    // old containers hold only old live handles
    assert forall|j: int, i: int|
        todo_live(tm1, j) && 0 <= i < todo_at(tm1, j).children@.len() implies todo_live(
            tm1,
            #[trigger] todo_at(tm1, j).children@[i] as int,
        ) by {
        lemma_todo_child_entries_live(s1, j, i);
    }
    // boundedness of every live slot of s2 at its canonical fuel
    assert forall|k: int| todo_live(tm2, k) implies #[trigger] todo_bounded(
        tm2,
        k,
        s2.tfuel(),
    ) by {
        if a <= k < b {
            assert(todo_bounded(tm2, k, (b + 1) as nat));
        } else {
            assert(todo_live(tm1, k));
            assert(todo_bounded(tm1, k, s1.tfuel()));
            match p_or {
                Some(p) => {
                    lemma_todo_bounded_attach(tm1, tm2, p as int, pos, n, k, s1.tfuel(), g);
                },
                None => {
                    lemma_todo_v_extend(tm1, tm2, k, s1.tfuel());
                    lemma_todo_v_fuel(tm2, k, s1.tfuel(), s2.tfuel());
                },
            }
        }
    }
    assert forall|k: int| ws_live(wm2, k) implies #[trigger] ws_bounded(wm2, k, s2.wfuel()) by {
        match p_or {
            Some(p) => {
                assert(ws_bounded(wm1, k, s1.wfuel()));
            },
            None => {
                assert forall|j: int| ws_live(wm1, j) implies (#[trigger] ws_at(
                    wm2,
                    j,
                )).children@ == ws_at(wm1, j).children@ by {
                    if j != w {
                        assert(wm2[j] == wm1[j]);
                    }
                }
                assert(crate::arena::ws_children_same(wm1, wm2));
                crate::arena::lemma_ws_bounded_links(wm1, wm2, k, s1.wfuel());
            },
        }
    }
    assert forall|k: int| ws_live(wm2, k) implies forall|i: int|
        0 <= i < ws_at(wm2, k).todos@.len() ==> todo_live(
            tm2,
            #[trigger] ws_at(wm2, k).todos@[i] as int,
        ) by {
        assert forall|i: int| 0 <= i < ws_at(wm2, k).todos@.len() implies todo_live(
            tm2,
            #[trigger] ws_at(wm2, k).todos@[i] as int,
        ) by {
            match p_or {
                Some(p) => {
                    assert(todo_live(tm1, ws_at(wm1, k).todos@[i] as int));
                },
                None => {
                    if k != w {
                        assert(wm2[k] == wm1[k]);
                        assert(todo_live(tm1, ws_at(wm1, k).todos@[i] as int));
                    } else {
                        ws_at(wm1, w as int).todos@.insert_ensures(pos, n);
                        if i == pos {
                            assert(ws_at(wm2, k).todos@[i] == n);
                        } else {
                            let m = if i < pos {
                                i
                            } else {
                                i - 1
                            };
                            assert(ws_at(wm2, k).todos@[i] == ws_at(wm1, w as int).todos@[m]);
                            assert(todo_live(tm1, ws_at(wm1, w as int).todos@[m] as int));
                        }
                    }
                },
            }
        }
    }
    assert forall|i: int| 0 <= i < s2.root_workspaces@.len() implies ws_live(
        wm2,
        #[trigger] s2.root_workspaces@[i] as int,
    ) by {
        assert(ws_live(wm1, s1.root_workspaces@[i] as int));
    }
    assert(s2.links_ok());
    // old container entries are old handles; region entries are new ones
    assert forall|j1: int, i1: int, j2: int, i2: int|
        todo_live(tm2, j1) && todo_live(tm2, j2) && 0 <= i1 < todo_at(tm2, j1).children@.len()
            && 0 <= i2 < todo_at(tm2, j2).children@.len() && (j1 != j2 || i1 != i2)
        implies #[trigger] todo_at(tm2, j1).children@[i1] != #[trigger] todo_at(
            tm2,
            j2,
        ).children@[i2] by {
        lemma_todo_attach_entry(s1, s2, p_or, w, pos, n, j1, i1);
        lemma_todo_attach_entry(s1, s2, p_or, w, pos, n, j2, i2);
        let e1 = todo_at(tm2, j1).children@[i1];
        let e2 = todo_at(tm2, j2).children@[i2];
        if j1 < a && j2 < a {
            match p_or {
                Some(p) => {
                    todo_at(tm1, p as int).children@.insert_ensures(pos, n);
                    let m1 = att_map(p_or, p_or is Some && j1 == p as int, i1, pos);
                    let m2 = att_map(p_or, p_or is Some && j2 == p as int, i2, pos);
                    if j1 == p as int && i1 == pos {
                        assert(e1 == n);
                        if j2 == p as int && i2 == pos {
                        } else {
                            assert(e2 != n);
                        }
                    } else if j2 == p as int && i2 == pos {
                        assert(e2 == n);
                        assert(e1 != n);
                    } else {
                        assert(todo_at(tm2, j1).children@[i1] == todo_at(tm1, j1).children@[m1]);
                        assert(todo_at(tm2, j2).children@[i2] == todo_at(tm1, j2).children@[m2]);
                        assert((j1, m1) != (j2, m2));
                        assert(todo_at(tm1, j1).children@[m1] != todo_at(tm1, j2).children@[m2]);
                    }
                },
                None => {
                    assert(tm2[j1] == tm1[j1]);
                    assert(tm2[j2] == tm1[j2]);
                    assert(todo_at(tm1, j1).children@[i1] != todo_at(tm1, j2).children@[i2]);
                },
            }
        }
    }
    assert forall|j1: int, i1: int, j2: int, i2: int|
        ws_live(wm2, j1) && ws_live(wm2, j2) && 0 <= i1 < ws_at(wm2, j1).todos@.len() && 0 <= i2
            < ws_at(wm2, j2).todos@.len() && (j1 != j2 || i1 != i2) implies #[trigger] ws_at(
            wm2,
            j1,
        ).todos@[i1] != #[trigger] ws_at(wm2, j2).todos@[i2] by {
        match p_or {
            Some(p) => {
                assert(ws_at(wm1, j1).todos@[i1] != ws_at(wm1, j2).todos@[i2]);
            },
            None => {
                ws_at(wm1, w as int).todos@.insert_ensures(pos, n);
                let w1 = j1 == w as int;
                let w2 = j2 == w as int;
                if !w1 {
                    assert(wm2[j1] == wm1[j1]);
                }
                if !w2 {
                    assert(wm2[j2] == wm1[j2]);
                }
                if w1 && i1 == pos {
                    assert(ws_at(wm2, j1).todos@[i1] == n);
                    if !(w2 && i2 == pos) {
                        let m2 = if !w2 { i2 } else if i2 < pos { i2 } else { i2 - 1 };
                        assert(ws_at(wm2, j2).todos@[i2] == ws_at(wm1, j2).todos@[m2]);
                        assert(todo_live(tm1, ws_at(wm1, j2).todos@[m2] as int));
                        assert(ws_at(wm1, j2).todos@[m2] < a);
                    }
                } else if w2 && i2 == pos {
                    assert(ws_at(wm2, j2).todos@[i2] == n);
                    let m1 = if !w1 { i1 } else if i1 < pos { i1 } else { i1 - 1 };
                    assert(ws_at(wm2, j1).todos@[i1] == ws_at(wm1, j1).todos@[m1]);
                    assert(todo_live(tm1, ws_at(wm1, j1).todos@[m1] as int));
                    assert(ws_at(wm1, j1).todos@[m1] < a);
                } else {
                    let m1 = if !w1 { i1 } else if i1 < pos { i1 } else { i1 - 1 };
                    let m2 = if !w2 { i2 } else if i2 < pos { i2 } else { i2 - 1 };
                    assert(ws_at(wm2, j1).todos@[i1] == ws_at(wm1, j1).todos@[m1]);
                    assert(ws_at(wm2, j2).todos@[i2] == ws_at(wm1, j2).todos@[m2]);
                    assert((j1, m1) != (j2, m2));
                    assert(ws_at(wm1, j1).todos@[m1] != ws_at(wm1, j2).todos@[m2]);
                }
            },
        }
    }
    assert forall|j1: int, i1: int, j2: int, i2: int|
        ws_live(wm2, j1) && todo_live(tm2, j2) && 0 <= i1 < ws_at(wm2, j1).todos@.len() && 0 <= i2
            < todo_at(tm2, j2).children@.len() implies #[trigger] ws_at(wm2, j1).todos@[i1]
            != #[trigger] todo_at(tm2, j2).children@[i2] by {
        lemma_todo_attach_entry(s1, s2, p_or, w, pos, n, j2, i2);
        let e2 = todo_at(tm2, j2).children@[i2];
        match p_or {
            Some(p) => {
                assert(ws_at(wm2, j1).todos@[i1] == ws_at(wm1, j1).todos@[i1]);
                assert(todo_live(tm1, ws_at(wm1, j1).todos@[i1] as int));
                assert(ws_at(wm1, j1).todos@[i1] < a);
                todo_at(tm1, p as int).children@.insert_ensures(pos, n);
                if j2 < a {
                    if j2 == p as int && i2 == pos {
                        assert(e2 == n);
                    } else {
                        let m2 = att_map(p_or, j2 == p as int, i2, pos);
                        assert(e2 == todo_at(tm1, j2).children@[m2]);
                        assert(ws_at(wm1, j1).todos@[i1] != todo_at(tm1, j2).children@[m2]);
                    }
                }
            },
            None => {
                ws_at(wm1, w as int).todos@.insert_ensures(pos, n);
                let w1 = j1 == w as int;
                if !w1 {
                    assert(wm2[j1] == wm1[j1]);
                }
                if j2 < a {
                    assert(tm2[j2] == tm1[j2]);
                }
                if w1 && i1 == pos {
                    assert(ws_at(wm2, j1).todos@[i1] == n);
                    if j2 < a {
                        assert(todo_live(tm1, e2 as int));
                        assert(e2 < a);
                    } else {
                        assert(crate::arena::todo_unreferenced_in(tm2, n, a, b));
                    }
                } else {
                    let m1 = if !w1 { i1 } else if i1 < pos { i1 } else { i1 - 1 };
                    assert(ws_at(wm2, j1).todos@[i1] == ws_at(wm1, j1).todos@[m1]);
                    assert(todo_live(tm1, ws_at(wm1, j1).todos@[m1] as int));
                    if j2 < a {
                        assert(ws_at(wm1, j1).todos@[m1] != todo_at(tm1, j2).children@[i2]);
                    } else {
                        assert(ws_at(wm1, j1).todos@[m1] < a);
                        assert(e2 >= a);
                    }
                }
            },
        }
    }
    assert(s2.todo_owners_ok());
    assert forall|j1: int, i1: int, j2: int, i2: int|
        ws_live(wm2, j1) && ws_live(wm2, j2) && 0 <= i1 < ws_at(wm2, j1).children@.len() && 0 <= i2
            < ws_at(wm2, j2).children@.len() && (j1 != j2 || i1 != i2) implies #[trigger] ws_at(
            wm2,
            j1,
        ).children@[i1] != #[trigger] ws_at(wm2, j2).children@[i2] by {
        match p_or {
            Some(p) => {
                assert(ws_at(wm1, j1).children@[i1] != ws_at(wm1, j2).children@[i2]);
            },
            None => {
                if j1 != w as int {
                    assert(wm2[j1] == wm1[j1]);
                }
                if j2 != w as int {
                    assert(wm2[j2] == wm1[j2]);
                }
                assert(ws_at(wm2, j1).children@ == ws_at(wm1, j1).children@);
                assert(ws_at(wm2, j2).children@ == ws_at(wm1, j2).children@);
                assert(ws_at(wm1, j1).children@[i1] != ws_at(wm1, j2).children@[i2]);
            },
        }
    }
    assert forall|i: int, j: int, i2: int|
        0 <= i < s2.root_workspaces@.len() && ws_live(wm2, j) && 0 <= i2 < ws_at(
            wm2,
            j,
        ).children@.len() implies #[trigger] s2.root_workspaces@[i] != #[trigger] ws_at(
            wm2,
            j,
        ).children@[i2] by {
        match p_or {
            Some(p) => {
                assert(s1.root_workspaces@[i] != ws_at(wm1, j).children@[i2]);
            },
            None => {
                if j != w as int {
                    assert(wm2[j] == wm1[j]);
                }
                assert(ws_at(wm2, j).children@ == ws_at(wm1, j).children@);
                assert(s1.root_workspaces@[i] != ws_at(wm1, j).children@[i2]);
            },
        }
    }
    assert(s2.ws_owners_ok());
    match p_or {
        Some(p) => {
            assert(crate::arena::ws_children_same(wm1, wm2));
            crate::tree::lemma_ws_rows_links(s1, s2, opened_ws);
        },
        None => {
            assert forall|j: int| ws_live(wm1, j) implies (#[trigger] ws_at(wm2, j)).children@
                == ws_at(wm1, j).children@ by {
                if j != w as int {
                    assert(wm2[j] == wm1[j]);
                }
            }
            assert(crate::arena::ws_children_same(wm1, wm2));
            crate::tree::lemma_ws_rows_links(s1, s2, opened_ws);
        },
    }
}

/// Index mapping for a list with one element inserted.
pub open spec fn att_map(p_or: Option<usize>, at_owner: bool, i: int, pos: int) -> int {
    if !at_owner {
        i
    } else if i < pos {
        i
    } else {
        i - 1
    }
}

/// Every child entry of a live todo of the attached store is either an old
/// live handle, the new root at its one owner slot, or a region handle owned
/// within the region.
pub proof fn lemma_todo_attach_entry(
    s1: SlotMapStore,
    s2: SlotMapStore,
    owner_todo: Option<usize>,
    w: usize,
    pos: int,
    n: usize,
    j: int,
    i: int,
)
    requires
        s1.wf(),
        attach_todo_shape(s1, s2, owner_todo, w, pos, n),
        todo_live(s2.todos_map@, j),
        0 <= i < todo_at(s2.todos_map@, j).children@.len(),
    ensures
        j < s1.todos_map@.len() || s1.todos_map@.len() <= todo_at(
            s2.todos_map@,
            j,
        ).children@[i] < j,
        j < s1.todos_map@.len() ==> match owner_todo {
            Some(p) => j == p as int && i == pos && todo_at(s2.todos_map@, j).children@[i] == n
                || todo_live(
                s1.todos_map@,
                todo_at(s1.todos_map@, j).children@[att_map(
                    owner_todo,
                    j == p as int,
                    i,
                    pos,
                )] as int,
            ) && todo_at(s2.todos_map@, j).children@[i] == todo_at(
                s1.todos_map@,
                j,
            ).children@[att_map(owner_todo, j == p as int, i, pos)] && todo_at(
                s1.todos_map@,
                j,
            ).children@[att_map(owner_todo, j == p as int, i, pos)] < s1.todos_map@.len(),
            None => todo_live(s1.todos_map@, todo_at(s1.todos_map@, j).children@[i] as int)
                && todo_at(s2.todos_map@, j).children@[i] == todo_at(
                s1.todos_map@,
                j,
            ).children@[i] && todo_at(s1.todos_map@, j).children@[i] < s1.todos_map@.len(),
        },
{
    let tm1 = s1.todos_map@;
    let tm2 = s2.todos_map@;
    let a = tm1.len() as int;
    if j >= a {
        assert(crate::arena::handles_in(todo_at(tm2, j).children@, a, j));
    } else {
        match owner_todo {
            Some(p) => {
                todo_at(tm1, p as int).children@.insert_ensures(pos, n);
                if j != p as int {
                    assert(tm2[j] == tm1[j]);
                    lemma_todo_child_entries_live(s1, j, i);
                } else if i == pos {
                } else {
                    let m = att_map(owner_todo, true, i, pos);
                    assert(todo_at(tm2, j).children@[i] == todo_at(tm1, j).children@[m]);
                    lemma_todo_child_entries_live(s1, j, m);
                }
            },
            None => {
                assert(tm2[j] == tm1[j]);
                lemma_todo_child_entries_live(s1, j, i);
            },
        }
    }
}

/// The blank todo that an insertion creates, carrying the given id.
pub open spec fn blank_todo_slot(s2: SlotMapStore, n: int, id: Seq<char>) -> bool {
    &&& todo_live(s2.todos_map@, n)
    &&& todo_at(s2.todos_map@, n).id@ == id
    &&& todo_at(s2.todos_map@, n).description@ == Seq::<char>::empty()
    &&& todo_at(s2.todos_map@, n).due is None
    &&& todo_at(s2.todos_map@, n).effort == 0
    &&& todo_at(s2.todos_map@, n).urgency == 0
    &&& todo_at(s2.todos_map@, n).pending == true
    &&& todo_at(s2.todos_map@, n).children@ == Seq::<usize>::empty()
}

impl App {
    /// Append one fresh, empty, pending todo slot carrying `id`; its handle
    /// is the old arena length. Nothing else of the store changes.
    fn push_blank_todo(&mut self, id: String) -> (n: usize)
        ensures
            n as int == old(self).slot_map_store.todos_map@.len(),
            final(self).slot_map_store.todos_map@.len() == n as int + 1,
            forall|j: int|
                0 <= j < n ==> final(self).slot_map_store.todos_map@[j] == #[trigger] old(
                    self,
                ).slot_map_store.todos_map@[j],
            blank_todo_slot(final(self).slot_map_store, n as int, id@),
            crate::arena::todo_region_wf(
                final(self).slot_map_store.todos_map@,
                n as int,
                n as int + 1,
            ),
            crate::arena::todo_unreferenced_in(
                final(self).slot_map_store.todos_map@,
                n,
                n as int,
                n as int + 1,
            ),
            todo_bounded(final(self).slot_map_store.todos_map@, n as int, 1nat),
            forall|j: int|
                n <= j < n + 1 ==> #[trigger] todo_bounded(
                    final(self).slot_map_store.todos_map@,
                    j,
                    (n + 2) as nat,
                ),
            final(self).slot_map_store.workspaces_map == old(self).slot_map_store.workspaces_map,
            final(self).slot_map_store.root_workspaces == old(self).slot_map_store.root_workspaces,
            final(self).slot_tree_state == old(self).slot_tree_state,
            unchanged_modes(*old(self), *final(self)),
    {
        let n = self.slot_map_store.todos_map.len();
        let leaf = TodoItem {
            id,
            description: String::new(),
            due: None,
            effort: 0,
            urgency: 0,
            pending: true,
            children: Vec::new(),
        };
        self.slot_map_store.todos_map.push(Some(leaf));
        proof {
            let tm = self.slot_map_store.todos_map@;
            assert(todo_at(tm, n as int).children@ =~= Seq::<usize>::empty());
            assert(todo_at(tm, n as int).description@ =~= Seq::<char>::empty());
            assert(crate::arena::handles_in(todo_at(tm, n as int).children@, n as int, n as int));
            assert(todo_bounded(tm, n as int, 1nat));
            lemma_todo_v_fuel(tm, n as int, 1nat, (n + 2) as nat);
        }
        n
    }

    /// Create an empty todo with the given id right after the selection in
    /// its own container — the parent todo's children or the selected
    /// workspace's list — or at the end of the workspace's list when nothing
    /// (or nothing visible) is selected. The new todo is selected and opens
    /// in edit mode with an empty buffer. Without a selected workspace and a
    /// visible selection, nothing happens.
    pub fn insert_sibling_todo(&mut self, id: String)
        requires
            old(self).wf(),
            old(self).active_screen == Screen::Todos,
            old(self).sorting == SortingItem::Idle,
            old(self).new_editing_id is None,
        ensures
            final(self).wf(),
            insert_sibling_todo_spec(*old(self), *final(self), id@),
    {
        let sel = self.slot_tree_state.selected_todo;
        let ix = match sel {
            Some(t) => find_row(&self.slot_tree_state.todo_tree, t),
            None => None,
        };
        let in_tree = match ix {
            Some(j) => true,
            None => false,
        };
        let has_ws = match self.slot_tree_state.selected_workspace {
            Some(w) => true,
            None => false,
        };
        proof {
            match (sel, ix) {
                (Some(t), Some(j)) => {
                    assert(row_keys(self.slot_tree_state.todo_tree@)[j as int] == t);
                },
                _ => {},
            }
        }
        if !in_tree && !has_ws {
            return ;
        }
        let n = self.push_blank_todo(id);
        let ghost s_mid = self.slot_map_store;
        let ghost s1 = old(self).slot_map_store;
        match ix {
            Some(jr) => {
            let t = match sel {
                Some(t) => t,
                None => 0,
            };
            proof {
                lemma_first_index_agrees(self.slot_tree_state.todo_tree@, t, jr as int);
                match self.slot_tree_state.selected_workspace {
                    Some(w) => {
                        lemma_todo_rows_row_source(
                            s1,
                            self.slot_tree_state.todo_opened@,
                            ws_at(s1.workspaces_map@, w as int).todos@,
                            jr as int,
                        );
                    },
                    None => {},
                }
            }
            let par = self.slot_tree_state.todo_tree[jr].parent;
            match par {
                Some(p) => {
                    let (pos, cl) = {
                        let slot = &self.slot_map_store.todos_map[p];
                        let it = slot.as_ref().unwrap();
                        let q = match position_usize(&it.children, t) {
                            Some(q) => q,
                            None => 0,
                        };
                        (q, it.children.len())
                    };
                    proof {
                        lemma_first_index_usize(
                            todo_at(s1.todos_map@, p as int).children@,
                            t,
                            pos as int,
                        );
                    }
                    let slot = &mut self.slot_map_store.todos_map[p];
                    match slot {
                        Some(it) => {
                            it.children.insert(pos + 1, n);
                        },
                        None => {},
                    }
                    proof {
                        crate::arena::lemma_todo_region_stable(
                            s_mid.todos_map@,
                            self.slot_map_store.todos_map@,
                            n as int,
                            n as int + 1,
                        );
                        lemma_todo_bounded_region(
                            s_mid.todos_map@,
                            self.slot_map_store.todos_map@,
                            n as int,
                            n as int + 1,
                            n as int,
                            1nat,
                        );
                        lemma_todo_bounded_region(
                            s_mid.todos_map@,
                            self.slot_map_store.todos_map@,
                            n as int,
                            n as int + 1,
                            n as int,
                            (n + 2) as nat,
                        );
                        assert(attach_todo_shape(
                            s1,
                            self.slot_map_store,
                            Some(p),
                            0,
                            pos as int + 1,
                            n,
                        ));
                        lemma_todo_attach(
                            s1,
                            self.slot_map_store,
                            Some(p),
                            0,
                            pos as int + 1,
                            n,
                            self.slot_tree_state.ws_opened@,
                        );
                    }
                },
                None => {
                    let w = match self.slot_tree_state.selected_workspace {
                        Some(w) => w,
                        None => 0,
                    };
                    let (pos, cl) = {
                        let slot = &self.slot_map_store.workspaces_map[w];
                        let it = slot.as_ref().unwrap();
                        let q = match position_usize(&it.todos, t) {
                            Some(q) => q,
                            None => 0,
                        };
                        (q, it.todos.len())
                    };
                    proof {
                        lemma_first_index_usize(
                            ws_at(s1.workspaces_map@, w as int).todos@,
                            t,
                            pos as int,
                        );
                    }
                    let slot = &mut self.slot_map_store.workspaces_map[w];
                    match slot {
                        Some(it) => {
                            it.todos.insert(pos + 1, n);
                        },
                        None => {},
                    }
                    proof {
                        assert(attach_todo_shape(
                            s1,
                            self.slot_map_store,
                            None,
                            w,
                            pos as int + 1,
                            n,
                        ));
                        lemma_todo_attach(
                            s1,
                            self.slot_map_store,
                            None,
                            w,
                            pos as int + 1,
                            n,
                            self.slot_tree_state.ws_opened@,
                        );
                    }
                },
            }
            },
            None => {
            let w = match self.slot_tree_state.selected_workspace {
                Some(w) => w,
                None => 0,
            };
            let pos = {
                let slot = &self.slot_map_store.workspaces_map[w];
                let it = slot.as_ref().unwrap();
                it.todos.len()
            };
            let slot = &mut self.slot_map_store.workspaces_map[w];
            match slot {
                Some(it) => {
                    it.todos.push(n);
                },
                None => {},
            }
            proof {
                assert(ws_at(self.slot_map_store.workspaces_map@, w as int).todos@ == ws_at(
                    s1.workspaces_map@,
                    w as int,
                ).todos@.insert(pos as int, n)) by {
                    assert(ws_at(s1.workspaces_map@, w as int).todos@.insert(pos as int, n)
                        =~= ws_at(s1.workspaces_map@, w as int).todos@.push(n));
                }
                assert(attach_todo_shape(s1, self.slot_map_store, None, w, pos as int, n));
                lemma_todo_attach(
                    s1,
                    self.slot_map_store,
                    None,
                    w,
                    pos as int,
                    n,
                    self.slot_tree_state.ws_opened@,
                );
            }
            },
        }
        self.input = String::new();
        self.new_editing_id = Some(n);
        self.slot_tree_state.selected_todo = Some(n);
        self.slot_tree_state.update_workspace_tree_state(&self.slot_map_store);
    }

    /// Create an empty todo with the given id as the last child of the
    /// selected todo, mark the selection opened so the new child shows, and
    /// open it in edit mode, selected. Without a selection, nothing happens.
    pub fn insert_child_todo(&mut self, id: String)
        requires
            old(self).wf(),
            old(self).active_screen == Screen::Todos,
            old(self).sorting == SortingItem::Idle,
            old(self).new_editing_id is None,
        ensures
            final(self).wf(),
            insert_child_todo_spec(*old(self), *final(self), id@),
    {
        match self.slot_tree_state.selected_todo {
            None => {},
            Some(t) => {
                if !vec_contains(&self.slot_tree_state.todo_opened, t) {
                    self.slot_tree_state.todo_opened.push(t);
                }
                let n = self.push_blank_todo(id);
                let ghost s1 = old(self).slot_map_store;
                let pos = {
                    let slot = &self.slot_map_store.todos_map[t];
                    let it = slot.as_ref().unwrap();
                    it.children.len()
                };
                let slot = &mut self.slot_map_store.todos_map[t];
                match slot {
                    Some(it) => {
                        it.children.push(n);
                    },
                    None => {},
                }
                proof {
                    assert(todo_at(self.slot_map_store.todos_map@, t as int).children@
                        == todo_at(s1.todos_map@, t as int).children@.insert(pos as int, n)) by {
                        assert(todo_at(s1.todos_map@, t as int).children@.insert(pos as int, n)
                            =~= todo_at(s1.todos_map@, t as int).children@.push(n));
                    }
                    let s_mid_tm = self.slot_map_store.todos_map@;
                    assert(attach_todo_shape(s1, self.slot_map_store, Some(t), 0, pos as int, n));
                    lemma_todo_attach(
                        s1,
                        self.slot_map_store,
                        Some(t),
                        0,
                        pos as int,
                        n,
                        self.slot_tree_state.ws_opened@,
                    );
                }
                self.input = String::new();
                self.new_editing_id = Some(n);
                self.slot_tree_state.selected_todo = Some(n);
                self.slot_tree_state.update_workspace_tree_state(&self.slot_map_store);
            },
        }
    }
}

/// What inserting a sibling todo does: where the new slot lands, that it is
/// blank, and how the one owner's list grew around the old selection.
pub open spec fn insert_sibling_todo_spec(a: App, b: App, id: Seq<char>) -> bool {
    let rows = a.slot_tree_state.todo_tree@;
    let n = a.slot_map_store.todos_map@.len() as usize;
    let in_tree = match a.slot_tree_state.selected_todo {
        Some(t) => row_keys(rows).contains(t),
        None => false,
    };
    if !in_tree && a.slot_tree_state.selected_workspace is None {
        b == a
    } else {
        &&& b.slot_map_store.todos_map@.len() == n as int + 1
        &&& blank_todo_slot(b.slot_map_store, n as int, id)
        &&& b.new_editing_id == Some(n)
        &&& b.input@ == Seq::<char>::empty()
        &&& b.slot_tree_state.selected_todo == Some(n)
        &&& b.slot_tree_state.selected_workspace == a.slot_tree_state.selected_workspace
        &&& b.slot_tree_state.ws_opened == a.slot_tree_state.ws_opened
        &&& b.slot_tree_state.todo_opened == a.slot_tree_state.todo_opened
        &&& b.slot_map_store.root_workspaces == a.slot_map_store.root_workspaces
        &&& if in_tree {
            let t = a.slot_tree_state.selected_todo->Some_0;
            let j = first_index(row_keys(rows), t);
            match rows[j].parent {
                Some(p) => b.slot_map_store.workspaces_map == a.slot_map_store.workspaces_map
                    && todo_at(b.slot_map_store.todos_map@, p as int).children@ == todo_at(
                    a.slot_map_store.todos_map@,
                    p as int,
                ).children@.insert(
                    first_index(todo_at(a.slot_map_store.todos_map@, p as int).children@, t) + 1,
                    n,
                ),
                None => {
                    let w = a.slot_tree_state.selected_workspace->Some_0;
                    ws_at(b.slot_map_store.workspaces_map@, w as int).todos@ == ws_at(
                        a.slot_map_store.workspaces_map@,
                        w as int,
                    ).todos@.insert(
                        first_index(ws_at(a.slot_map_store.workspaces_map@, w as int).todos@, t)
                            + 1,
                        n,
                    )
                },
            }
        } else {
            let w = a.slot_tree_state.selected_workspace->Some_0;
            ws_at(b.slot_map_store.workspaces_map@, w as int).todos@ == ws_at(
                a.slot_map_store.workspaces_map@,
                w as int,
            ).todos@.push(n)
        }
    }
}

/// What inserting a child todo does: the blank slot appended to the
/// selection's children, the selection opened, edit mode entered.
pub open spec fn insert_child_todo_spec(a: App, b: App, id: Seq<char>) -> bool {
    let n = a.slot_map_store.todos_map@.len() as usize;
    match a.slot_tree_state.selected_todo {
        None => b == a,
        Some(t) => {
            &&& b.slot_map_store.todos_map@.len() == n as int + 1
            &&& blank_todo_slot(b.slot_map_store, n as int, id)
            &&& b.slot_map_store.workspaces_map == a.slot_map_store.workspaces_map
            &&& b.slot_map_store.root_workspaces == a.slot_map_store.root_workspaces
            &&& todo_at(b.slot_map_store.todos_map@, t as int).children@ == todo_at(
                a.slot_map_store.todos_map@,
                t as int,
            ).children@.push(n)
            &&& b.slot_tree_state.todo_opened@ == if a.slot_tree_state.todo_opened@.contains(t) {
                a.slot_tree_state.todo_opened@
            } else {
                a.slot_tree_state.todo_opened@.push(t)
            }
            &&& b.new_editing_id == Some(n)
            &&& b.input@ == Seq::<char>::empty()
            &&& b.slot_tree_state.selected_todo == Some(n)
            &&& b.slot_tree_state.selected_workspace == a.slot_tree_state.selected_workspace
            &&& b.slot_tree_state.ws_opened == a.slot_tree_state.ws_opened
        },
    }
}

/// The model with every id blanked: what "structurally identical, ignoring
/// ids" compares.
pub open spec fn strip_ids(v: TodoV) -> TodoV
    decreases v,
{
    TodoV { id: Seq::empty(), children: strip_ids_list(v.children), ..v }
}

/// As `strip_ids`, for a list of models.
pub open spec fn strip_ids_list(vs: Seq<TodoV>) -> Seq<TodoV>
    decreases vs,
{
    if vs.len() == 0 {
        Seq::empty()
    } else {
        seq![strip_ids(vs[0])] + strip_ids_list(vs.drop_first())
    }
}

/// All ids of a todo model, its subtasks included.
pub open spec fn todo_ids(v: TodoV) -> Set<Seq<char>>
    decreases v,
{
    todo_ids_list(v.children).insert(v.id)
}

/// As `todo_ids`, for a list of models.
pub open spec fn todo_ids_list(vs: Seq<TodoV>) -> Set<Seq<char>>
    decreases vs,
{
    if vs.len() == 0 {
        Set::empty()
    } else {
        todo_ids(vs[0]) + todo_ids_list(vs.drop_first())
    }
}

/// How many slots the subtree under `k` occupies when cloned.
pub open spec fn todo_size(tm: Seq<Option<TodoItem>>, k: int, fuel: nat) -> nat
    decreases fuel, 0nat,
{
    if fuel == 0 || !todo_live(tm, k) {
        0
    } else {
        1 + todo_size_list(tm, todo_at(tm, k).children@, (fuel - 1) as nat)
    }
}

/// As `todo_size`, for a list of subtrees.
pub open spec fn todo_size_list(tm: Seq<Option<TodoItem>>, ks: Seq<usize>, fuel: nat) -> nat
    decreases fuel, ks.len(),
{
    if ks.len() == 0 {
        0
    } else {
        todo_size(tm, ks[0] as int, fuel) + todo_size_list(tm, ks.drop_first(), fuel)
    }
}

/// The set of the views of the strings in `ids`.
pub open spec fn id_views(ids: Seq<String>) -> Set<Seq<char>> {
    Set::new(|v: Seq<char>| exists|i: int| 0 <= i < ids.len() && ids[i]@ == v)
}

/// Clone the bounded subtree under `src` into fresh slots, drawing one id
/// from the back of the pool for each node, children before their parent;
/// the clone's root comes last. The clone matches the source exactly but for
/// the ids, which come from the pool alone.
fn clone_todo(
    todos_map: &mut Vec<Option<TodoItem>>,
    src: usize,
    ids: &mut Vec<String>,
    Ghost(fuel): Ghost<nat>,
) -> (k: usize)
    requires
        todo_bounded(old(todos_map)@, src as int, fuel),
        old(ids)@.len() >= todo_size(old(todos_map)@, src as int, fuel),
    ensures
        crate::arena::arena_extends(old(todos_map)@, final(todos_map)@),
        final(todos_map)@.len() == old(todos_map)@.len() + todo_size(
            old(todos_map)@,
            src as int,
            fuel,
        ),
        k as int == final(todos_map)@.len() - 1,
        final(ids)@ == old(ids)@.take(
            old(ids)@.len() - todo_size(old(todos_map)@, src as int, fuel),
        ),
        todo_bounded(
            final(todos_map)@,
            k as int,
            todo_size(old(todos_map)@, src as int, fuel),
        ),
        forall|j: int|
            old(todos_map)@.len() <= j < final(todos_map)@.len() ==> #[trigger] todo_bounded(
                final(todos_map)@,
                j,
                (final(todos_map)@.len() + 1) as nat,
            ),
        crate::arena::todo_region_wf(
            final(todos_map)@,
            old(todos_map)@.len() as int,
            final(todos_map)@.len() as int,
        ),
        crate::arena::todo_unreferenced_in(
            final(todos_map)@,
            k,
            old(todos_map)@.len() as int,
            final(todos_map)@.len() as int,
        ),
        strip_ids(
            todo_v(
                final(todos_map)@,
                k as int,
                todo_size(old(todos_map)@, src as int, fuel),
            ),
        ) == strip_ids(todo_v(old(todos_map)@, src as int, fuel)),
        todo_ids(
            todo_v(
                final(todos_map)@,
                k as int,
                todo_size(old(todos_map)@, src as int, fuel),
            ),
        ).subset_of(id_views(old(ids)@)),
    decreases fuel,
{
    let ghost tm0 = todos_map@;
    let ghost size0 = todo_size(tm0, src as int, fuel);
    let (src_children, srct) = {
        let slot = &todos_map[src];
        let it = slot.as_ref().unwrap();
        (copy_keys(&it.children), (it.description.clone(), it.due, it.effort, it.urgency, it.pending))
    };
    let mut children: Vec<usize> = Vec::new();
    let mut i: usize = 0;
    proof {
        assert(src_children@ == todo_at(tm0, src as int).children@);
        assert(src_children@.take(0) =~= Seq::<usize>::empty());
        assert(src_children@.skip(0) =~= src_children@);
        assert(todo_size_list(tm0, src_children@.take(0), (fuel - 1) as nat) == 0);
        assert(ids@ =~= old(ids)@.take(old(ids)@.len() as int));
    }
    while i < src_children.len()
        invariant
            todo_bounded(tm0, src as int, fuel),
            src_children@ == todo_at(tm0, src as int).children@,
            i <= src_children@.len(),
            children@.len() == i,
            crate::arena::arena_extends(tm0, todos_map@),
            todos_map@.len() == tm0.len() + todo_size_list(
                tm0,
                src_children@.take(i as int),
                (fuel - 1) as nat,
            ),
            ids@ == old(ids)@.take(
                old(ids)@.len() - todo_size_list(tm0, src_children@.take(i as int), (fuel - 1) as nat),
            ),
            old(ids)@.len() >= todo_size(tm0, src as int, fuel),
            todo_size_list(tm0, src_children@.take(i as int), (fuel - 1) as nat)
                + todo_size_list(tm0, src_children@.skip(i as int), (fuel - 1) as nat)
                == todo_size_list(tm0, src_children@, (fuel - 1) as nat),
            crate::arena::todo_region_wf(todos_map@, tm0.len() as int, todos_map@.len() as int),
            forall|j: int|
                tm0.len() <= j < todos_map@.len() ==> #[trigger] todo_bounded(
                    todos_map@,
                    j,
                    (todos_map@.len() + 1) as nat,
                ),
            forall|j: int|
                0 <= j < i ==> tm0.len() <= #[trigger] children@[j] < todos_map@.len(),
            forall|j1: int, j2: int|
                0 <= j1 < j2 < i ==> #[trigger] children@[j1] < #[trigger] children@[j2],
            forall|j: int|
                0 <= j < i ==> crate::arena::todo_unreferenced_in(
                    todos_map@,
                    #[trigger] children@[j],
                    tm0.len() as int,
                    todos_map@.len() as int,
                ),
            forall|j: int|
                0 <= j < i ==> todo_bounded(
                    todos_map@,
                    #[trigger] children@[j] as int,
                    (todos_map@.len() - tm0.len()) as nat,
                ),
            forall|j: int|
                0 <= j < i ==> strip_ids(
                    todo_v(
                        todos_map@,
                        #[trigger] children@[j] as int,
                        (todos_map@.len() - tm0.len()) as nat,
                    ),
                ) == strip_ids(
                    todo_v(tm0, src_children@[j] as int, (fuel - 1) as nat),
                ),
            forall|j: int|
                0 <= j < i ==> todo_ids(
                    todo_v(
                        todos_map@,
                        #[trigger] children@[j] as int,
                        (todos_map@.len() - tm0.len()) as nat,
                    ),
                ).subset_of(id_views(old(ids)@)),
        decreases src_children@.len() - i,
    {
        let ghost tm_pre = todos_map@;
        let ghost ids_pre = ids@;
        proof {
            assert(src_children@.skip(i as int)[0] == src_children@[i as int]);
            assert(src_children@.skip(i as int).drop_first() =~= src_children@.skip(i as int + 1));
            assert(todo_size_list(tm0, src_children@.skip(i as int), (fuel - 1) as nat)
                == todo_size(tm0, src_children@[i as int] as int, (fuel - 1) as nat)
                + todo_size_list(tm0, src_children@.skip(i as int + 1), (fuel - 1) as nat));
            assert(todo_bounded(tm0, src_children@[i as int] as int, (fuel - 1) as nat));
            lemma_todo_bounded_region_outer(tm0, tm_pre, src_children@[i as int] as int, (fuel - 1) as nat);
            lemma_todo_v_extend(tm0, tm_pre, src_children@[i as int] as int, (fuel - 1) as nat);
        }
        let ck = clone_todo(todos_map, src_children[i], ids, Ghost((fuel - 1) as nat));
        proof {
            let tm = todos_map@;
            let spre = (tm_pre.len() - tm0.len()) as nat;
            let scur = (tm.len() - tm0.len()) as nat;
            let ssub = todo_size(tm_pre, src_children@[i as int] as int, (fuel - 1) as nat);
            lemma_todo_size_stable(tm0, tm_pre, src_children@[i as int] as int, (fuel - 1) as nat);
            assert forall|j: int| 0 <= j < tm_pre.len() implies tm[j] == tm_pre[j] by {}
            assert forall|j: int| 0 <= j < i implies todo_bounded(
                tm,
                #[trigger] children@[j] as int,
                scur,
            ) && strip_ids(todo_v(tm, children@[j] as int, scur)) == strip_ids(
                todo_v(tm0, src_children@[j] as int, (fuel - 1) as nat),
            ) && todo_ids(todo_v(tm, children@[j] as int, scur)).subset_of(
                id_views(old(ids)@),
            ) by {
                lemma_todo_v_extend(tm_pre, tm, children@[j] as int, spre);
                lemma_todo_v_fuel(tm, children@[j] as int, spre, scur);
            }
            lemma_todo_v_fuel(tm, ck as int, (tm.len() - tm_pre.len()) as nat, scur);
            assert(id_views(ids_pre).subset_of(id_views(old(ids)@))) by {
                assert forall|v: Seq<char>| id_views(ids_pre).contains(v) implies id_views(
                    old(ids)@,
                ).contains(v) by {
                    let w = choose|w: int| 0 <= w < ids_pre.len() && ids_pre[w]@ == v;
                    assert(old(ids)@[w]@ == v);
                }
            }
            assert forall|j: int| tm0.len() <= j < tm.len() implies #[trigger] todo_bounded(
                tm,
                j,
                (tm.len() + 1) as nat,
            ) by {
                if j < tm_pre.len() {
                    lemma_todo_v_extend(tm_pre, tm, j, (tm_pre.len() + 1) as nat);
                    lemma_todo_v_fuel(tm, j, (tm_pre.len() + 1) as nat, (tm.len() + 1) as nat);
                }
            }
            assert forall|j: int| 0 <= j < i implies crate::arena::todo_unreferenced_in(
                tm,
                #[trigger] children@[j],
                tm0.len() as int,
                tm.len() as int,
            ) by {
                let r = children@[j];
                assert(crate::arena::todo_unreferenced_in(tm_pre, r, tm0.len() as int, tm_pre.len() as int));
                assert forall|j2: int, i2: int|
                    tm0.len() <= j2 < tm.len() && 0 <= i2 < todo_at(tm, j2).children@.len()
                    implies #[trigger] todo_at(tm, j2).children@[i2] != r by {
                    if j2 < tm_pre.len() {
                        assert(tm[j2] == tm_pre[j2]);
                        assert(todo_at(tm_pre, j2).children@[i2] != r);
                    } else {
                        assert(crate::arena::handles_in(
                            todo_at(tm, j2).children@,
                            tm_pre.len() as int,
                            j2,
                        ));
                        assert(todo_at(tm, j2).children@[i2] >= tm_pre.len());
                        assert(r < tm_pre.len());
                    }
                }
            }
            crate::arena::lemma_todo_region_stable(tm_pre, tm, tm0.len() as int, tm_pre.len() as int);
            crate::arena::lemma_todo_region_compose(
                tm,
                tm0.len() as int,
                tm_pre.len() as int,
                tm.len() as int,
            );
            assert(src_children@.take(i as int).push(src_children@[i as int])
                =~= src_children@.take(i as int + 1));
            lemma_todo_size_list_snoc(
                tm0,
                src_children@.take(i as int),
                src_children@[i as int],
                (fuel - 1) as nat,
            );
            assert(ids@ =~= old(ids)@.take(
                old(ids)@.len() - todo_size_list(tm0, src_children@.take(i as int + 1), (fuel - 1) as nat),
            ));
        }
        children.push(ck);
        i += 1;
    }
    proof {
        assert(src_children@.take(i as int) =~= src_children@);
        assert(src_children@.skip(i as int) =~= Seq::<usize>::empty());
    }
    let id = match ids.pop() {
        Some(id) => id,
        None => String::new(),
    };
    let item = TodoItem {
        id,
        description: srct.0,
        due: srct.1,
        effort: srct.2,
        urgency: srct.3,
        pending: srct.4,
        children,
    };
    let ghost tm1 = todos_map@;
    let ghost ck = item.children@;
    let k = todos_map.len();
    todos_map.push(Some(item));
    proof {
        let tm = todos_map@;
        let ssub = (tm1.len() - tm0.len()) as nat;
        let sall = (tm.len() - tm0.len()) as nat;
        assert(crate::arena::arena_extends(tm1, tm));
        assert forall|j: int| tm0.len() <= j < tm1.len() implies todo_at(tm, j) == todo_at(
            tm1,
            j,
        ) && todo_live(tm, j) == todo_live(tm1, j) by {
            assert(tm[j] == tm1[j]);
        }
        assert(todo_at(tm, k as int) == item);
        assert forall|j: int| 0 <= j < ck.len() implies todo_bounded(
            tm,
            #[trigger] ck[j] as int,
            ssub,
        ) && strip_ids(todo_v(tm, ck[j] as int, ssub)) == strip_ids(
            todo_v(tm0, src_children@[j] as int, (fuel - 1) as nat),
        ) && todo_ids(todo_v(tm, ck[j] as int, ssub)).subset_of(id_views(old(ids)@)) by {
            lemma_todo_v_extend(tm1, tm, ck[j] as int, ssub);
        }
        assert(todo_bounded(tm, k as int, sall));
        lemma_strip_children(tm, tm0, k as int, sall, src as int, fuel, ck, src_children@);
        assert forall|j: int| tm0.len() <= j < tm.len() implies #[trigger] todo_bounded(
            tm,
            j,
            (tm.len() + 1) as nat,
        ) by {
            if j < tm1.len() {
                lemma_todo_v_extend(tm1, tm, j, (tm1.len() + 1) as nat);
                lemma_todo_v_fuel(tm, j, (tm1.len() + 1) as nat, (tm.len() + 1) as nat);
            } else {
                lemma_todo_v_fuel(tm, j, sall, (tm.len() + 1) as nat);
            }
        }
        crate::arena::lemma_todo_region_stable(tm1, tm, tm0.len() as int, tm1.len() as int);
        crate::arena::lemma_todo_region_push_root(tm, tm0.len() as int, tm1.len() as int);
        let v1 = todo_v(tm, k as int, sall);
        assert forall|j: int| 0 <= j < v1.children.len() implies todo_ids(
            #[trigger] v1.children[j],
        ).subset_of(id_views(old(ids)@)) by {
            assert(v1.children[j] == todo_v(tm, ck[j] as int, ssub));
        }
        lemma_todo_ids_list_subset(v1.children, id_views(old(ids)@));
        assert(v1.id == item.id@);
        assert(id_views(old(ids)@).contains(item.id@)) by {
            let w = old(ids)@.len() - todo_size_list(tm0, src_children@, (fuel - 1) as nat) - 1;
            assert(old(ids)@[w] == item.id);
        }
        assert(todo_ids(v1).subset_of(id_views(old(ids)@)));
        assert(final(ids)@ =~= old(ids)@.take(old(ids)@.len() - todo_size(tm0, src as int, fuel)));
    }
    k
}

/// A list's ids stay within any set each member's ids stay within.
pub proof fn lemma_todo_ids_list_subset(vs: Seq<TodoV>, s: Set<Seq<char>>)
    requires
        forall|j: int| 0 <= j < vs.len() ==> todo_ids(#[trigger] vs[j]).subset_of(s),
    ensures
        todo_ids_list(vs).subset_of(s),
    decreases vs.len(),
{
    if vs.len() > 0 {
        assert forall|j: int| 0 <= j < vs.drop_first().len() implies todo_ids(
            #[trigger] vs.drop_first()[j],
        ).subset_of(s) by {
            assert(vs.drop_first()[j] == vs[j + 1]);
        }
        lemma_todo_ids_list_subset(vs.drop_first(), s);
    }
}

/// A subtree bounded in the old arena stays bounded in a pure extension.
pub proof fn lemma_todo_bounded_region_outer(
    tm0: Seq<Option<TodoItem>>,
    tm1: Seq<Option<TodoItem>>,
    k: int,
    f: nat,
)
    requires
        crate::arena::arena_extends(tm0, tm1),
        todo_bounded(tm0, k, f),
    ensures
        todo_bounded(tm1, k, f),
        todo_size(tm1, k, f) == todo_size(tm0, k, f),
{
    lemma_todo_v_extend(tm0, tm1, k, f);
    lemma_todo_size_stable(tm0, tm1, k, f);
}

/// The clone footprint reads only the source subtree: a pure extension does
/// not change it.
pub proof fn lemma_todo_size_stable(
    tm0: Seq<Option<TodoItem>>,
    tm1: Seq<Option<TodoItem>>,
    k: int,
    f: nat,
)
    requires
        crate::arena::arena_extends(tm0, tm1),
        todo_bounded(tm0, k, f),
    ensures
        todo_size(tm1, k, f) == todo_size(tm0, k, f),
    decreases f, 0nat,
{
    assert(tm1[k] == tm0[k]);
    lemma_todo_size_list_stable(tm0, tm1, todo_at(tm0, k).children@, (f - 1) as nat);
}

/// As `lemma_todo_size_stable`, for a list of subtrees.
pub proof fn lemma_todo_size_list_stable(
    tm0: Seq<Option<TodoItem>>,
    tm1: Seq<Option<TodoItem>>,
    ks: Seq<usize>,
    f: nat,
)
    requires
        crate::arena::arena_extends(tm0, tm1),
        forall|i: int| 0 <= i < ks.len() ==> todo_bounded(tm0, #[trigger] ks[i] as int, f),
    ensures
        todo_size_list(tm1, ks, f) == todo_size_list(tm0, ks, f),
    decreases f, ks.len(),
{
    if ks.len() > 0 {
        lemma_todo_size_stable(tm0, tm1, ks[0] as int, f);
        lemma_todo_size_list_stable(tm0, tm1, ks.drop_first(), f);
    }
}

/// Clone footprints split at any point.
pub proof fn lemma_todo_size_list_split(
    tm: Seq<Option<TodoItem>>,
    ks: Seq<usize>,
    i: int,
    f: nat,
)
    requires
        0 <= i <= ks.len(),
    ensures
        todo_size_list(tm, ks.take(i), f) + todo_size_list(tm, ks.skip(i), f) == todo_size_list(
            tm,
            ks,
            f,
        ),
    decreases i,
{
    if i == 0 {
        assert(ks.take(0) =~= Seq::<usize>::empty());
        assert(ks.skip(0) =~= ks);
    } else {
        lemma_todo_size_list_split(tm, ks.drop_first(), i - 1, f);
        assert(ks.take(i).drop_first() =~= ks.drop_first().take(i - 1));
        assert(ks.skip(i) =~= ks.drop_first().skip(i - 1));
        assert(ks.take(i)[0] == ks[0]);
        assert(todo_size_list(tm, ks.take(i), f) == todo_size(tm, ks.take(i)[0] as int, f)
            + todo_size_list(tm, ks.take(i).drop_first(), f));
    }
}

/// Clone footprints add up one subtree at a time.
pub proof fn lemma_todo_size_list_snoc(
    tm: Seq<Option<TodoItem>>,
    ks: Seq<usize>,
    x: usize,
    f: nat,
)
    ensures
        todo_size_list(tm, ks.push(x), f) == todo_size_list(tm, ks, f) + todo_size(
            tm,
            x as int,
            f,
        ),
    decreases ks.len(),
{
    if ks.len() == 0 {
        assert(ks.push(x).drop_first() =~= Seq::<usize>::empty());
        assert(ks.push(x)[0] == x);
        assert(todo_size_list(tm, ks.push(x).drop_first(), f) == 0);
    } else {
        lemma_todo_size_list_snoc(tm, ks.drop_first(), x, f);
        assert(ks.push(x).drop_first() =~= ks.drop_first().push(x));
        assert(ks.push(x)[0] == ks[0]);
        assert(todo_size_list(tm, ks.push(x).drop_first(), f) == todo_size_list(
            tm,
            ks.drop_first(),
            f,
        ) + todo_size(tm, x as int, f));
    }
}

/// The assembled clone matches the source but for ids, and its ids come
/// from the pool.
pub proof fn lemma_strip_children(
    tm: Seq<Option<TodoItem>>,
    tm0: Seq<Option<TodoItem>>,
    k: int,
    sall: nat,
    src: int,
    fuel: nat,
    ck: Seq<usize>,
    src_children: Seq<usize>,
)
    requires
        todo_live(tm, k),
        todo_bounded(tm0, src, fuel),
        todo_at(tm, k).children@ == ck,
        ck.len() == src_children.len(),
        src_children == todo_at(tm0, src).children@,
        todo_at(tm, k).description@ == todo_at(tm0, src).description@,
        todo_at(tm, k).due == todo_at(tm0, src).due,
        todo_at(tm, k).effort == todo_at(tm0, src).effort,
        todo_at(tm, k).urgency == todo_at(tm0, src).urgency,
        todo_at(tm, k).pending == todo_at(tm0, src).pending,
        sall >= 1,
        forall|j: int|
            0 <= j < ck.len() ==> strip_ids(
                todo_v(tm, #[trigger] ck[j] as int, (sall - 1) as nat),
            ) == strip_ids(todo_v(tm0, src_children[j] as int, (fuel - 1) as nat)),
    ensures
        strip_ids(todo_v(tm, k, sall)) == strip_ids(todo_v(tm0, src, fuel)),
{
    let v1 = todo_v(tm, k, sall);
    let v0 = todo_v(tm0, src, fuel);
    lemma_strip_list_pointwise(v1.children, v0.children);
    assert(strip_ids(v1).children =~= strip_ids(v0).children);
    assert(strip_ids(v1) == strip_ids(v0));
}

/// Lists with pointwise equal stripped elements strip to equal lists.
pub proof fn lemma_strip_list_pointwise(a: Seq<TodoV>, b: Seq<TodoV>)
    requires
        a.len() == b.len(),
        forall|j: int| 0 <= j < a.len() ==> strip_ids(#[trigger] a[j]) == strip_ids(b[j]),
    ensures
        strip_ids_list(a) == strip_ids_list(b),
    decreases a.len(),
{
    if a.len() > 0 {
        assert forall|j: int| 0 <= j < a.drop_first().len() implies strip_ids(
            #[trigger] a.drop_first()[j],
        ) == strip_ids(b.drop_first()[j]) by {
            assert(a.drop_first()[j] == a[j + 1]);
            assert(b.drop_first()[j] == b[j + 1]);
        }
        lemma_strip_list_pointwise(a.drop_first(), b.drop_first());
        assert(strip_ids_list(a) =~= strip_ids_list(b));
    }
}

/// The handles of the subtree under `k`, unwound up to `fuel` levels.
pub open spec fn todo_subtree_keys(tm: Seq<Option<TodoItem>>, k: int, fuel: nat) -> Set<usize>
    decreases fuel, 0nat,
{
    if fuel == 0 || !todo_live(tm, k) {
        Set::empty()
    } else {
        todo_subtree_keys_list(tm, todo_at(tm, k).children@, (fuel - 1) as nat).insert(k as usize)
    }
}

/// As `todo_subtree_keys`, for a list of subtrees.
pub open spec fn todo_subtree_keys_list(
    tm: Seq<Option<TodoItem>>,
    ks: Seq<usize>,
    fuel: nat,
) -> Set<usize>
    decreases fuel, ks.len(),
{
    if ks.len() == 0 {
        Set::empty()
    } else {
        todo_subtree_keys(tm, ks[0] as int, fuel) + todo_subtree_keys_list(
            tm,
            ks.drop_first(),
            fuel,
        )
    }
}

/// The model of a bounded tree is untouched by changing one slot outside
/// its subtree, together with any pure extension.
pub proof fn lemma_todo_v_update_outside(
    tm1: Seq<Option<TodoItem>>,
    tm2: Seq<Option<TodoItem>>,
    k: int,
    fuel: nat,
    p: int,
)
    requires
        todo_bounded(tm1, k, fuel),
        tm1.len() <= tm2.len(),
        forall|j: int| 0 <= j < tm1.len() && j != p ==> tm2[j] == #[trigger] tm1[j],
        !todo_subtree_keys(tm1, k, fuel).contains(p as usize),
    ensures
        todo_bounded(tm2, k, fuel),
        todo_v(tm2, k, fuel) == todo_v(tm1, k, fuel),
        todo_size(tm2, k, fuel) == todo_size(tm1, k, fuel),
    decreases fuel,
{
    assert(todo_subtree_keys(tm1, k, fuel).contains(k as usize));
    assert(k != p);
    assert(tm2[k] == tm1[k]);
    let c = todo_at(tm1, k).children@;
    assert forall|i: int| 0 <= i < c.len() implies todo_bounded(
        tm2,
        #[trigger] c[i] as int,
        (fuel - 1) as nat,
    ) && todo_v(tm2, c[i] as int, (fuel - 1) as nat) == todo_v(
        tm1,
        c[i] as int,
        (fuel - 1) as nat,
    ) && todo_size(tm2, c[i] as int, (fuel - 1) as nat) == todo_size(
        tm1,
        c[i] as int,
        (fuel - 1) as nat,
    ) by {
        assert(!todo_subtree_keys(tm1, c[i] as int, (fuel - 1) as nat).contains(p as usize)) by {
            if todo_subtree_keys(tm1, c[i] as int, (fuel - 1) as nat).contains(p as usize) {
                lemma_todo_subtree_keys_list_member(
                    tm1,
                    c,
                    (fuel - 1) as nat,
                    i,
                    p as usize,
                );
            }
        }
        lemma_todo_v_update_outside(tm1, tm2, c[i] as int, (fuel - 1) as nat, p);
    }
    assert(todo_v(tm2, k, fuel).children =~= todo_v(tm1, k, fuel).children);
    lemma_todo_size_list_pointwise(
        tm1,
        tm2,
        c,
        (fuel - 1) as nat,
    );
}

/// A handle inside one listed subtree is inside the list's key set.
pub proof fn lemma_todo_subtree_keys_list_member(
    tm: Seq<Option<TodoItem>>,
    ks: Seq<usize>,
    fuel: nat,
    i: int,
    x: usize,
)
    requires
        0 <= i < ks.len(),
        todo_subtree_keys(tm, ks[i] as int, fuel).contains(x),
    ensures
        todo_subtree_keys_list(tm, ks, fuel).contains(x),
    decreases ks.len(),
{
    if i > 0 {
        assert(ks.drop_first()[i - 1] == ks[i]);
        lemma_todo_subtree_keys_list_member(tm, ks.drop_first(), fuel, i - 1, x);
    }
}

/// Lists whose members' footprints agree add up to the same footprint.
pub proof fn lemma_todo_size_list_pointwise(
    tm1: Seq<Option<TodoItem>>,
    tm2: Seq<Option<TodoItem>>,
    ks: Seq<usize>,
    fuel: nat,
)
    requires
        forall|i: int|
            0 <= i < ks.len() ==> todo_size(tm2, #[trigger] ks[i] as int, fuel) == todo_size(
                tm1,
                ks[i] as int,
                fuel,
            ),
    ensures
        todo_size_list(tm2, ks, fuel) == todo_size_list(tm1, ks, fuel),
    decreases ks.len(),
{
    if ks.len() > 0 {
        assert forall|i: int| 0 <= i < ks.drop_first().len() implies todo_size(
            tm2,
            #[trigger] ks.drop_first()[i] as int,
            fuel,
        ) == todo_size(tm1, ks.drop_first()[i] as int, fuel) by {
            assert(ks.drop_first()[i] == ks[i + 1]);
        }
        lemma_todo_size_list_pointwise(tm1, tm2, ks.drop_first(), fuel);
    }
}

/// No node's child list holds a node that the child's own subtree reaches
/// back to: the owner cannot sit inside the owned subtree.
pub proof fn lemma_todo_no_cycle(tm: Seq<Option<TodoItem>>, p: usize, c: usize, fuel: nat, g: nat)
    requires
        tm.len() <= usize::MAX,
        todo_bounded(tm, c as int, fuel),
        todo_live(tm, p as int),
        todo_at(tm, p as int).children@.contains(c),
    ensures
        !todo_subtree_keys(tm, c as int, g).contains(p),
    decreases fuel,
{
    if todo_subtree_keys(tm, c as int, g).contains(p) {
        if p == c {
            let i = choose|i: int|
                0 <= i < todo_at(tm, p as int).children@.len() && todo_at(
                    tm,
                    p as int,
                ).children@[i] == c;
            assert(todo_bounded(tm, c as int, (fuel - 1) as nat));
            lemma_todo_no_cycle(tm, p, c, (fuel - 1) as nat, g);
        } else {
            lemma_todo_subtree_keys_bounded_members(tm, c as int, g, fuel, p);
            assert(fuel >= 2);
            let i = choose|i: int|
                0 <= i < todo_at(tm, p as int).children@.len() && todo_at(
                    tm,
                    p as int,
                ).children@[i] == c;
            assert(todo_bounded(tm, c as int, (fuel - 2) as nat));
            lemma_todo_no_cycle(tm, p, c, (fuel - 2) as nat, g);
        }
    }
}

/// A strict member of a bounded subtree is bounded at strictly smaller fuel,
/// and so is anything its child list owns.
pub proof fn lemma_todo_subtree_keys_bounded_members(
    tm: Seq<Option<TodoItem>>,
    k: int,
    g: nat,
    fuel: nat,
    x: usize,
)
    requires
        tm.len() <= usize::MAX,
        todo_bounded(tm, k, fuel),
        todo_subtree_keys(tm, k, g).contains(x),
        x as int != k,
    ensures
        todo_bounded(tm, x as int, (fuel - 1) as nat),
    decreases g, 0nat,
{
    let c = todo_at(tm, k).children@;
    assert(x != k as usize);
    assert(todo_subtree_keys(tm, k, g) == todo_subtree_keys_list(
        tm,
        c,
        (g - 1) as nat,
    ).insert(k as usize));
    assert(todo_subtree_keys_list(tm, c, (g - 1) as nat).contains(x));
    lemma_todo_subtree_keys_list_bounded_members(tm, c, (g - 1) as nat, (fuel - 1) as nat, x);
}

/// As `lemma_todo_subtree_keys_bounded_members`, over a list of subtrees.
pub proof fn lemma_todo_subtree_keys_list_bounded_members(
    tm: Seq<Option<TodoItem>>,
    ks: Seq<usize>,
    g: nat,
    fuel: nat,
    x: usize,
)
    requires
        tm.len() <= usize::MAX,
        forall|i: int| 0 <= i < ks.len() ==> todo_bounded(tm, #[trigger] ks[i] as int, fuel),
        todo_subtree_keys_list(tm, ks, g).contains(x),
    ensures
        todo_bounded(tm, x as int, fuel),
    decreases g, ks.len(),
{
    if ks.len() > 0 {
        if todo_subtree_keys(tm, ks[0] as int, g).contains(x) {
            if x == ks[0] {
            } else {
                lemma_todo_subtree_keys_bounded_members(tm, ks[0] as int, g, fuel, x);
                lemma_todo_v_fuel(tm, x as int, (fuel - 1) as nat, fuel);
            }
        } else {
            assert forall|i: int| 0 <= i < ks.drop_first().len() implies todo_bounded(
                tm,
                #[trigger] ks.drop_first()[i] as int,
                fuel,
            ) by {
                assert(ks.drop_first()[i] == ks[i + 1]);
            }
            lemma_todo_subtree_keys_list_bounded_members(tm, ks.drop_first(), g, fuel, x);
        }
    }
}

/// What pasting one clipboard entry as a child does: a fresh clone of the
/// entry's subtree — ids drawn from the pool — appended to the selection's
/// children; everything old but that child list untouched.
pub open spec fn paste_child_rel(
    a: App,
    b: App,
    key: usize,
    selected: usize,
    ids: Seq<String>,
) -> bool {
    let tm1 = a.slot_map_store.todos_map@;
    let tm2 = b.slot_map_store.todos_map@;
    let size = todo_size(tm1, key as int, a.slot_map_store.tfuel());
    let n = (tm1.len() + size - 1) as usize;
    &&& tm2.len() == tm1.len() + size
    &&& forall|j: int|
        0 <= j < tm1.len() && j != selected ==> tm2[j] == #[trigger] tm1[j]
    &&& todo_at(tm2, selected as int).children@ == todo_at(
        tm1,
        selected as int,
    ).children@.push(n)
    &&& todo_at(tm2, selected as int) == (TodoItem {
        children: todo_at(tm2, selected as int).children,
        ..todo_at(tm1, selected as int)
    })
    &&& crate::arena::todo_region_wf(tm2, tm1.len() as int, tm2.len() as int)
    &&& todo_bounded(tm2, n as int, size)
    &&& strip_ids(todo_v(tm2, n as int, size)) == strip_ids(
        todo_v(tm1, key as int, a.slot_map_store.tfuel()),
    )
    &&& todo_ids(todo_v(tm2, n as int, size)).subset_of(id_views(ids))
    &&& b.slot_map_store.workspaces_map == a.slot_map_store.workspaces_map
    &&& b.slot_map_store.root_workspaces == a.slot_map_store.root_workspaces
    &&& b.slot_tree_state.selected_todo == a.slot_tree_state.selected_todo
    &&& b.slot_tree_state.selected_workspace == a.slot_tree_state.selected_workspace
    &&& b.slot_tree_state.ws_opened == a.slot_tree_state.ws_opened
    &&& b.slot_tree_state.todo_opened == a.slot_tree_state.todo_opened
    &&& b.slot_tree_state.multi_selected_todos == a.slot_tree_state.multi_selected_todos
    &&& b.slot_tree_state.multi_selected_workspaces
        == a.slot_tree_state.multi_selected_workspaces
    &&& unchanged_modes(a, b)
}

impl App {
    /// Paste the clipboard entry `key` as the last child of the todo
    /// `selected`: its whole subtree is cloned afresh, every clone carrying
    /// an id drawn from the given pool — repeated pastes of one snapshot
    /// stay independent.
    pub fn paste_todo_as_child(&mut self, key: usize, selected: usize, ids: Vec<String>)
        requires
            old(self).wf(),
            old(self).active_screen == Screen::Todos,
            old(self).sorting == SortingItem::Idle,
            old(self).new_editing_id is None,
            todo_live(old(self).slot_map_store.todos_map@, key as int),
            todo_live(old(self).slot_map_store.todos_map@, selected as int),
            ids@.len() >= todo_size(
                old(self).slot_map_store.todos_map@,
                key as int,
                old(self).slot_map_store.tfuel(),
            ),
        ensures
            final(self).wf(),
            paste_child_rel(*old(self), *final(self), key, selected, ids@),
    {
        let ghost s1 = self.slot_map_store;
        let ghost tf = self.slot_map_store.tfuel();
        proof {
            assert(todo_bounded(s1.todos_map@, key as int, tf));
        }
        let mut pool = ids;
        let n = clone_todo(
            &mut self.slot_map_store.todos_map,
            key,
            &mut pool,
            Ghost(tf),
        );
        let ghost s_mid = self.slot_map_store;
        let (pos, cl) = {
            let slot = &self.slot_map_store.todos_map[selected];
            let it = slot.as_ref().unwrap();
            (it.children.len(), it.children.len())
        };
        let slot = &mut self.slot_map_store.todos_map[selected];
        match slot {
            Some(it) => {
                it.children.push(n);
            },
            None => {},
        }
        proof {
            let tm1 = s1.todos_map@;
            let tm_mid = s_mid.todos_map@;
            let tm2 = self.slot_map_store.todos_map@;
            let a = tm1.len() as int;
            let b = tm2.len() as int;
            assert(todo_at(tm2, selected as int).children@ == todo_at(
                tm_mid,
                selected as int,
            ).children@.insert(pos as int, n)) by {
                assert(todo_at(tm_mid, selected as int).children@.insert(pos as int, n)
                    =~= todo_at(tm_mid, selected as int).children@.push(n));
            }
            crate::arena::lemma_todo_region_stable(tm_mid, tm2, a, b);
            lemma_todo_bounded_region(tm_mid, tm2, a, b, n as int, (b - a) as nat);
            assert forall|j: int| a <= j < b implies #[trigger] todo_bounded(
                tm2,
                j,
                (b + 1) as nat,
            ) by {
                lemma_todo_bounded_region(tm_mid, tm2, a, b, j, (b + 1) as nat);
            }
            assert forall|j2: int, i2: int|
                a <= j2 < b && 0 <= i2 < todo_at(tm2, j2).children@.len()
                implies #[trigger] todo_at(tm2, j2).children@[i2] != n by {
                assert(tm2[j2] == tm_mid[j2]);
                assert(todo_at(tm_mid, j2).children@[i2] != n);
            }
            assert(attach_todo_shape(s1, self.slot_map_store, Some(selected), 0, pos as int, n));
            lemma_todo_attach(
                s1,
                self.slot_map_store,
                Some(selected),
                0,
                pos as int,
                n,
                self.slot_tree_state.ws_opened@,
            );
            // the clone keeps its shape across the splice: the spliced slot
            // lies outside the fresh region
            lemma_todo_v_region_model(tm_mid, tm2, a, b, n as int, (b - a) as nat);
        }
        self.slot_tree_state.update_workspace_tree_state(&self.slot_map_store);
    }
}

/// The model of a tree whose slots all lie in a self-contained region is
/// immune to changes outside the region.
pub proof fn lemma_todo_v_region_model(
    tma: Seq<Option<TodoItem>>,
    tmb: Seq<Option<TodoItem>>,
    a: int,
    b: int,
    k: int,
    g: nat,
)
    requires
        crate::arena::todo_region_wf(tma, a, b),
        b <= tma.len(),
        b <= tmb.len(),
        forall|j: int| a <= j < b ==> tmb[j] == #[trigger] tma[j],
        a <= k < b,
        todo_bounded(tma, k, g),
    ensures
        todo_bounded(tmb, k, g),
        todo_v(tmb, k, g) == todo_v(tma, k, g),
    decreases g,
{
    assert(tmb[k] == tma[k]);
    assert(crate::arena::handles_in(todo_at(tma, k).children@, a, k));
    assert forall|i: int| 0 <= i < todo_at(tmb, k).children@.len() implies todo_bounded(
        tmb,
        #[trigger] todo_at(tmb, k).children@[i] as int,
        (g - 1) as nat,
    ) && todo_v(tmb, todo_at(tmb, k).children@[i] as int, (g - 1) as nat) == todo_v(
        tma,
        todo_at(tma, k).children@[i] as int,
        (g - 1) as nat,
    ) by {
        let c = todo_at(tma, k).children@[i];
        assert(a <= c < k);
        assert(todo_bounded(tma, c as int, (g - 1) as nat));
        lemma_todo_v_region_model(tma, tmb, a, b, c as int, (g - 1) as nat);
    }
    assert(todo_v(tmb, k, g).children =~= todo_v(tma, k, g).children);
}

/// Copying a subtree and pasting it twice under one selection yields two
/// structurally identical subtrees whose id sets are disjoint from each
/// other — and from every id drawn from neither pool — because each paste
/// draws its ids from its own pool.
pub proof fn lemma_paste_twice_disjoint(
    a: App,
    b: App,
    c: App,
    key: usize,
    selected: usize,
    ids1: Seq<String>,
    ids2: Seq<String>,
)
    requires
        a.wf(),
        paste_child_rel(a, b, key, selected, ids1),
        paste_child_rel(b, c, key, selected, ids2),
        id_views(ids1).disjoint(id_views(ids2)),
        todo_live(a.slot_map_store.todos_map@, selected as int),
        !todo_subtree_keys(
            a.slot_map_store.todos_map@,
            key as int,
            a.slot_map_store.tfuel(),
        ).contains(selected),
    ensures
        ({
            let tm1 = a.slot_map_store.todos_map@;
            let tm2 = b.slot_map_store.todos_map@;
            let tm3 = c.slot_map_store.todos_map@;
            let size1 = todo_size(tm1, key as int, a.slot_map_store.tfuel());
            let size2 = todo_size(tm2, key as int, b.slot_map_store.tfuel());
            let n1 = (tm1.len() + size1 - 1) as usize;
            let n2 = (tm2.len() + size2 - 1) as usize;
            &&& strip_ids(todo_v(tm3, n1 as int, size1)) == strip_ids(
                todo_v(tm3, n2 as int, size2),
            )
            &&& todo_ids(todo_v(tm3, n1 as int, size1)).disjoint(
                todo_ids(todo_v(tm3, n2 as int, size2)),
            )
        }),
{
    let tm1 = a.slot_map_store.todos_map@;
    let tm2 = b.slot_map_store.todos_map@;
    let tm3 = c.slot_map_store.todos_map@;
    let tf1 = a.slot_map_store.tfuel();
    let tf2 = b.slot_map_store.tfuel();
    let size1 = todo_size(tm1, key as int, tf1);
    let size2 = todo_size(tm2, key as int, tf2);
    assert(vstd::std_specs::vec::spec_vec_len(&b.slot_map_store.todos_map) == tm2.len());
    assert(vstd::std_specs::vec::spec_vec_len(&c.slot_map_store.todos_map) == tm3.len());
    assert(size1 >= 1);
    let n1 = (tm1.len() + size1 - 1) as usize;
    let n2 = (tm2.len() + size2 - 1) as usize;
    assert(todo_bounded(tm1, key as int, tf1));
    // the source subtree was untouched by the first paste
    lemma_todo_v_update_outside(tm1, tm2, key as int, tf1, selected as int);
    lemma_todo_v_fuel(tm2, key as int, tf1, tf2);
    assert(todo_v(tm2, key as int, tf2) == todo_v(tm1, key as int, tf1));
    assert(todo_size(tm2, key as int, tf2) == size1) by {
        lemma_todo_size_fuel(tm2, key as int, tf1, tf2);
    }
    // the first clone was untouched by the second paste
    assert forall|j: int| tm1.len() <= j < tm2.len() implies tm3[j] == #[trigger] tm2[j] by {
        assert(j != selected);
    }
    lemma_todo_v_region_model(tm2, tm3, tm1.len() as int, tm2.len() as int, n1 as int, size1);
    assert(todo_v(tm3, n1 as int, size1) == todo_v(tm2, n1 as int, size1));
    assert(strip_ids(todo_v(tm3, n1 as int, size1)) == strip_ids(todo_v(tm1, key as int, tf1)));
    assert(strip_ids(todo_v(tm3, n2 as int, size2)) == strip_ids(todo_v(tm2, key as int, tf2)));
    assert(todo_ids(todo_v(tm3, n1 as int, size1)).subset_of(id_views(ids1)));
    assert(todo_ids(todo_v(tm3, n2 as int, size2)).subset_of(id_views(ids2)));
}

/// The clone footprint, like the model, is fuel-blind once the tree is
/// bounded.
pub proof fn lemma_todo_size_fuel(tm: Seq<Option<TodoItem>>, k: int, f: nat, g: nat)
    requires
        todo_bounded(tm, k, f),
        f <= g,
    ensures
        todo_size(tm, k, g) == todo_size(tm, k, f),
    decreases f, 0nat,
{
    lemma_todo_size_list_fuel(tm, todo_at(tm, k).children@, (f - 1) as nat, (g - 1) as nat);
}

/// As `lemma_todo_size_fuel`, for a list of subtrees.
pub proof fn lemma_todo_size_list_fuel(tm: Seq<Option<TodoItem>>, ks: Seq<usize>, f: nat, g: nat)
    requires
        forall|i: int| 0 <= i < ks.len() ==> todo_bounded(tm, #[trigger] ks[i] as int, f),
        f <= g,
    ensures
        todo_size_list(tm, ks, g) == todo_size_list(tm, ks, f),
    decreases f, ks.len(),
{
    if ks.len() > 0 {
        lemma_todo_size_fuel(tm, ks[0] as int, f, g);
        assert forall|i: int| 0 <= i < ks.drop_first().len() implies todo_bounded(
            tm,
            #[trigger] ks.drop_first()[i] as int,
            f,
        ) by {
            assert(ks.drop_first()[i] == ks[i + 1]);
        }
        lemma_todo_size_list_fuel(tm, ks.drop_first(), f, g);
    }
}

/// Cutting a subtree and pasting it back reconstructs it: the detach only
/// touches the old owner, which sits outside the subtree, so the clone that
/// the paste makes matches the subtree as it was cut, exactly but for ids.
pub proof fn lemma_cut_paste_shape(
    a: App,
    b: App,
    c: App,
    x: usize,
    target: usize,
    ids: Seq<String>,
)
    requires
        a.wf(),
        row_keys(a.slot_tree_state.todo_tree@).contains(x),
        detach_todo_rel(
            a.slot_map_store,
            b.slot_map_store,
            a.slot_tree_state.todo_tree@,
            a.slot_tree_state.selected_workspace,
            x,
        ),
        todo_live(a.slot_map_store.todos_map@, x as int),
        match a.slot_tree_state.todo_tree@[first_index(
            row_keys(a.slot_tree_state.todo_tree@),
            x,
        )].parent {
            Some(p) => todo_live(a.slot_map_store.todos_map@, p as int) && todo_at(
                a.slot_map_store.todos_map@,
                p as int,
            ).children@.contains(x),
            None => true,
        },
        paste_child_rel(b, c, x, target, ids),
    ensures
        ({
            let tm_a = a.slot_map_store.todos_map@;
            let tm_b = b.slot_map_store.todos_map@;
            let tm_c = c.slot_map_store.todos_map@;
            let size = todo_size(tm_b, x as int, b.slot_map_store.tfuel());
            let n = (tm_b.len() + size - 1) as usize;
            strip_ids(todo_v(tm_c, n as int, size)) == strip_ids(
                todo_v(tm_a, x as int, a.slot_map_store.tfuel()),
            )
        }),
{
    let tm_a = a.slot_map_store.todos_map@;
    let tm_b = b.slot_map_store.todos_map@;
    let rows = a.slot_tree_state.todo_tree@;
    let j = first_index(row_keys(rows), x);
    let tfa = a.slot_map_store.tfuel();
    let tfb = b.slot_map_store.tfuel();
    assert(vstd::std_specs::vec::spec_vec_len(&a.slot_map_store.todos_map) == tm_a.len());
    assert(todo_bounded(tm_a, x as int, tfa));
    match rows[j].parent {
        Some(p) => {
            lemma_todo_no_cycle(tm_a, p, x, tfa, tfa);
            lemma_todo_v_update_outside(tm_a, tm_b, x as int, tfa, p as int);
            assert(tm_b.len() == tm_a.len());
            assert(todo_v(tm_b, x as int, tfb) == todo_v(tm_a, x as int, tfa));
        },
        None => {
            assert(tm_b == tm_a);
        },
    }
}

impl App {
    /// Cut the selected todo: the clipboard records its handle alone, and the
    /// todo is detached from the tree. Its subtree stays in the arena for
    /// later pastes. Nothing happens with no selection.
    pub fn cut_selected_todo(&mut self)
        requires
            old(self).wf(),
            old(self).active_screen == Screen::Todos,
            old(self).sorting == SortingItem::Idle,
            old(self).slot_tree_state.multi_selected_todos@.len() == 0,
        ensures
            final(self).wf(),
            match old(self).slot_tree_state.selected_todo {
                None => *final(self) == *old(self),
                Some(x) => {
                    &&& final(self).clipboard_todos@ == seq![x]
                    &&& (row_keys(old(self).slot_tree_state.todo_tree@).contains(x)
                        ==> detach_todo_rel(
                        old(self).slot_map_store,
                        final(self).slot_map_store,
                        old(self).slot_tree_state.todo_tree@,
                        old(self).slot_tree_state.selected_workspace,
                        x,
                    ) && !row_keys(final(self).slot_tree_state.todo_tree@).contains(x))
                    &&& (!row_keys(old(self).slot_tree_state.todo_tree@).contains(x)
                        ==> final(self).slot_map_store == old(self).slot_map_store)
                },
            },
    {
        match self.slot_tree_state.selected_todo {
            None => {},
            Some(x) => {
                let mut cb: Vec<usize> = Vec::new();
                cb.push(x);
                self.clipboard_todos = cb;
                proof {
                    assert(self.clipboard_todos@ =~= seq![x]);
                }
                self.delete_todo(x);
            },
        }
    }

    /// Cut every multi-selected todo: the clipboard records the set, each
    /// recorded todo still on a row is detached in turn, and the
    /// multi-selection clears. With an empty multi-selection nothing happens.
    pub fn cut_multi_selected_todos(&mut self)
        requires
            old(self).wf(),
            old(self).active_screen == Screen::Todos,
            old(self).sorting == SortingItem::Idle,
        ensures
            final(self).wf(),
            old(self).slot_tree_state.multi_selected_todos@.len() == 0 ==> *final(self) == *old(
                self,
            ),
            old(self).slot_tree_state.multi_selected_todos@.len() > 0 ==> {
                &&& final(self).clipboard_todos@ == old(
                    self,
                ).slot_tree_state.multi_selected_todos@
                &&& final(self).slot_tree_state.multi_selected_todos@ == Seq::<usize>::empty()
                &&& forall|i: int|
                    0 <= i < final(self).clipboard_todos@.len() ==> !row_keys(
                        final(self).slot_tree_state.todo_tree@,
                    ).contains(#[trigger] final(self).clipboard_todos@[i])
                &&& cut_todos_store_rel(
                    old(self).slot_map_store,
                    final(self).slot_map_store,
                    old(self).slot_tree_state.multi_selected_todos@,
                )
            },
    {
        if self.slot_tree_state.multi_selected_todos.len() == 0 {
            return ;
        }
        let cb = copy_keys(&self.slot_tree_state.multi_selected_todos);
        self.clipboard_todos = cb;
        let mut i: usize = 0;
        proof {
            lemma_cut_todos_store_rel_refl(
                self.slot_map_store,
                self.clipboard_todos@,
            );
        }
        while i < self.clipboard_todos.len()
            invariant
                self.wf(),
                self.active_screen == Screen::Todos,
                self.sorting == SortingItem::Idle,
                i <= self.clipboard_todos@.len(),
                self.clipboard_todos@ == old(self).slot_tree_state.multi_selected_todos@,
                forall|j: int|
                    0 <= j < i ==> !row_keys(self.slot_tree_state.todo_tree@).contains(
                        #[trigger] self.clipboard_todos@[j],
                    ),
                cut_todos_store_rel(
                    old(self).slot_map_store,
                    self.slot_map_store,
                    self.clipboard_todos@,
                ),
            decreases self.clipboard_todos@.len() - i,
        {
            let x = self.clipboard_todos[i];
            let ghost pre = *self;
            self.delete_todo(x);
            proof {
                if row_keys(pre.slot_tree_state.todo_tree@).contains(x) {
                    assert(self.clipboard_todos@.contains(x)) by {
                        assert(self.clipboard_todos@[i as int] == x);
                    }
                    lemma_first_index(row_keys(pre.slot_tree_state.todo_tree@), x);
                    match pre.slot_tree_state.selected_workspace {
                        Some(w) => {
                            lemma_todo_rows_row_source(
                                pre.slot_map_store,
                                pre.slot_tree_state.todo_opened@,
                                ws_at(
                                    pre.slot_map_store.workspaces_map@,
                                    w as int,
                                ).todos@,
                                first_index(
                                    row_keys(pre.slot_tree_state.todo_tree@),
                                    x,
                                ),
                            );
                        },
                        None => {},
                    }
                    lemma_detach_is_cut_step(
                        pre.slot_map_store,
                        self.slot_map_store,
                        pre.slot_tree_state.todo_tree@,
                        pre.slot_tree_state.selected_workspace,
                        x,
                        self.clipboard_todos@,
                    );
                    lemma_cut_todos_store_rel_trans(
                        old(self).slot_map_store,
                        pre.slot_map_store,
                        self.slot_map_store,
                        self.clipboard_todos@,
                    );
                }
            }
            proof {
                assert forall|j: int| 0 <= j < i implies !row_keys(
                    self.slot_tree_state.todo_tree@,
                ).contains(#[trigger] self.clipboard_todos@[j]) by {
                    let y = self.clipboard_todos@[j];
                    if row_keys(pre.slot_tree_state.todo_tree@).contains(x) {
                        lemma_detached_row_stays_out(pre, *self, x, y);
                    }
                }
            }
            i += 1;
        }
        self.slot_tree_state.multi_selected_todos = Vec::new();
        proof {
            assert(self.slot_tree_state.multi_selected_todos@ =~= Seq::<usize>::empty());
        }
    }
}

/// Detaching one more todo never brings a previously detached one back into
/// view: rows only disappear.
pub proof fn lemma_detached_row_stays_out(pre: App, post: App, x: usize, y: usize)
    requires
        pre.wf(),
        post.wf(),
        row_keys(pre.slot_tree_state.todo_tree@).contains(x),
        !row_keys(pre.slot_tree_state.todo_tree@).contains(y),
        detach_todo_rel(
            pre.slot_map_store,
            post.slot_map_store,
            pre.slot_tree_state.todo_tree@,
            pre.slot_tree_state.selected_workspace,
            x,
        ),
        post.slot_tree_state.todo_opened == pre.slot_tree_state.todo_opened,
        post.slot_tree_state.selected_workspace == pre.slot_tree_state.selected_workspace,
        post.slot_tree_state.todo_tree@ == todo_rows(
            post.slot_map_store,
            post.slot_tree_state.todo_opened@,
            post.slot_tree_state.selected_workspace,
        ),
        pre.slot_tree_state.todo_tree@ == todo_rows(
            pre.slot_map_store,
            pre.slot_tree_state.todo_opened@,
            pre.slot_tree_state.selected_workspace,
        ),
    ensures
        !row_keys(post.slot_tree_state.todo_tree@).contains(y),
{
    let s1 = pre.slot_map_store;
    let s2 = post.slot_map_store;
    let opened = pre.slot_tree_state.todo_opened@;
    let sel = pre.slot_tree_state.selected_workspace;
    let j = first_index(row_keys(pre.slot_tree_state.todo_tree@), x);
    if row_keys(post.slot_tree_state.todo_tree@).contains(y) {
        match sel {
            None => {
                assert(row_keys(todo_rows(s2, opened, sel)) =~= Seq::<usize>::empty());
            },
            Some(w) => {
                let ks1 = ws_at(s1.workspaces_map@, w as int).todos@;
                let ks2 = ws_at(s2.workspaces_map@, w as int).todos@;
                match pre.slot_tree_state.todo_tree@[j].parent {
                    Some(p0) => {
                        assert(ks2 == ks1);
                    },
                    None => {
                        if ks1.contains(x) {
                            lemma_first_index(ks1, x);
                            ks1.remove_ensures(first_index(ks1, x));
                        }
                    },
                }
                assert forall|q: int| 0 <= q < ks2.len() implies ks1.contains(
                    #[trigger] ks2[q],
                ) by {
                    match pre.slot_tree_state.todo_tree@[j].parent {
                        Some(p0) => {},
                        None => {
                            if ks1.contains(x) {
                                lemma_first_index(ks1, x);
                                let fi = first_index(ks1, x);
                                ks1.remove_ensures(fi);
                                assert(ks2 == ks1.remove(fi));
                                assert(ks2.len() == ks1.len() - 1);
                                if q < fi {
                                    assert(ks1.remove(fi)[q] == ks1[q]);
                                    assert(ks2[q] == ks1[q]);
                                } else {
                                    assert(ks1.remove(fi)[q] == ks1[q + 1]);
                                    assert(ks2[q] == ks1[q + 1]);
                                }
                            }
                        },
                    }
                }
                lemma_first_index(row_keys(pre.slot_tree_state.todo_tree@), x);
                lemma_todo_rows_row_source(s1, opened, ks1, j);
                assert forall|jq: int| todo_live(s1.todos_map@, jq) == todo_live(
                    s2.todos_map@,
                    jq,
                ) by {
                    match pre.slot_tree_state.todo_tree@[j].parent {
                        Some(p0) => {
                            if 0 <= jq < s1.todos_map@.len() && jq != p0 {
                                assert(s2.todos_map@[jq] == s1.todos_map@[jq]);
                            }
                            if jq == p0 {
                                assert(todo_live(s1.todos_map@, p0 as int));
                                assert(todo_live(s2.todos_map@, p0 as int));
                            }
                        },
                        None => {},
                    }
                }
                assert forall|jq: int, iq: int|
                    todo_live(s2.todos_map@, jq) && 0 <= iq < todo_at(
                        s2.todos_map@,
                        jq,
                    ).children@.len() implies todo_at(s1.todos_map@, jq).children@.contains(
                    #[trigger] todo_at(s2.todos_map@, jq).children@[iq],
                ) by {
                    match pre.slot_tree_state.todo_tree@[j].parent {
                        Some(p0) => {
                            if jq != p0 {
                                assert(s2.todos_map@[jq] == s1.todos_map@[jq]);
                                assert(todo_at(s1.todos_map@, jq).children@[iq] == todo_at(
                                    s2.todos_map@,
                                    jq,
                                ).children@[iq]);
                            } else {
                                let c1 = todo_at(s1.todos_map@, p0 as int).children@;
                                if c1.contains(x) {
                                    lemma_first_index(c1, x);
                                    c1.remove_ensures(first_index(c1, x));
                                    let fi = first_index(c1, x);
                                    if iq < fi {
                                        assert(todo_at(s2.todos_map@, jq).children@[iq] == c1[iq]);
                                    } else {
                                        assert(todo_at(s2.todos_map@, jq).children@[iq] == c1[iq
                                            + 1]);
                                    }
                                }
                            }
                        },
                        None => {},
                    }
                }
                assert(todo_links_shrink(s1.todos_map@, s2.todos_map@));
                assert forall|q: int| 0 <= q < ks1.len() implies todo_bounded(
                    s1.todos_map@,
                    #[trigger] ks1[q] as int,
                    s1.tfuel(),
                ) by {
                    assert(todo_live(s1.todos_map@, ks1[q] as int));
                }
                lemma_todo_rows_member_shrink(s1, s2, opened, ks1, ks2, y);
            },
        }
    }
}

/// Whether every child link of `tm2` already stood in `tm1`, liveness kept.
pub open spec fn todo_links_shrink(
    tm1: Seq<Option<TodoItem>>,
    tm2: Seq<Option<TodoItem>>,
) -> bool {
    &&& tm1.len() == tm2.len()
    &&& forall|j: int| todo_live(tm1, j) == todo_live(tm2, j)
    &&& forall|j: int, i: int|
        todo_live(tm2, j) && 0 <= i < todo_at(tm2, j).children@.len() ==> todo_at(
            tm1,
            j,
        ).children@.contains(#[trigger] todo_at(tm2, j).children@[i])
}

/// With only fewer links, the visible rows can only lose keys.
pub proof fn lemma_flat_todo_member_shrink(
    tm1: Seq<Option<TodoItem>>,
    tm2: Seq<Option<TodoItem>>,
    opened: Seq<usize>,
    k: usize,
    p1: Option<usize>,
    p2: Option<usize>,
    d1: usize,
    d2: usize,
    f1: nat,
    f2: nat,
    y: usize,
)
    requires
        todo_links_shrink(tm1, tm2),
        row_keys(crate::tree::flat_todo(tm2, opened, k, p2, d2, f2)).contains(y),
        todo_bounded(tm1, k as int, f1),
    ensures
        row_keys(crate::tree::flat_todo(tm1, opened, k, p1, d1, f1)).contains(y),
    decreases f2, 0nat,
{
    let r2 = crate::tree::flat_todo(tm2, opened, k, p2, d2, f2);
    let r1 = crate::tree::flat_todo(tm1, opened, k, p1, d1, f1);
    let j = choose|j: int| 0 <= j < row_keys(r2).len() && row_keys(r2)[j] == y;
    if j == 0 {
        assert(r2[0].key == k);
        assert(r1[0].key == k);
        assert(row_keys(r1)[0] == k);
    } else {
        assert(opened.contains(k));
        let c2 = todo_at(tm2, k as int).children@;
        let c1 = todo_at(tm1, k as int).children@;
        lemma_flat_todo_list_member_shrink(
            tm1,
            tm2,
            opened,
            c1,
            c2,
            k,
            ((d1 + 1) as usize),
            ((d2 + 1) as usize),
            (f1 - 1) as nat,
            (f2 - 1) as nat,
            y,
            j - 1,
        );
        let t1 = crate::tree::flat_todo_list(
            tm1,
            opened,
            c1,
            k,
            ((d1 + 1) as usize),
            (f1 - 1) as nat,
        );
        let j1 = choose|j1: int| 0 <= j1 < row_keys(t1).len() && row_keys(t1)[j1] == y;
        assert(r1[j1 + 1].key == y);
        assert(row_keys(r1)[j1 + 1] == y);
    }
}

/// As `lemma_flat_todo_member_shrink`, for lists whose entries all come from
/// the old list.
pub proof fn lemma_flat_todo_list_member_shrink(
    tm1: Seq<Option<TodoItem>>,
    tm2: Seq<Option<TodoItem>>,
    opened: Seq<usize>,
    ks1: Seq<usize>,
    ks2: Seq<usize>,
    parent: usize,
    d1: usize,
    d2: usize,
    f1: nat,
    f2: nat,
    y: usize,
    j: int,
)
    requires
        todo_links_shrink(tm1, tm2),
        forall|q: int| 0 <= q < ks2.len() ==> ks1.contains(#[trigger] ks2[q]),
        forall|q: int| 0 <= q < ks1.len() ==> todo_bounded(tm1, #[trigger] ks1[q] as int, f1),
        0 <= j < crate::tree::flat_todo_list(tm2, opened, ks2, parent, d2, f2).len(),
        crate::tree::flat_todo_list(tm2, opened, ks2, parent, d2, f2)[j].key == y,
    ensures
        row_keys(crate::tree::flat_todo_list(tm1, opened, ks1, parent, d1, f1)).contains(y),
    decreases f2, ks2.len(),
{
    let h2 = crate::tree::flat_todo(tm2, opened, ks2[0], Some(parent), d2, f2);
    if j < h2.len() {
        assert(row_keys(h2)[j] == y);
        assert(ks1.contains(ks2[0]));
        let w = choose|w: int| 0 <= w < ks1.len() && ks1[w] == ks2[0];
        lemma_flat_todo_member_shrink(
            tm1,
            tm2,
            opened,
            ks2[0],
            Some(parent),
            Some(parent),
            d1,
            d2,
            f1,
            f2,
            y,
        );
        lemma_flat_todo_list_member_lift(tm1, opened, ks1, parent, d1, f1, w, y);
    } else {
        assert forall|q: int| 0 <= q < ks2.drop_first().len() implies ks1.contains(
            #[trigger] ks2.drop_first()[q],
        ) by {
            assert(ks2.drop_first()[q] == ks2[q + 1]);
        }
        lemma_flat_todo_list_member_shrink(
            tm1,
            tm2,
            opened,
            ks1,
            ks2.drop_first(),
            parent,
            d1,
            d2,
            f1,
            f2,
            y,
            j - h2.len(),
        );
    }
}

/// A key shown inside one listed subtree is shown by the whole list.
pub proof fn lemma_flat_todo_list_member_lift(
    tm: Seq<Option<TodoItem>>,
    opened: Seq<usize>,
    ks: Seq<usize>,
    parent: usize,
    depth: usize,
    fuel: nat,
    w: int,
    y: usize,
)
    requires
        0 <= w < ks.len(),
        row_keys(
            crate::tree::flat_todo(tm, opened, ks[w], Some(parent), depth, fuel),
        ).contains(y),
    ensures
        row_keys(crate::tree::flat_todo_list(tm, opened, ks, parent, depth, fuel)).contains(y),
    decreases ks.len(),
{
    let h = crate::tree::flat_todo(tm, opened, ks[0], Some(parent), depth, fuel);
    if w == 0 {
        let j = choose|j: int| 0 <= j < row_keys(h).len() && row_keys(h)[j] == y;
        assert(crate::tree::flat_todo_list(tm, opened, ks, parent, depth, fuel)[j].key == y);
        assert(row_keys(crate::tree::flat_todo_list(tm, opened, ks, parent, depth, fuel))[j] == y);
    } else {
        assert(ks.drop_first()[w - 1] == ks[w]);
        lemma_flat_todo_list_member_lift(tm, opened, ks.drop_first(), parent, depth, fuel, w - 1, y);
        let t = crate::tree::flat_todo_list(tm, opened, ks.drop_first(), parent, depth, fuel);
        let j = choose|j: int| 0 <= j < row_keys(t).len() && row_keys(t)[j] == y;
        assert(crate::tree::flat_todo_list(tm, opened, ks, parent, depth, fuel)[h.len() + j].key
            == y);
        assert(row_keys(crate::tree::flat_todo_list(tm, opened, ks, parent, depth, fuel))[h.len()
            + j] == y);
    }
}

/// With only fewer links and a top list drawn from the old one, the pane can
/// only lose keys.
pub proof fn lemma_todo_rows_member_shrink(
    s1: SlotMapStore,
    s2: SlotMapStore,
    opened: Seq<usize>,
    ks1: Seq<usize>,
    ks2: Seq<usize>,
    y: usize,
)
    requires
        s1.wf(),
        todo_links_shrink(s1.todos_map@, s2.todos_map@),
        forall|q: int| 0 <= q < ks2.len() ==> ks1.contains(#[trigger] ks2[q]),
        forall|q: int| 0 <= q < ks1.len() ==> todo_bounded(s1.todos_map@, #[trigger] ks1[q] as int, s1.tfuel()),
        row_keys(crate::tree::todo_rows_from(s2, opened, ks2)).contains(y),
    ensures
        row_keys(crate::tree::todo_rows_from(s1, opened, ks1)).contains(y),
    decreases ks2.len(),
{
    let r2 = crate::tree::todo_rows_from(s2, opened, ks2);
    let j = choose|j: int| 0 <= j < row_keys(r2).len() && row_keys(r2)[j] == y;
    let h2 = crate::tree::flat_todo(s2.todos_map@, opened, ks2[0], None, 0, s2.tfuel());
    if j < h2.len() {
        assert(row_keys(h2)[j] == y);
        let w = choose|w: int| 0 <= w < ks1.len() && ks1[w] == ks2[0];
        lemma_flat_todo_member_shrink(
            s1.todos_map@,
            s2.todos_map@,
            opened,
            ks2[0],
            None,
            None,
            0,
            0,
            s1.tfuel(),
            s2.tfuel(),
            y,
        );
        lemma_todo_rows_member_lift(s1, opened, ks1, w, y);
    } else {
        assert(row_keys(crate::tree::todo_rows_from(s2, opened, ks2.drop_first()))[j - h2.len()]
            == y);
        assert forall|q: int| 0 <= q < ks2.drop_first().len() implies ks1.contains(
            #[trigger] ks2.drop_first()[q],
        ) by {
            assert(ks2.drop_first()[q] == ks2[q + 1]);
        }
        lemma_todo_rows_member_shrink(s1, s2, opened, ks1, ks2.drop_first(), y);
    }
}

/// A key shown inside one top-level subtree is shown by the pane.
pub proof fn lemma_todo_rows_member_lift(
    s: SlotMapStore,
    opened: Seq<usize>,
    ks: Seq<usize>,
    w: int,
    y: usize,
)
    requires
        0 <= w < ks.len(),
        row_keys(crate::tree::flat_todo(s.todos_map@, opened, ks[w], None, 0, s.tfuel())).contains(
            y,
        ),
    ensures
        row_keys(crate::tree::todo_rows_from(s, opened, ks)).contains(y),
    decreases ks.len(),
{
    let h = crate::tree::flat_todo(s.todos_map@, opened, ks[0], None, 0, s.tfuel());
    if w == 0 {
        let j = choose|j: int| 0 <= j < row_keys(h).len() && row_keys(h)[j] == y;
        assert(crate::tree::todo_rows_from(s, opened, ks)[j].key == y);
        assert(row_keys(crate::tree::todo_rows_from(s, opened, ks))[j] == y);
    } else {
        assert(ks.drop_first()[w - 1] == ks[w]);
        lemma_todo_rows_member_lift(s, opened, ks.drop_first(), w - 1, y);
        let t = crate::tree::todo_rows_from(s, opened, ks.drop_first());
        let j = choose|j: int| 0 <= j < row_keys(t).len() && row_keys(t)[j] == y;
        assert(crate::tree::todo_rows_from(s, opened, ks)[h.len() + j].key == y);
        assert(row_keys(crate::tree::todo_rows_from(s, opened, ks))[h.len() + j] == y);
    }
}

/// What lowercasing a string of characters yields; the result depends on
/// the characters alone.
pub uninterp spec fn lower_of(s: Seq<char>) -> Seq<char>;

/// Whether `n` occurs contiguously in `h`.
pub open spec fn contains_sub(h: Seq<char>, n: Seq<char>) -> bool {
    exists|i: int| 0 <= i <= h.len() - n.len() && #[trigger] h.subrange(i, i + n.len()) == n
}

/// Relies on str::to_lowercase: a pure function of the characters.
#[verifier::external_body]
fn lowercase(s: &String) -> (r: String)
    ensures
        r@ == lower_of(s@),
{
    s.to_lowercase()
}

/// Relies on str::contains: whether the needle occurs contiguously in the
/// haystack.
#[verifier::external_body]
fn str_contains_sub(h: &String, n: &String) -> (r: bool)
    ensures
        r == contains_sub(h@, n@),
{
    h.contains(n.as_str())
}

/// Whether the todo in slot `k` matches the lowered query `ql`: its lowered
/// description contains it.
pub open spec fn todo_hit(tm: Seq<Option<TodoItem>>, ql: Seq<char>, k: int) -> bool {
    contains_sub(lower_of(todo_at(tm, k).description@), ql)
}

/// The matches of the subtree under `k`, in depth-first pre-order,
/// irrespective of what is expanded.
pub open spec fn match_seq(tm: Seq<Option<TodoItem>>, ql: Seq<char>, k: usize, fuel: nat) -> Seq<
    usize,
>
    decreases fuel, 0nat,
{
    if fuel == 0 || !todo_live(tm, k as int) {
        Seq::empty()
    } else {
        (if todo_hit(tm, ql, k as int) {
            seq![k]
        } else {
            Seq::empty()
        }) + match_seq_list(tm, ql, todo_at(tm, k as int).children@, (fuel - 1) as nat)
    }
}

/// As `match_seq`, over a list of subtrees.
pub open spec fn match_seq_list(
    tm: Seq<Option<TodoItem>>,
    ql: Seq<char>,
    ks: Seq<usize>,
    fuel: nat,
) -> Seq<usize>
    decreases fuel, ks.len(),
{
    if ks.len() == 0 {
        Seq::empty()
    } else {
        match_seq(tm, ql, ks[0], fuel) + match_seq_list(tm, ql, ks.drop_first(), fuel)
    }
}

/// The todos of the subtree under `k` that a match sits strictly below, in
/// the order the search walks them: children's chains first, then `k` itself
/// when one of its children's subtrees holds a match.
pub open spec fn anc_seq(tm: Seq<Option<TodoItem>>, ql: Seq<char>, k: usize, fuel: nat) -> Seq<
    usize,
>
    decreases fuel, 0nat,
{
    if fuel == 0 || !todo_live(tm, k as int) {
        Seq::empty()
    } else {
        anc_seq_list(tm, ql, todo_at(tm, k as int).children@, (fuel - 1) as nat) + (
        if match_seq_list(tm, ql, todo_at(tm, k as int).children@, (fuel - 1) as nat).len() > 0 {
            seq![k]
        } else {
            Seq::empty()
        })
    }
}

/// As `anc_seq`, over a list of subtrees.
pub open spec fn anc_seq_list(
    tm: Seq<Option<TodoItem>>,
    ql: Seq<char>,
    ks: Seq<usize>,
    fuel: nat,
) -> Seq<usize>
    decreases fuel, ks.len(),
{
    if ks.len() == 0 {
        Seq::empty()
    } else {
        anc_seq(tm, ql, ks[0], fuel) + anc_seq_list(tm, ql, ks.drop_first(), fuel)
    }
}

/// The matches of the whole todo pane, in pre-order; empty with no selected
/// workspace.
pub open spec fn pane_matches(s: SlotMapStore, ql: Seq<char>, sel: Option<usize>) -> Seq<usize> {
    match sel {
        None => Seq::empty(),
        Some(w) => match_seq_list(
            s.todos_map@,
            ql,
            ws_at(s.workspaces_map@, w as int).todos@,
            s.tfuel(),
        ),
    }
}

/// The search's expansions over the whole pane: every todo with a match
/// strictly below it.
pub open spec fn pane_ancs(s: SlotMapStore, ql: Seq<char>, sel: Option<usize>) -> Seq<usize> {
    match sel {
        None => Seq::empty(),
        Some(w) => anc_seq_list(
            s.todos_map@,
            ql,
            ws_at(s.workspaces_map@, w as int).todos@,
            s.tfuel(),
        ),
    }
}

impl App {
    /// Walk the subtree under `k`: record every match, pre-order, and mark
    /// every todo with a match strictly below it opened. Hands back whether
    /// the subtree holds any match.
    fn search_collect(
        &mut self,
        k: usize,
        ql: &String,
        Ghost(fuel): Ghost<nat>,
    ) -> (hit: bool)
        requires
            todo_bounded(old(self).slot_map_store.todos_map@, k as int, fuel),
        ensures
            final(self).search_matches@ == old(self).search_matches@ + match_seq(
                old(self).slot_map_store.todos_map@,
                ql@,
                k,
                fuel,
            ),
            final(self).slot_tree_state.todo_opened@ == old(
                self,
            ).slot_tree_state.todo_opened@ + anc_seq(
                old(self).slot_map_store.todos_map@,
                ql@,
                k,
                fuel,
            ),
            hit == (match_seq(old(self).slot_map_store.todos_map@, ql@, k, fuel).len() > 0),
            final(self).slot_map_store == old(self).slot_map_store,
            final(self).slot_tree_state == (SlotTreeState {
                todo_opened: final(self).slot_tree_state.todo_opened,
                ..old(self).slot_tree_state
            }),
            final(self).search_str == old(self).search_str,
            final(self).running == old(self).running,
            final(self).input == old(self).input,
            final(self).new_editing_id == old(self).new_editing_id,
            final(self).active_screen == old(self).active_screen,
            final(self).sorting == old(self).sorting,
            final(self).clipboard_todos == old(self).clipboard_todos,
            final(self).clipboard_workspaces == old(self).clipboard_workspaces,
            final(self).search_mode == old(self).search_mode,
            final(self).current_match_index == old(self).current_match_index,
        decreases fuel,
    {
        let ghost tm = self.slot_map_store.todos_map@;
        let (desc, kids) = {
            let slot = &self.slot_map_store.todos_map[k];
            let it = slot.as_ref().unwrap();
            (it.description.clone(), copy_keys(&it.children))
        };
        let low = lowercase(&desc);
        let selfhit = str_contains_sub(&low, ql);
        if selfhit {
            self.search_matches.push(k);
        }
        let mut chit = false;
        let mut i: usize = 0;
        while i < kids.len()
            invariant
                todo_bounded(tm, k as int, fuel),
                self.slot_map_store.todos_map@ == tm,
                kids@ == todo_at(tm, k as int).children@,
                i <= kids@.len(),
                self.search_matches@ == old(self).search_matches@ + (if selfhit {
                    seq![k]
                } else {
                    Seq::<usize>::empty()
                }) + match_seq_list(tm, ql@, kids@.take(i as int), (fuel - 1) as nat),
                selfhit == todo_hit(tm, ql@, k as int),
                self.slot_tree_state.todo_opened@ == old(
                    self,
                ).slot_tree_state.todo_opened@ + anc_seq_list(
                    tm,
                    ql@,
                    kids@.take(i as int),
                    (fuel - 1) as nat,
                ),
                chit == (match_seq_list(tm, ql@, kids@.take(i as int), (fuel - 1) as nat).len()
                    > 0),
                self.slot_map_store == old(self).slot_map_store,
                self.slot_tree_state == (SlotTreeState {
                    todo_opened: self.slot_tree_state.todo_opened,
                    ..old(self).slot_tree_state
                }),
                self.search_str == old(self).search_str,
                self.running == old(self).running,
                self.input == old(self).input,
                self.new_editing_id == old(self).new_editing_id,
                self.active_screen == old(self).active_screen,
                self.sorting == old(self).sorting,
                self.clipboard_todos == old(self).clipboard_todos,
                self.clipboard_workspaces == old(self).clipboard_workspaces,
                self.search_mode == old(self).search_mode,
                self.current_match_index == old(self).current_match_index,
            decreases kids@.len() - i,
        {
            let c = kids[i];
            proof {
                assert(todo_bounded(tm, kids@[i as int] as int, (fuel - 1) as nat));
            }
            let h = self.search_collect(c, ql, Ghost((fuel - 1) as nat));
            if h {
                chit = true;
            }
            proof {
                lemma_match_seq_list_snoc(tm, ql@, kids@.take(i as int), kids@[i as int], (fuel - 1) as nat);
                lemma_anc_seq_list_snoc(tm, ql@, kids@.take(i as int), kids@[i as int], (fuel - 1) as nat);
                assert(kids@.take(i as int).push(kids@[i as int]) =~= kids@.take(i as int + 1));
            }
            i += 1;
        }
        proof {
            assert(kids@.take(i as int) =~= kids@);
        }
        if chit {
            self.slot_tree_state.todo_opened.push(k);
        }
        proof {
            assert(self.search_matches@ =~= old(self).search_matches@ + match_seq(tm, ql@, k, fuel));
            assert(self.slot_tree_state.todo_opened@ =~= old(
                self,
            ).slot_tree_state.todo_opened@ + anc_seq(tm, ql@, k, fuel));
        }
        chit || selfhit
    }

    /// Recompute the live search: the match set holds, in pre-order, every
    /// todo of the selected workspace's whole forest whose description
    /// contains the search string, case-insensitively and irrespective of
    /// expansion; every todo with a match strictly below it is force-opened;
    /// the match cursor rewinds. An empty search string clears the matches.
    /// The forced expansions join the opened set rather than replacing it:
    /// the user's own expansions survive the search.
    pub fn update_search_matches(&mut self)
        requires
            old(self).wf(),
            old(self).active_screen == Screen::Todos,
        ensures
            final(self).wf(),
            final(self).current_match_index == 0,
            final(self).search_matches@ == if old(self).search_str@.len() == 0 {
                Seq::<usize>::empty()
            } else {
                pane_matches(
                    old(self).slot_map_store,
                    lower_of(old(self).search_str@),
                    old(self).slot_tree_state.selected_workspace,
                )
            },
            final(self).slot_tree_state.todo_opened@ == if old(self).search_str@.len() == 0 {
                old(self).slot_tree_state.todo_opened@
            } else {
                old(self).slot_tree_state.todo_opened@ + pane_ancs(
                    old(self).slot_map_store,
                    lower_of(old(self).search_str@),
                    old(self).slot_tree_state.selected_workspace,
                )
            },
            final(self).slot_map_store == old(self).slot_map_store,
            final(self).slot_tree_state.selected_todo == old(self).slot_tree_state.selected_todo,
            final(self).slot_tree_state.selected_workspace == old(
                self,
            ).slot_tree_state.selected_workspace,
            final(self).slot_tree_state.ws_opened == old(self).slot_tree_state.ws_opened,
            final(self).slot_tree_state.ws_tree@ == old(self).slot_tree_state.ws_tree@,
            final(self).slot_tree_state.multi_selected_todos == old(
                self,
            ).slot_tree_state.multi_selected_todos,
            final(self).slot_tree_state.multi_selected_workspaces == old(
                self,
            ).slot_tree_state.multi_selected_workspaces,
            final(self).search_str == old(self).search_str,
            final(self).search_mode == old(self).search_mode,
            final(self).running == old(self).running,
            final(self).input == old(self).input,
            final(self).new_editing_id == old(self).new_editing_id,
            final(self).active_screen == old(self).active_screen,
            final(self).sorting == old(self).sorting,
            final(self).clipboard_todos == old(self).clipboard_todos,
            final(self).clipboard_workspaces == old(self).clipboard_workspaces,
    {
        self.search_matches = Vec::new();
        self.current_match_index = 0;
        proof {
            assert(self.search_matches@ =~= Seq::<usize>::empty());
        }
        let e = String::new();
        let is_empty = self.search_str == e;
        proof {
            if self.search_str@.len() == 0 {
                assert(self.search_str@ =~= e@);
            }
        }
        if is_empty {
            return ;
        }
        let q = self.search_str.clone();
        let ql = lowercase(&q);
        match self.slot_tree_state.selected_workspace {
            None => {},
            Some(w) => {
                let kids = {
                    let slot = &self.slot_map_store.workspaces_map[w];
                    let it = slot.as_ref().unwrap();
                    copy_keys(&it.todos)
                };
                let ghost tm = self.slot_map_store.todos_map@;
                let mut i: usize = 0;
                while i < kids.len()
                    invariant
                        old(self).wf(),
                        self.slot_map_store == old(self).slot_map_store,
                        kids@ == ws_at(
                            self.slot_map_store.workspaces_map@,
                            w as int,
                        ).todos@,
                        tm == self.slot_map_store.todos_map@,
                        old(self).slot_tree_state.selected_workspace == Some(w),
                        ws_live(self.slot_map_store.workspaces_map@, w as int),
                        i <= kids@.len(),
                        self.search_matches@ == match_seq_list(
                            tm,
                            ql@,
                            kids@.take(i as int),
                            self.slot_map_store.tfuel(),
                        ),
                        self.slot_tree_state.todo_opened@ == old(
                            self,
                        ).slot_tree_state.todo_opened@ + anc_seq_list(
                            tm,
                            ql@,
                            kids@.take(i as int),
                            self.slot_map_store.tfuel(),
                        ),
                        ql@ == lower_of(old(self).search_str@),
                        self.slot_tree_state == (SlotTreeState {
                            todo_opened: self.slot_tree_state.todo_opened,
                            ..old(self).slot_tree_state
                        }),
                        self.search_str == old(self).search_str,
                        self.running == old(self).running,
                        self.input == old(self).input,
                        self.new_editing_id == old(self).new_editing_id,
                        self.active_screen == old(self).active_screen,
                        self.sorting == old(self).sorting,
                        self.clipboard_todos == old(self).clipboard_todos,
                        self.clipboard_workspaces == old(self).clipboard_workspaces,
                        self.search_mode == old(self).search_mode,
                        self.current_match_index == 0,
                    decreases kids@.len() - i,
                {
                    let c = kids[i];
                    proof {
                        assert(todo_live(tm, kids@[i as int] as int));
                        assert(todo_bounded(tm, kids@[i as int] as int, self.slot_map_store.tfuel()));
                    }
                    let ghost tf = self.slot_map_store.tfuel();
                    let h = self.search_collect(c, &ql, Ghost(tf));
                    proof {
                        lemma_match_seq_list_snoc(tm, ql@, kids@.take(i as int), kids@[i as int], tf);
                        lemma_anc_seq_list_snoc(tm, ql@, kids@.take(i as int), kids@[i as int], tf);
                        assert(kids@.take(i as int).push(kids@[i as int]) =~= kids@.take(
                            i as int + 1,
                        ));
                    }
                    i += 1;
                }
                proof {
                    assert(kids@.take(i as int) =~= kids@);
                }
            },
        }
        self.slot_tree_state.update_workspace_tree_state(&self.slot_map_store);
    }
}

/// Matches add up one subtree at a time.
pub proof fn lemma_match_seq_list_snoc(
    tm: Seq<Option<TodoItem>>,
    ql: Seq<char>,
    ks: Seq<usize>,
    x: usize,
    fuel: nat,
)
    ensures
        match_seq_list(tm, ql, ks.push(x), fuel) == match_seq_list(tm, ql, ks, fuel) + match_seq(
            tm,
            ql,
            x,
            fuel,
        ),
    decreases ks.len(),
{
    if ks.len() == 0 {
        assert(ks.push(x).drop_first() =~= Seq::<usize>::empty());
        assert(ks.push(x)[0] == x);
        assert(match_seq_list(tm, ql, ks.push(x).drop_first(), fuel) =~= Seq::<usize>::empty());
        assert(match_seq_list(tm, ql, ks.push(x), fuel) =~= match_seq_list(tm, ql, ks, fuel)
            + match_seq(tm, ql, x, fuel));
    } else {
        lemma_match_seq_list_snoc(tm, ql, ks.drop_first(), x, fuel);
        assert(ks.push(x).drop_first() =~= ks.drop_first().push(x));
        assert(ks.push(x)[0] == ks[0]);
        assert(match_seq_list(tm, ql, ks.push(x), fuel) =~= match_seq_list(tm, ql, ks, fuel)
            + match_seq(tm, ql, x, fuel));
    }
}

/// Expansion chains add up one subtree at a time.
pub proof fn lemma_anc_seq_list_snoc(
    tm: Seq<Option<TodoItem>>,
    ql: Seq<char>,
    ks: Seq<usize>,
    x: usize,
    fuel: nat,
)
    ensures
        anc_seq_list(tm, ql, ks.push(x), fuel) == anc_seq_list(tm, ql, ks, fuel) + anc_seq(
            tm,
            ql,
            x,
            fuel,
        ),
    decreases ks.len(),
{
    if ks.len() == 0 {
        assert(ks.push(x).drop_first() =~= Seq::<usize>::empty());
        assert(ks.push(x)[0] == x);
        assert(anc_seq_list(tm, ql, ks.push(x).drop_first(), fuel) =~= Seq::<usize>::empty());
        assert(anc_seq_list(tm, ql, ks.push(x), fuel) =~= anc_seq_list(tm, ql, ks, fuel) + anc_seq(
            tm,
            ql,
            x,
            fuel,
        ));
    } else {
        lemma_anc_seq_list_snoc(tm, ql, ks.drop_first(), x, fuel);
        assert(ks.push(x).drop_first() =~= ks.drop_first().push(x));
        assert(ks.push(x)[0] == ks[0]);
        assert(anc_seq_list(tm, ql, ks.push(x), fuel) =~= anc_seq_list(tm, ql, ks, fuel) + anc_seq(
            tm,
            ql,
            x,
            fuel,
        ));
    }
}

impl App {
    /// Enter search mode with an empty search string and no matches.
    pub fn begin_search(&mut self)
        requires
            old(self).wf(),
            old(self).active_screen == Screen::Todos,
        ensures
            final(self).wf(),
            final(self).search_mode,
            final(self).search_str@ == Seq::<char>::empty(),
            final(self).search_matches@ == Seq::<usize>::empty(),
            final(self).current_match_index == 0,
            final(self).slot_map_store == old(self).slot_map_store,
            final(self).slot_tree_state == old(self).slot_tree_state,
            final(self).running == old(self).running,
            final(self).input == old(self).input,
            final(self).new_editing_id == old(self).new_editing_id,
            final(self).active_screen == old(self).active_screen,
            final(self).sorting == old(self).sorting,
            final(self).clipboard_todos == old(self).clipboard_todos,
            final(self).clipboard_workspaces == old(self).clipboard_workspaces,
    {
        self.search_mode = true;
        self.search_str = String::new();
        self.search_matches = Vec::new();
        self.current_match_index = 0;
        proof {
            assert(self.search_matches@ =~= Seq::<usize>::empty());
        }
    }

    /// One typed search character: it joins the search string and the whole
    /// match set and forced expansions are recomputed live.
    pub fn search_char(&mut self, c: char)
        requires
            old(self).wf(),
            old(self).active_screen == Screen::Todos,
            old(self).search_mode,
        ensures
            final(self).wf(),
            search_key_effect(*old(self), *final(self), Some(c)),
    {
        push_char(&mut self.search_str, c);
        self.update_search_matches();
    }

    /// One erased search character, with the same live recomputation; an
    /// emptied search string leaves no matches.
    pub fn search_backspace(&mut self)
        requires
            old(self).wf(),
            old(self).active_screen == Screen::Todos,
            old(self).search_mode,
        ensures
            final(self).wf(),
            search_key_effect(*old(self), *final(self), None),
    {
        pop_char(&mut self.search_str);
        self.update_search_matches();
    }

    /// Leave search mode; the search string clears but the match set stays
    /// for later cycling.
    pub fn end_search(&mut self)
        requires
            old(self).wf(),
            old(self).active_screen == Screen::Todos,
        ensures
            final(self).wf(),
            *final(self) == (App {
                search_mode: false,
                search_str: final(self).search_str,
                ..*old(self)
            }),
            final(self).search_str@ == Seq::<char>::empty(),
    {
        self.search_mode = false;
        self.search_str = String::new();
    }

    /// Cycle to the next recorded match, wrapping around; when it is visible
    /// it becomes the selection, else the selection stays. With no matches
    /// nothing happens.
    pub fn next_match(&mut self)
        requires
            old(self).wf(),
            old(self).active_screen == Screen::Todos,
            old(self).sorting == SortingItem::Idle,
        ensures
            final(self).wf(),
            old(self).search_matches@.len() == 0 ==> *final(self) == *old(self),
            old(self).search_matches@.len() > 0 ==> {
                let ix = (old(self).current_match_index + 1) as int
                    % old(self).search_matches@.len() as int;
                let m = old(self).search_matches@[ix];
                &&& final(self).current_match_index == ix
                &&& final(self).slot_tree_state.selected_todo == if row_keys(
                    old(self).slot_tree_state.todo_tree@,
                ).contains(m) {
                    Some(m)
                } else {
                    old(self).slot_tree_state.selected_todo
                }
                &&& final(self).slot_map_store == old(self).slot_map_store
                &&& final(self).slot_tree_state == (SlotTreeState {
                    selected_todo: final(self).slot_tree_state.selected_todo,
                    ..old(self).slot_tree_state
                })
                &&& final(self).search_matches == old(self).search_matches
            },
    {
        let n = self.search_matches.len();
        if n > 0 {
            let ix = (self.current_match_index + 1) % n;
            self.current_match_index = ix;
            let m = self.search_matches[ix];
            match find_row(&self.slot_tree_state.todo_tree, m) {
                Some(j) => {
                    proof {
                        assert(row_keys(self.slot_tree_state.todo_tree@)[j as int] == m);
                        lemma_todo_tree_member_live(
                            self.slot_map_store,
                            self.slot_tree_state.todo_opened@,
                            self.slot_tree_state.selected_workspace,
                            m,
                        );
                    }
                    self.slot_tree_state.selected_todo = Some(m);
                },
                None => {},
            }
        }
    }
}

/// Lexicographic order on character sequences, the order `str` compares in.
pub open spec fn lex_le(a: Seq<char>, b: Seq<char>) -> bool
    decreases a.len(),
{
    if a.len() == 0 {
        true
    } else if b.len() == 0 {
        false
    } else if a[0] != b[0] {
        a[0] < b[0]
    } else {
        lex_le(a.drop_first(), b.drop_first())
    }
}

/// One of any two character sequences comes first.
pub proof fn lemma_lex_le_total(a: Seq<char>, b: Seq<char>)
    ensures
        lex_le(a, b) || lex_le(b, a),
    decreases a.len(),
{
    if a.len() > 0 && b.len() > 0 && a[0] == b[0] {
        lemma_lex_le_total(a.drop_first(), b.drop_first());
    }
}

/// The lexicographic order chains.
pub proof fn lemma_lex_le_trans(a: Seq<char>, b: Seq<char>, c: Seq<char>)
    requires
        lex_le(a, b),
        lex_le(b, c),
    ensures
        lex_le(a, c),
    decreases a.len(),
{
    if a.len() > 0 && b.len() > 0 && c.len() > 0 && a[0] == b[0] && b[0] == c[0] {
        lemma_lex_le_trans(a.drop_first(), b.drop_first(), c.drop_first());
    }
}

/// Relies on str's `<=`: strings order lexicographically — byte order and
/// character order agree in UTF-8.
#[verifier::external_body]
fn str_le(a: &String, b: &String) -> (r: bool)
    ensures
        r == lex_le(a@, b@),
{
    a <= b
}

/// The order a sort choice sorts a container by, over two live handles.
pub open spec fn key_le(tm: Seq<Option<TodoItem>>, sk: SortKey, a: usize, b: usize) -> bool {
    match sk {
        SortKey::Pending => !todo_at(tm, a as int).pending || todo_at(tm, b as int).pending,
        SortKey::Urgency => todo_at(tm, a as int).urgency <= todo_at(tm, b as int).urgency,
        _ => lex_le(todo_at(tm, a as int).description@, todo_at(tm, b as int).description@),
    }
}

/// The sort key order is total.
pub proof fn lemma_key_le_total(tm: Seq<Option<TodoItem>>, sk: SortKey, a: usize, b: usize)
    ensures
        key_le(tm, sk, a, b) || key_le(tm, sk, b, a),
{
    lemma_lex_le_total(todo_at(tm, a as int).description@, todo_at(tm, b as int).description@);
}

/// The sort key order chains.
pub proof fn lemma_key_le_trans(tm: Seq<Option<TodoItem>>, sk: SortKey, a: usize, b: usize, c: usize)
    requires
        key_le(tm, sk, a, b),
        key_le(tm, sk, b, c),
    ensures
        key_le(tm, sk, a, c),
{
    match sk {
        SortKey::Pending => {},
        SortKey::Urgency => {},
        _ => {
            lemma_lex_le_trans(
                todo_at(tm, a as int).description@,
                todo_at(tm, b as int).description@,
                todo_at(tm, c as int).description@,
            );
        },
    }
}

/// `x` slid into a sorted run from the right: it passes every element above
/// it and lands after the last element not above it — so after every
/// element of its own key, which keeps ties in arrival order.
pub open spec fn sorted_insert(tm: Seq<Option<TodoItem>>, sk: SortKey, s: Seq<usize>, x: usize) -> Seq<usize>
    decreases s.len(),
{
    if s.len() == 0 {
        seq![x]
    } else if key_le(tm, sk, s.last(), x) {
        s.push(x)
    } else {
        sorted_insert(tm, sk, s.drop_last(), x).push(s.last())
    }
}

/// The container as one stable insertion sort leaves it.
pub open spec fn spec_sort(tm: Seq<Option<TodoItem>>, sk: SortKey, s: Seq<usize>) -> Seq<usize>
    decreases s.len(),
{
    if s.len() == 0 {
        s
    } else {
        sorted_insert(tm, sk, spec_sort(tm, sk, s.drop_last()), s.last())
    }
}

/// Whether every element comes no later than those after it.
pub open spec fn sorted_keys(tm: Seq<Option<TodoItem>>, sk: SortKey, s: Seq<usize>) -> bool {
    forall|i: int, j: int| 0 <= i < j < s.len() ==> key_le(tm, sk, #[trigger] s[i], #[trigger] s[j])
}

/// Insertion keeps a run sorted.
pub proof fn lemma_sorted_insert_sorted(
    tm: Seq<Option<TodoItem>>,
    sk: SortKey,
    s: Seq<usize>,
    x: usize,
)
    requires
        sorted_keys(tm, sk, s),
    ensures
        sorted_keys(tm, sk, sorted_insert(tm, sk, s, x)),
        sorted_insert(tm, sk, s, x).to_multiset() == s.to_multiset().insert(x),
        sorted_insert(tm, sk, s, x).len() == s.len() + 1,
    decreases s.len(),
{
    broadcast use vstd::seq_lib::group_to_multiset_ensures;

    let r = sorted_insert(tm, sk, s, x);
    if s.len() == 0 {
        assert(r =~= seq![x]);
        assert(seq![x] =~= Seq::<usize>::empty().push(x));
        assert(r.to_multiset() =~= s.to_multiset().insert(x));
    } else if key_le(tm, sk, s.last(), x) {
        assert forall|i: int, j: int| 0 <= i < j < r.len() implies key_le(
            tm,
            sk,
            #[trigger] r[i],
            #[trigger] r[j],
        ) by {
            if j == r.len() - 1 {
                if i < s.len() - 1 {
                    assert(key_le(tm, sk, s[i], s.last()));
                    lemma_key_le_trans(tm, sk, s[i], s.last(), x);
                }
            }
        }
        assert(r.to_multiset() =~= s.to_multiset().insert(x));
    } else {
        assert(sorted_keys(tm, sk, s.drop_last())) by {
            assert forall|i: int, j: int|
                0 <= i < j < s.drop_last().len() implies key_le(
                tm,
                sk,
                #[trigger] s.drop_last()[i],
                #[trigger] s.drop_last()[j],
            ) by {
                assert(s.drop_last()[i] == s[i]);
                assert(s.drop_last()[j] == s[j]);
            }
        }
        lemma_sorted_insert_sorted(tm, sk, s.drop_last(), x);
        let inner = sorted_insert(tm, sk, s.drop_last(), x);
        lemma_key_le_total(tm, sk, s.last(), x);
        assert forall|i: int, j: int| 0 <= i < j < r.len() implies key_le(
            tm,
            sk,
            #[trigger] r[i],
            #[trigger] r[j],
        ) by {
            if j == r.len() - 1 {
                // every inner element is an old element or x; both come
                // before the last element of s
                assert(r[j] == s.last());
                assert(inner.to_multiset().contains(r[i]));
                assert(inner.to_multiset() == s.drop_last().to_multiset().insert(x));
                if r[i] == x {
                    assert(key_le(tm, sk, x, s.last()));
                } else {
                    assert(s.drop_last().to_multiset().contains(r[i]));
                    assert(s.drop_last().contains(r[i]));
                    let w = choose|w: int|
                        0 <= w < s.drop_last().len() && s.drop_last()[w] == r[i];
                    assert(s[w] == r[i]);
                    assert(key_le(tm, sk, s[w], s.last()));
                }
            }
        }
        assert(r.to_multiset() =~= s.to_multiset().insert(x)) by {
            assert(r == inner.push(s.last()));
            assert(r.to_multiset() == inner.to_multiset().insert(s.last()));
            assert(s.to_multiset() == s.drop_last().push(s.last()).to_multiset()) by {
                assert(s.drop_last().push(s.last()) =~= s);
            }
            assert(s.to_multiset() == s.drop_last().to_multiset().insert(s.last()));
        }
    }
}

/// What the sort leaves: a sorted container holding the same handles.
pub proof fn lemma_spec_sort_ensures(tm: Seq<Option<TodoItem>>, sk: SortKey, s: Seq<usize>)
    ensures
        sorted_keys(tm, sk, spec_sort(tm, sk, s)),
        spec_sort(tm, sk, s).to_multiset() == s.to_multiset(),
        spec_sort(tm, sk, s).len() == s.len(),
    decreases s.len(),
{
    broadcast use vstd::seq_lib::group_to_multiset_ensures;

    if s.len() > 0 {
        lemma_spec_sort_ensures(tm, sk, s.drop_last());
        lemma_sorted_insert_sorted(tm, sk, spec_sort(tm, sk, s.drop_last()), s.last());
        assert(s.drop_last().push(s.last()) =~= s);
        assert(s.to_multiset() == s.drop_last().to_multiset().insert(s.last()));
    }
}

/// Ties keep their arrival order: for any one key class, sorting does not
/// reorder its members.
pub proof fn lemma_spec_sort_stable(
    tm: Seq<Option<TodoItem>>,
    sk: SortKey,
    s: Seq<usize>,
    h: usize,
)
    ensures
        spec_sort(tm, sk, s).filter(
            |y: usize| key_le(tm, sk, y, h) && key_le(tm, sk, h, y),
        ) == s.filter(|y: usize| key_le(tm, sk, y, h) && key_le(tm, sk, h, y)),
    decreases s.len(),
{
    let p = |y: usize| key_le(tm, sk, y, h) && key_le(tm, sk, h, y);
    if s.len() > 0 {
        lemma_spec_sort_stable(tm, sk, s.drop_last(), h);
        lemma_spec_sort_ensures(tm, sk, s.drop_last());
        lemma_sorted_insert_filter(tm, sk, spec_sort(tm, sk, s.drop_last()), s.last(), h);
        reveal_with_fuel(Seq::filter, 2);
        assert(s.drop_last().push(s.last()) =~= s);
        assert(s.filter(p) == s.drop_last().filter(p) + (if p(s.last()) {
            seq![s.last()]
        } else {
            Seq::<usize>::empty()
        })) by {
            assert(s.drop_last() == s.drop_last());
            if p(s.last()) {
                assert(s.filter(p) =~= s.drop_last().filter(p).push(s.last()));
                assert(s.drop_last().filter(p) + seq![s.last()] =~= s.drop_last().filter(p).push(
                    s.last(),
                ));
            } else {
                assert(s.filter(p) =~= s.drop_last().filter(p));
                assert(s.drop_last().filter(p) + Seq::<usize>::empty() =~= s.drop_last().filter(
                    p,
                ));
            }
        }
    }
}

/// Sliding one element into a sorted run appends it to its key class and
/// leaves the other classes alone.
pub proof fn lemma_sorted_insert_filter(
    tm: Seq<Option<TodoItem>>,
    sk: SortKey,
    s: Seq<usize>,
    x: usize,
    h: usize,
)
    requires
        sorted_keys(tm, sk, s),
    ensures
        sorted_insert(tm, sk, s, x).filter(
            |y: usize| key_le(tm, sk, y, h) && key_le(tm, sk, h, y),
        ) == s.filter(|y: usize| key_le(tm, sk, y, h) && key_le(tm, sk, h, y)) + (
        if key_le(tm, sk, x, h) && key_le(tm, sk, h, x) {
            seq![x]
        } else {
            Seq::<usize>::empty()
        }),
    decreases s.len(),
{
    let p = |y: usize| key_le(tm, sk, y, h) && key_le(tm, sk, h, y);
    let r = sorted_insert(tm, sk, s, x);
    reveal_with_fuel(Seq::filter, 2);
    if s.len() == 0 {
        assert(r =~= seq![x]);
        assert(seq![x].drop_last() =~= Seq::<usize>::empty());
        if p(x) {
            assert(r.filter(p) =~= s.filter(p) + seq![x]);
        } else {
            assert(r.filter(p) =~= s.filter(p) + Seq::<usize>::empty());
        }
    } else if key_le(tm, sk, s.last(), x) {
        assert(r == s.push(x));
        assert(r.drop_last() =~= s);
        assert(r.filter(p) == s.filter(p) + (if p(x) {
            seq![x]
        } else {
            Seq::<usize>::empty()
        })) by {
            if p(x) {
                assert(r.filter(p) =~= s.filter(p).push(x));
                assert(s.filter(p) + seq![x] =~= s.filter(p).push(x));
            } else {
                assert(r.filter(p) =~= s.filter(p));
                assert(s.filter(p) + Seq::<usize>::empty() =~= s.filter(p));
            }
        }
    } else {
        // x passes the last element, so they cannot share a key class
        assert(!(p(x) && p(s.last()))) by {
            if p(x) && p(s.last()) {
                lemma_key_le_trans(tm, sk, s.last(), h, x);
            }
        }
        assert(sorted_keys(tm, sk, s.drop_last())) by {
            assert forall|i: int, j: int|
                0 <= i < j < s.drop_last().len() implies key_le(
                tm,
                sk,
                #[trigger] s.drop_last()[i],
                #[trigger] s.drop_last()[j],
            ) by {
                assert(s.drop_last()[i] == s[i]);
                assert(s.drop_last()[j] == s[j]);
            }
        }
        lemma_sorted_insert_filter(tm, sk, s.drop_last(), x, h);
        let inner = sorted_insert(tm, sk, s.drop_last(), x);
        assert(r == inner.push(s.last()));
        assert(r.drop_last() =~= inner);
        assert(s.drop_last().push(s.last()) =~= s);
        if p(s.last()) {
            assert(!p(x));
            assert(r.filter(p) =~= inner.filter(p).push(s.last()));
            assert(s.filter(p) =~= s.drop_last().filter(p).push(s.last()));
            assert(inner.filter(p) == s.drop_last().filter(p) + Seq::<usize>::empty());
            assert(inner.filter(p) =~= s.drop_last().filter(p));
            assert(r.filter(p) =~= s.filter(p) + Seq::<usize>::empty());
        } else {
            assert(r.filter(p) =~= inner.filter(p));
            assert(s.filter(p) =~= s.drop_last().filter(p));
        }
    }
}

/// The law of the sorted pane: choosing the description sort and then the
/// reversal shows the container in descending lexicographic order, and the
/// sort alone keeps ties in their old order.
pub proof fn lemma_sort_then_reverse_descending(
    tm: Seq<Option<TodoItem>>,
    s: Seq<usize>,
    h: usize,
)
    ensures
        forall|i: int, j: int|
            0 <= i < j < spec_sort(tm, SortKey::Description, s).reverse().len() ==> key_le(
                tm,
                SortKey::Description,
                #[trigger] spec_sort(tm, SortKey::Description, s).reverse()[j],
                #[trigger] spec_sort(tm, SortKey::Description, s).reverse()[i],
            ),
        spec_sort(tm, SortKey::Description, s).filter(
            |y: usize| key_le(tm, SortKey::Description, y, h) && key_le(
                tm,
                SortKey::Description,
                h,
                y,
            ),
        ) == s.filter(
            |y: usize| key_le(tm, SortKey::Description, y, h) && key_le(
                tm,
                SortKey::Description,
                h,
                y,
            ),
        ),
{
    lemma_spec_sort_ensures(tm, SortKey::Description, s);
    lemma_sorted_reverse_descending(tm, SortKey::Description, spec_sort(tm, SortKey::Description, s));
    lemma_spec_sort_stable(tm, SortKey::Description, s, h);
}

/// A run sorted ascending reads descending from the other end.
pub proof fn lemma_sorted_reverse_descending(
    tm: Seq<Option<TodoItem>>,
    sk: SortKey,
    s: Seq<usize>,
)
    requires
        sorted_keys(tm, sk, s),
    ensures
        forall|i: int, j: int|
            0 <= i < j < s.reverse().len() ==> key_le(
                tm,
                sk,
                #[trigger] s.reverse()[j],
                #[trigger] s.reverse()[i],
            ),
{
    assert forall|i: int, j: int| 0 <= i < j < s.reverse().len() implies key_le(
        tm,
        sk,
        #[trigger] s.reverse()[j],
        #[trigger] s.reverse()[i],
    ) by {
        assert(s.reverse()[j] == s[s.len() - 1 - j]);
        assert(s.reverse()[i] == s[s.len() - 1 - i]);
        assert(key_le(tm, sk, s[s.len() - 1 - j], s[s.len() - 1 - i]));
    }
}

/// A list holding the same multiset as a duplicate-free list is itself
/// duplicate-free.
pub proof fn lemma_no_dup_from_multiset(c1: Seq<usize>, c2: Seq<usize>)
    requires
        c2.to_multiset() == c1.to_multiset(),
        forall|i1: int, i2: int|
            0 <= i1 < i2 < c1.len() ==> #[trigger] c1[i1] != #[trigger] c1[i2],
    ensures
        forall|i1: int, i2: int|
            0 <= i1 < i2 < c2.len() ==> #[trigger] c2[i1] != #[trigger] c2[i2],
{
    broadcast use vstd::seq_lib::group_to_multiset_ensures;

    assert forall|i1: int, i2: int|
        0 <= i1 < i2 < c2.len() implies #[trigger] c2[i1] != #[trigger] c2[i2] by {
        if c2[i1] == c2[i2] {
            let v = c2[i1];
            assert(c2.remove(i1).to_multiset() =~= c2.to_multiset().remove(v));
            assert(c2.remove(i1)[i2 - 1] == v);
            assert(c2.remove(i1).contains(v));
            assert(c2.remove(i1).to_multiset().count(v) > 0);
            assert(c2.to_multiset().count(v) >= 2);
            assert(c1.to_multiset().count(v) >= 2);
            assert(c1.to_multiset().count(v) > 0);
            assert(c1.contains(v));
            let w = choose|w: int| 0 <= w < c1.len() && c1[w] == v;
            assert(c1.remove(w).to_multiset() =~= c1.to_multiset().remove(v));
            assert(c1.remove(w).to_multiset().count(v) > 0);
            assert(c1.remove(w).contains(v));
            let w2 = choose|w2: int| 0 <= w2 < c1.remove(w).len() && c1.remove(w)[w2] == v;
            c1.remove_ensures(w);
            if w2 < w {
                assert(c1[w2] == v);
            } else {
                assert(c1[w2 + 1] == v);
            }
        }
    }
}

/// Replacing one live todo's child list by a rearrangement of itself —
/// same handles, no duplicates — keeps the store consistent and the
/// workspace pane unchanged.
pub proof fn lemma_todo_container_set(
    s1: SlotMapStore,
    s2: SlotMapStore,
    p: int,
    opened_ws: Seq<usize>,
)
    requires
        s1.wf(),
        todo_live(s1.todos_map@, p),
        s2.workspaces_map == s1.workspaces_map,
        s2.root_workspaces == s1.root_workspaces,
        s2.todos_map@.len() == s1.todos_map@.len(),
        forall|j: int|
            0 <= j < s1.todos_map@.len() && j != p ==> s2.todos_map@[j] == #[trigger] s1.todos_map@[j],
        todo_live(s2.todos_map@, p),
        todo_at(s2.todos_map@, p) == (TodoItem {
            children: todo_at(s2.todos_map@, p).children,
            ..todo_at(s1.todos_map@, p)
        }),
        forall|i: int|
            0 <= i < todo_at(s2.todos_map@, p).children@.len() ==> todo_at(
                s1.todos_map@,
                p,
            ).children@.contains(#[trigger] todo_at(s2.todos_map@, p).children@[i]),
        forall|i1: int, i2: int|
            0 <= i1 < i2 < todo_at(s2.todos_map@, p).children@.len() ==> #[trigger] todo_at(
                s2.todos_map@,
                p,
            ).children@[i1] != #[trigger] todo_at(s2.todos_map@, p).children@[i2],
    ensures
        s2.wf(),
        ws_rows(s2, opened_ws) == ws_rows(s1, opened_ws),
        forall|j: int| ws_live(s2.workspaces_map@, j) == ws_live(s1.workspaces_map@, j),
        forall|j: int| todo_live(s2.todos_map@, j) == todo_live(s1.todos_map@, j),
    decreases 1int,
{
    let tm1 = s1.todos_map@;
    let tm2 = s2.todos_map@;
    let wm = s1.workspaces_map@;
    let c1 = todo_at(tm1, p).children@;
    let c2 = todo_at(tm2, p).children@;
    assert forall|j: int| todo_live(tm1, j) == todo_live(tm2, j) by {
        if 0 <= j < tm1.len() && j != p {
            assert(tm2[j] == tm1[j]);
        }
    }
    assert forall|j: int, i: int|
        todo_live(tm1, j) && 0 <= i < todo_at(tm2, j).children@.len() implies todo_at(
            tm1,
            j,
        ).children@.contains(#[trigger] todo_at(tm2, j).children@[i]) by {
        if j != p {
            assert(tm2[j] == tm1[j]);
            assert(todo_at(tm1, j).children@[i] == todo_at(tm2, j).children@[i]);
        }
    }
    assert forall|k: int| todo_live(tm2, k) implies #[trigger] todo_bounded(
        tm2,
        k,
        s2.tfuel(),
    ) by {
        lemma_todo_bounded_shrink(tm1, tm2, k, s1.tfuel());
    }
    assert forall|k: int| ws_live(wm, k) implies #[trigger] ws_bounded(wm, k, s2.wfuel()) by {
        assert(ws_bounded(wm, k, s1.wfuel()));
    }
    assert(s2.links_ok());
    assert forall|j1: int, i1: int, j2: int, i2: int|
        todo_live(tm2, j1) && todo_live(tm2, j2) && 0 <= i1 < todo_at(tm2, j1).children@.len()
            && 0 <= i2 < todo_at(tm2, j2).children@.len() && (j1 != j2 || i1 != i2)
        implies #[trigger] todo_at(tm2, j1).children@[i1] != #[trigger] todo_at(
            tm2,
            j2,
        ).children@[i2] by {
        if j1 != p && j2 != p {
            assert(tm2[j1] == tm1[j1]);
            assert(tm2[j2] == tm1[j2]);
            assert(todo_at(tm1, j1).children@[i1] != todo_at(tm1, j2).children@[i2]);
        } else if j1 == p && j2 == p {
            if i1 < i2 {
            } else {
            }
        } else if j1 == p {
            assert(tm2[j2] == tm1[j2]);
            assert(c1.contains(c2[i1]));
            let w = choose|w: int| 0 <= w < c1.len() && c1[w] == c2[i1];
            assert(todo_at(tm1, p).children@[w] != todo_at(tm1, j2).children@[i2]);
        } else {
            assert(tm2[j1] == tm1[j1]);
            assert(c1.contains(c2[i2]));
            let w = choose|w: int| 0 <= w < c1.len() && c1[w] == c2[i2];
            assert(todo_at(tm1, j1).children@[i1] != todo_at(tm1, p).children@[w]);
        }
    }
    assert forall|j1: int, i1: int, j2: int, i2: int|
        ws_live(wm, j1) && todo_live(tm2, j2) && 0 <= i1 < ws_at(wm, j1).todos@.len() && 0 <= i2
            < todo_at(tm2, j2).children@.len() implies #[trigger] ws_at(wm, j1).todos@[i1]
            != #[trigger] todo_at(tm2, j2).children@[i2] by {
        if j2 != p {
            assert(tm2[j2] == tm1[j2]);
            assert(ws_at(wm, j1).todos@[i1] != todo_at(tm1, j2).children@[i2]);
        } else {
            assert(c1.contains(c2[i2]));
            let w = choose|w: int| 0 <= w < c1.len() && c1[w] == c2[i2];
            assert(ws_at(wm, j1).todos@[i1] != todo_at(tm1, p).children@[w]);
        }
    }
    assert(s2.todo_owners_ok());
    assert(s2.ws_owners_ok());
    assert(crate::arena::ws_children_same(wm, s2.workspaces_map@));
    crate::tree::lemma_ws_rows_links(s1, s2, opened_ws);
}

/// As `lemma_todo_container_set`, for a live workspace's own todo list.
pub proof fn lemma_ws_todos_container_set(
    s1: SlotMapStore,
    s2: SlotMapStore,
    w: int,
    opened_ws: Seq<usize>,
)
    requires
        s1.wf(),
        ws_live(s1.workspaces_map@, w),
        s2.todos_map == s1.todos_map,
        s2.root_workspaces == s1.root_workspaces,
        s2.workspaces_map@.len() == s1.workspaces_map@.len(),
        forall|j: int|
            0 <= j < s1.workspaces_map@.len() && j != w ==> s2.workspaces_map@[j]
                == #[trigger] s1.workspaces_map@[j],
        ws_live(s2.workspaces_map@, w),
        ws_at(s2.workspaces_map@, w) == (WorkspaceItem {
            todos: ws_at(s2.workspaces_map@, w).todos,
            ..ws_at(s1.workspaces_map@, w)
        }),
        forall|i: int|
            0 <= i < ws_at(s2.workspaces_map@, w).todos@.len() ==> ws_at(
                s1.workspaces_map@,
                w,
            ).todos@.contains(#[trigger] ws_at(s2.workspaces_map@, w).todos@[i]),
        forall|i1: int, i2: int|
            0 <= i1 < i2 < ws_at(s2.workspaces_map@, w).todos@.len() ==> #[trigger] ws_at(
                s2.workspaces_map@,
                w,
            ).todos@[i1] != #[trigger] ws_at(s2.workspaces_map@, w).todos@[i2],
    ensures
        s2.wf(),
        ws_rows(s2, opened_ws) == ws_rows(s1, opened_ws),
        forall|j: int| ws_live(s2.workspaces_map@, j) == ws_live(s1.workspaces_map@, j),
        forall|j: int| todo_live(s2.todos_map@, j) == todo_live(s1.todos_map@, j),
    decreases 1int,
{
    let wm1 = s1.workspaces_map@;
    let wm2 = s2.workspaces_map@;
    let tm = s1.todos_map@;
    let t1 = ws_at(wm1, w).todos@;
    let t2 = ws_at(wm2, w).todos@;
    assert forall|j: int| ws_live(wm1, j) == ws_live(wm2, j) by {
        if 0 <= j < wm1.len() && j != w {
            assert(wm2[j] == wm1[j]);
        }
    }
    assert forall|j: int| ws_live(wm1, j) implies (#[trigger] ws_at(wm2, j)).children@ == ws_at(
        wm1,
        j,
    ).children@ by {
        if j != w {
            assert(wm2[j] == wm1[j]);
        }
    }
    assert(crate::arena::ws_children_same(wm1, wm2));
    assert forall|k: int| ws_live(wm2, k) implies #[trigger] ws_bounded(wm2, k, s2.wfuel()) by {
        crate::arena::lemma_ws_bounded_links(wm1, wm2, k, s1.wfuel());
    }
    assert forall|k: int| ws_live(wm2, k) implies forall|i: int|
        0 <= i < ws_at(wm2, k).todos@.len() ==> todo_live(
            tm,
            #[trigger] ws_at(wm2, k).todos@[i] as int,
        ) by {
        assert forall|i: int| 0 <= i < ws_at(wm2, k).todos@.len() implies todo_live(
            tm,
            #[trigger] ws_at(wm2, k).todos@[i] as int,
        ) by {
            if k != w {
                assert(wm2[k] == wm1[k]);
                assert(todo_live(tm, ws_at(wm1, k).todos@[i] as int));
            } else {
                assert(t1.contains(t2[i]));
                let q = choose|q: int| 0 <= q < t1.len() && t1[q] == t2[i];
                assert(todo_live(tm, t1[q] as int));
            }
        }
    }
    assert forall|i: int| 0 <= i < s2.root_workspaces@.len() implies ws_live(
        wm2,
        #[trigger] s2.root_workspaces@[i] as int,
    ) by {
        assert(ws_live(wm1, s1.root_workspaces@[i] as int));
    }
    assert forall|k: int| todo_live(s2.todos_map@, k) implies #[trigger] todo_bounded(
        s2.todos_map@,
        k,
        s2.tfuel(),
    ) by {
        assert(todo_bounded(s1.todos_map@, k, s1.tfuel()));
    }
    assert(s2.links_ok());
    assert forall|j1: int, i1: int, j2: int, i2: int|
        ws_live(wm2, j1) && ws_live(wm2, j2) && 0 <= i1 < ws_at(wm2, j1).todos@.len() && 0 <= i2
            < ws_at(wm2, j2).todos@.len() && (j1 != j2 || i1 != i2) implies #[trigger] ws_at(
            wm2,
            j1,
        ).todos@[i1] != #[trigger] ws_at(wm2, j2).todos@[i2] by {
        if j1 != w && j2 != w {
            assert(wm2[j1] == wm1[j1]);
            assert(wm2[j2] == wm1[j2]);
            assert(ws_at(wm1, j1).todos@[i1] != ws_at(wm1, j2).todos@[i2]);
        } else if j1 == w && j2 == w {
        } else if j1 == w {
            assert(wm2[j2] == wm1[j2]);
            assert(t1.contains(t2[i1]));
            let q = choose|q: int| 0 <= q < t1.len() && t1[q] == t2[i1];
            assert(ws_at(wm1, w).todos@[q] != ws_at(wm1, j2).todos@[i2]);
        } else {
            assert(wm2[j1] == wm1[j1]);
            assert(t1.contains(t2[i2]));
            let q = choose|q: int| 0 <= q < t1.len() && t1[q] == t2[i2];
            assert(ws_at(wm1, j1).todos@[i1] != ws_at(wm1, w).todos@[q]);
        }
    }
    assert forall|j1: int, i1: int, j2: int, i2: int|
        ws_live(wm2, j1) && todo_live(tm, j2) && 0 <= i1 < ws_at(wm2, j1).todos@.len() && 0 <= i2
            < todo_at(tm, j2).children@.len() implies #[trigger] ws_at(wm2, j1).todos@[i1]
            != #[trigger] todo_at(tm, j2).children@[i2] by {
        if j1 != w {
            assert(wm2[j1] == wm1[j1]);
            assert(ws_at(wm1, j1).todos@[i1] != todo_at(tm, j2).children@[i2]);
        } else {
            assert(t1.contains(t2[i1]));
            let q = choose|q: int| 0 <= q < t1.len() && t1[q] == t2[i1];
            assert(ws_at(wm1, w).todos@[q] != todo_at(tm, j2).children@[i2]);
        }
    }
    assert(s2.todo_owners_ok());
    assert forall|j1: int, i1: int, j2: int, i2: int|
        ws_live(wm2, j1) && ws_live(wm2, j2) && 0 <= i1 < ws_at(wm2, j1).children@.len() && 0 <= i2
            < ws_at(wm2, j2).children@.len() && (j1 != j2 || i1 != i2) implies #[trigger] ws_at(
            wm2,
            j1,
        ).children@[i1] != #[trigger] ws_at(wm2, j2).children@[i2] by {
        assert(ws_at(wm2, j1).children@ == ws_at(wm1, j1).children@);
        assert(ws_at(wm2, j2).children@ == ws_at(wm1, j2).children@);
        assert(ws_at(wm1, j1).children@[i1] != ws_at(wm1, j2).children@[i2]);
    }
    assert forall|i: int, j: int, i2: int|
        0 <= i < s2.root_workspaces@.len() && ws_live(wm2, j) && 0 <= i2 < ws_at(
            wm2,
            j,
        ).children@.len() implies #[trigger] s2.root_workspaces@[i] != #[trigger] ws_at(
            wm2,
            j,
        ).children@[i2] by {
        assert(ws_at(wm2, j).children@ == ws_at(wm1, j).children@);
        assert(s1.root_workspaces@[i] != ws_at(wm1, j).children@[i2]);
    }
    assert(s2.ws_owners_ok());
    crate::tree::lemma_ws_rows_links(s1, s2, opened_ws);
}

/// The sort key a chosen digit stands for: reversing aside, 3 orders by the
/// pending flag, 4 by urgency, anything else by description.
pub open spec fn key_of_char(n: char) -> SortKey {
    if n == '3' {
        SortKey::Pending
    } else if n == '4' {
        SortKey::Urgency
    } else {
        SortKey::Description
    }
}

/// Scanning from the right found the insertion point: everything at or
/// after it is strictly above `x`, so inserting there is the stable slide.
pub proof fn lemma_sorted_insert_at(
    tm: Seq<Option<TodoItem>>,
    sk: SortKey,
    s: Seq<usize>,
    x: usize,
    p: int,
)
    requires
        0 <= p <= s.len(),
        p == 0 || key_le(tm, sk, s[p - 1], x),
        forall|q: int| p <= q < s.len() ==> !key_le(tm, sk, #[trigger] s[q], x),
    ensures
        sorted_insert(tm, sk, s, x) == s.insert(p, x),
    decreases s.len(),
{
    if s.len() == 0 {
        assert(sorted_insert(tm, sk, s, x) =~= s.insert(0, x));
    } else if p == s.len() {
        assert(key_le(tm, sk, s.last(), x));
        assert(sorted_insert(tm, sk, s, x) =~= s.insert(p, x));
    } else {
        assert(!key_le(tm, sk, s.last(), x));
        assert forall|q: int| p <= q < s.drop_last().len() implies !key_le(
            tm,
            sk,
            #[trigger] s.drop_last()[q],
            x,
        ) by {
            assert(s.drop_last()[q] == s[q]);
        }
        if p > 0 {
            assert(s.drop_last()[p - 1] == s[p - 1]);
        }
        lemma_sorted_insert_at(tm, sk, s.drop_last(), x, p);
        assert(sorted_insert(tm, sk, s, x) == s.drop_last().insert(p, x).push(s.last()));
        assert(s.drop_last().insert(p, x).push(s.last()) =~= s.insert(p, x));
    }
}

impl App {
    /// Whether `a` comes no later than `b` under the chosen key.
    fn todo_key_le_exec(&self, sk: SortKey, a: usize, b: usize) -> (r: bool)
        requires
            todo_live(self.slot_map_store.todos_map@, a as int),
            todo_live(self.slot_map_store.todos_map@, b as int),
        ensures
            r == key_le(self.slot_map_store.todos_map@, sk, a, b),
    {
        match sk {
            SortKey::Pending => {
                let pa = {
                    let slot = &self.slot_map_store.todos_map[a];
                    slot.as_ref().unwrap().pending
                };
                let pb = {
                    let slot = &self.slot_map_store.todos_map[b];
                    slot.as_ref().unwrap().pending
                };
                !pa || pb
            },
            SortKey::Urgency => {
                let ua = {
                    let slot = &self.slot_map_store.todos_map[a];
                    slot.as_ref().unwrap().urgency
                };
                let ub = {
                    let slot = &self.slot_map_store.todos_map[b];
                    slot.as_ref().unwrap().urgency
                };
                ua <= ub
            },
            _ => {
                let da = {
                    let slot = &self.slot_map_store.todos_map[a];
                    slot.as_ref().unwrap().description.clone()
                };
                let db = {
                    let slot = &self.slot_map_store.todos_map[b];
                    slot.as_ref().unwrap().description.clone()
                };
                str_le(&da, &db)
            },
        }
    }

    /// Stable-sort a list of todo handles by the key the digit names:
    /// description order for 2 (and any other digit), pending flag for 3,
    /// urgency for 4; ties keep their order. The store itself is untouched.
    pub fn sort_todos(&mut self, todos: &mut Vec<usize>, n: char)
        requires
            old(self).wf(),
            forall|i: int|
                0 <= i < old(todos)@.len() ==> todo_live(
                    old(self).slot_map_store.todos_map@,
                    #[trigger] old(todos)@[i] as int,
                ),
        ensures
            *final(self) == *old(self),
            final(todos)@ == spec_sort(
                old(self).slot_map_store.todos_map@,
                key_of_char(n),
                old(todos)@,
            ),
    {
        let ghost tm = self.slot_map_store.todos_map@;
        let sk = if n == '3' {
            SortKey::Pending
        } else if n == '4' {
            SortKey::Urgency
        } else {
            SortKey::Description
        };
        let mut out: Vec<usize> = Vec::new();
        let mut i: usize = 0;
        while i < todos.len()
            invariant
                self.wf(),
                *self == *old(self),
                tm == self.slot_map_store.todos_map@,
                todos@ == old(todos)@,
                sk == key_of_char(n),
                i <= todos@.len(),
                forall|q: int|
                    0 <= q < todos@.len() ==> todo_live(tm, #[trigger] todos@[q] as int),
                forall|q: int|
                    0 <= q < out@.len() ==> todo_live(tm, #[trigger] out@[q] as int),
                out@ == spec_sort(tm, sk, todos@.take(i as int)),
            decreases todos@.len() - i,
        {
            let x = todos[i];
            let mut p: usize = out.len();
            let mut scanning = true;
            while scanning && p > 0
                invariant
                    self.wf(),
                    tm == self.slot_map_store.todos_map@,
                    p <= out@.len(),
                    todo_live(tm, x as int),
                    forall|q: int|
                        0 <= q < out@.len() ==> todo_live(tm, #[trigger] out@[q] as int),
                    forall|q: int| p <= q < out@.len() ==> !key_le(tm, sk, #[trigger] out@[q], x),
                    !scanning ==> p > 0 && key_le(tm, sk, out@[p - 1], x),
                decreases p + (if scanning {
                    1int
                } else {
                    0int
                }),
            {
                let keep = self.todo_key_le_exec(sk, out[p - 1], x);
                if keep {
                    scanning = false;
                } else {
                    p = p - 1;
                }
            }
            proof {
                lemma_sorted_insert_at(tm, sk, out@, x, p as int);
            }
            out.insert(p, x);
            proof {
                assert(todos@.take(i as int).push(todos@[i as int]) =~= todos@.take(i as int + 1));
                assert(todos@.take(i as int + 1).drop_last() =~= todos@.take(i as int));
                assert(todos@.take(i as int + 1).last() == todos@[i as int]);
                assert(spec_sort(tm, sk, todos@.take(i as int + 1)) == sorted_insert(
                    tm,
                    sk,
                    spec_sort(tm, sk, todos@.take(i as int)),
                    todos@[i as int],
                ));
            }
            i += 1;
        }
        proof {
            assert(todos@.take(i as int) =~= todos@);
        }
        *todos = out;
    }
}

/// `v` the other way round.
pub fn reverse_keys(v: &Vec<usize>) -> (r: Vec<usize>)
    ensures
        r@ == v@.reverse(),
{
    let mut r: Vec<usize> = Vec::new();
    let mut i: usize = 0;
    while i < v.len()
        invariant
            i <= v@.len(),
            r@.len() == i,
            forall|q: int| 0 <= q < i ==> #[trigger] r@[q] == v@[v@.len() - 1 - q],
        decreases v@.len() - i,
    {
        r.push(v[v.len() - 1 - i]);
        i += 1;
    }
    proof {
        assert(r@ =~= v@.reverse());
    }
    r
}

impl App {
    /// Arm a sort on the selected todo's container; the next choice keystroke
    /// resolves it. Nothing happens with no selection.
    pub fn begin_sort_todo(&mut self)
        requires
            old(self).wf(),
            old(self).active_screen == Screen::Todos,
            old(self).sorting == SortingItem::Idle,
        ensures
            final(self).wf(),
            *final(self) == (App {
                sorting: match old(self).slot_tree_state.selected_todo {
                    Some(k) => SortingItem::Todo(k),
                    None => SortingItem::Idle,
                },
                ..*old(self)
            }),
    {
        match self.slot_tree_state.selected_todo {
            Some(selected) => {
                self.sorting = SortingItem::Todo(selected);
            },
            None => {},
        }
    }

    /// Resolve an armed todo sort with one keystroke: 1 reverses the armed
    /// row's whole container, any other digit stable-sorts it by the key the
    /// digit names; the engine returns to normal mode either way. An armed
    /// handle that is on no row only disarms.
    pub fn sort_choice_todo(&mut self, n: char)
        requires
            old(self).wf(),
            old(self).active_screen == Screen::Todos,
            old(self).sorting matches SortingItem::Todo(_),
        ensures
            final(self).wf(),
            final(self).sorting == SortingItem::Idle,
            sort_choice_todo_rel(*old(self), *final(self), n),
    {
        let k = match self.sorting {
            SortingItem::Todo(k) => k,
            _ => 0,
        };
        self.sorting = SortingItem::Idle;
        let ix = find_row(&self.slot_tree_state.todo_tree, k);
        match ix {
            None => {},
            Some(j) => {
                proof {
                    lemma_first_index_agrees(self.slot_tree_state.todo_tree@, k, j as int);
                    match self.slot_tree_state.selected_workspace {
                        Some(w) => {
                            lemma_todo_rows_row_source(
                                self.slot_map_store,
                                self.slot_tree_state.todo_opened@,
                                ws_at(self.slot_map_store.workspaces_map@, w as int).todos@,
                                j as int,
                            );
                        },
                        None => {},
                    }
                }
                let par = self.slot_tree_state.todo_tree[j].parent;
                let ghost s1 = self.slot_map_store;
                match par {
                    Some(p) => {
                        let c = {
                            let slot = &self.slot_map_store.todos_map[p];
                            let it = slot.as_ref().unwrap();
                            copy_keys(&it.children)
                        };
                        proof {
                            assert forall|q: int| 0 <= q < c@.len() implies todo_live(
                                s1.todos_map@,
                                #[trigger] c@[q] as int,
                            ) by {
                                lemma_todo_child_entries_live(s1, p as int, q);
                            }
                            assert forall|i1: int, i2: int|
                                0 <= i1 < i2 < c@.len() implies #[trigger] c@[i1]
                                != #[trigger] c@[i2] by {
                                assert(todo_at(s1.todos_map@, p as int).children@[i1] != todo_at(
                                    s1.todos_map@,
                                    p as int,
                                ).children@[i2]);
                            }
                        }
                        let nc = if n == '1' {
                            reverse_keys(&c)
                        } else {
                            let mut v = copy_keys(&c);
                            self.sort_todos(&mut v, n);
                            v
                        };
                        proof {
                            if n != '1' {
                                lemma_spec_sort_ensures(s1.todos_map@, key_of_char(n), c@);
                                lemma_no_dup_from_multiset(c@, nc@);
                                broadcast use vstd::seq_lib::group_to_multiset_ensures;

                                assert forall|q: int| 0 <= q < nc@.len() implies c@.contains(
                                    #[trigger] nc@[q],
                                ) by {
                                    assert(nc@.to_multiset().contains(nc@[q]));
                                }
                            } else {
                                assert forall|q: int| 0 <= q < nc@.len() implies c@.contains(
                                    #[trigger] nc@[q],
                                ) by {
                                    assert(nc@[q] == c@[c@.len() - 1 - q]);
                                }
                                assert forall|i1: int, i2: int|
                                    0 <= i1 < i2 < nc@.len() implies #[trigger] nc@[i1]
                                    != #[trigger] nc@[i2] by {
                                    assert(nc@[i1] == c@[c@.len() - 1 - i1]);
                                    assert(nc@[i2] == c@[c@.len() - 1 - i2]);
                                    assert(todo_at(s1.todos_map@, p as int).children@[c@.len() - 1
                                        - i2] != todo_at(s1.todos_map@, p as int).children@[c@.len()
                                        - 1 - i1]);
                                }
                            }
                        }
                        let slot = &mut self.slot_map_store.todos_map[p];
                        match slot {
                            Some(it) => {
                                it.children = nc;
                            },
                            None => {},
                        }
                        proof {
                            lemma_todo_container_set(
                                s1,
                                self.slot_map_store,
                                p as int,
                                self.slot_tree_state.ws_opened@,
                            );
                        }
                    },
                    None => {
                        let w = match self.slot_tree_state.selected_workspace {
                            Some(w) => w,
                            None => 0,
                        };
                        let c = {
                            let slot = &self.slot_map_store.workspaces_map[w];
                            let it = slot.as_ref().unwrap();
                            copy_keys(&it.todos)
                        };
                        proof {
                            assert forall|q: int| 0 <= q < c@.len() implies todo_live(
                                s1.todos_map@,
                                #[trigger] c@[q] as int,
                            ) by {
                                assert(todo_live(
                                    s1.todos_map@,
                                    ws_at(s1.workspaces_map@, w as int).todos@[q] as int,
                                ));
                            }
                            assert forall|i1: int, i2: int|
                                0 <= i1 < i2 < c@.len() implies #[trigger] c@[i1]
                                != #[trigger] c@[i2] by {
                                assert(ws_at(s1.workspaces_map@, w as int).todos@[i1] != ws_at(
                                    s1.workspaces_map@,
                                    w as int,
                                ).todos@[i2]);
                            }
                        }
                        let nc = if n == '1' {
                            reverse_keys(&c)
                        } else {
                            let mut v = copy_keys(&c);
                            self.sort_todos(&mut v, n);
                            v
                        };
                        proof {
                            if n != '1' {
                                lemma_spec_sort_ensures(s1.todos_map@, key_of_char(n), c@);
                                lemma_no_dup_from_multiset(c@, nc@);
                                broadcast use vstd::seq_lib::group_to_multiset_ensures;

                                assert forall|q: int| 0 <= q < nc@.len() implies c@.contains(
                                    #[trigger] nc@[q],
                                ) by {
                                    assert(nc@.to_multiset().contains(nc@[q]));
                                }
                            } else {
                                assert forall|q: int| 0 <= q < nc@.len() implies c@.contains(
                                    #[trigger] nc@[q],
                                ) by {
                                    assert(nc@[q] == c@[c@.len() - 1 - q]);
                                }
                                assert forall|i1: int, i2: int|
                                    0 <= i1 < i2 < nc@.len() implies #[trigger] nc@[i1]
                                    != #[trigger] nc@[i2] by {
                                    assert(nc@[i1] == c@[c@.len() - 1 - i1]);
                                    assert(nc@[i2] == c@[c@.len() - 1 - i2]);
                                    assert(ws_at(s1.workspaces_map@, w as int).todos@[c@.len() - 1
                                        - i2] != ws_at(s1.workspaces_map@, w as int).todos@[c@.len()
                                        - 1 - i1]);
                                }
                            }
                        }
                        let slot = &mut self.slot_map_store.workspaces_map[w];
                        match slot {
                            Some(it) => {
                                it.todos = nc;
                            },
                            None => {},
                        }
                        proof {
                            lemma_ws_todos_container_set(
                                s1,
                                self.slot_map_store,
                                w as int,
                                self.slot_tree_state.ws_opened@,
                            );
                        }
                    },
                }
                self.slot_tree_state.update_workspace_tree_state(&self.slot_map_store);
            },
        }
    }
}

/// What a resolved todo sort does to the armed row's container: reversed
/// for 1, stable-sorted by the named key otherwise; nothing moves when the
/// armed handle is on no row.
pub open spec fn sort_choice_todo_rel(a: App, b: App, n: char) -> bool {
    let k = a.sorting->Todo_0;
    let rows = a.slot_tree_state.todo_tree@;
    if !row_keys(rows).contains(k) {
        &&& b.slot_map_store == a.slot_map_store
        &&& b.slot_tree_state.ws_tree@ == a.slot_tree_state.ws_tree@
        &&& b.slot_tree_state.todo_tree@ == a.slot_tree_state.todo_tree@
        &&& pane_frame(a, b)
        &&& b.slot_tree_state.selected_todo == a.slot_tree_state.selected_todo
    } else {
        let j = first_index(row_keys(rows), k);
        let tm1 = a.slot_map_store.todos_map@;
        &&& pane_frame(a, b)
        &&& b.slot_tree_state.selected_todo == a.slot_tree_state.selected_todo
        &&& match rows[j].parent {
            Some(p) => {
                let c1 = todo_at(tm1, p as int).children@;
                &&& b.slot_map_store.workspaces_map == a.slot_map_store.workspaces_map
                &&& b.slot_map_store.root_workspaces == a.slot_map_store.root_workspaces
                &&& todo_at(b.slot_map_store.todos_map@, p as int).children@ == (if n == '1' {
                    c1.reverse()
                } else {
                    spec_sort(tm1, key_of_char(n), c1)
                })
                &&& forall|q: int|
                    0 <= q < tm1.len() && q != p ==> b.slot_map_store.todos_map@[q]
                        == #[trigger] tm1[q]
            },
            None => {
                let w = a.slot_tree_state.selected_workspace->Some_0;
                let c1 = ws_at(a.slot_map_store.workspaces_map@, w as int).todos@;
                &&& b.slot_map_store.todos_map == a.slot_map_store.todos_map
                &&& b.slot_map_store.root_workspaces == a.slot_map_store.root_workspaces
                &&& ws_at(b.slot_map_store.workspaces_map@, w as int).todos@ == (if n == '1' {
                    c1.reverse()
                } else {
                    spec_sort(tm1, key_of_char(n), c1)
                })
                &&& forall|q: int|
                    0 <= q < a.slot_map_store.workspaces_map@.len() && q != w
                        ==> b.slot_map_store.workspaces_map@[q]
                        == #[trigger] a.slot_map_store.workspaces_map@[q]
            },
        }
    }
}

impl App {
    /// Swap the selected todo with the sibling before it in its own
    /// container; at the top of the container — or with no selection on a
    /// visible row — nothing moves.
    pub fn swap_todo_up(&mut self)
        requires
            old(self).wf(),
            old(self).active_screen == Screen::Todos,
            old(self).sorting == SortingItem::Idle,
        ensures
            final(self).wf(),
            swap_todo_rel(*old(self), *final(self), true),
    {
        self.swap_todo(true);
    }

    /// Swap the selected todo with the sibling after it; at the bottom of
    /// the container — or with no selection on a visible row — nothing
    /// moves.
    pub fn swap_todo_down(&mut self)
        requires
            old(self).wf(),
            old(self).active_screen == Screen::Todos,
            old(self).sorting == SortingItem::Idle,
        ensures
            final(self).wf(),
            swap_todo_rel(*old(self), *final(self), false),
    {
        self.swap_todo(false);
    }

    /// The shared walk of both swaps.
    fn swap_todo(&mut self, up: bool)
        requires
            old(self).wf(),
            old(self).active_screen == Screen::Todos,
            old(self).sorting == SortingItem::Idle,
        ensures
            final(self).wf(),
            swap_todo_rel(*old(self), *final(self), up),
    {
        let sel = self.slot_tree_state.selected_todo;
        let t = match sel {
            Some(t) => t,
            None => {
                return ;
            },
        };
        let ix = find_row(&self.slot_tree_state.todo_tree, t);
        let j = match ix {
            Some(j) => j,
            None => {
                return ;
            },
        };
        proof {
            lemma_first_index_agrees(self.slot_tree_state.todo_tree@, t, j as int);
            match self.slot_tree_state.selected_workspace {
                Some(w) => {
                    lemma_todo_rows_row_source(
                        self.slot_map_store,
                        self.slot_tree_state.todo_opened@,
                        ws_at(self.slot_map_store.workspaces_map@, w as int).todos@,
                        j as int,
                    );
                },
                None => {},
            }
        }
        let par = self.slot_tree_state.todo_tree[j].parent;
        let ghost s1 = self.slot_map_store;
        match par {
            Some(p) => {
                let (pos, mut nc) = {
                    let slot = &self.slot_map_store.todos_map[p];
                    let it = slot.as_ref().unwrap();
                    let q = match position_usize(&it.children, t) {
                        Some(q) => q,
                        None => 0,
                    };
                    (q, copy_keys(&it.children))
                };
                proof {
                    lemma_first_index_usize(
                        todo_at(s1.todos_map@, p as int).children@,
                        t,
                        pos as int,
                    );
                }
                let ln = nc.len();
                let other = if up {
                    if pos == 0 {
                        return ;
                    }
                    pos - 1
                } else {
                    if pos >= ln - 1 {
                        return ;
                    }
                    pos + 1
                };
                let a = nc[pos];
                let b = nc[other];
                nc[pos] = b;
                nc[other] = a;
                proof {
                    let c1 = todo_at(s1.todos_map@, p as int).children@;
                    assert forall|q: int| 0 <= q < nc@.len() implies c1.contains(
                        #[trigger] nc@[q],
                    ) by {
                        if q == pos {
                            assert(nc@[q] == c1[other as int]);
                        } else if q == other {
                            assert(nc@[q] == c1[pos as int]);
                        } else {
                            assert(nc@[q] == c1[q]);
                        }
                    }
                    assert forall|i1: int, i2: int|
                        0 <= i1 < i2 < nc@.len() implies #[trigger] nc@[i1]
                        != #[trigger] nc@[i2] by {
                        let m1 = if i1 == pos {
                            other as int
                        } else if i1 == other {
                            pos as int
                        } else {
                            i1
                        };
                        let m2 = if i2 == pos {
                            other as int
                        } else if i2 == other {
                            pos as int
                        } else {
                            i2
                        };
                        assert(nc@[i1] == c1[m1]);
                        assert(nc@[i2] == c1[m2]);
                        if m1 < m2 {
                            assert(todo_at(s1.todos_map@, p as int).children@[m1] != todo_at(
                                s1.todos_map@,
                                p as int,
                            ).children@[m2]);
                        } else {
                            assert(todo_at(s1.todos_map@, p as int).children@[m2] != todo_at(
                                s1.todos_map@,
                                p as int,
                            ).children@[m1]);
                        }
                    }
                }
                let slot = &mut self.slot_map_store.todos_map[p];
                match slot {
                    Some(it) => {
                        it.children = nc;
                    },
                    None => {},
                }
                proof {
                    lemma_todo_container_set(
                        s1,
                        self.slot_map_store,
                        p as int,
                        self.slot_tree_state.ws_opened@,
                    );
                }
            },
            None => {
                let w = match self.slot_tree_state.selected_workspace {
                    Some(w) => w,
                    None => 0,
                };
                let (pos, mut nc) = {
                    let slot = &self.slot_map_store.workspaces_map[w];
                    let it = slot.as_ref().unwrap();
                    let q = match position_usize(&it.todos, t) {
                        Some(q) => q,
                        None => 0,
                    };
                    (q, copy_keys(&it.todos))
                };
                proof {
                    lemma_first_index_usize(
                        ws_at(s1.workspaces_map@, w as int).todos@,
                        t,
                        pos as int,
                    );
                }
                let ln = nc.len();
                let other = if up {
                    if pos == 0 {
                        return ;
                    }
                    pos - 1
                } else {
                    if pos >= ln - 1 {
                        return ;
                    }
                    pos + 1
                };
                let a = nc[pos];
                let b = nc[other];
                nc[pos] = b;
                nc[other] = a;
                proof {
                    let c1 = ws_at(s1.workspaces_map@, w as int).todos@;
                    assert forall|q: int| 0 <= q < nc@.len() implies c1.contains(
                        #[trigger] nc@[q],
                    ) by {
                        if q == pos {
                            assert(nc@[q] == c1[other as int]);
                        } else if q == other {
                            assert(nc@[q] == c1[pos as int]);
                        } else {
                            assert(nc@[q] == c1[q]);
                        }
                    }
                    assert forall|i1: int, i2: int|
                        0 <= i1 < i2 < nc@.len() implies #[trigger] nc@[i1]
                        != #[trigger] nc@[i2] by {
                        let m1 = if i1 == pos {
                            other as int
                        } else if i1 == other {
                            pos as int
                        } else {
                            i1
                        };
                        let m2 = if i2 == pos {
                            other as int
                        } else if i2 == other {
                            pos as int
                        } else {
                            i2
                        };
                        assert(nc@[i1] == c1[m1]);
                        assert(nc@[i2] == c1[m2]);
                        if m1 < m2 {
                            assert(ws_at(s1.workspaces_map@, w as int).todos@[m1] != ws_at(
                                s1.workspaces_map@,
                                w as int,
                            ).todos@[m2]);
                        } else {
                            assert(ws_at(s1.workspaces_map@, w as int).todos@[m2] != ws_at(
                                s1.workspaces_map@,
                                w as int,
                            ).todos@[m1]);
                        }
                    }
                }
                let slot = &mut self.slot_map_store.workspaces_map[w];
                match slot {
                    Some(it) => {
                        it.todos = nc;
                    },
                    None => {},
                }
                proof {
                    lemma_ws_todos_container_set(
                        s1,
                        self.slot_map_store,
                        w as int,
                        self.slot_tree_state.ws_opened@,
                    );
                }
            },
        }
        self.slot_tree_state.update_workspace_tree_state(&self.slot_map_store);
    }
}

/// What a sibling swap does: the selection and its neighbour — above for
/// `up`, below otherwise — change places in their container; at a container
/// boundary, off a visible row, or with no selection, nothing changes.
pub open spec fn swap_todo_rel(a: App, b: App, up: bool) -> bool {
    match a.slot_tree_state.selected_todo {
        None => b == a,
        Some(t) => {
            let rows = a.slot_tree_state.todo_tree@;
            if !row_keys(rows).contains(t) {
                b == a
            } else {
                let j = first_index(row_keys(rows), t);
                let tm1 = a.slot_map_store.todos_map@;
                match rows[j].parent {
                    Some(p) => {
                        let c1 = todo_at(tm1, p as int).children@;
                        let pos = first_index(c1, t);
                        if (up && pos == 0) || (!up && pos + 1 >= c1.len()) {
                            b == a
                        } else {
                            let other = if up {
                                pos - 1
                            } else {
                                pos + 1
                            };
                            &&& b.slot_map_store.workspaces_map == a.slot_map_store.workspaces_map
                            &&& b.slot_map_store.root_workspaces
                                == a.slot_map_store.root_workspaces
                            &&& todo_at(b.slot_map_store.todos_map@, p as int).children@
                                == c1.update(pos, c1[other]).update(other, c1[pos])
                            &&& forall|q: int|
                                0 <= q < tm1.len() && q != p ==> b.slot_map_store.todos_map@[q]
                                    == #[trigger] tm1[q]
                            &&& pane_frame(a, b)
                            &&& b.sorting == a.sorting
                            &&& b.slot_tree_state.selected_todo == a.slot_tree_state.selected_todo
                        }
                    },
                    None => {
                        let w = a.slot_tree_state.selected_workspace->Some_0;
                        let c1 = ws_at(a.slot_map_store.workspaces_map@, w as int).todos@;
                        let pos = first_index(c1, t);
                        if (up && pos == 0) || (!up && pos + 1 >= c1.len()) {
                            b == a
                        } else {
                            let other = if up {
                                pos - 1
                            } else {
                                pos + 1
                            };
                            &&& b.slot_map_store.todos_map == a.slot_map_store.todos_map
                            &&& b.slot_map_store.root_workspaces
                                == a.slot_map_store.root_workspaces
                            &&& ws_at(b.slot_map_store.workspaces_map@, w as int).todos@
                                == c1.update(pos, c1[other]).update(other, c1[pos])
                            &&& forall|q: int|
                                0 <= q < a.slot_map_store.workspaces_map@.len() && q != w
                                    ==> b.slot_map_store.workspaces_map@[q]
                                    == #[trigger] a.slot_map_store.workspaces_map@[q]
                            &&& pane_frame(a, b)
                            &&& b.sorting == a.sorting
                            &&& b.slot_tree_state.selected_todo == a.slot_tree_state.selected_todo
                        }
                    },
                }
            }
        },
    }
}

impl App {
    /// The number of slots the subtree under `k` occupies, unless it cannot
    /// be counted in a machine word.
    fn subtree_size(&self, k: usize, Ghost(fuel): Ghost<nat>) -> (r: Option<usize>)
        requires
            todo_bounded(self.slot_map_store.todos_map@, k as int, fuel),
        ensures
            match r {
                Some(n) => n == todo_size(self.slot_map_store.todos_map@, k as int, fuel),
                None => todo_size(self.slot_map_store.todos_map@, k as int, fuel) > usize::MAX,
            },
        decreases fuel,
    {
        let ghost tm = self.slot_map_store.todos_map@;
        let kids = {
            let slot = &self.slot_map_store.todos_map[k];
            copy_keys(&slot.as_ref().unwrap().children)
        };
        let mut total: usize = 1;
        let mut i: usize = 0;
        proof {
            assert(kids@.take(0) =~= Seq::<usize>::empty());
            assert(kids@.skip(0) =~= kids@);
            assert(todo_size_list(tm, kids@.take(0), (fuel - 1) as nat) == 0);
        }
        while i < kids.len()
            invariant
                todo_bounded(tm, k as int, fuel),
                self.slot_map_store.todos_map@ == tm,
                kids@ == todo_at(tm, k as int).children@,
                i <= kids@.len(),
                total == 1 + todo_size_list(tm, kids@.take(i as int), (fuel - 1) as nat),
                todo_size_list(tm, kids@.take(i as int), (fuel - 1) as nat) + todo_size_list(
                    tm,
                    kids@.skip(i as int),
                    (fuel - 1) as nat,
                ) == todo_size_list(tm, kids@, (fuel - 1) as nat),
            decreases kids@.len() - i,
        {
            proof {
                assert(todo_bounded(tm, kids@[i as int] as int, (fuel - 1) as nat));
                assert(kids@.skip(i as int)[0] == kids@[i as int]);
                assert(kids@.skip(i as int).drop_first() =~= kids@.skip(i as int + 1));
                assert(todo_size_list(tm, kids@.skip(i as int), (fuel - 1) as nat) == todo_size(
                    tm,
                    kids@[i as int] as int,
                    (fuel - 1) as nat,
                ) + todo_size_list(tm, kids@.skip(i as int + 1), (fuel - 1) as nat));
            }
            let sub = self.subtree_size(kids[i], Ghost((fuel - 1) as nat));
            proof {
                lemma_todo_size_list_snoc(tm, kids@.take(i as int), kids@[i as int], (fuel - 1) as nat);
                assert(kids@.take(i as int).push(kids@[i as int]) =~= kids@.take(i as int + 1));
            }
            match sub {
                None => {
                    return None;
                },
                Some(n) => {
                    match total.checked_add(n) {
                        None => {
                            return None;
                        },
                        Some(t) => {
                            total = t;
                        },
                    }
                },
            }
            i += 1;
        }
        proof {
            assert(kids@.take(i as int) =~= kids@);
        }
        Some(total)
    }

    /// Paste the whole clipboard right after the selection in its own
    /// container — or at the end of the selected workspace's list with no
    /// visible selection — cloning every entry afresh, in clipboard order,
    /// with ids drawn from the pool; repeated pastes of one snapshot stay
    /// independent. The todo multi-selection clears. With an empty clipboard,
    /// or nowhere to paste, nothing happens.
    pub fn paste_multi_selected_todos_at_cursor(&mut self, ids: Vec<String>)
        requires
            old(self).wf(),
            old(self).active_screen == Screen::Todos,
            old(self).sorting == SortingItem::Idle,
            old(self).new_editing_id is None,
            ids@.len() >= todo_size_list(
                old(self).slot_map_store.todos_map@,
                old(self).clipboard_todos@,
                old(self).slot_map_store.tfuel(),
            ),
        ensures
            final(self).wf(),
            old(self).clipboard_todos@.len() == 0 ==> *final(self) == *old(self),
            final(self).clipboard_todos == old(self).clipboard_todos,
            old(self).clipboard_todos@.len() > 0 ==> paste_cursor_rel(
                *old(self),
                *final(self),
                ids@,
            ),
    {
        if self.clipboard_todos.len() == 0 {
            return ;
        }
        let sel = self.slot_tree_state.selected_todo;
        let ix = match sel {
            Some(t) => find_row(&self.slot_tree_state.todo_tree, t),
            None => None,
        };
        let has_ws = match self.slot_tree_state.selected_workspace {
            Some(w) => true,
            None => false,
        };
        proof {
            match (sel, ix) {
                (Some(t), Some(j)) => {
                    assert(row_keys(self.slot_tree_state.todo_tree@)[j as int] == t);
                },
                _ => {},
            }
        }
        let in_tree = match ix {
            Some(j) => true,
            None => false,
        };
        if !in_tree && !has_ws {
            return ;
        }
        let ghost s1 = self.slot_map_store;
        let ghost tf = s1.tfuel();
        let ghost clip = self.clipboard_todos@;
        let mut pool = ids;
        let mut roots: Vec<usize> = Vec::new();
        let mut i: usize = 0;
        proof {
            assert(clip.take(0) =~= Seq::<usize>::empty());
            assert(clip.skip(0) =~= clip);
            assert(todo_size_list(s1.todos_map@, clip.take(0), tf) == 0);
            assert(pool@ =~= pool@.take(pool@.len() as int));
        }
        while i < self.clipboard_todos.len()
            invariant
                old(self).wf(),
                s1 == old(self).slot_map_store,
                tf == s1.tfuel(),
                clip == self.clipboard_todos@,
                self.clipboard_todos == old(self).clipboard_todos,
                self.clipboard_workspaces == old(self).clipboard_workspaces,
                self.slot_tree_state == old(self).slot_tree_state,
                self.slot_map_store.workspaces_map == s1.workspaces_map,
                self.slot_map_store.root_workspaces == s1.root_workspaces,
                self.running == old(self).running,
                self.input == old(self).input,
                self.new_editing_id == old(self).new_editing_id,
                self.active_screen == old(self).active_screen,
                self.sorting == old(self).sorting,
                self.search_mode == old(self).search_mode,
                self.search_str == old(self).search_str,
                self.search_matches == old(self).search_matches,
                self.current_match_index == old(self).current_match_index,
                i <= clip.len(),
                roots@.len() == i,
                crate::arena::arena_extends(s1.todos_map@, self.slot_map_store.todos_map@),
                self.slot_map_store.todos_map@.len() == s1.todos_map@.len() + todo_size_list(
                    s1.todos_map@,
                    clip.take(i as int),
                    tf,
                ),
                pool@ == ids@.take(
                    ids@.len() - todo_size_list(s1.todos_map@, clip.take(i as int), tf),
                ),
                ids@.len() >= todo_size_list(s1.todos_map@, clip, tf),
                todo_size_list(s1.todos_map@, clip.take(i as int), tf) + todo_size_list(
                    s1.todos_map@,
                    clip.skip(i as int),
                    tf,
                ) == todo_size_list(s1.todos_map@, clip, tf),
                crate::arena::todo_region_wf(
                    self.slot_map_store.todos_map@,
                    s1.todos_map@.len() as int,
                    self.slot_map_store.todos_map@.len() as int,
                ),
                forall|j: int|
                    s1.todos_map@.len() <= j < self.slot_map_store.todos_map@.len()
                        ==> #[trigger] todo_bounded(
                        self.slot_map_store.todos_map@,
                        j,
                        (self.slot_map_store.todos_map@.len() + 1) as nat,
                    ),
                forall|j: int|
                    0 <= j < i ==> #[trigger] roots@[j] as int == s1.todos_map@.len()
                        + todo_size_list(s1.todos_map@, clip.take(j + 1), tf) - 1,
                forall|j: int|
                    0 <= j < i ==> s1.todos_map@.len() <= #[trigger] roots@[j]
                        < self.slot_map_store.todos_map@.len(),
                forall|j1: int, j2: int|
                    0 <= j1 < j2 < i ==> #[trigger] roots@[j1] < #[trigger] roots@[j2],
                forall|j: int|
                    0 <= j < i ==> crate::arena::todo_unreferenced_in(
                        self.slot_map_store.todos_map@,
                        #[trigger] roots@[j],
                        s1.todos_map@.len() as int,
                        self.slot_map_store.todos_map@.len() as int,
                    ),
                forall|j: int|
                    0 <= j < i ==> todo_bounded(
                        self.slot_map_store.todos_map@,
                        #[trigger] roots@[j] as int,
                        todo_size(s1.todos_map@, clip[j] as int, tf),
                    ),
                forall|j: int|
                    0 <= j < i ==> strip_ids(
                        todo_v(
                            self.slot_map_store.todos_map@,
                            #[trigger] roots@[j] as int,
                            todo_size(s1.todos_map@, clip[j] as int, tf),
                        ),
                    ) == strip_ids(todo_v(s1.todos_map@, clip[j] as int, tf)),
                forall|j: int|
                    0 <= j < i ==> todo_ids(
                        todo_v(
                            self.slot_map_store.todos_map@,
                            #[trigger] roots@[j] as int,
                            todo_size(s1.todos_map@, clip[j] as int, tf),
                        ),
                    ).subset_of(id_views(ids@)),
            decreases clip.len() - i,
        {
            let ghost tm_pre = self.slot_map_store.todos_map@;
            let ghost pool_pre = pool@;
            let entry = self.clipboard_todos[i];
            proof {
                assert(todo_live(s1.todos_map@, clip[i as int] as int));
                assert(todo_bounded(s1.todos_map@, clip[i as int] as int, tf));
                lemma_todo_v_extend(s1.todos_map@, tm_pre, clip[i as int] as int, tf);
                lemma_todo_size_stable(s1.todos_map@, tm_pre, clip[i as int] as int, tf);
                assert(clip.skip(i as int)[0] == clip[i as int]);
                assert(clip.skip(i as int).drop_first() =~= clip.skip(i as int + 1));
                assert(todo_size_list(s1.todos_map@, clip.skip(i as int), tf) == todo_size(
                    s1.todos_map@,
                    clip[i as int] as int,
                    tf,
                ) + todo_size_list(s1.todos_map@, clip.skip(i as int + 1), tf));
            }
            let ck = clone_todo(&mut self.slot_map_store.todos_map, entry, &mut pool, Ghost(tf));
            proof {
                let tm = self.slot_map_store.todos_map@;
                let a = s1.todos_map@.len() as int;
                let sz = todo_size(s1.todos_map@, clip[i as int] as int, tf);
                assert forall|j: int| 0 <= j < tm_pre.len() implies tm[j] == tm_pre[j] by {}
                assert forall|j: int| 0 <= j < i implies todo_bounded(
                    tm,
                    #[trigger] roots@[j] as int,
                    todo_size(s1.todos_map@, clip[j] as int, tf),
                ) && strip_ids(
                    todo_v(tm, roots@[j] as int, todo_size(s1.todos_map@, clip[j] as int, tf)),
                ) == strip_ids(todo_v(s1.todos_map@, clip[j] as int, tf)) && todo_ids(
                    todo_v(tm, roots@[j] as int, todo_size(s1.todos_map@, clip[j] as int, tf)),
                ).subset_of(id_views(ids@)) by {
                    lemma_todo_v_extend(
                        tm_pre,
                        tm,
                        roots@[j] as int,
                        todo_size(s1.todos_map@, clip[j] as int, tf),
                    );
                }
                assert forall|j: int| a <= j < tm.len() implies #[trigger] todo_bounded(
                    tm,
                    j,
                    (tm.len() + 1) as nat,
                ) by {
                    if j < tm_pre.len() {
                        lemma_todo_v_extend(tm_pre, tm, j, (tm_pre.len() + 1) as nat);
                        lemma_todo_v_fuel(tm, j, (tm_pre.len() + 1) as nat, (tm.len() + 1) as nat);
                    }
                }
                assert forall|j: int| 0 <= j < i implies crate::arena::todo_unreferenced_in(
                    tm,
                    #[trigger] roots@[j],
                    a,
                    tm.len() as int,
                ) by {
                    let r = roots@[j];
                    assert(crate::arena::todo_unreferenced_in(tm_pre, r, a, tm_pre.len() as int));
                    assert forall|j2: int, i2: int|
                        a <= j2 < tm.len() && 0 <= i2 < todo_at(tm, j2).children@.len()
                        implies #[trigger] todo_at(tm, j2).children@[i2] != r by {
                        if j2 < tm_pre.len() {
                            assert(tm[j2] == tm_pre[j2]);
                            assert(todo_at(tm_pre, j2).children@[i2] != r);
                        } else {
                            assert(crate::arena::handles_in(
                                todo_at(tm, j2).children@,
                                tm_pre.len() as int,
                                j2,
                            ));
                            assert(todo_at(tm, j2).children@[i2] >= tm_pre.len());
                            assert(r < tm_pre.len());
                        }
                    }
                }
                crate::arena::lemma_todo_region_stable(tm_pre, tm, a, tm_pre.len() as int);
                crate::arena::lemma_todo_region_compose(
                    tm,
                    a,
                    tm_pre.len() as int,
                    tm.len() as int,
                );
                lemma_todo_size_list_snoc(s1.todos_map@, clip.take(i as int), clip[i as int], tf);
                assert(clip.take(i as int).push(clip[i as int]) =~= clip.take(i as int + 1));
                assert(pool@ =~= ids@.take(
                    ids@.len() - todo_size_list(s1.todos_map@, clip.take(i as int + 1), tf),
                ));
                assert(id_views(pool_pre).subset_of(id_views(ids@))) by {
                    assert forall|v: Seq<char>| id_views(pool_pre).contains(v) implies id_views(
                        ids@,
                    ).contains(v) by {
                        let w2 = choose|w2: int| 0 <= w2 < pool_pre.len() && pool_pre[w2]@ == v;
                        assert(ids@[w2]@ == v);
                    }
                }
            }
            roots.push(ck);
            i += 1;
        }
        proof {
            assert(clip.take(i as int) =~= clip);
            assert(roots@ =~= paste_roots(s1.todos_map@, clip, tf));
            assert(todo_size_list(s1.todos_map@, clip, tf) > 0) by {
                assert(todo_live(s1.todos_map@, clip[0] as int));
                assert(todo_bounded(s1.todos_map@, clip[0] as int, tf));
                assert(todo_size(s1.todos_map@, clip[0] as int, tf) >= 1);
            }
        }
        let ghost s_mid = self.slot_map_store;
        let ghost a0 = s1.todos_map@.len() as int;
        let ghost b0 = s_mid.todos_map@.len() as int;
        proof {
            assert forall|j: int| 0 <= j < roots@.len() implies todo_bounded(
                s_mid.todos_map@,
                #[trigger] roots@[j] as int,
                (b0 - a0) as nat,
            ) by {
                lemma_todo_size_list_split(s1.todos_map@, clip, j, tf);
                assert(clip.skip(j)[0] == clip[j]);
                assert(clip.skip(j).drop_first() =~= clip.skip(j + 1));
                assert(todo_size_list(s1.todos_map@, clip.skip(j), tf) == todo_size(
                    s1.todos_map@,
                    clip[j] as int,
                    tf,
                ) + todo_size_list(s1.todos_map@, clip.skip(j + 1), tf));
                lemma_todo_v_fuel(
                    s_mid.todos_map@,
                    roots@[j] as int,
                    todo_size(s1.todos_map@, clip[j] as int, tf),
                    (b0 - a0) as nat,
                );
            }
        }
        match ix {
            Some(jr) => {
                let t = match sel {
                    Some(t) => t,
                    None => 0,
                };
                proof {
                    lemma_first_index_agrees(self.slot_tree_state.todo_tree@, t, jr as int);
                    match self.slot_tree_state.selected_workspace {
                        Some(w) => {
                            lemma_todo_rows_row_source(
                                s1,
                                self.slot_tree_state.todo_opened@,
                                ws_at(s1.workspaces_map@, w as int).todos@,
                                jr as int,
                            );
                        },
                        None => {},
                    }
                }
                let par = self.slot_tree_state.todo_tree[jr].parent;
                match par {
                    Some(p) => {
                        let (pos, oldc) = {
                            let slot = &self.slot_map_store.todos_map[p];
                            let it = slot.as_ref().unwrap();
                            let q = match position_usize(&it.children, t) {
                                Some(q) => q,
                                None => 0,
                            };
                            (q, copy_keys(&it.children))
                        };
                        proof {
                            lemma_first_index_usize(
                                todo_at(s1.todos_map@, p as int).children@,
                                t,
                                pos as int,
                            );
                        }
                        let cl = oldc.len();
                        proof {
                            assert(pos < cl);
                        }
                        let nc = splice_keys(&oldc, pos + 1, &roots);
                        let slot = &mut self.slot_map_store.todos_map[p];
                        match slot {
                            Some(it) => {
                                it.children = nc;
                            },
                            None => {},
                        }
                        proof {
                            let tm2 = self.slot_map_store.todos_map@;
                            crate::arena::lemma_todo_region_stable(s_mid.todos_map@, tm2, a0, b0);
                            assert forall|j: int| a0 <= j < b0 implies #[trigger] todo_bounded(
                                tm2,
                                j,
                                (b0 + 1) as nat,
                            ) by {
                                lemma_todo_bounded_region(
                                    s_mid.todos_map@,
                                    tm2,
                                    a0,
                                    b0,
                                    j,
                                    (b0 + 1) as nat,
                                );
                            }
                            assert forall|j: int| 0 <= j < roots@.len() implies todo_bounded(
                                tm2,
                                #[trigger] roots@[j] as int,
                                (b0 - a0) as nat,
                            ) by {
                                lemma_todo_bounded_region(
                                    s_mid.todos_map@,
                                    tm2,
                                    a0,
                                    b0,
                                    roots@[j] as int,
                                    (b0 - a0) as nat,
                                );
                            }
                            assert forall|j: int, j2: int, i2: int|
                                0 <= j < roots@.len() && a0 <= j2 < b0 && 0 <= i2 < todo_at(
                                    tm2,
                                    j2,
                                ).children@.len() implies #[trigger] todo_at(
                                tm2,
                                j2,
                            ).children@[i2] != #[trigger] roots@[j] by {
                                assert(crate::arena::todo_unreferenced_in(
                                    s_mid.todos_map@,
                                    roots@[j],
                                    a0,
                                    b0,
                                ));
                                assert(tm2[j2] == s_mid.todos_map@[j2]);
                                assert(todo_at(s_mid.todos_map@, j2).children@[i2] != roots@[j]);
                            }
                            assert(attach_todos_shape(
                                s1,
                                self.slot_map_store,
                                Some(p),
                                0,
                                pos as int + 1,
                                roots@,
                            ));
                            lemma_todos_attach(
                                s1,
                                self.slot_map_store,
                                Some(p),
                                0,
                                pos as int + 1,
                                roots@,
                                self.slot_tree_state.ws_opened@,
                            );
                            assert forall|j: int| 0 <= j < clip.len() implies todo_bounded(
                                tm2,
                                #[trigger] roots@[j] as int,
                                todo_size(s1.todos_map@, clip[j] as int, tf),
                            ) && strip_ids(
                                todo_v(
                                    tm2,
                                    roots@[j] as int,
                                    todo_size(s1.todos_map@, clip[j] as int, tf),
                                ),
                            ) == strip_ids(todo_v(s1.todos_map@, clip[j] as int, tf)) && todo_ids(
                                todo_v(
                                    tm2,
                                    roots@[j] as int,
                                    todo_size(s1.todos_map@, clip[j] as int, tf),
                                ),
                            ).subset_of(id_views(ids@)) by {
                                lemma_todo_v_region_model(
                                    s_mid.todos_map@,
                                    tm2,
                                    a0,
                                    b0,
                                    roots@[j] as int,
                                    todo_size(s1.todos_map@, clip[j] as int, tf),
                                );
                            }
                        }
                    },
                    None => {
                        let w = match self.slot_tree_state.selected_workspace {
                            Some(w) => w,
                            None => 0,
                        };
                        let (pos, oldc) = {
                            let slot = &self.slot_map_store.workspaces_map[w];
                            let it = slot.as_ref().unwrap();
                            let q = match position_usize(&it.todos, t) {
                                Some(q) => q,
                                None => 0,
                            };
                            (q, copy_keys(&it.todos))
                        };
                        proof {
                            lemma_first_index_usize(
                                ws_at(s1.workspaces_map@, w as int).todos@,
                                t,
                                pos as int,
                            );
                        }
                        let cl = oldc.len();
                        proof {
                            assert(pos < cl);
                        }
                        let nc = splice_keys(&oldc, pos + 1, &roots);
                        let slot = &mut self.slot_map_store.workspaces_map[w];
                        match slot {
                            Some(it) => {
                                it.todos = nc;
                            },
                            None => {},
                        }
                        proof {
                            assert(attach_todos_shape(
                                s1,
                                self.slot_map_store,
                                None,
                                w,
                                pos as int + 1,
                                roots@,
                            ));
                            lemma_todos_attach(
                                s1,
                                self.slot_map_store,
                                None,
                                w,
                                pos as int + 1,
                                roots@,
                                self.slot_tree_state.ws_opened@,
                            );
                        }
                    },
                }
            },
            None => {
                let w = match self.slot_tree_state.selected_workspace {
                    Some(w) => w,
                    None => 0,
                };
                let (at, oldc) = {
                    let slot = &self.slot_map_store.workspaces_map[w];
                    let it = slot.as_ref().unwrap();
                    (it.todos.len(), copy_keys(&it.todos))
                };
                let nc = splice_keys(&oldc, at, &roots);
                let slot = &mut self.slot_map_store.workspaces_map[w];
                match slot {
                    Some(it) => {
                        it.todos = nc;
                    },
                    None => {},
                }
                proof {
                    let c1 = ws_at(s1.workspaces_map@, w as int).todos@;
                    assert(c1.take(at as int) =~= c1);
                    assert(c1.skip(at as int) =~= Seq::<usize>::empty());
                    assert(ws_at(self.slot_map_store.workspaces_map@, w as int).todos@ =~= c1
                        + roots@);
                    assert(attach_todos_shape(
                        s1,
                        self.slot_map_store,
                        None,
                        w,
                        at as int,
                        roots@,
                    ));
                    lemma_todos_attach(
                        s1,
                        self.slot_map_store,
                        None,
                        w,
                        at as int,
                        roots@,
                        self.slot_tree_state.ws_opened@,
                    );
                }
            },
        }
        self.slot_tree_state.multi_selected_todos = Vec::new();
        proof {
            assert(self.slot_tree_state.multi_selected_todos@ =~= Seq::<usize>::empty());
        }
        self.slot_tree_state.update_workspace_tree_state(&self.slot_map_store);
    }

}

/// `c` with `roots` spliced in at position `at`.
fn splice_keys(c: &Vec<usize>, at: usize, roots: &Vec<usize>) -> (r: Vec<usize>)
    requires
        at <= c@.len(),
    ensures
        r@ == c@.take(at as int) + roots@ + c@.skip(at as int),
{
    let mut r: Vec<usize> = Vec::new();
    let mut i: usize = 0;
    while i < at
        invariant
            at <= c@.len(),
            i <= at,
            r@ == c@.take(i as int),
        decreases at - i,
    {
        r.push(c[i]);
        proof {
            assert(c@.take(i as int).push(c@[i as int]) =~= c@.take(i as int + 1));
        }
        i += 1;
    }
    let mut q: usize = 0;
    while q < roots.len()
        invariant
            at <= c@.len(),
            q <= roots@.len(),
            r@ == c@.take(at as int) + roots@.take(q as int),
        decreases roots@.len() - q,
    {
        r.push(roots[q]);
        proof {
            assert(roots@.take(q as int).push(roots@[q as int]) =~= roots@.take(q as int + 1));
            assert((c@.take(at as int) + roots@.take(q as int)).push(roots@[q as int])
                =~= c@.take(at as int) + roots@.take(q as int + 1));
        }
        q += 1;
    }
    proof {
        assert(roots@.take(q as int) =~= roots@);
    }
    let mut k2: usize = at;
    while k2 < c.len()
        invariant
            at <= k2 <= c@.len(),
            r@ == c@.take(at as int) + roots@ + c@.skip(at as int).take(k2 - at),
        decreases c@.len() - k2,
    {
        r.push(c[k2]);
        proof {
            assert(c@.skip(at as int).take(k2 - at).push(c@[k2 as int]) =~= c@.skip(
                at as int,
            ).take(k2 - at + 1));
            assert((c@.take(at as int) + roots@ + c@.skip(at as int).take(k2 - at)).push(
                c@[k2 as int],
            ) =~= c@.take(at as int) + roots@ + c@.skip(at as int).take(k2 - at + 1));
        }
        k2 += 1;
    }
    proof {
        assert(c@.skip(at as int).take(k2 - at) =~= c@.skip(at as int));
    }
    r
}

/// The handles the clones of the clipboard entries come to sit at: each
/// entry's fresh region ends with its clone's root.
pub open spec fn paste_roots(tm: Seq<Option<TodoItem>>, clip: Seq<usize>, tf: nat) -> Seq<usize> {
    Seq::new(
        clip.len(),
        |i: int| (tm.len() + todo_size_list(tm, clip.take(i + 1), tf) - 1) as usize,
    )
}

/// What pasting the whole clipboard at the cursor does: one fresh clone per
/// entry, in clipboard order — each matching its source but for ids, which
/// come from the pool — their roots spliced contiguously right after the
/// selection in its own container, or appended to the selected workspace's
/// list with no visible selection; the todo multi-selection clears and
/// nothing else moves. With no visible selection and no selected workspace
/// there is nowhere to paste and nothing happens.
pub open spec fn paste_cursor_rel(a: App, b: App, ids: Seq<String>) -> bool {
    let clip = a.clipboard_todos@;
    let tm1 = a.slot_map_store.todos_map@;
    let tm2 = b.slot_map_store.todos_map@;
    let tf = a.slot_map_store.tfuel();
    let total = todo_size_list(tm1, clip, tf);
    let roots = paste_roots(tm1, clip, tf);
    let rows = a.slot_tree_state.todo_tree@;
    let sel_in_tree = match a.slot_tree_state.selected_todo {
        Some(t) => row_keys(rows).contains(t),
        None => false,
    };
    if !sel_in_tree && a.slot_tree_state.selected_workspace is None {
        b == a
    } else {
        &&& tm2.len() == tm1.len() + total
        &&& b.slot_map_store.root_workspaces == a.slot_map_store.root_workspaces
        &&& forall|i: int|
            0 <= i < clip.len() ==> strip_ids(
                todo_v(tm2, #[trigger] roots[i] as int, todo_size(tm1, clip[i] as int, tf)),
            ) == strip_ids(todo_v(tm1, clip[i] as int, tf))
        &&& forall|i: int|
            0 <= i < clip.len() ==> todo_ids(
                todo_v(tm2, #[trigger] roots[i] as int, todo_size(tm1, clip[i] as int, tf)),
            ).subset_of(id_views(ids))
        &&& forall|i: int|
            0 <= i < clip.len() ==> todo_bounded(
                tm2,
                #[trigger] roots[i] as int,
                todo_size(tm1, clip[i] as int, tf),
            )
        &&& crate::arena::todo_region_wf(tm2, tm1.len() as int, tm2.len() as int)
        &&& if sel_in_tree {
            let t = a.slot_tree_state.selected_todo->Some_0;
            let j = first_index(row_keys(rows), t);
            match rows[j].parent {
                Some(p) => {
                    let c1 = todo_at(tm1, p as int).children@;
                    let at = first_index(c1, t) + 1;
                    &&& b.slot_map_store.workspaces_map == a.slot_map_store.workspaces_map
                    &&& forall|q: int|
                        0 <= q < tm1.len() && q != p ==> tm2[q] == #[trigger] tm1[q]
                    &&& todo_at(tm2, p as int) == (TodoItem {
                        children: todo_at(tm2, p as int).children,
                        ..todo_at(tm1, p as int)
                    })
                    &&& todo_at(tm2, p as int).children@ == c1.take(at) + roots + c1.skip(at)
                },
                None => {
                    let w = a.slot_tree_state.selected_workspace->Some_0;
                    let c1 = ws_at(a.slot_map_store.workspaces_map@, w as int).todos@;
                    let at = first_index(c1, t) + 1;
                    &&& forall|q: int| 0 <= q < tm1.len() ==> tm2[q] == #[trigger] tm1[q]
                    &&& forall|q: int|
                        0 <= q < a.slot_map_store.workspaces_map@.len() && q != w
                            ==> b.slot_map_store.workspaces_map@[q]
                            == #[trigger] a.slot_map_store.workspaces_map@[q]
                    &&& ws_at(b.slot_map_store.workspaces_map@, w as int) == (WorkspaceItem {
                        todos: ws_at(b.slot_map_store.workspaces_map@, w as int).todos,
                        ..ws_at(a.slot_map_store.workspaces_map@, w as int)
                    })
                    &&& ws_at(b.slot_map_store.workspaces_map@, w as int).todos@ == c1.take(at)
                        + roots + c1.skip(at)
                },
            }
        } else {
            let w = a.slot_tree_state.selected_workspace->Some_0;
            let c1 = ws_at(a.slot_map_store.workspaces_map@, w as int).todos@;
            &&& forall|q: int| 0 <= q < tm1.len() ==> tm2[q] == #[trigger] tm1[q]
            &&& forall|q: int|
                0 <= q < a.slot_map_store.workspaces_map@.len() && q != w
                    ==> b.slot_map_store.workspaces_map@[q]
                    == #[trigger] a.slot_map_store.workspaces_map@[q]
            &&& ws_at(b.slot_map_store.workspaces_map@, w as int) == (WorkspaceItem {
                todos: ws_at(b.slot_map_store.workspaces_map@, w as int).todos,
                ..ws_at(a.slot_map_store.workspaces_map@, w as int)
            })
            &&& ws_at(b.slot_map_store.workspaces_map@, w as int).todos@ == c1 + roots
        }
        &&& b.slot_tree_state.multi_selected_todos@ == Seq::<usize>::empty()
        &&& b.slot_tree_state.selected_todo == a.slot_tree_state.selected_todo
        &&& b.slot_tree_state.selected_workspace == a.slot_tree_state.selected_workspace
        &&& b.slot_tree_state.ws_opened == a.slot_tree_state.ws_opened
        &&& b.slot_tree_state.todo_opened == a.slot_tree_state.todo_opened
        &&& b.slot_tree_state.multi_selected_workspaces
            == a.slot_tree_state.multi_selected_workspaces
        &&& unchanged_modes(a, b)
    }
}

/// The clone region facts carried across the one container splice.
pub proof fn paste_attach_facts(s1: SlotMapStore, s_mid: SlotMapStore, s2: SlotMapStore, n: usize)
    requires
        s1.todos_map@.len() < s_mid.todos_map@.len(),
        n as int == s_mid.todos_map@.len() - 1,
        crate::arena::arena_extends(s1.todos_map@, s_mid.todos_map@),
        crate::arena::todo_region_wf(
            s_mid.todos_map@,
            s1.todos_map@.len() as int,
            s_mid.todos_map@.len() as int,
        ),
        crate::arena::todo_unreferenced_in(
            s_mid.todos_map@,
            n,
            s1.todos_map@.len() as int,
            s_mid.todos_map@.len() as int,
        ),
        todo_bounded(
            s_mid.todos_map@,
            n as int,
            (s_mid.todos_map@.len() - s1.todos_map@.len()) as nat,
        ),
        forall|j: int|
            s1.todos_map@.len() <= j < s_mid.todos_map@.len() ==> #[trigger] todo_bounded(
                s_mid.todos_map@,
                j,
                (s_mid.todos_map@.len() + 1) as nat,
            ),
        s2.todos_map@.len() == s_mid.todos_map@.len(),
        forall|j: int|
            s1.todos_map@.len() <= j < s_mid.todos_map@.len() ==> s2.todos_map@[j]
                == #[trigger] s_mid.todos_map@[j],
    ensures
        crate::arena::todo_region_wf(
            s2.todos_map@,
            s1.todos_map@.len() as int,
            s2.todos_map@.len() as int,
        ),
        crate::arena::todo_unreferenced_in(
            s2.todos_map@,
            n,
            s1.todos_map@.len() as int,
            s2.todos_map@.len() as int,
        ),
        todo_bounded(s2.todos_map@, n as int, (s2.todos_map@.len() - s1.todos_map@.len()) as nat),
        forall|j: int|
            s1.todos_map@.len() <= j < s2.todos_map@.len() ==> #[trigger] todo_bounded(
                s2.todos_map@,
                j,
                (s2.todos_map@.len() + 1) as nat,
            ),
{
    let a = s1.todos_map@.len() as int;
    let b = s_mid.todos_map@.len() as int;
    crate::arena::lemma_todo_region_stable(s_mid.todos_map@, s2.todos_map@, a, b);
    lemma_todo_bounded_region(s_mid.todos_map@, s2.todos_map@, a, b, n as int, (b - a) as nat);
    assert forall|j: int| a <= j < b implies #[trigger] todo_bounded(
        s2.todos_map@,
        j,
        (b + 1) as nat,
    ) by {
        lemma_todo_bounded_region(s_mid.todos_map@, s2.todos_map@, a, b, j, (b + 1) as nat);
    }
    assert forall|j2: int, i2: int|
        a <= j2 < b && 0 <= i2 < todo_at(s2.todos_map@, j2).children@.len()
        implies #[trigger] todo_at(s2.todos_map@, j2).children@[i2] != n by {
        assert(s2.todos_map@[j2] == s_mid.todos_map@[j2]);
        assert(todo_at(s_mid.todos_map@, j2).children@[i2] != n);
    }
}

/// Attaching a bounded fresh subtree below one workspace keeps every old
/// tree bounded, at fuel grown by the fresh subtree's.
#[verifier::rlimit(100)]
pub proof fn lemma_ws_bounded_attach(
    wm1: Seq<Option<WorkspaceItem>>,
    wm2: Seq<Option<WorkspaceItem>>,
    p: int,
    pos: int,
    n: usize,
    k: int,
    f: nat,
    g: nat,
)
    requires
        wm1.len() <= wm2.len(),
        forall|j: int| 0 <= j < wm1.len() && j != p ==> wm2[j] == #[trigger] wm1[j],
        ws_live(wm1, p),
        ws_live(wm2, p),
        0 <= pos <= ws_at(wm1, p).children@.len(),
        ws_at(wm2, p).children@ == ws_at(wm1, p).children@.insert(pos, n),
        ws_bounded(wm2, n as int, g),
        ws_bounded(wm1, k, f),
    ensures
        ws_bounded(wm2, k, (f + g) as nat),
    decreases f,
{
    let c1 = ws_at(wm1, k).children@;
    let c2 = ws_at(wm2, k).children@;
    if k != p {
        assert(wm2[k] == wm1[k]);
    }
    assert forall|i: int| 0 <= i < c2.len() implies ws_bounded(
        wm2,
        #[trigger] c2[i] as int,
        (f + g - 1) as nat,
    ) by {
        if k == p {
            ws_at(wm1, p).children@.insert_ensures(pos, n);
            if i == pos {
                lemma_ws_v_fuel(wm2, Seq::empty(), n as int, g, (f + g - 1) as nat, 1nat);
            } else {
                let m = if i < pos {
                    i
                } else {
                    i - 1
                };
                assert(c2[i] == c1[m]);
                assert(ws_bounded(wm1, c1[m] as int, (f - 1) as nat));
                lemma_ws_bounded_attach(wm1, wm2, p, pos, n, c1[m] as int, (f - 1) as nat, g);
            }
        } else {
            assert(c2[i] == c1[i]);
            assert(ws_bounded(wm1, c1[i] as int, (f - 1) as nat));
            lemma_ws_bounded_attach(wm1, wm2, p, pos, n, c1[i] as int, (f - 1) as nat, g);
        }
    }
}

/// The blank workspace that an insertion creates, carrying the given id.
pub open spec fn blank_ws_slot(s2: SlotMapStore, n: int, id: Seq<char>) -> bool {
    &&& ws_live(s2.workspaces_map@, n)
    &&& ws_at(s2.workspaces_map@, n).id@ == id
    &&& ws_at(s2.workspaces_map@, n).description@ == Seq::<char>::empty()
    &&& ws_at(s2.workspaces_map@, n).children@ == Seq::<usize>::empty()
    &&& ws_at(s2.workspaces_map@, n).todos@ == Seq::<usize>::empty()
}

/// Growing the workspace arena by one fresh blank leaf and hanging it under
/// one owner — a live workspace's children or the root list — keeps the
/// store consistent.
pub proof fn lemma_ws_insert_blank(
    s1: SlotMapStore,
    s2: SlotMapStore,
    owner: Option<usize>,
    pos: int,
    n: usize,
)
    requires
        s1.wf(),
        s2.todos_map == s1.todos_map,
        s2.workspaces_map@.len() == s1.workspaces_map@.len() + 1,
        n as int == s1.workspaces_map@.len(),
        forall|j: int|
            0 <= j < s1.workspaces_map@.len() && Some(j as usize) != owner
                ==> s2.workspaces_map@[j] == #[trigger] s1.workspaces_map@[j],
        ws_live(s2.workspaces_map@, n as int),
        ws_at(s2.workspaces_map@, n as int).children@ == Seq::<usize>::empty(),
        ws_at(s2.workspaces_map@, n as int).todos@ == Seq::<usize>::empty(),
        match owner {
            Some(p) => {
                &&& ws_live(s1.workspaces_map@, p as int)
                &&& ws_live(s2.workspaces_map@, p as int)
                &&& 0 <= pos <= ws_at(s1.workspaces_map@, p as int).children@.len()
                &&& ws_at(s2.workspaces_map@, p as int) == (WorkspaceItem {
                    children: ws_at(s2.workspaces_map@, p as int).children,
                    ..ws_at(s1.workspaces_map@, p as int)
                })
                &&& ws_at(s2.workspaces_map@, p as int).children@ == ws_at(
                    s1.workspaces_map@,
                    p as int,
                ).children@.insert(pos, n)
                &&& s2.root_workspaces == s1.root_workspaces
            },
            None => {
                &&& 0 <= pos <= s1.root_workspaces@.len()
                &&& s2.root_workspaces@ == s1.root_workspaces@.insert(pos, n)
            },
        },
    ensures
        s2.wf(),
        forall|j: int| todo_live(s2.todos_map@, j) == todo_live(s1.todos_map@, j),
{
    let wm1 = s1.workspaces_map@;
    let wm2 = s2.workspaces_map@;
    let tm = s1.todos_map@;
    assert(ws_bounded(wm2, n as int, 1nat));
    assert forall|j: int| ws_live(wm1, j) implies ws_live(wm2, j) by {
        if match owner {
            Some(p) => j != p,
            None => true,
        } {
            assert(wm2[j] == wm1[j]);
        }
    }
    assert forall|k: int| ws_live(wm2, k) implies #[trigger] ws_bounded(wm2, k, s2.wfuel()) by {
        if k == n as int {
            lemma_ws_v_fuel(wm2, tm, k, 1nat, s2.wfuel(), 1nat);
        } else {
            assert(ws_live(wm1, k));
            assert(ws_bounded(wm1, k, s1.wfuel()));
            match owner {
                Some(p) => {
                    lemma_ws_bounded_attach(wm1, wm2, p as int, pos, n, k, s1.wfuel(), 1nat);
                },
                None => {
                    crate::arena::lemma_ws_bounded_extend(wm1, wm2, k, s1.wfuel());
                    lemma_ws_v_fuel(wm2, tm, k, s1.wfuel(), s2.wfuel(), 1nat);
                },
            }
        }
    }
    assert forall|k: int| ws_live(wm2, k) implies forall|i: int|
        0 <= i < ws_at(wm2, k).todos@.len() ==> todo_live(
            tm,
            #[trigger] ws_at(wm2, k).todos@[i] as int,
        ) by {
        assert forall|i: int| 0 <= i < ws_at(wm2, k).todos@.len() implies todo_live(
            tm,
            #[trigger] ws_at(wm2, k).todos@[i] as int,
        ) by {
            if k != n as int {
                match owner {
                    Some(p) => {
                        if k != p as int {
                            assert(Some(k as usize) != owner);
                            assert(wm2[k] == wm1[k]);
                        }
                    },
                    None => {
                        assert(Some(k as usize) != owner);
                        assert(wm2[k] == wm1[k]);
                    },
                }
                assert(ws_at(wm2, k).todos@ == ws_at(wm1, k).todos@);
                assert(ws_live(wm1, k));
                assert(todo_live(tm, ws_at(wm1, k).todos@[i] as int));
            }
        }
    }
    assert forall|i: int| 0 <= i < s2.root_workspaces@.len() implies ws_live(
        wm2,
        #[trigger] s2.root_workspaces@[i] as int,
    ) by {
        match owner {
            Some(p) => {
                assert(ws_live(wm1, s1.root_workspaces@[i] as int));
            },
            None => {
                s1.root_workspaces@.insert_ensures(pos, n);
                if i == pos {
                } else {
                    let m = if i < pos {
                        i
                    } else {
                        i - 1
                    };
                    assert(s2.root_workspaces@[i] == s1.root_workspaces@[m]);
                    assert(ws_live(wm1, s1.root_workspaces@[m] as int));
                }
            },
        }
    }
    assert forall|k: int| todo_live(s2.todos_map@, k) implies #[trigger] todo_bounded(
        s2.todos_map@,
        k,
        s2.tfuel(),
    ) by {
        assert(todo_bounded(s1.todos_map@, k, s1.tfuel()));
    }
    assert(s2.links_ok());
    // a live workspace's children and todos entries are live, hence old
    assert forall|j: int, i: int|
        ws_live(wm1, j) && 0 <= i < ws_at(wm1, j).children@.len() implies ws_live(
            wm1,
            #[trigger] ws_at(wm1, j).children@[i] as int,
        ) by {
        assert(ws_bounded(wm1, j, s1.wfuel()));
        assert(ws_bounded(wm1, ws_at(wm1, j).children@[i] as int, (s1.wfuel() - 1) as nat));
    }
    assert forall|j1: int, i1: int, j2: int, i2: int|
        ws_live(wm2, j1) && ws_live(wm2, j2) && 0 <= i1 < ws_at(wm2, j1).todos@.len() && 0 <= i2
            < ws_at(wm2, j2).todos@.len() && (j1 != j2 || i1 != i2) implies #[trigger] ws_at(
            wm2,
            j1,
        ).todos@[i1] != #[trigger] ws_at(wm2, j2).todos@[i2] by {
        assert(j1 != n as int && j2 != n as int);
        assert(ws_at(wm2, j1).todos@ == ws_at(wm1, j1).todos@);
        assert(ws_at(wm2, j2).todos@ == ws_at(wm1, j2).todos@);
        assert(ws_at(wm1, j1).todos@[i1] != ws_at(wm1, j2).todos@[i2]);
    }
    assert forall|j1: int, i1: int, j2: int, i2: int|
        ws_live(wm2, j1) && todo_live(tm, j2) && 0 <= i1 < ws_at(wm2, j1).todos@.len() && 0 <= i2
            < todo_at(tm, j2).children@.len() implies #[trigger] ws_at(wm2, j1).todos@[i1]
            != #[trigger] todo_at(tm, j2).children@[i2] by {
        assert(j1 != n as int);
        assert(ws_at(wm2, j1).todos@ == ws_at(wm1, j1).todos@);
        assert(ws_at(wm1, j1).todos@[i1] != todo_at(tm, j2).children@[i2]);
    }
    assert(s2.todo_owners_ok());
    assert forall|j1: int, i1: int, j2: int, i2: int|
        ws_live(wm2, j1) && ws_live(wm2, j2) && 0 <= i1 < ws_at(wm2, j1).children@.len() && 0 <= i2
            < ws_at(wm2, j2).children@.len() && (j1 != j2 || i1 != i2) implies #[trigger] ws_at(
            wm2,
            j1,
        ).children@[i1] != #[trigger] ws_at(wm2, j2).children@[i2] by {
        match owner {
            Some(p) => {
                ws_at(wm1, p as int).children@.insert_ensures(pos, n);
                let o1 = j1 == p as int;
                let o2 = j2 == p as int;
                if o1 && i1 == pos {
                    assert(ws_at(wm2, j1).children@[i1] == n);
                    if !(o2 && i2 == pos) {
                        let m2 = if !o2 { i2 } else if i2 < pos { i2 } else { i2 - 1 };
                        if !o2 {
                            assert(wm2[j2] == wm1[j2]);
                        }
                        assert(ws_at(wm2, j2).children@[i2] == ws_at(wm1, j2).children@[m2]);
                        assert(ws_live(wm1, ws_at(wm1, j2).children@[m2] as int));
                    }
                } else if o2 && i2 == pos {
                    assert(ws_at(wm2, j2).children@[i2] == n);
                    let m1 = if !o1 { i1 } else if i1 < pos { i1 } else { i1 - 1 };
                    if !o1 {
                        assert(wm2[j1] == wm1[j1]);
                    }
                    assert(ws_at(wm2, j1).children@[i1] == ws_at(wm1, j1).children@[m1]);
                    assert(ws_live(wm1, ws_at(wm1, j1).children@[m1] as int));
                } else {
                    let m1 = if !o1 { i1 } else if i1 < pos { i1 } else { i1 - 1 };
                    let m2 = if !o2 { i2 } else if i2 < pos { i2 } else { i2 - 1 };
                    if !o1 {
                        assert(wm2[j1] == wm1[j1]);
                    }
                    if !o2 {
                        assert(wm2[j2] == wm1[j2]);
                    }
                    assert(j1 != n as int && j2 != n as int);
                    assert(ws_at(wm2, j1).children@[i1] == ws_at(wm1, j1).children@[m1]);
                    assert(ws_at(wm2, j2).children@[i2] == ws_at(wm1, j2).children@[m2]);
                    assert((j1, m1) != (j2, m2));
                    assert(ws_at(wm1, j1).children@[m1] != ws_at(wm1, j2).children@[m2]);
                }
            },
            None => {
                assert(j1 != n as int && j2 != n as int);
                assert(ws_at(wm2, j1).children@ == ws_at(wm1, j1).children@);
                assert(ws_at(wm2, j2).children@ == ws_at(wm1, j2).children@);
                assert(ws_at(wm1, j1).children@[i1] != ws_at(wm1, j2).children@[i2]);
            },
        }
    }
    assert forall|i1: int, i2: int|
        0 <= i1 < i2 < s2.root_workspaces@.len() implies #[trigger] s2.root_workspaces@[i1]
        != #[trigger] s2.root_workspaces@[i2] by {
        match owner {
            Some(p) => {
                assert(s1.root_workspaces@[i1] != s1.root_workspaces@[i2]);
            },
            None => {
                s1.root_workspaces@.insert_ensures(pos, n);
                let m1 = if i1 < pos { i1 } else { i1 - 1 };
                let m2 = if i2 < pos { i2 } else { i2 - 1 };
                if i1 == pos {
                    assert(s2.root_workspaces@[i1] == n);
                    assert(s2.root_workspaces@[i2] == s1.root_workspaces@[m2]);
                    assert(ws_live(wm1, s1.root_workspaces@[m2] as int));
                } else if i2 == pos {
                    assert(s2.root_workspaces@[i2] == n);
                    assert(s2.root_workspaces@[i1] == s1.root_workspaces@[m1]);
                    assert(ws_live(wm1, s1.root_workspaces@[m1] as int));
                } else {
                    assert(s2.root_workspaces@[i1] == s1.root_workspaces@[m1]);
                    assert(s2.root_workspaces@[i2] == s1.root_workspaces@[m2]);
                    assert((m1 < m2));
                    assert(s1.root_workspaces@[m1] != s1.root_workspaces@[m2]);
                }
            },
        }
    }
    assert forall|i: int, j: int, i2: int|
        0 <= i < s2.root_workspaces@.len() && ws_live(wm2, j) && 0 <= i2 < ws_at(
            wm2,
            j,
        ).children@.len() implies #[trigger] s2.root_workspaces@[i] != #[trigger] ws_at(
            wm2,
            j,
        ).children@[i2] by {
        match owner {
            Some(p) => {
                ws_at(wm1, p as int).children@.insert_ensures(pos, n);
                let o = j == p as int;
                if o && i2 == pos {
                    assert(ws_at(wm2, j).children@[i2] == n);
                    assert(ws_live(wm1, s1.root_workspaces@[i] as int));
                } else {
                    let m2 = if !o { i2 } else if i2 < pos { i2 } else { i2 - 1 };
                    if !o {
                        assert(wm2[j] == wm1[j]);
                    }
                    assert(j != n as int);
                    assert(ws_at(wm2, j).children@[i2] == ws_at(wm1, j).children@[m2]);
                    assert(s1.root_workspaces@[i] != ws_at(wm1, j).children@[m2]);
                }
            },
            None => {
                s1.root_workspaces@.insert_ensures(pos, n);
                assert(j != n as int);
                assert(ws_at(wm2, j).children@ == ws_at(wm1, j).children@);
                if i == pos {
                    assert(s2.root_workspaces@[i] == n);
                    assert(ws_live(wm1, ws_at(wm1, j).children@[i2] as int));
                } else {
                    let m = if i < pos { i } else { i - 1 };
                    assert(s2.root_workspaces@[i] == s1.root_workspaces@[m]);
                    assert(s1.root_workspaces@[m] != ws_at(wm1, j).children@[i2]);
                }
            },
        }
    }
    assert(s2.ws_owners_ok());
}

impl App {
    /// Create an empty workspace with the given id right after the selection
    /// in its own container — the parent's children or the root list — or at
    /// the end of the root list with nothing (or nothing visible) selected.
    /// The new workspace is selected and opens in edit mode with an empty
    /// buffer; the todo selection resets.
    pub fn insert_sibling_workspace(&mut self, id: String)
        requires
            old(self).wf(),
            old(self).active_screen == Screen::Workspaces,
            old(self).sorting == SortingItem::Idle,
            old(self).new_editing_id is None,
        ensures
            final(self).wf(),
            insert_sibling_ws_spec(*old(self), *final(self), id@),
    {
        let sel = self.slot_tree_state.selected_workspace;
        let ix = match sel {
            Some(t) => find_row(&self.slot_tree_state.ws_tree, t),
            None => None,
        };
        proof {
            match (sel, ix) {
                (Some(t), Some(j)) => {
                    assert(row_keys(self.slot_tree_state.ws_tree@)[j as int] == t);
                },
                _ => {},
            }
        }
        let ghost s1 = self.slot_map_store;
        let n = self.slot_map_store.workspaces_map.len();
        let leaf = WorkspaceItem {
            id,
            description: String::new(),
            todos: Vec::new(),
            children: Vec::new(),
        };
        self.slot_map_store.workspaces_map.push(Some(leaf));
        proof {
            let wm2 = self.slot_map_store.workspaces_map@;
            assert(ws_at(wm2, n as int).children@ =~= Seq::<usize>::empty());
            assert(ws_at(wm2, n as int).todos@ =~= Seq::<usize>::empty());
            assert(ws_at(wm2, n as int).description@ =~= Seq::<char>::empty());
        }
        match ix {
            Some(jr) => {
                let t = match sel {
                    Some(t) => t,
                    None => 0,
                };
                proof {
                    lemma_first_index_agrees(self.slot_tree_state.ws_tree@, t, jr as int);
                    lemma_ws_rows_row_source(
                        s1,
                        self.slot_tree_state.ws_opened@,
                        s1.root_workspaces@,
                        jr as int,
                    );
                }
                let par = self.slot_tree_state.ws_tree[jr].parent;
                match par {
                    Some(p) => {
                        let (pos, cl) = {
                            let slot = &self.slot_map_store.workspaces_map[p];
                            let it = slot.as_ref().unwrap();
                            let q = match position_usize(&it.children, t) {
                                Some(q) => q,
                                None => 0,
                            };
                            (q, it.children.len())
                        };
                        proof {
                            lemma_first_index_usize(
                                ws_at(s1.workspaces_map@, p as int).children@,
                                t,
                                pos as int,
                            );
                        }
                        let slot = &mut self.slot_map_store.workspaces_map[p];
                        match slot {
                            Some(it) => {
                                it.children.insert(pos + 1, n);
                            },
                            None => {},
                        }
                        proof {
                            lemma_ws_insert_blank(
                                s1,
                                self.slot_map_store,
                                Some(p),
                                pos as int + 1,
                                n,
                            );
                        }
                    },
                    None => {
                        let pos = match position_usize(&self.slot_map_store.root_workspaces, t) {
                            Some(q) => q,
                            None => 0,
                        };
                        proof {
                            lemma_first_index_usize(s1.root_workspaces@, t, pos as int);
                        }
                        let rl = self.slot_map_store.root_workspaces.len();
                        proof {
                            assert(pos < rl);
                        }
                        self.slot_map_store.root_workspaces.insert(pos + 1, n);
                        proof {
                            lemma_ws_insert_blank(
                                s1,
                                self.slot_map_store,
                                None,
                                pos as int + 1,
                                n,
                            );
                        }
                    },
                }
            },
            None => {
                let pos = self.slot_map_store.root_workspaces.len();
                self.slot_map_store.root_workspaces.push(n);
                proof {
                    assert(self.slot_map_store.root_workspaces@ == s1.root_workspaces@.insert(
                        pos as int,
                        n,
                    )) by {
                        assert(s1.root_workspaces@.insert(pos as int, n)
                            =~= s1.root_workspaces@.push(n));
                    }
                    lemma_ws_insert_blank(s1, self.slot_map_store, None, pos as int, n);
                }
            },
        }
        self.input = String::new();
        self.new_editing_id = Some(n);
        self.slot_tree_state.selected_workspace = Some(n);
        self.slot_tree_state.selected_todo = None;
        self.slot_tree_state.update_workspace_tree_state(&self.slot_map_store);
    }

    /// Create an empty workspace with the given id as the last child of the
    /// selected workspace, mark the selection opened, and open the child in
    /// edit mode, selected. Without a selection, nothing happens.
    pub fn insert_child_workspace(&mut self, id: String)
        requires
            old(self).wf(),
            old(self).active_screen == Screen::Workspaces,
            old(self).sorting == SortingItem::Idle,
            old(self).new_editing_id is None,
        ensures
            final(self).wf(),
            insert_child_ws_spec(*old(self), *final(self), id@),
    {
        let t = match self.slot_tree_state.selected_workspace {
            Some(t) => t,
            None => {
                return ;
            },
        };
        if !vec_contains(&self.slot_tree_state.ws_opened, t) {
            self.slot_tree_state.ws_opened.push(t);
        }
        let ghost s1 = self.slot_map_store;
        let n = self.slot_map_store.workspaces_map.len();
        let leaf = WorkspaceItem {
            id,
            description: String::new(),
            todos: Vec::new(),
            children: Vec::new(),
        };
        self.slot_map_store.workspaces_map.push(Some(leaf));
        proof {
            let wm2 = self.slot_map_store.workspaces_map@;
            assert(ws_at(wm2, n as int).children@ =~= Seq::<usize>::empty());
            assert(ws_at(wm2, n as int).todos@ =~= Seq::<usize>::empty());
            assert(ws_at(wm2, n as int).description@ =~= Seq::<char>::empty());
        }
        let pos = {
            let slot = &self.slot_map_store.workspaces_map[t];
            slot.as_ref().unwrap().children.len()
        };
        let slot = &mut self.slot_map_store.workspaces_map[t];
        match slot {
            Some(it) => {
                it.children.push(n);
            },
            None => {},
        }
        proof {
            assert(ws_at(self.slot_map_store.workspaces_map@, t as int).children@ == ws_at(
                s1.workspaces_map@,
                t as int,
            ).children@.insert(pos as int, n)) by {
                assert(ws_at(s1.workspaces_map@, t as int).children@.insert(pos as int, n)
                    =~= ws_at(s1.workspaces_map@, t as int).children@.push(n));
            }
            lemma_ws_insert_blank(s1, self.slot_map_store, Some(t), pos as int, n);
        }
        self.input = String::new();
        self.new_editing_id = Some(n);
        self.slot_tree_state.selected_workspace = Some(n);
        self.slot_tree_state.selected_todo = None;
        self.slot_tree_state.update_workspace_tree_state(&self.slot_map_store);
    }

    /// Cut the selected workspace: the clipboard records its handle alone,
    /// and the workspace is detached from the tree; its subtree stays in the
    /// arena. Nothing happens with no selection.
    pub fn cut_selected_workspace(&mut self)
        requires
            old(self).wf(),
            old(self).active_screen == Screen::Workspaces,
            old(self).sorting == SortingItem::Idle,
            old(self).slot_tree_state.multi_selected_workspaces@.len() == 0,
        ensures
            final(self).wf(),
            match old(self).slot_tree_state.selected_workspace {
                None => *final(self) == *old(self),
                Some(x) => {
                    &&& final(self).clipboard_workspaces@ == seq![x]
                    &&& (row_keys(old(self).slot_tree_state.ws_tree@).contains(x)
                        ==> detach_ws_rel(
                        old(self).slot_map_store,
                        final(self).slot_map_store,
                        old(self).slot_tree_state.ws_tree@,
                        x,
                    ) && !row_keys(final(self).slot_tree_state.ws_tree@).contains(x))
                    &&& (!row_keys(old(self).slot_tree_state.ws_tree@).contains(x)
                        ==> final(self).slot_map_store == old(self).slot_map_store)
                },
            },
    {
        match self.slot_tree_state.selected_workspace {
            None => {},
            Some(x) => {
                let mut cb: Vec<usize> = Vec::new();
                cb.push(x);
                self.clipboard_workspaces = cb;
                proof {
                    assert(self.clipboard_workspaces@ =~= seq![x]);
                }
                self.delete_workspace(x);
            },
        }
    }
}

/// What inserting a sibling workspace does.
pub open spec fn insert_sibling_ws_spec(a: App, b: App, id: Seq<char>) -> bool {
    let rows = a.slot_tree_state.ws_tree@;
    let n = a.slot_map_store.workspaces_map@.len() as usize;
    let in_tree = match a.slot_tree_state.selected_workspace {
        Some(t) => row_keys(rows).contains(t),
        None => false,
    };
    &&& b.slot_map_store.workspaces_map@.len() == n as int + 1
    &&& blank_ws_slot(b.slot_map_store, n as int, id)
    &&& b.new_editing_id == Some(n)
    &&& b.input@ == Seq::<char>::empty()
    &&& b.slot_tree_state.selected_workspace == Some(n)
    &&& b.slot_tree_state.selected_todo is None
    &&& b.slot_map_store.todos_map == a.slot_map_store.todos_map
    &&& if in_tree {
        let t = a.slot_tree_state.selected_workspace->Some_0;
        let j = first_index(row_keys(rows), t);
        match rows[j].parent {
            Some(p) => b.slot_map_store.root_workspaces == a.slot_map_store.root_workspaces
                && ws_at(b.slot_map_store.workspaces_map@, p as int).children@ == ws_at(
                a.slot_map_store.workspaces_map@,
                p as int,
            ).children@.insert(
                first_index(ws_at(a.slot_map_store.workspaces_map@, p as int).children@, t) + 1,
                n,
            ),
            None => b.slot_map_store.root_workspaces@ == a.slot_map_store.root_workspaces@.insert(
                first_index(a.slot_map_store.root_workspaces@, t) + 1,
                n,
            ),
        }
    } else {
        b.slot_map_store.root_workspaces@ == a.slot_map_store.root_workspaces@.push(n)
    }
}

/// What inserting a child workspace does.
pub open spec fn insert_child_ws_spec(a: App, b: App, id: Seq<char>) -> bool {
    let n = a.slot_map_store.workspaces_map@.len() as usize;
    match a.slot_tree_state.selected_workspace {
        None => b == a,
        Some(t) => {
            &&& b.slot_map_store.workspaces_map@.len() == n as int + 1
            &&& blank_ws_slot(b.slot_map_store, n as int, id)
            &&& b.slot_map_store.todos_map == a.slot_map_store.todos_map
            &&& b.slot_map_store.root_workspaces == a.slot_map_store.root_workspaces
            &&& ws_at(b.slot_map_store.workspaces_map@, t as int).children@ == ws_at(
                a.slot_map_store.workspaces_map@,
                t as int,
            ).children@.push(n)
            &&& b.slot_tree_state.ws_opened@ == if a.slot_tree_state.ws_opened@.contains(t) {
                a.slot_tree_state.ws_opened@
            } else {
                a.slot_tree_state.ws_opened@.push(t)
            }
            &&& b.new_editing_id == Some(n)
            &&& b.input@ == Seq::<char>::empty()
            &&& b.slot_tree_state.selected_workspace == Some(n)
            &&& b.slot_tree_state.selected_todo is None
        },
    }
}

/// The abstract editing intents the engine interprets; keystroke decoding
/// happens outside. Commands that create or clone carry the fresh ids the
/// new entities are to receive.
pub enum Command {
    MoveUp,
    MoveDown,
    Expand,
    Collapse,
    BeginEdit,
    EditChar(char),
    EditBackspace,
    CommitEdit,
    CancelEdit,
    InsertSibling(String),
    InsertChild(String),
    Delete,
    ToggleDone,
    UrgencyUp,
    UrgencyDown,
    BeginSort,
    SortChoice(char),
    Yank,
    Cut,
    Paste(Vec<String>),
    PasteAsChild(Vec<String>),
    ToggleMultiSelect,
    SwapUp,
    SwapDown,
    BeginSearch,
    SearchChar(char),
    SearchBackspace,
    EndSearch,
    NextMatch,
    SwitchPane,
    Quit,
}

/// Whether a command is one that edit mode lets through.
pub open spec fn edit_mode_cmd(cmd: Command) -> bool {
    cmd matches Command::EditChar(_) || cmd matches Command::EditBackspace || cmd
        matches Command::CommitEdit || cmd matches Command::CancelEdit || cmd
        matches Command::Quit
}

/// Whether a command is one that search mode lets through.
pub open spec fn search_mode_cmd(cmd: Command) -> bool {
    cmd matches Command::SearchChar(_) || cmd matches Command::SearchBackspace || cmd
        matches Command::EndSearch
}

/// Whether a command resolves an armed sort.
pub open spec fn is_sort_choice(cmd: Command) -> bool {
    cmd matches Command::SortChoice(_)
}

/// Whether a command starts a search.
pub open spec fn is_begin_search(cmd: Command) -> bool {
    cmd matches Command::BeginSearch
}

/// Whether a command asks to leave.
pub open spec fn is_quit(cmd: Command) -> bool {
    cmd matches Command::Quit
}

impl App {
    /// Cut every multi-selected workspace: the clipboard records the set,
    /// each recorded workspace still on a row is detached in turn, and the
    /// workspace multi-selection clears. With an empty multi-selection
    /// nothing happens.
    pub fn cut_multi_selected_workspaces(&mut self)
        requires
            old(self).wf(),
            old(self).active_screen == Screen::Workspaces,
            old(self).sorting == SortingItem::Idle,
        ensures
            final(self).wf(),
            old(self).slot_tree_state.multi_selected_workspaces@.len() == 0 ==> *final(self)
                == *old(self),
            old(self).slot_tree_state.multi_selected_workspaces@.len() > 0 ==> {
                &&& final(self).clipboard_workspaces@ == old(
                    self,
                ).slot_tree_state.multi_selected_workspaces@
                &&& final(self).slot_tree_state.multi_selected_workspaces@
                    == Seq::<usize>::empty()
                &&& forall|i: int|
                    0 <= i < final(self).clipboard_workspaces@.len() ==> !row_keys(
                        final(self).slot_tree_state.ws_tree@,
                    ).contains(#[trigger] final(self).clipboard_workspaces@[i])
                &&& forall|i: int|
                    0 <= i < final(self).clipboard_workspaces@.len() ==> ws_live(
                        final(self).slot_map_store.workspaces_map@,
                        #[trigger] final(self).clipboard_workspaces@[i] as int,
                    )
                &&& cut_ws_store_rel(
                    old(self).slot_map_store,
                    final(self).slot_map_store,
                    old(self).slot_tree_state.multi_selected_workspaces@,
                )
            },
    {
        if self.slot_tree_state.multi_selected_workspaces.len() == 0 {
            return ;
        }
        let cb = copy_keys(&self.slot_tree_state.multi_selected_workspaces);
        self.clipboard_workspaces = cb;
        let mut i: usize = 0;
        proof {
            lemma_cut_ws_store_rel_refl(self.slot_map_store, self.clipboard_workspaces@);
        }
        while i < self.clipboard_workspaces.len()
            invariant
                self.wf(),
                self.active_screen == Screen::Workspaces,
                self.sorting == SortingItem::Idle,
                i <= self.clipboard_workspaces@.len(),
                self.clipboard_workspaces@ == old(
                    self,
                ).slot_tree_state.multi_selected_workspaces@,
                forall|j: int|
                    0 <= j < i ==> !row_keys(self.slot_tree_state.ws_tree@).contains(
                        #[trigger] self.clipboard_workspaces@[j],
                    ),
                cut_ws_store_rel(
                    old(self).slot_map_store,
                    self.slot_map_store,
                    self.clipboard_workspaces@,
                ),
            decreases self.clipboard_workspaces@.len() - i,
        {
            let x = self.clipboard_workspaces[i];
            let ghost pre = *self;
            self.delete_workspace(x);
            proof {
                if row_keys(pre.slot_tree_state.ws_tree@).contains(x) {
                    assert(self.clipboard_workspaces@.contains(x)) by {
                        assert(self.clipboard_workspaces@[i as int] == x);
                    }
                    lemma_first_index(row_keys(pre.slot_tree_state.ws_tree@), x);
                    lemma_ws_rows_row_source(
                        pre.slot_map_store,
                        pre.slot_tree_state.ws_opened@,
                        pre.slot_map_store.root_workspaces@,
                        first_index(row_keys(pre.slot_tree_state.ws_tree@), x),
                    );
                    lemma_ws_detach_is_cut_step(
                        pre.slot_map_store,
                        self.slot_map_store,
                        pre.slot_tree_state.ws_tree@,
                        x,
                        self.clipboard_workspaces@,
                    );
                    lemma_cut_ws_store_rel_trans(
                        old(self).slot_map_store,
                        pre.slot_map_store,
                        self.slot_map_store,
                        self.clipboard_workspaces@,
                    );
                }
                assert forall|j: int| 0 <= j < i implies !row_keys(
                    self.slot_tree_state.ws_tree@,
                ).contains(#[trigger] self.clipboard_workspaces@[j]) by {
                    let y = self.clipboard_workspaces@[j];
                    if row_keys(pre.slot_tree_state.ws_tree@).contains(x) {
                        lemma_detached_ws_row_stays_out(pre, *self, x, y);
                    }
                }
            }
            i += 1;
        }
        self.slot_tree_state.multi_selected_workspaces = Vec::new();
        proof {
            assert(self.slot_tree_state.multi_selected_workspaces@ =~= Seq::<usize>::empty());
        }
    }

    /// Interpret one command against the workspace pane, honouring the modal
    /// order: an armed sort swallows everything but its one choice
    /// keystroke, edit mode lets only the editing commands through, and only
    /// normal mode reaches the tree. Commands this pane has no work for
    /// leave the state alone.
    pub fn handle_workspace_command(&mut self, cmd: Command)
        requires
            old(self).wf(),
            old(self).active_screen == Screen::Workspaces,
        ensures
            final(self).wf(),
            ws_dispatch_rel(*old(self), *final(self), cmd),
            (old(self).sorting matches SortingItem::Workspace(_)) && !is_sort_choice(cmd)
                ==> *final(self) == *old(self),
            old(self).sorting == SortingItem::Idle && old(self).new_editing_id is Some
                && !edit_mode_cmd(cmd) ==> *final(self) == *old(self),
            is_quit(cmd) && old(self).sorting == SortingItem::Idle ==> !final(self).running,
    {
        match self.sorting {
            SortingItem::Workspace(k) => {
                match cmd {
                    Command::SortChoice(n) => self.sort_choice_workspace(n),
                    _ => {},
                }
                return ;
            },
            _ => {},
        }
        match self.new_editing_id {
            Some(id) => {
                match cmd {
                    Command::Quit => self.quit(),
                    Command::CommitEdit => self.commit_edit_workspace(),
                    Command::CancelEdit => self.cancel_edit(),
                    Command::EditChar(c) => self.edit_char(c),
                    Command::EditBackspace => self.edit_backspace(),
                    _ => {},
                }
            },
            None => {
                match cmd {
                    Command::Quit => self.quit(),
                    Command::SwitchPane => {
                        self.active_screen = Screen::Todos;
                    },
                    Command::MoveDown => self.move_workspace_down(),
                    Command::MoveUp => self.move_workspace_up(),
                    Command::Expand => self.expand_workspace(),
                    Command::Collapse => self.collapse_workspace(),
                    Command::BeginEdit => self.begin_edit_workspace(),
                    Command::InsertSibling(id) => self.insert_sibling_workspace(id),
                    Command::InsertChild(id) => self.insert_child_workspace(id),
                    Command::Yank => self.yank_workspaces(),
                    Command::Cut => {
                        if self.slot_tree_state.multi_selected_workspaces.len() > 0 {
                            self.cut_multi_selected_workspaces();
                        } else {
                            self.cut_selected_workspace();
                        }
                    },
                    Command::Delete => {
                        match self.slot_tree_state.selected_workspace {
                            Some(w) => self.delete_workspace(w),
                            None => {},
                        }
                    },
                    Command::ToggleMultiSelect => self.toggle_multi_select_workspace(),
                    Command::BeginSort => self.begin_sort_workspace(),
                    Command::SwapUp => self.swap_workspace_up(),
                    Command::SwapDown => self.swap_workspace_down(),
                    _ => {},
                }
            },
        }
    }

    /// Interpret one command against the todo pane, honouring the modal
    /// order: search mode first, then an armed sort, then edit mode, then
    /// the tree. Commands this pane has no work for leave the state alone.
    pub fn handle_todos_command(&mut self, cmd: Command)
        requires
            old(self).wf(),
            old(self).active_screen == Screen::Todos,
        ensures
            final(self).wf(),
            todos_dispatch_rel(*old(self), *final(self), cmd),
            old(self).search_mode && !search_mode_cmd(cmd) ==> *final(self) == *old(self),
            !old(self).search_mode && (old(self).sorting matches SortingItem::Todo(_))
                && !is_sort_choice(cmd) && !is_begin_search(cmd) ==> *final(self) == *old(self),
            is_quit(cmd) && !old(self).search_mode && old(self).sorting == SortingItem::Idle
                ==> !final(self).running,
    {
        if self.search_mode {
            match cmd {
                Command::SearchChar(c) => self.search_char(c),
                Command::SearchBackspace => self.search_backspace(),
                Command::EndSearch => self.end_search(),
                _ => {},
            }
            return ;
        }
        match cmd {
            Command::BeginSearch => {
                self.begin_search();
                return ;
            },
            _ => {},
        }
        match self.sorting {
            SortingItem::Todo(k) => {
                match cmd {
                    Command::SortChoice(n) => self.sort_choice_todo(n),
                    _ => {},
                }
                return ;
            },
            _ => {},
        }
        match self.new_editing_id {
            Some(id) => {
                match cmd {
                    Command::Quit => self.quit(),
                    Command::CommitEdit => self.commit_edit_todo(),
                    Command::CancelEdit => self.cancel_edit(),
                    Command::EditChar(c) => self.edit_char(c),
                    Command::EditBackspace => self.edit_backspace(),
                    _ => {},
                }
            },
            None => {
                match cmd {
                    Command::Quit => self.quit(),
                    Command::SwitchPane => {
                        self.active_screen = Screen::Workspaces;
                    },
                    Command::MoveDown => self.move_todo_down(),
                    Command::MoveUp => self.move_todo_up(),
                    Command::Expand => self.expand_todo(),
                    Command::Collapse => self.collapse_todo(),
                    Command::BeginEdit => self.begin_edit_todo(),
                    Command::InsertSibling(id) => self.insert_sibling_todo(id),
                    Command::InsertChild(id) => self.insert_child_todo(id),
                    Command::ToggleDone => self.toggle_done(),
                    Command::UrgencyUp => self.urgency_up(),
                    Command::UrgencyDown => self.urgency_down(),
                    Command::BeginSort => self.begin_sort_todo(),
                    Command::Yank => self.yank_todos(),
                    Command::Cut => {
                        if self.slot_tree_state.multi_selected_todos.len() > 0 {
                            self.cut_multi_selected_todos();
                        } else {
                            self.cut_selected_todo();
                        }
                    },
                    Command::Delete => {
                        match self.slot_tree_state.selected_todo {
                            Some(t) => self.delete_todo(t),
                            None => {},
                        }
                    },
                    Command::Paste(ids) => {
                        match self.clipboard_need() {
                            Some(need) => {
                                if ids.len() >= need {
                                    self.paste_multi_selected_todos_at_cursor(ids);
                                }
                            },
                            None => {},
                        }
                    },
                    Command::PasteAsChild(ids) => {
                        if self.clipboard_todos.len() > 0 {
                            match self.slot_tree_state.selected_todo {
                                Some(selected) => {
                                    let key = self.clipboard_todos[0];
                                    let ghost tf = self.slot_map_store.tfuel();
                                    proof {
                                        assert(todo_bounded(
                                            self.slot_map_store.todos_map@,
                                            key as int,
                                            tf,
                                        ));
                                    }
                                    let sz = self.subtree_size(key, Ghost(tf));
                                    match sz {
                                        Some(need) => {
                                            if ids.len() >= need {
                                                self.paste_todo_as_child(key, selected, ids);
                                            }
                                        },
                                        None => {},
                                    }
                                },
                                None => {},
                            }
                        }
                    },
                    Command::ToggleMultiSelect => self.toggle_multi_select_todo(),
                    Command::SwapUp => self.swap_todo_up(),
                    Command::SwapDown => self.swap_todo_down(),
                    Command::NextMatch => self.next_match(),
                    _ => {},
                }
            },
        }
    }

    /// Route one command to the active pane.
    pub fn on_command(&mut self, cmd: Command)
        requires
            old(self).wf(),
        ensures
            final(self).wf(),
            old(self).active_screen == Screen::Workspaces ==> ws_dispatch_rel(
                *old(self),
                *final(self),
                cmd,
            ),
            old(self).active_screen == Screen::Todos ==> todos_dispatch_rel(
                *old(self),
                *final(self),
                cmd,
            ),
    {
        match self.active_screen {
            Screen::Workspaces => self.handle_workspace_command(cmd),
            Screen::Todos => self.handle_todos_command(cmd),
        }
    }
}

/// Relies on uuid::Uuid::new_v4, which draws a random version-4 identifier;
/// its hyphenated text form is handed back. Nothing can be promised of a
/// random value.
#[verifier::external_body]
fn fresh_uuid() -> (r: String) {
    uuid::Uuid::new_v4().to_string()
}

/// Draw `n` fresh identifiers for new entities.
pub fn mint_ids(n: usize) -> (r: Vec<String>)
    ensures
        r@.len() == n,
{
    let mut r: Vec<String> = Vec::new();
    let mut i: usize = 0;
    while i < n
        invariant
            i <= n,
            r@.len() == i,
        decreases n - i,
    {
        r.push(fresh_uuid());
        i += 1;
    }
    r
}

impl App {
    /// How many fresh ids pasting the whole todo clipboard needs, unless it
    /// cannot be counted in a machine word.
    pub fn clipboard_need(&self) -> (r: Option<usize>)
        requires
            self.wf(),
    ensures
            match r {
                Some(n) => n == todo_size_list(
                    self.slot_map_store.todos_map@,
                    self.clipboard_todos@,
                    self.slot_map_store.tfuel(),
                ),
                None => todo_size_list(
                    self.slot_map_store.todos_map@,
                    self.clipboard_todos@,
                    self.slot_map_store.tfuel(),
                ) > usize::MAX,
            },
    {
        let ghost tm = self.slot_map_store.todos_map@;
        let ghost tf = self.slot_map_store.tfuel();
        let mut total: usize = 0;
        let mut i: usize = 0;
        proof {
            assert(self.clipboard_todos@.take(0) =~= Seq::<usize>::empty());
        }
        while i < self.clipboard_todos.len()
            invariant
                self.wf(),
                tm == self.slot_map_store.todos_map@,
                tf == self.slot_map_store.tfuel(),
                i <= self.clipboard_todos@.len(),
                total == todo_size_list(tm, self.clipboard_todos@.take(i as int), tf),
            decreases self.clipboard_todos@.len() - i,
        {
            let k = self.clipboard_todos[i];
            proof {
                assert(todo_live(tm, self.clipboard_todos@[i as int] as int));
                assert(todo_bounded(tm, self.clipboard_todos@[i as int] as int, tf));
            }
            proof {
                lemma_todo_size_list_split(tm, self.clipboard_todos@, i as int, tf);
                assert(self.clipboard_todos@.skip(i as int)[0] == self.clipboard_todos@[i as int]);
                assert(self.clipboard_todos@.skip(i as int).drop_first()
                    =~= self.clipboard_todos@.skip(i as int + 1));
                assert(todo_size_list(tm, self.clipboard_todos@.skip(i as int), tf) == todo_size(
                    tm,
                    self.clipboard_todos@[i as int] as int,
                    tf,
                ) + todo_size_list(tm, self.clipboard_todos@.skip(i as int + 1), tf));
            }
            let sz = self.subtree_size(k, Ghost(tf));
            let n = match sz {
                Some(n) => n,
                None => {
                    return None;
                },
            };
            let t = match total.checked_add(n) {
                Some(t) => t,
                None => {
                    return None;
                },
            };
            total = t;
            proof {
                lemma_todo_size_list_snoc(
                    tm,
                    self.clipboard_todos@.take(i as int),
                    self.clipboard_todos@[i as int],
                    tf,
                );
                assert(self.clipboard_todos@.take(i as int).push(
                    self.clipboard_todos@[i as int],
                ) =~= self.clipboard_todos@.take(i as int + 1));
            }
            i += 1;
        }
        proof {
            assert(self.clipboard_todos@.take(i as int) =~= self.clipboard_todos@);
        }
        Some(total)
    }

    /// How many fresh ids cloning the subtree under `k` needs, unless it
    /// cannot be counted in a machine word.
    pub fn todo_clone_need(&self, k: usize) -> (r: Option<usize>)
        requires
            self.wf(),
            todo_live(self.slot_map_store.todos_map@, k as int),
        ensures
            match r {
                Some(n) => n == todo_size(
                    self.slot_map_store.todos_map@,
                    k as int,
                    self.slot_map_store.tfuel(),
                ),
                None => true,
            },
    {
        let ghost tf = self.slot_map_store.tfuel();
        proof {
            assert(todo_bounded(self.slot_map_store.todos_map@, k as int, tf));
        }
        self.subtree_size(k, Ghost(tf))
    }
}

/// Replacing one live workspace's child list by a rearrangement of itself —
/// same handles, no duplicates — keeps the store consistent.
pub proof fn lemma_ws_children_container_set(s1: SlotMapStore, s2: SlotMapStore, p: int)
    requires
        s1.wf(),
        ws_live(s1.workspaces_map@, p),
        s2.todos_map == s1.todos_map,
        s2.root_workspaces == s1.root_workspaces,
        s2.workspaces_map@.len() == s1.workspaces_map@.len(),
        forall|j: int|
            0 <= j < s1.workspaces_map@.len() && j != p ==> s2.workspaces_map@[j]
                == #[trigger] s1.workspaces_map@[j],
        ws_live(s2.workspaces_map@, p),
        ws_at(s2.workspaces_map@, p) == (WorkspaceItem {
            children: ws_at(s2.workspaces_map@, p).children,
            ..ws_at(s1.workspaces_map@, p)
        }),
        forall|i: int|
            0 <= i < ws_at(s2.workspaces_map@, p).children@.len() ==> ws_at(
                s1.workspaces_map@,
                p,
            ).children@.contains(#[trigger] ws_at(s2.workspaces_map@, p).children@[i]),
        forall|i1: int, i2: int|
            0 <= i1 < i2 < ws_at(s2.workspaces_map@, p).children@.len() ==> #[trigger] ws_at(
                s2.workspaces_map@,
                p,
            ).children@[i1] != #[trigger] ws_at(s2.workspaces_map@, p).children@[i2],
    ensures
        s2.wf(),
        forall|j: int| ws_live(s2.workspaces_map@, j) == ws_live(s1.workspaces_map@, j),
        forall|j: int| todo_live(s2.todos_map@, j) == todo_live(s1.todos_map@, j),
    decreases 1int,
{
    let wm1 = s1.workspaces_map@;
    let wm2 = s2.workspaces_map@;
    let tm = s1.todos_map@;
    let c1 = ws_at(wm1, p).children@;
    let c2 = ws_at(wm2, p).children@;
    assert forall|j: int| ws_live(wm1, j) == ws_live(wm2, j) by {
        if 0 <= j < wm1.len() && j != p {
            assert(wm2[j] == wm1[j]);
        }
    }
    assert forall|j: int, i: int|
        ws_live(wm1, j) && 0 <= i < ws_at(wm2, j).children@.len() implies ws_at(
            wm1,
            j,
        ).children@.contains(#[trigger] ws_at(wm2, j).children@[i]) by {
        if j != p {
            assert(wm2[j] == wm1[j]);
            assert(ws_at(wm1, j).children@[i] == ws_at(wm2, j).children@[i]);
        }
    }
    assert forall|k: int| ws_live(wm2, k) implies #[trigger] ws_bounded(wm2, k, s2.wfuel()) by {
        lemma_ws_bounded_shrink(wm1, wm2, k, s1.wfuel());
    }
    assert forall|k: int| ws_live(wm2, k) implies forall|i: int|
        0 <= i < ws_at(wm2, k).todos@.len() ==> todo_live(
            tm,
            #[trigger] ws_at(wm2, k).todos@[i] as int,
        ) by {
        assert forall|i: int| 0 <= i < ws_at(wm2, k).todos@.len() implies todo_live(
            tm,
            #[trigger] ws_at(wm2, k).todos@[i] as int,
        ) by {
            if k != p {
                assert(wm2[k] == wm1[k]);
            }
            assert(ws_at(wm2, k).todos@ == ws_at(wm1, k).todos@);
            assert(todo_live(tm, ws_at(wm1, k).todos@[i] as int));
        }
    }
    assert forall|i: int| 0 <= i < s2.root_workspaces@.len() implies ws_live(
        wm2,
        #[trigger] s2.root_workspaces@[i] as int,
    ) by {
        assert(ws_live(wm1, s1.root_workspaces@[i] as int));
    }
    assert forall|k: int| todo_live(s2.todos_map@, k) implies #[trigger] todo_bounded(
        s2.todos_map@,
        k,
        s2.tfuel(),
    ) by {
        assert(todo_bounded(s1.todos_map@, k, s1.tfuel()));
    }
    assert(s2.links_ok());
    assert forall|j1: int, i1: int, j2: int, i2: int|
        ws_live(wm2, j1) && ws_live(wm2, j2) && 0 <= i1 < ws_at(wm2, j1).todos@.len() && 0 <= i2
            < ws_at(wm2, j2).todos@.len() && (j1 != j2 || i1 != i2) implies #[trigger] ws_at(
            wm2,
            j1,
        ).todos@[i1] != #[trigger] ws_at(wm2, j2).todos@[i2] by {
        assert(ws_at(wm2, j1).todos@ == ws_at(wm1, j1).todos@);
        assert(ws_at(wm2, j2).todos@ == ws_at(wm1, j2).todos@);
        assert(ws_at(wm1, j1).todos@[i1] != ws_at(wm1, j2).todos@[i2]);
    }
    assert forall|j1: int, i1: int, j2: int, i2: int|
        ws_live(wm2, j1) && todo_live(tm, j2) && 0 <= i1 < ws_at(wm2, j1).todos@.len() && 0 <= i2
            < todo_at(tm, j2).children@.len() implies #[trigger] ws_at(wm2, j1).todos@[i1]
            != #[trigger] todo_at(tm, j2).children@[i2] by {
        assert(ws_at(wm2, j1).todos@ == ws_at(wm1, j1).todos@);
        assert(ws_at(wm1, j1).todos@[i1] != todo_at(tm, j2).children@[i2]);
    }
    assert(s2.todo_owners_ok());
    assert forall|j1: int, i1: int, j2: int, i2: int|
        ws_live(wm2, j1) && ws_live(wm2, j2) && 0 <= i1 < ws_at(wm2, j1).children@.len() && 0 <= i2
            < ws_at(wm2, j2).children@.len() && (j1 != j2 || i1 != i2) implies #[trigger] ws_at(
            wm2,
            j1,
        ).children@[i1] != #[trigger] ws_at(wm2, j2).children@[i2] by {
        if j1 != p && j2 != p {
            assert(wm2[j1] == wm1[j1]);
            assert(wm2[j2] == wm1[j2]);
            assert(ws_at(wm1, j1).children@[i1] != ws_at(wm1, j2).children@[i2]);
        } else if j1 == p && j2 == p {
        } else if j1 == p {
            assert(wm2[j2] == wm1[j2]);
            assert(c1.contains(c2[i1]));
            let w = choose|w: int| 0 <= w < c1.len() && c1[w] == c2[i1];
            assert(ws_at(wm1, p).children@[w] != ws_at(wm1, j2).children@[i2]);
        } else {
            assert(wm2[j1] == wm1[j1]);
            assert(c1.contains(c2[i2]));
            let w = choose|w: int| 0 <= w < c1.len() && c1[w] == c2[i2];
            assert(ws_at(wm1, j1).children@[i1] != ws_at(wm1, p).children@[w]);
        }
    }
    assert forall|i: int, j: int, i2: int|
        0 <= i < s2.root_workspaces@.len() && ws_live(wm2, j) && 0 <= i2 < ws_at(
            wm2,
            j,
        ).children@.len() implies #[trigger] s2.root_workspaces@[i] != #[trigger] ws_at(
            wm2,
            j,
        ).children@[i2] by {
        if j != p {
            assert(wm2[j] == wm1[j]);
            assert(s1.root_workspaces@[i] != ws_at(wm1, j).children@[i2]);
        } else {
            assert(c1.contains(c2[i2]));
            let w = choose|w: int| 0 <= w < c1.len() && c1[w] == c2[i2];
            assert(s1.root_workspaces@[i] != ws_at(wm1, p).children@[w]);
        }
    }
    assert(s2.ws_owners_ok());
}

/// Replacing the root list by a rearrangement of itself keeps the store
/// consistent.
pub proof fn lemma_roots_container_set(s1: SlotMapStore, s2: SlotMapStore)
    requires
        s1.wf(),
        s2.todos_map == s1.todos_map,
        s2.workspaces_map == s1.workspaces_map,
        forall|i: int|
            0 <= i < s2.root_workspaces@.len() ==> s1.root_workspaces@.contains(
                #[trigger] s2.root_workspaces@[i],
            ),
        forall|i1: int, i2: int|
            0 <= i1 < i2 < s2.root_workspaces@.len() ==> #[trigger] s2.root_workspaces@[i1]
                != #[trigger] s2.root_workspaces@[i2],
    ensures
        s2.wf(),
{
    let wm = s1.workspaces_map@;
    assert forall|i: int| 0 <= i < s2.root_workspaces@.len() implies ws_live(
        wm,
        #[trigger] s2.root_workspaces@[i] as int,
    ) by {
        let w = choose|w: int|
            0 <= w < s1.root_workspaces@.len() && s1.root_workspaces@[w]
                == s2.root_workspaces@[i];
        assert(ws_live(wm, s1.root_workspaces@[w] as int));
    }
    assert forall|k: int| todo_live(s2.todos_map@, k) implies #[trigger] todo_bounded(
        s2.todos_map@,
        k,
        s2.tfuel(),
    ) by {
        assert(todo_bounded(s1.todos_map@, k, s1.tfuel()));
    }
    assert forall|k: int| ws_live(s2.workspaces_map@, k) implies #[trigger] ws_bounded(
        s2.workspaces_map@,
        k,
        s2.wfuel(),
    ) by {
        assert(ws_bounded(s1.workspaces_map@, k, s1.wfuel()));
    }
    assert(s2.links_ok());
    assert(s2.todo_owners_ok());
    assert forall|i: int, j: int, i2: int|
        0 <= i < s2.root_workspaces@.len() && ws_live(wm, j) && 0 <= i2 < ws_at(
            wm,
            j,
        ).children@.len() implies #[trigger] s2.root_workspaces@[i] != #[trigger] ws_at(
            wm,
            j,
        ).children@[i2] by {
        let w = choose|w: int|
            0 <= w < s1.root_workspaces@.len() && s1.root_workspaces@[w]
                == s2.root_workspaces@[i];
        assert(s1.root_workspaces@[w] != ws_at(wm, j).children@[i2]);
    }
    assert(s2.ws_owners_ok());
}

/// Lexicographic order of two workspaces' descriptions.
pub open spec fn ws_key_le(wm: Seq<Option<WorkspaceItem>>, a: usize, b: usize) -> bool {
    lex_le(ws_at(wm, a as int).description@, ws_at(wm, b as int).description@)
}

/// `x` slid into a sorted run of workspaces from the right.
pub open spec fn ws_sorted_insert(wm: Seq<Option<WorkspaceItem>>, s: Seq<usize>, x: usize) -> Seq<
    usize,
>
    decreases s.len(),
{
    if s.len() == 0 {
        seq![x]
    } else if ws_key_le(wm, s.last(), x) {
        s.push(x)
    } else {
        ws_sorted_insert(wm, s.drop_last(), x).push(s.last())
    }
}

/// A workspace container as one stable insertion sort by description leaves
/// it.
pub open spec fn ws_spec_sort(wm: Seq<Option<WorkspaceItem>>, s: Seq<usize>) -> Seq<usize>
    decreases s.len(),
{
    if s.len() == 0 {
        s
    } else {
        ws_sorted_insert(wm, ws_spec_sort(wm, s.drop_last()), s.last())
    }
}

/// Insertion keeps the run's handles.
pub proof fn lemma_ws_sorted_insert_multiset(wm: Seq<Option<WorkspaceItem>>, s: Seq<usize>, x: usize)
    ensures
        ws_sorted_insert(wm, s, x).to_multiset() == s.to_multiset().insert(x),
        ws_sorted_insert(wm, s, x).len() == s.len() + 1,
    decreases s.len(),
{
    broadcast use vstd::seq_lib::group_to_multiset_ensures;

    let r = ws_sorted_insert(wm, s, x);
    if s.len() == 0 {
        assert(r =~= Seq::<usize>::empty().push(x));
        assert(r.to_multiset() =~= s.to_multiset().insert(x));
    } else if ws_key_le(wm, s.last(), x) {
        assert(r.to_multiset() =~= s.to_multiset().insert(x));
    } else {
        lemma_ws_sorted_insert_multiset(wm, s.drop_last(), x);
        let inner = ws_sorted_insert(wm, s.drop_last(), x);
        assert(r == inner.push(s.last()));
        assert(r.to_multiset() == inner.to_multiset().insert(s.last()));
        assert(s.drop_last().push(s.last()) =~= s);
        assert(s.to_multiset() == s.drop_last().to_multiset().insert(s.last()));
        assert(r.to_multiset() =~= s.to_multiset().insert(x));
    }
}

/// The sort keeps the container's handles.
pub proof fn lemma_ws_spec_sort_multiset(wm: Seq<Option<WorkspaceItem>>, s: Seq<usize>)
    ensures
        ws_spec_sort(wm, s).to_multiset() == s.to_multiset(),
        ws_spec_sort(wm, s).len() == s.len(),
    decreases s.len(),
{
    broadcast use vstd::seq_lib::group_to_multiset_ensures;

    if s.len() > 0 {
        lemma_ws_spec_sort_multiset(wm, s.drop_last());
        lemma_ws_sorted_insert_multiset(wm, ws_spec_sort(wm, s.drop_last()), s.last());
        assert(s.drop_last().push(s.last()) =~= s);
        assert(s.to_multiset() == s.drop_last().to_multiset().insert(s.last()));
    }
}

/// Scanning from the right found the insertion point.
pub proof fn lemma_ws_sorted_insert_at(
    wm: Seq<Option<WorkspaceItem>>,
    s: Seq<usize>,
    x: usize,
    p: int,
)
    requires
        0 <= p <= s.len(),
        p == 0 || ws_key_le(wm, s[p - 1], x),
        forall|q: int| p <= q < s.len() ==> !ws_key_le(wm, #[trigger] s[q], x),
    ensures
        ws_sorted_insert(wm, s, x) == s.insert(p, x),
    decreases s.len(),
{
    if s.len() == 0 {
        assert(ws_sorted_insert(wm, s, x) =~= s.insert(0, x));
    } else if p == s.len() {
        assert(ws_key_le(wm, s.last(), x));
        assert(ws_sorted_insert(wm, s, x) =~= s.insert(p, x));
    } else {
        assert(!ws_key_le(wm, s.last(), x));
        assert forall|q: int| p <= q < s.drop_last().len() implies !ws_key_le(
            wm,
            #[trigger] s.drop_last()[q],
            x,
        ) by {
            assert(s.drop_last()[q] == s[q]);
        }
        if p > 0 {
            assert(s.drop_last()[p - 1] == s[p - 1]);
        }
        lemma_ws_sorted_insert_at(wm, s.drop_last(), x, p);
        assert(ws_sorted_insert(wm, s, x) == s.drop_last().insert(p, x).push(s.last()));
        assert(s.drop_last().insert(p, x).push(s.last()) =~= s.insert(p, x));
    }
}

impl App {
    /// Whether workspace `a`'s description comes no later than `b`'s.
    fn ws_key_le_exec(&self, a: usize, b: usize) -> (r: bool)
        requires
            ws_live(self.slot_map_store.workspaces_map@, a as int),
            ws_live(self.slot_map_store.workspaces_map@, b as int),
        ensures
            r == ws_key_le(self.slot_map_store.workspaces_map@, a, b),
    {
        let da = {
            let slot = &self.slot_map_store.workspaces_map[a];
            slot.as_ref().unwrap().description.clone()
        };
        let db = {
            let slot = &self.slot_map_store.workspaces_map[b];
            slot.as_ref().unwrap().description.clone()
        };
        str_le(&da, &db)
    }

    /// Stable-sort a list of workspace handles by description.
    fn sort_workspaces(&self, v: &mut Vec<usize>)
        requires
            self.wf(),
            forall|i: int|
                0 <= i < old(v)@.len() ==> ws_live(
                    self.slot_map_store.workspaces_map@,
                    #[trigger] old(v)@[i] as int,
                ),
        ensures
            final(v)@ == ws_spec_sort(self.slot_map_store.workspaces_map@, old(v)@),
    {
        let ghost wm = self.slot_map_store.workspaces_map@;
        let mut out: Vec<usize> = Vec::new();
        let mut i: usize = 0;
        while i < v.len()
            invariant
                self.wf(),
                wm == self.slot_map_store.workspaces_map@,
                v@ == old(v)@,
                i <= v@.len(),
                forall|q: int| 0 <= q < v@.len() ==> ws_live(wm, #[trigger] v@[q] as int),
                forall|q: int| 0 <= q < out@.len() ==> ws_live(wm, #[trigger] out@[q] as int),
                out@ == ws_spec_sort(wm, v@.take(i as int)),
            decreases v@.len() - i,
        {
            let x = v[i];
            let mut p: usize = out.len();
            let mut scanning = true;
            while scanning && p > 0
                invariant
                    self.wf(),
                    wm == self.slot_map_store.workspaces_map@,
                    p <= out@.len(),
                    ws_live(wm, x as int),
                    forall|q: int| 0 <= q < out@.len() ==> ws_live(wm, #[trigger] out@[q] as int),
                    forall|q: int| p <= q < out@.len() ==> !ws_key_le(wm, #[trigger] out@[q], x),
                    !scanning ==> p > 0 && ws_key_le(wm, out@[p - 1], x),
                decreases p + (if scanning {
                    1int
                } else {
                    0int
                }),
            {
                let keep = self.ws_key_le_exec(out[p - 1], x);
                if keep {
                    scanning = false;
                } else {
                    p = p - 1;
                }
            }
            proof {
                lemma_ws_sorted_insert_at(wm, out@, x, p as int);
            }
            out.insert(p, x);
            proof {
                assert(v@.take(i as int).push(v@[i as int]) =~= v@.take(i as int + 1));
                assert(v@.take(i as int + 1).drop_last() =~= v@.take(i as int));
                assert(v@.take(i as int + 1).last() == v@[i as int]);
                assert(ws_spec_sort(wm, v@.take(i as int + 1)) == ws_sorted_insert(
                    wm,
                    ws_spec_sort(wm, v@.take(i as int)),
                    v@[i as int],
                ));
            }
            i += 1;
        }
        proof {
            assert(v@.take(i as int) =~= v@);
        }
        *v = out;
    }

    /// Arm a sort on the selected workspace's container. Nothing happens
    /// with no selection.
    pub fn begin_sort_workspace(&mut self)
        requires
            old(self).wf(),
            old(self).active_screen == Screen::Workspaces,
            old(self).sorting == SortingItem::Idle,
        ensures
            final(self).wf(),
            *final(self) == (App {
                sorting: match old(self).slot_tree_state.selected_workspace {
                    Some(k) => SortingItem::Workspace(k),
                    None => SortingItem::Idle,
                },
                ..*old(self)
            }),
    {
        match self.slot_tree_state.selected_workspace {
            Some(selected) => {
                self.sorting = SortingItem::Workspace(selected);
            },
            None => {},
        }
    }

    /// Resolve an armed workspace sort with one keystroke: 1 reverses the
    /// armed row's whole container, 2 — or any other digit — sorts it by
    /// description; the engine returns to normal mode either way. An armed
    /// handle that is on no row only disarms.
    pub fn sort_choice_workspace(&mut self, n: char)
        requires
            old(self).wf(),
            old(self).active_screen == Screen::Workspaces,
            old(self).sorting matches SortingItem::Workspace(_),
        ensures
            final(self).wf(),
            final(self).sorting == SortingItem::Idle,
            sort_choice_ws_rel(*old(self), *final(self), n),
    {
        let k = match self.sorting {
            SortingItem::Workspace(k) => k,
            _ => 0,
        };
        self.sorting = SortingItem::Idle;
        let ix = find_row(&self.slot_tree_state.ws_tree, k);
        match ix {
            None => {},
            Some(j) => {
                proof {
                    lemma_first_index_agrees(self.slot_tree_state.ws_tree@, k, j as int);
                    lemma_ws_rows_row_source(
                        self.slot_map_store,
                        self.slot_tree_state.ws_opened@,
                        self.slot_map_store.root_workspaces@,
                        j as int,
                    );
                }
                let par = self.slot_tree_state.ws_tree[j].parent;
                let ghost s1 = self.slot_map_store;
                match par {
                    Some(p) => {
                        let c = {
                            let slot = &self.slot_map_store.workspaces_map[p];
                            let it = slot.as_ref().unwrap();
                            copy_keys(&it.children)
                        };
                        proof {
                            assert forall|q: int| 0 <= q < c@.len() implies ws_live(
                                s1.workspaces_map@,
                                #[trigger] c@[q] as int,
                            ) by {
                                assert(ws_bounded(s1.workspaces_map@, p as int, s1.wfuel()));
                                assert(ws_bounded(
                                    s1.workspaces_map@,
                                    ws_at(s1.workspaces_map@, p as int).children@[q] as int,
                                    (s1.wfuel() - 1) as nat,
                                ));
                            }
                            assert forall|i1: int, i2: int|
                                0 <= i1 < i2 < c@.len() implies #[trigger] c@[i1]
                                != #[trigger] c@[i2] by {
                                assert(ws_at(s1.workspaces_map@, p as int).children@[i1] != ws_at(
                                    s1.workspaces_map@,
                                    p as int,
                                ).children@[i2]);
                            }
                        }
                        let nc = if n == '1' {
                            reverse_keys(&c)
                        } else {
                            let mut v = copy_keys(&c);
                            self.sort_workspaces(&mut v);
                            v
                        };
                        proof {
                            if n != '1' {
                                lemma_ws_spec_sort_multiset(s1.workspaces_map@, c@);
                                lemma_no_dup_from_multiset(c@, nc@);
                                broadcast use vstd::seq_lib::group_to_multiset_ensures;

                                assert forall|q: int| 0 <= q < nc@.len() implies c@.contains(
                                    #[trigger] nc@[q],
                                ) by {
                                    assert(nc@.to_multiset().contains(nc@[q]));
                                }
                            } else {
                                assert forall|q: int| 0 <= q < nc@.len() implies c@.contains(
                                    #[trigger] nc@[q],
                                ) by {
                                    assert(nc@[q] == c@[c@.len() - 1 - q]);
                                }
                                assert forall|i1: int, i2: int|
                                    0 <= i1 < i2 < nc@.len() implies #[trigger] nc@[i1]
                                    != #[trigger] nc@[i2] by {
                                    assert(nc@[i1] == c@[c@.len() - 1 - i1]);
                                    assert(nc@[i2] == c@[c@.len() - 1 - i2]);
                                    assert(ws_at(
                                        s1.workspaces_map@,
                                        p as int,
                                    ).children@[c@.len() - 1 - i2] != ws_at(
                                        s1.workspaces_map@,
                                        p as int,
                                    ).children@[c@.len() - 1 - i1]);
                                }
                            }
                        }
                        let slot = &mut self.slot_map_store.workspaces_map[p];
                        match slot {
                            Some(it) => {
                                it.children = nc;
                            },
                            None => {},
                        }
                        proof {
                            lemma_ws_children_container_set(s1, self.slot_map_store, p as int);
                        }
                    },
                    None => {
                        let c = copy_keys(&self.slot_map_store.root_workspaces);
                        proof {
                            assert forall|q: int| 0 <= q < c@.len() implies ws_live(
                                s1.workspaces_map@,
                                #[trigger] c@[q] as int,
                            ) by {
                                assert(ws_live(
                                    s1.workspaces_map@,
                                    s1.root_workspaces@[q] as int,
                                ));
                            }
                            assert forall|i1: int, i2: int|
                                0 <= i1 < i2 < c@.len() implies #[trigger] c@[i1]
                                != #[trigger] c@[i2] by {
                                assert(s1.root_workspaces@[i1] != s1.root_workspaces@[i2]);
                            }
                        }
                        let nc = if n == '1' {
                            reverse_keys(&c)
                        } else {
                            let mut v = copy_keys(&c);
                            self.sort_workspaces(&mut v);
                            v
                        };
                        proof {
                            if n != '1' {
                                lemma_ws_spec_sort_multiset(s1.workspaces_map@, c@);
                                lemma_no_dup_from_multiset(c@, nc@);
                                broadcast use vstd::seq_lib::group_to_multiset_ensures;

                                assert forall|q: int| 0 <= q < nc@.len() implies c@.contains(
                                    #[trigger] nc@[q],
                                ) by {
                                    assert(nc@.to_multiset().contains(nc@[q]));
                                }
                            } else {
                                assert forall|q: int| 0 <= q < nc@.len() implies c@.contains(
                                    #[trigger] nc@[q],
                                ) by {
                                    assert(nc@[q] == c@[c@.len() - 1 - q]);
                                }
                                assert forall|i1: int, i2: int|
                                    0 <= i1 < i2 < nc@.len() implies #[trigger] nc@[i1]
                                    != #[trigger] nc@[i2] by {
                                    assert(nc@[i1] == c@[c@.len() - 1 - i1]);
                                    assert(nc@[i2] == c@[c@.len() - 1 - i2]);
                                    assert(s1.root_workspaces@[c@.len() - 1 - i2]
                                        != s1.root_workspaces@[c@.len() - 1 - i1]);
                                }
                            }
                        }
                        self.slot_map_store.root_workspaces = nc;
                        proof {
                            lemma_roots_container_set(s1, self.slot_map_store);
                        }
                    },
                }
                self.slot_tree_state.selected_todo = None;
                self.slot_tree_state.update_workspace_tree_state(&self.slot_map_store);
            },
        }
    }
}

/// What a resolved workspace sort does to the armed row's container:
/// reversed for 1, sorted by description otherwise; nothing moves when the
/// armed handle is on no row.
pub open spec fn sort_choice_ws_rel(a: App, b: App, n: char) -> bool {
    let k = a.sorting->Workspace_0;
    let rows = a.slot_tree_state.ws_tree@;
    if !row_keys(rows).contains(k) {
        &&& b.slot_map_store == a.slot_map_store
        &&& b.slot_tree_state.ws_tree@ == a.slot_tree_state.ws_tree@
        &&& pane_frame(a, b)
        &&& b.slot_tree_state.selected_todo == a.slot_tree_state.selected_todo
    } else {
        let j = first_index(row_keys(rows), k);
        let wm1 = a.slot_map_store.workspaces_map@;
        &&& pane_frame(a, b)
        &&& b.slot_tree_state.selected_todo is None
        &&& match rows[j].parent {
            Some(p) => {
                let c1 = ws_at(wm1, p as int).children@;
                &&& b.slot_map_store.todos_map == a.slot_map_store.todos_map
                &&& b.slot_map_store.root_workspaces == a.slot_map_store.root_workspaces
                &&& ws_at(b.slot_map_store.workspaces_map@, p as int).children@ == (if n == '1' {
                    c1.reverse()
                } else {
                    ws_spec_sort(wm1, c1)
                })
                &&& forall|q: int|
                    0 <= q < wm1.len() && q != p ==> b.slot_map_store.workspaces_map@[q]
                        == #[trigger] wm1[q]
            },
            None => {
                let c1 = a.slot_map_store.root_workspaces@;
                &&& b.slot_map_store.todos_map == a.slot_map_store.todos_map
                &&& b.slot_map_store.workspaces_map == a.slot_map_store.workspaces_map
                &&& b.slot_map_store.root_workspaces@ == (if n == '1' {
                    c1.reverse()
                } else {
                    ws_spec_sort(wm1, c1)
                })
            },
        }
    }
}

impl App {
    /// Swap the selected workspace with the sibling before it in its own
    /// container; at the top — or with no selection on a visible row —
    /// nothing moves.
    pub fn swap_workspace_up(&mut self)
        requires
            old(self).wf(),
            old(self).active_screen == Screen::Workspaces,
            old(self).sorting == SortingItem::Idle,
        ensures
            final(self).wf(),
            swap_ws_rel(*old(self), *final(self), true),
    {
        self.swap_workspace(true);
    }

    /// Swap the selected workspace with the sibling after it; at the bottom
    /// — or with no selection on a visible row — nothing moves.
    pub fn swap_workspace_down(&mut self)
        requires
            old(self).wf(),
            old(self).active_screen == Screen::Workspaces,
            old(self).sorting == SortingItem::Idle,
        ensures
            final(self).wf(),
            swap_ws_rel(*old(self), *final(self), false),
    {
        self.swap_workspace(false);
    }

    /// The shared walk of both workspace swaps.
    fn swap_workspace(&mut self, up: bool)
        requires
            old(self).wf(),
            old(self).active_screen == Screen::Workspaces,
            old(self).sorting == SortingItem::Idle,
        ensures
            final(self).wf(),
            swap_ws_rel(*old(self), *final(self), up),
    {
        let t = match self.slot_tree_state.selected_workspace {
            Some(t) => t,
            None => {
                return ;
            },
        };
        let j = match find_row(&self.slot_tree_state.ws_tree, t) {
            Some(j) => j,
            None => {
                return ;
            },
        };
        proof {
            lemma_first_index_agrees(self.slot_tree_state.ws_tree@, t, j as int);
            lemma_ws_rows_row_source(
                self.slot_map_store,
                self.slot_tree_state.ws_opened@,
                self.slot_map_store.root_workspaces@,
                j as int,
            );
        }
        let par = self.slot_tree_state.ws_tree[j].parent;
        let ghost s1 = self.slot_map_store;
        match par {
            Some(p) => {
                let (pos, mut nc) = {
                    let slot = &self.slot_map_store.workspaces_map[p];
                    let it = slot.as_ref().unwrap();
                    let q = match position_usize(&it.children, t) {
                        Some(q) => q,
                        None => 0,
                    };
                    (q, copy_keys(&it.children))
                };
                proof {
                    lemma_first_index_usize(
                        ws_at(s1.workspaces_map@, p as int).children@,
                        t,
                        pos as int,
                    );
                }
                let ln = nc.len();
                let other = if up {
                    if pos == 0 {
                        return ;
                    }
                    pos - 1
                } else {
                    if pos >= ln - 1 {
                        return ;
                    }
                    pos + 1
                };
                let a = nc[pos];
                let b = nc[other];
                nc[pos] = b;
                nc[other] = a;
                proof {
                    let c1 = ws_at(s1.workspaces_map@, p as int).children@;
                    assert forall|q: int| 0 <= q < nc@.len() implies c1.contains(
                        #[trigger] nc@[q],
                    ) by {
                        if q == pos {
                            assert(nc@[q] == c1[other as int]);
                        } else if q == other {
                            assert(nc@[q] == c1[pos as int]);
                        } else {
                            assert(nc@[q] == c1[q]);
                        }
                    }
                    assert forall|i1: int, i2: int|
                        0 <= i1 < i2 < nc@.len() implies #[trigger] nc@[i1]
                        != #[trigger] nc@[i2] by {
                        let m1 = if i1 == pos {
                            other as int
                        } else if i1 == other {
                            pos as int
                        } else {
                            i1
                        };
                        let m2 = if i2 == pos {
                            other as int
                        } else if i2 == other {
                            pos as int
                        } else {
                            i2
                        };
                        assert(nc@[i1] == c1[m1]);
                        assert(nc@[i2] == c1[m2]);
                        if m1 < m2 {
                            assert(ws_at(s1.workspaces_map@, p as int).children@[m1] != ws_at(
                                s1.workspaces_map@,
                                p as int,
                            ).children@[m2]);
                        } else {
                            assert(ws_at(s1.workspaces_map@, p as int).children@[m2] != ws_at(
                                s1.workspaces_map@,
                                p as int,
                            ).children@[m1]);
                        }
                    }
                }
                let slot = &mut self.slot_map_store.workspaces_map[p];
                match slot {
                    Some(it) => {
                        it.children = nc;
                    },
                    None => {},
                }
                proof {
                    lemma_ws_children_container_set(s1, self.slot_map_store, p as int);
                }
            },
            None => {
                let pos = match position_usize(&self.slot_map_store.root_workspaces, t) {
                    Some(q) => q,
                    None => 0,
                };
                proof {
                    lemma_first_index_usize(s1.root_workspaces@, t, pos as int);
                }
                let mut nc = copy_keys(&self.slot_map_store.root_workspaces);
                let ln = nc.len();
                let other = if up {
                    if pos == 0 {
                        return ;
                    }
                    pos - 1
                } else {
                    if pos >= ln - 1 {
                        return ;
                    }
                    pos + 1
                };
                let a = nc[pos];
                let b = nc[other];
                nc[pos] = b;
                nc[other] = a;
                proof {
                    let c1 = s1.root_workspaces@;
                    assert forall|q: int| 0 <= q < nc@.len() implies c1.contains(
                        #[trigger] nc@[q],
                    ) by {
                        if q == pos {
                            assert(nc@[q] == c1[other as int]);
                        } else if q == other {
                            assert(nc@[q] == c1[pos as int]);
                        } else {
                            assert(nc@[q] == c1[q]);
                        }
                    }
                    assert forall|i1: int, i2: int|
                        0 <= i1 < i2 < nc@.len() implies #[trigger] nc@[i1]
                        != #[trigger] nc@[i2] by {
                        let m1 = if i1 == pos {
                            other as int
                        } else if i1 == other {
                            pos as int
                        } else {
                            i1
                        };
                        let m2 = if i2 == pos {
                            other as int
                        } else if i2 == other {
                            pos as int
                        } else {
                            i2
                        };
                        assert(nc@[i1] == c1[m1]);
                        assert(nc@[i2] == c1[m2]);
                        if m1 < m2 {
                            assert(s1.root_workspaces@[m1] != s1.root_workspaces@[m2]);
                        } else {
                            assert(s1.root_workspaces@[m2] != s1.root_workspaces@[m1]);
                        }
                    }
                }
                self.slot_map_store.root_workspaces = nc;
                proof {
                    lemma_roots_container_set(s1, self.slot_map_store);
                }
            },
        }
        self.slot_tree_state.update_workspace_tree_state(&self.slot_map_store);
    }
}

/// What a workspace sibling swap does: the selection and its neighbour
/// change places in their container; at a boundary, off a visible row, or
/// with no selection, nothing changes.
pub open spec fn swap_ws_rel(a: App, b: App, up: bool) -> bool {
    match a.slot_tree_state.selected_workspace {
        None => b == a,
        Some(t) => {
            let rows = a.slot_tree_state.ws_tree@;
            if !row_keys(rows).contains(t) {
                b == a
            } else {
                let j = first_index(row_keys(rows), t);
                let wm1 = a.slot_map_store.workspaces_map@;
                match rows[j].parent {
                    Some(p) => {
                        let c1 = ws_at(wm1, p as int).children@;
                        let pos = first_index(c1, t);
                        if (up && pos == 0) || (!up && pos + 1 >= c1.len()) {
                            b == a
                        } else {
                            let other = if up {
                                pos - 1
                            } else {
                                pos + 1
                            };
                            &&& b.slot_map_store.todos_map == a.slot_map_store.todos_map
                            &&& b.slot_map_store.root_workspaces
                                == a.slot_map_store.root_workspaces
                            &&& ws_at(b.slot_map_store.workspaces_map@, p as int).children@
                                == c1.update(pos, c1[other]).update(other, c1[pos])
                            &&& forall|q: int|
                                0 <= q < wm1.len() && q != p
                                    ==> b.slot_map_store.workspaces_map@[q] == #[trigger] wm1[q]
                            &&& pane_frame(a, b)
                            &&& b.sorting == a.sorting
                            &&& b.slot_tree_state.selected_todo == a.slot_tree_state.selected_todo
                        }
                    },
                    None => {
                        let c1 = a.slot_map_store.root_workspaces@;
                        let pos = first_index(c1, t);
                        if (up && pos == 0) || (!up && pos + 1 >= c1.len()) {
                            b == a
                        } else {
                            let other = if up {
                                pos - 1
                            } else {
                                pos + 1
                            };
                            &&& b.slot_map_store.todos_map == a.slot_map_store.todos_map
                            &&& b.slot_map_store.workspaces_map
                                == a.slot_map_store.workspaces_map
                            &&& b.slot_map_store.root_workspaces@
                                == c1.update(pos, c1[other]).update(other, c1[pos])
                            &&& pane_frame(a, b)
                            &&& b.sorting == a.sorting
                            &&& b.slot_tree_state.selected_todo == a.slot_tree_state.selected_todo
                        }
                    },
                }
            }
        },
    }
}

/// Attaching several fresh subtrees — each bounded by the whole fresh
/// region — below one node keeps every old tree bounded, at fuel grown by
/// the region's.
pub proof fn lemma_todo_bounded_attach_list(
    tm1: Seq<Option<TodoItem>>,
    tm2: Seq<Option<TodoItem>>,
    p: int,
    at: int,
    roots: Seq<usize>,
    k: int,
    f: nat,
    g: nat,
)
    requires
        tm1.len() <= tm2.len(),
        forall|j: int| 0 <= j < tm1.len() && j != p ==> tm2[j] == #[trigger] tm1[j],
        todo_live(tm1, p),
        todo_live(tm2, p),
        0 <= at <= todo_at(tm1, p).children@.len(),
        todo_at(tm2, p).children@ == todo_at(tm1, p).children@.take(at) + roots + todo_at(
            tm1,
            p,
        ).children@.skip(at),
        forall|i: int| 0 <= i < roots.len() ==> todo_bounded(tm2, #[trigger] roots[i] as int, g),
        todo_bounded(tm1, k, f),
    ensures
        todo_bounded(tm2, k, (f + g) as nat),
    decreases f,
{
    let c1 = todo_at(tm1, k).children@;
    let c2 = todo_at(tm2, k).children@;
    if k != p {
        assert(tm2[k] == tm1[k]);
    }
    assert forall|i: int| 0 <= i < c2.len() implies todo_bounded(
        tm2,
        #[trigger] c2[i] as int,
        (f + g - 1) as nat,
    ) by {
        if k == p {
            let m = roots.len() as int;
            if i < at {
                assert(c2[i] == c1[i]);
                assert(todo_bounded(tm1, c1[i] as int, (f - 1) as nat));
                lemma_todo_bounded_attach_list(tm1, tm2, p, at, roots, c1[i] as int, (f - 1) as nat, g);
            } else if i < at + m {
                assert(c2[i] == roots[i - at]);
                lemma_todo_v_fuel(tm2, roots[i - at] as int, g, (f + g - 1) as nat);
            } else {
                assert(c2[i] == c1[i - m]);
                assert(todo_bounded(tm1, c1[i - m] as int, (f - 1) as nat));
                lemma_todo_bounded_attach_list(
                    tm1,
                    tm2,
                    p,
                    at,
                    roots,
                    c1[i - m] as int,
                    (f - 1) as nat,
                    g,
                );
            }
        } else {
            assert(c2[i] == c1[i]);
            assert(todo_bounded(tm1, c1[i] as int, (f - 1) as nat));
            lemma_todo_bounded_attach_list(tm1, tm2, p, at, roots, c1[i] as int, (f - 1) as nat, g);
        }
    }
}

/// How a store follows from another by growing the todo arena with a fresh
/// self-contained forest and splicing its roots, in order, at position `at`
/// of one owner — the children of todo `p`, or the todos of workspace `w`.
pub open spec fn attach_todos_shape(
    s1: SlotMapStore,
    s2: SlotMapStore,
    owner_todo: Option<usize>,
    w: usize,
    at: int,
    roots: Seq<usize>,
) -> bool {
    let tm1 = s1.todos_map@;
    let tm2 = s2.todos_map@;
    &&& s2.root_workspaces == s1.root_workspaces
    &&& tm1.len() < tm2.len()
    &&& roots.len() > 0
    &&& crate::arena::todo_region_wf(tm2, tm1.len() as int, tm2.len() as int)
    &&& forall|i: int|
        0 <= i < roots.len() ==> tm1.len() <= #[trigger] roots[i] < tm2.len()
    &&& forall|i1: int, i2: int|
        0 <= i1 < i2 < roots.len() ==> #[trigger] roots[i1] < #[trigger] roots[i2]
    &&& forall|i: int|
        0 <= i < roots.len() ==> crate::arena::todo_unreferenced_in(
            tm2,
            #[trigger] roots[i],
            tm1.len() as int,
            tm2.len() as int,
        )
    &&& forall|i: int|
        0 <= i < roots.len() ==> todo_bounded(
            tm2,
            #[trigger] roots[i] as int,
            (tm2.len() - tm1.len()) as nat,
        )
    &&& forall|j: int|
        tm1.len() <= j < tm2.len() ==> #[trigger] todo_bounded(
            tm2,
            j,
            (tm2.len() + 1) as nat,
        )
    &&& match owner_todo {
        Some(p) => {
            &&& s2.workspaces_map == s1.workspaces_map
            &&& todo_live(tm1, p as int)
            &&& 0 <= at <= todo_at(tm1, p as int).children@.len()
            &&& forall|j: int|
                0 <= j < tm1.len() && j != p ==> tm2[j] == #[trigger] tm1[j]
            &&& todo_live(tm2, p as int)
            &&& todo_at(tm2, p as int) == (TodoItem {
                children: todo_at(tm2, p as int).children,
                ..todo_at(tm1, p as int)
            })
            &&& todo_at(tm2, p as int).children@ == todo_at(tm1, p as int).children@.take(at)
                + roots + todo_at(tm1, p as int).children@.skip(at)
        },
        None => {
            &&& forall|j: int| 0 <= j < tm1.len() ==> tm2[j] == #[trigger] tm1[j]
            &&& ws_live(s1.workspaces_map@, w as int)
            &&& 0 <= at <= ws_at(s1.workspaces_map@, w as int).todos@.len()
            &&& s2.workspaces_map@.len() == s1.workspaces_map@.len()
            &&& forall|q: int|
                0 <= q < s1.workspaces_map@.len() && q != w ==> s2.workspaces_map@[q]
                    == #[trigger] s1.workspaces_map@[q]
            &&& ws_live(s2.workspaces_map@, w as int)
            &&& ws_at(s2.workspaces_map@, w as int) == (WorkspaceItem {
                todos: ws_at(s2.workspaces_map@, w as int).todos,
                ..ws_at(s1.workspaces_map@, w as int)
            })
            &&& ws_at(s2.workspaces_map@, w as int).todos@ == ws_at(
                s1.workspaces_map@,
                w as int,
            ).todos@.take(at) + roots + ws_at(s1.workspaces_map@, w as int).todos@.skip(at)
        },
    }
}

/// Index mapping for a container with a segment of roots spliced at `at`.
pub open spec fn splice_src(at: int, m: int, i: int) -> int {
    if i < at {
        i
    } else {
        i - m
    }
}

/// Every child entry of a live todo of the spliced store is an old live
/// handle at a mapped position, one of the spliced roots, or a region
/// handle owned within the region.
pub proof fn lemma_todos_attach_entry(
    s1: SlotMapStore,
    s2: SlotMapStore,
    owner_todo: Option<usize>,
    w: usize,
    at: int,
    roots: Seq<usize>,
    j: int,
    i: int,
)
    requires
        s1.wf(),
        attach_todos_shape(s1, s2, owner_todo, w, at, roots),
        todo_live(s2.todos_map@, j),
        0 <= i < todo_at(s2.todos_map@, j).children@.len(),
    ensures
        j < s1.todos_map@.len() || s1.todos_map@.len() <= todo_at(
            s2.todos_map@,
            j,
        ).children@[i] < j,
        j < s1.todos_map@.len() ==> match owner_todo {
            Some(p) => j == p as int && at <= i < at + roots.len() && todo_at(
                s2.todos_map@,
                j,
            ).children@[i] == roots[i - at] || todo_live(
                s1.todos_map@,
                todo_at(s1.todos_map@, j).children@[if j == p as int {
                    splice_src(at, roots.len() as int, i)
                } else {
                    i
                }] as int,
            ) && todo_at(s2.todos_map@, j).children@[i] == todo_at(
                s1.todos_map@,
                j,
            ).children@[if j == p as int {
                splice_src(at, roots.len() as int, i)
            } else {
                i
            }] && todo_at(s1.todos_map@, j).children@[if j == p as int {
                splice_src(at, roots.len() as int, i)
            } else {
                i
            }] < s1.todos_map@.len(),
            None => todo_live(s1.todos_map@, todo_at(s1.todos_map@, j).children@[i] as int)
                && todo_at(s2.todos_map@, j).children@[i] == todo_at(
                s1.todos_map@,
                j,
            ).children@[i] && todo_at(s1.todos_map@, j).children@[i] < s1.todos_map@.len(),
        },
{
    let tm1 = s1.todos_map@;
    let tm2 = s2.todos_map@;
    let a = tm1.len() as int;
    if j >= a {
        assert(crate::arena::handles_in(todo_at(tm2, j).children@, a, j));
    } else {
        match owner_todo {
            Some(p) => {
                if j != p as int {
                    assert(tm2[j] == tm1[j]);
                    lemma_todo_child_entries_live(s1, j, i);
                } else {
                    let m = roots.len() as int;
                    let c1 = todo_at(tm1, p as int).children@;
                    if i < at {
                        assert(todo_at(tm2, j).children@[i] == c1[i]);
                        lemma_todo_child_entries_live(s1, j, i);
                    } else if i < at + m {
                        assert(todo_at(tm2, j).children@[i] == roots[i - at]);
                    } else {
                        assert(todo_at(tm2, j).children@[i] == c1[i - m]);
                        lemma_todo_child_entries_live(s1, j, i - m);
                    }
                }
            },
            None => {
                assert(tm2[j] == tm1[j]);
                lemma_todo_child_entries_live(s1, j, i);
            },
        }
    }
}

/// Growing the todo arena by a fresh forest and splicing its roots under one
/// owner keeps the store consistent and the workspace pane unchanged.
#[verifier::rlimit(100)]
pub proof fn lemma_todos_attach(
    s1: SlotMapStore,
    s2: SlotMapStore,
    owner_todo: Option<usize>,
    w: usize,
    at: int,
    roots: Seq<usize>,
    opened_ws: Seq<usize>,
)
    requires
        s1.wf(),
        attach_todos_shape(s1, s2, owner_todo, w, at, roots),
    ensures
        s2.wf(),
        ws_rows(s2, opened_ws) == ws_rows(s1, opened_ws),
        forall|j: int| ws_live(s2.workspaces_map@, j) == ws_live(s1.workspaces_map@, j),
        forall|j: int| todo_live(s1.todos_map@, j) ==> todo_live(s2.todos_map@, j),
    decreases 1int,
{
    let tm1 = s1.todos_map@;
    let tm2 = s2.todos_map@;
    let wm1 = s1.workspaces_map@;
    let wm2 = s2.workspaces_map@;
    let a = tm1.len() as int;
    let b = tm2.len() as int;
    let g = (b - a) as nat;
    let m = roots.len() as int;
    let p_or = owner_todo;
    assert forall|j: int| todo_live(tm1, j) implies todo_live(tm2, j) by {
        if match p_or {
            Some(p) => j != p,
            None => true,
        } {
            assert(tm2[j] == tm1[j]);
        }
    }
    assert forall|j: int| ws_live(wm2, j) == ws_live(wm1, j) by {
        match p_or {
            Some(p) => {},
            None => {
                if 0 <= j < wm1.len() && j != w {
                    assert(wm2[j] == wm1[j]);
                }
            },
        }
    }
    assert forall|j: int, i: int|
        todo_live(tm1, j) && 0 <= i < todo_at(tm1, j).children@.len() implies todo_live(
            tm1,
            #[trigger] todo_at(tm1, j).children@[i] as int,
        ) by {
        lemma_todo_child_entries_live(s1, j, i);
    }
    assert forall|k: int| todo_live(tm2, k) implies #[trigger] todo_bounded(
        tm2,
        k,
        s2.tfuel(),
    ) by {
        if a <= k < b {
            assert(todo_bounded(tm2, k, (b + 1) as nat));
        } else {
            assert(todo_live(tm1, k));
            assert(todo_bounded(tm1, k, s1.tfuel()));
            match p_or {
                Some(p) => {
                    lemma_todo_bounded_attach_list(
                        tm1,
                        tm2,
                        p as int,
                        at,
                        roots,
                        k,
                        s1.tfuel(),
                        g,
                    );
                },
                None => {
                    lemma_todo_v_extend(tm1, tm2, k, s1.tfuel());
                    lemma_todo_v_fuel(tm2, k, s1.tfuel(), s2.tfuel());
                },
            }
        }
    }
    assert forall|k: int| ws_live(wm2, k) implies #[trigger] ws_bounded(wm2, k, s2.wfuel()) by {
        match p_or {
            Some(p) => {
                assert(ws_bounded(wm1, k, s1.wfuel()));
            },
            None => {
                assert forall|j: int| ws_live(wm1, j) implies (#[trigger] ws_at(
                    wm2,
                    j,
                )).children@ == ws_at(wm1, j).children@ by {
                    if j != w {
                        assert(wm2[j] == wm1[j]);
                    }
                }
                assert(crate::arena::ws_children_same(wm1, wm2));
                crate::arena::lemma_ws_bounded_links(wm1, wm2, k, s1.wfuel());
            },
        }
    }
    assert forall|k: int| ws_live(wm2, k) implies forall|i: int|
        0 <= i < ws_at(wm2, k).todos@.len() ==> todo_live(
            tm2,
            #[trigger] ws_at(wm2, k).todos@[i] as int,
        ) by {
        assert forall|i: int| 0 <= i < ws_at(wm2, k).todos@.len() implies todo_live(
            tm2,
            #[trigger] ws_at(wm2, k).todos@[i] as int,
        ) by {
            match p_or {
                Some(p) => {
                    assert(todo_live(tm1, ws_at(wm1, k).todos@[i] as int));
                },
                None => {
                    if k != w {
                        assert(wm2[k] == wm1[k]);
                        assert(todo_live(tm1, ws_at(wm1, k).todos@[i] as int));
                    } else {
                        let t1 = ws_at(wm1, w as int).todos@;
                        if i < at {
                            assert(ws_at(wm2, k).todos@[i] == t1[i]);
                            assert(todo_live(tm1, t1[i] as int));
                        } else if i < at + m {
                            assert(ws_at(wm2, k).todos@[i] == roots[i - at]);
                        } else {
                            assert(ws_at(wm2, k).todos@[i] == t1[i - m]);
                            assert(todo_live(tm1, t1[i - m] as int));
                        }
                    }
                },
            }
        }
    }
    assert forall|i: int| 0 <= i < s2.root_workspaces@.len() implies ws_live(
        wm2,
        #[trigger] s2.root_workspaces@[i] as int,
    ) by {
        assert(ws_live(wm1, s1.root_workspaces@[i] as int));
    }
    assert(s2.links_ok());
    assert forall|j1: int, i1: int, j2: int, i2: int|
        todo_live(tm2, j1) && todo_live(tm2, j2) && 0 <= i1 < todo_at(tm2, j1).children@.len()
            && 0 <= i2 < todo_at(tm2, j2).children@.len() && (j1 != j2 || i1 != i2)
        implies #[trigger] todo_at(tm2, j1).children@[i1] != #[trigger] todo_at(
            tm2,
            j2,
        ).children@[i2] by {
        lemma_todos_attach_entry(s1, s2, p_or, w, at, roots, j1, i1);
        lemma_todos_attach_entry(s1, s2, p_or, w, at, roots, j2, i2);
        let e1 = todo_at(tm2, j1).children@[i1];
        let e2 = todo_at(tm2, j2).children@[i2];
        if j1 < a && j2 < a {
            match p_or {
                Some(p) => {
                    let r1 = j1 == p as int && at <= i1 < at + m;
                    let r2 = j2 == p as int && at <= i2 < at + m;
                    if r1 && r2 {
                        assert(e1 == roots[i1 - at]);
                        assert(e2 == roots[i2 - at]);
                        if i1 < i2 {
                            assert(roots[i1 - at] != roots[i2 - at]);
                        } else if i2 < i1 {
                            assert(roots[i2 - at] != roots[i1 - at]);
                        }
                    } else if r1 {
                        assert(e1 == roots[i1 - at]);
                        assert(e2 < a);
                    } else if r2 {
                        assert(e2 == roots[i2 - at]);
                        assert(e1 < a);
                    } else {
                        let m1 = if j1 == p as int {
                            splice_src(at, m, i1)
                        } else {
                            i1
                        };
                        let m2 = if j2 == p as int {
                            splice_src(at, m, i2)
                        } else {
                            i2
                        };
                        assert(e1 == todo_at(tm1, j1).children@[m1]);
                        assert(e2 == todo_at(tm1, j2).children@[m2]);
                        assert((j1, m1) != (j2, m2));
                        assert(todo_at(tm1, j1).children@[m1] != todo_at(tm1, j2).children@[m2]);
                    }
                },
                None => {
                    assert(tm2[j1] == tm1[j1]);
                    assert(tm2[j2] == tm1[j2]);
                    assert(todo_at(tm1, j1).children@[i1] != todo_at(tm1, j2).children@[i2]);
                },
            }
        }
    }
    assert forall|j1: int, i1: int, j2: int, i2: int|
        ws_live(wm2, j1) && ws_live(wm2, j2) && 0 <= i1 < ws_at(wm2, j1).todos@.len() && 0 <= i2
            < ws_at(wm2, j2).todos@.len() && (j1 != j2 || i1 != i2) implies #[trigger] ws_at(
            wm2,
            j1,
        ).todos@[i1] != #[trigger] ws_at(wm2, j2).todos@[i2] by {
        match p_or {
            Some(p) => {
                assert(ws_at(wm1, j1).todos@[i1] != ws_at(wm1, j2).todos@[i2]);
            },
            None => {
                let w1 = j1 == w as int;
                let w2 = j2 == w as int;
                if !w1 {
                    assert(wm2[j1] == wm1[j1]);
                }
                if !w2 {
                    assert(wm2[j2] == wm1[j2]);
                }
                let r1 = w1 && at <= i1 < at + m;
                let r2 = w2 && at <= i2 < at + m;
                let t1s = ws_at(wm1, w as int).todos@;
                if r1 && r2 {
                    assert(ws_at(wm2, j1).todos@[i1] == roots[i1 - at]);
                    assert(ws_at(wm2, j2).todos@[i2] == roots[i2 - at]);
                    if i1 < i2 {
                        assert(roots[i1 - at] != roots[i2 - at]);
                    } else if i2 < i1 {
                        assert(roots[i2 - at] != roots[i1 - at]);
                    }
                } else if r1 {
                    assert(ws_at(wm2, j1).todos@[i1] == roots[i1 - at]);
                    let m2 = if !w2 {
                        i2
                    } else {
                        splice_src(at, m, i2)
                    };
                    assert(ws_at(wm2, j2).todos@[i2] == ws_at(wm1, j2).todos@[m2]);
                    assert(todo_live(tm1, ws_at(wm1, j2).todos@[m2] as int));
                    assert(ws_at(wm1, j2).todos@[m2] < a);
                } else if r2 {
                    assert(ws_at(wm2, j2).todos@[i2] == roots[i2 - at]);
                    let m1 = if !w1 {
                        i1
                    } else {
                        splice_src(at, m, i1)
                    };
                    assert(ws_at(wm2, j1).todos@[i1] == ws_at(wm1, j1).todos@[m1]);
                    assert(todo_live(tm1, ws_at(wm1, j1).todos@[m1] as int));
                    assert(ws_at(wm1, j1).todos@[m1] < a);
                } else {
                    let m1 = if !w1 {
                        i1
                    } else {
                        splice_src(at, m, i1)
                    };
                    let m2 = if !w2 {
                        i2
                    } else {
                        splice_src(at, m, i2)
                    };
                    assert(ws_at(wm2, j1).todos@[i1] == ws_at(wm1, j1).todos@[m1]);
                    assert(ws_at(wm2, j2).todos@[i2] == ws_at(wm1, j2).todos@[m2]);
                    assert((j1, m1) != (j2, m2));
                    assert(ws_at(wm1, j1).todos@[m1] != ws_at(wm1, j2).todos@[m2]);
                }
            },
        }
    }
    assert forall|j1: int, i1: int, j2: int, i2: int|
        ws_live(wm2, j1) && todo_live(tm2, j2) && 0 <= i1 < ws_at(wm2, j1).todos@.len() && 0 <= i2
            < todo_at(tm2, j2).children@.len() implies #[trigger] ws_at(wm2, j1).todos@[i1]
            != #[trigger] todo_at(tm2, j2).children@[i2] by {
        lemma_todos_attach_entry(s1, s2, p_or, w, at, roots, j2, i2);
        let e2 = todo_at(tm2, j2).children@[i2];
        match p_or {
            Some(p) => {
                assert(ws_at(wm2, j1).todos@[i1] == ws_at(wm1, j1).todos@[i1]);
                assert(todo_live(tm1, ws_at(wm1, j1).todos@[i1] as int));
                assert(ws_at(wm1, j1).todos@[i1] < a);
                if j2 < a {
                    if j2 == p as int && at <= i2 < at + m {
                        assert(e2 == roots[i2 - at]);
                        assert(e2 >= a);
                    } else {
                        let m2 = if j2 == p as int {
                            splice_src(at, m, i2)
                        } else {
                            i2
                        };
                        assert(e2 == todo_at(tm1, j2).children@[m2]);
                        assert(ws_at(wm1, j1).todos@[i1] != todo_at(tm1, j2).children@[m2]);
                    }
                }
            },
            None => {
                let w1 = j1 == w as int;
                if !w1 {
                    assert(wm2[j1] == wm1[j1]);
                }
                if j2 < a {
                    assert(tm2[j2] == tm1[j2]);
                }
                if w1 && at <= i1 < at + m {
                    assert(ws_at(wm2, j1).todos@[i1] == roots[i1 - at]);
                    if j2 < a {
                        assert(todo_live(tm1, e2 as int));
                        assert(e2 < a);
                    } else {
                        assert(crate::arena::todo_unreferenced_in(tm2, roots[i1 - at], a, b));
                    }
                } else {
                    let m1 = if !w1 {
                        i1
                    } else {
                        splice_src(at, m, i1)
                    };
                    assert(ws_at(wm2, j1).todos@[i1] == ws_at(wm1, j1).todos@[m1]);
                    assert(todo_live(tm1, ws_at(wm1, j1).todos@[m1] as int));
                    if j2 < a {
                        assert(ws_at(wm1, j1).todos@[m1] != todo_at(tm1, j2).children@[i2]);
                    } else {
                        assert(ws_at(wm1, j1).todos@[m1] < a);
                        assert(e2 >= a);
                    }
                }
            },
        }
    }
    assert(s2.todo_owners_ok());
    assert forall|j1: int, i1: int, j2: int, i2: int|
        ws_live(wm2, j1) && ws_live(wm2, j2) && 0 <= i1 < ws_at(wm2, j1).children@.len() && 0 <= i2
            < ws_at(wm2, j2).children@.len() && (j1 != j2 || i1 != i2) implies #[trigger] ws_at(
            wm2,
            j1,
        ).children@[i1] != #[trigger] ws_at(wm2, j2).children@[i2] by {
        match p_or {
            Some(p) => {
                assert(ws_at(wm1, j1).children@[i1] != ws_at(wm1, j2).children@[i2]);
            },
            None => {
                if j1 != w as int {
                    assert(wm2[j1] == wm1[j1]);
                }
                if j2 != w as int {
                    assert(wm2[j2] == wm1[j2]);
                }
                assert(ws_at(wm2, j1).children@ == ws_at(wm1, j1).children@);
                assert(ws_at(wm2, j2).children@ == ws_at(wm1, j2).children@);
                assert(ws_at(wm1, j1).children@[i1] != ws_at(wm1, j2).children@[i2]);
            },
        }
    }
    assert forall|i: int, j: int, i2: int|
        0 <= i < s2.root_workspaces@.len() && ws_live(wm2, j) && 0 <= i2 < ws_at(
            wm2,
            j,
        ).children@.len() implies #[trigger] s2.root_workspaces@[i] != #[trigger] ws_at(
            wm2,
            j,
        ).children@[i2] by {
        match p_or {
            Some(p) => {
                assert(s1.root_workspaces@[i] != ws_at(wm1, j).children@[i2]);
            },
            None => {
                if j != w as int {
                    assert(wm2[j] == wm1[j]);
                }
                assert(ws_at(wm2, j).children@ == ws_at(wm1, j).children@);
                assert(s1.root_workspaces@[i] != ws_at(wm1, j).children@[i2]);
            },
        }
    }
    assert(s2.ws_owners_ok());
    match p_or {
        Some(p) => {
            assert(crate::arena::ws_children_same(wm1, wm2));
            crate::tree::lemma_ws_rows_links(s1, s2, opened_ws);
        },
        None => {
            assert forall|j: int| ws_live(wm1, j) implies (#[trigger] ws_at(wm2, j)).children@
                == ws_at(wm1, j).children@ by {
                if j != w as int {
                    assert(wm2[j] == wm1[j]);
                }
            }
            assert(crate::arena::ws_children_same(wm1, wm2));
            crate::tree::lemma_ws_rows_links(s1, s2, opened_ws);
        },
    }
}

/// The container slot the cursor paste writes: the parent todo named on the
/// selection's row, when there is one; pastes into a workspace's list leave
/// the todo arena's old slots untouched altogether.
pub open spec fn paste_cursor_owner(a: App) -> Option<usize> {
    let rows = a.slot_tree_state.todo_tree@;
    match a.slot_tree_state.selected_todo {
        Some(t) => if row_keys(rows).contains(t) {
            rows[first_index(row_keys(rows), t)].parent
        } else {
            None
        },
        None => None,
    }
}

/// Copying a subtree and pasting it twice at one cursor yields two
/// structurally identical subtrees with mutually disjoint id sets — and no
/// collision with any id outside the two pools — because each paste draws
/// its ids from its own pool and neither touches the other's clone.
pub proof fn lemma_paste_cursor_twice_disjoint(
    a: App,
    b: App,
    c: App,
    ids1: Seq<String>,
    ids2: Seq<String>,
)
    requires
        a.wf(),
        a.clipboard_todos@.len() > 0,
        paste_cursor_rel(a, b, ids1),
        b.clipboard_todos@ == a.clipboard_todos@,
        b.slot_tree_state.selected_todo == a.slot_tree_state.selected_todo,
        paste_cursor_rel(b, c, ids2),
        id_views(ids1).disjoint(id_views(ids2)),
        !(match a.slot_tree_state.selected_todo {
            Some(t) => row_keys(a.slot_tree_state.todo_tree@).contains(t),
            None => false,
        }) ==> a.slot_tree_state.selected_workspace is Some,
        match paste_cursor_owner(a) {
            Some(p) => forall|i: int|
                0 <= i < a.clipboard_todos@.len() ==> !todo_subtree_keys(
                    a.slot_map_store.todos_map@,
                    #[trigger] a.clipboard_todos@[i] as int,
                    a.slot_map_store.tfuel(),
                ).contains(p),
            None => true,
        },
        match paste_cursor_owner(b) {
            Some(p) => p < a.slot_map_store.todos_map@.len(),
            None => true,
        },
    ensures
        ({
            let tm1 = a.slot_map_store.todos_map@;
            let tm2 = b.slot_map_store.todos_map@;
            let tm3 = c.slot_map_store.todos_map@;
            let tf1 = a.slot_map_store.tfuel();
            let tf2 = b.slot_map_store.tfuel();
            let clip = a.clipboard_todos@;
            let roots1 = paste_roots(tm1, clip, tf1);
            let roots2 = paste_roots(tm2, clip, tf2);
            forall|i: int|
                0 <= i < clip.len() ==> {
                    let sz1 = todo_size(tm1, #[trigger] clip[i] as int, tf1);
                    let sz2 = todo_size(tm2, clip[i] as int, tf2);
                    &&& strip_ids(todo_v(tm3, roots1[i] as int, sz1)) == strip_ids(
                        todo_v(tm3, roots2[i] as int, sz2),
                    )
                    &&& todo_ids(todo_v(tm3, roots1[i] as int, sz1)).disjoint(
                        todo_ids(todo_v(tm3, roots2[i] as int, sz2)),
                    )
                }
        }),
{
    let tm1 = a.slot_map_store.todos_map@;
    let tm2 = b.slot_map_store.todos_map@;
    let tm3 = c.slot_map_store.todos_map@;
    let tf1 = a.slot_map_store.tfuel();
    let tf2 = b.slot_map_store.tfuel();
    let clip = a.clipboard_todos@;
    let roots1 = paste_roots(tm1, clip, tf1);
    let roots2 = paste_roots(tm2, clip, tf2);
    let a0 = tm1.len() as int;
    let b0 = tm2.len() as int;
    assert(vstd::std_specs::vec::spec_vec_len(&a.slot_map_store.todos_map) == tm1.len());
    assert(vstd::std_specs::vec::spec_vec_len(&b.slot_map_store.todos_map) == tm2.len());
    // the clipboard sources kept their models through the first paste
    assert forall|i: int| 0 <= i < clip.len() implies todo_bounded(
        tm2,
        #[trigger] clip[i] as int,
        tf1,
    ) && todo_v(tm2, clip[i] as int, tf2) == todo_v(tm1, clip[i] as int, tf1) && todo_size(
        tm2,
        clip[i] as int,
        tf2,
    ) == todo_size(tm1, clip[i] as int, tf1) by {
        assert(todo_live(tm1, clip[i] as int));
        assert(todo_bounded(tm1, clip[i] as int, tf1));
        match paste_cursor_owner(a) {
            Some(p) => {
                lemma_todo_v_update_outside(tm1, tm2, clip[i] as int, tf1, p as int);
            },
            None => {
                assert forall|q: int| 0 <= q < tm1.len() implies tm2[q] == #[trigger] tm1[q] by {}
                lemma_todo_v_extend(tm1, tm2, clip[i] as int, tf1);
                lemma_todo_size_stable(tm1, tm2, clip[i] as int, tf1);
            },
        }
        lemma_todo_v_fuel(tm2, clip[i] as int, tf1, tf2);
        lemma_todo_size_fuel(tm2, clip[i] as int, tf1, tf2);
    }
    // the first clones kept their models through the second paste
    assert forall|i: int| 0 <= i < clip.len() implies todo_v(
        tm3,
        #[trigger] roots1[i] as int,
        todo_size(tm1, clip[i] as int, tf1),
    ) == todo_v(tm2, roots1[i] as int, todo_size(tm1, clip[i] as int, tf1)) && todo_bounded(
        tm3,
        roots1[i] as int,
        todo_size(tm1, clip[i] as int, tf1),
    ) by {
        assert forall|q: int| a0 <= q < b0 implies tm3[q] == #[trigger] tm2[q] by {
            match paste_cursor_owner(b) {
                Some(p) => {
                    assert(p < a0);
                    assert(q != p);
                },
                None => {},
            }
        }
        assert(crate::arena::todo_region_wf(tm2, a0, b0));
        lemma_todo_size_list_split(tm1, clip, i + 1, tf1);
        lemma_todo_size_list_snoc(tm1, clip.take(i), clip[i], tf1);
        assert(clip.take(i).push(clip[i]) =~= clip.take(i + 1));
        assert(todo_bounded(tm1, clip[i] as int, tf1));
        assert(todo_size(tm1, clip[i] as int, tf1) >= 1);
        assert(a0 <= roots1[i] < b0);
        lemma_todo_v_region_model(
            tm2,
            tm3,
            a0,
            b0,
            roots1[i] as int,
            todo_size(tm1, clip[i] as int, tf1),
        );
    }
    assert forall|i: int| 0 <= i < clip.len() implies strip_ids(
        todo_v(tm3, #[trigger] roots1[i] as int, todo_size(tm1, clip[i] as int, tf1)),
    ) == strip_ids(todo_v(tm3, roots2[i] as int, todo_size(tm2, clip[i] as int, tf2)))
        && todo_ids(
        todo_v(tm3, roots1[i] as int, todo_size(tm1, clip[i] as int, tf1)),
    ).disjoint(todo_ids(todo_v(tm3, roots2[i] as int, todo_size(tm2, clip[i] as int, tf2)))) by {
        assert(strip_ids(todo_v(tm2, roots1[i] as int, todo_size(tm1, clip[i] as int, tf1)))
            == strip_ids(todo_v(tm1, clip[i] as int, tf1)));
        assert(strip_ids(todo_v(tm3, roots2[i] as int, todo_size(tm2, clip[i] as int, tf2)))
            == strip_ids(todo_v(tm2, clip[i] as int, tf2)));
        assert(todo_ids(
            todo_v(tm3, roots1[i] as int, todo_size(tm1, clip[i] as int, tf1)),
        ).subset_of(id_views(ids1)));
        assert(todo_ids(
            todo_v(tm3, roots2[i] as int, todo_size(tm2, clip[i] as int, tf2)),
        ).subset_of(id_views(ids2)));
    }
}

/// Cutting a subtree and pasting it at the cursor reconstructs it: the
/// detach only touches the old owner, which sits outside the subtree, so
/// the clone matches the subtree as cut, exactly but for ids.
pub proof fn lemma_cut_paste_cursor_shape(a: App, b: App, c: App, x: usize, ids: Seq<String>)
    requires
        a.wf(),
        row_keys(a.slot_tree_state.todo_tree@).contains(x),
        detach_todo_rel(
            a.slot_map_store,
            b.slot_map_store,
            a.slot_tree_state.todo_tree@,
            a.slot_tree_state.selected_workspace,
            x,
        ),
        todo_live(a.slot_map_store.todos_map@, x as int),
        match a.slot_tree_state.todo_tree@[first_index(
            row_keys(a.slot_tree_state.todo_tree@),
            x,
        )].parent {
            Some(p) => todo_live(a.slot_map_store.todos_map@, p as int) && todo_at(
                a.slot_map_store.todos_map@,
                p as int,
            ).children@.contains(x),
            None => true,
        },
        b.clipboard_todos@ == seq![x],
        paste_cursor_rel(b, c, ids),
        !(match b.slot_tree_state.selected_todo {
            Some(t) => row_keys(b.slot_tree_state.todo_tree@).contains(t),
            None => false,
        }) ==> b.slot_tree_state.selected_workspace is Some,
    ensures
        ({
            let tm_a = a.slot_map_store.todos_map@;
            let tm_b = b.slot_map_store.todos_map@;
            let tm_c = c.slot_map_store.todos_map@;
            let tfb = b.slot_map_store.tfuel();
            let sz = todo_size(tm_b, x as int, tfb);
            let root = paste_roots(tm_b, seq![x], tfb)[0];
            strip_ids(todo_v(tm_c, root as int, sz)) == strip_ids(
                todo_v(tm_a, x as int, a.slot_map_store.tfuel()),
            )
        }),
{
    let tm_a = a.slot_map_store.todos_map@;
    let tm_b = b.slot_map_store.todos_map@;
    let rows = a.slot_tree_state.todo_tree@;
    let j = first_index(row_keys(rows), x);
    let tfa = a.slot_map_store.tfuel();
    let tfb = b.slot_map_store.tfuel();
    assert(vstd::std_specs::vec::spec_vec_len(&a.slot_map_store.todos_map) == tm_a.len());
    assert(todo_bounded(tm_a, x as int, tfa));
    match rows[j].parent {
        Some(p) => {
            lemma_todo_no_cycle(tm_a, p, x, tfa, tfa);
            lemma_todo_v_update_outside(tm_a, tm_b, x as int, tfa, p as int);
            assert(tm_b.len() == tm_a.len());
            assert(todo_v(tm_b, x as int, tfb) == todo_v(tm_a, x as int, tfa));
        },
        None => {
            assert(tm_b == tm_a);
        },
    }
    assert(b.clipboard_todos@[0] == x);
}

/// Whether every workspace child link of `wm2` already stood in `wm1`,
/// liveness kept.
pub open spec fn ws_links_shrink(
    wm1: Seq<Option<WorkspaceItem>>,
    wm2: Seq<Option<WorkspaceItem>>,
) -> bool {
    &&& wm1.len() == wm2.len()
    &&& forall|j: int| ws_live(wm1, j) == ws_live(wm2, j)
    &&& forall|j: int, i: int|
        ws_live(wm2, j) && 0 <= i < ws_at(wm2, j).children@.len() ==> ws_at(
            wm1,
            j,
        ).children@.contains(#[trigger] ws_at(wm2, j).children@[i])
}

/// With only fewer links, the visible workspace rows can only lose keys.
pub proof fn lemma_flat_ws_member_shrink(
    wm1: Seq<Option<WorkspaceItem>>,
    wm2: Seq<Option<WorkspaceItem>>,
    opened: Seq<usize>,
    k: usize,
    p1: Option<usize>,
    p2: Option<usize>,
    d1: usize,
    d2: usize,
    f1: nat,
    f2: nat,
    y: usize,
)
    requires
        ws_links_shrink(wm1, wm2),
        row_keys(crate::tree::flat_ws(wm2, opened, k, p2, d2, f2)).contains(y),
        ws_bounded(wm1, k as int, f1),
    ensures
        row_keys(crate::tree::flat_ws(wm1, opened, k, p1, d1, f1)).contains(y),
    decreases f2, 0nat,
{
    let r2 = crate::tree::flat_ws(wm2, opened, k, p2, d2, f2);
    let r1 = crate::tree::flat_ws(wm1, opened, k, p1, d1, f1);
    let j = choose|j: int| 0 <= j < row_keys(r2).len() && row_keys(r2)[j] == y;
    if j == 0 {
        assert(r2[0].key == k);
        assert(r1[0].key == k);
        assert(row_keys(r1)[0] == k);
    } else {
        assert(opened.contains(k));
        let c2 = ws_at(wm2, k as int).children@;
        let c1 = ws_at(wm1, k as int).children@;
        lemma_flat_ws_list_member_shrink(
            wm1,
            wm2,
            opened,
            c1,
            c2,
            k,
            ((d1 + 1) as usize),
            ((d2 + 1) as usize),
            (f1 - 1) as nat,
            (f2 - 1) as nat,
            y,
            j - 1,
        );
        let t1 = crate::tree::flat_ws_list(
            wm1,
            opened,
            c1,
            k,
            ((d1 + 1) as usize),
            (f1 - 1) as nat,
        );
        let j1 = choose|j1: int| 0 <= j1 < row_keys(t1).len() && row_keys(t1)[j1] == y;
        assert(r1[j1 + 1].key == y);
        assert(row_keys(r1)[j1 + 1] == y);
    }
}

/// As `lemma_flat_ws_member_shrink`, for lists whose entries all come from
/// the old list.
pub proof fn lemma_flat_ws_list_member_shrink(
    wm1: Seq<Option<WorkspaceItem>>,
    wm2: Seq<Option<WorkspaceItem>>,
    opened: Seq<usize>,
    ks1: Seq<usize>,
    ks2: Seq<usize>,
    parent: usize,
    d1: usize,
    d2: usize,
    f1: nat,
    f2: nat,
    y: usize,
    j: int,
)
    requires
        ws_links_shrink(wm1, wm2),
        forall|q: int| 0 <= q < ks2.len() ==> ks1.contains(#[trigger] ks2[q]),
        forall|q: int| 0 <= q < ks1.len() ==> ws_bounded(wm1, #[trigger] ks1[q] as int, f1),
        0 <= j < crate::tree::flat_ws_list(wm2, opened, ks2, parent, d2, f2).len(),
        crate::tree::flat_ws_list(wm2, opened, ks2, parent, d2, f2)[j].key == y,
    ensures
        row_keys(crate::tree::flat_ws_list(wm1, opened, ks1, parent, d1, f1)).contains(y),
    decreases f2, ks2.len(),
{
    let h2 = crate::tree::flat_ws(wm2, opened, ks2[0], Some(parent), d2, f2);
    if j < h2.len() {
        assert(row_keys(h2)[j] == y);
        assert(ks1.contains(ks2[0]));
        let w = choose|w: int| 0 <= w < ks1.len() && ks1[w] == ks2[0];
        lemma_flat_ws_member_shrink(
            wm1,
            wm2,
            opened,
            ks2[0],
            Some(parent),
            Some(parent),
            d1,
            d2,
            f1,
            f2,
            y,
        );
        lemma_flat_ws_list_member_lift(wm1, opened, ks1, parent, d1, f1, w, y);
    } else {
        assert forall|q: int| 0 <= q < ks2.drop_first().len() implies ks1.contains(
            #[trigger] ks2.drop_first()[q],
        ) by {
            assert(ks2.drop_first()[q] == ks2[q + 1]);
        }
        lemma_flat_ws_list_member_shrink(
            wm1,
            wm2,
            opened,
            ks1,
            ks2.drop_first(),
            parent,
            d1,
            d2,
            f1,
            f2,
            y,
            j - h2.len(),
        );
    }
}

/// A key shown inside one listed workspace subtree is shown by the whole
/// list.
pub proof fn lemma_flat_ws_list_member_lift(
    wm: Seq<Option<WorkspaceItem>>,
    opened: Seq<usize>,
    ks: Seq<usize>,
    parent: usize,
    depth: usize,
    fuel: nat,
    w: int,
    y: usize,
)
    requires
        0 <= w < ks.len(),
        row_keys(crate::tree::flat_ws(wm, opened, ks[w], Some(parent), depth, fuel)).contains(y),
    ensures
        row_keys(crate::tree::flat_ws_list(wm, opened, ks, parent, depth, fuel)).contains(y),
    decreases ks.len(),
{
    let h = crate::tree::flat_ws(wm, opened, ks[0], Some(parent), depth, fuel);
    if w == 0 {
        let j = choose|j: int| 0 <= j < row_keys(h).len() && row_keys(h)[j] == y;
        assert(crate::tree::flat_ws_list(wm, opened, ks, parent, depth, fuel)[j].key == y);
        assert(row_keys(crate::tree::flat_ws_list(wm, opened, ks, parent, depth, fuel))[j] == y);
    } else {
        assert(ks.drop_first()[w - 1] == ks[w]);
        lemma_flat_ws_list_member_lift(wm, opened, ks.drop_first(), parent, depth, fuel, w - 1, y);
        let t = crate::tree::flat_ws_list(wm, opened, ks.drop_first(), parent, depth, fuel);
        let j = choose|j: int| 0 <= j < row_keys(t).len() && row_keys(t)[j] == y;
        assert(crate::tree::flat_ws_list(wm, opened, ks, parent, depth, fuel)[h.len() + j].key
            == y);
        assert(row_keys(crate::tree::flat_ws_list(wm, opened, ks, parent, depth, fuel))[h.len()
            + j] == y);
    }
}

/// With only fewer links and a root list drawn from the old one, the
/// workspace pane can only lose keys.
pub proof fn lemma_ws_rows_member_shrink(
    s1: SlotMapStore,
    s2: SlotMapStore,
    opened: Seq<usize>,
    ks1: Seq<usize>,
    ks2: Seq<usize>,
    y: usize,
)
    requires
        s1.wf(),
        ws_links_shrink(s1.workspaces_map@, s2.workspaces_map@),
        forall|q: int| 0 <= q < ks2.len() ==> ks1.contains(#[trigger] ks2[q]),
        forall|q: int|
            0 <= q < ks1.len() ==> ws_bounded(
                s1.workspaces_map@,
                #[trigger] ks1[q] as int,
                s1.wfuel(),
            ),
        row_keys(crate::tree::ws_rows_from(s2, opened, ks2)).contains(y),
    ensures
        row_keys(crate::tree::ws_rows_from(s1, opened, ks1)).contains(y),
    decreases ks2.len(),
{
    let r2 = crate::tree::ws_rows_from(s2, opened, ks2);
    let j = choose|j: int| 0 <= j < row_keys(r2).len() && row_keys(r2)[j] == y;
    let h2 = crate::tree::flat_ws(s2.workspaces_map@, opened, ks2[0], None, 0, s2.wfuel());
    if j < h2.len() {
        assert(row_keys(h2)[j] == y);
        let w = choose|w: int| 0 <= w < ks1.len() && ks1[w] == ks2[0];
        lemma_flat_ws_member_shrink(
            s1.workspaces_map@,
            s2.workspaces_map@,
            opened,
            ks2[0],
            None,
            None,
            0,
            0,
            s1.wfuel(),
            s2.wfuel(),
            y,
        );
        lemma_ws_rows_member_lift(s1, opened, ks1, w, y);
    } else {
        assert(row_keys(crate::tree::ws_rows_from(s2, opened, ks2.drop_first()))[j - h2.len()]
            == y);
        assert forall|q: int| 0 <= q < ks2.drop_first().len() implies ks1.contains(
            #[trigger] ks2.drop_first()[q],
        ) by {
            assert(ks2.drop_first()[q] == ks2[q + 1]);
        }
        lemma_ws_rows_member_shrink(s1, s2, opened, ks1, ks2.drop_first(), y);
    }
}

/// A key shown inside one root workspace's subtree is shown by the pane.
pub proof fn lemma_ws_rows_member_lift(
    s: SlotMapStore,
    opened: Seq<usize>,
    ks: Seq<usize>,
    w: int,
    y: usize,
)
    requires
        0 <= w < ks.len(),
        row_keys(
            crate::tree::flat_ws(s.workspaces_map@, opened, ks[w], None, 0, s.wfuel()),
        ).contains(y),
    ensures
        row_keys(crate::tree::ws_rows_from(s, opened, ks)).contains(y),
    decreases ks.len(),
{
    let h = crate::tree::flat_ws(s.workspaces_map@, opened, ks[0], None, 0, s.wfuel());
    if w == 0 {
        let j = choose|j: int| 0 <= j < row_keys(h).len() && row_keys(h)[j] == y;
        assert(crate::tree::ws_rows_from(s, opened, ks)[j].key == y);
        assert(row_keys(crate::tree::ws_rows_from(s, opened, ks))[j] == y);
    } else {
        assert(ks.drop_first()[w - 1] == ks[w]);
        lemma_ws_rows_member_lift(s, opened, ks.drop_first(), w - 1, y);
        let t = crate::tree::ws_rows_from(s, opened, ks.drop_first());
        let j = choose|j: int| 0 <= j < row_keys(t).len() && row_keys(t)[j] == y;
        assert(crate::tree::ws_rows_from(s, opened, ks)[h.len() + j].key == y);
        assert(row_keys(crate::tree::ws_rows_from(s, opened, ks))[h.len() + j] == y);
    }
}

/// Detaching one more workspace never brings a previously detached one back
/// into view: rows only disappear.
pub proof fn lemma_detached_ws_row_stays_out(pre: App, post: App, x: usize, y: usize)
    requires
        pre.wf(),
        post.wf(),
        row_keys(pre.slot_tree_state.ws_tree@).contains(x),
        !row_keys(pre.slot_tree_state.ws_tree@).contains(y),
        detach_ws_rel(
            pre.slot_map_store,
            post.slot_map_store,
            pre.slot_tree_state.ws_tree@,
            x,
        ),
        post.slot_tree_state.ws_opened == pre.slot_tree_state.ws_opened,
        post.slot_tree_state.ws_tree@ == ws_rows(
            post.slot_map_store,
            post.slot_tree_state.ws_opened@,
        ),
        pre.slot_tree_state.ws_tree@ == ws_rows(
            pre.slot_map_store,
            pre.slot_tree_state.ws_opened@,
        ),
    ensures
        !row_keys(post.slot_tree_state.ws_tree@).contains(y),
{
    let s1 = pre.slot_map_store;
    let s2 = post.slot_map_store;
    let opened = pre.slot_tree_state.ws_opened@;
    let j = first_index(row_keys(pre.slot_tree_state.ws_tree@), x);
    if row_keys(post.slot_tree_state.ws_tree@).contains(y) {
        let ks1 = s1.root_workspaces@;
        let ks2 = s2.root_workspaces@;
        lemma_first_index(row_keys(pre.slot_tree_state.ws_tree@), x);
        lemma_ws_rows_row_source(s1, opened, ks1, j);
        assert forall|q: int| 0 <= q < ks2.len() implies ks1.contains(#[trigger] ks2[q]) by {
            match pre.slot_tree_state.ws_tree@[j].parent {
                Some(p0) => {},
                None => {
                    if ks1.contains(x) {
                        lemma_first_index(ks1, x);
                        let fi = first_index(ks1, x);
                        ks1.remove_ensures(fi);
                        assert(ks2 == ks1.remove(fi));
                        if q < fi {
                            assert(ks1.remove(fi)[q] == ks1[q]);
                        } else {
                            assert(ks1.remove(fi)[q] == ks1[q + 1]);
                        }
                    }
                },
            }
        }
        assert forall|jq: int| ws_live(s1.workspaces_map@, jq) == ws_live(
            s2.workspaces_map@,
            jq,
        ) by {
            match pre.slot_tree_state.ws_tree@[j].parent {
                Some(p0) => {
                    if 0 <= jq < s1.workspaces_map@.len() && jq != p0 {
                        assert(s2.workspaces_map@[jq] == s1.workspaces_map@[jq]);
                    }
                    if jq == p0 {
                        assert(ws_live(s1.workspaces_map@, p0 as int));
                        assert(ws_live(s2.workspaces_map@, p0 as int));
                    }
                },
                None => {},
            }
        }
        assert forall|jq: int, iq: int|
            ws_live(s2.workspaces_map@, jq) && 0 <= iq < ws_at(
                s2.workspaces_map@,
                jq,
            ).children@.len() implies ws_at(s1.workspaces_map@, jq).children@.contains(
            #[trigger] ws_at(s2.workspaces_map@, jq).children@[iq],
        ) by {
            match pre.slot_tree_state.ws_tree@[j].parent {
                Some(p0) => {
                    if jq != p0 {
                        assert(s2.workspaces_map@[jq] == s1.workspaces_map@[jq]);
                        assert(ws_at(s1.workspaces_map@, jq).children@[iq] == ws_at(
                            s2.workspaces_map@,
                            jq,
                        ).children@[iq]);
                    } else {
                        let c1 = ws_at(s1.workspaces_map@, p0 as int).children@;
                        if c1.contains(x) {
                            lemma_first_index(c1, x);
                            c1.remove_ensures(first_index(c1, x));
                            let fi = first_index(c1, x);
                            if iq < fi {
                                assert(ws_at(s2.workspaces_map@, jq).children@[iq] == c1[iq]);
                            } else {
                                assert(ws_at(s2.workspaces_map@, jq).children@[iq] == c1[iq + 1]);
                            }
                        }
                    }
                },
                None => {},
            }
        }
        assert(ws_links_shrink(s1.workspaces_map@, s2.workspaces_map@));
        assert forall|q: int| 0 <= q < ks1.len() implies ws_bounded(
            s1.workspaces_map@,
            #[trigger] ks1[q] as int,
            s1.wfuel(),
        ) by {
            assert(ws_live(s1.workspaces_map@, ks1[q] as int));
        }
        lemma_ws_rows_member_shrink(s1, s2, opened, ks1, ks2, y);
    }
}

/// What moving the workspace selection does, `down` or up: the adjacent
/// visible row, a reset todo selection, and a todo multi-selection that
/// survives only when the workspace under the cursor did not change.
pub open spec fn moved_ws_effect(a: App, b: App, down: bool) -> bool {
    &&& b.slot_map_store == a.slot_map_store
    &&& b.slot_tree_state.selected_workspace == (if down {
        moved_down(a.slot_tree_state.ws_tree@, a.slot_tree_state.selected_workspace)
    } else {
        moved_up(a.slot_tree_state.ws_tree@, a.slot_tree_state.selected_workspace)
    })
    &&& b.slot_tree_state.selected_todo is None
    &&& b.slot_tree_state.ws_opened == a.slot_tree_state.ws_opened
    &&& b.slot_tree_state.todo_opened == a.slot_tree_state.todo_opened
    &&& b.slot_tree_state.multi_selected_workspaces == a.slot_tree_state.multi_selected_workspaces
    &&& b.slot_tree_state.multi_selected_todos@ == (if b.slot_tree_state.selected_workspace
        == a.slot_tree_state.selected_workspace {
        a.slot_tree_state.multi_selected_todos@
    } else {
        Seq::<usize>::empty()
    })
    &&& unchanged_modes(a, b)
}

/// What moving the todo selection does.
pub open spec fn moved_todo_effect(a: App, b: App, down: bool) -> bool {
    &&& b.slot_map_store == a.slot_map_store
    &&& b.slot_tree_state == (SlotTreeState {
        selected_todo: if down {
            moved_down(a.slot_tree_state.todo_tree@, a.slot_tree_state.selected_todo)
        } else {
            moved_up(a.slot_tree_state.todo_tree@, a.slot_tree_state.selected_todo)
        },
        ..a.slot_tree_state
    })
    &&& unchanged_modes(a, b)
}

/// What expanding or collapsing the selected workspace does to the opened
/// set; expansion adds the selection, collapse filters it out.
pub open spec fn fold_ws_effect(a: App, b: App, open: bool) -> bool {
    &&& b.slot_map_store == a.slot_map_store
    &&& b.slot_tree_state.ws_opened@ == (match a.slot_tree_state.selected_workspace {
        Some(k) => if open {
            if a.slot_tree_state.ws_opened@.contains(k) {
                a.slot_tree_state.ws_opened@
            } else {
                a.slot_tree_state.ws_opened@.push(k)
            }
        } else {
            a.slot_tree_state.ws_opened@.filter(|y: usize| y != k)
        },
        None => a.slot_tree_state.ws_opened@,
    })
    &&& b.slot_tree_state.selected_todo == (if a.slot_tree_state.selected_workspace is Some {
        None::<usize>
    } else {
        a.slot_tree_state.selected_todo
    })
    &&& b.slot_tree_state.selected_workspace == a.slot_tree_state.selected_workspace
    &&& b.slot_tree_state.todo_opened == a.slot_tree_state.todo_opened
    &&& b.slot_tree_state.multi_selected_todos == a.slot_tree_state.multi_selected_todos
    &&& b.slot_tree_state.multi_selected_workspaces == a.slot_tree_state.multi_selected_workspaces
    &&& unchanged_modes(a, b)
}

/// What expanding or collapsing the selected todo does to the opened set.
pub open spec fn fold_todo_effect(a: App, b: App, open: bool) -> bool {
    &&& b.slot_map_store == a.slot_map_store
    &&& b.slot_tree_state.todo_opened@ == (match a.slot_tree_state.selected_todo {
        Some(k) => if open {
            if a.slot_tree_state.todo_opened@.contains(k) {
                a.slot_tree_state.todo_opened@
            } else {
                a.slot_tree_state.todo_opened@.push(k)
            }
        } else {
            a.slot_tree_state.todo_opened@.filter(|y: usize| y != k)
        },
        None => a.slot_tree_state.todo_opened@,
    })
    &&& b.slot_tree_state.selected_todo == a.slot_tree_state.selected_todo
    &&& b.slot_tree_state.selected_workspace == a.slot_tree_state.selected_workspace
    &&& b.slot_tree_state.ws_opened == a.slot_tree_state.ws_opened
    &&& b.slot_tree_state.multi_selected_todos == a.slot_tree_state.multi_selected_todos
    &&& b.slot_tree_state.multi_selected_workspaces == a.slot_tree_state.multi_selected_workspaces
    &&& unchanged_modes(a, b)
}

/// What entering edit mode does: the buffer seeded from the target's
/// description, the target remembered; nothing with no selection.
pub open spec fn begin_edit_effect(a: App, b: App, ws: bool) -> bool {
    let sel = if ws {
        a.slot_tree_state.selected_workspace
    } else {
        a.slot_tree_state.selected_todo
    };
    match sel {
        None => b == a,
        Some(k) => b == (App { input: b.input, new_editing_id: Some(k), ..a }) && b.input@ == (
        if ws {
            ws_at(a.slot_map_store.workspaces_map@, k as int).description@
        } else {
            todo_at(a.slot_map_store.todos_map@, k as int).description@
        }),
    }
}

/// What committing an edit on the workspace pane does: the buffer becomes
/// the edited workspace's description, edit mode ends, nothing else of the
/// workspace or the state changes.
pub open spec fn commit_ws_effect(a: App, b: App) -> bool {
    let k = a.new_editing_id->Some_0;
    let w1 = ws_at(a.slot_map_store.workspaces_map@, k as int);
    &&& b.slot_map_store.workspaces_map@ == a.slot_map_store.workspaces_map@.update(
        k as int,
        Some(WorkspaceItem { description: b.input, ..w1 }),
    )
    &&& b.input@ == a.input@
    &&& b.new_editing_id is None
    &&& b.slot_map_store.todos_map == a.slot_map_store.todos_map
    &&& b.slot_map_store.root_workspaces == a.slot_map_store.root_workspaces
    &&& tree_state_same(a.slot_tree_state, b.slot_tree_state)
    &&& b.running == a.running
    &&& b.active_screen == a.active_screen
    &&& b.sorting == a.sorting
    &&& b.clipboard_todos == a.clipboard_todos
    &&& b.clipboard_workspaces == a.clipboard_workspaces
    &&& b.search_mode == a.search_mode
    &&& b.search_str == a.search_str
    &&& b.search_matches == a.search_matches
    &&& b.current_match_index == a.current_match_index
}

/// What committing an edit on the todo pane does.
pub open spec fn commit_todo_effect(a: App, b: App) -> bool {
    let k = a.new_editing_id->Some_0;
    let t1 = todo_at(a.slot_map_store.todos_map@, k as int);
    &&& b.slot_map_store.todos_map@ == a.slot_map_store.todos_map@.update(
        k as int,
        Some(TodoItem { description: b.input, ..t1 }),
    )
    &&& b.input@ == a.input@
    &&& b.new_editing_id is None
    &&& b.slot_map_store.workspaces_map == a.slot_map_store.workspaces_map
    &&& b.slot_map_store.root_workspaces == a.slot_map_store.root_workspaces
    &&& tree_state_same(a.slot_tree_state, b.slot_tree_state)
    &&& b.running == a.running
    &&& b.active_screen == a.active_screen
    &&& b.sorting == a.sorting
    &&& b.clipboard_todos == a.clipboard_todos
    &&& b.clipboard_workspaces == a.clipboard_workspaces
    &&& b.search_mode == a.search_mode
    &&& b.search_str == a.search_str
    &&& b.search_matches == a.search_matches
    &&& b.current_match_index == a.current_match_index
}

/// What the edit-mode commands do to the buffer.
pub open spec fn edit_key_effect(a: App, b: App, c: Option<char>) -> bool {
    &&& b == (App { input: b.input, ..a })
    &&& b.input@ == (match c {
        Some(ch) => a.input@.push(ch),
        None => if a.input@.len() == 0 {
            a.input@
        } else {
            a.input@.drop_last()
        },
    })
}

/// What recording the clipboard does on either pane.
pub open spec fn yank_effect(a: App, b: App, ws: bool) -> bool {
    if ws {
        &&& b.slot_map_store == a.slot_map_store
        &&& b.slot_tree_state == a.slot_tree_state
        &&& b.clipboard_workspaces@ == (if a.slot_tree_state.multi_selected_workspaces@.len()
            > 0 {
            a.slot_tree_state.multi_selected_workspaces@
        } else {
            match a.slot_tree_state.selected_workspace {
                Some(k) => seq![k],
                None => a.clipboard_workspaces@,
            }
        })
        &&& b == (App { clipboard_workspaces: b.clipboard_workspaces, ..a })
    } else {
        &&& b.slot_map_store == a.slot_map_store
        &&& b.slot_tree_state == a.slot_tree_state
        &&& b.clipboard_todos@ == (if a.slot_tree_state.multi_selected_todos@.len() > 0 {
            a.slot_tree_state.multi_selected_todos@
        } else {
            match a.slot_tree_state.selected_todo {
                Some(k) => seq![k],
                None => a.clipboard_todos@,
            }
        })
        &&& b == (App { clipboard_todos: b.clipboard_todos, ..a })
    }
}

/// What toggling the multi-selection does on either pane.
pub open spec fn toggle_multi_effect(a: App, b: App, ws: bool) -> bool {
    &&& b.slot_map_store == a.slot_map_store
    &&& unchanged_modes(a, b)
    &&& if ws {
        &&& b.slot_tree_state == (SlotTreeState {
            multi_selected_workspaces: b.slot_tree_state.multi_selected_workspaces,
            ..a.slot_tree_state
        })
        &&& b.slot_tree_state.multi_selected_workspaces@ == (match a.slot_tree_state.selected_workspace {
            Some(k) => if a.slot_tree_state.multi_selected_workspaces@.contains(k) {
                a.slot_tree_state.multi_selected_workspaces@.filter(|y: usize| y != k)
            } else {
                a.slot_tree_state.multi_selected_workspaces@.push(k)
            },
            None => a.slot_tree_state.multi_selected_workspaces@,
        })
    } else {
        &&& b.slot_tree_state == (SlotTreeState {
            multi_selected_todos: b.slot_tree_state.multi_selected_todos,
            ..a.slot_tree_state
        })
        &&& b.slot_tree_state.multi_selected_todos@ == (match a.slot_tree_state.selected_todo {
            Some(k) => if a.slot_tree_state.multi_selected_todos@.contains(k) {
                a.slot_tree_state.multi_selected_todos@.filter(|y: usize| y != k)
            } else {
                a.slot_tree_state.multi_selected_todos@.push(k)
            },
            None => a.slot_tree_state.multi_selected_todos@,
        })
    }
}

/// What deleting the workspace `x` does, as `delete_workspace` ensures it.
pub open spec fn delete_ws_effect(a: App, b: App, x: usize) -> bool {
    &&& (!row_keys(a.slot_tree_state.ws_tree@).contains(x) ==> b == a)
    &&& (row_keys(a.slot_tree_state.ws_tree@).contains(x) ==> {
        &&& !row_keys(b.slot_tree_state.ws_tree@).contains(x)
        &&& b.slot_tree_state.selected_workspace == reselected(
            b.slot_tree_state.ws_tree@,
            first_index(row_keys(a.slot_tree_state.ws_tree@), x),
        )
        &&& detach_ws_rel(a.slot_map_store, b.slot_map_store, a.slot_tree_state.ws_tree@, x)
        &&& b.slot_tree_state.selected_todo is None
        &&& b.slot_tree_state.multi_selected_todos@ == Seq::<usize>::empty()
        &&& b.slot_tree_state.ws_opened == a.slot_tree_state.ws_opened
        &&& b.slot_tree_state.todo_opened == a.slot_tree_state.todo_opened
        &&& b.slot_tree_state.multi_selected_workspaces
            == a.slot_tree_state.multi_selected_workspaces
        &&& unchanged_modes(a, b)
    })
}

/// What deleting the todo `x` does, as `delete_todo` ensures it.
pub open spec fn delete_todo_effect(a: App, b: App, x: usize) -> bool {
    &&& (!row_keys(a.slot_tree_state.todo_tree@).contains(x) ==> b == a)
    &&& (row_keys(a.slot_tree_state.todo_tree@).contains(x) ==> {
        &&& !row_keys(b.slot_tree_state.todo_tree@).contains(x)
        &&& b.slot_tree_state.selected_todo == reselected(
            b.slot_tree_state.todo_tree@,
            first_index(row_keys(a.slot_tree_state.todo_tree@), x),
        )
        &&& detach_todo_rel(
            a.slot_map_store,
            b.slot_map_store,
            a.slot_tree_state.todo_tree@,
            a.slot_tree_state.selected_workspace,
            x,
        )
        &&& b.slot_tree_state.ws_tree@ == a.slot_tree_state.ws_tree@
        &&& b.slot_tree_state.selected_workspace == a.slot_tree_state.selected_workspace
        &&& b.slot_tree_state.ws_opened == a.slot_tree_state.ws_opened
        &&& b.slot_tree_state.todo_opened == a.slot_tree_state.todo_opened
        &&& b.slot_tree_state.multi_selected_todos == a.slot_tree_state.multi_selected_todos
        &&& b.slot_tree_state.multi_selected_workspaces
            == a.slot_tree_state.multi_selected_workspaces
        &&& unchanged_modes(a, b)
    })
}

/// What cutting does on the workspace pane: the multi-selection set when it
/// is non-empty, else the single selection.
pub open spec fn cut_ws_effect(a: App, b: App) -> bool {
    if a.slot_tree_state.multi_selected_workspaces@.len() > 0 {
        &&& b.clipboard_workspaces@ == a.slot_tree_state.multi_selected_workspaces@
        &&& b.slot_tree_state.multi_selected_workspaces@ == Seq::<usize>::empty()
        &&& forall|i: int|
            0 <= i < b.clipboard_workspaces@.len() ==> !row_keys(
                b.slot_tree_state.ws_tree@,
            ).contains(#[trigger] b.clipboard_workspaces@[i])
        &&& cut_ws_store_rel(
            a.slot_map_store,
            b.slot_map_store,
            a.slot_tree_state.multi_selected_workspaces@,
        )
    } else {
        match a.slot_tree_state.selected_workspace {
            None => b == a,
            Some(x) => {
                &&& b.clipboard_workspaces@ == seq![x]
                &&& (row_keys(a.slot_tree_state.ws_tree@).contains(x) ==> detach_ws_rel(
                    a.slot_map_store,
                    b.slot_map_store,
                    a.slot_tree_state.ws_tree@,
                    x,
                ) && !row_keys(b.slot_tree_state.ws_tree@).contains(x))
                &&& (!row_keys(a.slot_tree_state.ws_tree@).contains(x) ==> b.slot_map_store
                    == a.slot_map_store)
            },
        }
    }
}

/// What cutting does on the todo pane.
pub open spec fn cut_todos_effect(a: App, b: App) -> bool {
    if a.slot_tree_state.multi_selected_todos@.len() > 0 {
        &&& b.clipboard_todos@ == a.slot_tree_state.multi_selected_todos@
        &&& b.slot_tree_state.multi_selected_todos@ == Seq::<usize>::empty()
        &&& forall|i: int|
            0 <= i < b.clipboard_todos@.len() ==> !row_keys(
                b.slot_tree_state.todo_tree@,
            ).contains(#[trigger] b.clipboard_todos@[i])
        &&& cut_todos_store_rel(
            a.slot_map_store,
            b.slot_map_store,
            a.slot_tree_state.multi_selected_todos@,
        )
    } else {
        match a.slot_tree_state.selected_todo {
            None => b == a,
            Some(x) => {
                &&& b.clipboard_todos@ == seq![x]
                &&& (row_keys(a.slot_tree_state.todo_tree@).contains(x) ==> detach_todo_rel(
                    a.slot_map_store,
                    b.slot_map_store,
                    a.slot_tree_state.todo_tree@,
                    a.slot_tree_state.selected_workspace,
                    x,
                ) && !row_keys(b.slot_tree_state.todo_tree@).contains(x))
                &&& (!row_keys(a.slot_tree_state.todo_tree@).contains(x) ==> b.slot_map_store
                    == a.slot_map_store)
            },
        }
    }
}

/// What cycling the match cursor does.
pub open spec fn next_match_effect(a: App, b: App) -> bool {
    &&& (a.search_matches@.len() == 0 ==> b == a)
    &&& (a.search_matches@.len() > 0 ==> {
        let ix = (a.current_match_index + 1) as int % a.search_matches@.len() as int;
        let m = a.search_matches@[ix];
        &&& b.current_match_index == ix
        &&& b.slot_tree_state.selected_todo == (if row_keys(
            a.slot_tree_state.todo_tree@,
        ).contains(m) {
            Some(m)
        } else {
            a.slot_tree_state.selected_todo
        })
        &&& b.slot_map_store == a.slot_map_store
        &&& b.slot_tree_state == (SlotTreeState {
            selected_todo: b.slot_tree_state.selected_todo,
            ..a.slot_tree_state
        })
        &&& b.search_matches == a.search_matches
    })
}

/// What a live search keystroke does: the new search string and the freshly
/// recomputed matches and forced expansions.
pub open spec fn search_key_effect(a: App, b: App, c: Option<char>) -> bool {
    let q2 = match c {
        Some(ch) => a.search_str@.push(ch),
        None => if a.search_str@.len() == 0 {
            a.search_str@
        } else {
            a.search_str@.drop_last()
        },
    };
    &&& b.search_str@ == q2
    &&& b.current_match_index == 0
    &&& b.slot_map_store == a.slot_map_store
    &&& b.search_matches@ == (if q2.len() == 0 {
        Seq::<usize>::empty()
    } else {
        pane_matches(a.slot_map_store, lower_of(q2), a.slot_tree_state.selected_workspace)
    })
    &&& b.slot_tree_state.todo_opened@ == (if q2.len() == 0 {
        a.slot_tree_state.todo_opened@
    } else {
        a.slot_tree_state.todo_opened@ + pane_ancs(
            a.slot_map_store,
            lower_of(q2),
            a.slot_tree_state.selected_workspace,
        )
    })
}

/// How one command acts on the workspace pane: an armed sort takes only its
/// choice, edit mode takes only text, and in normal mode each command has
/// its stated effect; anything this pane has no work for changes nothing.
pub open spec fn ws_dispatch_rel(a: App, b: App, cmd: Command) -> bool {
    match a.sorting {
        SortingItem::Workspace(k0) => match cmd {
            Command::SortChoice(n) => b.sorting == SortingItem::Idle && sort_choice_ws_rel(
                a,
                b,
                n,
            ),
            _ => b == a,
        },
        SortingItem::Todo(k0) => true,
        SortingItem::Idle => match a.new_editing_id {
            Some(id) => match cmd {
                Command::Quit => b == (App { running: false, ..a }),
                Command::CommitEdit => commit_ws_effect(a, b),
                Command::CancelEdit => b == (App { new_editing_id: None, ..a }),
                Command::EditChar(c) => edit_key_effect(a, b, Some(c)),
                Command::EditBackspace => edit_key_effect(a, b, None),
                _ => b == a,
            },
            None => match cmd {
                Command::Quit => b == (App { running: false, ..a }),
                Command::SwitchPane => b == (App { active_screen: Screen::Todos, ..a }),
                Command::MoveDown => moved_ws_effect(a, b, true),
                Command::MoveUp => moved_ws_effect(a, b, false),
                Command::Expand => fold_ws_effect(a, b, true),
                Command::Collapse => fold_ws_effect(a, b, false),
                Command::BeginEdit => begin_edit_effect(a, b, true),
                Command::InsertSibling(id) => insert_sibling_ws_spec(a, b, id@),
                Command::InsertChild(id) => insert_child_ws_spec(a, b, id@),
                Command::Yank => yank_effect(a, b, true),
                Command::Cut => cut_ws_effect(a, b),
                Command::Delete => match a.slot_tree_state.selected_workspace {
                    Some(w) => delete_ws_effect(a, b, w),
                    None => b == a,
                },
                Command::ToggleMultiSelect => toggle_multi_effect(a, b, true),
                Command::BeginSort => b == (App {
                    sorting: match a.slot_tree_state.selected_workspace {
                        Some(k) => SortingItem::Workspace(k),
                        None => SortingItem::Idle,
                    },
                    ..a
                }),
                Command::SwapUp => swap_ws_rel(a, b, true),
                Command::SwapDown => swap_ws_rel(a, b, false),
                _ => b == a,
            },
        },
    }
}

/// How one command acts on the todo pane: search mode first, then the one
/// armed-sort choice, then edit mode, then the tree; anything this pane has
/// no work for changes nothing.
pub open spec fn todos_dispatch_rel(a: App, b: App, cmd: Command) -> bool {
    let tm = a.slot_map_store.todos_map@;
    if a.search_mode {
        match cmd {
            Command::SearchChar(c) => search_key_effect(a, b, Some(c)),
            Command::SearchBackspace => search_key_effect(a, b, None),
            Command::EndSearch => b == (App {
                search_mode: false,
                search_str: b.search_str,
                ..a
            }) && b.search_str@ == Seq::<char>::empty(),
            _ => b == a,
        }
    } else if is_begin_search(cmd) {
        &&& b.search_mode
        &&& b.search_str@ == Seq::<char>::empty()
        &&& b.search_matches@ == Seq::<usize>::empty()
        &&& b.current_match_index == 0
        &&& b.slot_map_store == a.slot_map_store
        &&& b.slot_tree_state == a.slot_tree_state
        &&& b.running == a.running
        &&& b.input == a.input
        &&& b.new_editing_id == a.new_editing_id
        &&& b.active_screen == a.active_screen
        &&& b.sorting == a.sorting
        &&& b.clipboard_todos == a.clipboard_todos
        &&& b.clipboard_workspaces == a.clipboard_workspaces
    } else {
        match a.sorting {
            SortingItem::Todo(k0) => match cmd {
                Command::SortChoice(n) => b.sorting == SortingItem::Idle && sort_choice_todo_rel(
                    a,
                    b,
                    n,
                ),
                _ => b == a,
            },
            SortingItem::Workspace(k0) => true,
            SortingItem::Idle => match a.new_editing_id {
                Some(id) => match cmd {
                    Command::Quit => b == (App { running: false, ..a }),
                    Command::CommitEdit => commit_todo_effect(a, b),
                    Command::CancelEdit => b == (App { new_editing_id: None, ..a }),
                    Command::EditChar(c) => edit_key_effect(a, b, Some(c)),
                    Command::EditBackspace => edit_key_effect(a, b, None),
                    _ => b == a,
                },
                None => match cmd {
                    Command::Quit => b == (App { running: false, ..a }),
                    Command::SwitchPane => b == (App { active_screen: Screen::Workspaces, ..a }),
                    Command::MoveDown => moved_todo_effect(a, b, true),
                    Command::MoveUp => moved_todo_effect(a, b, false),
                    Command::Expand => fold_todo_effect(a, b, true),
                    Command::Collapse => fold_todo_effect(a, b, false),
                    Command::BeginEdit => begin_edit_effect(a, b, false),
                    Command::InsertSibling(id) => insert_sibling_todo_spec(a, b, id@),
                    Command::InsertChild(id) => insert_child_todo_spec(a, b, id@),
                    Command::ToggleDone => toggled_effect(a, b),
                    Command::UrgencyUp => urgency_effect(a, b, true),
                    Command::UrgencyDown => urgency_effect(a, b, false),
                    Command::BeginSort => b == (App {
                        sorting: match a.slot_tree_state.selected_todo {
                            Some(k) => SortingItem::Todo(k),
                            None => SortingItem::Idle,
                        },
                        ..a
                    }),
                    Command::Yank => yank_effect(a, b, false),
                    Command::Cut => cut_todos_effect(a, b),
                    Command::Delete => match a.slot_tree_state.selected_todo {
                        Some(t) => delete_todo_effect(a, b, t),
                        None => b == a,
                    },
                    Command::Paste(ids) => {
                        let total = todo_size_list(
                            tm,
                            a.clipboard_todos@,
                            a.slot_map_store.tfuel(),
                        );
                        if total <= usize::MAX && ids@.len() >= total {
                            if a.clipboard_todos@.len() == 0 {
                                b == a
                            } else {
                                paste_cursor_rel(a, b, ids@)
                            }
                        } else {
                            b == a
                        }
                    },
                    Command::PasteAsChild(ids) => {
                        if a.clipboard_todos@.len() > 0 && a.slot_tree_state.selected_todo is Some {
                            let key = a.clipboard_todos@[0];
                            let sz = todo_size(tm, key as int, a.slot_map_store.tfuel());
                            if sz <= usize::MAX && ids@.len() >= sz {
                                paste_child_rel(
                                    a,
                                    b,
                                    key,
                                    a.slot_tree_state.selected_todo->Some_0,
                                    ids@,
                                )
                            } else {
                                b == a
                            }
                        } else {
                            b == a
                        }
                    },
                    Command::ToggleMultiSelect => toggle_multi_effect(a, b, false),
                    Command::SwapUp => swap_todo_rel(a, b, true),
                    Command::SwapDown => swap_todo_rel(a, b, false),
                    Command::NextMatch => next_match_effect(a, b),
                    _ => b == a,
                },
            },
        }
    }
}

/// What flipping the selected todo's pending flag does.
pub open spec fn toggled_effect(a: App, b: App) -> bool {
    &&& (match a.slot_tree_state.selected_todo {
        None => b == a,
        Some(k) => {
            let t1 = todo_at(a.slot_map_store.todos_map@, k as int);
            b.slot_map_store.todos_map@ == a.slot_map_store.todos_map@.update(
                k as int,
                Some(TodoItem { pending: !t1.pending, ..t1 }),
            )
        },
    })
    &&& b.slot_map_store.workspaces_map == a.slot_map_store.workspaces_map
    &&& b.slot_map_store.root_workspaces == a.slot_map_store.root_workspaces
    &&& tree_state_same(a.slot_tree_state, b.slot_tree_state)
    &&& unchanged_modes(a, b)
}

/// What stepping the selected todo's urgency does, capped at its bounds.
pub open spec fn urgency_effect(a: App, b: App, up: bool) -> bool {
    &&& (match a.slot_tree_state.selected_todo {
        None => b == a,
        Some(k) => {
            let t1 = todo_at(a.slot_map_store.todos_map@, k as int);
            let u2 = if up {
                if t1.urgency < 3 {
                    (t1.urgency + 1) as usize
                } else {
                    t1.urgency
                }
            } else {
                if t1.urgency > 0 {
                    (t1.urgency - 1) as usize
                } else {
                    t1.urgency
                }
            };
            b.slot_map_store.todos_map@ == a.slot_map_store.todos_map@.update(
                k as int,
                Some(TodoItem { urgency: u2, ..t1 }),
            )
        },
    })
    &&& b.slot_map_store.workspaces_map == a.slot_map_store.workspaces_map
    &&& b.slot_map_store.root_workspaces == a.slot_map_store.root_workspaces
    &&& tree_state_same(a.slot_tree_state, b.slot_tree_state)
    &&& unchanged_modes(a, b)
}

/// How a store follows from another by detaching only todos of the recorded
/// set: slots keep their content, every owner list keeps its order and loses
/// nothing but recorded handles, and the rest of the store stands still.
pub open spec fn cut_todos_store_rel(s1: SlotMapStore, s2: SlotMapStore, recorded: Seq<usize>) -> bool {
    let tm1 = s1.todos_map@;
    let tm2 = s2.todos_map@;
    let wm1 = s1.workspaces_map@;
    let wm2 = s2.workspaces_map@;
    &&& tm2.len() == tm1.len()
    &&& wm2.len() == wm1.len()
    &&& s2.root_workspaces == s1.root_workspaces
    &&& forall|j: int| todo_live(tm1, j) == todo_live(tm2, j)
    &&& forall|j: int| ws_live(wm1, j) == ws_live(wm2, j)
    &&& forall|j: int|
        todo_live(tm1, j) ==> #[trigger] todo_at(tm2, j) == (TodoItem {
            children: todo_at(tm2, j).children,
            ..todo_at(tm1, j)
        })
    &&& forall|j: int|
        ws_live(wm1, j) ==> #[trigger] ws_at(wm2, j) == (WorkspaceItem {
            todos: ws_at(wm2, j).todos,
            ..ws_at(wm1, j)
        })
    &&& forall|j: int, i: int|
        todo_live(tm2, j) && 0 <= i < todo_at(tm2, j).children@.len() ==> todo_at(
            tm1,
            j,
        ).children@.contains(#[trigger] todo_at(tm2, j).children@[i])
    &&& forall|j: int, i: int|
        ws_live(wm2, j) && 0 <= i < ws_at(wm2, j).todos@.len() ==> ws_at(
            wm1,
            j,
        ).todos@.contains(#[trigger] ws_at(wm2, j).todos@[i])
    &&& forall|j: int, x: usize|
        todo_live(tm1, j) && #[trigger] todo_at(tm1, j).children@.contains(x) && !todo_at(
            tm2,
            j,
        ).children@.contains(x) ==> #[trigger] recorded.contains(x)
    &&& forall|j: int, x: usize|
        ws_live(wm1, j) && #[trigger] ws_at(wm1, j).todos@.contains(x) && !ws_at(
            wm2,
            j,
        ).todos@.contains(x) ==> #[trigger] recorded.contains(x)
}

/// The relation holds of a store that did not move.
pub proof fn lemma_cut_todos_store_rel_refl(s: SlotMapStore, recorded: Seq<usize>)
    ensures
        cut_todos_store_rel(s, s, recorded),
{
}

/// The relation chains.
pub proof fn lemma_cut_todos_store_rel_trans(
    s1: SlotMapStore,
    s2: SlotMapStore,
    s3: SlotMapStore,
    recorded: Seq<usize>,
)
    requires
        cut_todos_store_rel(s1, s2, recorded),
        cut_todos_store_rel(s2, s3, recorded),
    ensures
        cut_todos_store_rel(s1, s3, recorded),
{
    let tm1 = s1.todos_map@;
    let tm2 = s2.todos_map@;
    let tm3 = s3.todos_map@;
    let wm1 = s1.workspaces_map@;
    let wm2 = s2.workspaces_map@;
    let wm3 = s3.workspaces_map@;
    assert forall|j: int, i: int|
        todo_live(tm3, j) && 0 <= i < todo_at(tm3, j).children@.len() implies todo_at(
            tm1,
            j,
        ).children@.contains(#[trigger] todo_at(tm3, j).children@[i]) by {
        assert(todo_at(tm2, j).children@.contains(todo_at(tm3, j).children@[i]));
        let w = choose|w: int|
            0 <= w < todo_at(tm2, j).children@.len() && todo_at(tm2, j).children@[w] == todo_at(
                tm3,
                j,
            ).children@[i];
        assert(todo_at(tm1, j).children@.contains(todo_at(tm2, j).children@[w]));
    }
    assert forall|j: int, i: int|
        ws_live(wm3, j) && 0 <= i < ws_at(wm3, j).todos@.len() implies ws_at(
            wm1,
            j,
        ).todos@.contains(#[trigger] ws_at(wm3, j).todos@[i]) by {
        assert(ws_at(wm2, j).todos@.contains(ws_at(wm3, j).todos@[i]));
        let w = choose|w: int|
            0 <= w < ws_at(wm2, j).todos@.len() && ws_at(wm2, j).todos@[w] == ws_at(
                wm3,
                j,
            ).todos@[i];
        assert(ws_at(wm1, j).todos@.contains(ws_at(wm2, j).todos@[w]));
    }
    assert forall|j: int, x: usize|
        todo_live(tm1, j) && #[trigger] todo_at(tm1, j).children@.contains(x) && !todo_at(
            tm3,
            j,
        ).children@.contains(x) implies #[trigger] recorded.contains(x) by {
        if todo_at(tm2, j).children@.contains(x) {
            assert(recorded.contains(x));
        } else {
            assert(recorded.contains(x));
        }
    }
    assert forall|j: int, x: usize|
        ws_live(wm1, j) && #[trigger] ws_at(wm1, j).todos@.contains(x) && !ws_at(
            wm3,
            j,
        ).todos@.contains(x) implies #[trigger] recorded.contains(x) by {
        if ws_at(wm2, j).todos@.contains(x) {
            assert(recorded.contains(x));
        } else {
            assert(recorded.contains(x));
        }
    }
}

/// One detach of a recorded handle satisfies the relation: the one owner
/// list loses exactly its occurrence of that handle.
pub proof fn lemma_detach_is_cut_step(
    s1: SlotMapStore,
    s2: SlotMapStore,
    rows: Seq<ActiveTree>,
    sel: Option<usize>,
    x: usize,
    recorded: Seq<usize>,
)
    requires
        s1.wf(),
        row_keys(rows).contains(x),
        detach_todo_rel(s1, s2, rows, sel, x),
        recorded.contains(x),
        match rows[first_index(row_keys(rows), x)].parent {
            Some(p) => todo_live(s1.todos_map@, p as int),
            None => sel is Some && ws_live(s1.workspaces_map@, sel->Some_0 as int),
        },
    ensures
        cut_todos_store_rel(s1, s2, recorded),
{
    let tm1 = s1.todos_map@;
    let tm2 = s2.todos_map@;
    let wm1 = s1.workspaces_map@;
    let wm2 = s2.workspaces_map@;
    let j = first_index(row_keys(rows), x);
    match rows[j].parent {
        Some(p) => {
            let c1 = todo_at(tm1, p as int).children@;
            assert forall|q: int| todo_live(tm1, q) == todo_live(tm2, q) by {
                if 0 <= q < tm1.len() && q != p {
                    assert(tm2[q] == tm1[q]);
                }
            }
            if c1.contains(x) {
                lemma_first_index(c1, x);
                c1.remove_ensures(first_index(c1, x));
            }
            assert forall|q: int, i: int|
                todo_live(tm2, q) && 0 <= i < todo_at(tm2, q).children@.len() implies todo_at(
                    tm1,
                    q,
                ).children@.contains(#[trigger] todo_at(tm2, q).children@[i]) by {
                if q != p {
                    assert(tm2[q] == tm1[q]);
                    assert(todo_at(tm1, q).children@[i] == todo_at(tm2, q).children@[i]);
                } else {
                    if c1.contains(x) {
                        let fi = first_index(c1, x);
                        if i < fi {
                            assert(todo_at(tm2, q).children@[i] == c1[i]);
                        } else {
                            assert(todo_at(tm2, q).children@[i] == c1[i + 1]);
                        }
                    }
                }
            }
            assert forall|q: int| todo_live(tm1, q) implies #[trigger] todo_at(tm2, q) == (
            TodoItem { children: todo_at(tm2, q).children, ..todo_at(tm1, q) }) by {
                if q != p {
                    assert(tm2[q] == tm1[q]);
                }
            }
            assert forall|q: int| ws_live(wm1, q) implies #[trigger] ws_at(wm2, q) == (
            WorkspaceItem { todos: ws_at(wm2, q).todos, ..ws_at(wm1, q) }) by {}
            assert forall|q: int, y: usize|
                todo_live(tm1, q) && #[trigger] todo_at(tm1, q).children@.contains(y)
                    && !todo_at(tm2, q).children@.contains(y)
                implies #[trigger] recorded.contains(y) by {
                if q != p {
                    assert(tm2[q] == tm1[q]);
                } else {
                    if c1.contains(x) {
                        let fi = first_index(c1, x);
                        if y != x {
                            let w = choose|w: int| 0 <= w < c1.len() && c1[w] == y;
                            if w < fi {
                                assert(todo_at(tm2, q).children@[w] == c1[w]);
                                assert(todo_at(tm2, q).children@.contains(y));
                            } else if w > fi {
                                assert(todo_at(tm2, q).children@[w - 1] == c1[w]);
                                assert(todo_at(tm2, q).children@.contains(y));
                            } else {
                                assert(c1[fi] == x);
                            }
                        }
                    }
                }
            }
        },
        None => {
            let w0 = sel->Some_0;
            let t1 = ws_at(wm1, w0 as int).todos@;
            assert forall|q: int| ws_live(wm1, q) == ws_live(wm2, q) by {
                if 0 <= q < wm1.len() && q != w0 {
                    assert(wm2[q] == wm1[q]);
                }
            }
            if t1.contains(x) {
                lemma_first_index(t1, x);
                t1.remove_ensures(first_index(t1, x));
            }
            assert forall|q: int, i: int|
                ws_live(wm2, q) && 0 <= i < ws_at(wm2, q).todos@.len() implies ws_at(
                    wm1,
                    q,
                ).todos@.contains(#[trigger] ws_at(wm2, q).todos@[i]) by {
                if q != w0 {
                    assert(wm2[q] == wm1[q]);
                    assert(ws_at(wm1, q).todos@[i] == ws_at(wm2, q).todos@[i]);
                } else {
                    if t1.contains(x) {
                        let fi = first_index(t1, x);
                        if i < fi {
                            assert(ws_at(wm2, q).todos@[i] == t1[i]);
                        } else {
                            assert(ws_at(wm2, q).todos@[i] == t1[i + 1]);
                        }
                    }
                }
            }
            assert forall|q: int| ws_live(wm1, q) implies #[trigger] ws_at(wm2, q) == (
            WorkspaceItem { todos: ws_at(wm2, q).todos, ..ws_at(wm1, q) }) by {
                if q != w0 {
                    assert(wm2[q] == wm1[q]);
                }
            }
            assert forall|q: int, y: usize|
                ws_live(wm1, q) && #[trigger] ws_at(wm1, q).todos@.contains(y) && !ws_at(
                    wm2,
                    q,
                ).todos@.contains(y) implies #[trigger] recorded.contains(y) by {
                if q != w0 {
                    assert(wm2[q] == wm1[q]);
                } else {
                    if t1.contains(x) {
                        let fi = first_index(t1, x);
                        if y != x {
                            let w = choose|w: int| 0 <= w < t1.len() && t1[w] == y;
                            if w < fi {
                                assert(ws_at(wm2, q).todos@[w] == t1[w]);
                                assert(ws_at(wm2, q).todos@.contains(y));
                            } else if w > fi {
                                assert(ws_at(wm2, q).todos@[w - 1] == t1[w]);
                                assert(ws_at(wm2, q).todos@.contains(y));
                            } else {
                                assert(t1[fi] == x);
                            }
                        }
                    }
                }
            }
        },
    }
}

/// How a store follows from another by detaching only workspaces of the
/// recorded set: slots keep their content and their todos, every owner list
/// — child lists and the root list — keeps its order and loses nothing but
/// recorded handles, and the todo arena stands still.
pub open spec fn cut_ws_store_rel(s1: SlotMapStore, s2: SlotMapStore, recorded: Seq<usize>) -> bool {
    let wm1 = s1.workspaces_map@;
    let wm2 = s2.workspaces_map@;
    &&& wm2.len() == wm1.len()
    &&& s2.todos_map == s1.todos_map
    &&& forall|j: int| ws_live(wm1, j) == ws_live(wm2, j)
    &&& forall|j: int|
        ws_live(wm1, j) ==> #[trigger] ws_at(wm2, j) == (WorkspaceItem {
            children: ws_at(wm2, j).children,
            ..ws_at(wm1, j)
        })
    &&& forall|j: int, i: int|
        ws_live(wm2, j) && 0 <= i < ws_at(wm2, j).children@.len() ==> ws_at(
            wm1,
            j,
        ).children@.contains(#[trigger] ws_at(wm2, j).children@[i])
    &&& forall|i: int|
        0 <= i < s2.root_workspaces@.len() ==> s1.root_workspaces@.contains(
            #[trigger] s2.root_workspaces@[i],
        )
    &&& forall|j: int, x: usize|
        ws_live(wm1, j) && #[trigger] ws_at(wm1, j).children@.contains(x) && !ws_at(
            wm2,
            j,
        ).children@.contains(x) ==> #[trigger] recorded.contains(x)
    &&& forall|x: usize|
        s1.root_workspaces@.contains(x) && !s2.root_workspaces@.contains(x)
            ==> #[trigger] recorded.contains(x)
}

/// The relation holds of a store that did not move.
pub proof fn lemma_cut_ws_store_rel_refl(s: SlotMapStore, recorded: Seq<usize>)
    ensures
        cut_ws_store_rel(s, s, recorded),
{
}

/// The relation chains.
pub proof fn lemma_cut_ws_store_rel_trans(
    s1: SlotMapStore,
    s2: SlotMapStore,
    s3: SlotMapStore,
    recorded: Seq<usize>,
)
    requires
        cut_ws_store_rel(s1, s2, recorded),
        cut_ws_store_rel(s2, s3, recorded),
    ensures
        cut_ws_store_rel(s1, s3, recorded),
{
    let wm1 = s1.workspaces_map@;
    let wm2 = s2.workspaces_map@;
    let wm3 = s3.workspaces_map@;
    assert forall|j: int, i: int|
        ws_live(wm3, j) && 0 <= i < ws_at(wm3, j).children@.len() implies ws_at(
            wm1,
            j,
        ).children@.contains(#[trigger] ws_at(wm3, j).children@[i]) by {
        assert(ws_at(wm2, j).children@.contains(ws_at(wm3, j).children@[i]));
        let w = choose|w: int|
            0 <= w < ws_at(wm2, j).children@.len() && ws_at(wm2, j).children@[w] == ws_at(
                wm3,
                j,
            ).children@[i];
        assert(ws_at(wm1, j).children@.contains(ws_at(wm2, j).children@[w]));
    }
    assert forall|i: int|
        0 <= i < s3.root_workspaces@.len() implies s1.root_workspaces@.contains(
            #[trigger] s3.root_workspaces@[i],
        ) by {
        assert(s2.root_workspaces@.contains(s3.root_workspaces@[i]));
        let w = choose|w: int|
            0 <= w < s2.root_workspaces@.len() && s2.root_workspaces@[w]
                == s3.root_workspaces@[i];
        assert(s1.root_workspaces@.contains(s2.root_workspaces@[w]));
    }
    assert forall|j: int, x: usize|
        ws_live(wm1, j) && #[trigger] ws_at(wm1, j).children@.contains(x) && !ws_at(
            wm3,
            j,
        ).children@.contains(x) implies #[trigger] recorded.contains(x) by {
        if ws_at(wm2, j).children@.contains(x) {
            assert(recorded.contains(x));
        } else {
            assert(recorded.contains(x));
        }
    }
    assert forall|x: usize|
        s1.root_workspaces@.contains(x) && !s3.root_workspaces@.contains(x)
        implies #[trigger] recorded.contains(x) by {
        if s2.root_workspaces@.contains(x) {
            assert(recorded.contains(x));
        } else {
            assert(recorded.contains(x));
        }
    }
}

/// One detach of a recorded workspace satisfies the relation.
pub proof fn lemma_ws_detach_is_cut_step(
    s1: SlotMapStore,
    s2: SlotMapStore,
    rows: Seq<ActiveTree>,
    x: usize,
    recorded: Seq<usize>,
)
    requires
        s1.wf(),
        row_keys(rows).contains(x),
        detach_ws_rel(s1, s2, rows, x),
        recorded.contains(x),
        match rows[first_index(row_keys(rows), x)].parent {
            Some(p) => ws_live(s1.workspaces_map@, p as int),
            None => true,
        },
    ensures
        cut_ws_store_rel(s1, s2, recorded),
{
    let wm1 = s1.workspaces_map@;
    let wm2 = s2.workspaces_map@;
    let j = first_index(row_keys(rows), x);
    match rows[j].parent {
        Some(p) => {
            let c1 = ws_at(wm1, p as int).children@;
            assert forall|q: int| ws_live(wm1, q) == ws_live(wm2, q) by {
                if 0 <= q < wm1.len() && q != p {
                    assert(wm2[q] == wm1[q]);
                }
            }
            if c1.contains(x) {
                lemma_first_index(c1, x);
                c1.remove_ensures(first_index(c1, x));
            }
            assert forall|q: int, i: int|
                ws_live(wm2, q) && 0 <= i < ws_at(wm2, q).children@.len() implies ws_at(
                    wm1,
                    q,
                ).children@.contains(#[trigger] ws_at(wm2, q).children@[i]) by {
                if q != p {
                    assert(wm2[q] == wm1[q]);
                    assert(ws_at(wm1, q).children@[i] == ws_at(wm2, q).children@[i]);
                } else {
                    if c1.contains(x) {
                        let fi = first_index(c1, x);
                        if i < fi {
                            assert(ws_at(wm2, q).children@[i] == c1[i]);
                        } else {
                            assert(ws_at(wm2, q).children@[i] == c1[i + 1]);
                        }
                    }
                }
            }
            assert forall|q: int| ws_live(wm1, q) implies #[trigger] ws_at(wm2, q) == (
            WorkspaceItem { children: ws_at(wm2, q).children, ..ws_at(wm1, q) }) by {
                if q != p {
                    assert(wm2[q] == wm1[q]);
                }
            }
            assert forall|q: int, y: usize|
                ws_live(wm1, q) && #[trigger] ws_at(wm1, q).children@.contains(y) && !ws_at(
                    wm2,
                    q,
                ).children@.contains(y) implies #[trigger] recorded.contains(y) by {
                if q != p {
                    assert(wm2[q] == wm1[q]);
                } else {
                    if c1.contains(x) {
                        let fi = first_index(c1, x);
                        if y != x {
                            let w = choose|w: int| 0 <= w < c1.len() && c1[w] == y;
                            if w < fi {
                                assert(ws_at(wm2, q).children@[w] == c1[w]);
                                assert(ws_at(wm2, q).children@.contains(y));
                            } else if w > fi {
                                assert(ws_at(wm2, q).children@[w - 1] == c1[w]);
                                assert(ws_at(wm2, q).children@.contains(y));
                            } else {
                                assert(c1[fi] == x);
                            }
                        }
                    }
                }
            }
        },
        None => {
            let r1 = s1.root_workspaces@;
            let r2 = s2.root_workspaces@;
            if r1.contains(x) {
                lemma_first_index(r1, x);
                r1.remove_ensures(first_index(r1, x));
            }
            assert forall|i: int|
                0 <= i < r2.len() implies r1.contains(#[trigger] r2[i]) by {
                if r1.contains(x) {
                    let fi = first_index(r1, x);
                    if i < fi {
                        assert(r2[i] == r1[i]);
                    } else {
                        assert(r2[i] == r1[i + 1]);
                    }
                }
            }
            assert forall|y: usize|
                r1.contains(y) && !r2.contains(y) implies #[trigger] recorded.contains(y) by {
                if r1.contains(x) {
                    let fi = first_index(r1, x);
                    if y != x {
                        let w = choose|w: int| 0 <= w < r1.len() && r1[w] == y;
                        if w < fi {
                            assert(r2[w] == r1[w]);
                            assert(r2.contains(y));
                        } else if w > fi {
                            assert(r2[w - 1] == r1[w]);
                            assert(r2.contains(y));
                        } else {
                            assert(r1[fi] == x);
                        }
                    }
                }
            }
        },
    }
}

/// Every live top-level todo contributes at least its own row.
pub proof fn lemma_todo_rows_from_min_len(s: SlotMapStore, opened: Seq<usize>, ks: Seq<usize>)
    requires
        forall|q: int| 0 <= q < ks.len() ==> todo_live(s.todos_map@, #[trigger] ks[q] as int),
    ensures
        crate::tree::todo_rows_from(s, opened, ks).len() >= ks.len(),
    decreases ks.len(),
{
    if ks.len() > 0 {
        assert(crate::tree::flat_todo(s.todos_map@, opened, ks[0], None, 0, s.tfuel()).len() >= 1);
        assert forall|q: int| 0 <= q < ks.drop_first().len() implies todo_live(
            s.todos_map@,
            #[trigger] ks.drop_first()[q] as int,
        ) by {
            assert(ks.drop_first()[q] == ks[q + 1]);
        }
        lemma_todo_rows_from_min_len(s, opened, ks.drop_first());
    }
}

/// The one-row case of the reselection law: deleting the only visible todo
/// empties the pane and the selection becomes none.
pub proof fn lemma_delete_last_row_empties(a: App, b: App, x: usize)
    requires
        a.wf(),
        a.slot_tree_state.todo_tree@.len() == 1,
        row_keys(a.slot_tree_state.todo_tree@).contains(x),
        detach_todo_rel(
            a.slot_map_store,
            b.slot_map_store,
            a.slot_tree_state.todo_tree@,
            a.slot_tree_state.selected_workspace,
            x,
        ),
        b.slot_tree_state.todo_opened == a.slot_tree_state.todo_opened,
        b.slot_tree_state.selected_workspace == a.slot_tree_state.selected_workspace,
        b.slot_tree_state.todo_tree@ == todo_rows(
            b.slot_map_store,
            b.slot_tree_state.todo_opened@,
            b.slot_tree_state.selected_workspace,
        ),
    ensures
        b.slot_tree_state.todo_tree@.len() == 0,
        reselected(
            b.slot_tree_state.todo_tree@,
            first_index(row_keys(a.slot_tree_state.todo_tree@), x),
        ) is None,
{
    let s1 = a.slot_map_store;
    let s2 = b.slot_map_store;
    let opened = a.slot_tree_state.todo_opened@;
    let rows = a.slot_tree_state.todo_tree@;
    match a.slot_tree_state.selected_workspace {
        None => {
            assert(rows =~= Seq::<ActiveTree>::empty());
        },
        Some(w) => {
            let ks = ws_at(s1.workspaces_map@, w as int).todos@;
            assert forall|q: int| 0 <= q < ks.len() implies todo_live(
                s1.todos_map@,
                #[trigger] ks[q] as int,
            ) by {
                assert(ws_live(s1.workspaces_map@, w as int));
            }
            lemma_todo_rows_from_min_len(s1, opened, ks);
            assert(ks.len() <= 1);
            assert(ks.len() == 1) by {
                if ks.len() == 0 {
                    assert(rows =~= Seq::<ActiveTree>::empty());
                }
            }
            // the single row is the head of the single top-level subtree
            assert(todo_live(s1.todos_map@, ks[0] as int));
            let head = crate::tree::flat_todo(s1.todos_map@, opened, ks[0], None, 0, s1.tfuel());
            assert(rows[0] == head[0]);
            assert(head[0].key == ks[0] && head[0].parent is None);
            let j = first_index(row_keys(rows), x);
            lemma_first_index(row_keys(rows), x);
            assert(j == 0);
            assert(x == ks[0]);
            // the detach empties the workspace's own list
            assert(ws_at(s2.workspaces_map@, w as int).todos@ == remove_first(ks, x));
            assert(ks.contains(x)) by {
                assert(ks[0] == x);
            }
            lemma_first_index(ks, x);
            assert(first_index(ks, x) == 0);
            assert(remove_first(ks, x) =~= Seq::<usize>::empty());
            assert(b.slot_tree_state.todo_tree@ =~= Seq::<ActiveTree>::empty());
        },
    }
}

/// Whether everything of the state except the document, the todo selection
/// and the armed sort is unchanged between two states.
pub open spec fn pane_frame(a: App, b: App) -> bool {
    &&& b.slot_tree_state.selected_workspace == a.slot_tree_state.selected_workspace
    &&& b.slot_tree_state.ws_opened == a.slot_tree_state.ws_opened
    &&& b.slot_tree_state.todo_opened == a.slot_tree_state.todo_opened
    &&& b.slot_tree_state.multi_selected_todos == a.slot_tree_state.multi_selected_todos
    &&& b.slot_tree_state.multi_selected_workspaces == a.slot_tree_state.multi_selected_workspaces
    &&& b.running == a.running
    &&& b.input == a.input
    &&& b.new_editing_id == a.new_editing_id
    &&& b.active_screen == a.active_screen
    &&& b.clipboard_todos == a.clipboard_todos
    &&& b.clipboard_workspaces == a.clipboard_workspaces
    &&& b.search_mode == a.search_mode
    &&& b.search_str == a.search_str
    &&& b.search_matches == a.search_matches
    &&& b.current_match_index == a.current_match_index
}

/// Whether everything outside the document state — modes, clipboards, search
/// — is unchanged between two states.
pub open spec fn unchanged_modes(a: App, b: App) -> bool {
    &&& b.running == a.running
    &&& b.input == a.input
    &&& b.new_editing_id == a.new_editing_id
    &&& b.active_screen == a.active_screen
    &&& b.sorting == a.sorting
    &&& b.clipboard_todos == a.clipboard_todos
    &&& b.clipboard_workspaces == a.clipboard_workspaces
    &&& b.search_mode == a.search_mode
    &&& b.search_str == a.search_str
    &&& b.search_matches == a.search_matches
    &&& b.current_match_index == a.current_match_index
}

} // verus!
