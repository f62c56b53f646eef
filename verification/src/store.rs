//! The document in its nested, by-value form: workspaces holding child
//! workspaces and todos, todos holding subtasks. This is the shape that is
//! persisted; ids are the only identity that survives a save and a load.

use vstd::prelude::*;

verus! {

/// A point in time, as seconds and subsecond nanoseconds since the Unix epoch.
#[derive(Clone, Copy, PartialEq, Eq, Structural, Debug)]
pub struct Timestamp {
    pub secs: u64,
    pub nanos: u32,
}

/// Mathematical model of a todo: its content and the models of its
/// subtasks, in order.
pub struct TodoV {
    pub id: Seq<char>,
    pub description: Seq<char>,
    pub due: Option<Timestamp>,
    pub effort: int,
    pub urgency: int,
    pub pending: bool,
    pub children: Seq<TodoV>,
}

/// Mathematical model of a workspace: its content, the models of its child
/// workspaces and of its direct todos, in order.
pub struct WorkspaceV {
    pub id: Seq<char>,
    pub description: Seq<char>,
    pub children: Seq<WorkspaceV>,
    pub todos: Seq<TodoV>,
}

/// A task node; `children` are its subtasks.
pub struct Todo {
    pub id: String,
    pub description: String,
    pub due: Option<Timestamp>,
    pub effort: usize,
    pub urgency: usize,
    pub pending: bool,
    pub children: Vec<Todo>,
}

/// A grouping node; `children` are nested workspaces, `todos` its direct tasks.
pub struct Workspace {
    pub id: String,
    pub description: String,
    pub children: Vec<Workspace>,
    pub todos: Vec<Todo>,
}

/// The whole document: the ordered list of root workspaces.
pub struct Store {
    pub workspaces: Vec<Workspace>,
}

/// The models of a sequence of todos, in order.
pub open spec fn todo_models(ts: Seq<Todo>) -> Seq<TodoV>
    decreases ts,
{
    if ts.len() == 0 {
        Seq::empty()
    } else {
        seq![ts[0].model()] + todo_models(ts.drop_first())
    }
}

/// The models of a sequence of workspaces, in order.
pub open spec fn workspace_models(ws: Seq<Workspace>) -> Seq<WorkspaceV>
    decreases ws,
{
    if ws.len() == 0 {
        Seq::empty()
    } else {
        seq![ws[0].model()] + workspace_models(ws.drop_first())
    }
}

impl Todo {
    /// The model of this todo.
    pub open spec fn model(self) -> TodoV
        decreases self via Self::model_decreases
    {
        TodoV {
            id: self.id@,
            description: self.description@,
            due: self.due,
            effort: self.effort as int,
            urgency: self.urgency as int,
            pending: self.pending,
            children: todo_models(self.children@),
        }
    }

    #[via_fn]
    proof fn model_decreases(self) {
        assert(decreases_to!(self => self.children));
        assert(decreases_to!(self.children => self.children@));
    }
}

impl Workspace {
    /// The model of this workspace.
    pub open spec fn model(self) -> WorkspaceV
        decreases self via Self::model_decreases
    {
        WorkspaceV {
            id: self.id@,
            description: self.description@,
            children: workspace_models(self.children@),
            todos: todo_models(self.todos@),
        }
    }

    #[via_fn]
    proof fn model_decreases(self) {
        assert(decreases_to!(self => self.children));
        assert(decreases_to!(self.children => self.children@));
    }
}

impl Store {
    /// The model of the document: the models of its root workspaces.
    pub open spec fn model(self) -> Seq<WorkspaceV> {
        workspace_models(self.workspaces@)
    }
}

/// The data model bounds urgency: it never exceeds three, anywhere in a
/// todo's subtree.
pub open spec fn todo_urgency_ok(v: TodoV) -> bool
    decreases v,
{
    0 <= v.urgency <= 3 && todos_urgency_ok(v.children)
}

/// As `todo_urgency_ok`, over a list of todo models.
pub open spec fn todos_urgency_ok(vs: Seq<TodoV>) -> bool
    decreases vs,
{
    vs.len() == 0 || (todo_urgency_ok(vs[0]) && todos_urgency_ok(vs.drop_first()))
}

/// As `todo_urgency_ok`, over a workspace model and everything below it.
pub open spec fn ws_urgency_ok(v: WorkspaceV) -> bool
    decreases v,
{
    wss_urgency_ok(v.children) && todos_urgency_ok(v.todos)
}

/// As `ws_urgency_ok`, over a list of workspace models.
pub open spec fn wss_urgency_ok(vs: Seq<WorkspaceV>) -> bool
    decreases vs,
{
    vs.len() == 0 || (ws_urgency_ok(vs[0]) && wss_urgency_ok(vs.drop_first()))
}

/// The views of the ids on a path, outermost first.
pub open spec fn path_view(path: Seq<String>) -> Seq<Seq<char>> {
    Seq::new(path.len(), |i: int| path[i]@)
}

/// Index of the first todo model in `ms` whose id is `id`.
pub open spec fn find_v(ms: Seq<TodoV>, id: Seq<char>) -> Option<int>
    decreases ms.len(),
{
    if ms.len() == 0 {
        None
    } else if ms[0].id == id {
        Some(0int)
    } else {
        match find_v(ms.drop_first(), id) {
            None => None,
            Some(j) => Some(j + 1),
        }
    }
}

/// Index of the first workspace model in `ms` whose id is `id`.
pub open spec fn find_ws_v(ms: Seq<WorkspaceV>, id: Seq<char>) -> Option<int>
    decreases ms.len(),
{
    if ms.len() == 0 {
        None
    } else if ms[0].id == id {
        Some(0int)
    } else {
        match find_ws_v(ms.drop_first(), id) {
            None => None,
            Some(j) => Some(j + 1),
        }
    }
}

/// Follow the ids of `path` from `pos` on, down through the children of `m`;
/// at each step the first child with the sought id is taken. An exhausted
/// path finds `m` itself.
pub open spec fn descend_v(m: TodoV, path: Seq<Seq<char>>, pos: int) -> Option<TodoV>
    decreases path.len() - pos,
{
    if pos >= path.len() {
        Some(m)
    } else {
        match find_v(m.children, path[pos]) {
            None => None,
            Some(j) => descend_v(m.children[j], path, pos + 1),
        }
    }
}

/// As `descend_v`, over a workspace model and its child-workspace lists.
pub open spec fn descend_ws_v(m: WorkspaceV, path: Seq<Seq<char>>, pos: int) -> Option<WorkspaceV>
    decreases path.len() - pos,
{
    if pos >= path.len() {
        Some(m)
    } else {
        match find_ws_v(m.children, path[pos]) {
            None => None,
            Some(j) => descend_ws_v(m.children[j], path, pos + 1),
        }
    }
}

/// Follow a path of ids through a forest of todo models. An empty path finds
/// nothing.
pub open spec fn lookup_v(ms: Seq<TodoV>, path: Seq<Seq<char>>) -> Option<TodoV> {
    if path.len() == 0 {
        None
    } else {
        match find_v(ms, path[0]) {
            None => None,
            Some(j) => descend_v(ms[j], path, 1),
        }
    }
}

/// As `lookup_v`, over workspace models.
pub open spec fn lookup_ws_v(ms: Seq<WorkspaceV>, path: Seq<Seq<char>>) -> Option<WorkspaceV> {
    if path.len() == 0 {
        None
    } else {
        match find_ws_v(ms, path[0]) {
            None => None,
            Some(j) => descend_ws_v(ms[j], path, 1),
        }
    }
}

/// `m` with the todo that the rest of the path leads to replaced by `nv`;
/// `m` unchanged where the path leads nowhere, `nv` itself on an exhausted
/// path.
pub open spec fn replace_in_v(m: TodoV, path: Seq<Seq<char>>, pos: int, nv: TodoV) -> TodoV
    decreases path.len() - pos,
{
    if pos >= path.len() {
        nv
    } else {
        match find_v(m.children, path[pos]) {
            None => m,
            Some(j) => (TodoV {
                children: m.children.update(j, replace_in_v(m.children[j], path, pos + 1, nv)),
                ..m
            }),
        }
    }
}

/// As `replace_in_v`, over a workspace model.
pub open spec fn replace_in_ws_v(
    m: WorkspaceV,
    path: Seq<Seq<char>>,
    pos: int,
    nv: WorkspaceV,
) -> WorkspaceV
    decreases path.len() - pos,
{
    if pos >= path.len() {
        nv
    } else {
        match find_ws_v(m.children, path[pos]) {
            None => m,
            Some(j) => (WorkspaceV {
                children: m.children.update(j, replace_in_ws_v(m.children[j], path, pos + 1, nv)),
                ..m
            }),
        }
    }
}

/// The forest of todo models with the todo that the path leads to replaced by
/// `nv`; unchanged where the path leads nowhere.
pub open spec fn replace_v(ms: Seq<TodoV>, path: Seq<Seq<char>>, nv: TodoV) -> Seq<TodoV> {
    if path.len() == 0 {
        ms
    } else {
        match find_v(ms, path[0]) {
            None => ms,
            Some(j) => ms.update(j, replace_in_v(ms[j], path, 1, nv)),
        }
    }
}

/// As `replace_v`, over workspace models.
pub open spec fn replace_ws_v(ms: Seq<WorkspaceV>, path: Seq<Seq<char>>, nv: WorkspaceV) -> Seq<
    WorkspaceV,
> {
    if path.len() == 0 {
        ms
    } else {
        match find_ws_v(ms, path[0]) {
            None => ms,
            Some(j) => ms.update(j, replace_in_ws_v(ms[j], path, 1, nv)),
        }
    }
}

/// `todo_models` maps the sequence elementwise.
pub broadcast proof fn lemma_todo_models(ts: Seq<Todo>)
    ensures
        (#[trigger] todo_models(ts)).len() == ts.len(),
        forall|i: int| 0 <= i < ts.len() ==> (#[trigger] todo_models(ts)[i]) == ts[i].model(),
    decreases ts.len(),
{
    if ts.len() > 0 {
        lemma_todo_models(ts.drop_first());
    }
}

/// `workspace_models` maps the sequence elementwise.
pub broadcast proof fn lemma_workspace_models(ws: Seq<Workspace>)
    ensures
        (#[trigger] workspace_models(ws)).len() == ws.len(),
        forall|i: int| 0 <= i < ws.len() ==> (#[trigger] workspace_models(ws)[i]) == ws[i].model(),
    decreases ws.len(),
{
    if ws.len() > 0 {
        lemma_workspace_models(ws.drop_first());
    }
}

/// What `find_v` returns: the first index carrying the sought id, if any.
pub proof fn lemma_find_v_spec(ms: Seq<TodoV>, id: Seq<char>)
    ensures
        match find_v(ms, id) {
            Some(j) => 0 <= j < ms.len() && ms[j].id == id && forall|i: int|
                0 <= i < j ==> ms[i].id != id,
            None => forall|i: int| 0 <= i < ms.len() ==> ms[i].id != id,
        },
    decreases ms.len(),
{
    if ms.len() > 0 && ms[0].id != id {
        lemma_find_v_spec(ms.drop_first(), id);
        assert forall|i: int| 1 <= i < ms.len() implies ms[i] == ms.drop_first()[i - 1] by {}
    }
}

/// `find_v` returns the index of a first match.
pub proof fn lemma_find_v_first(ms: Seq<TodoV>, id: Seq<char>, j: int)
    requires
        0 <= j < ms.len(),
        ms[j].id == id,
        forall|i: int| 0 <= i < j ==> ms[i].id != id,
    ensures
        find_v(ms, id) == Some(j),
    decreases ms.len(),
{
    if j > 0 {
        lemma_find_v_first(ms.drop_first(), id, j - 1);
    }
}

/// `find_v` finds nothing when nothing matches.
pub proof fn lemma_find_v_none(ms: Seq<TodoV>, id: Seq<char>)
    requires
        forall|i: int| 0 <= i < ms.len() ==> ms[i].id != id,
    ensures
        find_v(ms, id) is None,
    decreases ms.len(),
{
    if ms.len() > 0 {
        lemma_find_v_none(ms.drop_first(), id);
    }
}

/// What `find_ws_v` returns: the first index carrying the sought id, if any.
pub proof fn lemma_find_ws_v_spec(ms: Seq<WorkspaceV>, id: Seq<char>)
    ensures
        match find_ws_v(ms, id) {
            Some(j) => 0 <= j < ms.len() && ms[j].id == id && forall|i: int|
                0 <= i < j ==> ms[i].id != id,
            None => forall|i: int| 0 <= i < ms.len() ==> ms[i].id != id,
        },
    decreases ms.len(),
{
    if ms.len() > 0 && ms[0].id != id {
        lemma_find_ws_v_spec(ms.drop_first(), id);
        assert forall|i: int| 1 <= i < ms.len() implies ms[i] == ms.drop_first()[i - 1] by {}
    }
}

/// `find_ws_v` returns the index of a first match.
pub proof fn lemma_find_ws_v_first(ms: Seq<WorkspaceV>, id: Seq<char>, j: int)
    requires
        0 <= j < ms.len(),
        ms[j].id == id,
        forall|i: int| 0 <= i < j ==> ms[i].id != id,
    ensures
        find_ws_v(ms, id) == Some(j),
    decreases ms.len(),
{
    if j > 0 {
        lemma_find_ws_v_first(ms.drop_first(), id, j - 1);
    }
}

/// `find_ws_v` finds nothing when nothing matches.
pub proof fn lemma_find_ws_v_none(ms: Seq<WorkspaceV>, id: Seq<char>)
    requires
        forall|i: int| 0 <= i < ms.len() ==> ms[i].id != id,
    ensures
        find_ws_v(ms, id) is None,
    decreases ms.len(),
{
    if ms.len() > 0 {
        lemma_find_ws_v_none(ms.drop_first(), id);
    }
}


/// Updating a sequence with the value it already holds leaves it unchanged.
pub broadcast proof fn lemma_seq_update_identity<A>(s: Seq<A>, j: int, a: A)
    requires
        0 <= j < s.len(),
        s[j] == a,
    ensures
        #[trigger] s.update(j, a) == s,
{
    assert(s.update(j, a) =~= s);
}

/// `todo_models` rewrites an update pointwise.
pub broadcast proof fn lemma_todo_models_update(s: Seq<Todo>, j: int, x: Todo)
    requires
        0 <= j < s.len(),
    ensures
        #![trigger todo_models(s), s.update(j, x)]
        todo_models(s.update(j, x)) == todo_models(s).update(j, x.model()),
{
    broadcast use lemma_todo_models;

    assert(todo_models(s.update(j, x)) =~= todo_models(s).update(j, x.model()));
}

/// `workspace_models` rewrites an update pointwise.
pub broadcast proof fn lemma_workspace_models_update(s: Seq<Workspace>, j: int, x: Workspace)
    requires
        0 <= j < s.len(),
    ensures
        #![trigger workspace_models(s), s.update(j, x)]
        workspace_models(s.update(j, x)) == workspace_models(s).update(j, x.model()),
{
    broadcast use lemma_workspace_models;

    assert(workspace_models(s.update(j, x)) =~= workspace_models(s).update(j, x.model()));
}

/// Index of the first todo in `ts` whose id equals `id`, as `find_v` over the
/// models.
#[verifier::loop_isolation(false)]
fn position_todo_by_id(ts: &Vec<Todo>, id: &String) -> (r: Option<usize>)
    ensures
        match r {
            Some(j) => find_v(todo_models(ts@), id@) == Some(j as int),
            None => find_v(todo_models(ts@), id@) is None,
        },
{
    broadcast use lemma_todo_models;

    let mut j: usize = 0;
    while j < ts.len()
        invariant
            j <= ts@.len(),
            forall|i: int| 0 <= i < j ==> todo_models(ts@)[i].id != id@,
        decreases ts@.len() - j,
    {
        if ts[j].id == *id {
            proof {
                lemma_find_v_first(todo_models(ts@), id@, j as int);
            }
            return Some(j);
        }
        j += 1;
    }
    proof {
        lemma_find_v_none(todo_models(ts@), id@);
    }
    None
}

/// Index of the first workspace in `ws` whose id equals `id`, as `find_ws_v`
/// over the models.
#[verifier::loop_isolation(false)]
fn position_ws_by_id(ws: &Vec<Workspace>, id: &String) -> (r: Option<usize>)
    ensures
        match r {
            Some(j) => find_ws_v(workspace_models(ws@), id@) == Some(j as int),
            None => find_ws_v(workspace_models(ws@), id@) is None,
        },
{
    broadcast use lemma_workspace_models;

    let mut j: usize = 0;
    while j < ws.len()
        invariant
            j <= ws@.len(),
            forall|i: int| 0 <= i < j ==> workspace_models(ws@)[i].id != id@,
        decreases ws@.len() - j,
    {
        if ws[j].id == *id {
            proof {
                lemma_find_ws_v_first(workspace_models(ws@), id@, j as int);
            }
            return Some(j);
        }
        j += 1;
    }
    proof {
        lemma_find_ws_v_none(workspace_models(ws@), id@);
    }
    None
}

/// Walk the rest of the path down through the children of `t`.
fn descend_todo<'a>(t: &'a Todo, path: &[String], pos: usize) -> (r: Option<&'a Todo>)
    requires
        pos <= path@.len(),
    ensures
        match r {
            Some(x) => descend_v(t.model(), path_view(path@), pos as int) == Some(x.model()),
            None => descend_v(t.model(), path_view(path@), pos as int) is None,
        },
    decreases path@.len() - pos,
{
    broadcast use lemma_todo_models;

    if pos == path.len() {
        return Some(t);
    }
    match position_todo_by_id(&t.children, &path[pos]) {
        None => None,
        Some(j) => {
            proof {
                lemma_todo_models(t.children@);
                lemma_find_v_spec(todo_models(t.children@), path@[pos as int]@);
            }
            descend_todo(&t.children[j], path, pos + 1)
        },
    }
}

/// Walk the rest of the path down through the child workspaces of `w`.
fn descend_ws<'a>(w: &'a Workspace, path: &[String], pos: usize) -> (r: Option<&'a Workspace>)
    requires
        pos <= path@.len(),
    ensures
        match r {
            Some(x) => descend_ws_v(w.model(), path_view(path@), pos as int) == Some(x.model()),
            None => descend_ws_v(w.model(), path_view(path@), pos as int) is None,
        },
    decreases path@.len() - pos,
{
    broadcast use lemma_workspace_models;

    if pos == path.len() {
        return Some(w);
    }
    match position_ws_by_id(&w.children, &path[pos]) {
        None => None,
        Some(j) => {
            proof {
                lemma_workspace_models(w.children@);
                lemma_find_ws_v_spec(workspace_models(w.children@), path@[pos as int]@);
            }
            descend_ws(&w.children[j], path, pos + 1)
        },
    }
}

/// As `descend_todo`, but handing back a mutable reference; the final value
/// of the walked tree is the old one with the found todo replaced.
fn descend_mut_todo<'a>(t: &'a mut Todo, path: &[String], pos: usize) -> (r: Option<&'a mut Todo>)
    requires
        pos <= path@.len(),
    ensures
        match r {
            None => final(t).model() == old(t).model() && descend_v(
                old(t).model(),
                path_view(path@),
                pos as int,
            ) is None,
            Some(x) => descend_v(old(t).model(), path_view(path@), pos as int) == Some((*x).model())
                && final(t).model() == replace_in_v(
                old(t).model(),
                path_view(path@),
                pos as int,
                final(x).model(),
            ),
        },
    decreases path@.len() - pos,
{
    broadcast use lemma_todo_models;
    broadcast use lemma_todo_models_update;
    broadcast use lemma_seq_update_identity;

    if pos == path.len() {
        return Some(t);
    }
    match position_todo_by_id(&t.children, &path[pos]) {
        None => None,
        Some(j) => {
            proof {
                lemma_todo_models(t.children@);
                lemma_find_v_spec(todo_models(t.children@), path@[pos as int]@);
            }
            descend_mut_todo(&mut t.children[j], path, pos + 1)
        },
    }
}

/// As `descend_ws`, but handing back a mutable reference; the final value of
/// the walked tree is the old one with the found workspace replaced.
fn descend_mut_ws<'a>(w: &'a mut Workspace, path: &[String], pos: usize) -> (r: Option<
    &'a mut Workspace,
>)
    requires
        pos <= path@.len(),
    ensures
        match r {
            None => final(w).model() == old(w).model() && descend_ws_v(
                old(w).model(),
                path_view(path@),
                pos as int,
            ) is None,
            Some(x) => descend_ws_v(old(w).model(), path_view(path@), pos as int) == Some(
                (*x).model(),
            ) && final(w).model() == replace_in_ws_v(
                old(w).model(),
                path_view(path@),
                pos as int,
                final(x).model(),
            ),
        },
    decreases path@.len() - pos,
{
    broadcast use lemma_workspace_models;
    broadcast use lemma_workspace_models_update;
    broadcast use lemma_seq_update_identity;

    if pos == path.len() {
        return Some(w);
    }
    match position_ws_by_id(&w.children, &path[pos]) {
        None => None,
        Some(j) => {
            proof {
                lemma_workspace_models(w.children@);
                lemma_find_ws_v_spec(workspace_models(w.children@), path@[pos as int]@);
            }
            descend_mut_ws(&mut w.children[j], path, pos + 1)
        },
    }
}

impl Workspace {
    /// The todo that the id path `selected` leads to among this workspace's
    /// todos, if any: at each level the first node with the sought id counts.
    pub fn get_todo(&self, selected: &[String]) -> (r: Option<&Todo>)
        ensures
            match r {
                Some(t) => lookup_v(todo_models(self.todos@), path_view(selected@)) == Some(
                    t.model(),
                ),
                None => lookup_v(todo_models(self.todos@), path_view(selected@)) is None,
            },
    {
        broadcast use lemma_todo_models;

        if selected.len() == 0 {
            return None;
        }
        match position_todo_by_id(&self.todos, &selected[0]) {
            None => None,
            Some(j) => {
                proof {
                    lemma_todo_models(self.todos@);
                    lemma_find_v_spec(todo_models(self.todos@), selected@[0]@);
                }
                descend_todo(&self.todos[j], selected, 1)
            },
        }
    }

    /// As `get_todo`, but for mutation: afterwards this workspace carries the
    /// found todo replaced by whatever the caller leaves behind the handed-out
    /// reference.
    pub fn get_mut_todo(&mut self, selected: &[String]) -> (r: Option<&mut Todo>)
        ensures
            match r {
                None => final(self).model() == old(self).model() && lookup_v(
                    todo_models(old(self).todos@),
                    path_view(selected@),
                ) is None,
                Some(t) => lookup_v(todo_models(old(self).todos@), path_view(selected@)) == Some(
                    (*t).model(),
                ) && final(self).model() == (WorkspaceV {
                    todos: replace_v(
                        todo_models(old(self).todos@),
                        path_view(selected@),
                        final(t).model(),
                    ),
                    ..old(self).model()
                }),
            },
    {
        broadcast use lemma_todo_models;
        broadcast use lemma_todo_models_update;
        broadcast use lemma_seq_update_identity;

        if selected.len() == 0 {
            return None;
        }
        match position_todo_by_id(&self.todos, &selected[0]) {
            None => None,
            Some(j) => {
                proof {
                    lemma_todo_models(self.todos@);
                    lemma_find_v_spec(todo_models(self.todos@), selected@[0]@);
                }
                descend_mut_todo(&mut self.todos[j], selected, 1)
            },
        }
    }
}

impl Store {
    /// The workspace that the id path `selection` leads to, if any: the first
    /// id names a root workspace, each further id a child workspace.
    pub fn get_workflow(&self, selection: &[String]) -> (r: Option<&Workspace>)
        ensures
            match r {
                Some(w) => lookup_ws_v(self.model(), path_view(selection@)) == Some(w.model()),
                None => lookup_ws_v(self.model(), path_view(selection@)) is None,
            },
    {
        broadcast use lemma_workspace_models;

        if selection.len() == 0 {
            return None;
        }
        match position_ws_by_id(&self.workspaces, &selection[0]) {
            None => None,
            Some(j) => {
                proof {
                    lemma_workspace_models(self.workspaces@);
                    lemma_find_ws_v_spec(workspace_models(self.workspaces@), selection@[0]@);
                }
                descend_ws(&self.workspaces[j], selection, 1)
            },
        }
    }

    /// As `get_workflow`, but for mutation: afterwards the document carries
    /// the found workspace replaced by whatever the caller leaves behind the
    /// handed-out reference.
    pub fn get_mut_workflow(&mut self, selection: Vec<String>) -> (r: Option<&mut Workspace>)
        ensures
            match r {
                None => final(self).model() == old(self).model() && lookup_ws_v(
                    old(self).model(),
                    path_view(selection@),
                ) is None,
                Some(w) => lookup_ws_v(old(self).model(), path_view(selection@)) == Some(
                    (*w).model(),
                ) && final(self).model() == replace_ws_v(
                    old(self).model(),
                    path_view(selection@),
                    final(w).model(),
                ),
            },
    {
        broadcast use lemma_workspace_models;
        broadcast use lemma_workspace_models_update;
        broadcast use lemma_seq_update_identity;

        if selection.len() == 0 {
            return None;
        }
        match position_ws_by_id(&self.workspaces, &selection[0]) {
            None => None,
            Some(j) => {
                proof {
                    lemma_workspace_models(self.workspaces@);
                    lemma_find_ws_v_spec(workspace_models(self.workspaces@), selection@[0]@);
                }
                descend_mut_ws(&mut self.workspaces[j], &selection, 1)
            },
        }
    }
}

impl Default for Store {
    /// The empty document.
    fn default() -> (r: Self)
        ensures
            r.model() == Seq::<WorkspaceV>::empty(),
    {
        let r = Store { workspaces: Vec::new() };
        proof {
            assert(r.model() =~= Seq::<WorkspaceV>::empty());
        }
        r
    }
}

} // verus!
