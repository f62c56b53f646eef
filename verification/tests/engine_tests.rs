use doneit::arena::SlotMapStore;
use doneit::engine::{mint_ids, App, Command, Screen, SortingItem};
use doneit::store::{Store, Timestamp, Todo, Workspace};

fn todo(id: &str, desc: &str) -> Todo {
    Todo {
        id: id.to_string(),
        description: desc.to_string(),
        due: None,
        effort: 0,
        urgency: 0,
        pending: true,
        children: Vec::new(),
    }
}

fn workspace(id: &str, desc: &str) -> Workspace {
    Workspace {
        id: id.to_string(),
        description: desc.to_string(),
        children: Vec::new(),
        todos: Vec::new(),
    }
}

fn inbox_with_milk() -> Store {
    let mut ws = workspace("w1", "Inbox");
    ws.todos.push(todo("t1", "Buy milk"));
    Store { workspaces: vec![ws] }
}

fn app_on_todos() -> App {
    let mut app = App::new(inbox_with_milk());
    app.move_workspace_down();
    app.handle_workspace_command(Command::SwitchPane);
    app
}

fn selected_todo_item(app: &App) -> &doneit::arena::TodoItem {
    let k = app.slot_tree_state.selected_todo.unwrap();
    app.slot_map_store.todos_map[k].as_ref().unwrap()
}

#[test]
fn toggle_done_flips_pending_only() {
    let mut app = app_on_todos();
    app.move_todo_down();
    let before = selected_todo_item(&app).clone();
    assert!(before.pending);
    assert_eq!(before.urgency, 0);
    app.toggle_done();
    let after = selected_todo_item(&app);
    assert!(!after.pending);
    assert_eq!(after.description, "Buy milk");
    assert_eq!(after.urgency, 0);
    assert!(after.children.is_empty());
    app.toggle_done();
    assert!(selected_todo_item(&app).pending);
}

#[test]
fn round_trip_preserves_content_and_ids() {
    let mut child = workspace("w2", "Errands");
    child.todos.push(todo("t2", "Call bank"));
    let mut root = workspace("w1", "Inbox");
    root.children.push(child);
    let mut t = todo("t1", "Buy milk");
    t.urgency = 2;
    t.effort = 5;
    t.due = Some(Timestamp { secs: 100, nanos: 7 });
    t.pending = false;
    root.todos.push(t);
    let store = Store { workspaces: vec![root] };
    let arena = SlotMapStore::from_store(&store);
    let back = arena.get_store();
    assert_eq!(back.workspaces.len(), 1);
    let w = &back.workspaces[0];
    assert_eq!(w.id, "w1");
    assert_eq!(w.description, "Inbox");
    assert_eq!(w.children.len(), 1);
    assert_eq!(w.children[0].id, "w2");
    assert_eq!(w.children[0].todos[0].id, "t2");
    assert_eq!(w.children[0].todos[0].description, "Call bank");
    let t = &w.todos[0];
    assert_eq!(t.id, "t1");
    assert_eq!(t.description, "Buy milk");
    assert_eq!(t.urgency, 2);
    assert_eq!(t.effort, 5);
    assert_eq!(t.due, Some(Timestamp { secs: 100, nanos: 7 }));
    assert!(!t.pending);
}

#[test]
fn materializer_counts_only_visible_rows() {
    let mut parent = todo("t1", "parent");
    parent.children.push(todo("t2", "child"));
    let mut ws = workspace("w1", "Inbox");
    ws.todos.push(parent);
    ws.todos.push(todo("t3", "flat"));
    let mut app = App::new(Store { workspaces: vec![ws] });
    app.move_workspace_down();
    app.handle_workspace_command(Command::SwitchPane);
    // collapsed: the child is skipped with its subtree
    assert_eq!(app.slot_tree_state.todo_tree.len(), 2);
    app.move_todo_down();
    app.expand_todo();
    assert_eq!(app.slot_tree_state.todo_tree.len(), 3);
    app.collapse_todo();
    assert_eq!(app.slot_tree_state.todo_tree.len(), 2);
}

#[test]
fn delete_moves_selection_to_same_flattened_index() {
    let mut ws = workspace("w1", "Inbox");
    ws.todos.push(todo("t1", "one"));
    ws.todos.push(todo("t2", "two"));
    ws.todos.push(todo("t3", "three"));
    let mut app = App::new(Store { workspaces: vec![ws] });
    app.move_workspace_down();
    app.handle_workspace_command(Command::SwitchPane);
    app.move_todo_down();
    app.move_todo_down();
    let second = app.slot_tree_state.selected_todo.unwrap();
    app.delete_todo(second);
    // the deleted handle is on no row, and the row at its old index is chosen
    assert_eq!(app.slot_tree_state.todo_tree.len(), 2);
    assert!(app
        .slot_tree_state
        .todo_tree
        .iter()
        .all(|r| r.key != second));
    let now = app.slot_tree_state.selected_todo.unwrap();
    assert_eq!(now, app.slot_tree_state.todo_tree[1].key);
    // deleting the last row clamps upward
    app.delete_todo(now);
    let last = app.slot_tree_state.selected_todo.unwrap();
    assert_eq!(last, app.slot_tree_state.todo_tree[0].key);
    app.delete_todo(last);
    assert!(app.slot_tree_state.selected_todo.is_none());
    assert_eq!(app.slot_tree_state.todo_tree.len(), 0);
}

#[test]
fn copy_then_paste_twice_makes_identical_id_disjoint_subtrees() {
    let mut parent = todo("t1", "parent");
    parent.children.push(todo("t2", "child"));
    let mut ws = workspace("w1", "Inbox");
    ws.todos.push(parent);
    ws.todos.push(todo("t3", "target"));
    let mut app = App::new(Store { workspaces: vec![ws] });
    app.move_workspace_down();
    app.handle_workspace_command(Command::SwitchPane);
    app.move_todo_down();
    app.yank_todos();
    // cursor onto the target
    app.move_todo_down();
    let target = app.slot_tree_state.selected_todo.unwrap();
    let key = app.clipboard_todos[0];
    let need = app.todo_clone_need(key).unwrap();
    assert_eq!(need, 2);
    app.paste_todo_as_child(key, target, mint_ids(need));
    app.paste_todo_as_child(key, target, mint_ids(need));
    let tgt = app.slot_map_store.todos_map[target].as_ref().unwrap();
    assert_eq!(tgt.children.len(), 2);
    let c1 = app.slot_map_store.todos_map[tgt.children[0]].as_ref().unwrap();
    let c2 = app.slot_map_store.todos_map[tgt.children[1]].as_ref().unwrap();
    assert_eq!(c1.description, "parent");
    assert_eq!(c2.description, "parent");
    assert_eq!(c1.children.len(), 1);
    assert_eq!(c2.children.len(), 1);
    let g1 = app.slot_map_store.todos_map[c1.children[0]].as_ref().unwrap();
    let g2 = app.slot_map_store.todos_map[c2.children[0]].as_ref().unwrap();
    assert_eq!(g1.description, "child");
    assert_eq!(g2.description, "child");
    // ids pairwise distinct, and distinct from the source's
    let ids = vec![
        c1.id.clone(),
        c2.id.clone(),
        g1.id.clone(),
        g2.id.clone(),
        "t1".to_string(),
        "t2".to_string(),
    ];
    for i in 0..ids.len() {
        for j in 0..ids.len() {
            if i != j {
                assert_ne!(ids[i], ids[j]);
            }
        }
    }
}

#[test]
fn cut_then_paste_rebuilds_the_subtree() {
    let mut parent = todo("t1", "errand");
    parent.children.push(todo("t2", "sub"));
    let mut ws = workspace("w1", "Inbox");
    ws.todos.push(parent);
    ws.todos.push(todo("t3", "target"));
    let mut app = App::new(Store { workspaces: vec![ws] });
    app.move_workspace_down();
    app.handle_workspace_command(Command::SwitchPane);
    app.move_todo_down();
    app.cut_selected_todo();
    assert_eq!(app.slot_tree_state.todo_tree.len(), 1);
    let target = app.slot_tree_state.selected_todo.unwrap();
    let key = app.clipboard_todos[0];
    let need = app.todo_clone_need(key).unwrap();
    app.paste_todo_as_child(key, target, mint_ids(need));
    let tgt = app.slot_map_store.todos_map[target].as_ref().unwrap();
    assert_eq!(tgt.children.len(), 1);
    let c = app.slot_map_store.todos_map[tgt.children[0]].as_ref().unwrap();
    assert_eq!(c.description, "errand");
    assert_eq!(c.children.len(), 1);
    let g = app.slot_map_store.todos_map[c.children[0]].as_ref().unwrap();
    assert_eq!(g.description, "sub");
    assert_ne!(c.id, "t1");
    assert_ne!(g.id, "t2");
}

#[test]
fn sort_by_description_then_reverse_is_descending_and_stable() {
    let mut ws = workspace("w1", "Inbox");
    let mut b1 = todo("t1", "beta");
    b1.urgency = 1;
    ws.todos.push(b1);
    ws.todos.push(todo("t2", "alpha"));
    let mut b2 = todo("t3", "beta");
    b2.urgency = 2;
    ws.todos.push(b2);
    let mut app = App::new(Store { workspaces: vec![ws] });
    app.move_workspace_down();
    app.handle_workspace_command(Command::SwitchPane);
    app.move_todo_down();
    app.begin_sort_todo();
    assert!(matches!(app.sorting, SortingItem::Todo(_)));
    app.sort_choice_todo('2');
    assert_eq!(app.sorting, SortingItem::Idle);
    let descs: Vec<String> = app
        .slot_tree_state
        .todo_tree
        .iter()
        .map(|r| {
            app.slot_map_store.todos_map[r.key]
                .as_ref()
                .unwrap()
                .description
                .clone()
        })
        .collect();
    assert_eq!(descs, vec!["alpha", "beta", "beta"]);
    // the two equal keys kept their arrival order: urgency 1 before 2
    let urgs: Vec<usize> = app
        .slot_tree_state
        .todo_tree
        .iter()
        .map(|r| app.slot_map_store.todos_map[r.key].as_ref().unwrap().urgency)
        .collect();
    assert_eq!(urgs, vec![0, 1, 2]);
    app.begin_sort_todo();
    app.sort_choice_todo('1');
    let descs: Vec<String> = app
        .slot_tree_state
        .todo_tree
        .iter()
        .map(|r| {
            app.slot_map_store.todos_map[r.key]
                .as_ref()
                .unwrap()
                .description
                .clone()
        })
        .collect();
    assert_eq!(descs, vec!["beta", "beta", "alpha"]);
}

#[test]
fn search_expands_exactly_the_ancestor_chain() {
    let deep = todo("t3", "the needle");
    let mut mid = todo("t2", "middle");
    mid.children.push(deep);
    let mut top = todo("t1", "top");
    top.children.push(mid);
    let mut ws = workspace("w1", "Inbox");
    ws.todos.push(top);
    ws.todos.push(todo("t4", "other"));
    let mut app = App::new(Store { workspaces: vec![ws] });
    app.move_workspace_down();
    app.handle_workspace_command(Command::SwitchPane);
    // everything collapsed: two rows
    assert_eq!(app.slot_tree_state.todo_tree.len(), 2);
    app.begin_search();
    for c in "NEEDLE".chars() {
        app.search_char(c);
    }
    // the match, case-insensitive and under collapsed nodes
    assert_eq!(app.search_matches.len(), 1);
    let m = app.search_matches[0];
    assert_eq!(
        app.slot_map_store.todos_map[m].as_ref().unwrap().description,
        "the needle"
    );
    // exactly the ancestor chain opened: top and middle, not the match, not
    // the unrelated sibling
    let key_of = |desc: &str| {
        (0..app.slot_map_store.todos_map.len())
            .find(|&k| {
                app.slot_map_store.todos_map[k]
                    .as_ref()
                    .map(|t| t.description == desc)
                    .unwrap_or(false)
            })
            .unwrap()
    };
    let opened = &app.slot_tree_state.todo_opened;
    assert!(opened.contains(&key_of("top")));
    assert!(opened.contains(&key_of("middle")));
    assert!(!opened.contains(&key_of("the needle")));
    assert!(!opened.contains(&key_of("other")));
    // the match is now on a visible row
    assert!(app.slot_tree_state.todo_tree.iter().any(|r| r.key == m));
    assert_eq!(app.slot_tree_state.todo_tree.len(), 4);
    app.end_search();
    app.next_match();
    assert_eq!(app.slot_tree_state.selected_todo, Some(m));
}

#[test]
fn insert_sibling_and_child_enter_edit_mode() {
    let mut app = App::new(Store { workspaces: vec![] });
    assert_eq!(app.active_screen, Screen::Workspaces);
    let id = mint_ids(1).pop().unwrap();
    app.insert_sibling_workspace(id.clone());
    assert_eq!(app.new_editing_id, app.slot_tree_state.selected_workspace);
    for c in "Home".chars() {
        app.edit_char(c);
    }
    app.commit_edit_workspace();
    let w = app.slot_tree_state.selected_workspace.unwrap();
    let item = app.slot_map_store.workspaces_map[w].as_ref().unwrap();
    assert_eq!(item.description, "Home");
    assert_eq!(item.id, id);
    // a todo under it
    app.handle_workspace_command(Command::SwitchPane);
    app.insert_sibling_todo(mint_ids(1).pop().unwrap());
    for c in "Water plants".chars() {
        app.edit_char(c);
    }
    app.commit_edit_todo();
    let t = app.slot_tree_state.selected_todo.unwrap();
    assert_eq!(
        app.slot_map_store.todos_map[t].as_ref().unwrap().description,
        "Water plants"
    );
    // a subtask, opening the parent
    app.insert_child_todo(mint_ids(1).pop().unwrap());
    for c in "Fetch can".chars() {
        app.edit_char(c);
    }
    app.commit_edit_todo();
    assert_eq!(app.slot_tree_state.todo_tree.len(), 2);
}

#[test]
fn urgency_is_bounded() {
    let mut app = app_on_todos();
    app.move_todo_down();
    for _ in 0..5 {
        app.urgency_up();
    }
    assert_eq!(selected_todo_item(&app).urgency, 3);
    for _ in 0..5 {
        app.urgency_down();
    }
    assert_eq!(selected_todo_item(&app).urgency, 0);
}

#[test]
fn swap_reorders_siblings_and_stops_at_the_edge() {
    let mut ws = workspace("w1", "Inbox");
    ws.todos.push(todo("t1", "one"));
    ws.todos.push(todo("t2", "two"));
    let mut app = App::new(Store { workspaces: vec![ws] });
    app.move_workspace_down();
    app.handle_workspace_command(Command::SwitchPane);
    app.move_todo_down();
    app.swap_todo_up();
    let d0 = |app: &App| {
        app.slot_map_store.todos_map[app.slot_tree_state.todo_tree[0].key]
            .as_ref()
            .unwrap()
            .description
            .clone()
    };
    assert_eq!(d0(&app), "one");
    app.swap_todo_down();
    assert_eq!(d0(&app), "two");
    app.swap_todo_down();
    assert_eq!(d0(&app), "two");
}

#[test]
fn multi_select_cut_records_the_set() {
    let mut ws = workspace("w1", "Inbox");
    ws.todos.push(todo("t1", "one"));
    ws.todos.push(todo("t2", "two"));
    ws.todos.push(todo("t3", "three"));
    let mut app = App::new(Store { workspaces: vec![ws] });
    app.move_workspace_down();
    app.handle_workspace_command(Command::SwitchPane);
    app.move_todo_down();
    app.toggle_multi_select_todo();
    app.move_todo_down();
    app.move_todo_down();
    app.toggle_multi_select_todo();
    assert_eq!(app.slot_tree_state.multi_selected_todos.len(), 2);
    app.cut_multi_selected_todos();
    assert_eq!(app.clipboard_todos.len(), 2);
    assert!(app.slot_tree_state.multi_selected_todos.is_empty());
    assert_eq!(app.slot_tree_state.todo_tree.len(), 1);
    // paste the two cut entries back after the survivor
    let need = app.clipboard_need().unwrap();
    app.paste_multi_selected_todos_at_cursor(mint_ids(need));
    assert_eq!(app.slot_tree_state.todo_tree.len(), 3);
}

#[test]
fn quit_is_the_only_command_edit_mode_lets_through() {
    let mut app = App::new(Store { workspaces: vec![] });
    app.insert_sibling_workspace(mint_ids(1).pop().unwrap());
    let before = app.slot_tree_state.ws_tree.len();
    // tree commands are suppressed while editing
    app.handle_workspace_command(Command::Delete);
    assert_eq!(app.slot_tree_state.ws_tree.len(), before);
    app.handle_workspace_command(Command::Quit);
    assert!(!app.running);
}

#[test]
fn mint_ids_counts() {
    assert_eq!(mint_ids(0).len(), 0);
    assert_eq!(mint_ids(5).len(), 5);
}

#[test]
fn workspace_delete_resets_todo_state() {
    let child = workspace("w2", "Inner");
    let mut root = workspace("w1", "Outer");
    root.children.push(child);
    let mut app = App::new(Store { workspaces: vec![root] });
    app.move_workspace_down();
    app.expand_workspace();
    assert_eq!(app.slot_tree_state.ws_tree.len(), 2);
    let w = app.slot_tree_state.selected_workspace.unwrap();
    app.delete_workspace(w);
    assert_eq!(app.slot_tree_state.ws_tree.len(), 0);
    assert!(app.slot_tree_state.selected_workspace.is_none());
    assert!(app.slot_tree_state.selected_todo.is_none());
}

#[test]
fn workspace_sort_and_reverse() {
    let store = Store {
        workspaces: vec![
            workspace("w1", "pear"),
            workspace("w2", "apple"),
            workspace("w3", "mango"),
        ],
    };
    let mut app = App::new(store);
    app.move_workspace_down();
    app.begin_sort_workspace();
    assert!(matches!(app.sorting, SortingItem::Workspace(_)));
    app.sort_choice_workspace('2');
    let descs = |app: &App| -> Vec<String> {
        app.slot_tree_state
            .ws_tree
            .iter()
            .map(|r| {
                app.slot_map_store.workspaces_map[r.key]
                    .as_ref()
                    .unwrap()
                    .description
                    .clone()
            })
            .collect()
    };
    assert_eq!(descs(&app), vec!["apple", "mango", "pear"]);
    app.begin_sort_workspace();
    app.sort_choice_workspace('1');
    assert_eq!(descs(&app), vec!["pear", "mango", "apple"]);
}

#[test]
fn workspace_swap_reorders_roots() {
    let store = Store {
        workspaces: vec![workspace("w1", "first"), workspace("w2", "second")],
    };
    let mut app = App::new(store);
    app.move_workspace_down();
    app.swap_workspace_down();
    let d0 = app.slot_map_store.workspaces_map[app.slot_tree_state.ws_tree[0].key]
        .as_ref()
        .unwrap()
        .description
        .clone();
    assert_eq!(d0, "second");
    app.swap_workspace_down();
    let d0 = app.slot_map_store.workspaces_map[app.slot_tree_state.ws_tree[0].key]
        .as_ref()
        .unwrap()
        .description
        .clone();
    assert_eq!(d0, "second");
}

#[test]
fn paste_at_cursor_splices_clones_after_the_selection() {
    let mut parent = todo("t1", "parent");
    parent.children.push(todo("t2", "child"));
    let mut ws = workspace("w1", "Inbox");
    ws.todos.push(parent);
    ws.todos.push(todo("t3", "tail"));
    let mut app = App::new(Store { workspaces: vec![ws] });
    app.move_workspace_down();
    app.handle_workspace_command(Command::SwitchPane);
    app.move_todo_down();
    app.yank_todos();
    // paste twice at the same cursor, through the dispatcher
    for _ in 0..2 {
        let need = app.clipboard_need().unwrap();
        app.handle_todos_command(Command::Paste(mint_ids(need)));
    }
    // the workspace list is now: parent, clone, clone, tail
    let w = app.slot_tree_state.selected_workspace.unwrap();
    let tl = &app.slot_map_store.workspaces_map[w].as_ref().unwrap().todos;
    assert_eq!(tl.len(), 4);
    let d = |k: usize| {
        app.slot_map_store.todos_map[k]
            .as_ref()
            .unwrap()
            .description
            .clone()
    };
    assert_eq!(d(tl[0]), "parent");
    assert_eq!(d(tl[1]), "parent");
    assert_eq!(d(tl[2]), "parent");
    assert_eq!(d(tl[3]), "tail");
    // the two clones are structurally whole and id-disjoint
    let c1 = app.slot_map_store.todos_map[tl[1]].as_ref().unwrap();
    let c2 = app.slot_map_store.todos_map[tl[2]].as_ref().unwrap();
    assert_eq!(c1.children.len(), 1);
    assert_eq!(c2.children.len(), 1);
    assert_ne!(c1.id, c2.id);
    assert_ne!(c1.id, "t1");
    assert_ne!(c2.id, "t1");
}

#[test]
fn workspace_multi_cut_detaches_the_recorded_set() {
    let store = Store {
        workspaces: vec![
            workspace("w1", "one"),
            workspace("w2", "two"),
            workspace("w3", "three"),
        ],
    };
    let mut app = App::new(store);
    app.move_workspace_down();
    app.toggle_multi_select_workspace();
    app.move_workspace_down();
    app.move_workspace_down();
    app.toggle_multi_select_workspace();
    app.cut_multi_selected_workspaces();
    assert_eq!(app.clipboard_workspaces.len(), 2);
    assert!(app.slot_tree_state.multi_selected_workspaces.is_empty());
    assert_eq!(app.slot_tree_state.ws_tree.len(), 1);
    let survivor = app.slot_map_store.workspaces_map
        [app.slot_tree_state.ws_tree[0].key]
        .as_ref()
        .unwrap();
    assert_eq!(survivor.description, "two");
    // the cut workspaces are detached but still in the arena
    for k in app.clipboard_workspaces.iter() {
        assert!(app.slot_map_store.workspaces_map[*k].is_some());
    }
}
