use doneit::store::{Store, Todo, Workspace};

fn todo(id: &str, desc: &str) -> Todo {
    Todo {
        id: id.to_string(),
        description: desc.to_string(),
        due: None,
        effort: 0,
        urgency: 0,
        pending: true,
        children: Vec::new(),
    }
}

fn sample() -> Store {
    let mut inner = Workspace {
        id: "w2".to_string(),
        description: "Inner".to_string(),
        children: Vec::new(),
        todos: Vec::new(),
    };
    let sub = todo("t2", "sub");
    let mut top = todo("t1", "top");
    top.children.push(sub);
    inner.todos.push(top);
    let root = Workspace {
        id: "w1".to_string(),
        description: "Outer".to_string(),
        children: vec![inner],
        todos: vec![todo("t3", "flat")],
    };
    Store { workspaces: vec![root] }
}

#[test]
fn get_workflow_follows_id_paths() {
    let s = sample();
    let w = s.get_workflow(&["w1".to_string()]).unwrap();
    assert_eq!(w.description, "Outer");
    let w = s
        .get_workflow(&["w1".to_string(), "w2".to_string()])
        .unwrap();
    assert_eq!(w.description, "Inner");
    assert!(s.get_workflow(&[]).is_none());
    assert!(s.get_workflow(&["w2".to_string()]).is_none());
    assert!(s
        .get_workflow(&["w1".to_string(), "w9".to_string()])
        .is_none());
}

#[test]
fn get_todo_follows_id_paths() {
    let s = sample();
    let w = s
        .get_workflow(&["w1".to_string(), "w2".to_string()])
        .unwrap();
    let t = w.get_todo(&["t1".to_string()]).unwrap();
    assert_eq!(t.description, "top");
    let t = w.get_todo(&["t1".to_string(), "t2".to_string()]).unwrap();
    assert_eq!(t.description, "sub");
    assert!(w.get_todo(&[]).is_none());
    assert!(w.get_todo(&["t2".to_string()]).is_none());
}

#[test]
fn get_mut_todo_edits_in_place() {
    let mut s = sample();
    {
        let w = s.get_mut_workflow(vec!["w1".to_string(), "w2".to_string()]).unwrap();
        let t = w
            .get_mut_todo(&["t1".to_string(), "t2".to_string()])
            .unwrap();
        t.description = "rewritten".to_string();
        t.pending = false;
    }
    let w = s
        .get_workflow(&["w1".to_string(), "w2".to_string()])
        .unwrap();
    let t = w.get_todo(&["t1".to_string(), "t2".to_string()]).unwrap();
    assert_eq!(t.description, "rewritten");
    assert!(!t.pending);
}

#[test]
fn lookups_take_the_first_match() {
    let mut w = Workspace {
        id: "w1".to_string(),
        description: "W".to_string(),
        children: Vec::new(),
        todos: vec![todo("dup", "first"), todo("dup", "second")],
    };
    let t = w.get_todo(&["dup".to_string()]).unwrap();
    assert_eq!(t.description, "first");
    let t = w.get_mut_todo(&["dup".to_string()]).unwrap();
    assert_eq!(t.description, "first");
}

#[test]
fn default_store_is_empty() {
    let s = Store::default();
    assert!(s.workspaces.is_empty());
}
