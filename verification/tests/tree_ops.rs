use todotree::nav::Selection;
use todotree::tree::TodoItem;

fn sample_tree() -> TodoItem {
    TodoItem::Group(
        String::from("root"),
        vec![
            TodoItem::Group(
                String::from("a"),
                vec![TodoItem::Task(false, String::from("a1"))],
            ),
            TodoItem::Task(false, String::from("b")),
        ],
    )
}

#[test]
fn bound_agrees_with_get() {
    let tree = sample_tree();
    let cases = vec![
        vec![],
        vec![0],
        vec![0, 0],
        vec![1],
        vec![0, 1],
        vec![2],
        vec![1, 0],
        vec![0, 0, 0],
    ];
    for path in cases {
        let sel = Selection(path);
        assert_eq!(tree.bound(&sel), tree.get(&sel).is_some());
    }
}

#[test]
fn get_resolves_paths() {
    let tree = sample_tree();
    let root = tree.get(&Selection(vec![])).expect("root");
    assert_eq!(root.message(), "root");
    let a1 = tree.get(&Selection(vec![0, 0])).expect("a1");
    assert_eq!(a1.message(), "a1");
    let b = tree.get(&Selection(vec![1])).expect("b");
    assert_eq!(b.message(), "b");
    assert!(tree.get(&Selection(vec![2])).is_none());
    assert!(tree.get(&Selection(vec![1, 0])).is_none());
}

#[test]
fn get_prior_resolves_parent() {
    let tree = sample_tree();
    let parent = tree.get_prior(&Selection(vec![0, 0])).expect("parent of a1");
    assert_eq!(parent.message(), "a");
    let root = tree.get_prior(&Selection(vec![0])).expect("parent of a");
    assert_eq!(root.message(), "root");
    let also_root = tree.get_prior(&Selection(vec![])).expect("prior of root");
    assert_eq!(also_root.message(), "root");
}

#[test]
fn completed_is_conjunction_over_tasks() {
    let mut tree = sample_tree();
    assert!(!tree.completed());
    tree.complete(true);
    assert!(tree.completed());
    if let Some(node) = tree.get_mut(&Selection(vec![0, 0])) {
        node.complete(false);
    } else {
        panic!("a1 not found");
    }
    assert!(!tree.completed());
    let a = tree.get(&Selection(vec![0])).expect("a");
    assert!(!a.completed());
    let b = tree.get(&Selection(vec![1])).expect("b");
    assert!(b.completed());
}

#[test]
fn empty_group_counts_as_completed() {
    let empty = TodoItem::Group(String::from("nothing"), vec![]);
    assert!(empty.completed());
}

#[test]
fn insert_appends_to_group() {
    let mut tree = sample_tree();
    if let Some(node) = tree.get_mut(&Selection(vec![0])) {
        node.insert(TodoItem::Task(true, String::from("a2")));
    } else {
        panic!("a not found");
    }
    let a2 = tree.get(&Selection(vec![0, 1])).expect("a2");
    assert_eq!(a2.message(), "a2");
    assert!(a2.completed());
}

#[test]
fn insert_promotes_task_to_group() {
    let mut task = TodoItem::Task(true, String::from("chore"));
    task.insert(TodoItem::Task(false, String::from("step")));
    assert!(task.is_group());
    assert_eq!(task.message(), "chore");
    // The promotion keeps the label but drops the old completion flag:
    // the new group derives its state from the one (unfinished) child.
    assert!(!task.completed());
    let step = task.get(&Selection(vec![0])).expect("step");
    assert_eq!(step.message(), "step");
}

#[test]
fn delete_removes_child_and_shifts_siblings() {
    let mut tree = TodoItem::Group(
        String::from("root"),
        vec![
            TodoItem::Task(false, String::from("one")),
            TodoItem::Task(false, String::from("two")),
            TodoItem::Task(false, String::from("three")),
        ],
    );
    assert!(tree.delete(&Selection(vec![1])).is_some());
    assert_eq!(tree.get(&Selection(vec![0])).expect("one").message(), "one");
    assert_eq!(tree.get(&Selection(vec![1])).expect("three").message(), "three");
    assert!(tree.get(&Selection(vec![2])).is_none());
}

#[test]
fn delete_rejects_root_and_bad_indices() {
    let mut tree = sample_tree();
    assert!(tree.delete(&Selection(vec![])).is_none());
    assert!(tree.delete(&Selection(vec![7])).is_none());
    assert!(tree.delete(&Selection(vec![1, 0])).is_none());
    assert_eq!(tree.get(&Selection(vec![1])).expect("b").message(), "b");
}

#[test]
fn revalidate_pops_until_in_bounds() {
    let mut tree = sample_tree();
    let mut sel = Selection(vec![0, 0]);
    // Deleting the addressed node leaves the selection stale; the
    // re-validation walks back to its nearest surviving ancestor.
    tree.delete(&sel);
    assert!(!tree.bound(&sel));
    tree.revalidate(&mut sel);
    assert_eq!(sel.0, vec![0]);
    assert!(tree.bound(&sel));

    let mut in_bounds = Selection(vec![1]);
    tree.revalidate(&mut in_bounds);
    assert_eq!(in_bounds.0, vec![1]);
}

#[test]
fn get_end_reads_last_index() {
    assert_eq!(Selection(vec![]).get_end(), None);
    assert_eq!(Selection(vec![3]).get_end(), Some(3));
    assert_eq!(Selection(vec![1, 2, 9]).get_end(), Some(9));
}
