use todotree::nav::{CursMove, Selection};
use todotree::tree::TodoItem;

fn sample_tree() -> TodoItem {
    TodoItem::Group(
        String::from("root"),
        vec![
            TodoItem::Group(
                String::from("a"),
                vec![TodoItem::Task(false, String::from("a1"))],
            ),
            TodoItem::Task(false, String::from("b")),
        ],
    )
}

#[test]
fn end_to_end_cursor_walk() {
    // The worked example: the cursor starts on `a1`.
    let tree = sample_tree();
    let mut sel = Selection(vec![0, 0]);
    assert!(!tree.check_move(&sel, CursMove::Down));
    assert!(tree.check_move(&sel, CursMove::Out));
    tree.do_move(&mut sel, CursMove::Out);
    assert_eq!(sel.0, vec![0]);
    assert!(tree.check_move(&sel, CursMove::Down));
    tree.do_move(&mut sel, CursMove::Down);
    assert_eq!(sel.0, vec![1]);
}

#[test]
fn out_undoes_in() {
    let tree = sample_tree();
    let mut sel = Selection(vec![0]);
    assert!(tree.check_move(&sel, CursMove::In));
    tree.do_move(&mut sel, CursMove::In);
    assert_eq!(sel.0, vec![0, 0]);
    tree.do_move(&mut sel, CursMove::Out);
    assert_eq!(sel.0, vec![0]);
}

#[test]
fn in_needs_a_group() {
    let tree = sample_tree();
    assert!(tree.check_move(&Selection(vec![]), CursMove::In));
    assert!(tree.check_move(&Selection(vec![0]), CursMove::In));
    assert!(!tree.check_move(&Selection(vec![1]), CursMove::In));
    assert!(!tree.check_move(&Selection(vec![4]), CursMove::In));
}

#[test]
fn sibling_bounds_hold() {
    let tree = sample_tree();
    // Down is infeasible at the last child of a group.
    assert!(!tree.check_move(&Selection(vec![1]), CursMove::Down));
    assert!(!tree.check_move(&Selection(vec![0, 0]), CursMove::Down));
    // Up is infeasible at child index 0.
    assert!(!tree.check_move(&Selection(vec![0]), CursMove::Up));
    assert!(!tree.check_move(&Selection(vec![0, 0]), CursMove::Up));
    // Between the two bounds both moves work.
    assert!(tree.check_move(&Selection(vec![0]), CursMove::Down));
    assert!(tree.check_move(&Selection(vec![1]), CursMove::Up));
}

#[test]
fn root_has_no_parent_or_siblings() {
    let tree = sample_tree();
    let root = Selection(vec![]);
    assert!(!tree.check_move(&root, CursMove::Out));
    assert!(!tree.check_move(&root, CursMove::Down));
    assert!(!tree.check_move(&root, CursMove::Up));
}

#[test]
fn infeasible_moves_leave_selection_alone() {
    let tree = sample_tree();
    let mut sel = Selection(vec![0, 0]);
    tree.do_move(&mut sel, CursMove::Down);
    assert_eq!(sel.0, vec![0, 0]);
    tree.do_move(&mut sel, CursMove::In);
    assert_eq!(sel.0, vec![0, 0]);
    let mut root = Selection(vec![]);
    tree.do_move(&mut root, CursMove::Out);
    assert_eq!(root.0, Vec::<u8>::new());
}

#[test]
fn next_visible_walks_the_whole_tree() {
    let tree = sample_tree();
    let mut sel = Selection(vec![]);
    tree.next_visible(&mut sel);
    assert_eq!(sel.0, vec![0]);
    tree.next_visible(&mut sel);
    assert_eq!(sel.0, vec![0, 0]);
    tree.next_visible(&mut sel);
    assert_eq!(sel.0, vec![1]);
    // At the last visible node the selection stays put.
    tree.next_visible(&mut sel);
    assert_eq!(sel.0, vec![1]);
}

#[test]
fn prev_visible_walks_backwards() {
    let tree = sample_tree();
    let mut sel = Selection(vec![1]);
    tree.prev_visible(&mut sel);
    // The previous sibling is a group: the cursor dives to its
    // deepest last descendant.
    assert_eq!(sel.0, vec![0, 0]);
    tree.prev_visible(&mut sel);
    assert_eq!(sel.0, vec![0]);
    tree.prev_visible(&mut sel);
    assert_eq!(sel.0, Vec::<u8>::new());
    tree.prev_visible(&mut sel);
    assert_eq!(sel.0, Vec::<u8>::new());
}

#[test]
fn prev_visible_stops_on_childless_group() {
    let tree = TodoItem::Group(
        String::from("root"),
        vec![
            TodoItem::Group(String::from("empty"), vec![]),
            TodoItem::Task(false, String::from("tail")),
        ],
    );
    let mut sel = Selection(vec![1]);
    tree.prev_visible(&mut sel);
    assert_eq!(sel.0, vec![0]);
}
