use todotree::nav::Selection;
use todotree::tree::TodoItem;

fn sample_tree() -> TodoItem {
    TodoItem::Group(
        String::from("root"),
        vec![
            TodoItem::Group(
                String::from("a"),
                vec![TodoItem::Task(false, String::from("a1"))],
            ),
            TodoItem::Task(false, String::from("b")),
        ],
    )
}

fn render_string(tree: &TodoItem, depth: u8, sel: Option<&Selection>) -> String {
    assert!(tree.fits_depth(depth));
    let mut out = Vec::new();
    tree.render(depth, &mut out, sel);
    String::from_utf8(out).expect("rendered bytes are UTF-8")
}

#[test]
fn renders_depth_first_with_markers() {
    let text = render_string(&sample_tree(), 1, None);
    assert_eq!(text, "\t[ ] root\n\t\t[ ] a\n\t\t\t[ ] a1\n\t\t[ ] b\n");
}

#[test]
fn selection_highlights_exactly_one_line() {
    // The worked example: with the cursor on `b`, only `b`'s line is
    // wrapped in reverse video.
    let text = render_string(&sample_tree(), 1, Some(&Selection(vec![1])));
    assert_eq!(
        text,
        "\t[ ] root\n\t\t[ ] a\n\t\t\t[ ] a1\n\x1b[7m\t\t[ ] b\n\x1b[0m"
    );
    assert_eq!(text.matches("\x1b[7m").count(), 1);
}

#[test]
fn selected_root_wraps_the_whole_block() {
    let text = render_string(&sample_tree(), 0, Some(&Selection(vec![])));
    assert_eq!(
        text,
        "\x1b[7m[ ] root\n\t[ ] a\n\t\t[ ] a1\n\t[ ] b\n\x1b[0m"
    );
}

#[test]
fn completed_nodes_carry_the_filled_marker() {
    let mut tree = sample_tree();
    tree.complete(true);
    let text = render_string(&tree, 0, None);
    assert_eq!(text, "[#] root\n\t[#] a\n\t\t[#] a1\n\t[#] b\n");
}

#[test]
fn depth_cap_is_detected() {
    // A chain of nested groups deeper than the 255 levels the renderer
    // can indent.
    let mut tree = TodoItem::Task(false, String::from("leaf"));
    for _ in 0..255 {
        tree = TodoItem::Group(String::from("layer"), vec![tree]);
    }
    assert!(!tree.fits_depth(1));
    assert!(tree.fits_depth(0));
}

#[test]
fn out_of_bounds_selection_highlights_nothing() {
    let text = render_string(&sample_tree(), 1, Some(&Selection(vec![5])));
    assert_eq!(text.matches("\x1b[7m").count(), 0);
}
