use todotree::codec::{DecodeError, EncodeError};
use todotree::tree::TodoItem;

fn encode_all(tree: &TodoItem) -> Vec<u8> {
    let mut out = Vec::new();
    tree.encode(&mut out).expect("within format caps");
    out
}

#[test]
fn task_encodes_to_documented_bytes() {
    // Discriminant 0, flag 1, label length 1 little-endian over two
    // bytes, then the byte of 'x'.
    let tree = TodoItem::Task(true, String::from("x"));
    assert_eq!(encode_all(&tree), vec![0x00, 0x01, 0x01, 0x00, 0x78]);
}

#[test]
fn group_encodes_label_count_then_children() {
    let tree = TodoItem::Group(
        String::from("g"),
        vec![TodoItem::Task(false, String::from("t"))],
    );
    assert_eq!(
        encode_all(&tree),
        vec![
            0x01, // group discriminant
            0x01, 0x00, 0x67, // label "g"
            0x01, // one child
            0x00, 0x00, 0x01, 0x00, 0x74, // Task(false, "t")
        ]
    );
}

fn assert_same_tree(a: &TodoItem, b: &TodoItem) {
    match (a, b) {
        (TodoItem::Task(ca, la), TodoItem::Task(cb, lb)) => {
            assert_eq!(ca, cb);
            assert_eq!(la, lb);
        }
        (TodoItem::Group(la, xa), TodoItem::Group(lb, xb)) => {
            assert_eq!(la, lb);
            assert_eq!(xa.len(), xb.len());
            for (x, y) in xa.iter().zip(xb.iter()) {
                assert_same_tree(x, y);
            }
        }
        _ => panic!("variant mismatch"),
    }
}

#[test]
fn round_trip_rebuilds_the_tree() {
    let tree = TodoItem::Group(
        String::from("projekt"),
        vec![
            TodoItem::Group(
                String::from("phase one"),
                vec![
                    TodoItem::Task(true, String::from("draft")),
                    TodoItem::Task(false, String::from("review")),
                ],
            ),
            TodoItem::Task(false, String::from("célébrer 🎉")),
            TodoItem::Group(String::from(""), vec![]),
        ],
    );
    let bytes = encode_all(&tree);
    let (back, used) = TodoItem::decode(&bytes).expect("well-formed bytes");
    assert_eq!(used, bytes.len());
    assert_same_tree(&tree, &back);
}

#[test]
fn decode_ignores_trailing_bytes() {
    let mut bytes = encode_all(&TodoItem::Task(false, String::from("hi")));
    let len = bytes.len();
    bytes.extend_from_slice(&[0xde, 0xad]);
    let (back, used) = TodoItem::decode(&bytes).expect("prefix is well-formed");
    assert_eq!(used, len);
    assert_eq!(back.message(), "hi");
}

#[test]
fn truncated_bytes_are_rejected() {
    assert!(matches!(TodoItem::decode(&[]), Err(DecodeError::Truncated)));
    assert!(matches!(TodoItem::decode(&[0x00]), Err(DecodeError::Truncated)));
    assert!(matches!(
        TodoItem::decode(&[0x00, 0x01]),
        Err(DecodeError::Truncated)
    ));
    // Length field promises two label bytes, only one follows.
    assert!(matches!(
        TodoItem::decode(&[0x00, 0x01, 0x02, 0x00, 0x61]),
        Err(DecodeError::Truncated)
    ));
    // Group promises one child, none follows.
    assert!(matches!(
        TodoItem::decode(&[0x01, 0x01, 0x00, 0x67, 0x01]),
        Err(DecodeError::Truncated)
    ));
}

#[test]
fn unknown_discriminant_is_rejected() {
    assert!(matches!(
        TodoItem::decode(&[0x02, 0x01, 0x01, 0x00, 0x78]),
        Err(DecodeError::BadTag)
    ));
}

#[test]
fn invalid_label_bytes_are_rejected() {
    // 0xff is never valid UTF-8.
    assert!(matches!(
        TodoItem::decode(&[0x00, 0x00, 0x01, 0x00, 0xff]),
        Err(DecodeError::BadUtf8)
    ));
}

#[test]
fn nonzero_flag_bytes_read_as_done() {
    let (back, _) = TodoItem::decode(&[0x00, 0x07, 0x01, 0x00, 0x78]).expect("decodes");
    assert!(back.completed());
}

#[test]
fn oversized_group_is_not_encodable() {
    let mut children = Vec::new();
    for _ in 0..256 {
        children.push(TodoItem::Task(false, String::new()));
    }
    let tree = TodoItem::Group(String::from("big"), children);
    assert!(!tree.fits_format());
    let mut out = vec![0xaa];
    assert_eq!(tree.encode(&mut out), Err(EncodeError::CapExceeded));
    // A refused encode leaves the buffer untouched.
    assert_eq!(out, vec![0xaa]);
}

#[test]
fn oversized_label_is_not_encodable() {
    let long = "x".repeat(65536);
    let tree = TodoItem::Task(false, long);
    assert!(!tree.fits_format());
    let mut out = Vec::new();
    assert_eq!(tree.encode(&mut out), Err(EncodeError::CapExceeded));
}

#[test]
fn longest_representable_label_round_trips() {
    let long = "y".repeat(65535);
    let tree = TodoItem::Task(true, long.clone());
    let bytes = encode_all(&tree);
    assert_eq!(bytes.len(), 2 + 2 + 65535);
    let (back, _) = TodoItem::decode(&bytes).expect("within caps");
    assert_eq!(back.message(), long);
}

#[test]
fn widest_representable_group_encodes() {
    let mut children = Vec::new();
    for _ in 0..255 {
        children.push(TodoItem::Task(true, String::new()));
    }
    let tree = TodoItem::Group(String::from("wide"), children);
    assert!(tree.fits_format());
    let bytes = encode_all(&tree);
    let (back, used) = TodoItem::decode(&bytes).expect("within caps");
    assert_eq!(used, bytes.len());
    assert_same_tree(&tree, &back);
}
