use bst::{Link, Node};

fn leaf(elem: i32) -> Link {
    Link::More(Box::new(Node {
        elem,
        left: Link::Empty,
        right: Link::Empty,
    }))
}

#[test]
fn link_insert_into_empty_slot_makes_a_leaf() {
    let mut link = Link::Empty;
    assert_eq!(link.insert(7), true);
    let Link::More(node) = &link else {
        panic!("slot is empty");
    };
    assert_eq!(node.elem, 7);
    assert!(matches!(node.left, Link::Empty));
    assert!(matches!(node.right, Link::Empty));
}

#[test]
fn link_insert_descends_by_comparison() {
    let mut link = Link::Empty;
    assert_eq!(link.insert(10), true);
    assert_eq!(link.insert(5), true);
    assert_eq!(link.insert(15), true);
    assert_eq!(link.insert(7), true);
    assert_eq!(link.insert(7), false);
    assert_eq!(link.insert(10), false);
    let Link::More(root) = &link else {
        panic!("slot is empty");
    };
    assert_eq!(root.elem, 10);
    let Link::More(five) = &root.left else {
        panic!("left of 10 is empty");
    };
    assert_eq!(five.elem, 5);
    assert!(matches!(five.left, Link::Empty));
    let Link::More(seven) = &five.right else {
        panic!("right of 5 is empty");
    };
    assert_eq!(seven.elem, 7);
    let Link::More(fifteen) = &root.right else {
        panic!("right of 10 is empty");
    };
    assert_eq!(fifteen.elem, 15);
}

#[test]
fn link_search_follows_the_descent() {
    let mut link = Link::Empty;
    assert_eq!(link.search(1), false);
    for key in [10, 5, 15, 7, 12] {
        link.insert(key);
    }
    for key in [10, 5, 15, 7, 12] {
        assert_eq!(link.search(key), true);
    }
    for key in [0, 6, 8, 11, 13, 16] {
        assert_eq!(link.search(key), false);
    }
}

#[test]
fn same_root_key_of_two_empty_slots() {
    assert_eq!(Link::Empty.same_root_key(&Link::Empty), true);
    assert!(Link::Empty == Link::Empty);
}

#[test]
fn same_root_key_of_empty_and_filled_slot() {
    assert_eq!(Link::Empty.same_root_key(&leaf(1)), false);
    assert_eq!(leaf(1).same_root_key(&Link::Empty), false);
    assert!(Link::Empty != leaf(1));
    assert!(leaf(1) != Link::Empty);
}

#[test]
fn same_root_key_compares_keys() {
    assert_eq!(leaf(4).same_root_key(&leaf(4)), true);
    assert_eq!(leaf(4).same_root_key(&leaf(5)), false);
    assert!(leaf(4) == leaf(4));
    assert!(leaf(4) != leaf(5));
}

#[test]
fn same_root_key_ignores_children() {
    let mut grown = Link::Empty;
    for key in [4, 2, 6] {
        grown.insert(key);
    }
    assert_eq!(grown.same_root_key(&leaf(4)), true);
    assert_eq!(leaf(4).same_root_key(&grown), true);
    assert!(grown == leaf(4));

    let mut other = Link::Empty;
    for key in [4, 1, 9, 3] {
        other.insert(key);
    }
    assert_eq!(grown.same_root_key(&other), true);
    assert!(grown == other);
}
