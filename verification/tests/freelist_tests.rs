use rusty_malloc::freelist::{Freelist, NODE_SIZE};

fn node_addr(i: usize) -> usize {
    0x1000 + NODE_SIZE * i
}

#[test]
fn freelist_test_1() {
    assert!(Freelist::new().head().is_none(), "List should be empty");
}

#[test]
fn freelist_test_2() {
    let mut list = Freelist::new();
    let count = 1000;

    for i in 0..count {
        list.push_front(node_addr(i));
    }

    for i in (0..count).rev() {
        let Some(head) = list.head() else {
            panic!("List should not be empty.");
        };

        assert_eq!(
            head,
            node_addr(i),
            "The list head should be placed at nodes[{i}]."
        );
        list.remove(head);
    }
}

#[test]
fn freelist_test_3() {
    let mut list = Freelist::new();

    let count = 20;
    for i in 0..count {
        list.push_front(node_addr(i));
    }

    for i in 1..count - 1 {
        assert!(list.head().is_some(), "List should not be empty.");
        list.remove(node_addr(i));
    }

    let head = list.head().unwrap();
    assert_eq!(
        head,
        node_addr(count - 1),
        "The list head should be placed at nodes[{}].",
        count - 1
    );
    list.remove(head);

    let head = list.head().unwrap();
    assert_eq!(
        head,
        node_addr(0),
        "The list head should be placed at nodes[0]"
    );
    list.remove(head);
}

#[test]
fn freelist_test_4() {
    let mut list = Freelist::new();

    let count = 200;
    for i in 0..count {
        list.push_front(node_addr(i));
    }

    let mut p = list.head().unwrap();

    while p != 0 {
        let next = list.next_of(p);
        let prev = list.prev_of(p);
        if next == 0 {
            assert_eq!(p, node_addr(0));
        } else {
            assert_eq!(next, p - NODE_SIZE);
        }
        if prev == 0 {
            assert_eq!(p, node_addr(count - 1));
        } else {
            assert!(prev == p + NODE_SIZE);
        }
        p = next;
    }
}
