use data_structures::linked_list::singly_linked_list::{LinkedList, Node};

#[test]
fn singly_linked_list_test_singly_linked_list() {
    let mut node = LinkedList::<u32>::new();
    assert!(node.is_empty());

    node.add_head(1);
    node.add_head(2);
    node.add_head(3);

    // 3 -> 2 -> 1
    let first = node.head.unwrap();
    assert_eq!(node.nodes[first].value, 3);
    let second = node.nodes[first].next.unwrap();
    assert_eq!(node.nodes[second].value, 2);
    let third = node.nodes[second].next.unwrap();
    assert_eq!(node.nodes[third].value, 1);
    assert_eq!(node.nodes[third].next, None);

    let result = node.find(1);
    assert_eq!(node.nodes[result.unwrap()].value, 1);
    assert_eq!(node.nodes[result.unwrap()].next, None);

    let result = node.find(2);
    assert_eq!(node.nodes[result.unwrap()].value, 2);
    assert_eq!(node.nodes[node.nodes[result.unwrap()].next.unwrap()].value, 1);

    let result = node.find(100);
    assert!(result.is_none());
}

/// The values of the list from the head on.
fn values(list: &LinkedList<u32>) -> Vec<u32> {
    let mut out = Vec::new();
    let mut cur = list.head;
    while let Some(i) = cur {
        out.push(list.nodes[i].value);
        cur = list.nodes[i].next;
    }
    out
}

#[test]
fn singly_new_list_is_empty() {
    let list = LinkedList::<u32>::new();
    assert!(list.is_empty());
    assert_eq!(list.head, None);
    assert!(list.nodes.is_empty());
    assert_eq!(list.find(1), None);
}

#[test]
fn singly_add_head_puts_newest_first() {
    let mut list = LinkedList::<u32>::new();
    for v in [10, 20, 30, 40] {
        list.add_head(v);
        assert!(!list.is_empty());
        assert_eq!(values(&list)[0], v);
    }
    assert_eq!(values(&list), vec![40, 30, 20, 10]);
    assert_eq!(list.head, Some(3));
    assert_eq!(list.nodes[3].next, Some(2));
    assert_eq!(list.nodes[0].next, None);
}

#[test]
fn singly_find_gives_first_of_equal_values() {
    let mut list = LinkedList::<u32>::new();
    list.add_head(7);
    list.add_head(5);
    list.add_head(7);
    list.add_head(9);
    // 9 -> 7 -> 5 -> 7: the 7 nearer the head is in slot 2.
    assert_eq!(list.find(7), Some(2));
    assert_eq!(list.find(9), Some(3));
    assert_eq!(list.find(5), Some(1));
    assert_eq!(list.find(8), None);
}

#[test]
fn singly_node_new_keeps_value_and_link() {
    let node = Node::new(5u32, Some(3));
    assert_eq!(node.value, 5);
    assert_eq!(node.next, Some(3));
    let last = Node::new(6u32, None);
    assert_eq!(last.next, None);
}

#[test]
fn singly_nodes_are_equal_by_value() {
    assert!(Node::new(5u32, Some(3)) == Node::new(5u32, None));
    assert!(Node::new(5u32, None) != Node::new(6u32, None));
}
