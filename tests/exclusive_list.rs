use linked_lists::error::ListError;
use linked_lists::exclusive::{SLList, SLListNode};

#[test]
fn singly_linked_list_with_tail_test_node_new() {
    let new_node: SLListNode<i64> = SLListNode::new();
    let node: SLListNode<i64> = SLListNode {
        key: None,
        next: None,
        index: 0,
    };

    assert_eq!(new_node, node);
}

#[test]
fn singly_linked_list_with_tail_test_node_from() {
    let (index, value): (usize, i64) = (0, 8);
    let new_node: SLListNode<i64> = SLListNode::from(value, index);
    let node: SLListNode<i64> = SLListNode {
        key: Some(value),
        next: None,
        index: 0,
    };

    assert_eq!(new_node, node);
}

#[test]
fn test_node_next() {
    let mut node_1 = SLListNode::from(8, 0);
    let mut node_2 = SLListNode::from(20, 1);
    let node_3 = SLListNode::from(12, 3);

    node_2.next = Some(Box::new(node_3.clone()));
    node_1.next = Some(Box::new(node_2.clone()));

    assert_eq!(node_1.next().unwrap().next(), Some(node_3));
    assert_eq!(node_2.next().unwrap().next(), None);
}

#[test]
fn test_list_new() {
    let new_list: SLList<i64> = SLList::new();
    let list: SLList<i64> = SLList {
        updated: true,
        head: None,
        tail: None,
        length: 0,
    };

    assert_eq!(new_list, list);
}

#[test]
fn test_empty_list_from() {
    let key_vec: Vec<i64> = Vec::new();
    let new_list: SLList<i64> = SLList::from(key_vec);
    let list: SLList<i64> = SLList {
        updated: true,
        head: None,
        tail: None,
        length: 0,
    };

    assert_eq!(new_list, list);
}

#[test]
fn test_one_list_from() {
    let (index, value): (usize, i64) = (0, 1);
    let key_vec: Vec<i64> = Vec::from([value]);
    let new_list: SLList<i64> = SLList::from(key_vec);

    let node = SLListNode::from(value, index);
    let list: SLList<i64> = SLList {
        updated: true,
        head: Some(Box::new(node.clone())),
        tail: Some(Box::new(node)),
        length: 1,
    };

    assert_eq!(new_list, list);
}

#[test]
fn test_four_list_from() {
    let (index_1, value_1): (usize, i64) = (0, 1);
    let (index_2, value_2): (usize, i64) = (1, 8);
    let (index_3, value_3): (usize, i64) = (2, 27);
    let (index_4, value_4): (usize, i64) = (3, 64);

    let key_vec: Vec<i64> = Vec::from([value_1, value_2, value_3, value_4]);
    let new_list: SLList<i64> = SLList::from(key_vec);

    let mut node_1 = SLListNode::from(value_1, index_1);
    let mut node_2 = SLListNode::from(value_2, index_2);
    let mut node_3 = SLListNode::from(value_3, index_3);
    let node_4 = SLListNode::from(value_4, index_4);

    node_3.next = Some(Box::new(node_4.clone()));
    node_2.next = Some(Box::new(node_3.clone()));
    node_1.next = Some(Box::new(node_2));

    let list: SLList<i64> = SLList {
        updated: true,
        head: Some(Box::new(node_1)),
        tail: Some(Box::new(node_4)),
        length: 4,
    };

    assert_eq!(new_list, list);
}

#[test]
fn test_empty_push_front() {
    let mut pushed_list = SLList::new();
    pushed_list.push_front(5);

    let mut list = SLList::from(Vec::from([5]));
    list.updated = false;

    assert_eq!(pushed_list, list);
}

#[test]
fn test_push_front() {
    let key_vec: Vec<i64> = vec![1, 8, 27, 64, 125];
    let mut pushed_list = SLList::from(key_vec);
    pushed_list.push_front(5);
    pushed_list.update();

    let key_vec: Vec<i64> = vec![5, 1, 8, 27, 64, 125];
    let list = SLList::from(key_vec);

    assert_eq!(pushed_list, list);
}

#[test]
fn test_empty_pop_front() {
    let mut list: SLList<i64> = SLList::new();
    let pop_result: Result<(), ListError> = list.pop_front();

    assert_eq!(pop_result, Err(ListError::EmptyList));
    assert_eq!(list, SLList::new());
}

#[test]
fn test_empty_top_front() {
    let list: SLList<i64> = SLList::new();
    assert_eq!(list.top_front(), None);
}

#[test]
fn test_top_front() {
    let key_vec: Vec<i64> = vec![1, 8, 27, 64];
    let list: SLList<i64> = SLList::from(key_vec);

    assert_eq!(list.top_front().unwrap(), 1);
}

#[test]
fn pop_front_keeps_tail_until_empty() {
    let mut list: SLList<i64> = SLList::from(vec![4, 9]);
    assert_eq!(list.pop_front(), Ok(()));
    assert_eq!(list.length, 1);
    assert!(!list.updated);
    assert_eq!(list.tail, Some(Box::new(SLListNode::from(9, 1))));
    assert_eq!(list.head.as_ref().unwrap().key, Some(9));

    assert_eq!(list.pop_front(), Ok(()));
    assert_eq!(list.length, 0);
    assert_eq!(list.head, None);
    assert_eq!(list.tail, None);
}

#[test]
fn push_front_leaves_indices_until_update() {
    let mut list: SLList<i64> = SLList::from(vec![10, 20]);
    list.push_front(30);
    let head = list.head.as_ref().unwrap();
    assert_eq!(head.index, 0);
    assert_eq!(head.next.as_ref().unwrap().index, 0);
    assert_eq!(list.tail.as_ref().unwrap().index, 1);

    list.update();
    assert!(list.updated);
    let head = list.head.as_ref().unwrap();
    let second = head.next.as_ref().unwrap();
    let third = second.next.as_ref().unwrap();
    assert_eq!((head.index, head.key), (0, Some(30)));
    assert_eq!((second.index, second.key), (1, Some(10)));
    assert_eq!((third.index, third.key), (2, Some(20)));
    assert_eq!(list.tail, Some(Box::new(SLListNode::from(20, 2))));
}

#[test]
fn from_numbers_each_node_by_position() {
    let values: Vec<i64> = vec![-3, 0, 7, 7, 42];
    let list = SLList::from(values.clone());
    assert_eq!(list.length, values.len());
    let mut current = list.head.as_ref();
    let mut position: usize = 0;
    while let Some(node) = current {
        assert_eq!(node.index, position);
        assert_eq!(node.key, Some(values[position]));
        current = node.next.as_ref();
        position += 1;
    }
    assert_eq!(position, values.len());
    assert_eq!(list.tail, Some(Box::new(SLListNode::from(42, 4))));
}

#[test]
fn update_on_empty_list_marks_it_current() {
    let mut list: SLList<i64> = SLList::from(vec![1]);
    assert_eq!(list.pop_front(), Ok(()));
    assert!(!list.updated);
    list.update();
    assert_eq!(list, SLList::new());
}
