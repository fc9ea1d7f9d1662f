use linked_lists::error::ListError;
use linked_lists::exclusive::SLList;
use linked_lists::shared::{LinkedList, Node};

/// The stored index and value of each node, walking from the head.
fn entries(list: &LinkedList<i64>) -> Vec<(Option<usize>, Option<i64>)> {
    let mut out = Vec::new();
    let mut current = list.head;
    for _ in 0..list.length {
        let node = list.node(current.unwrap());
        out.push((node.index, node.data));
        current = node.next;
    }
    out
}

#[test]
fn from_numbers_nodes_in_input_order() {
    let values: Vec<i64> = vec![5, -1, 5, 0];
    let shared = LinkedList::from(values.clone());
    assert_eq!(shared.length, 4);
    assert!(shared.ordered);
    assert_eq!(
        entries(&shared),
        vec![(Some(0), Some(5)), (Some(1), Some(-1)), (Some(2), Some(5)), (Some(3), Some(0))]
    );

    let exclusive = SLList::from(values);
    assert_eq!(exclusive.length, 4);
    let second = exclusive.head.as_ref().unwrap().next.as_ref().unwrap();
    assert_eq!((second.index, second.key), (1, Some(-1)));
}

#[test]
fn from_empty_gives_empty_lists() {
    let shared: LinkedList<i64> = LinkedList::from(vec![]);
    assert_eq!((shared.head, shared.tail, shared.length), (None, None, 0));
    let exclusive: SLList<i64> = SLList::from(vec![]);
    assert_eq!((exclusive.head, exclusive.tail, exclusive.length), (None, None, 0));
}

#[test]
fn update_indices_twice_changes_nothing_more() {
    let mut list: LinkedList<i64> = LinkedList::new();
    list.unordered_push_to_front(4);
    list.unordered_push_to_front(6);
    list.update_indices();
    let once = entries(&list);
    let (head, tail, nodes) = (list.head, list.tail, list.nodes.clone());
    list.update_indices();
    assert_eq!(entries(&list), once);
    assert_eq!((list.head, list.tail, list.nodes), (head, tail, nodes));
    assert!(list.ordered);
}

#[test]
fn front_pushes_then_update_match_from() {
    let mut list: LinkedList<i64> = LinkedList::new();
    for value in [1, 2, 3, 4, 5] {
        list.unordered_push_to_front(value);
    }
    assert!(!list.ordered);
    list.update_indices();
    assert_eq!(list, LinkedList::from(vec![5, 4, 3, 2, 1]));
}

#[test]
fn push_to_end_keeps_indices_current() {
    let mut list: LinkedList<i64> = LinkedList::new();
    for (position, value) in [30, 10, 20].into_iter().enumerate() {
        list.push_to_end(value);
        assert!(list.ordered);
        let seen = entries(&list);
        assert_eq!(seen.len(), position + 1);
        for (i, (index, _)) in seen.into_iter().enumerate() {
            assert_eq!(index, Some(i));
        }
        assert_eq!(list.into_back(), Some(value));
    }
}

#[test]
fn pop_from_end_on_one_node_empties() {
    let mut list: LinkedList<i64> = LinkedList::from(vec![11]);
    assert_eq!(list.pop_from_end(), Ok(()));
    assert_eq!((list.head, list.tail, list.length), (None, None, 0));
    assert!(list.is_empty());
}

#[test]
fn pop_from_end_relinks_the_new_tail() {
    let mut list: LinkedList<i64> = LinkedList::from(vec![1, 2, 3]);
    assert_eq!(list.pop_from_end(), Ok(()));
    let tail = list.node(list.tail.unwrap());
    assert_eq!(tail, &Node { index: Some(1), data: Some(2), next: None });
    assert_eq!(entries(&list), vec![(Some(0), Some(1)), (Some(1), Some(2))]);
}

#[test]
fn empty_list_errors() {
    let mut list: LinkedList<i64> = LinkedList::new();
    assert_eq!(list.pop_from_front(), Err(ListError::EmptyList));
    assert_eq!(list.unordered_pop_from_front(), Err(ListError::EmptyList));
    assert_eq!(list.pop_from_end(), Err(ListError::EmptyList));
    assert_eq!(list.find_node_by_index(0), Err(ListError::IndexOutOfRange));
    assert_eq!(list.find_node_by_value(0), Err(ListError::NotFound));
    assert_eq!(list, LinkedList::new());

    let mut exclusive: SLList<i64> = SLList::new();
    assert_eq!(exclusive.pop_front(), Err(ListError::EmptyList));
}

#[test]
fn four_value_scenario() {
    let mut list: LinkedList<i64> = LinkedList::from(vec![8, 56, 19, 80]);
    let handle = list.find_node_by_index(2).unwrap();
    assert_eq!(list.node(handle).data, Some(19));
    assert_eq!(list.into_back(), Some(80));
    assert!(!list.is_empty());
    assert_eq!(list.length, 4);
}

#[test]
fn new_list_scenario() {
    let list: LinkedList<i64> = LinkedList::new();
    assert!(list.is_empty());
    assert_eq!(list.into_back(), None);
    assert_eq!(list.into_front(), None);
}

#[test]
fn find_by_index_renumbers_the_whole_list() {
    let mut list: LinkedList<i64> = LinkedList::from(vec![7, 8, 9]);
    list.unordered_push_to_front(6);
    assert!(!list.ordered);
    let tail = list.tail;
    let handle = list.find_node_by_index(1).unwrap();
    assert_eq!(list.node(handle).data, Some(7));
    assert!(list.ordered);
    assert_eq!(
        entries(&list),
        vec![(Some(0), Some(6)), (Some(1), Some(7)), (Some(2), Some(8)), (Some(3), Some(9))]
    );
    assert_eq!(list.tail, tail);
    assert_eq!(list, LinkedList::from(vec![6, 7, 8, 9]));
}

#[test]
fn head_and_tail_handles_stay_put() {
    let mut list: LinkedList<i64> = LinkedList::from(vec![1, 2, 3]);
    let (head, tail) = (list.head, list.tail);
    list.push_to_end(4);
    assert_eq!(list.head, head);
    assert_eq!(list.pop_from_end(), Ok(()));
    assert_eq!((list.head, list.tail), (head, tail));
    list.push_to_front(0);
    assert_eq!(list.tail, tail);
    assert_eq!(list.pop_from_front(), Ok(()));
    assert_eq!((list.head, list.tail), (head, tail));

    let mut single: LinkedList<i64> = LinkedList::new();
    single.unordered_push_to_front(5);
    assert_eq!(single.head, single.tail);
}

#[test]
fn find_by_value_returns_the_first_match() {
    let list: LinkedList<i64> = LinkedList::from(vec![3, 5, 3]);
    let handle = list.find_node_by_value(3).unwrap();
    assert_eq!(list.node(handle).index, Some(0));
    assert_eq!(list.find_node_by_value(4), Err(ListError::NotFound));
}

#[test]
fn unordered_pop_leaves_indices_stale() {
    let mut list: LinkedList<i64> = LinkedList::from(vec![1, 2, 3]);
    assert_eq!(list.unordered_pop_from_front(), Ok(()));
    assert!(!list.ordered);
    assert_eq!(entries(&list), vec![(Some(1), Some(2)), (Some(2), Some(3))]);
    list.update_indices();
    assert_eq!(entries(&list), vec![(Some(0), Some(2)), (Some(1), Some(3))]);
}

#[test]
fn into_front_takes_the_first_value() {
    let list: LinkedList<i64> = LinkedList::from(vec![42, 1]);
    assert_eq!(list.into_front(), Some(42));
}
