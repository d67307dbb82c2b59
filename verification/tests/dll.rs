use data_structures::lists::dll::DoublyLinkedList;

#[test]
fn dll_test_new() {
    let list: DoublyLinkedList<i32> = DoublyLinkedList::new();
    assert!(list.is_empty());
    assert_eq!(list.len(), 0);
}

#[test]
fn test_push_front() {
    let mut list = DoublyLinkedList::new();
    list.push_front(1);
    list.push_front(2);
    list.push_front(3);
    assert_eq!(list.len(), 3);
    assert_eq!(list.peek_front(), Some(&3));
    assert_eq!(list.peek_back(), Some(&1));
}

#[test]
fn test_push_back() {
    let mut list = DoublyLinkedList::new();
    list.push_back(1);
    list.push_back(2);
    list.push_back(3);
    assert_eq!(list.len(), 3);
    assert_eq!(list.peek_front(), Some(&1));
    assert_eq!(list.peek_back(), Some(&3));
}

#[test]
fn test_pop_front() {
    let mut list = DoublyLinkedList::new();
    list.push_back(1);
    list.push_back(2);
    list.push_back(3);

    assert_eq!(list.pop_front(), Some(1));
    assert_eq!(list.len(), 2);
    assert_eq!(list.peek_front(), Some(&2));

    assert_eq!(list.pop_front(), Some(2));
    assert_eq!(list.pop_front(), Some(3));
    assert_eq!(list.pop_front(), None);
    assert!(list.is_empty());
}

#[test]
fn test_pop_back() {
    let mut list = DoublyLinkedList::new();
    list.push_back(1);
    list.push_back(2);
    list.push_back(3);

    assert_eq!(list.pop_back(), Some(3));
    assert_eq!(list.len(), 2);
    assert_eq!(list.peek_back(), Some(&2));

    assert_eq!(list.pop_back(), Some(2));
    assert_eq!(list.pop_back(), Some(1));
    assert_eq!(list.pop_back(), None);
    assert!(list.is_empty());
}

#[test]
fn dll_test_peek() {
    let mut list = DoublyLinkedList::new();
    assert_eq!(list.peek_front(), None);
    assert_eq!(list.peek_back(), None);

    list.push_back(1);
    assert_eq!(list.peek_front(), Some(&1));
    assert_eq!(list.peek_back(), Some(&1));

    list.push_back(2);
    assert_eq!(list.peek_front(), Some(&1));
    assert_eq!(list.peek_back(), Some(&2));
}

#[test]
fn dll_test_clear() {
    let mut list = DoublyLinkedList::new();
    list.push_back(1);
    list.push_back(2);
    list.push_back(3);

    list.clear();
    assert!(list.is_empty());
    assert_eq!(list.len(), 0);
    assert_eq!(list.peek_front(), None);
    assert_eq!(list.peek_back(), None);
}

#[test]
fn dll_test_iter() {
    let mut list = DoublyLinkedList::new();
    list.push_back(1);
    list.push_back(2);
    list.push_back(3);

    let mut iter = list.iter();
    assert_eq!(iter.next(), Some(&1));
    assert_eq!(iter.next(), Some(&2));
    assert_eq!(iter.next(), Some(&3));
    assert_eq!(iter.next(), None);
}

#[test]
fn test_into_iter() {
    let mut list = DoublyLinkedList::new();
    list.push_back(1);
    list.push_back(2);
    list.push_back(3);

    let mut iter = list.into_iter();
    let mut collected: Vec<&i32> = Vec::new();
    while let Some(item) = iter.next() {
        collected.push(item);
    }
    assert_eq!(collected, vec![&1, &2, &3]);
}

fn contents(list: &DoublyLinkedList<i32>) -> Vec<i32> {
    let mut out = Vec::new();
    let mut iter = list.iter();
    while let Some(item) = iter.next() {
        out.push(*item);
    }
    out
}

#[test]
fn both_ends_work_together() {
    let mut list = DoublyLinkedList::new();
    list.push_back(2);
    list.push_front(1);
    list.push_back(3);
    list.push_front(0);
    assert_eq!(contents(&list), vec![0, 1, 2, 3]);
    assert_eq!(list.pop_back(), Some(3));
    assert_eq!(list.pop_front(), Some(0));
    assert_eq!(contents(&list), vec![1, 2]);
    assert_eq!(list.len(), 2);
}

#[test]
fn nodes_are_used_again_after_a_pop() {
    let mut list = DoublyLinkedList::new();
    for round in 0..50 {
        for i in 0..10 {
            if i % 2 == 0 {
                list.push_back(round * 10 + i);
            } else {
                list.push_front(round * 10 + i);
            }
        }
        for _ in 0..5 {
            assert!(list.pop_front().is_some());
            assert!(list.pop_back().is_some());
        }
        assert!(list.is_empty());
        assert_eq!(list.peek_front(), None);
    }
    list.push_back(7);
    list.push_back(8);
    assert_eq!(list.pop_front(), Some(7));
    list.push_front(6);
    assert_eq!(contents(&list), vec![6, 8]);
}

#[test]
fn a_single_item_is_both_ends() {
    let mut list = DoublyLinkedList::new();
    list.push_front(String::from("only"));
    assert_eq!(list.peek_front(), list.peek_back());
    assert_eq!(list.pop_back(), Some(String::from("only")));
    assert_eq!(list.pop_front(), None);
    assert_eq!(list.len(), 0);
}

#[test]
fn the_cursor_stays_at_the_end() {
    let mut list = DoublyLinkedList::new();
    list.push_back(1);
    let mut iter = list.iter();
    assert_eq!(iter.next(), Some(&1));
    assert_eq!(iter.next(), None);
    assert_eq!(iter.next(), None);
}
