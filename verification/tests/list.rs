use cart_cache::arena::{Arena, Node};
use cart_cache::XLinkedList;

fn blank() -> Node {
    Node { prev: None, next: None, is_history: false, is_reference: false, is_longterm: false }
}

#[test]
fn arena_hands_out_distinct_handles() {
    let mut arena: Arena<u8, u32> = Arena::with_capacity(3);
    let a = arena.insert(1, 10, blank()).unwrap();
    let b = arena.insert(2, 20, blank()).unwrap();
    let c = arena.insert(3, 30, blank()).unwrap();
    assert!(a != b && b != c && a != c);
    assert!(a < 3 && b < 3 && c < 3);
    assert_eq!(*arena.key(a), 1);
    assert_eq!(*arena.value(b), 20);
    assert_eq!(*arena.key(c), 3);
    // Every slot is taken.
    assert!(arena.insert(4, 40, blank()).is_none());
    assert_eq!(*arena.value(a), 10);
}

#[test]
fn arena_keeps_nodes_by_handle() {
    let mut arena: Arena<u8, u32> = Arena::with_capacity(2);
    let mut first = blank();
    first.is_reference = true;
    let a = arena.insert(1, 10, first).unwrap();
    let b = arena.insert(2, 20, blank()).unwrap();
    assert!(arena.node(a).is_reference);
    assert!(!arena.node(b).is_reference);
    let mut node = arena.node(b);
    node.is_longterm = true;
    node.prev = Some(a);
    arena.set_node(b, node);
    assert!(arena.node(b).is_longterm);
    assert_eq!(arena.node(b).prev, Some(a));
    assert!(!arena.node(a).is_longterm);
    assert_eq!(arena.node(a).prev, None);
    assert_eq!(*arena.value(b), 20);
}

#[test]
fn arena_remove_frees_the_slot() {
    let mut arena: Arena<u8, u32> = Arena::with_capacity(2);
    let a = arena.insert(1, 10, blank()).unwrap();
    let b = arena.insert(2, 20, blank()).unwrap();
    let item = arena.remove(a);
    assert_eq!(item.key, 1);
    assert_eq!(item.value, 10);
    let c = arena.insert(3, 30, blank()).unwrap();
    assert!(c != b);
    assert_eq!(*arena.key(c), 3);
    assert_eq!(*arena.value(b), 20);
    assert!(arena.insert(4, 40, blank()).is_none());
}

#[test]
fn arena_values_change_in_place() {
    let mut arena: Arena<u8, u32> = Arena::with_capacity(2);
    let a = arena.insert(1, 10, blank()).unwrap();
    *arena.value_mut(a) += 5;
    assert_eq!(*arena.value(a), 15);
    arena.set_item(a, 1, 99);
    assert_eq!(*arena.value(a), 99);
    assert_eq!(*arena.key(a), 1);
}

#[test]
fn arena_clear_frees_every_slot() {
    let mut arena: Arena<u8, u32> = Arena::with_capacity(2);
    arena.insert(1, 10, blank()).unwrap();
    arena.insert(2, 20, blank()).unwrap();
    assert!(arena.insert(3, 30, blank()).is_none());
    arena.clear();
    let a = arena.insert(4, 40, blank()).unwrap();
    let b = arena.insert(5, 50, blank()).unwrap();
    assert!(a != b);
    assert!(arena.insert(6, 60, blank()).is_none());
    assert_eq!(*arena.key(a), 4);
    assert_eq!(*arena.value(b), 50);
}

#[test]
fn new_list_is_empty() {
    let mut list: XLinkedList<u8, u32> = XLinkedList::new();
    let mut arena: Arena<u8, u32> = Arena::with_capacity(2);
    assert_eq!(list.len(), 0);
    assert!(list.is_empty());
    assert_eq!(list.pop_front(&mut arena), None);
    assert_eq!(list.len(), 0);
}

#[test]
fn push_back_links_in_order() {
    let mut arena: Arena<u8, u32> = Arena::with_capacity(4);
    let mut list: XLinkedList<u8, u32> = XLinkedList::new();
    let a = arena.insert(1, 10, blank()).unwrap();
    let b = arena.insert(2, 20, blank()).unwrap();
    let c = arena.insert(3, 30, blank()).unwrap();
    list.push_back(&mut arena, a);
    assert_eq!(list.len(), 1);
    assert!(!list.is_empty());
    assert_eq!(arena.node(a).prev, None);
    assert_eq!(arena.node(a).next, None);
    list.push_back(&mut arena, b);
    list.push_back(&mut arena, c);
    assert_eq!(list.len(), 3);
    assert_eq!(arena.node(a).prev, None);
    assert_eq!(arena.node(a).next, Some(b));
    assert_eq!(arena.node(b).prev, Some(a));
    assert_eq!(arena.node(b).next, Some(c));
    assert_eq!(arena.node(c).prev, Some(b));
    assert_eq!(arena.node(c).next, None);
}

#[test]
fn pop_front_takes_the_oldest() {
    let mut arena: Arena<u8, u32> = Arena::with_capacity(4);
    let mut list: XLinkedList<u8, u32> = XLinkedList::new();
    let a = arena.insert(1, 10, blank()).unwrap();
    let b = arena.insert(2, 20, blank()).unwrap();
    let c = arena.insert(3, 30, blank()).unwrap();
    list.push_back(&mut arena, a);
    list.push_back(&mut arena, b);
    list.push_back(&mut arena, c);
    assert_eq!(list.pop_front(&mut arena), Some(a));
    assert_eq!(list.len(), 2);
    assert_eq!(arena.node(a).next, None);
    assert_eq!(arena.node(b).prev, None);
    assert_eq!(arena.node(b).next, Some(c));
    assert_eq!(list.pop_front(&mut arena), Some(b));
    assert_eq!(list.pop_front(&mut arena), Some(c));
    assert_eq!(arena.node(c).prev, None);
    assert_eq!(arena.node(c).next, None);
    assert!(list.is_empty());
    assert_eq!(list.pop_front(&mut arena), None);
    // An emptied list takes handles again.
    list.push_back(&mut arena, b);
    assert_eq!(list.len(), 1);
    assert_eq!(list.pop_front(&mut arena), Some(b));
}

#[test]
fn remove_patches_the_neighbours() {
    let mut arena: Arena<u8, u32> = Arena::with_capacity(4);
    let mut list: XLinkedList<u8, u32> = XLinkedList::new();
    let a = arena.insert(1, 10, blank()).unwrap();
    let b = arena.insert(2, 20, blank()).unwrap();
    let c = arena.insert(3, 30, blank()).unwrap();
    let d = arena.insert(4, 40, blank()).unwrap();
    for t in [a, b, c, d] {
        list.push_back(&mut arena, t);
    }
    // From the middle.
    list.remove(&mut arena, b);
    assert_eq!(list.len(), 3);
    assert_eq!(arena.node(b).prev, None);
    assert_eq!(arena.node(b).next, None);
    assert_eq!(arena.node(a).next, Some(c));
    assert_eq!(arena.node(c).prev, Some(a));
    // The tail.
    list.remove(&mut arena, d);
    assert_eq!(arena.node(c).next, None);
    list.push_back(&mut arena, b);
    assert_eq!(arena.node(c).next, Some(b));
    assert_eq!(arena.node(b).prev, Some(c));
    // The head.
    list.remove(&mut arena, a);
    assert_eq!(arena.node(c).prev, None);
    assert_eq!(list.pop_front(&mut arena), Some(c));
    // The only one.
    list.remove(&mut arena, b);
    assert!(list.is_empty());
    assert_eq!(list.pop_front(&mut arena), None);
}

#[test]
fn clear_forgets_the_handles() {
    let mut arena: Arena<u8, u32> = Arena::with_capacity(4);
    let mut list: XLinkedList<u8, u32> = XLinkedList::new();
    let a = arena.insert(1, 10, blank()).unwrap();
    let b = arena.insert(2, 20, blank()).unwrap();
    list.push_back(&mut arena, a);
    list.push_back(&mut arena, b);
    list.clear();
    assert_eq!(list.len(), 0);
    assert!(list.is_empty());
    assert_eq!(list.pop_front(&mut arena), None);
    assert_eq!(*arena.value(a), 10);
}
