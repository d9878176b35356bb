use bytes::Bytes;
use colander_cache::arena::{Arena, NIL, Node};
use colander_cache::traits::CachedResponse;

const NOW_MS: u64 = 100_000;

fn test_response() -> CachedResponse {
    CachedResponse {
        status: 200,
        headers: vec![],
        body: Bytes::from_static(b"test"),
        inserted_at_ms: NOW_MS,
        ttl_ms: 60_000,
    }
}

fn test_node(key: &str) -> Node {
    Node::new(key.to_string(), test_response())
}

#[test]
fn empty_arena() {
    let arena = Arena::new(10);
    assert_eq!(arena.len(), 0);
    assert!(arena.is_empty());
    assert_eq!(arena.head, NIL);
    assert_eq!(arena.tail, NIL);
}

#[test]
fn push_single() {
    let mut arena = Arena::new(10);
    let idx = arena.push_head(test_node("a")).unwrap();
    assert_eq!(arena.len(), 1);
    assert_eq!(arena.head, idx);
    assert_eq!(arena.tail, idx);
    assert_eq!(arena.get(idx).unwrap().key, "a");
}

#[test]
fn push_multiple_maintains_order() {
    let mut arena = Arena::new(10);
    let a = arena.push_head(test_node("a")).unwrap();
    let b = arena.push_head(test_node("b")).unwrap();
    let c = arena.push_head(test_node("c")).unwrap();

    assert_eq!(arena.head, c);
    assert_eq!(arena.tail, a);
    assert_eq!(arena.get(c).unwrap().next, b);
    assert_eq!(arena.get(b).unwrap().next, a);
    assert_eq!(arena.get(a).unwrap().next, NIL);
}

#[test]
fn remove_middle() {
    let mut arena = Arena::new(10);
    let a = arena.push_head(test_node("a")).unwrap();
    let b = arena.push_head(test_node("b")).unwrap();
    let c = arena.push_head(test_node("c")).unwrap();

    let removed = arena.remove(b).unwrap();
    assert_eq!(removed.key, "b");
    assert_eq!(arena.len(), 2);

    assert_eq!(arena.get(c).unwrap().next, a);
    assert_eq!(arena.get(a).unwrap().prev, c);
}

#[test]
fn remove_head() {
    let mut arena = Arena::new(10);
    let a = arena.push_head(test_node("a")).unwrap();
    let b = arena.push_head(test_node("b")).unwrap();

    arena.remove(b);
    assert_eq!(arena.head, a);
    assert_eq!(arena.tail, a);
}

#[test]
fn remove_tail() {
    let mut arena = Arena::new(10);
    let a = arena.push_head(test_node("a")).unwrap();
    let b = arena.push_head(test_node("b")).unwrap();

    arena.remove(a);
    assert_eq!(arena.head, b);
    assert_eq!(arena.tail, b);
}

#[test]
fn pop_tail() {
    let mut arena = Arena::new(10);
    arena.push_head(test_node("a"));
    arena.push_head(test_node("b"));
    arena.push_head(test_node("c"));

    let (_, node) = arena.pop_tail().unwrap();
    assert_eq!(node.key, "a");
    assert_eq!(arena.len(), 2);
}

#[test]
fn move_to_head() {
    let mut arena = Arena::new(10);
    let a = arena.push_head(test_node("a")).unwrap();
    let b = arena.push_head(test_node("b")).unwrap();
    let c = arena.push_head(test_node("c")).unwrap();

    arena.move_to_head(a);

    assert_eq!(arena.head, a);
    assert_eq!(arena.get(a).unwrap().next, c);
    assert_eq!(arena.get(c).unwrap().next, b);
    assert_eq!(arena.get(b).unwrap().next, NIL);
    assert_eq!(arena.tail, b);
}

#[test]
fn move_head_to_head_is_noop() {
    let mut arena = Arena::new(10);
    let a = arena.push_head(test_node("a")).unwrap();
    let b = arena.push_head(test_node("b")).unwrap();

    arena.move_to_head(b);
    assert_eq!(arena.head, b);
    assert_eq!(arena.tail, a);
}

#[test]
fn slot_reclamation() {
    let mut arena = Arena::new(2);
    let a = arena.push_head(test_node("a")).unwrap();
    let _b = arena.push_head(test_node("b")).unwrap();

    assert!(arena.push_head(test_node("c")).is_none());

    arena.remove(a);
    let c = arena.push_head(test_node("c")).unwrap();
    assert!(arena.get(c).is_some());
    assert_eq!(arena.len(), 2);
}

#[test]
fn visited_bit_operations() {
    let mut node = test_node("a");
    assert!(!node.is_visited());

    node.mark_visited();
    assert!(node.is_visited());

    let was_visited = node.clear_visited();
    assert!(was_visited);
    assert!(!node.is_visited());
}
