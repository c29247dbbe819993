use rust_exercises::stack::Stack;

#[test]
fn stack_push_pop_peek() {
    let mut s: Stack<i32> = Stack::new();
    assert!(s.is_empty());
    assert_eq!(s.size(), 0);
    assert_eq!(s.pop(), None);
    assert_eq!(s.peek(), None);
    s.push(1);
    s.push(2);
    assert_eq!(s.peek(), Some(&2));
    assert_eq!(s.size(), 2);
    assert_eq!(s.pop(), Some(2));
    assert_eq!(s.pop(), Some(1));
    assert!(s.is_empty());
}

#[test]
fn stack_pop_undoes_push() {
    let mut s: Stack<&str> = Stack::new();
    s.push("a");
    s.push("b");
    assert_eq!(s.pop(), Some("b"));
    assert_eq!(s.size(), 1);
    assert_eq!(s.peek(), Some(&"a"));
}

#[test]
fn stack_clear() {
    let mut s: Stack<u8> = Stack::new();
    s.push(1);
    s.push(2);
    s.clear();
    assert!(s.is_empty());
    assert_eq!(s.pop(), None);
}
