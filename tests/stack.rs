use containers::stack::{Node, Stack};

#[test]
fn test_pop_empty_stack() {
    let mut s: Stack<i32> = Stack::new(None);
    assert_eq!(s.pop(), None);
}

#[test]
fn test_pop_non_empty_stack() {
    let node = Node {
        element: Some(3),
        next: None,
    };
    let node2 = Node {
        element: Some(2),
        next: Some(Box::new(node)),
    };
    let mut s: Stack<i32> = Stack::new(Some(node2));
    assert_eq!(s.pop(), Some(2));
    assert_eq!(s.pop(), Some(3));
    assert_eq!(s.pop(), None);
}

#[test]
fn test_push_pop() {
    let mut s: Stack<i32> = Stack::new(None);
    s.push(12);
    assert_eq!(s.pop(), Some(12));
    assert_eq!(s.pop(), None);
}

#[test]
fn stack_pops_in_reverse_push_order() {
    let mut s: Stack<i32> = Stack::new(None);
    s.push(1);
    s.push(2);
    s.push(3);
    assert_eq!(s.pop(), Some(3));
    s.push(4);
    assert_eq!(s.pop(), Some(4));
    assert_eq!(s.pop(), Some(2));
    assert_eq!(s.pop(), Some(1));
    assert_eq!(s.pop(), None);
}

#[test]
fn stack_push_onto_given_chain() {
    let bottom = Node {
        element: Some(5),
        next: None,
    };
    let mut s: Stack<i32> = Stack::new(Some(bottom));
    s.push(6);
    assert_eq!(s.pop(), Some(6));
    assert_eq!(s.pop(), Some(5));
    assert_eq!(s.pop(), None);
}

#[test]
fn stack_cell_without_element_pops_none() {
    let bottom = Node {
        element: Some(8),
        next: None,
    };
    let top = Node {
        element: None,
        next: Some(Box::new(bottom)),
    };
    let mut s: Stack<i32> = Stack::new(Some(top));
    assert_eq!(s.pop(), None);
    assert_eq!(s.pop(), Some(8));
    assert_eq!(s.pop(), None);
}
