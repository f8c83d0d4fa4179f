use ifdef_context::stack::Stack;
use ifdef_context::stack::StackError;
use ifdef_context::stack_element::StackElement;

#[test]
fn push() {
    let mut stack = Stack::new();
    stack.push(StackElement::new(1, &"foo".to_string()));
    assert_eq!(stack.to_string(), "1: foo\n");
}

#[test]
fn push_pop() {
    let mut stack = Stack::new();
    stack.push(StackElement::new(1, &"foo".to_string()));
    stack.push(StackElement::new(2, &"bar".to_string()));
    stack.pop().unwrap();
    assert_eq!(stack.to_string(), "1: foo\n");
}

#[test]
fn pop_else() {
    let mut stack = Stack::new();
    stack.push(StackElement::new(1, &"foo".to_string()));
    stack.push(StackElement::new(2, &"bar".to_string()));
    stack.push(StackElement::new(3, &"#else".to_string()));
    stack.push(StackElement::new(4, &"#else".to_string()));
    stack.push(StackElement::new(5, &"#else".to_string()));
    stack.pop().unwrap();
    assert_eq!(stack.to_string(), "1: foo\n");
}

#[test]
fn is_else() {
    let stack_element = StackElement::new(5, &"\t #else foobar".to_string());
    assert!(stack_element.is_else());
}

#[test]
fn is_not_else() {
    let stack_element = StackElement::new(5, &"\t #if foobar".to_string());
    assert!(!stack_element.is_else());
}

#[test]
fn pop_empty_is_underflow() {
    let mut stack = Stack::new();
    assert_eq!(stack.pop(), Err(StackError::Underflow));
    assert_eq!(stack.to_string(), "");
}

#[test]
fn pop_only_else_is_underflow() {
    let mut stack = Stack::new();
    stack.push(StackElement::new(1, &"#else".to_string()));
    assert_eq!(stack.pop(), Err(StackError::Underflow));
    assert_eq!(stack.to_string(), "1: #else\n");
}

#[test]
fn width_max_1() {
    let mut stack = Stack::new();
    stack.push(StackElement::new(1, &"x".to_string()));
    assert_eq!(stack.to_string(), "1: x\n");
}

#[test]
fn width_max_9() {
    let mut stack = Stack::new();
    stack.push(StackElement::new(2, &"a".to_string()));
    stack.push(StackElement::new(9, &"b".to_string()));
    assert_eq!(stack.to_string(), "2: a\n9: b\n");
}

#[test]
fn width_max_10() {
    let mut stack = Stack::new();
    stack.push(StackElement::new(2, &"a".to_string()));
    stack.push(StackElement::new(10, &"b".to_string()));
    assert_eq!(stack.to_string(), "2: a\n10: b\n");
}

#[test]
fn width_max_11() {
    let mut stack = Stack::new();
    stack.push(StackElement::new(2, &"a".to_string()));
    stack.push(StackElement::new(11, &"b".to_string()));
    assert_eq!(stack.to_string(), " 2: a\n11: b\n");
}

#[test]
fn width_max_99() {
    let mut stack = Stack::new();
    stack.push(StackElement::new(5, &"a".to_string()));
    stack.push(StackElement::new(99, &"b".to_string()));
    assert_eq!(stack.to_string(), " 5: a\n99: b\n");
}

#[test]
fn width_max_100() {
    let mut stack = Stack::new();
    stack.push(StackElement::new(5, &"a".to_string()));
    stack.push(StackElement::new(100, &"b".to_string()));
    assert_eq!(stack.to_string(), " 5: a\n100: b\n");
}

#[test]
fn width_uses_largest_line_ever_pushed() {
    let mut stack = Stack::new();
    stack.push(StackElement::new(5, &"#if a".to_string()));
    stack.push(StackElement::new(100, &"x".to_string()));
    stack.pop().unwrap();
    assert_eq!(stack.to_string(), " 5: #if a\n");
}
