//! Stack behavior: last in, first out, and error reporting.

use bytevm::defs::VmError;
use bytevm::stack::Stack;

#[test]
fn push_then_pop_returns_values_in_reverse_order() {
    let mut stack = Stack::new();
    let values: [u8; 5] = [3, 1, 4, 1, 5];
    for v in values {
        stack.push(v);
    }
    let mut popped = Vec::new();
    for _ in 0..values.len() {
        popped.push(stack.pop().unwrap());
    }
    let mut reversed: Vec<u8> = values.to_vec();
    reversed.reverse();
    assert_eq!(popped, reversed);
    assert_eq!(stack.len(), 0);
}

#[test]
fn top_never_changes_the_length() {
    let mut stack = Stack::new();
    stack.push(9);
    stack.push(7);
    let before = stack.len();
    assert_eq!(stack.top(), Ok(7));
    assert_eq!(stack.len(), before);
    assert_eq!(stack.top(), Ok(7));
    assert_eq!(stack.len(), before);
}

#[test]
fn pop_on_empty_stack_is_an_error() {
    let mut stack = Stack::new();
    assert_eq!(stack.pop(), Err(VmError::EmptyStack));
    assert_eq!(stack.top(), Err(VmError::EmptyStack));
}

#[test]
fn get_reads_from_the_bottom() {
    let mut stack = Stack::new();
    stack.push(10);
    stack.push(20);
    assert_eq!(stack.get(0), 10);
    assert_eq!(stack.get(1), 20);
}
