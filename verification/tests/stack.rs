use classic_structures::stack::{Pop, Push, Stack};

#[test]
fn test_pop_from_empty_stack() {
    let mut stack = Stack::<u32>::new();
    for _ in 0..10 {
        assert!(stack.is_empty());
        assert_eq!(stack.size(), 0);
        assert!(stack.pop().is_none());
    }
}

#[test]
fn test_push_pop_once() {
    let mut stack = Stack::<u32>::new();
    for i in 0..10 {
        stack.push(&i);
        assert!(stack.pop().and_then(|number| Some( number == i ) ).unwrap_or(false));
        assert!(stack.is_empty());
        assert_eq!(stack.size(), 0);
        assert!(stack.pop().is_none());
    }
}

#[test]
fn test_push_pop_twice() {
    let mut stack = Stack::<u32>::new();
    for i in 0..10 {
        stack.push(&i);
        stack.push(&(i+10));
        assert!(stack.pop().and_then(|number| Some(number == (i+10) ) ).unwrap_or(false));
        assert!(stack.pop().and_then(|number| Some(number == i ) ).unwrap_or(false));
        assert!(stack.is_empty());
        assert_eq!(stack.size(), 0);
        assert!(stack.pop().is_none());
    }
}
