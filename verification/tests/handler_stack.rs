use eir::exception_handler_stack::{ExceptionHandlerStack, HandlerStackError};
use eir::ir::Value;

#[test]
fn balanced_sequence_finishes() {
    let mut s = ExceptionHandlerStack::new();
    s.push_handler(Value(1));
    s.push_anon_handler(Value(2));
    assert_eq!(s.len(), 2);
    s.pop_handler();
    s.pop_handler();
    assert_eq!(s.len(), 0);
    assert_eq!(s.balance(), Ok(()));
    s.finish();
}

#[test]
fn extra_push_is_detected() {
    let mut s = ExceptionHandlerStack::new();
    s.push_handler(Value(1));
    s.push_handler(Value(2));
    s.pop_handler();
    assert_eq!(s.balance(), Err(HandlerStackError::Unclosed(1)));
}

#[test]
fn pop_on_empty_is_detected() {
    let mut s = ExceptionHandlerStack::new();
    s.pop_handler();
    s.push_handler(Value(1));
    s.pop_handler();
    assert_eq!(s.len(), 0);
    assert_eq!(s.balance(), Err(HandlerStackError::Underflow));
}
