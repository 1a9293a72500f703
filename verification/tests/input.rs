use tape_machine::input::InputBuffer;

#[test]
fn new_buffer_is_empty() {
    let mut buffer = InputBuffer::new();
    assert!(buffer.is_empty());
    assert_eq!(buffer.pop(), None);
}

#[test]
fn refill_hands_out_the_line_in_reading_order() {
    let mut buffer = InputBuffer::new();
    buffer.refill(b"abc\n");
    assert!(!buffer.is_empty());
    assert_eq!(buffer.pop(), Some(b'a'));
    assert_eq!(buffer.pop(), Some(b'b'));
    assert_eq!(buffer.pop(), Some(b'c'));
    assert_eq!(buffer.pop(), Some(b'\n'));
    assert_eq!(buffer.pop(), None);
    assert!(buffer.is_empty());
}

#[test]
fn refill_stores_the_line_back_to_front() {
    let mut buffer = InputBuffer::new();
    buffer.refill(b"xy\n");
    assert_eq!(buffer.bytes, vec![b'\n', b'y', b'x']);
}

#[test]
fn refill_with_an_empty_line_leaves_the_buffer_empty() {
    let mut buffer = InputBuffer::new();
    buffer.refill(b"");
    assert!(buffer.is_empty());
    assert_eq!(buffer.pop(), None);
}

#[test]
fn refill_keeps_what_is_pending_in_front() {
    let mut buffer = InputBuffer::new();
    buffer.refill(b"12");
    assert_eq!(buffer.pop(), Some(b'1'));
    buffer.refill(b"34");
    assert_eq!(buffer.pop(), Some(b'2'));
    assert_eq!(buffer.pop(), Some(b'3'));
    assert_eq!(buffer.pop(), Some(b'4'));
    assert_eq!(buffer.pop(), None);
}
