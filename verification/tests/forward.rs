use tcplb::forward::Direction;
use tcplb::forward::Session;

#[test]
fn round_trip_preserves_bytes() {
    let mut d = Direction::new();
    d.on_read(&b"ping".to_vec());
    let out = d.take_write(8192);
    assert_eq!(out, b"ping".to_vec());
    d.on_read_eof();
    assert!(d.poll_shutdown(), "eof with nothing pending shuts the peer write side");
    assert!(!d.poll_shutdown(), "shutdown happens exactly once");
}

#[test]
fn chunked_reads_and_partial_writes_keep_order() {
    let mut d = Direction::new();
    d.on_read(&vec![1, 2, 3]);
    d.on_read(&vec![4, 5]);
    assert_eq!(d.take_write(2), vec![1, 2]);
    assert_eq!(d.take_write(10), vec![3, 4, 5]);
    assert_eq!(d.take_write(10), Vec::<u8>::new());
}

#[test]
fn half_close_waits_for_own_eof_and_flush() {
    let mut s = Session::new();
    // downstream wrote, then closed its read half with a byte still unflushed
    s.down_up.on_read(&vec![7]);
    s.down_up.on_read_eof();
    assert!(
        !s.down_up.poll_shutdown(),
        "upstream write stays open until every byte is on"
    );
    assert_eq!(s.down_up.take_write(100), vec![7]);
    assert!(s.down_up.poll_shutdown());
    // the other direction is untouched: the session continues
    assert!(!s.is_done());
    s.up_down.on_read(&vec![8]);
    assert_eq!(s.up_down.take_write(100), vec![8]);
    s.up_down.on_read_eof();
    assert!(s.is_done(), "both directions complete");
}

#[test]
fn error_terminates_session() {
    let mut s = Session::new();
    s.down_up.on_read(&vec![1]);
    assert!(!s.is_done());
    s.on_error();
    assert!(s.is_done());
}
