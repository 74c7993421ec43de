use bytes::Bytes;

use quirk::stream::StreamRx;

#[test]
fn delivers_in_order() {
    let mut rx = StreamRx::new();
    assert_eq!(rx.accept(0, Bytes::from_static(b"a")), b"a".to_vec());
    assert_eq!(rx.accept(1, Bytes::from_static(b"b")), b"b".to_vec());
    assert_eq!(rx.ack(), 2);
}

#[test]
fn buffers_out_of_order_then_drains() {
    let mut rx = StreamRx::new();
    assert!(rx.accept(2, Bytes::from_static(b"c")).is_empty());
    assert!(rx.accept(1, Bytes::from_static(b"b")).is_empty());
    assert_eq!(rx.ack(), 0);
    assert_eq!(rx.accept(0, Bytes::from_static(b"a")), b"abc".to_vec());
    assert_eq!(rx.ack(), 3);
}

#[test]
fn drops_duplicates() {
    let mut rx = StreamRx::new();
    assert_eq!(rx.accept(0, Bytes::from_static(b"a")), b"a".to_vec());
    assert!(rx.accept(0, Bytes::from_static(b"a")).is_empty());
    assert_eq!(rx.accept(1, Bytes::from_static(b"b")), b"b".to_vec());
    assert_eq!(rx.ack(), 2);
}

#[test]
fn the_first_copy_of_a_buffered_segment_wins() {
    let mut rx = StreamRx::default();
    assert!(rx.accept(1, Bytes::from_static(b"first")).is_empty());
    assert!(rx.accept(1, Bytes::from_static(b"second")).is_empty());
    assert_eq!(rx.accept(0, Bytes::new()), b"first".to_vec());
}

/// A segment that was received before is dropped, long after it was delivered or while it is buffered.
#[test]
fn a_late_repeat_changes_nothing() {
    let mut rx = StreamRx::new();
    assert_eq!(rx.accept(0, Bytes::from_static(b"a")), b"a".to_vec());
    assert_eq!(rx.accept(1, Bytes::from_static(b"b")), b"b".to_vec());
    assert!(rx.accept(3, Bytes::from_static(b"d")).is_empty());
    for (seq, bytes) in [(0, &b"x"[..]), (1, b"y"), (3, b"z"), (0, b"a")] {
        assert!(rx.accept(seq, Bytes::copy_from_slice(bytes)).is_empty());
        assert_eq!(rx.ack(), 2);
    }
    assert_eq!(rx.accept(2, Bytes::from_static(b"c")), b"cd".to_vec());
    assert_eq!(rx.ack(), 4);
}

#[test]
fn stops_at_the_first_gap() {
    let mut rx = StreamRx::new();
    assert!(rx.accept(3, Bytes::from_static(b"d")).is_empty());
    assert!(rx.accept(1, Bytes::from_static(b"b")).is_empty());
    assert_eq!(rx.accept(0, Bytes::from_static(b"a")), b"ab".to_vec());
    assert_eq!(rx.ack(), 2);
    assert_eq!(rx.accept(2, Bytes::from_static(b"c")), b"cd".to_vec());
    assert_eq!(rx.ack(), 4);
}

#[test]
fn predicts_the_ack_of_a_segment() {
    let mut rx = StreamRx::new();
    assert!(rx.accept(1, Bytes::from_static(b"b")).is_empty());
    assert_eq!(rx.ack_after(0), Some(2));
    assert_eq!(rx.ack_after(2), Some(0));
    assert_eq!(rx.accept(0, Bytes::from_static(b"a")), b"ab".to_vec());
    assert_eq!(rx.ack_after(0), Some(2));
    assert_eq!(rx.ack_after(u32::MAX), Some(2));
}

/// Every order of four segments, each arriving twice, delivers the same bytes.
#[test]
fn any_order_reassembles_the_stream() {
    let chunks: [&'static [u8]; 4] = [b"one", b"", b"three", b"4"];
    for code in 0..256u32 {
        let order = [code & 3, code >> 2 & 3, code >> 4 & 3, code >> 6 & 3];
        let mut rx = StreamRx::new();
        let mut read = Vec::new();
        for seq in order.iter().chain(order.iter()) {
            read.extend(rx.accept(*seq, Bytes::from_static(chunks[*seq as usize])));
        }
        let first_missing = (0..4u32).find(|seq| !order.contains(seq)).unwrap_or(4);
        assert_eq!(rx.ack(), first_missing);
        assert_eq!(read, chunks[..first_missing as usize].concat());
    }
}
