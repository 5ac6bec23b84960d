use futures::task::noop_waker;
use plugin_fabric::loopback::{progress_possible, Loopback, MAX_BUFFER_SIZE};
use plugin_fabric::maybe::{ErrorKind, Poll};
use std::task::Context;

#[test]
fn flushed_bytes_reach_the_peer() {
    let waker = noop_waker();
    let mut cx = Context::from_waker(&waker);
    let (mut a, mut b) = Loopback::pair();
    assert_eq!(a.poll_write(&mut cx, &[1, 2, 3]), Poll::Ready(Ok(3)));
    assert_eq!(a.poll_flush(&mut cx), Poll::Ready(Ok(())));
    let mut buf = [0u8; 8];
    assert_eq!(b.poll_read(&mut cx, &mut buf), Poll::Ready(Ok(3)));
    assert_eq!(&buf[..3], &[1, 2, 3]);
}

#[test]
fn unflushed_bytes_stay_with_the_writer() {
    let waker = noop_waker();
    let mut cx = Context::from_waker(&waker);
    let (mut a, mut b) = Loopback::pair();
    assert_eq!(a.poll_write(&mut cx, b"abc"), Poll::Ready(Ok(3)));
    let mut buf = [0u8; 4];
    assert_eq!(b.poll_read(&mut cx, &mut buf), Poll::Pending);
}

#[test]
fn zero_byte_write_is_ready_zero() {
    let waker = noop_waker();
    let mut cx = Context::from_waker(&waker);
    let (mut a, mut b) = Loopback::pair();
    assert_eq!(a.poll_write(&mut cx, &[]), Poll::Ready(Ok(0)));
    assert_eq!(a.poll_flush(&mut cx), Poll::Ready(Ok(())));
    let mut buf = [0u8; 4];
    assert_eq!(b.poll_read(&mut cx, &mut buf), Poll::Pending);
}

#[test]
fn zero_length_read_consumes_nothing() {
    let waker = noop_waker();
    let mut cx = Context::from_waker(&waker);
    let (mut a, mut b) = Loopback::pair();
    a.poll_write(&mut cx, &[9, 8]);
    a.poll_flush(&mut cx);
    let mut empty: [u8; 0] = [];
    assert_eq!(b.poll_read(&mut cx, &mut empty), Poll::Ready(Ok(0)));
    let mut buf = [0u8; 2];
    assert_eq!(b.poll_read(&mut cx, &mut buf), Poll::Ready(Ok(2)));
    assert_eq!(buf, [9, 8]);
}

#[test]
fn reads_split_a_chunk_in_order() {
    let waker = noop_waker();
    let mut cx = Context::from_waker(&waker);
    let (mut a, mut b) = Loopback::pair();
    a.poll_write(&mut cx, &[1, 2, 3, 4, 5]);
    a.poll_flush(&mut cx);
    let mut buf = [0u8; 2];
    assert_eq!(b.poll_read(&mut cx, &mut buf), Poll::Ready(Ok(2)));
    assert_eq!(buf, [1, 2]);
    assert_eq!(b.poll_read(&mut cx, &mut buf), Poll::Ready(Ok(2)));
    assert_eq!(buf, [3, 4]);
    assert_eq!(b.poll_read(&mut cx, &mut buf), Poll::Ready(Ok(1)));
    assert_eq!(buf[0], 5);
    assert_eq!(b.poll_read(&mut cx, &mut buf), Poll::Pending);
}

#[test]
fn bytes_keep_their_order_across_flushes() {
    let waker = noop_waker();
    let mut cx = Context::from_waker(&waker);
    let (mut a, mut b) = Loopback::pair();
    let data: Vec<u8> = (0..40000u32).map(|i| (i % 251) as u8).collect();
    let mut sent = 0;
    let mut got: Vec<u8> = Vec::new();
    let mut buf = [0u8; 777];
    while got.len() < data.len() {
        if sent < data.len() {
            let end = (sent + 1000).min(data.len());
            match a.poll_write(&mut cx, &data[sent..end]) {
                Poll::Ready(Ok(n)) => sent += n,
                Poll::Ready(Err(e)) => panic!("write failed: {:?}", e),
                Poll::Pending => {}
            }
            if sent == data.len() {
                a.poll_flush(&mut cx);
            }
        }
        while let Poll::Ready(Ok(n)) = b.poll_read(&mut cx, &mut buf) {
            got.extend_from_slice(&buf[..n]);
        }
    }
    assert_eq!(got, data);
}

#[test]
fn a_write_past_the_staging_limit_flushes_first() {
    let waker = noop_waker();
    let mut cx = Context::from_waker(&waker);
    let (mut a, mut b) = Loopback::pair();
    let first = vec![1u8; MAX_BUFFER_SIZE];
    assert_eq!(a.poll_write(&mut cx, &first), Poll::Ready(Ok(MAX_BUFFER_SIZE)));
    assert_eq!(a.poll_write(&mut cx, &[2]), Poll::Ready(Ok(1)));
    let mut buf = vec![0u8; MAX_BUFFER_SIZE + 10];
    assert_eq!(b.poll_read(&mut cx, &mut buf), Poll::Ready(Ok(MAX_BUFFER_SIZE)));
    assert!(buf[..MAX_BUFFER_SIZE].iter().all(|&x| x == 1));
    assert_eq!(b.poll_read(&mut cx, &mut buf), Poll::Pending);
    a.poll_flush(&mut cx);
    assert_eq!(b.poll_read(&mut cx, &mut buf), Poll::Ready(Ok(1)));
    assert_eq!(buf[0], 2);
}

#[test]
fn close_reaches_the_peer_after_its_bytes() {
    let waker = noop_waker();
    let mut cx = Context::from_waker(&waker);
    let (mut a, mut b) = Loopback::pair();
    a.poll_write(&mut cx, &[4, 5, 6]);
    assert_eq!(a.poll_close(&mut cx), Poll::Ready(Ok(())));
    let mut buf = [0u8; 2];
    assert_eq!(b.poll_read(&mut cx, &mut buf), Poll::Ready(Ok(2)));
    assert_eq!(buf, [4, 5]);
    assert_eq!(b.poll_read(&mut cx, &mut buf), Poll::Ready(Ok(1)));
    assert_eq!(buf[0], 6);
    assert_eq!(b.poll_read(&mut cx, &mut buf), Poll::Ready(Err(ErrorKind::NotConnected)));
}

#[test]
fn dropping_a_half_ends_the_peer_stream() {
    let waker = noop_waker();
    let mut cx = Context::from_waker(&waker);
    let (a, mut b) = Loopback::pair();
    drop(a);
    let mut buf = [0u8; 2];
    assert_eq!(b.poll_read(&mut cx, &mut buf), Poll::Ready(Err(ErrorKind::NotConnected)));
    assert_eq!(b.poll_write(&mut cx, &[1]), Poll::Ready(Ok(1)));
    assert_eq!(b.poll_flush(&mut cx), Poll::Ready(Err(ErrorKind::NotConnected)));
}

#[test]
fn has_data_sees_waiting_chunks() {
    let waker = noop_waker();
    let mut cx = Context::from_waker(&waker);
    let (mut a, mut b) = Loopback::pair();
    a.poll_write(&mut cx, &[1]);
    a.poll_flush(&mut cx);
    assert!(b.has_data(&mut cx));
}

#[test]
fn progress_needs_one_of_three() {
    assert!(!progress_possible(false, false, false));
    assert!(progress_possible(true, false, false));
    assert!(progress_possible(false, true, false));
    assert!(progress_possible(false, false, true));
}

#[test]
fn close_with_a_gone_peer_reports_the_failed_flush() {
    let waker = noop_waker();
    let mut cx = Context::from_waker(&waker);
    let (mut a, b) = Loopback::pair();
    drop(b);
    assert_eq!(a.poll_write(&mut cx, &[1, 2]), Poll::Ready(Ok(2)));
    assert_eq!(a.poll_close(&mut cx), Poll::Ready(Err(ErrorKind::NotConnected)));
}

#[test]
fn flush_fence_delivers_all_three_bytes() {
    let waker = noop_waker();
    let mut cx = Context::from_waker(&waker);
    let (mut a, mut b) = Loopback::pair();
    assert_eq!(a.poll_write(&mut cx, &[1, 2, 3]), Poll::Ready(Ok(3)));
    assert_eq!(a.poll_flush(&mut cx), Poll::Ready(Ok(())));
    let mut buf = [9u8; 5];
    assert_eq!(b.poll_read(&mut cx, &mut buf), Poll::Ready(Ok(3)));
    assert_eq!(buf, [1, 2, 3, 9, 9]);
}
