use futures::channel::mpsc::Sender;
use futures::task::noop_waker;
use plugin_fabric::loopback::Loopback;
use plugin_fabric::matchmaker::{ConnType, MatchMaker, Request};
use plugin_fabric::maybe::{ErrorKind, Poll};
use plugin_fabric::socket::{ready_handles, HostFault, SocketManager};
use std::task::Context;

/// Serves every request queued at the matchmaker, carrying out each match.
fn run_matchmaker(mm: &mut MatchMaker, cx: &mut Context) {
    while let Poll::Ready(Some(req)) = mm.poll_request(cx) {
        let mut next = mm.handle(req);
        while let Some(mut d) = next {
            let (a, b) = Loopback::pair();
            let took = d.listener.try_send(a).is_ok();
            if took {
                let _ = d.connector.try_send(b);
            }
            next = mm.delivered(d, took);
        }
    }
}

fn write_all(sm: &mut SocketManager, h: u32, data: &[u8], cx: &mut Context) {
    assert_eq!(sm.write(h, data, cx), Poll::Ready(Ok(data.len() as u32)));
    assert_eq!(sm.flush(h, cx), Poll::Ready(Ok(())));
}

fn read_some(sm: &mut SocketManager, h: u32, len: usize, cx: &mut Context) -> Vec<u8> {
    let mut buf = vec![0u8; len];
    match sm.read(h, &mut buf, cx) {
        Poll::Ready(Ok(n)) => {
            buf.truncate(n as usize);
            buf
        }
        other => panic!("read gave {:?}", other),
    }
}

#[test]
fn echo_round_trip() {
    let waker = noop_waker();
    let mut cx = Context::from_waker(&waker);
    let (mut mm, tx) = MatchMaker::new();
    let mut server = SocketManager::new("self".to_string(), tx.clone());
    let mut client = SocketManager::new("client".to_string(), tx.clone());
    assert_eq!(server.listener_create(5062), Ok(0));
    assert_eq!(client.connect("self", 5062), Ok(0));
    run_matchmaker(&mut mm, &mut cx);
    assert_eq!(server.listen(0, &mut cx), Poll::Ready(Ok(1)));
    assert_eq!(client.listen(0, &mut cx), Poll::Ready(Ok(1)));
    let msg = b"Message from client!";
    assert_eq!(msg.len(), 20);
    write_all(&mut client, 1, msg, &mut cx);
    let got = read_some(&mut server, 1, 64, &mut cx);
    assert_eq!(got, msg.to_vec());
    write_all(&mut server, 1, &got, &mut cx);
    assert_eq!(read_some(&mut client, 1, 64, &mut cx), msg.to_vec());
}

#[test]
fn connector_before_listener() {
    let waker = noop_waker();
    let mut cx = Context::from_waker(&waker);
    let (mut mm, tx) = MatchMaker::new();
    let mut client = SocketManager::new("client".to_string(), tx.clone());
    let mut server = SocketManager::new("svc".to_string(), tx.clone());
    let c = client.connect("svc", 1).unwrap();
    run_matchmaker(&mut mm, &mut cx);
    assert_eq!(client.listen(c, &mut cx), Poll::Pending);
    let l = server.listener_create(1).unwrap();
    run_matchmaker(&mut mm, &mut cx);
    assert!(matches!(client.listen(c, &mut cx), Poll::Ready(Ok(_))));
    assert!(matches!(server.listen(l, &mut cx), Poll::Ready(Ok(_))));
}

#[test]
fn connector_handle_is_gone_after_its_match() {
    let waker = noop_waker();
    let mut cx = Context::from_waker(&waker);
    let (mut mm, tx) = MatchMaker::new();
    let mut server = SocketManager::new("self".to_string(), tx.clone());
    let mut client = SocketManager::new("client".to_string(), tx.clone());
    server.listener_create(5062).unwrap();
    client.connect("self", 5062).unwrap();
    run_matchmaker(&mut mm, &mut cx);
    assert_eq!(client.listen(0, &mut cx), Poll::Ready(Ok(1)));
    assert_eq!(client.listen(0, &mut cx), Poll::Ready(Err(ErrorKind::NotFound)));
}

#[test]
fn listener_stays_after_a_match() {
    let waker = noop_waker();
    let mut cx = Context::from_waker(&waker);
    let (mut mm, tx) = MatchMaker::new();
    let mut server = SocketManager::new("self".to_string(), tx.clone());
    let mut client = SocketManager::new("client".to_string(), tx.clone());
    server.listener_create(5062).unwrap();
    client.connect("self", 5062).unwrap();
    run_matchmaker(&mut mm, &mut cx);
    assert_eq!(server.listen(0, &mut cx), Poll::Ready(Ok(1)));
    assert_eq!(server.listen(0, &mut cx), Poll::Pending);
    let c2 = client.connect("self", 5062).unwrap();
    run_matchmaker(&mut mm, &mut cx);
    assert_eq!(server.listen(0, &mut cx), Poll::Ready(Ok(2)));
    assert!(matches!(client.listen(c2, &mut cx), Poll::Ready(Ok(_))));
}

#[test]
fn first_handle_is_zero() {
    let (_mm, tx) = MatchMaker::new();
    let mut sm = SocketManager::new("m".to_string(), tx);
    assert_eq!(sm.connect("x", 3), Ok(0));
    assert_eq!(sm.listener_create(4), Ok(1));
}

#[test]
fn unmatched_connector_pends_until_closed() {
    let waker = noop_waker();
    let mut cx = Context::from_waker(&waker);
    let (mut mm, tx) = MatchMaker::new();
    let mut client = SocketManager::new("client".to_string(), tx);
    let c = client.connect("nobody", 9).unwrap();
    for _ in 0..3 {
        run_matchmaker(&mut mm, &mut cx);
        assert_eq!(client.listen(c, &mut cx), Poll::Pending);
    }
    client.close(c);
    assert_eq!(client.listen(c, &mut cx), Poll::Ready(Err(ErrorKind::NotFound)));
}

#[test]
fn unknown_handles_are_not_found() {
    let waker = noop_waker();
    let mut cx = Context::from_waker(&waker);
    let (_mm, tx) = MatchMaker::new();
    let mut sm = SocketManager::new("m".to_string(), tx);
    let mut buf = [0u8; 4];
    assert_eq!(sm.listen(5, &mut cx), Poll::Ready(Err(ErrorKind::NotFound)));
    assert_eq!(sm.read(5, &mut buf, &mut cx), Poll::Ready(Err(ErrorKind::NotFound)));
    assert_eq!(sm.write(5, &buf, &mut cx), Poll::Ready(Err(ErrorKind::NotFound)));
    assert_eq!(sm.flush(5, &mut cx), Poll::Ready(Err(ErrorKind::NotFound)));
    sm.close(5);
}

#[test]
fn a_closed_matchmaker_is_a_host_fault() {
    let (mm, tx) = MatchMaker::new();
    drop(mm);
    let mut sm = SocketManager::new("m".to_string(), tx);
    assert_eq!(sm.connect("x", 1), Err(HostFault::MatchmakerUnavailable));
    assert_eq!(sm.listener_create(1), Err(HostFault::MatchmakerUnavailable));
    let (_mm2, tx2) = MatchMaker::new();
    let mut sm2 = SocketManager::new("m".to_string(), tx2);
    assert_eq!(sm2.connect("x", 1), Ok(0));
}

#[test]
fn wakes_reports_ready_handles() {
    let waker = noop_waker();
    let mut cx = Context::from_waker(&waker);
    let (mut mm, tx) = MatchMaker::new();
    let mut server = SocketManager::new("self".to_string(), tx.clone());
    let mut client = SocketManager::new("client".to_string(), tx.clone());
    server.listener_create(7).unwrap();
    assert!(server.wakes(&mut cx).is_empty());
    client.connect("self", 7).unwrap();
    run_matchmaker(&mut mm, &mut cx);
    assert_eq!(server.wakes(&mut cx), vec![0]);
    assert_eq!(server.listen(0, &mut cx), Poll::Ready(Ok(1)));
    assert_eq!(client.listen(0, &mut cx), Poll::Ready(Ok(1)));
    write_all(&mut client, 1, &[1, 2], &mut cx);
    assert!(server.wakes(&mut cx).contains(&1));
}

fn request(id: &str, port: u16, conn_type: ConnType, dest: Sender<Loopback>) -> Request {
    Request { id: id.to_string(), port, conn_type, dest_socket: dest }
}

#[test]
fn waiting_connectors_are_matched_oldest_first() {
    let (mut mm, _tx) = MatchMaker::new();
    let (c1, mut r1) = futures::channel::mpsc::channel::<Loopback>(4);
    let (c2, mut r2) = futures::channel::mpsc::channel::<Loopback>(4);
    let (l, mut rl) = futures::channel::mpsc::channel::<Loopback>(4);
    assert!(mm.handle(request("svc", 2, ConnType::Connector, c1.clone())).is_none());
    assert!(mm.handle(request("svc", 2, ConnType::Connector, c2.clone())).is_none());
    let d = mm.handle(request("svc", 2, ConnType::Listener, l)).expect("a match");
    assert_eq!(d.origin, ConnType::Listener);
    assert!(d.connector.same_receiver(&c1));
    let d2 = mm.delivered(d, true).expect("second match");
    assert!(d2.connector.same_receiver(&c2));
    assert!(mm.delivered(d2, true).is_none());
    let d3 = mm.handle(request("svc", 2, ConnType::Connector, c1.clone())).expect("listener registered");
    assert_eq!(d3.origin, ConnType::Connector);
    let _ = (&mut r1, &mut r2, &mut rl);
}

#[test]
fn failed_listener_puts_the_connector_back_in_front() {
    let (mut mm, _tx) = MatchMaker::new();
    let (c1, _r1) = futures::channel::mpsc::channel::<Loopback>(4);
    let (c2, _r2) = futures::channel::mpsc::channel::<Loopback>(4);
    let (l, rl) = futures::channel::mpsc::channel::<Loopback>(4);
    drop(rl);
    mm.handle(request("svc", 2, ConnType::Connector, c1.clone()));
    mm.handle(request("svc", 2, ConnType::Connector, c2.clone()));
    let d = mm.handle(request("svc", 2, ConnType::Listener, l)).unwrap();
    assert!(mm.delivered(d, false).is_none());
    let (l2, _rl2) = futures::channel::mpsc::channel::<Loopback>(4);
    let d = mm.handle(request("svc", 2, ConnType::Listener, l2)).unwrap();
    assert!(d.connector.same_receiver(&c1));
}

#[test]
fn a_new_listener_replaces_the_old_one() {
    let (mut mm, _tx) = MatchMaker::new();
    let (l1, _r1) = futures::channel::mpsc::channel::<Loopback>(4);
    let (l2, _r2) = futures::channel::mpsc::channel::<Loopback>(4);
    let (c, _rc) = futures::channel::mpsc::channel::<Loopback>(4);
    assert!(mm.handle(request("svc", 3, ConnType::Listener, l1)).is_none());
    assert!(mm.handle(request("svc", 3, ConnType::Listener, l2.clone())).is_none());
    let d = mm.handle(request("svc", 3, ConnType::Connector, c)).unwrap();
    assert!(d.listener.same_receiver(&l2));
}

#[test]
fn addresses_are_kept_apart() {
    let (mut mm, _tx) = MatchMaker::new();
    let (l, _rl) = futures::channel::mpsc::channel::<Loopback>(4);
    let (c, _rc) = futures::channel::mpsc::channel::<Loopback>(4);
    assert!(mm.handle(request("svc", 3, ConnType::Listener, l)).is_none());
    assert!(mm.handle(request("svc", 4, ConnType::Connector, c.clone())).is_none());
    assert!(mm.handle(request("other", 3, ConnType::Connector, c)).is_none());
}

#[test]
fn a_listener_whose_matchmaker_is_gone_is_not_found() {
    let waker = noop_waker();
    let mut cx = Context::from_waker(&waker);
    let (mm, tx) = MatchMaker::new();
    let mut sm = SocketManager::new("m".to_string(), tx);
    let l = sm.listener_create(6).unwrap();
    assert_eq!(sm.listen(l, &mut cx), Poll::Pending);
    drop(mm);
    assert_eq!(sm.listen(l, &mut cx), Poll::Ready(Err(ErrorKind::NotFound)));
    sm.close(l);
    assert_eq!(sm.listen(l, &mut cx), Poll::Ready(Err(ErrorKind::NotFound)));
}

#[test]
fn closing_a_socket_ends_the_peer_stream() {
    let waker = noop_waker();
    let mut cx = Context::from_waker(&waker);
    let (mut mm, tx) = MatchMaker::new();
    let mut server = SocketManager::new("self".to_string(), tx.clone());
    let mut client = SocketManager::new("client".to_string(), tx.clone());
    server.listener_create(5062).unwrap();
    client.connect("self", 5062).unwrap();
    run_matchmaker(&mut mm, &mut cx);
    let s = match server.listen(0, &mut cx) { Poll::Ready(Ok(h)) => h, other => panic!("{:?}", other) };
    let c = match client.listen(0, &mut cx) { Poll::Ready(Ok(h)) => h, other => panic!("{:?}", other) };
    write_all(&mut client, c, b"bye", &mut cx);
    client.close(c);
    assert_eq!(read_some(&mut server, s, 8, &mut cx), b"bye".to_vec());
    let mut buf = [0u8; 8];
    assert_eq!(server.read(s, &mut buf, &mut cx), Poll::Ready(Err(ErrorKind::NotConnected)));
}

#[test]
fn finish_open_takes_the_send_outcome() {
    let (_mm, tx) = MatchMaker::new();
    let mut sm = SocketManager::new("m".to_string(), tx);
    let (_d1, rx1) = futures::channel::mpsc::channel::<Loopback>(4);
    assert_eq!(sm.finish_open(ConnType::Connector, false, rx1), Err(HostFault::MatchmakerUnavailable));
    let (_d2, rx2) = futures::channel::mpsc::channel::<Loopback>(4);
    assert_eq!(sm.finish_open(ConnType::Connector, true, rx2), Ok(0));
    let (_d3, rx3) = futures::channel::mpsc::channel::<Loopback>(4);
    assert_eq!(sm.finish_open(ConnType::Listener, true, rx3), Ok(1));
}

#[test]
fn take_delivery_installs_a_socket() {
    let waker = noop_waker();
    let mut cx = Context::from_waker(&waker);
    let (_mm, tx) = MatchMaker::new();
    let mut sm = SocketManager::new("m".to_string(), tx);
    let (_dl, rxl) = futures::channel::mpsc::channel::<Loopback>(4);
    let (_dc, rxc) = futures::channel::mpsc::channel::<Loopback>(4);
    let l = sm.finish_open(ConnType::Listener, true, rxl).unwrap();
    let c = sm.finish_open(ConnType::Connector, true, rxc).unwrap();
    assert_eq!(sm.take_delivery(l, Poll::Pending), Poll::Pending);
    assert_eq!(sm.take_delivery(l, Poll::Ready(None)), Poll::Ready(Err(ErrorKind::NotFound)));
    let (a, mut b) = Loopback::pair();
    assert_eq!(sm.take_delivery(l, Poll::Ready(Some(a))), Poll::Ready(Ok(2)));
    let (a2, _b2) = Loopback::pair();
    assert_eq!(sm.take_delivery(c, Poll::Ready(Some(a2))), Poll::Ready(Ok(3)));
    assert_eq!(sm.listen(c, &mut cx), Poll::Ready(Err(ErrorKind::NotFound)));
    assert_eq!(sm.listen(l, &mut cx), Poll::Pending);
    assert_eq!(sm.take_delivery(9, Poll::Pending), Poll::Ready(Err(ErrorKind::NotFound)));
    write_all(&mut sm, 2, b"ok", &mut cx);
    let mut buf = [0u8; 4];
    assert_eq!(b.poll_read(&mut cx, &mut buf), Poll::Ready(Ok(2)));
    assert_eq!(&buf[..2], b"ok");
}

#[test]
fn ready_handles_keeps_the_flagged_ones() {
    assert_eq!(ready_handles(&vec![3, 5, 9], &vec![true, false, true]), vec![3, 9]);
    assert_eq!(ready_handles(&vec![3, 5], &vec![false, false]), Vec::<u32>::new());
    assert_eq!(ready_handles(&vec![], &vec![]), Vec::<u32>::new());
}

#[test]
fn requests_reach_the_matchmaker_as_asked() {
    let waker = noop_waker();
    let mut cx = Context::from_waker(&waker);
    let (mut mm, tx) = MatchMaker::new();
    let mut sm = SocketManager::new("me".to_string(), tx);
    sm.connect("peer", 11).unwrap();
    sm.listener_create(12).unwrap();
    match mm.poll_request(&mut cx) {
        Poll::Ready(Some(r)) => {
            assert_eq!((r.id.as_str(), r.port, r.conn_type), ("peer", 11, ConnType::Connector));
        }
        _ => panic!("no request"),
    }
    match mm.poll_request(&mut cx) {
        Poll::Ready(Some(r)) => {
            assert_eq!((r.id.as_str(), r.port, r.conn_type), ("me", 12, ConnType::Listener));
        }
        _ => panic!("no request"),
    }
}

#[test]
fn read_leaves_the_rest_of_the_buffer() {
    let waker = noop_waker();
    let mut cx = Context::from_waker(&waker);
    let (mut mm, tx) = MatchMaker::new();
    let mut server = SocketManager::new("self".to_string(), tx.clone());
    let mut client = SocketManager::new("client".to_string(), tx.clone());
    server.listener_create(1).unwrap();
    client.connect("self", 1).unwrap();
    run_matchmaker(&mut mm, &mut cx);
    assert_eq!(server.listen(0, &mut cx), Poll::Ready(Ok(1)));
    assert_eq!(client.listen(0, &mut cx), Poll::Ready(Ok(1)));
    write_all(&mut client, 1, &[1, 2, 3], &mut cx);
    let mut buf = [7u8; 6];
    assert_eq!(server.read(1, &mut buf, &mut cx), Poll::Ready(Ok(3)));
    assert_eq!(buf, [1, 2, 3, 7, 7, 7]);
}

#[test]
fn connectors_beyond_the_cap_are_dropped() {
    let waker = noop_waker();
    let mut cx = Context::from_waker(&waker);
    let (mut mm, tx) = MatchMaker::new();
    let mut client = SocketManager::new("client".to_string(), tx);
    let mut handles = Vec::new();
    for _ in 0..65 {
        handles.push(client.connect("busy", 8).unwrap());
        run_matchmaker(&mut mm, &mut cx);
    }
    assert_eq!(client.listen(handles[0], &mut cx), Poll::Pending);
    assert_eq!(client.listen(handles[63], &mut cx), Poll::Pending);
    assert_eq!(client.listen(handles[64], &mut cx), Poll::Ready(Err(ErrorKind::NotFound)));
}
