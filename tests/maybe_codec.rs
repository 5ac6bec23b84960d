use plugin_fabric::maybe::{ErrorKind, Maybe, Poll};

fn round_trip(p: Poll<Result<u32, ErrorKind>>) -> Poll<Result<u32, ErrorKind>> {
    Maybe(Maybe::encode(p)).into_poll()
}

#[test]
fn encode_gives_the_wire_values() {
    assert_eq!(Maybe::encode(Poll::Ready(Ok(7))), 7);
    assert_eq!(Maybe::encode(Poll::Ready(Ok(0))), 0);
    assert_eq!(Maybe::encode(Poll::Ready(Ok(u32::MAX))), u32::MAX as i64);
    assert_eq!(Maybe::encode(Poll::Pending), -1);
    assert_eq!(Maybe::encode(Poll::Ready(Err(ErrorKind::AlreadyExists))), -2);
    assert_eq!(Maybe::encode(Poll::Ready(Err(ErrorKind::NotFound))), -3);
    assert_eq!(Maybe::encode(Poll::Ready(Err(ErrorKind::NotConnected))), -4);
    assert_eq!(Maybe::encode(Poll::Ready(Err(ErrorKind::Other))), i64::MIN);
    assert_eq!(Maybe::encode(Poll::Ready(Err(ErrorKind::InvalidData))), i64::MIN);
}

#[test]
fn errorkind_splits_wire_values() {
    assert_eq!(Maybe(12).errorkind(), Ok(12));
    assert_eq!(Maybe(-1).errorkind(), Err(ErrorKind::WouldBlock));
    assert_eq!(Maybe(-2).errorkind(), Err(ErrorKind::AlreadyExists));
    assert_eq!(Maybe(-3).errorkind(), Err(ErrorKind::NotFound));
    assert_eq!(Maybe(-4).errorkind(), Err(ErrorKind::NotConnected));
    assert_eq!(Maybe(-5).errorkind(), Err(ErrorKind::Other));
    assert_eq!(Maybe(i64::MIN).errorkind(), Err(ErrorKind::Other));
}

#[test]
fn into_poll_decodes() {
    assert_eq!(Maybe(3).into_poll(), Poll::Ready(Ok(3)));
    assert_eq!(Maybe(-1).into_poll(), Poll::Pending);
    assert_eq!(Maybe(-4).into_poll(), Poll::Ready(Err(ErrorKind::NotConnected)));
    assert_eq!(Maybe(-99).into_poll(), Poll::Ready(Err(ErrorKind::Other)));
}

#[test]
fn every_listed_poll_survives_a_round_trip() {
    let cases = vec![
        Poll::Ready(Ok(0)),
        Poll::Ready(Ok(1)),
        Poll::Ready(Ok(5062)),
        Poll::Ready(Ok(u32::MAX)),
        Poll::Pending,
        Poll::Ready(Err(ErrorKind::AlreadyExists)),
        Poll::Ready(Err(ErrorKind::NotFound)),
        Poll::Ready(Err(ErrorKind::NotConnected)),
        Poll::Ready(Err(ErrorKind::Other)),
    ];
    for p in cases {
        assert_eq!(round_trip(p), p);
    }
}

#[test]
fn invalid_data_comes_back_as_other() {
    assert_eq!(round_trip(Poll::Ready(Err(ErrorKind::InvalidData))), Poll::Ready(Err(ErrorKind::Other)));
}

#[test]
fn from_poll_packs() {
    assert_eq!(Maybe::from_poll(Poll::Ready(Ok(9))).0, 9);
    assert_eq!(Maybe::from_poll(Poll::Pending).0, -1);
}

#[test]
fn from_converts_a_poll() {
    let m: Maybe = Maybe::from(Poll::Ready(Err(ErrorKind::NotFound)));
    assert_eq!(m.0, -3);
}
