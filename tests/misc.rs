use uart_bridge::{create_error, Reactor, Submission, Timeout};

#[test]
fn infinite_timeout_waits_forever() {
    assert_eq!(Timeout::Infinite.as_epoll_millis().unwrap(), -1);
}

#[test]
fn millisecond_timeout_is_kept() {
    assert_eq!(Timeout::Milliseconds(250).as_epoll_millis().unwrap(), 250);
    assert_eq!(Timeout::Milliseconds(0).as_epoll_millis().unwrap(), 0);
}

#[test]
fn negative_timeout_is_refused() {
    let e = Timeout::Milliseconds(-1).as_epoll_millis().unwrap_err();
    assert_eq!(e.kind(), std::io::ErrorKind::Other);
}

#[test]
fn create_error_carries_the_message() {
    let r: std::io::Result<u8> = create_error("boom");
    let e = r.unwrap_err();
    assert_eq!(e.kind(), std::io::ErrorKind::Other);
    assert_eq!(e.to_string(), "boom");
}

#[test]
fn reactor_hands_back_buffers() {
    let mut r: Reactor<u8> = Reactor::new();
    let read = r.read(3, vec![0; 8], 1);
    let write = r.write(4, b"out".to_vec(), 5, 2);
    let cancel = r.cancel(read, 3);
    assert_eq!((read, write, cancel), (1, 2, 3));
    let subs = r.take_submissions();
    assert_eq!(subs.len(), 3);
    let mut read_buf = Vec::new();
    for s in subs {
        match s {
            Submission::Read { op, fd, buf } => {
                assert_eq!((op, fd, buf.len()), (1, 3, 8));
                read_buf = buf;
            }
            Submission::Write { op, fd, data, offset } => {
                assert_eq!((op, fd, data, offset), (2, 4, b"out".to_vec(), 5));
            }
            Submission::Cancel { op, target } => assert_eq!((op, target), (3, 1)),
        }
    }
    assert!(r.take_submissions().is_empty());
    read_buf[..2].copy_from_slice(b"hi");
    let c = r.complete(read, 2, read_buf).unwrap();
    assert_eq!((c.op, c.result, c.buf, c.cont), (1, 2, b"hi".to_vec(), 1));
    let c = r.complete(write, 1, Vec::new()).unwrap();
    assert_eq!((c.buf, c.cont), (b"out".to_vec(), 2));
    assert!(r.complete(write, 1, Vec::new()).is_none());
    let c = r.complete(cancel, 0, Vec::new()).unwrap();
    assert!(c.buf.is_empty());
    assert!(r.is_idle());
}

#[test]
fn failed_read_hands_back_no_bytes() {
    let mut r: Reactor<u8> = Reactor::new();
    let op = r.read(3, vec![1; 4], 0);
    let buf = match r.take_submissions().pop().unwrap() {
        Submission::Read { buf, .. } => buf,
        _ => unreachable!(),
    };
    let c = r.complete(op, -11, buf).unwrap();
    assert!(c.buf.is_empty());
    assert_eq!(r.ids_left(), u64::MAX - 2);
}
