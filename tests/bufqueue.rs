use uart_bridge::{BufQueue, Sink, WriteError, MAX_BUF_SIZE};

/// Takes at most `room` bytes per write and records them; with `block`
/// set it would block, with `fail` set it fails.
struct Pipe {
    got: Vec<u8>,
    room: usize,
    block: bool,
    fail: bool,
}

impl Pipe {
    fn new(room: usize) -> Pipe {
        Pipe { got: Vec::new(), room, block: false, fail: false }
    }
}

impl Sink for &mut Pipe {
    fn write(&mut self, buf: &[u8]) -> Result<usize, WriteError> {
        if self.fail {
            return Err(WriteError::Failed(std::io::Error::new(std::io::ErrorKind::BrokenPipe, "gone")));
        }
        if self.block {
            return Err(WriteError::WouldBlock);
        }
        let n = buf.len().min(self.room);
        self.got.extend_from_slice(&buf[..n]);
        Ok(n)
    }
}

#[test]
fn full_write_queues_nothing() {
    let mut q = BufQueue::new();
    let mut p = Pipe::new(100);
    q.try_write_or_enqueue(b"hello", &mut p).unwrap();
    assert!(q.is_empty());
    assert_eq!(p.got, b"hello".to_vec());
}

#[test]
fn short_write_queues_the_rest_and_flush_drains_it() {
    let mut q = BufQueue::new();
    let mut p = Pipe::new(3);
    q.try_write_or_enqueue(b"abcdefgh", &mut p).unwrap();
    assert!(!q.is_empty());
    assert_eq!(p.got, b"abc".to_vec());
    // Short again: flushing stops after one write.
    q.flush(&mut p).unwrap();
    assert_eq!(p.got, b"abcdef".to_vec());
    p.room = 100;
    q.flush(&mut p).unwrap();
    assert!(q.is_empty());
    assert_eq!(p.got, b"abcdefgh".to_vec());
}

#[test]
fn would_block_queues_everything_and_later_bytes_follow() {
    let mut q = BufQueue::new();
    let mut p = Pipe::new(100);
    p.block = true;
    q.try_write_or_enqueue(b"one ", &mut p).unwrap();
    q.try_write_or_enqueue(b"two", &mut p).unwrap();
    assert!(p.got.is_empty());
    q.flush(&mut p).unwrap();
    assert!(!q.is_empty());
    p.block = false;
    q.flush(&mut p).unwrap();
    assert!(q.is_empty());
    assert_eq!(p.got, b"one two".to_vec());
}

#[test]
fn hard_error_is_returned_and_nothing_queued() {
    let mut q = BufQueue::new();
    let mut p = Pipe::new(100);
    p.fail = true;
    let e = q.try_write_or_enqueue(b"data", &mut p).unwrap_err();
    assert_eq!(e.kind(), std::io::ErrorKind::BrokenPipe);
    assert!(q.is_empty());
}

#[test]
fn flush_propagates_hard_error() {
    let mut q = BufQueue::new();
    let mut p = Pipe::new(1);
    q.try_write_or_enqueue(b"xyz", &mut p).unwrap();
    p.fail = true;
    assert!(q.flush(&mut p).is_err());
    assert!(!q.is_empty());
}

#[test]
fn large_buffers_are_queued_separately() {
    let mut q = BufQueue::new();
    let mut p = Pipe::new(0);
    let big = vec![7u8; MAX_BUF_SIZE];
    q.try_write_or_enqueue(&big, &mut p).unwrap();
    q.try_write_or_enqueue(b"tail", &mut p).unwrap();
    p.room = usize::MAX;
    q.flush(&mut p).unwrap();
    assert!(q.is_empty());
    assert_eq!(p.got.len(), MAX_BUF_SIZE + 4);
    assert_eq!(&p.got[MAX_BUF_SIZE..], b"tail");
}

#[test]
fn flush_of_empty_queue_writes_nothing() {
    let mut q = BufQueue::new();
    let mut p = Pipe::new(10);
    p.fail = true;
    assert!(q.flush(&mut p).is_ok());
}

#[test]
fn queued_bytes_keep_their_order() {
    let mut q = BufQueue::new();
    let mut p = Pipe::new(0);
    let first = vec![1u8; 4000];
    let second = vec![2u8; 200];
    let third = vec![3u8; 50];
    q.try_write_or_enqueue(&first, &mut p).unwrap();
    q.try_write_or_enqueue(&second, &mut p).unwrap();
    q.try_write_or_enqueue(&third, &mut p).unwrap();
    p.room = usize::MAX;
    q.flush(&mut p).unwrap();
    assert!(q.is_empty());
    let mut expected = first.clone();
    expected.extend_from_slice(&second);
    expected.extend_from_slice(&third);
    assert_eq!(p.got, expected);
}

#[test]
fn small_writes_coalesce_behind_a_partly_written_buffer() {
    let mut q = BufQueue::new();
    let mut p = Pipe::new(2);
    q.try_write_or_enqueue(b"abcdef", &mut p).unwrap();
    q.try_write_or_enqueue(b"gh", &mut p).unwrap();
    q.flush(&mut p).unwrap();
    assert_eq!(p.got, b"abcd".to_vec());
    assert_eq!(q.unwritten_front(), b"efgh");
    p.room = 100;
    q.flush(&mut p).unwrap();
    assert_eq!(p.got, b"abcdefgh".to_vec());
}
