use uart_bridge::{
    flush_transcript, handle_buffer_ev, log_to_transcript, Reactor, Step, Submission, Transcript,
    TRANSCRIPT_BUFFER_SIZE,
};

const LOG: i32 = 7;

/// The writes handed to the driver, as (op, bytes, offset).
fn writes(reactor: &mut Reactor<Step>) -> Vec<(u64, Vec<u8>, usize)> {
    reactor
        .take_submissions()
        .into_iter()
        .map(|s| match s {
            Submission::Write { op, fd, data, offset } => {
                assert_eq!(fd, LOG);
                (op, data, offset)
            }
            _ => panic!("the log only writes"),
        })
        .collect()
}

/// Completes the write `op` with `result`, as the kernel would.
fn complete(reactor: &mut Reactor<Step>, t: &mut Transcript, op: u64, result: i32) -> Result<(), i32> {
    let c = reactor.complete(op, result, Vec::new()).expect("outstanding");
    assert_eq!(c.cont, Step::LogWrite);
    handle_buffer_ev(reactor, t, c.result, c.buf)
}

#[test]
fn test_transcript_no_writes() {
    let mut reactor: Reactor<Step> = Reactor::new();
    let mut t = Transcript::new(LOG);
    flush_transcript(&mut reactor, &mut t);
    let written = writes(&mut reactor);
    // Nothing was logged, so the file stays empty.
    assert_eq!(written.len(), 0);
    assert!(reactor.is_idle());
}

#[test]
fn test_transcript_one_small_write() {
    const TEST_STRING: [u8; 11] = *b"Hello world";
    let mut reactor: Reactor<Step> = Reactor::new();
    let mut t = Transcript::new(LOG);
    log_to_transcript(&mut reactor, &mut t, &TEST_STRING);
    assert!(writes(&mut reactor).is_empty());
    flush_transcript(&mut reactor, &mut t);
    let written = writes(&mut reactor);
    assert_eq!(written.len(), 1);
    let buf = &written[0].1;
    assert_eq!(buf.len(), TEST_STRING.len());
    for i in 0..TEST_STRING.len() {
        assert_eq!(TEST_STRING[i], buf[i]);
    }
    assert_eq!(written[0].2, 0);
    assert_eq!(complete(&mut reactor, &mut t, written[0].0, 11), Ok(()));
    assert!(reactor.is_idle());
    assert_eq!(t.offset(), 11);
}

#[test]
fn small_appends_coalesce_into_one_write() {
    let mut reactor: Reactor<Step> = Reactor::new();
    let mut t = Transcript::new(LOG);
    let parts: [&[u8]; 4] = [b"ab", b"", b"cde", b"f"];
    for p in parts.iter() {
        log_to_transcript(&mut reactor, &mut t, p);
        assert!(writes(&mut reactor).is_empty());
    }
    assert_eq!(t.current_len(), 6);
    flush_transcript(&mut reactor, &mut t);
    let written = writes(&mut reactor);
    assert_eq!(written.len(), 1);
    assert_eq!(written[0].1, b"abcdef".to_vec());
    assert_eq!(written[0].2, 0);
}

#[test]
fn filling_the_buffer_flushes_exactly_its_capacity() {
    let mut reactor: Reactor<Step> = Reactor::new();
    let mut t = Transcript::new(LOG);
    log_to_transcript(&mut reactor, &mut t, &vec![1u8; 4090]);
    assert!(writes(&mut reactor).is_empty());
    log_to_transcript(&mut reactor, &mut t, &[2u8; 10]);
    let written = writes(&mut reactor);
    assert_eq!(written.len(), 1);
    assert_eq!(written[0].1.len(), 4096);
    assert_eq!(written[0].2, 0);
    assert_eq!(&written[0].1[4090..], &[2u8; 6]);
    assert_eq!(t.current_len(), 4);
    assert!(t.is_flushing());
}

#[test]
fn exactly_full_buffer_is_flushed_whole() {
    let mut reactor: Reactor<Step> = Reactor::new();
    let mut t = Transcript::new(LOG);
    log_to_transcript(&mut reactor, &mut t, &vec![9u8; TRANSCRIPT_BUFFER_SIZE]);
    let written = writes(&mut reactor);
    assert_eq!(written.len(), 1);
    assert_eq!(written[0].1.len(), TRANSCRIPT_BUFFER_SIZE);
    assert_eq!(t.current_len(), 0);
}

#[test]
fn backlog_is_written_in_order_at_cumulative_offsets() {
    let mut reactor: Reactor<Step> = Reactor::new();
    let mut t = Transcript::new(LOG);
    let total = 3 * TRANSCRIPT_BUFFER_SIZE + 100;
    let data: Vec<u8> = (0..total).map(|i| (i % 251) as u8).collect();
    log_to_transcript(&mut reactor, &mut t, &data[..10]);
    log_to_transcript(&mut reactor, &mut t, &data[10..]);
    assert_eq!(t.backlog_len(), 2);
    assert_eq!(t.current_len(), 100);

    let mut file: Vec<u8> = Vec::new();
    let mut pending = writes(&mut reactor);
    let mut rounds = 0;
    while let Some((op, bytes, offset)) = pending.pop() {
        assert!(pending.is_empty());
        assert_eq!(offset, file.len());
        // Every other write comes back short.
        let n = if rounds % 2 == 0 { bytes.len() / 3 + 1 } else { bytes.len() };
        file.extend_from_slice(&bytes[..n]);
        assert_eq!(complete(&mut reactor, &mut t, op, n as i32), Ok(()));
        rounds += 1;
        pending = writes(&mut reactor);
        if pending.is_empty() {
            flush_transcript(&mut reactor, &mut t);
            pending = writes(&mut reactor);
        }
    }
    assert_eq!(file, data);
    assert_eq!(t.offset(), total);
    assert!(reactor.is_idle());
}

#[test]
fn failed_write_stops_the_log() {
    let mut reactor: Reactor<Step> = Reactor::new();
    let mut t = Transcript::new(LOG);
    log_to_transcript(&mut reactor, &mut t, &vec![0u8; 5000]);
    let written = writes(&mut reactor);
    assert_eq!(complete(&mut reactor, &mut t, written[0].0, 0), Err(0));
    assert!(t.has_failed());
    log_to_transcript(&mut reactor, &mut t, b"more");
    flush_transcript(&mut reactor, &mut t);
    assert!(writes(&mut reactor).is_empty());
    assert_eq!(t.current_len(), 0);
}
