use std::collections::HashMap;

use uart_bridge::{
    BridgeError, Notice, Reactor, State, Step, Submission, Transcript, UartTtySM, CONTROL_O,
    DEFAULT_READ_SIZE,
};

const TTY: i32 = 10;
const UART: i32 = 11;
const LOG: i32 = 12;
const ECANCELED: i32 = -125;

/// Stands in for the kernel: keeps every operation handed to it until the
/// test completes it.
struct Kernel {
    pending: HashMap<u64, Submission>,
}

impl Kernel {
    fn new() -> Kernel {
        Kernel { pending: HashMap::new() }
    }

    fn pump(&mut self, reactor: &mut Reactor<Step>) -> Vec<u64> {
        let mut ops = Vec::new();
        for s in reactor.take_submissions() {
            let op = match &s {
                Submission::Read { op, .. } => *op,
                Submission::Write { op, .. } => *op,
                Submission::Cancel { op, .. } => *op,
            };
            ops.push(op);
            self.pending.insert(op, s);
        }
        ops
    }

    fn read_on(&self, fd: i32) -> Option<(u64, usize)> {
        self.pending.iter().find_map(|(op, s)| match s {
            Submission::Read { fd: f, buf, .. } if *f == fd => Some((*op, buf.len())),
            _ => None,
        })
    }

    fn writes_on(&self, fd: i32) -> Vec<(u64, Vec<u8>, usize)> {
        let mut v: Vec<(u64, Vec<u8>, usize)> = self
            .pending
            .iter()
            .filter_map(|(op, s)| match s {
                Submission::Write { fd: f, data, offset, .. } if *f == fd => {
                    Some((*op, data.clone(), *offset))
                }
                _ => None,
            })
            .collect();
        v.sort();
        v
    }

    fn cancels(&self) -> Vec<(u64, u64)> {
        let mut v: Vec<(u64, u64)> = self
            .pending
            .iter()
            .filter_map(|(op, s)| match s {
                Submission::Cancel { target, .. } => Some((*op, *target)),
                _ => None,
            })
            .collect();
        v.sort();
        v
    }

    /// Completes a read with `bytes` placed at the start of its buffer.
    fn finish_read(
        &mut self,
        sm: &mut UartTtySM,
        reactor: &mut Reactor<Step>,
        op: u64,
        bytes: &[u8],
    ) -> Result<Notice, BridgeError> {
        let mut buf = match self.pending.remove(&op) {
            Some(Submission::Read { buf, .. }) => buf,
            _ => panic!("not a pending read: {}", op),
        };
        buf[..bytes.len()].copy_from_slice(bytes);
        sm.handle_completion(reactor, op, bytes.len() as i32, buf)
    }

    fn finish(
        &mut self,
        sm: &mut UartTtySM,
        reactor: &mut Reactor<Step>,
        op: u64,
        result: i32,
    ) -> Result<Notice, BridgeError> {
        let data = match self.pending.remove(&op) {
            Some(Submission::Read { buf, .. }) => buf,
            Some(_) => Vec::new(),
            None => panic!("not pending: {}", op),
        };
        sm.handle_completion(reactor, op, result, data)
    }
}

fn start(transcript: Option<Transcript>) -> (Reactor<Step>, UartTtySM, Kernel) {
    let mut reactor = Reactor::new();
    let sm = UartTtySM::init_actions(&mut reactor, TTY, UART, transcript);
    let mut kernel = Kernel::new();
    kernel.pump(&mut reactor);
    (reactor, sm, kernel)
}

#[test]
fn test_uartttysm() {
    const TEST_STRING: &[u8; 11] = b"Hello world";
    let (mut reactor, mut sm, mut kernel) = start(None);

    let (read_op, _) = kernel.read_on(TTY).unwrap();
    assert_eq!(kernel.finish_read(&mut sm, &mut reactor, read_op, TEST_STRING), Ok(Notice::Nothing));
    kernel.pump(&mut reactor);
    let writes = kernel.writes_on(UART);
    assert_eq!(writes.len(), 1);
    let (write_op, buf, _) = writes[0].clone();
    assert_eq!(TEST_STRING.len(), buf.len());
    for i in 0..buf.len() {
        assert_eq!(TEST_STRING[i], buf[i]);
    }
    assert_eq!(kernel.finish(&mut sm, &mut reactor, write_op, 11), Ok(Notice::Nothing));
    kernel.pump(&mut reactor);

    // The UART side goes away: its read sees end of file.
    let (uart_read, _) = kernel.read_on(UART).unwrap();
    assert_eq!(kernel.finish_read(&mut sm, &mut reactor, uart_read, b""), Ok(Notice::Disconnected));
    kernel.pump(&mut reactor);
    let (tty_read, _) = kernel.read_on(TTY).unwrap();
    let cancels = kernel.cancels();
    assert_eq!(cancels.len(), 1);
    assert_eq!(cancels[0].1, tty_read);
    assert_eq!(kernel.finish(&mut sm, &mut reactor, tty_read, ECANCELED), Ok(Notice::Nothing));
    assert_eq!(kernel.finish(&mut sm, &mut reactor, cancels[0].0, 0), Ok(Notice::Nothing));
    assert!(sm.is_torn_down());
    assert!(reactor.is_idle());
}

#[test]
fn test_uartttysm_ctrl_o_exit() {
    const TEST_STRING: [u8; 1] = [CONTROL_O];
    let (mut reactor, mut sm, mut kernel) = start(None);
    let (read_op, _) = kernel.read_on(TTY).unwrap();
    assert_eq!(kernel.finish_read(&mut sm, &mut reactor, read_op, &TEST_STRING), Ok(Notice::Quit));
    kernel.pump(&mut reactor);
    assert!(kernel.writes_on(UART).is_empty());
    let (uart_read, _) = kernel.read_on(UART).unwrap();
    let cancels = kernel.cancels();
    assert_eq!(cancels.len(), 1);
    assert_eq!(cancels[0].1, uart_read);
    // The cancel loses the race: the read completes on its own first.
    assert_eq!(kernel.finish_read(&mut sm, &mut reactor, uart_read, b"late"), Ok(Notice::Nothing));
    assert_eq!(kernel.finish(&mut sm, &mut reactor, cancels[0].0, -2), Ok(Notice::Nothing));
    assert!(sm.is_torn_down());
    assert!(reactor.is_idle());
}

#[test]
fn hello_world_is_written_then_console_read_again() {
    let (mut reactor, mut sm, mut kernel) = start(None);
    let (read_op, _) = kernel.read_on(TTY).unwrap();
    kernel.finish_read(&mut sm, &mut reactor, read_op, b"Hello world").unwrap();
    kernel.pump(&mut reactor);
    let writes = kernel.writes_on(UART);
    assert_eq!(writes.len(), 1);
    assert_eq!(writes[0].1, b"Hello world".to_vec());
    assert!(kernel.read_on(TTY).is_none());
    assert_eq!(sm.tty_state(), State::Writing(writes[0].0));

    kernel.finish(&mut sm, &mut reactor, writes[0].0, 11).unwrap();
    kernel.pump(&mut reactor);
    let (next_read, len) = kernel.read_on(TTY).unwrap();
    assert_eq!(len, DEFAULT_READ_SIZE);
    assert_eq!(sm.tty_state(), State::Reading(next_read));
}

#[test]
fn uart_eof_cancels_only_outstanding_console_read() {
    let (mut reactor, mut sm, mut kernel) = start(None);
    let (tty_read, _) = kernel.read_on(TTY).unwrap();
    let (uart_read, _) = kernel.read_on(UART).unwrap();
    assert_eq!(kernel.finish_read(&mut sm, &mut reactor, uart_read, b""), Ok(Notice::Disconnected));
    let new_ops = kernel.pump(&mut reactor);
    assert_eq!(new_ops.len(), 1);
    assert_eq!(kernel.cancels(), vec![(new_ops[0], tty_read)]);
    assert!(kernel.read_on(UART).is_none());
    assert!(kernel.writes_on(UART).is_empty());
    assert_eq!(sm.uart_state(), State::TornDown);
    assert_eq!(sm.tty_state(), State::TearDown(new_ops[0]));
}

#[test]
fn quit_byte_anywhere_is_not_forwarded() {
    let (mut reactor, mut sm, mut kernel) = start(None);
    let (read_op, _) = kernel.read_on(TTY).unwrap();
    let bytes = [b'a', b'b', CONTROL_O, b'c'];
    assert_eq!(kernel.finish_read(&mut sm, &mut reactor, read_op, &bytes), Ok(Notice::Quit));
    kernel.pump(&mut reactor);
    assert!(kernel.writes_on(UART).is_empty());
    assert_eq!(sm.tty_state(), State::TornDown);
}

#[test]
fn short_writes_deliver_exact_remainders() {
    let (mut reactor, mut sm, mut kernel) = start(None);
    let (read_op, _) = kernel.read_on(TTY).unwrap();
    kernel.finish_read(&mut sm, &mut reactor, read_op, b"0123456789").unwrap();
    kernel.pump(&mut reactor);
    let mut delivered: Vec<u8> = Vec::new();
    for count in [3, 4] {
        let writes = kernel.writes_on(UART);
        assert_eq!(writes.len(), 1);
        let (op, data, _) = writes[0].clone();
        delivered.extend_from_slice(&data[..count]);
        kernel.finish(&mut sm, &mut reactor, op, count as i32).unwrap();
        kernel.pump(&mut reactor);
    }
    let writes = kernel.writes_on(UART);
    assert_eq!(writes[0].1, b"789".to_vec());
    delivered.extend_from_slice(&writes[0].1);
    kernel.finish(&mut sm, &mut reactor, writes[0].0, 3).unwrap();
    kernel.pump(&mut reactor);
    assert_eq!(delivered, b"0123456789".to_vec());
    assert!(kernel.read_on(TTY).is_some());
}

#[test]
fn zero_byte_write_tears_down_both_directions() {
    let (mut reactor, mut sm, mut kernel) = start(None);
    let (read_op, _) = kernel.read_on(UART).unwrap();
    kernel.finish_read(&mut sm, &mut reactor, read_op, b"xyz").unwrap();
    kernel.pump(&mut reactor);
    let writes = kernel.writes_on(TTY);
    assert_eq!(writes[0].1, b"xyz".to_vec());
    assert_eq!(kernel.finish(&mut sm, &mut reactor, writes[0].0, 0), Ok(Notice::Disconnected));
    kernel.pump(&mut reactor);
    let (tty_read, _) = kernel.read_on(TTY).unwrap();
    let cancels = kernel.cancels();
    assert_eq!(cancels.len(), 1);
    assert_eq!(cancels[0].1, tty_read);
    kernel.finish(&mut sm, &mut reactor, cancels[0].0, 0).unwrap();
    assert!(sm.is_torn_down());
    kernel.finish(&mut sm, &mut reactor, tty_read, ECANCELED).unwrap();
    assert!(reactor.is_idle());
}

#[test]
fn read_and_write_errors_are_fatal() {
    let (mut reactor, mut sm, mut kernel) = start(None);
    let (read_op, _) = kernel.read_on(TTY).unwrap();
    assert_eq!(kernel.finish(&mut sm, &mut reactor, read_op, -5), Err(BridgeError::ReadFailed(-5)));

    let (mut reactor, mut sm, mut kernel) = start(None);
    let (read_op, _) = kernel.read_on(UART).unwrap();
    kernel.finish_read(&mut sm, &mut reactor, read_op, b"q").unwrap();
    kernel.pump(&mut reactor);
    let writes = kernel.writes_on(TTY);
    assert_eq!(kernel.finish(&mut sm, &mut reactor, writes[0].0, -32), Err(BridgeError::WriteFailed(-32)));
}

#[test]
fn unknown_completion_is_reported() {
    let (mut reactor, mut sm, _kernel) = start(None);
    assert_eq!(sm.handle_completion(&mut reactor, 999, 0, Vec::new()), Err(BridgeError::UnknownOp(999)));
}

#[test]
fn uart_bytes_are_logged_and_flushed_at_teardown() {
    let (mut reactor, mut sm, mut kernel) = start(Some(Transcript::new(LOG)));
    let (read_op, _) = kernel.read_on(UART).unwrap();
    kernel.finish_read(&mut sm, &mut reactor, read_op, b"boot ok").unwrap();
    kernel.pump(&mut reactor);
    assert!(kernel.writes_on(LOG).is_empty());
    let writes = kernel.writes_on(TTY);
    kernel.finish(&mut sm, &mut reactor, writes[0].0, 7).unwrap();
    kernel.pump(&mut reactor);

    // The console's own bytes are never logged.
    let (tty_read, _) = kernel.read_on(TTY).unwrap();
    kernel.finish_read(&mut sm, &mut reactor, tty_read, b"ls").unwrap();
    kernel.pump(&mut reactor);
    let w = kernel.writes_on(UART);
    kernel.finish(&mut sm, &mut reactor, w[0].0, 2).unwrap();
    kernel.pump(&mut reactor);

    let (tty_read, _) = kernel.read_on(TTY).unwrap();
    assert_eq!(kernel.finish_read(&mut sm, &mut reactor, tty_read, &[CONTROL_O]), Ok(Notice::Quit));
    kernel.pump(&mut reactor);
    let cancels = kernel.cancels();
    assert_eq!(cancels.len(), 1);
    kernel.finish(&mut sm, &mut reactor, cancels[0].0, 0).unwrap();
    kernel.pump(&mut reactor);
    assert!(sm.is_torn_down());
    let logs = kernel.writes_on(LOG);
    assert_eq!(logs.len(), 1);
    assert_eq!(logs[0].1, b"boot ok".to_vec());
    assert_eq!(logs[0].2, 0);
    kernel.finish(&mut sm, &mut reactor, logs[0].0, 7).unwrap();
    let (uart_read, _) = kernel.read_on(UART).unwrap();
    kernel.finish(&mut sm, &mut reactor, uart_read, ECANCELED).unwrap();
    assert!(reactor.is_idle());
}

#[test]
fn log_failure_does_not_stop_the_bridge() {
    let (mut reactor, mut sm, mut kernel) = start(Some(Transcript::new(LOG)));
    let big = vec![b'x'; 1000];
    for _ in 0..5 {
        let (read_op, _) = kernel.read_on(UART).unwrap();
        kernel.finish_read(&mut sm, &mut reactor, read_op, &big).unwrap();
        kernel.pump(&mut reactor);
        let w = kernel.writes_on(TTY);
        kernel.finish(&mut sm, &mut reactor, w[0].0, 1000).unwrap();
        kernel.pump(&mut reactor);
    }
    let logs = kernel.writes_on(LOG);
    assert_eq!(logs.len(), 1);
    assert_eq!(logs[0].1.len(), 4096);
    assert_eq!(kernel.finish(&mut sm, &mut reactor, logs[0].0, -28), Ok(Notice::LogFailed(-28)));
    assert!(sm.transcript().as_ref().unwrap().has_failed());
    let (read_op, _) = kernel.read_on(UART).unwrap();
    assert_eq!(kernel.finish_read(&mut sm, &mut reactor, read_op, b"still"), Ok(Notice::Nothing));
    kernel.pump(&mut reactor);
    assert_eq!(kernel.writes_on(TTY)[0].1, b"still".to_vec());
    assert!(kernel.writes_on(LOG).is_empty());
}

#[test]
fn log_tail_is_written_after_teardown_once_the_log_is_idle() {
    let (mut reactor, mut sm, mut kernel) = start(Some(Transcript::new(LOG)));
    let chunk = vec![b'y'; 1000];
    for _ in 0..5 {
        let (read_op, _) = kernel.read_on(UART).unwrap();
        kernel.finish_read(&mut sm, &mut reactor, read_op, &chunk).unwrap();
        kernel.pump(&mut reactor);
        let w = kernel.writes_on(TTY);
        kernel.finish(&mut sm, &mut reactor, w[0].0, 1000).unwrap();
        kernel.pump(&mut reactor);
    }
    let first = kernel.writes_on(LOG);
    assert_eq!(first.len(), 1);
    assert_eq!((first[0].1.len(), first[0].2), (4096, 0));

    let (tty_read, _) = kernel.read_on(TTY).unwrap();
    assert_eq!(kernel.finish_read(&mut sm, &mut reactor, tty_read, &[CONTROL_O]), Ok(Notice::Quit));
    kernel.pump(&mut reactor);
    let cancels = kernel.cancels();
    kernel.finish(&mut sm, &mut reactor, cancels[0].0, 0).unwrap();
    kernel.pump(&mut reactor);
    assert!(sm.is_torn_down());
    // The first log write is still out, so nothing more is written yet.
    assert_eq!(kernel.writes_on(LOG).len(), 1);

    kernel.finish(&mut sm, &mut reactor, first[0].0, 4096).unwrap();
    kernel.pump(&mut reactor);
    let tail = kernel.writes_on(LOG);
    assert_eq!(tail.len(), 1);
    assert_eq!((tail[0].1.len(), tail[0].2), (5000 - 4096, 4096));
    kernel.finish(&mut sm, &mut reactor, tail[0].0, 904).unwrap();
    let (uart_read, _) = kernel.read_on(UART).unwrap();
    kernel.finish(&mut sm, &mut reactor, uart_read, ECANCELED).unwrap();
    assert!(reactor.is_idle());
}
