use vstd::prelude::*;

use crate::reactor::{completion_bytes, Reactor, ReactorView, RequestView};
use crate::transcript::{
    appended, flush_transcript, flushed, handle_buffer_ev, log_to_transcript, write_completed,
    Transcript, TranscriptView, TRANSCRIPT_BUFFER_SIZE,
};

verus! {

/// The size of each read on either endpoint.
pub const DEFAULT_READ_SIZE: usize = 1024;

/// The byte that the operator types on the console to quit; it is never
/// forwarded.
pub const CONTROL_O: u8 = 0x0f;

/// The continuation of each operation the bridge submits.
#[derive(Clone, Copy, Debug, PartialEq, Eq, Structural)]
pub enum Step {
    /// A read on the console, to be forwarded to the UART.
    TtyRead,
    /// A write to the UART of bytes read on the console.
    UartWrite,
    /// A read on the UART, to be forwarded to the console.
    UartRead,
    /// A write to the console of bytes read on the UART.
    TtyWrite,
    /// A cancel issued during teardown.
    Cancel,
    /// A write of logged bytes to the transcript file.
    LogWrite,
}

/// Where one direction of the bridge stands.
#[derive(Clone, Copy, Debug, PartialEq, Eq, Structural)]
pub enum State {
    /// A read on the source is outstanding.
    Reading(u64),
    /// Between a completion and the next submission.
    Processing,
    /// A write to the destination is outstanding.
    Writing(u64),
    /// A cancel of the last operation is outstanding.
    TearDown(u64),
    /// Finished.
    TornDown,
}

/// Something the operator should hear of.
#[derive(Clone, Copy, Debug, PartialEq, Eq, Structural)]
pub enum Notice {
    Nothing,
    /// The quit byte was read on the console.
    Quit,
    /// An endpoint read or wrote zero bytes.
    Disconnected,
    /// A transcript write failed with this result; the log has stopped.
    LogFailed(i32),
}

/// A condition that ends the bridge's run.
#[derive(Clone, Copy, Debug, PartialEq, Eq, Structural)]
pub enum BridgeError {
    /// A read on an endpoint failed with this result.
    ReadFailed(i32),
    /// A write to an endpoint failed with this result.
    WriteFailed(i32),
    /// A completion arrived for an operation that is not outstanding.
    UnknownOp(u64),
}

/// The abstract state of one direction: where it stands, every byte it has
/// read from its source, and every byte confirmed written to its destination.
pub struct DirView {
    pub state: State,
    pub received: Seq<u8>,
    pub delivered: Seq<u8>,
}

impl DirView {
    /// The bytes read and not yet delivered.
    pub open spec fn undelivered(self) -> Seq<u8> {
        self.received.skip(self.delivered.len() as int)
    }

    /// The direction agrees with the reactor: delivered bytes are a prefix of
    /// received ones; a reading direction has delivered everything and its
    /// read is outstanding; a writing direction's outstanding write carries
    /// exactly the undelivered bytes; and the reactor holds no read or write of
    /// this direction other than the current one, unless it is shutting down.
    pub open spec fn held(self, r: ReactorView<Step>, src: i32, dst: i32, rs: Step, ws: Step) -> bool {
        &&& self.delivered.len() <= self.received.len()
        &&& self.received.take(self.delivered.len() as int) == self.delivered
        &&& match self.state {
            State::Reading(op) => {
                &&& r.ops.contains_key(op)
                &&& r.ops[op] == (RequestView::Read { fd: src, len: DEFAULT_READ_SIZE }, rs)
                &&& self.received.len() == self.delivered.len()
            },
            State::Writing(op) => {
                &&& r.ops.contains_key(op)
                &&& r.ops[op] == (RequestView::Write { fd: dst, data: self.undelivered(), offset: 0 }, ws)
            },
            _ => true,
        }
        &&& forall|op: u64| #[trigger] r.ops.contains_key(op) && r.ops[op].1 == rs ==> self.owns(op)
        &&& forall|op: u64| #[trigger] r.ops.contains_key(op) && r.ops[op].1 == ws ==> self.owns(op)
    }

    /// `op` is this direction's current operation, or the direction is
    /// shutting down and ignores it.
    pub open spec fn owns(self, op: u64) -> bool {
        ||| self.state == State::Reading(op)
        ||| self.state == State::Writing(op)
        ||| self.state is TearDown
        ||| self.state is TornDown
    }
}

/// The abstract state of the bridge.
pub struct BridgeView {
    pub tty: i32,
    pub uart: i32,
    /// Console to UART.
    pub to_uart: DirView,
    /// UART to console.
    pub to_tty: DirView,
    pub log: Option<TranscriptView>,
}

impl BridgeView {
    /// The bridge agrees with the reactor, with a direction perhaps between
    /// a completion and its next submission.
    pub open spec fn consistent(self, r: ReactorView<Step>) -> bool {
        &&& r.fresh()
        &&& self.to_uart.held(r, self.tty, self.uart, Step::TtyRead, Step::UartWrite)
        &&& self.to_tty.held(r, self.uart, self.tty, Step::UartRead, Step::TtyWrite)
        &&& log_held(self.log, r)
    }

    /// The bridge agrees with the reactor, and neither direction is between
    /// a completion and its next submission.
    pub open spec fn inv(self, r: ReactorView<Step>) -> bool {
        &&& self.consistent(r)
        &&& !(self.to_uart.state is Processing)
        &&& !(self.to_tty.state is Processing)
    }

    pub open spec fn with_to_uart(self, d: DirView) -> BridgeView {
        BridgeView { to_uart: d, ..self }
    }

    pub open spec fn with_to_tty(self, d: DirView) -> BridgeView {
        BridgeView { to_tty: d, ..self }
    }

    pub open spec fn with_log(self, log: Option<TranscriptView>) -> BridgeView {
        BridgeView { log, ..self }
    }

    /// Both directions are finished.
    pub open spec fn finished(self) -> bool {
        self.to_uart.state == State::TornDown && self.to_tty.state == State::TornDown
    }
}

/// The log is consistent, and the reactor's log writes are the log's own.
pub open spec fn log_held(log: Option<TranscriptView>, r: ReactorView<Step>) -> bool {
    match log {
        Some(t) => {
            &&& t.wf()
            &&& t.held_by(r)
            &&& forall|op: u64| #[trigger] r.ops.contains_key(op) && r.ops[op].1 == Step::LogWrite ==> t.flushing && t.op == op
        },
        None => forall|op: u64| #[trigger] r.ops.contains_key(op) ==> r.ops[op].1 != Step::LogWrite,
    }
}

/// Teardown of one direction: an outstanding read or write gets exactly one
/// cancel; a direction with nothing outstanding is finished at once.
pub open spec fn dir_teardown(s: State, r: ReactorView<Step>) -> (State, ReactorView<Step>) {
    match s {
        State::Reading(op) => (State::TearDown(r.next_id), r.submit(RequestView::Cancel { target: op }, Step::Cancel)),
        State::Writing(op) => (State::TearDown(r.next_id), r.submit(RequestView::Cancel { target: op }, Step::Cancel)),
        State::Processing => (State::TornDown, r),
        _ => (s, r),
    }
}

/// Once both directions are finished, the log is asked to flush.
pub open spec fn log_flushed_if_finished(b: BridgeView, r: ReactorView<Step>, b2: BridgeView, r2: ReactorView<Step>) -> bool {
    match b.log {
        Some(t) => if b.finished() {
            &&& b2.log matches Some(t2)
            &&& flushed(t, r, t2, r2)
            &&& b2 == b.with_log(b2.log)
        } else {
            b2 == b && r2 == r
        },
        None => b2 == b && r2 == r,
    }
}

/// The bridge's teardown: the console-to-UART direction first, then the other.
pub open spec fn torn_down(b: BridgeView, r: ReactorView<Step>, b2: BridgeView, r2: ReactorView<Step>) -> bool {
    let (s1, r1) = dir_teardown(b.to_uart.state, r);
    let (s2, r_2) = dir_teardown(b.to_tty.state, r1);
    let bm = b.with_to_uart(DirView { state: s1, ..b.to_uart }).with_to_tty(DirView { state: s2, ..b.to_tty });
    log_flushed_if_finished(bm, r_2, b2, r2)
}

/// A direction's read brought `bytes`: they are written to `dst`.
pub open spec fn after_read(d: DirView, r: ReactorView<Step>, bytes: Seq<u8>, dst: i32, ws: Step) -> (DirView, ReactorView<Step>) {
    (
        DirView { state: State::Writing(r.next_id), received: d.received + bytes, delivered: d.delivered },
        r.submit(RequestView::Write { fd: dst, data: bytes, offset: 0 }, ws),
    )
}

/// A direction's write of `bytes` put `n > 0` of them out: the rest is
/// written again, or, with all of them out, the source is read again.
pub open spec fn after_write(
    d: DirView,
    r: ReactorView<Step>,
    n: int,
    bytes: Seq<u8>,
    src: i32,
    dst: i32,
    rs: Step,
    ws: Step,
) -> (DirView, ReactorView<Step>) {
    if n < bytes.len() {
        (
            DirView { state: State::Writing(r.next_id), delivered: d.delivered + bytes.take(n), ..d },
            r.submit(RequestView::Write { fd: dst, data: bytes.skip(n), offset: 0 }, ws),
        )
    } else {
        (
            DirView { state: State::Reading(r.next_id), delivered: d.delivered + bytes, ..d },
            r.submit(RequestView::Read { fd: src, len: DEFAULT_READ_SIZE }, rs),
        )
    }
}

/// The log takes `bytes`, if there is a log.
pub open spec fn log_took(log: Option<TranscriptView>, r: ReactorView<Step>, bytes: Seq<u8>, log2: Option<TranscriptView>, r2: ReactorView<Step>) -> bool {
    match log {
        Some(t) => log2 matches Some(t2) && appended(t, r, bytes, t2, r2),
        None => log2 is None && r2 == r,
    }
}

/// A read on the console completed with `result` and `bytes`. A failed read
/// is fatal, and nothing is submitted for it; zero bytes or the quit byte start teardown and nothing is
/// forwarded; other bytes are written to the UART. A direction that is
/// shutting down ignores the completion.
pub open spec fn tty_read_step(
    b: BridgeView,
    r: ReactorView<Step>,
    result: i32,
    bytes: Seq<u8>,
    b2: BridgeView,
    r2: ReactorView<Step>,
    out: Result<Notice, BridgeError>,
) -> bool {
    if b.to_uart.state is Reading {
        if result < 0 {
            &&& out == Err::<Notice, BridgeError>(BridgeError::ReadFailed(result))
            &&& b2 == b.with_to_uart(DirView { state: State::Processing, ..b.to_uart })
            &&& r2 == r
        } else if result == 0 {
            &&& out == Ok::<Notice, BridgeError>(Notice::Disconnected)
            &&& torn_down(b.with_to_uart(DirView { state: State::Processing, ..b.to_uart }), r, b2, r2)
        } else if bytes.contains(CONTROL_O) {
            &&& out == Ok::<Notice, BridgeError>(Notice::Quit)
            &&& torn_down(b.with_to_uart(DirView { state: State::Processing, ..b.to_uart }), r, b2, r2)
        } else {
            let (d, r1) = after_read(b.to_uart, r, bytes, b.uart, Step::UartWrite);
            &&& out == Ok::<Notice, BridgeError>(Notice::Nothing)
            &&& b2 == b.with_to_uart(d)
            &&& r2 == r1
        }
    } else {
        out == Ok::<Notice, BridgeError>(Notice::Nothing) && b2 == b && r2 == r
    }
}

/// A read on the UART completed with `result` and `bytes`. A failed read is
/// fatal, and nothing is logged or submitted for it; zero bytes start teardown; other bytes go to the log, then are
/// written to the console.
pub open spec fn uart_read_step(
    b: BridgeView,
    r: ReactorView<Step>,
    result: i32,
    bytes: Seq<u8>,
    b2: BridgeView,
    r2: ReactorView<Step>,
    out: Result<Notice, BridgeError>,
) -> bool {
    if b.to_tty.state is Reading {
        if result < 0 {
            &&& out == Err::<Notice, BridgeError>(BridgeError::ReadFailed(result))
            &&& b2 == b.with_to_tty(DirView { state: State::Processing, ..b.to_tty })
            &&& r2 == r
        } else if result == 0 {
            &&& out == Ok::<Notice, BridgeError>(Notice::Disconnected)
            &&& torn_down(b.with_to_tty(DirView { state: State::Processing, ..b.to_tty }), r, b2, r2)
        } else {
            &&& out == Ok::<Notice, BridgeError>(Notice::Nothing)
            &&& exists|rl: ReactorView<Step>| {
                &&& #[trigger] log_took(b.log, r, bytes, b2.log, rl)
                &&& b2 == b.with_log(b2.log).with_to_tty(after_read(b.to_tty, rl, bytes, b.tty, Step::TtyWrite).0)
                &&& r2 == after_read(b.to_tty, rl, bytes, b.tty, Step::TtyWrite).1
            }
        }
    } else {
        out == Ok::<Notice, BridgeError>(Notice::Nothing) && b2 == b && r2 == r
    }
}

/// A write to the UART completed with `result`, having carried `bytes`. Zero
/// bytes start teardown; a failed write is fatal, and nothing is submitted
/// for it; otherwise see
/// [`after_write`].
pub open spec fn uart_write_step(
    b: BridgeView,
    r: ReactorView<Step>,
    result: i32,
    bytes: Seq<u8>,
    b2: BridgeView,
    r2: ReactorView<Step>,
    out: Result<Notice, BridgeError>,
) -> bool {
    if b.to_uart.state is Writing {
        if result == 0 {
            &&& out == Ok::<Notice, BridgeError>(Notice::Disconnected)
            &&& torn_down(b.with_to_uart(DirView { state: State::Processing, ..b.to_uart }), r, b2, r2)
        } else if result < 0 {
            &&& out == Err::<Notice, BridgeError>(BridgeError::WriteFailed(result))
            &&& b2 == b.with_to_uart(DirView { state: State::Processing, ..b.to_uart })
            &&& r2 == r
        } else {
            let (d, r1) = after_write(b.to_uart, r, result as int, bytes, b.tty, b.uart, Step::TtyRead, Step::UartWrite);
            &&& out == Ok::<Notice, BridgeError>(Notice::Nothing)
            &&& b2 == b.with_to_uart(d)
            &&& r2 == r1
        }
    } else {
        out == Ok::<Notice, BridgeError>(Notice::Nothing) && b2 == b && r2 == r
    }
}

/// A write to the console completed; as [`uart_write_step`], for the other
/// direction.
pub open spec fn tty_write_step(
    b: BridgeView,
    r: ReactorView<Step>,
    result: i32,
    bytes: Seq<u8>,
    b2: BridgeView,
    r2: ReactorView<Step>,
    out: Result<Notice, BridgeError>,
) -> bool {
    if b.to_tty.state is Writing {
        if result == 0 {
            &&& out == Ok::<Notice, BridgeError>(Notice::Disconnected)
            &&& torn_down(b.with_to_tty(DirView { state: State::Processing, ..b.to_tty }), r, b2, r2)
        } else if result < 0 {
            &&& out == Err::<Notice, BridgeError>(BridgeError::WriteFailed(result))
            &&& b2 == b.with_to_tty(DirView { state: State::Processing, ..b.to_tty })
            &&& r2 == r
        } else {
            let (d, r1) = after_write(b.to_tty, r, result as int, bytes, b.uart, b.tty, Step::UartRead, Step::TtyWrite);
            &&& out == Ok::<Notice, BridgeError>(Notice::Nothing)
            &&& b2 == b.with_to_tty(d)
            &&& r2 == r1
        }
    } else {
        out == Ok::<Notice, BridgeError>(Notice::Nothing) && b2 == b && r2 == r
    }
}

/// A cancel `op` completed: the direction waiting on it is finished, and the
/// log is flushed once both are.
pub open spec fn cancel_step(b: BridgeView, r: ReactorView<Step>, op: u64, b2: BridgeView, r2: ReactorView<Step>) -> bool {
    let s1 = if b.to_uart.state == State::TearDown(op) { State::TornDown } else { b.to_uart.state };
    let s2 = if b.to_tty.state == State::TearDown(op) { State::TornDown } else { b.to_tty.state };
    let bm = b.with_to_uart(DirView { state: s1, ..b.to_uart }).with_to_tty(DirView { state: s2, ..b.to_tty });
    log_flushed_if_finished(bm, r, b2, r2)
}

/// The log's write completed: see [`write_completed`]; a finished bridge
/// then asks the log to flush what is left.
pub open spec fn log_write_step(
    b: BridgeView,
    r: ReactorView<Step>,
    result: i32,
    b2: BridgeView,
    r2: ReactorView<Step>,
    out: Result<Notice, BridgeError>,
) -> bool {
    &&& out == if result <= 0 {
        Ok::<Notice, BridgeError>(Notice::LogFailed(result))
    } else {
        Ok::<Notice, BridgeError>(Notice::Nothing)
    }
    &&& b.log matches Some(t)
    &&& exists|t1: TranscriptView, r1: ReactorView<Step>| {
        &&& #[trigger] write_completed(t, r, result, t1, r1)
        &&& log_flushed_if_finished(b.with_log(Some(t1)), r1, b2, r2)
    }
}

/// What the completion of `op` with `result` does, given the bytes handed
/// back with it and the reactor with `op` retired.
pub open spec fn completion_step(
    b: BridgeView,
    r: ReactorView<Step>,
    op: u64,
    cont: Step,
    result: i32,
    bytes: Seq<u8>,
    b2: BridgeView,
    r2: ReactorView<Step>,
    out: Result<Notice, BridgeError>,
) -> bool {
    match cont {
        Step::TtyRead => tty_read_step(b, r, result, bytes, b2, r2, out),
        Step::UartWrite => uart_write_step(b, r, result, bytes, b2, r2, out),
        Step::UartRead => uart_read_step(b, r, result, bytes, b2, r2, out),
        Step::TtyWrite => tty_write_step(b, r, result, bytes, b2, r2, out),
        Step::Cancel => out == Ok::<Notice, BridgeError>(Notice::Nothing) && cancel_step(b, r, op, b2, r2),
        Step::LogWrite => log_write_step(b, r, result, b2, r2, out),
    }
}

/// The duplex bridge between a console and a UART: each direction reads its
/// source and writes what it read to the other side, until the operator quits
/// or an endpoint disconnects; then both directions are torn down.
pub struct UartTtySM {
    tty: i32,
    uart: i32,
    tty_state: State,
    uart_state: State,
    transcript: Option<Transcript>,
    tty_received: Ghost<Seq<u8>>,
    tty_delivered: Ghost<Seq<u8>>,
    uart_received: Ghost<Seq<u8>>,
    uart_delivered: Ghost<Seq<u8>>,
}

impl View for UartTtySM {
    type V = BridgeView;

    closed spec fn view(&self) -> BridgeView {
        BridgeView {
            tty: self.tty,
            uart: self.uart,
            to_uart: DirView { state: self.tty_state, received: self.tty_received@, delivered: self.tty_delivered@ },
            to_tty: DirView { state: self.uart_state, received: self.uart_received@, delivered: self.uart_delivered@ },
            log: match self.transcript {
                Some(t) => Some(t@),
                None => None,
            },
        }
    }
}

/// `buf` holds the byte `b`.
fn contains_byte(buf: &Vec<u8>, b: u8) -> (r: bool)
    ensures
        r == buf@.contains(b),
{
    let mut i: usize = 0;
    while i < buf.len()
        invariant
            i <= buf@.len(),
            forall|j: int| 0 <= j < i ==> buf@[j] != b,
        decreases buf@.len() - i,
    {
        if buf[i] == b {
            return true;
        }
        i += 1;
    }
    false
}

/// A zeroed buffer of `len` bytes.
fn zeroed(len: usize) -> (r: Vec<u8>)
    ensures
        r@.len() == len,
{
    let mut r: Vec<u8> = Vec::with_capacity(len);
    let mut i: usize = 0;
    while i < len
        invariant
            i <= len,
            r@.len() == i,
        decreases len - i,
    {
        r.push(0);
        i += 1;
    }
    r
}

/// Submits the teardown of one direction standing at `s`; see [`dir_teardown`].
fn teardown_side(reactor: &mut Reactor<Step>, s: State) -> (s2: State)
    requires
        old(reactor).wf(),
        old(reactor)@.room_for(1),
    ensures
        final(reactor).wf(),
        (s2, final(reactor)@) == dir_teardown(s, old(reactor)@),
{
    match s {
        State::Reading(op) => State::TearDown(reactor.cancel(op, Step::Cancel)),
        State::Writing(op) => State::TearDown(reactor.cancel(op, Step::Cancel)),
        State::Processing => State::TornDown,
        _ => s,
    }
}

/// A submission under another continuation leaves a direction held.
proof fn lemma_dir_submit(d: DirView, r: ReactorView<Step>, src: i32, dst: i32, rs: Step, ws: Step, req: RequestView, cont: Step)
    requires
        d.held(r, src, dst, rs, ws),
        r.fresh(),
        cont != rs,
        cont != ws,
    ensures
        d.held(r.submit(req, cont), src, dst, rs, ws),
{
    let r2 = r.submit(req, cont);
    assert forall|op: u64| #[trigger] r2.ops.contains_key(op) && r2.ops[op].1 == rs implies d.owns(op) by {
        assert(op != r.next_id);
        assert(r.ops.contains_key(op));
    }
    assert forall|op: u64| #[trigger] r2.ops.contains_key(op) && r2.ops[op].1 == ws implies d.owns(op) by {
        assert(op != r.next_id);
        assert(r.ops.contains_key(op));
    }
}

/// Retiring an operation that is not a direction's current one leaves it held.
proof fn lemma_dir_retire(d: DirView, r: ReactorView<Step>, src: i32, dst: i32, rs: Step, ws: Step, op: u64)
    requires
        d.held(r, src, dst, rs, ws),
        d.state != State::Reading(op),
        d.state != State::Writing(op),
    ensures
        d.held(r.retire(op), src, dst, rs, ws),
{
    let r2 = r.retire(op);
    assert forall|o: u64| #[trigger] r2.ops.contains_key(o) && r2.ops[o].1 == rs implies d.owns(o) by {
        assert(r.ops.contains_key(o));
    }
    assert forall|o: u64| #[trigger] r2.ops.contains_key(o) && r2.ops[o].1 == ws implies d.owns(o) by {
        assert(r.ops.contains_key(o));
    }
}

/// Retiring a direction's current operation leaves the direction held while
/// it is between that completion and its next submission; it then owns no
/// outstanding operation.
proof fn lemma_dir_retire_current(d: DirView, r: ReactorView<Step>, src: i32, dst: i32, rs: Step, ws: Step, op: u64)
    requires
        d.held(r, src, dst, rs, ws),
        d.state == State::Reading(op) || d.state == State::Writing(op),
    ensures
        (DirView { state: State::Processing, ..d }).held(r.retire(op), src, dst, rs, ws),
        forall|o: u64| #[trigger] r.retire(op).ops.contains_key(o) ==> r.retire(op).ops[o].1 != rs && r.retire(op).ops[o].1 != ws,
{
    let r2 = r.retire(op);
    assert forall|o: u64| #[trigger] r2.ops.contains_key(o) implies r2.ops[o].1 != rs && r2.ops[o].1 != ws by {
        assert(r.ops.contains_key(o));
        if r2.ops[o].1 == rs {
            assert(d.owns(o));
        }
        if r2.ops[o].1 == ws {
            assert(d.owns(o));
        }
    }
}

/// A submission under another continuation leaves the log held.
proof fn lemma_log_submit(log: Option<TranscriptView>, r: ReactorView<Step>, req: RequestView, cont: Step)
    requires
        log_held(log, r),
        r.fresh(),
        cont != Step::LogWrite,
    ensures
        log_held(log, r.submit(req, cont)),
{
    let r2 = r.submit(req, cont);
    assert forall|op: u64| #[trigger] r2.ops.contains_key(op) && r2.ops[op].1 == Step::LogWrite implies r.ops.contains_key(op) && r.ops[op] == r2.ops[op] by {
        assert(op != r.next_id);
    }
    if let Some(t) = log {
        if t.flushing {
            assert(t.op != r.next_id);
        }
    }
}

/// Retiring an operation other than the log's write leaves the log held.
proof fn lemma_log_retire(log: Option<TranscriptView>, r: ReactorView<Step>, op: u64)
    requires
        log_held(log, r),
        r.ops.contains_key(op),
        r.ops[op].1 != Step::LogWrite,
    ensures
        log_held(log, r.retire(op)),
{
    let r2 = r.retire(op);
    assert forall|o: u64| #[trigger] r2.ops.contains_key(o) implies r.ops.contains_key(o) && r.ops[o] == r2.ops[o] by {}
    if let Some(t) = log {
        if t.flushing {
            assert(t.op != op);
        }
    }
}

/// A log whose write state is unchanged stays held.
proof fn lemma_log_same(t: TranscriptView, t2: TranscriptView, r: ReactorView<Step>)
    requires
        log_held(Some(t), r),
        t2.wf(),
        t2.flushing == t.flushing,
        t2.op == t.op,
        t2.in_write == t.in_write,
        t2.offset == t.offset,
        t2.fd == t.fd,
    ensures
        log_held(Some(t2), r),
{
}

/// A log with no write outstanding is held by a reactor with no log write.
proof fn lemma_log_idle(t2: TranscriptView, r: ReactorView<Step>)
    requires
        t2.wf(),
        !t2.flushing,
        forall|o: u64| #[trigger] r.ops.contains_key(o) ==> r.ops[o].1 != Step::LogWrite,
    ensures
        log_held(Some(t2), r),
{
}

/// A log whose write was just submitted, to a reactor with no other log
/// write, is held.
proof fn lemma_log_fresh_write(t2: TranscriptView, r: ReactorView<Step>)
    requires
        t2.wf(),
        t2.flushing,
        t2.op == r.next_id,
        forall|o: u64| #[trigger] r.ops.contains_key(o) ==> r.ops[o].1 != Step::LogWrite,
    ensures
        log_held(
            Some(t2),
            r.submit(RequestView::Write { fd: t2.fd, data: t2.in_write, offset: t2.offset as usize }, Step::LogWrite),
        ),
{
    let r2 = r.submit(RequestView::Write { fd: t2.fd, data: t2.in_write, offset: t2.offset as usize }, Step::LogWrite);
    assert forall|o: u64| #[trigger] r2.ops.contains_key(o) && r2.ops[o].1 == Step::LogWrite implies t2.flushing && t2.op == o by {
        if o != r.next_id {
            assert(r.ops.contains_key(o));
        }
    }
}

/// With the log idle, the reactor holds no log write.
proof fn lemma_no_log_write(log: Option<TranscriptView>, r: ReactorView<Step>)
    requires
        log_held(log, r),
        log matches Some(t) ==> !t.flushing,
    ensures
        forall|o: u64| #[trigger] r.ops.contains_key(o) ==> r.ops[o].1 != Step::LogWrite,
{
}

/// Tearing a direction down keeps it held, and keeps identifiers fresh.
proof fn lemma_dir_teardown(d: DirView, r: ReactorView<Step>, src: i32, dst: i32, rs: Step, ws: Step)
    requires
        d.held(r, src, dst, rs, ws),
        r.fresh(),
        r.room_for(1),
    ensures
        (DirView { state: dir_teardown(d.state, r).0, ..d }).held(dir_teardown(d.state, r).1, src, dst, rs, ws),
        dir_teardown(d.state, r).1.fresh(),
{
    let (s2, r2) = dir_teardown(d.state, r);
    let d2 = DirView { state: s2, ..d };
    assert forall|o: u64| #[trigger] r2.ops.contains_key(o) implies o < r2.next_id by {
        if o != r.next_id {
            assert(r.ops.contains_key(o));
        }
    }
    if s2 != d.state {
        assert(d2.owns(0));
    }
}

/// A direction between completion and submission owns nothing outstanding.
proof fn lemma_processing_owns_nothing(d: DirView, r: ReactorView<Step>, src: i32, dst: i32, rs: Step, ws: Step)
    requires
        d.state is Processing,
        d.held(r, src, dst, rs, ws),
    ensures
        forall|o: u64| #[trigger] r.ops.contains_key(o) ==> r.ops[o].1 != rs && r.ops[o].1 != ws,
{
    assert forall|o: u64| #[trigger] r.ops.contains_key(o) implies r.ops[o].1 != rs && r.ops[o].1 != ws by {
        if r.ops[o].1 == rs || r.ops[o].1 == ws {
            assert(d.owns(o));
        }
    }
}

/// A direction that read `bytes` with everything before delivered, and
/// writes them on, is held.
proof fn lemma_dir_after_read(d: DirView, r: ReactorView<Step>, bytes: Seq<u8>, src: i32, dst: i32, rs: Step, ws: Step)
    requires
        (DirView { state: State::Processing, ..d }).held(r, src, dst, rs, ws),
        d.received.len() == d.delivered.len(),
        r.fresh(),
        r.room_for(1),
        rs != ws,
    ensures
        after_read(d, r, bytes, dst, ws).0.held(after_read(d, r, bytes, dst, ws).1, src, dst, rs, ws),
        after_read(d, r, bytes, dst, ws).1.fresh(),
{
    let (d2, r2) = after_read(d, r, bytes, dst, ws);
    lemma_processing_owns_nothing(DirView { state: State::Processing, ..d }, r, src, dst, rs, ws);
    assert(d.received =~= d.delivered);
    assert(d2.received.take(d2.delivered.len() as int) =~= d2.delivered);
    assert(d2.undelivered() =~= bytes);
    assert forall|o: u64| #[trigger] r2.ops.contains_key(o) implies o < r2.next_id by {
        if o != r.next_id {
            assert(r.ops.contains_key(o));
        }
    }
    assert forall|o: u64| #[trigger] r2.ops.contains_key(o) && r2.ops[o].1 == rs implies d2.owns(o) by {
        if o != r.next_id {
            assert(r.ops.contains_key(o));
        }
    }
    assert forall|o: u64| #[trigger] r2.ops.contains_key(o) && r2.ops[o].1 == ws implies d2.owns(o) by {
        if o != r.next_id {
            assert(r.ops.contains_key(o));
        }
    }
}

/// A direction whose write of its undelivered bytes put `n > 0` out, and
/// goes on, is held.
proof fn lemma_dir_after_write(d: DirView, r: ReactorView<Step>, n: int, bytes: Seq<u8>, src: i32, dst: i32, rs: Step, ws: Step)
    requires
        (DirView { state: State::Processing, ..d }).held(r, src, dst, rs, ws),
        bytes == d.undelivered(),
        n > 0,
        r.fresh(),
        r.room_for(1),
        rs != ws,
    ensures
        after_write(d, r, n, bytes, src, dst, rs, ws).0.held(after_write(d, r, n, bytes, src, dst, rs, ws).1, src, dst, rs, ws),
        after_write(d, r, n, bytes, src, dst, rs, ws).1.fresh(),
{
    let (d2, r2) = after_write(d, r, n, bytes, src, dst, rs, ws);
    lemma_processing_owns_nothing(DirView { state: State::Processing, ..d }, r, src, dst, rs, ws);
    let k = d.delivered.len() as int;
    assert(d.received =~= d.delivered + bytes);
    if n < bytes.len() {
        assert(d2.delivered =~= d.delivered + bytes.take(n));
        assert(d2.received.take(d2.delivered.len() as int) =~= d2.delivered);
        assert(d2.undelivered() =~= bytes.skip(n));
    } else {
        assert(d2.received.take(d2.delivered.len() as int) =~= d2.delivered);
    }
    assert forall|o: u64| #[trigger] r2.ops.contains_key(o) implies o < r2.next_id by {
        if o != r.next_id {
            assert(r.ops.contains_key(o));
        }
    }
    assert forall|o: u64| #[trigger] r2.ops.contains_key(o) && r2.ops[o].1 == rs implies d2.owns(o) by {
        if o != r.next_id {
            assert(r.ops.contains_key(o));
        }
    }
    assert forall|o: u64| #[trigger] r2.ops.contains_key(o) && r2.ops[o].1 == ws implies d2.owns(o) by {
        if o != r.next_id {
            assert(r.ops.contains_key(o));
        }
    }
}

/// The log stays held through an append.
proof fn lemma_log_after_append(t: TranscriptView, r: ReactorView<Step>, bytes: Seq<u8>, t2: TranscriptView, r2: ReactorView<Step>)
    requires
        log_held(Some(t), r),
        appended(t, r, bytes, t2, r2),
        t2.wf(),
        r.fresh(),
    ensures
        log_held(Some(t2), r2),
{
    if t.failed || t.logged + bytes.len() > usize::MAX {
    } else if t.flushing {
        lemma_log_same(t, t2, r);
    } else if t.current.len() + bytes.len() < TRANSCRIPT_BUFFER_SIZE {
        lemma_no_log_write(Some(t), r);
        lemma_log_idle(t2, r);
    } else {
        lemma_no_log_write(Some(t), r);
        lemma_log_fresh_write(t2, r);
    }
}

/// The log stays held through the completion of its write.
proof fn lemma_log_after_write(t: TranscriptView, r0: ReactorView<Step>, result: i32, t2: TranscriptView, r2: ReactorView<Step>)
    requires
        log_held(Some(t), r0),
        t.flushing,
        write_completed(t, r0.retire(t.op), result, t2, r2),
        t2.wf(),
        r0.fresh(),
    ensures
        log_held(Some(t2), r2),
{
    let r = r0.retire(t.op);
    assert forall|o: u64| #[trigger] r.ops.contains_key(o) implies r.ops[o].1 != Step::LogWrite by {
        assert(r0.ops.contains_key(o));
    }
    if t2.flushing {
        lemma_log_fresh_write(t2, r);
    } else {
        lemma_log_idle(t2, r);
    }
}

impl UartTtySM {
    /// Starts the bridge: one read on each endpoint, with `transcript` (if
    /// any) recording what the UART sends. The reactor may hold other
    /// operations, but no endpoint read or write under the bridge's
    /// continuations (those would belong to no direction), and a write of
    /// the transcript only as the transcript's own outstanding write.
    pub fn init_actions(reactor: &mut Reactor<Step>, tty: i32, uart: i32, transcript: Option<Transcript>) -> (sm: UartTtySM)
        requires
            old(reactor).wf(),
            old(reactor)@.room_for(2),
            forall|op: u64| #[trigger] old(reactor)@.ops.contains_key(op) ==> {
                let c = old(reactor)@.ops[op].1;
                c != Step::TtyRead && c != Step::UartWrite && c != Step::UartRead && c != Step::TtyWrite
            },
            log_held(
                match transcript {
                    Some(t) => Some(t@),
                    None => None::<TranscriptView>,
                },
                old(reactor)@,
            ),
        ensures
            final(reactor).wf(),
            sm@.inv(final(reactor)@),
            sm@.tty == tty,
            sm@.uart == uart,
            sm@.to_uart == (DirView { state: State::Reading(old(reactor)@.next_id), received: Seq::empty(), delivered: Seq::empty() }),
            sm@.to_tty == (DirView { state: State::Reading((old(reactor)@.next_id + 1) as u64), received: Seq::empty(), delivered: Seq::empty() }),
            sm@.log == (match transcript {
                Some(t) => Some(t@),
                None => None::<TranscriptView>,
            }),
            final(reactor)@ == old(reactor)@.submit(RequestView::Read { fd: tty, len: DEFAULT_READ_SIZE }, Step::TtyRead).submit(
                RequestView::Read { fd: uart, len: DEFAULT_READ_SIZE },
                Step::UartRead,
            ),
    {
        let ghost r0 = reactor@;
        let ghost log = match &transcript {
            Some(t) => Some(t@),
            None => None::<TranscriptView>,
        };
        let tty_op = reactor.read(tty, zeroed(DEFAULT_READ_SIZE), Step::TtyRead);
        let ghost r1 = reactor@;
        let uart_op = reactor.read(uart, zeroed(DEFAULT_READ_SIZE), Step::UartRead);
        let sm = UartTtySM {
            tty,
            uart,
            tty_state: State::Reading(tty_op),
            uart_state: State::Reading(uart_op),
            transcript,
            tty_received: Ghost(Seq::empty()),
            tty_delivered: Ghost(Seq::empty()),
            uart_received: Ghost(Seq::empty()),
            uart_delivered: Ghost(Seq::empty()),
        };
        proof {
            let r = reactor@;
            assert(sm@.to_uart.received.take(0) =~= Seq::<u8>::empty());
            assert(sm@.to_tty.received.take(0) =~= Seq::<u8>::empty());
            lemma_log_submit(log, r0, RequestView::Read { fd: tty, len: DEFAULT_READ_SIZE }, Step::TtyRead);
            assert(r1.fresh());
            lemma_log_submit(log, r1, RequestView::Read { fd: uart, len: DEFAULT_READ_SIZE }, Step::UartRead);
            assert forall|op: u64| #[trigger] r.ops.contains_key(op) && op != tty_op && op != uart_op implies r0.ops.contains_key(op) && r.ops[op] == r0.ops[op] by {}
            assert(r.fresh());
        }
        sm
    }

    /// Once both directions are finished, asks the log to flush.
    fn flush_log_if_finished(&mut self, reactor: &mut Reactor<Step>)
        requires
            old(reactor).wf(),
            old(reactor)@.room_for(1),
            old(self)@.consistent(old(reactor)@),
        ensures
            final(reactor).wf(),
            log_flushed_if_finished(old(self)@, old(reactor)@, final(self)@, final(reactor)@),
            final(self)@.consistent(final(reactor)@),
    {
        if self.tty_state == State::TornDown && self.uart_state == State::TornDown {
            let ghost b = self@;
            let ghost r = reactor@;
            match &mut self.transcript {
                Some(t) => {
                    proof {
                        if !t@.flushing {
                            lemma_no_log_write(b.log, r);
                        }
                    }
                    flush_transcript(reactor, t);
                    proof {
                        if reactor@ != r {
                            let t2 = t@;
                            lemma_log_fresh_write(t2, r);
                            lemma_dir_submit(b.to_uart, r, b.tty, b.uart, Step::TtyRead, Step::UartWrite, RequestView::Write { fd: t2.fd, data: t2.in_write, offset: t2.offset as usize }, Step::LogWrite);
                            lemma_dir_submit(b.to_tty, r, b.uart, b.tty, Step::UartRead, Step::TtyWrite, RequestView::Write { fd: t2.fd, data: t2.in_write, offset: t2.offset as usize }, Step::LogWrite);
                            assert(reactor@.fresh());
                        }
                    }
                },
                None => {},
            }
        }
    }

    /// Tears both directions down: each outstanding read or write gets one
    /// cancel, a direction with nothing outstanding is finished at once, and
    /// when both are finished the log is flushed.
    fn start_uart_teardown(&mut self, reactor: &mut Reactor<Step>)
        requires
            old(reactor).wf(),
            old(reactor)@.room_for(3),
            old(self)@.consistent(old(reactor)@),
        ensures
            final(reactor).wf(),
            torn_down(old(self)@, old(reactor)@, final(self)@, final(reactor)@),
            final(self)@.inv(final(reactor)@),
    {
        let ghost b = self@;
        let ghost r = reactor@;
        self.tty_state = teardown_side(reactor, self.tty_state);
        let ghost r1 = reactor@;
        proof {
            lemma_dir_teardown(b.to_uart, r, b.tty, b.uart, Step::TtyRead, Step::UartWrite);
            if r1 != r {
                lemma_dir_submit(b.to_tty, r, b.uart, b.tty, Step::UartRead, Step::TtyWrite, RequestView::Cancel { target: 0 }, Step::Cancel);
                lemma_log_submit(b.log, r, RequestView::Cancel { target: 0 }, Step::Cancel);
            }
        }
        let ghost b1 = self@;
        self.uart_state = teardown_side(reactor, self.uart_state);
        proof {
            lemma_dir_teardown(b1.to_tty, r1, b.uart, b.tty, Step::UartRead, Step::TtyWrite);
            if reactor@ != r1 {
                lemma_dir_submit(b1.to_uart, r1, b.tty, b.uart, Step::TtyRead, Step::UartWrite, RequestView::Cancel { target: 0 }, Step::Cancel);
                lemma_log_submit(b1.log, r1, RequestView::Cancel { target: 0 }, Step::Cancel);
            }
        }
        self.flush_log_if_finished(reactor);
    }

    /// A read on the console completed; see [`tty_read_step`].
    fn tty_read_done(
        &mut self,
        reactor: &mut Reactor<Step>,
        result: i32,
        buf: Vec<u8>,
        Ghost(r0): Ghost<ReactorView<Step>>,
        Ghost(op): Ghost<u64>,
    ) -> (out: Result<Notice, BridgeError>)
        requires
            old(reactor).wf(),
            old(reactor)@.room_for(3),
            old(self)@.inv(r0),
            r0.ops.contains_key(op),
            r0.ops[op].1 == Step::TtyRead,
            old(reactor)@ == r0.retire(op),
        ensures
            final(reactor).wf(),
            tty_read_step(old(self)@, old(reactor)@, result, buf@, final(self)@, final(reactor)@, out),
            out is Ok ==> final(self)@.inv(final(reactor)@),
    {
        let ghost b = self@;
        let ghost r = reactor@;
        proof {
            assert(b.to_uart.owns(op));
            lemma_dir_retire(b.to_tty, r0, b.uart, b.tty, Step::UartRead, Step::TtyWrite, op);
            lemma_log_retire(b.log, r0, op);
        }
        match self.tty_state {
            State::Reading(_) => {},
            _ => {
                proof {
                    lemma_dir_retire(b.to_uart, r0, b.tty, b.uart, Step::TtyRead, Step::UartWrite, op);
                }
                return Ok(Notice::Nothing);
            },
        }
        proof {
            lemma_dir_retire_current(b.to_uart, r0, b.tty, b.uart, Step::TtyRead, Step::UartWrite, op);
        }
        self.tty_state = State::Processing;
        if result < 0 {
            return Err(BridgeError::ReadFailed(result));
        }
        if result == 0 || contains_byte(&buf, CONTROL_O) {
            self.start_uart_teardown(reactor);
            return Ok(if result == 0 { Notice::Disconnected } else { Notice::Quit });
        }
        let ghost bytes = buf@;
        proof {
            lemma_dir_after_read(b.to_uart, r, bytes, b.tty, b.uart, Step::TtyRead, Step::UartWrite);
            lemma_dir_submit(b.to_tty, r, b.uart, b.tty, Step::UartRead, Step::TtyWrite, RequestView::Write { fd: b.uart, data: bytes, offset: 0 }, Step::UartWrite);
            lemma_log_submit(b.log, r, RequestView::Write { fd: b.uart, data: bytes, offset: 0 }, Step::UartWrite);
        }
        let id = reactor.write(self.uart, buf, 0, Step::UartWrite);
        self.tty_state = State::Writing(id);
        self.tty_received = Ghost(self.tty_received@ + bytes);
        Ok(Notice::Nothing)
    }

    /// A read on the UART completed; see [`uart_read_step`].
    fn uart_read_done(
        &mut self,
        reactor: &mut Reactor<Step>,
        result: i32,
        buf: Vec<u8>,
        Ghost(r0): Ghost<ReactorView<Step>>,
        Ghost(op): Ghost<u64>,
    ) -> (out: Result<Notice, BridgeError>)
        requires
            old(reactor).wf(),
            old(reactor)@.room_for(3),
            old(self)@.inv(r0),
            r0.ops.contains_key(op),
            r0.ops[op].1 == Step::UartRead,
            old(reactor)@ == r0.retire(op),
        ensures
            final(reactor).wf(),
            uart_read_step(old(self)@, old(reactor)@, result, buf@, final(self)@, final(reactor)@, out),
            out is Ok ==> final(self)@.inv(final(reactor)@),
    {
        let ghost b = self@;
        let ghost r = reactor@;
        proof {
            assert(b.to_tty.owns(op));
            lemma_dir_retire(b.to_uart, r0, b.tty, b.uart, Step::TtyRead, Step::UartWrite, op);
            lemma_log_retire(b.log, r0, op);
        }
        match self.uart_state {
            State::Reading(_) => {},
            _ => {
                proof {
                    lemma_dir_retire(b.to_tty, r0, b.uart, b.tty, Step::UartRead, Step::TtyWrite, op);
                }
                return Ok(Notice::Nothing);
            },
        }
        proof {
            lemma_dir_retire_current(b.to_tty, r0, b.uart, b.tty, Step::UartRead, Step::TtyWrite, op);
        }
        self.uart_state = State::Processing;
        if result < 0 {
            return Err(BridgeError::ReadFailed(result));
        }
        if result == 0 {
            self.start_uart_teardown(reactor);
            return Ok(Notice::Disconnected);
        }
        let ghost bytes = buf@;
        let ghost bp = self@;
        match &mut self.transcript {
            Some(t) => {
                log_to_transcript(reactor, t, &buf);
                proof {
                    lemma_log_after_append(bp.log->Some_0, r, bytes, t@, reactor@);
                }
            },
            None => {},
        }
        let ghost rl = reactor@;
        proof {
            if rl != r {
                let w = rl.ops[r.next_id].0;
                assert(rl == r.submit(w, Step::LogWrite));
                lemma_dir_submit(bp.to_tty, r, b.uart, b.tty, Step::UartRead, Step::TtyWrite, w, Step::LogWrite);
                lemma_dir_submit(bp.to_uart, r, b.tty, b.uart, Step::TtyRead, Step::UartWrite, w, Step::LogWrite);
            }
            assert(rl.fresh());
            lemma_dir_after_read(b.to_tty, rl, bytes, b.uart, b.tty, Step::UartRead, Step::TtyWrite);
            lemma_dir_submit(b.to_uart, rl, b.tty, b.uart, Step::TtyRead, Step::UartWrite, RequestView::Write { fd: b.tty, data: bytes, offset: 0 }, Step::TtyWrite);
            lemma_log_submit(self@.log, rl, RequestView::Write { fd: b.tty, data: bytes, offset: 0 }, Step::TtyWrite);
        }
        let id = reactor.write(self.tty, buf, 0, Step::TtyWrite);
        self.uart_state = State::Writing(id);
        self.uart_received = Ghost(self.uart_received@ + bytes);
        proof {
            assert(log_took(b.log, r, bytes, self@.log, rl));
        }
        Ok(Notice::Nothing)
    }

    /// A write to the UART completed; see [`uart_write_step`].
    fn uart_write_done(
        &mut self,
        reactor: &mut Reactor<Step>,
        result: i32,
        buf: Vec<u8>,
        Ghost(r0): Ghost<ReactorView<Step>>,
        Ghost(op): Ghost<u64>,
    ) -> (out: Result<Notice, BridgeError>)
        requires
            old(reactor).wf(),
            old(reactor)@.room_for(3),
            old(self)@.inv(r0),
            r0.ops.contains_key(op),
            r0.ops[op].1 == Step::UartWrite,
            old(reactor)@ == r0.retire(op),
            old(self)@.to_uart.state is Writing ==> buf@ == old(self)@.to_uart.undelivered(),
        ensures
            final(reactor).wf(),
            uart_write_step(old(self)@, old(reactor)@, result, buf@, final(self)@, final(reactor)@, out),
            out is Ok ==> final(self)@.inv(final(reactor)@),
    {
        let ghost b = self@;
        let ghost r = reactor@;
        proof {
            assert(b.to_uart.owns(op));
            lemma_dir_retire(b.to_tty, r0, b.uart, b.tty, Step::UartRead, Step::TtyWrite, op);
            lemma_log_retire(b.log, r0, op);
        }
        match self.tty_state {
            State::Writing(_) => {},
            _ => {
                proof {
                    lemma_dir_retire(b.to_uart, r0, b.tty, b.uart, Step::TtyRead, Step::UartWrite, op);
                }
                return Ok(Notice::Nothing);
            },
        }
        proof {
            lemma_dir_retire_current(b.to_uart, r0, b.tty, b.uart, Step::TtyRead, Step::UartWrite, op);
        }
        self.tty_state = State::Processing;
        if result == 0 {
            self.start_uart_teardown(reactor);
            return Ok(Notice::Disconnected);
        }
        if result < 0 {
            return Err(BridgeError::WriteFailed(result));
        }
        let ghost bytes = buf@;
        let ghost (d2, r2) = after_write(b.to_uart, r, result as int, bytes, b.tty, b.uart, Step::TtyRead, Step::UartWrite);
        proof {
            lemma_dir_after_write(b.to_uart, r, result as int, bytes, b.tty, b.uart, Step::TtyRead, Step::UartWrite);
            lemma_dir_submit(b.to_tty, r, b.uart, b.tty, Step::UartRead, Step::TtyWrite, r2.ops[r.next_id].0, Step::TtyRead);
            lemma_dir_submit(b.to_tty, r, b.uart, b.tty, Step::UartRead, Step::TtyWrite, r2.ops[r.next_id].0, Step::UartWrite);
            lemma_log_submit(b.log, r, r2.ops[r.next_id].0, Step::TtyRead);
            lemma_log_submit(b.log, r, r2.ops[r.next_id].0, Step::UartWrite);
        }
        let mut buf = buf;
        let n = result as usize;
        if n < buf.len() {
            let rest = buf.split_off(n);
            let id = reactor.write(self.uart, rest, 0, Step::UartWrite);
            self.tty_state = State::Writing(id);
            self.tty_delivered = Ghost(self.tty_delivered@ + bytes.take(n as int));
        } else {
            buf.resize(DEFAULT_READ_SIZE, 0);
            let id = reactor.read(self.tty, buf, Step::TtyRead);
            self.tty_state = State::Reading(id);
            self.tty_delivered = Ghost(self.tty_delivered@ + bytes);
        }
        Ok(Notice::Nothing)
    }

    /// A write to the console completed; see [`tty_write_step`].
    fn tty_write_done(
        &mut self,
        reactor: &mut Reactor<Step>,
        result: i32,
        buf: Vec<u8>,
        Ghost(r0): Ghost<ReactorView<Step>>,
        Ghost(op): Ghost<u64>,
    ) -> (out: Result<Notice, BridgeError>)
        requires
            old(reactor).wf(),
            old(reactor)@.room_for(3),
            old(self)@.inv(r0),
            r0.ops.contains_key(op),
            r0.ops[op].1 == Step::TtyWrite,
            old(reactor)@ == r0.retire(op),
            old(self)@.to_tty.state is Writing ==> buf@ == old(self)@.to_tty.undelivered(),
        ensures
            final(reactor).wf(),
            tty_write_step(old(self)@, old(reactor)@, result, buf@, final(self)@, final(reactor)@, out),
            out is Ok ==> final(self)@.inv(final(reactor)@),
    {
        let ghost b = self@;
        let ghost r = reactor@;
        proof {
            assert(b.to_tty.owns(op));
            lemma_dir_retire(b.to_uart, r0, b.tty, b.uart, Step::TtyRead, Step::UartWrite, op);
            lemma_log_retire(b.log, r0, op);
        }
        match self.uart_state {
            State::Writing(_) => {},
            _ => {
                proof {
                    lemma_dir_retire(b.to_tty, r0, b.uart, b.tty, Step::UartRead, Step::TtyWrite, op);
                }
                return Ok(Notice::Nothing);
            },
        }
        proof {
            lemma_dir_retire_current(b.to_tty, r0, b.uart, b.tty, Step::UartRead, Step::TtyWrite, op);
        }
        self.uart_state = State::Processing;
        if result == 0 {
            self.start_uart_teardown(reactor);
            return Ok(Notice::Disconnected);
        }
        if result < 0 {
            return Err(BridgeError::WriteFailed(result));
        }
        let ghost bytes = buf@;
        let ghost (d2, r2) = after_write(b.to_tty, r, result as int, bytes, b.uart, b.tty, Step::UartRead, Step::TtyWrite);
        proof {
            lemma_dir_after_write(b.to_tty, r, result as int, bytes, b.uart, b.tty, Step::UartRead, Step::TtyWrite);
            lemma_dir_submit(b.to_uart, r, b.tty, b.uart, Step::TtyRead, Step::UartWrite, r2.ops[r.next_id].0, Step::UartRead);
            lemma_dir_submit(b.to_uart, r, b.tty, b.uart, Step::TtyRead, Step::UartWrite, r2.ops[r.next_id].0, Step::TtyWrite);
            lemma_log_submit(b.log, r, r2.ops[r.next_id].0, Step::UartRead);
            lemma_log_submit(b.log, r, r2.ops[r.next_id].0, Step::TtyWrite);
        }
        let mut buf = buf;
        let n = result as usize;
        if n < buf.len() {
            let rest = buf.split_off(n);
            let id = reactor.write(self.tty, rest, 0, Step::TtyWrite);
            self.uart_state = State::Writing(id);
            self.uart_delivered = Ghost(self.uart_delivered@ + bytes.take(n as int));
        } else {
            buf.resize(DEFAULT_READ_SIZE, 0);
            let id = reactor.read(self.uart, buf, Step::UartRead);
            self.uart_state = State::Reading(id);
            self.uart_delivered = Ghost(self.uart_delivered@ + bytes);
        }
        Ok(Notice::Nothing)
    }

    /// A cancel completed; see [`cancel_step`]. Its result is informational:
    /// the cancel may have lost the race against the operation's own
    /// completion, which is ignored either way.
    fn handle_other_ev(&mut self, reactor: &mut Reactor<Step>, op: u64, Ghost(r0): Ghost<ReactorView<Step>>)
        requires
            old(reactor).wf(),
            old(reactor)@.room_for(3),
            old(self)@.inv(r0),
            r0.ops.contains_key(op),
            r0.ops[op].1 == Step::Cancel,
            old(reactor)@ == r0.retire(op),
        ensures
            final(reactor).wf(),
            cancel_step(old(self)@, old(reactor)@, op, final(self)@, final(reactor)@),
            final(self)@.inv(final(reactor)@),
    {
        let ghost b = self@;
        proof {
            lemma_dir_retire(b.to_uart, r0, b.tty, b.uart, Step::TtyRead, Step::UartWrite, op);
            lemma_dir_retire(b.to_tty, r0, b.uart, b.tty, Step::UartRead, Step::TtyWrite, op);
            lemma_log_retire(b.log, r0, op);
        }
        if self.tty_state == State::TearDown(op) {
            self.tty_state = State::TornDown;
        }
        if self.uart_state == State::TearDown(op) {
            self.uart_state = State::TornDown;
        }
        self.flush_log_if_finished(reactor);
    }

    /// The log's write completed; see [`log_write_step`].
    fn log_write_done(
        &mut self,
        reactor: &mut Reactor<Step>,
        result: i32,
        buf: Vec<u8>,
        Ghost(r0): Ghost<ReactorView<Step>>,
        Ghost(op): Ghost<u64>,
    ) -> (out: Result<Notice, BridgeError>)
        requires
            old(reactor).wf(),
            old(reactor)@.room_for(3),
            old(self)@.inv(r0),
            r0.ops.contains_key(op),
            r0.ops[op].1 == Step::LogWrite,
            old(reactor)@ == r0.retire(op),
            buf@ == r0.ops[op].0->data,
        ensures
            final(reactor).wf(),
            log_write_step(old(self)@, old(reactor)@, result, final(self)@, final(reactor)@, out),
            final(self)@.inv(final(reactor)@),
    {
        let ghost b = self@;
        let ghost r = reactor@;
        proof {
            lemma_dir_retire(b.to_uart, r0, b.tty, b.uart, Step::TtyRead, Step::UartWrite, op);
            lemma_dir_retire(b.to_tty, r0, b.uart, b.tty, Step::UartRead, Step::TtyWrite, op);
        }
        let out = match &mut self.transcript {
            Some(t) => {
                let res = handle_buffer_ev(reactor, t, result, buf);
                proof {
                    let tv = b.log->Some_0;
                    lemma_log_after_write(tv, r0, result, t@, reactor@);
                    if reactor@ != r {
                        let w = reactor@.ops[r.next_id].0;
                        lemma_dir_submit(b.to_uart, r, b.tty, b.uart, Step::TtyRead, Step::UartWrite, w, Step::LogWrite);
                        lemma_dir_submit(b.to_tty, r, b.uart, b.tty, Step::UartRead, Step::TtyWrite, w, Step::LogWrite);
                    }
                }
                match res {
                    Ok(()) => Ok(Notice::Nothing),
                    Err(e) => Ok(Notice::LogFailed(e)),
                }
            },
            None => {
                proof {
                    assert(false);
                }
                Ok(Notice::Nothing)
            },
        };
        let ghost b1 = self@;
        let ghost r1 = reactor@;
        self.flush_log_if_finished(reactor);
        proof {
            assert(write_completed(b.log->Some_0, r, result, b1.log->Some_0, r1));
        }
        out
    }

    /// Takes the completion of `op` with `result` from the reactor and acts on
    /// it; `data` is the buffer that a read was submitted with. See
    /// [`completion_step`]. An error ends the bridge's run.
    pub fn handle_completion(&mut self, reactor: &mut Reactor<Step>, op: u64, result: i32, data: Vec<u8>) -> (out: Result<Notice, BridgeError>)
        requires
            old(reactor).wf(),
            old(reactor)@.room_for(3),
            old(self)@.inv(old(reactor)@),
        ensures
            final(reactor).wf(),
            out is Ok ==> final(self)@.inv(final(reactor)@),
            old(reactor)@.ops.contains_key(op) ==> completion_step(
                old(self)@,
                old(reactor)@.retire(op),
                op,
                old(reactor)@.ops[op].1,
                result,
                completion_bytes(old(reactor)@.ops[op].0, result, data@),
                final(self)@,
                final(reactor)@,
                out,
            ),
            !old(reactor)@.ops.contains_key(op) ==> {
                &&& out == Err::<Notice, BridgeError>(BridgeError::UnknownOp(op))
                &&& final(self)@ == old(self)@
                &&& final(reactor)@ == old(reactor)@
            },
    {
        let ghost r0 = reactor@;
        let ghost b = self@;
        match reactor.complete(op, result, data) {
            None => Err(BridgeError::UnknownOp(op)),
            Some(c) => {
                proof {
                    if b.to_uart.state is Writing && c.cont == Step::UartWrite {
                        assert(b.to_uart.owns(op));
                    }
                    if b.to_tty.state is Writing && c.cont == Step::TtyWrite {
                        assert(b.to_tty.owns(op));
                    }
                    if c.cont == Step::LogWrite {
                        assert(b.log->Some_0.op == op);
                    }
                }
                match c.cont {
                    Step::TtyRead => self.tty_read_done(reactor, c.result, c.buf, Ghost(r0), Ghost(op)),
                    Step::UartWrite => self.uart_write_done(reactor, c.result, c.buf, Ghost(r0), Ghost(op)),
                    Step::UartRead => self.uart_read_done(reactor, c.result, c.buf, Ghost(r0), Ghost(op)),
                    Step::TtyWrite => self.tty_write_done(reactor, c.result, c.buf, Ghost(r0), Ghost(op)),
                    Step::Cancel => {
                        self.handle_other_ev(reactor, op, Ghost(r0));
                        Ok(Notice::Nothing)
                    },
                    Step::LogWrite => self.log_write_done(reactor, c.result, c.buf, Ghost(r0), Ghost(op)),
                }
            },
        }
    }

    /// Where the console-to-UART direction stands.
    pub fn tty_state(&self) -> (s: State)
        ensures
            s == self@.to_uart.state,
    {
        self.tty_state
    }

    /// Where the UART-to-console direction stands.
    pub fn uart_state(&self) -> (s: State)
        ensures
            s == self@.to_tty.state,
    {
        self.uart_state
    }

    /// Both directions are finished.
    pub fn is_torn_down(&self) -> (r: bool)
        ensures
            r == self@.finished(),
    {
        self.tty_state == State::TornDown && self.uart_state == State::TornDown
    }

    /// The transcript, if there is one.
    pub fn transcript(&self) -> (t: &Option<Transcript>)
        ensures
            match *t {
                Some(x) => self@.log == Some(x@),
                None => self@.log is None,
            },
    {
        &self.transcript
    }
}


/// Echo fidelity: in each direction, the bytes delivered to the destination
/// are a prefix of the bytes read from the source, in order, and the rest is
/// exactly what the outstanding write carries; a reading direction has
/// delivered everything it read. A console read without the quit byte adds
/// exactly its bytes to what is received and writes exactly them to the UART.
pub proof fn echo_fidelity(b: BridgeView, r: ReactorView<Step>)
    requires
        b.consistent(r),
    ensures
        b.to_uart.received == b.to_uart.delivered + b.to_uart.undelivered(),
        b.to_tty.received == b.to_tty.delivered + b.to_tty.undelivered(),
        b.to_uart.state is Reading ==> b.to_uart.undelivered().len() == 0,
        b.to_tty.state is Reading ==> b.to_tty.undelivered().len() == 0,
        b.to_uart.state matches State::Writing(op) ==> r.ops[op].0 == (RequestView::Write {
            fd: b.uart,
            data: b.to_uart.undelivered(),
            offset: 0,
        }),
        b.to_tty.state matches State::Writing(op) ==> r.ops[op].0 == (RequestView::Write {
            fd: b.tty,
            data: b.to_tty.undelivered(),
            offset: 0,
        }),
{
    let d = b.to_uart;
    assert(d.received =~= d.received.take(d.delivered.len() as int) + d.undelivered());
    let e = b.to_tty;
    assert(e.received =~= e.received.take(e.delivered.len() as int) + e.undelivered());
}

/// Echo fidelity, one read: a console read of `bytes` that completes with a
/// positive count and holds no quit byte is forwarded whole, as the next
/// submission, and joins the end of what the direction has received.
pub proof fn console_read_forwarded(
    b: BridgeView,
    r: ReactorView<Step>,
    result: i32,
    bytes: Seq<u8>,
    b2: BridgeView,
    r2: ReactorView<Step>,
    out: Result<Notice, BridgeError>,
)
    requires
        b.to_uart.state is Reading,
        result > 0,
        !bytes.contains(CONTROL_O),
        tty_read_step(b, r, result, bytes, b2, r2, out),
    ensures
        out == Ok::<Notice, BridgeError>(Notice::Nothing),
        b2.to_uart.received == b.to_uart.received + bytes,
        b2.to_uart.delivered == b.to_uart.delivered,
        b2.to_uart.state == State::Writing(r.next_id),
        r2 == r.submit(RequestView::Write { fd: b.uart, data: bytes, offset: 0 }, Step::UartWrite),
{
}

/// Short-write convergence: a write that puts out `n` of its bytes, with
/// `0 < n` and some left, is followed by a write of exactly the remaining
/// bytes to the same destination; the first `n` count as delivered, nothing is
/// repeated or lost, and fewer bytes remain than before.
pub proof fn short_write_resubmits_remainder(
    d: DirView,
    r: ReactorView<Step>,
    n: int,
    src: i32,
    dst: i32,
    rs: Step,
    ws: Step,
)
    requires
        0 < n < d.undelivered().len(),
        d.delivered.len() <= d.received.len(),
        d.received.take(d.delivered.len() as int) == d.delivered,
    ensures
        ({
            let (d2, r2) = after_write(d, r, n, d.undelivered(), src, dst, rs, ws);
            &&& d2.delivered == d.delivered + d.undelivered().take(n)
            &&& d2.received == d.received
            &&& d2.undelivered() == d.undelivered().skip(n)
            &&& d2.undelivered().len() < d.undelivered().len()
            &&& d2.delivered + d2.undelivered() == d.delivered + d.undelivered()
            &&& d2.state == State::Writing(r.next_id)
            &&& r2 == r.submit(RequestView::Write { fd: dst, data: d.undelivered().skip(n), offset: 0 }, ws)
        }),
{
    let (d2, r2) = after_write(d, r, n, d.undelivered(), src, dst, rs, ws);
    let k = d.delivered.len() as int;
    assert(d.received =~= d.delivered + d.undelivered());
    assert(d2.undelivered() =~= d.undelivered().skip(n));
    assert(d2.delivered + d2.undelivered() =~= d.delivered + d.undelivered());
}

/// The quit byte is never forwarded: a console read holding it anywhere
/// leads to teardown, adds nothing to what the direction received, and no
/// write to the UART is among the operations submitted for it.
pub proof fn quit_sentinel_suppresses_forwarding(
    b: BridgeView,
    r: ReactorView<Step>,
    result: i32,
    bytes: Seq<u8>,
    b2: BridgeView,
    r2: ReactorView<Step>,
    out: Result<Notice, BridgeError>,
)
    requires
        b.to_uart.state is Reading,
        result > 0,
        bytes.contains(CONTROL_O),
        tty_read_step(b, r, result, bytes, b2, r2, out),
    ensures
        out == Ok::<Notice, BridgeError>(Notice::Quit),
        b2.to_uart.received == b.to_uart.received,
        b2.to_uart.state == State::TornDown || b2.to_uart.state is TearDown,
        forall|op: u64| #[trigger] r2.ops.contains_key(op) && !r.ops.contains_key(op) ==> r2.ops[op].1 != Step::UartWrite,
{
    let bp = b.with_to_uart(DirView { state: State::Processing, ..b.to_uart });
    lemma_teardown_submits_no_forwarding(bp, r, b2, r2);
}

/// Teardown submits only cancels and perhaps a log write.
proof fn lemma_teardown_submits_no_forwarding(b: BridgeView, r: ReactorView<Step>, b2: BridgeView, r2: ReactorView<Step>)
    requires
        torn_down(b, r, b2, r2),
    ensures
        forall|op: u64| #[trigger] r2.ops.contains_key(op) && !r.ops.contains_key(op) ==> r2.ops[op].1 == Step::Cancel || r2.ops[op].1 == Step::LogWrite,
        b2.to_uart.received == b.to_uart.received,
        b2.to_tty.received == b.to_tty.received,
        b2.to_uart.delivered == b.to_uart.delivered,
        b2.to_tty.delivered == b.to_tty.delivered,
        b.to_uart.state is Processing ==> b2.to_uart.state == State::TornDown,
        b.to_tty.state is Processing ==> b2.to_tty.state == State::TornDown,
{
    let (s1, r1) = dir_teardown(b.to_uart.state, r);
    let (s2, r_2) = dir_teardown(b.to_tty.state, r1);
    assert forall|op: u64| #[trigger] r2.ops.contains_key(op) && !r.ops.contains_key(op) implies r2.ops[op].1 == Step::Cancel || r2.ops[op].1 == Step::LogWrite by {
        if r_2.ops.contains_key(op) {
            if r1.ops.contains_key(op) {
                assert(r1.ops[op].1 == Step::Cancel);
            }
        }
    }
}

/// Disconnect detection: teardown gives each direction with an outstanding
/// read or write exactly one cancel, aimed at that operation, and finishes a
/// direction with nothing outstanding; no other read or write is submitted.
/// The cancel's completion then finishes its direction (see
/// [`cancel_finishes_direction`]), so both directions reach `TornDown` with
/// no further input. A zero-byte read or write on either endpoint leads here
/// (see [`tty_read_step`], [`uart_read_step`], [`uart_write_step`],
/// [`tty_write_step`]).
pub proof fn disconnect_tears_down(b: BridgeView, r: ReactorView<Step>, b2: BridgeView, r2: ReactorView<Step>)
    requires
        r.fresh(),
        r.room_for(3),
        torn_down(b, r, b2, r2),
    ensures
        forall|op: u64| b.to_uart.state == State::Reading(op) || b.to_uart.state == State::Writing(op) ==> {
            &&& b2.to_uart.state == State::TearDown(r.next_id)
            &&& r2.ops[r.next_id] == (RequestView::Cancel { target: op }, Step::Cancel)
            &&& !r.ops.contains_key(r.next_id)
        },
        forall|op: u64| b.to_tty.state == State::Reading(op) || b.to_tty.state == State::Writing(op) ==> {
            &&& b2.to_tty.state matches State::TearDown(c)
            &&& r2.ops.contains_key(c)
            &&& r2.ops[c] == (RequestView::Cancel { target: op }, Step::Cancel)
            &&& !r.ops.contains_key(c)
        },
        b.to_uart.state is Processing ==> b2.to_uart.state == State::TornDown,
        b.to_tty.state is Processing ==> b2.to_tty.state == State::TornDown,
        forall|op: u64| #[trigger] r2.ops.contains_key(op) && !r.ops.contains_key(op) ==> r2.ops[op].1 == Step::Cancel || r2.ops[op].1 == Step::LogWrite,
        forall|op: u64| #[trigger] r2.ops.contains_key(op) && !r.ops.contains_key(op) && r2.ops[op].1 == Step::Cancel ==> b2.to_uart.state == State::TearDown(op) || b2.to_tty.state == State::TearDown(op),
{
    lemma_teardown_submits_no_forwarding(b, r, b2, r2);
    let (s1, r1) = dir_teardown(b.to_uart.state, r);
    let (s2, r_2) = dir_teardown(b.to_tty.state, r1);
    assert(!r.ops.contains_key(r.next_id));
    assert(!r.ops.contains_key(r1.next_id));
    if s2 is TearDown {
        assert(r2 == r_2);
    }
    if b.to_uart.state is Reading || b.to_uart.state is Writing {
        assert(r2 == r_2);
        assert(r_2.ops[r.next_id] == r1.ops[r.next_id]);
    }
    assert forall|op: u64| #[trigger] r2.ops.contains_key(op) && !r.ops.contains_key(op) && r2.ops[op].1 == Step::Cancel implies b2.to_uart.state == State::TearDown(op) || b2.to_tty.state == State::TearDown(op) by {
        if r_2.ops.contains_key(op) {
            if r1.ops.contains_key(op) {
                assert(op == r.next_id);
            } else {
                assert(op == r1.next_id);
            }
        } else {
            assert(r2.ops[op].1 == Step::LogWrite);
        }
    }
}

/// The completion of a direction's cancel finishes that direction, whatever
/// the cancel's own result.
pub proof fn cancel_finishes_direction(b: BridgeView, r: ReactorView<Step>, op: u64, b2: BridgeView, r2: ReactorView<Step>)
    requires
        cancel_step(b, r, op, b2, r2),
    ensures
        b.to_uart.state == State::TearDown(op) ==> b2.to_uart.state == State::TornDown,
        b.to_tty.state == State::TearDown(op) ==> b2.to_tty.state == State::TornDown,
        b2.to_uart.received == b.to_uart.received,
        b2.to_tty.received == b.to_tty.received,
{
}


/// Nothing read is taken back or reordered: across any completion that does
/// not end the run, what each direction has received and what it has
/// delivered only grow, at their ends.
pub proof fn streams_only_grow(
    b: BridgeView,
    r: ReactorView<Step>,
    op: u64,
    cont: Step,
    result: i32,
    bytes: Seq<u8>,
    b2: BridgeView,
    r2: ReactorView<Step>,
    out: Result<Notice, BridgeError>,
)
    requires
        completion_step(b, r, op, cont, result, bytes, b2, r2, out),
        out is Ok,
    ensures
        b.to_uart.received.is_prefix_of(b2.to_uart.received),
        b.to_uart.delivered.is_prefix_of(b2.to_uart.delivered),
        b.to_tty.received.is_prefix_of(b2.to_tty.received),
        b.to_tty.delivered.is_prefix_of(b2.to_tty.delivered),
{
    let processing_uart = b.with_to_uart(DirView { state: State::Processing, ..b.to_uart });
    let processing_tty = b.with_to_tty(DirView { state: State::Processing, ..b.to_tty });
    match cont {
        Step::TtyRead => {
            if b.to_uart.state is Reading && result >= 0 {
                if result == 0 || bytes.contains(CONTROL_O) {
                    lemma_teardown_submits_no_forwarding(processing_uart, r, b2, r2);
                } else {
                    assert(b.to_uart.received.is_prefix_of(b.to_uart.received + bytes));
                }
            }
        },
        Step::UartRead => {
            if b.to_tty.state is Reading && result >= 0 {
                if result == 0 {
                    lemma_teardown_submits_no_forwarding(processing_tty, r, b2, r2);
                } else {
                    assert(b.to_tty.received.is_prefix_of(b.to_tty.received + bytes));
                }
            }
        },
        Step::UartWrite => {
            if b.to_uart.state is Writing && result >= 0 {
                if result == 0 {
                    lemma_teardown_submits_no_forwarding(processing_uart, r, b2, r2);
                } else if (result as int) < bytes.len() {
                    assert(b.to_uart.delivered.is_prefix_of(b.to_uart.delivered + bytes.take(result as int)));
                } else {
                    assert(b.to_uart.delivered.is_prefix_of(b.to_uart.delivered + bytes));
                }
            }
        },
        Step::TtyWrite => {
            if b.to_tty.state is Writing && result >= 0 {
                if result == 0 {
                    lemma_teardown_submits_no_forwarding(processing_tty, r, b2, r2);
                } else if (result as int) < bytes.len() {
                    assert(b.to_tty.delivered.is_prefix_of(b.to_tty.delivered + bytes.take(result as int)));
                } else {
                    assert(b.to_tty.delivered.is_prefix_of(b.to_tty.delivered + bytes));
                }
            }
        },
        _ => {},
    }
}

} // verus!
