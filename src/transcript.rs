use vstd::prelude::*;
use vstd::seq_lib::lemma_flatten_concat;

use std::collections::VecDeque;

use crate::reactor::{Reactor, ReactorView, RequestView};
use crate::uart_tty_sm::Step;

verus! {

broadcast use Seq::lemma_flatten_push;

/// The capacity of the working buffer; a full buffer is handed off to be written.
pub const TRANSCRIPT_BUFFER_SIZE: usize = 4096;

/// An append-only log of bytes, written to a file at increasing offsets
/// through the reactor, with at most one write outstanding.
pub struct Transcript {
    fd: i32,
    offset: usize,
    logged: usize,
    current_buf: Vec<u8>,
    flushing: bool,
    write_op: u64,
    bufs_to_be_flushed: VecDeque<Vec<u8>>,
    failed: bool,
    in_write: Ghost<Seq<u8>>,
}

/// The abstract state of a [`Transcript`].
pub struct TranscriptView {
    pub fd: i32,
    /// Bytes confirmed written: the next write goes to this offset.
    pub offset: nat,
    /// Bytes accepted so far, written or not.
    pub logged: nat,
    /// The working buffer.
    pub current: Seq<u8>,
    /// A write is outstanding.
    pub flushing: bool,
    /// The outstanding write's operation, while flushing.
    pub op: u64,
    /// The bytes of the outstanding write, while flushing.
    pub in_write: Seq<u8>,
    /// Filled buffers waiting for the outstanding write to finish.
    pub backlog: Seq<Seq<u8>>,
    /// A write failed: the log has stopped.
    pub failed: bool,
}

impl TranscriptView {
    /// The bytes accepted and not yet confirmed written, in file order.
    pub open spec fn pending(self) -> Seq<u8> {
        (if self.flushing {
            self.in_write
        } else {
            Seq::empty()
        }) + self.backlog.flatten() + self.current
    }

    pub open spec fn wf(self) -> bool {
        &&& self.current.len() < TRANSCRIPT_BUFFER_SIZE
        &&& forall|i: int| 0 <= i < self.backlog.len() ==> #[trigger] self.backlog[i].len() == TRANSCRIPT_BUFFER_SIZE
        &&& self.backlog.len() > 0 ==> self.flushing
        &&& self.flushing ==> self.in_write.len() > 0
        &&& !self.failed ==> self.logged == self.offset + self.pending().len()
        &&& self.logged <= usize::MAX
        &&& self.failed ==> !self.flushing && self.backlog.len() == 0 && self.current.len() == 0
    }

    /// While a write is outstanding, the reactor holds it: `in_write` at
    /// `offset`, with the log's continuation.
    pub open spec fn held_by(self, r: ReactorView<Step>) -> bool {
        self.flushing ==> {
            &&& r.ops.contains_key(self.op)
            &&& r.ops[self.op] == (
                RequestView::Write { fd: self.fd, data: self.in_write, offset: self.offset as usize },
                Step::LogWrite,
            )
        }
    }

    /// The state after a write of `data` was submitted as `op`.
    pub open spec fn writing(self, op: u64, data: Seq<u8>) -> TranscriptView {
        TranscriptView { flushing: true, op, in_write: data, ..self }
    }
}

/// The effect of appending `bytes`: they join the end of the pending bytes;
/// a write starts only when none is outstanding and the working buffer fills,
/// and it carries exactly the first full buffer. Bytes that would take the log
/// past the largest offset are dropped, and a stopped log takes nothing.
pub open spec fn appended(
    t: TranscriptView,
    r: ReactorView<Step>,
    bytes: Seq<u8>,
    t2: TranscriptView,
    r2: ReactorView<Step>,
) -> bool {
    if t.failed || t.logged + bytes.len() > usize::MAX {
        t2 == t && r2 == r
    } else {
        &&& t2.pending() == t.pending() + bytes
        &&& t2.logged == t.logged + bytes.len()
        &&& t2.offset == t.offset
        &&& t2.fd == t.fd
        &&& !t2.failed
        &&& if t.flushing {
            &&& r2 == r
            &&& t2.flushing
            &&& t2.op == t.op
            &&& t2.in_write == t.in_write
        } else if t.current.len() + bytes.len() < TRANSCRIPT_BUFFER_SIZE {
            &&& r2 == r
            &&& !t2.flushing
            &&& t2.backlog.len() == 0
            &&& t2.current == t.current + bytes
        } else {
            &&& t2.flushing
            &&& t2.op == r.next_id
            &&& t2.in_write == (t.current + bytes).take(TRANSCRIPT_BUFFER_SIZE as int)
            &&& r2 == r.submit(
                RequestView::Write { fd: t.fd, data: t2.in_write, offset: t.offset as usize },
                Step::LogWrite,
            )
        }
    }
}

/// The effect of starting teardown: when no write is outstanding and the
/// working buffer holds bytes, they are written at once; otherwise nothing.
pub open spec fn flushed(
    t: TranscriptView,
    r: ReactorView<Step>,
    t2: TranscriptView,
    r2: ReactorView<Step>,
) -> bool {
    if !t.failed && !t.flushing && t.current.len() > 0 {
        &&& t2 == TranscriptView { current: Seq::empty(), ..t.writing(r.next_id, t.current) }
        &&& r2 == r.submit(
            RequestView::Write { fd: t.fd, data: t.current, offset: t.offset as usize },
            Step::LogWrite,
        )
    } else {
        t2 == t && r2 == r
    }
}

/// The effect of the outstanding write completing with `result`: a zero or
/// negative result stops the log; otherwise the offset advances by the bytes
/// written, and the remainder of a short write, or else the next filled
/// buffer, is written at the new offset.
pub open spec fn write_completed(
    t: TranscriptView,
    r: ReactorView<Step>,
    result: i32,
    t2: TranscriptView,
    r2: ReactorView<Step>,
) -> bool {
    if result <= 0 {
        &&& t2 == TranscriptView {
            flushing: false,
            failed: true,
            backlog: Seq::empty(),
            current: Seq::empty(),
            ..t
        }
        &&& r2 == r
    } else {
        let n = if result as int <= t.in_write.len() {
            result as int
        } else {
            t.in_write.len() as int
        };
        let t1 = TranscriptView { offset: (t.offset + n) as nat, ..t };
        if n < t.in_write.len() {
            &&& t2 == t1.writing(r.next_id, t.in_write.skip(n))
            &&& r2 == r.submit(
                RequestView::Write { fd: t.fd, data: t.in_write.skip(n), offset: t1.offset as usize },
                Step::LogWrite,
            )
        } else if t.backlog.len() > 0 {
            &&& t2 == TranscriptView { backlog: t.backlog.drop_first(), ..t1.writing(r.next_id, t.backlog[0]) }
            &&& r2 == r.submit(
                RequestView::Write { fd: t.fd, data: t.backlog[0], offset: t1.offset as usize },
                Step::LogWrite,
            )
        } else {
            &&& t2 == TranscriptView { flushing: false, ..t1 }
            &&& r2 == r
        }
    }
}

impl View for Transcript {
    type V = TranscriptView;

    closed spec fn view(&self) -> TranscriptView {
        TranscriptView {
            fd: self.fd,
            offset: self.offset as nat,
            logged: self.logged as nat,
            current: self.current_buf@,
            flushing: self.flushing,
            op: self.write_op,
            in_write: self.in_write@,
            backlog: self.bufs_to_be_flushed@.map_values(|b: Vec<u8>| b@),
            failed: self.failed,
        }
    }
}

impl Transcript {
    /// An empty log that writes to `fd` from offset 0.
    pub fn new(fd: i32) -> (t: Transcript)
        ensures
            t@.wf(),
            t@.fd == fd,
            t@.offset == 0,
            t@.logged == 0,
            t@.current.len() == 0,
            !t@.flushing,
            t@.backlog.len() == 0,
            !t@.failed,
    {
        let t = Transcript {
            fd,
            offset: 0,
            logged: 0,
            current_buf: Vec::with_capacity(TRANSCRIPT_BUFFER_SIZE),
            flushing: false,
            write_op: 0,
            bufs_to_be_flushed: VecDeque::new(),
            failed: false,
            in_write: Ghost(Seq::empty()),
        };
        proof {
            assert(t@.backlog =~= Seq::<Seq<u8>>::empty());
            assert(t@.pending() =~= Seq::<u8>::empty());
        }
        t
    }

    /// The file offset up to which bytes are confirmed written.
    pub fn offset(&self) -> (r: usize)
        ensures
            r == self@.offset,
    {
        self.offset
    }

    /// The number of bytes in the working buffer.
    pub fn current_len(&self) -> (r: usize)
        ensures
            r == self@.current.len(),
    {
        self.current_buf.len()
    }

    /// The number of filled buffers waiting for the outstanding write.
    pub fn backlog_len(&self) -> (r: usize)
        ensures
            r == self@.backlog.len(),
    {
        self.bufs_to_be_flushed.len()
    }

    /// A write is outstanding.
    pub fn is_flushing(&self) -> (r: bool)
        ensures
            r == self@.flushing,
    {
        self.flushing
    }

    /// A write has failed and the log has stopped.
    pub fn has_failed(&self) -> (r: bool)
        ensures
            r == self@.failed,
    {
        self.failed
    }
}

/// Appends `src[from..to]` to `dst`.
fn extend_range(dst: &mut Vec<u8>, src: &[u8], from: usize, to: usize)
    requires
        from <= to <= src@.len(),
    ensures
        final(dst)@ == old(dst)@ + src@.subrange(from as int, to as int),
{
    let mut i = from;
    while i < to
        invariant
            from <= i <= to <= src@.len(),
            dst@ == old(dst)@ + src@.subrange(from as int, i as int),
        decreases to - i,
    {
        dst.push(src[i]);
        i += 1;
        proof {
            assert(dst@ =~= old(dst)@ + src@.subrange(from as int, i as int));
        }
    }
}

/// Submits `buf` as the log's one outstanding write, at the current offset.
fn write_buf(reactor: &mut Reactor<Step>, transcript: &mut Transcript, buf: Vec<u8>)
    requires
        old(reactor).wf(),
        old(reactor)@.room_for(1),
    ensures
        final(reactor).wf(),
        final(reactor)@ == old(reactor)@.submit(
            RequestView::Write { fd: old(transcript)@.fd, data: buf@, offset: old(transcript)@.offset as usize },
            Step::LogWrite,
        ),
        final(transcript)@ == old(transcript)@.writing(old(reactor)@.next_id, buf@),
{
    let ghost data = buf@;
    transcript.flushing = true;
    transcript.in_write = Ghost(data);
    transcript.write_op = reactor.write(transcript.fd, buf, transcript.offset, Step::LogWrite);
}

/// Moves the bytes of `buf` from `from` on into the working buffer until it
/// fills or `buf` ends, and hands a full working buffer off to be written.
fn absorb(reactor: &mut Reactor<Step>, transcript: &mut Transcript, buf: &[u8], from: usize) -> (next: usize)
    requires
        old(reactor).wf(),
        !old(transcript)@.flushing ==> old(reactor)@.room_for(1),
        old(transcript)@.wf(),
        !old(transcript)@.failed,
        from < buf@.len(),
        old(transcript)@.logged + (buf@.len() - from) <= usize::MAX,
    ensures
        from < next <= buf@.len(),
        final(reactor).wf(),
        final(transcript)@.wf(),
        !final(transcript)@.failed,
        final(transcript)@.pending() == old(transcript)@.pending() + buf@.subrange(from as int, next as int),
        final(transcript)@.logged == old(transcript)@.logged + (next - from),
        final(transcript)@.offset == old(transcript)@.offset,
        final(transcript)@.fd == old(transcript)@.fd,
        if old(transcript)@.flushing {
            &&& final(reactor)@ == old(reactor)@
            &&& final(transcript)@.flushing
            &&& final(transcript)@.op == old(transcript)@.op
            &&& final(transcript)@.in_write == old(transcript)@.in_write
        } else if !final(transcript)@.flushing {
            &&& final(reactor)@ == old(reactor)@
            &&& final(transcript)@.backlog.len() == 0
            &&& final(transcript)@.current == old(transcript)@.current + buf@.subrange(from as int, next as int)
            &&& next == buf@.len()
        } else {
            &&& final(transcript)@.op == old(reactor)@.next_id
            &&& final(transcript)@.in_write == old(transcript)@.current + buf@.subrange(from as int, next as int)
            &&& final(transcript)@.in_write.len() == TRANSCRIPT_BUFFER_SIZE
            &&& final(reactor)@ == old(reactor)@.submit(
                RequestView::Write {
                    fd: old(transcript)@.fd,
                    data: final(transcript)@.in_write,
                    offset: old(transcript)@.offset as usize,
                },
                Step::LogWrite,
            )
        },
{
    let room = TRANSCRIPT_BUFFER_SIZE - transcript.current_buf.len();
    let rest = buf.len() - from;
    let ghost before = transcript@;
    if rest < room {
        extend_range(&mut transcript.current_buf, buf, from, buf.len());
        transcript.logged = transcript.logged + rest;
        proof {
            assert(transcript@.pending() =~= before.pending() + buf@.subrange(from as int, buf@.len() as int));
        }
        return buf.len();
    }
    let next = from + room;
    extend_range(&mut transcript.current_buf, buf, from, next);
    transcript.logged = transcript.logged + room;
    let ghost mid = transcript@;
    proof {
        assert(mid.pending() =~= before.pending() + buf@.subrange(from as int, next as int));
    }
    let mut full: Vec<u8> = Vec::with_capacity(TRANSCRIPT_BUFFER_SIZE);
    std::mem::swap(&mut full, &mut transcript.current_buf);
    if transcript.flushing {
        transcript.bufs_to_be_flushed.push_back(full);
        proof {
            let b = transcript@.backlog;
            assert(b =~= mid.backlog.push(mid.current));
            assert(b.flatten() =~= mid.backlog.flatten() + mid.current);
            assert(transcript@.pending() =~= mid.pending());
        }
    } else {
        write_buf(reactor, transcript, full);
        proof {
            assert(mid.backlog =~= Seq::<Seq<u8>>::empty());
            assert(transcript@.pending() =~= mid.pending());
        }
    }
    next
}

/// Appends `buf` to the log without blocking: full buffers are handed off to
/// be written, at most one write is outstanding, and the rest wait in order.
pub fn log_to_transcript(reactor: &mut Reactor<Step>, transcript: &mut Transcript, buf: &[u8])
    requires
        old(reactor).wf(),
        old(reactor)@.room_for(1),
        old(transcript)@.wf(),
    ensures
        final(reactor).wf(),
        final(transcript)@.wf(),
        appended(old(transcript)@, old(reactor)@, buf@, final(transcript)@, final(reactor)@),
{
    if transcript.failed || buf.len() > usize::MAX - transcript.logged {
        return;
    }
    let ghost t0 = old(transcript)@;
    let ghost r0 = old(reactor)@;
    let ghost joined = t0.current + buf@;
    let mut i: usize = 0;
    while i < buf.len()
        invariant
            i <= buf@.len(),
            reactor.wf(),
            transcript@.wf(),
            !t0.failed,
            !transcript@.failed,
            transcript@.pending() == t0.pending() + buf@.take(i as int),
            transcript@.logged == t0.logged + i,
            t0.logged + buf@.len() <= usize::MAX,
            transcript@.offset == t0.offset,
            transcript@.fd == t0.fd,
            r0.room_for(1),
            joined == t0.current + buf@,
            if t0.flushing {
                &&& reactor@ == r0
                &&& transcript@.flushing
                &&& transcript@.op == t0.op
                &&& transcript@.in_write == t0.in_write
            } else if !transcript@.flushing {
                &&& reactor@ == r0
                &&& transcript@.backlog.len() == 0
                &&& transcript@.current == joined.take(t0.current.len() + i)
            } else {
                &&& t0.current.len() + i >= TRANSCRIPT_BUFFER_SIZE
                &&& transcript@.op == r0.next_id
                &&& transcript@.in_write == joined.take(TRANSCRIPT_BUFFER_SIZE as int)
                &&& reactor@ == r0.submit(
                    RequestView::Write { fd: t0.fd, data: transcript@.in_write, offset: t0.offset as usize },
                    Step::LogWrite,
                )
            },
        decreases buf@.len() - i,
    {
        let ghost before = transcript@;
        let next = absorb(reactor, transcript, buf, i);
        proof {
            assert(buf@.take(next as int) =~= buf@.take(i as int) + buf@.subrange(i as int, next as int));
            if !t0.flushing && !before.flushing {
                assert(joined.take(t0.current.len() + next) =~= joined.take(t0.current.len() + i) + buf@.subrange(i as int, next as int));
            }
        }
        i = next;
    }
    proof {
        assert(buf@.take(buf@.len() as int) =~= buf@);
        assert(joined.take(t0.current.len() + buf@.len() as int) =~= joined);
    }
}

/// Starts the log's teardown: with no write outstanding, the working buffer
/// is written at once if it holds bytes; an outstanding write drains the
/// backlog by itself.
pub fn flush_transcript(reactor: &mut Reactor<Step>, transcript: &mut Transcript)
    requires
        old(reactor).wf(),
        old(reactor)@.room_for(1),
        old(transcript)@.wf(),
    ensures
        final(reactor).wf(),
        final(transcript)@.wf(),
        flushed(old(transcript)@, old(reactor)@, final(transcript)@, final(reactor)@),
{
    if transcript.failed || transcript.flushing || transcript.current_buf.len() == 0 {
        return;
    }
    let mut buf: Vec<u8> = Vec::with_capacity(TRANSCRIPT_BUFFER_SIZE);
    std::mem::swap(&mut buf, &mut transcript.current_buf);
    write_buf(reactor, transcript, buf);
    proof {
        let t = old(transcript)@;
        assert(t.backlog.len() == 0);
        assert(transcript@ == TranscriptView { current: Seq::empty(), ..t.writing(old(reactor)@.next_id, t.current) });
        assert(t.backlog =~= Seq::<Seq<u8>>::empty());
        assert(transcript@.pending() =~= t.pending());
    }
}

/// Handles the completion of the log's outstanding write, whose bytes come
/// back as `buf`. A zero or negative result stops the log and is returned as
/// the error.
pub fn handle_buffer_ev(reactor: &mut Reactor<Step>, transcript: &mut Transcript, result: i32, buf: Vec<u8>) -> (r: Result<(), i32>)
    requires
        old(reactor).wf(),
        old(reactor)@.room_for(1),
        old(transcript)@.wf(),
        old(transcript)@.flushing,
        buf@ == old(transcript)@.in_write,
    ensures
        final(reactor).wf(),
        final(transcript)@.wf(),
        write_completed(old(transcript)@, old(reactor)@, result, final(transcript)@, final(reactor)@),
        r == (if result <= 0 { Err(result) } else { Ok::<(), i32>(()) }),
        result > 0 ==> {
            let n = final(transcript)@.offset - old(transcript)@.offset;
            &&& 0 < n <= old(transcript)@.in_write.len()
            &&& final(transcript)@.pending() == old(transcript)@.pending().skip(n)
        },
{
    let ghost t = old(transcript)@;
    if result <= 0 {
        transcript.failed = true;
        transcript.flushing = false;
        transcript.bufs_to_be_flushed = VecDeque::new();
        transcript.current_buf = Vec::new();
        proof {
            assert(transcript@.backlog =~= Seq::<Seq<u8>>::empty());
            assert(transcript@.current =~= Seq::<u8>::empty());
            assert(transcript@ =~= TranscriptView {
                flushing: false,
                failed: true,
                backlog: Seq::empty(),
                current: Seq::empty(),
                ..t
            });
        }
        return Err(result);
    }
    let mut buf = buf;
    let n: usize = if (result as usize) < buf.len() {
        result as usize
    } else {
        buf.len()
    };
    proof {
        assert(t.pending() =~= t.in_write + (t.backlog.flatten() + t.current));
    }
    transcript.offset = transcript.offset + n;
    if n < buf.len() {
        let rest = buf.split_off(n);
        write_buf(reactor, transcript, rest);
        proof {
            assert(transcript@.pending() =~= t.pending().skip(n as int));
        }
        return Ok(());
    }
    match transcript.bufs_to_be_flushed.pop_front() {
        Some(next) => {
            let ghost b = t.backlog;
            write_buf(reactor, transcript, next);
            proof {
                assert(transcript@.backlog =~= b.drop_first());
                assert(b.flatten() == b[0] + b.drop_first().flatten());
                assert(transcript@.pending() =~= t.pending().skip(n as int));
            }
        },
        None => {
            transcript.flushing = false;
            proof {
                assert(t.backlog =~= Seq::<Seq<u8>>::empty());
                assert(transcript@.pending() =~= t.pending().skip(n as int));
            }
        },
    }
    Ok(())
}


/// A log as [`Transcript::new`] makes it, writing to `fd`.
pub open spec fn fresh_log(t: TranscriptView, fd: i32) -> bool {
    &&& t.fd == fd
    &&& t.offset == 0
    &&& t.logged == 0
    &&& t.current.len() == 0
    &&& !t.flushing
    &&& t.backlog.len() == 0
    &&& !t.failed
}

/// Coalescing: appending buffers that together hold fewer bytes than the
/// working buffer's capacity to a fresh log submits no write; teardown then
/// submits exactly one write, of all those bytes in order, at offset 0.
/// `ts` and `rs` are the log and reactor states before and after each append.
pub proof fn log_coalescing(
    ts: Seq<TranscriptView>,
    rs: Seq<ReactorView<Step>>,
    bufs: Seq<Seq<u8>>,
    t_end: TranscriptView,
    r_end: ReactorView<Step>,
)
    requires
        ts.len() == bufs.len() + 1,
        rs.len() == bufs.len() + 1,
        fresh_log(ts[0], ts[0].fd),
        bufs.flatten().len() < TRANSCRIPT_BUFFER_SIZE,
        forall|i: int| 0 <= i < bufs.len() ==> #[trigger] appended(ts[i], rs[i], bufs[i], ts[i + 1], rs[i + 1]),
        flushed(ts[bufs.len() as int], rs[bufs.len() as int], t_end, r_end),
    ensures
        forall|i: int| 0 <= i <= bufs.len() ==> #[trigger] rs[i] == rs[0],
        ts[bufs.len() as int].current == bufs.flatten(),
        bufs.flatten().len() > 0 ==> r_end == rs[0].submit(
            RequestView::Write { fd: ts[0].fd, data: bufs.flatten(), offset: 0 },
            Step::LogWrite,
        ),
        bufs.flatten().len() == 0 ==> r_end == rs[0],
{
    let n = bufs.len() as int;
    lemma_coalescing_upto(ts, rs, bufs, n);
    assert(bufs.take(n) =~= bufs);
}

/// The first `i` appends of [`log_coalescing`] submit nothing and leave
/// their bytes in the working buffer.
proof fn lemma_coalescing_upto(ts: Seq<TranscriptView>, rs: Seq<ReactorView<Step>>, bufs: Seq<Seq<u8>>, i: int)
    requires
        0 <= i <= bufs.len(),
        ts.len() == bufs.len() + 1,
        rs.len() == bufs.len() + 1,
        fresh_log(ts[0], ts[0].fd),
        bufs.flatten().len() < TRANSCRIPT_BUFFER_SIZE,
        forall|k: int| 0 <= k < bufs.len() ==> #[trigger] appended(ts[k], rs[k], bufs[k], ts[k + 1], rs[k + 1]),
    ensures
        forall|k: int| 0 <= k <= i ==> #[trigger] rs[k] == rs[0],
        ts[i].current == bufs.take(i).flatten(),
        !ts[i].flushing,
        !ts[i].failed,
        ts[i].offset == 0,
        ts[i].logged == bufs.take(i).flatten().len(),
        ts[i].fd == ts[0].fd,
    decreases i,
{
    if i == 0 {
        assert(bufs.take(0) =~= Seq::<Seq<u8>>::empty());
    } else {
        let j = i - 1;
        lemma_coalescing_upto(ts, rs, bufs, j);
        assert(bufs.take(i) =~= bufs.take(j).push(bufs[j]));
        assert(bufs.take(i).flatten() =~= bufs.take(j).flatten() + bufs[j]);
        lemma_flatten_concat(bufs.take(i), bufs.skip(i));
        assert(bufs.take(i) + bufs.skip(i) =~= bufs);
        assert(appended(ts[j], rs[j], bufs[j], ts[i], rs[i]));
    }
}

/// Ordering: each write of the log starts where the bytes confirmed before
/// it end and carries the next bytes in append order. When a write puts `n`
/// bytes out, the offset advances by exactly `n`, those bytes are the first
/// `n` pending ones and leave the front, and any following write starts at the
/// new offset with the bytes that now come first, however many full buffers
/// wait behind it.
pub proof fn log_writes_in_order(
    t: TranscriptView,
    r: ReactorView<Step>,
    result: i32,
    t2: TranscriptView,
    r2: ReactorView<Step>,
)
    requires
        t.wf(),
        t.flushing,
        result > 0,
        write_completed(t, r, result, t2, r2),
    ensures
        t.offset < t2.offset <= t.offset + t.in_write.len(),
        t.pending().take(t2.offset - t.offset) == t.in_write.take(t2.offset - t.offset),
        t2.pending() == t.pending().skip(t2.offset - t.offset),
        t2.logged == t.logged,
        t2.flushing ==> {
            &&& t2.in_write == t2.pending().take(t2.in_write.len() as int)
            &&& r2 == r.submit(
                RequestView::Write { fd: t.fd, data: t2.in_write, offset: t2.offset as usize },
                Step::LogWrite,
            )
        },
        !t2.flushing ==> r2 == r && t2.backlog.len() == 0,
{
    let n = t2.offset - t.offset;
    assert(t.pending() =~= t.in_write + (t.backlog.flatten() + t.current));
    assert(t.pending().take(n) =~= t.in_write.take(n));
    if n < t.in_write.len() {
        assert(t2.pending() =~= t.pending().skip(n));
        assert(t2.in_write =~= t2.pending().take(t2.in_write.len() as int));
    } else if t.backlog.len() > 0 {
        assert(t.backlog.flatten() == t.backlog[0] + t.backlog.drop_first().flatten());
        assert(t2.pending() =~= t.pending().skip(n));
        assert(t2.in_write =~= t2.pending().take(t2.in_write.len() as int));
    } else {
        assert(t.backlog =~= Seq::<Seq<u8>>::empty());
        assert(t2.pending() =~= t.pending().skip(n));
    }
}

} // verus!
