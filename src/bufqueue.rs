use vstd::prelude::*;

use std::collections::VecDeque;

verus! {

broadcast use Seq::lemma_flatten_push;

/// The queue's reserved capacity is shrunk back to this once it drains.
const BUF_QUEUE_SIZE: usize = 4;

/// Bytes are coalesced into the last queued buffer while it stays under this size.
pub const MAX_BUF_SIZE: usize = 4096;

/// Why a write to a [`Sink`] put nothing out.
pub enum WriteError {
    /// The sink cannot take bytes now; try again later.
    WouldBlock,
    /// Any other failure.
    Failed(std::io::Error),
}

/// A destination that takes some prefix of the bytes offered to it.
pub trait Sink {
    /// Writes a prefix of `buf` and returns its length.
    fn write(&mut self, buf: &[u8]) -> (r: Result<usize, WriteError>)
        ensures
            r matches Ok(n) ==> n <= buf@.len(),
    ;
}

/// The abstract state of a [`BufQueue`]: the queued buffers, front first, and
/// how much of the front one is already written.
pub struct QueueView {
    pub bufs: Seq<Seq<u8>>,
    pub written: nat,
}

impl QueueView {
    /// The bytes still to be written, in order.
    pub open spec fn pending(self) -> Seq<u8> {
        self.bufs.flatten().skip(self.written as int)
    }

    /// Queued buffers are non-empty, and the written part of the front one
    /// is shorter than it.
    pub open spec fn wf(self) -> bool {
        &&& forall|i: int| 0 <= i < self.bufs.len() ==> #[trigger] self.bufs[i].len() > 0
        &&& if self.bufs.len() > 0 {
            self.written < self.bufs[0].len()
        } else {
            self.written == 0
        }
    }

    /// The unwritten part of the front buffer.
    pub open spec fn front_rest(self) -> Seq<u8> {
        self.bufs[0].skip(self.written as int)
    }
}

/// The queue after `b` is enqueued: an empty `b` changes nothing; `b` is
/// joined to the last queued buffer while that stays under [`MAX_BUF_SIZE`],
/// and is queued as a buffer of its own otherwise.
pub open spec fn enqueued(bufs: Seq<Seq<u8>>, b: Seq<u8>) -> Seq<Seq<u8>> {
    if b.len() == 0 {
        bufs
    } else if bufs.len() == 0 {
        seq![b]
    } else if bufs.last().len() + b.len() < MAX_BUF_SIZE {
        bufs.update(bufs.len() - 1, bufs.last() + b)
    } else {
        bufs.push(b)
    }
}

/// Enqueueing keeps the queue well formed and puts `b` after every byte
/// already pending.
pub proof fn lemma_enqueued_pending(v: QueueView, b: Seq<u8>)
    requires
        v.wf(),
    ensures
        (QueueView { bufs: enqueued(v.bufs, b), written: v.written }).wf(),
        (QueueView { bufs: enqueued(v.bufs, b), written: v.written }).pending() == v.pending() + b,
{
    let bufs = v.bufs;
    let v2 = QueueView { bufs: enqueued(bufs, b), written: v.written };
    if b.len() == 0 {
        assert(v.pending() + b =~= v.pending());
    } else if bufs.len() == 0 {
        assert(seq![b].flatten() == b + Seq::<Seq<u8>>::empty().flatten());
        assert(v2.pending() =~= b);
        assert(v.pending() =~= Seq::<u8>::empty());
        assert(v.pending() + b =~= b);
    } else {
        assert(bufs.flatten() == bufs[0] + bufs.drop_first().flatten());
        let init = bufs.drop_last();
        assert(bufs =~= init.push(bufs.last()));
        if bufs.last().len() + b.len() < MAX_BUF_SIZE {
            assert(v2.bufs =~= init.push(bufs.last() + b));
            assert(v2.bufs.flatten() =~= bufs.flatten() + b);
        } else {
            assert(v2.bufs.flatten() =~= bufs.flatten() + b);
        }
        assert(v2.pending() =~= v.pending() + b);
    }
}

/// A queue of bytes that could not be written at once, drained when the
/// sink is ready again.
pub struct BufQueue {
    queue: VecDeque<Vec<u8>>,
    written: usize,
}

impl View for BufQueue {
    type V = QueueView;

    closed spec fn view(&self) -> QueueView {
        QueueView { bufs: self.queue@.map_values(|b: Vec<u8>| b@), written: self.written as nat }
    }
}

/// Relies on `VecDeque::shrink_to`, which changes the reserved capacity and
/// never the contents.
#[verifier::external_body]
fn shrink_queue(queue: &mut VecDeque<Vec<u8>>, min_capacity: usize)
    ensures
        final(queue)@ == old(queue)@,
{
    queue.shrink_to(min_capacity)
}

/// A vector holding the bytes of `src` from `from` on.
fn tail_vec(src: &[u8], from: usize) -> (r: Vec<u8>)
    requires
        from <= src@.len(),
    ensures
        r@ == src@.skip(from as int),
{
    let mut r: Vec<u8> = Vec::with_capacity(src.len() - from);
    let mut i = from;
    while i < src.len()
        invariant
            from <= i <= src@.len(),
            r@ == src@.subrange(from as int, i as int),
        decreases src@.len() - i,
    {
        r.push(src[i]);
        i += 1;
        proof {
            assert(r@ =~= src@.subrange(from as int, i as int));
        }
    }
    r
}

impl BufQueue {
    pub fn new() -> (q: BufQueue)
        ensures
            q@.wf(),
            q@.bufs.len() == 0,
    {
        let q = BufQueue { queue: VecDeque::new(), written: 0 };
        proof {
            assert(q@.bufs =~= Seq::<Seq<u8>>::empty());
        }
        q
    }

    /// Nothing is waiting to be written.
    pub fn is_empty(&self) -> (r: bool)
        ensures
            r == (self@.bufs.len() == 0),
    {
        self.queue.len() == 0
    }

    /// Queues the bytes of `buf` from `from` on, after every byte already
    /// queued; see [`enqueued`].
    fn enqueue(&mut self, buf: &[u8], from: usize)
        requires
            old(self)@.wf(),
            from <= buf@.len(),
        ensures
            final(self)@.wf(),
            final(self)@.bufs == enqueued(old(self)@.bufs, buf@.skip(from as int)),
            final(self)@.written == old(self)@.written,
            final(self)@.pending() == old(self)@.pending() + buf@.skip(from as int),
    {
        let ghost b = buf@.skip(from as int);
        let ghost old_bufs = self@.bufs;
        proof {
            lemma_enqueued_pending(old(self)@, b);
        }
        if from == buf.len() {
            return;
        }
        match self.queue.pop_back() {
            None => {
                self.queue.push_back(tail_vec(buf, from));
                proof {
                    assert(self@.bufs =~= seq![b]);
                }
            },
            Some(mut last) => {
                if last.len() < MAX_BUF_SIZE && buf.len() - from < MAX_BUF_SIZE - last.len() {
                    let mut i = from;
                    while i < buf.len()
                        invariant
                            from <= i <= buf@.len(),
                            last@ == old_bufs.last() + buf@.subrange(from as int, i as int),
                        decreases buf@.len() - i,
                    {
                        last.push(buf[i]);
                        i += 1;
                        proof {
                            assert(last@ =~= old_bufs.last() + buf@.subrange(from as int, i as int));
                        }
                    }
                    self.queue.push_back(last);
                    proof {
                        assert(buf@.subrange(from as int, buf@.len() as int) =~= b);
                        assert(self@.bufs =~= old_bufs.update(old_bufs.len() - 1, old_bufs.last() + b));
                    }
                } else {
                    self.queue.push_back(last);
                    self.queue.push_back(tail_vec(buf, from));
                    proof {
                        assert(self@.bufs =~= old_bufs.push(b));
                    }
                }
            },
        }
    }

    /// Accounts for an attempt to write `buf` to the sink, made while the
    /// queue was empty, that returned `res`: a full write leaves nothing
    /// queued, a short one queues the rest, "would block" queues all of it,
    /// and any other failure is returned.
    pub fn record_write(&mut self, buf: &[u8], res: Result<usize, WriteError>) -> (r: Result<(), std::io::Error>)
        requires
            old(self)@.wf(),
            old(self)@.bufs.len() == 0,
            res matches Ok(n) ==> n <= buf@.len(),
        ensures
            final(self)@.wf(),
            final(self)@.written == 0,
            match res {
                Ok(n) => {
                    &&& r is Ok
                    &&& final(self)@.bufs == enqueued(old(self)@.bufs, buf@.skip(n as int))
                    &&& final(self)@.pending() == buf@.skip(n as int)
                },
                Err(WriteError::WouldBlock) => {
                    &&& r is Ok
                    &&& final(self)@.bufs == enqueued(old(self)@.bufs, buf@)
                    &&& final(self)@.pending() == buf@
                },
                Err(WriteError::Failed(e)) => r matches Err(e2) && e2 == e && final(self)@ == old(self)@,
            },
    {
        proof {
            assert(old(self)@.pending() =~= Seq::<u8>::empty());
            assert(buf@.skip(0) =~= buf@);
        }
        match res {
            Ok(n) => {
                self.enqueue(buf, n);
                proof {
                    assert(Seq::<u8>::empty() + buf@.skip(n as int) =~= buf@.skip(n as int));
                }
                Ok(())
            },
            Err(WriteError::WouldBlock) => {
                self.enqueue(buf, 0);
                proof {
                    assert(Seq::<u8>::empty() + buf@ =~= buf@);
                }
                Ok(())
            },
            Err(WriteError::Failed(e)) => Err(e),
        }
    }

    /// Writes `buf` to `writable` at once if nothing is queued, and queues
    /// what could not be written; with bytes already queued, `buf` is queued
    /// behind them without writing. Only a failure other than "would block"
    /// is returned, and then nothing was queued.
    pub fn try_write_or_enqueue<T: Sink>(&mut self, buf: &[u8], mut writable: T) -> (r: Result<(), std::io::Error>)
        requires
            old(self)@.wf(),
        ensures
            final(self)@.wf(),
            old(self)@.bufs.len() > 0 ==> {
                &&& r is Ok
                &&& final(self)@ == (QueueView { bufs: enqueued(old(self)@.bufs, buf@), written: old(self)@.written })
                &&& final(self)@.pending() == old(self)@.pending() + buf@
            },
            old(self)@.bufs.len() == 0 ==> {
                ||| r is Ok && final(self)@.bufs.len() == 0
                ||| r is Ok && exists|k: int| 0 <= k < buf@.len() && final(self)@ == (QueueView {
                    bufs: seq![#[trigger] buf@.skip(k)],
                    written: 0,
                })
                ||| r is Err && final(self)@ == old(self)@
            },
    {
        if self.queue.len() > 0 {
            self.enqueue(buf, 0);
            proof {
                assert(buf@.skip(0) =~= buf@);
            }
            return Ok(());
        }
        let res = writable.write(buf);
        let ghost k: int = match res {
            Ok(n) => n as int,
            Err(_) => 0,
        };
        let r = self.record_write(buf, res);
        proof {
            if r is Ok && self@.bufs.len() > 0 {
                assert(buf@.skip(0) =~= buf@);
                assert(self@ == (QueueView { bufs: seq![buf@.skip(k)], written: 0 }));
            }
        }
        r
    }

    /// The unwritten part of the front buffer: what the next write of a
    /// flush hands to the sink.
    pub fn unwritten_front(&self) -> (r: &[u8])
        requires
            self@.wf(),
            self@.bufs.len() > 0,
        ensures
            r@ == self@.front_rest(),
    {
        self.queue[0].as_slice().split_at(self.written).1
    }

    /// Accounts for a write of the front buffer's unwritten part that
    /// returned `res`. A write of all of it drops that buffer, and flushing
    /// goes on (`None`); a short write advances into it, and flushing stops;
    /// "would block" stops flushing; any other failure stops it with the error.
    pub fn advance(&mut self, res: Result<usize, WriteError>) -> (step: Option<Result<(), std::io::Error>>)
        requires
            old(self)@.wf(),
            old(self)@.bufs.len() > 0,
            res matches Ok(n) ==> n <= old(self)@.front_rest().len(),
        ensures
            final(self)@.wf(),
            match res {
                Ok(n) => if n == old(self)@.front_rest().len() {
                    step is None && final(self)@ == (QueueView { bufs: old(self)@.bufs.drop_first(), written: 0 })
                } else {
                    step matches Some(Ok(()))
                        && final(self)@ == (QueueView { bufs: old(self)@.bufs, written: (old(self)@.written + n) as nat })
                },
                Err(WriteError::WouldBlock) => step matches Some(Ok(())) && final(self)@ == old(self)@,
                Err(WriteError::Failed(e)) => step matches Some(Err(e2)) && e2 == e && final(self)@ == old(self)@,
            },
    {
        match res {
            Ok(n) => {
                let front_len = self.queue[0].len();
                if n == front_len - self.written {
                    let _ = self.queue.pop_front();
                    self.written = 0;
                    proof {
                        assert(self@.bufs =~= old(self)@.bufs.drop_first());
                    }
                    None
                } else {
                    self.written = self.written + n;
                    Some(Ok(()))
                }
            },
            Err(WriteError::WouldBlock) => Some(Ok(())),
            Err(WriteError::Failed(e)) => Some(Err(e)),
        }
    }

    /// Writes queued bytes to `writable`, front first, until the queue is
    /// empty, the sink would block, a write comes back short, or a write
    /// fails; the failure is returned. Bytes leave only from the front, so the
    /// bytes still queued are always the tail of those queued before. Each
    /// write is handed exactly [`BufQueue::unwritten_front`], and
    /// [`BufQueue::advance`] accounts for what it returned. Once empty, the
    /// queue's reserved capacity is shrunk back.
    pub fn flush<T: Sink>(&mut self, mut writable: T) -> (r: Result<(), std::io::Error>)
        requires
            old(self)@.wf(),
        ensures
            final(self)@.wf(),
            exists|j: int| 0 <= j <= old(self)@.pending().len() && #[trigger] old(self)@.pending().skip(j) == final(self)@.pending(),
            final(self)@.bufs.len() <= old(self)@.bufs.len(),
            old(self)@.bufs.len() == 0 ==> r is Ok && final(self)@ == old(self)@,
    {
        proof {
            assert(old(self)@.pending().skip(0) =~= self@.pending());
        }
        loop
            invariant
                self@.wf(),
                exists|j: int| 0 <= j <= old(self)@.pending().len() && #[trigger] old(self)@.pending().skip(j) == self@.pending(),
                self@.bufs.len() <= old(self)@.bufs.len(),
                old(self)@.bufs.len() == 0 ==> self@ == old(self)@,
            decreases self@.bufs.len(),
        {
            if self.queue.len() == 0 {
                shrink_queue(&mut self.queue, BUF_QUEUE_SIZE);
                return Ok(());
            }
            let ghost before = self@;
            let res = writable.write(self.unwritten_front());
            let step = self.advance(res);
            proof {
                let b = before.bufs;
                let w = before.written as int;
                assert(b.flatten() == b[0] + b.drop_first().flatten());
                assert(before.pending() =~= b[0].skip(w) + b.drop_first().flatten());
                if self@.written == 0 && self@.bufs.len() < b.len() {
                    assert(self@.pending() =~= before.pending().skip(b[0].len() - w));
                } else {
                    let n = self@.written - before.written;
                    assert(self@.pending() =~= before.pending().skip(n));
                }
                let j0 = choose|j: int| 0 <= j <= old(self)@.pending().len() && #[trigger] old(self)@.pending().skip(j) == before.pending();
                let d = before.pending().len() - self@.pending().len();
                assert(old(self)@.pending().skip(j0 + d) =~= self@.pending());
            }
            match step {
                None => {},
                Some(r) => {
                    return r;
                },
            }
        }
    }
}

} // verus!
