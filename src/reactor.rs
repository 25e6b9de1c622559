use vstd::prelude::*;

use std::collections::HashMap;

verus! {

broadcast use vstd::std_specs::hash::group_hash_axioms;

/// Identifies one submitted operation while it is outstanding.
pub type Op = u64;

/// What an outstanding operation asked for, as the reactor keeps it.
pub enum Request {
    /// A read of up to `len` bytes; the buffer travels with the submission.
    Read { fd: i32, len: usize },
    /// A write of `buf` at `offset`; the reactor keeps the buffer until the
    /// write completes and then hands it back.
    Write { fd: i32, buf: Vec<u8>, offset: usize },
    /// A cancel of the operation `target`.
    Cancel { target: u64 },
}

/// The abstract content of a [`Request`].
pub enum RequestView {
    Read { fd: i32, len: usize },
    Write { fd: i32, data: Seq<u8>, offset: usize },
    Cancel { target: u64 },
}

impl View for Request {
    type V = RequestView;

    open spec fn view(&self) -> RequestView {
        match self {
            Request::Read { fd, len } => RequestView::Read { fd: *fd, len: *len },
            Request::Write { fd, buf, offset } => RequestView::Write {
                fd: *fd,
                data: buf@,
                offset: *offset,
            },
            Request::Cancel { target } => RequestView::Cancel { target: *target },
        }
    }
}

/// An operation handed to the driver, which performs it against the kernel
/// and later reports its outcome through [`Reactor::complete`].
pub enum Submission {
    /// Read into `buf`, up to its length; `buf` comes back with the completion.
    Read { op: u64, fd: i32, buf: Vec<u8> },
    /// Write `data` at `offset` (a copy: the reactor keeps its own buffer).
    Write { op: u64, fd: i32, data: Vec<u8>, offset: usize },
    /// Cancel the operation `target`.
    Cancel { op: u64, target: u64 },
}

impl View for Submission {
    type V = (u64, RequestView);

    open spec fn view(&self) -> (u64, RequestView) {
        match self {
            Submission::Read { op, fd, buf } => (*op, RequestView::Read { fd: *fd, len: buf@.len() as usize }),
            Submission::Write { op, fd, data, offset } => (
                *op,
                RequestView::Write { fd: *fd, data: data@, offset: *offset },
            ),
            Submission::Cancel { op, target } => (*op, RequestView::Cancel { target: *target }),
        }
    }
}

/// The outcome of one operation, handed to its continuation.
pub struct Completion<K> {
    pub op: u64,
    /// The OS-style result: a byte count, or a negative errno.
    pub result: i32,
    /// For a read, the bytes received; for a write, the buffer it was given;
    /// for a cancel, empty.
    pub buf: Vec<u8>,
    /// The continuation registered with the operation.
    pub cont: K,
}

struct Pending<K> {
    request: Request,
    cont: K,
}

/// The abstract state of a [`Reactor`]: each outstanding operation with its
/// request and continuation, and the identifier the next submission gets.
pub struct ReactorView<K> {
    pub ops: Map<u64, (RequestView, K)>,
    pub next_id: u64,
}

impl<K> ReactorView<K> {
    /// The state after registering one more operation.
    pub open spec fn submit(self, req: RequestView, cont: K) -> ReactorView<K> {
        ReactorView { ops: self.ops.insert(self.next_id, (req, cont)), next_id: (self.next_id + 1) as u64 }
    }

    /// The state after the completion of `op` has been taken.
    pub open spec fn retire(self, op: u64) -> ReactorView<K> {
        ReactorView { ops: self.ops.remove(op), next_id: self.next_id }
    }

    /// Every outstanding identifier is below the next one to be issued, so a
    /// new identifier never names an outstanding operation.
    pub open spec fn fresh(self) -> bool {
        forall|op: u64| #[trigger] self.ops.contains_key(op) ==> op < self.next_id
    }

    /// Room for `n` more submissions before identifiers run out.
    pub open spec fn room_for(self, n: u64) -> bool {
        self.next_id <= u64::MAX - n
    }
}

/// The bytes a continuation gets back: a read's buffer cut to the count
/// received (empty on an error), a write's own buffer, nothing for a cancel.
pub open spec fn completion_bytes(req: RequestView, result: i32, data: Seq<u8>) -> Seq<u8> {
    match req {
        RequestView::Read { .. } => if result >= 0 && (result as int) <= data.len() {
            data.take(result as int)
        } else if result >= 0 {
            data
        } else {
            Seq::empty()
        },
        RequestView::Write { data: written, .. } => written,
        RequestView::Cancel { .. } => Seq::empty(),
    }
}

/// Keeps the outstanding operations of a completion-based I/O interface, each
/// with its continuation, and the queue of those not yet handed to the kernel.
pub struct Reactor<K> {
    in_flight: HashMap<u64, Pending<K>>,
    queued: Vec<Submission>,
    next_id: u64,
}

impl<K> View for Reactor<K> {
    type V = ReactorView<K>;

    closed spec fn view(&self) -> ReactorView<K> {
        ReactorView {
            ops: self.in_flight@.map_values(|p: Pending<K>| (p.request@, p.cont)),
            next_id: self.next_id,
        }
    }
}

impl<K> Reactor<K> {
    /// The reactor is consistent: identifiers are fresh.
    pub open spec fn wf(&self) -> bool {
        self@.fresh()
    }

    /// The submissions not yet handed to the driver, oldest first.
    pub closed spec fn queued(&self) -> Seq<(u64, RequestView)> {
        self.queued@.map_values(|s: Submission| s@)
    }

    pub fn new() -> (r: Reactor<K>)
        ensures
            r.wf(),
            r@.ops.is_empty(),
            r@.next_id == 1,
            r.queued().len() == 0,
    {
        let r = Reactor { in_flight: HashMap::new(), queued: Vec::new(), next_id: 1 };
        assert(r@.ops =~= Map::empty());
        r
    }

    /// No operation is outstanding: the driver's loop is done.
    pub fn is_idle(&self) -> (r: bool)
        ensures
            r == self@.ops.is_empty(),
    {
        let r = self.in_flight.is_empty();
        proof {
            if !r {
                let k = self.in_flight@.dom().choose();
                assert(self@.ops.contains_key(k));
            } else {
                assert(self@.ops =~= Map::empty());
            }
        }
        r
    }

    /// The number of identifiers left before they run out.
    pub fn ids_left(&self) -> (r: u64)
        ensures
            r == u64::MAX - self@.next_id,
    {
        u64::MAX - self.next_id
    }

    fn register(&mut self, request: Request, cont: K, sub: Submission) -> (op: u64)
        requires
            old(self).wf(),
            old(self)@.room_for(1),
            sub@.0 == old(self)@.next_id,
        ensures
            op == old(self)@.next_id,
            final(self).wf(),
            final(self)@ == old(self)@.submit(request@, cont),
            final(self).queued() == old(self).queued().push(sub@),
    {
        let op = self.next_id;
        let ghost view_req = request@;
        let ghost old_ops = self@.ops;
        self.in_flight.insert(op, Pending { request, cont });
        self.queued.push(sub);
        self.next_id = op + 1;
        proof {
            assert(self@.ops =~= old_ops.insert(op, (view_req, cont)));
            assert(self.queued() =~= old(self).queued().push(sub@));
        }
        op
    }

    /// Registers a read of `buf.len()` bytes from `fd`; the buffer goes to the
    /// driver with the submission and comes back with the completion.
    pub fn read(&mut self, fd: i32, buf: Vec<u8>, cont: K) -> (op: u64)
        requires
            old(self).wf(),
            old(self)@.room_for(1),
        ensures
            op == old(self)@.next_id,
            final(self).wf(),
            final(self)@ == old(self)@.submit(RequestView::Read { fd, len: buf@.len() as usize }, cont),
            final(self).queued() == old(self).queued().push(
                (op, RequestView::Read { fd, len: buf@.len() as usize }),
            ),
    {
        let len = buf.len();
        let op = self.next_id;
        self.register(Request::Read { fd, len }, cont, Submission::Read { op, fd, buf })
    }

    /// Registers a write of `buf` to `fd` at `offset`.
    pub fn write(&mut self, fd: i32, buf: Vec<u8>, offset: usize, cont: K) -> (op: u64)
        requires
            old(self).wf(),
            old(self)@.room_for(1),
        ensures
            op == old(self)@.next_id,
            final(self).wf(),
            final(self)@ == old(self)@.submit(RequestView::Write { fd, data: buf@, offset }, cont),
            final(self).queued() == old(self).queued().push(
                (op, RequestView::Write { fd, data: buf@, offset }),
            ),
    {
        let op = self.next_id;
        let data = copy_bytes(&buf);
        self.register(Request::Write { fd, buf, offset }, cont, Submission::Write { op, fd, data, offset })
    }

    /// Registers a cancel of the operation `target`.
    pub fn cancel(&mut self, target: u64, cont: K) -> (op: u64)
        requires
            old(self).wf(),
            old(self)@.room_for(1),
        ensures
            op == old(self)@.next_id,
            final(self).wf(),
            final(self)@ == old(self)@.submit(RequestView::Cancel { target }, cont),
            final(self).queued() == old(self).queued().push((op, RequestView::Cancel { target })),
    {
        let op = self.next_id;
        self.register(Request::Cancel { target }, cont, Submission::Cancel { op, target })
    }

    /// Hands the queued submissions to the driver, oldest first.
    pub fn take_submissions(&mut self) -> (subs: Vec<Submission>)
        ensures
            subs@.map_values(|s: Submission| s@) == old(self).queued(),
            final(self).queued().len() == 0,
            final(self)@ == old(self)@,
            final(self).wf() == old(self).wf(),
    {
        let mut subs: Vec<Submission> = Vec::new();
        std::mem::swap(&mut subs, &mut self.queued);
        proof {
            assert(self.queued() =~= Seq::<(u64, RequestView)>::empty());
        }
        subs
    }

    /// Takes the completion of `op` with its `result`; `data` is the buffer
    /// that a read was submitted with, as the kernel left it. `None` when no
    /// such operation is outstanding.
    pub fn complete(&mut self, op: u64, result: i32, data: Vec<u8>) -> (c: Option<Completion<K>>)
        requires
            old(self).wf(),
        ensures
            final(self).wf(),
            final(self).queued() == old(self).queued(),
            match c {
                None => !old(self)@.ops.contains_key(op) && final(self)@ == old(self)@,
                Some(c) => {
                    &&& old(self)@.ops.contains_key(op)
                    &&& final(self)@ == old(self)@.retire(op)
                    &&& c.op == op
                    &&& c.result == result
                    &&& c.cont == old(self)@.ops[op].1
                    &&& c.buf@ == completion_bytes(old(self)@.ops[op].0, result, data@)
                },
            },
    {
        let ghost old_ops = self@.ops;
        match self.in_flight.remove(&op) {
            None => {
                proof {
                    assert(self.in_flight@ == old(self).in_flight@);
                }
                None
            },
            Some(p) => {
                proof {
                    assert(self@.ops =~= old_ops.remove(op));
                    assert(old_ops[op] == (p.request@, p.cont));
                }
                let buf = match p.request {
                    Request::Read { .. } => {
                        let mut data = data;
                        if result >= 0 {
                            data.truncate(result as usize);
                        } else {
                            data.clear();
                        }
                        data
                    },
                    Request::Write { buf, .. } => buf,
                    Request::Cancel { .. } => Vec::new(),
                };
                proof {
                    if let RequestView::Read { .. } = old_ops[op].0 {
                        if result < 0 {
                            assert(buf@ =~= Seq::<u8>::empty());
                        }
                    }
                    if let RequestView::Cancel { .. } = old_ops[op].0 {
                        assert(buf@ =~= Seq::<u8>::empty());
                    }
                }
                Some(Completion { op, result, buf, cont: p.cont })
            },
        }
    }
}

/// A copy of `src`.
fn copy_bytes(src: &Vec<u8>) -> (r: Vec<u8>)
    ensures
        r@ == src@,
{
    let mut r: Vec<u8> = Vec::with_capacity(src.len());
    let mut i: usize = 0;
    while i < src.len()
        invariant
            i <= src@.len(),
            r@ == src@.take(i as int),
        decreases src@.len() - i,
    {
        r.push(src[i]);
        i += 1;
        proof {
            assert(r@ =~= src@.take(i as int));
        }
    }
    proof {
        assert(r@ =~= src@);
    }
    r
}

} // verus!
