//! The connection state machine of the echo server.
//!
//! Each outstanding asynchronous operation is one entry of a handle table
//! ([`crate::slab::Slab`]); the handle tags the submitted operation and the
//! matching completion.  [`ServerCore::on_completion`] advances one handle's
//! state for one completion and says which operation must be submitted next,
//! as an [`Action`].  The unverified shell owns the kernel ring: it pushes
//! the submissions, blocks for completions, performs the returned actions and
//! closes descriptors.
//!
//! Backpressure exists only on the accept path, through the credit counter:
//! accepts that cannot be enqueued wait for a later turn.  A read, write or
//! poll submission that finds the submission side full is not queued for
//! retry — that backlog is deliberately left out, and the shell stops the
//! process instead.

use vstd::prelude::*;
use crate::slab::Slab;

verus! {

/// Size of the receive buffer allocated for each read, in bytes.
pub const RECV_BUF_LEN: usize = 4096;

/// The errno of a connection reset by the peer: an expected, quiet disconnect.
pub const ECONNRESET: i32 = 104;

/// The state of one outstanding operation, stored under its handle.
#[derive(Debug)]
pub enum OpType {
    /// A pending connection acceptance; always tagged with handle `0`.
    Accept,
    /// Waiting for `fd` to become readable.
    Poll { fd: i32 },
    /// A receive into `buf` is in flight on `fd`.
    Read { fd: i32, buf: Vec<u8> },
    /// A send of `buf[offset..len]` is in flight on `fd`; `offset` bytes of
    /// the message are already acknowledged as sent.
    Write { fd: i32, buf: Vec<u8>, offset: usize, len: usize },
}

/// What the shell must do after one completion has been processed.
#[derive(Clone, Copy, PartialEq, Eq, Structural, Debug)]
pub enum Action {
    /// The completion's handle is not registered: log and skip it.
    Ignore,
    /// An acceptance failed; no handle exists yet, so only a diagnostic.
    AcceptFailed,
    /// Close `fd`; the handle is already freed.  Log unless `reset`, which
    /// marks an ordinary connection reset by the peer.
    CloseConn { fd: i32, reset: bool },
    /// The peer closed its write side: close `fd`; the handle is freed.
    Eof { fd: i32 },
    /// Submit a poll-for-readable on `fd`, tagged with `token`.
    SubmitPoll { fd: i32, token: usize },
    /// Submit a receive on `fd` into `token`'s buffer, tagged with `token`.
    SubmitRecv { fd: i32, token: usize },
    /// Submit a send on `fd` of `token`'s buffer range `offset..len`, tagged
    /// with `token`.
    SubmitSend { fd: i32, token: usize, offset: usize, len: usize },
}

/// The smaller of two integers.
pub open spec fn spec_min(a: int, b: int) -> int {
    if a < b {
        a
    } else {
        b
    }
}

/// `c` is a power of two.
pub open spec fn is_pow2(c: u16) -> bool {
    c > 0 && c & ((c - 1) as u16) == 0
}

/// The descriptor an operation carries; meaningful for every state but
/// `Accept`, which has no descriptor of its own.
pub open spec fn op_fd(op: OpType) -> i32 {
    match op {
        OpType::Accept => 0,
        OpType::Poll { fd } => fd,
        OpType::Read { fd, .. } => fd,
        OpType::Write { fd, .. } => fd,
    }
}

/// The table's length, every slot but `i`, and the counters are unchanged.
pub open spec fn unchanged_except(pre: &ServerCore, post: &ServerCore, i: int) -> bool {
    &&& post.ops().spec_len() == pre.ops().spec_len()
    &&& forall|j: int|
        0 <= j < pre.ops().spec_len() && j != i ==> post.ops().occ(j) == pre.ops().occ(j)
    &&& forall|j: int|
        0 <= j < pre.ops().spec_len() && j != i ==> post.ops().slots()[j] == pre.ops().slots()[j]
    &&& post.spec_count() == pre.spec_count()
    &&& post.spec_in_flight() == pre.spec_in_flight()
    &&& post.spec_capacity() == pre.spec_capacity()
}

/// As [`unchanged_except`], and slot `i` keeps its occupancy.
pub open spec fn same_shape(pre: &ServerCore, post: &ServerCore, i: int) -> bool {
    &&& unchanged_except(pre, post, i)
    &&& post.ops().occ(i) == pre.ops().occ(i)
}

/// Per-entry invariant of the handle table.
pub open spec fn op_inv(op: OpType) -> bool {
    match op {
        OpType::Accept => true,
        OpType::Poll { .. } => true,
        OpType::Read { buf, .. } => buf@.len() == RECV_BUF_LEN,
        OpType::Write { buf, offset, len, .. } => 0 < len <= buf@.len() && offset < len,
    }
}

/// The core state of the echo server: the handle table, the accept credit
/// and the number of accepts in flight on the ring.
pub struct ServerCore {
    /// Configured connection capacity.
    capacity: u16,
    /// Accept submissions owed but not yet enqueued (the accept credit).
    count: u16,
    /// Accept submissions enqueued and not yet completed.
    in_flight: u16,
    /// The mapping of handles to their operations.
    token_ops: Slab<OpType>,
}

impl ServerCore {
    /// The handle table, for specification purposes.
    pub closed spec fn ops(&self) -> Slab<OpType> {
        self.token_ops
    }

    /// The configured capacity.
    pub closed spec fn spec_capacity(&self) -> u16 {
        self.capacity
    }

    /// The accept credit.
    pub closed spec fn spec_count(&self) -> u16 {
        self.count
    }

    /// Accepts currently in flight.
    pub closed spec fn spec_in_flight(&self) -> u16 {
        self.in_flight
    }

    /// Well-formedness: handle `0` is the accept sentinel and the only
    /// `Accept` entry, every occupied entry satisfies its invariant, and the
    /// accept credit plus the accepts in flight never exceed the capacity.
    pub open spec fn wf(&self) -> bool {
        &&& self.ops().wf()
        &&& self.ops().spec_len() >= 1
        &&& self.ops().occ(0)
        &&& self.ops().slots()[0] is Accept
        &&& forall|i: int|
            1 <= i < self.ops().spec_len() && #[trigger] self.ops().occ(i) ==> !(self.ops().slots()[i] is Accept)
        &&& forall|i: int|
            0 <= i < self.ops().spec_len() && #[trigger] self.ops().occ(i) ==> op_inv(
                self.ops().slots()[i],
            )
        &&& self.spec_count() + self.spec_in_flight() <= self.spec_capacity()
    }

    /// Create the core for a configured capacity.  The first handle is
    /// reserved as the sentinel that tags every accept submission.
    pub fn new(count: u16) -> (s: Self)
        requires
            is_pow2(count),
        ensures
            s.wf(),
            s.spec_capacity() == count,
            s.spec_count() == count,
            s.spec_in_flight() == 0,
            s.ops().spec_len() == 1,
            s.ops().occ(0),
    {
        let ring_size = (count as usize) * 2;
        let mut token_ops: Slab<OpType> = Slab::with_capacity(ring_size);
        token_ops.insert(OpType::Accept);
        ServerCore { capacity: count, count, in_flight: 0, token_ops }
    }

    /// The accept credit: how many connections the server is supposed to be
    /// accepting but has not yet enqueued an accept for.
    pub fn count(&self) -> (c: u16)
        ensures
            c == self.spec_count(),
    {
        self.count
    }

    /// Accept submissions enqueued on the ring and not yet completed.
    pub fn in_flight_accepts(&self) -> (c: u16)
        ensures
            c == self.spec_in_flight(),
    {
        self.in_flight
    }

    /// Number of handles the table is currently backed for.
    pub fn table_len(&self) -> (n: usize)
        ensures
            n == self.ops().spec_len(),
    {
        self.token_ops.len()
    }

    /// Read access to the operation stored under `token`, for the shell to
    /// locate the buffer a submission must point at.
    pub fn op(&self, token: usize) -> (r: Option<&OpType>)
        requires
            self.wf(),
            token < self.ops().spec_len(),
        ensures
            (r is None <==> !self.ops().occ(token as int)),
            r matches Some(v) ==> *v == self.ops().slots()[token as int],
    {
        self.token_ops.get(token)
    }

    /// Advance one handle's state for one completion and say what the shell
    /// must do next.
    ///
    /// `usr` is the handle the completion is tagged with, `ret` its result:
    /// negative for an error, otherwise the accepted descriptor (accept), the
    /// event mask (poll), or the number of bytes transferred (receive, send).
    ///
    /// A completion for a freed handle is skipped.  A failed accept leaves
    /// the sentinel in place.  Any other error tears the connection down:
    /// the handle is freed and its descriptor must be closed, quietly when
    /// the peer merely reset the connection.  A successful accept registers
    /// a new handle in `Poll` state and replenishes one accept credit; a
    /// readable connection gets a fresh zeroed receive buffer; received
    /// bytes are echoed by sending `buf[0..n]` back; a partial send resumes
    /// from the first unacknowledged byte; a completed send returns the
    /// handle to `Poll`; a zero-length read is the peer's end of stream and
    /// tears the connection down cleanly.
    pub fn on_completion(&mut self, usr: usize, ret: i32) -> (act: Action)
        requires
            old(self).wf(),
            usr < old(self).ops().spec_len(),
            old(self).ops().spec_len() + 64 < usize::MAX,
        ensures
            final(self).wf(),
            final(self).spec_capacity() == old(self).spec_capacity(),
            // Stale handle: logged and skipped, nothing changes.
            !old(self).ops().occ(usr as int) ==> act == Action::Ignore && *final(self) == *old(self),
            // Failed accept: no handle exists yet, only a diagnostic.
            ret < 0 && old(self).ops().occ(usr as int) && old(self).ops().slots()[usr as int] is Accept
                ==> act == Action::AcceptFailed && *final(self) == *old(self),
            // Per-connection error: free the handle, close its descriptor,
            // quietly when the peer reset the connection.
            ret < 0 && old(self).ops().occ(usr as int) && !(old(self).ops().slots()[usr as int] is Accept)
                ==> (act == (Action::CloseConn {
                fd: op_fd(old(self).ops().slots()[usr as int]),
                reset: ret == -ECONNRESET,
            }) && !final(self).ops().occ(usr as int) && final(self).ops().slots() == old(self).ops().slots() && unchanged_except(old(self), final(self), usr as int)),
            // Successful accept: a new handle in Poll state, tagged on the
            // submitted poll; one accept credit is replenished.
            ret >= 0 && old(self).ops().occ(usr as int) && old(self).ops().slots()[usr as int] is Accept
                ==> (act matches Action::SubmitPoll { fd, token } && fd == ret && token != usr
                && final(self).ops().occ(token as int) && final(self).ops().slots()[token as int]
                == (OpType::Poll { fd: ret }) && (old(self).ops().has_free() ==> old(self).ops().is_min_free(token as int) && final(self).ops().spec_len() == old(self).ops().spec_len()) && (!old(self).ops().has_free() ==> token == old(self).ops().spec_len() && final(self).ops().spec_len() == old(self).ops().spec_len() + 1)
                && (forall|j: int|
                0 <= j < old(self).ops().spec_len() && j != token ==> final(self).ops().occ(j)
                    == old(self).ops().occ(j) && final(self).ops().slots()[j] == old(self).ops().slots()[j]) && (old(self).spec_in_flight() > 0 ==> final(self).spec_count()
                == old(self).spec_count() + 1 && final(self).spec_in_flight() == old(self).spec_in_flight() - 1) && (old(self).spec_in_flight() == 0 ==> final(self).spec_count() == old(self).spec_count() && final(self).spec_in_flight() == 0)),
            // A connection became readable: a fresh zeroed buffer, a receive
            // submitted under the same handle.
            ret >= 0 && old(self).ops().occ(usr as int) ==> (old(self).ops().slots()[usr as int] matches OpType::Poll { fd }
                ==> act == (Action::SubmitRecv { fd, token: usr }) && (final(self).ops().slots()[usr as int] matches OpType::Read { fd: f2, buf } && f2 == fd && buf@
                == Seq::new(RECV_BUF_LEN as nat, |i: int| 0u8)) && same_shape(
                old(self),
                final(self),
                usr as int,
            )),
            // The peer closed its write side: clean teardown.
            ret == 0 && old(self).ops().occ(usr as int) ==> (old(self).ops().slots()[usr as int] matches OpType::Read { fd, .. }
                ==> act == (Action::Eof { fd }) && !final(self).ops().occ(usr as int)
                && unchanged_except(old(self), final(self), usr as int)),
            // Bytes arrived: echo exactly those bytes back, from the start.
            ret > 0 && old(self).ops().occ(usr as int) ==> (old(self).ops().slots()[usr as int] matches OpType::Read { fd, buf }
                ==> act == (Action::SubmitSend {
                fd,
                token: usr,
                offset: 0,
                len: spec_min(ret as int, buf@.len() as int) as usize,
            }) && (final(self).ops().slots()[usr as int] matches OpType::Write {
                fd: f2,
                buf: b2,
                offset: o2,
                len: l2,
            } && f2 == fd && b2@ == buf@ && o2 == 0 && l2 == spec_min(
                ret as int,
                buf@.len() as int,
            )) && same_shape(old(self), final(self), usr as int)),
            // A send completed in part or in full: resume from the first
            // unacknowledged byte, or poll for the next message.
            ret >= 0 && old(self).ops().occ(usr as int) ==> (old(self).ops().slots()[usr as int] matches OpType::Write {
                fd,
                buf,
                offset,
                len,
            } ==> (offset + spec_min(ret as int, len - offset) == len ==> (act
                == (Action::SubmitPoll { fd, token: usr }) && final(self).ops().slots()[usr as int]
                == (OpType::Poll { fd }) && same_shape(old(self), final(self), usr as int))) && (
            offset + spec_min(ret as int, len - offset) < len ==> (act == (Action::SubmitSend {
                fd,
                token: usr,
                offset: (offset + spec_min(ret as int, len - offset)) as usize,
                len,
            }) && (final(self).ops().slots()[usr as int] matches OpType::Write {
                fd: f2,
                buf: b2,
                offset: o2,
                len: l2,
            } && f2 == fd && b2@ == buf@ && o2 == offset + spec_min(ret as int, len - offset) && l2
                == len) && same_shape(old(self), final(self), usr as int)))),
    {
        if ret < 0 {
            match self.token_ops.get(usr) {
                None => Action::Ignore,
                Some(op) => {
                    match op {
                        OpType::Accept => Action::AcceptFailed,
                        OpType::Poll { fd } | OpType::Read { fd, .. } | OpType::Write {
                            fd,
                            ..
                        } => {
                            let fd = *fd;
                            self.token_ops.mark_free(usr);
                            Action::CloseConn { fd, reset: ret == -ECONNRESET }
                        },
                    }
                },
            }
        } else {
            let occupied = match self.token_ops.get(usr) {
                None => false,
                Some(_) => true,
            };
            if !occupied {
                return Action::Ignore;
            }
            let is_accept = match self.token_ops.get(usr) {
                Some(OpType::Accept) => true,
                _ => false,
            };
            if is_accept {
                // A new connection: register its handle and poll it.
                let token = self.token_ops.insert(OpType::Poll { fd: ret });
                if self.in_flight > 0 {
                    self.in_flight = self.in_flight - 1;
                    self.count = self.count + 1;
                }
                return Action::SubmitPoll { fd: ret, token };
            }
            // Take the entry out so its buffer can move to the next state.
            let prev = self.token_ops.replace(usr, OpType::Accept);
            match prev {
                OpType::Poll { fd } => {
                    let buf = zero_buffer(RECV_BUF_LEN);
                    self.token_ops.replace(usr, OpType::Read { fd, buf });
                    Action::SubmitRecv { fd, token: usr }
                },
                OpType::Read { fd, buf } => {
                    if ret == 0 {
                        self.token_ops.mark_free(usr);
                        Action::Eof { fd }
                    } else {
                        let blen = buf.len();
                        let n = if (ret as usize) < blen {
                            ret as usize
                        } else {
                            blen
                        };
                        self.token_ops.replace(usr, OpType::Write { fd, buf, offset: 0, len: n });
                        Action::SubmitSend { fd, token: usr, offset: 0, len: n }
                    }
                },
                OpType::Write { fd, buf, offset, len } => {
                    let remaining = len - offset;
                    let w = if (ret as usize) < remaining {
                        ret as usize
                    } else {
                        remaining
                    };
                    let new_off = offset + w;
                    if new_off >= len {
                        // The whole message is acknowledged: wait for more.
                        self.token_ops.replace(usr, OpType::Poll { fd });
                        Action::SubmitPoll { fd, token: usr }
                    } else {
                        self.token_ops.replace(usr, OpType::Write { fd, buf, offset: new_off, len });
                        Action::SubmitSend { fd, token: usr, offset: new_off, len }
                    }
                },
                OpType::Accept => {
                    proof {
                        assert(false);
                    }
                    Action::Ignore
                },
            }
        }
    }

    /// One accept was successfully enqueued: spend one credit.
    pub fn on_accept_pushed(&mut self)
        requires
            old(self).wf(),
            old(self).spec_count() > 0,
        ensures
            final(self).wf(),
            final(self).spec_capacity() == old(self).spec_capacity(),
            final(self).spec_count() == old(self).spec_count() - 1,
            final(self).spec_in_flight() == old(self).spec_in_flight() + 1,
            final(self).ops() == old(self).ops(),
    {
        self.count = self.count - 1;
        self.in_flight = self.in_flight + 1;
    }
}

/// The acknowledged offset once a send phase over `len` message bytes,
/// starting with `offset` bytes acknowledged, processes the completion
/// results `ws` in order; each step matches what
/// [`ServerCore::on_completion`] ensures of a `Write` completion.
pub open spec fn offset_after(offset: int, len: int, ws: Seq<int>) -> int
    decreases ws.len(),
{
    if ws.len() == 0 {
        offset
    } else {
        offset_after(offset + spec_min(ws[0], len - offset), len, ws.subrange(1, ws.len() as int))
    }
}

/// The bytes that send phase delivered to the peer: each completion
/// acknowledges the next `spec_min(ws[k], remainder)` bytes of the message,
/// taken from the buffer at the current offset.
pub open spec fn delivered(buf: Seq<u8>, offset: int, len: int, ws: Seq<int>) -> Seq<u8>
    decreases ws.len(),
{
    if ws.len() == 0 {
        Seq::empty()
    } else {
        buf.subrange(offset, offset + spec_min(ws[0], len - offset)) + delivered(
            buf,
            offset + spec_min(ws[0], len - offset),
            len,
            ws.subrange(1, ws.len() as int),
        )
    }
}

/// Echo round trip, one message: over any run of send completions, the bytes
/// delivered to the peer extend the acknowledged prefix of the message
/// exactly — nothing is skipped, duplicated or reordered.
pub proof fn lemma_echo_round_trip(buf: Seq<u8>, offset: int, len: int, ws: Seq<int>)
    requires
        0 <= offset <= len <= buf.len(),
        forall|k: int| 0 <= k < ws.len() ==> ws[k] >= 0,
    ensures
        offset <= offset_after(offset, len, ws) <= len,
        buf.subrange(0, offset) + delivered(buf, offset, len, ws) == buf.subrange(
            0,
            offset_after(offset, len, ws),
        ),
    decreases ws.len(),
{
    if ws.len() == 0 {
        assert(buf.subrange(0, offset) + delivered(buf, offset, len, ws) =~= buf.subrange(
            0,
            offset,
        ));
    } else {
        let w = spec_min(ws[0], len - offset);
        let o2 = offset + w;
        let tail = ws.subrange(1, ws.len() as int);
        assert(forall|k: int| 0 <= k < tail.len() ==> tail[k] >= 0);
        lemma_echo_round_trip(buf, o2, len, tail);
        assert(buf.subrange(0, offset) + buf.subrange(offset, o2) =~= buf.subrange(0, o2));
        assert(buf.subrange(0, offset) + delivered(buf, offset, len, ws) =~= (buf.subrange(
            0,
            offset,
        ) + buf.subrange(offset, o2)) + delivered(buf, o2, len, tail));
    }
}

/// Echo round trip, completed: a send phase that started at the message's
/// beginning and acknowledged all `len` bytes delivered exactly the received
/// message, in order.
pub proof fn lemma_echo_complete(buf: Seq<u8>, len: int, ws: Seq<int>)
    requires
        0 <= len <= buf.len(),
        forall|k: int| 0 <= k < ws.len() ==> ws[k] >= 0,
        offset_after(0, len, ws) == len,
    ensures
        delivered(buf, 0, len, ws) == buf.subrange(0, len),
{
    lemma_echo_round_trip(buf, 0, len, ws);
    assert(delivered(buf, 0, len, ws) =~= buf.subrange(0, 0) + delivered(buf, 0, len, ws));
}

/// Accept capacity bound: with capacity C, the accept credit and the accepts
/// in flight on the submission side never exceed C, separately or together.
pub proof fn lemma_accept_capacity_bound(s: &ServerCore)
    requires
        s.wf(),
    ensures
        s.spec_count() + s.spec_in_flight() <= s.spec_capacity(),
        s.spec_in_flight() <= s.spec_capacity(),
        s.spec_count() <= s.spec_capacity(),
{
}

/// A vector of `n` zero bytes.
fn zero_buffer(n: usize) -> (buf: Vec<u8>)
    ensures
        buf@ == Seq::new(n as nat, |i: int| 0u8),
{
    let mut buf: Vec<u8> = Vec::new();
    let mut k: usize = 0;
    while k < n
        invariant
            k <= n,
            buf@.len() == k,
            forall|i: int| 0 <= i < k ==> buf@[i] == 0u8,
        decreases n - k,
    {
        buf.push(0);
        k += 1;
    }
    proof {
        assert(buf@ =~= Seq::new(n as nat, |i: int| 0u8));
    }
    buf
}

} // verus!

