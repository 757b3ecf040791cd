//! What a storage client decides: which request stands for a call, which
//! calls are copied to the global store and whether the caller waits for
//! the copy, and what the background dispatcher does with a copy.
//!
//! Reads go to the cache node only. Writes go to the cache node at once,
//! and a copy of each is queued for the global store. One dispatcher takes
//! the copies from the queue, oldest first, and applies each as one
//! transaction.

use crate::distributed_db::db_server::{write_flags_known, KNOWN_WRITE_FLAGS, NO_OVERWRITE};
use crate::encoding::bytes_equal;
use crate::record::{encode_to_vec, message_bytes, option_view};
use crate::syscalls::{
    frame, frame_bytes, CompareAndSwap, Invoke, ReadDir, ReadKey, Syscall, WriteKey,
};
use vstd::prelude::*;

verus! {

/// The key whose write is a fence: the caller waits until the global
/// store has caught up.
pub const EXTERNALIZE: &'static str = "EXTERNALIZE";

/// How many connections to the cache node a client keeps.
pub const CACHE_POOL_SIZE: u32 = 10;

/// The request of `get`.
pub fn get_request(key: Vec<u8>) -> (r: Syscall)
    ensures
        r == Syscall::ReadKey(ReadKey { key }),
{
    Syscall::ReadKey(ReadKey { key })
}

/// The request of `put`: a write without flags.
pub fn put_request(key: Vec<u8>, value: Vec<u8>) -> (r: Syscall)
    ensures
        r == Syscall::WriteKey(WriteKey { key, value, flags: None }),
{
    Syscall::WriteKey(WriteKey { key, value, flags: None })
}

/// The request of `add`: a write with the no-overwrite flag.
pub fn add_request(key: Vec<u8>, value: Vec<u8>) -> (r: Syscall)
    ensures
        r == Syscall::WriteKey(WriteKey { key, value, flags: Some(NO_OVERWRITE) }),
{
    Syscall::WriteKey(WriteKey { key, value, flags: Some(NO_OVERWRITE) })
}

/// The request of `cas`.
pub fn cas_request(key: Vec<u8>, expected: Option<Vec<u8>>, value: Vec<u8>) -> (r: Syscall)
    ensures
        r == Syscall::CompareAndSwap(CompareAndSwap { key, expected, value }),
{
    Syscall::CompareAndSwap(CompareAndSwap { key, expected, value })
}

/// The request of `scan`.
pub fn scan_request(dir: Vec<u8>) -> (r: Syscall)
    ensures
        r == Syscall::ReadDir(ReadDir { dir }),
{
    Syscall::ReadDir(ReadDir { dir })
}

/// The request by which a connection is tested.
pub fn ping_request() -> (r: Syscall)
    ensures
        r matches Syscall::Invoke(i) && i.function@ == crate::distributed_db::db_server::PING@
            && i.payload@ == Seq::<char>::empty(),
{
    Syscall::Invoke(
        Invoke { function: crate::distributed_db::db_server::PING.to_owned(), payload: String::new() },
    )
}

/// The bytes that go on the wire for the request `request`: its encoding
/// in a frame. `None` if the encoding is too long for a frame.
pub fn request_frame(request: &Syscall) -> (r: Option<Vec<u8>>)
    ensures
        match r {
            Some(bytes) => message_bytes(request).len() <= u32::MAX && bytes@ == frame_bytes(
                message_bytes(request),
            ),
            None => message_bytes(request).len() > u32::MAX,
        },
{
    let payload = encode_to_vec(request);
    frame(payload.as_slice())
}

/// How a call reaches the global store.
#[derive(Debug, Clone, Copy, PartialEq, Eq, Structural)]
pub enum Replication {
    /// Not at all: the call reads.
    Local,
    /// In the background: the caller goes on at once.
    Background,
    /// Behind a fence: the caller waits until the global store has applied
    /// the call.
    Fence,
}

/// How the request `request` reaches the global store. Reads, scans and
/// invocations stay local. A write without flags goes in the background,
/// unless its key is [`EXTERNALIZE`]. Every other write, and every
/// compare-and-swap, goes behind a fence.
pub open spec fn replication_of(request: Syscall) -> Replication {
    match request {
        Syscall::ReadKey(_) => Replication::Local,
        Syscall::ReadDir(_) => Replication::Local,
        Syscall::Invoke(_) => Replication::Local,
        Syscall::WriteKey(wk) => if wk.flags is Some || wk.key@ == vstd::utf8::encode_utf8(
            EXTERNALIZE@,
        ) {
            Replication::Fence
        } else {
            Replication::Background
        },
        Syscall::CompareAndSwap(_) => Replication::Fence,
    }
}

/// How the request `request` reaches the global store.
pub fn replication(request: &Syscall) -> (r: Replication)
    ensures
        r == replication_of(*request),
{
    match request {
        Syscall::ReadKey(_) => Replication::Local,
        Syscall::ReadDir(_) => Replication::Local,
        Syscall::Invoke(_) => Replication::Local,
        Syscall::WriteKey(wk) => {
            if wk.flags.is_some() || bytes_equal(wk.key.as_slice(), EXTERNALIZE.as_bytes()) {
                Replication::Fence
            } else {
                Replication::Background
            }
        },
        Syscall::CompareAndSwap(_) => Replication::Fence,
    }
}

/// What the dispatcher does in the global store for one queued request,
/// as one transaction.
#[derive(Debug, Clone, PartialEq, Eq)]
pub enum Transaction {
    /// Store `value` at `key`.
    Put { key: Vec<u8>, value: Vec<u8> },
    /// Store `value` at `key` if the key is absent.
    PutIfAbsent { key: Vec<u8>, value: Vec<u8> },
    /// Read `key`, and store `value` there if what was read equals
    /// `expected`.
    Swap { key: Vec<u8>, expected: Option<Vec<u8>>, value: Vec<u8> },
    /// Nothing: the request is none that writes. The dispatcher reports
    /// it and goes on.
    Unexpected,
}

/// The mathematical value of a [`Transaction`].
#[verifier::ext_equal]
pub enum TransactionView {
    Put { key: Seq<u8>, value: Seq<u8> },
    PutIfAbsent { key: Seq<u8>, value: Seq<u8> },
    Swap { key: Seq<u8>, expected: Option<Seq<u8>>, value: Seq<u8> },
    Unexpected,
}

impl View for Transaction {
    type V = TransactionView;

    open spec fn view(&self) -> TransactionView {
        match self {
            Transaction::Put { key, value } => TransactionView::Put { key: key@, value: value@ },
            Transaction::PutIfAbsent { key, value } => TransactionView::PutIfAbsent {
                key: key@,
                value: value@,
            },
            Transaction::Swap { key, expected, value } => TransactionView::Swap {
                key: key@,
                expected: option_view(*expected),
                value: value@,
            },
            Transaction::Unexpected => TransactionView::Unexpected,
        }
    }
}

/// The transaction for a queued request, or `None` if the request is a
/// write whose flags hold a bit that no engine knows. A write is a
/// create-if-absent exactly if its flags are the no-overwrite flag and
/// nothing else.
pub open spec fn transaction_of(request: Syscall) -> Option<TransactionView> {
    match request {
        Syscall::WriteKey(wk) => {
            let flags = match wk.flags {
                Some(f) => f,
                None => 0u32,
            };
            if flags & !KNOWN_WRITE_FLAGS != 0 {
                None
            } else if flags == NO_OVERWRITE {
                Some(TransactionView::PutIfAbsent { key: wk.key@, value: wk.value@ })
            } else {
                Some(TransactionView::Put { key: wk.key@, value: wk.value@ })
            }
        },
        Syscall::CompareAndSwap(cas) => Some(
            TransactionView::Swap {
                key: cas.key@,
                expected: option_view(cas.expected),
                value: cas.value@,
            },
        ),
        _ => Some(TransactionView::Unexpected),
    }
}

/// The transaction for the queued request `request`.
pub fn transaction(request: Syscall) -> (r: Option<Transaction>)
    ensures
        match r {
            Some(t) => transaction_of(request) == Some(t@),
            None => transaction_of(request) is None,
        },
{
    match request {
        Syscall::WriteKey(wk) => {
            let flags: u32 = match wk.flags {
                Some(f) => f,
                None => 0,
            };
            if !write_flags_known(flags) {
                None
            } else if flags == NO_OVERWRITE {
                Some(Transaction::PutIfAbsent { key: wk.key, value: wk.value })
            } else {
                Some(Transaction::Put { key: wk.key, value: wk.value })
            }
        },
        Syscall::CompareAndSwap(cas) => Some(
            Transaction::Swap { key: cas.key, expected: cas.expected, value: cas.value },
        ),
        _ => Some(Transaction::Unexpected),
    }
}

/// A request that waits for the dispatcher.
#[derive(Debug, Clone, PartialEq, Eq)]
pub struct SyscallChannel {
    /// The request to apply to the global store.
    pub syscall: Syscall,
    /// Whether its caller waits for the dispatcher's word.
    pub synchronous: bool,
}

/// The requests that wait for the dispatcher, oldest first. The backlog
/// holds no more than its capacity.
pub struct Backlog {
    pending: Vec<SyscallChannel>,
    capacity: usize,
}

impl View for Backlog {
    type V = Seq<SyscallChannel>;

    closed spec fn view(&self) -> Seq<SyscallChannel> {
        self.pending@
    }
}

impl Backlog {
    /// How many requests the backlog holds at most.
    pub closed spec fn limit(&self) -> nat {
        self.capacity as nat
    }

    /// The backlog is within its capacity.
    pub open spec fn wf(&self) -> bool {
        self@.len() <= self.limit()
    }

    /// An empty backlog for at most `capacity` requests.
    pub fn new(capacity: usize) -> (r: Backlog)
        ensures
            r@ == Seq::<SyscallChannel>::empty(),
            r.limit() == capacity,
            r.wf(),
    {
        Backlog { pending: Vec::new(), capacity }
    }

    /// How many requests the backlog holds at most.
    pub fn capacity(&self) -> (r: usize)
        ensures
            r == self.limit(),
    {
        self.capacity
    }

    /// How many requests wait.
    pub fn len(&self) -> (r: usize)
        ensures
            r == self@.len(),
    {
        self.pending.len()
    }

    /// Queues `item` behind the requests that wait. A full backlog takes
    /// nothing and hands the item back.
    pub fn submit(&mut self, item: SyscallChannel) -> (r: Result<(), SyscallChannel>)
        requires
            old(self).wf(),
        ensures
            final(self).wf(),
            final(self).limit() == old(self).limit(),
            match r {
                Ok(_) => old(self)@.len() < old(self).limit() && final(self)@ == old(self)@.push(
                    item,
                ),
                Err(back) => old(self)@.len() == old(self).limit() && final(self)@ == old(self)@
                    && back == item,
            },
    {
        if self.pending.len() >= self.capacity {
            return Err(item);
        }
        self.pending.push(item);
        Ok(())
    }

    /// Takes the request that has waited longest.
    pub fn next(&mut self) -> (r: Option<SyscallChannel>)
        requires
            old(self).wf(),
        ensures
            final(self).wf(),
            final(self).limit() == old(self).limit(),
            match r {
                Some(item) => old(self)@.len() > 0 && item == old(self)@[0] && final(self)@
                    == old(self)@.skip(1),
                None => old(self)@.len() == 0 && final(self)@ == old(self)@,
            },
    {
        if self.pending.len() == 0 {
            return None;
        }
        let item = self.pending.remove(0);
        assert(self.pending@ =~= old(self).pending@.skip(1));
        Some(item)
    }
}

/// Requests leave a backlog in the order in which they came: after the
/// requests `later` were queued behind `waiting`, the next to leave is the
/// oldest of `waiting`, if there is one.
pub proof fn lemma_backlog_fifo(waiting: Seq<SyscallChannel>, later: Seq<SyscallChannel>)
    requires
        waiting.len() > 0,
    ensures
        (waiting + later)[0] == waiting[0],
        (waiting + later).skip(1) == waiting.skip(1) + later,
{
    assert((waiting + later).skip(1) =~= waiting.skip(1) + later);
}

} // verus!
