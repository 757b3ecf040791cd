//! A pool of workers of fixed size, and the messages that go to them.
//!
//! The pool decides how many workers there are and what is sent to them,
//! in which order. The workers themselves run elsewhere: whoever runs them
//! hands them the messages of the pool, oldest first.

use vstd::prelude::*;

verus! {

/// The memory that one worker stands for, in megabytes.
pub const MEM_PER_WORKER: usize = 128;

/// What is sent to the workers.
#[derive(Debug, Clone, PartialEq, Eq)]
pub enum Message {
    /// A request to run, and the number of the channel on which to answer.
    Request(Vec<u8>, u64),
    /// The worker that takes this message stops.
    Shutdown,
}

/// The mathematical value of a [`Message`].
#[verifier::ext_equal]
pub enum MessageView {
    Request(Seq<u8>, u64),
    Shutdown,
}

impl View for Message {
    type V = MessageView;

    open spec fn view(&self) -> MessageView {
        match self {
            Message::Request(req, rsp_sender) => MessageView::Request(req@, *rsp_sender),
            Message::Shutdown => MessageView::Shutdown,
        }
    }
}

/// The values of a vector of messages, in order.
pub open spec fn messages_view(v: Seq<Message>) -> Seq<MessageView> {
    Seq::new(v.len(), |i: int| v[i]@)
}

/// A pool of workers, numbered from 0, that share one queue of messages.
pub struct WorkerPool {
    pool: Vec<usize>,
    sent: Vec<Message>,
}

impl WorkerPool {
    /// How many workers the pool has.
    pub closed spec fn size(&self) -> nat {
        self.pool@.len()
    }

    /// The messages sent to the workers so far, oldest first.
    pub closed spec fn sent(&self) -> Seq<MessageView> {
        messages_view(self.sent@)
    }

    /// A pool for a machine with `total_mem` megabytes of memory: one
    /// worker for every 128 megabytes, and nothing sent.
    pub fn new(total_mem: usize) -> (r: WorkerPool)
        ensures
            r.size() == total_mem / MEM_PER_WORKER,
            r.sent() == Seq::<MessageView>::empty(),
    {
        let pool_size = total_mem / MEM_PER_WORKER;
        let mut pool: Vec<usize> = Vec::new();
        let mut i: usize = 0;
        while i < pool_size
            invariant
                0 <= i <= pool_size,
                pool.len() == i,
            decreases pool_size - i,
        {
            pool.push(i);
            i += 1;
        }
        let r = WorkerPool { pool, sent: Vec::new() };
        assert(r.sent() =~= Seq::<MessageView>::empty());
        r
    }

    /// The number of workers.
    pub fn pool_size(&self) -> (r: usize)
        ensures
            r == self.size(),
    {
        self.pool.len()
    }

    /// Sends the request `req` to the workers, to be answered on the
    /// channel `rsp_sender`.
    pub fn send_req(&mut self, req: Vec<u8>, rsp_sender: u64)
        ensures
            final(self).size() == old(self).size(),
            final(self).sent() == old(self).sent().push(MessageView::Request(req@, rsp_sender)),
    {
        let ghost before = self.sent();
        let m = Message::Request(req, rsp_sender);
        let ghost mv = m@;
        self.sent.push(m);
        assert(self.sent() =~= before.push(mv));
    }

    /// Shuts the pool down: one `Shutdown` is sent for every worker. The
    /// result is all that was ever sent, oldest first, so that every worker
    /// stops after the requests that came before.
    pub fn shutdown(self) -> (r: Vec<Message>)
        ensures
            messages_view(r@) == self.sent() + Seq::new(self.size(), |i: int| MessageView::Shutdown),
    {
        let ghost before = self.sent();
        let n = self.pool.len();
        let mut sent = self.sent;
        let mut i: usize = 0;
        assert(messages_view(sent@) =~= before + Seq::new(0, |k: int| MessageView::Shutdown));
        while i < n
            invariant
                0 <= i <= n,
                messages_view(sent@) == before + Seq::new(i as nat, |k: int| MessageView::Shutdown),
            decreases n - i,
        {
            let ghost sofar = messages_view(sent@);
            sent.push(Message::Shutdown);
            assert(messages_view(sent@) =~= sofar.push(MessageView::Shutdown));
            assert(messages_view(sent@) =~= before + Seq::new(
                (i + 1) as nat,
                |k: int| MessageView::Shutdown,
            ));
            i += 1;
        }
        sent
    }
}

} // verus!
