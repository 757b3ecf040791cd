//! The storage service: a key/value store with point reads, writes,
//! create-if-absent, compare-and-swap and prefix scans.

pub mod db_client;
pub mod db_server;
pub mod local;

use crate::record::option_view;
use vstd::prelude::*;

verus! {

/// Where the cache node listens.
pub const CACHE_ADDRESS: &'static str = "127.0.0.1:5000";

/// How long a storage server waits before it answers, in milliseconds.
pub const RESPONSE_DELAY_TIME: u64 = 50;

/// Why a call to the storage service did not return an answer.
#[derive(Debug, Clone, Copy, PartialEq, Eq, Structural)]
pub enum Error {
    /// No connection to the server could be had.
    TcpConnectionError,
    /// Reading or writing on the connection failed.
    TcpIOError,
}

/// One call to a storage service, as a mathematical value.
#[verifier::ext_equal]
pub enum Call {
    Get { key: Seq<u8> },
    Put { key: Seq<u8>, value: Seq<u8> },
    Add { key: Seq<u8>, value: Seq<u8> },
    Cas { key: Seq<u8>, expected: Option<Seq<u8>>, value: Seq<u8> },
    Scan { dir: Seq<u8> },
}

/// One call to a storage service and what came back.
#[verifier::ext_equal]
pub struct Exchange {
    pub call: Call,
    pub answer: Result<Seq<u8>, Error>,
}

/// What came back from a call, as a mathematical value.
pub open spec fn answer_view(r: Result<Vec<u8>, Error>) -> Result<Seq<u8>, Error> {
    match r {
        Ok(bytes) => Ok(bytes@),
        Err(e) => Err(e),
    }
}

/// The calls of a run of exchanges, in order.
pub open spec fn calls_of(xs: Seq<Exchange>) -> Seq<Call> {
    Seq::new(xs.len(), |i: int| xs[i].call)
}

/// The answers of a run of exchanges, in order.
pub open spec fn answers_of(xs: Seq<Exchange>) -> Seq<Result<Seq<u8>, Error>> {
    Seq::new(xs.len(), |i: int| xs[i].answer)
}

/// The history `after` continues the history `before`.
pub open spec fn extends(before: Seq<Exchange>, after: Seq<Exchange>) -> bool {
    before.len() <= after.len() && after.take(before.len() as int) == before
}

/// The exchanges by which `after` continues `before`.
pub open spec fn since(before: Seq<Exchange>, after: Seq<Exchange>) -> Seq<Exchange> {
    after.skip(before.len() as int)
}

/// A storage service. Every operation returns the bytes of the response
/// message, as the server encoded it. Nothing is promised of an answer: it
/// depends on what the service holds and on the connection to it.
pub trait DbService {
    /// Reads the value at `key`. The answer is a
    /// [`ReadKeyResponse`](crate::syscalls::ReadKeyResponse).
    fn get(&mut self, key: Vec<u8>) -> Result<Vec<u8>, Error>;

    /// Stores `value` at `key`. The answer is a
    /// [`WriteKeyResponse`](crate::syscalls::WriteKeyResponse).
    fn put(&mut self, key: Vec<u8>, value: Vec<u8>) -> Result<Vec<u8>, Error>;

    /// Stores `value` at `key` if the key is absent. The answer is a
    /// [`WriteKeyResponse`](crate::syscalls::WriteKeyResponse).
    fn add(&mut self, key: Vec<u8>, value: Vec<u8>) -> Result<Vec<u8>, Error>;

    /// Stores `value` at `key` if what is stored there equals `expected`,
    /// where `None` stands for an absent key. The answer is a
    /// [`CompareAndSwapResponse`](crate::syscalls::CompareAndSwapResponse).
    fn cas(&mut self, key: Vec<u8>, expected: Option<Vec<u8>>, value: Vec<u8>) -> Result<
        Vec<u8>,
        Error,
    >;

    /// Lists the names directly under the prefix `dir`. The answer is a
    /// [`ReadDirResponse`](crate::syscalls::ReadDirResponse).
    fn scan(&mut self, dir: Vec<u8>) -> Result<Vec<u8>, Error>;
}

/// A storage service together with the record of what was asked of it.
///
/// Every call goes to the service and is added to the history with its
/// answer. The namespace works through a session, so that what it returns
/// can be stated over the calls that it made and the answers that it got.
pub struct Session<D: DbService> {
    service: D,
    record: Ghost<Seq<Exchange>>,
}

impl<D: DbService> Session<D> {
    /// The calls made in this session, each with its answer, oldest first.
    pub closed spec fn history(&self) -> Seq<Exchange> {
        self.record@
    }

    /// The service of this session.
    pub closed spec fn service(&self) -> D {
        self.service
    }

    /// A session with the service `service`, in which nothing has been
    /// asked yet.
    pub fn new(service: D) -> (r: Session<D>)
        ensures
            r.history() == Seq::<Exchange>::empty(),
            r.service() == service,
    {
        Session { service, record: Ghost(Seq::empty()) }
    }

    /// Ends the session and hands the service back.
    pub fn into_inner(self) -> (r: D)
        ensures
            r == self.service(),
    {
        self.service
    }

    /// Reads the value at `key`.
    pub fn get(&mut self, key: Vec<u8>) -> (r: Result<Vec<u8>, Error>)
        ensures
            final(self).history() == old(self).history().push(
                Exchange { call: Call::Get { key: key@ }, answer: answer_view(r) },
            ),
    {
        let ghost call = Call::Get { key: key@ };
        let r = self.service.get(key);
        proof {
            self.record@ = self.record@.push(Exchange { call, answer: answer_view(r) });
        }
        r
    }

    /// Stores `value` at `key`.
    pub fn put(&mut self, key: Vec<u8>, value: Vec<u8>) -> (r: Result<Vec<u8>, Error>)
        ensures
            final(self).history() == old(self).history().push(
                Exchange { call: Call::Put { key: key@, value: value@ }, answer: answer_view(r) },
            ),
    {
        let ghost call = Call::Put { key: key@, value: value@ };
        let r = self.service.put(key, value);
        proof {
            self.record@ = self.record@.push(Exchange { call, answer: answer_view(r) });
        }
        r
    }

    /// Stores `value` at `key` if the key is absent.
    pub fn add(&mut self, key: Vec<u8>, value: Vec<u8>) -> (r: Result<Vec<u8>, Error>)
        ensures
            final(self).history() == old(self).history().push(
                Exchange { call: Call::Add { key: key@, value: value@ }, answer: answer_view(r) },
            ),
    {
        let ghost call = Call::Add { key: key@, value: value@ };
        let r = self.service.add(key, value);
        proof {
            self.record@ = self.record@.push(Exchange { call, answer: answer_view(r) });
        }
        r
    }

    /// Stores `value` at `key` if what is stored there equals `expected`.
    pub fn cas(&mut self, key: Vec<u8>, expected: Option<Vec<u8>>, value: Vec<u8>) -> (r: Result<
        Vec<u8>,
        Error,
    >)
        ensures
            final(self).history() == old(self).history().push(
                Exchange {
                    call: Call::Cas { key: key@, expected: option_view(expected), value: value@ },
                    answer: answer_view(r),
                },
            ),
    {
        let ghost call = Call::Cas { key: key@, expected: option_view(expected), value: value@ };
        let r = self.service.cas(key, expected, value);
        proof {
            self.record@ = self.record@.push(Exchange { call, answer: answer_view(r) });
        }
        r
    }

    /// Lists the names directly under the prefix `dir`.
    pub fn scan(&mut self, dir: Vec<u8>) -> (r: Result<Vec<u8>, Error>)
        ensures
            final(self).history() == old(self).history().push(
                Exchange { call: Call::Scan { dir: dir@ }, answer: answer_view(r) },
            ),
    {
        let ghost call = Call::Scan { dir: dir@ };
        let r = self.service.scan(dir);
        proof {
            self.record@ = self.record@.push(Exchange { call, answer: answer_view(r) });
        }
        r
    }
}

} // verus!
