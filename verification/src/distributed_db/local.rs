//! A storage service in memory: the engine and the server's work on it,
//! without a wire in between.

use crate::distributed_db::db_client::{
    add_request, cas_request, get_request, put_request, scan_request,
};
use crate::distributed_db::db_server::{
    collect_children, is_no_overwrite, key_starts_with, plan, plan_request, respond_invoke,
    respond_read, respond_scan, respond_swap, respond_write, scan, starts_with, swap_applies,
    Plan, PlanView, NO_OVERWRITE,
};
use crate::distributed_db::{DbService, Error};
use crate::encoding::{bytes_equal, copy_bytes, u64_be_bytes};
use crate::labeled_fs::dir::dir_bytes;
use crate::labeled_fs::direntry::ROOT_UID;
use crate::labeled_fs::{stored_value, swap_status, uid_key, write_status};
use crate::record::lemma_message_bytes_injective;
use crate::record::{implicit_bool, optional_bytes, Message};
use crate::labeled_fs::utils::get_new_dir_bytes;
use crate::record::{items_view, message_bytes, option_view};
use crate::syscalls::{
    CompareAndSwapResponse, InvokeResponse, ReadDirResponse, ReadKeyResponse, WriteKeyResponse,
};
use vstd::prelude::*;

verus! {

/// A key and the value stored at it.
#[derive(Debug, Clone, PartialEq, Eq)]
pub struct Pair {
    pub key: Vec<u8>,
    pub value: Vec<u8>,
}

/// The mathematical value of a [`Pair`].
#[verifier::ext_equal]
pub struct PairView {
    pub key: Seq<u8>,
    pub value: Seq<u8>,
}

impl View for Pair {
    type V = PairView;

    open spec fn view(&self) -> PairView {
        PairView { key: self.key@, value: self.value@ }
    }
}

/// The value at `key`: that of the first pair with that key.
pub open spec fn value_at(c: Seq<PairView>, key: Seq<u8>) -> Option<Seq<u8>>
    decreases c.len(),
{
    if c.len() == 0 {
        None
    } else if c[0].key == key {
        Some(c[0].value)
    } else {
        value_at(c.skip(1), key)
    }
}

/// The pairs after `value` is stored at `key`: the first pair with that key
/// gets the value, or a new pair comes last.
pub open spec fn stored(c: Seq<PairView>, key: Seq<u8>, value: Seq<u8>) -> Seq<PairView>
    decreases c.len(),
{
    if c.len() == 0 {
        seq![PairView { key, value }]
    } else if c[0].key == key {
        seq![PairView { key, value }] + c.skip(1)
    } else {
        seq![c[0]] + stored(c.skip(1), key, value)
    }
}

/// The keys that start with `prefix`, in the order of the pairs.
pub open spec fn keys_under(c: Seq<PairView>, prefix: Seq<u8>) -> Seq<Seq<u8>>
    decreases c.len(),
{
    if c.len() == 0 {
        Seq::empty()
    } else if starts_with(c.last().key, prefix) {
        keys_under(c.drop_last(), prefix).push(c.last().key)
    } else {
        keys_under(c.drop_last(), prefix)
    }
}

/// What a write does: with `no_overwrite` a write to a key that is present
/// is refused and changes nothing; every other write stores the value.
pub open spec fn written(c: Seq<PairView>, key: Seq<u8>, value: Seq<u8>, no_overwrite: bool) -> (
    Seq<PairView>,
    bool,
) {
    if no_overwrite && value_at(c, key) is Some {
        (c, false)
    } else {
        (stored(c, key, value), true)
    }
}

/// What a compare-and-swap does: the value is stored if and only if what
/// is at the key equals what is expected.
pub open spec fn swapped(
    c: Seq<PairView>,
    key: Seq<u8>,
    expected: Option<Seq<u8>>,
    value: Seq<u8>,
) -> (Seq<PairView>, bool) {
    if value_at(c, key) == expected {
        (stored(c, key, value), true)
    } else {
        (c, false)
    }
}

/// After a value is stored at a key it is the value at that key, and the
/// values at other keys are as before.
pub proof fn lemma_stored(c: Seq<PairView>, key: Seq<u8>, value: Seq<u8>, other: Seq<u8>)
    ensures
        value_at(stored(c, key, value), key) == Some(value),
        other != key ==> value_at(stored(c, key, value), other) == value_at(c, other),
    decreases c.len(),
{
    let pair = PairView { key, value };
    if c.len() == 0 {
        assert(stored(c, key, value).skip(1) =~= Seq::<PairView>::empty());
        assert(value_at(Seq::<PairView>::empty(), other) is None);
    } else if c[0].key == key {
        assert((seq![pair] + c.skip(1)).skip(1) =~= c.skip(1));
    } else {
        assert((seq![c[0]] + stored(c.skip(1), key, value)).skip(1) =~= stored(
            c.skip(1),
            key,
            value,
        ));
        lemma_stored(c.skip(1), key, value, other);
    }
}

/// A compare-and-swap that takes place leaves its value at its key, and a
/// write that must not overwrite, if it is stored, leaves its value at a key
/// that was absent. Either leaves every other key as it was; and one that
/// does not take place, or is refused, leaves every key as it was.
pub proof fn lemma_writes_keep_other_keys(
    c: Seq<PairView>,
    key: Seq<u8>,
    expected: Option<Seq<u8>>,
    value: Seq<u8>,
    other: Seq<u8>,
)
    ensures
        swapped(c, key, expected, value).1 ==> value_at(c, key) == expected && value_at(
            swapped(c, key, expected, value).0,
            key,
        ) == Some(value),
        !swapped(c, key, expected, value).1 ==> swapped(c, key, expected, value).0 == c,
        written(c, key, value, true).1 ==> value_at(c, key) is None && value_at(
            written(c, key, value, true).0,
            key,
        ) == Some(value),
        !written(c, key, value, true).1 ==> written(c, key, value, true).0 == c,
        other != key ==> value_at(swapped(c, key, expected, value).0, other) == value_at(c, other)
            && value_at(written(c, key, value, true).0, other) == value_at(c, other),
{
    lemma_stored(c, key, value, other);
}

/// A write that must not overwrite changes nothing the second time: what
/// was created once is there, unchanged, whatever the second write brings.
pub proof fn lemma_add_twice(c: Seq<PairView>, key: Seq<u8>, first: Seq<u8>, second: Seq<u8>)
    ensures
        written(written(c, key, first, true).0, key, second, true) == (
            written(c, key, first, true).0,
            false,
        ),
        value_at(c, key) is None ==> value_at(written(c, key, first, true).0, key) == Some(first),
        value_at(c, key) is Some ==> written(c, key, first, true).0 == c,
{
    lemma_stored(c, key, first, key);
}

/// Where the first pair with the key `key` is at `i`, storing at `key`
/// changes the pair at `i`; where no pair has the key, it adds a pair.
pub proof fn lemma_stored_at(c: Seq<PairView>, key: Seq<u8>, value: Seq<u8>, i: int)
    requires
        0 <= i <= c.len(),
        forall|k: int| 0 <= k < i ==> (#[trigger] c[k]).key != key,
        i < c.len() ==> c[i].key == key,
    ensures
        i < c.len() ==> stored(c, key, value) == c.update(i, PairView { key, value }) && value_at(
            c,
            key,
        ) == Some(c[i].value),
        i == c.len() ==> stored(c, key, value) == c.push(PairView { key, value }) && value_at(
            c,
            key,
        ) is None,
    decreases i,
{
    let pair = PairView { key, value };
    if c.len() == 0 {
        assert(seq![pair] =~= c.push(pair));
    } else if i == 0 {
        assert(seq![pair] + c.skip(1) =~= c.update(0, pair));
    } else {
        let t = c.skip(1);
        assert forall|k: int| 0 <= k < i - 1 implies (#[trigger] t[k]).key != key by {
            assert(t[k] == c[k + 1]);
        }
        lemma_stored_at(t, key, value, i - 1);
        if i < c.len() {
            assert(seq![c[0]] + t.update(i - 1, pair) =~= c.update(i, pair));
        } else {
            assert(seq![c[0]] + t.push(pair) =~= c.push(pair));
        }
    }
}

/// A storage service in memory.
pub struct LocalDb {
    pairs: Vec<Pair>,
}

impl LocalDb {
    /// The pairs that the service holds, in the order in which their keys
    /// were first written.
    pub closed spec fn contents(&self) -> Seq<PairView> {
        Seq::new(self.pairs@.len(), |i: int| self.pairs@[i]@)
    }

    /// A service that holds nothing.
    pub fn empty() -> (r: LocalDb)
        ensures
            r.contents() == Seq::<PairView>::empty(),
    {
        let r = LocalDb { pairs: Vec::new() };
        assert(r.contents() =~= Seq::<PairView>::empty());
        r
    }

    /// A service that holds the empty root directory, as a storage server
    /// does when it first starts.
    pub fn new() -> (r: LocalDb)
        ensures
            r.contents() == seq![
                PairView { key: u64_be_bytes(ROOT_UID), value: dir_bytes(Seq::empty()) },
            ],
    {
        let mut r = LocalDb::empty();
        r.init_root();
        r
    }

    /// Creates the empty root directory if there is no root directory.
    /// This is what a storage server does whenever it starts: on a store
    /// that has a root directory it changes nothing.
    pub fn init_root(&mut self) -> (created: bool)
        ensures
            (final(self).contents(), created) == written(
                old(self).contents(),
                u64_be_bytes(ROOT_UID),
                dir_bytes(Seq::empty()),
                true,
            ),
    {
        self.store(uid_key(ROOT_UID), get_new_dir_bytes(), true)
    }

    /// The position of the pair with the key `key`.
    fn find(&self, key: &[u8]) -> (r: usize)
        ensures
            r <= self.pairs.len(),
            forall|k: int| 0 <= k < r ==> (#[trigger] self.contents()[k]).key != key@,
            r < self.pairs.len() ==> self.contents()[r as int].key == key@,
    {
        let mut i: usize = 0;
        while i < self.pairs.len()
            invariant
                0 <= i <= self.pairs.len(),
                forall|k: int| 0 <= k < i ==> (#[trigger] self.contents()[k]).key != key@,
            decreases self.pairs.len() - i,
        {
            if bytes_equal(self.pairs[i].key.as_slice(), key) {
                return i;
            }
            i += 1;
        }
        i
    }

    /// The value at `key`.
    pub fn fetch(&self, key: &[u8]) -> (r: Option<Vec<u8>>)
        ensures
            option_view(r) == value_at(self.contents(), key@),
    {
        let i = self.find(key);
        proof {
            lemma_stored_at(self.contents(), key@, Seq::empty(), i as int);
        }
        if i < self.pairs.len() {
            Some(copy_bytes(&self.pairs[i].value))
        } else {
            None
        }
    }

    /// Stores `value` at `key`, unless `no_overwrite` is set and the key is
    /// present. Returns whether the value was stored.
    pub fn store(&mut self, key: Vec<u8>, value: Vec<u8>, no_overwrite: bool) -> (r: bool)
        ensures
            (final(self).contents(), r) == written(old(self).contents(), key@, value@, no_overwrite),
    {
        let i = self.find(key.as_slice());
        let ghost before = self.contents();
        proof {
            lemma_stored_at(before, key@, value@, i as int);
        }
        if i < self.pairs.len() {
            if no_overwrite {
                return false;
            }
            self.pairs[i] = Pair { key, value };
            assert(self.contents() =~= before.update(i as int, PairView { key: key@, value: value@ }));
        } else {
            self.pairs.push(Pair { key, value });
            assert(self.contents() =~= before.push(PairView { key: key@, value: value@ }));
        }
        true
    }

    /// The keys that start with `prefix`.
    pub fn keys_with_prefix(&self, prefix: &[u8]) -> (r: Vec<Vec<u8>>)
        ensures
            items_view(r@) == keys_under(self.contents(), prefix@),
    {
        let mut out: Vec<Vec<u8>> = Vec::new();
        let mut i: usize = 0;
        let ghost c = self.contents();
        assert(c.take(0) =~= Seq::<PairView>::empty());
        assert(items_view(out@) =~= Seq::<Seq<u8>>::empty());
        while i < self.pairs.len()
            invariant
                0 <= i <= self.pairs.len(),
                c == self.contents(),
                items_view(out@) == keys_under(c.take(i as int), prefix@),
            decreases self.pairs.len() - i,
        {
            proof {
                assert(c.take(i + 1).drop_last() =~= c.take(i as int));
                assert(c.take(i + 1).last() == self.pairs[i as int]@);
            }
            if key_starts_with(self.pairs[i].key.as_slice(), prefix) {
                let ghost before = items_view(out@);
                out.push(copy_bytes(&self.pairs[i].key));
                assert(items_view(out@) =~= before.push(self.pairs[i as int].key@));
            }
            i += 1;
        }
        assert(c.take(self.pairs.len() as int) =~= c);
        out
    }

    /// Runs the plan `plan` on the engine and returns the response.
    pub fn apply(&mut self, plan: Plan) -> (r: Vec<u8>)
        ensures
            final(self).contents() == applied(old(self).contents(), plan@).0,
            response_is(r@, applied(old(self).contents(), plan@).1),
    {
        match plan {
            Plan::Read { key } => respond_read(self.fetch(key.as_slice())),
            Plan::Write { key, value, flags } => {
                let success = self.store(key, value, is_no_overwrite(flags));
                respond_write(success)
            },
            Plan::Scan { prefix } => {
                let keys = self.keys_with_prefix(prefix.as_slice());
                respond_scan(collect_children(prefix.as_slice(), &keys))
            },
            Plan::Swap { key, expected, value } => {
                let old = self.fetch(key.as_slice());
                let success = swap_applies(&expected, &old);
                if success {
                    let _ = self.store(key, value, false);
                }
                respond_swap(success, old)
            },
            Plan::Reply { success } => respond_invoke(success),
        }
    }

    /// Serves the request whose bytes are `payload`: the response, or
    /// `Rpc` if the bytes are no request that an engine can serve.
    pub fn handle_request(&mut self, payload: &[u8]) -> (r: Result<
        Vec<u8>,
        crate::distributed_db::db_server::Error,
    >)
        ensures
            r matches Ok(bytes) ==> exists|request: crate::syscalls::Syscall| #[trigger]
                serves(request, payload@, old(self).contents(), final(self).contents(), bytes@),
            r matches Err(e) ==> e == crate::distributed_db::db_server::Error::Rpc,
            r is Err ==> final(self).contents() == old(self).contents(),
            r is Err ==> forall|request: crate::syscalls::Syscall| #[trigger]
                message_bytes(&request) == payload@
                    ==> crate::distributed_db::db_server::plan_of(request) is None,
    {
        let p = match plan_request(payload) {
            Err(e) => {
                return Err(e);
            },
            Ok(p) => p,
        };
        let ghost pv = p@;
        let bytes = self.apply(p);
        let r = Ok(bytes);
        proof {
            let request = choose|request: crate::syscalls::Syscall| #[trigger]
                message_bytes(&request) == payload@ && crate::distributed_db::db_server::plan_of(
                    request,
                ) == Some(pv);
            let answer = r->Ok_0@;
            assert(serves(request, payload@, old(self).contents(), self.contents(), answer));
        }
        r
    }
}

/// The request `request` has the bytes `payload`, and serving it on the
/// pairs `before` leaves the pairs `after` and answers with `bytes`.
pub open spec fn serves(
    request: crate::syscalls::Syscall,
    payload: Seq<u8>,
    before: Seq<PairView>,
    after: Seq<PairView>,
    bytes: Seq<u8>,
) -> bool {
    let p = crate::distributed_db::db_server::plan_of(request);
    &&& message_bytes(&request) == payload
    &&& p is Some
    &&& after == applied(before, p->Some_0).0
    &&& response_is(bytes, applied(before, p->Some_0).1)
}

/// What a server answers, as a mathematical value.
#[verifier::ext_equal]
pub enum Response {
    /// The value found by a read.
    Value(Option<Seq<u8>>),
    /// Whether a write was stored.
    Written(bool),
    /// The names found by a scan.
    Names(Seq<Seq<u8>>),
    /// Whether a compare-and-swap took place, and the value before it.
    Swapped(bool, Option<Seq<u8>>),
    /// Whether an invocation succeeded.
    Invoked(bool),
}

/// What the plan `plan` does to the pairs `c`, and what is answered: a read
/// answers with the value at the key; a write stores as [`written`] says; a
/// scan answers with the names of the children among the keys under the
/// prefix; a compare-and-swap stores as [`swapped`] says and answers with
/// the value before it.
pub open spec fn applied(c: Seq<PairView>, plan: PlanView) -> (Seq<PairView>, Response) {
    match plan {
        PlanView::Read { key } => (c, Response::Value(value_at(c, key))),
        PlanView::Write { key, value, flags } => {
            let w = written(c, key, value, flags & NO_OVERWRITE != 0);
            (w.0, Response::Written(w.1))
        },
        PlanView::Scan { prefix } => (c, Response::Names(scan(prefix, keys_under(c, prefix)).found)),
        PlanView::Swap { key, expected, value } => {
            let s = swapped(c, key, expected, value);
            (s.0, Response::Swapped(s.1, value_at(c, key)))
        },
        PlanView::Reply { success } => (c, Response::Invoked(success)),
    }
}

/// The bytes `bytes` are the encoding of the response `response`.
pub open spec fn response_is(bytes: Seq<u8>, response: Response) -> bool {
    match response {
        Response::Value(value) => exists|m: ReadKeyResponse| #[trigger]
            message_bytes(&m) == bytes && option_view(m.value) == value,
        Response::Written(success) => exists|m: WriteKeyResponse| #[trigger]
            message_bytes(&m) == bytes && m.success == success,
        Response::Names(keys) => exists|m: ReadDirResponse| #[trigger]
            message_bytes(&m) == bytes && items_view(m.keys@) == keys,
        Response::Swapped(success, old) => exists|m: CompareAndSwapResponse| #[trigger]
            message_bytes(&m) == bytes && m.success == success && option_view(m.old) == old,
        Response::Invoked(success) => exists|m: InvokeResponse| #[trigger]
            message_bytes(&m) == bytes && m.success == success,
    }
}

impl DbService for LocalDb {
    fn get(&mut self, key: Vec<u8>) -> (r: Result<Vec<u8>, Error>)
        ensures
            r is Ok,
            final(self).contents() == old(self).contents(),
            response_is(r->Ok_0@, Response::Value(value_at(old(self).contents(), key@))),
    {
        let bytes = self.apply(Plan::Read { key });
        let r = Ok(bytes);
        r
    }

    fn put(&mut self, key: Vec<u8>, value: Vec<u8>) -> (r: Result<Vec<u8>, Error>)
        ensures
            r is Ok,
            final(self).contents() == stored(old(self).contents(), key@, value@),
            response_is(r->Ok_0@, Response::Written(true)),
    {
        let bytes = self.apply(Plan::Write { key, value, flags: 0 });
        let r = Ok(bytes);
        proof {
            assert(0u32 & NO_OVERWRITE == 0) by (bit_vector);
        }
        r
    }

    fn add(&mut self, key: Vec<u8>, value: Vec<u8>) -> (r: Result<Vec<u8>, Error>)
        ensures
            r is Ok,
            final(self).contents() == written(old(self).contents(), key@, value@, true).0,
            response_is(
                r->Ok_0@,
                Response::Written(written(old(self).contents(), key@, value@, true).1),
            ),
    {
        let bytes = self.apply(Plan::Write { key, value, flags: NO_OVERWRITE });
        let r = Ok(bytes);
        proof {
            assert(NO_OVERWRITE & NO_OVERWRITE != 0) by (bit_vector);
        }
        r
    }

    fn cas(&mut self, key: Vec<u8>, expected: Option<Vec<u8>>, value: Vec<u8>) -> (r: Result<
        Vec<u8>,
        Error,
    >)
        ensures
            r is Ok,
            final(self).contents() == swapped(
                old(self).contents(),
                key@,
                option_view(expected),
                value@,
            ).0,
            response_is(
                r->Ok_0@,
                Response::Swapped(
                    swapped(old(self).contents(), key@, option_view(expected), value@).1,
                    value_at(old(self).contents(), key@),
                ),
            ),
    {
        let bytes = self.apply(Plan::Swap { key, expected, value });
        let r = Ok(bytes);
        r
    }

    fn scan(&mut self, dir: Vec<u8>) -> (r: Result<Vec<u8>, Error>)
        ensures
            r is Ok,
            final(self).contents() == old(self).contents(),
            response_is(
                r->Ok_0@,
                Response::Names(
                    scan(
                        crate::distributed_db::db_server::directory_prefix(dir@),
                        keys_under(
                            old(self).contents(),
                            crate::distributed_db::db_server::directory_prefix(dir@),
                        ),
                    ).found,
                ),
            ),
    {
        let bytes = self.apply(
            Plan::Scan { prefix: crate::distributed_db::db_server::dir_prefix(dir) },
        );
        let r = Ok(bytes);
        r
    }
}

/// The plan of a starting server, as a mathematical value.
pub open spec fn init_plan_view() -> PlanView {
    PlanView::Write {
        key: u64_be_bytes(ROOT_UID),
        value: dir_bytes(Seq::empty()),
        flags: NO_OVERWRITE,
    }
}

/// Starting a server twice on the same store is starting it once: after
/// the first start there is a root directory, and the second start changes
/// nothing. A root directory that was there before the first start is left
/// as it was.
pub proof fn lemma_init_idempotent(c: Seq<PairView>)
    ensures
        applied(applied(c, init_plan_view()).0, init_plan_view()).0 == applied(
            c,
            init_plan_view(),
        ).0,
        value_at(applied(c, init_plan_view()).0, u64_be_bytes(ROOT_UID)) is Some,
        value_at(c, u64_be_bytes(ROOT_UID)) is Some ==> applied(c, init_plan_view()).0 == c,
{
    assert(NO_OVERWRITE & NO_OVERWRITE != 0) by (bit_vector);
    lemma_add_twice(c, u64_be_bytes(ROOT_UID), dir_bytes(Seq::empty()), dir_bytes(Seq::empty()));
}

/// What a server answers to a read is read back as the value that was
/// found: the namespace takes the value, and takes an absent key for an
/// error of the engine.
pub proof fn lemma_value_read_back(bytes: Seq<u8>, value: Option<Seq<u8>>)
    requires
        response_is(bytes, Response::Value(value)),
    ensures
        stored_value(Ok(bytes)) == match value {
            Some(v) => Ok::<Seq<u8>, crate::labeled_fs::Error>(v),
            None => Err(crate::labeled_fs::Error::EngineError),
        },
{
    reveal(stored_value);
    let m0 = choose|m: ReadKeyResponse| #[trigger]
        message_bytes(&m) == bytes && option_view(m.value) == value;
    assert forall|m: ReadKeyResponse| message_bytes(&m) == bytes implies option_view(m.value)
        == value by {
        lemma_message_bytes_injective(&m, &m0);
        let a = optional_bytes(option_view(m.value));
        let b = optional_bytes(option_view(m0.value));
        assert(m.slots()[0] == m0.slots()[0]);
        assert(a.len() == b.len());
        if a.len() > 0 {
            assert(a[0] == b[0]);
        }
    }
    if value is Some {
        assert(crate::labeled_fs::holds_value(bytes, m0));
    }
}

/// What a server answers to a write is read back as the success that it
/// reports.
pub proof fn lemma_write_read_back(bytes: Seq<u8>, success: bool)
    requires
        response_is(bytes, Response::Written(success)),
    ensures
        write_status(Ok(bytes)) == Ok::<bool, crate::labeled_fs::Error>(success),
{
    reveal(write_status);
    let m0 = choose|m: WriteKeyResponse| #[trigger]
        message_bytes(&m) == bytes && m.success == success;
    assert forall|m: WriteKeyResponse| message_bytes(&m) == bytes implies m.success == success by {
        lemma_message_bytes_injective(&m, &m0);
        assert(m.slots()[0] == m0.slots()[0]);
        assert(implicit_bool(m.success).len() == implicit_bool(m0.success).len());
    }
}

/// What a server answers to a compare-and-swap is read back as the success
/// that it reports.
pub proof fn lemma_swap_read_back(bytes: Seq<u8>, success: bool, old: Option<Seq<u8>>)
    requires
        response_is(bytes, Response::Swapped(success, old)),
    ensures
        swap_status(Ok(bytes)) == Ok::<bool, crate::labeled_fs::Error>(success),
{
    reveal(swap_status);
    let m0 = choose|m: CompareAndSwapResponse| #[trigger]
        message_bytes(&m) == bytes && m.success == success && option_view(m.old) == old;
    assert forall|m: CompareAndSwapResponse| message_bytes(&m) == bytes implies m.success
        == success by {
        lemma_message_bytes_injective(&m, &m0);
        assert(m.slots()[0] == m0.slots()[0]);
        assert(implicit_bool(m.success).len() == implicit_bool(m0.success).len());
    }
}

} // verus!
