//! What a storage server decides: which work a request asks of the storage
//! engine, and which response goes back for what the engine found.
//!
//! A server reads one framed request, asks [`plan_request`] what to do,
//! runs that plan as one transaction of its engine, encodes the response
//! with one of the `respond_` functions and writes it back in a frame.

use crate::encoding::{bytes_equal, copy_bytes, u64_be_bytes, u64_to_be_bytes};
use crate::labeled_fs::dir::{dir_bytes, Directory};
use crate::labeled_fs::direntry::ROOT_UID;
use crate::record::{decode, encode_to_vec, items_view, message_bytes, option_view};
use crate::syscalls::{
    CompareAndSwapResponse, InvokeResponse, ReadDirResponse, ReadKeyResponse, Syscall,
    WriteKeyResponse,
};
use vstd::prelude::*;

verus! {

/// Why a connection to a client is given up.
#[derive(Debug, Clone, Copy, PartialEq, Eq, Structural)]
pub enum Error {
    /// A request could not be decoded, or asks for what no engine does.
    Rpc,
    /// Writing to the connection failed.
    TcpWrite,
    /// Reading from the connection failed.
    TcpRead,
    /// The engine has no database to scan.
    RootfsNotExist,
}

/// The separator of directory-shaped keys.
pub const KEY_SEPARATOR: u8 = 47;

/// The write flag that makes a write a create-if-absent.
pub const NO_OVERWRITE: u32 = 0x10;

/// The write flags that the engine knows.
pub const KNOWN_WRITE_FLAGS: u32 = 0x60070;

/// The function that a server answers with success.
pub const PING: &'static str = "ping";

/// Wraps `WriteFlags::NO_OVERWRITE` and `bits` of the crate lmdb: the
/// number of the no-overwrite flag, which lmdb-sys defines as 0x10.
#[verifier::external_body]
fn no_overwrite_bits() -> (r: u32)
    ensures
        r == NO_OVERWRITE,
{
    lmdb::WriteFlags::NO_OVERWRITE.bits()
}

/// Wraps `WriteFlags::from_bits` of the crate lmdb: whether `bits` holds
/// no other bits than those of the five write flags, which lmdb-sys defines
/// as 0x10, 0x20, 0x40, 0x20000 and 0x40000.
#[verifier::external_body]
pub(crate) fn write_flags_known(bits: u32) -> (r: bool)
    ensures
        r == (bits & !KNOWN_WRITE_FLAGS == 0),
{
    lmdb::WriteFlags::from_bits(bits).is_some()
}

/// What a request asks of the engine.
#[derive(Debug, Clone, PartialEq, Eq)]
pub enum Plan {
    /// Look up `key`.
    Read { key: Vec<u8> },
    /// Store `value` at `key`, with the engine's write flags `flags`.
    Write { key: Vec<u8>, value: Vec<u8>, flags: u32 },
    /// Walk the keys from `prefix` on, in order.
    Scan { prefix: Vec<u8> },
    /// Look up `key`, and store `value` there if what was found equals
    /// `expected`.
    Swap { key: Vec<u8>, expected: Option<Vec<u8>>, value: Vec<u8> },
    /// Nothing: the response is known.
    Reply { success: bool },
}

/// The mathematical value of a [`Plan`].
#[verifier::ext_equal]
pub enum PlanView {
    Read { key: Seq<u8> },
    Write { key: Seq<u8>, value: Seq<u8>, flags: u32 },
    Scan { prefix: Seq<u8> },
    Swap { key: Seq<u8>, expected: Option<Seq<u8>>, value: Seq<u8> },
    Reply { success: bool },
}

impl View for Plan {
    type V = PlanView;

    open spec fn view(&self) -> PlanView {
        match self {
            Plan::Read { key } => PlanView::Read { key: key@ },
            Plan::Write { key, value, flags } => PlanView::Write {
                key: key@,
                value: value@,
                flags: *flags,
            },
            Plan::Scan { prefix } => PlanView::Scan { prefix: prefix@ },
            Plan::Swap { key, expected, value } => PlanView::Swap {
                key: key@,
                expected: option_view(*expected),
                value: value@,
            },
            Plan::Reply { success } => PlanView::Reply { success: *success },
        }
    }
}

/// The prefix under which the children of the directory-shaped key `dir`
/// lie: `dir` itself if it ends in the separator, else `dir` followed by
/// the separator.
pub open spec fn directory_prefix(dir: Seq<u8>) -> Seq<u8> {
    if dir.len() > 0 && dir.last() == KEY_SEPARATOR {
        dir
    } else {
        dir.push(KEY_SEPARATOR)
    }
}

/// The plan for a request. A write whose flags hold a bit that the engine
/// does not know has no plan; absent flags are no flags. An invocation
/// succeeds if and only if it calls `ping`.
pub open spec fn plan_of(request: Syscall) -> Option<PlanView> {
    match request {
        Syscall::ReadKey(rk) => Some(PlanView::Read { key: rk.key@ }),
        Syscall::WriteKey(wk) => {
            let flags = match wk.flags {
                Some(f) => f,
                None => 0u32,
            };
            if flags & !KNOWN_WRITE_FLAGS == 0 {
                Some(PlanView::Write { key: wk.key@, value: wk.value@, flags })
            } else {
                None
            }
        },
        Syscall::ReadDir(req) => Some(PlanView::Scan { prefix: directory_prefix(req.dir@) }),
        Syscall::CompareAndSwap(cas) => Some(
            PlanView::Swap { key: cas.key@, expected: option_view(cas.expected), value: cas.value@ },
        ),
        Syscall::Invoke(invoke) => Some(PlanView::Reply { success: invoke.function@ == PING@ }),
    }
}

/// The prefix under which the children of `dir` lie.
pub fn dir_prefix(dir: Vec<u8>) -> (r: Vec<u8>)
    ensures
        r@ == directory_prefix(dir@),
{
    let mut dir = dir;
    let n = dir.len();
    if n == 0 || dir[n - 1] != KEY_SEPARATOR {
        dir.push(KEY_SEPARATOR);
    }
    dir
}

/// The plan for the request `request`, or `Rpc` if it has none.
pub fn plan(request: Syscall) -> (r: Result<Plan, Error>)
    ensures
        match r {
            Ok(p) => plan_of(request) == Some(p@),
            Err(e) => e == Error::Rpc && plan_of(request) is None,
        },
{
    match request {
        Syscall::ReadKey(rk) => Ok(Plan::Read { key: rk.key }),
        Syscall::WriteKey(wk) => {
            let flags: u32 = match wk.flags {
                Some(f) => f,
                None => 0,
            };
            if write_flags_known(flags) {
                Ok(Plan::Write { key: wk.key, value: wk.value, flags })
            } else {
                Err(Error::Rpc)
            }
        },
        Syscall::ReadDir(req) => Ok(Plan::Scan { prefix: dir_prefix(req.dir) }),
        Syscall::CompareAndSwap(cas) => Ok(
            Plan::Swap { key: cas.key, expected: cas.expected, value: cas.value },
        ),
        Syscall::Invoke(invoke) => {
            let ping = PING.to_owned();
            Ok(Plan::Reply { success: invoke.function == ping })
        },
    }
}

/// The plan for the request whose bytes are `payload`, or `Rpc` if the
/// bytes are no request or the request has no plan.
pub fn plan_request(payload: &[u8]) -> (r: Result<Plan, Error>)
    ensures
        match r {
            Ok(p) => exists|request: Syscall| #[trigger]
                message_bytes(&request) == payload@ && plan_of(request) == Some(p@),
            Err(e) => e == Error::Rpc && forall|request: Syscall| #[trigger]
                message_bytes(&request) == payload@ ==> plan_of(request) is None,
        },
{
    match decode::<Syscall>(payload) {
        None => Err(Error::Rpc),
        Some(request) => {
            let ghost found = request;
            let r = plan(request);
            proof {
                if r is Err {
                    assert forall|other: Syscall| #[trigger]
                        message_bytes(&other) == payload@ implies plan_of(other) is None by {
                        crate::syscalls::lemma_write_flags_determined(&other, &found);
                    }
                } else {
                    assert(message_bytes(&found) == payload@);
                }
            }
            r
        },
    }
}

/// What a server asks of its engine when it starts: to create the empty
/// root directory, unless there is a root directory.
pub fn init_plan() -> (r: Plan)
    ensures
        r@ == (PlanView::Write {
            key: u64_be_bytes(ROOT_UID),
            value: dir_bytes(Seq::empty()),
            flags: NO_OVERWRITE,
        }),
{
    Plan::Write {
        key: u64_to_be_bytes(ROOT_UID),
        value: Directory::new().to_vec(),
        flags: no_overwrite_bits(),
    }
}

/// Whether a write with the flags `flags` must not replace a value.
pub fn is_no_overwrite(flags: u32) -> (r: bool)
    ensures
        r == (flags & NO_OVERWRITE != 0),
{
    flags & no_overwrite_bits() != 0
}

/// Whether a compare-and-swap takes place: what is stored equals what is
/// expected, where `None` stands for an absent key.
pub fn swap_applies(expected: &Option<Vec<u8>>, stored: &Option<Vec<u8>>) -> (r: bool)
    ensures
        r == (option_view(*expected) == option_view(*stored)),
{
    match (expected, stored) {
        (None, None) => true,
        (Some(a), Some(b)) => bytes_equal(a.as_slice(), b.as_slice()),
        _ => false,
    }
}

/// The response to a read that found `value`.
pub fn respond_read(value: Option<Vec<u8>>) -> (r: Vec<u8>)
    ensures
        r@ == message_bytes(&ReadKeyResponse { value }),
{
    encode_to_vec(&ReadKeyResponse { value })
}

/// The response to a write that succeeded or not.
pub fn respond_write(success: bool) -> (r: Vec<u8>)
    ensures
        r@ == message_bytes(&WriteKeyResponse { success }),
{
    encode_to_vec(&WriteKeyResponse { success })
}

/// The response to a compare-and-swap that took place or not, with what
/// was stored before it.
pub fn respond_swap(success: bool, old: Option<Vec<u8>>) -> (r: Vec<u8>)
    ensures
        r@ == message_bytes(&CompareAndSwapResponse { success, old }),
{
    encode_to_vec(&CompareAndSwapResponse { success, old })
}

/// The response to a scan that found the names `keys`.
pub fn respond_scan(keys: Vec<Vec<u8>>) -> (r: Vec<u8>)
    ensures
        r@ == message_bytes(&ReadDirResponse { keys }),
{
    encode_to_vec(&ReadDirResponse { keys })
}

/// The response to an invocation that succeeded or not.
pub fn respond_invoke(success: bool) -> (r: Vec<u8>)
    ensures
        r@ == message_bytes(&InvokeResponse { success }),
{
    encode_to_vec(&InvokeResponse { success })
}

/// The key `key` starts with `prefix`.
pub open spec fn starts_with(key: Seq<u8>, prefix: Seq<u8>) -> bool {
    prefix.len() <= key.len() && key.take(prefix.len() as int) == prefix
}

/// The first segment of `rest`: its bytes up to and including the first
/// separator, or all of them if it holds none.
pub open spec fn first_segment(rest: Seq<u8>) -> Seq<u8>
    decreases rest.len(),
{
    if rest.len() == 0 {
        Seq::empty()
    } else if rest[0] == KEY_SEPARATOR {
        seq![KEY_SEPARATOR]
    } else {
        seq![rest[0]] + first_segment(rest.skip(1))
    }
}

/// What a scan has found in the keys that it has walked.
#[verifier::ext_equal]
pub struct Scan {
    /// The names found, each once, in the order in which they were found.
    pub found: Seq<Seq<u8>>,
    /// A key that does not start with the prefix has ended the scan.
    pub stopped: bool,
}

/// The scan of the keys `keys`, in order, for the children of `prefix`. The
/// first key that does not start with the prefix ends the scan. Of every
/// other key, what follows the prefix gives a name, its first segment; a
/// name that is empty or was found before is passed over.
pub open spec fn scan(prefix: Seq<u8>, keys: Seq<Seq<u8>>) -> Scan
    decreases keys.len(),
{
    if keys.len() == 0 {
        Scan { found: Seq::empty(), stopped: false }
    } else {
        let s = scan(prefix, keys.drop_last());
        let key = keys.last();
        if s.stopped {
            s
        } else if !starts_with(key, prefix) {
            Scan { found: s.found, stopped: true }
        } else {
            let name = first_segment(key.skip(prefix.len() as int));
            if name.len() == 0 || s.found.contains(name) {
                s
            } else {
                Scan { found: s.found.push(name), stopped: false }
            }
        }
    }
}

/// No name occurs twice in `names`, and none is empty.
pub open spec fn distinct_names(names: Seq<Seq<u8>>) -> bool {
    &&& forall|i: int, j: int| 0 <= i < j < names.len() ==> names[i] != names[j]
    &&& forall|i: int| 0 <= i < names.len() ==> (#[trigger] names[i]).len() > 0
}

/// No name is found twice, and none is empty.
pub proof fn lemma_scan_unique(prefix: Seq<u8>, keys: Seq<Seq<u8>>)
    ensures
        distinct_names(scan(prefix, keys).found),
    decreases keys.len(),
{
    if keys.len() > 0 {
        let s = scan(prefix, keys.drop_last());
        let t = scan(prefix, keys);
        lemma_scan_unique(prefix, keys.drop_last());
        if t.found != s.found {
            let name = first_segment(keys.last().skip(prefix.len() as int));
            assert(t.found == s.found.push(name));
            assert forall|i: int, j: int| 0 <= i < j < t.found.len() implies t.found[i]
                != t.found[j] by {
                if j == s.found.len() {
                    assert(s.found[i] == t.found[i]);
                    assert(s.found.contains(s.found[i]));
                }
            }
        }
    }
}

/// Whether `key` starts with `prefix`.
pub fn key_starts_with(key: &[u8], prefix: &[u8]) -> (r: bool)
    ensures
        r == starts_with(key@, prefix@),
{
    if prefix.len() > key.len() {
        return false;
    }
    bytes_equal(vstd::slice::slice_subrange(key, 0, prefix.len()), prefix)
}

/// The first segment of what follows the first `from` bytes of `key`.
pub fn segment_after(key: &[u8], from: usize) -> (r: Vec<u8>)
    requires
        from <= key.len(),
    ensures
        r@ == first_segment(key@.skip(from as int)),
{
    let mut out: Vec<u8> = Vec::new();
    let mut i: usize = from;
    let ghost rest = key@.skip(from as int);
    assert(rest.skip(0) =~= rest);
    while i < key.len()
        invariant
            from <= i <= key.len(),
            rest == key@.skip(from as int),
            out@ + first_segment(rest.skip(i - from)) == first_segment(rest),
        decreases key.len() - i,
    {
        let ghost tail = rest.skip(i - from);
        let b: u8 = key[i];
        let ghost before = out@;
        proof {
            assert(tail[0] == b);
            assert(tail.skip(1) =~= rest.skip(i + 1 - from));
        }
        out.push(b);
        if b == KEY_SEPARATOR {
            assert(before + seq![KEY_SEPARATOR] =~= out@);
            return out;
        }
        proof {
            assert(out@ + first_segment(rest.skip(i + 1 - from)) =~= before + (seq![b]
                + first_segment(tail.skip(1))));
        }
        i += 1;
    }
    proof {
        assert(rest.skip(key.len() - from).len() == 0);
        assert(out@ + Seq::<u8>::empty() =~= out@);
    }
    out
}

/// Whether `name` is among `names`.
fn has_name(names: &Vec<Vec<u8>>, name: &Vec<u8>) -> (r: bool)
    ensures
        r == items_view(names@).contains(name@),
{
    let mut i: usize = 0;
    while i < names.len()
        invariant
            0 <= i <= names.len(),
            forall|k: int| 0 <= k < i ==> items_view(names@)[k] != name@,
        decreases names.len() - i,
    {
        if bytes_equal(names[i].as_slice(), name.as_slice()) {
            assert(items_view(names@)[i as int] == name@);
            return true;
        }
        i += 1;
    }
    false
}

/// The names of the children of `prefix` among the keys `keys`, which are
/// the keys of the engine from `prefix` on, in order.
pub fn collect_children(prefix: &[u8], keys: &Vec<Vec<u8>>) -> (r: Vec<Vec<u8>>)
    ensures
        items_view(r@) == scan(prefix@, items_view(keys@)).found,
{
    let mut found: Vec<Vec<u8>> = Vec::new();
    let mut i: usize = 0;
    let ghost all = items_view(keys@);
    assert(all.take(0) =~= Seq::<Seq<u8>>::empty());
    assert(items_view(found@) =~= Seq::<Seq<u8>>::empty());
    while i < keys.len()
        invariant
            0 <= i <= keys.len(),
            all == items_view(keys@),
            items_view(found@) == scan(prefix@, all.take(i as int)).found,
            !scan(prefix@, all.take(i as int)).stopped,
        decreases keys.len() - i,
    {
        proof {
            assert(all.take(i + 1).drop_last() =~= all.take(i as int));
            assert(all.take(i + 1).last() == keys[i as int]@);
        }
        let key = keys[i].as_slice();
        if !key_starts_with(key, prefix) {
            proof {
                lemma_scan_stopped(prefix@, all, i + 1);
            }
            return found;
        }
        let name = segment_after(key, prefix.len());
        if name.len() > 0 && !has_name(&found, &name) {
            let ghost before = items_view(found@);
            let ghost added = name@;
            found.push(name);
            assert(items_view(found@) =~= before.push(added));
        }
        i += 1;
    }
    assert(all.take(keys.len() as int) =~= all);
    found
}

/// A scan that has stopped finds nothing more.
pub proof fn lemma_scan_stopped(prefix: Seq<u8>, keys: Seq<Seq<u8>>, i: int)
    requires
        0 <= i <= keys.len(),
        scan(prefix, keys.take(i)).stopped,
    ensures
        scan(prefix, keys) == scan(prefix, keys.take(i)),
    decreases keys.len() - i,
{
    if i < keys.len() {
        assert(keys.take(i + 1).drop_last() =~= keys.take(i));
        lemma_scan_stopped(prefix, keys, i + 1);
    } else {
        assert(keys.take(i) =~= keys);
    }
}

/// The key `a` comes before the key `b` in the order in which an engine
/// holds its keys: byte by byte, and a key before every key that it starts.
pub open spec fn key_before(a: Seq<u8>, b: Seq<u8>) -> bool
    decreases a.len(),
{
    if b.len() == 0 {
        false
    } else if a.len() == 0 {
        true
    } else if a[0] != b[0] {
        a[0] < b[0]
    } else {
        key_before(a.skip(1), b.skip(1))
    }
}

/// The keys of `keys` from the first that does not come before `prefix`:
/// where a walk of the keys from `prefix` on starts.
pub open spec fn keys_from(prefix: Seq<u8>, keys: Seq<Seq<u8>>) -> Seq<Seq<u8>>
    decreases keys.len(),
{
    if keys.len() == 0 {
        Seq::empty()
    } else if key_before(keys[0], prefix) {
        keys_from(prefix, keys.skip(1))
    } else {
        keys
    }
}

/// Whether the key `a` comes before the key `b`.
pub fn key_is_before(a: &[u8], b: &[u8]) -> (r: bool)
    ensures
        r == key_before(a@, b@),
{
    let mut i: usize = 0;
    assert(a@.skip(0) =~= a@);
    assert(b@.skip(0) =~= b@);
    while i < a.len() && i < b.len()
        invariant
            0 <= i <= a.len(),
            i <= b.len(),
            key_before(a@, b@) == key_before(a@.skip(i as int), b@.skip(i as int)),
        decreases a.len() - i,
    {
        proof {
            assert(a@.skip(i as int)[0] == a@[i as int]);
            assert(b@.skip(i as int)[0] == b@[i as int]);
            assert(a@.skip(i as int).skip(1) =~= a@.skip(i + 1));
            assert(b@.skip(i as int).skip(1) =~= b@.skip(i + 1));
        }
        if a[i] != b[i] {
            return a[i] < b[i];
        }
        i += 1;
    }
    i < b.len()
}

/// The names of the children of `prefix` among all the keys of an engine,
/// in order: the keys are walked from the first that does not come before
/// `prefix`.
pub fn scan_children(prefix: &[u8], keys: &Vec<Vec<u8>>) -> (r: Vec<Vec<u8>>)
    ensures
        items_view(r@) == scan(prefix@, keys_from(prefix@, items_view(keys@))).found,
{
    let ghost all = items_view(keys@);
    let mut i: usize = 0;
    assert(all.skip(0) =~= all);
    while i < keys.len() && key_is_before(keys[i].as_slice(), prefix)
        invariant
            0 <= i <= keys.len(),
            all == items_view(keys@),
            keys_from(prefix@, all) == keys_from(prefix@, all.skip(i as int)),
        decreases keys.len() - i,
    {
        proof {
            assert(all.skip(i as int)[0] == keys[i as int]@);
            assert(all.skip(i as int).skip(1) =~= all.skip(i + 1));
        }
        i += 1;
    }
    proof {
        if i < keys.len() {
            assert(all.skip(i as int)[0] == keys[i as int]@);
        }
    }
    let mut rest: Vec<Vec<u8>> = Vec::new();
    let mut j: usize = i;
    while j < keys.len()
        invariant
            i <= j <= keys.len(),
            all == items_view(keys@),
            rest.len() == j - i,
            forall|k: int| 0 <= k < j - i ==> rest[k]@ == keys[i + k]@,
        decreases keys.len() - j,
    {
        rest.push(copy_bytes(&keys[j]));
        j += 1;
    }
    assert(items_view(rest@) =~= keys_from(prefix@, all)) by {
        assert(items_view(rest@) =~= all.skip(i as int));
    }
    collect_children(prefix, &rest)
}

/// Where a walk of the keys from `prefix` on starts, after one more key:
/// a key that comes before the prefix, after none but such keys, is passed
/// over; every other key is walked.
pub proof fn lemma_keys_from_push(prefix: Seq<u8>, keys: Seq<Seq<u8>>, key: Seq<u8>)
    ensures
        keys_from(prefix, keys.push(key)) == if keys_from(prefix, keys).len() > 0 {
            keys_from(prefix, keys).push(key)
        } else if key_before(key, prefix) {
            Seq::empty()
        } else {
            seq![key]
        },
    decreases keys.len(),
{
    let more = keys.push(key);
    if keys.len() == 0 {
        assert(more[0] == key);
        assert(more.skip(1) =~= Seq::<Seq<u8>>::empty());
        assert(more =~= seq![key]);
        assert(keys_from(prefix, more.skip(1)) =~= Seq::<Seq<u8>>::empty());
        assert(keys_from(prefix, keys) =~= Seq::<Seq<u8>>::empty());
    } else {
        assert(more[0] == keys[0]);
        assert(more.skip(1) =~= keys.skip(1).push(key));
        if key_before(keys[0], prefix) {
            lemma_keys_from_push(prefix, keys.skip(1), key);
            assert(keys_from(prefix, keys) == keys_from(prefix, keys.skip(1)));
            assert(keys_from(prefix, more) == keys_from(prefix, more.skip(1)));
        } else {
            assert(keys_from(prefix, keys) == keys);
            assert(keys_from(prefix, more) == more);
        }
    }
}

/// A scan that has stopped has found what a scan of all the keys finds:
/// the keys that come after do not count.
pub proof fn lemma_scan_early_stop(prefix: Seq<u8>, keys: Seq<Seq<u8>>, more: Seq<Seq<u8>>)
    requires
        scan(prefix, keys_from(prefix, keys)).stopped,
    ensures
        scan(prefix, keys_from(prefix, keys + more)) == scan(prefix, keys_from(prefix, keys)),
    decreases more.len(),
{
    if more.len() == 0 {
        assert(keys + more =~= keys);
    } else {
        let front = more.drop_last();
        lemma_scan_early_stop(prefix, keys, front);
        assert(keys + more =~= (keys + front).push(more.last()));
        lemma_keys_from_push(prefix, keys + front, more.last());
        let walked = keys_from(prefix, keys + front);
        assert(walked.push(more.last()).drop_last() =~= walked);
    }
}

/// A scan of the keys of an engine under way: the keys are offered one
/// after the other, in the order of the engine, and the scan says when it
/// needs no more.
pub struct ChildScan {
    prefix: Vec<u8>,
    found: Vec<Vec<u8>>,
    within: bool,
    stopped: bool,
    seen: Ghost<Seq<Seq<u8>>>,
}

impl ChildScan {
    /// What has been found is what the scan of the keys offered so far
    /// finds.
    #[verifier::type_invariant]
    spec fn sound(self) -> bool {
        let walked = keys_from(self.prefix@, self.seen@);
        &&& self.within == (walked.len() > 0)
        &&& items_view(self.found@) == scan(self.prefix@, walked).found
        &&& self.stopped == scan(self.prefix@, walked).stopped
    }

    /// The prefix whose children are looked for.
    pub closed spec fn prefix(&self) -> Seq<u8> {
        self.prefix@
    }

    /// The keys offered so far, in order.
    pub closed spec fn seen(&self) -> Seq<Seq<u8>> {
        self.seen@
    }

    /// A scan for the children of `prefix` to which no key has been
    /// offered.
    pub fn new(prefix: Vec<u8>) -> (r: ChildScan)
        ensures
            r.prefix() == prefix@,
            r.seen() == Seq::<Seq<u8>>::empty(),
    {
        let found: Vec<Vec<u8>> = Vec::new();
        assert(items_view(found@) =~= Seq::<Seq<u8>>::empty());
        ChildScan { prefix, found, within: false, stopped: false, seen: Ghost(Seq::empty()) }
    }

    /// Offers the next key of the engine. Returns the scan after it, and
    /// whether the scan goes on: it goes on until a key that is walked does
    /// not start with the prefix.
    pub fn offer(self, key: &[u8]) -> (r: (ChildScan, bool))
        ensures
            r.0.prefix() == self.prefix(),
            r.0.seen() == self.seen().push(key@),
            r.1 == !scan(self.prefix(), keys_from(self.prefix(), self.seen().push(key@))).stopped,
    {
        proof {
            use_type_invariant(&self);
            lemma_keys_from_push(self.prefix@, self.seen@, key@);
        }
        let ghost walked = keys_from(self.prefix@, self.seen@);
        let ghost next = keys_from(self.prefix@, self.seen@.push(key@));
        let ChildScan { prefix, found, within, stopped, seen } = self;
        let ghost seen_next = seen@.push(key@);
        if stopped {
            proof {
                assert(next.drop_last() =~= walked);
            }
            return (
                ChildScan { prefix, found, within, stopped, seen: Ghost(seen_next) },
                false,
            );
        }
        if !within && key_is_before(key, prefix.as_slice()) {
            return (
                ChildScan { prefix, found, within, stopped, seen: Ghost(seen_next) },
                true,
            );
        }
        proof {
            assert(next =~= walked.push(key@));
            assert(next.drop_last() =~= walked);
            assert(next.last() == key@);
        }
        if !key_starts_with(key, prefix.as_slice()) {
            return (
                ChildScan { prefix, found, within: true, stopped: true, seen: Ghost(seen_next) },
                false,
            );
        }
        let name = segment_after(key, prefix.len());
        let mut found = found;
        if name.len() > 0 && !has_name(&found, &name) {
            let ghost before = items_view(found@);
            let ghost added = name@;
            found.push(name);
            assert(items_view(found@) =~= before.push(added));
        }
        (ChildScan { prefix, found, within: true, stopped: false, seen: Ghost(seen_next) }, true)
    }

    /// The names found: those that the scan of the keys offered finds.
    pub fn finish(self) -> (r: Vec<Vec<u8>>)
        ensures
            items_view(r@) == scan(self.prefix(), keys_from(self.prefix(), self.seen())).found,
    {
        proof {
            use_type_invariant(&self);
        }
        self.found
    }
}

} // verus!
