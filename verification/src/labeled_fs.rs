//! The labeled namespace: files and directories under slash-separated
//! paths, each behind a label that is checked against the caller's current
//! label.
//!
//! Every operation resolves its path from the root directory, fetching one
//! directory after the other from a storage service. What an operation
//! returns is stated as a function of its arguments and of what the storage
//! service answered.

pub mod dir;
pub mod direntry;
pub mod file;
pub mod laws;
pub mod path;
pub mod utils;

use crate::dclabel::{
    lemma_can_flow_to_reflexive, lemma_can_flow_to_transitive, lemma_lub_is_upper_bound, DCLabel,
    LabelView,
};
use crate::distributed_db::{
    answer_view, answers_of, calls_of, extends, since, Call, DbService, Exchange, Session,
};
use crate::encoding::{copy_bytes, lemma_u64_be_bytes_injective, u64_be_bytes, u64_to_be_bytes};
use crate::labeled_fs::dir::{
    dir_bytes, lemma_dir_bytes_injective, lookup, names, Directory, NamedEntryView,
};
use crate::labeled_fs::direntry::{root_entry, DirEntry, EntryView, LabeledDirEntry};
use crate::labeled_fs::file::File;
use crate::labeled_fs::path::{path_components, split_path};
use crate::record::{
    decode, implicit_bool, lemma_message_bytes_injective, message_bytes, option_view,
    optional_bytes, Message,
};
use crate::syscalls::{CompareAndSwapResponse, ReadKeyResponse, WriteKeyResponse};
use rand::RngCore;
use vstd::prelude::*;

verus! {

/// Why a namespace operation failed.
#[derive(Debug, Clone, Copy, PartialEq, Eq, Structural)]
pub enum Error {
    /// The path does not lead to an object of the kind that was asked for,
    /// or the name to create is taken.
    BadPath,
    /// The caller's label cannot flow to the label of the object to change.
    Unauthorized,
    /// The caller's label cannot flow to the label of the object to create.
    BadTargetLabel,
    /// No connection to the storage service could be had.
    ConnectionError,
    /// Reading or writing on the connection failed.
    IOError,
    /// The storage service gave an answer that cannot be used, or kept
    /// refusing a write.
    EngineError,
}

/// What a storage service answered, as a mathematical value.
pub type Answer = Result<Seq<u8>, crate::distributed_db::Error>;

/// The error of this module that stands for a failed call.
pub open spec fn transport_error(e: crate::distributed_db::Error) -> Error {
    match e {
        crate::distributed_db::Error::TcpConnectionError => Error::ConnectionError,
        crate::distributed_db::Error::TcpIOError => Error::IOError,
    }
}

/// The bytes `bytes` are a read response that holds a value, namely `m`.
pub open spec fn holds_value(bytes: Seq<u8>, m: ReadKeyResponse) -> bool {
    message_bytes(&m) == bytes && m.value is Some
}

/// The value that the answer to a read holds. A failed call gives its
/// error; an answer that is no read response, or holds no value, gives
/// `EngineError`.
#[verifier::opaque]
pub open spec fn stored_value(answer: Answer) -> Result<Seq<u8>, Error> {
    match answer {
        Err(e) => Err(transport_error(e)),
        Ok(bytes) => if exists|m: ReadKeyResponse| holds_value(bytes, m) {
            Ok((choose|m: ReadKeyResponse| holds_value(bytes, m)).value->0@)
        } else {
            Err(Error::EngineError)
        },
    }
}

/// The bytes `blob` are the stored form of the well-formed directory `d`.
pub open spec fn holds_directory(blob: Seq<u8>, d: Directory) -> bool {
    d.wf() && dir_bytes(d@) == blob
}

/// The directory that the answer to a read holds. Where the value is the
/// stored form of no well-formed directory, this is `EngineError`.
#[verifier::opaque]
pub open spec fn stored_directory(answer: Answer) -> Result<Seq<NamedEntryView>, Error> {
    match stored_value(answer) {
        Err(e) => Err(e),
        Ok(blob) => if exists|d: Directory| holds_directory(blob, d) {
            Ok((choose|d: Directory| holds_directory(blob, d))@)
        } else {
            Err(Error::EngineError)
        },
    }
}

/// Whether the answer to a write reports success. An answer that is no
/// write response gives `EngineError`.
#[verifier::opaque]
pub open spec fn write_status(answer: Answer) -> Result<bool, Error> {
    match answer {
        Err(e) => Err(transport_error(e)),
        Ok(bytes) => if exists|m: WriteKeyResponse| message_bytes(&m) == bytes {
            Ok((choose|m: WriteKeyResponse| message_bytes(&m) == bytes).success)
        } else {
            Err(Error::EngineError)
        },
    }
}

/// Whether the answer to a compare-and-swap reports success. An answer
/// that is no compare-and-swap response gives `EngineError`.
#[verifier::opaque]
pub open spec fn swap_status(answer: Answer) -> Result<bool, Error> {
    match answer {
        Err(e) => Err(transport_error(e)),
        Ok(bytes) => if exists|m: CompareAndSwapResponse| message_bytes(&m) == bytes {
            Ok((choose|m: CompareAndSwapResponse| message_bytes(&m) == bytes).success)
        } else {
            Err(Error::EngineError)
        },
    }
}

/// The mathematical value of bytes or an error.
pub open spec fn bytes_view(r: Result<Vec<u8>, Error>) -> Result<Seq<u8>, Error> {
    match r {
        Ok(bytes) => Ok(bytes@),
        Err(e) => Err(e),
    }
}

/// The error of this module that stands for a failed call.
pub fn map_error(e: crate::distributed_db::Error) -> (r: Error)
    ensures
        r == transport_error(e),
{
    match e {
        crate::distributed_db::Error::TcpConnectionError => Error::ConnectionError,
        crate::distributed_db::Error::TcpIOError => Error::IOError,
    }
}

/// The value that the answer to a read holds.
pub fn value_of(answer: Result<Vec<u8>, crate::distributed_db::Error>) -> (r: Result<
    Vec<u8>,
    Error,
>)
    ensures
        bytes_view(r) == stored_value(answer_view(answer)),
{
    reveal(stored_value);
    let bytes = match answer {
        Err(e) => {
            return Err(map_error(e));
        },
        Ok(bytes) => bytes,
    };
    match decode::<ReadKeyResponse>(bytes.as_slice()) {
        None => Err(Error::EngineError),
        Some(m0) => {
            proof {
                assert forall|m: ReadKeyResponse| message_bytes(&m) == bytes@ implies option_view(
                    m.value,
                ) == option_view(m0.value) by {
                    lemma_message_bytes_injective(&m, &m0);
                    let a = optional_bytes(option_view(m.value));
                    let b = optional_bytes(option_view(m0.value));
                    assert(m.slots()[0] == m0.slots()[0]);
                    assert(a.len() == b.len());
                    if a.len() > 0 {
                        assert(a[0] == b[0]);
                    }
                }
            }
            match m0.value {
                Some(v) => {
                    assert(holds_value(bytes@, m0));
                    Ok(v)
                },
                None => Err(Error::EngineError),
            }
        },
    }
}

/// The directory that the answer to a read holds.
pub fn directory_of(answer: Result<Vec<u8>, crate::distributed_db::Error>) -> (r: Result<
    Directory,
    Error,
>)
    ensures
        match r {
            Ok(d) => d.wf() && stored_directory(answer_view(answer)) == Ok::<
                Seq<NamedEntryView>,
                Error,
            >(d@),
            Err(e) => stored_directory(answer_view(answer)) == Err::<Seq<NamedEntryView>, Error>(e),
        },
{
    reveal(stored_directory);
    let ghost av = answer_view(answer);
    let blob = match value_of(answer) {
        Err(e) => {
            return Err(e);
        },
        Ok(blob) => blob,
    };
    let ghost b = blob@;
    match Directory::from_vec(blob) {
        None => Err(Error::EngineError),
        Some(d) => {
            proof {
                assert forall|c: Directory| holds_directory(b, c) implies c@ == d@ by {
                    lemma_dir_bytes_injective(c@, d@);
                }
                let x = stored_value(av)->Ok_0;
                assert(holds_directory(x, d));
            }
            Ok(d)
        },
    }
}

/// Whether the answer to a write reports success.
pub fn written(answer: Result<Vec<u8>, crate::distributed_db::Error>) -> (r: Result<bool, Error>)
    ensures
        r == write_status(answer_view(answer)),
{
    reveal(write_status);
    let bytes = match answer {
        Err(e) => {
            return Err(map_error(e));
        },
        Ok(bytes) => bytes,
    };
    match decode::<WriteKeyResponse>(bytes.as_slice()) {
        None => Err(Error::EngineError),
        Some(m0) => {
            proof {
                let m = choose|m: WriteKeyResponse| message_bytes(&m) == bytes@;
                lemma_message_bytes_injective(&m, &m0);
                assert(m.slots()[0] == m0.slots()[0]);
                assert(implicit_bool(m.success).len() == implicit_bool(m0.success).len());
            }
            Ok(m0.success)
        },
    }
}

/// Whether the answer to a compare-and-swap reports success.
pub fn swapped(answer: Result<Vec<u8>, crate::distributed_db::Error>) -> (r: Result<bool, Error>)
    ensures
        r == swap_status(answer_view(answer)),
{
    reveal(swap_status);
    let bytes = match answer {
        Err(e) => {
            return Err(map_error(e));
        },
        Ok(bytes) => bytes,
    };
    match decode::<CompareAndSwapResponse>(bytes.as_slice()) {
        None => Err(Error::EngineError),
        Some(m0) => {
            proof {
                let m = choose|m: CompareAndSwapResponse| message_bytes(&m) == bytes@;
                lemma_message_bytes_injective(&m, &m0);
                assert(m.slots()[0] == m0.slots()[0]);
                assert(implicit_bool(m.success).len() == implicit_bool(m0.success).len());
            }
            Ok(m0.success)
        },
    }
}

/// The key under which the object with the id `uid` is stored: the eight
/// bytes of the id, the most significant first.
pub fn uid_key(uid: u64) -> (r: Vec<u8>)
    ensures
        r@ == u64_be_bytes(uid),
{
    u64_to_be_bytes(uid)
}

/// How far a path has been resolved.
#[verifier::ext_equal]
pub struct Walk {
    /// The entry that was reached.
    pub entry: EntryView,
    /// The caller's label, as raised so far.
    pub label: LabelView,
    /// Why the walk ended before the end of the path, if it did.
    pub failure: Option<Error>,
    /// The calls made to the storage service, in order.
    pub calls: Seq<Call>,
}

/// One step of a walk, from the entry reached so far into the component
/// `name`: the caller's label is raised by the label of the entry; the entry
/// must be a directory, else the walk fails with `BadPath`; the directory is
/// read from the storage service, whose next answer is taken from `answers`;
/// the directory must hold `name`, else the walk fails with `BadPath`.
pub open spec fn walk_step(w: Walk, name: Seq<char>, answers: Seq<Answer>) -> Walk {
    let label = w.label.lub(w.entry.label);
    if w.entry.entry_type == DirEntry::F {
        Walk { entry: w.entry, label, failure: Some(Error::BadPath), calls: w.calls }
    } else {
        let calls = w.calls.push(Call::Get { key: u64_be_bytes(w.entry.uid) });
        match stored_directory(answers[w.calls.len() as int]) {
            Err(e) => Walk { entry: w.entry, label, failure: Some(e), calls },
            Ok(d) => match lookup(d, name) {
                None => Walk { entry: w.entry, label, failure: Some(Error::BadPath), calls },
                Some(e) => Walk { entry: e, label, failure: None, calls },
            },
        }
    }
}

/// The walk from the root directory along the components `names`, by a
/// caller whose label is `label` at the start, where the storage service
/// gives the answers `answers`. A walk that has failed stays as it is.
pub open spec fn walk(names: Seq<Seq<char>>, label: LabelView, answers: Seq<Answer>) -> Walk
    decreases names.len(),
{
    if names.len() == 0 {
        Walk { entry: root_entry(), label, failure: None, calls: Seq::empty() }
    } else {
        let w = walk(names.drop_last(), label, answers);
        if w.failure is Some {
            w
        } else {
            walk_step(w, names.last(), answers)
        }
    }
}

/// A walk makes at most one call for each component.
pub proof fn lemma_walk_calls(names: Seq<Seq<char>>, label: LabelView, answers: Seq<Answer>)
    ensures
        walk(names, label, answers).calls.len() <= names.len(),
        names.len() > 0 ==> walk(names.drop_last(), label, answers).calls.len() <= walk(
            names,
            label,
            answers,
        ).calls.len(),
    decreases names.len(),
{
    if names.len() > 0 {
        lemma_walk_calls(names.drop_last(), label, answers);
    }
}

/// A walk depends only on the answers to the calls that it makes.
pub proof fn lemma_walk_answers(
    names: Seq<Seq<char>>,
    label: LabelView,
    a: Seq<Answer>,
    b: Seq<Answer>,
)
    requires
        walk(names, label, a).calls.len() <= a.len() <= b.len(),
        forall|k: int| 0 <= k < a.len() ==> a[k] == b[k],
    ensures
        walk(names, label, b) == walk(names, label, a),
    decreases names.len(),
{
    if names.len() > 0 {
        lemma_walk_calls(names, label, a);
        lemma_walk_answers(names.drop_last(), label, a, b);
    }
}

/// A walk that has failed on a part of the path has failed in the same way
/// on the whole path.
pub proof fn lemma_walk_failed(
    names: Seq<Seq<char>>,
    i: int,
    label: LabelView,
    answers: Seq<Answer>,
)
    requires
        0 <= i <= names.len(),
        walk(names.take(i), label, answers).failure is Some,
    ensures
        walk(names, label, answers) == walk(names.take(i), label, answers),
    decreases names.len() - i,
{
    if i < names.len() {
        assert(names.take(i + 1).drop_last() =~= names.take(i));
        lemma_walk_failed(names, i + 1, label, answers);
    } else {
        assert(names.take(i) =~= names);
    }
}

/// A walk only raises the caller's label: the label at the start can flow
/// to the label at the end.
pub proof fn lemma_walk_raises(names: Seq<Seq<char>>, label: LabelView, answers: Seq<Answer>)
    ensures
        label.can_flow_to(walk(names, label, answers).label),
    decreases names.len(),
{
    lemma_can_flow_to_reflexive(label);
    if names.len() > 0 {
        let w = walk(names.drop_last(), label, answers);
        lemma_walk_raises(names.drop_last(), label, answers);
        if w.failure is None {
            lemma_lub_is_upper_bound(w.label, w.entry.label);
            lemma_can_flow_to_transitive(label, w.label, w.label.lub(w.entry.label));
        }
    }
}

/// The error comes from the storage service: a call failed, or an answer
/// could not be used.
pub open spec fn is_storage_error(e: Error) -> bool {
    e == Error::ConnectionError || e == Error::IOError || e == Error::EngineError
}

/// What an answer cannot be read as, it fails with an error of the storage
/// service.
pub proof fn lemma_storage_errors(answer: Answer)
    ensures
        stored_value(answer) matches Err(e) ==> is_storage_error(e),
        stored_directory(answer) matches Err(e) ==> is_storage_error(e),
        write_status(answer) matches Err(e) ==> is_storage_error(e),
        swap_status(answer) matches Err(e) ==> is_storage_error(e),
{
    reveal(stored_value);
    reveal(stored_directory);
    reveal(write_status);
    reveal(swap_status);
}

/// A walk fails for no other reasons than a bad path or the storage
/// service.
pub proof fn lemma_walk_failures(names: Seq<Seq<char>>, label: LabelView, answers: Seq<Answer>)
    ensures
        walk(names, label, answers).failure != Some(Error::Unauthorized),
        walk(names, label, answers).failure != Some(Error::BadTargetLabel),
    decreases names.len(),
{
    if names.len() > 0 {
        let w = walk(names.drop_last(), label, answers);
        lemma_walk_failures(names.drop_last(), label, answers);
        lemma_storage_errors(answers[w.calls.len() as int]);
    }
}

/// The mathematical value of an entry or an error.
pub open spec fn entry_view(r: Result<LabeledDirEntry, Error>) -> Result<EntryView, Error> {
    match r {
        Ok(e) => Ok(e@),
        Err(e) => Err(e),
    }
}

/// What a walk that has ended returns: the entry that it reached, or why
/// it failed.
pub open spec fn walk_result(w: Walk) -> Result<EntryView, Error> {
    match w.failure {
        Some(e) => Err(e),
        None => Ok(w.entry),
    }
}

/// What one more exchange does to a history and to what has been added
/// to it.
pub proof fn lemma_history_push(before: Seq<Exchange>, history: Seq<Exchange>, x: Exchange)
    requires
        extends(before, history),
    ensures
        extends(before, history.push(x)),
        since(before, history.push(x)) == since(before, history).push(x),
        calls_of(since(before, history).push(x)) == calls_of(since(before, history)).push(x.call),
        answers_of(since(before, history).push(x)) == answers_of(since(before, history)).push(
            x.answer,
        ),
{
    let xs = since(before, history);
    assert(history.push(x).take(before.len() as int) =~= history.take(before.len() as int));
    assert(since(before, history.push(x)) =~= xs.push(x));
    assert(calls_of(xs.push(x)) =~= calls_of(xs).push(x.call));
    assert(answers_of(xs.push(x)) =~= answers_of(xs).push(x.answer));
}

/// Nothing has been added to a history that has not changed.
pub proof fn lemma_history_same(before: Seq<Exchange>)
    ensures
        extends(before, before),
        since(before, before) == Seq::<Exchange>::empty(),
        calls_of(Seq::<Exchange>::empty()) == Seq::<Call>::empty(),
        answers_of(Seq::<Exchange>::empty()) == Seq::<Answer>::empty(),
{
    assert(before.take(before.len() as int) =~= before);
    assert(since(before, before) =~= Seq::<Exchange>::empty());
    assert(calls_of(Seq::<Exchange>::empty()) =~= Seq::<Call>::empty());
    assert(answers_of(Seq::<Exchange>::empty()) =~= Seq::<Answer>::empty());
}

/// A walk that has made a call for every answer so far, and has not
/// failed, goes on by one step when one more answer has come.
pub proof fn lemma_walk_next(
    names: Seq<Seq<char>>,
    i: int,
    label: LabelView,
    answers: Seq<Answer>,
    answer: Answer,
)
    requires
        0 <= i < names.len(),
        walk(names.take(i), label, answers).calls.len() == answers.len(),
        walk(names.take(i), label, answers).failure is None,
    ensures
        walk(names.take(i + 1), label, answers.push(answer)) == walk_step(
            walk(names.take(i), label, answers),
            names[i],
            answers.push(answer),
        ),
        walk(names.take(i + 1), label, answers) == walk_step(
            walk(names.take(i), label, answers),
            names[i],
            answers,
        ),
{
    assert(names.take(i + 1).drop_last() =~= names.take(i));
    assert(names.take(i + 1).last() == names[i]);
    lemma_walk_answers(names.take(i), label, answers, answers.push(answer));
}

/// Resolves `path` from the root directory. For each component the entry
/// reached so far is opened for reading, which raises `cur_label`, and must
/// be a directory, which is fetched and searched for the component. The
/// entry that the path leads to is returned as it is; its label has not
/// been applied to `cur_label`. The root path makes no call.
pub fn get_direntry<D: DbService>(path: &str, cur_label: &mut DCLabel, db_client: &mut Session<D>) -> (r:
    Result<LabeledDirEntry, Error>)
    ensures
        extends(old(db_client).history(), final(db_client).history()),
        ({
            let xs = since(old(db_client).history(), final(db_client).history());
            let w = walk(path_components(path@), old(cur_label)@, answers_of(xs));
            &&& calls_of(xs) == w.calls
            &&& final(cur_label)@ == w.label
            &&& entry_view(r) == walk_result(w)
        }),
{
    let components = split_path(path);
    let ghost names = components.deep_view();
    let ghost before = db_client.history();
    let ghost start = cur_label@;
    let mut labeled = LabeledDirEntry::root();
    let mut i: usize = 0;
    proof {
        assert(names.take(0) =~= Seq::<Seq<char>>::empty());
        lemma_history_same(before);
    }
    while i < components.len()
        invariant
            0 <= i <= components.len(),
            names == components.deep_view(),
            names == path_components(path@),
            before == old(db_client).history(),
            start == old(cur_label)@,
            extends(before, db_client.history()),
            calls_of(since(before, db_client.history())) == walk(
                names.take(i as int),
                start,
                answers_of(since(before, db_client.history())),
            ).calls,
            cur_label@ == walk(
                names.take(i as int),
                start,
                answers_of(since(before, db_client.history())),
            ).label,
            walk(
                names.take(i as int),
                start,
                answers_of(since(before, db_client.history())),
            ).failure is None,
            labeled@ == walk(
                names.take(i as int),
                start,
                answers_of(since(before, db_client.history())),
            ).entry,
        decreases components.len() - i,
    {
        let ghost history = db_client.history();
        let ghost xs = since(before, history);
        let ghost w = walk(names.take(i as int), start, answers_of(xs));
        proof {
            assert(names[i as int] == components[i as int]@);
            assert(calls_of(xs).len() == xs.len());
            assert(answers_of(xs).len() == xs.len());
        }
        let (kind, uid) = labeled.unlabel(cur_label);
        match kind {
            DirEntry::F => {
                proof {
                    lemma_walk_next(
                        names,
                        i as int,
                        start,
                        answers_of(xs),
                        Err(crate::distributed_db::Error::TcpIOError),
                    );
                    lemma_walk_failed(names, i + 1, start, answers_of(xs));
                }
                return Err(Error::BadPath);
            },
            DirEntry::D => {},
        }
        let answer = db_client.get(uid_key(uid));
        let ghost x = Exchange {
            call: Call::Get { key: u64_be_bytes(uid) },
            answer: answer_view(answer),
        };
        let ghost ys = since(before, db_client.history());
        let ghost next = walk(names.take(i + 1), start, answers_of(ys));
        proof {
            lemma_history_push(before, history, x);
            lemma_walk_next(names, i as int, start, answers_of(xs), x.answer);
            assert(answers_of(ys)[xs.len() as int] == x.answer);
            assert(next == walk_step(w, names[i as int], answers_of(ys)));
        }
        let dir = match directory_of(answer) {
            Err(e) => {
                proof {
                    lemma_walk_failed(names, i + 1, start, answers_of(ys));
                }
                return Err(e);
            },
            Ok(dir) => dir,
        };
        match dir.get(components[i].as_str()) {
            Err(e) => {
                proof {
                    lemma_walk_failed(names, i + 1, start, answers_of(ys));
                }
                return Err(e);
            },
            Ok(found) => {
                labeled = found.duplicate();
            },
        }
        i += 1;
    }
    proof {
        assert(names.take(components.len() as int) =~= names);
    }
    Ok(labeled)
}

/// What an operation comes to: what it returns, the caller's label after
/// it, and the calls that it made to the storage service.
#[verifier::ext_equal]
pub struct Outcome<T> {
    pub result: Result<T, Error>,
    pub label: LabelView,
    pub calls: Seq<Call>,
}

/// A walk is not changed by an answer that comes after its calls.
pub proof fn lemma_walk_then(
    names: Seq<Seq<char>>,
    label: LabelView,
    answers: Seq<Answer>,
    answer: Answer,
)
    requires
        walk(names, label, answers).calls.len() == answers.len(),
    ensures
        walk(names, label, answers.push(answer)) == walk(names, label, answers),
        answers.push(answer)[answers.len() as int] == answer,
{
    lemma_walk_answers(names, label, answers, answers.push(answer));
}

/// What `read` comes to. The path is walked; the entry that it leads to is
/// opened for reading, which raises the label, and must be a file, else
/// the result is `BadPath`; the file is read from the storage service.
pub open spec fn read_outcome(names: Seq<Seq<char>>, label: LabelView, answers: Seq<Answer>) -> Outcome<
    Seq<u8>,
> {
    let w = walk(names, label, answers);
    match w.failure {
        Some(e) => Outcome { result: Err(e), label: w.label, calls: w.calls },
        None => {
            let raised = w.label.lub(w.entry.label);
            if w.entry.entry_type != DirEntry::F {
                Outcome { result: Err(Error::BadPath), label: raised, calls: w.calls }
            } else {
                Outcome {
                    result: stored_value(answers[w.calls.len() as int]),
                    label: raised,
                    calls: w.calls.push(Call::Get { key: u64_be_bytes(w.entry.uid) }),
                }
            }
        },
    }
}

/// What `list` comes to. The path is walked; the entry that it leads to is
/// opened for reading, which raises the label, and must be a directory,
/// else the result is `BadPath`; the directory is read from the storage
/// service, and its names are the result.
pub open spec fn list_outcome(names: Seq<Seq<char>>, label: LabelView, answers: Seq<Answer>) -> Outcome<
    Seq<Seq<char>>,
> {
    let w = walk(names, label, answers);
    match w.failure {
        Some(e) => Outcome { result: Err(e), label: w.label, calls: w.calls },
        None => {
            let raised = w.label.lub(w.entry.label);
            if w.entry.entry_type != DirEntry::D {
                Outcome { result: Err(Error::BadPath), label: raised, calls: w.calls }
            } else {
                Outcome {
                    result: match stored_directory(answers[w.calls.len() as int]) {
                        Ok(d) => Ok(crate::labeled_fs::dir::names(d)),
                        Err(e) => Err(e),
                    },
                    label: raised,
                    calls: w.calls.push(Call::Get { key: u64_be_bytes(w.entry.uid) }),
                }
            }
        },
    }
}

/// What a write that was answered comes to: success if the answer reports
/// it, `EngineError` if the answer reports a refusal.
pub open spec fn write_result(answer: Answer) -> Result<(), Error> {
    match write_status(answer) {
        Err(e) => Err(e),
        Ok(true) => Ok(()),
        Ok(false) => Err(Error::EngineError),
    }
}

/// What `write` comes to. The path is walked; the caller's label must be
/// able to flow to the label of the entry that it leads to, else the result
/// is `Unauthorized`; the entry must be a file, else the result is
/// `BadPath`; the file's stored form is replaced by `data`. The label is
/// not raised beyond the walk.
pub open spec fn write_outcome(
    names: Seq<Seq<char>>,
    data: Seq<u8>,
    label: LabelView,
    answers: Seq<Answer>,
) -> Outcome<()> {
    let w = walk(names, label, answers);
    match w.failure {
        Some(e) => Outcome { result: Err(e), label: w.label, calls: w.calls },
        None => {
            if !w.label.can_flow_to(w.entry.label) {
                Outcome { result: Err(Error::Unauthorized), label: w.label, calls: w.calls }
            } else if w.entry.entry_type != DirEntry::F {
                Outcome { result: Err(Error::BadPath), label: w.label, calls: w.calls }
            } else {
                Outcome {
                    result: write_result(answers[w.calls.len() as int]),
                    label: w.label,
                    calls: w.calls.push(
                        Call::Put { key: u64_be_bytes(w.entry.uid), value: data },
                    ),
                }
            }
        },
    }
}

/// The mathematical value of names or an error.
pub open spec fn names_view(r: Result<Vec<String>, Error>) -> Result<Seq<Seq<char>>, Error> {
    match r {
        Ok(v) => Ok(v.deep_view()),
        Err(e) => Err(e),
    }
}

/// Reads the file at `path`. This never fails for want of authority: the
/// caller's label is raised by the label of every entry on the way and of
/// the file itself.
pub fn read<D: DbService>(path: &str, cur_label: &mut DCLabel, db_client: &mut Session<D>) -> (r: Result<
    Vec<u8>,
    Error,
>)
    ensures
        extends(old(db_client).history(), final(db_client).history()),
        ({
            let xs = since(old(db_client).history(), final(db_client).history());
            let o = read_outcome(path_components(path@), old(cur_label)@, answers_of(xs));
            &&& calls_of(xs) == o.calls
            &&& final(cur_label)@ == o.label
            &&& bytes_view(r) == o.result
        }),
{
    let ghost names = path_components(path@);
    let ghost before = db_client.history();
    let ghost start = cur_label@;
    let labeled = match get_direntry(path, cur_label, db_client) {
        Err(e) => {
            return Err(e);
        },
        Ok(labeled) => labeled,
    };
    let ghost history = db_client.history();
    let ghost xs = since(before, history);
    let (kind, uid) = labeled.unlabel(cur_label);
    match kind {
        DirEntry::D => Err(Error::BadPath),
        DirEntry::F => {
            let answer = db_client.get(uid_key(uid));
            proof {
                let x = Exchange {
                    call: Call::Get { key: u64_be_bytes(uid) },
                    answer: answer_view(answer),
                };
                assert(calls_of(xs).len() == xs.len());
                assert(answers_of(xs).len() == xs.len());
                lemma_history_push(before, history, x);
                lemma_walk_then(names, start, answers_of(xs), x.answer);
            }
            value_of(answer)
        },
    }
}

/// Lists the names in the directory at `path`, in the order in which they
/// were created. This never fails for want of authority: the caller's
/// label is raised by the label of every entry on the way and of the
/// directory itself.
pub fn list<D: DbService>(path: &str, cur_label: &mut DCLabel, db_client: &mut Session<D>) -> (r: Result<
    Vec<String>,
    Error,
>)
    ensures
        extends(old(db_client).history(), final(db_client).history()),
        ({
            let xs = since(old(db_client).history(), final(db_client).history());
            let o = list_outcome(path_components(path@), old(cur_label)@, answers_of(xs));
            &&& calls_of(xs) == o.calls
            &&& final(cur_label)@ == o.label
            &&& names_view(r) == o.result
        }),
{
    let ghost names = path_components(path@);
    let ghost before = db_client.history();
    let ghost start = cur_label@;
    let labeled = match get_direntry(path, cur_label, db_client) {
        Err(e) => {
            return Err(e);
        },
        Ok(labeled) => labeled,
    };
    let ghost history = db_client.history();
    let ghost xs = since(before, history);
    let (kind, uid) = labeled.unlabel(cur_label);
    match kind {
        DirEntry::F => Err(Error::BadPath),
        DirEntry::D => {
            let answer = db_client.get(uid_key(uid));
            proof {
                let x = Exchange {
                    call: Call::Get { key: u64_be_bytes(uid) },
                    answer: answer_view(answer),
                };
                assert(calls_of(xs).len() == xs.len());
                assert(answers_of(xs).len() == xs.len());
                lemma_history_push(before, history, x);
                lemma_walk_then(names, start, answers_of(xs), x.answer);
            }
            match directory_of(answer) {
                Ok(dir) => Ok(dir.list()),
                Err(e) => Err(e),
            }
        },
    }
}

/// Replaces the bytes of the file at `path` by `data`. The caller's label
/// is raised by the entries on the way, and must then be able to flow to
/// the label of the file.
pub fn write<D: DbService>(path: &str, data: Vec<u8>, cur_label: &mut DCLabel, db_client: &mut Session<D>) -> (r:
    Result<(), Error>)
    ensures
        extends(old(db_client).history(), final(db_client).history()),
        ({
            let xs = since(old(db_client).history(), final(db_client).history());
            let o = write_outcome(path_components(path@), data@, old(cur_label)@, answers_of(xs));
            &&& calls_of(xs) == o.calls
            &&& final(cur_label)@ == o.label
            &&& r == o.result
        }),
{
    let ghost names = path_components(path@);
    let ghost before = db_client.history();
    let ghost start = cur_label@;
    let labeled = match get_direntry(path, cur_label, db_client) {
        Err(e) => {
            return Err(e);
        },
        Ok(labeled) => labeled,
    };
    let ghost history = db_client.history();
    let ghost xs = since(before, history);
    let (kind, uid) = match labeled.unlabel_write_check(cur_label) {
        Err(e) => {
            return Err(e);
        },
        Ok(entry) => entry,
    };
    match kind {
        DirEntry::D => Err(Error::BadPath),
        DirEntry::F => {
            let mut file = File::new();
            file.write(data);
            let answer = db_client.put(uid_key(uid), file.to_vec());
            proof {
                let x = Exchange {
                    call: Call::Put { key: u64_be_bytes(uid), value: data@ },
                    answer: answer_view(answer),
                };
                assert(calls_of(xs).len() == xs.len());
                assert(answers_of(xs).len() == xs.len());
                lemma_history_push(before, history, x);
                lemma_walk_then(names, start, answers_of(xs), x.answer);
            }
            match written(answer) {
                Err(e) => Err(e),
                Ok(true) => Ok(()),
                Ok(false) => Err(Error::EngineError),
            }
        },
    }
}

/// How often a fresh object id is tried before the storage service is
/// given up on.
pub const MAX_UID_ATTEMPTS: usize = 16;

/// How often the update of a directory is tried against a directory that
/// others change at the same time.
pub const MAX_CAS_ATTEMPTS: usize = 16;

/// Wraps `thread_rng` and `RngCore::next_u64` of the crate rand: a 64-bit
/// number from the thread's random number generator. Nothing is claimed of
/// the number. The generator panics if the system cannot seed it.
#[verifier::external_body]
fn random_u64() -> u64 {
    rand::thread_rng().next_u64()
}

/// The object id that is taken when two draws in a row have given the id
/// of the root directory.
pub const SPARE_UID: u64 = 1;

/// A random object id, which is never the id of the root directory: the
/// first draw that is not that id, or [`SPARE_UID`] when two draws in a row
/// were.
pub fn get_uid() -> (r: u64)
    ensures
        r != crate::labeled_fs::direntry::ROOT_UID,
{
    match uid_of_draw(random_u64()) {
        Some(uid) => uid,
        None => match uid_of_draw(random_u64()) {
            Some(uid) => uid,
            None => SPARE_UID,
        },
    }
}

/// The object id that a drawn number gives: the number itself, or none if
/// the number is the id of the root directory.
pub open spec fn drawn_uid(draw: u64) -> Option<u64> {
    if draw == crate::labeled_fs::direntry::ROOT_UID {
        None
    } else {
        Some(draw)
    }
}

/// The object id that the drawn number `draw` gives.
pub fn uid_of_draw(draw: u64) -> (r: Option<u64>)
    ensures
        r == drawn_uid(draw),
{
    if draw == crate::labeled_fs::direntry::ROOT_UID {
        None
    } else {
        Some(draw)
    }
}

/// A history that continues a history that continues a third continues
/// the third, and what has been added is what was added first followed by
/// what was added then.
pub proof fn lemma_history_chain(a: Seq<Exchange>, b: Seq<Exchange>, c: Seq<Exchange>)
    requires
        extends(a, b),
        extends(b, c),
    ensures
        extends(a, c),
        since(a, c) == since(a, b) + since(b, c),
{
    assert(c.take(a.len() as int) =~= c.take(b.len() as int).take(a.len() as int));
    assert(since(a, c) =~= since(a, b) + since(b, c)) by {
        assert forall|i: int| 0 <= i < since(a, b).len() implies since(a, c)[i] == since(a, b)[i] by {
            assert(c.take(b.len() as int)[a.len() + i] == b[a.len() + i]);
        }
    }
}

/// The answers of two runs of exchanges, one after the other.
pub proof fn lemma_answers_concat(xs: Seq<Exchange>, ys: Seq<Exchange>)
    ensures
        answers_of(xs + ys) == answers_of(xs) + answers_of(ys),
        calls_of(xs + ys) == calls_of(xs) + calls_of(ys),
{
    assert(answers_of(xs + ys) =~= answers_of(xs) + answers_of(ys));
    assert(calls_of(xs + ys) =~= calls_of(xs) + calls_of(ys));
}

/// The call creates an object with the id `uid`, which is not the id of
/// the root directory, and the stored form `blob`, if there is none with
/// that id.
pub open spec fn is_add(call: Call, uid: u64, blob: Seq<u8>) -> bool {
    uid != crate::labeled_fs::direntry::ROOT_UID && call == (Call::Add {
        key: u64_be_bytes(uid),
        value: blob,
    })
}

/// The object id that the call `call` creates.
pub open spec fn added_uid(call: Call, blob: Seq<u8>) -> u64 {
    choose|uid: u64| is_add(call, uid, blob)
}

/// How the search for a free object id went.
#[verifier::ext_equal]
pub struct Allocation {
    /// The id under which the object was created, or why none was.
    pub result: Result<u64, Error>,
    /// How many exchanges the search took.
    pub used: nat,
    /// Every call of the search created the object under some id, and the
    /// exchanges did not end before the search.
    pub valid: bool,
}

/// The search for a free object id in at most `tries` attempts, read from
/// the exchanges `xs`: each attempt creates the object under an id; the
/// first whose answer reports success gives the id; a failed call or an
/// unusable answer ends the search with its error; when every attempt was
/// refused the search ends with `EngineError`.
pub open spec fn allocation(xs: Seq<Exchange>, tries: nat, blob: Seq<u8>) -> Allocation
    decreases tries,
{
    if tries == 0 {
        Allocation { result: Err(Error::EngineError), used: 0, valid: true }
    } else if xs.len() == 0 {
        Allocation { result: Err(Error::EngineError), used: 0, valid: false }
    } else {
        let fits = exists|uid: u64| is_add(xs[0].call, uid, blob);
        match write_status(xs[0].answer) {
            Err(e) => Allocation { result: Err(e), used: 1, valid: fits },
            Ok(true) => Allocation { result: Ok(added_uid(xs[0].call, blob)), used: 1, valid: fits },
            Ok(false) => {
                let rest = allocation(xs.skip(1), (tries - 1) as nat, blob);
                Allocation { result: rest.result, used: rest.used + 1, valid: fits && rest.valid }
            },
        }
    }
}

/// A search never creates an object under the key of the root directory,
/// and the id that it gives is not the id of the root directory.
pub proof fn lemma_allocation_spares_root(xs: Seq<Exchange>, tries: nat, blob: Seq<u8>)
    requires
        allocation(xs, tries, blob).valid,
    ensures
        allocation(xs, tries, blob).used <= xs.len(),
        forall|k: int|
            0 <= k < allocation(xs, tries, blob).used ==> (#[trigger] xs[k]).call is Add
                && xs[k].call->Add_key != u64_be_bytes(crate::labeled_fs::direntry::ROOT_UID),
        allocation(xs, tries, blob).result matches Ok(uid) ==> uid
            != crate::labeled_fs::direntry::ROOT_UID,
    decreases tries,
{
    if tries > 0 && xs.len() > 0 {
        let uid = choose|uid: u64| is_add(xs[0].call, uid, blob);
        if uid == crate::labeled_fs::direntry::ROOT_UID {
        } else {
            assert(xs[0].call->Add_key != u64_be_bytes(crate::labeled_fs::direntry::ROOT_UID)) by {
                if u64_be_bytes(uid) == u64_be_bytes(crate::labeled_fs::direntry::ROOT_UID) {
                    lemma_u64_be_bytes_injective(uid, crate::labeled_fs::direntry::ROOT_UID);
                }
            }
        }
        if write_status(xs[0].answer) == Ok::<bool, Error>(false) {
            let rest = xs.skip(1);
            lemma_allocation_spares_root(rest, (tries - 1) as nat, blob);
            assert forall|k: int| 0 <= k < allocation(xs, tries, blob).used implies (
            #[trigger] xs[k]).call is Add && xs[k].call->Add_key != u64_be_bytes(
                crate::labeled_fs::direntry::ROOT_UID,
            ) by {
                if k > 0 {
                    assert(rest[k - 1] == xs[k]);
                }
            }
        }
    }
}

/// A search depends only on the exchanges that it takes.
pub proof fn lemma_allocation_prefix(xs: Seq<Exchange>, ys: Seq<Exchange>, tries: nat, blob: Seq<u8>)
    requires
        allocation(xs, tries, blob).valid,
        allocation(xs, tries, blob).used == xs.len(),
    ensures
        allocation(xs + ys, tries, blob) == allocation(xs, tries, blob),
    decreases tries,
{
    if tries > 0 && xs.len() > 0 {
        assert((xs + ys)[0] == xs[0]);
        assert((xs + ys).skip(1) =~= xs.skip(1) + ys);
        if write_status(xs[0].answer) == Ok::<bool, Error>(false) {
            lemma_allocation_prefix(xs.skip(1), ys, (tries - 1) as nat, blob);
        }
    } else if tries > 0 {
    }
}

/// How the update of a directory went.
#[verifier::ext_equal]
pub struct Insertion {
    /// Whether the entry is in the stored directory, or why it is not.
    pub result: Result<(), Error>,
    /// The calls were those that the update asks for, and no more.
    pub valid: bool,
}

/// The update of the directory stored under `key` by the entry `entry`, in
/// at most `rounds` rounds, read from the exchanges `xs`. A round starts
/// from a directory `d` as it was last read. If `d` holds the name, the
/// update ends with `BadPath`. Else the stored form of `d` with the entry
/// appended is swapped in for the stored form of `d`. If the swap took
/// place the update has succeeded. If another writer came first, the
/// directory is read again and the next round starts from it. When the
/// rounds are used up the update ends with `EngineError`.
pub open spec fn insertion(
    xs: Seq<Exchange>,
    rounds: nat,
    key: Seq<u8>,
    d: Seq<NamedEntryView>,
    entry: NamedEntryView,
) -> Insertion
    decreases rounds,
{
    if lookup(d, entry.name) is Some {
        Insertion { result: Err(Error::BadPath), valid: xs.len() == 0 }
    } else if rounds == 0 {
        Insertion { result: Err(Error::EngineError), valid: xs.len() == 0 }
    } else if xs.len() == 0 {
        Insertion { result: Err(Error::EngineError), valid: false }
    } else {
        let swap = xs[0].call == (Call::Cas {
            key,
            expected: Some(dir_bytes(d)),
            value: dir_bytes(d.push(entry)),
        });
        match swap_status(xs[0].answer) {
            Err(e) => Insertion { result: Err(e), valid: swap && xs.len() == 1 },
            Ok(true) => Insertion { result: Ok(()), valid: swap && xs.len() == 1 },
            Ok(false) => if xs.len() < 2 {
                Insertion { result: Err(Error::EngineError), valid: false }
            } else {
                let fetch = xs[1].call == (Call::Get { key });
                match stored_directory(xs[1].answer) {
                    Err(e) => Insertion { result: Err(e), valid: swap && fetch && xs.len() == 2 },
                    Ok(again) => {
                        let rest = insertion(xs.skip(2), (rounds - 1) as nat, key, again, entry);
                        Insertion { result: rest.result, valid: swap && fetch && rest.valid }
                    },
                }
            },
        }
    }
}

/// Creates an object with the stored form `blob` under a fresh random id,
/// in at most `tries` attempts.
fn allocate<D: DbService>(blob: &Vec<u8>, tries: usize, db_client: &mut Session<D>) -> (r: Result<u64, Error>)
    ensures
        extends(old(db_client).history(), final(db_client).history()),
        ({
            let xs = since(old(db_client).history(), final(db_client).history());
            let a = allocation(xs, tries as nat, blob@);
            &&& a.valid
            &&& a.used == xs.len()
            &&& a.result == r
        }),
        r matches Ok(uid) ==> uid != crate::labeled_fs::direntry::ROOT_UID,
    decreases tries,
{
    let ghost before = db_client.history();
    if tries == 0 {
        proof {
            lemma_history_same(before);
        }
        return Err(Error::EngineError);
    }
    let uid = get_uid();
    let answer = db_client.add(uid_key(uid), copy_bytes(blob));
    let ghost x = Exchange {
        call: Call::Add { key: u64_be_bytes(uid), value: blob@ },
        answer: answer_view(answer),
    };
    let ghost middle = db_client.history();
    proof {
        lemma_history_same(before);
        lemma_history_push(before, before, x);
        assert(since(before, middle) =~= seq![x]);
        assert(is_add(x.call, uid, blob@));
        assert forall|other: u64| is_add(x.call, other, blob@) implies other == uid by {
            lemma_u64_be_bytes_injective(other, uid);
        }
    }
    match written(answer) {
        Err(e) => Err(e),
        Ok(true) => Ok(uid),
        Ok(false) => {
            let r = allocate(blob, tries - 1, db_client);
            proof {
                let after = db_client.history();
                lemma_history_chain(before, middle, after);
                let xs = since(before, after);
                assert(xs[0] == x);
                assert(xs.skip(1) =~= since(middle, after));
            }
            r
        },
    }
}

/// Puts the entry of a new object into the directory `dir`, which was read
/// from the object `parent`, and stores the directory, in at most `rounds`
/// rounds.
fn insert<D: DbService>(
    parent: u64,
    mut dir: Directory,
    name: &str,
    cur_label: &DCLabel,
    entry_type: DirEntry,
    label: &DCLabel,
    uid: u64,
    rounds: usize,
    db_client: &mut Session<D>,
) -> (r: Result<(), Error>)
    requires
        dir.wf(),
        cur_label@.can_flow_to(label@),
    ensures
        extends(old(db_client).history(), final(db_client).history()),
        ({
            let xs = since(old(db_client).history(), final(db_client).history());
            let entry = NamedEntryView {
                name: name@,
                entry: EntryView { label: label@, entry_type, uid },
            };
            let i = insertion(xs, rounds as nat, u64_be_bytes(parent), dir@, entry);
            &&& i.valid
            &&& i.result == r
        }),
    decreases rounds,
{
    let ghost before = db_client.history();
    let ghost d = dir@;
    let ghost entry = NamedEntryView {
        name: name@,
        entry: EntryView { label: label@, entry_type, uid },
    };
    proof {
        lemma_history_same(before);
    }
    let old_dir_val = dir.to_vec();
    match dir.create(name, cur_label, entry_type, label.duplicate(), uid) {
        Err(e) => {
            return Err(e);
        },
        Ok(_) => {},
    }
    if rounds == 0 {
        return Err(Error::EngineError);
    }
    let answer = db_client.cas(uid_key(parent), Some(old_dir_val), dir.to_vec());
    let ghost x = Exchange {
        call: Call::Cas {
            key: u64_be_bytes(parent),
            expected: Some(dir_bytes(d)),
            value: dir_bytes(d.push(entry)),
        },
        answer: answer_view(answer),
    };
    let ghost first = db_client.history();
    proof {
        lemma_history_push(before, before, x);
        assert(since(before, first) =~= seq![x]);
    }
    match swapped(answer) {
        Err(e) => Err(e),
        Ok(true) => Ok(()),
        Ok(false) => {
            let reply = db_client.get(uid_key(parent));
            let ghost y = Exchange {
                call: Call::Get { key: u64_be_bytes(parent) },
                answer: answer_view(reply),
            };
            let ghost second = db_client.history();
            proof {
                lemma_history_push(before, first, y);
                assert(since(before, second) =~= seq![x, y]);
            }
            match directory_of(reply) {
                Err(e) => Err(e),
                Ok(again) => {
                    let r = insert(
                        parent,
                        again,
                        name,
                        cur_label,
                        entry_type,
                        label,
                        uid,
                        rounds - 1,
                        db_client,
                    );
                    proof {
                        let after = db_client.history();
                        lemma_history_chain(before, second, after);
                        let xs = since(before, after);
                        assert(xs[0] == x);
                        assert(xs[1] == y);
                        assert(xs.skip(2) =~= since(second, after));
                    }
                    r
                },
            }
        },
    }
}

/// What a creation comes to once the parent directory `d`, stored under
/// `key`, has been read: an object with the stored form `blob` is created
/// under a fresh id; the caller's label `label` must be able to flow to the
/// target label, else the result is `BadTargetLabel`; the entry is put into
/// the directory. The exchanges `xs` are those after the directory was
/// read.
pub open spec fn creation(
    xs: Seq<Exchange>,
    key: Seq<u8>,
    d: Seq<NamedEntryView>,
    name: Seq<char>,
    target: LabelView,
    kind: DirEntry,
    blob: Seq<u8>,
    label: LabelView,
    result: Result<(), Error>,
) -> bool {
    let a = allocation(xs, MAX_UID_ATTEMPTS as nat, blob);
    &&& a.valid
    &&& a.used <= xs.len()
    &&& match a.result {
        Err(e) => xs.len() == a.used && result == Err::<(), Error>(e),
        Ok(uid) => if !label.can_flow_to(target) {
            xs.len() == a.used && result == Err::<(), Error>(Error::BadTargetLabel)
        } else {
            let entry = NamedEntryView {
                name,
                entry: EntryView { label: target, entry_type: kind, uid },
            };
            let i = insertion(xs.skip(a.used as int), MAX_CAS_ATTEMPTS as nat, key, d, entry);
            i.valid && result == i.result
        },
    }
}

/// The exchanges `xs` are a run of a creation, and `result` and `after`
/// are what it returns and the caller's label after it. The path `base` is
/// walked; the caller's label must be able to flow to the label of the
/// entry that it leads to, else the result is `Unauthorized`; the entry
/// must be a directory, else the result is `BadPath`; the directory is
/// read; then the object is created and entered as [`creation`] says. The
/// label is not raised beyond the walk: the check for writing raises
/// nothing, and it is the label as the walk left it that must be able to
/// flow to the target label.
pub open spec fn create_run(
    base: Seq<Seq<char>>,
    name: Seq<char>,
    target: LabelView,
    kind: DirEntry,
    blob: Seq<u8>,
    label: LabelView,
    xs: Seq<Exchange>,
    result: Result<(), Error>,
    after: LabelView,
) -> bool {
    let w = walk(base, label, answers_of(xs));
    let n = w.calls.len() as int;
    &&& n <= xs.len()
    &&& calls_of(xs).take(n) == w.calls
    &&& after == w.label
    &&& match w.failure {
        Some(e) => xs.len() == n && result == Err::<(), Error>(e),
        None => if !w.label.can_flow_to(w.entry.label) {
            xs.len() == n && result == Err::<(), Error>(Error::Unauthorized)
        } else if w.entry.entry_type != DirEntry::D {
            xs.len() == n && result == Err::<(), Error>(Error::BadPath)
        } else {
            &&& xs.len() > n
            &&& xs[n].call == (Call::Get { key: u64_be_bytes(w.entry.uid) })
            &&& match stored_directory(xs[n].answer) {
                Err(e) => xs.len() == n + 1 && result == Err::<(), Error>(e),
                Ok(d) => creation(
                    xs.skip(n + 1),
                    u64_be_bytes(w.entry.uid),
                    d,
                    name,
                    target,
                    kind,
                    blob,
                    w.label,
                    result,
                ),
            }
        },
    }
}

/// Creates an object of the kind `entry_type` with the stored form
/// `obj_vec` and the label `label` under the name `name` in the directory
/// at `base_dir`.
pub fn create_common<D: DbService>(
    base_dir: &str,
    name: &str,
    label: DCLabel,
    cur_label: &mut DCLabel,
    obj_vec: Vec<u8>,
    entry_type: DirEntry,
    db_client: &mut Session<D>,
) -> (r: Result<(), Error>)
    ensures
        extends(old(db_client).history(), final(db_client).history()),
        create_run(
            path_components(base_dir@),
            name@,
            label@,
            entry_type,
            obj_vec@,
            old(cur_label)@,
            since(old(db_client).history(), final(db_client).history()),
            r,
            final(cur_label)@,
        ),
{
    let ghost names = path_components(base_dir@);
    let ghost h0 = db_client.history();
    let ghost start = cur_label@;
    let walked = get_direntry(base_dir, cur_label, db_client);
    let ghost h1 = db_client.history();
    let ghost xs1 = since(h0, h1);
    let ghost w = walk(names, start, answers_of(xs1));
    proof {
        assert(calls_of(xs1).len() == xs1.len());
        assert(answers_of(xs1).len() == xs1.len());
        assert(calls_of(xs1).take(xs1.len() as int) =~= calls_of(xs1));
    }
    let labeled = match walked {
        Err(e) => {
            return Err(e);
        },
        Ok(labeled) => labeled,
    };
    let (kind, parent) = match labeled.unlabel_write_check(cur_label) {
        Err(e) => {
            return Err(e);
        },
        Ok(entry) => entry,
    };
    match kind {
        DirEntry::F => {
            return Err(Error::BadPath);
        },
        DirEntry::D => {},
    }
    let answer = db_client.get(uid_key(parent));
    let ghost x = Exchange {
        call: Call::Get { key: u64_be_bytes(parent) },
        answer: answer_view(answer),
    };
    let ghost h2 = db_client.history();
    let ghost xs2 = since(h0, h2);
    proof {
        lemma_history_push(h0, h1, x);
        lemma_walk_then(names, start, answers_of(xs1), x.answer);
        assert(xs2 =~= xs1.push(x));
        assert(calls_of(xs2).take(xs1.len() as int) =~= calls_of(xs1));
        assert(xs2.skip(xs1.len() as int + 1) =~= Seq::<Exchange>::empty());
    }
    let dir = match directory_of(answer) {
        Err(e) => {
            return Err(e);
        },
        Ok(dir) => dir,
    };
    let ghost d = dir@;
    let allocated = allocate(&obj_vec, MAX_UID_ATTEMPTS, db_client);
    let ghost h3 = db_client.history();
    let ghost ys = since(h2, h3);
    proof {
        lemma_history_chain(h0, h2, h3);
        let xs3 = since(h0, h3);
        assert(xs3 =~= xs1.push(x) + ys);
        lemma_answers_concat(xs2, ys);
        lemma_walk_answers(names, start, answers_of(xs1), answers_of(xs3));
        assert(calls_of(xs3).take(xs1.len() as int) =~= calls_of(xs1));
        assert(xs3[xs1.len() as int] == x);
        assert(xs3.skip(xs1.len() as int + 1) =~= ys);
        assert(ys.skip(ys.len() as int) =~= Seq::<Exchange>::empty());
    }
    let uid = match allocated {
        Err(e) => {
            return Err(e);
        },
        Ok(uid) => uid,
    };
    if !cur_label.can_flow_to(&label) {
        return Err(Error::BadTargetLabel);
    }
    let r = insert(
        parent,
        dir,
        name,
        cur_label,
        entry_type,
        &label,
        uid,
        MAX_CAS_ATTEMPTS,
        db_client,
    );
    proof {
        let h4 = db_client.history();
        let zs = since(h3, h4);
        lemma_history_chain(h2, h3, h4);
        lemma_history_chain(h0, h2, h4);
        let xs4 = since(h0, h4);
        let tail = since(h2, h4);
        assert(tail == ys + zs);
        assert(xs4 =~= xs1.push(x) + tail);
        lemma_answers_concat(xs2, tail);
        lemma_walk_answers(names, start, answers_of(xs1), answers_of(xs4));
        assert(calls_of(xs4).take(xs1.len() as int) =~= calls_of(xs1));
        assert(xs4[xs1.len() as int] == x);
        assert(xs4.skip(xs1.len() as int + 1) =~= tail);
        lemma_allocation_prefix(ys, zs, MAX_UID_ATTEMPTS as nat, obj_vec@);
        assert(tail.skip(ys.len() as int) =~= zs);
    }
    r
}

/// Creates an empty directory with the label `label` under the name `name`
/// in the directory at `base_dir`.
pub fn create_dir<D: DbService>(
    base_dir: &str,
    name: &str,
    label: DCLabel,
    cur_label: &mut DCLabel,
    db_client: &mut Session<D>,
) -> (r: Result<(), Error>)
    ensures
        extends(old(db_client).history(), final(db_client).history()),
        create_run(
            path_components(base_dir@),
            name@,
            label@,
            DirEntry::D,
            dir_bytes(Seq::empty()),
            old(cur_label)@,
            since(old(db_client).history(), final(db_client).history()),
            r,
            final(cur_label)@,
        ),
{
    create_common(
        base_dir,
        name,
        label,
        cur_label,
        Directory::new().to_vec(),
        DirEntry::D,
        db_client,
    )
}

/// Creates an empty file with the label `label` under the name `name` in
/// the directory at `base_dir`.
pub fn create_file<D: DbService>(
    base_dir: &str,
    name: &str,
    label: DCLabel,
    cur_label: &mut DCLabel,
    db_client: &mut Session<D>,
) -> (r: Result<(), Error>)
    ensures
        extends(old(db_client).history(), final(db_client).history()),
        create_run(
            path_components(base_dir@),
            name@,
            label@,
            DirEntry::F,
            Seq::empty(),
            old(cur_label)@,
            since(old(db_client).history(), final(db_client).history()),
            r,
            final(cur_label)@,
        ),
{
    create_common(base_dir, name, label, cur_label, File::new().to_vec(), DirEntry::F, db_client)
}

/// Reading never fails for want of authority, and it only raises the
/// caller's label. The root path is no file, and asks nothing of the
/// storage service.
pub proof fn lemma_read_outcome(names: Seq<Seq<char>>, label: LabelView, answers: Seq<Answer>)
    ensures
        read_outcome(names, label, answers).result != Err::<Seq<u8>, Error>(Error::Unauthorized),
        read_outcome(names, label, answers).result != Err::<Seq<u8>, Error>(Error::BadTargetLabel),
        label.can_flow_to(read_outcome(names, label, answers).label),
        names.len() == 0 ==> read_outcome(names, label, answers).result == Err::<Seq<u8>, Error>(
            Error::BadPath,
        ) && read_outcome(names, label, answers).calls.len() == 0,
{
    let w = walk(names, label, answers);
    lemma_walk_failures(names, label, answers);
    lemma_walk_raises(names, label, answers);
    lemma_storage_errors(answers[w.calls.len() as int]);
    lemma_lub_is_upper_bound(w.label, w.entry.label);
    lemma_can_flow_to_transitive(label, w.label, w.label.lub(w.entry.label));
}

/// Listing never fails for want of authority, and it only raises the
/// caller's label.
pub proof fn lemma_list_outcome(names: Seq<Seq<char>>, label: LabelView, answers: Seq<Answer>)
    ensures
        list_outcome(names, label, answers).result != Err::<Seq<Seq<char>>, Error>(
            Error::Unauthorized,
        ),
        list_outcome(names, label, answers).result != Err::<Seq<Seq<char>>, Error>(
            Error::BadTargetLabel,
        ),
        label.can_flow_to(list_outcome(names, label, answers).label),
{
    let w = walk(names, label, answers);
    lemma_walk_failures(names, label, answers);
    lemma_walk_raises(names, label, answers);
    lemma_storage_errors(answers[w.calls.len() as int]);
    lemma_lub_is_upper_bound(w.label, w.entry.label);
    lemma_can_flow_to_transitive(label, w.label, w.label.lub(w.entry.label));
}

/// A write reaches the storage service only if the caller's label, as the
/// walk has raised it, can flow to the label of the file; a write that does
/// not reach it for want of that fails with `Unauthorized`. Writing only
/// raises the caller's label.
pub proof fn lemma_write_outcome(
    names: Seq<Seq<char>>,
    data: Seq<u8>,
    label: LabelView,
    answers: Seq<Answer>,
)
    ensures
        ({
            let w = walk(names, label, answers);
            let o = write_outcome(names, data, label, answers);
            &&& label.can_flow_to(o.label)
            &&& o.result != Err::<(), Error>(Error::BadTargetLabel)
            &&& o.result is Ok ==> w.failure is None && w.label.can_flow_to(w.entry.label)
                && w.entry.entry_type == DirEntry::F
            &&& w.failure is None && !w.label.can_flow_to(w.entry.label) ==> o.result == Err::<
                (),
                Error,
            >(Error::Unauthorized) && o.calls == w.calls
        }),
{
    let w = walk(names, label, answers);
    lemma_walk_failures(names, label, answers);
    lemma_walk_raises(names, label, answers);
    lemma_storage_errors(answers[w.calls.len() as int]);
}

/// A creation succeeds only if the caller's label, as the walk has raised
/// it, could flow to the label of the parent directory and to the label of
/// the new object. Creating raises the caller's label by the walk and by
/// nothing else.
pub proof fn lemma_create_run(
    base: Seq<Seq<char>>,
    name: Seq<char>,
    target: LabelView,
    kind: DirEntry,
    blob: Seq<u8>,
    label: LabelView,
    xs: Seq<Exchange>,
    result: Result<(), Error>,
    after: LabelView,
)
    requires
        create_run(base, name, target, kind, blob, label, xs, result, after),
    ensures
        after == walk(base, label, answers_of(xs)).label,
        label.can_flow_to(after),
        result is Ok ==> ({
            let w = walk(base, label, answers_of(xs));
            &&& w.failure is None
            &&& w.entry.entry_type == DirEntry::D
            &&& w.label.can_flow_to(w.entry.label)
            &&& w.label.can_flow_to(target)
        }),
{
    lemma_walk_raises(base, label, answers_of(xs));
}

} // verus!
