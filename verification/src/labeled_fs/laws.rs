//! What the namespace does on a store that answers as the in-memory store
//! does: what was written is read, and what was created is listed and
//! found. And what every creation does whatever the store answers: it
//! succeeds only by a swap that took place, and a lost swap is followed by a
//! fresh read.

use crate::dclabel::LabelView;
use crate::distributed_db::local::{
    lemma_stored, lemma_value_read_back, response_is, stored, value_at, PairView, Response,
};
use crate::distributed_db::{answers_of, Call, Exchange};
use crate::encoding::u64_be_bytes;
use crate::labeled_fs::dir::{
    dir_bytes, lemma_dir_bytes_injective, lemma_lookup, lemma_lookup_push, lemma_lookup_unique,
    lookup, names, names_unique, Directory, NamedEntryView,
};
use crate::labeled_fs::direntry::{DirEntry, EntryView, ROOT_UID};
use crate::labeled_fs::{
    allocation, create_run, holds_directory, insertion, lemma_allocation_spares_root,
    list_outcome, read_outcome, stored_directory, stored_value, swap_status, walk, walk_step,
    write_outcome, Answer, Error, MAX_CAS_ATTEMPTS, MAX_UID_ATTEMPTS,
};
use vstd::prelude::*;

verus! {

/// The call reads a key, and the answer is that of a store that holds the
/// pairs `c`.
pub open spec fn read_from(c: Seq<PairView>, call: Call, answer: Answer) -> bool {
    &&& call is Get
    &&& answer is Ok
    &&& response_is(answer->Ok_0, Response::Value(value_at(c, call->Get_key)))
}

/// Every one of the calls reads a key, and its answer is that of a store
/// that holds the pairs `c`.
pub open spec fn all_read_from(c: Seq<PairView>, calls: Seq<Call>, answers: Seq<Answer>) -> bool {
    forall|k: int| 0 <= k < calls.len() ==> read_from(c, #[trigger] calls[k], answers[k])
}

/// The stores `a` and `b` hold the same at every key that the calls read.
pub open spec fn same_at(a: Seq<PairView>, b: Seq<PairView>, calls: Seq<Call>) -> bool {
    forall|k: int|
        0 <= k < calls.len() ==> value_at(a, (#[trigger] calls[k])->Get_key) == value_at(
            b,
            calls[k]->Get_key,
        )
}

/// Two answers of stores that hold the same at a key are read as the same
/// value and as the same directory.
pub proof fn lemma_same_answers(
    a: Seq<PairView>,
    b: Seq<PairView>,
    call: Call,
    x: Answer,
    y: Answer,
)
    requires
        read_from(a, call, x),
        read_from(b, call, y),
        value_at(a, call->Get_key) == value_at(b, call->Get_key),
    ensures
        stored_value(x) == stored_value(y),
        stored_directory(x) == stored_directory(y),
{
    reveal(stored_directory);
    lemma_value_read_back(x->Ok_0, value_at(a, call->Get_key));
    lemma_value_read_back(y->Ok_0, value_at(b, call->Get_key));
}

/// Walks along the same path on stores that hold the same at every key
/// that the first walk reads make the same calls and end at the same
/// entry, in the same way, whatever the callers' labels are.
pub proof fn lemma_walks_agree(
    names: Seq<Seq<char>>,
    la: LabelView,
    xa: Seq<Answer>,
    a: Seq<PairView>,
    lb: LabelView,
    xb: Seq<Answer>,
    b: Seq<PairView>,
)
    requires
        all_read_from(a, walk(names, la, xa).calls, xa),
        all_read_from(b, walk(names, lb, xb).calls, xb),
        same_at(a, b, walk(names, la, xa).calls),
    ensures
        walk(names, lb, xb).calls == walk(names, la, xa).calls,
        walk(names, lb, xb).failure == walk(names, la, xa).failure,
        walk(names, lb, xb).entry == walk(names, la, xa).entry,
    decreases names.len(),
{
    if names.len() > 0 {
        let front = names.drop_last();
        let wa = walk(front, la, xa);
        let wb = walk(front, lb, xb);
        let ca = walk(names, la, xa).calls;
        let cb = walk(names, lb, xb).calls;
        assert forall|k: int| 0 <= k < wa.calls.len() implies wa.calls[k] == ca[k] by {}
        assert forall|k: int| 0 <= k < wb.calls.len() implies wb.calls[k] == cb[k] by {}
        assert(all_read_from(a, wa.calls, xa)) by {
            assert forall|k: int| 0 <= k < wa.calls.len() implies read_from(
                a,
                #[trigger] wa.calls[k],
                xa[k],
            ) by {
                assert(read_from(a, ca[k], xa[k]));
            }
        }
        assert(all_read_from(b, wb.calls, xb)) by {
            assert forall|k: int| 0 <= k < wb.calls.len() implies read_from(
                b,
                #[trigger] wb.calls[k],
                xb[k],
            ) by {
                assert(read_from(b, cb[k], xb[k]));
            }
        }
        assert(same_at(a, b, wa.calls)) by {
            assert forall|k: int| 0 <= k < wa.calls.len() implies value_at(
                a,
                (#[trigger] wa.calls[k])->Get_key,
            ) == value_at(b, wa.calls[k]->Get_key) by {
                assert(value_at(a, ca[k]->Get_key) == value_at(b, ca[k]->Get_key));
            }
        }
        lemma_walks_agree(front, la, xa, a, lb, xb, b);
        if wa.failure is None && wa.entry.entry_type == DirEntry::D {
            let n = wa.calls.len() as int;
            let call = Call::Get { key: u64_be_bytes(wa.entry.uid) };
            assert(ca[n] == call);
            assert(cb[n] == call);
            assert(read_from(a, ca[n], xa[n]));
            assert(read_from(b, cb[n], xb[n]));
            assert(value_at(a, ca[n]->Get_key) == value_at(b, ca[n]->Get_key));
            lemma_same_answers(a, b, call, xa[n], xb[n]);
        }
    }
}

/// What was written is read. Let a write to the path `names` succeed on a
/// store that held the pairs `c` and answered the walk from them, where the
/// directories on the way are other objects than the file. Then a read of
/// the same path, by any caller, on the store as the write left it, returns
/// the bytes that were written, and nothing of what was there before.
pub proof fn lemma_write_then_read(
    names: Seq<Seq<char>>,
    data: Seq<u8>,
    c: Seq<PairView>,
    writer: LabelView,
    heard: Seq<Answer>,
    reader: LabelView,
    read: Seq<Answer>,
)
    requires
        write_outcome(names, data, writer, heard).result is Ok,
        all_read_from(c, walk(names, writer, heard).calls, heard),
        forall|k: int|
            0 <= k < walk(names, writer, heard).calls.len() ==> (#[trigger] walk(
                names,
                writer,
                heard,
            ).calls[k])->Get_key != u64_be_bytes(walk(names, writer, heard).entry.uid),
        all_read_from(
            stored(c, u64_be_bytes(walk(names, writer, heard).entry.uid), data),
            read_outcome(names, reader, read).calls,
            read,
        ),
    ensures
        read_outcome(names, reader, read).result == Ok::<Seq<u8>, Error>(data),
{
    let ww = walk(names, writer, heard);
    let wr = walk(names, reader, read);
    let key = u64_be_bytes(ww.entry.uid);
    let after = stored(c, key, data);
    let calls = read_outcome(names, reader, read).calls;
    assert forall|k: int| 0 <= k < wr.calls.len() implies wr.calls[k] == calls[k] by {}
    assert(all_read_from(after, wr.calls, read)) by {
        assert forall|k: int| 0 <= k < wr.calls.len() implies read_from(
            after,
            #[trigger] wr.calls[k],
            read[k],
        ) by {
            assert(read_from(after, calls[k], read[k]));
        }
    }
    assert(same_at(c, after, ww.calls)) by {
        assert forall|k: int| 0 <= k < ww.calls.len() implies value_at(
            c,
            (#[trigger] ww.calls[k])->Get_key,
        ) == value_at(after, ww.calls[k]->Get_key) by {
            lemma_stored(c, key, data, ww.calls[k]->Get_key);
        }
    }
    lemma_walks_agree(names, writer, heard, c, reader, read, after);
    let n = wr.calls.len() as int;
    assert(calls[n] == Call::Get { key });
    assert(read_from(after, calls[n], read[n]));
    lemma_stored(c, key, data, key);
    lemma_value_read_back(read[n]->Ok_0, Some(data));
}

/// A directory that an answer is read as is well-formed.
pub proof fn lemma_stored_directory_wf(answer: Answer)
    ensures
        stored_directory(answer) matches Ok(d) ==> names_unique(d),
{
    reveal(stored_directory);
}

/// The answer of a store that holds the stored form of the directory
/// `held` at the key that is read is read as that directory.
pub proof fn lemma_directory_read_back(c: Seq<PairView>, call: Call, answer: Answer, held: Directory)
    requires
        read_from(c, call, answer),
        value_at(c, call->Get_key) matches Some(bytes) && holds_directory(bytes, held),
    ensures
        stored_directory(answer) == Ok::<Seq<NamedEntryView>, Error>(held@),
{
    reveal(stored_directory);
    let bytes = value_at(c, call->Get_key)->Some_0;
    lemma_value_read_back(answer->Ok_0, Some(bytes));
    let blob = stored_value(answer)->Ok_0;
    assert(holds_directory(blob, held));
    assert forall|d: Directory| holds_directory(blob, d) implies d@ == held@ by {
        lemma_dir_bytes_injective(d@, held@);
    }
}

/// The call swaps the stored form of the directory `from`, which lacks the
/// name of `entry`, for the stored form of `from` with `entry` appended,
/// under the key `key`.
pub open spec fn installs(call: Call, key: Seq<u8>, from: Seq<NamedEntryView>, entry: NamedEntryView) -> bool {
    &&& names_unique(from)
    &&& lookup(from, entry.name) is None
    &&& call == (Call::Cas {
        key,
        expected: Some(dir_bytes(from)),
        value: dir_bytes(from.push(entry)),
    })
}

/// An update of a directory succeeds only by a swap that took place: its
/// last exchange is a swap from a directory that lacked the name to that
/// directory with the entry appended, and the answer reports success.
pub proof fn lemma_insertion_ok(
    xs: Seq<Exchange>,
    rounds: nat,
    key: Seq<u8>,
    d: Seq<NamedEntryView>,
    entry: NamedEntryView,
)
    requires
        names_unique(d),
        insertion(xs, rounds, key, d, entry).valid,
        insertion(xs, rounds, key, d, entry).result is Ok,
    ensures
        xs.len() > 0,
        swap_status(xs.last().answer) == Ok::<bool, Error>(true),
        exists|from: Seq<NamedEntryView>| #[trigger] installs(xs.last().call, key, from, entry),
    decreases rounds,
{
    if swap_status(xs[0].answer) == Ok::<bool, Error>(true) {
        assert(installs(xs.last().call, key, d, entry));
    } else {
        let again = stored_directory(xs[1].answer)->Ok_0;
        let rest = xs.skip(2);
        lemma_stored_directory_wf(xs[1].answer);
        lemma_insertion_ok(rest, (rounds - 1) as nat, key, again, entry);
        assert(rest.last() == xs.last());
    }
}

/// A lost swap is followed by a fresh read and a swap from what was read.
/// Where the first swap of an update is answered with a refusal, the next
/// call reads the directory again; and where the directory that is read
/// lacks the name and a round is left, the call after that swaps the stored
/// form of that directory for its stored form with the entry appended.
pub proof fn lemma_insertion_retries(
    xs: Seq<Exchange>,
    rounds: nat,
    key: Seq<u8>,
    d: Seq<NamedEntryView>,
    entry: NamedEntryView,
)
    requires
        insertion(xs, rounds, key, d, entry).valid,
        lookup(d, entry.name) is None,
        rounds > 0,
        swap_status(xs[0].answer) == Ok::<bool, Error>(false),
    ensures
        xs.len() >= 2,
        xs[0].call == (Call::Cas {
            key,
            expected: Some(dir_bytes(d)),
            value: dir_bytes(d.push(entry)),
        }),
        xs[1].call == (Call::Get { key }),
        stored_directory(xs[1].answer) matches Ok(again) ==> {
            &&& insertion(xs, rounds, key, d, entry).result == insertion(
                xs.skip(2),
                (rounds - 1) as nat,
                key,
                again,
                entry,
            ).result
            &&& lookup(again, entry.name) is None && rounds > 1 ==> xs.len() >= 3 && xs[2].call == (
            Call::Cas {
                key,
                expected: Some(dir_bytes(again)),
                value: dir_bytes(again.push(entry)),
            })
        },
{
    if let Ok(again) = stored_directory(xs[1].answer) {
        let rest = xs.skip(2);
        assert(insertion(rest, (rounds - 1) as nat, key, again, entry).valid);
        if lookup(again, entry.name) is None && rounds > 1 {
            assert(rest[0] == xs[2]);
        }
    }
}

/// What a creation that succeeded has done: the walk ended at a directory;
/// the object was created under an id that is not the root's; and the last
/// exchange is a swap that took place, under the key of that directory,
/// from a directory that lacked the name to that directory with the entry
/// of the new object appended, with the kind and the label as given.
pub proof fn lemma_creation_ok(
    base: Seq<Seq<char>>,
    name: Seq<char>,
    target: LabelView,
    kind: DirEntry,
    blob: Seq<u8>,
    label: LabelView,
    xs: Seq<Exchange>,
    after: LabelView,
)
    requires
        create_run(base, name, target, kind, blob, label, xs, Ok(()), after),
    ensures
        walk(base, label, answers_of(xs)).failure is None,
        walk(base, label, answers_of(xs)).entry.entry_type == DirEntry::D,
        xs.len() > 0,
        swap_status(xs.last().answer) == Ok::<bool, Error>(true),
        exists|from: Seq<NamedEntryView>, uid: u64|
            uid != ROOT_UID && #[trigger] installs(
                xs.last().call,
                u64_be_bytes(walk(base, label, answers_of(xs)).entry.uid),
                from,
                NamedEntryView { name, entry: EntryView { label: target, entry_type: kind, uid } },
            ),
{
    let w = walk(base, label, answers_of(xs));
    let n = w.calls.len() as int;
    let key = u64_be_bytes(w.entry.uid);
    let d = stored_directory(xs[n].answer)->Ok_0;
    let ys = xs.skip(n + 1);
    let a = allocation(ys, MAX_UID_ATTEMPTS as nat, blob);
    lemma_allocation_spares_root(ys, MAX_UID_ATTEMPTS as nat, blob);
    let uid = a.result->Ok_0;
    let entry = NamedEntryView { name, entry: EntryView { label: target, entry_type: kind, uid } };
    let zs = ys.skip(a.used as int);
    lemma_stored_directory_wf(xs[n].answer);
    lemma_insertion_ok(zs, MAX_CAS_ATTEMPTS as nat, key, d, entry);
    assert(zs.last() == xs.last());
    let from = choose|from: Seq<NamedEntryView>| #[trigger] installs(zs.last().call, key, from, entry);
    assert(installs(xs.last().call, key, from, entry));
}

/// What was created is listed. Let a creation of `name` in the directory at
/// `base` succeed on a store that held the pairs `c` and answered the walk
/// from them. Let the store then hold, at the key of that directory, what
/// the swap that took place stored, which is the stored form of the
/// directory `written`, and hold elsewhere on the way what it held. Then a
/// listing of `base`, by any caller, returns the names of `written`: the
/// names of the directory that the swap started from, which lacked `name`,
/// followed by `name`, and no name twice. And `name` stands there for an
/// object of the kind and with the label that were given, under an id that
/// is not the root's.
pub proof fn lemma_created_is_listed(
    base: Seq<Seq<char>>,
    name: Seq<char>,
    target: LabelView,
    kind: DirEntry,
    blob: Seq<u8>,
    label: LabelView,
    xs: Seq<Exchange>,
    after: LabelView,
    c: Seq<PairView>,
    then: Seq<PairView>,
    written: Directory,
    reader: LabelView,
    read: Seq<Answer>,
)
    requires
        create_run(base, name, target, kind, blob, label, xs, Ok(()), after),
        all_read_from(c, walk(base, label, answers_of(xs)).calls, answers_of(xs)),
        same_at(c, then, walk(base, label, answers_of(xs)).calls),
        value_at(then, u64_be_bytes(walk(base, label, answers_of(xs)).entry.uid)) == Some(
            xs.last().call->Cas_value,
        ),
        holds_directory(xs.last().call->Cas_value, written),
        all_read_from(then, list_outcome(base, reader, read).calls, read),
    ensures
        list_outcome(base, reader, read).result == Ok::<Seq<Seq<char>>, Error>(names(written@)),
        names_unique(written@),
        written@.len() > 0,
        names(written@) == names(written@.drop_last()).push(name),
        lookup(written@.drop_last(), name) is None,
        xs.last().call->Cas_expected == Some(dir_bytes(written@.drop_last())),
        lookup(written@, name) matches Some(e) && e.label == target && e.entry_type == kind
            && e.uid != ROOT_UID,
{
    let w = walk(base, label, answers_of(xs));
    let v = walk(base, reader, read);
    let key = u64_be_bytes(w.entry.uid);
    let calls = list_outcome(base, reader, read).calls;
    lemma_creation_ok(base, name, target, kind, blob, label, xs, after);
    let (from, uid) = choose|from: Seq<NamedEntryView>, uid: u64|
        uid != ROOT_UID && #[trigger] installs(
            xs.last().call,
            key,
            from,
            NamedEntryView { name, entry: EntryView { label: target, entry_type: kind, uid } },
        );
    let entry = NamedEntryView { name, entry: EntryView { label: target, entry_type: kind, uid } };
    lemma_dir_bytes_injective(written@, from.push(entry));
    assert(written@.drop_last() =~= from);
    assert(names(written@) =~= names(from).push(name));
    lemma_lookup_push(from, entry, name);
    // the listing walks as the creation did, and reads the directory
    assert forall|k: int| 0 <= k < v.calls.len() implies v.calls[k] == calls[k] by {}
    assert(all_read_from(then, v.calls, read)) by {
        assert forall|k: int| 0 <= k < v.calls.len() implies read_from(
            then,
            #[trigger] v.calls[k],
            read[k],
        ) by {
            assert(read_from(then, calls[k], read[k]));
        }
    }
    lemma_walks_agree(base, label, answers_of(xs), c, reader, read, then);
    let n = v.calls.len() as int;
    assert(calls[n] == Call::Get { key });
    assert(read_from(then, calls[n], read[n]));
    lemma_directory_read_back(then, calls[n], read[n], written);
}

/// What was created is found. On the store as the creation of
/// [`lemma_created_is_listed`] left it, a walk along `base` and then `name`,
/// by any caller, ends at the new object: an entry of the kind and with the
/// label that were given, under an id that is not the root's.
pub proof fn lemma_created_is_found(
    base: Seq<Seq<char>>,
    name: Seq<char>,
    target: LabelView,
    kind: DirEntry,
    blob: Seq<u8>,
    label: LabelView,
    xs: Seq<Exchange>,
    after: LabelView,
    c: Seq<PairView>,
    then: Seq<PairView>,
    written: Directory,
    reader: LabelView,
    read: Seq<Answer>,
)
    requires
        create_run(base, name, target, kind, blob, label, xs, Ok(()), after),
        all_read_from(c, walk(base, label, answers_of(xs)).calls, answers_of(xs)),
        same_at(c, then, walk(base, label, answers_of(xs)).calls),
        value_at(then, u64_be_bytes(walk(base, label, answers_of(xs)).entry.uid)) == Some(
            xs.last().call->Cas_value,
        ),
        holds_directory(xs.last().call->Cas_value, written),
        all_read_from(then, walk(base.push(name), reader, read).calls, read),
    ensures
        walk(base.push(name), reader, read).failure is None,
        walk(base.push(name), reader, read).entry.label == target,
        walk(base.push(name), reader, read).entry.entry_type == kind,
        walk(base.push(name), reader, read).entry.uid != ROOT_UID,
        Some(walk(base.push(name), reader, read).entry) == lookup(written@, name),
{
    let w = walk(base, label, answers_of(xs));
    let v = walk(base, reader, read);
    let key = u64_be_bytes(w.entry.uid);
    let path = base.push(name);
    let calls = walk(path, reader, read).calls;
    assert(path.drop_last() =~= base);
    assert(path.last() == name);
    lemma_creation_ok(base, name, target, kind, blob, label, xs, after);
    let (from, uid) = choose|from: Seq<NamedEntryView>, uid: u64|
        uid != ROOT_UID && #[trigger] installs(
            xs.last().call,
            key,
            from,
            NamedEntryView { name, entry: EntryView { label: target, entry_type: kind, uid } },
        );
    let entry = NamedEntryView { name, entry: EntryView { label: target, entry_type: kind, uid } };
    lemma_dir_bytes_injective(written@, from.push(entry));
    lemma_lookup_push(from, entry, name);
    assert forall|k: int| 0 <= k < v.calls.len() implies v.calls[k] == calls[k] by {}
    assert(all_read_from(then, v.calls, read)) by {
        assert forall|k: int| 0 <= k < v.calls.len() implies read_from(
            then,
            #[trigger] v.calls[k],
            read[k],
        ) by {
            assert(read_from(then, calls[k], read[k]));
        }
    }
    lemma_walks_agree(base, label, answers_of(xs), c, reader, read, then);
    let n = v.calls.len() as int;
    assert(walk(path, reader, read) == walk_step(v, name, read));
    assert(calls[n] == Call::Get { key });
    assert(read_from(then, calls[n], read[n]));
    lemma_directory_read_back(then, calls[n], read[n], written);
}

/// One creation that succeeded: what was asked for, the caller's label
/// before and after, and the exchanges of the run.
pub struct Created {
    pub name: Seq<char>,
    pub target: LabelView,
    pub kind: DirEntry,
    pub blob: Seq<u8>,
    pub label: LabelView,
    pub xs: Seq<Exchange>,
    pub after: LabelView,
}

/// The creation `step` in the directory at `base` succeeded on a store
/// that held the pairs `before` and answered the walk from them, with no
/// other writer at work: the swap that took place started from what the
/// store held at the key of the directory, which was the stored form of
/// `held`. The store then holds the pairs `then`: at that key what the swap
/// stored, which is the stored form of `written`, and on the way what it
/// held.
pub open spec fn creates(
    base: Seq<Seq<char>>,
    step: Created,
    before: Seq<PairView>,
    then: Seq<PairView>,
    held: Directory,
    written: Directory,
) -> bool {
    let w = walk(base, step.label, answers_of(step.xs));
    let key = u64_be_bytes(w.entry.uid);
    &&& create_run(
        base,
        step.name,
        step.target,
        step.kind,
        step.blob,
        step.label,
        step.xs,
        Ok(()),
        step.after,
    )
    &&& all_read_from(before, w.calls, answers_of(step.xs))
    &&& same_at(before, then, w.calls)
    &&& value_at(before, key) == step.xs.last().call->Cas_expected
    &&& value_at(before, key) matches Some(bytes) && holds_directory(bytes, held)
    &&& value_at(then, key) == Some(step.xs.last().call->Cas_value)
    &&& holds_directory(step.xs.last().call->Cas_value, written)
}

/// The entry `e` is one of the creation `step`: it carries the name, the
/// kind and the label that were given, and an object id that is not the
/// root's.
pub open spec fn entry_of(step: Created, e: NamedEntryView) -> bool {
    &&& e.name == step.name
    &&& e.entry.label == step.target
    &&& e.entry.entry_type == step.kind
    &&& e.entry.uid != ROOT_UID
}

/// A creation with no other writer at work appends one entry: the
/// directory that it stored is the directory that the store held with an
/// entry of the creation appended.
pub proof fn lemma_creates_appends(
    base: Seq<Seq<char>>,
    step: Created,
    before: Seq<PairView>,
    then: Seq<PairView>,
    held: Directory,
    written: Directory,
)
    requires
        creates(base, step, before, then, held, written),
    ensures
        written@.len() == held@.len() + 1,
        written@.drop_last() == held@,
        entry_of(step, written@.last()),
        lookup(held@, step.name) is None,
        names_unique(written@),
{
    let w = walk(base, step.label, answers_of(step.xs));
    let key = u64_be_bytes(w.entry.uid);
    lemma_creation_ok(
        base,
        step.name,
        step.target,
        step.kind,
        step.blob,
        step.label,
        step.xs,
        step.after,
    );
    let (from, uid) = choose|from: Seq<NamedEntryView>, uid: u64|
        uid != ROOT_UID && #[trigger] installs(
            step.xs.last().call,
            key,
            from,
            NamedEntryView {
                name: step.name,
                entry: EntryView { label: step.target, entry_type: step.kind, uid },
            },
        );
    let entry = NamedEntryView {
        name: step.name,
        entry: EntryView { label: step.target, entry_type: step.kind, uid },
    };
    lemma_dir_bytes_injective(written@, from.push(entry));
    lemma_dir_bytes_injective(held@, from);
    assert(written@.drop_last() =~= from);
}

/// In the directory `d` the name of the creation `step` stands for an
/// object of the kind and with the label that were given, under an id that
/// is not the root's.
pub open spec fn stands_in(d: Seq<NamedEntryView>, step: Created) -> bool {
    &&& lookup(d, step.name) is Some
    &&& lookup(d, step.name)->Some_0.label == step.target
    &&& lookup(d, step.name)->Some_0.entry_type == step.kind
    &&& lookup(d, step.name)->Some_0.uid != ROOT_UID
}

/// The names of the creations `steps`, in order.
pub open spec fn created_names(steps: Seq<Created>) -> Seq<Seq<char>> {
    Seq::new(steps.len(), |i: int| steps[i].name)
}

/// Creations one after another, with no other writer at work, append their
/// entries one after another: after the first `k` of them the directory is
/// the directory at the start followed by one entry of each.
pub proof fn lemma_creations_append(
    base: Seq<Seq<char>>,
    steps: Seq<Created>,
    stores: Seq<Seq<PairView>>,
    dirs: Seq<Directory>,
    k: int,
)
    requires
        stores.len() == steps.len() + 1,
        dirs.len() == steps.len() + 1,
        forall|i: int|
            0 <= i < steps.len() ==> creates(
                base,
                #[trigger] steps[i],
                stores[i],
                stores[i + 1],
                dirs[i],
                dirs[i + 1],
            ),
        dirs[0].wf(),
        0 <= k <= steps.len(),
    ensures
        dirs[k]@.len() == dirs[0]@.len() + k,
        dirs[k]@.take(dirs[0]@.len() as int) == dirs[0]@,
        forall|i: int| 0 <= i < k ==> entry_of(#[trigger] steps[i], dirs[k]@[dirs[0]@.len() + i]),
        names_unique(dirs[k]@),
    decreases k,
{
    let n = dirs[0]@.len() as int;
    if k == 0 {
        assert(dirs[0]@.take(n) =~= dirs[0]@);
    } else {
        lemma_creations_append(base, steps, stores, dirs, k - 1);
        assert(creates(base, steps[k - 1], stores[k - 1], stores[k], dirs[k - 1], dirs[k]));
        lemma_creates_appends(base, steps[k - 1], stores[k - 1], stores[k], dirs[k - 1], dirs[k]);
        let prev = dirs[k - 1]@;
        let cur = dirs[k]@;
        assert(cur.take(n) =~= prev.take(n)) by {
            assert forall|j: int| 0 <= j < n implies cur[j] == prev[j] by {
                assert(cur.drop_last()[j] == prev[j]);
            }
        }
        assert forall|i: int| 0 <= i < k implies entry_of(#[trigger] steps[i], cur[n + i]) by {
            if i < k - 1 {
                assert(cur.drop_last()[n + i] == prev[n + i]);
            } else {
                assert(cur[n + i] == cur.last());
            }
        }
    }
}

/// What was created, one after another, is listed and found. Let the
/// creations `steps` in the directory at `base` succeed one after another,
/// with no other writer at work, from a well-formed directory. Then a
/// listing of `base` on the store as the last of them left it, by any
/// caller, returns the names that were there followed by the names that
/// were created, in order and no name twice; and each created name stands,
/// in the directory that is read back, for an object of the kind and with
/// the label that were given with it.
pub proof fn lemma_creations_are_listed(
    base: Seq<Seq<char>>,
    steps: Seq<Created>,
    stores: Seq<Seq<PairView>>,
    dirs: Seq<Directory>,
    reader: LabelView,
    read: Seq<Answer>,
)
    requires
        steps.len() > 0,
        stores.len() == steps.len() + 1,
        dirs.len() == steps.len() + 1,
        forall|i: int|
            0 <= i < steps.len() ==> creates(
                base,
                #[trigger] steps[i],
                stores[i],
                stores[i + 1],
                dirs[i],
                dirs[i + 1],
            ),
        dirs[0].wf(),
        all_read_from(stores.last(), list_outcome(base, reader, read).calls, read),
    ensures
        list_outcome(base, reader, read).result == Ok::<Seq<Seq<char>>, Error>(
            names(dirs[0]@) + created_names(steps),
        ),
        names_unique(dirs.last()@),
        names(dirs.last()@) == names(dirs[0]@) + created_names(steps),
        forall|i: int| 0 <= i < steps.len() ==> stands_in(dirs.last()@, #[trigger] steps[i]),
{
    let k = steps.len() as int;
    let n = dirs[0]@.len() as int;
    let last = dirs.last()@;
    let step = steps[k - 1];
    lemma_creations_append(base, steps, stores, dirs, k);
    assert(names(last) =~= names(dirs[0]@) + created_names(steps)) by {
        assert forall|j: int| 0 <= j < last.len() implies names(last)[j] == (names(dirs[0]@)
            + created_names(steps))[j] by {
            if j < n {
                assert(last.take(n)[j] == dirs[0]@[j]);
            } else {
                assert(entry_of(steps[j - n], last[n + (j - n)]));
            }
        }
    }
    assert forall|i: int| 0 <= i < steps.len() implies stands_in(last, #[trigger] steps[i]) by {
        assert(entry_of(steps[i], last[n + i]));
        lemma_lookup_unique(last, n + i);
    }
    assert(creates(base, step, stores[k - 1], stores[k], dirs[k - 1], dirs[k]));
    lemma_created_is_listed(
        base,
        step.name,
        step.target,
        step.kind,
        step.blob,
        step.label,
        step.xs,
        step.after,
        stores[k - 1],
        stores[k],
        dirs[k],
        reader,
        read,
    );
}

/// What was created, one after another, is found. On the store as the
/// last of the creations of [`lemma_creations_are_listed`] left it, a walk
/// along `base` and then the name of any one of them, by any caller, ends
/// at an entry of the kind and with the label that were given with that
/// name.
pub proof fn lemma_creations_are_found(
    base: Seq<Seq<char>>,
    steps: Seq<Created>,
    stores: Seq<Seq<PairView>>,
    dirs: Seq<Directory>,
    i: int,
    reader: LabelView,
    read: Seq<Answer>,
)
    requires
        0 <= i < steps.len(),
        stores.len() == steps.len() + 1,
        dirs.len() == steps.len() + 1,
        forall|j: int|
            0 <= j < steps.len() ==> creates(
                base,
                #[trigger] steps[j],
                stores[j],
                stores[j + 1],
                dirs[j],
                dirs[j + 1],
            ),
        dirs[0].wf(),
        all_read_from(stores.last(), walk(base.push(steps[i].name), reader, read).calls, read),
    ensures
        walk(base.push(steps[i].name), reader, read).failure is None,
        walk(base.push(steps[i].name), reader, read).entry.label == steps[i].target,
        walk(base.push(steps[i].name), reader, read).entry.entry_type == steps[i].kind,
        walk(base.push(steps[i].name), reader, read).entry.uid != ROOT_UID,
{
    let k = steps.len() as int;
    let n = dirs[0]@.len() as int;
    let last = dirs.last()@;
    let step = steps[k - 1];
    let name = steps[i].name;
    let path = base.push(name);
    let w = walk(base, step.label, answers_of(step.xs));
    let v = walk(base, reader, read);
    let key = u64_be_bytes(w.entry.uid);
    let calls = walk(path, reader, read).calls;
    lemma_creations_append(base, steps, stores, dirs, k);
    assert(entry_of(steps[i], last[n + i]));
    lemma_lookup_unique(last, n + i);
    assert(creates(base, step, stores[k - 1], stores[k], dirs[k - 1], dirs[k]));
    lemma_creation_ok(
        base,
        step.name,
        step.target,
        step.kind,
        step.blob,
        step.label,
        step.xs,
        step.after,
    );
    assert(path.drop_last() =~= base);
    assert(path.last() == name);
    assert forall|j: int| 0 <= j < v.calls.len() implies v.calls[j] == calls[j] by {}
    assert(all_read_from(stores[k], v.calls, read)) by {
        assert forall|j: int| 0 <= j < v.calls.len() implies read_from(
            stores[k],
            #[trigger] v.calls[j],
            read[j],
        ) by {
            assert(read_from(stores[k], calls[j], read[j]));
        }
    }
    lemma_walks_agree(base, step.label, answers_of(step.xs), stores[k - 1], reader, read, stores[k]);
    let m = v.calls.len() as int;
    assert(walk(path, reader, read) == walk_step(v, name, read));
    assert(calls[m] == Call::Get { key });
    assert(read_from(stores[k], calls[m], read[m]));
    lemma_directory_read_back(stores[k], calls[m], read[m], dirs[k]);
}

} // verus!
