//! Directories: names mapped to labeled entries.

use crate::dclabel::DCLabel;
use crate::dclabel_helper::{
    dc_label_to_proto_label, lemma_proto_label_view, proto_label, proto_label_to_dc_label,
};
use crate::encoding::{copy_bytes, FieldValue, ValueView};
use crate::labeled_fs::direntry::{DirEntry, EntryView, LabeledDirEntry};
use crate::labeled_fs::Error;
use crate::record::{
    decode, encode_to_vec, explicit_bytes, explicit_u64, get_explicit_bytes, get_explicit_u64,
    get_repeated_bytes, items_view, lemma_slots_bytes_injective, message_bytes,
    put_explicit_bytes, put_explicit_u64, put_repeated_bytes, repeated_bytes, slots_bytes,
    slots_view, string_bytes, string_of_bytes, Message,
};
use crate::syscalls::{label_bytes, lemma_label_bytes_injective, DcLabel};
use vstd::prelude::*;

verus! {

/// A name in a directory and the entry that it stands for.
#[derive(Debug, Clone, PartialEq, Eq)]
pub struct NamedEntry {
    pub name: String,
    pub entry: LabeledDirEntry,
}

/// The mathematical value of a [`NamedEntry`].
#[verifier::ext_equal]
pub struct NamedEntryView {
    pub name: Seq<char>,
    pub entry: EntryView,
}

impl View for NamedEntry {
    type V = NamedEntryView;

    open spec fn view(&self) -> NamedEntryView {
        NamedEntryView { name: self.name@, entry: self.entry@ }
    }
}

/// A directory: names, each with its entry, in the order in which they
/// were created. No name occurs twice in a well-formed directory.
#[derive(Debug, Clone, PartialEq, Eq)]
pub struct Directory {
    mappings: Vec<NamedEntry>,
}

impl View for Directory {
    type V = Seq<NamedEntryView>;

    closed spec fn view(&self) -> Seq<NamedEntryView> {
        Seq::new(self.mappings.len() as nat, |i: int| self.mappings[i]@)
    }
}

/// The number under which a kind is stored.
pub open spec fn kind_code(kind: DirEntry) -> u64 {
    match kind {
        DirEntry::D => 0,
        DirEntry::F => 1,
    }
}

/// The slots of a named entry: the name in UTF-8, the kind, the object id
/// and the label.
pub open spec fn entry_slots(e: NamedEntryView) -> Seq<Seq<ValueView>> {
    seq![
        explicit_bytes(vstd::utf8::encode_utf8(e.name)),
        explicit_u64(kind_code(e.entry.entry_type)),
        explicit_u64(e.entry.uid),
        explicit_bytes(label_bytes(e.entry.label)),
    ]
}

/// The bytes of a named entry.
pub open spec fn entry_bytes(e: NamedEntryView) -> Seq<u8> {
    slots_bytes(entry_slots(e))
}

/// The bytes of each of the given named entries.
pub open spec fn entries_bytes(d: Seq<NamedEntryView>) -> Seq<Seq<u8>> {
    Seq::new(d.len(), |k: int| entry_bytes(d[k]))
}

/// The slots of a directory: one, with the bytes of each named entry.
pub open spec fn dir_slots(d: Seq<NamedEntryView>) -> Seq<Seq<ValueView>> {
    seq![repeated_bytes(entries_bytes(d))]
}

/// The stored form of a directory.
pub open spec fn dir_bytes(d: Seq<NamedEntryView>) -> Seq<u8> {
    slots_bytes(dir_slots(d))
}

/// No name occurs twice.
pub open spec fn names_unique(d: Seq<NamedEntryView>) -> bool {
    forall|i: int, j: int|
        0 <= i < d.len() && 0 <= j < d.len() && i != j ==> (#[trigger] d[i]).name != (
        #[trigger] d[j]).name
}

/// The entry under `name`: that of the first named entry with that name.
pub open spec fn lookup(d: Seq<NamedEntryView>, name: Seq<char>) -> Option<EntryView>
    decreases d.len(),
{
    if d.len() == 0 {
        None
    } else if d[0].name == name {
        Some(d[0].entry)
    } else {
        lookup(d.skip(1), name)
    }
}

/// The names of a directory, in order.
pub open spec fn names(d: Seq<NamedEntryView>) -> Seq<Seq<char>> {
    Seq::new(d.len(), |k: int| d[k].name)
}

impl Message for NamedEntry {
    open spec fn slots(&self) -> Seq<Seq<ValueView>> {
        entry_slots(self@)
    }

    open spec fn count() -> nat {
        4
    }

    proof fn lemma_slots(&self) {
    }

    fn slot_count() -> (n: u8) {
        4
    }

    fn to_slots(&self) -> (r: Vec<Vec<FieldValue>>) {
        let mut r: Vec<Vec<FieldValue>> = Vec::new();
        let name = string_bytes(&self.name);
        let kind: u64 = match self.entry.entry_type {
            DirEntry::D => 0,
            DirEntry::F => 1,
        };
        let label = encode_to_vec(&dc_label_to_proto_label(&self.entry.label));
        r.push(put_explicit_bytes(&name));
        r.push(put_explicit_u64(kind));
        r.push(put_explicit_u64(self.entry.uid));
        r.push(put_explicit_bytes(&label));
        assert(slots_view(r@) =~= self.slots());
        r
    }

    fn from_slots(slots: &Vec<Vec<FieldValue>>) -> (r: Option<Self>) {
        let ghost sv = slots_view(slots@);
        let name = match get_explicit_bytes(&slots[0]) {
            Some(b) => {
                let ghost raw = b@;
                let parsed = string_of_bytes(b);
                proof {
                    if parsed is None {
                        assert forall|m: Self| #[trigger] m.slots() != sv by {
                            if m.slots() == sv {
                                let e = vstd::utf8::encode_utf8(m.name@);
                                assert(m.slots()[0] == sv[0]);
                                assert(explicit_bytes(e)[0] == explicit_bytes(raw)[0]);
                            }
                        }
                    }
                }
                parsed
            },
            None => {
                assert forall|m: Self| #[trigger] m.slots() != sv by {
                    if m.slots() == sv {
                        assert(m.slots()[0] == sv[0]);
                    }
                }
                None
            },
        };
        let entry_type = match get_explicit_u64(&slots[1]) {
            Some(code) => {
                proof {
                    if code > 1 {
                        assert forall|m: Self| #[trigger] m.slots() != sv by {
                            if m.slots() == sv {
                                let c = kind_code(m.entry.entry_type);
                                assert(m.slots()[1] == sv[1]);
                                assert(explicit_u64(c)[0] == explicit_u64(code)[0]);
                            }
                        }
                    }
                }
                if code == 0 {
                    Some(DirEntry::D)
                } else if code == 1 {
                    Some(DirEntry::F)
                } else {
                    None
                }
            },
            None => {
                assert forall|m: Self| #[trigger] m.slots() != sv by {
                    if m.slots() == sv {
                        assert(m.slots()[1] == sv[1]);
                    }
                }
                None
            },
        };
        let uid = match get_explicit_u64(&slots[2]) {
            Some(uid) => Some(uid),
            None => {
                assert forall|m: Self| #[trigger] m.slots() != sv by {
                    if m.slots() == sv {
                        assert(m.slots()[2] == sv[2]);
                    }
                }
                None
            },
        };
        let label = match get_explicit_bytes(&slots[3]) {
            Some(b) => {
                let parsed = decode::<DcLabel>(b.as_slice());
                proof {
                    if parsed is None {
                        assert forall|m: Self| #[trigger] m.slots() != sv by {
                            if m.slots() == sv {
                                let e = label_bytes(m.entry.label@);
                                assert(m.slots()[3] == sv[3]);
                                assert(explicit_bytes(e)[0] == explicit_bytes(b@)[0]);
                                lemma_proto_label_view(m.entry.label);
                                assert(message_bytes(&proto_label(m.entry.label)) == e);
                            }
                        }
                    }
                }
                match parsed {
                    Some(p) => Some(proto_label_to_dc_label(p)),
                    None => None,
                }
            },
            None => {
                assert forall|m: Self| #[trigger] m.slots() != sv by {
                    if m.slots() == sv {
                        assert(m.slots()[3] == sv[3]);
                    }
                }
                None
            },
        };
        match (name, entry_type, uid, label) {
            (Some(name), Some(entry_type), Some(uid), Some(label)) => {
                let m = NamedEntry { name, entry: LabeledDirEntry { label, entry_type, uid } };
                assert(m.slots() =~= sv);
                Some(m)
            },
            _ => None,
        }
    }
}

impl Message for Directory {
    open spec fn slots(&self) -> Seq<Seq<ValueView>> {
        dir_slots(self@)
    }

    open spec fn count() -> nat {
        1
    }

    proof fn lemma_slots(&self) {
    }

    fn slot_count() -> (n: u8) {
        1
    }

    fn to_slots(&self) -> (r: Vec<Vec<FieldValue>>) {
        let mut items: Vec<Vec<u8>> = Vec::new();
        let mut i: usize = 0;
        while i < self.mappings.len()
            invariant
                0 <= i <= self.mappings.len(),
                items.len() == i,
                forall|k: int| 0 <= k < i ==> items[k]@ == entry_bytes(self.mappings[k]@),
            decreases self.mappings.len() - i,
        {
            items.push(encode_to_vec(&self.mappings[i]));
            i += 1;
        }
        assert(items_view(items@) =~= entries_bytes(self@));
        let mut r: Vec<Vec<FieldValue>> = Vec::new();
        r.push(put_repeated_bytes(&items));
        assert(slots_view(r@) =~= self.slots());
        r
    }

    fn from_slots(slots: &Vec<Vec<FieldValue>>) -> (r: Option<Self>) {
        let ghost sv = slots_view(slots@);
        let items = match get_repeated_bytes(&slots[0]) {
            Some(items) => items,
            None => {
                assert forall|m: Self| #[trigger] m.slots() != sv by {
                    if m.slots() == sv {
                        assert(m.slots()[0] == sv[0]);
                    }
                }
                return None;
            },
        };
        let mut mappings: Vec<NamedEntry> = Vec::new();
        let mut i: usize = 0;
        while i < items.len()
            invariant
                0 <= i <= items.len(),
                mappings.len() == i,
                slots.len() == 1,
                sv == slots_view(slots@),
                sv[0] == repeated_bytes(items_view(items@)),
                forall|k: int| 0 <= k < i ==> entry_bytes(mappings[k]@) == items[k]@,
            decreases items.len() - i,
        {
            match decode::<NamedEntry>(items[i].as_slice()) {
                Some(e) => {
                    mappings.push(e);
                },
                None => {
                    assert forall|m: Self| #[trigger] m.slots() != sv by {
                        if m.slots() == sv {
                            let a = repeated_bytes(entries_bytes(m@));
                            let b = repeated_bytes(items_view(items@));
                            assert(m.slots()[0] == sv[0]);
                            assert(a.len() == b.len());
                            assert(a[i as int] == b[i as int]);
                            assert(message_bytes(&m.mappings[i as int]) == items[i as int]@);
                        }
                    }
                    return None;
                },
            }
            i += 1;
        }
        let m = Directory { mappings };
        proof {
            assert(entries_bytes(m@) =~= items_view(items@));
            assert(m.slots() =~= sv);
        }
        Some(m)
    }
}

/// Named entries with the same bytes are the same named entry.
pub proof fn lemma_entry_bytes_injective(a: NamedEntryView, b: NamedEntryView)
    requires
        entry_bytes(a) == entry_bytes(b),
    ensures
        a == b,
{
    let x = entry_slots(a);
    let y = entry_slots(b);
    lemma_slots_bytes_injective(x, y);
    assert(x[0][0] == y[0][0]);
    assert(x[1][0] == y[1][0]);
    assert(x[2][0] == y[2][0]);
    assert(x[3][0] == y[3][0]);
    vstd::utf8::encode_utf8_decode_utf8(a.name);
    vstd::utf8::encode_utf8_decode_utf8(b.name);
    lemma_label_bytes_injective(a.entry.label, b.entry.label);
}

/// Directories with the same stored form are the same directory: reading
/// back what was written yields what was written.
pub proof fn lemma_dir_bytes_injective(a: Seq<NamedEntryView>, b: Seq<NamedEntryView>)
    requires
        dir_bytes(a) == dir_bytes(b),
    ensures
        a == b,
{
    lemma_slots_bytes_injective(dir_slots(a), dir_slots(b));
    let x = repeated_bytes(entries_bytes(a));
    let y = repeated_bytes(entries_bytes(b));
    assert(dir_slots(a)[0] == dir_slots(b)[0]);
    assert(x.len() == y.len());
    assert forall|k: int| 0 <= k < a.len() implies a[k] == b[k] by {
        assert(x[k] == y[k]);
        assert(entries_bytes(a)[k] == entries_bytes(b)[k]);
        lemma_entry_bytes_injective(a[k], b[k]);
    }
    assert(a =~= b);
}

/// A name has no entry exactly if no named entry carries it, and the entry
/// of a name is that of a named entry that carries it.
pub proof fn lemma_lookup(d: Seq<NamedEntryView>, name: Seq<char>)
    ensures
        lookup(d, name) is None <==> forall|i: int| 0 <= i < d.len() ==> (#[trigger] d[i]).name != name,
        lookup(d, name) matches Some(e) ==> exists|i: int|
            0 <= i < d.len() && (#[trigger] d[i]).name == name && d[i].entry == e,
    decreases d.len(),
{
    if d.len() > 0 {
        let rest = d.skip(1);
        lemma_lookup(rest, name);
        if d[0].name != name {
            assert forall|i: int| 0 <= i < rest.len() implies (#[trigger] rest[i]) == d[i + 1] by {}
            if lookup(rest, name) is None {
                assert forall|i: int| 0 <= i < d.len() implies (#[trigger] d[i]).name != name by {
                    if i > 0 {
                        assert(rest[i - 1] == d[i]);
                    }
                }
            } else {
                let i = choose|i: int|
                    0 <= i < rest.len() && (#[trigger] rest[i]).name == name && rest[i].entry
                        == lookup(rest, name)->0;
                assert(d[i + 1] == rest[i]);
            }
        }
    }
}

/// After a named entry is appended, its name leads to its entry if the
/// name was free, and every other name leads where it led before.
pub proof fn lemma_lookup_push(d: Seq<NamedEntryView>, e: NamedEntryView, name: Seq<char>)
    ensures
        lookup(d.push(e), name) == if lookup(d, name) is Some {
            lookup(d, name)
        } else if e.name == name {
            Some(e.entry)
        } else {
            None
        },
    decreases d.len(),
{
    if d.len() == 0 {
        assert(d.push(e).skip(1) =~= Seq::<NamedEntryView>::empty());
        assert(d.push(e)[0] == e);
        assert(lookup(d.push(e).skip(1), name) is None);
    } else {
        assert(d.push(e).skip(1) =~= d.skip(1).push(e));
        assert(d.push(e)[0] == d[0]);
        lemma_lookup_push(d.skip(1), e, name);
    }
}

/// In a directory without a name twice, every name leads to the entry that
/// stands with it.
pub proof fn lemma_lookup_unique(d: Seq<NamedEntryView>, i: int)
    requires
        names_unique(d),
        0 <= i < d.len(),
    ensures
        lookup(d, d[i].name) == Some(d[i].entry),
{
    lemma_lookup(d, d[i].name);
}

/// Entries survive storing. Let the entries `added` be appended to the
/// directory `before`, no name twice, and let `back` be a directory with
/// the stored form of the result. Then `back` is that result: its names are
/// those of `before` followed by those of `added`, and every name leads to
/// the kind, the object id and the label that were given with it.
pub proof fn lemma_entries_survive(
    before: Seq<NamedEntryView>,
    added: Seq<NamedEntryView>,
    back: Directory,
)
    requires
        names_unique(before + added),
        dir_bytes(back@) == dir_bytes(before + added),
    ensures
        back@ == before + added,
        back.wf(),
        names(back@) == names(before) + names(added),
        forall|i: int|
            0 <= i < before.len() ==> lookup(back@, (#[trigger] before[i]).name) == Some(
                before[i].entry,
            ),
        forall|i: int|
            0 <= i < added.len() ==> lookup(back@, (#[trigger] added[i]).name) == Some(
                added[i].entry,
            ),
{
    let all = before + added;
    lemma_dir_bytes_injective(back@, all);
    assert(names(all) =~= names(before) + names(added));
    assert forall|i: int| 0 <= i < before.len() implies lookup(all, (#[trigger] before[i]).name)
        == Some(before[i].entry) by {
        assert(all[i] == before[i]);
        lemma_lookup_unique(all, i);
    }
    assert forall|i: int| 0 <= i < added.len() implies lookup(all, (#[trigger] added[i]).name)
        == Some(added[i].entry) by {
        assert(all[before.len() + i] == added[i]);
        lemma_lookup_unique(all, before.len() + i);
    }
}

impl Directory {
    /// No name occurs twice in this directory.
    pub open spec fn wf(&self) -> bool {
        names_unique(self@)
    }

    /// The empty directory.
    pub fn new() -> (r: Directory)
        ensures
            r@ == Seq::<NamedEntryView>::empty(),
            r.wf(),
    {
        let r = Directory { mappings: Vec::new() };
        assert(r@ =~= Seq::<NamedEntryView>::empty());
        r
    }

    /// The position of the named entry that carries `name`.
    fn find(&self, name: &String) -> (r: Option<usize>)
        ensures
            match r {
                Some(i) => i < self@.len() && self@[i as int].name == name@ && lookup(self@, name@)
                    == Some(self@[i as int].entry) && self@[i as int] == self.mappings[i as int]@,
                None => lookup(self@, name@) is None,
            },
    {
        let mut i: usize = 0;
        assert(self@.skip(0) =~= self@);
        while i < self.mappings.len()
            invariant
                0 <= i <= self.mappings.len(),
                self@.len() == self.mappings.len(),
                lookup(self@, name@) == lookup(self@.skip(i as int), name@),
            decreases self.mappings.len() - i,
        {
            proof {
                assert(self@.skip(i as int)[0] == self@[i as int]);
                assert(self@.skip(i as int).skip(1) =~= self@.skip(i + 1));
            }
            if self.mappings[i].name == *name {
                return Some(i);
            }
            i += 1;
        }
        None
    }

    /// Whether some name occurs twice.
    fn has_duplicates(&self) -> (r: bool)
        ensures
            r == !self.wf(),
    {
        let mut i: usize = 0;
        while i < self.mappings.len()
            invariant
                0 <= i <= self.mappings.len(),
                self@.len() == self.mappings.len(),
                forall|a: int, b: int|
                    0 <= a < i && 0 <= b < a ==> (#[trigger] self@[a]).name != (
                    #[trigger] self@[b]).name,
            decreases self.mappings.len() - i,
        {
            let mut j: usize = 0;
            while j < i
                invariant
                    0 <= j <= i < self.mappings.len(),
                    self@.len() == self.mappings.len(),
                    forall|b: int| 0 <= b < j ==> self@[i as int].name != (#[trigger] self@[b]).name,
                decreases i - j,
            {
                if self.mappings[i].name == self.mappings[j].name {
                    assert(self@[i as int].name == self@[j as int].name);
                    return true;
                }
                j += 1;
            }
            i += 1;
        }
        proof {
            assert forall|a: int, b: int|
                0 <= a < self@.len() && 0 <= b < self@.len() && a != b implies (
            #[trigger] self@[a]).name != (#[trigger] self@[b]).name by {
                if b < a {
                } else {
                    assert(self@[b].name != self@[a].name);
                }
            }
        }
        false
    }

    /// The directory whose stored form is `buf`, or `None` if `buf` is the
    /// stored form of no well-formed directory. Reading back what
    /// [`to_vec`](Directory::to_vec) wrote for a directory yields that
    /// directory.
    pub fn from_vec(buf: Vec<u8>) -> (r: Option<Directory>)
        ensures
            match r {
                Some(d) => d.wf() && dir_bytes(d@) == buf@,
                None => forall|d: Directory| #[trigger] d.wf() ==> dir_bytes(d@) != buf@,
            },
            forall|d: Directory| #[trigger]
                d.wf() && dir_bytes(d@) == buf@ ==> r is Some && r->Some_0@ == d@,
    {
        proof {
            assert forall|a: Directory, b: Directory| dir_bytes(a@) == buf@ && dir_bytes(b@) == buf@
                implies a@ == b@ by {
                lemma_dir_bytes_injective(a@, b@);
            }
        }
        match decode::<Directory>(buf.as_slice()) {
            None => {
                assert forall|d: Directory| #[trigger] d.wf() implies dir_bytes(d@) != buf@ by {
                    assert(message_bytes(&d) == dir_bytes(d@));
                }
                None
            },
            Some(d) => {
                if d.has_duplicates() {
                    assert forall|other: Directory| #[trigger] other.wf() implies dir_bytes(other@)
                        != buf@ by {
                        if dir_bytes(other@) == buf@ {
                            lemma_dir_bytes_injective(other@, d@);
                        }
                    }
                    None
                } else {
                    Some(d)
                }
            },
        }
    }

    /// The stored form of this directory.
    pub fn to_vec(&self) -> (r: Vec<u8>)
        ensures
            r@ == dir_bytes(self@),
    {
        encode_to_vec(self)
    }

    /// The entry under `name`, or `BadPath` if the directory has no such
    /// name.
    pub fn get(&self, name: &str) -> (r: Result<&LabeledDirEntry, Error>)
        ensures
            match r {
                Ok(e) => lookup(self@, name@) == Some(e@),
                Err(e) => e == Error::BadPath && lookup(self@, name@) is None,
            },
    {
        let owned = name.to_owned();
        match self.find(&owned) {
            Some(i) => Ok(&self.mappings[i].entry),
            None => Err(Error::BadPath),
        }
    }

    /// Adds an entry under `name` for an object of kind `entry_type` with
    /// the label `label` and the id `uid`. Fails with `BadTargetLabel`
    /// unless `cur_label` can flow to `label`, and else with `BadPath` if
    /// the name is taken. A failed call leaves the directory unchanged.
    pub fn create(
        &mut self,
        name: &str,
        cur_label: &DCLabel,
        entry_type: DirEntry,
        label: DCLabel,
        uid: u64,
    ) -> (r: Result<(), Error>)
        requires
            old(self).wf(),
        ensures
            final(self).wf(),
            match r {
                Ok(_) => cur_label@.can_flow_to(label@) && lookup(old(self)@, name@) is None
                    && final(self)@ == old(self)@.push(
                    NamedEntryView {
                        name: name@,
                        entry: EntryView { label: label@, entry_type, uid },
                    },
                ),
                Err(e) => final(self)@ == old(self)@ && if !cur_label@.can_flow_to(label@) {
                    e == Error::BadTargetLabel
                } else {
                    e == Error::BadPath && lookup(old(self)@, name@) is Some
                },
            },
    {
        if !cur_label.can_flow_to(&label) {
            return Err(Error::BadTargetLabel);
        }
        let owned = name.to_owned();
        if self.find(&owned).is_some() {
            return Err(Error::BadPath);
        }
        let ghost before = self@;
        let named = NamedEntry { name: owned, entry: LabeledDirEntry { label, entry_type, uid } };
        let ghost added = named@;
        self.mappings.push(named);
        proof {
            assert(self@ =~= before.push(added));
            lemma_lookup(before, name@);
            assert forall|i: int, j: int|
                0 <= i < self@.len() && 0 <= j < self@.len() && i != j implies (
            #[trigger] self@[i]).name != (#[trigger] self@[j]).name by {
                if i < before.len() {
                    assert(self@[i] == before[i]);
                }
                if j < before.len() {
                    assert(self@[j] == before[j]);
                }
            }
        }
        Ok(())
    }

    /// The names of this directory, in the order in which they were
    /// created.
    pub fn list(&self) -> (r: Vec<String>)
        ensures
            r.deep_view() == names(self@),
    {
        let mut out: Vec<String> = Vec::new();
        let mut i: usize = 0;
        while i < self.mappings.len()
            invariant
                0 <= i <= self.mappings.len(),
                out.len() == i,
                forall|k: int| 0 <= k < i ==> out[k]@ == self.mappings[k].name@,
            decreases self.mappings.len() - i,
        {
            out.push(self.mappings[i].name.clone());
            i += 1;
        }
        assert(out.deep_view() =~= names(self@));
        out
    }
}

} // verus!
