//! The messages that a storage client and a storage server exchange.
//!
//! A client sends one [`Syscall`] and the server answers with the response
//! of the same kind. On the wire every message travels behind its length,
//! see [`frame`].

use crate::dclabel::{Clause, ComponentView, LabelView};
use crate::encoding::{
    append_bytes, u32_be_bytes, u32_from_be_bytes, u32_to_be_bytes, FieldValue, ValueView,
};
use crate::record::{
    decode, encode_to_vec, get_implicit_bool, get_implicit_bytes, get_optional_bytes,
    get_optional_u32, get_repeated_bytes, implicit_bool, implicit_bytes, items_view,
    lemma_slots_bytes_injective, message_bytes, option_view, optional_bytes, optional_u32,
    put_implicit_bool, put_implicit_bytes, put_optional_bytes, put_optional_u32,
    put_repeated_bytes, repeated_bytes, slots_bytes, slots_view, string_bytes, string_of_bytes,
    values_view, Message,
};
use vstd::prelude::*;

verus! {

/// Asks for the value stored at a key.
#[derive(Debug, Clone, PartialEq, Eq)]
pub struct ReadKey {
    pub key: Vec<u8>,
}

/// The value stored at a key, or `None` if the key is absent.
#[derive(Debug, Clone, PartialEq, Eq)]
pub struct ReadKeyResponse {
    pub value: Option<Vec<u8>>,
}

/// Stores a value at a key. With the no-overwrite bit in `flags` the value
/// is stored only if the key is absent.
#[derive(Debug, Clone, PartialEq, Eq)]
pub struct WriteKey {
    pub key: Vec<u8>,
    pub value: Vec<u8>,
    pub flags: Option<u32>,
}

/// Whether a write took place.
#[derive(Debug, Clone, PartialEq, Eq)]
pub struct WriteKeyResponse {
    pub success: bool,
}

/// Asks for the names directly under a directory-shaped key prefix.
#[derive(Debug, Clone, PartialEq, Eq)]
pub struct ReadDir {
    pub dir: Vec<u8>,
}

/// The names directly under a prefix.
#[derive(Debug, Clone, PartialEq, Eq)]
pub struct ReadDirResponse {
    pub keys: Vec<Vec<u8>>,
}

/// Stores `value` at `key` if what is stored there equals `expected`, where
/// `None` stands for an absent key.
#[derive(Debug, Clone, PartialEq, Eq)]
pub struct CompareAndSwap {
    pub key: Vec<u8>,
    pub expected: Option<Vec<u8>>,
    pub value: Vec<u8>,
}

/// Whether a compare-and-swap took place, and what was stored before it.
#[derive(Debug, Clone, PartialEq, Eq)]
pub struct CompareAndSwapResponse {
    pub success: bool,
    pub old: Option<Vec<u8>>,
}

/// Calls a function of the server. Only `ping` is known.
#[derive(Debug, Clone, PartialEq, Eq)]
pub struct Invoke {
    pub function: String,
    pub payload: String,
}

/// Whether an invocation succeeded.
#[derive(Debug, Clone, PartialEq, Eq)]
pub struct InvokeResponse {
    pub success: bool,
}

/// A request to the storage server.
#[derive(Debug, Clone, PartialEq, Eq)]
pub enum Syscall {
    ReadKey(ReadKey),
    WriteKey(WriteKey),
    CompareAndSwap(CompareAndSwap),
    ReadDir(ReadDir),
    Invoke(Invoke),
}

impl Message for ReadKey {
    open spec fn slots(&self) -> Seq<Seq<ValueView>> {
        seq![implicit_bytes(self.key@)]
    }

    open spec fn count() -> nat {
        1
    }

    proof fn lemma_slots(&self) {
    }

    fn slot_count() -> (n: u8) {
        1
    }

    fn to_slots(&self) -> (r: Vec<Vec<FieldValue>>) {
        let mut r: Vec<Vec<FieldValue>> = Vec::new();
        r.push(put_implicit_bytes(&self.key));
        assert(slots_view(r@) =~= self.slots());
        r
    }

    fn from_slots(slots: &Vec<Vec<FieldValue>>) -> (r: Option<Self>) {
        let ghost sv = slots_view(slots@);
        match get_implicit_bytes(&slots[0]) {
            Some(key) => {
                let m = ReadKey { key };
                assert(m.slots() =~= sv);
                Some(m)
            },
            None => {
                assert forall|m: Self| #[trigger] m.slots() != sv by {
                    if m.slots() == sv {
                        assert(m.slots()[0] == sv[0]);
                    }
                }
                None
            },
        }
    }
}

impl Message for ReadDir {
    open spec fn slots(&self) -> Seq<Seq<ValueView>> {
        seq![implicit_bytes(self.dir@)]
    }

    open spec fn count() -> nat {
        1
    }

    proof fn lemma_slots(&self) {
    }

    fn slot_count() -> (n: u8) {
        1
    }

    fn to_slots(&self) -> (r: Vec<Vec<FieldValue>>) {
        let mut r: Vec<Vec<FieldValue>> = Vec::new();
        r.push(put_implicit_bytes(&self.dir));
        assert(slots_view(r@) =~= self.slots());
        r
    }

    fn from_slots(slots: &Vec<Vec<FieldValue>>) -> (r: Option<Self>) {
        let ghost sv = slots_view(slots@);
        match get_implicit_bytes(&slots[0]) {
            Some(dir) => {
                let m = ReadDir { dir };
                assert(m.slots() =~= sv);
                Some(m)
            },
            None => {
                assert forall|m: Self| #[trigger] m.slots() != sv by {
                    if m.slots() == sv {
                        assert(m.slots()[0] == sv[0]);
                    }
                }
                None
            },
        }
    }
}

impl Message for ReadKeyResponse {
    open spec fn slots(&self) -> Seq<Seq<ValueView>> {
        seq![optional_bytes(option_view(self.value))]
    }

    open spec fn count() -> nat {
        1
    }

    proof fn lemma_slots(&self) {
    }

    fn slot_count() -> (n: u8) {
        1
    }

    fn to_slots(&self) -> (r: Vec<Vec<FieldValue>>) {
        let mut r: Vec<Vec<FieldValue>> = Vec::new();
        r.push(put_optional_bytes(&self.value));
        assert(slots_view(r@) =~= self.slots());
        r
    }

    fn from_slots(slots: &Vec<Vec<FieldValue>>) -> (r: Option<Self>) {
        let ghost sv = slots_view(slots@);
        match get_optional_bytes(&slots[0]) {
            Some(value) => {
                let m = ReadKeyResponse { value };
                assert(m.slots() =~= sv);
                Some(m)
            },
            None => {
                assert forall|m: Self| #[trigger] m.slots() != sv by {
                    if m.slots() == sv {
                        assert(m.slots()[0] == sv[0]);
                    }
                }
                None
            },
        }
    }
}

impl Message for WriteKeyResponse {
    open spec fn slots(&self) -> Seq<Seq<ValueView>> {
        seq![implicit_bool(self.success)]
    }

    open spec fn count() -> nat {
        1
    }

    proof fn lemma_slots(&self) {
    }

    fn slot_count() -> (n: u8) {
        1
    }

    fn to_slots(&self) -> (r: Vec<Vec<FieldValue>>) {
        let mut r: Vec<Vec<FieldValue>> = Vec::new();
        r.push(put_implicit_bool(self.success));
        assert(slots_view(r@) =~= self.slots());
        r
    }

    fn from_slots(slots: &Vec<Vec<FieldValue>>) -> (r: Option<Self>) {
        let ghost sv = slots_view(slots@);
        match get_implicit_bool(&slots[0]) {
            Some(success) => {
                let m = WriteKeyResponse { success };
                assert(m.slots() =~= sv);
                Some(m)
            },
            None => {
                assert forall|m: Self| #[trigger] m.slots() != sv by {
                    if m.slots() == sv {
                        assert(m.slots()[0] == sv[0]);
                    }
                }
                None
            },
        }
    }
}

impl Message for InvokeResponse {
    open spec fn slots(&self) -> Seq<Seq<ValueView>> {
        seq![implicit_bool(self.success)]
    }

    open spec fn count() -> nat {
        1
    }

    proof fn lemma_slots(&self) {
    }

    fn slot_count() -> (n: u8) {
        1
    }

    fn to_slots(&self) -> (r: Vec<Vec<FieldValue>>) {
        let mut r: Vec<Vec<FieldValue>> = Vec::new();
        r.push(put_implicit_bool(self.success));
        assert(slots_view(r@) =~= self.slots());
        r
    }

    fn from_slots(slots: &Vec<Vec<FieldValue>>) -> (r: Option<Self>) {
        let ghost sv = slots_view(slots@);
        match get_implicit_bool(&slots[0]) {
            Some(success) => {
                let m = InvokeResponse { success };
                assert(m.slots() =~= sv);
                Some(m)
            },
            None => {
                assert forall|m: Self| #[trigger] m.slots() != sv by {
                    if m.slots() == sv {
                        assert(m.slots()[0] == sv[0]);
                    }
                }
                None
            },
        }
    }
}

impl Message for ReadDirResponse {
    open spec fn slots(&self) -> Seq<Seq<ValueView>> {
        seq![repeated_bytes(items_view(self.keys@))]
    }

    open spec fn count() -> nat {
        1
    }

    proof fn lemma_slots(&self) {
    }

    fn slot_count() -> (n: u8) {
        1
    }

    fn to_slots(&self) -> (r: Vec<Vec<FieldValue>>) {
        let mut r: Vec<Vec<FieldValue>> = Vec::new();
        r.push(put_repeated_bytes(&self.keys));
        assert(slots_view(r@) =~= self.slots());
        r
    }

    fn from_slots(slots: &Vec<Vec<FieldValue>>) -> (r: Option<Self>) {
        let ghost sv = slots_view(slots@);
        match get_repeated_bytes(&slots[0]) {
            Some(keys) => {
                let m = ReadDirResponse { keys };
                assert(m.slots() =~= sv);
                Some(m)
            },
            None => {
                assert forall|m: Self| #[trigger] m.slots() != sv by {
                    if m.slots() == sv {
                        assert(m.slots()[0] == sv[0]);
                    }
                }
                None
            },
        }
    }
}

impl Message for WriteKey {
    open spec fn slots(&self) -> Seq<Seq<ValueView>> {
        seq![implicit_bytes(self.key@), implicit_bytes(self.value@), optional_u32(self.flags)]
    }

    open spec fn count() -> nat {
        3
    }

    proof fn lemma_slots(&self) {
    }

    fn slot_count() -> (n: u8) {
        3
    }

    fn to_slots(&self) -> (r: Vec<Vec<FieldValue>>) {
        let mut r: Vec<Vec<FieldValue>> = Vec::new();
        r.push(put_implicit_bytes(&self.key));
        r.push(put_implicit_bytes(&self.value));
        r.push(put_optional_u32(self.flags));
        assert(slots_view(r@) =~= self.slots());
        r
    }

    fn from_slots(slots: &Vec<Vec<FieldValue>>) -> (r: Option<Self>) {
        let ghost sv = slots_view(slots@);
        let key = get_implicit_bytes(&slots[0]);
        let value = get_implicit_bytes(&slots[1]);
        let flags = get_optional_u32(&slots[2]);
        match (key, value, flags) {
            (Some(key), Some(value), Some(flags)) => {
                let m = WriteKey { key, value, flags };
                assert(m.slots() =~= sv);
                Some(m)
            },
            _ => {
                assert forall|m: Self| #[trigger] m.slots() != sv by {
                    if m.slots() == sv {
                        assert(m.slots()[0] == sv[0]);
                        assert(m.slots()[1] == sv[1]);
                        assert(m.slots()[2] == sv[2]);
                    }
                }
                None
            },
        }
    }
}

impl Message for CompareAndSwap {
    open spec fn slots(&self) -> Seq<Seq<ValueView>> {
        seq![
            implicit_bytes(self.key@),
            optional_bytes(option_view(self.expected)),
            implicit_bytes(self.value@),
        ]
    }

    open spec fn count() -> nat {
        3
    }

    proof fn lemma_slots(&self) {
    }

    fn slot_count() -> (n: u8) {
        3
    }

    fn to_slots(&self) -> (r: Vec<Vec<FieldValue>>) {
        let mut r: Vec<Vec<FieldValue>> = Vec::new();
        r.push(put_implicit_bytes(&self.key));
        r.push(put_optional_bytes(&self.expected));
        r.push(put_implicit_bytes(&self.value));
        assert(slots_view(r@) =~= self.slots());
        r
    }

    fn from_slots(slots: &Vec<Vec<FieldValue>>) -> (r: Option<Self>) {
        let ghost sv = slots_view(slots@);
        let key = get_implicit_bytes(&slots[0]);
        let expected = get_optional_bytes(&slots[1]);
        let value = get_implicit_bytes(&slots[2]);
        match (key, expected, value) {
            (Some(key), Some(expected), Some(value)) => {
                let m = CompareAndSwap { key, expected, value };
                assert(m.slots() =~= sv);
                Some(m)
            },
            _ => {
                assert forall|m: Self| #[trigger] m.slots() != sv by {
                    if m.slots() == sv {
                        assert(m.slots()[0] == sv[0]);
                        assert(m.slots()[1] == sv[1]);
                        assert(m.slots()[2] == sv[2]);
                    }
                }
                None
            },
        }
    }
}

impl Message for CompareAndSwapResponse {
    open spec fn slots(&self) -> Seq<Seq<ValueView>> {
        seq![implicit_bool(self.success), optional_bytes(option_view(self.old))]
    }

    open spec fn count() -> nat {
        2
    }

    proof fn lemma_slots(&self) {
    }

    fn slot_count() -> (n: u8) {
        2
    }

    fn to_slots(&self) -> (r: Vec<Vec<FieldValue>>) {
        let mut r: Vec<Vec<FieldValue>> = Vec::new();
        r.push(put_implicit_bool(self.success));
        r.push(put_optional_bytes(&self.old));
        assert(slots_view(r@) =~= self.slots());
        r
    }

    fn from_slots(slots: &Vec<Vec<FieldValue>>) -> (r: Option<Self>) {
        let ghost sv = slots_view(slots@);
        let success = get_implicit_bool(&slots[0]);
        let old = get_optional_bytes(&slots[1]);
        match (success, old) {
            (Some(success), Some(old)) => {
                let m = CompareAndSwapResponse { success, old };
                assert(m.slots() =~= sv);
                Some(m)
            },
            _ => {
                assert forall|m: Self| #[trigger] m.slots() != sv by {
                    if m.slots() == sv {
                        assert(m.slots()[0] == sv[0]);
                        assert(m.slots()[1] == sv[1]);
                    }
                }
                None
            },
        }
    }
}

impl Message for Invoke {
    open spec fn slots(&self) -> Seq<Seq<ValueView>> {
        seq![
            implicit_bytes(vstd::utf8::encode_utf8(self.function@)),
            implicit_bytes(vstd::utf8::encode_utf8(self.payload@)),
        ]
    }

    open spec fn count() -> nat {
        2
    }

    proof fn lemma_slots(&self) {
    }

    fn slot_count() -> (n: u8) {
        2
    }

    fn to_slots(&self) -> (r: Vec<Vec<FieldValue>>) {
        let mut r: Vec<Vec<FieldValue>> = Vec::new();
        let function = string_bytes(&self.function);
        let payload = string_bytes(&self.payload);
        r.push(put_implicit_bytes(&function));
        r.push(put_implicit_bytes(&payload));
        assert(slots_view(r@) =~= self.slots());
        r
    }

    fn from_slots(slots: &Vec<Vec<FieldValue>>) -> (r: Option<Self>) {
        let ghost sv = slots_view(slots@);
        let function = match get_implicit_bytes(&slots[0]) {
            Some(b) => {
                let ghost raw = b@;
                let parsed = string_of_bytes(b);
                proof {
                    if parsed is None {
                        assert forall|m: Self| #[trigger] m.slots() != sv by {
                            if m.slots() == sv {
                                let e = vstd::utf8::encode_utf8(m.function@);
                                assert(m.slots()[0] == sv[0]);
                                lemma_implicit_bytes_injective(e, raw);
                            }
                        }
                    }
                }
                parsed
            },
            None => {
                assert forall|m: Self| #[trigger] m.slots() != sv by {
                    if m.slots() == sv {
                        assert(m.slots()[0] == sv[0]);
                    }
                }
                None
            },
        };
        let payload = match get_implicit_bytes(&slots[1]) {
            Some(b) => {
                let ghost raw = b@;
                let parsed = string_of_bytes(b);
                proof {
                    if parsed is None {
                        assert forall|m: Self| #[trigger] m.slots() != sv by {
                            if m.slots() == sv {
                                let e = vstd::utf8::encode_utf8(m.payload@);
                                assert(m.slots()[1] == sv[1]);
                                lemma_implicit_bytes_injective(e, raw);
                            }
                        }
                    }
                }
                parsed
            },
            None => {
                assert forall|m: Self| #[trigger] m.slots() != sv by {
                    if m.slots() == sv {
                        assert(m.slots()[1] == sv[1]);
                    }
                }
                None
            },
        };
        match (function, payload) {
            (Some(function), Some(payload)) => {
                let m = Invoke { function, payload };
                assert(m.slots() =~= sv);
                Some(m)
            },
            _ => None,
        }
    }
}

/// The slots of a request: the bytes of the inner message in the slot of
/// its kind, and nothing in the others.
pub open spec fn one_of_five(kind: int, inner: Seq<u8>) -> Seq<Seq<ValueView>> {
    Seq::new(
        5,
        |i: int|
            if i == kind {
                optional_bytes(Some(inner))
            } else {
                optional_bytes(None)
            },
    )
}

impl Message for Syscall {
    open spec fn slots(&self) -> Seq<Seq<ValueView>> {
        match self {
            Syscall::ReadKey(m) => one_of_five(0, message_bytes(m)),
            Syscall::WriteKey(m) => one_of_five(1, message_bytes(m)),
            Syscall::CompareAndSwap(m) => one_of_five(2, message_bytes(m)),
            Syscall::ReadDir(m) => one_of_five(3, message_bytes(m)),
            Syscall::Invoke(m) => one_of_five(4, message_bytes(m)),
        }
    }

    open spec fn count() -> nat {
        5
    }

    proof fn lemma_slots(&self) {
    }

    fn slot_count() -> (n: u8) {
        5
    }

    fn to_slots(&self) -> (r: Vec<Vec<FieldValue>>) {
        let (kind, inner): (usize, Vec<u8>) = match self {
            Syscall::ReadKey(m) => (0, encode_to_vec(m)),
            Syscall::WriteKey(m) => (1, encode_to_vec(m)),
            Syscall::CompareAndSwap(m) => (2, encode_to_vec(m)),
            Syscall::ReadDir(m) => (3, encode_to_vec(m)),
            Syscall::Invoke(m) => (4, encode_to_vec(m)),
        };
        let mut r: Vec<Vec<FieldValue>> = Vec::new();
        let present = Some(inner);
        let absent: Option<Vec<u8>> = None;
        let mut i: usize = 0;
        while i < 5
            invariant
                0 <= i <= 5,
                r.len() == i,
                kind < 5,
                present == Some(inner),
                absent == None::<Vec<u8>>,
                forall|k: int| 0 <= k < i ==> values_view(r[k]@) == one_of_five(kind as int, inner@)[k],
            decreases 5 - i,
        {
            if i == kind {
                r.push(put_optional_bytes(&present));
            } else {
                r.push(put_optional_bytes(&absent));
            }
            i += 1;
        }
        assert(slots_view(r@) =~= self.slots());
        r
    }

    fn from_slots(slots: &Vec<Vec<FieldValue>>) -> (r: Option<Self>) {
        let ghost sv = slots_view(slots@);
        let mut found: Option<(usize, Vec<u8>)> = None;
        let mut i: usize = 0;
        proof {
            assert forall|m: Self| #[trigger] m.slots() == sv implies forall|k: int|
                0 <= k < 5 ==> m.slots()[k] == values_view(#[trigger] slots[k]@) by {
                assert forall|k: int| 0 <= k < 5 implies m.slots()[k] == values_view(
                    #[trigger] slots[k]@,
                ) by {
                    assert(sv[k] == values_view(slots[k]@));
                }
            }
        }
        while i < 5
            invariant
                0 <= i <= 5,
                slots.len() == 5,
                sv == slots_view(slots@),
                match found {
                    Some((kind, inner)) => kind < i && values_view(slots[kind as int]@)
                        == optional_bytes(Some(inner@)) && forall|k: int|
                        0 <= k < i && k != kind ==> values_view(#[trigger] slots[k]@)
                            == optional_bytes(None),
                    None => forall|k: int|
                        0 <= k < i ==> values_view(#[trigger] slots[k]@) == optional_bytes(None),
                },
                forall|m: Self| #[trigger]
                    m.slots() == sv ==> forall|k: int|
                        0 <= k < 5 ==> m.slots()[k] == values_view(#[trigger] slots[k]@),
            decreases 5 - i,
        {
            match get_optional_bytes(&slots[i]) {
                None => {
                    assert forall|m: Self| #[trigger] m.slots() != sv by {
                        if m.slots() == sv {
                            assert(m.slots()[i as int] == values_view(slots[i as int]@));
                        }
                    }
                    return None;
                },
                Some(None) => {},
                Some(Some(inner)) => {
                    if found.is_some() {
                        assert forall|m: Self| #[trigger] m.slots() != sv by {
                            if m.slots() == sv {
                                let prev = found.unwrap();
                                let kind = prev.0 as int;
                                assert(m.slots()[i as int] == values_view(slots[i as int]@));
                                assert(m.slots()[kind] == values_view(slots[kind]@));
                                assert(optional_bytes(Some(inner@)).len() == 1);
                                assert(optional_bytes(Some(prev.1@)).len() == 1);
                            }
                        }
                        return None;
                    }
                    found = Some((i, inner));
                },
            }
            i += 1;
        }
        let (kind, inner) = match found {
            Some(found) => found,
            None => {
                assert forall|m: Self| #[trigger] m.slots() != sv by {
                    if m.slots() == sv {
                        assert(forall|k: int| 0 <= k < 5 ==> m.slots()[k] == values_view(#[trigger] slots[k]@));
                        assert(m.slots()[0] == values_view(slots[0]@));
                        assert(m.slots()[1] == values_view(slots[1]@));
                        assert(m.slots()[2] == values_view(slots[2]@));
                        assert(m.slots()[3] == values_view(slots[3]@));
                        assert(m.slots()[4] == values_view(slots[4]@));
                        assert(optional_bytes(None).len() == 0);
                    }
                }
                return None;
            },
        };
        proof {
            assert(sv =~= one_of_five(kind as int, inner@));
            assert forall|m: Self| #[trigger] m.slots() == sv implies m.slots() == one_of_five(
                kind as int,
                inner@,
            ) by {}
        }
        let r = if kind == 0 {
            match decode::<ReadKey>(inner.as_slice()) {
                Some(m) => Some(Syscall::ReadKey(m)),
                None => None,
            }
        } else if kind == 1 {
            match decode::<WriteKey>(inner.as_slice()) {
                Some(m) => Some(Syscall::WriteKey(m)),
                None => None,
            }
        } else if kind == 2 {
            match decode::<CompareAndSwap>(inner.as_slice()) {
                Some(m) => Some(Syscall::CompareAndSwap(m)),
                None => None,
            }
        } else if kind == 3 {
            match decode::<ReadDir>(inner.as_slice()) {
                Some(m) => Some(Syscall::ReadDir(m)),
                None => None,
            }
        } else {
            match decode::<Invoke>(inner.as_slice()) {
                Some(m) => Some(Syscall::Invoke(m)),
                None => None,
            }
        };
        proof {
            if r is None {
                assert forall|m: Self| #[trigger] m.slots() != sv by {
                    if m.slots() == sv {
                        lemma_one_of_five_injective(m.kind(), m.inner(), kind as int, inner@);
                    }
                }
            }
        }
        r
    }
}

impl Syscall {
    /// The slot that holds the inner message, counted from 0.
    pub open spec fn kind(&self) -> int {
        match self {
            Syscall::ReadKey(_) => 0,
            Syscall::WriteKey(_) => 1,
            Syscall::CompareAndSwap(_) => 2,
            Syscall::ReadDir(_) => 3,
            Syscall::Invoke(_) => 4,
        }
    }

    /// The bytes of the inner message.
    pub open spec fn inner(&self) -> Seq<u8> {
        match self {
            Syscall::ReadKey(m) => message_bytes(m),
            Syscall::WriteKey(m) => message_bytes(m),
            Syscall::CompareAndSwap(m) => message_bytes(m),
            Syscall::ReadDir(m) => message_bytes(m),
            Syscall::Invoke(m) => message_bytes(m),
        }
    }
}

/// Two requests with the same slots have the same kind and inner bytes.
pub proof fn lemma_one_of_five_injective(a: int, x: Seq<u8>, b: int, y: Seq<u8>)
    requires
        0 <= a < 5,
        0 <= b < 5,
        one_of_five(a, x) == one_of_five(b, y),
    ensures
        a == b,
        x == y,
{
    assert(one_of_five(a, x)[a] == one_of_five(b, y)[a]);
    assert(optional_bytes(Some(x)).len() == 1);
    assert(optional_bytes(None).len() == 0);
    assert(optional_bytes(Some(x))[0] == optional_bytes(Some(y))[0]);
}

/// Two runs of bytes with the same implicit slot are equal.
pub proof fn lemma_implicit_bytes_injective(a: Seq<u8>, b: Seq<u8>)
    requires
        implicit_bytes(a) == implicit_bytes(b),
    ensures
        a == b,
{
    if a.len() == 0 {
        assert(implicit_bytes(b).len() == 0);
        assert(a =~= b);
    } else {
        assert(implicit_bytes(a).len() == 1);
        assert(implicit_bytes(a)[0] == implicit_bytes(b)[0]);
    }
}

/// A conjunction of clauses, as it travels.
#[derive(Debug, Clone, PartialEq, Eq)]
pub struct Component {
    pub clauses: Vec<Clause>,
}

/// A label as it travels. An absent component is the constant false, one
/// without clauses is true.
#[derive(Debug, Clone, PartialEq, Eq)]
pub struct DcLabel {
    pub secrecy: Option<Component>,
    pub integrity: Option<Component>,
}

impl View for Component {
    type V = Seq<Seq<Seq<char>>>;

    open spec fn view(&self) -> Seq<Seq<Seq<char>>> {
        Seq::new(self.clauses.len() as nat, |i: int| self.clauses[i]@)
    }
}

/// The value of a component that may be absent.
pub open spec fn component_view(c: Option<Component>) -> ComponentView {
    match c {
        None => ComponentView::False,
        Some(c) => ComponentView::Formula(c@),
    }
}

impl View for DcLabel {
    type V = LabelView;

    open spec fn view(&self) -> LabelView {
        LabelView {
            secrecy: component_view(self.secrecy),
            integrity: component_view(self.integrity),
        }
    }
}

/// The UTF-8 bytes of each of the given strings.
pub open spec fn strings_bytes(v: Seq<Seq<char>>) -> Seq<Seq<u8>> {
    Seq::new(v.len(), |k: int| vstd::utf8::encode_utf8(v[k]))
}

/// The slots of a clause: one, with the UTF-8 bytes of each principal.
pub open spec fn clause_slots(c: Seq<Seq<char>>) -> Seq<Seq<ValueView>> {
    seq![repeated_bytes(strings_bytes(c))]
}

/// The bytes of a clause.
pub open spec fn clause_bytes(c: Seq<Seq<char>>) -> Seq<u8> {
    slots_bytes(clause_slots(c))
}

/// The bytes of each of the given clauses.
pub open spec fn clauses_bytes(cs: Seq<Seq<Seq<char>>>) -> Seq<Seq<u8>> {
    Seq::new(cs.len(), |k: int| clause_bytes(cs[k]))
}

/// The slots of a conjunction of clauses: one, with the bytes of each
/// clause.
pub open spec fn formula_slots(cs: Seq<Seq<Seq<char>>>) -> Seq<Seq<ValueView>> {
    seq![repeated_bytes(clauses_bytes(cs))]
}

/// The bytes of a conjunction of clauses.
pub open spec fn formula_bytes(cs: Seq<Seq<Seq<char>>>) -> Seq<u8> {
    slots_bytes(formula_slots(cs))
}

/// The bytes of a component: none for false, else those of its clauses.
pub open spec fn component_bytes(c: ComponentView) -> Option<Seq<u8>> {
    match c {
        ComponentView::False => None,
        ComponentView::Formula(cs) => Some(formula_bytes(cs)),
    }
}

/// The slots of a label: the secrecy component, then the integrity
/// component.
pub open spec fn label_slots(l: LabelView) -> Seq<Seq<ValueView>> {
    seq![optional_bytes(component_bytes(l.secrecy)), optional_bytes(component_bytes(l.integrity))]
}

/// The bytes of a label.
pub open spec fn label_bytes(l: LabelView) -> Seq<u8> {
    slots_bytes(label_slots(l))
}

impl Message for Clause {
    open spec fn slots(&self) -> Seq<Seq<ValueView>> {
        clause_slots(self@)
    }

    open spec fn count() -> nat {
        1
    }

    proof fn lemma_slots(&self) {
    }

    fn slot_count() -> (n: u8) {
        1
    }

    fn to_slots(&self) -> (r: Vec<Vec<FieldValue>>) {
        let mut items: Vec<Vec<u8>> = Vec::new();
        let mut i: usize = 0;
        while i < self.principals.len()
            invariant
                0 <= i <= self.principals.len(),
                items.len() == i,
                forall|k: int| 0 <= k < i ==> items[k]@ == vstd::utf8::encode_utf8(self.principals[k]@),
            decreases self.principals.len() - i,
        {
            items.push(string_bytes(&self.principals[i]));
            i += 1;
        }
        assert(items_view(items@) =~= strings_bytes(self@));
        let mut r: Vec<Vec<FieldValue>> = Vec::new();
        r.push(put_repeated_bytes(&items));
        assert(slots_view(r@) =~= self.slots());
        r
    }

    fn from_slots(slots: &Vec<Vec<FieldValue>>) -> (r: Option<Self>) {
        let ghost sv = slots_view(slots@);
        let items = match get_repeated_bytes(&slots[0]) {
            Some(items) => items,
            None => {
                assert forall|m: Self| #[trigger] m.slots() != sv by {
                    if m.slots() == sv {
                        assert(m.slots()[0] == sv[0]);
                    }
                }
                return None;
            },
        };
        let mut principals: Vec<String> = Vec::new();
        let mut i: usize = 0;
        while i < items.len()
            invariant
                0 <= i <= items.len(),
                principals.len() == i,
                slots.len() == 1,
                sv == slots_view(slots@),
                sv[0] == repeated_bytes(items_view(items@)),
                forall|k: int|
                    0 <= k < i ==> vstd::utf8::encode_utf8(principals[k]@) == items[k]@,
            decreases items.len() - i,
        {
            match string_of_bytes(crate::encoding::copy_bytes(&items[i])) {
                Some(p) => {
                    principals.push(p);
                },
                None => {
                    assert forall|m: Self| #[trigger] m.slots() != sv by {
                        if m.slots() == sv {
                            let a = repeated_bytes(strings_bytes(m@));
                            let b = repeated_bytes(items_view(items@));
                            assert(m.slots()[0] == sv[0]);
                            assert(a.len() == b.len());
                            assert(a[i as int] == b[i as int]);
                            assert(strings_bytes(m@)[i as int] == items[i as int]@);
                        }
                    }
                    return None;
                },
            }
            i += 1;
        }
        let m = Clause { principals };
        proof {
            assert(strings_bytes(m@) =~= items_view(items@));
            assert(m.slots() =~= sv);
        }
        Some(m)
    }
}

impl Message for Component {
    open spec fn slots(&self) -> Seq<Seq<ValueView>> {
        formula_slots(self@)
    }

    open spec fn count() -> nat {
        1
    }

    proof fn lemma_slots(&self) {
    }

    fn slot_count() -> (n: u8) {
        1
    }

    fn to_slots(&self) -> (r: Vec<Vec<FieldValue>>) {
        let mut items: Vec<Vec<u8>> = Vec::new();
        let mut i: usize = 0;
        while i < self.clauses.len()
            invariant
                0 <= i <= self.clauses.len(),
                items.len() == i,
                forall|k: int| 0 <= k < i ==> items[k]@ == clause_bytes(self.clauses[k]@),
            decreases self.clauses.len() - i,
        {
            items.push(encode_to_vec(&self.clauses[i]));
            i += 1;
        }
        assert(items_view(items@) =~= clauses_bytes(self@));
        let mut r: Vec<Vec<FieldValue>> = Vec::new();
        r.push(put_repeated_bytes(&items));
        assert(slots_view(r@) =~= self.slots());
        r
    }

    fn from_slots(slots: &Vec<Vec<FieldValue>>) -> (r: Option<Self>) {
        let ghost sv = slots_view(slots@);
        let items = match get_repeated_bytes(&slots[0]) {
            Some(items) => items,
            None => {
                assert forall|m: Self| #[trigger] m.slots() != sv by {
                    if m.slots() == sv {
                        assert(m.slots()[0] == sv[0]);
                    }
                }
                return None;
            },
        };
        let mut clauses: Vec<Clause> = Vec::new();
        let mut i: usize = 0;
        while i < items.len()
            invariant
                0 <= i <= items.len(),
                clauses.len() == i,
                slots.len() == 1,
                sv == slots_view(slots@),
                sv[0] == repeated_bytes(items_view(items@)),
                forall|k: int| 0 <= k < i ==> clause_bytes(clauses[k]@) == items[k]@,
            decreases items.len() - i,
        {
            match decode::<Clause>(items[i].as_slice()) {
                Some(c) => {
                    clauses.push(c);
                },
                None => {
                    assert forall|m: Self| #[trigger] m.slots() != sv by {
                        if m.slots() == sv {
                            let a = repeated_bytes(clauses_bytes(m@));
                            let b = repeated_bytes(items_view(items@));
                            assert(m.slots()[0] == sv[0]);
                            assert(a.len() == b.len());
                            assert(a[i as int] == b[i as int]);
                            assert(message_bytes(&m.clauses[i as int]) == items[i as int]@);
                        }
                    }
                    return None;
                },
            }
            i += 1;
        }
        let m = Component { clauses };
        proof {
            assert(clauses_bytes(m@) =~= items_view(items@));
            assert(m.slots() =~= sv);
        }
        Some(m)
    }
}

/// Writes a component that may be absent.
fn put_component(c: &Option<Component>) -> (r: Vec<FieldValue>)
    ensures
        values_view(r@) == optional_bytes(component_bytes(component_view(*c))),
{
    let bytes: Option<Vec<u8>> = match c {
        None => None,
        Some(c) => Some(encode_to_vec(c)),
    };
    put_optional_bytes(&bytes)
}

/// Reads a component that may be absent. The outer `None` says that the
/// slot holds no such value.
fn get_component(slot: &Vec<FieldValue>) -> (r: Option<Option<Component>>)
    ensures
        match r {
            Some(c) => values_view(slot@) == optional_bytes(component_bytes(component_view(c))),
            None => forall|c: Option<Component>| #[trigger]
                optional_bytes(component_bytes(component_view(c))) != values_view(slot@),
        },
{
    match get_optional_bytes(slot) {
        None => None,
        Some(None) => Some(None),
        Some(Some(bytes)) => match decode::<Component>(bytes.as_slice()) {
            Some(c) => Some(Some(c)),
            None => {
                assert forall|c: Option<Component>| #[trigger]
                    optional_bytes(component_bytes(component_view(c))) != values_view(slot@) by {
                    let x = optional_bytes(component_bytes(component_view(c)));
                    if x == values_view(slot@) {
                        assert(x.len() == 1);
                        assert(x[0] == optional_bytes(Some(bytes@))[0]);
                        assert(message_bytes(&c.unwrap()) == bytes@);
                    }
                }
                None
            },
        },
    }
}

impl Message for DcLabel {
    open spec fn slots(&self) -> Seq<Seq<ValueView>> {
        label_slots(self@)
    }

    open spec fn count() -> nat {
        2
    }

    proof fn lemma_slots(&self) {
    }

    fn slot_count() -> (n: u8) {
        2
    }

    fn to_slots(&self) -> (r: Vec<Vec<FieldValue>>) {
        let mut r: Vec<Vec<FieldValue>> = Vec::new();
        r.push(put_component(&self.secrecy));
        r.push(put_component(&self.integrity));
        assert(slots_view(r@) =~= self.slots());
        r
    }

    fn from_slots(slots: &Vec<Vec<FieldValue>>) -> (r: Option<Self>) {
        let ghost sv = slots_view(slots@);
        let secrecy = get_component(&slots[0]);
        let integrity = get_component(&slots[1]);
        match (secrecy, integrity) {
            (Some(secrecy), Some(integrity)) => {
                let m = DcLabel { secrecy, integrity };
                assert(m.slots() =~= sv);
                Some(m)
            },
            _ => {
                assert forall|m: Self| #[trigger] m.slots() != sv by {
                    if m.slots() == sv {
                        assert(m.slots()[0] == sv[0]);
                        assert(m.slots()[1] == sv[1]);
                    }
                }
                None
            },
        }
    }
}

/// Clauses with the same bytes hold the same principals.
pub proof fn lemma_clause_bytes_injective(a: Seq<Seq<char>>, b: Seq<Seq<char>>)
    requires
        clause_bytes(a) == clause_bytes(b),
    ensures
        a == b,
{
    lemma_slots_bytes_injective(clause_slots(a), clause_slots(b));
    let x = repeated_bytes(strings_bytes(a));
    let y = repeated_bytes(strings_bytes(b));
    assert(clause_slots(a)[0] == clause_slots(b)[0]);
    assert(x.len() == y.len());
    assert forall|k: int| 0 <= k < a.len() implies a[k] == b[k] by {
        assert(x[k] == y[k]);
        assert(strings_bytes(a)[k] == strings_bytes(b)[k]);
        vstd::utf8::encode_utf8_decode_utf8(a[k]);
        vstd::utf8::encode_utf8_decode_utf8(b[k]);
    }
    assert(a =~= b);
}

/// Conjunctions of clauses with the same bytes hold the same clauses.
pub proof fn lemma_formula_bytes_injective(a: Seq<Seq<Seq<char>>>, b: Seq<Seq<Seq<char>>>)
    requires
        formula_bytes(a) == formula_bytes(b),
    ensures
        a == b,
{
    lemma_slots_bytes_injective(formula_slots(a), formula_slots(b));
    let x = repeated_bytes(clauses_bytes(a));
    let y = repeated_bytes(clauses_bytes(b));
    assert(formula_slots(a)[0] == formula_slots(b)[0]);
    assert(x.len() == y.len());
    assert forall|k: int| 0 <= k < a.len() implies a[k] == b[k] by {
        assert(x[k] == y[k]);
        assert(clauses_bytes(a)[k] == clauses_bytes(b)[k]);
        lemma_clause_bytes_injective(a[k], b[k]);
    }
    assert(a =~= b);
}

/// Labels with the same bytes are the same label.
pub proof fn lemma_label_bytes_injective(a: LabelView, b: LabelView)
    requires
        label_bytes(a) == label_bytes(b),
    ensures
        a == b,
{
    lemma_slots_bytes_injective(label_slots(a), label_slots(b));
    let x0 = optional_bytes(component_bytes(a.secrecy));
    let y0 = optional_bytes(component_bytes(b.secrecy));
    let x1 = optional_bytes(component_bytes(a.integrity));
    let y1 = optional_bytes(component_bytes(b.integrity));
    assert(label_slots(a)[0] == label_slots(b)[0]);
    assert(label_slots(a)[1] == label_slots(b)[1]);
    assert(x0.len() == y0.len());
    assert(x1.len() == y1.len());
    if let (ComponentView::Formula(c), ComponentView::Formula(d)) = (a.secrecy, b.secrecy) {
        assert(x0[0] == y0[0]);
        lemma_formula_bytes_injective(c, d);
    }
    if let (ComponentView::Formula(c), ComponentView::Formula(d)) = (a.integrity, b.integrity) {
        assert(x1[0] == y1[0]);
        lemma_formula_bytes_injective(c, d);
    }
}

/// Two requests with the same bytes are of the same kind, and if they are
/// writes they carry the same flags.
pub proof fn lemma_write_flags_determined(a: &Syscall, b: &Syscall)
    requires
        message_bytes(a) == message_bytes(b),
    ensures
        a.kind() == b.kind(),
        a.inner() == b.inner(),
        match (*a, *b) {
            (Syscall::WriteKey(x), Syscall::WriteKey(y)) => x.flags == y.flags,
            _ => true,
        },
{
    crate::record::lemma_message_bytes_injective(a, b);
    lemma_one_of_five_injective(a.kind(), a.inner(), b.kind(), b.inner());
    if let (Syscall::WriteKey(x), Syscall::WriteKey(y)) = (*a, *b) {
        crate::record::lemma_message_bytes_injective(&x, &y);
        let s = optional_u32(x.flags);
        let t = optional_u32(y.flags);
        assert(x.slots()[2] == y.slots()[2]);
        assert(s.len() == t.len());
        if s.len() > 0 {
            assert(s[0] == t[0]);
        }
    }
}

/// The number of bytes of a frame's length.
pub const FRAME_HEADER_LEN: usize = 4;

/// A message as it goes on the wire: the length of the payload as four
/// big-endian bytes, then the payload.
pub open spec fn frame_bytes(payload: Seq<u8>) -> Seq<u8>
    recommends
        payload.len() <= u32::MAX,
{
    u32_be_bytes(payload.len() as u32) + payload
}

/// The frame of `payload`, or `None` if its length does not fit in 32 bits.
pub fn frame(payload: &[u8]) -> (r: Option<Vec<u8>>)
    ensures
        match r {
            Some(bytes) => payload@.len() <= u32::MAX && bytes@ == frame_bytes(payload@),
            None => payload@.len() > u32::MAX,
        },
{
    if payload.len() > 0xffff_ffff {
        return None;
    }
    let mut bytes = u32_to_be_bytes(payload.len() as u32);
    append_bytes(&mut bytes, payload);
    Some(bytes)
}

/// The length of the payload that follows the four bytes `header`, or
/// `None` if `header` is not four bytes.
pub fn frame_len(header: &[u8]) -> (r: Option<u32>)
    ensures
        match r {
            Some(len) => header@ == u32_be_bytes(len),
            None => header@.len() != FRAME_HEADER_LEN,
        },
{
    u32_from_be_bytes(header)
}

/// The first `used` bytes of `buf` are the frame of `payload`.
pub open spec fn frame_at(buf: Seq<u8>, used: int, payload: Seq<u8>) -> bool {
    0 <= used <= buf.len() && payload.len() <= u32::MAX && buf.take(used) == frame_bytes(payload)
}

/// The payload of the frame with which `buf` starts, and the length of that
/// frame. `None` if `buf` does not yet hold a whole frame.
pub fn unframe(buf: &[u8]) -> (r: Option<(Vec<u8>, usize)>)
    ensures
        match r {
            Some((payload, used)) => frame_at(buf@, used as int, payload@),
            None => forall|payload: Seq<u8>, used: int| !#[trigger] frame_at(buf@, used, payload),
        },
{
    proof {
        assert forall|payload: Seq<u8>, used: int| #[trigger]
            frame_at(buf@, used, payload) implies used == 4 + payload.len() && buf@.take(4)
            == u32_be_bytes(payload.len() as u32) by {
            let h = u32_be_bytes(payload.len() as u32);
            crate::encoding::lemma_be_bytes_len(payload.len(), 4);
            assert(buf@.take(used).len() == h.len() + payload.len());
            assert(buf@.take(used).take(4) =~= h);
            assert(buf@.take(used).take(4) =~= buf@.take(4));
        }
    }
    if buf.len() < FRAME_HEADER_LEN {
        return None;
    }
    let header = vstd::slice::slice_subrange(buf, 0, FRAME_HEADER_LEN);
    let len = match frame_len(header) {
        Some(len) => len,
        None => {
            return None;
        },
    };
    proof {
        assert(header@ =~= buf@.take(4));
        assert forall|payload: Seq<u8>, used: int| #[trigger]
            frame_at(buf@, used, payload) implies payload.len() == len by {
            crate::encoding::lemma_u32_be_bytes_injective(payload.len() as u32, len);
        }
    }
    if len as usize > buf.len() - FRAME_HEADER_LEN {
        return None;
    }
    let used: usize = FRAME_HEADER_LEN + len as usize;
    let payload = vstd::slice::slice_to_vec(vstd::slice::slice_subrange(buf, FRAME_HEADER_LEN, used));
    proof {
        assert(buf@.take(used as int) =~= header@ + payload@);
    }
    Some((payload, used))
}

} // verus!
