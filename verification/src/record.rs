//! Messages as records: a message has a fixed number of slots, numbered
//! from 1, and each slot holds the values written under its number, in
//! order. A message's bytes are its fields, slot after slot.

use crate::encoding::{
    copy_bytes, decode_fields, decodes_to, encode_fields, field_wf, fields_bytes, fields_view,
    fields_wf, lemma_fields_bytes_injective, Field, FieldValue, FieldView, ValueView,
    MAX_FIELD_NUMBER,
};
use vstd::prelude::*;

verus! {

/// The fields of one slot: each of its values under the slot's number.
pub open spec fn slot_fields(number: int, values: Seq<ValueView>) -> Seq<FieldView> {
    Seq::new(values.len(), |k: int| FieldView { number: number as u8, value: values[k] })
}

/// The fields of a run of slots, of which the first has the number `first`.
pub open spec fn slots_fields(slots: Seq<Seq<ValueView>>, first: int) -> Seq<FieldView>
    decreases slots.len(),
{
    if slots.len() == 0 {
        Seq::empty()
    } else {
        slot_fields(first, slots[0]) + slots_fields(slots.skip(1), first + 1)
    }
}

/// The values of a vector of field values, in order.
pub open spec fn values_view(v: Seq<FieldValue>) -> Seq<ValueView> {
    Seq::new(v.len(), |k: int| v[k]@)
}

/// The values of a vector of slots, in order.
pub open spec fn slots_view(v: Seq<Vec<FieldValue>>) -> Seq<Seq<ValueView>> {
    Seq::new(v.len(), |i: int| values_view(v[i]@))
}

/// The bytes of a message with the given slots.
pub open spec fn slots_bytes(slots: Seq<Seq<ValueView>>) -> Seq<u8> {
    fields_bytes(slots_fields(slots, 1))
}

/// The fields of a run of slots carry the numbers of those slots.
pub proof fn lemma_slots_fields_numbers(slots: Seq<Seq<ValueView>>, first: int)
    requires
        1 <= first,
        first + slots.len() <= MAX_FIELD_NUMBER + 1,
    ensures
        forall|n: int|
            0 <= n < slots_fields(slots, first).len() ==> first <= (#[trigger] slots_fields(
                slots,
                first,
            )[n]).number < first + slots.len(),
        fields_wf(slots_fields(slots, first)),
    decreases slots.len(),
{
    if slots.len() > 0 {
        let head = slot_fields(first, slots[0]);
        let tail = slots_fields(slots.skip(1), first + 1);
        lemma_slots_fields_numbers(slots.skip(1), first + 1);
        assert forall|n: int| 0 <= n < (head + tail).len() implies first <= (#[trigger] (head
            + tail)[n]).number < first + slots.len() by {
            if n >= head.len() {
                assert((head + tail)[n] == tail[n - head.len()]);
            }
        }
    }
}

/// Where the fields `fs` are a slot of number `number` followed by fields
/// that do not start with that number, the slot ends where the run of that
/// number ends.
pub proof fn lemma_slot_split(
    fs: Seq<FieldView>,
    number: int,
    values: Seq<ValueView>,
    rest: Seq<FieldView>,
    end: int,
)
    requires
        0 <= number <= MAX_FIELD_NUMBER,
        fs == slot_fields(number, values) + rest,
        rest.len() > 0 ==> rest[0].number != number,
        0 <= end <= fs.len(),
        forall|k: int| 0 <= k < end ==> (#[trigger] fs[k]).number == number,
        end < fs.len() ==> fs[end].number != number,
    ensures
        values.len() == end,
        slot_fields(number, values) == fs.take(end),
        rest == fs.skip(end),
{
    let head = slot_fields(number, values);
    if head.len() < end {
        assert(fs[head.len() as int] == rest[0]);
    }
    if head.len() > end {
        assert(fs[end] == head[end]);
    }
    assert(head =~= fs.take(end));
    assert(rest =~= fs.skip(end));
}

/// Two runs of as many slots with the same fields are the same slots.
pub proof fn lemma_slots_fields_injective(
    a: Seq<Seq<ValueView>>,
    b: Seq<Seq<ValueView>>,
    first: int,
)
    requires
        1 <= first,
        a.len() == b.len(),
        first + a.len() <= MAX_FIELD_NUMBER + 1,
        slots_fields(a, first) == slots_fields(b, first),
    ensures
        a == b,
    decreases a.len(),
{
    if a.len() == 0 {
        assert(a =~= b);
    } else {
        let fs = slots_fields(a, first);
        let ha = slot_fields(first, a[0]);
        let hb = slot_fields(first, b[0]);
        let ta = slots_fields(a.skip(1), first + 1);
        let tb = slots_fields(b.skip(1), first + 1);
        lemma_slots_fields_numbers(a.skip(1), first + 1);
        lemma_slots_fields_numbers(b.skip(1), first + 1);
        let end = ha.len() as int;
        assert forall|k: int| 0 <= k < end implies (#[trigger] fs[k]).number == first by {
            assert(fs[k] == ha[k]);
        }
        if end < fs.len() {
            assert(fs[end] == ta[0]);
        }
        lemma_slot_split(fs, first, b[0], tb, end);
        assert(a[0] =~= b[0]) by {
            assert forall|k: int| 0 <= k < a[0].len() implies a[0][k] == b[0][k] by {
                assert(ha[k].value == hb[k].value);
            }
        }
        assert(ta =~= fs.skip(end));
        lemma_slots_fields_injective(a.skip(1), b.skip(1), first + 1);
        assert(a =~= seq![a[0]] + a.skip(1));
        assert(b =~= seq![b[0]] + b.skip(1));
    }
}

/// A copy of a field value.
pub fn copy_value(value: &FieldValue) -> (r: FieldValue)
    ensures
        r@ == value@,
{
    match value {
        FieldValue::Varint(v) => FieldValue::Varint(*v),
        FieldValue::Bytes(b) => FieldValue::Bytes(copy_bytes(b)),
    }
}

/// The fields of the given slots, the first slot under the number 1.
pub fn join_slots(slots: &Vec<Vec<FieldValue>>) -> (r: Vec<Field>)
    requires
        slots.len() <= MAX_FIELD_NUMBER,
    ensures
        fields_view(r@) == slots_fields(slots_view(slots@), 1),
        fields_wf(fields_view(r@)),
{
    let ghost all = slots_view(slots@);
    let mut out: Vec<Field> = Vec::new();
    let mut i: usize = 0;
    assert(all.skip(0) =~= all);
    assert(fields_view(out@) =~= Seq::<FieldView>::empty());
    while i < slots.len()
        invariant
            0 <= i <= slots.len(),
            slots.len() <= MAX_FIELD_NUMBER,
            all == slots_view(slots@),
            fields_view(out@) + slots_fields(all.skip(i as int), i + 1) == slots_fields(all, 1),
            fields_wf(fields_view(out@)),
        decreases slots.len() - i,
    {
        let slot = &slots[i];
        let number: u8 = (i + 1) as u8;
        let ghost before = fields_view(out@);
        let mut k: usize = 0;
        assert(slot_fields(number as int, all[i as int]).take(0) =~= Seq::<FieldView>::empty());
        while k < slot.len()
            invariant
                0 <= k <= slot.len(),
                0 <= i < slots.len(),
                number == i + 1,
                number <= MAX_FIELD_NUMBER,
                all == slots_view(slots@),
                slot == slots[i as int],
                fields_view(out@) == before + slot_fields(number as int, all[i as int]).take(
                    k as int,
                ),
                fields_wf(fields_view(out@)),
            decreases slot.len() - k,
        {
            let ghost sofar = fields_view(out@);
            let f = Field { number, value: copy_value(&slot[k]) };
            let ghost fv = f@;
            out.push(f);
            proof {
                let row = slot_fields(number as int, all[i as int]);
                assert(row[k as int] == fv);
                assert(row.take(k + 1) =~= row.take(k as int).push(fv));
                assert(fields_view(out@) =~= sofar.push(fv));
                assert(fields_view(out@) =~= before + row.take(k + 1));
                assert forall|n: int| 0 <= n < fields_view(out@).len() implies field_wf(
                    #[trigger] fields_view(out@)[n],
                ) by {
                    if n < sofar.len() {
                        assert(fields_view(out@)[n] == sofar[n]);
                    } else {
                        assert(fields_view(out@)[n] == fv);
                    }
                }
            }
            k += 1;
        }
        proof {
            let row = slot_fields(number as int, all[i as int]);
            assert(row.take(slot.len() as int) =~= row);
            assert(all.skip(i as int)[0] == all[i as int]);
            assert(all.skip(i as int).skip(1) =~= all.skip(i + 1));
            assert(slots_fields(all.skip(i as int), i + 1) == row + slots_fields(
                all.skip(i + 1),
                i + 2,
            ));
            assert(fields_view(out@) + slots_fields(all.skip(i + 1), i + 2) =~= before + (row
                + slots_fields(all.skip(i + 1), i + 2)));
        }
        i += 1;
    }
    assert(fields_view(out@) + slots_fields(all.skip(slots.len() as int), slots.len() + 1)
        =~= fields_view(out@));
    out
}

/// The end of the run of fields with the number `number` that starts at
/// `idx`.
fn slot_end(fs: &Vec<Field>, idx: usize, number: u8) -> (end: usize)
    requires
        idx <= fs.len(),
    ensures
        idx <= end <= fs.len(),
        forall|k: int| idx <= k < end ==> (#[trigger] fs[k]).number == number,
        end < fs.len() ==> fs[end as int].number != number,
{
    let mut end: usize = idx;
    while end < fs.len() && fs[end].number == number
        invariant
            idx <= end <= fs.len(),
            forall|k: int| idx <= k < end ==> (#[trigger] fs[k]).number == number,
        decreases fs.len() - end,
    {
        end += 1;
    }
    end
}

/// Splits the fields from `idx` on into `count` slots, of which the first
/// has the number `first`. Returns `None` if the fields are not those of
/// any such slots.
fn split_slots_from(fs: &Vec<Field>, idx: usize, first: u8, count: u8) -> (r: Option<
    Vec<Vec<FieldValue>>,
>)
    requires
        idx <= fs.len(),
        1 <= first,
        first + count <= MAX_FIELD_NUMBER + 1,
    ensures
        match r {
            Some(slots) => slots.len() == count && slots_fields(slots_view(slots@), first as int)
                == fields_view(fs@).skip(idx as int),
            None => forall|s: Seq<Seq<ValueView>>|
                s.len() == count ==> #[trigger] slots_fields(s, first as int) != fields_view(
                    fs@,
                ).skip(idx as int),
        },
    decreases count,
{
    let ghost all = fields_view(fs@);
    if count == 0 {
        if idx == fs.len() {
            let slots: Vec<Vec<FieldValue>> = Vec::new();
            assert(slots_view(slots@) =~= Seq::<Seq<ValueView>>::empty());
            assert(all.skip(idx as int) =~= Seq::<FieldView>::empty());
            return Some(slots);
        } else {
            assert(all.skip(idx as int).len() > 0);
            return None;
        }
    }
    let end = slot_end(fs, idx, first);
    let mut values: Vec<FieldValue> = Vec::new();
    let mut k: usize = idx;
    while k < end
        invariant
            idx <= k <= end <= fs.len(),
            values.len() == k - idx,
            forall|n: int| 0 <= n < k - idx ==> values[n]@ == fs[idx + n].value@,
        decreases end - k,
    {
        values.push(copy_value(&fs[k].value));
        k += 1;
    }
    let ghost row = slot_fields(first as int, values_view(values@));
    let ghost suffix = all.skip(idx as int);
    proof {
        assert(row =~= suffix.take(end - idx)) by {
            assert forall|n: int| 0 <= n < end - idx implies row[n] == suffix[n] by {
                assert(suffix[n] == fs[idx + n]@);
            }
        }
        assert forall|n: int| 0 <= n < end - idx implies (#[trigger] suffix[n]).number
            == first by {
            assert(suffix[n] == fs[idx + n]@);
        }
        if end - idx < suffix.len() {
            assert(suffix[end - idx] == fs[end as int]@);
        }
        assert(suffix.skip(end - idx) =~= all.skip(end as int));
        assert forall|s: Seq<Seq<ValueView>>|
            s.len() == count && slots_fields(s, first as int) == suffix implies slots_fields(
            s.skip(1),
            first + 1,
        ) == all.skip(end as int) by {
            lemma_slots_fields_numbers(s.skip(1), first + 1);
            lemma_slot_split(suffix, first as int, s[0], slots_fields(s.skip(1), first + 1), end - idx);
        }
    }
    match split_slots_from(fs, end, first + 1, count - 1) {
        None => {
            proof {
                assert forall|s: Seq<Seq<ValueView>>| s.len() == count implies #[trigger] slots_fields(
                    s,
                    first as int,
                ) != suffix by {
                    if slots_fields(s, first as int) == suffix {
                        assert(s.skip(1).len() == count - 1);
                        assert(slots_fields(s.skip(1), first + 1) == all.skip(end as int));
                    }
                }
            }
            None
        },
        Some(mut slots) => {
            let ghost tail = slots_view(slots@);
            let ghost head = values_view(values@);
            slots.insert(0, values);
            proof {
                let whole = slots_view(slots@);
                assert(whole[0] == head);
                assert(whole.skip(1) =~= tail);
                assert(suffix =~= suffix.take(end - idx) + suffix.skip(end - idx));
            }
            Some(slots)
        },
    }
}

/// Splits fields into `count` slots numbered from 1. Returns `None` if the
/// fields are not those of any `count` slots.
pub fn split_slots(fs: &Vec<Field>, count: u8) -> (r: Option<Vec<Vec<FieldValue>>>)
    requires
        count <= MAX_FIELD_NUMBER,
    ensures
        match r {
            Some(slots) => slots.len() == count && slots_fields(slots_view(slots@), 1)
                == fields_view(fs@),
            None => forall|s: Seq<Seq<ValueView>>|
                s.len() == count ==> #[trigger] slots_fields(s, 1) != fields_view(fs@),
        },
{
    assert(fields_view(fs@).skip(0) =~= fields_view(fs@));
    split_slots_from(fs, 0, 1, count)
}

/// A message: a value with a fixed number of slots.
pub trait Message: Sized {
    /// The slots of the message: for each number from 1 on, the values
    /// written under it.
    spec fn slots(&self) -> Seq<Seq<ValueView>>;

    /// How many slots a message of this type has.
    spec fn count() -> nat;

    /// Every message has the type's number of slots.
    proof fn lemma_slots(&self)
        ensures
            self.slots().len() == Self::count(),
            Self::count() <= MAX_FIELD_NUMBER,
    ;

    /// The number of slots.
    fn slot_count() -> (n: u8)
        ensures
            n == Self::count(),
            n <= MAX_FIELD_NUMBER,
    ;

    /// The slots of this message.
    fn to_slots(&self) -> (r: Vec<Vec<FieldValue>>)
        ensures
            slots_view(r@) == self.slots(),
    ;

    /// The message with the given slots, or `None` if no message has them.
    fn from_slots(slots: &Vec<Vec<FieldValue>>) -> (r: Option<Self>)
        requires
            slots.len() == Self::count(),
        ensures
            match r {
                Some(m) => m.slots() == slots_view(slots@),
                None => forall|m: Self| #[trigger] m.slots() != slots_view(slots@),
            },
    ;
}

/// The bytes of a message.
pub open spec fn message_bytes<M: Message>(m: &M) -> Seq<u8> {
    slots_bytes(m.slots())
}

/// The fields of a message can be written.
pub proof fn lemma_message_fields_wf<M: Message>(m: &M)
    ensures
        fields_wf(slots_fields(m.slots(), 1)),
{
    m.lemma_slots();
    lemma_slots_fields_numbers(m.slots(), 1);
}

/// Two runs of as many slots, numbered from 1, with the same bytes are the
/// same slots.
pub proof fn lemma_slots_bytes_injective(a: Seq<Seq<ValueView>>, b: Seq<Seq<ValueView>>)
    requires
        a.len() == b.len(),
        a.len() <= MAX_FIELD_NUMBER,
        slots_bytes(a) == slots_bytes(b),
    ensures
        a == b,
{
    lemma_slots_fields_numbers(a, 1);
    lemma_slots_fields_numbers(b, 1);
    lemma_fields_bytes_injective(slots_fields(a, 1), slots_fields(b, 1));
    lemma_slots_fields_injective(a, b, 1);
}

/// Two messages with the same bytes have the same slots.
pub proof fn lemma_message_bytes_injective<M: Message>(a: &M, b: &M)
    requires
        message_bytes(a) == message_bytes(b),
    ensures
        a.slots() == b.slots(),
{
    a.lemma_slots();
    b.lemma_slots();
    lemma_message_fields_wf(a);
    lemma_message_fields_wf(b);
    lemma_fields_bytes_injective(slots_fields(a.slots(), 1), slots_fields(b.slots(), 1));
    lemma_slots_fields_injective(a.slots(), b.slots(), 1);
}

/// The bytes of the message `m`.
pub fn encode_to_vec<M: Message>(m: &M) -> (r: Vec<u8>)
    ensures
        r@ == message_bytes(m),
{
    proof {
        m.lemma_slots();
    }
    let slots = m.to_slots();
    let fields = join_slots(&slots);
    encode_fields(&fields)
}

/// The message whose bytes are `buf`, or `None` if `buf` holds the bytes of
/// no message of this type. Decoding what [`encode_to_vec`] gave for a
/// message yields a message with the same slots.
pub fn decode<M: Message>(buf: &[u8]) -> (r: Option<M>)
    ensures
        match r {
            Some(m) => message_bytes(&m) == buf@,
            None => forall|m: M| #[trigger] message_bytes(&m) != buf@,
        },
        forall|m: M| #[trigger] message_bytes(&m) == buf@ ==> r is Some && r->Some_0.slots()
            == m.slots(),
{
    proof {
        assert forall|a: M, b: M| message_bytes(&a) == buf@ && message_bytes(&b) == buf@ implies a.slots()
            == b.slots() by {
            lemma_message_bytes_injective(&a, &b);
        }
    }
    let count = M::slot_count();
    let fields = match decode_fields(buf) {
        Some(fields) => fields,
        None => {
            proof {
                assert forall|m: M| #[trigger] message_bytes(&m) != buf@ by {
                    if message_bytes(&m) == buf@ {
                        lemma_message_fields_wf(&m);
                        assert(decodes_to(buf@, slots_fields(m.slots(), 1)));
                    }
                }
            }
            return None;
        },
    };
    proof {
        assert forall|m: M| #[trigger] message_bytes(&m) == buf@ implies slots_fields(m.slots(), 1)
            == fields_view(fields@) by {
            lemma_message_fields_wf(&m);
            lemma_fields_bytes_injective(slots_fields(m.slots(), 1), fields_view(fields@));
        }
    }
    let slots = match split_slots(&fields, count) {
        Some(slots) => slots,
        None => {
            proof {
                assert forall|m: M| #[trigger] message_bytes(&m) != buf@ by {
                    m.lemma_slots();
                }
            }
            return None;
        },
    };
    proof {
        assert forall|m: M| #[trigger] message_bytes(&m) == buf@ implies m.slots() == slots_view(
            slots@,
        ) by {
            m.lemma_slots();
            lemma_slots_fields_injective(m.slots(), slots_view(slots@), 1);
        }
    }
    M::from_slots(&slots)
}

/// The slot of a run of bytes that is left out when it is empty.
pub open spec fn implicit_bytes(b: Seq<u8>) -> Seq<ValueView> {
    if b.len() == 0 {
        Seq::empty()
    } else {
        seq![ValueView::Bytes(b)]
    }
}

/// The slot of a run of bytes that is always written.
pub open spec fn explicit_bytes(b: Seq<u8>) -> Seq<ValueView> {
    seq![ValueView::Bytes(b)]
}

/// The slot of a run of bytes that may be absent.
pub open spec fn optional_bytes(b: Option<Seq<u8>>) -> Seq<ValueView> {
    match b {
        None => Seq::empty(),
        Some(b) => seq![ValueView::Bytes(b)],
    }
}

/// The slot of a flag that is left out when it is false.
pub open spec fn implicit_bool(x: bool) -> Seq<ValueView> {
    if x {
        seq![ValueView::Varint(1)]
    } else {
        Seq::empty()
    }
}

/// The slot of a 32-bit integer that may be absent.
pub open spec fn optional_u32(v: Option<u32>) -> Seq<ValueView> {
    match v {
        None => Seq::empty(),
        Some(v) => seq![ValueView::Varint(v as u64)],
    }
}

/// The slot of a 64-bit integer that is always written.
pub open spec fn explicit_u64(v: u64) -> Seq<ValueView> {
    seq![ValueView::Varint(v)]
}

/// The slot of any number of runs of bytes.
pub open spec fn repeated_bytes(items: Seq<Seq<u8>>) -> Seq<ValueView> {
    Seq::new(items.len(), |k: int| ValueView::Bytes(items[k]))
}

/// The runs of bytes of a vector of byte vectors, in order.
pub open spec fn items_view(v: Seq<Vec<u8>>) -> Seq<Seq<u8>> {
    Seq::new(v.len(), |k: int| v[k]@)
}

/// Writes a run of bytes that is left out when it is empty.
pub fn put_implicit_bytes(b: &Vec<u8>) -> (r: Vec<FieldValue>)
    ensures
        values_view(r@) == implicit_bytes(b@),
{
    let mut r: Vec<FieldValue> = Vec::new();
    if b.len() > 0 {
        r.push(FieldValue::Bytes(copy_bytes(b)));
    }
    assert(values_view(r@) =~= implicit_bytes(b@));
    r
}

/// Reads a run of bytes that is left out when it is empty.
pub fn get_implicit_bytes(slot: &Vec<FieldValue>) -> (r: Option<Vec<u8>>)
    ensures
        match r {
            Some(b) => values_view(slot@) == implicit_bytes(b@),
            None => forall|b: Seq<u8>| #[trigger] implicit_bytes(b) != values_view(slot@),
        },
{
    if slot.len() == 0 {
        let b: Vec<u8> = Vec::new();
        assert(values_view(slot@) =~= implicit_bytes(b@));
        return Some(b);
    }
    if slot.len() == 1 {
        if let FieldValue::Bytes(b) = &slot[0] {
            if b.len() > 0 {
                assert(values_view(slot@) =~= implicit_bytes(b@));
                return Some(copy_bytes(b));
            }
        }
    }
    assert forall|b: Seq<u8>| #[trigger] implicit_bytes(b) != values_view(slot@) by {
        let sv = values_view(slot@);
        if implicit_bytes(b) == sv {
            assert(sv.len() == slot.len());
            assert(sv[0] == slot[0]@);
            assert(implicit_bytes(b)[0] == sv[0]);
        }
    }
    None
}

/// Writes a run of bytes that is always written.
pub fn put_explicit_bytes(b: &Vec<u8>) -> (r: Vec<FieldValue>)
    ensures
        values_view(r@) == explicit_bytes(b@),
{
    let mut r: Vec<FieldValue> = Vec::new();
    r.push(FieldValue::Bytes(copy_bytes(b)));
    assert(values_view(r@) =~= explicit_bytes(b@));
    r
}

/// Reads a run of bytes that is always written.
pub fn get_explicit_bytes(slot: &Vec<FieldValue>) -> (r: Option<Vec<u8>>)
    ensures
        match r {
            Some(b) => values_view(slot@) == explicit_bytes(b@),
            None => forall|b: Seq<u8>| #[trigger] explicit_bytes(b) != values_view(slot@),
        },
{
    if slot.len() == 1 {
        if let FieldValue::Bytes(b) = &slot[0] {
            assert(values_view(slot@) =~= explicit_bytes(b@));
            return Some(copy_bytes(b));
        }
    }
    assert forall|b: Seq<u8>| #[trigger] explicit_bytes(b) != values_view(slot@) by {
        let sv = values_view(slot@);
        if explicit_bytes(b) == sv {
            assert(sv.len() == slot.len());
            assert(sv[0] == slot[0]@);
            assert(explicit_bytes(b)[0] == sv[0]);
        }
    }
    None
}

/// Writes a run of bytes that may be absent.
pub fn put_optional_bytes(b: &Option<Vec<u8>>) -> (r: Vec<FieldValue>)
    ensures
        values_view(r@) == optional_bytes(
            match b {
                Some(b) => Some(b@),
                None => None,
            },
        ),
{
    let mut r: Vec<FieldValue> = Vec::new();
    match b {
        Some(b) => {
            r.push(FieldValue::Bytes(copy_bytes(b)));
            assert(values_view(r@) =~= optional_bytes(Some(b@)));
        },
        None => {
            assert(values_view(r@) =~= optional_bytes(None));
        },
    }
    r
}

/// The run of bytes of an optional vector of bytes.
pub open spec fn option_view(b: Option<Vec<u8>>) -> Option<Seq<u8>> {
    match b {
        Some(b) => Some(b@),
        None => None,
    }
}

/// Reads a run of bytes that may be absent. The outer `None` says that the
/// slot holds no such value.
pub fn get_optional_bytes(slot: &Vec<FieldValue>) -> (r: Option<Option<Vec<u8>>>)
    ensures
        match r {
            Some(b) => values_view(slot@) == optional_bytes(option_view(b)),
            None => forall|b: Option<Seq<u8>>| #[trigger] optional_bytes(b) != values_view(slot@),
        },
{
    if slot.len() == 0 {
        assert(values_view(slot@) =~= optional_bytes(None));
        return Some(None);
    }
    if slot.len() == 1 {
        if let FieldValue::Bytes(b) = &slot[0] {
            assert(values_view(slot@) =~= optional_bytes(Some(b@)));
            return Some(Some(copy_bytes(b)));
        }
    }
    assert forall|b: Option<Seq<u8>>| #[trigger] optional_bytes(b) != values_view(slot@) by {
        let sv = values_view(slot@);
        if optional_bytes(b) == sv {
            assert(sv.len() == slot.len());
            assert(sv[0] == slot[0]@);
            assert(optional_bytes(b)[0] == sv[0]);
        }
    }
    None
}

/// Writes a flag that is left out when it is false.
pub fn put_implicit_bool(x: bool) -> (r: Vec<FieldValue>)
    ensures
        values_view(r@) == implicit_bool(x),
{
    let mut r: Vec<FieldValue> = Vec::new();
    if x {
        r.push(FieldValue::Varint(1));
    }
    assert(values_view(r@) =~= implicit_bool(x));
    r
}

/// Reads a flag that is left out when it is false.
pub fn get_implicit_bool(slot: &Vec<FieldValue>) -> (r: Option<bool>)
    ensures
        match r {
            Some(x) => values_view(slot@) == implicit_bool(x),
            None => forall|x: bool| #[trigger] implicit_bool(x) != values_view(slot@),
        },
{
    if slot.len() == 0 {
        assert(values_view(slot@) =~= implicit_bool(false));
        return Some(false);
    }
    if slot.len() == 1 {
        if let FieldValue::Varint(v) = &slot[0] {
            if *v == 1 {
                assert(values_view(slot@) =~= implicit_bool(true));
                return Some(true);
            }
        }
    }
    assert forall|x: bool| #[trigger] implicit_bool(x) != values_view(slot@) by {
        let sv = values_view(slot@);
        if implicit_bool(x) == sv {
            assert(sv.len() == slot.len());
            assert(sv[0] == slot[0]@);
            assert(implicit_bool(x)[0] == sv[0]);
        }
    }
    None
}

/// Writes a 32-bit integer that may be absent.
pub fn put_optional_u32(v: Option<u32>) -> (r: Vec<FieldValue>)
    ensures
        values_view(r@) == optional_u32(v),
{
    let mut r: Vec<FieldValue> = Vec::new();
    if let Some(v) = v {
        r.push(FieldValue::Varint(v as u64));
    }
    assert(values_view(r@) =~= optional_u32(v));
    r
}

/// Reads a 32-bit integer that may be absent. The outer `None` says that
/// the slot holds no such value.
pub fn get_optional_u32(slot: &Vec<FieldValue>) -> (r: Option<Option<u32>>)
    ensures
        match r {
            Some(v) => values_view(slot@) == optional_u32(v),
            None => forall|v: Option<u32>| #[trigger] optional_u32(v) != values_view(slot@),
        },
{
    if slot.len() == 0 {
        assert(values_view(slot@) =~= optional_u32(None));
        return Some(None);
    }
    if slot.len() == 1 {
        if let FieldValue::Varint(v) = &slot[0] {
            if *v <= 0xffff_ffff {
                let w: u32 = *v as u32;
                assert(values_view(slot@) =~= optional_u32(Some(w)));
                return Some(Some(w));
            }
        }
    }
    assert forall|v: Option<u32>| #[trigger] optional_u32(v) != values_view(slot@) by {
        let sv = values_view(slot@);
        if optional_u32(v) == sv {
            assert(sv.len() == slot.len());
            assert(sv[0] == slot[0]@);
            assert(optional_u32(v)[0] == sv[0]);
        }
    }
    None
}

/// Writes a 64-bit integer that is always written.
pub fn put_explicit_u64(v: u64) -> (r: Vec<FieldValue>)
    ensures
        values_view(r@) == explicit_u64(v),
{
    let mut r: Vec<FieldValue> = Vec::new();
    r.push(FieldValue::Varint(v));
    assert(values_view(r@) =~= explicit_u64(v));
    r
}

/// Reads a 64-bit integer that is always written.
pub fn get_explicit_u64(slot: &Vec<FieldValue>) -> (r: Option<u64>)
    ensures
        match r {
            Some(v) => values_view(slot@) == explicit_u64(v),
            None => forall|v: u64| #[trigger] explicit_u64(v) != values_view(slot@),
        },
{
    if slot.len() == 1 {
        if let FieldValue::Varint(v) = &slot[0] {
            assert(values_view(slot@) =~= explicit_u64(*v));
            return Some(*v);
        }
    }
    assert forall|v: u64| #[trigger] explicit_u64(v) != values_view(slot@) by {
        let sv = values_view(slot@);
        if explicit_u64(v) == sv {
            assert(sv.len() == slot.len());
            assert(sv[0] == slot[0]@);
            assert(explicit_u64(v)[0] == sv[0]);
        }
    }
    None
}

/// Writes any number of runs of bytes.
pub fn put_repeated_bytes(items: &Vec<Vec<u8>>) -> (r: Vec<FieldValue>)
    ensures
        values_view(r@) == repeated_bytes(items_view(items@)),
{
    let mut r: Vec<FieldValue> = Vec::new();
    let mut i: usize = 0;
    while i < items.len()
        invariant
            0 <= i <= items.len(),
            r.len() == i,
            forall|k: int| 0 <= k < i ==> r[k]@ == ValueView::Bytes(items[k]@),
        decreases items.len() - i,
    {
        r.push(FieldValue::Bytes(copy_bytes(&items[i])));
        i += 1;
    }
    assert(values_view(r@) =~= repeated_bytes(items_view(items@)));
    r
}

/// Reads any number of runs of bytes.
pub fn get_repeated_bytes(slot: &Vec<FieldValue>) -> (r: Option<Vec<Vec<u8>>>)
    ensures
        match r {
            Some(items) => values_view(slot@) == repeated_bytes(items_view(items@)),
            None => forall|items: Seq<Seq<u8>>| #[trigger]
                repeated_bytes(items) != values_view(slot@),
        },
{
    let mut items: Vec<Vec<u8>> = Vec::new();
    let mut i: usize = 0;
    while i < slot.len()
        invariant
            0 <= i <= slot.len(),
            items.len() == i,
            forall|k: int| 0 <= k < i ==> slot[k]@ == ValueView::Bytes(items[k]@),
        decreases slot.len() - i,
    {
        match &slot[i] {
            FieldValue::Bytes(b) => {
                items.push(copy_bytes(b));
            },
            FieldValue::Varint(_) => {
                assert forall|other: Seq<Seq<u8>>| #[trigger]
                    repeated_bytes(other) != values_view(slot@) by {
                    let sv = values_view(slot@);
                    if repeated_bytes(other) == sv {
                        assert(sv.len() == slot.len());
                        assert(sv[i as int] == slot[i as int]@);
                        assert(repeated_bytes(other)[i as int] == sv[i as int]);
                    }
                }
                return None;
            },
        }
        i += 1;
    }
    assert(values_view(slot@) =~= repeated_bytes(items_view(items@)));
    Some(items)
}

/// Wraps `String::from_utf8` of std: the string that `bytes` spell in
/// UTF-8, or `None` if they are not valid UTF-8.
#[verifier::external_body]
pub(crate) fn string_from_utf8(bytes: Vec<u8>) -> (r: Option<String>)
    ensures
        r is Some <==> vstd::utf8::valid_utf8(bytes@),
        r matches Some(s) ==> s@ == vstd::utf8::decode_utf8(bytes@),
{
    String::from_utf8(bytes).ok()
}

/// The UTF-8 bytes of a string.
pub fn string_bytes(s: &String) -> (r: Vec<u8>)
    ensures
        r@ == vstd::utf8::encode_utf8(s@),
{
    vstd::slice::slice_to_vec(s.as_str().as_bytes())
}

/// The string that `bytes` spell in UTF-8, or `None` if they spell none.
pub fn string_of_bytes(bytes: Vec<u8>) -> (r: Option<String>)
    ensures
        match r {
            Some(s) => vstd::utf8::encode_utf8(s@) == bytes@,
            None => forall|s: Seq<char>| #[trigger] vstd::utf8::encode_utf8(s) != bytes@,
        },
{
    let ghost b = bytes@;
    let r = string_from_utf8(bytes);
    proof {
        if r is Some {
            vstd::utf8::decode_utf8_encode_utf8(b);
        } else {
            assert forall|s: Seq<char>| #[trigger] vstd::utf8::encode_utf8(s) != b by {
                vstd::utf8::encode_utf8_valid_utf8(s);
            }
        }
    }
    r
}

} // verus!
