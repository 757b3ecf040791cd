//! The byte-level encoding shared by the wire messages and the stored
//! objects: base-128 variable-length integers, big-endian integers, and
//! sequences of numbered fields.

use vstd::prelude::*;

verus! {

/// The variable-length encoding of `v`: seven bits to a byte, the low bits
/// first, the top bit of a byte set when more bytes follow.
pub open spec fn varint(v: nat) -> Seq<u8>
    decreases v,
{
    if v < 128 {
        seq![v as u8]
    } else {
        seq![(v % 128 + 128) as u8] + varint(v / 128)
    }
}

/// The most bytes that the encoding of a 64-bit value takes.
pub const MAX_VARINT_LEN: usize = 10;

/// The length of an encoding, by the size of the value.
proof fn lemma_varint_step(v: nat)
    ensures
        v < 128 ==> varint(v).len() == 1,
        v >= 128 ==> varint(v).len() == 1 + varint(v / 128).len(),
{
}

/// The encoding of a 64-bit value takes between one and ten bytes.
pub proof fn lemma_varint_len(v: u64)
    ensures
        1 <= varint(v as nat).len() <= MAX_VARINT_LEN,
{
    let v0 = v as nat;
    let v1 = v0 / 128;
    let v2 = v1 / 128;
    let v3 = v2 / 128;
    let v4 = v3 / 128;
    let v5 = v4 / 128;
    let v6 = v5 / 128;
    let v7 = v6 / 128;
    let v8 = v7 / 128;
    let v9 = v8 / 128;
    assert(v9 < 128);
    lemma_varint_step(v9);
    lemma_varint_step(v8);
    lemma_varint_step(v7);
    lemma_varint_step(v6);
    lemma_varint_step(v5);
    lemma_varint_step(v4);
    lemma_varint_step(v3);
    lemma_varint_step(v2);
    lemma_varint_step(v1);
    lemma_varint_step(v0);
}

/// No encoding is the start of another: a sequence of bytes begins with the
/// encoding of at most one value.
pub proof fn lemma_varint_prefix_unique(a: nat, b: nat, s: Seq<u8>)
    requires
        varint(a).len() <= s.len(),
        varint(b).len() <= s.len(),
        s.subrange(0, varint(a).len() as int) == varint(a),
        s.subrange(0, varint(b).len() as int) == varint(b),
    ensures
        a == b,
    decreases a,
{
    let ea = varint(a);
    let eb = varint(b);
    assert(ea[0] == s[0]) by {
        assert(s.subrange(0, ea.len() as int)[0] == s[0]);
    }
    assert(eb[0] == s[0]) by {
        assert(s.subrange(0, eb.len() as int)[0] == s[0]);
    }
    if a < 128 {
        assert(ea[0] == a);
        if b >= 128 {
            assert(eb[0] == (b % 128 + 128) as u8);
        }
    } else {
        assert(ea[0] == (a % 128 + 128) as u8);
        if b < 128 {
            assert(eb[0] == b);
        } else {
            assert(eb[0] == (b % 128 + 128) as u8);
            assert(a % 128 == b % 128);
            let t = s.skip(1);
            let ta = varint(a / 128);
            let tb = varint(b / 128);
            assert(ea.skip(1) =~= ta);
            assert(eb.skip(1) =~= tb);
            assert(t.subrange(0, ta.len() as int) =~= s.subrange(0, ea.len() as int).skip(1));
            assert(t.subrange(0, tb.len() as int) =~= s.subrange(0, eb.len() as int).skip(1));
            lemma_varint_prefix_unique(a / 128, b / 128, t);
            assert(a == 128 * (a / 128) + a % 128) by (nonlinear_arith);
            assert(b == 128 * (b / 128) + b % 128) by (nonlinear_arith);
        }
    }
}

/// Appends the variable-length encoding of `value` to `buf`.
pub fn encode_varint(value: u64, buf: &mut Vec<u8>)
    ensures
        final(buf)@ == old(buf)@ + varint(value as nat),
{
    let ghost start = buf@;
    let mut v: u64 = value;
    while v >= 128
        invariant
            start + varint(value as nat) == buf@ + varint(v as nat),
        decreases v,
    {
        let ghost before = buf@;
        buf.push((v % 128 + 128) as u8);
        proof {
            assert(varint(v as nat) == seq![(v % 128 + 128) as u8] + varint((v / 128) as nat));
            assert(before + varint(v as nat) =~= buf@ + varint((v / 128) as nat));
        }
        v = v / 128;
    }
    let ghost before = buf@;
    buf.push(v as u8);
    assert(before + varint(v as nat) =~= buf@);
}

/// The bytes of `s` from `pos` up to `end` are the encoding of `v`.
pub open spec fn varint_at(s: Seq<u8>, pos: int, end: int, v: u64) -> bool {
    pos <= end <= s.len() && s.subrange(pos, end) == varint(v as nat)
}

/// Reads one variable-length integer that starts at `pos` and takes at most
/// `budget` bytes.
fn decode_varint_within(buf: &[u8], pos: usize, budget: usize) -> (r: Option<(u64, usize)>)
    requires
        pos <= buf.len(),
    ensures
        match r {
            Some((v, next)) => pos < next && next - pos <= budget && varint_at(
                buf@,
                pos as int,
                next as int,
                v,
            ),
            None => forall|v: u64, end: int|
                end - pos <= budget ==> !#[trigger] varint_at(buf@, pos as int, end, v),
        },
    decreases budget,
{
    if pos >= buf.len() || budget == 0 {
        assert forall|v: u64, end: int| end - pos <= budget implies !#[trigger] varint_at(
            buf@,
            pos as int,
            end,
            v,
        ) by {
            lemma_varint_len(v);
        }
        return None;
    }
    let b: u8 = buf[pos];
    if b < 128 {
        assert(buf@.subrange(pos as int, pos + 1) =~= varint(b as nat));
        return Some((b as u64, pos + 1));
    }
    let low: u64 = (b - 128) as u64;
    let rest = decode_varint_within(buf, pos + 1, (budget - 1) as usize);
    proof {
        assert forall|v: u64, end: int| #[trigger]
            varint_at(buf@, pos as int, end, v) implies v >= 128 && v % 128 == low && varint_at(
            buf@,
            pos + 1,
            end,
            v / 128,
        ) by {
            let e = varint(v as nat);
            lemma_varint_len(v);
            assert(e[0] == buf@.subrange(pos as int, end)[0]);
            assert(e[0] == b);
            assert(buf@.subrange(pos + 1, end) =~= buf@.subrange(pos as int, end).skip(1));
            assert(e.skip(1) =~= varint((v / 128) as nat));
        }
    }
    match rest {
        None => None,
        Some((high, next)) => {
            if high == 0 || high > (u64::MAX - low) / 128 {
                proof {
                    assert forall|v: u64, end: int| end - pos <= budget implies !#[trigger] varint_at(
                        buf@,
                        pos as int,
                        end,
                        v,
                    ) by {
                        if varint_at(buf@, pos as int, end, v) {
                            let t = buf@.skip(pos + 1);
                            let w = (v / 128) as nat;
                            assert(varint_at(buf@, pos + 1, end, v / 128));
                            assert(t.subrange(0, end - pos - 1) =~= buf@.subrange(pos + 1, end));
                            assert(t.subrange(0, next - pos - 1) =~= buf@.subrange(
                                pos + 1,
                                next as int,
                            ));
                            lemma_varint_prefix_unique(w, high as nat, t);
                        }
                    }
                }
                None
            } else {
                let v: u64 = high * 128 + low;
                proof {
                    assert(v / 128 == high && v % 128 == low);
                    assert(buf@.subrange(pos as int, next as int) =~= seq![b] + buf@.subrange(
                        pos + 1,
                        next as int,
                    ));
                }
                Some((v, next))
            }
        },
    }
}

/// Reads the variable-length integer that starts at `pos`. Returns the
/// value and the position after it, or `None` if no 64-bit value is encoded
/// there.
pub fn decode_varint(buf: &[u8], pos: usize) -> (r: Option<(u64, usize)>)
    requires
        pos <= buf.len(),
    ensures
        match r {
            Some((v, next)) => pos < next && varint_at(buf@, pos as int, next as int, v),
            None => forall|v: u64, end: int| !#[trigger] varint_at(buf@, pos as int, end, v),
        },
{
    let r = decode_varint_within(buf, pos, MAX_VARINT_LEN);
    proof {
        if r is None {
            assert forall|v: u64, end: int| !#[trigger] varint_at(buf@, pos as int, end, v) by {
                lemma_varint_len(v);
            }
        }
    }
    r
}

/// What a field carries.
#[derive(Debug)]
pub enum FieldValue {
    /// An integer, written as a variable-length integer.
    Varint(u64),
    /// A run of bytes, written after its length.
    Bytes(Vec<u8>),
}

/// One numbered field of a message.
#[derive(Debug)]
pub struct Field {
    pub number: u8,
    pub value: FieldValue,
}

/// The mathematical value of a [`FieldValue`].
#[verifier::ext_equal]
pub enum ValueView {
    Varint(u64),
    Bytes(Seq<u8>),
}

/// The mathematical value of a [`Field`].
#[verifier::ext_equal]
pub struct FieldView {
    pub number: u8,
    pub value: ValueView,
}

impl View for FieldValue {
    type V = ValueView;

    open spec fn view(&self) -> ValueView {
        match self {
            FieldValue::Varint(v) => ValueView::Varint(*v),
            FieldValue::Bytes(b) => ValueView::Bytes(b@),
        }
    }
}

impl View for Field {
    type V = FieldView;

    open spec fn view(&self) -> FieldView {
        FieldView { number: self.number, value: self.value@ }
    }
}

/// The values of a vector of fields, in order.
pub open spec fn fields_view(v: Seq<Field>) -> Seq<FieldView> {
    Seq::new(v.len(), |i: int| v[i]@)
}

/// The greatest field number. With it the number and the kind of a field
/// fit in one byte.
pub const MAX_FIELD_NUMBER: u8 = 15;

/// A field can be written: its number is between 1 and 15.
pub open spec fn field_wf(f: FieldView) -> bool {
    1 <= f.number <= MAX_FIELD_NUMBER
}

/// Every field of the sequence can be written.
pub open spec fn fields_wf(fs: Seq<FieldView>) -> bool {
    forall|i: int| 0 <= i < fs.len() ==> field_wf(#[trigger] fs[i])
}

/// The bytes of one field: a byte that holds the number times eight plus
/// the kind (0 for an integer, 2 for bytes), then the integer, or the length
/// and the bytes.
pub open spec fn field_bytes(f: FieldView) -> Seq<u8> {
    match f.value {
        ValueView::Varint(v) => seq![(f.number * 8) as u8] + varint(v as nat),
        ValueView::Bytes(b) => seq![(f.number * 8 + 2) as u8] + varint(b.len()) + b,
    }
}

/// The bytes of a sequence of fields: those of each field, in order.
pub open spec fn fields_bytes(fs: Seq<FieldView>) -> Seq<u8>
    decreases fs.len(),
{
    if fs.len() == 0 {
        Seq::empty()
    } else {
        fields_bytes(fs.drop_last()) + field_bytes(fs.last())
    }
}

/// The bytes of `s` from `pos` up to `end` are those of the field `f`.
pub open spec fn field_at(s: Seq<u8>, pos: int, end: int, f: FieldView) -> bool {
    0 <= pos <= end <= s.len() && field_wf(f) && s.subrange(pos, end) == field_bytes(f)
}

/// The bytes `s` are those of the fields `fs`.
pub open spec fn decodes_to(s: Seq<u8>, fs: Seq<FieldView>) -> bool {
    fields_wf(fs) && fields_bytes(fs) == s
}

/// The bytes `s` are those of some sequence of fields.
pub open spec fn decodable(s: Seq<u8>) -> bool {
    exists|fs: Seq<FieldView>| #[trigger] decodes_to(s, fs)
}

/// The bytes of a concatenation are the concatenation of the bytes.
pub proof fn lemma_fields_bytes_concat(a: Seq<FieldView>, b: Seq<FieldView>)
    ensures
        fields_bytes(a + b) == fields_bytes(a) + fields_bytes(b),
    decreases b.len(),
{
    if b.len() == 0 {
        assert(a + b =~= a);
        assert(fields_bytes(a) + fields_bytes(b) =~= fields_bytes(a));
    } else {
        assert((a + b).drop_last() =~= a + b.drop_last());
        assert((a + b).last() == b.last());
        lemma_fields_bytes_concat(a, b.drop_last());
        assert(fields_bytes(a + b) =~= fields_bytes(a) + fields_bytes(b));
    }
}

/// The bytes of a sequence of fields start with those of its first field.
pub proof fn lemma_fields_bytes_front(fs: Seq<FieldView>)
    requires
        fs.len() > 0,
    ensures
        fields_bytes(fs) == field_bytes(fs[0]) + fields_bytes(fs.skip(1)),
{
    let head = seq![fs[0]];
    assert(head + fs.skip(1) =~= fs);
    lemma_fields_bytes_concat(head, fs.skip(1));
    assert(head.drop_last() =~= Seq::<FieldView>::empty());
    assert(fields_bytes(Seq::<FieldView>::empty()) =~= Seq::<u8>::empty());
    assert(head.last() == fs[0]);
    assert(fields_bytes(head) =~= field_bytes(fs[0]));
}

/// The bytes of a field are never empty.
pub proof fn lemma_field_bytes_len(f: FieldView)
    ensures
        field_bytes(f).len() >= 2,
{
    match f.value {
        ValueView::Varint(v) => {
            lemma_varint_step(v as nat);
        },
        ValueView::Bytes(b) => {
            lemma_varint_step(b.len());
        },
    }
}

/// A sequence of bytes begins with the bytes of at most one field.
pub proof fn lemma_field_prefix_unique(f: FieldView, g: FieldView, s: Seq<u8>, m: int, n: int)
    requires
        field_at(s, 0, m, f),
        field_at(s, 0, n, g),
    ensures
        f == g,
        m == n,
{
    lemma_field_bytes_len(f);
    lemma_field_bytes_len(g);
    let ef = field_bytes(f);
    let eg = field_bytes(g);
    assert(ef[0] == s.subrange(0, m)[0]);
    assert(eg[0] == s.subrange(0, n)[0]);
    assert(ef[0] == eg[0]);
    let t = s.skip(1);
    assert(t.subrange(0, m - 1) =~= ef.skip(1));
    assert(t.subrange(0, n - 1) =~= eg.skip(1));
    match (f.value, g.value) {
        (ValueView::Varint(v), ValueView::Varint(w)) => {
            assert(ef.skip(1) =~= varint(v as nat));
            assert(eg.skip(1) =~= varint(w as nat));
            lemma_varint_prefix_unique(v as nat, w as nat, t);
        },
        (ValueView::Bytes(b), ValueView::Bytes(c)) => {
            let lb = varint(b.len());
            let lc = varint(c.len());
            assert(ef.skip(1) =~= lb + b);
            assert(eg.skip(1) =~= lc + c);
            assert(t.subrange(0, lb.len() as int) =~= lb) by {
                assert(t.subrange(0, lb.len() as int) =~= t.subrange(0, m - 1).subrange(
                    0,
                    lb.len() as int,
                ));
            }
            assert(t.subrange(0, lc.len() as int) =~= lc) by {
                assert(t.subrange(0, lc.len() as int) =~= t.subrange(0, n - 1).subrange(
                    0,
                    lc.len() as int,
                ));
            }
            lemma_varint_prefix_unique(b.len(), c.len(), t);
            assert(b =~= t.subrange(lb.len() as int, m - 1)) by {
                assert(b =~= (lb + b).skip(lb.len() as int));
            }
            assert(c =~= t.subrange(lc.len() as int, n - 1)) by {
                assert(c =~= (lc + c).skip(lc.len() as int));
            }
        },
        _ => {},
    }
}

/// Two sequences of fields with the same bytes are the same sequence.
pub proof fn lemma_fields_bytes_injective(fs: Seq<FieldView>, gs: Seq<FieldView>)
    requires
        fields_wf(fs),
        fields_wf(gs),
        fields_bytes(fs) == fields_bytes(gs),
    ensures
        fs == gs,
    decreases fs.len(),
{
    let s = fields_bytes(fs);
    if fs.len() == 0 {
        if gs.len() > 0 {
            lemma_fields_bytes_front(gs);
            lemma_field_bytes_len(gs[0]);
        }
        assert(fs =~= gs);
    } else {
        lemma_fields_bytes_front(fs);
        lemma_field_bytes_len(fs[0]);
        assert(gs.len() > 0);
        lemma_fields_bytes_front(gs);
        let m = field_bytes(fs[0]).len() as int;
        let n = field_bytes(gs[0]).len() as int;
        assert(s.subrange(0, m) =~= field_bytes(fs[0]));
        assert(s.subrange(0, n) =~= field_bytes(gs[0]));
        lemma_field_prefix_unique(fs[0], gs[0], s, m, n);
        assert(fields_bytes(fs.skip(1)) =~= s.skip(m));
        assert(fields_bytes(gs.skip(1)) =~= s.skip(n));
        lemma_fields_bytes_injective(fs.skip(1), gs.skip(1));
        assert(fs =~= seq![fs[0]] + fs.skip(1));
        assert(gs =~= seq![gs[0]] + gs.skip(1));
    }
}

/// Appends `data` to `buf`.
pub fn append_bytes(buf: &mut Vec<u8>, data: &[u8])
    ensures
        final(buf)@ == old(buf)@ + data@,
{
    let ghost start = buf@;
    let mut i: usize = 0;
    while i < data.len()
        invariant
            0 <= i <= data.len(),
            buf@ == start + data@.take(i as int),
        decreases data.len() - i,
    {
        buf.push(data[i]);
        assert(data@.take(i + 1) =~= data@.take(i as int).push(data@[i as int]));
        assert(buf@ =~= start + data@.take(i + 1));
        i += 1;
    }
    assert(data@.take(data.len() as int) =~= data@);
}

/// Appends the bytes of one field to `buf`.
pub fn encode_field(field: &Field, buf: &mut Vec<u8>)
    requires
        field_wf(field@),
    ensures
        final(buf)@ == old(buf)@ + field_bytes(field@),
{
    let ghost start = buf@;
    match &field.value {
        FieldValue::Varint(v) => {
            buf.push(field.number * 8);
            encode_varint(*v, buf);
            assert(buf@ =~= start + field_bytes(field@));
        },
        FieldValue::Bytes(b) => {
            buf.push(field.number * 8 + 2);
            encode_varint(b.len() as u64, buf);
            append_bytes(buf, b.as_slice());
            assert(buf@ =~= start + field_bytes(field@));
        },
    }
}

/// The bytes of a sequence of fields.
pub fn encode_fields(fields: &Vec<Field>) -> (r: Vec<u8>)
    requires
        fields_wf(fields_view(fields@)),
    ensures
        r@ == fields_bytes(fields_view(fields@)),
{
    let mut buf: Vec<u8> = Vec::new();
    let mut i: usize = 0;
    let ghost all = fields_view(fields@);
    assert(all.take(0) =~= Seq::<FieldView>::empty());
    while i < fields.len()
        invariant
            0 <= i <= fields.len(),
            all == fields_view(fields@),
            fields_wf(all),
            buf@ == fields_bytes(all.take(i as int)),
        decreases fields.len() - i,
    {
        proof {
            assert(all.take(i + 1).drop_last() =~= all.take(i as int));
            assert(all.take(i + 1).last() == fields[i as int]@);
            assert(field_wf(all[i as int]));
        }
        encode_field(&fields[i], &mut buf);
        i += 1;
    }
    assert(all.take(fields.len() as int) =~= all);
    buf
}

/// Reads the field that starts at `pos`. Returns the field and the position
/// after it, or `None` if no field is written there.
pub fn decode_field(buf: &[u8], pos: usize) -> (r: Option<(Field, usize)>)
    requires
        pos <= buf.len(),
    ensures
        match r {
            Some((f, next)) => pos < next && field_at(buf@, pos as int, next as int, f@),
            None => forall|g: FieldView, end: int| !#[trigger] field_at(buf@, pos as int, end, g),
        },
{
    if pos >= buf.len() {
        assert forall|g: FieldView, end: int| !#[trigger] field_at(buf@, pos as int, end, g) by {
            lemma_field_bytes_len(g);
        }
        return None;
    }
    let key: u8 = buf[pos];
    let number: u8 = key / 8;
    let kind: u8 = key % 8;
    proof {
        assert forall|g: FieldView, end: int| #[trigger]
            field_at(buf@, pos as int, end, g) implies g.number == number && pos + 1 <= end && (
        match g.value {
            ValueView::Varint(v) => kind == 0 && buf@.subrange(pos + 1, end) == varint(v as nat),
            ValueView::Bytes(b) => kind == 2 && buf@.subrange(pos + 1, end) == varint(b.len()) + b,
        }) by {
            lemma_field_bytes_len(g);
            let e = field_bytes(g);
            assert(e[0] == buf@.subrange(pos as int, end)[0]);
            assert(buf@.subrange(pos + 1, end) =~= e.skip(1));
            match g.value {
                ValueView::Varint(v) => {
                    assert(e.skip(1) =~= varint(v as nat));
                },
                ValueView::Bytes(b) => {
                    assert(e.skip(1) =~= varint(b.len()) + b);
                },
            }
        }
    }
    if number == 0 || number > MAX_FIELD_NUMBER {
        return None;
    }
    if kind == 0 {
        match decode_varint(buf, pos + 1) {
            None => {
                proof {
                    assert forall|g: FieldView, end: int| !#[trigger] field_at(
                        buf@,
                        pos as int,
                        end,
                        g,
                    ) by {
                        if field_at(buf@, pos as int, end, g) {
                            assert(varint_at(buf@, pos + 1, end, g.value->Varint_0));
                        }
                    }
                }
                None
            },
            Some((v, next)) => {
                let f = Field { number, value: FieldValue::Varint(v) };
                assert(buf@.subrange(pos as int, next as int) =~= field_bytes(f@)) by {
                    assert(buf@.subrange(pos as int, next as int) =~= seq![key] + buf@.subrange(
                        pos + 1,
                        next as int,
                    ));
                }
                Some((f, next))
            },
        }
    } else if kind == 2 {
        match decode_varint(buf, pos + 1) {
            None => {
                proof {
                    assert forall|g: FieldView, end: int| !#[trigger] field_at(
                        buf@,
                        pos as int,
                        end,
                        g,
                    ) by {
                        if field_at(buf@, pos as int, end, g) {
                            let b = g.value->Bytes_0;
                            let l = varint(b.len());
                            let sub = buf@.subrange(pos + 1, end);
                            assert(sub == l + b);
                            assert(sub.len() == l.len() + b.len());
                            assert(buf@.subrange(pos + 1, pos + 1 + l.len()) =~= sub.take(
                                l.len() as int,
                            ));
                            assert(sub.take(l.len() as int) =~= l);
                            assert(b.len() <= buf.len() <= usize::MAX);
                            assert(varint_at(buf@, pos + 1, pos + 1 + l.len(), b.len() as u64));
                        }
                    }
                }
                None
            },
            Some((len, start)) => {
                proof {
                    assert forall|g: FieldView, end: int| #[trigger]
                        field_at(buf@, pos as int, end, g) implies g.value->Bytes_0.len() == len
                        && end == start + len by {
                        let b = g.value->Bytes_0;
                        let l = varint(b.len());
                        let t = buf@.skip(pos + 1);
                        let sub = buf@.subrange(pos + 1, end);
                        assert(sub == l + b);
                        assert(sub.len() == l.len() + b.len());
                        assert(t.subrange(0, l.len() as int) =~= sub.take(l.len() as int));
                        assert(sub.take(l.len() as int) =~= l);
                        assert(t.subrange(0, start - pos - 1) =~= buf@.subrange(
                            pos + 1,
                            start as int,
                        ));
                        lemma_varint_prefix_unique(b.len(), len as nat, t);
                    }
                }
                if len > (buf.len() - start) as u64 {
                    return None;
                }
                let end: usize = start + len as usize;
                let value = vstd::slice::slice_to_vec(vstd::slice::slice_subrange(buf, start, end));
                let f = Field { number, value: FieldValue::Bytes(value) };
                assert(buf@.subrange(pos as int, end as int) =~= field_bytes(f@)) by {
                    assert(buf@.subrange(pos as int, end as int) =~= seq![key] + buf@.subrange(
                        pos + 1,
                        start as int,
                    ) + buf@.subrange(start as int, end as int));
                }
                Some((f, end))
            },
        }
    } else {
        None
    }
}

/// Reads a whole sequence of fields. Returns `None` if the bytes are not
/// those of any sequence of fields.
pub fn decode_fields(buf: &[u8]) -> (r: Option<Vec<Field>>)
    ensures
        match r {
            Some(fs) => decodes_to(buf@, fields_view(fs@)),
            None => !decodable(buf@),
        },
{
    let mut out: Vec<Field> = Vec::new();
    let mut pos: usize = 0;
    assert(fields_view(out@) =~= Seq::<FieldView>::empty());
    assert(buf@.take(0) =~= Seq::<u8>::empty());
    assert(buf@.skip(0) =~= buf@);
    while pos < buf.len()
        invariant
            0 <= pos <= buf.len(),
            decodes_to(buf@.take(pos as int), fields_view(out@)),
            decodable(buf@) ==> decodable(buf@.skip(pos as int)),
        decreases buf.len() - pos,
    {
        let ghost rest = buf@.skip(pos as int);
        proof {
            if decodable(rest) {
                let fs = choose|fs: Seq<FieldView>| #[trigger] decodes_to(rest, fs);
                if fs.len() == 0 {
                    assert(false);
                }
                lemma_fields_bytes_front(fs);
                let m = field_bytes(fs[0]).len() as int;
                assert(rest.len() == m + fields_bytes(fs.skip(1)).len());
                assert(buf@.subrange(pos as int, pos + m) =~= field_bytes(fs[0])) by {
                    assert(rest.take(m) =~= field_bytes(fs[0]));
                    assert(buf@.subrange(pos as int, pos + m) =~= rest.take(m));
                }
                assert(field_at(buf@, pos as int, pos + m, fs[0]));
            }
        }
        match decode_field(buf, pos) {
            None => {
                return None;
            },
            Some((f, next)) => {
                proof {
                    let before = fields_view(out@);
                    let after = before.push(f@);
                    assert(after.drop_last() =~= before);
                    assert(fields_bytes(after) =~= buf@.take(next as int)) by {
                        assert(buf@.take(next as int) =~= buf@.take(pos as int) + buf@.subrange(
                            pos as int,
                            next as int,
                        ));
                    }
                    if decodable(buf@) {
                        let fs = choose|fs: Seq<FieldView>| #[trigger] decodes_to(rest, fs);
                        lemma_fields_bytes_front(fs);
                        let m = field_bytes(fs[0]).len() as int;
                        assert(rest.subrange(0, m) =~= field_bytes(fs[0]));
                        assert(rest.subrange(0, next - pos) =~= field_bytes(f@)) by {
                            assert(rest.subrange(0, next - pos) =~= buf@.subrange(
                                pos as int,
                                next as int,
                            ));
                        }
                        lemma_field_prefix_unique(fs[0], f@, rest, m, next - pos);
                        assert(fields_bytes(fs.skip(1)) =~= buf@.skip(next as int)) by {
                            assert(buf@.skip(next as int) =~= rest.skip(m));
                        }
                        assert(decodes_to(buf@.skip(next as int), fs.skip(1)));
                    }
                }
                let ghost before = fields_view(out@);
                let ghost added = f@;
                out.push(f);
                assert(fields_view(out@) =~= before.push(added));
                pos = next;
            },
        }
    }
    assert(buf@.take(pos as int) =~= buf@);
    Some(out)
}

/// A copy of a vector of bytes.
pub fn copy_bytes(data: &Vec<u8>) -> (r: Vec<u8>)
    ensures
        r@ == data@,
{
    vstd::slice::slice_to_vec(data.as_slice())
}

/// Whether two runs of bytes are equal.
pub fn bytes_equal(a: &[u8], b: &[u8]) -> (r: bool)
    ensures
        r == (a@ == b@),
{
    if a.len() != b.len() {
        return false;
    }
    let mut i: usize = 0;
    while i < a.len()
        invariant
            0 <= i <= a.len(),
            a.len() == b.len(),
            forall|k: int| 0 <= k < i ==> a@[k] == b@[k],
        decreases a.len() - i,
    {
        if a[i] != b[i] {
            return false;
        }
        i += 1;
    }
    assert(a@ =~= b@);
    true
}

/// The `width` low bytes of `v`, the most significant first.
pub open spec fn be_bytes(v: nat, width: nat) -> Seq<u8>
    decreases width,
{
    if width == 0 {
        Seq::empty()
    } else {
        be_bytes(v / 256, (width - 1) as nat).push((v % 256) as u8)
    }
}

/// The number that the bytes `s` spell, the most significant first.
pub open spec fn be_value(s: Seq<u8>) -> nat
    decreases s.len(),
{
    if s.len() == 0 {
        0
    } else {
        be_value(s.drop_last()) * 256 + s.last() as nat
    }
}

/// What is left of `v` above its `width` low bytes.
pub open spec fn above_bytes(v: nat, width: nat) -> nat
    decreases width,
{
    if width == 0 {
        v
    } else {
        above_bytes(v / 256, (width - 1) as nat)
    }
}

/// The eight bytes of a 64-bit value, the most significant first.
pub open spec fn u64_be_bytes(v: u64) -> Seq<u8> {
    be_bytes(v as nat, 8)
}

/// The four bytes of a 32-bit value, the most significant first.
pub open spec fn u32_be_bytes(v: u32) -> Seq<u8> {
    be_bytes(v as nat, 4)
}

/// A big-endian encoding has as many bytes as its width.
pub proof fn lemma_be_bytes_len(v: nat, width: nat)
    ensures
        be_bytes(v, width).len() == width,
    decreases width,
{
    if width > 0 {
        lemma_be_bytes_len(v / 256, (width - 1) as nat);
    }
}

/// Writing the number that some bytes spell gives those bytes back.
pub proof fn lemma_be_bytes_of_value(s: Seq<u8>)
    ensures
        be_bytes(be_value(s), s.len()) == s,
    decreases s.len(),
{
    if s.len() == 0 {
        assert(be_bytes(be_value(s), 0) =~= s);
    } else {
        let x = be_value(s.drop_last());
        let b = s.last() as nat;
        lemma_be_bytes_of_value(s.drop_last());
        assert((x * 256 + b) / 256 == x);
        assert((x * 256 + b) % 256 == b);
        assert(be_bytes(be_value(s), s.len()) =~= s);
    }
}

/// Two numbers with the same low bytes and the same rest are equal.
pub proof fn lemma_be_bytes_injective(a: nat, b: nat, width: nat)
    requires
        be_bytes(a, width) == be_bytes(b, width),
        above_bytes(a, width) == above_bytes(b, width),
    ensures
        a == b,
    decreases width,
{
    if width > 0 {
        let x = be_bytes(a / 256, (width - 1) as nat);
        let y = be_bytes(b / 256, (width - 1) as nat);
        assert(x.push((a % 256) as u8).last() == y.push((b % 256) as u8).last());
        assert(x =~= x.push((a % 256) as u8).drop_last());
        assert(y =~= y.push((b % 256) as u8).drop_last());
        lemma_be_bytes_injective(a / 256, b / 256, (width - 1) as nat);
    }
}

/// Different 64-bit values have different big-endian bytes.
pub proof fn lemma_u64_be_bytes_injective(a: u64, b: u64)
    requires
        u64_be_bytes(a) == u64_be_bytes(b),
    ensures
        a == b,
{
    reveal_with_fuel(above_bytes, 9);
    assert(above_bytes(a as nat, 8) == 0);
    assert(above_bytes(b as nat, 8) == 0);
    lemma_be_bytes_injective(a as nat, b as nat, 8);
}

/// Different 32-bit values have different big-endian bytes.
pub proof fn lemma_u32_be_bytes_injective(a: u32, b: u32)
    requires
        u32_be_bytes(a) == u32_be_bytes(b),
    ensures
        a == b,
{
    reveal_with_fuel(above_bytes, 5);
    assert(above_bytes(a as nat, 4) == 0);
    assert(above_bytes(b as nat, 4) == 0);
    lemma_be_bytes_injective(a as nat, b as nat, 4);
}

/// The eight bytes of `v`, the most significant first.
pub fn u64_to_be_bytes(v: u64) -> (r: Vec<u8>)
    ensures
        r@ == u64_be_bytes(v),
{
    let v1: u64 = v / 256;
    let v2: u64 = v1 / 256;
    let v3: u64 = v2 / 256;
    let v4: u64 = v3 / 256;
    let v5: u64 = v4 / 256;
    let v6: u64 = v5 / 256;
    let v7: u64 = v6 / 256;
    let mut r: Vec<u8> = Vec::new();
    r.push((v7 % 256) as u8);
    r.push((v6 % 256) as u8);
    r.push((v5 % 256) as u8);
    r.push((v4 % 256) as u8);
    r.push((v3 % 256) as u8);
    r.push((v2 % 256) as u8);
    r.push((v1 % 256) as u8);
    r.push((v % 256) as u8);
    proof {
        reveal_with_fuel(be_bytes, 9);
        assert(r@ =~= u64_be_bytes(v));
    }
    r
}

/// The value whose eight big-endian bytes are `bytes`, or `None` if there
/// are not eight of them.
pub fn u64_from_be_bytes(bytes: &[u8]) -> (r: Option<u64>)
    ensures
        match r {
            Some(v) => bytes@ == u64_be_bytes(v),
            None => bytes@.len() != 8,
        },
{
    if bytes.len() != 8 {
        return None;
    }
    let mut v: u64 = 0;
    let mut i: usize = 0;
    let ghost mut limit: nat = 1;
    assert(bytes@.take(0) =~= Seq::<u8>::empty());
    while i < 8
        invariant
            0 <= i <= 8,
            bytes@.len() == 8,
            v == be_value(bytes@.take(i as int)),
            v < limit,
            i == 0 ==> limit == 1,
            i == 1 ==> limit == 0x100,
            i == 2 ==> limit == 0x1_0000,
            i == 3 ==> limit == 0x100_0000,
            i == 4 ==> limit == 0x1_0000_0000,
            i == 5 ==> limit == 0x100_0000_0000,
            i == 6 ==> limit == 0x1_0000_0000_0000,
            i == 7 ==> limit == 0x100_0000_0000_0000,
        decreases 8 - i,
    {
        proof {
            assert(bytes@.take(i + 1).drop_last() =~= bytes@.take(i as int));
            assert(bytes@.take(i + 1).last() == bytes@[i as int]);
            limit = limit * 256;
        }
        v = v * 256 + bytes[i] as u64;
        i += 1;
    }
    proof {
        assert(bytes@.take(8) =~= bytes@);
        lemma_be_bytes_of_value(bytes@);
    }
    Some(v)
}

/// The four bytes of `v`, the most significant first.
pub fn u32_to_be_bytes(v: u32) -> (r: Vec<u8>)
    ensures
        r@ == u32_be_bytes(v),
{
    let v1: u32 = v / 256;
    let v2: u32 = v1 / 256;
    let v3: u32 = v2 / 256;
    let mut r: Vec<u8> = Vec::new();
    r.push((v3 % 256) as u8);
    r.push((v2 % 256) as u8);
    r.push((v1 % 256) as u8);
    r.push((v % 256) as u8);
    proof {
        reveal_with_fuel(be_bytes, 5);
        assert(r@ =~= u32_be_bytes(v));
    }
    r
}

/// The value whose four big-endian bytes are `bytes`, or `None` if there
/// are not four of them.
pub fn u32_from_be_bytes(bytes: &[u8]) -> (r: Option<u32>)
    ensures
        match r {
            Some(v) => bytes@ == u32_be_bytes(v),
            None => bytes@.len() != 4,
        },
{
    if bytes.len() != 4 {
        return None;
    }
    let mut v: u32 = 0;
    let mut i: usize = 0;
    let ghost mut limit: nat = 1;
    assert(bytes@.take(0) =~= Seq::<u8>::empty());
    while i < 4
        invariant
            0 <= i <= 4,
            bytes@.len() == 4,
            v == be_value(bytes@.take(i as int)),
            v < limit,
            i == 0 ==> limit == 1,
            i == 1 ==> limit == 0x100,
            i == 2 ==> limit == 0x1_0000,
            i == 3 ==> limit == 0x100_0000,
        decreases 4 - i,
    {
        proof {
            assert(bytes@.take(i + 1).drop_last() =~= bytes@.take(i as int));
            assert(bytes@.take(i + 1).last() == bytes@[i as int]);
            limit = limit * 256;
        }
        v = v * 256 + bytes[i] as u32;
        i += 1;
    }
    proof {
        assert(bytes@.take(4) =~= bytes@);
        lemma_be_bytes_of_value(bytes@);
    }
    Some(v)
}

} // verus!
