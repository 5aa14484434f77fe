//! Protobuf-compatible wire primitives: base-128 varints, tagged fields,
//! and the flat field list that every message of the protocol is made of.
use vstd::prelude::*;
use vstd::slice::{slice_subrange, slice_to_vec};

verus! {

/// The base-128 little-endian encoding of `v`: seven bits per byte, the high
/// bit set on every byte but the last.
pub open spec fn varint(v: u64) -> Seq<u8>
    decreases v,
{
    if v < 128 {
        seq![v as u8]
    } else {
        seq![(v % 128 + 128) as u8] + varint(v / 128)
    }
}

/// Reads a varint that starts at `pos` and spans at most `fuel` bytes.
/// Yields the value and the position just past it; `None` when the bytes end
/// first, when no terminating byte comes within `fuel` bytes, or when the
/// value does not fit in 64 bits.
pub open spec fn varint_at(b: Seq<u8>, pos: int, fuel: nat) -> Option<(u64, int)>
    decreases fuel,
{
    if fuel == 0 || pos < 0 || pos >= b.len() {
        None
    } else if b[pos] < 128 {
        Some((b[pos] as u64, pos + 1))
    } else {
        match varint_at(b, pos + 1, (fuel - 1) as nat) {
            Some((v, e)) => {
                let w = (b[pos] - 128) + 128 * v;
                if w <= u64::MAX {
                    Some((w as u64, e))
                } else {
                    None
                }
            },
            None => None,
        }
    }
}

/// The longest varint is ten bytes.
pub open spec fn read_varint(b: Seq<u8>, pos: int) -> Option<(u64, int)> {
    varint_at(b, pos, 10)
}

pub open spec fn pow128(k: nat) -> int
    decreases k,
{
    if k == 0 {
        1
    } else {
        128 * pow128((k - 1) as nat)
    }
}

proof fn lemma_varint_len_bound(v: u64, k: nat)
    requires
        k >= 1,
        (v as int) < pow128(k),
    ensures
        1 <= varint(v).len() <= k,
    decreases v,
{
    if v >= 128 {
        let k1 = (k - 1) as nat;
        assert(pow128(k) == 128 * pow128(k1));
        if k1 == 0 {
            assert(pow128(k1) == 1);
        }
        let q = v / 128;
        let p = pow128(k1);
        assert((v as int) < 128 * p ==> (q as int) < p) by (nonlinear_arith)
            requires
                q == v / 128,
        ;
        lemma_varint_len_bound(q, k1);
    }
}

/// Every 64-bit value takes between one and ten bytes.
pub proof fn lemma_varint_len(v: u64)
    ensures
        1 <= varint(v).len() <= 10,
{
    reveal_with_fuel(pow128, 11);
    assert(pow128(10) == 1180591620717411303424int);
    lemma_varint_len_bound(v, 10);
}

/// Reading back a written varint gives the value and the position past it,
/// whatever follows it.
pub proof fn lemma_varint_read(b: Seq<u8>, pos: int, v: u64, fuel: nat)
    requires
        0 <= pos,
        pos + varint(v).len() <= b.len(),
        b.subrange(pos, pos + varint(v).len()) == varint(v),
        fuel >= varint(v).len(),
    ensures
        varint_at(b, pos, fuel) == Some((v, pos + varint(v).len())),
    decreases v,
{
    let n = varint(v).len();
    assert(b[pos] == b.subrange(pos, pos + n)[0]);
    if v >= 128 {
        let q = v / 128;
        let rest = varint(q);
        assert(varint(v) == seq![(v % 128 + 128) as u8] + rest);
        assert(b.subrange(pos + 1, pos + 1 + rest.len()) =~= rest) by {
            assert forall|i: int| 0 <= i < rest.len() implies b.subrange(
                pos + 1,
                pos + 1 + rest.len(),
            )[i] == rest[i] by {
                assert(b.subrange(pos, pos + n)[i + 1] == varint(v)[i + 1]);
            }
        }
        lemma_varint_read(b, pos + 1, q, (fuel - 1) as nat);
        assert(v % 128 + 128 * q == v);
    }
}

/// Reads a varint as [`varint_at`] does.
fn varint_from(b: &[u8], pos: usize, fuel: u8) -> (r: Option<(u64, usize)>)
    ensures
        match r {
            Some((v, e)) => varint_at(b@, pos as int, fuel as nat) == Some((v, e as int))
                && e <= b@.len(),
            None => varint_at(b@, pos as int, fuel as nat) is None,
        },
    decreases fuel,
{
    if fuel == 0 || pos >= b.len() {
        return None;
    }
    let x = b[pos];
    if x < 128 {
        return Some((x as u64, pos + 1));
    }
    match varint_from(b, pos + 1, fuel - 1) {
        None => None,
        Some((v, e)) => {
            let low = (x - 128) as u64;
            if v > (u64::MAX - low) / 128 {
                assert(low + 128 * v > u64::MAX) by (nonlinear_arith)
                    requires
                        v > (u64::MAX - low) / 128,
                        low < 128,
                ;
                None
            } else {
                assert(low + 128 * v <= u64::MAX) by (nonlinear_arith)
                    requires
                        v <= (u64::MAX - low) / 128,
                        low < 128,
                ;
                Some((low + 128 * v, e))
            }
        },
    }
}

/// Reads the varint at `pos`, as [`read_varint`] specifies.
pub fn read_varint_at(b: &[u8], pos: usize) -> (r: Option<(u64, usize)>)
    ensures
        match r {
            Some((v, e)) => read_varint(b@, pos as int) == Some((v, e as int)) && e <= b@.len(),
            None => read_varint(b@, pos as int) is None,
        },
{
    varint_from(b, pos, 10)
}

/// Relies on prost::encoding::encode_varint: it appends the base-128
/// encoding of `v`, low bits first.
#[verifier::external_body]
fn put_varint_raw(v: u64, out: &mut Vec<u8>)
    ensures
        final(out)@ == old(out)@ + varint(v),
{
    prost::encoding::encode_varint(v, out)
}

/// Appends the varint encoding of `v` to `out`.
pub fn put_varint(v: u64, out: &mut Vec<u8>)
    ensures
        final(out)@ == old(out)@ + varint(v),
{
    put_varint_raw(v, out)
}

/// What a field carries, by wire type.
pub enum WireValue {
    Varint(u64),
    Fixed64(Seq<u8>),
    Bytes(Seq<u8>),
    Fixed32(Seq<u8>),
}

/// One tagged field of an encoded message.
pub struct WireField {
    pub num: u64,
    pub val: WireValue,
}

pub open spec fn wire_type(v: WireValue) -> u64 {
    match v {
        WireValue::Varint(_) => 0,
        WireValue::Fixed64(_) => 1,
        WireValue::Bytes(_) => 2,
        WireValue::Fixed32(_) => 5,
    }
}

/// Field numbers are positive, and the key `num * 8 + wire type` fits in
/// 64 bits.
pub open spec fn field_num_ok(num: u64) -> bool {
    1 <= num < 0x2000_0000_0000_0000
}

pub open spec fn field_ok(f: WireField) -> bool {
    &&& field_num_ok(f.num)
    &&& match f.val {
        WireValue::Varint(_) => true,
        WireValue::Fixed64(b) => b.len() == 8,
        WireValue::Bytes(b) => b.len() <= u64::MAX,
        WireValue::Fixed32(b) => b.len() == 4,
    }
}

pub open spec fn fields_ok(fs: Seq<WireField>) -> bool {
    forall|i: int| 0 <= i < fs.len() ==> #[trigger] field_ok(fs[i])
}

pub open spec fn field_key(f: WireField) -> u64 {
    (f.num * 8 + wire_type(f.val)) as u64
}

pub open spec fn encode_field(f: WireField) -> Seq<u8> {
    varint(field_key(f)) + match f.val {
        WireValue::Varint(x) => varint(x),
        WireValue::Fixed64(b) => b,
        WireValue::Bytes(b) => varint(b.len() as u64) + b,
        WireValue::Fixed32(b) => b,
    }
}

/// The bytes of a message: its fields, one after the other.
pub open spec fn encode_fields(fs: Seq<WireField>) -> Seq<u8>
    decreases fs.len(),
{
    if fs.len() == 0 {
        Seq::empty()
    } else {
        encode_field(fs[0]) + encode_fields(fs.drop_first())
    }
}

/// Reads one field at `pos`: its key, then its value by wire type.
pub open spec fn field_at(b: Seq<u8>, pos: int) -> Option<(WireField, int)> {
    match read_varint(b, pos) {
        None => None,
        Some((key, key_end)) => {
            let num = key / 8;
            let wt = key % 8;
            if num == 0 {
                None
            } else if wt == 0 {
                match read_varint(b, key_end) {
                    Some((x, len_end)) => Some((WireField { num, val: WireValue::Varint(x) }, len_end)),
                    None => None,
                }
            } else if wt == 2 {
                match read_varint(b, key_end) {
                    Some((n, len_end)) => if len_end + n <= b.len() {
                        Some(
                            (
                                WireField {
                                    num,
                                    val: WireValue::Bytes(b.subrange(len_end, len_end + n)),
                                },
                                len_end + n,
                            ),
                        )
                    } else {
                        None
                    },
                    None => None,
                }
            } else if wt == 1 {
                if key_end + 8 <= b.len() {
                    Some((WireField { num, val: WireValue::Fixed64(b.subrange(key_end, key_end + 8)) }, key_end + 8))
                } else {
                    None
                }
            } else if wt == 5 {
                if key_end + 4 <= b.len() {
                    Some((WireField { num, val: WireValue::Fixed32(b.subrange(key_end, key_end + 4)) }, key_end + 4))
                } else {
                    None
                }
            } else {
                None
            }
        },
    }
}

/// Reads fields from `pos` to the end of `b`.
pub open spec fn fields_at(b: Seq<u8>, pos: int) -> Option<Seq<WireField>>
    decreases b.len() - pos,
{
    if pos < 0 || pos >= b.len() {
        Some(Seq::empty())
    } else {
        match field_at(b, pos) {
            None => None,
            Some((f, next)) => if next <= pos || next > b.len() {
                None
            } else {
                match fields_at(b, next) {
                    None => None,
                    Some(rest) => Some(seq![f] + rest),
                }
            },
        }
    }
}

/// The field list of a whole message.
pub open spec fn parse_fields(b: Seq<u8>) -> Option<Seq<WireField>> {
    fields_at(b, 0)
}

pub proof fn lemma_encode_fields_push(fs: Seq<WireField>, f: WireField)
    ensures
        encode_fields(fs.push(f)) == encode_fields(fs) + encode_field(f),
    decreases fs.len(),
{
    if fs.len() == 0 {
        assert(fs.push(f).drop_first() =~= Seq::<WireField>::empty());
        assert(encode_fields(Seq::<WireField>::empty()) =~= Seq::<u8>::empty());
        assert(encode_fields(fs.push(f)) =~= encode_field(f));
        assert(encode_fields(fs) =~= Seq::<u8>::empty());
        assert(encode_fields(fs) + encode_field(f) =~= encode_field(f));
    } else {
        assert(fs.push(f).drop_first() =~= fs.drop_first().push(f));
        lemma_encode_fields_push(fs.drop_first(), f);
        assert(encode_fields(fs.push(f)) =~= encode_field(fs[0]) + (encode_fields(fs.drop_first())
            + encode_field(f)));
    }
}

proof fn lemma_subrange_of_concat(b: Seq<u8>, pos: int, x: Seq<u8>, y: Seq<u8>)
    requires
        0 <= pos,
        pos + x.len() + y.len() <= b.len(),
        b.subrange(pos, pos + x.len() + y.len()) == x + y,
    ensures
        b.subrange(pos, pos + x.len()) == x,
        b.subrange(pos + x.len(), pos + x.len() + y.len()) == y,
{
    let whole = b.subrange(pos, pos + x.len() + y.len());
    assert(b.subrange(pos, pos + x.len()) =~= whole.subrange(0, x.len() as int));
    assert((x + y).subrange(0, x.len() as int) =~= x);
    assert(b.subrange(pos + x.len(), pos + x.len() + y.len()) =~= whole.subrange(
        x.len() as int,
        (x.len() + y.len()) as int,
    ));
    assert((x + y).subrange(x.len() as int, (x.len() + y.len()) as int) =~= y);
}

/// A field written at `pos` reads back as itself.
pub proof fn lemma_field_read(b: Seq<u8>, pos: int, f: WireField)
    requires
        field_ok(f),
        0 <= pos,
        pos + encode_field(f).len() <= b.len(),
        b.subrange(pos, pos + encode_field(f).len()) == encode_field(f),
    ensures
        field_at(b, pos) == Some((f, pos + encode_field(f).len())),
{
    let k = field_key(f);
    let kb = varint(k);
    let body = match f.val {
        WireValue::Varint(x) => varint(x),
        WireValue::Fixed64(c) => c,
        WireValue::Bytes(c) => varint(c.len() as u64) + c,
        WireValue::Fixed32(c) => c,
    };
    assert(encode_field(f) == kb + body);
    lemma_subrange_of_concat(b, pos, kb, body);
    lemma_varint_len(k);
    lemma_varint_read(b, pos, k, 10);
    let key_end = pos + kb.len();
    assert(k / 8 == f.num && k % 8 == wire_type(f.val));
    match f.val {
        WireValue::Varint(x) => {
            lemma_varint_len(x);
            lemma_varint_read(b, key_end, x, 10);
        },
        WireValue::Bytes(c) => {
            let n = c.len() as u64;
            lemma_subrange_of_concat(b, key_end, varint(n), c);
            lemma_varint_len(n);
            lemma_varint_read(b, key_end, n, 10);
        },
        WireValue::Fixed64(c) => {},
        WireValue::Fixed32(c) => {},
    }
}

/// Fields written one after the other read back as the same list.
pub proof fn lemma_fields_read(b: Seq<u8>, pos: int, fs: Seq<WireField>)
    requires
        fields_ok(fs),
        0 <= pos,
        pos + encode_fields(fs).len() == b.len(),
        b.subrange(pos, b.len() as int) == encode_fields(fs),
    ensures
        fields_at(b, pos) == Some(fs),
    decreases fs.len(),
{
    if fs.len() == 0 {
        assert(fs =~= Seq::<WireField>::empty());
    } else {
        let f = fs[0];
        let e = encode_field(f);
        let rest = encode_fields(fs.drop_first());
        assert(field_ok(f));
        lemma_subrange_of_concat(b, pos, e, rest);
        lemma_field_read(b, pos, f);
        lemma_varint_len(field_key(f));
        assert(fields_ok(fs.drop_first())) by {
            assert forall|i: int| 0 <= i < fs.drop_first().len() implies #[trigger] field_ok(
                fs.drop_first()[i],
            ) by {
                assert(field_ok(fs[i + 1]));
            }
        }
        lemma_fields_read(b, pos + e.len(), fs.drop_first());
        assert(seq![f] + fs.drop_first() =~= fs);
    }
}

/// Decoding the encoding of a well-formed field list gives the list back.
pub proof fn lemma_parse_encode_fields(fs: Seq<WireField>)
    requires
        fields_ok(fs),
    ensures
        parse_fields(encode_fields(fs)) == Some(fs),
{
    let b = encode_fields(fs);
    assert(b.subrange(0, b.len() as int) =~= b);
    lemma_fields_read(b, 0, fs);
}

/// An exec field: the number and the value.
pub enum FieldValue {
    Varint(u64),
    Fixed64(Vec<u8>),
    Bytes(Vec<u8>),
    Fixed32(Vec<u8>),
}

pub struct Field {
    pub num: u64,
    pub val: FieldValue,
}

impl View for Field {
    type V = WireField;

    open spec fn view(&self) -> WireField {
        WireField {
            num: self.num,
            val: match &self.val {
                FieldValue::Varint(x) => WireValue::Varint(*x),
                FieldValue::Fixed64(b) => WireValue::Fixed64(b@),
                FieldValue::Bytes(b) => WireValue::Bytes(b@),
                FieldValue::Fixed32(b) => WireValue::Fixed32(b@),
            },
        }
    }
}

pub open spec fn fields_view(v: Seq<Field>) -> Seq<WireField> {
    v.map_values(|f: Field| f@)
}

/// Reads the field at `pos`, as [`field_at`] specifies.
fn read_field(b: &[u8], pos: usize) -> (r: Option<(Field, usize)>)
    ensures
        match r {
            Some((f, e)) => field_at(b@, pos as int) == Some((f@, e as int)) && e <= b@.len(),
            None => field_at(b@, pos as int) is None,
        },
{
    let (key, key_end) = match read_varint_at(b, pos) {
        None => return None,
        Some(kp) => kp,
    };
    let num = key / 8;
    let wt = key % 8;
    if num == 0 {
        return None;
    }
    if wt == 0 {
        match read_varint_at(b, key_end) {
            Some((x, len_end)) => Some((Field { num, val: FieldValue::Varint(x) }, len_end)),
            None => None,
        }
    } else if wt == 2 {
        match read_varint_at(b, key_end) {
            Some((n, len_end)) => {
                if n > (b.len() - len_end) as u64 {
                    None
                } else {
                    let end = len_end + n as usize;
                    let bytes = slice_to_vec(slice_subrange(b, len_end, end));
                    Some((Field { num, val: FieldValue::Bytes(bytes) }, end))
                }
            },
            None => None,
        }
    } else if wt == 1 {
        if b.len() - key_end < 8 {
            None
        } else {
            let bytes = slice_to_vec(slice_subrange(b, key_end, key_end + 8));
            Some((Field { num, val: FieldValue::Fixed64(bytes) }, key_end + 8))
        }
    } else if wt == 5 {
        if b.len() - key_end < 4 {
            None
        } else {
            let bytes = slice_to_vec(slice_subrange(b, key_end, key_end + 4));
            Some((Field { num, val: FieldValue::Fixed32(bytes) }, key_end + 4))
        }
    } else {
        None
    }
}

/// Splits an encoded message into its fields, as [`parse_fields`] specifies.
pub fn read_fields(b: &[u8]) -> (r: Option<Vec<Field>>)
    ensures
        match r {
            Some(v) => parse_fields(b@) == Some(fields_view(v@)),
            None => parse_fields(b@) is None,
        },
{
    let mut out: Vec<Field> = Vec::new();
    let mut pos: usize = 0;
    while pos < b.len()
        invariant
            pos <= b@.len(),
            match fields_at(b@, pos as int) {
                Some(rest) => parse_fields(b@) == Some(fields_view(out@) + rest),
                None => parse_fields(b@) is None,
            },
        decreases b@.len() - pos,
    {
        let ghost old_view = fields_view(out@);
        match read_field(b, pos) {
            None => {
                return None;
            },
            Some((f, next)) => {
                if next <= pos {
                    return None;
                }
                proof {
                    match fields_at(b@, next as int) {
                        Some(rest) => {
                            assert(fields_at(b@, pos as int) == Some(seq![f@] + rest));
                            assert(old_view + (seq![f@] + rest) =~= old_view.push(f@) + rest);
                        },
                        None => {},
                    }
                }
                out.push(f);
                proof {
                    assert(fields_view(out@) =~= old_view.push(out@.last()@));
                }
                pos = next;
            },
        }
    }
    proof {
        assert(fields_view(out@) + Seq::<WireField>::empty() =~= fields_view(out@));
    }
    Some(out)
}


/// Every field has a valid number and is a varint or a byte string: the
/// shapes that the protocol's encoders write.
pub open spec fn fields_shape(fs: Seq<WireField>) -> bool {
    forall|i: int|
        0 <= i < fs.len() ==> field_num_ok(#[trigger] fs[i].num) && (fs[i].val is Varint
            || fs[i].val is Bytes)
}

/// A field's bytes lie within the bytes of the list.
pub proof fn lemma_field_within(fs: Seq<WireField>, i: int)
    requires
        0 <= i < fs.len(),
    ensures
        encode_field(fs[i]).len() <= encode_fields(fs).len(),
    decreases fs.len(),
{
    if i > 0 {
        lemma_field_within(fs.drop_first(), i - 1);
        assert(fs.drop_first()[i - 1] == fs[i]);
    }
}

/// A byte-string field is no longer than the whole list's encoding.
pub proof fn lemma_bytes_within(fs: Seq<WireField>, i: int)
    requires
        0 <= i < fs.len(),
        fs[i].val is Bytes,
    ensures
        fs[i].val->Bytes_0.len() <= encode_fields(fs).len(),
{
    lemma_field_within(fs, i);
}

/// Decoding an encoded field list of the protocol's shapes gives it back,
/// when the encoding's length fits in 64 bits.
pub proof fn lemma_decode_encoded(fs: Seq<WireField>)
    requires
        fields_shape(fs),
        encode_fields(fs).len() <= u64::MAX,
    ensures
        parse_fields(encode_fields(fs)) == Some(fs),
{
    assert forall|i: int| 0 <= i < fs.len() implies #[trigger] field_ok(fs[i]) by {
        if fs[i].val is Bytes {
            lemma_bytes_within(fs, i);
        }
    }
    lemma_parse_encode_fields(fs);
}

} // verus!
