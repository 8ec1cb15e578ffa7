//! The protobuf wire layer: base-128 varints, field keys, and the framing of
//! a message as a sequence of fields.
use vstd::prelude::*;

verus! {

/// The base-128 (LEB128) form of `v`: seven bits per byte, low bits first,
/// the high bit set on every byte but the last.
pub open spec fn varint(v: u64) -> Seq<u8>
    decreases v,
{
    if v < 128 {
        seq![v as u8]
    } else {
        seq![(v % 128 + 128) as u8] + varint(v / 128)
    }
}

/// No varint is a proper prefix of another, so a varint followed by anything
/// reads back as the same integer and the same rest.
pub proof fn lemma_varint_unique(a: u64, b: u64, s: Seq<u8>, t: Seq<u8>)
    requires
        varint(a) + s == varint(b) + t,
    ensures
        a == b,
        s == t,
    decreases a,
{
    let x = varint(a) + s;
    let y = varint(b) + t;
    assert(x[0] == y[0]);
    if a < 128 {
        assert(x[0] == a as u8);
        if b >= 128 {
            assert(y[0] == (b % 128 + 128) as u8);
        }
        assert(s =~= x.drop_first());
        assert(t =~= y.drop_first());
    } else {
        assert(x[0] == (a % 128 + 128) as u8);
        if b < 128 {
            assert(y[0] == b as u8);
        }
        assert(b >= 128);
        assert(y[0] == (b % 128 + 128) as u8);
        assert(a % 128 == b % 128);
        assert(varint(a / 128) + s =~= x.drop_first());
        assert(varint(b / 128) + t =~= y.drop_first());
        lemma_varint_unique(a / 128, b / 128, s, t);
    }
}

/// Relies on prost::encoding::encode_varint: it appends the base-128 form of
/// `v` to the buffer.
#[verifier::external_body]
pub(crate) fn put_varint(v: u64, buf: &mut Vec<u8>)
    ensures
        final(buf)@ == old(buf)@ + varint(v),
{
    prost::encoding::encode_varint(v, buf)
}

/// Relies on prost::encoding::decode_varint: it reads one base-128 integer
/// from `bytes[pos..]`, consumes at least one byte when it succeeds, and reads
/// any well-formed varint back as its integer. The second part of the result
/// is how many bytes are left after it.
#[verifier::external_body]
pub(crate) fn take_varint(bytes: &[u8], pos: usize) -> (r: Option<(u64, usize)>)
    requires
        pos <= bytes@.len(),
    ensures
        r matches Some((v, rest)) ==> rest < bytes@.len() - pos,
        forall|v: u64, tail: Seq<u8>|
            bytes@.subrange(pos as int, bytes@.len() as int) == #[trigger] (varint(v) + tail)
                ==> r == Some((v, tail.len() as usize)),
{
    let mut rest = &bytes[pos..];
    match prost::encoding::decode_varint(&mut rest) {
        Ok(v) => Some((v, rest.len())),
        Err(_) => None,
    }
}

/// Bytes that are not a well-formed encoding of the message asked for.
#[derive(Clone, Copy, Debug, PartialEq, Eq, Structural)]
pub struct DecodeError;

/// What a field carries, as the wire sees it.
pub enum Payload {
    /// Wire type 0: one varint.
    Varint(u64),
    /// Wire type 2: a length-prefixed run of bytes.
    Bytes(Vec<u8>),
    /// Wire types 1, 3 and 5 (fixed 64 bits, a group, fixed 32 bits): read
    /// over and not kept, as no message here has such a field.
    Skipped,
}

/// The mathematical value of a [`Payload`].
pub enum Value {
    Varint(u64),
    Bytes(Seq<u8>),
    Skipped,
}

impl View for Payload {
    type V = Value;

    open spec fn view(&self) -> Value {
        match self {
            Payload::Varint(v) => Value::Varint(*v),
            Payload::Bytes(b) => Value::Bytes(b@),
            Payload::Skipped => Value::Skipped,
        }
    }
}

/// One field of a message: its number and its payload.
pub struct Field {
    pub tag: u32,
    pub payload: Payload,
}

/// The mathematical value of a [`Field`].
pub struct FieldModel {
    pub tag: u32,
    pub value: Value,
}

impl View for Field {
    type V = FieldModel;

    open spec fn view(&self) -> FieldModel {
        FieldModel { tag: self.tag, value: self.payload@ }
    }
}

/// The models of a list of fields.
pub open spec fn models(v: Seq<Field>) -> Seq<FieldModel> {
    Seq::new(v.len(), |i: int| v[i]@)
}

/// The largest field number plus one: a key must fit in 32 bits.
pub const TAG_LIMIT: u32 = 0x2000_0000;

/// A field that can stand on the wire: its number is in range and a byte
/// payload's length fits in a varint.
pub open spec fn field_ok(f: FieldModel) -> bool {
    &&& 1 <= f.tag < TAG_LIMIT
    &&& f.value matches Value::Bytes(b) ==> b.len() <= u64::MAX
    &&& !(f.value is Skipped)
}

pub open spec fn fields_ok(fs: Seq<FieldModel>) -> bool {
    forall|i: int| 0 <= i < fs.len() ==> field_ok(#[trigger] fs[i])
}

/// The wire type of a value.
pub open spec fn wire_type(v: Value) -> u64 {
    match v {
        Value::Varint(_) => 0,
        Value::Bytes(_) => 2,
        Value::Skipped => 1,
    }
}

/// The key that opens a field: its number and its wire type.
pub open spec fn key(f: FieldModel) -> u64 {
    (f.tag * 8 + wire_type(f.value)) as u64
}

/// The bytes of a payload after the key.
pub open spec fn value_wire(v: Value) -> Seq<u8> {
    match v {
        Value::Varint(x) => varint(x),
        Value::Bytes(b) => varint(b.len() as u64) + b,
        Value::Skipped => seq![],
    }
}

/// The bytes of one field.
pub open spec fn field_wire(f: FieldModel) -> Seq<u8> {
    varint(key(f)) + value_wire(f.value)
}

/// The bytes of a list of fields, one after another.
pub open spec fn fields_wire(fs: Seq<FieldModel>) -> Seq<u8>
    decreases fs.len(),
{
    if fs.len() == 0 {
        Seq::empty()
    } else {
        field_wire(fs[0]) + fields_wire(fs.drop_first())
    }
}

proof fn lemma_key_parts(f: FieldModel)
    requires
        field_ok(f),
    ensures
        key(f) / 8 == f.tag as u64,
        key(f) % 8 == wire_type(f.value),
        key(f) <= u32::MAX,
{
    let t = f.tag as int;
    let w = wire_type(f.value) as int;
    assert((t * 8 + w) / 8 == t && (t * 8 + w) % 8 == w && t * 8 + w < 0x1_0000_0000)
        by (nonlinear_arith)
        requires
            0 <= w < 8,
            1 <= t < 0x2000_0000,
    ;
}

/// A field's bytes followed by anything read back as the same field and the
/// same rest.
pub proof fn lemma_field_unique(f: FieldModel, g: FieldModel, s: Seq<u8>, t: Seq<u8>)
    requires
        field_ok(f),
        field_ok(g),
        field_wire(f) + s == field_wire(g) + t,
    ensures
        f == g,
        s == t,
{
    assert(field_wire(f) + s =~= varint(key(f)) + (value_wire(f.value) + s));
    assert(field_wire(g) + t =~= varint(key(g)) + (value_wire(g.value) + t));
    lemma_varint_unique(key(f), key(g), value_wire(f.value) + s, value_wire(g.value) + t);
    lemma_key_parts(f);
    lemma_key_parts(g);
    match (f.value, g.value) {
        (Value::Varint(x), Value::Varint(y)) => {
            lemma_varint_unique(x, y, s, t);
        },
        (Value::Bytes(b), Value::Bytes(c)) => {
            assert(value_wire(f.value) + s =~= varint(b.len() as u64) + (b + s));
            assert(value_wire(g.value) + t =~= varint(c.len() as u64) + (c + t));
            lemma_varint_unique(b.len() as u64, c.len() as u64, b + s, c + t);
            assert(b =~= (b + s).subrange(0, b.len() as int));
            assert(c =~= (c + t).subrange(0, c.len() as int));
            assert(s =~= (b + s).subrange(b.len() as int, (b + s).len() as int));
            assert(t =~= (c + t).subrange(c.len() as int, (c + t).len() as int));
        },
        _ => {},
    }
}

/// Distinct lists of fields have distinct bytes.
pub proof fn lemma_fields_unique(a: Seq<FieldModel>, b: Seq<FieldModel>)
    requires
        fields_ok(a),
        fields_ok(b),
        fields_wire(a) == fields_wire(b),
    ensures
        a == b,
    decreases a.len(),
{
    if a.len() == 0 {
        if b.len() > 0 {
            assert(fields_wire(b).len() > 0);
        }
        assert(a =~= b);
    } else {
        if b.len() == 0 {
            assert(fields_wire(a).len() > 0);
        }
        assert(field_ok(a[0]) && field_ok(b[0]));
        lemma_field_unique(a[0], b[0], fields_wire(a.drop_first()), fields_wire(b.drop_first()));
        assert(fields_ok(a.drop_first()));
        assert(fields_ok(b.drop_first()));
        lemma_fields_unique(a.drop_first(), b.drop_first());
        assert(a =~= seq![a[0]] + a.drop_first());
        assert(b =~= seq![b[0]] + b.drop_first());
    }
}

/// The bytes of two lists of fields are the bytes of each, one after the
/// other.
pub proof fn lemma_fields_wire_concat(a: Seq<FieldModel>, b: Seq<FieldModel>)
    ensures
        fields_wire(a + b) == fields_wire(a) + fields_wire(b),
    decreases a.len(),
{
    if a.len() == 0 {
        assert(a + b =~= b);
        assert(fields_wire(a) + fields_wire(b) =~= fields_wire(b));
    } else {
        assert((a + b).drop_first() =~= a.drop_first() + b);
        lemma_fields_wire_concat(a.drop_first(), b);
        assert(fields_wire(a + b) =~= fields_wire(a) + fields_wire(b));
    }
}

/// Where `bytes[pos..]` is `a` then `b`, `a` stands at `pos` and `b` after it.
proof fn lemma_after(bytes: Seq<u8>, pos: int, a: Seq<u8>, b: Seq<u8>)
    requires
        0 <= pos <= bytes.len(),
        bytes.subrange(pos, bytes.len() as int) == a + b,
    ensures
        pos + a.len() <= bytes.len(),
        bytes.subrange(pos, pos + a.len()) == a,
        bytes.subrange(pos + a.len(), bytes.len() as int) == b,
{
    assert(bytes.subrange(pos + a.len(), bytes.len() as int) =~= (a + b).subrange(
        a.len() as int,
        (a + b).len() as int,
    ));
    assert(bytes.subrange(pos, pos + a.len()) =~= (a + b).subrange(0, a.len() as int));
}

/// A copy of `bytes[start..end]`.
pub(crate) fn copy_range(bytes: &[u8], start: usize, end: usize) -> (r: Vec<u8>)
    requires
        start <= end <= bytes@.len(),
    ensures
        r@ == bytes@.subrange(start as int, end as int),
{
    let mut out: Vec<u8> = Vec::new();
    let mut i: usize = start;
    while i < end
        invariant
            start <= i <= end,
            end <= bytes@.len(),
            out@ == bytes@.subrange(start as int, i as int),
        decreases end - i,
    {
        out.push(bytes[i]);
        i = i + 1;
        assert(out@ =~= bytes@.subrange(start as int, i as int));
    }
    out
}

/// Reads over the rest of a group numbered `tag` that starts before `pos`,
/// nested groups included, and gives the position after its end key.
fn skip_group(bytes: &[u8], pos: usize, tag: u32) -> (r: Option<usize>)
    requires
        pos <= bytes@.len(),
    ensures
        r matches Some(p) ==> pos <= p <= bytes@.len(),
{
    let len = bytes.len();
    let mut open: Vec<u32> = vec![tag];
    let mut at: usize = pos;
    while open.len() > 0
        invariant
            len == bytes@.len(),
            pos <= at <= len,
        decreases len - at,
    {
        let (k, rest) = match take_varint(bytes, at) {
            Some(x) => x,
            None => return None,
        };
        let next = len - rest;
        if k > 0xffff_ffff {
            return None;
        }
        let t = (k / 8) as u32;
        if t == 0 {
            return None;
        }
        let wt = k % 8;
        if wt == 0 {
            match take_varint(bytes, next) {
                Some((_, r2)) => {
                    at = len - r2;
                },
                None => return None,
            }
        } else if wt == 1 {
            if rest < 8 {
                return None;
            }
            at = next + 8;
        } else if wt == 2 {
            let (n, r2) = match take_varint(bytes, next) {
                Some(x) => x,
                None => return None,
            };
            if n > r2 as u64 {
                return None;
            }
            at = len - r2 + n as usize;
        } else if wt == 3 {
            open.push(t);
            at = next;
        } else if wt == 4 {
            if open[open.len() - 1] != t {
                return None;
            }
            open.pop();
            at = next;
        } else if wt == 5 {
            if rest < 4 {
                return None;
            }
            at = next + 4;
        } else {
            return None;
        }
    }
    Some(at)
}

/// Splits the bytes of a message into its fields, in the order in which they
/// stand. Fields of the fixed-width and group wire types are read over and
/// kept as skipped; anything else that is not a well-formed field fails. Bytes written from a
/// list of fields read back as that list.
pub fn decode_fields(bytes: &[u8]) -> (r: Option<Vec<Field>>)
    ensures
        forall|fs: Seq<FieldModel>|
            fields_ok(fs) && #[trigger] fields_wire(fs) == bytes@ ==> (r matches Some(v) && models(
                v@,
            ) == fs),
{
    let ghost has = exists|fs: Seq<FieldModel>| fields_ok(fs) && fields_wire(fs) == bytes@;
    let ghost target = choose|fs: Seq<FieldModel>| fields_ok(fs) && fields_wire(fs) == bytes@;
    let ghost mut k: int = 0;
    let mut out: Vec<Field> = Vec::new();
    let mut pos: usize = 0;
    let len = bytes.len();
    proof {
        assert(target.skip(0) =~= target);
        assert(bytes@.subrange(0, len as int) =~= bytes@);
        assert(models(out@) =~= target.take(0));
    }
    while pos < len
        invariant
            len == bytes@.len(),
            pos <= len,
            has == exists|fs: Seq<FieldModel>| fields_ok(fs) && fields_wire(fs) == bytes@,
            has ==> fields_ok(target) && fields_wire(target) == bytes@,
            has ==> 0 <= k <= target.len() && models(out@) == target.take(k) && bytes@.subrange(
                pos as int,
                len as int,
            ) == fields_wire(target.skip(k)),
        decreases len - pos,
    {
        let ghost f = target[k];
        let ghost tail = fields_wire(target.skip(k + 1));
        proof {
            if has {
                if k == target.len() {
                    assert(target.skip(k).len() == 0);
                    assert(bytes@.subrange(pos as int, len as int).len() > 0);
                }
                assert(target.skip(k).drop_first() =~= target.skip(k + 1));
                assert(fields_wire(target.skip(k)) =~= varint(key(f)) + (value_wire(f.value)
                    + tail));
                assert(field_ok(f));
                lemma_key_parts(f);
                assert(bytes@.subrange(pos as int, bytes@.len() as int) == varint(key(f)) + (
                value_wire(f.value) + tail));
            }
        }
        let (k0, rest) = match take_varint(bytes, pos) {
            Some(x) => x,
            None => return None,
        };
        let next = len - rest;
        proof {
            if has {
                lemma_after(bytes@, pos as int, varint(key(f)), value_wire(f.value) + tail);
            }
        }
        if k0 > 0xffff_ffff {
            return None;
        }
        let tag = (k0 / 8) as u32;
        if tag == 0 {
            return None;
        }
        let wt = k0 % 8;
        if wt == 0 {
            let (v, rest2) = match take_varint(bytes, next) {
                Some(x) => x,
                None => return None,
            };
            proof {
                if has {
                    if let Value::Varint(x) = f.value {
                        lemma_after(bytes@, next as int, varint(x), tail);
                    }
                }
            }
            out.push(Field { tag, payload: Payload::Varint(v) });
            pos = len - rest2;
            proof {
                if has {
                    k = k + 1;
                    assert(models(out@) =~= target.take(k));
                }
            }
        } else if wt == 2 {
            proof {
                if has {
                    if let Value::Bytes(b) = f.value {
                        assert(value_wire(f.value) + tail =~= varint(b.len() as u64) + (b + tail));
                        assert(bytes@.subrange(next as int, bytes@.len() as int) == varint(
                            b.len() as u64,
                        ) + (b + tail));
                    }
                }
            }
            let (n, rest2) = match take_varint(bytes, next) {
                Some(x) => x,
                None => return None,
            };
            let start = len - rest2;
            if n > rest2 as u64 {
                return None;
            }
            let end = start + n as usize;
            proof {
                if has {
                    if let Value::Bytes(b) = f.value {
                        assert(value_wire(f.value) + tail =~= varint(b.len() as u64) + (b + tail));
                        lemma_after(bytes@, next as int, varint(b.len() as u64), b + tail);
                        lemma_after(bytes@, start as int, b, tail);
                    }
                }
            }
            let data = copy_range(bytes, start, end);
            out.push(Field { tag, payload: Payload::Bytes(data) });
            pos = end;
            proof {
                if has {
                    k = k + 1;
                    assert(models(out@) =~= target.take(k));
                }
            }
        } else if wt == 1 {
            if rest < 8 {
                return None;
            }
            out.push(Field { tag, payload: Payload::Skipped });
            pos = next + 8;
        } else if wt == 5 {
            if rest < 4 {
                return None;
            }
            out.push(Field { tag, payload: Payload::Skipped });
            pos = next + 4;
        } else if wt == 3 {
            match skip_group(bytes, next, tag) {
                Some(p) => {
                    out.push(Field { tag, payload: Payload::Skipped });
                    pos = p;
                },
                None => return None,
            }
        } else {
            return None;
        }
    }
    proof {
        if has {
            if k < target.len() {
                assert(target.skip(k).drop_first() =~= target.skip(k + 1));
                assert(fields_wire(target.skip(k)).len() > 0);
            }
            assert(target.take(k) =~= target);
        }
        assert forall|fs: Seq<FieldModel>|
            fields_ok(fs) && #[trigger] fields_wire(fs) == bytes@ implies models(out@) == fs by {
            lemma_fields_unique(fs, target);
        }
    }
    Some(out)
}

/// Appends the bytes of `data` to `buf`.
fn append(buf: &mut Vec<u8>, data: &[u8])
    ensures
        final(buf)@ == old(buf)@ + data@,
{
    let mut i: usize = 0;
    while i < data.len()
        invariant
            0 <= i <= data@.len(),
            buf@ == old(buf)@ + data@.subrange(0, i as int),
        decreases data@.len() - i,
    {
        buf.push(data[i]);
        i = i + 1;
        assert(buf@ =~= old(buf)@ + data@.subrange(0, i as int));
    }
    assert(data@.subrange(0, i as int) =~= data@);
}

/// Appends a varint field.
pub fn put_varint_field(buf: &mut Vec<u8>, tag: u32, v: u64)
    requires
        1 <= tag < TAG_LIMIT,
    ensures
        final(buf)@ == old(buf)@ + field_wire(FieldModel { tag, value: Value::Varint(v) }),
{
    put_varint(tag as u64 * 8, buf);
    put_varint(v, buf);
    assert(final(buf)@ =~= old(buf)@ + field_wire(FieldModel { tag, value: Value::Varint(v) }));
}

/// Appends a length-delimited field.
pub fn put_bytes_field(buf: &mut Vec<u8>, tag: u32, data: &[u8])
    requires
        1 <= tag < TAG_LIMIT,
    ensures
        final(buf)@ == old(buf)@ + field_wire(FieldModel { tag, value: Value::Bytes(data@) }),
{
    put_varint(tag as u64 * 8 + 2, buf);
    put_varint(data.len() as u64, buf);
    append(buf, data);
    assert(final(buf)@ =~= old(buf)@ + field_wire(FieldModel { tag, value: Value::Bytes(data@) }));
}

/// The values of the fields numbered `tag`, in order.
pub open spec fn select(fs: Seq<FieldModel>, tag: u32) -> Seq<Value>
    decreases fs.len(),
{
    if fs.len() == 0 {
        Seq::empty()
    } else if fs.last().tag == tag {
        select(fs.drop_last(), tag).push(fs.last().value)
    } else {
        select(fs.drop_last(), tag)
    }
}

/// Selecting from two lists is selecting from each.
pub proof fn lemma_select_concat(a: Seq<FieldModel>, b: Seq<FieldModel>, tag: u32)
    ensures
        select(a + b, tag) == select(a, tag) + select(b, tag),
    decreases b.len(),
{
    if b.len() == 0 {
        assert(a + b =~= a);
        assert(select(a, tag) + select(b, tag) =~= select(a, tag));
    } else {
        assert((a + b).drop_last() =~= a + b.drop_last());
        lemma_select_concat(a, b.drop_last(), tag);
        assert(select(a + b, tag) =~= select(a, tag) + select(b, tag));
    }
}

pub open spec fn all_varints(vs: Seq<Value>) -> bool {
    forall|i: int| 0 <= i < vs.len() ==> #[trigger] vs[i] is Varint
}

pub open spec fn all_bytes(vs: Seq<Value>) -> bool {
    forall|i: int| 0 <= i < vs.len() ==> #[trigger] vs[i] is Bytes
}

/// The last varint, or zero where there is none: a scalar field that occurs
/// more than once takes its last value.
pub open spec fn last_varint(vs: Seq<Value>) -> u64 {
    if vs.len() == 0 {
        0
    } else {
        vs.last()->Varint_0
    }
}

/// The last run of bytes, or none.
pub open spec fn last_bytes(vs: Seq<Value>) -> Seq<u8> {
    if vs.len() == 0 {
        Seq::empty()
    } else {
        vs.last()->Bytes_0
    }
}

/// All runs of bytes joined: a nested message that occurs more than once is
/// the merge of its occurrences, which is the message read from them joined.
pub open spec fn joined(vs: Seq<Value>) -> Seq<u8>
    decreases vs.len(),
{
    if vs.len() == 0 {
        Seq::empty()
    } else {
        joined(vs.drop_last()) + vs.last()->Bytes_0
    }
}

/// Each run of bytes, in order.
pub open spec fn runs(vs: Seq<Value>) -> Seq<Seq<u8>> {
    Seq::new(vs.len(), |i: int| vs[i]->Bytes_0)
}

proof fn lemma_select_step(fs: Seq<Field>, i: int, tag: u32)
    requires
        0 <= i < fs.len(),
    ensures
        select(models(fs).take(i + 1), tag) == if fs[i].tag == tag {
            select(models(fs).take(i), tag).push(fs[i]@.value)
        } else {
            select(models(fs).take(i), tag)
        },
{
    assert(models(fs).take(i + 1).drop_last() =~= models(fs).take(i));
}

/// The value of a varint field: its last occurrence, or zero. Fails where a
/// field of that number is not a varint.
pub fn get_varint(fs: &Vec<Field>, tag: u32) -> (r: Option<u64>)
    ensures
        r == (if all_varints(select(models(fs@), tag)) {
            Some(last_varint(select(models(fs@), tag)))
        } else {
            None
        }),
{
    let mut cur: u64 = 0;
    let mut i: usize = 0;
    while i < fs.len()
        invariant
            0 <= i <= fs@.len(),
            all_varints(select(models(fs@).take(i as int), tag)),
            cur == last_varint(select(models(fs@).take(i as int), tag)),
        decreases fs@.len() - i,
    {
        proof {
            lemma_select_step(fs@, i as int, tag);
        }
        if fs[i].tag == tag {
            match &fs[i].payload {
                Payload::Varint(v) => {
                    cur = *v;
                },
                _ => {
                    proof {
                        let vs = select(models(fs@), tag);
                        lemma_select_prefix(fs@, i as int, tag);
                        assert(!(vs[select(models(fs@).take(i as int), tag).len() as int] is Varint));
                    }
                    return None;
                },
            }
        }
        i = i + 1;
    }
    proof {
        assert(models(fs@).take(i as int) =~= models(fs@));
    }
    Some(cur)
}

/// What is selected from a prefix is a prefix of what is selected from the
/// whole.
proof fn lemma_select_prefix(fs: Seq<Field>, i: int, tag: u32)
    requires
        0 <= i < fs.len(),
        fs[i].tag == tag,
    ensures
        select(models(fs), tag).len() > select(models(fs).take(i), tag).len(),
        select(models(fs), tag)[select(models(fs).take(i), tag).len() as int] == fs[i]@.value,
{
    let m = models(fs);
    assert(m =~= m.take(i) + (seq![m[i]] + m.skip(i + 1)));
    lemma_select_concat(m.take(i), seq![m[i]] + m.skip(i + 1), tag);
    lemma_select_concat(seq![m[i]], m.skip(i + 1), tag);
    assert(seq![m[i]].drop_last() =~= Seq::<FieldModel>::empty());
    assert(m[i] == fs[i]@);
    assert(seq![m[i]].last() == m[i]);
    assert(select(Seq::<FieldModel>::empty(), tag) =~= Seq::<Value>::empty());
    assert(select(seq![m[i]], tag) =~= seq![fs[i]@.value]);
}

/// A copy of a run of bytes.
pub(crate) fn copy_bytes(b: &Vec<u8>) -> (r: Vec<u8>)
    ensures
        r@ == b@,
{
    let r = copy_range(b.as_slice(), 0, b.len());
    assert(r@ =~= b@);
    r
}

/// The value of a length-delimited scalar field: its last occurrence, or no
/// bytes. Fails where a field of that number is not length-delimited.
pub fn get_bytes(fs: &Vec<Field>, tag: u32) -> (r: Option<Vec<u8>>)
    ensures
        r is Some <==> all_bytes(select(models(fs@), tag)),
        r matches Some(b) ==> b@ == last_bytes(select(models(fs@), tag)),
{
    let mut cur: Vec<u8> = Vec::new();
    let mut i: usize = 0;
    while i < fs.len()
        invariant
            0 <= i <= fs@.len(),
            all_bytes(select(models(fs@).take(i as int), tag)),
            cur@ == last_bytes(select(models(fs@).take(i as int), tag)),
        decreases fs@.len() - i,
    {
        proof {
            lemma_select_step(fs@, i as int, tag);
        }
        if fs[i].tag == tag {
            match &fs[i].payload {
                Payload::Bytes(b) => {
                    cur = copy_bytes(b);
                },
                _ => {
                    proof {
                        let vs = select(models(fs@), tag);
                        lemma_select_prefix(fs@, i as int, tag);
                        assert(!(vs[select(models(fs@).take(i as int), tag).len() as int] is Bytes));
                    }
                    return None;
                },
            }
        }
        i = i + 1;
    }
    proof {
        assert(models(fs@).take(i as int) =~= models(fs@));
    }
    Some(cur)
}

/// The bytes of a nested message field: all its occurrences joined, or
/// `None` where it does not occur. Fails where a field of that number is not
/// length-delimited.
pub fn get_joined(fs: &Vec<Field>, tag: u32) -> (r: Option<Option<Vec<u8>>>)
    ensures
        r is Some <==> all_bytes(select(models(fs@), tag)),
        r matches Some(o) ==> (o is Some <==> select(models(fs@), tag).len() > 0),
        r matches Some(Some(b)) ==> b@ == joined(select(models(fs@), tag)),
{
    let mut cur: Vec<u8> = Vec::new();
    let mut seen = false;
    let mut i: usize = 0;
    while i < fs.len()
        invariant
            0 <= i <= fs@.len(),
            all_bytes(select(models(fs@).take(i as int), tag)),
            cur@ == joined(select(models(fs@).take(i as int), tag)),
            seen == (select(models(fs@).take(i as int), tag).len() > 0),
        decreases fs@.len() - i,
    {
        proof {
            lemma_select_step(fs@, i as int, tag);
        }
        if fs[i].tag == tag {
            match &fs[i].payload {
                Payload::Bytes(b) => {
                    append(&mut cur, b.as_slice());
                    seen = true;
                    proof {
                        let vs = select(models(fs@).take(i + 1), tag);
                        assert(vs.drop_last() =~= select(models(fs@).take(i as int), tag));
                    }
                },
                _ => {
                    proof {
                        let vs = select(models(fs@), tag);
                        lemma_select_prefix(fs@, i as int, tag);
                        assert(!(vs[select(models(fs@).take(i as int), tag).len() as int] is Bytes));
                    }
                    return None;
                },
            }
        }
        i = i + 1;
    }
    proof {
        assert(models(fs@).take(i as int) =~= models(fs@));
    }
    if seen {
        Some(Some(cur))
    } else {
        Some(None)
    }
}

/// The occurrences of a repeated length-delimited field, in order. Fails
/// where a field of that number is not length-delimited.
pub fn get_runs(fs: &Vec<Field>, tag: u32) -> (r: Option<Vec<Vec<u8>>>)
    ensures
        r is Some <==> all_bytes(select(models(fs@), tag)),
        r matches Some(v) ==> v@.len() == select(models(fs@), tag).len() && (forall|j: int|
            0 <= j < v@.len() ==> #[trigger] v@[j]@ == runs(select(models(fs@), tag))[j]),
{
    let mut out: Vec<Vec<u8>> = Vec::new();
    let mut i: usize = 0;
    while i < fs.len()
        invariant
            0 <= i <= fs@.len(),
            all_bytes(select(models(fs@).take(i as int), tag)),
            out@.len() == select(models(fs@).take(i as int), tag).len(),
            forall|j: int|
                0 <= j < out@.len() ==> #[trigger] out@[j]@ == runs(
                    select(models(fs@).take(i as int), tag),
                )[j],
        decreases fs@.len() - i,
    {
        proof {
            lemma_select_step(fs@, i as int, tag);
        }
        if fs[i].tag == tag {
            match &fs[i].payload {
                Payload::Bytes(b) => {
                    let c = copy_bytes(b);
                    out.push(c);
                },
                _ => {
                    proof {
                        let vs = select(models(fs@), tag);
                        lemma_select_prefix(fs@, i as int, tag);
                        assert(!(vs[select(models(fs@).take(i as int), tag).len() as int] is Bytes));
                    }
                    return None;
                },
            }
        }
        i = i + 1;
    }
    proof {
        assert(models(fs@).take(i as int) =~= models(fs@));
    }
    Some(out)
}

/// Fields that all carry number `tag`, one for each value.
pub open spec fn uniform(tag: u32, vs: Seq<Value>) -> Seq<FieldModel> {
    Seq::new(vs.len(), |i: int| FieldModel { tag, value: vs[i] })
}

/// Selecting from fields of one number gives their values or nothing.
pub proof fn lemma_select_uniform(tag: u32, vs: Seq<Value>, t: u32)
    ensures
        select(uniform(tag, vs), t) == (if tag == t {
            vs
        } else {
            Seq::<Value>::empty()
        }),
    decreases vs.len(),
{
    if vs.len() > 0 {
        assert(uniform(tag, vs).drop_last() =~= uniform(tag, vs.drop_last()));
        lemma_select_uniform(tag, vs.drop_last(), t);
        if tag == t {
            assert(vs.drop_last().push(vs.last()) =~= vs);
        }
    } else {
        assert(select(uniform(tag, vs), t) =~= Seq::<Value>::empty());
        assert(vs =~= Seq::<Value>::empty());
    }
}

/// Fields whose numbers are in range and whose bytes fit in memory can stand
/// on the wire.
pub proof fn lemma_fields_ok(fs: Seq<FieldModel>)
    requires
        tags_ok(fs),
        fields_wire(fs).len() <= u64::MAX,
    ensures
        fields_ok(fs),
    decreases fs.len(),
{
    if fs.len() > 0 {
        let f = fs[0];
        assert(forall|i: int| 0 <= i < fs.drop_first().len() ==> fs.drop_first()[i] == fs[i + 1]);
        lemma_fields_ok(fs.drop_first());
        if let Value::Bytes(b) = f.value {
            assert(field_wire(f).len() >= b.len());
        }
        assert forall|i: int| 0 <= i < fs.len() implies field_ok(#[trigger] fs[i]) by {
            if i > 0 {
                assert(fs[i] == fs.drop_first()[i - 1]);
            }
        }
    }
}

/// The varint that carries a 32-bit signed integer: its sign-extended 64-bit
/// two's complement.
pub open spec fn i32_bits(x: i32) -> u64 {
    if x >= 0 {
        x as u64
    } else {
        (x + 0x1_0000_0000_0000_0000) as u64
    }
}

/// The 32-bit signed integer read from a varint: its low 32 bits.
pub open spec fn bits_i32(v: u64) -> i32 {
    let lo = v % 0x1_0000_0000;
    if lo < 0x8000_0000 {
        lo as i32
    } else {
        (lo - 0x1_0000_0000) as i32
    }
}

/// The varint that carries a 64-bit signed integer: its two's complement.
pub open spec fn i64_bits(x: i64) -> u64 {
    if x >= 0 {
        x as u64
    } else {
        (x + 0x1_0000_0000_0000_0000) as u64
    }
}

/// The 64-bit signed integer read from a varint.
pub open spec fn bits_i64(v: u64) -> i64 {
    if v < 0x8000_0000_0000_0000 {
        v as i64
    } else {
        (v - 0x1_0000_0000_0000_0000) as i64
    }
}

pub proof fn lemma_int_bits(x: i32, y: i64)
    ensures
        bits_i32(i32_bits(x)) == x,
        bits_i64(i64_bits(y)) == y,
        i32_bits(0) == 0,
        i64_bits(0) == 0,
{
    let v = i32_bits(x);
    if x < 0 {
        assert(v % 0x1_0000_0000 == x + 0x1_0000_0000) by {
            assert(v == x + 0x1_0000_0000_0000_0000);
            assert(0x1_0000_0000_0000_0000 == 0x1_0000_0000 * 0x1_0000_0000);
            vstd::arithmetic::div_mod::lemma_mod_multiples_vanish(
                0x1_0000_0000,
                x + 0x1_0000_0000,
                0x1_0000_0000,
            );
            vstd::arithmetic::div_mod::lemma_small_mod(
                (x + 0x1_0000_0000) as nat,
                0x1_0000_0000,
            );
        }
    } else {
        vstd::arithmetic::div_mod::lemma_small_mod(x as nat, 0x1_0000_0000);
    }
}

pub fn i32_to_bits(x: i32) -> (r: u64)
    ensures
        r == i32_bits(x),
{
    if x >= 0 {
        x as u64
    } else {
        u64::MAX - ((-1 - x as i64) as u64)
    }
}

pub fn bits_to_i32(v: u64) -> (r: i32)
    ensures
        r == bits_i32(v),
{
    let lo = v % 0x1_0000_0000;
    if lo < 0x8000_0000 {
        lo as i32
    } else {
        (lo as i64 - 0x1_0000_0000) as i32
    }
}

pub fn i64_to_bits(x: i64) -> (r: u64)
    ensures
        r == i64_bits(x),
{
    if x >= 0 {
        x as u64
    } else {
        u64::MAX - ((-1 - x) as u64)
    }
}

pub fn bits_to_i64(v: u64) -> (r: i64)
    ensures
        r == bits_i64(v),
{
    if v < 0x8000_0000_0000_0000 {
        v as i64
    } else {
        -((u64::MAX - v) as i64) - 1
    }
}

/// The values of a scalar varint field: none where it holds zero.
pub open spec fn varint_values(v: u64) -> Seq<Value> {
    if v == 0 {
        seq![]
    } else {
        seq![Value::Varint(v)]
    }
}

/// The values of a scalar length-delimited field: none where it is empty.
pub open spec fn bytes_values(b: Seq<u8>) -> Seq<Value> {
    if b.len() == 0 {
        seq![]
    } else {
        seq![Value::Bytes(b)]
    }
}

/// The values of a nested message field: one where it is set.
pub open spec fn message_values(b: Option<Seq<u8>>) -> Seq<Value> {
    match b {
        Some(w) => seq![Value::Bytes(w)],
        None => seq![],
    }
}

/// The values of a repeated nested message field: one per element.
pub open spec fn repeated_values(ws: Seq<Seq<u8>>) -> Seq<Value> {
    Seq::new(ws.len(), |i: int| Value::Bytes(ws[i]))
}

/// Every field number in range, and no field skipped.
pub open spec fn tags_ok(fs: Seq<FieldModel>) -> bool {
    forall|i: int| 0 <= i < fs.len() ==> 1 <= #[trigger] fs[i].tag < TAG_LIMIT && !(fs[i].value is Skipped)
}

pub proof fn lemma_tags_concat(a: Seq<FieldModel>, b: Seq<FieldModel>)
    requires
        tags_ok(a),
        tags_ok(b),
    ensures
        tags_ok(a + b),
{
    assert forall|i: int| 0 <= i < (a + b).len() implies 1 <= #[trigger] (a + b)[i].tag < TAG_LIMIT
        && !((a + b)[i].value is Skipped) by {
        if i >= a.len() {
            assert((a + b)[i] == b[i - a.len()]);
        }
    }
}

/// What the getters read from the values of each kind of field.
pub proof fn lemma_values(v: u64, b: Seq<u8>, w: Option<Seq<u8>>, ws: Seq<Seq<u8>>)
    ensures
        all_varints(varint_values(v)),
        last_varint(varint_values(v)) == v,
        all_bytes(bytes_values(b)),
        last_bytes(bytes_values(b)) == b,
        all_bytes(message_values(w)),
        message_values(w).len() > 0 <==> w is Some,
        w matches Some(x) ==> joined(message_values(w)) == x,
        all_bytes(repeated_values(ws)),
        runs(repeated_values(ws)) == ws,
{
    if let Some(x) = w {
        let vs = message_values(w);
        assert(vs.drop_last() =~= Seq::<Value>::empty());
        assert(joined(vs.drop_last()) =~= Seq::<u8>::empty());
        assert(joined(vs) =~= x);
    }
    assert(runs(repeated_values(ws)) =~= ws);
}

/// Appends a varint field, left out where it holds zero.
pub fn put_varint_scalar(buf: &mut Vec<u8>, tag: u32, v: u64)
    requires
        1 <= tag < TAG_LIMIT,
    ensures
        final(buf)@ == old(buf)@ + fields_wire(uniform(tag, varint_values(v))),
{
    let ghost vs = varint_values(v);
    if v != 0 {
        put_varint_field(buf, tag, v);
        assert(uniform(tag, vs) =~= seq![FieldModel { tag, value: Value::Varint(v) }]);
        assert(uniform(tag, vs).drop_first() =~= Seq::<FieldModel>::empty());
        assert(fields_wire(uniform(tag, vs).drop_first()) =~= Seq::<u8>::empty());
        assert(buf@ =~= old(buf)@ + fields_wire(uniform(tag, vs)));
    } else {
        assert(uniform(tag, vs) =~= Seq::<FieldModel>::empty());
        assert(fields_wire(uniform(tag, vs)) =~= Seq::<u8>::empty());
        assert(buf@ =~= old(buf)@ + fields_wire(uniform(tag, vs)));
    }
}

/// Appends a length-delimited field, left out where it is empty.
pub fn put_bytes_scalar(buf: &mut Vec<u8>, tag: u32, data: &[u8])
    requires
        1 <= tag < TAG_LIMIT,
    ensures
        final(buf)@ == old(buf)@ + fields_wire(uniform(tag, bytes_values(data@))),
{
    let ghost vs = bytes_values(data@);
    if data.len() != 0 {
        put_bytes_field(buf, tag, data);
        assert(uniform(tag, vs) =~= seq![FieldModel { tag, value: Value::Bytes(data@) }]);
        assert(uniform(tag, vs).drop_first() =~= Seq::<FieldModel>::empty());
        assert(fields_wire(uniform(tag, vs).drop_first()) =~= Seq::<u8>::empty());
        assert(buf@ =~= old(buf)@ + fields_wire(uniform(tag, vs)));
    } else {
        assert(uniform(tag, vs) =~= Seq::<FieldModel>::empty());
        assert(fields_wire(uniform(tag, vs)) =~= Seq::<u8>::empty());
        assert(buf@ =~= old(buf)@ + fields_wire(uniform(tag, vs)));
    }
}

/// Appends a nested message field that is set.
pub fn put_message(buf: &mut Vec<u8>, tag: u32, data: &[u8])
    requires
        1 <= tag < TAG_LIMIT,
    ensures
        final(buf)@ == old(buf)@ + fields_wire(uniform(tag, message_values(Some(data@)))),
{
    let ghost vs = message_values(Some(data@));
    put_bytes_field(buf, tag, data);
    assert(uniform(tag, vs) =~= seq![FieldModel { tag, value: Value::Bytes(data@) }]);
    assert(uniform(tag, vs).drop_first() =~= Seq::<FieldModel>::empty());
    assert(fields_wire(uniform(tag, vs).drop_first()) =~= Seq::<u8>::empty());
        assert(buf@ =~= old(buf)@ + fields_wire(uniform(tag, vs)));
}

/// Writing one more element of a repeated field appends its field.
pub proof fn lemma_repeated_push(tag: u32, ws: Seq<Seq<u8>>, w: Seq<u8>)
    ensures
        fields_wire(uniform(tag, repeated_values(ws.push(w)))) == fields_wire(
            uniform(tag, repeated_values(ws)),
        ) + fields_wire(uniform(tag, message_values(Some(w)))),
{
    let a = uniform(tag, repeated_values(ws));
    let b = uniform(tag, message_values(Some(w)));
    assert(uniform(tag, repeated_values(ws.push(w))) =~= a + b);
    lemma_fields_wire_concat(a, b);
}

pub proof fn lemma_no_values(tag: u32)
    ensures
        fields_wire(uniform(tag, seq![])) == Seq::<u8>::empty(),
        fields_wire(uniform(tag, repeated_values(Seq::<Seq<u8>>::empty()))) == Seq::<u8>::empty(),
{
    assert(uniform(tag, seq![]).len() == 0);
    assert(uniform(tag, repeated_values(Seq::<Seq<u8>>::empty())).len() == 0);
}

/// The variant that a oneof of fields `a` and `b` holds after reading `fs`:
/// the number of the last of its fields, with the bytes of the run of fields
/// of that number that ends there (a repeated variant is merged, another one
/// replaces it).
pub open spec fn oneof_value(fs: Seq<FieldModel>, a: u32, b: u32) -> Option<(u32, Seq<u8>)>
    decreases fs.len(),
{
    if fs.len() == 0 {
        None
    } else {
        let prev = oneof_value(fs.drop_last(), a, b);
        let f = fs.last();
        if f.tag == a || f.tag == b {
            match prev {
                Some(p) => if p.0 == f.tag {
                    Some((f.tag, p.1 + f.value->Bytes_0))
                } else {
                    Some((f.tag, f.value->Bytes_0))
                },
                None => Some((f.tag, f.value->Bytes_0)),
            }
        } else {
            prev
        }
    }
}

/// No field of `fs` is numbered `a` or `b`.
pub open spec fn avoids(fs: Seq<FieldModel>, a: u32, b: u32) -> bool {
    forall|i: int| 0 <= i < fs.len() ==> #[trigger] fs[i].tag != a && fs[i].tag != b
}

/// Fields of other numbers leave the oneof as it was.
pub proof fn lemma_oneof_avoids(x: Seq<FieldModel>, y: Seq<FieldModel>, a: u32, b: u32)
    requires
        avoids(y, a, b),
    ensures
        oneof_value(x + y, a, b) == oneof_value(x, a, b),
    decreases y.len(),
{
    if y.len() == 0 {
        assert(x + y =~= x);
    } else {
        assert((x + y).drop_last() =~= x + y.drop_last());
        assert(avoids(y.drop_last(), a, b));
        lemma_oneof_avoids(x, y.drop_last(), a, b);
        assert((x + y).last() == y[y.len() - 1]);
    }
}

/// The variant of a oneof of fields `a` and `b`, with its bytes. Fails where
/// a field of either number is not length-delimited.
pub fn get_oneof(fs: &Vec<Field>, a: u32, b: u32) -> (r: Option<Option<(u32, Vec<u8>)>>)
    ensures
        r is Some <==> all_bytes(select(models(fs@), a)) && all_bytes(select(models(fs@), b)),
        r matches Some(o) ==> (o is Some <==> oneof_value(models(fs@), a, b) is Some),
        r matches Some(Some((t, v))) ==> oneof_value(models(fs@), a, b) == Some((t, v@)),
{
    let mut cur: Vec<u8> = Vec::new();
    let mut cur_tag: u32 = 0;
    let mut seen = false;
    let mut i: usize = 0;
    while i < fs.len()
        invariant
            0 <= i <= fs@.len(),
            all_bytes(select(models(fs@).take(i as int), a)),
            all_bytes(select(models(fs@).take(i as int), b)),
            seen == oneof_value(models(fs@).take(i as int), a, b) is Some,
            seen ==> oneof_value(models(fs@).take(i as int), a, b) == Some((cur_tag, cur@)),
        decreases fs@.len() - i,
    {
        proof {
            lemma_select_step(fs@, i as int, a);
            lemma_select_step(fs@, i as int, b);
            assert(models(fs@).take(i + 1).drop_last() =~= models(fs@).take(i as int));
        }
        let t = fs[i].tag;
        if t == a || t == b {
            match &fs[i].payload {
                Payload::Bytes(v) => {
                    if seen && cur_tag == t {
                        append(&mut cur, v.as_slice());
                    } else {
                        cur = copy_bytes(v);
                        cur_tag = t;
                    }
                    seen = true;
                },
                _ => {
                    proof {
                        lemma_select_prefix(fs@, i as int, t);
                        let vs = select(models(fs@), t);
                        assert(!(vs[select(models(fs@).take(i as int), t).len() as int] is Bytes));
                    }
                    return None;
                },
            }
        }
        i = i + 1;
    }
    proof {
        assert(models(fs@).take(i as int) =~= models(fs@));
    }
    if seen {
        Some(Some((cur_tag, cur)))
    } else {
        Some(None)
    }
}

} // verus!
