//! Binary serialization for the watcher-daemon protocol: every value
//! is tagged, integers travel as eight little-endian bytes, strings
//! and containers are length-prefixed, so a frame can be decoded by
//! streaming without a schema.

use vstd::prelude::*;
use vstd::bytes::spec_u64_from_le_bytes;
use vstd::bytes::spec_u64_to_le_bytes;
use vstd::bytes::lemma_auto_spec_u64_to_from_le_bytes;

use crate::util::lemma_i64_u64_roundtrip;

verus! {

pub const TAG_ARRAY: u8 = 0x00;

pub const TAG_OBJECT: u8 = 0x01;

pub const TAG_STR: u8 = 0x02;

pub const TAG_INT: u8 = 0x06;

pub const TAG_TRUE: u8 = 0x08;

pub const TAG_FALSE: u8 = 0x09;

pub const TAG_NULL: u8 = 0x0a;

/// A decoded protocol value.
#[derive(Debug)]
pub enum Value {
    Null,
    Bool(bool),
    Int(i64),
    Str(Vec<u8>),
    Array(Vec<Value>),
    Object(Vec<ObjField>),
}

/// One key/value pair of an object.
#[derive(Debug)]
pub struct ObjField {
    pub key: Vec<u8>,
    pub val: Value,
}

/// The mathematical shape of a value: what the codec's contracts
/// speak about.
pub enum SpecValue {
    Null,
    Bool(bool),
    Int(i64),
    Str(Seq<u8>),
    Array(Seq<SpecValue>),
    Object(Seq<(Seq<u8>, SpecValue)>),
}

/// Ghost shape of an exec value.
pub open spec fn value_view(v: Value) -> SpecValue
    decreases v,
{
    match v {
        Value::Null => SpecValue::Null,
        Value::Bool(b) => SpecValue::Bool(b),
        Value::Int(x) => SpecValue::Int(x),
        Value::Str(s) => SpecValue::Str(s@),
        Value::Array(elems) => SpecValue::Array(list_view(elems@)),
        Value::Object(fields) => SpecValue::Object(fields_view(fields@)),
    }
}

pub open spec fn list_view(s: Seq<Value>) -> Seq<SpecValue>
    decreases s,
{
    if s.len() == 0 {
        Seq::empty()
    } else {
        seq![value_view(s[0])] + list_view(s.drop_first())
    }
}

pub open spec fn fields_view(s: Seq<ObjField>) -> Seq<(Seq<u8>, SpecValue)>
    decreases s,
{
    if s.len() == 0 {
        Seq::empty()
    } else {
        seq![(s[0].key@, value_view(s[0].val))] + fields_view(s.drop_first())
    }
}

/// Every length in the value fits the 64-bit prefix the wire format
/// gives it.
pub open spec fn sv_wf(v: SpecValue) -> bool
    decreases v,
{
    match v {
        SpecValue::Null => true,
        SpecValue::Bool(_) => true,
        SpecValue::Int(_) => true,
        SpecValue::Str(s) => s.len() <= 0xffff_ffff_ffff_ffff,
        SpecValue::Array(elems) => elems.len() <= 0xffff_ffff_ffff_ffff && (forall|i: int|
            0 <= i < elems.len() ==> sv_wf(#[trigger] elems[i])),
        SpecValue::Object(fields) => fields.len() <= 0xffff_ffff_ffff_ffff && (forall|i: int|
            0 <= i < fields.len() ==> (#[trigger] fields[i].0).len() <= 0xffff_ffff_ffff_ffff
                && sv_wf(fields[i].1)),
    }
}

/// The encoding of a value: a tag byte, then for integers their
/// little-endian bytes, for strings a length then the bytes, for
/// containers a count then the encoded contents.
pub open spec fn enc(v: SpecValue) -> Seq<u8>
    decreases v,
{
    match v {
        SpecValue::Null => seq![TAG_NULL],
        SpecValue::Bool(b) => if b {
            seq![TAG_TRUE]
        } else {
            seq![TAG_FALSE]
        },
        SpecValue::Int(x) => seq![TAG_INT] + spec_u64_to_le_bytes(x as u64),
        SpecValue::Str(s) => seq![TAG_STR] + spec_u64_to_le_bytes(s.len() as u64) + s,
        SpecValue::Array(elems) => seq![TAG_ARRAY] + spec_u64_to_le_bytes(elems.len() as u64)
            + enc_list(elems),
        SpecValue::Object(fields) => seq![TAG_OBJECT] + spec_u64_to_le_bytes(fields.len() as u64)
            + enc_fields(fields),
    }
}

pub open spec fn enc_list(s: Seq<SpecValue>) -> Seq<u8>
    decreases s,
{
    if s.len() == 0 {
        Seq::empty()
    } else {
        enc(s[0]) + enc_list(s.drop_first())
    }
}

/// A key travels exactly as the string value with the same bytes.
pub open spec fn enc_key(k: Seq<u8>) -> Seq<u8> {
    seq![TAG_STR] + spec_u64_to_le_bytes(k.len() as u64) + k
}

pub open spec fn enc_fields(s: Seq<(Seq<u8>, SpecValue)>) -> Seq<u8>
    decreases s,
{
    if s.len() == 0 {
        Seq::empty()
    } else {
        enc_key(s[0].0) + enc(s[0].1) + enc_fields(s.drop_first())
    }
}

/// Streaming decode of one value from the front of a byte string:
/// the value and how many bytes it took, or nothing if the front is
/// not a well-formed frame.
pub open spec fn dec(s: Seq<u8>) -> Option<(SpecValue, int)>
    decreases s.len(), 0nat,
{
    if s.len() == 0 {
        None
    } else if s[0] == TAG_NULL {
        Some((SpecValue::Null, 1))
    } else if s[0] == TAG_TRUE {
        Some((SpecValue::Bool(true), 1))
    } else if s[0] == TAG_FALSE {
        Some((SpecValue::Bool(false), 1))
    } else if s[0] == TAG_INT {
        if s.len() >= 9 {
            Some((SpecValue::Int(spec_u64_from_le_bytes(s.subrange(1, 9)) as i64), 9))
        } else {
            None
        }
    } else if s[0] == TAG_STR {
        if s.len() >= 9 {
            let n = spec_u64_from_le_bytes(s.subrange(1, 9)) as int;
            if 9 + n <= s.len() {
                Some((SpecValue::Str(s.subrange(9, 9 + n)), 9 + n))
            } else {
                None
            }
        } else {
            None
        }
    } else if s[0] == TAG_ARRAY {
        if s.len() >= 9 {
            let n = spec_u64_from_le_bytes(s.subrange(1, 9));
            match dec_list(s.skip(9), n as nat) {
                Some((vs, used)) => Some((SpecValue::Array(vs), 9 + used)),
                None => None,
            }
        } else {
            None
        }
    } else if s[0] == TAG_OBJECT {
        if s.len() >= 9 {
            let n = spec_u64_from_le_bytes(s.subrange(1, 9));
            match dec_fields(s.skip(9), n as nat) {
                Some((fs, used)) => Some((SpecValue::Object(fs), 9 + used)),
                None => None,
            }
        } else {
            None
        }
    } else {
        None
    }
}

pub open spec fn dec_list(s: Seq<u8>, n: nat) -> Option<(Seq<SpecValue>, int)>
    decreases s.len(), n + 1,
{
    if n == 0 {
        Some((Seq::empty(), 0))
    } else {
        match dec(s) {
            Some((v, u)) => if 1 <= u <= s.len() {
                match dec_list(s.skip(u), (n - 1) as nat) {
                    Some((vs, u2)) => Some((seq![v] + vs, u + u2)),
                    None => None,
                }
            } else {
                None
            },
            None => None,
        }
    }
}

pub open spec fn dec_fields(s: Seq<u8>, n: nat) -> Option<(Seq<(Seq<u8>, SpecValue)>, int)>
    decreases s.len(), n + 1,
{
    if n == 0 {
        Some((Seq::empty(), 0))
    } else {
        match dec(s) {
            Some((kv, u)) => if 1 <= u <= s.len() {
                match kv {
                    SpecValue::Str(key) => match dec(s.skip(u)) {
                        Some((v, u2)) => if 1 <= u2 <= s.len() - u {
                            match dec_fields(s.skip(u + u2), (n - 1) as nat) {
                                Some((fs, u3)) => Some((seq![(key, v)] + fs, u + u2 + u3)),
                                None => None,
                            }
                        } else {
                            None
                        },
                        None => None,
                    },
                    _ => None,
                }
            } else {
                None
            },
            None => None,
        }
    }
}

/// Every encoding starts with its tag byte.
pub proof fn lemma_enc_len_pos(v: SpecValue)
    ensures
        enc(v).len() >= 1,
{
    lemma_auto_spec_u64_to_from_le_bytes();
    match v {
        SpecValue::Null => {},
        SpecValue::Bool(_) => {},
        SpecValue::Int(_) => {},
        SpecValue::Str(_) => {},
        SpecValue::Array(_) => {},
        SpecValue::Object(_) => {},
    }
}

/// Decoding inverts encoding, whatever bytes follow the frame: the
/// decoder returns exactly the encoded value and consumes exactly its
/// encoding.
pub proof fn lemma_dec_enc(v: SpecValue, rest: Seq<u8>)
    requires
        sv_wf(v),
    ensures
        dec(enc(v) + rest) == Some((v, enc(v).len() as int)),
    decreases v,
{
    lemma_auto_spec_u64_to_from_le_bytes();
    let t = enc(v) + rest;
    match v {
        SpecValue::Null => {
            assert(t[0] == TAG_NULL);
        },
        SpecValue::Bool(b) => {
            if b {
                assert(t[0] == TAG_TRUE);
            } else {
                assert(t[0] == TAG_FALSE);
            }
        },
        SpecValue::Int(x) => {
            let b = spec_u64_to_le_bytes(x as u64);
            assert(t[0] == TAG_INT);
            assert(t.subrange(1, 9) =~= b);
            lemma_i64_u64_roundtrip(x);
        },
        SpecValue::Str(s) => {
            let b = spec_u64_to_le_bytes(s.len() as u64);
            assert(t[0] == TAG_STR);
            assert(t.subrange(1, 9) =~= b);
            assert(spec_u64_from_le_bytes(t.subrange(1, 9)) == s.len() as u64);
            assert((s.len() as u64) as int == s.len() as int);
            assert(t.subrange(9, 9 + s.len() as int) =~= s);
        },
        SpecValue::Array(elems) => {
            let b = spec_u64_to_le_bytes(elems.len() as u64);
            assert(t[0] == TAG_ARRAY);
            assert(t.subrange(1, 9) =~= b);
            assert((elems.len() as u64) as nat == elems.len());
            assert(t.skip(9) =~= enc_list(elems) + rest);
            lemma_dec_enc_list(elems, rest);
        },
        SpecValue::Object(fields) => {
            let b = spec_u64_to_le_bytes(fields.len() as u64);
            assert(t[0] == TAG_OBJECT);
            assert(t.subrange(1, 9) =~= b);
            assert((fields.len() as u64) as nat == fields.len());
            assert(t.skip(9) =~= enc_fields(fields) + rest);
            lemma_dec_enc_fields(fields, rest);
        },
    }
}

pub proof fn lemma_dec_enc_list(vs: Seq<SpecValue>, rest: Seq<u8>)
    requires
        forall|i: int| 0 <= i < vs.len() ==> sv_wf(#[trigger] vs[i]),
    ensures
        dec_list(enc_list(vs) + rest, vs.len()) == Some((vs, enc_list(vs).len() as int)),
    decreases vs,
{
    let t = enc_list(vs) + rest;
    if vs.len() == 0 {
        assert(vs =~= Seq::<SpecValue>::empty());
        assert(enc_list(vs) =~= Seq::<u8>::empty());
    } else {
        let head = vs[0];
        let tailv = vs.drop_first();
        assert(sv_wf(head));
        assert(t =~= enc(head) + (enc_list(tailv) + rest));
        lemma_dec_enc(head, enc_list(tailv) + rest);
        let u = enc(head).len() as int;
        lemma_enc_len_pos(head);
        assert(t.skip(u) =~= enc_list(tailv) + rest);
        assert(forall|i: int| 0 <= i < tailv.len() ==> sv_wf(#[trigger] tailv[i]));
        lemma_dec_enc_list(tailv, rest);
        assert(seq![head] + tailv =~= vs);
    }
}

pub proof fn lemma_dec_enc_fields(fs: Seq<(Seq<u8>, SpecValue)>, rest: Seq<u8>)
    requires
        forall|i: int|
            0 <= i < fs.len() ==> (#[trigger] fs[i].0).len() <= 0xffff_ffff_ffff_ffff && sv_wf(
                fs[i].1,
            ),
    ensures
        dec_fields(enc_fields(fs) + rest, fs.len()) == Some((fs, enc_fields(fs).len() as int)),
    decreases fs,
{
    lemma_auto_spec_u64_to_from_le_bytes();
    let t = enc_fields(fs) + rest;
    if fs.len() == 0 {
        assert(fs =~= Seq::<(Seq<u8>, SpecValue)>::empty());
        assert(enc_fields(fs) =~= Seq::<u8>::empty());
    } else {
        let key = fs[0].0;
        let val = fs[0].1;
        let tailf = fs.drop_first();
        assert(key.len() <= 0xffff_ffff_ffff_ffff && sv_wf(val));
        // the key decodes as the string value with the same bytes
        let kb = spec_u64_to_le_bytes(key.len() as u64);
        assert(t[0] == TAG_STR);
        assert(t.subrange(1, 9) =~= kb);
        assert(spec_u64_from_le_bytes(t.subrange(1, 9)) == key.len() as u64);
        assert((key.len() as u64) as int == key.len() as int);
        assert(t.subrange(9, 9 + key.len() as int) =~= key);
        let u = 9 + key.len() as int;
        assert(dec(t) == Some((SpecValue::Str(key), u)));
        assert(u == enc_key(key).len());
        // then the field's value
        assert(t.skip(u) =~= enc(val) + (enc_fields(tailf) + rest));
        lemma_dec_enc(val, enc_fields(tailf) + rest);
        let u2 = enc(val).len() as int;
        lemma_enc_len_pos(val);
        // then the remaining fields
        assert(t.skip(u + u2) =~= enc_fields(tailf) + rest);
        assert(forall|i: int|
            0 <= i < tailf.len() ==> (#[trigger] tailf[i].0).len() <= 0xffff_ffff_ffff_ffff
                && sv_wf(tailf[i].1));
        lemma_dec_enc_fields(tailf, rest);
        assert((key, val) == fs[0]);
        assert(seq![(key, val)] + tailf =~= fs);
    }
}

proof fn lemma_list_view_snoc(s: Seq<Value>, v: Value)
    ensures
        list_view(s.push(v)) == list_view(s) + seq![value_view(v)],
    decreases s,
{
    if s.len() == 0 {
        assert(s.push(v).drop_first() =~= Seq::<Value>::empty());
        assert(s.push(v)[0] == v);
        assert(list_view(Seq::<Value>::empty()) =~= Seq::<SpecValue>::empty());
        assert(list_view(s.push(v)) =~= list_view(s) + seq![value_view(v)]);
    } else {
        assert(s.push(v).drop_first() =~= s.drop_first().push(v));
        assert(s.push(v)[0] == s[0]);
        lemma_list_view_snoc(s.drop_first(), v);
        assert(list_view(s.push(v)) =~= list_view(s) + seq![value_view(v)]);
    }
}

proof fn lemma_fields_view_snoc(s: Seq<ObjField>, f: ObjField)
    ensures
        fields_view(s.push(f)) == fields_view(s) + seq![(f.key@, value_view(f.val))],
    decreases s,
{
    if s.len() == 0 {
        assert(s.push(f).drop_first() =~= Seq::<ObjField>::empty());
        assert(s.push(f)[0] == f);
        assert(fields_view(Seq::<ObjField>::empty()) =~= Seq::<(Seq<u8>, SpecValue)>::empty());
        assert(fields_view(s.push(f)) =~= fields_view(s) + seq![(f.key@, value_view(f.val))]);
    } else {
        assert(s.push(f).drop_first() =~= s.drop_first().push(f));
        assert(s.push(f)[0] == s[0]);
        lemma_fields_view_snoc(s.drop_first(), f);
        assert(fields_view(s.push(f)) =~= fields_view(s) + seq![(f.key@, value_view(f.val))]);
    }
}

pub proof fn lemma_list_view_len(s: Seq<Value>)
    ensures
        list_view(s).len() == s.len(),
    decreases s,
{
    if s.len() > 0 {
        lemma_list_view_len(s.drop_first());
    }
}

proof fn lemma_fields_view_len(s: Seq<ObjField>)
    ensures
        fields_view(s).len() == s.len(),
    decreases s,
{
    if s.len() > 0 {
        lemma_fields_view_len(s.drop_first());
    }
}

/// Appends the eight little-endian bytes of an unsigned 64-bit value.
fn push_u64(out: &mut Vec<u8>, x: u64)
    ensures
        final(out)@ == old(out)@ + spec_u64_to_le_bytes(x),
{
    let mut b = vstd::bytes::u64_to_le_bytes(x);
    out.append(&mut b);
}

/// Appends a byte string.
fn push_bytes(out: &mut Vec<u8>, s: &Vec<u8>)
    ensures
        final(out)@ == old(out)@ + s@,
{
    let mut i: usize = 0;
    while i < s.len()
        invariant
            i <= s@.len(),
            out@ == old(out)@ + s@.take(i as int),
        decreases s@.len() - i,
    {
        out.push(s[i]);
        proof {
            assert(s@.take(i as int + 1) =~= s@.take(i as int).push(s@[i as int]));
            assert(old(out)@ + s@.take(i as int) + seq![s@[i as int]] =~= old(out)@ + s@.take(
                i as int + 1,
            ));
        }
        i += 1;
    }
    proof {
        assert(s@.take(s@.len() as int) =~= s@);
    }
}

/// Appends the encoding of a value.
pub fn encode_value(v: &Value, out: &mut Vec<u8>)
    ensures
        final(out)@ == old(out)@ + enc(value_view(*v)),
    decreases *v,
{
    match v {
        Value::Null => {
            out.push(TAG_NULL);
            proof {
                assert(old(out)@ + seq![TAG_NULL] =~= out@);
            }
        },
        Value::Bool(b) => {
            out.push(if *b {
                TAG_TRUE
            } else {
                TAG_FALSE
            });
            proof {
                assert(old(out)@ + enc(value_view(*v)) =~= out@);
            }
        },
        Value::Int(x) => {
            out.push(TAG_INT);
            push_u64(out, #[verifier::truncate] (*x as u64));
            proof {
                assert(old(out)@ + enc(value_view(*v)) =~= out@);
            }
        },
        Value::Str(s) => {
            out.push(TAG_STR);
            push_u64(out, s.len() as u64);
            push_bytes(out, s);
            proof {
                assert(old(out)@ + enc(value_view(*v)) =~= out@);
            }
        },
        Value::Array(elems) => {
            let ghost lv = list_view(elems@);
            proof {
                lemma_list_view_len(elems@);
            }
            out.push(TAG_ARRAY);
            push_u64(out, elems.len() as u64);
            encode_list(elems, out);
            proof {
                assert(old(out)@ + enc(value_view(*v)) =~= out@);
            }
        },
        Value::Object(fields) => {
            let ghost fv = fields_view(fields@);
            proof {
                lemma_fields_view_len(fields@);
            }
            out.push(TAG_OBJECT);
            push_u64(out, fields.len() as u64);
            encode_fields(fields, out);
            proof {
                assert(old(out)@ + enc(value_view(*v)) =~= out@);
            }
        },
    }
}

/// Appends the encodings of the elements, in order.
fn encode_list(elems: &Vec<Value>, out: &mut Vec<u8>)
    ensures
        final(out)@ == old(out)@ + enc_list(list_view(elems@)),
    decreases elems@,
{
    let ghost lv = list_view(elems@);
    proof {
        lemma_list_view_len(elems@);
    }
    let mut i: usize = 0;
    while i < elems.len()
        invariant
            i <= elems@.len(),
            lv == list_view(elems@),
            lv.len() == elems@.len(),
            out@ == old(out)@ + enc_list(lv.take(i as int)),
        decreases elems@.len() - i,
    {
        proof {
            lemma_list_view_index(elems@, i as int);
            assert(decreases_to!(elems@ => elems@[i as int]));
        }
        encode_value(&elems[i], out);
        proof {
            lemma_enc_list_app(lv.take(i as int), seq![lv[i as int]]);
            assert(lv.take(i as int + 1) =~= lv.take(i as int) + seq![lv[i as int]]);
            assert(seq![lv[i as int]].drop_first() =~= Seq::<SpecValue>::empty());
            assert(enc_list(Seq::<SpecValue>::empty()) =~= Seq::<u8>::empty());
            assert(enc_list(seq![lv[i as int]]) =~= enc(lv[i as int]));
            assert(out@ =~= old(out)@ + enc_list(lv.take(i as int + 1)));
        }
        i += 1;
    }
    proof {
        assert(lv.take(lv.len() as int) =~= lv);
    }
}

/// Appends the encodings of the fields, keys before values.
fn encode_fields(fields: &Vec<ObjField>, out: &mut Vec<u8>)
    ensures
        final(out)@ == old(out)@ + enc_fields(fields_view(fields@)),
    decreases fields@,
{
    let ghost fv = fields_view(fields@);
    proof {
        lemma_fields_view_len(fields@);
    }
    let mut i: usize = 0;
    while i < fields.len()
        invariant
            i <= fields@.len(),
            fv == fields_view(fields@),
            fv.len() == fields@.len(),
            out@ == old(out)@ + enc_fields(fv.take(i as int)),
        decreases fields@.len() - i,
    {
        proof {
            lemma_fields_view_index(fields@, i as int);
            assert(decreases_to!(fields@ => fields@[i as int]));
            assert(decreases_to!(fields@[i as int] => fields@[i as int].val));
        }
        let f = &fields[i];
        out.push(TAG_STR);
        push_u64(out, f.key.len() as u64);
        push_bytes(out, &f.key);
        encode_value(&f.val, out);
        proof {
            lemma_enc_fields_app(fv.take(i as int), seq![fv[i as int]]);
            assert(fv.take(i as int + 1) =~= fv.take(i as int) + seq![fv[i as int]]);
            assert(seq![fv[i as int]].drop_first() =~= Seq::<(Seq<u8>, SpecValue)>::empty());
            assert(enc_fields(Seq::<(Seq<u8>, SpecValue)>::empty()) =~= Seq::<u8>::empty());
            assert(enc_fields(seq![fv[i as int]]) =~= enc_key(fv[i as int].0) + enc(
                fv[i as int].1,
            ));
            assert(out@ =~= old(out)@ + enc_fields(fv.take(i as int + 1)));
        }
        i += 1;
    }
    proof {
        assert(fv.take(fv.len() as int) =~= fv);
    }
}

pub proof fn lemma_list_view_index(s: Seq<Value>, i: int)
    requires
        0 <= i < s.len(),
    ensures
        list_view(s).len() == s.len(),
        list_view(s)[i] == value_view(s[i]),
    decreases s,
{
    lemma_list_view_len(s);
    if i > 0 {
        lemma_list_view_index(s.drop_first(), i - 1);
    }
}

proof fn lemma_fields_view_index(s: Seq<ObjField>, i: int)
    requires
        0 <= i < s.len(),
    ensures
        fields_view(s).len() == s.len(),
        fields_view(s)[i] == (s[i].key@, value_view(s[i].val)),
    decreases s,
{
    lemma_fields_view_len(s);
    if i > 0 {
        lemma_fields_view_index(s.drop_first(), i - 1);
    }
}

proof fn lemma_enc_list_app(a: Seq<SpecValue>, b: Seq<SpecValue>)
    ensures
        enc_list(a + b) == enc_list(a) + enc_list(b),
    decreases a,
{
    if a.len() == 0 {
        assert(a + b =~= b);
        assert(enc_list(a) =~= Seq::<u8>::empty());
        assert(enc_list(a) + enc_list(b) =~= enc_list(b));
    } else {
        assert((a + b).drop_first() =~= a.drop_first() + b);
        lemma_enc_list_app(a.drop_first(), b);
        assert((a + b)[0] == a[0]);
        assert(enc_list(a + b) =~= enc_list(a) + enc_list(b));
    }
}

proof fn lemma_enc_fields_app(a: Seq<(Seq<u8>, SpecValue)>, b: Seq<(Seq<u8>, SpecValue)>)
    ensures
        enc_fields(a + b) == enc_fields(a) + enc_fields(b),
    decreases a,
{
    if a.len() == 0 {
        assert(a + b =~= b);
        assert(enc_fields(a) =~= Seq::<u8>::empty());
        assert(enc_fields(a) + enc_fields(b) =~= enc_fields(b));
    } else {
        assert((a + b).drop_first() =~= a.drop_first() + b);
        lemma_enc_fields_app(a.drop_first(), b);
        assert((a + b)[0] == a[0]);
        assert(enc_fields(a + b) =~= enc_fields(a) + enc_fields(b));
    }
}

/// Encodes one value as a fresh frame.
pub fn encode(v: &Value) -> (r: Vec<u8>)
    ensures
        r@ == enc(value_view(*v)),
{
    let mut out: Vec<u8> = Vec::new();
    encode_value(v, &mut out);
    proof {
        assert(Seq::<u8>::empty() + enc(value_view(*v)) =~= enc(value_view(*v)));
    }
    out
}

/// Reads the eight little-endian bytes at `pos`.
fn read_u64(s: &Vec<u8>, pos: usize) -> (x: u64)
    requires
        pos + 8 <= s@.len(),
    ensures
        x == spec_u64_from_le_bytes(s@.subrange(pos as int, pos as int + 8)),
{
    let mut buf: Vec<u8> = Vec::new();
    let mut k: usize = 0;
    while k < 8
        invariant
            k <= 8,
            pos + 8 <= s.len(),
            buf@ == s@.subrange(pos as int, pos as int + k as int),
        decreases 8 - k,
    {
        buf.push(s[pos + k]);
        proof {
            assert(s@.subrange(pos as int, pos as int + k as int + 1) =~= s@.subrange(
                pos as int,
                pos as int + k as int,
            ).push(s@[pos as int + k as int]));
        }
        k += 1;
    }
    vstd::bytes::u64_from_le_bytes(buf.as_slice())
}

/// Copies the bytes of `s` from `from` to `to`.
fn copy_range(s: &Vec<u8>, from: usize, to: usize) -> (r: Vec<u8>)
    requires
        from <= to <= s@.len(),
    ensures
        r@ == s@.subrange(from as int, to as int),
{
    let mut r: Vec<u8> = Vec::new();
    let mut k: usize = from;
    while k < to
        invariant
            from <= k <= to <= s@.len(),
            r@ == s@.subrange(from as int, k as int),
        decreases to - k,
    {
        r.push(s[k]);
        proof {
            assert(s@.subrange(from as int, k as int + 1) =~= s@.subrange(
                from as int,
                k as int,
            ).push(s@[k as int]));
        }
        k += 1;
    }
    r
}

/// Decodes one value starting at `pos`: the value and the position
/// just past its frame, or nothing if no well-formed frame starts
/// there.
pub fn decode_value(s: &Vec<u8>, pos: usize) -> (r: Option<(Value, usize)>)
    requires
        pos <= s@.len(),
    ensures
        match r {
            Some(pr) => pos < pr.1 <= s@.len() && dec(s@.skip(pos as int)) == Some(
                (value_view(pr.0), pr.1 - pos),
            ),
            None => dec(s@.skip(pos as int)) is None,
        },
    decreases s@.len() - pos,
{
    let ghost t = s@.skip(pos as int);
    if pos == s.len() {
        proof {
            assert(t =~= Seq::<u8>::empty());
        }
        return None;
    }
    let tag = s[pos];
    proof {
        assert(t[0] == s@[pos as int]);
        assert(t.len() == s@.len() - pos);
    }
    if tag == TAG_NULL {
        Some((Value::Null, pos + 1))
    } else if tag == TAG_TRUE {
        Some((Value::Bool(true), pos + 1))
    } else if tag == TAG_FALSE {
        Some((Value::Bool(false), pos + 1))
    } else if tag == TAG_INT {
        if s.len() - pos < 9 {
            return None;
        }
        let x = read_u64(s, pos + 1);
        proof {
            assert(t.subrange(1, 9) =~= s@.subrange(pos as int + 1, pos as int + 9));
        }
        Some((Value::Int(#[verifier::truncate] (x as i64)), pos + 9))
    } else if tag == TAG_STR {
        if s.len() - pos < 9 {
            return None;
        }
        let n = read_u64(s, pos + 1);
        proof {
            assert(t.subrange(1, 9) =~= s@.subrange(pos as int + 1, pos as int + 9));
        }
        let avail = s.len() - pos - 9;
        if n > avail as u64 {
            return None;
        }
        let nn = n as usize;
        let bytes = copy_range(s, pos + 9, pos + 9 + nn);
        proof {
            assert(t.subrange(9, 9 + n as int) =~= s@.subrange(
                pos as int + 9,
                pos as int + 9 + n as int,
            ));
        }
        Some((Value::Str(bytes), pos + 9 + nn))
    } else if tag == TAG_ARRAY {
        if s.len() - pos < 9 {
            return None;
        }
        let n = read_u64(s, pos + 1);
        proof {
            assert(t.subrange(1, 9) =~= s@.subrange(pos as int + 1, pos as int + 9));
            assert(t.skip(9) =~= s@.skip(pos as int + 9));
        }
        let mut items: Vec<Value> = Vec::new();
        let mut cur: usize = pos + 9;
        let mut k: u64 = 0;
        proof {
            assert(list_view(items@) =~= Seq::<SpecValue>::empty());
            if let Some((vs0, u0)) = dec_list(s@.skip(cur as int), n as nat) {
                assert(list_view(items@) + vs0 =~= vs0);
            }
        }
        while k < n
            invariant
                t == s@.skip(pos as int),
                pos <= s@.len(),
                pos + 9 <= cur <= s@.len(),
                k <= n,
                t.skip(9) == s@.skip(pos as int + 9),
                t.len() >= 9,
                t[0] == TAG_ARRAY,
                n == spec_u64_from_le_bytes(t.subrange(1, 9)),
                match dec_list(s@.skip(cur as int), (n - k) as nat) {
                    Some(pr) => dec_list(t.skip(9), n as nat) == Some(
                        (list_view(items@) + pr.0, (cur - (pos + 9)) as int + pr.1),
                    ),
                    None => dec_list(t.skip(9), n as nat) is None,
                },
            decreases n - k,
        {
            let ghost items0 = items@;
            match decode_value(s, cur) {
                None => {
                    proof {
                        assert(dec_list(s@.skip(cur as int), (n - k) as nat) is None);
                        assert(dec_list(t.skip(9), n as nat) is None);
                        assert(dec(t) is None);
                    }
                    return None;
                },
                Some((v, end)) => {
                    proof {
                        let u = end - cur;
                        assert(s@.skip(cur as int).skip(u as int) =~= s@.skip(end as int));
                        lemma_list_view_snoc(items0, v);
                        assert(dec_list(s@.skip(cur as int), (n - k) as nat) == (
                        match dec_list(s@.skip(end as int), (n - (k + 1)) as nat) {
                            Some(pr2) => Some::<(Seq<SpecValue>, int)>(
                                (seq![value_view(v)] + pr2.0, u + pr2.1),
                            ),
                            None => None::<(Seq<SpecValue>, int)>,
                        }));
                        if let Some(pr2) = dec_list(s@.skip(end as int), (n - (k + 1)) as nat) {
                            assert(list_view(items0) + (seq![value_view(v)] + pr2.0)
                                =~= list_view(items0.push(v)) + pr2.0);
                        }
                    }
                    items.push(v);
                    cur = end;
                },
            }
            k += 1;
        }
        proof {
            assert(dec_list(s@.skip(cur as int), 0) == Some((Seq::<SpecValue>::empty(), 0int)));
            assert(list_view(items@) + Seq::<SpecValue>::empty() =~= list_view(items@));
            assert(dec_list(t.skip(9), n as nat) == Some(
                (list_view(items@), (cur - (pos + 9)) as int),
            ));
        }
        Some((Value::Array(items), cur))
    } else if tag == TAG_OBJECT {
        if s.len() - pos < 9 {
            return None;
        }
        let n = read_u64(s, pos + 1);
        proof {
            assert(t.subrange(1, 9) =~= s@.subrange(pos as int + 1, pos as int + 9));
            assert(t.skip(9) =~= s@.skip(pos as int + 9));
        }
        let mut items: Vec<ObjField> = Vec::new();
        let mut cur: usize = pos + 9;
        let mut k: u64 = 0;
        proof {
            assert(fields_view(items@) =~= Seq::<(Seq<u8>, SpecValue)>::empty());
            if let Some((fs0, u0)) = dec_fields(s@.skip(cur as int), n as nat) {
                assert(fields_view(items@) + fs0 =~= fs0);
            }
        }
        while k < n
            invariant
                t == s@.skip(pos as int),
                pos <= s@.len(),
                pos + 9 <= cur <= s@.len(),
                k <= n,
                t.skip(9) == s@.skip(pos as int + 9),
                t.len() >= 9,
                t[0] == TAG_OBJECT,
                n == spec_u64_from_le_bytes(t.subrange(1, 9)),
                match dec_fields(s@.skip(cur as int), (n - k) as nat) {
                    Some(pr) => dec_fields(t.skip(9), n as nat) == Some(
                        (fields_view(items@) + pr.0, (cur - (pos + 9)) as int + pr.1),
                    ),
                    None => dec_fields(t.skip(9), n as nat) is None,
                },
            decreases n - k,
        {
            let ghost items0 = items@;
            match decode_value(s, cur) {
                None => {
                    proof {
                        assert(dec_fields(s@.skip(cur as int), (n - k) as nat) is None);
                        assert(dec_fields(t.skip(9), n as nat) is None);
                        assert(dec(t) is None);
                    }
                    return None;
                },
                Some((kv, kend)) => {
                    match kv {
                        Value::Str(kbytes) => {
                            proof {
                                assert(s@.skip(cur as int).skip((kend - cur) as int) =~= s@.skip(
                                    kend as int,
                                ));
                            }
                            match decode_value(s, kend) {
                                None => {
                                    proof {
                                        assert(dec_fields(
                                            s@.skip(cur as int),
                                            (n - k) as nat,
                                        ) is None);
                                        assert(dec_fields(t.skip(9), n as nat) is None);
                                        assert(dec(t) is None);
                                    }
                                    return None;
                                },
                                Some((vv, vend)) => {
                                    proof {
                                        let u = kend - cur;
                                        let u2 = vend - kend;
                                        assert(s@.skip(cur as int).skip(u + u2) =~= s@.skip(
                                            vend as int,
                                        ));
                                        let f = ObjField { key: kbytes, val: vv };
                                        lemma_fields_view_snoc(items0, f);
                                        if let Some(pr2) = dec_fields(
                                            s@.skip(vend as int),
                                            (n - (k + 1)) as nat,
                                        ) {
                                            assert(fields_view(items0) + (seq![
                                                (kbytes@, value_view(vv)),
                                            ] + pr2.0) =~= fields_view(items0.push(f)) + pr2.0);
                                        }
                                    }
                                    items.push(ObjField { key: kbytes, val: vv });
                                    cur = vend;
                                },
                            }
                        },
                        other => {
                            proof {
                                match other {
                                    Value::Null => {},
                                    Value::Bool(_) => {},
                                    Value::Int(_) => {},
                                    Value::Str(_) => {},
                                    Value::Array(_) => {},
                                    Value::Object(_) => {},
                                }
                                assert(dec_fields(s@.skip(cur as int), (n - k) as nat) is None);
                                assert(dec_fields(t.skip(9), n as nat) is None);
                                assert(dec(t) is None);
                            }
                            return None;
                        },
                    }
                },
            }
            k += 1;
        }
        proof {
            assert(dec_fields(s@.skip(cur as int), 0) == Some(
                (Seq::<(Seq<u8>, SpecValue)>::empty(), 0int),
            ));
            assert(fields_view(items@) + Seq::<(Seq<u8>, SpecValue)>::empty() =~= fields_view(
                items@,
            ));
            assert(dec_fields(t.skip(9), n as nat) == Some(
                (fields_view(items@), (cur - (pos + 9)) as int),
            ));
        }
        Some((Value::Object(items), cur))
    } else {
        None
    }
}

/// Decodes the frame at the front of a buffer.
pub fn decode(s: &Vec<u8>) -> (r: Option<(Value, usize)>)
    ensures
        match r {
            Some(pr) => 0 < pr.1 <= s@.len() && dec(s@) == Some((value_view(pr.0), pr.1 as int)),
            None => dec(s@) is None,
        },
{
    proof {
        assert(s@.skip(0) =~= s@);
    }
    decode_value(s, 0)
}

/// The codec round-trips: decoding the encoding of any well-formed
/// value yields the value back and consumes the whole encoding.
pub proof fn lemma_bser_round_trip(v: SpecValue)
    requires
        sv_wf(v),
    ensures
        dec(enc(v)) == Some((v, enc(v).len() as int)),
{
    lemma_dec_enc(v, Seq::empty());
    assert(enc(v) + Seq::<u8>::empty() =~= enc(v));
}

/// The shape of any machine-held value is well formed: its lengths
/// are vector lengths, which fit the 64-bit prefixes.
pub proof fn lemma_value_view_wf(v: Value)
    ensures
        sv_wf(value_view(v)),
    decreases v,
{
    match v {
        Value::Null => {},
        Value::Bool(_) => {},
        Value::Int(_) => {},
        Value::Str(s) => {
            assert(s@.len() == s.len());
        },
        Value::Array(elems) => {
            lemma_list_view_wf(elems@);
            assert(elems@.len() == elems.len());
        },
        Value::Object(fields) => {
            lemma_fields_view_wf(fields@);
            assert(fields@.len() == fields.len());
        },
    }
}

proof fn lemma_list_view_wf(s: Seq<Value>)
    ensures
        list_view(s).len() == s.len(),
        forall|i: int| 0 <= i < s.len() ==> sv_wf(#[trigger] list_view(s)[i]),
    decreases s,
{
    if s.len() > 0 {
        lemma_value_view_wf(s[0]);
        lemma_list_view_wf(s.drop_first());
        assert forall|i: int| 0 <= i < s.len() implies sv_wf(#[trigger] list_view(s)[i]) by {
            if i == 0 {
                assert(list_view(s)[0] == value_view(s[0]));
            } else {
                assert(list_view(s)[i] == list_view(s.drop_first())[i - 1]);
            }
        }
    }
}

proof fn lemma_fields_view_wf(s: Seq<ObjField>)
    ensures
        fields_view(s).len() == s.len(),
        forall|i: int|
            0 <= i < s.len() ==> (#[trigger] fields_view(s)[i]).0.len()
                <= 0xffff_ffff_ffff_ffff && sv_wf(fields_view(s)[i].1),
    decreases s,
{
    if s.len() > 0 {
        lemma_value_view_wf(s[0].val);
        lemma_fields_view_wf(s.drop_first());
        assert(s[0].key@.len() == s[0].key.len());
        assert forall|i: int|
            0 <= i < s.len() implies (#[trigger] fields_view(s)[i]).0.len()
            <= 0xffff_ffff_ffff_ffff && sv_wf(fields_view(s)[i].1) by {
            if i == 0 {
                assert(fields_view(s)[0] == (s[0].key@, value_view(s[0].val)));
            } else {
                assert(fields_view(s)[i] == fields_view(s.drop_first())[i - 1]);
            }
        }
    }
}

} // verus!
