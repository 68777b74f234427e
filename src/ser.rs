//! The encoder: values and their parts to tagged bytes.
use crate::error::{Error, Result};
use crate::order::{lemma_byte_span_values, write_int, Endian};
use crate::tag::{int_width, tag_byte, Tag};
use crate::text::{char_utf8, decimal, format_decimal, lemma_decimal_len};
use crate::value::{Model, Value};
use crate::wire::{enc, enc_bytes, enc_entries, enc_header, enc_int, enc_items, encodable, int_tag};
use vstd::prelude::*;
use vstd::utf8::encode_utf8;

verus! {

/// Appends `b` to `out`.
fn extend(out: &mut Vec<u8>, b: &[u8])
    ensures
        final(out)@ == old(out)@ + b@,
{
    let mut i: usize = 0;
    while i < b.len()
        invariant
            i <= b@.len(),
            out@ == old(out)@ + b@.take(i as int),
        decreases b@.len() - i,
    {
        out.push(b[i]);
        i = i + 1;
        assert(out@ =~= old(out)@ + b@.take(i as int));
    }
    assert(b@.take(b@.len() as int) =~= b@);
}

/// Writes values as BSER into a growing byte buffer.
pub struct Serializer {
    out: Vec<u8>,
    endian: Endian,
}

impl Serializer {
    /// The bytes written so far.
    pub closed spec fn bytes(&self) -> Seq<u8> {
        self.out@
    }

    /// The byte order of multi-byte payloads.
    pub closed spec fn order(&self) -> Endian {
        self.endian
    }

    /// An encoder in the machine's own byte order.
    pub fn native() -> (s: Serializer)
        ensures
            s.bytes() == Seq::<u8>::empty(),
    {
        Serializer::new(Endian::native())
    }

    /// An encoder in byte order `endian`.
    pub fn new(endian: Endian) -> (s: Serializer)
        ensures
            s.bytes() == Seq::<u8>::empty(),
            s.order() == endian,
    {
        Serializer { out: Vec::new(), endian }
    }

    /// The byte order of multi-byte payloads.
    pub fn endian(&self) -> (r: Endian)
        ensures
            r == self.order(),
    {
        self.endian
    }

    /// The bytes written so far.
    pub fn output(&self) -> (r: &[u8])
        ensures
            r@ == self.bytes(),
    {
        self.out.as_slice()
    }

    /// The bytes written, as the encoder is given up.
    pub fn into_inner(self) -> (r: Vec<u8>)
        ensures
            r@ == self.bytes(),
    {
        self.out
    }

    fn write_tag(&mut self, tag: Tag)
        ensures
            final(self).bytes() == old(self).bytes().push(tag_byte(tag)),
            final(self).order() == old(self).order(),
    {
        self.out.push(tag.to_byte());
    }

    /// Writes `v` under the narrowest integer tag whose range holds it.
    pub fn serialize_int(&mut self, v: i64)
        ensures
            final(self).bytes() == old(self).bytes() + enc_int(v as int, old(self).order()),
            final(self).order() == old(self).order(),
    {
        let tag: Tag;
        let width: usize;
        if -0x80 <= v && v <= 0x7f {
            tag = Tag::Int8;
            width = 1;
        } else if -0x8000 <= v && v <= 0x7fff {
            tag = Tag::Int16;
            width = 2;
        } else if -0x8000_0000 <= v && v <= 0x7fff_ffff {
            tag = Tag::Int32;
            width = 4;
        } else {
            tag = Tag::Int64;
            width = 8;
        }
        assert(tag == int_tag(v as int) && width == int_width(tag));
        proof {
            lemma_byte_span_values();
        }
        self.write_tag(tag);
        let payload = write_int(v, width, self.endian);
        extend(&mut self.out, payload.as_slice());
        assert(self.out@ =~= old(self).bytes() + enc_int(v as int, old(self).order()));
    }

    /// Writes a length or count, which must fit a signed 64-bit integer.
    fn serialize_usize(&mut self, v: usize) -> (r: Result<()>)
        ensures
            final(self).order() == old(self).order(),
            r is Ok <==> v <= i64::MAX,
            r is Ok ==> final(self).bytes() == old(self).bytes() + enc_int(v as int, old(self).order()),
            r is Err ==> r == Err::<(), Error>(Error::IntegerOverflow) && final(self).bytes() == old(self).bytes(),
    {
        self.serialize_u64(v as u64)
    }

    pub fn serialize_bool(&mut self, v: bool)
        ensures
            final(self).bytes() == old(self).bytes().push(tag_byte(if v { Tag::True } else { Tag::False })),
            final(self).order() == old(self).order(),
    {
        if v {
            self.write_tag(Tag::True)
        } else {
            self.write_tag(Tag::False)
        }
    }

    pub fn serialize_i8(&mut self, v: i8)
        ensures
            final(self).bytes() == old(self).bytes() + enc_int(v as int, old(self).order()),
            final(self).order() == old(self).order(),
    {
        self.serialize_int(v as i64)
    }

    pub fn serialize_i16(&mut self, v: i16)
        ensures
            final(self).bytes() == old(self).bytes() + enc_int(v as int, old(self).order()),
            final(self).order() == old(self).order(),
    {
        self.serialize_int(v as i64)
    }

    pub fn serialize_i32(&mut self, v: i32)
        ensures
            final(self).bytes() == old(self).bytes() + enc_int(v as int, old(self).order()),
            final(self).order() == old(self).order(),
    {
        self.serialize_int(v as i64)
    }

    pub fn serialize_i64(&mut self, v: i64)
        ensures
            final(self).bytes() == old(self).bytes() + enc_int(v as int, old(self).order()),
            final(self).order() == old(self).order(),
    {
        self.serialize_int(v)
    }

    pub fn serialize_u8(&mut self, v: u8)
        ensures
            final(self).bytes() == old(self).bytes() + enc_int(v as int, old(self).order()),
            final(self).order() == old(self).order(),
    {
        self.serialize_int(v as i64)
    }

    pub fn serialize_u16(&mut self, v: u16)
        ensures
            final(self).bytes() == old(self).bytes() + enc_int(v as int, old(self).order()),
            final(self).order() == old(self).order(),
    {
        self.serialize_int(v as i64)
    }

    pub fn serialize_u32(&mut self, v: u32)
        ensures
            final(self).bytes() == old(self).bytes() + enc_int(v as int, old(self).order()),
            final(self).order() == old(self).order(),
    {
        self.serialize_int(v as i64)
    }

    /// Writes `v`, which must not exceed the largest signed 64-bit integer.
    pub fn serialize_u64(&mut self, v: u64) -> (r: Result<()>)
        ensures
            final(self).order() == old(self).order(),
            r is Ok <==> v <= i64::MAX,
            r is Ok ==> final(self).bytes() == old(self).bytes() + enc_int(v as int, old(self).order()),
            r is Err ==> r == Err::<(), Error>(Error::IntegerOverflow) && final(self).bytes() == old(self).bytes(),
    {
        if v > i64::MAX as u64 {
            return Err(Error::IntegerOverflow);
        }
        self.serialize_int(v as i64);
        Ok(())
    }

    /// Writes a real number, given as the bit pattern of its IEEE-754 double.
    pub fn serialize_f64_bits(&mut self, bits: u64)
        ensures
            final(self).bytes() == old(self).bytes() + enc(Model::Real(bits), old(self).order()),
            final(self).order() == old(self).order(),
    {
        self.write_tag(Tag::Real);
        proof {
            lemma_byte_span_values();
        }
        let payload = write_int(bits as i64, 8, self.endian);
        extend(&mut self.out, payload.as_slice());
        assert(self.out@ =~= old(self).bytes() + enc(Model::Real(bits), old(self).order()));
    }

    /// Writes a byte string: the String tag, its length, its bytes.
    pub fn serialize_bytes(&mut self, v: &[u8]) -> (r: Result<()>)
        ensures
            final(self).order() == old(self).order(),
            r is Ok <==> v@.len() <= i64::MAX,
            r is Ok ==> final(self).bytes() == old(self).bytes() + enc_bytes(v@, old(self).order()),
            r is Err ==> r == Err::<(), Error>(Error::IntegerOverflow),
    {
        self.write_tag(Tag::String);
        self.serialize_usize(v.len())?;
        extend(&mut self.out, v);
        assert(self.out@ =~= old(self).bytes() + enc_bytes(v@, old(self).order()));
        Ok(())
    }

    /// Writes the UTF-8 bytes of `v` as a byte string.
    pub fn serialize_str(&mut self, v: &str) -> (r: Result<()>)
        ensures
            final(self).order() == old(self).order(),
            r is Ok <==> encode_utf8(v@).len() <= i64::MAX,
            r is Ok ==> final(self).bytes() == old(self).bytes() + enc_bytes(
                encode_utf8(v@),
                old(self).order(),
            ),
            r is Err ==> r == Err::<(), Error>(Error::IntegerOverflow),
    {
        self.serialize_bytes(v.as_bytes())
    }

    /// Writes the UTF-8 bytes of `v` as a byte string.
    pub fn serialize_char(&mut self, v: char)
        ensures
            final(self).bytes() == old(self).bytes() + enc_bytes(encode_utf8(seq![v]), old(self).order()),
            final(self).order() == old(self).order(),
    {
        let b = char_utf8(v);
        assert(b@.len() <= 4) by {
            reveal_with_fuel(encode_utf8, 2);
        }
        let written = self.serialize_bytes(b.as_slice());
        assert(written is Ok);
    }

    /// Writes the null value, which also stands for unit and for an absent option.
    pub fn serialize_unit(&mut self)
        ensures
            final(self).bytes() == old(self).bytes().push(tag_byte(Tag::Null)),
            final(self).order() == old(self).order(),
    {
        self.write_tag(Tag::Null)
    }

    /// Opens an array of `len` elements; the elements are to follow.
    pub fn serialize_seq(&mut self, len: Option<usize>) -> (r: Result<()>)
        ensures
            final(self).order() == old(self).order(),
            len is None ==> r == Err::<(), Error>(Error::LengthRequired) && final(self).bytes()
                == old(self).bytes(),
            len is Some ==> (r is Ok <==> len->0 <= i64::MAX),
            r is Ok ==> final(self).bytes() == old(self).bytes() + enc_header(
                Tag::Array,
                len->0 as int,
                old(self).order(),
            ),
            len is Some && r is Err ==> r == Err::<(), Error>(Error::IntegerOverflow),
    {
        match len {
            Some(n) => {
                self.write_tag(Tag::Array);
                self.serialize_usize(n)?;
                assert(self.out@ =~= old(self).bytes() + enc_header(Tag::Array, n as int, old(self).order()));
                Ok(())
            },
            None => Err(Error::LengthRequired),
        }
    }

    /// Opens an object of `len` entries; the keys and values are to follow.
    pub fn serialize_map(&mut self, len: Option<usize>) -> (r: Result<()>)
        ensures
            final(self).order() == old(self).order(),
            len is None ==> r == Err::<(), Error>(Error::LengthRequired) && final(self).bytes()
                == old(self).bytes(),
            len is Some ==> (r is Ok <==> len->0 <= i64::MAX),
            r is Ok ==> final(self).bytes() == old(self).bytes() + enc_header(
                Tag::Object,
                len->0 as int,
                old(self).order(),
            ),
            len is Some && r is Err ==> r == Err::<(), Error>(Error::IntegerOverflow),
    {
        match len {
            Some(n) => {
                self.write_tag(Tag::Object);
                self.serialize_usize(n)?;
                assert(self.out@ =~= old(self).bytes() + enc_header(Tag::Object, n as int, old(self).order()));
                Ok(())
            },
            None => Err(Error::LengthRequired),
        }
    }

    /// Writes a unit variant of an enum: its name as a byte string.
    pub fn serialize_unit_variant(&mut self, variant: &str) -> (r: Result<()>)
        ensures
            final(self).order() == old(self).order(),
            r is Ok <==> encode_utf8(variant@).len() <= i64::MAX,
            r is Ok ==> final(self).bytes() == old(self).bytes() + enc_bytes(
                encode_utf8(variant@),
                old(self).order(),
            ),
    {
        self.serialize_str(variant)
    }

    /// Opens a variant of an enum that carries data: an object of one entry
    /// whose key is the variant's name; the payload is to follow.
    pub fn serialize_newtype_variant(&mut self, variant: &str) -> (r: Result<()>)
        ensures
            final(self).order() == old(self).order(),
            r is Ok <==> encode_utf8(variant@).len() <= i64::MAX,
            r is Ok ==> final(self).bytes() == old(self).bytes() + enc_header(
                Tag::Object,
                1,
                old(self).order(),
            ) + enc_bytes(encode_utf8(variant@), old(self).order()),
    {
        let opened = self.serialize_map(Some(1));
        assert(opened is Ok);
        let r = self.serialize_str(variant);
        if r.is_ok() {
            assert(self.out@ =~= old(self).bytes() + enc_header(Tag::Object, 1, old(self).order())
                + enc_bytes(encode_utf8(variant@), old(self).order()));
        }
        r
    }

    /// Writes an integer map key as the byte string of its decimal text.
    pub fn serialize_key_int(&mut self, v: i128)
        ensures
            final(self).bytes() == old(self).bytes() + enc_bytes(decimal(v as int), old(self).order()),
            final(self).order() == old(self).order(),
    {
        let text = format_decimal(v);
        proof {
            lemma_decimal_len(v);
        }
        let written = self.serialize_bytes(text.as_slice());
        assert(written is Ok);
    }

    /// Refuses a map key that is neither a string, an integer nor a character:
    /// nothing is written.
    pub fn reject_key(&mut self) -> (r: Result<()>)
        ensures
            r == Err::<(), Error>(Error::NonStringKey),
            final(self).bytes() == old(self).bytes(),
            final(self).order() == old(self).order(),
    {
        Err(Error::NonStringKey)
    }
}


impl Serializer {
    /// Writes a whole value.
    pub fn serialize_value(&mut self, v: &Value) -> (r: Result<()>)
        ensures
            final(self).order() == old(self).order(),
            r is Ok <==> encodable(v@),
            r is Ok ==> final(self).bytes() == old(self).bytes() + enc(v@, old(self).order()),
            r is Err ==> r == Err::<(), Error>(Error::IntegerOverflow),
        decreases v,
    {
        let ghost e = self.order();
        match v {
            Value::Null => {
                self.serialize_unit();
                Ok(())
            },
            Value::Bool(b) => {
                self.serialize_bool(*b);
                Ok(())
            },
            Value::Int(i) => {
                self.serialize_int(*i);
                Ok(())
            },
            Value::Real(bits) => {
                self.serialize_f64_bits(*bits);
                Ok(())
            },
            Value::Bytes(b) => self.serialize_bytes(b.as_slice()),
            Value::Array(a) => {
                let ghost ms = match v@ {
                    Model::Array(ms) => ms,
                    _ => Seq::empty(),
                };
                assert(v@ == Model::Array(ms));
                self.serialize_seq(Some(a.len()))?;
                let ghost start = self.bytes();
                let mut i: usize = 0;
                while i < a.len()
                    invariant
                        *v == Value::Array(*a),
                        v@ == Model::Array(ms),
                        e == old(self).order(),
                        i <= a@.len(),
                        ms.len() == a@.len(),
                        forall|j: int| 0 <= j < a@.len() ==> ms[j] == a@[j]@,
                        self.order() == e,
                        self.bytes() == start + enc_items(ms, e, 0, i as nat),
                        forall|j: int| 0 <= j < i ==> encodable(#[trigger] ms[j]),
                    decreases a@.len() - i,
                {
                    proof {
                        broadcast use vstd::std_specs::vec::axiom_vec_index_decreases;

                        assert(decreases_to!(*a => a[i as int]));
                    }
                    match self.serialize_value(&a[i]) {
                        Ok(()) => {},
                        Err(x) => {
                            assert(!encodable(ms[i as int]));
                            return Err(x);
                        },
                    }
                    assert(self.bytes() =~= start + enc_items(ms, e, 0, (i + 1) as nat));
                    i = i + 1;
                }
                assert(self.bytes() =~= old(self).bytes() + enc(v@, e));
                Ok(())
            },
            Value::Object(o) => {
                let ghost ms = match v@ {
                    Model::Object(ms) => ms,
                    _ => Seq::empty(),
                };
                assert(v@ == Model::Object(ms));
                self.serialize_map(Some(o.len()))?;
                let ghost start = self.bytes();
                let mut i: usize = 0;
                while i < o.len()
                    invariant
                        *v == Value::Object(*o),
                        v@ == Model::Object(ms),
                        e == old(self).order(),
                        i <= o@.len(),
                        ms.len() == o@.len(),
                        forall|j: int| 0 <= j < o@.len() ==> ms[j] == (o@[j].0@, o@[j].1@),
                        self.order() == e,
                        self.bytes() == start + enc_entries(ms, e, 0, i as nat),
                        forall|j: int|
                            0 <= j < i ==> (#[trigger] ms[j]).0.len() <= i64::MAX && encodable(ms[j].1),
                    decreases o@.len() - i,
                {
                    let entry = &o[i];
                    assert(ms[i as int] == (entry.0@, entry.1@));
                    proof {
                        broadcast use vstd::std_specs::vec::axiom_vec_index_decreases;

                        assert(decreases_to!(*o => o[i as int]));
                    }
                    match self.serialize_bytes(entry.0.as_slice()) {
                        Ok(()) => {},
                        Err(x) => {
                            assert(!(ms[i as int].0.len() <= i64::MAX && encodable(ms[i as int].1)));
                            return Err(x);
                        },
                    }
                    let ghost mid = self.bytes();
                    match self.serialize_value(&entry.1) {
                        Ok(()) => {},
                        Err(x) => {
                            assert(!encodable(ms[i as int].1));
                            return Err(x);
                        },
                    }
                    assert(self.bytes() =~= start + enc_entries(ms, e, 0, (i + 1) as nat));
                    i = i + 1;
                }
                assert(self.bytes() =~= old(self).bytes() + enc(v@, e));
                Ok(())
            },
        }
    }
}

/// The encoding of `value` in byte order `endian`.
pub fn to_vec_in(value: &Value, endian: Endian) -> (r: Result<Vec<u8>>)
    ensures
        r is Ok <==> encodable(value@),
        r matches Ok(b) ==> b@ == enc(value@, endian),
        r is Err ==> r == Err::<Vec<u8>, Error>(Error::IntegerOverflow),
{
    let mut ser = Serializer::new(endian);
    ser.serialize_value(value)?;
    Ok(ser.into_inner())
}

/// The encoding of `value` in the machine's own byte order.
pub fn to_vec(value: &Value) -> (r: Result<Vec<u8>>)
    ensures
        r is Ok <==> encodable(value@),
        r matches Ok(b) ==> b@ == enc(value@, Endian::Little) || b@ == enc(value@, Endian::Big),
        r is Err ==> r == Err::<Vec<u8>, Error>(Error::IntegerOverflow),
{
    let endian = Endian::native();
    to_vec_in(value, endian)
}

} // verus!
