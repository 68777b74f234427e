//! The decoder: tagged bytes to values and their parts.
use crate::error::{Error, IoError, Result};
use crate::order::{int_value, read_int, Endian};
use crate::read::{IoRead, Read, Reference, SliceRead, Stream};
use crate::prefix::{
    extends, lemma_extends_append, lemma_extends_trans, lemma_key_of, lemma_span_extend, lemma_keys_snoc, lemma_len_prefix, lemma_span_after,
    lemma_span_compose, lemma_tag_prefix, lemma_tag_then, lemma_template_keys_of, lemma_template_keys_prefix, span,
};
use crate::tag::{int_width, is_int_tag, lemma_tag_byte_round_trip, tag_byte, Tag};
use crate::value::{entries_model, lemma_array_view, lemma_object_view, values_model, Model, Value};
use crate::wire::{
    advance, lemma_prepend_cons, lemma_prepend_done, lemma_prepend_empty, lemma_prepend_shift,
    lemma_skip_skip, lemma_skip_subrange, parse, parse_entries, parse_fixed, parse_items, parse_key,
    parse_keys, parse_len, parse_row, parse_rows, parse_str_body, parse_tag, parse_template_keys, parse_top,
    prepend, shift,
};
use vstd::prelude::*;

verus! {

broadcast use {lemma_skip_skip, lemma_skip_subrange, lemma_span_compose, lemma_key_of};

/// What a step of the decoder promises where its input is in memory: for the
/// bytes `before` ahead of it, it returns what `expected` gives and takes as
/// many bytes as that says; the bytes `after` are the rest.
pub open spec fn steps<T>(
    before: Option<Seq<u8>>,
    after: Option<Seq<u8>>,
    r: Result<T>,
    expected: Result<(T, nat)>,
) -> bool {
    &&& (before is Some <==> after is Some)
    &&& before is Some ==> match expected {
        Ok((v, k)) => r == Ok::<T, Error>(v) && k <= before->0.len() && after == Some(
            before->0.skip(k as int),
        ),
        Err(x) => r == Err::<T, Error>(x),
    }
}

/// Reads BSER from a source, one value or one part of a value at a time.
pub struct Deserializer<R> {
    read: R,
    tag: Option<Tag>,
    scratch: Vec<u8>,
    endian: Endian,
}

impl<R> Deserializer<R> {
    /// The byte order of multi-byte payloads.
    pub closed spec fn order(&self) -> Endian {
        self.endian
    }

    /// The tag read ahead and not yet taken, if any.
    pub closed spec fn peeked(&self) -> Option<Tag> {
        self.tag
    }

    /// The byte of the tag read ahead and not yet taken, if any.
    pub closed spec fn front(&self) -> Seq<u8> {
        match self.tag {
            Some(t) => seq![tag_byte(t)],
            None => Seq::empty(),
        }
    }

    /// The tag read ahead and not yet taken, if any.
    pub fn peeked_tag(&self) -> (r: Option<Tag>)
        ensures
            r == self.peeked(),
    {
        self.tag
    }
}

impl<'de> Deserializer<SliceRead<'de>> {
    /// A decoder over `bytes`, in the machine's own byte order.
    pub fn from_slice(bytes: &'de [u8]) -> (d: Self)
        ensures
            d.ahead() == Some(bytes@),
    {
        Self::native(SliceRead::new(bytes))
    }
}

impl<R: Stream> Deserializer<IoRead<R>> {
    /// A decoder over a stream, in the machine's own byte order.
    pub fn from_reader(read: R) -> (d: Self)
        ensures
            d.ahead() is None,
    {
        Self::native(IoRead::new(read))
    }
}

impl<'de, R: Read<'de>> Deserializer<R> {
    /// The bytes ahead of the decoder, where its source holds them in memory:
    /// the tag read ahead, if any, then what the source will deliver.
    pub closed spec fn ahead(&self) -> Option<Seq<u8>> {
        match self.read.pending() {
            Some(p) => Some(
                match self.tag {
                    Some(t) => seq![tag_byte(t)] + p,
                    None => p,
                },
            ),
            None => None,
        }
    }

    /// The bytes the decoder has pulled from its source, in order, a tag read
    /// ahead included.
    pub closed spec fn log(&self) -> Seq<u8> {
        self.read.delivered()
    }

    /// A decoder over `read`, in the machine's own byte order.
    pub fn native(read: R) -> (d: Self)
        ensures
            d.ahead() == read.pending(),
            d.peeked() is None,
            d.log() == read.delivered(),
            d.front() == Seq::<u8>::empty(),
    {
        Self::new(read, Endian::native())
    }

    /// A decoder over `read`, in byte order `endian`.
    pub fn new(read: R, endian: Endian) -> (d: Self)
        ensures
            d.ahead() == read.pending(),
            d.order() == endian,
            d.peeked() is None,
            d.log() == read.delivered(),
            d.front() == Seq::<u8>::empty(),
    {
        Deserializer { read, tag: None, scratch: Vec::new(), endian }
    }

    /// The byte order of multi-byte payloads.
    pub fn endian(&self) -> (r: Endian)
        ensures
            r == self.order(),
    {
        self.endian
    }

    /// Checks that nothing follows the value decoded: no tag read ahead and
    /// no byte left in the source.
    pub fn end(&mut self) -> (r: Result<()>)
        ensures
            old(self).ahead() is Some ==> (r is Ok <==> old(self).ahead()->0.len() == 0),
            old(self).ahead() is Some && r is Err ==> r == Err::<(), Error>(Error::TrailingBytes),
    {
        let next = self.read.next()?;
        match (self.tag, next) {
            (None, None) => Ok(()),
            _ => Err(Error::TrailingBytes),
        }
    }

    /// The next tag, read ahead and kept for the next step.
    pub fn peek_tag(&mut self) -> (r: Result<Tag>)
        ensures
            final(self).order() == old(self).order(),
            old(self).ahead() is Some <==> final(self).ahead() is Some,
            old(self).ahead() is Some ==> r == parse_tag(old(self).ahead()->0),
            r is Ok ==> final(self).ahead() == old(self).ahead(),
            r matches Ok(t) ==> final(self).peeked() == Some(t),
            r matches Ok(t) ==> extends(old(self).log(), final(self).log()) && final(self).front()
                == seq![tag_byte(t)] && span(old(self).front(), old(self).log(), final(self).log())
                == seq![tag_byte(t)],
    {
        if let Some(tag) = self.tag {
            proof {
                lemma_extends_append(self.log(), Seq::empty());
                assert(self.log() + Seq::<u8>::empty() =~= self.log());
                assert(self.front() + Seq::<u8>::empty() =~= self.front());
            }
            return Ok(tag);
        }
        match self.read.next()? {
            None => Err(Error::Io(IoError::UnexpectedEof)),
            Some(b) => match Tag::from_byte(b) {
                Some(t) => {
                    proof {
                        lemma_extends_append(old(self).log(), seq![b]);
                        assert(old(self).log().push(b) =~= old(self).log() + seq![b]);
                        assert(Seq::<u8>::empty() + seq![b] =~= seq![b]);
                    }
                    self.tag = Some(t);
                    assert(self.ahead()->0 =~= old(self).ahead()->0) by {
                        if old(self).ahead() is Some {
                            let p = old(self).ahead()->0;
                            assert(p =~= seq![p[0]] + p.drop_first());
                        }
                    }
                    Ok(t)
                },
                None => Err(Error::MalformedTag),
            },
        }
    }

    /// The next tag, taken.
    pub fn read_tag(&mut self) -> (r: Result<Tag>)
        ensures
            final(self).order() == old(self).order(),
            final(self).peeked() is None,
            steps(old(self).ahead(), final(self).ahead(), r, with_len(parse_tag(old(self).ahead()->0), 1)),
            r matches Ok(t) ==> extends(old(self).log(), final(self).log()) && span(
                old(self).front(),
                old(self).log(),
                final(self).log(),
            ) == seq![tag_byte(t)],
    {
        let tag = self.peek_tag();
        self.tag = None;
        let tag = tag?;
        proof {
            if old(self).ahead() is Some {
                assert(self.ahead()->0 =~= old(self).ahead()->0.skip(1));
            }
        }
        Ok(tag)
    }

    /// The error for a tag that is not of the shape asked for.
    pub fn bad_tag<T>(&self, tag: Tag) -> (r: Result<T>)
        ensures
            r == Err::<T, Error>(Error::InvalidType(tag)),
    {
        Err(Error::InvalidType(tag))
    }

    /// Takes the next tag, which must be `tag`.
    pub fn expect_tag(&mut self, tag: Tag) -> (r: Result<()>)
        ensures
            final(self).order() == old(self).order(),
            final(self).peeked() is None,
            steps(old(self).ahead(), final(self).ahead(), r, expect(old(self).ahead()->0, tag)),
            r is Ok ==> extends(old(self).log(), final(self).log()) && span(
                old(self).front(),
                old(self).log(),
                final(self).log(),
            ) == seq![tag_byte(tag)],
    {
        let actual = self.read_tag()?;
        if actual == tag {
            Ok(())
        } else {
            self.bad_tag(actual)
        }
    }

    /// The payload of an integer whose tag `tag` was taken.
    fn read_int_payload(&mut self, tag: Tag) -> (r: Result<i64>)
        requires
            is_int_tag(tag),
            old(self).peeked() is None,
        ensures
            final(self).order() == old(self).order(),
            final(self).peeked() is None,
            steps(
                old(self).ahead(),
                final(self).ahead(),
                r,
                with_len(
                    as_i64(parse_fixed(old(self).ahead()->0, int_width(tag), old(self).order())),
                    int_width(tag),
                ),
            ),
            old(self).ahead() is Some ==> (r matches Ok(v) ==> parse_fixed(
                old(self).ahead()->0,
                int_width(tag),
                old(self).order(),
            ) == Ok::<int, Error>(v as int)),
            r matches Ok(v) ==> extends(old(self).log(), final(self).log()) && {
                let d = span(old(self).front(), old(self).log(), final(self).log());
                d.len() == int_width(tag) && int_value(d, old(self).order()) == v
            },
    {
        match tag {
            Tag::Int8 => self.read_fixed(1),
            Tag::Int16 => self.read_fixed(2),
            Tag::Int32 => self.read_fixed(4),
            _ => self.read_fixed(8),
        }
    }

    /// A length or a count: an integer of any width that is not negative and
    /// can index memory.
    pub fn read_usize(&mut self) -> (r: Result<usize>)
        requires
            old(self).peeked() is None,
        ensures
            final(self).order() == old(self).order(),
            final(self).peeked() is None,
            steps(
                old(self).ahead(),
                final(self).ahead(),
                r,
                as_usize(parse_len(old(self).ahead()->0, old(self).order())),
            ),
            r matches Ok(v) ==> extends(old(self).log(), final(self).log()) && {
                let d = span(old(self).front(), old(self).log(), final(self).log());
                parse_len(d, old(self).order()) == Ok::<(nat, nat), Error>((v as nat, d.len()))
            },
    {
        let ghost l0 = self.log();
        let tag = self.read_tag()?;
        if !(tag == Tag::Int8 || tag == Tag::Int16 || tag == Tag::Int32 || tag == Tag::Int64) {
            return self.bad_tag(tag);
        }
        let ghost l1 = self.log();
        let v = self.read_int_payload(tag)?;
        proof {
            let payload = span(Seq::empty(), l1, self.log());
            lemma_tag_then(tag, payload, self.order());
            assert(span(old(self).front(), l0, self.log()) == seq![tag_byte(tag)] + payload);
            if old(self).ahead() is Some {
                let s = old(self).ahead()->0;
                assert(s.skip(1).skip(int_width(tag) as int) =~= s.skip((1 + int_width(tag)) as int));
            }
        }
        if v < 0 || v as u64 > usize::MAX as u64 {
            return Err(Error::IntegerOverflow);
        }
        Ok(v as usize)
    }

    /// The bytes of a byte string whose String tag was taken: its length,
    /// then a view of that many bytes.
    pub fn read_bytes<'a>(&'a mut self) -> (r: Result<Reference<'de, 'a, [u8]>>)
        requires
            old(self).peeked() is None,
        ensures
            final(self).order() == old(self).order(),
            final(self).peeked() is None,
            takes_bytes(
                old(self).ahead(),
                final(self).ahead(),
                r,
                parse_str_body(old(self).ahead()->0, old(self).order()),
            ),
            r matches Ok(v) ==> extends(old(self).log(), final(self).log()) && {
                let d = span(old(self).front(), old(self).log(), final(self).log());
                parse_str_body(d, old(self).order()) == Ok::<(Seq<u8>, nat), Error>((v.bytes(), d.len()))
            },
            old(self).ahead() is None ==> (r matches Ok(v) ==> v is Copied),
    {
        let ghost l0 = self.log();
        let len = self.read_usize()?;
        let ghost mid = self.ahead();
        let ghost l1 = self.log();
        let ghost e = self.order();
        let r = self.read.read_ref(len, &mut self.scratch);
        proof {
            if r is Ok {
                let b = r->Ok_0.bytes();
                let d1 = span(Seq::empty(), l0, l1);
                lemma_extends_append(l1, b);
                assert(span(Seq::empty(), l1, l1 + b) == b) by {
                    assert(Seq::<u8>::empty() + b =~= b);
                }
                lemma_len_prefix(d1, b, e);
                assert((d1 + b).subrange(d1.len() as int, d1.len() + len) =~= b);
            }
            if old(self).ahead() is Some {
                let s = old(self).ahead()->0;
                let k = (s.len() - mid->0.len()) as nat;
                assert(mid->0 =~= s.skip(k as int));
                if r is Ok {
                    assert(r->Ok_0.bytes() =~= s.subrange(k as int, k + len));
                    assert(mid->0.skip(len as int) =~= s.skip(k + len));
                }
            }
        }
        r
    }

    /// An object key: a byte string, String tag included.
    pub fn read_key<'a>(&'a mut self) -> (r: Result<Reference<'de, 'a, [u8]>>)
        ensures
            final(self).order() == old(self).order(),
            final(self).peeked() is None,
            takes_bytes(
                old(self).ahead(),
                final(self).ahead(),
                r,
                parse_key(old(self).ahead()->0, old(self).order()),
            ),
            r matches Ok(v) ==> extends(old(self).log(), final(self).log()) && {
                let d = span(old(self).front(), old(self).log(), final(self).log());
                parse_key(d, old(self).order()) == Ok::<(Seq<u8>, nat), Error>((v.bytes(), d.len()))
            },
            old(self).ahead() is None ==> (r matches Ok(v) ==> v is Copied),
    {
        let ghost s = self.ahead();
        self.expect_tag(Tag::String)?;
        proof {
            if s is Some {
                assert(s->0.skip(1).len() == s->0.len() - 1);
                let b = s->0.skip(1);
                assert forall|k: int| 0 <= k <= b.len() implies #[trigger] b.skip(k) =~= s->0.skip(
                    k + 1,
                ) by {}
                assert forall|k: int, j: int|
                    0 <= k <= j <= b.len() implies #[trigger] b.subrange(k, j) =~= s->0.subrange(
                    k + 1,
                    j + 1,
                ) by {}
            }
        }
        self.read_bytes()
    }

    /// A number: an integer of any width, or a real number.
    pub fn read_number(&mut self) -> (r: Result<Number>)
        ensures
            final(self).order() == old(self).order(),
            final(self).peeked() is None,
            steps(
                old(self).ahead(),
                final(self).ahead(),
                r,
                parse_number(old(self).ahead()->0, old(self).order()),
            ),
            r matches Ok(v) ==> extends(old(self).log(), final(self).log()) && {
                let d = span(old(self).front(), old(self).log(), final(self).log());
                parse_number(d, old(self).order()) == Ok::<(Number, nat), Error>((v, d.len()))
            },
    {
        let ghost l0 = self.log();
        let tag = self.read_tag()?;
        let ghost s = old(self).ahead()->0;
        let ghost l1 = self.log();
        if tag == Tag::Int8 || tag == Tag::Int16 || tag == Tag::Int32 || tag == Tag::Int64 {
            let v = self.read_int_payload(tag)?;
            proof {
                let payload = span(Seq::empty(), l1, self.log());
                lemma_tag_then(tag, payload, self.order());
                assert(span(old(self).front(), l0, self.log()) == seq![tag_byte(tag)] + payload);
                if old(self).ahead() is Some {
                    assert(s.skip(1).skip(int_width(tag) as int) =~= s.skip((1 + int_width(tag)) as int));
                }
            }
            Ok(Number::Int(v))
        } else if tag == Tag::Real {
            let v = self.read_fixed(8)?;
            proof {
                let payload = span(Seq::empty(), l1, self.log());
                lemma_tag_then(tag, payload, self.order());
                assert(span(old(self).front(), l0, self.log()) == seq![tag_byte(tag)] + payload);
                if old(self).ahead() is Some {
                    assert(s.skip(1).skip(8) =~= s.skip(9));
                }
            }
            Ok(Number::Real(v as u64))
        } else {
            self.bad_tag(tag)
        }
    }

    /// A boolean.
    pub fn read_bool(&mut self) -> (r: Result<bool>)
        ensures
            final(self).order() == old(self).order(),
            final(self).peeked() is None,
            steps(old(self).ahead(), final(self).ahead(), r, parse_bool(old(self).ahead()->0)),
            r matches Ok(v) ==> extends(old(self).log(), final(self).log()) && {
                let d = span(old(self).front(), old(self).log(), final(self).log());
                parse_bool(d) == Ok::<(bool, nat), Error>((v, d.len()))
            },
    {
        match self.read_tag()? {
            Tag::True => Ok(true),
            Tag::False => Ok(false),
            tag => self.bad_tag(tag),
        }
    }

    /// The null value, read as unit.
    pub fn read_unit(&mut self) -> (r: Result<()>)
        ensures
            final(self).order() == old(self).order(),
            final(self).peeked() is None,
            steps(old(self).ahead(), final(self).ahead(), r, expect(old(self).ahead()->0, Tag::Null)),
            r matches Ok(v) ==> extends(old(self).log(), final(self).log()) && {
                let d = span(old(self).front(), old(self).log(), final(self).log());
                expect(d, Tag::Null) == Ok::<((), nat), Error>((v, d.len()))
            },
    {
        self.expect_tag(Tag::Null)
    }

    /// Whether an optional value is absent: a Null tag is taken and stands for
    /// `None`; any other tag is left for the value that is present.
    pub fn next_is_null(&mut self) -> (r: Result<bool>)
        ensures
            final(self).order() == old(self).order(),
            old(self).ahead() is Some <==> final(self).ahead() is Some,
            old(self).ahead() is Some ==> match parse_tag(old(self).ahead()->0) {
                Err(x) => r == Err::<bool, Error>(x),
                Ok(t) => if t == Tag::Null {
                    r == Ok::<bool, Error>(true) && final(self).ahead() == Some(
                        old(self).ahead()->0.skip(1),
                    )
                } else {
                    r == Ok::<bool, Error>(false) && final(self).ahead() == old(self).ahead()
                },
            },
            r == Ok::<bool, Error>(true) ==> final(self).peeked() is None,
            r == Ok::<bool, Error>(false) ==> final(self).peeked() is Some,
            r == Ok::<bool, Error>(true) ==> extends(old(self).log(), final(self).log()) && span(
                old(self).front(),
                old(self).log(),
                final(self).log(),
            ) == seq![tag_byte(Tag::Null)],
            r == Ok::<bool, Error>(false) ==> extends(old(self).log(), final(self).log()) && span(
                old(self).front(),
                old(self).log(),
                final(self).log(),
            ) == final(self).front() && final(self).peeked() != Some(Tag::Null),
    {
        let ghost l0 = self.log();
        let tag = self.peek_tag()?;
        let ghost l1 = self.log();
        let ghost f1 = self.front();
        if tag == Tag::Null {
            self.read_tag()?;
            proof {
                lemma_span_after(old(self).front(), l0, f1, l1, self.log());
            }
            Ok(true)
        } else {
            Ok(false)
        }
    }

    /// The header of an object: its tag, then its entry count.
    pub fn begin_map(&mut self) -> (r: Result<usize>)
        ensures
            final(self).order() == old(self).order(),
            final(self).peeked() is None,
            steps(
                old(self).ahead(),
                final(self).ahead(),
                r,
                parse_header(old(self).ahead()->0, Tag::Object, old(self).order()),
            ),
            r matches Ok(v) ==> extends(old(self).log(), final(self).log()) && {
                let d = span(old(self).front(), old(self).log(), final(self).log());
                parse_header(d, Tag::Object, old(self).order()) == Ok::<(usize, nat), Error>((v, d.len()))
            },
    {
        let ghost s = old(self).ahead()->0;
        let ghost l0 = self.log();
        self.expect_tag(Tag::Object)?;
        let ghost l1 = self.log();
        let n = self.read_usize();
        proof {
            if n is Ok {
                let d2 = span(Seq::empty(), l1, self.log());
                lemma_tag_then(Tag::Object, d2, self.order());
                assert(span(old(self).front(), l0, self.log()) == seq![tag_byte(Tag::Object)] + d2);
            }
            if old(self).ahead() is Some && n is Ok {
                let k = (s.len() - 1 - self.ahead()->0.len()) as nat;
                assert(s.skip(1).skip(k as int) =~= s.skip(k + 1 as int));
            }
        }
        n
    }

    /// The name of an enum's variant: a byte string names a unit variant; an
    /// object of one entry names, by its key, a variant whose payload follows.
    pub fn read_variant<'a>(&'a mut self) -> (r: Result<Variant<'de, 'a>>)
        ensures
            final(self).order() == old(self).order(),
            old(self).ahead() is Some <==> final(self).ahead() is Some,
            old(self).ahead() is Some ==> match parse_variant(old(self).ahead()->0, old(self).order()) {
                Ok((data, name, k)) => r matches Ok(v) && v.has_data() == data && v.name() == name
                    && k <= old(self).ahead()->0.len() && final(self).ahead() == Some(
                    old(self).ahead()->0.skip(k as int),
                ),
                Err(x) => r matches Err(y) && y == x,
            },
            r matches Ok(v) ==> extends(old(self).log(), final(self).log()) && {
                let d = span(old(self).front(), old(self).log(), final(self).log());
                parse_variant(d, old(self).order()) == Ok::<(bool, Seq<u8>, nat), Error>(
                    (v.has_data(), v.name(), d.len()),
                )
            },
    {
        let ghost s = old(self).ahead()->0;
        let ghost e = old(self).order();
        let ghost f0 = self.front();
        let ghost l0 = self.log();
        let tag = self.peek_tag()?;
        let ghost f1 = self.front();
        let ghost l1 = self.log();
        if tag == Tag::Object {
            let n = self.begin_map()?;
            if n != 1 {
                return self.bad_tag(Tag::Object);
            }
            let ghost l2 = self.log();
            proof {
                lemma_span_after(f0, l0, f1, l1, l2);
                let h = span(f0, l0, l2);
                assert forall|l3: Seq<u8>|
                    #![trigger span(f0, l0, l3)]
                    extends(l2, l3) && parse_key(span(Seq::<u8>::empty(), l2, l3), e) is Ok
                        && parse_key(span(Seq::<u8>::empty(), l2, l3), e)->Ok_0.1 == span(
                        Seq::<u8>::empty(),
                        l2,
                        l3,
                    ).len() implies extends(l0, l3) && parse_variant(span(f0, l0, l3), e) == Ok::<
                    (bool, Seq<u8>, nat),
                    Error,
                >((true, parse_key(span(Seq::<u8>::empty(), l2, l3), e)->Ok_0.0, span(f0, l0, l3).len())) by {
                    let d3 = span(Seq::<u8>::empty(), l2, l3);
                    lemma_span_compose(f0, l0, l2, l3);
                    lemma_data_variant_of(h, d3, e);
                }
            }
            let ghost mid = self.ahead()->0;
            let name = self.read_key()?;
            proof {
                if old(self).ahead() is Some {
                    let k1 = (s.len() - mid.len()) as nat;
                    assert(mid =~= s.skip(k1 as int));
                    let k2 = parse_key(mid, e)->Ok_0.1;
                    assert(mid.skip(k2 as int) =~= s.skip((k1 + k2) as int));
                }
            }
            Ok(Variant::Data(name))
        } else if tag == Tag::String {
            self.read_tag()?;
            let ghost l2 = self.log();
            proof {
                lemma_span_after(f0, l0, f1, l1, l2);
                assert forall|l3: Seq<u8>|
                    #![trigger span(f0, l0, l3)]
                    extends(l2, l3) && parse_str_body(span(Seq::<u8>::empty(), l2, l3), e) is Ok
                        && parse_str_body(span(Seq::<u8>::empty(), l2, l3), e)->Ok_0.1 == span(
                        Seq::<u8>::empty(),
                        l2,
                        l3,
                    ).len() implies extends(l0, l3) && parse_variant(span(f0, l0, l3), e) == Ok::<
                    (bool, Seq<u8>, nat),
                    Error,
                >((false, parse_str_body(span(Seq::<u8>::empty(), l2, l3), e)->Ok_0.0, span(f0, l0, l3).len())) by {
                    let d3 = span(Seq::<u8>::empty(), l2, l3);
                    lemma_span_compose(f0, l0, l2, l3);
                    lemma_tag_then(Tag::String, d3, e);
                }
            }
            let ghost mid = self.ahead()->0;
            let name = self.read_bytes()?;
            proof {
                if old(self).ahead() is Some {
                    let k2 = parse_str_body(mid, e)->Ok_0.1;
                    assert(mid =~= s.skip(1));
                    assert(mid.skip(k2 as int) =~= s.skip((k2 + 1) as int));
                }
            }
            Ok(Variant::Unit(name))
        } else {
            self.bad_tag(tag)
        }
    }

    /// The key list of a templated array whose Templated tag was taken:
    /// an array of byte strings, each kept as a view into the input where
    /// the source allows it and as a copy otherwise.
    #[verifier::rlimit(60)]
    pub fn scan_template_keys(&mut self) -> (r: Result<Vec<TemplateKey<'de>>>)
        requires
            old(self).peeked() is None,
        ensures
            final(self).order() == old(self).order(),
            final(self).peeked() is None,
            old(self).ahead() is Some <==> final(self).ahead() is Some,
            old(self).ahead() is Some ==> match parse_template_keys(old(self).ahead()->0, old(self).order()) {
                Ok((ks, k)) => r matches Ok(keys) && key_bytes(keys@) == ks && k <= old(self).ahead()->0.len()
                    && final(self).ahead() == Some(old(self).ahead()->0.skip(k as int)),
                Err(x) => r matches Err(y) && y == x,
            },
            r matches Ok(keys) ==> extends(old(self).log(), final(self).log()) && {
                let d = span(old(self).front(), old(self).log(), final(self).log());
                parse_template_keys(d, old(self).order()) == Ok::<(Seq<Seq<u8>>, nat), Error>(
                    (key_bytes(keys@), d.len()),
                )
            },
    {
        let ghost s = self.ahead()->0;
        let ghost e = self.order();
        let ghost det = self.ahead() is Some;
        let ghost l0 = self.log();
        self.expect_tag(Tag::Array)?;
        let ghost la = self.log();
        let n = self.read_usize()?;
        let ghost l1 = self.log();
        let ghost lb = span(Seq::<u8>::empty(), la, l1);
        let ghost s1 = self.ahead()->0;
        let ghost k0 = (s.len() - s1.len()) as nat;
        proof {
            if det {
                assert(s1 == s.skip(k0 as int));
                assert(parse_template_keys(s, e) == shift(parse_keys(s1, e, n as nat), k0));
            }
        }
        let mut keys: Vec<TemplateKey<'de>> = Vec::new();
        let ghost mut c: nat = 0;
        proof {
            lemma_prepend_empty(parse_keys(s1, e, n as nat));
            lemma_extends_append(l1, Seq::empty());
            assert(l1 + Seq::<u8>::empty() =~= l1);
            assert(span(Seq::<u8>::empty(), l1, l1) =~= Seq::<u8>::empty());
            assert(key_bytes(keys@) =~= Seq::<Seq<u8>>::empty());
        }
        let mut i: usize = 0;
        while i < n
            invariant
                self.order() == e,
                l0 == old(self).log(),
                extends(l0, la) && extends(la, l1) && extends(l1, self.log()),
                span(old(self).front(), l0, la) == seq![tag_byte(Tag::Array)],
                lb == span(Seq::<u8>::empty(), la, l1),
                parse_len(lb, e) == Ok::<(nat, nat), Error>((n as nat, lb.len())),
                parse_keys(span(Seq::<u8>::empty(), l1, self.log()), e, i as nat) == Ok::<
                    (Seq<Seq<u8>>, nat),
                    Error,
                >((key_bytes(keys@), span(Seq::<u8>::empty(), l1, self.log()).len())),
                e == old(self).order(),
                self.peeked() is None,
                det <==> self.ahead() is Some,
                det <==> old(self).ahead() is Some,
                det ==> s == old(self).ahead()->0,
                det ==> k0 <= s.len() && s1 == s.skip(k0 as int),
                det ==> parse_template_keys(s, e) == shift(parse_keys(s1, e, n as nat), k0),
                det ==> c <= s1.len() && self.ahead()->0 == s1.skip(c as int),
                det ==> parse_keys(s1, e, n as nat) == prepend(
                    key_bytes(keys@),
                    c,
                    parse_keys(s1.skip(c as int), e, (n - i) as nat),
                ),
                i <= n,
            decreases n - i,
        {
            let ghost cur = self.ahead()->0;
            let ghost lk = self.log();
            let key = self.read_key()?;
            let ghost k = parse_key(cur, e)->Ok_0.1;
            let ghost kbytes = key.bytes();
            let owned = match key {
                Reference::Borrowed(b) => TemplateKey::Borrowed(b),
                Reference::Copied(b) => TemplateKey::Owned(vstd::slice::slice_to_vec(b)),
            };
            proof {
                if det {
                    lemma_prepend_cons(key_bytes(keys@), c, owned.bytes(), k, parse_keys(advance(cur, k), e, (n - i - 1) as nat));
                }
                let dk = span(Seq::<u8>::empty(), lk, self.log());
                assert(span(Seq::<u8>::empty(), l1, self.log()) == span(Seq::<u8>::empty(), l1, lk) + dk);
                lemma_keys_snoc(span(Seq::<u8>::empty(), l1, lk), dk, e, i as nat, key_bytes(keys@), kbytes);
            }
            let ghost before = key_bytes(keys@);
            let ghost ob = owned.bytes();
            keys.push(owned);
            proof {
                assert(key_bytes(keys@) =~= before.push(ob));
                if det {
                    c = c + k;
                }
            }
            i = i + 1;
        }
        proof {
            if det {
                lemma_prepend_done(key_bytes(keys@), c);
            }
            let dk = span(Seq::<u8>::empty(), l1, self.log());
            let w = span(old(self).front(), l0, self.log());
            lemma_span_compose(old(self).front(), l0, la, l1);
            lemma_span_compose(old(self).front(), l0, l1, self.log());
            assert(w == seq![tag_byte(Tag::Array)] + (lb + dk));
            lemma_template_keys_of(lb, dk, e, n as nat, key_bytes(keys@));
        }
        Ok(keys)
    }

    /// Within a row of a templated array, where the cells for keys
    /// `from..count` are ahead: takes the Missing cells and gives the index of
    /// the first key whose cell holds a value, with that value's tag read
    /// ahead; `None` when every cell left is Missing.
    pub fn next_template_key(&mut self, from: usize, count: usize) -> (r: Result<Option<usize>>)
        requires
            from <= count,
        ensures
            final(self).order() == old(self).order(),
            steps(old(self).ahead(), final(self).ahead(), r, skip_missing(old(self).ahead()->0, from, count)),
            r matches Ok(Some(j)) ==> from <= j < count && final(self).peeked() is Some
                && final(self).peeked() != Some(Tag::Missing),
            r matches Ok(o) ==> extends(old(self).log(), final(self).log()) && {
                let d = span(old(self).front(), old(self).log(), final(self).log());
                let k = (d.len() - final(self).front().len()) as nat;
                &&& d == missing_run(k) + final(self).front()
                &&& skip_missing(d, from, count) == Ok::<(Option<usize>, nat), Error>((o, k))
            },
    {
        let ghost s = self.ahead()->0;
        let ghost det = self.ahead() is Some;
        let ghost mut c: nat = 0;
        let ghost l0 = self.log();
        let mut j = from;
        proof {
            if det {
                assert(s.skip(0) =~= s);
            }
            lemma_extends_append(l0, Seq::empty());
            assert(l0 + Seq::<u8>::empty() =~= l0);
            assert(span(old(self).front(), l0, l0) =~= missing_run(0) + self.front());
        }
        while j < count
            invariant
                from <= j <= count,
                self.order() == old(self).order(),
                det <==> self.ahead() is Some,
                det <==> old(self).ahead() is Some,
                det ==> s == old(self).ahead()->0,
                det ==> c <= s.len() && self.ahead()->0 == s.skip(c as int),
                det ==> skip_missing(s, from, count) == shift(skip_missing(s.skip(c as int), j, count), c),
                l0 == old(self).log(),
                extends(l0, self.log()),
                span(old(self).front(), l0, self.log()) == missing_run((j - from) as nat) + self.front(),
            decreases count - j,
        {
            let ghost cur = self.ahead()->0;
            let ghost lc = self.log();
            let ghost fc = self.front();
            let t = self.peek_tag()?;
            let ghost l1 = self.log();
            let ghost f1 = self.front();
            proof {
                let run = missing_run((j - from) as nat);
                lemma_extends_trans(l0, lc, l1);
                assert(span(old(self).front(), l0, l1) =~= run + seq![tag_byte(t)]);
                lemma_tag_byte_round_trip(t);
            }
            if !(t == Tag::Missing) {
                proof {
                    let run = missing_run((j - from) as nat);
                    lemma_skip_run((j - from) as nat, seq![tag_byte(t)], from, count);
                }
                return Ok(Some(j));
            }
            self.read_tag()?;
            proof {
                if det {
                    c = c + 1;
                }
                let run = missing_run((j - from) as nat);
                let l2 = self.log();
                lemma_span_extend(old(self).front(), l0, l1, l2);
                assert(span(f1, l1, l2) == seq![tag_byte(Tag::Missing)]);
                assert(l2.skip(l1.len() as int).len() == 0);
                assert(self.front() == Seq::<u8>::empty());
                assert(span(old(self).front(), l0, l1) == run + seq![tag_byte(Tag::Missing)]);
                assert(span(old(self).front(), l0, l2) =~= missing_run((j + 1 - from) as nat) + self.front());
            }
            j = j + 1;
        }
        proof {
            lemma_skip_run((j - from) as nat, self.front(), from, count);
        }
        Ok(None)
    }

    /// The header of a sequence: an array's length, or a templated array's
    /// keys and row count.
    pub fn begin_seq(&mut self) -> (r: Result<Shape<'de>>)
        ensures
            final(self).order() == old(self).order(),
            final(self).peeked() is None,
            takes_shape(old(self).ahead(), final(self).ahead(), r, parse_shape(old(self).ahead()->0, old(self).order(), false)),
            r matches Ok(sh) ==> extends(old(self).log(), final(self).log()) && {
                let d = span(old(self).front(), old(self).log(), final(self).log());
                parse_shape(d, old(self).order(), false) == Ok::<((Tag, Seq<Seq<u8>>, nat), nat), Error>(
                    (sh.view(), d.len()),
                )
            },
    {
        self.begin_shape(false)
    }

    /// The header of a struct: an array's length, a templated array's keys
    /// and row count, or an object's entry count.
    pub fn begin_struct(&mut self) -> (r: Result<Shape<'de>>)
        ensures
            final(self).order() == old(self).order(),
            final(self).peeked() is None,
            takes_shape(old(self).ahead(), final(self).ahead(), r, parse_shape(old(self).ahead()->0, old(self).order(), true)),
            r matches Ok(sh) ==> extends(old(self).log(), final(self).log()) && {
                let d = span(old(self).front(), old(self).log(), final(self).log());
                parse_shape(d, old(self).order(), true) == Ok::<((Tag, Seq<Seq<u8>>, nat), nat), Error>(
                    (sh.view(), d.len()),
                )
            },
    {
        self.begin_shape(true)
    }

    #[verifier::rlimit(80)]
    fn begin_shape(&mut self, object: bool) -> (r: Result<Shape<'de>>)
        ensures
            final(self).order() == old(self).order(),
            final(self).peeked() is None,
            takes_shape(old(self).ahead(), final(self).ahead(), r, parse_shape(old(self).ahead()->0, old(self).order(), object)),
            r matches Ok(sh) ==> extends(old(self).log(), final(self).log()) && {
                let d = span(old(self).front(), old(self).log(), final(self).log());
                parse_shape(d, old(self).order(), object) == Ok::<((Tag, Seq<Seq<u8>>, nat), nat), Error>(
                    (sh.view(), d.len()),
                )
            },
    {
        let ghost s = self.ahead()->0;
        let ghost e = self.order();
        let ghost l0 = self.log();
        let tag = self.read_tag()?;
        let ghost l1 = self.log();
        if tag == Tag::Array || (tag == Tag::Object && object) {
            let n = self.read_usize()?;
            proof {
                let lb = span(Seq::<u8>::empty(), l1, self.log());
                lemma_shape_of(tag, lb, e, object, n as nat);
                assert(span(old(self).front(), l0, self.log()) == seq![tag_byte(tag)] + lb);
            }
            if tag == Tag::Array {
                Ok(Shape::Array(n))
            } else {
                Ok(Shape::Object(n))
            }
        } else if tag == Tag::Templated {
            let keys = self.scan_template_keys()?;
            let ghost mid = self.ahead()->0;
            let ghost l2 = self.log();
            let n = self.read_usize();
            proof {
                if n is Ok {
                    let tk = span(Seq::<u8>::empty(), l1, l2);
                    let lb = span(Seq::<u8>::empty(), l2, self.log());
                    lemma_span_compose(Seq::<u8>::empty(), l1, l2, self.log());
                    lemma_templated_shape_of(tk, lb, e, object, key_bytes(keys@), n->Ok_0 as nat);
                    assert(span(old(self).front(), l0, self.log()) == seq![tag_byte(Tag::Templated)] + (tk + lb));
                }
                if old(self).ahead() is Some {
                    let k1 = parse_template_keys(s.skip(1), e)->Ok_0.1;
                    assert(mid == s.skip((1 + k1) as int));
                    assert(advance(s, 1 + k1) == mid);
                }
            }
            let n = n?;
            Ok(Shape::Templated(keys, n))
        } else {
            self.bad_tag(tag)
        }
    }

    /// A whole value, whatever its kind: a templated array comes out as an
    /// array of objects, each without the keys whose cells are Missing.
    pub fn decode_value(&mut self) -> (r: Result<Value>)
        requires
            old(self).ahead() is Some,
        ensures
            final(self).order() == old(self).order(),
            final(self).ahead() is Some,
            decodes(
                old(self).ahead()->0,
                final(self).ahead()->0,
                r,
                parse(old(self).ahead()->0, old(self).order()),
            ),
        decreases old(self).ahead()->0.len(), 0nat,
    {
        let ghost s = self.ahead()->0;
        let ghost e = self.order();
        let tag = self.read_tag()?;
        let ghost r1 = self.ahead()->0;
        assert(r1 == s.skip(1));
        match tag {
            Tag::Array => {
                let n = self.read_usize()?;
                let items = self.decode_items(n)?;
                proof {
                    lemma_array_view(items);
                }
                Ok(Value::Array(items))
            },
            Tag::Object => {
                let n = self.read_usize()?;
                let entries = self.decode_entries(n)?;
                proof {
                    lemma_object_view(entries);
                }
                Ok(Value::Object(entries))
            },
            Tag::String => {
                let b = self.read_bytes()?;
                let v = vstd::slice::slice_to_vec(b.deref());
                Ok(Value::Bytes(v))
            },
            Tag::Int8 | Tag::Int16 | Tag::Int32 | Tag::Int64 => {
                let v = self.read_int_payload(tag)?;
                Ok(Value::Int(v))
            },
            Tag::Real => {
                let v = self.read_fixed(8)?;
                Ok(Value::Real(v as u64))
            },
            Tag::True => Ok(Value::Bool(true)),
            Tag::False => Ok(Value::Bool(false)),
            Tag::Null => Ok(Value::Null),
            Tag::Templated => {
                let keys = self.scan_template_keys()?;
                let ghost mid = self.ahead()->0;
                let n = self.read_usize();
                proof {
                    let k1 = parse_template_keys(r1, e)->Ok_0.1;
                    assert(mid == s.skip((1 + k1) as int));
                }
                let n = n?;
                let ghost mid2 = self.ahead()->0;
                let rows = self.decode_rows(&keys, n);
                proof {
                    let k1 = parse_template_keys(r1, e)->Ok_0.1;
                    let k2 = parse_len(mid, e)->Ok_0.1;
                    assert(mid2 == s.skip((1 + k1 + k2) as int));
                }
                let rows = rows?;
                proof {
                    lemma_array_view(rows);
                }
                Ok(Value::Array(rows))
            },
            Tag::Missing => self.bad_tag(tag),
        }
    }

    /// `n` values, one after another.
    fn decode_items(&mut self, n: usize) -> (r: Result<Vec<Value>>)
        requires
            old(self).ahead() is Some,
        ensures
            final(self).order() == old(self).order(),
            final(self).ahead() is Some,
            decodes_all(
                old(self).ahead()->0,
                final(self).ahead()->0,
                r,
                parse_items(old(self).ahead()->0, old(self).order(), n as nat),
            ),
        decreases old(self).ahead()->0.len(), 1nat,
    {
        let ghost s = self.ahead()->0;
        let ghost e = self.order();
        let mut items: Vec<Value> = Vec::new();
        let ghost mut c: nat = 0;
        proof {
            lemma_prepend_empty(parse_items(s, e, n as nat));
            assert(s.skip(0) =~= s);
            assert(values_model(items@) =~= Seq::<Model>::empty());
        }
        let mut i: usize = 0;
        while i < n
            invariant
                i <= n,
                s == old(self).ahead()->0,
                e == old(self).order(),
                self.order() == e,
                self.ahead() is Some,
                c <= s.len(),
                self.ahead()->0 == s.skip(c as int),
                parse_items(s, e, n as nat) == prepend(
                    values_model(items@),
                    c,
                    parse_items(s.skip(c as int), e, (n - i) as nat),
                ),
            decreases n - i,
        {
            let ghost cur = self.ahead()->0;
            let v = self.decode_value()?;
            let ghost k = parse(cur, e)->Ok_0.1;
            proof {
                lemma_prepend_cons(values_model(items@), c, v@, k, parse_items(advance(cur, k), e, (n - i - 1) as nat));
            }
            let ghost before = values_model(items@);
            let ghost vm = v@;
            items.push(v);
            proof {
                assert(values_model(items@) =~= before.push(vm));
                c = c + k;
            }
            i = i + 1;
        }
        proof {
            lemma_prepend_done(values_model(items@), c);
        }
        Ok(items)
    }

    /// `n` key and value pairs, one after another.
    fn decode_entries(&mut self, n: usize) -> (r: Result<Vec<(Vec<u8>, Value)>>)
        requires
            old(self).ahead() is Some,
        ensures
            final(self).order() == old(self).order(),
            final(self).ahead() is Some,
            decodes_entries(
                old(self).ahead()->0,
                final(self).ahead()->0,
                r,
                parse_entries(old(self).ahead()->0, old(self).order(), n as nat),
            ),
        decreases old(self).ahead()->0.len(), 1nat,
    {
        let ghost s = self.ahead()->0;
        let ghost e = self.order();
        let mut entries: Vec<(Vec<u8>, Value)> = Vec::new();
        let ghost mut c: nat = 0;
        proof {
            lemma_prepend_empty(parse_entries(s, e, n as nat));
            assert(s.skip(0) =~= s);
            assert(entries_model(entries@) =~= Seq::<(Seq<u8>, Model)>::empty());
        }
        let mut i: usize = 0;
        while i < n
            invariant
                i <= n,
                s == old(self).ahead()->0,
                e == old(self).order(),
                self.order() == e,
                self.ahead() is Some,
                c <= s.len(),
                self.ahead()->0 == s.skip(c as int),
                parse_entries(s, e, n as nat) == prepend(
                    entries_model(entries@),
                    c,
                    parse_entries(s.skip(c as int), e, (n - i) as nat),
                ),
            decreases n - i,
        {
            let ghost cur = self.ahead()->0;
            let key = self.read_key()?;
            let kb = vstd::slice::slice_to_vec(key.deref());
            let ghost k1 = parse_key(cur, e)->Ok_0.1;
            let ghost mid = self.ahead()->0;
            assert(mid == cur.skip(k1 as int));
            let v = self.decode_value()?;
            let ghost k2 = parse(mid, e)->Ok_0.1;
            proof {
                assert(advance(cur, k1) == mid);
                assert(advance(cur, k1 + k2) == cur.skip((k1 + k2) as int));
                lemma_prepend_cons(
                    entries_model(entries@),
                    c,
                    (kb@, v@),
                    k1 + k2,
                    parse_entries(advance(cur, k1 + k2), e, (n - i - 1) as nat),
                );
            }
            let ghost before = entries_model(entries@);
            let ghost em = (kb@, v@);
            entries.push((kb, v));
            proof {
                assert(entries_model(entries@) =~= before.push(em));
                c = c + k1 + k2;
            }
            i = i + 1;
        }
        proof {
            lemma_prepend_done(entries_model(entries@), c);
        }
        Ok(entries)
    }

    /// One row of a templated array over `keys`: an object that leaves out
    /// the keys whose cells are Missing.
    fn decode_row(&mut self, keys: &Vec<TemplateKey<'de>>) -> (r: Result<Vec<(Vec<u8>, Value)>>)
        requires
            old(self).ahead() is Some,
        ensures
            final(self).order() == old(self).order(),
            final(self).ahead() is Some,
            decodes_entries(
                old(self).ahead()->0,
                final(self).ahead()->0,
                r,
                parse_row(old(self).ahead()->0, old(self).order(), key_bytes(keys@), 0),
            ),
        decreases old(self).ahead()->0.len(), 1nat,
    {
        let ghost s = self.ahead()->0;
        let ghost e = self.order();
        let ghost ks = key_bytes(keys@);
        let mut entries: Vec<(Vec<u8>, Value)> = Vec::new();
        let ghost mut c: nat = 0;
        proof {
            lemma_prepend_empty(parse_row(s, e, ks, 0));
            assert(s.skip(0) =~= s);
            assert(entries_model(entries@) =~= Seq::<(Seq<u8>, Model)>::empty());
        }
        let mut j: usize = 0;
        while j < keys.len()
            invariant
                j <= keys@.len(),
                ks == key_bytes(keys@),
                s == old(self).ahead()->0,
                e == old(self).order(),
                self.order() == e,
                self.ahead() is Some,
                c <= s.len(),
                self.ahead()->0 == s.skip(c as int),
                parse_row(s, e, ks, 0) == prepend(
                    entries_model(entries@),
                    c,
                    parse_row(s.skip(c as int), e, ks, j as nat),
                ),
            decreases keys@.len() - j,
        {
            let ghost cur = self.ahead()->0;
            let t = self.peek_tag()?;
            if t == Tag::Missing {
                self.read_tag()?;
                proof {
                    lemma_prepend_shift(entries_model(entries@), c, 1, parse_row(cur.skip(1), e, ks, (j + 1) as nat));
                    c = c + 1;
                }
            } else {
                let v = self.decode_value()?;
                let ghost k = parse(cur, e)->Ok_0.1;
                let kb = vstd::slice::slice_to_vec(keys[j].as_slice());
                proof {
                    assert(kb@ == ks[j as int]);
                    lemma_prepend_cons(
                        entries_model(entries@),
                        c,
                        (kb@, v@),
                        k,
                        parse_row(advance(cur, k), e, ks, (j + 1) as nat),
                    );
                }
                let ghost before = entries_model(entries@);
                let ghost em = (kb@, v@);
                entries.push((kb, v));
                proof {
                    assert(entries_model(entries@) =~= before.push(em));
                    c = c + k;
                }
            }
            j = j + 1;
        }
        proof {
            lemma_prepend_done(entries_model(entries@), c);
        }
        Ok(entries)
    }

    /// `n` rows of a templated array over `keys`.
    fn decode_rows(&mut self, keys: &Vec<TemplateKey<'de>>, n: usize) -> (r: Result<Vec<Value>>)
        requires
            old(self).ahead() is Some,
        ensures
            final(self).order() == old(self).order(),
            final(self).ahead() is Some,
            decodes_all(
                old(self).ahead()->0,
                final(self).ahead()->0,
                r,
                parse_rows(old(self).ahead()->0, old(self).order(), key_bytes(keys@), n as nat),
            ),
        decreases old(self).ahead()->0.len(), 2nat,
    {
        let ghost s = self.ahead()->0;
        let ghost e = self.order();
        let ghost ks = key_bytes(keys@);
        let mut rows: Vec<Value> = Vec::new();
        let ghost mut c: nat = 0;
        proof {
            lemma_prepend_empty(parse_rows(s, e, ks, n as nat));
            assert(s.skip(0) =~= s);
            assert(values_model(rows@) =~= Seq::<Model>::empty());
        }
        let mut i: usize = 0;
        while i < n
            invariant
                i <= n,
                ks == key_bytes(keys@),
                s == old(self).ahead()->0,
                e == old(self).order(),
                self.order() == e,
                self.ahead() is Some,
                c <= s.len(),
                self.ahead()->0 == s.skip(c as int),
                parse_rows(s, e, ks, n as nat) == prepend(
                    values_model(rows@),
                    c,
                    parse_rows(s.skip(c as int), e, ks, (n - i) as nat),
                ),
            decreases n - i,
        {
            let ghost cur = self.ahead()->0;
            let row = self.decode_row(keys)?;
            let ghost k = parse_row(cur, e, ks, 0)->Ok_0.1;
            let v = Value::Object(row);
            proof {
                lemma_object_view(row);
                lemma_prepend_cons(values_model(rows@), c, v@, k, parse_rows(advance(cur, k), e, ks, (n - i - 1) as nat));
            }
            let ghost before = values_model(rows@);
            let ghost vm = v@;
            rows.push(v);
            proof {
                assert(values_model(rows@) =~= before.push(vm));
                c = c + k;
            }
            i = i + 1;
        }
        proof {
            lemma_prepend_done(values_model(rows@), c);
        }
        Ok(rows)
    }

    /// A signed payload of `width` bytes.
    fn read_fixed(&mut self, width: usize) -> (r: Result<i64>)
        requires
            1 <= width <= 8,
            old(self).peeked() is None,
        ensures
            final(self).order() == old(self).order(),
            final(self).peeked() is None,
            steps(
                old(self).ahead(),
                final(self).ahead(),
                r,
                with_len(
                    as_i64(parse_fixed(old(self).ahead()->0, width as nat, old(self).order())),
                    width as nat,
                ),
            ),
            old(self).ahead() is Some ==> (r matches Ok(v) ==> parse_fixed(
                old(self).ahead()->0,
                width as nat,
                old(self).order(),
            ) == Ok::<int, Error>(v as int)),
            r matches Ok(v) ==> extends(old(self).log(), final(self).log()) && {
                let d = span(old(self).front(), old(self).log(), final(self).log());
                d.len() == width && int_value(d, old(self).order()) == v
            },
    {
        let ghost log0 = self.log();
        let bytes = self.read.read_ref(width, &mut self.scratch)?;
        proof {
            lemma_extends_append(log0, bytes.bytes());
            assert(Seq::<u8>::empty() + bytes.bytes() =~= bytes.bytes());
        }
        let v = read_int(bytes.deref(), self.endian);
        Ok(v)
    }
}

/// What decoding a value promises where the input is in memory: the value
/// and the byte count that `expected` gives, or its error.
pub open spec fn decodes(before: Seq<u8>, after: Seq<u8>, r: Result<Value>, expected: Result<(Model, nat)>) -> bool {
    match expected {
        Ok((m, k)) => r matches Ok(v) && v@ == m && k <= before.len() && after == before.skip(k as int),
        Err(x) => r matches Err(y) && y == x,
    }
}

/// The same, for values one after another.
pub open spec fn decodes_all(
    before: Seq<u8>,
    after: Seq<u8>,
    r: Result<Vec<Value>>,
    expected: Result<(Seq<Model>, nat)>,
) -> bool {
    match expected {
        Ok((ms, k)) => r matches Ok(vs) && values_model(vs@) == ms && k <= before.len() && after
            == before.skip(k as int),
        Err(x) => r matches Err(y) && y == x,
    }
}

/// The same, for the entries of an object.
pub open spec fn decodes_entries(
    before: Seq<u8>,
    after: Seq<u8>,
    r: Result<Vec<(Vec<u8>, Value)>>,
    expected: Result<(Seq<(Seq<u8>, Model)>, nat)>,
) -> bool {
    match expected {
        Ok((ms, k)) => r matches Ok(es) && entries_model(es@) == ms && k <= before.len() && after
            == before.skip(k as int),
        Err(x) => r matches Err(y) && y == x,
    }
}

/// A key of a templated array, kept for all of its rows.
pub enum TemplateKey<'de> {
    Borrowed(&'de [u8]),
    Owned(Vec<u8>),
}

impl<'de> TemplateKey<'de> {
    pub open spec fn bytes(&self) -> Seq<u8> {
        match self {
            TemplateKey::Borrowed(b) => b@,
            TemplateKey::Owned(b) => b@,
        }
    }

    /// The key's bytes.
    pub fn as_slice(&self) -> (r: &[u8])
        ensures
            r@ == self.bytes(),
    {
        match self {
            TemplateKey::Borrowed(b) => b,
            TemplateKey::Owned(b) => b.as_slice(),
        }
    }
}

/// The bytes of each key in `keys`.
pub open spec fn key_bytes<'de>(keys: Seq<TemplateKey<'de>>) -> Seq<Seq<u8>> {
    Seq::new(keys.len(), |i: int| keys[i].bytes())
}

/// Within a templated row whose cells for keys `i..n` are at the front of
/// `s`: the index of the first key whose cell is not Missing, if any, and the
/// bytes of the Missing cells before it.
pub open spec fn skip_missing(s: Seq<u8>, i: usize, n: usize) -> Result<(Option<usize>, nat)>
    decreases n - i,
{
    if i >= n {
        Ok((None, 0))
    } else {
        match parse_tag(s) {
            Err(x) => Err(x),
            Ok(t) => if t == Tag::Missing {
                shift(skip_missing(s.skip(1), (i + 1) as usize, n), 1)
            } else {
                Ok((Some(i), 0))
            },
        }
    }
}

/// `c` Missing cells.
pub open spec fn missing_run(c: nat) -> Seq<u8> {
    Seq::new(c, |_i: int| tag_byte(Tag::Missing))
}

/// Missing cells are skipped one byte each, whatever follows them.
pub proof fn lemma_skip_run(c: nat, tail: Seq<u8>, from: usize, count: usize)
    requires
        from + c <= count,
    ensures
        skip_missing(missing_run(c) + tail, from, count) == shift(
            skip_missing(tail, (from + c) as usize, count),
            c,
        ),
    decreases c,
{
    if c == 0 {
        assert(missing_run(c) + tail =~= tail);
    } else {
        lemma_tag_byte_round_trip(Tag::Missing);
        assert((missing_run(c) + tail).skip(1) =~= missing_run((c - 1) as nat) + tail);
        lemma_skip_run((c - 1) as nat, tail, (from + 1) as usize, count);
    }
}

/// How a sequence or a struct opens.
pub enum Shape<'de> {
    /// An array of so many elements.
    Array(usize),
    /// An object of so many entries.
    Object(usize),
    /// A templated array: its keys, then its row count.
    Templated(Vec<TemplateKey<'de>>, usize),
}

impl<'de> Shape<'de> {
    /// The opening tag, the keys (none but for a templated array), and the count.
    pub open spec fn view(&self) -> (Tag, Seq<Seq<u8>>, nat) {
        match self {
            Shape::Array(n) => (Tag::Array, Seq::empty(), *n as nat),
            Shape::Object(n) => (Tag::Object, Seq::empty(), *n as nat),
            Shape::Templated(keys, n) => (Tag::Templated, key_bytes(keys@), *n as nat),
        }
    }
}

/// How a sequence, or where `object` holds a struct, opens at the front of `s`.
pub open spec fn parse_shape(s: Seq<u8>, e: Endian, object: bool) -> Result<((Tag, Seq<Seq<u8>>, nat), nat)> {
    match parse_tag(s) {
        Err(x) => Err(x),
        Ok(t) => if t == Tag::Array || (t == Tag::Object && object) {
            match parse_len(s.skip(1), e) {
                Err(x) => Err(x),
                Ok((n, k)) => Ok(((t, Seq::empty(), n), k + 1)),
            }
        } else if t == Tag::Templated {
            match parse_template_keys(s.skip(1), e) {
                Err(x) => Err(x),
                Ok((keys, k1)) => match parse_len(advance(s, 1 + k1), e) {
                    Err(x) => Err(x),
                    Ok((n, k2)) => Ok(((t, keys, n), 1 + k1 + k2)),
                },
            }
        } else {
            Err(Error::InvalidType(t))
        },
    }
}

proof fn lemma_data_variant_of(h: Seq<u8>, d: Seq<u8>, e: Endian)
    requires
        parse_header(h, Tag::Object, e) == Ok::<(usize, nat), Error>((1, h.len())),
    ensures
        parse_variant(h + d, e) == match parse_key(d, e) {
            Ok((b, k)) => Ok::<(bool, Seq<u8>, nat), Error>((true, b, h.len() + k)),
            Err(x) => Err(x),
        },
{
    lemma_tag_prefix(h, d);
    assert((h + d).skip(1) =~= h.skip(1) + d);
    lemma_len_prefix(h.skip(1), d, e);
    assert((h + d).skip(h.len() as int) =~= d);
}

proof fn lemma_shape_of(t: Tag, lb: Seq<u8>, e: Endian, object: bool, n: nat)
    requires
        t == Tag::Array || (t == Tag::Object && object),
        parse_len(lb, e) == Ok::<(nat, nat), Error>((n, lb.len())),
    ensures
        parse_shape(seq![tag_byte(t)] + lb, e, object) == Ok::<((Tag, Seq<Seq<u8>>, nat), nat), Error>(
            ((t, Seq::empty(), n), 1 + lb.len()),
        ),
{
    lemma_tag_then(t, lb, e);
}

proof fn lemma_templated_shape_of(tk: Seq<u8>, lb: Seq<u8>, e: Endian, object: bool, ks: Seq<Seq<u8>>, n: nat)
    requires
        parse_template_keys(tk, e) == Ok::<(Seq<Seq<u8>>, nat), Error>((ks, tk.len())),
        parse_len(lb, e) == Ok::<(nat, nat), Error>((n, lb.len())),
    ensures
        parse_shape(seq![tag_byte(Tag::Templated)] + (tk + lb), e, object) == Ok::<
            ((Tag, Seq<Seq<u8>>, nat), nat),
            Error,
        >(((Tag::Templated, ks, n), 1 + tk.len() + lb.len())),
{
    let w = seq![tag_byte(Tag::Templated)] + (tk + lb);
    assert(parse_tag(w) == Ok::<Tag, Error>(Tag::Templated) && w.skip(1) == tk + lb) by {
        lemma_tag_then(Tag::Templated, tk + lb, e);
    }
    assert(parse_template_keys(tk + lb, e) == Ok::<(Seq<Seq<u8>>, nat), Error>((ks, tk.len()))) by {
        lemma_template_keys_prefix(tk, lb, e);
    }
    assert(advance(w, 1 + tk.len()) == lb) by {
        assert(advance(w, 1 + tk.len()) =~= lb);
    }
}

/// What a step that reads the opening of a sequence or struct promises where
/// its input is in memory.
pub open spec fn takes_shape<'de>(
    before: Option<Seq<u8>>,
    after: Option<Seq<u8>>,
    r: Result<Shape<'de>>,
    expected: Result<((Tag, Seq<Seq<u8>>, nat), nat)>,
) -> bool {
    &&& (before is Some <==> after is Some)
    &&& before is Some ==> match expected {
        Ok((v, k)) => r matches Ok(sh) && sh.view() == v && k <= before->0.len() && after == Some(
            before->0.skip(k as int),
        ),
        Err(x) => r matches Err(y) && y == x,
    }
}

/// A number as the wire carries it.
#[derive(Debug, Clone, Copy, PartialEq, Eq, Structural)]
pub enum Number {
    Int(i64),
    /// The bit pattern of an IEEE-754 double.
    Real(u64),
}

/// The name of an enum's variant, and whether a payload follows it.
pub enum Variant<'de, 'a> {
    Unit(Reference<'de, 'a, [u8]>),
    Data(Reference<'de, 'a, [u8]>),
}

impl<'de, 'a> Variant<'de, 'a> {
    pub open spec fn has_data(&self) -> bool {
        self is Data
    }

    pub open spec fn name(&self) -> Seq<u8> {
        match self {
            Variant::Unit(n) => n.bytes(),
            Variant::Data(n) => n.bytes(),
        }
    }
}

/// A number at the front of `s`.
pub open spec fn parse_number(s: Seq<u8>, e: Endian) -> Result<(Number, nat)> {
    match parse_tag(s) {
        Err(x) => Err(x),
        Ok(t) => if is_int_tag(t) {
            match parse_fixed(s.skip(1), int_width(t), e) {
                Err(x) => Err(x),
                Ok(v) => Ok((Number::Int(v as i64), 1 + int_width(t))),
            }
        } else if t == Tag::Real {
            match parse_fixed(s.skip(1), 8, e) {
                Err(x) => Err(x),
                Ok(v) => Ok((Number::Real(v as u64), 9)),
            }
        } else {
            Err(Error::InvalidType(t))
        },
    }
}

/// A boolean at the front of `s`.
pub open spec fn parse_bool(s: Seq<u8>) -> Result<(bool, nat)> {
    match parse_tag(s) {
        Err(x) => Err(x),
        Ok(t) => if t == Tag::True {
            Ok((true, 1))
        } else if t == Tag::False {
            Ok((false, 1))
        } else {
            Err(Error::InvalidType(t))
        },
    }
}

/// The header of an array or an object at the front of `s`: the tag `t`,
/// then a length.
pub open spec fn parse_header(s: Seq<u8>, t: Tag, e: Endian) -> Result<(usize, nat)> {
    match expect(s, t) {
        Err(x) => Err(x),
        Ok(_) => match parse_len(s.skip(1), e) {
            Err(x) => Err(x),
            Ok((n, k)) => Ok((n as usize, k + 1)),
        },
    }
}

/// The name of an enum's variant at the front of `s`, whether a payload
/// follows it, and the bytes it takes.
pub open spec fn parse_variant(s: Seq<u8>, e: Endian) -> Result<(bool, Seq<u8>, nat)> {
    match parse_tag(s) {
        Err(x) => Err(x),
        Ok(t) => if t == Tag::Object {
            match parse_header(s, Tag::Object, e) {
                Err(x) => Err(x),
                Ok((n, k1)) => if n != 1 {
                    Err(Error::InvalidType(Tag::Object))
                } else {
                    match parse_key(s.skip(k1 as int), e) {
                        Err(x) => Err(x),
                        Ok((name, k2)) => Ok((true, name, k1 + k2)),
                    }
                },
            }
        } else if t == Tag::String {
            match parse_str_body(s.skip(1), e) {
                Err(x) => Err(x),
                Ok((name, k)) => Ok((false, name, k + 1)),
            }
        } else {
            Err(Error::InvalidType(t))
        },
    }
}

/// `r`, paired on success with the byte count `k`.
pub open spec fn with_len<T>(r: Result<T>, k: nat) -> Result<(T, nat)> {
    match r {
        Ok(v) => Ok((v, k)),
        Err(x) => Err(x),
    }
}

/// A length, as a machine integer.
pub open spec fn as_usize(r: Result<(nat, nat)>) -> Result<(usize, nat)> {
    match r {
        Ok((v, k)) => Ok((v as usize, k)),
        Err(x) => Err(x),
    }
}

/// What a step that hands out a view of bytes promises where its input is in
/// memory: the view holds what `expected` gives, it points into the input,
/// and the step takes as many bytes as `expected` says.
pub open spec fn takes_bytes<'de, 'a>(
    before: Option<Seq<u8>>,
    after: Option<Seq<u8>>,
    r: Result<Reference<'de, 'a, [u8]>>,
    expected: Result<(Seq<u8>, nat)>,
) -> bool {
    &&& (before is Some <==> after is Some)
    &&& before is Some ==> match expected {
        Ok((b, k)) => r matches Ok(v) && v is Borrowed && v.bytes() == b && k <= before->0.len()
            && after == Some(before->0.skip(k as int)),
        Err(x) => r matches Err(y) && y == x,
    }
}

/// `r`, with its integer as a machine integer.
pub open spec fn as_i64(r: Result<int>) -> Result<i64> {
    match r {
        Ok(v) => Ok(v as i64),
        Err(x) => Err(x),
    }
}

/// Taking the tag at the front of `s`, which must be `tag`.
pub open spec fn expect(s: Seq<u8>, tag: Tag) -> Result<((), nat)> {
    match parse_tag(s) {
        Err(x) => Err(x),
        Ok(t) => if t == tag {
            Ok(((), 1))
        } else {
            Err(Error::InvalidType(t))
        },
    }
}

/// Whether `r` is the outcome `expected` describes: the same value, or the same error.
pub open spec fn same_outcome(r: Result<Value>, expected: Result<Model>) -> bool {
    match expected {
        Ok(m) => r matches Ok(v) && v@ == m,
        Err(x) => r matches Err(y) && y == x,
    }
}

/// The value that `bytes` hold in byte order `endian`; nothing may follow it.
pub fn from_slice_in(bytes: &[u8], endian: Endian) -> (r: Result<Value>)
    ensures
        same_outcome(r, parse_top(bytes@, endian)),
{
    let mut de = Deserializer::new(SliceRead::new(bytes), endian);
    let v = de.decode_value()?;
    de.end()?;
    Ok(v)
}

/// The value that `bytes` hold in the machine's own byte order; nothing may
/// follow it.
pub fn from_slice(bytes: &[u8]) -> (r: Result<Value>)
    ensures
        same_outcome(r, parse_top(bytes@, Endian::Little)) || same_outcome(r, parse_top(bytes@, Endian::Big)),
{
    from_slice_in(bytes, Endian::native())
}

} // verus!
