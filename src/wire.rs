//! The wire format as mathematics: what a value encodes to, and what a byte
//! sequence decodes to.
use crate::error::{Error, IoError};
use crate::order::{int_bytes, int_value, Endian};
use crate::tag::{int_width, is_int_tag, tag_byte, tag_of, Tag};
use crate::value::Model;
use vstd::prelude::*;

verus! {

/// The tag that the encoder picks for integer `v`: the narrowest whose range holds it.
pub open spec fn int_tag(v: int) -> Tag {
    if -0x80 <= v <= 0x7f {
        Tag::Int8
    } else if -0x8000 <= v <= 0x7fff {
        Tag::Int16
    } else if -0x8000_0000 <= v <= 0x7fff_ffff {
        Tag::Int32
    } else {
        Tag::Int64
    }
}

/// Whether `v` is an integer that the wire can carry.
pub open spec fn is_i64(v: int) -> bool {
    i64::MIN <= v <= i64::MAX
}

/// An integer: its narrowest tag, then its payload.
pub open spec fn enc_int(v: int, e: Endian) -> Seq<u8> {
    seq![tag_byte(int_tag(v))] + int_bytes(v, int_width(int_tag(v)), e)
}

/// A byte string: the String tag, its length, then its bytes.
pub open spec fn enc_bytes(b: Seq<u8>, e: Endian) -> Seq<u8> {
    seq![tag_byte(Tag::String)] + enc_int(b.len() as int, e) + b
}

/// The header of an array or an object: its tag, then its length.
pub open spec fn enc_header(t: Tag, n: int, e: Endian) -> Seq<u8> {
    seq![tag_byte(t)] + enc_int(n, e)
}

/// The encoding of a value.
pub open spec fn enc(m: Model, e: Endian) -> Seq<u8>
    decreases m, 0nat,
{
    match m {
        Model::Null => seq![tag_byte(Tag::Null)],
        Model::Bool(b) => seq![tag_byte(if b { Tag::True } else { Tag::False })],
        Model::Int(v) => enc_int(v, e),
        Model::Real(bits) => seq![tag_byte(Tag::Real)] + int_bytes((bits as i64) as int, 8, e),
        Model::Bytes(b) => enc_bytes(b, e),
        Model::Array(a) => enc_header(Tag::Array, a.len() as int, e) + enc_items(a, e, 0, a.len()),
        Model::Object(o) => enc_header(Tag::Object, o.len() as int, e) + enc_entries(o, e, 0, o.len()),
    }
}

/// The encodings of the elements of `a` from index `lo` up to `hi`, one after another.
pub open spec fn enc_items(a: Seq<Model>, e: Endian, lo: nat, hi: nat) -> Seq<u8>
    decreases a, hi,
{
    if hi <= lo || hi > a.len() {
        Seq::empty()
    } else {
        enc_items(a, e, lo, (hi - 1) as nat) + enc(a[hi - 1], e)
    }
}

/// The entries of `o` from index `lo` up to `hi`, one after another.
pub open spec fn enc_entries(o: Seq<(Seq<u8>, Model)>, e: Endian, lo: nat, hi: nat) -> Seq<u8>
    decreases o, hi,
{
    if hi <= lo || hi > o.len() {
        Seq::empty()
    } else {
        enc_entries(o, e, lo, (hi - 1) as nat) + enc_bytes(o[hi - 1].0, e) + enc(o[hi - 1].1, e)
    }
}

/// Whether every integer and every length in `m` is one the wire can carry
/// and the decoder can index with.
pub open spec fn wf(m: Model) -> bool
    decreases m,
{
    match m {
        Model::Int(v) => is_i64(v),
        Model::Bytes(b) => b.len() <= i64::MAX && b.len() <= usize::MAX,
        Model::Array(a) => a.len() <= i64::MAX && a.len() <= usize::MAX && forall|i: int|
            0 <= i < a.len() ==> wf(#[trigger] a[i]),
        Model::Object(o) => o.len() <= i64::MAX && o.len() <= usize::MAX && forall|i: int|
            0 <= i < o.len() ==> ((#[trigger] o[i]).0.len() <= i64::MAX && o[i].0.len() <= usize::MAX
                && wf(o[i].1)),
        _ => true,
    }
}

/// Whether every integer and every length in `m` is one the encoder can write.
pub open spec fn encodable(m: Model) -> bool
    decreases m,
{
    match m {
        Model::Int(v) => is_i64(v),
        Model::Bytes(b) => b.len() <= i64::MAX,
        Model::Array(a) => a.len() <= i64::MAX && forall|i: int|
            0 <= i < a.len() ==> encodable(#[trigger] a[i]),
        Model::Object(o) => o.len() <= i64::MAX && forall|i: int|
            0 <= i < o.len() ==> ((#[trigger] o[i]).0.len() <= i64::MAX && encodable(o[i].1)),
        _ => true,
    }
}

/// `s` without its first `k` bytes; nothing when it holds fewer.
pub open spec fn advance(s: Seq<u8>, k: nat) -> Seq<u8> {
    if k <= s.len() {
        s.skip(k as int)
    } else {
        Seq::empty()
    }
}

/// `v`, taking `k` bytes, in front of what `rest` gives for the bytes after it.
pub open spec fn cons<A>(v: A, k: nat, rest: Result<(Seq<A>, nat), Error>) -> Result<(Seq<A>, nat), Error> {
    match rest {
        Ok((vs, k2)) => Ok((seq![v] + vs, k + k2)),
        Err(x) => Err(x),
    }
}

/// What `rest` gives, after `c` bytes that yield nothing.
pub open spec fn shift<A>(rest: Result<(A, nat), Error>, c: nat) -> Result<(A, nat), Error> {
    match rest {
        Ok((v, k)) => Ok((v, k + c)),
        Err(x) => Err(x),
    }
}

/// The elements `vs`, taking `c` bytes, in front of what `rest` gives.
pub open spec fn prepend<A>(vs: Seq<A>, c: nat, rest: Result<(Seq<A>, nat), Error>) -> Result<(Seq<A>, nat), Error> {
    match rest {
        Ok((ws, k)) => Ok((vs + ws, c + k)),
        Err(x) => Err(x),
    }
}

pub proof fn lemma_prepend_empty<A>(rest: Result<(Seq<A>, nat), Error>)
    ensures
        prepend(Seq::empty(), 0, rest) == rest,
{
    if rest is Ok {
        assert(Seq::<A>::empty() + rest->Ok_0.0 =~= rest->Ok_0.0);
    }
}

pub proof fn lemma_prepend_cons<A>(vs: Seq<A>, c: nat, v: A, k: nat, rest: Result<(Seq<A>, nat), Error>)
    ensures
        prepend(vs, c, cons(v, k, rest)) == prepend(vs.push(v), c + k, rest),
{
    if rest is Ok {
        assert(vs + (seq![v] + rest->Ok_0.0) =~= vs.push(v) + rest->Ok_0.0);
    }
}

pub proof fn lemma_prepend_shift<A>(vs: Seq<A>, c: nat, k: nat, rest: Result<(Seq<A>, nat), Error>)
    ensures
        prepend(vs, c, shift(rest, k)) == prepend(vs, c + k, rest),
{
}

pub proof fn lemma_prepend_done<A>(vs: Seq<A>, c: nat)
    ensures
        prepend(vs, c, Ok((Seq::<A>::empty(), 0nat))) == Ok::<(Seq<A>, nat), Error>((vs, c)),
{
    assert(vs + Seq::<A>::empty() =~= vs);
}

pub broadcast proof fn lemma_skip_skip<A>(s: Seq<A>, a: int, b: int)
    requires
        0 <= a,
        0 <= b,
        a + b <= s.len(),
    ensures
        #[trigger] s.skip(a).skip(b) == s.skip(a + b),
{
    assert(s.skip(a).skip(b) =~= s.skip(a + b));
}

pub broadcast proof fn lemma_skip_subrange<A>(s: Seq<A>, a: int, i: int, j: int)
    requires
        0 <= a,
        0 <= i <= j,
        a + j <= s.len(),
    ensures
        #[trigger] s.skip(a).subrange(i, j) == s.subrange(a + i, a + j),
{
    assert(s.skip(a).subrange(i, j) =~= s.subrange(a + i, a + j));
}

pub open spec fn eof<T>() -> Result<T, Error> {
    Err(Error::Io(IoError::UnexpectedEof))
}

/// The tag at the front of `s`.
pub open spec fn parse_tag(s: Seq<u8>) -> Result<Tag, Error> {
    if s.len() == 0 {
        eof()
    } else {
        match tag_of(s[0]) {
            Some(t) => Ok(t),
            None => Err(Error::MalformedTag),
        }
    }
}

/// A signed payload of `w` bytes at the front of `s`.
pub open spec fn parse_fixed(s: Seq<u8>, w: nat, e: Endian) -> Result<int, Error> {
    if s.len() < w {
        eof()
    } else {
        Ok(int_value(s.take(w as int), e))
    }
}

/// A tagged integer of any width at the front of `s`, and the bytes it takes.
pub open spec fn parse_int(s: Seq<u8>, e: Endian) -> Result<(int, nat), Error> {
    match parse_tag(s) {
        Err(x) => Err(x),
        Ok(t) => if is_int_tag(t) {
            match parse_fixed(s.skip(1), int_width(t), e) {
                Err(x) => Err(x),
                Ok(v) => Ok((v, 1 + int_width(t))),
            }
        } else {
            Err(Error::InvalidType(t))
        },
    }
}

/// A length or count at the front of `s`: a tagged integer that can index memory.
pub open spec fn parse_len(s: Seq<u8>, e: Endian) -> Result<(nat, nat), Error> {
    match parse_int(s, e) {
        Err(x) => Err(x),
        Ok((v, k)) => if 0 <= v <= usize::MAX {
            Ok((v as nat, k))
        } else {
            Err(Error::IntegerOverflow)
        },
    }
}

/// A length followed by that many bytes, at the front of `s`.
pub open spec fn parse_str_body(s: Seq<u8>, e: Endian) -> Result<(Seq<u8>, nat), Error> {
    match parse_len(s, e) {
        Err(x) => Err(x),
        Ok((n, k)) => if s.len() < k + n {
            eof()
        } else {
            Ok((s.subrange(k as int, (k + n) as int), k + n))
        },
    }
}

/// A byte string, String tag included, at the front of `s`: an object key.
pub open spec fn parse_key(s: Seq<u8>, e: Endian) -> Result<(Seq<u8>, nat), Error> {
    match parse_tag(s) {
        Err(x) => Err(x),
        Ok(t) => if t == Tag::String {
            match parse_str_body(s.skip(1), e) {
                Err(x) => Err(x),
                Ok((b, k)) => Ok((b, k + 1)),
            }
        } else {
            Err(Error::InvalidType(t))
        },
    }
}

/// `n` keys at the front of `s`, as a templated array lists them.
pub open spec fn parse_keys(s: Seq<u8>, e: Endian, n: nat) -> Result<(Seq<Seq<u8>>, nat), Error>
    decreases n,
{
    if n == 0 {
        Ok((Seq::empty(), 0))
    } else {
        match parse_key(s, e) {
            Err(x) => Err(x),
            Ok((key, k)) => cons(key, k, parse_keys(advance(s, k), e, (n - 1) as nat)),
        }
    }
}

/// The key list of a templated array at the front of `s`: an array of byte strings.
pub open spec fn parse_template_keys(s: Seq<u8>, e: Endian) -> Result<(Seq<Seq<u8>>, nat), Error> {
    match parse_tag(s) {
        Err(x) => Err(x),
        Ok(t) => if t != Tag::Array {
            Err(Error::InvalidType(t))
        } else {
            match parse_len(s.skip(1), e) {
                Err(x) => Err(x),
                Ok((n, k1)) => match parse_keys(advance(s, 1 + k1), e, n) {
                    Err(x) => Err(x),
                    Ok((keys, k2)) => Ok((keys, 1 + k1 + k2)),
                },
            }
        },
    }
}

/// The value at the front of `s`, and the number of bytes it takes.
pub open spec fn parse(s: Seq<u8>, e: Endian) -> Result<(Model, nat), Error>
    decreases s.len(), 0nat, 0nat,
{
    match parse_tag(s) {
        Err(x) => Err(x),
        Ok(t) => {
            let r = s.skip(1);
            match t {
                Tag::Array => match parse_len(r, e) {
                    Err(x) => Err(x),
                    Ok((n, k)) => match parse_items(advance(s, 1 + k), e, n) {
                        Err(x) => Err(x),
                        Ok((items, k2)) => Ok((Model::Array(items), 1 + k + k2)),
                    },
                },
                Tag::Object => match parse_len(r, e) {
                    Err(x) => Err(x),
                    Ok((n, k)) => match parse_entries(advance(s, 1 + k), e, n) {
                        Err(x) => Err(x),
                        Ok((entries, k2)) => Ok((Model::Object(entries), 1 + k + k2)),
                    },
                },
                Tag::String => match parse_str_body(r, e) {
                    Err(x) => Err(x),
                    Ok((b, k)) => Ok((Model::Bytes(b), 1 + k)),
                },
                Tag::Int8 | Tag::Int16 | Tag::Int32 | Tag::Int64 => match parse_fixed(
                    r,
                    int_width(t),
                    e,
                ) {
                    Err(x) => Err(x),
                    Ok(v) => Ok((Model::Int(v), 1 + int_width(t))),
                },
                Tag::Real => match parse_fixed(r, 8, e) {
                    Err(x) => Err(x),
                    Ok(v) => Ok((Model::Real(v as u64), 9)),
                },
                Tag::True => Ok((Model::Bool(true), 1)),
                Tag::False => Ok((Model::Bool(false), 1)),
                Tag::Null => Ok((Model::Null, 1)),
                Tag::Templated => match parse_template_keys(r, e) {
                    Err(x) => Err(x),
                    Ok((keys, k1)) => match parse_len(advance(s, 1 + k1), e) {
                        Err(x) => Err(x),
                        Ok((n, k2)) => match parse_rows(advance(s, 1 + k1 + k2), e, keys, n) {
                            Err(x) => Err(x),
                            Ok((rows, k3)) => Ok((Model::Array(rows), 1 + k1 + k2 + k3)),
                        },
                    },
                },
                Tag::Missing => Err(Error::InvalidType(Tag::Missing)),
            }
        },
    }
}

/// `n` values, one after another, at the front of `s`.
pub open spec fn parse_items(s: Seq<u8>, e: Endian, n: nat) -> Result<(Seq<Model>, nat), Error>
    decreases s.len(), 1nat, n,
{
    if n == 0 {
        Ok((Seq::empty(), 0))
    } else {
        match parse(s, e) {
            Err(x) => Err(x),
            Ok((v, k)) => cons(v, k, parse_items(advance(s, k), e, (n - 1) as nat)),
        }
    }
}

/// `n` key and value pairs, one after another, at the front of `s`.
pub open spec fn parse_entries(s: Seq<u8>, e: Endian, n: nat) -> Result<
    (Seq<(Seq<u8>, Model)>, nat),
    Error,
>
    decreases s.len(), 1nat, n,
{
    if n == 0 {
        Ok((Seq::empty(), 0))
    } else {
        match parse_key(s, e) {
            Err(x) => Err(x),
            Ok((key, k1)) => match parse(advance(s, k1), e) {
                Err(x) => Err(x),
                Ok((v, k2)) => cons((key, v), k1 + k2, parse_entries(advance(s, k1 + k2), e, (n - 1) as nat)),
            },
        }
    }
}

/// The cells of one templated row for the keys from index `i` on: a Missing
/// cell takes one byte and leaves its key out of the row.
pub open spec fn parse_row(s: Seq<u8>, e: Endian, keys: Seq<Seq<u8>>, i: nat) -> Result<
    (Seq<(Seq<u8>, Model)>, nat),
    Error,
>
    decreases s.len(), 1nat, keys.len() - i,
{
    if i >= keys.len() {
        Ok((Seq::empty(), 0))
    } else {
        match parse_tag(s) {
            Err(x) => Err(x),
            Ok(t) => if t == Tag::Missing {
                shift(parse_row(s.skip(1), e, keys, i + 1), 1)
            } else {
                match parse(s, e) {
                    Err(x) => Err(x),
                    Ok((v, k1)) => cons((keys[i as int], v), k1, parse_row(advance(s, k1), e, keys, i + 1)),
                }
            },
        }
    }
}

/// `n` templated rows, each an object over `keys`, at the front of `s`.
pub open spec fn parse_rows(s: Seq<u8>, e: Endian, keys: Seq<Seq<u8>>, n: nat) -> Result<
    (Seq<Model>, nat),
    Error,
>
    decreases s.len(), 2nat, n,
{
    if n == 0 {
        Ok((Seq::empty(), 0))
    } else {
        match parse_row(s, e, keys, 0) {
            Err(x) => Err(x),
            Ok((es, k)) => cons(Model::Object(es), k, parse_rows(advance(s, k), e, keys, (n - 1) as nat)),
        }
    }
}

/// A whole input: one value, and nothing after it.
pub open spec fn parse_top(s: Seq<u8>, e: Endian) -> Result<Model, Error> {
    match parse(s, e) {
        Err(x) => Err(x),
        Ok((v, k)) => if k < s.len() {
            Err(Error::TrailingBytes)
        } else {
            Ok(v)
        },
    }
}

} // verus!
