//! What holds of the encoder and the decoder together.
use crate::error::Error;
use crate::order::{fits, int_bytes, lemma_byte_span_values, lemma_int_round_trip, Endian};
use crate::tag::{int_width, is_int_tag, is_tag_byte, lemma_tag_byte_round_trip, tag_byte, tag_of, Tag};
use crate::prefix::lemma_parse_prefix;
use crate::value::Model;
use crate::wire::{
    advance, enc, enc_bytes, enc_entries, enc_int, enc_items, int_tag, is_i64, parse,
    parse_entries, parse_fixed, parse_int, parse_items, parse_key, parse_len, parse_row,
    parse_str_body, parse_tag, parse_top, wf, cons, shift, encodable,
};
use vstd::prelude::*;

verus! {

proof fn lemma_enc_int(v: int, e: Endian, rest: Seq<u8>)
    requires
        is_i64(v),
    ensures
        is_int_tag(int_tag(v)),
        enc_int(v, e).len() == 1 + int_width(int_tag(v)),
        enc_int(v, e)[0] == tag_byte(int_tag(v)),
        parse_tag(enc_int(v, e) + rest) == Ok::<Tag, Error>(int_tag(v)),
        parse_fixed((enc_int(v, e) + rest).skip(1), int_width(int_tag(v)), e) == Ok::<int, Error>(v),
        parse_int(enc_int(v, e) + rest, e) == Ok::<(int, nat), Error>((v, enc_int(v, e).len())),
{
    let t = int_tag(v);
    let w = int_width(t);
    lemma_byte_span_values();
    assert(fits(v, w));
    lemma_int_round_trip(v, w, e);
    lemma_tag_byte_round_trip(t);
    let s = enc_int(v, e) + rest;
    assert(s.skip(1).take(w as int) =~= int_bytes(v, w, e));
}

proof fn lemma_enc_len(n: int, e: Endian, rest: Seq<u8>)
    requires
        0 <= n <= i64::MAX,
        n <= usize::MAX,
    ensures
        parse_len(enc_int(n, e) + rest, e) == Ok::<(nat, nat), Error>((n as nat, enc_int(n, e).len())),
        enc_int(n, e).len() >= 1,
{
    lemma_enc_int(n, e, rest);
}

proof fn lemma_enc_bytes(b: Seq<u8>, e: Endian, rest: Seq<u8>)
    requires
        b.len() <= i64::MAX,
        b.len() <= usize::MAX,
    ensures
        parse_key(enc_bytes(b, e) + rest, e) == Ok::<(Seq<u8>, nat), Error>((b, enc_bytes(b, e).len())),
        parse_str_body((enc_bytes(b, e) + rest).skip(1), e) == Ok::<(Seq<u8>, nat), Error>(
            (b, (enc_bytes(b, e).len() - 1) as nat),
        ),
        (enc_bytes(b, e) + rest)[0] == tag_byte(Tag::String),
{
    let li = enc_int(b.len() as int, e);
    let s = enc_bytes(b, e) + rest;
    assert(s.skip(1) =~= li + (b + rest));
    lemma_enc_len(b.len() as int, e, b + rest);
    assert(s.skip(1).subrange(li.len() as int, (li.len() + b.len()) as int) =~= b);
    lemma_tag_byte_round_trip(Tag::String);
}

proof fn lemma_enc_items_front(a: Seq<Model>, e: Endian, lo: nat, hi: nat)
    requires
        lo < hi <= a.len(),
    ensures
        enc_items(a, e, lo, hi) == enc(a[lo as int], e) + enc_items(a, e, lo + 1, hi),
    decreases hi,
{
    if hi == lo + 1 {
        assert(enc_items(a, e, lo, lo) == Seq::<u8>::empty());
        assert(enc_items(a, e, lo + 1, hi) == Seq::<u8>::empty());
        assert(enc_items(a, e, lo, hi) =~= enc(a[lo as int], e) + enc_items(a, e, lo + 1, hi));
    } else {
        lemma_enc_items_front(a, e, lo, (hi - 1) as nat);
        assert(enc_items(a, e, lo, hi) =~= enc(a[lo as int], e) + enc_items(a, e, lo + 1, hi));
    }
}

proof fn lemma_enc_entries_front(o: Seq<(Seq<u8>, Model)>, e: Endian, lo: nat, hi: nat)
    requires
        lo < hi <= o.len(),
    ensures
        enc_entries(o, e, lo, hi) == enc_bytes(o[lo as int].0, e) + enc(o[lo as int].1, e)
            + enc_entries(o, e, lo + 1, hi),
    decreases hi,
{
    if hi == lo + 1 {
        assert(enc_entries(o, e, lo, lo) == Seq::<u8>::empty());
        assert(enc_entries(o, e, lo + 1, hi) == Seq::<u8>::empty());
        assert(enc_entries(o, e, lo, hi) =~= enc_bytes(o[lo as int].0, e) + enc(o[lo as int].1, e)
            + enc_entries(o, e, lo + 1, hi));
    } else {
        lemma_enc_entries_front(o, e, lo, (hi - 1) as nat);
        assert(enc_entries(o, e, lo, hi) =~= enc_bytes(o[lo as int].0, e) + enc(o[lo as int].1, e)
            + enc_entries(o, e, lo + 1, hi));
    }
}

/// The decoder reads back what the encoder wrote for `m`, whatever follows it.
pub proof fn lemma_parse_enc(m: Model, e: Endian, rest: Seq<u8>)
    requires
        wf(m),
    ensures
        parse(enc(m, e) + rest, e) == Ok::<(Model, nat), Error>((m, enc(m, e).len())),
    decreases m, 0nat,
{
    let s = enc(m, e) + rest;
    match m {
        Model::Null => {
            lemma_tag_byte_round_trip(Tag::Null);
        },
        Model::Bool(b) => {
            lemma_tag_byte_round_trip(Tag::True);
            lemma_tag_byte_round_trip(Tag::False);
        },
        Model::Int(v) => {
            lemma_enc_int(v, e, rest);
        },
        Model::Real(bits) => {
            lemma_parse_enc_real(bits, e, rest);
        },
        Model::Bytes(b) => {
            lemma_enc_bytes(b, e, rest);
        },
        Model::Array(a) => {
            lemma_parse_enc_array(a, e, rest);
        },
        Model::Object(o) => {
            lemma_parse_enc_object(o, e, rest);
        },
    }
}

proof fn lemma_parse_enc_real(bits: u64, e: Endian, rest: Seq<u8>)
    ensures
        parse(enc(Model::Real(bits), e) + rest, e) == Ok::<(Model, nat), Error>(
            (Model::Real(bits), enc(Model::Real(bits), e).len()),
        ),
{
    let s = enc(Model::Real(bits), e) + rest;
    lemma_tag_byte_round_trip(Tag::Real);
    lemma_byte_span_values();
    let x = (bits as i64) as int;
    assert(fits(x, 8));
    lemma_int_round_trip(x, 8, e);
    assert(s.skip(1).take(8) =~= int_bytes(x, 8, e));
    assert(((bits as i64) as u64) == bits) by (bit_vector);
}

#[verifier::rlimit(50)]
proof fn lemma_parse_enc_array(a: Seq<Model>, e: Endian, rest: Seq<u8>)
    requires
        wf(Model::Array(a)),
    ensures
        parse(enc(Model::Array(a), e) + rest, e) == Ok::<(Model, nat), Error>(
            (Model::Array(a), enc(Model::Array(a), e).len()),
        ),
    decreases a, a.len() + 1,
{
    let s = enc(Model::Array(a), e) + rest;
    lemma_tag_byte_round_trip(Tag::Array);
    let body = enc_items(a, e, 0, a.len());
    let li = enc_int(a.len() as int, e);
    assert(s.skip(1) =~= li + (body + rest));
    lemma_enc_len(a.len() as int, e, body + rest);
    assert(advance(s, 1 + li.len()) =~= body + rest);
    lemma_parse_items_enc(a, e, 0, rest);
    assert(a.skip(0) =~= a);
}

#[verifier::rlimit(50)]
proof fn lemma_parse_enc_object(o: Seq<(Seq<u8>, Model)>, e: Endian, rest: Seq<u8>)
    requires
        wf(Model::Object(o)),
    ensures
        parse(enc(Model::Object(o), e) + rest, e) == Ok::<(Model, nat), Error>(
            (Model::Object(o), enc(Model::Object(o), e).len()),
        ),
    decreases o, o.len() + 1,
{
    let s = enc(Model::Object(o), e) + rest;
    lemma_tag_byte_round_trip(Tag::Object);
    let body = enc_entries(o, e, 0, o.len());
    let li = enc_int(o.len() as int, e);
    assert(s.skip(1) =~= li + (body + rest));
    lemma_enc_len(o.len() as int, e, body + rest);
    assert(advance(s, 1 + li.len()) =~= body + rest);
    lemma_parse_entries_enc(o, e, 0, rest);
    assert(o.skip(0) =~= o);
}

proof fn lemma_parse_items_enc(a: Seq<Model>, e: Endian, lo: nat, rest: Seq<u8>)
    requires
        lo <= a.len(),
        forall|i: int| 0 <= i < a.len() ==> wf(#[trigger] a[i]),
    ensures
        parse_items(enc_items(a, e, lo, a.len()) + rest, e, (a.len() - lo) as nat) == Ok::<
            (Seq<Model>, nat),
            Error,
        >((a.skip(lo as int), enc_items(a, e, lo, a.len()).len())),
    decreases a, a.len() - lo,
{
    if lo < a.len() {
        lemma_enc_items_front(a, e, lo, a.len());
        let x = enc(a[lo as int], e);
        let tail = enc_items(a, e, lo + 1, a.len());
        assert(enc_items(a, e, lo, a.len()) + rest =~= x + (tail + rest));
        lemma_parse_enc(a[lo as int], e, tail + rest);
        assert(advance(x + (tail + rest), x.len()) =~= tail + rest);
        lemma_parse_items_enc(a, e, lo + 1, rest);
        assert(seq![a[lo as int]] + a.skip(lo + 1 as int) =~= a.skip(lo as int));
    } else {
        assert(enc_items(a, e, lo, a.len()) + rest =~= rest);
        assert(a.skip(lo as int) =~= Seq::<Model>::empty());
    }
}

proof fn lemma_entries_step(s: Seq<u8>, e: Endian, n: nat, key: Seq<u8>, k1: nat, v: Model, k2: nat)
    requires
        n > 0,
        parse_key(s, e) == Ok::<(Seq<u8>, nat), Error>((key, k1)),
        parse(advance(s, k1), e) == Ok::<(Model, nat), Error>((v, k2)),
    ensures
        parse_entries(s, e, n) == cons((key, v), k1 + k2, parse_entries(advance(s, k1 + k2), e, (n - 1) as nat)),
{
}

#[verifier::rlimit(50)]
proof fn lemma_parse_entries_enc(o: Seq<(Seq<u8>, Model)>, e: Endian, lo: nat, rest: Seq<u8>)
    requires
        lo <= o.len(),
        forall|i: int|
            0 <= i < o.len() ==> ((#[trigger] o[i]).0.len() <= i64::MAX && o[i].0.len() <= usize::MAX
                && wf(o[i].1)),
    ensures
        parse_entries(enc_entries(o, e, lo, o.len()) + rest, e, (o.len() - lo) as nat) == Ok::<
            (Seq<(Seq<u8>, Model)>, nat),
            Error,
        >((o.skip(lo as int), enc_entries(o, e, lo, o.len()).len())),
    decreases o, o.len() - lo,
{
    if lo < o.len() {
        let key = o[lo as int].0;
        let v = o[lo as int].1;
        let kb = enc_bytes(key, e);
        let x = enc(v, e);
        let tail = enc_entries(o, e, lo + 1, o.len());
        let s = kb + (x + (tail + rest));
        assert(enc_entries(o, e, lo, o.len()) + rest == s) by {
            lemma_enc_entries_front(o, e, lo, o.len());
            assert(enc_entries(o, e, lo, o.len()) + rest =~= s);
        }
        assert(parse_key(s, e) == Ok::<(Seq<u8>, nat), Error>((key, kb.len()))) by {
            lemma_enc_bytes(key, e, x + (tail + rest));
        }
        assert(parse(advance(s, kb.len()), e) == Ok::<(Model, nat), Error>((v, x.len()))) by {
            assert(advance(s, kb.len()) =~= x + (tail + rest));
            lemma_parse_enc(v, e, tail + rest);
        }
        assert(advance(s, kb.len() + x.len()) == tail + rest) by {
            assert(advance(s, kb.len() + x.len()) =~= tail + rest);
        }
        lemma_entries_step(s, e, (o.len() - lo) as nat, key, kb.len(), v, x.len());
        lemma_parse_entries_enc(o, e, lo + 1, rest);
        assert(seq![(key, v)] + o.skip(lo + 1 as int) =~= o.skip(lo as int));
        assert(kb.len() + x.len() + tail.len() == enc_entries(o, e, lo, o.len()).len());
    } else {
        assert(enc_entries(o, e, lo, o.len()) + rest =~= rest);
        assert(o.skip(lo as int) =~= Seq::<(Seq<u8>, Model)>::empty());
    }
}

proof fn lemma_wf_encodable(m: Model)
    requires
        wf(m),
    ensures
        encodable(m),
    decreases m,
{
    match m {
        Model::Array(a) => {
            assert forall|i: int| 0 <= i < a.len() implies encodable(#[trigger] a[i]) by {
                lemma_wf_encodable(a[i]);
            }
        },
        Model::Object(o) => {
            assert forall|i: int| 0 <= i < o.len() implies (#[trigger] o[i]).0.len() <= i64::MAX
                && encodable(o[i].1) by {
                lemma_wf_encodable(o[i].1);
            }
        },
        _ => {},
    }
}

/// The encoder accepts every well-formed value, and decoding what it wrote
/// gives back that value.
pub proof fn round_trip(m: Model, e: Endian)
    requires
        wf(m),
    ensures
        encodable(m),
        parse_top(enc(m, e), e) == Ok::<Model, Error>(m),
{
    lemma_wf_encodable(m);
    lemma_parse_enc(m, e, Seq::empty());
    assert(enc(m, e) + Seq::empty() =~= enc(m, e));
}

/// Whatever bytes follow a well-formed payload, decoding the whole input
/// stops at the end of the payload and refuses the rest as trailing bytes.
pub proof fn trailing_bytes(s: Seq<u8>, e: Endian, extra: Seq<u8>)
    requires
        parse_top(s, e) is Ok,
        extra.len() > 0,
    ensures
        parse_top(s + extra, e) == Err::<Model, Error>(Error::TrailingBytes),
{
    lemma_parse_prefix(s, extra, e);
}

/// Every encoding begins with a tag byte, and never with the Missing tag.
pub proof fn begins_with_tag(m: Model, e: Endian)
    ensures
        enc(m, e).len() >= 1,
        is_tag_byte(enc(m, e)[0]),
        enc(m, e)[0] != tag_byte(Tag::Missing),
        tag_of(enc(m, e)[0]) is Some,
{
}

/// An integer is written under the narrowest of the four integer tags whose
/// range holds it, followed by that many payload bytes.
pub proof fn integer_width(v: int, e: Endian)
    requires
        is_i64(v),
    ensures
        int_tag(v) == Tag::Int8 <==> -0x80 <= v <= 0x7f,
        int_tag(v) == Tag::Int16 <==> (-0x8000 <= v <= 0x7fff && !(-0x80 <= v <= 0x7f)),
        int_tag(v) == Tag::Int32 <==> (-0x8000_0000 <= v <= 0x7fff_ffff && !(-0x8000 <= v <= 0x7fff)),
        int_tag(v) == Tag::Int64 <==> !(-0x8000_0000 <= v <= 0x7fff_ffff),
        enc_int(v, e)[0] == tag_byte(int_tag(v)),
        enc_int(v, e).len() == 1 + int_width(int_tag(v)),
{
    lemma_enc_int(v, e, Seq::empty());
}

/// One cell of a templated row.
pub open spec fn enc_cell(cell: Option<Model>, e: Endian) -> Seq<u8> {
    match cell {
        None => seq![tag_byte(Tag::Missing)],
        Some(m) => enc(m, e),
    }
}

/// The cells of a templated row from index `i` on: the Missing tag for an
/// absent key, the value's encoding for a present one.
pub open spec fn enc_cells(cells: Seq<Option<Model>>, e: Endian, i: nat) -> Seq<u8>
    decreases cells.len() - i,
{
    if i >= cells.len() {
        Seq::empty()
    } else {
        enc_cell(cells[i as int], e) + enc_cells(cells, e, i + 1)
    }
}

/// The entries of a templated row from index `i` on: each key whose cell
/// holds a value, with that value.
pub open spec fn present_entries(keys: Seq<Seq<u8>>, cells: Seq<Option<Model>>, i: nat) -> Seq<
    (Seq<u8>, Model),
>
    decreases cells.len() - i,
{
    if i >= cells.len() {
        Seq::empty()
    } else {
        match cells[i as int] {
            None => present_entries(keys, cells, i + 1),
            Some(m) => seq![(keys[i as int], m)] + present_entries(keys, cells, i + 1),
        }
    }
}

/// One step of a row: the cell for key `i`, then whatever follows it.
#[verifier::rlimit(60)]
proof fn lemma_row_cell(keys: Seq<Seq<u8>>, cell: Option<Model>, i: nat, e: Endian, rest: Seq<u8>)
    requires
        i < keys.len(),
        cell is Some ==> wf(cell->0),
    ensures
        parse_row(enc_cell(cell, e) + rest, e, keys, i) == match cell {
            None => shift(parse_row(rest, e, keys, i + 1), 1),
            Some(m) => cons((keys[i as int], m), enc(m, e).len(), parse_row(rest, e, keys, i + 1)),
        },
{
    let s = enc_cell(cell, e) + rest;
    match cell {
        None => {
            lemma_tag_byte_round_trip(Tag::Missing);
            assert(s.skip(1) =~= rest);
        },
        Some(m) => {
            let x = enc(m, e);
            begins_with_tag(m, e);
            lemma_parse_enc(m, e, rest);
            assert(advance(s, x.len()) =~= rest);
        },
    }
}

proof fn lemma_row(keys: Seq<Seq<u8>>, cells: Seq<Option<Model>>, e: Endian, i: nat, rest: Seq<u8>)
    requires
        keys.len() == cells.len(),
        i <= cells.len(),
        forall|j: int| 0 <= j < cells.len() && (#[trigger] cells[j]) is Some ==> wf(cells[j]->0),
    ensures
        parse_row(enc_cells(cells, e, i) + rest, e, keys, i) == Ok::<(Seq<(Seq<u8>, Model)>, nat), Error>(
            (present_entries(keys, cells, i), enc_cells(cells, e, i).len()),
        ),
    decreases cells.len() - i,
{
    let s = enc_cells(cells, e, i) + rest;
    if i < cells.len() {
        let tail = enc_cells(cells, e, i + 1);
        lemma_row(keys, cells, e, i + 1, rest);
        assert(s =~= enc_cell(cells[i as int], e) + (tail + rest));
        lemma_row_cell(keys, cells[i as int], i, e, tail + rest);
    } else {
        assert(s =~= rest);
    }
}

/// A templated row takes exactly one cell per key, whether the cell holds a
/// value or is Missing; the row's object holds the keys whose cells hold values.
pub proof fn templated_row(keys: Seq<Seq<u8>>, cells: Seq<Option<Model>>, e: Endian, rest: Seq<u8>)
    requires
        keys.len() == cells.len(),
        forall|j: int| 0 <= j < cells.len() && (#[trigger] cells[j]) is Some ==> wf(cells[j]->0),
    ensures
        parse_row(enc_cells(cells, e, 0) + rest, e, keys, 0) == Ok::<(Seq<(Seq<u8>, Model)>, nat), Error>(
            (present_entries(keys, cells, 0), enc_cells(cells, e, 0).len()),
        ),
{
    lemma_row(keys, cells, e, 0, rest);
}

} // verus!
