//! The parsers read only the bytes they take: what they give for `s`, they
//! give for `s` followed by anything.
use crate::error::Error;
use crate::order::{int_value, Endian};
use crate::wire::{
    advance, parse, parse_entries, parse_fixed, parse_int, parse_items, parse_key, parse_keys,
    parse_len, parse_row, parse_rows, parse_str_body, parse_tag, parse_template_keys,
};
use crate::tag::{int_width, lemma_tag_byte_round_trip, tag_byte, Tag};
use vstd::prelude::*;

verus! {

pub proof fn lemma_advance_append(s: Seq<u8>, t: Seq<u8>, k: nat)
    requires
        k <= s.len(),
    ensures
        advance(s + t, k) == advance(s, k) + t,
{
    assert((s + t).skip(k as int) =~= s.skip(k as int) + t);
}

pub proof fn lemma_tag_prefix(s: Seq<u8>, t: Seq<u8>)
    ensures
        parse_tag(s) is Ok ==> parse_tag(s + t) == parse_tag(s) && s.len() >= 1,
{
}

pub proof fn lemma_fixed_prefix(s: Seq<u8>, t: Seq<u8>, w: nat, e: Endian)
    ensures
        parse_fixed(s, w, e) is Ok ==> parse_fixed(s + t, w, e) == parse_fixed(s, w, e) && w <= s.len(),
{
    if s.len() >= w {
        assert((s + t).take(w as int) =~= s.take(w as int));
    }
}

pub proof fn lemma_int_prefix(s: Seq<u8>, t: Seq<u8>, e: Endian)
    ensures
        parse_int(s, e) is Ok ==> parse_int(s + t, e) == parse_int(s, e) && parse_int(s, e)->Ok_0.1
            <= s.len(),
{
    lemma_tag_prefix(s, t);
    if parse_int(s, e) is Ok {
        assert((s + t).skip(1) =~= s.skip(1) + t);
        lemma_fixed_prefix(s.skip(1), t, int_width(parse_tag(s)->Ok_0), e);
    }
}

pub proof fn lemma_len_prefix(s: Seq<u8>, t: Seq<u8>, e: Endian)
    ensures
        parse_len(s, e) is Ok ==> parse_len(s + t, e) == parse_len(s, e) && parse_len(s, e)->Ok_0.1
            <= s.len(),
{
    lemma_int_prefix(s, t, e);
}

pub proof fn lemma_str_body_prefix(s: Seq<u8>, t: Seq<u8>, e: Endian)
    ensures
        parse_str_body(s, e) is Ok ==> parse_str_body(s + t, e) == parse_str_body(s, e)
            && parse_str_body(s, e)->Ok_0.1 <= s.len(),
{
    lemma_len_prefix(s, t, e);
    if parse_str_body(s, e) is Ok {
        let (n, k) = parse_len(s, e)->Ok_0;
        assert((s + t).subrange(k as int, (k + n) as int) =~= s.subrange(k as int, (k + n) as int));
    }
}

pub proof fn lemma_key_prefix(s: Seq<u8>, t: Seq<u8>, e: Endian)
    ensures
        parse_key(s, e) is Ok ==> parse_key(s + t, e) == parse_key(s, e) && parse_key(s, e)->Ok_0.1
            <= s.len(),
{
    lemma_tag_prefix(s, t);
    if parse_key(s, e) is Ok {
        assert((s + t).skip(1) =~= s.skip(1) + t);
        lemma_str_body_prefix(s.skip(1), t, e);
    }
}

pub proof fn lemma_keys_prefix(s: Seq<u8>, t: Seq<u8>, e: Endian, n: nat)
    ensures
        parse_keys(s, e, n) is Ok ==> parse_keys(s + t, e, n) == parse_keys(s, e, n) && parse_keys(
            s,
            e,
            n,
        )->Ok_0.1 <= s.len(),
    decreases n,
{
    if n > 0 && parse_keys(s, e, n) is Ok {
        lemma_key_prefix(s, t, e);
        let k = parse_key(s, e)->Ok_0.1;
        lemma_advance_append(s, t, k);
        lemma_keys_prefix(advance(s, k), t, e, (n - 1) as nat);
    }
}

pub proof fn lemma_template_keys_prefix(s: Seq<u8>, t: Seq<u8>, e: Endian)
    ensures
        parse_template_keys(s, e) is Ok ==> parse_template_keys(s + t, e) == parse_template_keys(s, e)
            && parse_template_keys(s, e)->Ok_0.1 <= s.len(),
{
    lemma_tag_prefix(s, t);
    if parse_template_keys(s, e) is Ok {
        assert((s + t).skip(1) =~= s.skip(1) + t);
        lemma_len_prefix(s.skip(1), t, e);
        let (n, k1) = parse_len(s.skip(1), e)->Ok_0;
        lemma_advance_append(s, t, 1 + k1);
        lemma_keys_prefix(advance(s, 1 + k1), t, e, n);
    }
}

#[verifier::rlimit(80)]
pub proof fn lemma_parse_prefix(s: Seq<u8>, t: Seq<u8>, e: Endian)
    ensures
        parse(s, e) is Ok ==> parse(s + t, e) == parse(s, e) && parse(s, e)->Ok_0.1 <= s.len(),
    decreases s.len(), 0nat, 0nat,
{
    if parse(s, e) is Ok {
        lemma_tag_prefix(s, t);
        let tag = parse_tag(s)->Ok_0;
        let r = s.skip(1);
        assert((s + t).skip(1) =~= r + t);
        if tag == Tag::Array || tag == Tag::Object {
            lemma_len_prefix(r, t, e);
            let (n, k) = parse_len(r, e)->Ok_0;
            lemma_advance_append(s, t, 1 + k);
            if tag == Tag::Array {
                lemma_items_prefix(advance(s, 1 + k), t, e, n);
            } else {
                lemma_entries_prefix(advance(s, 1 + k), t, e, n);
            }
        } else if tag == Tag::String {
            lemma_str_body_prefix(r, t, e);
        } else if tag == Tag::Real {
            lemma_fixed_prefix(r, t, 8, e);
        } else if tag == Tag::Templated {
            lemma_template_keys_prefix(r, t, e);
            let (keys, k1) = parse_template_keys(r, e)->Ok_0;
            lemma_advance_append(s, t, 1 + k1);
            lemma_len_prefix(advance(s, 1 + k1), t, e);
            let (n, k2) = parse_len(advance(s, 1 + k1), e)->Ok_0;
            lemma_advance_append(s, t, 1 + k1 + k2);
            lemma_rows_prefix(advance(s, 1 + k1 + k2), t, e, keys, n);
        } else {
            lemma_fixed_prefix(r, t, int_width(tag), e);
        }
    }
}

pub proof fn lemma_items_prefix(s: Seq<u8>, t: Seq<u8>, e: Endian, n: nat)
    ensures
        parse_items(s, e, n) is Ok ==> parse_items(s + t, e, n) == parse_items(s, e, n) && parse_items(
            s,
            e,
            n,
        )->Ok_0.1 <= s.len(),
    decreases s.len(), 1nat, n,
{
    if n > 0 && parse_items(s, e, n) is Ok {
        lemma_parse_prefix(s, t, e);
        let k = parse(s, e)->Ok_0.1;
        lemma_advance_append(s, t, k);
        lemma_items_prefix(advance(s, k), t, e, (n - 1) as nat);
    }
}

pub proof fn lemma_entries_prefix(s: Seq<u8>, t: Seq<u8>, e: Endian, n: nat)
    ensures
        parse_entries(s, e, n) is Ok ==> parse_entries(s + t, e, n) == parse_entries(s, e, n)
            && parse_entries(s, e, n)->Ok_0.1 <= s.len(),
    decreases s.len(), 1nat, n,
{
    if n > 0 && parse_entries(s, e, n) is Ok {
        lemma_key_prefix(s, t, e);
        let k1 = parse_key(s, e)->Ok_0.1;
        lemma_advance_append(s, t, k1);
        lemma_parse_prefix(advance(s, k1), t, e);
        let k2 = parse(advance(s, k1), e)->Ok_0.1;
        lemma_advance_append(s, t, k1 + k2);
        lemma_entries_prefix(advance(s, k1 + k2), t, e, (n - 1) as nat);
    }
}

pub proof fn lemma_row_prefix(s: Seq<u8>, t: Seq<u8>, e: Endian, keys: Seq<Seq<u8>>, i: nat)
    ensures
        parse_row(s, e, keys, i) is Ok ==> parse_row(s + t, e, keys, i) == parse_row(s, e, keys, i)
            && parse_row(s, e, keys, i)->Ok_0.1 <= s.len(),
    decreases s.len(), 1nat, keys.len() - i,
{
    if i < keys.len() && parse_row(s, e, keys, i) is Ok {
        lemma_tag_prefix(s, t);
        if parse_tag(s)->Ok_0 == Tag::Missing {
            assert((s + t).skip(1) =~= s.skip(1) + t);
            lemma_row_prefix(s.skip(1), t, e, keys, i + 1);
        } else {
            lemma_parse_prefix(s, t, e);
            let k = parse(s, e)->Ok_0.1;
            lemma_advance_append(s, t, k);
            lemma_row_prefix(advance(s, k), t, e, keys, i + 1);
        }
    }
}

pub proof fn lemma_rows_prefix(s: Seq<u8>, t: Seq<u8>, e: Endian, keys: Seq<Seq<u8>>, n: nat)
    ensures
        parse_rows(s, e, keys, n) is Ok ==> parse_rows(s + t, e, keys, n) == parse_rows(s, e, keys, n)
            && parse_rows(s, e, keys, n)->Ok_0.1 <= s.len(),
    decreases s.len(), 2nat, n,
{
    if n > 0 && parse_rows(s, e, keys, n) is Ok {
        lemma_row_prefix(s, t, e, keys, 0);
        let k = parse_row(s, e, keys, 0)->Ok_0.1;
        lemma_advance_append(s, t, k);
        lemma_rows_prefix(advance(s, k), t, e, keys, (n - 1) as nat);
    }
}

/// Whether `log1` continues `log0`.
pub open spec fn extends(log0: Seq<u8>, log1: Seq<u8>) -> bool {
    log0.len() <= log1.len() && log1.take(log0.len() as int) == log0
}

/// The bytes a step of the decoder took, whatever its source: the tag read
/// ahead before it, then the bytes it pulled from the source, which had
/// handed out `log0` before the step and `log1` after it.
pub open spec fn span(front: Seq<u8>, log0: Seq<u8>, log1: Seq<u8>) -> Seq<u8> {
    front + log1.skip(log0.len() as int)
}

pub proof fn lemma_extends_append(l: Seq<u8>, d: Seq<u8>)
    ensures
        extends(l, l + d),
        (l + d).skip(l.len() as int) == d,
{
    assert((l + d).take(l.len() as int) =~= l);
    assert((l + d).skip(l.len() as int) =~= d);
}

pub proof fn lemma_extends_trans(a: Seq<u8>, b: Seq<u8>, c: Seq<u8>)
    requires
        extends(a, b),
        extends(b, c),
    ensures
        extends(a, c),
        c.skip(a.len() as int) == b.skip(a.len() as int) + c.skip(b.len() as int),
{
    assert(c.take(a.len() as int) =~= a);
    assert(c.skip(a.len() as int) =~= b.skip(a.len() as int) + c.skip(b.len() as int));
}

/// Two steps one after the other, the second starting with no tag read ahead,
/// took what each took, in order.
pub broadcast proof fn lemma_span_compose(f0: Seq<u8>, l0: Seq<u8>, l1: Seq<u8>, l2: Seq<u8>)
    requires
        extends(l0, l1),
        extends(l1, l2),
    ensures
        #![trigger extends(l0, l1), extends(l1, l2), span(f0, l0, l2)]
        extends(l0, l2),
        span(f0, l0, l2) == span(f0, l0, l1) + span(Seq::empty(), l1, l2),
{
    lemma_extends_trans(l0, l1, l2);
    assert(span(f0, l0, l2) =~= span(f0, l0, l1) + span(Seq::empty(), l1, l2));
}

/// A String tag followed by `d` is a key when `d` is a length and its bytes.
pub broadcast proof fn lemma_key_of(d: Seq<u8>, e: Endian)
    ensures
        #[trigger] parse_key(seq![tag_byte(Tag::String)] + d, e) == match parse_str_body(d, e) {
            Ok((b, k)) => Ok::<(Seq<u8>, nat), Error>((b, k + 1)),
            Err(x) => Err(x),
        },
{
    lemma_tag_byte_round_trip(Tag::String);
    assert((seq![tag_byte(Tag::String)] + d).skip(1) =~= d);
}

/// A tag followed by `p`: the tag comes first, `p` after it.
pub proof fn lemma_tag_then(t: Tag, p: Seq<u8>, e: Endian)
    ensures
        parse_tag(seq![tag_byte(t)] + p) == Ok::<Tag, Error>(t),
        (seq![tag_byte(t)] + p).skip(1) == p,
        parse_fixed(p, p.len(), e) == Ok::<int, Error>(int_value(p, e)),
{
    lemma_tag_byte_round_trip(t);
    assert((seq![tag_byte(t)] + p).skip(1) =~= p);
    assert(p.take(p.len() as int) =~= p);
}

/// A step that starts with a tag read ahead took that tag, then what it
/// pulled.
pub proof fn lemma_span_after(f0: Seq<u8>, l0: Seq<u8>, f1: Seq<u8>, l1: Seq<u8>, l2: Seq<u8>)
    requires
        extends(l0, l1),
        extends(l1, l2),
        span(f0, l0, l1) == f1,
    ensures
        extends(l0, l2),
        span(f0, l0, l2) == span(f1, l1, l2),
{
    lemma_extends_trans(l0, l1, l2);
    assert(span(f0, l0, l2) =~= span(f1, l1, l2));
}

/// One more key after `i` keys that `d` holds.
pub proof fn lemma_keys_snoc(d: Seq<u8>, k: Seq<u8>, e: Endian, i: nat, ks: Seq<Seq<u8>>, key: Seq<u8>)
    requires
        parse_keys(d, e, i) == Ok::<(Seq<Seq<u8>>, nat), Error>((ks, d.len())),
        parse_key(k, e) == Ok::<(Seq<u8>, nat), Error>((key, k.len())),
    ensures
        parse_keys(d + k, e, i + 1) == Ok::<(Seq<Seq<u8>>, nat), Error>(
            (ks.push(key), d.len() + k.len()),
        ),
    decreases i,
{
    if i == 0 {
        reveal_with_fuel(parse_keys, 2);
        assert(d + k =~= k);
        assert(advance(k, k.len()) =~= Seq::<u8>::empty());
        assert(seq![key] + Seq::<Seq<u8>>::empty() =~= ks.push(key));
    } else {
        lemma_key_prefix(d, k, e);
        let (key0, k0) = parse_key(d, e)->Ok_0;
        let d1 = advance(d, k0);
        lemma_advance_append(d, k, k0);
        let (ks1, k1) = parse_keys(d1, e, (i - 1) as nat)->Ok_0;
        assert(k1 == d1.len());
        assert((d + k).len() == d.len() + k.len());
        lemma_keys_snoc(d1, k, e, (i - 1) as nat, ks1, key);
        assert(seq![key0] + ks1.push(key) =~= ks.push(key));
    }
}

/// The key list of a templated array: the Array tag, a count, then that
/// many keys.
pub proof fn lemma_template_keys_of(lb: Seq<u8>, dk: Seq<u8>, e: Endian, n: nat, ks: Seq<Seq<u8>>)
    requires
        parse_len(lb, e) == Ok::<(nat, nat), Error>((n, lb.len())),
        parse_keys(dk, e, n) == Ok::<(Seq<Seq<u8>>, nat), Error>((ks, dk.len())),
    ensures
        parse_template_keys(seq![tag_byte(Tag::Array)] + (lb + dk), e) == Ok::<
            (Seq<Seq<u8>>, nat),
            Error,
        >((ks, 1 + lb.len() + dk.len())),
{
    let w = seq![tag_byte(Tag::Array)] + (lb + dk);
    lemma_tag_then(Tag::Array, lb + dk, e);
    lemma_len_prefix(lb, dk, e);
    assert(advance(w, 1 + lb.len()) =~= dk);
}

/// A step taken in two parts took what the first part took, then what
/// the second pulled.
pub proof fn lemma_span_extend(f0: Seq<u8>, l0: Seq<u8>, l1: Seq<u8>, l2: Seq<u8>)
    requires
        extends(l0, l1),
        extends(l1, l2),
    ensures
        extends(l0, l2),
        span(f0, l0, l2) == span(f0, l0, l1) + l2.skip(l1.len() as int),
{
    lemma_extends_trans(l0, l1, l2);
    assert(span(f0, l0, l2) =~= span(f0, l0, l1) + l2.skip(l1.len() as int));
}

} // verus!
