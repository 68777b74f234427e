//! Byte order of multi-byte numbers, and the fixed-width integers of the wire.
use byteorder::{BigEndian, ByteOrder, LittleEndian, NativeEndian};
use vstd::arithmetic::div_mod::{lemma_fundamental_div_mod, lemma_fundamental_div_mod_converse};
use vstd::prelude::*;

verus! {

/// Byte order of the Int16, Int32, Int64 and Real payloads.
#[derive(Debug, Clone, Copy, PartialEq, Eq, Structural)]
pub enum Endian {
    Little,
    Big,
}

/// The number of values that `n` bytes can hold: 256 to the power `n`.
pub open spec fn byte_span(n: nat) -> int
    decreases n,
{
    if n == 0 {
        1
    } else {
        256 * byte_span((n - 1) as nat)
    }
}

/// Whether `v` is representable as a two's complement integer of `n` bytes.
pub open spec fn fits(v: int, n: nat) -> bool {
    -byte_span(n) <= 2 * v < byte_span(n)
}

/// The `n` low-order bytes of `v` in two's complement, least significant first.
pub open spec fn le_bytes(v: int, n: nat) -> Seq<u8>
    decreases n,
{
    if n == 0 {
        Seq::empty()
    } else {
        seq![(v % 256) as u8] + le_bytes(v / 256, (n - 1) as nat)
    }
}

/// The unsigned number that `s` holds, least significant byte first.
pub open spec fn le_uint(s: Seq<u8>) -> int
    decreases s.len(),
{
    if s.len() == 0 {
        0
    } else {
        s[0] as int + 256 * le_uint(s.drop_first())
    }
}

/// The two's complement reading of `u`, an unsigned number of `n` bytes.
pub open spec fn sign_extend(u: int, n: nat) -> int {
    if 2 * u >= byte_span(n) {
        u - byte_span(n)
    } else {
        u
    }
}

/// The `n` low-order bytes of `v`, in byte order `e`.
pub open spec fn int_bytes(v: int, n: nat, e: Endian) -> Seq<u8> {
    match e {
        Endian::Little => le_bytes(v, n),
        Endian::Big => le_bytes(v, n).reverse(),
    }
}

/// The signed integer that the bytes `s` hold in byte order `e`.
pub open spec fn int_value(s: Seq<u8>, e: Endian) -> int {
    match e {
        Endian::Little => sign_extend(le_uint(s), s.len()),
        Endian::Big => sign_extend(le_uint(s.reverse()), s.len()),
    }
}

pub proof fn lemma_byte_span_pos(n: nat)
    ensures
        byte_span(n) >= 1,
    decreases n,
{
    if n > 0 {
        lemma_byte_span_pos((n - 1) as nat);
    }
}

pub proof fn lemma_byte_span_values()
    ensures
        byte_span(1) == 0x100,
        byte_span(2) == 0x1_0000,
        byte_span(4) == 0x1_0000_0000,
        byte_span(8) == 0x1_0000_0000_0000_0000,
{
    reveal_with_fuel(byte_span, 9);
}

pub proof fn lemma_le_bytes_len(v: int, n: nat)
    ensures
        le_bytes(v, n).len() == n,
    decreases n,
{
    if n > 0 {
        lemma_le_bytes_len(v / 256, (n - 1) as nat);
    }
}

pub proof fn lemma_reverse_reverse(s: Seq<u8>)
    ensures
        s.reverse().len() == s.len(),
        s.reverse().reverse() == s,
{
    if s.len() > 0 {
        assert(s.reverse().reverse() =~= s);
    }
}

/// Reading back the `n` low-order bytes of `v` gives `v` modulo 256 to the `n`.
pub proof fn lemma_le_uint_le_bytes(v: int, n: nat)
    ensures
        le_uint(le_bytes(v, n)) == v % byte_span(n),
    decreases n,
{
    if n > 0 {
        let m = byte_span((n - 1) as nat);
        let q = v / 256;
        let r = v % 256;
        lemma_byte_span_pos((n - 1) as nat);
        lemma_le_uint_le_bytes(q, (n - 1) as nat);
        let s = le_bytes(v, n);
        assert(s.drop_first() =~= le_bytes(q, (n - 1) as nat));
        lemma_fundamental_div_mod(v, 256);
        lemma_fundamental_div_mod(q, m);
        let t = q % m;
        assert(0 <= t < m);
        assert(v == (q / m) * (256 * m) + (256 * t + r)) by (nonlinear_arith)
            requires
                v == 256 * q + r,
                q == m * (q / m) + t,
        ;
        assert(0 <= 256 * t + r < 256 * m) by (nonlinear_arith)
            requires
                0 <= t < m,
                0 <= r < 256,
        ;
        lemma_fundamental_div_mod_converse(v, 256 * m, q / m, 256 * t + r);
    }
}

/// An integer that fits in `n` bytes is read back unchanged, in either byte order.
pub proof fn lemma_int_round_trip(v: int, n: nat, e: Endian)
    requires
        n >= 1,
        fits(v, n),
    ensures
        int_bytes(v, n, e).len() == n,
        int_value(int_bytes(v, n, e), e) == v,
{
    let span = byte_span(n);
    lemma_byte_span_pos(n);
    lemma_le_bytes_len(v, n);
    lemma_le_uint_le_bytes(v, n);
    lemma_reverse_reverse(le_bytes(v, n));
    if v >= 0 {
        lemma_fundamental_div_mod_converse(v, span, 0, v);
    } else {
        lemma_fundamental_div_mod_converse(v, span, -1, v + span);
    }
}

/// Relies on byteorder's `LittleEndian::write_int`: it stores the `nbytes`
/// low-order bytes of `n`, least significant first.
#[verifier::external_body]
fn le_write_int(n: i64, nbytes: usize) -> (r: Vec<u8>)
    requires
        1 <= nbytes <= 8,
        fits(n as int, nbytes as nat),
    ensures
        r@ == le_bytes(n as int, nbytes as nat),
{
    let mut buf = vec![0u8; nbytes];
    LittleEndian::write_int(&mut buf, n, nbytes);
    buf
}

/// Relies on byteorder's `BigEndian::write_int`: it stores the `nbytes`
/// low-order bytes of `n`, most significant first.
#[verifier::external_body]
fn be_write_int(n: i64, nbytes: usize) -> (r: Vec<u8>)
    requires
        1 <= nbytes <= 8,
        fits(n as int, nbytes as nat),
    ensures
        r@ == le_bytes(n as int, nbytes as nat).reverse(),
{
    let mut buf = vec![0u8; nbytes];
    BigEndian::write_int(&mut buf, n, nbytes);
    buf
}

/// Relies on byteorder's `LittleEndian::read_int`: the bytes of `buf`, least
/// significant first, sign-extended from their width.
#[verifier::external_body]
fn le_read_int(buf: &[u8]) -> (r: i64)
    requires
        1 <= buf@.len() <= 8,
    ensures
        r as int == sign_extend(le_uint(buf@), buf@.len()),
{
    LittleEndian::read_int(buf, buf.len())
}

/// Relies on byteorder's `BigEndian::read_int`: the bytes of `buf`, most
/// significant first, sign-extended from their width.
#[verifier::external_body]
fn be_read_int(buf: &[u8]) -> (r: i64)
    requires
        1 <= buf@.len() <= 8,
    ensures
        r as int == sign_extend(le_uint(buf@.reverse()), buf@.len()),
{
    BigEndian::read_int(buf, buf.len())
}

/// Relies on byteorder's `NativeEndian::read_int`, which is the little-endian
/// or the big-endian reading, as the machine's own order is.
#[verifier::external_body]
fn native_read_int(buf: &[u8]) -> (r: i64)
    requires
        1 <= buf@.len() <= 8,
    ensures
        r as int == int_value(buf@, Endian::Little) || r as int == int_value(buf@, Endian::Big),
{
    NativeEndian::read_int(buf, buf.len())
}

impl Endian {
    /// The byte order of the machine this runs on.
    pub fn native() -> (r: Endian) {
        let probe: Vec<u8> = vec![1u8, 0u8];
        if native_read_int(probe.as_slice()) == 1 {
            Endian::Little
        } else {
            Endian::Big
        }
    }
}

/// The `nbytes` low-order bytes of `v`, in byte order `e`.
pub fn write_int(v: i64, nbytes: usize, e: Endian) -> (r: Vec<u8>)
    requires
        1 <= nbytes <= 8,
        fits(v as int, nbytes as nat),
    ensures
        r@ == int_bytes(v as int, nbytes as nat, e),
{
    match e {
        Endian::Little => le_write_int(v, nbytes),
        Endian::Big => be_write_int(v, nbytes),
    }
}

/// The signed integer that `buf` holds in byte order `e`.
pub fn read_int(buf: &[u8], e: Endian) -> (r: i64)
    requires
        1 <= buf@.len() <= 8,
    ensures
        r as int == int_value(buf@, e),
{
    match e {
        Endian::Little => le_read_int(buf),
        Endian::Big => be_read_int(buf),
    }
}

} // verus!
