//! Text that the encoder writes as byte strings: decimal integers and characters.
use vstd::prelude::*;
use vstd::utf8::encode_utf8;

verus! {

/// The ASCII decimal digits of `n`, without leading zeros.
pub open spec fn digits(n: nat) -> Seq<u8>
    decreases n,
{
    if n < 10 {
        seq![(48 + n) as u8]
    } else {
        digits(n / 10) + seq![(48 + n % 10) as u8]
    }
}

/// The ASCII decimal text of `v`, with a leading minus sign when it is negative.
pub open spec fn decimal(v: int) -> Seq<u8> {
    if v < 0 {
        seq![45u8] + digits((-v) as nat)
    } else {
        digits(v as nat)
    }
}

/// Ten to the power `k`.
pub open spec fn pow10(k: nat) -> nat
    decreases k,
{
    if k == 0 {
        1
    } else {
        10 * pow10((k - 1) as nat)
    }
}

/// A number below ten to the `k` has at most `k` digits.
pub proof fn lemma_digits_len(n: nat, k: nat)
    requires
        n < pow10(k),
    ensures
        digits(n).len() <= if k == 0 { 1 } else { k },
    decreases n,
{
    if n >= 10 {
        assert(k >= 2) by {
            reveal_with_fuel(pow10, 2);
        }
        let p = pow10((k - 1) as nat);
        assert(n / 10 < p) by (nonlinear_arith)
            requires
                n < 10 * p,
                n >= 10,
        ;
        lemma_digits_len(n / 10, (k - 1) as nat);
    }
}

/// The decimal text of a 128-bit integer is at most 41 bytes long.
pub proof fn lemma_decimal_len(v: i128)
    ensures
        decimal(v as int).len() <= 41,
{
    assert(pow10(40) == 10_000_000_000_000_000_000_000_000_000_000_000_000_000) by {
        reveal_with_fuel(pow10, 41);
    }
    if v < 0 {
        lemma_digits_len((-v) as nat, 40);
    } else {
        lemma_digits_len(v as nat, 40);
    }
}

/// Relies on itoa's `Buffer::format`: the decimal text of `v`, with a minus
/// sign in front when it is negative.
#[verifier::external_body]
pub(crate) fn format_decimal(v: i128) -> (r: Vec<u8>)
    ensures
        r@ == decimal(v as int),
{
    let mut buf = itoa::Buffer::new();
    buf.format(v).as_bytes().to_vec()
}

/// Relies on std's `char::encode_utf8`: the UTF-8 bytes of `c`.
#[verifier::external_body]
pub(crate) fn char_utf8(c: char) -> (r: Vec<u8>)
    ensures
        r@ == encode_utf8(seq![c]),
{
    let mut buf = [0u8; 4];
    c.encode_utf8(&mut buf).as_bytes().to_vec()
}

} // verus!
