//! Decimal ASCII text of a nonce, through the `itoa` crate.
use vstd::prelude::*;

verus! {

/// The ASCII decimal digits of `n`, most significant first, with no sign and
/// no leading zeros (`0` is the single digit `"0"`).
pub open spec fn decimal(n: nat) -> Seq<u8>
    decreases n,
{
    if n < 10 {
        seq![(48 + n) as u8]
    } else {
        decimal(n / 10).push((48 + n % 10) as u8)
    }
}

/// Relies on `itoa::Buffer::format`: the decimal text of an unsigned integer.
#[verifier::external_body]
pub(crate) fn decimal_ascii(n: u128) -> (r: Vec<u8>)
    ensures
        r@ == decimal(n as nat),
{
    let mut buffer = itoa::Buffer::new();
    buffer.format(n).as_bytes().to_vec()
}

} // verus!
