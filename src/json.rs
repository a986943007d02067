//! JSON text for the index files, through rustc_serialize's encoder.
use vstd::prelude::*;

verus! {

/// The JSON string literal, quotes and escapes included, that encodes `s`.
pub uninterp spec fn json_quoted(s: Seq<char>) -> Seq<char>;

pub open spec fn digit(d: nat) -> char {
    seq!['0', '1', '2', '3', '4', '5', '6', '7', '8', '9'][d as int]
}

/// The decimal digits of `n`, most significant first, without leading zeros.
pub open spec fn decimal(n: nat) -> Seq<char>
    decreases n,
{
    if n < 10 {
        seq![digit(n)]
    } else {
        decimal(n / 10).push(digit(n % 10))
    }
}

/// Relies on rustc_serialize's `Json::String` encoding: the string in
/// quotes, with quote, backslash and control characters escaped.
#[verifier::external_body]
pub(crate) fn json_string(s: &str) -> (r: String)
    ensures
        r@ == json_quoted(s@),
{
    rustc_serialize::json::Json::String(s.to_string()).to_string()
}

/// Relies on rustc_serialize's `Json::U64` encoding, which writes the number
/// with `{}`: its decimal digits.
#[verifier::external_body]
pub(crate) fn json_number(n: u32) -> (r: String)
    ensures
        r@ == decimal(n as nat),
{
    rustc_serialize::json::Json::U64(n as u64).to_string()
}

} // verus!
