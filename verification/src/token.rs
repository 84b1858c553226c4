//! Validation of token metadata at instantiation.

use vstd::prelude::*;
use vstd::string::StringSliceAdditionalSpecFns;

verus! {

/// A symbol byte is a dash or an ASCII letter.
pub open spec fn symbol_byte_ok(b: u8) -> bool {
    b == 45 || (65 <= b <= 90) || (97 <= b <= 122)
}

/// A valid ticker symbol: 3 to 12 bytes, dashes and ASCII letters only.
pub open spec fn spec_valid_symbol(bytes: Seq<u8>) -> bool {
    3 <= bytes.len() <= 12 && forall|i: int| 0 <= i < bytes.len() ==> symbol_byte_ok(#[trigger] bytes[i])
}

/// Whether a token name is within the accepted length (3 to 50 UTF-8
/// bytes).
pub fn is_valid_name(name: &str) -> (r: bool)
    ensures
        r == (3 <= name.spec_bytes().len() <= 50),
{
    let bytes = name.as_bytes();
    if bytes.len() < 3 || bytes.len() > 50 {
        return false;
    }
    true
}

/// Whether a ticker symbol matches the accepted format: 3 to 12 bytes,
/// each a dash or an ASCII letter.
pub fn is_valid_symbol(symbol: &str) -> (r: bool)
    ensures
        r == spec_valid_symbol(symbol.spec_bytes()),
{
    let bytes = symbol.as_bytes();
    let n = bytes.len();
    if n < 3 || n > 12 {
        return false;
    }
    let mut i: usize = 0;
    while i < n
        invariant
            0 <= i <= n,
            n == bytes@.len(),
            bytes@ == symbol.spec_bytes(),
            3 <= n <= 12,
            forall|k: int| 0 <= k < i ==> symbol_byte_ok(#[trigger] bytes@[k]),
        decreases n - i,
    {
        let byte = bytes[i];
        if byte != 45 && (byte < 65 || byte > 90) && (byte < 97 || byte > 122) {
            proof {
                assert(!symbol_byte_ok(bytes@[i as int]));
            }
            return false;
        }
        i = i + 1;
    }
    true
}

} // verus!
