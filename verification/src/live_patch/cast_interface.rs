use vstd::prelude::*;
use vstd::string::StringSliceAdditionalSpecFns;
use crate::types::address::Address;
use crate::types::u256::{hex_value, is_hex_digits, U256};

verus! {

/// Whether the bytes are an address as a contract call returns it: `0x`, 24 zeros,
/// then the 40 hexadecimal digits of the address.
pub open spec fn is_padded_address(s: Seq<u8>) -> bool {
    &&& s.len() == 66
    &&& s[0] == 0x30
    &&& s[1] == 0x78
    &&& forall|i: int| 2 <= i < 26 ==> s[i] == 0x30
    &&& is_hex_digits(s.skip(26))
}

/// Reads an address out of the 32-byte word that a contract call returns for it.
/// Anything but `0x`, 24 zeros and 40 hexadecimal digits is `None`.
pub fn decode_address(input: &str) -> (r: Option<Address>)
    ensures
        r is Some <==> is_padded_address(input.spec_bytes()),
        r is Some ==> r->0@ == hex_value(input.spec_bytes().skip(26)),
{
    let bytes = input.as_bytes();
    if bytes.len() != 66 || bytes[0] != 0x30 || bytes[1] != 0x78 {
        return None;
    }
    let mut i: usize = 2;
    while i < 26
        invariant
            2 <= i <= 26,
            bytes@.len() == 66,
            bytes@ == input.spec_bytes(),
            forall|k: int| 2 <= k < i ==> bytes@[k] == 0x30,
        decreases 26 - i,
    {
        if bytes[i] != 0x30 {
            return None;
        }
        i += 1;
    }
    match U256::from_hex_digits(bytes, 26) {
        None => None,
        Some(value) => {
            proof {
                crate::types::u256::lemma_hex_value_bound(bytes@.skip(26));
                crate::types::address::lemma_pow16_40();
            }
            Some(Address::from_u256(value))
        },
    }
}

/// Whether a contract call has answered anything but zero: whether the answer, a
/// hexadecimal literal, is a number other than zero. An answer that is no such
/// literal is `None`.
pub fn decode_flag(input: &str) -> (r: Option<bool>)
    ensures
        r is Some <==> crate::types::u256::is_hex_literal(input.spec_bytes()),
        r is Some ==> r->0 == (hex_value(input.spec_bytes().skip(2)) != 0),
{
    match U256::from_hex(input) {
        Some(value) => Some(!value.is_zero()),
        None => None,
    }
}

} // verus!
