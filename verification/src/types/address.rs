use vstd::prelude::*;
use vstd::std_specs::cmp::PartialOrdSpecImpl;
use vstd::std_specs::convert::FromSpecImpl;
use vstd::string::StringExecFns;
use vstd::string::StringSliceAdditionalSpecFns;
use core::cmp::Ordering;
use crate::types::text::{append_digits, digits_lsb, fixed_text, text_of_digits};
use crate::types::u256::{
    be_value, hex_value, is_hex_digits, lemma_hex_value_bound, lemma_pow16_32, lemma_pow16_adds, limb_base,
    pow16, U256,
};

verus! {

/// Two to the power 160: one more than the largest address.
#[verifier::inline]
pub open spec fn address_limit() -> nat {
    0x1_0000_0000nat * limb_base()
}

/// A 20-byte account identifier, read as a 160-bit number with the first byte weighing
/// most.
#[derive(Clone, Copy, Debug, Hash, PartialEq, Eq, Structural, Ord)]
pub struct Address {
    hi: u32,
    lo: u128,
}

impl View for Address {
    type V = nat;

    open spec fn view(&self) -> nat {
        self.spec_hi() * limb_base() + self.spec_lo()
    }
}

/// The hexadecimal digits of an address text: what follows `0x`, or the whole text
/// where it does not start with `0x`.
pub open spec fn address_digits(s: Seq<u8>) -> Seq<u8> {
    if s.len() >= 2 && s[0] == 0x30 && s[1] == 0x78 {
        s.skip(2)
    } else {
        s
    }
}

/// Whether the bytes are 40 hexadecimal digits, with or without `0x` before them.
pub open spec fn is_address_text(s: Seq<u8>) -> bool {
    address_digits(s).len() == 40 && is_hex_digits(address_digits(s))
}

impl Address {
    /// The first four bytes as a number.
    pub closed spec fn spec_hi(&self) -> nat {
        self.hi as nat
    }

    /// The last sixteen bytes as a number.
    pub closed spec fn spec_lo(&self) -> nat {
        self.lo as nat
    }

    /// The address that stands for a number below two to the 160.
    pub closed spec fn from_nat(n: nat) -> Address {
        Address { hi: (n / limb_base()) as u32, lo: (n % limb_base()) as u128 }
    }

    /// The address that stands for a number below two to the 160 is that number.
    pub broadcast proof fn lemma_from_nat(n: nat)
        requires
            n < address_limit(),
        ensures
            (#[trigger] Address::from_nat(n))@ == n,
    {
    }

    /// An address is below two to the 160.
    pub broadcast proof fn lemma_bound(self)
        ensures
            #![trigger self.spec_hi()]
            #![trigger self.spec_lo()]
            self.spec_hi() < 0x1_0000_0000,
            self.spec_lo() < limb_base(),
            self@ < address_limit(),
    {
    }

    /// The number determines the address.
    pub proof fn lemma_view_injective(a: Address, b: Address)
        requires
            a@ == b@,
        ensures
            a == b,
    {
    }

    /// The address of all zero bytes.
    pub closed spec fn zero_value() -> Address {
        Address { hi: 0, lo: 0 }
    }

    /// The address of all zero bytes is the number zero.
    pub proof fn lemma_zero_value()
        ensures
            Address::zero_value()@ == 0,
    {
    }

    /// The address of all zero bytes.
    pub fn zero() -> (r: Address)
        ensures
            r@ == 0,
            r == Address::zero_value(),
    {
        Address { hi: 0, lo: 0 }
    }

    /// The address that is a number below two to the 160.
    pub fn from_u256(value: U256) -> (r: Address)
        requires
            value@ < address_limit(),
        ensures
            r@ == value@,
    {
        let high = value.high();
        let low = value.low();
        Address { hi: high as u32, lo: low }
    }

    /// The address as a number of 256 bits.
    pub fn to_u256(&self) -> (r: U256)
        ensures
            r@ == self@,
    {
        U256::new(self.hi as u128, self.lo)
    }

    /// Reads 40 hexadecimal digits, in either case, with or without `0x` before them.
    /// Anything else is `None`.
    pub fn from_hex(s: &str) -> (r: Option<Address>)
        ensures
            r is Some <==> is_address_text(s.spec_bytes()),
            r is Some ==> r->0@ == hex_value(address_digits(s.spec_bytes())),
    {
        Address::from_hex_bytes(s.as_bytes())
    }

    /// As [`Address::from_hex`], on the bytes of the text.
    pub fn from_hex_bytes(bytes: &[u8]) -> (r: Option<Address>)
        ensures
            r is Some <==> is_address_text(bytes@),
            r is Some ==> r->0@ == hex_value(address_digits(bytes@)),
    {
        let n = bytes.len();
        let start: usize = if n >= 2 && bytes[0] == 0x30 && bytes[1] == 0x78 {
            2
        } else {
            0
        };
        if n - start != 40 {
            return None;
        }
        assert(bytes@.skip(0) =~= bytes@);
        match U256::from_hex_digits(bytes, start) {
            None => None,
            Some(value) => {
                proof {
                    lemma_hex_value_bound(address_digits(bytes@));
                    lemma_pow16_40();
                }
                let high = value.high();
                let low = value.low();
                Some(Address { hi: high as u32, lo: low })
            },
        }
    }

    /// The 20 bytes of the address.
    pub fn to_bytes(self) -> (r: [u8; 20])
        ensures
            be_value(r@) == self@,
    {
        let h0: u32 = self.hi;
        let b3: u8 = (h0 % 256) as u8;
        let h1: u32 = h0 / 256;
        let b2: u8 = (h1 % 256) as u8;
        let h2: u32 = h1 / 256;
        let b1: u8 = (h2 % 256) as u8;
        let h3: u32 = h2 / 256;
        let b0: u8 = h3 as u8;
        let l0: u128 = self.lo;
        let b19: u8 = (l0 % 256) as u8;
        let l1: u128 = l0 / 256;
        let b18: u8 = (l1 % 256) as u8;
        let l2: u128 = l1 / 256;
        let b17: u8 = (l2 % 256) as u8;
        let l3: u128 = l2 / 256;
        let b16: u8 = (l3 % 256) as u8;
        let l4: u128 = l3 / 256;
        let b15: u8 = (l4 % 256) as u8;
        let l5: u128 = l4 / 256;
        let b14: u8 = (l5 % 256) as u8;
        let l6: u128 = l5 / 256;
        let b13: u8 = (l6 % 256) as u8;
        let l7: u128 = l6 / 256;
        let b12: u8 = (l7 % 256) as u8;
        let l8: u128 = l7 / 256;
        let b11: u8 = (l8 % 256) as u8;
        let l9: u128 = l8 / 256;
        let b10: u8 = (l9 % 256) as u8;
        let l10: u128 = l9 / 256;
        let b9: u8 = (l10 % 256) as u8;
        let l11: u128 = l10 / 256;
        let b8: u8 = (l11 % 256) as u8;
        let l12: u128 = l11 / 256;
        let b7: u8 = (l12 % 256) as u8;
        let l13: u128 = l12 / 256;
        let b6: u8 = (l13 % 256) as u8;
        let l14: u128 = l13 / 256;
        let b5: u8 = (l14 % 256) as u8;
        let l15: u128 = l14 / 256;
        let b4: u8 = l15 as u8;
        let r: [u8; 20] = [
            b0, b1, b2, b3, b4, b5, b6, b7, b8, b9, b10, b11, b12, b13, b14, b15, b16, b17, b18,
            b19,
        ];
        proof {
            lemma_be_value_20(r@);
            let v4 = ((b0 as int * 256 + b1) * 256 + b2) * 256 + b3;
            assert(v4 == self.hi);
            let v8 = (((b4 as int * 256 + b5) * 256 + b6) * 256 + b7) * 256 + b8;
            assert(v8 == l11);
            let v12 = (((v8 * 256 + b9) * 256 + b10) * 256 + b11) * 256 + b12;
            assert(v12 == l7);
            let v16 = (((v12 * 256 + b13) * 256 + b14) * 256 + b15) * 256 + b16;
            assert(v16 == l3);
            let v19 = ((v16 * 256 + b17) * 256 + b18) * 256 + b19;
            assert(v19 == self.lo);
        }
        r
    }

    /// The head of the address in hexadecimal: `0x`, then the first six of its 40
    /// digits, which are those of the number without its last 34 digits.
    pub fn short(&self) -> (r: String)
        ensures
            r@ == seq!['0', 'x'] + fixed_text(self@ / (0x100 * limb_base()), 16, 6),
    {
        let head: u128 = (self.hi / 0x100) as u128;
        proof {
            let unit = (0x100 * limb_base()) as int;
            let q = (self.hi / 0x100) as int;
            let r = (self.hi % 0x100) as int;
            vstd::arithmetic::div_mod::lemma_fundamental_div_mod_converse(
                self@ as int,
                unit,
                q,
                r * limb_base() + self.lo,
            );
        }
        let digits = U256::new(0, head).digits_fixed(16, 6);
        let mut out = String::from_str("0x");
        proof {
            reveal_strlit("0x");
            assert(out@ =~= seq!['0', 'x']);
        }
        append_digits(&mut out, &digits);
        out
    }

    /// The address in hexadecimal: `0x`, then 40 digits in lower case.
    pub fn to_string(&self) -> (r: String)
        ensures
            r@ == seq!['0', 'x'] + fixed_text(self@, 16, 40),
    {
        let digits = U256::new(self.hi as u128, self.lo).digits_fixed(16, 40);
        let mut out = String::from_str("0x");
        proof {
            reveal_strlit("0x");
            assert(out@ =~= seq!['0', 'x']);
        }
        append_digits(&mut out, &digits);
        out
    }
}

/// Sixteen to the 40 is two to the 160.
pub proof fn lemma_pow16_40()
    ensures
        pow16(40) == address_limit(),
{
    lemma_pow16_32();
    lemma_pow16_adds(32, 8);
}

/// The big-endian value of 20 bytes: the first four weigh two to the 128 times what
/// they weigh alone.
proof fn lemma_be_value_20(s: Seq<u8>)
    requires
        s.len() == 20,
    ensures
        be_value(s) == (((s[0] * 256 + s[1]) * 256 + s[2]) * 256 + s[3]) * limb_base() + ((((((((
            (((((((s[4] * 256 + s[5]) * 256 + s[6]) * 256 + s[7]) * 256 + s[8]) * 256 + s[9]) * 256
                + s[10]) * 256 + s[11]) * 256 + s[12]) * 256 + s[13]) * 256 + s[14]) * 256 + s[15])
                * 256 + s[16]) * 256 + s[17]) * 256 + s[18]) * 256 + s[19]),
{
    let head = ((s[0] * 256 + s[1]) * 256 + s[2]) * 256 + s[3];
    let p = |k: int| be_value(s.take(k));
    assert forall|k: int| 0 < k <= 20 implies #[trigger] p(k) == p(k - 1) * 256 + s[k - 1] by {
        assert(s.take(k).drop_last() =~= s.take(k - 1));
    }
    assert(p(0) == 0);
    assert(p(1) == p(0) * 256 + s[0]);
    assert(p(2) == p(1) * 256 + s[1]);
    assert(p(3) == p(2) * 256 + s[2]);
    assert(p(4) == p(3) * 256 + s[3]);
    assert(p(4) == head);
    assert(p(5) == p(4) * 256 + s[4]);
    assert(p(6) == p(5) * 256 + s[5]);
    assert(p(7) == p(6) * 256 + s[6]);
    assert(p(8) == p(7) * 256 + s[7]);
    let t8 = (((s[4] * 256 + s[5]) * 256 + s[6]) * 256 + s[7]);
    assert(p(8) == head * 0x1_0000_0000 + t8);
    assert(p(9) == p(8) * 256 + s[8]);
    assert(p(10) == p(9) * 256 + s[9]);
    assert(p(11) == p(10) * 256 + s[10]);
    assert(p(12) == p(11) * 256 + s[11]);
    let t12 = ((((t8 * 256 + s[8]) * 256 + s[9]) * 256 + s[10]) * 256 + s[11]);
    assert(p(12) == head * 0x1_0000_0000_0000_0000 + t12);
    assert(p(13) == p(12) * 256 + s[12]);
    assert(p(14) == p(13) * 256 + s[13]);
    assert(p(15) == p(14) * 256 + s[14]);
    assert(p(16) == p(15) * 256 + s[15]);
    let t16 = ((((t12 * 256 + s[12]) * 256 + s[13]) * 256 + s[14]) * 256 + s[15]);
    assert(p(16) == head * 0x1_0000_0000_0000_0000_0000_0000 + t16);
    assert(p(17) == p(16) * 256 + s[16]);
    assert(p(18) == p(17) * 256 + s[17]);
    assert(p(19) == p(18) * 256 + s[18]);
    assert(p(20) == p(19) * 256 + s[19]);
    assert(s.take(20) =~= s);
}

impl From<[u8; 20]> for Address {
    fn from(item: [u8; 20]) -> (r: Address) {
        let hi: u32 = ((item[0] as u32 * 256 + item[1] as u32) * 256 + item[2] as u32) * 256
            + item[3] as u32;
        let l1: u128 = (((item[4] as u128 * 256 + item[5] as u128) * 256 + item[6] as u128) * 256
            + item[7] as u128) * 256 + item[8] as u128;
        let l2: u128 = (((l1 * 256 + item[9] as u128) * 256 + item[10] as u128) * 256
            + item[11] as u128) * 256 + item[12] as u128;
        let l3: u128 = (((l2 * 256 + item[13] as u128) * 256 + item[14] as u128) * 256
            + item[15] as u128) * 256 + item[16] as u128;
        let lo: u128 = ((l3 * 256 + item[17] as u128) * 256 + item[18] as u128) * 256
            + item[19] as u128;
        let r = Address { hi, lo };
        proof {
            lemma_be_value_20(item@);
            assert(r@ == be_value(item@));
            Address::lemma_view_injective(r, Address::from_nat(be_value(item@)));
        }
        r
    }
}

impl FromSpecImpl<[u8; 20]> for Address {
    open spec fn obeys_from_spec() -> bool {
        true
    }

    open spec fn from_spec(item: [u8; 20]) -> Address {
        Address::from_nat(be_value(item@))
    }
}

impl PartialOrd for Address {
    fn partial_cmp(&self, other: &Address) -> (r: Option<Ordering>) {
        if self.hi < other.hi {
            Some(Ordering::Less)
        } else if self.hi > other.hi {
            Some(Ordering::Greater)
        } else if self.lo < other.lo {
            Some(Ordering::Less)
        } else if self.lo > other.lo {
            Some(Ordering::Greater)
        } else {
            Some(Ordering::Equal)
        }
    }
}

impl PartialOrdSpecImpl for Address {
    open spec fn obeys_partial_cmp_spec() -> bool {
        true
    }

    open spec fn partial_cmp_spec(&self, other: &Address) -> Option<Ordering> {
        if self@ < other@ {
            Some(Ordering::Less)
        } else if self@ > other@ {
            Some(Ordering::Greater)
        } else {
            Some(Ordering::Equal)
        }
    }
}

impl Default for Address {
    fn default() -> (r: Address)
        ensures
            r@ == 0,
    {
        Address { hi: 0, lo: 0 }
    }
}

} // verus!
