use vstd::prelude::*;
use vstd::std_specs::cmp::PartialOrdSpecImpl;
use vstd::std_specs::convert::FromSpecImpl;
use vstd::std_specs::ops::AddSpecImpl;
use vstd::std_specs::ops::SubSpecImpl;
use core::cmp::Ordering;
use vstd::string::StringSliceAdditionalSpecFns;
use vstd::string::StringExecFns;
use crate::types::text::{append_digits, digit_count, digits_lsb, number_text};

verus! {

/// Two to the power 128: the weight of the high limb.
#[verifier::inline]
pub open spec fn limb_base() -> nat {
    0x1_0000_0000_0000_0000_0000_0000_0000_0000nat
}

/// Two to the power 256: one more than the largest value a `U256` holds.
#[verifier::inline]
pub open spec fn modulus() -> nat {
    limb_base() * limb_base()
}

/// An unsigned 256-bit integer, kept as two 128-bit limbs.
#[derive(Clone, Copy, Debug, Hash, PartialEq, Eq, Structural, Ord)]
pub struct U256 {
    high: u128,
    low: u128,
}

impl View for U256 {
    type V = nat;

    open spec fn view(&self) -> nat {
        self.spec_high() * limb_base() + self.spec_low()
    }
}

impl U256 {
    /// The high limb.
    pub closed spec fn spec_high(&self) -> nat {
        self.high as nat
    }

    /// The low limb.
    pub closed spec fn spec_low(&self) -> nat {
        self.low as nat
    }

    /// The limbs are below two to the 128, so the value is below two to the 256,
    /// and two values with the same number are the same value.
    pub broadcast proof fn lemma_limbs(self)
        ensures
            #![trigger self.spec_high()]
            #![trigger self.spec_low()]
            self.spec_high() < limb_base(),
            self.spec_low() < limb_base(),
            self@ < modulus(),
    {
    }

    /// The view determines the value.
    pub proof fn lemma_view_injective(a: U256, b: U256)
        requires
            a@ == b@,
        ensures
            a == b,
    {
    }

    /// The value that stands for a number below two to the 256.
    pub closed spec fn from_nat(n: nat) -> U256 {
        U256 { high: (n / limb_base()) as u128, low: (n % limb_base()) as u128 }
    }

    /// The value that stands for a number below two to the 256 is that number.
    pub broadcast proof fn lemma_from_nat(n: nat)
        requires
            n < modulus(),
        ensures
            (#[trigger] U256::from_nat(n))@ == n,
    {
    }

    /// The value with the given limbs: `high` times two to the 128, plus `low`.
    pub fn new(high: u128, low: u128) -> (r: U256)
        ensures
            r@ == high * limb_base() + low,
    {
        U256 { high, low }
    }

    /// The largest value, two to the 256 minus one.
    pub fn max_value() -> (r: U256)
        ensures
            r@ == modulus() - 1,
    {
        U256 { high: u128::MAX, low: u128::MAX }
    }

    /// Zero.
    pub fn zero() -> (r: U256)
        ensures
            r@ == 0,
    {
        U256 { high: 0, low: 0 }
    }

    /// Whether the value is zero.
    pub fn is_zero(&self) -> (r: bool)
        ensures
            r == (self@ == 0),
    {
        self.high == 0 && self.low == 0
    }

    /// The sum, or `None` where it does not fit.
    pub fn checked_add(self, rhs: U256) -> (r: Option<U256>)
        ensures
            r is Some <==> self@ + rhs@ < modulus(),
            r is Some ==> r->0@ == self@ + rhs@,
    {
        let (low, carry) = match self.low.checked_add(rhs.low) {
            Some(low) => (low, 0u128),
            None => (self.low.wrapping_add(rhs.low), 1u128),
        };
        match self.high.checked_add(rhs.high) {
            Some(high) => match high.checked_add(carry) {
                Some(high) => Some(U256 { high, low }),
                None => None,
            },
            None => None,
        }
    }

    /// The difference, or `None` where `rhs` is the larger.
    pub fn checked_sub(self, rhs: U256) -> (r: Option<U256>)
        ensures
            r is Some <==> self@ >= rhs@,
            r is Some ==> r->0@ == self@ - rhs@,
    {
        if self.high < rhs.high || (self.high == rhs.high && self.low < rhs.low) {
            None
        } else if self.low >= rhs.low {
            Some(U256 { high: self.high - rhs.high, low: self.low - rhs.low })
        } else {
            Some(U256 { high: self.high - rhs.high - 1, low: self.low.wrapping_sub(rhs.low) })
        }
    }
}


impl PartialOrd for U256 {
    fn partial_cmp(&self, other: &U256) -> (r: Option<Ordering>) {
        if self.high < other.high {
            Some(Ordering::Less)
        } else if self.high > other.high {
            Some(Ordering::Greater)
        } else if self.low < other.low {
            Some(Ordering::Less)
        } else if self.low > other.low {
            Some(Ordering::Greater)
        } else {
            Some(Ordering::Equal)
        }
    }
}

impl PartialOrdSpecImpl for U256 {
    open spec fn obeys_partial_cmp_spec() -> bool {
        true
    }

    open spec fn partial_cmp_spec(&self, other: &U256) -> Option<Ordering> {
        if self@ < other@ {
            Some(Ordering::Less)
        } else if self@ > other@ {
            Some(Ordering::Greater)
        } else {
            Some(Ordering::Equal)
        }
    }
}

impl From<u128> for U256 {
    fn from(item: u128) -> (r: U256) {
        U256 { high: 0, low: item }
    }
}

impl FromSpecImpl<u128> for U256 {
    open spec fn obeys_from_spec() -> bool {
        true
    }

    open spec fn from_spec(item: u128) -> U256 {
        U256::from_nat(item as nat)
    }
}

impl Default for U256 {
    fn default() -> (r: U256)
        ensures
            r@ == 0,
    {
        U256 { high: 0, low: 0 }
    }
}

impl core::ops::Add for U256 {
    type Output = U256;

    fn add(self, rhs: U256) -> (r: U256) {
        match self.checked_add(rhs) {
            Some(r) => r,
            None => self,
        }
    }
}

impl AddSpecImpl for U256 {
    open spec fn obeys_add_spec() -> bool {
        true
    }

    open spec fn add_req(self, rhs: U256) -> bool {
        self@ + rhs@ < modulus()
    }

    open spec fn add_spec(self, rhs: U256) -> U256 {
        U256::from_nat(self@ + rhs@)
    }
}

impl core::ops::AddAssign for U256 {
    fn add_assign(&mut self, rhs: U256)
        requires
            old(self)@ + rhs@ < modulus(),
        ensures
            final(self)@ == old(self)@ + rhs@,
    {
        *self = *self + rhs;
    }
}

/// The number that an ASCII hexadecimal digit stands for, or 16 for any other byte.
pub open spec fn hex_digit_value(b: u8) -> nat {
    if 0x30 <= b <= 0x39 {
        (b - 0x30) as nat
    } else if 0x61 <= b <= 0x66 {
        (b - 0x61 + 10) as nat
    } else if 0x41 <= b <= 0x46 {
        (b - 0x41 + 10) as nat
    } else {
        16
    }
}

/// Whether every byte is an ASCII hexadecimal digit.
pub open spec fn is_hex_digits(s: Seq<u8>) -> bool {
    forall|i: int| 0 <= i < s.len() ==> hex_digit_value(#[trigger] s[i]) < 16
}

/// The number that a run of hexadecimal digits stands for, the first digit weighing most.
pub open spec fn hex_value(s: Seq<u8>) -> nat
    decreases s.len(),
{
    if s.len() == 0 {
        0
    } else {
        hex_value(s.drop_last()) * 16 + hex_digit_value(s.last())
    }
}

/// Whether the bytes are `0x` followed by at most 64 hexadecimal digits.
pub open spec fn is_hex_literal(s: Seq<u8>) -> bool {
    &&& 2 <= s.len() <= 66
    &&& s[0] == 0x30
    &&& s[1] == 0x78
    &&& is_hex_digits(s.skip(2))
}

/// The value of one hexadecimal digit, or `None` for any other byte.
pub fn hex_digit(b: u8) -> (r: Option<u8>)
    ensures
        r is Some <==> hex_digit_value(b) < 16,
        r is Some ==> r->0 == hex_digit_value(b),
{
    if 0x30 <= b && b <= 0x39 {
        Some(b - 0x30)
    } else if 0x61 <= b && b <= 0x66 {
        Some(b - 0x61 + 10)
    } else if 0x41 <= b && b <= 0x46 {
        Some(b - 0x41 + 10)
    } else {
        None
    }
}

/// A run of hexadecimal digits stands for a number below sixteen to its length.
pub proof fn lemma_hex_value_bound(s: Seq<u8>)
    requires
        is_hex_digits(s),
    ensures
        hex_value(s) < pow16(s.len()),
    decreases s.len(),
{
    if s.len() > 0 {
        lemma_hex_value_bound(s.drop_last());
    }
}

impl U256 {
    /// Sixteen times the value plus a digit, where the value is below two to the 252.
    fn push_hex_digit(self, d: u8) -> (r: U256)
        requires
            d < 16,
            self@ * 16 < modulus(),
        ensures
            r@ == self@ * 16 + d,
    {
        let top: u128 = self.low / 0x1000_0000_0000_0000_0000_0000_0000_0000u128;
        let rest: u128 = self.low % 0x1000_0000_0000_0000_0000_0000_0000_0000u128;
        U256 { high: self.high * 16 + top, low: rest * 16 + d as u128 }
    }

    /// Reads `0x` followed by at most 64 hexadecimal digits, in either case.
    /// `0x` alone is zero. Anything else is `None`.
    pub fn from_hex(s: &str) -> (r: Option<U256>)
        ensures
            r is Some <==> is_hex_literal(s.spec_bytes()),
            r is Some ==> r->0@ == hex_value(s.spec_bytes().skip(2)),
    {
        U256::from_hex_bytes(s.as_bytes())
    }

    /// As [`U256::from_hex`], on the bytes of the text.
    pub fn from_hex_bytes(bytes: &[u8]) -> (r: Option<U256>)
        ensures
            r is Some <==> is_hex_literal(bytes@),
            r is Some ==> r->0@ == hex_value(bytes@.skip(2)),
    {
        let n = bytes.len();
        if n < 2 || n > 66 || bytes[0] != 0x30 || bytes[1] != 0x78 {
            return None;
        }
        U256::from_hex_digits(bytes, 2)
    }

    /// Reads the bytes from `start` on as hexadecimal digits, at most 64 of them.
    pub fn from_hex_digits(bytes: &[u8], start: usize) -> (r: Option<U256>)
        requires
            start <= bytes@.len() <= start + 64,
        ensures
            r is Some <==> is_hex_digits(bytes@.skip(start as int)),
            r is Some ==> r->0@ == hex_value(bytes@.skip(start as int)),
    {
        let n = bytes.len();
        let ghost digits = bytes@.skip(start as int);
        let mut value = U256 { high: 0, low: 0 };
        let mut i: usize = start;
        while i < n
            invariant
                start <= i <= n,
                n == bytes@.len(),
                n <= start + 64,
                digits == bytes@.skip(start as int),
                is_hex_digits(digits.take(i - start)),
                value@ == hex_value(digits.take(i - start)),
            decreases n - i,
        {
            match hex_digit(bytes[i]) {
                None => {
                    assert(digits[i - start] == bytes[i as int]);
                    return None;
                },
                Some(d) => {
                    proof {
                        let before = digits.take(i - start);
                        let now = digits.take(i - start + 1);
                        assert(now.drop_last() =~= before);
                        assert(now.last() == bytes[i as int]);
                        assert(is_hex_digits(now)) by {
                            assert forall|j: int| 0 <= j < now.len() implies hex_digit_value(
                                #[trigger] now[j],
                            ) < 16 by {
                                if j < before.len() {
                                    assert(now[j] == before[j]);
                                }
                            }
                        }
                        lemma_hex_value_bound(before);
                        lemma_pow16_bound(before.len());
                    }
                    value = value.push_hex_digit(d);
                },
            }
            i += 1;
        }
        assert(digits.take(n - start) =~= digits);
        Some(value)
    }

    /// The `k` lowest digits of the value in the given base, lowest first.
    pub fn digits_fixed(self, base: u64, k: usize) -> (r: Vec<u8>)
        requires
            2 <= base <= 16,
        ensures
            r@ == digits_lsb(self@, base as nat, k as nat),
            forall|i: int| 0 <= i < r@.len() ==> r@[i] < 16,
    {
        let ghost b = base as nat;
        let mut out: Vec<u8> = Vec::new();
        let mut cur = self;
        let mut i: usize = 0;
        while i < k
            invariant
                i <= k,
                2 <= base <= 16,
                b == base as nat,
                out@ + digits_lsb(cur@, b, (k - i) as nat) == digits_lsb(self@, b, k as nat),
                forall|j: int| 0 <= j < out@.len() ==> out@[j] < 16,
            decreases k - i,
        {
            let (q, r) = cur.div_rem_small(base);
            let ghost before = out@;
            out.push(r as u8);
            proof {
                assert(digits_lsb(cur@, b, (k - i) as nat) == seq![(cur@ % b) as u8] + digits_lsb(
                    cur@ / b,
                    b,
                    (k - i - 1) as nat,
                ));
                assert(out@ + digits_lsb(q@, b, (k - i - 1) as nat) =~= before + digits_lsb(
                    cur@,
                    b,
                    (k - i) as nat,
                ));
            }
            cur = q;
            i += 1;
        }
        assert(digits_lsb(cur@, b, 0) =~= Seq::<u8>::empty());
        assert(out@ =~= digits_lsb(self@, b, k as nat));
        out
    }

    /// The high limb.
    pub fn high(&self) -> (r: u128)
        ensures
            r == self@ / limb_base(),
    {
        self.high
    }

    /// The low limb.
    pub fn low(&self) -> (r: u128)
        ensures
            r == self@ % limb_base(),
    {
        self.low
    }
}

/// The number that a run of bytes stands for, the first byte weighing most.
pub open spec fn be_value(s: Seq<u8>) -> nat
    decreases s.len(),
{
    if s.len() == 0 {
        0
    } else {
        be_value(s.drop_last()) * 256 + s.last() as nat
    }
}

/// Sixteen to the power `n`.
pub open spec fn pow16(n: nat) -> nat
    decreases n,
{
    if n == 0 {
        1
    } else {
        16 * pow16((n - 1) as nat)
    }
}

/// Sixteen to a sum is the product of sixteen to each part.
pub proof fn lemma_pow16_adds(a: nat, b: nat)
    ensures
        pow16(a + b) == pow16(a) * pow16(b),
    decreases b,
{
    if b > 0 {
        let c = (b - 1) as nat;
        lemma_pow16_adds(a, c);
        assert((a + b - 1) as nat == a + c);
        assert(pow16(a + b) == 16 * pow16(a + c));
        assert(pow16(b) == 16 * pow16(c));
        assert(16 * (pow16(a) * pow16(c)) == pow16(a) * (16 * pow16(c))) by (nonlinear_arith);
    } else {
        assert(pow16(b) == 1);
        assert(a + b == a);
    }
}

/// Sixteen to a larger power is no smaller, and no power of sixteen is zero.
pub proof fn lemma_pow16_monotonic(a: nat, b: nat)
    requires
        a <= b,
    ensures
        pow16(a) <= pow16(b),
        pow16(a) > 0,
    decreases b,
{
    if a < b {
        lemma_pow16_monotonic(a, (b - 1) as nat);
    } else if a > 0 {
        lemma_pow16_monotonic((a - 1) as nat, (a - 1) as nat);
    }
}

/// Sixteen to the 8 is two to the 32, and sixteen to the 32 is two to the 128.
pub proof fn lemma_pow16_32()
    ensures
        pow16(8) == 0x1_0000_0000,
        pow16(32) == limb_base(),
{
    assert(pow16(4) == 0x1_0000) by {
        reveal_with_fuel(pow16, 5);
    }
    lemma_pow16_adds(4, 4);
    lemma_pow16_adds(8, 8);
    lemma_pow16_adds(16, 16);
    let four = pow16(4);
    let eight = pow16(8);
    let sixteen = pow16(16);
    let thirty_two = pow16(32);
    assert(eight == 0x1_0000_0000) by (nonlinear_arith)
        requires
            four == 0x1_0000,
            eight == four * four,
    ;
    assert(sixteen == 0x1_0000_0000_0000_0000) by (nonlinear_arith)
        requires
            eight == 0x1_0000_0000,
            sixteen == eight * eight,
    ;
    assert(thirty_two == 0x1_0000_0000_0000_0000_0000_0000_0000_0000nat) by (nonlinear_arith)
        requires
            sixteen == 0x1_0000_0000_0000_0000,
            thirty_two == sixteen * sixteen,
    ;
}

/// Sixteen to the 64 is two to the 256.
pub proof fn lemma_pow16_64()
    ensures
        pow16(64) == modulus(),
{
    lemma_pow16_32();
    lemma_pow16_adds(32, 32);
}

/// Sixteen to a power of at most 63 is at most two to the 252.
proof fn lemma_pow16_bound(n: nat)
    requires
        n <= 63,
    ensures
        pow16(n) * 16 <= modulus(),
{
    lemma_pow16_monotonic(n, 63);
    lemma_pow16_64();
}


impl core::ops::Sub for U256 {
    type Output = U256;

    fn sub(self, rhs: U256) -> (r: U256) {
        match self.checked_sub(rhs) {
            Some(r) => r,
            None => self,
        }
    }
}

impl SubSpecImpl for U256 {
    open spec fn obeys_sub_spec() -> bool {
        true
    }

    open spec fn sub_req(self, rhs: U256) -> bool {
        self@ >= rhs@
    }

    open spec fn sub_spec(self, rhs: U256) -> U256 {
        U256::from_nat((self@ - rhs@) as nat)
    }
}

impl U256 {
    /// The smaller of two values.
    pub fn min(self, other: U256) -> (r: U256)
        ensures
            r@ == if self@ <= other@ { self@ } else { other@ },
    {
        if self <= other { self } else { other }
    }

    /// The larger of two values.
    pub fn max_of(self, other: U256) -> (r: U256)
        ensures
            r@ == if self@ >= other@ { self@ } else { other@ },
    {
        if self >= other { self } else { other }
    }

    /// The sum, or the largest value where the sum does not fit.
    pub fn saturating_add(self, rhs: U256) -> (r: U256)
        ensures
            r@ == if self@ + rhs@ < modulus() {
                self@ + rhs@
            } else {
                (modulus() - 1) as nat
            },
    {
        match self.checked_add(rhs) {
            Some(sum) => sum,
            None => U256::max_value(),
        }
    }

    /// The difference, or zero where `rhs` is the larger.
    pub fn saturating_sub(self, rhs: U256) -> (r: U256)
        ensures
            r@ == if self@ >= rhs@ {
                (self@ - rhs@) as nat
            } else {
                0
            },
    {
        match self.checked_sub(rhs) {
            Some(rest) => rest,
            None => U256::zero(),
        }
    }

    /// The sum modulo two to the 256.
    pub fn wrapping_add(self, rhs: U256) -> (r: U256)
        ensures
            r@ == (self@ + rhs@) % modulus(),
    {
        match self.checked_add(rhs) {
            Some(sum) => {
                proof {
                    vstd::arithmetic::div_mod::lemma_fundamental_div_mod_converse(
                        (self@ + rhs@) as int,
                        modulus() as int,
                        0,
                        (self@ + rhs@) as int,
                    );
                }
                sum
            },
            None => {
                // the sum is at least two to the 256: subtract that much from it
                let gap = match U256::max_value().checked_sub(rhs) {
                    Some(g) => g,
                    None => rhs,
                };
                let above = match self.checked_sub(gap) {
                    Some(a) => a,
                    None => self,
                };
                let r = match above.checked_sub(U256 { high: 0, low: 1 }) {
                    Some(r) => r,
                    None => above,
                };
                proof {
                    vstd::arithmetic::div_mod::lemma_fundamental_div_mod_converse(
                        (self@ + rhs@) as int,
                        modulus() as int,
                        1,
                        (self@ + rhs@ - modulus()) as int,
                    );
                }
                r
            },
        }
    }

    /// The value that added to this one gives zero modulo two to the 256.
    pub fn wrapping_neg(self) -> (r: U256)
        ensures
            r@ == (modulus() - self@) % (modulus() as int),
    {
        if self.is_zero() {
            proof {
                vstd::arithmetic::div_mod::lemma_fundamental_div_mod_converse(
                    modulus() as int,
                    modulus() as int,
                    1,
                    0,
                );
            }
            self
        } else {
            let gap = match U256::max_value().checked_sub(self) {
                Some(g) => g,
                None => self,
            };
            let r = match gap.checked_add(U256 { high: 0, low: 1 }) {
                Some(r) => r,
                None => gap,
            };
            proof {
                vstd::arithmetic::div_mod::lemma_fundamental_div_mod_converse(
                    modulus() - self@,
                    modulus() as int,
                    0,
                    modulus() - self@,
                );
            }
            r
        }
    }

    /// Quotient and remainder of the division by a small divisor.
    pub fn div_rem_small(self, d: u64) -> (r: (U256, u64))
        requires
            d > 0,
        ensures
            r.0@ == self@ / (d as nat),
            r.1 == self@ % (d as nat),
    {
        let d128: u128 = d as u128;
        let qh: u128 = self.high / d128;
        let rh: u128 = self.high % d128;
        let l1: u128 = self.low / 0x1_0000_0000_0000_0000u128;
        let l0: u128 = self.low % 0x1_0000_0000_0000_0000u128;
        assert(rh * 0x1_0000_0000_0000_0000 + l1 < d128 * 0x1_0000_0000_0000_0000) by (nonlinear_arith)
            requires
                rh < d128,
                l1 < 0x1_0000_0000_0000_0000,
        ;
        let t1: u128 = rh * 0x1_0000_0000_0000_0000u128 + l1;
        let q1: u128 = t1 / d128;
        let r1: u128 = t1 % d128;
        assert(q1 < 0x1_0000_0000_0000_0000) by (nonlinear_arith)
            requires
                t1 < d128 * 0x1_0000_0000_0000_0000,
                q1 == t1 / d128,
                d128 > 0,
        ;
        assert(r1 * 0x1_0000_0000_0000_0000 + l0 < d128 * 0x1_0000_0000_0000_0000) by (nonlinear_arith)
            requires
                r1 < d128,
                l0 < 0x1_0000_0000_0000_0000,
        ;
        let t0: u128 = r1 * 0x1_0000_0000_0000_0000u128 + l0;
        let q0: u128 = t0 / d128;
        let r0: u128 = t0 % d128;
        assert(q0 < 0x1_0000_0000_0000_0000) by (nonlinear_arith)
            requires
                t0 < d128 * 0x1_0000_0000_0000_0000,
                q0 == t0 / d128,
                d128 > 0,
        ;
        let q = U256 { high: qh, low: q1 * 0x1_0000_0000_0000_0000u128 + q0 };
        proof {
            let dd = d as int;
            assert(self.high == qh * dd + rh) by {
                vstd::arithmetic::div_mod::lemma_fundamental_div_mod(self.high as int, dd);
                assert(dd * (self.high as int / dd) == (self.high as int / dd) * dd)
                    by (nonlinear_arith);
            }
            assert(t1 == q1 * dd + r1) by {
                vstd::arithmetic::div_mod::lemma_fundamental_div_mod(t1 as int, dd);
                assert(dd * (t1 as int / dd) == (t1 as int / dd) * dd) by (nonlinear_arith);
            }
            assert(t0 == q0 * dd + r0) by {
                vstd::arithmetic::div_mod::lemma_fundamental_div_mod(t0 as int, dd);
                assert(dd * (t0 as int / dd) == (t0 as int / dd) * dd) by (nonlinear_arith);
            }
            let b: int = 0x1_0000_0000_0000_0000;
            let b2: int = b * b;
            assert(q@ == qh * b2 + q1 * b + q0);
            assert((qh * b2 + q1 * b + q0) * dd == (qh * dd) * b2 + (q1 * dd) * b + q0 * dd)
                by (nonlinear_arith);
            assert(self@ == self.high * b2 + l1 * b + l0);
            vstd::arithmetic::div_mod::lemma_fundamental_div_mod_converse(
                self@ as int,
                dd,
                q@ as int,
                r0 as int,
            );
        }
        (q, r0 as u64)
    }

    /// The product with a small factor, or `None` where it does not fit.
    pub fn checked_mul_small(self, m: u64) -> (r: Option<U256>)
        ensures
            r is Some <==> self@ * m < modulus(),
            r is Some ==> r->0@ == self@ * m,
    {
        let mut result = U256 { high: 0, low: 0 };
        let mut addend = self;
        let mut k: u64 = m;
        while k > 0
            invariant
                result@ + addend@ * k == self@ * m,
            decreases k,
        {
            let ghost k0 = k as int;
            let ghost addend0 = addend@ as int;
            let ghost result0 = result@ as int;
            let bit: u64 = k % 2;
            if bit == 1 {
                match result.checked_add(addend) {
                    Some(sum) => {
                        result = sum;
                    },
                    None => {
                        assert(addend0 * k0 >= addend0) by (nonlinear_arith)
                            requires
                                k0 >= 1,
                                addend0 >= 0,
                        ;
                        return None;
                    },
                }
            }
            k = k / 2;
            assert(addend0 * k0 == addend0 * 2 * k + addend0 * bit) by (nonlinear_arith)
                requires
                    k0 == 2 * k + bit,
            ;
            assert(addend0 * bit == if bit == 1 { addend0 } else { 0 }) by (nonlinear_arith)
                requires
                    bit == 0 || bit == 1,
            ;
            if k > 0 {
                match addend.checked_add(addend) {
                    Some(twice) => {
                        addend = twice;
                    },
                    None => {
                        assert(addend0 * 2 * k >= addend0 * 2) by (nonlinear_arith)
                            requires
                                k >= 1,
                                addend0 >= 0,
                        ;
                        return None;
                    },
                }
                assert(addend@ * k == addend0 * 2 * k) by (nonlinear_arith)
                    requires
                        addend@ == 2 * addend0,
                ;
            } else {
                assert(addend@ * k == 0) by (nonlinear_arith)
                    requires
                        k == 0,
                ;
                assert(addend0 * 2 * k == 0) by (nonlinear_arith)
                    requires
                        k == 0,
                ;
            }
        }
        assert(addend@ * k == 0) by (nonlinear_arith)
            requires
                k == 0,
        ;
        Some(result)
    }

    /// The value times `numerator` over `denominator`, rounded down.
    pub fn scale(self, numerator: u64, denominator: u64) -> (r: U256)
        requires
            0 < denominator,
            numerator <= denominator,
        ensures
            r@ == (self@ * numerator) / (denominator as int),
    {
        let (q, rem) = self.div_rem_small(denominator);
        let ghost den = denominator as int;
        let ghost num = numerator as int;
        proof {
            vstd::arithmetic::div_mod::lemma_fundamental_div_mod(self@ as int, den);
            assert(q@ * num <= self@) by (nonlinear_arith)
                requires
                    self@ == den * q@ + rem,
                    0 <= num <= den,
                    rem >= 0,
            ;
        }
        let whole = match q.checked_mul_small(numerator) {
            Some(w) => w,
            None => q,
        };
        assert(rem * numerator <= 0xffff_ffff_ffff_ffff * 0xffff_ffff_ffff_ffff) by (nonlinear_arith)
            requires
                0 <= rem <= 0xffff_ffff_ffff_ffff,
                0 <= numerator <= 0xffff_ffff_ffff_ffff,
        ;
        let part128: u128 = (rem as u128) * (numerator as u128) / (denominator as u128);
        proof {
            let t = rem as int * num;
            vstd::arithmetic::div_mod::lemma_fundamental_div_mod(t, den);
            let pq = t / den;
            let pr = t % den;
            assert(0 <= pr < den);
            assert(pq >= 0) by (nonlinear_arith)
                requires
                    t >= 0,
                    den > 0,
                    pq == t / den,
            ;
            assert(self@ * num == (q@ * num + pq) * den + pr) by (nonlinear_arith)
                requires
                    self@ == den * q@ + rem,
                    rem * num == den * pq + pr,
            ;
            vstd::arithmetic::div_mod::lemma_fundamental_div_mod_converse(
                self@ as int * num,
                den,
                q@ * num + pq,
                pr,
            );
            assert((self@ * numerator) / (denominator as int) == q@ * num + pq);
            assert(q@ * num + pq <= self@) by (nonlinear_arith)
                requires
                    self@ * num == (q@ * num + pq) * den + pr,
                    0 <= num <= den,
                    pr >= 0,
                    den > 0,
                    q@ * num + pq >= 0,
            ;
        }
        match whole.checked_add(U256 { high: 0, low: part128 }) {
            Some(r) => r,
            None => whole,
        }
    }
}


impl U256 {
    /// The digits of the value in the given base, lowest first, without leading zeros.
    pub fn digits(self, base: u64) -> (r: Vec<u8>)
        requires
            2 <= base <= 16,
        ensures
            r@ == digits_lsb(self@, base as nat, digit_count(self@, base as nat)),
            forall|i: int| 0 <= i < r@.len() ==> r@[i] < 16,
    {
        let ghost b = base as nat;
        let ghost target = digits_lsb(self@, b, digit_count(self@, b));
        let mut out: Vec<u8> = Vec::new();
        let mut cur = self;
        loop
            invariant
                2 <= base <= 16,
                b == base as nat,
                target == digits_lsb(self@, b, digit_count(self@, b)),
                out@ + digits_lsb(cur@, b, digit_count(cur@, b)) == target,
                forall|i: int| 0 <= i < out@.len() ==> out@[i] < 16,
            decreases cur@,
        {
            let (q, r) = cur.div_rem_small(base);
            let ghost before = out@;
            out.push(r as u8);
            proof {
                let c = cur@;
                assert(q@ == 0 <==> c < b) by (nonlinear_arith)
                    requires
                        q@ == c / b,
                        b >= 2,
                ;
                assert(c >= b ==> q@ < c) by (nonlinear_arith)
                    requires
                        q@ == c / b,
                        b >= 2,
                ;
                let k = digit_count(c, b);
                assert(digits_lsb(c, b, k) == seq![(c % b) as u8] + digits_lsb(
                    c / b,
                    b,
                    (k - 1) as nat,
                ));
                if c < b {
                    assert(k == 1);
                    assert(digits_lsb(c / b, b, 0) =~= Seq::<u8>::empty());
                    assert(digits_lsb(c, b, 1) =~= seq![(c % b) as u8]);
                    assert(before + digits_lsb(c, b, 1) == target);
                    assert(out@ =~= before + seq![(c % b) as u8]);
                    assert(out@ =~= target);
                    assert(q@ == 0);
                } else {
                    assert(k == 1 + digit_count(q@, b));
                    assert(out@ + digits_lsb(q@, b, digit_count(q@, b)) =~= target);
                }
            }
            if q.is_zero() {
                return out;
            }
            cur = q;
        }
    }

    /// The value in hexadecimal: `0x`, then the digits in lower case without leading
    /// zeros.
    pub fn to_string(&self) -> (r: String)
        ensures
            r@ == seq!['0', 'x'] + number_text(self@, 16),
    {
        let digits = self.digits(16);
        let mut out = String::from_str("0x");
        proof {
            reveal_strlit("0x");
            assert(out@ =~= seq!['0', 'x']);
        }
        append_digits(&mut out, &digits);
        out
    }

    /// The value in decimal, without leading zeros.
    pub fn to_decimal(&self) -> (r: String)
        ensures
            r@ == number_text(self@, 10),
    {
        let digits = self.digits(10);
        let mut out = String::from_str("");
        proof {
            reveal_strlit("");
            assert(out@ =~= Seq::<char>::empty());
        }
        append_digits(&mut out, &digits);
        assert(out@ =~= number_text(self@, 10));
        out
    }
}

/// A run of bytes stands for a number below 256 to its length.
pub proof fn lemma_be_value_bound(s: Seq<u8>)
    ensures
        be_value(s) < pow16(2 * s.len()),
    decreases s.len(),
{
    if s.len() > 0 {
        lemma_be_value_bound(s.drop_last());
        let n = (2 * (s.len() - 1)) as nat;
        assert(pow16(2 * s.len()) == 16 * pow16((2 * s.len() - 1) as nat));
        assert(pow16((2 * s.len() - 1) as nat) == 16 * pow16(n));
    }
}

/// Zero bytes at the front do not change what a run of bytes stands for.
pub proof fn lemma_be_value_leading_zero(s: Seq<u8>)
    requires
        s.len() > 0,
        s[0] == 0,
    ensures
        be_value(s) == be_value(s.skip(1)),
    decreases s.len(),
{
    if s.len() == 1 {
        assert(s.drop_last() =~= Seq::<u8>::empty());
        assert(s.skip(1) =~= Seq::<u8>::empty());
    } else {
        lemma_be_value_leading_zero(s.drop_last());
        assert(s.drop_last().skip(1) =~= s.skip(1).drop_last());
        assert(s.skip(1).last() == s.last());
    }
}

/// A run of bytes that starts with a byte other than zero stands for at least 256
/// to its length less one.
pub proof fn lemma_be_value_lower_bound(s: Seq<u8>)
    requires
        s.len() > 0,
        s[0] != 0,
    ensures
        be_value(s) >= pow16((2 * (s.len() - 1)) as nat),
    decreases s.len(),
{
    if s.len() == 1 {
        assert(s.drop_last() =~= Seq::<u8>::empty());
        assert(be_value(s.drop_last()) == 0);
    } else {
        lemma_be_value_lower_bound(s.drop_last());
        let n = (2 * (s.len() - 2)) as nat;
        assert(pow16((2 * (s.len() - 1)) as nat) == 16 * pow16((2 * (s.len() - 1) - 1) as nat));
        assert(pow16((2 * (s.len() - 1) - 1) as nat) == 16 * pow16(n));
    }
}

impl U256 {
    /// The number that a run of bytes stands for, the first byte weighing most, or
    /// `None` where it does not fit in 256 bits.
    pub fn from_be_bytes(bytes: &[u8]) -> (r: Option<U256>)
        ensures
            r is Some <==> be_value(bytes@) < modulus(),
            r is Some ==> r->0@ == be_value(bytes@),
    {
        let n = bytes.len();
        let mut start: usize = 0;
        proof {
            assert(bytes@.skip(0) =~= bytes@);
        }
        while start < n && bytes[start] == 0
            invariant
                start <= n,
                n == bytes@.len(),
                be_value(bytes@.skip(start as int)) == be_value(bytes@),
            decreases n - start,
        {
            proof {
                lemma_be_value_leading_zero(bytes@.skip(start as int));
                assert(bytes@.skip(start as int).skip(1) =~= bytes@.skip(start + 1));
            }
            start += 1;
        }
        proof {
            assert(bytes@.skip(0) =~= bytes@);
        }
        let ghost digits = bytes@.skip(start as int);
        if n - start > 32 {
            proof {
                lemma_be_value_lower_bound(digits);
                lemma_pow16_monotonic(64, (2 * (digits.len() - 1)) as nat);
                lemma_pow16_64();
            }
            return None;
        }
        let mut value = U256 { high: 0, low: 0 };
        let mut i: usize = start;
        while i < n
            invariant
                start <= i <= n,
                n == bytes@.len(),
                n - start <= 32,
                digits == bytes@.skip(start as int),
                value@ == be_value(digits.take(i - start)),
            decreases n - i,
        {
            let b = bytes[i];
            proof {
                let before = digits.take(i - start);
                let now = digits.take(i - start + 1);
                assert(now.drop_last() =~= before);
                assert(now.last() == b);
                lemma_be_value_bound(before);
                lemma_be_value_bound(now);
                lemma_pow16_monotonic(2 * before.len() + 2, 64);
                lemma_pow16_64();
                assert(pow16(2 * before.len() + 2) == 16 * pow16(2 * before.len() + 1));
                assert(pow16(2 * before.len() + 1) == 16 * pow16(2 * before.len()));
            }
            value = value.push_hex_digit(b / 16);
            value = value.push_hex_digit(b % 16);
            i += 1;
        }
        proof {
            assert(digits.take(n - start) =~= digits);
            lemma_be_value_bound(digits);
            lemma_pow16_monotonic(2 * digits.len(), 64);
            lemma_pow16_64();
        }
        Some(value)
    }
}

/// The number that a run of decimal digits stands for.
pub open spec fn decimal_value(s: Seq<u8>) -> nat
    decreases s.len(),
{
    if s.len() == 0 {
        0
    } else {
        decimal_value(s.drop_last()) * 10 + (s.last() - 0x30) as nat
    }
}

/// Whether every byte is an ASCII decimal digit.
pub open spec fn is_decimal_digits(s: Seq<u8>) -> bool {
    forall|i: int| 0 <= i < s.len() ==> 0x30 <= #[trigger] s[i] <= 0x39
}

/// Whether the bytes are decimal digits, at least one, that stand for a number below
/// two to the 256.
pub open spec fn is_decimal_literal(s: Seq<u8>) -> bool {
    s.len() >= 1 && is_decimal_digits(s) && decimal_value(s) < modulus()
}

/// The front of a run of decimal digits stands for no more than the whole run.
pub proof fn lemma_decimal_front(s: Seq<u8>, i: int)
    requires
        is_decimal_digits(s),
        0 <= i <= s.len(),
    ensures
        decimal_value(s.take(i)) <= decimal_value(s),
    decreases s.len() - i,
{
    if i < s.len() {
        lemma_decimal_front(s, i + 1);
        assert(s.take(i + 1).drop_last() =~= s.take(i));
        assert(s.take(i + 1).last() == s[i]);
    } else {
        assert(s.take(i) =~= s);
    }
}

impl U256 {
    /// Reads decimal digits, at least one, that stand for a number below two to the
    /// 256. Anything else is `None`.
    pub fn from_decimal_bytes(bytes: &[u8]) -> (r: Option<U256>)
        ensures
            r is Some <==> is_decimal_literal(bytes@),
            r is Some ==> r->0@ == decimal_value(bytes@),
    {
        let n = bytes.len();
        if n == 0 {
            return None;
        }
        let mut value = U256 { high: 0, low: 0 };
        let mut i: usize = 0;
        while i < n
            invariant
                i <= n,
                n == bytes@.len(),
                is_decimal_digits(bytes@.take(i as int)),
                value@ == decimal_value(bytes@.take(i as int)),
            decreases n - i,
        {
            let b = bytes[i];
            if b < 0x30 || b > 0x39 {
                assert(!is_decimal_digits(bytes@)) by {
                    assert(bytes@[i as int] == b);
                }
                return None;
            }
            proof {
                let now = bytes@.take(i + 1);
                assert(now.drop_last() =~= bytes@.take(i as int));
                assert(now.last() == b);
                assert(is_decimal_digits(now)) by {
                    assert forall|k: int| 0 <= k < now.len() implies 0x30 <= #[trigger] now[k]
                        <= 0x39 by {
                        if k < i {
                            assert(now[k] == bytes@.take(i as int)[k]);
                        }
                    }
                }
            }
            let next = match value.checked_mul_small(10) {
                Some(tens) => tens.checked_add(U256 { high: 0, low: (b - 0x30) as u128 }),
                None => None,
            };
            match next {
                Some(next) => {
                    value = next;
                },
                None => {
                    proof {
                        if is_decimal_digits(bytes@) {
                            lemma_decimal_front(bytes@, i + 1);
                        }
                    }
                    return None;
                },
            }
            i += 1;
        }
        proof {
            assert(bytes@.take(n as int) =~= bytes@);
            U256::lemma_limbs(value);
        }
        Some(value)
    }
}

} // verus!
