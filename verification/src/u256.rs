//! Unsigned 256-bit integers, held as four 64-bit limbs.
use vstd::prelude::*;
use vstd::arithmetic::div_mod::lemma_fundamental_div_mod_converse;

verus! {

/// The radix of one limb, 2^64.
#[verifier::inline]
pub open spec fn limb_radix() -> int {
    0x1_0000_0000_0000_0000
}

/// 2^256, one more than the greatest value a `U256` holds.
pub open spec fn u256_modulus() -> int {
    limb_radix() * (limb_radix() * (limb_radix() * limb_radix()))
}

/// The number that four limbs stand for, most significant limb first.
pub open spec fn limbs_value(w3: u64, w2: u64, w1: u64, w0: u64) -> nat {
    (w0 + limb_radix() * (w1 + limb_radix() * (w2 + limb_radix() * w3))) as nat
}

/// The 64-bit number that eight bytes stand for, most significant byte first.
pub open spec fn u64_from_be(s: Seq<u8>) -> u64
    recommends
        s.len() == 8,
{
    ((s[0] as u64) << 56) | ((s[1] as u64) << 48) | ((s[2] as u64) << 40) | ((s[3] as u64) << 32)
        | ((s[4] as u64) << 24) | ((s[5] as u64) << 16) | ((s[6] as u64) << 8) | (s[7] as u64)
}

/// The eight bytes of a 64-bit number, most significant byte first.
pub open spec fn u64_to_be(x: u64) -> Seq<u8> {
    seq![
        (x >> 56) as u8,
        (x >> 48) as u8,
        (x >> 40) as u8,
        (x >> 32) as u8,
        (x >> 24) as u8,
        (x >> 16) as u8,
        (x >> 8) as u8,
        x as u8,
    ]
}

/// Reading back the bytes of a 64-bit number gives the number.
pub proof fn lemma_u64_be_round_trip(x: u64)
    ensures
        u64_to_be(x).len() == 8,
        u64_from_be(u64_to_be(x)) == x,
{
    assert((((x >> 56) as u8 as u64) << 56) | (((x >> 48) as u8 as u64) << 48) | (((x >> 40) as u8
        as u64) << 40) | (((x >> 32) as u8 as u64) << 32) | (((x >> 24) as u8 as u64) << 24) | (((x
        >> 16) as u8 as u64) << 16) | (((x >> 8) as u8 as u64) << 8) | (x as u8 as u64) == x)
        by (bit_vector);
}

/// Writing out the number that eight bytes stand for gives the bytes.
pub proof fn lemma_u64_be_bytes_round_trip(s: Seq<u8>)
    requires
        s.len() == 8,
    ensures
        u64_to_be(u64_from_be(s)) == s,
{
    let b0 = s[0];
    let b1 = s[1];
    let b2 = s[2];
    let b3 = s[3];
    let b4 = s[4];
    let b5 = s[5];
    let b6 = s[6];
    let b7 = s[7];
    let x = u64_from_be(s);
    assert(x == ((b0 as u64) << 56) | ((b1 as u64) << 48) | ((b2 as u64) << 40) | ((b3 as u64)
        << 32) | ((b4 as u64) << 24) | ((b5 as u64) << 16) | ((b6 as u64) << 8) | (b7 as u64));
    assert((x >> 56) as u8 == b0 && (x >> 48) as u8 == b1 && (x >> 40) as u8 == b2 && (x >> 32) as u8
        == b3 && (x >> 24) as u8 == b4 && (x >> 16) as u8 == b5 && (x >> 8) as u8 == b6 && x as u8
        == b7) by (bit_vector)
        requires
            x == ((b0 as u64) << 56) | ((b1 as u64) << 48) | ((b2 as u64) << 40) | ((b3 as u64)
                << 32) | ((b4 as u64) << 24) | ((b5 as u64) << 16) | ((b6 as u64) << 8) | (b7 as u64),
    ;
    assert(u64_to_be(x) =~= s);
}

/// Whether the bytes are decimal digits, and at least one.
pub open spec fn is_decimal(digits: Seq<u8>) -> bool {
    digits.len() > 0 && all_digits(digits)
}

/// The number that decimal digits stand for, most significant digit first.
pub open spec fn decimal_value(digits: Seq<u8>) -> nat
    decreases digits.len(),
{
    if digits.len() == 0 {
        0
    } else {
        decimal_value(digits.drop_last()) * 10 + (digits.last() - 48) as nat
    }
}

/// The number that stands before digits which are yet to be put behind it,
/// the last of them first.
pub open spec fn pending_value(front: nat, low_first: Seq<u8>) -> nat
    decreases low_first.len(),
{
    if low_first.len() == 0 {
        front
    } else {
        pending_value((front * 10 + (low_first.last() - 48)) as nat, low_first.drop_last())
    }
}

/// Whether every byte is a decimal digit.
pub open spec fn all_digits(digits: Seq<u8>) -> bool {
    forall|i: int| 0 <= i < digits.len() ==> 48 <= #[trigger] digits[i] <= 57
}

/// The first digits of a number stand for a number that is not greater.
pub proof fn lemma_decimal_prefix(digits: Seq<u8>, k: int)
    requires
        0 <= k <= digits.len(),
        all_digits(digits),
    ensures
        decimal_value(digits.take(k)) <= decimal_value(digits),
    decreases digits.len(),
{
    if k == digits.len() {
        assert(digits.take(k) =~= digits);
    } else {
        let front = digits.drop_last();
        assert(all_digits(front)) by {
            assert forall|i: int| 0 <= i < front.len() implies 48 <= #[trigger] front[i] <= 57 by {
                assert(front[i] == digits[i]);
            }
        }
        lemma_decimal_prefix(front, k);
        assert(front.take(k) =~= digits.take(k));
    }
}

/// An unsigned 256-bit integer. `w3` is the most significant limb.
#[derive(Clone, Copy, Debug, PartialEq, Eq, Structural, PartialOrd, Ord, Hash)]
pub struct U256 {
    pub w3: u64,
    pub w2: u64,
    pub w1: u64,
    pub w0: u64,
}

impl View for U256 {
    type V = nat;

    /// The number that the value stands for.
    open spec fn view(&self) -> nat {
        limbs_value(self.w3, self.w2, self.w1, self.w0)
    }
}

/// Every value is below 2^256.
pub proof fn lemma_u256_bound(a: U256)
    ensures
        a@ < u256_modulus(),
{
}

/// Two values that stand for the same number are the same value, and a value
/// with the smaller leading limbs stands for the smaller number.
pub proof fn lemma_u256_order(a: U256, b: U256)
    ensures
        a@ == b@ <==> a == b,
        a@ < b@ <==> (a.w3 < b.w3 || (a.w3 == b.w3 && (a.w2 < b.w2 || (a.w2 == b.w2 && (a.w1 < b.w1
            || (a.w1 == b.w1 && a.w0 < b.w0)))))),
{
}

/// One limb of a product by a 64-bit number: a digit and a carry for the low
/// limb, and the rest for the limbs above it.
proof fn lemma_mul_carry(lo: int, hi: int, m: int, c_in: int, digit: int, c_mid: int, rest: int)
    requires
        lo * m + c_in == digit + limb_radix() * c_mid,
        hi * m + c_mid == rest,
    ensures
        (lo + limb_radix() * hi) * m + c_in == digit + limb_radix() * rest,
{
    let r = limb_radix();
    assert((lo + r * hi) * m + c_in == digit + r * rest) by (nonlinear_arith)
        requires
            lo * m + c_in == digit + r * c_mid,
            hi * m + c_mid == rest,
    ;
}

/// One limb of a long division by a 64-bit number.
proof fn lemma_div_carry(lo: int, hi: int, d: int, q_hi: int, rem_hi: int, q_lo: int, rem_lo: int)
    requires
        hi == d * q_hi + rem_hi,
        limb_radix() * rem_hi + lo == d * q_lo + rem_lo,
    ensures
        lo + limb_radix() * hi == d * (q_lo + limb_radix() * q_hi) + rem_lo,
{
    let r = limb_radix();
    assert(lo + r * hi == d * (q_lo + r * q_hi) + rem_lo) by (nonlinear_arith)
        requires
            hi == d * q_hi + rem_hi,
            r * rem_hi + lo == d * q_lo + rem_lo,
    ;
}

/// The sixteen bytes of a 128-bit number, most significant byte first.
pub open spec fn u128_to_be(x: u128) -> Seq<u8> {
    u64_to_be((x / 0x1_0000_0000_0000_0000) as u64) + u64_to_be((x % 0x1_0000_0000_0000_0000) as u64)
}

/// The 128-bit number that sixteen bytes stand for, most significant byte
/// first.
pub open spec fn u128_from_be(s: Seq<u8>) -> u128
    recommends
        s.len() == 16,
{
    (u64_from_be(s.subrange(0, 8)) * 0x1_0000_0000_0000_0000 + u64_from_be(s.subrange(8, 16))) as u128
}

/// Reading back the bytes of a 128-bit number gives the number.
pub proof fn lemma_u128_be_round_trip(x: u128)
    ensures
        u128_to_be(x).len() == 16,
        u128_from_be(u128_to_be(x)) == x,
{
    let hi = (x / 0x1_0000_0000_0000_0000) as u64;
    let lo = (x % 0x1_0000_0000_0000_0000) as u64;
    lemma_u64_be_round_trip(hi);
    lemma_u64_be_round_trip(lo);
    assert(u128_to_be(x).subrange(0, 8) =~= u64_to_be(hi));
    assert(u128_to_be(x).subrange(8, 16) =~= u64_to_be(lo));
}

/// Writing out the number that sixteen bytes stand for gives the bytes.
pub proof fn lemma_u128_be_bytes_round_trip(s: Seq<u8>)
    requires
        s.len() == 16,
    ensures
        u128_to_be(u128_from_be(s)) == s,
{
    lemma_u64_be_bytes_round_trip(s.subrange(0, 8));
    lemma_u64_be_bytes_round_trip(s.subrange(8, 16));
    assert(u128_to_be(u128_from_be(s)) =~= s);
}

impl U256 {
    /// The value that stands for a number below 2^256.
    pub open spec fn spec_from_nat(n: nat) -> U256
        recommends
            n < u256_modulus(),
    {
        let v = n as int;
        U256 {
            w3: (v / limb_radix() / limb_radix() / limb_radix()) as u64,
            w2: (v / limb_radix() / limb_radix() % limb_radix()) as u64,
            w1: (v / limb_radix() % limb_radix()) as u64,
            w0: (v % limb_radix()) as u64,
        }
    }

    /// The value that stands for a number below 2^256 stands for that
    /// number, and for none other.
    pub proof fn lemma_from_nat(n: nat)
        requires
            n < u256_modulus(),
        ensures
            U256::spec_from_nat(n)@ == n,
            forall|x: U256| x@ == n ==> x == U256::spec_from_nat(n),
    {
        assert forall|x: U256| x@ == n implies x == U256::spec_from_nat(n) by {
            lemma_u256_order(x, U256::spec_from_nat(n));
        }
    }

    /// The 32 bytes of the value, most significant byte first.
    pub open spec fn spec_to_be(self) -> Seq<u8> {
        u64_to_be(self.w3) + u64_to_be(self.w2) + u64_to_be(self.w1) + u64_to_be(self.w0)
    }

    /// The value that 32 bytes stand for, most significant byte first.
    pub open spec fn spec_from_be(s: Seq<u8>) -> U256
        recommends
            s.len() == 32,
    {
        U256 {
            w3: u64_from_be(s.subrange(0, 8)),
            w2: u64_from_be(s.subrange(8, 16)),
            w1: u64_from_be(s.subrange(16, 24)),
            w0: u64_from_be(s.subrange(24, 32)),
        }
    }

    /// Reading back the bytes of a value gives the value.
    pub proof fn lemma_be_round_trip(self)
        ensures
            self.spec_to_be().len() == 32,
            U256::spec_from_be(self.spec_to_be()) == self,
    {
        let s = self.spec_to_be();
        lemma_u64_be_round_trip(self.w3);
        lemma_u64_be_round_trip(self.w2);
        lemma_u64_be_round_trip(self.w1);
        lemma_u64_be_round_trip(self.w0);
        assert(s.subrange(0, 8) =~= u64_to_be(self.w3));
        assert(s.subrange(8, 16) =~= u64_to_be(self.w2));
        assert(s.subrange(16, 24) =~= u64_to_be(self.w1));
        assert(s.subrange(24, 32) =~= u64_to_be(self.w0));
    }

    /// Writing out the value that 32 bytes stand for gives the bytes.
    pub proof fn lemma_be_bytes_round_trip(s: Seq<u8>)
        requires
            s.len() == 32,
        ensures
            U256::spec_from_be(s).spec_to_be() == s,
    {
        lemma_u64_be_bytes_round_trip(s.subrange(0, 8));
        lemma_u64_be_bytes_round_trip(s.subrange(8, 16));
        lemma_u64_be_bytes_round_trip(s.subrange(16, 24));
        lemma_u64_be_bytes_round_trip(s.subrange(24, 32));
        assert(U256::spec_from_be(s).spec_to_be() =~= s);
    }

    /// Reads a value from 32 bytes of `data` that start at `at`, most
    /// significant byte first.
    pub fn from_be_slice(data: &[u8], at: usize) -> (r: U256)
        requires
            at + 32 <= data@.len(),
        ensures
            r == U256::spec_from_be(data@.subrange(at as int, at + 32)),
    {
        let ghost s = data@.subrange(at as int, at + 32);
        let len: usize = data.len();
        let w3 = read_u64_be(data, at);
        let w2 = read_u64_be(data, at + 8);
        let w1 = read_u64_be(data, at + 16);
        let w0 = read_u64_be(data, at + 24);
        proof {
            assert(s.subrange(0, 8) =~= data@.subrange(at as int, at + 8));
            assert(s.subrange(8, 16) =~= data@.subrange(at + 8, at + 16));
            assert(s.subrange(16, 24) =~= data@.subrange(at + 16, at + 24));
            assert(s.subrange(24, 32) =~= data@.subrange(at + 24, at + 32));
        }
        U256 { w3, w2, w1, w0 }
    }

    /// The 32 bytes of the value, most significant byte first.
    pub fn to_be_bytes(&self) -> (out: Vec<u8>)
        ensures
            out@ == self.spec_to_be(),
            out@.len() == 32,
    {
        let mut out: Vec<u8> = Vec::new();
        push_u64_be(&mut out, self.w3);
        push_u64_be(&mut out, self.w2);
        push_u64_be(&mut out, self.w1);
        push_u64_be(&mut out, self.w0);
        assert(out@ =~= self.spec_to_be());
        out
    }

    /// The number zero.
    pub fn zero() -> (r: U256)
        ensures
            r@ == 0,
            r == (U256 { w3: 0, w2: 0, w1: 0, w0: 0 }),
    {
        U256 { w3: 0, w2: 0, w1: 0, w0: 0 }
    }

    /// The greatest value, 2^256 - 1.
    pub fn max_value() -> (r: U256)
        ensures
            r == (U256 { w3: u64::MAX, w2: u64::MAX, w1: u64::MAX, w0: u64::MAX }),
            r@ == u256_modulus() - 1,
    {
        U256 { w3: u64::MAX, w2: u64::MAX, w1: u64::MAX, w0: u64::MAX }
    }

    /// The value that stands for a 64-bit number.
    pub fn from_u64(x: u64) -> (r: U256)
        ensures
            r@ == x,
    {
        U256 { w3: 0, w2: 0, w1: 0, w0: x }
    }

    /// Whether `self` is below `other`.
    pub fn lt(&self, other: &U256) -> (r: bool)
        ensures
            r == (self@ < other@),
    {
        proof {
            lemma_u256_order(*self, *other);
        }
        self.w3 < other.w3 || (self.w3 == other.w3 && (self.w2 < other.w2 || (self.w2 == other.w2
            && (self.w1 < other.w1 || (self.w1 == other.w1 && self.w0 < other.w0)))))
    }

    /// Whether `self` is at most `other`.
    pub fn le(&self, other: &U256) -> (r: bool)
        ensures
            r == (self@ <= other@),
    {
        !other.lt(self)
    }

    /// The smaller of two values.
    pub fn min(self, other: U256) -> (r: U256)
        ensures
            r@ == if self@ <= other@ { self@ } else { other@ },
            r == self || r == other,
    {
        if self.le(&other) {
            self
        } else {
            other
        }
    }

    /// The product with a 64-bit number, or `None` where it does not fit in
    /// 256 bits.
    pub fn checked_mul_u64(&self, m: u64) -> (r: Option<U256>)
        ensures
            match r {
                Some(p) => p@ == self@ * m,
                None => self@ * m >= u256_modulus(),
            },
    {
        let (r0, c0) = mul_add(self.w0, m, 0);
        let (r1, c1) = mul_add(self.w1, m, c0);
        let (r2, c2) = mul_add(self.w2, m, c1);
        let (r3, carry) = mul_add(self.w3, m, c2);
        proof {
            let r = limb_radix();
            let top = r3 + r * carry;
            let hi2 = self.w2 + r * self.w3;
            let hi1 = self.w1 + r * hi2;
            lemma_mul_carry(self.w2 as int, self.w3 as int, m as int, c1 as int, r2 as int, c2 as int, top);
            lemma_mul_carry(self.w1 as int, hi2, m as int, c0 as int, r1 as int, c1 as int, r2 + r * top);
            lemma_mul_carry(self.w0 as int, hi1, m as int, 0, r0 as int, c0 as int, r1 + r * (r2 + r * top));
            assert(self@ * m == r0 + r * (r1 + r * (r2 + r * top)));
        }
        if carry == 0 {
            Some(U256 { w3: r3, w2: r2, w1: r1, w0: r0 })
        } else {
            None
        }
    }

    /// The quotient by a 64-bit number other than zero, rounded down, and
    /// the remainder.
    pub fn div_rem_u64(&self, d: u64) -> (r: (U256, u64))
        requires
            d != 0,
        ensures
            r.0@ == self@ / (d as nat),
            r.1 == self@ % (d as nat),
            self@ == r.0@ * d + r.1,
    {
        let (q3, r3) = div_step(0, self.w3, d);
        let (q2, r2) = div_step(r3, self.w2, d);
        let (q1, r1) = div_step(r2, self.w1, d);
        let (q0, r0) = div_step(r1, self.w0, d);
        let q = U256 { w3: q3, w2: q2, w1: q1, w0: q0 };
        proof {
            let r = limb_radix();
            let hi2 = self.w2 + r * self.w3;
            let hi1 = self.w1 + r * hi2;
            assert(self.w3 == d * q3 + r3);
            lemma_div_carry(self.w2 as int, self.w3 as int, d as int, q3 as int, r3 as int, q2 as int, r2 as int);
            lemma_div_carry(self.w1 as int, hi2, d as int, q2 + r * q3, r2 as int, q1 as int, r1 as int);
            lemma_div_carry(self.w0 as int, hi1, d as int, q1 + r * (q2 + r * q3), r1 as int, q0 as int, r0 as int);
            assert(self@ == d * q@ + r0);
            assert(d * q@ == q@ * d) by (nonlinear_arith);
            lemma_fundamental_div_mod_converse(self@ as int, d as int, q@ as int, r0 as int);
        }
        (q, r0)
    }

    /// The quotient by a 64-bit number other than zero, rounded down.
    pub fn div_u64(&self, d: u64) -> (r: U256)
        requires
            d != 0,
        ensures
            r@ == self@ / (d as nat),
    {
        self.div_rem_u64(d).0
    }

    /// The sum with a 64-bit number, or `None` where it does not fit in 256
    /// bits.
    pub fn checked_add_u64(&self, a: u64) -> (r: Option<U256>)
        ensures
            match r {
                Some(p) => p@ == self@ + a,
                None => self@ + a >= u256_modulus(),
            },
    {
        let (w0, c0) = add_carry(self.w0, a);
        let (w1, c1) = add_carry(self.w1, c0);
        let (w2, c2) = add_carry(self.w2, c1);
        let (w3, c3) = add_carry(self.w3, c2);
        if c3 == 0 {
            Some(U256 { w3, w2, w1, w0 })
        } else {
            None
        }
    }

    /// Whether the value is zero.
    pub fn is_zero(&self) -> (r: bool)
        ensures
            r == (self@ == 0),
    {
        self.w3 == 0 && self.w2 == 0 && self.w1 == 0 && self.w0 == 0
    }

    /// The value that decimal digits stand for. `None` where `digits` is
    /// empty, holds a byte that is no digit, or stands for a number that
    /// does not fit in 256 bits.
    pub fn from_decimal(digits: &[u8]) -> (r: Option<U256>)
        ensures
            match r {
                Some(x) => is_decimal(digits@) && x@ == decimal_value(digits@),
                None => !is_decimal(digits@) || decimal_value(digits@) >= u256_modulus(),
            },
    {
        let n: usize = digits.len();
        if n == 0 {
            return None;
        }
        let mut acc = U256::zero();
        let mut i: usize = 0;
        assert(digits@.take(0) =~= Seq::<u8>::empty());
        while i < n
            invariant
                i <= n,
                n == digits@.len(),
                forall|k: int| 0 <= k < i ==> 48 <= #[trigger] digits@[k] <= 57,
                acc@ == decimal_value(digits@.take(i as int)),
            decreases n - i,
        {
            let d = digits[i];
            if d < 48 || d > 57 {
                return None;
            }
            proof {
                assert(digits@.take(i + 1).drop_last() =~= digits@.take(i as int));
                assert(digits@.take(i + 1).last() == d);
                if all_digits(digits@) {
                    lemma_decimal_prefix(digits@, i + 1);
                }
            }
            let scaled = match acc.checked_mul_u64(10) {
                Some(x) => x,
                None => {
                    return None;
                },
            };
            acc = match scaled.checked_add_u64((d - 48) as u64) {
                Some(x) => x,
                None => {
                    return None;
                },
            };
            i += 1;
        }
        assert(digits@.take(i as int) =~= digits@);
        Some(acc)
    }

    /// The decimal digits of the value, most significant first, without
    /// leading zeros.
    pub fn to_decimal(&self) -> (out: Vec<u8>)
        ensures
            is_decimal(out@),
            out@.len() == 1 || out@[0] != 48,
            decimal_value(out@) == self@,
    {
        let mut low_first: Vec<u8> = Vec::new();
        let mut x = *self;
        while !x.is_zero()
            invariant
                pending_value(x@, low_first@) == self@,
                forall|k: int| 0 <= k < low_first@.len() ==> 48 <= #[trigger] low_first@[k] <= 57,
                low_first@.len() > 0 ==> x@ > 0 || low_first@.last() != 48,
            decreases x@,
        {
            let (q, r) = x.div_rem_u64(10);
            let ghost before = low_first@;
            low_first.push(48 + r as u8);
            proof {
                assert(low_first@.drop_last() =~= before);
                assert(x@ == q@ * 10 + r);
            }
            x = q;
        }
        if low_first.len() == 0 {
            low_first.push(48);
            assert(low_first@.drop_last() =~= Seq::<u8>::empty());
        }
        let mut out: Vec<u8> = Vec::new();
        let mut m: usize = low_first.len();
        assert(low_first@.take(m as int) =~= low_first@);
        while m > 0
            invariant
                m <= low_first@.len(),
                out@.len() == low_first@.len() - m,
                forall|k: int| 0 <= k < low_first@.len() ==> 48 <= #[trigger] low_first@[k] <= 57,
                forall|k: int| 0 <= k < out@.len() ==> 48 <= #[trigger] out@[k] <= 57,
                out@.len() > 0 ==> out@[0] == low_first@.last(),
                pending_value(decimal_value(out@), low_first@.take(m as int)) == self@,
            decreases m,
        {
            let d = low_first[m - 1];
            let ghost before = out@;
            out.push(d);
            proof {
                assert(out@.drop_last() =~= before);
                assert(low_first@.take(m as int).drop_last() =~= low_first@.take(m - 1));
                assert(low_first@.take(m as int).last() == d);
            }
            m -= 1;
        }
        out
    }
}

/// Reads a 64-bit number from eight bytes of `data` that start at `at`, most
/// significant byte first.
pub fn read_u64_be(data: &[u8], at: usize) -> (r: u64)
    requires
        at + 8 <= data@.len(),
    ensures
        r == u64_from_be(data@.subrange(at as int, at + 8)),
{
    let len: usize = data.len();
    let b0: u64 = data[at] as u64;
    let b1: u64 = data[at + 1] as u64;
    let b2: u64 = data[at + 2] as u64;
    let b3: u64 = data[at + 3] as u64;
    let b4: u64 = data[at + 4] as u64;
    let b5: u64 = data[at + 5] as u64;
    let b6: u64 = data[at + 6] as u64;
    let b7: u64 = data[at + 7] as u64;
    (b0 << 56) | (b1 << 48) | (b2 << 40) | (b3 << 32) | (b4 << 24) | (b5 << 16) | (b6 << 8) | b7
}

/// Appends the eight bytes of a 64-bit number, most significant byte first.
pub fn push_u64_be(out: &mut Vec<u8>, x: u64)
    ensures
        final(out)@ == old(out)@ + u64_to_be(x),
{
    out.push((x >> 56) as u8);
    out.push((x >> 48) as u8);
    out.push((x >> 40) as u8);
    out.push((x >> 32) as u8);
    out.push((x >> 24) as u8);
    out.push((x >> 16) as u8);
    out.push((x >> 8) as u8);
    out.push(x as u8);
    assert(out@ =~= old(out)@ + u64_to_be(x));
}

/// Reads a 128-bit number from sixteen bytes of `data` that start at `at`,
/// most significant byte first.
pub fn read_u128_be(data: &[u8], at: usize) -> (r: u128)
    requires
        at + 16 <= data@.len(),
    ensures
        r == u128_from_be(data@.subrange(at as int, at + 16)),
{
    let ghost s = data@.subrange(at as int, at + 16);
    let len: usize = data.len();
    let hi = read_u64_be(data, at);
    let lo = read_u64_be(data, at + 8);
    proof {
        assert(s.subrange(0, 8) =~= data@.subrange(at as int, at + 8));
        assert(s.subrange(8, 16) =~= data@.subrange(at + 8, at + 16));
    }
    (hi as u128) * 0x1_0000_0000_0000_0000u128 + (lo as u128)
}

/// Appends the sixteen bytes of a 128-bit number, most significant byte
/// first.
pub fn push_u128_be(out: &mut Vec<u8>, x: u128)
    ensures
        final(out)@ == old(out)@ + u128_to_be(x),
{
    push_u64_be(out, (x / 0x1_0000_0000_0000_0000u128) as u64);
    push_u64_be(out, (x % 0x1_0000_0000_0000_0000u128) as u64);
    assert(out@ =~= old(out)@ + u128_to_be(x));
}

/// The low limb and the carry of `a + b`.
fn add_carry(a: u64, b: u64) -> (r: (u64, u64))
    ensures
        a + b == r.0 + limb_radix() * r.1,
        r.1 <= 1,
{
    let sum: u128 = a as u128 + b as u128;
    ((sum % 0x1_0000_0000_0000_0000u128) as u64, (sum / 0x1_0000_0000_0000_0000u128) as u64)
}

/// The low limb and the carry of `a * m + c`, which always fits in 128 bits.
fn mul_add(a: u64, m: u64, c: u64) -> (r: (u64, u64))
    ensures
        a * m + c == r.0 + limb_radix() * r.1,
{
    proof {
        assert(a * m <= 0xFFFF_FFFF_FFFF_FFFF * 0xFFFF_FFFF_FFFF_FFFF) by (nonlinear_arith)
            requires
                0 <= a <= 0xFFFF_FFFF_FFFF_FFFF,
                0 <= m <= 0xFFFF_FFFF_FFFF_FFFF,
        ;
    }
    let p: u128 = (a as u128) * (m as u128) + (c as u128);
    let lo: u128 = p % 0x1_0000_0000_0000_0000u128;
    let hi: u128 = p / 0x1_0000_0000_0000_0000u128;
    (lo as u64, hi as u64)
}

/// One step of long division: divides `rem * 2^64 + limb` by `d`.
fn div_step(rem: u64, limb: u64, d: u64) -> (r: (u64, u64))
    requires
        d != 0,
        rem < d,
    ensures
        limb_radix() * rem + limb == d * r.0 + r.1,
        r.1 < d,
{
    let n: u128 = (rem as u128) * 0x1_0000_0000_0000_0000u128 + (limb as u128);
    let q: u128 = n / (d as u128);
    let m: u128 = n % (d as u128);
    proof {
        let r = limb_radix();
        vstd::arithmetic::div_mod::lemma_fundamental_div_mod(n as int, d as int);
        assert(q < r) by (nonlinear_arith)
            requires
                n == d * q + m,
                n < r * rem + r,
                rem + 1 <= d,
                0 <= m,
                r > 0,
                0 <= q,
        ;
    }
    (q as u64, m as u64)
}

} // verus!
