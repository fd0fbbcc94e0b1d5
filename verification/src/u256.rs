//! A 256-bit unsigned integer built from four 64-bit limbs, used for
//! balances, fees, difficulty targets and header digests.
use vstd::prelude::*;

verus! {

/// Little-endian limbs: the represented value is
/// `w0 + w1*2^64 + w2*2^128 + w3*2^192`.
#[derive(Clone, Copy, PartialEq, Eq, Structural, Debug)]
pub struct U256 {
    pub w0: u64,
    pub w1: u64,
    pub w2: u64,
    pub w3: u64,
}

pub open spec fn pow64() -> nat {
    0x1_0000_0000_0000_0000nat
}

pub open spec fn pow128() -> nat {
    0x1_0000_0000_0000_0000_0000_0000_0000_0000nat
}

pub open spec fn pow192() -> nat {
    0x1_0000_0000_0000_0000_0000_0000_0000_0000_0000_0000_0000_0000nat
}

pub open spec fn pow256() -> nat {
    0x1_0000_0000_0000_0000_0000_0000_0000_0000_0000_0000_0000_0000_0000_0000_0000_0000nat
}

impl View for U256 {
    type V = nat;

    open spec fn view(&self) -> nat {
        (self.w0 + self.w1 * pow64() + self.w2 * pow128() + self.w3 * pow192()) as nat
    }
}

impl U256 {
    pub fn zero() -> (r: U256)
        ensures
            r@ == 0,
    {
        U256 { w0: 0, w1: 0, w2: 0, w3: 0 }
    }

    pub fn from_u64(x: u64) -> (r: U256)
        ensures
            r@ == x as nat,
    {
        U256 { w0: x, w1: 0, w2: 0, w3: 0 }
    }

    pub fn from_limbs(w0: u64, w1: u64, w2: u64, w3: u64) -> (r: U256)
        ensures
            r == (U256 { w0, w1, w2, w3 }),
    {
        U256 { w0, w1, w2, w3 }
    }

    pub fn max_value() -> (r: U256)
        ensures
            r@ == pow256() - 1,
    {
        U256 { w0: u64::MAX, w1: u64::MAX, w2: u64::MAX, w3: u64::MAX }
    }

    /// Every value fits in 256 bits.
    pub proof fn lemma_view_bound(a: U256)
        ensures
            a@ < pow256(),
    {
        lemma_low_limbs_bound(a);
    }

    /// The view determines the limbs: the base-2^64 representation is unique.
    pub proof fn lemma_view_injective(a: U256, b: U256)
        ensures
            (a@ == b@) == (a == b),
    {
        if a@ == b@ {
            assert(a.w0 == b.w0 && a.w1 == b.w1 && a.w2 == b.w2 && a.w3 == b.w3) by {
                lemma_limbs_unique(a, b);
            }
        }
    }

    pub fn eq_val(&self, other: &U256) -> (r: bool)
        ensures
            r == (self@ == other@),
    {
        proof {
            U256::lemma_view_injective(*self, *other);
        }
        self.w0 == other.w0 && self.w1 == other.w1 && self.w2 == other.w2 && self.w3 == other.w3
    }

    pub fn lt(&self, other: &U256) -> (r: bool)
        ensures
            r == (self@ < other@),
    {
        proof {
            lemma_low_limbs_bound(*self);
            lemma_low_limbs_bound(*other);
        }
        if self.w3 != other.w3 {
            self.w3 < other.w3
        } else if self.w2 != other.w2 {
            self.w2 < other.w2
        } else if self.w1 != other.w1 {
            self.w1 < other.w1
        } else {
            self.w0 < other.w0
        }
    }

    pub fn le(&self, other: &U256) -> (r: bool)
        ensures
            r == (self@ <= other@),
    {
        !other.lt(self)
    }

    pub fn gt(&self, other: &U256) -> (r: bool)
        ensures
            r == (self@ > other@),
    {
        other.lt(self)
    }

    pub fn ge(&self, other: &U256) -> (r: bool)
        ensures
            r == (self@ >= other@),
    {
        !self.lt(other)
    }

    /// The sum, or `None` when it does not fit in 256 bits.
    pub fn checked_add(&self, other: &U256) -> (r: Option<U256>)
        ensures
            match r {
                Some(s) => s@ == self@ + other@,
                None => self@ + other@ >= pow256(),
            },
    {
        let s0: u128 = self.w0 as u128 + other.w0 as u128;
        let r0: u64 = (s0 & 0xffff_ffff_ffff_ffff) as u64;
        let c0: u64 = (s0 >> 64) as u64;
        let s1: u128 = self.w1 as u128 + other.w1 as u128 + c0 as u128;
        let r1: u64 = (s1 & 0xffff_ffff_ffff_ffff) as u64;
        let c1: u64 = (s1 >> 64) as u64;
        let s2: u128 = self.w2 as u128 + other.w2 as u128 + c1 as u128;
        let r2: u64 = (s2 & 0xffff_ffff_ffff_ffff) as u64;
        let c2: u64 = (s2 >> 64) as u64;
        let s3: u128 = self.w3 as u128 + other.w3 as u128 + c2 as u128;
        let r3: u64 = (s3 & 0xffff_ffff_ffff_ffff) as u64;
        let c3: u64 = (s3 >> 64) as u64;
        proof {
            lemma_split_u128(s0);
            lemma_split_u128(s1);
            lemma_split_u128(s2);
            lemma_split_u128(s3);
        }
        if c3 == 0 {
            Some(U256 { w0: r0, w1: r1, w2: r2, w3: r3 })
        } else {
            None
        }
    }

    pub fn is_zero(&self) -> (r: bool)
        ensures
            r == (self@ == 0),
    {
        proof {
            U256::lemma_view_injective(*self, U256 { w0: 0, w1: 0, w2: 0, w3: 0 });
        }
        self.w0 == 0 && self.w1 == 0 && self.w2 == 0 && self.w3 == 0
    }

    /// Quotient and remainder of division by ten.
    pub fn divmod10(&self) -> (r: (U256, u8))
        ensures
            self@ == r.0@ * 10 + r.1,
            r.1 < 10,
            self@ > 0 ==> r.0@ < self@,
    {
        let c3: u128 = self.w3 as u128;
        let q3: u64 = (c3 / 10) as u64;
        let r3: u128 = c3 % 10;
        let c2: u128 = r3 * 0x1_0000_0000_0000_0000u128 + self.w2 as u128;
        let q2: u64 = (c2 / 10) as u64;
        let r2: u128 = c2 % 10;
        let c1: u128 = r2 * 0x1_0000_0000_0000_0000u128 + self.w1 as u128;
        let q1: u64 = (c1 / 10) as u64;
        let r1: u128 = c1 % 10;
        let c0: u128 = r1 * 0x1_0000_0000_0000_0000u128 + self.w0 as u128;
        let q0: u64 = (c0 / 10) as u64;
        let r0: u128 = c0 % 10;
        let q = U256 { w0: q0, w1: q1, w2: q2, w3: q3 };
        proof {
            assert(c3 == 10 * (c3 / 10) + c3 % 10);
            assert(c2 == 10 * (c2 / 10) + c2 % 10);
            assert(c1 == 10 * (c1 / 10) + c1 % 10);
            assert(c0 == 10 * (c0 / 10) + c0 % 10);
            assert(c2 / 10 < 0x1_0000_0000_0000_0000 && c1 / 10 < 0x1_0000_0000_0000_0000 && c0
                / 10 < 0x1_0000_0000_0000_0000) by (nonlinear_arith)
                requires
                    c2 < 10 * 0x1_0000_0000_0000_0000,
                    c1 < 10 * 0x1_0000_0000_0000_0000,
                    c0 < 10 * 0x1_0000_0000_0000_0000,
            ;
            assert(self@ == q@ * 10 + r0);
            if self@ > 0 {
                assert(q@ < self@);
            }
        }
        (q, r0 as u8)
    }

    /// Renders the value in decimal, most significant digit first.
    pub fn to_decimal(&self) -> (r: Vec<u8>)
        ensures
            r@ == crate::encoding::dec_digits(self@),
    {
        let mut r: Vec<u8> = Vec::new();
        if self.is_zero() {
            r.push(48);
            proof {
                assert(r@ =~= crate::encoding::dec_digits(0));
            }
            return r;
        }
        let mut n: U256 = *self;
        let ghost v0 = self@;
        proof {
            assert(crate::encoding::dec_digits(v0) + r@ =~= crate::encoding::dec_digits(v0));
        }
        let mut done = false;
        while !done
            invariant
                !done ==> n@ > 0,
                !done ==> crate::encoding::dec_digits(v0) == crate::encoding::dec_digits(n@) + r@,
                done ==> crate::encoding::dec_digits(v0) == r@,
            decreases n@,
        {
            let ghost r_old = r@;
            let ghost n_old = n@;
            let (q, d) = n.divmod10();
            r.insert(0, 48 + d);
            proof {
                assert(n_old % 10 == d && n_old / 10 == q@) by (nonlinear_arith)
                    requires
                        n_old == q@ * 10 + d,
                        d < 10,
                ;
                assert(r@ =~= seq![(48 + n_old % 10) as u8] + r_old);
                if n_old >= 10 {
                    assert(crate::encoding::dec_digits(n_old) == crate::encoding::dec_digits(
                        n_old / 10,
                    ).push((48 + n_old % 10) as u8));
                    assert(crate::encoding::dec_digits(n_old / 10) + r@
                        =~= crate::encoding::dec_digits(n_old) + r_old);
                } else {
                    assert(crate::encoding::dec_digits(n_old) =~= seq![(48 + n_old) as u8]);
                    assert(r@ =~= crate::encoding::dec_digits(n_old) + r_old);
                }
            }
            n = q;
            if n.is_zero() {
                done = true;
            }
        }
        r
    }

    /// Parses exactly 64 lowercase hexadecimal digits, most significant
    /// first.
    pub fn from_hex_64(s: &Vec<u8>) -> (r: U256)
        requires
            s@.len() == 64,
            forall|j: int| 0 <= j < 64 ==> crate::encoding::is_hex_digit(s@[j]),
        ensures
            r@ == crate::encoding::hex_val(s@),
    {
        let g3 = parse_hex_16(s, 0);
        let g2 = parse_hex_16(s, 16);
        let g1 = parse_hex_16(s, 32);
        let g0 = parse_hex_16(s, 48);
        let r = U256 { w0: g0, w1: g1, w2: g2, w3: g3 };
        proof {
            let a3 = s@.subrange(0, 16);
            let a2 = s@.subrange(16, 32);
            let a1 = s@.subrange(32, 48);
            let a0 = s@.subrange(48, 64);
            lemma_pow16_vals();
            crate::encoding::lemma_hex_val_concat(a3, a2);
            assert(a3 + a2 =~= s@.subrange(0, 32));
            crate::encoding::lemma_hex_val_concat(s@.subrange(0, 32), a1);
            assert(s@.subrange(0, 32) + a1 =~= s@.subrange(0, 48));
            crate::encoding::lemma_hex_val_concat(s@.subrange(0, 48), a0);
            assert(s@.subrange(0, 48) + a0 =~= s@);
            assert(crate::encoding::hex_val(s@.subrange(0, 32)) * pow64() == (g3 * pow64() + g2)
                * pow64()) by (nonlinear_arith)
                requires
                    crate::encoding::hex_val(s@.subrange(0, 32)) == g3 * pow64() + g2,
            ;
            assert((g3 * pow64() + g2) * pow64() == g3 * pow128() + g2 * pow64())
                by (nonlinear_arith);
            assert(crate::encoding::hex_val(s@.subrange(0, 48)) * pow64() == (g3 * pow128() + g2
                * pow64() + g1) * pow64()) by (nonlinear_arith)
                requires
                    crate::encoding::hex_val(s@.subrange(0, 48)) == g3 * pow128() + g2 * pow64()
                        + g1,
            ;
            assert((g3 * pow128() + g2 * pow64() + g1) * pow64() == g3 * pow192() + g2 * pow128()
                + g1 * pow64()) by (nonlinear_arith);
        }
        r
    }

    /// The difference, or `None` when `other` exceeds `self`.
    pub fn checked_sub(&self, other: &U256) -> (r: Option<U256>)
        ensures
            match r {
                Some(d) => self@ >= other@ && d@ == self@ - other@,
                None => self@ < other@,
            },
    {
        let (r0, b0) = sub_borrow(self.w0, other.w0, false);
        let (r1, b1) = sub_borrow(self.w1, other.w1, b0);
        let (r2, b2) = sub_borrow(self.w2, other.w2, b1);
        let (r3, b3) = sub_borrow(self.w3, other.w3, b2);
        if b3 {
            None
        } else {
            Some(U256 { w0: r0, w1: r1, w2: r2, w3: r3 })
        }
    }
}

/// One limb of a borrowing subtraction:
/// `x - y - borrow_in == r.0 - borrow_out * 2^64`.
fn sub_borrow(x: u64, y: u64, borrow_in: bool) -> (r: (u64, bool))
    ensures
        (x as int) - (y as int) - (if borrow_in { 1int } else { 0int }) == (r.0 as int) - (if r.1 {
            pow64() as int
        } else {
            0int
        }),
{
    let bi: u64 = if borrow_in {
        1
    } else {
        0
    };
    let t: u128 = (x as u128) + 0x1_0000_0000_0000_0000u128 - (y as u128) - (bi as u128);
    let r0: u64 = (t & 0xffff_ffff_ffff_ffff) as u64;
    proof {
        lemma_split_u128(t);
    }
    (r0, t < 0x1_0000_0000_0000_0000u128)
}

/// Parses sixteen lowercase hexadecimal digits starting at `start`.
fn parse_hex_16(s: &Vec<u8>, start: usize) -> (r: u64)
    requires
        start + 16 <= s@.len(),
        forall|j: int| start <= j < start + 16 ==> crate::encoding::is_hex_digit(s@[j]),
    ensures
        r as nat == crate::encoding::hex_val(s@.subrange(start as int, start + 16)),
{
    let slen = s.len();
    let mut acc: u64 = 0;
    let mut i: usize = 0;
    proof {
        vstd::arithmetic::power::lemma_pow0(16);
    }
    while i < 16
        invariant
            i <= 16,
            start + 16 <= slen,
            slen == s@.len(),
            forall|j: int| start <= j < start + 16 ==> crate::encoding::is_hex_digit(s@[j]),
            acc as nat == crate::encoding::hex_val(s@.subrange(start as int, start + i)),
            acc < vstd::arithmetic::power::pow(16, i as nat),
        decreases 16 - i,
    {
        let b = s[start + i];
        let d: u8 = if b <= 57 {
            b - 48
        } else {
            b - 87
        };
        proof {
            lemma_pow16_vals();
            vstd::arithmetic::power::lemma_pow_increases(16, i as nat, 15);
            assert(acc * 16 < vstd::arithmetic::power::pow(16, i as nat) * 16) by (nonlinear_arith)
                requires
                    acc < vstd::arithmetic::power::pow(16, i as nat),
            ;
            vstd::arithmetic::power::lemma_pow_adds(16, i as nat, 1);
            vstd::arithmetic::power::lemma_pow1(16);
            assert(vstd::arithmetic::power::pow(16, i as nat) * 16 == vstd::arithmetic::power::pow(
                16,
                (i + 1) as nat,
            )) by (nonlinear_arith)
                requires
                    vstd::arithmetic::power::pow(16, (i + 1) as nat) == vstd::arithmetic::power::pow(
                        16,
                        i as nat,
                    ) * vstd::arithmetic::power::pow(16, 1),
                    vstd::arithmetic::power::pow(16, 1) == 16,
            ;
            vstd::arithmetic::power::lemma_pow_increases(16, (i + 1) as nat, 16);
            assert(s@.subrange(start as int, start + i + 1).drop_last() =~= s@.subrange(
                start as int,
                start + i,
            ));
            assert(s@.subrange(start as int, start + i + 1).last() == s@[start + i]);
        }
        acc = acc * 16 + d as u64;
        i = i + 1;
    }
    proof {
        assert(s@.subrange(start as int, start + 16) =~= s@.subrange(start as int, start + 16));
    }
    acc
}

/// The numeric values of small powers of sixteen.
proof fn lemma_pow16_vals()
    ensures
        vstd::arithmetic::power::pow(16, 15) == 0x1000_0000_0000_0000nat,
        vstd::arithmetic::power::pow(16, 16) == 0x1_0000_0000_0000_0000nat,
{
    reveal_with_fuel(vstd::arithmetic::power::pow, 17);
}

proof fn lemma_limbs_unique(a: U256, b: U256)
    requires
        a@ == b@,
    ensures
        a.w0 == b.w0,
        a.w1 == b.w1,
        a.w2 == b.w2,
        a.w3 == b.w3,
{
    lemma_low_limbs_bound(a);
    lemma_low_limbs_bound(b);
}

/// The value contributed by the limbs below a given one is less than that
/// limb's weight.
proof fn lemma_low_limbs_bound(a: U256)
    ensures
        a.w0 + a.w1 * pow64() < pow128(),
        a.w0 + a.w1 * pow64() + a.w2 * pow128() < pow192(),
        a@ < pow256(),
{
    assert(a.w1 * pow64() <= (0xffff_ffff_ffff_ffff) * pow64()) by (nonlinear_arith)
        requires
            a.w1 <= 0xffff_ffff_ffff_ffff,
    ;
    assert(a.w2 * pow128() <= (0xffff_ffff_ffff_ffff) * pow128()) by (nonlinear_arith)
        requires
            a.w2 <= 0xffff_ffff_ffff_ffff,
    ;
    assert(a.w3 * pow192() <= (0xffff_ffff_ffff_ffff) * pow192()) by (nonlinear_arith)
        requires
            a.w3 <= 0xffff_ffff_ffff_ffff,
    ;
}

/// Splitting a 128-bit value at bit 64.
proof fn lemma_split_u128(s: u128)
    ensures
        s == (s & 0xffff_ffff_ffff_ffff) + (s >> 64) * pow64(),
        (s & 0xffff_ffff_ffff_ffff) < pow64(),
{
    assert(s == (s & 0xffff_ffff_ffff_ffff) + (s >> 64) * 0x1_0000_0000_0000_0000
        && (s & 0xffff_ffff_ffff_ffff) < 0x1_0000_0000_0000_0000) by (bit_vector);
}

} // verus!
