//! Textual encodings used when hashing: decimal digits, lowercase and
//! uppercase hexadecimal, and small byte-vector helpers.
use vstd::prelude::*;

verus! {

/// The ASCII decimal digits of `n`, most significant first.
pub open spec fn dec_digits(n: nat) -> Seq<u8>
    decreases n,
{
    if n < 10 {
        seq![(48 + n) as u8]
    } else {
        dec_digits(n / 10).push((48 + n % 10) as u8)
    }
}

/// An ASCII lowercase hexadecimal digit.
pub open spec fn is_hex_digit(b: u8) -> bool {
    (48 <= b <= 57) || (97 <= b <= 102)
}

pub open spec fn hex_digit_val(b: u8) -> nat {
    if 48 <= b <= 57 {
        (b - 48) as nat
    } else if 97 <= b <= 102 {
        (b - 87) as nat
    } else {
        0
    }
}

/// The value of a big-endian string of hexadecimal digits.
pub open spec fn hex_val(s: Seq<u8>) -> nat
    decreases s.len(),
{
    if s.len() == 0 {
        0
    } else {
        hex_val(s.drop_last()) * 16 + hex_digit_val(s.last())
    }
}

pub proof fn lemma_hex_val_bound(s: Seq<u8>)
    ensures
        hex_val(s) < vstd::arithmetic::power::pow(16, s.len()),
    decreases s.len(),
{
    if s.len() == 0 {
        vstd::arithmetic::power::lemma_pow0(16);
    } else {
        lemma_hex_val_bound(s.drop_last());
        let p = vstd::arithmetic::power::pow(16, (s.len() - 1) as nat);
        vstd::arithmetic::power::lemma_pow_adds(16, (s.len() - 1) as nat, 1);
        vstd::arithmetic::power::lemma_pow1(16);
        assert(vstd::arithmetic::power::pow(16, s.len()) == p * 16) by (nonlinear_arith)
            requires
                vstd::arithmetic::power::pow(16, s.len()) == p * vstd::arithmetic::power::pow(
                    16,
                    1,
                ),
                vstd::arithmetic::power::pow(16, 1) == 16,
        ;
        assert(hex_digit_val(s.last()) < 16);
        assert(hex_val(s.drop_last()) * 16 <= (p - 1) * 16) by (nonlinear_arith)
            requires
                hex_val(s.drop_last()) <= p - 1,
        ;
    }
}

pub proof fn lemma_hex_val_concat(a: Seq<u8>, b: Seq<u8>)
    ensures
        hex_val(a + b) == hex_val(a) * vstd::arithmetic::power::pow(16, b.len()) + hex_val(b),
    decreases b.len(),
{
    if b.len() == 0 {
        assert(a + b =~= a);
        vstd::arithmetic::power::lemma_pow0(16);
    } else {
        lemma_hex_val_concat(a, b.drop_last());
        assert((a + b).drop_last() =~= a + b.drop_last());
        assert((a + b).last() == b.last());
        let p = vstd::arithmetic::power::pow(16, (b.len() - 1) as nat);
        vstd::arithmetic::power::lemma_pow_adds(16, (b.len() - 1) as nat, 1);
        vstd::arithmetic::power::lemma_pow1(16);
        assert(vstd::arithmetic::power::pow(16, b.len()) == p * 16) by (nonlinear_arith)
            requires
                vstd::arithmetic::power::pow(16, b.len()) == p * vstd::arithmetic::power::pow(
                    16,
                    1,
                ),
                vstd::arithmetic::power::pow(16, 1) == 16,
        ;
        assert((hex_val(a) * p + hex_val(b.drop_last())) * 16 == hex_val(a) * (16 * p) + hex_val(
            b.drop_last(),
        ) * 16) by (nonlinear_arith);
    }
}

pub open spec fn hex_upper_digit(d: nat) -> u8 {
    if d < 10 {
        (48 + d) as u8
    } else {
        (55 + d) as u8
    }
}

/// Uppercase hexadecimal rendering of a byte string, two digits per byte.
pub open spec fn hex_upper(bytes: Seq<u8>) -> Seq<u8>
    decreases bytes.len(),
{
    if bytes.len() == 0 {
        Seq::empty()
    } else {
        hex_upper(bytes.drop_last()) + seq![
            hex_upper_digit(bytes.last() as nat / 16),
            hex_upper_digit(bytes.last() as nat % 16),
        ]
    }
}

pub fn hex_upper_encode(v: &Vec<u8>) -> (r: Vec<u8>)
    ensures
        r@ == hex_upper(v@),
{
    let mut r: Vec<u8> = Vec::new();
    let mut i: usize = 0;
    while i < v.len()
        invariant
            i <= v.len(),
            r@ == hex_upper(v@.take(i as int)),
        decreases v.len() - i,
    {
        let b = v[i];
        let hi = b / 16;
        let lo = b % 16;
        r.push(if hi < 10 {
            48 + hi
        } else {
            55 + hi
        });
        r.push(if lo < 10 {
            48 + lo
        } else {
            55 + lo
        });
        proof {
            assert(v@.take(i + 1 as int).drop_last() =~= v@.take(i as int));
            assert(v@.take(i + 1 as int).last() == v@[i as int]);
        }
        i = i + 1;
    }
    proof {
        assert(v@.take(v@.len() as int) =~= v@);
    }
    r
}

pub fn bytes_eq(a: &Vec<u8>, b: &Vec<u8>) -> (r: bool)
    ensures
        r == (a@ == b@),
{
    if a.len() != b.len() {
        proof {
            assert(a@ != b@);
        }
        return false;
    }
    let mut i: usize = 0;
    while i < a.len()
        invariant
            i <= a.len(),
            a@.len() == b@.len(),
            forall|j: int| 0 <= j < i ==> a@[j] == b@[j],
        decreases a.len() - i,
    {
        if a[i] != b[i] {
            return false;
        }
        i = i + 1;
    }
    proof {
        assert(a@ =~= b@);
    }
    true
}

pub fn clone_bytes(v: &Vec<u8>) -> (r: Vec<u8>)
    ensures
        r@ == v@,
{
    let r = v.clone();
    proof {
        assert(r@ =~= v@);
    }
    r
}

/// Appends all of `src` to `dst`.
pub fn append_bytes(dst: &mut Vec<u8>, src: &Vec<u8>)
    ensures
        final(dst)@ == old(dst)@ + src@,
{
    let mut i: usize = 0;
    while i < src.len()
        invariant
            i <= src.len(),
            dst@ == old(dst)@ + src@.take(i as int),
        decreases src.len() - i,
    {
        dst.push(src[i]);
        proof {
            assert(old(dst)@ + src@.take(i + 1 as int) =~= (old(dst)@ + src@.take(i as int)).push(
                src@[i as int],
            ));
        }
        i = i + 1;
    }
    proof {
        assert(src@.take(src@.len() as int) =~= src@);
    }
}

/// Renders `x` in decimal.
pub fn u64_to_dec(x: u64) -> (r: Vec<u8>)
    ensures
        r@ == dec_digits(x as nat),
{
    let mut r: Vec<u8> = Vec::new();
    if x == 0 {
        r.push(48);
        proof {
            assert(r@ =~= dec_digits(0));
        }
        return r;
    }
    let mut n: u64 = x;
    proof {
        assert(dec_digits(x as nat) + r@ =~= dec_digits(x as nat));
    }
    while n > 0
        invariant
            n > 0 ==> dec_digits(x as nat) == dec_digits(n as nat) + r@,
            n == 0 ==> dec_digits(x as nat) == r@,
            x > 0,
        decreases n,
    {
        let ghost r_old = r@;
        let ghost n_old = n as nat;
        let d: u8 = (n % 10) as u8;
        r.insert(0, 48 + d);
        n = n / 10;
        proof {
            assert(r@ =~= seq![(48 + n_old % 10) as u8] + r_old);
            if n_old >= 10 {
                assert(dec_digits(n_old) == dec_digits(n_old / 10).push((48 + n_old % 10) as u8));
                assert(dec_digits(n_old / 10) + r@ =~= dec_digits(n_old) + r_old);
            } else {
                assert(dec_digits(n_old) =~= seq![(48 + n_old) as u8]);
                assert(r@ =~= dec_digits(n_old) + r_old);
            }
        }
    }
    r
}

} // verus!
