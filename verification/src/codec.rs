//! A loss-less, self-describing binary encoding for blocks and chain
//! snapshots: little-endian length-prefixed framing, with decoding proved
//! to undo encoding exactly.
use vstd::prelude::*;
use crate::u256::U256;
use crate::encoding::append_bytes;
use crate::encoding::clone_bytes;
use crate::transaction::Transaction;
use crate::block::Block;
use crate::block::Header;
use crate::ledger::AccountState;
use crate::alist::AList;
use crate::alist::alist_map;
use crate::chain::Blockchain;

verus! {

/// The `k` little-endian bytes of `n`.
pub open spec fn le_bytes(n: nat, k: nat) -> Seq<u8>
    decreases k,
{
    if k == 0 {
        Seq::empty()
    } else {
        seq![(n % 256) as u8] + le_bytes(n / 256, (k - 1) as nat)
    }
}

/// The value of a little-endian byte string.
pub open spec fn le_val(s: Seq<u8>) -> nat
    decreases s.len(),
{
    if s.len() == 0 {
        0
    } else {
        (s.first() + 256 * le_val(s.drop_first())) as nat
    }
}

pub proof fn lemma_le_bytes_len(n: nat, k: nat)
    ensures
        le_bytes(n, k).len() == k,
    decreases k,
{
    if k > 0 {
        lemma_le_bytes_len(n / 256, (k - 1) as nat);
    }
}

/// Reading back the little-endian bytes of a value in range gives the
/// value.
pub proof fn lemma_le_roundtrip(n: nat, k: nat)
    requires
        n < vstd::arithmetic::power::pow(256, k),
    ensures
        le_val(le_bytes(n, k)) == n,
    decreases k,
{
    if k == 0 {
        vstd::arithmetic::power::lemma_pow0(256);
    } else {
        let p = vstd::arithmetic::power::pow(256, (k - 1) as nat);
        vstd::arithmetic::power::lemma_pow_adds(256, (k - 1) as nat, 1);
        vstd::arithmetic::power::lemma_pow1(256);
        assert(vstd::arithmetic::power::pow(256, k) == p * 256) by (nonlinear_arith)
            requires
                vstd::arithmetic::power::pow(256, k) == p * vstd::arithmetic::power::pow(256, 1),
                vstd::arithmetic::power::pow(256, 1) == 256,
        ;
        assert(n / 256 < p) by (nonlinear_arith)
            requires
                n < p * 256,
        ;
        lemma_le_roundtrip(n / 256, (k - 1) as nat);
        let s = le_bytes(n, k);
        assert(s.drop_first() =~= le_bytes(n / 256, (k - 1) as nat));
        assert(le_val(s) == n % 256 + 256 * (n / 256));
    }
}

/// Little-endian byte strings of equal length and equal prefixes of a
/// stream carry the same value and leave the same remainder.
pub proof fn lemma_le_bytes_prefix(a: nat, b: nat, k: nat, r1: Seq<u8>, r2: Seq<u8>)
    requires
        le_bytes(a, k) + r1 == le_bytes(b, k) + r2,
        a < vstd::arithmetic::power::pow(256, k),
        b < vstd::arithmetic::power::pow(256, k),
    ensures
        a == b,
        r1 == r2,
{
    lemma_le_bytes_len(a, k);
    lemma_le_bytes_len(b, k);
    let s = le_bytes(a, k) + r1;
    assert(le_bytes(a, k) =~= s.subrange(0, k as int));
    assert(le_bytes(b, k) =~= s.subrange(0, k as int));
    lemma_le_roundtrip(a, k);
    lemma_le_roundtrip(b, k);
    assert(r1 =~= s.subrange(k as int, s.len() as int));
    assert(r2 =~= s.subrange(k as int, s.len() as int));
}

pub proof fn lemma_pow256_vals()
    ensures
        vstd::arithmetic::power::pow(256, 8) == 0x1_0000_0000_0000_0000,
        vstd::arithmetic::power::pow(256, 16)
            == 0x1_0000_0000_0000_0000_0000_0000_0000_0000,
{
    reveal_with_fuel(vstd::arithmetic::power::pow, 17);
}

/// Appends the eight little-endian bytes of `x`.
pub fn write_u64(dst: &mut Vec<u8>, x: u64)
    ensures
        final(dst)@ == old(dst)@ + le_bytes(x as nat, 8),
{
    let ghost dst0 = old(dst)@;
    let mut n: u64 = x;
    let mut i: usize = 0;
    proof {
        assert(dst0 + le_bytes(x as nat, 8) =~= dst@ + le_bytes(n as nat, 8));
    }
    while i < 8
        invariant
            i <= 8,
            dst0 + le_bytes(x as nat, 8) == dst@ + le_bytes(n as nat, (8 - i) as nat),
        decreases 8 - i,
    {
        let ghost pre = dst@;
        let b: u8 = (n % 256) as u8;
        dst.push(b);
        proof {
            assert(le_bytes(n as nat, (8 - i) as nat) == seq![(n as nat % 256) as u8] + le_bytes(
                n as nat / 256,
                (8 - (i + 1)) as nat,
            ));
            assert(pre + le_bytes(n as nat, (8 - i) as nat) =~= dst@ + le_bytes(
                n as nat / 256,
                (8 - (i + 1)) as nat,
            ));
        }
        n = n / 256;
        i = i + 1;
    }
    proof {
        assert(le_bytes(n as nat, 0) =~= Seq::<u8>::empty());
        assert(dst@ + Seq::<u8>::empty() =~= dst@);
    }
}

/// Reads eight little-endian bytes.
pub fn read_u64(src: &Vec<u8>, pos: &mut usize) -> (r: Option<u64>)
    ensures
        (r matches Some(x) ==> *old(pos) + 8 <= src@.len() && *final(pos) == *old(pos) + 8
            && src@.subrange(*old(pos) as int, *old(pos) + 8) == le_bytes(x as nat, 8)),
        r is None ==> *final(pos) == *old(pos) && *old(pos) + 8 > src@.len(),
{
    let p = *pos;
    if src.len() < 8 || p > src.len() - 8 {
        return None;
    }
    let slen = src.len();
    let mut acc: u64 = 0;
    let mut i: usize = 8;
    proof {
        lemma_pow256_vals();
        vstd::arithmetic::power::lemma_pow0(256);
        assert(src@.subrange(p + 8 as int, p + 8 as int) =~= Seq::<u8>::empty());
    }
    while i > 0
        invariant
            i <= 8,
            p + 8 <= slen,
            slen == src@.len(),
            acc as nat == le_val(src@.subrange(p + i as int, p + 8 as int)),
            acc < vstd::arithmetic::power::pow(256, (8 - i) as nat),
        decreases i,
    {
        proof {
            lemma_pow256_vals();
            vstd::arithmetic::power::lemma_pow_adds(256, (8 - i) as nat, 1);
            vstd::arithmetic::power::lemma_pow1(256);
            vstd::arithmetic::power::lemma_pow_increases(256, (8 - i + 1) as nat, 8);
            assert(acc * 256 + 255 < vstd::arithmetic::power::pow(256, (8 - i + 1) as nat))
                by (nonlinear_arith)
                requires
                    acc < vstd::arithmetic::power::pow(256, (8 - i) as nat),
                    vstd::arithmetic::power::pow(256, (8 - i + 1) as nat)
                        == vstd::arithmetic::power::pow(256, (8 - i) as nat)
                        * vstd::arithmetic::power::pow(256, 1),
                    vstd::arithmetic::power::pow(256, 1) == 256,
            ;
        }
        let b = src[p + i - 1];
        acc = acc * 256 + b as u64;
        proof {
            let sub = src@.subrange(p + i - 1 as int, p + 8 as int);
            assert(sub.first() == src@[p + i - 1]);
            assert(sub.drop_first() =~= src@.subrange(p + i as int, p + 8 as int));
        }
        i = i - 1;
    }
    *pos = p + 8;
    proof {
        assert(src@.subrange(p as int, p + 8 as int) =~= le_bytes(acc as nat, 8)) by {
            lemma_le_bytes_of_val(src@.subrange(p as int, p + 8 as int));
        }
    }
    Some(acc)
}

/// Little-endian bytes of the value of a byte string give back the string.
pub proof fn lemma_le_bytes_of_val(s: Seq<u8>)
    ensures
        le_bytes(le_val(s), s.len()) == s,
    decreases s.len(),
{
    if s.len() > 0 {
        lemma_le_bytes_of_val(s.drop_first());
        assert(le_val(s) == s.first() + 256 * le_val(s.drop_first()));
        assert(le_val(s) % 256 == s.first() && le_val(s) / 256 == le_val(s.drop_first()))
            by (nonlinear_arith)
            requires
                le_val(s) == s.first() + 256 * le_val(s.drop_first()),
                s.first() < 256,
        ;
        assert(le_bytes(le_val(s), s.len()) =~= s);
    }
}

/// A length-prefixed byte string.
pub open spec fn enc_bytes(v: Seq<u8>) -> Seq<u8> {
    le_bytes(v.len(), 8) + v
}

pub fn write_bytes(dst: &mut Vec<u8>, v: &Vec<u8>)
    ensures
        final(dst)@ == old(dst)@ + enc_bytes(v@),
{
    write_u64(dst, v.len() as u64);
    append_bytes(dst, v);
    proof {
        assert((old(dst)@ + le_bytes(v@.len(), 8)) + v@ =~= old(dst)@ + enc_bytes(v@));
    }
}

pub fn read_bytes(src: &Vec<u8>, pos: &mut usize) -> (r: Option<Vec<u8>>)
    ensures
        (r matches Some(v) ==> *old(pos) <= *final(pos) <= src@.len() && src@.subrange(
            *old(pos) as int,
            *final(pos) as int,
        ) == enc_bytes(v@) && *final(pos) == *old(pos) + 8 + v@.len() && v@.len() <= usize::MAX),
        r is None ==> *final(pos) == *old(pos) && (*old(pos) + 8 > src@.len() || le_val(
            src@.subrange(*old(pos) as int, *old(pos) + 8),
        ) > usize::MAX || *old(pos) + 8 + le_val(src@.subrange(*old(pos) as int, *old(pos) + 8))
            > src@.len()),
{
    let p0 = *pos;
    let n = match read_u64(src, pos) {
        Some(n) => n,
        None => {
            return None;
        },
    };
    let start = *pos;
    proof {
        lemma_pow256_vals();
        lemma_le_roundtrip(n as nat, 8);
    }
    if n > (usize::MAX) as u64 {
        *pos = p0;
        return None;
    }
    let n_us = n as usize;
    if n_us > src.len() || start > src.len() - n_us {
        *pos = p0;
        return None;
    }
    let slen = src.len();
    let mut v: Vec<u8> = Vec::new();
    let mut i: usize = 0;
    while i < n_us
        invariant
            i <= n_us,
            start + n_us <= slen,
            slen == src@.len(),
            v@ == src@.subrange(start as int, start + i as int),
        decreases n_us - i,
    {
        v.push(src[start + i]);
        proof {
            assert(src@.subrange(start as int, start + i + 1 as int) =~= src@.subrange(
                start as int,
                start + i as int,
            ).push(src@[start + i]));
        }
        i = i + 1;
    }
    *pos = start + n_us;
    proof {
        assert(src@.subrange(p0 as int, (start + n_us) as int) =~= le_bytes(n as nat, 8)
            + src@.subrange(start as int, (start + n_us) as int));
        lemma_le_bytes_len(v@.len(), 8);
        assert(le_bytes(n as nat, 8) == le_bytes(v@.len(), 8));
    }
    Some(v)
}

/// Length-prefixed byte strings parse unambiguously as stream prefixes.
pub proof fn lemma_enc_bytes_prefix(a: Seq<u8>, b: Seq<u8>, r1: Seq<u8>, r2: Seq<u8>)
    requires
        enc_bytes(a) + r1 == enc_bytes(b) + r2,
        a.len() < vstd::arithmetic::power::pow(256, 8),
        b.len() < vstd::arithmetic::power::pow(256, 8),
    ensures
        a == b,
        r1 == r2,
{
    lemma_le_bytes_len(a.len(), 8);
    lemma_le_bytes_len(b.len(), 8);
    assert((le_bytes(a.len(), 8) + a) + r1 =~= le_bytes(a.len(), 8) + (a + r1));
    assert((le_bytes(b.len(), 8) + b) + r2 =~= le_bytes(b.len(), 8) + (b + r2));
    lemma_le_bytes_prefix(a.len(), b.len(), 8, a + r1, b + r2);
    assert(a =~= (a + r1).subrange(0, a.len() as int));
    assert(b =~= (b + r2).subrange(0, b.len() as int));
    assert(r1 =~= (a + r1).subrange(a.len() as int, (a + r1).len() as int));
    assert(r2 =~= (b + r2).subrange(b.len() as int, (b + r2).len() as int));
}


/// Appends the sixteen little-endian bytes of `x`.
pub fn write_u128(dst: &mut Vec<u8>, x: u128)
    ensures
        final(dst)@ == old(dst)@ + le_bytes(x as nat, 16),
{
    let ghost dst0 = old(dst)@;
    let mut n: u128 = x;
    let mut i: usize = 0;
    proof {
        assert(dst0 + le_bytes(x as nat, 16) =~= dst@ + le_bytes(n as nat, 16));
    }
    while i < 16
        invariant
            i <= 16,
            dst0 + le_bytes(x as nat, 16) == dst@ + le_bytes(n as nat, (16 - i) as nat),
        decreases 16 - i,
    {
        let ghost pre = dst@;
        let b: u8 = (n % 256) as u8;
        dst.push(b);
        proof {
            assert(le_bytes(n as nat, (16 - i) as nat) == seq![(n as nat % 256) as u8] + le_bytes(
                n as nat / 256,
                (16 - (i + 1)) as nat,
            ));
            assert(pre + le_bytes(n as nat, (16 - i) as nat) =~= dst@ + le_bytes(
                n as nat / 256,
                (16 - (i + 1)) as nat,
            ));
        }
        n = n / 256;
        i = i + 1;
    }
    proof {
        assert(le_bytes(n as nat, 0) =~= Seq::<u8>::empty());
        assert(dst@ + Seq::<u8>::empty() =~= dst@);
    }
}

/// Reads sixteen little-endian bytes.
pub fn read_u128(src: &Vec<u8>, pos: &mut usize) -> (r: Option<u128>)
    ensures
        (r matches Some(x) ==> *old(pos) + 16 <= src@.len() && *final(pos) == *old(pos) + 16
            && src@.subrange(*old(pos) as int, *old(pos) + 16) == le_bytes(x as nat, 16)),
        r is None ==> *final(pos) == *old(pos) && *old(pos) + 16 > src@.len(),
{
    let p = *pos;
    if src.len() < 16 || p > src.len() - 16 {
        return None;
    }
    let slen = src.len();
    let mut acc: u128 = 0;
    let mut i: usize = 16;
    proof {
        lemma_pow256_vals();
        vstd::arithmetic::power::lemma_pow0(256);
        assert(src@.subrange(p + 16 as int, p + 16 as int) =~= Seq::<u8>::empty());
    }
    while i > 0
        invariant
            i <= 16,
            p + 16 <= slen,
            slen == src@.len(),
            acc as nat == le_val(src@.subrange(p + i as int, p + 16 as int)),
            acc < vstd::arithmetic::power::pow(256, (16 - i) as nat),
        decreases i,
    {
        proof {
            lemma_pow256_vals();
            vstd::arithmetic::power::lemma_pow_adds(256, (16 - i) as nat, 1);
            vstd::arithmetic::power::lemma_pow1(256);
            vstd::arithmetic::power::lemma_pow_increases(256, (16 - i + 1) as nat, 16);
            assert(acc * 256 + 255 < vstd::arithmetic::power::pow(256, (16 - i + 1) as nat))
                by (nonlinear_arith)
                requires
                    acc < vstd::arithmetic::power::pow(256, (16 - i) as nat),
                    vstd::arithmetic::power::pow(256, (16 - i + 1) as nat)
                        == vstd::arithmetic::power::pow(256, (16 - i) as nat)
                        * vstd::arithmetic::power::pow(256, 1),
                    vstd::arithmetic::power::pow(256, 1) == 256,
            ;
        }
        let b = src[p + i - 1];
        acc = acc * 256 + b as u128;
        proof {
            let sub = src@.subrange(p + i - 1 as int, p + 16 as int);
            assert(sub.first() == src@[p + i - 1]);
            assert(sub.drop_first() =~= src@.subrange(p + i as int, p + 16 as int));
        }
        i = i - 1;
    }
    *pos = p + 16;
    proof {
        assert(src@.subrange(p as int, p + 16 as int) =~= le_bytes(acc as nat, 16)) by {
            lemma_le_bytes_of_val(src@.subrange(p as int, p + 16 as int));
        }
    }
    Some(acc)
}

pub open spec fn enc_u64(x: u64) -> Seq<u8> {
    le_bytes(x as nat, 8)
}

pub open spec fn enc_u128(x: u128) -> Seq<u8> {
    le_bytes(x as nat, 16)
}

pub open spec fn enc_u256(x: U256) -> Seq<u8> {
    enc_u64(x.w0) + enc_u64(x.w1) + enc_u64(x.w2) + enc_u64(x.w3)
}

pub fn write_u256(dst: &mut Vec<u8>, x: &U256)
    ensures
        final(dst)@ == old(dst)@ + enc_u256(*x),
{
    write_u64(dst, x.w0);
    write_u64(dst, x.w1);
    write_u64(dst, x.w2);
    write_u64(dst, x.w3);
    proof {
        assert(final(dst)@ =~= old(dst)@ + enc_u256(*x));
    }
}

pub fn read_u256(src: &Vec<u8>, pos: &mut usize) -> (r: Option<U256>)
    ensures
        (r matches Some(x) ==> *old(pos) <= *final(pos) <= src@.len() && *final(pos) == *old(
            pos,
        ) + 32 && src@.subrange(*old(pos) as int, *final(pos) as int) == enc_u256(x)),
        r is None ==> *final(pos) == *old(pos) && *old(pos) + 32 > src@.len(),
{
    let p0 = *pos;
    let w0 = match read_u64(src, pos) {
        Some(w) => w,
        None => {
            return None;
        },
    };
    let w1 = match read_u64(src, pos) {
        Some(w) => w,
        None => {
            *pos = p0;
            return None;
        },
    };
    let w2 = match read_u64(src, pos) {
        Some(w) => w,
        None => {
            *pos = p0;
            return None;
        },
    };
    let w3 = match read_u64(src, pos) {
        Some(w) => w,
        None => {
            *pos = p0;
            return None;
        },
    };
    let r = U256 { w0, w1, w2, w3 };
    proof {
        assert(src@.subrange(p0 as int, *pos as int) =~= enc_u256(r));
    }
    Some(r)
}

/// The eight-plus-eight-byte prefix of two equal streams carries equal
/// 64-bit values.
pub proof fn lemma_enc_u64_prefix(a: u64, b: u64, r1: Seq<u8>, r2: Seq<u8>)
    requires
        enc_u64(a) + r1 == enc_u64(b) + r2,
    ensures
        a == b,
        r1 == r2,
{
    lemma_pow256_vals();
    lemma_le_bytes_prefix(a as nat, b as nat, 8, r1, r2);
}

pub proof fn lemma_enc_u128_prefix(a: u128, b: u128, r1: Seq<u8>, r2: Seq<u8>)
    requires
        enc_u128(a) + r1 == enc_u128(b) + r2,
    ensures
        a == b,
        r1 == r2,
{
    lemma_pow256_vals();
    lemma_le_bytes_prefix(a as nat, b as nat, 16, r1, r2);
}

pub proof fn lemma_enc_u256_prefix(a: U256, b: U256, r1: Seq<u8>, r2: Seq<u8>)
    requires
        enc_u256(a) + r1 == enc_u256(b) + r2,
    ensures
        a == b,
        r1 == r2,
{
    assert(enc_u64(a.w0) + (enc_u64(a.w1) + (enc_u64(a.w2) + (enc_u64(a.w3) + r1)))
        =~= enc_u256(a) + r1);
    assert(enc_u64(b.w0) + (enc_u64(b.w1) + (enc_u64(b.w2) + (enc_u64(b.w3) + r2)))
        =~= enc_u256(b) + r2);
    lemma_enc_u64_prefix(a.w0, b.w0, enc_u64(a.w1) + (enc_u64(a.w2) + (enc_u64(a.w3) + r1)), enc_u64(
        b.w1,
    ) + (enc_u64(b.w2) + (enc_u64(b.w3) + r2)));
    lemma_enc_u64_prefix(a.w1, b.w1, enc_u64(a.w2) + (enc_u64(a.w3) + r1), enc_u64(b.w2) + (enc_u64(
        b.w3,
    ) + r2));
    lemma_enc_u64_prefix(a.w2, b.w2, enc_u64(a.w3) + r1, enc_u64(b.w3) + r2);
    lemma_enc_u64_prefix(a.w3, b.w3, r1, r2);
}

/// Items laid out one after another, oldest first.
pub open spec fn enc_list<T>(s: Seq<T>, f: spec_fn(T) -> Seq<u8>) -> Seq<u8>
    decreases s.len(),
{
    if s.len() == 0 {
        Seq::empty()
    } else {
        enc_list(s.drop_last(), f) + f(s.last())
    }
}

pub proof fn lemma_enc_list_cons<T>(s: Seq<T>, f: spec_fn(T) -> Seq<u8>)
    requires
        s.len() > 0,
    ensures
        enc_list(s, f) == f(s.first()) + enc_list(s.drop_first(), f),
    decreases s.len(),
{
    if s.len() == 1 {
        assert(s.drop_last() =~= Seq::<T>::empty());
        assert(s.drop_first() =~= Seq::<T>::empty());
        assert(Seq::<u8>::empty() + f(s.last()) =~= f(s.first()) + Seq::<u8>::empty());
    } else {
        lemma_enc_list_cons(s.drop_last(), f);
        assert(s.drop_last().first() == s.first());
        assert(s.drop_last().drop_first() =~= s.drop_first().drop_last());
        assert(s.drop_first().last() == s.last());
        assert((f(s.first()) + enc_list(s.drop_first().drop_last(), f)) + f(s.last()) =~= f(
            s.first(),
        ) + (enc_list(s.drop_first().drop_last(), f) + f(s.last())));
    }
}

/// Encodings of items satisfying `p` parse unambiguously as stream
/// prefixes.
pub open spec fn prefix_inj_on<T>(
    f: spec_fn(T) -> Seq<u8>,
    eq: spec_fn(T, T) -> bool,
    p: spec_fn(T) -> bool,
) -> bool {
    forall|a: T, b: T, r1: Seq<u8>, r2: Seq<u8>|
        p(a) && p(b) && #[trigger] (f(a) + r1) == #[trigger] (f(b) + r2) ==> eq(a, b) && r1 == r2
}

/// Equal-length item lists with unambiguous item encodings and equal
/// stream prefixes are item-wise equal.
pub proof fn lemma_enc_list_prefix<T>(
    xs: Seq<T>,
    ys: Seq<T>,
    f: spec_fn(T) -> Seq<u8>,
    eq: spec_fn(T, T) -> bool,
    p: spec_fn(T) -> bool,
    r1: Seq<u8>,
    r2: Seq<u8>,
)
    requires
        prefix_inj_on(f, eq, p),
        forall|i: int| 0 <= i < xs.len() ==> p(#[trigger] xs[i]),
        forall|i: int| 0 <= i < ys.len() ==> p(#[trigger] ys[i]),
        xs.len() == ys.len(),
        enc_list(xs, f) + r1 == enc_list(ys, f) + r2,
    ensures
        forall|i: int| 0 <= i < xs.len() ==> eq(xs[i], #[trigger] ys[i]),
        r1 == r2,
    decreases xs.len(),
{
    if xs.len() == 0 {
        assert(enc_list(xs, f) =~= Seq::<u8>::empty());
        assert(enc_list(ys, f) =~= Seq::<u8>::empty());
        assert(Seq::<u8>::empty() + r1 =~= r1);
        assert(Seq::<u8>::empty() + r2 =~= r2);
    } else {
        lemma_enc_list_cons(xs, f);
        lemma_enc_list_cons(ys, f);
        assert((f(xs.first()) + enc_list(xs.drop_first(), f)) + r1 =~= f(xs.first()) + (enc_list(
            xs.drop_first(),
            f,
        ) + r1));
        assert((f(ys.first()) + enc_list(ys.drop_first(), f)) + r2 =~= f(ys.first()) + (enc_list(
            ys.drop_first(),
            f,
        ) + r2));
        assert(p(xs[0]) && p(ys[0]));
        assert(eq(xs.first(), ys.first()) && enc_list(xs.drop_first(), f) + r1 == enc_list(
            ys.drop_first(),
            f,
        ) + r2);
        assert forall|i: int| 0 <= i < xs.drop_first().len() implies p(
            #[trigger] xs.drop_first()[i],
        ) by {
            assert(xs.drop_first()[i] == xs[i + 1]);
        }
        assert forall|i: int| 0 <= i < ys.drop_first().len() implies p(
            #[trigger] ys.drop_first()[i],
        ) by {
            assert(ys.drop_first()[i] == ys[i + 1]);
        }
        lemma_enc_list_prefix(xs.drop_first(), ys.drop_first(), f, eq, p, r1, r2);
        assert forall|i: int| 0 <= i < xs.len() implies eq(xs[i], #[trigger] ys[i]) by {
            if i > 0 {
                assert(eq(xs.drop_first()[i - 1], ys.drop_first()[i - 1]));
            }
        }
    }
}

pub open spec fn p64n() -> nat {
    0x1_0000_0000_0000_0000nat
}

pub open spec fn enc_tx(t: Transaction) -> Seq<u8> {
    enc_bytes(t.public_key_from@) + enc_bytes(t.public_key_to@) + enc_u256(t.amount) + enc_u256(
        t.fee,
    ) + enc_u128(t.nonce)
}

pub open spec fn tx_bounded(t: Transaction) -> bool {
    t.public_key_from@.len() < p64n() && t.public_key_to@.len() < p64n()
}

pub fn write_tx(dst: &mut Vec<u8>, t: &Transaction)
    ensures
        final(dst)@ == old(dst)@ + enc_tx(*t),
        tx_bounded(*t),
        t.public_key_from@.len() <= usize::MAX,
        t.public_key_to@.len() <= usize::MAX,
{
    proof {
        lemma_pow256_vals();
    }
    let _from_len = t.public_key_from.len();
    let _to_len = t.public_key_to.len();
    write_bytes(dst, &t.public_key_from);
    write_bytes(dst, &t.public_key_to);
    write_u256(dst, &t.amount);
    write_u256(dst, &t.fee);
    write_u128(dst, t.nonce);
    proof {
        assert(final(dst)@ =~= old(dst)@ + enc_tx(*t));
    }
}

pub proof fn lemma_enc_u256_len(x: U256)
    ensures
        enc_u256(x).len() == 32,
{
    lemma_le_bytes_len(x.w0 as nat, 8);
    lemma_le_bytes_len(x.w1 as nat, 8);
    lemma_le_bytes_len(x.w2 as nat, 8);
    lemma_le_bytes_len(x.w3 as nat, 8);
}

/// Trigger marker for parse-prefix witnesses.
pub open spec fn parse_witness<T, R>(t: T, rest: R) -> bool {
    true
}

/// Some transaction with machine-representable key lengths has its
/// encoding at the head of the stream.
pub open spec fn tx_prefix(s: Seq<u8>) -> bool {
    exists|t: Transaction, rest: Seq<u8>|
        #![trigger parse_witness(t, rest)]
        {
            &&& parse_witness(t, rest)
            &&& t.public_key_from@.len() <= usize::MAX
            &&& t.public_key_to@.len() <= usize::MAX
            &&& s == enc_tx(t) + rest
        }
}

/// If a transaction encoding heads the stream at `p0`, the first field is
/// readable and the rest of the fields follow it.
proof fn lemma_tx_prefix_shape(src: Seq<u8>, p0: int, t: Transaction, rest: Seq<u8>)
    requires
        0 <= p0 <= src.len(),
        t.public_key_from@.len() <= usize::MAX,
        src.subrange(p0, src.len() as int) == enc_tx(t) + rest,
    ensures
        p0 + 8 + t.public_key_from@.len() <= src.len(),
        src.subrange(p0, p0 + 8) == le_bytes(t.public_key_from@.len(), 8),
        le_val(src.subrange(p0, p0 + 8)) == t.public_key_from@.len(),
        src.subrange(p0, p0 + 8 + t.public_key_from@.len() as int) == enc_bytes(
            t.public_key_from@,
        ),
        src.subrange(p0 + 8 + t.public_key_from@.len() as int, src.len() as int) == enc_bytes(
            t.public_key_to@,
        ) + (enc_u256(t.amount) + (enc_u256(t.fee) + (enc_u128(t.nonce) + rest))),
        src.subrange(p0, src.len() as int) == enc_bytes(t.public_key_from@) + (enc_bytes(
            t.public_key_to@,
        ) + (enc_u256(t.amount) + (enc_u256(t.fee) + (enc_u128(t.nonce) + rest)))),
{
    lemma_pow256_vals();
    let n = src.len() as int;
    let stream = src.subrange(p0, n);
    let f = t.public_key_from@;
    let e1 = enc_bytes(f);
    let e2 = enc_bytes(t.public_key_to@);
    let e3 = enc_u256(t.amount);
    let e4 = enc_u256(t.fee);
    let e5 = enc_u128(t.nonce);
    let tail = e2 + (e3 + (e4 + (e5 + rest)));
    lemma_cat_assoc((((e1 + e2) + e3) + e4), e5, rest);
    lemma_cat_assoc(((e1 + e2) + e3), e4, e5 + rest);
    lemma_cat_assoc((e1 + e2), e3, e4 + (e5 + rest));
    lemma_cat_assoc(e1, e2, e3 + (e4 + (e5 + rest)));
    assert(stream == e1 + tail);
    lemma_le_bytes_len(f.len(), 8);
    assert(e1 == le_bytes(f.len(), 8) + f);
    assert(stream.len() >= 8 + f.len());
    assert(src.subrange(p0, p0 + 8) =~= le_bytes(f.len(), 8)) by {
        lemma_cat_assoc(le_bytes(f.len(), 8), f, tail);
        assert(stream == le_bytes(f.len(), 8) + (f + tail));
    }
    lemma_le_roundtrip(f.len(), 8);
    assert(src.subrange(p0, p0 + 8 + f.len() as int) =~= e1);
    assert forall|i: int|
        0 <= i < tail.len() implies src.subrange(p0 + 8 + f.len() as int, n)[i] == tail[i] by {
        assert(stream[8 + f.len() + i] == (e1 + tail)[8 + f.len() + i]);
    }
    assert(src.subrange(p0 + 8 + f.len() as int, n) =~= tail);
}

#[verifier::rlimit(100)]
#[verifier::spinoff_prover]
pub fn read_tx(src: &Vec<u8>, pos: &mut usize) -> (r: Option<Transaction>)
    ensures
        (r matches Some(t) ==> *old(pos) <= *final(pos) <= src@.len() && src@.subrange(
            *old(pos) as int,
            *final(pos) as int,
        ) == enc_tx(t) && tx_bounded(t) && t.public_key_from@.len() <= usize::MAX
            && t.public_key_to@.len() <= usize::MAX),
        r is None ==> *final(pos) == *old(pos) && (*old(pos) <= src@.len() ==> !tx_prefix(
            src@.subrange(*old(pos) as int, src@.len() as int),
        )),
{
    proof {
        lemma_pow256_vals();
    }
    let p0 = *pos;
    let ghost n = src@.len() as int;
    let ghost stream = src@.subrange(p0 as int, n);
    let public_key_from = match read_bytes(src, pos) {
        Some(v) => v,
        None => {
            proof {
                if p0 as int <= n {
                    assert(!tx_prefix(stream)) by {
                        if tx_prefix(stream) {
                            let (t2, rest) = choose|t2: Transaction, rest: Seq<u8>|
                                #![trigger parse_witness(t2, rest)]
                                {
                                    &&& parse_witness(t2, rest)
                                    &&& t2.public_key_from@.len() <= usize::MAX
                                    &&& t2.public_key_to@.len() <= usize::MAX
                                    &&& stream == enc_tx(t2) + rest
                                };
                            lemma_tx_prefix_shape(src@, p0 as int, t2, rest);
                            assert(false);
                        }
                    }
                }
            }
            return None;
        },
    };
    let ghost pos1 = *pos as int;
    let public_key_to = match read_bytes(src, pos) {
        Some(v) => v,
        None => {
            proof {
                assert(!tx_prefix(stream)) by {
                    if tx_prefix(stream) {
                        let (t2, rest) = choose|t2: Transaction, rest: Seq<u8>|
                            #![trigger parse_witness(t2, rest)]
                            {
                                &&& parse_witness(t2, rest)
                                &&& t2.public_key_from@.len() <= usize::MAX
                                &&& t2.public_key_to@.len() <= usize::MAX
                                &&& stream == enc_tx(t2) + rest
                            };
                        lemma_tx_prefix_shape(src@, p0 as int, t2, rest);
                        let tail1 = enc_u256(t2.amount) + (enc_u256(t2.fee) + (enc_u128(t2.nonce)
                            + rest));
                        assert(src@.subrange(p0 as int, n) =~= src@.subrange(p0 as int, pos1)
                            + src@.subrange(pos1, n));
                        lemma_enc_bytes_prefix(
                            public_key_from@,
                            t2.public_key_from@,
                            src@.subrange(pos1, n),
                            enc_bytes(t2.public_key_to@) + tail1,
                        );
                        lemma_tx_prefix_shape_to(src@, pos1, t2, rest);
                        assert(false);
                    }
                }
            }
            *pos = p0;
            return None;
        },
    };
    let ghost pos2 = *pos as int;
    let amount = match read_u256(src, pos) {
        Some(v) => v,
        None => {
            proof {
                assert(!tx_prefix(stream)) by {
                    if tx_prefix(stream) {
                        let (t2, rest) = choose|t2: Transaction, rest: Seq<u8>|
                            #![trigger parse_witness(t2, rest)]
                            {
                                &&& parse_witness(t2, rest)
                                &&& t2.public_key_from@.len() <= usize::MAX
                                &&& t2.public_key_to@.len() <= usize::MAX
                                &&& stream == enc_tx(t2) + rest
                            };
                        lemma_tx_prefix_shape(src@, p0 as int, t2, rest);
                        let tail1 = enc_u256(t2.amount) + (enc_u256(t2.fee) + (enc_u128(t2.nonce)
                            + rest));
                        assert(src@.subrange(p0 as int, n) =~= src@.subrange(p0 as int, pos1)
                            + src@.subrange(pos1, n));
                        lemma_enc_bytes_prefix(
                            public_key_from@,
                            t2.public_key_from@,
                            src@.subrange(pos1, n),
                            enc_bytes(t2.public_key_to@) + tail1,
                        );
                        lemma_tx_prefix_shape_to(src@, pos1, t2, rest);
                        assert(src@.subrange(pos1, n) =~= src@.subrange(pos1, pos2)
                            + src@.subrange(pos2, n));
                        lemma_enc_bytes_prefix(
                            public_key_to@,
                            t2.public_key_to@,
                            src@.subrange(pos2, n),
                            tail1,
                        );
                        lemma_enc_u256_len(t2.amount);
                        assert(src@.subrange(pos2, n).len() >= 32);
                        assert(false);
                    }
                }
            }
            *pos = p0;
            return None;
        },
    };
    let ghost pos3 = *pos as int;
    let fee = match read_u256(src, pos) {
        Some(v) => v,
        None => {
            proof {
                assert(!tx_prefix(stream)) by {
                    if tx_prefix(stream) {
                        let (t2, rest) = choose|t2: Transaction, rest: Seq<u8>|
                            #![trigger parse_witness(t2, rest)]
                            {
                                &&& parse_witness(t2, rest)
                                &&& t2.public_key_from@.len() <= usize::MAX
                                &&& t2.public_key_to@.len() <= usize::MAX
                                &&& stream == enc_tx(t2) + rest
                            };
                        lemma_tx_prefix_shape(src@, p0 as int, t2, rest);
                        let tail1 = enc_u256(t2.amount) + (enc_u256(t2.fee) + (enc_u128(t2.nonce)
                            + rest));
                        assert(src@.subrange(p0 as int, n) =~= src@.subrange(p0 as int, pos1)
                            + src@.subrange(pos1, n));
                        lemma_enc_bytes_prefix(
                            public_key_from@,
                            t2.public_key_from@,
                            src@.subrange(pos1, n),
                            enc_bytes(t2.public_key_to@) + tail1,
                        );
                        lemma_tx_prefix_shape_to(src@, pos1, t2, rest);
                        assert(src@.subrange(pos1, n) =~= src@.subrange(pos1, pos2)
                            + src@.subrange(pos2, n));
                        lemma_enc_bytes_prefix(
                            public_key_to@,
                            t2.public_key_to@,
                            src@.subrange(pos2, n),
                            tail1,
                        );
                        assert(src@.subrange(pos2, n) =~= src@.subrange(pos2, pos3)
                            + src@.subrange(pos3, n));
                        lemma_enc_u256_prefix(
                            amount,
                            t2.amount,
                            src@.subrange(pos3, n),
                            enc_u256(t2.fee) + (enc_u128(t2.nonce) + rest),
                        );
                        lemma_enc_u256_len(t2.fee);
                        assert(src@.subrange(pos3, n).len() >= 32);
                        assert(false);
                    }
                }
            }
            *pos = p0;
            return None;
        },
    };
    let ghost pos4 = *pos as int;
    let nonce = match read_u128(src, pos) {
        Some(v) => v,
        None => {
            proof {
                assert(!tx_prefix(stream)) by {
                    if tx_prefix(stream) {
                        let (t2, rest) = choose|t2: Transaction, rest: Seq<u8>|
                            #![trigger parse_witness(t2, rest)]
                            {
                                &&& parse_witness(t2, rest)
                                &&& t2.public_key_from@.len() <= usize::MAX
                                &&& t2.public_key_to@.len() <= usize::MAX
                                &&& stream == enc_tx(t2) + rest
                            };
                        lemma_tx_prefix_shape(src@, p0 as int, t2, rest);
                        let tail1 = enc_u256(t2.amount) + (enc_u256(t2.fee) + (enc_u128(t2.nonce)
                            + rest));
                        assert(src@.subrange(p0 as int, n) =~= src@.subrange(p0 as int, pos1)
                            + src@.subrange(pos1, n));
                        lemma_enc_bytes_prefix(
                            public_key_from@,
                            t2.public_key_from@,
                            src@.subrange(pos1, n),
                            enc_bytes(t2.public_key_to@) + tail1,
                        );
                        lemma_tx_prefix_shape_to(src@, pos1, t2, rest);
                        assert(src@.subrange(pos1, n) =~= src@.subrange(pos1, pos2)
                            + src@.subrange(pos2, n));
                        lemma_enc_bytes_prefix(
                            public_key_to@,
                            t2.public_key_to@,
                            src@.subrange(pos2, n),
                            tail1,
                        );
                        assert(src@.subrange(pos2, n) =~= src@.subrange(pos2, pos3)
                            + src@.subrange(pos3, n));
                        lemma_enc_u256_prefix(
                            amount,
                            t2.amount,
                            src@.subrange(pos3, n),
                            enc_u256(t2.fee) + (enc_u128(t2.nonce) + rest),
                        );
                        assert(src@.subrange(pos3, n) =~= src@.subrange(pos3, pos4)
                            + src@.subrange(pos4, n));
                        lemma_enc_u256_prefix(
                            fee,
                            t2.fee,
                            src@.subrange(pos4, n),
                            enc_u128(t2.nonce) + rest,
                        );
                        lemma_le_bytes_len(t2.nonce as nat, 16);
                        assert(src@.subrange(pos4, n).len() >= 16);
                        assert(false);
                    }
                }
            }
            *pos = p0;
            return None;
        },
    };
    let t = Transaction { public_key_from, public_key_to, amount, fee, nonce };
    proof {
        assert(src@.subrange(p0 as int, *pos as int) =~= enc_tx(t));
    }
    Some(t)
}

/// Companion to `lemma_tx_prefix_shape` for the second key field.
proof fn lemma_tx_prefix_shape_to(src: Seq<u8>, p1: int, t: Transaction, rest: Seq<u8>)
    requires
        0 <= p1 <= src.len(),
        t.public_key_to@.len() <= usize::MAX,
        src.subrange(p1, src.len() as int) == enc_bytes(t.public_key_to@) + (enc_u256(t.amount)
            + (enc_u256(t.fee) + (enc_u128(t.nonce) + rest))),
    ensures
        p1 + 8 + t.public_key_to@.len() <= src.len(),
        src.subrange(p1, p1 + 8) == le_bytes(t.public_key_to@.len(), 8),
        le_val(src.subrange(p1, p1 + 8)) == t.public_key_to@.len(),
{
    lemma_pow256_vals();
    let n = src.len() as int;
    let f = t.public_key_to@;
    let tail = enc_u256(t.amount) + (enc_u256(t.fee) + (enc_u128(t.nonce) + rest));
    assert(src.subrange(p1, n) =~= enc_bytes(f) + tail);
    lemma_le_bytes_len(f.len(), 8);
    assert(src.subrange(p1, p1 + 8) =~= le_bytes(f.len(), 8));
    lemma_le_roundtrip(f.len(), 8);
}

pub proof fn lemma_enc_tx_prefix(a: Transaction, b: Transaction, r1: Seq<u8>, r2: Seq<u8>)
    requires
        enc_tx(a) + r1 == enc_tx(b) + r2,
        tx_bounded(a),
        tx_bounded(b),
    ensures
        a@ == b@,
        r1 == r2,
{
    lemma_pow256_vals();
    let ra1 = enc_bytes(a.public_key_to@) + (enc_u256(a.amount) + (enc_u256(a.fee) + (enc_u128(
        a.nonce,
    ) + r1)));
    let rb1 = enc_bytes(b.public_key_to@) + (enc_u256(b.amount) + (enc_u256(b.fee) + (enc_u128(
        b.nonce,
    ) + r2)));
    assert(enc_bytes(a.public_key_from@) + ra1 =~= enc_tx(a) + r1);
    assert(enc_bytes(b.public_key_from@) + rb1 =~= enc_tx(b) + r2);
    lemma_enc_bytes_prefix(a.public_key_from@, b.public_key_from@, ra1, rb1);
    lemma_enc_bytes_prefix(
        a.public_key_to@,
        b.public_key_to@,
        enc_u256(a.amount) + (enc_u256(a.fee) + (enc_u128(a.nonce) + r1)),
        enc_u256(b.amount) + (enc_u256(b.fee) + (enc_u128(b.nonce) + r2)),
    );
    lemma_enc_u256_prefix(
        a.amount,
        b.amount,
        enc_u256(a.fee) + (enc_u128(a.nonce) + r1),
        enc_u256(b.fee) + (enc_u128(b.nonce) + r2),
    );
    lemma_enc_u256_prefix(a.fee, b.fee, enc_u128(a.nonce) + r1, enc_u128(b.nonce) + r2);
    lemma_enc_u128_prefix(a.nonce, b.nonce, r1, r2);
}

impl Transaction {
    /// The transaction's byte form.
    pub fn serialize(&self) -> (r: Vec<u8>)
        ensures
            r@ == enc_tx(*self),
    {
        let mut out: Vec<u8> = Vec::new();
        write_tx(&mut out, self);
        proof {
            assert(out@ =~= enc_tx(*self));
        }
        out
    }

    /// Parses a transaction's byte form; the whole input must be one
    /// transaction, and any byte string that is one parses.
    pub fn deseralize(serialized_tx: &Vec<u8>) -> (r: Option<Transaction>)
        ensures
            (r matches Some(t) ==> serialized_tx@ == enc_tx(t)),
            (exists|t: Transaction|
                #![trigger parse_witness(t, serialized_tx@)]
                parse_witness(t, serialized_tx@) && t.public_key_from@.len() <= usize::MAX
                    && t.public_key_to@.len() <= usize::MAX && serialized_tx@ == enc_tx(t))
                ==> r is Some,
    {
        let ghost n = serialized_tx@.len() as int;
        let mut pos: usize = 0;
        let t = match read_tx(serialized_tx, &mut pos) {
            Some(t) => t,
            None => {
                proof {
                    if exists|t3: Transaction|
                        #![trigger parse_witness(t3, serialized_tx@)]
                        parse_witness(t3, serialized_tx@) && t3.public_key_from@.len()
                            <= usize::MAX && t3.public_key_to@.len() <= usize::MAX
                            && serialized_tx@ == enc_tx(t3) {
                        let t3 = choose|t3: Transaction|
                            #![trigger parse_witness(t3, serialized_tx@)]
                            parse_witness(t3, serialized_tx@) && t3.public_key_from@.len()
                                <= usize::MAX && t3.public_key_to@.len() <= usize::MAX
                                && serialized_tx@ == enc_tx(t3);
                        let stream = serialized_tx@.subrange(0, n);
                        assert(stream =~= serialized_tx@);
                        assert(stream =~= enc_tx(t3) + Seq::<u8>::empty());
                        assert(parse_witness(t3, Seq::<u8>::empty()));
                        assert(tx_prefix(stream));
                        assert(false);
                    }
                }
                return None;
            },
        };
        if pos != serialized_tx.len() {
            proof {
                if exists|t3: Transaction|
                    #![trigger parse_witness(t3, serialized_tx@)]
                    parse_witness(t3, serialized_tx@) && t3.public_key_from@.len() <= usize::MAX
                        && t3.public_key_to@.len() <= usize::MAX && serialized_tx@ == enc_tx(t3) {
                    let t3 = choose|t3: Transaction|
                        #![trigger parse_witness(t3, serialized_tx@)]
                        parse_witness(t3, serialized_tx@) && t3.public_key_from@.len()
                            <= usize::MAX && t3.public_key_to@.len() <= usize::MAX
                            && serialized_tx@ == enc_tx(t3);
                    lemma_pow256_vals();
                    assert(serialized_tx@ =~= serialized_tx@.subrange(0, pos as int)
                        + serialized_tx@.subrange(pos as int, n));
                    assert(serialized_tx@ =~= enc_tx(t3) + Seq::<u8>::empty());
                    lemma_enc_tx_prefix(
                        t,
                        t3,
                        serialized_tx@.subrange(pos as int, n),
                        Seq::<u8>::empty(),
                    );
                    assert(serialized_tx@.subrange(pos as int, n).len() == 0);
                    assert(false);
                }
            }
            return None;
        }
        proof {
            assert(serialized_tx@.subrange(0, pos as int) =~= serialized_tx@);
        }
        Some(t)
    }
}

pub open spec fn enc_header(h: Header) -> Seq<u8> {
    enc_u64(h.nonce) + enc_u64(h.timestamp) + enc_bytes(h.prev_hash@) + enc_u256(h.difficulty)
        + enc_bytes(h.merkle_root@)
}

pub open spec fn header_bounded(h: Header) -> bool {
    h.prev_hash@.len() < p64n() && h.merkle_root@.len() < p64n()
}

pub fn write_header(dst: &mut Vec<u8>, h: &Header)
    ensures
        final(dst)@ == old(dst)@ + enc_header(*h),
        header_bounded(*h),
        h.prev_hash@.len() <= usize::MAX,
        h.merkle_root@.len() <= usize::MAX,
{
    proof {
        lemma_pow256_vals();
    }
    let _prev_len = h.prev_hash.len();
    let _root_len = h.merkle_root.len();
    write_u64(dst, h.nonce);
    write_u64(dst, h.timestamp);
    write_bytes(dst, &h.prev_hash);
    write_u256(dst, &h.difficulty);
    write_bytes(dst, &h.merkle_root);
    proof {
        assert(final(dst)@ =~= old(dst)@ + enc_header(*h));
    }
}


/// Splits a stream whose head is a known byte string.
proof fn lemma_fixed_prefix_shape(src: Seq<u8>, p: int, item: Seq<u8>, rest: Seq<u8>)
    requires
        0 <= p <= src.len(),
        src.subrange(p, src.len() as int) == item + rest,
    ensures
        p + item.len() <= src.len(),
        src.subrange(p, p + item.len() as int) == item,
        src.subrange(p + item.len() as int, src.len() as int) == rest,
{
    let n = src.len() as int;
    let stream = src.subrange(p, n);
    assert(stream.len() == item.len() + rest.len());
    assert forall|i: int|
        0 <= i < item.len() implies src.subrange(p, p + item.len() as int)[i] == item[i] by {
        assert(stream[i] == (item + rest)[i]);
    }
    assert(src.subrange(p, p + item.len() as int) =~= item);
    assert forall|i: int|
        0 <= i < rest.len() implies src.subrange(p + item.len() as int, n)[i] == rest[i] by {
        assert(stream[item.len() + i] == (item + rest)[item.len() + i]);
    }
    assert(src.subrange(p + item.len() as int, n) =~= rest);
}

/// Splits a stream whose head is a length-prefixed byte string; the length
/// field reads back the string's length.
proof fn lemma_bytes_prefix_shape(src: Seq<u8>, p: int, v: Seq<u8>, rest: Seq<u8>)
    requires
        0 <= p <= src.len(),
        v.len() <= usize::MAX,
        src.subrange(p, src.len() as int) == enc_bytes(v) + rest,
    ensures
        p + 8 + v.len() <= src.len(),
        src.subrange(p, p + 8) == le_bytes(v.len(), 8),
        le_val(src.subrange(p, p + 8)) == v.len(),
        src.subrange(p, p + 8 + v.len() as int) == enc_bytes(v),
        src.subrange(p + 8 + v.len() as int, src.len() as int) == rest,
{
    lemma_pow256_vals();
    lemma_le_bytes_len(v.len(), 8);
    lemma_fixed_prefix_shape(src, p, enc_bytes(v), rest);
    lemma_cat_assoc(le_bytes(v.len(), 8), v, rest);
    assert(src.subrange(p, src.len() as int) == le_bytes(v.len(), 8) + (v + rest));
    lemma_fixed_prefix_shape(src, p, le_bytes(v.len(), 8), v + rest);
    lemma_le_roundtrip(v.len(), 8);
}

/// Some header with machine-representable field lengths has its encoding
/// at the head of the stream.
pub open spec fn header_prefix(s: Seq<u8>) -> bool {
    exists|h: Header, rest: Seq<u8>|
        #![trigger parse_witness(h, rest)]
        {
            &&& parse_witness(h, rest)
            &&& h.prev_hash@.len() <= usize::MAX
            &&& h.merkle_root@.len() <= usize::MAX
            &&& s == enc_header(h) + rest
        }
}

/// The stream positions of each header field, when a header encoding heads
/// the stream.
proof fn lemma_header_prefix_shape(src: Seq<u8>, p0: int, h: Header, rest: Seq<u8>)
    requires
        0 <= p0 <= src.len(),
        h.prev_hash@.len() <= usize::MAX,
        h.merkle_root@.len() <= usize::MAX,
        src.subrange(p0, src.len() as int) == enc_header(h) + rest,
    ensures
        src.subrange(p0 + 8, src.len() as int) == enc_u64(h.timestamp) + (enc_bytes(h.prev_hash@)
            + (enc_u256(h.difficulty) + (enc_bytes(h.merkle_root@) + rest))),
        src.subrange(p0 + 16, src.len() as int) == enc_bytes(h.prev_hash@) + (enc_u256(
            h.difficulty,
        ) + (enc_bytes(h.merkle_root@) + rest)),
        p0 + 16 + 8 + h.prev_hash@.len() <= src.len(),
        le_val(src.subrange(p0 + 16, p0 + 24)) == h.prev_hash@.len(),
        src.subrange(p0 + 24 + h.prev_hash@.len() as int, src.len() as int) == enc_u256(
            h.difficulty,
        ) + (enc_bytes(h.merkle_root@) + rest),
        src.subrange(p0 + 56 + h.prev_hash@.len() as int, src.len() as int) == enc_bytes(
            h.merkle_root@,
        ) + rest,
        p0 + 56 + h.prev_hash@.len() + 8 + h.merkle_root@.len() <= src.len(),
        le_val(
            src.subrange(
                p0 + 56 + h.prev_hash@.len() as int,
                p0 + 64 + h.prev_hash@.len() as int,
            ),
        ) == h.merkle_root@.len(),
        src.subrange(p0 + 16, src.len() as int).len() >= 8,
{
    lemma_pow256_vals();
    let n = src.len() as int;
    let e1 = enc_u64(h.nonce);
    let e2 = enc_u64(h.timestamp);
    let e3 = enc_bytes(h.prev_hash@);
    let e4 = enc_u256(h.difficulty);
    let e5 = enc_bytes(h.merkle_root@);
    lemma_le_bytes_len(h.nonce as nat, 8);
    lemma_le_bytes_len(h.timestamp as nat, 8);
    lemma_enc_u256_len(h.difficulty);
    lemma_cat_assoc((((e1 + e2) + e3) + e4), e5, rest);
    lemma_cat_assoc(((e1 + e2) + e3), e4, e5 + rest);
    lemma_cat_assoc((e1 + e2), e3, e4 + (e5 + rest));
    lemma_cat_assoc(e1, e2, e3 + (e4 + (e5 + rest)));
    assert(src.subrange(p0, n) == e1 + (e2 + (e3 + (e4 + (e5 + rest)))));
    lemma_fixed_prefix_shape(src, p0, e1, e2 + (e3 + (e4 + (e5 + rest))));
    lemma_fixed_prefix_shape(src, p0 + 8, e2, e3 + (e4 + (e5 + rest)));
    lemma_bytes_prefix_shape(src, p0 + 16, h.prev_hash@, e4 + (e5 + rest));
    let pp = p0 + 24 + h.prev_hash@.len() as int;
    lemma_fixed_prefix_shape(src, pp, e4, e5 + rest);
    lemma_bytes_prefix_shape(src, pp + 32, h.merkle_root@, rest);
}

#[verifier::rlimit(100)]
#[verifier::spinoff_prover]
pub fn read_header(src: &Vec<u8>, pos: &mut usize) -> (r: Option<Header>)
    ensures
        (r matches Some(h) ==> *old(pos) <= *final(pos) <= src@.len() && src@.subrange(
            *old(pos) as int,
            *final(pos) as int,
        ) == enc_header(h) && header_bounded(h) && h.prev_hash@.len() <= usize::MAX
            && h.merkle_root@.len() <= usize::MAX),
        r is None ==> *final(pos) == *old(pos) && (*old(pos) <= src@.len() ==> !header_prefix(
            src@.subrange(*old(pos) as int, src@.len() as int),
        )),
{
    proof {
        lemma_pow256_vals();
    }
    let p0 = *pos;
    let ghost n = src@.len() as int;
    let ghost stream = src@.subrange(p0 as int, n);
    let nonce = match read_u64(src, pos) {
        Some(v) => v,
        None => {
            proof {
                if p0 as int <= n {
                    assert(!header_prefix(stream)) by {
                        if header_prefix(stream) {
                            let (h2, rest) = choose|h2: Header, rest: Seq<u8>|
                                #![trigger parse_witness(h2, rest)]
                                {
                                    &&& parse_witness(h2, rest)
                                    &&& h2.prev_hash@.len() <= usize::MAX
                                    &&& h2.merkle_root@.len() <= usize::MAX
                                    &&& stream == enc_header(h2) + rest
                                };
                            lemma_header_prefix_shape(src@, p0 as int, h2, rest);
                            assert(false);
                        }
                    }
                }
            }
            return None;
        },
    };
    let timestamp = match read_u64(src, pos) {
        Some(v) => v,
        None => {
            proof {
                assert(!header_prefix(stream)) by {
                    if header_prefix(stream) {
                        let (h2, rest) = choose|h2: Header, rest: Seq<u8>|
                            #![trigger parse_witness(h2, rest)]
                            {
                                &&& parse_witness(h2, rest)
                                &&& h2.prev_hash@.len() <= usize::MAX
                                &&& h2.merkle_root@.len() <= usize::MAX
                                &&& stream == enc_header(h2) + rest
                            };
                        lemma_header_prefix_shape(src@, p0 as int, h2, rest);
                        assert(false);
                    }
                }
            }
            *pos = p0;
            return None;
        },
    };
    let ghost pos2 = *pos as int;
    let prev_hash = match read_bytes(src, pos) {
        Some(v) => v,
        None => {
            proof {
                assert(!header_prefix(stream)) by {
                    if header_prefix(stream) {
                        let (h2, rest) = choose|h2: Header, rest: Seq<u8>|
                            #![trigger parse_witness(h2, rest)]
                            {
                                &&& parse_witness(h2, rest)
                                &&& h2.prev_hash@.len() <= usize::MAX
                                &&& h2.merkle_root@.len() <= usize::MAX
                                &&& stream == enc_header(h2) + rest
                            };
                        lemma_header_prefix_shape(src@, p0 as int, h2, rest);
                        assert(pos2 == p0 + 16);
                        assert(false);
                    }
                }
            }
            *pos = p0;
            return None;
        },
    };
    let ghost pos3 = *pos as int;
    let difficulty = match read_u256(src, pos) {
        Some(v) => v,
        None => {
            proof {
                assert(!header_prefix(stream)) by {
                    if header_prefix(stream) {
                        let (h2, rest) = choose|h2: Header, rest: Seq<u8>|
                            #![trigger parse_witness(h2, rest)]
                            {
                                &&& parse_witness(h2, rest)
                                &&& h2.prev_hash@.len() <= usize::MAX
                                &&& h2.merkle_root@.len() <= usize::MAX
                                &&& stream == enc_header(h2) + rest
                            };
                        lemma_header_prefix_shape(src@, p0 as int, h2, rest);
                        assert(src@.subrange(pos2, n) =~= src@.subrange(pos2, pos3)
                            + src@.subrange(pos3, n));
                        lemma_enc_bytes_prefix(
                            prev_hash@,
                            h2.prev_hash@,
                            src@.subrange(pos3, n),
                            enc_u256(h2.difficulty) + (enc_bytes(h2.merkle_root@) + rest),
                        );
                        lemma_enc_u256_len(h2.difficulty);
                        assert(src@.subrange(pos3, n).len() >= 32);
                        assert(false);
                    }
                }
            }
            *pos = p0;
            return None;
        },
    };
    let ghost pos4 = *pos as int;
    let merkle_root = match read_bytes(src, pos) {
        Some(v) => v,
        None => {
            proof {
                assert(!header_prefix(stream)) by {
                    if header_prefix(stream) {
                        let (h2, rest) = choose|h2: Header, rest: Seq<u8>|
                            #![trigger parse_witness(h2, rest)]
                            {
                                &&& parse_witness(h2, rest)
                                &&& h2.prev_hash@.len() <= usize::MAX
                                &&& h2.merkle_root@.len() <= usize::MAX
                                &&& stream == enc_header(h2) + rest
                            };
                        lemma_header_prefix_shape(src@, p0 as int, h2, rest);
                        assert(src@.subrange(pos2, n) =~= src@.subrange(pos2, pos3)
                            + src@.subrange(pos3, n));
                        lemma_enc_bytes_prefix(
                            prev_hash@,
                            h2.prev_hash@,
                            src@.subrange(pos3, n),
                            enc_u256(h2.difficulty) + (enc_bytes(h2.merkle_root@) + rest),
                        );
                        assert(src@.subrange(pos3, n) =~= src@.subrange(pos3, pos4)
                            + src@.subrange(pos4, n));
                        lemma_enc_u256_prefix(
                            difficulty,
                            h2.difficulty,
                            src@.subrange(pos4, n),
                            enc_bytes(h2.merkle_root@) + rest,
                        );
                        assert(pos4 == p0 + 56 + h2.prev_hash@.len());
                        assert(false);
                    }
                }
            }
            *pos = p0;
            return None;
        },
    };
    let h = Header { nonce, timestamp, prev_hash, difficulty, merkle_root };
    proof {
        assert(src@.subrange(p0 as int, *pos as int) =~= enc_header(h));
    }
    Some(h)
}

pub proof fn lemma_enc_header_prefix(a: Header, b: Header, r1: Seq<u8>, r2: Seq<u8>)
    requires
        enc_header(a) + r1 == enc_header(b) + r2,
        header_bounded(a),
        header_bounded(b),
    ensures
        a@ == b@,
        a.difficulty == b.difficulty,
        r1 == r2,
{
    lemma_pow256_vals();
    let ra = enc_u64(a.timestamp) + (enc_bytes(a.prev_hash@) + (enc_u256(a.difficulty) + (enc_bytes(
        a.merkle_root@,
    ) + r1)));
    let rb = enc_u64(b.timestamp) + (enc_bytes(b.prev_hash@) + (enc_u256(b.difficulty) + (enc_bytes(
        b.merkle_root@,
    ) + r2)));
    assert(enc_u64(a.nonce) + ra =~= enc_header(a) + r1);
    assert(enc_u64(b.nonce) + rb =~= enc_header(b) + r2);
    lemma_enc_u64_prefix(a.nonce, b.nonce, ra, rb);
    lemma_enc_u64_prefix(
        a.timestamp,
        b.timestamp,
        enc_bytes(a.prev_hash@) + (enc_u256(a.difficulty) + (enc_bytes(a.merkle_root@) + r1)),
        enc_bytes(b.prev_hash@) + (enc_u256(b.difficulty) + (enc_bytes(b.merkle_root@) + r2)),
    );
    lemma_enc_bytes_prefix(
        a.prev_hash@,
        b.prev_hash@,
        enc_u256(a.difficulty) + (enc_bytes(a.merkle_root@) + r1),
        enc_u256(b.difficulty) + (enc_bytes(b.merkle_root@) + r2),
    );
    lemma_enc_u256_prefix(
        a.difficulty,
        b.difficulty,
        enc_bytes(a.merkle_root@) + r1,
        enc_bytes(b.merkle_root@) + r2,
    );
    lemma_enc_bytes_prefix(a.merkle_root@, b.merkle_root@, r1, r2);
}

pub open spec fn enc_tx_f() -> spec_fn(Transaction) -> Seq<u8> {
    |t: Transaction| enc_tx(t)
}

pub open spec fn tx_eq_f() -> spec_fn(Transaction, Transaction) -> bool {
    |a: Transaction, b: Transaction| a@ == b@
}

pub open spec fn tx_bounded_f() -> spec_fn(Transaction) -> bool {
    |t: Transaction| tx_bounded(t)
}

pub open spec fn enc_block(b: Block) -> Seq<u8> {
    enc_header(b.header) + enc_u64(b.transactions.len() as u64) + enc_list(
        b.transactions@,
        enc_tx_f(),
    )
}

pub open spec fn block_bounded(b: Block) -> bool {
    &&& header_bounded(b.header)
    &&& b.transactions@.len() < p64n()
    &&& forall|i: int| 0 <= i < b.transactions@.len() ==> tx_bounded(#[trigger] b.transactions@[i])
}

pub fn write_block(dst: &mut Vec<u8>, b: &Block)
    ensures
        final(dst)@ == old(dst)@ + enc_block(*b),
        block_bounded(*b),
        block_fits(*b),
{
    proof {
        lemma_pow256_vals();
    }
    write_header(dst, &b.header);
    write_u64(dst, b.transactions.len() as u64);
    let ghost mid = dst@;
    let mut i: usize = 0;
    proof {
        assert(enc_list(b.transactions@.take(0), enc_tx_f()) =~= Seq::<u8>::empty());
        assert(mid + Seq::<u8>::empty() =~= mid);
    }
    while i < b.transactions.len()
        invariant
            i <= b.transactions@.len(),
            dst@ == mid + enc_list(b.transactions@.take(i as int), enc_tx_f()),
            forall|j: int| 0 <= j < i ==> tx_bounded(#[trigger] b.transactions@[j]),
            forall|j: int| 0 <= j < i ==> tx_fits_f()(#[trigger] b.transactions@[j]),
        decreases b.transactions@.len() - i,
    {
        let ghost pre = dst@;
        write_tx(dst, &b.transactions[i]);
        proof {
            let tk = b.transactions@.take(i + 1 as int);
            assert(tk.drop_last() =~= b.transactions@.take(i as int));
            assert(tk.last() == b.transactions@[i as int]);
            assert(enc_tx_f()(b.transactions@[i as int]) == enc_tx(b.transactions@[i as int]));
            assert(dst@ =~= mid + enc_list(tk, enc_tx_f()));
        }
        i = i + 1;
    }
    proof {
        assert(b.transactions@.take(b.transactions@.len() as int) =~= b.transactions@);
        assert(dst@ =~= old(dst)@ + enc_block(*b));
        assert(block_fits(*b));
    }
}


/// Machine-representable key lengths for a transaction.
pub open spec fn tx_fits_f() -> spec_fn(Transaction) -> bool {
    |t: Transaction|
        t.public_key_from@.len() <= usize::MAX && t.public_key_to@.len() <= usize::MAX
}

proof fn lemma_tx_prefix_inj()
    ensures
        prefix_inj_on(enc_tx_f(), tx_eq_f(), tx_fits_f()),
{
    lemma_pow256_vals();
    assert forall|x: Transaction, y: Transaction, q1: Seq<u8>, q2: Seq<u8>|
        tx_fits_f()(x) && tx_fits_f()(y) && #[trigger] (enc_tx_f()(x) + q1) == #[trigger] (enc_tx_f()(
            y,
        ) + q2) implies tx_eq_f()(x, y) && q1 == q2 by {
        lemma_enc_tx_prefix(x, y, q1, q2);
    }
}

/// Aligning a read prefix of an item list against a longer witness list:
/// what remains is the witness's tail.
proof fn lemma_enc_list_align<T>(
    xs: Seq<T>,
    ys: Seq<T>,
    f: spec_fn(T) -> Seq<u8>,
    eq: spec_fn(T, T) -> bool,
    p: spec_fn(T) -> bool,
    a: Seq<u8>,
    b: Seq<u8>,
)
    requires
        prefix_inj_on(f, eq, p),
        forall|i: int| 0 <= i < xs.len() ==> p(#[trigger] xs[i]),
        forall|i: int| 0 <= i < ys.len() ==> p(#[trigger] ys[i]),
        xs.len() <= ys.len(),
        enc_list(xs, f) + a == enc_list(ys, f) + b,
    ensures
        a == enc_list(ys.skip(xs.len() as int), f) + b,
    decreases xs.len(),
{
    if xs.len() == 0 {
        assert(enc_list(xs, f) =~= Seq::<u8>::empty());
        assert(Seq::<u8>::empty() + a =~= a);
        assert(ys.skip(0) =~= ys);
    } else {
        lemma_enc_list_cons(xs, f);
        lemma_enc_list_cons(ys, f);
        assert((f(xs.first()) + enc_list(xs.drop_first(), f)) + a =~= f(xs.first()) + (enc_list(
            xs.drop_first(),
            f,
        ) + a));
        assert((f(ys.first()) + enc_list(ys.drop_first(), f)) + b =~= f(ys.first()) + (enc_list(
            ys.drop_first(),
            f,
        ) + b));
        assert(p(xs[0]) && p(ys[0]));
        assert(eq(xs.first(), ys.first()) && enc_list(xs.drop_first(), f) + a == enc_list(
            ys.drop_first(),
            f,
        ) + b);
        assert forall|i: int| 0 <= i < xs.drop_first().len() implies p(
            #[trigger] xs.drop_first()[i],
        ) by {
            assert(xs.drop_first()[i] == xs[i + 1]);
        }
        assert forall|i: int| 0 <= i < ys.drop_first().len() implies p(
            #[trigger] ys.drop_first()[i],
        ) by {
            assert(ys.drop_first()[i] == ys[i + 1]);
        }
        lemma_enc_list_align(xs.drop_first(), ys.drop_first(), f, eq, p, a, b);
        assert(ys.drop_first().skip(xs.len() - 1 as int) =~= ys.skip(xs.len() as int));
    }
}

/// Machine-representable field and list lengths for a block.
pub open spec fn block_fits(b: Block) -> bool {
    &&& b.header.prev_hash@.len() <= usize::MAX
    &&& b.header.merkle_root@.len() <= usize::MAX
    &&& b.transactions@.len() <= usize::MAX
    &&& forall|i: int| 0 <= i < b.transactions@.len() ==> tx_fits_f()(#[trigger] b.transactions@[i])
}

/// Some block with machine-representable lengths has its encoding at the
/// head of the stream.
pub open spec fn block_prefix(s: Seq<u8>) -> bool {
    exists|b: Block, rest: Seq<u8>|
        #![trigger parse_witness(b, rest)]
        {
            &&& parse_witness(b, rest)
            &&& block_fits(b)
            &&& s == enc_block(b) + rest
        }
}

/// A block encoding at the head of the stream decomposes into its header,
/// its count and its transaction list.
proof fn lemma_block_prefix_shape(src: Seq<u8>, p0: int, b: Block, rest: Seq<u8>)
    requires
        0 <= p0 <= src.len(),
        block_fits(b),
        src.subrange(p0, src.len() as int) == enc_block(b) + rest,
    ensures
        src.subrange(p0, src.len() as int) == enc_header(b.header) + (enc_u64(
            b.transactions.len() as u64,
        ) + (enc_list(b.transactions@, enc_tx_f()) + rest)),
{
    let e1 = enc_header(b.header);
    let e2 = enc_u64(b.transactions.len() as u64);
    let e3 = enc_list(b.transactions@, enc_tx_f());
    lemma_cat_assoc(e1 + e2, e3, rest);
    lemma_cat_assoc(e1, e2, e3 + rest);
    assert(src.subrange(p0, src.len() as int) == e1 + (e2 + (e3 + rest)));
}

#[verifier::rlimit(100)]
#[verifier::spinoff_prover]
pub fn read_block(src: &Vec<u8>, pos: &mut usize) -> (r: Option<Block>)
    ensures
        (r matches Some(b) ==> *old(pos) <= *final(pos) <= src@.len() && src@.subrange(
            *old(pos) as int,
            *final(pos) as int,
        ) == enc_block(b) && block_bounded(b) && block_fits(b)),
        r is None ==> *final(pos) == *old(pos) && (*old(pos) <= src@.len() ==> !block_prefix(
            src@.subrange(*old(pos) as int, src@.len() as int),
        )),
{
    proof {
        lemma_pow256_vals();
    }
    let p0 = *pos;
    let ghost n_end = src@.len() as int;
    let ghost stream = src@.subrange(p0 as int, n_end);
    let header = match read_header(src, pos) {
        Some(h) => h,
        None => {
            proof {
                if p0 as int <= n_end {
                    assert(!block_prefix(stream)) by {
                        if block_prefix(stream) {
                            let (b2, rest) = choose|b2: Block, rest: Seq<u8>|
                                #![trigger parse_witness(b2, rest)]
                                {
                                    &&& parse_witness(b2, rest)
                                    &&& block_fits(b2)
                                    &&& stream == enc_block(b2) + rest
                                };
                            lemma_block_prefix_shape(src@, p0 as int, b2, rest);
                            let t2 = enc_u64(b2.transactions.len() as u64) + (enc_list(
                                b2.transactions@,
                                enc_tx_f(),
                            ) + rest);
                            assert(parse_witness(b2.header, t2));
                            assert(header_prefix(stream));
                            assert(false);
                        }
                    }
                }
            }
            return None;
        },
    };
    let ghost pos1 = *pos as int;
    let n = match read_u64(src, pos) {
        Some(v) => v,
        None => {
            proof {
                assert(!block_prefix(stream)) by {
                    if block_prefix(stream) {
                        let (b2, rest) = choose|b2: Block, rest: Seq<u8>|
                            #![trigger parse_witness(b2, rest)]
                            {
                                &&& parse_witness(b2, rest)
                                &&& block_fits(b2)
                                &&& stream == enc_block(b2) + rest
                            };
                        lemma_block_prefix_shape(src@, p0 as int, b2, rest);
                        let t2 = enc_u64(b2.transactions.len() as u64) + (enc_list(
                            b2.transactions@,
                            enc_tx_f(),
                        ) + rest);
                        assert(src@.subrange(p0 as int, n_end) =~= src@.subrange(p0 as int, pos1)
                            + src@.subrange(pos1, n_end));
                        lemma_enc_header_prefix(header, b2.header, src@.subrange(pos1, n_end), t2);
                        lemma_le_bytes_len(b2.transactions.len() as nat, 8);
                        assert(src@.subrange(pos1, n_end).len() >= 8);
                        assert(false);
                    }
                }
            }
            *pos = p0;
            return None;
        },
    };
    if n > usize::MAX as u64 {
        proof {
            assert(!block_prefix(stream)) by {
                if block_prefix(stream) {
                    let (b2, rest) = choose|b2: Block, rest: Seq<u8>|
                        #![trigger parse_witness(b2, rest)]
                        {
                            &&& parse_witness(b2, rest)
                            &&& block_fits(b2)
                            &&& stream == enc_block(b2) + rest
                        };
                    lemma_block_prefix_shape(src@, p0 as int, b2, rest);
                    let t2 = enc_u64(b2.transactions.len() as u64) + (enc_list(
                        b2.transactions@,
                        enc_tx_f(),
                    ) + rest);
                    assert(src@.subrange(p0 as int, n_end) =~= src@.subrange(p0 as int, pos1)
                        + src@.subrange(pos1, n_end));
                    lemma_enc_header_prefix(header, b2.header, src@.subrange(pos1, n_end), t2);
                    assert(src@.subrange(pos1, n_end) =~= src@.subrange(pos1, pos1 + 8)
                        + src@.subrange(pos1 + 8, n_end));
                    lemma_le_bytes_prefix(
                        n as nat,
                        b2.transactions.len() as nat,
                        8,
                        src@.subrange(pos1 + 8, n_end),
                        enc_list(b2.transactions@, enc_tx_f()) + rest,
                    );
                    assert(false);
                }
            }
        }
        *pos = p0;
        return None;
    }
    let n_us = n as usize;
    let ghost items_start = *pos;
    let mut transactions: Vec<Transaction> = Vec::new();
    let mut i: usize = 0;
    proof {
        assert(enc_list(transactions@, enc_tx_f()) =~= Seq::<u8>::empty());
        assert(src@.subrange(items_start as int, items_start as int) =~= Seq::<u8>::empty());
    }
    while i < n_us
        invariant
            i <= n_us,
            p0 == *old(pos),
            p0 <= pos1 <= items_start as int == pos1 + 8,
            n_us == n,
            n_end == src@.len() as int,
            stream == src@.subrange(p0 as int, n_end),
            transactions@.len() == i,
            items_start <= *pos <= src@.len(),
            src@.subrange(p0 as int, pos1) == enc_header(header),
            header_bounded(header),
            header.prev_hash@.len() <= usize::MAX,
            header.merkle_root@.len() <= usize::MAX,
            src@.subrange(pos1, pos1 + 8) == le_bytes(n as nat, 8),
            src@.subrange(items_start as int, *pos as int) == enc_list(
                transactions@,
                enc_tx_f(),
            ),
            forall|j: int|
                0 <= j < i ==> tx_bounded(#[trigger] transactions@[j]) && tx_fits_f()(
                    transactions@[j],
                ),
        decreases n_us - i,
    {
        let ghost pre_pos = *pos;
        let ghost pre_items = transactions@;
        let t = match read_tx(src, pos) {
            Some(t) => t,
            None => {
                proof {
                    lemma_pow256_vals();
                    assert(!block_prefix(stream)) by {
                        if block_prefix(stream) {
                            let (b2, rest) = choose|b2: Block, rest: Seq<u8>|
                                #![trigger parse_witness(b2, rest)]
                                {
                                    &&& parse_witness(b2, rest)
                                    &&& block_fits(b2)
                                    &&& stream == enc_block(b2) + rest
                                };
                            lemma_block_prefix_shape(src@, p0 as int, b2, rest);
                            let t2 = enc_u64(b2.transactions.len() as u64) + (enc_list(
                                b2.transactions@,
                                enc_tx_f(),
                            ) + rest);
                            assert(src@.subrange(p0 as int, n_end) =~= src@.subrange(
                                p0 as int,
                                pos1,
                            ) + src@.subrange(pos1, n_end));
                            lemma_enc_header_prefix(
                                header,
                                b2.header,
                                src@.subrange(pos1, n_end),
                                t2,
                            );
                            assert(src@.subrange(pos1, n_end) =~= src@.subrange(pos1, pos1 + 8)
                                + src@.subrange(pos1 + 8, n_end));
                            lemma_le_bytes_prefix(
                                n as nat,
                                b2.transactions.len() as nat,
                                8,
                                src@.subrange(pos1 + 8, n_end),
                                enc_list(b2.transactions@, enc_tx_f()) + rest,
                            );
                            assert(src@.subrange(items_start as int, n_end) =~= src@.subrange(
                                items_start as int,
                                pre_pos as int,
                            ) + src@.subrange(pre_pos as int, n_end));
                            lemma_tx_prefix_inj();
                            assert forall|j: int|
                                0 <= j < b2.transactions@.len() implies tx_fits_f()(
                                #[trigger] b2.transactions@[j],
                            ) by {}
                            lemma_enc_list_align(
                                transactions@,
                                b2.transactions@,
                                enc_tx_f(),
                                tx_eq_f(),
                                tx_fits_f(),
                                src@.subrange(pre_pos as int, n_end),
                                rest,
                            );
                            let tail_txs = b2.transactions@.skip(i as int);
                            assert(tail_txs.len() > 0);
                            lemma_enc_list_cons(tail_txs, enc_tx_f());
                            lemma_cat_assoc(
                                enc_tx_f()(tail_txs.first()),
                                enc_list(tail_txs.drop_first(), enc_tx_f()),
                                rest,
                            );
                            assert(src@.subrange(pre_pos as int, n_end) == enc_tx(
                                tail_txs.first(),
                            ) + (enc_list(tail_txs.drop_first(), enc_tx_f()) + rest));
                            assert(parse_witness(
                                tail_txs.first(),
                                enc_list(tail_txs.drop_first(), enc_tx_f()) + rest,
                            ));
                            assert(tx_prefix(src@.subrange(pre_pos as int, n_end)));
                            assert(false);
                        }
                    }
                }
                *pos = p0;
                return None;
            },
        };
        transactions.push(t);
        proof {
            assert(transactions@.drop_last() =~= pre_items);
            assert(src@.subrange(items_start as int, *pos as int) =~= src@.subrange(
                items_start as int,
                pre_pos as int,
            ) + src@.subrange(pre_pos as int, *pos as int));
            assert(src@.subrange(items_start as int, *pos as int) =~= enc_list(
                transactions@,
                enc_tx_f(),
            ));
        }
        i = i + 1;
    }
    let b = Block { header, transactions };
    proof {
        assert(src@.subrange(p0 as int, *pos as int) =~= src@.subrange(
            p0 as int,
            items_start as int,
        ) + src@.subrange(items_start as int, *pos as int));
        assert(src@.subrange(p0 as int, items_start as int) =~= enc_header(b.header) + enc_u64(
            n,
        ));
        assert(src@.subrange(p0 as int, *pos as int) =~= enc_block(b));
    }
    Some(b)
}

pub proof fn lemma_enc_block_prefix(a: Block, b: Block, r1: Seq<u8>, r2: Seq<u8>)
    requires
        enc_block(a) + r1 == enc_block(b) + r2,
        block_bounded(a),
        block_bounded(b),
    ensures
        a@ == b@,
        a.header.difficulty == b.header.difficulty,
        r1 == r2,
{
    lemma_pow256_vals();
    let ra = enc_u64(a.transactions.len() as u64) + (enc_list(a.transactions@, enc_tx_f()) + r1);
    let rb = enc_u64(b.transactions.len() as u64) + (enc_list(b.transactions@, enc_tx_f()) + r2);
    assert(enc_header(a.header) + ra =~= enc_block(a) + r1);
    assert(enc_header(b.header) + rb =~= enc_block(b) + r2);
    lemma_enc_header_prefix(a.header, b.header, ra, rb);
    lemma_enc_u64_prefix(
        a.transactions.len() as u64,
        b.transactions.len() as u64,
        enc_list(a.transactions@, enc_tx_f()) + r1,
        enc_list(b.transactions@, enc_tx_f()) + r2,
    );
    assert(prefix_inj_on(enc_tx_f(), tx_eq_f(), tx_bounded_f())) by {
        assert forall|x: Transaction, y: Transaction, q1: Seq<u8>, q2: Seq<u8>|
            tx_bounded_f()(x) && tx_bounded_f()(y) && #[trigger] (enc_tx_f()(x) + q1)
            == #[trigger] (enc_tx_f()(y) + q2) implies tx_eq_f()(x, y) && q1 == q2 by {
            lemma_enc_tx_prefix(x, y, q1, q2);
        }
    }
    lemma_enc_list_prefix(
        a.transactions@,
        b.transactions@,
        enc_tx_f(),
        tx_eq_f(),
        tx_bounded_f(),
        r1,
        r2,
    );
    assert(crate::block::tx_views(a.transactions@) =~= crate::block::tx_views(b.transactions@));
}

pub open spec fn enc_pair_bb(p: (Vec<u8>, Vec<u8>)) -> Seq<u8> {
    enc_bytes(p.0@) + enc_bytes(p.1@)
}

pub open spec fn pair_bb_f() -> spec_fn((Vec<u8>, Vec<u8>)) -> Seq<u8> {
    |p: (Vec<u8>, Vec<u8>)| enc_pair_bb(p)
}

pub open spec fn pair_bb_eq_f() -> spec_fn((Vec<u8>, Vec<u8>), (Vec<u8>, Vec<u8>)) -> bool {
    |a: (Vec<u8>, Vec<u8>), b: (Vec<u8>, Vec<u8>)| a.0@ == b.0@ && a.1@ == b.1@
}

pub open spec fn pair_bb_bounded(p: (Vec<u8>, Vec<u8>)) -> bool {
    p.0@.len() < p64n() && p.1@.len() < p64n()
}

pub open spec fn pair_bb_bounded_f() -> spec_fn((Vec<u8>, Vec<u8>)) -> bool {
    |p: (Vec<u8>, Vec<u8>)| pair_bb_bounded(p)
}

/// A table in transit: an entry count, then each entry's key and encoded
/// value, newest binding first.
pub open spec fn enc_pairs(pairs: Seq<(Vec<u8>, Vec<u8>)>) -> Seq<u8> {
    le_bytes(pairs.len(), 8) + enc_list(pairs, pair_bb_f())
}

pub proof fn lemma_enc_pair_bb_prefix(
    a: (Vec<u8>, Vec<u8>),
    b: (Vec<u8>, Vec<u8>),
    r1: Seq<u8>,
    r2: Seq<u8>,
)
    requires
        enc_pair_bb(a) + r1 == enc_pair_bb(b) + r2,
        pair_bb_bounded(a),
        pair_bb_bounded(b),
    ensures
        a.0@ == b.0@,
        a.1@ == b.1@,
        r1 == r2,
{
    lemma_pow256_vals();
    assert(enc_bytes(a.0@) + (enc_bytes(a.1@) + r1) =~= enc_pair_bb(a) + r1);
    assert(enc_bytes(b.0@) + (enc_bytes(b.1@) + r2) =~= enc_pair_bb(b) + r2);
    lemma_enc_bytes_prefix(a.0@, b.0@, enc_bytes(a.1@) + r1, enc_bytes(b.1@) + r2);
    lemma_enc_bytes_prefix(a.1@, b.1@, r1, r2);
}

/// Equal pair-table encodings in equal streams force item-wise equal
/// tables.
pub proof fn lemma_enc_pairs_prefix(
    p1: Seq<(Vec<u8>, Vec<u8>)>,
    p2: Seq<(Vec<u8>, Vec<u8>)>,
    r1: Seq<u8>,
    r2: Seq<u8>,
)
    requires
        enc_pairs(p1) + r1 == enc_pairs(p2) + r2,
        p1.len() < p64n(),
        p2.len() < p64n(),
        forall|i: int| 0 <= i < p1.len() ==> pair_bb_bounded(#[trigger] p1[i]),
        forall|i: int| 0 <= i < p2.len() ==> pair_bb_bounded(#[trigger] p2[i]),
    ensures
        p1.len() == p2.len(),
        forall|i: int|
            0 <= i < p1.len() ==> p1[i].0@ == #[trigger] p2[i].0@ && p1[i].1@ == p2[i].1@,
        r1 == r2,
{
    lemma_pow256_vals();
    assert((le_bytes(p1.len(), 8) + enc_list(p1, pair_bb_f())) + r1 =~= le_bytes(p1.len(), 8) + (
    enc_list(p1, pair_bb_f()) + r1));
    assert((le_bytes(p2.len(), 8) + enc_list(p2, pair_bb_f())) + r2 =~= le_bytes(p2.len(), 8) + (
    enc_list(p2, pair_bb_f()) + r2));
    lemma_le_bytes_prefix(
        p1.len(),
        p2.len(),
        8,
        enc_list(p1, pair_bb_f()) + r1,
        enc_list(p2, pair_bb_f()) + r2,
    );
    assert(prefix_inj_on(pair_bb_f(), pair_bb_eq_f(), pair_bb_bounded_f())) by {
        assert forall|x: (Vec<u8>, Vec<u8>), y: (Vec<u8>, Vec<u8>), q1: Seq<u8>, q2: Seq<u8>|
            pair_bb_bounded_f()(x) && pair_bb_bounded_f()(y) && #[trigger] (pair_bb_f()(x) + q1)
            == #[trigger] (pair_bb_f()(y) + q2) implies pair_bb_eq_f()(x, y) && q1 == q2 by {
            lemma_enc_pair_bb_prefix(x, y, q1, q2);
        }
    }
    lemma_enc_list_prefix(p1, p2, pair_bb_f(), pair_bb_eq_f(), pair_bb_bounded_f(), r1, r2);
}


pub open spec fn pair_fits_f() -> spec_fn((Vec<u8>, Vec<u8>)) -> bool {
    |p: (Vec<u8>, Vec<u8>)| p.0@.len() <= usize::MAX && p.1@.len() <= usize::MAX
}

proof fn lemma_pair_prefix_inj()
    ensures
        prefix_inj_on(pair_bb_f(), pair_bb_eq_f(), pair_bb_bounded_f()),
{
    assert forall|x: (Vec<u8>, Vec<u8>), y: (Vec<u8>, Vec<u8>), q1: Seq<u8>, q2: Seq<u8>|
        pair_bb_bounded_f()(x) && pair_bb_bounded_f()(y) && #[trigger] (pair_bb_f()(x) + q1)
        == #[trigger] (pair_bb_f()(y) + q2) implies pair_bb_eq_f()(x, y) && q1 == q2 by {
        lemma_enc_pair_bb_prefix(x, y, q1, q2);
    }
}

/// Some pair table with machine-representable lengths has its encoding at
/// the head of the stream.
pub open spec fn pairs_prefix(s: Seq<u8>) -> bool {
    exists|p: Seq<(Vec<u8>, Vec<u8>)>, rest: Seq<u8>|
        #![trigger parse_witness(p, rest)]
        {
            &&& parse_witness(p, rest)
            &&& p.len() <= usize::MAX
            &&& (forall|i: int| 0 <= i < p.len() ==> pair_fits_f()(#[trigger] p[i]))
            &&& s == enc_pairs(p) + rest
        }
}

/// Writes a pair table: count, then each key and encoded value.
pub fn write_pairs(dst: &mut Vec<u8>, pairs: &Vec<(Vec<u8>, Vec<u8>)>)
    ensures
        final(dst)@ == old(dst)@ + enc_pairs(pairs@),
        pairs@.len() < p64n(),
{
    proof {
        lemma_pow256_vals();
    }
    write_u64(dst, pairs.len() as u64);
    let ghost mid = dst@;
    let mut i: usize = 0;
    proof {
        assert(enc_list(pairs@.take(0), pair_bb_f()) =~= Seq::<u8>::empty());
        assert(mid + Seq::<u8>::empty() =~= mid);
    }
    while i < pairs.len()
        invariant
            i <= pairs@.len(),
            dst@ == mid + enc_list(pairs@.take(i as int), pair_bb_f()),
        decreases pairs@.len() - i,
    {
        let ghost pre = dst@;
        write_bytes(dst, &pairs[i].0);
        write_bytes(dst, &pairs[i].1);
        proof {
            let tk = pairs@.take(i + 1 as int);
            assert(tk.drop_last() =~= pairs@.take(i as int));
            assert(tk.last() == pairs@[i as int]);
            assert((pre + enc_bytes(pairs@[i as int].0@)) + enc_bytes(pairs@[i as int].1@)
                =~= pre + enc_pair_bb(pairs@[i as int]));
            assert(dst@ =~= mid + enc_list(tk, pair_bb_f()));
        }
        i = i + 1;
    }
    proof {
        assert(pairs@.take(pairs@.len() as int) =~= pairs@);
        assert(dst@ =~= old(dst)@ + enc_pairs(pairs@));
    }
}

/// Reads a pair table written by `write_pairs`.
#[verifier::rlimit(100)]
#[verifier::spinoff_prover]
pub fn read_pairs(src: &Vec<u8>, pos: &mut usize) -> (r: Option<Vec<(Vec<u8>, Vec<u8>)>>)
    ensures
        (r matches Some(ps) ==> *old(pos) <= *final(pos) <= src@.len() && src@.subrange(
            *old(pos) as int,
            *final(pos) as int,
        ) == enc_pairs(ps@) && ps@.len() < p64n() && ps@.len() <= usize::MAX && (forall|i: int|
            0 <= i < ps@.len() ==> pair_bb_bounded(#[trigger] ps@[i]) && pair_fits_f()(ps@[i]))),
        r is None ==> *final(pos) == *old(pos) && (*old(pos) <= src@.len() ==> !pairs_prefix(
            src@.subrange(*old(pos) as int, src@.len() as int),
        )),
{
    proof {
        lemma_pow256_vals();
    }
    let p0 = *pos;
    let ghost n_end = src@.len() as int;
    let ghost stream = src@.subrange(p0 as int, n_end);
    let n = match read_u64(src, pos) {
        Some(v) => v,
        None => {
            proof {
                if p0 as int <= n_end {
                    assert(!pairs_prefix(stream)) by {
                        if pairs_prefix(stream) {
                            let (p2, rest) = choose|p2: Seq<(Vec<u8>, Vec<u8>)>, rest: Seq<u8>|
                                #![trigger parse_witness(p2, rest)]
                                {
                                    &&& parse_witness(p2, rest)
                                    &&& p2.len() <= usize::MAX
                                    &&& (forall|i: int|
                                        0 <= i < p2.len() ==> pair_fits_f()(#[trigger] p2[i]))
                                    &&& stream == enc_pairs(p2) + rest
                                };
                            lemma_le_bytes_len(p2.len(), 8);
                            lemma_cat_assoc(
                                le_bytes(p2.len(), 8),
                                enc_list(p2, pair_bb_f()),
                                rest,
                            );
                            assert(stream == le_bytes(p2.len(), 8) + (enc_list(p2, pair_bb_f())
                                + rest));
                            assert(stream.len() >= 8);
                            assert(false);
                        }
                    }
                }
            }
            return None;
        },
    };
    let ghost pos1 = *pos as int;
    if n > usize::MAX as u64 {
        proof {
            assert(!pairs_prefix(stream)) by {
                if pairs_prefix(stream) {
                    let (p2, rest) = choose|p2: Seq<(Vec<u8>, Vec<u8>)>, rest: Seq<u8>|
                        #![trigger parse_witness(p2, rest)]
                        {
                            &&& parse_witness(p2, rest)
                            &&& p2.len() <= usize::MAX
                            &&& (forall|i: int|
                                0 <= i < p2.len() ==> pair_fits_f()(#[trigger] p2[i]))
                            &&& stream == enc_pairs(p2) + rest
                        };
                    lemma_le_bytes_len(p2.len(), 8);
                    lemma_cat_assoc(le_bytes(p2.len(), 8), enc_list(p2, pair_bb_f()), rest);
                    assert(stream == le_bytes(p2.len(), 8) + (enc_list(p2, pair_bb_f()) + rest));
                    assert(src@.subrange(p0 as int, n_end) =~= src@.subrange(p0 as int, pos1)
                        + src@.subrange(pos1, n_end));
                    lemma_le_bytes_prefix(
                        n as nat,
                        p2.len(),
                        8,
                        src@.subrange(pos1, n_end),
                        enc_list(p2, pair_bb_f()) + rest,
                    );
                    assert(false);
                }
            }
        }
        *pos = p0;
        return None;
    }
    let n_us = n as usize;
    let ghost items_start = *pos;
    let mut ps: Vec<(Vec<u8>, Vec<u8>)> = Vec::new();
    let mut i: usize = 0;
    proof {
        assert(enc_list(ps@, pair_bb_f()) =~= Seq::<u8>::empty());
        assert(src@.subrange(items_start as int, items_start as int) =~= Seq::<u8>::empty());
    }
    while i < n_us
        invariant
            i <= n_us,
            p0 == *old(pos),
            p0 as int + 8 == items_start as int,
            n_us == n,
            n_end == src@.len() as int,
            stream == src@.subrange(p0 as int, n_end),
            ps@.len() == i,
            items_start <= *pos <= src@.len(),
            src@.subrange(p0 as int, items_start as int) == le_bytes(n as nat, 8),
            src@.subrange(items_start as int, *pos as int) == enc_list(ps@, pair_bb_f()),
            forall|j: int|
                0 <= j < i ==> pair_bb_bounded(#[trigger] ps@[j]) && pair_fits_f()(ps@[j]),
        decreases n_us - i,
    {
        let ghost pre_pos = *pos;
        let ghost pre_items = ps@;
        proof {
            lemma_pow256_vals();
            if pairs_prefix(stream) {
                let (p2, rest) = choose|p2: Seq<(Vec<u8>, Vec<u8>)>, rest: Seq<u8>|
                    #![trigger parse_witness(p2, rest)]
                    {
                        &&& parse_witness(p2, rest)
                        &&& p2.len() <= usize::MAX
                        &&& (forall|i: int| 0 <= i < p2.len() ==> pair_fits_f()(#[trigger] p2[i]))
                        &&& stream == enc_pairs(p2) + rest
                    };
                lemma_le_bytes_len(p2.len(), 8);
                lemma_cat_assoc(le_bytes(p2.len(), 8), enc_list(p2, pair_bb_f()), rest);
                assert(stream == le_bytes(p2.len(), 8) + (enc_list(p2, pair_bb_f()) + rest));
                assert(src@.subrange(p0 as int, n_end) =~= src@.subrange(
                    p0 as int,
                    items_start as int,
                ) + src@.subrange(items_start as int, n_end));
                lemma_le_bytes_prefix(
                    n as nat,
                    p2.len(),
                    8,
                    src@.subrange(items_start as int, n_end),
                    enc_list(p2, pair_bb_f()) + rest,
                );
                assert forall|j: int| 0 <= j < p2.len() implies pair_bb_bounded(
                    #[trigger] p2[j],
                ) by {}
                lemma_pair_prefix_inj();
                assert(src@.subrange(items_start as int, n_end) =~= src@.subrange(
                    items_start as int,
                    pre_pos as int,
                ) + src@.subrange(pre_pos as int, n_end));
                lemma_enc_list_align(
                    ps@,
                    p2,
                    pair_bb_f(),
                    pair_bb_eq_f(),
                    pair_bb_bounded_f(),
                    src@.subrange(pre_pos as int, n_end),
                    rest,
                );
                let tail_ps = p2.skip(i as int);
                assert(tail_ps.len() > 0);
                lemma_enc_list_cons(tail_ps, pair_bb_f());
                lemma_cat_assoc(
                    pair_bb_f()(tail_ps.first()),
                    enc_list(tail_ps.drop_first(), pair_bb_f()),
                    rest,
                );
                lemma_cat_assoc(
                    enc_bytes(tail_ps.first().0@),
                    enc_bytes(tail_ps.first().1@),
                    enc_list(tail_ps.drop_first(), pair_bb_f()) + rest,
                );
                assert(src@.subrange(pre_pos as int, n_end) == enc_bytes(tail_ps.first().0@) + (
                enc_bytes(tail_ps.first().1@) + (enc_list(tail_ps.drop_first(), pair_bb_f())
                    + rest)));
                lemma_bytes_prefix_shape(
                    src@,
                    pre_pos as int,
                    tail_ps.first().0@,
                    enc_bytes(tail_ps.first().1@) + (enc_list(tail_ps.drop_first(), pair_bb_f())
                        + rest),
                );
            }
        }
        let key = match read_bytes(src, pos) {
            Some(v) => v,
            None => {
                proof {
                    assert(!pairs_prefix(stream)) by {
                        if pairs_prefix(stream) {
                            assert(false);
                        }
                    }
                }
                *pos = p0;
                return None;
            },
        };
        let ghost key_pos = *pos as int;
        proof {
            if pairs_prefix(stream) {
                let (p2, rest) = choose|p2: Seq<(Vec<u8>, Vec<u8>)>, rest: Seq<u8>|
                    #![trigger parse_witness(p2, rest)]
                    {
                        &&& parse_witness(p2, rest)
                        &&& p2.len() <= usize::MAX
                        &&& (forall|i: int| 0 <= i < p2.len() ==> pair_fits_f()(#[trigger] p2[i]))
                        &&& stream == enc_pairs(p2) + rest
                    };
                let tail_ps = p2.skip(i as int);
                assert(src@.subrange(pre_pos as int, n_end) =~= src@.subrange(
                    pre_pos as int,
                    key_pos,
                ) + src@.subrange(key_pos, n_end));
                lemma_enc_bytes_prefix(
                    key@,
                    tail_ps.first().0@,
                    src@.subrange(key_pos, n_end),
                    enc_bytes(tail_ps.first().1@) + (enc_list(tail_ps.drop_first(), pair_bb_f())
                        + rest),
                );
                lemma_bytes_prefix_shape(
                    src@,
                    key_pos,
                    tail_ps.first().1@,
                    enc_list(tail_ps.drop_first(), pair_bb_f()) + rest,
                );
            }
        }
        let val = match read_bytes(src, pos) {
            Some(v) => v,
            None => {
                proof {
                    assert(!pairs_prefix(stream)) by {
                        if pairs_prefix(stream) {
                            assert(false);
                        }
                    }
                }
                *pos = p0;
                return None;
            },
        };
        proof {
            lemma_pow256_vals();
        }
        ps.push((key, val));
        proof {
            assert(ps@.drop_last() =~= pre_items);
            assert(src@.subrange(pre_pos as int, *pos as int) =~= enc_pair_bb(ps@.last()));
            assert(src@.subrange(items_start as int, *pos as int) =~= src@.subrange(
                items_start as int,
                pre_pos as int,
            ) + src@.subrange(pre_pos as int, *pos as int));
            assert(src@.subrange(items_start as int, *pos as int) =~= enc_list(
                ps@,
                pair_bb_f(),
            ));
        }
        i = i + 1;
    }
    proof {
        assert(src@.subrange(p0 as int, *pos as int) =~= le_bytes(n as nat, 8) + src@.subrange(
            items_start as int,
            *pos as int,
        ));
        assert(src@.subrange(p0 as int, *pos as int) =~= enc_pairs(ps@));
    }
    Some(ps)
}



pub open spec fn enc_account(a: AccountState) -> Seq<u8> {
    enc_u256(a.balance) + enc_u128(a.nonce)
}

pub fn write_account(dst: &mut Vec<u8>, a: &AccountState)
    ensures
        final(dst)@ == old(dst)@ + enc_account(*a),
{
    write_u256(dst, &a.balance);
    write_u128(dst, a.nonce);
    proof {
        assert(final(dst)@ =~= old(dst)@ + enc_account(*a));
    }
}

pub fn read_account(src: &Vec<u8>, pos: &mut usize) -> (r: Option<AccountState>)
    ensures
        (r matches Some(a) ==> *old(pos) <= *final(pos) <= src@.len() && *final(pos) == *old(
            pos,
        ) + 48 && src@.subrange(*old(pos) as int, *final(pos) as int) == enc_account(a)),
        r is None ==> *final(pos) == *old(pos) && *old(pos) + 48 > src@.len(),
{
    let p0 = *pos;
    let balance = match read_u256(src, pos) {
        Some(v) => v,
        None => {
            return None;
        },
    };
    let nonce = match read_u128(src, pos) {
        Some(v) => v,
        None => {
            *pos = p0;
            return None;
        },
    };
    let a = AccountState { balance, nonce };
    proof {
        assert(src@.subrange(p0 as int, *pos as int) =~= enc_account(a));
    }
    Some(a)
}

pub proof fn lemma_enc_account_prefix(a: AccountState, b: AccountState, r1: Seq<u8>, r2: Seq<u8>)
    requires
        enc_account(a) + r1 == enc_account(b) + r2,
    ensures
        a == b,
        r1 == r2,
{
    assert(enc_u256(a.balance) + (enc_u128(a.nonce) + r1) =~= enc_account(a) + r1);
    assert(enc_u256(b.balance) + (enc_u128(b.nonce) + r2) =~= enc_account(b) + r2);
    lemma_enc_u256_prefix(a.balance, b.balance, enc_u128(a.nonce) + r1, enc_u128(b.nonce) + r2);
    lemma_enc_u128_prefix(a.nonce, b.nonce, r1, r2);
    assert(a == (AccountState { balance: a.balance, nonce: a.nonce }));
}

pub open spec fn key_views(pairs: Seq<(Vec<u8>, Vec<u8>)>) -> Seq<Seq<u8>> {
    Seq::new(pairs.len(), |i: int| pairs[i].0@)
}

/// A map built from parallel key and value rows, first binding winning.
pub open spec fn kv_map<Vv>(keys: Seq<Seq<u8>>, vals: Seq<Vv>) -> Map<Seq<u8>, Vv>
    decreases keys.len(),
{
    if keys.len() == 0 || vals.len() == 0 {
        Map::empty()
    } else {
        kv_map(keys.drop_first(), vals.drop_first()).insert(keys.first(), vals.first())
    }
}

/// A table's map is the key/value-row map of its entries.
pub proof fn lemma_alist_map_as_kv<V: View>(s: Seq<(Vec<u8>, V)>)
    ensures
        alist_map(s) == kv_map(
            Seq::new(s.len(), |i: int| s[i].0@),
            Seq::new(s.len(), |i: int| s[i].1@),
        ),
    decreases s.len(),
{
    let keys = Seq::new(s.len(), |i: int| s[i].0@);
    let vals = Seq::new(s.len(), |i: int| s[i].1@);
    if s.len() == 0 {
    } else {
        lemma_alist_map_as_kv(s.drop_first());
        assert(keys.drop_first() =~= Seq::new(s.drop_first().len(), |i: int| s.drop_first()[i].0@));
        assert(vals.drop_first() =~= Seq::new(s.drop_first().len(), |i: int| s.drop_first()[i].1@));
    }
}

fn write_u256_ref(dst: &mut Vec<u8>, x: &U256)
    ensures
        final(dst)@ == old(dst)@ + enc_u256(*x),
{
    write_u256(dst, x);
}

fn write_account_ref(dst: &mut Vec<u8>, a: &AccountState)
    ensures
        final(dst)@ == old(dst)@ + enc_account(*a),
{
    write_account(dst, a);
}

pub open spec fn enc_vbytes(v: Vec<u8>) -> Seq<u8> {
    enc_bytes(v@)
}

pub proof fn lemma_enc_vbytes_prefix(a: Vec<u8>, b: Vec<u8>, r1: Seq<u8>, r2: Seq<u8>)
    requires
        enc_vbytes(a) + r1 == enc_vbytes(b) + r2,
        a@.len() < p64n(),
        b@.len() < p64n(),
    ensures
        a@ == b@,
        r1 == r2,
{
    lemma_pow256_vals();
    lemma_enc_bytes_prefix(a@, b@, r1, r2);
}

/// A byte segment holding exactly one table whose map is `m`.
#[verifier::opaque]
pub open spec fn table_rel_block(seg: Seq<u8>, m: Map<Seq<u8>, crate::block::BlockView>) -> bool {
    exists|p: Seq<(Vec<u8>, Vec<u8>)>, vs: Seq<Block>|
        #![trigger enc_pairs(p), vs.len()]
        {
            &&& enc_pairs(p) == seg
            &&& p.len() < p64n()
            &&& p.len() <= usize::MAX
            &&& vs.len() == p.len()
            &&& (forall|i: int| 0 <= i < p.len() ==> pair_bb_bounded(#[trigger] p[i]))
            &&& (forall|i: int| 0 <= i < p.len() ==> pair_fits_f()(#[trigger] p[i]))
            &&& (forall|i: int|
                0 <= i < vs.len() ==> p[i].1@ == enc_block(#[trigger] vs[i]) && block_bounded(vs[i]) && block_fits(vs[i]))
            &&& m == kv_map(key_views(p), Seq::new(vs.len(), |i: int| vs[i]@))
        }
}

/// Lifts a table into byte pairs, each value encoded.
fn to_pairs_block(a: &AList<Block>) -> (r: Vec<(Vec<u8>, Vec<u8>)>)
    ensures
        r@.len() == a.spec_entries().len(),
        r@.len() <= usize::MAX,
        forall|i: int|
            0 <= i < r@.len() ==> pair_fits_f()(#[trigger] r@[i]),
        forall|i: int|
            0 <= i < r@.len() ==> (#[trigger] r@[i]).0@ == a.spec_entries()[i].0@ && r@[i].1@
                == enc_block(a.spec_entries()[i].1) && pair_bb_bounded(r@[i]) && block_bounded(a.spec_entries()[i].1) && block_fits(a.spec_entries()[i].1),
{
    proof {
        lemma_pow256_vals();
    }
    let mut r: Vec<(Vec<u8>, Vec<u8>)> = Vec::new();
    let mut i: usize = 0;
    while i < a.entry_count()
        invariant
            i <= a.spec_entries().len(),
            r@.len() == i,
            forall|j: int| 0 <= j < i ==> pair_fits_f()(#[trigger] r@[j]),
            forall|j: int|
                0 <= j < i ==> (#[trigger] r@[j]).0@ == a.spec_entries()[j].0@ && r@[j].1@
                    == enc_block(a.spec_entries()[j].1) && pair_bb_bounded(r@[j]) && block_bounded(a.spec_entries()[j].1) && block_fits(a.spec_entries()[j].1),
        decreases a.spec_entries().len() - i,
    {
        proof {
            lemma_pow256_vals();
        }
        let e = a.entry_at(i);
        let key = clone_bytes(&e.0);
        let _key_len = key.len();
        let mut vb: Vec<u8> = Vec::new();
        write_block(&mut vb, &e.1);
        let _value_len = vb.len();
        proof {
            assert(vb@ =~= enc_block(a.spec_entries()[i as int].1));
        }
        r.push((key, vb));
        i = i + 1;
    }
    r
}

/// Parses every value of a byte-pair table and rebuilds the map, oldest
/// binding inserted first.
#[verifier::rlimit(100)]
#[verifier::spinoff_prover]
fn from_pairs_block(pairs: &Vec<(Vec<u8>, Vec<u8>)>) -> (r: Option<AList<Block>>)
    ensures
        (r is None ==> !(exists|ws: Seq<Block>|
            #![trigger parse_witness(ws, pairs@)]
            {
                &&& parse_witness(ws, pairs@)
                &&& ws.len() == pairs@.len()
                &&& (forall|i: int|
                    0 <= i < ws.len() ==> pairs@[i].1@ == enc_block(#[trigger] ws[i])
                        && block_fits(ws[i]))
            })),
        (r matches Some(t) ==> exists|vs: Seq<Block>|
            {
                &&& #[trigger] vs.len() == pairs@.len()
                &&& (forall|i: int|
                    0 <= i < vs.len() ==> pairs@[i].1@ == enc_block(#[trigger] vs[i]) && block_bounded(vs[i]) && block_fits(vs[i]))
                &&& t@ == kv_map(key_views(pairs@), Seq::new(vs.len(), |i: int| vs[i]@))
            }),
{
    let ghost kviews = key_views(pairs@);
    let mut t: AList<Block> = AList::new();
    let ghost mut vs: Seq<Block> = Seq::empty();
    let mut j: usize = pairs.len();
    proof {
        assert(kviews.skip(pairs@.len() as int) =~= Seq::<Seq<u8>>::empty());
    }
    while j > 0
        invariant
            j <= pairs@.len(),
            kviews == key_views(pairs@),
            vs.len() == pairs@.len() - j,
            forall|i: int|
                0 <= i < vs.len() ==> pairs@[j + i].1@ == enc_block(#[trigger] vs[i]) && block_bounded(vs[i]) && block_fits(vs[i]),
            t@ == kv_map(kviews.skip(j as int), Seq::new(vs.len(), |i: int| vs[i]@)),
        decreases j,
    {
        let ghost vs_old = vs;
        j = j - 1;
        let mut p: usize = 0;
        let v: Block = match read_block(&pairs[j].1, &mut p) {
            Some(v) => v,
            None => {
                proof {
                    lemma_pow256_vals();
                    assert(!(exists|ws: Seq<Block>|
                        #![trigger parse_witness(ws, pairs@)]
                        {
                            &&& parse_witness(ws, pairs@)
                            &&& ws.len() == pairs@.len()
                            &&& (forall|i: int|
                                0 <= i < ws.len() ==> pairs@[i].1@ == enc_block(#[trigger] ws[i])
                                    && block_fits(ws[i]))
                        })) by {
                        if (exists|ws: Seq<Block>|
                            #![trigger parse_witness(ws, pairs@)]
                            {
                                &&& parse_witness(ws, pairs@)
                                &&& ws.len() == pairs@.len()
                                &&& (forall|i: int|
                                    0 <= i < ws.len() ==> pairs@[i].1@ == enc_block(#[trigger] ws[i])
                                        && block_fits(ws[i]))
                            }) {
                            let ws = choose|ws: Seq<Block>|
                                #![trigger parse_witness(ws, pairs@)]
                                {
                                    &&& parse_witness(ws, pairs@)
                                    &&& ws.len() == pairs@.len()
                                    &&& (forall|i: int|
                                        0 <= i < ws.len() ==> pairs@[i].1@ == enc_block(
                                            #[trigger] ws[i],
                                        ) && block_fits(ws[i]))
                                };
                            let vb = pairs@[j as int].1;
                            assert(vb@ =~= enc_block(ws[j as int]) + Seq::<u8>::empty());
                            assert(vb@.subrange(0, vb@.len() as int) =~= vb@);
                            assert(parse_witness(ws[j as int], Seq::<u8>::empty()));
                            assert(block_prefix(vb@.subrange(0, vb@.len() as int)));
                            assert(false);
                        }
                    }
                }
                return None;
            },
        };
        if p != pairs[j].1.len() {
            proof {
                lemma_pow256_vals();
                assert(!(exists|ws: Seq<Block>|
                    #![trigger parse_witness(ws, pairs@)]
                    {
                        &&& parse_witness(ws, pairs@)
                        &&& ws.len() == pairs@.len()
                        &&& (forall|i: int|
                            0 <= i < ws.len() ==> pairs@[i].1@ == enc_block(#[trigger] ws[i])
                                && block_fits(ws[i]))
                    })) by {
                    if (exists|ws: Seq<Block>|
                        #![trigger parse_witness(ws, pairs@)]
                        {
                            &&& parse_witness(ws, pairs@)
                            &&& ws.len() == pairs@.len()
                            &&& (forall|i: int|
                                0 <= i < ws.len() ==> pairs@[i].1@ == enc_block(#[trigger] ws[i])
                                    && block_fits(ws[i]))
                        }) {
                        let ws = choose|ws: Seq<Block>|
                            #![trigger parse_witness(ws, pairs@)]
                            {
                                &&& parse_witness(ws, pairs@)
                                &&& ws.len() == pairs@.len()
                                &&& (forall|i: int|
                                    0 <= i < ws.len() ==> pairs@[i].1@ == enc_block(
                                        #[trigger] ws[i],
                                    ) && block_fits(ws[i]))
                            };
                        let vb = pairs@[j as int].1;
                        assert(vb@ =~= enc_block(ws[j as int]) + Seq::<u8>::empty());
                        assert(vb@ =~= vb@.subrange(0, p as int) + vb@.subrange(
                            p as int,
                            vb@.len() as int,
                        ));
                        assert(block_bounded(ws[j as int]));
                        lemma_enc_block_prefix(
                            v,
                            ws[j as int],
                            vb@.subrange(p as int, vb@.len() as int),
                            Seq::<u8>::empty(),
                        );
                        assert(vb@.subrange(p as int, vb@.len() as int).len() == 0);
                        assert(false);
                    }
                }
            }
            return None;
        }
        proof {
            assert(pairs@[j as int].1@.subrange(0, p as int) =~= pairs@[j as int].1@);
        }
        t.insert(clone_bytes(&pairs[j].0), v);
        proof {
            vs = seq![v] + vs_old;
            assert(vs.drop_first() =~= vs_old);
            assert(kviews.skip(j as int).first() == pairs@[j as int].0@);
            assert(kviews.skip(j as int).drop_first() =~= kviews.skip(j + 1 as int));
            let vvs = Seq::new(vs.len(), |i: int| vs[i]@);
            assert(vvs.drop_first() =~= Seq::new(vs_old.len(), |i: int| vs_old[i]@));
            assert(vvs.first() == v@);
            assert(t@ == kv_map(kviews.skip(j as int), vvs));
        }
    }
    proof {
        assert(kviews.skip(0) =~= kviews);
    }
    Some(t)
}

/// Two equal streams starting with this kind of table hold the same map
/// and the same remainder.
#[verifier::rlimit(100)]
#[verifier::spinoff_prover]
pub proof fn lemma_table_rel_block_unique(
    seg1: Seq<u8>,
    m1: Map<Seq<u8>, crate::block::BlockView>,
    seg2: Seq<u8>,
    m2: Map<Seq<u8>, crate::block::BlockView>,
    r1: Seq<u8>,
    r2: Seq<u8>,
)
    requires
        table_rel_block(seg1, m1),
        table_rel_block(seg2, m2),
        seg1 + r1 == seg2 + r2,
    ensures
        m1 == m2,
        r1 == r2,
{
    reveal(crate::codec::table_rel_block);
    let (p1, vs1) = choose|p: Seq<(Vec<u8>, Vec<u8>)>, vs: Seq<Block>|
        #![trigger enc_pairs(p), vs.len()]
        {
            &&& enc_pairs(p) == seg1
            &&& p.len() < p64n()
            &&& p.len() <= usize::MAX
            &&& vs.len() == p.len()
            &&& (forall|i: int| 0 <= i < p.len() ==> pair_bb_bounded(#[trigger] p[i]))
            &&& (forall|i: int| 0 <= i < p.len() ==> pair_fits_f()(#[trigger] p[i]))
            &&& (forall|i: int|
                0 <= i < vs.len() ==> p[i].1@ == enc_block(#[trigger] vs[i]) && block_bounded(vs[i]) && block_fits(vs[i]))
            &&& m1 == kv_map(key_views(p), Seq::new(vs.len(), |i: int| vs[i]@))
        };
    let (p2, vs2) = choose|p: Seq<(Vec<u8>, Vec<u8>)>, vs: Seq<Block>|
        #![trigger enc_pairs(p), vs.len()]
        {
            &&& enc_pairs(p) == seg2
            &&& p.len() < p64n()
            &&& p.len() <= usize::MAX
            &&& vs.len() == p.len()
            &&& (forall|i: int| 0 <= i < p.len() ==> pair_bb_bounded(#[trigger] p[i]))
            &&& (forall|i: int| 0 <= i < p.len() ==> pair_fits_f()(#[trigger] p[i]))
            &&& (forall|i: int|
                0 <= i < vs.len() ==> p[i].1@ == enc_block(#[trigger] vs[i]) && block_bounded(vs[i]) && block_fits(vs[i]))
            &&& m2 == kv_map(key_views(p), Seq::new(vs.len(), |i: int| vs[i]@))
        };
    lemma_enc_pairs_prefix(p1, p2, r1, r2);
    assert(key_views(p1) =~= key_views(p2));
    assert forall|i: int| 0 <= i < vs1.len() implies #[trigger] vs1[i]@ == vs2[i]@ by {
        assert(enc_block(vs1[i]) + Seq::<u8>::empty() =~= enc_block(vs2[i]) + Seq::<u8>::empty());
        lemma_enc_block_prefix(vs1[i], vs2[i], Seq::<u8>::empty(), Seq::<u8>::empty());
    }
    assert(Seq::new(vs1.len(), |i: int| vs1[i]@) =~= Seq::new(vs2.len(), |i: int| vs2[i]@));
}

/// A byte segment holding exactly one table whose map is `m`.
#[verifier::opaque]
pub open spec fn table_rel_vbytes(seg: Seq<u8>, m: Map<Seq<u8>, Seq<u8>>) -> bool {
    exists|p: Seq<(Vec<u8>, Vec<u8>)>, vs: Seq<Vec<u8>>|
        #![trigger enc_pairs(p), vs.len()]
        {
            &&& enc_pairs(p) == seg
            &&& p.len() < p64n()
            &&& p.len() <= usize::MAX
            &&& vs.len() == p.len()
            &&& (forall|i: int| 0 <= i < p.len() ==> pair_bb_bounded(#[trigger] p[i]))
            &&& (forall|i: int| 0 <= i < p.len() ==> pair_fits_f()(#[trigger] p[i]))
            &&& (forall|i: int|
                0 <= i < vs.len() ==> p[i].1@ == enc_vbytes(#[trigger] vs[i]) && (vs[i]@.len() < p64n()) && (vs[i]@.len() <= usize::MAX))
            &&& m == kv_map(key_views(p), Seq::new(vs.len(), |i: int| vs[i]@))
        }
}

/// Lifts a table into byte pairs, each value encoded.
fn to_pairs_vbytes(a: &AList<Vec<u8>>) -> (r: Vec<(Vec<u8>, Vec<u8>)>)
    ensures
        r@.len() == a.spec_entries().len(),
        r@.len() <= usize::MAX,
        forall|i: int|
            0 <= i < r@.len() ==> pair_fits_f()(#[trigger] r@[i]),
        forall|i: int|
            0 <= i < r@.len() ==> (#[trigger] r@[i]).0@ == a.spec_entries()[i].0@ && r@[i].1@
                == enc_vbytes(a.spec_entries()[i].1) && pair_bb_bounded(r@[i]) && (a.spec_entries()[i].1@.len() < p64n()) && (a.spec_entries()[i].1@.len() <= usize::MAX),
{
    proof {
        lemma_pow256_vals();
    }
    let mut r: Vec<(Vec<u8>, Vec<u8>)> = Vec::new();
    let mut i: usize = 0;
    while i < a.entry_count()
        invariant
            i <= a.spec_entries().len(),
            r@.len() == i,
            forall|j: int| 0 <= j < i ==> pair_fits_f()(#[trigger] r@[j]),
            forall|j: int|
                0 <= j < i ==> (#[trigger] r@[j]).0@ == a.spec_entries()[j].0@ && r@[j].1@
                    == enc_vbytes(a.spec_entries()[j].1) && pair_bb_bounded(r@[j]) && (a.spec_entries()[j].1@.len() < p64n()) && (a.spec_entries()[j].1@.len() <= usize::MAX),
        decreases a.spec_entries().len() - i,
    {
        proof {
            lemma_pow256_vals();
        }
        let e = a.entry_at(i);
        let key = clone_bytes(&e.0);
        let _key_len = key.len();
        let mut vb: Vec<u8> = Vec::new();
        write_bytes(&mut vb, &e.1);
        let _value_len = vb.len();
        proof {
            assert(vb@ =~= enc_vbytes(a.spec_entries()[i as int].1));
        }
        r.push((key, vb));
        i = i + 1;
    }
    r
}

/// Parses every value of a byte-pair table and rebuilds the map, oldest
/// binding inserted first.
#[verifier::rlimit(100)]
#[verifier::spinoff_prover]
fn from_pairs_vbytes(pairs: &Vec<(Vec<u8>, Vec<u8>)>) -> (r: Option<AList<Vec<u8>>>)
    ensures
        (r is None ==> !(exists|ws: Seq<Vec<u8>>|
            #![trigger parse_witness(ws, pairs@)]
            {
                &&& parse_witness(ws, pairs@)
                &&& ws.len() == pairs@.len()
                &&& (forall|i: int|
                    0 <= i < ws.len() ==> pairs@[i].1@ == enc_vbytes(#[trigger] ws[i])
                        && (ws[i]@.len() <= usize::MAX))
            })),
        (r matches Some(t) ==> exists|vs: Seq<Vec<u8>>|
            {
                &&& #[trigger] vs.len() == pairs@.len()
                &&& (forall|i: int|
                    0 <= i < vs.len() ==> pairs@[i].1@ == enc_vbytes(#[trigger] vs[i]) && (vs[i]@.len() < p64n()) && (vs[i]@.len() <= usize::MAX))
                &&& t@ == kv_map(key_views(pairs@), Seq::new(vs.len(), |i: int| vs[i]@))
            }),
{
    let ghost kviews = key_views(pairs@);
    let mut t: AList<Vec<u8>> = AList::new();
    let ghost mut vs: Seq<Vec<u8>> = Seq::empty();
    let mut j: usize = pairs.len();
    proof {
        assert(kviews.skip(pairs@.len() as int) =~= Seq::<Seq<u8>>::empty());
    }
    while j > 0
        invariant
            j <= pairs@.len(),
            kviews == key_views(pairs@),
            vs.len() == pairs@.len() - j,
            forall|i: int|
                0 <= i < vs.len() ==> pairs@[j + i].1@ == enc_vbytes(#[trigger] vs[i]) && (vs[i]@.len() < p64n()) && (vs[i]@.len() <= usize::MAX),
            t@ == kv_map(kviews.skip(j as int), Seq::new(vs.len(), |i: int| vs[i]@)),
        decreases j,
    {
        let ghost vs_old = vs;
        j = j - 1;
        let mut p: usize = 0;
        let v: Vec<u8> = match read_bytes(&pairs[j].1, &mut p) {
            Some(v) => v,
            None => {
                proof {
                    lemma_pow256_vals();
                    assert(!(exists|ws: Seq<Vec<u8>>|
                        #![trigger parse_witness(ws, pairs@)]
                        {
                            &&& parse_witness(ws, pairs@)
                            &&& ws.len() == pairs@.len()
                            &&& (forall|i: int|
                                0 <= i < ws.len() ==> pairs@[i].1@ == enc_vbytes(#[trigger] ws[i])
                                    && (ws[i]@.len() <= usize::MAX))
                        })) by {
                        if (exists|ws: Seq<Vec<u8>>|
                            #![trigger parse_witness(ws, pairs@)]
                            {
                                &&& parse_witness(ws, pairs@)
                                &&& ws.len() == pairs@.len()
                                &&& (forall|i: int|
                                    0 <= i < ws.len() ==> pairs@[i].1@ == enc_vbytes(#[trigger] ws[i])
                                        && (ws[i]@.len() <= usize::MAX))
                            }) {
                            let ws = choose|ws: Seq<Vec<u8>>|
                                #![trigger parse_witness(ws, pairs@)]
                                {
                                    &&& parse_witness(ws, pairs@)
                                    &&& ws.len() == pairs@.len()
                                    &&& (forall|i: int|
                                        0 <= i < ws.len() ==> pairs@[i].1@ == enc_vbytes(
                                            #[trigger] ws[i],
                                        ) && (ws[i]@.len() <= usize::MAX))
                                };
                            let vb = pairs@[j as int].1;
                            assert(vb@ =~= enc_bytes(ws[j as int]@) + Seq::<u8>::empty());
                            assert(vb@.subrange(0, vb@.len() as int) =~= vb@);
                            lemma_bytes_prefix_shape(
                                vb@,
                                0,
                                ws[j as int]@,
                                Seq::<u8>::empty(),
                            );
                            assert(false);
                        }
                    }
                }
                return None;
            },
        };
        if p != pairs[j].1.len() {
            proof {
                lemma_pow256_vals();
                assert(!(exists|ws: Seq<Vec<u8>>|
                    #![trigger parse_witness(ws, pairs@)]
                    {
                        &&& parse_witness(ws, pairs@)
                        &&& ws.len() == pairs@.len()
                        &&& (forall|i: int|
                            0 <= i < ws.len() ==> pairs@[i].1@ == enc_vbytes(#[trigger] ws[i])
                                && (ws[i]@.len() <= usize::MAX))
                    })) by {
                    if (exists|ws: Seq<Vec<u8>>|
                        #![trigger parse_witness(ws, pairs@)]
                        {
                            &&& parse_witness(ws, pairs@)
                            &&& ws.len() == pairs@.len()
                            &&& (forall|i: int|
                                0 <= i < ws.len() ==> pairs@[i].1@ == enc_vbytes(#[trigger] ws[i])
                                    && (ws[i]@.len() <= usize::MAX))
                        }) {
                        let ws = choose|ws: Seq<Vec<u8>>|
                            #![trigger parse_witness(ws, pairs@)]
                            {
                                &&& parse_witness(ws, pairs@)
                                &&& ws.len() == pairs@.len()
                                &&& (forall|i: int|
                                    0 <= i < ws.len() ==> pairs@[i].1@ == enc_vbytes(
                                        #[trigger] ws[i],
                                    ) && (ws[i]@.len() <= usize::MAX))
                            };
                        let vb = pairs@[j as int].1;
                        assert(vb@ =~= enc_bytes(ws[j as int]@) + Seq::<u8>::empty());
                        assert(vb@ =~= vb@.subrange(0, p as int) + vb@.subrange(
                            p as int,
                            vb@.len() as int,
                        ));
                        lemma_enc_bytes_prefix(
                            v@,
                            ws[j as int]@,
                            vb@.subrange(p as int, vb@.len() as int),
                            Seq::<u8>::empty(),
                        );
                        assert(vb@.subrange(p as int, vb@.len() as int).len() == 0);
                        assert(false);
                    }
                }
            }
            return None;
        }
        proof {
            assert(pairs@[j as int].1@.subrange(0, p as int) =~= pairs@[j as int].1@);
        }
        t.insert(clone_bytes(&pairs[j].0), v);
        proof {
            vs = seq![v] + vs_old;
            assert(vs.drop_first() =~= vs_old);
            assert(kviews.skip(j as int).first() == pairs@[j as int].0@);
            assert(kviews.skip(j as int).drop_first() =~= kviews.skip(j + 1 as int));
            let vvs = Seq::new(vs.len(), |i: int| vs[i]@);
            assert(vvs.drop_first() =~= Seq::new(vs_old.len(), |i: int| vs_old[i]@));
            assert(vvs.first() == v@);
            assert(t@ == kv_map(kviews.skip(j as int), vvs));
        }
    }
    proof {
        assert(kviews.skip(0) =~= kviews);
    }
    Some(t)
}

/// Two equal streams starting with this kind of table hold the same map
/// and the same remainder.
#[verifier::rlimit(100)]
#[verifier::spinoff_prover]
pub proof fn lemma_table_rel_vbytes_unique(
    seg1: Seq<u8>,
    m1: Map<Seq<u8>, Seq<u8>>,
    seg2: Seq<u8>,
    m2: Map<Seq<u8>, Seq<u8>>,
    r1: Seq<u8>,
    r2: Seq<u8>,
)
    requires
        table_rel_vbytes(seg1, m1),
        table_rel_vbytes(seg2, m2),
        seg1 + r1 == seg2 + r2,
    ensures
        m1 == m2,
        r1 == r2,
{
    reveal(crate::codec::table_rel_vbytes);
    let (p1, vs1) = choose|p: Seq<(Vec<u8>, Vec<u8>)>, vs: Seq<Vec<u8>>|
        #![trigger enc_pairs(p), vs.len()]
        {
            &&& enc_pairs(p) == seg1
            &&& p.len() < p64n()
            &&& p.len() <= usize::MAX
            &&& vs.len() == p.len()
            &&& (forall|i: int| 0 <= i < p.len() ==> pair_bb_bounded(#[trigger] p[i]))
            &&& (forall|i: int| 0 <= i < p.len() ==> pair_fits_f()(#[trigger] p[i]))
            &&& (forall|i: int|
                0 <= i < vs.len() ==> p[i].1@ == enc_vbytes(#[trigger] vs[i]) && (vs[i]@.len() < p64n()) && (vs[i]@.len() <= usize::MAX))
            &&& m1 == kv_map(key_views(p), Seq::new(vs.len(), |i: int| vs[i]@))
        };
    let (p2, vs2) = choose|p: Seq<(Vec<u8>, Vec<u8>)>, vs: Seq<Vec<u8>>|
        #![trigger enc_pairs(p), vs.len()]
        {
            &&& enc_pairs(p) == seg2
            &&& p.len() < p64n()
            &&& p.len() <= usize::MAX
            &&& vs.len() == p.len()
            &&& (forall|i: int| 0 <= i < p.len() ==> pair_bb_bounded(#[trigger] p[i]))
            &&& (forall|i: int| 0 <= i < p.len() ==> pair_fits_f()(#[trigger] p[i]))
            &&& (forall|i: int|
                0 <= i < vs.len() ==> p[i].1@ == enc_vbytes(#[trigger] vs[i]) && (vs[i]@.len() < p64n()) && (vs[i]@.len() <= usize::MAX))
            &&& m2 == kv_map(key_views(p), Seq::new(vs.len(), |i: int| vs[i]@))
        };
    lemma_enc_pairs_prefix(p1, p2, r1, r2);
    assert(key_views(p1) =~= key_views(p2));
    assert forall|i: int| 0 <= i < vs1.len() implies #[trigger] vs1[i]@ == vs2[i]@ by {
        assert(enc_vbytes(vs1[i]) + Seq::<u8>::empty() =~= enc_vbytes(vs2[i]) + Seq::<u8>::empty());
        lemma_enc_vbytes_prefix(vs1[i], vs2[i], Seq::<u8>::empty(), Seq::<u8>::empty());
    }
    assert(Seq::new(vs1.len(), |i: int| vs1[i]@) =~= Seq::new(vs2.len(), |i: int| vs2[i]@));
}

/// A byte segment holding exactly one table whose map is `m`.
#[verifier::opaque]
pub open spec fn table_rel_u256(seg: Seq<u8>, m: Map<Seq<u8>, nat>) -> bool {
    exists|p: Seq<(Vec<u8>, Vec<u8>)>, vs: Seq<U256>|
        #![trigger enc_pairs(p), vs.len()]
        {
            &&& enc_pairs(p) == seg
            &&& p.len() < p64n()
            &&& p.len() <= usize::MAX
            &&& vs.len() == p.len()
            &&& (forall|i: int| 0 <= i < p.len() ==> pair_bb_bounded(#[trigger] p[i]))
            &&& (forall|i: int| 0 <= i < p.len() ==> pair_fits_f()(#[trigger] p[i]))
            &&& (forall|i: int|
                0 <= i < vs.len() ==> p[i].1@ == enc_u256(#[trigger] vs[i]) && true)
            &&& m == kv_map(key_views(p), Seq::new(vs.len(), |i: int| vs[i]@))
        }
}

/// Lifts a table into byte pairs, each value encoded.
fn to_pairs_u256(a: &AList<U256>) -> (r: Vec<(Vec<u8>, Vec<u8>)>)
    ensures
        r@.len() == a.spec_entries().len(),
        r@.len() <= usize::MAX,
        forall|i: int|
            0 <= i < r@.len() ==> pair_fits_f()(#[trigger] r@[i]),
        forall|i: int|
            0 <= i < r@.len() ==> (#[trigger] r@[i]).0@ == a.spec_entries()[i].0@ && r@[i].1@
                == enc_u256(a.spec_entries()[i].1) && pair_bb_bounded(r@[i]) && true,
{
    proof {
        lemma_pow256_vals();
    }
    let mut r: Vec<(Vec<u8>, Vec<u8>)> = Vec::new();
    let mut i: usize = 0;
    while i < a.entry_count()
        invariant
            i <= a.spec_entries().len(),
            r@.len() == i,
            forall|j: int| 0 <= j < i ==> pair_fits_f()(#[trigger] r@[j]),
            forall|j: int|
                0 <= j < i ==> (#[trigger] r@[j]).0@ == a.spec_entries()[j].0@ && r@[j].1@
                    == enc_u256(a.spec_entries()[j].1) && pair_bb_bounded(r@[j]) && true,
        decreases a.spec_entries().len() - i,
    {
        proof {
            lemma_pow256_vals();
        }
        let e = a.entry_at(i);
        let key = clone_bytes(&e.0);
        let _key_len = key.len();
        let mut vb: Vec<u8> = Vec::new();
        write_u256_ref(&mut vb, &e.1);
        let _value_len = vb.len();
        proof {
            assert(vb@ =~= enc_u256(a.spec_entries()[i as int].1));
        }
        r.push((key, vb));
        i = i + 1;
    }
    r
}

/// Parses every value of a byte-pair table and rebuilds the map, oldest
/// binding inserted first.
#[verifier::rlimit(100)]
#[verifier::spinoff_prover]
fn from_pairs_u256(pairs: &Vec<(Vec<u8>, Vec<u8>)>) -> (r: Option<AList<U256>>)
    ensures
        (r is None ==> !(exists|ws: Seq<U256>|
            #![trigger parse_witness(ws, pairs@)]
            {
                &&& parse_witness(ws, pairs@)
                &&& ws.len() == pairs@.len()
                &&& (forall|i: int|
                    0 <= i < ws.len() ==> pairs@[i].1@ == enc_u256(#[trigger] ws[i])
                        && true)
            })),
        (r matches Some(t) ==> exists|vs: Seq<U256>|
            {
                &&& #[trigger] vs.len() == pairs@.len()
                &&& (forall|i: int|
                    0 <= i < vs.len() ==> pairs@[i].1@ == enc_u256(#[trigger] vs[i]) && true)
                &&& t@ == kv_map(key_views(pairs@), Seq::new(vs.len(), |i: int| vs[i]@))
            }),
{
    let ghost kviews = key_views(pairs@);
    let mut t: AList<U256> = AList::new();
    let ghost mut vs: Seq<U256> = Seq::empty();
    let mut j: usize = pairs.len();
    proof {
        assert(kviews.skip(pairs@.len() as int) =~= Seq::<Seq<u8>>::empty());
    }
    while j > 0
        invariant
            j <= pairs@.len(),
            kviews == key_views(pairs@),
            vs.len() == pairs@.len() - j,
            forall|i: int|
                0 <= i < vs.len() ==> pairs@[j + i].1@ == enc_u256(#[trigger] vs[i]) && true,
            t@ == kv_map(kviews.skip(j as int), Seq::new(vs.len(), |i: int| vs[i]@)),
        decreases j,
    {
        let ghost vs_old = vs;
        j = j - 1;
        let mut p: usize = 0;
        let v: U256 = match read_u256(&pairs[j].1, &mut p) {
            Some(v) => v,
            None => {
                proof {
                    lemma_pow256_vals();
                    assert(!(exists|ws: Seq<U256>|
                        #![trigger parse_witness(ws, pairs@)]
                        {
                            &&& parse_witness(ws, pairs@)
                            &&& ws.len() == pairs@.len()
                            &&& (forall|i: int|
                                0 <= i < ws.len() ==> pairs@[i].1@ == enc_u256(#[trigger] ws[i])
                                    && true)
                        })) by {
                        if (exists|ws: Seq<U256>|
                            #![trigger parse_witness(ws, pairs@)]
                            {
                                &&& parse_witness(ws, pairs@)
                                &&& ws.len() == pairs@.len()
                                &&& (forall|i: int|
                                    0 <= i < ws.len() ==> pairs@[i].1@ == enc_u256(#[trigger] ws[i])
                                        && true)
                            }) {
                            let ws = choose|ws: Seq<U256>|
                                #![trigger parse_witness(ws, pairs@)]
                                {
                                    &&& parse_witness(ws, pairs@)
                                    &&& ws.len() == pairs@.len()
                                    &&& (forall|i: int|
                                        0 <= i < ws.len() ==> pairs@[i].1@ == enc_u256(
                                            #[trigger] ws[i],
                                        ) && true)
                                };
                            let vb = pairs@[j as int].1;
                            assert(vb@ =~= enc_u256(ws[j as int]) + Seq::<u8>::empty());
                            lemma_enc_u256_len(ws[j as int]);
                            assert(vb@.len() == 32);
                            assert(false);
                        }
                    }
                }
                return None;
            },
        };
        if p != pairs[j].1.len() {
            proof {
                lemma_pow256_vals();
                assert(!(exists|ws: Seq<U256>|
                    #![trigger parse_witness(ws, pairs@)]
                    {
                        &&& parse_witness(ws, pairs@)
                        &&& ws.len() == pairs@.len()
                        &&& (forall|i: int|
                            0 <= i < ws.len() ==> pairs@[i].1@ == enc_u256(#[trigger] ws[i])
                                && true)
                    })) by {
                    if (exists|ws: Seq<U256>|
                        #![trigger parse_witness(ws, pairs@)]
                        {
                            &&& parse_witness(ws, pairs@)
                            &&& ws.len() == pairs@.len()
                            &&& (forall|i: int|
                                0 <= i < ws.len() ==> pairs@[i].1@ == enc_u256(#[trigger] ws[i])
                                    && true)
                        }) {
                        let ws = choose|ws: Seq<U256>|
                            #![trigger parse_witness(ws, pairs@)]
                            {
                                &&& parse_witness(ws, pairs@)
                                &&& ws.len() == pairs@.len()
                                &&& (forall|i: int|
                                    0 <= i < ws.len() ==> pairs@[i].1@ == enc_u256(
                                        #[trigger] ws[i],
                                    ) && true)
                            };
                        let vb = pairs@[j as int].1;
                        assert(vb@ =~= enc_u256(ws[j as int]) + Seq::<u8>::empty());
                        lemma_enc_u256_len(ws[j as int]);
                        assert(vb@.len() == 32);
                        assert(false);
                    }
                }
            }
            return None;
        }
        proof {
            assert(pairs@[j as int].1@.subrange(0, p as int) =~= pairs@[j as int].1@);
        }
        t.insert(clone_bytes(&pairs[j].0), v);
        proof {
            vs = seq![v] + vs_old;
            assert(vs.drop_first() =~= vs_old);
            assert(kviews.skip(j as int).first() == pairs@[j as int].0@);
            assert(kviews.skip(j as int).drop_first() =~= kviews.skip(j + 1 as int));
            let vvs = Seq::new(vs.len(), |i: int| vs[i]@);
            assert(vvs.drop_first() =~= Seq::new(vs_old.len(), |i: int| vs_old[i]@));
            assert(vvs.first() == v@);
            assert(t@ == kv_map(kviews.skip(j as int), vvs));
        }
    }
    proof {
        assert(kviews.skip(0) =~= kviews);
    }
    Some(t)
}

/// Two equal streams starting with this kind of table hold the same map
/// and the same remainder.
#[verifier::rlimit(100)]
#[verifier::spinoff_prover]
pub proof fn lemma_table_rel_u256_unique(
    seg1: Seq<u8>,
    m1: Map<Seq<u8>, nat>,
    seg2: Seq<u8>,
    m2: Map<Seq<u8>, nat>,
    r1: Seq<u8>,
    r2: Seq<u8>,
)
    requires
        table_rel_u256(seg1, m1),
        table_rel_u256(seg2, m2),
        seg1 + r1 == seg2 + r2,
    ensures
        m1 == m2,
        r1 == r2,
{
    reveal(crate::codec::table_rel_u256);
    let (p1, vs1) = choose|p: Seq<(Vec<u8>, Vec<u8>)>, vs: Seq<U256>|
        #![trigger enc_pairs(p), vs.len()]
        {
            &&& enc_pairs(p) == seg1
            &&& p.len() < p64n()
            &&& p.len() <= usize::MAX
            &&& vs.len() == p.len()
            &&& (forall|i: int| 0 <= i < p.len() ==> pair_bb_bounded(#[trigger] p[i]))
            &&& (forall|i: int| 0 <= i < p.len() ==> pair_fits_f()(#[trigger] p[i]))
            &&& (forall|i: int|
                0 <= i < vs.len() ==> p[i].1@ == enc_u256(#[trigger] vs[i]) && true)
            &&& m1 == kv_map(key_views(p), Seq::new(vs.len(), |i: int| vs[i]@))
        };
    let (p2, vs2) = choose|p: Seq<(Vec<u8>, Vec<u8>)>, vs: Seq<U256>|
        #![trigger enc_pairs(p), vs.len()]
        {
            &&& enc_pairs(p) == seg2
            &&& p.len() < p64n()
            &&& p.len() <= usize::MAX
            &&& vs.len() == p.len()
            &&& (forall|i: int| 0 <= i < p.len() ==> pair_bb_bounded(#[trigger] p[i]))
            &&& (forall|i: int| 0 <= i < p.len() ==> pair_fits_f()(#[trigger] p[i]))
            &&& (forall|i: int|
                0 <= i < vs.len() ==> p[i].1@ == enc_u256(#[trigger] vs[i]) && true)
            &&& m2 == kv_map(key_views(p), Seq::new(vs.len(), |i: int| vs[i]@))
        };
    lemma_enc_pairs_prefix(p1, p2, r1, r2);
    assert(key_views(p1) =~= key_views(p2));
    assert forall|i: int| 0 <= i < vs1.len() implies #[trigger] vs1[i]@ == vs2[i]@ by {
        assert(enc_u256(vs1[i]) + Seq::<u8>::empty() =~= enc_u256(vs2[i]) + Seq::<u8>::empty());
        lemma_enc_u256_prefix(vs1[i], vs2[i], Seq::<u8>::empty(), Seq::<u8>::empty());
    }
    assert(Seq::new(vs1.len(), |i: int| vs1[i]@) =~= Seq::new(vs2.len(), |i: int| vs2[i]@));
}

/// A byte segment holding exactly one table whose map is `m`.
#[verifier::opaque]
pub open spec fn table_rel_account(seg: Seq<u8>, m: Map<Seq<u8>, crate::ledger::AccountView>) -> bool {
    exists|p: Seq<(Vec<u8>, Vec<u8>)>, vs: Seq<AccountState>|
        #![trigger enc_pairs(p), vs.len()]
        {
            &&& enc_pairs(p) == seg
            &&& p.len() < p64n()
            &&& p.len() <= usize::MAX
            &&& vs.len() == p.len()
            &&& (forall|i: int| 0 <= i < p.len() ==> pair_bb_bounded(#[trigger] p[i]))
            &&& (forall|i: int| 0 <= i < p.len() ==> pair_fits_f()(#[trigger] p[i]))
            &&& (forall|i: int|
                0 <= i < vs.len() ==> p[i].1@ == enc_account(#[trigger] vs[i]) && true)
            &&& m == kv_map(key_views(p), Seq::new(vs.len(), |i: int| vs[i]@))
        }
}

/// Lifts a table into byte pairs, each value encoded.
fn to_pairs_account(a: &AList<AccountState>) -> (r: Vec<(Vec<u8>, Vec<u8>)>)
    ensures
        r@.len() == a.spec_entries().len(),
        r@.len() <= usize::MAX,
        forall|i: int|
            0 <= i < r@.len() ==> pair_fits_f()(#[trigger] r@[i]),
        forall|i: int|
            0 <= i < r@.len() ==> (#[trigger] r@[i]).0@ == a.spec_entries()[i].0@ && r@[i].1@
                == enc_account(a.spec_entries()[i].1) && pair_bb_bounded(r@[i]) && true,
{
    proof {
        lemma_pow256_vals();
    }
    let mut r: Vec<(Vec<u8>, Vec<u8>)> = Vec::new();
    let mut i: usize = 0;
    while i < a.entry_count()
        invariant
            i <= a.spec_entries().len(),
            r@.len() == i,
            forall|j: int| 0 <= j < i ==> pair_fits_f()(#[trigger] r@[j]),
            forall|j: int|
                0 <= j < i ==> (#[trigger] r@[j]).0@ == a.spec_entries()[j].0@ && r@[j].1@
                    == enc_account(a.spec_entries()[j].1) && pair_bb_bounded(r@[j]) && true,
        decreases a.spec_entries().len() - i,
    {
        proof {
            lemma_pow256_vals();
        }
        let e = a.entry_at(i);
        let key = clone_bytes(&e.0);
        let _key_len = key.len();
        let mut vb: Vec<u8> = Vec::new();
        write_account_ref(&mut vb, &e.1);
        let _value_len = vb.len();
        proof {
            assert(vb@ =~= enc_account(a.spec_entries()[i as int].1));
        }
        r.push((key, vb));
        i = i + 1;
    }
    r
}

/// Parses every value of a byte-pair table and rebuilds the map, oldest
/// binding inserted first.
#[verifier::rlimit(100)]
#[verifier::spinoff_prover]
fn from_pairs_account(pairs: &Vec<(Vec<u8>, Vec<u8>)>) -> (r: Option<AList<AccountState>>)
    ensures
        (r is None ==> !(exists|ws: Seq<AccountState>|
            #![trigger parse_witness(ws, pairs@)]
            {
                &&& parse_witness(ws, pairs@)
                &&& ws.len() == pairs@.len()
                &&& (forall|i: int|
                    0 <= i < ws.len() ==> pairs@[i].1@ == enc_account(#[trigger] ws[i])
                        && true)
            })),
        (r matches Some(t) ==> exists|vs: Seq<AccountState>|
            {
                &&& #[trigger] vs.len() == pairs@.len()
                &&& (forall|i: int|
                    0 <= i < vs.len() ==> pairs@[i].1@ == enc_account(#[trigger] vs[i]) && true)
                &&& t@ == kv_map(key_views(pairs@), Seq::new(vs.len(), |i: int| vs[i]@))
            }),
{
    let ghost kviews = key_views(pairs@);
    let mut t: AList<AccountState> = AList::new();
    let ghost mut vs: Seq<AccountState> = Seq::empty();
    let mut j: usize = pairs.len();
    proof {
        assert(kviews.skip(pairs@.len() as int) =~= Seq::<Seq<u8>>::empty());
    }
    while j > 0
        invariant
            j <= pairs@.len(),
            kviews == key_views(pairs@),
            vs.len() == pairs@.len() - j,
            forall|i: int|
                0 <= i < vs.len() ==> pairs@[j + i].1@ == enc_account(#[trigger] vs[i]) && true,
            t@ == kv_map(kviews.skip(j as int), Seq::new(vs.len(), |i: int| vs[i]@)),
        decreases j,
    {
        let ghost vs_old = vs;
        j = j - 1;
        let mut p: usize = 0;
        let v: AccountState = match read_account(&pairs[j].1, &mut p) {
            Some(v) => v,
            None => {
                proof {
                    lemma_pow256_vals();
                    assert(!(exists|ws: Seq<AccountState>|
                        #![trigger parse_witness(ws, pairs@)]
                        {
                            &&& parse_witness(ws, pairs@)
                            &&& ws.len() == pairs@.len()
                            &&& (forall|i: int|
                                0 <= i < ws.len() ==> pairs@[i].1@ == enc_account(#[trigger] ws[i])
                                    && true)
                        })) by {
                        if (exists|ws: Seq<AccountState>|
                            #![trigger parse_witness(ws, pairs@)]
                            {
                                &&& parse_witness(ws, pairs@)
                                &&& ws.len() == pairs@.len()
                                &&& (forall|i: int|
                                    0 <= i < ws.len() ==> pairs@[i].1@ == enc_account(#[trigger] ws[i])
                                        && true)
                            }) {
                            let ws = choose|ws: Seq<AccountState>|
                                #![trigger parse_witness(ws, pairs@)]
                                {
                                    &&& parse_witness(ws, pairs@)
                                    &&& ws.len() == pairs@.len()
                                    &&& (forall|i: int|
                                        0 <= i < ws.len() ==> pairs@[i].1@ == enc_account(
                                            #[trigger] ws[i],
                                        ) && true)
                                };
                            let vb = pairs@[j as int].1;
                            assert(vb@ =~= enc_account(ws[j as int]) + Seq::<u8>::empty());
                            lemma_enc_u256_len(ws[j as int].balance);
                            lemma_le_bytes_len(ws[j as int].nonce as nat, 16);
                            assert(vb@.len() == 48);
                            assert(false);
                        }
                    }
                }
                return None;
            },
        };
        if p != pairs[j].1.len() {
            proof {
                lemma_pow256_vals();
                assert(!(exists|ws: Seq<AccountState>|
                    #![trigger parse_witness(ws, pairs@)]
                    {
                        &&& parse_witness(ws, pairs@)
                        &&& ws.len() == pairs@.len()
                        &&& (forall|i: int|
                            0 <= i < ws.len() ==> pairs@[i].1@ == enc_account(#[trigger] ws[i])
                                && true)
                    })) by {
                    if (exists|ws: Seq<AccountState>|
                        #![trigger parse_witness(ws, pairs@)]
                        {
                            &&& parse_witness(ws, pairs@)
                            &&& ws.len() == pairs@.len()
                            &&& (forall|i: int|
                                0 <= i < ws.len() ==> pairs@[i].1@ == enc_account(#[trigger] ws[i])
                                    && true)
                        }) {
                        let ws = choose|ws: Seq<AccountState>|
                            #![trigger parse_witness(ws, pairs@)]
                            {
                                &&& parse_witness(ws, pairs@)
                                &&& ws.len() == pairs@.len()
                                &&& (forall|i: int|
                                    0 <= i < ws.len() ==> pairs@[i].1@ == enc_account(
                                        #[trigger] ws[i],
                                    ) && true)
                            };
                        let vb = pairs@[j as int].1;
                        assert(vb@ =~= enc_account(ws[j as int]) + Seq::<u8>::empty());
                        lemma_enc_u256_len(ws[j as int].balance);
                        lemma_le_bytes_len(ws[j as int].nonce as nat, 16);
                        assert(vb@.len() == 48);
                        assert(false);
                    }
                }
            }
            return None;
        }
        proof {
            assert(pairs@[j as int].1@.subrange(0, p as int) =~= pairs@[j as int].1@);
        }
        t.insert(clone_bytes(&pairs[j].0), v);
        proof {
            vs = seq![v] + vs_old;
            assert(vs.drop_first() =~= vs_old);
            assert(kviews.skip(j as int).first() == pairs@[j as int].0@);
            assert(kviews.skip(j as int).drop_first() =~= kviews.skip(j + 1 as int));
            let vvs = Seq::new(vs.len(), |i: int| vs[i]@);
            assert(vvs.drop_first() =~= Seq::new(vs_old.len(), |i: int| vs_old[i]@));
            assert(vvs.first() == v@);
            assert(t@ == kv_map(kviews.skip(j as int), vvs));
        }
    }
    proof {
        assert(kviews.skip(0) =~= kviews);
    }
    Some(t)
}

/// Two equal streams starting with this kind of table hold the same map
/// and the same remainder.
#[verifier::rlimit(100)]
#[verifier::spinoff_prover]
pub proof fn lemma_table_rel_account_unique(
    seg1: Seq<u8>,
    m1: Map<Seq<u8>, crate::ledger::AccountView>,
    seg2: Seq<u8>,
    m2: Map<Seq<u8>, crate::ledger::AccountView>,
    r1: Seq<u8>,
    r2: Seq<u8>,
)
    requires
        table_rel_account(seg1, m1),
        table_rel_account(seg2, m2),
        seg1 + r1 == seg2 + r2,
    ensures
        m1 == m2,
        r1 == r2,
{
    reveal(crate::codec::table_rel_account);
    let (p1, vs1) = choose|p: Seq<(Vec<u8>, Vec<u8>)>, vs: Seq<AccountState>|
        #![trigger enc_pairs(p), vs.len()]
        {
            &&& enc_pairs(p) == seg1
            &&& p.len() < p64n()
            &&& p.len() <= usize::MAX
            &&& vs.len() == p.len()
            &&& (forall|i: int| 0 <= i < p.len() ==> pair_bb_bounded(#[trigger] p[i]))
            &&& (forall|i: int| 0 <= i < p.len() ==> pair_fits_f()(#[trigger] p[i]))
            &&& (forall|i: int|
                0 <= i < vs.len() ==> p[i].1@ == enc_account(#[trigger] vs[i]) && true)
            &&& m1 == kv_map(key_views(p), Seq::new(vs.len(), |i: int| vs[i]@))
        };
    let (p2, vs2) = choose|p: Seq<(Vec<u8>, Vec<u8>)>, vs: Seq<AccountState>|
        #![trigger enc_pairs(p), vs.len()]
        {
            &&& enc_pairs(p) == seg2
            &&& p.len() < p64n()
            &&& p.len() <= usize::MAX
            &&& vs.len() == p.len()
            &&& (forall|i: int| 0 <= i < p.len() ==> pair_bb_bounded(#[trigger] p[i]))
            &&& (forall|i: int| 0 <= i < p.len() ==> pair_fits_f()(#[trigger] p[i]))
            &&& (forall|i: int|
                0 <= i < vs.len() ==> p[i].1@ == enc_account(#[trigger] vs[i]) && true)
            &&& m2 == kv_map(key_views(p), Seq::new(vs.len(), |i: int| vs[i]@))
        };
    lemma_enc_pairs_prefix(p1, p2, r1, r2);
    assert(key_views(p1) =~= key_views(p2));
    assert forall|i: int| 0 <= i < vs1.len() implies #[trigger] vs1[i]@ == vs2[i]@ by {
        assert(enc_account(vs1[i]) + Seq::<u8>::empty() =~= enc_account(vs2[i]) + Seq::<u8>::empty());
        lemma_enc_account_prefix(vs1[i], vs2[i], Seq::<u8>::empty(), Seq::<u8>::empty());
    }
    assert(Seq::new(vs1.len(), |i: int| vs1[i]@) =~= Seq::new(vs2.len(), |i: int| vs2[i]@));
}

proof fn lemma_table_rel_from_pairs_block(a: &AList<Block>, p: Seq<(Vec<u8>, Vec<u8>)>)
    requires
        p.len() == a.spec_entries().len(),
        p.len() < p64n(),
        p.len() <= usize::MAX,
        forall|i: int| 0 <= i < p.len() ==> pair_fits_f()(#[trigger] p[i]),
        forall|i: int|
            0 <= i < p.len() ==> (#[trigger] p[i]).0@ == a.spec_entries()[i].0@ && p[i].1@
                == enc_block(a.spec_entries()[i].1) && pair_bb_bounded(p[i]) && block_bounded(a.spec_entries()[i].1) && block_fits(a.spec_entries()[i].1),
    ensures
        table_rel_block(enc_pairs(p), a@),
{
    reveal(crate::codec::table_rel_block);
    a.lemma_entries_view();
    lemma_alist_map_as_kv(a.spec_entries());
    let vs = Seq::new(a.spec_entries().len(), |i: int| a.spec_entries()[i].1);
    assert(key_views(p) =~= Seq::new(
        a.spec_entries().len(),
        |i: int| a.spec_entries()[i].0@,
    ));
    assert(Seq::new(vs.len(), |i: int| vs[i]@) =~= Seq::new(
        a.spec_entries().len(),
        |i: int| a.spec_entries()[i].1@,
    ));
    assert(a@ == kv_map(key_views(p), Seq::new(vs.len(), |i: int| vs[i]@)));
    assert(table_rel_block(enc_pairs(p), a@));
}

proof fn lemma_table_rel_from_pairs_vbytes(a: &AList<Vec<u8>>, p: Seq<(Vec<u8>, Vec<u8>)>)
    requires
        p.len() == a.spec_entries().len(),
        p.len() < p64n(),
        p.len() <= usize::MAX,
        forall|i: int| 0 <= i < p.len() ==> pair_fits_f()(#[trigger] p[i]),
        forall|i: int|
            0 <= i < p.len() ==> (#[trigger] p[i]).0@ == a.spec_entries()[i].0@ && p[i].1@
                == enc_vbytes(a.spec_entries()[i].1) && pair_bb_bounded(p[i]) && (a.spec_entries()[i].1@.len() < p64n()) && (a.spec_entries()[i].1@.len() <= usize::MAX),
    ensures
        table_rel_vbytes(enc_pairs(p), a@),
{
    reveal(crate::codec::table_rel_vbytes);
    a.lemma_entries_view();
    lemma_alist_map_as_kv(a.spec_entries());
    let vs = Seq::new(a.spec_entries().len(), |i: int| a.spec_entries()[i].1);
    assert(key_views(p) =~= Seq::new(
        a.spec_entries().len(),
        |i: int| a.spec_entries()[i].0@,
    ));
    assert(Seq::new(vs.len(), |i: int| vs[i]@) =~= Seq::new(
        a.spec_entries().len(),
        |i: int| a.spec_entries()[i].1@,
    ));
    assert(a@ == kv_map(key_views(p), Seq::new(vs.len(), |i: int| vs[i]@)));
    assert(table_rel_vbytes(enc_pairs(p), a@));
}

proof fn lemma_table_rel_from_pairs_u256(a: &AList<U256>, p: Seq<(Vec<u8>, Vec<u8>)>)
    requires
        p.len() == a.spec_entries().len(),
        p.len() < p64n(),
        p.len() <= usize::MAX,
        forall|i: int| 0 <= i < p.len() ==> pair_fits_f()(#[trigger] p[i]),
        forall|i: int|
            0 <= i < p.len() ==> (#[trigger] p[i]).0@ == a.spec_entries()[i].0@ && p[i].1@
                == enc_u256(a.spec_entries()[i].1) && pair_bb_bounded(p[i]) && true,
    ensures
        table_rel_u256(enc_pairs(p), a@),
{
    reveal(crate::codec::table_rel_u256);
    a.lemma_entries_view();
    lemma_alist_map_as_kv(a.spec_entries());
    let vs = Seq::new(a.spec_entries().len(), |i: int| a.spec_entries()[i].1);
    assert(key_views(p) =~= Seq::new(
        a.spec_entries().len(),
        |i: int| a.spec_entries()[i].0@,
    ));
    assert(Seq::new(vs.len(), |i: int| vs[i]@) =~= Seq::new(
        a.spec_entries().len(),
        |i: int| a.spec_entries()[i].1@,
    ));
    assert(a@ == kv_map(key_views(p), Seq::new(vs.len(), |i: int| vs[i]@)));
    assert(table_rel_u256(enc_pairs(p), a@));
}

proof fn lemma_table_rel_from_pairs_account(a: &AList<AccountState>, p: Seq<(Vec<u8>, Vec<u8>)>)
    requires
        p.len() == a.spec_entries().len(),
        p.len() < p64n(),
        p.len() <= usize::MAX,
        forall|i: int| 0 <= i < p.len() ==> pair_fits_f()(#[trigger] p[i]),
        forall|i: int|
            0 <= i < p.len() ==> (#[trigger] p[i]).0@ == a.spec_entries()[i].0@ && p[i].1@
                == enc_account(a.spec_entries()[i].1) && pair_bb_bounded(p[i]) && true,
    ensures
        table_rel_account(enc_pairs(p), a@),
{
    reveal(crate::codec::table_rel_account);
    a.lemma_entries_view();
    lemma_alist_map_as_kv(a.spec_entries());
    let vs = Seq::new(a.spec_entries().len(), |i: int| a.spec_entries()[i].1);
    assert(key_views(p) =~= Seq::new(
        a.spec_entries().len(),
        |i: int| a.spec_entries()[i].0@,
    ));
    assert(Seq::new(vs.len(), |i: int| vs[i]@) =~= Seq::new(
        a.spec_entries().len(),
        |i: int| a.spec_entries()[i].1@,
    ));
    assert(a@ == kv_map(key_views(p), Seq::new(vs.len(), |i: int| vs[i]@)));
    assert(table_rel_account(enc_pairs(p), a@));
}

/// Trigger marker for quantifying over the five snapshot table segments.
pub open spec fn snapshot_segments(
    s1: Seq<u8>,
    s2: Seq<u8>,
    s3: Seq<u8>,
    s4: Seq<u8>,
    s5: Seq<u8>,
) -> bool {
    true
}

/// The scalar tail of a snapshot: difficulty, the three parameters, the
/// mining reward and the tip.
pub open spec fn snapshot_tail(c: Blockchain) -> Seq<u8> {
    let d6 = enc_u256(c.difficulty);
    let d7 = enc_u64(c.target_duration_between_blocks);
    let d8 = enc_u64(c.max_transactions_per_block as u64);
    let d9 = enc_u64(c.blocks_between_difficulty_adjustment);
    let d10 = enc_u256(c.mining_reward);
    let d11 = enc_bytes(c.current_longest_chain_latest_block_hash@);
    let r10 = d10 + d11;
    let r9 = d9 + r10;
    let r8 = d8 + r9;
    let r7 = d7 + r8;
    d6 + r7
}

/// The bytes hold exactly one chain snapshot whose state components are
/// those of `c`: the five tables, then the scalar tail.
#[verifier::opaque]
pub open spec fn snapshot_rel(bytes: Seq<u8>, c: Blockchain) -> bool {
    exists|s1: Seq<u8>, s2: Seq<u8>, s3: Seq<u8>, s4: Seq<u8>, s5: Seq<u8>|
        #![trigger snapshot_segments(s1, s2, s3, s4, s5)]
        {
            &&& snapshot_segments(s1, s2, s3, s4, s5)
            &&& ({
                let r5 = s5 + snapshot_tail(c);
                let r4 = s4 + r5;
                let r3 = s3 + r4;
                let r2 = s2 + r3;
                bytes == s1 + r2
            })
            &&& c.current_longest_chain_latest_block_hash@.len() <= usize::MAX
            &&& table_rel_block(s1, c.blocks())
            &&& table_rel_vbytes(s2, c.miners())
            &&& table_rel_vbytes(s3, c.parents())
            &&& table_rel_u256(s4, c.cums())
            &&& table_rel_account(s5, c.ledger())
        }
}

proof fn lemma_cat_assoc(x: Seq<u8>, y: Seq<u8>, z: Seq<u8>)
    ensures
        (x + y) + z == x + (y + z),
{
    assert((x + y) + z =~= x + (y + z));
}


/// A byte segment that is exactly one bounded pair table.
pub open spec fn pairs_seg(s: Seq<u8>) -> bool {
    exists|p: Seq<(Vec<u8>, Vec<u8>)>|
        #![trigger enc_pairs(p)]
        {
            &&& enc_pairs(p) == s
            &&& p.len() < p64n()
            &&& p.len() <= usize::MAX
            &&& (forall|i: int| 0 <= i < p.len() ==> pair_bb_bounded(#[trigger] p[i]))
            &&& (forall|i: int| 0 <= i < p.len() ==> pair_fits_f()(#[trigger] p[i]))
        }
}

/// Two pair tables heading the same stream end at the same place.
proof fn lemma_pairs_seg_align(src: Seq<u8>, a: int, b: int, wseg: Seq<u8>, wrest: Seq<u8>)
    requires
        0 <= a <= b <= src.len(),
        pairs_seg(src.subrange(a, b)),
        pairs_seg(wseg),
        src.subrange(a, src.len() as int) == wseg + wrest,
    ensures
        src.subrange(b, src.len() as int) == wrest,
{
    let n = src.len() as int;
    let pg = choose|p: Seq<(Vec<u8>, Vec<u8>)>|
        #![trigger enc_pairs(p)]
        {
            &&& enc_pairs(p) == src.subrange(a, b)
            &&& p.len() < p64n()
            &&& p.len() <= usize::MAX
            &&& (forall|i: int| 0 <= i < p.len() ==> pair_bb_bounded(#[trigger] p[i]))
            &&& (forall|i: int| 0 <= i < p.len() ==> pair_fits_f()(#[trigger] p[i]))
        };
    let pw = choose|p: Seq<(Vec<u8>, Vec<u8>)>|
        #![trigger enc_pairs(p)]
        {
            &&& enc_pairs(p) == wseg
            &&& p.len() < p64n()
            &&& p.len() <= usize::MAX
            &&& (forall|i: int| 0 <= i < p.len() ==> pair_bb_bounded(#[trigger] p[i]))
            &&& (forall|i: int| 0 <= i < p.len() ==> pair_fits_f()(#[trigger] p[i]))
        };
    assert(src.subrange(a, n) =~= src.subrange(a, b) + src.subrange(b, n));
    lemma_enc_pairs_prefix(pg, pw, src.subrange(b, n), wrest);
}

/// A byte segment that is exactly one table of this value kind.
pub open spec fn table_seg_block(seg: Seq<u8>) -> bool {
    exists|p: Seq<(Vec<u8>, Vec<u8>)>, vs: Seq<Block>|
        #![trigger enc_pairs(p), vs.len()]
        {
            &&& enc_pairs(p) == seg
            &&& p.len() < p64n()
            &&& p.len() <= usize::MAX
            &&& vs.len() == p.len()
            &&& (forall|i: int| 0 <= i < p.len() ==> pair_bb_bounded(#[trigger] p[i]))
            &&& (forall|i: int| 0 <= i < p.len() ==> pair_fits_f()(#[trigger] p[i]))
            &&& (forall|i: int|
                0 <= i < vs.len() ==> p[i].1@ == enc_block(vs[i]) && block_bounded(#[trigger] vs[i]) && block_fits(vs[i]))
        }
}

proof fn lemma_table_seg_block_pairs_seg(seg: Seq<u8>)
    requires
        table_seg_block(seg),
    ensures
        pairs_seg(seg),
{
    let (p, vs) = choose|p: Seq<(Vec<u8>, Vec<u8>)>, vs: Seq<Block>|
        #![trigger enc_pairs(p), vs.len()]
        {
            &&& enc_pairs(p) == seg
            &&& p.len() < p64n()
            &&& p.len() <= usize::MAX
            &&& vs.len() == p.len()
            &&& (forall|i: int| 0 <= i < p.len() ==> pair_bb_bounded(#[trigger] p[i]))
            &&& (forall|i: int| 0 <= i < p.len() ==> pair_fits_f()(#[trigger] p[i]))
            &&& (forall|i: int|
                0 <= i < vs.len() ==> p[i].1@ == enc_block(vs[i]) && block_bounded(#[trigger] vs[i]) && block_fits(vs[i]))
        };
    assert(pairs_seg(seg));
}

proof fn lemma_table_rel_block_seg(seg: Seq<u8>, m: Map<Seq<u8>, crate::block::BlockView>)
    requires
        table_rel_block(seg, m),
    ensures
        table_seg_block(seg),
        pairs_seg(seg),
{
    reveal(crate::codec::table_rel_block);
    let (p, vs) = choose|p: Seq<(Vec<u8>, Vec<u8>)>, vs: Seq<Block>|
        #![trigger enc_pairs(p), vs.len()]
        {
            &&& enc_pairs(p) == seg
            &&& p.len() < p64n()
            &&& p.len() <= usize::MAX
            &&& vs.len() == p.len()
            &&& (forall|i: int| 0 <= i < p.len() ==> pair_bb_bounded(#[trigger] p[i]))
            &&& (forall|i: int| 0 <= i < p.len() ==> pair_fits_f()(#[trigger] p[i]))
            &&& (forall|i: int|
                0 <= i < vs.len() ==> p[i].1@ == enc_block(#[trigger] vs[i]) && block_bounded(vs[i]) && block_fits(vs[i]))
            &&& m == kv_map(key_views(p), Seq::new(vs.len(), |i: int| vs[i]@))
        };
    assert(table_seg_block(seg));
    lemma_table_seg_block_pairs_seg(seg);
}

/// A byte segment that is exactly one table of this value kind.
pub open spec fn table_seg_vbytes(seg: Seq<u8>) -> bool {
    exists|p: Seq<(Vec<u8>, Vec<u8>)>, vs: Seq<Vec<u8>>|
        #![trigger enc_pairs(p), vs.len()]
        {
            &&& enc_pairs(p) == seg
            &&& p.len() < p64n()
            &&& p.len() <= usize::MAX
            &&& vs.len() == p.len()
            &&& (forall|i: int| 0 <= i < p.len() ==> pair_bb_bounded(#[trigger] p[i]))
            &&& (forall|i: int| 0 <= i < p.len() ==> pair_fits_f()(#[trigger] p[i]))
            &&& (forall|i: int|
                0 <= i < vs.len() ==> p[i].1@ == enc_vbytes(vs[i]) && ((#[trigger] vs[i])@.len() < p64n()))
        }
}

proof fn lemma_table_seg_vbytes_pairs_seg(seg: Seq<u8>)
    requires
        table_seg_vbytes(seg),
    ensures
        pairs_seg(seg),
{
    let (p, vs) = choose|p: Seq<(Vec<u8>, Vec<u8>)>, vs: Seq<Vec<u8>>|
        #![trigger enc_pairs(p), vs.len()]
        {
            &&& enc_pairs(p) == seg
            &&& p.len() < p64n()
            &&& p.len() <= usize::MAX
            &&& vs.len() == p.len()
            &&& (forall|i: int| 0 <= i < p.len() ==> pair_bb_bounded(#[trigger] p[i]))
            &&& (forall|i: int| 0 <= i < p.len() ==> pair_fits_f()(#[trigger] p[i]))
            &&& (forall|i: int|
                0 <= i < vs.len() ==> p[i].1@ == enc_vbytes(vs[i]) && ((#[trigger] vs[i])@.len() < p64n()))
        };
    assert(pairs_seg(seg));
}

proof fn lemma_table_rel_vbytes_seg(seg: Seq<u8>, m: Map<Seq<u8>, Seq<u8>>)
    requires
        table_rel_vbytes(seg, m),
    ensures
        table_seg_vbytes(seg),
        pairs_seg(seg),
{
    reveal(crate::codec::table_rel_vbytes);
    let (p, vs) = choose|p: Seq<(Vec<u8>, Vec<u8>)>, vs: Seq<Vec<u8>>|
        #![trigger enc_pairs(p), vs.len()]
        {
            &&& enc_pairs(p) == seg
            &&& p.len() < p64n()
            &&& p.len() <= usize::MAX
            &&& vs.len() == p.len()
            &&& (forall|i: int| 0 <= i < p.len() ==> pair_bb_bounded(#[trigger] p[i]))
            &&& (forall|i: int| 0 <= i < p.len() ==> pair_fits_f()(#[trigger] p[i]))
            &&& (forall|i: int|
                0 <= i < vs.len() ==> p[i].1@ == enc_vbytes(#[trigger] vs[i]) && (vs[i]@.len() < p64n()) && (vs[i]@.len() <= usize::MAX))
            &&& m == kv_map(key_views(p), Seq::new(vs.len(), |i: int| vs[i]@))
        };
    assert(table_seg_vbytes(seg));
    lemma_table_seg_vbytes_pairs_seg(seg);
}

/// A byte segment that is exactly one table of this value kind.
pub open spec fn table_seg_u256(seg: Seq<u8>) -> bool {
    exists|p: Seq<(Vec<u8>, Vec<u8>)>, vs: Seq<U256>|
        #![trigger enc_pairs(p), vs.len()]
        {
            &&& enc_pairs(p) == seg
            &&& p.len() < p64n()
            &&& p.len() <= usize::MAX
            &&& vs.len() == p.len()
            &&& (forall|i: int| 0 <= i < p.len() ==> pair_bb_bounded(#[trigger] p[i]))
            &&& (forall|i: int| 0 <= i < p.len() ==> pair_fits_f()(#[trigger] p[i]))
            &&& (forall|i: int|
                0 <= i < vs.len() ==> p[i].1@ == enc_u256(vs[i]) && (#[trigger] vs[i] == vs[i]))
        }
}

proof fn lemma_table_seg_u256_pairs_seg(seg: Seq<u8>)
    requires
        table_seg_u256(seg),
    ensures
        pairs_seg(seg),
{
    let (p, vs) = choose|p: Seq<(Vec<u8>, Vec<u8>)>, vs: Seq<U256>|
        #![trigger enc_pairs(p), vs.len()]
        {
            &&& enc_pairs(p) == seg
            &&& p.len() < p64n()
            &&& p.len() <= usize::MAX
            &&& vs.len() == p.len()
            &&& (forall|i: int| 0 <= i < p.len() ==> pair_bb_bounded(#[trigger] p[i]))
            &&& (forall|i: int| 0 <= i < p.len() ==> pair_fits_f()(#[trigger] p[i]))
            &&& (forall|i: int|
                0 <= i < vs.len() ==> p[i].1@ == enc_u256(vs[i]) && (#[trigger] vs[i] == vs[i]))
        };
    assert(pairs_seg(seg));
}

proof fn lemma_table_rel_u256_seg(seg: Seq<u8>, m: Map<Seq<u8>, nat>)
    requires
        table_rel_u256(seg, m),
    ensures
        table_seg_u256(seg),
        pairs_seg(seg),
{
    reveal(crate::codec::table_rel_u256);
    let (p, vs) = choose|p: Seq<(Vec<u8>, Vec<u8>)>, vs: Seq<U256>|
        #![trigger enc_pairs(p), vs.len()]
        {
            &&& enc_pairs(p) == seg
            &&& p.len() < p64n()
            &&& p.len() <= usize::MAX
            &&& vs.len() == p.len()
            &&& (forall|i: int| 0 <= i < p.len() ==> pair_bb_bounded(#[trigger] p[i]))
            &&& (forall|i: int| 0 <= i < p.len() ==> pair_fits_f()(#[trigger] p[i]))
            &&& (forall|i: int|
                0 <= i < vs.len() ==> p[i].1@ == enc_u256(#[trigger] vs[i]) && true)
            &&& m == kv_map(key_views(p), Seq::new(vs.len(), |i: int| vs[i]@))
        };
    assert(table_seg_u256(seg));
    lemma_table_seg_u256_pairs_seg(seg);
}

/// A byte segment that is exactly one table of this value kind.
pub open spec fn table_seg_account(seg: Seq<u8>) -> bool {
    exists|p: Seq<(Vec<u8>, Vec<u8>)>, vs: Seq<AccountState>|
        #![trigger enc_pairs(p), vs.len()]
        {
            &&& enc_pairs(p) == seg
            &&& p.len() < p64n()
            &&& p.len() <= usize::MAX
            &&& vs.len() == p.len()
            &&& (forall|i: int| 0 <= i < p.len() ==> pair_bb_bounded(#[trigger] p[i]))
            &&& (forall|i: int| 0 <= i < p.len() ==> pair_fits_f()(#[trigger] p[i]))
            &&& (forall|i: int|
                0 <= i < vs.len() ==> p[i].1@ == enc_account(vs[i]) && (#[trigger] vs[i] == vs[i]))
        }
}

proof fn lemma_table_seg_account_pairs_seg(seg: Seq<u8>)
    requires
        table_seg_account(seg),
    ensures
        pairs_seg(seg),
{
    let (p, vs) = choose|p: Seq<(Vec<u8>, Vec<u8>)>, vs: Seq<AccountState>|
        #![trigger enc_pairs(p), vs.len()]
        {
            &&& enc_pairs(p) == seg
            &&& p.len() < p64n()
            &&& p.len() <= usize::MAX
            &&& vs.len() == p.len()
            &&& (forall|i: int| 0 <= i < p.len() ==> pair_bb_bounded(#[trigger] p[i]))
            &&& (forall|i: int| 0 <= i < p.len() ==> pair_fits_f()(#[trigger] p[i]))
            &&& (forall|i: int|
                0 <= i < vs.len() ==> p[i].1@ == enc_account(vs[i]) && (#[trigger] vs[i] == vs[i]))
        };
    assert(pairs_seg(seg));
}

proof fn lemma_table_rel_account_seg(seg: Seq<u8>, m: Map<Seq<u8>, crate::ledger::AccountView>)
    requires
        table_rel_account(seg, m),
    ensures
        table_seg_account(seg),
        pairs_seg(seg),
{
    reveal(crate::codec::table_rel_account);
    let (p, vs) = choose|p: Seq<(Vec<u8>, Vec<u8>)>, vs: Seq<AccountState>|
        #![trigger enc_pairs(p), vs.len()]
        {
            &&& enc_pairs(p) == seg
            &&& p.len() < p64n()
            &&& p.len() <= usize::MAX
            &&& vs.len() == p.len()
            &&& (forall|i: int| 0 <= i < p.len() ==> pair_bb_bounded(#[trigger] p[i]))
            &&& (forall|i: int| 0 <= i < p.len() ==> pair_fits_f()(#[trigger] p[i]))
            &&& (forall|i: int|
                0 <= i < vs.len() ==> p[i].1@ == enc_account(#[trigger] vs[i]) && true)
            &&& m == kv_map(key_views(p), Seq::new(vs.len(), |i: int| vs[i]@))
        };
    assert(table_seg_account(seg));
    lemma_table_seg_account_pairs_seg(seg);
}

/// The five tables of a snapshot, in order.
pub open spec fn tables_rel(
    seg: Seq<u8>,
    c: Blockchain,
    s1: Seq<u8>,
    s2: Seq<u8>,
    s3: Seq<u8>,
    s4: Seq<u8>,
    s5: Seq<u8>,
) -> bool {
    let l2 = s1 + s2;
    let l3 = l2 + s3;
    let l4 = l3 + s4;
    let l5 = l4 + s5;
    &&& seg == l5
    &&& table_rel_block(s1, c.blocks())
    &&& table_rel_vbytes(s2, c.miners())
    &&& table_rel_vbytes(s3, c.parents())
    &&& table_rel_u256(s4, c.cums())
    &&& table_rel_account(s5, c.ledger())
}

/// Writes the five chain tables.
#[verifier::rlimit(100)]
#[verifier::spinoff_prover]
fn write_snapshot_tables(out: &mut Vec<u8>, c: &Blockchain) -> (segs: Ghost<
    (Seq<u8>, Seq<u8>, Seq<u8>, Seq<u8>, Seq<u8>),
>)
    ensures
        ({
            let (s1, s2, s3, s4, s5) = segs@;
            let l5 = (((s1 + s2) + s3) + s4) + s5;
            final(out)@ == old(out)@ + l5 && tables_rel(l5, *c, s1, s2, s3, s4, s5)
        }),
{
    let ghost out0 = out@;
    let pairs1 = to_pairs_block(&c.hash_to_block);
    let ghost s1 = enc_pairs(pairs1@);
    write_pairs(out, &pairs1);
    proof {
        lemma_table_rel_from_pairs_block(&c.hash_to_block, pairs1@);
    }
    let pairs2 = to_pairs_vbytes(&c.hash_to_miner);
    let ghost s2 = enc_pairs(pairs2@);
    write_pairs(out, &pairs2);
    proof {
        lemma_table_rel_from_pairs_vbytes(&c.hash_to_miner, pairs2@);
    }
    let pairs3 = to_pairs_vbytes(&c.block_parent_map);
    let ghost s3 = enc_pairs(pairs3@);
    write_pairs(out, &pairs3);
    proof {
        lemma_table_rel_from_pairs_vbytes(&c.block_parent_map, pairs3@);
    }
    let pairs4 = to_pairs_u256(&c.hash_to_cumulative_difficulty);
    let ghost s4 = enc_pairs(pairs4@);
    write_pairs(out, &pairs4);
    proof {
        lemma_table_rel_from_pairs_u256(&c.hash_to_cumulative_difficulty, pairs4@);
    }
    let pairs5 = to_pairs_account(&c.accounts);
    let ghost s5 = enc_pairs(pairs5@);
    write_pairs(out, &pairs5);
    proof {
        lemma_table_rel_from_pairs_account(&c.accounts, pairs5@);
        let l2 = s1 + s2;
        let l3 = l2 + s3;
        let l4 = l3 + s4;
        let l5 = l4 + s5;
        assert(out@ =~= out0 + l5);
        assert(tables_rel(l5, *c, s1, s2, s3, s4, s5));
    }
    Ghost((s1, s2, s3, s4, s5))
}

/// Serializes the whole chain state.
#[verifier::rlimit(100)]
#[verifier::spinoff_prover]
pub fn serialize_chain(c: &Blockchain) -> (r: Vec<u8>)
    ensures
        snapshot_rel(r@, *c),
{
    proof {
        lemma_pow256_vals();
    }
    let mut out: Vec<u8> = Vec::new();
    let ghost pre0 = out@;
    let segs = write_snapshot_tables(&mut out, c);
    let ghost (s1, s2, s3, s4, s5) = segs@;
    let ghost l5 = (((s1 + s2) + s3) + s4) + s5;
    proof {
        assert(pre0 =~= Seq::<u8>::empty());
        assert(pre0 + l5 =~= l5);
        assert(out@ == l5);
    }
    write_u256(&mut out, &c.difficulty);
    write_u64(&mut out, c.target_duration_between_blocks);
    write_u64(&mut out, c.max_transactions_per_block as u64);
    write_u64(&mut out, c.blocks_between_difficulty_adjustment);
    write_u256(&mut out, &c.mining_reward);
    let _tip_len = c.current_longest_chain_latest_block_hash.len();
    write_bytes(&mut out, &c.current_longest_chain_latest_block_hash);
    proof {
        let d6 = enc_u256(c.difficulty);
        let d7 = enc_u64(c.target_duration_between_blocks);
        let d8 = enc_u64(c.max_transactions_per_block as u64);
        let d9 = enc_u64(c.blocks_between_difficulty_adjustment);
        let d10 = enc_u256(c.mining_reward);
        let d11 = enc_bytes(c.current_longest_chain_latest_block_hash@);
        let l6 = l5 + d6;
        let l7 = l6 + d7;
        let l8 = l7 + d8;
        let l9 = l8 + d9;
        let l10 = l9 + d10;
        let l11 = l10 + d11;
        assert(out@ == l11);
        lemma_snapshot_assemble(out@, *c, s1, s2, s3, s4, s5);
    }
    out
}

/// Packages segment facts into the snapshot relation.
#[verifier::rlimit(100)]
#[verifier::spinoff_prover]
proof fn lemma_snapshot_assemble(
    bytes: Seq<u8>,
    c: Blockchain,
    s1: Seq<u8>,
    s2: Seq<u8>,
    s3: Seq<u8>,
    s4: Seq<u8>,
    s5: Seq<u8>,
)
    requires
        tables_rel((((s1 + s2) + s3) + s4) + s5, c, s1, s2, s3, s4, s5),
        c.current_longest_chain_latest_block_hash@.len() <= usize::MAX,
        ({
            let l5 = (((s1 + s2) + s3) + s4) + s5;
            let l6 = l5 + enc_u256(c.difficulty);
            let l7 = l6 + enc_u64(c.target_duration_between_blocks);
            let l8 = l7 + enc_u64(c.max_transactions_per_block as u64);
            let l9 = l8 + enc_u64(c.blocks_between_difficulty_adjustment);
            let l10 = l9 + enc_u256(c.mining_reward);
            let l11 = l10 + enc_bytes(c.current_longest_chain_latest_block_hash@);
            bytes == l11
        }),
    ensures
        snapshot_rel(bytes, c),
{
    let d6 = enc_u256(c.difficulty);
    let d7 = enc_u64(c.target_duration_between_blocks);
    let d8 = enc_u64(c.max_transactions_per_block as u64);
    let d9 = enc_u64(c.blocks_between_difficulty_adjustment);
    let d10 = enc_u256(c.mining_reward);
    let d11 = enc_bytes(c.current_longest_chain_latest_block_hash@);
    let l2 = s1 + s2;
    let l3 = l2 + s3;
    let l4 = l3 + s4;
    let l5 = l4 + s5;
    let l6 = l5 + d6;
    let l7 = l6 + d7;
    let l8 = l7 + d8;
    let l9 = l8 + d9;
    let l10 = l9 + d10;
    let l11 = l10 + d11;
    let r10 = d10 + d11;
    let r9 = d9 + r10;
    let r8 = d8 + r9;
    let r7 = d7 + r8;
    let r6 = d6 + r7;
    let r5 = s5 + r6;
    let r4 = s4 + r5;
    let r3 = s3 + r4;
    let r2 = s2 + r3;
    lemma_cat_assoc(l9, d10, d11);
    assert(l11 == l9 + r10);
    lemma_cat_assoc(l8, d9, r10);
    assert(l11 == l8 + r9);
    lemma_cat_assoc(l7, d8, r9);
    assert(l11 == l7 + r8);
    lemma_cat_assoc(l6, d7, r8);
    assert(l11 == l6 + r7);
    lemma_cat_assoc(l5, d6, r7);
    assert(l11 == l5 + r6);
    lemma_cat_assoc(l4, s5, r6);
    assert(l11 == l4 + r5);
    lemma_cat_assoc(l3, s4, r5);
    assert(l11 == l3 + r4);
    lemma_cat_assoc(l2, s3, r4);
    assert(l11 == l2 + r3);
    lemma_cat_assoc(s1, s2, r3);
    assert(l11 == s1 + r2);
    assert(r6 == snapshot_tail(c));
    assert(snapshot_segments(s1, s2, s3, s4, s5));
    reveal(crate::codec::snapshot_rel);
    assert(snapshot_rel(bytes, c));
}



/// A table segment at the head of a stream is a pair-table prefix.
#[verifier::spinoff_prover]
proof fn lemma_table_seg_block_prefix(seg: Seq<u8>, tail: Seq<u8>, s: Seq<u8>)
    requires
        table_seg_block(seg),
        s == seg + tail,
    ensures
        pairs_prefix(s),
{
    lemma_table_seg_block_pairs_seg(seg);
    let p = choose|p: Seq<(Vec<u8>, Vec<u8>)>|
        #![trigger enc_pairs(p)]
        {
            &&& enc_pairs(p) == seg
            &&& p.len() < p64n()
            &&& p.len() <= usize::MAX
            &&& (forall|i: int| 0 <= i < p.len() ==> pair_bb_bounded(#[trigger] p[i]))
            &&& (forall|i: int| 0 <= i < p.len() ==> pair_fits_f()(#[trigger] p[i]))
        };
    lemma_pow256_vals();
    assert(parse_witness(p, tail));
    assert(p.len() <= usize::MAX);
    assert forall|i: int| 0 <= i < p.len() implies pair_fits_f()(#[trigger] p[i]) by {}
    assert(s == enc_pairs(p) + tail);
    assert(pairs_prefix(s));
}

/// Pairs read back from a table segment carry exactly its parseable
/// values.
#[verifier::spinoff_prover]
proof fn lemma_table_seg_block_values(
    seg: Seq<u8>,
    tail: Seq<u8>,
    s: Seq<u8>,
    psk: Seq<(Vec<u8>, Vec<u8>)>,
    srest: Seq<u8>,
)
    requires
        table_seg_block(seg),
        s == seg + tail,
        s == enc_pairs(psk) + srest,
        psk.len() < p64n(),
        psk.len() <= usize::MAX,
        forall|i: int| 0 <= i < psk.len() ==> pair_bb_bounded(#[trigger] psk[i]),
        forall|i: int| 0 <= i < psk.len() ==> pair_fits_f()(#[trigger] psk[i]),
    ensures
        exists|ws: Seq<Block>|
            #![trigger parse_witness(ws, psk)]
            {
                &&& parse_witness(ws, psk)
                &&& ws.len() == psk.len()
                &&& (forall|i: int|
                    0 <= i < ws.len() ==> psk[i].1@ == enc_block(#[trigger] ws[i]) && block_fits(ws[i]))
            },
{
    let (pk, vk) = choose|p: Seq<(Vec<u8>, Vec<u8>)>, vs: Seq<Block>|
        #![trigger enc_pairs(p), vs.len()]
        {
            &&& enc_pairs(p) == seg
            &&& p.len() < p64n()
            &&& p.len() <= usize::MAX
            &&& vs.len() == p.len()
            &&& (forall|i: int| 0 <= i < p.len() ==> pair_bb_bounded(#[trigger] p[i]))
            &&& (forall|i: int| 0 <= i < p.len() ==> pair_fits_f()(#[trigger] p[i]))
            &&& (forall|i: int|
                0 <= i < vs.len() ==> p[i].1@ == enc_block(vs[i]) && block_bounded(#[trigger] vs[i]) && block_fits(vs[i]))
        };
    lemma_enc_pairs_prefix(psk, pk, srest, tail);
    assert(parse_witness(vk, psk));
    assert(vk.len() == psk.len());
    assert forall|i: int|
        0 <= i < vk.len() implies psk[i].1@ == enc_block(#[trigger] vk[i]) && block_fits(#[trigger] vk[i]) by {
        assert(psk[i].1@ == pk[i].1@);
            assert(block_bounded(vk[i]));
            assert forall|q: int|
                0 <= q < vk[i].transactions@.len() implies tx_fits_f()(
                #[trigger] vk[i].transactions@[q],
            ) by {
                assert(tx_bounded(vk[i].transactions@[q]));
            }
    }
}

/// A table segment at the head of a stream is a pair-table prefix.
#[verifier::spinoff_prover]
proof fn lemma_table_seg_vbytes_prefix(seg: Seq<u8>, tail: Seq<u8>, s: Seq<u8>)
    requires
        table_seg_vbytes(seg),
        s == seg + tail,
    ensures
        pairs_prefix(s),
{
    lemma_table_seg_vbytes_pairs_seg(seg);
    let p = choose|p: Seq<(Vec<u8>, Vec<u8>)>|
        #![trigger enc_pairs(p)]
        {
            &&& enc_pairs(p) == seg
            &&& p.len() < p64n()
            &&& p.len() <= usize::MAX
            &&& (forall|i: int| 0 <= i < p.len() ==> pair_bb_bounded(#[trigger] p[i]))
            &&& (forall|i: int| 0 <= i < p.len() ==> pair_fits_f()(#[trigger] p[i]))
        };
    lemma_pow256_vals();
    assert(parse_witness(p, tail));
    assert(p.len() <= usize::MAX);
    assert forall|i: int| 0 <= i < p.len() implies pair_fits_f()(#[trigger] p[i]) by {}
    assert(s == enc_pairs(p) + tail);
    assert(pairs_prefix(s));
}

/// Pairs read back from a table segment carry exactly its parseable
/// values.
#[verifier::spinoff_prover]
proof fn lemma_table_seg_vbytes_values(
    seg: Seq<u8>,
    tail: Seq<u8>,
    s: Seq<u8>,
    psk: Seq<(Vec<u8>, Vec<u8>)>,
    srest: Seq<u8>,
)
    requires
        table_seg_vbytes(seg),
        s == seg + tail,
        s == enc_pairs(psk) + srest,
        psk.len() < p64n(),
        psk.len() <= usize::MAX,
        forall|i: int| 0 <= i < psk.len() ==> pair_bb_bounded(#[trigger] psk[i]),
        forall|i: int| 0 <= i < psk.len() ==> pair_fits_f()(#[trigger] psk[i]),
    ensures
        exists|ws: Seq<Vec<u8>>|
            #![trigger parse_witness(ws, psk)]
            {
                &&& parse_witness(ws, psk)
                &&& ws.len() == psk.len()
                &&& (forall|i: int|
                    0 <= i < ws.len() ==> psk[i].1@ == enc_vbytes(#[trigger] ws[i]) && (ws[i]@.len() <= usize::MAX))
            },
{
    let (pk, vk) = choose|p: Seq<(Vec<u8>, Vec<u8>)>, vs: Seq<Vec<u8>>|
        #![trigger enc_pairs(p), vs.len()]
        {
            &&& enc_pairs(p) == seg
            &&& p.len() < p64n()
            &&& p.len() <= usize::MAX
            &&& vs.len() == p.len()
            &&& (forall|i: int| 0 <= i < p.len() ==> pair_bb_bounded(#[trigger] p[i]))
            &&& (forall|i: int| 0 <= i < p.len() ==> pair_fits_f()(#[trigger] p[i]))
            &&& (forall|i: int|
                0 <= i < vs.len() ==> p[i].1@ == enc_vbytes(vs[i]) && ((#[trigger] vs[i])@.len() < p64n()))
        };
    lemma_enc_pairs_prefix(psk, pk, srest, tail);
    assert(parse_witness(vk, psk));
    assert(vk.len() == psk.len());
    assert forall|i: int|
        0 <= i < vk.len() implies psk[i].1@ == enc_vbytes(#[trigger] vk[i]) && ((#[trigger] vk[i])@.len() <= usize::MAX) by {
        assert(psk[i].1@ == pk[i].1@);

    }
}

/// A table segment at the head of a stream is a pair-table prefix.
#[verifier::spinoff_prover]
proof fn lemma_table_seg_u256_prefix(seg: Seq<u8>, tail: Seq<u8>, s: Seq<u8>)
    requires
        table_seg_u256(seg),
        s == seg + tail,
    ensures
        pairs_prefix(s),
{
    lemma_table_seg_u256_pairs_seg(seg);
    let p = choose|p: Seq<(Vec<u8>, Vec<u8>)>|
        #![trigger enc_pairs(p)]
        {
            &&& enc_pairs(p) == seg
            &&& p.len() < p64n()
            &&& p.len() <= usize::MAX
            &&& (forall|i: int| 0 <= i < p.len() ==> pair_bb_bounded(#[trigger] p[i]))
            &&& (forall|i: int| 0 <= i < p.len() ==> pair_fits_f()(#[trigger] p[i]))
        };
    lemma_pow256_vals();
    assert(parse_witness(p, tail));
    assert(p.len() <= usize::MAX);
    assert forall|i: int| 0 <= i < p.len() implies pair_fits_f()(#[trigger] p[i]) by {}
    assert(s == enc_pairs(p) + tail);
    assert(pairs_prefix(s));
}

/// Pairs read back from a table segment carry exactly its parseable
/// values.
#[verifier::spinoff_prover]
proof fn lemma_table_seg_u256_values(
    seg: Seq<u8>,
    tail: Seq<u8>,
    s: Seq<u8>,
    psk: Seq<(Vec<u8>, Vec<u8>)>,
    srest: Seq<u8>,
)
    requires
        table_seg_u256(seg),
        s == seg + tail,
        s == enc_pairs(psk) + srest,
        psk.len() < p64n(),
        psk.len() <= usize::MAX,
        forall|i: int| 0 <= i < psk.len() ==> pair_bb_bounded(#[trigger] psk[i]),
        forall|i: int| 0 <= i < psk.len() ==> pair_fits_f()(#[trigger] psk[i]),
    ensures
        exists|ws: Seq<U256>|
            #![trigger parse_witness(ws, psk)]
            {
                &&& parse_witness(ws, psk)
                &&& ws.len() == psk.len()
                &&& (forall|i: int|
                    0 <= i < ws.len() ==> psk[i].1@ == enc_u256(#[trigger] ws[i]) && true)
            },
{
    let (pk, vk) = choose|p: Seq<(Vec<u8>, Vec<u8>)>, vs: Seq<U256>|
        #![trigger enc_pairs(p), vs.len()]
        {
            &&& enc_pairs(p) == seg
            &&& p.len() < p64n()
            &&& p.len() <= usize::MAX
            &&& vs.len() == p.len()
            &&& (forall|i: int| 0 <= i < p.len() ==> pair_bb_bounded(#[trigger] p[i]))
            &&& (forall|i: int| 0 <= i < p.len() ==> pair_fits_f()(#[trigger] p[i]))
            &&& (forall|i: int|
                0 <= i < vs.len() ==> p[i].1@ == enc_u256(vs[i]) && (#[trigger] vs[i] == vs[i]))
        };
    lemma_enc_pairs_prefix(psk, pk, srest, tail);
    assert(parse_witness(vk, psk));
    assert(vk.len() == psk.len());
    assert forall|i: int|
        0 <= i < vk.len() implies psk[i].1@ == enc_u256(#[trigger] vk[i]) && (#[trigger] vk[i] == vk[i]) by {
        assert(psk[i].1@ == pk[i].1@);

    }
}

/// A table segment at the head of a stream is a pair-table prefix.
#[verifier::spinoff_prover]
proof fn lemma_table_seg_account_prefix(seg: Seq<u8>, tail: Seq<u8>, s: Seq<u8>)
    requires
        table_seg_account(seg),
        s == seg + tail,
    ensures
        pairs_prefix(s),
{
    lemma_table_seg_account_pairs_seg(seg);
    let p = choose|p: Seq<(Vec<u8>, Vec<u8>)>|
        #![trigger enc_pairs(p)]
        {
            &&& enc_pairs(p) == seg
            &&& p.len() < p64n()
            &&& p.len() <= usize::MAX
            &&& (forall|i: int| 0 <= i < p.len() ==> pair_bb_bounded(#[trigger] p[i]))
            &&& (forall|i: int| 0 <= i < p.len() ==> pair_fits_f()(#[trigger] p[i]))
        };
    lemma_pow256_vals();
    assert(parse_witness(p, tail));
    assert(p.len() <= usize::MAX);
    assert forall|i: int| 0 <= i < p.len() implies pair_fits_f()(#[trigger] p[i]) by {}
    assert(s == enc_pairs(p) + tail);
    assert(pairs_prefix(s));
}

/// Pairs read back from a table segment carry exactly its parseable
/// values.
#[verifier::spinoff_prover]
proof fn lemma_table_seg_account_values(
    seg: Seq<u8>,
    tail: Seq<u8>,
    s: Seq<u8>,
    psk: Seq<(Vec<u8>, Vec<u8>)>,
    srest: Seq<u8>,
)
    requires
        table_seg_account(seg),
        s == seg + tail,
        s == enc_pairs(psk) + srest,
        psk.len() < p64n(),
        psk.len() <= usize::MAX,
        forall|i: int| 0 <= i < psk.len() ==> pair_bb_bounded(#[trigger] psk[i]),
        forall|i: int| 0 <= i < psk.len() ==> pair_fits_f()(#[trigger] psk[i]),
    ensures
        exists|ws: Seq<AccountState>|
            #![trigger parse_witness(ws, psk)]
            {
                &&& parse_witness(ws, psk)
                &&& ws.len() == psk.len()
                &&& (forall|i: int|
                    0 <= i < ws.len() ==> psk[i].1@ == enc_account(#[trigger] ws[i]) && true)
            },
{
    let (pk, vk) = choose|p: Seq<(Vec<u8>, Vec<u8>)>, vs: Seq<AccountState>|
        #![trigger enc_pairs(p), vs.len()]
        {
            &&& enc_pairs(p) == seg
            &&& p.len() < p64n()
            &&& p.len() <= usize::MAX
            &&& vs.len() == p.len()
            &&& (forall|i: int| 0 <= i < p.len() ==> pair_bb_bounded(#[trigger] p[i]))
            &&& (forall|i: int| 0 <= i < p.len() ==> pair_fits_f()(#[trigger] p[i]))
            &&& (forall|i: int|
                0 <= i < vs.len() ==> p[i].1@ == enc_account(vs[i]) && (#[trigger] vs[i] == vs[i]))
        };
    lemma_enc_pairs_prefix(psk, pk, srest, tail);
    assert(parse_witness(vk, psk));
    assert(vk.len() == psk.len());
    assert forall|i: int|
        0 <= i < vk.len() implies psk[i].1@ == enc_account(#[trigger] vk[i]) && (#[trigger] vk[i] == vk[i]) by {
        assert(psk[i].1@ == pk[i].1@);

    }
}

/// Five well-formed tables head the stream.
pub open spec fn tables_prefix(s: Seq<u8>) -> bool {
    exists|s1: Seq<u8>, s2: Seq<u8>, s3: Seq<u8>, s4: Seq<u8>, s5: Seq<u8>, rest: Seq<u8>|
        #![trigger snapshot_segments(s1, s2, s3, s4, s5), rest.len()]
        {
            &&& snapshot_segments(s1, s2, s3, s4, s5)
            &&& table_seg_block(s1)
            &&& table_seg_vbytes(s2)
            &&& table_seg_vbytes(s3)
            &&& table_seg_u256(s4)
            &&& table_seg_account(s5)
            &&& s == s1 + (s2 + (s3 + (s4 + (s5 + rest))))
        }
}


#[verifier::rlimit(100)]
#[verifier::spinoff_prover]
proof fn lemma_tables_read_fail_1(src: Seq<u8>, p0: int)
    requires
        0 <= p0 <= src.len(),
        tables_prefix(src.subrange(p0, src.len() as int)),
    ensures
        pairs_prefix(src.subrange(p0, src.len() as int)),
{
    let n = src.len() as int;
    let stream = src.subrange(p0, n);
    lemma_pow256_vals();
    let (w1, w2, w3, w4, w5, wrest) = choose|
        s1: Seq<u8>,
        s2: Seq<u8>,
        s3: Seq<u8>,
        s4: Seq<u8>,
        s5: Seq<u8>,
        rest: Seq<u8>,
    |
        #![trigger snapshot_segments(s1, s2, s3, s4, s5), rest.len()]
        {
            &&& snapshot_segments(s1, s2, s3, s4, s5)
            &&& table_seg_block(s1)
            &&& table_seg_vbytes(s2)
            &&& table_seg_vbytes(s3)
            &&& table_seg_u256(s4)
            &&& table_seg_account(s5)
            &&& stream == s1 + (s2 + (s3 + (s4 + (s5 + rest))))
        };
    lemma_table_seg_block_pairs_seg(w1);
    lemma_table_seg_vbytes_pairs_seg(w2);
    lemma_table_seg_vbytes_pairs_seg(w3);
    lemma_table_seg_u256_pairs_seg(w4);
    lemma_table_seg_account_pairs_seg(w5);
    let r1 = w2 + (w3 + (w4 + (w5 + wrest)));
    let r2 = w3 + (w4 + (w5 + wrest));
    let r3 = w4 + (w5 + wrest);
    let r4 = w5 + wrest;
    let r5 = wrest;
    lemma_table_seg_block_prefix(w1, r1, src.subrange(p0, n));
}

#[verifier::rlimit(100)]
#[verifier::spinoff_prover]
proof fn lemma_tables_from_fail_1(src: Seq<u8>, p0: int, curp: int, psk: Seq<(Vec<u8>, Vec<u8>)>)
    requires
        0 <= p0 <= src.len(),
        tables_prefix(src.subrange(p0, src.len() as int)),
        p0 <= curp <= src.len(),
        src.subrange(p0, curp) == enc_pairs(psk),
        psk.len() < p64n(),
        psk.len() <= usize::MAX,
        forall|i: int| 0 <= i < psk.len() ==> pair_bb_bounded(#[trigger] psk[i]),
        forall|i: int| 0 <= i < psk.len() ==> pair_fits_f()(#[trigger] psk[i]),
    ensures
        exists|ws: Seq<Block>|
            #![trigger parse_witness(ws, psk)]
            {
                &&& parse_witness(ws, psk)
                &&& ws.len() == psk.len()
                &&& (forall|i: int|
                    0 <= i < ws.len() ==> psk[i].1@ == enc_block(#[trigger] ws[i]) && block_fits(ws[i]))
            },
{
    let n = src.len() as int;
    let stream = src.subrange(p0, n);
    lemma_pow256_vals();
    let (w1, w2, w3, w4, w5, wrest) = choose|
        s1: Seq<u8>,
        s2: Seq<u8>,
        s3: Seq<u8>,
        s4: Seq<u8>,
        s5: Seq<u8>,
        rest: Seq<u8>,
    |
        #![trigger snapshot_segments(s1, s2, s3, s4, s5), rest.len()]
        {
            &&& snapshot_segments(s1, s2, s3, s4, s5)
            &&& table_seg_block(s1)
            &&& table_seg_vbytes(s2)
            &&& table_seg_vbytes(s3)
            &&& table_seg_u256(s4)
            &&& table_seg_account(s5)
            &&& stream == s1 + (s2 + (s3 + (s4 + (s5 + rest))))
        };
    lemma_table_seg_block_pairs_seg(w1);
    lemma_table_seg_vbytes_pairs_seg(w2);
    lemma_table_seg_vbytes_pairs_seg(w3);
    lemma_table_seg_u256_pairs_seg(w4);
    lemma_table_seg_account_pairs_seg(w5);
    let r1 = w2 + (w3 + (w4 + (w5 + wrest)));
    let r2 = w3 + (w4 + (w5 + wrest));
    let r3 = w4 + (w5 + wrest);
    let r4 = w5 + wrest;
    let r5 = wrest;
    assert(src.subrange(p0, n) =~= src.subrange(p0, curp) + src.subrange(curp, n));
    lemma_table_seg_block_values(
        w1,
        r1,
        src.subrange(p0, n),
        psk,
        src.subrange(curp, n),
    );
}

#[verifier::rlimit(100)]
#[verifier::spinoff_prover]
proof fn lemma_tables_read_fail_2(src: Seq<u8>, p0: int, q1: int)
    requires
        0 <= p0 <= src.len(),
        tables_prefix(src.subrange(p0, src.len() as int)),
        p0 <= q1 <= src.len(),
        pairs_seg(src.subrange(p0, q1)),
    ensures
        pairs_prefix(src.subrange(q1, src.len() as int)),
{
    let n = src.len() as int;
    let stream = src.subrange(p0, n);
    lemma_pow256_vals();
    let (w1, w2, w3, w4, w5, wrest) = choose|
        s1: Seq<u8>,
        s2: Seq<u8>,
        s3: Seq<u8>,
        s4: Seq<u8>,
        s5: Seq<u8>,
        rest: Seq<u8>,
    |
        #![trigger snapshot_segments(s1, s2, s3, s4, s5), rest.len()]
        {
            &&& snapshot_segments(s1, s2, s3, s4, s5)
            &&& table_seg_block(s1)
            &&& table_seg_vbytes(s2)
            &&& table_seg_vbytes(s3)
            &&& table_seg_u256(s4)
            &&& table_seg_account(s5)
            &&& stream == s1 + (s2 + (s3 + (s4 + (s5 + rest))))
        };
    lemma_table_seg_block_pairs_seg(w1);
    lemma_table_seg_vbytes_pairs_seg(w2);
    lemma_table_seg_vbytes_pairs_seg(w3);
    lemma_table_seg_u256_pairs_seg(w4);
    lemma_table_seg_account_pairs_seg(w5);
    let r1 = w2 + (w3 + (w4 + (w5 + wrest)));
    let r2 = w3 + (w4 + (w5 + wrest));
    let r3 = w4 + (w5 + wrest);
    let r4 = w5 + wrest;
    let r5 = wrest;
    lemma_pairs_seg_align(src, p0, q1, w1, r1);
    lemma_table_seg_vbytes_prefix(w2, r2, src.subrange(q1, n));
}

#[verifier::rlimit(100)]
#[verifier::spinoff_prover]
proof fn lemma_tables_from_fail_2(src: Seq<u8>, p0: int, q1: int, curp: int, psk: Seq<(Vec<u8>, Vec<u8>)>)
    requires
        0 <= p0 <= src.len(),
        tables_prefix(src.subrange(p0, src.len() as int)),
        p0 <= q1 <= src.len(),
        pairs_seg(src.subrange(p0, q1)),
        q1 <= curp <= src.len(),
        src.subrange(q1, curp) == enc_pairs(psk),
        psk.len() < p64n(),
        psk.len() <= usize::MAX,
        forall|i: int| 0 <= i < psk.len() ==> pair_bb_bounded(#[trigger] psk[i]),
        forall|i: int| 0 <= i < psk.len() ==> pair_fits_f()(#[trigger] psk[i]),
    ensures
        exists|ws: Seq<Vec<u8>>|
            #![trigger parse_witness(ws, psk)]
            {
                &&& parse_witness(ws, psk)
                &&& ws.len() == psk.len()
                &&& (forall|i: int|
                    0 <= i < ws.len() ==> psk[i].1@ == enc_vbytes(#[trigger] ws[i]) && (ws[i]@.len() <= usize::MAX))
            },
{
    let n = src.len() as int;
    let stream = src.subrange(p0, n);
    lemma_pow256_vals();
    let (w1, w2, w3, w4, w5, wrest) = choose|
        s1: Seq<u8>,
        s2: Seq<u8>,
        s3: Seq<u8>,
        s4: Seq<u8>,
        s5: Seq<u8>,
        rest: Seq<u8>,
    |
        #![trigger snapshot_segments(s1, s2, s3, s4, s5), rest.len()]
        {
            &&& snapshot_segments(s1, s2, s3, s4, s5)
            &&& table_seg_block(s1)
            &&& table_seg_vbytes(s2)
            &&& table_seg_vbytes(s3)
            &&& table_seg_u256(s4)
            &&& table_seg_account(s5)
            &&& stream == s1 + (s2 + (s3 + (s4 + (s5 + rest))))
        };
    lemma_table_seg_block_pairs_seg(w1);
    lemma_table_seg_vbytes_pairs_seg(w2);
    lemma_table_seg_vbytes_pairs_seg(w3);
    lemma_table_seg_u256_pairs_seg(w4);
    lemma_table_seg_account_pairs_seg(w5);
    let r1 = w2 + (w3 + (w4 + (w5 + wrest)));
    let r2 = w3 + (w4 + (w5 + wrest));
    let r3 = w4 + (w5 + wrest);
    let r4 = w5 + wrest;
    let r5 = wrest;
    lemma_pairs_seg_align(src, p0, q1, w1, r1);
    assert(src.subrange(q1, n) =~= src.subrange(q1, curp) + src.subrange(curp, n));
    lemma_table_seg_vbytes_values(
        w2,
        r2,
        src.subrange(q1, n),
        psk,
        src.subrange(curp, n),
    );
}

#[verifier::rlimit(100)]
#[verifier::spinoff_prover]
proof fn lemma_tables_read_fail_3(src: Seq<u8>, p0: int, q1: int, q2: int)
    requires
        0 <= p0 <= src.len(),
        tables_prefix(src.subrange(p0, src.len() as int)),
        p0 <= q1 <= src.len(),
        pairs_seg(src.subrange(p0, q1)),
        q1 <= q2 <= src.len(),
        pairs_seg(src.subrange(q1, q2)),
    ensures
        pairs_prefix(src.subrange(q2, src.len() as int)),
{
    let n = src.len() as int;
    let stream = src.subrange(p0, n);
    lemma_pow256_vals();
    let (w1, w2, w3, w4, w5, wrest) = choose|
        s1: Seq<u8>,
        s2: Seq<u8>,
        s3: Seq<u8>,
        s4: Seq<u8>,
        s5: Seq<u8>,
        rest: Seq<u8>,
    |
        #![trigger snapshot_segments(s1, s2, s3, s4, s5), rest.len()]
        {
            &&& snapshot_segments(s1, s2, s3, s4, s5)
            &&& table_seg_block(s1)
            &&& table_seg_vbytes(s2)
            &&& table_seg_vbytes(s3)
            &&& table_seg_u256(s4)
            &&& table_seg_account(s5)
            &&& stream == s1 + (s2 + (s3 + (s4 + (s5 + rest))))
        };
    lemma_table_seg_block_pairs_seg(w1);
    lemma_table_seg_vbytes_pairs_seg(w2);
    lemma_table_seg_vbytes_pairs_seg(w3);
    lemma_table_seg_u256_pairs_seg(w4);
    lemma_table_seg_account_pairs_seg(w5);
    let r1 = w2 + (w3 + (w4 + (w5 + wrest)));
    let r2 = w3 + (w4 + (w5 + wrest));
    let r3 = w4 + (w5 + wrest);
    let r4 = w5 + wrest;
    let r5 = wrest;
    lemma_pairs_seg_align(src, p0, q1, w1, r1);
    lemma_pairs_seg_align(src, q1, q2, w2, r2);
    lemma_table_seg_vbytes_prefix(w3, r3, src.subrange(q2, n));
}

#[verifier::rlimit(100)]
#[verifier::spinoff_prover]
proof fn lemma_tables_from_fail_3(src: Seq<u8>, p0: int, q1: int, q2: int, curp: int, psk: Seq<(Vec<u8>, Vec<u8>)>)
    requires
        0 <= p0 <= src.len(),
        tables_prefix(src.subrange(p0, src.len() as int)),
        p0 <= q1 <= src.len(),
        pairs_seg(src.subrange(p0, q1)),
        q1 <= q2 <= src.len(),
        pairs_seg(src.subrange(q1, q2)),
        q2 <= curp <= src.len(),
        src.subrange(q2, curp) == enc_pairs(psk),
        psk.len() < p64n(),
        psk.len() <= usize::MAX,
        forall|i: int| 0 <= i < psk.len() ==> pair_bb_bounded(#[trigger] psk[i]),
        forall|i: int| 0 <= i < psk.len() ==> pair_fits_f()(#[trigger] psk[i]),
    ensures
        exists|ws: Seq<Vec<u8>>|
            #![trigger parse_witness(ws, psk)]
            {
                &&& parse_witness(ws, psk)
                &&& ws.len() == psk.len()
                &&& (forall|i: int|
                    0 <= i < ws.len() ==> psk[i].1@ == enc_vbytes(#[trigger] ws[i]) && (ws[i]@.len() <= usize::MAX))
            },
{
    let n = src.len() as int;
    let stream = src.subrange(p0, n);
    lemma_pow256_vals();
    let (w1, w2, w3, w4, w5, wrest) = choose|
        s1: Seq<u8>,
        s2: Seq<u8>,
        s3: Seq<u8>,
        s4: Seq<u8>,
        s5: Seq<u8>,
        rest: Seq<u8>,
    |
        #![trigger snapshot_segments(s1, s2, s3, s4, s5), rest.len()]
        {
            &&& snapshot_segments(s1, s2, s3, s4, s5)
            &&& table_seg_block(s1)
            &&& table_seg_vbytes(s2)
            &&& table_seg_vbytes(s3)
            &&& table_seg_u256(s4)
            &&& table_seg_account(s5)
            &&& stream == s1 + (s2 + (s3 + (s4 + (s5 + rest))))
        };
    lemma_table_seg_block_pairs_seg(w1);
    lemma_table_seg_vbytes_pairs_seg(w2);
    lemma_table_seg_vbytes_pairs_seg(w3);
    lemma_table_seg_u256_pairs_seg(w4);
    lemma_table_seg_account_pairs_seg(w5);
    let r1 = w2 + (w3 + (w4 + (w5 + wrest)));
    let r2 = w3 + (w4 + (w5 + wrest));
    let r3 = w4 + (w5 + wrest);
    let r4 = w5 + wrest;
    let r5 = wrest;
    lemma_pairs_seg_align(src, p0, q1, w1, r1);
    lemma_pairs_seg_align(src, q1, q2, w2, r2);
    assert(src.subrange(q2, n) =~= src.subrange(q2, curp) + src.subrange(curp, n));
    lemma_table_seg_vbytes_values(
        w3,
        r3,
        src.subrange(q2, n),
        psk,
        src.subrange(curp, n),
    );
}

#[verifier::rlimit(100)]
#[verifier::spinoff_prover]
proof fn lemma_tables_read_fail_4(src: Seq<u8>, p0: int, q1: int, q2: int, q3: int)
    requires
        0 <= p0 <= src.len(),
        tables_prefix(src.subrange(p0, src.len() as int)),
        p0 <= q1 <= src.len(),
        pairs_seg(src.subrange(p0, q1)),
        q1 <= q2 <= src.len(),
        pairs_seg(src.subrange(q1, q2)),
        q2 <= q3 <= src.len(),
        pairs_seg(src.subrange(q2, q3)),
    ensures
        pairs_prefix(src.subrange(q3, src.len() as int)),
{
    let n = src.len() as int;
    let stream = src.subrange(p0, n);
    lemma_pow256_vals();
    let (w1, w2, w3, w4, w5, wrest) = choose|
        s1: Seq<u8>,
        s2: Seq<u8>,
        s3: Seq<u8>,
        s4: Seq<u8>,
        s5: Seq<u8>,
        rest: Seq<u8>,
    |
        #![trigger snapshot_segments(s1, s2, s3, s4, s5), rest.len()]
        {
            &&& snapshot_segments(s1, s2, s3, s4, s5)
            &&& table_seg_block(s1)
            &&& table_seg_vbytes(s2)
            &&& table_seg_vbytes(s3)
            &&& table_seg_u256(s4)
            &&& table_seg_account(s5)
            &&& stream == s1 + (s2 + (s3 + (s4 + (s5 + rest))))
        };
    lemma_table_seg_block_pairs_seg(w1);
    lemma_table_seg_vbytes_pairs_seg(w2);
    lemma_table_seg_vbytes_pairs_seg(w3);
    lemma_table_seg_u256_pairs_seg(w4);
    lemma_table_seg_account_pairs_seg(w5);
    let r1 = w2 + (w3 + (w4 + (w5 + wrest)));
    let r2 = w3 + (w4 + (w5 + wrest));
    let r3 = w4 + (w5 + wrest);
    let r4 = w5 + wrest;
    let r5 = wrest;
    lemma_pairs_seg_align(src, p0, q1, w1, r1);
    lemma_pairs_seg_align(src, q1, q2, w2, r2);
    lemma_pairs_seg_align(src, q2, q3, w3, r3);
    lemma_table_seg_u256_prefix(w4, r4, src.subrange(q3, n));
}

#[verifier::rlimit(100)]
#[verifier::spinoff_prover]
proof fn lemma_tables_from_fail_4(src: Seq<u8>, p0: int, q1: int, q2: int, q3: int, curp: int, psk: Seq<(Vec<u8>, Vec<u8>)>)
    requires
        0 <= p0 <= src.len(),
        tables_prefix(src.subrange(p0, src.len() as int)),
        p0 <= q1 <= src.len(),
        pairs_seg(src.subrange(p0, q1)),
        q1 <= q2 <= src.len(),
        pairs_seg(src.subrange(q1, q2)),
        q2 <= q3 <= src.len(),
        pairs_seg(src.subrange(q2, q3)),
        q3 <= curp <= src.len(),
        src.subrange(q3, curp) == enc_pairs(psk),
        psk.len() < p64n(),
        psk.len() <= usize::MAX,
        forall|i: int| 0 <= i < psk.len() ==> pair_bb_bounded(#[trigger] psk[i]),
        forall|i: int| 0 <= i < psk.len() ==> pair_fits_f()(#[trigger] psk[i]),
    ensures
        exists|ws: Seq<U256>|
            #![trigger parse_witness(ws, psk)]
            {
                &&& parse_witness(ws, psk)
                &&& ws.len() == psk.len()
                &&& (forall|i: int|
                    0 <= i < ws.len() ==> psk[i].1@ == enc_u256(#[trigger] ws[i]) && true)
            },
{
    let n = src.len() as int;
    let stream = src.subrange(p0, n);
    lemma_pow256_vals();
    let (w1, w2, w3, w4, w5, wrest) = choose|
        s1: Seq<u8>,
        s2: Seq<u8>,
        s3: Seq<u8>,
        s4: Seq<u8>,
        s5: Seq<u8>,
        rest: Seq<u8>,
    |
        #![trigger snapshot_segments(s1, s2, s3, s4, s5), rest.len()]
        {
            &&& snapshot_segments(s1, s2, s3, s4, s5)
            &&& table_seg_block(s1)
            &&& table_seg_vbytes(s2)
            &&& table_seg_vbytes(s3)
            &&& table_seg_u256(s4)
            &&& table_seg_account(s5)
            &&& stream == s1 + (s2 + (s3 + (s4 + (s5 + rest))))
        };
    lemma_table_seg_block_pairs_seg(w1);
    lemma_table_seg_vbytes_pairs_seg(w2);
    lemma_table_seg_vbytes_pairs_seg(w3);
    lemma_table_seg_u256_pairs_seg(w4);
    lemma_table_seg_account_pairs_seg(w5);
    let r1 = w2 + (w3 + (w4 + (w5 + wrest)));
    let r2 = w3 + (w4 + (w5 + wrest));
    let r3 = w4 + (w5 + wrest);
    let r4 = w5 + wrest;
    let r5 = wrest;
    lemma_pairs_seg_align(src, p0, q1, w1, r1);
    lemma_pairs_seg_align(src, q1, q2, w2, r2);
    lemma_pairs_seg_align(src, q2, q3, w3, r3);
    assert(src.subrange(q3, n) =~= src.subrange(q3, curp) + src.subrange(curp, n));
    lemma_table_seg_u256_values(
        w4,
        r4,
        src.subrange(q3, n),
        psk,
        src.subrange(curp, n),
    );
}

#[verifier::rlimit(100)]
#[verifier::spinoff_prover]
proof fn lemma_tables_read_fail_5(src: Seq<u8>, p0: int, q1: int, q2: int, q3: int, q4: int)
    requires
        0 <= p0 <= src.len(),
        tables_prefix(src.subrange(p0, src.len() as int)),
        p0 <= q1 <= src.len(),
        pairs_seg(src.subrange(p0, q1)),
        q1 <= q2 <= src.len(),
        pairs_seg(src.subrange(q1, q2)),
        q2 <= q3 <= src.len(),
        pairs_seg(src.subrange(q2, q3)),
        q3 <= q4 <= src.len(),
        pairs_seg(src.subrange(q3, q4)),
    ensures
        pairs_prefix(src.subrange(q4, src.len() as int)),
{
    let n = src.len() as int;
    let stream = src.subrange(p0, n);
    lemma_pow256_vals();
    let (w1, w2, w3, w4, w5, wrest) = choose|
        s1: Seq<u8>,
        s2: Seq<u8>,
        s3: Seq<u8>,
        s4: Seq<u8>,
        s5: Seq<u8>,
        rest: Seq<u8>,
    |
        #![trigger snapshot_segments(s1, s2, s3, s4, s5), rest.len()]
        {
            &&& snapshot_segments(s1, s2, s3, s4, s5)
            &&& table_seg_block(s1)
            &&& table_seg_vbytes(s2)
            &&& table_seg_vbytes(s3)
            &&& table_seg_u256(s4)
            &&& table_seg_account(s5)
            &&& stream == s1 + (s2 + (s3 + (s4 + (s5 + rest))))
        };
    lemma_table_seg_block_pairs_seg(w1);
    lemma_table_seg_vbytes_pairs_seg(w2);
    lemma_table_seg_vbytes_pairs_seg(w3);
    lemma_table_seg_u256_pairs_seg(w4);
    lemma_table_seg_account_pairs_seg(w5);
    let r1 = w2 + (w3 + (w4 + (w5 + wrest)));
    let r2 = w3 + (w4 + (w5 + wrest));
    let r3 = w4 + (w5 + wrest);
    let r4 = w5 + wrest;
    let r5 = wrest;
    lemma_pairs_seg_align(src, p0, q1, w1, r1);
    lemma_pairs_seg_align(src, q1, q2, w2, r2);
    lemma_pairs_seg_align(src, q2, q3, w3, r3);
    lemma_pairs_seg_align(src, q3, q4, w4, r4);
    lemma_table_seg_account_prefix(w5, r5, src.subrange(q4, n));
}

#[verifier::rlimit(100)]
#[verifier::spinoff_prover]
proof fn lemma_tables_from_fail_5(src: Seq<u8>, p0: int, q1: int, q2: int, q3: int, q4: int, curp: int, psk: Seq<(Vec<u8>, Vec<u8>)>)
    requires
        0 <= p0 <= src.len(),
        tables_prefix(src.subrange(p0, src.len() as int)),
        p0 <= q1 <= src.len(),
        pairs_seg(src.subrange(p0, q1)),
        q1 <= q2 <= src.len(),
        pairs_seg(src.subrange(q1, q2)),
        q2 <= q3 <= src.len(),
        pairs_seg(src.subrange(q2, q3)),
        q3 <= q4 <= src.len(),
        pairs_seg(src.subrange(q3, q4)),
        q4 <= curp <= src.len(),
        src.subrange(q4, curp) == enc_pairs(psk),
        psk.len() < p64n(),
        psk.len() <= usize::MAX,
        forall|i: int| 0 <= i < psk.len() ==> pair_bb_bounded(#[trigger] psk[i]),
        forall|i: int| 0 <= i < psk.len() ==> pair_fits_f()(#[trigger] psk[i]),
    ensures
        exists|ws: Seq<AccountState>|
            #![trigger parse_witness(ws, psk)]
            {
                &&& parse_witness(ws, psk)
                &&& ws.len() == psk.len()
                &&& (forall|i: int|
                    0 <= i < ws.len() ==> psk[i].1@ == enc_account(#[trigger] ws[i]) && true)
            },
{
    let n = src.len() as int;
    let stream = src.subrange(p0, n);
    lemma_pow256_vals();
    let (w1, w2, w3, w4, w5, wrest) = choose|
        s1: Seq<u8>,
        s2: Seq<u8>,
        s3: Seq<u8>,
        s4: Seq<u8>,
        s5: Seq<u8>,
        rest: Seq<u8>,
    |
        #![trigger snapshot_segments(s1, s2, s3, s4, s5), rest.len()]
        {
            &&& snapshot_segments(s1, s2, s3, s4, s5)
            &&& table_seg_block(s1)
            &&& table_seg_vbytes(s2)
            &&& table_seg_vbytes(s3)
            &&& table_seg_u256(s4)
            &&& table_seg_account(s5)
            &&& stream == s1 + (s2 + (s3 + (s4 + (s5 + rest))))
        };
    lemma_table_seg_block_pairs_seg(w1);
    lemma_table_seg_vbytes_pairs_seg(w2);
    lemma_table_seg_vbytes_pairs_seg(w3);
    lemma_table_seg_u256_pairs_seg(w4);
    lemma_table_seg_account_pairs_seg(w5);
    let r1 = w2 + (w3 + (w4 + (w5 + wrest)));
    let r2 = w3 + (w4 + (w5 + wrest));
    let r3 = w4 + (w5 + wrest);
    let r4 = w5 + wrest;
    let r5 = wrest;
    lemma_pairs_seg_align(src, p0, q1, w1, r1);
    lemma_pairs_seg_align(src, q1, q2, w2, r2);
    lemma_pairs_seg_align(src, q2, q3, w3, r3);
    lemma_pairs_seg_align(src, q3, q4, w4, r4);
    assert(src.subrange(q4, n) =~= src.subrange(q4, curp) + src.subrange(curp, n));
    lemma_table_seg_account_values(
        w5,
        r5,
        src.subrange(q4, n),
        psk,
        src.subrange(curp, n),
    );
}

/// Reads the five chain tables.
#[verifier::rlimit(100)]
#[verifier::spinoff_prover]
fn read_snapshot_tables(src: &Vec<u8>, pos: &mut usize) -> (r: Option<
    (
        (AList<Block>, AList<Vec<u8>>, AList<Vec<u8>>, AList<U256>, AList<AccountState>),
        Ghost<(Seq<u8>, Seq<u8>, Seq<u8>, Seq<u8>, Seq<u8>)>,
    ),
>)
    ensures
        (r matches Some(ts) ==> *old(pos) <= *final(pos) <= src@.len() && ({
            let (s1, s2, s3, s4, s5) = ts.1@;
            &&& src@.subrange(*old(pos) as int, *final(pos) as int) == ((((s1 + s2) + s3) + s4)
                + s5)
            &&& table_rel_block(s1, ts.0.0@)
            &&& table_rel_vbytes(s2, ts.0.1@)
            &&& table_rel_vbytes(s3, ts.0.2@)
            &&& table_rel_u256(s4, ts.0.3@)
            &&& table_rel_account(s5, ts.0.4@)
        })),
        r is None ==> *final(pos) == *old(pos) && (*old(pos) <= src@.len() ==> !tables_prefix(
            src@.subrange(*old(pos) as int, src@.len() as int),
        )),
{
    proof {
        lemma_pow256_vals();
    }
    let p0 = *pos;
    let ghost n_end = src@.len() as int;
    let ghost stream = src@.subrange(p0 as int, n_end);
    let ps1 = match read_pairs(src, pos) {
        Some(v) => v,
        None => {
            proof {
                if p0 as int <= n_end {
                    assert(!tables_prefix(stream)) by {
                        if tables_prefix(stream) {
                            lemma_tables_read_fail_1(src@, p0 as int);
                            assert(false);
                        }
                    }
                }
            }
            return None;
        },
    };
    let t1 = match from_pairs_block(&ps1) {
        Some(t) => t,
        None => {
            proof {
                if p0 as int <= n_end {
                    assert(!tables_prefix(stream)) by {
                        if tables_prefix(stream) {
                            lemma_tables_from_fail_1(
                                src@,
                                p0 as int,
                                *pos as int,
                                ps1@,
                            );
                            assert(false);
                        }
                    }
                }
            }
                *pos = p0;
            return None;
        },
    };
    let ghost s1 = enc_pairs(ps1@);
    let ghost pos1 = *pos as int;
    proof {
        let vs = choose|vs: Seq<Block>|
            {
                &&& #[trigger] vs.len() == ps1@.len()
                &&& (forall|i: int|
                    0 <= i < vs.len() ==> ps1@[i].1@ == enc_block(#[trigger] vs[i])
                        && block_bounded(vs[i]) && block_fits(vs[i]))
                &&& t1@ == kv_map(key_views(ps1@), Seq::new(vs.len(), |i: int| vs[i]@))
            };
        reveal(crate::codec::table_rel_block);
        assert(table_rel_block(s1, t1@));
        assert(pairs_seg(src@.subrange(p0 as int, pos1)));
    }
    let ps2 = match read_pairs(src, pos) {
        Some(v) => v,
        None => {
            proof {
                if p0 as int <= n_end {
                    assert(!tables_prefix(stream)) by {
                        if tables_prefix(stream) {
                            lemma_tables_read_fail_2(src@, p0 as int, pos1);
                            assert(false);
                        }
                    }
                }
            }
                *pos = p0;
            return None;
        },
    };
    let t2 = match from_pairs_vbytes(&ps2) {
        Some(t) => t,
        None => {
            proof {
                if p0 as int <= n_end {
                    assert(!tables_prefix(stream)) by {
                        if tables_prefix(stream) {
                            lemma_tables_from_fail_2(
                                src@,
                                p0 as int, pos1,
                                *pos as int,
                                ps2@,
                            );
                            assert(false);
                        }
                    }
                }
            }
                *pos = p0;
            return None;
        },
    };
    let ghost s2 = enc_pairs(ps2@);
    let ghost pos2 = *pos as int;
    proof {
        let vs = choose|vs: Seq<Vec<u8>>|
            {
                &&& #[trigger] vs.len() == ps2@.len()
                &&& (forall|i: int|
                    0 <= i < vs.len() ==> ps2@[i].1@ == enc_vbytes(#[trigger] vs[i]) && (vs[i]@.len()
                        < p64n()) && (vs[i]@.len() <= usize::MAX))
                &&& t2@ == kv_map(key_views(ps2@), Seq::new(vs.len(), |i: int| vs[i]@))
            };
        reveal(crate::codec::table_rel_vbytes);
        assert(table_rel_vbytes(s2, t2@));
        assert(pairs_seg(src@.subrange(pos1, pos2)));
    }
    let ps3 = match read_pairs(src, pos) {
        Some(v) => v,
        None => {
            proof {
                if p0 as int <= n_end {
                    assert(!tables_prefix(stream)) by {
                        if tables_prefix(stream) {
                            lemma_tables_read_fail_3(src@, p0 as int, pos1, pos2);
                            assert(false);
                        }
                    }
                }
            }
                *pos = p0;
            return None;
        },
    };
    let t3 = match from_pairs_vbytes(&ps3) {
        Some(t) => t,
        None => {
            proof {
                if p0 as int <= n_end {
                    assert(!tables_prefix(stream)) by {
                        if tables_prefix(stream) {
                            lemma_tables_from_fail_3(
                                src@,
                                p0 as int, pos1, pos2,
                                *pos as int,
                                ps3@,
                            );
                            assert(false);
                        }
                    }
                }
            }
                *pos = p0;
            return None;
        },
    };
    let ghost s3 = enc_pairs(ps3@);
    let ghost pos3 = *pos as int;
    proof {
        let vs = choose|vs: Seq<Vec<u8>>|
            {
                &&& #[trigger] vs.len() == ps3@.len()
                &&& (forall|i: int|
                    0 <= i < vs.len() ==> ps3@[i].1@ == enc_vbytes(#[trigger] vs[i]) && (vs[i]@.len()
                        < p64n()) && (vs[i]@.len() <= usize::MAX))
                &&& t3@ == kv_map(key_views(ps3@), Seq::new(vs.len(), |i: int| vs[i]@))
            };
        reveal(crate::codec::table_rel_vbytes);
        assert(table_rel_vbytes(s3, t3@));
        assert(pairs_seg(src@.subrange(pos2, pos3)));
    }
    let ps4 = match read_pairs(src, pos) {
        Some(v) => v,
        None => {
            proof {
                if p0 as int <= n_end {
                    assert(!tables_prefix(stream)) by {
                        if tables_prefix(stream) {
                            lemma_tables_read_fail_4(src@, p0 as int, pos1, pos2, pos3);
                            assert(false);
                        }
                    }
                }
            }
                *pos = p0;
            return None;
        },
    };
    let t4 = match from_pairs_u256(&ps4) {
        Some(t) => t,
        None => {
            proof {
                if p0 as int <= n_end {
                    assert(!tables_prefix(stream)) by {
                        if tables_prefix(stream) {
                            lemma_tables_from_fail_4(
                                src@,
                                p0 as int, pos1, pos2, pos3,
                                *pos as int,
                                ps4@,
                            );
                            assert(false);
                        }
                    }
                }
            }
                *pos = p0;
            return None;
        },
    };
    let ghost s4 = enc_pairs(ps4@);
    let ghost pos4 = *pos as int;
    proof {
        let vs = choose|vs: Seq<U256>|
            {
                &&& #[trigger] vs.len() == ps4@.len()
                &&& (forall|i: int|
                    0 <= i < vs.len() ==> ps4@[i].1@ == enc_u256(#[trigger] vs[i]) && true)
                &&& t4@ == kv_map(key_views(ps4@), Seq::new(vs.len(), |i: int| vs[i]@))
            };
        reveal(crate::codec::table_rel_u256);
        assert(table_rel_u256(s4, t4@));
        assert(pairs_seg(src@.subrange(pos3, pos4)));
    }
    let ps5 = match read_pairs(src, pos) {
        Some(v) => v,
        None => {
            proof {
                if p0 as int <= n_end {
                    assert(!tables_prefix(stream)) by {
                        if tables_prefix(stream) {
                            lemma_tables_read_fail_5(src@, p0 as int, pos1, pos2, pos3, pos4);
                            assert(false);
                        }
                    }
                }
            }
                *pos = p0;
            return None;
        },
    };
    let t5 = match from_pairs_account(&ps5) {
        Some(t) => t,
        None => {
            proof {
                if p0 as int <= n_end {
                    assert(!tables_prefix(stream)) by {
                        if tables_prefix(stream) {
                            lemma_tables_from_fail_5(
                                src@,
                                p0 as int, pos1, pos2, pos3, pos4,
                                *pos as int,
                                ps5@,
                            );
                            assert(false);
                        }
                    }
                }
            }
                *pos = p0;
            return None;
        },
    };
    let ghost s5 = enc_pairs(ps5@);
    let ghost pos5 = *pos as int;
    proof {
        let vs = choose|vs: Seq<AccountState>|
            {
                &&& #[trigger] vs.len() == ps5@.len()
                &&& (forall|i: int|
                    0 <= i < vs.len() ==> ps5@[i].1@ == enc_account(#[trigger] vs[i]) && true)
                &&& t5@ == kv_map(key_views(ps5@), Seq::new(vs.len(), |i: int| vs[i]@))
            };
        reveal(crate::codec::table_rel_account);
        assert(table_rel_account(s5, t5@));
        assert(pairs_seg(src@.subrange(pos4, pos5)));
    }
    proof {
        assert(src@.subrange(p0 as int, pos2) =~= src@.subrange(p0 as int, pos1) + src@.subrange(
            pos1,
            pos2,
        ));
        assert(src@.subrange(p0 as int, pos3) =~= src@.subrange(p0 as int, pos2) + src@.subrange(
            pos2,
            pos3,
        ));
        assert(src@.subrange(p0 as int, pos4) =~= src@.subrange(p0 as int, pos3) + src@.subrange(
            pos3,
            pos4,
        ));
        assert(src@.subrange(p0 as int, pos5) =~= src@.subrange(p0 as int, pos4) + src@.subrange(
            pos4,
            pos5,
        ));
        assert(src@.subrange(p0 as int, pos5) == ((((s1 + s2) + s3) + s4) + s5));
    }
    Some(((t1, t2, t3, t4, t5), Ghost((s1, s2, s3, s4, s5))))
}


/// Stitches the parsed segments of a snapshot back into the relation.
#[verifier::rlimit(100)]
#[verifier::spinoff_prover]
proof fn lemma_deserialize_assemble(
    src: Seq<u8>,
    c: Blockchain,
    pos5: int,
    pos6: int,
    pos7: int,
    pos8: int,
    pos9: int,
    pos10: int,
    s1: Seq<u8>,
    s2: Seq<u8>,
    s3: Seq<u8>,
    s4: Seq<u8>,
    s5: Seq<u8>,
)
    requires
        0 <= pos5 <= pos6 <= pos7 <= pos8 <= pos9 <= pos10 <= src.len(),
        src.subrange(0, pos5) == ((((s1 + s2) + s3) + s4) + s5),
        table_rel_block(s1, c.blocks()),
        table_rel_vbytes(s2, c.miners()),
        table_rel_vbytes(s3, c.parents()),
        table_rel_u256(s4, c.cums()),
        table_rel_account(s5, c.ledger()),
        src.subrange(pos5, pos6) == enc_u256(c.difficulty),
        src.subrange(pos6, pos7) == enc_u64(c.target_duration_between_blocks),
        src.subrange(pos7, pos8) == enc_u64(c.max_transactions_per_block as u64),
        src.subrange(pos8, pos9) == enc_u64(c.blocks_between_difficulty_adjustment),
        src.subrange(pos9, pos10) == enc_u256(c.mining_reward),
        src.subrange(pos10, src.len() as int) == enc_bytes(
            c.current_longest_chain_latest_block_hash@,
        ),
        c.current_longest_chain_latest_block_hash@.len() <= usize::MAX,
    ensures
        snapshot_rel(src, c),
{
    let n = src.len() as int;
    let l5 = (((s1 + s2) + s3) + s4) + s5;
    let d6 = enc_u256(c.difficulty);
    let d7 = enc_u64(c.target_duration_between_blocks);
    let d8 = enc_u64(c.max_transactions_per_block as u64);
    let d9 = enc_u64(c.blocks_between_difficulty_adjustment);
    let d10 = enc_u256(c.mining_reward);
    let d11 = enc_bytes(c.current_longest_chain_latest_block_hash@);
    assert(src.subrange(0, pos6) =~= src.subrange(0, pos5) + src.subrange(pos5, pos6));
    assert(src.subrange(0, pos7) =~= src.subrange(0, pos6) + src.subrange(pos6, pos7));
    assert(src.subrange(0, pos8) =~= src.subrange(0, pos7) + src.subrange(pos7, pos8));
    assert(src.subrange(0, pos9) =~= src.subrange(0, pos8) + src.subrange(pos8, pos9));
    assert(src.subrange(0, pos10) =~= src.subrange(0, pos9) + src.subrange(pos9, pos10));
    assert(src.subrange(0, n) =~= src.subrange(0, pos10) + src.subrange(pos10, n));
    assert(src.subrange(0, n) =~= src);
    assert(src == ((((((l5 + d6) + d7) + d8) + d9) + d10) + d11));
    assert(tables_rel(l5, c, s1, s2, s3, s4, s5));
    lemma_snapshot_assemble(src, c, s1, s2, s3, s4, s5);
}


/// Cancelling equal-position pair tables at the head of one stream.
proof fn lemma_pairs_seg_cancel(a: Seq<u8>, b: Seq<u8>, x: Seq<u8>, y: Seq<u8>)
    requires
        pairs_seg(a),
        pairs_seg(b),
        a + x == b + y,
    ensures
        x == y,
{
    let pa = choose|p: Seq<(Vec<u8>, Vec<u8>)>|
        #![trigger enc_pairs(p)]
        {
            &&& enc_pairs(p) == a
            &&& p.len() < p64n()
            &&& p.len() <= usize::MAX
            &&& (forall|i: int| 0 <= i < p.len() ==> pair_bb_bounded(#[trigger] p[i]))
            &&& (forall|i: int| 0 <= i < p.len() ==> pair_fits_f()(#[trigger] p[i]))
        };
    let pb = choose|p: Seq<(Vec<u8>, Vec<u8>)>|
        #![trigger enc_pairs(p)]
        {
            &&& enc_pairs(p) == b
            &&& p.len() < p64n()
            &&& p.len() <= usize::MAX
            &&& (forall|i: int| 0 <= i < p.len() ==> pair_bb_bounded(#[trigger] p[i]))
            &&& (forall|i: int| 0 <= i < p.len() ==> pair_fits_f()(#[trigger] p[i]))
        };
    lemma_enc_pairs_prefix(pa, pb, x, y);
}

/// Positions and shapes of the scalar tail of a snapshot.
#[verifier::rlimit(100)]
#[verifier::spinoff_prover]
proof fn lemma_snapshot_tail_shape(src: Seq<u8>, c: Blockchain, p5: int)
    requires
        0 <= p5 <= src.len(),
        src.subrange(p5, src.len() as int) == snapshot_tail(c),
        c.current_longest_chain_latest_block_hash@.len() <= usize::MAX,
    ensures
        p5 + 96 + c.current_longest_chain_latest_block_hash@.len() == src.len(),
        src.subrange(p5, p5 + 32) == enc_u256(c.difficulty),
        src.subrange(p5 + 32, p5 + 40) == enc_u64(c.target_duration_between_blocks),
        src.subrange(p5 + 40, p5 + 48) == enc_u64(c.max_transactions_per_block as u64),
        src.subrange(p5 + 48, p5 + 56) == enc_u64(c.blocks_between_difficulty_adjustment),
        src.subrange(p5 + 56, p5 + 88) == enc_u256(c.mining_reward),
        src.subrange(p5 + 88, src.len() as int) == enc_bytes(
            c.current_longest_chain_latest_block_hash@,
        ),
        le_val(src.subrange(p5 + 88, p5 + 96))
            == c.current_longest_chain_latest_block_hash@.len(),
{
    lemma_pow256_vals();
    let n = src.len() as int;
    let d6 = enc_u256(c.difficulty);
    let d7 = enc_u64(c.target_duration_between_blocks);
    let d8 = enc_u64(c.max_transactions_per_block as u64);
    let d9 = enc_u64(c.blocks_between_difficulty_adjustment);
    let d10 = enc_u256(c.mining_reward);
    let d11 = enc_bytes(c.current_longest_chain_latest_block_hash@);
    let r10 = d10 + d11;
    let r9 = d9 + r10;
    let r8 = d8 + r9;
    let r7 = d7 + r8;
    lemma_enc_u256_len(c.difficulty);
    lemma_enc_u256_len(c.mining_reward);
    lemma_le_bytes_len(c.target_duration_between_blocks as nat, 8);
    lemma_le_bytes_len(c.max_transactions_per_block as u64 as nat, 8);
    lemma_le_bytes_len(c.blocks_between_difficulty_adjustment as nat, 8);
    lemma_le_bytes_len(c.current_longest_chain_latest_block_hash@.len(), 8);
    assert(src.subrange(p5, n) == d6 + r7);
    lemma_fixed_prefix_shape(src, p5, d6, r7);
    lemma_fixed_prefix_shape(src, p5 + 32, d7, r8);
    lemma_fixed_prefix_shape(src, p5 + 40, d8, r9);
    lemma_fixed_prefix_shape(src, p5 + 48, d9, r10);
    lemma_fixed_prefix_shape(src, p5 + 56, d10, d11);
    lemma_bytes_prefix_shape(
        src,
        p5 + 88,
        c.current_longest_chain_latest_block_hash@,
        Seq::<u8>::empty(),
    );
    assert(src.subrange(p5 + 88, n) =~= d11 + Seq::<u8>::empty());
    lemma_fixed_prefix_shape(src, p5 + 88, d11, Seq::<u8>::empty());
    assert(src.subrange(p5 + 88 + d11.len() as int, n).len() == 0);
}


/// With the five tables aligned, the scalar tail of the snapshot starts
/// exactly where they end.
#[verifier::rlimit(100)]
#[verifier::spinoff_prover]
proof fn lemma_snapshot_locate_tail(
    src: Seq<u8>,
    c: Blockchain,
    gs1: Seq<u8>,
    gs2: Seq<u8>,
    gs3: Seq<u8>,
    gs4: Seq<u8>,
    gs5: Seq<u8>,
    p5: int,
)
    requires
        snapshot_rel(src, c),
        0 <= p5 <= src.len(),
        src.subrange(0, p5) == ((((gs1 + gs2) + gs3) + gs4) + gs5),
        pairs_seg(gs1),
        pairs_seg(gs2),
        pairs_seg(gs3),
        pairs_seg(gs4),
        pairs_seg(gs5),
    ensures
        src.subrange(p5, src.len() as int) == snapshot_tail(c),
        c.current_longest_chain_latest_block_hash@.len() <= usize::MAX,
{
    reveal(crate::codec::snapshot_rel);
    let (w1, w2, w3, w4, w5) = choose|
        s1: Seq<u8>,
        s2: Seq<u8>,
        s3: Seq<u8>,
        s4: Seq<u8>,
        s5: Seq<u8>,
    |
        #![trigger snapshot_segments(s1, s2, s3, s4, s5)]
        {
            &&& snapshot_segments(s1, s2, s3, s4, s5)
            &&& ({
                let r5 = s5 + snapshot_tail(c);
                let r4 = s4 + r5;
                let r3 = s3 + r4;
                let r2 = s2 + r3;
                src == s1 + r2
            })
            &&& c.current_longest_chain_latest_block_hash@.len() <= usize::MAX
            &&& table_rel_block(s1, c.blocks())
            &&& table_rel_vbytes(s2, c.miners())
            &&& table_rel_vbytes(s3, c.parents())
            &&& table_rel_u256(s4, c.cums())
            &&& table_rel_account(s5, c.ledger())
        };
    lemma_table_rel_block_seg(w1, c.blocks());
    lemma_table_rel_vbytes_seg(w2, c.miners());
    lemma_table_rel_vbytes_seg(w3, c.parents());
    lemma_table_rel_u256_seg(w4, c.cums());
    lemma_table_rel_account_seg(w5, c.ledger());
    let n = src.len() as int;
    let tail = snapshot_tail(c);
    let sfx = src.subrange(p5, n);
    assert(src.subrange(0, n) =~= src.subrange(0, p5) + src.subrange(p5, n));
    assert(src.subrange(0, n) =~= src);
    let l2 = gs1 + gs2;
    let l3 = l2 + gs3;
    let l4 = l3 + gs4;
    let l5 = l4 + gs5;
    let a5 = gs5 + sfx;
    let a4 = gs4 + a5;
    let a3 = gs3 + a4;
    let a2 = gs2 + a3;
    lemma_cat_assoc(l4, gs5, sfx);
    assert(src == l4 + a5);
    lemma_cat_assoc(l3, gs4, a5);
    assert(src == l3 + a4);
    lemma_cat_assoc(l2, gs3, a4);
    assert(src == l2 + a3);
    lemma_cat_assoc(gs1, gs2, a3);
    assert(src == gs1 + a2);
    let b5 = w5 + tail;
    let b4 = w4 + b5;
    let b3 = w3 + b4;
    let b2 = w2 + b3;
    assert(src == w1 + b2);
    lemma_pairs_seg_cancel(gs1, w1, a2, b2);
    lemma_pairs_seg_cancel(gs2, w2, a3, b3);
    lemma_pairs_seg_cancel(gs3, w3, a4, b4);
    lemma_pairs_seg_cancel(gs4, w4, a5, b5);
    lemma_pairs_seg_cancel(gs5, w5, sfx, tail);
}

/// Restores a chain state from a snapshot; the informed lists start empty
/// and the ghost depth map is not reconstructed, so the result carries the
/// five tables, the scalars and the tip exactly as serialized.
#[verifier::rlimit(100)]
#[verifier::spinoff_prover]
pub fn deserialize_chain(src: &Vec<u8>) -> (r: Option<Blockchain>)
    ensures
        (r matches Some(c) ==> snapshot_rel(src@, c)),
        (exists|c2: Blockchain| snapshot_rel(src@, c2)) ==> r is Some,
{
    proof {
        lemma_pow256_vals();
    }
    let mut pos: usize = 0;
    let ghost n_all = src@.len() as int;
    let read_result = match read_snapshot_tables(src, &mut pos) {
        Some(ts) => ts,
        None => {
            proof {
                if exists|c2: Blockchain| snapshot_rel(src@, c2) {
                    let c2 = choose|c2: Blockchain| snapshot_rel(src@, c2);
                    reveal(crate::codec::snapshot_rel);
                    let (w1, w2, w3, w4, w5) = choose|
                        s1: Seq<u8>,
                        s2: Seq<u8>,
                        s3: Seq<u8>,
                        s4: Seq<u8>,
                        s5: Seq<u8>,
                    |
                        #![trigger snapshot_segments(s1, s2, s3, s4, s5)]
                        {
                            &&& snapshot_segments(s1, s2, s3, s4, s5)
                            &&& ({
                                let r5 = s5 + snapshot_tail(c2);
                                let r4 = s4 + r5;
                                let r3 = s3 + r4;
                                let r2 = s2 + r3;
                                src@ == s1 + r2
                            })
                            &&& c2.current_longest_chain_latest_block_hash@.len() <= usize::MAX
                            &&& table_rel_block(s1, c2.blocks())
                            &&& table_rel_vbytes(s2, c2.miners())
                            &&& table_rel_vbytes(s3, c2.parents())
                            &&& table_rel_u256(s4, c2.cums())
                            &&& table_rel_account(s5, c2.ledger())
                        };
                    lemma_table_rel_block_seg(w1, c2.blocks());
                    lemma_table_rel_vbytes_seg(w2, c2.miners());
                    lemma_table_rel_vbytes_seg(w3, c2.parents());
                    lemma_table_rel_u256_seg(w4, c2.cums());
                    lemma_table_rel_account_seg(w5, c2.ledger());
                    assert(src@.subrange(0, n_all) =~= src@);
                    assert(src@.subrange(0, n_all) == w1 + (w2 + (w3 + (w4 + (w5 + snapshot_tail(
                        c2,
                    ))))));
                    assert(tables_prefix(src@.subrange(0, n_all)));
                    assert(false);
                }
            }
            return None;
        },
    };
    let (tables, segs) = read_result;
    let ghost (gs1, gs2, gs3, gs4, gs5) = segs@;
    let ghost tv1 = tables.0@;
    let ghost tv2 = tables.1@;
    let ghost tv3 = tables.2@;
    let ghost tv4 = tables.3@;
    let ghost tv5 = tables.4@;
    let (t1, t2, t3, t4, t5) = tables;
    let ghost pos5 = pos as int;
    let difficulty = match read_u256(src, &mut pos) {
        Some(v) => v,
        None => {
            proof {
                if exists|c2: Blockchain| snapshot_rel(src@, c2) {
                    let c2 = choose|c2: Blockchain| snapshot_rel(src@, c2);
                    lemma_table_rel_block_seg(gs1, tv1);
                    lemma_table_rel_vbytes_seg(gs2, tv2);
                    lemma_table_rel_vbytes_seg(gs3, tv3);
                    lemma_table_rel_u256_seg(gs4, tv4);
                    lemma_table_rel_account_seg(gs5, tv5);
                    lemma_table_seg_block_pairs_seg(gs1);
                    lemma_table_seg_vbytes_pairs_seg(gs2);
                    lemma_table_seg_vbytes_pairs_seg(gs3);
                    lemma_table_seg_u256_pairs_seg(gs4);
                    lemma_table_seg_account_pairs_seg(gs5);
                    lemma_snapshot_locate_tail(src@, c2, gs1, gs2, gs3, gs4, gs5, pos5);
                    lemma_snapshot_tail_shape(src@, c2, pos5);

                    assert(false);
                }
            }
            return None;
        },
    };
    let ghost pos6 = pos as int;
    let target_duration_between_blocks = match read_u64(src, &mut pos) {
        Some(v) => v,
        None => {
            proof {
                if exists|c2: Blockchain| snapshot_rel(src@, c2) {
                    let c2 = choose|c2: Blockchain| snapshot_rel(src@, c2);
                    lemma_table_rel_block_seg(gs1, tv1);
                    lemma_table_rel_vbytes_seg(gs2, tv2);
                    lemma_table_rel_vbytes_seg(gs3, tv3);
                    lemma_table_rel_u256_seg(gs4, tv4);
                    lemma_table_rel_account_seg(gs5, tv5);
                    lemma_table_seg_block_pairs_seg(gs1);
                    lemma_table_seg_vbytes_pairs_seg(gs2);
                    lemma_table_seg_vbytes_pairs_seg(gs3);
                    lemma_table_seg_u256_pairs_seg(gs4);
                    lemma_table_seg_account_pairs_seg(gs5);
                    lemma_snapshot_locate_tail(src@, c2, gs1, gs2, gs3, gs4, gs5, pos5);
                    lemma_snapshot_tail_shape(src@, c2, pos5);

                    assert(false);
                }
            }
            return None;
        },
    };
    let ghost pos7 = pos as int;
    let max_tx = match read_u64(src, &mut pos) {
        Some(v) => v,
        None => {
            proof {
                if exists|c2: Blockchain| snapshot_rel(src@, c2) {
                    let c2 = choose|c2: Blockchain| snapshot_rel(src@, c2);
                    lemma_table_rel_block_seg(gs1, tv1);
                    lemma_table_rel_vbytes_seg(gs2, tv2);
                    lemma_table_rel_vbytes_seg(gs3, tv3);
                    lemma_table_rel_u256_seg(gs4, tv4);
                    lemma_table_rel_account_seg(gs5, tv5);
                    lemma_table_seg_block_pairs_seg(gs1);
                    lemma_table_seg_vbytes_pairs_seg(gs2);
                    lemma_table_seg_vbytes_pairs_seg(gs3);
                    lemma_table_seg_u256_pairs_seg(gs4);
                    lemma_table_seg_account_pairs_seg(gs5);
                    lemma_snapshot_locate_tail(src@, c2, gs1, gs2, gs3, gs4, gs5, pos5);
                    lemma_snapshot_tail_shape(src@, c2, pos5);

                    assert(false);
                }
            }
            return None;
        },
    };
    let ghost pos8 = pos as int;
    if max_tx > usize::MAX as u64 {
        proof {
                if exists|c2: Blockchain| snapshot_rel(src@, c2) {
                    let c2 = choose|c2: Blockchain| snapshot_rel(src@, c2);
                    lemma_table_rel_block_seg(gs1, tv1);
                    lemma_table_rel_vbytes_seg(gs2, tv2);
                    lemma_table_rel_vbytes_seg(gs3, tv3);
                    lemma_table_rel_u256_seg(gs4, tv4);
                    lemma_table_rel_account_seg(gs5, tv5);
                    lemma_table_seg_block_pairs_seg(gs1);
                    lemma_table_seg_vbytes_pairs_seg(gs2);
                    lemma_table_seg_vbytes_pairs_seg(gs3);
                    lemma_table_seg_u256_pairs_seg(gs4);
                    lemma_table_seg_account_pairs_seg(gs5);
                    lemma_snapshot_locate_tail(src@, c2, gs1, gs2, gs3, gs4, gs5, pos5);
                    lemma_snapshot_tail_shape(src@, c2, pos5);
                    assert(src@.subrange(pos7, pos7 + 8) == le_bytes(max_tx as nat, 8));
                    assert(src@.subrange(pos5 + 40, pos5 + 48) == enc_u64(
                        c2.max_transactions_per_block as u64,
                    ));
                    lemma_le_roundtrip(max_tx as nat, 8);
                    lemma_le_roundtrip(c2.max_transactions_per_block as u64 as nat, 8);
                    assert(max_tx as nat == c2.max_transactions_per_block as u64 as nat);
                    assert(false);
        }
        }
        return None;
    }
    let blocks_between_difficulty_adjustment = match read_u64(src, &mut pos) {
        Some(v) => v,
        None => {
            proof {
                if exists|c2: Blockchain| snapshot_rel(src@, c2) {
                    let c2 = choose|c2: Blockchain| snapshot_rel(src@, c2);
                    lemma_table_rel_block_seg(gs1, tv1);
                    lemma_table_rel_vbytes_seg(gs2, tv2);
                    lemma_table_rel_vbytes_seg(gs3, tv3);
                    lemma_table_rel_u256_seg(gs4, tv4);
                    lemma_table_rel_account_seg(gs5, tv5);
                    lemma_table_seg_block_pairs_seg(gs1);
                    lemma_table_seg_vbytes_pairs_seg(gs2);
                    lemma_table_seg_vbytes_pairs_seg(gs3);
                    lemma_table_seg_u256_pairs_seg(gs4);
                    lemma_table_seg_account_pairs_seg(gs5);
                    lemma_snapshot_locate_tail(src@, c2, gs1, gs2, gs3, gs4, gs5, pos5);
                    lemma_snapshot_tail_shape(src@, c2, pos5);

                    assert(false);
                }
            }
            return None;
        },
    };
    let ghost pos9 = pos as int;
    let mining_reward = match read_u256(src, &mut pos) {
        Some(v) => v,
        None => {
            proof {
                if exists|c2: Blockchain| snapshot_rel(src@, c2) {
                    let c2 = choose|c2: Blockchain| snapshot_rel(src@, c2);
                    lemma_table_rel_block_seg(gs1, tv1);
                    lemma_table_rel_vbytes_seg(gs2, tv2);
                    lemma_table_rel_vbytes_seg(gs3, tv3);
                    lemma_table_rel_u256_seg(gs4, tv4);
                    lemma_table_rel_account_seg(gs5, tv5);
                    lemma_table_seg_block_pairs_seg(gs1);
                    lemma_table_seg_vbytes_pairs_seg(gs2);
                    lemma_table_seg_vbytes_pairs_seg(gs3);
                    lemma_table_seg_u256_pairs_seg(gs4);
                    lemma_table_seg_account_pairs_seg(gs5);
                    lemma_snapshot_locate_tail(src@, c2, gs1, gs2, gs3, gs4, gs5, pos5);
                    lemma_snapshot_tail_shape(src@, c2, pos5);

                    assert(false);
                }
            }
            return None;
        },
    };
    let ghost pos10 = pos as int;
    let tip = match read_bytes(src, &mut pos) {
        Some(v) => v,
        None => {
            proof {
                if exists|c2: Blockchain| snapshot_rel(src@, c2) {
                    let c2 = choose|c2: Blockchain| snapshot_rel(src@, c2);
                    lemma_table_rel_block_seg(gs1, tv1);
                    lemma_table_rel_vbytes_seg(gs2, tv2);
                    lemma_table_rel_vbytes_seg(gs3, tv3);
                    lemma_table_rel_u256_seg(gs4, tv4);
                    lemma_table_rel_account_seg(gs5, tv5);
                    lemma_table_seg_block_pairs_seg(gs1);
                    lemma_table_seg_vbytes_pairs_seg(gs2);
                    lemma_table_seg_vbytes_pairs_seg(gs3);
                    lemma_table_seg_u256_pairs_seg(gs4);
                    lemma_table_seg_account_pairs_seg(gs5);
                    lemma_snapshot_locate_tail(src@, c2, gs1, gs2, gs3, gs4, gs5, pos5);
                    lemma_snapshot_tail_shape(src@, c2, pos5);

                    assert(false);
                }
            }
            return None;
        },
    };
    if pos != src.len() {
        proof {
                if exists|c2: Blockchain| snapshot_rel(src@, c2) {
                    let c2 = choose|c2: Blockchain| snapshot_rel(src@, c2);
                    lemma_table_rel_block_seg(gs1, tv1);
                    lemma_table_rel_vbytes_seg(gs2, tv2);
                    lemma_table_rel_vbytes_seg(gs3, tv3);
                    lemma_table_rel_u256_seg(gs4, tv4);
                    lemma_table_rel_account_seg(gs5, tv5);
                    lemma_table_seg_block_pairs_seg(gs1);
                    lemma_table_seg_vbytes_pairs_seg(gs2);
                    lemma_table_seg_vbytes_pairs_seg(gs3);
                    lemma_table_seg_u256_pairs_seg(gs4);
                    lemma_table_seg_account_pairs_seg(gs5);
                    lemma_snapshot_locate_tail(src@, c2, gs1, gs2, gs3, gs4, gs5, pos5);
                    lemma_snapshot_tail_shape(src@, c2, pos5);
                    assert(src@.subrange(pos10, n_all) =~= src@.subrange(pos10, pos as int)
                        + src@.subrange(pos as int, n_all));
                    lemma_enc_bytes_prefix(
                        tip@,
                        c2.current_longest_chain_latest_block_hash@,
                        src@.subrange(pos as int, n_all),
                        Seq::<u8>::empty(),
                    );
                    assert(src@.subrange(pos as int, n_all).len() == 0);
                    assert(false);
        }
        }
        return None;
    }
    let c = Blockchain {
        hash_to_block: t1,
        hash_to_miner: t2,
        block_parent_map: t3,
        hash_to_cumulative_difficulty: t4,
        difficulty,
        target_duration_between_blocks,
        max_transactions_per_block: max_tx as usize,
        blocks_between_difficulty_adjustment,
        accounts: t5,
        mining_reward,
        current_longest_chain_latest_block_hash: tip,
        hash_to_miners_who_received_the_block: AList::new(),
        depths: Ghost(Map::tracked_empty()),
    };
    proof {
        assert(c.blocks() == tv1 && c.miners() == tv2 && c.parents() == tv3 && c.cums() == tv4
            && c.ledger() == tv5);
        assert(table_rel_block(gs1, c.blocks()));
        assert(table_rel_vbytes(gs2, c.miners()));
        assert(table_rel_vbytes(gs3, c.parents()));
        assert(table_rel_u256(gs4, c.cums()));
        assert(table_rel_account(gs5, c.ledger()));
        lemma_deserialize_assemble(
            src@,
            c,
            pos5,
            pos6,
            pos7,
            pos8,
            pos9,
            pos10,
            gs1,
            gs2,
            gs3,
            gs4,
            gs5,
        );
    }
    Some(c)
}

#[verifier::rlimit(100)]
#[verifier::spinoff_prover]
pub proof fn lemma_snapshot_roundtrip(bytes: Seq<u8>, a: Blockchain, b: Blockchain)
    requires
        snapshot_rel(bytes, a),
        snapshot_rel(bytes, b),
    ensures
        a.blocks() == b.blocks(),
        a.miners() == b.miners(),
        a.parents() == b.parents(),
        a.cums() == b.cums(),
        a.ledger() == b.ledger(),
        a.difficulty == b.difficulty,
        a.target_duration_between_blocks == b.target_duration_between_blocks,
        a.max_transactions_per_block == b.max_transactions_per_block,
        a.blocks_between_difficulty_adjustment == b.blocks_between_difficulty_adjustment,
        a.mining_reward == b.mining_reward,
        a.tip() == b.tip(),
{
    reveal(crate::codec::snapshot_rel);
    lemma_pow256_vals();
    let (a1, a2, a3, a4, a5) = choose|
        s1: Seq<u8>,
        s2: Seq<u8>,
        s3: Seq<u8>,
        s4: Seq<u8>,
        s5: Seq<u8>,
    |
        #![trigger snapshot_segments(s1, s2, s3, s4, s5)]
        {
            &&& snapshot_segments(s1, s2, s3, s4, s5)
            &&& ({
                let r5 = s5 + snapshot_tail(a);
                let r4 = s4 + r5;
                let r3 = s3 + r4;
                let r2 = s2 + r3;
                bytes == s1 + r2
            })
            &&& a.current_longest_chain_latest_block_hash@.len() <= usize::MAX
            &&& table_rel_block(s1, a.blocks())
            &&& table_rel_vbytes(s2, a.miners())
            &&& table_rel_vbytes(s3, a.parents())
            &&& table_rel_u256(s4, a.cums())
            &&& table_rel_account(s5, a.ledger())
        };
    let (b1, b2, b3, b4, b5) = choose|
        s1: Seq<u8>,
        s2: Seq<u8>,
        s3: Seq<u8>,
        s4: Seq<u8>,
        s5: Seq<u8>,
    |
        #![trigger snapshot_segments(s1, s2, s3, s4, s5)]
        {
            &&& snapshot_segments(s1, s2, s3, s4, s5)
            &&& ({
                let r5 = s5 + snapshot_tail(b);
                let r4 = s4 + r5;
                let r3 = s3 + r4;
                let r2 = s2 + r3;
                bytes == s1 + r2
            })
            &&& b.current_longest_chain_latest_block_hash@.len() <= usize::MAX
            &&& table_rel_block(s1, b.blocks())
            &&& table_rel_vbytes(s2, b.miners())
            &&& table_rel_vbytes(s3, b.parents())
            &&& table_rel_u256(s4, b.cums())
            &&& table_rel_account(s5, b.ledger())
        };
    let ad6 = enc_u256(a.difficulty);
    let ad7 = enc_u64(a.target_duration_between_blocks);
    let ad8 = enc_u64(a.max_transactions_per_block as u64);
    let ad9 = enc_u64(a.blocks_between_difficulty_adjustment);
    let ad10 = enc_u256(a.mining_reward);
    let ad11 = enc_bytes(a.current_longest_chain_latest_block_hash@);
    let ar10 = ad10 + ad11;
    let ar9 = ad9 + ar10;
    let ar8 = ad8 + ar9;
    let ar7 = ad7 + ar8;
    let ar6 = ad6 + ar7;
    let ar5 = a5 + ar6;
    let ar4 = a4 + ar5;
    let ar3 = a3 + ar4;
    let ar2 = a2 + ar3;
    let bd6 = enc_u256(b.difficulty);
    let bd7 = enc_u64(b.target_duration_between_blocks);
    let bd8 = enc_u64(b.max_transactions_per_block as u64);
    let bd9 = enc_u64(b.blocks_between_difficulty_adjustment);
    let bd10 = enc_u256(b.mining_reward);
    let bd11 = enc_bytes(b.current_longest_chain_latest_block_hash@);
    let br10 = bd10 + bd11;
    let br9 = bd9 + br10;
    let br8 = bd8 + br9;
    let br7 = bd7 + br8;
    let br6 = bd6 + br7;
    let br5 = b5 + br6;
    let br4 = b4 + br5;
    let br3 = b3 + br4;
    let br2 = b2 + br3;
    assert(ar6 == snapshot_tail(a));
    assert(br6 == snapshot_tail(b));
    assert(a1 + ar2 == bytes);
    assert(b1 + br2 == bytes);
    lemma_table_rel_block_unique(a1, a.blocks(), b1, b.blocks(), ar2, br2);
    lemma_table_rel_vbytes_unique(a2, a.miners(), b2, b.miners(), ar3, br3);
    lemma_table_rel_vbytes_unique(a3, a.parents(), b3, b.parents(), ar4, br4);
    lemma_table_rel_u256_unique(a4, a.cums(), b4, b.cums(), ar5, br5);
    lemma_table_rel_account_unique(a5, a.ledger(), b5, b.ledger(), ar6, br6);
    lemma_enc_u256_prefix(a.difficulty, b.difficulty, ar7, br7);
    lemma_enc_u64_prefix(
        a.target_duration_between_blocks,
        b.target_duration_between_blocks,
        ar8,
        br8,
    );
    lemma_enc_u64_prefix(
        a.max_transactions_per_block as u64,
        b.max_transactions_per_block as u64,
        ar9,
        br9,
    );
    lemma_enc_u64_prefix(
        a.blocks_between_difficulty_adjustment,
        b.blocks_between_difficulty_adjustment,
        ar10,
        br10,
    );
    lemma_enc_u256_prefix(a.mining_reward, b.mining_reward, ad11, bd11);
    lemma_enc_bytes_prefix(
        a.current_longest_chain_latest_block_hash@,
        b.current_longest_chain_latest_block_hash@,
        Seq::<u8>::empty(),
        Seq::<u8>::empty(),
    );
    assert(ad11 + Seq::<u8>::empty() =~= ad11);
    assert(bd11 + Seq::<u8>::empty() =~= bd11);
}

} // verus!
