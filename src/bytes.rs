//! Fixed-width unsigned integers as byte sequences, in either byte order.

use vstd::prelude::*;

verus! {

/// `256` raised to the power `k`.
pub open spec fn pow256(k: nat) -> nat
    decreases k,
{
    if k == 0 {
        1
    } else {
        256 * pow256((k - 1) as nat)
    }
}

/// The `n` least significant bytes of `v`, least significant first.
pub open spec fn le_bytes(v: nat, n: nat) -> Seq<u8>
    decreases n,
{
    if n == 0 {
        seq![]
    } else {
        seq![(v % 256) as u8] + le_bytes(v / 256, (n - 1) as nat)
    }
}

/// The number whose little-endian encoding is `s`.
pub open spec fn le_value(s: Seq<u8>) -> nat
    decreases s.len(),
{
    if s.len() == 0 {
        0
    } else {
        s[0] as nat + 256 * le_value(s.drop_first())
    }
}

/// `v` written on `n` bytes, in the byte order that `little_endian` selects.
pub open spec fn uint_bytes(v: nat, n: nat, little_endian: bool) -> Seq<u8> {
    if little_endian {
        le_bytes(v, n)
    } else {
        le_bytes(v, n).reverse()
    }
}

/// The number that the bytes `s` encode in the byte order that
/// `little_endian` selects.
pub open spec fn uint_value(s: Seq<u8>, little_endian: bool) -> nat {
    if little_endian {
        le_value(s)
    } else {
        le_value(s.reverse())
    }
}

pub proof fn lemma_pow256_mono(a: nat, b: nat)
    requires
        a <= b,
    ensures
        pow256(a) <= pow256(b),
    decreases b,
{
    if a < b {
        lemma_pow256_mono(a, (b - 1) as nat);
    }
}

pub proof fn lemma_pow256_8()
    ensures
        pow256(8) == 0x1_0000_0000_0000_0000,
{
    reveal_with_fuel(pow256, 9);
}

pub proof fn lemma_le_bytes_len(v: nat, n: nat)
    ensures
        le_bytes(v, n).len() == n,
    decreases n,
{
    if n > 0 {
        lemma_le_bytes_len(v / 256, (n - 1) as nat);
    }
}

pub proof fn lemma_le_value_bound(s: Seq<u8>)
    ensures
        le_value(s) < pow256(s.len()),
    decreases s.len(),
{
    if s.len() > 0 {
        lemma_le_value_bound(s.drop_first());
        let r = le_value(s.drop_first());
        let p = pow256(s.drop_first().len());
        assert(s[0] as nat + 256 * r < 256 * p) by (nonlinear_arith)
            requires
                r < p,
                s[0] as nat <= 255,
        ;
    }
}

/// Reading back the bytes of a number that fits gives the number.
pub proof fn lemma_le_value_of_bytes(v: nat, n: nat)
    requires
        v < pow256(n),
    ensures
        le_value(le_bytes(v, n)) == v,
    decreases n,
{
    if n > 0 {
        let p = pow256((n - 1) as nat);
        assert(v / 256 < p) by (nonlinear_arith)
            requires
                v < 256 * p,
        ;
        lemma_le_value_of_bytes(v / 256, (n - 1) as nat);
        let s = le_bytes(v, n);
        assert(s.drop_first() =~= le_bytes(v / 256, (n - 1) as nat));
        assert(v == v % 256 + 256 * (v / 256)) by (nonlinear_arith);
    }
}

/// Writing out the number that some bytes encode gives the same bytes.
pub proof fn lemma_le_bytes_of_value(s: Seq<u8>)
    ensures
        le_bytes(le_value(s), s.len()) == s,
    decreases s.len(),
{
    if s.len() > 0 {
        let r = le_value(s.drop_first());
        lemma_le_bytes_of_value(s.drop_first());
        let v = s[0] as nat + 256 * r;
        assert(v % 256 == s[0] as nat && v / 256 == r) by (nonlinear_arith)
            requires
                v == s[0] as nat + 256 * r,
                s[0] as nat <= 255,
        ;
        assert(le_bytes(v, s.len()) =~= s);
    }
}

pub proof fn lemma_uint_bytes_len(v: nat, n: nat, little_endian: bool)
    ensures
        uint_bytes(v, n, little_endian).len() == n,
{
    lemma_le_bytes_len(v, n);
}

/// Decoding what was encoded, in the same byte order, gives back the number.
pub proof fn lemma_uint_value_of_bytes(v: nat, n: nat, little_endian: bool)
    requires
        v < pow256(n),
    ensures
        uint_value(uint_bytes(v, n, little_endian), little_endian) == v,
{
    lemma_le_value_of_bytes(v, n);
    lemma_le_bytes_len(v, n);
    assert(le_bytes(v, n).reverse().reverse() =~= le_bytes(v, n));
}

/// Encoding what was decoded, in the same byte order, gives back the bytes.
pub proof fn lemma_uint_bytes_of_value(s: Seq<u8>, little_endian: bool)
    ensures
        uint_bytes(uint_value(s, little_endian), s.len(), little_endian) == s,
{
    lemma_le_bytes_of_value(s);
    lemma_le_bytes_of_value(s.reverse());
    assert(s.reverse().reverse() =~= s);
}

/// The `n` bytes of `v` in the byte order that `little_endian` selects.
pub fn encode_uint(v: u64, n: usize, little_endian: bool) -> (r: Vec<u8>)
    requires
        n <= 8,
    ensures
        r@ == uint_bytes(v as nat, n as nat, little_endian),
{
    let mut le: Vec<u8> = Vec::new();
    let mut x: u64 = v;
    let mut i: usize = 0;
    while i < n
        invariant
            i <= n,
            le@ + le_bytes(x as nat, (n - i) as nat) == le_bytes(v as nat, n as nat),
        decreases n - i,
    {
        let ghost prev = le@;
        let b: u8 = (x % 256) as u8;
        assert(le_bytes(x as nat, (n - i) as nat) == seq![b] + le_bytes(
            (x / 256) as nat,
            (n - i - 1) as nat,
        ));
        le.push(b);
        x = x / 256;
        i = i + 1;
        assert(prev + (seq![b] + le_bytes(x as nat, (n - i) as nat)) =~= le@ + le_bytes(
            x as nat,
            (n - i) as nat,
        ));
    }
    assert(le@ =~= le_bytes(v as nat, n as nat));
    proof {
        lemma_le_bytes_len(v as nat, n as nat);
    }
    if little_endian {
        le
    } else {
        let mut be: Vec<u8> = Vec::new();
        let mut k: usize = 0;
        while k < n
            invariant
                k <= n,
                le@.len() == n,
                be@ =~= le@.reverse().take(k as int),
            decreases n - k,
        {
            be.push(le[n - 1 - k]);
            k = k + 1;
        }
        assert(be@ =~= le@.reverse());
        be
    }
}

/// The number that the first `n` bytes of `data` encode in the byte order
/// that `little_endian` selects.
pub fn decode_uint(data: &Vec<u8>, n: usize, little_endian: bool) -> (r: u64)
    requires
        n <= 8,
        n <= data@.len(),
    ensures
        r as nat == uint_value(data@.take(n as int), little_endian),
{
    let ghost s = data@.take(n as int);
    proof {
        lemma_pow256_8();
        lemma_le_value_bound(s);
        lemma_le_value_bound(s.reverse());
        lemma_pow256_mono(n as nat, 8);
    }
    let mut x: u64 = 0;
    if little_endian {
        let mut i: usize = n;
        while i > 0
            invariant
                i <= n,
                n <= 8,
                n <= data@.len(),
                s == data@.take(n as int),
                x as nat == le_value(s.subrange(i as int, n as int)),
            decreases i,
        {
            let ghost t = s.subrange(i - 1, n as int);
            assert(t.drop_first() =~= s.subrange(i as int, n as int));
            proof {
                lemma_le_value_bound(t);
                lemma_pow256_mono(t.len(), 8);
                lemma_pow256_8();
            }
            assert(le_value(t) == t[0] as nat + 256 * le_value(t.drop_first()));
            assert(x as nat * 256 + data[i - 1] as nat == le_value(t));
            x = x * 256 + data[i - 1] as u64;
            i = i - 1;
        }
        assert(s.subrange(0, n as int) =~= s);
    } else {
        let mut i: usize = 0;
        while i < n
            invariant
                i <= n,
                n <= 8,
                n <= data@.len(),
                s == data@.take(n as int),
                x as nat == le_value(s.take(i as int).reverse()),
            decreases n - i,
        {
            let ghost t = s.take(i + 1).reverse();
            assert(t.drop_first() =~= s.take(i as int).reverse());
            proof {
                lemma_le_value_bound(t);
                lemma_pow256_mono(t.len(), 8);
                lemma_pow256_8();
            }
            assert(le_value(t) == t[0] as nat + 256 * le_value(t.drop_first()));
            assert(x as nat * 256 + data[i as int] as nat == le_value(t));
            x = x * 256 + data[i] as u64;
            i = i + 1;
        }
        assert(s.take(n as int) =~= s);
    }
    x
}

} // verus!
