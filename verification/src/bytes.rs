//! Little-endian numbers.

use vstd::prelude::*;

verus! {

/// The `n` lowest bytes of `v`, lowest first.
pub open spec fn le_bytes(v: nat, n: nat) -> Seq<u8>
    decreases n,
{
    if n == 0 {
        Seq::empty()
    } else {
        seq![(v % 256) as u8] + le_bytes(v / 256, (n - 1) as nat)
    }
}

/// The number whose bytes, lowest first, are `s`.
pub open spec fn le_value(s: Seq<u8>) -> nat
    decreases s.len(),
{
    if s.len() == 0 {
        0
    } else {
        s[0] as nat + 256 * le_value(s.drop_first())
    }
}

/// The four bytes that store `v` modulo 2^32. A negative number is stored in
/// two's complement, a larger one loses its upper bits.
pub open spec fn word32(v: int) -> Seq<u8> {
    le_bytes((v % 0x1_0000_0000) as nat, 4)
}

/// The eight bytes that store `v` modulo 2^64.
pub open spec fn word64(v: int) -> Seq<u8> {
    le_bytes((v % 0x1_0000_0000_0000_0000) as nat, 8)
}

/// The signed number that a 32-bit word stands for.
pub open spec fn signed32(v: nat) -> int {
    if v < 0x8000_0000 {
        v as int
    } else {
        v - 0x1_0000_0000
    }
}

/// The signed number that a 64-bit word stands for.
pub open spec fn signed64(v: nat) -> int {
    if v < 0x8000_0000_0000_0000 {
        v as int
    } else {
        v - 0x1_0000_0000_0000_0000
    }
}

/// 256 to the power of `n`.
pub open spec fn pow256(n: nat) -> nat
    decreases n,
{
    if n == 0 {
        1
    } else {
        256 * pow256((n - 1) as nat)
    }
}

pub proof fn lemma_pow256()
    ensures
        pow256(0) == 1,
        pow256(1) == 256,
        pow256(4) == 0x1_0000_0000,
        pow256(8) == 0x1_0000_0000_0000_0000,
{
    reveal_with_fuel(pow256, 9);
}

pub proof fn lemma_le_bytes_len(v: nat, n: nat)
    ensures
        le_bytes(v, n).len() == n,
    decreases n,
{
    if n > 0 {
        lemma_le_bytes_len(v / 256, (n - 1) as nat);
    }
}

/// Both word sizes have the length that their names say.
pub proof fn lemma_word_len(v: int)
    ensures
        word32(v).len() == 4,
        word64(v).len() == 8,
{
    lemma_le_bytes_len((v % 0x1_0000_0000) as nat, 4);
    lemma_le_bytes_len((v % 0x1_0000_0000_0000_0000) as nat, 8);
}

/// A number survives being stored in enough bytes.
pub proof fn lemma_le_roundtrip(v: nat, n: nat)
    requires
        v < pow256(n),
    ensures
        le_value(le_bytes(v, n)) == v,
    decreases n,
{
    if n > 0 {
        let rest = le_bytes(v / 256, (n - 1) as nat);
        assert(v / 256 < pow256((n - 1) as nat));
        lemma_le_roundtrip(v / 256, (n - 1) as nat);
        assert(le_bytes(v, n).drop_first() =~= rest);
    }
}

/// Bytes survive being read as a number and stored again.
pub proof fn lemma_le_value_roundtrip(s: Seq<u8>)
    ensures
        le_value(s) < pow256(s.len()),
        le_bytes(le_value(s), s.len()) == s,
    decreases s.len(),
{
    if s.len() > 0 {
        let rest = s.drop_first();
        lemma_le_value_roundtrip(rest);
        let v = le_value(s);
        assert(v % 256 == s[0] as nat);
        assert(v / 256 == le_value(rest));
        assert(le_bytes(v, s.len()) =~= s);
    } else {
        assert(le_bytes(0, 0) =~= s);
    }
}

/// What a 32-bit word gives back, for the values that it can hold.
pub proof fn lemma_word32_roundtrip(v: int)
    ensures
        le_value(word32(v)) == v % 0x1_0000_0000,
        0 <= v < 0x1_0000_0000 ==> le_value(word32(v)) == v,
        -0x8000_0000 <= v < 0x8000_0000 ==> signed32(le_value(word32(v))) == v,
{
    lemma_pow256();
    lemma_le_roundtrip((v % 0x1_0000_0000) as nat, 4);
}

/// What a 64-bit word gives back, for the values that it can hold.
pub proof fn lemma_word64_roundtrip(v: int)
    ensures
        le_value(word64(v)) == v % 0x1_0000_0000_0000_0000,
        0 <= v < 0x1_0000_0000_0000_0000 ==> le_value(word64(v)) == v,
        -0x8000_0000_0000_0000 <= v < 0x8000_0000_0000_0000 ==> signed64(le_value(word64(v))) == v,
{
    lemma_pow256();
    lemma_le_roundtrip((v % 0x1_0000_0000_0000_0000) as nat, 8);
}

/// A signed number as an unsigned one.
pub proof fn lemma_cast64(v: i64)
    ensures
        v as u64 == (v as int) % 0x1_0000_0000_0000_0000,
{
    assert(v >= 0 ==> v as u64 == v) by (bit_vector);
    assert(v < 0 ==> (v as u64) == v + 0x1_0000_0000_0000_0000) by (bit_vector);
}

/// An unsigned number as a signed one.
pub proof fn lemma_cast_signed64(v: u64)
    ensures
        v as i64 == signed64(v as nat),
{
    assert(v < 0x8000_0000_0000_0000 ==> v as i64 == v) by (bit_vector);
    assert(v >= 0x8000_0000_0000_0000 ==> (v as i64) == v - 0x1_0000_0000_0000_0000)
        by (bit_vector);
}

proof fn lemma_le_bytes_push(v: nat, n: nat)
    ensures
        le_bytes(v, n + 1) == le_bytes(v, n).push(((v / pow256(n)) % 256) as u8),
        pow256(n) > 0,
    decreases n,
{
    if n == 0 {
        reveal_with_fuel(le_bytes, 2);
        lemma_pow256();
        assert(le_bytes(v, 1) =~= seq![(v % 256) as u8]);
        assert(le_bytes(v, n).push(((v / pow256(n)) % 256) as u8) =~= seq![(v % 256) as u8]);
    } else {
        let k = (n - 1) as nat;
        lemma_le_bytes_push(v / 256, k);
        assert((v / 256) / pow256(k) == v / pow256(n)) by {
            vstd::arithmetic::div_mod::lemma_div_denominator(v as int, 256, pow256(k) as int);
        }
        assert(le_bytes(v, n + 1) =~= le_bytes(v, n).push(((v / pow256(n)) % 256) as u8));
    }
}

/// The `n` lowest bytes of `v`, lowest first.
pub fn to_le(v: u64, n: usize) -> (out: Vec<u8>)
    ensures
        out@ == le_bytes(v as nat, n as nat),
{
    let mut out: Vec<u8> = Vec::new();
    let mut rest: u64 = v;
    let mut i: usize = 0;
    proof {
        lemma_pow256();
        assert(v as nat / 1 == v as nat) by (nonlinear_arith);
    }
    while i < n
        invariant
            i <= n,
            out@ == le_bytes(v as nat, i as nat),
            rest == v as nat / pow256(i as nat),
            pow256(i as nat) > 0,
        decreases n - i,
    {
        proof {
            lemma_le_bytes_push(v as nat, i as nat);
            lemma_le_bytes_push(v as nat, (i + 1) as nat);
            assert(v as nat / pow256((i + 1) as nat) == (v as nat / pow256(i as nat)) / 256) by {
                vstd::arithmetic::div_mod::lemma_div_denominator(
                    v as int,
                    pow256(i as nat) as int,
                    256,
                );
            }
        }
        out.push((rest % 256) as u8);
        rest = rest / 256;
        i = i + 1;
    }
    out
}

/// The number whose bytes, lowest first, are `bytes`.
pub fn from_le(bytes: &[u8]) -> (v: u64)
    requires
        bytes@.len() <= 8,
    ensures
        v == le_value(bytes@),
{
    let n: usize = bytes.len();
    let mut v: u64 = 0;
    let mut i: usize = n;
    assert(bytes@.skip(n as int) =~= Seq::<u8>::empty());
    while i > 0
        invariant
            i <= n,
            n == bytes@.len(),
            n <= 8,
            v == le_value(bytes@.skip(i as int)),
        decreases i,
    {
        proof {
            let tail = bytes@.skip(i as int);
            lemma_le_value_roundtrip(tail);
            lemma_le_value_roundtrip(bytes@.skip(i - 1));
            lemma_pow256_mono(bytes@.skip(i - 1).len(), 8);
            lemma_pow256();
            assert(bytes@.skip(i - 1).drop_first() =~= tail);
        }
        i = i - 1;
        v = bytes[i] as u64 + 256 * v;
    }
    assert(bytes@.skip(0) =~= bytes@);
    v
}

proof fn lemma_pow256_mono(a: nat, b: nat)
    requires
        a <= b,
    ensures
        0 < pow256(a) <= pow256(b),
    decreases b,
{
    if a < b {
        lemma_pow256_mono(a, (b - 1) as nat);
    } else if b > 0 {
        lemma_pow256_mono((a - 1) as nat, (b - 1) as nat);
    }
}

} // verus!
