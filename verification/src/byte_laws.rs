//! Stored numbers, byte by byte.

use crate::bytes;
use crate::codec;
use crate::error::Error;
use crate::error::IoFailure;
use vstd::arithmetic::div_mod;
use vstd::arithmetic::power;
use vstd::prelude::*;

verus! {

/// The number in the four bytes at `at`, lowest first.
pub open spec fn four(c: Seq<u8>, at: int) -> int {
    c[at] + 0x100 * c[at + 1] + 0x1_0000 * c[at + 2] + 0x100_0000 * c[at + 3]
}

/// The number in the eight bytes at `at`, lowest first.
pub open spec fn eight(c: Seq<u8>, at: int) -> int {
    four(c, at) + 0x1_0000_0000 * four(c, at + 4)
}

/// The signed number in the four bytes at `at`.
pub open spec fn signed_four(c: Seq<u8>, at: int) -> int {
    if c[at + 3] < 128 {
        four(c, at)
    } else {
        four(c, at) - 0x1_0000_0000
    }
}

/// The signed number in the eight bytes at `at`.
pub open spec fn signed_eight(c: Seq<u8>, at: int) -> int {
    if c[at + 7] < 128 {
        eight(c, at)
    } else {
        eight(c, at) - 0x1_0000_0000_0000_0000
    }
}

/// The bytes of a number stand lowest first, and each counts 256 times the one
/// before it.
pub proof fn lemma_le_value(s: Seq<u8>)
    ensures
        s.len() == 4 ==> bytes::le_value(s) == s[0] + 0x100 * s[1] + 0x1_0000 * s[2] + 0x100_0000
            * s[3],
        s.len() == 8 ==> bytes::le_value(s) == s[0] + 0x100 * s[1] + 0x1_0000 * s[2] + 0x100_0000
            * s[3] + 0x1_0000_0000 * s[4] + 0x100_0000_0000 * s[5] + 0x1_0000_0000_0000 * s[6]
            + 0x100_0000_0000_0000 * s[7],
{
    reveal_with_fuel(bytes::le_value, 9);
    if s.len() == 4 || s.len() == 8 {
        let t = s.drop_first();
        let u = t.drop_first();
        let v = u.drop_first();
        let w = v.drop_first();
        if s.len() == 8 {
            let x = w.drop_first();
            let y = x.drop_first();
            let z = y.drop_first();
            assert(z.drop_first().len() == 0);
            assert(z[0] == s[7] && y[0] == s[6] && x[0] == s[5] && w[0] == s[4]);
        }
        assert(v[0] == s[3] && u[0] == s[2] && t[0] == s[1]);
    }
}

/// A number is stored in four or eight bytes, lowest first; a negative one as
/// the number that is larger by a full turn.
pub proof fn lemma_word_bytes(v: int)
    ensures
        bytes::word32(v).len() == 4,
        bytes::word64(v).len() == 8,
        ({
            let s = bytes::word32(v);
            s[0] + 0x100 * s[1] + 0x1_0000 * s[2] + 0x100_0000 * s[3] == v % 0x1_0000_0000
        }),
        ({
            let s = bytes::word64(v);
            s[0] + 0x100 * s[1] + 0x1_0000 * s[2] + 0x100_0000 * s[3] + 0x1_0000_0000 * s[4]
                + 0x100_0000_0000 * s[5] + 0x1_0000_0000_0000 * s[6] + 0x100_0000_0000_0000 * s[7]
                == v % 0x1_0000_0000_0000_0000
        }),
{
    bytes::lemma_word_len(v);
    bytes::lemma_word32_roundtrip(v);
    bytes::lemma_word64_roundtrip(v);
    lemma_le_value(bytes::word32(v));
    lemma_le_value(bytes::word64(v));
}

/// A stored word stands for the signed number in range that differs from it by
/// a full turn or not at all.
pub proof fn lemma_signed(v: nat)
    ensures
        v < 0x1_0000_0000 ==> -0x8000_0000 <= bytes::signed32(v) < 0x8000_0000 && (
        bytes::signed32(v) - v) % 0x1_0000_0000 == 0,
        v < 0x1_0000_0000_0000_0000 ==> -0x8000_0000_0000_0000 <= bytes::signed64(v)
            < 0x8000_0000_0000_0000 && (bytes::signed64(v) - v) % 0x1_0000_0000_0000_0000 == 0,
{
}

/// Stored numbers follow each other without a gap, and are read back so.
pub proof fn lemma_words(data: Seq<u32>, b: Seq<u8>, i: int)
    ensures
        codec::words(data).len() == 4 * data.len(),
        0 <= i < data.len() ==> {
            let s = codec::words(data);
            data[i] == s[4 * i] + 0x100 * s[4 * i + 1] + 0x1_0000 * s[4 * i + 2] + 0x100_0000
                * s[4 * i + 3]
        },
        codec::word_values(b).len() == b.len() / 4,
        0 <= i < b.len() / 4 ==> codec::word_values(b)[i] == b[4 * i] + 0x100 * b[4 * i + 1]
            + 0x1_0000 * b[4 * i + 2] + 0x100_0000 * b[4 * i + 3],
{
    codec::lemma_words_roundtrip(data);
    if 0 <= i < b.len() / 4 {
        lemma_le_value(b.subrange(4 * i, 4 * i + 4));
    }
    let s = codec::words(data);
    if 0 <= i < data.len() {
        assert(codec::word_values(s)[i] == data[i]);
        lemma_le_value(s.subrange(4 * i, 4 * i + 4));
    }
}

/// A number is read where it stands; where the file ends before it does, that
/// is the answer.
pub proof fn lemma_read_words(c: Seq<u8>, pos: nat, count: nat)
    ensures
        pos + 4 <= c.len() ==> {
            let o: int = pos as int;
            let v = c[o] + 0x100 * c[o + 1] + 0x1_0000 * c[o + 2] + 0x100_0000 * c[o + 3];
            &&& codec::u32_at(c, pos) == Ok::<u32, Error>(v as u32)
            &&& codec::i32_at(c, pos) == Ok::<i32, Error>(
                if v < 0x8000_0000 {
                    v
                } else {
                    v - 0x1_0000_0000
                } as i32,
            )
        },
        pos + 4 > c.len() ==> codec::u32_at(c, pos) == Err::<u32, Error>(
            Error::Io(IoFailure::UnexpectedEof),
        ) && codec::i32_at(c, pos) == Err::<i32, Error>(Error::Io(IoFailure::UnexpectedEof)),
        pos + 8 <= c.len() ==> {
            let o: int = pos as int;
            let v = c[o] + 0x100 * c[o + 1] + 0x1_0000 * c[o + 2] + 0x100_0000 * c[o + 3]
                + 0x1_0000_0000 * c[o + 4] + 0x100_0000_0000 * c[o + 5] + 0x1_0000_0000_0000 * c[o
                + 6] + 0x100_0000_0000_0000 * c[o + 7];
            codec::i64_at(c, pos) == Ok::<i64, Error>(
                if v < 0x8000_0000_0000_0000 {
                    v
                } else {
                    v - 0x1_0000_0000_0000_0000
                } as i64,
            )
        },
        pos + 8 > c.len() ==> codec::i64_at(c, pos) == Err::<i64, Error>(
            Error::Io(IoFailure::UnexpectedEof),
        ),
        pos + 4 * count <= c.len() ==> codec::words_at(c, pos, count) == Ok::<Seq<u32>, Error>(
            Seq::new(
                count,
                |i: int|
                    (c[pos + 4 * i] + 0x100 * c[pos + 4 * i + 1] + 0x1_0000 * c[pos + 4 * i + 2]
                        + 0x100_0000 * c[pos + 4 * i + 3]) as u32,
            ),
        ),
        count > 0 && pos + 4 * count > c.len() ==> codec::words_at(c, pos, count) == Err::<
            Seq<u32>,
            Error,
        >(Error::Io(IoFailure::UnexpectedEof)),
{
    if pos + 4 <= c.len() {
        lemma_le_value(c.subrange(pos as int, pos as int + 4));
    }
    if pos + 8 <= c.len() {
        lemma_le_value(c.subrange(pos as int, pos as int + 8));
    }
    if pos + 4 * count <= c.len() {
        let b = c.subrange(pos as int, (pos + 4 * count) as int);
        let want = Seq::new(
            count,
            |i: int|
                (c[pos + 4 * i] + 0x100 * c[pos + 4 * i + 1] + 0x1_0000 * c[pos + 4 * i + 2]
                    + 0x100_0000 * c[pos + 4 * i + 3]) as u32,
        );
        assert forall|i: int| 0 <= i < count implies codec::word_values(b)[i] == want[i] by {
            lemma_words(Seq::empty(), b, i);
        }
        assert(codec::word_values(b) =~= want);
        if count == 0 {
            assert(b =~= Seq::empty());
        }
    }
}

/// The bytes of a number are its digits to the base 256, lowest first.
pub proof fn lemma_le_digits(v: nat, n: nat)
    ensures
        bytes::le_bytes(v, n).len() == n,
        forall|i: int|
            #![trigger bytes::le_bytes(v, n)[i]]
            0 <= i < n ==> bytes::le_bytes(v, n)[i] == (v as int / power::pow(256, i as nat)) % 256,
    decreases n,
{
    power::lemma_pow0(256);
    if n > 0 {
        let m = (n - 1) as nat;
        let s = bytes::le_bytes(v, n);
        let t = bytes::le_bytes(v / 256, m);
        lemma_le_digits(v / 256, m);
        assert forall|i: int| #![trigger s[i]] 0 <= i < n implies s[i] == (v as int / power::pow(
            256,
            i as nat,
        )) % 256 by {
            if i > 0 {
                let j = (i - 1) as nat;
                assert(s[i] == t[i - 1]);
                reveal(power::pow);
                assert(power::pow(256, i as nat) == 256 * power::pow(256, j));
                power::lemma_pow_positive(256, j);
                div_mod::lemma_div_denominator(v as int, 256, power::pow(256, j));
            }
        }
    }
}

/// The number that bytes stand for has them as its digits.
pub proof fn lemma_le_value_digits(s: Seq<u8>)
    ensures
        bytes::le_value(s) < power::pow(256, s.len()),
        forall|i: int|
            #![trigger s[i]]
            0 <= i < s.len() ==> s[i] == (bytes::le_value(s) as int / power::pow(256, i as nat))
                % 256,
    decreases s.len(),
{
    power::lemma_pow0(256);
    if s.len() > 0 {
        let t = s.drop_first();
        let v = bytes::le_value(s);
        lemma_le_value_digits(t);
        reveal(power::pow);
        assert(power::pow(256, s.len()) == 256 * power::pow(256, t.len()));
        assert forall|i: int| #![trigger s[i]] 0 <= i < s.len() implies s[i] == (v as int
            / power::pow(256, i as nat)) % 256 by {
            if i > 0 {
                let j = (i - 1) as nat;
                assert(s[i] == t[i - 1]);
                assert(power::pow(256, i as nat) == 256 * power::pow(256, j));
                power::lemma_pow_positive(256, j);
                div_mod::lemma_div_denominator(v as int, 256, power::pow(256, j));
            }
        }
    }
}

} // verus!
