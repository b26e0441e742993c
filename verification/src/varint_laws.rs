//! Varints and differences of IDs, digit by digit.

use crate::error::Error;
use crate::varint;
use vstd::arithmetic::div_mod;
use vstd::arithmetic::power;
use vstd::prelude::*;

verus! {

/// A varint holds the digits of a number to the base 128, lowest first, with no
/// digit more than it takes; the top bit says that another byte follows.
pub proof fn lemma_varint_digits(v: nat)
    ensures
        varint::varint(v).len() > 0,
        forall|i: int|
            #![trigger varint::varint(v)[i]]
            0 <= i < varint::varint(v).len() ==> varint::varint(v)[i] == (v as int / power::pow(
                128,
                i as nat,
            )) % 128 + if i + 1 < varint::varint(v).len() {
                128int
            } else {
                0
            },
        v < power::pow(128, varint::varint(v).len()),
        varint::varint(v).len() > 1 ==> v >= power::pow(
            128,
            (varint::varint(v).len() - 1) as nat,
        ),
    decreases v,
{
    let s = varint::varint(v);
    power::lemma_pow0(128);
    power::lemma_pow1(128);
    if v >= 128 {
        let w = v / 128;
        let t = varint::varint(w);
        lemma_varint_digits(w);
        assert(s =~= seq![(v % 128 + 128) as u8] + t);
        assert forall|i: int| #![trigger s[i]] 0 <= i < s.len() implies s[i] == (v as int
            / power::pow(128, i as nat)) % 128 + if i + 1 < s.len() {
            128int
        } else {
            0
        } by {
            if i > 0 {
                let j = (i - 1) as nat;
                assert(s[i] == t[i - 1]);
                reveal(power::pow);
                assert(power::pow(128, i as nat) == 128 * power::pow(128, j));
                power::lemma_pow_positive(128, j);
                div_mod::lemma_div_denominator(v as int, 128, power::pow(128, j));
            }
        }
        reveal(power::pow);
        let n = t.len();
        assert(power::pow(128, n + 1) == 128 * power::pow(128, n));
        assert(s.len() == n + 1);
        if n > 1 {
            assert(power::pow(128, n) == 128 * power::pow(128, (n - 1) as nat));
        }
    }
}

/// Reading goes on while the top bit is set. The value has the digits that were
/// read; more than 64 bits are refused, more than ten bytes are, and so is an end
/// before the last byte.
proof fn lemma_rest(s: Seq<u8>, k: nat, n: nat)
    requires
        k + n <= 9,
        n <= s.len(),
        forall|i: int| 0 <= i < n ==> #[trigger] s[i] >= 128,
    ensures
        n == s.len() ==> varint::varint_rest(s, k) == Err::<(nat, nat), Error>(
            Error::TruncatedVarint,
        ),
        n < s.len() && k + n == 9 && s[n as int] % 128 > 1 ==> varint::varint_rest(s, k) == Err::<
            (nat, nat),
            Error,
        >(Error::VarintOutOfRange),
        n < s.len() && k + n == 9 && s[n as int] >= 128 && s[n as int] % 128 <= 1
            ==> varint::varint_rest(s, k) == Err::<(nat, nat), Error>(Error::VarintTooLong),
        n < s.len() && s[n as int] < 128 && (k + n < 9 || s[n as int] <= 1)
            ==> (varint::varint_rest(s, k) matches Ok((v, len)) && {
            &&& len == n + 1
            &&& v < power::pow(128, n + 1)
            &&& forall|i: int|
                #![trigger s[i]]
                0 <= i <= n ==> (v as int / power::pow(128, i as nat)) % 128 == s[i] % 128
        }),
    decreases n,
{
    power::lemma_pow0(128);
    power::lemma_pow1(128);
    if n > 0 {
        let t = s.drop_first();
        let m = (n - 1) as nat;
        assert(s[0] >= 128);
        assert forall|i: int| 0 <= i < m implies #[trigger] t[i] >= 128 by {
            assert(s[i + 1] >= 128);
        }
        lemma_rest(t, k + 1, m);
        if n < s.len() {
            assert(t[m as int] == s[n as int]);
        }
        if n < s.len() && s[n as int] < 128 && (k + n < 9 || s[n as int] <= 1) {
            let w = varint::varint_rest(t, k + 1)->Ok_0.0;
            let v = varint::varint_rest(s, k)->Ok_0.0;
            assert(v == s[0] as nat % 128 + 128 * w);
            reveal(power::pow);
            assert(power::pow(128, n + 1) == 128 * power::pow(128, n));
            assert forall|i: int| #![trigger s[i]] 0 <= i <= n implies (v as int / power::pow(
                128,
                i as nat,
            )) % 128 == s[i] % 128 by {
                if i > 0 {
                    let j = (i - 1) as nat;
                    assert(t[i - 1] == s[i]);
                    assert(power::pow(128, i as nat) == 128 * power::pow(128, j));
                    power::lemma_pow_positive(128, j);
                    div_mod::lemma_div_denominator(v as int, 128, power::pow(128, j));
                    assert(v as int / 128 == w);
                }
            }
        }
    }
}

/// Decoding a varint: `n` bytes with their top bit set, and what comes behind
/// them.
pub proof fn lemma_decoded(s: Seq<u8>, n: nat)
    requires
        n <= 9,
        n <= s.len(),
        forall|i: int| 0 <= i < n ==> #[trigger] s[i] >= 128,
    ensures
        n == s.len() ==> varint::varint_at(s) == Err::<(nat, nat), Error>(Error::TruncatedVarint),
        n < s.len() && n == 9 && s[9] % 128 > 1 ==> varint::varint_at(s) == Err::<
            (nat, nat),
            Error,
        >(Error::VarintOutOfRange),
        n < s.len() && n == 9 && s[9] >= 128 && s[9] % 128 <= 1 ==> varint::varint_at(s) == Err::<
            (nat, nat),
            Error,
        >(Error::VarintTooLong),
        n < s.len() && s[n as int] < 128 && (n < 9 || s[9] <= 1) ==> (varint::varint_at(
            s,
        ) matches Ok((v, len)) && {
            &&& len == n + 1
            &&& v < power::pow(128, n + 1)
            &&& forall|i: int|
                #![trigger s[i]]
                0 <= i <= n ==> (v as int / power::pow(128, i as nat)) % 128 == s[i] % 128
        }),
{
    lemma_rest(s, 0, n);
}

/// Where a decoding stops that fails: at the end of the bytes if they end too
/// early, else behind the tenth byte.
pub proof fn lemma_failed_at(pos: nat, len: nat)
    ensures
        pos <= len ==> varint::failed_at(Error::TruncatedVarint, pos, len) == len,
        pos > len ==> varint::failed_at(Error::TruncatedVarint, pos, len) == pos,
        varint::failed_at(Error::VarintOutOfRange, pos, len) == pos + 10,
        varint::failed_at(Error::VarintTooLong, pos, len) == pos + 10,
{
}

/// IDs are stored as the varints of their differences from the ID before, the
/// first from `prev`; a difference wraps around at 64 bits.
pub proof fn lemma_differences(prev: int, ids: Seq<i64>)
    ensures
        varint::delta_bytes(prev, ids) == Seq::new(
            ids.len(),
            |i: int|
                varint::varint(
                    ((ids[i] - (if i == 0 {
                        prev
                    } else {
                        ids[i - 1] as int
                    })) % 0x1_0000_0000_0000_0000) as nat,
                ),
        ).flatten(),
    decreases ids.len(),
{
    let nested = Seq::new(
        ids.len(),
        |i: int|
            varint::varint(
                ((ids[i] - (if i == 0 {
                    prev
                } else {
                    ids[i - 1] as int
                })) % 0x1_0000_0000_0000_0000) as nat,
            ),
    );
    if ids.len() > 0 {
        let tail = ids.drop_first();
        let before = ids[0] as int;
        lemma_differences(before, tail);
        let rest = Seq::new(
            tail.len(),
            |i: int|
                varint::varint(
                    ((tail[i] - (if i == 0 {
                        before
                    } else {
                        tail[i - 1] as int
                    })) % 0x1_0000_0000_0000_0000) as nat,
                ),
        );
        assert forall|i: int| 0 <= i < rest.len() implies nested.drop_first()[i] == rest[i] by {
            assert(tail[i] == ids[i + 1]);
            if i > 0 {
                assert(tail[i - 1] == ids[i]);
            }
        }
        assert(nested.drop_first() =~= rest);
        assert(nested.first() == varint::varint(varint::id_delta(prev, ids[0] as int)));
    }
}

/// Decoding IDs goes one by one: each is the one before it and its difference;
/// one past the largest ID is refused, and a varint that cannot be read says why.
pub proof fn lemma_next_id(prev: i64, buf: Seq<u8>, count: nat)
    ensures
        varint::delta_ids(prev as int, buf, 0) == Ok::<Seq<i64>, Error>(Seq::empty()),
        varint::varint_at(buf) matches Err(e) ==> varint::delta_ids(prev as int, buf, count + 1)
            == Err::<Seq<i64>, Error>(e),
        varint::varint_at(buf) matches Ok((delta, n)) ==> prev + delta > i64::MAX
            ==> varint::delta_ids(prev as int, buf, count + 1) == Err::<Seq<i64>, Error>(
            Error::IdsNotMonotonic,
        ),
        varint::varint_at(buf) matches Ok((delta, n)) ==> prev + delta <= i64::MAX ==> {
            let tail = varint::delta_ids(prev + delta, buf.skip(n as int), count);
            &&& tail matches Err(e) ==> varint::delta_ids(prev as int, buf, count + 1) == Err::<
                Seq<i64>,
                Error,
            >(e)
            &&& tail matches Ok(ids) ==> varint::delta_ids(prev as int, buf, count + 1) == Ok::<
                Seq<i64>,
                Error,
            >(seq![(prev + delta) as i64] + ids)
        },
{
    varint::lemma_varint_at_bounds(buf);
    if let Ok((delta, n)) = varint::varint_at(buf) {
        let m: int = 0x1_0000_0000_0000_0000;
        let x: int = prev + delta;
        if x < 0 {
            assert(x % m == x + m) by {
                div_mod::lemma_fundamental_div_mod_converse(x, m, -1, x + m);
            }
        } else if x < m {
            assert(x % m == x);
        } else {
            assert(x % m == x - m) by {
                div_mod::lemma_fundamental_div_mod_converse(x, m, 1, x - m);
            }
        }
    }
}

} // verus!
