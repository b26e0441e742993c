//! Variable-length numbers, and sorted IDs stored as differences.

use crate::bytes;
use crate::error::Error;
use vstd::prelude::*;

verus! {

/// The bytes of a varint: seven bits per byte, lowest first, the top bit set on
/// every byte but the last.
pub open spec fn varint(v: nat) -> Seq<u8>
    decreases v,
{
    if v < 128 {
        seq![v as u8]
    } else {
        seq![(v % 128 + 128) as u8] + varint(v / 128)
    }
}

/// What the bytes `s` hold of a varint of which `k` bytes were read before:
/// the value of the part in `s` and how many bytes it takes.
///
/// A varint has ten bytes at most, and the tenth carries one bit.
pub open spec fn varint_rest(s: Seq<u8>, k: nat) -> Result<(nat, nat), Error>
    decreases s.len(),
{
    if s.len() == 0 {
        Err(Error::TruncatedVarint)
    } else if k == 9 && s[0] % 128 > 1 {
        Err(Error::VarintOutOfRange)
    } else if s[0] < 128 {
        Ok((s[0] as nat, 1))
    } else if k >= 9 {
        Err(Error::VarintTooLong)
    } else {
        match varint_rest(s.drop_first(), k + 1) {
            Ok((v, n)) => Ok((s[0] as nat % 128 + 128 * v, n + 1)),
            Err(e) => Err(e),
        }
    }
}

/// The varint at the start of `s`: its value and its length.
pub open spec fn varint_at(s: Seq<u8>) -> Result<(nat, nat), Error> {
    varint_rest(s, 0)
}

/// How far a failed decoding got that started at `pos` in `len` bytes.
pub open spec fn failed_at(e: Error, pos: nat, len: nat) -> nat {
    if e != Error::TruncatedVarint {
        pos + 10
    } else if pos < len {
        len
    } else {
        pos
    }
}

/// 128 to the power of `k`.
spec fn pow128(k: nat) -> nat
    decreases k,
{
    if k == 0 {
        1
    } else {
        128 * pow128((k - 1) as nat)
    }
}

/// The values that still fit once `k` bytes were read.
spec fn room(k: nat) -> nat
    decreases 9 - k,
{
    if k >= 9 {
        2
    } else {
        128 * room(k + 1)
    }
}

proof fn lemma_pow128(k: nat)
    requires
        k <= 9,
    ensures
        0 < pow128(k) <= 0x8000_0000_0000_0000,
        k < 9 ==> pow128(k) <= 0x100_0000_0000_0000,
{
    reveal_with_fuel(pow128, 10);
}

proof fn lemma_room()
    ensures
        room(0) == 0x1_0000_0000_0000_0000,
{
    reveal_with_fuel(room, 10);
}

/// A varint has between one and ten bytes, if its value fits in 64 bits.
pub proof fn lemma_varint_len(v: nat)
    requires
        v < 0x1_0000_0000_0000_0000,
    ensures
        1 <= varint(v).len() <= 10,
{
    lemma_room();
    lemma_varint_len_from(v, 0);
}

proof fn lemma_varint_len_from(v: nat, k: nat)
    requires
        k <= 9,
        v < room(k),
    ensures
        1 <= varint(v).len() <= 10 - k,
    decreases v,
{
    if v >= 128 {
        lemma_varint_len_from(v / 128, k + 1);
    }
}

/// Decoding what was encoded gives the value back, whatever follows it.
pub proof fn lemma_varint_roundtrip(v: nat, rest: Seq<u8>)
    requires
        v < 0x1_0000_0000_0000_0000,
    ensures
        varint_at(varint(v) + rest) == Ok::<(nat, nat), Error>((v, varint(v).len())),
{
    lemma_room();
    lemma_varint_roundtrip_from(v, rest, 0);
}

proof fn lemma_varint_roundtrip_from(v: nat, rest: Seq<u8>, k: nat)
    requires
        k <= 9,
        v < room(k),
    ensures
        varint_rest(varint(v) + rest, k) == Ok::<(nat, nat), Error>((v, varint(v).len())),
    decreases v,
{
    if v >= 128 {
        lemma_varint_roundtrip_from(v / 128, rest, k + 1);
        assert((varint(v) + rest).drop_first() =~= varint(v / 128) + rest);
    }
}

/// A decoded varint takes at least one of the bytes that are there, and its
/// value fits in 64 bits.
pub proof fn lemma_varint_at_bounds(s: Seq<u8>)
    ensures
        varint_at(s) matches Ok((v, n)) ==> 1 <= n <= s.len() && v < 0x1_0000_0000_0000_0000,
{
    lemma_room();
    lemma_varint_rest_bounds(s, 0);
}

proof fn lemma_varint_rest_bounds(s: Seq<u8>, k: nat)
    requires
        k <= 9,
    ensures
        varint_rest(s, k) matches Ok((v, n)) ==> 1 <= n <= s.len() && v < room(k),
    decreases s.len(),
{
    lemma_room_min(k);
    if s.len() > 0 && s[0] >= 128 && k < 9 {
        lemma_varint_rest_bounds(s.drop_first(), k + 1);
    }
}

proof fn lemma_room_min(k: nat)
    requires
        k <= 9,
    ensures
        k < 9 ==> room(k) >= 256,
        room(k) >= 2,
    decreases 9 - k,
{
    if k < 9 {
        lemma_room_min(k + 1);
    }
}

/// Appends `val` to `buf` as a varint.
pub fn encode_varint(val: u64, buf: &mut Vec<u8>)
    ensures
        final(buf)@ == old(buf)@ + varint(val as nat),
{
    let mut rest: u64 = val;
    while rest >= 0x80
        invariant
            buf@ + varint(rest as nat) == old(buf)@ + varint(val as nat),
        decreases rest,
    {
        proof {
            assert(buf@.push((rest % 128 + 128) as u8) + varint((rest / 128) as nat) =~= buf@ + varint(
                rest as nat,
            ));
        }
        buf.push((rest % 128 + 128) as u8);
        rest = rest / 128;
    }
    proof {
        assert(buf@.push(rest as u8) =~= buf@ + varint(rest as nat));
    }
    buf.push(rest as u8);
}

/// The result of a decoding of which `k` bytes with the value `val` are read.
spec fn resumed(r: Result<(nat, nat), Error>, val: nat, k: nat) -> Result<(nat, nat), Error> {
    match r {
        Ok((v, n)) => Ok((val + pow128(k) * v, k + n)),
        Err(e) => Err(e),
    }
}

/// Decodes the varint at `pos` and moves `pos` behind it.
pub fn decode_varint(buf: &[u8], pos: &mut usize) -> (result: Result<u64, Error>)
    ensures
        match result {
            Ok(val) => {
                &&& *old(pos) < *final(pos) <= buf@.len()
                &&& varint_at(buf@.skip(*old(pos) as int)) == Ok::<(nat, nat), Error>(
                    (val as nat, (*final(pos) - *old(pos)) as nat),
                )
            },
            Err(e) => {
                &&& *old(pos) < buf@.len() ==> varint_at(buf@.skip(*old(pos) as int)) == Err::<
                    (nat, nat),
                    Error,
                >(e)
                &&& *old(pos) >= buf@.len() ==> e == Error::TruncatedVarint
                &&& *final(pos) == failed_at(e, *old(pos) as nat, buf@.len())
            },
        },
{
    let start: usize = *pos;
    let ghost s = buf@.skip(start as int);
    let mut val: u64 = 0;
    let mut scale: u64 = 1;
    let mut k: usize = 0;
    assert(buf@.skip(start + k) =~= s);
    loop
        invariant
            k <= 9,
            *pos == start + k,
            start == *old(pos),
            k > 0 ==> *pos <= buf@.len(),
            s == buf@.skip(start as int),
            scale == pow128(k as nat),
            val < scale,
            start <= buf@.len() ==> varint_at(s) == resumed(
                varint_rest(buf@.skip(start + k), k as nat),
                val as nat,
                k as nat,
            ),
        decreases 10 - k,
    {
        if *pos >= buf.len() {
            return Err(Error::TruncatedVarint);
        }
        let ghost tail = buf@.skip(start + k);
        assert(tail.drop_first() =~= buf@.skip(start + k + 1));
        let b: u8 = buf[*pos];
        *pos = *pos + 1;
        let payload: u64 = (b % 128) as u64;
        if k == 9 && payload > 1 {
            return Err(Error::VarintOutOfRange);
        }
        proof {
            lemma_pow128(k as nat);
            assert(payload * scale <= 127 * scale) by (nonlinear_arith)
                requires
                    payload <= 127,
            ;
            assert(payload <= 1 ==> payload * scale <= scale) by (nonlinear_arith);
            assert(payload * scale == pow128(k as nat) * payload) by (nonlinear_arith)
                requires
                    scale == pow128(k as nat),
            ;
        }
        val = val + payload * scale;
        if b < 128 {
            return Ok(val);
        }
        if k >= 9 {
            return Err(Error::VarintTooLong);
        }
        proof {
            if let Ok((v, n)) = varint_rest(buf@.skip(start + k + 1), (k + 1) as nat) {
                assert(pow128(k as nat) * (payload as nat + 128 * v) == pow128(k as nat) * payload
                    + pow128((k + 1) as nat) * v) by (nonlinear_arith)
                    requires
                        pow128((k + 1) as nat) == 128 * pow128(k as nat),
                ;
            }
        }
        scale = scale * 128;
        k = k + 1;
    }
}

/// The difference of two IDs as a 64-bit number that wraps around.
pub open spec fn id_delta(prev: int, id: int) -> nat {
    ((id - prev) % 0x1_0000_0000_0000_0000) as nat
}

/// The ID that lies `delta` behind `prev`, wrapping around.
pub open spec fn id_after(prev: int, delta: nat) -> int {
    bytes::signed64(((prev + delta) % 0x1_0000_0000_0000_0000) as nat)
}

/// The bytes of `ids`, each stored as its difference from the one before and
/// the first as its difference from `prev`.
pub open spec fn delta_bytes(prev: int, ids: Seq<i64>) -> Seq<u8>
    decreases ids.len(),
{
    if ids.len() == 0 {
        Seq::empty()
    } else {
        varint(id_delta(prev, ids[0] as int)) + delta_bytes(ids[0] as int, ids.drop_first())
    }
}

/// An ID takes ten bytes at most.
pub proof fn lemma_delta_bytes_len(prev: int, ids: Seq<i64>)
    ensures
        delta_bytes(prev, ids).len() <= 10 * ids.len(),
    decreases ids.len(),
{
    if ids.len() > 0 {
        lemma_varint_len(id_delta(prev, ids[0] as int));
        lemma_delta_bytes_len(ids[0] as int, ids.drop_first());
    }
}

/// The first of `ids`, or 0.
pub open spec fn first_id(ids: Seq<i64>) -> i64 {
    if ids.len() == 0 {
        0
    } else {
        ids[0]
    }
}

/// The `count` IDs that the differences in `buf` give, starting from `prev`.
pub open spec fn delta_ids(prev: int, buf: Seq<u8>, count: nat) -> Result<Seq<i64>, Error>
    decreases count,
{
    if count == 0 {
        Ok(Seq::empty())
    } else {
        match varint_at(buf) {
            Err(e) => Err(e),
            Ok((delta, n)) => {
                let id = id_after(prev, delta);
                if id < prev {
                    Err(Error::IdsNotMonotonic)
                } else {
                    match delta_ids(id, buf.skip(n as int), (count - 1) as nat) {
                        Err(e) => Err(e),
                        Ok(rest) => Ok(seq![id as i64] + rest),
                    }
                }
            },
        }
    }
}

/// No ID is smaller than the one before it.
pub open spec fn nondecreasing(ids: Seq<i64>) -> bool {
    forall|i: int, j: int| 0 <= i <= j < ids.len() ==> ids[i] <= ids[j]
}

/// An ID is found again from its difference, however far apart the two are.
pub proof fn lemma_id_delta_roundtrip(prev: i64, id: i64)
    ensures
        id_after(prev as int, id_delta(prev as int, id as int)) == id,
{
    let m: int = 0x1_0000_0000_0000_0000;
    let d: int = id - prev;
    assert((prev + d % m) % m == (prev + d) % m) by {
        vstd::arithmetic::div_mod::lemma_add_mod_noop_right(prev as int, d, m);
    }
}

/// Sorted IDs come back from their encoding, whatever follows it.
pub proof fn lemma_delta_ids_roundtrip(prev: i64, ids: Seq<i64>, rest: Seq<u8>)
    requires
        nondecreasing(ids),
        ids.len() > 0 ==> prev <= ids[0],
    ensures
        delta_ids(prev as int, delta_bytes(prev as int, ids) + rest, ids.len()) == Ok::<
            Seq<i64>,
            Error,
        >(ids),
    decreases ids.len(),
{
    if ids.len() > 0 {
        let tail = ids.drop_first();
        let delta = id_delta(prev as int, ids[0] as int);
        let after = delta_bytes(ids[0] as int, tail) + rest;
        let all = delta_bytes(prev as int, ids) + rest;
        assert(all =~= varint(delta) + after);
        lemma_varint_roundtrip(delta, after);
        assert(all.skip(varint(delta).len() as int) =~= after);
        lemma_id_delta_roundtrip(prev, ids[0]);
        lemma_delta_ids_roundtrip(ids[0], tail, rest);
        assert(seq![ids[0]] + tail =~= ids);
    } else {
        assert(ids =~= Seq::<i64>::empty());
    }
}

/// IDs that are out of order are refused when their encoding is read.
pub proof fn lemma_delta_ids_unsorted(prev: i64, ids: Seq<i64>, rest: Seq<u8>)
    requires
        !(nondecreasing(ids) && (ids.len() > 0 ==> prev <= ids[0])),
    ensures
        delta_ids(prev as int, delta_bytes(prev as int, ids) + rest, ids.len()) == Err::<
            Seq<i64>,
            Error,
        >(Error::IdsNotMonotonic),
    decreases ids.len(),
{
    if ids.len() > 0 {
        let tail = ids.drop_first();
        let delta = id_delta(prev as int, ids[0] as int);
        let after = delta_bytes(ids[0] as int, tail) + rest;
        let all = delta_bytes(prev as int, ids) + rest;
        assert(all =~= varint(delta) + after);
        lemma_varint_roundtrip(delta, after);
        assert(all.skip(varint(delta).len() as int) =~= after);
        lemma_id_delta_roundtrip(prev, ids[0]);
        if prev <= ids[0] {
            if nondecreasing(tail) && (tail.len() > 0 ==> ids[0] <= tail[0]) {
                assert forall|i: int, j: int| 0 <= i <= j < ids.len() implies ids[i] <= ids[j] by {
                    if i == 0 && j > 0 {
                        assert(tail[0] <= tail[j - 1]);
                    } else if i > 0 {
                        assert(tail[i - 1] <= tail[j - 1]);
                    }
                }
            }
            lemma_delta_ids_unsorted(ids[0], tail, rest);
        }
    }
}

/// What can be wrong with encoded IDs: a varint among them, or their order.
pub proof fn lemma_delta_ids_errors(prev: int, buf: Seq<u8>, count: nat)
    ensures
        delta_ids(prev, buf, count) matches Err(e) ==> e == Error::TruncatedVarint || e
            == Error::VarintOutOfRange || e == Error::VarintTooLong || e == Error::IdsNotMonotonic,
    decreases count,
{
    if count > 0 {
        lemma_varint_errors(buf, 0);
        if let Ok((delta, n)) = varint_at(buf) {
            lemma_delta_ids_errors(id_after(prev, delta), buf.skip(n as int), (count - 1) as nat);
        }
    }
}

proof fn lemma_varint_errors(s: Seq<u8>, k: nat)
    ensures
        varint_rest(s, k) matches Err(e) ==> e == Error::TruncatedVarint || e
            == Error::VarintOutOfRange || e == Error::VarintTooLong,
    decreases s.len(),
{
    if s.len() > 0 {
        lemma_varint_errors(s.drop_first(), k + 1);
    }
}

/// Whatever the bytes are, the IDs that are read from them are in order, and
/// as many as were asked for.
pub proof fn lemma_delta_ids_ordered(prev: int, buf: Seq<u8>, count: nat)
    ensures
        delta_ids(prev, buf, count) matches Ok(ids) ==> {
            &&& ids.len() == count
            &&& nondecreasing(ids)
            &&& forall|i: int| 0 <= i < ids.len() ==> prev <= ids[i]
        },
    decreases count,
{
    if count > 0 {
        if let Ok((delta, n)) = varint_at(buf) {
            let id = id_after(prev, delta);
            lemma_delta_ids_ordered(id, buf.skip(n as int), (count - 1) as nat);
        }
    }
}

proof fn lemma_delta_bytes_push(prev: int, ids: Seq<i64>, id: i64)
    ensures
        delta_bytes(prev, ids.push(id)) == delta_bytes(prev, ids) + varint(
            id_delta(
                if ids.len() == 0 {
                    prev
                } else {
                    ids.last() as int
                },
                id as int,
            ),
        ),
    decreases ids.len(),
{
    if ids.len() == 0 {
        assert(ids.push(id).drop_first() =~= Seq::<i64>::empty());
        assert(delta_bytes(id as int, Seq::<i64>::empty()) =~= Seq::<u8>::empty());
        assert(delta_bytes(prev, ids.push(id)) =~= varint(id_delta(prev, id as int)));
        assert(delta_bytes(prev, ids) + varint(id_delta(prev, id as int)) =~= varint(
            id_delta(prev, id as int),
        ));
    } else {
        lemma_delta_bytes_push(ids[0] as int, ids.drop_first(), id);
        assert(ids.push(id).drop_first() =~= ids.drop_first().push(id));
        let last: int = ids.last() as int;
        assert(delta_bytes(prev, ids.push(id)) =~= delta_bytes(prev, ids) + varint(
            id_delta(last, id as int),
        ));
    }
}

/// Encodes IDs as differences. Returns the first ID, from which the decoding
/// starts, and the bytes.
pub fn encode_delta_varint_ids(ids: &[i64]) -> (result: (i64, Vec<u8>))
    ensures
        result.0 == first_id(ids@),
        result.1@ == delta_bytes(first_id(ids@) as int, ids@),
{
    let mut buf: Vec<u8> = Vec::new();
    if ids.len() == 0 {
        return (0, buf);
    }
    let base: i64 = ids[0];
    let mut prev: i64 = base;
    let mut i: usize = 0;
    while i < ids.len()
        invariant
            i <= ids@.len(),
            ids@.len() > 0,
            base == ids@[0],
            prev == if i == 0 {
                base
            } else {
                ids@[i - 1]
            },
            buf@ == delta_bytes(base as int, ids@.take(i as int)),
        decreases ids@.len() - i,
    {
        let id: i64 = ids[i];
        let delta: u64 = (id as u64).wrapping_sub(prev as u64);
        proof {
            bytes::lemma_cast64(id);
            bytes::lemma_cast64(prev);
            assert(delta == id_delta(prev as int, id as int));
            lemma_delta_bytes_push(base as int, ids@.take(i as int), id);
            assert(ids@.take(i as int).push(id) =~= ids@.take(i + 1));
        }
        encode_varint(delta, &mut buf);
        prev = id;
        i = i + 1;
    }
    assert(ids@.take(i as int) =~= ids@);
    (base, buf)
}

/// A decoding of which the IDs `done` are there already.
spec fn prepended(done: Seq<i64>, r: Result<Seq<i64>, Error>) -> Result<Seq<i64>, Error> {
    match r {
        Ok(rest) => Ok(done + rest),
        Err(e) => Err(e),
    }
}

/// What a decoding looks like from outside.
pub open spec fn ids_view(r: Result<Vec<i64>, Error>) -> Result<Seq<i64>, Error> {
    match r {
        Ok(ids) => Ok(ids@),
        Err(e) => Err(e),
    }
}

/// Decodes `count` IDs from their differences and refuses a sequence that
/// goes down.
pub fn decode_delta_varint_ids(base: i64, buf: &[u8], count: usize) -> (result: Result<
    Vec<i64>,
    Error,
>)
    ensures
        ids_view(result) == delta_ids(base as int, buf@, count as nat),
{
    let mut ids: Vec<i64> = Vec::new();
    let mut pos: usize = 0;
    let mut current: u64 = base as u64;
    let mut prev: i64 = base;
    let mut i: usize = 0;
    proof {
        bytes::lemma_cast64(base);
        assert(buf@.skip(0) =~= buf@);
        if let Ok(rest) = delta_ids(base as int, buf@, count as nat) {
            assert(ids@ + rest =~= rest);
        }
    }
    while i < count
        invariant
            i <= count,
            pos <= buf@.len(),
            current == (prev as int) % 0x1_0000_0000_0000_0000,
            delta_ids(base as int, buf@, count as nat) == prepended(
                ids@,
                delta_ids(prev as int, buf@.skip(pos as int), (count - i) as nat),
            ),
        decreases count - i,
    {
        let ghost at: int = pos as int;
        let delta: u64 = match decode_varint(buf, &mut pos) {
            Ok(delta) => delta,
            Err(e) => {
                assert(at >= buf@.len() ==> buf@.skip(at).len() == 0);
                return Err(e);
            },
        };
        let ghost before = current;
        current = current.wrapping_add(delta);
        let id: i64 = current as i64;
        proof {
            let m: int = 0x1_0000_0000_0000_0000;
            bytes::lemma_cast_signed64(current);
            bytes::lemma_cast64(id);
            assert(current == (before + delta) % m);
            assert(((prev as int) % m + delta) % m == (prev + delta) % m) by {
                vstd::arithmetic::div_mod::lemma_add_mod_noop_right(delta as int, prev as int, m);
            }
            assert(id == id_after(prev as int, delta as nat));
            assert(buf@.skip(at).skip(pos - at) =~= buf@.skip(pos as int));
        }
        if id < prev {
            return Err(Error::IdsNotMonotonic);
        }
        proof {
            if let Ok(rest) = delta_ids(id as int, buf@.skip(pos as int), (count - i - 1) as nat) {
                assert(ids@ + (seq![id] + rest) =~= ids@.push(id) + rest);
            }
        }
        prev = id;
        ids.push(id);
        i = i + 1;
    }
    assert(ids@ + Seq::<i64>::empty() =~= ids@);
    Ok(ids)
}

} // verus!
