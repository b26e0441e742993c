//! What the functions on codes, distances and numbers return, in terms of their
//! arguments.

use crate::byte_laws;
use crate::bytes;
use crate::code_laws;
use crate::codec;
use crate::error::{Error, ErrorKind, HeaderField, IoFailure};
use crate::fastscan;
use crate::float;
use crate::heap;
use crate::layout;
use crate::layout::CodeLayout;
use crate::metric::MetricType;
use crate::read_laws;
use crate::sort;
use crate::stream::{Output, SeekRead, SeekWrite};
use crate::varint;
use crate::varint_laws;
use vstd::arithmetic::power;
use vstd::prelude::*;

verus! {

/// Packing puts byte `p` of vector `g` to its place in its block, and zeros to
/// the places that are left; unpacking takes it from there.
pub proof fn lemma_pack(
    codes: &[u8],
    blocks: &[u8],
    n: usize,
    cs: usize,
    packed: Vec<u8>,
    unpacked: Vec<u8>,
    g: nat,
    p: nat,
)
    requires
        call_ensures(fastscan::pack_codes_block_layout, (codes, n, cs), packed),
        call_ensures(fastscan::unpack_codes_block_layout, (blocks, n, cs), unpacked),
        p < cs,
    ensures
        packed@.len() == ((n as nat + 31) / 32) * cs as nat * 32,
        g < ((n as nat + 31) / 32) * 32 ==> packed@[(((g / 32) * cs as nat + p) * 32 + g
            % 32) as int] == if g < n {
            codes@[(g * cs as nat + p) as int]
        } else {
            0
        },
        g < n ==> unpacked@.len() == n * cs && unpacked@[(g * cs as nat + p) as int] == blocks@[(((g
            / 32) * cs as nat + p) * 32 + g % 32) as int],
{
    if g < ((n as nat + 31) / 32) * 32 {
        code_laws::lemma_packed(codes@, n as nat, cs as nat, g, p);
    }
    if g < n {
        code_laws::lemma_unpacked(blocks@, n as nat, cs as nat, g, p);
    }
}

/// Transposing puts byte `p` of vector `g` behind the bytes before it of all
/// vectors.
pub proof fn lemma_transpose(codes: &[u8], count: usize, cs: usize, out: Vec<u8>, g: nat, p: nat)
    requires
        call_ensures(layout::transpose_codes, (codes, count, cs), out),
        g < count,
        p < cs,
    ensures
        out@.len() == count * cs,
        out@[(p * count as nat + g) as int] == codes@[(g * cs as nat + p) as int],
{
    code_laws::lemma_transposed(codes@, count as nat, cs as nat, g, p);
}

/// Where byte `p` of vector `g` is taken from.
pub proof fn lemma_code_at(
    layout: CodeLayout,
    codes: &[u8],
    count: usize,
    cs: usize,
    g: usize,
    p: usize,
    byte: u8,
)
    requires
        call_ensures(layout::code_at, (layout, codes, count, cs, g, p), byte),
        p < cs,
    ensures
        layout is RowMajor ==> byte == codes@[g * cs + p],
        layout is Transposed ==> byte == codes@[p * count + g],
        layout is Block ==> byte == codes@[((g as int / 32) * cs + p) * 32 + g as int % 32],
{
    code_laws::lemma_code_row(codes@, count as nat, cs as nat, g as nat, p as nat);
}

/// The entries that a vector of four-bit codes adds up: of every byte the lower
/// half names one of sixteen, and the upper half one of the next sixteen.
pub proof fn lemma_lookups_4bit(
    layout: CodeLayout,
    codes: &[u8],
    count: usize,
    cs: usize,
    g: usize,
    out: Vec<usize>,
    p: usize,
    byte: u8,
)
    requires
        call_ensures(layout::lookups_4bit, (layout, codes, count, cs, g), out),
        call_ensures(layout::code_at, (layout, codes, count, cs, g, p), byte),
        p < cs,
    ensures
        out@.len() == 2 * cs,
        out@[2 * p] == 32 * p + byte % 16,
        out@[2 * p + 1] == 32 * p + 16 + byte / 16,
{
    let row = layout::code_row(layout, codes@, count as nat, cs as nat, g as nat);
    let named = out@.map_values(|i: usize| i as int);
    code_laws::lemma_lookups(row, 0, p as int);
    assert(named.len() == out@.len());
    assert(named[2 * p] == out@[2 * p]);
    assert(named[2 * p + 1] == out@[2 * p + 1]);
}

/// The entries that a vector of eight-bit codes adds up: every byte names one of
/// `ksub`.
pub proof fn lemma_lookups_8bit(
    layout: CodeLayout,
    codes: &[u8],
    count: usize,
    m: usize,
    ksub: usize,
    g: usize,
    out: Vec<usize>,
    p: usize,
    byte: u8,
)
    requires
        call_ensures(layout::lookups_8bit, (layout, codes, count, m, ksub, g), out),
        call_ensures(layout::code_at, (layout, codes, count, m, g, p), byte),
        p < m,
    ensures
        out@.len() == m,
        out@[p as int] == p * ksub + byte,
{
    let row = layout::code_row(layout, codes@, count as nat, m as nat, g as nat);
    let named = out@.map_values(|i: usize| i as int);
    code_laws::lemma_lookups(row, ksub as nat, p as int);
    assert(named.len() == out@.len());
    assert(named[p as int] == out@[p as int]);
}

/// A quantized distance is the sum of the entries that the code names, modulo
/// 2^16.
pub proof fn lemma_quantized_distances(
    layout: CodeLayout,
    qtable: &[u8],
    codes: &[u8],
    count: usize,
    cs: usize,
    from: usize,
    out: Vec<u16>,
    i: int,
    named: Vec<usize>,
)
    requires
        call_ensures(fastscan::quantized_distances, (layout, qtable, codes, count, cs, from), out),
        0 <= i < count - from,
        call_ensures(
            layout::lookups_4bit,
            (layout, codes, count, cs, (from + i) as usize),
            named,
        ),
    ensures
        out@.len() == count - from,
        out@[i] == named@.map_values(|l: usize| qtable@[l as int] as int).fold_left(
            0int,
            |a: int, b: int| a + b,
        ) % 0x1_0000,
{
    let row = layout::code_row(layout, codes@, count as nat, cs as nat, (from + i) as nat);
    let lookups = named@.map_values(|l: usize| l as int);
    code_laws::lemma_table_sum(qtable@, lookups);
    assert(lookups.map_values(|l: int| qtable@[l] as int) =~= named@.map_values(
        |l: usize| qtable@[l as int] as int,
    ));
    assert(out@[i] == fastscan::table_sum(qtable@, layout::nibble_lookups(row)) % 0x1_0000);
}

/// How many vectors are measured exactly: two hundred, and in block layout the
/// rest of their last block too, or all if there are no more.
pub proof fn lemma_exact(n: usize, flat: usize, exact: usize)
    requires
        call_ensures(fastscan::flat_end, (n,), flat),
        call_ensures(fastscan::exact_end, (n,), exact),
    ensures
        flat == if n < 200 {
            n
        } else {
            200
        },
        exact == if n < 224 {
            n
        } else {
            224
        },
{
    code_laws::lemma_exact_end(n as nat);
}

/// The order of distances.
pub proof fn lemma_less(a: u32, b: u32, no_number: bool, smaller: bool, place: i64)
    requires
        call_ensures(float::nan, (a,), no_number),
        call_ensures(float::less, (a, b), smaller),
        call_ensures(float::rank_of, (a,), place),
    ensures
        no_number <==> (a / 0x80_0000) % 0x100 == 0xff && a % 0x80_0000 != 0,
        no_number ==> !smaller,
        float::is_nan(b) ==> !smaller,
        !no_number && !float::is_nan(b) ==> {
            &&& a < 0x8000_0000 && b < 0x8000_0000 ==> (smaller <==> a < b)
            &&& a >= 0x8000_0000 && b >= 0x8000_0000 ==> (smaller <==> b < a)
            &&& a >= 0x8000_0000 && b < 0x8000_0000 ==> (smaller <==> !(a == 0x8000_0000 && b
                == 0))
            &&& a < 0x8000_0000 && b >= 0x8000_0000 ==> !smaller
        },
        place == float::rank(a),
{
    float::lemma_order(a, b);
}

/// Sorting keys gives every position once, by ascending key, and of equal keys
/// the earlier first.
pub proof fn lemma_sort_order(keys: &[i64], order: Vec<usize>)
    requires
        call_ensures(sort::sort_order, (keys,), order),
    ensures
        order@.len() == keys@.len(),
        order@.no_duplicates(),
        forall|i: int| 0 <= i < order@.len() ==> #[trigger] order@[i] < keys@.len(),
        forall|i: int, j: int|
            #![trigger order@[i], order@[j]]
            0 <= i < j < order@.len() ==> keys@[order@[i] as int] < keys@[order@[j] as int] || (
            keys@[order@[i] as int] == keys@[order@[j] as int] && order@[i] < order@[j]),
{
    sort::lemma_sorted_order(keys@);
    let all = sort::sorted_order(keys@);
    assert(sort::ints(order@).len() == order@.len());
    assert forall|i: int| 0 <= i < order@.len() implies #[trigger] order@[i] < keys@.len()
        && order@[i] == all[i] by {
        assert(sort::ints(order@)[i] == order@[i]);
    }
    assert forall|i: int, j: int|
        #![trigger order@[i], order@[j]]
        0 <= i < j < order@.len() implies keys@[order@[i] as int] < keys@[order@[j] as int] || (
    keys@[order@[i] as int] == keys@[order@[j] as int] && order@[i] < order@[j]) by {
        assert(order@[i] == all[i] && order@[j] == all[j]);
    }
    assert forall|i: int, j: int| 0 <= i < order@.len() && 0 <= j < order@.len() && i
        != j implies order@[i] != order@[j] by {
        assert(order@[i] == all[i] && order@[j] == all[j]);
    }
}

/// Sorting items keeps every one of them, by ascending distance, and those of one
/// distance in their order.
pub proof fn lemma_sort_items(items: &Vec<(u32, i64)>, sorted: Vec<(u32, i64)>)
    requires
        call_ensures(heap::sort_items, (items,), sorted),
    ensures
        sorted@.len() == items@.len(),
        sorted@.to_multiset() == items@.to_multiset(),
        exists|order: Seq<int>|
            {
                &&& order.len() == items@.len()
                &&& #[trigger] order.no_duplicates()
                &&& forall|i: int|
                    #![trigger order[i]]
                    0 <= i < items@.len() ==> 0 <= order[i] < items@.len() && sorted@[i]
                        == items@[order[i]]
                &&& forall|i: int, j: int|
                    #![trigger order[i], order[j]]
                    0 <= i < j < items@.len() ==> float::rank(items@[order[i]].0) < float::rank(
                        items@[order[j]].0,
                    ) || (float::rank(items@[order[i]].0) == float::rank(items@[order[j]].0)
                        && order[i] < order[j])
            },
{
    heap::lemma_by_distance(items@);
    heap::lemma_by_distance_stable(items@);
}

/// What a heap holds comes out by ascending distance.
pub proof fn lemma_into_sorted(heap: heap::TopKHeap, sorted: Vec<(u32, i64)>)
    requires
        call_ensures(heap::TopKHeap::into_sorted, (heap,), sorted),
    ensures
        sorted@.len() == heap.data@.len(),
        sorted@.to_multiset() == heap.data@.to_multiset(),
        forall|i: int, j: int|
            #![trigger sorted@[i], sorted@[j]]
            0 <= i < j < sorted@.len() ==> float::rank(sorted@[i].0) <= float::rank(sorted@[j].0),
{
    heap::lemma_by_distance(heap.data@);
}

/// A heap takes what it is offered until it is full, and then what is nearer than
/// the farthest item that it holds, which leaves.
pub proof fn lemma_heap_push(
    before: heap::TopKHeap,
    after: heap::TopKHeap,
    dist: u32,
    id: i64,
)
    requires
        exists|h: &mut heap::TopKHeap|
            #[trigger] call_ensures(heap::TopKHeap::push, (h, dist, id), ()) && *h == before
                && *final(h) == after,
        before.data@.len() <= before.k,
        forall|i: int|
            0 <= i < before.data@.len() ==> !float::is_nan((#[trigger] before.data@[i]).0),
        !float::is_nan(dist),
        before.k > 0 && before.data@.len() == before.k ==> forall|c: int|
            #![trigger before.data@[c]]
            1 <= c < before.data@.len() ==> float::rank(before.data@[c].0) <= float::rank(
                before.data@[(c - 1) / 2].0,
            ),
    ensures
        after.k == before.k,
        before.k == 0 ==> after.data@ == before.data@,
        before.data@.len() < before.k ==> after.data@.to_multiset()
            == before.data@.to_multiset().insert((dist, id)),
        before.k > 0 && before.data@.len() == before.k && float::rank(dist) >= float::rank(
            before.data@[0].0,
        ) ==> after.data@ == before.data@,
        before.k > 0 && before.data@.len() == before.k && float::rank(dist) < float::rank(
            before.data@[0].0,
        ) ==> after.data@.to_multiset() == before.data@.to_multiset().remove(
            before.data@[0],
        ).insert((dist, id)),
{
    let k = before.k as nat;
    heap::lemma_push(k, before.data@, (dist, id));
    if before.data@.len() + 1 < k {
        before.data@.to_multiset_ensures();
    }
}

/// A new heap is empty. Items can be sorted if there is one at most, or every
/// distance is a number.
pub proof fn lemma_heap_new(
    k: usize,
    heap: heap::TopKHeap,
    items: &Vec<(u32, i64)>,
    yes: bool,
)
    requires
        call_ensures(heap::TopKHeap::new, (k,), heap),
        call_ensures(heap::can_sort, (items,), yes),
    ensures
        heap.k == k,
        heap.data@.len() == 0,
        yes <==> items@.len() < 2 || forall|i: int|
            0 <= i < items@.len() ==> !float::is_nan((#[trigger] items@[i]).0),
{
}

/// Building a heap keeps every item and puts none below a nearer one; sinking one
/// keeps every item, and those before it in their place.
pub proof fn lemma_build(
    before: Seq<(u32, i64)>,
    built: Seq<(u32, i64)>,
    sunk: Seq<(u32, i64)>,
    start: usize,
)
    requires
        exists|h: &mut Vec<(u32, i64)>|
            #[trigger] call_ensures(heap::build_max_heap, (h,), ()) && h@ == before && final(h)@
                == built,
        exists|h: &mut Vec<(u32, i64)>|
            #[trigger] call_ensures(heap::sift_down, (h, start), ()) && h@ == before && final(h)@
                == sunk,
        start < before.len(),
        forall|i: int| 0 <= i < before.len() ==> !float::is_nan((#[trigger] before[i]).0),
    ensures
        built.len() == before.len(),
        built.to_multiset() == before.to_multiset(),
        forall|c: int|
            #![trigger built[c]]
            1 <= c < built.len() ==> float::rank(built[c].0) <= float::rank(built[(c - 1) / 2].0),
        sunk.len() == before.len(),
        sunk.to_multiset() == before.to_multiset(),
        forall|x: int| 0 <= x < start ==> #[trigger] sunk[x] == before[x],
{
    heap::lemma_built(before, 0);
    heap::lemma_sift_step(before, start as int);
    assert(built == heap::heapified(before, before.len() / 2));
}

/// A metric has its number, and a number its metric.
pub proof fn lemma_metric(metric: MetricType, number: u32, code: u32, found: Option<MetricType>)
    requires
        call_ensures(MetricType::code, (metric,), number),
        call_ensures(MetricType::from_code, (code,), found),
    ensures
        metric is L2 <==> number == 0,
        metric is InnerProduct <==> number == 1,
        metric is Cosine <==> number == 2,
        found == Some(MetricType::L2) <==> code == 0,
        found == Some(MetricType::InnerProduct) <==> code == 1,
        found == Some(MetricType::Cosine) <==> code == 2,
        found is None <==> code > 2,
{
}

/// The class of an error.
pub proof fn lemma_kind(e: &Error, kind: ErrorKind)
    requires
        call_ensures(Error::kind, (e,), kind),
    ensures
        kind is Io <==> e is Io,
        kind is InvalidInput <==> (e is QueryLength || e is ZeroK || e is ZeroNprobe
            || e is ZeroQueries || e is QueryCountOverflow || e is QueriesLength
            || e is VectorLength || e is PartitionOutOfRange),
{
}

/// The bytes of a number are its digits to the base 256, and a number is read
/// back from them.
pub proof fn lemma_bytes(v: u64, n: usize, out: Vec<u8>, s: &[u8], back: u64)
    requires
        call_ensures(bytes::to_le, (v, n), out),
        call_ensures(bytes::from_le, (s,), back),
    ensures
        out@.len() == n,
        forall|i: int|
            #![trigger out@[i]]
            0 <= i < n ==> out@[i] == (v as int / power::pow(256, i as nat)) % 256,
        forall|i: int|
            #![trigger s@[i]]
            0 <= i < s@.len() ==> s@[i] == (back as int / power::pow(256, i as nat)) % 256,
        back < power::pow(256, s@.len()),
{
    byte_laws::lemma_le_digits(v as nat, n as nat);
    byte_laws::lemma_le_value_digits(s@);
}

/// A header field has to be positive, and a section holds 2^30 numbers at most.
pub proof fn lemma_checks(
    val: i32,
    field: HeaderField,
    taken: Result<i32, Error>,
    a: usize,
    b: usize,
    size: Result<usize, Error>,
)
    requires
        call_ensures(codec::validate_positive_i32, (val, field), taken),
        call_ensures(codec::checked_section_size, (a, b), size),
    ensures
        val > 0 ==> taken == Ok::<i32, Error>(val),
        val <= 0 ==> taken == Err::<i32, Error>(Error::NonPositiveField { field, value: val }),
        a * b <= 0x4000_0000 ==> size == Ok::<usize, Error>((a * b) as usize),
        0x4000_0000 < a * b <= usize::MAX ==> size == Err::<usize, Error>(
            Error::SectionTooLarge { size: (a * b) as usize },
        ),
        a * b > usize::MAX ==> size == Err::<usize, Error>(Error::SectionSizeOverflow),
{
    assert(0 <= a * b) by (nonlinear_arith);
    read_laws::lemma_section_size(a as nat, b as nat);
}

/// A varint is appended digit by digit to the base 128, lowest first.
pub proof fn lemma_encode_varint(val: u64, before: Seq<u8>, after: Seq<u8>, n: int)
    requires
        exists|b: &mut Vec<u8>|
            #[trigger] call_ensures(varint::encode_varint, (val, b), ()) && b@ == before
                && final(b)@ == after,
        n == after.len() - before.len(),
    ensures
        n > 0,
        after.take(before.len() as int) == before,
        forall|i: int|
            #![trigger after[before.len() + i]]
            0 <= i < n ==> after[before.len() + i] == (val as int / power::pow(128, i as nat)) % 128
                + if i + 1 < n {
                128int
            } else {
                0
            },
        val < power::pow(128, n as nat),
        n > 1 ==> val >= power::pow(128, (n - 1) as nat),
{
    let s = varint::varint(val as nat);
    varint_laws::lemma_varint_digits(val as nat);
    assert(after == before + s);
    assert(after.take(before.len() as int) =~= before);
    assert forall|i: int| #![trigger after[before.len() + i]] 0 <= i < n implies after[before.len()
        + i] == (val as int / power::pow(128, i as nat)) % 128 + if i + 1 < n {
        128int
    } else {
        0
    } by {
        assert(after[before.len() + i] == s[i]);
    }
}

/// Decoding a varint that starts at `pos` with `n` bytes whose top bit is set:
/// its digits are those bytes and the next, and the position moves behind it.
/// More than ten bytes, more than 64 bits and an early end are refused.
pub proof fn lemma_decode_varint(
    buf: &[u8],
    pos: usize,
    end: usize,
    result: Result<u64, Error>,
    n: nat,
)
    requires
        exists|p: &mut usize|
            #[trigger] call_ensures(varint::decode_varint, (buf, p), result) && *p == pos
                && *final(p) == end,
        n <= 9,
        pos < buf@.len(),
        pos + n <= buf@.len(),
        forall|i: int| 0 <= i < n ==> #[trigger] buf@[pos + i] >= 128,
    ensures
        pos + n == buf@.len() ==> result == Err::<u64, Error>(Error::TruncatedVarint) && end
            == buf@.len(),
        pos + n < buf@.len() && n == 9 && buf@[pos + 9] % 128 > 1 ==> result == Err::<u64, Error>(
            Error::VarintOutOfRange,
        ) && end == pos + 10,
        pos + n < buf@.len() && n == 9 && buf@[pos + 9] >= 128 && buf@[pos + 9] % 128 <= 1
            ==> result == Err::<u64, Error>(Error::VarintTooLong) && end == pos + 10,
        pos + n < buf@.len() && buf@[pos + n] < 128 && (n < 9 || buf@[pos + 9] <= 1) ==> (
        result matches Ok(v) && {
            &&& end == pos + n + 1
            &&& v < power::pow(128, n + 1)
            &&& forall|i: int|
                #![trigger buf@[pos + i]]
                0 <= i <= n ==> (v as int / power::pow(128, i as nat)) % 128 == buf@[pos + i] % 128
        }),
{
    let s = buf@.skip(pos as int);
    assert forall|i: int| 0 <= i < n implies #[trigger] s[i] >= 128 by {
        assert(buf@[pos + i] >= 128);
    }
    varint_laws::lemma_decoded(s, n);
    varint_laws::lemma_failed_at(pos as nat, buf@.len());
    if pos + n < buf@.len() {
        assert(s[n as int] == buf@[pos + n]);
        if result is Ok {
            let v = result->Ok_0;
            assert forall|i: int| #![trigger buf@[pos + i]] 0 <= i <= n && buf@[pos + n] < 128 && (n
                < 9 || buf@[pos + 9] <= 1) implies (v as int / power::pow(128, i as nat)) % 128
                == buf@[pos + i] % 128 by {
                assert(s[i] == buf@[pos + i]);
            }
        }
    }
}

/// Sorted IDs come back from their differences; IDs that go down do not. The
/// first ID stands apart, and the first difference is none.
pub proof fn lemma_ids_come_back(
    ids: &[i64],
    encoded: (i64, Vec<u8>),
    buf: &[u8],
    rest: Seq<u8>,
    count: usize,
    result: Result<Vec<i64>, Error>,
)
    requires
        call_ensures(varint::encode_delta_varint_ids, (ids,), encoded),
        call_ensures(varint::decode_delta_varint_ids, (encoded.0, buf, count), result),
        buf@ == encoded.1@ + rest,
        count == ids@.len(),
    ensures
        ids@.len() > 0 ==> encoded.0 == ids@[0],
        ids@.len() == 0 ==> encoded.0 == 0 && encoded.1@.len() == 0,
        encoded.1@ == Seq::new(
            ids@.len(),
            |i: int|
                varint::varint(
                    ((ids@[i] - (if i == 0 {
                        ids@[0] as int
                    } else {
                        ids@[i - 1] as int
                    })) % 0x1_0000_0000_0000_0000) as nat,
                ),
        ).flatten(),
        (forall|i: int, j: int| 0 <= i <= j < ids@.len() ==> ids@[i] <= ids@[j]) ==> (
        result matches Ok(back) && back@ == ids@),
        !(forall|i: int, j: int| 0 <= i <= j < ids@.len() ==> ids@[i] <= ids@[j]) ==> result
            == Err::<Vec<i64>, Error>(Error::IdsNotMonotonic),
{
    let base = varint::first_id(ids@);
    varint_laws::lemma_differences(base as int, ids@);
    if ids@.len() > 0 {
        assert(Seq::new(
            ids@.len(),
            |i: int|
                varint::varint(
                    ((ids@[i] - (if i == 0 {
                        base as int
                    } else {
                        ids@[i - 1] as int
                    })) % 0x1_0000_0000_0000_0000) as nat,
                ),
        ) =~= Seq::new(
            ids@.len(),
            |i: int|
                varint::varint(
                    ((ids@[i] - (if i == 0 {
                        ids@[0] as int
                    } else {
                        ids@[i - 1] as int
                    })) % 0x1_0000_0000_0000_0000) as nat,
                ),
        ));
    } else {
        assert(Seq::new(
            ids@.len(),
            |i: int|
                varint::varint(
                    ((ids@[i] - (if i == 0 {
                        ids@[0] as int
                    } else {
                        ids@[i - 1] as int
                    })) % 0x1_0000_0000_0000_0000) as nat,
                ),
        ) =~= Seq::empty());
    }
    if varint::nondecreasing(ids@) {
        varint::lemma_delta_ids_roundtrip(base, ids@, rest);
        assert forall|i: int, j: int| 0 <= i <= j < ids@.len() implies ids@[i] <= ids@[j] by {}
    } else {
        varint::lemma_delta_ids_unsorted(base, ids@, rest);
    }
}

/// Decoding goes one ID at a time, whatever the bytes are.
pub proof fn lemma_decode_ids(base: i64, buf: &[u8], count: usize, result: Result<Vec<i64>, Error>)
    requires
        call_ensures(varint::decode_delta_varint_ids, (base, buf, count), result),
    ensures
        count == 0 ==> (result matches Ok(ids) && ids@.len() == 0),
        result matches Ok(ids) ==> ids@.len() == count && forall|i: int, j: int|
            #![trigger ids@[i], ids@[j]]
            0 <= i <= j < ids@.len() ==> base <= ids@[i] <= ids@[j],
        count > 0 ==> (varint::varint_at(buf@) matches Err(e) ==> result == Err::<Vec<i64>, Error>(
            e,
        )),
        count > 0 ==> (varint::varint_at(buf@) matches Ok((delta, n)) ==> base + delta > i64::MAX
            ==> result == Err::<Vec<i64>, Error>(Error::IdsNotMonotonic)),
        count > 0 ==> (varint::varint_at(buf@) matches Ok((delta, n)) ==> (result matches Ok(ids)
            ==> ids@[0] == base + delta && varint::delta_ids(
            base + delta,
            buf@.skip(n as int),
            (count - 1) as nat,
        ) == Ok::<Seq<i64>, Error>(ids@.skip(1)))),
{
    varint::lemma_delta_ids_ordered(base as int, buf@, count as nat);
    if count > 0 {
        varint_laws::lemma_next_id(base, buf@, (count - 1) as nat);
        if let Ok(ids) = result {
            if let Ok((delta, n)) = varint::varint_at(buf@) {
                if base + delta <= i64::MAX {
                    let tail = varint::delta_ids(
                        base + delta,
                        buf@.skip(n as int),
                        (count - 1) as nat,
                    );
                    assert(ids@.skip(1) =~= tail->Ok_0);
                }
            }
        }
    }
}

/// A word that is written stands behind what was written before, lowest byte first.
pub proof fn lemma_write_u32<W: SeekWrite>(before: Output, after: Output, v: u32)
    requires
        exists|o: &mut W|
            #[trigger] call_ensures(codec::write_u32_le::<W>, (o, v), Ok(())) && o.output()
                == before && final(o).output() == after,
    ensures
        after.written.len() == before.written.len() + 4,
        after.written.take(before.written.len() as int) == before.written,
        byte_laws::four(after.written, before.written.len() as int) == v,
{
    byte_laws::lemma_word_bytes(v as int);
    assert(after.written == before.written + bytes::word32(v as int));
    assert(after.written.take(before.written.len() as int) =~= before.written);
}

/// A signed word is written in two's complement.
pub proof fn lemma_write_i32<W: SeekWrite>(before: Output, after: Output, v: i32)
    requires
        exists|o: &mut W|
            #[trigger] call_ensures(codec::write_i32_le::<W>, (o, v), Ok(())) && o.output()
                == before && final(o).output() == after,
    ensures
        after.written.len() == before.written.len() + 4,
        after.written.take(before.written.len() as int) == before.written,
        byte_laws::four(after.written, before.written.len() as int) == v as int % 0x1_0000_0000,
{
    byte_laws::lemma_word_bytes(v as int);
    assert(after.written == before.written + bytes::word32(v as int));
    assert(after.written.take(before.written.len() as int) =~= before.written);
}

/// A signed double word is written in two's complement.
pub proof fn lemma_write_i64<W: SeekWrite>(before: Output, after: Output, v: i64)
    requires
        exists|o: &mut W|
            #[trigger] call_ensures(codec::write_i64_le::<W>, (o, v), Ok(())) && o.output()
                == before && final(o).output() == after,
    ensures
        after.written.len() == before.written.len() + 8,
        after.written.take(before.written.len() as int) == before.written,
        byte_laws::eight(after.written, before.written.len() as int) == v as int
            % 0x1_0000_0000_0000_0000,
{
    byte_laws::lemma_word_bytes(v as int);
    assert(after.written == before.written + bytes::word64(v as int));
    assert(after.written.take(before.written.len() as int) =~= before.written);
}

/// Numbers that are written stand one behind the other, four bytes each.
pub proof fn lemma_write_numbers<W: SeekWrite>(
    before: Output,
    after: Output,
    data: &[u32],
    i: int,
)
    requires
        exists|o: &mut W|
            #[trigger] call_ensures(codec::write_f32_slice::<W>, (o, data), Ok(())) && o.output()
                == before && final(o).output() == after,
    ensures
        after.written.len() == before.written.len() + 4 * data@.len(),
        after.written.take(before.written.len() as int) == before.written,
        0 <= i < data@.len() ==> byte_laws::four(after.written, before.written.len() + 4 * i)
            == data@[i],
{
    byte_laws::lemma_words(data@, Seq::empty(), i);
    assert(after.written == before.written + codec::words(data@));
    assert(after.written.take(before.written.len() as int) =~= before.written);
}

/// A word is read from where the reader stands, which moves behind it; where the
/// file ends before the word does, that is the answer.
pub proof fn lemma_read_u32<R: SeekRead>(
    c: Seq<u8>,
    at: nat,
    end: nat,
    result: Result<u32, Error>,
)
    requires
        exists|r: &mut R|
            #[trigger] call_ensures(codec::read_u32_le::<R>, (r,), result) && r.contents() == c
                && r.cursor() == at && r.reliable() && final(r).cursor() == end,
    ensures
        at + 4 <= c.len() ==> (result matches Ok(v) && v == byte_laws::four(c, at as int)
            && end == at + 4),
        at + 4 > c.len() ==> result == Err::<u32, Error>(Error::Io(IoFailure::UnexpectedEof)),
{
    byte_laws::lemma_read_words(c, at, 0);
}

/// A signed word is read in two's complement.
pub proof fn lemma_read_i32<R: SeekRead>(
    c: Seq<u8>,
    at: nat,
    end: nat,
    result: Result<i32, Error>,
)
    requires
        exists|r: &mut R|
            #[trigger] call_ensures(codec::read_i32_le::<R>, (r,), result) && r.contents() == c
                && r.cursor() == at && r.reliable() && final(r).cursor() == end,
    ensures
        at + 4 <= c.len() ==> (result matches Ok(v) && v == byte_laws::signed_four(c, at as int)
            && end == at + 4),
        at + 4 > c.len() ==> result == Err::<i32, Error>(Error::Io(IoFailure::UnexpectedEof)),
{
    byte_laws::lemma_read_words(c, at, 0);
}

/// A signed double word is read in two's complement.
pub proof fn lemma_read_i64<R: SeekRead>(
    c: Seq<u8>,
    at: nat,
    end: nat,
    result: Result<i64, Error>,
)
    requires
        exists|r: &mut R|
            #[trigger] call_ensures(codec::read_i64_le::<R>, (r,), result) && r.contents() == c
                && r.cursor() == at && r.reliable() && final(r).cursor() == end,
    ensures
        at + 8 <= c.len() ==> (result matches Ok(v) && v == byte_laws::signed_eight(c, at as int)
            && end == at + 8),
        at + 8 > c.len() ==> result == Err::<i64, Error>(Error::Io(IoFailure::UnexpectedEof)),
{
    byte_laws::lemma_read_words(c, at, 0);
}

/// Numbers are read one after the other.
pub proof fn lemma_read_numbers<R: SeekRead>(
    c: Seq<u8>,
    at: nat,
    count: usize,
    result: Result<Vec<u32>, Error>,
    i: int,
)
    requires
        exists|r: &mut R|
            #[trigger] call_ensures(codec::read_f32_vec::<R>, (r, count), result) && r.contents()
                == c && r.cursor() == at && r.reliable(),
    ensures
        at + 4 * count <= c.len() ==> (result matches Ok(v) && v@.len() == count && (0 <= i < count
            ==> v@[i] == byte_laws::four(c, at + 4 * i))),
        count > 0 && at + 4 * count > c.len() ==> result == Err::<Vec<u32>, Error>(
            Error::Io(IoFailure::UnexpectedEof),
        ),
{
    byte_laws::lemma_read_words(c, at, count as nat);
}

} // verus!
