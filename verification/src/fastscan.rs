//! Block layout for four-bit codes and the integer part of its scan.
//!
//! A block holds 32 vectors. Its bytes are grouped by position: 32 first bytes,
//! 32 second bytes, and so on. The last block is filled up with zeros.

use crate::layout;
use crate::layout::CodeLayout;
use vstd::prelude::*;

verus! {

/// Vectors per block.
pub const BBS: usize = 32;

/// Up to this many vectors are measured exactly, to calibrate the scan.
pub const FLAT_NUM: usize = 200;

/// How many blocks `n` vectors take.
pub open spec fn block_count(n: nat) -> nat {
    (n + 31) / 32
}

/// Where byte `p` of vector `g` lies in the block layout.
pub open spec fn block_index(g: nat, p: nat, cs: nat) -> nat {
    ((g / 32) * cs + p) * 32 + g % 32
}

/// The byte at `j` of the block layout of `codes`.
pub open spec fn packed_byte(codes: Seq<u8>, n: nat, cs: nat, j: int) -> u8 {
    let g = ((j / 32) / cs as int) * 32 + j % 32;
    if g < n {
        codes[g * cs + (j / 32) % cs as int]
    } else {
        0
    }
}

/// `n` vectors of `cs` row-major bytes in block layout.
pub open spec fn packed(codes: Seq<u8>, n: nat, cs: nat) -> Seq<u8> {
    Seq::new(block_count(n) * cs * 32, |j: int| packed_byte(codes, n, cs, j))
}

/// `n` vectors of `cs` bytes in block layout, back in row-major order.
pub open spec fn unpacked(blocks: Seq<u8>, n: nat, cs: nat) -> Seq<u8> {
    Seq::new(
        n * cs,
        |j: int| blocks[block_index((j / cs as int) as nat, (j % cs as int) as nat, cs) as int],
    )
}

/// A place in the block layout names its block, byte and vector.
pub proof fn lemma_block_index(g: nat, p: nat, cs: nat, n: nat)
    requires
        p < cs,
        g < block_count(n) * 32,
    ensures
        (block_index(g, p, cs) as int / 32) / cs as int == g / 32,
        (block_index(g, p, cs) as int / 32) % cs as int == p,
        block_index(g, p, cs) % 32 == g % 32,
        block_index(g, p, cs) < block_count(n) * cs * 32,
{
    let q: int = ((g / 32) * cs + p) as int;
    assert(block_index(g, p, cs) as int == q * 32 + g % 32);
    assert((q * 32 + g % 32) / 32 == q);
    vstd::arithmetic::div_mod::lemma_fundamental_div_mod_converse(
        q,
        cs as int,
        (g / 32) as int,
        p as int,
    );
    let b: nat = block_count(n);
    assert(g / 32 < b);
    assert(q < b * cs) by (nonlinear_arith)
        requires
            q == (g / 32) * cs + p,
            g / 32 + 1 <= b,
            p < cs,
    ;
    assert(b * cs * 32 == (b * cs) * 32);
}

/// Unpacking what was packed gives the codes back.
pub proof fn lemma_unpack_pack(codes: Seq<u8>, n: nat, cs: nat)
    requires
        n * cs <= codes.len(),
    ensures
        unpacked(packed(codes, n, cs), n, cs) == codes.take((n * cs) as int),
{
    let blocks = packed(codes, n, cs);
    assert forall|j: int| 0 <= j < n * cs implies unpacked(blocks, n, cs)[j] == codes[j] by {
        lemma_row_split(j, n, cs);
        let g: nat = (j / cs as int) as nat;
        let p: nat = (j % cs as int) as nat;
        lemma_block_index(g, p, cs, n);
    }
    assert(unpacked(blocks, n, cs) =~= codes.take((n * cs) as int));
}

/// Packing what was unpacked gives the blocks back, if they are as long as `n`
/// vectors take and padded with zeros.
pub proof fn lemma_pack_unpack(blocks: Seq<u8>, n: nat, cs: nat)
    requires
        blocks.len() == block_count(n) * cs * 32,
        forall|g: nat, p: nat|
            n <= g < block_count(n) * 32 && p < cs ==> blocks[#[trigger] block_index(
                g,
                p,
                cs,
            ) as int] == 0,
    ensures
        packed(unpacked(blocks, n, cs), n, cs) == blocks,
{
    let codes = unpacked(blocks, n, cs);
    let b: nat = block_count(n);
    assert forall|j: int| 0 <= j < blocks.len() implies packed_byte(codes, n, cs, j) == blocks[j] by {
        assert(b * cs * 32 == (b * cs) * 32);
        let q: int = j / 32;
        assert(0 <= q < b * cs);
        assert(cs > 0) by (nonlinear_arith)
            requires
                0 <= q < b * cs,
        ;
        lemma_row_split(q, b, cs);
        let g: nat = ((q / cs as int) * 32 + j % 32) as nat;
        let p: nat = (q % cs as int) as nat;
        assert(g / 32 == q / cs as int);
        assert(g % 32 == j % 32);
        assert((q / cs as int) * cs + p == q);
        assert(block_index(g, p, cs) == j);
        if g < n {
            let i: int = (g * cs + p) as int;
            vstd::arithmetic::div_mod::lemma_fundamental_div_mod_converse(
                i,
                cs as int,
                g as int,
                p as int,
            );
            assert(0 <= i < n * cs) by (nonlinear_arith)
                requires
                    g < n,
                    p < cs,
                    i == g * cs + p,
            ;
        } else {
            assert(g < b * 32);
        }
    }
    assert(packed(codes, n, cs) =~= blocks);
}

/// Every vector has the same bytes in both layouts.
pub proof fn lemma_packed_row(codes: Seq<u8>, n: nat, cs: nat, g: nat)
    requires
        g < n,
        n * cs <= codes.len(),
    ensures
        layout::code_row(CodeLayout::Block, packed(codes, n, cs), n, cs, g) == layout::code_row(
            CodeLayout::RowMajor,
            codes,
            n,
            cs,
            g,
        ),
{
    let blocks = packed(codes, n, cs);
    assert forall|p: int| 0 <= p < cs implies #[trigger] blocks[block_index(g, p as nat, cs) as int]
        == codes[g * cs + p] by {
        lemma_block_index(g, p as nat, cs, n);
    }
    assert(layout::code_row(CodeLayout::Block, blocks, n, cs, g) =~= layout::code_row(
        CodeLayout::RowMajor,
        codes,
        n,
        cs,
        g,
    ));
}

proof fn lemma_row_split(j: int, n: nat, cs: nat)
    requires
        0 <= j < n * cs,
    ensures
        cs > 0,
        0 <= j / cs as int,
        j / (cs as int) < n,
        0 <= j % (cs as int) < cs,
        j == (j / cs as int) * cs + j % cs as int,
{
    assert(cs > 0) by (nonlinear_arith)
        requires
            0 <= j < n * cs,
    ;
    vstd::arithmetic::div_mod::lemma_fundamental_div_mod(j, cs as int);
    let g: int = j / cs as int;
    let p: int = j % cs as int;
    assert(cs * g == g * cs) by (nonlinear_arith);
    assert(0 <= g && g < n) by (nonlinear_arith)
        requires
            0 <= j < n * cs,
            j == g * cs + p,
            0 <= p < cs,
    ;
}

/// Packs row-major codes into blocks of 32 vectors, the last of them filled up
/// with zeros.
pub fn pack_codes_block_layout(codes: &[u8], n: usize, cs: usize) -> (out: Vec<u8>)
    requires
        n * cs <= codes@.len(),
        block_count(n as nat) * cs * 32 <= usize::MAX,
    ensures
        out@ == packed(codes@, n as nat, cs as nat),
{
    let num_blocks: usize = n / 32 + if n % 32 == 0 {
        0
    } else {
        1
    };
    assert(num_blocks == block_count(n as nat));
    let total: usize = codes.len();
    let mut out: Vec<u8> = Vec::new();
    let mut block: usize = 0;
    assert(0 * cs == 0);
    while block < num_blocks
        invariant
            block <= num_blocks,
            num_blocks == block_count(n as nat),
            n * cs <= total,
                total == codes@.len(),
            out@.len() == (block * cs) * 32,
            forall|j: int|
                0 <= j < out@.len() ==> out@[j] == packed_byte(codes@, n as nat, cs as nat, j),
        decreases num_blocks - block,
    {
        let mut pair: usize = 0;
        while pair < cs
            invariant
                block < num_blocks,
                num_blocks == block_count(n as nat),
                pair <= cs,
                n * cs <= total,
                total == codes@.len(),
                out@.len() == (block * cs + pair) * 32,
                forall|j: int|
                    0 <= j < out@.len() ==> out@[j] == packed_byte(codes@, n as nat, cs as nat, j),
            decreases cs - pair,
        {
            let mut v: usize = 0;
            while v < BBS
                invariant
                    block < num_blocks,
                    num_blocks == block_count(n as nat),
                    pair < cs,
                    v <= 32,
                    n * cs <= total,
                total == codes@.len(),
                    out@.len() == (block * cs + pair) * 32 + v,
                    forall|j: int|
                        0 <= j < out@.len() ==> out@[j] == packed_byte(
                            codes@,
                            n as nat,
                            cs as nat,
                            j,
                        ),
                decreases 32 - v,
            {
                let mut byte: u8 = 0;
                proof {
                    let g: nat = (block * 32 + v) as nat;
                    lemma_block_index(g, pair as nat, cs as nat, n as nat);
                    assert(block_index(g, pair as nat, cs as nat) == out@.len());
                }
                if block < n / 32 || v < n % 32 {
                    let g: usize = block * 32 + v;
                    proof {
                        layout::lemma_code_index_bound(
                            CodeLayout::RowMajor,
                            n as nat,
                            cs as nat,
                            g as nat,
                            pair as nat,
                        );
                        assert(g * cs >= 0) by (nonlinear_arith);
                    }
                    byte = codes[g * cs + pair];
                }
                out.push(byte);
                v = v + 1;
            }
            pair = pair + 1;
        }
        assert((block + 1) * cs == block * cs + cs) by (nonlinear_arith);
        block = block + 1;
    }
    assert(out@ =~= packed(codes@, n as nat, cs as nat));
    out
}

/// Brings codes in block layout back into row-major order.
pub fn unpack_codes_block_layout(blocks: &[u8], n: usize, cs: usize) -> (out: Vec<u8>)
    requires
        n * cs <= usize::MAX,
        layout::covers(CodeLayout::Block, blocks@.len(), n as nat, cs as nat),
    ensures
        out@ == unpacked(blocks@, n as nat, cs as nat),
{
    let mut out: Vec<u8> = Vec::new();
    let mut g: usize = 0;
    assert(0 * cs == 0);
    while g < n
        invariant
            g <= n,
            layout::covers(CodeLayout::Block, blocks@.len(), n as nat, cs as nat),
            out@.len() == g * cs,
            forall|j: int|
                0 <= j < out@.len() ==> out@[j] == blocks@[block_index(
                    (j / cs as int) as nat,
                    (j % cs as int) as nat,
                    cs as nat,
                ) as int],
        decreases n - g,
    {
        let mut p: usize = 0;
        while p < cs
            invariant
                g < n,
                p <= cs,
                layout::covers(CodeLayout::Block, blocks@.len(), n as nat, cs as nat),
                out@.len() == g * cs + p,
                forall|j: int|
                    0 <= j < out@.len() ==> out@[j] == blocks@[block_index(
                        (j / cs as int) as nat,
                        (j % cs as int) as nat,
                        cs as nat,
                    ) as int],
            decreases cs - p,
        {
            proof {
                vstd::arithmetic::div_mod::lemma_fundamental_div_mod_converse(
                    g * cs + p,
                    cs as int,
                    g as int,
                    p as int,
                );
            }
            out.push(layout::code_at(CodeLayout::Block, blocks, n, cs, g, p));
            p = p + 1;
        }
        assert((g + 1) * cs == g * cs + cs) by (nonlinear_arith);
        g = g + 1;
    }
    assert(out@ =~= unpacked(blocks@, n as nat, cs as nat));
    out
}

/// How many vectors of a transposed four-bit list are measured exactly. The
/// others are estimated from a table of bytes.
pub fn flat_end(n: usize) -> (end: usize)
    ensures
        end == if n <= FLAT_NUM {
            n
        } else {
            FLAT_NUM
        },
{
    if n <= FLAT_NUM {
        n
    } else {
        FLAT_NUM
    }
}

/// How many vectors of a four-bit list in block layout are measured exactly:
/// all of a short list, of a longer one those of the first blocks that reach
/// past the calibration.
pub open spec fn exact_blocks_end(n: nat) -> nat {
    if n <= FLAT_NUM || n <= block_count(FLAT_NUM as nat) * 32 {
        n
    } else {
        block_count(FLAT_NUM as nat) * 32
    }
}

/// How many vectors of a four-bit list in block layout are measured exactly.
/// The others are estimated from a table of bytes.
pub fn exact_end(n: usize) -> (end: usize)
    ensures
        end == exact_blocks_end(n as nat),
{
    let end: usize = (FLAT_NUM + 31) / 32 * 32;
    if n <= FLAT_NUM || n <= end {
        n
    } else {
        end
    }
}

/// The sum of the entries that `lookups` names.
pub open spec fn table_sum(table: Seq<u8>, lookups: Seq<int>) -> nat
    decreases lookups.len(),
{
    if lookups.len() == 0 {
        0
    } else {
        table_sum(table, lookups.drop_last()) + table[lookups.last()] as nat
    }
}

/// Up to 128 code bytes add up without wrapping around.
pub proof fn lemma_table_sum_fits(table: Seq<u8>, row: Seq<u8>)
    requires
        row.len() <= 128,
    ensures
        table_sum(table, layout::nibble_lookups(row)) < 0x1_0000,
{
    lemma_table_sum_bound(table, layout::nibble_lookups(row));
}

proof fn lemma_table_sum_bound(table: Seq<u8>, lookups: Seq<int>)
    ensures
        table_sum(table, lookups) <= 255 * lookups.len(),
    decreases lookups.len(),
{
    if lookups.len() > 0 {
        lemma_table_sum_bound(table, lookups.drop_last());
    }
}

/// Adds up one entry per half byte for the vectors from `from` on, in 16 bits
/// that wrap around.
pub fn quantized_distances(
    layout: CodeLayout,
    qtable: &[u8],
    codes: &[u8],
    count: usize,
    cs: usize,
    from: usize,
) -> (out: Vec<u16>)
    requires
        from <= count,
        32 * cs <= qtable@.len(),
        layout::covers(layout, codes@.len(), count as nat, cs as nat),
    ensures
        out@.len() == count - from,
        forall|i: int|
            0 <= i < out@.len() ==> #[trigger] out@[i] == table_sum(
                qtable@,
                layout::nibble_lookups(
                    layout::code_row(layout, codes@, count as nat, cs as nat, (from + i) as nat),
                ),
            ) % 0x1_0000,
{
    let total: usize = qtable.len();
    let mut out: Vec<u16> = Vec::new();
    let mut g: usize = from;
    while g < count
        invariant
            from <= g <= count,
            total == qtable@.len(),
            32 * cs <= total,
            layout::covers(layout, codes@.len(), count as nat, cs as nat),
            out@.len() == g - from,
            forall|i: int|
                0 <= i < out@.len() ==> #[trigger] out@[i] == table_sum(
                    qtable@,
                    layout::nibble_lookups(
                        layout::code_row(layout, codes@, count as nat, cs as nat, (from + i) as nat),
                    ),
                ) % 0x1_0000,
        decreases count - g,
    {
        let ghost row = layout::code_row(layout, codes@, count as nat, cs as nat, g as nat);
        let ghost lookups = layout::nibble_lookups(row);
        let mut acc: u16 = 0;
        let mut pair: usize = 0;
        while pair < cs
            invariant
                pair <= cs,
                g < count,
                total == qtable@.len(),
                32 * cs <= total,
                layout::covers(layout, codes@.len(), count as nat, cs as nat),
                row == layout::code_row(layout, codes@, count as nat, cs as nat, g as nat),
                lookups == layout::nibble_lookups(row),
                acc == table_sum(qtable@, lookups.take(2 * pair)) % 0x1_0000,
            decreases cs - pair,
        {
            let byte: u8 = layout::code_at(layout, codes, count, cs, g, pair);
            let lo: u8 = qtable[pair * 2 * 16 + (byte % 16) as usize];
            let hi: u8 = qtable[(pair * 2 + 1) * 16 + (byte / 16) as usize];
            proof {
                let a = lookups.take(2 * pair);
                let b = lookups.take(2 * pair + 1);
                let c = lookups.take(2 * pair + 2);
                assert(b.drop_last() =~= a);
                assert(c.drop_last() =~= b);
                assert(lookups[2 * pair] == (2 * pair) * 16 + byte % 16);
                assert(lookups[2 * pair + 1] == (2 * pair + 1) * 16 + byte / 16);
                assert(table_sum(qtable@, b) == table_sum(qtable@, a) + lo);
                assert(table_sum(qtable@, c) == table_sum(qtable@, b) + hi);
            }
            acc = acc.wrapping_add(lo as u16 + hi as u16);
            pair = pair + 1;
        }
        assert(lookups.take(2 * pair) =~= lookups);
        out.push(acc);
        g = g + 1;
    }
    out
}

} // verus!
