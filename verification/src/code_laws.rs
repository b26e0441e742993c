//! Where the bytes of a code lie, and which table entries they name.

use crate::fastscan;
use crate::layout;
use crate::layout::CodeLayout;
use vstd::prelude::*;

verus! {

/// In block layout 32 vectors make a block, which holds the first byte of each,
/// then the second byte of each, and so on. The last block is filled up with
/// zeros.
pub proof fn lemma_packed(codes: Seq<u8>, n: nat, cs: nat, g: nat, p: nat)
    requires
        p < cs,
        g < ((n + 31) / 32) * 32,
    ensures
        fastscan::packed(codes, n, cs).len() == ((n + 31) / 32) * cs * 32,
        0 <= ((g / 32) * cs + p) * 32 + g % 32 < fastscan::packed(codes, n, cs).len(),
        fastscan::packed(codes, n, cs)[(((g / 32) * cs + p) * 32 + g % 32) as int] == if g < n {
            codes[(g * cs + p) as int]
        } else {
            0
        },
{
    fastscan::lemma_block_index(g, p, cs, n);
    assert(g == (g / 32) * 32 + g % 32);
}

/// Out of the blocks every byte comes back to its vector.
pub proof fn lemma_unpacked(blocks: Seq<u8>, n: nat, cs: nat, g: nat, p: nat)
    requires
        p < cs,
        g < n,
    ensures
        fastscan::unpacked(blocks, n, cs).len() == n * cs,
        g * cs + p < n * cs,
        fastscan::unpacked(blocks, n, cs)[(g * cs + p) as int] == blocks[(((g / 32) * cs + p) * 32
            + g % 32) as int],
{
    lemma_place(g as int, p as int, n as int, cs as int);
}

/// The place of an element in a table of `n` rows with `cs` elements each.
proof fn lemma_place(g: int, p: int, n: int, cs: int)
    requires
        0 <= g < n,
        0 <= p < cs,
    ensures
        0 <= g * cs + p < n * cs,
        (g * cs + p) / cs == g,
        (g * cs + p) % cs == p,
{
    vstd::arithmetic::div_mod::lemma_fundamental_div_mod_converse(g * cs + p, cs, g, p);
    assert(0 <= g * cs && g * cs + cs <= n * cs) by (nonlinear_arith)
        requires
            0 <= g,
            g + 1 <= n,
            0 < cs,
    ;
}

/// The other way round, the first bytes of all vectors come first, then the
/// second bytes, and so on.
pub proof fn lemma_transposed(codes: Seq<u8>, count: nat, cs: nat, g: nat, p: nat)
    requires
        p < cs,
        g < count,
    ensures
        layout::transposed(codes, count, cs).len() == count * cs,
        p * count + g < count * cs,
        layout::transposed(codes, count, cs)[(p * count + g) as int] == codes[(g * cs + p) as int],
{
    lemma_place(p as int, g as int, cs as int, count as int);
    assert(cs * count == count * cs) by (nonlinear_arith);
}

/// The code of a vector: its bytes, wherever the layout puts them.
pub proof fn lemma_code_row(codes: Seq<u8>, count: nat, cs: nat, g: nat, p: nat)
    requires
        p < cs,
    ensures
        layout::code_row(CodeLayout::RowMajor, codes, count, cs, g).len() == cs,
        layout::code_row(CodeLayout::Transposed, codes, count, cs, g).len() == cs,
        layout::code_row(CodeLayout::Block, codes, count, cs, g).len() == cs,
        layout::code_row(CodeLayout::RowMajor, codes, count, cs, g)[p as int] == codes[(g * cs
            + p) as int],
        layout::code_row(CodeLayout::Transposed, codes, count, cs, g)[p as int] == codes[(p * count
            + g) as int],
        layout::code_row(CodeLayout::Block, codes, count, cs, g)[p as int] == codes[(((g / 32) * cs
            + p) * 32 + g % 32) as int],
{
}

/// A vector has the same code in every layout.
pub proof fn lemma_same_code(codes: Seq<u8>, count: nat, cs: nat, g: nat)
    requires
        g < count,
    ensures
        layout::code_row(
            CodeLayout::Transposed,
            layout::transposed(codes, count, cs),
            count,
            cs,
            g,
        ) == layout::code_row(CodeLayout::RowMajor, codes, count, cs, g),
        layout::code_row(
            CodeLayout::Block,
            fastscan::packed(codes, count, cs),
            count,
            cs,
            g,
        ) == layout::code_row(CodeLayout::RowMajor, codes, count, cs, g),
{
    let row = layout::code_row(CodeLayout::RowMajor, codes, count, cs, g);
    let t = layout::transposed(codes, count, cs);
    let b = fastscan::packed(codes, count, cs);
    assert forall|p: int| 0 <= p < cs implies layout::code_row(
        CodeLayout::Transposed,
        t,
        count,
        cs,
        g,
    )[p] == row[p] && layout::code_row(CodeLayout::Block, b, count, cs, g)[p] == row[p] by {
        lemma_transposed(codes, count, cs, g, p as nat);
        lemma_packed(codes, count, cs, g, p as nat);
    }
    assert(layout::code_row(CodeLayout::Transposed, t, count, cs, g) =~= row);
    assert(layout::code_row(CodeLayout::Block, b, count, cs, g) =~= row);
}

/// Codes are long enough if the last byte of the last vector is there.
pub proof fn lemma_covers(len: nat, count: nat, cs: nat)
    requires
        count > 0,
        cs > 0,
    ensures
        layout::covers(CodeLayout::RowMajor, len, count, cs) <==> count * cs <= len,
        layout::covers(CodeLayout::Transposed, len, count, cs) <==> count * cs <= len,
        layout::covers(CodeLayout::Block, len, count, cs) <==> (((count - 1) / 32) * cs + (cs - 1))
            * 32 + (count - 1) % 32 < len,
{
    layout::lemma_code_index_bound(
        CodeLayout::RowMajor,
        count,
        cs,
        (count - 1) as nat,
        (cs - 1) as nat,
    );
    layout::lemma_code_index_bound(
        CodeLayout::Transposed,
        count,
        cs,
        (count - 1) as nat,
        (cs - 1) as nat,
    );
}

/// Byte `p` of a code names entry `p` of `ksub`; of a four-bit code its lower
/// half names one of sixteen entries, and its upper half one of the next
/// sixteen.
pub proof fn lemma_lookups(row: Seq<u8>, ksub: nat, p: int)
    requires
        0 <= p < row.len(),
    ensures
        layout::nibble_lookups(row).len() == 2 * row.len(),
        layout::nibble_lookups(row)[2 * p] == 32 * p + row[p] % 16,
        layout::nibble_lookups(row)[2 * p + 1] == 32 * p + 16 + row[p] / 16,
        layout::byte_lookups(row, ksub).len() == row.len(),
        layout::byte_lookups(row, ksub)[p] == p * ksub + row[p],
{
}

/// The sum of the named entries.
pub proof fn lemma_table_sum(table: Seq<u8>, lookups: Seq<int>)
    ensures
        fastscan::table_sum(table, lookups) == lookups.map_values(
            |l: int| table[l] as int,
        ).fold_left(0int, |a: int, b: int| a + b),
    decreases lookups.len(),
{
    let entry = |l: int| table[l] as int;
    if lookups.len() > 0 {
        lemma_table_sum(table, lookups.drop_last());
        assert(lookups.map_values(entry).drop_last() =~= lookups.drop_last().map_values(entry));
    }
}

/// Two hundred vectors calibrate a scan. In block layout the block that holds
/// the last of them is measured to its end, so that 224 vectors are, or all
/// where there are fewer.
pub proof fn lemma_exact_end(n: nat)
    ensures
        fastscan::FLAT_NUM == 200,
        fastscan::exact_blocks_end(n) == if n < 224 {
            n
        } else {
            224
        },
{
}

} // verus!
