//! How the codes of a list lie in memory, and where they point to in a
//! distance table.

use crate::fastscan;
use vstd::prelude::*;

verus! {

/// The order in which the code bytes of a list are stored. Every vector has the
/// same number of code bytes.
#[derive(Debug, Clone, Copy, PartialEq, Eq, Structural)]
pub enum CodeLayout {
    /// Vector after vector.
    RowMajor,
    /// All first bytes, then all second bytes, and so on.
    Transposed,
    /// Blocks of 32 vectors, each block stored like a transposed list.
    Block,
}

/// Where byte `p` of vector `g` lies, in a list of `count` vectors with `cs`
/// bytes each.
pub open spec fn code_index(layout: CodeLayout, count: nat, cs: nat, g: nat, p: nat) -> nat {
    match layout {
        CodeLayout::RowMajor => g * cs + p,
        CodeLayout::Transposed => p * count + g,
        CodeLayout::Block => fastscan::block_index(g, p, cs),
    }
}

/// `len` bytes reach far enough for `count` vectors.
pub open spec fn covers(layout: CodeLayout, len: nat, count: nat, cs: nat) -> bool {
    count > 0 && cs > 0 ==> code_index(layout, count, cs, (count - 1) as nat, (cs - 1) as nat) < len
}

/// The code bytes of vector `g`.
pub open spec fn code_row(layout: CodeLayout, codes: Seq<u8>, count: nat, cs: nat, g: nat) -> Seq<
    u8,
> {
    Seq::new(cs, |p: int| codes[code_index(layout, count, cs, g, p as nat) as int])
}

/// A list of row-major codes, stored the other way round.
pub open spec fn transposed(codes: Seq<u8>, count: nat, cs: nat) -> Seq<u8> {
    Seq::new(count * cs, |j: int| codes[(j % count as int) * cs + j / count as int])
}

/// One half of a code byte: the lower four bits are number 0, the upper ones
/// number 1.
pub open spec fn nibble(byte: u8, which: int) -> int {
    if which == 0 {
        byte as int % 16
    } else {
        byte as int / 16
    }
}

/// The table entries that a vector of four-bit codes adds up: one of sixteen
/// for every half byte.
pub open spec fn nibble_lookups(row: Seq<u8>) -> Seq<int> {
    Seq::new(2 * row.len(), |i: int| i * 16 + nibble(row[i / 2], i % 2))
}

/// The table entries that a vector of eight-bit codes adds up: one of `ksub`
/// for every byte.
pub open spec fn byte_lookups(row: Seq<u8>, ksub: nat) -> Seq<int> {
    Seq::new(row.len(), |p: int| p * ksub + row[p])
}

/// No byte of the list lies behind the last byte of the last vector.
pub proof fn lemma_code_index_bound(layout: CodeLayout, count: nat, cs: nat, g: nat, p: nat)
    requires
        g < count,
        p < cs,
    ensures
        code_index(layout, count, cs, g, p) <= code_index(
            layout,
            count,
            cs,
            (count - 1) as nat,
            (cs - 1) as nat,
        ),
        layout != CodeLayout::Block ==> code_index(layout, count, cs, g, p) < count * cs,
        layout != CodeLayout::Block ==> code_index(
            layout,
            count,
            cs,
            (count - 1) as nat,
            (cs - 1) as nat,
        ) == count * cs - 1,
{
    match layout {
        CodeLayout::RowMajor => {
            assert(g * cs + p <= (count - 1) * cs + (cs - 1) && (count - 1) * cs + (cs - 1) == count
                * cs - 1) by (nonlinear_arith)
                requires
                    g < count,
                    p < cs,
            ;
        },
        CodeLayout::Transposed => {
            assert(p * count + g <= (cs - 1) * count + (count - 1) && (cs - 1) * count + (count - 1)
                == count * cs - 1) by (nonlinear_arith)
                requires
                    g < count,
                    p < cs,
            ;
        },
        CodeLayout::Block => {
            let last: nat = (count - 1) as nat;
            let b: nat = g / 32;
            let c: nat = last / 32;
            assert(b <= c);
            if b == c {
                assert(g % 32 <= last % 32);
                assert(b * cs + p <= c * cs + (cs - 1));
            } else {
                assert(b * cs + p < c * cs + (cs - 1) + 1 && (b * cs + p + 1 <= c * cs)) by (
                nonlinear_arith)
                    requires
                        b + 1 <= c,
                        p < cs,
                ;
            }
        },
    }
}

/// Reading a transposed list as such gives every vector the bytes that it had.
pub proof fn lemma_transposed_row(codes: Seq<u8>, count: nat, cs: nat, g: nat)
    requires
        g < count,
        codes.len() >= count * cs,
    ensures
        transposed(codes, count, cs).len() == count * cs,
        code_row(CodeLayout::Transposed, transposed(codes, count, cs), count, cs, g) == code_row(
            CodeLayout::RowMajor,
            codes,
            count,
            cs,
            g,
        ),
{
    let t = transposed(codes, count, cs);
    assert forall|p: int| 0 <= p < cs implies #[trigger] t[code_index(
        CodeLayout::Transposed,
        count,
        cs,
        g,
        p as nat,
    ) as int] == codes[code_index(CodeLayout::RowMajor, count, cs, g, p as nat) as int] by {
        lemma_code_index_bound(CodeLayout::Transposed, count, cs, g, p as nat);
        let j: int = p * count + g;
        vstd::arithmetic::div_mod::lemma_fundamental_div_mod_converse(j, count as int, p, g as int);
        assert(j / count as int == p && j % count as int == g);
    }
    assert(code_row(CodeLayout::Transposed, t, count, cs, g) =~= code_row(
        CodeLayout::RowMajor,
        codes,
        count,
        cs,
        g,
    ));
}

/// Transposing twice, with the two sizes exchanged, gives the list back.
pub proof fn lemma_transposed_twice(codes: Seq<u8>, count: nat, cs: nat)
    requires
        codes.len() == count * cs,
    ensures
        transposed(transposed(codes, count, cs), cs, count) == codes,
{
    let t = transposed(codes, count, cs);
    assert(cs * count == count * cs) by (nonlinear_arith);
    assert forall|j: int| 0 <= j < codes.len() implies transposed(t, cs, count)[j] == codes[j] by {
        assert(cs > 0 && count > 0) by (nonlinear_arith)
            requires
                0 <= j < count * cs,
        ;
        let g: int = j / cs as int;
        let p: int = j % cs as int;
        vstd::arithmetic::div_mod::lemma_fundamental_div_mod(j, cs as int);
        assert(0 <= p < cs && g >= 0 && j == g * cs + p) by (nonlinear_arith)
            requires
                cs > 0,
                j >= 0,
                g == j / cs as int,
                p == j % cs as int,
                j == cs * g + p,
        ;
        assert(g < count) by (nonlinear_arith)
            requires
                g * cs + p < count * cs,
                p >= 0,
        ;
        lemma_code_index_bound(CodeLayout::Transposed, count, cs, g as nat, p as nat);
        let i: int = p * count + g;
        vstd::arithmetic::div_mod::lemma_fundamental_div_mod_converse(i, count as int, p, g);
    }
    assert(transposed(t, cs, count) =~= codes);
}

/// Stores row-major codes the other way round.
pub fn transpose_codes(codes: &[u8], count: usize, cs: usize) -> (out: Vec<u8>)
    requires
        count * cs <= codes@.len(),
    ensures
        out@ == transposed(codes@, count as nat, cs as nat),
{
    let total: usize = codes.len();
    let mut out: Vec<u8> = Vec::new();
    let mut p: usize = 0;
    assert(count * 0 == 0);
    while p < cs
        invariant
            p <= cs,
            total == codes@.len(),
            count * cs <= total,
            out@.len() == p * count,
            forall|j: int|
                0 <= j < out@.len() ==> out@[j] == codes@[(j % count as int) * cs + j
                    / count as int],
        decreases cs - p,
    {
        let mut g: usize = 0;
        while g < count
            invariant
                p < cs,
                g <= count,
                total == codes@.len(),
                count * cs <= total,
                out@.len() == p * count + g,
                forall|j: int|
                    0 <= j < out@.len() ==> out@[j] == codes@[(j % count as int) * cs + j
                        / count as int],
            decreases count - g,
        {
            proof {
                lemma_code_index_bound(
                    CodeLayout::RowMajor,
                    count as nat,
                    cs as nat,
                    g as nat,
                    p as nat,
                );
                vstd::arithmetic::div_mod::lemma_fundamental_div_mod_converse(
                    p * count + g,
                    count as int,
                    p as int,
                    g as int,
                );
                assert(g * cs >= 0 && g * cs <= g * cs + p) by (nonlinear_arith);
            }
            out.push(codes[g * cs + p]);
            g = g + 1;
        }
        assert((p + 1) * count == p * count + count) by (nonlinear_arith);
        p = p + 1;
    }
    proof {
        assert(cs * count == count * cs) by (nonlinear_arith);
        assert(out@ =~= transposed(codes@, count as nat, cs as nat));
    }
    out
}

/// Byte `p` of vector `g`.
pub fn code_at(
    layout: CodeLayout,
    codes: &[u8],
    count: usize,
    cs: usize,
    g: usize,
    p: usize,
) -> (byte: u8)
    requires
        g < count,
        p < cs,
        covers(layout, codes@.len(), count as nat, cs as nat),
    ensures
        byte == code_row(layout, codes@, count as nat, cs as nat, g as nat)[p as int],
{
    proof {
        lemma_code_index_bound(layout, count as nat, cs as nat, g as nat, p as nat);
        assert(g * cs >= 0 && p * count >= 0 && (g / 32) * cs >= 0) by (nonlinear_arith);
    }
    let total: usize = codes.len();
    assert(total == codes@.len());
    match layout {
        CodeLayout::RowMajor => codes[g * cs + p],
        CodeLayout::Transposed => codes[p * count + g],
        CodeLayout::Block => codes[((g / 32) * cs + p) * 32 + g % 32],
    }
}

/// The table entries that vector `g` of a four-bit list adds up, in order.
pub fn lookups_4bit(layout: CodeLayout, codes: &[u8], count: usize, cs: usize, g: usize) -> (out:
    Vec<usize>)
    requires
        g < count,
        cs * 32 <= usize::MAX,
        covers(layout, codes@.len(), count as nat, cs as nat),
    ensures
        out@.map_values(|i: usize| i as int) == nibble_lookups(
            code_row(layout, codes@, count as nat, cs as nat, g as nat),
        ),
{
    let ghost row = code_row(layout, codes@, count as nat, cs as nat, g as nat);
    let mut out: Vec<usize> = Vec::new();
    let mut p: usize = 0;
    while p < cs
        invariant
            p <= cs,
            g < count,
            cs * 32 <= usize::MAX,
            covers(layout, codes@.len(), count as nat, cs as nat),
            row == code_row(layout, codes@, count as nat, cs as nat, g as nat),
            out@.len() == 2 * p,
            forall|i: int| 0 <= i < out@.len() ==> out@[i] == nibble_lookups(row)[i],
        decreases cs - p,
    {
        let byte: u8 = code_at(layout, codes, count, cs, g, p);
        out.push((p * 2) * 16 + (byte % 16) as usize);
        out.push((p * 2 + 1) * 16 + (byte / 16) as usize);
        p = p + 1;
    }
    assert(out@.map_values(|i: usize| i as int) =~= nibble_lookups(row));
    out
}

/// The table entries that vector `g` of an eight-bit list adds up, in order.
pub fn lookups_8bit(
    layout: CodeLayout,
    codes: &[u8],
    count: usize,
    m: usize,
    ksub: usize,
    g: usize,
) -> (out: Vec<usize>)
    requires
        g < count,
        m * ksub + 256 <= usize::MAX,
        covers(layout, codes@.len(), count as nat, m as nat),
    ensures
        out@.map_values(|i: usize| i as int) == byte_lookups(
            code_row(layout, codes@, count as nat, m as nat, g as nat),
            ksub as nat,
        ),
{
    let ghost row = code_row(layout, codes@, count as nat, m as nat, g as nat);
    let mut out: Vec<usize> = Vec::new();
    let mut p: usize = 0;
    while p < m
        invariant
            p <= m,
            g < count,
            m * ksub + 256 <= usize::MAX,
            covers(layout, codes@.len(), count as nat, m as nat),
            row == code_row(layout, codes@, count as nat, m as nat, g as nat),
            out@.len() == p,
            forall|i: int| 0 <= i < out@.len() ==> out@[i] == byte_lookups(row, ksub as nat)[i],
        decreases m - p,
    {
        let byte: u8 = code_at(layout, codes, count, m, g, p);
        assert(p * ksub <= m * ksub) by (nonlinear_arith)
            requires
                p <= m,
        ;
        out.push(p * ksub + byte as usize);
        p = p + 1;
    }
    assert(out@.map_values(|i: usize| i as int) =~= byte_lookups(row, ksub as nat));
    out
}

} // verus!
