//! Values of device-tree properties: strings that may end in a NUL byte, and
//! numbers made of big-endian cells of four bytes.

use vstd::prelude::*;

verus! {

/// The number that `bytes` spell in big-endian order.
pub open spec fn be_value(bytes: Seq<u8>) -> nat
    decreases bytes.len(),
{
    if bytes.len() == 0 {
        0
    } else {
        be_value(bytes.drop_last()) * 256 + bytes.last() as nat
    }
}

/// Four more bytes shift the number by one cell.
pub proof fn lemma_be_value_cell(bytes: Seq<u8>, at: int)
    requires
        0 <= at,
        at + 4 <= bytes.len(),
    ensures
        be_value(bytes.take(at + 4)) == be_value(bytes.take(at)) * 0x1_0000_0000 + bytes[at]
            * 0x100_0000 + bytes[at + 1] * 0x1_0000 + bytes[at + 2] * 0x100 + bytes[at + 3],
{
    assert(bytes.take(at + 4).drop_last() =~= bytes.take(at + 3));
    assert(bytes.take(at + 3).drop_last() =~= bytes.take(at + 2));
    assert(bytes.take(at + 2).drop_last() =~= bytes.take(at + 1));
    assert(bytes.take(at + 1).drop_last() =~= bytes.take(at));
    let v0 = be_value(bytes.take(at));
    let v1 = be_value(bytes.take(at + 1));
    let v2 = be_value(bytes.take(at + 2));
    let v3 = be_value(bytes.take(at + 3));
    let v4 = be_value(bytes.take(at + 4));
    assert(v1 == v0 * 256 + bytes[at]);
    assert(v2 == v1 * 256 + bytes[at + 1]);
    assert(v3 == v2 * 256 + bytes[at + 2]);
    assert(v4 == v3 * 256 + bytes[at + 3]);
}

/// The string without the NUL byte that may end it.
pub fn null_terminated_str(bytes: &[u8]) -> (r: &[u8])
    requires
        bytes@.len() > 0,
    ensures
        r@ == if bytes@.last() == 0 {
            bytes@.drop_last()
        } else {
            bytes@
        },
{
    let n: usize = bytes.len();
    if bytes[n - 1] == 0 {
        let r = &bytes[0..n - 1];
        proof {
            assert(r@ =~= bytes@.drop_last());
        }
        r
    } else {
        bytes
    }
}

/// Reads a number of `cell_size` big-endian cells of four bytes from the
/// front of `regs`, and gives it with the rest of `regs`. Of a number that
/// is wider than 64 bits the low 64 bits are given.
pub fn regs_to_usize(regs: &[u8], cell_size: usize) -> (r: (u64, &[u8]))
    requires
        cell_size * 4 <= regs@.len(),
    ensures
        r.0 == be_value(regs@.take(cell_size * 4)) % 0x1_0000_0000_0000_0000,
        r.1@ == regs@.skip(cell_size * 4),
{
    let n: usize = regs.len();
    let mut result: u64 = 0;
    let mut k: usize = 0;
    proof {
        assert(regs@.take(0) =~= Seq::<u8>::empty());
    }
    while k < cell_size
        invariant
            k <= cell_size,
            cell_size * 4 <= n,
            n == regs@.len(),
            result == be_value(regs@.take(k * 4)) % 0x1_0000_0000_0000_0000,
        decreases cell_size - k,
    {
        let at: usize = k * 4;
        let cell: u64 = regs[at] as u64 * 0x100_0000 + regs[at + 1] as u64 * 0x1_0000 + regs[at
            + 2] as u64 * 0x100 + regs[at + 3] as u64;
        proof {
            lemma_be_value_cell(regs@, at as int);
            let v = be_value(regs@.take(at as int));
            assert((v * 0x1_0000_0000 + cell) % 0x1_0000_0000_0000_0000 == (result % 0x1_0000_0000)
                * 0x1_0000_0000 + cell);
        }
        result = (result % 0x1_0000_0000) * 0x1_0000_0000 + cell;
        k += 1;
    }
    let rest = &regs[cell_size * 4..n];
    proof {
        assert(rest@ =~= regs@.skip(cell_size * 4));
    }
    (result, rest)
}

} // verus!
