//! Byte order of integers.

use vstd::prelude::*;

verus! {

/// The `count` low-order bytes of `n`, the lowest first.
pub open spec fn le_bytes(n: nat, count: nat) -> Seq<u8>
    decreases count,
{
    if count == 0 {
        Seq::empty()
    } else {
        seq![(n % 256) as u8] + le_bytes(n / 256, (count - 1) as nat)
    }
}

/// The `count` low-order bytes of `n`, the highest first.
pub open spec fn be_bytes(n: nat, count: nat) -> Seq<u8> {
    le_bytes(n, count).reverse()
}

/// The number whose bytes are `bytes`, the lowest first.
pub open spec fn le_value(bytes: Seq<u8>) -> nat
    decreases bytes.len(),
{
    if bytes.len() == 0 {
        0
    } else {
        bytes[0] as nat + 256 * le_value(bytes.skip(1))
    }
}

/// The number whose bytes are `bytes`, the highest first.
pub open spec fn be_value(bytes: Seq<u8>) -> nat {
    le_value(bytes.reverse())
}

/// The eight bytes of `n`, the lowest first.
pub fn u64_le(n: u64) -> (out: [u8; 8])
    ensures
        out@ == le_bytes(n as nat, 8),
{
    let n1: u64 = n / 256;
    let n2: u64 = n1 / 256;
    let n3: u64 = n2 / 256;
    let n4: u64 = n3 / 256;
    let n5: u64 = n4 / 256;
    let n6: u64 = n5 / 256;
    let n7: u64 = n6 / 256;
    let out: [u8; 8] = [
        (n % 256) as u8,
        (n1 % 256) as u8,
        (n2 % 256) as u8,
        (n3 % 256) as u8,
        (n4 % 256) as u8,
        (n5 % 256) as u8,
        (n6 % 256) as u8,
        (n7 % 256) as u8,
    ];
    proof {
        reveal_with_fuel(le_bytes, 9);
        assert(out@ =~= le_bytes(n as nat, 8));
    }
    out
}

/// The four bytes of `n`, the highest first.
pub fn u32_be(n: u32) -> (out: [u8; 4])
    ensures
        out@ == be_bytes(n as nat, 4),
{
    let n1: u32 = n / 256;
    let n2: u32 = n1 / 256;
    let n3: u32 = n2 / 256;
    let out: [u8; 4] = [(n3 % 256) as u8, (n2 % 256) as u8, (n1 % 256) as u8, (n % 256) as u8];
    proof {
        reveal_with_fuel(le_bytes, 5);
        assert(out@ =~= be_bytes(n as nat, 4));
    }
    out
}

/// The number whose bytes are `bytes`, the highest first.
pub fn u32_from_be(bytes: &[u8]) -> (n: u32)
    requires
        bytes@.len() == 4,
    ensures
        n as nat == be_value(bytes@),
{
    proof {
        let r = bytes@.reverse();
        assert(r.skip(1).skip(1) =~= r.skip(2));
        assert(r.skip(2).skip(1) =~= r.skip(3));
        assert(r.skip(3).skip(1) =~= r.skip(4));
        reveal_with_fuel(le_value, 5);
    }
    bytes[3] as u32 + 256 * (bytes[2] as u32 + 256 * (bytes[1] as u32 + 256 * (bytes[0] as u32)))
}

/// 256 to the power of `count`.
pub open spec fn pow256(count: nat) -> nat
    decreases count,
{
    if count == 0 {
        1
    } else {
        256 * pow256((count - 1) as nat)
    }
}

/// A number's low-order bytes have the length that was asked for, and are those
/// of the number when it fits in them.
pub proof fn lemma_le_round_trip(n: nat, count: nat)
    ensures
        le_bytes(n, count).len() == count,
        n < pow256(count) ==> le_value(le_bytes(n, count)) == n,
    decreases count,
{
    if count > 0 {
        lemma_le_round_trip(n / 256, (count - 1) as nat);
        let tail = le_bytes(n / 256, (count - 1) as nat);
        assert(le_bytes(n, count).skip(1) =~= tail);
    }
}

/// The same with the highest byte first.
pub proof fn lemma_be_round_trip(n: nat, count: nat)
    ensures
        be_bytes(n, count).len() == count,
        n < pow256(count) ==> be_value(be_bytes(n, count)) == n,
{
    lemma_le_round_trip(n, count);
    assert(be_bytes(n, count).reverse() =~= le_bytes(n, count));
}

/// Four bytes stand for a number in the usual way, in either order.
pub proof fn law_four_bytes(b: Seq<u8>)
    requires
        b.len() == 4,
    ensures
        le_value(b) == b[0] + 0x100 * b[1] + 0x1_0000 * b[2] + 0x100_0000 * b[3],
        be_value(b) == b[3] + 0x100 * b[2] + 0x1_0000 * b[1] + 0x100_0000 * b[0],
{
    lemma_four(b);
    lemma_four(b.reverse());
}

proof fn lemma_four(b: Seq<u8>)
    requires
        b.len() == 4,
    ensures
        le_value(b) == b[0] + 0x100 * b[1] + 0x1_0000 * b[2] + 0x100_0000 * b[3],
{
    assert(b.skip(1).skip(1) =~= b.skip(2));
    assert(b.skip(2).skip(1) =~= b.skip(3));
    assert(b.skip(3).skip(1) =~= b.skip(4));
    reveal_with_fuel(le_value, 5);
}

/// Eight bytes, the lowest first, stand for a number in the usual way.
pub proof fn law_eight_bytes(b: Seq<u8>)
    requires
        b.len() == 8,
    ensures
        le_value(b) == b[0] + 0x100 * b[1] + 0x1_0000 * b[2] + 0x100_0000 * b[3] + 0x1_0000_0000
            * b[4] + 0x100_0000_0000 * b[5] + 0x1_0000_0000_0000 * b[6] + 0x100_0000_0000_0000
            * b[7],
{
    assert(b.skip(1).skip(1) =~= b.skip(2));
    assert(b.skip(2).skip(1) =~= b.skip(3));
    assert(b.skip(3).skip(1) =~= b.skip(4));
    assert(b.skip(4).skip(1) =~= b.skip(5));
    assert(b.skip(5).skip(1) =~= b.skip(6));
    assert(b.skip(6).skip(1) =~= b.skip(7));
    assert(b.skip(7).skip(1) =~= b.skip(8));
    reveal_with_fuel(le_value, 9);
}

/// The bytes of a number stand for it: the eight of a nonce, the lowest first, and the four
/// of a size, in either order.
pub proof fn law_bytes_of_numbers(n: u64, size: u32)
    ensures
        ({
            let b = le_bytes(n as nat, 8);
            &&& b.len() == 8
            &&& n == b[0] + 0x100 * b[1] + 0x1_0000 * b[2] + 0x100_0000 * b[3] + 0x1_0000_0000
                * b[4] + 0x100_0000_0000 * b[5] + 0x1_0000_0000_0000 * b[6]
                + 0x100_0000_0000_0000 * b[7]
        }),
        ({
            let b = le_bytes(size as nat, 4);
            &&& b.len() == 4
            &&& size == b[0] + 0x100 * b[1] + 0x1_0000 * b[2] + 0x100_0000 * b[3]
        }),
        ({
            let b = be_bytes(size as nat, 4);
            &&& b.len() == 4
            &&& size == b[3] + 0x100 * b[2] + 0x1_0000 * b[1] + 0x100_0000 * b[0]
        }),
{
    reveal_with_fuel(pow256, 9);
    lemma_le_round_trip(n as nat, 8);
    lemma_le_round_trip(size as nat, 4);
    lemma_be_round_trip(size as nat, 4);
    law_eight_bytes(le_bytes(n as nat, 8));
    law_four_bytes(le_bytes(size as nat, 4));
    law_four_bytes(be_bytes(size as nat, 4));
}

} // verus!
