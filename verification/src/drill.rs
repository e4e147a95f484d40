//! Drillx hashes and solutions.

use crate::bytes::{be_value, le_bytes};
use vstd::arithmetic::power2::{lemma2_to64, lemma_pow2_adds, pow2};
use vstd::prelude::*;

verus! {

/// The scratch memory of the Equi-X solver.
#[verifier::external_type_specification]
#[verifier::external_body]
pub struct ExSolverMemory(drillx::equix::SolverMemory);

/// A drillx hash: the Equi-X digest and the hash over digest and nonce.
#[derive(Clone, Copy, Debug)]
pub struct DrillHash {
    pub d: [u8; 16],
    pub h: [u8; 32],
}

/// A digest together with the nonce it was found for.
#[derive(Clone, Copy, Debug)]
pub struct Solution {
    pub d: [u8; 16],
    pub n: [u8; 8],
}

/// What drillx computes for a challenge and the eight bytes of a nonce: the
/// digest and the hash, or nothing where the nonce has no solution.
pub uninterp spec fn drill(challenge: Seq<u8>, nonce: Seq<u8>) -> Option<(Seq<u8>, Seq<u8>)>;

/// The number of zero bits in front of the highest one bit of a byte.
pub open spec fn byte_leading_zeros(b: u8) -> nat {
    if b >= 128 {
        0
    } else if b >= 64 {
        1
    } else if b >= 32 {
        2
    } else if b >= 16 {
        3
    } else if b >= 8 {
        4
    } else if b >= 4 {
        5
    } else if b >= 2 {
        6
    } else if b >= 1 {
        7
    } else {
        8
    }
}

/// The number of zero bits at the front of `bytes`.
pub open spec fn leading_zeros(bytes: Seq<u8>) -> nat
    decreases bytes.len(),
{
    if bytes.len() == 0 {
        0
    } else if bytes[0] == 0 {
        8 + leading_zeros(bytes.skip(1))
    } else {
        byte_leading_zeros(bytes[0])
    }
}

/// The outcome of trying the nonce `n` on `challenge`.
pub open spec fn attempt(challenge: Seq<u8>, n: u64) -> Option<(Seq<u8>, Seq<u8>)> {
    drill(challenge, le_bytes(n as nat, 8))
}

/// The difficulty reached by the nonce `n` on `challenge`; a nonce without a
/// solution reaches none.
pub open spec fn attempt_difficulty(challenge: Seq<u8>, n: u64) -> nat {
    match attempt(challenge, n) {
        Some(hash) => leading_zeros(hash.1),
        None => 0,
    }
}

/// `drillx::hash_with_memory` on the challenge and the nonce. The result is
/// that of `drill`: the memory is scratch space and does not enter into it.
/// Which of the two errors was met is left unsaid. The hash is that of a
/// little-endian machine.
#[verifier::external_body]
pub(crate) fn hash_with_memory(
    memory: &mut drillx::equix::SolverMemory,
    challenge: &[u8; 32],
    nonce: &[u8; 8],
) -> (out: Option<DrillHash>)
    ensures
        match out {
            Some(hash) => drill(challenge@, nonce@) == Some((hash.d@, hash.h@)),
            None => drill(challenge@, nonce@) is None,
        },
{
    match drillx::hash_with_memory(memory, challenge, nonce) {
        Ok(hx) => Some(DrillHash { d: hx.d, h: hx.h }),
        Err(_) => None,
    }
}

impl DrillHash {
    /// Zeros throughout.
    pub open spec fn is_zero(self) -> bool {
        &&& self.d@ == Seq::new(16, |i: int| 0u8)
        &&& self.h@ == Seq::new(32, |i: int| 0u8)
    }

    /// The hash before any was found: zeros throughout.
    pub fn zero() -> (out: DrillHash)
        ensures
            out.is_zero(),
    {
        let out = DrillHash { d: [0u8; 16], h: [0u8; 32] };
        assert(out.d@ =~= Seq::new(16, |i: int| 0u8));
        assert(out.h@ =~= Seq::new(32, |i: int| 0u8));
        out
    }

    /// `drillx::Hash::difficulty`: the number of zero bits at the front of the
    /// hash.
    #[verifier::external_body]
    pub(crate) fn difficulty(&self) -> (out: u32)
        ensures
            out as nat == leading_zeros(self.h@),
    {
        drillx::Hash { d: self.d, h: self.h }.difficulty()
    }
}

impl Solution {
    /// The solution of a digest and a nonce.
    pub fn new(digest: [u8; 16], nonce: [u8; 8]) -> (out: Solution)
        ensures
            out.d == digest,
            out.n == nonce,
    {
        Solution { d: digest, n: nonce }
    }
}

/// The zero bits at the front are those above the highest bit of the bytes as a number, the
/// highest byte first: a hash of difficulty `k` is below 2^(8 len - k), and not below half of
/// that but where all its bits are zero.
pub proof fn law_zero_bits(bytes: Seq<u8>)
    ensures
        leading_zeros(bytes) <= 8 * bytes.len(),
        be_value(bytes) < pow2((8 * bytes.len() - leading_zeros(bytes)) as nat),
        leading_zeros(bytes) < 8 * bytes.len() ==> 2 * be_value(bytes) >= pow2(
            (8 * bytes.len() - leading_zeros(bytes)) as nat,
        ),
    decreases bytes.len(),
{
    if bytes.len() == 0 {
        lemma2_to64();
    } else {
        let rest = bytes.skip(1);
        let n = rest.len();
        law_zero_bits(rest);
        lemma_first_byte(bytes);
        lemma_below(rest);
        if bytes[0] == 0 {
            assert(8 * bytes.len() - leading_zeros(bytes) == 8 * n - leading_zeros(rest));
            assert(0 * pow2(8 * n) == 0);
        } else {
            let b = bytes[0] as nat;
            let low = (8 - byte_leading_zeros(bytes[0])) as nat;
            lemma2_to64();
            assert(b < pow2(low) <= 2 * b);
            lemma_pow2_adds(low, 8 * n);
            let (p, q, r) = (pow2(low), pow2(8 * n), be_value(rest));
            assert(low + 8 * n == 8 * bytes.len() - leading_zeros(bytes));
            assert(b * q + r < p * q) by (nonlinear_arith)
                requires
                    b + 1 <= p,
                    r < q,
            ;
            assert(2 * (b * q + r) >= p * q) by (nonlinear_arith)
                requires
                    p <= 2 * b,
                    r >= 0,
                    q >= 0,
            ;
        }
    }
}

/// The first byte is the highest.
proof fn lemma_first_byte(bytes: Seq<u8>)
    requires
        bytes.len() > 0,
    ensures
        be_value(bytes) == bytes[0] * pow2(8 * (bytes.len() - 1) as nat) + be_value(bytes.skip(1)),
    decreases bytes.len(),
{
    let n = (bytes.len() - 1) as nat;
    assert(bytes.reverse().skip(1) =~= bytes.drop_last().reverse());
    assert(bytes.reverse()[0] == bytes.last());
    if n == 0 {
        lemma2_to64();
        assert(bytes.drop_last().reverse() =~= Seq::empty());
        assert(bytes.skip(1).reverse() =~= Seq::empty());
        assert(bytes[0] * 1 == bytes[0]);
    } else {
        let rest = bytes.skip(1);
        lemma_first_byte(bytes.drop_last());
        assert(bytes.drop_last().skip(1) =~= rest.drop_last());
        assert(rest.reverse().skip(1) =~= rest.drop_last().reverse());
        assert(rest.reverse()[0] == rest.last());
        lemma_pow2_adds(8, 8 * (n - 1) as nat);
        lemma2_to64();
        let (a, p) = (bytes[0] as int, pow2(8 * (n - 1) as nat) as int);
        assert(8 + 8 * (n - 1) == 8 * n);
        assert(256 * (a * p) == a * (256 * p)) by (nonlinear_arith);
    }
}

proof fn lemma_below(bytes: Seq<u8>)
    ensures
        be_value(bytes) < pow2(8 * bytes.len()),
    decreases bytes.len(),
{
    if bytes.len() == 0 {
        lemma2_to64();
    } else {
        let rest = bytes.skip(1);
        let n = rest.len();
        lemma_below(rest);
        lemma_first_byte(bytes);
        lemma_pow2_adds(8, 8 * n);
        lemma2_to64();
        let (b, q, r) = (bytes[0] as int, pow2(8 * n) as int, be_value(rest) as int);
        assert(b * q + r < 256 * q) by (nonlinear_arith)
            requires
                b <= 255,
                r < q,
                q > 0,
        ;
    }
}

} // verus!
