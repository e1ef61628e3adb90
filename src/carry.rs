//! Carry limbs for a polynomial that must denote zero, and the identity that
//! the circuit checks on them.
use crate::convert::{carry_bound, floor_divmod256};
use crate::poly::coef;
use vstd::prelude::*;

verus! {

/// The carry into position `i`: `floor((val[i-1] + carry_in(i-1)) / 256)`,
/// none into position 0.
pub open spec fn carry_in(val: Seq<i32>, i: nat) -> int
    decreases i,
{
    if i == 0 {
        0
    } else {
        (coef(val, i - 1) + carry_in(val, (i - 1) as nat)) / 256
    }
}

/// Bytes that a biased carry may take: `256^carry_bytes`.
pub open spec fn limb_range(carry_bytes: nat) -> int {
    if carry_bytes == 1 {
        0x100
    } else if carry_bytes == 2 {
        0x1_0000
    } else {
        0x100_0000
    }
}

/// Number of limb polynomials: one per carry byte, and a fourth, the top limb
/// times four, when there are three.
pub open spec fn limb_count(carry_bytes: nat) -> nat {
    if carry_bytes == 3 {
        4
    } else {
        carry_bytes
    }
}

/// Byte `k` (0, 1 or 2) of a nonnegative `x`.
pub open spec fn limb(x: int, k: int) -> int {
    if k == 0 {
        x % 256
    } else if k == 1 {
        (x / 256) % 256
    } else {
        (x / 0x1_0000) % 256
    }
}

/// Every position leaves no remainder, and every biased carry fits in
/// `carry_bytes` bytes.
pub open spec fn carry_chain_ok(val: Seq<i32>, carry_offset: nat, carry_bytes: nat) -> bool {
    forall|i: nat|
        i < val.len() ==> {
            &&& (val[i as int] + #[trigger] carry_in(val, i)) % 256 == 0
            &&& 0 <= carry_in(val, i + 1) + carry_offset < limb_range(carry_bytes)
        }
}

/// The carry out of position `i` read back from the limbs, the offset removed.
pub open spec fn reconstructed(
    polys: Seq<Vec<i32>>,
    carry_offset: nat,
    carry_bytes: nat,
    i: int,
) -> int {
    polys[0]@[i] + (if carry_bytes > 1 {
        256 * polys[1]@[i]
    } else {
        0
    }) + (if carry_bytes > 2 {
        0x1_0000 * polys[2]@[i]
    } else {
        0
    }) - carry_offset
}

pub proof fn lemma_carry_bound(val: Seq<i32>, i: nat)
    ensures
        -carry_bound() <= carry_in(val, i) <= carry_bound(),
    decreases i,
{
    if i > 0 {
        lemma_carry_bound(val, (i - 1) as nat);
    }
}

/// Whether [`eval_constraint`] accepts these arguments.
pub fn check_carry_chain(val: &[i32], carry_offset: usize, carry_bytes: usize) -> (r: bool)
    ensures
        r == (1 <= carry_bytes <= 3 && carry_chain_ok(val@, carry_offset as nat, carry_bytes as nat)),
{
    if carry_bytes < 1 || carry_bytes > 3 {
        return false;
    }
    let range: i128 = if carry_bytes == 1 {
        0x100
    } else if carry_bytes == 2 {
        0x1_0000
    } else {
        0x100_0000
    };
    let mut carry: i64 = 0;
    let mut i: usize = 0;
    while i < val.len()
        invariant
            i <= val@.len(),
            1 <= carry_bytes <= 3,
            range == limb_range(carry_bytes as nat),
            carry == carry_in(val@, i as nat),
            forall|k: nat|
                k < i ==> {
                    &&& (val@[k as int] + #[trigger] carry_in(val@, k)) % 256 == 0
                    &&& 0 <= carry_in(val@, k + 1) + carry_offset < limb_range(carry_bytes as nat)
                },
        decreases val@.len() - i,
    {
        proof {
            lemma_carry_bound(val@, i as nat);
            lemma_carry_bound(val@, (i + 1) as nat);
        }
        let (q, m) = floor_divmod256(val[i] as i64 + carry);
        assert(q == carry_in(val@, (i + 1) as nat));
        assert(m == (val@[i as int] + carry_in(val@, i as nat)) % 256);
        if m != 0 {
            assert(!carry_chain_ok(val@, carry_offset as nat, carry_bytes as nat)) by {
                if carry_chain_ok(val@, carry_offset as nat, carry_bytes as nat) {
                    assert((val@[i as int] + carry_in(val@, i as nat)) % 256 == 0);
                }
            }
            return false;
        }
        let biased: i128 = q as i128 + carry_offset as i128;
        if biased < 0 || biased >= range {
            assert(!carry_chain_ok(val@, carry_offset as nat, carry_bytes as nat)) by {
                if carry_chain_ok(val@, carry_offset as nat, carry_bytes as nat) {
                    let ii = i as nat;
                    assert((val@[ii as int] + carry_in(val@, ii)) % 256 == 0);
                }
            }
            return false;
        }
        assert(forall|k: nat|
            k < i + 1 ==> {
                &&& (val@[k as int] + #[trigger] carry_in(val@, k)) % 256 == 0
                &&& 0 <= carry_in(val@, k + 1) + carry_offset < limb_range(carry_bytes as nat)
            });
        carry = q;
        i = i + 1;
    }
    true
}

/// Splits the carry of each position of `val` into byte limbs after adding
/// `carry_offset`: limb polynomial `k` holds byte `k` of every biased carry,
/// and with three bytes a fourth holds the top byte times four. Each
/// position's carry read back from the limbs satisfies
/// `val[i] - 256 * carry[i] + carry[i - 1] == 0`.
pub fn eval_constraint(val: &[i32], carry_offset: usize, carry_bytes: usize) -> (r: Vec<Vec<i32>>)
    requires
        1 <= carry_bytes <= 3,
        carry_chain_ok(val@, carry_offset as nat, carry_bytes as nat),
    ensures
        r@.len() == limb_count(carry_bytes as nat),
        forall|k: int| 0 <= k < r@.len() ==> (#[trigger] r@[k])@.len() == val@.len(),
        forall|k: int, i: int|
            0 <= k < carry_bytes && 0 <= i < val@.len() ==> #[trigger] r@[k]@[i] == limb(
                carry_in(val@, (i + 1) as nat) + carry_offset,
                k,
            ),
        carry_bytes == 3 ==> forall|i: int| 0 <= i < val@.len() ==> #[trigger] r@[3]@[i] == 4 * r@[2]@[i],
        forall|i: int|
            0 <= i < val@.len() ==> val@[i] - 256 * #[trigger] reconstructed(
                r@,
                carry_offset as nat,
                carry_bytes as nat,
                i,
            ) + (if i > 0 {
                reconstructed(r@, carry_offset as nat, carry_bytes as nat, i - 1)
            } else {
                0
            }) == 0,
{
    let l0 = limb_poly(val, carry_offset, carry_bytes, 0);
    let mut r: Vec<Vec<i32>> = Vec::new();
    r.push(l0);
    if carry_bytes > 1 {
        let l1 = limb_poly(val, carry_offset, carry_bytes, 1);
        r.push(l1);
    }
    if carry_bytes > 2 {
        let l2 = limb_poly(val, carry_offset, carry_bytes, 2);
        let l3 = scaled_by_four(&l2);
        r.push(l2);
        r.push(l3);
    }
    proof {
        assert forall|i: int| 0 <= i < val@.len() implies reconstructed(
            r@,
            carry_offset as nat,
            carry_bytes as nat,
            i,
        ) == carry_in(val@, (i + 1) as nat) by {
            let x = carry_in(val@, (i + 1) as nat) + carry_offset;
            let ii = i as nat;
            assert((val@[ii as int] + carry_in(val@, ii)) % 256 == 0);
            lemma_limbs(x, carry_bytes as nat);
            assert(r@[0]@[i] == limb(x, 0));
            if carry_bytes > 1 {
                assert(r@[1]@[i] == limb(x, 1));
            }
            if carry_bytes > 2 {
                assert(r@[2]@[i] == limb(x, 2));
            }
        }
        assert forall|i: int| 0 <= i < val@.len() implies val@[i] - 256 * #[trigger] reconstructed(
            r@,
            carry_offset as nat,
            carry_bytes as nat,
            i,
        ) + (if i > 0 {
            reconstructed(r@, carry_offset as nat, carry_bytes as nat, i - 1)
        } else {
            0
        }) == 0 by {
            let ii = i as nat;
            assert((val@[ii as int] + carry_in(val@, ii)) % 256 == 0);
            assert(carry_in(val@, ii + 1) == (coef(val@, ii as int) + carry_in(val@, ii)) / 256);
            if i > 0 {
                assert(reconstructed(r@, carry_offset as nat, carry_bytes as nat, i - 1)
                    == carry_in(val@, ((i - 1) + 1) as nat));
            }
        }
    }
    r
}

/// Bytes 0 to 2 of a biased carry rebuild it.
proof fn lemma_limbs(x: int, carry_bytes: nat)
    requires
        1 <= carry_bytes <= 3,
        0 <= x < limb_range(carry_bytes),
    ensures
        limb(x, 0) + (if carry_bytes > 1 {
            256 * limb(x, 1)
        } else {
            0
        }) + (if carry_bytes > 2 {
            0x1_0000 * limb(x, 2)
        } else {
            0
        }) == x,
{
    assert(x == 256 * (x / 256) + x % 256);
    assert(x / 256 == 256 * (x / 0x1_0000) + (x / 256) % 256);
    assert(x / 0x1_0000 < 256);
}

/// Byte `k` of every biased carry of `val`.
fn limb_poly(val: &[i32], carry_offset: usize, carry_bytes: usize, k: usize) -> (r: Vec<i32>)
    requires
        1 <= carry_bytes <= 3,
        k <= 2,
        carry_chain_ok(val@, carry_offset as nat, carry_bytes as nat),
    ensures
        r@.len() == val@.len(),
        forall|i: int|
            0 <= i < val@.len() ==> #[trigger] r@[i] == limb(
                carry_in(val@, (i + 1) as nat) + carry_offset,
                k as int,
            ),
{
    let n = val.len();
    let mut out: Vec<i32> = Vec::new();
    let mut carry: i64 = 0;
    let mut i: usize = 0;
    while i < n
        invariant
            n == val@.len(),
            i <= n,
            k <= 2,
            1 <= carry_bytes <= 3,
            carry == carry_in(val@, i as nat),
            carry_chain_ok(val@, carry_offset as nat, carry_bytes as nat),
            out@.len() == i,
            forall|j: int|
                0 <= j < i ==> #[trigger] out@[j] == limb(
                    carry_in(val@, (j + 1) as nat) + carry_offset,
                    k as int,
                ),
        decreases n - i,
    {
        proof {
            lemma_carry_bound(val@, i as nat);
            lemma_carry_bound(val@, (i + 1) as nat);
            let ii = i as nat;
            assert((val@[ii as int] + carry_in(val@, ii)) % 256 == 0);
        }
        let (q, _m) = floor_divmod256(val[i] as i64 + carry);
        assert(q == carry_in(val@, (i + 1) as nat));
        carry = q;
        let biased = (carry + carry_offset as i64) as u64;
        let b = if k == 0 {
            biased % 256
        } else if k == 1 {
            (biased / 256) % 256
        } else {
            (biased / 0x1_0000) % 256
        };
        out.push(b as i32);
        i = i + 1;
    }
    out
}

/// Every coefficient times four.
fn scaled_by_four(p: &Vec<i32>) -> (r: Vec<i32>)
    requires
        forall|i: int| 0 <= i < p@.len() ==> 0 <= #[trigger] p@[i] <= 255,
    ensures
        r@.len() == p@.len(),
        forall|i: int| 0 <= i < p@.len() ==> #[trigger] r@[i] == 4 * p@[i],
{
    let mut out: Vec<i32> = Vec::new();
    let mut i: usize = 0;
    while i < p.len()
        invariant
            i <= p@.len(),
            out@.len() == i,
            forall|j: int| 0 <= j < p@.len() ==> 0 <= #[trigger] p@[j] <= 255,
            forall|j: int| 0 <= j < i ==> #[trigger] out@[j] == 4 * p@[j],
        decreases p@.len() - i,
    {
        out.push(4 * p[i]);
        i = i + 1;
    }
    out
}

} // verus!
