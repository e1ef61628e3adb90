//! The field elements that commit to a list of witness polynomials. Lanes
//! live in the Baby Bear field, the field of the recursion circuit; the hash
//! over the elements is the caller's.
use crate::pack::{checked_coeffs_per_poly, group_size};
use crate::poly::coef;
use vstd::prelude::*;

verus! {

/// The Baby Bear prime, `15 * 2^27 + 1`.
pub open spec fn field_modulus() -> int {
    0x7800_0001
}

/// The field element of a coefficient read as a 64-bit unsigned integer.
pub open spec fn elem_of(c: int) -> int {
    if c >= 0 {
        c % field_modulus()
    } else {
        (0x1_0000_0000_0000_0000 + c) % field_modulus()
    }
}

/// One Horner step of a lane in base 256.
pub open spec fn fold_lane(lane: u32, c: int) -> u32 {
    ((lane * 256 + elem_of(c)) % field_modulus()) as u32
}

/// Lanes, elements emitted so far, and groups since the last flush.
pub struct FoldState {
    pub elems: Seq<u32>,
    pub cur: Seq<u32>,
    pub group: nat,
}

/// Lanes before any group.
pub open spec fn zero_lanes() -> Seq<u32> {
    Seq::new(group_size(), |k: int| 0u32)
}

/// The groups of a witness: runs of `group_size()` coefficients, the last one
/// possibly short.
pub open spec fn chunks_of(w: Seq<i32>) -> Seq<Seq<i32>> {
    let g = group_size() as int;
    Seq::new(
        (w.len() / group_size() + if w.len() % group_size() != 0 {
            1nat
        } else {
            0nat
        }),
        |j: int|
            w.subrange(
                g * j,
                if g * j + g <= w.len() {
                    g * j + g
                } else {
                    w.len() as int
                },
            ),
    )
}

/// The groups of all witnesses, in order.
pub open spec fn all_chunks(ws: Seq<Seq<i32>>) -> Seq<Seq<i32>>
    decreases ws.len(),
{
    if ws.len() == 0 {
        seq![]
    } else {
        all_chunks(ws.drop_last()) + chunks_of(ws.last())
    }
}

/// Absorbing one group: every lane takes its coefficient; after
/// `group_count` groups the lanes are emitted and cleared. With a
/// `group_count` of zero they are never emitted before the end.
pub open spec fn step(st: FoldState, chunk: Seq<i32>, group_count: nat) -> FoldState {
    let cur = Seq::new(group_size(), |k: int| fold_lane(st.cur[k], coef(chunk, k)));
    let g: nat = if group_count == 0 {
        1
    } else {
        st.group + 1
    };
    if g == group_count {
        FoldState { elems: st.elems + cur, cur: zero_lanes(), group: 0 }
    } else {
        FoldState { elems: st.elems, cur, group: g }
    }
}

/// The state after absorbing `chunks` in order.
pub open spec fn run(chunks: Seq<Seq<i32>>, group_count: nat) -> FoldState
    decreases chunks.len(),
{
    if chunks.len() == 0 {
        FoldState { elems: seq![], cur: zero_lanes(), group: 0 }
    } else {
        step(run(chunks.drop_last(), group_count), chunks.last(), group_count)
    }
}

/// The elements for witnesses `ws`: what was emitted, and the lanes once more
/// if a group was absorbed since the last emission.
pub open spec fn digest_elems_of(ws: Seq<Seq<i32>>, group_count: nat) -> Seq<u32> {
    let st = run(all_chunks(ws), group_count);
    if st.group != 0 {
        st.elems + st.cur
    } else {
        st.elems
    }
}

/// The coefficients of each witness.
pub open spec fn views(ws: Seq<Vec<i32>>) -> Seq<Seq<i32>> {
    ws.map_values(|w: Vec<i32>| w@)
}

/// Relies on risc0_core's `baby_bear::P`: the field's modulus.
#[verifier::external_body]
fn baby_bear_modulus() -> (r: u64)
    ensures
        r == field_modulus(),
{
    risc0_core::field::baby_bear::P as u64
}

/// The field element of `c as u64`, given the modulus `p`.
fn field_elem(c: i32, p: u64) -> (r: u64)
    requires
        p == field_modulus(),
    ensures
        r == elem_of(c as int),
{
    if c >= 0 {
        (c as u64) % p
    } else {
        let m = (-1 - (c as i64)) as u64;
        (u64::MAX - m) % p
    }
}

/// The field elements that commit to `witness`, `group_count` groups to an
/// emission; a hash over them binds the witnesses into a transcript.
pub fn digest_elems(witness: &Vec<Vec<i32>>, group_count: usize) -> (r: Vec<u32>)
    ensures
        r@ == digest_elems_of(views(witness@), group_count as nat),
{
    let g = checked_coeffs_per_poly();
    let p = baby_bear_modulus();
    let mut elems: Vec<u32> = Vec::new();
    let mut cur: Vec<u32> = Vec::new();
    while cur.len() < g
        invariant
            cur@.len() <= g,
            g == group_size(),
            p == field_modulus(),
            forall|k: int| 0 <= k < cur@.len() ==> #[trigger] cur@[k] == 0u32,
        decreases g - cur@.len(),
    {
        cur.push(0);
    }
    assert(cur@ =~= zero_lanes());
    let mut group: usize = 0;
    let ghost ws = views(witness@);
    let mut wi: usize = 0;
    while wi < witness.len()
        invariant
            g == group_size(),
            p == field_modulus(),
            ws == views(witness@),
            wi <= ws.len(),
            group_count == 0 ==> group <= 1,
            group_count > 0 ==> group < group_count,
            ({
                let st = run(all_chunks(ws.take(wi as int)), group_count as nat);
                elems@ == st.elems && cur@ == st.cur && group == st.group
            }),
        decreases witness@.len() - wi,
    {
        let w = &witness[wi];
        let n = w.len();
        let ghost done = all_chunks(ws.take(wi as int));
        let ghost cs = chunks_of(w@);
        assert(ws[wi as int] == w@);
        let nchunks: usize = if n % g != 0 {
            n / g + 1
        } else {
            n / g
        };
        let mut j: usize = 0;
        while j < nchunks
            invariant
                nchunks == cs.len(),
                g == group_size(),
            p == field_modulus(),
                n == w@.len(),
                cs == chunks_of(w@),
                j <= cs.len(),
                group_count == 0 ==> group <= 1,
                group_count > 0 ==> group < group_count,
                ({
                    let st = run(done + cs.take(j as int), group_count as nat);
                    elems@ == st.elems && cur@ == st.cur && group == st.group
                }),
            decreases cs.len() - j,
        {
            assert((done + cs.take(j + 1)).drop_last() =~= done + cs.take(j as int));
            assert((done + cs.take(j + 1)).last() == cs[j as int]);
            let mut next: Vec<u32> = Vec::new();
            let mut k: usize = 0;
            while k < g
                invariant
                    g == group_size(),
            p == field_modulus(),
                    n == w@.len(),
                    j < cs.len(),
                    cs == chunks_of(w@),
                    cur@.len() == g,
                    k <= g,
                    next@.len() == k,
                    forall|t: int|
                        0 <= t < k ==> #[trigger] next@[t] == fold_lane(cur@[t], coef(cs[j as int], t)),
                decreases g - k,
            {
                let c: i32 = if j < n / g || k < n % g {
                    w[g * j + k]
                } else {
                    0
                };
                assert(c == coef(cs[j as int], k as int)) by {
                    assert(g * (n / g) + n % g == n);
                    if j < n / g {
                        assert(g * j + g <= g * (n / g)) by (nonlinear_arith)
                            requires
                                j + 1 <= n / g,
                                g > 0,
                        ;
                    }
                }
                let e = field_elem(c, p);
                let lane = ((cur[k] as u64) * 256 + e) % p;
                next.push(lane as u32);
                k = k + 1;
            }
            assert(next@ =~= Seq::new(group_size(), |t: int| fold_lane(cur@[t], coef(cs[j as int], t))));
            let gnext: usize = if group_count == 0 {
                1
            } else {
                group + 1
            };
            if gnext == group_count {
                elems.append(&mut next);
                cur = Vec::new();
                while cur.len() < g
                    invariant
                        cur@.len() <= g,
                        g == group_size(),
            p == field_modulus(),
                        forall|t: int| 0 <= t < cur@.len() ==> #[trigger] cur@[t] == 0u32,
                    decreases g - cur@.len(),
                {
                    cur.push(0);
                }
                assert(cur@ =~= zero_lanes());
                group = 0;
            } else {
                cur = next;
                group = gnext;
            }
            j = j + 1;
        }
        assert(cs.take(cs.len() as int) =~= cs);
        assert(ws.take(wi + 1).drop_last() =~= ws.take(wi as int));
        assert(ws.take(wi + 1).last() == w@);
        wi = wi + 1;
    }
    assert(ws.take(ws.len() as int) =~= ws);
    if group != 0 {
        elems.append(&mut cur);
    }
    elems
}

} // verus!
