//! Changing one coefficient of the witnesses changes their digest elements,
//! as long as no lane can wrap around the field modulus.
use crate::digest::{
    all_chunks, chunks_of, digest_elems_of, elem_of, field_modulus, fold_lane, run, step, zero_lanes,
    FoldState,
};
use crate::pack::group_size;
use crate::poly::{coef, pow256};
use vstd::prelude::*;

verus! {

/// Every coefficient of every group is a byte.
pub open spec fn byte_chunks(chs: Seq<Seq<i32>>) -> bool {
    forall|i: int, j: int| 0 <= i < chs.len() && 0 <= j < chs[i].len() ==> 0 <= #[trigger] chs[i][j]
        <= 255
}

/// The lanes are below `256^group`, and fewer than `group_count` groups were
/// absorbed since the last emission.
pub open spec fn state_bounded(st: FoldState, group_count: nat) -> bool {
    &&& st.cur.len() == group_size()
    &&& st.group < group_count
    &&& forall|l: int| 0 <= l < st.cur.len() ==> #[trigger] st.cur[l] < pow256(st.group)
}

proof fn lemma_run_take(chs: Seq<Seq<i32>>, group_count: nat, i: int)
    requires
        0 <= i < chs.len(),
    ensures
        run(chs.take(i + 1), group_count) == step(run(chs.take(i), group_count), chs[i], group_count),
{
    assert(chs.take(i + 1).drop_last() =~= chs.take(i));
    assert(chs.take(i + 1).last() == chs[i]);
}

/// With byte coefficients and at most three groups per emission, a lane
/// step never wraps.
proof fn lemma_lane_step(lane: u32, c: int, g: nat)
    requires
        g <= 2,
        lane < pow256(g),
        0 <= c <= 255,
    ensures
        fold_lane(lane, c) == lane * 256 + c,
        lane * 256 + c < pow256(g + 1),
{
    reveal_with_fuel(pow256, 4);
    assert(elem_of(c) == c);
    assert(lane * 256 + c < 0x100_0000);
    assert((lane * 256 + c) % field_modulus() == lane * 256 + c);
}

proof fn lemma_step_bounded(st: FoldState, chunk: Seq<i32>, group_count: nat)
    requires
        1 <= group_count <= 3,
        state_bounded(st, group_count),
        forall|j: int| 0 <= j < chunk.len() ==> 0 <= #[trigger] chunk[j] <= 255,
    ensures
        state_bounded(step(st, chunk, group_count), group_count),
        forall|l: int|
            0 <= l < group_size() ==> #[trigger] fold_lane(st.cur[l], coef(chunk, l)) == st.cur[l]
                * 256 + coef(chunk, l),
{
    reveal_with_fuel(pow256, 2);
    assert forall|l: int| 0 <= l < group_size() implies #[trigger] fold_lane(
        st.cur[l],
        coef(chunk, l),
    ) == st.cur[l] * 256 + coef(chunk, l) && st.cur[l] * 256 + coef(chunk, l) < pow256(
        st.group + 1,
    ) by {
        lemma_lane_step(st.cur[l], coef(chunk, l), st.group);
    }
    assert(zero_lanes().len() == group_size());
}

proof fn lemma_append_differs(e1: Seq<u32>, e2: Seq<u32>, x: Seq<u32>, y: Seq<u32>)
    requires
        e1.len() == e2.len(),
        e1 != e2,
    ensures
        e1 + x != e2 + y,
{
    if !(exists|q: int| 0 <= q < e1.len() && e1[q] != e2[q]) {
        assert(e1 =~= e2);
    }
    let q = choose|q: int| 0 <= q < e1.len() && e1[q] != e2[q];
    assert((e1 + x)[q] == e1[q]);
    assert((e2 + y)[q] == e2[q]);
}

proof fn lemma_lane_differs(e: Seq<u32>, x: Seq<u32>, y: Seq<u32>, k: int)
    requires
        0 <= k < x.len(),
        x.len() == y.len(),
        x[k] != y[k],
    ensures
        e + x != e + y,
{
    assert((e + x)[e.len() + k] == x[k]);
    assert((e + y)[e.len() + k] == y[k]);
}

/// Two runs over group sequences that differ in lane `k` of group `t` only.
proof fn lemma_runs_diverge(
    ch1: Seq<Seq<i32>>,
    ch2: Seq<Seq<i32>>,
    group_count: nat,
    t: int,
    k: int,
    i: nat,
)
    requires
        1 <= group_count <= 3,
        ch1.len() == ch2.len(),
        byte_chunks(ch1),
        byte_chunks(ch2),
        0 <= t < ch1.len(),
        0 <= k < group_size(),
        forall|u: int| 0 <= u < ch1.len() && u != t ==> ch1[u] == ch2[u],
        coef(ch1[t], k) != coef(ch2[t], k),
        i <= ch1.len(),
    ensures
        ({
            let s1 = run(ch1.take(i as int), group_count);
            let s2 = run(ch2.take(i as int), group_count);
            &&& state_bounded(s1, group_count)
            &&& state_bounded(s2, group_count)
            &&& s1.group == s2.group
            &&& s1.elems.len() == s2.elems.len()
            &&& i <= t ==> s1 == s2
            &&& i > t ==> (s1.elems != s2.elems || (s1.group != 0 && s1.cur[k] != s2.cur[k]))
        }),
    decreases i,
{
    if i == 0 {
        assert(ch1.take(0) =~= seq![]);
        assert(ch2.take(0) =~= seq![]);
        reveal_with_fuel(pow256, 1);
    } else {
        let j = (i - 1) as int;
        lemma_runs_diverge(ch1, ch2, group_count, t, k, (i - 1) as nat);
        lemma_run_take(ch1, group_count, j);
        lemma_run_take(ch2, group_count, j);
        let s1 = run(ch1.take(j), group_count);
        let s2 = run(ch2.take(j), group_count);
        let c1 = ch1[j];
        let c2 = ch2[j];
        assert forall|q: int| 0 <= q < c1.len() implies 0 <= #[trigger] c1[q] <= 255 by {}
        assert forall|q: int| 0 <= q < c2.len() implies 0 <= #[trigger] c2[q] <= 255 by {}
        lemma_step_bounded(s1, c1, group_count);
        lemma_step_bounded(s2, c2, group_count);
        let n1 = Seq::new(group_size(), |l: int| fold_lane(s1.cur[l], coef(c1, l)));
        let n2 = Seq::new(group_size(), |l: int| fold_lane(s2.cur[l], coef(c2, l)));
        if i > t {
            let differs_before = s1.elems != s2.elems;
            if j == t {
                assert(s1 == s2);
                assert(n1[k] == s1.cur[k] * 256 + coef(c1, k));
                assert(n2[k] == s2.cur[k] * 256 + coef(c2, k));
                assert(n1[k] != n2[k]);
                if s1.group + 1 == group_count {
                    lemma_lane_differs(s1.elems, n1, n2, k);
                }
            } else if differs_before {
                if s1.group + 1 == group_count {
                    lemma_append_differs(s1.elems, s2.elems, n1, n2);
                }
            } else {
                assert(c1 == c2);
                assert(n1[k] == s1.cur[k] * 256 + coef(c1, k));
                assert(n2[k] == s2.cur[k] * 256 + coef(c1, k));
                assert(n1[k] != n2[k]);
                if s1.group + 1 == group_count {
                    lemma_lane_differs(s1.elems, n1, n2, k);
                }
            }
        } else {
            assert(c1 == c2);
        }
    }
}

/// With byte coefficients and one to three groups per emission, two lists
/// of witnesses whose groups agree but for lane `k` of group `t` give
/// different digest elements.
proof fn lemma_digest_elems_sensitive_groups(
    ws1: Seq<Seq<i32>>,
    ws2: Seq<Seq<i32>>,
    group_count: nat,
    t: int,
    k: int,
)
    requires
        1 <= group_count <= 3,
        all_chunks(ws1).len() == all_chunks(ws2).len(),
        byte_chunks(all_chunks(ws1)),
        byte_chunks(all_chunks(ws2)),
        0 <= t < all_chunks(ws1).len(),
        0 <= k < group_size(),
        forall|u: int|
            0 <= u < all_chunks(ws1).len() && u != t ==> all_chunks(ws1)[u] == all_chunks(ws2)[u],
        coef(all_chunks(ws1)[t], k) != coef(all_chunks(ws2)[t], k),
    ensures
        digest_elems_of(ws1, group_count) != digest_elems_of(ws2, group_count),
{
    let ch1 = all_chunks(ws1);
    let ch2 = all_chunks(ws2);
    lemma_runs_diverge(ch1, ch2, group_count, t, k, ch1.len());
    assert(ch1.take(ch1.len() as int) =~= ch1);
    assert(ch2.take(ch2.len() as int) =~= ch2);
    let s1 = run(ch1, group_count);
    let s2 = run(ch2, group_count);
    if s1.elems != s2.elems {
        if s1.group != 0 {
            lemma_append_differs(s1.elems, s2.elems, s1.cur, s2.cur);
        }
    } else {
        lemma_lane_differs(s1.elems, s1.cur, s2.cur, k);
    }
}

proof fn lemma_all_chunks_concat(x: Seq<Seq<i32>>, y: Seq<Seq<i32>>)
    ensures
        all_chunks(x + y) == all_chunks(x) + all_chunks(y),
    decreases y.len(),
{
    if y.len() == 0 {
        assert(x + y =~= x);
        assert(all_chunks(x) + all_chunks(y) =~= all_chunks(x));
    } else {
        lemma_all_chunks_concat(x, y.drop_last());
        assert((x + y).drop_last() =~= x + y.drop_last());
        assert((x + y).last() == y.last());
        assert(all_chunks(x) + all_chunks(y.drop_last()) + chunks_of(y.last()) =~= all_chunks(x) + (
        all_chunks(y.drop_last()) + chunks_of(y.last())));
    }
}

/// Every coefficient of every witness is a byte.
pub open spec fn byte_witnesses(ws: Seq<Seq<i32>>) -> bool {
    forall|i: int, j: int| 0 <= i < ws.len() && 0 <= j < ws[i].len() ==> 0 <= #[trigger] ws[i][j]
        <= 255
}

proof fn lemma_byte_chunks(ws: Seq<Seq<i32>>)
    requires
        byte_witnesses(ws),
    ensures
        byte_chunks(all_chunks(ws)),
    decreases ws.len(),
{
    if ws.len() > 0 {
        let w0 = ws.drop_last();
        assert(byte_witnesses(w0)) by {
            assert forall|i: int, j: int| 0 <= i < w0.len() && 0 <= j < w0[i].len() implies 0
                <= #[trigger] w0[i][j] <= 255 by {
                assert(w0[i] == ws[i]);
            }
        }
        lemma_byte_chunks(w0);
        let w = ws.last();
        let cs = chunks_of(w);
        assert(ws[ws.len() - 1] == w);
        assert forall|i: int, j: int| 0 <= i < cs.len() && 0 <= j < cs[i].len() implies 0
            <= #[trigger] cs[i][j] <= 255 by {
            assert(cs[i][j] == w[16 * i + j]);
            assert(ws[ws.len() - 1][16 * i + j] == w[16 * i + j]);
        }
        let all = all_chunks(ws);
        assert(all == all_chunks(w0) + cs);
        assert forall|i: int, j: int| 0 <= i < all.len() && 0 <= j < all[i].len() implies 0
            <= #[trigger] all[i][j] <= 255 by {
            if i < all_chunks(w0).len() {
                assert(all[i] == all_chunks(w0)[i]);
            } else {
                assert(all[i] == cs[i - all_chunks(w0).len()]);
            }
        }
    }
}

/// The groups of a witness changed at coefficient `b` alone differ in lane
/// `b % 16` of group `b / 16` alone.
proof fn lemma_chunks_of_update(w1: Seq<i32>, w2: Seq<i32>, b: int)
    requires
        w1.len() == w2.len(),
        0 <= b < w1.len(),
        forall|j: int| 0 <= j < w1.len() && j != b ==> w1[j] == w2[j],
        w1[b] != w2[b],
    ensures
        chunks_of(w1).len() == chunks_of(w2).len(),
        b / 16 < chunks_of(w1).len(),
        forall|u: int|
            0 <= u < chunks_of(w1).len() && u != b / 16 ==> chunks_of(w1)[u] == chunks_of(w2)[u],
        coef(chunks_of(w1)[b / 16], b % 16) != coef(chunks_of(w2)[b / 16], b % 16),
{
    let c1 = chunks_of(w1);
    let c2 = chunks_of(w2);
    assert(group_size() == 16);
    assert(b / 16 < c1.len());
    assert forall|u: int| 0 <= u < c1.len() && u != b / 16 implies c1[u] == c2[u] by {
        assert(c1[u] =~= c2[u]);
    }
    let q = b / 16;
    assert(16 * q + b % 16 == b);
    assert(c1[q][b % 16] == w1[b]);
    assert(c2[q][b % 16] == w2[b]);
}

/// With byte coefficients and one to three groups per emission, changing one
/// coefficient of one witness changes the digest elements.
pub proof fn lemma_digest_elems_sensitive(
    ws1: Seq<Seq<i32>>,
    ws2: Seq<Seq<i32>>,
    group_count: nat,
    a: int,
    b: int,
)
    requires
        1 <= group_count <= 3,
        byte_witnesses(ws1),
        byte_witnesses(ws2),
        ws1.len() == ws2.len(),
        0 <= a < ws1.len(),
        forall|u: int| 0 <= u < ws1.len() && u != a ==> ws1[u] == ws2[u],
        ws1[a].len() == ws2[a].len(),
        0 <= b < ws1[a].len(),
        forall|j: int| 0 <= j < ws1[a].len() && j != b ==> ws1[a][j] == ws2[a][j],
        ws1[a][b] != ws2[a][b],
    ensures
        digest_elems_of(ws1, group_count) != digest_elems_of(ws2, group_count),
{
    lemma_byte_chunks(ws1);
    lemma_byte_chunks(ws2);
    let pre = ws1.take(a);
    let post = ws1.skip(a + 1);
    assert(ws1 =~= pre + seq![ws1[a]] + post);
    assert(ws2 =~= pre + seq![ws2[a]] + post);
    lemma_all_chunks_concat(pre + seq![ws1[a]], post);
    lemma_all_chunks_concat(pre + seq![ws2[a]], post);
    lemma_all_chunks_concat(pre, seq![ws1[a]]);
    lemma_all_chunks_concat(pre, seq![ws2[a]]);
    assert(seq![ws1[a]].drop_last() =~= seq![]);
    assert(seq![ws2[a]].drop_last() =~= seq![]);
    assert(seq![ws1[a]].last() == ws1[a]);
    assert(all_chunks(seq![ws1[a]].drop_last()) =~= seq![]);
    assert(all_chunks(seq![ws1[a]]) =~= chunks_of(ws1[a]));
    assert(seq![ws2[a]].last() == ws2[a]);
    assert(all_chunks(seq![ws2[a]].drop_last()) =~= seq![]);
    assert(all_chunks(seq![ws2[a]]) =~= chunks_of(ws2[a]));
    lemma_chunks_of_update(ws1[a], ws2[a], b);
    let p = all_chunks(pre);
    let s = all_chunks(post);
    let c1 = chunks_of(ws1[a]);
    let c2 = chunks_of(ws2[a]);
    let ch1 = all_chunks(ws1);
    let ch2 = all_chunks(ws2);
    assert(ch1 == p + c1 + s);
    assert(ch2 == p + c2 + s);
    let t = p.len() + b / 16;
    assert forall|u: int| 0 <= u < ch1.len() && u != t implies ch1[u] == ch2[u] by {
        if u < p.len() {
        } else if u < p.len() + c1.len() {
            assert(ch1[u] == c1[u - p.len()]);
            assert(ch2[u] == c2[u - p.len()]);
        } else {
            assert(ch1[u] == s[u - p.len() - c1.len()]);
            assert(ch2[u] == s[u - p.len() - c2.len()]);
        }
    }
    assert(ch1[t] == c1[b / 16]);
    assert(ch2[t] == c2[b / 16]);
    lemma_digest_elems_sensitive_groups(ws1, ws2, group_count, t, b % 16);
}

} // verus!
