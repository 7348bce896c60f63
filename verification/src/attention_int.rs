use vstd::prelude::*;
use crate::arith::{shr, tdiv, clamp, clamp_i32, lemma_i64_shr16, lemma_i32_shr16_mask, lemma_row_fits};
use crate::math_int::{exp_q16, exp_approx_q16, lemma_exp_q16_bounds, lemma_exp_q16_nonpos};

verus! {

/// The score recorded for a masked pair (a key after its query). Masked keys
/// take no part in the softmax.
pub const MASKED: i32 = -999999;

/// `sum_{i < n} a[ao + i] * b[bo + i]`.
pub open spec fn dot_i8_at(a: Seq<i8>, ao: int, b: Seq<i8>, bo: int, n: nat) -> int
    decreases n,
{
    if n == 0 {
        0
    } else {
        dot_i8_at(a, ao, b, bo, (n - 1) as nat) + a[ao + n - 1] * b[bo + n - 1]
    }
}

/// Every partial sum of [`dot_i8_at`] up to `n` terms fits in `i32`.
pub open spec fn dot_i8_fits(a: Seq<i8>, ao: int, b: Seq<i8>, bo: int, n: nat) -> bool {
    forall|m: nat| m <= n ==> i32::MIN <= #[trigger] dot_i8_at(a, ao, b, bo, m) <= i32::MAX
}

/// The score of query row `gi` against key row `gj`: masked when the key
/// comes later, else the dot product shifted right by 3 and moved to Q16.16,
/// wrapping in `i32`.
pub open spec fn tile_score(q: Seq<i8>, k: Seq<i8>, gi: int, gj: int, hd: int) -> i32 {
    if gi < gj {
        MASKED
    } else {
        (shr(dot_i8_at(q, gi * hd, k, gj * hd, hd as nat), 3) * 65536) as i32
    }
}

/// The largest of `i32::MIN` and the scores of the unmasked keys (those at
/// or before `gi`) among the first `n` of the tile starting at key `ks`.
pub open spec fn tile_max(q: Seq<i8>, k: Seq<i8>, gi: int, ks: int, n: nat, hd: int) -> int
    decreases n,
{
    if n == 0 {
        i32::MIN as int
    } else {
        let m = tile_max(q, k, gi, ks, (n - 1) as nat, hd);
        let s = tile_score(q, k, gi, ks + n - 1, hd) as int;
        if ks + n - 1 <= gi && s > m {
            s
        } else {
            m
        }
    }
}

/// The weight of key `gj` once the running maximum is `m`: `exp(score - m)`,
/// or 0 for a masked key.
pub open spec fn tile_weight(q: Seq<i8>, k: Seq<i8>, gi: int, gj: int, hd: int, m: int) -> int {
    if gi < gj {
        0
    } else {
        exp_q16(tile_score(q, k, gi, gj, hd) - m)
    }
}

/// The tile of `kl` keys from `ks` holds a key that query `gi` may attend to.
pub open spec fn tile_live(gi: int, ks: int, kl: nat) -> bool {
    kl > 0 && ks <= gi
}

/// Sum of the weights of the first `n` keys of the tile.
pub open spec fn tile_weight_sum(q: Seq<i8>, k: Seq<i8>, gi: int, ks: int, n: nat, hd: int, m: int) -> int
    decreases n,
{
    if n == 0 {
        0
    } else {
        tile_weight_sum(q, k, gi, ks, (n - 1) as nat, hd, m) + tile_weight(q, k, gi, ks + n - 1, hd, m)
    }
}

/// `sum_{j < n, weight > 0} weight_j * v[(ks + j) * hd + d]`.
pub open spec fn tile_pv(
    q: Seq<i8>,
    k: Seq<i8>,
    v: Seq<i8>,
    gi: int,
    ks: int,
    n: nat,
    hd: int,
    m: int,
    d: int,
) -> int
    decreases n,
{
    if n == 0 {
        0
    } else {
        let w = tile_weight(q, k, gi, ks + n - 1, hd, m);
        tile_pv(q, k, v, gi, ks, (n - 1) as nat, hd, m, d) + if w > 0 {
            w * v[(ks + n - 1) * hd + d]
        } else {
            0
        }
    }
}

/// The running state of one query row: its maximum score, its softmax
/// denominator (Q16.16) and its output row.
pub type RowState = (int, int, Seq<int>);

/// The running maximum after a tile whose largest score is `mij`.
pub open spec fn new_max(m: int, mij: int) -> int {
    if m > mij {
        m
    } else {
        mij
    }
}

/// One output value after a tile: the old value rescaled by `ed` plus the
/// tile's weighted values, clamped to the `i8` range.
pub open spec fn step_out(o: int, ed: int, pv: int) -> int {
    clamp((shr(o * ed, 16) as i32) as int + (shr(pv, 16) as i32) as int, -128, 127)
}

/// The state of a row after the tile of `kl` keys starting at `ks`: unchanged
/// when every key of the tile comes after the query; otherwise the maximum
/// is raised to the tile's largest unmasked score, the denominator and the
/// outputs are rescaled by `exp(old max - new max)`, and the weights and
/// weighted values of the tile's unmasked keys are added.
pub open spec fn att_step(
    st: RowState,
    q: Seq<i8>,
    k: Seq<i8>,
    v: Seq<i8>,
    gi: int,
    ks: int,
    kl: nat,
    hd: int,
) -> RowState {
    let mij = tile_max(q, k, gi, ks, kl, hd);
    if !tile_live(gi, ks, kl) {
        st
    } else {
        let m_new = new_max(st.0, mij);
        let ed = exp_q16(st.0 - m_new);
        let l_new = (shr(st.1 * ed, 16) as i32) as int + tile_weight_sum(q, k, gi, ks, kl, hd, m_new);
        let out_new = Seq::new(
            st.2.len(),
            |d: int| step_out(st.2[d], ed, tile_pv(q, k, v, gi, ks, kl, hd, m_new, d)),
        );
        (m_new, l_new, out_new)
    }
}

/// The tile step computes without overflow.
pub open spec fn att_step_ok(
    st: RowState,
    q: Seq<i8>,
    k: Seq<i8>,
    v: Seq<i8>,
    gi: int,
    ks: int,
    kl: nat,
    hd: int,
) -> bool {
    let mij = tile_max(q, k, gi, ks, kl, hd);
    let m_new = new_max(st.0, mij);
    let ed = exp_q16(st.0 - m_new);
    !tile_live(gi, ks, kl) || {
        &&& (shr(st.1 * ed, 16) as i32) as int + tile_weight_sum(q, k, gi, ks, kl, hd, m_new) <= i32::MAX
        &&& forall|d: int, n: nat|
            0 <= d < hd && n <= kl ==> i64::MIN <= #[trigger] tile_pv(q, k, v, gi, ks, n, hd, m_new, d)
                <= i64::MAX
        &&& forall|d: int|
            0 <= d < hd ==> i32::MIN <= (shr(#[trigger] st.2[d] * ed, 16) as i32) as int + (shr(
                tile_pv(q, k, v, gi, ks, kl, hd, m_new, d),
                16,
            ) as i32) as int <= i32::MAX
    }
}

/// The number of tiles of `tile` rows covering `seq_len` rows.
pub open spec fn num_tiles(seq_len: int, tile: int) -> int {
    (seq_len + tile - 1) / tile
}

/// The number of rows in tile `tk`.
pub open spec fn tile_len(seq_len: int, tile: int, tk: int) -> int {
    if tk * tile + tile <= seq_len {
        tile
    } else {
        seq_len - tk * tile
    }
}

/// The state of query row `gi` after the first `ntk` key tiles.
pub open spec fn att_fold(
    q: Seq<i8>,
    k: Seq<i8>,
    v: Seq<i8>,
    gi: int,
    hd: int,
    seq_len: int,
    tile: int,
    ntk: nat,
) -> RowState
    decreases ntk,
{
    if ntk == 0 {
        (i32::MIN as int, 0, Seq::new(hd as nat, |d: int| 0))
    } else {
        att_step(
            att_fold(q, k, v, gi, hd, seq_len, tile, (ntk - 1) as nat),
            q,
            k,
            v,
            gi,
            (ntk - 1) * tile,
            tile_len(seq_len, tile, ntk - 1) as nat,
            hd,
        )
    }
}

/// Every tile step of row `gi` up to `ntk` tiles computes without overflow.
pub open spec fn att_fold_ok(
    q: Seq<i8>,
    k: Seq<i8>,
    v: Seq<i8>,
    gi: int,
    hd: int,
    seq_len: int,
    tile: int,
    ntk: nat,
) -> bool
    decreases ntk,
{
    ntk == 0 || {
        &&& att_fold_ok(q, k, v, gi, hd, seq_len, tile, (ntk - 1) as nat)
        &&& att_step_ok(
            att_fold(q, k, v, gi, hd, seq_len, tile, (ntk - 1) as nat),
            q,
            k,
            v,
            gi,
            (ntk - 1) * tile,
            tile_len(seq_len, tile, ntk - 1) as nat,
            hd,
        )
    }
}

/// The final row: each output divided by the integer part of the
/// denominator, when that is positive, and clamped to the `i8` range.
pub open spec fn att_final(st: RowState, hd: int) -> Seq<int> {
    Seq::new(
        hd as nat,
        |d: int|
            if st.1 > 0 && shr(st.1, 16) > 0 {
                clamp(tdiv(st.2[d], shr(st.1, 16)), -128, 127)
            } else {
                st.2[d]
            },
    )
}

/// Output row `gi` of [`IntegerTiledAttention::compute_attention_i8`].
pub open spec fn att_row_out(
    q: Seq<i8>,
    k: Seq<i8>,
    v: Seq<i8>,
    gi: int,
    hd: int,
    seq_len: int,
    tile: int,
) -> Seq<int> {
    att_final(att_fold(q, k, v, gi, hd, seq_len, tile, num_tiles(seq_len, tile) as nat), hd)
}

/// CPU-bound Tiled FlashAttention (Zero-Float Base)
/// Computes attention purely with integers, completely bypassing the FPU.
pub struct IntegerTiledAttention;

/// CPU-bound Tiled FlashAttention (FP32 Base): Q, K and V are tiled into small
/// cache-aligned blocks. Its kernel computes in `f32`, so it is provided
/// alongside the floating-point code rather than here.
pub struct CpuTiledAttention;

proof fn lemma_tile_max(q: Seq<i8>, k: Seq<i8>, gi: int, ks: int, n: nat, hd: int)
    ensures
        forall|j: int|
            0 <= j < n && ks + j <= gi ==> #[trigger] tile_score(q, k, gi, ks + j, hd) <= tile_max(q, k, gi, ks, n, hd),
        i32::MIN <= tile_max(q, k, gi, ks, n, hd) <= i32::MAX,
    decreases n,
{
    if n > 0 {
        lemma_tile_max(q, k, gi, ks, (n - 1) as nat, hd);
    }
}

proof fn lemma_weight_sum(q: Seq<i8>, k: Seq<i8>, gi: int, ks: int, n: nat, hd: int, m: int)
    requires
        forall|j: int| 0 <= j < n && ks + j <= gi ==> #[trigger] tile_score(q, k, gi, ks + j, hd) <= m,
    ensures
        0 <= tile_weight_sum(q, k, gi, ks, n, hd, m),
        forall|n2: nat| n2 <= n ==> #[trigger] tile_weight_sum(q, k, gi, ks, n2, hd, m) <= tile_weight_sum(q, k, gi, ks, n, hd, m),
        forall|j: int| 0 <= j < n ==> 0 <= #[trigger] tile_weight(q, k, gi, ks + j, hd, m) <= 65536,
    decreases n,
{
    if n > 0 {
        lemma_weight_sum(q, k, gi, ks, (n - 1) as nat, hd, m);
        assert forall|j: int| 0 <= j < n implies 0 <= #[trigger] tile_weight(q, k, gi, ks + j, hd, m) <= 65536 by {
            if ks + j <= gi {
                lemma_exp_q16_nonpos(tile_score(q, k, gi, ks + j, hd) - m);
            }
        }
        assert(0 <= tile_weight(q, k, gi, ks + (n - 1), hd, m) <= 65536);
    }
}

/// `exp(a - b)` in Q16.16, the difference taken without overflow.
fn exp_of_diff(a: i32, b: i32) -> (r: i32)
    ensures
        r as int == exp_q16(a - b),
{
    let d: i64 = a as i64 - b as i64;
    if d < -10 * 65536 {
        0
    } else if d > 10 * 65536 {
        i32::MAX
    } else {
        exp_approx_q16(d as i32)
    }
}

/// `sum_{i < n} a[ao + i] * b[bo + i]`, accumulated in `i32`.
fn row_dot(a: &[i8], ao: usize, b: &[i8], bo: usize, n: usize) -> (r: i32)
    requires
        ao + n <= a.len(),
        bo + n <= b.len(),
        dot_i8_fits(a@, ao as int, b@, bo as int, n as nat),
    ensures
        r == dot_i8_at(a@, ao as int, b@, bo as int, n as nat),
{
    let mut dot: i32 = 0;
    let mut i: usize = 0;
    while i < n
        invariant
            ao + n <= a.len(),
            bo + n <= b.len(),
            dot_i8_fits(a@, ao as int, b@, bo as int, n as nat),
            i <= n,
            dot == dot_i8_at(a@, ao as int, b@, bo as int, i as nat),
        decreases n - i,
    {
        let x = a[ao + i] as i32;
        let y = b[bo + i] as i32;
        proof {
            assert(-16384 <= x * y <= 16384) by (nonlinear_arith)
                requires -128 <= x < 128, -128 <= y < 128;
            assert(i32::MIN <= dot_i8_at(a@, ao as int, b@, bo as int, (i + 1) as nat) <= i32::MAX);
        }
        dot = dot + x * y;
        i += 1;
    }
    dot
}

/// The scores of query row `gi` against the `kl` keys from `ks`.
fn tile_scores(q: &[i8], k: &[i8], gi: usize, ks: usize, kl: usize, hd: usize) -> (r: Vec<i32>)
    requires
        hd > 0,
        ks + kl <= k.len(),
        (gi + 1) * hd <= q.len(),
        (ks + kl) * hd <= k.len(),
        forall|gj: int| 0 <= gj <= gi ==> #[trigger] dot_i8_fits(q@, gi * hd, k@, gj * hd, hd as nat),
    ensures
        r@.len() == kl,
        forall|j: int| 0 <= j < kl ==> #[trigger] r@[j] == tile_score(q@, k@, gi as int, ks + j, hd as int),
{
    let mut r: Vec<i32> = Vec::new();
    let mut j: usize = 0;
    while j < kl
        invariant
            hd > 0,
            ks + kl <= k.len(),
            (gi + 1) * hd <= q.len(),
            (ks + kl) * hd <= k.len(),
            forall|gj: int| 0 <= gj <= gi ==> #[trigger] dot_i8_fits(q@, gi * hd, k@, gj * hd, hd as nat),
            j <= kl,
            r@.len() == j,
            forall|j2: int| 0 <= j2 < j ==> #[trigger] r@[j2] == tile_score(q@, k@, gi as int, ks + j2, hd as int),
        decreases kl - j,
    {
        let gj = ks + j;
        if gi < gj {
            r.push(MASKED);
        } else {
            proof {
                assert((gj + 1) * hd <= (ks + kl) * hd) by (nonlinear_arith)
                    requires gj < ks + kl, hd >= 0;
                assert((gi + 1) * hd == gi * hd + hd) by (nonlinear_arith);
                assert((gj + 1) * hd == gj * hd + hd) by (nonlinear_arith);
                assert(dot_i8_fits(q@, gi * hd, k@, gj * hd, hd as nat));
            }
            let dot = row_dot(q, gi * hd, k, gj * hd, hd);
            let sh: i32 = dot >> 3i32;
            proof {
                assert(sh == dot / 8) by (bit_vector)
                    requires sh == dot >> 3i32;
                vstd::arithmetic::power2::lemma2_to64();
                assert(sh << 16i32 == ((sh as i64) * 65536) as i32) by (bit_vector);
            }
            r.push(sh << 16i32);
        }
        j += 1;
    }
    r
}

/// The state of a row held in exec values.
pub open spec fn row_state(m: i32, l: i32, row: Seq<i8>) -> RowState {
    (m as int, l as int, row.map_values(|x: i8| x as int))
}

/// Runs one key tile over a query row: returns the new maximum and
/// denominator and updates the output row.
fn tile_step(
    m: i32,
    l: i32,
    row: &mut Vec<i8>,
    q: &[i8],
    k: &[i8],
    v: &[i8],
    gi: usize,
    ks: usize,
    kl: usize,
    hd: usize,
) -> (r: (i32, i32))
    requires
        hd > 0,
        old(row)@.len() == hd,
        l >= 0,
        ks + kl <= k.len(),
        (gi + 1) * hd <= q.len(),
        (ks + kl) * hd <= k.len(),
        (ks + kl) * hd <= v.len(),
        forall|gj: int| 0 <= gj <= gi ==> #[trigger] dot_i8_fits(q@, gi * hd, k@, gj * hd, hd as nat),
        att_step_ok(row_state(m, l, old(row)@), q@, k@, v@, gi as int, ks as int, kl as nat, hd as int),
    ensures
        row_state(r.0, r.1, final(row)@) == att_step(
            row_state(m, l, old(row)@),
            q@,
            k@,
            v@,
            gi as int,
            ks as int,
            kl as nat,
            hd as int,
        ),
        r.1 >= 0,
        final(row)@.len() == hd,
{
    let ghost st = row_state(m, l, row@);
    let scores = tile_scores(q, k, gi, ks, kl, hd);
    proof {
        lemma_tile_max(q@, k@, gi as int, ks as int, kl as nat, hd as int);
    }
    let mut mij: i32 = i32::MIN;
    let mut j: usize = 0;
    while j < kl
        invariant
            scores@.len() == kl,
            forall|j2: int| 0 <= j2 < kl ==> #[trigger] scores@[j2] == tile_score(q@, k@, gi as int, ks + j2, hd as int),
            j <= kl,
            ks + kl <= k.len(),
            mij == tile_max(q@, k@, gi as int, ks as int, j as nat, hd as int),
        decreases kl - j,
    {
        if ks + j <= gi && scores[j] > mij {
            mij = scores[j];
        }
        j += 1;
    }
    if kl == 0 || ks > gi {
        return (m, l);
    }
    let ghost mt = tile_max(q@, k@, gi as int, ks as int, kl as nat, hd as int);
    let m_new: i32 = if m > mij { m } else { mij };
    assert(m_new as int == new_max(m as int, mt));
    let ed = exp_of_diff(m, m_new);
    proof {
        lemma_exp_q16_nonpos(m - m_new);
        assert(0 <= l as i64 * ed as i64 <= l as i64 * 65536) by (nonlinear_arith)
            requires l >= 0, 0 <= ed <= 65536;
    }
    let le: i64 = l as i64 * ed as i64;
    proof {
        lemma_i64_shr16(le);
    }
    let l1: i32 = (le >> 16u64) as i32;
    proof {
        assert(0 <= l1 <= l);
        lemma_weight_sum(q@, k@, gi as int, ks as int, kl as nat, hd as int, m_new as int);
    }
    let mut l_new: i32 = l1;
    let mut p: Vec<i32> = Vec::new();
    let mut j2: usize = 0;
    while j2 < kl
        invariant
            scores@.len() == kl,
            forall|j3: int| 0 <= j3 < kl ==> #[trigger] scores@[j3] == tile_score(q@, k@, gi as int, ks + j3, hd as int),
            ks + kl <= k.len(),
            forall|j3: int| 0 <= j3 < kl && ks + j3 <= gi ==> #[trigger] tile_score(q@, k@, gi as int, ks + j3, hd as int) <= m_new,
            forall|n2: nat|
                n2 <= kl ==> #[trigger] tile_weight_sum(q@, k@, gi as int, ks as int, n2, hd as int, m_new as int)
                    <= tile_weight_sum(q@, k@, gi as int, ks as int, kl as nat, hd as int, m_new as int),
            0 <= tile_weight_sum(q@, k@, gi as int, ks as int, j2 as nat, hd as int, m_new as int),
            l1 + tile_weight_sum(q@, k@, gi as int, ks as int, kl as nat, hd as int, m_new as int) <= i32::MAX,
            0 <= l1,
            forall|j3: int| 0 <= j3 < kl ==> 0 <= #[trigger] tile_weight(q@, k@, gi as int, ks + j3, hd as int, m_new as int) <= 65536,
            j2 <= kl,
            p@.len() == j2,
            forall|j3: int| 0 <= j3 < j2 ==> #[trigger] p@[j3] == tile_weight(q@, k@, gi as int, ks + j3, hd as int, m_new as int),
            l_new == l1 + tile_weight_sum(q@, k@, gi as int, ks as int, j2 as nat, hd as int, m_new as int),
        decreases kl - j2,
    {
        let sc = scores[j2];
        assert(sc == tile_score(q@, k@, gi as int, ks + j2, hd as int));
        let w = if ks + j2 > gi { 0 } else { exp_of_diff(sc, m_new) };
        proof {
            assert(w == tile_weight(q@, k@, gi as int, ks + j2, hd as int, m_new as int));
            assert(tile_weight_sum(q@, k@, gi as int, ks as int, (j2 + 1) as nat, hd as int, m_new as int)
                <= tile_weight_sum(q@, k@, gi as int, ks as int, kl as nat, hd as int, m_new as int));
        }
        p.push(w);
        l_new = l_new + w;
        j2 += 1;
    }
    let ghost old_row = row@;
    proof {
        assert(ks + kl <= (ks + kl) * hd) by (nonlinear_arith)
            requires hd > 0;
        assert forall|j3: int| 0 <= j3 < kl implies 0 <= #[trigger] p@[j3] <= 65536 by {
            assert(p@[j3] == tile_weight(q@, k@, gi as int, ks + j3, hd as int, m_new as int));
        }
    }
    let mut d: usize = 0;
    while d < hd
        invariant
            hd > 0,
            row@.len() == hd,
            old_row.len() == hd,
            st == row_state(m, l, old_row),
            att_step_ok(st, q@, k@, v@, gi as int, ks as int, kl as nat, hd as int),
            mt == tile_max(q@, k@, gi as int, ks as int, kl as nat, hd as int),
            tile_live(gi as int, ks as int, kl as nat),
            m_new as int == new_max(m as int, mt),
            ed as int == exp_q16(m - m_new),
            0 <= ed <= 65536,
            (ks + kl) * hd <= v.len(),
            ks + kl <= v.len(),
            p@.len() == kl,
            forall|j3: int| 0 <= j3 < kl ==> #[trigger] p@[j3] == tile_weight(q@, k@, gi as int, ks + j3, hd as int, m_new as int),
            forall|j3: int| 0 <= j3 < kl ==> 0 <= #[trigger] p@[j3] <= 65536,
            d <= hd,
            forall|d2: int| 0 <= d2 < d ==> #[trigger] row@[d2] as int == step_out(
                old_row[d2] as int,
                ed as int,
                tile_pv(q@, k@, v@, gi as int, ks as int, kl as nat, hd as int, m_new as int, d2),
            ),
            forall|d2: int| d <= d2 < hd ==> #[trigger] row@[d2] == old_row[d2],
        decreases hd - d,
    {
        let o = row[d] as i64;
        proof {
            assert(-0x80_0000 <= o * ed <= 0x80_0000) by (nonlinear_arith)
                requires -128 <= o < 128, 0 <= ed <= 65536;
        }
        let oe: i64 = o * ed as i64;
        proof {
            lemma_i64_shr16(oe);
        }
        let scaled: i32 = (oe >> 16u64) as i32;
        let mut pv: i64 = 0;
        let mut j3: usize = 0;
        while j3 < kl
            invariant
                hd > 0,
                d < hd,
                (ks + kl) * hd <= v.len(),
                ks + kl <= v.len(),
                att_step_ok(st, q@, k@, v@, gi as int, ks as int, kl as nat, hd as int),
                mt == tile_max(q@, k@, gi as int, ks as int, kl as nat, hd as int),
                tile_live(gi as int, ks as int, kl as nat),
                m_new as int == new_max(m as int, mt),
                m as int == st.0,
                p@.len() == kl,
                forall|j4: int| 0 <= j4 < kl ==> 0 <= #[trigger] p@[j4] <= 65536,
                forall|j4: int| 0 <= j4 < kl ==> #[trigger] p@[j4] == tile_weight(q@, k@, gi as int, ks + j4, hd as int, m_new as int),
                j3 <= kl,
                pv == tile_pv(q@, k@, v@, gi as int, ks as int, j3 as nat, hd as int, m_new as int, d as int),
            decreases kl - j3,
        {
            let w = p[j3];
            if w > 0 {
                proof {
                    assert((ks + j3) * hd + d < (ks + kl) * hd) by (nonlinear_arith)
                        requires j3 < kl, d < hd, hd > 0;
                    assert(0 <= (ks + j3) * hd) by (nonlinear_arith)
                        requires hd > 0;
                    assert(i64::MIN <= tile_pv(q@, k@, v@, gi as int, ks as int, (j3 + 1) as nat, hd as int, m_new as int, d as int) <= i64::MAX);
                }
                let idx = (ks + j3) * hd + d;
                proof {
                    assert(-0x80_0000 <= w as i64 * v@[idx as int] as i64 <= 0x80_0000) by (nonlinear_arith)
                        requires 0 <= w <= 65536, -128 <= v@[idx as int] < 128;
                }
                pv = pv + w as i64 * v[idx] as i64;
            }
            j3 += 1;
        }
        proof {
            lemma_i64_shr16(pv);
            assert(i32::MIN <= (shr(st.2[d as int] * ed, 16) as i32) as int + (shr(
                tile_pv(q@, k@, v@, gi as int, ks as int, kl as nat, hd as int, m_new as int, d as int),
                16,
            ) as i32) as int <= i32::MAX);
            assert(st.2[d as int] == o);
        }
        let new_val: i32 = scaled + (pv >> 16u64) as i32;
        let c = clamp_i32(new_val, -128, 127);
        row.set(d, c as i8);
        d += 1;
    }
    proof {
        let want = att_step(st, q@, k@, v@, gi as int, ks as int, kl as nat, hd as int);
        assert(row_state(m_new, l_new, row@).2 =~= want.2);
    }
    (m_new, l_new)
}

proof fn lemma_fold_state(
    q: Seq<i8>,
    k: Seq<i8>,
    v: Seq<i8>,
    gi: int,
    hd: int,
    seq_len: int,
    tile: int,
    ntk: nat,
)
    requires
        hd >= 0,
    ensures
        att_fold(q, k, v, gi, hd, seq_len, tile, ntk).2.len() == hd,
    decreases ntk,
{
    if ntk > 0 {
        lemma_fold_state(q, k, v, gi, hd, seq_len, tile, (ntk - 1) as nat);
    }
}

impl IntegerTiledAttention {
    /// Causal attention of `seq_len` int8 query rows over as many key and
    /// value rows, `head_dim` wide, with the keys taken in tiles of
    /// `tile_size`: scores are dot products (shifted right by 3, in Q16.16),
    /// keys after the query are masked out whatever the scores, and the
    /// softmax is computed online across the key tiles with the integer
    /// exponential, the running output of each row kept in int8.
    /// Each output row is finally divided by the integer part of its softmax
    /// denominator.
    pub fn compute_attention_i8(
        q: &[i8],
        k: &[i8],
        v: &[i8],
        seq_len: usize,
        head_dim: usize,
        tile_size: usize,
    ) -> (r: Vec<i8>)
        requires
            0 < tile_size * head_dim <= usize::MAX,
            seq_len * head_dim <= usize::MAX,
            num_tiles(seq_len as int, tile_size as int) * tile_size <= usize::MAX,
            seq_len > 0 ==> crate::arith::min(tile_size as int, seq_len as int) * tile_size <= usize::MAX,
            q@.len() >= seq_len * head_dim,
            k@.len() >= seq_len * head_dim,
            v@.len() >= seq_len * head_dim,
            forall|gi: int, gj: int|
                0 <= gj <= gi < seq_len ==> #[trigger] dot_i8_fits(
                    q@,
                    gi * head_dim,
                    k@,
                    gj * head_dim,
                    head_dim as nat,
                ),
            forall|gi: int|
                0 <= gi < seq_len ==> #[trigger] att_fold_ok(
                    q@,
                    k@,
                    v@,
                    gi,
                    head_dim as int,
                    seq_len as int,
                    tile_size as int,
                    num_tiles(seq_len as int, tile_size as int) as nat,
                ),
        ensures
            r@.len() == seq_len * head_dim,
            forall|gi: int, d: int|
                0 <= gi < seq_len && 0 <= d < head_dim ==> #[trigger] r@[gi * head_dim + d] as int
                    == att_row_out(q@, k@, v@, gi, head_dim as int, seq_len as int, tile_size as int)[d],
    {
        let hd = head_dim;
        let tile = tile_size;
        proof {
            assert(hd > 0 && tile > 0) by (nonlinear_arith)
                requires 0 < tile_size * head_dim, hd == head_dim, tile == tile_size;
        }
        let mut ntk: usize = seq_len / tile;
        if seq_len % tile != 0 {
            proof {
                assert(seq_len / tile < seq_len) by (nonlinear_arith)
                    requires tile > 1, seq_len > 0;
            }
            ntk = ntk + 1;
        }
        proof {
            assert(ntk == num_tiles(seq_len as int, tile as int)) by (nonlinear_arith)
                requires tile > 0, ntk == seq_len / tile + if seq_len % tile != 0 { 1int } else { 0int };
            assert forall|a: int| 0 <= a < seq_len implies #[trigger] att_fold_ok(
                q@,
                k@,
                v@,
                a,
                hd as int,
                seq_len as int,
                tile as int,
                ntk as nat,
            ) by {
                assert(att_fold_ok(
                    q@,
                    k@,
                    v@,
                    a,
                    head_dim as int,
                    seq_len as int,
                    tile_size as int,
                    num_tiles(seq_len as int, tile_size as int) as nat,
                ));
            }
        }
        let ghost qs = q@;
        let ghost ks_ = k@;
        let ghost vs = v@;
        let mut output: Vec<i8> = Vec::new();
        let mut gi: usize = 0;
        while gi < seq_len
            invariant
                hd == head_dim,
                tile == tile_size,
                hd > 0,
                tile > 0,
                seq_len * hd <= usize::MAX,
                ntk == num_tiles(seq_len as int, tile as int),
                ntk * tile <= usize::MAX,
                q@.len() >= seq_len * hd,
                k@.len() >= seq_len * hd,
                v@.len() >= seq_len * hd,
                forall|a: int, b: int|
                    0 <= b <= a < seq_len ==> #[trigger] dot_i8_fits(q@, a * hd, k@, b * hd, hd as nat),
                forall|a: int|
                    0 <= a < seq_len ==> #[trigger] att_fold_ok(
                        q@,
                        k@,
                        v@,
                        a,
                        hd as int,
                        seq_len as int,
                        tile as int,
                        ntk as nat,
                    ),
                gi <= seq_len,
                output@.len() == gi * hd,
                forall|a: int, d: int|
                    0 <= a < gi && 0 <= d < hd ==> #[trigger] output@[a * hd + d] as int == att_row_out(
                        q@,
                        k@,
                        v@,
                        a,
                        hd as int,
                        seq_len as int,
                        tile as int,
                    )[d],
            decreases seq_len - gi,
        {
            proof {
                assert((gi + 1) * hd <= seq_len * hd) by (nonlinear_arith)
                    requires gi < seq_len, hd > 0;
                assert(seq_len <= seq_len * hd) by (nonlinear_arith)
                    requires hd > 0;
            }
            let mut m: i32 = i32::MIN;
            let mut l: i32 = 0;
            let mut row: Vec<i8> = Vec::new();
            let mut d0: usize = 0;
            while d0 < hd
                invariant
                    d0 <= hd,
                    row@.len() == d0,
                    forall|d2: int| 0 <= d2 < d0 ==> #[trigger] row@[d2] == 0,
                decreases hd - d0,
            {
                row.push(0);
                d0 += 1;
            }
            proof {
                assert(row_state(m, l, row@) =~= att_fold(q@, k@, v@, gi as int, hd as int, seq_len as int, tile as int, 0));
            }
            let mut tk: usize = 0;
            while tk < ntk
                invariant
                    hd == head_dim,
                    tile == tile_size,
                    hd > 0,
                    tile > 0,
                    gi < seq_len,
                    (gi + 1) * hd <= seq_len * hd,
                    seq_len <= seq_len * hd,
                    ntk == num_tiles(seq_len as int, tile as int),
                    ntk * tile <= usize::MAX,
                    q@.len() >= seq_len * hd,
                    k@.len() >= seq_len * hd,
                    v@.len() >= seq_len * hd,
                    forall|b: int| 0 <= b <= gi ==> #[trigger] dot_i8_fits(q@, gi * hd, k@, b * hd, hd as nat),
                    att_fold_ok(q@, k@, v@, gi as int, hd as int, seq_len as int, tile as int, ntk as nat),
                    tk <= ntk,
                    row@.len() == hd,
                    l >= 0,
                    row_state(m, l, row@) == att_fold(
                        q@,
                        k@,
                        v@,
                        gi as int,
                        hd as int,
                        seq_len as int,
                        tile as int,
                        tk as nat,
                    ),
                decreases ntk - tk,
            {
                proof {
                    assert(tk * tile + tile <= ntk * tile) by (nonlinear_arith)
                        requires tk < ntk, tile > 0;
                    assert(tk * tile < seq_len) by (nonlinear_arith)
                        requires tk < ntk, ntk == (seq_len + tile - 1) / (tile as int), tile > 0;
                    lemma_fold_ok_prefix(q@, k@, v@, gi as int, hd as int, seq_len as int, tile as int, ntk as nat, (tk + 1) as nat);
                }
                let ks = tk * tile;
                let kl = if tile <= seq_len - ks { tile } else { seq_len - ks };
                proof {
                    assert(kl as int == tile_len(seq_len as int, tile as int, tk as int));
                    assert((ks + kl) * hd <= seq_len * hd) by (nonlinear_arith)
                        requires ks + kl <= seq_len, hd > 0;
                }
                let (m2, l2) = tile_step(m, l, &mut row, q, k, v, gi, ks, kl, hd);
                m = m2;
                l = l2;
                tk += 1;
            }
            let ghost st = row_state(m, l, row@);
            let ghost before = row@;
            if l > 0 {
                proof {
                    lemma_i32_shr16_mask(l);
                }
                let scale: i32 = l >> 16i32;
                if scale > 0 {
                    let mut d: usize = 0;
                    while d < hd
                        invariant
                            row@.len() == hd,
                            before.len() == hd,
                            scale > 0,
                            d <= hd,
                            forall|d2: int| 0 <= d2 < d ==> #[trigger] row@[d2] as int == clamp(
                                tdiv(before[d2] as int, scale as int),
                                -128,
                                127,
                            ),
                            forall|d2: int| d <= d2 < hd ==> #[trigger] row@[d2] == before[d2],
                        decreases hd - d,
                    {
                        let item = row[d] as i32;
                        let c = clamp_i32(item / scale, -128, 127);
                        row.set(d, c as i8);
                        d += 1;
                    }
                }
            }
            proof {
                lemma_fold_state(q@, k@, v@, gi as int, hd as int, seq_len as int, tile as int, ntk as nat);
                let want = att_row_out(q@, k@, v@, gi as int, hd as int, seq_len as int, tile as int);
                assert forall|d2: int| 0 <= d2 < hd implies #[trigger] row@[d2] as int == want[d2] by {
                    assert(st.2[d2] == before[d2] as int);
                }
            }
            let mut d: usize = 0;
            let ghost out_before = output@;
            while d < hd
                invariant
                    row@.len() == hd,
                    output@.len() == gi * hd + d,
                    out_before.len() == gi * hd,
                    d <= hd,
                    forall|j: int| 0 <= j < gi * hd ==> #[trigger] output@[j] == out_before[j],
                    forall|d2: int| 0 <= d2 < d ==> #[trigger] output@[gi * hd + d2] == row@[d2],
                decreases hd - d,
            {
                output.push(row[d]);
                d += 1;
            }
            proof {
                assert forall|a: int, d2: int|
                    0 <= a < gi + 1 && 0 <= d2 < hd implies #[trigger] output@[a * hd + d2] as int == att_row_out(
                        q@,
                        k@,
                        v@,
                        a,
                        hd as int,
                        seq_len as int,
                        tile as int,
                    )[d2] by {
                    if a < gi {
                        assert(a * hd + d2 < gi * hd) by (nonlinear_arith)
                            requires a < gi, d2 < hd;
                        assert(0 <= a * hd) by (nonlinear_arith)
                            requires 0 <= a, hd > 0;
                        assert(output@[a * hd + d2] == out_before[a * hd + d2]);
                    } else {
                        assert(output@[gi * hd + d2] == row@[d2]);
                    }
                }
                assert((gi + 1) * hd == gi * hd + hd) by (nonlinear_arith);
            }
            gi += 1;
        }
        output
    }
}

proof fn lemma_fold_ok_prefix(
    q: Seq<i8>,
    k: Seq<i8>,
    v: Seq<i8>,
    gi: int,
    hd: int,
    seq_len: int,
    tile: int,
    ntk: nat,
    m: nat,
)
    requires
        att_fold_ok(q, k, v, gi, hd, seq_len, tile, ntk),
        m <= ntk,
    ensures
        att_fold_ok(q, k, v, gi, hd, seq_len, tile, m),
    decreases ntk - m,
{
    if m < ntk {
        lemma_fold_ok_prefix(q, k, v, gi, hd, seq_len, tile, (ntk - 1) as nat, m);
    }
}

// ---------------------------------------------------------------------------
// Causality
// ---------------------------------------------------------------------------

proof fn lemma_dot_prefix_eq(a: Seq<i8>, ao: int, b: Seq<i8>, b2: Seq<i8>, bo: int, n: nat)
    requires
        forall|t: int| bo <= t < bo + n ==> b[t] == b2[t],
    ensures
        dot_i8_at(a, ao, b, bo, n) == dot_i8_at(a, ao, b2, bo, n),
    decreases n,
{
    if n > 0 {
        lemma_dot_prefix_eq(a, ao, b, b2, bo, (n - 1) as nat);
    }
}

proof fn lemma_tile_max_eq(q: Seq<i8>, k: Seq<i8>, k2: Seq<i8>, gi: int, ks: int, n: nat, hd: int)
    requires
        forall|j: int| 0 <= j < n ==> #[trigger] tile_score(q, k, gi, ks + j, hd) == tile_score(q, k2, gi, ks + j, hd),
    ensures
        tile_max(q, k, gi, ks, n, hd) == tile_max(q, k2, gi, ks, n, hd),
    decreases n,
{
    if n > 0 {
        lemma_tile_max_eq(q, k, k2, gi, ks, (n - 1) as nat, hd);
        assert(tile_score(q, k, gi, ks + (n - 1), hd) == tile_score(q, k2, gi, ks + (n - 1), hd));
    }
}

proof fn lemma_weight_sum_eq(q: Seq<i8>, k: Seq<i8>, k2: Seq<i8>, gi: int, ks: int, n: nat, hd: int, m: int)
    requires
        forall|j: int| 0 <= j < n ==> #[trigger] tile_score(q, k, gi, ks + j, hd) == tile_score(q, k2, gi, ks + j, hd),
    ensures
        tile_weight_sum(q, k, gi, ks, n, hd, m) == tile_weight_sum(q, k2, gi, ks, n, hd, m),
    decreases n,
{
    if n > 0 {
        lemma_weight_sum_eq(q, k, k2, gi, ks, (n - 1) as nat, hd, m);
        assert(tile_score(q, k, gi, ks + (n - 1), hd) == tile_score(q, k2, gi, ks + (n - 1), hd));
    }
}

proof fn lemma_pv_eq(
    q: Seq<i8>,
    k: Seq<i8>,
    v: Seq<i8>,
    k2: Seq<i8>,
    v2: Seq<i8>,
    gi: int,
    ks: int,
    n: nat,
    hd: int,
    m: int,
    d: int,
)
    requires
        forall|j: int| 0 <= j < n ==> #[trigger] tile_score(q, k, gi, ks + j, hd) == tile_score(q, k2, gi, ks + j, hd),
        forall|j: int|
            0 <= j < n ==> tile_weight(q, k, gi, ks + j, hd, m) <= 0 || #[trigger] v[(ks + j) * hd + d] == v2[(ks + j)
                * hd + d],
    ensures
        tile_pv(q, k, v, gi, ks, n, hd, m, d) == tile_pv(q, k2, v2, gi, ks, n, hd, m, d),
    decreases n,
{
    if n > 0 {
        lemma_pv_eq(q, k, v, k2, v2, gi, ks, (n - 1) as nat, hd, m, d);
        assert(tile_score(q, k, gi, ks + (n - 1), hd) == tile_score(q, k2, gi, ks + (n - 1), hd));
        assert(tile_weight(q, k, gi, ks + (n - 1), hd, m) <= 0 || v[(ks + (n - 1)) * hd + d] == v2[(ks + (n - 1))
            * hd + d]);
    }
}

/// Row `gi` sees the same scores through `k` and `k2`, and the same values
/// through `v` and `v2` up to its own row.
pub open spec fn row_inputs_agree(
    q: Seq<i8>,
    k: Seq<i8>,
    v: Seq<i8>,
    k2: Seq<i8>,
    v2: Seq<i8>,
    gi: int,
    hd: int,
) -> bool {
    &&& forall|gj: int| 0 <= gj ==> #[trigger] tile_score(q, k, gi, gj, hd) == tile_score(q, k2, gi, gj, hd)
    &&& forall|gj: int, d: int|
        0 <= gj <= gi && 0 <= d < hd ==> #[trigger] v[gj * hd + d] == v2[gj * hd + d]
}

proof fn lemma_fold_eq(
    q: Seq<i8>,
    k: Seq<i8>,
    v: Seq<i8>,
    k2: Seq<i8>,
    v2: Seq<i8>,
    gi: int,
    hd: int,
    seq_len: int,
    tile: int,
    ntk: nat,
)
    requires
        row_inputs_agree(q, k, v, k2, v2, gi, hd),
        0 <= gi,
        hd >= 0,
        tile > 0,
    ensures
        att_fold(q, k, v, gi, hd, seq_len, tile, ntk) == att_fold(q, k2, v2, gi, hd, seq_len, tile, ntk),
    decreases ntk,
{
    if ntk > 0 {
        lemma_fold_eq(q, k, v, k2, v2, gi, hd, seq_len, tile, (ntk - 1) as nat);
        let st = att_fold(q, k, v, gi, hd, seq_len, tile, (ntk - 1) as nat);
        let ks = (ntk - 1) * tile;
        let kl = tile_len(seq_len, tile, ntk - 1) as nat;
        assert(ks >= 0) by (nonlinear_arith)
            requires ks == (ntk - 1) * tile, ntk >= 1, tile > 0;
        assert forall|j: int| 0 <= j < kl implies #[trigger] tile_score(q, k, gi, ks + j, hd) == tile_score(
            q,
            k2,
            gi,
            ks + j,
            hd,
        ) by {
            assert(tile_score(q, k, gi, ks + j, hd) == tile_score(q, k2, gi, ks + j, hd));
        }
        lemma_tile_max_eq(q, k, k2, gi, ks, kl, hd);
        let mij = tile_max(q, k, gi, ks, kl, hd);
        if tile_live(gi, ks, kl) {
            let m_new = new_max(st.0, mij);
            lemma_weight_sum_eq(q, k, k2, gi, ks, kl, hd, m_new);
            assert(st.2.len() == hd) by {
                lemma_fold_len(q, k, v, gi, hd, seq_len, tile, (ntk - 1) as nat);
            }
            assert forall|d: int| 0 <= d < st.2.len() implies tile_pv(q, k, v, gi, ks, kl, hd, m_new, d) == tile_pv(
                q,
                k2,
                v2,
                gi,
                ks,
                kl,
                hd,
                m_new,
                d,
            ) by {
                assert forall|j: int|
                    0 <= j < kl implies tile_weight(q, k, gi, ks + j, hd, m_new) <= 0 || #[trigger] v[(ks + j) * hd
                    + d] == v2[(ks + j) * hd + d] by {
                    if ks + j <= gi {
                        assert(v[(ks + j) * hd + d] == v2[(ks + j) * hd + d]);
                    }
                }
                lemma_pv_eq(q, k, v, k2, v2, gi, ks, kl, hd, m_new, d);
            }
            assert(att_step(st, q, k, v, gi, ks, kl, hd).2 =~= att_step(st, q, k2, v2, gi, ks, kl, hd).2);
        }
    }
}

proof fn lemma_fold_len(
    q: Seq<i8>,
    k: Seq<i8>,
    v: Seq<i8>,
    gi: int,
    hd: int,
    seq_len: int,
    tile: int,
    ntk: nat,
)
    requires
        hd >= 0,
    ensures
        att_fold(q, k, v, gi, hd, seq_len, tile, ntk).2.len() == hd,
    decreases ntk,
{
    if ntk > 0 {
        lemma_fold_len(q, k, v, gi, hd, seq_len, tile, (ntk - 1) as nat);
    }
}

/// Causal masking: output row `gi` does not depend on the key rows after it.
pub proof fn lemma_attention_ignores_later_keys(
    q: Seq<i8>,
    k: Seq<i8>,
    k2: Seq<i8>,
    v: Seq<i8>,
    gi: int,
    hd: int,
    seq_len: int,
    tile: int,
)
    requires
        0 <= gi < seq_len,
        hd >= 0,
        tile > 0,
        forall|t: int| 0 <= t < (gi + 1) * hd ==> k[t] == k2[t],
    ensures
        att_row_out(q, k, v, gi, hd, seq_len, tile) == att_row_out(q, k2, v, gi, hd, seq_len, tile),
{
    assert forall|gj: int| 0 <= gj implies #[trigger] tile_score(q, k, gi, gj, hd) == tile_score(q, k2, gi, gj, hd) by {
        if gj <= gi {
            assert(gj * hd + hd <= (gi + 1) * hd) by (nonlinear_arith)
                requires gj <= gi, hd >= 0;
            assert(0 <= gj * hd) by (nonlinear_arith)
                requires gj >= 0, hd >= 0;
            lemma_dot_prefix_eq(q, gi * hd, k, k2, gj * hd, hd as nat);
        }
    }
    lemma_fold_eq(q, k, v, k2, v, gi, hd, seq_len, tile, num_tiles(seq_len, tile) as nat);
}

/// Causal masking: output row `gi` does not depend on the value rows after it.
pub proof fn lemma_attention_ignores_later_values(
    q: Seq<i8>,
    k: Seq<i8>,
    v: Seq<i8>,
    v2: Seq<i8>,
    gi: int,
    hd: int,
    seq_len: int,
    tile: int,
)
    requires
        0 <= gi < seq_len,
        hd >= 0,
        tile > 0,
        forall|t: int| 0 <= t < (gi + 1) * hd ==> v[t] == v2[t],
    ensures
        att_row_out(q, k, v, gi, hd, seq_len, tile) == att_row_out(q, k, v2, gi, hd, seq_len, tile),
{
    assert forall|gj: int, d: int| 0 <= gj <= gi && 0 <= d < hd implies #[trigger] v[gj * hd + d] == v2[gj * hd
        + d] by {
        assert(0 <= gj * hd + d < (gi + 1) * hd) by (nonlinear_arith)
            requires 0 <= gj <= gi, 0 <= d < hd;
    }
    lemma_fold_eq(q, k, v, k, v2, gi, hd, seq_len, tile, num_tiles(seq_len, tile) as nat);
}

proof fn lemma_first_tile(q: Seq<i8>, k: Seq<i8>, v: Seq<i8>, n: nat, hd: int, m: int, d: int)
    requires
        n >= 1,
    ensures
        tile_max(q, k, 0, 0, n, hd) == tile_score(q, k, 0, 0, hd) as int,
        tile_weight_sum(q, k, 0, 0, n, hd, m) == exp_q16(tile_score(q, k, 0, 0, hd) - m),
        tile_pv(q, k, v, 0, 0, n, hd, m, d) == (if exp_q16(tile_score(q, k, 0, 0, hd) - m) > 0 {
            exp_q16(tile_score(q, k, 0, 0, hd) - m) * v[d]
        } else {
            0
        }),
    decreases n,
{
    if n > 1 {
        lemma_first_tile(q, k, v, (n - 1) as nat, hd, m, d);
        assert(tile_weight(q, k, 0, 0 + n - 1, hd, m) == 0);
    } else {
        assert(tile_max(q, k, 0, 0, 0, hd) == i32::MIN as int);
        assert(tile_weight_sum(q, k, 0, 0, 0, hd, m) == 0);
        assert(tile_pv(q, k, v, 0, 0, 0, hd, m, d) == 0);
        assert(tile_weight(q, k, 0, 0, hd, m) == exp_q16(tile_score(q, k, 0, 0, hd) - m));
    }
}

proof fn lemma_later_tiles_skip(
    q: Seq<i8>,
    k: Seq<i8>,
    v: Seq<i8>,
    hd: int,
    seq_len: int,
    tile: int,
    ntk: nat,
)
    requires
        ntk >= 1,
        tile > 0,
    ensures
        att_fold(q, k, v, 0, hd, seq_len, tile, ntk) == att_fold(q, k, v, 0, hd, seq_len, tile, 1),
    decreases ntk,
{
    if ntk > 1 {
        lemma_later_tiles_skip(q, k, v, hd, seq_len, tile, (ntk - 1) as nat);
        assert((ntk - 1) * tile >= tile) by (nonlinear_arith)
            requires ntk > 1, tile > 0;
    }
}

/// The first query row attends to the first key alone, so its output is the
/// first value row, whatever the queries and keys; in particular attention
/// over a single key returns that key's value.
pub proof fn lemma_first_row_is_first_value(
    q: Seq<i8>,
    k: Seq<i8>,
    v: Seq<i8>,
    hd: int,
    seq_len: int,
    tile: int,
)
    requires
        seq_len >= 1,
        tile > 0,
        hd >= 0,
    ensures
        forall|d: int| 0 <= d < hd ==> #[trigger] att_row_out(q, k, v, 0, hd, seq_len, tile)[d] == v[d] as int,
{
    let ntk = num_tiles(seq_len, tile);
    assert(ntk >= 1) by (nonlinear_arith)
        requires ntk == (seq_len + tile - 1) / tile, seq_len >= 1, tile > 0;
    lemma_later_tiles_skip(q, k, v, hd, seq_len, tile, ntk as nat);
    let s0 = tile_score(q, k, 0, 0, hd) as int;
    let kl = tile_len(seq_len, tile, 0) as nat;
    assert(kl >= 1);
    lemma_exp_q16_nonpos(0);
    vstd::arithmetic::power2::lemma2_to64();
    assert(shr(65536, 16) == 1) by {
        assert(vstd::arithmetic::power2::pow2(16) as int == 65536);
        assert(65536int / 65536int == 1);
    }
    let st0 = att_fold(q, k, v, 0, hd, seq_len, tile, 0);
    let st1 = att_fold(q, k, v, 0, hd, seq_len, tile, 1);
    lemma_first_tile(q, k, v, kl, hd, s0, 0);
    assert(tile_max(q, k, 0, 0, kl, hd) == s0);
    assert(new_max(st0.0, s0) == s0);
    let ed = exp_q16(st0.0 - s0);
    assert forall|d: int| 0 <= d < hd implies #[trigger] att_row_out(q, k, v, 0, hd, seq_len, tile)[d] == v[d] as int by {
        lemma_first_tile(q, k, v, kl, hd, s0, d);
        assert(tile_pv(q, k, v, 0, 0, kl, hd, s0, d) == 65536 * v[d]);
        assert(shr(0 * ed, 16) == 0) by {
            vstd::arithmetic::power2::lemma2_to64();
        }
        assert(shr(65536 * v[d], 16) == v[d]) by {
            vstd::arithmetic::power2::lemma2_to64();
            vstd::arithmetic::div_mod::lemma_div_multiples_vanish(v[d] as int, 65536);
        }
        assert(st1.2[d] == v[d]);
        assert(st1.1 == 65536) by {
            assert(shr(0 * ed, 16) == 0) by {
                vstd::arithmetic::power2::lemma2_to64();
            }
        }
    }
}

} // verus!
