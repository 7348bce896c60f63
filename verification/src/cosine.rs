use vstd::prelude::*;
use crate::arith::tdiv;

verus! {

/// `sum_{i < n} a[i] * b[i]`.
pub open spec fn dot_i8(a: Seq<i8>, b: Seq<i8>, n: nat) -> int
    decreases n,
{
    if n == 0 {
        0
    } else {
        dot_i8(a, b, (n - 1) as nat) + a[n - 1] * b[n - 1]
    }
}

/// The common length of two vectors: the shorter one's.
pub open spec fn common_len(a: Seq<i8>, b: Seq<i8>) -> nat {
    if a.len() <= b.len() {
        a.len()
    } else {
        b.len()
    }
}

/// Every partial sum of the dot product and of both squared norms over the
/// common length fits in `i32`.
pub open spec fn cosine_fits(a: Seq<i8>, b: Seq<i8>) -> bool {
    forall|m: nat|
        m <= common_len(a, b) ==> {
            &&& i32::MIN <= #[trigger] dot_i8(a, b, m) <= i32::MAX
            &&& dot_i8(a, a, m) <= i32::MAX
            &&& dot_i8(b, b, m) <= i32::MAX
        }
}

/// The squared cosine similarity with the sign of the dot product,
/// `sign(dot) * dot^2 / (|a|^2 * |b|^2)`, over the common length, rounded
/// toward zero and truncated to `i32`; 0 when either vector is zero.
pub open spec fn cosine_i8(a: Seq<i8>, b: Seq<i8>) -> i32 {
    let n = common_len(a, b);
    let d = dot_i8(a, b, n);
    let na = dot_i8(a, a, n);
    let nb = dot_i8(b, b, n);
    if na == 0 || nb == 0 {
        0
    } else {
        let sign = if d < 0 { -1int } else { 1int };
        let den = if na * nb > 1 { na * nb } else { 1 };
        tdiv(d * d * sign, den) as i32
    }
}

proof fn lemma_dot_i8_square(a: Seq<i8>, n: nat)
    ensures
        0 <= dot_i8(a, a, n),
    decreases n,
{
    if n > 0 {
        lemma_dot_i8_square(a, (n - 1) as nat);
        assert(a[n - 1] * a[n - 1] >= 0) by (nonlinear_arith);
    }
}

/// Calculates INT8 cosine similarity between two vectors.
pub fn cosine_similarity_i8(a: &[i8], b: &[i8]) -> (r: i32)
    requires
        cosine_fits(a@, b@),
    ensures
        r == cosine_i8(a@, b@),
{
    let mut dot: i32 = 0;
    let mut norm_a: i32 = 0;
    let mut norm_b: i32 = 0;
    let len = if a.len() < b.len() { a.len() } else { b.len() };
    let mut i: usize = 0;
    while i < len
        invariant
            len == common_len(a@, b@),
            cosine_fits(a@, b@),
            i <= len,
            dot == dot_i8(a@, b@, i as nat),
            norm_a == dot_i8(a@, a@, i as nat),
            norm_b == dot_i8(b@, b@, i as nat),
        decreases len - i,
    {
        let ai = a[i] as i32;
        let bi = b[i] as i32;
        proof {
            assert(-16384 <= ai * bi <= 16384) by (nonlinear_arith)
                requires -128 <= ai < 128, -128 <= bi < 128;
            assert(0 <= ai * ai <= 16384) by (nonlinear_arith)
                requires -128 <= ai < 128;
            assert(0 <= bi * bi <= 16384) by (nonlinear_arith)
                requires -128 <= bi < 128;
            assert(i32::MIN <= dot_i8(a@, b@, (i + 1) as nat) <= i32::MAX);
            assert(dot_i8(a@, a@, (i + 1) as nat) <= i32::MAX);
            assert(dot_i8(b@, b@, (i + 1) as nat) <= i32::MAX);
            lemma_dot_i8_square(a@, i as nat);
            lemma_dot_i8_square(b@, i as nat);
        }
        dot = dot + ai * bi;
        norm_a = norm_a + ai * ai;
        norm_b = norm_b + bi * bi;
        i += 1;
    }
    if norm_a == 0 || norm_b == 0 {
        return 0;
    }
    proof {
        lemma_dot_i8_square(a@, len as nat);
        lemma_dot_i8_square(b@, len as nat);
    }
    let sign: i64 = if dot < 0 { -1 } else { 1 };
    let d = dot as i64;
    proof {
        assert(0 <= d * d <= 0x4000_0000_0000_0000) by (nonlinear_arith)
            requires -0x8000_0000 <= d < 0x8000_0000;
        assert(0 < (norm_a as i64) * (norm_b as i64) <= 0x4000_0000_0000_0000) by (nonlinear_arith)
            requires 0 < norm_a < 0x8000_0000, 0 < norm_b < 0x8000_0000;
    }
    let num: i64 = d * d * sign;
    let prod: i64 = norm_a as i64 * norm_b as i64;
    let den: i64 = if prod > 1 { prod } else { 1 };
    let score: i64 = num / den;
    score as i32
}

/// Cosine similarity does not depend on the order of its arguments.
pub proof fn lemma_cosine_symmetric(a: Seq<i8>, b: Seq<i8>)
    ensures
        cosine_i8(a, b) == cosine_i8(b, a),
{
    let n = common_len(a, b);
    assert(common_len(b, a) == n);
    lemma_dot_i8_commutes(a, b, n);
    let na = dot_i8(a, a, n);
    let nb = dot_i8(b, b, n);
    assert(na * nb == nb * na) by (nonlinear_arith);
}

proof fn lemma_dot_i8_commutes(a: Seq<i8>, b: Seq<i8>, n: nat)
    ensures
        dot_i8(a, b, n) == dot_i8(b, a, n),
    decreases n,
{
    if n > 0 {
        lemma_dot_i8_commutes(a, b, (n - 1) as nat);
        assert(a[n - 1] * b[n - 1] == b[n - 1] * a[n - 1]) by (nonlinear_arith);
    }
}

} // verus!
