use vstd::prelude::*;
use crate::compute::{vec101_context, vec101_compute};
use vstd::wrapping::i32_specs::wrapping_add;
use crate::feeder::{pack_weights_to_superblocks, superblocks_to_bytes, superblock_stream, packs};
use crate::types::{QuantType, Vec101SuperBlock};

verus! {

/// Parameters for image-to-column conversion.
pub struct Im2ColParams<'a> {
    pub input: &'a [i8],
    pub batch_size: usize,
    pub in_channels: usize,
    pub height: usize,
    pub width: usize,
    pub kernel_h: usize,
    pub kernel_w: usize,
    pub stride: usize,
    pub padding: usize,
    pub padded_inner_dim: usize,
    pub output: &'a mut [i8],
}

/// Parameters for 2D convolution computation.
pub struct Conv2dParams<'a> {
    pub input: &'a [i8],
    pub packed_weights: &'a [Vec101SuperBlock],
    pub batch_size: usize,
    pub in_channels: usize,
    pub height: usize,
    pub width: usize,
    pub out_channels: usize,
    pub kernel_h: usize,
    pub kernel_w: usize,
    pub stride: usize,
    pub padding: usize,
    pub s_stream: &'a [i32],
    pub im2col_buffer: &'a mut [i8],
    pub out_buffer: &'a mut [i32],
}

/// Number of output positions along a dimension of `size` with the given
/// kernel, stride and padding.
pub open spec fn conv_out_dim(size: int, kernel: int, stride: int, padding: int) -> int {
    (size + 2 * padding - kernel) / stride + 1
}

/// The geometry of an image batch and its convolution.
pub struct ConvShape {
    pub batch_size: usize,
    pub in_channels: usize,
    pub height: usize,
    pub width: usize,
    pub kernel_h: usize,
    pub kernel_w: usize,
    pub stride: usize,
    pub padding: usize,
}

impl ConvShape {
    pub open spec fn out_h(&self) -> int {
        conv_out_dim(self.height as int, self.kernel_h as int, self.stride as int, self.padding as int)
    }

    pub open spec fn out_w(&self) -> int {
        conv_out_dim(self.width as int, self.kernel_w as int, self.stride as int, self.padding as int)
    }

    /// Number of values under one kernel position.
    pub open spec fn inner_dim(&self) -> int {
        self.in_channels * self.kernel_h * self.kernel_w
    }

    /// Number of kernel positions over the batch.
    pub open spec fn patches(&self) -> int {
        self.batch_size * self.out_h() * self.out_w()
    }

    /// The shapes [`im2col`] accepts: a positive stride, kernels that fit in
    /// the padded image, sizes that fit in the machine's integers, and an
    /// input holding the whole batch.
    pub open spec fn valid(&self, input_len: int) -> bool {
        &&& self.stride > 0
        &&& self.kernel_h <= self.height + 2 * self.padding <= isize::MAX
        &&& self.kernel_w <= self.width + 2 * self.padding <= isize::MAX
        &&& self.batch_size * self.in_channels * self.height * self.width <= input_len
        &&& self.in_channels * self.kernel_h <= usize::MAX
        &&& self.inner_dim() <= usize::MAX
    }

    /// Value `li` of the column for patch `p` (batch `p / (out_h * out_w)`,
    /// output row `(p / out_w) % out_h`, column `p % out_w`): for `li` below
    /// the inner dimension, the input pixel of channel `li / (kh * kw)` under
    /// kernel position `((li / kw) % kh, li % kw)`, or 0 where it falls
    /// in the padding; 0 past the inner dimension.
    pub open spec fn column_value(&self, input: Seq<i8>, p: int, li: int) -> i8 {
        let b = p / (self.out_h() * self.out_w());
        let oh = (p / self.out_w()) % self.out_h();
        let ow = p % self.out_w();
        let khw = self.kernel_h * self.kernel_w;
        if li < self.inner_dim() {
            let c = li / khw;
            let kh = (li / (self.kernel_w as int)) % (self.kernel_h as int);
            let kw = li % (self.kernel_w as int);
            let ih = oh * self.stride + kh - self.padding;
            let iw = ow * self.stride + kw - self.padding;
            if 0 <= ih < self.height && 0 <= iw < self.width {
                input[b * (self.in_channels * self.height * self.width) + c * (self.height * self.width) + ih
                    * self.width + iw]
            } else {
                0
            }
        } else {
            0
        }
    }
}

/// Position `p` of a grid of `n1 x n2` cells numbered row by row from
/// `(a, x, y)` blocks: its block, row and column come back by division.
proof fn lemma_decompose3(p: int, a: int, x: int, y: int, n1: int, n2: int)
    requires
        0 <= a,
        0 <= x < n1,
        0 <= y < n2,
        p == (a * n1 + x) * n2 + y,
    ensures
        p / (n1 * n2) == a,
        (p / n2) % n1 == x,
        p % n2 == y,
        p / n2 == a * n1 + x,
{
    vstd::arithmetic::div_mod::lemma_fundamental_div_mod_converse(p, n2, a * n1 + x, y);
    vstd::arithmetic::div_mod::lemma_fundamental_div_mod_converse(a * n1 + x, n1, a, x);
    assert(p == a * (n1 * n2) + (x * n2 + y)) by (nonlinear_arith)
        requires p == (a * n1 + x) * n2 + y;
    assert(0 <= x * n2 + y < n1 * n2) by (nonlinear_arith)
        requires 0 <= x < n1, 0 <= y < n2;
    vstd::arithmetic::div_mod::lemma_fundamental_div_mod_converse(p, n1 * n2, a, x * n2 + y);
}

#[verifier::loop_isolation(false)]
fn im2col_into(
    input: &[i8],
    batch_size: usize,
    in_channels: usize,
    height: usize,
    width: usize,
    kernel_h: usize,
    kernel_w: usize,
    stride: usize,
    padding: usize,
    padded_inner_dim: usize,
    output: &mut [i8],
)
    requires
        (ConvShape { batch_size, in_channels, height, width, kernel_h, kernel_w, stride, padding }).valid(
            input@.len() as int,
        ),
        padded_inner_dim >= (ConvShape { batch_size, in_channels, height, width, kernel_h, kernel_w, stride, padding }).inner_dim(),
        old(output)@.len() == (ConvShape { batch_size, in_channels, height, width, kernel_h, kernel_w, stride, padding }).patches()
            * padded_inner_dim,
    ensures
        final(output)@.len() == old(output)@.len(),
        forall|j: int|
            0 <= j < old(output)@.len() ==> #[trigger] final(output)@[j] == (ConvShape {
                batch_size,
                in_channels,
                height,
                width,
                kernel_h,
                kernel_w,
                stride,
                padding,
            }).column_value(input@, j / (padded_inner_dim as int), j % (padded_inner_dim as int)),
{
    let ghost sh = ConvShape { batch_size, in_channels, height, width, kernel_h, kernel_w, stride, padding };
    let ghost pid = padded_inner_dim as int;
    let out_h = (height + 2 * padding - kernel_h) / stride + 1;
    let out_w = (width + 2 * padding - kernel_w) / stride + 1;
    let olen = output.len();
    let ilen = input.len();
    assert(out_h == sh.out_h() && out_w == sh.out_w());
    proof {
        assert(out_h * stride <= height + 2 * padding - kernel_h + stride) by (nonlinear_arith)
            requires out_h == (height + 2 * padding - kernel_h) / (stride as int) + 1, stride > 0, kernel_h <= height + 2 * padding;
        assert(out_w * stride <= width + 2 * padding - kernel_w + stride) by (nonlinear_arith)
            requires out_w == (width + 2 * padding - kernel_w) / (stride as int) + 1, stride > 0, kernel_w <= width + 2 * padding;
    }
    let mut out_idx: usize = 0;
    let ghost mut pi: int = 0;
    let mut b: usize = 0;
    proof {
        assert(0 * out_h * out_w == 0) by (nonlinear_arith);
    }
    while b < batch_size
        invariant
            output@.len() == olen,
            b <= batch_size,
            pi == b * out_h * out_w,
            out_idx == pi * padded_inner_dim,
            forall|j: int| 0 <= j < out_idx ==> #[trigger] output@[j] == sh.column_value(input@, j / pid, j % pid),
        decreases batch_size - b,
    {
        let mut oh: usize = 0;
        while oh < out_h
            invariant
                output@.len() == olen,
                b < batch_size,
                oh <= out_h,
                pi == (b * out_h + oh) * out_w,
                out_idx == pi * padded_inner_dim,
                forall|j: int| 0 <= j < out_idx ==> #[trigger] output@[j] == sh.column_value(input@, j / pid, j % pid),
            decreases out_h - oh,
        {
            let mut ow: usize = 0;
            while ow < out_w
                invariant
                    output@.len() == olen,
                    b < batch_size,
                    oh < out_h,
                    ow <= out_w,
                    pi == (b * out_h + oh) * out_w + ow,
                    out_idx == pi * padded_inner_dim,
                    forall|j: int| 0 <= j < out_idx ==> #[trigger] output@[j] == sh.column_value(input@, j / pid, j % pid),
                decreases out_w - ow,
            {
                proof {
                    lemma_decompose3(pi, b as int, oh as int, ow as int, out_h as int, out_w as int);
                    assert(pi < sh.patches()) by (nonlinear_arith)
                        requires pi == (b * out_h + oh) * out_w + ow, b < batch_size, oh < out_h, ow < out_w,
                            sh.patches() == batch_size * out_h * out_w;
                    assert((pi + 1) * padded_inner_dim <= olen) by (nonlinear_arith)
                        requires pi < sh.patches(), olen == sh.patches() * padded_inner_dim;
                }
                let mut local: usize = 0;
                let mut c: usize = 0;
                while c < in_channels
                    invariant
                        output@.len() == olen,
                        c <= in_channels,
                        local == c * kernel_h * kernel_w,
                        out_idx == pi * padded_inner_dim + local,
                        forall|j: int| 0 <= j < out_idx ==> #[trigger] output@[j] == sh.column_value(input@, j / pid, j % pid),
                    decreases in_channels - c,
                {
                    let mut kh: usize = 0;
                    while kh < kernel_h
                        invariant
                            output@.len() == olen,
                            c < in_channels,
                            kh <= kernel_h,
                            local == (c * kernel_h + kh) * kernel_w,
                            out_idx == pi * padded_inner_dim + local,
                            forall|j: int| 0 <= j < out_idx ==> #[trigger] output@[j] == sh.column_value(input@, j / pid, j % pid),
                        decreases kernel_h - kh,
                    {
                        let mut kw: usize = 0;
                        while kw < kernel_w
                            invariant
                                output@.len() == olen,
                                c < in_channels,
                                kh < kernel_h,
                                kw <= kernel_w,
                                local == (c * kernel_h + kh) * kernel_w + kw,
                                out_idx == pi * padded_inner_dim + local,
                                forall|j: int| 0 <= j < out_idx ==> #[trigger] output@[j] == sh.column_value(input@, j / pid, j % pid),
                            decreases kernel_w - kw,
                        {
                            proof {
                                assert(local < sh.inner_dim()) by (nonlinear_arith)
                                    requires local == (c * kernel_h + kh) * kernel_w + kw, c < in_channels, kh < kernel_h,
                                        kw < kernel_w, sh.inner_dim() == in_channels * kernel_h * kernel_w;
                                lemma_decompose3(local as int, c as int, kh as int, kw as int, kernel_h as int, kernel_w as int);
                                assert(oh * stride + kh < height + 2 * padding) by (nonlinear_arith)
                                    requires oh < out_h, kh < kernel_h, out_h * stride <= height + 2 * padding - kernel_h + stride,
                                        stride > 0;
                                assert(ow * stride + kw < width + 2 * padding) by (nonlinear_arith)
                                    requires ow < out_w, kw < kernel_w, out_w * stride <= width + 2 * padding - kernel_w + stride,
                                        stride > 0;
                                crate::arith::lemma_row_col(out_idx as int, pi, pid);
                                assert(out_idx < olen) by (nonlinear_arith)
                                    requires out_idx == pi * padded_inner_dim + local, local < padded_inner_dim,
                                        (pi + 1) * padded_inner_dim <= olen;
                            }
                            let ih: isize = (oh * stride + kh) as isize - padding as isize;
                            let iw: isize = (ow * stride + kw) as isize - padding as isize;
                            let val: i8 = if ih >= 0 && ih < height as isize && iw >= 0 && iw < width as isize {
                                let ihu = ih as usize;
                                let iwu = iw as usize;
                                proof {
                                    let chw = in_channels * height * width;
                                    assert(b * (in_channels * height * width) + c * (height * width) + ihu * width + iwu
                                        < batch_size * in_channels * height * width) by (nonlinear_arith)
                                        requires b < batch_size, c < in_channels, ihu < height, iwu < width;
                                    assert(0 <= b * (in_channels * height * width)) by (nonlinear_arith);
                                    assert(0 <= c * (height * width)) by (nonlinear_arith);
                                    assert(0 <= ihu * width) by (nonlinear_arith);
                                    assert(in_channels * height * width <= batch_size * in_channels * height * width) by (nonlinear_arith)
                                        requires b < batch_size;
                                    assert(height * width <= in_channels * height * width) by (nonlinear_arith)
                                        requires c < in_channels;
                                    assert(b * (in_channels * height * width) <= batch_size * in_channels * height * width) by (nonlinear_arith)
                                        requires b < batch_size;
                                    assert(c * (height * width) <= in_channels * height * width) by (nonlinear_arith)
                                        requires c < in_channels;
                                    assert(ihu * width <= height * width) by (nonlinear_arith)
                                        requires ihu < height;
                                    assert(in_channels * height <= in_channels * height * width) by (nonlinear_arith)
                                        requires iwu < width;
                                    assert(batch_size * in_channels * height * width <= ilen);
                                }
                                let chw = in_channels * height * width;
                                let hw = height * width;
                                let in_idx = b * chw + c * hw + ihu * width + iwu;
                                input[in_idx]
                            } else {
                                0
                            };
                            output[out_idx] = val;
                            out_idx += 1;
                            local += 1;
                            kw += 1;
                        }
                        proof {
                            assert((c * kernel_h + kh + 1) * kernel_w == (c * kernel_h + kh) * kernel_w + kernel_w) by (nonlinear_arith);
                        }
                        kh += 1;
                    }
                    proof {
                        assert((c + 1) * kernel_h * kernel_w == (c * kernel_h + kernel_h) * kernel_w) by (nonlinear_arith);
                    }
                    c += 1;
                }
                while local < padded_inner_dim
                    invariant
                        output@.len() == olen,
                        (pi + 1) * padded_inner_dim <= olen,
                        sh.inner_dim() <= local <= padded_inner_dim,
                        out_idx == pi * padded_inner_dim + local,
                        forall|j: int| 0 <= j < out_idx ==> #[trigger] output@[j] == sh.column_value(input@, j / pid, j % pid),
                    decreases padded_inner_dim - local,
                {
                    proof {
                        crate::arith::lemma_row_col(out_idx as int, pi, pid);
                        assert(out_idx < olen) by (nonlinear_arith)
                            requires out_idx == pi * padded_inner_dim + local, local < padded_inner_dim,
                                (pi + 1) * padded_inner_dim <= olen;
                    }
                    output[out_idx] = 0;
                    out_idx += 1;
                    local += 1;
                }
                proof {
                    assert((pi + 1) * padded_inner_dim == pi * padded_inner_dim + padded_inner_dim) by (nonlinear_arith);
                }
                proof {
                    pi = pi + 1;
                }
                ow += 1;
            }
            proof {
                assert((b * out_h + oh + 1) * out_w == (b * out_h + oh) * out_w + out_w) by (nonlinear_arith);
            }
            oh += 1;
        }
        proof {
            assert((b + 1) * out_h * out_w == (b * out_h + out_h) * out_w) by (nonlinear_arith);
        }
        b += 1;
    }
}

/// Converts a 4D image tensor into a 2D column matrix, with native padding for vec101 SuperBlocks:
/// column `p` (one per kernel position, batch-major, then row and column of the
/// output) is written to `output[p * padded_inner_dim..]`, its value `li` being
/// [`ConvShape::column_value`].
pub fn im2col(p: Im2ColParams<'_>)
    requires
        (ConvShape {
            batch_size: p.batch_size,
            in_channels: p.in_channels,
            height: p.height,
            width: p.width,
            kernel_h: p.kernel_h,
            kernel_w: p.kernel_w,
            stride: p.stride,
            padding: p.padding,
        }).valid(p.input@.len() as int),
        p.padded_inner_dim >= (ConvShape {
            batch_size: p.batch_size,
            in_channels: p.in_channels,
            height: p.height,
            width: p.width,
            kernel_h: p.kernel_h,
            kernel_w: p.kernel_w,
            stride: p.stride,
            padding: p.padding,
        }).inner_dim(),
        old(p.output)@.len() == (ConvShape {
            batch_size: p.batch_size,
            in_channels: p.in_channels,
            height: p.height,
            width: p.width,
            kernel_h: p.kernel_h,
            kernel_w: p.kernel_w,
            stride: p.stride,
            padding: p.padding,
        }).patches() * p.padded_inner_dim,
    ensures
        final(p.output)@.len() == old(p.output)@.len(),
        forall|j: int|
            0 <= j < old(p.output)@.len() ==> #[trigger] final(p.output)@[j] == (ConvShape {
                batch_size: p.batch_size,
                in_channels: p.in_channels,
                height: p.height,
                width: p.width,
                kernel_h: p.kernel_h,
                kernel_w: p.kernel_w,
                stride: p.stride,
                padding: p.padding,
            }).column_value(p.input@, j / (p.padded_inner_dim as int), j % (p.padded_inner_dim as int)),
{
    let Im2ColParams {
        input,
        batch_size,
        in_channels,
        height,
        width,
        kernel_h,
        kernel_w,
        stride,
        padding,
        padded_inner_dim,
        output,
    } = p;
    im2col_into(
        input,
        batch_size,
        in_channels,
        height,
        width,
        kernel_h,
        kernel_w,
        stride,
        padding,
        padded_inner_dim,
        output,
    );
}

/// The inner dimension rounded up to whole superblocks of 2048.
pub open spec fn padded_dim(inner: int) -> int {
    (inner + 2047) / 2048 * 2048
}

/// The weights of each output channel followed by zeros up to `padded`.
pub open spec fn conv_padded_weights(w: Seq<i32>, out_channels: int, inner: int, padded: int) -> Seq<i32> {
    Seq::new(
        (out_channels * padded) as nat,
        |j: int|
            if j % padded < inner {
                w[(j / padded) * inner + j % padded]
            } else {
                0
            },
    )
}

/// `inner.div_ceil(2048) * 2048`.
fn padded_inner(inner: usize) -> (r: usize)
    requires
        padded_dim(inner as int) <= usize::MAX,
    ensures
        r == padded_dim(inner as int),
{
    let q = inner / 2048 + if inner % 2048 != 0 { 1 } else { 0 };
    proof {
        assert(q == (inner + 2047) / 2048) by (nonlinear_arith)
            requires q == inner / 2048 + if inner % 2048 != 0 { 1int } else { 0int };
    }
    q * 2048
}

/// Packs standard convolution weights `(C_out, C_in, K_h, K_w)` into `Vec101SuperBlock`s,
/// each output channel's weights padded with zeros to a whole number of superblocks.
pub fn pack_conv_weights(
    weights: &[i32],
    out_channels: usize,
    in_channels: usize,
    kernel_h: usize,
    kernel_w: usize,
) -> (r: Vec<Vec101SuperBlock>)
    requires
        in_channels * kernel_h <= usize::MAX,
        in_channels * kernel_h * kernel_w <= usize::MAX,
        padded_dim(in_channels * kernel_h * kernel_w) <= usize::MAX,
        out_channels * padded_dim(in_channels * kernel_h * kernel_w) <= usize::MAX,
        weights@.len() >= out_channels * (in_channels * kernel_h * kernel_w),
    ensures
        packs(
            r@,
            conv_padded_weights(
                weights@,
                out_channels as int,
                in_channels * kernel_h * kernel_w,
                padded_dim(in_channels * kernel_h * kernel_w),
            ),
        ),
{
    let inner_dim = in_channels * kernel_h * kernel_w;
    let wlen = weights.len();
    let pid = padded_inner(inner_dim);
    proof {
        assert(inner_dim <= pid) by (nonlinear_arith)
            requires pid == (inner_dim + 2047) / 2048 * 2048;
    }
    let ghost want = conv_padded_weights(weights@, out_channels as int, inner_dim as int, pid as int);
    let mut padded: Vec<i32> = Vec::new();
    let mut oc: usize = 0;
    while oc < out_channels
        invariant
            pid == padded_dim(inner_dim as int),
            inner_dim <= pid,
            out_channels * pid <= usize::MAX,
            wlen == weights@.len(),
            wlen >= out_channels * inner_dim,
            want == conv_padded_weights(weights@, out_channels as int, inner_dim as int, pid as int),
            oc <= out_channels,
            padded@.len() == oc * pid,
            forall|j: int| 0 <= j < padded@.len() ==> #[trigger] padded@[j] == want[j],
        decreases out_channels - oc,
    {
        proof {
            assert(oc * inner_dim + inner_dim <= out_channels * inner_dim) by (nonlinear_arith)
                requires oc < out_channels;
            assert(oc * pid + pid <= out_channels * pid) by (nonlinear_arith)
                requires oc < out_channels;
        }
        let start = oc * inner_dim;
        let mut i: usize = 0;
        while i < pid
            invariant
                pid == padded_dim(inner_dim as int),
                inner_dim <= pid,
                oc < out_channels,
                oc * pid + pid <= out_channels * pid,
                out_channels * pid <= usize::MAX,
                wlen == weights@.len(),
                start == oc * inner_dim,
                start + inner_dim <= wlen,
                want == conv_padded_weights(weights@, out_channels as int, inner_dim as int, pid as int),
                i <= pid,
                padded@.len() == oc * pid + i,
                forall|j: int| 0 <= j < padded@.len() ==> #[trigger] padded@[j] == want[j],
            decreases pid - i,
        {
            let v = if i < inner_dim { weights[start + i] } else { 0 };
            proof {
                crate::arith::lemma_row_col(oc * pid + i, oc as int, pid as int);
                assert(oc * pid + i < out_channels * pid);
                assert(want[oc * pid + i] == v);
            }
            padded.push(v);
            i += 1;
        }
        proof {
            assert((oc + 1) * pid == oc * pid + pid) by (nonlinear_arith);
        }
        oc += 1;
    }
    proof {
        assert(padded@ =~= want);
        let q = (inner_dim + 2047) / 2048;
        assert(out_channels * pid == (out_channels * q) * 2048) by (nonlinear_arith)
            requires pid == q * 2048;
        vstd::arithmetic::div_mod::lemma_mod_multiples_basic(out_channels * q, 2048);
    }
    pack_weights_to_superblocks(padded.as_slice())
}

/// What [`conv2d_compute`] adds to output `b * out_channels + r`: row `r` of
/// the packed weights (as bytes) applied to column `b` of the image columns.
pub open spec fn conv_output(
    packed: Seq<Vec101SuperBlock>,
    s_stream: Seq<i32>,
    columns: Seq<i8>,
    bpr: int,
    r: int,
    b: int,
) -> i32 {
    crate::compute::row_output(
        QuantType::Bit1_58,
        superblock_stream(packed),
        s_stream[r],
        r,
        bpr,
        columns,
        b * bpr * 2048,
    )
}

/// Dispatches a Convolution operation down to the `vec101` GEMM engine: the
/// image is unfolded by [`im2col`] into `im2col_buffer` (columns padded to
/// whole superblocks), then each output channel's packed weights are applied
/// to each column, adding (wrapping in `i32`) to `out_buffer[column * out_channels + channel]`.
pub fn conv2d_compute(p: Conv2dParams<'_>)
    requires
        (ConvShape {
            batch_size: p.batch_size,
            in_channels: p.in_channels,
            height: p.height,
            width: p.width,
            kernel_h: p.kernel_h,
            kernel_w: p.kernel_w,
            stride: p.stride,
            padding: p.padding,
        }).valid(p.input@.len() as int),
        padded_dim(p.in_channels * p.kernel_h * p.kernel_w) <= usize::MAX,
        old(p.im2col_buffer)@.len() == (ConvShape {
            batch_size: p.batch_size,
            in_channels: p.in_channels,
            height: p.height,
            width: p.width,
            kernel_h: p.kernel_h,
            kernel_w: p.kernel_w,
            stride: p.stride,
            padding: p.padding,
        }).patches() * padded_dim(p.in_channels * p.kernel_h * p.kernel_w),
        p.packed_weights@.len() * 576 <= usize::MAX,
        p.packed_weights@.len() >= p.out_channels * (padded_dim(p.in_channels * p.kernel_h * p.kernel_w)
            / 2048),
        p.s_stream@.len() >= p.out_channels,
        old(p.out_buffer)@.len() >= (ConvShape {
            batch_size: p.batch_size,
            in_channels: p.in_channels,
            height: p.height,
            width: p.width,
            kernel_h: p.kernel_h,
            kernel_w: p.kernel_w,
            stride: p.stride,
            padding: p.padding,
        }).patches() * p.out_channels,
        (ConvShape {
            batch_size: p.batch_size,
            in_channels: p.in_channels,
            height: p.height,
            width: p.width,
            kernel_h: p.kernel_h,
            kernel_w: p.kernel_w,
            stride: p.stride,
            padding: p.padding,
        }).patches() + 63 <= usize::MAX,
        padded_dim(p.in_channels * p.kernel_h * p.kernel_w) * ((ConvShape {
            batch_size: p.batch_size,
            in_channels: p.in_channels,
            height: p.height,
            width: p.width,
            kernel_h: p.kernel_h,
            kernel_w: p.kernel_w,
            stride: p.stride,
            padding: p.padding,
        }).patches() + 63) <= usize::MAX,
    ensures
        final(p.im2col_buffer)@.len() == old(p.im2col_buffer)@.len(),
        forall|j: int|
            0 <= j < old(p.im2col_buffer)@.len() ==> #[trigger] final(p.im2col_buffer)@[j] == (ConvShape {
                batch_size: p.batch_size,
                in_channels: p.in_channels,
                height: p.height,
                width: p.width,
                kernel_h: p.kernel_h,
                kernel_w: p.kernel_w,
                stride: p.stride,
                padding: p.padding,
            }).column_value(
                p.input@,
                j / padded_dim(p.in_channels * p.kernel_h * p.kernel_w),
                j % padded_dim(p.in_channels * p.kernel_h * p.kernel_w),
            ),
        final(p.out_buffer)@.len() == old(p.out_buffer)@.len(),
        forall|b: int, r: int|
            0 <= b < (ConvShape {
                batch_size: p.batch_size,
                in_channels: p.in_channels,
                height: p.height,
                width: p.width,
                kernel_h: p.kernel_h,
                kernel_w: p.kernel_w,
                stride: p.stride,
                padding: p.padding,
            }).patches() && 0 <= r < p.out_channels ==> #[trigger] final(p.out_buffer)@[b * p.out_channels + r]
                == wrapping_add(
                old(p.out_buffer)@[b * p.out_channels + r],
                conv_output(
                    p.packed_weights@,
                    p.s_stream@,
                    final(p.im2col_buffer)@,
                    padded_dim(p.in_channels * p.kernel_h * p.kernel_w) / 2048,
                    r,
                    b,
                ),
            ),
        forall|i: int|
            (ConvShape {
                batch_size: p.batch_size,
                in_channels: p.in_channels,
                height: p.height,
                width: p.width,
                kernel_h: p.kernel_h,
                kernel_w: p.kernel_w,
                stride: p.stride,
                padding: p.padding,
            }).patches() * p.out_channels <= i < old(p.out_buffer)@.len() ==> #[trigger] final(p.out_buffer)@[i]
                == old(p.out_buffer)@[i],
{
    let Conv2dParams {
        input,
        packed_weights,
        batch_size,
        in_channels,
        height,
        width,
        out_channels,
        kernel_h,
        kernel_w,
        stride,
        padding,
        s_stream,
        im2col_buffer,
        out_buffer,
    } = p;
    let ghost sh = ConvShape { batch_size, in_channels, height, width, kernel_h, kernel_w, stride, padding };
    let out_h = (height + 2 * padding - kernel_h) / stride + 1;
    let out_w = (width + 2 * padding - kernel_w) / stride + 1;
    let inner_dim = in_channels * kernel_h * kernel_w;
    let padded_inner_dim = padded_inner(inner_dim);
    proof {
        assert(inner_dim <= padded_inner_dim) by (nonlinear_arith)
            requires padded_inner_dim == (inner_dim + 2047) / 2048 * 2048;
    }
    im2col_into(
        input,
        batch_size,
        in_channels,
        height,
        width,
        kernel_h,
        kernel_w,
        stride,
        padding,
        padded_inner_dim,
        im2col_buffer,
    );
    proof {
        assert(out_h == sh.out_h() && out_w == sh.out_w());
        assert(batch_size * out_h * out_w <= usize::MAX);
        assert(batch_size * out_h <= batch_size * out_h * out_w) by (nonlinear_arith)
            requires out_w >= 1;
    }
    let num_rows_x = batch_size * out_h * out_w;
    let blocks_per_row = padded_inner_dim / 2048;
    let w_bytes = superblocks_to_bytes(packed_weights);
    let kv: &[&[i32]] = &[];
    let tree: &[u32] = &[];
    let ctx = vec101_context {
        quant_type: QuantType::Bit1_58,
        w_stream: w_bytes.as_slice(),
        x_stream: &*im2col_buffer,
        s_stream,
        kv_blocks: kv,
        num_blocks: 0,
        block_size: 256,
        batch_size: num_rows_x,
        num_rows: out_channels,
        blocks_per_row,
        num_threads: 1,
        tree_mask: tree,
        tree_size: 0,
        hardware_handle: 0,
    };
    proof {
        assert(padded_inner_dim == blocks_per_row * 2048);
        if num_rows_x != 0 && out_channels != 0 {
            assert(ctx.rows_in_batch() == num_rows_x);
            assert(out_channels * (blocks_per_row * 576) <= packed_weights@.len() * 576) by (nonlinear_arith)
                requires packed_weights@.len() >= out_channels * blocks_per_row;
        }
    }
    vec101_compute(&ctx, out_buffer);
}

} // verus!
