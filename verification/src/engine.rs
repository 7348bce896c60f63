use vstd::prelude::*;
use crate::compute::{vec101_context, vec101_compute, computed, runnable, row_bytes, row_output};
use vstd::wrapping::i32_specs::wrapping_add;
use crate::types::QuantType;

verus! {

/// Size of the output buffer an engine allocates for `batch_size` vectors of
/// `num_rows` rows: one entry per pair, at least one.
pub open spec fn out_size(batch_size: int, num_rows: int) -> int {
    if batch_size * num_rows == 0 {
        1
    } else {
        batch_size * num_rows
    }
}

fn zeros_i32(n: usize) -> (r: Vec<i32>)
    ensures
        r@ == Seq::new(n as nat, |i: int| 0i32),
{
    let mut r: Vec<i32> = Vec::new();
    let mut i: usize = 0;
    while i < n
        invariant
            i <= n,
            r@ == Seq::new(i as nat, |k: int| 0i32),
        decreases n - i,
    {
        r.push(0);
        i += 1;
        proof {
            assert(r@ =~= Seq::new(i as nat, |k: int| 0i32));
        }
    }
    r
}

/// Builder of an engine's compute context.
pub struct ComputeContextBuilder<'a> {
    ctx: vec101_context<'a>,
}

impl<'a> ComputeContextBuilder<'a> {
    /// The context the builder holds so far.
    pub closed spec fn context(&self) -> vec101_context<'a> {
        self.ctx
    }

    /// A builder with the defaults: 1.58-bit weights, empty streams, blocks
    /// of 16 tokens, a batch of one vector, no rows, one thread, no tree mask
    /// and no hardware handle.
    pub fn new() -> (r: Self)
        ensures
            r.context().quant_type == QuantType::Bit1_58,
            r.context().w_stream@.len() == 0,
            r.context().x_stream@.len() == 0,
            r.context().s_stream@.len() == 0,
            r.context().kv_blocks@.len() == 0,
            r.context().num_blocks == 0,
            r.context().block_size == 16,
            r.context().batch_size == 1,
            r.context().num_rows == 0,
            r.context().blocks_per_row == 0,
            r.context().num_threads == 1,
            r.context().tree_mask@.len() == 0,
            r.context().tree_size == 0,
            r.context().hardware_handle == 0,
    {
        let w: &[u8] = &[];
        let x: &[i8] = &[];
        let s: &[i32] = &[];
        let kv: &[&[i32]] = &[];
        let tree: &[u32] = &[];
        Self {
            ctx: vec101_context {
                quant_type: QuantType::Bit1_58,
                w_stream: w,
                x_stream: x,
                s_stream: s,
                kv_blocks: kv,
                num_blocks: 0,
                block_size: 16,
                batch_size: 1,
                num_rows: 0,
                blocks_per_row: 0,
                num_threads: 1,
                tree_mask: tree,
                tree_size: 0,
                hardware_handle: 0,
            },
        }
    }

    pub fn quant_type(self, q: QuantType) -> (r: Self)
        ensures
            r.context() == (vec101_context { quant_type: q, ..self.context() }),
    {
        let mut s = self;
        s.ctx.quant_type = q;
        s
    }

    pub fn w_stream(self, w: &'a [u8]) -> (r: Self)
        ensures
            r.context() == (vec101_context { w_stream: w, ..self.context() }),
    {
        let mut s = self;
        s.ctx.w_stream = w;
        s
    }

    pub fn x_stream(self, x: &'a [i8]) -> (r: Self)
        ensures
            r.context() == (vec101_context { x_stream: x, ..self.context() }),
    {
        let mut s = self;
        s.ctx.x_stream = x;
        s
    }

    pub fn s_stream(self, sc: &'a [i32]) -> (r: Self)
        ensures
            r.context() == (vec101_context { s_stream: sc, ..self.context() }),
    {
        let mut s = self;
        s.ctx.s_stream = sc;
        s
    }

    pub fn num_blocks(self, n: usize) -> (r: Self)
        ensures
            r.context() == (vec101_context { num_blocks: n, ..self.context() }),
    {
        let mut s = self;
        s.ctx.num_blocks = n;
        s
    }

    pub fn block_size(self, n: usize) -> (r: Self)
        ensures
            r.context() == (vec101_context { block_size: n, ..self.context() }),
    {
        let mut s = self;
        s.ctx.block_size = n;
        s
    }

    pub fn batch_size(self, n: usize) -> (r: Self)
        ensures
            r.context() == (vec101_context { batch_size: n, ..self.context() }),
    {
        let mut s = self;
        s.ctx.batch_size = n;
        s
    }

    pub fn num_rows(self, n: usize) -> (r: Self)
        ensures
            r.context() == (vec101_context { num_rows: n, ..self.context() }),
    {
        let mut s = self;
        s.ctx.num_rows = n;
        s
    }

    pub fn blocks_per_row(self, n: usize) -> (r: Self)
        ensures
            r.context() == (vec101_context { blocks_per_row: n, ..self.context() }),
    {
        let mut s = self;
        s.ctx.blocks_per_row = n;
        s
    }

    pub fn num_threads(self, n: usize) -> (r: Self)
        ensures
            r.context() == (vec101_context { num_threads: n, ..self.context() }),
    {
        let mut s = self;
        s.ctx.num_threads = n;
        s
    }

    pub fn tree_mask(self, mask: &'a [u32], size: usize) -> (r: Self)
        ensures
            r.context() == (vec101_context { tree_mask: mask, tree_size: size, ..self.context() }),
    {
        let mut s = self;
        s.ctx.tree_mask = mask;
        s.ctx.tree_size = size;
        s
    }

    pub fn hardware_handle(self, handle: usize) -> (r: Self)
        ensures
            r.context() == (vec101_context { hardware_handle: handle, ..self.context() }),
    {
        let mut s = self;
        s.ctx.hardware_handle = handle;
        s
    }

    /// An engine for the context built so far, with a zeroed output buffer of
    /// one entry per (vector, row) pair and empty KV block slots.
    pub fn build(self) -> (r: Vec101Engine<'a>)
        requires
            self.context().batch_size * self.context().num_rows <= usize::MAX,
        ensures
            r.context() == self.context(),
            r.output() == Seq::new(
                out_size(self.context().batch_size as int, self.context().num_rows as int) as nat,
                |i: int| 0i32,
            ),
            r.kv_blocks() == Seq::new(self.context().num_blocks as nat, |i: int| None::<Seq<i32>>),
    {
        Vec101Engine::new(self.ctx)
    }
}

impl<'a> ComputeContextBuilder<'a> {
    /// Binds the context built so far to caller-allocated weight and
    /// activation streams and output buffer, for zero allocation at run time:
    /// a borrowed engine over them, refused when the output buffer holds
    /// fewer entries than one per (vector, row) pair (at least one).
    pub fn build_borrowed(
        self,
        w_stream: &'a [u8],
        x_stream: &'a [i8],
        out_buffer: &'a mut [i32],
    ) -> (r: Result<Vec101EngineBorrow<'a>, &'static str>)
        requires
            self.context().batch_size * self.context().num_rows <= usize::MAX,
        ensures
            match r {
                Ok(e) => {
                    &&& old(out_buffer)@.len() >= out_size(
                        self.context().batch_size as int,
                        self.context().num_rows as int,
                    )
                    &&& e.output() == old(out_buffer)@
                    &&& e.context() == (vec101_context { w_stream, x_stream, ..self.context() })
                },
                Err(_) => old(out_buffer)@.len() < out_size(
                    self.context().batch_size as int,
                    self.context().num_rows as int,
                ),
            },
    {
        let n = self.ctx.batch_size * self.ctx.num_rows;
        let expected_out_size = if n == 0 { 1 } else { n };
        if out_buffer.len() < expected_out_size {
            return Err("Failed to initialize vec101 context: output buffer too small");
        }
        let ctx = vec101_context { w_stream, x_stream, ..self.ctx };
        Ok(Vec101EngineBorrow { ctx, out: out_buffer })
    }
}

impl<'a> Default for ComputeContextBuilder<'a> {
    fn default() -> (r: Self)
        ensures
            r.context().quant_type == QuantType::Bit1_58,
            r.context().w_stream@.len() == 0,
            r.context().x_stream@.len() == 0,
            r.context().s_stream@.len() == 0,
            r.context().kv_blocks@.len() == 0,
            r.context().num_blocks == 0,
            r.context().block_size == 16,
            r.context().batch_size == 1,
            r.context().num_rows == 0,
            r.context().blocks_per_row == 0,
            r.context().num_threads == 1,
            r.context().tree_mask@.len() == 0,
            r.context().tree_size == 0,
            r.context().hardware_handle == 0,
    {
        Self::new()
    }
}

/// The contents of a KV block slot.
pub open spec fn kv_slot_view(b: Option<&[i32]>) -> Option<Seq<i32>> {
    match b {
        Some(s) => Some(s@),
        None => None,
    }
}

/// An engine that owns its output buffer and the table of KV blocks, and runs
/// its context over borrowed weight, activation and scale streams.
pub struct Vec101Engine<'a> {
    context: vec101_context<'a>,
    out_buffer_owner: Vec<i32>,
    kv_blocks_owner: Vec<Option<&'a [i32]>>,
}

impl<'a> Vec101Engine<'a> {
    pub closed spec fn context(&self) -> vec101_context<'a> {
        self.context
    }

    pub closed spec fn output(&self) -> Seq<i32> {
        self.out_buffer_owner@
    }

    pub closed spec fn kv_blocks(&self) -> Seq<Option<Seq<i32>>> {
        self.kv_blocks_owner@.map_values(|b: Option<&[i32]>| kv_slot_view(b))
    }

    pub(crate) fn new(context: vec101_context<'a>) -> (r: Self)
        requires
            context.batch_size * context.num_rows <= usize::MAX,
        ensures
            r.context() == context,
            r.output() == Seq::new(out_size(context.batch_size as int, context.num_rows as int) as nat, |i: int| 0i32),
            r.kv_blocks() == Seq::new(context.num_blocks as nat, |i: int| None::<Seq<i32>>),
    {
        let n = context.batch_size * context.num_rows;
        let size = if n == 0 { 1 } else { n };
        let out_buffer_owner = zeros_i32(size);
        let mut kv_blocks_owner: Vec<Option<&'a [i32]>> = Vec::new();
        let mut i: usize = 0;
        while i < context.num_blocks
            invariant
                i <= context.num_blocks,
                kv_blocks_owner@.len() == i,
                forall|k: int| 0 <= k < i ==> #[trigger] kv_blocks_owner@[k] is None,
            decreases context.num_blocks - i,
        {
            kv_blocks_owner.push(None);
            i += 1;
        }
        let r = Self { context, out_buffer_owner, kv_blocks_owner };
        assert(r.kv_blocks() =~= Seq::new(context.num_blocks as nat, |i: int| None::<Seq<i32>>));
        r
    }

    /// Set a specific KV block for shared prefix caching; an index past the
    /// table is ignored.
    pub fn set_kv_block(&mut self, index: usize, block: Option<&'a [i32]>)
        ensures
            final(self).context() == old(self).context(),
            final(self).output() == old(self).output(),
            final(self).kv_blocks() == (if index < old(self).kv_blocks().len() {
                old(self).kv_blocks().update(index as int, kv_slot_view(block))
            } else {
                old(self).kv_blocks()
            }),
    {
        if index < self.kv_blocks_owner.len() {
            self.kv_blocks_owner.set(index, block);
            assert(self.kv_blocks() =~= old(self).kv_blocks().update(index as int, kv_slot_view(block)));
        }
    }

    pub fn set_w_stream(&mut self, w: &'a [u8])
        ensures
            final(self).context() == (vec101_context { w_stream: w, ..old(self).context() }),
            final(self).output() == old(self).output(),
            final(self).kv_blocks() == old(self).kv_blocks(),
    {
        self.context.w_stream = w;
    }

    pub fn set_quant_type(&mut self, q: QuantType)
        ensures
            final(self).context() == (vec101_context { quant_type: q, ..old(self).context() }),
            final(self).output() == old(self).output(),
            final(self).kv_blocks() == old(self).kv_blocks(),
    {
        self.context.quant_type = q;
    }

    pub fn set_num_rows(&mut self, rows: usize)
        ensures
            final(self).context() == (vec101_context { num_rows: rows, ..old(self).context() }),
            final(self).output() == old(self).output(),
            final(self).kv_blocks() == old(self).kv_blocks(),
    {
        self.context.num_rows = rows;
    }

    pub fn set_x_stream(&mut self, x: &'a [i8])
        ensures
            final(self).context() == (vec101_context { x_stream: x, ..old(self).context() }),
            final(self).output() == old(self).output(),
            final(self).kv_blocks() == old(self).kv_blocks(),
    {
        self.context.x_stream = x;
    }

    pub fn set_s_stream(&mut self, sc: &'a [i32])
        ensures
            final(self).context() == (vec101_context { s_stream: sc, ..old(self).context() }),
            final(self).output() == old(self).output(),
            final(self).kv_blocks() == old(self).kv_blocks(),
    {
        self.context.s_stream = sc;
    }

    pub fn set_batch_size(&mut self, size: usize)
        ensures
            final(self).context() == (vec101_context { batch_size: size, ..old(self).context() }),
            final(self).output() == old(self).output(),
            final(self).kv_blocks() == old(self).kv_blocks(),
    {
        self.context.batch_size = size;
    }

    pub fn set_blocks_per_row(&mut self, blocks: usize)
        ensures
            final(self).context() == (vec101_context { blocks_per_row: blocks, ..old(self).context() }),
            final(self).output() == old(self).output(),
            final(self).kv_blocks() == old(self).kv_blocks(),
    {
        self.context.blocks_per_row = blocks;
    }

    /// Runs the context over the streams, adding into the output buffer.
    pub fn compute(&mut self)
        requires
            runnable(&old(self).context(), old(self).output().len() as int),
        ensures
            final(self).context() == old(self).context(),
            final(self).output() == computed(&old(self).context(), old(self).output()),
            final(self).kv_blocks() == old(self).kv_blocks(),
    {
        vec101_compute(&self.context, self.out_buffer_owner.as_mut_slice());
    }

    /// Get the raw output buffer
    pub fn get_output(&self) -> (r: &[i32])
        ensures
            r@ == self.output(),
    {
        self.out_buffer_owner.as_slice()
    }

    /// The raw logits of the given target token ids: entry `i` is the output
    /// at index `targets[i]`, or 0 when that index is past the output buffer.
    pub fn target_logits(&self, targets: &[u32]) -> (r: Vec<i32>)
        ensures
            r@.len() == targets@.len(),
            forall|i: int|
                0 <= i < targets@.len() ==> #[trigger] r@[i] == (if (targets@[i] as int) < self.output().len() {
                    self.output()[targets@[i] as int]
                } else {
                    0i32
                }),
    {
        let mut r: Vec<i32> = Vec::new();
        let mut i: usize = 0;
        while i < targets.len()
            invariant
                i <= targets@.len(),
                r@.len() == i,
                forall|k: int|
                    0 <= k < i ==> #[trigger] r@[k] == (if (targets@[k] as int) < self.output().len() {
                        self.output()[targets@[k] as int]
                    } else {
                        0i32
                    }),
            decreases targets@.len() - i,
        {
            let idx = targets[i] as usize;
            if idx < self.out_buffer_owner.len() {
                r.push(self.out_buffer_owner[idx]);
            } else {
                r.push(0);
            }
            i += 1;
        }
        r
    }
}

/// Number of tokens [`Vec101Engine::batch_generate`] produces for each prompt.
pub const GENERATED_TOKENS: usize = 16;

/// Rows of the output a generation run uses: the context's, or 128 when it has none.
pub open spec fn generation_rows(ctx: vec101_context) -> int {
    if ctx.num_rows == 0 { 128 } else { ctx.num_rows as int }
}

/// Features per activation vector in a generation run: `blocks_per_row * block_size`,
/// or 2048 when that is 0.
pub open spec fn generation_dim(ctx: vec101_context) -> int {
    if ctx.blocks_per_row * ctx.block_size == 0 { 2048 } else { ctx.blocks_per_row * ctx.block_size }
}

/// The activations of generation step `step` for `batch` vectors of `dim`
/// features: feature `i` of vector `b` is `(step + b + i) % 3 - 1`.
pub open spec fn step_activations(step: int, batch: int, dim: int) -> Seq<i8> {
    Seq::new((batch * dim) as nat, |j: int| ((step + j / dim + j % dim) % 3 - 1) as i8)
}

/// The logits of step `step` when the engine has no weights: entry `v` of
/// vector `b` is `(b + step * v) % 256`.
pub open spec fn placeholder_logits(batch: int, nr: int, step: int) -> Seq<i32> {
    Seq::new((batch * nr) as nat, |j: int| ((j / nr + step * (j % nr)) % 256) as i32)
}

/// The output buffer after `k` generation steps over weights `w`: zero at
/// first, then each step adds (wrapping in `i32`) every row's output, with row scale
/// 1, for that step's activations.
pub open spec fn accumulated_logits(
    qt: QuantType,
    w: Seq<u8>,
    bpr: int,
    batch: int,
    nr: int,
    dim: int,
    k: nat,
) -> Seq<i32>
    decreases k,
{
    if k == 0 {
        Seq::new((batch * nr) as nat, |j: int| 0i32)
    } else {
        let prev = accumulated_logits(qt, w, bpr, batch, nr, dim, (k - 1) as nat);
        Seq::new(
            (batch * nr) as nat,
            |j: int|
                wrapping_add(
                    prev[j],
                    row_output(qt, w, 1, j % nr, bpr, step_activations(k - 1, batch, dim), (j / nr) * bpr * 2048),
                ),
        )
    }
}

/// Scan of `s[off..off + n]` for its largest value, starting from `i32::MIN`
/// and moving on a strictly larger value only: the value and its index.
pub open spec fn best_scan(s: Seq<i32>, off: int, n: nat) -> (i32, nat)
    decreases n,
{
    if n == 0 {
        (i32::MIN, 0)
    } else {
        let prev = best_scan(s, off, (n - 1) as nat);
        if s[off + n - 1] > prev.0 {
            (s[off + n - 1], (n - 1) as nat)
        } else {
            prev
        }
    }
}

/// The logits a generation run from context `ctx` with `batch` prompts reads
/// at step `step`.
pub open spec fn generation_logits(ctx: vec101_context, batch: int, step: int) -> Seq<i32> {
    if ctx.w_stream@.len() > 0 {
        accumulated_logits(
            ctx.quant_type,
            ctx.w_stream@,
            ctx.blocks_per_row as int,
            batch,
            generation_rows(ctx),
            generation_dim(ctx),
            (step + 1) as nat,
        )
    } else {
        placeholder_logits(batch, generation_rows(ctx), step)
    }
}

/// Token `step` generated for prompt `b`: the first row with the largest logit.
pub open spec fn generated_token(ctx: vec101_context, batch: int, b: int, step: int) -> u32 {
    best_scan(generation_logits(ctx, batch, step), b * generation_rows(ctx), generation_rows(ctx) as nat).1 as u32
}

/// The contexts a generation run of `batch` prompts accepts: its buffers fit in
/// memory and, with weights, the weight stream holds every row while the
/// activations and the per-vector scales (one per prompt) cover what the rows read.
pub open spec fn batch_generate_ok(ctx: vec101_context, batch: int) -> bool {
    &&& ctx.blocks_per_row * ctx.block_size <= usize::MAX
    &&& batch * generation_dim(ctx) <= usize::MAX
    &&& batch * generation_rows(ctx) <= usize::MAX
    &&& (batch > 0 && ctx.w_stream@.len() > 0) ==> {
        &&& generation_rows(ctx) * row_bytes(ctx.quant_type, ctx.blocks_per_row as int) <= ctx.w_stream@.len()
        &&& ctx.blocks_per_row * 2048 <= generation_dim(ctx)
        &&& generation_rows(ctx) <= batch
        &&& batch + 63 <= usize::MAX
        &&& ctx.blocks_per_row * 2048 * (batch + 63) <= usize::MAX
    }
}

proof fn lemma_best_scan_index(s: Seq<i32>, off: int, n: nat)
    ensures
        n > 0 ==> best_scan(s, off, n).1 < n,
        n == 0 ==> best_scan(s, off, n).1 == 0,
    decreases n,
{
    if n > 0 {
        lemma_best_scan_index(s, off, (n - 1) as nat);
    }
}

/// Every token a generation run produces names a row of its output.
pub proof fn lemma_generated_token_in_range(ctx: vec101_context, batch: int, b: int, step: int)
    ensures
        generated_token(ctx, batch, b, step) < generation_rows(ctx),
{
    let nr = generation_rows(ctx);
    let i = best_scan(generation_logits(ctx, batch, step), b * nr, nr as nat).1;
    lemma_best_scan_index(generation_logits(ctx, batch, step), b * nr, nr as nat);
    assert(i < nr);
    let t = i as u32;
    assert(i < 0x1_0000_0000 ==> t == i);
    assert(t < 0x1_0000_0000);
}

fn filled<T: Copy>(n: usize, v: T) -> (r: Vec<T>)
    ensures
        r@ == Seq::new(n as nat, |i: int| v),
{
    let mut r: Vec<T> = Vec::new();
    let mut i: usize = 0;
    while i < n
        invariant
            i <= n,
            r@ == Seq::new(i as nat, |k: int| v),
        decreases n - i,
    {
        r.push(v);
        i += 1;
        proof {
            assert(r@ =~= Seq::new(i as nat, |k: int| v));
        }
    }
    r
}

/// Index of the first largest value of `s[off..off + n]` (0 when `n` is 0).
fn best_index(s: &[i32], off: usize, n: usize) -> (r: usize)
    requires
        off + n <= s.len(),
    ensures
        r == best_scan(s@, off as int, n as nat).1,
{
    let mut max_val: i32 = i32::MIN;
    let mut best: usize = 0;
    let mut v: usize = 0;
    while v < n
        invariant
            v <= n,
            off + n <= s.len(),
            (max_val, best as nat) == best_scan(s@, off as int, v as nat),
        decreases n - v,
    {
        let val = s[off + v];
        if val > max_val {
            max_val = val;
            best = v;
        }
        v += 1;
    }
    best
}

/// Writes the activations of generation step `step` into `x`.
fn fill_step_activations(x: &mut Vec<i8>, step: usize, batch: usize, dim: usize)
    requires
        dim > 0,
        old(x)@.len() == batch * dim,
    ensures
        final(x)@ == step_activations(step as int, batch as int, dim as int),
{
    let n = x.len();
    let mut j: usize = 0;
    while j < n
        invariant
            dim > 0,
            n == x@.len(),
            n == batch * dim,
            j <= n,
            forall|i: int| 0 <= i < j ==> #[trigger] x@[i] == step_activations(step as int, batch as int, dim as int)[i],
        decreases n - j,
    {
        proof {
            vstd::arithmetic::div_mod::lemma_fundamental_div_mod(j as int, dim as int);
            assert(j / dim + j % dim <= j) by (nonlinear_arith)
                requires j == dim * (j / dim) + j % dim, dim > 0, j / dim >= 0, j % dim >= 0;
        }
        let t: usize = j / dim + j % dim;
        proof {
            vstd::arithmetic::div_mod::lemma_add_mod_noop(step as int, t as int, 3);
        }
        let r: usize = (step % 3 + t % 3) % 3;
        x.set(j, (r as i8) - 1);
        j += 1;
    }
    assert(x@ =~= step_activations(step as int, batch as int, dim as int));
}

/// Writes the logits of step `step` when there are no weights into `out`.
fn fill_placeholder_logits(out: &mut Vec<i32>, step: usize, batch: usize, nr: usize)
    requires
        nr > 0,
        old(out)@.len() == batch * nr,
    ensures
        final(out)@ == placeholder_logits(batch as int, nr as int, step as int),
{
    let n = out.len();
    let mut j: usize = 0;
    while j < n
        invariant
            nr > 0,
            n == out@.len(),
            n == batch * nr,
            j <= n,
            forall|i: int| 0 <= i < j ==> #[trigger] out@[i] == placeholder_logits(batch as int, nr as int, step as int)[i],
        decreases n - j,
    {
        let b: usize = j / nr;
        let v: usize = j % nr;
        proof {
            vstd::arithmetic::div_mod::lemma_add_mod_noop(b as int, step * v, 256);
            vstd::arithmetic::div_mod::lemma_mul_mod_noop(step as int, v as int, 256);
        }
        assert((step % 256) * (v % 256) < 65536) by (nonlinear_arith)
            requires step % 256 < 256, v % 256 < 256, step % 256 >= 0, v % 256 >= 0;
        let sv: usize = ((step % 256) * (v % 256)) % 256;
        let val: usize = (b % 256 + sv) % 256;
        out.set(j, val as i32);
        j += 1;
    }
    assert(out@ =~= placeholder_logits(batch as int, nr as int, step as int));
}

proof fn lemma_row_block(b: int, batch: int, nr: int)
    requires
        0 <= b < batch,
        0 <= nr,
    ensures
        0 <= b * nr,
        b * nr + nr <= batch * nr,
{
    assert(0 <= b * nr) by (nonlinear_arith)
        requires 0 <= b, 0 <= nr;
    assert(b * nr + nr <= batch * nr) by (nonlinear_arith)
        requires 0 <= b < batch, 0 <= nr;
}

impl<'a> Vec101Engine<'a> {
    /// Whether [`Vec101Engine::batch_generate`] accepts `batch` prompts in the
    /// engine's current context.
    pub fn can_batch_generate(&self, batch: usize) -> (r: bool)
        ensures
            r == batch_generate_ok(self.context(), batch as int),
    {
        let ctx = &self.context;
        let bpr = ctx.blocks_per_row;
        let inner = match bpr.checked_mul(ctx.block_size) {
            Some(v) => v,
            None => {
                return false;
            },
        };
        let dim: usize = if inner == 0 { 2048 } else { inner };
        let nr: usize = if ctx.num_rows == 0 { 128 } else { ctx.num_rows };
        if batch.checked_mul(dim).is_none() || batch.checked_mul(nr).is_none() {
            return false;
        }
        if batch == 0 || ctx.w_stream.len() == 0 {
            return true;
        }
        let unit: usize = match ctx.quant_type {
            QuantType::Bit1_58 => 576,
            QuantType::Q4_0 => 144,
        };
        assert(bpr * unit == row_bytes(ctx.quant_type, bpr as int));
        let row = match bpr.checked_mul(unit) {
            Some(v) => v,
            None => {
                assert(nr * (bpr * unit) >= bpr * unit) by (nonlinear_arith)
                    requires nr >= 1, bpr * unit >= 0;
                return false;
            },
        };
        match nr.checked_mul(row) {
            Some(need) => {
                if need > ctx.w_stream.len() {
                    return false;
                }
            },
            None => {
                return false;
            },
        }
        let feat = match bpr.checked_mul(2048) {
            Some(v) => v,
            None => {
                return false;
            },
        };
        if feat > dim || nr > batch {
            return false;
        }
        let padded = match batch.checked_add(63) {
            Some(v) => v,
            None => {
                return false;
            },
        };
        feat.checked_mul(padded).is_some()
    }

    /// Generates [`GENERATED_TOKENS`] tokens for each prompt of a batch (only
    /// the number of prompts matters here). The context takes the batch size
    /// and, when it has no rows, 128 of them. At each step the step's
    /// activations (one vector per prompt, scale 1) are run against the
    /// weights into an output buffer kept across the steps, or, without
    /// weights, placeholder logits are written; each prompt then gets the
    /// first row with its largest logit. The engine's output buffer, KV slots
    /// and its own activation and scale streams are left as they were.
    pub fn batch_generate(&mut self, tokenized_prompts: Vec<Vec<u32>>) -> (results: Vec<Vec<u32>>)
        requires
            batch_generate_ok(old(self).context(), tokenized_prompts@.len() as int),
        ensures
            final(self).context() == (vec101_context {
                batch_size: tokenized_prompts@.len() as usize,
                num_rows: generation_rows(old(self).context()) as usize,
                ..old(self).context()
            }),
            final(self).output() == old(self).output(),
            final(self).kv_blocks() == old(self).kv_blocks(),
            results@.len() == tokenized_prompts@.len(),
            forall|b: int| 0 <= b < results@.len() ==> (#[trigger] results@[b])@.len() == GENERATED_TOKENS,
            forall|b: int, step: int|
                0 <= b < results@.len() && 0 <= step < GENERATED_TOKENS ==> #[trigger] results@[b]@[step]
                    == generated_token(old(self).context(), tokenized_prompts@.len() as int, b, step),
    {
        let ghost ctx0 = self.context;
        let ghost out0 = self.out_buffer_owner@;
        let ghost kv0 = self.kv_blocks();
        let batch = tokenized_prompts.len();
        self.context.batch_size = batch;
        if self.context.num_rows == 0 {
            self.context.num_rows = 128;
        }
        let nr = self.context.num_rows;
        let bpr = self.context.blocks_per_row;
        let inner = bpr * self.context.block_size;
        let dim: usize = if inner == 0 { 2048 } else { inner };
        let mut x: Vec<i8> = filled(batch * dim, 0i8);
        let s: Vec<i32> = filled(batch, 1i32);
        let mut out: Vec<i32> = filled(batch * nr, 0i32);
        let has_weights = self.context.w_stream.len() > 0;
        let mut per_step: Vec<Vec<u32>> = Vec::new();
        let mut step: usize = 0;
        proof {
            assert(out@ =~= accumulated_logits(ctx0.quant_type, ctx0.w_stream@, bpr as int, batch as int, nr as int, dim as int, 0));
        }
        while step < GENERATED_TOKENS
            invariant
                step <= GENERATED_TOKENS,
                batch == tokenized_prompts@.len(),
                batch_generate_ok(ctx0, batch as int),
                nr == generation_rows(ctx0),
                dim == generation_dim(ctx0),
                bpr == ctx0.blocks_per_row,
                nr > 0,
                dim > 0,
                self.context == (vec101_context { batch_size: batch, num_rows: nr, ..ctx0 }),
                self.out_buffer_owner@ == out0,
                self.kv_blocks() == kv0,
                x@.len() == batch * dim,
                s@ == Seq::new(batch as nat, |i: int| 1i32),
                out@.len() == batch * nr,
                has_weights == (ctx0.w_stream@.len() > 0),
                has_weights ==> out@ == accumulated_logits(
                    ctx0.quant_type,
                    ctx0.w_stream@,
                    bpr as int,
                    batch as int,
                    nr as int,
                    dim as int,
                    step as nat,
                ),
                per_step@.len() == step,
                forall|k: int| 0 <= k < step ==> (#[trigger] per_step@[k])@.len() == batch,
                forall|k: int, b: int|
                    0 <= k < step && 0 <= b < batch ==> #[trigger] per_step@[k]@[b] == generated_token(
                        ctx0,
                        batch as int,
                        b,
                        k,
                    ),
            decreases GENERATED_TOKENS - step,
        {
            fill_step_activations(&mut x, step, batch, dim);
            if has_weights {
                let ghost prev = out@;
                let ctx = vec101_context { x_stream: x.as_slice(), s_stream: s.as_slice(), ..self.context };
                proof {
                    if batch > 0 {
                        assert(batch * (bpr * 2048) <= batch * dim) by (nonlinear_arith)
                            requires bpr * 2048 <= dim, batch >= 0;
                        assert(ctx.rows_in_batch() == batch);
                    }
                }
                vec101_compute(&ctx, out.as_mut_slice());
                proof {
                    let acc = accumulated_logits(
                        ctx0.quant_type,
                        ctx0.w_stream@,
                        bpr as int,
                        batch as int,
                        nr as int,
                        dim as int,
                        (step + 1) as nat,
                    );
                    assert forall|j: int| 0 <= j < out@.len() implies #[trigger] out@[j] == acc[j] by {
                        let r = j % (nr as int);
                        assert(0 <= r < nr);
                        assert(s@[r] == 1i32);
                    }
                    assert(out@ =~= acc);
                }
            } else {
                fill_placeholder_logits(&mut out, step, batch, nr);
            }
            assert(out@ == generation_logits(ctx0, batch as int, step as int));
            let mut tokens: Vec<u32> = Vec::new();
            let mut b: usize = 0;
            while b < batch
                invariant
                    b <= batch,
                    nr > 0,
                    batch * nr <= usize::MAX,
                    out@.len() == batch * nr,
                    out@ == generation_logits(ctx0, batch as int, step as int),
                    nr == generation_rows(ctx0),
                    tokens@.len() == b,
                    forall|c: int| 0 <= c < b ==> #[trigger] tokens@[c] == generated_token(ctx0, batch as int, c, step as int),
                decreases batch - b,
            {
                proof {
                    lemma_row_block(b as int, batch as int, nr as int);
                }
                let best = best_index(out.as_slice(), b * nr, nr);
                tokens.push(best as u32);
                b += 1;
            }
            per_step.push(tokens);
            step += 1;
        }
        let mut results: Vec<Vec<u32>> = Vec::new();
        let mut b: usize = 0;
        while b < batch
            invariant
                b <= batch,
                batch == tokenized_prompts@.len(),
                per_step@.len() == GENERATED_TOKENS,
                forall|k: int| 0 <= k < GENERATED_TOKENS ==> (#[trigger] per_step@[k])@.len() == batch,
                forall|k: int, c: int|
                    0 <= k < GENERATED_TOKENS && 0 <= c < batch ==> #[trigger] per_step@[k]@[c] == generated_token(
                        ctx0,
                        batch as int,
                        c,
                        k,
                    ),
                results@.len() == b,
                forall|c: int| 0 <= c < b ==> (#[trigger] results@[c])@.len() == GENERATED_TOKENS,
                forall|c: int, k: int|
                    0 <= c < b && 0 <= k < GENERATED_TOKENS ==> #[trigger] results@[c]@[k] == generated_token(
                        ctx0,
                        batch as int,
                        c,
                        k,
                    ),
            decreases batch - b,
        {
            let mut row: Vec<u32> = Vec::new();
            let mut k: usize = 0;
            while k < GENERATED_TOKENS
                invariant
                    k <= GENERATED_TOKENS,
                    b < batch,
                    per_step@.len() == GENERATED_TOKENS,
                    forall|k2: int| 0 <= k2 < GENERATED_TOKENS ==> (#[trigger] per_step@[k2])@.len() == batch,
                    forall|k2: int, c: int|
                        0 <= k2 < GENERATED_TOKENS && 0 <= c < batch ==> #[trigger] per_step@[k2]@[c]
                            == generated_token(ctx0, batch as int, c, k2),
                    row@.len() == k,
                    forall|k2: int| 0 <= k2 < k ==> #[trigger] row@[k2] == generated_token(ctx0, batch as int, b as int, k2),
                decreases GENERATED_TOKENS - k,
            {
                let tokens: &Vec<u32> = &per_step[k];
                assert(tokens@.len() == batch);
                row.push(tokens[b]);
                k += 1;
            }
            results.push(row);
            b += 1;
        }
        results
    }
}

/// A zero-allocation lifetime-bound engine for execution in `no_alloc` environments.
pub struct Vec101EngineBorrow<'a> {
    ctx: vec101_context<'a>,
    out: &'a mut [i32],
}

impl<'a> Vec101EngineBorrow<'a> {
    pub closed spec fn context(&self) -> vec101_context<'a> {
        self.ctx
    }

    pub closed spec fn output(&self) -> Seq<i32> {
        self.out@
    }

    /// Create a new borrowed engine from provided slices; refused when the
    /// output buffer holds fewer entries than one per (vector, row) pair (at
    /// least one).
    pub fn new(
        w_stream: &'a [u8],
        x_stream: &'a [i8],
        s_stream: &'a [i32],
        out_buffer: &'a mut [i32],
        batch_size: usize,
        num_rows: usize,
        blocks_per_row: usize,
    ) -> (r: Result<Self, &'static str>)
        requires
            batch_size * num_rows <= usize::MAX,
        ensures
            match r {
                Ok(e) => {
                    &&& old(out_buffer)@.len() >= out_size(batch_size as int, num_rows as int)
                    &&& e.output() == old(out_buffer)@
                    &&& e.context().quant_type == QuantType::Bit1_58
                    &&& e.context().w_stream == w_stream
                    &&& e.context().x_stream == x_stream
                    &&& e.context().s_stream == s_stream
                    &&& e.context().kv_blocks@.len() == 0
                    &&& e.context().num_blocks == 0
                    &&& e.context().block_size == 16
                    &&& e.context().batch_size == batch_size
                    &&& e.context().num_rows == num_rows
                    &&& e.context().blocks_per_row == blocks_per_row
                    &&& e.context().num_threads == 1
                    &&& e.context().tree_mask@.len() == 0
                    &&& e.context().tree_size == 0
                    &&& e.context().hardware_handle == 0
                },
                Err(_) => old(out_buffer)@.len() < out_size(batch_size as int, num_rows as int),
            },
    {
        let n = batch_size * num_rows;
        let expected_out_size = if n == 0 { 1 } else { n };
        if out_buffer.len() < expected_out_size {
            return Err("Output buffer is too small for the given batch_size and num_rows");
        }
        let kv: &[&[i32]] = &[];
        let tree: &[u32] = &[];
        let ctx = vec101_context {
            quant_type: QuantType::Bit1_58,
            w_stream,
            x_stream,
            s_stream,
            kv_blocks: kv,
            num_blocks: 0,
            block_size: 16,
            batch_size,
            num_rows,
            blocks_per_row,
            num_threads: 1,
            tree_mask: tree,
            tree_size: 0,
            hardware_handle: 0,
        };
        Ok(Self { ctx, out: out_buffer })
    }

    /// Set quantization type (default is Bit1_58)
    pub fn set_quant_type(&mut self, q: QuantType)
        ensures
            final(self).context() == (vec101_context { quant_type: q, ..old(self).context() }),
            final(self).output() == old(self).output(),
    {
        self.ctx.quant_type = q;
    }

    /// Set number of threads for computation
    pub fn set_num_threads(&mut self, num_threads: usize)
        ensures
            final(self).context() == (vec101_context { num_threads, ..old(self).context() }),
            final(self).output() == old(self).output(),
    {
        self.ctx.num_threads = num_threads;
    }

    /// Set hardware handle for backend acceleration
    pub fn set_hardware_handle(&mut self, handle: usize)
        ensures
            final(self).context() == (vec101_context { hardware_handle: handle, ..old(self).context() }),
            final(self).output() == old(self).output(),
    {
        self.ctx.hardware_handle = handle;
    }

    /// Set tree mask and tree size for speculative decoding
    pub fn set_tree_mask(&mut self, mask: &'a [u32], size: usize)
        ensures
            final(self).context() == (vec101_context { tree_mask: mask, tree_size: size, ..old(self).context() }),
            final(self).output() == old(self).output(),
    {
        self.ctx.tree_mask = mask;
        self.ctx.tree_size = size;
    }

    /// Set KV blocks and block size for paged attention
    pub fn set_kv_blocks(&mut self, kv_blocks: &'a [&'a [i32]], num_blocks: usize, block_size: usize)
        ensures
            final(self).context() == (vec101_context { kv_blocks, num_blocks, block_size, ..old(self).context() }),
            final(self).output() == old(self).output(),
    {
        self.ctx.kv_blocks = kv_blocks;
        self.ctx.num_blocks = num_blocks;
        self.ctx.block_size = block_size;
    }

    /// Run the computation safely
    pub fn compute(&mut self)
        requires
            runnable(&old(self).context(), old(self).output().len() as int),
        ensures
            final(self).context() == old(self).context(),
            final(self).output() == computed(&old(self).context(), old(self).output()),
    {
        vec101_compute(&self.ctx, self.out);
    }
}

/// The output buffer after running `ctx` once with each weight stream of
/// `layers[..n]` in turn.
pub open spec fn layers_applied(ctx: vec101_context, layers: Seq<&[u8]>, out: Seq<i32>, n: nat) -> Seq<i32>
    decreases n,
{
    if n == 0 {
        out
    } else {
        let prev = layers_applied(ctx, layers, out, (n - 1) as nat);
        computed(&vec101_context { w_stream: layers[n - 1], ..ctx }, prev)
    }
}

/// A safe wrapper for running multi-layer sequential evaluations.
/// Encapsulates the weight-stream swapping inside a loop, reducing alignment
/// and out-of-bounds risks for callers.
pub struct LayerSequenceEvaluator<'a> {
    context: vec101_context<'a>,
    layer_weights: &'a [&'a [u8]],
    out: &'a mut [i32],
}

impl<'a> LayerSequenceEvaluator<'a> {
    pub closed spec fn context(&self) -> vec101_context<'a> {
        self.context
    }

    pub closed spec fn layers(&self) -> Seq<&'a [u8]> {
        self.layer_weights@
    }

    pub closed spec fn output(&self) -> Seq<i32> {
        self.out@
    }

    /// Create a new evaluator from a base context, the weight stream of each
    /// layer and the output buffer.
    pub fn new(context: vec101_context<'a>, layer_weights: &'a [&'a [u8]], out_buffer: &'a mut [i32]) -> (r: Self)
        ensures
            r.context() == context,
            r.layers() == layer_weights@,
            r.output() == old(out_buffer)@,
    {
        Self { context, layer_weights, out: out_buffer }
    }

    /// Iteratively evaluates all layers in sequence, the context taking each
    /// layer's weight stream in turn.
    pub fn evaluate_all(&mut self)
        requires
            forall|k: int|
                0 <= k < old(self).layers().len() ==> runnable(
                    &(vec101_context { w_stream: #[trigger] old(self).layers()[k], ..old(self).context() }),
                    old(self).output().len() as int,
                ),
        ensures
            final(self).layers() == old(self).layers(),
            final(self).output() == layers_applied(
                old(self).context(),
                old(self).layers(),
                old(self).output(),
                old(self).layers().len(),
            ),
            final(self).context() == (if old(self).layers().len() == 0 {
                old(self).context()
            } else {
                vec101_context { w_stream: old(self).layers().last(), ..old(self).context() }
            }),
    {
        let ghost ctx0 = self.context;
        let ghost out0 = self.out@;
        let ghost layers = self.layer_weights@;
        let n = self.layer_weights.len();
        let mut k: usize = 0;
        while k < n
            invariant
                n == layers.len(),
                layers == self.layer_weights@,
                k <= n,
                self.out@.len() == out0.len(),
                forall|k2: int|
                    0 <= k2 < n ==> runnable(
                        &(vec101_context { w_stream: #[trigger] layers[k2], ..ctx0 }),
                        out0.len() as int,
                    ),
                self.context == (if k == 0 { ctx0 } else { vec101_context { w_stream: layers[k - 1], ..ctx0 } }),
                self.out@ == layers_applied(ctx0, layers, out0, k as nat),
            decreases n - k,
        {
            self.context.w_stream = self.layer_weights[k];
            assert(self.context == vec101_context { w_stream: layers[k as int], ..ctx0 });
            assert(runnable(&(vec101_context { w_stream: layers[k as int], ..ctx0 }), out0.len() as int));
            vec101_compute(&self.context, self.out);
            k += 1;
        }
    }
}

/// A safe dummy engine that prevents crashes by skipping execution.
pub struct NoopEngine<'a> {
    ctx: vec101_context<'a>,
}

impl<'a> NoopEngine<'a> {
    pub closed spec fn context(&self) -> vec101_context<'a> {
        self.ctx
    }

    pub(crate) fn new(ctx: vec101_context<'a>) -> (r: Self)
        ensures
            r.context() == ctx,
    {
        Self { ctx }
    }

    /// Performs no operation.
    pub fn compute(&mut self)
        ensures
            final(self).context() == old(self).context(),
    {
    }
}

} // verus!
