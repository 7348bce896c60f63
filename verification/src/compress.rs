use vstd::prelude::*;
use vstd::wrapping::i32_specs::{wrapping_add, wrapping_sub};

verus! {

// ---------------------------------------------------------------------------
// ZigZag mapping between signed and unsigned integers
// ---------------------------------------------------------------------------

/// ZigZag image of a signed integer: 0, -1, 1, -2, 2, ... map to 0, 1, 2, 3, 4, ...
pub open spec fn zigzag(n: int) -> nat {
    if n >= 0 { (2 * n) as nat } else { (-2 * n - 1) as nat }
}

/// Inverse of [`zigzag`].
pub open spec fn unzigzag(u: nat) -> int {
    if u % 2 == 0 { (u / 2) as int } else { -((u + 1) / 2) }
}

/// `unzigzag` undoes `zigzag`.
pub proof fn lemma_unzigzag_zigzag(n: int)
    ensures unzigzag(zigzag(n)) == n,
{
}

/// ZigZag-encodes an `i32`.
pub fn zigzag_encode_i32(n: i32) -> (r: u32)
    ensures r as nat == zigzag(n as int),
{
    if n >= 0 {
        (n as u32) * 2
    } else {
        let m: u32 = (-(n as i64) - 1) as u32;
        m * 2 + 1
    }
}

/// Decodes a ZigZag-encoded `u32` back into an `i32`.
pub fn zigzag_decode_u32(u: u32) -> (r: i32)
    ensures r as int == unzigzag(u as nat),
{
    if u % 2 == 0 {
        (u / 2) as i32
    } else {
        let h: u32 = u / 2;
        -(h as i64) as i32 - 1
    }
}

// ---------------------------------------------------------------------------
// LEB128 variable-length encoding of u32
// ---------------------------------------------------------------------------

/// Unsigned LEB128 bytes of `v`: groups of 7 bits, lowest first, with the high
/// bit set on every byte but the last.
pub open spec fn leb128_bytes(v: nat) -> Seq<u8>
    decreases v,
{
    if v < 128 {
        seq![v as u8]
    } else {
        seq![(v % 128 + 128) as u8] + leb128_bytes(v / 128)
    }
}

/// What [`leb128_decode_u32`] reads at the start of `s` when `depth` bytes of the
/// same number were read before: `Some((value, bytes read))`, or `None` when the
/// bytes end before the number does, or the number does not fit in 32 bits
/// (a fifth byte with the high bit set, or with a payload above 15).
pub open spec fn leb128_decode(s: Seq<u8>, depth: nat) -> Option<(nat, nat)>
    decreases s.len(),
{
    if s.len() == 0 || depth >= 5 {
        None
    } else {
        let b = s[0];
        if b < 128 {
            if depth == 4 && b > 15 { None } else { Some((b as nat, 1nat)) }
        } else if depth == 4 {
            None
        } else {
            match leb128_decode(s.drop_first(), depth + 1) {
                Some((v, n)) => Some((((b - 128) + 128 * v) as nat, n + 1)),
                None => None,
            }
        }
    }
}

/// Exclusive bound of a value whose encoding starts after `depth` bytes.
pub open spec fn leb128_bound(depth: nat) -> nat {
    if depth == 0 {
        0x1_0000_0000
    } else if depth == 1 {
        0x200_0000
    } else if depth == 2 {
        0x4_0000
    } else if depth == 3 {
        0x800
    } else {
        16
    }
}

/// Every decoded value fits below the bound of its depth.
pub proof fn lemma_leb128_decode_bound(s: Seq<u8>, depth: nat)
    ensures
        leb128_decode(s, depth) matches Some((v, n)) ==> v < leb128_bound(depth) && 1 <= n
            <= s.len() && n <= 5 - depth,
    decreases s.len(),
{
    if s.len() > 0 && depth < 5 && s[0] >= 128 && depth < 4 {
        lemma_leb128_decode_bound(s.drop_first(), depth + 1);
    }
}

/// The length of the encoding of a value below the bound of `depth`.
pub proof fn lemma_leb128_len(v: nat, depth: nat)
    requires v < leb128_bound(depth), depth <= 4,
    ensures 1 <= leb128_bytes(v).len() <= 5 - depth,
    decreases v,
{
    if v >= 128 {
        lemma_leb128_len(v / 128, depth + 1);
    }
}

/// Decoding the encoding of a value gives the value back and reads exactly the
/// encoding, whatever follows it.
pub proof fn lemma_leb128_roundtrip(v: nat, rest: Seq<u8>, depth: nat)
    requires v < leb128_bound(depth), depth <= 4,
    ensures leb128_decode(leb128_bytes(v) + rest, depth) == Some((v, leb128_bytes(v).len())),
    decreases v,
{
    let s = leb128_bytes(v) + rest;
    if v < 128 {
        assert(s[0] == v as u8);
    } else {
        lemma_leb128_roundtrip(v / 128, rest, depth + 1);
        assert(s.drop_first() =~= leb128_bytes(v / 128) + rest);
        assert(s[0] == (v % 128 + 128) as u8);
    }
}

/// Writes the LEB128 encoding of `value` at `out[offset..]` and returns the number
/// of bytes written.
pub fn leb128_encode_u32(value: u32, out: &mut [u8], offset: usize) -> (n: usize)
    requires
        offset + leb128_bytes(value as nat).len() <= old(out).len(),
    ensures
        n == leb128_bytes(value as nat).len(),
        final(out).len() == old(out).len(),
        final(out)@ == old(out)@.subrange(0, offset as int) + leb128_bytes(value as nat)
            + old(out)@.subrange(offset + n, old(out).len() as int),
{
    let mut v: u32 = value;
    let mut i: usize = offset;
    proof {
        lemma_leb128_len(value as nat, 0);
    }
    loop
        invariant
            offset <= i,
            offset + leb128_bytes(value as nat).len() <= out.len(),
            i + leb128_bytes(v as nat).len() == offset + leb128_bytes(value as nat).len(),
            leb128_bytes(v as nat).len() >= 1,
            out.len() == old(out).len(),
            leb128_bytes(value as nat) =~= out@.subrange(offset as int, i as int) + leb128_bytes(
                v as nat,
            ),
            out@.subrange(0, offset as int) == old(out)@.subrange(0, offset as int),
            out@.subrange(i + leb128_bytes(v as nat).len(), out.len() as int) == old(out)@.subrange(
                i + leb128_bytes(v as nat).len(),
                old(out).len() as int,
            ),
        decreases v,
    {
        let ghost prev = out@;
        if v < 128 {
            out[i] = v as u8;
            assert(out@.subrange(offset as int, i + 1) =~= prev.subrange(offset as int, i as int)
                + seq![v as u8]);
            assert(out@.subrange(0, offset as int) =~= prev.subrange(0, offset as int));
            assert(out@.subrange(i + 1, out.len() as int) =~= prev.subrange(i + 1, out.len() as int));
            assert(out@ =~= out@.subrange(0, offset as int) + out@.subrange(offset as int, i + 1)
                + out@.subrange(i + 1, out.len() as int));
            return i + 1 - offset;
        }
        out[i] = (v % 128 + 128) as u8;
        let ghost v_old = v;
        v = v / 128;
        assert(leb128_bytes(v_old as nat) =~= seq![(v_old % 128 + 128) as u8] + leb128_bytes(v as nat));
        assert(out@.subrange(offset as int, i + 1) =~= prev.subrange(offset as int, i as int)
            + seq![(v_old % 128 + 128) as u8]);
        assert(out@.subrange(0, offset as int) =~= prev.subrange(0, offset as int));
        assert(out@.subrange(i + 1 + leb128_bytes(v as nat).len(), out.len() as int) =~= prev.subrange(
            i + 1 + leb128_bytes(v as nat).len(),
            out.len() as int,
        ));
        assert(leb128_bytes(v as nat).len() >= 1);
        i = i + 1;
    }
}

/// Reads an LEB128-encoded `u32` at `buf[pos..]`, `depth` bytes of it having been
/// read before; returns the value of the remaining bytes and how many there were.
fn leb128_decode_from(buf: &[u8], pos: usize, depth: usize) -> (r: Option<(u32, usize)>)
    requires
        pos <= buf.len(),
        depth <= 4,
    ensures
        match leb128_decode(buf@.skip(pos as int), depth as nat) {
            Some((v, n)) => r == Some((v as u32, n as usize)),
            None => r is None,
        },
    decreases 5 - depth,
{
    proof {
        lemma_leb128_decode_bound(buf@.skip(pos as int), depth as nat);
    }
    if pos >= buf.len() {
        return None;
    }
    let b: u8 = buf[pos];
    if b < 128 {
        if depth == 4 && b > 15 {
            None
        } else {
            Some((b as u32, 1))
        }
    } else if depth == 4 {
        None
    } else {
        assert(buf@.skip(pos as int).drop_first() =~= buf@.skip(pos + 1));
        match leb128_decode_from(buf, pos + 1, depth + 1) {
            Some((v, n)) => {
                proof {
                    lemma_leb128_decode_bound(buf@.skip(pos + 1), (depth + 1) as nat);
                }
                Some(((b - 128) as u32 + 128 * v, n + 1))
            },
            None => None,
        }
    }
}

/// Reads an LEB128-encoded `u32` at the start of `buf`; returns the value and the
/// number of bytes it took, or `None` when `buf` ends first or the number does not
/// fit in 32 bits.
pub fn leb128_decode_u32(buf: &[u8]) -> (r: Option<(u32, usize)>)
    ensures
        match leb128_decode(buf@, 0) {
            Some((v, n)) => r == Some((v as u32, n as usize)),
            None => r is None,
        },
{
    assert(buf@.skip(0) =~= buf@);
    leb128_decode_from(buf, 0, 0)
}

} // verus!

verus! {

// ---------------------------------------------------------------------------
// Delta + ZigZag + LEB128 time-series blocks
// ---------------------------------------------------------------------------

/// The bytes that encode the values `xs` following the value `last`: for each value
/// its wrapping difference to the previous one, ZigZag-mapped and LEB128-encoded.
pub open spec fn series_bytes(last: i32, xs: Seq<i32>) -> Seq<u8>
    decreases xs.len(),
{
    if xs.len() == 0 {
        seq![]
    } else {
        leb128_bytes(zigzag(wrapping_sub(xs[0], last) as int)) + series_bytes(
            xs[0],
            xs.drop_first(),
        )
    }
}

/// `count` LEB128 numbers read one after the other from the start of `s`, with the
/// number of bytes they took; `None` when one of them cannot be read.
pub open spec fn leb128_decode_many(s: Seq<u8>, count: nat) -> Option<(Seq<u32>, nat)>
    decreases count,
{
    if count == 0 {
        Some((seq![], 0nat))
    } else {
        match leb128_decode(s, 0) {
            None => None,
            Some((z, n)) => match leb128_decode_many(s.skip(n as int), (count - 1) as nat) {
                None => None,
                Some((zs, m)) => Some((seq![z as u32] + zs, n + m)),
            },
        }
    }
}

/// Running wrapping sums, starting from `last`, of the ZigZag-decoded `zs`.
pub open spec fn prefix_sums(last: i32, zs: Seq<u32>) -> Seq<i32>
    decreases zs.len(),
{
    if zs.len() == 0 {
        seq![]
    } else {
        let x = wrapping_add(last, unzigzag(zs[0] as nat) as i32);
        seq![x] + prefix_sums(x, zs.drop_first())
    }
}

/// What decoding `count` values that follow `last` from the start of `s` gives:
/// the values and the number of bytes read, or `None` when a number cannot be read.
pub open spec fn series_decode(last: i32, s: Seq<u8>, count: nat) -> Option<(Seq<i32>, nat)> {
    match leb128_decode_many(s, count) {
        None => None,
        Some((zs, n)) => Some((prefix_sums(last, zs), n)),
    }
}

/// The ZigZag numbers that [`series_bytes`] encodes.
pub open spec fn series_zigzags(last: i32, xs: Seq<i32>) -> Seq<u32>
    decreases xs.len(),
{
    if xs.len() == 0 {
        seq![]
    } else {
        seq![zigzag(wrapping_sub(xs[0], last) as int) as u32] + series_zigzags(
            xs[0],
            xs.drop_first(),
        )
    }
}

proof fn lemma_zigzag_wrapping(last: i32, x: i32)
    ensures
        zigzag(wrapping_sub(x, last) as int) < 0x1_0000_0000,
        wrapping_add(last, unzigzag(zigzag(wrapping_sub(x, last) as int) as u32 as nat) as i32) == x,
{
    let d = wrapping_sub(x, last);
    lemma_unzigzag_zigzag(d as int);
}

proof fn lemma_series_decode_many(last: i32, xs: Seq<i32>, rest: Seq<u8>)
    ensures
        leb128_decode_many(series_bytes(last, xs) + rest, xs.len()) == Some(
            (series_zigzags(last, xs), series_bytes(last, xs).len()),
        ),
    decreases xs.len(),
{
    if xs.len() > 0 {
        let z = zigzag(wrapping_sub(xs[0], last) as int);
        lemma_zigzag_wrapping(last, xs[0]);
        let tail = series_bytes(xs[0], xs.drop_first());
        let s = series_bytes(last, xs) + rest;
        assert(s =~= leb128_bytes(z) + (tail + rest));
        lemma_leb128_roundtrip(z, tail + rest, 0);
        lemma_series_decode_many(xs[0], xs.drop_first(), rest);
        assert(s.skip(leb128_bytes(z).len() as int) =~= tail + rest);
    }
}

proof fn lemma_prefix_sums_zigzags(last: i32, xs: Seq<i32>)
    ensures
        prefix_sums(last, series_zigzags(last, xs)) == xs,
    decreases xs.len(),
{
    if xs.len() > 0 {
        lemma_zigzag_wrapping(last, xs[0]);
        lemma_prefix_sums_zigzags(xs[0], xs.drop_first());
        let zs = series_zigzags(last, xs);
        assert(zs.drop_first() == series_zigzags(xs[0], xs.drop_first()));
        assert(prefix_sums(last, zs) =~= seq![xs[0]] + xs.drop_first());
    }
    assert(prefix_sums(last, series_zigzags(last, xs)) =~= xs);
}

/// Decoding what the encoder wrote gives back the values it was given and reads
/// exactly the bytes it wrote, whatever follows them.
pub proof fn lemma_series_roundtrip(last: i32, xs: Seq<i32>, rest: Seq<u8>)
    ensures
        series_decode(last, series_bytes(last, xs) + rest, xs.len()) == Some(
            (xs, series_bytes(last, xs).len()),
        ),
{
    lemma_series_decode_many(last, xs, rest);
    lemma_prefix_sums_zigzags(last, xs);
}

/// Each value takes one to five bytes of an encoded series, so a block of 8
/// values never needs more than 40 bytes.
pub proof fn lemma_series_len_bound(last: i32, xs: Seq<i32>)
    ensures
        xs.len() <= series_bytes(last, xs).len() <= 5 * xs.len(),
    decreases xs.len(),
{
    if xs.len() > 0 {
        let z = zigzag(wrapping_sub(xs[0], last) as int);
        lemma_zigzag_wrapping(last, xs[0]);
        lemma_leb128_len(z, 0);
        lemma_series_len_bound(xs[0], xs.drop_first());
    }
}

/// Delta encoder of blocks of 8 `i32` samples.
pub struct VecTimeSeriesEncoder {
    pub last_value: i32,
}

impl VecTimeSeriesEncoder {
    pub fn new(start_value: i32) -> (r: Self)
        ensures r.last_value == start_value,
    {
        Self { last_value: start_value }
    }

    /// Processes a block of exactly 8 elements using auto-vectorizable loops.
    /// Returns the number of bytes written to `out_buf`.
    /// `out_buf` should have at least 40 bytes of capacity (8 * 5 max LEB128 bytes).
    pub fn encode_block_8(&mut self, input: &[i32; 8], out_buf: &mut [u8]) -> (n: usize)
        requires
            series_bytes(old(self).last_value, input@).len() <= old(out_buf).len(),
        ensures
            n == series_bytes(old(self).last_value, input@).len(),
            final(out_buf)@ == series_bytes(old(self).last_value, input@) + old(out_buf)@.skip(
                n as int,
            ),
            final(self).last_value == input[7],
    {
        let ghost start = self.last_value;
        let mut shifted = [0i32; 8];
        let mut deltas = [0i32; 8];
        let mut zigzags = [0u32; 8];

        // Prepare shifted array for vectorized subtraction
        shifted[0] = self.last_value;
        for i in 1..8usize
            invariant
                shifted[0] == start,
                forall|k: int| 1 <= k < i ==> shifted[k] == input[k - 1],
        {
            shifted[i] = input[i - 1];
        }
        for i in 0..8usize
            invariant
                forall|k: int| 0 <= k < i ==> deltas[k] == wrapping_sub(input[k], shifted[k]),
        {
            deltas[i] = input[i].wrapping_sub(shifted[i]);
        }
        self.last_value = input[7];

        for i in 0..8usize
            invariant
                forall|k: int| 0 <= k < i ==> zigzags[k] as nat == zigzag(deltas[k] as int),
        {
            zigzags[i] = zigzag_encode_i32(deltas[i]);
        }

        // Scalar packing (LEB128 produces variable length output)
        let mut offset: usize = 0;
        let ghost total = series_bytes(start, input@);
        let ghost out0 = out_buf@;
        assert(input@.skip(0) =~= input@);
        assert(out_buf@.subrange(0, 0) =~= seq![]);
        assert(out_buf@.subrange(0, out0.len() as int) =~= out0);
        for i in 0..8usize
            invariant
                out_buf.len() == out0.len(),
                total.len() <= out0.len(),
                forall|k: int| 0 <= k < 8 ==> zigzags[k] as nat == zigzag(
                    wrapping_sub(input[k], if k == 0 { start } else { input[k - 1] }) as int,
                ),
                total == out_buf@.subrange(0, offset as int) + series_bytes(
                    if i == 0 { start } else { input[i - 1] },
                    input@.skip(i as int),
                ),
                offset + series_bytes(
                    if i == 0 { start } else { input[i - 1] },
                    input@.skip(i as int),
                ).len() == total.len(),
                out_buf@.subrange(offset as int, out0.len() as int) == out0.subrange(
                    offset as int,
                    out0.len() as int,
                ),
        {
            let ghost p = if i == 0 { start } else { input[i as int - 1] };
            let ghost rest_in = input@.skip(i as int);
            assert(rest_in[0] == input[i as int]);
            assert(rest_in.drop_first() =~= input@.skip(i + 1));
            let ghost before = out_buf@;
            let w = leb128_encode_u32(zigzags[i], out_buf, offset);
            assert(out_buf@.subrange(0, offset + w) =~= before.subrange(0, offset as int)
                + leb128_bytes(zigzags[i as int] as nat));
            assert(out_buf@.subrange(offset + w, out0.len() as int) =~= before.subrange(
                offset + w,
                out0.len() as int,
            ));
            assert forall|k: int| offset + w <= k < out0.len() implies before[k] == out0[k] by {
                assert(before.subrange(offset as int, out0.len() as int)[k - offset] == out0.subrange(
                    offset as int,
                    out0.len() as int,
                )[k - offset]);
            }
            assert(before.subrange(offset + w, out0.len() as int) =~= out0.subrange(
                offset + w,
                out0.len() as int,
            ));
            offset = offset + w;
        }
        assert(input@.skip(8) =~= seq![]);
        assert(out_buf@ =~= out_buf@.subrange(0, offset as int) + out_buf@.subrange(
            offset as int,
            out0.len() as int,
        ));
        offset
    }
}

/// Delta decoder of blocks of 8 `i32` samples.
pub struct VecTimeSeriesDecoder {
    pub last_value: i32,
}

impl VecTimeSeriesDecoder {
    pub fn new(start_value: i32) -> (r: Self)
        ensures r.last_value == start_value,
    {
        Self { last_value: start_value }
    }

    /// Decodes exactly 8 elements.
    /// Returns the number of bytes read from `in_buf`, or 0 (leaving the decoder
    /// and `out_buf` as they were) when `in_buf` does not hold 8 numbers.
    pub fn decode_block_8(&mut self, in_buf: &[u8], out_buf: &mut [i32; 8]) -> (n: usize)
        ensures
            match series_decode(old(self).last_value, in_buf@, 8) {
                None => n == 0 && final(self).last_value == old(self).last_value
                    && final(out_buf)@ == old(out_buf)@,
                Some((xs, m)) => n == m && final(out_buf)@ == xs && final(self).last_value
                    == xs[7],
            },
    {
        let mut zigzags = [0u32; 8];
        let mut offset: usize = 0;
        let ghost s = in_buf@;
        assert(s.skip(0) =~= s);
        assert(zigzags@.take(0) =~= seq![]);

        // Scalar unpacking (LEB128 is variable length)
        for i in 0..8usize
            invariant
                s == in_buf@,
                offset <= in_buf.len(),
                leb128_decode_many(s, 8) == match leb128_decode_many(
                    s.skip(offset as int),
                    (8 - i) as nat,
                ) {
                    None => None,
                    Some((zs, m)) => Some((zigzags@.take(i as int) + zs, (offset + m) as nat)),
                },
        {
            let ghost rest = s.skip(offset as int);
            proof {
                lemma_leb128_decode_bound(rest, 0);
            }
            match leb128_decode_from(in_buf, offset, 0) {
                Some((val, bytes_read)) => {
                    assert(leb128_decode(rest, 0) is Some);
                    let ghost got = leb128_decode(rest, 0).unwrap();
                    assert(got.1 == bytes_read as nat && got.1 <= rest.len());
                    assert(rest.skip(bytes_read as int) =~= s.skip(offset + bytes_read));
                    let ghost old_z = zigzags@;
                    zigzags[i] = val;
                    assert(zigzags@.take(i + 1) =~= old_z.take(i as int) + seq![val]);
                    offset = offset + bytes_read;
                },
                None => {
                    return 0;
                },
            }
        }
        assert(zigzags@.take(8) =~= zigzags@);
        let ghost zs = zigzags@;
        let ghost start = self.last_value;
        assert(s.skip(offset as int).len() >= 0);

        let mut deltas = [0i32; 8];
        for i in 0..8usize
            invariant
                zigzags@ == zs,
                zs.len() == 8,
                forall|k: int| 0 <= k < i ==> deltas[k] as int == unzigzag(zs[k] as nat),
        {
            deltas[i] = zigzag_decode_u32(zigzags[i]);
        }

        let mut current = self.last_value;
        for i in 0..8usize
            invariant
                zs.len() == 8,
                forall|k: int| 0 <= k < 8 ==> deltas[k] as int == unzigzag(zs[k] as nat),
                prefix_sums(start, zs) == out_buf@.take(i as int) + prefix_sums(
                    current,
                    zs.skip(i as int),
                ),
                out_buf@.len() == 8,
                i > 0 ==> current == out_buf[i - 1],
        {
            let ghost old_out = out_buf@;
            assert(zs.skip(i as int)[0] == zs[i as int]);
            assert(zs.skip(i as int).drop_first() =~= zs.skip(i + 1));
            current = current.wrapping_add(deltas[i]);
            out_buf[i] = current;
            assert(out_buf@.take(i + 1) =~= old_out.take(i as int) + seq![current]);
        }
        assert(zs.skip(8) =~= seq![]);
        assert(out_buf@.take(8) =~= out_buf@);
        self.last_value = current;
        offset
    }
}

} // verus!
