use vec101::feeder::{pack_weights_to_superblocks, superblocks_to_bytes};
use vec101::conv::{conv2d_compute, im2col, pack_conv_weights, Conv2dParams, Im2ColParams};

#[test]
fn test_im2col_basic() {
    let input = vec![1, 2, 3, 4, 5, 6, 7, 8, 9];
    let padded_dim = 2048;
    let out_h = 2;
    let out_w = 2;
    let mut im2col_buf = vec![0i8; out_h * out_w * padded_dim];
    im2col(Im2ColParams {
        input: &input,
        batch_size: 1,
        in_channels: 1,
        height: 3,
        width: 3,
        kernel_h: 2,
        kernel_w: 2,
        stride: 1,
        padding: 0,
        padded_inner_dim: padded_dim,
        output: &mut im2col_buf,
    });
    assert_eq!(&im2col_buf[0..4], &[1, 2, 4, 5]);
    assert_eq!(im2col_buf[4], 0);
    assert_eq!(&im2col_buf[padded_dim..padded_dim + 4], &[2, 3, 5, 6]);
}

#[test]
fn test_pack_conv_weights() {
    let weights = vec![1, -1, 0, 1];
    let packed = pack_conv_weights(&weights, 1, 1, 2, 2);
    assert_eq!(packed.len(), 1);
    let block0 = packed[0].blocks[0];
    assert_eq!(block0.w_pos_bits[0] & 1, 1);
    assert_eq!(block0.w_neg_bits[0] & 2, 2);
    assert_eq!(block0.w_pos_bits[0] & 8, 8);
}

#[test]
fn im2col_with_padding_and_stride() {
    // one 2x2 channel, 3x3 kernel, padding 1, stride 2: one output position
    let input: Vec<i8> = vec![1, 2, 3, 4];
    let mut buf = vec![-1i8; 12];
    im2col(Im2ColParams {
        input: &input,
        batch_size: 1,
        in_channels: 1,
        height: 2,
        width: 2,
        kernel_h: 3,
        kernel_w: 3,
        stride: 2,
        padding: 1,
        padded_inner_dim: 12,
        output: &mut buf,
    });
    assert_eq!(buf, vec![0, 0, 0, 0, 1, 2, 0, 3, 4, 0, 0, 0]);
}

#[test]
fn im2col_two_channels_two_images() {
    // two images of two 1x2 channels, 1x1 kernel
    let input: Vec<i8> = vec![1, 2, 3, 4, 5, 6, 7, 8];
    let mut buf = vec![9i8; 4 * 3];
    im2col(Im2ColParams {
        input: &input,
        batch_size: 2,
        in_channels: 2,
        height: 1,
        width: 2,
        kernel_h: 1,
        kernel_w: 1,
        stride: 1,
        padding: 0,
        padded_inner_dim: 3,
        output: &mut buf,
    });
    assert_eq!(buf, vec![1, 3, 0, 2, 4, 0, 5, 7, 0, 6, 8, 0]);
}

#[test]
fn pack_conv_weights_pads_each_channel() {
    // two output channels of 3 weights each; each gets its own superblock
    let weights = vec![2, 0, -2, 0, 0, 5];
    let packed = pack_conv_weights(&weights, 2, 3, 1, 1);
    assert_eq!(packed.len(), 2);
    assert_eq!(packed[0].blocks[0].w_pos_bits[0], 1);
    assert_eq!(packed[0].blocks[0].w_neg_bits[0], 4);
    assert_eq!(packed[1].blocks[0].w_pos_bits[0], 4);
    assert_eq!(packed[1].blocks[0].w_neg_bits[0], 0);
    for c in 0..2 {
        for b in 1..8 {
            assert_eq!(packed[c].blocks[b].w_pos_bits, [0u64; 4]);
            assert_eq!(packed[c].blocks[b].w_neg_bits, [0u64; 4]);
        }
    }
}

#[test]
fn conv2d_exact_values() {
    // 1x1 kernel, one channel, weight +1 with block scale 100, row scale 1.0
    let packed = pack_conv_weights(&[25600], 1, 1, 1, 1);
    let s = [65536];
    let image: Vec<i8> = vec![64, -64, 128u8 as i8, 0];
    let mut buf = vec![0i8; 4 * 2048];
    let mut out = vec![0i32; 4];
    conv2d_compute(Conv2dParams {
        input: &image,
        packed_weights: &packed,
        batch_size: 1,
        in_channels: 1,
        height: 2,
        width: 2,
        out_channels: 1,
        kernel_h: 1,
        kernel_w: 1,
        stride: 1,
        padding: 0,
        s_stream: &s,
        im2col_buffer: &mut buf,
        out_buffer: &mut out,
    });
    // 64 * 100 >> 8 = 25; 128u8 as i8 = -128 -> -50
    assert_eq!(out, vec![25, -25, -50, 0]);
    assert_eq!(buf[2048], -64);
}

#[test]
fn conv2d_two_output_channels() {
    // channel 0 weight +1 (scale 100), channel 1 weight -1 (scale 100)
    let packed = pack_conv_weights(&[25600, -25600], 2, 1, 1, 1);
    let s = [65536, 2 * 65536];
    let image: Vec<i8> = vec![64, 32];
    let mut buf = vec![0i8; 2 * 2048];
    let mut out = vec![1i32; 4];
    conv2d_compute(Conv2dParams {
        input: &image,
        packed_weights: &packed,
        batch_size: 1,
        in_channels: 1,
        height: 1,
        width: 2,
        out_channels: 2,
        kernel_h: 1,
        kernel_w: 1,
        stride: 1,
        padding: 0,
        s_stream: &s,
        im2col_buffer: &mut buf,
        out_buffer: &mut out,
    });
    // position 0: 25, -50; position 1: 32*100>>8 = 12, -13*2 = -26 (rounding down)
    assert_eq!(out, vec![26, -49, 13, -25]);
}

#[test]
fn conv_packing_is_packing_of_padded_channels() {
    let weights = vec![300, -40, 7, 0, 0, 5];
    let packed = pack_conv_weights(&weights, 2, 3, 1, 1);
    let mut padded = vec![0i32; 2 * 2048];
    padded[..3].copy_from_slice(&weights[..3]);
    padded[2048..2048 + 3].copy_from_slice(&weights[3..]);
    assert_eq!(superblocks_to_bytes(&packed), superblocks_to_bytes(&pack_weights_to_superblocks(&padded)));
}
