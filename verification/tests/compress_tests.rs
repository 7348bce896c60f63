use vec101::compress::{
    leb128_decode_u32, leb128_encode_u32, zigzag_decode_u32, zigzag_encode_i32, VecTimeSeriesDecoder,
    VecTimeSeriesEncoder,
};

#[test]
fn test_vec_time_series_encoder() {
    let mut encoder = VecTimeSeriesEncoder::new(1000);
    let mut decoder = VecTimeSeriesDecoder::new(1000);

    let input = [1005, 1010, 1011, 1011, 1008, 1000, 995, 990];
    let mut compressed = [0u8; 40];

    let size = encoder.encode_block_8(&input, &mut compressed);
    assert!(size <= 16);

    let mut output = [0i32; 8];
    let read_size = decoder.decode_block_8(&compressed[..size], &mut output);

    assert_eq!(size, read_size);
    assert_eq!(input, output);
}

#[test]
fn series_encoder_exact_bytes() {
    let mut encoder = VecTimeSeriesEncoder::new(1000);
    let mut out = [0xAAu8; 40];
    let n = encoder.encode_block_8(&[1005, 1010, 1011, 1011, 1008, 1000, 995, 990], &mut out);
    // deltas 5 5 1 0 -3 -8 -5 -5, zigzag 10 10 2 0 5 15 9 9
    assert_eq!(n, 8);
    assert_eq!(&out[..8], &[10, 10, 2, 0, 5, 15, 9, 9]);
    // the rest of the buffer is untouched
    assert_eq!(out[8], 0xAA);
    assert_eq!(encoder.last_value, 990);
}

#[test]
fn series_roundtrip_extreme_values() {
    let input = [i32::MIN, i32::MAX, 0, -1, 1, i32::MIN, i32::MIN, 123456789];
    let mut encoder = VecTimeSeriesEncoder::new(7);
    let mut decoder = VecTimeSeriesDecoder::new(7);
    let mut buf = [0u8; 40];
    let n = encoder.encode_block_8(&input, &mut buf);
    let mut out = [0i32; 8];
    assert_eq!(decoder.decode_block_8(&buf[..n], &mut out), n);
    assert_eq!(out, input);
    assert_eq!(decoder.last_value, 123456789);
    // a second block continues from the last value
    let input2 = [1, 2, 3, 4, 5, 6, 7, 8];
    let n2 = encoder.encode_block_8(&input2, &mut buf);
    assert_eq!(decoder.decode_block_8(&buf[..n2], &mut out), n2);
    assert_eq!(out, input2);
}

#[test]
fn series_decoder_refuses_short_input() {
    let mut decoder = VecTimeSeriesDecoder::new(5);
    let mut out = [42i32; 8];
    // only seven numbers
    assert_eq!(decoder.decode_block_8(&[0, 0, 0, 0, 0, 0, 0], &mut out), 0);
    assert_eq!(out, [42; 8]);
    assert_eq!(decoder.last_value, 5);
    // a number cut short
    assert_eq!(decoder.decode_block_8(&[0, 0, 0, 0, 0, 0, 0, 0x80], &mut out), 0);
    assert_eq!(decoder.last_value, 5);
}

#[test]
fn zigzag_exact_values() {
    assert_eq!(zigzag_encode_i32(0), 0);
    assert_eq!(zigzag_encode_i32(-1), 1);
    assert_eq!(zigzag_encode_i32(1), 2);
    assert_eq!(zigzag_encode_i32(-2), 3);
    assert_eq!(zigzag_encode_i32(i32::MAX), u32::MAX - 1);
    assert_eq!(zigzag_encode_i32(i32::MIN), u32::MAX);
    assert_eq!(zigzag_decode_u32(3), -2);
    assert_eq!(zigzag_decode_u32(u32::MAX), i32::MIN);
    for v in [-1000, -3, 0, 17, 65535] {
        assert_eq!(zigzag_decode_u32(zigzag_encode_i32(v)), v);
    }
}

#[test]
fn leb128_exact_values() {
    let mut buf = [0u8; 8];
    assert_eq!(leb128_encode_u32(300, &mut buf, 1), 2);
    assert_eq!(&buf[..4], &[0, 0xAC, 0x02, 0]);
    assert_eq!(leb128_decode_u32(&buf[1..]), Some((300, 2)));
    assert_eq!(leb128_encode_u32(u32::MAX, &mut buf, 0), 5);
    assert_eq!(&buf[..5], &[0xFF, 0xFF, 0xFF, 0xFF, 0x0F]);
    assert_eq!(leb128_decode_u32(&buf[..5]), Some((u32::MAX, 5)));
    assert_eq!(leb128_decode_u32(&[]), None);
    assert_eq!(leb128_decode_u32(&[0x80, 0x80]), None);
    // more than 32 bits
    assert_eq!(leb128_decode_u32(&[0xFF, 0xFF, 0xFF, 0xFF, 0x7F]), None);
}
