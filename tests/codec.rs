use qoi::decode::{
    decode, decode_chunk, decode_from_data, decode_header, read_chunk, verify_eof_sequence, Chunk,
    DecodeError, DecoderState,
};
use qoi::encode::{
    encode, encode_from_slice, encode_from_slice_to_vec, encode_pixels_to, pixels_from_slice, u8_to_i8,
    Encoder,
};
use qoi::{qoi_hash, Channels, Colorspace, Header, Pixel};

const END: [u8; 8] = [0, 0, 0, 0, 0, 0, 0, 1];

fn header(width: u32, height: u32, channels: Channels) -> Header {
    Header { width, height, channels, colorspace: Colorspace::Srgb }
}

fn px(r: u8, g: u8, b: u8, a: u8) -> Pixel {
    Pixel { r, g, b, a }
}

/// Runs one chunk of the encoder from the given previous pixel and returns its bytes.
fn one_chunk(prev: Pixel, pixel: Pixel) -> Vec<u8> {
    let mut encoder = Encoder::new(header(1, 1, Channels::Rgba), Vec::new());
    encoder.previous_pixel = prev;
    let next = encoder.encode_chunk(&[pixel], 0);
    assert_eq!(next, 1);
    assert_eq!(encoder.previous_pixel, pixel);
    encoder.output
}

fn sample_rgba(n: usize) -> Vec<u8> {
    let mut data = Vec::new();
    for i in 0..n {
        let v = (i * 37 % 251) as u8;
        let step = if i % 5 < 2 { 0 } else { v };
        data.extend_from_slice(&[step, step.wrapping_add(1), 200, if i % 7 == 0 { 128 } else { 255 }]);
    }
    data
}

#[test]
fn round_trip_rgba() {
    let h = header(8, 5, Channels::Rgba);
    let data = sample_rgba(40);
    let encoded = encode_from_slice_to_vec(h, &data);
    let (decoded, h2) = decode_from_data(&encoded).unwrap();
    assert_eq!(h2, h);
    assert_eq!(decoded, data);
}

#[test]
fn round_trip_rgb() {
    let h = Header { width: 7, height: 3, channels: Channels::Rgb, colorspace: Colorspace::Rgb };
    let mut data = Vec::new();
    for i in 0..21u32 {
        let v = (i * 13 % 256) as u8;
        data.extend_from_slice(&[v, v / 2, if i < 10 { 9 } else { v.wrapping_mul(3) }]);
    }
    let encoded = encode_from_slice_to_vec(h, &data);
    let mut out = Vec::new();
    assert_eq!(decode(&encoded, &mut out), Ok(h));
    assert_eq!(out, data);
}

#[test]
fn round_trip_empty_image() {
    let h = header(0, 0, Channels::Rgba);
    let encoded = encode_from_slice_to_vec(h, &[]);
    assert_eq!(encoded.len(), 14 + 8);
    assert_eq!(&encoded[14..], &END);
    assert_eq!(decode_from_data(&encoded), Ok((Vec::new(), h)));
}

#[test]
fn header_layout() {
    let h = Header {
        width: 0x0102_0304,
        height: 0x0a0b_0c0d,
        channels: Channels::Rgb,
        colorspace: Colorspace::Rgb,
    };
    let encoded = encode_from_slice_to_vec(Header { width: 0, ..h }, &[]);
    assert_eq!(&encoded[0..4], b"qoif");
    let mut encoder = Encoder::new(h, Vec::new());
    encoder.encode_header();
    assert_eq!(
        encoder.output,
        vec![b'q', b'o', b'i', b'f', 1, 2, 3, 4, 0x0a, 0x0b, 0x0c, 0x0d, 3, 1]
    );
    assert_eq!(decode_header(&encoder.output), Ok(h));
}

#[test]
fn repeated_pixel_is_run() {
    let p = px(10, 10, 10, 255);
    assert_eq!(one_chunk(p, p), vec![0b1100_0000]);
}

#[test]
fn long_run_is_split_at_62() {
    let h = header(100, 1, Channels::Rgba);
    let pixels = vec![[0u8, 0, 0, 255]; 100];
    let mut out = Vec::new();
    encode(h, &pixels, &mut out);
    assert_eq!(&out[14..16], &[0xc0 + 61, 0xc0 + 37]);
    assert_eq!(&out[16..], &END);
    let (decoded, _) = decode_from_data(&out).unwrap();
    assert_eq!(decoded, [0u8, 0, 0, 255].repeat(100));
}

#[test]
fn second_occurrence_uses_index() {
    let h = header(3, 1, Channels::Rgba);
    let pixels = [[0u8, 0, 0, 255], [10, 20, 30, 255], [0, 0, 0, 255]];
    let mut out = Vec::new();
    encode(h, &pixels, &mut out);
    assert_eq!(qoi_hash(px(0, 0, 0, 255)), 53);
    assert_eq!(qoi_hash(px(10, 20, 30, 255)), 9);
    assert_eq!(&out[14..20], &[0xc0, 254, 10, 20, 30, 53]);
    assert_eq!(&out[20..], &END);
}

#[test]
fn diff_boundary() {
    let prev = px(100, 100, 100, 255);
    // -2, +1, -1
    assert_eq!(one_chunk(prev, px(98, 101, 99, 255)), vec![64 + 0 * 16 + 3 * 4 + 1]);
    // +1, -2, +1 across the wrap
    assert_eq!(one_chunk(px(255, 1, 255, 255), px(0, 255, 0, 255)), vec![64 + 3 * 16 + 0 * 4 + 3]);
    // -3 on red falls to Luma.
    assert_eq!(one_chunk(prev, px(97, 100, 100, 255)), vec![128 + 32, 5 * 16 + 8]);
    // +2 on blue falls to Luma.
    assert_eq!(one_chunk(prev, px(100, 100, 102, 255)), vec![128 + 32, 8 * 16 + 10]);
}

#[test]
fn luma_boundary() {
    let prev = px(0, 0, 0, 255);
    assert_eq!(one_chunk(prev, px(38, 31, 38, 255)), vec![128 + 63, 0xff]);
    assert_eq!(one_chunk(prev, px(32, 32, 32, 255)), vec![254, 32, 32, 32]);
    assert_eq!(one_chunk(prev, px(224, 224, 224, 255)), vec![128, 0x88]);
}

#[test]
fn alpha_change_forces_rgba() {
    let prev = px(10, 10, 10, 255);
    assert_eq!(one_chunk(prev, px(10, 10, 10, 254)), vec![255, 10, 10, 10, 254]);
    assert_eq!(one_chunk(prev, px(11, 10, 10, 254)), vec![255, 11, 10, 10, 254]);
}

#[test]
fn encoder_methods() {
    let mut encoder = Encoder::new(header(1, 1, Channels::Rgba), Vec::new());
    let p = px(1, 2, 3, 255);
    assert_eq!(encoder.try_encode_with_op_index(p), None);
    encoder.update_previous_pixel(p);
    assert_eq!(encoder.try_encode_with_op_index(p), Some(qoi_hash(p) as u8));
    assert_eq!(encoder.try_encode_with_op_diff(px(3, 2, 3, 255)), None);
    assert_eq!(encoder.try_encode_with_op_diff(px(2, 2, 3, 255)), Some(64 + 3 * 16 + 2 * 4 + 2));
    assert_eq!(encoder.try_encode_with_op_luma(px(100, 2, 3, 255)), None);
    assert_eq!(encoder.try_encode_with_op_rgb(px(9, 8, 7, 255)), Some([254, 9, 8, 7]));
    assert_eq!(encoder.try_encode_with_op_rgb(px(9, 8, 7, 0)), None);
    assert_eq!(encoder.encode_with_op_rgba(px(9, 8, 7, 6)), [255, 9, 8, 7, 6]);
    assert_eq!(encoder.try_run(&[p, p, px(0, 0, 0, 0)], 0), Some((0xc1, 2)));
    assert_eq!(encoder.try_run(&[px(0, 0, 0, 0)], 0), None);
    let out = encoder.finish();
    assert_eq!(out, END.to_vec());
}

#[test]
fn signed_byte() {
    assert_eq!(u8_to_i8(0), 0);
    assert_eq!(u8_to_i8(127), 127);
    assert_eq!(u8_to_i8(128), -128);
    assert_eq!(u8_to_i8(254), -2);
}

#[test]
fn channel_and_colorspace_bytes() {
    assert_eq!(Channels::from_byte(3), Some(Channels::Rgb));
    assert_eq!(Channels::from_byte(4), Some(Channels::Rgba));
    assert_eq!(Channels::from_byte(5), None);
    assert_eq!(Colorspace::from_byte(0), Some(Colorspace::Srgb));
    assert_eq!(Colorspace::from_byte(1), Some(Colorspace::Rgb));
    assert_eq!(Colorspace::from_byte(2), None);
    assert_eq!(Channels::Rgba.to_byte(), 4);
    assert_eq!(Colorspace::Rgb.to_byte(), 1);
}

#[test]
fn chunk_grammar() {
    assert_eq!(read_chunk(&[254, 1, 2, 3], 0), Ok((Chunk::Rgb { r: 1, g: 2, b: 3 }, 4)));
    assert_eq!(read_chunk(&[7, 255, 1, 2, 3, 4], 1), Ok((Chunk::Rgba(px(1, 2, 3, 4)), 6)));
    assert_eq!(read_chunk(&[63], 0), Ok((Chunk::Index(63), 1)));
    assert_eq!(read_chunk(&[0b01_00_10_11], 0), Ok((Chunk::Diff { dr: -2, dg: 0, db: 1 }, 1)));
    assert_eq!(
        read_chunk(&[0b10_000000, 0xf0], 0),
        Ok((Chunk::Luma { dg: -32, dr_dg: 7, db_dg: -8 }, 2))
    );
    assert_eq!(read_chunk(&[253], 0), Ok((Chunk::Run(62), 1)));
    assert_eq!(read_chunk(&[192], 0), Ok((Chunk::Run(1), 1)));
    assert_eq!(read_chunk(&[254, 1, 2], 0), Err(DecodeError::IoError));
    assert_eq!(read_chunk(&[], 0), Err(DecodeError::IoError));
}

#[test]
fn decode_wraps_deltas() {
    // Diff -2 on red from 0 wraps to 254; Luma +31 on each channel then wraps red to 29.
    let mut stream = vec![b'q', b'o', b'i', b'f', 0, 0, 0, 2, 0, 0, 0, 1, 4, 0];
    stream.extend_from_slice(&[0b01_00_10_10, 0b10_111111, 0x88]);
    stream.extend_from_slice(&END);
    let (data, _) = decode_from_data(&stream).unwrap();
    assert_eq!(data, vec![254, 0, 0, 255, 29, 31, 31, 255]);
}

#[test]
fn run_refreshes_cache_slot() {
    // A run of the start pixel stores it, so an Index of its slot yields it.
    let mut stream = vec![b'q', b'o', b'i', b'f', 0, 0, 0, 2, 0, 0, 0, 1, 4, 0];
    stream.extend_from_slice(&[0xc0, 53]);
    stream.extend_from_slice(&END);
    let (data, _) = decode_from_data(&stream).unwrap();
    assert_eq!(data, vec![0, 0, 0, 255, 0, 0, 0, 255]);
}

#[test]
fn run_past_pixel_count_is_kept() {
    let mut stream = vec![b'q', b'o', b'i', b'f', 0, 0, 0, 1, 0, 0, 0, 1, 3, 0];
    stream.extend_from_slice(&[0xc2]);
    stream.extend_from_slice(&END);
    let (data, _) = decode_from_data(&stream).unwrap();
    assert_eq!(data, [0u8, 0, 0].repeat(3));
}

#[test]
fn malformed_header_is_rejected() {
    let h = header(1, 1, Channels::Rgba);
    let mut encoded = encode_from_slice_to_vec(h, &[1, 2, 3, 4]);
    encoded[3] = b'g';
    assert_eq!(decode_from_data(&encoded), Err(DecodeError::InvalidHeader));
    assert_eq!(decode_from_data(b"xyzw"), Err(DecodeError::InvalidHeader));
    assert_eq!(decode_from_data(b"qoi"), Err(DecodeError::IoError));
}

#[test]
fn invalid_channels_and_colorspace() {
    let h = header(1, 1, Channels::Rgba);
    let good = encode_from_slice_to_vec(h, &[1, 2, 3, 4]);
    let mut bad = good.clone();
    bad[12] = 5;
    assert_eq!(decode_from_data(&bad), Err(DecodeError::InvalidNumberOfChannels));
    let mut bad = good.clone();
    bad[13] = 2;
    assert_eq!(decode_from_data(&bad), Err(DecodeError::InvalidColorspace));
    assert_eq!(decode_from_data(&good[..13]), Err(DecodeError::IoError));
}

#[test]
fn truncated_stream_fails() {
    let h = header(4, 4, Channels::Rgba);
    let data = sample_rgba(16);
    let encoded = encode_from_slice_to_vec(h, &data);
    let chunks_end = encoded.len() - 8;
    for cut in 14..chunks_end {
        let mut out = vec![7u8];
        assert_eq!(decode(&encoded[..cut], &mut out), Err(DecodeError::IoError));
        assert_eq!(out, vec![7u8]);
    }
    assert_eq!(decode_from_data(&encoded[..encoded.len() - 1]), Err(DecodeError::IoError));
}

#[test]
fn end_marker_is_enforced() {
    let h = header(2, 1, Channels::Rgb);
    let encoded = encode_from_slice_to_vec(h, &[1, 2, 3, 4, 5, 6]);
    let n = encoded.len();
    for k in 0..8 {
        let mut bad = encoded.clone();
        bad[n - 8 + k] ^= 0x10;
        assert_eq!(decode_from_data(&bad), Err(DecodeError::InvalidEofSequence));
    }
    let mut longer = encoded.clone();
    longer.extend_from_slice(&[9, 9]);
    assert!(decode_from_data(&longer).is_ok());
}

#[test]
fn encode_appends_to_output() {
    let h = header(1, 1, Channels::Rgb);
    let mut out = vec![42u8];
    encode_from_slice(h, &[5, 100, 7], &mut out);
    assert_eq!(out[0], 42);
    assert_eq!(&out[1..5], b"qoif");
    // Alpha 255 is kept; the colors are not reachable by Diff or Luma.
    assert_eq!(&out[15..19], &[254, 5, 100, 7]);
}

#[test]
fn decoder_state_steps() {
    let mut state = DecoderState::new(header(2, 2, Channels::Rgb));
    assert_eq!(state.previous_pixel, px(0, 0, 0, 255));
    let stream = [254, 9, 8, 7, 0xc1, 255, 1, 2, 3, 4];
    let mut out = Vec::new();
    assert_eq!(decode_chunk(&mut state, &stream, 0, &mut out), Ok(4));
    assert_eq!(out, vec![9, 8, 7]);
    assert_eq!(state.index_array[qoi_hash(px(9, 8, 7, 255))], px(9, 8, 7, 255));
    assert_eq!(decode_chunk(&mut state, &stream, 4, &mut out), Ok(5));
    assert_eq!(out, vec![9, 8, 7, 9, 8, 7, 9, 8, 7]);
    assert_eq!(state.n_pixels, 3);
    assert_eq!(decode_chunk(&mut state, &stream, 5, &mut out), Ok(10));
    assert_eq!(state.previous_pixel, px(1, 2, 3, 4));
    assert_eq!(&out[9..], &[1, 2, 3]);
    assert_eq!(state.n_pixels, 4);
    assert_eq!(decode_chunk(&mut state, &stream, 10, &mut out), Err(DecodeError::IoError));
}

#[test]
fn end_marker_check() {
    assert_eq!(verify_eof_sequence(&[5, 0, 0, 0, 0, 0, 0, 0, 1], 1), Ok(()));
    assert_eq!(
        verify_eof_sequence(&[5, 0, 0, 0, 0, 0, 0, 0, 2], 1),
        Err(DecodeError::InvalidEofSequence)
    );
    assert_eq!(verify_eof_sequence(&[0, 0, 0, 0, 0, 0, 0], 0), Err(DecodeError::IoError));
    assert_eq!(
        verify_eof_sequence(&[0, 0, 3, 0, 0, 0, 0], 0),
        Err(DecodeError::InvalidEofSequence)
    );
}

#[test]
fn buffer_to_pixels() {
    let rgb = pixels_from_slice(&[1, 2, 3, 4, 5, 6, 7], Channels::Rgb);
    assert_eq!(rgb, vec![px(1, 2, 3, 255), px(4, 5, 6, 255)]);
    let rgba = pixels_from_slice(&[1, 2, 3, 4, 5, 6, 7], Channels::Rgba);
    assert_eq!(rgba, vec![px(1, 2, 3, 4)]);
}

#[test]
fn pixel_and_array_entry_points_agree() {
    let h = header(2, 2, Channels::Rgba);
    let arrays = [[1, 2, 3, 4], [1, 2, 3, 4], [200, 0, 9, 4], [1, 2, 3, 255]];
    let pixels: Vec<Pixel> = arrays.iter().map(|a| px(a[0], a[1], a[2], a[3])).collect();
    let mut a = Vec::new();
    encode(h, &arrays, &mut a);
    let mut b = Vec::new();
    encode_pixels_to(h, &pixels, &mut b);
    assert_eq!(a, b);
    assert_eq!(a, encode_from_slice_to_vec(h, &arrays.concat()));
    assert_eq!(qoi::decode_from_data(&a), Ok((arrays.concat(), h)));
}
