use qoi::{Channels, Colorspace, DecodeError, Decoder, EncodeError, Encoder, Info};

const END: [u8; 8] = [0, 0, 0, 0, 0, 0, 0, 1];

fn header(width: u32, height: u32, channels: u8, colorspace: u8) -> Vec<u8> {
    let mut h = vec![113, 111, 105, 102];
    h.extend_from_slice(&width.to_be_bytes());
    h.extend_from_slice(&height.to_be_bytes());
    h.push(channels);
    h.push(colorspace);
    h
}

fn encode(width: u32, height: u32, channels: Channels, data: &[u8]) -> Vec<u8> {
    let info = Info::new(width, height, channels, Colorspace::Srgb);
    let mut encoder = Encoder::new(Vec::new(), info).unwrap();
    encoder.write_image_data(data).unwrap();
    encoder.into_inner()
}

fn decode(stream: &[u8]) -> Vec<u8> {
    let mut decoder = Decoder::new(stream).unwrap();
    let mut out = vec![0; decoder.output_buffer_size()];
    decoder.read_image(&mut out).unwrap();
    out
}

fn body(stream: &[u8]) -> &[u8] {
    assert_eq!(&stream[stream.len() - 8..], &END);
    &stream[14..stream.len() - 8]
}

fn noise(len: usize, mut seed: u32) -> Vec<u8> {
    let mut out = Vec::with_capacity(len);
    for _ in 0..len {
        seed = seed.wrapping_mul(1664525).wrapping_add(1013904223);
        out.push((seed >> 24) as u8);
    }
    out
}

fn smooth(width: usize, height: usize, channels: usize) -> Vec<u8> {
    let mut out = Vec::with_capacity(width * height * channels);
    for y in 0..height {
        for x in 0..width {
            out.push((x * 3 + y) as u8);
            out.push((x + y * 2) as u8);
            out.push(((x / 4) * 16) as u8);
            if channels == 4 {
                out.push(if (x / 8) % 2 == 0 { 255 } else { 128 });
            }
        }
    }
    out
}

#[test]
fn round_trip_rgb_noise() {
    let data = noise(31 * 17 * 3, 7);
    let stream = encode(31, 17, Channels::Rgb, &data);
    assert_eq!(decode(&stream), data);
}

#[test]
fn round_trip_rgba_noise() {
    let data = noise(16 * 16 * 4, 99);
    let stream = encode(16, 16, Channels::Rgba, &data);
    assert_eq!(decode(&stream), data);
}

#[test]
fn round_trip_rgb_smooth() {
    let data = smooth(64, 48, 3);
    let stream = encode(64, 48, Channels::Rgb, &data);
    assert!(stream.len() < data.len());
    assert_eq!(decode(&stream), data);
}

#[test]
fn round_trip_rgba_smooth() {
    let data = smooth(64, 48, 4);
    let stream = encode(64, 48, Channels::Rgba, &data);
    assert!(stream.len() < data.len());
    assert_eq!(decode(&stream), data);
}

#[test]
fn round_trip_wraps_around_channel_ends() {
    let data = vec![255, 0, 1, 0, 255, 0, 1, 1, 255, 254, 3, 250, 2, 255, 3];
    let stream = encode(5, 1, Channels::Rgb, &data);
    assert_eq!(decode(&stream), data);
}

#[test]
fn header_is_read_back_as_written() {
    let info = Info::new(0x0102_0304, 7, Channels::Rgba, Colorspace::Linear);
    let encoder = Encoder::new(Vec::new(), info).unwrap();
    let stream = encoder.into_inner();
    assert_eq!(stream, vec![113, 111, 105, 102, 1, 2, 3, 4, 0, 0, 0, 7, 4, 1]);
    let decoder = Decoder::new(&stream).unwrap();
    assert_eq!(*decoder.info(), info);
    assert_eq!(decoder.info().dimensions(), (0x0102_0304, 7));
    assert_eq!(decoder.info().channels(), Channels::Rgba);
    assert_eq!(decoder.info().colorspace(), Colorspace::Linear);
}

#[test]
fn header_keeps_what_was_in_the_sink() {
    let info = Info::new(1, 1, Channels::Rgb, Colorspace::Srgb);
    let encoder = Encoder::new(vec![9, 8], info).unwrap();
    assert_eq!(encoder.get_ref()[..2], [9, 8]);
    assert_eq!(encoder.get_ref()[2..], header(1, 1, 3, 0)[..]);
}

#[test]
fn write_header_writes_a_second_header() {
    let info = Info::new(2, 3, Channels::Rgb, Colorspace::Srgb);
    let encoder = Encoder::new(Vec::new(), info).unwrap();
    let encoder = encoder.write_header().unwrap();
    let mut twice = header(2, 3, 3, 0);
    twice.extend_from_slice(&header(2, 3, 3, 0));
    assert_eq!(encoder.into_inner(), twice);
}

#[test]
fn output_buffer_size_is_width_height_channels() {
    let stream = header(5, 7, 3, 0);
    assert_eq!(Decoder::new(&stream).unwrap().output_buffer_size(), 105);
    let stream = header(5, 7, 4, 0);
    assert_eq!(Decoder::new(&stream).unwrap().output_buffer_size(), 140);
}

#[test]
fn buffer_one_byte_short_is_refused() {
    let data = noise(4 * 3 * 3, 1);
    let stream = encode(4, 3, Channels::Rgb, &data);
    let mut decoder = Decoder::new(&stream).unwrap();
    let mut out = vec![0xee; decoder.output_buffer_size() - 1];
    let err = decoder.read_image(&mut out).unwrap_err();
    assert!(matches!(err, DecodeError::BufferSize { expected: 36, actual: 35 }));
    assert!(out.iter().all(|b| *b == 0xee));
    assert_eq!(decoder.pixels_read(), 0);
    let mut out = vec![0; 36];
    decoder.read_image(&mut out).unwrap();
    assert_eq!(out, data);
}

#[test]
fn larger_buffer_keeps_its_tail() {
    let data = vec![1, 2, 3, 4, 5, 6];
    let stream = encode(2, 1, Channels::Rgb, &data);
    let mut decoder = Decoder::new(&stream).unwrap();
    let mut out = vec![0xee; 9];
    decoder.read_image(&mut out).unwrap();
    assert_eq!(out, vec![1, 2, 3, 4, 5, 6, 0xee, 0xee, 0xee]);
}

#[test]
fn long_run_of_the_start_pixel() {
    let data = vec![0; 200 * 3];
    let stream = encode(200, 1, Channels::Rgb, &data);
    assert_eq!(body(&stream), &[0xfd, 0xfd, 0xfd, 0xcd]);
    let total: usize = body(&stream).iter().map(|b| (b & 0x3f) as usize + 1).sum();
    assert_eq!(total, 200);
    assert_eq!(decode(&stream), data);
}

#[test]
fn run_of_exactly_sixty_two() {
    let data = vec![0; 62 * 3];
    let stream = encode(62, 1, Channels::Rgb, &data);
    assert_eq!(body(&stream), &[0xfd]);
    let data = vec![0; 63 * 3];
    let stream = encode(63, 1, Channels::Rgb, &data);
    assert_eq!(body(&stream), &[0xfd, 0xc0]);
    assert_eq!(decode(&stream), data);
}

#[test]
fn long_run_of_another_pixel() {
    let data = vec![1; 63 * 3];
    let stream = encode(63, 1, Channels::Rgb, &data);
    assert_eq!(body(&stream), &[0x7f, 0xfd]);
    assert_eq!(decode(&stream), data);
}

#[test]
fn run_is_flushed_before_another_pixel() {
    let data = vec![0, 0, 0, 0, 0, 0, 1, 1, 1];
    let stream = encode(3, 1, Channels::Rgb, &data);
    assert_eq!(body(&stream), &[0xc1, 0x7f]);
    assert_eq!(decode(&stream), data);
}

#[test]
fn two_gray_pixels() {
    let data = vec![10, 10, 10, 10, 10, 10];
    let stream = encode(2, 1, Channels::Rgb, &data);
    let mut expected = header(2, 1, 3, 0);
    expected.extend_from_slice(&[0xaa, 0x88, 0xc0]);
    expected.extend_from_slice(&END);
    assert_eq!(stream, expected);
    assert_eq!(decode(&stream), data);
}

#[test]
fn diff_opcode() {
    assert_eq!(body(&encode(1, 1, Channels::Rgb, &[1, 1, 1])), &[0x7f]);
    assert_eq!(body(&encode(1, 1, Channels::Rgb, &[255, 255, 255])), &[0x55]);
    assert_eq!(body(&encode(1, 1, Channels::Rgb, &[254, 0, 1])), &[0x4b]);
}

#[test]
fn luma_opcode() {
    assert_eq!(body(&encode(1, 1, Channels::Rgb, &[10, 10, 10])), &[0xaa, 0x88]);
    assert_eq!(body(&encode(1, 1, Channels::Rgb, &[216, 224, 231])), &[0x80, 0x0f]);
    assert_eq!(body(&encode(1, 1, Channels::Rgb, &[23, 31, 38])), &[0xbf, 0x0f]);
}

#[test]
fn rgb_opcode() {
    assert_eq!(body(&encode(1, 1, Channels::Rgb, &[100, 0, 200])), &[0xfe, 100, 0, 200]);
    assert_eq!(body(&encode(1, 1, Channels::Rgb, &[0, 32, 0])), &[0xfe, 0, 32, 0]);
}

#[test]
fn rgba_opcode() {
    assert_eq!(body(&encode(1, 1, Channels::Rgba, &[1, 2, 3, 4])), &[0xff, 1, 2, 3, 4]);
}

#[test]
fn index_opcode() {
    assert_eq!(body(&encode(1, 1, Channels::Rgba, &[0, 0, 0, 0])), &[0x00]);
    let data = vec![100, 0, 200, 0, 100, 0, 100, 0, 200];
    let stream = encode(3, 1, Channels::Rgb, &data);
    assert_eq!(body(&stream), &[0xfe, 100, 0, 200, 0xfe, 0, 100, 0, 0x19]);
    assert_eq!(decode(&stream), data);
}

#[test]
fn single_pixel_images() {
    for value in [0u8, 1, 127, 255] {
        let data = vec![value, value.wrapping_add(90), value.wrapping_mul(3)];
        assert_eq!(decode(&encode(1, 1, Channels::Rgb, &data)), data);
        let data = vec![value, value.wrapping_add(90), value.wrapping_mul(3), value];
        assert_eq!(decode(&encode(1, 1, Channels::Rgba, &data)), data);
    }
}

#[test]
fn zero_width_or_height_is_refused() {
    let info = Info::new(0, 5, Channels::Rgb, Colorspace::Srgb);
    assert!(matches!(Encoder::new(Vec::new(), info), Err(EncodeError::ZeroWidth)));
    let info = Info::new(5, 0, Channels::Rgb, Colorspace::Srgb);
    assert!(matches!(Encoder::new(Vec::new(), info), Err(EncodeError::ZeroHeight)));
    let info = Info::new(0, 0, Channels::Rgba, Colorspace::Linear);
    assert!(matches!(Encoder::new(Vec::new(), info), Err(EncodeError::ZeroWidth)));
}

#[test]
fn zero_width_decodes_to_nothing() {
    let mut stream = header(0, 9, 3, 0);
    stream.extend_from_slice(&END);
    let mut decoder = Decoder::new(&stream).unwrap();
    assert_eq!(decoder.output_buffer_size(), 0);
    let mut out = vec![];
    decoder.read_image(&mut out).unwrap();
    assert_eq!(decoder.pixels_read(), 0);
}

#[test]
fn two_alternating_colors() {
    let mut data = Vec::new();
    for i in 0..40 {
        if i % 2 == 0 {
            data.extend_from_slice(&[200, 10, 10]);
        } else {
            data.extend_from_slice(&[10, 200, 10]);
        }
    }
    let stream = encode(8, 5, Channels::Rgb, &data);
    let ops = body(&stream);
    assert_eq!(&ops[..8], &[0xfe, 200, 10, 10, 0xfe, 10, 200, 10]);
    assert!(ops[8..].iter().all(|b| b & 0xc0 == 0x00));
    assert_eq!(ops.len(), 8 + 38);
    assert_eq!(decode(&stream), data);
}

#[test]
fn alpha_that_changes_with_every_pixel() {
    let mut data = Vec::new();
    for i in 0..50u8 {
        data.extend_from_slice(&[i, 2 * i, 3 * i, 200 - i]);
    }
    let stream = encode(10, 5, Channels::Rgba, &data);
    let ops = body(&stream);
    assert_eq!(ops.len(), 50 * 5);
    for (i, op) in ops.chunks(5).enumerate() {
        assert_eq!(op, &[0xff, data[4 * i], data[4 * i + 1], data[4 * i + 2], data[4 * i + 3]]);
    }
    assert_eq!(decode(&stream), data);
}

#[test]
fn bytes_that_make_no_whole_pixel_are_left_out() {
    let stream = encode(1, 1, Channels::Rgb, &[1, 1, 1, 9, 9]);
    assert_eq!(body(&stream), &[0x7f]);
}

#[test]
fn wrong_magic_is_refused() {
    let mut stream = encode(1, 1, Channels::Rgb, &[1, 2, 3]);
    stream[2] ^= 0x20;
    assert!(matches!(Decoder::new(&stream), Err(DecodeError::InvalidSignature)));
}

#[test]
fn wrong_channel_count_is_refused() {
    let mut stream = encode(1, 1, Channels::Rgb, &[1, 2, 3]);
    stream[12] = 5;
    assert!(matches!(Decoder::new(&stream), Err(DecodeError::InvalidChannels(5))));
    assert!(matches!(
        Decoder::new(&header(1, 1, 0, 0)[..13]),
        Err(DecodeError::InvalidChannels(0))
    ));
}

#[test]
fn wrong_colorspace_is_refused() {
    let mut stream = encode(1, 1, Channels::Rgb, &[1, 2, 3]);
    stream[13] = 2;
    assert!(matches!(Decoder::new(&stream), Err(DecodeError::InvalidColorspace)));
}

#[test]
fn short_header_is_an_io_error() {
    let stream = header(3, 3, 4, 1);
    for len in 0..14 {
        match Decoder::new(&stream[..len]) {
            Err(DecodeError::IoError(e)) => {
                assert_eq!(e.kind(), std::io::ErrorKind::UnexpectedEof)
            }
            other => panic!("{} bytes gave {:?}", len, other.map(|_| ())),
        }
    }
    assert!(Decoder::new(&stream).is_ok());
}

#[test]
fn stream_cut_inside_an_opcode_is_an_io_error() {
    let data = vec![1, 1, 1, 100, 0, 200, 7, 7, 7];
    let stream = encode(3, 1, Channels::Rgb, &data);
    assert_eq!(&body(&stream)[..5], &[0x7f, 0xfe, 100, 0, 200]);
    let cut = &stream[..14 + 3];
    let mut decoder = Decoder::new(cut).unwrap();
    let mut out = vec![0xee; 9];
    match decoder.read_image(&mut out) {
        Err(DecodeError::IoError(e)) => assert_eq!(e.kind(), std::io::ErrorKind::UnexpectedEof),
        other => panic!("{:?}", other),
    }
    assert_eq!(decoder.pixels_read(), 1);
    assert_eq!(out, vec![1, 1, 1, 0xee, 0xee, 0xee, 0xee, 0xee, 0xee]);
}

#[test]
fn stream_cut_inside_a_luma_opcode_is_an_io_error() {
    let stream = encode(1, 1, Channels::Rgb, &[10, 10, 10]);
    let mut decoder = Decoder::new(&stream[..15]).unwrap();
    let mut out = vec![0; 3];
    assert!(matches!(decoder.read_image(&mut out), Err(DecodeError::IoError(_))));
    let mut decoder = Decoder::new(&stream[..14]).unwrap();
    assert!(matches!(decoder.read_image(&mut out), Err(DecodeError::IoError(_))));
}

#[test]
fn run_past_the_last_pixel_is_refused() {
    let mut stream = header(2, 1, 3, 0);
    stream.extend_from_slice(&[0x7f, 0xc1]);
    stream.extend_from_slice(&END);
    let mut decoder = Decoder::new(&stream).unwrap();
    let mut out = vec![0xee; 6];
    assert!(matches!(decoder.read_image(&mut out), Err(DecodeError::OutOfBounds)));
    assert_eq!(decoder.pixels_read(), 1);
    assert_eq!(out, vec![1, 1, 1, 0xee, 0xee, 0xee]);
}

#[test]
fn run_up_to_the_last_pixel_is_read() {
    let mut stream = header(3, 1, 4, 0);
    stream.extend_from_slice(&[0x7f, 0xc1]);
    stream.extend_from_slice(&END);
    assert_eq!(decode(&stream), vec![1, 1, 1, 255, 1, 1, 1, 255, 1, 1, 1, 255]);
}

#[test]
fn opcodes_are_read_by_hand() {
    let mut stream = header(6, 1, 4, 0);
    stream.extend_from_slice(&[
        0xff, 9, 8, 7, 6, // rgba
        0xfe, 1, 2, 3, // rgb, alpha stays 6
        0x40, // diff -2 -2 -2
        0x80, 0x00, // luma: green -32, red and blue -40
        0x00, // index 0: nothing was stored there
        0xc0, // run of one
    ]);
    stream.extend_from_slice(&END);
    assert_eq!(
        decode(&stream),
        vec![
            9, 8, 7, 6, //
            1, 2, 3, 6, //
            255, 0, 1, 6, //
            215, 224, 217, 6, //
            0, 0, 0, 0, //
            0, 0, 0, 0,
        ]
    );
}

#[test]
fn second_read_has_nothing_left() {
    let data = vec![5, 6, 7];
    let stream = encode(1, 1, Channels::Rgb, &data);
    let mut decoder = Decoder::new(&stream).unwrap();
    let mut out = vec![0; 3];
    decoder.read_image(&mut out).unwrap();
    assert_eq!(decoder.pixels_read(), 1);
    let mut again = vec![0xee; 3];
    decoder.read_image(&mut again).unwrap();
    assert_eq!(again, vec![0xee; 3]);
}
