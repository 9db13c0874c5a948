use qoi::{qoi_hash, Channels, Colorspace, Decoder, Encoder, Info, Pixel};
use std::convert::TryFrom;

fn px(r: u8, g: u8, b: u8, a: u8) -> Pixel {
    Pixel { r, g, b, a }
}

fn both_sides(width: u32, channels: Channels, data: &[u8]) -> ([Pixel; 64], Pixel, [Pixel; 64], Pixel) {
    let info = Info::new(width, 1, channels, Colorspace::Srgb);
    let mut encoder = Encoder::new(Vec::new(), info).unwrap();
    encoder.write_image_data(data).unwrap();
    let enc_cache = *encoder.cache();
    let enc_prev = encoder.previous();
    let stream = encoder.into_inner();
    let mut decoder = Decoder::new(&stream).unwrap();
    let mut out = vec![0; decoder.output_buffer_size()];
    decoder.read_image(&mut out).unwrap();
    assert_eq!(out, data);
    (enc_cache, enc_prev, *decoder.cache(), decoder.previous())
}

#[test]
fn hash_of_known_pixels() {
    assert_eq!(qoi_hash(px(0, 0, 0, 0)), 0);
    assert_eq!(qoi_hash(px(0, 0, 0, 255)), 53);
    assert_eq!(qoi_hash(px(10, 10, 10, 255)), 11);
    assert_eq!(qoi_hash(px(1, 0, 0, 0)), 3);
    assert_eq!(qoi_hash(px(0, 1, 0, 0)), 5);
    assert_eq!(qoi_hash(px(0, 0, 1, 0)), 7);
    assert_eq!(qoi_hash(px(0, 0, 0, 1)), 11);
    assert_eq!(qoi_hash(px(255, 255, 255, 255)), (255 * 26) % 64);
}

#[test]
fn fresh_state() {
    let info = Info::new(1, 1, Channels::Rgb, Colorspace::Srgb);
    let encoder = Encoder::new(Vec::new(), info).unwrap();
    assert_eq!(*encoder.cache(), [px(0, 0, 0, 0); 64]);
    assert_eq!(encoder.previous(), px(0, 0, 0, 255));
    let stream = encoder.into_inner();
    let decoder = Decoder::new(&stream).unwrap();
    assert_eq!(*decoder.cache(), [px(0, 0, 0, 0); 64]);
    assert_eq!(decoder.previous(), px(0, 0, 0, 255));
    assert_eq!(decoder.pixels_read(), 0);
}

#[test]
fn caches_agree_after_each_prefix() {
    let mut data = Vec::new();
    let mut seed: u32 = 3;
    for i in 0..120 {
        seed = seed.wrapping_mul(1664525).wrapping_add(1013904223);
        let v = (seed >> 24) as u8;
        if i % 5 == 4 {
            let n = data.len();
            let last = [data[n - 4], data[n - 3], data[n - 2], data[n - 1]];
            data.extend_from_slice(&last);
        } else {
            data.extend_from_slice(&[v | 1, v / 2, v / 3, if i % 7 == 0 { v } else { 255 }]);
        }
    }
    for len in 1..=120usize {
        let (enc_cache, enc_prev, dec_cache, dec_prev) =
            both_sides(len as u32, Channels::Rgba, &data[..4 * len]);
        assert_eq!(enc_cache, dec_cache, "after {} pixels", len);
        assert_eq!(enc_prev, dec_prev);
        let n = 4 * len;
        assert_eq!(enc_prev, px(data[n - 4], data[n - 3], data[n - 2], data[n - 1]));
    }
}

#[test]
fn cache_holds_each_pixel_in_its_slot() {
    let data = vec![100, 0, 200, 0, 100, 0];
    let (enc_cache, _, dec_cache, _) = both_sides(2, Channels::Rgb, &data);
    let mut expected = [px(0, 0, 0, 0); 64];
    expected[25] = px(100, 0, 200, 255);
    expected[41] = px(0, 100, 0, 255);
    assert_eq!(enc_cache, expected);
    assert_eq!(dec_cache, expected);
}

#[test]
fn leading_run_of_the_start_pixel_enters_only_the_decoders_cache() {
    let data = vec![0, 0, 0, 0, 0, 0, 9, 9, 9];
    let (enc_cache, enc_prev, dec_cache, dec_prev) = both_sides(3, Channels::Rgb, &data);
    assert_eq!(enc_prev, dec_prev);
    assert_eq!(enc_cache[53], px(0, 0, 0, 0));
    assert_eq!(dec_cache[53], px(0, 0, 0, 255));
    for slot in 0..64 {
        if slot != 53 {
            assert_eq!(enc_cache[slot], dec_cache[slot]);
        }
    }
}

#[test]
fn caches_agree_again_once_the_slot_is_written() {
    let data = vec![0, 0, 0, 9, 9, 9, 0, 0, 0];
    let (enc_cache, _, dec_cache, _) = both_sides(3, Channels::Rgb, &data);
    assert_eq!(enc_cache, dec_cache);
    assert_eq!(enc_cache[53], px(0, 0, 0, 255));
}

#[test]
fn channels_from_byte() {
    assert_eq!(Channels::try_from(3u8).unwrap(), Channels::Rgb);
    assert_eq!(Channels::try_from(4u8).unwrap(), Channels::Rgba);
    for v in [0u8, 1, 2, 5, 255] {
        assert!(matches!(Channels::try_from(v), Err(qoi::DecodeError::InvalidChannels(c)) if c == v));
    }
    assert_eq!(Channels::Rgb.as_u8(), 3);
    assert_eq!(Channels::Rgba.as_u8(), 4);
}

#[test]
fn colorspace_from_byte() {
    assert_eq!(Colorspace::try_from(0u8).unwrap(), Colorspace::Srgb);
    assert_eq!(Colorspace::try_from(1u8).unwrap(), Colorspace::Linear);
    for v in [2u8, 3, 255] {
        assert!(matches!(Colorspace::try_from(v), Err(qoi::DecodeError::InvalidColorspace)));
    }
    assert_eq!(Colorspace::Srgb.as_u8(), 0);
    assert_eq!(Colorspace::Linear.as_u8(), 1);
}

#[test]
fn info_holds_what_it_was_given() {
    let info = Info::new(640, 480, Channels::Rgb, Colorspace::Linear);
    assert_eq!(info.dimensions(), (640, 480));
    assert_eq!(info.channels(), Channels::Rgb);
    assert_eq!(info.colorspace(), Colorspace::Linear);
    assert_eq!(info.width, 640);
    assert_eq!(info.height, 480);
}

#[test]
fn info_bytes_are_big_endian() {
    let info = Info::new(0xdead_beef, 0x0000_0100, Channels::Rgb, Colorspace::Srgb);
    let mut out = vec![7];
    info.encode(&mut out).unwrap();
    assert_eq!(out, vec![7, 0xde, 0xad, 0xbe, 0xef, 0, 0, 1, 0, 3, 0]);
    assert_eq!(Info::decode(&out[1..]).unwrap(), info);
}

#[test]
fn info_decode_needs_ten_bytes() {
    let bytes = [0, 0, 0, 1, 0, 0, 0, 1, 4, 1, 0xaa];
    assert_eq!(
        Info::decode(&bytes).unwrap(),
        Info::new(1, 1, Channels::Rgba, Colorspace::Linear)
    );
    for len in 0..10 {
        assert!(matches!(Info::decode(&bytes[..len]), Err(qoi::DecodeError::IoError(_))));
    }
    let bad = [0, 0, 0, 1, 0, 0, 0, 1, 9];
    assert!(matches!(Info::decode(&bad), Err(qoi::DecodeError::InvalidChannels(9))));
}

#[test]
fn buffer_size_of_large_images() {
    assert_eq!(Info::new(3, 5, Channels::Rgba, Colorspace::Srgb).buffer_size(), Some(60));
    assert_eq!(Info::new(0, 5, Channels::Rgb, Colorspace::Srgb).buffer_size(), Some(0));
    let huge = Info::new(u32::MAX, u32::MAX, Channels::Rgba, Colorspace::Srgb);
    assert_eq!(huge.buffer_size(), None);
    let wide = Info::new(u32::MAX, 1, Channels::Rgb, Colorspace::Srgb);
    let expected = (u32::MAX as u128) * 3;
    if expected <= usize::MAX as u128 {
        assert_eq!(wide.buffer_size(), Some(expected as usize));
    } else {
        assert_eq!(wide.buffer_size(), None);
    }
}
