//! Pixels, the hash that places them in the color cache, and the cache itself.

use crate::info::Channels;
use rgb::ComponentSlice;
use vstd::prelude::*;

verus! {

/// One pixel: red, green, blue and alpha, eight bits each.
#[derive(Clone, Copy, Debug, PartialEq, Eq, Structural)]
pub struct Pixel {
    pub r: u8,
    pub g: u8,
    pub b: u8,
    pub a: u8,
}

/// The slot of the color cache that belongs to `p`.
pub open spec fn hash_slot(p: Pixel) -> int {
    (p.r * 3 + p.g * 5 + p.b * 7 + p.a * 11) % 64
}

/// The pixel that precedes the first pixel of every stream.
pub open spec fn seed_pixel() -> Pixel {
    Pixel { r: 0, g: 0, b: 0, a: 255 }
}

/// The pixel that fills the color cache when a stream begins.
pub open spec fn zero_pixel() -> Pixel {
    Pixel { r: 0, g: 0, b: 0, a: 0 }
}

/// The color cache at the start of a stream.
pub open spec fn empty_cache() -> Seq<Pixel> {
    Seq::new(64, |i: int| zero_pixel())
}

/// The pixel with number `i` of the raw buffer `data`. With three channels
/// per pixel, alpha is 255.
pub open spec fn pixel_at(data: Seq<u8>, channels: Channels, i: int) -> Pixel {
    match channels {
        Channels::Rgb => Pixel { r: data[3 * i], g: data[3 * i + 1], b: data[3 * i + 2], a: 255 },
        Channels::Rgba => Pixel {
            r: data[4 * i],
            g: data[4 * i + 1],
            b: data[4 * i + 2],
            a: data[4 * i + 3],
        },
    }
}

/// The pixels of the raw buffer `data`, in order. Bytes at the end that do not
/// make a whole pixel are left out.
pub open spec fn pixels_of(data: Seq<u8>, channels: Channels) -> Seq<Pixel> {
    Seq::new(data.len() / channels.count(), |i: int| pixel_at(data, channels, i))
}

/// The channel with number `k` of `p`, in the order red, green, blue, alpha.
pub open spec fn channel(p: Pixel, k: int) -> u8 {
    if k == 0 {
        p.r
    } else if k == 1 {
        p.g
    } else if k == 2 {
        p.b
    } else {
        p.a
    }
}

/// The bytes of `p` in a raw buffer. With three channels per pixel, alpha is
/// left out.
pub open spec fn pixel_bytes(p: Pixel, channels: Channels) -> Seq<u8> {
    match channels {
        Channels::Rgb => seq![p.r, p.g, p.b],
        Channels::Rgba => seq![p.r, p.g, p.b, p.a],
    }
}

/// The raw buffer that holds `pixels`, in order. With three channels per
/// pixel, alpha is left out.
pub open spec fn bytes_of(pixels: Seq<Pixel>, channels: Channels) -> Seq<u8> {
    match channels {
        Channels::Rgb => Seq::new(3 * pixels.len(), |j: int| channel(pixels[j / 3], j % 3)),
        Channels::Rgba => Seq::new(4 * pixels.len(), |j: int| channel(pixels[j / 4], j % 4)),
    }
}

/// `rgb::ComponentSlice::as_slice` on an `rgb::RGBA<u8>` made of the channels of
/// `p`: the four channels in the order red, green, blue, alpha.
#[verifier::external_body]
#[allow(deprecated)]
pub(crate) fn rgba_components(p: Pixel) -> (out: [u8; 4])
    ensures
        out@ == seq![p.r, p.g, p.b, p.a],
{
    let px = rgb::RGBA::new(p.r, p.g, p.b, p.a);
    let s = px.as_slice();
    [s[0], s[1], s[2], s[3]]
}

/// `rgb::ComponentSlice::as_slice` on the `rgb::RGB<u8>` that `rgb::RGBA::rgb`
/// gives for the channels of `p`: the three color channels in the order red,
/// green, blue.
#[verifier::external_body]
#[allow(deprecated)]
pub(crate) fn rgb_components(p: Pixel) -> (out: [u8; 3])
    ensures
        out@ == seq![p.r, p.g, p.b],
{
    let px = rgb::RGBA::new(p.r, p.g, p.b, p.a).rgb();
    let s = px.as_slice();
    [s[0], s[1], s[2]]
}

/// A raw buffer grows by the bytes of each pixel that is added.
pub(crate) proof fn lemma_bytes_of_push(pixels: Seq<Pixel>, p: Pixel, channels: Channels)
    ensures
        bytes_of(pixels.push(p), channels) == bytes_of(pixels, channels) + pixel_bytes(p, channels),
        bytes_of(pixels, channels).len() == pixels.len() * channels.count(),
{
    assert(bytes_of(pixels.push(p), channels) =~= bytes_of(pixels, channels) + pixel_bytes(
        p,
        channels,
    ));
}

/// The slot of the color cache that belongs to `pixel`.
pub fn qoi_hash(pixel: Pixel) -> (h: usize)
    ensures
        h == hash_slot(pixel),
        h < 64,
{
    let r: usize = pixel.r as usize;
    let g: usize = pixel.g as usize;
    let b: usize = pixel.b as usize;
    let a: usize = pixel.a as usize;

    (r * 3 + g * 5 + b * 7 + a * 11) % 64
}

} // verus!
