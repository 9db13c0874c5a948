//! The image header: dimensions, channel count and colorspace, and their
//! fixed layout at the start of a stream.

use crate::error::{truncated, DecodeError, DecodeFailure, EncodeError};
use byteorder::{BigEndian, ByteOrder};
use vstd::prelude::*;
use vstd::std_specs::convert::TryFromSpecImpl;

verus! {

/// How many channels each pixel of the raw buffer has.
#[derive(Clone, Copy, Debug, PartialEq, Eq, Structural)]
pub enum Channels {
    Rgb,
    Rgba,
}

impl Channels {
    /// The number of bytes that one pixel takes in the raw buffer.
    pub open spec fn count(self) -> nat {
        match self {
            Channels::Rgb => 3,
            Channels::Rgba => 4,
        }
    }

    /// The number of bytes per pixel, which is also the header's channel byte.
    pub fn as_u8(self) -> (n: u8)
        ensures
            n == self.count(),
    {
        match self {
            Channels::Rgb => 3,
            Channels::Rgba => 4,
        }
    }
}

impl TryFrom<u8> for Channels {
    type Error = DecodeError;

    fn try_from(v: u8) -> (res: Result<Channels, DecodeError>) {
        match v {
            3 => Ok(Channels::Rgb),
            4 => Ok(Channels::Rgba),
            _ => Err(DecodeError::InvalidChannels(v)),
        }
    }
}

impl TryFromSpecImpl<u8> for Channels {
    open spec fn obeys_try_from_spec() -> bool {
        true
    }

    open spec fn try_from_spec(v: u8) -> Result<Channels, DecodeError> {
        if v == 3 {
            Ok(Channels::Rgb)
        } else if v == 4 {
            Ok(Channels::Rgba)
        } else {
            Err(DecodeError::InvalidChannels(v))
        }
    }
}

/// How the color values are to be read. It never changes what the codec does.
#[derive(Clone, Copy, Debug, PartialEq, Eq, Structural)]
pub enum Colorspace {
    Srgb,
    Linear,
}

impl Colorspace {
    /// The header's colorspace byte.
    pub open spec fn tag(self) -> u8 {
        match self {
            Colorspace::Srgb => 0,
            Colorspace::Linear => 1,
        }
    }

    /// The header's colorspace byte.
    pub fn as_u8(self) -> (n: u8)
        ensures
            n == self.tag(),
    {
        match self {
            Colorspace::Srgb => 0,
            Colorspace::Linear => 1,
        }
    }
}

impl TryFrom<u8> for Colorspace {
    type Error = DecodeError;

    fn try_from(v: u8) -> (res: Result<Colorspace, DecodeError>) {
        match v {
            0 => Ok(Colorspace::Srgb),
            1 => Ok(Colorspace::Linear),
            _ => Err(DecodeError::InvalidColorspace),
        }
    }
}

impl TryFromSpecImpl<u8> for Colorspace {
    open spec fn obeys_try_from_spec() -> bool {
        true
    }

    open spec fn try_from_spec(v: u8) -> Result<Colorspace, DecodeError> {
        if v == 0 {
            Ok(Colorspace::Srgb)
        } else if v == 1 {
            Ok(Colorspace::Linear)
        } else {
            Err(DecodeError::InvalidColorspace)
        }
    }
}

/// The four bytes of `n`, most significant first.
pub open spec fn be_bytes(n: u32) -> Seq<u8> {
    seq![
        (n / 0x100_0000) as u8,
        (n / 0x1_0000 % 0x100) as u8,
        (n / 0x100 % 0x100) as u8,
        (n % 0x100) as u8,
    ]
}

/// The number that the first four bytes of `b` spell, most significant first.
pub open spec fn be_value(b: Seq<u8>) -> int {
    b[0] * 0x100_0000 + b[1] * 0x1_0000 + b[2] * 0x100 + b[3]
}

/// `byteorder::ByteOrder::write_u32` of `BigEndian`, on a buffer of four
/// bytes: it fills the buffer with the bytes of `n`, most significant first.
#[verifier::external_body]
fn be_encode(n: u32) -> (out: [u8; 4])
    ensures
        out@ == be_bytes(n),
{
    let mut out = [0u8; 4];
    BigEndian::write_u32(&mut out, n);
    out
}

/// `byteorder::ByteOrder::read_u32` of `BigEndian`: the number that the first
/// four bytes of `b` spell, most significant first. It panics on fewer bytes.
#[verifier::external_body]
fn be_decode(b: &[u8]) -> (n: u32)
    requires
        b@.len() >= 4,
    ensures
        n == be_value(b@),
{
    BigEndian::read_u32(b)
}

/// What a stream's header says of the image.
#[derive(Clone, Copy, Debug, PartialEq, Eq, Structural)]
pub struct Info {
    pub width: u32,
    pub height: u32,
    pub channels: Channels,
    pub colorspace: Colorspace,
}

/// The ten bytes that describe `info` in a stream.
pub open spec fn info_bytes(info: Info) -> Seq<u8> {
    be_bytes(info.width) + be_bytes(info.height) + seq![
        info.channels.count() as u8,
        info.colorspace.tag(),
    ]
}

/// What reading a description from the front of `s` gives. The bytes are taken
/// in order, so the first one that is missing or not allowed decides.
pub open spec fn parse_info(s: Seq<u8>) -> Result<Info, DecodeFailure> {
    if s.len() < 9 {
        Err(DecodeFailure::Io)
    } else if s[8] != 3 && s[8] != 4 {
        Err(DecodeFailure::InvalidChannels(s[8]))
    } else if s.len() < 10 {
        Err(DecodeFailure::Io)
    } else if s[9] != 0 && s[9] != 1 {
        Err(DecodeFailure::InvalidColorspace)
    } else {
        Ok(
            Info {
                width: be_value(s.subrange(0, 4)) as u32,
                height: be_value(s.subrange(4, 8)) as u32,
                channels: if s[8] == 3 {
                    Channels::Rgb
                } else {
                    Channels::Rgba
                },
                colorspace: if s[9] == 0 {
                    Colorspace::Srgb
                } else {
                    Colorspace::Linear
                },
            },
        )
    }
}

/// The four bytes that begin every stream.
pub const QOI_MAGIC: [u8; 4] = [113, 111, 105, 102];

/// The four bytes that begin every stream.
pub open spec fn magic() -> Seq<u8> {
    seq![113u8, 111, 105, 102]
}

/// The number of bytes of a header.
pub const HEADER_LEN: usize = 14;

/// The header of the stream of an image: the magic bytes, then the
/// description.
pub open spec fn header_bytes(info: Info) -> Seq<u8> {
    magic() + info_bytes(info)
}

/// What reading a header from the front of `s` gives.
pub open spec fn parse_header(s: Seq<u8>) -> Result<Info, DecodeFailure> {
    if s.len() < 4 {
        Err(DecodeFailure::Io)
    } else if s.subrange(0, 4) != magic() {
        Err(DecodeFailure::InvalidSignature)
    } else {
        parse_info(s.skip(4))
    }
}

impl Info {
    /// The description of an image of the given size and kind.
    pub fn new(width: u32, height: u32, channels: Channels, colorspace: Colorspace) -> (info: Self)
        ensures
            info == (Info { width, height, channels, colorspace }),
    {
        Info { width, height, channels, colorspace }
    }

    /// Width and height, in pixels.
    pub fn dimensions(&self) -> (d: (u32, u32))
        ensures
            d == (self.width, self.height),
    {
        (self.width, self.height)
    }

    /// The number of channels per pixel.
    pub fn channels(&self) -> (c: Channels)
        ensures
            c == self.channels,
    {
        self.channels
    }

    /// The colorspace tag.
    pub fn colorspace(&self) -> (c: Colorspace)
        ensures
            c == self.colorspace,
    {
        self.colorspace
    }

    /// The number of pixels of the image.
    pub open spec fn pixel_count(&self) -> nat {
        (self.width as nat) * (self.height as nat)
    }

    /// The number of bytes of the raw pixel buffer.
    pub open spec fn byte_count(&self) -> nat {
        self.pixel_count() * self.channels.count()
    }

    /// The number of bytes of the raw pixel buffer, where a `usize` can hold
    /// it.
    pub fn buffer_size(&self) -> (size: Option<usize>)
        ensures
            match size {
                Some(n) => n == self.byte_count(),
                None => self.byte_count() > usize::MAX,
            },
    {
        let width = self.width as u128;
        let height = self.height as u128;
        let channels = self.channels.as_u8() as u128;
        assert(width * height * channels <= 0xffff_ffff * 0xffff_ffff * 4) by (nonlinear_arith)
            requires
                0 <= width <= 0xffff_ffff,
                0 <= height <= 0xffff_ffff,
                0 <= channels <= 4,
        ;
        assert(width * height <= 0xffff_ffff * 0xffff_ffff) by (nonlinear_arith)
            requires
                0 <= width <= 0xffff_ffff,
                0 <= height <= 0xffff_ffff,
        ;
        let total: u128 = width * height * channels;
        if total <= usize::MAX as u128 {
            Some(total as usize)
        } else {
            None
        }
    }

    /// Appends the description of the image to `w`.
    pub fn encode(&self, w: &mut Vec<u8>) -> (res: Result<(), EncodeError>)
        ensures
            res is Ok,
            final(w)@ == old(w)@ + info_bytes(*self),
    {
        let width = be_encode(self.width);
        let height = be_encode(self.height);
        w.extend_from_slice(width.as_slice());
        w.extend_from_slice(height.as_slice());
        w.push(self.channels.as_u8());
        w.push(self.colorspace.as_u8());
        proof {
            assert(final(w)@ =~= old(w)@ + info_bytes(*self));
        }
        Ok(())
    }

    /// Reads the description of an image from the front of `r`.
    pub fn decode(r: &[u8]) -> (res: Result<Info, DecodeError>)
        ensures
            match res {
                Ok(info) => parse_info(r@) == Ok::<Info, DecodeFailure>(info),
                Err(e) => parse_info(r@) == Err::<Info, DecodeFailure>(e@),
            },
    {
        if r.len() < 4 {
            return Err(truncated());
        }
        let width = be_decode(vstd::slice::slice_subrange(r, 0, 4));
        if r.len() < 8 {
            return Err(truncated());
        }
        let height = be_decode(vstd::slice::slice_subrange(r, 4, 8));
        if r.len() < 9 {
            return Err(truncated());
        }
        let channels = match Channels::try_from(r[8]) {
            Ok(c) => c,
            Err(e) => { return Err(e); },
        };
        if r.len() < 10 {
            return Err(truncated());
        }
        let colorspace = match Colorspace::try_from(r[9]) {
            Ok(c) => c,
            Err(e) => { return Err(e); },
        };
        Ok(Info { width, height, channels, colorspace })
    }
}

} // verus!
