//! A lossless image codec: a fixed header followed by a stream of chunks, each of
//! which rebuilds one or more pixels from the previous pixel and a 64-slot cache
//! of recently seen colors.
use vstd::prelude::*;

pub mod bmp;
pub mod decode;
pub mod encode;
pub mod roundtrip;

pub use decode::{DecodeError, decode, decode_from_data};
pub use encode::{encode, encode_from_slice, encode_from_slice_to_vec};

verus! {

/// The image's fixed preamble.
#[derive(Debug, Clone, Copy, PartialEq, Eq, Structural, Default)]
pub struct Header {
    pub width: u32,
    pub height: u32,
    pub channels: Channels,
    pub colorspace: Colorspace,
}

/// Number of channels that a pixel carries in the decoded buffer.
#[derive(Debug, Clone, Copy, PartialEq, Eq, Structural, Default)]
pub enum Channels {
    #[default]
    Rgb,
    Rgba,
}

/// How the color channels are to be read.
#[derive(Debug, Clone, Copy, PartialEq, Eq, Structural, Default)]
pub enum Colorspace {
    /// sRGB with linear alpha.
    #[default]
    Srgb,
    /// All channels linear.
    Rgb,
}

/// One pixel, always held with four channels.
#[derive(Debug, Clone, Copy, PartialEq, Eq, Structural)]
pub struct Pixel {
    pub r: u8,
    pub g: u8,
    pub b: u8,
    pub a: u8,
}

pub open spec fn channels_byte(c: Channels) -> u8 {
    match c {
        Channels::Rgb => 3,
        Channels::Rgba => 4,
    }
}

pub open spec fn colorspace_byte(c: Colorspace) -> u8 {
    match c {
        Colorspace::Srgb => 0,
        Colorspace::Rgb => 1,
    }
}

/// Bytes that one pixel takes in a decoded buffer.
pub open spec fn stride(c: Channels) -> nat {
    match c {
        Channels::Rgb => 3,
        Channels::Rgba => 4,
    }
}

impl Channels {
    pub fn from_byte(byte: u8) -> (r: Option<Self>)
        ensures
            r matches Some(c) ==> channels_byte(c) == byte,
            r is None <==> byte != 3 && byte != 4,
    {
        match byte {
            3 => Some(Self::Rgb),
            4 => Some(Self::Rgba),
            _ => None,
        }
    }

    pub fn to_byte(self) -> (r: u8)
        ensures
            r == channels_byte(self),
    {
        match self {
            Self::Rgb => 3,
            Self::Rgba => 4,
        }
    }
}

impl Colorspace {
    pub fn from_byte(byte: u8) -> (r: Option<Self>)
        ensures
            r matches Some(c) ==> colorspace_byte(c) == byte,
            r is None <==> byte > 1,
    {
        match byte {
            0 => Some(Self::Srgb),
            1 => Some(Self::Rgb),
            _ => None,
        }
    }

    pub fn to_byte(self) -> (r: u8)
        ensures
            r == colorspace_byte(self),
    {
        match self {
            Self::Srgb => 0,
            Self::Rgb => 1,
        }
    }
}

/// The cache slot of a pixel.
pub open spec fn hash(p: Pixel) -> int {
    (p.r * 3 + p.g * 5 + p.b * 7 + p.a * 11) % 64
}

/// The cache slot that a pixel is stored in and looked up from.
pub fn qoi_hash(p: Pixel) -> (r: usize)
    ensures
        r == hash(p),
        r < 64,
{
    let r = p.r as usize;
    let g = p.g as usize;
    let b = p.b as usize;
    let a = p.a as usize;
    (r * 3 + g * 5 + b * 7 + a * 11) % 64
}

/// The four bytes that open every stream.
pub open spec fn magic() -> Seq<u8> {
    seq![0x71u8, 0x6fu8, 0x69u8, 0x66u8]
}

/// The eight bytes that close every stream.
pub open spec fn end_marker() -> Seq<u8> {
    seq![0u8, 0u8, 0u8, 0u8, 0u8, 0u8, 0u8, 1u8]
}

/// A 32-bit integer, most significant byte first.
pub open spec fn be_bytes(x: u32) -> Seq<u8> {
    seq![(x >> 24u32) as u8, (x >> 16u32) as u8, (x >> 8u32) as u8, x as u8]
}

/// The integer that four bytes hold, most significant first.
pub open spec fn be_value(b0: u8, b1: u8, b2: u8, b3: u8) -> u32 {
    ((b0 as u32) << 24u32) | ((b1 as u32) << 16u32) | ((b2 as u32) << 8u32) | (b3 as u32)
}

/// The fourteen bytes that a header is written as.
pub open spec fn header_bytes(h: Header) -> Seq<u8> {
    magic() + be_bytes(h.width) + be_bytes(h.height) + seq![
        channels_byte(h.channels),
        colorspace_byte(h.colorspace),
    ]
}

/// Number of pixels that an image of this header holds.
pub open spec fn pixel_total(h: Header) -> int {
    h.width * h.height
}

/// The pixel that both directions start from.
pub open spec fn start_pixel() -> Pixel {
    Pixel { r: 0, g: 0, b: 0, a: 255 }
}

/// The cache that both directions start from: 64 zeroed pixels.
pub open spec fn start_cache() -> Seq<Pixel> {
    Seq::new(64, |i: int| Pixel { r: 0, g: 0, b: 0, a: 0 })
}

/// A pixel as it stands in a decoded buffer.
pub open spec fn pixel_bytes(p: Pixel, c: Channels) -> Seq<u8> {
    match c {
        Channels::Rgb => seq![p.r, p.g, p.b],
        Channels::Rgba => seq![p.r, p.g, p.b, p.a],
    }
}

/// A sequence of pixels as a decoded buffer.
pub open spec fn flatten(ps: Seq<Pixel>, c: Channels) -> Seq<u8>
    decreases ps.len(),
{
    if ps.len() == 0 {
        seq![]
    } else {
        flatten(ps.drop_last(), c) + pixel_bytes(ps.last(), c)
    }
}

pub proof fn lemma_flatten_append(a: Seq<Pixel>, b: Seq<Pixel>, c: Channels)
    ensures
        flatten(a + b, c) == flatten(a, c) + flatten(b, c),
    decreases b.len(),
{
    if b.len() == 0 {
        assert(a + b =~= a);
        assert(flatten(a, c) + flatten(b, c) =~= flatten(a, c));
    } else {
        lemma_flatten_append(a, b.drop_last(), c);
        assert((a + b).drop_last() =~= a + b.drop_last());
        assert((a + b).last() == b.last());
        assert(flatten(a + b, c) =~= flatten(a, c) + flatten(b, c));
    }
}

} // verus!
