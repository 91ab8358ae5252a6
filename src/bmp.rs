//! Export of a decoded pixel buffer as an uncompressed 32-bit bitmap, for looking
//! at an image by eye.
use vstd::prelude::*;

verus! {

/// How the pixels of a buffer handed to `encode_bmp` are laid out.
#[derive(Debug, Clone, Copy, PartialEq, Eq, Structural)]
pub enum PixelFormat {
    Rgb8,
    Rgb8Srgb,
    Rgba8,
    Rgba8Srgb,
    Bgra8,
    Bgra8Srgb,
}

/// Two bytes of an integer, least significant first.
pub open spec fn le16(x: int) -> Seq<u8> {
    seq![(x % 256) as u8, (x / 256 % 256) as u8]
}

/// Four bytes of an integer, least significant first.
pub open spec fn le32(x: int) -> Seq<u8> {
    seq![(x % 256) as u8, (x / 256 % 256) as u8, (x / 65536 % 256) as u8, (x / 16777216 % 256) as u8]
}

/// The 54 bytes of a bitmap's file header and info header.
pub open spec fn bmp_header_bytes(width: u32, height: u32) -> Seq<u8> {
    seq![0x42u8, 0x4du8] + le32(width * 4 * height + 54) + le16(0) + le16(0) + le32(54) + le32(40)
        + le32(width as int) + le32(height as int) + le16(1) + le16(32) + le32(0) + le32(0) + le32(
        2835,
    ) + le32(2835) + le32(0) + le32(0)
}

/// The bytes of a row of pixels, four each.
pub open spec fn quad_bytes(px: Seq<Seq<u8>>) -> Seq<u8>
    decreases px.len(),
{
    if px.len() == 0 {
        seq![]
    } else {
        quad_bytes(px.drop_last()) + px.last()
    }
}

/// The first `n` rows of an image `width` pixels wide, in the order a bitmap
/// stores them: the last row first.
pub open spec fn bmp_rows(px: Seq<Seq<u8>>, width: int, n: int) -> Seq<u8>
    decreases n,
{
    if n <= 0 {
        seq![]
    } else {
        quad_bytes(px.subrange((n - 1) * width, n * width)) + bmp_rows(px, width, n - 1)
    }
}

/// Bytes that one pixel takes in a buffer of this format.
pub open spec fn format_stride(f: PixelFormat) -> int {
    match f {
        PixelFormat::Rgb8 => 3,
        _ => 4,
    }
}

/// The four bitmap bytes (blue, green, red, alpha) of pixel `i` of a buffer;
/// `linear` maps an sRGB channel value to a linear one.
pub open spec fn bmp_quad(f: PixelFormat, d: Seq<u8>, i: int, linear: Seq<u8>) -> Seq<u8> {
    let k = format_stride(f) * i;
    match f {
        PixelFormat::Rgb8 => seq![d[k + 2], d[k + 1], d[k], 255u8],
        PixelFormat::Rgb8Srgb => seq![
            linear[d[k + 2] as int],
            linear[d[k + 1] as int],
            linear[d[k] as int],
            255u8,
        ],
        PixelFormat::Rgba8 => seq![d[k + 2], d[k + 1], d[k], d[k + 3]],
        PixelFormat::Rgba8Srgb => seq![
            linear[d[k + 2] as int],
            linear[d[k + 1] as int],
            linear[d[k] as int],
            d[k + 3],
        ],
        PixelFormat::Bgra8 => seq![d[k], d[k + 1], d[k + 2], d[k + 3]],
        PixelFormat::Bgra8Srgb => seq![
            linear[d[k] as int],
            linear[d[k + 1] as int],
            linear[d[k + 2] as int],
            d[k + 3],
        ],
    }
}

fn push_le16(data: &mut Vec<u8>, x: u16)
    ensures
        final(data)@ == old(data)@ + le16(x as int),
{
    data.push((x % 256) as u8);
    data.push((x / 256 % 256) as u8);
    assert(final(data)@ =~= old(data)@ + le16(x as int));
}

fn push_le32(data: &mut Vec<u8>, x: u32)
    ensures
        final(data)@ == old(data)@ + le32(x as int),
{
    data.push((x % 256) as u8);
    data.push((x / 256 % 256) as u8);
    data.push((x / 65536 % 256) as u8);
    data.push((x / 16777216 % 256) as u8);
    assert(final(data)@ =~= old(data)@ + le32(x as int));
}

/// Appends the bitmap header of an image of 32-bit pixels.
pub fn bmp_header(data: &mut Vec<u8>, width: u32, height: u32)
    requires
        width * 4 * height + 54 <= u32::MAX,
    ensures
        final(data)@ == old(data)@ + bmp_header_bytes(width, height),
{
    proof {
        assert(width * 4 * height == 4 * (width * height)) by (nonlinear_arith);
        assert(0 <= width * height) by (nonlinear_arith);
    }
    let size = (width as u64 * 4 * height as u64 + 54) as u32;
    data.push(0x42);
    data.push(0x4d);
    // File size.
    push_le32(data, size);
    // Reserved.
    push_le16(data, 0);
    push_le16(data, 0);
    // Offset of the pixel data.
    push_le32(data, 54);
    // Size of the info header.
    push_le32(data, 40);
    push_le32(data, width);
    push_le32(data, height);
    // Planes.
    push_le16(data, 1);
    // Bits per pixel.
    push_le16(data, 32);
    // No compression; the image size may then be 0.
    push_le32(data, 0);
    push_le32(data, 0);
    // Pixels per meter, about 72 per inch, across and down.
    push_le32(data, 2835);
    push_le32(data, 2835);
    // Colors used, and important colors.
    push_le32(data, 0);
    push_le32(data, 0);
    assert(final(data)@ =~= old(data)@ + bmp_header_bytes(width, height));
}

/// Encodes `width * height` pixels, given row by row from the top as the four
/// bitmap bytes each (blue, green, red, alpha), into a bitmap file.
pub fn encode_bmp_quads(width: u32, height: u32, pixels: &[[u8; 4]]) -> (r: Vec<u8>)
    requires
        pixels@.len() >= width * height,
        width * 4 * height + 54 <= u32::MAX,
    ensures
        r@ == bmp_header_bytes(width, height) + bmp_rows(
            pixels@.map_values(|q: [u8; 4]| q@),
            width as int,
            height as int,
        ),
{
    let ghost px = pixels@.map_values(|q: [u8; 4]| q@);
    let mut data: Vec<u8> = Vec::new();
    bmp_header(&mut data, width, height);
    let ghost head = data@;
    let w = width as usize;
    let h = height as usize;
    proof {
        assert(width * height <= width * 4 * height) by (nonlinear_arith);
    }
    let mut y: usize = h;
    assert(head + bmp_rows(px, w as int, h as int) =~= data@ + bmp_rows(px, w as int, h as int));
    while y > 0
        invariant
            y <= h,
            h == height,
            w == width,
            w * h <= pixels@.len(),
            w * h <= u32::MAX,
            px == pixels@.map_values(|q: [u8; 4]| q@),
            head + bmp_rows(px, w as int, h as int) == data@ + bmp_rows(px, w as int, y as int),
        decreases y,
    {
        y = y - 1;
        proof {
            assert(y * w + w <= w * h) by (nonlinear_arith)
                requires
                    y < h,
            ;
        }
        let start = y * w;
        let ghost d0 = data@;
        let mut x: usize = 0;
        let len = pixels.len();
        while x < w
            invariant
                x <= w,
                start == y * w,
                start + w <= pixels@.len(),
                len == pixels@.len(),
                px == pixels@.map_values(|q: [u8; 4]| q@),
                data@ == d0 + quad_bytes(px.subrange(start as int, start + x)),
            decreases w - x,
        {
            let q = pixels[start + x];
            data.push(q[0]);
            data.push(q[1]);
            data.push(q[2]);
            data.push(q[3]);
            proof {
                let s = px.subrange(start as int, start + x + 1);
                assert(s.drop_last() =~= px.subrange(start as int, start + x));
                assert(s.last() == q@);
                assert(data@ =~= d0 + quad_bytes(s));
            }
            x = x + 1;
        }
        proof {
            assert((y + 1) * w == y * w + w) by (nonlinear_arith);
            let row = quad_bytes(px.subrange(start as int, start + w));
            assert(bmp_rows(px, w as int, y + 1) == row + bmp_rows(px, w as int, y as int));
            assert(d0 + (row + bmp_rows(px, w as int, y as int)) =~= data@ + bmp_rows(
                px,
                w as int,
                y as int,
            ));
        }
    }
    assert(data@ + bmp_rows(px, w as int, 0) =~= data@);
    data
}

/// Encodes an image buffer of the given format into a bitmap file. `linear`
/// maps each sRGB channel value to a linear one, for the sRGB formats.
pub fn encode_bmp(
    width: u32,
    height: u32,
    format: PixelFormat,
    pixel_data: &[u8],
    linear: &[u8; 256],
) -> (r: Vec<u8>)
    requires
        pixel_data@.len() >= format_stride(format) * (width * height),
        width * 4 * height + 54 <= u32::MAX,
    ensures
        r@ == bmp_header_bytes(width, height) + bmp_rows(
            Seq::new(
                (width * height) as nat,
                |i: int| bmp_quad(format, pixel_data@, i, linear@),
            ),
            width as int,
            height as int,
        ),
{
    proof {
        assert(width * height <= width * 4 * height) by (nonlinear_arith);
    }
    let n = width as usize * height as usize;
    let k: usize = if format == PixelFormat::Rgb8 {
        3
    } else {
        4
    };
    let mut quads: Vec<[u8; 4]> = Vec::new();
    let mut i: usize = 0;
    while i < n
        invariant
            i <= n,
            n == width * height,
            k == format_stride(format),
            pixel_data@.len() >= k * n,
            quads@.len() == i,
            forall|j: int|
                0 <= j < i ==> (#[trigger] quads@[j])@ == bmp_quad(format, pixel_data@, j, linear@),
        decreases n - i,
    {
        proof {
            assert(k * i + k <= k * n) by (nonlinear_arith)
                requires
                    i < n,
                    k > 0,
            ;
        }
        let len = pixel_data.len();
        assert(k * i + k <= len);
        let b = k * i;
        let q: [u8; 4] = match format {
            PixelFormat::Rgb8 => [pixel_data[b + 2], pixel_data[b + 1], pixel_data[b], 255],
            PixelFormat::Rgb8Srgb => [
                linear[pixel_data[b + 2] as usize],
                linear[pixel_data[b + 1] as usize],
                linear[pixel_data[b] as usize],
                255,
            ],
            PixelFormat::Rgba8 => [pixel_data[b + 2], pixel_data[b + 1], pixel_data[b], pixel_data[b + 3]],
            PixelFormat::Rgba8Srgb => [
                linear[pixel_data[b + 2] as usize],
                linear[pixel_data[b + 1] as usize],
                linear[pixel_data[b] as usize],
                pixel_data[b + 3],
            ],
            PixelFormat::Bgra8 => [pixel_data[b], pixel_data[b + 1], pixel_data[b + 2], pixel_data[b + 3]],
            PixelFormat::Bgra8Srgb => [
                linear[pixel_data[b] as usize],
                linear[pixel_data[b + 1] as usize],
                linear[pixel_data[b + 2] as usize],
                pixel_data[b + 3],
            ],
        };
        assert(q@ =~= bmp_quad(format, pixel_data@, i as int, linear@));
        quads.push(q);
        i = i + 1;
    }
    assert(quads@.map_values(|q: [u8; 4]| q@) =~= Seq::new(
        (width * height) as nat,
        |i: int| bmp_quad(format, pixel_data@, i, linear@),
    ));
    encode_bmp_quads(width, height, quads.as_slice())
}

/// Encodes `width * height` pixels, given row by row from the top, into a bitmap
/// file; `f_encode` gives the four bitmap bytes (blue, green, red, alpha) of each.
pub fn encode_bmp_with<T: Copy, F: Fn(T) -> [u8; 4]>(
    width: u32,
    height: u32,
    pixels: &[T],
    f_encode: F,
) -> (r: Vec<u8>)
    requires
        pixels@.len() >= width * height,
        width * 4 * height + 54 <= u32::MAX,
        forall|t: T| #[trigger] f_encode.requires((t,)),
    ensures
        exists|quads: Seq<[u8; 4]>|
            {
                &&& #[trigger] quads.len() == width * height
                &&& forall|k: int|
                    0 <= k < quads.len() ==> f_encode.ensures((pixels@[k],), #[trigger] quads[k])
                &&& r@ == bmp_header_bytes(width, height) + bmp_rows(
                    quads.map_values(|q: [u8; 4]| q@),
                    width as int,
                    height as int,
                )
            },
{
    proof {
        assert(width * height <= width * 4 * height) by (nonlinear_arith);
    }
    let n = width as usize * height as usize;
    let mut quads: Vec<[u8; 4]> = Vec::new();
    let mut i: usize = 0;
    while i < n
        invariant
            i <= n,
            n == width * height,
            n <= pixels@.len(),
            quads@.len() == i,
            forall|t: T| #[trigger] f_encode.requires((t,)),
            forall|k: int| 0 <= k < i ==> f_encode.ensures((pixels@[k],), #[trigger] quads@[k]),
        decreases n - i,
    {
        let q = f_encode(pixels[i]);
        quads.push(q);
        i = i + 1;
    }
    let r = encode_bmp_quads(width, height, quads.as_slice());
    assert(quads@.len() == width * height);
    r
}

} // verus!
