//! Writing a stream: the encoder's running state and its choice of chunk for each pixel.
use vstd::prelude::*;

use crate::{
    Channels, Header, Pixel, be_bytes, end_marker, hash, header_bytes, qoi_hash, start_cache,
    start_pixel, stride,
};

verus! {

/// The difference of two channel values: 8-bit wrapping subtraction read as signed.
pub open spec fn delta(c: u8, p: u8) -> int {
    let d = (c - p) % 256;
    if d >= 128 {
        d - 256
    } else {
        d
    }
}

/// Whether each color delta from `prev` to `p` lies in -2..=1.
pub open spec fn diff_fits(prev: Pixel, p: Pixel) -> bool {
    &&& -2 <= delta(p.r, prev.r) <= 1
    &&& -2 <= delta(p.g, prev.g) <= 1
    &&& -2 <= delta(p.b, prev.b) <= 1
}

/// Whether the green delta lies in -32..=31 and the red and blue deltas, taken
/// relative to it, in -8..=7.
pub open spec fn luma_fits(prev: Pixel, p: Pixel) -> bool {
    let dg = delta(p.g, prev.g);
    &&& -32 <= dg <= 31
    &&& -8 <= delta(p.r, prev.r) - dg <= 7
    &&& -8 <= delta(p.b, prev.b) - dg <= 7
}

pub open spec fn diff_byte(prev: Pixel, p: Pixel) -> u8 {
    (64 + (delta(p.r, prev.r) + 2) * 16 + (delta(p.g, prev.g) + 2) * 4 + (delta(p.b, prev.b) + 2)) as u8
}

pub open spec fn luma_bytes(prev: Pixel, p: Pixel) -> Seq<u8> {
    let dg = delta(p.g, prev.g);
    seq![
        (128 + dg + 32) as u8,
        ((delta(p.r, prev.r) - dg + 8) * 16 + (delta(p.b, prev.b) - dg + 8)) as u8,
    ]
}

/// The chunk that the encoder writes for a pixel that differs from the previous
/// one: the first of RGBA (alpha changed), Index, Diff, Luma and RGB that applies.
pub open spec fn chunk_bytes(cache: Seq<Pixel>, prev: Pixel, p: Pixel) -> Seq<u8> {
    if p.a != prev.a {
        seq![255u8, p.r, p.g, p.b, p.a]
    } else if cache[hash(p)] == p {
        seq![hash(p) as u8]
    } else if diff_fits(prev, p) {
        seq![diff_byte(prev, p)]
    } else if luma_fits(prev, p) {
        luma_bytes(prev, p)
    } else {
        seq![254u8, p.r, p.g, p.b]
    }
}

/// How many pixels from `i` on equal `p`, counting at most `max`.
pub open spec fn run_length(pixels: Seq<Pixel>, i: int, p: Pixel, max: nat) -> nat
    decreases max,
{
    if max == 0 || i < 0 || i >= pixels.len() || pixels[i] != p {
        0
    } else {
        1 + run_length(pixels, i + 1, p, (max - 1) as nat)
    }
}

/// A run never reaches past the last pixel.
pub proof fn lemma_run_length_bound(pixels: Seq<Pixel>, i: int, p: Pixel, max: nat)
    ensures
        run_length(pixels, i, p, max) <= max,
        0 <= i <= pixels.len() ==> i + run_length(pixels, i, p, max) <= pixels.len(),
        forall|j: int| i <= j < i + run_length(pixels, i, p, max) ==> pixels[j] == p,
    decreases max,
{
    if max > 0 && 0 <= i < pixels.len() && pixels[i] == p {
        lemma_run_length_bound(pixels, i + 1, p, (max - 1) as nat);
    }
}

/// How many pixels from `i` on the next chunk covers: a run of at most 62 where
/// the pixel repeats the previous one, else one.
pub open spec fn step_len(pixels: Seq<Pixel>, i: int, prev: Pixel) -> int {
    if pixels[i] == prev {
        1 + run_length(pixels, i + 1, prev, 61) as int
    } else {
        1
    }
}

/// The bytes of the next chunk, for the pixels from `i` on.
pub open spec fn step_bytes(pixels: Seq<Pixel>, i: int, cache: Seq<Pixel>, prev: Pixel) -> Seq<u8> {
    if pixels[i] == prev {
        seq![(191 + step_len(pixels, i, prev)) as u8]
    } else {
        chunk_bytes(cache, prev, pixels[i])
    }
}

/// The chunks that encode the pixels from `i` on.
#[verifier::opaque]
pub open spec fn encode_pixels(pixels: Seq<Pixel>, i: int, cache: Seq<Pixel>, prev: Pixel) -> Seq<u8>
    decreases pixels.len() - i,
{
    if i < 0 || i >= pixels.len() {
        seq![]
    } else {
        let p = pixels[i];
        let n = if p == prev {
            1 + run_length(pixels, i + 1, prev, 61) as int
        } else {
            1
        };
        proof {
            lemma_run_length_bound(pixels, i + 1, prev, 61);
        }
        step_bytes(pixels, i, cache, prev) + encode_pixels(pixels, i + n, cache.update(hash(p), p), p)
    }
}

/// The whole stream for a header and its pixels.
pub open spec fn encoded(h: Header, pixels: Seq<Pixel>) -> Seq<u8> {
    header_bytes(h) + encode_pixels(pixels, 0, start_cache(), start_pixel()) + end_marker()
}

/// The pixels that a buffer holds, three or four bytes each; a partial pixel at
/// the end is left out.
pub open spec fn pixels_of(data: Seq<u8>, c: Channels) -> Seq<Pixel> {
    let k = stride(c) as int;
    Seq::new(
        (data.len() as int / k) as nat,
        |i: int|
            Pixel {
                r: data[i * k],
                g: data[i * k + 1],
                b: data[i * k + 2],
                a: if c == Channels::Rgb {
                    255u8
                } else {
                    data[i * k + 3]
                },
            },
    )
}

/// The pixel that an array of four channels holds.
pub open spec fn pixel_of(a: [u8; 4]) -> Pixel {
    Pixel { r: a[0], g: a[1], b: a[2], a: a[3] }
}

pub proof fn lemma_encode_step(pixels: Seq<Pixel>, i: int, cache: Seq<Pixel>, prev: Pixel)
    requires
        0 <= i < pixels.len(),
    ensures
        encode_pixels(pixels, i, cache, prev) == step_bytes(pixels, i, cache, prev) + encode_pixels(
            pixels,
            i + step_len(pixels, i, prev),
            cache.update(hash(pixels[i]), pixels[i]),
            pixels[i],
        ),
{
    reveal(encode_pixels);
}

pub proof fn lemma_encode_done(pixels: Seq<Pixel>, i: int, cache: Seq<Pixel>, prev: Pixel)
    requires
        i >= pixels.len(),
    ensures
        encode_pixels(pixels, i, cache, prev) == Seq::<u8>::empty(),
{
    reveal(encode_pixels);
}

/// Reads a byte as a signed 8-bit integer.
pub fn u8_to_i8(x: u8) -> (r: i8)
    ensures
        r == (if x >= 128 {
            x - 256
        } else {
            x as int
        }),
{
    if x >= 128 {
        (x as i16 - 256) as i8
    } else {
        x as i8
    }
}

/// The signed delta of one channel.
fn channel_delta(c: u8, p: u8) -> (r: i8)
    ensures
        r == delta(c, p),
{
    u8_to_i8(c.wrapping_sub(p))
}

/// The encoder's running state and the bytes written so far.
pub struct Encoder {
    pub header: Header,
    pub index_array: [Pixel; 64],
    pub previous_pixel: Pixel,
    pub output: Vec<u8>,
}

impl Encoder {
    pub fn new(header: Header, output: Vec<u8>) -> (r: Self)
        ensures
            r.header == header,
            r.index_array@ == start_cache(),
            r.previous_pixel == start_pixel(),
            r.output == output,
    {
        let r = Self {
            header,
            index_array: [Pixel { r: 0, g: 0, b: 0, a: 0 };64],
            previous_pixel: Pixel { r: 0, g: 0, b: 0, a: 255 },
            output,
        };
        assert(r.index_array@ =~= start_cache());
        r
    }

    /// Writes the header.
    pub fn encode_header(&mut self)
        ensures
            final(self).output@ == old(self).output@ + header_bytes(old(self).header),
            final(self).header == old(self).header,
            final(self).index_array == old(self).index_array,
            final(self).previous_pixel == old(self).previous_pixel,
    {
        let ghost out0 = self.output@;
        self.output.push(0x71);
        self.output.push(0x6f);
        self.output.push(0x69);
        self.output.push(0x66);
        self.write_u32(self.header.width);
        self.write_u32(self.header.height);
        let channels = self.header.channels.to_byte();
        let colorspace = self.header.colorspace.to_byte();
        self.output.push(channels);
        self.output.push(colorspace);
        assert(self.output@ =~= out0 + header_bytes(self.header));
    }

    /// Writes a 32-bit integer, most significant byte first.
    fn write_u32(&mut self, x: u32)
        ensures
            final(self).output@ == old(self).output@ + be_bytes(x),
            final(self).header == old(self).header,
            final(self).index_array == old(self).index_array,
            final(self).previous_pixel == old(self).previous_pixel,
    {
        let ghost out0 = self.output@;
        self.output.push((x >> 24u32) as u8);
        self.output.push((x >> 16u32) as u8);
        self.output.push((x >> 8u32) as u8);
        self.output.push(x as u8);
        assert(self.output@ =~= out0 + be_bytes(x));
    }

    /// Makes `pixel` the previous pixel and stores it in its cache slot.
    pub fn update_previous_pixel(&mut self, pixel: Pixel)
        ensures
            final(self).previous_pixel == pixel,
            final(self).index_array@ == old(self).index_array@.update(hash(pixel), pixel),
            final(self).header == old(self).header,
            final(self).output == old(self).output,
    {
        self.previous_pixel = pixel;
        let index = qoi_hash(pixel);
        self.index_array[index] = pixel;
    }

    /// Writes the chunk for the pixels from `i` on and returns the index of the
    /// first pixel that it leaves.
    pub fn encode_chunk(&mut self, pixels: &[Pixel], i: usize) -> (next: usize)
        requires
            i < pixels@.len(),
        ensures
            next == i + step_len(pixels@, i as int, old(self).previous_pixel),
            next <= pixels@.len(),
            final(self).output@ == old(self).output@ + step_bytes(
                pixels@,
                i as int,
                old(self).index_array@,
                old(self).previous_pixel,
            ),
            final(self).index_array@ == old(self).index_array@.update(
                hash(pixels@[i as int]),
                pixels@[i as int],
            ),
            final(self).previous_pixel == pixels@[i as int],
            final(self).header == old(self).header,
    {
        let pixel = pixels[i];
        let mut next = i + 1;
        if let Some((byte, n)) = self.try_run(pixels, i) {
            self.output.push(byte);
            next = i + n;
        } else if pixel.a != self.previous_pixel.a {
            // Every other chunk keeps the previous alpha.
            let bytes = self.encode_with_op_rgba(pixel);
            self.write_bytes(&bytes);
        } else if let Some(byte) = self.try_encode_with_op_index(pixel) {
            self.output.push(byte);
        } else if let Some(byte) = self.try_encode_with_op_diff(pixel) {
            self.output.push(byte);
        } else if let Some(bytes) = self.try_encode_with_op_luma(pixel) {
            self.write_bytes(&bytes);
        } else if let Some(bytes) = self.try_encode_with_op_rgb(pixel) {
            self.write_bytes(&bytes);
        } else {
            let bytes = self.encode_with_op_rgba(pixel);
            self.write_bytes(&bytes);
        }
        self.update_previous_pixel(pixel);
        next
    }

    /// Appends the bytes of a chunk.
    fn write_bytes(&mut self, bytes: &[u8])
        ensures
            final(self).output@ == old(self).output@ + bytes@,
            final(self).header == old(self).header,
            final(self).index_array == old(self).index_array,
            final(self).previous_pixel == old(self).previous_pixel,
    {
        self.output.extend_from_slice(bytes);
    }

    /// Where the pixel at `i` repeats the previous pixel: the run chunk's byte and
    /// how many pixels, at most 62, the run covers.
    pub fn try_run(&self, pixels: &[Pixel], i: usize) -> (r: Option<(u8, usize)>)
        requires
            i < pixels@.len(),
        ensures
            pixels@[i as int] != self.previous_pixel ==> r is None,
            pixels@[i as int] == self.previous_pixel ==> (r matches Some((byte, n)) && n == step_len(
                pixels@,
                i as int,
                self.previous_pixel,
            ) && seq![byte] == step_bytes(pixels@, i as int, self.index_array@, self.previous_pixel)
                && 1 <= n <= 62 && i + n <= pixels@.len()),
    {
        let pixel = pixels[i];
        if pixel != self.previous_pixel {
            return None;
        }
        let mut run_count: usize = 1;
        while run_count < 62 && run_count < pixels.len() - i && pixels[i + run_count] == pixel
            invariant
                1 <= run_count <= 62,
                i + run_count <= pixels@.len(),
                pixel == self.previous_pixel,
                pixels@[i as int] == pixel,
                run_length(pixels@, i + 1, pixel, 61) == (run_count - 1) + run_length(
                    pixels@,
                    i + run_count,
                    pixel,
                    (62 - run_count) as nat,
                ),
            decreases 62 - run_count,
        {
            run_count = run_count + 1;
        }
        proof {
            assert(run_length(pixels@, i + run_count, pixel, (62 - run_count) as nat) == 0);
        }
        Some(((191 + run_count) as u8, run_count))
    }

    /// An Index chunk, where the pixel's cache slot holds it.
    pub fn try_encode_with_op_index(&self, pixel: Pixel) -> (r: Option<u8>)
        ensures
            r == (if self.index_array@[hash(pixel)] == pixel {
                Some(hash(pixel) as u8)
            } else {
                None
            }),
    {
        let index = qoi_hash(pixel);
        if self.index_array[index] == pixel {
            // The slot is below 64, so the tag bits are 00.
            Some(index as u8)
        } else {
            None
        }
    }

    /// A Diff chunk, where each color delta lies in -2..=1.
    pub fn try_encode_with_op_diff(&self, pixel: Pixel) -> (r: Option<u8>)
        ensures
            r == (if diff_fits(self.previous_pixel, pixel) {
                Some(diff_byte(self.previous_pixel, pixel))
            } else {
                None
            }),
    {
        let prev = self.previous_pixel;
        let dr = channel_delta(pixel.r, prev.r);
        let dg = channel_delta(pixel.g, prev.g);
        let db = channel_delta(pixel.b, prev.b);
        if -2 <= dr && dr <= 1 && -2 <= dg && dg <= 1 && -2 <= db && db <= 1 {
            let byte = 64 + ((dr + 2) as u8) * 16 + ((dg + 2) as u8) * 4 + (db + 2) as u8;
            Some(byte)
        } else {
            None
        }
    }

    /// A Luma chunk, where the green delta lies in -32..=31 and the red and blue
    /// deltas, taken relative to it, in -8..=7.
    pub fn try_encode_with_op_luma(&self, pixel: Pixel) -> (r: Option<[u8; 2]>)
        ensures
            luma_fits(self.previous_pixel, pixel) ==> (r matches Some(b) && b@ == luma_bytes(
                self.previous_pixel,
                pixel,
            )),
            !luma_fits(self.previous_pixel, pixel) ==> r is None,
    {
        let prev = self.previous_pixel;
        let dr = channel_delta(pixel.r, prev.r) as i16;
        let dg = channel_delta(pixel.g, prev.g) as i16;
        let db = channel_delta(pixel.b, prev.b) as i16;
        let drdg = dr - dg;
        let dbdg = db - dg;
        if -32 <= dg && dg <= 31 && -8 <= drdg && drdg <= 7 && -8 <= dbdg && dbdg <= 7 {
            let byte0 = (128 + dg + 32) as u8;
            let byte1 = ((drdg + 8) * 16 + (dbdg + 8)) as u8;
            let r = [byte0, byte1];
            assert(r@ =~= luma_bytes(prev, pixel));
            Some(r)
        } else {
            None
        }
    }

    /// An RGB chunk, where the alpha is unchanged.
    pub fn try_encode_with_op_rgb(&self, pixel: Pixel) -> (r: Option<[u8; 4]>)
        ensures
            pixel.a == self.previous_pixel.a ==> (r matches Some(b) && b@ == seq![
                254u8,
                pixel.r,
                pixel.g,
                pixel.b,
            ]),
            pixel.a != self.previous_pixel.a ==> r is None,
    {
        if pixel.a == self.previous_pixel.a {
            let r = [254u8, pixel.r, pixel.g, pixel.b];
            assert(r@ =~= seq![254u8, pixel.r, pixel.g, pixel.b]);
            Some(r)
        } else {
            None
        }
    }

    /// An RGBA chunk, which fits every pixel.
    pub fn encode_with_op_rgba(&self, pixel: Pixel) -> (r: [u8; 5])
        ensures
            r@ == seq![255u8, pixel.r, pixel.g, pixel.b, pixel.a],
    {
        let r = [255u8, pixel.r, pixel.g, pixel.b, pixel.a];
        assert(r@ =~= seq![255u8, pixel.r, pixel.g, pixel.b, pixel.a]);
        r
    }

    /// Writes the end marker and hands back the bytes written.
    pub fn finish(self) -> (r: Vec<u8>)
        ensures
            r@ == self.output@ + end_marker(),
    {
        let mut output = self.output;
        let ghost out0 = output@;
        let mut k: usize = 0;
        while k < 7
            invariant
                k <= 7,
                output@ == out0 + Seq::new(k as nat, |j: int| 0u8),
            decreases 7 - k,
        {
            output.push(0);
            proof {
                assert(Seq::new(k as nat, |j: int| 0u8).push(0u8) =~= Seq::new((k + 1) as nat, |j: int| 0u8));
            }
            k = k + 1;
        }
        output.push(1);
        assert(output@ =~= out0 + end_marker());
        output
    }
}

/// Encodes a header and its pixels and appends the stream to `output`.
pub fn encode_pixels_to(header: Header, pixels: &[Pixel], output: &mut Vec<u8>)
    ensures
        final(output)@ == old(output)@ + encoded(header, pixels@),
{
    let mut encoder = Encoder::new(header, Vec::new());
    encoder.encode_header();
    let ghost base = encoder.output@;
    let mut i: usize = 0;
    proof {
        assert(base + encode_pixels(pixels@, 0, start_cache(), start_pixel()) =~= encoder.output@
            + encode_pixels(pixels@, 0, start_cache(), start_pixel()));
    }
    while i < pixels.len()
        invariant
            i <= pixels@.len(),
            encoder.header == header,
            base == header_bytes(header),
            base + encode_pixels(pixels@, 0, start_cache(), start_pixel()) == encoder.output@
                + encode_pixels(pixels@, i as int, encoder.index_array@, encoder.previous_pixel),
        decreases pixels@.len() - i,
    {
        let ghost out0 = encoder.output@;
        let ghost cache0 = encoder.index_array@;
        let ghost prev0 = encoder.previous_pixel;
        let ghost i0 = i as int;
        proof {
            lemma_encode_step(pixels@, i0, cache0, prev0);
        }
        i = encoder.encode_chunk(pixels, i);
        proof {
            let sb = step_bytes(pixels@, i0, cache0, prev0);
            let rest = encode_pixels(pixels@, i as int, encoder.index_array@, encoder.previous_pixel);
            assert(out0 + (sb + rest) =~= (out0 + sb) + rest);
        }
    }
    proof {
        lemma_encode_done(pixels@, i as int, encoder.index_array@, encoder.previous_pixel);
    }
    let mut r = encoder.finish();
    output.append(&mut r);
    assert(output@ =~= old(output)@ + encoded(header, pixels@));
}

/// Encodes a header and pixels given as four channels each, and appends the
/// stream to `output`.
pub fn encode(header: Header, pixels: &[[u8; 4]], output: &mut Vec<u8>)
    ensures
        final(output)@ == old(output)@ + encoded(header, pixels@.map_values(|a: [u8; 4]| pixel_of(a))),
{
    let mut list: Vec<Pixel> = Vec::new();
    let mut i: usize = 0;
    while i < pixels.len()
        invariant
            i <= pixels@.len(),
            list@ == pixels@.take(i as int).map_values(|a: [u8; 4]| pixel_of(a)),
        decreases pixels@.len() - i,
    {
        let a = pixels[i];
        list.push(Pixel { r: a[0], g: a[1], b: a[2], a: a[3] });
        proof {
            assert(pixels@.take(i + 1).map_values(|a: [u8; 4]| pixel_of(a)) =~= pixels@.take(
                i as int,
            ).map_values(|a: [u8; 4]| pixel_of(a)).push(pixel_of(a)));
        }
        i = i + 1;
    }
    assert(pixels@.take(i as int) =~= pixels@);
    encode_pixels_to(header, list.as_slice(), output);
}

/// The pixels of a buffer, three or four bytes each by the channel count.
pub fn pixels_from_slice(slice: &[u8], channels: Channels) -> (r: Vec<Pixel>)
    ensures
        r@ == pixels_of(slice@, channels),
{
    let k: usize = if channels == Channels::Rgb {
        3
    } else {
        4
    };
    let n = slice.len() / k;
    let mut list: Vec<Pixel> = Vec::new();
    let mut i: usize = 0;
    while i < n
        invariant
            k == stride(channels),
            n == slice@.len() as int / (k as int),
            i <= n,
            list@ == pixels_of(slice@, channels).take(i as int),
        decreases n - i,
    {
        proof {
            assert(i * k + k <= n * k) by (nonlinear_arith)
                requires
                    i < n,
            ;
            assert(n * k <= slice@.len()) by (nonlinear_arith)
                requires
                    n == slice@.len() as int / (k as int),
                    k > 0,
            ;
            assert(i * k + k <= slice@.len());
        }
        let len = slice.len();
        assert(i * k + k <= len);
        let base = i * k;
        let a = if channels == Channels::Rgb {
            255
        } else {
            slice[base + 3]
        };
        list.push(Pixel { r: slice[base], g: slice[base + 1], b: slice[base + 2], a });
        proof {
            assert(list@ =~= pixels_of(slice@, channels).take(i + 1));
        }
        i = i + 1;
    }
    assert(list@ =~= pixels_of(slice@, channels));
    list
}

/// Encodes a header and a buffer of pixels, three or four bytes each by the
/// header's channel count (three-byte pixels get an alpha of 255), and appends
/// the stream to `output`.
pub fn encode_from_slice(header: Header, slice: &[u8], output: &mut Vec<u8>)
    ensures
        final(output)@ == old(output)@ + encoded(header, pixels_of(slice@, header.channels)),
{
    let pixels = pixels_from_slice(slice, header.channels);
    encode_pixels_to(header, pixels.as_slice(), output);
}

/// Encodes a header and a buffer of pixels into a new stream.
pub fn encode_from_slice_to_vec(header: Header, slice: &[u8]) -> (r: Vec<u8>)
    ensures
        r@ == encoded(header, pixels_of(slice@, header.channels)),
{
    let mut encoded_data = Vec::new();
    encode_from_slice(header, slice, &mut encoded_data);
    assert(encoded_data@ =~= encoded(header, pixels_of(slice@, header.channels)));
    encoded_data
}

/// A pixel that repeats the previous one is written as a single run byte, whose
/// tag bits are 11, and never as Index, Diff, Luma, RGB or RGBA.
pub proof fn lemma_repeat_is_run(pixels: Seq<Pixel>, i: int, cache: Seq<Pixel>, prev: Pixel)
    requires
        0 <= i < pixels.len(),
        pixels[i] == prev,
    ensures
        step_bytes(pixels, i, cache, prev).len() == 1,
        192 <= step_bytes(pixels, i, cache, prev)[0] <= 253,
        1 <= step_len(pixels, i, prev) <= 62,
{
    lemma_run_length_bound(pixels, i + 1, prev, 61);
}

/// A pixel whose slot still holds it, met again after another pixel of the same
/// alpha that lies in another slot, is written as an Index chunk.
pub proof fn lemma_index_hit(cache: Seq<Pixel>, q: Pixel, x: Pixel)
    requires
        cache.len() == 64,
        q != x,
        q.a == x.a,
        hash(q) != hash(x),
    ensures
        chunk_bytes(cache.update(hash(q), q).update(hash(x), x), x, q) == seq![hash(q) as u8],
{
}

/// With the alpha unchanged and the pixel in no cache slot: deltas that all lie in
/// -2..=1 give a Diff chunk, and a delta of -3 or +2 on any channel gives a Luma
/// or an RGB chunk.
pub proof fn lemma_diff_boundary(cache: Seq<Pixel>, prev: Pixel, p: Pixel)
    requires
        cache.len() == 64,
        p != prev,
        p.a == prev.a,
        cache[hash(p)] != p,
    ensures
        diff_fits(prev, p) ==> chunk_bytes(cache, prev, p) == seq![diff_byte(prev, p)] && 64
            <= diff_byte(prev, p) < 128,
        (delta(p.r, prev.r) == -3 || delta(p.r, prev.r) == 2 || delta(p.g, prev.g) == -3 || delta(
            p.g,
            prev.g,
        ) == 2 || delta(p.b, prev.b) == -3 || delta(p.b, prev.b) == 2) ==> (chunk_bytes(cache, prev, p)
            == luma_bytes(prev, p) || chunk_bytes(cache, prev, p) == seq![254u8, p.r, p.g, p.b]),
{
}

/// With the alpha unchanged, the pixel in no cache slot and the deltas past the
/// Diff range: green 31 with red and blue each 7 above it gives a Luma chunk,
/// and green 32 does not.
pub proof fn lemma_luma_boundary(cache: Seq<Pixel>, prev: Pixel, p: Pixel)
    requires
        cache.len() == 64,
        p != prev,
        p.a == prev.a,
        cache[hash(p)] != p,
        !diff_fits(prev, p),
    ensures
        (delta(p.g, prev.g) == 31 && delta(p.r, prev.r) - delta(p.g, prev.g) == 7 && delta(p.b, prev.b)
            - delta(p.g, prev.g) == 7) ==> chunk_bytes(cache, prev, p) == luma_bytes(prev, p) && 128
            <= luma_bytes(prev, p)[0] < 192,
        delta(p.g, prev.g) == 32 ==> chunk_bytes(cache, prev, p) == seq![254u8, p.r, p.g, p.b],
{
}

/// A pixel whose alpha differs from the previous one is written as an RGBA chunk,
/// however close its colors are.
pub proof fn lemma_alpha_change(cache: Seq<Pixel>, prev: Pixel, p: Pixel)
    requires
        p.a != prev.a,
    ensures
        chunk_bytes(cache, prev, p) == seq![255u8, p.r, p.g, p.b, p.a],
{
}

} // verus!
