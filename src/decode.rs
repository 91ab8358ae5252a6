//! Reading a stream: the header, the chunk grammar and the decoder's running state.
use vstd::prelude::*;

use crate::{
    Channels, Colorspace, Header, Pixel, be_value, end_marker, flatten, hash, lemma_flatten_append,
    magic, pixel_bytes, pixel_total, qoi_hash, start_cache, start_pixel,
};

verus! {

/// Why a stream could not be decoded.
#[derive(Debug, Clone, Copy, PartialEq, Eq, Structural)]
pub enum DecodeError {
    /// The stream ended before a field or a chunk was complete.
    IoError,
    /// The stream does not open with the magic bytes.
    InvalidHeader,
    InvalidNumberOfChannels,
    InvalidColorspace,
    /// The eight bytes after the last chunk are not the end marker.
    InvalidEofSequence,
}

/// One decoded opcode.
#[derive(Debug, Clone, Copy, PartialEq, Eq, Structural)]
pub enum Chunk {
    Rgb { r: u8, g: u8, b: u8 },
    Rgba(Pixel),
    Index(u8),
    Diff { dr: i8, dg: i8, db: i8 },
    Luma {
        dg: i8,
        /// dr - dg.
        dr_dg: i8,
        /// db - dg.
        db_dg: i8,
    },
    Run(u8),
}

/// The header at the start of `s`, or why there is none.
pub open spec fn header_of(s: Seq<u8>) -> Result<Header, DecodeError> {
    if s.len() < 4 {
        Err(DecodeError::IoError)
    } else if s.subrange(0, 4) != magic() {
        Err(DecodeError::InvalidHeader)
    } else if s.len() < 13 {
        Err(DecodeError::IoError)
    } else if s[12] != 3 && s[12] != 4 {
        Err(DecodeError::InvalidNumberOfChannels)
    } else if s.len() < 14 {
        Err(DecodeError::IoError)
    } else if s[13] > 1 {
        Err(DecodeError::InvalidColorspace)
    } else {
        Ok(
            Header {
                width: be_value(s[4], s[5], s[6], s[7]),
                height: be_value(s[8], s[9], s[10], s[11]),
                channels: if s[12] == 3 {
                    Channels::Rgb
                } else {
                    Channels::Rgba
                },
                colorspace: if s[13] == 0 {
                    Colorspace::Srgb
                } else {
                    Colorspace::Rgb
                },
            },
        )
    }
}

/// Length in bytes of the chunk whose first byte is `b0`.
pub open spec fn chunk_len(b0: u8) -> int {
    if b0 == 254 {
        4
    } else if b0 == 255 {
        5
    } else if 128 <= b0 < 192 {
        2
    } else {
        1
    }
}

/// The chunk that starts at `pos`, whose bytes all lie in `s`.
pub open spec fn parse_chunk(s: Seq<u8>, pos: int) -> Chunk {
    let b0 = s[pos];
    if b0 == 254 {
        Chunk::Rgb { r: s[pos + 1], g: s[pos + 2], b: s[pos + 3] }
    } else if b0 == 255 {
        Chunk::Rgba(Pixel { r: s[pos + 1], g: s[pos + 2], b: s[pos + 3], a: s[pos + 4] })
    } else if b0 < 64 {
        Chunk::Index(b0)
    } else if b0 < 128 {
        Chunk::Diff {
            dr: ((b0 - 64) / 16 - 2) as i8,
            dg: ((b0 - 64) / 4 % 4 - 2) as i8,
            db: ((b0 - 64) % 4 - 2) as i8,
        }
    } else if b0 < 192 {
        Chunk::Luma {
            dg: (b0 - 160) as i8,
            dr_dg: (s[pos + 1] / 16 - 8) as i8,
            db_dg: (s[pos + 1] % 16 - 8) as i8,
        }
    } else {
        Chunk::Run((b0 - 191) as u8)
    }
}

/// The ranges that each field of a chunk lies in.
pub open spec fn chunk_in_range(c: Chunk) -> bool {
    match c {
        Chunk::Index(i) => i < 64,
        Chunk::Diff { dr, dg, db } => -2 <= dr <= 1 && -2 <= dg <= 1 && -2 <= db <= 1,
        Chunk::Luma { dg, dr_dg, db_dg } => -32 <= dg <= 31 && -8 <= dr_dg <= 7 && -8 <= db_dg <= 7,
        Chunk::Run(n) => 1 <= n <= 62,
        _ => true,
    }
}

/// The chunk at `pos` and the position after it, or `IoError` where the stream ends first.
pub open spec fn chunk_at(s: Seq<u8>, pos: int) -> Result<(Chunk, int), DecodeError> {
    if pos < 0 || pos >= s.len() || pos + chunk_len(s[pos]) > s.len() {
        Err(DecodeError::IoError)
    } else {
        Ok((parse_chunk(s, pos), pos + chunk_len(s[pos])))
    }
}

/// A channel moved by a signed delta, wrapping on 8 bits.
pub open spec fn add_delta(c: u8, d: int) -> u8 {
    ((c + d) % 256) as u8
}

/// The pixel that a chunk yields from the cache and the previous pixel.
pub open spec fn chunk_pixel(cache: Seq<Pixel>, prev: Pixel, c: Chunk) -> Pixel {
    match c {
        Chunk::Rgb { r, g, b } => Pixel { r, g, b, a: prev.a },
        Chunk::Rgba(p) => p,
        Chunk::Index(i) => cache[i as int],
        Chunk::Diff { dr, dg, db } => Pixel {
            r: add_delta(prev.r, dr as int),
            g: add_delta(prev.g, dg as int),
            b: add_delta(prev.b, db as int),
            a: prev.a,
        },
        Chunk::Luma { dg, dr_dg, db_dg } => Pixel {
            r: add_delta(prev.r, dr_dg + dg),
            g: add_delta(prev.g, dg as int),
            b: add_delta(prev.b, db_dg + dg),
            a: prev.a,
        },
        Chunk::Run(_) => prev,
    }
}

/// How many pixels a chunk yields.
pub open spec fn chunk_count(c: Chunk) -> int {
    match c {
        Chunk::Run(n) => n as int,
        _ => 1,
    }
}

/// Decoded pixels put in front of what a later part of the stream decodes to.
pub open spec fn after(
    done: Seq<Pixel>,
    r: Result<(Seq<Pixel>, int), DecodeError>,
) -> Result<(Seq<Pixel>, int), DecodeError> {
    match r {
        Ok((rest, end)) => Ok((done + rest, end)),
        Err(e) => Err(e),
    }
}

/// The pixels that chunks from `pos` on yield until at least `remaining` pixels
/// are out, and the position after the last chunk read.
#[verifier::opaque]
pub open spec fn decode_pixels(
    s: Seq<u8>,
    pos: int,
    cache: Seq<Pixel>,
    prev: Pixel,
    remaining: int,
) -> Result<(Seq<Pixel>, int), DecodeError>
    decreases s.len() - pos,
{
    if remaining <= 0 {
        Ok((seq![], pos))
    } else if pos < 0 || pos >= s.len() || pos + chunk_len(s[pos]) > s.len() {
        Err(DecodeError::IoError)
    } else {
        let c = parse_chunk(s, pos);
        let p = chunk_pixel(cache, prev, c);
        let n = chunk_count(c);
        after(
            Seq::new(n as nat, |i: int| p),
            decode_pixels(s, pos + chunk_len(s[pos]), cache.update(hash(p), p), p, remaining - n),
        )
    }
}

/// Whether the end marker stands at `pos`.
pub open spec fn end_at(s: Seq<u8>, pos: int) -> Result<(), DecodeError> {
    if s.len() < pos + 7 {
        Err(DecodeError::IoError)
    } else if s.subrange(pos, pos + 7) != end_marker().take(7) {
        Err(DecodeError::InvalidEofSequence)
    } else if s.len() < pos + 8 {
        Err(DecodeError::IoError)
    } else if s[pos + 7] != 1 {
        Err(DecodeError::InvalidEofSequence)
    } else {
        Ok(())
    }
}

/// What a whole stream decodes to: the pixel buffer and the header, or the first error.
pub open spec fn decoded(s: Seq<u8>) -> Result<(Seq<u8>, Header), DecodeError> {
    match header_of(s) {
        Err(e) => Err(e),
        Ok(h) => match decode_pixels(s, 14, start_cache(), start_pixel(), pixel_total(h)) {
            Err(e) => Err(e),
            Ok((px, end)) => match end_at(s, end) {
                Err(e) => Err(e),
                Ok(_) => Ok((flatten(px, h.channels), h)),
            },
        },
    }
}

pub proof fn lemma_decode_step(s: Seq<u8>, pos: int, cache: Seq<Pixel>, prev: Pixel, remaining: int)
    requires
        remaining > 0,
        chunk_at(s, pos) is Ok,
    ensures
        ({
            let (c, next) = chunk_at(s, pos)->Ok_0;
            let p = chunk_pixel(cache, prev, c);
            decode_pixels(s, pos, cache, prev, remaining) == after(
                Seq::new(chunk_count(c) as nat, |i: int| p),
                decode_pixels(s, next, cache.update(hash(p), p), p, remaining - chunk_count(c)),
            )
        }),
{
    reveal(decode_pixels);
}

pub proof fn lemma_decode_fail(s: Seq<u8>, pos: int, cache: Seq<Pixel>, prev: Pixel, remaining: int)
    requires
        remaining > 0,
        chunk_at(s, pos) is Err,
    ensures
        decode_pixels(s, pos, cache, prev, remaining) == Err::<(Seq<Pixel>, int), DecodeError>(
            chunk_at(s, pos)->Err_0,
        ),
{
    reveal(decode_pixels);
}

pub proof fn lemma_decode_done(s: Seq<u8>, pos: int, cache: Seq<Pixel>, prev: Pixel, remaining: int)
    requires
        remaining <= 0,
    ensures
        decode_pixels(s, pos, cache, prev, remaining) == Ok::<(Seq<Pixel>, int), DecodeError>(
            (seq![], pos),
        ),
{
    reveal(decode_pixels);
}

proof fn lemma_after_empty(r: Result<(Seq<Pixel>, int), DecodeError>)
    ensures
        after(seq![], r) == r,
{
    if let Ok((rest, end)) = r {
        assert(seq![] + rest =~= rest);
    }
}

proof fn lemma_after_after(a: Seq<Pixel>, b: Seq<Pixel>, r: Result<(Seq<Pixel>, int), DecodeError>)
    ensures
        after(a, after(b, r)) == after(a + b, r),
{
    if let Ok((rest, end)) = r {
        assert(a + (b + rest) =~= (a + b) + rest);
    }
}

pub fn decode_header(stream: &[u8]) -> (r: Result<Header, DecodeError>)
    ensures
        r == header_of(stream@),
{
    if stream.len() < 4 {
        return Err(DecodeError::IoError);
    }
    proof {
        assert(stream@.subrange(0, 4)[0] == stream@[0]);
        assert(stream@.subrange(0, 4)[1] == stream@[1]);
        assert(stream@.subrange(0, 4)[2] == stream@[2]);
        assert(stream@.subrange(0, 4)[3] == stream@[3]);
    }
    if stream[0] != 0x71 || stream[1] != 0x6f || stream[2] != 0x69 || stream[3] != 0x66 {
        return Err(DecodeError::InvalidHeader);
    }
    assert(stream@.subrange(0, 4) =~= magic());
    if stream.len() < 13 {
        return Err(DecodeError::IoError);
    }
    let channels = match Channels::from_byte(stream[12]) {
        Some(c) => c,
        None => return Err(DecodeError::InvalidNumberOfChannels),
    };
    if stream.len() < 14 {
        return Err(DecodeError::IoError);
    }
    let colorspace = match Colorspace::from_byte(stream[13]) {
        Some(c) => c,
        None => return Err(DecodeError::InvalidColorspace),
    };
    let width = ((stream[4] as u32) << 24u32) | ((stream[5] as u32) << 16u32) | ((stream[6] as u32)
        << 8u32) | (stream[7] as u32);
    let height = ((stream[8] as u32) << 24u32) | ((stream[9] as u32) << 16u32) | ((stream[10] as u32)
        << 8u32) | (stream[11] as u32);
    Ok(Header { width, height, channels, colorspace })
}

/// Reads the chunk at `pos`; returns it with the position after it.
pub fn read_chunk(bytes: &[u8], pos: usize) -> (r: Result<(Chunk, usize), DecodeError>)
    ensures
        match chunk_at(bytes@, pos as int) {
            Ok((c, next)) => r matches Ok((c2, n)) && c2 == c && n == next && chunk_in_range(c),
            Err(e) => r == Err::<(Chunk, usize), DecodeError>(e),
        },
{
    if pos >= bytes.len() {
        return Err(DecodeError::IoError);
    }
    let byte0 = bytes[pos];
    let len: usize = if byte0 == 254 {
        4
    } else if byte0 == 255 {
        5
    } else if 128 <= byte0 && byte0 < 192 {
        2
    } else {
        1
    };
    if len > bytes.len() - pos {
        return Err(DecodeError::IoError);
    }
    let chunk = if byte0 == 254 {
        Chunk::Rgb { r: bytes[pos + 1], g: bytes[pos + 2], b: bytes[pos + 3] }
    } else if byte0 == 255 {
        Chunk::Rgba(
            Pixel { r: bytes[pos + 1], g: bytes[pos + 2], b: bytes[pos + 3], a: bytes[pos + 4] },
        )
    } else if byte0 < 64 {
        Chunk::Index(byte0)
    } else if byte0 < 128 {
        let x = byte0 - 64;
        Chunk::Diff {
            dr: (x / 16) as i8 - 2,
            dg: (x / 4 % 4) as i8 - 2,
            db: (x % 4) as i8 - 2,
        }
    } else if byte0 < 192 {
        let byte1 = bytes[pos + 1];
        Chunk::Luma {
            dg: (byte0 - 128) as i8 - 32,
            dr_dg: (byte1 / 16) as i8 - 8,
            db_dg: (byte1 % 16) as i8 - 8,
        }
    } else {
        Chunk::Run(byte0 - 191)
    };
    Ok((chunk, pos + len))
}

/// The decoder's running state.
pub struct DecoderState {
    pub header: Header,
    pub index_array: [Pixel; 64],
    pub previous_pixel: Pixel,
    /// Number of pixels already decoded.
    pub n_pixels: u64,
}

impl DecoderState {
    pub fn new(header: Header) -> (r: Self)
        ensures
            r.header == header,
            r.index_array@ == start_cache(),
            r.previous_pixel == start_pixel(),
            r.n_pixels == 0,
    {
        let r = Self {
            header,
            index_array: [Pixel { r: 0, g: 0, b: 0, a: 0 };64],
            previous_pixel: Pixel { r: 0, g: 0, b: 0, a: 255 },
            n_pixels: 0,
        };
        assert(r.index_array@ =~= start_cache());
        r
    }
}

/// Appends a pixel's bytes, three or four by the channel count.
fn write_pixel(output: &mut Vec<u8>, p: Pixel, channels: Channels)
    ensures
        final(output)@ == old(output)@ + pixel_bytes(p, channels),
{
    output.push(p.r);
    output.push(p.g);
    output.push(p.b);
    if channels == Channels::Rgba {
        output.push(p.a);
    }
    assert(final(output)@ =~= old(output)@ + pixel_bytes(p, channels));
}

/// A channel moved by a signed delta, wrapping on 8 bits.
fn shift(c: u8, d: i8) -> (r: u8)
    ensures
        r == add_delta(c, d as int),
{
    c.wrapping_add_signed(d)
}

/// The pixel that a chunk yields from the cache and the previous pixel.
fn chunk_to_pixel(index_array: &[Pixel; 64], prev: Pixel, chunk: Chunk) -> (p: Pixel)
    requires
        chunk_in_range(chunk),
    ensures
        p == chunk_pixel(index_array@, prev, chunk),
{
    match chunk {
        Chunk::Rgb { r, g, b } => Pixel { r, g, b, a: prev.a },
        Chunk::Rgba(p) => p,
        Chunk::Index(index) => index_array[index as usize],
        Chunk::Diff { dr, dg, db } => Pixel {
            r: shift(prev.r, dr),
            g: shift(prev.g, dg),
            b: shift(prev.b, db),
            a: prev.a,
        },
        Chunk::Luma { dg, dr_dg, db_dg } => Pixel {
            r: shift(prev.r, dr_dg + dg),
            g: shift(prev.g, dg),
            b: shift(prev.b, db_dg + dg),
            a: prev.a,
        },
        Chunk::Run(_) => prev,
    }
}

/// Appends `count` copies of a pixel's bytes.
fn write_run(output: &mut Vec<u8>, p: Pixel, count: u8, channels: Channels)
    ensures
        final(output)@ == old(output)@ + flatten(Seq::new(count as nat, |j: int| p), channels),
{
    let ghost out0 = output@;
    let mut i: u8 = 0;
    while i < count
        invariant
            i <= count,
            output@ == out0 + flatten(Seq::new(i as nat, |j: int| p), channels),
        decreases count - i,
    {
        write_pixel(output, p, channels);
        proof {
            let s = Seq::new((i + 1) as nat, |j: int| p);
            assert(s.drop_last() =~= Seq::new(i as nat, |j: int| p));
            assert(s.last() == p);
        }
        i = i + 1;
    }
}

/// Reads the chunk at `pos`, writes the pixels it yields and updates the state.
/// Returns the position after the chunk.
pub fn decode_chunk(
    state: &mut DecoderState,
    stream: &[u8],
    pos: usize,
    output: &mut Vec<u8>,
) -> (r: Result<usize, DecodeError>)
    requires
        old(state).n_pixels < 0xffff_ffff_ffff_ff00,
    ensures
        r matches Ok(next) ==> pos < next <= stream@.len(),
        match chunk_at(stream@, pos as int) {
            Err(e) => r == Err::<usize, DecodeError>(e),
            Ok((c, next)) => {
                let p = chunk_pixel(old(state).index_array@, old(state).previous_pixel, c);
                &&& r matches Ok(n) && n == next
                &&& final(state).header == old(state).header
                &&& final(state).index_array@ == old(state).index_array@.update(hash(p), p)
                &&& final(state).previous_pixel == p
                &&& final(state).n_pixels == old(state).n_pixels + chunk_count(c)
                &&& final(output)@ == old(output)@ + flatten(
                    Seq::new(chunk_count(c) as nat, |i: int| p),
                    old(state).header.channels,
                )
            },
        },
{
    let (chunk, next) = match read_chunk(stream, pos) {
        Ok(x) => x,
        Err(e) => return Err(e),
    };
    let current_pixel = chunk_to_pixel(&state.index_array, state.previous_pixel, chunk);
    let count: u8 = match chunk {
        Chunk::Run(n) => n,
        _ => 1,
    };
    let index = qoi_hash(current_pixel);
    state.index_array[index] = current_pixel;
    state.previous_pixel = current_pixel;
    state.n_pixels = state.n_pixels + count as u64;
    let channels = state.header.channels;
    write_run(output, current_pixel, count, channels);
    Ok(next)
}

/// Checks the end marker at `pos`.
pub fn verify_eof_sequence(bytes: &[u8], pos: usize) -> (r: Result<(), DecodeError>)
    ensures
        r == end_at(bytes@, pos as int),
{
    if bytes.len() < 7 || pos > bytes.len() - 7 {
        return Err(DecodeError::IoError);
    }
    let mut k: usize = 0;
    while k < 7
        invariant
            k <= 7,
            pos + 7 <= bytes.len(),
            forall|j: int| pos <= j < pos + k ==> bytes@[j] == 0,
        decreases 7 - k,
    {
        if bytes[pos + k] != 0 {
            assert(bytes@.subrange(pos as int, pos + 7)[k as int] != end_marker().take(7)[k as int]);
            return Err(DecodeError::InvalidEofSequence);
        }
        k = k + 1;
    }
    assert(bytes@.subrange(pos as int, pos + 7) =~= end_marker().take(7));
    if pos + 7 >= bytes.len() {
        return Err(DecodeError::IoError);
    }
    if bytes[pos + 7] != 1 {
        return Err(DecodeError::InvalidEofSequence);
    }
    Ok(())
}

/// Decodes a whole stream and appends its pixels to `output`, three or four bytes
/// each by the header's channel count. On an error `output` is left as it was.
pub fn decode(input: &[u8], output: &mut Vec<u8>) -> (r: Result<Header, DecodeError>)
    ensures
        match decoded(input@) {
            Ok((px, h)) => r == Ok::<Header, DecodeError>(h) && final(output)@ == old(output)@ + px,
            Err(e) => r == Err::<Header, DecodeError>(e) && final(output)@ == old(output)@,
        },
{
    let header = match decode_header(input) {
        Ok(h) => h,
        Err(e) => return Err(e),
    };
    proof {
        let (w, h) = (header.width as int, header.height as int);
        assert(w * h <= 0xffff_fffe_0000_0001) by (nonlinear_arith)
            requires
                0 <= w <= 0xffff_ffff,
                0 <= h <= 0xffff_ffff,
        ;
    }
    let n_pixels: u64 = header.width as u64 * header.height as u64;
    let mut state = DecoderState::new(header);
    let mut pixels: Vec<u8> = Vec::new();
    let mut pos: usize = 14;
    let ghost s = input@;
    let ghost total = pixel_total(header);
    let ghost mut done: Seq<Pixel> = seq![];
    proof {
        lemma_after_empty(decode_pixels(s, 14, start_cache(), start_pixel(), total));
    }
    while state.n_pixels < n_pixels
        invariant
            n_pixels == total,
            total == pixel_total(header),
            total <= 0xffff_fffe_0000_0001,
            14 <= pos <= s.len(),
            s == input@,
            header_of(s) == Ok::<Header, DecodeError>(header),
            output@ == old(output)@,
            state.header == header,
            decode_pixels(s, 14, start_cache(), start_pixel(), total) == after(
                done,
                decode_pixels(s, pos as int, state.index_array@, state.previous_pixel, total - state.n_pixels),
            ),
            pixels@ == flatten(done, header.channels),
        decreases s.len() - pos,
    {
        let ghost cache0 = state.index_array@;
        let ghost prev0 = state.previous_pixel;
        let ghost n0 = state.n_pixels;
        match decode_chunk(&mut state, input, pos, &mut pixels) {
            Ok(next) => {
                proof {
                    let c = parse_chunk(s, pos as int);
                    let p = chunk_pixel(cache0, prev0, c);
                    lemma_decode_step(s, pos as int, cache0, prev0, total - n0);
                    let run = Seq::new(chunk_count(c) as nat, |i: int| p);
                    lemma_flatten_append(done, run, header.channels);
                    lemma_after_after(
                        done,
                        run,
                        decode_pixels(s, next as int, state.index_array@, p, total - state.n_pixels),
                    );
                    done = done + run;
                }
                pos = next;
            },
            Err(e) => {
                proof {
                    lemma_decode_fail(s, pos as int, cache0, prev0, total - n0);
                }
                return Err(e);
            },
        }
    }
    proof {
        lemma_decode_done(s, pos as int, state.index_array@, state.previous_pixel, total - state.n_pixels);
        assert(done + seq![] =~= done);
    }
    match verify_eof_sequence(input, pos) {
        Ok(()) => {},
        Err(e) => return Err(e),
    }
    output.append(&mut pixels);
    Ok(header)
}

/// Decodes a whole stream into a new buffer.
pub fn decode_from_data(data: &[u8]) -> (r: Result<(Vec<u8>, Header), DecodeError>)
    ensures
        match decoded(data@) {
            Ok((px, h)) => r matches Ok((v, h2)) && v@ == px && h2 == h,
            Err(e) => r == Err::<(Vec<u8>, Header), DecodeError>(e),
        },
{
    let mut output = Vec::new();
    match decode(data, &mut output) {
        Ok(header) => Ok((output, header)),
        Err(e) => Err(e),
    }
}

} // verus!
