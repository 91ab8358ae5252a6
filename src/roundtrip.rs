//! What holds between the encoder and the decoder.
use vstd::prelude::*;

use vstd::arithmetic::div_mod::lemma_fundamental_div_mod_converse;

use crate::{
    Channels, Header, Pixel, be_bytes, be_value, end_marker, flatten, hash, header_bytes, magic,
    pixel_bytes, pixel_total, start_cache, start_pixel, stride,
};
use crate::decode::{
    Chunk, DecodeError, add_delta, chunk_at, decoded, header_of, chunk_count, chunk_len, chunk_pixel, parse_chunk,
};
use crate::decode::{decode_pixels, lemma_decode_done, lemma_decode_fail, lemma_decode_step};
use crate::encode::{
    chunk_bytes, delta, diff_byte, diff_fits, encode_pixels, encoded, pixels_of, lemma_encode_done, lemma_encode_step,
    lemma_run_length_bound, luma_bytes, luma_fits, step_bytes, step_len,
};

verus! {

proof fn lemma_add_delta(c: u8, p: u8)
    ensures
        add_delta(p, delta(c, p)) == c,
        -128 <= delta(c, p) <= 127,
{
}

proof fn lemma_split(x: int, d: int, q: int, r: int)
    requires
        d > 0,
        0 <= r < d,
        x == q * d + r,
    ensures
        x / d == q,
        x % d == r,
{
    lemma_fundamental_div_mod_converse(x, d, q, r);
}

/// The chunk that the encoder writes for a pixel other than the previous one
/// reads back as that pixel, and its first byte gives its length.
proof fn lemma_chunk_inverse(s: Seq<u8>, pos: int, cache: Seq<Pixel>, prev: Pixel, p: Pixel)
    requires
        p != prev,
        cache.len() == 64,
        0 <= pos < s.len(),
        s[pos] == chunk_bytes(cache, prev, p)[0],
    ensures
        chunk_len(s[pos]) == chunk_bytes(cache, prev, p).len(),
        pos + chunk_bytes(cache, prev, p).len() <= s.len() && s.subrange(
            pos,
            pos + chunk_bytes(cache, prev, p).len(),
        ) == chunk_bytes(cache, prev, p) ==> ({
            let c = parse_chunk(s, pos);
            chunk_pixel(cache, prev, c) == p && chunk_count(c) == 1
        }),
{
    let cb = chunk_bytes(cache, prev, p);
    let dr = delta(p.r, prev.r);
    let dg = delta(p.g, prev.g);
    let db = delta(p.b, prev.b);
    lemma_add_delta(p.r, prev.r);
    lemma_add_delta(p.g, prev.g);
    lemma_add_delta(p.b, prev.b);
    if pos + cb.len() <= s.len() && s.subrange(pos, pos + cb.len()) == cb {
        assert forall|k: int| 0 <= k < cb.len() implies s[pos + k] == cb[k] by {
            assert(s.subrange(pos, pos + cb.len())[k] == s[pos + k]);
        }
    }
    if p.a != prev.a {
    } else if cache[hash(p)] == p {
    } else if diff_fits(prev, p) {
        let x = (dr + 2) * 16 + (dg + 2) * 4 + (db + 2);
        assert(diff_byte(prev, p) == 64 + x);
        lemma_split(x, 16, dr + 2, (dg + 2) * 4 + (db + 2));
        lemma_split(x, 4, (dr + 2) * 4 + (dg + 2), db + 2);
        lemma_split((dr + 2) * 4 + (dg + 2), 4, dr + 2, dg + 2);
    } else if luma_fits(prev, p) {
        let y = (dr - dg + 8) * 16 + (db - dg + 8);
        assert(luma_bytes(prev, p)[1] == y);
        lemma_split(y, 16, dr - dg + 8, db - dg + 8);
    } else {
    }
}

/// The chunks that the encoder writes for the pixels from `i` on decode back to
/// those pixels wherever they stand in a stream; where the stream stops inside
/// them, decoding fails for want of bytes.
proof fn lemma_stream_inverse(
    px: Seq<Pixel>,
    i: int,
    cache: Seq<Pixel>,
    prev: Pixel,
    s: Seq<u8>,
    pos: int,
)
    requires
        0 <= i <= px.len(),
        cache.len() == 64,
        0 <= pos <= s.len(),
        forall|j: int|
            pos <= j < s.len() && j < pos + encode_pixels(px, i, cache, prev).len() ==> #[trigger] s[j]
                == encode_pixels(px, i, cache, prev)[j - pos],
    ensures
        pos + encode_pixels(px, i, cache, prev).len() <= s.len() ==> decode_pixels(
            s,
            pos,
            cache,
            prev,
            px.len() - i,
        ) == Ok::<(Seq<Pixel>, int), DecodeError>(
            (px.subrange(i, px.len() as int), pos + encode_pixels(px, i, cache, prev).len()),
        ),
        pos + encode_pixels(px, i, cache, prev).len() > s.len() ==> decode_pixels(
            s,
            pos,
            cache,
            prev,
            px.len() - i,
        ) == Err::<(Seq<Pixel>, int), DecodeError>(DecodeError::IoError),
    decreases px.len() - i,
{
    let e = encode_pixels(px, i, cache, prev);
    if i == px.len() {
        lemma_encode_done(px, i, cache, prev);
        lemma_decode_done(s, pos, cache, prev, px.len() - i);
        assert(px.subrange(i, px.len() as int) =~= seq![]);
        return;
    }
    lemma_encode_step(px, i, cache, prev);
    let p = px[i];
    let n = step_len(px, i, prev);
    let sb = step_bytes(px, i, cache, prev);
    let cache2 = cache.update(hash(p), p);
    let rest = encode_pixels(px, i + n, cache2, p);
    lemma_run_length_bound(px, i + 1, prev, 61);
    assert(e == sb + rest);
    if pos == s.len() {
        lemma_decode_fail(s, pos, cache, prev, px.len() - i);
        return;
    }
    assert(s[pos] == sb[0]);
    if p == prev {
        assert(chunk_len(s[pos]) == 1);
        assert(parse_chunk(s, pos) == Chunk::Run(n as u8));
    } else {
        lemma_chunk_inverse(s, pos, cache, prev, p);
        if pos + sb.len() > s.len() {
            lemma_decode_fail(s, pos, cache, prev, px.len() - i);
            return;
        }
        assert(s.subrange(pos, pos + sb.len()) =~= sb);
    }
    let c = parse_chunk(s, pos);
    assert(chunk_at(s, pos) == Ok::<(Chunk, int), DecodeError>((c, pos + sb.len())));
    assert(chunk_pixel(cache, prev, c) == p);
    assert(chunk_count(c) == n);
    lemma_decode_step(s, pos, cache, prev, px.len() - i);
    assert forall|j: int|
        pos + sb.len() <= j < s.len() && j < pos + sb.len() + rest.len() implies #[trigger] s[j]
        == rest[j - (pos + sb.len())] by {
        assert(e[j - pos] == rest[j - pos - sb.len()]);
    }
    lemma_stream_inverse(px, i + n, cache2, p, s, pos + sb.len());
    if pos + e.len() <= s.len() {
        assert(Seq::new(n as nat, |k: int| p) + px.subrange(i + n, px.len() as int) =~= px.subrange(
            i,
            px.len() as int,
        ));
    }
}

proof fn lemma_be_inverse(x: u32)
    ensures
        be_value(be_bytes(x)[0], be_bytes(x)[1], be_bytes(x)[2], be_bytes(x)[3]) == x,
{
    assert((((x >> 24u32) as u8) as u32) << 24u32 | (((x >> 16u32) as u8) as u32) << 16u32 | (((x
        >> 8u32) as u8) as u32) << 8u32 | ((x as u8) as u32) == x) by (bit_vector);
}

/// A header reads back from its bytes, whatever follows them.
proof fn lemma_header_inverse(h: Header, rest: Seq<u8>)
    ensures
        header_of(header_bytes(h) + rest) == Ok::<Header, DecodeError>(h),
{
    let s = header_bytes(h) + rest;
    assert(s.subrange(0, 4) =~= magic());
    lemma_be_inverse(h.width);
    lemma_be_inverse(h.height);
    assert(s[4] == be_bytes(h.width)[0] && s[5] == be_bytes(h.width)[1] && s[6] == be_bytes(
        h.width,
    )[2] && s[7] == be_bytes(h.width)[3]);
    assert(s[8] == be_bytes(h.height)[0] && s[9] == be_bytes(h.height)[1] && s[10] == be_bytes(
        h.height,
    )[2] && s[11] == be_bytes(h.height)[3]);
}

/// The chunks for all pixels decode back to them wherever they stand in a stream.
proof fn lemma_chunks_inverse(px: Seq<Pixel>, s: Seq<u8>, pos: int)
    requires
        0 <= pos,
        pos + encode_pixels(px, 0, start_cache(), start_pixel()).len() <= s.len(),
        s.subrange(pos, pos + encode_pixels(px, 0, start_cache(), start_pixel()).len())
            == encode_pixels(px, 0, start_cache(), start_pixel()),
    ensures
        decode_pixels(s, pos, start_cache(), start_pixel(), px.len() as int) == Ok::<
            (Seq<Pixel>, int),
            DecodeError,
        >((px, pos + encode_pixels(px, 0, start_cache(), start_pixel()).len())),
{
    let e = encode_pixels(px, 0, start_cache(), start_pixel());
    assert forall|j: int| pos <= j < s.len() && j < pos + e.len() implies #[trigger] s[j] == e[j
        - pos] by {
        assert(s.subrange(pos, pos + e.len())[j - pos] == s[j]);
    }
    lemma_stream_inverse(px, 0, start_cache(), start_pixel(), s, pos);
    assert(px.subrange(0, px.len() as int) =~= px);
}

/// Decoding what the encoder wrote for a header and as many pixels as the header
/// counts gives back the header and the pixels, three or four bytes each by the
/// header's channel count.
pub proof fn lemma_round_trip(h: Header, px: Seq<Pixel>)
    requires
        px.len() == pixel_total(h),
    ensures
        decoded(encoded(h, px)) == Ok::<(Seq<u8>, Header), DecodeError>((flatten(px, h.channels), h)),
{
    let e = encode_pixels(px, 0, start_cache(), start_pixel());
    let el = e.len() as int;
    let s = encoded(h, px);
    assert(s =~= header_bytes(h) + (e + end_marker()));
    lemma_header_inverse(h, e + end_marker());
    assert(s.subrange(14, 14 + el) =~= e);
    lemma_chunks_inverse(px, s, 14);
    assert(s.subrange(14 + el, 14 + el + 7) =~= end_marker().take(7));
    assert(s[14 + el + 7] == 1);
}

/// A buffer that holds a whole number of pixels, three or four bytes each by the
/// channel count, is what its pixels flatten back to.
proof fn lemma_flatten_pixels_of(data: Seq<u8>, c: Channels)
    requires
        data.len() as int % (stride(c) as int) == 0,
    ensures
        flatten(pixels_of(data, c), c) == data,
    decreases data.len(),
{
    let k = stride(c) as int;
    let ps = pixels_of(data, c);
    if data.len() == 0 {
        assert(ps.len() == 0);
        assert(flatten(ps, c) =~= data);
    } else {
        let n = data.len() as int / k;
        let d2 = data.take(data.len() - k);
        lemma_split(data.len() as int, k, n, 0);
        lemma_split(d2.len() as int, k, n - 1, 0);
        assert(ps.drop_last() =~= pixels_of(d2, c));
        lemma_flatten_pixels_of(d2, c);
        let last = ps.last();
        assert(last == ps[n - 1]);
        assert((n - 1) * k == data.len() - k) by (nonlinear_arith)
            requires
                data.len() == n * k,
        ;
        if c == Channels::Rgb {
            assert(pixel_bytes(last, c) =~= data.subrange(data.len() - k, data.len() as int));
        } else {
            assert(pixel_bytes(last, c) =~= data.subrange(data.len() - k, data.len() as int));
        }
        assert(d2 + data.subrange(data.len() - k, data.len() as int) =~= data);
    }
}

/// Decoding what the encoder wrote for a header and a buffer of `width * height`
/// pixels, three or four bytes each by the header's channel count, gives back the
/// header and the buffer.
pub proof fn lemma_round_trip_buffer(h: Header, data: Seq<u8>)
    requires
        data.len() == pixel_total(h) * stride(h.channels),
    ensures
        decoded(encoded(h, pixels_of(data, h.channels))) == Ok::<(Seq<u8>, Header), DecodeError>(
            (data, h),
        ),
{
    let k = stride(h.channels) as int;
    lemma_split(data.len() as int, k, pixel_total(h), 0);
    lemma_flatten_pixels_of(data, h.channels);
    lemma_round_trip(h, pixels_of(data, h.channels));
}

/// A stream that does not open with the magic bytes is refused as a bad header.
pub proof fn lemma_bad_magic(s: Seq<u8>)
    requires
        s.len() >= 4,
        s.subrange(0, 4) != magic(),
    ensures
        decoded(s) == Err::<(Seq<u8>, Header), DecodeError>(DecodeError::InvalidHeader),
{
}

/// A stream whose chunks stop before the header's pixel count is reached is
/// refused for want of bytes.
pub proof fn lemma_truncated(h: Header, px: Seq<Pixel>, k: int)
    requires
        px.len() == pixel_total(h),
        0 <= k < encode_pixels(px, 0, start_cache(), start_pixel()).len(),
    ensures
        decoded(header_bytes(h) + encode_pixels(px, 0, start_cache(), start_pixel()).take(k)) == Err::<
            (Seq<u8>, Header),
            DecodeError,
        >(DecodeError::IoError),
{
    let e = encode_pixels(px, 0, start_cache(), start_pixel());
    let s = header_bytes(h) + e.take(k);
    lemma_header_inverse(h, e.take(k));
    assert forall|j: int| 14 <= j < s.len() && j < 14 + e.len() implies #[trigger] s[j] == e[j
        - 14] by {}
    lemma_stream_inverse(px, 0, start_cache(), start_pixel(), s, 14);
}

/// A complete chunk stream followed by eight bytes other than the end marker is
/// refused for its end marker.
pub proof fn lemma_bad_end_marker(h: Header, px: Seq<Pixel>, m: Seq<u8>)
    requires
        px.len() == pixel_total(h),
        m.len() == 8,
        m != end_marker(),
    ensures
        decoded(header_bytes(h) + encode_pixels(px, 0, start_cache(), start_pixel()) + m) == Err::<
            (Seq<u8>, Header),
            DecodeError,
        >(DecodeError::InvalidEofSequence),
{
    let e = encode_pixels(px, 0, start_cache(), start_pixel());
    let el = e.len() as int;
    let s = header_bytes(h) + e + m;
    assert(s =~= header_bytes(h) + (e + m));
    lemma_header_inverse(h, e + m);
    assert(s.subrange(14, 14 + el) =~= e);
    lemma_chunks_inverse(px, s, 14);
    let pos = 14 + el;
    if s.subrange(pos, pos + 7) == end_marker().take(7) {
        assert forall|j: int| 0 <= j < 7 implies m[j] == end_marker()[j] by {
            assert(s.subrange(pos, pos + 7)[j] == m[j]);
        }
        assert(s[pos + 7] == m[7]);
        if m[7] == 1 {
            assert(m =~= end_marker());
        }
    }
}

} // verus!
