//! Run-length compression of a pixel buffer, packet by packet.
//!
//! A packet is a head byte and a payload. A head below 128 announces
//! `head + 1` pixels that follow as they are; a head of 128 or more
//! announces one pixel that stands for `head - 127` equal ones.

use crate::image::Format;
use crate::tga::TgaError;
use vstd::arithmetic::div_mod::{lemma_fundamental_div_mod, lemma_mod_bound};
use vstd::prelude::*;

verus! {

/// The bytes of pixel `i` in a buffer of `bpp` bytes per pixel.
pub open spec fn pixel(data: Seq<u8>, bpp: int, i: int) -> Seq<u8> {
    data.subrange(i * bpp, i * bpp + bpp)
}

/// The bytes of the `count` pixels from pixel `i` on.
pub open spec fn pixels(data: Seq<u8>, bpp: int, i: int, count: int) -> Seq<u8> {
    data.subrange(i * bpp, (i + count) * bpp)
}

/// `px` written `count` times in a row.
pub open spec fn repeat(px: Seq<u8>, count: int) -> Seq<u8>
    decreases count,
{
    if count <= 0 {
        Seq::empty()
    } else {
        repeat(px, count - 1) + px
    }
}

/// The length of the run of equal pixels that starts at pixel `s`, given
/// that its first `len` pixels are equal: the run grows while the next
/// pixel equals the last one, up to 128 pixels and the end of the `n`
/// pixels.
pub open spec fn same_run(data: Seq<u8>, bpp: int, n: int, s: int, len: int) -> int
    decreases n - s - len,
{
    if len < 128 && s + len < n && pixel(data, bpp, s + len - 1) == pixel(data, bpp, s + len) {
        same_run(data, bpp, n, s, len + 1)
    } else {
        len
    }
}

/// The length of the run of unlike pixels that starts at pixel `s`, given
/// that no two neighbours among its first `len` pixels are equal: the run
/// grows while the next pixel differs from the last one, up to 128 pixels
/// and the end of the `n` pixels. Where the next pixel equals the last one,
/// the last one is left to start a run of equal pixels.
pub open spec fn raw_run(data: Seq<u8>, bpp: int, n: int, s: int, len: int) -> int
    decreases n - s - len,
{
    if len < 128 && s + len < n {
        if pixel(data, bpp, s + len - 1) == pixel(data, bpp, s + len) {
            len - 1
        } else {
            raw_run(data, bpp, n, s, len + 1)
        }
    } else {
        len
    }
}

/// The packet at pixel `s` holds unlike pixels: `s` is the last pixel, or
/// differs from the one after it.
pub open spec fn packet_is_raw(data: Seq<u8>, bpp: int, n: int, s: int) -> bool {
    s + 1 >= n || pixel(data, bpp, s) != pixel(data, bpp, s + 1)
}

/// How many pixels the packet at pixel `s` covers.
pub open spec fn packet_len(data: Seq<u8>, bpp: int, n: int, s: int) -> int {
    if s + 1 >= n {
        1
    } else if pixel(data, bpp, s) == pixel(data, bpp, s + 1) {
        same_run(data, bpp, n, s, 2)
    } else {
        raw_run(data, bpp, n, s, 2)
    }
}

/// The bytes of the packet at pixel `s`.
pub open spec fn packet(data: Seq<u8>, bpp: int, n: int, s: int) -> Seq<u8> {
    let len = packet_len(data, bpp, n, s);
    if packet_is_raw(data, bpp, n, s) {
        seq![(len - 1) as u8] + pixels(data, bpp, s, len)
    } else {
        seq![(len + 127) as u8] + pixel(data, bpp, s)
    }
}

/// The packets that encode the pixels from `s` to the end of the `n`
/// pixels of `data`.
pub open spec fn rle_encode(data: Seq<u8>, bpp: int, n: int, s: int) -> Seq<u8>
    decreases n - s,
    via rle_encode_decreases
{
    if s >= n {
        Seq::empty()
    } else {
        packet(data, bpp, n, s) + rle_encode(data, bpp, n, s + packet_len(data, bpp, n, s))
    }
}

#[via_fn]
proof fn rle_encode_decreases(data: Seq<u8>, bpp: int, n: int, s: int) {
    if s < n {
        lemma_packet_len(data, bpp, n, s);
    }
}

/// A run of equal pixels that has `len` pixels ends with at least `len`,
/// at most 128, and inside the `n` pixels.
pub proof fn lemma_same_run(data: Seq<u8>, bpp: int, n: int, s: int, len: int)
    requires
        1 <= len <= 128,
        s + len <= n,
    ensures
        len <= same_run(data, bpp, n, s, len) <= 128,
        s + same_run(data, bpp, n, s, len) <= n,
    decreases n - s - len,
{
    if len < 128 && s + len < n && pixel(data, bpp, s + len - 1) == pixel(data, bpp, s + len) {
        lemma_same_run(data, bpp, n, s, len + 1);
    }
}

/// A run of unlike pixels that has `len` pixels ends with at least
/// `len - 1`, at most 128, and inside the `n` pixels.
pub proof fn lemma_raw_run(data: Seq<u8>, bpp: int, n: int, s: int, len: int)
    requires
        2 <= len <= 128,
        s + len <= n,
    ensures
        len - 1 <= raw_run(data, bpp, n, s, len) <= 128,
        s + raw_run(data, bpp, n, s, len) <= n,
    decreases n - s - len,
{
    if len < 128 && s + len < n && pixel(data, bpp, s + len - 1) != pixel(data, bpp, s + len) {
        lemma_raw_run(data, bpp, n, s, len + 1);
    }
}

/// A packet covers between 1 and 128 pixels, none past the end.
pub proof fn lemma_packet_len(data: Seq<u8>, bpp: int, n: int, s: int)
    requires
        s < n,
    ensures
        1 <= packet_len(data, bpp, n, s) <= 128,
        s + packet_len(data, bpp, n, s) <= n,
{
    if s + 1 < n {
        lemma_same_run(data, bpp, n, s, 2);
        lemma_raw_run(data, bpp, n, s, 2);
    }
}

/// What a decoder that has read `d` makes of the rest of its work: `d`
/// goes in front of the pixels still to come, and an error stays.
pub open spec fn preceded(d: Seq<u8>, rest: Result<Seq<u8>, TgaError>) -> Result<
    Seq<u8>,
    TgaError,
> {
    match rest {
        Ok(r) => Ok(d + r),
        Err(e) => Err(e),
    }
}

/// The pixels that the packets of `stream` from byte `pos` on hold, when
/// `done` of the `n` pixels are decoded already; or the error at which
/// decoding stops. Bytes after the last packet are not looked at.
pub open spec fn rle_decode(stream: Seq<u8>, bpp: int, n: int, pos: int, done: int) -> Result<
    Seq<u8>,
    TgaError,
>
    decreases n - done,
{
    if done >= n {
        Ok(Seq::empty())
    } else if pos < 0 || pos >= stream.len() {
        Err(TgaError::UnexpectedEof)
    } else {
        let head = stream[pos];
        let len = head % 128 + 1;
        if done + len > n {
            Err(TgaError::InvalidRleLength)
        } else if head < 128 {
            if pos + 1 + len * bpp > stream.len() {
                Err(TgaError::UnexpectedEof)
            } else {
                preceded(
                    stream.subrange(pos + 1, pos + 1 + len * bpp),
                    rle_decode(stream, bpp, n, pos + 1 + len * bpp, done + len),
                )
            }
        } else {
            if pos + 1 + bpp > stream.len() {
                Err(TgaError::UnexpectedEof)
            } else {
                preceded(
                    repeat(stream.subrange(pos + 1, pos + 1 + bpp), len),
                    rle_decode(stream, bpp, n, pos + 1 + bpp, done + len),
                )
            }
        }
    }
}

/// Appends the bytes `from..to` of `data` to `out`.
fn append_range(out: &mut Vec<u8>, data: &[u8], from: usize, to: usize)
    requires
        from <= to <= data@.len(),
    ensures
        final(out)@ == old(out)@ + data@.subrange(from as int, to as int),
{
    let ghost before = out@;
    let mut i: usize = from;
    while i < to
        invariant
            from <= i <= to <= data@.len(),
            out@ == before + data@.subrange(from as int, i as int),
        decreases to - i,
    {
        out.push(data[i]);
        assert(out@ =~= before + data@.subrange(from as int, i + 1));
        i += 1;
    }
}

/// Whether pixels `i` and `j` of `data` hold the same bytes.
fn same_pixel(data: &[u8], bpp: usize, i: usize, j: usize) -> (r: bool)
    requires
        i * bpp + bpp <= data@.len(),
        j * bpp + bpp <= data@.len(),
    ensures
        r == (pixel(data@, bpp as int, i as int) == pixel(data@, bpp as int, j as int)),
{
    let ghost a = pixel(data@, bpp as int, i as int);
    let ghost b = pixel(data@, bpp as int, j as int);
    assert(0 <= i * bpp && 0 <= j * bpp) by (nonlinear_arith);
    assert(data@.len() == data.len());
    let mut c: usize = 0;
    while c < bpp
        invariant
            c <= bpp,
            data@.len() <= usize::MAX,
            i * bpp + bpp <= data@.len(),
            j * bpp + bpp <= data@.len(),
            0 <= i * bpp,
            0 <= j * bpp,
            a == pixel(data@, bpp as int, i as int),
            b == pixel(data@, bpp as int, j as int),
            forall|t: int| 0 <= t < c ==> a[t] == b[t],
        decreases bpp - c,
    {
        if data[i * bpp + c] != data[j * bpp + c] {
            assert(a[c as int] != b[c as int]);
            return false;
        }
        c += 1;
    }
    assert(a =~= b);
    true
}

/// Encodes the whole pixels of `data` as packets. A run of two or more
/// equal pixels becomes one packet with the pixel and its count; the pixels
/// between such runs go into packets as they are. No packet covers more
/// than 128 pixels.
pub fn write_rle(data: &Vec<u8>, format: Format) -> (out: Vec<u8>)
    ensures
        out@ == rle_encode(
            data@,
            format.spec_bytes_per_pixel() as int,
            data@.len() as int / (format.spec_bytes_per_pixel() as int),
            0,
        ),
{
    let bytes_per_pixel = format.bytes_per_pixel();
    let num_pixels = data.len() / bytes_per_pixel;
    let ghost bpp = bytes_per_pixel as int;
    let ghost n = num_pixels as int;
    proof {
        lemma_fundamental_div_mod(data@.len() as int, bpp);
        lemma_mod_bound(data@.len() as int, bpp);
        assert(n * bpp == bpp * n) by (nonlinear_arith);
        assert(data@.len() == data.len());
    }
    let mut out: Vec<u8> = Vec::new();
    let mut start_pixel: usize = 0;
    while start_pixel < num_pixels
        invariant
            start_pixel <= num_pixels,
            n == num_pixels,
            bpp == bytes_per_pixel,
            1 <= bpp <= 4,
            n * bpp <= data@.len(),
            data@.len() <= usize::MAX,
            out@ + rle_encode(data@, bpp, n, start_pixel as int) == rle_encode(data@, bpp, n, 0),
        decreases num_pixels - start_pixel,
    {
        let ghost s = start_pixel as int;
        let mut raw = true;
        let mut run_length: usize = 1;
        let mut next_pixel: usize = start_pixel + 1;
        proof {
            lemma_packet_len(data@, bpp, n, s);
        }
        while next_pixel < num_pixels && run_length < 128
            invariant_except_break
                n == num_pixels,
                bpp == bytes_per_pixel,
                1 <= bpp <= 4,
                n * bpp <= data@.len(),
                data@.len() <= usize::MAX,
                s == start_pixel,
                s < n,
                1 <= run_length <= 128,
                next_pixel == start_pixel + run_length,
                next_pixel <= num_pixels,
                run_length == 1 ==> raw,
                run_length >= 2 ==> raw == packet_is_raw(data@, bpp, n, s) && s + 1 < n,
                run_length >= 2 ==> packet_len(data@, bpp, n, s) == (if raw {
                    raw_run(data@, bpp, n, s, run_length as int)
                } else {
                    same_run(data@, bpp, n, s, run_length as int)
                }),
            ensures
                1 <= run_length <= 128,
                next_pixel == start_pixel + run_length,
                next_pixel <= num_pixels,
                raw == packet_is_raw(data@, bpp, n, s),
                run_length == packet_len(data@, bpp, n, s),
            decreases num_pixels - next_pixel,
        {
            proof {
                let p = next_pixel as int;
                assert((p - 1) * bpp + bpp == p * bpp && p * bpp + bpp <= n * bpp && 0 <= (p - 1)
                    * bpp) by (nonlinear_arith)
                    requires
                        1 <= p < n,
                        1 <= bpp,
                ;
            }
            let next_eq = same_pixel(data.as_slice(), bytes_per_pixel, next_pixel - 1, next_pixel);
            if run_length == 1 {
                raw = !next_eq;
            } else if raw && next_eq {
                run_length -= 1;
                next_pixel -= 1;
                break ;
            } else if !raw && !next_eq {
                break ;
            }
            run_length += 1;
            next_pixel += 1;
        }
        proof {
            assert(s * bpp >= 0 && (s + run_length) * bpp <= n * bpp && s * bpp + bpp <= (s
                + run_length) * bpp) by (nonlinear_arith)
                requires
                    0 <= s,
                    1 <= run_length,
                    s + run_length <= n,
                    1 <= bpp,
            ;
        }
        let ghost before = out@;
        if raw {
            out.push((run_length - 1) as u8);
            append_range(
                &mut out,
                data.as_slice(),
                start_pixel * bytes_per_pixel,
                next_pixel * bytes_per_pixel,
            );
        } else {
            out.push((run_length + 127) as u8);
            append_range(
                &mut out,
                data.as_slice(),
                start_pixel * bytes_per_pixel,
                start_pixel * bytes_per_pixel + bytes_per_pixel,
            );
        }
        proof {
            assert(out@ =~= before + packet(data@, bpp, n, s));
            let rest = rle_encode(data@, bpp, n, s + run_length);
            assert(rle_encode(data@, bpp, n, s) == packet(data@, bpp, n, s) + rest);
            assert(out@ + rest =~= before + (packet(data@, bpp, n, s) + rest));
        }
        start_pixel = next_pixel;
    }
    proof {
        assert(rle_encode(data@, bpp, n, start_pixel as int) =~= Seq::<u8>::empty());
        assert(out@ =~= out@ + Seq::<u8>::empty());
    }
    out
}

/// Decodes `num_pixels` pixels from the packets at the start of `stream`.
/// Fails where the stream ends inside a packet or before the last pixel,
/// and where a packet announces more pixels than are left to decode.
pub fn read_rle(stream: &[u8], num_pixels: usize, format: Format) -> (r: Result<Vec<u8>, TgaError>)
    ensures
        match rle_decode(
            stream@,
            format.spec_bytes_per_pixel() as int,
            num_pixels as int,
            0,
            0,
        ) {
            Ok(d) => r is Ok && r->Ok_0@ == d,
            Err(e) => r is Err && r->Err_0 == e,
        },
{
    let bytes_per_pixel = format.bytes_per_pixel();
    let ghost bpp = bytes_per_pixel as int;
    let ghost n = num_pixels as int;
    let ghost whole = rle_decode(stream@, bpp, n, 0, 0);
    let mut data: Vec<u8> = Vec::new();
    let mut pos: usize = 0;
    let mut start_pixel: usize = 0;
    proof {
        assert(stream@.len() == stream.len());
        let first = rle_decode(stream@, bpp, n, 0, 0);
        assert(preceded(data@, first) == first) by {
            if let Ok(d) = first {
                assert(data@ + d =~= d);
            }
        }
    }
    while start_pixel < num_pixels
        invariant
            start_pixel <= num_pixels,
            pos <= stream@.len(),
            stream@.len() <= usize::MAX,
            bytes_per_pixel == format.spec_bytes_per_pixel(),
            n == num_pixels,
            bpp == bytes_per_pixel,
            1 <= bpp <= 4,
            whole == rle_decode(stream@, bpp, n, 0, 0),
            whole == preceded(data@, rle_decode(stream@, bpp, n, pos as int, start_pixel as int)),
        decreases num_pixels - start_pixel,
    {
        if pos >= stream.len() {
            return Err(TgaError::UnexpectedEof);
        }
        let code = stream[pos];
        let run_length: usize = (code % 128) as usize + 1;
        if run_length > num_pixels - start_pixel {
            return Err(TgaError::InvalidRleLength);
        }
        let next_pixel = start_pixel + run_length;
        let room = stream.len() - pos - 1;
        let ghost before = data@;
        let ghost rest;
        if code < 128 {
            assert(run_length * bytes_per_pixel <= 512) by (nonlinear_arith)
                requires
                    run_length <= 128,
                    bytes_per_pixel <= 4,
            ;
            let count = run_length * bytes_per_pixel;
            if room < count {
                return Err(TgaError::UnexpectedEof);
            }
            append_range(&mut data, stream, pos + 1, pos + 1 + count);
            proof {
                rest = rle_decode(stream@, bpp, n, pos + 1 + count, next_pixel as int);
                if let Ok(d) = rest {
                    assert(before + (stream@.subrange(pos + 1, pos + 1 + count) + d) =~= data@
                        + d);
                }
            }
            pos = pos + 1 + count;
        } else {
            if room < bytes_per_pixel {
                return Err(TgaError::UnexpectedEof);
            }
            let ghost px = stream@.subrange(pos + 1, pos + 1 + bpp);
            let mut j: usize = 0;
            while j < run_length
                invariant
                    j <= run_length,
                    pos + 1 + bytes_per_pixel <= stream@.len(),
                    stream@.len() <= usize::MAX,
                    bpp == bytes_per_pixel,
                    px == stream@.subrange(pos + 1, pos + 1 + bpp),
                    data@ == before + repeat(px, j as int),
                decreases run_length - j,
            {
                append_range(&mut data, stream, pos + 1, pos + 1 + bytes_per_pixel);
                assert(data@ =~= before + repeat(px, j + 1));
                j += 1;
            }
            proof {
                rest = rle_decode(stream@, bpp, n, pos + 1 + bpp, next_pixel as int);
                if let Ok(d) = rest {
                    assert(before + (repeat(px, run_length as int) + d) =~= data@ + d);
                }
            }
            pos = pos + 1 + bytes_per_pixel;
        }
        start_pixel = next_pixel;
    }
    proof {
        assert(data@ + Seq::<u8>::empty() =~= data@);
    }
    Ok(data)
}

/// In a run of unlike pixels no two neighbours are equal.
pub proof fn lemma_raw_run_unlike(data: Seq<u8>, bpp: int, n: int, s: int, len: int)
    requires
        2 <= len <= 128,
        s + len <= n,
        forall|j: int|
            s <= j < s + len - 1 ==> #[trigger] pixel(data, bpp, j) != pixel(data, bpp, j + 1),
    ensures
        forall|j: int|
            s <= j < s + raw_run(data, bpp, n, s, len) - 1 ==> #[trigger] pixel(data, bpp, j) != pixel(
                data,
                bpp,
                j + 1,
            ),
    decreases n - s - len,
{
    if len < 128 && s + len < n && pixel(data, bpp, s + len - 1) != pixel(data, bpp, s + len) {
        lemma_raw_run_unlike(data, bpp, n, s, len + 1);
    }
}

/// What a packet is: its head byte tells its kind and its length; a packet
/// of unlike pixels has no two equal neighbours, and a packet of equal
/// pixels has at least two pixels, all equal to the first.
pub proof fn lemma_packet_shape(data: Seq<u8>, bpp: int, n: int, s: int)
    requires
        s < n,
    ensures
        packet_is_raw(data, bpp, n, s) ==> packet(data, bpp, n, s)[0] == packet_len(
            data,
            bpp,
            n,
            s,
        ) - 1 && packet(data, bpp, n, s)[0] < 128,
        packet_is_raw(data, bpp, n, s) ==> forall|j: int|
            s <= j < s + packet_len(data, bpp, n, s) - 1 ==> #[trigger] pixel(data, bpp, j) != pixel(
                data,
                bpp,
                j + 1,
            ),
        !packet_is_raw(data, bpp, n, s) ==> packet(data, bpp, n, s)[0] == packet_len(
            data,
            bpp,
            n,
            s,
        ) + 127 && 2 <= packet_len(data, bpp, n, s),
        !packet_is_raw(data, bpp, n, s) ==> forall|j: int|
            s <= j < s + packet_len(data, bpp, n, s) ==> pixel(data, bpp, j) == pixel(
                data,
                bpp,
                s,
            ),
{
    lemma_packet_len(data, bpp, n, s);
    if s + 1 < n {
        if pixel(data, bpp, s) == pixel(data, bpp, s + 1) {
            lemma_same_run(data, bpp, n, s, 2);
            assert forall|j: int| s <= j < s + 2 implies pixel(data, bpp, j) == pixel(
                data,
                bpp,
                s,
            ) by {}
            lemma_same_run_equal(data, bpp, n, s, 2);
        } else {
            lemma_raw_run_unlike(data, bpp, n, s, 2);
        }
    }
}

/// `px` written `count` times has `count` times the length of `px`.
pub proof fn lemma_repeat_len(px: Seq<u8>, count: int)
    requires
        0 <= count,
    ensures
        repeat(px, count).len() == count * px.len(),
    decreases count,
{
    if count > 0 {
        lemma_repeat_len(px, count - 1);
        assert((count - 1) * px.len() + px.len() == count * px.len()) by (nonlinear_arith);
    } else {
        assert(count * px.len() == 0) by (nonlinear_arith)
            requires
                count == 0,
        ;
    }
}

/// What decoding yields has as many bytes as the pixels that were still to
/// decode.
pub proof fn lemma_decode_len(stream: Seq<u8>, bpp: int, n: int, pos: int, done: int)
    requires
        1 <= bpp,
        0 <= done <= n,
    ensures
        rle_decode(stream, bpp, n, pos, done) matches Ok(d) ==> d.len() == (n - done) * bpp,
    decreases n - done,
{
    if done >= n {
        assert((n - done) * bpp == 0) by (nonlinear_arith)
            requires
                n == done,
        ;
    } else if 0 <= pos < stream.len() {
        let head = stream[pos];
        let len = head % 128 + 1;
        if done + len <= n {
            assert(len * bpp + (n - done - len) * bpp == (n - done) * bpp) by (nonlinear_arith);
            assert(0 <= len * bpp) by (nonlinear_arith)
                requires
                    0 <= len,
                    0 <= bpp,
            ;
            if head < 128 {
                lemma_decode_len(stream, bpp, n, pos + 1 + len * bpp, done + len);
            } else {
                lemma_decode_len(stream, bpp, n, pos + 1 + bpp, done + len);
                lemma_repeat_len(stream.subrange(pos + 1, pos + 1 + bpp), len as int);
            }
        }
    }
}

/// A run of equal pixels holds only pixels equal to its first.
pub proof fn lemma_same_run_equal(data: Seq<u8>, bpp: int, n: int, s: int, len: int)
    requires
        1 <= len <= 128,
        s + len <= n,
        forall|j: int| s <= j < s + len ==> pixel(data, bpp, j) == pixel(data, bpp, s),
    ensures
        forall|j: int|
            s <= j < s + same_run(data, bpp, n, s, len) ==> pixel(data, bpp, j) == pixel(
                data,
                bpp,
                s,
            ),
    decreases n - s - len,
{
    if len < 128 && s + len < n && pixel(data, bpp, s + len - 1) == pixel(data, bpp, s + len) {
        lemma_same_run_equal(data, bpp, n, s, len + 1);
    }
}

/// Some pixels are all but the last of them, and the last.
pub proof fn lemma_pixels_last(data: Seq<u8>, bpp: int, s: int, len: int)
    requires
        1 <= bpp,
        0 <= s,
        1 <= len,
        (s + len) * bpp <= data.len(),
    ensures
        (s + len - 1) * bpp <= data.len(),
        pixels(data, bpp, s, len) == pixels(data, bpp, s, len - 1) + pixel(
            data,
            bpp,
            s + len - 1,
        ),
{
    let from = s * bpp;
    let mid = (s + len - 1) * bpp;
    let to = (s + len) * bpp;
    assert(0 <= from <= mid && mid + bpp == to) by (nonlinear_arith)
        requires
            from == s * bpp,
            mid == (s + len - 1) * bpp,
            to == (s + len) * bpp,
            0 <= s,
            1 <= len,
            1 <= bpp,
    ;
    assert(data.subrange(from, to) =~= data.subrange(from, mid) + data.subrange(mid, mid + bpp));
}

/// Pixels that all equal the first of them are that pixel, repeated.
pub proof fn lemma_repeat_pixels(data: Seq<u8>, bpp: int, s: int, len: int)
    requires
        1 <= bpp,
        0 <= s,
        0 <= len,
        (s + len) * bpp <= data.len(),
        forall|j: int| s <= j < s + len ==> pixel(data, bpp, j) == pixel(data, bpp, s),
    ensures
        repeat(pixel(data, bpp, s), len) == pixels(data, bpp, s, len),
    decreases len,
{
    if len > 0 {
        lemma_pixels_last(data, bpp, s, len);
        lemma_repeat_pixels(data, bpp, s, len - 1);
        assert(pixel(data, bpp, s + len - 1) == pixel(data, bpp, s));
    } else {
        assert(pixels(data, bpp, s, len) =~= Seq::<u8>::empty());
    }
}

/// Decoding reads back what encoding wrote: where `stream` holds, from
/// byte `pos` on, the packets that encode the pixels of `data` from `s` on,
/// decoding from there yields those pixels, whatever follows the packets.
pub proof fn lemma_decode_encode(
    stream: Seq<u8>,
    data: Seq<u8>,
    bpp: int,
    n: int,
    pos: int,
    s: int,
)
    requires
        1 <= bpp,
        0 <= s <= n,
        n * bpp <= data.len(),
        0 <= pos,
        pos + rle_encode(data, bpp, n, s).len() <= stream.len(),
        stream.subrange(pos, pos + rle_encode(data, bpp, n, s).len()) == rle_encode(
            data,
            bpp,
            n,
            s,
        ),
    ensures
        rle_decode(stream, bpp, n, pos, s) == Ok::<Seq<u8>, TgaError>(
            data.subrange(s * bpp, n * bpp),
        ),
    decreases n - s,
{
    if s >= n {
        assert(data.subrange(s * bpp, n * bpp) =~= Seq::<u8>::empty());
    } else {
        let enc = rle_encode(data, bpp, n, s);
        let len = packet_len(data, bpp, n, s);
        let pack = packet(data, bpp, n, s);
        let rest = rle_encode(data, bpp, n, s + len);
        lemma_packet_len(data, bpp, n, s);
        assert(enc == pack + rest);
        assert(0 <= s * bpp && s * bpp + bpp <= (s + len) * bpp && (s + len) * bpp <= n * bpp && (s
            + len) * bpp == s * bpp + len * bpp) by (nonlinear_arith)
            requires
                0 <= s,
                1 <= len,
                s + len <= n,
                1 <= bpp,
        ;
        let head = stream[pos];
        assert(head == enc[0]) by {
            assert(stream.subrange(pos, pos + enc.len())[0] == stream[pos]);
        }
        let next = pos + pack.len();
        assert(stream.subrange(next, next + rest.len()) =~= rest) by {
            assert forall|i: int| 0 <= i < rest.len() implies stream[next + i] == rest[i] by {
                assert(stream.subrange(pos, pos + enc.len())[pack.len() + i] == stream[next
                    + i]);
            }
        }
        lemma_decode_encode(stream, data, bpp, n, next, s + len);
        let tail = data.subrange((s + len) * bpp, n * bpp);
        assert forall|i: int| 0 <= i < pack.len() implies stream[pos + i] == pack[i] by {
            assert(stream.subrange(pos, pos + enc.len())[i] == stream[pos + i]);
        }
        if packet_is_raw(data, bpp, n, s) {
            assert(head == len - 1);
            assert(pack.len() == 1 + len * bpp);
            let body = stream.subrange(pos + 1, pos + 1 + len * bpp);
            assert(body =~= pixels(data, bpp, s, len)) by {
                assert forall|i: int| 0 <= i < len * bpp implies body[i] == pixels(
                    data,
                    bpp,
                    s,
                    len,
                )[i] by {
                    assert(stream[pos + (1 + i)] == pack[1 + i]);
                }
            }
            assert(body + tail =~= data.subrange(s * bpp, n * bpp));
        } else {
            lemma_same_run(data, bpp, n, s, 2);
            assert(head == len + 127);
            assert(pack.len() == 1 + bpp);
            let px = stream.subrange(pos + 1, pos + 1 + bpp);
            assert(px =~= pixel(data, bpp, s)) by {
                assert forall|i: int| 0 <= i < bpp implies px[i] == pixel(data, bpp, s)[i] by {
                    assert(stream[pos + (1 + i)] == pack[1 + i]);
                }
            }
            assert forall|j: int| s <= j < s + 2 implies pixel(data, bpp, j) == pixel(
                data,
                bpp,
                s,
            ) by {}
            lemma_same_run_equal(data, bpp, n, s, 2);
            lemma_repeat_pixels(data, bpp, s, len);
            assert(pixels(data, bpp, s, len) + tail =~= data.subrange(s * bpp, n * bpp));
        }
    }
}

} // verus!
