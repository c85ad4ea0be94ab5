//! The TGA file format: a header of 18 bytes, the pixels as they are or in
//! run-length packets, and a footer of 26 bytes.
//!
//! In memory the first row of an image is its top row. A file says in its
//! descriptor byte where its first row lies: with bit `0x20` at the top, the
//! order that [`write`] emits; without it at the bottom, so that [`read`]
//! turns the rows round. Bit `0x10` says that each row runs from right to
//! left, and [`read`] turns the columns round.

use crate::image::{Format, Image, ImageView};
use crate::rle::{
    lemma_decode_encode, lemma_decode_len, read_rle, rle_decode, rle_encode, write_rle,
};
use vstd::arithmetic::div_mod::lemma_fundamental_div_mod_converse;
use vstd::prelude::*;
use vstd::slice::{slice_subrange, slice_to_vec};

verus! {

/// What can be wrong with the bytes of an image file.
#[derive(Clone, Copy, Debug, PartialEq, Eq, Structural)]
pub enum TgaError {
    /// The bytes end before the header or the pixels are complete.
    UnexpectedEof,
    /// The image type and pixel depth of the header name no known format.
    InvalidImageType,
    /// A packet announces more pixels than the image has left.
    InvalidRleLength,
}

impl TgaError {
    /// A short description of the error.
    pub fn message(&self) -> (s: &'static str)
        ensures
            s@ == (match *self {
                TgaError::UnexpectedEof => "unexpected end of data"@,
                TgaError::InvalidImageType => "invalid image_type"@,
                TgaError::InvalidRleLength => "invalid rle length"@,
            }),
    {
        match *self {
            TgaError::UnexpectedEof => "unexpected end of data",
            TgaError::InvalidImageType => "invalid image_type",
            TgaError::InvalidRleLength => "invalid rle length",
        }
    }
}

/// The image type code of the header: 2 for colour, 3 for gray, and 8 more
/// where the pixels are in run-length packets.
pub open spec fn image_type(format: Format, rle: bool) -> u8 {
    match (format, rle) {
        (Format::Rgb, false) => 2,
        (Format::Rgba, false) => 2,
        (Format::Gray, false) => 3,
        (Format::Rgb, true) => 10,
        (Format::Rgba, true) => 10,
        (Format::Gray, true) => 11,
    }
}

/// The descriptor byte that is written: the number of alpha bits, and the
/// bit that says that the first row is the top row.
pub open spec fn descriptor(format: Format) -> u8 {
    match format {
        Format::Rgba => 0x28,
        _ => 0x20,
    }
}

/// The format and the compression that an image type code and a pixel
/// depth in bits name, if they name any.
pub open spec fn format_of(code: u8, bits: u8) -> Option<(Format, bool)> {
    if code == 2 && bits == 24 {
        Some((Format::Rgb, false))
    } else if code == 2 && bits == 32 {
        Some((Format::Rgba, false))
    } else if code == 3 && bits == 8 {
        Some((Format::Gray, false))
    } else if code == 10 && bits == 24 {
        Some((Format::Rgb, true))
    } else if code == 10 && bits == 32 {
        Some((Format::Rgba, true))
    } else if code == 11 && bits == 8 {
        Some((Format::Gray, true))
    } else {
        None
    }
}

/// The 18 bytes of the header: no image id, no colour map, the image type,
/// an origin of zero, then width and height as 16-bit numbers with the low
/// byte first, the pixel depth in bits and the descriptor. A width or height
/// of more than 16 bits loses its upper bits.
pub open spec fn header(format: Format, rle: bool, width: int, height: int) -> Seq<u8> {
    seq![
        0u8,
        0u8,
        image_type(format, rle),
        0u8,
        0u8,
        0u8,
        0u8,
        0u8,
        0u8,
        0u8,
        0u8,
        0u8,
        (width % 256) as u8,
        (width / 256 % 256) as u8,
        (height % 256) as u8,
        (height / 256 % 256) as u8,
        (format.spec_bytes_per_pixel() * 8) as u8,
        descriptor(format),
    ]
}

/// The 26 bytes of the footer: no extension area, no developer area, and
/// the signature `TRUEVISION-XFILE.` with a zero byte after it.
pub open spec fn footer() -> Seq<u8> {
    seq![
        0u8,
        0u8,
        0u8,
        0u8,
        0u8,
        0u8,
        0u8,
        0u8,
        84u8,
        82u8,
        85u8,
        69u8,
        86u8,
        73u8,
        83u8,
        73u8,
        79u8,
        78u8,
        45u8,
        88u8,
        70u8,
        73u8,
        76u8,
        69u8,
        46u8,
        0u8,
    ]
}

/// The pixels of `img` as they stand in a file.
pub open spec fn payload(img: ImageView, rle: bool) -> Seq<u8> {
    if rle {
        rle_encode(img.data, img.bpp(), img.data.len() as int / img.bpp(), 0)
    } else {
        img.data
    }
}

/// The bytes of the file that holds `img`.
pub open spec fn encoded(img: ImageView, rle: bool) -> Seq<u8> {
    header(img.format, rle, img.width as int, img.height as int) + payload(img, rle) + footer()
}

/// The image as it lies in memory, given how the file's descriptor byte
/// says it lies in the file.
pub open spec fn oriented(img: ImageView, descriptor: u8) -> ImageView {
    let upright = if descriptor & 0x10 != 0 {
        img.flip_horizontally()
    } else {
        img
    };
    if descriptor & 0x20 == 0 {
        upright.flip_vertically()
    } else {
        upright
    }
}

/// The image that the bytes of a file hold, or what is wrong with them.
/// Bytes after the pixels are not looked at.
pub open spec fn decoded(bytes: Seq<u8>) -> Result<ImageView, TgaError> {
    if bytes.len() < 18 {
        Err(TgaError::UnexpectedEof)
    } else {
        match format_of(bytes[2], bytes[16]) {
            None => Err(TgaError::InvalidImageType),
            Some((format, rle)) => {
                let width = bytes[12] + 256 * bytes[13];
                let height = bytes[14] + 256 * bytes[15];
                let bpp = format.spec_bytes_per_pixel() as int;
                let rest = bytes.subrange(18, bytes.len() as int);
                let data = if rle {
                    rle_decode(rest, bpp, width * height, 0, 0)
                } else if rest.len() < width * height * bpp {
                    Err(TgaError::UnexpectedEof)
                } else {
                    Ok(rest.subrange(0, width * height * bpp))
                };
                match data {
                    Err(e) => Err(e),
                    Ok(d) => Ok(
                        oriented(
                            ImageView { width: width as nat, height: height as nat, format, data: d },
                            bytes[17],
                        ),
                    ),
                }
            },
        }
    }
}

/// Appends the footer to `out`.
fn push_footer(out: &mut Vec<u8>)
    ensures
        final(out)@ == old(out)@ + footer(),
{
    let ghost before = out@;
    let mut i: usize = 0;
    while i < 8
        invariant
            i <= 8,
            out@ == before + footer().subrange(0, i as int),
        decreases 8 - i,
    {
        out.push(0);
        assert(out@ =~= before + footer().subrange(0, i + 1));
        i += 1;
    }
    out.push(84);
    out.push(82);
    out.push(85);
    out.push(69);
    out.push(86);
    out.push(73);
    out.push(83);
    out.push(73);
    out.push(79);
    out.push(78);
    out.push(45);
    out.push(88);
    out.push(70);
    out.push(73);
    out.push(76);
    out.push(69);
    out.push(46);
    out.push(0);
    assert(out@ =~= before + footer());
}

/// The bytes of the file that holds `image`: the header, the pixels, in
/// run-length packets if `rle` asks for them, and the footer. The first row
/// of the file is the top row.
pub fn write(image: &Image, rle: bool) -> (out: Vec<u8>)
    requires
        image@.wf(),
    ensures
        out@ == encoded(image@, rle),
{
    let format = image.get_format();
    let width = image.get_width();
    let height = image.get_height();
    let code: u8 = match (format, rle) {
        (Format::Rgb, false) => 2,
        (Format::Rgba, false) => 2,
        (Format::Gray, false) => 3,
        (Format::Rgb, true) => 10,
        (Format::Rgba, true) => 10,
        (Format::Gray, true) => 11,
    };
    let flags: u8 = match format {
        Format::Rgba => 0x28,
        _ => 0x20,
    };
    let mut out: Vec<u8> = Vec::new();
    out.push(0);
    out.push(0);
    out.push(code);
    out.push(0);
    out.push(0);
    out.push(0);
    out.push(0);
    out.push(0);
    out.push(0);
    out.push(0);
    out.push(0);
    out.push(0);
    out.push((width % 256) as u8);
    out.push((width / 256 % 256) as u8);
    out.push((height % 256) as u8);
    out.push((height / 256 % 256) as u8);
    out.push((format.bytes_per_pixel() * 8) as u8);
    out.push(flags);
    assert(out@ =~= header(format, rle, width as int, height as int));
    if rle {
        let mut packets = write_rle(image.get_data(), format);
        out.append(&mut packets);
    } else {
        let data = image.get_data();
        let mut i: usize = 0;
        let ghost head = out@;
        while i < data.len()
            invariant
                i <= data@.len(),
                out@ == head + data@.subrange(0, i as int),
            decreases data@.len() - i,
        {
            out.push(data[i]);
            assert(out@ =~= head + data@.subrange(0, i + 1));
            i += 1;
        }
        assert(data@.subrange(0, data@.len() as int) =~= data@);
    }
    push_footer(&mut out);
    out
}

/// The image that the bytes of a file hold. Fails where the bytes end
/// before the header or the pixels are complete, where the header names no
/// known format, and where a run-length packet announces more pixels than
/// the image has left.
pub fn read(bytes: &[u8]) -> (r: Result<Image, TgaError>)
    ensures
        match decoded(bytes@) {
            Ok(v) => r is Ok && r->Ok_0@ == v && v.wf(),
            Err(e) => r is Err && r->Err_0 == e,
        },
{
    if bytes.len() < 18 {
        return Err(TgaError::UnexpectedEof);
    }
    let width: usize = bytes[12] as usize + 256 * (bytes[13] as usize);
    let height: usize = bytes[14] as usize + 256 * (bytes[15] as usize);
    let code = bytes[2];
    let bits = bytes[16];
    let (format, rle) = if code == 2 && bits == 24 {
        (Format::Rgb, false)
    } else if code == 2 && bits == 32 {
        (Format::Rgba, false)
    } else if code == 3 && bits == 8 {
        (Format::Gray, false)
    } else if code == 10 && bits == 24 {
        (Format::Rgb, true)
    } else if code == 10 && bits == 32 {
        (Format::Rgba, true)
    } else if code == 11 && bits == 8 {
        (Format::Gray, true)
    } else {
        return Err(TgaError::InvalidImageType);
    };
    let bytes_per_pixel = format.bytes_per_pixel();
    assert(width * height <= 0xffff * 0xffff) by (nonlinear_arith)
        requires
            width <= 0xffff,
            height <= 0xffff,
    ;
    let num_pixels: usize = width * height;
    let rest = slice_subrange(bytes, 18, bytes.len());
    let data = if rle {
        proof {
            lemma_decode_len(rest@, bytes_per_pixel as int, num_pixels as int, 0, 0);
        }
        match read_rle(rest, num_pixels, format) {
            Ok(d) => d,
            Err(e) => {
                return Err(e);
            },
        }
    } else {
        assert(num_pixels * bytes_per_pixel <= 0xffff * 0xffff * 4) by (nonlinear_arith)
            requires
                num_pixels <= 0xffff * 0xffff,
                bytes_per_pixel <= 4,
        ;
        let wanted: u64 = num_pixels as u64 * bytes_per_pixel as u64;
        if (rest.len() as u64) < wanted {
            return Err(TgaError::UnexpectedEof);
        }
        slice_to_vec(slice_subrange(rest, 0, wanted as usize))
    };
    let mut image = Image::from_data(width, height, format, data);
    if bytes[17] & 0x10 != 0 {
        image.flip_horizontally();
    }
    if bytes[17] & 0x20 == 0 {
        image.flip_vertically();
    }
    Ok(image)
}

/// Reading what was written gives the image back: for every image whose
/// width and height fit in 16 bits, with or without run-length packets, the
/// bytes that `write` returns are bytes from which `read` returns the same
/// size, format and pixels.
pub proof fn lemma_read_write(img: ImageView, rle: bool)
    requires
        img.wf(),
        img.width <= 0xffff,
        img.height <= 0xffff,
    ensures
        decoded(encoded(img, rle)) == Ok::<ImageView, TgaError>(img),
{
    let bytes = encoded(img, rle);
    let head = header(img.format, rle, img.width as int, img.height as int);
    let body = payload(img, rle);
    let w = img.width as int;
    let h = img.height as int;
    let bpp = img.bpp();
    assert(head.len() == 18);
    assert(forall|i: int| 0 <= i < 18 ==> bytes[i] == head[i]);
    assert(bytes[2] == image_type(img.format, rle));
    assert(bytes[16] == (img.format.spec_bytes_per_pixel() * 8) as u8);
    assert(format_of(bytes[2], bytes[16]) == Some((img.format, rle)));
    assert(bytes[12] + 256 * bytes[13] == w);
    assert(bytes[14] + 256 * bytes[15] == h);
    let rest = bytes.subrange(18, bytes.len() as int);
    assert(rest =~= body + footer());
    let n = w * h;
    assert(0 <= n) by (nonlinear_arith)
        requires
            0 <= w,
            0 <= h,
            n == w * h,
    ;
    assert(img.data.len() == n * bpp);
    if rle {
        lemma_fundamental_div_mod_converse(img.data.len() as int, bpp, n, 0);
        assert(rest.subrange(0, body.len() as int) =~= body);
        lemma_decode_encode(rest, img.data, bpp, n, 0, 0);
        assert(0 * bpp == 0) by (nonlinear_arith);
        assert(img.data.subrange(0, n * bpp) =~= img.data);
    } else {
        assert(rest.subrange(0, n * bpp) =~= img.data);
    }
    let flags = descriptor(img.format);
    assert(bytes[17] == flags);
    assert(0x20u8 & 0x10 == 0 && 0x20u8 & 0x20 != 0 && 0x28u8 & 0x10 == 0 && 0x28u8 & 0x20 != 0)
        by (bit_vector);
    assert(oriented(img, flags) == img);
}

} // verus!
