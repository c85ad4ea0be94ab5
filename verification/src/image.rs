//! Colours, pixel formats and the packed pixel buffer.

use vstd::prelude::*;

verus! {

/// A colour of four 8-bit channels, laid out in blue-green-red-alpha order.
#[derive(Clone, Copy, Debug, PartialEq, Eq, Structural)]
pub struct Color {
    pub b: u8,
    pub g: u8,
    pub r: u8,
    pub a: u8,
}

/// The byte at position `i` of `buf`, or zero past its end.
pub open spec fn lane(buf: Seq<u8>, i: int) -> u8 {
    if 0 <= i < buf.len() {
        buf[i]
    } else {
        0
    }
}

impl Color {
    /// Opaque black, the colour read outside an image.
    pub open spec fn opaque_black() -> Color {
        Color { b: 0, g: 0, r: 0, a: 255 }
    }

    /// The channel stored at byte `i` of a pixel: blue, green, red, alpha.
    pub open spec fn channel(self, i: int) -> u8 {
        if i == 0 {
            self.b
        } else if i == 1 {
            self.g
        } else if i == 2 {
            self.r
        } else {
            self.a
        }
    }

    /// The colour that the leading bytes of `buf` hold. A channel for which
    /// `buf` has no byte reads as zero.
    pub open spec fn from_bytes(buf: Seq<u8>) -> Color {
        Color { b: lane(buf, 0), g: lane(buf, 1), r: lane(buf, 2), a: lane(buf, 3) }
    }

    /// The first `n` channels, as they lie in a pixel of `n` bytes.
    pub open spec fn bytes(self, n: int) -> Seq<u8> {
        Seq::new(n as nat, |i: int| self.channel(i))
    }

    /// `data` after this colour's channels were written over the `n` bytes
    /// that start at `off`. Only the channels that fit are written.
    pub open spec fn store_at(self, data: Seq<u8>, off: int, n: int) -> Seq<u8> {
        Seq::new(
            data.len(),
            |i: int|
                if off <= i < off + n && i - off < 4 {
                    self.channel(i - off)
                } else {
                    data[i]
                },
        )
    }

    /// The colour of the given red, green, blue and alpha.
    pub fn new(r: u8, g: u8, b: u8, a: u8) -> (c: Color)
        ensures
            c == (Color { b, g, r, a }),
    {
        Color { b, g, r, a }
    }

    /// Reads a colour from the bytes of one pixel.
    pub fn from_u8(buf: &[u8]) -> (c: Color)
        ensures
            c == Color::from_bytes(buf@),
    {
        let n = buf.len();
        Color {
            b: if n >= 1 { buf[0] } else { 0 },
            g: if n >= 2 { buf[1] } else { 0 },
            r: if n >= 3 { buf[2] } else { 0 },
            a: if n >= 4 { buf[3] } else { 0 },
        }
    }

    /// Writes this colour over the bytes of one pixel.
    pub fn to_u8(&self, buf: &mut [u8])
        ensures
            final(buf)@ == self.store_at(old(buf)@, 0, old(buf)@.len() as int),
    {
        let n = buf.len();
        if n >= 1 {
            buf[0] = self.b;
        }
        if n >= 2 {
            buf[1] = self.g;
        }
        if n >= 3 {
            buf[2] = self.r;
        }
        if n >= 4 {
            buf[3] = self.a;
        }
    }
}

impl Default for Color {
    /// Transparent black.
    fn default() -> (c: Color)
        ensures
            c == (Color { b: 0, g: 0, r: 0, a: 0 }),
    {
        Color { b: 0, g: 0, r: 0, a: 0 }
    }
}

/// How many bytes a pixel takes and which channels they hold.
#[derive(Clone, Copy, Debug, PartialEq, Eq, Structural)]
pub enum Format {
    Gray,
    Rgb,
    Rgba,
}

impl Format {
    /// How many bytes a pixel takes.
    pub open spec fn spec_bytes_per_pixel(&self) -> usize {
        match *self {
            Format::Gray => 1,
            Format::Rgb => 3,
            Format::Rgba => 4,
        }
    }

    /// How many of a pixel's bytes hold alpha.
    pub open spec fn spec_alpha_bytes_per_pixel(&self) -> usize {
        match *self {
            Format::Gray => 0,
            Format::Rgb => 0,
            Format::Rgba => 1,
        }
    }

    /// How many bytes a pixel takes.
    #[verifier::when_used_as_spec(spec_bytes_per_pixel)]
    pub fn bytes_per_pixel(&self) -> (n: usize)
        ensures
            n == self.spec_bytes_per_pixel(),
    {
        match *self {
            Format::Gray => 1,
            Format::Rgb => 3,
            Format::Rgba => 4,
        }
    }

    /// How many of a pixel's bytes hold alpha.
    #[verifier::when_used_as_spec(spec_alpha_bytes_per_pixel)]
    pub fn alpha_bytes_per_pixel(&self) -> (n: usize)
        ensures
            n == self.spec_alpha_bytes_per_pixel(),
    {
        match *self {
            Format::Gray => 0,
            Format::Rgb => 0,
            Format::Rgba => 1,
        }
    }
}

/// The mathematical content of an [`Image`]: its size, its format and its
/// bytes, row after row.
pub struct ImageView {
    pub width: nat,
    pub height: nat,
    pub format: Format,
    pub data: Seq<u8>,
}

impl ImageView {
    /// Bytes per pixel.
    pub open spec fn bpp(self) -> int {
        self.format.spec_bytes_per_pixel() as int
    }

    /// Bytes per row.
    pub open spec fn stride(self) -> int {
        self.width * self.bpp()
    }

    /// The buffer holds exactly `width * height` pixels.
    pub open spec fn wf(self) -> bool {
        self.data.len() == self.width * self.height * self.bpp()
    }

    /// `(x, y)` names a pixel of the image.
    pub open spec fn contains(self, x: int, y: int) -> bool {
        0 <= x < self.width && 0 <= y < self.height
    }

    /// Where the bytes of pixel `(x, y)` start.
    pub open spec fn offset(self, x: int, y: int) -> int {
        (x + y * self.width) * self.bpp()
    }

    /// The bytes of pixel `(x, y)`.
    pub open spec fn pixel_bytes(self, x: int, y: int) -> Seq<u8> {
        self.data.subrange(self.offset(x, y), self.offset(x, y) + self.bpp())
    }

    /// The colour at `(x, y)`; opaque black outside the image.
    pub open spec fn get(self, x: int, y: int) -> Color {
        if self.contains(x, y) {
            Color::from_bytes(self.pixel_bytes(x, y))
        } else {
            Color::opaque_black()
        }
    }

    /// The column of the pixel that byte `i` of the buffer belongs to.
    pub open spec fn byte_x(self, i: int) -> int {
        (i / self.bpp()) % (self.width as int)
    }

    /// The row of the pixel that byte `i` of the buffer belongs to.
    pub open spec fn byte_y(self, i: int) -> int {
        (i / self.bpp()) / (self.width as int)
    }

    /// The position of byte `i` of the buffer inside its pixel.
    pub open spec fn byte_lane(self, i: int) -> int {
        i % self.bpp()
    }

    /// The image mirrored left to right: pixel `(x, y)` holds what
    /// `(width - 1 - x, y)` held.
    pub open spec fn flip_horizontally(self) -> ImageView {
        ImageView {
            data: Seq::new(
                self.data.len(),
                |i: int|
                    self.data[self.offset(self.width - 1 - self.byte_x(i), self.byte_y(i))
                        + self.byte_lane(i)],
            ),
            ..self
        }
    }

    /// The image mirrored top to bottom: row `y` holds what row
    /// `height - 1 - y` held.
    pub open spec fn flip_vertically(self) -> ImageView {
        ImageView {
            data: Seq::new(
                self.data.len(),
                |i: int|
                    self.data[(self.height - 1 - i / self.stride()) * self.stride() + i
                        % self.stride()],
            ),
            ..self
        }
    }

    /// The image after `c` was written at `(x, y)`; unchanged outside the
    /// image.
    pub open spec fn set(self, x: int, y: int, c: Color) -> ImageView {
        if self.contains(x, y) {
            ImageView { data: c.store_at(self.data, self.offset(x, y), self.bpp()), ..self }
        } else {
            self
        }
    }

    /// `other` has the size and format of this image, and a buffer that
    /// fits them.
    pub open spec fn same_shape(self, other: ImageView) -> bool {
        other.wf() && other.width == self.width && other.height == self.height && other.format
            == self.format
    }

    /// The bytes of a pixel inside the image lie inside the buffer.
    pub proof fn lemma_offset_bounds(self, x: int, y: int)
        requires
            self.wf(),
            self.contains(x, y),
        ensures
            0 <= y * self.width,
            0 <= x + y * self.width < self.width * self.height,
            x + y * self.width <= self.offset(x, y),
            self.offset(x, y) + self.bpp() <= self.data.len(),
    {
        let w = self.width as int;
        let h = self.height as int;
        let n = self.bpp();
        assert(0 <= y * w && y * w + w <= h * w) by (nonlinear_arith)
            requires
                0 <= y < h,
                0 <= w,
        ;
        assert(h * w == w * h) by (nonlinear_arith);
        let p = x + y * w;
        assert(p <= p * n && p * n + n <= (w * h) * n) by (nonlinear_arith)
            requires
                0 <= p < w * h,
                1 <= n,
        ;
    }
}

/// While columns are being swapped: the column whose bytes pixel `(x, y)`
/// holds once the `i` outermost column pairs, and rows above `j` of the next
/// pair, have been exchanged.
spec fn hflip_source(w: int, i: int, j: int, x: int, y: int) -> int {
    if x < i || x > w - 1 - i || ((x == i || x == w - 1 - i) && y < j) {
        w - 1 - x
    } else {
        x
    }
}

/// While rows are being swapped: the byte of the buffer at the start that byte
/// `i` holds once the `j` outermost row pairs, and the first `k` bytes of the
/// next pair, have been exchanged.
spec fn vflip_source(v: ImageView, j: int, k: int, i: int) -> int {
    let s = v.stride();
    let r = i / s;
    let c = i % s;
    if r < j || r > v.height - 1 - j || ((r == j || r == v.height - 1 - j) && c < k) {
        (v.height - 1 - r) * s + c
    } else {
        i
    }
}

/// A raster image: a flat byte buffer of `width * height` pixels in one
/// [`Format`], row after row.
pub struct Image {
    data: Vec<u8>,
    width: usize,
    height: usize,
    format: Format,
}

impl View for Image {
    type V = ImageView;

    closed spec fn view(&self) -> ImageView {
        ImageView {
            width: self.width as nat,
            height: self.height as nat,
            format: self.format,
            data: self.data@,
        }
    }
}

impl Image {
    /// A zero-filled image.
    pub fn new(width: usize, height: usize, format: Format) -> (img: Image)
        requires
            width * height * format.spec_bytes_per_pixel() <= usize::MAX,
        ensures
            img@.wf(),
            img@.width == width,
            img@.height == height,
            img@.format == format,
            img@.data == Seq::new((width * height * format.spec_bytes_per_pixel()) as nat, |i: int| 0u8),
    {
        let bpp = format.bytes_per_pixel();
        assert(width * height <= width * height * bpp) by (nonlinear_arith)
            requires
                1 <= bpp,
        ;
        let nbytes = width * height * bpp;
        let data = vec![0u8; nbytes];
        Image { data, width, height, format }
    }

    /// An image over a buffer that the caller supplies.
    pub fn from_data(width: usize, height: usize, format: Format, data: Vec<u8>) -> (img: Image)
        requires
            data@.len() == width * height * format.spec_bytes_per_pixel(),
        ensures
            img@ == (ImageView { width: width as nat, height: height as nat, format, data: data@ }),
            img@.wf(),
    {
        Image { data, width, height, format }
    }

    /// The bytes of the image, row after row.
    pub fn get_data(&self) -> (data: &Vec<u8>)
        ensures
            data@ == self@.data,
    {
        &self.data
    }

    /// The number of pixels in a row.
    pub fn get_width(&self) -> (w: usize)
        ensures
            w == self@.width,
    {
        self.width
    }

    /// The number of rows.
    pub fn get_height(&self) -> (h: usize)
        ensures
            h == self@.height,
    {
        self.height
    }

    /// The format of the pixels.
    pub fn get_format(&self) -> (f: Format)
        ensures
            f == self@.format,
    {
        self.format
    }

    /// The colour at `(x, y)`, or opaque black outside the image.
    pub fn get(&self, x: usize, y: usize) -> (c: Color)
        requires
            self@.wf(),
        ensures
            c == self@.get(x as int, y as int),
            !self@.contains(x as int, y as int) ==> c == Color::opaque_black(),
    {
        if x < self.width && y < self.height {
            let bytes_per_pixel = self.format.bytes_per_pixel();
            proof {
                self@.lemma_offset_bounds(x as int, y as int);
                assert(self.data@.len() == self.data.len());
            }
            let offset = (x + y * self.width) * bytes_per_pixel;
            Color::from_u8(
                vstd::slice::slice_subrange(self.data.as_slice(), offset, offset + bytes_per_pixel),
            )
        } else {
            Color::new(0, 0, 0, 255)
        }
    }

    /// Writes `color` at `(x, y)`; does nothing outside the image.
    pub fn set(&mut self, x: usize, y: usize, color: &Color)
        requires
            old(self)@.wf(),
        ensures
            final(self)@ == old(self)@.set(x as int, y as int, *color),
            old(self)@.same_shape(final(self)@),
            !old(self)@.contains(x as int, y as int) ==> final(self)@ == old(self)@,
    {
        if x < self.width && y < self.height {
            let bytes_per_pixel = self.format.bytes_per_pixel();
            proof {
                self@.lemma_offset_bounds(x as int, y as int);
                assert(self.data@.len() == self.data.len());
            }
            let offset = (x + y * self.width) * bytes_per_pixel;
            let ghost before = self.data@;
            let (_, tail) = self.data.as_mut_slice().split_at_mut(offset);
            let (pixel, _) = tail.split_at_mut(bytes_per_pixel);
            color.to_u8(pixel);
            assert(self.data@ =~= color.store_at(before, offset as int, bytes_per_pixel as int));
        }
    }
    /// Mirrors the image left to right, column by column.
    pub fn flip_horizontally(&mut self)
        requires
            old(self)@.wf(),
        ensures
            final(self)@ == old(self)@.flip_horizontally(),
            old(self)@.same_shape(final(self)@),
    {
        let width = self.width;
        let height = self.height;
        let ghost orig = self@;
        let mut i: usize = 0;
        while i < width / 2
            invariant
                orig.wf(),
                self@.wf(),
                self@.width == orig.width,
                self@.height == orig.height,
                self@.format == orig.format,
                width == orig.width,
                height == orig.height,
                i <= width / 2,
                forall|x: int, y: int|
                    orig.contains(x, y) ==> #[trigger] self@.pixel_bytes(x, y) == orig.pixel_bytes(
                        hflip_source(width as int, i as int, 0, x, y),
                        y,
                    ),
            decreases width / 2 - i,
        {
            let mut j: usize = 0;
            while j < height
                invariant
                    orig.wf(),
                    self@.wf(),
                    self@.width == orig.width,
                    self@.height == orig.height,
                    self@.format == orig.format,
                    width == orig.width,
                    height == orig.height,
                    i < width / 2,
                    j <= height,
                    forall|x: int, y: int|
                        orig.contains(x, y) ==> #[trigger] self@.pixel_bytes(x, y)
                            == orig.pixel_bytes(
                            hflip_source(width as int, i as int, j as int, x, y),
                            y,
                        ),
                decreases height - j,
            {
                let c1 = self.get(i, j);
                let c2 = self.get(width - 1 - i, j);
                let ghost before = self@;
                self.set(i, j, &c2);
                let ghost mid = self@;
                self.set(width - 1 - i, j, &c1);
                proof {
                    let far = width - 1 - i;
                    before.lemma_get_bytes(i as int, j as int);
                    before.lemma_get_bytes(far, j as int);
                    assert forall|x: int, y: int| orig.contains(x, y) implies #[trigger] self@.pixel_bytes(
                        x,
                        y,
                    ) == orig.pixel_bytes(
                        hflip_source(width as int, i as int, j + 1, x, y),
                        y,
                    ) by {
                        if x == far && y == j {
                            mid.lemma_set_same(x, y, c1);
                        } else {
                            mid.lemma_set_other(far, j as int, c1, x, y);
                            if x == i && y == j {
                                before.lemma_set_same(x, y, c2);
                            } else {
                                before.lemma_set_other(i as int, j as int, c2, x, y);
                            }
                        }
                    }
                }
                j += 1;
            }
            i += 1;
        }
        proof {
            let flipped = orig.flip_horizontally();
            assert forall|x: int, y: int| self@.contains(x, y) implies #[trigger] self@.pixel_bytes(
                x,
                y,
            ) == flipped.pixel_bytes(x, y) by {
                orig.lemma_flip_horizontally_pixel(x, y);
            }
            self@.lemma_equal_by_pixels(flipped);
        }
    }

    /// Mirrors the image top to bottom, scanline by scanline.
    pub fn flip_vertically(&mut self)
        requires
            old(self)@.wf(),
        ensures
            final(self)@ == old(self)@.flip_vertically(),
            old(self)@.same_shape(final(self)@),
    {
        let height = self.height;
        let half = height / 2;
        let ghost orig = self@;
        if half == 0 {
            proof {
                assert forall|i: int| 0 <= i < orig.data.len() implies orig.flip_vertically().data[i]
                    == orig.data[i] by {
                    orig.lemma_byte_row(i);
                }
                assert(orig.flip_vertically().data =~= orig.data);
            }
            return ;
        }
        proof {
            let w = self.width as int;
            let h = height as int;
            let n = orig.bpp();
            assert(w * n <= w * h * n) by (nonlinear_arith)
                requires
                    0 <= w,
                    1 <= h,
                    1 <= n,
            ;
            assert(self.data@.len() == self.data.len());
            assert forall|i: int| 0 <= i < orig.data.len() implies vflip_source(orig, 0, 0, i)
                == i by {
                orig.lemma_byte_row(i);
            }
        }
        let bytes_per_line = self.width * self.format.bytes_per_pixel();
        let mut j: usize = 0;
        while j < half
            invariant
                orig.wf(),
                self@.width == orig.width,
                self@.height == orig.height,
                self@.format == orig.format,
                self.data@.len() == orig.data.len(),
                height == orig.height,
                half == height / 2,
                bytes_per_line == orig.stride(),
                j <= half,
                forall|i: int|
                    0 <= i < orig.data.len() ==> #[trigger] self.data@[i] == orig.data[vflip_source(
                        orig,
                        j as int,
                        0,
                        i,
                    )],
            decreases half - j,
        {
            let mut k: usize = 0;
            while k < bytes_per_line
                invariant
                    orig.wf(),
                    self@.width == orig.width,
                    self@.height == orig.height,
                    self@.format == orig.format,
                    self.data@.len() == orig.data.len(),
                    height == orig.height,
                    half == height / 2,
                    bytes_per_line == orig.stride(),
                    j < half,
                    k <= bytes_per_line,
                    forall|i: int|
                        0 <= i < orig.data.len() ==> #[trigger] self.data@[i]
                            == orig.data[vflip_source(orig, j as int, k as int, i)],
                decreases bytes_per_line - k,
            {
                proof {
                    orig.lemma_row_coords(j as int, k as int);
                    orig.lemma_row_coords(height - 1 - j, k as int);
                    assert(self.data@.len() == self.data.len());
                }
                let upper = j * bytes_per_line + k;
                let lower = (height - 1 - j) * bytes_per_line + k;
                let ghost before = self.data@;
                let t = self.data[upper];
                let u = self.data[lower];
                self.data[upper] = u;
                self.data[lower] = t;
                proof {
                    assert forall|i: int| 0 <= i < orig.data.len() implies #[trigger] self.data@[i]
                        == orig.data[vflip_source(orig, j as int, k + 1, i)] by {
                        orig.lemma_byte_row(i);
                        assert(before[i] == orig.data[vflip_source(orig, j as int, k as int, i)]);
                    }
                }
                k += 1;
            }
            proof {
                assert forall|i: int| 0 <= i < orig.data.len() implies #[trigger] self.data@[i]
                    == orig.data[vflip_source(orig, j + 1, 0, i)] by {
                    orig.lemma_byte_row(i);
                }
            }
            j += 1;
        }
        proof {
            assert forall|i: int| 0 <= i < orig.data.len() implies self.data@[i]
                == orig.flip_vertically().data[i] by {
                orig.lemma_byte_row(i);
            }
            assert(self.data@ =~= orig.flip_vertically().data);
        }
    }
}

} // verus!
