//! Facts about the layout of pixels in an image's buffer, and the laws of
//! reading, writing and mirroring that follow from them.

use crate::image::{Color, ImageView};
use vstd::arithmetic::div_mod::{
    lemma_fundamental_div_mod, lemma_fundamental_div_mod_converse, lemma_mod_bound,
};
use vstd::prelude::*;

verus! {

impl Color {
    /// A colour read from a pixel of at most four bytes writes back the
    /// same bytes.
    pub proof fn lemma_bytes_of_from_bytes(buf: Seq<u8>)
        requires
            buf.len() <= 4,
        ensures
            Color::from_bytes(buf).bytes(buf.len() as int) == buf,
    {
        assert(Color::from_bytes(buf).bytes(buf.len() as int) =~= buf);
    }
}

impl ImageView {
    /// Every byte of the buffer belongs to one channel of one pixel.
    pub proof fn lemma_byte_coords(self, i: int)
        requires
            self.wf(),
            0 <= i < self.data.len(),
        ensures
            self.contains(self.byte_x(i), self.byte_y(i)),
            0 <= self.byte_lane(i) < self.bpp(),
            i == self.offset(self.byte_x(i), self.byte_y(i)) + self.byte_lane(i),
    {
        let n = self.bpp();
        let w = self.width as int;
        let h = self.height as int;
        let p = i / n;
        let c = i % n;
        lemma_fundamental_div_mod(i, n);
        lemma_mod_bound(i, n);
        assert(0 <= p < w * h && 0 < w) by (nonlinear_arith)
            requires
                i == n * p + c,
                0 <= c < n,
                0 <= i < w * h * n,
                0 <= w,
                0 <= h,
        ;
        let y = p / w;
        let x = p % w;
        lemma_fundamental_div_mod(p, w);
        lemma_mod_bound(p, w);
        assert(0 <= y < h) by (nonlinear_arith)
            requires
                p == w * y + x,
                0 <= x < w,
                0 <= p < w * h,
        ;
        assert((x + y * w) * n + c == i) by (nonlinear_arith)
            requires
                p == w * y + x,
                i == n * p + c,
        ;
    }

    /// The byte of channel `c` of pixel `(x, y)` belongs to that pixel and
    /// that channel.
    pub proof fn lemma_coords_of_byte(self, x: int, y: int, c: int)
        requires
            self.wf(),
            self.contains(x, y),
            0 <= c < self.bpp(),
        ensures
            0 <= self.offset(x, y) + c < self.data.len(),
            self.byte_x(self.offset(x, y) + c) == x,
            self.byte_y(self.offset(x, y) + c) == y,
            self.byte_lane(self.offset(x, y) + c) == c,
    {
        let n = self.bpp();
        let w = self.width as int;
        let p = x + y * w;
        self.lemma_offset_bounds(x, y);
        lemma_fundamental_div_mod_converse(p * n + c, n, p, c);
        lemma_fundamental_div_mod_converse(p, w, y, x);
    }

    /// Distinct pixels occupy disjoint bytes.
    pub proof fn lemma_pixels_disjoint(self, x: int, y: int, x2: int, y2: int)
        requires
            self.wf(),
            self.contains(x, y),
            self.contains(x2, y2),
            x != x2 || y != y2,
        ensures
            self.offset(x, y) + self.bpp() <= self.offset(x2, y2) || self.offset(x2, y2)
                + self.bpp() <= self.offset(x, y),
    {
        let n = self.bpp();
        let w = self.width as int;
        let p = x + y * w;
        let p2 = x2 + y2 * w;
        assert(p != p2) by (nonlinear_arith)
            requires
                p == x + y * w,
                p2 == x2 + y2 * w,
                0 <= x < w,
                0 <= x2 < w,
                x != x2 || y != y2,
        ;
        assert(p * n + n <= p2 * n || p2 * n + n <= p * n) by (nonlinear_arith)
            requires
                p != p2,
                1 <= n,
        ;
    }

    /// Writing a pixel stores the colour's leading channels in it.
    pub proof fn lemma_set_same(self, x: int, y: int, c: Color)
        requires
            self.wf(),
            self.contains(x, y),
        ensures
            self.set(x, y, c).pixel_bytes(x, y) == c.bytes(self.bpp()),
    {
        self.lemma_offset_bounds(x, y);
        assert(self.set(x, y, c).pixel_bytes(x, y) =~= c.bytes(self.bpp()));
    }

    /// Writing a pixel leaves every other pixel as it was.
    pub proof fn lemma_set_other(self, x: int, y: int, c: Color, x2: int, y2: int)
        requires
            self.wf(),
            self.contains(x2, y2),
            x != x2 || y != y2,
        ensures
            self.set(x, y, c).pixel_bytes(x2, y2) == self.pixel_bytes(x2, y2),
    {
        if self.contains(x, y) {
            self.lemma_offset_bounds(x, y);
            self.lemma_offset_bounds(x2, y2);
            self.lemma_pixels_disjoint(x, y, x2, y2);
            assert(self.set(x, y, c).pixel_bytes(x2, y2) =~= self.pixel_bytes(x2, y2));
        }
    }

    /// The colour read from a pixel has the pixel's bytes as its leading
    /// channels.
    pub proof fn lemma_get_bytes(self, x: int, y: int)
        requires
            self.wf(),
            self.contains(x, y),
        ensures
            self.get(x, y).bytes(self.bpp()) == self.pixel_bytes(x, y),
    {
        self.lemma_offset_bounds(x, y);
        Color::lemma_bytes_of_from_bytes(self.pixel_bytes(x, y));
    }

    /// What is written at a pixel is read back from it, as far as the format
    /// has bytes for it, and every other pixel reads as before.
    pub proof fn lemma_get_set(self, x: int, y: int, c: Color, x2: int, y2: int)
        requires
            self.wf(),
        ensures
            self.set(x, y, c).get(x2, y2) == (if x2 == x && y2 == y && self.contains(x, y) {
                Color::from_bytes(c.bytes(self.bpp()))
            } else {
                self.get(x2, y2)
            }),
    {
        if self.contains(x2, y2) {
            if x2 == x && y2 == y {
                self.lemma_set_same(x, y, c);
            } else {
                self.lemma_set_other(x, y, c, x2, y2);
            }
        }
    }

    /// Two images of one size and format that agree pixel by pixel are the
    /// same image.
    pub proof fn lemma_equal_by_pixels(self, other: ImageView)
        requires
            self.wf(),
            other.wf(),
            self.width == other.width,
            self.height == other.height,
            self.format == other.format,
            forall|x: int, y: int|
                self.contains(x, y) ==> #[trigger] self.pixel_bytes(x, y) == other.pixel_bytes(
                    x,
                    y,
                ),
        ensures
            self == other,
    {
        assert forall|i: int| 0 <= i < self.data.len() implies self.data[i] == other.data[i] by {
            self.lemma_byte_coords(i);
            let x = self.byte_x(i);
            let y = self.byte_y(i);
            let c = self.byte_lane(i);
            self.lemma_offset_bounds(x, y);
            other.lemma_offset_bounds(x, y);
            assert(self.pixel_bytes(x, y)[c] == self.data[i]);
            assert(other.pixel_bytes(x, y)[c] == other.data[i]);
        }
        assert(self.data =~= other.data);
    }

    /// In the mirrored image, pixel `(x, y)` holds the bytes that
    /// `(width - 1 - x, y)` held.
    pub proof fn lemma_flip_horizontally_pixel(self, x: int, y: int)
        requires
            self.wf(),
            self.contains(x, y),
        ensures
            self.flip_horizontally().wf(),
            self.flip_horizontally().pixel_bytes(x, y) == self.pixel_bytes(self.width - 1 - x, y),
    {
        let f = self.flip_horizontally();
        let n = self.bpp();
        self.lemma_offset_bounds(x, y);
        self.lemma_offset_bounds(self.width - 1 - x, y);
        assert forall|c: int| 0 <= c < n implies f.pixel_bytes(x, y)[c] == self.pixel_bytes(
            self.width - 1 - x,
            y,
        )[c] by {
            self.lemma_coords_of_byte(x, y, c);
        }
        assert(f.pixel_bytes(x, y) =~= self.pixel_bytes(self.width - 1 - x, y));
    }

    /// Mirroring an image left to right twice gives the image back.
    pub proof fn lemma_flip_horizontally_twice(self)
        requires
            self.wf(),
        ensures
            self.flip_horizontally().flip_horizontally() == self,
    {
        let f = self.flip_horizontally();
        let ff = f.flip_horizontally();
        assert forall|x: int, y: int| ff.contains(x, y) implies #[trigger] ff.pixel_bytes(x, y)
            == self.pixel_bytes(x, y) by {
            f.lemma_flip_horizontally_pixel(x, y);
            self.lemma_flip_horizontally_pixel(self.width - 1 - x, y);
        }
        ff.lemma_equal_by_pixels(self);
    }

    /// Row `r`, column byte `k` of the buffer is byte `r * stride + k`.
    pub proof fn lemma_row_coords(self, r: int, k: int)
        requires
            self.wf(),
            0 <= r < self.height,
            0 <= k < self.stride(),
        ensures
            0 <= r * self.stride() + k < self.data.len(),
            (r * self.stride() + k) / self.stride() == r,
            (r * self.stride() + k) % self.stride() == k,
    {
        let s = self.stride();
        let h = self.height as int;
        let w = self.width as int;
        let n = self.bpp();
        lemma_fundamental_div_mod_converse(r * s + k, s, r, k);
        assert(0 <= r * s && r * s + s <= h * s) by (nonlinear_arith)
            requires
                0 <= r < h,
                0 <= s,
        ;
        assert(h * s == w * h * n) by (nonlinear_arith)
            requires
                s == w * n,
        ;
    }

    /// Every byte of the buffer lies in one row, at one column byte.
    pub proof fn lemma_byte_row(self, i: int)
        requires
            self.wf(),
            0 <= i < self.data.len(),
        ensures
            0 < self.stride(),
            0 <= i / self.stride() < self.height,
            0 <= i % self.stride() < self.stride(),
            i == (i / self.stride()) * self.stride() + i % self.stride(),
    {
        let s = self.stride();
        let h = self.height as int;
        let w = self.width as int;
        let n = self.bpp();
        assert(0 < s && h * s == w * h * n) by (nonlinear_arith)
            requires
                s == w * n,
                0 < w * h * n,
                0 <= w,
                0 <= h,
                1 <= n,
        ;
        lemma_fundamental_div_mod(i, s);
        lemma_mod_bound(i, s);
        let r = i / s;
        let k = i % s;
        assert(0 <= r < h && i == r * s + k) by (nonlinear_arith)
            requires
                i == s * r + k,
                0 <= k < s,
                0 <= i < h * s,
        ;
    }

    /// Mirroring an image top to bottom twice gives the image back.
    pub proof fn lemma_flip_vertically_twice(self)
        requires
            self.wf(),
        ensures
            self.flip_vertically().flip_vertically() == self,
    {
        let f = self.flip_vertically();
        let ff = f.flip_vertically();
        let s = self.stride();
        let h = self.height as int;
        assert forall|i: int| 0 <= i < self.data.len() implies ff.data[i] == self.data[i] by {
            self.lemma_byte_row(i);
            let r = i / s;
            let k = i % s;
            self.lemma_row_coords(h - 1 - r, k);
            assert(h - 1 - (h - 1 - r) == r);
        }
        assert(ff.data =~= self.data);
    }
}

} // verus!
