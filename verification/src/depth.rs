//! The depth buffer: for every pixel the depth of the nearest surface drawn
//! so far.
//!
//! A depth is a key, a whole number by which surfaces are ordered: of two
//! surfaces at one pixel the one with the larger key is the nearer. A
//! surface is drawn at a pixel only if it is nearer than what the buffer
//! holds there.

use crate::image::{Color, ImageView};
use vstd::prelude::*;

verus! {

/// The mathematical content of a [`DepthBuffer`]: its size and its keys,
/// row after row.
pub struct DepthView {
    pub width: nat,
    pub height: nat,
    pub keys: Seq<i64>,
}

impl DepthView {
    /// The buffer holds exactly one key for every pixel.
    pub open spec fn wf(self) -> bool {
        self.keys.len() == self.width * self.height
    }

    /// `(x, y)` names a pixel of the buffer.
    pub open spec fn contains(self, x: int, y: int) -> bool {
        0 <= x < self.width && 0 <= y < self.height
    }

    /// Where the key of pixel `(x, y)` stands.
    pub open spec fn index(self, x: int, y: int) -> int {
        x + y * self.width
    }

    /// The key at `(x, y)`. Outside the buffer it is the largest key:
    /// nothing is nearer than that.
    pub open spec fn get(self, x: int, y: int) -> i64 {
        if self.contains(x, y) {
            self.keys[self.index(x, y)]
        } else {
            i64::MAX
        }
    }

    /// A surface with depth `key` is nearer at `(x, y)` than what the buffer
    /// holds there.
    pub open spec fn passes(self, x: int, y: int, key: i64) -> bool {
        self.contains(x, y) && self.keys[self.index(x, y)] < key
    }

    /// The buffer after a surface with depth `key` was offered at `(x, y)`:
    /// its key is taken if it is the nearer.
    pub open spec fn offer(self, x: int, y: int, key: i64) -> DepthView {
        if self.passes(x, y, key) {
            DepthView { keys: self.keys.update(self.index(x, y), key), ..self }
        } else {
            self
        }
    }

    /// The key of a pixel inside the buffer lies inside the sequence.
    pub proof fn lemma_index_bounds(self, x: int, y: int)
        requires
            self.wf(),
            self.contains(x, y),
        ensures
            0 <= y * self.width,
            0 <= self.index(x, y) < self.keys.len(),
    {
        let w = self.width as int;
        let h = self.height as int;
        assert(0 <= y * w && y * w + w <= h * w && h * w == w * h) by (nonlinear_arith)
            requires
                0 <= y < h,
                0 <= w,
        ;
    }
}

/// What a surface of colour `c` and depth `key` does to an image and its
/// depth buffer at `(x, y)`: where it is nearer than what was drawn there
/// before, its colour and its depth are taken; else nothing changes.
pub open spec fn fragment(
    img: ImageView,
    depth: DepthView,
    x: int,
    y: int,
    key: i64,
    c: Color,
) -> (ImageView, DepthView) {
    if depth.passes(x, y, key) {
        (img.set(x, y, c), depth.offer(x, y, key))
    } else {
        (img, depth)
    }
}

/// Two surfaces of different depth that cover one pixel leave the same
/// image and the same depth buffer whichever is drawn first; and where the
/// nearer of them is nearer than what was there before, the pixel shows
/// its colour.
pub proof fn lemma_depth_order(
    img: ImageView,
    depth: DepthView,
    x: int,
    y: int,
    key1: i64,
    c1: Color,
    key2: i64,
    c2: Color,
)
    requires
        img.wf(),
        depth.wf(),
        img.width == depth.width,
        img.height == depth.height,
        key1 != key2,
    ensures
        ({
            let first = fragment(img, depth, x, y, key1, c1);
            let second = fragment(img, depth, x, y, key2, c2);
            fragment(first.0, first.1, x, y, key2, c2) == fragment(
                second.0,
                second.1,
                x,
                y,
                key1,
                c1,
            )
        }),
        ({
            let first = fragment(img, depth, x, y, key1, c1);
            let both = fragment(first.0, first.1, x, y, key2, c2);
            key2 < key1 && depth.passes(x, y, key1) ==> both.0.get(x, y) == Color::from_bytes(
                c1.bytes(img.bpp()),
            ) && both.1.get(x, y) == key1
        }),
{
    if depth.contains(x, y) {
        depth.lemma_index_bounds(x, y);
        img.lemma_offset_bounds(x, y);
        let twice12 = img.set(x, y, c1).set(x, y, c2);
        let twice21 = img.set(x, y, c2).set(x, y, c1);
        assert(twice12.data =~= img.set(x, y, c2).data);
        assert(twice21.data =~= img.set(x, y, c1).data);
        let keys12 = depth.offer(x, y, key1).offer(x, y, key2);
        let keys21 = depth.offer(x, y, key2).offer(x, y, key1);
        assert(keys12.keys =~= keys21.keys);
        img.lemma_get_set(x, y, c1, x, y);
    }
}

/// A depth buffer: one key for every pixel of an image, row after row.
pub struct DepthBuffer {
    keys: Vec<i64>,
    width: usize,
    height: usize,
}

impl View for DepthBuffer {
    type V = DepthView;

    closed spec fn view(&self) -> DepthView {
        DepthView { width: self.width as nat, height: self.height as nat, keys: self.keys@ }
    }
}

impl DepthBuffer {
    /// A buffer in which every pixel is farther than any surface: the first
    /// surface that is offered at a pixel is taken.
    pub fn new(width: usize, height: usize) -> (buffer: DepthBuffer)
        requires
            width * height <= usize::MAX,
        ensures
            buffer@.wf(),
            buffer@.width == width,
            buffer@.height == height,
            buffer@.keys == Seq::new((width * height) as nat, |i: int| i64::MIN),
    {
        let keys = vec![i64::MIN; width * height];
        DepthBuffer { keys, width, height }
    }

    /// The number of pixels in a row.
    pub fn get_width(&self) -> (w: usize)
        ensures
            w == self@.width,
    {
        self.width
    }

    /// The number of rows.
    pub fn get_height(&self) -> (h: usize)
        ensures
            h == self@.height,
    {
        self.height
    }

    /// The key at `(x, y)`; the largest key outside the buffer.
    pub fn get(&self, x: usize, y: usize) -> (key: i64)
        requires
            self@.wf(),
        ensures
            key == self@.get(x as int, y as int),
    {
        if x < self.width && y < self.height {
            proof {
                self@.lemma_index_bounds(x as int, y as int);
                assert(self.keys@.len() == self.keys.len());
            }
            self.keys[x + y * self.width]
        } else {
            i64::MAX
        }
    }

    /// Offers a surface with depth `key` at `(x, y)`. Returns whether it is
    /// nearer than what the buffer held there, and takes its key if so.
    /// Outside the buffer no surface is nearer.
    pub fn offer(&mut self, x: usize, y: usize, key: i64) -> (nearer: bool)
        requires
            old(self)@.wf(),
        ensures
            nearer == old(self)@.passes(x as int, y as int, key),
            final(self)@ == old(self)@.offer(x as int, y as int, key),
            final(self)@.wf(),
    {
        if x < self.width && y < self.height {
            proof {
                self@.lemma_index_bounds(x as int, y as int);
                assert(self.keys@.len() == self.keys.len());
            }
            let at = x + y * self.width;
            if self.keys[at] < key {
                self.keys[at] = key;
                true
            } else {
                false
            }
        } else {
            false
        }
    }
}

} // verus!
