//! A rectangular pixel buffer with bounds-checked writes.

use vstd::prelude::*;
use crate::color::Color;

verus! {

/// A `width` by `height` grid of packed `0xRRGGBB` pixels stored row by row,
/// together with the background color used by `clear` and the current paint
/// color used by drawing routines that are not given an explicit color.
pub struct Framebuffer {
    pub width: usize,
    pub height: usize,
    pub buffer: Vec<u32>,
    pub background_color: Color,
    pub current_color: Color,
}

/// Two distinct in-frame coordinates never share a buffer index.
pub proof fn lemma_index_injective(w: int, x1: int, y1: int, x2: int, y2: int)
    requires
        0 <= x1 < w,
        0 <= x2 < w,
        0 <= y1,
        0 <= y2,
        y1 * w + x1 == y2 * w + x2,
    ensures
        x1 == x2,
        y1 == y2,
{
    if y1 < y2 {
        assert((y1 + 1) * w <= y2 * w) by (nonlinear_arith)
            requires
                y1 + 1 <= y2,
                w > 0,
        ;
        assert((y1 + 1) * w == y1 * w + w) by (nonlinear_arith);
    } else if y2 < y1 {
        assert((y2 + 1) * w <= y1 * w) by (nonlinear_arith)
            requires
                y2 + 1 <= y1,
                w > 0,
        ;
        assert((y2 + 1) * w == y2 * w + w) by (nonlinear_arith);
    }
}

/// An in-frame coordinate has a buffer index below `w * h`.
pub proof fn lemma_index_in_range(w: int, h: int, x: int, y: int)
    requires
        0 <= x < w,
        0 <= y < h,
    ensures
        0 <= y * w + x < w * h,
{
    assert(y * w + x < w * h) by (nonlinear_arith)
        requires
            0 <= x < w,
            0 <= y < h,
    ;
    assert(0 <= y * w) by (nonlinear_arith)
        requires
            0 <= y,
            0 <= w,
    ;
}

impl Framebuffer {
    /// The buffer holds exactly one entry per pixel.
    pub open spec fn wf(&self) -> bool {
        self.buffer@.len() == self.width * self.height
    }

    /// Whether `(x, y)` names a pixel of the frame.
    pub open spec fn in_frame(&self, x: int, y: int) -> bool {
        0 <= x < self.width && 0 <= y < self.height
    }

    /// The pixel at `(x, y)`; meaningful when `in_frame(x, y)`.
    pub open spec fn pixel(&self, x: int, y: int) -> u32 {
        self.buffer@[y * self.width + x]
    }

    /// Same dimensions and same paint state as `other`; pixels may differ.
    pub open spec fn same_shape(&self, other: &Framebuffer) -> bool {
        &&& self.width == other.width
        &&& self.height == other.height
        &&& self.background_color == other.background_color
        &&& self.current_color == other.current_color
    }

    /// A frame filled with black, with white as the current color.
    pub fn new(width: usize, height: usize) -> (fb: Framebuffer)
        requires
            width * height <= usize::MAX,
        ensures
            fb.wf(),
            fb.width == width,
            fb.height == height,
            fb.background_color == (Color { r: 0, g: 0, b: 0 }),
            fb.current_color == (Color { r: 255, g: 255, b: 255 }),
            forall|i: int| 0 <= i < fb.buffer@.len() ==> fb.buffer@[i] == 0,
    {
        let background_color = Color::new(0, 0, 0);
        let current_color = Color::new(255, 255, 255);
        let fill: u32 = background_color.to_hex();
        let buffer = vec![fill; width * height];
        Framebuffer { width, height, buffer, background_color, current_color }
    }

    /// Sets every pixel to the background color.
    pub fn clear(&mut self)
        ensures
            final(self).same_shape(old(self)),
            final(self).buffer@.len() == old(self).buffer@.len(),
            old(self).wf() ==> final(self).wf(),
            forall|i: int|
                0 <= i < final(self).buffer@.len() ==> final(self).buffer@[i] == old(
                    self,
                ).background_color.hex(),
    {
        let fill: u32 = self.background_color.to_hex();
        let n: usize = self.buffer.len();
        let mut i: usize = 0;
        while i < n
            invariant
                i <= n,
                n == self.buffer@.len(),
                n == old(self).buffer@.len(),
                self.same_shape(old(self)),
                fill == old(self).background_color.hex(),
                forall|k: int| 0 <= k < i ==> self.buffer@[k] == fill,
            decreases n - i,
        {
            self.buffer.set(i, fill);
            i += 1;
        }
    }

    /// Writes `color` at `(x, y)` if that is a pixel of the frame, and does
    /// nothing otherwise.
    pub fn point(&mut self, x: usize, y: usize, color: u32)
        requires
            old(self).wf(),
        ensures
            final(self).wf(),
            final(self).same_shape(old(self)),
            old(self).in_frame(x as int, y as int) ==> final(self).buffer@ == old(
                self,
            ).buffer@.update(y * old(self).width + x, color),
            !old(self).in_frame(x as int, y as int) ==> final(self).buffer@ == old(self).buffer@,
            forall|px: int, py: int|
                old(self).in_frame(px, py) ==> #[trigger] final(self).pixel(px, py) == (if px == x
                    && py == y {
                    color
                } else {
                    old(self).pixel(px, py)
                }),
    {
        if x < self.width && y < self.height {
            proof {
                lemma_index_in_range(self.width as int, self.height as int, x as int, y as int);
                assert(self.buffer.len() == self.buffer@.len());
            }
            let index: usize = y * self.width + x;
            self.buffer.set(index, color);
            proof {
                assert forall|px: int, py: int| old(self).in_frame(px, py) implies #[trigger] self.pixel(
                    px,
                    py,
                ) == (if px == x && py == y {
                    color
                } else {
                    old(self).pixel(px, py)
                }) by {
                    lemma_index_in_range(self.width as int, self.height as int, px, py);
                    if py * self.width + px == y * self.width + x {
                        lemma_index_injective(self.width as int, px, py, x as int, y as int);
                    }
                }
            }
        }
    }

    /// Writes the current color at `(x, y)` if that is a pixel of the frame,
    /// and does nothing otherwise.
    pub fn point_current(&mut self, x: usize, y: usize)
        requires
            old(self).wf(),
        ensures
            final(self).wf(),
            final(self).same_shape(old(self)),
            old(self).in_frame(x as int, y as int) ==> final(self).buffer@ == old(
                self,
            ).buffer@.update(y * old(self).width + x, old(self).current_color.hex()),
            !old(self).in_frame(x as int, y as int) ==> final(self).buffer@ == old(self).buffer@,
            forall|px: int, py: int|
                old(self).in_frame(px, py) ==> #[trigger] final(self).pixel(px, py) == (if px == x
                    && py == y {
                    old(self).current_color.hex()
                } else {
                    old(self).pixel(px, py)
                }),
    {
        let color: u32 = self.current_color.to_hex();
        self.point(x, y, color);
    }

    /// Writes `color` at `(x0 + dx, y0 + dy)` if that is a pixel of the frame,
    /// and does nothing otherwise; the sums are taken without overflow.
    pub fn point_offset(&mut self, x0: usize, dx: usize, y0: usize, dy: usize, color: u32)
        requires
            old(self).wf(),
        ensures
            final(self).wf(),
            final(self).same_shape(old(self)),
            !old(self).in_frame(x0 + dx, y0 + dy) ==> final(self).buffer@ == old(self).buffer@,
            forall|px: int, py: int|
                old(self).in_frame(px, py) ==> #[trigger] final(self).pixel(px, py) == (if px == x0
                    + dx && py == y0 + dy {
                    color
                } else {
                    old(self).pixel(px, py)
                }),
    {
        match (x0.checked_add(dx), y0.checked_add(dy)) {
            (Some(x), Some(y)) => {
                self.point(x, y, color);
            },
            _ => {},
        }
    }

    /// Writes `color` at `(x, y)` if that is a pixel of the frame, and does
    /// nothing otherwise; a negative coordinate is never in the frame.
    pub fn point_signed(&mut self, x: isize, y: isize, color: u32)
        requires
            old(self).wf(),
        ensures
            final(self).wf(),
            final(self).same_shape(old(self)),
            !old(self).in_frame(x as int, y as int) ==> final(self).buffer@ == old(self).buffer@,
            forall|px: int, py: int|
                old(self).in_frame(px, py) ==> #[trigger] final(self).pixel(px, py) == (if px == x
                    && py == y {
                    color
                } else {
                    old(self).pixel(px, py)
                }),
    {
        if x >= 0 && y >= 0 {
            self.point(x as usize, y as usize, color);
        }
    }

    /// Fills the `w` by `h` rectangle whose top left corner is `(x0, y0)` with
    /// `color`; the part of it outside the frame is dropped.
    pub fn fill_rect(&mut self, x0: usize, y0: usize, w: usize, h: usize, color: u32)
        requires
            old(self).wf(),
        ensures
            final(self).wf(),
            final(self).same_shape(old(self)),
            forall|px: int, py: int|
                old(self).in_frame(px, py) ==> #[trigger] final(self).pixel(px, py) == (if x0 <= px
                    < x0 + w && y0 <= py < y0 + h {
                    color
                } else {
                    old(self).pixel(px, py)
                }),
    {
        let mut x: usize = 0;
        while x < w
            invariant
                x <= w,
                self.wf(),
                self.same_shape(old(self)),
                forall|px: int, py: int|
                    old(self).in_frame(px, py) ==> #[trigger] self.pixel(px, py) == (if x0 <= px
                        < x0 + x && y0 <= py < y0 + h {
                        color
                    } else {
                        old(self).pixel(px, py)
                    }),
            decreases w - x,
        {
            let mut y: usize = 0;
            while y < h
                invariant
                    x < w,
                    y <= h,
                    self.wf(),
                    self.same_shape(old(self)),
                    forall|px: int, py: int|
                        old(self).in_frame(px, py) ==> #[trigger] self.pixel(px, py) == (if y0
                            <= py < y0 + h && (x0 <= px < x0 + x || (px == x0 + x && py < y0
                            + y)) {
                            color
                        } else {
                            old(self).pixel(px, py)
                        }),
                decreases h - y,
            {
                self.point_offset(x0, x, y0, y, color);
                y += 1;
            }
            x += 1;
        }
    }

    pub fn set_background_color(&mut self, color: Color)
        ensures
            final(self).background_color == color,
            final(self).width == old(self).width,
            final(self).height == old(self).height,
            final(self).buffer == old(self).buffer,
            final(self).current_color == old(self).current_color,
    {
        self.background_color = color;
    }

    pub fn set_current_color(&mut self, color: Color)
        ensures
            final(self).current_color == color,
            final(self).width == old(self).width,
            final(self).height == old(self).height,
            final(self).buffer == old(self).buffer,
            final(self).background_color == old(self).background_color,
    {
        self.current_color = color;
    }

    /// The pixels, row by row.
    pub fn get_buffer(&self) -> (pixels: &[u32])
        ensures
            pixels@ == self.buffer@,
    {
        self.buffer.as_slice()
    }
}

} // verus!
