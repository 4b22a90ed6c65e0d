use vstd::prelude::*;

verus! {

/// An RGBA color with 8 bits per channel (straight, not premultiplied,
/// alpha).
#[derive(Clone, Copy, Debug, PartialEq, Eq, Structural)]
pub struct Color {
    pub r: u8,
    pub g: u8,
    pub b: u8,
    pub a: u8,
}

impl Color {
    /// An opaque color.
    pub fn rgb(r: u8, g: u8, b: u8) -> (c: Self)
        ensures
            c == (Color { r, g, b, a: 255 }),
    {
        Self { r, g, b, a: 255 }
    }

    /// A color with the given alpha.
    pub fn rgba(r: u8, g: u8, b: u8, a: u8) -> (c: Self)
        ensures
            c == (Color { r, g, b, a }),
    {
        Self { r, g, b, a }
    }
}

/// A `width` x `height` RGBA raster, row-major, four bytes per pixel.
pub struct Canvas {
    width: u32,
    height: u32,
    pixels: Vec<u8>,
}

/// The byte offset of pixel `(x, y)` in a row-major RGBA raster `width`
/// pixels wide.
pub open spec fn pixel_offset(width: int, x: int, y: int) -> int {
    (y * width + x) * 4
}

/// The color stored at byte offset `i` of `pixels`.
pub open spec fn color_at(pixels: Seq<u8>, i: int) -> Color {
    Color { r: pixels[i], g: pixels[i + 1], b: pixels[i + 2], a: pixels[i + 3] }
}

/// `pixels` with the four bytes at offset `i` replaced by `c`.
pub open spec fn with_color_at(pixels: Seq<u8>, i: int, c: Color) -> Seq<u8> {
    pixels.update(i, c.r).update(i + 1, c.g).update(i + 2, c.b).update(i + 3, c.a)
}

proof fn lemma_offset_in_bounds(width: int, height: int, x: int, y: int)
    requires
        0 <= x < width,
        0 <= y < height,
    ensures
        0 <= pixel_offset(width, x, y),
        pixel_offset(width, x, y) + 4 <= width * height * 4,
{
    assert(0 <= y * width) by (nonlinear_arith)
        requires
            0 <= y,
            0 <= x < width,
    ;
    assert(y * width + x < width * height) by (nonlinear_arith)
        requires
            0 <= x < width,
            0 <= y < height,
    ;
}

/// Reading a pixel back after writing it gives the color written, and
/// writing one pixel leaves every other pixel as it was.
pub proof fn law_pixel_read_after_write(
    width: int,
    height: int,
    pixels: Seq<u8>,
    x: int,
    y: int,
    c: Color,
    x2: int,
    y2: int,
)
    requires
        0 <= x < width,
        0 <= y < height,
        0 <= x2 < width,
        0 <= y2 < height,
        pixels.len() == width * height * 4,
    ensures
        color_at(with_color_at(pixels, pixel_offset(width, x, y), c), pixel_offset(width, x2, y2)) == (
        if x2 == x && y2 == y {
            c
        } else {
            color_at(pixels, pixel_offset(width, x2, y2))
        }),
{
    lemma_offset_in_bounds(width, height, x, y);
    lemma_offset_in_bounds(width, height, x2, y2);
    let i = y * width + x;
    let j = y2 * width + x2;
    if !(x2 == x && y2 == y) {
        assert(i != j) by (nonlinear_arith)
            requires
                i == y * width + x,
                j == y2 * width + x2,
                0 <= x < width,
                0 <= x2 < width,
                !(x2 == x && y2 == y),
        ;
    }
}

impl Canvas {
    /// Well-formedness: four bytes per pixel.
    pub closed spec fn wf(&self) -> bool {
        self.pixels.len() == self.width * self.height * 4
    }

    /// The width in pixels.
    pub closed spec fn spec_width(&self) -> u32 {
        self.width
    }

    /// The height in pixels.
    pub closed spec fn spec_height(&self) -> u32 {
        self.height
    }

    /// The raster's bytes: RGBA, row-major.
    pub closed spec fn spec_pixels(&self) -> Seq<u8> {
        self.pixels@
    }

    /// The color of pixel `(x, y)`.
    pub open spec fn spec_pixel(&self, x: int, y: int) -> Color {
        color_at(self.spec_pixels(), pixel_offset(self.spec_width() as int, x, y))
    }

    /// A fully transparent-black canvas.
    pub fn new(width: u32, height: u32) -> (c: Self)
        requires
            width * height * 4 <= usize::MAX,
        ensures
            c.wf(),
            c.spec_width() == width,
            c.spec_height() == height,
            c.spec_pixels() == Seq::new((width * height * 4) as nat, |i: int| 0u8),
    {
        let w = width as usize;
        let h = height as usize;
        assert(w * h <= usize::MAX) by (nonlinear_arith)
            requires
                w * h * 4 <= usize::MAX,
                0 <= w,
                0 <= h,
        ;
        let n = w * h * 4;
        let pixels = vec![0u8; n];
        assert(pixels@ =~= Seq::new((width * height * 4) as nat, |i: int| 0u8));
        Self { width, height, pixels }
    }

    pub fn width(&self) -> (w: u32)
        ensures
            w == self.spec_width(),
    {
        self.width
    }

    pub fn height(&self) -> (h: u32)
        ensures
            h == self.spec_height(),
    {
        self.height
    }

    pub fn pixels(&self) -> (p: &[u8])
        requires
            self.wf(),
        ensures
            p@ == self.spec_pixels(),
            p@.len() == self.spec_width() * self.spec_height() * 4,
    {
        self.pixels.as_slice()
    }

    fn index(&self, x: u32, y: u32) -> (i: usize)
        requires
            self.wf(),
            x < self.spec_width(),
            y < self.spec_height(),
        ensures
            i == pixel_offset(self.spec_width() as int, x as int, y as int),
            i + 4 <= self.spec_pixels().len(),
    {
        proof {
            lemma_offset_in_bounds(self.width as int, self.height as int, x as int, y as int);
        }
        (y as usize * self.width as usize + x as usize) * 4
    }

    /// The color of pixel `(x, y)`, which must lie on the canvas.
    pub fn get_pixel(&self, x: u32, y: u32) -> (c: Color)
        requires
            self.wf(),
            x < self.spec_width(),
            y < self.spec_height(),
        ensures
            c == self.spec_pixel(x as int, y as int),
    {
        let i = self.index(x, y);
        Color::rgba(self.pixels[i], self.pixels[i + 1], self.pixels[i + 2], self.pixels[i + 3])
    }

    /// Overwrites pixel `(x, y)` with `color`; a pixel off the canvas is
    /// ignored.
    pub fn set_pixel(&mut self, x: u32, y: u32, color: Color)
        requires
            old(self).wf(),
        ensures
            final(self).wf(),
            final(self).spec_width() == old(self).spec_width(),
            final(self).spec_height() == old(self).spec_height(),
            final(self).spec_pixels() == (if x < old(self).spec_width() && y < old(self).spec_height() {
                with_color_at(
                    old(self).spec_pixels(),
                    pixel_offset(old(self).spec_width() as int, x as int, y as int),
                    color,
                )
            } else {
                old(self).spec_pixels()
            }),
    {
        if x >= self.width || y >= self.height {
            return;
        }
        let i = self.index(x, y);
        self.pixels.set(i, color.r);
        self.pixels.set(i + 1, color.g);
        self.pixels.set(i + 2, color.b);
        self.pixels.set(i + 3, color.a);
    }

    /// Overwrites every pixel with `color`.
    pub fn fill(&mut self, color: Color)
        requires
            old(self).wf(),
        ensures
            final(self).wf(),
            final(self).spec_width() == old(self).spec_width(),
            final(self).spec_height() == old(self).spec_height(),
            final(self).spec_pixels().len() == old(self).spec_pixels().len(),
            forall|i: int|
                0 <= i < final(self).spec_pixels().len() ==> #[trigger] final(self).spec_pixels()[i]
                    == (if i % 4 == 0 {
                    color.r
                } else if i % 4 == 1 {
                    color.g
                } else if i % 4 == 2 {
                    color.b
                } else {
                    color.a
                }),
    {
        let n = self.pixels.len();
        let ghost w = self.width;
        let ghost h = self.height;
        let mut i: usize = 0;
        while i < n
            invariant
                self.pixels.len() == n,
                self.width == w,
                self.height == h,
                n % 4 == 0,
                i % 4 == 0,
                i <= n,
                forall|j: int|
                    0 <= j < i ==> #[trigger] self.pixels[j] == (if j % 4 == 0 {
                        color.r
                    } else if j % 4 == 1 {
                        color.g
                    } else if j % 4 == 2 {
                        color.b
                    } else {
                        color.a
                    }),
            decreases n - i,
        {
            self.pixels.set(i, color.r);
            self.pixels.set(i + 1, color.g);
            self.pixels.set(i + 2, color.b);
            self.pixels.set(i + 3, color.a);
            i += 4;
        }
    }
}

} // verus!
