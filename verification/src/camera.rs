use vstd::prelude::*;

verus! {

/// The part of a camera that decides which pixel a ray belongs to: the image's
/// width and height in pixels.
#[derive(Clone, Copy, Debug, PartialEq, Eq)]
pub struct Camera {
    pub resolution: (usize, usize),
}

impl Camera {
    /// The image's width in pixels.
    pub open spec fn spec_width(self) -> nat {
        self.resolution.0 as nat
    }

    /// The image's height in pixels.
    pub open spec fn spec_height(self) -> nat {
        self.resolution.1 as nat
    }

    /// The place of the pixel `(x, y)` in a buffer that holds the image row
    /// after row.
    pub open spec fn flat_index(self, x: nat, y: nat) -> nat {
        x + y * self.spec_width()
    }

    /// A camera for an image of this width and height.
    pub fn new(width: usize, height: usize) -> (camera: Camera)
        ensures
            camera.resolution == (width, height),
    {
        Camera { resolution: (width, height) }
    }

    /// The number of pixels in the image.
    pub fn pixel_count(&self) -> (n: usize)
        requires
            self.spec_width() * self.spec_height() <= usize::MAX,
        ensures
            n == self.spec_width() * self.spec_height(),
    {
        self.resolution.0 * self.resolution.1
    }

    /// The number of pixels in the image, or `None` where it is more than a
    /// buffer can hold.
    pub fn checked_pixel_count(&self) -> (r: Option<usize>)
        ensures
            match r {
                Some(n) => n == self.spec_width() * self.spec_height(),
                None => self.spec_width() * self.spec_height() > usize::MAX,
            },
    {
        self.resolution.0.checked_mul(self.resolution.1)
    }

    /// The pixel that stands at `index` in a buffer that holds the image row
    /// after row: its column and its row.
    pub fn pixel(&self, index: usize) -> (at: (usize, usize))
        requires
            self.spec_width() > 0,
        ensures
            at.0 < self.spec_width(),
            self.flat_index(at.0 as nat, at.1 as nat) == index,
            index < self.spec_width() * self.spec_height() ==> at.1 < self.spec_height(),
    {
        let width = self.resolution.0;
        let x = index % width;
        let y = index / width;
        proof {
            lemma_row_and_column(index as nat, width as nat, self.resolution.1 as nat);
        }
        (x, y)
    }

    /// Whether the offset of the pixel `(x, y)` from the image's centre can be
    /// told: whether the coordinates and the resolution are all within
    /// `i32::MAX`.
    pub fn in_reach(&self, x: usize, y: usize) -> (r: bool)
        ensures
            r == (x <= i32::MAX && y <= i32::MAX && self.spec_width() <= i32::MAX
                && self.spec_height() <= i32::MAX),
    {
        let limit: usize = 0x7FFF_FFFF;
        x <= limit && y <= limit && self.resolution.0 <= limit && self.resolution.1 <= limit
    }

    /// How far the pixel `(x, y)` lies from the image's centre, in pixels to
    /// the right and in pixels down. The centre is the pixel at half the
    /// width and half the height, both rounded down.
    pub fn pixel_offset(&self, x: usize, y: usize) -> (offset: (i32, i32))
        requires
            x <= i32::MAX,
            y <= i32::MAX,
            self.spec_width() <= i32::MAX,
            self.spec_height() <= i32::MAX,
        ensures
            offset.0 == x - self.spec_width() / 2,
            offset.1 == y - self.spec_height() / 2,
    {
        let dx: i32 = x as i32 - self.resolution.0 as i32 / 2;
        let dy: i32 = y as i32 - self.resolution.1 as i32 / 2;
        (dx, dy)
    }
}

/// An index splits into a column below the width and a row; the row is below
/// the height where the index is below the number of pixels.
pub proof fn lemma_row_and_column(index: nat, width: nat, height: nat)
    requires
        width > 0,
    ensures
        index % width < width,
        index % width + (index / width) * width == index,
        index < width * height ==> index / width < height,
{
    assert(index % width + (index / width) * width == index && index % width < width)
        by (nonlinear_arith)
        requires
            width > 0,
    ;
    if index < width * height {
        assert(index / width < height) by (nonlinear_arith)
            requires
                width > 0,
                index < width * height,
        ;
    }
}

/// Two pixels of an image that stand at the same place in the buffer are the
/// same pixel.
pub proof fn lemma_flat_index_is_injective(camera: Camera, x: nat, y: nat, u: nat, v: nat)
    requires
        x < camera.spec_width(),
        u < camera.spec_width(),
        camera.flat_index(x, y) == camera.flat_index(u, v),
    ensures
        x == u,
        y == v,
{
    let w = camera.spec_width();
    assert(x == u && y == v) by (nonlinear_arith)
        requires
            x < w,
            u < w,
            x + y * w == u + v * w,
    ;
}

} // verus!
