use vstd::prelude::*;

verus! {

/// A pixel: its red, green and blue channel.
pub type Rgb = (u8, u8, u8);

/// The ASCII digit for `d`.
pub open spec fn digit(d: nat) -> u8
    recommends
        d < 10,
{
    (48 + d) as u8
}

/// `n` in decimal, most significant digit first, without leading zeros.
pub open spec fn decimal(n: nat) -> Seq<u8>
    decreases n,
{
    if n < 10 {
        seq![digit(n)]
    } else {
        decimal(n / 10).push(digit(n % 10))
    }
}

/// The number that these decimal digits stand for.
pub open spec fn digits_value(digits: Seq<u8>) -> nat
    decreases digits.len(),
{
    if digits.len() == 0 {
        0
    } else {
        digits_value(digits.drop_last()) * 10 + (digits.last() - 48) as nat
    }
}

/// The line of a pixel: its three channels in decimal, a space between them
/// and a line feed after them.
pub open spec fn pixel_line(p: Rgb) -> Seq<u8> {
    decimal(p.0 as nat) + seq![32u8] + decimal(p.1 as nat) + seq![32u8] + decimal(p.2 as nat)
        + seq![10u8]
}

/// The lines of these pixels, in their order.
pub open spec fn pixel_lines(pixels: Seq<Rgb>) -> Seq<u8>
    decreases pixels.len(),
{
    if pixels.len() == 0 {
        Seq::empty()
    } else {
        pixel_lines(pixels.drop_last()) + pixel_line(pixels.last())
    }
}

/// The three lines that begin a plain PPM file: the format's magic number,
/// the width and the height, and the largest channel value, 255.
pub open spec fn header(width: nat, height: nat) -> Seq<u8> {
    seq![80u8, 51u8, 10u8] + decimal(width) + seq![32u8] + decimal(height) + seq![10u8]
        + seq![50u8, 53u8, 53u8, 10u8]
}

/// A plain PPM file of this width and height with these pixels.
pub open spec fn ppm_text(width: nat, height: nat, pixels: Seq<Rgb>) -> Seq<u8> {
    header(width, height) + pixel_lines(pixels)
}

/// The pixels of an image that was filled from `colors`: these in reverse
/// order, then black up to `len` pixels.
pub open spec fn reversed_fill(colors: Seq<Rgb>, len: nat) -> Seq<Rgb> {
    Seq::new(
        len,
        |i: int|
            if i < colors.len() {
                colors[colors.len() - 1 - i]
            } else {
                (0u8, 0u8, 0u8)
            },
    )
}

/// An image: `width * height` pixels, row after row.
pub struct Ppm {
    width: usize,
    height: usize,
    data: Vec<Rgb>,
}

/// `len` black pixels.
fn black_pixels(len: usize) -> (data: Vec<Rgb>)
    ensures
        data@ == reversed_fill(Seq::empty(), len as nat),
{
    let mut data: Vec<Rgb> = Vec::with_capacity(len);
    let mut i: usize = 0;
    while i < len
        invariant
            i <= len,
            data@ == reversed_fill(Seq::empty(), i as nat),
        decreases len - i,
    {
        data.push((0, 0, 0));
        i += 1;
        assert(data@ =~= reversed_fill(Seq::empty(), i as nat));
    }
    data
}

/// Appends `n` in decimal.
fn push_decimal(out: &mut Vec<u8>, n: usize)
    ensures
        final(out)@ == old(out)@ + decimal(n as nat),
    decreases n,
{
    if n >= 10 {
        push_decimal(out, n / 10);
    }
    let d: u8 = (n % 10) as u8;
    out.push(48 + d);
    proof {
        let last = digit((n % 10) as nat);
        if n >= 10 {
            assert(out@ =~= old(out)@ + decimal((n / 10) as nat).push(last));
        } else {
            assert(out@ =~= old(out)@ + seq![last]);
        }
    }
}

/// Appends the line of a pixel.
fn push_pixel_line(out: &mut Vec<u8>, p: Rgb)
    ensures
        final(out)@ == old(out)@ + pixel_line(p),
{
    push_decimal(out, p.0 as usize);
    out.push(32);
    push_decimal(out, p.1 as usize);
    out.push(32);
    push_decimal(out, p.2 as usize);
    out.push(10);
    assert(out@ =~= old(out)@ + pixel_line(p));
}

impl Ppm {
    #[verifier::type_invariant]
    spec fn valid(self) -> bool {
        self.data.len() == self.width * self.height
    }

    /// The image's width in pixels.
    pub closed spec fn spec_width(self) -> nat {
        self.width as nat
    }

    /// The image's height in pixels.
    pub closed spec fn spec_height(self) -> nat {
        self.height as nat
    }

    /// The image's pixels, row after row.
    pub closed spec fn pixels(self) -> Seq<Rgb> {
        self.data@
    }

    /// Whether an image of this width and height can be made, and has room
    /// for `colors` colours.
    pub fn fits(width: usize, height: usize, colors: usize) -> (r: bool)
        ensures
            r == (width * height <= usize::MAX && colors <= width * height),
    {
        match width.checked_mul(height) {
            Some(room) => colors <= room,
            None => false,
        }
    }

    /// A black image.
    pub fn new(width: usize, height: usize) -> (image: Ppm)
        requires
            width * height <= usize::MAX,
        ensures
            image.spec_width() == width,
            image.spec_height() == height,
            image.pixels() == reversed_fill(Seq::empty(), (width * height) as nat),
    {
        let data = black_pixels(width * height);
        Ppm { width, height, data }
    }

    /// An image filled from `colors`, last colour first. Pixels that `colors`
    /// does not reach are black.
    pub fn from(width: usize, height: usize, colors: &Vec<Rgb>) -> (image: Ppm)
        requires
            width * height <= usize::MAX,
            colors.len() <= width * height,
        ensures
            image.spec_width() == width,
            image.spec_height() == height,
            image.pixels() == reversed_fill(colors@, (width * height) as nat),
    {
        let ghost black: Rgb = (0u8, 0u8, 0u8);
        let mut data = black_pixels(width * height);
        let n = colors.len();
        let mut i: usize = 0;
        while i < n
            invariant
                i <= n,
                n == colors.len(),
                n <= data.len(),
                data.len() == width * height,
                forall|k: int| 0 <= k < i ==> #[trigger] data@[k] == colors@[n - 1 - k],
                forall|k: int| i <= k < data.len() ==> #[trigger] data@[k] == black,
            decreases n - i,
        {
            data.set(i, colors[n - 1 - i]);
            i += 1;
        }
        assert(data@ =~= reversed_fill(colors@, (width * height) as nat));
        Ppm { width, height, data }
    }

    /// Whether the image has a pixel in column `x` of row `y`: whether its
    /// place, counted row after row, is one of the image's.
    pub fn has_pixel(&self, x: usize, y: usize) -> (r: bool)
        ensures
            r == (x + y * self.spec_width() < self.spec_width() * self.spec_height()),
    {
        proof {
            use_type_invariant(self);
        }
        match y.checked_mul(self.width) {
            Some(row) => match row.checked_add(x) {
                Some(at) => at < self.data.len(),
                None => false,
            },
            None => false,
        }
    }

    /// Sets the pixel in column `x` of row `y`.
    pub fn set(&mut self, x: usize, y: usize, color: Rgb)
        requires
            x + y * old(self).spec_width() < old(self).spec_width() * old(self).spec_height(),
        ensures
            final(self).spec_width() == old(self).spec_width(),
            final(self).spec_height() == old(self).spec_height(),
            final(self).pixels() == old(self).pixels().update(
                x + y * old(self).spec_width(),
                color,
            ),
        no_unwind
    {
        proof {
            use_type_invariant(&*self);
        }
        let at = x + y * self.width;
        self.data[at] = color;
    }

    /// The pixel in column `x` of row `y`.
    pub fn get(&self, x: usize, y: usize) -> (color: Rgb)
        requires
            x + y * self.spec_width() < self.spec_width() * self.spec_height(),
        ensures
            color == self.pixels()[x + y * self.spec_width()],
    {
        proof {
            use_type_invariant(self);
        }
        self.data[x + y * self.width]
    }

    /// The number of pixels: one for each place in the image's rows.
    pub fn pixel_count(&self) -> (n: usize)
        ensures
            n == self.pixels().len(),
            n == self.spec_width() * self.spec_height(),
    {
        proof {
            use_type_invariant(self);
        }
        self.data.len()
    }

    /// The image's width in pixels.
    pub fn width(&self) -> (w: usize)
        ensures
            w == self.spec_width(),
    {
        self.width
    }

    /// The image's height in pixels.
    pub fn height(&self) -> (h: usize)
        ensures
            h == self.spec_height(),
    {
        self.height
    }

    /// The image as a plain PPM file.
    pub fn encode(&self) -> (bytes: Vec<u8>)
        ensures
            bytes@ == ppm_text(self.spec_width(), self.spec_height(), self.pixels()),
    {
        let mut out: Vec<u8> = Vec::new();
        out.push(80);
        out.push(51);
        out.push(10);
        push_decimal(&mut out, self.width);
        out.push(32);
        push_decimal(&mut out, self.height);
        out.push(10);
        out.push(50);
        out.push(53);
        out.push(53);
        out.push(10);
        assert(out@ =~= header(self.spec_width(), self.spec_height()));
        let mut i: usize = 0;
        while i < self.data.len()
            invariant
                i <= self.data.len(),
                out@ == header(self.spec_width(), self.spec_height()) + pixel_lines(
                    self.pixels().take(i as int),
                ),
            decreases self.data.len() - i,
        {
            push_pixel_line(&mut out, self.data[i]);
            proof {
                let next = self.pixels().take(i + 1);
                assert(next.drop_last() =~= self.pixels().take(i as int));
                assert(next.last() == self.pixels()[i as int]);
            }
            i += 1;
        }
        assert(self.pixels().take(i as int) =~= self.pixels());
        out
    }
}

/// A number in decimal is made of digits and of nothing else, begins with a
/// zero only where it is zero, and stands for the number.
pub proof fn lemma_decimal_reads_back(n: nat)
    ensures
        decimal(n).len() >= 1,
        forall|i: int| 0 <= i < decimal(n).len() ==> 48 <= #[trigger] decimal(n)[i] <= 57,
        decimal(n)[0] == 48 <==> n == 0,
        digits_value(decimal(n)) == n,
    decreases n,
{
    if n < 10 {
        assert(decimal(n).drop_last() =~= Seq::<u8>::empty());
        assert(digits_value(Seq::<u8>::empty()) == 0);
        assert(decimal(n).last() == 48 + n);
    } else {
        lemma_decimal_reads_back(n / 10);
        let front = decimal(n / 10);
        assert(decimal(n).drop_last() =~= front);
        assert(decimal(n)[0] == front[0]);
    }
}

} // verus!
