//! Intervals of scalars, and images as text.
use crate::color::{decimal, pixel_line, write_decimal, Color, Rgb};
use crate::scalar::{Scalar, INFINITY_BITS, NEG_INFINITY_BITS};
use vstd::prelude::*;

verus! {

/// A closed range of scalars. One with `min > max` is empty.
#[derive(Clone, Copy, Debug, PartialEq, Eq, Structural)]
pub struct Interval {
    pub min: Scalar,
    pub max: Scalar,
}

impl Interval {
    /// The interval that holds nothing: from positive to negative infinity.
    pub open spec fn empty_spec() -> Interval {
        Interval { min: Scalar::infinity(), max: Scalar::neg_infinity() }
    }

    /// The interval that holds every number.
    pub open spec fn universe_spec() -> Interval {
        Interval { min: Scalar::neg_infinity(), max: Scalar::infinity() }
    }

    /// `min <= x <= max`.
    pub open spec fn contains_spec(self, x: Scalar) -> bool {
        self.min.le_spec(x) && x.le_spec(self.max)
    }

    /// `min < x < max`.
    pub open spec fn surrounds_spec(self, x: Scalar) -> bool {
        self.min.lt_spec(x) && x.lt_spec(self.max)
    }

    /// `x` projected into the interval.
    pub open spec fn clamp_spec(self, x: Scalar) -> Scalar {
        if x.lt_spec(self.min) {
            self.min
        } else if self.max.lt_spec(x) {
            self.max
        } else {
            x
        }
    }

    /// The least interval around both: the lesser of the two minima and the
    /// greater of the two maxima. Where a bound of `a` does not compare with
    /// that of `b`, the bound of `b` is taken.
    pub open spec fn union(a: Interval, b: Interval) -> Interval {
        Interval {
            min: if a.min.le_spec(b.min) {
                a.min
            } else {
                b.min
            },
            max: if b.max.le_spec(a.max) {
                a.max
            } else {
                b.max
            },
        }
    }

    /// No number lies in the interval.
    pub open spec fn is_empty(self) -> bool {
        self.max.lt_spec(self.min)
    }

    #[verifier::when_used_as_spec(empty_spec)]
    pub fn empty() -> (r: Interval)
        ensures
            r == Interval::empty_spec(),
    {
        Interval { min: Scalar { bits: INFINITY_BITS }, max: Scalar { bits: NEG_INFINITY_BITS } }
    }

    #[verifier::when_used_as_spec(universe_spec)]
    pub fn universe() -> (r: Interval)
        ensures
            r == Interval::universe_spec(),
    {
        Interval { min: Scalar { bits: NEG_INFINITY_BITS }, max: Scalar { bits: INFINITY_BITS } }
    }

    pub fn new(min: Scalar, max: Scalar) -> (r: Interval)
        ensures
            r == (Interval { min, max }),
    {
        Interval { min, max }
    }

    pub fn min(&self) -> (r: Scalar)
        ensures
            r == self.min,
    {
        self.min
    }

    pub fn max(&self) -> (r: Scalar)
        ensures
            r == self.max,
    {
        self.max
    }

    pub fn from_intervals(a: &Interval, b: &Interval) -> (r: Interval)
        ensures
            r == Interval::union(*a, *b),
    {
        let min = if a.min.le(b.min) {
            a.min
        } else {
            b.min
        };
        let max = if a.max.ge(b.max) {
            a.max
        } else {
            b.max
        };
        Interval { min, max }
    }

    #[verifier::when_used_as_spec(contains_spec)]
    pub fn contains(self, x: Scalar) -> (r: bool)
        ensures
            r == self.contains_spec(x),
    {
        self.min.le(x) && x.le(self.max)
    }

    #[verifier::when_used_as_spec(surrounds_spec)]
    pub fn surrounds(self, x: Scalar) -> (r: bool)
        ensures
            r == self.surrounds_spec(x),
    {
        self.min.lt(x) && x.lt(self.max)
    }

    #[verifier::when_used_as_spec(clamp_spec)]
    pub fn clamp(self, x: Scalar) -> (r: Scalar)
        ensures
            r == self.clamp_spec(x),
    {
        if x.lt(self.min) {
            return self.min;
        }
        if x.gt(self.max) {
            return self.max;
        }
        x
    }
}

impl Default for Interval {
    fn default() -> (r: Interval)
        ensures
            r == Interval::empty_spec(),
    {
        Interval { min: Scalar { bits: INFINITY_BITS }, max: Scalar { bits: NEG_INFINITY_BITS } }
    }
}

/// An image in the plain PPM format: its width and height, and its pixels
/// row by row from the top.
#[derive(Debug, PartialEq, Eq)]
pub struct PPM {
    pub width: u32,
    pub height: u32,
    pub pixels: Vec<Rgb>,
}

/// The head of the file: the magic number, the width and the height, and
/// the greatest value of a channel.
pub open spec fn header(width: u32, height: u32) -> Seq<u8> {
    seq![80u8, 51u8, 10u8] + decimal(width as nat) + seq![32u8] + decimal(height as nat) + seq![
        10u8,
        50u8,
        53u8,
        53u8,
        10u8,
    ]
}

/// The lines of the first `n` pixels.
pub open spec fn body(pixels: Seq<Rgb>, n: nat) -> Seq<u8>
    decreases n,
{
    if n == 0 {
        Seq::empty()
    } else {
        body(pixels, (n - 1) as nat) + pixel_line(pixels[n - 1])
    }
}

impl PPM {
    pub fn new(width: u32, height: u32) -> (ppm: PPM)
        ensures
            ppm.width == width,
            ppm.height == height,
            ppm.pixels@ == Seq::<Rgb>::empty(),
    {
        PPM { width, height, pixels: Vec::new() }
    }

    pub fn push(&mut self, color: Rgb)
        ensures
            final(self).width == old(self).width,
            final(self).height == old(self).height,
            final(self).pixels@ == old(self).pixels@.push(color),
    {
        self.pixels.push(color);
    }

    /// Appends the image as text: the head, then a line for each pixel of
    /// each row. The image must hold a pixel for every place of its raster.
    pub fn write_to_buffer(&self, writer: &mut Vec<u8>)
        requires
            self.width * self.height <= self.pixels@.len(),
        ensures
            final(writer)@ == old(writer)@ + header(self.width, self.height) + body(
                self.pixels@,
                (self.width * self.height) as nat,
            ),
    {
        let w = self.width;
        let h = self.height;
        writer.push(80);
        writer.push(51);
        writer.push(10);
        write_decimal(writer, w);
        writer.push(32);
        write_decimal(writer, h);
        writer.push(10);
        writer.push(50);
        writer.push(53);
        writer.push(53);
        writer.push(10);
        let ghost head = old(writer)@ + header(w, h);
        assert(writer@ =~= head);
        let mut j: u32 = 0;
        while j < h
            invariant
                j <= h,
                w == self.width,
                h == self.height,
                w * h <= self.pixels@.len(),
                writer@ == head + body(self.pixels@, (j * w) as nat),
            decreases h - j,
        {
            let mut i: u32 = 0;
            while i < w
                invariant
                    i <= w,
                    j < h,
                    w == self.width,
                    h == self.height,
                    w * h <= self.pixels@.len(),
                    writer@ == head + body(self.pixels@, (j * w + i) as nat),
                decreases w - i,
            {
                assert(j * w + i < w * h) by (nonlinear_arith)
                    requires
                        i < w,
                        j < h,
                ;
                let len = self.pixels.len();
                assert(j * w <= j * w + i < len);
                let at: usize = j as usize * w as usize + i as usize;
                let pixel = self.pixels[at];
                let ghost before = writer@;
                Color::write_io(pixel.r, pixel.g, pixel.b, writer);
                assert(writer@ =~= head + body(self.pixels@, (j * w + i + 1) as nat)) by {
                    assert(body(self.pixels@, (j * w + i + 1) as nat) == body(
                        self.pixels@,
                        (j * w + i) as nat,
                    ) + pixel_line(self.pixels@[j * w + i]));
                }
                i = i + 1;
            }
            assert((j + 1) * w == j * w + w) by (nonlinear_arith);
            j = j + 1;
        }
        assert(h * w == w * h) by (nonlinear_arith);
    }
}

/// The empty interval is a left unit of the union, whatever the other holds.
pub proof fn lemma_union_empty_left(x: Interval)
    ensures
        Interval::union(Interval::empty_spec(), x) == x,
{
}

/// The empty interval is a right unit of the union where the other's bounds
/// are no NaNs.
pub proof fn lemma_union_empty_right(x: Interval)
    requires
        !x.min.nan(),
        !x.max.nan(),
    ensures
        Interval::union(x, Interval::empty_spec()) == x,
{
}

/// The union holds whatever either interval holds.
pub proof fn lemma_union_contains(a: Interval, b: Interval, x: Scalar)
    requires
        !a.min.nan(),
        !a.max.nan(),
        !b.min.nan(),
        !b.max.nan(),
        a.contains_spec(x) || b.contains_spec(x),
    ensures
        Interval::union(a, b).contains_spec(x),
{
}

/// Without NaN bounds the union does not depend on the order of the two,
/// as far as numbers go.
pub proof fn lemma_union_commutes(a: Interval, b: Interval)
    requires
        !a.min.nan(),
        !a.max.nan(),
        !b.min.nan(),
        !b.max.nan(),
    ensures
        Interval::union(a, b).min.same_number(Interval::union(b, a).min),
        Interval::union(a, b).max.same_number(Interval::union(b, a).max),
{
}

/// The universe contains every number, and surrounds every finite one.
pub proof fn lemma_universe_holds_all(x: Scalar)
    requires
        !x.nan(),
    ensures
        Interval::universe_spec().contains_spec(x),
        x.magnitude() < INFINITY_BITS ==> Interval::universe_spec().surrounds_spec(x),
        Interval::empty_spec().is_empty(),
{
}

/// An empty interval contains and surrounds nothing.
pub proof fn lemma_empty_holds_nothing(i: Interval, x: Scalar)
    requires
        i.is_empty(),
    ensures
        !i.contains_spec(x),
        !i.surrounds_spec(x),
{
}

/// What `clamp` returns lies in the interval, where the interval is not
/// empty and the argument is no NaN; an argument inside it comes back unchanged.
pub proof fn lemma_clamp(i: Interval, x: Scalar)
    requires
        i.min.le_spec(i.max),
        !x.nan(),
    ensures
        i.contains_spec(i.clamp_spec(x)),
        i.contains_spec(x) ==> i.clamp_spec(x) == x,
{
}

} // verus!
