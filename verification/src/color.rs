//! Colours: three channels from 0 to 1, and their way to a byte.
use crate::scalar::Scalar;
use crate::util::Interval;
use crate::vec3::Vec3;
use vstd::prelude::*;

verus! {

/// The pattern of 0.999: the brightest that a channel is written as.
pub const BRIGHTEST_BITS: u64 = 0x3fef_f7ce_d916_872b;

pub type Color = Vec3;

/// The range that a channel is clamped into before it is scaled to a byte:
/// from 0 to 0.999.
pub open spec fn intensity_spec() -> Interval {
    Interval { min: Scalar::zero(), max: Scalar { bits: BRIGHTEST_BITS } }
}

#[verifier::when_used_as_spec(intensity_spec)]
pub fn intensity() -> (r: Interval)
    ensures
        r == intensity_spec(),
{
    Interval { min: Scalar { bits: 0 }, max: Scalar { bits: BRIGHTEST_BITS } }
}

/// A linear channel in gamma 2: its square root where it is above zero,
/// and zero where it is not. `root` is the square root of the channel.
pub fn linear_to_gamma(linear_component: Scalar, root: Scalar) -> (r: Scalar)
    ensures
        r == if Scalar::zero().lt_spec(linear_component) {
            root
        } else {
            Scalar::zero()
        },
{
    if linear_component.gt(Scalar { bits: 0 }) {
        root
    } else {
        Scalar { bits: 0 }
    }
}

/// The channel that is scaled to a byte: the gamma-corrected one, clamped
/// into the range of intensities.
pub fn displayed(linear_component: Scalar, root: Scalar) -> (r: Scalar)
    ensures
        r == intensity_spec().clamp_spec(
            if Scalar::zero().lt_spec(linear_component) {
                root
            } else {
                Scalar::zero()
            },
        ),
{
    intensity().clamp(linear_to_gamma(linear_component, root))
}

/// A colour as it is written: one byte to a channel.
#[derive(Clone, Copy, Debug, PartialEq, Eq, Structural)]
pub struct Rgb {
    pub r: u8,
    pub g: u8,
    pub b: u8,
}

/// The decimal digits of a number, in ASCII, without leading zeros.
pub open spec fn decimal(n: nat) -> Seq<u8>
    decreases n,
{
    if n < 10 {
        seq![(48 + n) as u8]
    } else {
        decimal(n / 10).push((48 + n % 10) as u8)
    }
}

/// The line of a pixel: its three bytes in decimal, a space between them
/// and a line feed at the end.
pub open spec fn pixel_line(rgb: Rgb) -> Seq<u8> {
    decimal(rgb.r as nat) + seq![32u8] + decimal(rgb.g as nat) + seq![32u8] + decimal(
        rgb.b as nat,
    ) + seq![10u8]
}

/// Appends the decimal digits of a number.
pub fn write_decimal(w: &mut Vec<u8>, n: u32)
    ensures
        final(w)@ == old(w)@ + decimal(n as nat),
    decreases n,
{
    if n >= 10 {
        write_decimal(w, n / 10);
    }
    let digit: u8 = (n % 10) as u8;
    w.push(48 + digit);
    proof {
        if n >= 10 {
            assert(w@ =~= old(w)@ + decimal((n / 10) as nat).push((48 + n % 10) as u8));
        } else {
            assert(w@ =~= old(w)@ + seq![(48 + n) as u8]);
        }
    }
}

impl Vec3 {
    pub fn new(r: Scalar, g: Scalar, b: Scalar) -> (c: Color)
        ensures
            c == Vec3(r, g, b),
    {
        Vec3(r, g, b)
    }

    /// Appends the line of a pixel. The three bytes are the displayed
    /// channels times 256, cut to whole numbers.
    pub fn write_io(rbyte: u8, gbyte: u8, bbyte: u8, w: &mut Vec<u8>)
        ensures
            final(w)@ == old(w)@ + pixel_line(Rgb { r: rbyte, g: gbyte, b: bbyte }),
    {
        write_decimal(w, rbyte as u32);
        w.push(32);
        write_decimal(w, gbyte as u32);
        w.push(32);
        write_decimal(w, bbyte as u32);
        w.push(10);
        assert(w@ =~= old(w)@ + pixel_line(Rgb { r: rbyte, g: gbyte, b: bbyte }));
    }
}

/// A number below ten is written as one digit, one below a hundred as two,
/// and a byte never as more than three.
pub proof fn lemma_decimal_len(n: nat)
    ensures
        decimal(n).len() >= 1,
        n < 10 ==> decimal(n).len() == 1,
        10 <= n < 100 ==> decimal(n).len() == 2,
        100 <= n < 1000 ==> decimal(n).len() == 3,
        forall|k: int| 0 <= k < decimal(n).len() ==> 48 <= #[trigger] decimal(n)[k] <= 57,
    decreases n,
{
    if n >= 10 {
        lemma_decimal_len(n / 10);
    }
}

/// White: what glass lets through.
pub open spec fn white() -> Color {
    Vec3(Scalar::one(), Scalar::one(), Scalar::one())
}

/// A channel that is displayed lies between 0 and 0.999, whatever number
/// the root is; so 256 times it, cut to a whole number, is a byte.
pub proof fn lemma_displayed_in_range(linear_component: Scalar, root: Scalar)
    requires
        !root.nan(),
    ensures
        intensity_spec().contains_spec(
            intensity_spec().clamp_spec(
                if Scalar::zero().lt_spec(linear_component) {
                    root
                } else {
                    Scalar::zero()
                },
            ),
        ),
{
}

} // verus!
