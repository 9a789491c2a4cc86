//! The size of an image and its level of anti-aliasing.

use crate::num::is_power_of_2;
use vstd::arithmetic::power2::is_pow2;
use vstd::prelude::*;

verus! {

/// `num_integer::Roots::sqrt` on a `usize`: the square root of `x`, rounded
/// down. The crate documents the result `r` by `r * r <= x < (r + 1) * (r + 1)`.
#[verifier::external_body]
fn integer_sqrt(x: usize) -> (r: usize)
    ensures
        r * r <= x < (r + 1) * (r + 1),
{
    num_integer::Roots::sqrt(&x)
}

/// The number of samples that are taken for one pixel: a power of two.
#[derive(Clone, Copy)]
pub struct AALevel {
    aa: usize,
}

impl AALevel {
    /// The number of samples for one pixel.
    pub closed spec fn samples(&self) -> nat {
        self.aa as nat
    }

    #[verifier::type_invariant]
    spec fn well_formed(&self) -> bool {
        is_pow2(self.aa as int)
    }

    /// The level of `aa` samples for one pixel, where `aa` is a power of two.
    pub fn new(aa: usize) -> (r: Option<Self>)
        ensures
            r is Some <==> is_pow2(aa as int),
            r matches Some(level) ==> level.samples() == aa,
    {
        if aa == 1 {
            proof {
                reveal(is_pow2);
            }
            return Some(Self { aa });
        }
        if is_power_of_2(aa) {
            return Some(Self { aa });
        }
        return None;
    }

    pub fn get(&self) -> (r: usize)
        ensures
            r == self.samples(),
            is_pow2(r as int),
    {
        proof {
            use_type_invariant(self);
        }
        self.aa
    }

    /// The side of the largest square grid of samples that the level holds:
    /// the square root of the number of samples, rounded down.
    pub fn pixels_per_side(&self) -> (r: usize)
        ensures
            r * r <= self.samples() < (r + 1) * (r + 1),
            r >= 1,
    {
        proof {
            use_type_invariant(self);
            reveal(is_pow2);
        }
        let r = integer_sqrt(self.aa);
        assert(r >= 1) by (nonlinear_arith)
            requires
                self.aa >= 1,
                self.aa < (r + 1) * (r + 1),
        ;
        r
    }
}

/// The size of an image in pixels, neither side zero, and its level of
/// anti-aliasing. The number of pixels fits in a `usize`.
#[derive(Clone, Copy)]
pub struct Resolution {
    width: usize,
    height: usize,
    aa: AALevel,
}

impl Resolution {
    pub closed spec fn spec_width(&self) -> nat {
        self.width as nat
    }

    pub closed spec fn spec_height(&self) -> nat {
        self.height as nat
    }

    pub closed spec fn spec_aa(&self) -> AALevel {
        self.aa
    }

    /// The number of pixels of the image.
    pub open spec fn spec_pixels(&self) -> nat {
        self.spec_width() * self.spec_height()
    }

    #[verifier::type_invariant]
    spec fn well_formed(&self) -> bool {
        &&& self.width > 0
        &&& self.height > 0
        &&& self.width * self.height <= usize::MAX
    }

    /// The resolution of an image of `width` by `height` pixels. There is
    /// none where a side is zero or the image has more pixels than a `usize`
    /// can count.
    pub fn new(width: usize, height: usize, aa: AALevel) -> (r: Option<Self>)
        ensures
            r is Some <==> width > 0 && height > 0 && width * height <= usize::MAX,
            r matches Some(res) ==> {
                &&& res.spec_width() == width
                &&& res.spec_height() == height
                &&& res.spec_aa() == aa
            },
    {
        if width == 0 || height == 0 {
            return None;
        }
        match width.checked_mul(height) {
            Some(_) => Some(Self { width, height, aa }),
            None => None,
        }
    }

    pub fn width(&self) -> (r: usize)
        ensures
            r == self.spec_width(),
            r > 0,
    {
        proof {
            use_type_invariant(self);
        }
        self.width
    }

    pub fn height(&self) -> (r: usize)
        ensures
            r == self.spec_height(),
            r > 0,
    {
        proof {
            use_type_invariant(self);
        }
        self.height
    }

    pub fn aa(&self) -> (r: AALevel)
        ensures
            r == self.spec_aa(),
    {
        self.aa
    }

    /// The number of pixels of the image.
    pub fn pixels(&self) -> (r: usize)
        ensures
            r == self.spec_pixels(),
            r > 0,
    {
        proof {
            use_type_invariant(self);
            assert(self.width * self.height > 0) by (nonlinear_arith)
                requires
                    self.width > 0,
                    self.height > 0,
            ;
        }
        self.width * self.height
    }
}

} // verus!
