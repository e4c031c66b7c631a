//! Decoded code-blocks (T.800 Annex D).
use vstd::prelude::*;

use crate::geometry::SubBandOrientation;
use crate::packet::tag_tree::lemma_cell_bound;

verus! {

/// A coefficient of a code-block.
#[derive(Debug, Clone, Copy, PartialEq, Eq, Structural)]
pub struct Coefficient {
    /// Magnitude.
    pub magnitude: u32,
    /// Whether it has become significant.
    pub sigma: bool,
    /// Whether it is negative.
    pub sign: bool,
    /// Whether it has been refined.
    pub already_refined: bool,
}

/// A rectangle of coefficients.
#[derive(Debug, PartialEq, Eq)]
pub struct CodeBlock {
    orientation: SubBandOrientation,
    width: usize,
    height: usize,
    coefficients: Vec<Coefficient>,
}

impl CodeBlock {
    /// There is one coefficient per place.
    #[verifier::type_invariant]
    spec fn filled(self) -> bool {
        self.coefficients@.len() == self.width * self.height
    }

    /// Orientation of the sub-band.
    pub closed spec fn o(self) -> SubBandOrientation {
        self.orientation
    }

    /// Width in coefficients.
    pub closed spec fn w(self) -> nat {
        self.width as nat
    }

    /// Height in coefficients.
    pub closed spec fn h(self) -> nat {
        self.height as nat
    }

    /// The coefficient in column `u` of row `v`.
    pub closed spec fn at(self, u: int, v: int) -> Coefficient {
        self.coefficients@[v * self.width + u]
    }

    /// A code-block with the given coefficients, row by row.
    pub fn from_coefficients(
        orientation: SubBandOrientation,
        width: usize,
        height: usize,
        coefficients: Vec<Coefficient>,
    ) -> (b: Self)
        requires
            coefficients@.len() == width * height,
        ensures
            b.o() == orientation,
            b.w() == width,
            b.h() == height,
            forall|u: int, v: int|
                #![trigger b.at(u, v)]
                0 <= u < width && 0 <= v < height ==> b.at(u, v) == coefficients@[v * width + u],
    {
        CodeBlock { orientation, width, height, coefficients }
    }

    /// Orientation of the sub-band.
    pub fn orientation(&self) -> (o: SubBandOrientation)
        ensures
            o == self.o(),
    {
        self.orientation
    }

    /// Width in coefficients.
    pub fn width(&self) -> (w: usize)
        ensures
            w == self.w(),
    {
        self.width
    }

    /// Height in coefficients.
    pub fn height(&self) -> (h: usize)
        ensures
            h == self.h(),
    {
        self.height
    }

    /// The coefficient in column `u` of row `v`.
    pub fn coefficient(&self, u: usize, v: usize) -> (c: Coefficient)
        requires
            u < self.w(),
            v < self.h(),
        ensures
            c == self.at(u as int, v as int),
    {
        proof {
            use_type_invariant(self);
            lemma_cell_bound(u as int, v as int, self.width as int, self.height as int);
            assert(v * self.width <= v * self.width + u);
            assert(self.coefficients.len() == self.coefficients@.len());
        }
        self.coefficients[v * self.width + u]
    }
}

} // verus!
