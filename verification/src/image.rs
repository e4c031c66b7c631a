//! Decoded images.
use vstd::prelude::*;

verus! {

/// One component of an image on its own grid.
#[derive(Debug, Clone, PartialEq, Eq)]
pub struct DecodedComponent {
    /// Width in samples.
    pub width: u32,
    /// Height in samples.
    pub height: u32,
    /// Bit depth of the samples.
    pub precision_bits: u8,
    /// Whether the samples are signed.
    pub is_signed: bool,
    /// Horizontal distance of the samples on the reference grid.
    pub h_separation: u8,
    /// Vertical distance of the samples on the reference grid.
    pub v_separation: u8,
    /// The samples, row by row.
    pub samples: Vec<i32>,
}

/// A component, as values.
pub struct ComponentView {
    pub width: u32,
    pub height: u32,
    pub precision_bits: u8,
    pub is_signed: bool,
    pub h_separation: u8,
    pub v_separation: u8,
    pub samples: Seq<i32>,
}

impl View for DecodedComponent {
    type V = ComponentView;

    open spec fn view(&self) -> ComponentView {
        ComponentView {
            width: self.width,
            height: self.height,
            precision_bits: self.precision_bits,
            is_signed: self.is_signed,
            h_separation: self.h_separation,
            v_separation: self.v_separation,
            samples: self.samples@,
        }
    }
}

/// A decoded image: its size and its components.
#[derive(Debug, Clone, PartialEq, Eq)]
pub struct DecodedImage {
    /// Width of the image area.
    pub width: u32,
    /// Height of the image area.
    pub height: u32,
    /// The components in order.
    pub components: Vec<DecodedComponent>,
}

/// An image, as values.
pub struct ImageView {
    pub width: u32,
    pub height: u32,
    pub components: Seq<ComponentView>,
}

/// Components, as values.
pub open spec fn component_views(s: Seq<DecodedComponent>) -> Seq<ComponentView> {
    Seq::new(s.len(), |i: int| s[i]@)
}

impl View for DecodedImage {
    type V = ImageView;

    open spec fn view(&self) -> ImageView {
        ImageView {
            width: self.width,
            height: self.height,
            components: component_views(self.components@),
        }
    }
}

/// Copies samples.
pub(crate) fn copy_samples(samples: &Vec<i32>) -> (v: Vec<i32>)
    ensures
        v@ == samples@,
{
    let mut v: Vec<i32> = Vec::with_capacity(samples.len());
    for i in 0..samples.len()
        invariant
            v@ == samples@.take(i as int),
    {
        v.push(samples[i]);
        assert(samples@.take(i + 1) =~= samples@.take(i as int).push(samples@[i as int]));
    }
    assert(v@ =~= samples@);
    v
}

/// Copies a component.
pub(crate) fn copy_component(c: &DecodedComponent) -> (d: DecodedComponent)
    ensures
        d@ == c@,
{
    DecodedComponent {
        width: c.width,
        height: c.height,
        precision_bits: c.precision_bits,
        is_signed: c.is_signed,
        h_separation: c.h_separation,
        v_separation: c.v_separation,
        samples: copy_samples(&c.samples),
    }
}

} // verus!
