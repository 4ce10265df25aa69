//! The shape catalogue: what an object looks like, and how it is written
//! into the packed buffers.
//!
//! Every number that ends up in a buffer is carried as a 32-bit word holding
//! the bit pattern of an IEEE 754 single-precision value. The library moves
//! such words around and never computes with them.

use vstd::prelude::*;

verus! {

/// The word for `0.0`.
pub const ZERO: u32 = 0x0000_0000;

/// The word for `1.0`.
pub const ONE: u32 = 0x3F80_0000;

/// The word for `2.0`.
pub const TWO: u32 = 0x4000_0000;

/// The word for negative infinity.
pub const NEG_INFINITY: u32 = 0xFF80_0000;

/// Number of words an object without its placement encodes to.
pub const OBJECT_WORDS: usize = 8;

/// A signed-distance-field shape. The parameters are words.
#[derive(Clone, Copy, Debug, PartialEq, Eq)]
pub enum SDF {
    /// A circle, by its radius.
    Circle(u32),
    /// A triangle, by its width and height.
    Triangle(u32, u32),
    /// A rectangle, by its half width and half height.
    Rectangle(u32, u32),
}

impl Default for SDF {
    fn default() -> (r: SDF)
        ensures
            r == SDF::Circle(ZERO),
    {
        SDF::Circle(ZERO)
    }
}

impl SDF {
    /// The word that tells the renderer which shape follows: `0.0` for a
    /// circle, `1.0` for a rectangle, `2.0` for a triangle.
    pub open spec fn kind_code(self) -> u32 {
        match self {
            SDF::Circle(_) => ZERO,
            SDF::Rectangle(_, _) => ONE,
            SDF::Triangle(_, _) => TWO,
        }
    }

    /// The encoding of a shape: its kind code and two parameters. A circle
    /// has one parameter; its third word is `0.0`.
    pub open spec fn words(self) -> Seq<u32> {
        match self {
            SDF::Circle(r) => seq![ZERO, r, ZERO],
            SDF::Rectangle(hw, hh) => seq![ONE, hw, hh],
            SDF::Triangle(w, h) => seq![TWO, w, h],
        }
    }

    /// Encodes the shape.
    pub fn as_words(&self) -> (w: [u32; 3])
        ensures
            w@ == self.words(),
            w@[0] == self.kind_code(),
    {
        let w = match self {
            SDF::Circle(r) => [ZERO, *r, ZERO],
            SDF::Rectangle(hw, hh) => [ONE, *hw, *hh],
            SDF::Triangle(w, h) => [TWO, *w, *h],
        };
        assert(w@ =~= self.words());
        w
    }
}

/// A colour as four words: red, green, blue and alpha, each meant to lie in
/// `[0.0, 1.0]`.
#[derive(Clone, Copy, Debug, PartialEq, Eq)]
pub struct Rgba {
    pub r: u32,
    pub g: u32,
    pub b: u32,
    pub a: u32,
}

impl Default for Rgba {
    /// Opaque white.
    fn default() -> (c: Rgba)
        ensures
            c == (Rgba { r: ONE, g: ONE, b: ONE, a: ONE }),
    {
        Rgba { r: ONE, g: ONE, b: ONE, a: ONE }
    }
}

impl Rgba {
    /// An opaque colour.
    pub fn rgb(r: u32, g: u32, b: u32) -> (c: Rgba)
        ensures
            c == (Rgba { r, g, b, a: ONE }),
    {
        Rgba { r, g, b, a: ONE }
    }
}

/// A scene object: a shape, a noise weight and a colour.
#[derive(Clone, Copy, Debug, PartialEq, Eq)]
pub struct SDFObject {
    pub function: SDF,
    pub noise_weight: u32,
    pub color: Rgba,
}

impl SDFObject {
    pub fn new(sdf: SDF, color: Rgba, noise_weight: u32) -> (o: SDFObject)
        ensures
            o == (SDFObject { function: sdf, noise_weight, color }),
    {
        SDFObject { function: sdf, noise_weight, color }
    }

    /// The encoding of an object without its placement: the shape's three
    /// words, the noise weight, then red, green, blue and alpha.
    pub open spec fn words(self) -> Seq<u32> {
        self.function.words() + seq![
            self.noise_weight,
            self.color.r,
            self.color.g,
            self.color.b,
            self.color.a,
        ]
    }

    /// Encodes the object.
    pub fn as_words(&self) -> (w: [u32; 8])
        ensures
            w@ == self.words(),
    {
        let f = self.function.as_words();
        let w = [
            f[0],
            f[1],
            f[2],
            self.noise_weight,
            self.color.r,
            self.color.g,
            self.color.b,
            self.color.a,
        ];
        assert(w@ =~= self.words());
        w
    }

    /// The object whose encoding ends the packed object buffer: a circle of
    /// radius negative infinity, in the default colour, without noise.
    pub open spec fn spec_sentinel() -> SDFObject {
        SDFObject {
            function: SDF::Circle(NEG_INFINITY),
            noise_weight: ZERO,
            color: Rgba { r: ONE, g: ONE, b: ONE, a: ONE },
        }
    }

    /// Builds the terminating object.
    pub fn sentinel() -> (o: SDFObject)
        ensures
            o == Self::spec_sentinel(),
            o.words() == seq![ZERO, NEG_INFINITY, ZERO, ZERO, ONE, ONE, ONE, ONE],
    {
        let o = SDFObject::new(SDF::Circle(NEG_INFINITY), Rgba::default(), ZERO);
        assert(o.words() =~= seq![ZERO, NEG_INFINITY, ZERO, ZERO, ONE, ONE, ONE, ONE]);
        o
    }
}

} // verus!
