use vstd::prelude::*;

verus! {

/// Reduces an integer to a byte, modulo 256.
pub open spec fn wrap(x: int) -> u8 {
    (x % 256) as u8
}

/// One RGBA pixel.
#[derive(Clone, Copy, Debug, PartialEq, Eq, Structural)]
pub struct Pixel {
    pub r: u8,
    pub g: u8,
    pub b: u8,
    pub a: u8,
}

impl Pixel {
    /// The slot of the color cache that holds this pixel.
    pub open spec fn spec_hash(self) -> int {
        (3 * self.r + 5 * self.g + 7 * self.b + 11 * self.a) % 64
    }

    /// The pixel's bytes in R, G, B, A order.
    pub open spec fn bytes(self) -> Seq<u8> {
        seq![self.r, self.g, self.b, self.a]
    }

    pub fn new(r: u8, g: u8, b: u8, a: u8) -> (p: Pixel)
        ensures
            p == (Pixel { r, g, b, a }),
    {
        Pixel { r, g, b, a }
    }

    pub fn hash(&self) -> (h: usize)
        ensures
            h == self.spec_hash(),
            h < 64,
    {
        (self.r as usize * 3 + self.g as usize * 5 + self.b as usize * 7 + self.a as usize * 11) % 64
    }

    /// Adds the three deltas to the color components, each modulo 256; alpha is kept.
    pub fn wrapping_add(&self, r: u8, g: u8, b: u8) -> (p: Pixel)
        ensures
            p == (Pixel {
                r: wrap(self.r + r),
                g: wrap(self.g + g),
                b: wrap(self.b + b),
                a: self.a,
            }),
    {
        Pixel::new(self.r.wrapping_add(r), self.g.wrapping_add(g), self.b.wrapping_add(b), self.a)
    }

    pub fn flat(&self) -> (f: [u8; 4])
        ensures
            f@ == self.bytes(),
    {
        [self.r, self.g, self.b, self.a]
    }
}

} // verus!
