use vstd::prelude::*;

use crate::cache::ColorCache;
use crate::pixel::{wrap, Pixel};

verus! {

/// Full-byte tag: three color bytes follow, alpha is inherited.
pub const RGB: u8 = 0b11111110;

/// Full-byte tag: four color bytes follow.
pub const RGBA: u8 = 0b11111111;

/// Two-bit tag of a cache lookup.
pub const INDEX: u8 = 0b00;

/// Two-bit tag of a small difference to the previous pixel.
pub const DIFF: u8 = 0b01;

/// Two-bit tag of a green-relative difference, with a second byte.
pub const LUMA: u8 = 0b10;

/// Two-bit tag of a repetition of the previous pixel.
pub const RUN: u8 = 0b11;

/// The first control byte that carries the two-bit tag `op`. Only the low
/// two bits of `op` count; the others are shifted out.
pub fn two_bit_op_start(op: u8) -> (r: u8)
    ensures
        r == (op * 64) % 256,
{
    assert(op << 6 == (op * 64) % 256) by (bit_vector);
    op << 6
}

/// The last control byte that carries the two-bit tag `op`. Only the low
/// two bits of `op` count; the others are shifted out.
pub fn two_bit_op_end(op: u8) -> (r: u8)
    ensures
        r == (op * 64) % 256 + 63,
{
    assert((op << 6) | 0b00111111 == (op * 64) % 256 + 63) by (bit_vector);
    (op << 6) | 0b00111111
}

/// One decoded opcode, with its fields as they stand in the stream
/// (before any bias is taken off).
#[derive(Clone, Copy, Debug, PartialEq, Eq, Structural)]
pub enum Op {
    Rgb { r: u8, g: u8, b: u8 },
    Rgba { r: u8, g: u8, b: u8, a: u8 },
    /// A slot of the color cache, 0..63.
    Index { index: u8 },
    /// Three two-bit deltas, each biased by 2.
    Diff { dr: u8, dg: u8, db: u8 },
    /// A six-bit green delta biased by 32, and red and blue deltas relative
    /// to it, four bits each, biased by 8.
    Luma { dg: u8, dr_dg: u8, db_dg: u8 },
    /// The six-bit field of a run: the run is one pixel longer.
    Run { run: u8 },
}

impl Op {
    /// The number of stream bytes the opcode occupies.
    pub open spec fn size(self) -> nat {
        match self {
            Op::Rgb { .. } => 4,
            Op::Rgba { .. } => 5,
            Op::Luma { .. } => 2,
            _ => 1,
        }
    }

    /// Each field fits in the bits it was read from.
    pub open spec fn wf(self) -> bool {
        match self {
            Op::Index { index } => index < 64,
            Op::Diff { dr, dg, db } => dr < 4 && dg < 4 && db < 4,
            Op::Luma { dg, dr_dg, db_dg } => dg < 64 && dr_dg < 16 && db_dg < 16,
            Op::Run { run } => run < 64,
            _ => true,
        }
    }

    /// The pixel a non-run opcode produces from the previous pixel and the
    /// cache; a run repeats the previous pixel.
    pub open spec fn spec_pixel(self, prev: Pixel, cache: Seq<Pixel>) -> Pixel {
        match self {
            Op::Rgb { r, g, b } => Pixel { r, g, b, a: prev.a },
            Op::Rgba { r, g, b, a } => Pixel { r, g, b, a },
            Op::Index { index } => cache[index as int],
            Op::Diff { dr, dg, db } => Pixel {
                r: wrap(prev.r + dr - 2),
                g: wrap(prev.g + dg - 2),
                b: wrap(prev.b + db - 2),
                a: prev.a,
            },
            Op::Luma { dg, dr_dg, db_dg } => Pixel {
                r: wrap(prev.r + (dg - 32) + (dr_dg - 8)),
                g: wrap(prev.g + (dg - 32)),
                b: wrap(prev.b + (dg - 32) + (db_dg - 8)),
                a: prev.a,
            },
            Op::Run { .. } => prev,
        }
    }
}

/// The opcode that starts at `pos`, or `None` where the bytes end before it does.
/// The two full-byte tags are matched before the two-bit tags.
pub open spec fn parse_op(bytes: Seq<u8>, pos: int) -> Option<Op> {
    if pos < 0 || pos >= bytes.len() {
        None
    } else {
        let c = bytes[pos];
        if c == RGB {
            if pos + 3 < bytes.len() {
                Some(Op::Rgb { r: bytes[pos + 1], g: bytes[pos + 2], b: bytes[pos + 3] })
            } else {
                None
            }
        } else if c == RGBA {
            if pos + 4 < bytes.len() {
                Some(
                    Op::Rgba {
                        r: bytes[pos + 1],
                        g: bytes[pos + 2],
                        b: bytes[pos + 3],
                        a: bytes[pos + 4],
                    },
                )
            } else {
                None
            }
        } else if c < 64 {
            Some(Op::Index { index: c })
        } else if c < 128 {
            Some(
                Op::Diff {
                    dr: ((c / 16) % 4) as u8,
                    dg: ((c / 4) % 4) as u8,
                    db: (c % 4) as u8,
                },
            )
        } else if c < 192 {
            if pos + 1 < bytes.len() {
                Some(
                    Op::Luma {
                        dg: (c % 64) as u8,
                        dr_dg: (bytes[pos + 1] / 16) as u8,
                        db_dg: (bytes[pos + 1] % 16) as u8,
                    },
                )
            } else {
                None
            }
        } else {
            Some(Op::Run { run: (c % 64) as u8 })
        }
    }
}

/// A parsed opcode is well formed and lies within the bytes.
pub proof fn lemma_parse_op_within(bytes: Seq<u8>, pos: int)
    requires
        parse_op(bytes, pos) is Some,
    ensures
        parse_op(bytes, pos)->0.wf(),
        pos + parse_op(bytes, pos)->0.size() <= bytes.len(),
{
}

/// Reads the opcode that starts at `pos`.
pub fn read_op(bytes: &[u8], pos: usize) -> (r: Option<Op>)
    ensures
        r == parse_op(bytes@, pos as int),
{
    if pos >= bytes.len() {
        return None;
    }
    let left = bytes.len() - pos;
    let c = bytes[pos];
    if c == RGB {
        if left > 3 {
            Some(Op::Rgb { r: bytes[pos + 1], g: bytes[pos + 2], b: bytes[pos + 3] })
        } else {
            None
        }
    } else if c == RGBA {
        if left > 4 {
            Some(
                Op::Rgba { r: bytes[pos + 1], g: bytes[pos + 2], b: bytes[pos + 3], a: bytes[pos + 4] },
            )
        } else {
            None
        }
    } else if c <= two_bit_op_end(INDEX) {
        Some(Op::Index { index: c })
    } else if c <= two_bit_op_end(DIFF) {
        assert((c >> 4) & 0b11 == (c / 16) % 4) by (bit_vector);
        assert((c >> 2) & 0b11 == (c / 4) % 4) by (bit_vector);
        assert(c & 0b11 == c % 4) by (bit_vector);
        Some(Op::Diff { dr: (c >> 4) & 0b11, dg: (c >> 2) & 0b11, db: c & 0b11 })
    } else if c <= two_bit_op_end(LUMA) {
        if left > 1 {
            let d = bytes[pos + 1];
            assert(c & 0b111111 == c % 64) by (bit_vector);
            assert(d >> 4 == d / 16) by (bit_vector);
            assert(d & 0b1111 == d % 16) by (bit_vector);
            Some(Op::Luma { dg: c & 0b111111, dr_dg: d >> 4, db_dg: d & 0b1111 })
        } else {
            None
        }
    } else {
        assert(c & 0b111111 == c % 64) by (bit_vector);
        Some(Op::Run { run: c & 0b111111 })
    }
}

proof fn lemma_wrap_period(x: int)
    ensures
        wrap(x + 256) == wrap(x),
        wrap(x - 256) == wrap(x),
{
}

impl Op {
    /// The number of stream bytes the opcode occupies.
    pub fn byte_len(&self) -> (n: usize)
        ensures
            n == self.size(),
    {
        match self {
            Op::Rgb { .. } => 4,
            Op::Rgba { .. } => 5,
            Op::Luma { .. } => 2,
            _ => 1,
        }
    }

    /// The pixel this opcode produces; see `spec_pixel`.
    pub fn pixel(&self, prev: Pixel, cache: &ColorCache) -> (p: Pixel)
        requires
            self.wf(),
            cache.wf(),
        ensures
            p == self.spec_pixel(prev, cache@),
    {
        match *self {
            Op::Rgb { r, g, b } => Pixel::new(r, g, b, prev.a),
            Op::Rgba { r, g, b, a } => Pixel::new(r, g, b, a),
            Op::Index { index } => cache.get(index),
            Op::Diff { dr, dg, db } => {
                proof {
                    lemma_wrap_period(prev.r + dr - 2);
                    lemma_wrap_period(prev.g + dg - 2);
                    lemma_wrap_period(prev.b + db - 2);
                }
                prev.wrapping_add(dr.wrapping_sub(2), dg.wrapping_sub(2), db.wrapping_sub(2))
            },
            Op::Luma { dg, dr_dg, db_dg } => {
                let vg = dg.wrapping_sub(32);
                let vr = vg.wrapping_add(dr_dg).wrapping_sub(8);
                let vb = vg.wrapping_add(db_dg).wrapping_sub(8);
                proof {
                    lemma_wrap_period(prev.g + dg - 32);
                    lemma_wrap_period(prev.r + (dg - 32) + (dr_dg - 8));
                    lemma_wrap_period(prev.r + (dg - 32) + (dr_dg - 8) - 256);
                    lemma_wrap_period(prev.b + (dg - 32) + (db_dg - 8));
                    lemma_wrap_period(prev.b + (dg - 32) + (db_dg - 8) - 256);
                }
                prev.wrapping_add(vr, vg, vb)
            },
            Op::Run { .. } => prev,
        }
    }
}

} // verus!
