use vstd::prelude::*;

verus! {

/// Key of positive infinity, the largest key that stands for a number.
pub const INFINITY_KEY: i32 = 0x7F80_0000;

/// Key of the guard distance below which a hit counts as the surface
/// hitting itself: one thousandth, as a binary32 bit pattern.
pub const EPSILON_KEY: i32 = 0x3A83_126F;

/// A scalar of the scene, held as the integer that orders it.
///
/// The bit pattern of an IEEE-754 binary32 number is sign and magnitude.
/// `key` is the same pair in two's complement, so comparing two keys
/// compares the numbers they stand for, and both zeros share the key 0.
#[derive(Clone, Copy, Debug, PartialEq, Eq, Structural)]
pub struct Coord {
    pub key: i32,
}

/// The magnitude field of a bit pattern: everything but the sign bit.
pub open spec fn magnitude_of_bits(bits: u32) -> int {
    if bits < 0x8000_0000 {
        bits as int
    } else {
        bits - 0x8000_0000
    }
}

/// The key of a bit pattern: its magnitude, negated when the sign bit is set.
pub open spec fn key_of_bits(bits: u32) -> int {
    if bits < 0x8000_0000 {
        bits as int
    } else {
        0x8000_0000 - bits
    }
}

impl Coord {
    /// A key stands for a number when it lies between the two infinities.
    pub open spec fn is_number(self) -> bool {
        -INFINITY_KEY <= self.key <= INFINITY_KEY
    }

    /// Reads a binary32 bit pattern. Patterns beyond infinity are not
    /// numbers and have no key.
    pub fn from_bits(bits: u32) -> (r: Option<Coord>)
        ensures
            r is Some <==> magnitude_of_bits(bits) <= INFINITY_KEY,
            r is Some ==> r->0.key == key_of_bits(bits) && r->0.is_number(),
    {
        if bits < 0x8000_0000 {
            if bits <= 0x7F80_0000 {
                Some(Coord { key: bits as i32 })
            } else {
                None
            }
        } else {
            let magnitude: u32 = bits - 0x8000_0000;
            if magnitude <= 0x7F80_0000 {
                Some(Coord { key: -(magnitude as i32) })
            } else {
                None
            }
        }
    }

    /// The bit pattern of the number a key stands for. Zero comes back
    /// with a clear sign bit.
    pub fn to_bits(self) -> (bits: u32)
        requires
            self.is_number(),
        ensures
            key_of_bits(bits) == self.key,
            bits != 0x8000_0000,
    {
        if self.key >= 0 {
            self.key as u32
        } else {
            let magnitude: u32 = (-self.key) as u32;
            magnitude + 0x8000_0000
        }
    }

    /// The smaller of two scalars.
    pub fn min(self, other: Coord) -> (r: Coord)
        ensures
            r == lesser(self, other),
    {
        if self.key <= other.key {
            self
        } else {
            other
        }
    }

    /// The larger of two scalars.
    pub fn max(self, other: Coord) -> (r: Coord)
        ensures
            r == greater(self, other),
    {
        if self.key >= other.key {
            self
        } else {
            other
        }
    }
}

/// A pattern whose key stands for a number is one that `from_bits` reads:
/// what `to_bits` writes comes back as the same scalar.
pub proof fn lemma_bits_round_trip(c: Coord, bits: u32)
    requires
        c.is_number(),
        key_of_bits(bits) == c.key,
    ensures
        magnitude_of_bits(bits) <= INFINITY_KEY,
{
}

/// Among patterns of one sign, a larger magnitude is a number further from
/// zero; any negative pattern lies below any positive one.
pub proof fn lemma_key_orders_bits(a: u32, b: u32)
    ensures
        a < 0x8000_0000 && b < 0x8000_0000 ==> (key_of_bits(a) <= key_of_bits(b) <==> a <= b),
        a >= 0x8000_0000 && b >= 0x8000_0000 ==> (key_of_bits(a) <= key_of_bits(b) <==> a >= b),
        a >= 0x8000_0000 && b < 0x8000_0000 ==> key_of_bits(a) <= key_of_bits(b),
{
}

/// One of the three axes of space.
#[derive(Clone, Copy, Debug, PartialEq, Eq, Structural)]
pub enum Axis {
    X,
    Y,
    Z,
}

/// A point or a corner of a box, one ordered scalar per axis.
#[derive(Clone, Copy, Debug, PartialEq, Eq, Structural)]
pub struct Vec3 {
    pub x: Coord,
    pub y: Coord,
    pub z: Coord,
}

impl Vec3 {
    /// The key of the component on one axis.
    pub open spec fn at(self, axis: Axis) -> int {
        match axis {
            Axis::X => self.x.key as int,
            Axis::Y => self.y.key as int,
            Axis::Z => self.z.key as int,
        }
    }

    /// Every component of `self` is at most that of `other`.
    pub open spec fn le(self, other: Vec3) -> bool {
        self.x.key <= other.x.key && self.y.key <= other.y.key && self.z.key <= other.z.key
    }

    /// The corner with the given components.
    pub fn new(x: Coord, y: Coord, z: Coord) -> (r: Vec3)
        ensures
            r == (Vec3 { x, y, z }),
    {
        Vec3 { x, y, z }
    }

    /// The component on one axis.
    pub fn component(self, axis: Axis) -> (c: Coord)
        ensures
            c.key == self.at(axis),
    {
        match axis {
            Axis::X => self.x,
            Axis::Y => self.y,
            Axis::Z => self.z,
        }
    }

    /// The component-wise minimum.
    pub fn min(self, other: Vec3) -> (r: Vec3)
        ensures
            r == spec_min(self, other),
    {
        Vec3 { x: self.x.min(other.x), y: self.y.min(other.y), z: self.z.min(other.z) }
    }

    /// The component-wise maximum.
    pub fn max(self, other: Vec3) -> (r: Vec3)
        ensures
            r == spec_max(self, other),
    {
        Vec3 { x: self.x.max(other.x), y: self.y.max(other.y), z: self.z.max(other.z) }
    }
}

/// The smaller of two scalars, the first where they are level.
pub open spec fn lesser(a: Coord, b: Coord) -> Coord {
    if a.key <= b.key {
        a
    } else {
        b
    }
}

/// The larger of two scalars, the first where they are level.
pub open spec fn greater(a: Coord, b: Coord) -> Coord {
    if a.key >= b.key {
        a
    } else {
        b
    }
}

/// Component-wise minimum of two corners.
pub open spec fn spec_min(a: Vec3, b: Vec3) -> Vec3 {
    Vec3 { x: lesser(a.x, b.x), y: lesser(a.y, b.y), z: lesser(a.z, b.z) }
}

/// Component-wise maximum of two corners.
pub open spec fn spec_max(a: Vec3, b: Vec3) -> Vec3 {
    Vec3 { x: greater(a.x, b.x), y: greater(a.y, b.y), z: greater(a.z, b.z) }
}

} // verus!
