//! Points and directions in space, with component-wise arithmetic. Every
//! operation rounds each component as it is formed.
use crate::scalar::Scalar;
use crate::scalar::ONE_BITS;
use vstd::prelude::*;

verus! {

/// A point or a direction.
#[derive(Clone, Copy, Debug, PartialEq, Eq, Structural)]
pub struct Vector {
    pub x: Scalar,
    pub y: Scalar,
    pub z: Scalar,
}

/// The inner product, summed from x to z.
pub open spec fn dot(a: Vector, b: Vector) -> Scalar {
    a.x.product(b.x).sum(a.y.product(b.y)).sum(a.z.product(b.z))
}

/// The vector product.
pub open spec fn cross(a: Vector, b: Vector) -> Vector {
    Vector {
        x: a.y.product(b.z).difference(b.y.product(a.z)),
        y: a.z.product(b.x).difference(b.z.product(a.x)),
        z: a.x.product(b.y).difference(b.x.product(a.y)),
    }
}

pub open spec fn vector_sum(a: Vector, b: Vector) -> Vector {
    Vector { x: a.x.sum(b.x), y: a.y.sum(b.y), z: a.z.sum(b.z) }
}

pub open spec fn vector_difference(a: Vector, b: Vector) -> Vector {
    Vector { x: a.x.difference(b.x), y: a.y.difference(b.y), z: a.z.difference(b.z) }
}

pub open spec fn vector_scaled(a: Vector, s: Scalar) -> Vector {
    Vector { x: a.x.product(s), y: a.y.product(s), z: a.z.product(s) }
}

pub open spec fn vector_quotient(a: Vector, s: Scalar) -> Vector {
    Vector { x: a.x.quotient(s), y: a.y.quotient(s), z: a.z.quotient(s) }
}

pub open spec fn length(a: Vector) -> Scalar {
    dot(a, a).square_root()
}

/// The vector scaled by the reciprocal of its length.
pub open spec fn unit(a: Vector) -> Vector {
    vector_scaled(a, (Scalar { bits: ONE_BITS }).quotient(length(a)))
}

impl Vector {
    pub open spec fn negated(self) -> Vector {
        Vector { x: self.x.negated(), y: self.y.negated(), z: self.z.negated() }
    }

    pub open spec fn zeros() -> Vector {
        Vector { x: Scalar { bits: 0 }, y: Scalar { bits: 0 }, z: Scalar { bits: 0 } }
    }

    pub open spec fn unit_x() -> Vector {
        Vector { x: Scalar { bits: ONE_BITS }, y: Scalar { bits: 0 }, z: Scalar { bits: 0 } }
    }

    pub open spec fn unit_y() -> Vector {
        Vector { x: Scalar { bits: 0 }, y: Scalar { bits: ONE_BITS }, z: Scalar { bits: 0 } }
    }

    pub open spec fn unit_z() -> Vector {
        Vector { x: Scalar { bits: 0 }, y: Scalar { bits: 0 }, z: Scalar { bits: ONE_BITS } }
    }

    pub fn new(x: Scalar, y: Scalar, z: Scalar) -> (r: Vector)
        ensures
            r == (Vector { x, y, z }),
    {
        Vector { x, y, z }
    }

    pub fn zero() -> (r: Vector)
        ensures
            r == Vector::zeros(),
    {
        Vector { x: Scalar { bits: 0 }, y: Scalar { bits: 0 }, z: Scalar { bits: 0 } }
    }

    pub fn x_axis() -> (r: Vector)
        ensures
            r == Vector::unit_x(),
    {
        Vector { x: Scalar { bits: ONE_BITS }, y: Scalar { bits: 0 }, z: Scalar { bits: 0 } }
    }

    pub fn y_axis() -> (r: Vector)
        ensures
            r == Vector::unit_y(),
    {
        Vector { x: Scalar { bits: 0 }, y: Scalar { bits: ONE_BITS }, z: Scalar { bits: 0 } }
    }

    pub fn z_axis() -> (r: Vector)
        ensures
            r == Vector::unit_z(),
    {
        Vector { x: Scalar { bits: 0 }, y: Scalar { bits: 0 }, z: Scalar { bits: ONE_BITS } }
    }

    pub fn neg(self) -> (r: Vector)
        ensures
            r == self.negated(),
    {
        Vector { x: self.x.neg(), y: self.y.neg(), z: self.z.neg() }
    }

    pub fn dot(self, other: Vector) -> (r: Scalar)
        ensures
            r == dot(self, other),
    {
        self.x.times(other.x).plus(self.y.times(other.y)).plus(self.z.times(other.z))
    }

    pub fn cross(self, other: Vector) -> (r: Vector)
        ensures
            r == cross(self, other),
    {
        Vector {
            x: self.y.times(other.z).minus(other.y.times(self.z)),
            y: self.z.times(other.x).minus(other.z.times(self.x)),
            z: self.x.times(other.y).minus(other.x.times(self.y)),
        }
    }

    pub fn plus(self, other: Vector) -> (r: Vector)
        ensures
            r == vector_sum(self, other),
    {
        Vector {
            x: self.x.plus(other.x),
            y: self.y.plus(other.y),
            z: self.z.plus(other.z),
        }
    }

    pub fn minus(self, other: Vector) -> (r: Vector)
        ensures
            r == vector_difference(self, other),
    {
        Vector {
            x: self.x.minus(other.x),
            y: self.y.minus(other.y),
            z: self.z.minus(other.z),
        }
    }

    pub fn times(self, s: Scalar) -> (r: Vector)
        ensures
            r == vector_scaled(self, s),
    {
        Vector { x: self.x.times(s), y: self.y.times(s), z: self.z.times(s) }
    }

    pub fn over(self, s: Scalar) -> (r: Vector)
        ensures
            r == vector_quotient(self, s),
    {
        Vector { x: self.x.over(s), y: self.y.over(s), z: self.z.over(s) }
    }

    pub fn length(self) -> (r: Scalar)
        ensures
            r == length(self),
    {
        self.dot(self).sqrt()
    }

    pub fn normalize(self) -> (r: Vector)
        ensures
            r == unit(self),
    {
        self.times((Scalar { bits: ONE_BITS }).over(self.length()))
    }
}

} // verus!
