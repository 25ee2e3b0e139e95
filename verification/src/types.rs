use num_traits::ToPrimitive;
use vstd::prelude::*;

verus! {

/// Inclusive bounds on the four sides of a rectangle: `w..=e` along x and
/// `n..=s` along z.
#[derive(Clone, Copy, Debug)]
pub struct Edges<T> {
    pub n: T,
    pub e: T,
    pub s: T,
    pub w: T,
}

/// A horizontal coordinate or extent.
#[derive(Clone, Copy, Debug, PartialEq, Eq, Hash)]
pub struct Pair<T> {
    pub x: T,
    pub z: T,
}

/// `num_traits::ToPrimitive::to_usize` on an `isize`: the same number as a
/// `usize` where it is not negative, nothing otherwise.
#[verifier::external_body]
fn isize_to_usize(value: isize) -> (r: Option<usize>)
    ensures
        value >= 0 ==> r == Some(value as usize),
        value < 0 ==> r is None,
{
    value.to_usize()
}

impl Edges<isize> {
    /// Whether `point` lies inside the bounds, the edges included.
    pub open spec fn spec_contains(&self, point: &Pair<isize>) -> bool {
        self.w <= point.x <= self.e && self.n <= point.z <= self.s
    }

    /// Whether no side lies beyond the opposite one and the extents fit.
    pub open spec fn ordered(&self) -> bool {
        &&& self.w <= self.e
        &&& self.n <= self.s
        &&& self.e - self.w <= isize::MAX
        &&& self.s - self.n <= isize::MAX
    }

    pub fn contains(&self, point: &Pair<isize>) -> (r: bool)
        ensures
            r == self.spec_contains(point),
    {
        point.x >= self.w && point.x <= self.e && point.z >= self.n && point.z <= self.s
    }

    /// The number of cells along each axis.
    pub fn size(&self) -> (r: Pair<usize>)
        requires
            self.ordered(),
        ensures
            r.x == self.e - self.w + 1,
            r.z == self.s - self.n + 1,
    {
        let dx: Option<usize> = isize_to_usize(self.e - self.w);
        let dz: Option<usize> = isize_to_usize(self.s - self.n);
        Pair { x: dx.unwrap() + 1, z: dz.unwrap() + 1 }
    }
}

impl Edges<usize> {
    /// Whether `point` lies inside the bounds, the edges included.
    pub open spec fn spec_contains(&self, point: &Pair<usize>) -> bool {
        self.w <= point.x <= self.e && self.n <= point.z <= self.s
    }

    /// Whether no side lies beyond the opposite one and the extents fit.
    pub open spec fn ordered(&self) -> bool {
        &&& self.w <= self.e
        &&& self.n <= self.s
        &&& self.e - self.w < usize::MAX
        &&& self.s - self.n < usize::MAX
    }

    pub fn contains(&self, point: &Pair<usize>) -> (r: bool)
        ensures
            r == self.spec_contains(point),
    {
        point.x >= self.w && point.x <= self.e && point.z >= self.n && point.z <= self.s
    }

    /// The number of cells along each axis.
    pub fn size(&self) -> (r: Pair<usize>)
        requires
            self.ordered(),
        ensures
            r.x == self.e - self.w + 1,
            r.z == self.s - self.n + 1,
    {
        Pair { x: self.e - self.w + 1, z: self.s - self.n + 1 }
    }

    /// The bounds of a whole square grid of `size` cells a side.
    pub fn full(size: usize) -> (r: Edges<usize>)
        requires
            size > 0,
        ensures
            r.n == 0,
            r.w == 0,
            r.e == size - 1,
            r.s == size - 1,
    {
        Edges { n: 0, e: size - 1, s: size - 1, w: 0 }
    }
}

} // verus!
