use vstd::prelude::*;

verus! {

/// The dot product of two vectors.
pub trait Dot<Rhs = Self> {
    type Output;

    fn dot(self, rhs: Rhs) -> Self::Output;
}

/// The cross product of two vectors.
pub trait Cross<Rhs = Self> {
    type Output;

    fn cross(self, rhs: Rhs) -> Self::Output;
}

/// Composition of transforms: `parent.concat(child)` places `child` in the frame
/// of `parent`.
pub trait Concat<Rhs = Self> {
    type Output;

    fn concat(self, rhs: Rhs) -> Self::Output;
}

#[derive(Clone, Copy, Debug, Default)]
pub struct IV2(pub [i32; 2]);

#[derive(Clone, Copy, Debug, Default)]
pub struct UV2(pub [u32; 2]);

#[derive(Clone, Copy, Debug, Default)]
pub struct IV3(pub [i32; 3]);

#[derive(Clone, Copy, Debug, Default)]
pub struct UV3(pub [u32; 3]);

#[derive(Clone, Copy, Debug, Default)]
pub struct IV4(pub [i32; 4]);

#[derive(Clone, Copy, Debug, Default)]
pub struct UV4(pub [u32; 4]);

} // verus!
