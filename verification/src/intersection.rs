//! Intersections of a ray with shapes of the arena, and lists of them.
//!
//! The distance along the ray is carried as a value of type `T`; this crate
//! only moves it around, it never computes with it.

use vstd::prelude::*;
use crate::shape::ShapeIdx;

verus! {

/// A ray hit on the shape at arena index `shape`, at distance `t`.
#[derive(Clone, Copy, Debug)]
pub struct Intersection<T> {
    pub t: T,
    pub shape: ShapeIdx,
}

impl<T: Copy> Intersection<T> {
    pub fn new(t: T, shape: ShapeIdx) -> (r: Intersection<T>)
        ensures
            r == (Intersection { t, shape }),
    {
        Intersection { t, shape }
    }

    pub fn get_t(&self) -> (r: T)
        ensures
            r == self.t,
    {
        self.t
    }

    pub fn get_shape(&self) -> (r: ShapeIdx)
        ensures
            r == self.shape,
    {
        self.shape
    }
}

/// An ordered list of intersections.
pub struct IntersectionList<T> {
    pub list: Vec<Intersection<T>>,
}

impl<T> View for IntersectionList<T> {
    type V = Seq<Intersection<T>>;

    open spec fn view(&self) -> Seq<Intersection<T>> {
        self.list@
    }
}

impl<T: Copy> IntersectionList<T> {
    pub fn new() -> (r: IntersectionList<T>)
        ensures
            r@ == Seq::<Intersection<T>>::empty(),
    {
        IntersectionList { list: Vec::new() }
    }

    pub fn add(&mut self, i: Intersection<T>)
        ensures
            final(self)@ == old(self)@.push(i),
    {
        self.list.push(i);
    }

    pub fn get_intersections(&self) -> (r: &Vec<Intersection<T>>)
        ensures
            r@ == self@,
    {
        &self.list
    }
}

} // verus!
