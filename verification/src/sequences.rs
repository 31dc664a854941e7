//! Ordered lists of shapes: sequences, hold-affected orders, and short
//! fixed runs with a bounded capacity.

use vstd::prelude::*;

use crate::shapes::Shape;

verus! {

/// An ordered list of shapes, consumed strictly from the head.
#[derive(Clone, PartialEq, Eq, Hash, Debug)]
pub struct ShapeSequence {
    shapes: Vec<Shape>,
}

impl View for ShapeSequence {
    type V = Seq<Shape>;

    closed spec fn view(&self) -> Seq<Shape> {
        self.shapes@
    }
}

impl ShapeSequence {
    /// Wraps a list of shapes as a sequence.
    pub fn new(shapes: Vec<Shape>) -> (r: ShapeSequence)
        ensures
            r@ == shapes@,
    {
        ShapeSequence { shapes }
    }

    /// The shapes of the sequence, in order.
    pub fn shapes(&self) -> (r: &Vec<Shape>)
        ensures
            r@ == self@,
    {
        &self.shapes
    }
}

/// An ordered list of shapes as they arrive; a hold mechanic may consume
/// them out of head order.
#[derive(Clone, PartialEq, Eq, Hash, Debug)]
pub struct ShapeOrder {
    shapes: Vec<Shape>,
}

impl View for ShapeOrder {
    type V = Seq<Shape>;

    closed spec fn view(&self) -> Seq<Shape> {
        self.shapes@
    }
}

impl ShapeOrder {
    /// Wraps a list of shapes as an order.
    pub fn new(shapes: Vec<Shape>) -> (r: ShapeOrder)
        ensures
            r@ == shapes@,
    {
        ShapeOrder { shapes }
    }

    /// The shapes of the order, in order of arrival.
    pub fn shapes(&self) -> (r: &Vec<Shape>)
        ensures
            r@ == self@,
    {
        &self.shapes
    }
}

/// The greatest number of shapes a `BitShapes` can hold.
pub const BIT_SHAPES_CAPACITY: usize = 21;

/// A short fixed run of shapes with a bounded capacity.
#[derive(Clone, PartialEq, Eq, Hash, Debug)]
pub struct BitShapes {
    shapes: Vec<Shape>,
}

impl View for BitShapes {
    type V = Seq<Shape>;

    closed spec fn view(&self) -> Seq<Shape> {
        self.shapes@
    }
}

impl BitShapes {
    /// Wraps a list of shapes; refuses one longer than the capacity.
    pub fn try_from(shapes: Vec<Shape>) -> (r: Option<BitShapes>)
        ensures
            shapes@.len() <= BIT_SHAPES_CAPACITY ==> (r matches Some(b) && b@ == shapes@),
            shapes@.len() > BIT_SHAPES_CAPACITY ==> r is None,
    {
        if shapes.len() <= BIT_SHAPES_CAPACITY {
            Some(BitShapes { shapes })
        } else {
            None
        }
    }

    /// The shapes held, in order.
    pub fn to_vec(&self) -> (r: Vec<Shape>)
        ensures
            r@ == self@,
    {
        self.shapes.clone()
    }

    /// The number of shapes held.
    pub fn len(&self) -> (r: usize)
        ensures
            r == self@.len(),
    {
        self.shapes.len()
    }
}

} // verus!
