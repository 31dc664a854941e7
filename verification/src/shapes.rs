//! The seven piece shapes and sequences of them.

use vstd::prelude::*;

verus! {

/// One of the seven piece shapes.
#[derive(Copy, Clone, PartialEq, Eq, Structural, Hash, Debug)]
pub enum Shape {
    T,
    I,
    O,
    L,
    J,
    S,
    Z,
}

impl Shape {
    /// The canonical position of this shape in enumeration order.
    pub open spec fn index_spec(self) -> int {
        match self {
            Shape::T => 0,
            Shape::I => 1,
            Shape::O => 2,
            Shape::L => 3,
            Shape::J => 4,
            Shape::S => 5,
            Shape::Z => 6,
        }
    }

    /// Position of this shape in the canonical enumeration order.
    pub fn index(self) -> (r: usize)
        ensures
            r == self.index_spec(),
    {
        match self {
            Shape::T => 0,
            Shape::I => 1,
            Shape::O => 2,
            Shape::L => 3,
            Shape::J => 4,
            Shape::S => 5,
            Shape::Z => 6,
        }
    }

    /// The shape at a given position of the canonical enumeration order.
    pub fn from_index(i: usize) -> (r: Shape)
        requires
            i < 7,
        ensures
            r.index_spec() == i,
    {
        match i {
            0 => Shape::T,
            1 => Shape::I,
            2 => Shape::O,
            3 => Shape::L,
            4 => Shape::J,
            5 => Shape::S,
            _ => Shape::Z,
        }
    }

    /// All seven shapes, in the canonical enumeration order.
    pub open spec fn all_spec() -> Seq<Shape> {
        seq![Shape::T, Shape::I, Shape::O, Shape::L, Shape::J, Shape::S, Shape::Z]
    }

    /// All seven shapes, in the canonical enumeration order.
    pub fn all_vec() -> (r: Vec<Shape>)
        ensures
            r@ == Shape::all_spec(),
    {
        let mut v: Vec<Shape> = Vec::new();
        v.push(Shape::T);
        v.push(Shape::I);
        v.push(Shape::O);
        v.push(Shape::L);
        v.push(Shape::J);
        v.push(Shape::S);
        v.push(Shape::Z);
        proof {
            assert(v@ =~= Shape::all_spec());
        }
        v
    }
}

} // verus!
