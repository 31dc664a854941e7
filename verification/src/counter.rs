//! An unordered multiset of the seven piece shapes.

use vstd::prelude::*;

use crate::shapes::Shape;

verus! {

/// Counts of each of the seven shapes, order-independent.
#[derive(Copy, Clone, PartialEq, Eq, Structural, Hash, Debug)]
pub struct ShapeCounter {
    pub t: u16,
    pub i: u16,
    pub o: u16,
    pub l: u16,
    pub j: u16,
    pub s: u16,
    pub z: u16,
}

/// How many times `sh` occurs in `sq`.
pub open spec fn count_shape(sq: Seq<Shape>, sh: Shape) -> nat
    decreases sq.len(),
{
    if sq.len() == 0 {
        0
    } else {
        count_shape(sq.drop_last(), sh) + if sq.last() == sh {
            1nat
        } else {
            0nat
        }
    }
}

impl ShapeCounter {
    /// The recorded count of one shape.
    pub open spec fn count_spec(self, sh: Shape) -> u16 {
        match sh {
            Shape::T => self.t,
            Shape::I => self.i,
            Shape::O => self.o,
            Shape::L => self.l,
            Shape::J => self.j,
            Shape::S => self.s,
            Shape::Z => self.z,
        }
    }

    /// The number of shapes counted, multiplicities included.
    pub open spec fn total_spec(self) -> int {
        self.t + self.i + self.o + self.l + self.j + self.s + self.z
    }

    /// Whether every count of `other` is covered by `self`.
    pub open spec fn contains_all_spec(self, other: ShapeCounter) -> bool {
        forall|sh: Shape| self.count_spec(sh) >= other.count_spec(sh)
    }

    /// A counter with no shapes.
    pub fn empty() -> (r: ShapeCounter)
        ensures
            forall|sh: Shape| r.count_spec(sh) == 0,
            r.total_spec() == 0,
    {
        ShapeCounter { t: 0, i: 0, o: 0, l: 0, j: 0, s: 0, z: 0 }
    }

    /// A counter with exactly one of every shape.
    pub fn one_of_each() -> (r: ShapeCounter)
        ensures
            forall|sh: Shape| r.count_spec(sh) == 1,
            r.total_spec() == 7,
    {
        ShapeCounter { t: 1, i: 1, o: 1, l: 1, j: 1, s: 1, z: 1 }
    }

    /// The multiset of the given list of shapes.
    pub fn from(shapes: Vec<Shape>) -> (r: ShapeCounter)
        requires
            shapes@.len() <= u16::MAX,
        ensures
            forall|sh: Shape| r.count_spec(sh) == count_shape(shapes@, sh),
    {
        let mut r = ShapeCounter::empty();
        let mut idx: usize = 0;
        while idx < shapes.len()
            invariant
                idx <= shapes@.len(),
                shapes@.len() <= u16::MAX,
                forall|sh: Shape| r.count_spec(sh) == count_shape(shapes@.take(idx as int), sh),
                forall|sh: Shape| r.count_spec(sh) <= idx,
            decreases shapes@.len() - idx,
        {
            let sh = shapes[idx];
            let ghost r0 = r;
            proof {
                assert(r.count_spec(sh) <= idx);
            }
            match sh {
                Shape::T => r.t = r.t + 1,
                Shape::I => r.i = r.i + 1,
                Shape::O => r.o = r.o + 1,
                Shape::L => r.l = r.l + 1,
                Shape::J => r.j = r.j + 1,
                Shape::S => r.s = r.s + 1,
                Shape::Z => r.z = r.z + 1,
            }
            proof {
                assert(shapes@.take(idx + 1).drop_last() =~= shapes@.take(idx as int));
                assert(shapes@.take(idx + 1).last() == sh);
                assert forall|sh2: Shape|
                    r.count_spec(sh2) == count_shape(shapes@.take(idx + 1), sh2) && r.count_spec(
                        sh2,
                    ) <= idx + 1 by {
                    assert(r0.count_spec(sh2) == count_shape(shapes@.take(idx as int), sh2));
                    assert(r0.count_spec(sh2) <= idx);
                    match sh2 {
                        Shape::T => {},
                        Shape::I => {},
                        Shape::O => {},
                        Shape::L => {},
                        Shape::J => {},
                        Shape::S => {},
                        Shape::Z => {},
                    }
                }
            }
            idx = idx + 1;
        }
        proof {
            assert(shapes@.take(shapes@.len() as int) =~= shapes@);
        }
        r
    }

    /// The number of shapes counted, multiplicities included.
    pub fn len(&self) -> (r: usize)
        ensures
            r == self.total_spec(),
    {
        self.t as usize + self.i as usize + self.o as usize + self.l as usize + self.j as usize
            + self.s as usize + self.z as usize
    }

    /// Whether `self` has at least every count that `other` has.
    pub fn contains_all(&self, other: &ShapeCounter) -> (r: bool)
        ensures
            r == self.contains_all_spec(*other),
    {
        let r = self.t >= other.t && self.i >= other.i && self.o >= other.o && self.l >= other.l
            && self.j >= other.j && self.s >= other.s && self.z >= other.z;
        proof {
            if r {
                assert forall|sh: Shape| self.count_spec(sh) >= other.count_spec(sh) by {
                    match sh {
                        Shape::T => {},
                        Shape::I => {},
                        Shape::O => {},
                        Shape::L => {},
                        Shape::J => {},
                        Shape::S => {},
                        Shape::Z => {},
                    }
                }
            } else {
                assert(!self.contains_all_spec(*other)) by {
                    if self.t < other.t {
                        assert(self.count_spec(Shape::T) < other.count_spec(Shape::T));
                    } else if self.i < other.i {
                        assert(self.count_spec(Shape::I) < other.count_spec(Shape::I));
                    } else if self.o < other.o {
                        assert(self.count_spec(Shape::O) < other.count_spec(Shape::O));
                    } else if self.l < other.l {
                        assert(self.count_spec(Shape::L) < other.count_spec(Shape::L));
                    } else if self.j < other.j {
                        assert(self.count_spec(Shape::J) < other.count_spec(Shape::J));
                    } else if self.s < other.s {
                        assert(self.count_spec(Shape::S) < other.count_spec(Shape::S));
                    } else {
                        assert(self.count_spec(Shape::Z) < other.count_spec(Shape::Z));
                    }
                }
            }
        }
        r
    }

    /// The expansion of this multiset into a list: each shape repeated
    /// by its count, in the canonical shape order.
    pub open spec fn items_spec(self) -> Seq<Shape> {
        Seq::new(self.t as nat, |k: int| Shape::T) + Seq::new(self.i as nat, |k: int| Shape::I)
            + Seq::new(self.o as nat, |k: int| Shape::O) + Seq::new(
            self.l as nat,
            |k: int| Shape::L,
        ) + Seq::new(self.j as nat, |k: int| Shape::J) + Seq::new(self.s as nat, |k: int| Shape::S)
            + Seq::new(self.z as nat, |k: int| Shape::Z)
    }

    /// The `(shape, count)` pairs with a non-zero count, in the canonical
    /// shape order.
    pub open spec fn pairs_spec(self) -> Seq<(Shape, u16)> {
        let all = seq![
            (Shape::T, self.t),
            (Shape::I, self.i),
            (Shape::O, self.o),
            (Shape::L, self.l),
            (Shape::J, self.j),
            (Shape::S, self.s),
            (Shape::Z, self.z),
        ];
        all.filter(|p: (Shape, u16)| p.1 > 0)
    }

    /// The `(shape, count)` pairs with a non-zero count.
    pub fn to_pairs(&self) -> (r: Vec<(Shape, u16)>)
        ensures
            r@ == self.pairs_spec(),
    {
        let mut r: Vec<(Shape, u16)> = Vec::new();
        if self.t > 0 {
            r.push((Shape::T, self.t));
        }
        if self.i > 0 {
            r.push((Shape::I, self.i));
        }
        if self.o > 0 {
            r.push((Shape::O, self.o));
        }
        if self.l > 0 {
            r.push((Shape::L, self.l));
        }
        if self.j > 0 {
            r.push((Shape::J, self.j));
        }
        if self.s > 0 {
            r.push((Shape::S, self.s));
        }
        if self.z > 0 {
            r.push((Shape::Z, self.z));
        }
        proof {
            reveal_with_fuel(Seq::filter, 10);
            assert(r@ =~= self.pairs_spec());
        }
        r
    }

    /// The expansion of this multiset into a list: each shape repeated
    /// by its count, in the canonical shape order.
    pub fn to_items(&self) -> (r: Vec<Shape>)
        ensures
            r@ == self.items_spec(),
            r@.len() == self.total_spec(),
    {
        let mut r: Vec<Shape> = Vec::new();
        Self::push_repeated(&mut r, Shape::T, self.t);
        Self::push_repeated(&mut r, Shape::I, self.i);
        Self::push_repeated(&mut r, Shape::O, self.o);
        Self::push_repeated(&mut r, Shape::L, self.l);
        Self::push_repeated(&mut r, Shape::J, self.j);
        Self::push_repeated(&mut r, Shape::S, self.s);
        Self::push_repeated(&mut r, Shape::Z, self.z);
        proof {
            assert(r@ =~= self.items_spec());
        }
        r
    }

    fn push_repeated(out: &mut Vec<Shape>, sh: Shape, n: u16)
        requires
            old(out)@.len() + n <= usize::MAX,
        ensures
            final(out)@ == old(out)@ + Seq::new(n as nat, |k: int| sh),
    {
        let mut k: u16 = 0;
        while k < n
            invariant
                k <= n,
                old(out)@.len() + n <= usize::MAX,
                out@ == old(out)@ + Seq::new(k as nat, |m: int| sh),
            decreases n - k,
        {
            out.push(sh);
            proof {
                assert(out@ =~= old(out)@ + Seq::new((k + 1) as nat, |m: int| sh));
            }
            k = k + 1;
        }
    }
}

} // verus!
