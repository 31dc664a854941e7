//! Hold-ambiguous shape orders and their expansion into every concrete
//! order they can represent.

use vstd::prelude::*;

use crate::pattern::{cross_concat, prepend_to_all, views_of};
use crate::sequences::ShapeOrder;
use crate::shapes::Shape;

verus! {

/// One position of a hold-ambiguous order: a known shape, or any shape.
#[derive(Copy, Clone, PartialEq, Eq, Structural, Hash, Debug)]
pub enum FuzzyShape {
    /// The shape at this position is known.
    Known(Shape),
    /// The shape at this position could be any of the seven.
    Unknown,
}

/// The shapes one fuzzy position can stand for, in enumeration order.
pub open spec fn candidates(f: FuzzyShape) -> Seq<Shape> {
    match f {
        FuzzyShape::Known(s) => seq![s],
        FuzzyShape::Unknown => Shape::all_spec(),
    }
}

/// Every concrete order a fuzzy order can represent: the Cartesian product
/// over its positions, walked left to right.
pub open spec fn fuzzy_expand(shapes: Seq<FuzzyShape>) -> Seq<Seq<Shape>>
    decreases shapes.len(),
{
    if shapes.len() == 0 {
        seq![Seq::<Shape>::empty()]
    } else {
        cross_concat(
            candidates(shapes[0]).map_values(|s: Shape| seq![s]),
            fuzzy_expand(shapes.drop_first()),
        )
    }
}

/// How many concrete orders a fuzzy order represents.
pub open spec fn fuzzy_count(shapes: Seq<FuzzyShape>) -> nat
    decreases shapes.len(),
{
    if shapes.len() == 0 {
        1
    } else {
        candidates(shapes[0]).len() * fuzzy_count(shapes.drop_first())
    }
}

/// Sevenfold powers.
pub open spec fn pow7(n: nat) -> nat
    decreases n,
{
    if n == 0 {
        1
    } else {
        7 * pow7((n - 1) as nat)
    }
}

/// How many positions of a fuzzy order are unknown.
pub open spec fn count_unknowns(shapes: Seq<FuzzyShape>) -> nat
    decreases shapes.len(),
{
    if shapes.len() == 0 {
        0
    } else {
        count_unknowns(shapes.drop_first()) + if shapes[0] is Unknown {
            1nat
        } else {
            0nat
        }
    }
}

/// A fuzzy order represents exactly `7^u` concrete orders, where `u` is the
/// number of its unknown positions: known positions contribute one choice,
/// unknown positions seven.
pub proof fn lemma_fuzzy_count_pow(shapes: Seq<FuzzyShape>)
    ensures
        fuzzy_count(shapes) == pow7(count_unknowns(shapes)),
    decreases shapes.len(),
{
    if shapes.len() == 0 {
    } else {
        lemma_fuzzy_count_pow(shapes.drop_first());
        match shapes[0] {
            FuzzyShape::Known(s) => {
                assert(candidates(shapes[0]).len() == 1);
            },
            FuzzyShape::Unknown => {
                assert(candidates(shapes[0]).len() == 7);
            },
        }
    }
}

/// The number of rows of a Cartesian cross: every head times every tail.
pub proof fn lemma_cross_concat_len(heads: Seq<Seq<Shape>>, tails: Seq<Seq<Shape>>)
    ensures
        cross_concat(heads, tails).len() == heads.len() * tails.len(),
    decreases heads.len(),
{
    if heads.len() == 0 {
    } else {
        lemma_cross_concat_len(heads.drop_first(), tails);
        assert(cross_concat(heads, tails).len() == tails.len() + heads.drop_first().len()
            * tails.len());
        assert(tails.len() + (heads.len() - 1) * tails.len() == heads.len() * tails.len())
            by (nonlinear_arith);
    }
}

/// Every row of a Cartesian cross is one head followed by one tail.
pub proof fn lemma_cross_concat_elem(heads: Seq<Seq<Shape>>, tails: Seq<Seq<Shape>>, k: int)
    requires
        0 <= k < cross_concat(heads, tails).len(),
    ensures
        exists|a: int, b: int|
            0 <= a < heads.len() && 0 <= b < tails.len() && cross_concat(heads, tails)[k]
                == heads[a] + tails[b],
    decreases heads.len(),
{
    if heads.len() == 0 {
    } else {
        let first = prepend_to_all(heads[0], tails);
        if k < first.len() {
            assert(cross_concat(heads, tails)[k] == first[k]);
            assert(first[k] == heads[0] + tails[k]);
            assert(0 <= 0 < heads.len() && 0 <= k < tails.len() && cross_concat(heads, tails)[k]
                == heads[0] + tails[k]);
        } else {
            lemma_cross_concat_elem(heads.drop_first(), tails, k - first.len());
            assert(cross_concat(heads, tails)[k] == cross_concat(heads.drop_first(), tails)[k
                - first.len()]);
            let (a, b): (int, int) = choose|a: int, b: int|
                0 <= a < heads.drop_first().len() && 0 <= b < tails.len() && cross_concat(
                    heads.drop_first(),
                    tails,
                )[k - first.len()] == heads.drop_first()[a] + tails[b];
            assert(heads.drop_first()[a] == heads[a + 1]);
            assert(0 <= a + 1 < heads.len() && 0 <= b < tails.len() && cross_concat(heads, tails)[k]
                == heads[a + 1] + tails[b]);
        }
    }
}

/// Every expanded order has one shape per position, and agrees with the
/// fuzzy order on every known position.
pub proof fn lemma_fuzzy_expand_matches(shapes: Seq<FuzzyShape>)
    ensures
        forall|k: int|
            0 <= k < fuzzy_expand(shapes).len() ==> (#[trigger] fuzzy_expand(shapes)[k]).len()
                == shapes.len(),
        forall|k: int, j: int|
            0 <= k < fuzzy_expand(shapes).len() && 0 <= j < shapes.len() && shapes[j] is Known ==> (
            #[trigger] fuzzy_expand(shapes)[k][j]) == candidates(shapes[j])[0],
    decreases shapes.len(),
{
    if shapes.len() == 0 {
    } else {
        let cands = candidates(shapes[0]).map_values(|s: Shape| seq![s]);
        let tails = fuzzy_expand(shapes.drop_first());
        lemma_fuzzy_expand_matches(shapes.drop_first());
        assert forall|k: int|
            0 <= k < fuzzy_expand(shapes).len() implies (#[trigger] fuzzy_expand(shapes)[k]).len()
            == shapes.len() && (forall|j: int|
            0 <= j < shapes.len() && shapes[j] is Known ==> fuzzy_expand(shapes)[k][j]
                == candidates(shapes[j])[0]) by {
            lemma_cross_concat_elem(cands, tails, k);
            let (a, b): (int, int) = choose|a: int, b: int|
                0 <= a < cands.len() && 0 <= b < tails.len() && cross_concat(cands, tails)[k]
                    == cands[a] + tails[b];
            assert(fuzzy_expand(shapes)[k] == cands[a] + tails[b]);
            assert(cands[a] == seq![candidates(shapes[0])[a]]);
            assert(tails[b].len() == shapes.drop_first().len());
            assert(fuzzy_expand(shapes)[k].len() == shapes.len());
            assert forall|j: int|
                0 <= j < shapes.len() && shapes[j] is Known implies fuzzy_expand(shapes)[k][j]
                == candidates(shapes[j])[0] by {
                if j == 0 {
                    match shapes[0] {
                        FuzzyShape::Known(s) => {
                            assert(candidates(shapes[0]).len() == 1);
                            assert(a == 0);
                            assert(fuzzy_expand(shapes)[k][0] == candidates(shapes[0])[0]);
                        },
                        FuzzyShape::Unknown => {},
                    }
                } else {
                    assert(fuzzy_expand(shapes)[k][j] == tails[b][j - 1]);
                    assert(shapes.drop_first()[j - 1] == shapes[j]);
                    assert(tails[b][j - 1] == candidates(shapes.drop_first()[j - 1])[0]);
                }
            }
        }
    }
}

/// An order of shapes where some positions are known and some could be any
/// shape; the hold mechanic makes such orders arise.
#[derive(Clone, PartialEq, Eq, Hash, Default, Debug)]
pub struct FuzzyShapeOrder {
    shapes: Vec<FuzzyShape>,
}

impl View for FuzzyShapeOrder {
    type V = Seq<FuzzyShape>;

    closed spec fn view(&self) -> Seq<FuzzyShape> {
        self.shapes@
    }
}

impl FuzzyShapeOrder {
    /// Wraps a list of fuzzy positions as a fuzzy order.
    pub fn new(shapes: Vec<FuzzyShape>) -> (r: FuzzyShapeOrder)
        ensures
            r@ == shapes@,
    {
        FuzzyShapeOrder { shapes }
    }

    /// The shapes one fuzzy position can stand for.
    fn candidates_vec(f: &FuzzyShape) -> (r: Vec<Shape>)
        ensures
            r@ == candidates(*f),
    {
        match f {
            FuzzyShape::Known(s) => {
                let mut v: Vec<Shape> = Vec::new();
                v.push(*s);
                proof {
                    assert(v@ =~= candidates(*f));
                }
                v
            },
            FuzzyShape::Unknown => Shape::all_vec(),
        }
    }

    /// Expands the fuzzy positions from `i` on into every concrete run.
    fn expand_from(shapes: &Vec<FuzzyShape>, i: usize) -> (r: Vec<Vec<Shape>>)
        requires
            i <= shapes@.len(),
            fuzzy_count(shapes@.skip(i as int)) <= usize::MAX,
        ensures
            views_of(r@) == fuzzy_expand(shapes@.skip(i as int)),
            r@.len() == fuzzy_count(shapes@.skip(i as int)),
        decreases shapes@.len() - i,
    {
        let ghost rest = shapes@.skip(i as int);
        if i == shapes.len() {
            let mut r: Vec<Vec<Shape>> = Vec::new();
            let inner: Vec<Shape> = Vec::new();
            r.push(inner);
            proof {
                assert(rest =~= Seq::<FuzzyShape>::empty());
                assert(views_of(r@) =~= fuzzy_expand(rest));
            }
            r
        } else {
            proof {
                assert(rest.drop_first() =~= shapes@.skip(i + 1));
                assert(rest[0] == shapes@[i as int]);
                lemma_fuzzy_count_pos(rest.drop_first());
                assert(fuzzy_count(rest) == candidates(rest[0]).len() * fuzzy_count(
                    rest.drop_first(),
                ));
                assert(candidates(rest[0]).len() >= 1) by {
                    match rest[0] {
                        FuzzyShape::Known(_) => {},
                        FuzzyShape::Unknown => {},
                    }
                };
                assert(fuzzy_count(rest.drop_first()) <= fuzzy_count(rest)) by (nonlinear_arith)
                    requires
                        fuzzy_count(rest) == candidates(rest[0]).len() * fuzzy_count(
                            rest.drop_first(),
                        ),
                        candidates(rest[0]).len() >= 1,
                        fuzzy_count(rest.drop_first()) >= 1,
                ;
            }
            let cands = Self::candidates_vec(&shapes[i]);
            let tails = Self::expand_from(shapes, i + 1);
            let ghost cands_v = cands@.map_values(|s: Shape| seq![s]);
            let ghost tails_v = views_of(tails@);
            let mut r: Vec<Vec<Shape>> = Vec::new();
            let mut hi: usize = 0;
            proof {
                lemma_cross_concat_len(cands_v, tails_v);
                assert(cands_v.len() * tails_v.len() == fuzzy_count(rest)) by (nonlinear_arith)
                    requires
                        cands_v.len() == candidates(rest[0]).len(),
                        tails_v.len() == fuzzy_count(rest.drop_first()),
                        fuzzy_count(rest) == candidates(rest[0]).len() * fuzzy_count(
                            rest.drop_first(),
                        ),
                ;
            }
            while hi < cands.len()
                invariant
                    hi <= cands@.len(),
                    cands@.map_values(|s: Shape| seq![s]) == cands_v,
                    views_of(tails@) == tails_v,
                    cands_v.len() == candidates(rest[0]).len(),
                    tails_v.len() == fuzzy_count(rest.drop_first()),
                    cands_v.len() * tails_v.len() == fuzzy_count(rest),
                    fuzzy_count(rest) <= usize::MAX,
                    views_of(r@) == cross_concat(cands_v.take(hi as int), tails_v),
                    r@.len() == hi * tails@.len(),
                decreases cands@.len() - hi,
            {
                let mut ti: usize = 0;
                proof {
                    assert(hi * tails@.len() + tails@.len() == (hi + 1) * tails@.len())
                        by (nonlinear_arith);
                    assert((hi + 1) * tails@.len() <= cands_v.len() * tails_v.len())
                        by (nonlinear_arith)
                        requires
                            hi + 1 <= cands_v.len(),
                            tails@.len() == tails_v.len(),
                    ;
                }
                while ti < tails.len()
                    invariant
                        ti <= tails@.len(),
                        hi < cands@.len(),
                        cands@.map_values(|s: Shape| seq![s]) == cands_v,
                        views_of(tails@) == tails_v,
                        hi * tails@.len() + tails@.len() <= usize::MAX,
                        r@.len() == hi * tails@.len() + ti,
                        views_of(r@) == cross_concat(cands_v.take(hi as int), tails_v)
                            + prepend_to_all(cands_v[hi as int], tails_v).take(ti as int),
                    decreases tails@.len() - ti,
                {
                    let mut row: Vec<Shape> = Vec::new();
                    row.push(cands[hi]);
                    let mut tail_copy = tails[ti].clone();
                    row.append(&mut tail_copy);
                    proof {
                        assert(cands_v[hi as int] == seq![cands@[hi as int]]);
                        assert(row@ == cands_v[hi as int] + tails_v[ti as int]);
                    }
                    let ghost r_snap = r@;
                    r.push(row);
                    proof {
                        crate::pattern::lemma_views_push(r_snap, row);
                        assert(prepend_to_all(cands_v[hi as int], tails_v).take(ti + 1)
                            =~= prepend_to_all(cands_v[hi as int], tails_v).take(ti as int).push(
                            cands_v[hi as int] + tails_v[ti as int],
                        ));
                        assert(views_of(r@) =~= cross_concat(cands_v.take(hi as int), tails_v)
                            + prepend_to_all(cands_v[hi as int], tails_v).take(ti + 1));
                    }
                    ti = ti + 1;
                }
                proof {
                    assert(cands_v.take(hi + 1) =~= cands_v.take(hi as int).push(
                        cands_v[hi as int],
                    ));
                    crate::pattern::lemma_cross_concat_snoc(
                        cands_v.take(hi as int),
                        cands_v[hi as int],
                        tails_v,
                    );
                    assert(prepend_to_all(cands_v[hi as int], tails_v).take(tails@.len() as int)
                        =~= prepend_to_all(cands_v[hi as int], tails_v));
                    assert(views_of(r@) == cross_concat(cands_v.take(hi + 1), tails_v));
                }
                hi = hi + 1;
            }
            proof {
                assert(cands_v.take(cands@.len() as int) =~= cands_v);
                assert(fuzzy_expand(rest) == cross_concat(cands_v, tails_v));
            }
            r
        }
    }

    /// Expand unknown positions to every shape each could be: the output
    /// holds every concrete order consistent with this fuzzy order.
    pub fn expand_as_wildcard(&self) -> (r: Vec<ShapeOrder>)
        requires
            self@.len() > 0,
            fuzzy_count(self@) <= usize::MAX,
        ensures
            r@.map_values(|q: ShapeOrder| q@) == fuzzy_expand(self@),
            r@.len() == fuzzy_count(self@),
    {
        proof {
            assert(self.shapes@.skip(0) =~= self@);
        }
        let rows = Self::expand_from(&self.shapes, 0);
        let ghost rows_v = views_of(rows@);
        let mut r: Vec<ShapeOrder> = Vec::new();
        let mut k: usize = 0;
        while k < rows.len()
            invariant
                k <= rows@.len(),
                views_of(rows@) == rows_v,
                r@.len() == k,
                forall|m: int| 0 <= m < k ==> (#[trigger] r@[m])@ == rows_v[m],
            decreases rows@.len() - k,
        {
            r.push(ShapeOrder::new(rows[k].clone()));
            k = k + 1;
        }
        proof {
            assert(r@.map_values(|q: ShapeOrder| q@) =~= rows_v);
        }
        r
    }
}

/// A Cartesian product of non-empty choices is non-empty.
proof fn lemma_fuzzy_count_pos(shapes: Seq<FuzzyShape>)
    ensures
        fuzzy_count(shapes) >= 1,
    decreases shapes.len(),
{
    if shapes.len() == 0 {
    } else {
        lemma_fuzzy_count_pos(shapes.drop_first());
        assert(candidates(shapes[0]).len() >= 1) by {
            match shapes[0] {
                FuzzyShape::Known(_) => {},
                FuzzyShape::Unknown => {},
            }
        };
        assert(candidates(shapes[0]).len() * fuzzy_count(shapes.drop_first()) >= 1)
            by (nonlinear_arith)
            requires
                candidates(shapes[0]).len() >= 1,
                fuzzy_count(shapes.drop_first()) >= 1,
        ;
    }
}

} // verus!
