//! Compact pattern specifications and their expansion into every concrete
//! shape sequence they denote.

use vstd::prelude::*;

use itertools::Itertools;

use crate::counter::ShapeCounter;
use crate::sequences::{BitShapes, ShapeOrder, ShapeSequence};
use crate::shapes::Shape;

verus! {

/// The falling factorial `len · (len-1) · … · (len-pop+1)`: the number of
/// ordered selections of `pop` items out of `len` distinct positions.
pub open spec fn falling_factorial(len: nat, pop: nat) -> nat
    decreases pop,
{
    if pop == 0 {
        1
    } else if len == 0 {
        0
    } else {
        len * falling_factorial((len - 1) as nat, (pop - 1) as nat)
    }
}

/// Peeling one factor off the low end of a falling factorial.
pub proof fn lemma_falling_factorial_step(len: nat, pop: nat)
    requires
        pop < len,
    ensures
        falling_factorial(len, pop + 1) == falling_factorial(len, pop) * (len - pop),
    decreases pop,
{
    if pop == 0 {
        assert(falling_factorial(len, 1) == len * falling_factorial((len - 1) as nat, 0));
        assert(falling_factorial((len - 1) as nat, 0) == 1);
        assert(falling_factorial(len, 0) == 1);
        assert(falling_factorial(len, pop + 1) == falling_factorial(len, pop) * (len - pop))
            by (nonlinear_arith)
            requires
                pop == 0,
                len >= 1,
                falling_factorial(len, 1) == len * falling_factorial((len - 1) as nat, 0),
                falling_factorial((len - 1) as nat, 0) == 1,
                falling_factorial(len, 0) == 1,
        ;
    } else {
        lemma_falling_factorial_step((len - 1) as nat, (pop - 1) as nat);
        assert(falling_factorial(len, pop + 1) == len * falling_factorial((len - 1) as nat, pop));
        assert(falling_factorial(len, pop) == len * falling_factorial(
            (len - 1) as nat,
            (pop - 1) as nat,
        ));
        assert(falling_factorial((len - 1) as nat, pop) == falling_factorial(
            (len - 1) as nat,
            (pop - 1) as nat,
        ) * (len - pop));
        assert(falling_factorial(len, pop + 1) == falling_factorial(len, pop) * (len - pop))
            by (nonlinear_arith)
            requires
                falling_factorial(len, pop + 1) == len * falling_factorial((len - 1) as nat, pop),
                falling_factorial((len - 1) as nat, pop) == falling_factorial(
                    (len - 1) as nat,
                    (pop - 1) as nat,
                ) * (len - pop),
                falling_factorial(len, pop) == len * falling_factorial(
                    (len - 1) as nat,
                    (pop - 1) as nat,
                ),
        ;
    }
}

/// A falling factorial with `pop <= len` never vanishes.
pub proof fn lemma_falling_factorial_pos(len: nat, pop: nat)
    requires
        pop <= len,
    ensures
        falling_factorial(len, pop) >= 1,
    decreases pop,
{
    if pop == 0 {
    } else {
        lemma_falling_factorial_pos((len - 1) as nat, (pop - 1) as nat);
        assert(falling_factorial(len, pop) == len * falling_factorial(
            (len - 1) as nat,
            (pop - 1) as nat,
        ));
        assert(len * falling_factorial((len - 1) as nat, (pop - 1) as nat) >= 1)
            by (nonlinear_arith)
            requires
                len >= 1,
                falling_factorial((len - 1) as nat, (pop - 1) as nat) >= 1,
        ;
    }
}

/// A falling factorial grows as more factors are taken, while `pop <= len`.
pub proof fn lemma_falling_factorial_mono(len: nat, pop1: nat, pop2: nat)
    requires
        pop1 <= pop2 <= len,
    ensures
        1 <= falling_factorial(len, pop1) <= falling_factorial(len, pop2),
    decreases pop2 - pop1,
{
    lemma_falling_factorial_pos(len, pop1);
    if pop1 == pop2 {
    } else {
        lemma_falling_factorial_mono(len, pop1, (pop2 - 1) as nat);
        lemma_falling_factorial_step(len, (pop2 - 1) as nat);
        assert(falling_factorial(len, (pop2 - 1) as nat) * (len - (pop2 - 1))
            >= falling_factorial(len, (pop2 - 1) as nat)) by (nonlinear_arith)
            requires
                falling_factorial(len, (pop2 - 1) as nat) >= 1,
                len - (pop2 - 1) >= 1,
        ;
    }
}

/// Calculate the number of permutations: ordered selections of `pop` out of
/// `len` distinct positions.
pub fn calculate_permutation_size(len: usize, pop: usize) -> (r: usize)
    requires
        0 < pop <= len,
        falling_factorial(len as nat, pop as nat) <= usize::MAX,
    ensures
        r == falling_factorial(len as nat, pop as nat),
{
    let mut acc: usize = 1;
    let mut k: usize = 0;
    while k < pop
        invariant
            k <= pop <= len,
            falling_factorial(len as nat, pop as nat) <= usize::MAX,
            acc == falling_factorial(len as nat, k as nat),
        decreases pop - k,
    {
        proof {
            lemma_falling_factorial_step(len as nat, k as nat);
            lemma_falling_factorial_mono(len as nat, (k + 1) as nat, pop as nat);
        }
        acc = acc * (len - k);
        k = k + 1;
    }
    acc
}

/// All `pop`-length permutations, by position, of the listed shapes; named
/// after the enumeration that the permutation generator produces.
pub uninterp spec fn permutations_of(items: Seq<Shape>, pop: int) -> Seq<Seq<Shape>>;

/// The views of a list of shape lists.
pub open spec fn views_of(r: Seq<Vec<Shape>>) -> Seq<Seq<Shape>> {
    r.map_values(|v: Vec<Shape>| v@)
}

/// Appending one list appends its view.
pub proof fn lemma_views_push(s: Seq<Vec<Shape>>, v: Vec<Shape>)
    ensures
        views_of(s.push(v)) == views_of(s).push(v@),
{
    assert(views_of(s.push(v)) =~= views_of(s).push(v@));
}

/// Relies on itertools' `Itertools::permutations`: it enumerates all
/// `pop`-length permutations of its input by position (equal elements are
/// kept apart), `len·(len-1)·…·(len-pop+1)` of them, each of length `pop`.
#[verifier::external_body]
fn permutations_exec(items: &Vec<Shape>, pop: usize) -> (r: Vec<Vec<Shape>>)
    requires
        0 < pop <= items@.len(),
        falling_factorial(items@.len() as nat, pop as nat) <= usize::MAX,
    ensures
        views_of(r@) == permutations_of(items@, pop as int),
        r@.len() == falling_factorial(items@.len() as nat, pop as nat),
        forall|k: int| 0 <= k < r@.len() ==> (#[trigger] r@[k])@.len() == pop,
{
    items.iter().cloned().permutations(pop).collect()
}

/// One element of a pattern: a compact denotation of a set of shape runs.
#[derive(Clone, PartialEq, Eq, Hash, Debug)]
pub enum PatternElement {
    /// A fixed single shape.
    One(Shape),
    /// A fixed run of shapes.
    Fixed(BitShapes),
    /// Any one of the seven shapes.
    Wildcard,
    /// Ordered selections of the given number of shapes drawn from the
    /// multiset. Duplicates are not removed.
    Permutation(ShapeCounter, usize),
    /// Ordered selections of every shape of the multiset. Duplicates are
    /// not removed.
    Factorial(ShapeCounter),
}

impl PatternElement {
    /// Whether the element denotes at least one shape run.
    pub open spec fn wf_spec(self) -> bool {
        match self {
            PatternElement::One(_) => true,
            PatternElement::Fixed(_) => true,
            PatternElement::Wildcard => true,
            PatternElement::Permutation(counter, pop) => 0 < pop && pop <= counter.total_spec(),
            PatternElement::Factorial(counter) => 0 < counter.total_spec(),
        }
    }

    /// How many shape runs the element denotes.
    pub open spec fn count_spec(self) -> nat {
        match self {
            PatternElement::One(_) => 1,
            PatternElement::Fixed(_) => 1,
            PatternElement::Wildcard => 7,
            PatternElement::Permutation(counter, pop) => falling_factorial(
                counter.total_spec() as nat,
                pop as nat,
            ),
            PatternElement::Factorial(counter) => falling_factorial(
                counter.total_spec() as nat,
                counter.total_spec() as nat,
            ),
        }
    }

    /// How many shape positions the element contributes to one run.
    pub open spec fn dim_spec(self) -> nat {
        match self {
            PatternElement::One(_) => 1,
            PatternElement::Fixed(shapes) => shapes@.len(),
            PatternElement::Wildcard => 1,
            PatternElement::Permutation(_, pop) => pop as nat,
            PatternElement::Factorial(counter) => counter.total_spec() as nat,
        }
    }

    /// The shape runs the element denotes, in enumeration order.
    pub open spec fn seqs_spec(self) -> Seq<Seq<Shape>> {
        match self {
            PatternElement::One(shape) => seq![seq![shape]],
            PatternElement::Fixed(shapes) => seq![shapes@],
            PatternElement::Wildcard => Shape::all_spec().map_values(|s: Shape| seq![s]),
            PatternElement::Permutation(counter, pop) => permutations_of(
                counter.items_spec(),
                pop as int,
            ),
            PatternElement::Factorial(counter) => permutations_of(
                counter.items_spec(),
                counter.total_spec(),
            ),
        }
    }

    /// Returns all shape runs the element denotes; their number is the
    /// element's `len_shapes_vec` and each has `dim_shapes` positions.
    pub fn to_shapes_vec(&self) -> (r: Vec<Vec<Shape>>)
        requires
            self.wf_spec(),
            self.count_spec() <= usize::MAX,
        ensures
            views_of(r@) == self.seqs_spec(),
            r@.len() == self.count_spec(),
            forall|k: int| 0 <= k < r@.len() ==> (#[trigger] r@[k])@.len() == self.dim_spec(),
    {
        match self {
            PatternElement::One(shape) => {
                let mut inner: Vec<Shape> = Vec::new();
                inner.push(*shape);
                let mut r: Vec<Vec<Shape>> = Vec::new();
                r.push(inner);
                proof {
                    assert(views_of(r@) =~= self.seqs_spec());
                    assert(r@[0]@ =~= seq![*shape]);
                }
                r
            },
            PatternElement::Fixed(shapes) => {
                let mut r: Vec<Vec<Shape>> = Vec::new();
                r.push(shapes.to_vec());
                proof {
                    assert(views_of(r@) =~= self.seqs_spec());
                }
                r
            },
            PatternElement::Wildcard => {
                let all = Shape::all_vec();
                let mut r: Vec<Vec<Shape>> = Vec::new();
                let mut k: usize = 0;
                while k < all.len()
                    invariant
                        k <= all@.len(),
                        all@ == Shape::all_spec(),
                        r@.len() == k,
                        forall|m: int|
                            0 <= m < k ==> (#[trigger] r@[m])@ == seq![Shape::all_spec()[m]],
                    decreases all@.len() - k,
                {
                    let mut inner: Vec<Shape> = Vec::new();
                    inner.push(all[k]);
                    r.push(inner);
                    k = k + 1;
                }
                proof {
                    assert(views_of(r@) =~= self.seqs_spec());
                }
                r
            },
            PatternElement::Permutation(counter, pop) => {
                let items = counter.to_items();
                permutations_exec(&items, *pop)
            },
            PatternElement::Factorial(counter) => {
                let items = counter.to_items();
                let pop = counter.len();
                permutations_exec(&items, pop)
            },
        }
    }

    /// The number of shape runs the element denotes: 1 for a fixed element,
    /// 7 for the wildcard, the falling factorial for a selection from a
    /// multiset.
    pub fn len_shapes_vec(&self) -> (r: usize)
        requires
            self.wf_spec(),
            self.count_spec() <= usize::MAX,
        ensures
            r == self.count_spec(),
    {
        match self {
            PatternElement::One(_) => 1,
            PatternElement::Fixed(_) => 1,
            PatternElement::Wildcard => 7,
            PatternElement::Permutation(counter, pop) => calculate_permutation_size(
                counter.len(),
                *pop,
            ),
            PatternElement::Factorial(counter) => {
                let len = counter.len();
                calculate_permutation_size(len, len)
            },
        }
    }

    /// The number of shape positions the element contributes to one run.
    pub fn dim_shapes(&self) -> (r: usize)
        requires
            self.wf_spec(),
        ensures
            r == self.dim_spec(),
    {
        match self {
            PatternElement::One(_) => 1,
            PatternElement::Fixed(shapes) => shapes.len(),
            PatternElement::Wildcard => 1,
            PatternElement::Permutation(_, pop) => *pop,
            PatternElement::Factorial(counter) => counter.len(),
        }
    }
}

/// Whether every element of a list denotes at least one shape run.
pub open spec fn elements_wf(elems: Seq<PatternElement>) -> bool {
    forall|j: int| 0 <= j < elems.len() ==> (#[trigger] elems[j]).wf_spec()
}

/// The number of runs a whole element list denotes: the product of the
/// elements' counts.
pub open spec fn elems_count(elems: Seq<PatternElement>) -> nat
    decreases elems.len(),
{
    if elems.len() == 0 {
        1
    } else {
        elems[0].count_spec() * elems_count(elems.drop_first())
    }
}

/// The number of positions one run of a whole element list has: the sum of
/// the elements' dimensions.
pub open spec fn elems_dim(elems: Seq<PatternElement>) -> nat
    decreases elems.len(),
{
    if elems.len() == 0 {
        0
    } else {
        elems[0].dim_spec() + elems_dim(elems.drop_first())
    }
}

/// Every tail extended in front by one fixed head.
pub open spec fn prepend_to_all(head: Seq<Shape>, tails: Seq<Seq<Shape>>) -> Seq<Seq<Shape>> {
    tails.map_values(|t: Seq<Shape>| head + t)
}

/// The concatenation, head-major, of every head extended by every tail.
pub open spec fn cross_concat(heads: Seq<Seq<Shape>>, tails: Seq<Seq<Shape>>) -> Seq<Seq<Shape>>
    decreases heads.len(),
{
    if heads.len() == 0 {
        Seq::empty()
    } else {
        prepend_to_all(heads[0], tails) + cross_concat(heads.drop_first(), tails)
    }
}

/// The runs an element list denotes: the Cartesian product, in element
/// order, of each element's runs, concatenated positionally.
pub open spec fn expand_elems(elems: Seq<PatternElement>) -> Seq<Seq<Shape>>
    decreases elems.len(),
{
    if elems.len() == 0 {
        seq![Seq::<Shape>::empty()]
    } else {
        cross_concat(elems[0].seqs_spec(), expand_elems(elems.drop_first()))
    }
}

/// A whole element list with a run appended at the back.
pub proof fn lemma_cross_concat_snoc(heads: Seq<Seq<Shape>>, x: Seq<Shape>, tails: Seq<Seq<Shape>>)
    ensures
        cross_concat(heads.push(x), tails) == cross_concat(heads, tails) + prepend_to_all(x, tails),
    decreases heads.len(),
{
    if heads.len() == 0 {
        assert(heads.push(x).len() == 1);
        assert(heads.push(x)[0] == x);
        assert(heads.push(x).drop_first() =~= Seq::<Seq<Shape>>::empty());
        assert(cross_concat(heads.push(x), tails) == prepend_to_all(x, tails) + cross_concat(
            Seq::<Seq<Shape>>::empty(),
            tails,
        ));
        assert(cross_concat(heads.push(x), tails) =~= cross_concat(heads, tails) + prepend_to_all(
            x,
            tails,
        ));
    } else {
        assert(heads.push(x)[0] == heads[0]);
        assert(heads.push(x).drop_first() =~= heads.drop_first().push(x));
        lemma_cross_concat_snoc(heads.drop_first(), x, tails);
        assert(cross_concat(heads.push(x), tails) == prepend_to_all(heads[0], tails)
            + cross_concat(heads.drop_first().push(x), tails));
        assert(cross_concat(heads.push(x), tails) =~= cross_concat(heads, tails) + prepend_to_all(
            x,
            tails,
        ));
    }
}

/// The product count over a list splits at any cut.
proof fn lemma_elems_count_split(elems: Seq<PatternElement>, k: int)
    requires
        0 <= k <= elems.len(),
    ensures
        elems_count(elems) == elems_count(elems.take(k)) * elems_count(elems.skip(k)),
    decreases k,
{
    if k == 0 {
        assert(elems.take(0) =~= Seq::<PatternElement>::empty());
        assert(elems.skip(0) =~= elems);
        assert(elems_count(Seq::<PatternElement>::empty()) == 1);
    } else {
        lemma_elems_count_split(elems.drop_first(), k - 1);
        assert(elems.take(k).len() == k);
        assert(elems.take(k)[0] == elems[0]);
        assert(elems.take(k).drop_first() =~= elems.drop_first().take(k - 1));
        assert(elems.skip(k) =~= elems.drop_first().skip(k - 1));
        assert(elems_count(elems.take(k)) == elems[0].count_spec() * elems_count(
            elems.drop_first().take(k - 1),
        ));
        assert(elems_count(elems) == elems[0].count_spec() * elems_count(elems.drop_first()));
        assert(elems_count(elems) == elems_count(elems.take(k)) * elems_count(elems.skip(k)))
            by (nonlinear_arith)
            requires
                elems_count(elems) == elems[0].count_spec() * elems_count(elems.drop_first()),
                elems_count(elems.drop_first()) == elems_count(elems.drop_first().take(k - 1))
                    * elems_count(elems.drop_first().skip(k - 1)),
                elems_count(elems.take(k)) == elems[0].count_spec() * elems_count(
                    elems.drop_first().take(k - 1),
                ),
                elems_count(elems.skip(k)) == elems_count(elems.drop_first().skip(k - 1)),
        ;
    }
}

/// A well-formed element list denotes at least one run.
proof fn lemma_elems_count_pos(elems: Seq<PatternElement>)
    requires
        elements_wf(elems),
    ensures
        elems_count(elems) >= 1,
    decreases elems.len(),
{
    if elems.len() == 0 {
    } else {
        assert(elems[0].wf_spec());
        lemma_elem_count_pos(elems[0]);
        assert(elements_wf(elems.drop_first()));
        lemma_elems_count_pos(elems.drop_first());
        assert(elems[0].count_spec() * elems_count(elems.drop_first()) >= 1) by (nonlinear_arith)
            requires
                elems[0].count_spec() >= 1,
                elems_count(elems.drop_first()) >= 1,
        ;
    }
}

/// A well-formed element denotes at least one run.
proof fn lemma_elem_count_pos(e: PatternElement)
    requires
        e.wf_spec(),
    ensures
        e.count_spec() >= 1,
{
    match e {
        PatternElement::One(_) => {},
        PatternElement::Fixed(_) => {},
        PatternElement::Wildcard => {},
        PatternElement::Permutation(counter, pop) => {
            lemma_falling_factorial_mono(counter.total_spec() as nat, 0, pop as nat);
        },
        PatternElement::Factorial(counter) => {
            lemma_falling_factorial_mono(
                counter.total_spec() as nat,
                0,
                counter.total_spec() as nat,
            );
        },
    }
}

/// A collection of errors that occur when making the pattern.
#[derive(Copy, Clone, PartialEq, Eq, Structural, Hash, Debug)]
pub enum PatternCreationError {
    /// The element list denotes no shape run at all.
    NoShapeSequences,
    /// Some permutation element draws an impossible number of shapes.
    ContainsInvalidPermutation,
}

/// Whether a permutation element draws a possible number of shapes. Other
/// elements pass unexamined.
pub open spec fn element_checked(e: PatternElement) -> bool {
    match e {
        PatternElement::Permutation(counter, pop) => 0 < pop && pop <= counter.total_spec(),
        _ => true,
    }
}

/// An ordered list of pattern elements; denotes every concatenation, in
/// element order, of runs the elements denote.
#[derive(Clone, PartialEq, Eq, Hash, Debug)]
pub struct Pattern {
    elements: Vec<PatternElement>,
}

impl Pattern {
    /// The elements the pattern was made of.
    pub closed spec fn elements_spec(self) -> Seq<PatternElement> {
        self.elements@
    }

    /// What construction guarantees: a non-empty list whose permutation
    /// elements are possible.
    pub open spec fn wf_spec(self) -> bool {
        self.elements_spec().len() > 0 && forall|j: int|
            0 <= j < self.elements_spec().len() ==> element_checked(
                #[trigger] self.elements_spec()[j],
            )
    }

    /// Validates and wraps an element list: an empty list and impossible
    /// permutation elements are refused.
    pub fn try_new(elements: Vec<PatternElement>) -> (r: Result<Pattern, PatternCreationError>)
        ensures
            elements@.len() == 0 ==> r == Result::<Pattern, PatternCreationError>::Err(
                PatternCreationError::NoShapeSequences,
            ),
            elements@.len() > 0 && (exists|j: int|
                0 <= j < elements@.len() && !element_checked(#[trigger] elements@[j])) ==> r
                == Result::<Pattern, PatternCreationError>::Err(
                PatternCreationError::ContainsInvalidPermutation,
            ),
            elements@.len() > 0 && (forall|j: int|
                0 <= j < elements@.len() ==> element_checked(#[trigger] elements@[j])) ==> (
            r matches Ok(p) && p.elements_spec() == elements@ && p.wf_spec()),
    {
        if elements.len() == 0 {
            return Err(PatternCreationError::NoShapeSequences);
        }
        let mut j: usize = 0;
        while j < elements.len()
            invariant
                j <= elements@.len(),
                forall|m: int| 0 <= m < j ==> element_checked(#[trigger] elements@[m]),
            decreases elements@.len() - j,
        {
            match &elements[j] {
                PatternElement::Permutation(counter, pop) => {
                    let len = counter.len();
                    if len == 0 || *pop == 0 || len < *pop {
                        return Err(PatternCreationError::ContainsInvalidPermutation);
                    }
                },
                _ => {},
            }
            j = j + 1;
        }
        Ok(Pattern { elements })
    }

    /// Validates and wraps an element list; see `try_new`.
    pub fn try_from(elements: Vec<PatternElement>) -> (r: Result<Pattern, PatternCreationError>)
        ensures
            elements@.len() == 0 ==> r == Result::<Pattern, PatternCreationError>::Err(
                PatternCreationError::NoShapeSequences,
            ),
            elements@.len() > 0 && (exists|j: int|
                0 <= j < elements@.len() && !element_checked(#[trigger] elements@[j])) ==> r
                == Result::<Pattern, PatternCreationError>::Err(
                PatternCreationError::ContainsInvalidPermutation,
            ),
            elements@.len() > 0 && (forall|j: int|
                0 <= j < elements@.len() ==> element_checked(#[trigger] elements@[j])) ==> (
            r matches Ok(p) && p.elements_spec() == elements@ && p.wf_spec()),
    {
        Pattern::try_new(elements)
    }

    /// Expands the elements from position `i` on into every denoted run.
    fn expand_from(elements: &Vec<PatternElement>, i: usize) -> (r: Vec<Vec<Shape>>)
        requires
            i <= elements@.len(),
            elements_wf(elements@.skip(i as int)),
            elems_count(elements@.skip(i as int)) <= usize::MAX,
        ensures
            views_of(r@) == expand_elems(elements@.skip(i as int)),
            r@.len() == elems_count(elements@.skip(i as int)),
            forall|k: int|
                0 <= k < r@.len() ==> (#[trigger] r@[k])@.len() == elems_dim(
                    elements@.skip(i as int),
                ),
        decreases elements@.len() - i,
    {
        let ghost rest = elements@.skip(i as int);
        if i == elements.len() {
            let mut r: Vec<Vec<Shape>> = Vec::new();
            let inner: Vec<Shape> = Vec::new();
            r.push(inner);
            proof {
                assert(rest =~= Seq::<PatternElement>::empty());
                assert(views_of(r@) =~= expand_elems(rest));
            }
            r
        } else {
            proof {
                assert(rest.drop_first() =~= elements@.skip(i + 1));
                assert(rest[0] == elements@[i as int]);
                assert(elements_wf(rest.drop_first()));
                lemma_elem_count_pos(rest[0]);
                lemma_elems_count_pos(rest.drop_first());
                assert(elems_count(rest) == rest[0].count_spec() * elems_count(rest.drop_first()));
                assert(rest[0].count_spec() <= elems_count(rest) && elems_count(rest.drop_first())
                    <= elems_count(rest)) by (nonlinear_arith)
                    requires
                        elems_count(rest) == rest[0].count_spec() * elems_count(rest.drop_first()),
                        rest[0].count_spec() >= 1,
                        elems_count(rest.drop_first()) >= 1,
                ;
            }
            let heads = elements[i].to_shapes_vec();
            let tails = Self::expand_from(elements, i + 1);
            let ghost heads_v = views_of(heads@);
            let ghost tails_v = views_of(tails@);
            let mut r: Vec<Vec<Shape>> = Vec::new();
            let mut hi: usize = 0;
            while hi < heads.len()
                invariant
                    hi <= heads@.len(),
                    views_of(heads@) == heads_v,
                    views_of(tails@) == tails_v,
                    heads@.len() == rest[0].count_spec(),
                    tails@.len() == elems_count(rest.drop_first()),
                    elems_count(rest) == rest[0].count_spec() * elems_count(rest.drop_first()),
                    elems_count(rest) <= usize::MAX,
                    forall|k: int|
                        0 <= k < heads@.len() ==> (#[trigger] heads@[k])@.len() == rest[0].dim_spec(),
                    forall|k: int|
                        0 <= k < tails@.len() ==> (#[trigger] tails@[k])@.len() == elems_dim(
                            rest.drop_first(),
                        ),
                    views_of(r@) == cross_concat(heads_v.take(hi as int), tails_v),
                    r@.len() == hi * tails@.len(),
                    forall|k: int|
                        0 <= k < r@.len() ==> (#[trigger] r@[k])@.len() == rest[0].dim_spec()
                            + elems_dim(rest.drop_first()),
                decreases heads@.len() - hi,
            {
                let ghost r_before = r@;
                let mut ti: usize = 0;
                proof {
                    assert(hi * tails@.len() + tails@.len() == (hi + 1) * tails@.len())
                        by (nonlinear_arith);
                    assert((hi + 1) * tails@.len() <= heads@.len() * tails@.len())
                        by (nonlinear_arith)
                        requires
                            hi + 1 <= heads@.len(),
                    ;
                }
                while ti < tails.len()
                    invariant
                        ti <= tails@.len(),
                        hi < heads@.len(),
                        views_of(heads@) == heads_v,
                        views_of(tails@) == tails_v,
                        hi * tails@.len() + tails@.len() <= usize::MAX,
                        forall|k: int|
                            0 <= k < heads@.len() ==> (#[trigger] heads@[k])@.len()
                                == rest[0].dim_spec(),
                        forall|k: int|
                            0 <= k < tails@.len() ==> (#[trigger] tails@[k])@.len() == elems_dim(
                                rest.drop_first(),
                            ),
                        r@.len() == hi * tails@.len() + ti,
                        views_of(r@) == cross_concat(heads_v.take(hi as int), tails_v)
                            + prepend_to_all(heads_v[hi as int], tails_v).take(ti as int),
                        forall|k: int|
                            0 <= k < r@.len() ==> (#[trigger] r@[k])@.len() == rest[0].dim_spec()
                                + elems_dim(rest.drop_first()),
                    decreases tails@.len() - ti,
                {
                    let mut row = heads[hi].clone();
                    let mut tail_copy = tails[ti].clone();
                    row.append(&mut tail_copy);
                    proof {
                        assert(row@ == heads_v[hi as int] + tails_v[ti as int]);
                    }
                    let ghost r_snap = r@;
                    r.push(row);
                    proof {
                        lemma_views_push(r_snap, row);
                        assert(prepend_to_all(heads_v[hi as int], tails_v).take(ti + 1)
                            =~= prepend_to_all(heads_v[hi as int], tails_v).take(ti as int).push(
                            heads_v[hi as int] + tails_v[ti as int],
                        ));
                        assert(views_of(r@) =~= cross_concat(heads_v.take(hi as int), tails_v)
                            + prepend_to_all(heads_v[hi as int], tails_v).take(ti + 1));
                    }
                    ti = ti + 1;
                }
                proof {
                    assert(heads_v.take(hi + 1) =~= heads_v.take(hi as int).push(
                        heads_v[hi as int],
                    ));
                    lemma_cross_concat_snoc(heads_v.take(hi as int), heads_v[hi as int], tails_v);
                    assert(prepend_to_all(heads_v[hi as int], tails_v).take(tails@.len() as int)
                        =~= prepend_to_all(heads_v[hi as int], tails_v));
                    assert(views_of(r@) == cross_concat(heads_v.take(hi + 1), tails_v));
                }
                hi = hi + 1;
            }
            proof {
                assert(heads_v.take(heads@.len() as int) =~= heads_v);
                assert(expand_elems(rest) == cross_concat(
                    rest[0].seqs_spec(),
                    expand_elems(rest.drop_first()),
                ));
                assert(elems_dim(rest) == rest[0].dim_spec() + elems_dim(rest.drop_first()));
            }
            r
        }
    }

    /// Returns all runs the pattern denotes, each run a list of shapes.
    fn to_shapes_vec(&self) -> (r: Vec<Vec<Shape>>)
        requires
            elements_wf(self.elements_spec()),
            elems_count(self.elements_spec()) <= usize::MAX,
        ensures
            views_of(r@) == expand_elems(self.elements_spec()),
            r@.len() == elems_count(self.elements_spec()),
            forall|k: int|
                0 <= k < r@.len() ==> (#[trigger] r@[k])@.len() == elems_dim(self.elements_spec()),
    {
        proof {
            assert(self.elements_spec().skip(0) =~= self.elements_spec());
        }
        Self::expand_from(&self.elements, 0)
    }

    /// Returns all sequences the pattern denotes: its full expansion. Their
    /// number is the pattern's `len_shapes_vec`, and each has `dim_shapes`
    /// positions.
    pub fn to_sequences(&self) -> (r: Vec<ShapeSequence>)
        requires
            elements_wf(self.elements_spec()),
            elems_count(self.elements_spec()) <= usize::MAX,
        ensures
            r@.map_values(|q: ShapeSequence| q@) == expand_elems(self.elements_spec()),
            r@.len() == elems_count(self.elements_spec()),
            forall|k: int|
                0 <= k < r@.len() ==> (#[trigger] r@[k])@.len() == elems_dim(self.elements_spec()),
    {
        let rows = self.to_shapes_vec();
        let ghost rows_v = views_of(rows@);
        let mut r: Vec<ShapeSequence> = Vec::new();
        let mut k: usize = 0;
        while k < rows.len()
            invariant
                k <= rows@.len(),
                views_of(rows@) == rows_v,
                r@.len() == k,
                forall|m: int| 0 <= m < k ==> (#[trigger] r@[m])@ == rows_v[m],
            decreases rows@.len() - k,
        {
            r.push(ShapeSequence::new(rows[k].clone()));
            k = k + 1;
        }
        proof {
            assert(r@.map_values(|q: ShapeSequence| q@) =~= rows_v);
        }
        r
    }

    /// Returns all orders the pattern denotes: the same expansion, wrapped
    /// as hold-affected orders.
    pub fn to_orders(&self) -> (r: Vec<ShapeOrder>)
        requires
            elements_wf(self.elements_spec()),
            elems_count(self.elements_spec()) <= usize::MAX,
        ensures
            r@.map_values(|q: ShapeOrder| q@) == expand_elems(self.elements_spec()),
            r@.len() == elems_count(self.elements_spec()),
            forall|k: int|
                0 <= k < r@.len() ==> (#[trigger] r@[k])@.len() == elems_dim(self.elements_spec()),
    {
        let rows = self.to_shapes_vec();
        let ghost rows_v = views_of(rows@);
        let mut r: Vec<ShapeOrder> = Vec::new();
        let mut k: usize = 0;
        while k < rows.len()
            invariant
                k <= rows@.len(),
                views_of(rows@) == rows_v,
                r@.len() == k,
                forall|m: int| 0 <= m < k ==> (#[trigger] r@[m])@ == rows_v[m],
            decreases rows@.len() - k,
        {
            r.push(ShapeOrder::new(rows[k].clone()));
            k = k + 1;
        }
        proof {
            assert(r@.map_values(|q: ShapeOrder| q@) =~= rows_v);
        }
        r
    }

    /// The number of sequences the pattern denotes: the product of its
    /// elements' counts, or 0 for an element-less pattern.
    pub fn len_shapes_vec(&self) -> (r: usize)
        requires
            elements_wf(self.elements_spec()),
            elems_count(self.elements_spec()) <= usize::MAX,
        ensures
            self.elements_spec().len() == 0 ==> r == 0,
            self.elements_spec().len() > 0 ==> r == elems_count(self.elements_spec()),
    {
        if self.elements.len() == 0 {
            return 0;
        }
        let mut acc: usize = 1;
        let mut k: usize = 0;
        proof {
            assert(self.elements_spec().take(0) =~= Seq::<PatternElement>::empty());
        }
        while k < self.elements.len()
            invariant
                k <= self.elements_spec().len(),
                elements_wf(self.elements_spec()),
                elems_count(self.elements_spec()) <= usize::MAX,
                acc == elems_count(self.elements_spec().take(k as int)),
            decreases self.elements_spec().len() - k,
        {
            proof {
                let all = self.elements_spec();
                let e = all[k as int];
                assert(all.take(k + 1) =~= all.take(k as int).push(e));
                lemma_elems_count_snoc(all.take(k as int), e);
                lemma_elems_count_split(all, k + 1);
                assert(elements_wf(all.skip(k + 1))) by {
                    assert(forall|m: int|
                        0 <= m < all.skip(k + 1).len() ==> (#[trigger] all.skip(k + 1)[m])
                            == all[m + k + 1]);
                };
                assert(elements_wf(all.take(k as int))) by {
                    assert(forall|m: int|
                        0 <= m < all.take(k as int).len() ==> (#[trigger] all.take(k as int)[m])
                            == all[m]);
                };
                lemma_elems_count_pos(all.skip(k + 1));
                lemma_elems_count_pos(all.take(k as int));
                assert(e.wf_spec());
                lemma_elem_count_pos(e);
                assert(elems_count(all.take(k + 1)) <= elems_count(all)) by (nonlinear_arith)
                    requires
                        elems_count(all) == elems_count(all.take(k + 1)) * elems_count(
                            all.skip(k + 1),
                        ),
                        elems_count(all.skip(k + 1)) >= 1,
                        elems_count(all.take(k + 1)) >= 0,
                ;
                assert(e.count_spec() <= elems_count(all.take(k + 1))) by (nonlinear_arith)
                    requires
                        elems_count(all.take(k + 1)) == elems_count(all.take(k as int))
                            * e.count_spec(),
                        elems_count(all.take(k as int)) >= 1,
                        e.count_spec() >= 0,
                ;
            }
            let c = self.elements[k].len_shapes_vec();
            acc = acc * c;
            k = k + 1;
        }
        proof {
            assert(self.elements_spec().take(self.elements_spec().len() as int) =~= self.elements_spec());
        }
        acc
    }

    /// The number of positions every denoted sequence has: the sum of the
    /// elements' dimensions.
    pub fn dim_shapes(&self) -> (r: usize)
        requires
            self.elements_spec().len() > 0,
            elements_wf(self.elements_spec()),
            elems_dim(self.elements_spec()) <= usize::MAX,
        ensures
            r == elems_dim(self.elements_spec()),
    {
        let mut acc: usize = 0;
        let mut k: usize = 0;
        proof {
            assert(self.elements_spec().take(0) =~= Seq::<PatternElement>::empty());
            lemma_elems_dim_split(self.elements_spec(), 0);
        }
        while k < self.elements.len()
            invariant
                k <= self.elements_spec().len(),
                elements_wf(self.elements_spec()),
                elems_dim(self.elements_spec()) <= usize::MAX,
                acc == elems_dim(self.elements_spec().take(k as int)),
                acc + elems_dim(self.elements_spec().skip(k as int)) == elems_dim(self.elements_spec()),
            decreases self.elements_spec().len() - k,
        {
            proof {
                assert(self.elements_spec().skip(k as int)[0] == self.elements_spec()[k as int]);
                assert(self.elements_spec().skip(k as int).drop_first() =~= self.elements_spec().skip(k + 1));
                assert(self.elements_spec().take(k + 1) =~= self.elements_spec().take(k as int).push(
                    self.elements_spec()[k as int],
                ));
                lemma_elems_dim_snoc(self.elements_spec().take(k as int), self.elements_spec()[k as int]);
            }
            let d = self.elements[k].dim_shapes();
            acc = acc + d;
            k = k + 1;
        }
        proof {
            assert(self.elements_spec().take(self.elements_spec().len() as int) =~= self.elements_spec());
        }
        acc
    }
}

/// The position sum over a list splits at any cut.
proof fn lemma_elems_dim_split(elems: Seq<PatternElement>, k: int)
    requires
        0 <= k <= elems.len(),
    ensures
        elems_dim(elems) == elems_dim(elems.take(k)) + elems_dim(elems.skip(k)),
    decreases k,
{
    if k == 0 {
        assert(elems.take(0) =~= Seq::<PatternElement>::empty());
        assert(elems.skip(0) =~= elems);
    } else {
        lemma_elems_dim_split(elems.drop_first(), k - 1);
        assert(elems.take(k).drop_first() =~= elems.drop_first().take(k - 1));
        assert(elems.skip(k) =~= elems.drop_first().skip(k - 1));
    }
}

/// The position sum over a list with one element appended at the back.
proof fn lemma_elems_dim_snoc(elems: Seq<PatternElement>, e: PatternElement)
    ensures
        elems_dim(elems.push(e)) == elems_dim(elems) + e.dim_spec(),
    decreases elems.len(),
{
    assert(elems.push(e).len() == elems.len() + 1);
    if elems.len() == 0 {
        assert(elems.push(e)[0] == e);
        assert(elems.push(e).drop_first() =~= Seq::<PatternElement>::empty());
        assert(elems_dim(elems.push(e)) == e.dim_spec() + elems_dim(
            Seq::<PatternElement>::empty(),
        ));
    } else {
        assert(elems.push(e)[0] == elems[0]);
        assert(elems.push(e).drop_first() =~= elems.drop_first().push(e));
        lemma_elems_dim_snoc(elems.drop_first(), e);
        assert(elems_dim(elems.push(e)) == elems[0].dim_spec() + elems_dim(
            elems.drop_first().push(e),
        ));
        assert(elems_dim(elems) == elems[0].dim_spec() + elems_dim(elems.drop_first()));
    }
}

/// The product count over a list with one element appended at the back.
proof fn lemma_elems_count_snoc(elems: Seq<PatternElement>, e: PatternElement)
    ensures
        elems_count(elems.push(e)) == elems_count(elems) * e.count_spec(),
    decreases elems.len(),
{
    assert(elems.push(e).len() == elems.len() + 1);
    if elems.len() == 0 {
        assert(elems.push(e)[0] == e);
        assert(elems.push(e).drop_first() =~= Seq::<PatternElement>::empty());
        assert(elems_count(elems.push(e)) == e.count_spec() * elems_count(
            Seq::<PatternElement>::empty(),
        ));
        assert(elems_count(Seq::<PatternElement>::empty()) == 1);
        assert(elems_count(elems) == 1);
        assert(elems_count(elems.push(e)) == elems_count(elems) * e.count_spec())
            by (nonlinear_arith)
            requires
                elems_count(elems.push(e)) == e.count_spec() * elems_count(
                    Seq::<PatternElement>::empty(),
                ),
                elems_count(Seq::<PatternElement>::empty()) == 1,
                elems_count(elems) == 1,
        ;
    } else {
        assert(elems.push(e)[0] == elems[0]);
        assert(elems.push(e).drop_first() =~= elems.drop_first().push(e));
        lemma_elems_count_snoc(elems.drop_first(), e);
        assert(elems_count(elems.push(e)) == elems[0].count_spec() * elems_count(
            elems.drop_first().push(e),
        ));
        assert(elems_count(elems) == elems[0].count_spec() * elems_count(elems.drop_first()));
        assert(elems_count(elems.push(e)) == elems_count(elems) * e.count_spec())
            by (nonlinear_arith)
            requires
                elems_count(elems.push(e)) == elems[0].count_spec() * elems_count(
                    elems.drop_first().push(e),
                ),
                elems_count(elems.drop_first().push(e)) == elems_count(elems.drop_first())
                    * e.count_spec(),
                elems_count(elems) == elems[0].count_spec() * elems_count(elems.drop_first()),
        ;
    }
}

} // verus!
