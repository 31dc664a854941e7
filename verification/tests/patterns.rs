use pc_count::{BitShapes, Pattern, PatternCreationError, PatternElement, Shape, ShapeCounter};
use pc_count::pattern::PatternElement::Permutation;

#[test]
fn one() {
    let pattern = PatternElement::One(Shape::I);
    assert_eq!(pattern.to_shapes_vec(), vec![vec![Shape::I]]);
}

#[test]
fn fixed() {
    let shapes = BitShapes::try_from(vec![Shape::T, Shape::O, Shape::L]).unwrap();
    let pattern = PatternElement::Fixed(shapes);
    assert_eq!(
        pattern.to_shapes_vec(),
        vec![vec![Shape::T, Shape::O, Shape::L]]
    );
}

#[test]
fn pattern_permutation() {
    let counter = ShapeCounter::from(vec![Shape::I]);
    let pattern = PatternElement::Permutation(counter, 1);
    assert_eq!(pattern.dim_shapes(), 1);
    assert_eq!(pattern.len_shapes_vec(), 1);

    let counter = ShapeCounter::from(vec![Shape::I, Shape::O, Shape::T]);
    let pattern = PatternElement::Permutation(counter, 1);
    assert_eq!(pattern.dim_shapes(), 1);
    assert_eq!(pattern.len_shapes_vec(), 3);

    let counter = ShapeCounter::from(vec![Shape::I, Shape::O, Shape::T]);
    let pattern = PatternElement::Permutation(counter, 2);
    assert_eq!(pattern.dim_shapes(), 2);
    assert_eq!(pattern.len_shapes_vec(), 6);

    let counter = ShapeCounter::one_of_each();
    let pattern = PatternElement::Permutation(counter, 3);
    assert_eq!(pattern.dim_shapes(), 3);
    assert_eq!(pattern.len_shapes_vec(), 210);

    let counter = ShapeCounter::one_of_each();
    let pattern = PatternElement::Permutation(counter, 5);
    assert_eq!(pattern.dim_shapes(), 5);
    assert_eq!(pattern.len_shapes_vec(), 2520);
}

#[test]
fn empty() {
    assert_eq!(
        Pattern::try_from(vec![]).unwrap_err(),
        PatternCreationError::NoShapeSequences
    );
}

#[test]
fn contains_invalid_permutation() {
    assert_eq!(
        Pattern::try_from(vec![Permutation(ShapeCounter::one_of_each(), 8)]).unwrap_err(),
        PatternCreationError::ContainsInvalidPermutation,
    );
    assert_eq!(
        Pattern::try_from(vec![Permutation(ShapeCounter::one_of_each(), 0)]).unwrap_err(),
        PatternCreationError::ContainsInvalidPermutation,
    );
    assert_eq!(
        Pattern::try_from(vec![Permutation(ShapeCounter::empty(), 0)]).unwrap_err(),
        PatternCreationError::ContainsInvalidPermutation,
    );
    assert_eq!(
        Pattern::try_from(vec![Permutation(ShapeCounter::empty(), 1)]).unwrap_err(),
        PatternCreationError::ContainsInvalidPermutation,
    );
}

#[test]
fn large() {
    let patterns = Pattern::try_from(vec![
        PatternElement::Permutation(ShapeCounter::one_of_each(), 6),
        PatternElement::Permutation(ShapeCounter::one_of_each(), 3),
    ])
    .unwrap();
    assert_eq!(patterns.len_shapes_vec(), 5040 * 210);
    assert_eq!(patterns.dim_shapes(), 9);
    assert_eq!(patterns.to_sequences().len(), 5040 * 210);
}

#[test]
fn permutation_expansion_order() {
    let counter = ShapeCounter::from(vec![Shape::I, Shape::O]);
    let pattern = PatternElement::Permutation(counter, 2);
    assert_eq!(
        pattern.to_shapes_vec(),
        vec![vec![Shape::I, Shape::O], vec![Shape::O, Shape::I]]
    );
}

#[test]
fn wildcard_expansion() {
    let pattern = PatternElement::Wildcard;
    let rows = pattern.to_shapes_vec();
    assert_eq!(rows.len(), 7);
    assert_eq!(rows[0], vec![Shape::T]);
    assert_eq!(rows[6], vec![Shape::Z]);
}

#[test]
fn expansion_count_matches_len() {
    let pattern = Pattern::try_from(vec![
        PatternElement::One(Shape::T),
        PatternElement::Wildcard,
        PatternElement::Wildcard,
    ])
    .unwrap();
    assert_eq!(pattern.len_shapes_vec(), 49);
    assert_eq!(pattern.dim_shapes(), 3);
    let seqs = pattern.to_sequences();
    assert_eq!(seqs.len(), 49);
    for s in &seqs {
        assert_eq!(s.shapes().len(), 3);
        assert_eq!(s.shapes()[0], Shape::T);
    }
    let orders = pattern.to_orders();
    assert_eq!(orders.len(), 49);
}

#[test]
fn counter_contains_all() {
    let a = ShapeCounter::one_of_each();
    let b = ShapeCounter::from(vec![Shape::T, Shape::I]);
    assert!(a.contains_all(&b));
    assert!(!b.contains_all(&a));
    let c = ShapeCounter::from(vec![Shape::T, Shape::T]);
    assert!(!a.contains_all(&c));
    assert_eq!(a.len(), 7);
    assert_eq!(c.len(), 2);
    assert_eq!(ShapeCounter::empty().len(), 0);
}
