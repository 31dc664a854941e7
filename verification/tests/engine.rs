use pc_count::shapes::Shape;
use pc_count::{
    Aggregator, Board, ClippedBoard, FuzzyShape, FuzzyShapeOrder, IndexNode, Item, Lines,
    MoveRules, Nodes, PieceCells, PlacedBlocks, ShapeOrder, ShapeCounter,
};
use pc_count::oracle::order_exists;
use pc_count::fuzzy::FuzzyShape::{Known, Unknown};
use pc_count::shapes::Shape::{I, J, L, O, S, T, Z};

fn half_row_piece(shape: Shape, x_from: usize, x_to: usize) -> PlacedBlocks {
    let mut cells = PieceCells::blank();
    let mut x = x_from;
    while x < x_to {
        cells.set_at(x, 0);
        x += 1;
    }
    PlacedBlocks {
        shape,
        cells,
        intercepted_rows: Lines::blank(),
    }
}

fn two_piece_engine() -> Aggregator {
    let clipped = ClippedBoard::try_new(Board::blank(), 1).unwrap();
    let placements = vec![
        half_row_piece(Shape::T, 0, 5),
        half_row_piece(Shape::I, 5, 10),
    ];
    let nodes = Nodes {
        indexes: vec![
            IndexNode::ToItem(0, 1),
            IndexNode::ToItem(1, 1),
            IndexNode::Complete,
        ],
        items: vec![
            Item {
                placement: 0,
                next_index_id: 1,
            },
            Item {
                placement: 1,
                next_index_id: 2,
            },
        ],
    };
    Aggregator::new(clipped, placements, nodes, 1)
}

#[test]
fn fuzzy() {
    let fuzzy_shape_order = FuzzyShapeOrder::new(vec![Known(T), Unknown, Known(O)]);
    let orders = fuzzy_shape_order.expand_as_wildcard();
    assert_eq!(
        orders,
        vec![
            ShapeOrder::new(vec![T, T, O]),
            ShapeOrder::new(vec![T, I, O]),
            ShapeOrder::new(vec![T, O, O]),
            ShapeOrder::new(vec![T, L, O]),
            ShapeOrder::new(vec![T, J, O]),
            ShapeOrder::new(vec![T, S, O]),
            ShapeOrder::new(vec![T, Z, O]),
        ]
    );
}

#[test]
fn fuzzy_single_unknown() {
    let order = FuzzyShapeOrder::new(vec![FuzzyShape::Unknown]);
    let orders = order.expand_as_wildcard();
    assert_eq!(orders.len(), 7);
}

#[test]
fn aggregate_counts_tiling() {
    let agg = two_piece_engine();
    assert_eq!(agg.aggregate(), 1);
}

#[test]
fn aggregate_filter_monotone() {
    let agg = two_piece_engine();
    let wide = vec![ShapeCounter::one_of_each()];
    let narrow = vec![ShapeCounter::from(vec![Shape::T])];
    let wide_count = agg.aggregate_with_shape_counters(&wide);
    let narrow_count = agg.aggregate_with_shape_counters(&narrow);
    assert_eq!(wide_count, 1);
    assert_eq!(narrow_count, 0);
    assert!(narrow_count <= wide_count);
}

#[test]
fn aggregate_empty_graph() {
    let clipped = ClippedBoard::try_new(Board::blank(), 1).unwrap();
    let nodes = Nodes {
        indexes: vec![],
        items: vec![],
    };
    let agg = Aggregator::new(clipped, vec![], nodes, 1);
    assert_eq!(agg.aggregate(), 0);
}

#[test]
fn oracle_deterministic() {
    let board = Board::blank();
    let pieces = vec![
        half_row_piece(Shape::T, 0, 5),
        half_row_piece(Shape::I, 5, 10),
    ];
    let rules = MoveRules::new();
    let first = order_exists(&board, &pieces, 1, 1, &rules);
    let second = order_exists(&board, &pieces, 1, 1, &rules);
    assert_eq!(first, second);
    assert!(first);
}

#[test]
fn oracle_blocked_column() {
    // A cell already above the target square obstructs the drop.
    let mut board = Board::blank();
    let mut cover = PieceCells::blank();
    cover.set_at(0, 1);
    let cb = cover.to_board();
    board.merge(&cb);
    let pieces = vec![half_row_piece(Shape::T, 0, 5)];
    let rules = MoveRules::new();
    assert!(!order_exists(&board, &pieces, 2, 2, &rules));
}

#[test]
fn clipped_board_rejects_tall_content() {
    let mut cells = PieceCells::blank();
    cells.set_at(0, 3);
    let board = cells.to_board();
    assert!(ClippedBoard::try_new(board, 2).is_none());
    let blank = Board::blank();
    assert!(ClippedBoard::try_new(blank, 0).is_none());
    assert!(ClippedBoard::try_new(Board::blank(), 4).is_some());
}

#[test]
fn lines_operations() {
    let a = Lines::filled_up_to(2);
    assert_eq!(a.key, 0b11);
    let b = Lines { key: 0b10 };
    assert!(a.overlaps(b));
    assert!(a.covers(b));
    assert!(!b.covers(a));
    assert_eq!(a.union(b).key, 0b11);
    assert_eq!(a.count(), 2);
    assert_eq!(Lines::blank().key, 0);
}
