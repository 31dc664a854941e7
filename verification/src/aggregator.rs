//! The feasibility aggregation engine: a depth-first walk over the
//! placement-dependency graph that prunes row-dependency violations,
//! filters candidates against allowed shape multisets, and counts the
//! candidates for which the reachability oracle finds a realizable order.

use vstd::prelude::*;

use crate::board::{ClippedBoard, Lines, MAX_HEIGHT};
use crate::counter::{count_shape, ShapeCounter};
use crate::oracle::{all_mask, orders_exist, order_exists};
use crate::placement::{MoveRules, PlacedBlocks};
use crate::shapes::Shape;

verus! {

/// One branching node of the placement-dependency graph.
#[derive(Copy, Clone, PartialEq, Eq, Structural, Hash, Debug)]
pub enum IndexNode {
    /// Branch over a contiguous run of items: the first item and how many.
    ToItem(usize, usize),
    /// Pass through to another index node without a choice.
    ToNextIndex(usize),
    /// All pieces of this path are chosen: a candidate is complete.
    Complete,
    /// The path is infeasible; it contributes nothing.
    Abort,
}

/// One placement choice: the placement it names and the index node the
/// walk continues at after choosing it.
#[derive(Copy, Clone, PartialEq, Eq, Structural, Hash, Debug)]
pub struct Item {
    /// The chosen placement, as an index into the placement list.
    pub placement: usize,
    /// Where the walk continues.
    pub next_index_id: usize,
}

/// The placement-dependency graph: index nodes and items, referenced by
/// dense 0-based identifiers. The head node is identifier 0, and every
/// edge leads to a strictly larger identifier, so every path ends at a
/// terminal node.
#[derive(Clone, PartialEq, Eq, Hash, Debug)]
pub struct Nodes {
    /// The index nodes.
    pub indexes: Vec<IndexNode>,
    /// The items.
    pub items: Vec<Item>,
}

impl Nodes {
    /// A usable graph over `n_placements` placements: item runs stay in
    /// range, every edge increases the identifier, and every placement
    /// reference is valid.
    pub open spec fn wf_spec(self, n_placements: int) -> bool {
        forall|id: int|
            0 <= id < self.indexes@.len() ==> match #[trigger] self.indexes@[id] {
                IndexNode::ToItem(first, count) => first + count <= self.items@.len()
                    && forall|k: int|
                    first <= k < first + count ==> (#[trigger] self.items@[k]).next_index_id > id
                        && self.items@[k].next_index_id < self.indexes@.len()
                        && self.items@[k].placement < n_placements,
                IndexNode::ToNextIndex(n) => id < n < self.indexes@.len(),
                IndexNode::Complete => true,
                IndexNode::Abort => true,
            }
    }

    /// The identifier the walk starts at, if the graph has any node.
    pub fn head_index_id(&self) -> (r: Option<usize>)
        ensures
            self.indexes@.len() == 0 ==> r is None,
            self.indexes@.len() > 0 ==> r == Some(0usize),
    {
        if self.indexes.len() == 0 {
            None
        } else {
            Some(0)
        }
    }
}

/// Whether the piece at `stack[j]` depends on rows the candidate piece
/// uses: it then must be placed after the candidate.
pub open spec fn depends_on(
    pl: Seq<PlacedBlocks>,
    stack: Seq<usize>,
    c: PlacedBlocks,
    j: int,
) -> bool {
    pl[stack[j] as int].intercepted_rows.key & c.using_key() != 0
}

/// The rows, among the first `j` stack entries that depend on the
/// candidate, that must stay filled until after the candidate is placed.
pub open spec fn filled_key_upto(
    pl: Seq<PlacedBlocks>,
    stack: Seq<usize>,
    c: PlacedBlocks,
    j: int,
) -> u64
    decreases j,
{
    if j <= 0 {
        0u64
    } else {
        filled_key_upto(pl, stack, c, j - 1) | (if depends_on(pl, stack, c, j - 1) {
            pl[stack[j - 1] as int].using_key()
        } else {
            0u64
        })
    }
}

/// The position the candidate is inserted at: just before the first stack
/// entry that depends on it, or at the end if none does.
pub open spec fn insert_pos_upto(
    pl: Seq<PlacedBlocks>,
    stack: Seq<usize>,
    c: PlacedBlocks,
    j: int,
) -> int
    decreases j,
{
    if j <= 0 {
        0
    } else {
        let p = insert_pos_upto(pl, stack, c, j - 1);
        if p < j - 1 {
            p
        } else if depends_on(pl, stack, c, j - 1) {
            j - 1
        } else {
            j
        }
    }
}

/// The shapes of the stack's pieces, in stack order.
pub open spec fn stack_shapes(pl: Seq<PlacedBlocks>, stack: Seq<usize>) -> Seq<Shape> {
    stack.map_values(|id: usize| pl[id as int].shape)
}

/// The stack's pieces, in stack order.
pub open spec fn stack_pieces(pl: Seq<PlacedBlocks>, stack: Seq<usize>) -> Seq<PlacedBlocks> {
    stack.map_values(|id: usize| pl[id as int])
}

/// Whether one allowed multiset contains every shape count of a
/// candidate's shapes.
pub open spec fn filter_accepts(f: ShapeCounter, shapes: Seq<Shape>) -> bool {
    forall|sh: Shape| f.count_spec(sh) >= count_shape(shapes, sh)
}

/// Whether one of the first `j` listed multisets contains the candidate's
/// shape multiset.
pub open spec fn passes_upto(fs: Seq<ShapeCounter>, shapes: Seq<Shape>, j: int) -> bool
    decreases j,
{
    if j <= 0 {
        false
    } else {
        passes_upto(fs, shapes, j - 1) || filter_accepts(fs[j - 1], shapes)
    }
}

/// Whether a candidate passes the shape filter: no filter accepts
/// everything; a filter list accepts a candidate iff some listed multiset
/// contains the candidate's shape multiset.
pub open spec fn passes_filter(
    filters: Option<Seq<ShapeCounter>>,
    pl: Seq<PlacedBlocks>,
    stack: Seq<usize>,
) -> bool {
    match filters {
        Option::None => true,
        Option::Some(fs) => passes_upto(fs, stack_shapes(pl, stack), fs.len() as int),
    }
}

/// The feasibility aggregation engine over one placement-dependency
/// graph, read-only once built.
#[derive(Debug)]
pub struct Aggregator {
    /// The clipped board the perfect clear is sought on.
    pub clipped_board: ClippedBoard,
    /// Every placement the graph's items may name.
    pub placements: Vec<PlacedBlocks>,
    /// The placement-dependency graph.
    pub nodes: Nodes,
    /// The row pieces spawn at, at or above the clipped height.
    pub spawn_row: usize,
    /// The movement rules the reachability oracle asks.
    pub move_rules: MoveRules,
}

impl Aggregator {
    /// A usable engine: a well-formed clipped board and graph, every
    /// placement well formed for the height, and spawn within range.
    pub open spec fn wf_spec(self) -> bool {
        &&& self.clipped_board.wf_spec()
        &&& self.nodes.wf_spec(self.placements@.len() as int)
        &&& forall|j: int|
            0 <= j < self.placements@.len() ==> (#[trigger] self.placements@[j]).wf_spec(
                self.clipped_board.height_spec(),
            )
        &&& self.clipped_board.height_spec() <= self.spawn_row <= MAX_HEIGHT
    }

    /// What one completed candidate contributes: 1 when it fits in the
    /// oracle's piece budget, passes the shape filter and the oracle finds
    /// a realizable order; else 0.
    pub open spec fn complete_val(
        self,
        filters: Option<Seq<ShapeCounter>>,
        stack: Seq<usize>,
    ) -> nat {
        if stack.len() <= 64 && passes_filter(filters, self.placements@, stack) && orders_exist(
            self.clipped_board.board_spec().cols_spec(),
            stack_pieces(self.placements@, stack),
            self.clipped_board.height_spec() as nat,
            self.spawn_row as nat,
            all_mask(stack.len() as nat),
        ) {
            1
        } else {
            0
        }
    }

    /// The candidates counted below one index node, with the given stack
    /// of already chosen placements.
    pub open spec fn count_index(
        self,
        filters: Option<Seq<ShapeCounter>>,
        id: int,
        stack: Seq<usize>,
    ) -> nat
        decreases self.nodes.indexes@.len() - id, 1nat, 0nat,
        when self.nodes.wf_spec(self.placements@.len() as int) && 0 <= id
            < self.nodes.indexes@.len()
    {
        match self.nodes.indexes@[id] {
            IndexNode::ToItem(first, count) => self.count_items(
                filters,
                id,
                first as int,
                count as nat,
                stack,
            ),
            IndexNode::ToNextIndex(n) => self.count_index(filters, n as int, stack),
            IndexNode::Complete => self.complete_val(filters, stack),
            IndexNode::Abort => 0,
        }
    }

    /// The candidates counted below a run of `count` items starting at
    /// `first`, each item a choice branching from index node `id`.
    pub open spec fn count_items(
        self,
        filters: Option<Seq<ShapeCounter>>,
        id: int,
        first: int,
        count: nat,
        stack: Seq<usize>,
    ) -> nat
        decreases self.nodes.indexes@.len() - id, 0nat, count,
        when self.nodes.wf_spec(self.placements@.len() as int) && 0 <= id
            < self.nodes.indexes@.len() && (self.nodes.indexes@[id] matches IndexNode::ToItem(
            f,
            c,
        ) && f <= first && first + count <= f + c)
    {
        if count == 0 {
            0
        } else {
            let it = self.nodes.items@[first];
            let c = self.placements@[it.placement as int];
            let piece_count: nat = if c.intercepted_rows.key & filled_key_upto(
                self.placements@,
                stack,
                c,
                stack.len() as int,
            ) != 0 {
                0
            } else {
                self.count_index(
                    filters,
                    it.next_index_id as int,
                    stack.insert(
                        insert_pos_upto(self.placements@, stack, c, stack.len() as int),
                        it.placement,
                    ),
                )
            };
            piece_count + self.count_items(filters, id, first + 1, (count - 1) as nat, stack)
        }
    }

    /// The whole count: what the walk from the head node yields, or 0 for
    /// a graph with no nodes.
    pub open spec fn count_spec(self, filters: Option<Seq<ShapeCounter>>) -> nat {
        if self.nodes.indexes@.len() == 0 {
            0
        } else {
            self.count_index(filters, 0, Seq::empty())
        }
    }
}

/// A count capped at what an unsigned 64-bit result can carry.
pub open spec fn cap64(n: nat) -> nat {
    if n > u64::MAX {
        u64::MAX as nat
    } else {
        n
    }
}


/// The filter list as the count specification sees it.
pub open spec fn filters_view(f: Option<&Vec<ShapeCounter>>) -> Option<Seq<ShapeCounter>> {
    match f {
        Option::None => Option::None,
        Option::Some(v) => Option::Some(v@),
    }
}

impl Aggregator {
    /// A run of items counts as its first part plus the rest.
    proof fn lemma_count_items_split(
        self,
        filters: Option<Seq<ShapeCounter>>,
        id: int,
        first: int,
        j: nat,
        count: nat,
        stack: Seq<usize>,
    )
        requires
            self.nodes.wf_spec(self.placements@.len() as int),
            0 <= id < self.nodes.indexes@.len(),
            self.nodes.indexes@[id] matches IndexNode::ToItem(f, c) && f <= first && first + count
                <= f + c,
            j <= count,
        ensures
            self.count_items(filters, id, first, count, stack) == self.count_items(
                filters,
                id,
                first,
                j,
                stack,
            ) + self.count_items(filters, id, first + j, (count - j) as nat, stack),
        decreases j,
    {
        if j == 0 {
        } else {
            self.lemma_count_items_split(filters, id, first + 1, (j - 1) as nat, (count - 1) as nat, stack);
        }
    }

    /// Builds the engine from its parts: the clipped board, the placement
    /// list, the graph, and the spawn row.
    pub fn new(
        clipped_board: ClippedBoard,
        placements: Vec<PlacedBlocks>,
        nodes: Nodes,
        spawn_row: usize,
    ) -> (r: Aggregator)
        requires
            clipped_board.wf_spec(),
            nodes.wf_spec(placements@.len() as int),
            forall|j: int|
                0 <= j < placements@.len() ==> (#[trigger] placements@[j]).wf_spec(
                    clipped_board.height_spec(),
                ),
            clipped_board.height_spec() <= spawn_row <= MAX_HEIGHT,
        ensures
            r.wf_spec(),
            r.clipped_board == clipped_board,
            r.placements == placements,
            r.nodes == nodes,
            r.spawn_row == spawn_row,
    {
        Aggregator { clipped_board, placements, nodes, spawn_row, move_rules: MoveRules::new() }
    }

    /// What one completed candidate contributes, computed.
    fn check_complete(&self, filters: Option<&Vec<ShapeCounter>>, stack: &Vec<usize>) -> (r: u64)
        requires
            self.wf_spec(),
            forall|k: int| 0 <= k < stack@.len() ==> stack@[k] < self.placements@.len(),
        ensures
            r == self.complete_val(filters_view(filters), stack@),
    {
        if stack.len() > 64 {
            return 0;
        }
        let passes: bool = match filters {
            None => true,
            Some(fs) => {
                let mut shapes: Vec<Shape> = Vec::new();
                let mut k: usize = 0;
                while k < stack.len()
                    invariant
                        k <= stack@.len(),
                        self.wf_spec(),
                        forall|m: int| 0 <= m < stack@.len() ==> stack@[m] < self.placements@.len(),
                        shapes@.len() == k,
                        forall|m: int|
                            0 <= m < k ==> shapes@[m] == self.placements@[stack@[m] as int].shape,
                    decreases stack@.len() - k,
                {
                    shapes.push(self.placements[stack[k]].shape);
                    k = k + 1;
                }
                proof {
                    assert(shapes@ =~= stack_shapes(self.placements@, stack@));
                }
                let counter = ShapeCounter::from(shapes);
                let ghost needed = stack_shapes(self.placements@, stack@);
                let mut any: bool = false;
                let mut k2: usize = 0;
                while k2 < fs.len()
                    invariant
                        k2 <= fs@.len(),
                        needed == stack_shapes(self.placements@, stack@),
                        forall|sh: Shape| #[trigger]
                            counter.count_spec(sh) == count_shape(needed, sh),
                        any == passes_upto(fs@, needed, k2 as int),
                    decreases fs@.len() - k2,
                {
                    let fits = fs[k2].contains_all(&counter);
                    proof {
                        if fits {
                            assert(filter_accepts(fs@[k2 as int], needed)) by {
                                assert forall|sh: Shape| fs@[k2 as int].count_spec(sh)
                                    >= count_shape(needed, sh) by {
                                    assert(fs@[k2 as int].count_spec(sh) >= counter.count_spec(
                                        sh,
                                    ));
                                }
                            };
                        } else {
                            assert(!filter_accepts(fs@[k2 as int], needed)) by {
                                let shw = choose|sh: Shape|
                                    fs@[k2 as int].count_spec(sh) < counter.count_spec(sh);
                                assert(fs@[k2 as int].count_spec(shw) < count_shape(needed, shw));
                            };
                        }
                    }
                    if fits {
                        any = true;
                    }
                    k2 = k2 + 1;
                }
                proof {
                    assert(filters_view(filters) == Option::Some(fs@));
                    assert(any == passes_filter(filters_view(filters), self.placements@, stack@));
                }
                any
            },
        };
        if !passes {
            return 0;
        }
        let mut sub: Vec<PlacedBlocks> = Vec::new();
        let mut k3: usize = 0;
        while k3 < stack.len()
            invariant
                k3 <= stack@.len(),
                self.wf_spec(),
                forall|m: int| 0 <= m < stack@.len() ==> stack@[m] < self.placements@.len(),
                sub@.len() == k3,
                forall|m: int| 0 <= m < k3 ==> sub@[m] == self.placements@[stack@[m] as int],
            decreases stack@.len() - k3,
        {
            sub.push(self.placements[stack[k3]]);
            k3 = k3 + 1;
        }
        proof {
            assert(sub@ =~= stack_pieces(self.placements@, stack@));
            assert forall|j: int| 0 <= j < sub@.len() implies (#[trigger] sub@[j]).wf_spec(
                self.clipped_board.height_spec(),
            ) by {
                assert(sub@[j] == self.placements@[stack@[j] as int]);
            }
        }
        let height = self.clipped_board.height();
        let ok = order_exists(
            self.clipped_board.board(),
            &sub,
            height,
            self.spawn_row,
            &self.move_rules,
        );
        if ok {
            1
        } else {
            0
        }
    }

    /// The walk below one index node; the stack is restored on return.
    fn aggregate_recursively(
        &self,
        filters: Option<&Vec<ShapeCounter>>,
        index_id: usize,
        stack: &mut Vec<usize>,
    ) -> (r: u64)
        requires
            self.wf_spec(),
            index_id < self.nodes.indexes@.len(),
            forall|k: int| 0 <= k < old(stack)@.len() ==> old(stack)@[k] < self.placements@.len(),
        ensures
            final(stack)@ == old(stack)@,
            r == cap64(self.count_index(filters_view(filters), index_id as int, old(stack)@)),
        decreases self.nodes.indexes@.len() - index_id,
    {
        let ghost fsv = filters_view(filters);
        let ghost stack0 = stack@;
        let node = self.nodes.indexes[index_id];
        match node {
            IndexNode::Abort => 0,
            IndexNode::Complete => {
                let v = self.check_complete(filters, stack);
                proof {
                    assert(self.complete_val(fsv, stack0) <= 1);
                }
                v
            },
            IndexNode::ToNextIndex(n) => {
                proof {
                    assert(self.nodes.indexes@[index_id as int] matches IndexNode::ToNextIndex(m)
                        && index_id < m < self.nodes.indexes@.len());
                }
                self.aggregate_recursively(filters, n, stack)
            },
            IndexNode::ToItem(first, count) => {
                proof {
                    assert(self.nodes.indexes@[index_id as int] matches IndexNode::ToItem(f, c)
                        && f + c <= self.nodes.items@.len());
                }
                let mut total: u64 = 0;
                let mut k: usize = 0;
                let items_len = self.nodes.items.len();
                while k < count
                    invariant
                        self.wf_spec(),
                        index_id < self.nodes.indexes@.len(),
                        self.nodes.indexes@[index_id as int] == IndexNode::ToItem(first, count),
                        first + count <= self.nodes.items@.len(),
                        items_len == self.nodes.items@.len(),
                        k <= count,
                        fsv == filters_view(filters),
                        stack@ == stack0,
                        forall|m: int| 0 <= m < stack0.len() ==> stack0[m] < self.placements@.len(),
                        total == cap64(
                            self.count_items(fsv, index_id as int, first as int, k as nat, stack0),
                        ),
                    decreases count - k,
                {
                    proof {
                        self.lemma_count_items_split(
                            fsv,
                            index_id as int,
                            first as int,
                            k as nat,
                            (k + 1) as nat,
                            stack0,
                        );
                        assert(self.count_items(
                            fsv,
                            index_id as int,
                            first + k + 1 as int,
                            0nat,
                            stack0,
                        ) == 0);
                    }
                    let item = self.nodes.items[first + k];
                    proof {
                        assert(self.nodes.items@[first + k as int].placement
                            < self.placements@.len() && self.nodes.items@[first
                            + k as int].next_index_id > index_id && self.nodes.items@[first
                            + k as int].next_index_id < self.nodes.indexes@.len());
                    }
                    let cand = self.placements[item.placement];
                    let cand_using = cand.using_rows();
                    let mut pos: usize = 0;
                    let mut filled: u64 = 0;
                    let mut j: usize = 0;
                    while j < stack.len()
                        invariant
                            j <= stack@.len(),
                            self.wf_spec(),
                            stack@ == stack0,
                            forall|m: int|
                                0 <= m < stack0.len() ==> stack0[m] < self.placements@.len(),
                            cand == self.placements@[self.nodes.items@[first + k as int].placement as int],
                            cand_using.key == cand.using_key(),
                            pos == insert_pos_upto(self.placements@, stack0, cand, j as int),
                            pos <= j,
                            filled == filled_key_upto(self.placements@, stack0, cand, j as int),
                        decreases stack@.len() - j,
                    {
                        let dep = self.placements[stack[j]].intercepted_rows.overlaps(cand_using);
                        proof {
                            assert(dep == depends_on(self.placements@, stack0, cand, j as int));
                        }
                        if dep {
                            let u = self.placements[stack[j]].using_rows();
                            filled = filled | u.key;
                        } else {
                            if pos == j {
                                pos = j + 1;
                            }
                            proof {
                                assert(filled | 0u64 == filled) by (bit_vector);
                            }
                        }
                        j = j + 1;
                    }
                    let part: u64 = if cand.intercepted_rows.key & filled != 0 {
                        0
                    } else {
                        stack.insert(pos, item.placement);
                        proof {
                            assert(stack@ == stack0.insert(
                                insert_pos_upto(self.placements@, stack0, cand, stack0.len() as int),
                                self.nodes.items@[first + k as int].placement,
                            ));
                            assert forall|m: int| 0 <= m < stack@.len() implies stack@[m]
                                < self.placements@.len() by {
                                assert(stack@ == stack0.insert(pos as int, item.placement));
                            }
                        }
                        let sub = self.aggregate_recursively(filters, item.next_index_id, stack);
                        stack.remove(pos);
                        proof {
                            assert(stack@ =~= stack0);
                        }
                        sub
                    };
                    proof {
                        let a = self.count_items(fsv, index_id as int, first as int, k as nat, stack0);
                        let b = self.count_items(fsv, index_id as int, first + k as int, 1nat, stack0);
                        assert(self.count_items(
                            fsv,
                            index_id as int,
                            first as int,
                            (k + 1) as nat,
                            stack0,
                        ) == a + b);
                        assert(part == cap64(b));
                    }
                    if total > u64::MAX - part {
                        total = u64::MAX;
                    } else {
                        total = total + part;
                    }
                    k = k + 1;
                }
                total
            },
        }
    }

    /// Counts the admissible perfect-clear candidate combinations, with no
    /// shape filter applied; the result saturates at the type's maximum.
    pub fn aggregate(&self) -> (r: u64)
        requires
            self.wf_spec(),
        ensures
            r == cap64(self.count_spec(Option::None)),
    {
        match self.nodes.head_index_id() {
            None => 0,
            Some(head) => {
                let mut stack: Vec<usize> = Vec::new();
                self.aggregate_recursively(None, head, &mut stack)
            },
        }
    }

    /// Counts the admissible perfect-clear candidate combinations whose
    /// shape multiset is contained in at least one of the given multisets;
    /// the result saturates at the type's maximum.
    pub fn aggregate_with_shape_counters(&self, shape_counters: &Vec<ShapeCounter>) -> (r: u64)
        requires
            self.wf_spec(),
        ensures
            r == cap64(self.count_spec(Option::Some(shape_counters@))),
    {
        match self.nodes.head_index_id() {
            None => 0,
            Some(head) => {
                let mut stack: Vec<usize> = Vec::new();
                self.aggregate_recursively(Some(shape_counters), head, &mut stack)
            },
        }
    }
}

} // verus!
