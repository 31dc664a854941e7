//! The reachability oracle: whether some total order of committing a set
//! of placements, with line clears applied after each commit, lets every
//! placement be dropped from spawn under the movement rules. The search
//! walks the power set of remaining pieces, memoized on the remaining-set
//! bitmask.

use vstd::prelude::*;

use std::collections::HashSet;

use crate::board::{
    bit64, count_bits_below, lemma_count_bits_below_masked, lemma_shift_one_pos, low_bits,
    squash_board, squash_cols, Board, Lines,
};
use crate::placement::{reaches_spec, MoveRules, PlacedBlocks};

verus! {

broadcast use vstd::std_specs::hash::group_hash_axioms;

/// The mask with one bit per piece of a set of `n` pieces.
pub open spec fn all_mask(n: nat) -> u64 {
    low_bits(n)
}

/// The cells, in column `x`, of every piece whose bit is set in `mask`.
pub open spec fn placed_key(pieces: Seq<PlacedBlocks>, mask: u64, x: int) -> u64
    decreases pieces.len(),
{
    if pieces.len() == 0 {
        0u64
    } else {
        placed_key(pieces.drop_last(), mask, x) | (if bit64(mask, pieces.len() - 1) {
            pieces.last().cells.col(x)
        } else {
            0u64
        })
    }
}

/// The columns of the board once the pieces of `placed` are committed on
/// top of the initial content.
pub open spec fn board_cols(init: Seq<u64>, pieces: Seq<PlacedBlocks>, placed: u64) -> Seq<u64> {
    Seq::new(10, |x: int| init[x] | placed_key(pieces, placed, x))
}

/// The rows below `height` that are completely filled on the given
/// columns: the rows the line clears have removed so far.
pub open spec fn deleted_key(cols: Seq<u64>, height: nat) -> u64 {
    Board::full_key(cols, 10) & low_bits(height)
}

/// The mask with bit `i` cleared.
pub open spec fn clear_bit(m: u64, i: int) -> u64 {
    m & !(1u64 << (i as u64))
}

/// A usable oracle context: ten columns, at most 64 pieces, each piece
/// well formed for the height, and the spawn row at or above the height.
pub open spec fn ctx_wf(
    init: Seq<u64>,
    pieces: Seq<PlacedBlocks>,
    height: nat,
    spawn: nat,
) -> bool {
    &&& init.len() == 10
    &&& pieces.len() <= 64
    &&& height <= spawn <= 63
    &&& forall|j: int| 0 <= j < pieces.len() ==> (#[trigger] pieces[j]).wf_spec(height as int)
}

/// Whether piece `i` may be committed next: every row it depends on
/// having been cleared has been cleared, and, on the board with cleared
/// rows removed, the piece can be dropped from spawn.
#[verifier::opaque]
pub open spec fn step_ok(
    init: Seq<u64>,
    pieces: Seq<PlacedBlocks>,
    height: nat,
    spawn: nat,
    remaining: u64,
    i: int,
) -> bool {
    let placed = all_mask(pieces.len() as nat) & !remaining;
    let cur = board_cols(init, pieces, placed);
    let del = deleted_key(cur, height);
    &&& pieces[i].intercepted_rows.key & !del == 0
    &&& reaches_spec(
        squash_cols(cur, del),
        squash_cols(pieces[i].cells.cols_seq(), del),
        spawn - count_bits_below(del, 64),
    )
}

/// Whether some order of committing the remaining pieces, line clears
/// applied after each commit, lets each piece in its turn be dropped from
/// spawn: the statement the oracle decides.
#[verifier::opaque]
pub open spec fn orders_exist(
    init: Seq<u64>,
    pieces: Seq<PlacedBlocks>,
    height: nat,
    spawn: nat,
    remaining: u64,
) -> bool
    decreases remaining,
    via orders_exist_decreases
{
    if remaining == 0 {
        true
    } else {
        exists|i: int|
            0 <= i < pieces.len() && i < 64 && #[trigger] bit64(remaining, i) && step_ok(
                init,
                pieces,
                height,
                spawn,
                remaining,
                i,
            ) && orders_exist(init, pieces, height, spawn, clear_bit(remaining, i))
    }
}

#[via_fn]
proof fn orders_exist_decreases(
    init: Seq<u64>,
    pieces: Seq<PlacedBlocks>,
    height: nat,
    spawn: nat,
    remaining: u64,
) {
    assert forall|i: int| 0 <= i < 64 && #[trigger] bit64(remaining, i) implies clear_bit(
        remaining,
        i,
    ) < remaining by {
        let iu = i as u64;
        assert((remaining & !(1u64 << iu)) < remaining) by (bit_vector)
            requires
                iu < 64,
                (remaining >> iu) & 1u64 == 1u64,
        ;
    }
}

/// A mask reads the same under `placed_key` as any mask that agrees with
/// it on the piece bits.
proof fn lemma_placed_key_same_bits(pieces: Seq<PlacedBlocks>, m1: u64, m2: u64, x: int)
    requires
        pieces.len() <= 64,
        forall|j: int| 0 <= j < pieces.len() ==> bit64(m1, j) == bit64(m2, j),
    ensures
        placed_key(pieces, m1, x) == placed_key(pieces, m2, x),
    decreases pieces.len(),
{
    if pieces.len() == 0 {
    } else {
        lemma_placed_key_same_bits(pieces.drop_last(), m1, m2, x);
    }
}

/// No piece bit is set in the zero mask.
proof fn lemma_placed_key_zero(pieces: Seq<PlacedBlocks>, x: int)
    requires
        pieces.len() <= 64,
    ensures
        placed_key(pieces, 0u64, x) == 0u64,
    decreases pieces.len(),
{
    if pieces.len() == 0 {
    } else {
        lemma_placed_key_zero(pieces.drop_last(), x);
        let j = (pieces.len() - 1) as u64;
        assert((0u64 >> j) & 1u64 != 1u64) by (bit_vector)
            requires
                j < 64,
        ;
        assert(!bit64(0u64, pieces.len() - 1));
        assert(0u64 | 0u64 == 0u64) by (bit_vector);
    }
}

/// Setting one more piece bit adds exactly that piece's cells.
proof fn lemma_placed_key_insert(pieces: Seq<PlacedBlocks>, mask: u64, i: int, x: int)
    requires
        0 <= i < pieces.len() <= 64,
        !bit64(mask, i),
    ensures
        placed_key(pieces, mask | (1u64 << (i as u64)), x) == placed_key(pieces, mask, x)
            | pieces[i].cells.col(x),
    decreases pieces.len(),
{
    let iu = i as u64;
    let mask2 = mask | (1u64 << iu);
    assert forall|j: int| 0 <= j < 64 && j != i implies bit64(mask2, j) == bit64(mask, j) by {
        let ju = j as u64;
        assert(((mask | (1u64 << iu)) >> ju) & 1u64 == (mask >> ju) & 1u64) by (bit_vector)
            requires
                iu < 64,
                ju < 64,
                ju != iu,
        ;
    }
    assert(bit64(mask2, i)) by {
        assert(((mask | (1u64 << iu)) >> iu) & 1u64 == 1u64) by (bit_vector)
            requires
                iu < 64,
        ;
    };
    let n = pieces.len() as int;
    if i == n - 1 {
        lemma_placed_key_same_bits(pieces.drop_last(), mask, mask2, x);
        assert(placed_key(pieces, mask2, x) == placed_key(pieces.drop_last(), mask2, x)
            | pieces.last().cells.col(x));
        assert(placed_key(pieces, mask, x) == placed_key(pieces.drop_last(), mask, x) | 0u64);
        assert(pieces.last() == pieces[i]);
        let a = placed_key(pieces.drop_last(), mask, x);
        let c = pieces[i].cells.col(x);
        assert((a | 0u64) | c == a | c) by (bit_vector);
    } else {
        lemma_placed_key_insert(pieces.drop_last(), mask, i, x);
        assert(pieces.drop_last()[i] == pieces[i]);
        assert(bit64(mask2, n - 1) == bit64(mask, n - 1));
        let a = placed_key(pieces.drop_last(), mask, x);
        let c = pieces[i].cells.col(x);
        let t = if bit64(mask, n - 1) {
            pieces.last().cells.col(x)
        } else {
            0u64
        };
        assert(placed_key(pieces, mask2, x) == (a | c) | t);
        assert(placed_key(pieces, mask, x) == a | t);
        assert((a | c) | t == (a | t) | c) by (bit_vector);
    }
}

/// A piece with an uncleared intercepted row may not be committed next.
proof fn lemma_step_not_eligible(
    init: Seq<u64>,
    pieces: Seq<PlacedBlocks>,
    height: nat,
    spawn: nat,
    remaining: u64,
    i: int,
    curcols: Seq<u64>,
    delkey: u64,
)
    requires
        curcols == board_cols(init, pieces, all_mask(pieces.len() as nat) & !remaining),
        delkey == deleted_key(curcols, height),
        0 <= i < pieces.len(),
        pieces[i].intercepted_rows.key & !delkey != 0,
    ensures
        !step_ok(init, pieces, height, spawn, remaining, i),
{
    reveal(step_ok);
}

/// A piece whose drop from spawn is obstructed may not be committed next.
proof fn lemma_step_unreachable(
    init: Seq<u64>,
    pieces: Seq<PlacedBlocks>,
    height: nat,
    spawn: nat,
    remaining: u64,
    i: int,
    curcols: Seq<u64>,
    delkey: u64,
    qb: Seq<u64>,
    qp: Seq<u64>,
    adj: int,
)
    requires
        curcols == board_cols(init, pieces, all_mask(pieces.len() as nat) & !remaining),
        delkey == deleted_key(curcols, height),
        0 <= i < pieces.len(),
        qb == squash_cols(curcols, delkey),
        qp == squash_cols(pieces[i].cells.cols_seq(), delkey),
        adj == spawn - count_bits_below(delkey, 64),
        !reaches_spec(qb, qp, adj),
    ensures
        !step_ok(init, pieces, height, spawn, remaining, i),
{
    reveal(step_ok);
}

/// A piece whose intercepted rows are cleared and whose drop is clear may
/// be committed next.
proof fn lemma_step_ok_intro(
    init: Seq<u64>,
    pieces: Seq<PlacedBlocks>,
    height: nat,
    spawn: nat,
    remaining: u64,
    i: int,
    curcols: Seq<u64>,
    delkey: u64,
    qb: Seq<u64>,
    qp: Seq<u64>,
    adj: int,
)
    requires
        curcols == board_cols(init, pieces, all_mask(pieces.len() as nat) & !remaining),
        delkey == deleted_key(curcols, height),
        0 <= i < pieces.len(),
        pieces[i].intercepted_rows.key & !delkey == 0,
        qb == squash_cols(curcols, delkey),
        qp == squash_cols(pieces[i].cells.cols_seq(), delkey),
        adj == spawn - count_bits_below(delkey, 64),
        reaches_spec(qb, qp, adj),
    ensures
        step_ok(init, pieces, height, spawn, remaining, i),
{
    reveal(step_ok);
}

/// With no pieces remaining, an order trivially exists.
proof fn lemma_orders_exist_zero(init: Seq<u64>, pieces: Seq<PlacedBlocks>, height: nat, spawn: nat)
    ensures
        orders_exist(init, pieces, height, spawn, 0u64),
{
    reveal(orders_exist);
}

/// A piece that may be committed next, whose removal leaves an orderable
/// remainder, witnesses an order.
proof fn lemma_orders_exist_intro(
    init: Seq<u64>,
    pieces: Seq<PlacedBlocks>,
    height: nat,
    spawn: nat,
    remaining: u64,
    i: int,
)
    requires
        0 <= i < pieces.len(),
        i < 64,
        bit64(remaining, i),
        step_ok(init, pieces, height, spawn, remaining, i),
        orders_exist(init, pieces, height, spawn, clear_bit(remaining, i)),
    ensures
        orders_exist(init, pieces, height, spawn, remaining),
{
    reveal(orders_exist);
    assert(remaining != 0) by {
        let iu = i as u64;
        assert((remaining >> iu) & 1u64 == 1u64 ==> remaining != 0) by (bit_vector);
    };
}

/// When every remaining piece either may not be committed next or leaves
/// an orderless remainder, no order exists.
proof fn lemma_orders_exist_none(
    init: Seq<u64>,
    pieces: Seq<PlacedBlocks>,
    height: nat,
    spawn: nat,
    remaining: u64,
)
    requires
        remaining != 0,
        forall|j: int|
            0 <= j < pieces.len() ==> !(bit64(remaining, j) && step_ok(
                init,
                pieces,
                height,
                spawn,
                remaining,
                j,
            ) && orders_exist(init, pieces, height, spawn, clear_bit(remaining, j))),
    ensures
        !orders_exist(init, pieces, height, spawn, remaining),
{
    reveal(orders_exist);
    if orders_exist(init, pieces, height, spawn, remaining) {
        let w = choose|w: int|
            0 <= w < pieces.len() && w < 64 && #[trigger] bit64(remaining, w) && step_ok(
                init,
                pieces,
                height,
                spawn,
                remaining,
                w,
            ) && orders_exist(init, pieces, height, spawn, clear_bit(remaining, w));
        assert(!(bit64(remaining, w) && step_ok(init, pieces, height, spawn, remaining, w)
            && orders_exist(init, pieces, height, spawn, clear_bit(remaining, w))));
    }
}

/// Committing one more piece merges exactly its cells into the board.
proof fn lemma_board_cols_insert(
    init: Seq<u64>,
    pieces: Seq<PlacedBlocks>,
    placed: u64,
    i: int,
    curcols: Seq<u64>,
    nbcols: Seq<u64>,
)
    requires
        0 <= i < pieces.len() <= 64,
        !bit64(placed, i),
        init.len() == 10,
        curcols == board_cols(init, pieces, placed),
        nbcols.len() == 10,
        forall|x: int| 0 <= x < 10 ==> nbcols[x] == (curcols[x] | pieces[i].cells.col(x)),
    ensures
        nbcols == board_cols(init, pieces, placed | (1u64 << (i as u64))),
{
    let placed2 = placed | (1u64 << (i as u64));
    assert forall|x: int| 0 <= x < 10 implies nbcols[x] == board_cols(init, pieces, placed2)[x] by {
        lemma_placed_key_insert(pieces, placed, i, x);
        assert(curcols[x] == init[x] | placed_key(pieces, placed, x));
        let a = init[x];
        let b = placed_key(pieces, placed, x);
        let c = pieces[i].cells.col(x);
        assert((a | b) | c == a | (b | c)) by (bit_vector);
    }
    assert(nbcols =~= board_cols(init, pieces, placed2));
}

/// The memoized subset search. The memo set holds remaining-set masks
/// whose exploration has completed and failed; a mask found there is not
/// explored again.
fn search(
    init: &Board,
    pieces: &Vec<PlacedBlocks>,
    height: usize,
    spawn_row: usize,
    rules: &MoveRules,
    cur: &Board,
    remaining: u64,
    memo: &mut HashSet<u64>,
) -> (r: bool)
    requires
        ctx_wf(init.cols_spec(), pieces@, height as nat, spawn_row as nat),
        init.wf_spec(),
        cur.wf_spec(),
        remaining & !all_mask(pieces@.len() as nat) == 0,
        cur.cols_spec() == board_cols(
            init.cols_spec(),
            pieces@,
            all_mask(pieces@.len() as nat) & !remaining,
        ),
        forall|m: u64|
            old(memo)@.contains(m) ==> !orders_exist(
                init.cols_spec(),
                pieces@,
                height as nat,
                spawn_row as nat,
                m,
            ),
    ensures
        r == orders_exist(init.cols_spec(), pieces@, height as nat, spawn_row as nat, remaining),
        !r ==> forall|m: u64|
            final(memo)@.contains(m) ==> !orders_exist(
                init.cols_spec(),
                pieces@,
                height as nat,
                spawn_row as nat,
                m,
            ),
    decreases remaining,
{
    let ghost ictx = init.cols_spec();
    let ghost pctx = pieces@;
    let ghost hctx = height as nat;
    let ghost sctx = spawn_row as nat;
    let ghost amask = all_mask(pieces@.len() as nat);
    if remaining == 0 {
        proof {
            lemma_orders_exist_zero(ictx, pctx, hctx, sctx);
        }
        return true;
    }
    let deleted = cur.full_rows(height);
    proof {
        assert(deleted.key == deleted_key(cur.cols_spec(), hctx));
        let dk = deleted.key;
        let fk = Board::full_key(cur.cols_spec(), 10);
        let lb = low_bits(hctx);
        assert(dk & !lb == 0) by (bit_vector)
            requires
                dk == fk & lb,
        ;
        lemma_count_bits_below_masked(deleted.key, height as int, 64);
    }
    let ndel = deleted.count();
    let spawn_adj = spawn_row - ndel;
    let qboard = squash_board(cur, deleted.key);
    let mut i: usize = 0;
    while i < pieces.len()
        invariant
            ctx_wf(ictx, pctx, hctx, sctx),
            init.wf_spec(),
            cur.wf_spec(),
            qboard.wf_spec(),
            ictx == init.cols_spec(),
            pctx == pieces@,
            hctx == height as nat,
            sctx == spawn_row as nat,
            amask == all_mask(pctx.len() as nat),
            i <= pctx.len(),
            remaining != 0,
            remaining & !amask == 0,
            cur.cols_spec() == board_cols(ictx, pctx, amask & !remaining),
            deleted.key == deleted_key(cur.cols_spec(), hctx),
            ndel == count_bits_below(deleted.key, 64),
            ndel <= height <= spawn_row <= 63,
            spawn_adj == spawn_row - ndel,
            qboard.cols_spec() == squash_cols(cur.cols_spec(), deleted.key),
            forall|m: u64| memo@.contains(m) ==> !orders_exist(ictx, pctx, hctx, sctx, m),
            forall|j: int|
                0 <= j < i ==> !(bit64(remaining, j) && step_ok(ictx, pctx, hctx, sctx, remaining, j)
                    && orders_exist(ictx, pctx, hctx, sctx, clear_bit(remaining, j))),
        decreases pctx.len() - i,
    {
        let ghost ji = i as int;
        if (remaining >> (i as u64)) & 1u64 == 1u64 {
            proof {
                assert(bit64(remaining, ji));
            }
            let p = &pieces[i];
            if deleted.covers(p.intercepted_rows) {
                let pcb = p.cells.to_board();
                let qpiece = squash_board(&pcb, deleted.key);
                if rules.can_reach(&qboard, &qpiece, spawn_adj) {
                    proof {
                        lemma_step_ok_intro(
                            ictx,
                            pctx,
                            hctx,
                            sctx,
                            remaining,
                            ji,
                            cur.cols_spec(),
                            deleted.key,
                            qboard.cols_spec(),
                            qpiece.cols_spec(),
                            spawn_adj as int,
                        );
                    }
                    let next = remaining & !(1u64 << (i as u64));
                    proof {
                        assert(next == clear_bit(remaining, ji));
                        assert(next < remaining) by (bit_vector)
                            requires
                                next == remaining & !(1u64 << (i as u64)),
                                (remaining >> (i as u64)) & 1u64 == 1u64,
                                (i as u64) < 64u64,
                        ;
                        assert(next & !amask == 0) by (bit_vector)
                            requires
                                next == remaining & !(1u64 << (i as u64)),
                                remaining & !amask == 0,
                        ;
                    }
                    if next == 0 {
                        proof {
                            lemma_orders_exist_zero(ictx, pctx, hctx, sctx);
                            lemma_orders_exist_intro(ictx, pctx, hctx, sctx, remaining, ji);
                        }
                        return true;
                    }
                    if !memo.contains(&next) {
                        let mut nb = cur.duplicate();
                        nb.merge(&pcb);
                        proof {
                            let placed = amask & !remaining;
                            let placed2 = amask & !next;
                            assert((placed >> (i as u64)) & 1u64 != 1u64) by (bit_vector)
                                requires
                                    placed == amask & !remaining,
                                    (remaining >> (i as u64)) & 1u64 == 1u64,
                                    (i as u64) < 64u64,
                            ;
                            assert(!bit64(placed, ji));
                            assert(placed2 == placed | (1u64 << (i as u64))) by (bit_vector)
                                requires
                                    placed == amask & !remaining,
                                    placed2 == amask & !next,
                                    next == remaining & !(1u64 << (i as u64)),
                                    remaining & !amask == 0,
                                    (remaining >> (i as u64)) & 1u64 == 1u64,
                                    (i as u64) < 64u64,
                            ;
                            assert forall|x: int| 0 <= x < 10 implies nb.cols_spec()[x] == (
                            cur.cols_spec()[x] | pctx[ji].cells.col(x)) by {
                                assert(nb.col(x) == (cur.col(x) | pcb.col(x)));
                                assert(pcb.col(x) == p.cells.col(x));
                            }
                            lemma_board_cols_insert(
                                ictx,
                                pctx,
                                placed,
                                ji,
                                cur.cols_spec(),
                                nb.cols_spec(),
                            );
                        }
                        let r2 = search(init, pieces, height, spawn_row, rules, &nb, next, memo);
                        if r2 {
                            proof {
                                lemma_orders_exist_intro(ictx, pctx, hctx, sctx, remaining, ji);
                            }
                            return true;
                        }
                        memo.insert(next);
                    }
                    proof {
                        assert(memo@.contains(next));
                        assert(!orders_exist(ictx, pctx, hctx, sctx, clear_bit(remaining, ji)));
                    }
                } else {
                    proof {
                        lemma_step_unreachable(
                            ictx,
                            pctx,
                            hctx,
                            sctx,
                            remaining,
                            ji,
                            cur.cols_spec(),
                            deleted.key,
                            qboard.cols_spec(),
                            qpiece.cols_spec(),
                            spawn_adj as int,
                        );
                    }
                }
            } else {
                proof {
                    lemma_step_not_eligible(
                        ictx,
                        pctx,
                        hctx,
                        sctx,
                        remaining,
                        ji,
                        cur.cols_spec(),
                        deleted.key,
                    );
                }
            }
        } else {
            proof {
                assert(!bit64(remaining, ji));
            }
        }
        i = i + 1;
    }
    proof {
        lemma_orders_exist_none(ictx, pctx, hctx, sctx, remaining);
    }
    false
}

/// The full-piece-set mask for `n` pieces.
fn full_mask(n: usize) -> (r: u64)
    requires
        n <= 64,
    ensures
        r == all_mask(n as nat),
{
    if n >= 64 {
        0xffff_ffff_ffff_ffffu64
    } else {
        proof {
            lemma_shift_one_pos(n as u64);
        }
        (1u64 << (n as u64)) - 1
    }
}

/// The reachability oracle: whether at least one total order of committing
/// all the placements, line clears applied after each commit, lets every
/// placement in its turn be dropped from the spawn row under the movement
/// rules. Deterministic: the result is a function of the arguments alone.
pub fn order_exists(
    init: &Board,
    pieces: &Vec<PlacedBlocks>,
    height: usize,
    spawn_row: usize,
    rules: &MoveRules,
) -> (r: bool)
    requires
        ctx_wf(init.cols_spec(), pieces@, height as nat, spawn_row as nat),
        init.wf_spec(),
    ensures
        r == orders_exist(
            init.cols_spec(),
            pieces@,
            height as nat,
            spawn_row as nat,
            all_mask(pieces@.len() as nat),
        ),
{
    let full = full_mask(pieces.len());
    let cur = init.duplicate();
    let mut memo: HashSet<u64> = HashSet::new();
    proof {
        let amask = all_mask(pieces@.len() as nat);
        assert(full & !amask == 0) by (bit_vector)
            requires
                full == amask,
        ;
        assert(amask & !full == 0) by (bit_vector)
            requires
                full == amask,
        ;
        assert forall|x: int| 0 <= x < 10 implies cur.cols_spec()[x] == board_cols(
            init.cols_spec(),
            pieces@,
            amask & !full,
        )[x] by {
            lemma_placed_key_same_bits(pieces@, amask & !full, 0u64, x);
            assert(forall|j: int|
                0 <= j < pieces@.len() ==> bit64(amask & !full, j) == bit64(0u64, j)) by {
                assert(amask & !full == 0);
            };
            lemma_placed_key_zero(pieces@, x);
            assert(init.cols_spec()[x] | 0u64 == init.cols_spec()[x]) by (bit_vector);
        }
        assert(cur.cols_spec() =~= board_cols(init.cols_spec(), pieces@, amask & !full));
    }
    search(init, pieces, height, spawn_row, rules, &cur, full, &mut memo)
}

/// Determinism of the oracle: two results computed for the same initial
/// board, piece set, height and spawn position are equal.
pub proof fn lemma_oracle_deterministic(
    init: Seq<u64>,
    pieces: Seq<PlacedBlocks>,
    height: nat,
    spawn: nat,
    r1: bool,
    r2: bool,
)
    requires
        r1 == orders_exist(init, pieces, height, spawn, all_mask(pieces.len() as nat)),
        r2 == orders_exist(init, pieces, height, spawn, all_mask(pieces.len() as nat)),
    ensures
        r1 == r2,
{
}

} // verus!
