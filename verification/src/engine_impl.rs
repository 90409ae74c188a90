//! The chain traversal engine: move application, move cancellation,
//! activation propagation, and the importance-based traversal strategy.
//!
//! A chain is a maximal connected group of same-owner filled cells.
//! Aliveness is chain-wide, so instead of rescanning a whole chain on every
//! move, only designated `important` anchor cells are tested; a chain is
//! revived or killed by one depth-first walk from the point where adjacency
//! to an active claim was gained or lost. The walks use an explicit
//! work-list and mark cells through the aliveness flag itself, so no
//! recursion depth is ever at risk.

use vstd::prelude::*;

use crate::base::BoardError;
use crate::base::CellKind;
use crate::base::SearchResult;
use crate::game_board_impl::GameBoardImpl;
use crate::game_board_impl::cells_unchanged;
use crate::game_board_impl::counts_unchanged;
use crate::game_board_impl::counters_unchanged;
use crate::game_board_impl::active_cells_upto;
use crate::game_board_impl::is_claim;
use crate::game_board_impl::claims_in_adj_upto;
use crate::game_board_impl::same_structure;

verus! {

/// Number of alive cells among the first `k`.
pub open spec fn alive_upto(b: GameBoardImpl, k: int) -> int
    decreases k,
{
    if k <= 0 {
        0
    } else {
        alive_upto(b, k - 1) + if b.alive_at(k - 1) {
            1int
        } else {
            0int
        }
    }
}

proof fn lemma_alive_upto_bounds(b: GameBoardImpl, k: int)
    ensures
        0 <= alive_upto(b, k),
        alive_upto(b, k) <= if k <= 0 {
            0int
        } else {
            k
        },
    decreases k,
{
    if k > 0 {
        lemma_alive_upto_bounds(b, k - 1);
    }
}

/// Flipping the aliveness of one cell moves the alive total by one.
proof fn lemma_alive_upto_change(a: GameBoardImpl, b: GameBoardImpl, i: int, k: int)
    requires
        b.n() == a.n(),
        0 <= i < a.n(),
        k <= a.n(),
        forall|j: int| 0 <= j < a.n() && j != i ==> #[trigger] b.alive_at(j) == a.alive_at(j),
    ensures
        alive_upto(b, k) == alive_upto(a, k) + if i < k {
            (if b.alive_at(i) {
                1int
            } else {
                0int
            }) - (if a.alive_at(i) {
                1int
            } else {
                0int
            })
        } else {
            0int
        },
    decreases k,
{
    if k > 0 {
        lemma_alive_upto_change(a, b, i, k - 1);
    }
}

/// A change that touches no aliveness flag keeps the alive total.
proof fn lemma_alive_upto_same(a: GameBoardImpl, b: GameBoardImpl, k: int)
    requires
        b.n() == a.n(),
        k <= a.n(),
        forall|j: int| 0 <= j < a.n() ==> #[trigger] b.alive_at(j) == a.alive_at(j),
    ensures
        alive_upto(b, k) == alive_upto(a, k),
    decreases k,
{
    if k > 0 {
        lemma_alive_upto_same(a, b, k - 1);
    }
}

/// An activation count of `owner` moves only where activation is
/// meaningful for them: on an empty cell or on a cross they do not own.
pub open spec fn counts_move_only_on_fringe(a: GameBoardImpl, b: GameBoardImpl, owner: int) -> bool {
    forall|j: int|
        0 <= j < a.n() && #[trigger] b.cnt(j, owner) != a.cnt(j, owner) ==> (a.kind_at(j) is Empty
            || (a.kind_at(j) is Cross && a.owner_at(j) != owner))
}

/// The frame that every mutating walk of the engine preserves: the board
/// keeps its structure, no cell changes kind or owner, and no anchor flag
/// moves; only aliveness of the walked owner's filled cells and that
/// owner's activation counts move, and only in the walk's direction.
pub open spec fn walk_frame(a: GameBoardImpl, b: GameBoardImpl, owner: int) -> bool {
    &&& b.wf()
    &&& same_structure(a, b)
    &&& counts_move_only_on_fringe(a, b, owner)
    &&& forall|j: int| 0 <= j < a.n() ==> #[trigger] b.kind_at(j) == a.kind_at(j)
    &&& forall|j: int| 0 <= j < a.n() ==> #[trigger] b.owner_at(j) == a.owner_at(j)
    &&& forall|j: int| 0 <= j < a.n() ==> #[trigger] b.important_at(j) == a.important_at(j)
    &&& forall|j: int|
        0 <= j < a.n() && b.alive_at(j) != a.alive_at(j) ==> (#[trigger] b.kind_at(j)) is Filled
            && b.owner_at(j) == owner
    &&& forall|j: int, q: int|
        0 <= j < a.n() && 0 <= q < a.players() && q != owner ==> #[trigger] b.cnt(j, q) == a.cnt(
            j,
            q,
        )
    &&& forall|q: int|
        0 <= q < a.players() && q != owner ==> #[trigger] b.moves_counter_at(q)
            == a.moves_counter_at(q)
    &&& forall|q: int|
        0 <= q < a.players() ==> #[trigger] b.crosses_counter_at(q) == a.crosses_counter_at(q)
}

/// The revive walk has finished with `v`, relative to the pre-walk board
/// `a`: every same-owner filled neighbour that was dead is now alive, and
/// every empty or opposing-cross neighbour gained an activation edge for
/// the owner.
pub open spec fn revive_scanned(a: GameBoardImpl, b: GameBoardImpl, owner: int, v: int) -> bool {
    forall|k: int|
        0 <= k < a.adj(v).len() ==> ((a.kind_at(((#[trigger] a.adj(v)[k]) as int)) is Filled
            && a.owner_at(a.adj(v)[k] as int) == owner && !a.alive_at(a.adj(v)[k] as int)
            ==> b.alive_at(a.adj(v)[k] as int)) && ((a.kind_at(a.adj(v)[k] as int) is Empty || (
        a.kind_at(a.adj(v)[k] as int) is Cross && a.owner_at(a.adj(v)[k] as int) != owner))
            && a.cnt(a.adj(v)[k] as int, owner) < usize::MAX ==> b.cnt(a.adj(v)[k] as int, owner)
            > a.cnt(a.adj(v)[k] as int, owner)))
}

/// The kill walk has finished with `v`, relative to the pre-walk board `a`:
/// every same-owner filled neighbour that was alive is now dead, and every
/// empty or opposing-cross neighbour that had an activation edge for the
/// owner lost one.
pub open spec fn kill_scanned(a: GameBoardImpl, b: GameBoardImpl, owner: int, v: int) -> bool {
    forall|k: int|
        0 <= k < a.adj(v).len() ==> ((a.kind_at(((#[trigger] a.adj(v)[k]) as int)) is Filled
            && a.owner_at(a.adj(v)[k] as int) == owner && a.alive_at(a.adj(v)[k] as int)
            ==> !b.alive_at(a.adj(v)[k] as int)) && ((a.kind_at(a.adj(v)[k] as int) is Empty || (
        a.kind_at(a.adj(v)[k] as int) is Cross && a.owner_at(a.adj(v)[k] as int) != owner))
            && a.cnt(a.adj(v)[k] as int, owner) > 0 ==> b.cnt(a.adj(v)[k] as int, owner) < a.cnt(
            a.adj(v)[k] as int,
            owner,
        )))
}

/// The board `b` follows `a` in a revive walk of `owner`: same structure,
/// kinds and owners; aliveness and the owner's counts only grew.
pub open spec fn revive_rel(a: GameBoardImpl, b: GameBoardImpl, owner: int) -> bool {
    &&& same_structure(a, b)
    &&& forall|j: int| 0 <= j < a.n() ==> #[trigger] b.kind_at(j) == a.kind_at(j)
    &&& forall|j: int| 0 <= j < a.n() ==> #[trigger] b.owner_at(j) == a.owner_at(j)
    &&& forall|j: int| 0 <= j < a.n() && a.alive_at(j) ==> #[trigger] b.alive_at(j)
    &&& forall|j: int| 0 <= j < a.n() ==> #[trigger] b.cnt(j, owner) >= a.cnt(j, owner)
}

/// The board `b` follows `a` in a kill walk of `owner`: same structure,
/// kinds and owners; aliveness and the owner's counts only fell.
pub open spec fn kill_rel(a: GameBoardImpl, b: GameBoardImpl, owner: int) -> bool {
    &&& same_structure(a, b)
    &&& forall|j: int| 0 <= j < a.n() ==> #[trigger] b.kind_at(j) == a.kind_at(j)
    &&& forall|j: int| 0 <= j < a.n() ==> #[trigger] b.owner_at(j) == a.owner_at(j)
    &&& forall|j: int| 0 <= j < a.n() && !a.alive_at(j) ==> !(#[trigger] b.alive_at(j))
    &&& forall|j: int| 0 <= j < a.n() ==> #[trigger] b.cnt(j, owner) <= a.cnt(j, owner)
}

/// A board whose newly alive cells are all revive-scanned has revived every
/// dead chain path that starts at a newly alive cell.
pub proof fn lemma_revive_closure_covers(
    a: GameBoardImpl,
    b: GameBoardImpl,
    owner: int,
    path: Seq<usize>,
)
    requires
        forall|v: int|
            0 <= v < a.n() && #[trigger] b.alive_at(v) && !a.alive_at(v) ==> revive_scanned(
                a,
                b,
                owner,
                v,
            ),
        chain_path(a, owner, path),
        forall|t: int| 0 <= t < path.len() ==> !a.alive_at(((#[trigger] path[t]) as int)),
        b.alive_at(path[0] as int),
    ensures
        b.alive_at(path[path.len() - 1] as int),
        revive_scanned(a, b, owner, path[path.len() - 1] as int),
    decreases path.len(),
{
    if path.len() > 1 {
        let pre = path.subrange(0, path.len() - 1);
        assert(forall|t: int| 0 <= t < pre.len() ==> #[trigger] pre[t] == path[t]);
        assert(chain_path(a, owner, pre));
        lemma_revive_closure_covers(a, b, owner, pre);
        let t0 = path.len() - 2;
        let m = path[t0];
        assert(b.alive_at(m as int) && !a.alive_at(m as int));
        assert(revive_scanned(a, b, owner, m as int));
        assert(a.adj(m as int).contains(path[t0 + 1]));
        let k0 = choose|k: int|
            0 <= k < a.adj(m as int).len() && a.adj(m as int)[k] == path[path.len() - 1];
        assert(b.alive_at(a.adj(m as int)[k0] as int));
    }
}

/// A board whose newly dead cells are all kill-scanned has killed every
/// alive chain path that starts at a newly dead cell.
pub proof fn lemma_kill_closure_covers(
    a: GameBoardImpl,
    b: GameBoardImpl,
    owner: int,
    path: Seq<usize>,
)
    requires
        forall|v: int|
            0 <= v < a.n() && !(#[trigger] b.alive_at(v)) && a.alive_at(v) ==> kill_scanned(
                a,
                b,
                owner,
                v,
            ),
        chain_path(a, owner, path),
        forall|t: int| 0 <= t < path.len() ==> a.alive_at(((#[trigger] path[t]) as int)),
        !b.alive_at(path[0] as int),
    ensures
        !b.alive_at(path[path.len() - 1] as int),
        kill_scanned(a, b, owner, path[path.len() - 1] as int),
    decreases path.len(),
{
    if path.len() > 1 {
        let pre = path.subrange(0, path.len() - 1);
        assert(forall|t: int| 0 <= t < pre.len() ==> #[trigger] pre[t] == path[t]);
        assert(chain_path(a, owner, pre));
        lemma_kill_closure_covers(a, b, owner, pre);
        let t0 = path.len() - 2;
        let m = path[t0];
        assert(!b.alive_at(m as int) && a.alive_at(m as int));
        assert(kill_scanned(a, b, owner, m as int));
        assert(a.adj(m as int).contains(path[t0 + 1]));
        let k0 = choose|k: int|
            0 <= k < a.adj(m as int).len() && a.adj(m as int)[k] == path[path.len() - 1];
        assert(!b.alive_at(a.adj(m as int)[k0] as int));
    }
}

/// One step of the revive walk: the chain cell `m` activates the walked
/// owner on every adjacent empty cell and opposing cross, and revives (and
/// queues) every adjacent dead filled cell of the same owner. `base` is the
/// board as it stood when the walk began.
fn revive_visit(
    board: &mut GameBoardImpl,
    m: usize,
    owner: usize,
    stack: &mut Vec<usize>,
    Ghost(base): Ghost<GameBoardImpl>,
    Ghost(start): Ghost<usize>,
)
    requires
        old(board).wf(),
        base.wf(),
        revive_rel(base, *old(board), owner as int),
        (m as int) < old(board).n(),
        (owner as int) < old(board).players(),
        old(board).alive_at(m as int),
        chain_reachable(base, owner as int, start, m),
        forall|t: int|
            0 <= t < old(stack)@.len() ==> ((#[trigger] old(stack)@[t]) as int) < old(board).n()
                && old(board).kind_at(old(stack)@[t] as int) is Filled && old(board).owner_at(
                old(stack)@[t] as int,
            ) == owner && old(board).alive_at(old(stack)@[t] as int) && chain_reachable(
                base,
                owner as int,
                start,
                old(stack)@[t],
            ),
        forall|v: int|
            0 <= v < base.n() && #[trigger] old(board).alive_at(v) && !base.alive_at(v) && v
                != m as int ==> old(stack)@.contains(v as usize) || revive_scanned(
                base,
                *old(board),
                owner as int,
                v,
            ),
        forall|v: int|
            0 <= v < base.n() && #[trigger] old(board).alive_at(v) && !base.alive_at(v)
                ==> chain_reachable(base, owner as int, start, v as usize),
    ensures
        walk_frame(*old(board), *final(board), owner as int),
        revive_rel(base, *final(board), owner as int),
        forall|j: int|
            0 <= j < old(board).n() && old(board).alive_at(j) ==> #[trigger] final(board).alive_at(
                j,
            ),
        forall|j: int|
            0 <= j < old(board).n() ==> #[trigger] final(board).cnt(j, owner as int) >= old(board).cnt(j, owner as int),
        forall|t: int|
            0 <= t < final(stack)@.len() ==> ((#[trigger] final(stack)@[t]) as int) < old(board).n()
                && final(board).kind_at(final(stack)@[t] as int) is Filled && final(board).owner_at(
                final(stack)@[t] as int,
            ) == owner && final(board).alive_at(final(stack)@[t] as int) && chain_reachable(
                base,
                owner as int,
                start,
                final(stack)@[t],
            ),
        alive_upto(*final(board), final(board).n()) - alive_upto(*old(board), old(board).n())
            == final(stack)@.len() - old(stack)@.len(),
        final(stack)@.len() >= old(stack)@.len(),
        forall|v: int|
            0 <= v < base.n() && #[trigger] final(board).alive_at(v) && !base.alive_at(v)
                ==> final(stack)@.contains(v as usize) || revive_scanned(
                base,
                *final(board),
                owner as int,
                v,
            ),
        forall|v: int|
            0 <= v < base.n() && #[trigger] final(board).alive_at(v) && !base.alive_at(v)
                ==> chain_reachable(base, owner as int, start, v as usize),
        revive_scanned(base, *final(board), owner as int, m as int),
        // the strategy applied to `m` alone: one activation edge of the
        // owner gained per occurrence in `m`'s adjacency list, saturating at
        // the machine maximum, nothing else
        forall|j: int|
            0 <= j < old(board).n() && (old(board).kind_at(j) is Empty || (old(board).kind_at(j)
                is Cross && old(board).owner_at(j) != owner)) ==> #[trigger] final(board).cnt(
                j,
                owner as int,
            ) as int == (if old(board).cnt(j, owner as int) + occurrences_upto(
                old(board).adj(m as int),
                j as usize,
                old(board).adj(m as int).len() as int,
            ) <= usize::MAX {
                old(board).cnt(j, owner as int) + occurrences_upto(
                    old(board).adj(m as int),
                    j as usize,
                    old(board).adj(m as int).len() as int,
                )
            } else {
                usize::MAX as int
            }),
{
    let alen = board.adjacent_len(m);
    proof {
        old(board).lemma_wf_facts();
    }
    let mut k: usize = 0;
    while k < alen
        invariant
            board.wf(),
            base.wf(),
            old(board).wf(),
            revive_rel(base, *board, owner as int),
            (m as int) < board.n(),
            (owner as int) < board.players(),
            board.alive_at(m as int),
            chain_reachable(base, owner as int, start, m),
            alen as int == board.adj(m as int).len(),
            0 <= k <= alen,
            walk_frame(*old(board), *board, owner as int),
            forall|j: int|
                0 <= j < old(board).n() && old(board).alive_at(j) ==> #[trigger] board.alive_at(j),
            forall|j: int|
                0 <= j < old(board).n() ==> #[trigger] board.cnt(j, owner as int) >= old(board).cnt(j, owner as int),
            forall|t: int|
                0 <= t < stack@.len() ==> ((#[trigger] stack@[t]) as int) < old(board).n()
                    && board.kind_at(stack@[t] as int) is Filled && board.owner_at(stack@[t] as int)
                    == owner && board.alive_at(stack@[t] as int) && chain_reachable(
                    base,
                    owner as int,
                    start,
                    stack@[t],
                ),
            alive_upto(*board, board.n()) - alive_upto(*old(board), old(board).n()) == stack@.len()
                - old(stack)@.len(),
            stack@.len() >= old(stack)@.len(),
            forall|v: int|
                0 <= v < base.n() && #[trigger] board.alive_at(v) && !base.alive_at(v) && v
                    != m as int ==> stack@.contains(v as usize) || revive_scanned(
                    base,
                    *board,
                    owner as int,
                    v,
                ),
            forall|v: int|
                0 <= v < base.n() && #[trigger] board.alive_at(v) && !base.alive_at(v)
                    ==> chain_reachable(base, owner as int, start, v as usize),
            forall|j: int|
                0 <= j < old(board).n() && (old(board).kind_at(j) is Empty || (old(board).kind_at(
                    j,
                ) is Cross && old(board).owner_at(j) != owner)) ==> #[trigger] board.cnt(
                    j,
                    owner as int,
                ) as int == (if old(board).cnt(j, owner as int) + occurrences_upto(
                    old(board).adj(m as int),
                    j as usize,
                    k as int,
                ) <= usize::MAX {
                    old(board).cnt(j, owner as int) + occurrences_upto(
                        old(board).adj(m as int),
                        j as usize,
                        k as int,
                    )
                } else {
                    usize::MAX as int
                }),
            forall|k2: int|
                0 <= k2 < k ==> ((base.kind_at(((#[trigger] base.adj(m as int)[k2]) as int))
                    is Filled && base.owner_at(base.adj(m as int)[k2] as int) == owner
                    && !base.alive_at(base.adj(m as int)[k2] as int) ==> board.alive_at(
                    base.adj(m as int)[k2] as int,
                )) && ((base.kind_at(base.adj(m as int)[k2] as int) is Empty || (base.kind_at(
                    base.adj(m as int)[k2] as int,
                ) is Cross && base.owner_at(base.adj(m as int)[k2] as int) != owner)) && base.cnt(
                    base.adj(m as int)[k2] as int,
                    owner as int,
                ) < usize::MAX ==> board.cnt(base.adj(m as int)[k2] as int, owner as int)
                    > base.cnt(base.adj(m as int)[k2] as int, owner as int))),
        decreases alen - k,
    {
        let ghost pre = *board;
        let ghost stack_pre = stack@;
        let j = board.adjacent_at(m, k);
        let kd = board.kind(j);
        match kd {
            CellKind::Empty => {
                board.activate(j, owner);
            },
            CellKind::Cross => {
                if board.player(j) != owner {
                    board.activate(j, owner);
                }
            },
            CellKind::Filled => {
                if board.player(j) == owner && !board.is_alive(j) {
                    board.set_alive(j, true);
                    proof {
                        lemma_alive_upto_change(pre, *board, j as int, pre.n());
                    }
                    stack.push(j);
                    proof {
                        let path = choose|path: Seq<usize>|
                            #[trigger] chain_path(base, owner as int, path) && path[0] == start
                                && path[path.len() - 1] == m;
                        base.lemma_wf_facts();
                        assert(base.adj(m as int)[k as int] == j);
                        assert(base.adj(m as int).contains(j));
                        lemma_chain_path_extend(base, owner as int, path, j);
                        assert(chain_reachable(base, owner as int, start, j));
                    }
                }
            },
            CellKind::Border => {},
        }
        proof {
            base.lemma_wf_facts();
            old(board).lemma_wf_facts();
            if board.alive_at(j as int) != pre.alive_at(j as int) {
                lemma_alive_upto_change(pre, *board, j as int, pre.n());
            } else {
                lemma_alive_upto_same(pre, *board, pre.n());
            }
            assert(base.adj(m as int)[k as int] == j);
            assert(old(board).adj(m as int)[k as int] == j);
            assert forall|v: int|
                0 <= v < base.n() && #[trigger] board.alive_at(v) && !base.alive_at(v) && v
                    != m as int implies stack@.contains(v as usize) || revive_scanned(
                base,
                *board,
                owner as int,
                v,
            ) by {
                if pre.alive_at(v) {
                    if stack_pre.contains(v as usize) {
                        let t = choose|t: int|
                            0 <= t < stack_pre.len() && stack_pre[t] == v as usize;
                        assert(stack@[t] == v as usize);
                        assert(stack@.contains(v as usize));
                    }
                } else {
                    assert(v == j as int);
                    assert(stack@[stack@.len() - 1] == j);
                    assert(stack@.contains(v as usize));
                }
            }
            assert forall|k2: int|
                0 <= k2 < k + 1 implies ((base.kind_at(
                ((#[trigger] base.adj(m as int)[k2]) as int),
            ) is Filled && base.owner_at(base.adj(m as int)[k2] as int) == owner && !base.alive_at(
                base.adj(m as int)[k2] as int,
            ) ==> board.alive_at(base.adj(m as int)[k2] as int)) && ((base.kind_at(
                base.adj(m as int)[k2] as int,
            ) is Empty || (base.kind_at(base.adj(m as int)[k2] as int) is Cross && base.owner_at(
                base.adj(m as int)[k2] as int,
            ) != owner)) && base.cnt(base.adj(m as int)[k2] as int, owner as int) < usize::MAX
                ==> board.cnt(base.adj(m as int)[k2] as int, owner as int) > base.cnt(
                base.adj(m as int)[k2] as int,
                owner as int,
            ))) by {
                let jj = base.adj(m as int)[k2] as int;
                if k2 == k {
                    assert(jj == j as int);
                    assert(pre.kind_at(jj) == base.kind_at(jj));
                    assert(pre.owner_at(jj) == base.owner_at(jj));
                    assert(pre.cnt(jj, owner as int) >= base.cnt(jj, owner as int));
                } else {
                    assert(board.cnt(jj, owner as int) >= pre.cnt(jj, owner as int));
                    assert(pre.alive_at(jj) ==> board.alive_at(jj));
                }
            }
            assert forall|j2: int|
                0 <= j2 < old(board).n() && (old(board).kind_at(j2) is Empty || (old(board).kind_at(
                    j2,
                ) is Cross && old(board).owner_at(j2) != owner)) implies board.cnt(
                j2,
                owner as int,
            ) as int == (if old(board).cnt(j2, owner as int) + occurrences_upto(
                old(board).adj(m as int),
                j2 as usize,
                k + 1,
            ) <= usize::MAX {
                old(board).cnt(j2, owner as int) + occurrences_upto(
                    old(board).adj(m as int),
                    j2 as usize,
                    k + 1,
                )
            } else {
                usize::MAX as int
            }) by {
                assert(pre.kind_at(j2) == old(board).kind_at(j2));
                assert(pre.owner_at(j2) == old(board).owner_at(j2));
                if j2 == j as int {
                    assert(occurrences_upto(old(board).adj(m as int), j2 as usize, k + 1)
                        == occurrences_upto(old(board).adj(m as int), j2 as usize, k as int) + 1);
                    assert(board.cnt(j2, owner as int) as int == if pre.cnt(j as int, owner as int)
                        < usize::MAX {
                        pre.cnt(j as int, owner as int) as int + 1
                    } else {
                        pre.cnt(j as int, owner as int) as int
                    });
                } else {
                    assert((j2 as usize) as int == j2);
                    assert(occurrences_upto(old(board).adj(m as int), j2 as usize, k + 1)
                        == occurrences_upto(old(board).adj(m as int), j2 as usize, k as int));
                    assert(board.cnt(j2, owner as int) == pre.cnt(j2, owner as int));
                }
            }
        }
        k = k + 1;
    }
}


pub fn revive(board: &mut GameBoardImpl, start: usize, owner: usize)
    requires
        old(board).wf(),
        (start as int) < old(board).n(),
        (owner as int) < old(board).players(),
        old(board).kind_at(start as int) is Filled,
        old(board).owner_at(start as int) == owner,
    ensures
        walk_frame(*old(board), *final(board), owner as int),
        forall|j: int|
            0 <= j < old(board).n() && old(board).alive_at(j) ==> #[trigger] final(board).alive_at(
                j,
            ),
        forall|j: int|
            0 <= j < old(board).n() ==> #[trigger] final(board).cnt(j, owner as int) >= old(board).cnt(j, owner as int),
        final(board).alive_at(start as int),
        // only the component of `start` is touched: every newly alive cell
        // is a chain member reachable from `start`
        forall|v: int|
            0 <= v < old(board).n() && #[trigger] final(board).alive_at(v) && !old(board).alive_at(
                v,
            ) ==> chain_reachable(*old(board), owner as int, start, v as usize),
        // the whole dead component is revived and its surroundings are
        // activated: every cell a dead chain path reaches from `start` ends
        // alive with every neighbour handled
        forall|path: Seq<usize>|
            (#[trigger] chain_path(*old(board), owner as int, path)) && path[0] == start && (
            forall|t: int|
                0 <= t < path.len() ==> !old(board).alive_at(((#[trigger] path[t]) as int)))
                ==> final(board).alive_at(path[path.len() - 1] as int) && revive_scanned(
                *old(board),
                *final(board),
                owner as int,
                path[path.len() - 1] as int,
            ),
{
    let mut stack: Vec<usize> = Vec::new();
    if !board.is_alive(start) {
        let ghost pre = *board;
        board.set_alive(start, true);
        proof {
            lemma_alive_upto_change(pre, *board, start as int, pre.n());
        }
        stack.push(start);
        proof {
            assert(stack@[0] == start);
            assert(stack@.contains(start));
            assert(chain_path(*old(board), owner as int, seq![start]) && seq![start][0] == start
                && seq![start][seq![start].len() - 1] == start);
            assert(chain_reachable(*old(board), owner as int, start, start));
        }
    }
    while stack.len() > 0
        invariant
            board.wf(),
            old(board).wf(),
            (owner as int) < board.players(),
            (start as int) < board.n(),
            revive_rel(*old(board), *board, owner as int),
            walk_frame(*old(board), *board, owner as int),
            forall|j: int|
                0 <= j < old(board).n() && old(board).alive_at(j) ==> #[trigger] board.alive_at(j),
            forall|j: int|
                0 <= j < old(board).n() ==> #[trigger] board.cnt(j, owner as int) >= old(board).cnt(j, owner as int),
            forall|t: int|
                0 <= t < stack@.len() ==> ((#[trigger] stack@[t]) as int) < old(board).n()
                    && board.kind_at(stack@[t] as int) is Filled && board.owner_at(stack@[t] as int)
                    == owner && board.alive_at(stack@[t] as int) && chain_reachable(
                    *old(board),
                    owner as int,
                    start,
                    stack@[t],
                ),
            board.alive_at(start as int),
            forall|v: int|
                0 <= v < old(board).n() && #[trigger] board.alive_at(v) && !old(board).alive_at(v)
                    ==> stack@.contains(v as usize) || revive_scanned(
                    *old(board),
                    *board,
                    owner as int,
                    v,
                ),
            forall|v: int|
                0 <= v < old(board).n() && #[trigger] board.alive_at(v) && !old(board).alive_at(v)
                    ==> chain_reachable(*old(board), owner as int, start, v as usize),
        decreases (board.n() - alive_upto(*board, board.n())) + stack@.len(),
    {
        let ghost stack_pre_pop = stack@;
        let m = match stack.pop() {
            Some(x) => x,
            None => {
                return ;
            },
        };
        proof {
            assert forall|v: int|
                0 <= v < old(board).n() && #[trigger] board.alive_at(v) && !old(board).alive_at(v)
                    && v != m as int implies stack@.contains(v as usize) || revive_scanned(
                *old(board),
                *board,
                owner as int,
                v,
            ) by {
                if stack_pre_pop.contains(v as usize) {
                    let t = choose|t: int|
                        0 <= t < stack_pre_pop.len() && stack_pre_pop[t] == v as usize;
                    board.lemma_wf_facts();
                    if t == stack_pre_pop.len() - 1 {
                        assert(stack_pre_pop[t] == m);
                        assert((v as usize) as int == v);
                        assert(false);
                    }
                    assert(stack@[t] == v as usize);
                    assert(stack@.contains(v as usize));
                }
            }
        }
        revive_visit(board, m, owner, &mut stack, Ghost(*old(board)), Ghost(start));
        proof {
            lemma_alive_upto_bounds(*board, board.n());
        }
    }
    proof {
        assert forall|path: Seq<usize>|
            (#[trigger] chain_path(*old(board), owner as int, path)) && path[0] == start && (
            forall|t: int|
                0 <= t < path.len() ==> !old(board).alive_at(((#[trigger] path[t]) as int)))
                implies final(board).alive_at(path[path.len() - 1] as int) && revive_scanned(
            *old(board),
            *final(board),
            owner as int,
            path[path.len() - 1] as int,
        ) by {
            lemma_revive_closure_covers(*old(board), *board, owner as int, path);
        }
    }
}

/// One step of the kill walk: the chain cell `m` takes the walked owner's
/// activation edge away from every adjacent empty cell and opposing cross,
/// and kills (and queues) every adjacent alive filled cell of the same
/// owner. `base` is the board as it stood when the walk began.
fn kill_visit(
    board: &mut GameBoardImpl,
    m: usize,
    owner: usize,
    stack: &mut Vec<usize>,
    Ghost(base): Ghost<GameBoardImpl>,
    Ghost(start): Ghost<usize>,
)
    requires
        old(board).wf(),
        base.wf(),
        kill_rel(base, *old(board), owner as int),
        (m as int) < old(board).n(),
        (owner as int) < old(board).players(),
        !old(board).alive_at(m as int),
        chain_reachable(base, owner as int, start, m),
        forall|t: int|
            0 <= t < old(stack)@.len() ==> ((#[trigger] old(stack)@[t]) as int) < old(board).n()
                && old(board).kind_at(old(stack)@[t] as int) is Filled && old(board).owner_at(
                old(stack)@[t] as int,
            ) == owner && !old(board).alive_at(old(stack)@[t] as int) && chain_reachable(
                base,
                owner as int,
                start,
                old(stack)@[t],
            ),
        forall|v: int|
            0 <= v < base.n() && !(#[trigger] old(board).alive_at(v)) && base.alive_at(v) && v
                != m as int ==> old(stack)@.contains(v as usize) || kill_scanned(
                base,
                *old(board),
                owner as int,
                v,
            ),
        forall|v: int|
            0 <= v < base.n() && !(#[trigger] old(board).alive_at(v)) && base.alive_at(v)
                ==> chain_reachable(base, owner as int, start, v as usize),
    ensures
        walk_frame(*old(board), *final(board), owner as int),
        kill_rel(base, *final(board), owner as int),
        forall|j: int|
            0 <= j < old(board).n() && !old(board).alive_at(j) ==> !(#[trigger] final(board).alive_at(j)),
        forall|j: int|
            0 <= j < old(board).n() ==> #[trigger] final(board).cnt(j, owner as int) <= old(board).cnt(j, owner as int),
        forall|t: int|
            0 <= t < final(stack)@.len() ==> ((#[trigger] final(stack)@[t]) as int) < old(board).n()
                && final(board).kind_at(final(stack)@[t] as int) is Filled && final(board).owner_at(
                final(stack)@[t] as int,
            ) == owner && !final(board).alive_at(final(stack)@[t] as int) && chain_reachable(
                base,
                owner as int,
                start,
                final(stack)@[t],
            ),
        alive_upto(*old(board), old(board).n()) - alive_upto(*final(board), final(board).n())
            == final(stack)@.len() - old(stack)@.len(),
        final(stack)@.len() >= old(stack)@.len(),
        forall|v: int|
            0 <= v < base.n() && !(#[trigger] final(board).alive_at(v)) && base.alive_at(v)
                ==> final(stack)@.contains(v as usize) || kill_scanned(
                base,
                *final(board),
                owner as int,
                v,
            ),
        forall|v: int|
            0 <= v < base.n() && !(#[trigger] final(board).alive_at(v)) && base.alive_at(v)
                ==> chain_reachable(base, owner as int, start, v as usize),
        kill_scanned(base, *final(board), owner as int, m as int),
        // the strategy applied to `m` alone: one activation edge of the
        // owner removed per occurrence in `m`'s adjacency list, nothing else
        forall|j: int|
            0 <= j < old(board).n() && (old(board).kind_at(j) is Empty || (old(board).kind_at(j)
                is Cross && old(board).owner_at(j) != owner)) ==> #[trigger] final(board).cnt(
                j,
                owner as int,
            ) as int == (if old(board).cnt(j, owner as int) >= occurrences_upto(
                old(board).adj(m as int),
                j as usize,
                old(board).adj(m as int).len() as int,
            ) {
                old(board).cnt(j, owner as int) - occurrences_upto(
                    old(board).adj(m as int),
                    j as usize,
                    old(board).adj(m as int).len() as int,
                )
            } else {
                0int
            }),
{
    let alen = board.adjacent_len(m);
    proof {
        old(board).lemma_wf_facts();
    }
    let mut k: usize = 0;
    while k < alen
        invariant
            board.wf(),
            base.wf(),
            old(board).wf(),
            kill_rel(base, *board, owner as int),
            (m as int) < board.n(),
            (owner as int) < board.players(),
            !board.alive_at(m as int),
            chain_reachable(base, owner as int, start, m),
            alen as int == board.adj(m as int).len(),
            0 <= k <= alen,
            walk_frame(*old(board), *board, owner as int),
            forall|j: int|
                0 <= j < old(board).n() && !old(board).alive_at(j) ==> !(
                #[trigger] board.alive_at(j)),
            forall|j: int|
                0 <= j < old(board).n() ==> #[trigger] board.cnt(j, owner as int) <= old(board).cnt(j, owner as int),
            forall|t: int|
                0 <= t < stack@.len() ==> ((#[trigger] stack@[t]) as int) < old(board).n()
                    && board.kind_at(stack@[t] as int) is Filled && board.owner_at(stack@[t] as int)
                    == owner && !board.alive_at(stack@[t] as int) && chain_reachable(
                    base,
                    owner as int,
                    start,
                    stack@[t],
                ),
            alive_upto(*old(board), old(board).n()) - alive_upto(*board, board.n()) == stack@.len()
                - old(stack)@.len(),
            stack@.len() >= old(stack)@.len(),
            forall|v: int|
                0 <= v < base.n() && !(#[trigger] board.alive_at(v)) && base.alive_at(v) && v
                    != m as int ==> stack@.contains(v as usize) || kill_scanned(
                    base,
                    *board,
                    owner as int,
                    v,
                ),
            forall|v: int|
                0 <= v < base.n() && !(#[trigger] board.alive_at(v)) && base.alive_at(v)
                    ==> chain_reachable(base, owner as int, start, v as usize),
            forall|j: int|
                0 <= j < old(board).n() && (old(board).kind_at(j) is Empty || (old(board).kind_at(
                    j,
                ) is Cross && old(board).owner_at(j) != owner)) ==> #[trigger] board.cnt(
                    j,
                    owner as int,
                ) as int == (if old(board).cnt(j, owner as int) >= occurrences_upto(
                    old(board).adj(m as int),
                    j as usize,
                    k as int,
                ) {
                    old(board).cnt(j, owner as int) - occurrences_upto(
                        old(board).adj(m as int),
                        j as usize,
                        k as int,
                    )
                } else {
                    0int
                }),
            forall|k2: int|
                0 <= k2 < k ==> ((base.kind_at(((#[trigger] base.adj(m as int)[k2]) as int))
                    is Filled && base.owner_at(base.adj(m as int)[k2] as int) == owner
                    && base.alive_at(base.adj(m as int)[k2] as int) ==> !board.alive_at(
                    base.adj(m as int)[k2] as int,
                )) && ((base.kind_at(base.adj(m as int)[k2] as int) is Empty || (base.kind_at(
                    base.adj(m as int)[k2] as int,
                ) is Cross && base.owner_at(base.adj(m as int)[k2] as int) != owner)) && base.cnt(
                    base.adj(m as int)[k2] as int,
                    owner as int,
                ) > 0 ==> board.cnt(base.adj(m as int)[k2] as int, owner as int) < base.cnt(
                    base.adj(m as int)[k2] as int,
                    owner as int,
                ))),
        decreases alen - k,
    {
        let ghost pre = *board;
        let ghost stack_pre = stack@;
        let j = board.adjacent_at(m, k);
        let kd = board.kind(j);
        match kd {
            CellKind::Empty => {
                board.deactivate(j, owner);
            },
            CellKind::Cross => {
                if board.player(j) != owner {
                    board.deactivate(j, owner);
                }
            },
            CellKind::Filled => {
                if board.player(j) == owner && board.is_alive(j) {
                    board.set_alive(j, false);
                    proof {
                        lemma_alive_upto_change(pre, *board, j as int, pre.n());
                    }
                    stack.push(j);
                    proof {
                        let path = choose|path: Seq<usize>|
                            #[trigger] chain_path(base, owner as int, path) && path[0] == start
                                && path[path.len() - 1] == m;
                        base.lemma_wf_facts();
                        assert(base.adj(m as int)[k as int] == j);
                        assert(base.adj(m as int).contains(j));
                        lemma_chain_path_extend(base, owner as int, path, j);
                        assert(chain_reachable(base, owner as int, start, j));
                    }
                }
            },
            CellKind::Border => {},
        }
        proof {
            base.lemma_wf_facts();
            old(board).lemma_wf_facts();
            if board.alive_at(j as int) != pre.alive_at(j as int) {
                lemma_alive_upto_change(pre, *board, j as int, pre.n());
            } else {
                lemma_alive_upto_same(pre, *board, pre.n());
            }
            assert(base.adj(m as int)[k as int] == j);
            assert(old(board).adj(m as int)[k as int] == j);
            assert forall|v: int|
                0 <= v < base.n() && !(#[trigger] board.alive_at(v)) && base.alive_at(v) && v
                    != m as int implies stack@.contains(v as usize) || kill_scanned(
                base,
                *board,
                owner as int,
                v,
            ) by {
                if !pre.alive_at(v) {
                    if stack_pre.contains(v as usize) {
                        let t = choose|t: int|
                            0 <= t < stack_pre.len() && stack_pre[t] == v as usize;
                        assert(stack@[t] == v as usize);
                        assert(stack@.contains(v as usize));
                    }
                } else {
                    assert(v == j as int);
                    assert(stack@[stack@.len() - 1] == j);
                    assert(stack@.contains(v as usize));
                }
            }
            assert forall|k2: int|
                0 <= k2 < k + 1 implies ((base.kind_at(
                ((#[trigger] base.adj(m as int)[k2]) as int),
            ) is Filled && base.owner_at(base.adj(m as int)[k2] as int) == owner && base.alive_at(
                base.adj(m as int)[k2] as int,
            ) ==> !board.alive_at(base.adj(m as int)[k2] as int)) && ((base.kind_at(
                base.adj(m as int)[k2] as int,
            ) is Empty || (base.kind_at(base.adj(m as int)[k2] as int) is Cross && base.owner_at(
                base.adj(m as int)[k2] as int,
            ) != owner)) && base.cnt(base.adj(m as int)[k2] as int, owner as int) > 0
                ==> board.cnt(base.adj(m as int)[k2] as int, owner as int) < base.cnt(
                base.adj(m as int)[k2] as int,
                owner as int,
            ))) by {
                let jj = base.adj(m as int)[k2] as int;
                if k2 == k {
                    assert(jj == j as int);
                    assert(pre.kind_at(jj) == base.kind_at(jj));
                    assert(pre.owner_at(jj) == base.owner_at(jj));
                    assert(pre.cnt(jj, owner as int) <= base.cnt(jj, owner as int));
                } else {
                    assert(board.cnt(jj, owner as int) <= pre.cnt(jj, owner as int));
                    assert(!pre.alive_at(jj) ==> !board.alive_at(jj));
                }
            }
            assert forall|j2: int|
                0 <= j2 < old(board).n() && (old(board).kind_at(j2) is Empty || (old(board).kind_at(
                    j2,
                ) is Cross && old(board).owner_at(j2) != owner)) implies board.cnt(
                j2,
                owner as int,
            ) as int == (if old(board).cnt(j2, owner as int) >= occurrences_upto(
                old(board).adj(m as int),
                j2 as usize,
                k + 1,
            ) {
                old(board).cnt(j2, owner as int) - occurrences_upto(
                    old(board).adj(m as int),
                    j2 as usize,
                    k + 1,
                )
            } else {
                0int
            }) by {
                assert(pre.kind_at(j2) == old(board).kind_at(j2));
                assert(pre.owner_at(j2) == old(board).owner_at(j2));
                if j2 == j as int {
                    assert(occurrences_upto(old(board).adj(m as int), j2 as usize, k + 1)
                        == occurrences_upto(old(board).adj(m as int), j2 as usize, k as int) + 1);
                    assert(board.cnt(j2, owner as int) == if pre.cnt(j as int, owner as int) > 0 {
                        pre.cnt(j as int, owner as int) - 1
                    } else {
                        0int
                    });
                } else {
                    assert((j2 as usize) as int == j2);
                    assert(occurrences_upto(old(board).adj(m as int), j2 as usize, k + 1)
                        == occurrences_upto(old(board).adj(m as int), j2 as usize, k as int));
                    assert(board.cnt(j2, owner as int) == pre.cnt(j2, owner as int));
                }
            }
        }
        k = k + 1;
    }
}


pub fn kill(board: &mut GameBoardImpl, start: usize, owner: usize)
    requires
        old(board).wf(),
        (start as int) < old(board).n(),
        (owner as int) < old(board).players(),
        old(board).kind_at(start as int) is Filled,
        old(board).owner_at(start as int) == owner,
    ensures
        walk_frame(*old(board), *final(board), owner as int),
        forall|j: int|
            0 <= j < old(board).n() && !old(board).alive_at(j) ==> !(#[trigger] final(board).alive_at(j)),
        forall|j: int|
            0 <= j < old(board).n() ==> #[trigger] final(board).cnt(j, owner as int) <= old(board).cnt(j, owner as int),
        !final(board).alive_at(start as int),
        // only the component of `start` is touched: every newly dead cell is
        // a chain member reachable from `start`
        forall|v: int|
            0 <= v < old(board).n() && !(#[trigger] final(board).alive_at(v)) && old(board).alive_at(v) ==> chain_reachable(*old(board), owner as int, start, v as usize),
        // the whole alive component is killed and its surroundings are
        // deactivated: every cell an alive chain path reaches from `start`
        // ends dead with every neighbour handled
        forall|path: Seq<usize>|
            (#[trigger] chain_path(*old(board), owner as int, path)) && path[0] == start && (
            forall|t: int|
                0 <= t < path.len() ==> old(board).alive_at(((#[trigger] path[t]) as int)))
                ==> !final(board).alive_at(path[path.len() - 1] as int) && kill_scanned(
                *old(board),
                *final(board),
                owner as int,
                path[path.len() - 1] as int,
            ),
{
    let mut stack: Vec<usize> = Vec::new();
    if board.is_alive(start) {
        let ghost pre = *board;
        board.set_alive(start, false);
        proof {
            lemma_alive_upto_change(pre, *board, start as int, pre.n());
        }
        stack.push(start);
        proof {
            assert(stack@[0] == start);
            assert(stack@.contains(start));
            assert(chain_path(*old(board), owner as int, seq![start]) && seq![start][0] == start
                && seq![start][seq![start].len() - 1] == start);
            assert(chain_reachable(*old(board), owner as int, start, start));
        }
    }
    while stack.len() > 0
        invariant
            board.wf(),
            old(board).wf(),
            (owner as int) < board.players(),
            (start as int) < board.n(),
            kill_rel(*old(board), *board, owner as int),
            walk_frame(*old(board), *board, owner as int),
            forall|j: int|
                0 <= j < old(board).n() && !old(board).alive_at(j) ==> !(
                #[trigger] board.alive_at(j)),
            forall|j: int|
                0 <= j < old(board).n() ==> #[trigger] board.cnt(j, owner as int) <= old(board).cnt(j, owner as int),
            forall|t: int|
                0 <= t < stack@.len() ==> ((#[trigger] stack@[t]) as int) < old(board).n()
                    && board.kind_at(stack@[t] as int) is Filled && board.owner_at(stack@[t] as int)
                    == owner && !board.alive_at(stack@[t] as int) && chain_reachable(
                    *old(board),
                    owner as int,
                    start,
                    stack@[t],
                ),
            !board.alive_at(start as int),
            forall|v: int|
                0 <= v < old(board).n() && !(#[trigger] board.alive_at(v)) && old(board).alive_at(v)
                    ==> stack@.contains(v as usize) || kill_scanned(
                    *old(board),
                    *board,
                    owner as int,
                    v,
                ),
            forall|v: int|
                0 <= v < old(board).n() && !(#[trigger] board.alive_at(v)) && old(board).alive_at(v)
                    ==> chain_reachable(*old(board), owner as int, start, v as usize),
        decreases alive_upto(*board, board.n()) + stack@.len(),
    {
        let ghost stack_pre_pop = stack@;
        let m = match stack.pop() {
            Some(x) => x,
            None => {
                return ;
            },
        };
        proof {
            assert forall|v: int|
                0 <= v < old(board).n() && !(#[trigger] board.alive_at(v)) && old(board).alive_at(v)
                    && v != m as int implies stack@.contains(v as usize) || kill_scanned(
                *old(board),
                *board,
                owner as int,
                v,
            ) by {
                if stack_pre_pop.contains(v as usize) {
                    let t = choose|t: int|
                        0 <= t < stack_pre_pop.len() && stack_pre_pop[t] == v as usize;
                    board.lemma_wf_facts();
                    if t == stack_pre_pop.len() - 1 {
                        assert(stack_pre_pop[t] == m);
                        assert((v as usize) as int == v);
                        assert(false);
                    }
                    assert(stack@[t] == v as usize);
                    assert(stack@.contains(v as usize));
                }
            }
        }
        kill_visit(board, m, owner, &mut stack, Ghost(*old(board)), Ghost(start));
        proof {
            lemma_alive_upto_bounds(*board, board.n());
        }
    }
    proof {
        assert forall|path: Seq<usize>|
            (#[trigger] chain_path(*old(board), owner as int, path)) && path[0] == start && (
            forall|t: int|
                0 <= t < path.len() ==> old(board).alive_at(((#[trigger] path[t]) as int)))
                implies !final(board).alive_at(path[path.len() - 1] as int) && kill_scanned(
            *old(board),
            *final(board),
            owner as int,
            path[path.len() - 1] as int,
        ) by {
            lemma_kill_closure_covers(*old(board), *board, owner as int, path);
        }
    }
}

/// A chain path of `owner`: a non-empty run of same-owner filled cells in
/// which each cell is adjacent to the next.
pub open spec fn chain_path(b: GameBoardImpl, owner: int, path: Seq<usize>) -> bool {
    &&& path.len() >= 1
    &&& forall|t: int|
        0 <= t < path.len() ==> ((#[trigger] path[t]) as int) < b.n() && b.kind_at(path[t] as int)
            is Filled && b.owner_at(path[t] as int) == owner
    &&& forall|t: int|
        0 <= t < path.len() - 1 ==> b.adj(path[t] as int).contains(#[trigger] path[t + 1])
}

/// Membership in the chain of `owner` that contains `start`: some chain
/// path leads from `start` to `m`.
pub open spec fn chain_reachable(b: GameBoardImpl, owner: int, start: usize, m: usize) -> bool {
    exists|path: Seq<usize>|
        #[trigger] chain_path(b, owner, path) && path[0] == start && path[path.len() - 1] == m
}

/// No neighbour of `m` is a cross of `owner`.
pub open spec fn no_adjacent_cross(b: GameBoardImpl, owner: int, m: int) -> bool {
    forall|k: int|
        0 <= k < b.adj(m).len() ==> !(b.kind_at(((#[trigger] b.adj(m)[k]) as int)) is Cross
            && b.owner_at(b.adj(m)[k] as int) == owner)
}

/// The search walk has finished with `v`: every same-owner filled neighbour
/// is marked, and no neighbour is a cross of the owner.
spec fn search_scanned(b: GameBoardImpl, visited: Seq<bool>, owner: int, v: int) -> bool {
    forall|k: int|
        0 <= k < b.adj(v).len() ==> ((b.kind_at(((#[trigger] b.adj(v)[k]) as int)) is Filled
            && b.owner_at(b.adj(v)[k] as int) == owner ==> visited[b.adj(v)[k] as int])
            && !(b.kind_at(b.adj(v)[k] as int) is Cross && b.owner_at(b.adj(v)[k] as int) == owner))
}

/// Extending a chain path by one adjacent same-owner filled cell keeps it a
/// chain path.
proof fn lemma_chain_path_extend(b: GameBoardImpl, owner: int, path: Seq<usize>, j: usize)
    requires
        chain_path(b, owner, path),
        (j as int) < b.n(),
        b.kind_at(j as int) is Filled,
        b.owner_at(j as int) == owner,
        b.adj(path[path.len() - 1] as int).contains(j),
    ensures
        chain_path(b, owner, path.push(j)),
        path.push(j)[0] == path[0],
        path.push(j)[path.push(j).len() - 1] == j,
{
    let p2 = path.push(j);
    assert forall|t: int| 0 <= t < p2.len() - 1 implies b.adj(p2[t] as int).contains(
        #[trigger] p2[t + 1],
    ) by {
        if t < path.len() - 1 {
            assert(p2[t] == path[t] && p2[t + 1] == path[t + 1]);
        } else {
            assert(p2[t] == path[path.len() - 1] && p2[t + 1] == j);
        }
    }
}

/// A marked set closed under the search walk covers every chain path that
/// starts inside it.
proof fn lemma_search_closure_covers(
    b: GameBoardImpl,
    visited: Seq<bool>,
    owner: int,
    path: Seq<usize>,
)
    requires
        visited.len() == b.n(),
        forall|v: int|
            0 <= v < b.n() && #[trigger] visited[v] ==> search_scanned(b, visited, owner, v),
        chain_path(b, owner, path),
        visited[path[0] as int],
    ensures
        visited[path[path.len() - 1] as int],
    decreases path.len(),
{
    if path.len() > 1 {
        let pre = path.subrange(0, path.len() - 1);
        assert(forall|t: int| 0 <= t < pre.len() ==> #[trigger] pre[t] == path[t]);
        assert(chain_path(b, owner, pre));
        lemma_search_closure_covers(b, visited, owner, pre);
        let t0 = path.len() - 2;
        let m = path[t0];
        assert(visited[m as int]);
        assert(search_scanned(b, visited, owner, m as int));
        assert(b.adj(m as int).contains(path[t0 + 1]));
        assert(b.adj(m as int).contains(path[path.len() - 1]));
        let k0 = choose|k: int|
            0 <= k < b.adj(m as int).len() && b.adj(m as int)[k] == path[path.len() - 1];
        assert(visited[b.adj(m as int)[k0] as int]);
    }
}

/// Number of marked entries among the first `k`.
spec fn marks_upto(s: Seq<bool>, k: int) -> int
    decreases k,
{
    if k <= 0 {
        0
    } else {
        marks_upto(s, k - 1) + if s[k - 1] {
            1int
        } else {
            0int
        }
    }
}

proof fn lemma_marks_upto_bounds(s: Seq<bool>, k: int)
    ensures
        0 <= marks_upto(s, k),
        marks_upto(s, k) <= if k <= 0 {
            0int
        } else {
            k
        },
    decreases k,
{
    if k > 0 {
        lemma_marks_upto_bounds(s, k - 1);
    }
}

proof fn lemma_marks_upto_zero(s: Seq<bool>, k: int)
    requires
        forall|j: int| 0 <= j < k ==> !(#[trigger] s[j]),
    ensures
        marks_upto(s, k) == 0,
    decreases k,
{
    if k > 0 {
        lemma_marks_upto_zero(s, k - 1);
    }
}

proof fn lemma_marks_upto_update(s: Seq<bool>, i: int, v: bool, k: int)
    requires
        0 <= i < s.len(),
        k <= s.len(),
    ensures
        marks_upto(s.update(i, v), k) == marks_upto(s, k) + if i < k {
            (if v {
                1int
            } else {
                0int
            }) - (if s[i] {
                1int
            } else {
                0int
            })
        } else {
            0int
        },
    decreases k,
{
    if k > 0 {
        lemma_marks_upto_update(s, i, v, k - 1);
    }
}

/// Walks the chain of filled cells of `owner` reachable from `start`,
/// looking for an adjacent cross of the same owner that could anchor the
/// chain. Stops at the first one found, returning it together with the
/// chain member next to it; reads the board only.
pub fn search(board: &GameBoardImpl, start: usize, owner: usize) -> (r: Option<SearchResult>)
    requires
        board.wf(),
        (start as int) < board.n(),
        (owner as int) < board.players(),
        board.kind_at(start as int) is Filled,
        board.owner_at(start as int) == owner,
    ensures
        match r {
            Some(sr) => {
                &&& (sr.filled as int) < board.n()
                &&& board.kind_at(sr.filled as int) is Filled
                &&& board.owner_at(sr.filled as int) == owner
                &&& chain_reachable(*board, owner as int, start, sr.filled)
                &&& (sr.cross as int) < board.n()
                &&& board.kind_at(sr.cross as int) is Cross
                &&& board.owner_at(sr.cross as int) == owner
                &&& board.adj(sr.filled as int).contains(sr.cross)
            },
            None => forall|path: Seq<usize>|
                #[trigger] chain_path(*board, owner as int, path) && path[0] == start
                    ==> no_adjacent_cross(*board, owner as int, path[path.len() - 1] as int),
        },
{
    let n = board.len();
    let mut visited: Vec<bool> = Vec::new();
    let mut g: usize = 0;
    while g < n
        invariant
            0 <= g <= n,
            visited@.len() == g,
            forall|j: int| 0 <= j < g ==> !(#[trigger] visited@[j]),
        decreases n - g,
    {
        visited.push(false);
        g = g + 1;
    }
    proof {
        lemma_marks_upto_zero(visited@, n as int);
        lemma_marks_upto_update(visited@, start as int, true, n as int);
        lemma_marks_upto_bounds(visited@.update(start as int, true), n as int);
        assert(chain_path(*board, owner as int, seq![start]));
    }
    let mut stack: Vec<usize> = Vec::new();
    visited[start] = true;
    stack.push(start);
    let mut marked: usize = 1;
    proof {
        assert(stack@[0] == start);
        assert(stack@.contains(start));
        assert(chain_path(*board, owner as int, seq![start]) && seq![start][0] == start
            && seq![start][seq![start].len() - 1] == start);
        assert(chain_reachable(*board, owner as int, start, start));
    }
    while stack.len() > 0
        invariant_except_break
            board.wf(),
            (owner as int) < board.players(),
            (start as int) < board.n(),
            n as int == board.n(),
            visited@.len() == n,
            1 <= marked <= n,
            marked as int == marks_upto(visited@, n as int),
            visited@[start as int],
            forall|t: int|
                0 <= t < stack@.len() ==> ((#[trigger] stack@[t]) as int) < board.n()
                    && visited@[stack@[t] as int],
            forall|v: int|
                0 <= v < board.n() && #[trigger] visited@[v] ==> board.kind_at(v) is Filled
                    && board.owner_at(v) == owner && chain_reachable(
                    *board,
                    owner as int,
                    start,
                    v as usize,
                ),
            forall|v: int|
                0 <= v < board.n() && #[trigger] visited@[v] ==> stack@.contains(v as usize)
                    || search_scanned(*board, visited@, owner as int, v),
        ensures
            forall|v: int|
                0 <= v < board.n() && #[trigger] visited@[v] ==> search_scanned(
                    *board,
                    visited@,
                    owner as int,
                    v,
                ),
            visited@[start as int],
            visited@.len() == n,
        decreases (board.n() - marked) + stack@.len(),
    {
        let ghost stack_pre_pop = stack@;
        let m = match stack.pop() {
            Some(x) => x,
            None => {
                return None;
            },
        };
        proof {
            assert forall|v: int|
                0 <= v < board.n() && #[trigger] visited@[v] && v != m as int implies stack@
                .contains(v as usize) || search_scanned(*board, visited@, owner as int, v) by {
                if stack_pre_pop.contains(v as usize) {
                    let t = choose|t: int|
                        0 <= t < stack_pre_pop.len() && stack_pre_pop[t] == v as usize;
                    assert(t < stack_pre_pop.len() - 1);
                    assert(stack@[t] == v as usize);
                    assert(stack@.contains(v as usize));
                }
            }
        }
        let alen = board.adjacent_len(m);
        let ghost inner_base = (board.n() - marked as int) + stack@.len() as int;
        let mut k: usize = 0;
        while k < alen
            invariant
                board.wf(),
                (owner as int) < board.players(),
                (start as int) < board.n(),
                n as int == board.n(),
                (m as int) < board.n(),
                board.kind_at(m as int) is Filled,
                board.owner_at(m as int) == owner,
                visited@[m as int],
                visited@[start as int],
                alen as int == board.adj(m as int).len(),
                0 <= k <= alen,
                visited@.len() == n,
                1 <= marked <= n,
                marked as int == marks_upto(visited@, n as int),
                forall|t: int|
                    0 <= t < stack@.len() ==> ((#[trigger] stack@[t]) as int) < board.n()
                        && visited@[stack@[t] as int],
                forall|v: int|
                    0 <= v < board.n() && #[trigger] visited@[v] ==> board.kind_at(v) is Filled
                        && board.owner_at(v) == owner && chain_reachable(
                        *board,
                        owner as int,
                        start,
                        v as usize,
                    ),
                forall|v: int|
                    0 <= v < board.n() && #[trigger] visited@[v] && v != m ==> stack@.contains(
                        v as usize,
                    ) || search_scanned(*board, visited@, owner as int, v),
                forall|k2: int|
                    0 <= k2 < k ==> (board.kind_at(((#[trigger] board.adj(m as int)[k2]) as int))
                        is Filled && board.owner_at(board.adj(m as int)[k2] as int) == owner
                        ==> visited@[board.adj(m as int)[k2] as int]) && !(board.kind_at(
                        board.adj(m as int)[k2] as int,
                    ) is Cross && board.owner_at(board.adj(m as int)[k2] as int) == owner),
                (board.n() - marked as int) + stack@.len() as int == inner_base,
            decreases alen - k,
        {
            let ghost visited_entry = visited@;
            let j = board.adjacent_at(m, k);
            let kd = board.kind(j);
            match kd {
                CellKind::Cross => {
                    if board.player(j) == owner {
                        proof {
                            assert(board.adj(m as int)[k as int] == j);
                            assert(chain_reachable(*board, owner as int, start, m));
                        }
                        return Some(SearchResult { filled: m, cross: j });
                    }
                },
                CellKind::Filled => {
                    if board.player(j) == owner && !visited[j] {
                        let ghost visited_pre = visited@;
                        let ghost stack_pre = stack@;
                        proof {
                            lemma_marks_upto_update(visited@, j as int, true, n as int);
                            lemma_marks_upto_bounds(visited@.update(j as int, true), n as int);
                            let path = choose|path: Seq<usize>|
                                #[trigger] chain_path(*board, owner as int, path) && path[0]
                                    == start && path[path.len() - 1] == m;
                            lemma_chain_path_extend(*board, owner as int, path, j);
                            assert(chain_path(*board, owner as int, path.push(j)) && path.push(j)[0]
                                == start && path.push(j)[path.push(j).len() - 1] == j);
                        }
                        visited[j] = true;
                        marked = marked + 1;
                        stack.push(j);
                        proof {
                            assert forall|v: int|
                                0 <= v < board.n() && #[trigger] visited@[v] && v != m implies stack@
                                .contains(v as usize) || search_scanned(
                                *board,
                                visited@,
                                owner as int,
                                v,
                            ) by {
                                if v == j as int {
                                    assert(stack@[stack@.len() - 1] == j);
                                    assert(stack@.contains(v as usize));
                                } else {
                                    assert(visited_pre[v]);
                                    if stack_pre.contains(v as usize) {
                                        let t = choose|t: int|
                                            0 <= t < stack_pre.len() && stack_pre[t] == v as usize;
                                        assert(stack@[t] == v as usize);
                                        assert(stack@.contains(v as usize));
                                    } else {
                                        assert(search_scanned(*board, visited_pre, owner as int, v));
                                        board.lemma_wf_facts();
                                        assert forall|k2: int|
                                            0 <= k2 < board.adj(v).len() implies ((board.kind_at(
                                            ((#[trigger] board.adj(v)[k2]) as int),
                                        ) is Filled && board.owner_at(board.adj(v)[k2] as int)
                                            == owner ==> visited@[board.adj(v)[k2] as int]) && !(
                                        board.kind_at(board.adj(v)[k2] as int) is Cross
                                            && board.owner_at(board.adj(v)[k2] as int)
                                            == owner)) by {
                                            assert(visited_pre[board.adj(v)[k2] as int]
                                                ==> visited@[board.adj(v)[k2] as int]);
                                        }
                                    }
                                }
                            }
                        }
                    }
                },
                _ => {},
            }
            proof {
                assert(board.adj(m as int)[k as int] == j);
                assert forall|k2: int|
                    0 <= k2 < k + 1 implies ((board.kind_at(
                    ((#[trigger] board.adj(m as int)[k2]) as int),
                ) is Filled && board.owner_at(board.adj(m as int)[k2] as int) == owner
                    ==> visited@[board.adj(m as int)[k2] as int]) && !(board.kind_at(
                    board.adj(m as int)[k2] as int,
                ) is Cross && board.owner_at(board.adj(m as int)[k2] as int) == owner)) by {
                    board.lemma_wf_facts();
                    if k2 == k {
                        assert(board.adj(m as int)[k2] == j);
                    } else {
                        assert((board.kind_at(board.adj(m as int)[k2] as int) is Filled
                            && board.owner_at(board.adj(m as int)[k2] as int) == owner
                            ==> visited_entry[board.adj(m as int)[k2] as int]) && !(board.kind_at(
                            board.adj(m as int)[k2] as int,
                        ) is Cross && board.owner_at(board.adj(m as int)[k2] as int) == owner));
                        assert(visited_entry[board.adj(m as int)[k2] as int]
                            ==> visited@[board.adj(m as int)[k2] as int]);
                    }
                }
            }
            k = k + 1;
        }
        proof {
            assert(search_scanned(*board, visited@, owner as int, m as int));
            assert forall|v: int|
                0 <= v < board.n() && #[trigger] visited@[v] implies stack@.contains(v as usize)
                    || search_scanned(*board, visited@, owner as int, v) by {
                if v != m as int {
                }
            }
        }
    }
    proof {
        assert forall|path: Seq<usize>|
            #[trigger] chain_path(*board, owner as int, path) && path[0] == start implies no_adjacent_cross(
            *board,
            owner as int,
            path[path.len() - 1] as int,
        ) by {
            lemma_search_closure_covers(*board, visited@, owner as int, path);
            let last = path[path.len() - 1];
            assert(visited@[last as int]);
            assert(search_scanned(*board, visited@, owner as int, last as int));
        }
    }
    None
}
pub open spec fn neighbor_is_alive_filled(b: GameBoardImpl, index: int, k: int, p: int) -> bool {
    &&& 0 <= k < b.adj(index).len()
    &&& b.kind_at(b.adj(index)[k] as int) is Filled
    &&& b.owner_at(b.adj(index)[k] as int) == p
    &&& b.alive_at(b.adj(index)[k] as int)
}

/// The `k`-th neighbour of `index` is an important claim-bearing cell of
/// player `p`: a cross or a filled cell of theirs carrying the anchor flag.
pub open spec fn neighbor_is_anchor(b: GameBoardImpl, index: int, k: int, p: int) -> bool {
    &&& 0 <= k < b.adj(index).len()
    &&& (b.kind_at(b.adj(index)[k] as int) is Cross || b.kind_at(b.adj(index)[k] as int) is Filled)
    &&& b.owner_at(b.adj(index)[k] as int) == p
    &&& b.important_at(b.adj(index)[k] as int)
}

/// The `k`-th neighbour of `index` has the given kind and owner.
pub open spec fn neighbor_matches(
    b: GameBoardImpl,
    index: int,
    k: int,
    p: int,
    target: CellKind,
) -> bool {
    &&& 0 <= k < b.adj(index).len()
    &&& b.kind_at(b.adj(index)[k] as int) == target
    &&& b.owner_at(b.adj(index)[k] as int) == p
}

/// Whether some neighbour of `index` is an alive filled cell of `player`.
pub fn are_alive_filled_around(board: &GameBoardImpl, index: usize, player: usize) -> (r: bool)
    requires
        board.wf(),
        (index as int) < board.n(),
        (player as int) < board.players(),
    ensures
        r == exists|k: int| #[trigger]
            neighbor_is_alive_filled(*board, index as int, k, player as int),
{
    let alen = board.adjacent_len(index);
    let mut k: usize = 0;
    while k < alen
        invariant
            board.wf(),
            (index as int) < board.n(),
            (player as int) < board.players(),
            alen as int == board.adj(index as int).len(),
            0 <= k <= alen,
            forall|k2: int|
                0 <= k2 < k ==> !(#[trigger] neighbor_is_alive_filled(
                    *board,
                    index as int,
                    k2,
                    player as int,
                )),
        decreases alen - k,
    {
        let j = board.adjacent_at(index, k);
        let kd = board.kind(j);
        let hit = match kd {
            CellKind::Filled => board.player(j) == player && board.is_alive(j),
            _ => false,
        };
        if hit {
            proof {
                assert(neighbor_is_alive_filled(*board, index as int, k as int, player as int));
            }
            return true;
        }
        k = k + 1;
    }
    false
}

/// Whether some neighbour of `index` is an important cross or filled cell
/// of `player`; used to keep an anchor shared by two adjacent chains from
/// being orphaned when one of them dies.
pub fn is_paired(board: &GameBoardImpl, index: usize, player: usize) -> (r: bool)
    requires
        board.wf(),
        (index as int) < board.n(),
        (player as int) < board.players(),
    ensures
        r == exists|k: int| #[trigger] neighbor_is_anchor(*board, index as int, k, player as int),
{
    let alen = board.adjacent_len(index);
    let mut k: usize = 0;
    while k < alen
        invariant
            board.wf(),
            (index as int) < board.n(),
            (player as int) < board.players(),
            alen as int == board.adj(index as int).len(),
            0 <= k <= alen,
            forall|k2: int|
                0 <= k2 < k ==> !(#[trigger] neighbor_is_anchor(
                    *board,
                    index as int,
                    k2,
                    player as int,
                )),
        decreases alen - k,
    {
        let j = board.adjacent_at(index, k);
        let kd = board.kind(j);
        let hit = match kd {
            CellKind::Cross => board.player(j) == player && board.is_important(j),
            CellKind::Filled => board.player(j) == player && board.is_important(j),
            _ => false,
        };
        if hit {
            proof {
                assert(neighbor_is_anchor(*board, index as int, k as int, player as int));
            }
            return true;
        }
        k = k + 1;
    }
    false
}

/// Marks the first neighbour of `index` that is a `target` cell of `player`
/// as important; at most that one cell changes, and only its anchor flag.
fn mark_adjacent_as_important(
    board: &mut GameBoardImpl,
    index: usize,
    player: usize,
    target: CellKind,
)
    requires
        old(board).wf(),
        (index as int) < old(board).n(),
        (player as int) < old(board).players(),
    ensures
        final(board).wf(),
        same_structure(*old(board), *final(board)),
        forall|j: int| 0 <= j < old(board).n() ==> #[trigger] final(board).kind_at(j) == old(board).kind_at(j),
        forall|j: int| 0 <= j < old(board).n() ==> #[trigger] final(board).owner_at(j) == old(board).owner_at(j),
        forall|j: int| 0 <= j < old(board).n() ==> #[trigger] final(board).alive_at(j) == old(board).alive_at(j),
        counts_unchanged(*old(board), *final(board)),
        counters_unchanged(*old(board), *final(board)),
        forall|j: int|
            0 <= j < old(board).n() && final(board).important_at(j) != old(board).important_at(j)
                ==> final(board).important_at(j) && (#[trigger] final(board).kind_at(j)) == target
                && final(board).owner_at(j) == player && old(board).adj(index as int).contains(
                j as usize,
            ),
        forall|j1: int, j2: int|
            0 <= j1 < old(board).n() && 0 <= j2 < old(board).n() && final(board).important_at(j1)
                != old(board).important_at(j1) && final(board).important_at(j2) != old(board).important_at(j2) ==> j1 == j2,
        (exists|k: int| #[trigger]
            neighbor_matches(*old(board), index as int, k, player as int, target)) ==> exists|
            k: int,
        | #[trigger]
            neighbor_matches(*old(board), index as int, k, player as int, target) && final(board).important_at(old(board).adj(index as int)[k] as int),
{
    let alen = board.adjacent_len(index);
    let mut k: usize = 0;
    while k < alen
        invariant
            board.wf(),
            *board == *old(board),
            (index as int) < board.n(),
            (player as int) < board.players(),
            alen as int == board.adj(index as int).len(),
            0 <= k <= alen,
            forall|k2: int|
                0 <= k2 < k ==> !(#[trigger] neighbor_matches(
                    *board,
                    index as int,
                    k2,
                    player as int,
                    target,
                )),
        decreases alen - k,
    {
        let j = board.adjacent_at(index, k);
        let kd = board.kind(j);
        if kd == target && board.player(j) == player {
            proof {
                assert(neighbor_matches(*old(board), index as int, k as int, player as int, target));
                assert(old(board).adj(index as int).contains(j));
            }
            board.set_important(j, true);
            return ;
        }
        k = k + 1;
    }
}

/// The `k`-th neighbour of `index` is a dead filled cell of player `p`.
pub open spec fn neighbor_is_dead_filled(b: GameBoardImpl, index: int, k: int, p: int) -> bool {
    &&& 0 <= k < b.adj(index).len()
    &&& b.kind_at(b.adj(index)[k] as int) is Filled
    &&& b.owner_at(b.adj(index)[k] as int) == p
    &&& !b.alive_at(b.adj(index)[k] as int)
}

/// Every dead filled neighbour of `index` owned by `player` ends alive as
/// part of a chain whose entry neighbour — itself a dead filled neighbour —
/// carries the anchor mark.
#[verifier::opaque]
pub open spec fn revived_neighbors_anchored(
    a: GameBoardImpl,
    b: GameBoardImpl,
    index: int,
    player: int,
) -> bool {
    forall|k: int|
        #[trigger] neighbor_is_dead_filled(a, index, k, player) ==> exists|k2: int|
            neighbor_is_dead_filled(a, index, k2, player) && b.important_at(
                a.adj(index)[k2] as int,
            ) && b.alive_at(a.adj(index)[k2] as int) && chain_reachable(
                a,
                player,
                a.adj(index)[k2],
                a.adj(index)[k],
            )
}

/// Every cell revived so far traces back to a marked dead filled neighbour
/// of `index`.
#[verifier::opaque]
pub open spec fn newly_alive_anchored(
    a: GameBoardImpl,
    b: GameBoardImpl,
    index: int,
    player: int,
) -> bool {
    forall|v: int|
        0 <= v < a.n() && #[trigger] b.alive_at(v) && !a.alive_at(v) ==> exists|k2: int|
            neighbor_is_dead_filled(a, index, k2, player) && b.important_at(
                a.adj(index)[k2] as int,
            ) && b.alive_at(a.adj(index)[k2] as int) && chain_reachable(
                a,
                player,
                a.adj(index)[k2],
                v as usize,
            )
}

/// If every dead filled neighbour ends alive and every revived cell traces
/// back to a marked entry neighbour, then in particular every dead filled
/// neighbour does.
proof fn lemma_activate_anchoring_bridge(
    a: GameBoardImpl,
    b: GameBoardImpl,
    index: int,
    player: int,
)
    requires
        a.wf(),
        0 <= index < a.n(),
        forall|k: int|
            neighbor_is_dead_filled(a, index, k, player) ==> b.alive_at(
                ((#[trigger] a.adj(index)[k]) as int),
            ),
        newly_alive_anchored(a, b, index, player),
    ensures
        revived_neighbors_anchored(a, b, index, player),
{
    a.lemma_wf_facts();
    reveal(revived_neighbors_anchored);
    reveal(newly_alive_anchored);
    assert forall|k: int|
        #[trigger] neighbor_is_dead_filled(a, index, k, player) implies exists|k2: int|
        neighbor_is_dead_filled(a, index, k2, player) && b.important_at(a.adj(index)[k2] as int)
            && b.alive_at(a.adj(index)[k2] as int) && chain_reachable(
            a,
            player,
            a.adj(index)[k2],
            a.adj(index)[k],
        ) by {
        let vv = a.adj(index)[k] as int;
        assert(b.alive_at(vv));
        assert(0 <= vv < a.n() && !a.alive_at(vv));
        assert(exists|k2: int|
            neighbor_is_dead_filled(a, index, k2, player) && b.important_at(a.adj(index)[k2] as int)
                && b.alive_at(a.adj(index)[k2] as int) && chain_reachable(
                a,
                player,
                a.adj(index)[k2],
                vv as usize,
            ));
        let k0 = choose|k2: int|
            neighbor_is_dead_filled(a, index, k2, player) && b.important_at(a.adj(index)[k2] as int)
                && b.alive_at(a.adj(index)[k2] as int) && chain_reachable(
                a,
                player,
                a.adj(index)[k2],
                vv as usize,
            );
        assert(vv as usize == a.adj(index)[k]);
        assert(chain_reachable(a, player, a.adj(index)[k0], a.adj(index)[k]));
    }
}

/// The activation pass run after `index` became a claim of `player`: every
/// adjacent empty cell and opposing cross gains an activation edge for
/// `player`, and every adjacent dead filled cell of `player` is revived
/// with its whole chain and marked important. Returns whether some chain
/// was revived; the moved-to cell's own importance is set from it.
#[verifier::rlimit(40)]
pub fn activate_around(board: &mut GameBoardImpl, index: usize, player: usize) -> (is_special:
    bool)
    requires
        old(board).wf(),
        (index as int) < old(board).n(),
        (player as int) < old(board).players(),
    ensures
        final(board).wf(),
        same_structure(*old(board), *final(board)),
        forall|j: int| 0 <= j < old(board).n() ==> #[trigger] final(board).kind_at(j) == old(board).kind_at(j),
        forall|j: int| 0 <= j < old(board).n() ==> #[trigger] final(board).owner_at(j) == old(board).owner_at(j),
        forall|j: int|
            0 <= j < old(board).n() && old(board).alive_at(j) ==> #[trigger] final(board).alive_at(
                j,
            ),
        forall|j: int|
            0 <= j < old(board).n() && final(board).alive_at(j) != old(board).alive_at(j) ==> (
            #[trigger] final(board).kind_at(j)) is Filled && final(board).owner_at(j) == player,
        forall|j: int, q: int|
            0 <= j < old(board).n() && 0 <= q < old(board).players() && q != player ==> #[trigger]
            final(board).cnt(j, q) == old(board).cnt(j, q),
        forall|j: int|
            0 <= j < old(board).n() ==> #[trigger] final(board).cnt(j, player as int) >= old(board).cnt(j, player as int),
        forall|k: int|
            0 <= k < old(board).adj(index as int).len() && (old(board).kind_at(
                old(board).adj(index as int)[k] as int,
            ) is Empty || (old(board).kind_at(old(board).adj(index as int)[k] as int) is Cross
                && old(board).owner_at(old(board).adj(index as int)[k] as int) != player)) && old(board).cnt(old(board).adj(index as int)[k] as int, player as int) < usize::MAX ==> #[trigger]
            final(board).cnt(old(board).adj(index as int)[k] as int, player as int) > old(board).cnt(old(board).adj(index as int)[k] as int, player as int),
        forall|j: int|
            0 <= j < old(board).n() && old(board).important_at(j) ==> #[trigger] final(board).important_at(j),
        forall|j: int|
            0 <= j < old(board).n() && final(board).important_at(j) != old(board).important_at(j)
                ==> (#[trigger] final(board).kind_at(j)) is Filled && final(board).owner_at(j)
                == player && !old(board).alive_at(j),
        forall|q: int|
            0 <= q < old(board).players() && q != player ==> #[trigger] final(board).moves_counter_at(q) == old(board).moves_counter_at(q),
        forall|q: int|
            0 <= q < old(board).players() ==> #[trigger] final(board).crosses_counter_at(q) == old(board).crosses_counter_at(q),
        counts_move_only_on_fringe(*old(board), *final(board), player as int),
        is_special <==> exists|k: int| #[trigger]
            neighbor_is_dead_filled(*old(board), index as int, k, player as int),
        forall|k: int|
            neighbor_is_dead_filled(*old(board), index as int, k, player as int) ==> final(board).alive_at(old(board).adj(index as int)[k] as int),
        is_special ==> exists|k: int|
            #[trigger] neighbor_is_dead_filled(*old(board), index as int, k, player as int)
                && final(board).important_at(old(board).adj(index as int)[k] as int) && final(board).alive_at(old(board).adj(index as int)[k] as int),
        // every dead filled neighbour is revived as part of a chain whose
        // entry neighbour carries the anchor mark
        revived_neighbors_anchored(*old(board), *final(board), index as int, player as int),
{
    let alen = board.adjacent_len(index);
    proof {
        assert(newly_alive_anchored(*old(board), *board, index as int, player as int)) by {
            reveal(newly_alive_anchored);
        }
    }
    let mut is_special = false;
    let mut k: usize = 0;
    while k < alen
        invariant
            board.wf(),
            old(board).wf(),
            (index as int) < board.n(),
            (player as int) < board.players(),
            alen as int == board.adj(index as int).len(),
            0 <= k <= alen,
            same_structure(*old(board), *board),
            forall|j: int| 0 <= j < old(board).n() ==> #[trigger] board.kind_at(j) == old(board).kind_at(j),
            forall|j: int| 0 <= j < old(board).n() ==> #[trigger] board.owner_at(j) == old(board).owner_at(j),
            forall|j: int|
                0 <= j < old(board).n() && old(board).alive_at(j) ==> #[trigger] board.alive_at(j),
            forall|j: int|
                0 <= j < old(board).n() && board.alive_at(j) != old(board).alive_at(j) ==> (
                #[trigger] board.kind_at(j)) is Filled && board.owner_at(j) == player,
            forall|j: int, q: int|
                0 <= j < old(board).n() && 0 <= q < old(board).players() && q != player
                    ==> #[trigger] board.cnt(j, q) == old(board).cnt(j, q),
            forall|j: int|
                0 <= j < old(board).n() ==> #[trigger] board.cnt(j, player as int) >= old(board).cnt(j, player as int),
            forall|k2: int|
                0 <= k2 < k && (old(board).kind_at(old(board).adj(index as int)[k2] as int)
                    is Empty || (old(board).kind_at(old(board).adj(index as int)[k2] as int)
                    is Cross && old(board).owner_at(old(board).adj(index as int)[k2] as int)
                    != player)) && old(board).cnt(
                    old(board).adj(index as int)[k2] as int,
                    player as int,
                ) < usize::MAX ==> #[trigger] board.cnt(
                    old(board).adj(index as int)[k2] as int,
                    player as int,
                ) > old(board).cnt(old(board).adj(index as int)[k2] as int, player as int),
            forall|j: int|
                0 <= j < old(board).n() && old(board).important_at(j) ==> #[trigger] board
                    .important_at(j),
            forall|j: int|
                0 <= j < old(board).n() && board.important_at(j) != old(board).important_at(j)
                    ==> (#[trigger] board.kind_at(j)) is Filled && board.owner_at(j) == player
                    && !old(board).alive_at(j),
            forall|q: int|
                0 <= q < old(board).players() && q != player ==> #[trigger] board.moves_counter_at(
                    q,
                ) == old(board).moves_counter_at(q),
            forall|q: int|
                0 <= q < old(board).players() ==> #[trigger] board.crosses_counter_at(q) == old(board).crosses_counter_at(q),
            counts_move_only_on_fringe(*old(board), *board, player as int),
            is_special ==> exists|k2: int|
                #[trigger] neighbor_is_dead_filled(*old(board), index as int, k2, player as int)
                    && board.important_at(old(board).adj(index as int)[k2] as int)
                    && board.alive_at(old(board).adj(index as int)[k2] as int),
            newly_alive_anchored(*old(board), *board, index as int, player as int),
            !is_special ==> forall|j: int|
                0 <= j < old(board).n() ==> #[trigger] board.alive_at(j) == old(board).alive_at(j),
            forall|k2: int|
                0 <= k2 < k && #[trigger] neighbor_is_dead_filled(
                    *old(board),
                    index as int,
                    k2,
                    player as int,
                ) ==> is_special && board.alive_at(old(board).adj(index as int)[k2] as int),
        decreases alen - k,
    {
        let j = board.adjacent_at(index, k);
        let kd = board.kind(j);
        let ghost pre = *board;
        match kd {
            CellKind::Empty => {
                board.activate(j, player);
            },
            CellKind::Cross => {
                if board.player(j) != player {
                    board.activate(j, player);
                }
            },
            CellKind::Filled => {
                if board.player(j) == player && !board.is_alive(j) {
                    proof {
                        assert(neighbor_is_dead_filled(*old(board), index as int, k as int, player as int));
                    }
                    revive(board, j, player);
                    is_special = true;
                    board.set_important(j, true);
                }
            },
            CellKind::Border => {},
        }
        proof {
            old(board).lemma_wf_facts();
            // the strict gain on every already-handled empty or opposing
            // cross neighbour is kept by this step
            assert forall|k2: int|
                0 <= k2 < k + 1 && (old(board).kind_at(old(board).adj(index as int)[k2] as int)
                    is Empty || (old(board).kind_at(old(board).adj(index as int)[k2] as int)
                    is Cross && old(board).owner_at(old(board).adj(index as int)[k2] as int)
                    != player)) && old(board).cnt(
                    old(board).adj(index as int)[k2] as int,
                    player as int,
                ) < usize::MAX implies #[trigger] board.cnt(
                old(board).adj(index as int)[k2] as int,
                player as int,
            ) > old(board).cnt(old(board).adj(index as int)[k2] as int, player as int) by {
                let jj = old(board).adj(index as int)[k2] as int;
                assert(pre.cnt(jj, player as int) >= old(board).cnt(jj, player as int));
                if k2 < k {
                    assert(pre.cnt(jj, player as int) > old(board).cnt(jj, player as int));
                    assert(board.cnt(jj, player as int) >= pre.cnt(jj, player as int));
                } else {
                    assert(pre.kind_at(jj) == old(board).kind_at(jj));
                    assert(pre.owner_at(jj) == old(board).owner_at(jj));
                    assert(jj == j as int);
                    if pre.cnt(jj, player as int) < usize::MAX {
                        assert(board.cnt(jj, player as int) == pre.cnt(jj, player as int) + 1);
                    } else {
                        assert(board.cnt(jj, player as int) == pre.cnt(jj, player as int));
                    }
                }
            }
            // every dead filled neighbour handled so far is revived, and
            // only a revival sets the flag
            assert forall|k2: int|
                0 <= k2 < k + 1 && #[trigger] neighbor_is_dead_filled(
                    *old(board),
                    index as int,
                    k2,
                    player as int,
                ) implies is_special && board.alive_at(
                old(board).adj(index as int)[k2] as int,
            ) by {
                let jj = old(board).adj(index as int)[k2] as int;
                if k2 == k {
                    assert(jj == j as int);
                    assert(board.kind_at(jj) == old(board).kind_at(jj));
                    assert(board.owner_at(jj) == old(board).owner_at(jj));
                    if board.alive_at(jj) != old(board).alive_at(jj) {
                        assert(is_special);
                    }
                } else {
                    assert(pre.alive_at(jj));
                    assert(board.alive_at(jj));
                }
            }
            // each newly revived cell keeps a marked chain entry behind it
            assert(newly_alive_anchored(*old(board), *board, index as int, player as int)) by {
                reveal(newly_alive_anchored);
                assert forall|v: int|
                    0 <= v < old(board).n() && #[trigger] board.alive_at(v) && !old(board).alive_at(
                        v,
                    ) implies exists|k2: int|
                    neighbor_is_dead_filled(*old(board), index as int, k2, player as int) && board
                        .important_at(old(board).adj(index as int)[k2] as int) && board.alive_at(
                        old(board).adj(index as int)[k2] as int,
                    ) && chain_reachable(
                        *old(board),
                        player as int,
                        old(board).adj(index as int)[k2],
                        v as usize,
                    ) by {
                    old(board).lemma_wf_facts();
                    if pre.alive_at(v) {
                        let k0 = choose|k2: int|
                            neighbor_is_dead_filled(*old(board), index as int, k2, player as int)
                                && pre.important_at(old(board).adj(index as int)[k2] as int)
                                && pre.alive_at(old(board).adj(index as int)[k2] as int)
                                && chain_reachable(
                                *old(board),
                                player as int,
                                old(board).adj(index as int)[k2],
                                v as usize,
                            );
                        assert(board.important_at(old(board).adj(index as int)[k0] as int));
                        assert(board.alive_at(old(board).adj(index as int)[k0] as int));
                    } else {
                        assert(chain_reachable(pre, player as int, j, v as usize));
                        lemma_chain_reachable_transfer(
                            pre,
                            *old(board),
                            player as int,
                            j,
                            v as usize,
                        );
                        assert(neighbor_is_dead_filled(
                            *old(board),
                            index as int,
                            k as int,
                            player as int,
                        ));
                        assert(old(board).adj(index as int)[k as int] == j);
                        assert(board.important_at(j as int));
                        assert(board.alive_at(j as int));
                    }
                }
            }
            // the anchor witness survives the step
            if is_special {
                assert(exists|k2: int|
                    #[trigger] neighbor_is_dead_filled(*old(board), index as int, k2, player as int)
                        && board.important_at(old(board).adj(index as int)[k2] as int)
                        && board.alive_at(old(board).adj(index as int)[k2] as int)) by {
                    if exists|k2: int|
                        #[trigger] neighbor_is_dead_filled(
                            *old(board),
                            index as int,
                            k2,
                            player as int,
                        ) && pre.important_at(old(board).adj(index as int)[k2] as int)
                            && pre.alive_at(old(board).adj(index as int)[k2] as int) {
                        let k0 = choose|k2: int|
                            #[trigger] neighbor_is_dead_filled(
                                *old(board),
                                index as int,
                                k2,
                                player as int,
                            ) && pre.important_at(old(board).adj(index as int)[k2] as int)
                                && pre.alive_at(old(board).adj(index as int)[k2] as int);
                        assert(board.important_at(old(board).adj(index as int)[k0] as int));
                        assert(board.alive_at(old(board).adj(index as int)[k0] as int));
                    } else {
                        assert(neighbor_is_dead_filled(
                            *old(board),
                            index as int,
                            k as int,
                            player as int,
                        ) && board.important_at(old(board).adj(index as int)[k as int] as int)
                            && board.alive_at(old(board).adj(index as int)[k as int] as int));
                    }
                }
            }
        }
        k = k + 1;
    }
    proof {
        lemma_activate_anchoring_bridge(*old(board), *board, index as int, player as int);
    }
    is_special
}

/// The chain holding `j` is anchored: some important cross of the owner is
/// adjacent to a member of the chain reachable from `j`.
pub open spec fn chain_re_anchored(b: GameBoardImpl, owner: int, j: usize) -> bool {
    exists|f: usize, k2: int|
        chain_reachable(b, owner, j, f) && 0 <= k2 < b.adj(f as int).len() && b.kind_at(
            ((#[trigger] b.adj(f as int)[k2]) as int),
        ) is Cross && b.owner_at(b.adj(f as int)[k2] as int) == owner && b.important_at(
            b.adj(f as int)[k2] as int,
        )
}

/// Some cross of the owner lies next to a member of the chain reachable
/// from `j`: the chain has a candidate activator.
pub open spec fn chain_has_candidate(b: GameBoardImpl, owner: int, j: usize) -> bool {
    exists|f: usize, k2: int|
        chain_reachable(b, owner, j, f) && 0 <= k2 < b.adj(f as int).len() && b.kind_at(
            ((#[trigger] b.adj(f as int)[k2]) as int),
        ) is Cross && b.owner_at(b.adj(f as int)[k2] as int) == owner
}

/// Chain membership is transitive: paths concatenate.
proof fn lemma_chain_reachable_trans(b: GameBoardImpl, owner: int, x: usize, y: usize, z: usize)
    requires
        chain_reachable(b, owner, x, y),
        chain_reachable(b, owner, y, z),
    ensures
        chain_reachable(b, owner, x, z),
{
    let p1 = choose|path: Seq<usize>|
        #[trigger] chain_path(b, owner, path) && path[0] == x && path[path.len() - 1] == y;
    let p2 = choose|path: Seq<usize>|
        #[trigger] chain_path(b, owner, path) && path[0] == y && path[path.len() - 1] == z;
    if p2.len() == 1 {
        assert(chain_path(b, owner, p1) && p1[0] == x && p1[p1.len() - 1] == z);
    } else {
        let joined = p1 + p2.subrange(1, p2.len() as int);
        assert(joined.len() == p1.len() + p2.len() - 1);
        assert forall|t: int|
            0 <= t < joined.len() implies ((#[trigger] joined[t]) as int) < b.n() && b.kind_at(
            joined[t] as int,
        ) is Filled && b.owner_at(joined[t] as int) == owner by {
            if t < p1.len() {
                assert(joined[t] == p1[t]);
            } else {
                assert(joined[t] == p2[t - p1.len() + 1]);
            }
        }
        assert forall|t: int| 0 <= t < joined.len() - 1 implies b.adj(joined[t] as int).contains(
            #[trigger] joined[t + 1],
        ) by {
            if t + 1 < p1.len() {
                assert(joined[t] == p1[t] && joined[t + 1] == p1[t + 1]);
                assert(b.adj(p1[t] as int).contains(p1[t + 1]));
            } else if t + 1 == p1.len() {
                assert(joined[t] == p1[t] && p1[t] == p1[p1.len() - 1]);
                assert(joined[t + 1] == p2[1]);
                assert(b.adj(p2[0int] as int).contains(p2[0int + 1]));
            } else {
                let t2 = t - p1.len() + 1;
                assert(joined[t] == p2[t2] && joined[t + 1] == p2[t2 + 1]);
                assert(b.adj(p2[t2] as int).contains(p2[t2 + 1]));
            }
        }
        assert(chain_path(b, owner, joined) && joined[0] == x && joined[joined.len() - 1] == z);
    }
}

/// Chain membership carries over to any board with the same kinds, owners
/// and adjacency.
proof fn lemma_chain_reachable_transfer(
    a: GameBoardImpl,
    b: GameBoardImpl,
    owner: int,
    s: usize,
    f: usize,
)
    requires
        chain_reachable(a, owner, s, f),
        b.n() == a.n(),
        forall|i: int| 0 <= i < a.n() ==> #[trigger] b.kind_at(i) == a.kind_at(i),
        forall|i: int| 0 <= i < a.n() ==> #[trigger] b.owner_at(i) == a.owner_at(i),
        forall|i: int| 0 <= i < a.n() ==> #[trigger] b.adj(i) == a.adj(i),
    ensures
        chain_reachable(b, owner, s, f),
{
    let path = choose|path: Seq<usize>|
        #[trigger] chain_path(a, owner, path) && path[0] == s && path[path.len() - 1] == f;
    assert forall|t: int| 0 <= t < path.len() - 1 implies b.adj(path[t] as int).contains(
        #[trigger] path[t + 1],
    ) by {
        assert(a.adj(path[t] as int).contains(path[t + 1]));
        assert(b.adj(path[t] as int) == a.adj(path[t] as int));
    }
    assert(chain_path(b, owner, path));
}

/// The first half of the deactivation cascade: for each important alive
/// filled neighbour of `index` owned by `player`, search its chain for a
/// replacement cross; re-anchor the chain on the cross found, or kill the
/// chain and clear the neighbour's anchor flag unless a paired anchor still
/// justifies it. Must run before the plain edge removal, which would take
/// away state the search relies on.
fn deactivate_filled_around(board: &mut GameBoardImpl, index: usize, player: usize)
    requires
        old(board).wf(),
        (index as int) < old(board).n(),
        (player as int) < old(board).players(),
    ensures
        final(board).wf(),
        same_structure(*old(board), *final(board)),
        forall|j: int| 0 <= j < old(board).n() ==> #[trigger] final(board).kind_at(j) == old(board).kind_at(j),
        forall|j: int| 0 <= j < old(board).n() ==> #[trigger] final(board).owner_at(j) == old(board).owner_at(j),
        forall|j: int|
            0 <= j < old(board).n() && !old(board).alive_at(j) ==> !(#[trigger] final(board).alive_at(j)),
        forall|j: int|
            0 <= j < old(board).n() && final(board).alive_at(j) != old(board).alive_at(j) ==> (
            #[trigger] final(board).kind_at(j)) is Filled && final(board).owner_at(j) == player,
        forall|j: int, q: int|
            0 <= j < old(board).n() && 0 <= q < old(board).players() && q != player ==> #[trigger]
            final(board).cnt(j, q) == old(board).cnt(j, q),
        forall|j: int|
            0 <= j < old(board).n() ==> #[trigger] final(board).cnt(j, player as int) <= old(board).cnt(j, player as int),
        counts_move_only_on_fringe(*old(board), *final(board), player as int),
        forall|q: int|
            0 <= q < old(board).players() && q != player ==> #[trigger] final(board).moves_counter_at(q) == old(board).moves_counter_at(q),
        forall|q: int|
            0 <= q < old(board).players() ==> #[trigger] final(board).crosses_counter_at(q) == old(board).crosses_counter_at(q),
        forall|j: int|
            0 <= j < old(board).n() && final(board).important_at(j) != old(board).important_at(j)
                ==> ((#[trigger] final(board).kind_at(j)) is Cross || final(board).kind_at(j)
                is Filled) && final(board).owner_at(j) == player,
        // each important alive filled neighbour of the player ends dead, or
        // its chain keeps an anchor: an important cross of the player next
        // to a chain member
        forall|k: int|
            0 <= k < old(board).adj(index as int).len() && old(board).kind_at(
                ((#[trigger] old(board).adj(index as int)[k]) as int),
            ) is Filled && old(board).owner_at(old(board).adj(index as int)[k] as int) == player
                && old(board).alive_at(old(board).adj(index as int)[k] as int) && old(board).important_at(
                old(board).adj(index as int)[k] as int,
            ) ==> !final(board).alive_at(old(board).adj(index as int)[k] as int)
                || chain_re_anchored(
                *final(board),
                player as int,
                old(board).adj(index as int)[k],
            ),
        // the case split of the cascade: a chain with a candidate activator
        // is never killed — it stays alive and ends re-anchored; only a
        // chain with no cross next to any reachable member dies
        forall|k: int|
            0 <= k < old(board).adj(index as int).len() && old(board).kind_at(
                ((#[trigger] old(board).adj(index as int)[k]) as int),
            ) is Filled && old(board).owner_at(old(board).adj(index as int)[k] as int) == player
                && old(board).alive_at(old(board).adj(index as int)[k] as int) && old(board).important_at(
                old(board).adj(index as int)[k] as int,
            ) && chain_has_candidate(*old(board), player as int, old(board).adj(index as int)[k])
                ==> final(board).alive_at(old(board).adj(index as int)[k] as int)
                && chain_re_anchored(*final(board), player as int, old(board).adj(index as int)[k]),
        // an anchor flag is taken away only from a killed cell
        forall|j: int|
            0 <= j < old(board).n() && old(board).important_at(j) && !(#[trigger] final(board).important_at(j)) ==> !final(board).alive_at(j),
    {
        let alen = board.adjacent_len(index);
        let mut k: usize = 0;
        while k < alen
            invariant
                board.wf(),
                old(board).wf(),
                (index as int) < board.n(),
                (player as int) < board.players(),
                alen as int == board.adj(index as int).len(),
                0 <= k <= alen,
                same_structure(*old(board), *board),
                forall|j: int| 0 <= j < old(board).n() ==> #[trigger] board.kind_at(j) == old(board).kind_at(j),
                forall|j: int| 0 <= j < old(board).n() ==> #[trigger] board.owner_at(j) == old(board).owner_at(j),
                forall|j: int|
                    0 <= j < old(board).n() && !old(board).alive_at(j) ==> !(
                    #[trigger] board.alive_at(j)),
                forall|j: int|
                    0 <= j < old(board).n() && board.alive_at(j) != old(board).alive_at(j) ==> (
                    #[trigger] board.kind_at(j)) is Filled && board.owner_at(j) == player,
                forall|j: int, q: int|
                    0 <= j < old(board).n() && 0 <= q < old(board).players() && q != player
                        ==> #[trigger] board.cnt(j, q) == old(board).cnt(j, q),
                forall|j: int|
                    0 <= j < old(board).n() ==> #[trigger] board.cnt(j, player as int) <= old(board).cnt(j, player as int),
                counts_move_only_on_fringe(*old(board), *board, player as int),
                forall|q: int|
                    0 <= q < old(board).players() && q != player ==> #[trigger] board
                        .moves_counter_at(q) == old(board).moves_counter_at(q),
                forall|q: int|
                    0 <= q < old(board).players() ==> #[trigger] board.crosses_counter_at(q) == old(board).crosses_counter_at(q),
                forall|j: int|
                    0 <= j < old(board).n() && board.important_at(j) != old(board).important_at(j)
                        ==> ((#[trigger] board.kind_at(j)) is Cross || board.kind_at(j) is Filled)
                        && board.owner_at(j) == player,
                // a cross, once important, stays important through the pass
                forall|j: int|
                    0 <= j < old(board).n() && old(board).kind_at(j) is Cross && old(board).important_at(j) ==> #[trigger] board.important_at(j),
                // an anchor flag is taken away only from a killed cell
                forall|j: int|
                    0 <= j < old(board).n() && old(board).important_at(j) && !(
                    #[trigger] board.important_at(j)) ==> !board.alive_at(j),
                forall|k2: int|
                    0 <= k2 < k && old(board).kind_at(
                        ((#[trigger] old(board).adj(index as int)[k2]) as int),
                    ) is Filled && old(board).owner_at(old(board).adj(index as int)[k2] as int)
                        == player && old(board).alive_at(old(board).adj(index as int)[k2] as int)
                        && old(board).important_at(old(board).adj(index as int)[k2] as int)
                        ==> !board.alive_at(old(board).adj(index as int)[k2] as int)
                        || chain_re_anchored(*board, player as int, old(board).adj(index as int)[k2]),
                // a killed cell's chain had no candidate activator
                forall|v: int|
                    0 <= v < old(board).n() && old(board).alive_at(v) && !(
                    #[trigger] board.alive_at(v)) ==> !chain_has_candidate(
                        *old(board),
                        player as int,
                        v as usize,
                    ),
            decreases alen - k,
        {
            let ghost pre = *board;
            let j = board.adjacent_at(index, k);
            let kd = board.kind(j);
            if (match kd {
                CellKind::Filled => true,
                _ => false,
            }) && board.player(j) == player && board.is_alive(j) && board.is_important(j) {
                match search(board, j, player) {
                    Some(found) => {
                        board.set_important(found.cross, true);
                        board.set_important(found.filled, true);
                        proof {
                            old(board).lemma_wf_facts();
                            lemma_chain_reachable_transfer(
                                pre,
                                *board,
                                player as int,
                                j,
                                found.filled,
                            );
                            let k0 = choose|k2: int|
                                0 <= k2 < board.adj(found.filled as int).len() && board.adj(
                                    found.filled as int,
                                )[k2] == found.cross;
                            assert(board.important_at(
                                board.adj(found.filled as int)[k0] as int,
                            ));
                            assert(chain_re_anchored(*board, player as int, j));
                        }
                    },
                    None => {
                        let ghost pre_kill = *board;
                        kill(board, j, player);
                        if !is_paired(board, j, player) {
                            board.set_important(j, false);
                        }
                        proof {
                            assert(!board.alive_at(j as int));
                            old(board).lemma_wf_facts();
                            assert forall|v: int|
                                0 <= v < old(board).n() && old(board).alive_at(v) && !(
                                #[trigger] board.alive_at(v)) implies !chain_has_candidate(
                                *old(board),
                                player as int,
                                v as usize,
                            ) by {
                                if pre_kill.alive_at(v) {
                                    // killed in this walk: reachable from `j`,
                                    // whose search saw no candidate anywhere
                                    assert(chain_reachable(
                                        pre_kill,
                                        player as int,
                                        j,
                                        v as usize,
                                    ));
                                    if chain_has_candidate(*old(board), player as int, v as usize) {
                                        let (f0, c0) = choose|f: usize, k2: int|
                                            chain_reachable(
                                                *old(board),
                                                player as int,
                                                v as usize,
                                                f,
                                            ) && 0 <= k2 < old(board).adj(f as int).len() && old(board).kind_at(
                                                ((old(board).adj(f as int)[k2]) as int),
                                            ) is Cross && old(board).owner_at(
                                                old(board).adj(f as int)[k2] as int,
                                            ) == player;
                                        lemma_chain_reachable_transfer(
                                            *old(board),
                                            pre_kill,
                                            player as int,
                                            v as usize,
                                            f0,
                                        );
                                        lemma_chain_reachable_trans(
                                            pre_kill,
                                            player as int,
                                            j,
                                            v as usize,
                                            f0,
                                        );
                                        let path = choose|path: Seq<usize>|
                                            #[trigger] chain_path(pre_kill, player as int, path)
                                                && path[0] == j && path[path.len() - 1] == f0;
                                        assert(no_adjacent_cross(
                                            pre_kill,
                                            player as int,
                                            path[path.len() - 1] as int,
                                        ));
                                        assert(pre_kill.kind_at(
                                            pre_kill.adj(f0 as int)[c0] as int,
                                        ) is Cross && pre_kill.owner_at(
                                            pre_kill.adj(f0 as int)[c0] as int,
                                        ) == player);
                                        assert(false);
                                    }
                                }
                            }
                        }
                    },
                }
            }
            proof {
                old(board).lemma_wf_facts();
                assert forall|k2: int|
                    0 <= k2 < k + 1 && old(board).kind_at(
                        ((#[trigger] old(board).adj(index as int)[k2]) as int),
                    ) is Filled && old(board).owner_at(old(board).adj(index as int)[k2] as int)
                        == player && old(board).alive_at(old(board).adj(index as int)[k2] as int)
                        && old(board).important_at(
                        old(board).adj(index as int)[k2] as int,
                    ) implies !board.alive_at(old(board).adj(index as int)[k2] as int)
                    || chain_re_anchored(*board, player as int, old(board).adj(index as int)[k2]) by {
                    let jj = old(board).adj(index as int)[k2];
                    if k2 < k {
                        if pre.alive_at(jj as int) {
                            if chain_re_anchored(pre, player as int, jj) {
                                let (f0, c0) = choose|f: usize, c0: int|
                                    chain_reachable(pre, player as int, jj, f) && 0 <= c0 < pre.adj(
                                        f as int,
                                    ).len() && pre.kind_at(
                                        ((pre.adj(f as int)[c0]) as int),
                                    ) is Cross && pre.owner_at(pre.adj(f as int)[c0] as int)
                                        == player && pre.important_at(pre.adj(f as int)[c0] as int);
                                lemma_chain_reachable_transfer(pre, *board, player as int, jj, f0);
                                assert(board.important_at(board.adj(f0 as int)[c0] as int));
                                assert(chain_re_anchored(*board, player as int, jj));
                            }
                        }
                    } else {
                        assert(jj == j);
                        if board.alive_at(jj as int) {
                            // the neighbour was processed while alive and
                            // important, or it had already been killed: an
                            // anchor flag is taken away only from dead cells
                            if !pre.alive_at(jj as int) {
                                assert(!board.alive_at(jj as int));
                            } else if !pre.important_at(jj as int) {
                                assert(!pre.alive_at(jj as int));
                            }
                        }
                    }
                }
            }
            k = k + 1;
        }
    }

/// Number of times `x` occurs among the first `k` entries of `s`.
pub open spec fn occurrences_upto(s: Seq<usize>, x: usize, k: int) -> int
    decreases k,
{
    if k <= 0 {
        0
    } else {
        occurrences_upto(s, x, k - 1) + if s[k - 1] == x {
            1int
        } else {
            0int
        }
    }
}

/// The second half of the deactivation cascade: plain removal of one
/// activation edge of `player` from every adjacent empty cell and opposing
/// cross, after the claim at `index` stopped being theirs.
fn deactivate_remaining_around(board: &mut GameBoardImpl, index: usize, player: usize)
    requires
        old(board).wf(),
        (index as int) < old(board).n(),
        (player as int) < old(board).players(),
    ensures
        final(board).wf(),
        same_structure(*old(board), *final(board)),
        cells_unchanged(*old(board), *final(board)),
        counts_move_only_on_fringe(*old(board), *final(board), player as int),
        forall|j: int, q: int|
            0 <= j < old(board).n() && 0 <= q < old(board).players() && q != player ==> #[trigger]
            final(board).cnt(j, q) == old(board).cnt(j, q),
        forall|j: int|
            0 <= j < old(board).n() ==> #[trigger] final(board).cnt(j, player as int) <= old(board).cnt(j, player as int),
        // exactly one activation edge of the player is removed per occurrence
        // of a cell in the removed claim's adjacency list; a cell covered
        // more often than that keeps the difference
        forall|j: int|
            0 <= j < old(board).n() && (old(board).kind_at(j) is Empty || (old(board).kind_at(j)
                is Cross && old(board).owner_at(j) != player)) ==> #[trigger] final(board).cnt(
                j,
                player as int,
            ) as int == (if old(board).cnt(j, player as int) >= occurrences_upto(
                old(board).adj(index as int),
                j as usize,
                old(board).adj(index as int).len() as int,
            ) {
                old(board).cnt(j, player as int) - occurrences_upto(
                    old(board).adj(index as int),
                    j as usize,
                    old(board).adj(index as int).len() as int,
                )
            } else {
                0int
            }),
        forall|k: int|
            0 <= k < old(board).adj(index as int).len() && (old(board).kind_at(
                old(board).adj(index as int)[k] as int,
            ) is Empty || (old(board).kind_at(old(board).adj(index as int)[k] as int) is Cross
                && old(board).owner_at(old(board).adj(index as int)[k] as int) != player)) && old(board).cnt(old(board).adj(index as int)[k] as int, player as int) > 0 ==> #[trigger] final(board).cnt(old(board).adj(index as int)[k] as int, player as int) < old(board).cnt(
                old(board).adj(index as int)[k] as int,
                player as int,
            ),
        forall|q: int|
            0 <= q < old(board).players() && q != player ==> #[trigger] final(board).moves_counter_at(q) == old(board).moves_counter_at(q),
        forall|q: int|
            0 <= q < old(board).players() ==> #[trigger] final(board).crosses_counter_at(q) == old(board).crosses_counter_at(q),
{
    let alen = board.adjacent_len(index);
    let mut k: usize = 0;
    while k < alen
        invariant
            board.wf(),
            old(board).wf(),
            (index as int) < board.n(),
            (player as int) < board.players(),
            alen as int == board.adj(index as int).len(),
            0 <= k <= alen,
            same_structure(*old(board), *board),
            cells_unchanged(*old(board), *board),
            counts_move_only_on_fringe(*old(board), *board, player as int),
            forall|j: int, q: int|
                0 <= j < old(board).n() && 0 <= q < old(board).players() && q != player
                    ==> #[trigger] board.cnt(j, q) == old(board).cnt(j, q),
            forall|j: int|
                0 <= j < old(board).n() ==> #[trigger] board.cnt(j, player as int) <= old(board).cnt(j, player as int),
            forall|j: int|
                0 <= j < old(board).n() && (old(board).kind_at(j) is Empty || (old(board).kind_at(
                    j,
                ) is Cross && old(board).owner_at(j) != player)) ==> #[trigger] board.cnt(
                    j,
                    player as int,
                ) as int == (if old(board).cnt(j, player as int) >= occurrences_upto(
                    old(board).adj(index as int),
                    j as usize,
                    k as int,
                ) {
                    old(board).cnt(j, player as int) - occurrences_upto(
                        old(board).adj(index as int),
                        j as usize,
                        k as int,
                    )
                } else {
                    0int
                }),
            forall|k2: int|
                0 <= k2 < k && (old(board).kind_at(old(board).adj(index as int)[k2] as int)
                    is Empty || (old(board).kind_at(old(board).adj(index as int)[k2] as int)
                    is Cross && old(board).owner_at(old(board).adj(index as int)[k2] as int)
                    != player)) && old(board).cnt(
                    old(board).adj(index as int)[k2] as int,
                    player as int,
                ) > 0 ==> #[trigger] board.cnt(
                    old(board).adj(index as int)[k2] as int,
                    player as int,
                ) < old(board).cnt(old(board).adj(index as int)[k2] as int, player as int),
            forall|q: int|
                0 <= q < old(board).players() && q != player ==> #[trigger] board.moves_counter_at(
                    q,
                ) == old(board).moves_counter_at(q),
            forall|q: int|
                0 <= q < old(board).players() ==> #[trigger] board.crosses_counter_at(q) == old(board).crosses_counter_at(q),
        decreases alen - k,
    {
        let ghost pre = *board;
        let j = board.adjacent_at(index, k);
        let kd = board.kind(j);
        let take = match kd {
            CellKind::Empty => true,
            CellKind::Cross => board.player(j) != player,
            _ => false,
        };
        if take {
            board.deactivate(j, player);
            proof {
                assert forall|k2: int|
                    0 <= k2 < k + 1 && (old(board).kind_at(old(board).adj(index as int)[k2] as int)
                        is Empty || (old(board).kind_at(old(board).adj(index as int)[k2] as int)
                        is Cross && old(board).owner_at(old(board).adj(index as int)[k2] as int)
                        != player)) && old(board).cnt(
                        old(board).adj(index as int)[k2] as int,
                        player as int,
                    ) > 0 implies #[trigger] board.cnt(
                    old(board).adj(index as int)[k2] as int,
                    player as int,
                ) < old(board).cnt(old(board).adj(index as int)[k2] as int, player as int) by {
                    old(board).lemma_wf_facts();
                    let jj = old(board).adj(index as int)[k2] as int;
                    assert(pre.cnt(jj, player as int) <= old(board).cnt(jj, player as int));
                    if k2 < k {
                        assert(pre.cnt(jj, player as int) < old(board).cnt(jj, player as int));
                    }
                    if jj == j as int {
                        assert(board.cnt(jj, player as int) == if pre.cnt(j as int, player as int)
                            > 0 {
                            pre.cnt(j as int, player as int) - 1
                        } else {
                            0int
                        });
                    } else {
                        assert(board.cnt(jj, player as int) == pre.cnt(jj, player as int));
                    }
                }
            }
        }
        proof {
            old(board).lemma_wf_facts();
            assert(old(board).adj(index as int)[k as int] == j);
            assert forall|j2: int|
                0 <= j2 < old(board).n() && (old(board).kind_at(j2) is Empty || (old(board).kind_at(
                    j2,
                ) is Cross && old(board).owner_at(j2) != player)) implies board.cnt(
                j2,
                player as int,
            ) as int == (if old(board).cnt(j2, player as int) >= occurrences_upto(
                old(board).adj(index as int),
                j2 as usize,
                k + 1,
            ) {
                old(board).cnt(j2, player as int) - occurrences_upto(
                    old(board).adj(index as int),
                    j2 as usize,
                    k + 1,
                )
            } else {
                0int
            }) by {
                assert(pre.kind_at(j2) == old(board).kind_at(j2));
                assert(pre.owner_at(j2) == old(board).owner_at(j2));
                if j2 == j as int {
                    assert(occurrences_upto(old(board).adj(index as int), j2 as usize, k + 1)
                        == occurrences_upto(old(board).adj(index as int), j2 as usize, k as int)
                        + 1);
                    assert(board.cnt(j2, player as int) == if pre.cnt(j as int, player as int) > 0 {
                        pre.cnt(j as int, player as int) - 1
                    } else {
                        0int
                    });
                } else {
                    assert((j2 as usize) as int == j2);
                    assert(occurrences_upto(old(board).adj(index as int), j2 as usize, k + 1)
                        == occurrences_upto(old(board).adj(index as int), j2 as usize, k as int));
                    assert(board.cnt(j2, player as int) == pre.cnt(j2, player as int));
                }
            }
        }
        k = k + 1;
    }
}

/// The deactivation cascade run after the claim of `player` at `index` is
/// gone: first the anchored-chain pass (only if the removed cell was
/// important), then the plain edge removal. The order matters: the chain
/// search must still see the board before the edges disappear.
fn deactivate_around(board: &mut GameBoardImpl, index: usize, player: usize, was_important: bool)
    requires
        old(board).wf(),
        (index as int) < old(board).n(),
        (player as int) < old(board).players(),
    ensures
        final(board).wf(),
        same_structure(*old(board), *final(board)),
        forall|j: int| 0 <= j < old(board).n() ==> #[trigger] final(board).kind_at(j) == old(board).kind_at(j),
        forall|j: int| 0 <= j < old(board).n() ==> #[trigger] final(board).owner_at(j) == old(board).owner_at(j),
        forall|j: int|
            0 <= j < old(board).n() && !old(board).alive_at(j) ==> !(#[trigger] final(board).alive_at(j)),
        forall|j: int|
            0 <= j < old(board).n() && final(board).alive_at(j) != old(board).alive_at(j) ==> (
            #[trigger] final(board).kind_at(j)) is Filled && final(board).owner_at(j) == player,
        forall|j: int, q: int|
            0 <= j < old(board).n() && 0 <= q < old(board).players() && q != player ==> #[trigger]
            final(board).cnt(j, q) == old(board).cnt(j, q),
        forall|j: int|
            0 <= j < old(board).n() ==> #[trigger] final(board).cnt(j, player as int) <= old(board).cnt(j, player as int),
        counts_move_only_on_fringe(*old(board), *final(board), player as int),
        forall|k: int|
            0 <= k < old(board).adj(index as int).len() && (old(board).kind_at(
                old(board).adj(index as int)[k] as int,
            ) is Empty || (old(board).kind_at(old(board).adj(index as int)[k] as int) is Cross
                && old(board).owner_at(old(board).adj(index as int)[k] as int) != player)) && old(board).cnt(old(board).adj(index as int)[k] as int, player as int) > 0 ==> #[trigger] final(board).cnt(old(board).adj(index as int)[k] as int, player as int) < old(board).cnt(
                old(board).adj(index as int)[k] as int,
                player as int,
            ),
        forall|q: int|
            0 <= q < old(board).players() && q != player ==> #[trigger] final(board).moves_counter_at(q) == old(board).moves_counter_at(q),
        forall|q: int|
            0 <= q < old(board).players() ==> #[trigger] final(board).crosses_counter_at(q) == old(board).crosses_counter_at(q),
        forall|j: int|
            0 <= j < old(board).n() && final(board).important_at(j) != old(board).important_at(j)
                ==> ((#[trigger] final(board).kind_at(j)) is Cross || final(board).kind_at(j)
                is Filled) && final(board).owner_at(j) == player,
        !was_important ==> forall|j: int|
            0 <= j < old(board).n() ==> #[trigger] final(board).important_at(j) == old(board).important_at(j),
        !was_important ==> forall|j: int|
            0 <= j < old(board).n() ==> #[trigger] final(board).alive_at(j) == old(board).alive_at(
                j,
            ),
{
    let ghost entry = *board;
    if was_important {
        deactivate_filled_around(board, index, player);
    }
    let ghost mid = *board;
    deactivate_remaining_around(board, index, player);
    proof {
        entry.lemma_wf_facts();
        assert forall|k: int|
            0 <= k < entry.adj(index as int).len() && (entry.kind_at(
                entry.adj(index as int)[k] as int,
            ) is Empty || (entry.kind_at(entry.adj(index as int)[k] as int) is Cross
                && entry.owner_at(entry.adj(index as int)[k] as int) != player)) && entry.cnt(
            entry.adj(index as int)[k] as int,
            player as int,
        ) > 0 implies #[trigger] board.cnt(entry.adj(index as int)[k] as int, player as int)
            < entry.cnt(entry.adj(index as int)[k] as int, player as int) by {
            let jj = entry.adj(index as int)[k] as int;
            assert(mid.cnt(jj, player as int) <= entry.cnt(jj, player as int));
            if mid.cnt(jj, player as int) > 0 {
                assert(mid.kind_at(jj) == entry.kind_at(jj));
                assert(board.cnt(jj, player as int) < mid.cnt(jj, player as int));
            } else {
                assert(board.cnt(jj, player as int) <= mid.cnt(jj, player as int));
            }
        }
    }
}

/// The exact error discipline of `make_move`: each error comes on exactly
/// the inputs shown, and the move succeeds exactly on a reachable empty
/// cell or a reachable opposing cross.
pub open spec fn move_outcome(
    b: GameBoardImpl,
    index: int,
    player: int,
    r: Result<(), BoardError>,
) -> bool {
    &&& (r == Err::<(), BoardError>(BoardError::BorderHit) <==> (index >= b.n() || b.kind_at(index)
        is Border))
    &&& (r == Err::<(), BoardError>(BoardError::DoubleFill) <==> (index < b.n() && b.kind_at(index)
        is Filled))
    &&& (r == Err::<(), BoardError>(BoardError::SelfFill) <==> (index < b.n() && b.kind_at(index)
        is Cross && b.owner_at(index) == player))
    &&& (r == Err::<(), BoardError>(BoardError::OutOfReach) <==> (index < b.n() && (b.kind_at(index)
        is Empty || (b.kind_at(index) is Cross && b.owner_at(index) != player)) && b.cnt(
        index,
        player,
    ) == 0))
    &&& (r is Ok <==> (index < b.n() && (b.kind_at(index) is Empty || (b.kind_at(index) is Cross
        && b.owner_at(index) != player)) && b.cnt(index, player) > 0))
    &&& r != Err::<(), BoardError>(BoardError::EmptyCancel)
}

/// The exact error discipline of `cancel_move`: border and out-of-board
/// indices are refused, an empty cell cannot be cancelled, and every cross
/// or filled cell can.
pub open spec fn cancel_outcome(b: GameBoardImpl, index: int, r: Result<(), BoardError>) -> bool {
    &&& (r == Err::<(), BoardError>(BoardError::BorderHit) <==> (index >= b.n() || b.kind_at(index)
        is Border))
    &&& (r == Err::<(), BoardError>(BoardError::EmptyCancel) <==> (index < b.n() && b.kind_at(index)
        is Empty))
    &&& (r is Ok <==> (index < b.n() && (b.kind_at(index) is Cross || b.kind_at(index) is Filled)))
    &&& r != Err::<(), BoardError>(BoardError::SelfFill)
    &&& r != Err::<(), BoardError>(BoardError::DoubleFill)
    &&& r != Err::<(), BoardError>(BoardError::OutOfReach)
}

/// What a successful move onto an empty cell changes: the cell becomes a
/// cross of the mover, pinned inactive for its own owner; no other cell
/// changes kind or owner; only the mover's activation can grow, and it
/// grows on every adjacent empty cell and opposing cross; only the mover's
/// dead chains can revive or become anchors; the mover gains one cross.
pub open spec fn cross_move_effects(
    a: GameBoardImpl,
    b: GameBoardImpl,
    index: int,
    player: int,
) -> bool {
    &&& b.kind_at(index) is Cross
    &&& b.owner_at(index) == player
    &&& b.cnt(index, player) == 0
    &&& b.alive_at(index) == a.alive_at(index)
    &&& forall|q: int|
        0 <= q < a.players() && q != player ==> #[trigger] b.cnt(index, q) == a.cnt(index, q)
    &&& forall|j: int|
        0 <= j < a.n() && j != index ==> #[trigger] b.kind_at(j) == a.kind_at(j)
    &&& forall|j: int|
        0 <= j < a.n() && j != index ==> #[trigger] b.owner_at(j) == a.owner_at(j)
    &&& forall|j: int| 0 <= j < a.n() && a.alive_at(j) ==> #[trigger] b.alive_at(j)
    &&& forall|j: int|
        0 <= j < a.n() && b.alive_at(j) != a.alive_at(j) ==> (#[trigger] b.kind_at(j)) is Filled
            && b.owner_at(j) == player
    &&& forall|j: int, q: int|
        0 <= j < a.n() && 0 <= q < a.players() && q != player ==> #[trigger] b.cnt(j, q) == a.cnt(
            j,
            q,
        )
    &&& forall|j: int|
        0 <= j < a.n() && j != index ==> #[trigger] b.cnt(j, player) >= a.cnt(j, player)
    &&& forall|k: int|
        0 <= k < a.adj(index).len() && (a.kind_at(a.adj(index)[k] as int) is Empty || (a.kind_at(
            a.adj(index)[k] as int,
        ) is Cross && a.owner_at(a.adj(index)[k] as int) != player)) && a.cnt(
            a.adj(index)[k] as int,
            player,
        ) < usize::MAX ==> #[trigger] b.cnt(a.adj(index)[k] as int, player) > a.cnt(
            a.adj(index)[k] as int,
            player,
        )
    &&& forall|j: int|
        0 <= j < a.n() && j != index && a.important_at(j) ==> #[trigger] b.important_at(j)
    &&& forall|j: int|
        0 <= j < a.n() && j != index && b.important_at(j) != a.important_at(j) ==> (
        #[trigger] b.kind_at(j)) is Filled && b.owner_at(j) == player
    &&& (b.important_at(index) <==> exists|k: int| #[trigger]
        neighbor_is_dead_filled(a, index, k, player))
    &&& forall|k: int|
        neighbor_is_dead_filled(a, index, k, player) ==> b.alive_at(
            ((#[trigger] a.adj(index)[k]) as int),
        )
    &&& (b.important_at(index) ==> exists|k: int|
        #[trigger] neighbor_is_dead_filled(a, index, k, player) && b.important_at(
            a.adj(index)[k] as int,
        ) && b.alive_at(a.adj(index)[k] as int))
    &&& b.crosses_counter_at(player) == a.crosses_counter_at(player) + 1
    &&& forall|q: int|
        0 <= q < a.players() && q != player ==> #[trigger] b.crosses_counter_at(q)
            == a.crosses_counter_at(q)
    &&& forall|q: int|
        0 <= q < a.players() && q != player ==> #[trigger] b.moves_counter_at(q)
            == a.moves_counter_at(q)
    &&& forall|q: int|
        0 <= q < a.players() ==> #[trigger] b.moves_counter_at(q) == active_cells_upto(
            b,
            q,
            a.n(),
        )
}

/// What a successful fill of an opposing cross changes: the cell becomes
/// alive filled territory of the mover with no activation on it; no other
/// cell changes kind or owner; the previous owner's activation can only
/// fall, and falls on every adjacent empty cell and opposing cross; the
/// mover's activation can only grow, and grows on the same neighbours;
/// aliveness and anchors move only on the two players' cells; the previous
/// owner loses one cross.
pub open spec fn fill_move_effects(
    a: GameBoardImpl,
    b: GameBoardImpl,
    index: int,
    player: int,
    prev: int,
) -> bool {
    &&& b.kind_at(index) is Filled
    &&& b.owner_at(index) == player
    &&& b.alive_at(index)
    &&& forall|q: int| 0 <= q < a.players() ==> #[trigger] b.cnt(index, q) == 0
    &&& forall|j: int|
        0 <= j < a.n() && j != index ==> #[trigger] b.kind_at(j) == a.kind_at(j)
    &&& forall|j: int|
        0 <= j < a.n() && j != index ==> #[trigger] b.owner_at(j) == a.owner_at(j)
    &&& forall|j: int|
        0 <= j < a.n() && j != index && b.alive_at(j) != a.alive_at(j) ==> (#[trigger] b.kind_at(
            j,
        )) is Filled && (b.owner_at(j) == player || b.owner_at(j) == prev)
    &&& forall|j: int, q: int|
        0 <= j < a.n() && 0 <= q < a.players() && j != index && q != player && q != prev
            ==> #[trigger] b.cnt(j, q) == a.cnt(j, q)
    &&& forall|j: int|
        0 <= j < a.n() && j != index ==> #[trigger] b.cnt(j, player) >= a.cnt(j, player)
    &&& forall|j: int|
        0 <= j < a.n() && j != index ==> #[trigger] b.cnt(j, prev) <= a.cnt(j, prev)
    &&& forall|k: int|
        0 <= k < a.adj(index).len() && (a.kind_at(a.adj(index)[k] as int) is Empty || (a.kind_at(
            a.adj(index)[k] as int,
        ) is Cross && a.owner_at(a.adj(index)[k] as int) != player)) && a.cnt(
            a.adj(index)[k] as int,
            player,
        ) < usize::MAX ==> #[trigger] b.cnt(a.adj(index)[k] as int, player) > a.cnt(
            a.adj(index)[k] as int,
            player,
        )
    &&& forall|j: int|
        0 <= j < a.n() && j != index && b.important_at(j) != a.important_at(j) ==> ((
        #[trigger] b.kind_at(j)) is Cross || b.kind_at(j) is Filled) && (b.owner_at(j) == player
            || b.owner_at(j) == prev)
    &&& forall|k: int|
        0 <= k < a.adj(index).len() && (a.kind_at(a.adj(index)[k] as int) is Empty || (a.kind_at(
            a.adj(index)[k] as int,
        ) is Cross && a.owner_at(a.adj(index)[k] as int) != prev)) && a.cnt(
            a.adj(index)[k] as int,
            prev,
        ) > 0 ==> #[trigger] b.cnt(a.adj(index)[k] as int, prev) < a.cnt(a.adj(index)[k] as int, prev)
    &&& (b.important_at(index) <==> ((exists|k: int| #[trigger]
        neighbor_is_dead_filled(a, index, k, player)) || !(exists|k: int| #[trigger]
        neighbor_is_alive_filled(a, index, k, player))))
    &&& forall|k: int|
        neighbor_is_dead_filled(a, index, k, player) ==> b.alive_at(
            ((#[trigger] a.adj(index)[k]) as int),
        )
    &&& ((exists|k: int| #[trigger] neighbor_is_dead_filled(a, index, k, player)) ==> exists|
        k: int,
    |
        #[trigger] neighbor_is_dead_filled(a, index, k, player) && b.important_at(
            a.adj(index)[k] as int,
        ) && b.alive_at(a.adj(index)[k] as int))
    &&& ((forall|k: int| !(#[trigger] neighbor_is_alive_filled(a, index, k, player))) && (exists|
        k: int,
    | #[trigger] neighbor_matches(a, index, k, player, CellKind::Cross)) ==> exists|k: int|
        #[trigger] neighbor_matches(a, index, k, player, CellKind::Cross) && b.important_at(
            a.adj(index)[k] as int,
        ))
    &&& (!a.important_at(index) ==> forall|j: int|
        0 <= j < a.n() && j != index && a.kind_at(j) is Cross && (#[trigger] b.important_at(j))
            != a.important_at(j) ==> b.important_at(j) && a.owner_at(j) == player && a.adj(
            index,
        ).contains(j as usize))
    &&& (!a.important_at(index) ==> forall|j1: int, j2: int|
        0 <= j1 < a.n() && 0 <= j2 < a.n() && j1 != index && j2 != index && a.kind_at(j1) is Cross
            && a.kind_at(j2) is Cross && (#[trigger] b.important_at(j1)) != a.important_at(j1) && (
        #[trigger] b.important_at(j2)) != a.important_at(j2) ==> j1 == j2)
    &&& b.crosses_counter_at(prev) == a.crosses_counter_at(prev) - 1
    &&& forall|q: int|
        0 <= q < a.players() && q != prev ==> #[trigger] b.crosses_counter_at(q)
            == a.crosses_counter_at(q)
    &&& forall|q: int|
        0 <= q < a.players() && q != player && q != prev ==> #[trigger] b.moves_counter_at(q)
            == a.moves_counter_at(q) - (if a.cnt(index, q) > 0 {
            1int
        } else {
            0int
        })
    &&& forall|q: int|
        0 <= q < a.players() ==> #[trigger] b.moves_counter_at(q) == active_cells_upto(
            b,
            q,
            a.n(),
        )
}

/// Two boards with the same kinds and owners, whose aliveness differs only
/// on cells not owned by `p`, agree on which cells are claims of `p`, and
/// so on every claim count of `p`.
proof fn lemma_claims_in_adj_same(a: GameBoardImpl, b: GameBoardImpl, index: int, p: int, k: int)
    requires
        b.n() == a.n(),
        b.adj(index) == a.adj(index),
        forall|j: int| 0 <= j < a.n() ==> #[trigger] b.kind_at(j) == a.kind_at(j),
        forall|j: int| 0 <= j < a.n() ==> #[trigger] b.owner_at(j) == a.owner_at(j),
        forall|j: int|
            0 <= j < a.n() && #[trigger] b.alive_at(j) != a.alive_at(j) ==> a.owner_at(j) != p,
    ensures
        claims_in_adj_upto(b, index, p, k) == claims_in_adj_upto(a, index, p, k),
    decreases k,
{
    if k > 0 {
        lemma_claims_in_adj_same(a, b, index, p, k - 1);
        assert(is_claim(b, b.adj(index)[k - 1] as int, p) == is_claim(
            a,
            a.adj(index)[k - 1] as int,
            p,
        ));
    }
}

/// What a successful cancellation of a cross changes: the cell becomes
/// empty again, unimportant, its owner's activation on it re-derived from
/// the claims that remain next to it — re-derived deliberately, rather than
/// set unconditionally: a blanket mark would claim reachability with no
/// claim behind it and break activation symmetry; no other cell changes
/// kind or owner; the owner's activation can only fall, and falls on every
/// adjacent empty cell and opposing cross that had any; the owner loses one
/// cross.
pub open spec fn uncross_effects(a: GameBoardImpl, b: GameBoardImpl, index: int, prev: int) -> bool {
    &&& b.kind_at(index) is Empty
    &&& b.owner_at(index) == a.owner_at(index)
    &&& !b.important_at(index)
    &&& b.alive_at(index) == a.alive_at(index)
    &&& b.cnt(index, prev) == claims_in_adj_upto(b, index, prev, b.adj(index).len() as int)
    &&& forall|q: int|
        0 <= q < a.players() && q != prev ==> #[trigger] b.cnt(index, q) == a.cnt(index, q)
    &&& forall|j: int| 0 <= j < a.n() && j != index ==> #[trigger] b.kind_at(j) == a.kind_at(j)
    &&& forall|j: int| 0 <= j < a.n() && j != index ==> #[trigger] b.owner_at(j) == a.owner_at(j)
    &&& forall|j: int| 0 <= j < a.n() && !a.alive_at(j) ==> !(#[trigger] b.alive_at(j))
    &&& forall|j: int|
        0 <= j < a.n() && b.alive_at(j) != a.alive_at(j) ==> (#[trigger] b.kind_at(j)) is Filled
            && b.owner_at(j) == prev
    &&& forall|j: int, q: int|
        0 <= j < a.n() && 0 <= q < a.players() && j != index && q != prev ==> #[trigger] b.cnt(j, q)
            == a.cnt(j, q)
    &&& forall|j: int| 0 <= j < a.n() && j != index ==> #[trigger] b.cnt(j, prev) <= a.cnt(j, prev)
    &&& forall|k: int|
        0 <= k < a.adj(index).len() && (a.kind_at(a.adj(index)[k] as int) is Empty || (a.kind_at(
            a.adj(index)[k] as int,
        ) is Cross && a.owner_at(a.adj(index)[k] as int) != prev)) && a.cnt(
            a.adj(index)[k] as int,
            prev,
        ) > 0 ==> #[trigger] b.cnt(a.adj(index)[k] as int, prev) < a.cnt(a.adj(index)[k] as int, prev)
    &&& forall|j: int|
        0 <= j < a.n() && j != index && b.important_at(j) != a.important_at(j) ==> ((
        #[trigger] b.kind_at(j)) is Cross || b.kind_at(j) is Filled) && b.owner_at(j) == prev
    &&& b.crosses_counter_at(prev) == a.crosses_counter_at(prev) - 1
    &&& forall|q: int|
        0 <= q < a.players() && q != prev ==> #[trigger] b.crosses_counter_at(q)
            == a.crosses_counter_at(q)
    &&& forall|q: int|
        0 <= q < a.players() && q != prev ==> #[trigger] b.moves_counter_at(q)
            == a.moves_counter_at(q)
    &&& forall|q: int|
        0 <= q < a.players() ==> #[trigger] b.moves_counter_at(q) == active_cells_upto(
            b,
            q,
            a.n(),
        )
}

/// What a successful cancellation of a filled cell changes: the cell
/// becomes a dead cross of the supplied original placer, pinned inactive
/// for them, with every other player's activation on it re-derived from the
/// claims that remain next to it; the previous owner's activation can only
/// fall elsewhere, the new owner's can only grow, and the new owner gains
/// one cross.
pub open spec fn unfill_effects(
    a: GameBoardImpl,
    b: GameBoardImpl,
    index: int,
    player: int,
    prev: int,
) -> bool {
    &&& b.kind_at(index) is Cross
    &&& b.owner_at(index) == player
    &&& !b.alive_at(index)
    &&& b.cnt(index, player) == 0
    &&& forall|q: int|
        0 <= q < a.players() && q != player ==> #[trigger] b.cnt(index, q) == claims_in_adj_upto(
            b,
            index,
            q,
            b.adj(index).len() as int,
        )
    &&& forall|j: int| 0 <= j < a.n() && j != index ==> #[trigger] b.kind_at(j) == a.kind_at(j)
    &&& forall|j: int| 0 <= j < a.n() && j != index ==> #[trigger] b.owner_at(j) == a.owner_at(j)
    &&& forall|j: int|
        0 <= j < a.n() && j != index && b.alive_at(j) != a.alive_at(j) ==> (#[trigger] b.kind_at(
            j,
        )) is Filled && (b.owner_at(j) == player || b.owner_at(j) == prev)
    &&& forall|j: int, q: int|
        0 <= j < a.n() && 0 <= q < a.players() && j != index && q != player && q != prev
            ==> #[trigger] b.cnt(j, q) == a.cnt(j, q)
    &&& forall|j: int|
        0 <= j < a.n() && j != index ==> #[trigger] b.cnt(j, player) >= a.cnt(j, player)
    &&& forall|j: int| 0 <= j < a.n() && j != index ==> #[trigger] b.cnt(j, prev) <= a.cnt(j, prev)
    &&& forall|j: int|
        0 <= j < a.n() && j != index && b.important_at(j) != a.important_at(j) ==> ((
        #[trigger] b.kind_at(j)) is Cross || b.kind_at(j) is Filled) && (b.owner_at(j) == player
            || b.owner_at(j) == prev)
    &&& (b.important_at(index) <==> exists|k: int| #[trigger]
        neighbor_is_dead_filled(a, index, k, player))
    &&& forall|k: int|
        neighbor_is_dead_filled(a, index, k, player) ==> b.alive_at(
            ((#[trigger] a.adj(index)[k]) as int),
        )
    &&& (b.important_at(index) ==> exists|k: int|
        #[trigger] neighbor_is_dead_filled(a, index, k, player) && b.important_at(
            a.adj(index)[k] as int,
        ) && b.alive_at(a.adj(index)[k] as int))
    &&& forall|k: int|
        0 <= k < a.adj(index).len() && (a.kind_at(((#[trigger] a.adj(index)[k]) as int)) is Empty
            || (a.kind_at(a.adj(index)[k] as int) is Cross && a.owner_at(a.adj(index)[k] as int)
            != player)) && a.cnt(a.adj(index)[k] as int, player) < usize::MAX ==> b.cnt(
            a.adj(index)[k] as int,
            player,
        ) > a.cnt(a.adj(index)[k] as int, player)
    &&& (a.alive_at(index) ==> forall|k: int|
        0 <= k < a.adj(index).len() && (a.kind_at(((#[trigger] a.adj(index)[k]) as int)) is Empty
            || (a.kind_at(a.adj(index)[k] as int) is Cross && a.owner_at(a.adj(index)[k] as int)
            != prev)) && a.cnt(a.adj(index)[k] as int, prev) > 0 ==> b.cnt(
            a.adj(index)[k] as int,
            prev,
        ) < a.cnt(a.adj(index)[k] as int, prev))
    &&& b.crosses_counter_at(player) == a.crosses_counter_at(player) + 1
    &&& forall|q: int|
        0 <= q < a.players() && q != player ==> #[trigger] b.crosses_counter_at(q)
            == a.crosses_counter_at(q)
    &&& forall|q: int|
        0 <= q < a.players() ==> #[trigger] b.moves_counter_at(q) == active_cells_upto(
            b,
            q,
            a.n(),
        )
}

/// Cancels the move that produced the cell at `index`: a cross is removed
/// again, a filled cell becomes a cross of `player`, the move's original
/// placer, which the caller must supply (the engine keeps no history). The
/// exact inverse mirrors of the two move cases run: the deactivation
/// cascade for what was removed, and, for a filled cell, the activation
/// pass for the restored cross. Fails with the exact error discipline of
/// [`cancel_outcome`]; a failed cancellation leaves the board untouched.
#[verifier::rlimit(20)]
pub fn cancel_move(board: &mut GameBoardImpl, index: usize, player: usize) -> (r: Result<
    (),
    BoardError,
>)
    requires
        old(board).wf(),
        (player as int) < old(board).players(),
        (index as int) < old(board).n() && old(board).kind_at(index as int) is Filled ==> old(board).owner_at(index as int) != player,
    ensures
        final(board).wf(),
        same_structure(*old(board), *final(board)),
        cancel_outcome(*old(board), index as int, r),
        r is Err ==> *final(board) == *old(board),
        r is Ok && old(board).kind_at(index as int) is Cross ==> uncross_effects(
            *old(board),
            *final(board),
            index as int,
            old(board).owner_at(index as int),
        ),
        r is Ok && old(board).kind_at(index as int) is Filled ==> unfill_effects(
            *old(board),
            *final(board),
            index as int,
            player as int,
            old(board).owner_at(index as int),
        ),
{
    if index >= board.len() {
        return Err(BoardError::BorderHit);
    }
    let kd = board.kind(index);
    match kd {
        CellKind::Empty => Err(BoardError::EmptyCancel),
        CellKind::Cross => {
            let was_important = board.is_important(index);
            let previous_player = board.player(index);
            board.remove_cross(index);
            deactivate_around(board, index, previous_player, was_important);
            let ghost pre_rederive = *board;
            board.rederive_count(index, previous_player);
            proof {
                old(board).lemma_wf_facts();
                board.lemma_counters_exact();
                lemma_claims_in_adj_same(
                    pre_rederive,
                    *board,
                    index as int,
                    previous_player as int,
                    board.adj(index as int).len() as int,
                );
            }
            Ok(())
        },
        CellKind::Filled => {
            let was_important = board.is_important(index);
            let was_alive = board.is_alive(index);
            let previous_player = board.player(index);
            board.remove_fill(index, player);
            let ghost after_removal = *board;
            if was_important {
                deactivate_filled_around(board, index, previous_player);
            }
            let ghost after_filled = *board;
            if was_alive {
                deactivate_remaining_around(board, index, previous_player);
            }
            let players_total = board.player_count();
            let ghost pre_rederive = *board;
            let mut q: usize = 0;
            while q < players_total
                invariant
                    board.wf(),
                    old(board).wf(),
                    pre_rederive.wf(),
                    (index as int) < board.n(),
                    (player as int) < board.players(),
                    players_total as int == board.players(),
                    0 <= q <= players_total,
                    same_structure(pre_rederive, *board),
                    cells_unchanged(pre_rederive, *board),
                    same_structure(*old(board), pre_rederive),
                    forall|q2: int|
                        0 <= q2 < q && q2 != player ==> #[trigger] board.cnt(index as int, q2)
                            == claims_in_adj_upto(
                            pre_rederive,
                            index as int,
                            q2,
                            pre_rederive.adj(index as int).len() as int,
                        ),
                    forall|q2: int|
                        q <= q2 < board.players() ==> #[trigger] board.cnt(index as int, q2)
                            == pre_rederive.cnt(index as int, q2),
                    board.cnt(index as int, player as int) == pre_rederive.cnt(
                        index as int,
                        player as int,
                    ),
                    forall|j: int, q2: int|
                        0 <= j < board.n() && 0 <= q2 < board.players() && j != index
                            ==> #[trigger] board.cnt(j, q2) == pre_rederive.cnt(j, q2),
                    forall|q2: int|
                        0 <= q2 < board.players() ==> #[trigger] board.crosses_counter_at(q2)
                            == pre_rederive.crosses_counter_at(q2),
                decreases players_total - q,
            {
                if q != player {
                    let ghost pre = *board;
                    board.rederive_count(index, q);
                    proof {
                        lemma_claims_in_adj_same(
                            pre_rederive,
                            pre,
                            index as int,
                            q as int,
                            pre_rederive.adj(index as int).len() as int,
                        );
                    }
                }
                q = q + 1;
            }
            let ghost after_rederive = *board;
            let is_special = activate_around(board, index, player);
            board.set_important(index, is_special);
            proof {
                old(board).lemma_wf_facts();
                board.lemma_counters_exact();
                let a = *old(board);
                let b = *board;
                assert forall|q2: int|
                    0 <= q2 < a.players() && q2 != player as int implies #[trigger] b.cnt(
                    index as int,
                    q2,
                ) == claims_in_adj_upto(b, index as int, q2, b.adj(index as int).len() as int) by {
                    assert forall|j: int|
                        0 <= j < after_rederive.n() && #[trigger] b.alive_at(j)
                            != after_rederive.alive_at(j) implies after_rederive.owner_at(j)
                        != q2 by {
                        assert(b.kind_at(j) is Filled && b.owner_at(j) == player as int);
                    }
                    lemma_claims_in_adj_same(
                        after_rederive,
                        b,
                        index as int,
                        q2,
                        b.adj(index as int).len() as int,
                    );
                    lemma_claims_in_adj_same(
                        pre_rederive,
                        after_rederive,
                        index as int,
                        q2,
                        b.adj(index as int).len() as int,
                    );
                }
                assert(forall|k: int| #[trigger]
                    neighbor_is_dead_filled(after_rederive, index as int, k, player as int)
                        == neighbor_is_dead_filled(pre_rederive, index as int, k, player as int));
                assert(forall|k: int| #[trigger]
                    neighbor_is_dead_filled(pre_rederive, index as int, k, player as int)
                        == neighbor_is_dead_filled(after_removal, index as int, k, player as int));
                assert(forall|k: int| #[trigger]
                    neighbor_is_dead_filled(after_removal, index as int, k, player as int)
                        == neighbor_is_dead_filled(*old(board), index as int, k, player as int));
                assert((exists|k: int| #[trigger]
                    neighbor_is_dead_filled(after_rederive, index as int, k, player as int)) == (
                exists|k: int| #[trigger]
                    neighbor_is_dead_filled(*old(board), index as int, k, player as int))) by {
                    if exists|k: int| #[trigger]
                        neighbor_is_dead_filled(after_rederive, index as int, k, player as int) {
                        let k0 = choose|k: int| #[trigger]
                            neighbor_is_dead_filled(after_rederive, index as int, k, player as int);
                        assert(neighbor_is_dead_filled(
                            pre_rederive,
                            index as int,
                            k0,
                            player as int,
                        ));
                        assert(neighbor_is_dead_filled(
                            after_removal,
                            index as int,
                            k0,
                            player as int,
                        ));
                        assert(neighbor_is_dead_filled(
                            *old(board),
                            index as int,
                            k0,
                            player as int,
                        ));
                    }
                    if exists|k: int| #[trigger]
                        neighbor_is_dead_filled(*old(board), index as int, k, player as int) {
                        let k0 = choose|k: int| #[trigger]
                            neighbor_is_dead_filled(*old(board), index as int, k, player as int);
                        assert(neighbor_is_dead_filled(
                            after_removal,
                            index as int,
                            k0,
                            player as int,
                        ));
                        assert(neighbor_is_dead_filled(
                            pre_rederive,
                            index as int,
                            k0,
                            player as int,
                        ));
                        assert(neighbor_is_dead_filled(
                            after_rederive,
                            index as int,
                            k0,
                            player as int,
                        ));
                    }
                }
                // dead chains of the restored cross's owner end revived,
                // with a marked entry point when any existed
                assert forall|k: int|
                    neighbor_is_dead_filled(*old(board), index as int, k, player as int) implies board
                    .alive_at(((#[trigger] old(board).adj(index as int)[k]) as int)) by {
                    assert(neighbor_is_dead_filled(after_rederive, index as int, k, player as int));
                    assert(after_rederive.adj(index as int) == old(board).adj(index as int));
                    assert(board.alive_at(after_rederive.adj(index as int)[k] as int));
                }
                if is_special {
                    assert(exists|k: int|
                        #[trigger] neighbor_is_dead_filled(
                            *old(board),
                            index as int,
                            k,
                            player as int,
                        ) && board.important_at(old(board).adj(index as int)[k] as int)
                            && board.alive_at(old(board).adj(index as int)[k] as int)) by {
                        let k0 = choose|k: int|
                            #[trigger] neighbor_is_dead_filled(
                                after_rederive,
                                index as int,
                                k,
                                player as int,
                            ) && board.important_at(after_rederive.adj(index as int)[k] as int)
                                && board.alive_at(after_rederive.adj(index as int)[k] as int);
                        assert(neighbor_is_dead_filled(
                            pre_rederive,
                            index as int,
                            k0,
                            player as int,
                        ));
                        assert(neighbor_is_dead_filled(
                            after_removal,
                            index as int,
                            k0,
                            player as int,
                        ));
                        assert(neighbor_is_dead_filled(*old(board), index as int, k0, player as int));
                        assert(after_rederive.adj(index as int) == old(board).adj(index as int));
                        assert(board.important_at(old(board).adj(index as int)[k0] as int));
                        assert(board.alive_at(old(board).adj(index as int)[k0] as int));
                    }
                }
                // the restored cross activates its surroundings strictly,
                // and the removed claim's edges are strictly gone
                assert forall|k: int|
                    0 <= k < old(board).adj(index as int).len() && (old(board).kind_at(
                        ((#[trigger] old(board).adj(index as int)[k]) as int),
                    ) is Empty || (old(board).kind_at(old(board).adj(index as int)[k] as int)
                        is Cross && old(board).owner_at(old(board).adj(index as int)[k] as int)
                        != player)) && old(board).cnt(
                        old(board).adj(index as int)[k] as int,
                        player as int,
                    ) < usize::MAX implies board.cnt(
                    old(board).adj(index as int)[k] as int,
                    player as int,
                ) > old(board).cnt(old(board).adj(index as int)[k] as int, player as int) by {
                    old(board).lemma_wf_facts();
                    let jj = old(board).adj(index as int)[k] as int;
                    assert(after_removal.cnt(jj, player as int) == old(board).cnt(
                        jj,
                        player as int,
                    ));
                    assert(after_filled.cnt(jj, player as int) == after_removal.cnt(
                        jj,
                        player as int,
                    ));
                    assert(pre_rederive.cnt(jj, player as int) == after_filled.cnt(
                        jj,
                        player as int,
                    ));
                    assert(after_rederive.cnt(jj, player as int) == pre_rederive.cnt(
                        jj,
                        player as int,
                    ));
                    assert(after_rederive.kind_at(jj) == old(board).kind_at(jj));
                    assert(after_rederive.owner_at(jj) == old(board).owner_at(jj));
                    assert(board.cnt(jj, player as int) > after_rederive.cnt(jj, player as int));
                }
                if old(board).alive_at(index as int) {
                    assert forall|k: int|
                        0 <= k < old(board).adj(index as int).len() && (old(board).kind_at(
                            ((#[trigger] old(board).adj(index as int)[k]) as int),
                        ) is Empty || (old(board).kind_at(old(board).adj(index as int)[k] as int)
                            is Cross && old(board).owner_at(
                            old(board).adj(index as int)[k] as int,
                        ) != previous_player)) && old(board).cnt(
                            old(board).adj(index as int)[k] as int,
                            previous_player as int,
                        ) > 0 implies board.cnt(
                        old(board).adj(index as int)[k] as int,
                        previous_player as int,
                    ) < old(board).cnt(
                        old(board).adj(index as int)[k] as int,
                        previous_player as int,
                    ) by {
                        old(board).lemma_wf_facts();
                        let jj = old(board).adj(index as int)[k] as int;
                        assert(after_removal.cnt(jj, previous_player as int) == old(board).cnt(
                            jj,
                            previous_player as int,
                        ));
                        assert(after_filled.cnt(jj, previous_player as int) <= after_removal.cnt(
                            jj,
                            previous_player as int,
                        ));
                        assert(after_filled.kind_at(jj) == old(board).kind_at(jj));
                        assert(after_filled.owner_at(jj) == old(board).owner_at(jj));
                        if after_filled.cnt(jj, previous_player as int) > 0 {
                            assert(pre_rederive.cnt(jj, previous_player as int) < after_filled.cnt(
                                jj,
                                previous_player as int,
                            ));
                        } else {
                            assert(pre_rederive.cnt(jj, previous_player as int) <= after_filled.cnt(
                                jj,
                                previous_player as int,
                            ));
                        }
                        assert(after_rederive.cnt(jj, previous_player as int) == pre_rederive.cnt(
                            jj,
                            previous_player as int,
                        ));
                        assert(board.cnt(jj, previous_player as int) == after_rederive.cnt(
                            jj,
                            previous_player as int,
                        ));
                    }
                }
            }
            Ok(())
        },
        CellKind::Border => Err(BoardError::BorderHit),
    }
}

/// Applies a move of `player` at `index`: claims a reachable empty cell, or
/// fills a reachable opposing cross. Fails with the exact error discipline
/// of [`move_outcome`]; a failed move leaves the board untouched.
#[verifier::rlimit(20)]
pub fn make_move(board: &mut GameBoardImpl, index: usize, player: usize) -> (r: Result<
    (),
    BoardError,
>)
    requires
        old(board).wf(),
        (player as int) < old(board).players(),
    ensures
        final(board).wf(),
        same_structure(*old(board), *final(board)),
        move_outcome(*old(board), index as int, player as int, r),
        r is Err ==> *final(board) == *old(board),
        r is Ok && old(board).kind_at(index as int) is Empty ==> cross_move_effects(
            *old(board),
            *final(board),
            index as int,
            player as int,
        ),
        r is Ok && old(board).kind_at(index as int) is Cross ==> fill_move_effects(
            *old(board),
            *final(board),
            index as int,
            player as int,
            old(board).owner_at(index as int),
        ),
{
    if index >= board.len() {
        return Err(BoardError::BorderHit);
    }
    let kd = board.kind(index);
    match kd {
        CellKind::Empty => {
            if !board.is_active(index, player) {
                return Err(BoardError::OutOfReach);
            }
            board.cross_out(index, player);
            let ghost mid = *board;
            let is_special = activate_around(board, index, player);
            board.set_important(index, is_special);
            proof {
                old(board).lemma_wf_facts();
                board.lemma_counters_exact();
                assert(forall|k: int| #[trigger]
                    neighbor_is_dead_filled(mid, index as int, k, player as int)
                        == neighbor_is_dead_filled(*old(board), index as int, k, player as int));
                assert forall|k: int|
                    neighbor_is_dead_filled(*old(board), index as int, k, player as int) implies board
                    .alive_at(((#[trigger] old(board).adj(index as int)[k]) as int)) by {
                    assert(neighbor_is_dead_filled(mid, index as int, k, player as int));
                    assert(mid.adj(index as int) == old(board).adj(index as int));
                    assert(board.alive_at(mid.adj(index as int)[k] as int));
                }
                if is_special {
                    assert(exists|k: int|
                        #[trigger] neighbor_is_dead_filled(
                            *old(board),
                            index as int,
                            k,
                            player as int,
                        ) && board.important_at(old(board).adj(index as int)[k] as int)
                            && board.alive_at(old(board).adj(index as int)[k] as int)) by {
                        let k0 = choose|k: int|
                            #[trigger] neighbor_is_dead_filled(mid, index as int, k, player as int)
                                && board.important_at(mid.adj(index as int)[k] as int)
                                && board.alive_at(mid.adj(index as int)[k] as int);
                        assert(neighbor_is_dead_filled(*old(board), index as int, k0, player as int));
                        assert(mid.adj(index as int) == old(board).adj(index as int));
                        assert(board.important_at(old(board).adj(index as int)[k0] as int));
                        assert(board.alive_at(old(board).adj(index as int)[k0] as int));
                    }
                }
                assert((exists|k: int| #[trigger]
                    neighbor_is_dead_filled(mid, index as int, k, player as int)) == (exists|k: int|
                    #[trigger] neighbor_is_dead_filled(
                        *old(board),
                        index as int,
                        k,
                        player as int,
                    ))) by {
                    if exists|k: int| #[trigger]
                        neighbor_is_dead_filled(mid, index as int, k, player as int) {
                        let k0 = choose|k: int| #[trigger]
                            neighbor_is_dead_filled(mid, index as int, k, player as int);
                        assert(neighbor_is_dead_filled(
                            *old(board),
                            index as int,
                            k0,
                            player as int,
                        ));
                    }
                    if exists|k: int| #[trigger]
                        neighbor_is_dead_filled(*old(board), index as int, k, player as int) {
                        let k0 = choose|k: int| #[trigger]
                            neighbor_is_dead_filled(*old(board), index as int, k, player as int);
                        assert(neighbor_is_dead_filled(mid, index as int, k0, player as int));
                    }
                }
            }
            Ok(())
        },
        CellKind::Cross => {
            if board.player(index) == player {
                return Err(BoardError::SelfFill);
            }
            if !board.is_active(index, player) {
                return Err(BoardError::OutOfReach);
            }
            let was_important = board.is_important(index);
            let previous_player = board.player(index);
            board.fill(index, player);
            deactivate_around(board, index, previous_player, was_important);
            let ghost mid1 = *board;
            let mut important = false;
            if !are_alive_filled_around(board, index, player) {
                important = true;
                mark_adjacent_as_important(board, index, player, CellKind::Cross);
            }
            let ghost mid2 = *board;
            let is_special = activate_around(board, index, player);
            let ghost mid3 = *board;
            board.set_important(index, is_special || important);
            proof {
                old(board).lemma_wf_facts();
                board.lemma_counters_exact();
                assert forall|k: int| #[trigger]
                    neighbor_is_alive_filled(mid1, index as int, k, player as int)
                        == neighbor_is_alive_filled(
                        *old(board),
                        index as int,
                        k,
                        player as int,
                    ) by {
                    if 0 <= k < old(board).adj(index as int).len() {
                        let jj = old(board).adj(index as int)[k] as int;
                        assert(jj != index as int && 0 <= jj < old(board).n());
                        assert(mid1.kind_at(jj) == old(board).kind_at(jj));
                        assert(mid1.owner_at(jj) == old(board).owner_at(jj));
                        if old(board).owner_at(jj) == player as int {
                            assert(mid1.alive_at(jj) == old(board).alive_at(jj));
                        }
                    }
                }
                assert forall|k: int| #[trigger]
                    neighbor_is_dead_filled(mid2, index as int, k, player as int)
                        == neighbor_is_dead_filled(*old(board), index as int, k, player as int) by {
                    if 0 <= k < old(board).adj(index as int).len() {
                        let jj = old(board).adj(index as int)[k] as int;
                        assert(jj != index as int && 0 <= jj < old(board).n());
                        assert(mid2.kind_at(jj) == old(board).kind_at(jj));
                        assert(mid2.owner_at(jj) == old(board).owner_at(jj));
                        if old(board).owner_at(jj) == player as int {
                            assert(mid2.alive_at(jj) == old(board).alive_at(jj));
                        }
                    }
                }
                assert((exists|k: int| #[trigger]
                    neighbor_is_alive_filled(mid1, index as int, k, player as int)) == (exists|
                    k: int,
                | #[trigger]
                    neighbor_is_alive_filled(*old(board), index as int, k, player as int))) by {
                    if exists|k: int| #[trigger]
                        neighbor_is_alive_filled(mid1, index as int, k, player as int) {
                        let k0 = choose|k: int| #[trigger]
                            neighbor_is_alive_filled(mid1, index as int, k, player as int);
                        assert(neighbor_is_alive_filled(
                            *old(board),
                            index as int,
                            k0,
                            player as int,
                        ));
                    }
                    if exists|k: int| #[trigger]
                        neighbor_is_alive_filled(*old(board), index as int, k, player as int) {
                        let k0 = choose|k: int| #[trigger]
                            neighbor_is_alive_filled(*old(board), index as int, k, player as int);
                        assert(neighbor_is_alive_filled(mid1, index as int, k0, player as int));
                    }
                }
                assert((exists|k: int| #[trigger]
                    neighbor_is_dead_filled(mid2, index as int, k, player as int)) == (exists|
                    k: int,
                | #[trigger]
                    neighbor_is_dead_filled(*old(board), index as int, k, player as int))) by {
                    if exists|k: int| #[trigger]
                        neighbor_is_dead_filled(mid2, index as int, k, player as int) {
                        let k0 = choose|k: int| #[trigger]
                            neighbor_is_dead_filled(mid2, index as int, k, player as int);
                        assert(neighbor_is_dead_filled(
                            *old(board),
                            index as int,
                            k0,
                            player as int,
                        ));
                    }
                    if exists|k: int| #[trigger]
                        neighbor_is_dead_filled(*old(board), index as int, k, player as int) {
                        let k0 = choose|k: int| #[trigger]
                            neighbor_is_dead_filled(*old(board), index as int, k, player as int);
                        assert(neighbor_is_dead_filled(mid2, index as int, k0, player as int));
                    }
                }

                // dead neighbours of the mover end revived, with a marked
                // entry point when any existed
                assert forall|k: int|
                    neighbor_is_dead_filled(*old(board), index as int, k, player as int) implies board
                    .alive_at(((#[trigger] old(board).adj(index as int)[k]) as int)) by {
                    assert(neighbor_is_dead_filled(mid2, index as int, k, player as int));
                    assert(mid2.adj(index as int) == old(board).adj(index as int));
                    assert(board.alive_at(mid2.adj(index as int)[k] as int));
                }
                if is_special {
                    assert(exists|k: int|
                        #[trigger] neighbor_is_dead_filled(
                            *old(board),
                            index as int,
                            k,
                            player as int,
                        ) && board.important_at(old(board).adj(index as int)[k] as int)
                            && board.alive_at(old(board).adj(index as int)[k] as int)) by {
                        let k0 = choose|k: int|
                            #[trigger] neighbor_is_dead_filled(mid2, index as int, k, player as int)
                                && board.important_at(mid2.adj(index as int)[k] as int)
                                && board.alive_at(mid2.adj(index as int)[k] as int);
                        assert(neighbor_is_dead_filled(*old(board), index as int, k0, player as int));
                        assert(mid2.adj(index as int) == old(board).adj(index as int));
                        assert(board.important_at(old(board).adj(index as int)[k0] as int));
                        assert(board.alive_at(old(board).adj(index as int)[k0] as int));
                    }
                }
                // the cross marks of the anchor pair: transfers between the
                // pre-move board and the state the marking saw
                assert(forall|k: int| #[trigger]
                    neighbor_matches(mid1, index as int, k, player as int, CellKind::Cross)
                        == neighbor_matches(
                        *old(board),
                        index as int,
                        k,
                        player as int,
                        CellKind::Cross,
                    ));
                if (forall|k: int|
                    !(#[trigger] neighbor_is_alive_filled(
                        *old(board),
                        index as int,
                        k,
                        player as int,
                    ))) && (exists|k: int| #[trigger]
                    neighbor_matches(
                        *old(board),
                        index as int,
                        k,
                        player as int,
                        CellKind::Cross,
                    )) {
                    assert(exists|k: int|
                        #[trigger] neighbor_matches(
                            *old(board),
                            index as int,
                            k,
                            player as int,
                            CellKind::Cross,
                        ) && board.important_at(old(board).adj(index as int)[k] as int)) by {
                        let ka = choose|k: int|
                            #[trigger] neighbor_matches(
                                *old(board),
                                index as int,
                                k,
                                player as int,
                                CellKind::Cross,
                            );
                        assert(neighbor_matches(
                            mid1,
                            index as int,
                            ka,
                            player as int,
                            CellKind::Cross,
                        ));
                        let k0 = choose|k: int|
                            #[trigger] neighbor_matches(
                                mid1,
                                index as int,
                                k,
                                player as int,
                                CellKind::Cross,
                            ) && mid2.important_at(mid1.adj(index as int)[k] as int);
                        assert(mid1.adj(index as int) == old(board).adj(index as int));
                        let jj = old(board).adj(index as int)[k0] as int;
                        assert(mid2.kind_at(jj) is Cross);
                        assert(board.important_at(jj));
                        assert(neighbor_matches(
                            *old(board),
                            index as int,
                            k0,
                            player as int,
                            CellKind::Cross,
                        ));
                    }
                }
                if !old(board).important_at(index as int) {
                    assert forall|j2: int|
                        0 <= j2 < old(board).n() && j2 != index as int && old(board).kind_at(j2)
                            is Cross && (#[trigger] board.important_at(j2)) != old(board).important_at(j2) implies board.important_at(j2) && old(board).owner_at(j2)
                        == player as int && old(board).adj(index as int).contains(j2 as usize) by {
                        assert(mid1.important_at(j2) == old(board).important_at(j2));
                        assert(mid2.kind_at(j2) == old(board).kind_at(j2));
                        assert(mid3.kind_at(j2) == mid2.kind_at(j2));
                        assert(mid3.important_at(j2) == mid2.important_at(j2));
                        assert(board.important_at(j2) == mid3.important_at(j2));
                    }
                    assert forall|j1: int, j2: int|
                        0 <= j1 < old(board).n() && 0 <= j2 < old(board).n() && j1 != index as int
                            && j2 != index as int && old(board).kind_at(j1) is Cross && old(board).kind_at(j2) is Cross && (#[trigger] board.important_at(j1)) != old(board).important_at(j1) && (#[trigger] board.important_at(j2)) != old(board).important_at(j2) implies j1 == j2 by {
                        assert(mid1.important_at(j1) == old(board).important_at(j1));
                        assert(mid1.important_at(j2) == old(board).important_at(j2));
                        assert(mid2.kind_at(j1) == old(board).kind_at(j1));
                        assert(mid2.kind_at(j2) == old(board).kind_at(j2));
                        assert(mid3.kind_at(j1) == mid2.kind_at(j1));
                        assert(mid3.kind_at(j2) == mid2.kind_at(j2));
                        assert(mid3.important_at(j1) == mid2.important_at(j1));
                        assert(mid3.important_at(j2) == mid2.important_at(j2));
                        assert(board.important_at(j1) == mid3.important_at(j1));
                        assert(board.important_at(j2) == mid3.important_at(j2));
                    }
                }
                        }
            Ok(())
        },
        CellKind::Filled => Err(BoardError::DoubleFill),
        CellKind::Border => Err(BoardError::BorderHit),
    }
}


impl GameBoardImpl {
    /// Applies a move of `player` at `index`; the method form of
    /// [`make_move`], with the same exact contract.
    pub fn make_move(&mut self, index: usize, player: usize) -> (r: Result<(), BoardError>)
        requires
            old(self).wf(),
            (player as int) < old(self).players(),
        ensures
            final(self).wf(),
            same_structure(*old(self), *final(self)),
            move_outcome(*old(self), index as int, player as int, r),
            r is Err ==> *final(self) == *old(self),
            r is Ok && old(self).kind_at(index as int) is Empty ==> cross_move_effects(
                *old(self),
                *final(self),
                index as int,
                player as int,
            ),
            r is Ok && old(self).kind_at(index as int) is Cross ==> fill_move_effects(
                *old(self),
                *final(self),
                index as int,
                player as int,
                old(self).owner_at(index as int),
            ),
    {
        make_move(self, index, player)
    }

    /// Cancels the move that produced the cell at `index`; the method form
    /// of [`cancel_move`], with the same exact contract.
    pub fn cancel_move(&mut self, index: usize, player: usize) -> (r: Result<(), BoardError>)
        requires
            old(self).wf(),
            (player as int) < old(self).players(),
            (index as int) < old(self).n() && old(self).kind_at(index as int) is Filled ==> old(
                self,
            ).owner_at(index as int) != player,
        ensures
            final(self).wf(),
            same_structure(*old(self), *final(self)),
            cancel_outcome(*old(self), index as int, r),
            r is Err ==> *final(self) == *old(self),
            r is Ok && old(self).kind_at(index as int) is Cross ==> uncross_effects(
                *old(self),
                *final(self),
                index as int,
                old(self).owner_at(index as int),
            ),
            r is Ok && old(self).kind_at(index as int) is Filled ==> unfill_effects(
                *old(self),
                *final(self),
                index as int,
                player as int,
                old(self).owner_at(index as int),
            ),
    {
        cancel_move(self, index, player)
    }
}

} // verus!
