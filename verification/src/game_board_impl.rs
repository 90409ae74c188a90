//! The concrete game board: cell storage over a fixed adjacency graph,
//! per-player activation counts with their movable-cell counters, and the
//! primitive transitions of the cell state machine.
//!
//! A cell index is a `usize`; indices at or beyond the board length, and
//! cells created as borders, behave as the immutable `Border` sentinel.
//! Activation is a count, not a boolean: for each cell and player it says
//! how many adjacent active claims make the cell reachable, so that losing
//! one claim never erases reachability justified by another. The per-player
//! movable-cell counter equals the number of cells whose count is positive;
//! the cross counter equals the number of crosses the player owns. Both are
//! updated exactly on the count's zero/non-zero edges.

use vstd::prelude::*;

use crate::base::CellKind;

verus! {

/// The board: one entry of each attribute vector per cell, activation
/// counts flattened cell-major, and one counter entry per player.
pub struct GameBoardImpl {
    kinds: Vec<CellKind>,
    owners: Vec<usize>,
    alive: Vec<bool>,
    important: Vec<bool>,
    counts: Vec<usize>,
    adjacency: Vec<Vec<usize>>,
    moves_count: Vec<usize>,
    crosses_count: Vec<usize>,
    num_players: usize,
}

impl GameBoardImpl {
    /// Number of cells.
    pub closed spec fn n(&self) -> int {
        self.kinds@.len() as int
    }

    /// Number of players.
    pub closed spec fn players(&self) -> int {
        self.num_players as int
    }

    /// The kind of the cell at `i`.
    pub closed spec fn kind_at(&self, i: int) -> CellKind {
        self.kinds@[i]
    }

    /// The owner of the cell at `i`; meaningful for crosses and filled cells.
    pub closed spec fn owner_at(&self, i: int) -> int {
        self.owners@[i] as int
    }

    /// Whether the filled cell at `i` is alive.
    pub closed spec fn alive_at(&self, i: int) -> bool {
        self.alive@[i]
    }

    /// Whether the cell at `i` is an anchor of its chain.
    pub closed spec fn important_at(&self, i: int) -> bool {
        self.important@[i]
    }

    /// The activation count of the cell at `i` for player `p`.
    pub closed spec fn cnt(&self, i: int, p: int) -> nat {
        self.counts@[i * self.players() + p] as nat
    }

    /// The adjacency list of the cell at `i`.
    pub closed spec fn adj(&self, i: int) -> Seq<usize> {
        self.adjacency@[i]@
    }

    /// The movable-cell counter of player `p`.
    pub closed spec fn moves_counter_at(&self, p: int) -> int {
        self.moves_count@[p] as int
    }

    /// The cross counter of player `p`.
    pub closed spec fn crosses_counter_at(&self, p: int) -> int {
        self.crosses_count@[p] as int
    }

    /// Structural well-formedness: the attribute vectors agree in length,
    /// adjacency stays on the board and is free of self-loops, owners are
    /// player indices, and each per-player counter holds exactly the number
    /// of cells it counts.
    pub closed spec fn wf(&self) -> bool {
        &&& self.num_players >= 1
        &&& self.owners@.len() == self.n()
        &&& self.alive@.len() == self.n()
        &&& self.important@.len() == self.n()
        &&& self.adjacency@.len() == self.n()
        &&& self.counts@.len() == self.n() * self.players()
        &&& self.n() * self.players() <= usize::MAX
        &&& self.moves_count@.len() == self.players()
        &&& self.crosses_count@.len() == self.players()
        &&& owners_ok(self.owners@, self.num_players)
        &&& adjacency_ok(self.adjacency@, self.n())
        &&& moves_counters_ok(self.moves_count@, self.counts@, self.players(), self.n())
        &&& crosses_counters_ok(
            self.crosses_count@,
            self.kinds@,
            self.owners@,
            self.players(),
            self.n(),
        )
    }
}

/// Every owner entry is a player index.
pub open spec fn owners_ok(owners: Seq<usize>, pl: usize) -> bool {
    forall|i: int| 0 <= i < owners.len() ==> (#[trigger] owners[i]) < pl
}

/// Every adjacency entry stays on the board and no cell neighbours itself.
pub open spec fn adjacency_ok(adjs: Seq<Vec<usize>>, n: int) -> bool {
    forall|i: int, k: int|
        0 <= i < adjs.len() && 0 <= k < adjs[i]@.len() ==> ((#[trigger] adjs[i]@[k]) as int) < n
            && adjs[i]@[k] as int != i
}

/// Each movable-cell counter equals the number of cells with a positive
/// activation count for its player.
pub open spec fn moves_counters_ok(moves: Seq<usize>, counts: Seq<usize>, pl: int, n: int) -> bool {
    forall|p: int| 0 <= p < pl ==> (#[trigger] moves[p]) as int == active_upto(counts, pl, p, n)
}

/// Each cross counter equals the number of crosses its player owns.
pub open spec fn crosses_counters_ok(
    crosses: Seq<usize>,
    kinds: Seq<CellKind>,
    owners: Seq<usize>,
    pl: int,
    n: int,
) -> bool {
    forall|p: int| 0 <= p < pl ==> (#[trigger] crosses[p]) as int == crosses_upto(kinds, owners, p, n)
}

/// Number of cells among the first `k` whose activation count for player
/// `p` is positive, over a cell-major flat count table with `pl` players.
pub open spec fn active_upto(counts: Seq<usize>, pl: int, p: int, k: int) -> int
    decreases k,
{
    if k <= 0 {
        0
    } else {
        active_upto(counts, pl, p, k - 1) + if counts[(k - 1) * pl + p] > 0 {
            1int
        } else {
            0int
        }
    }
}

/// Number of crosses owned by player `p` among the first `k` cells.
pub open spec fn crosses_upto(kinds: Seq<CellKind>, owners: Seq<usize>, p: int, k: int) -> int
    decreases k,
{
    if k <= 0 {
        0
    } else {
        crosses_upto(kinds, owners, p, k - 1) + if kinds[k - 1] is Cross && owners[k - 1] == p {
            1int
        } else {
            0int
        }
    }
}

/// A claim of player `p`: a cross of theirs, or an alive filled cell of
/// theirs. Claims are what activation counts count.
pub open spec fn is_claim(b: GameBoardImpl, j: int, p: int) -> bool {
    &&& 0 <= j < b.n()
    &&& (b.kind_at(j) is Cross || (b.kind_at(j) is Filled && b.alive_at(j)))
    &&& b.owner_at(j) == p
}

/// Number of claims of player `p` among the first `k` neighbours of cell `i`.
pub open spec fn claims_in_adj_upto(b: GameBoardImpl, i: int, p: int, k: int) -> int
    decreases k,
{
    if k <= 0 {
        0
    } else {
        claims_in_adj_upto(b, i, p, k - 1) + if is_claim(b, b.adj(i)[k - 1] as int, p) {
            1int
        } else {
            0int
        }
    }
}

/// Number of cells among the first `k` that are activated for player `p`.
pub open spec fn active_cells_upto(b: GameBoardImpl, p: int, k: int) -> int
    decreases k,
{
    if k <= 0 {
        0
    } else {
        active_cells_upto(b, p, k - 1) + if b.cnt(k - 1, p) > 0 {
            1int
        } else {
            0int
        }
    }
}

/// Number of cells among the first `k` that are crosses of player `p`.
pub open spec fn cross_cells_upto(b: GameBoardImpl, p: int, k: int) -> int
    decreases k,
{
    if k <= 0 {
        0
    } else {
        cross_cells_upto(b, p, k - 1) + if b.kind_at(k - 1) is Cross && b.owner_at(k - 1) == p {
            1int
        } else {
            0int
        }
    }
}

proof fn lemma_counts_agree(b: GameBoardImpl, p: int, k: int)
    requires
        b.wf(),
        0 <= p < b.players(),
        k <= b.n(),
    ensures
        active_cells_upto(b, p, k) == active_upto(b.counts@, b.players(), p, k),
        cross_cells_upto(b, p, k) == crosses_upto(b.kinds@, b.owners@, p, k),
    decreases k,
{
    if k > 0 {
        lemma_counts_agree(b, p, k - 1);
        lemma_flat_bound(k - 1, p, b.players(), b.n());
    }
}

impl GameBoardImpl {
    /// The per-player counters are exact: the movable-cell counter equals
    /// the number of cells activated for the player, and the cross counter
    /// equals the number of crosses they own. Both counters are kept on the
    /// counts' zero/non-zero edges, exactly once per edge.
    pub proof fn lemma_counters_exact(&self)
        requires
            self.wf(),
        ensures
            forall|p: int|
                0 <= p < self.players() ==> #[trigger] self.moves_counter_at(p)
                    == active_cells_upto(*self, p, self.n()),
            forall|p: int|
                0 <= p < self.players() ==> #[trigger] self.crosses_counter_at(p)
                    == cross_cells_upto(*self, p, self.n()),
    {
        assert forall|p: int| 0 <= p < self.players() implies #[trigger] self.moves_counter_at(p)
            == active_cells_upto(*self, p, self.n()) by {
            lemma_counts_agree(*self, p, self.n());
        }
        assert forall|p: int| 0 <= p < self.players() implies #[trigger] self.crosses_counter_at(p)
            == cross_cells_upto(*self, p, self.n()) by {
            lemma_counts_agree(*self, p, self.n());
        }
    }
}

/// Activation symmetry: wherever activation is meaningful — an empty cell,
/// or a cross for a player other than its owner — the activation count is
/// positive exactly when some neighbour is a claim of that player. A cross
/// never counts as activated for its own owner.
pub open spec fn activation_symmetric(b: GameBoardImpl) -> bool {
    forall|i: int, p: int|
        0 <= i < b.n() && 0 <= p < b.players() && (b.kind_at(i) is Empty || (b.kind_at(i) is Cross
            && b.owner_at(i) != p)) ==> ((#[trigger] b.cnt(i, p)) > 0 <==> exists|k: int|
            0 <= k < b.adj(i).len() && #[trigger] is_claim(b, b.adj(i)[k] as int, p))
}

/// Activation symmetry holds of every board on which nothing is activated
/// and nothing is claimed — in particular of a freshly initialised board,
/// before the caller seeds starting activation.
pub proof fn lemma_unclaimed_board_activation_symmetric(b: GameBoardImpl)
    requires
        forall|i: int, p: int|
            0 <= i < b.n() && 0 <= p < b.players() ==> #[trigger] b.cnt(i, p) == 0,
        forall|i: int|
            0 <= i < b.n() ==> !((#[trigger] b.kind_at(i)) is Cross) && !(b.kind_at(i) is Filled),
    ensures
        activation_symmetric(b),
{
    assert forall|i: int, p: int|
        0 <= i < b.n() && 0 <= p < b.players() && (b.kind_at(i) is Empty || (b.kind_at(i) is Cross
            && b.owner_at(i) != p)) implies ((#[trigger] b.cnt(i, p)) > 0 <==> exists|k: int|
        0 <= k < b.adj(i).len() && #[trigger] is_claim(b, b.adj(i)[k] as int, p)) by {
        if exists|k: int| 0 <= k < b.adj(i).len() && #[trigger] is_claim(b, b.adj(i)[k] as int, p) {
            let k = choose|k: int|
                0 <= k < b.adj(i).len() && #[trigger] is_claim(b, b.adj(i)[k] as int, p);
            assert(!(b.kind_at(b.adj(i)[k] as int) is Cross));
        }
    }
}

/// The two boards have the same cells, players and adjacency.
pub open spec fn same_structure(a: GameBoardImpl, b: GameBoardImpl) -> bool {
    &&& b.n() == a.n()
    &&& b.players() == a.players()
    &&& forall|i: int| 0 <= i < a.n() ==> #[trigger] b.adj(i) == a.adj(i)
}

/// Kind, owner, aliveness and importance agree on every cell.
pub open spec fn cells_unchanged(a: GameBoardImpl, b: GameBoardImpl) -> bool {
    &&& forall|j: int| 0 <= j < a.n() ==> #[trigger] b.kind_at(j) == a.kind_at(j)
    &&& forall|j: int| 0 <= j < a.n() ==> #[trigger] b.owner_at(j) == a.owner_at(j)
    &&& forall|j: int| 0 <= j < a.n() ==> #[trigger] b.alive_at(j) == a.alive_at(j)
    &&& forall|j: int| 0 <= j < a.n() ==> #[trigger] b.important_at(j) == a.important_at(j)
}

/// Kind, owner, aliveness and importance agree on every cell but `i`.
pub open spec fn cells_unchanged_except(a: GameBoardImpl, b: GameBoardImpl, i: int) -> bool {
    &&& forall|j: int| 0 <= j < a.n() && j != i ==> #[trigger] b.kind_at(j) == a.kind_at(j)
    &&& forall|j: int| 0 <= j < a.n() && j != i ==> #[trigger] b.owner_at(j) == a.owner_at(j)
    &&& forall|j: int| 0 <= j < a.n() && j != i ==> #[trigger] b.alive_at(j) == a.alive_at(j)
    &&& forall|j: int|
        0 <= j < a.n() && j != i ==> #[trigger] b.important_at(j) == a.important_at(j)
}

/// Every activation count agrees.
pub open spec fn counts_unchanged(a: GameBoardImpl, b: GameBoardImpl) -> bool {
    forall|j: int, p: int|
        0 <= j < a.n() && 0 <= p < a.players() ==> #[trigger] b.cnt(j, p) == a.cnt(j, p)
}

/// Every activation count but the one of cell `i` for player `q` agrees.
pub open spec fn counts_unchanged_except(a: GameBoardImpl, b: GameBoardImpl, i: int, q: int) -> bool {
    forall|j: int, p: int|
        0 <= j < a.n() && 0 <= p < a.players() && !(j == i && p == q) ==> #[trigger] b.cnt(j, p)
            == a.cnt(j, p)
}

/// Every per-player counter agrees.
pub open spec fn counters_unchanged(a: GameBoardImpl, b: GameBoardImpl) -> bool {
    &&& forall|p: int|
        0 <= p < a.players() ==> #[trigger] b.moves_counter_at(p) == a.moves_counter_at(p)
    &&& forall|p: int|
        0 <= p < a.players() ==> #[trigger] b.crosses_counter_at(p) == a.crosses_counter_at(p)
}

/// An all-zero count table counts no active cell.
proof fn lemma_active_upto_zero(counts: Seq<usize>, pl: int, p: int, k: int)
    requires
        pl >= 1,
        0 <= p < pl,
        k * pl <= counts.len(),
        forall|g: int| 0 <= g < counts.len() ==> (#[trigger] counts[g]) == 0,
    ensures
        active_upto(counts, pl, p, k) == 0,
    decreases k,
{
    if k > 0 {
        assert((k - 1) * pl == k * pl - pl) by (nonlinear_arith);
        lemma_active_upto_zero(counts, pl, p, k - 1);
        lemma_flat_bound(k - 1, p, pl, k);
    }
}

/// A table without crosses counts no cross.
proof fn lemma_crosses_upto_empty(kinds: Seq<CellKind>, owners: Seq<usize>, p: int, k: int)
    requires
        forall|j: int| 0 <= j < k ==> !((#[trigger] kinds[j]) is Cross),
    ensures
        crosses_upto(kinds, owners, p, k) == 0,
    decreases k,
{
    if k > 0 {
        lemma_crosses_upto_empty(kinds, owners, p, k - 1);
    }
}

/// Cell-major flat indices are unique per (cell, player) pair.
proof fn lemma_flat_inj(i: int, p: int, j: int, q: int, pl: int)
    requires
        pl >= 1,
        0 <= p < pl,
        0 <= q < pl,
        i * pl + p == j * pl + q,
    ensures
        i == j,
        p == q,
{
    assert(i == j && p == q) by (nonlinear_arith)
        requires
            pl >= 1,
            0 <= p < pl,
            0 <= q < pl,
            i * pl + p == j * pl + q,
    ;
}

/// Flat indices of the first `k` cells stay below `k * pl`.
proof fn lemma_flat_bound(i: int, p: int, pl: int, k: int)
    requires
        pl >= 1,
        0 <= p < pl,
        0 <= i < k,
    ensures
        0 <= i * pl + p < k * pl,
{
    assert(0 <= i * pl + p < k * pl) by (nonlinear_arith)
        requires
            pl >= 1,
            0 <= p < pl,
            0 <= i < k,
    ;
}

proof fn lemma_active_upto_bounds(counts: Seq<usize>, pl: int, p: int, k: int)
    ensures
        0 <= active_upto(counts, pl, p, k),
        active_upto(counts, pl, p, k) <= if k <= 0 {
            0int
        } else {
            k
        },
    decreases k,
{
    if k > 0 {
        lemma_active_upto_bounds(counts, pl, p, k - 1);
    }
}

/// A cell with a positive count makes the active total positive.
proof fn lemma_active_upto_pos(counts: Seq<usize>, pl: int, p: int, i: int, k: int)
    requires
        0 <= i < k,
        counts[i * pl + p] > 0,
    ensures
        active_upto(counts, pl, p, k) >= 1,
    decreases k,
{
    lemma_active_upto_bounds(counts, pl, p, k - 1);
    if i < k - 1 {
        lemma_active_upto_pos(counts, pl, p, i, k - 1);
    }
}

/// Changing the count table at one flat slot `(i, q)` moves the active
/// total of player `q` by that slot's zero/non-zero edge and leaves every
/// other player's total alone.
proof fn lemma_active_upto_change(
    counts: Seq<usize>,
    counts2: Seq<usize>,
    pl: int,
    i: int,
    q: int,
    p: int,
    k: int,
)
    requires
        pl >= 1,
        0 <= p < pl,
        0 <= q < pl,
        0 <= i,
        counts2.len() == counts.len(),
        k * pl <= counts.len(),
        forall|g: int| 0 <= g < counts.len() && g != i * pl + q ==> counts2[g] == counts[g],
    ensures
        active_upto(counts2, pl, p, k) == active_upto(counts, pl, p, k) + if p == q && i < k {
            (if counts2[i * pl + q] > 0 {
                1int
            } else {
                0int
            }) - (if counts[i * pl + q] > 0 {
                1int
            } else {
                0int
            })
        } else {
            0int
        },
    decreases k,
{
    if k > 0 {
        assert((k - 1) * pl == k * pl - pl) by (nonlinear_arith);
        lemma_active_upto_change(counts, counts2, pl, i, q, p, k - 1);
        lemma_flat_bound(k - 1, p, pl, k);
        if !(k - 1 == i && p == q) {
            assert((k - 1) * pl + p != i * pl + q) by {
                if (k - 1) * pl + p == i * pl + q {
                    lemma_flat_inj(k - 1, p, i, q, pl);
                }
            }
        }
    }
}

proof fn lemma_crosses_upto_bounds(kinds: Seq<CellKind>, owners: Seq<usize>, p: int, k: int)
    ensures
        0 <= crosses_upto(kinds, owners, p, k),
        crosses_upto(kinds, owners, p, k) <= if k <= 0 {
            0int
        } else {
            k
        },
    decreases k,
{
    if k > 0 {
        lemma_crosses_upto_bounds(kinds, owners, p, k - 1);
    }
}

/// A cross of player `p` makes their cross total positive.
proof fn lemma_crosses_upto_pos(kinds: Seq<CellKind>, owners: Seq<usize>, p: int, i: int, k: int)
    requires
        0 <= i < k,
        kinds[i] is Cross,
        owners[i] == p,
    ensures
        crosses_upto(kinds, owners, p, k) >= 1,
    decreases k,
{
    lemma_crosses_upto_bounds(kinds, owners, p, k - 1);
    if i < k - 1 {
        lemma_crosses_upto_pos(kinds, owners, p, i, k - 1);
    }
}

/// A cell that is not a cross of player `p` keeps their cross total below
/// the number of cells counted.
proof fn lemma_crosses_upto_slack(kinds: Seq<CellKind>, owners: Seq<usize>, p: int, i: int, k: int)
    requires
        0 <= i < k,
        !(kinds[i] is Cross && owners[i] == p),
    ensures
        crosses_upto(kinds, owners, p, k) <= k - 1,
    decreases k,
{
    lemma_crosses_upto_bounds(kinds, owners, p, k - 1);
    if i < k - 1 {
        lemma_crosses_upto_slack(kinds, owners, p, i, k - 1);
    }
}

/// A cell with count zero keeps the active total below the number of cells
/// counted.
proof fn lemma_active_upto_slack(counts: Seq<usize>, pl: int, p: int, i: int, k: int)
    requires
        0 <= i < k,
        counts[i * pl + p] == 0,
    ensures
        active_upto(counts, pl, p, k) <= k - 1,
    decreases k,
{
    lemma_active_upto_bounds(counts, pl, p, k - 1);
    if i < k - 1 {
        lemma_active_upto_slack(counts, pl, p, i, k - 1);
    }
}

/// Changing the kind and owner of one cell moves each player's cross total
/// by that cell's edge only.
proof fn lemma_crosses_upto_change(
    kinds: Seq<CellKind>,
    owners: Seq<usize>,
    kinds2: Seq<CellKind>,
    owners2: Seq<usize>,
    i: int,
    p: int,
    k: int,
)
    requires
        kinds2.len() == kinds.len(),
        owners2.len() == owners.len(),
        owners.len() == kinds.len(),
        0 <= i < kinds.len(),
        k <= kinds.len(),
        forall|j: int|
            0 <= j < kinds.len() && j != i ==> kinds2[j] == kinds[j] && owners2[j] == owners[j],
    ensures
        crosses_upto(kinds2, owners2, p, k) == crosses_upto(kinds, owners, p, k) + if i < k {
            (if kinds2[i] is Cross && owners2[i] == p {
                1int
            } else {
                0int
            }) - (if kinds[i] is Cross && owners[i] == p {
                1int
            } else {
                0int
            })
        } else {
            0int
        },
    decreases k,
{
    if k > 0 {
        lemma_crosses_upto_change(kinds, owners, kinds2, owners2, i, p, k - 1);
    }
}

impl GameBoardImpl {
    /// On a well-formed board every adjacency entry stays on the board,
    /// no cell neighbours itself, and every owner is a player index.
    pub proof fn lemma_wf_facts(&self)
        requires
            self.wf(),
        ensures
            self.players() >= 1,
            self.n() <= usize::MAX,
            forall|i: int, p: int| #[trigger] self.cnt(i, p) <= usize::MAX,
            forall|i: int, k: int|
                0 <= i < self.n() && 0 <= k < self.adj(i).len() ==> ((#[trigger] self.adj(
                    i,
                )[k]) as int) < self.n() && self.adj(i)[k] as int != i,
            forall|i: int| 0 <= i < self.n() ==> 0 <= #[trigger] self.owner_at(i) < self.players(),
    {
        assert(self.n() <= self.n() * self.players()) by (nonlinear_arith)
            requires
                self.players() >= 1,
                self.n() >= 0,
        ;
    }

    /// Builds a board over a fixed adjacency graph: `border[i]` makes cell
    /// `i` a border sentinel, every other cell starts empty, unowned, dead,
    /// unimportant and without activation anywhere. Returns `None` exactly
    /// when the input describes no board: no players, mismatched lengths, a
    /// count table too large for the machine, or an adjacency entry off the
    /// board or pointing at its own cell.
    pub fn init(num_players: usize, border: Vec<bool>, adjacency: Vec<Vec<usize>>) -> (r: Option<
        GameBoardImpl,
    >)
        ensures
            match r {
                Some(b) => {
                    &&& b.wf()
                    &&& num_players >= 1
                    &&& border@.len() == adjacency@.len()
                    &&& adjacency@.len() * num_players <= usize::MAX
                    &&& adjacency_ok(adjacency@, adjacency@.len() as int)
                    &&& b.n() == adjacency@.len()
                    &&& b.players() == num_players
                    &&& forall|i: int| 0 <= i < b.n() ==> #[trigger] b.adj(i) == adjacency@[i]@
                    &&& forall|i: int|
                        0 <= i < b.n() ==> #[trigger] b.kind_at(i) == (if border@[i] {
                            CellKind::Border
                        } else {
                            CellKind::Empty
                        })
                    &&& forall|i: int|
                        0 <= i < b.n() ==> !(#[trigger] b.alive_at(i)) && !b.important_at(i)
                            && b.owner_at(i) == 0
                    &&& forall|i: int, p: int|
                        0 <= i < b.n() && 0 <= p < b.players() ==> #[trigger] b.cnt(i, p) == 0
                    &&& forall|p: int|
                        0 <= p < b.players() ==> #[trigger] b.moves_counter_at(p) == 0
                            && b.crosses_counter_at(p) == 0
                },
                None => !({
                    &&& num_players >= 1
                    &&& border@.len() == adjacency@.len()
                    &&& adjacency@.len() * num_players <= usize::MAX
                    &&& adjacency_ok(adjacency@, adjacency@.len() as int)
                }),
            },
    {
        if num_players < 1 {
            return None;
        }
        let n = adjacency.len();
        if border.len() != n {
            return None;
        }
        let total = match n.checked_mul(num_players) {
            Some(t) => t,
            None => {
                return None;
            },
        };
        let mut i: usize = 0;
        while i < n
            invariant
                n == adjacency@.len(),
                0 <= i <= n,
                forall|i2: int, k: int|
                    0 <= i2 < i && 0 <= k < adjacency@[i2]@.len() ==> ((
                    #[trigger] adjacency@[i2]@[k]) as int) < n && adjacency@[i2]@[k] as int != i2,
            decreases n - i,
        {
            let row = &adjacency[i];
            let row_len = row.len();
            let mut k: usize = 0;
            while k < row_len
                invariant
                    n == adjacency@.len(),
                    0 <= i < n,
                    row_len == adjacency@[i as int]@.len(),
                    row@ == adjacency@[i as int]@,
                    0 <= k <= row_len,
                    forall|k2: int|
                        0 <= k2 < k ==> ((#[trigger] adjacency@[i as int]@[k2]) as int) < n
                            && adjacency@[i as int]@[k2] as int != i,
                decreases row_len - k,
            {
                let v = row[k];
                if v >= n || v == i {
                    proof {
                        assert(!adjacency_ok(adjacency@, n as int)) by {
                            if adjacency_ok(adjacency@, n as int) {
                                assert(((adjacency@[i as int]@[k as int]) as int) < n
                                    && adjacency@[i as int]@[k as int] as int != i);
                            }
                        }
                    }
                    return None;
                }
                k = k + 1;
            }
            i = i + 1;
        }
        let mut kinds: Vec<CellKind> = Vec::new();
        let mut owners: Vec<usize> = Vec::new();
        let mut alive: Vec<bool> = Vec::new();
        let mut important: Vec<bool> = Vec::new();
        let mut j: usize = 0;
        while j < n
            invariant
                0 <= j <= n,
                n == border@.len(),
                kinds@.len() == j,
                owners@.len() == j,
                alive@.len() == j,
                important@.len() == j,
                forall|j2: int|
                    0 <= j2 < j ==> #[trigger] kinds@[j2] == (if border@[j2] {
                        CellKind::Border
                    } else {
                        CellKind::Empty
                    }),
                forall|j2: int| 0 <= j2 < j ==> (#[trigger] owners@[j2]) == 0,
                forall|j2: int| 0 <= j2 < j ==> !(#[trigger] alive@[j2]),
                forall|j2: int| 0 <= j2 < j ==> !(#[trigger] important@[j2]),
            decreases n - j,
        {
            if border[j] {
                kinds.push(CellKind::Border);
            } else {
                kinds.push(CellKind::Empty);
            }
            owners.push(0);
            alive.push(false);
            important.push(false);
            j = j + 1;
        }
        let mut counts: Vec<usize> = Vec::new();
        let mut g: usize = 0;
        while g < total
            invariant
                0 <= g <= total,
                counts@.len() == g,
                forall|g2: int| 0 <= g2 < g ==> (#[trigger] counts@[g2]) == 0,
            decreases total - g,
        {
            counts.push(0);
            g = g + 1;
        }
        let mut moves_count: Vec<usize> = Vec::new();
        let mut crosses_count: Vec<usize> = Vec::new();
        let mut q: usize = 0;
        while q < num_players
            invariant
                0 <= q <= num_players,
                moves_count@.len() == q,
                crosses_count@.len() == q,
                forall|q2: int| 0 <= q2 < q ==> (#[trigger] moves_count@[q2]) == 0,
                forall|q2: int| 0 <= q2 < q ==> (#[trigger] crosses_count@[q2]) == 0,
            decreases num_players - q,
        {
            moves_count.push(0);
            crosses_count.push(0);
            q = q + 1;
        }
        let b = GameBoardImpl {
            kinds,
            owners,
            alive,
            important,
            counts,
            adjacency,
            moves_count,
            crosses_count,
            num_players,
        };
        proof {
            assert forall|p: int| 0 <= p < b.players() implies active_upto(
                b.counts@,
                b.players(),
                p,
                b.n(),
            ) == 0 by {
                lemma_active_upto_zero(b.counts@, b.players(), p, b.n());
            }
            assert forall|i2: int, p: int|
                0 <= i2 < b.n() && 0 <= p < b.players() implies #[trigger] b.cnt(i2, p) == 0 by {
                lemma_flat_bound(i2, p, b.players(), b.n());
            }
            assert forall|p: int| 0 <= p < b.players() implies crosses_upto(
                b.kinds@,
                b.owners@,
                p,
                b.n(),
            ) == 0 by {
                lemma_crosses_upto_empty(b.kinds@, b.owners@, p, b.n());
            }
        }
        Some(b)
    }

    /// Number of cells, as a machine integer.
    pub fn len(&self) -> (r: usize)
        ensures
            r as int == self.n(),
    {
        self.kinds.len()
    }

    /// Number of players, as a machine integer.
    pub fn player_count(&self) -> (r: usize)
        ensures
            r as int == self.players(),
    {
        self.num_players
    }

    /// Returns the kind of the cell at `index`.
    pub fn kind(&self, index: usize) -> (r: CellKind)
        requires
            self.wf(),
            (index as int) < self.n(),
        ensures
            r == self.kind_at(index as int),
    {
        self.kinds[index]
    }

    /// Returns the owner of the cell at `index`; meaningful only for
    /// crosses and filled cells.
    pub fn player(&self, index: usize) -> (r: usize)
        requires
            self.wf(),
            (index as int) < self.n(),
        ensures
            r as int == self.owner_at(index as int),
            (r as int) < self.players(),
    {
        self.owners[index]
    }

    /// Whether the filled cell at `index` is alive.
    pub fn is_alive(&self, index: usize) -> (r: bool)
        requires
            self.wf(),
            (index as int) < self.n(),
        ensures
            r == self.alive_at(index as int),
    {
        self.alive[index]
    }

    /// Whether the cell at `index` is an anchor of its chain.
    pub fn is_important(&self, index: usize) -> (r: bool)
        requires
            self.wf(),
            (index as int) < self.n(),
        ensures
            r == self.important_at(index as int),
    {
        self.important[index]
    }

    /// The activation count of the cell at `index` for `player`.
    pub fn count_for(&self, index: usize, player: usize) -> (r: usize)
        requires
            self.wf(),
            (index as int) < self.n(),
            (player as int) < self.players(),
        ensures
            r as int == self.cnt(index as int, player as int),
    {
        proof {
            lemma_flat_bound(index as int, player as int, self.players(), self.n());
        }
        self.counts[index * self.num_players + player]
    }

    /// Whether the cell at `index` is activated for `player`.
    pub fn is_active(&self, index: usize, player: usize) -> (r: bool)
        requires
            self.wf(),
            (index as int) < self.n(),
            (player as int) < self.players(),
        ensures
            r == (self.cnt(index as int, player as int) > 0),
    {
        self.count_for(index, player) > 0
    }

    /// Length of the adjacency list of the cell at `index`.
    pub fn adjacent_len(&self, index: usize) -> (r: usize)
        requires
            self.wf(),
            (index as int) < self.n(),
        ensures
            r as int == self.adj(index as int).len(),
    {
        self.adjacency[index].len()
    }

    /// The `k`-th neighbour of the cell at `index`: always on the board and
    /// never the cell itself.
    pub fn adjacent_at(&self, index: usize, k: usize) -> (r: usize)
        requires
            self.wf(),
            (index as int) < self.n(),
            (k as int) < self.adj(index as int).len(),
        ensures
            r == self.adj(index as int)[k as int],
            (r as int) < self.n(),
            r != index,
    {
        self.adjacency[index][k]
    }

    /// The adjacency list of the cell at `index`.
    pub fn adjacent(&self, index: usize) -> (r: &Vec<usize>)
        requires
            self.wf(),
            (index as int) < self.n(),
        ensures
            r@ == self.adj(index as int),
    {
        &self.adjacency[index]
    }

    /// The number of cells where `player` could move: cells with a positive
    /// activation count for them.
    pub fn moves_counter(&self, player: usize) -> (r: usize)
        requires
            self.wf(),
            (player as int) < self.players(),
        ensures
            r as int == self.moves_counter_at(player as int),
    {
        self.moves_count[player]
    }

    /// The number of crosses `player` owns.
    pub fn crosses_counter(&self, player: usize) -> (r: usize)
        requires
            self.wf(),
            (player as int) < self.players(),
        ensures
            r as int == self.crosses_counter_at(player as int),
    {
        self.crosses_count[player]
    }

    /// Sets the importance flag of the cell at `index`.
    pub fn set_important(&mut self, index: usize, new: bool)
        requires
            old(self).wf(),
            (index as int) < old(self).n(),
        ensures
            final(self).wf(),
            same_structure(*old(self), *final(self)),
            cells_unchanged_except(*old(self), *final(self), index as int),
            final(self).kind_at(index as int) == old(self).kind_at(index as int),
            final(self).owner_at(index as int) == old(self).owner_at(index as int),
            final(self).alive_at(index as int) == old(self).alive_at(index as int),
            final(self).important_at(index as int) == new,
            counts_unchanged(*old(self), *final(self)),
            counters_unchanged(*old(self), *final(self)),
    {
        self.important[index] = new;
    }

    /// Sets the aliveness flag of the cell at `index`.
    pub fn set_alive(&mut self, index: usize, new: bool)
        requires
            old(self).wf(),
            (index as int) < old(self).n(),
        ensures
            final(self).wf(),
            same_structure(*old(self), *final(self)),
            cells_unchanged_except(*old(self), *final(self), index as int),
            final(self).kind_at(index as int) == old(self).kind_at(index as int),
            final(self).owner_at(index as int) == old(self).owner_at(index as int),
            final(self).alive_at(index as int) == new,
            final(self).important_at(index as int) == old(self).important_at(index as int),
            counts_unchanged(*old(self), *final(self)),
            counters_unchanged(*old(self), *final(self)),
    {
        self.alive[index] = new;
    }

    /// Writes one activation count and keeps the movable-cell counter of its
    /// player exact across the zero/non-zero edge.
    fn set_count(&mut self, index: usize, player: usize, v: usize)
        requires
            old(self).wf(),
            (index as int) < old(self).n(),
            (player as int) < old(self).players(),
        ensures
            final(self).wf(),
            same_structure(*old(self), *final(self)),
            cells_unchanged(*old(self), *final(self)),
            counts_unchanged_except(*old(self), *final(self), index as int, player as int),
            final(self).cnt(index as int, player as int) == v,
            final(self).moves_counter_at(player as int) == old(self).moves_counter_at(player as int)
                + (if v > 0 {
                1int
            } else {
                0int
            }) - (if old(self).cnt(index as int, player as int) > 0 {
                1int
            } else {
                0int
            }),
            forall|q: int|
                0 <= q < old(self).players() && q != player ==> final(self).moves_counter_at(q)
                    == old(self).moves_counter_at(q),
            forall|q: int|
                0 <= q < old(self).players() ==> final(self).crosses_counter_at(q) == old(self).crosses_counter_at(q),
    {
        proof {
            lemma_flat_bound(index as int, player as int, self.players(), self.n());
        }
        let f = index * self.num_players + player;
        let c = self.counts[f];
        if c > 0 && v == 0 {
            proof {
                lemma_active_upto_pos(
                    self.counts@,
                    self.players(),
                    player as int,
                    index as int,
                    self.n(),
                );
            }
            self.moves_count[player] = self.moves_count[player] - 1;
        } else if c == 0 && v > 0 {
            proof {
                lemma_active_upto_slack(
                    self.counts@,
                    self.players(),
                    player as int,
                    index as int,
                    self.n(),
                );
                lemma_active_upto_bounds(self.counts@, self.players(), player as int, self.n());
                assert(self.n() <= self.n() * self.players()) by (nonlinear_arith)
                    requires
                        self.players() >= 1,
                        self.n() >= 0,
                ;
            }
            self.moves_count[player] = self.moves_count[player] + 1;
        }
        self.counts[f] = v;
        proof {
            let a = *old(self);
            let b = *self;
            assert forall|q: int| 0 <= q < a.players() implies active_upto(
                b.counts@,
                b.players(),
                q,
                b.n(),
            ) == active_upto(a.counts@, a.players(), q, a.n()) + (if q == player as int {
                (if v > 0 {
                    1int
                } else {
                    0int
                }) - (if a.cnt(index as int, player as int) > 0 {
                    1int
                } else {
                    0int
                })
            } else {
                0int
            }) by {
                lemma_active_upto_change(
                    a.counts@,
                    b.counts@,
                    a.players(),
                    index as int,
                    player as int,
                    q,
                    a.n(),
                );
            }
            assert forall|j: int, p: int|
                0 <= j < a.n() && 0 <= p < a.players() && !(j == index as int && p
                    == player as int) implies #[trigger] b.cnt(j, p) == a.cnt(j, p) by {
                lemma_flat_bound(j, p, a.players(), a.n());
                if j * a.players() + p == index as int * a.players() + player as int {
                    lemma_flat_inj(j, p, index as int, player as int, a.players());
                }
            }
        }
    }

    /// Raises the activation count of the cell at `index` for `player` by
    /// one, saturating at the machine maximum.
    pub fn activate(&mut self, index: usize, player: usize)
        requires
            old(self).wf(),
            (index as int) < old(self).n(),
            (player as int) < old(self).players(),
        ensures
            final(self).wf(),
            same_structure(*old(self), *final(self)),
            cells_unchanged(*old(self), *final(self)),
            counts_unchanged_except(*old(self), *final(self), index as int, player as int),
            final(self).cnt(index as int, player as int) == if old(self).cnt(
                index as int,
                player as int,
            ) < usize::MAX {
                old(self).cnt(index as int, player as int) + 1
            } else {
                old(self).cnt(index as int, player as int)
            },
            final(self).moves_counter_at(player as int) == old(self).moves_counter_at(player as int)
                + if old(self).cnt(index as int, player as int) == 0 {
                1int
            } else {
                0int
            },
            forall|q: int|
                0 <= q < old(self).players() && q != player ==> final(self).moves_counter_at(q)
                    == old(self).moves_counter_at(q),
            forall|q: int|
                0 <= q < old(self).players() ==> final(self).crosses_counter_at(q) == old(self).crosses_counter_at(q),
    {
        let c = self.count_for(index, player);
        if c < usize::MAX {
            self.set_count(index, player, c + 1);
        }
    }

    /// Replaces kind and owner of one cell, keeping the cross counters exact
    /// across the change.
    fn set_kind_owner(&mut self, index: usize, kk: CellKind, oo: usize)
        requires
            old(self).wf(),
            (index as int) < old(self).n(),
            (oo as int) < old(self).players(),
        ensures
            final(self).wf(),
            same_structure(*old(self), *final(self)),
            cells_unchanged_except(*old(self), *final(self), index as int),
            counts_unchanged(*old(self), *final(self)),
            final(self).kind_at(index as int) == kk,
            final(self).owner_at(index as int) == oo as int,
            final(self).alive_at(index as int) == old(self).alive_at(index as int),
            final(self).important_at(index as int) == old(self).important_at(index as int),
            forall|q: int|
                0 <= q < old(self).players() ==> final(self).moves_counter_at(q) == old(self).moves_counter_at(q),
            forall|q: int|
                0 <= q < old(self).players() ==> final(self).crosses_counter_at(q) == old(self).crosses_counter_at(q) + (if kk is Cross && oo == q {
                    1int
                } else {
                    0int
                }) - (if old(self).kind_at(index as int) is Cross && old(self).owner_at(index as int)
                    == q {
                    1int
                } else {
                    0int
                }),
    {
        let o0 = self.owners[index];
        let k0 = self.kinds[index];
        self.kinds[index] = kk;
        self.owners[index] = oo;
        proof {
            assert forall|q: int| 0 <= q < old(self).players() implies crosses_upto(
                self.kinds@,
                self.owners@,
                q,
                self.n(),
            ) == crosses_upto(old(self).kinds@, old(self).owners@, q, old(self).n()) + (if kk
                is Cross && oo == q {
                1int
            } else {
                0int
            }) - (if k0 is Cross && o0 == q {
                1int
            } else {
                0int
            }) by {
                lemma_crosses_upto_change(
                    old(self).kinds@,
                    old(self).owners@,
                    self.kinds@,
                    self.owners@,
                    index as int,
                    q,
                    old(self).n(),
                );
            }
            assert(self.n() <= self.n() * self.players()) by (nonlinear_arith)
                requires
                    self.players() >= 1,
                    self.n() >= 0,
            ;
        }
        let decrement = match k0 {
            CellKind::Cross => true,
            _ => false,
        };
        if decrement {
            proof {
                lemma_crosses_upto_pos(
                    old(self).kinds@,
                    old(self).owners@,
                    o0 as int,
                    index as int,
                    old(self).n(),
                );
            }
            self.crosses_count[o0] = self.crosses_count[o0] - 1;
        }
        let increment = match kk {
            CellKind::Cross => true,
            _ => false,
        };
        if increment {
            proof {
                if !(k0 is Cross && o0 == oo) {
                    lemma_crosses_upto_slack(
                        old(self).kinds@,
                        old(self).owners@,
                        oo as int,
                        index as int,
                        old(self).n(),
                    );
                }
                lemma_crosses_upto_bounds(old(self).kinds@, old(self).owners@, oo as int, old(self).n());
            }
            self.crosses_count[oo] = self.crosses_count[oo] + 1;
        }
    }

    /// Clears every player's activation count on one cell, with the exact
    /// counter edge for each.
    fn clear_counts_at(&mut self, index: usize)
        requires
            old(self).wf(),
            (index as int) < old(self).n(),
        ensures
            final(self).wf(),
            same_structure(*old(self), *final(self)),
            cells_unchanged(*old(self), *final(self)),
            forall|q: int| 0 <= q < old(self).players() ==> final(self).cnt(index as int, q) == 0,
            forall|j: int, q: int|
                0 <= j < old(self).n() && 0 <= q < old(self).players() && j != index ==> final(self).cnt(j, q) == old(self).cnt(j, q),
            forall|q: int|
                0 <= q < old(self).players() ==> final(self).moves_counter_at(q) == old(self).moves_counter_at(q) - (if old(self).cnt(index as int, q) > 0 {
                    1int
                } else {
                    0int
                }),
            forall|q: int|
                0 <= q < old(self).players() ==> final(self).crosses_counter_at(q) == old(self).crosses_counter_at(q),
    {
        let mut p: usize = 0;
        while p < self.num_players
            invariant
                self.wf(),
                old(self).wf(),
                (index as int) < old(self).n(),
                0 <= p <= old(self).players(),
                same_structure(*old(self), *self),
                cells_unchanged(*old(self), *self),
                forall|q: int| 0 <= q < p ==> self.cnt(index as int, q) == 0,
                forall|q: int|
                    p <= q < old(self).players() ==> self.cnt(index as int, q) == old(self).cnt(
                        index as int,
                        q,
                    ),
                forall|j: int, q: int|
                    0 <= j < old(self).n() && 0 <= q < old(self).players() && j != index
                        ==> self.cnt(j, q) == old(self).cnt(j, q),
                forall|q: int|
                    0 <= q < p ==> self.moves_counter_at(q) == old(self).moves_counter_at(q) - (
                    if old(self).cnt(index as int, q) > 0 {
                        1int
                    } else {
                        0int
                    }),
                forall|q: int|
                    p <= q < old(self).players() ==> self.moves_counter_at(q) == old(self).moves_counter_at(q),
                forall|q: int|
                    0 <= q < old(self).players() ==> self.crosses_counter_at(q) == old(self).crosses_counter_at(q),
            decreases old(self).players() - p,
        {
            self.set_count(index, p, 0);
            p = p + 1;
        }
    }

    /// Empty to cross: the cell becomes a cross of `player`, and its own
    /// activation count for its new owner is pinned to zero (a cross is
    /// never activated for its own owner).
    pub fn cross_out(&mut self, index: usize, player: usize)
        requires
            old(self).wf(),
            (index as int) < old(self).n(),
            (player as int) < old(self).players(),
            old(self).kind_at(index as int) is Empty,
        ensures
            final(self).wf(),
            same_structure(*old(self), *final(self)),
            cells_unchanged_except(*old(self), *final(self), index as int),
            final(self).kind_at(index as int) is Cross,
            final(self).owner_at(index as int) == player as int,
            final(self).alive_at(index as int) == old(self).alive_at(index as int),
            final(self).important_at(index as int) == old(self).important_at(index as int),
            final(self).cnt(index as int, player as int) == 0,
            counts_unchanged_except(*old(self), *final(self), index as int, player as int),
            final(self).moves_counter_at(player as int) == old(self).moves_counter_at(player as int)
                - (if old(self).cnt(index as int, player as int) > 0 {
                1int
            } else {
                0int
            }),
            forall|q: int|
                0 <= q < old(self).players() && q != player ==> final(self).moves_counter_at(q)
                    == old(self).moves_counter_at(q),
            final(self).crosses_counter_at(player as int) == old(self).crosses_counter_at(
                player as int,
            ) + 1,
            forall|q: int|
                0 <= q < old(self).players() && q != player ==> final(self).crosses_counter_at(q)
                    == old(self).crosses_counter_at(q),
    {
        self.set_kind_owner(index, CellKind::Cross, player);
        self.set_count(index, player, 0);
    }

    /// Cross to filled: the cell becomes filled territory of `player`, alive
    /// and not important, and every activation count on it is cleared.
    pub fn fill(&mut self, index: usize, player: usize)
        requires
            old(self).wf(),
            (index as int) < old(self).n(),
            (player as int) < old(self).players(),
            old(self).kind_at(index as int) is Cross,
        ensures
            final(self).wf(),
            same_structure(*old(self), *final(self)),
            cells_unchanged_except(*old(self), *final(self), index as int),
            final(self).kind_at(index as int) is Filled,
            final(self).owner_at(index as int) == player as int,
            final(self).alive_at(index as int),
            !final(self).important_at(index as int),
            forall|q: int| 0 <= q < old(self).players() ==> final(self).cnt(index as int, q) == 0,
            forall|j: int, q: int|
                0 <= j < old(self).n() && 0 <= q < old(self).players() && j != index ==> final(self).cnt(j, q) == old(self).cnt(j, q),
            forall|q: int|
                0 <= q < old(self).players() ==> final(self).moves_counter_at(q) == old(self).moves_counter_at(q) - (if old(self).cnt(index as int, q) > 0 {
                    1int
                } else {
                    0int
                }),
            forall|q: int|
                0 <= q < old(self).players() ==> final(self).crosses_counter_at(q) == old(self).crosses_counter_at(q) - (if old(self).owner_at(index as int) == q {
                    1int
                } else {
                    0int
                }),
    {
        self.set_kind_owner(index, CellKind::Filled, player);
        self.set_alive(index, true);
        self.set_important(index, false);
        self.clear_counts_at(index);
    }

    /// Filled to cross: the cell becomes a cross of `player` (the original
    /// placer, supplied by the caller), dead, not important, with all
    /// activation cleared; the caller re-derives what applies.
    pub fn remove_fill(&mut self, index: usize, player: usize)
        requires
            old(self).wf(),
            (index as int) < old(self).n(),
            (player as int) < old(self).players(),
            old(self).kind_at(index as int) is Filled,
        ensures
            final(self).wf(),
            same_structure(*old(self), *final(self)),
            cells_unchanged_except(*old(self), *final(self), index as int),
            final(self).kind_at(index as int) is Cross,
            final(self).owner_at(index as int) == player as int,
            !final(self).alive_at(index as int),
            !final(self).important_at(index as int),
            forall|q: int| 0 <= q < old(self).players() ==> final(self).cnt(index as int, q) == 0,
            forall|j: int, q: int|
                0 <= j < old(self).n() && 0 <= q < old(self).players() && j != index ==> final(self).cnt(j, q) == old(self).cnt(j, q),
            forall|q: int|
                0 <= q < old(self).players() ==> final(self).moves_counter_at(q) == old(self).moves_counter_at(q) - (if old(self).cnt(index as int, q) > 0 {
                    1int
                } else {
                    0int
                }),
            forall|q: int|
                0 <= q < old(self).players() ==> final(self).crosses_counter_at(q) == old(self).crosses_counter_at(q) + (if q == player {
                    1int
                } else {
                    0int
                }),
    {
        self.set_kind_owner(index, CellKind::Cross, player);
        self.set_alive(index, false);
        self.set_important(index, false);
        self.clear_counts_at(index);
    }

    /// Cross to empty: the cell keeps its activation counts (the owner's is
    /// re-derived by the caller after the deactivation cascade) and stops
    /// being important.
    pub fn remove_cross(&mut self, index: usize)
        requires
            old(self).wf(),
            (index as int) < old(self).n(),
            old(self).kind_at(index as int) is Cross,
        ensures
            final(self).wf(),
            same_structure(*old(self), *final(self)),
            cells_unchanged_except(*old(self), *final(self), index as int),
            final(self).kind_at(index as int) is Empty,
            final(self).owner_at(index as int) == old(self).owner_at(index as int),
            final(self).alive_at(index as int) == old(self).alive_at(index as int),
            !final(self).important_at(index as int),
            counts_unchanged(*old(self), *final(self)),
            forall|q: int|
                0 <= q < old(self).players() ==> final(self).moves_counter_at(q) == old(self).moves_counter_at(q),
            forall|q: int|
                0 <= q < old(self).players() ==> final(self).crosses_counter_at(q) == old(self).crosses_counter_at(q) - (if old(self).owner_at(index as int) == q {
                    1int
                } else {
                    0int
                }),
    {
        let o = self.player(index);
        self.set_kind_owner(index, CellKind::Empty, o);
        self.set_important(index, false);
    }

    /// Re-derives one activation count from scratch: it becomes the number
    /// of adjacent claims of `player`, with the exact counter edge.
    pub fn rederive_count(&mut self, index: usize, player: usize)
        requires
            old(self).wf(),
            (index as int) < old(self).n(),
            (player as int) < old(self).players(),
        ensures
            final(self).wf(),
            same_structure(*old(self), *final(self)),
            cells_unchanged(*old(self), *final(self)),
            counts_unchanged_except(*old(self), *final(self), index as int, player as int),
            final(self).cnt(index as int, player as int) == claims_in_adj_upto(
                *old(self),
                index as int,
                player as int,
                old(self).adj(index as int).len() as int,
            ),
            final(self).moves_counter_at(player as int) == old(self).moves_counter_at(player as int)
                + (if claims_in_adj_upto(
                *old(self),
                index as int,
                player as int,
                old(self).adj(index as int).len() as int,
            ) > 0 {
                1int
            } else {
                0int
            }) - (if old(self).cnt(index as int, player as int) > 0 {
                1int
            } else {
                0int
            }),
            forall|q: int|
                0 <= q < old(self).players() && q != player ==> final(self).moves_counter_at(q)
                    == old(self).moves_counter_at(q),
            forall|q: int|
                0 <= q < old(self).players() ==> final(self).crosses_counter_at(q) == old(self).crosses_counter_at(q),
    {
        let alen = self.adjacent_len(index);
        let mut c: usize = 0;
        let mut k: usize = 0;
        while k < alen
            invariant
                self.wf(),
                *self == *old(self),
                (index as int) < self.n(),
                (player as int) < self.players(),
                alen as int == self.adj(index as int).len(),
                0 <= k <= alen,
                c <= k,
                c as int == claims_in_adj_upto(*self, index as int, player as int, k as int),
            decreases alen - k,
        {
            let j = self.adjacent_at(index, k);
            let kd = self.kind(j);
            let claim = match kd {
                CellKind::Cross => self.player(j) == player,
                CellKind::Filled => self.player(j) == player && self.is_alive(j),
                _ => false,
            };
            if claim {
                c = c + 1;
            }
            k = k + 1;
        }
        self.set_count(index, player, c);
    }

    /// Lowers the activation count of the cell at `index` for `player` by
    /// one; a count of zero stays zero.
    pub fn deactivate(&mut self, index: usize, player: usize)
        requires
            old(self).wf(),
            (index as int) < old(self).n(),
            (player as int) < old(self).players(),
        ensures
            final(self).wf(),
            same_structure(*old(self), *final(self)),
            cells_unchanged(*old(self), *final(self)),
            counts_unchanged_except(*old(self), *final(self), index as int, player as int),
            final(self).cnt(index as int, player as int) == if old(self).cnt(
                index as int,
                player as int,
            ) > 0 {
                old(self).cnt(index as int, player as int) - 1
            } else {
                0int
            },
            final(self).moves_counter_at(player as int) == old(self).moves_counter_at(player as int)
                - if old(self).cnt(index as int, player as int) == 1 {
                1int
            } else {
                0int
            },
            forall|q: int|
                0 <= q < old(self).players() && q != player ==> final(self).moves_counter_at(q)
                    == old(self).moves_counter_at(q),
            forall|q: int|
                0 <= q < old(self).players() ==> final(self).crosses_counter_at(q) == old(self).crosses_counter_at(q),
    {
        let c = self.count_for(index, player);
        if c > 0 {
            self.set_count(index, player, c - 1);
        }
    }
}

} // verus!
