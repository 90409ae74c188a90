//! The turn manager: whose turn it is, per-turn move budgets, elimination
//! of players, and win/draw detection.
//!
//! [`PlayerManager::advance`] moves the turn state forward after a move has
//! been applied to the board; [`PlayerManager::reverse`] is its strict
//! inverse for undo ([`lemma_reverse_undoes_advance`]). Both are specified
//! exactly by the spec-level transition functions [`advance_model`] and
//! [`reverse_model`].

use vstd::prelude::*;

verus! {

/// Record kept for an eliminated player: the ply on which they lost, and
/// how many moves they still had in the turn that was running.
#[derive(Clone, Copy, PartialEq, Eq, Structural, Debug)]
pub struct LoseData {
    pub move_index: usize,
    pub remaining_moves: usize,
}

/// The terminal outcome of a game.
#[derive(Clone, Copy, PartialEq, Eq, Structural, Debug)]
pub enum GameOver {
    /// Exactly one player remained; their index.
    Win(usize),
    /// No player remained.
    Draw,
}

/// Whether the game is still running.
#[derive(Clone, Copy, PartialEq, Eq, Structural, Debug)]
pub enum GameState {
    /// The game has not ended.
    Ongoing,
    /// The game has ended with a win or a draw.
    Ended(GameOver),
}

/// Per-game turn bookkeeping. Created once at game start with all players
/// non-losers; mutated only by `advance` and `reverse`.
pub struct PlayerManager {
    /// Budget left in the current player's turn.
    pub remaining_moves: usize,
    /// Budget a fresh turn starts with.
    pub max_moves: usize,
    /// Index of the player whose turn it is.
    pub current_player: usize,
    /// Number of players in the game.
    pub max_players: usize,
    /// Monotonic ply counter.
    pub current_move: usize,
    /// Ongoing, or ended with a terminal outcome.
    pub game_state: GameState,
    /// For each player index, `Some` exactly when that player has lost.
    pub losers: Vec<Option<LoseData>>,
}

/// Mathematical image of a `PlayerManager`.
#[verifier::ext_equal]
pub ghost struct PlayerManagerV {
    pub remaining_moves: int,
    pub max_moves: int,
    pub current_player: int,
    pub max_players: int,
    pub current_move: int,
    pub game_state: GameState,
    pub losers: Seq<Option<LoseData>>,
}

impl View for PlayerManager {
    type V = PlayerManagerV;

    open spec fn view(&self) -> PlayerManagerV {
        PlayerManagerV {
            remaining_moves: self.remaining_moves as int,
            max_moves: self.max_moves as int,
            current_player: self.current_player as int,
            max_players: self.max_players as int,
            current_move: self.current_move as int,
            game_state: self.game_state,
            losers: self.losers@,
        }
    }
}

/// Well-formedness of the turn state: indices in range, the budget within
/// its bounds, and every recorded loss small enough to be restored.
pub open spec fn wf_view(v: PlayerManagerV) -> bool {
    &&& v.max_moves >= 1
    &&& v.max_players >= 1
    &&& 0 <= v.current_player < v.max_players
    &&& v.losers.len() == v.max_players
    &&& v.remaining_moves <= v.max_moves
    &&& (v.game_state is Ongoing ==> v.remaining_moves >= 1)
    &&& (v.game_state is Ongoing ==> v.losers[v.current_player] is None)
    &&& forall|p: int|
        0 <= p < v.max_players ==> match #[trigger] v.losers[p] {
            Some(ld) => ld.remaining_moves < v.max_moves && (ld.move_index as int)
                < v.current_move,
            None => true,
        }
}

impl PlayerManager {
    /// The structural invariant every public operation preserves.
    pub open spec fn wf(&self) -> bool {
        wf_view(self@)
    }
}

/// Number of non-losers among the first `k` player indices.
pub open spec fn live_upto(losers: Seq<Option<LoseData>>, k: int) -> int
    decreases k,
{
    if k <= 0 {
        0
    } else {
        live_upto(losers, k - 1) + if losers[k - 1] is None {
            1int
        } else {
            0int
        }
    }
}

/// The index `delta` steps after `cur`, cyclically among `m` players.
pub open spec fn cyc_index(cur: int, delta: int, m: int) -> int {
    if cur + delta < m {
        cur + delta
    } else {
        cur + delta - m
    }
}

proof fn lemma_live_upto_bounds(losers: Seq<Option<LoseData>>, k: int)
    ensures
        0 <= live_upto(losers, k),
        live_upto(losers, k) <= if k <= 0 {
            0int
        } else {
            k
        },
    decreases k,
{
    if k > 0 {
        lemma_live_upto_bounds(losers, k - 1);
    }
}

/// Replacing a non-loser entry by a loss lowers the live count by one,
/// for every prefix that covers the changed index.
proof fn lemma_live_upto_update(
    losers: Seq<Option<LoseData>>,
    i: int,
    x: Option<LoseData>,
    k: int,
)
    requires
        0 <= i < losers.len(),
        k <= losers.len(),
    ensures
        live_upto(losers.update(i, x), k) == live_upto(losers, k) + if i < k {
            (if x is None {
                1int
            } else {
                0int
            }) - (if losers[i] is None {
                1int
            } else {
                0int
            })
        } else {
            0int
        },
    decreases k,
{
    if k > 0 {
        lemma_live_upto_update(losers, i, x, k - 1);
    }
}

/// If every index below `k` except possibly `cur` has lost, at most one
/// non-loser is counted.
proof fn lemma_live_upto_le_one(losers: Seq<Option<LoseData>>, cur: int, k: int)
    requires
        forall|j: int| 0 <= j < k && j != cur ==> (#[trigger] losers[j]) is Some,
    ensures
        live_upto(losers, k) <= if 0 <= cur < k {
            1int
        } else {
            0int
        },
    decreases k,
{
    if k > 0 {
        lemma_live_upto_le_one(losers, cur, k - 1);
    }
}

/// A non-loser below `k` makes the live count positive.
proof fn lemma_live_upto_pos(losers: Seq<Option<LoseData>>, i: int, k: int)
    requires
        0 <= i < k,
        losers[i] is None,
    ensures
        live_upto(losers, k) >= 1,
    decreases k,
{
    lemma_live_upto_bounds(losers, k - 1);
    if i < k - 1 {
        lemma_live_upto_pos(losers, i, k - 1);
    }
}

/// If every index below `k` has lost, no non-loser is counted.
proof fn lemma_live_upto_zero(losers: Seq<Option<LoseData>>, k: int)
    requires
        forall|j: int| 0 <= j < k ==> (#[trigger] losers[j]) is Some,
    ensures
        live_upto(losers, k) == 0,
    decreases k,
{
    if k > 0 {
        lemma_live_upto_zero(losers, k - 1);
    }
}

/// The elimination scan, as run after the turn passes away from `cur`:
/// walks the other players in turn order starting after `cur`. A player
/// reported out of crosses loses unconditionally; one reported out of moves
/// loses only while at least two non-losers would remain afterwards (the
/// scan stops once that reserve is exhausted); a player with neither report
/// stops the scan unless a full-roster re-check was forced. Returns the
/// loser table and the number of non-losers after the scan.
pub open spec fn scan_from(
    losers: Seq<Option<LoseData>>,
    live: int,
    cur: int,
    m: int,
    mv: usize,
    check_all: bool,
    oom: Seq<bool>,
    ooc: Seq<bool>,
    delta: int,
) -> (Seq<Option<LoseData>>, int)
    decreases m - delta,
{
    if delta < 1 || delta >= m {
        (losers, live)
    } else {
        let idx = cyc_index(cur, delta, m);
        if losers[idx] is None {
            if ooc[idx] {
                scan_from(
                    losers.update(idx, Some(LoseData { move_index: mv, remaining_moves: 0 })),
                    live - 1,
                    cur,
                    m,
                    mv,
                    check_all,
                    oom,
                    ooc,
                    delta + 1,
                )
            } else if oom[idx] {
                if live > 1 {
                    scan_from(
                        losers.update(idx, Some(LoseData { move_index: mv, remaining_moves: 0 })),
                        live - 1,
                        cur,
                        m,
                        mv,
                        check_all,
                        oom,
                        ooc,
                        delta + 1,
                    )
                } else {
                    (losers, live)
                }
            } else if !check_all {
                (losers, live)
            } else {
                scan_from(losers, live, cur, m, mv, check_all, oom, ooc, delta + 1)
            }
        } else {
            scan_from(losers, live, cur, m, mv, check_all, oom, ooc, delta + 1)
        }
    }
}

/// The first player index at or after `j` that has not lost, or the number
/// of players when all have.
pub open spec fn first_live_from(losers: Seq<Option<LoseData>>, j: int) -> int
    decreases losers.len() - j,
{
    if j < 0 || j >= losers.len() {
        losers.len() as int
    } else if losers[j] is None {
        j
    } else {
        first_live_from(losers, j + 1)
    }
}

/// The next non-loser after `cur` in cyclic turn order, or `cur` itself when
/// no other player remains.
pub open spec fn next_live_from(losers: Seq<Option<LoseData>>, cur: int, m: int, delta: int) -> int
    decreases m - delta,
{
    if delta < 1 || delta >= m {
        cur
    } else {
        let idx = cyc_index(cur, delta, m);
        if losers[idx] is None {
            idx
        } else {
            next_live_from(losers, cur, m, delta + 1)
        }
    }
}

/// What one `advance` call does: the successor turn state and the reported
/// result. Already-ended games are left unchanged and report their outcome.
/// Otherwise the budget is decremented; the turn passes when it reaches zero
/// or when the mover is reported out of moves (which also records their loss
/// and forces a full-roster elimination re-check). When the turn passes, the
/// elimination scan runs; 0 remaining non-losers end the game in a draw,
/// 1 ends it with that player's win, and otherwise the turn goes to the next
/// non-loser with a fresh budget.
pub open spec fn advance_model(v: PlayerManagerV, oom: Seq<bool>, ooc: Seq<bool>) -> (
    PlayerManagerV,
    Result<usize, GameOver>,
) {
    match v.game_state {
        GameState::Ended(go) => (v, Err(go)),
        GameState::Ongoing => {
            let rem1 = v.remaining_moves - 1;
            if rem1 > 0 && !oom[v.current_player] {
                (
                    PlayerManagerV {
                        remaining_moves: rem1,
                        current_move: v.current_move + 1,
                        ..v
                    },
                    Ok(v.current_player as usize),
                )
            } else {
                let check_all = rem1 != 0;
                let losers1 = if rem1 == 0 {
                    v.losers
                } else {
                    v.losers.update(
                        v.current_player,
                        Some(
                            LoseData {
                                move_index: v.current_move as usize,
                                remaining_moves: rem1 as usize,
                            },
                        ),
                    )
                };
                let live1 = live_upto(losers1, v.max_players);
                let sc = scan_from(
                    losers1,
                    live1,
                    v.current_player,
                    v.max_players,
                    v.current_move as usize,
                    check_all,
                    oom,
                    ooc,
                    1,
                );
                if sc.1 == 0 {
                    (
                        PlayerManagerV {
                            remaining_moves: rem1,
                            current_move: v.current_move + 1,
                            game_state: GameState::Ended(GameOver::Draw),
                            losers: sc.0,
                            ..v
                        },
                        Err(GameOver::Draw),
                    )
                } else if sc.1 == 1 {
                    let w = first_live_from(sc.0, 0) as usize;
                    (
                        PlayerManagerV {
                            remaining_moves: rem1,
                            current_move: v.current_move + 1,
                            game_state: GameState::Ended(GameOver::Win(w)),
                            losers: sc.0,
                            ..v
                        },
                        Err(GameOver::Win(w)),
                    )
                } else {
                    let np = next_live_from(sc.0, v.current_player, v.max_players, 1);
                    (
                        PlayerManagerV {
                            remaining_moves: v.max_moves,
                            current_player: np,
                            current_move: v.current_move + 1,
                            losers: sc.0,
                            ..v
                        },
                        Ok(np as usize),
                    )
                }
            }
        },
    }
}

/// The loser table after an undo: every loss recorded at the undone ply
/// `mv` is cleared, whoever holds it; every other record is kept.
pub open spec fn clear_losses_at(losers: Seq<Option<LoseData>>, mv: usize) -> Seq<
    Option<LoseData>,
> {
    Seq::new(
        losers.len(),
        |i: int|
            match losers[i] {
                Some(ld) => if ld.move_index == mv {
                    None
                } else {
                    losers[i]
                },
                None => None,
            },
    )
}

/// What one `reverse` call does, given the player who held the turn before
/// the move being undone. The ply counter steps back, the game is ongoing
/// again, and every loss the undone advance recorded — one recorded at
/// exactly the undone ply, whoever holds it — is cleared. If the supplied
/// player was recorded as a loser, their recorded budget is restored;
/// otherwise the budget arithmetic of `advance` is rolled back.
pub open spec fn reverse_model(v: PlayerManagerV, player: int) -> PlayerManagerV {
    let mv = v.current_move - 1;
    match v.losers[player] {
        Some(ld) => PlayerManagerV {
            remaining_moves: ld.remaining_moves + 1,
            current_player: player,
            current_move: mv,
            game_state: GameState::Ongoing,
            losers: clear_losses_at(v.losers, mv as usize),
            ..v
        },
        None => PlayerManagerV {
            remaining_moves: if v.remaining_moves == v.max_moves {
                1
            } else {
                v.remaining_moves + 1
            },
            current_player: player,
            current_move: mv,
            game_state: GameState::Ongoing,
            losers: clear_losses_at(v.losers, mv as usize),
            ..v
        },
    }
}

/// The scan keeps every recorded loss, records new losses with an empty
/// budget, keeps the table's length, and reports the exact number of
/// non-losers left.
proof fn lemma_scan_from_props(
    losers: Seq<Option<LoseData>>,
    live: int,
    cur: int,
    m: int,
    mv: usize,
    check_all: bool,
    oom: Seq<bool>,
    ooc: Seq<bool>,
    delta: int,
    max_moves: int,
)
    requires
        m == losers.len(),
        0 <= cur < m,
        live == live_upto(losers, m),
        max_moves >= 1,
        forall|p: int|
            0 <= p < m ==> match #[trigger] losers[p] {
                Some(ld) => ld.remaining_moves < max_moves,
                None => true,
            },
    ensures
        scan_from(losers, live, cur, m, mv, check_all, oom, ooc, delta).0.len() == m,
        scan_from(losers, live, cur, m, mv, check_all, oom, ooc, delta).1 == live_upto(
            scan_from(losers, live, cur, m, mv, check_all, oom, ooc, delta).0,
            m,
        ),
        forall|p: int|
            0 <= p < m && losers[p] is Some ==> scan_from(
                losers,
                live,
                cur,
                m,
                mv,
                check_all,
                oom,
                ooc,
                delta,
            ).0[p] == losers[p],
        forall|p: int|
            0 <= p < m ==> match #[trigger] scan_from(
                losers,
                live,
                cur,
                m,
                mv,
                check_all,
                oom,
                ooc,
                delta,
            ).0[p] {
                Some(ld) => ld.remaining_moves < max_moves,
                None => true,
            },
        forall|p: int|
            0 <= p < m && losers[p] is None && (#[trigger] scan_from(
                losers,
                live,
                cur,
                m,
                mv,
                check_all,
                oom,
                ooc,
                delta,
            ).0[p]) is Some ==> scan_from(losers, live, cur, m, mv, check_all, oom, ooc, delta).0[p]
                == Some(LoseData { move_index: mv, remaining_moves: 0 }),
    decreases m - delta,
{
    if 1 <= delta < m {
        let idx = cyc_index(cur, delta, m);
        assert(0 <= idx < m);
        if losers[idx] is None {
            if ooc[idx] || (oom[idx] && live > 1) {
                let upd = losers.update(
                    idx,
                    Some(LoseData { move_index: mv, remaining_moves: 0 }),
                );
                lemma_live_upto_update(
                    losers,
                    idx,
                    Some(LoseData { move_index: mv, remaining_moves: 0 }),
                    m,
                );
                lemma_scan_from_props(
                    upd,
                    live - 1,
                    cur,
                    m,
                    mv,
                    check_all,
                    oom,
                    ooc,
                    delta + 1,
                    max_moves,
                );
                assert forall|p: int| 0 <= p < m && losers[p] is Some implies scan_from(
                    losers,
                    live,
                    cur,
                    m,
                    mv,
                    check_all,
                    oom,
                    ooc,
                    delta,
                ).0[p] == losers[p] by {
                    assert(upd[p] == losers[p]);
                }
            } else if !oom[idx] && check_all {
                lemma_scan_from_props(
                    losers,
                    live,
                    cur,
                    m,
                    mv,
                    check_all,
                    oom,
                    ooc,
                    delta + 1,
                    max_moves,
                );
            }
        } else {
            lemma_scan_from_props(
                losers,
                live,
                cur,
                m,
                mv,
                check_all,
                oom,
                ooc,
                delta + 1,
                max_moves,
            );
        }
    }
}

/// One `reverse` is the strict inverse of one `advance`: whatever the
/// callers' reports, an advance on an ongoing, well-formed turn state is
/// undone exactly by a reverse given the player who held the turn —
/// `remaining_moves`, `current_player`, `current_move`, `game_state` and
/// the whole loser table are restored.
pub proof fn lemma_reverse_undoes_advance(v: PlayerManagerV, oom: Seq<bool>, ooc: Seq<bool>)
    requires
        wf_view(v),
        v.game_state is Ongoing,
        oom.len() == v.max_players,
        ooc.len() == v.max_players,
        v.current_move < usize::MAX,
        v.max_moves <= usize::MAX,
    ensures
        reverse_model(advance_model(v, oom, ooc).0, v.current_player) == v,
{
    let rem1 = v.remaining_moves - 1;
    let mv = v.current_move as usize;
    let after = advance_model(v, oom, ooc).0;
    if !(rem1 > 0 && !oom[v.current_player]) {
        let check_all = rem1 != 0;
        let losers1 = if rem1 == 0 {
            v.losers
        } else {
            v.losers.update(
                v.current_player,
                Some(LoseData { move_index: mv, remaining_moves: rem1 as usize }),
            )
        };
        if rem1 != 0 {
            lemma_live_upto_update(
                v.losers,
                v.current_player,
                Some(LoseData { move_index: mv, remaining_moves: rem1 as usize }),
                v.max_players,
            );
        }
        lemma_scan_from_props(
            losers1,
            live_upto(losers1, v.max_players),
            v.current_player,
            v.max_players,
            mv,
            check_all,
            oom,
            ooc,
            1,
            v.max_moves,
        );
        let losers2 = scan_from(
            losers1,
            live_upto(losers1, v.max_players),
            v.current_player,
            v.max_players,
            mv,
            check_all,
            oom,
            ooc,
            1,
        ).0;
        assert forall|p: int| 0 <= p < v.max_players implies clear_losses_at(losers2, mv)[p]
            == v.losers[p] by {
            if v.losers[p] is Some {
                assert(losers1[p] == v.losers[p]);
                assert(losers2[p] == v.losers[p]);
            } else {
                if losers2[p] is Some {
                    if losers1[p] is Some {
                        assert(p == v.current_player && rem1 != 0);
                        assert(losers2[p] == losers1[p]);
                    }
                }
            }
        }
        assert(clear_losses_at(losers2, mv) =~= v.losers);
        assert(after.losers == losers2);
        if rem1 != 0 {
            assert(losers1[v.current_player] == Some(
                LoseData { move_index: mv, remaining_moves: rem1 as usize },
            ));
            assert(losers2[v.current_player] == losers1[v.current_player]);
        }
    } else {
        assert forall|p: int| 0 <= p < v.max_players implies clear_losses_at(after.losers, mv)[p]
            == v.losers[p] by {}
        assert(clear_losses_at(after.losers, mv) =~= v.losers);
    }
    let rm = reverse_model(after, v.current_player);
    assert((after.current_move - 1) as usize == mv);
    assert(rm.losers == clear_losses_at(after.losers, mv));
    assert(rm.losers =~= v.losers);
    assert(rm.remaining_moves == v.remaining_moves);
    assert(rm =~= v);
}

/// Elimination monotonicity: `advance` never clears a recorded loss, and
/// `reverse` changes a loss record only by clearing one whose recorded ply
/// is exactly the ply being undone.
pub proof fn lemma_elimination_monotonic(
    v: PlayerManagerV,
    oom: Seq<bool>,
    ooc: Seq<bool>,
    player: int,
)
    requires
        wf_view(v),
        0 <= player < v.max_players,
        1 <= v.current_move <= usize::MAX,
    ensures
        forall|p: int|
            0 <= p < v.max_players && v.losers[p] is Some ==> advance_model(
                v,
                oom,
                ooc,
            ).0.losers[p] == v.losers[p],
        forall|p: int|
            0 <= p < v.max_players && reverse_model(v, player).losers[p] != v.losers[p]
                ==> reverse_model(v, player).losers[p] is None && match v.losers[p] {
                Some(ld) => ld.move_index as int == v.current_move - 1,
                None => false,
            },
{
    if v.game_state is Ongoing {
        let rem1 = v.remaining_moves - 1;
        if !(rem1 > 0 && !oom[v.current_player]) {
            let check_all = rem1 != 0;
            let losers1 = if rem1 == 0 {
                v.losers
            } else {
                v.losers.update(
                    v.current_player,
                    Some(
                        LoseData {
                            move_index: v.current_move as usize,
                            remaining_moves: rem1 as usize,
                        },
                    ),
                )
            };
            if rem1 != 0 {
                lemma_live_upto_update(
                    v.losers,
                    v.current_player,
                    Some(
                        LoseData {
                            move_index: v.current_move as usize,
                            remaining_moves: rem1 as usize,
                        },
                    ),
                    v.max_players,
                );
            }
            lemma_scan_from_props(
                losers1,
                live_upto(losers1, v.max_players),
                v.current_player,
                v.max_players,
                v.current_move as usize,
                check_all,
                oom,
                ooc,
                1,
                v.max_moves,
            );
            assert forall|p: int|
                0 <= p < v.max_players && v.losers[p] is Some implies advance_model(
                v,
                oom,
                ooc,
            ).0.losers[p] == v.losers[p] by {
                assert(losers1[p] == v.losers[p]);
            }
        }
    }
}

impl PlayerManager {
    /// Creates the turn state for a fresh game: the full budget, player 0 to
    /// move, ply 0, the game ongoing, and no losers.
    pub fn new(max_moves: usize, max_players: usize, losers: Vec<Option<LoseData>>) -> (r:
        PlayerManager)
        requires
            max_moves >= 1,
            max_players >= 1,
            losers@.len() == max_players,
            forall|p: int| 0 <= p < max_players ==> (#[trigger] losers@[p]) is None,
        ensures
            r.wf(),
            r@ == (PlayerManagerV {
                remaining_moves: max_moves as int,
                max_moves: max_moves as int,
                current_player: 0,
                max_players: max_players as int,
                current_move: 0,
                game_state: GameState::Ongoing,
                losers: losers@,
            }),
    {
        PlayerManager {
            remaining_moves: max_moves,
            max_moves,
            current_player: 0,
            max_players,
            losers,
            current_move: 0,
            game_state: GameState::Ongoing,
        }
    }

    /// Counts the players that have not lost.
    fn count_not_losers(&self) -> (r: usize)
        requires
            self.losers@.len() == self.max_players,
        ensures
            r as int == live_upto(self@.losers, self@.max_players),
    {
        let mut r: usize = 0;
        let mut j: usize = 0;
        while j < self.max_players
            invariant
                self.losers@.len() == self.max_players,
                0 <= j <= self.max_players,
                r as int == live_upto(self@.losers, j as int),
                r <= j,
            decreases self.max_players - j,
        {
            if self.losers[j].is_none() {
                r = r + 1;
            }
            j = j + 1;
        }
        r
    }

    /// The lowest player index that has not lost.
    fn first_not_loser(&self) -> (r: usize)
        requires
            self.losers@.len() == self.max_players,
            live_upto(self.losers@, self.max_players as int) >= 1,
        ensures
            r as int == first_live_from(self.losers@, 0),
            r < self.max_players,
            self.losers@[r as int] is None,
    {
        let mut j: usize = 0;
        while j < self.max_players
            invariant
                self.losers@.len() == self.max_players,
                0 <= j <= self.max_players,
                first_live_from(self.losers@, 0) == first_live_from(self.losers@, j as int),
                forall|j2: int| 0 <= j2 < j ==> (#[trigger] self.losers@[j2]) is Some,
            decreases self.max_players - j,
        {
            if self.losers[j].is_none() {
                return j;
            }
            j = j + 1;
        }
        proof {
            lemma_live_upto_zero(self.losers@, self.max_players as int);
        }
        0
    }

    /// The next player after the current one, in cyclic turn order, that has
    /// not lost. Needs at least two non-losers, so that one exists besides
    /// the current player.
    fn next_player_idx(&self) -> (r: usize)
        requires
            self.max_players >= 1,
            self.current_player < self.max_players,
            self.losers@.len() == self.max_players,
            live_upto(self.losers@, self.max_players as int) >= 2,
        ensures
            r as int == next_live_from(
                self.losers@,
                self.current_player as int,
                self.max_players as int,
                1,
            ),
            r < self.max_players,
            self.losers@[r as int] is None,
            r != self.current_player,
    {
        let m = self.max_players;
        let cur = self.current_player;
        let mut delta: usize = 1;
        while delta < m
            invariant
                self.losers@.len() == m,
                self.max_players == m,
                self.current_player == cur,
                cur < m,
                1 <= delta <= m,
                next_live_from(self.losers@, cur as int, m as int, 1) == next_live_from(
                    self.losers@,
                    cur as int,
                    m as int,
                    delta as int,
                ),
                forall|d: int|
                    1 <= d < delta ==> (#[trigger] self.losers@[cyc_index(
                        cur as int,
                        d,
                        m as int,
                    )]) is Some,
            decreases m - delta,
        {
            let idx = if delta < m - cur {
                cur + delta
            } else {
                delta - (m - cur)
            };
            proof {
                assert(idx as int == cyc_index(cur as int, delta as int, m as int));
            }
            if self.losers[idx].is_none() {
                return idx;
            }
            delta = delta + 1;
        }
        proof {
            assert forall|j: int| 0 <= j < m && j != cur implies (#[trigger] self.losers@[j])
                is Some by {
                let d = if j > cur {
                    j - cur
                } else {
                    j + m - cur
                };
                assert(1 <= d < m);
                assert(cyc_index(cur as int, d, m as int) == j);
                assert(self.losers@[cyc_index(cur as int, d, m as int)] is Some);
            }
            lemma_live_upto_le_one(self.losers@, cur as int, m as int);
        }
        0
    }

    /// Runs the elimination scan over the other players, mutating the loser
    /// table exactly as [`scan_from`] describes, and returns the number of
    /// players that have not lost after it.
    fn check_if_other_players_have_lost(
        &mut self,
        live0: usize,
        check_all: bool,
        is_ran_out_of_moves: &Vec<bool>,
        is_ran_out_of_crosses: &Vec<bool>,
    ) -> (live: usize)
        requires
            old(self).max_players >= 1,
            old(self).current_player < old(self).max_players,
            old(self).losers@.len() == old(self).max_players,
            is_ran_out_of_moves@.len() == old(self).max_players,
            is_ran_out_of_crosses@.len() == old(self).max_players,
            live0 as int == live_upto(old(self).losers@, old(self).max_players as int),
        ensures
            (final(self).losers@, live as int) == scan_from(
                old(self).losers@,
                live0 as int,
                old(self).current_player as int,
                old(self).max_players as int,
                old(self).current_move,
                check_all,
                is_ran_out_of_moves@,
                is_ran_out_of_crosses@,
                1,
            ),
            final(self).remaining_moves == old(self).remaining_moves,
            final(self).max_moves == old(self).max_moves,
            final(self).current_player == old(self).current_player,
            final(self).max_players == old(self).max_players,
            final(self).current_move == old(self).current_move,
            final(self).game_state == old(self).game_state,
            live as int == live_upto(final(self).losers@, final(self).max_players as int),
    {
        let m = self.max_players;
        let cur = self.current_player;
        let mv = self.current_move;
        let ghost orig = self.losers@;
        let mut live = live0;
        let mut delta: usize = 1;
        while delta < m
            invariant_except_break
                self.max_players == m,
                self.current_player == cur,
                self.current_move == mv,
                self.remaining_moves == old(self).remaining_moves,
                self.max_moves == old(self).max_moves,
                self.game_state == old(self).game_state,
                cur < m,
                1 <= delta <= m,
                self.losers@.len() == m,
                is_ran_out_of_moves@.len() == m,
                is_ran_out_of_crosses@.len() == m,
                live as int == live_upto(self.losers@, m as int),
                scan_from(
                    orig,
                    live0 as int,
                    cur as int,
                    m as int,
                    mv,
                    check_all,
                    is_ran_out_of_moves@,
                    is_ran_out_of_crosses@,
                    1,
                ) == scan_from(
                    self.losers@,
                    live as int,
                    cur as int,
                    m as int,
                    mv,
                    check_all,
                    is_ran_out_of_moves@,
                    is_ran_out_of_crosses@,
                    delta as int,
                ),
            ensures
                self.max_players == m,
                self.current_player == cur,
                self.current_move == mv,
                self.remaining_moves == old(self).remaining_moves,
                self.max_moves == old(self).max_moves,
                self.game_state == old(self).game_state,
                live as int == live_upto(self.losers@, m as int),
                scan_from(
                    orig,
                    live0 as int,
                    cur as int,
                    m as int,
                    mv,
                    check_all,
                    is_ran_out_of_moves@,
                    is_ran_out_of_crosses@,
                    1,
                ) == (self.losers@, live as int),
            decreases m - delta,
        {
            let idx = if delta < m - cur {
                cur + delta
            } else {
                delta - (m - cur)
            };
            proof {
                assert(idx as int == cyc_index(cur as int, delta as int, m as int));
            }
            if self.losers[idx].is_none() {
                if is_ran_out_of_crosses[idx] {
                    proof {
                        lemma_live_upto_pos(self.losers@, idx as int, m as int);
                        lemma_live_upto_update(
                            self.losers@,
                            idx as int,
                            Some(LoseData { move_index: mv, remaining_moves: 0 }),
                            m as int,
                        );
                    }
                    self.losers[idx] = Some(LoseData { move_index: mv, remaining_moves: 0 });
                    live = live - 1;
                } else if is_ran_out_of_moves[idx] {
                    if live > 1 {
                        proof {
                            lemma_live_upto_update(
                                self.losers@,
                                idx as int,
                                Some(LoseData { move_index: mv, remaining_moves: 0 }),
                                m as int,
                            );
                        }
                        self.losers[idx] = Some(LoseData { move_index: mv, remaining_moves: 0 });
                        live = live - 1;
                    } else {
                        break ;
                    }
                } else if !check_all {
                    break ;
                }
            }
            delta = delta + 1;
        }
        live
    }

    /// Advances the turn state after a move, exactly as [`advance_model`]
    /// describes. The two vectors report, per player index, whether the
    /// caller's board leaves that player out of moves or out of crosses.
    /// Returns `Ok` with the player to move next while the game is ongoing,
    /// and `Err` with the terminal outcome once it has ended — including the
    /// case where this very call ended it. A call on an already ended game
    /// changes nothing and reports the outcome again.
    pub fn advance(
        &mut self,
        is_ran_out_of_moves: &Vec<bool>,
        is_ran_out_of_crosses: &Vec<bool>,
    ) -> (r: Result<usize, GameOver>)
        requires
            old(self).wf(),
            is_ran_out_of_moves@.len() == old(self).max_players,
            is_ran_out_of_crosses@.len() == old(self).max_players,
            old(self).current_move < usize::MAX,
        ensures
            final(self).wf(),
            final(self)@ == advance_model(
                old(self)@,
                is_ran_out_of_moves@,
                is_ran_out_of_crosses@,
            ).0,
            r == advance_model(old(self)@, is_ran_out_of_moves@, is_ran_out_of_crosses@).1,
            // elimination monotonicity: no recorded loss is ever cleared here
            forall|p: int|
                0 <= p < old(self)@.max_players && old(self)@.losers[p] is Some
                    ==> final(self)@.losers[p] == old(self)@.losers[p],
            final(self).max_moves == old(self).max_moves,
            final(self).max_players == old(self).max_players,
    {
        match self.game_state {
            GameState::Ended(go) => {
                return Err(go);
            },
            GameState::Ongoing => {},
        }
        self.remaining_moves = self.remaining_moves - 1;
        let mut should_change_player = false;
        let mut should_check_everyone = false;
        if self.remaining_moves == 0 {
            should_change_player = true;
        } else if is_ran_out_of_moves[self.current_player] {
            let cur = self.current_player;
            proof {
                lemma_live_upto_update(
                    self.losers@,
                    cur as int,
                    Some(
                        LoseData {
                            move_index: self.current_move,
                            remaining_moves: self.remaining_moves,
                        },
                    ),
                    self.max_players as int,
                );
            }
            self.losers[cur] = Some(
                LoseData { move_index: self.current_move, remaining_moves: self.remaining_moves },
            );
            should_change_player = true;
            should_check_everyone = true;
        }
        let mut result: Result<usize, GameOver> = Ok(self.current_player);
        if should_change_player {
            let live0 = self.count_not_losers();
            let ghost losers1 = self.losers@;
            let ghost cur1 = self.current_player as int;
            let ghost mv1 = self.current_move;
            let live = self.check_if_other_players_have_lost(
                live0,
                should_check_everyone,
                is_ran_out_of_moves,
                is_ran_out_of_crosses,
            );
            proof {
                lemma_scan_from_props(
                    losers1,
                    live0 as int,
                    cur1,
                    self.max_players as int,
                    mv1,
                    should_check_everyone,
                    is_ran_out_of_moves@,
                    is_ran_out_of_crosses@,
                    1,
                    self.max_moves as int,
                );
                assert forall|p: int|
                    0 <= p < old(self)@.max_players && old(self)@.losers[p] is Some implies self@
                    .losers[p] == old(self)@.losers[p] by {
                    assert(losers1[p] == old(self)@.losers[p]);
                }
            }
            if live == 0 {
                self.game_state = GameState::Ended(GameOver::Draw);
                result = Err(GameOver::Draw);
            } else if live == 1 {
                let winner = self.first_not_loser();
                self.game_state = GameState::Ended(GameOver::Win(winner));
                result = Err(GameOver::Win(winner));
            } else {
                self.current_player = self.next_player_idx();
                self.remaining_moves = self.max_moves;
                result = Ok(self.current_player);
            }
        }
        self.current_move = self.current_move + 1;
        proof {
            let mdl = advance_model(old(self)@, is_ran_out_of_moves@, is_ran_out_of_crosses@);
            assert(self@ =~= mdl.0);
        }
        result
    }

    /// Reverses the turn state by one move, exactly as [`reverse_model`]
    /// describes; `player` is the player who held the turn before the move
    /// being undone. Every loss recorded at the undone ply is cleared,
    /// whoever holds it, so one reverse undoes one advance exactly
    /// ([`lemma_reverse_undoes_advance`]). Must be called once per prior
    /// `advance`, in reverse order: under that discipline a supplied player
    /// recorded as a loser was recorded at exactly the ply being undone,
    /// which the precondition captures.
    pub fn reverse(&mut self, player: usize)
        requires
            old(self).wf(),
            player < old(self).max_players,
            old(self).current_move >= 1,
            match old(self)@.losers[player as int] {
                Some(ld) => ld.move_index as int == old(self)@.current_move - 1,
                None => true,
            },
        ensures
            final(self).wf(),
            final(self)@ == reverse_model(old(self)@, player as int),
            // elimination monotonicity: losses change only by being cleared,
            // and only ones recorded at exactly the ply being undone
            forall|p: int|
                0 <= p < old(self)@.max_players && final(self)@.losers[p] != old(self)@.losers[p]
                    ==> final(self)@.losers[p] is None && match old(self)@.losers[p] {
                    Some(ld) => ld.move_index as int == old(self)@.current_move - 1,
                    None => false,
                },
            // every loss the undone ply recorded is cleared, whoever holds it
            forall|p: int|
                0 <= p < old(self)@.max_players && (match old(self)@.losers[p] {
                    Some(ld) => ld.move_index as int == old(self)@.current_move - 1,
                    None => false,
                }) ==> final(self)@.losers[p] is None,
            final(self).max_moves == old(self).max_moves,
            final(self).max_players == old(self).max_players,
    {
        self.current_move = self.current_move - 1;
        self.game_state = GameState::Ongoing;
        let mv = self.current_move;
        match self.losers[player] {
            Some(ld) => {
                self.remaining_moves = ld.remaining_moves;
            },
            None => {
                if self.remaining_moves == self.max_moves {
                    self.remaining_moves = 0;
                }
            },
        }
        let m = self.max_players;
        let ghost orig = self.losers@;
        let mut i: usize = 0;
        while i < m
            invariant
                self.max_players == m,
                self.current_move == mv,
                self.max_moves == old(self).max_moves,
                self.current_player == old(self).current_player,
                self.remaining_moves as int == match old(self)@.losers[player as int] {
                    Some(ld) => ld.remaining_moves as int,
                    None => if old(self)@.remaining_moves == old(self)@.max_moves {
                        0int
                    } else {
                        old(self)@.remaining_moves
                    },
                },
                self.remaining_moves < old(self).max_moves,
                self.game_state == GameState::Ongoing,
                0 <= i <= m,
                self.losers@.len() == m,
                orig.len() == m,
                forall|p: int|
                    0 <= p < i ==> #[trigger] self.losers@[p] == clear_losses_at(orig, mv)[p],
                forall|p: int| i <= p < m ==> #[trigger] self.losers@[p] == orig[p],
            decreases m - i,
        {
            let hit = match self.losers[i] {
                Some(ld2) => ld2.move_index == mv,
                None => false,
            };
            if hit {
                self.losers[i] = None;
            }
            i = i + 1;
        }
        self.current_player = player;
        self.remaining_moves = self.remaining_moves + 1;
        proof {
            assert(self.losers@ =~= clear_losses_at(orig, mv));
            assert(self@ =~= reverse_model(old(self)@, player as int));
        }
    }
}

} // verus!
