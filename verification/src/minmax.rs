//! The automated opponent: a static evaluator, a depth-bounded alpha-beta
//! search over board copies, and the pieces that pick the best root move.
//!
//! The timed, multi-threaded driver around these functions lives outside the
//! library: it repeatedly re-runs the per-move search at growing depths and
//! only composes what is verified here.

use vstd::prelude::*;

use crate::board::{Board, Color, lemma_ok_bounds};
use crate::DEPTH_ROOM;

verus! {

broadcast use vstd::array::group_array_axioms;

/// A board copy tagged with its static evaluation; the per-node candidate
/// store of the search. An `eval` of `i32::MIN` marks an unused slot.
#[derive(Clone, Copy)]
pub struct EvaluatedBoard {
    pub board: Board,
    pub eval: i32,
}

impl EvaluatedBoard {
    pub fn new(board: Board, eval: i32) -> (e: EvaluatedBoard)
        ensures
            e.board == board,
            e.eval == eval,
    {
        EvaluatedBoard { board, eval }
    }
}

/// The positional heuristic: three points per seed of attic lead, pressure
/// on the opponent's holes, and a bonus for blue seeds in one's own holes.
/// Which parity counts where depends on the perspective player.
pub open spec fn heuristic_spec(b: Board, max_player: int) -> int {
    let diff = b.attic(max_player) - b.attic(1 - max_player);
    let red_pair = b.reds()[0] + b.reds()[2] + b.reds()[4] + b.reds()[6] + b.reds()[8]
        + b.reds()[10] + b.reds()[12] + b.reds()[14];
    let blue_pair = b.blues()[0] + b.blues()[2] + b.blues()[4] + b.blues()[6] + b.blues()[8]
        + b.blues()[10] + b.blues()[12] + b.blues()[14];
    let red_impair = b.reds()[1] + b.reds()[3] + b.reds()[5] + b.reds()[7] + b.reds()[9]
        + b.reds()[11] + b.reds()[13] + b.reds()[15];
    let blue_impair = b.blues()[1] + b.blues()[3] + b.blues()[5] + b.blues()[7] + b.blues()[9]
        + b.blues()[11] + b.blues()[13] + b.blues()[15];
    if max_player == 0 {
        diff * 3 + (64 - (red_impair + blue_impair)) + blue_pair
    } else {
        diff * 3 + (64 - (red_pair + blue_pair)) + blue_impair
    }
}

/// The full static score of a board from `max_player`'s perspective:
/// decided games get a huge score biased toward fast wins and slow losses,
/// a draw scores zero, anything else the positional heuristic.
pub open spec fn eval_spec(b: Board, max_player: int, depth: int) -> int {
    if b.win_spec(true) == max_player {
        10_000_000 - depth
    } else if b.win_spec(true) == 1 - max_player {
        -10_000_000 + depth
    } else if b.win_spec(true) == 2 {
        0
    } else {
        heuristic_spec(b, max_player)
    }
}

/// Statically scores `board` from `max_player`'s perspective; `depth` biases
/// decided positions toward the fastest win or the slowest loss.
pub fn evaluation(board: &Board, max_player: usize, depth: i32) -> (score: i32)
    requires
        board.ok(),
        max_player < 2,
        0 <= depth <= DEPTH_ROOM,
    ensures
        score as int == eval_spec(*board, max_player as int, depth as int),
        -10_000_000 <= score <= 10_000_000,
{
    if board.is_winning(max_player) {
        return 10_000_000 - depth;
    }
    if board.is_loosing(max_player) {
        return -10_000_000 + depth;
    }
    if board.is_draw() {
        return 0;
    }
    proof {
        lemma_ok_bounds(*board);
        assert forall|i: int|
            0 <= i < 16 implies 0 <= #[trigger] board.red_holes@[i] as int
            <= crate::SEED_ROOM as int && 0 <= board.blue_holes@[i] as int
            <= crate::SEED_ROOM as int by {
            assert(board.reds()[i] == board.red_holes@[i] as int);
            assert(board.blues()[i] == board.blue_holes@[i] as int);
        }
    }

    let opponent = (max_player + 1) % 2;
    let diff_seed_attic = board.players_attics[max_player] - board.players_attics[opponent];

    let nb_red_seed_pair = board.red_holes[0] + board.red_holes[2] + board.red_holes[4]
        + board.red_holes[6] + board.red_holes[8] + board.red_holes[10] + board.red_holes[12]
        + board.red_holes[14];
    let nb_blue_seed_pair = board.blue_holes[0] + board.blue_holes[2] + board.blue_holes[4]
        + board.blue_holes[6] + board.blue_holes[8] + board.blue_holes[10] + board.blue_holes[12]
        + board.blue_holes[14];
    let nb_seed_pair = nb_red_seed_pair + nb_blue_seed_pair;

    let nb_red_seed_impair = board.red_holes[1] + board.red_holes[3] + board.red_holes[5]
        + board.red_holes[7] + board.red_holes[9] + board.red_holes[11] + board.red_holes[13]
        + board.red_holes[15];
    let nb_blue_seed_impair = board.blue_holes[1] + board.blue_holes[3] + board.blue_holes[5]
        + board.blue_holes[7] + board.blue_holes[9] + board.blue_holes[11] + board.blue_holes[13]
        + board.blue_holes[15];
    let nb_seed_impair = nb_red_seed_impair + nb_blue_seed_impair;

    if max_player == 0 {
        diff_seed_attic * 3 + (64 - nb_seed_impair) + nb_blue_seed_pair
    } else {
        diff_seed_attic * 3 + (64 - nb_seed_pair) + nb_blue_seed_impair
    }
}

/// What every slot of the candidate store satisfies throughout a search
/// node: a used slot holds a board that a legal move produced, still safe
/// to search further.
pub open spec fn candidate_inv(e: EvaluatedBoard) -> bool {
    e.eval > i32::MIN ==> e.board.ok()
}

/// The candidate order the search explores: when maximizing, higher static
/// scores come first; when minimizing, lower ones.
pub open spec fn ordered_pair(a: EvaluatedBoard, b: EvaluatedBoard, is_max: bool) -> bool {
    if is_max {
        a.eval >= b.eval
    } else {
        a.eval <= b.eval
    }
}

/// Insertion sort of the candidate store on the static scores, descending
/// when maximizing and ascending when minimizing: the result is an ordered
/// permutation of the input.
fn sort_candidates(moves: &mut [EvaluatedBoard; 32], is_max: bool)
    ensures
        forall|p: int, q: int|
            0 <= p < q < 32 ==> ordered_pair(final(moves)@[p], final(moves)@[q], is_max),
        final(moves)@.to_multiset() == old(moves)@.to_multiset(),
{
    broadcast use vstd::seq_lib::group_to_multiset_ensures;
    broadcast use vstd::multiset::group_multiset_axioms;

    let mut i: usize = 0;
    while i < 32
        invariant
            i <= 32,
            moves@.to_multiset() == old(moves)@.to_multiset(),
            forall|p: int, q: int| 0 <= p < q < i ==> ordered_pair(moves@[p], moves@[q], is_max),
        decreases 32 - i,
    {
        let x_ev = moves[i];
        proof {
            assert(moves@.update(i as int, x_ev) =~= moves@);
        }
        let mut j = i;
        while j > 0 && (is_max && moves[j - 1].eval < x_ev.eval || !is_max && moves[j - 1].eval
            > x_ev.eval)
            invariant
                j <= i < 32,
                moves@.update(j as int, x_ev).to_multiset() == old(moves)@.to_multiset(),
                forall|p: int, q: int|
                    0 <= p < q <= i && p != j && q != j ==> ordered_pair(
                        moves@[p],
                        moves@[q],
                        is_max,
                    ),
                forall|q: int|
                    j < q <= i ==> ordered_pair(x_ev, #[trigger] moves@[q], is_max) && moves@[
                    q].eval != x_ev.eval,
            decreases j,
        {
            let ghost pre = moves@;
            moves[j] = moves[j - 1];
            j -= 1;
            proof {
                broadcast use vstd::seq_lib::group_to_multiset_ensures;
                broadcast use vstd::multiset::group_multiset_axioms;

                let jj = j as int;
                assert(moves@ == pre.update(jj + 1, pre[jj]));
                assert(moves@.update(jj, x_ev).to_multiset() == moves@.to_multiset().insert(
                    x_ev,
                ).remove(moves@[jj]));
                assert(moves@.to_multiset() == pre.to_multiset().insert(pre[jj]).remove(
                    pre[jj + 1],
                ));
                assert(moves@[jj] == pre[jj]);
                assert(pre.update(jj + 1, x_ev).to_multiset() == pre.to_multiset().insert(
                    x_ev,
                ).remove(pre[jj + 1]));
                assert(pre.contains(pre[jj]) && pre.contains(pre[jj + 1]));
                assert(pre.to_multiset().count(pre[jj]) > 0 && pre.to_multiset().count(
                    pre[jj + 1],
                ) > 0);
                assert forall|e: EvaluatedBoard| #[trigger] moves@.update(
                    jj,
                    x_ev,
                ).to_multiset().count(e) == pre.update(jj + 1, x_ev).to_multiset().count(e) by {
                    assert(pre.to_multiset().insert(pre[jj]).remove(pre[jj + 1]).insert(
                        x_ev,
                    ).remove(pre[jj]).count(e) == pre.to_multiset().insert(x_ev).remove(
                        pre[jj + 1],
                    ).count(e));
                }
                assert(moves@.update(jj, x_ev).to_multiset() =~= pre.update(
                    jj + 1,
                    x_ev,
                ).to_multiset());
            }
        }
        let ghost held = moves@;
        moves[j] = x_ev;
        i += 1;
        proof {
            broadcast use vstd::seq_lib::group_to_multiset_ensures;
            broadcast use vstd::multiset::group_multiset_axioms;

            let jj = j as int;
            assert(moves@ == held.update(jj, x_ev));
            assert forall|p: int, q: int|
                0 <= p < q < i implies ordered_pair(moves@[p], moves@[q], is_max) by {
                if q == jj {
                    assert(ordered_pair(held[jj - 1], x_ev, is_max));
                    if p < jj - 1 {
                        assert(ordered_pair(held[p], held[jj - 1], is_max));
                    }
                } else if p == jj {
                    assert(ordered_pair(x_ev, held[q], is_max));
                } else {
                    assert(ordered_pair(held[p], held[q], is_max));
                }
            }
        }
    }
}

/// Everything the multiset of candidates satisfied before a permutation,
/// each candidate satisfies after it.
proof fn lemma_candidates_preserved(s1: Seq<EvaluatedBoard>, s2: Seq<EvaluatedBoard>)
    requires
        s1.to_multiset() == s2.to_multiset(),
        forall|k: int| 0 <= k < s1.len() ==> candidate_inv(#[trigger] s1[k]),
    ensures
        forall|k: int| 0 <= k < s2.len() ==> candidate_inv(#[trigger] s2[k]),
{
    broadcast use vstd::seq_lib::group_to_multiset_ensures;

    assert forall|k: int| 0 <= k < s2.len() implies candidate_inv(#[trigger] s2[k]) by {
        let x = s2[k];
        assert(s2.contains(x));
        assert(s1.to_multiset().count(x) > 0);
        assert(s1.contains(x));
        let j = choose|j: int| 0 <= j < s1.len() && s1[j] == x;
        assert(candidate_inv(s1[j]));
    }
}

/// A slot whose move is legal and can actually be sown: a red pile of 16
/// or more seeds can never finish sowing (see `distribute_red_seeds`) and
/// stays unexplored.
pub open spec fn slot_playable(b: Board, player: int, slot: int) -> bool {
    slot_possible(b, player, slot) && (slot < 16 ==> b.reds()[slot % 16] <= 15)
}

/// The board that playing `hole` with color `c` leads to: a board is
/// determined by its counts and attics, so this names the move's outcome.
pub open spec fn child_of(b: Board, player: int, hole: int, c: Color) -> Board {
    choose|nb: Board|
        #[trigger] nb.reds() == b.reds_after_move(hole, c) && nb.blues() == b.blues_after_move(
            hole,
            c,
        ) && nb.attic(player) == b.attic(player) + b.capture_gain(hole, c) && nb.attic(1 - player)
            == b.attic(1 - player)
}

/// Any board carrying exactly the counts and attics of a move's outcome is
/// that move's `child_of` board.
pub proof fn lemma_child_unique(b: Board, nb: Board, player: int, hole: int, c: Color)
    requires
        0 <= player < 2,
        nb.reds() == b.reds_after_move(hole, c),
        nb.blues() == b.blues_after_move(hole, c),
        nb.attic(player) == b.attic(player) + b.capture_gain(hole, c),
        nb.attic(1 - player) == b.attic(1 - player),
    ensures
        child_of(b, player, hole, c) == nb,
{
    let picked = child_of(b, player, hole, c);
    assert(picked.reds() == b.reds_after_move(hole, c) && picked.blues() == b.blues_after_move(
        hole,
        c,
    ) && picked.attic(player) == b.attic(player) + b.capture_gain(hole, c) && picked.attic(
        1 - player,
    ) == b.attic(1 - player));
    assert forall|i: int| 0 <= i < 16 implies picked.red_holes@[i] == nb.red_holes@[i]
        && picked.blue_holes@[i] == nb.blue_holes@[i] by {
        assert(picked.reds()[i] == nb.reds()[i]);
        assert(picked.blues()[i] == nb.blues()[i]);
    }
    assert(picked.red_holes =~= nb.red_holes);
    assert(picked.blue_holes =~= nb.blue_holes);
    assert(picked.players_attics@[player] == nb.players_attics@[player]);
    assert(picked.players_attics@[1 - player] == nb.players_attics@[1 - player]);
    assert(picked.players_attics =~= nb.players_attics);
}

/// The unpruned full-width minimax value: at the depth limit or on a
/// finished position the static evaluation, else the best child value for
/// the side to move over the fixed 32-slot move ordering.
pub open spec fn minimax_spec(
    b: Board,
    max_player: int,
    player: int,
    is_max: bool,
    depth: int,
    max_depth: int,
) -> int
    decreases max_depth - depth, 33int,
{
    if depth >= max_depth || b.final_spec() {
        eval_spec(b, max_player, depth)
    } else {
        minimax_scan(b, max_player, player, is_max, depth, max_depth, 0)
    }
}

/// The minimax fold over the slots from `slot` on: the best child value of
/// the playable slots, or the side's worst score if none remains.
pub open spec fn minimax_scan(
    b: Board,
    max_player: int,
    player: int,
    is_max: bool,
    depth: int,
    max_depth: int,
    slot: int,
) -> int
    decreases max_depth - depth, 32 - slot,
{
    if slot >= 32 || depth >= max_depth {
        if is_max {
            -10_000_000
        } else {
            10_000_000
        }
    } else {
        let rest = minimax_scan(b, max_player, player, is_max, depth, max_depth, slot + 1);
        if slot_playable(b, player, slot) {
            let v = minimax_spec(
                child_of(b, player, slot % 16, slot_color(slot)),
                max_player,
                1 - player,
                !is_max,
                depth + 1,
                max_depth,
            );
            if is_max {
                if v > rest {
                    v
                } else {
                    rest
                }
            } else {
                if v < rest {
                    v
                } else {
                    rest
                }
            }
        } else {
            rest
        }
    }
}

/// The minimax value of one candidate's board, seen from the node that
/// generated the candidate.
pub open spec fn cval(
    e: EvaluatedBoard,
    max_player: int,
    player: int,
    is_max: bool,
    depth: int,
    max_depth: int,
) -> int {
    minimax_spec(e.board, max_player, 1 - player, !is_max, depth + 1, max_depth)
}

/// The minimax fold over a candidate store from index `i` on: the best
/// child value of the used slots, or the side's worst score if none
/// remains.
pub open spec fn cand_scan(
    s: Seq<EvaluatedBoard>,
    max_player: int,
    player: int,
    is_max: bool,
    depth: int,
    max_depth: int,
    i: int,
) -> int
    decreases s.len() - i,
{
    if i < 0 || i >= s.len() {
        if is_max {
            -10_000_000
        } else {
            10_000_000
        }
    } else {
        let rest = cand_scan(s, max_player, player, is_max, depth, max_depth, i + 1);
        if s[i].eval > i32::MIN {
            let v = cval(s[i], max_player, player, is_max, depth, max_depth);
            if is_max {
                if v > rest {
                    v
                } else {
                    rest
                }
            } else {
                if v < rest {
                    v
                } else {
                    rest
                }
            }
        } else {
            rest
        }
    }
}

/// A candidate store whose used slots hold exactly the playable moves'
/// outcome boards folds to the same value as the slot-order minimax scan.
pub proof fn lemma_cand_scan_matches(
    s: Seq<EvaluatedBoard>,
    b: Board,
    max_player: int,
    player: int,
    is_max: bool,
    depth: int,
    max_depth: int,
    i: int,
)
    requires
        s.len() == 32,
        0 <= i <= 32,
        depth < max_depth,
        forall|sl: int|
            0 <= sl < 32 ==> ((#[trigger] s[sl]).eval > i32::MIN <==> slot_playable(b, player, sl))
                && (slot_playable(b, player, sl) ==> s[sl].board == child_of(
                b,
                player,
                sl % 16,
                slot_color(sl),
            )),
    ensures
        cand_scan(s, max_player, player, is_max, depth, max_depth, i) == minimax_scan(
            b,
            max_player,
            player,
            is_max,
            depth,
            max_depth,
            i,
        ),
    decreases 32 - i,
{
    if i < 32 {
        lemma_cand_scan_matches(s, b, max_player, player, is_max, depth, max_depth, i + 1);
    }
}

/// What the candidate fold computes: a bound on every used slot's value,
/// reached by one of them unless no slot is used.
pub proof fn lemma_cand_scan_char(
    s: Seq<EvaluatedBoard>,
    max_player: int,
    player: int,
    is_max: bool,
    depth: int,
    max_depth: int,
    i: int,
)
    requires
        0 <= i,
    ensures
        ({
            let m = cand_scan(s, max_player, player, is_max, depth, max_depth, i);
            &&& (is_max ==> m >= -10_000_000 && (forall|j: int|
                i <= j < s.len() && (#[trigger] s[j]).eval > i32::MIN ==> cval(
                    s[j],
                    max_player,
                    player,
                    is_max,
                    depth,
                    max_depth,
                ) <= m) && (m == -10_000_000 || exists|j: int|
                i <= j < s.len() && (#[trigger] s[j]).eval > i32::MIN && cval(
                    s[j],
                    max_player,
                    player,
                    is_max,
                    depth,
                    max_depth,
                ) == m))
            &&& (!is_max ==> m <= 10_000_000 && (forall|j: int|
                i <= j < s.len() && (#[trigger] s[j]).eval > i32::MIN ==> cval(
                    s[j],
                    max_player,
                    player,
                    is_max,
                    depth,
                    max_depth,
                ) >= m) && (m == 10_000_000 || exists|j: int|
                i <= j < s.len() && (#[trigger] s[j]).eval > i32::MIN && cval(
                    s[j],
                    max_player,
                    player,
                    is_max,
                    depth,
                    max_depth,
                ) == m))
        }),
    decreases s.len() - i,
{
    if i < s.len() {
        lemma_cand_scan_char(s, max_player, player, is_max, depth, max_depth, i + 1);
        let m = cand_scan(s, max_player, player, is_max, depth, max_depth, i);
        let rest = cand_scan(s, max_player, player, is_max, depth, max_depth, i + 1);
        if s[i].eval > i32::MIN && m == cval(s[i], max_player, player, is_max, depth, max_depth) {
            assert(s[i].eval > i32::MIN && cval(s[i], max_player, player, is_max, depth, max_depth)
                == m);
        }
    }
}

/// Reordering the candidate store does not change the fold: it is the best
/// value over the store's multiset of candidates.
pub proof fn lemma_cand_scan_permutation(
    s1: Seq<EvaluatedBoard>,
    s2: Seq<EvaluatedBoard>,
    max_player: int,
    player: int,
    is_max: bool,
    depth: int,
    max_depth: int,
)
    requires
        s1.to_multiset() == s2.to_multiset(),
    ensures
        cand_scan(s1, max_player, player, is_max, depth, max_depth, 0) == cand_scan(
            s2,
            max_player,
            player,
            is_max,
            depth,
            max_depth,
            0,
        ),
{
    broadcast use vstd::seq_lib::group_to_multiset_ensures;

    lemma_cand_scan_char(s1, max_player, player, is_max, depth, max_depth, 0);
    lemma_cand_scan_char(s2, max_player, player, is_max, depth, max_depth, 0);
    let m1 = cand_scan(s1, max_player, player, is_max, depth, max_depth, 0);
    let m2 = cand_scan(s2, max_player, player, is_max, depth, max_depth, 0);
    assert forall|j: int| 0 <= j < s1.len() && (#[trigger] s1[j]).eval > i32::MIN implies exists|
        k: int,
    | 0 <= k < s2.len() && #[trigger] s2[k] == s1[j] by {
        let e = s1[j];
        assert(s1.contains(e));
        assert(s2.to_multiset().count(e) > 0);
        assert(s2.contains(e));
    }
    assert forall|j: int| 0 <= j < s2.len() && (#[trigger] s2[j]).eval > i32::MIN implies exists|
        k: int,
    | 0 <= k < s1.len() && #[trigger] s1[k] == s2[j] by {
        let e = s2[j];
        assert(s2.contains(e));
        assert(s1.to_multiset().count(e) > 0);
        assert(s1.contains(e));
    }
}

/// Depth-bounded alpha-beta search. Returns the value of `board` for
/// `max_player` with `player` to move: at the depth limit or on a finished
/// position exactly the static evaluation, and otherwise a value that
/// stands for the unpruned full-width minimax value in the usual windowed
/// sense — equal to it whenever it lies strictly inside (alpha, beta), and
/// on the same side of whichever bound it crossed otherwise. Candidate
/// moves are pre-ordered by their static score so that cutoffs come early;
/// the ordering cannot change the value. `cpt` counts visited nodes and
/// `cpt_cut` the cutoffs; both saturate rather than overflow.
#[verifier::rlimit(100)]
pub fn minmax_alphabeta(
    board: &Board,
    max_player: usize,
    player: usize,
    is_max: bool,
    depth: i32,
    max_depth: i32,
    alpha: i32,
    beta: i32,
    cpt: &mut i32,
    cpt_cut: &mut i32,
) -> (value: i32)
    requires
        board.ok(),
        max_player < 2,
        player < 2,
        0 <= depth <= max_depth <= DEPTH_ROOM,
        -10_000_000 <= alpha < beta <= 10_000_000,
    ensures
        -10_000_000 <= value <= 10_000_000,
        depth == max_depth || board.final_spec() ==> value as int == eval_spec(
            *board,
            max_player as int,
            depth as int,
        ),
        *final(cpt) >= *old(cpt),
        *old(cpt) < i32::MAX ==> *final(cpt) >= *old(cpt) + 1,
        *final(cpt_cut) >= *old(cpt_cut),
        depth == max_depth || board.final_spec() ==> *final(cpt) as int == (if *old(cpt)
            < i32::MAX {
            *old(cpt) + 1int
        } else {
            *old(cpt) as int
        }) && *final(cpt_cut) == *old(cpt_cut),
        value as int <= alpha as int ==> minimax_spec(
            *board,
            max_player as int,
            player as int,
            is_max,
            depth as int,
            max_depth as int,
        ) <= value as int,
        alpha < value < beta ==> value as int == minimax_spec(
            *board,
            max_player as int,
            player as int,
            is_max,
            depth as int,
            max_depth as int,
        ),
        value as int >= beta as int ==> minimax_spec(
            *board,
            max_player as int,
            player as int,
            is_max,
            depth as int,
            max_depth as int,
        ) >= value as int,
        alpha == -10_000_000 && beta == 10_000_000 ==> value as int == ({
            let mm = minimax_spec(
                *board,
                max_player as int,
                player as int,
                is_max,
                depth as int,
                max_depth as int,
            );
            if mm < -10_000_000 {
                -10_000_000int
            } else if mm > 10_000_000 {
                10_000_000int
            } else {
                mm
            }
        }),
    decreases max_depth - depth,
{
    if *cpt < i32::MAX {
        *cpt = *cpt + 1;
    }
    let ghost cpt1 = *cpt;
    let ghost alpha0 = alpha as int;
    let ghost beta0 = beta as int;
    let mut alpha = alpha;
    let mut beta = beta;

    if depth == max_depth || board.is_final_position() {
        return evaluation(board, max_player, depth);
    }

    let mut moves: [EvaluatedBoard; 32] = [EvaluatedBoard::new(*board, i32::MIN);32];
    let mut slot: usize = 0;
    while slot < 32
        invariant
            slot <= 32,
            board.ok(),
            max_player < 2,
            player < 2,
            0 <= depth < max_depth <= DEPTH_ROOM,
            forall|j: int| 0 <= j < 32 ==> candidate_inv(#[trigger] moves@[j]),
            forall|sl: int|
                0 <= sl < slot ==> ((#[trigger] moves@[sl]).eval > i32::MIN <==> slot_playable(
                    *board,
                    player as int,
                    sl,
                )) && (slot_playable(*board, player as int, sl) ==> moves@[sl].board == child_of(
                    *board,
                    player as int,
                    sl % 16,
                    slot_color(sl),
                )),
            forall|sl: int| slot <= sl < 32 ==> (#[trigger] moves@[sl]).eval == i32::MIN,
        decreases 32 - slot,
    {
        let color = slot / 16;
        let hole = slot % 16;
        let c = Color::from_integer(color);
        proof {
            assert(c == slot_color(slot as int));
        }
        if board.is_this_move_possible(player, hole, c) {
            // A red pile of 16 or more seeds can never finish sowing (see
            // `distribute_red_seeds`); such a move stays unexplored.
            let sowable = match c {
                Color::Red => board.red_holes[hole] <= 15,
                Color::Blue => true,
            };
            proof {
                assert(board.reds()[hole as int] == board.red_holes@[hole as int] as int);
                assert(sowable == slot_playable(*board, player as int, slot as int));
            }
            if sowable {
                let mut nb = *board;
                nb.play_move(player, hole, c);
                proof {
                    lemma_child_unique(*board, nb, player as int, hole as int, c);
                }
                let ev = evaluation(&nb, max_player, depth);
                moves[slot] = EvaluatedBoard::new(nb, ev);
            }
        }
        slot += 1;
    }

    // Best-looking candidates are searched first, for early cutoffs; the
    // fold over the store equals the slot-order minimax scan either way.
    let ghost unsorted = moves@;
    sort_candidates(&mut moves, is_max);
    proof {
        lemma_candidates_preserved(unsorted, moves@);
        lemma_cand_scan_matches(
            unsorted,
            *board,
            max_player as int,
            player as int,
            is_max,
            depth as int,
            max_depth as int,
            0,
        );
        lemma_cand_scan_permutation(
            unsorted,
            moves@,
            max_player as int,
            player as int,
            is_max,
            depth as int,
            max_depth as int,
        );
        assert(cand_scan(
            moves@,
            max_player as int,
            player as int,
            is_max,
            depth as int,
            max_depth as int,
            0,
        ) == minimax_spec(
            *board,
            max_player as int,
            player as int,
            is_max,
            depth as int,
            max_depth as int,
        ));
    }

    let ghost mpi = max_player as int;
    let ghost pi = player as int;
    let ghost di = depth as int;
    let ghost mdi = max_depth as int;
    let ghost mm = minimax_spec(*board, mpi, pi, is_max, di, mdi);
    let mut value: i32;
    if is_max {
        value = -10_000_000;
        let mut i: usize = 0;
        let mut cut = false;
        while i < 32
            invariant
                is_max,
                i <= 32,
                max_player < 2,
                player < 2,
                0 <= depth < max_depth <= DEPTH_ROOM,
                mpi == max_player as int && pi == player as int && di == depth as int && mdi
                    == max_depth as int,
                -10_000_000 <= value <= 10_000_000,
                -10_000_000 <= alpha0 < beta0 <= 10_000_000,
                beta as int == beta0,
                !cut ==> alpha as int == (if value as int > alpha0 {
                    value as int
                } else {
                    alpha0
                }),
                !cut ==> value < beta,
                forall|j: int| 0 <= j < 32 ==> candidate_inv(#[trigger] moves@[j]),
                mm == cand_scan(moves@, mpi, pi, is_max, di, mdi, 0),
                !cut ==> forall|j: int|
                    0 <= j < i && (#[trigger] moves@[j]).eval > i32::MIN ==> cval(
                        moves@[j],
                        mpi,
                        pi,
                        is_max,
                        di,
                        mdi,
                    ) <= value as int,
                !cut ==> (value == -10_000_000 || value as int <= alpha0 || exists|j: int|
                    0 <= j < i && (#[trigger] moves@[j]).eval > i32::MIN && cval(
                        moves@[j],
                        mpi,
                        pi,
                        is_max,
                        di,
                        mdi,
                    ) >= value as int),
                cut ==> value as int >= beta0 && (exists|j: int|
                    0 <= j < 32 && (#[trigger] moves@[j]).eval > i32::MIN && cval(
                        moves@[j],
                        mpi,
                        pi,
                        is_max,
                        di,
                        mdi,
                    ) >= value as int),
                *cpt >= cpt1,
                *cpt_cut >= *old(cpt_cut),
            decreases 32 - i,
        {
            if !cut && moves[i].eval > i32::MIN {
                let candidate = moves[i];
                let ghost alpha_c = alpha as int;
                let ghost value_old = value as int;
                let eval = minmax_alphabeta(
                    &candidate.board,
                    max_player,
                    (player + 1) % 2,
                    false,
                    depth + 1,
                    max_depth,
                    alpha,
                    beta,
                    cpt,
                    cpt_cut,
                );
                if eval > value {
                    value = eval;
                }
                if value >= beta {
                    if *cpt_cut < i32::MAX {
                        *cpt_cut = *cpt_cut + 1;
                    }
                    cut = true;
                } else {
                    if value > alpha {
                        alpha = value;
                    }
                }
                proof {
                    let vj = cval(candidate, mpi, pi, is_max, di, mdi);
                    assert(((player + 1) % 2) as int == 1 - pi);
                    assert(vj == minimax_spec(candidate.board, mpi, 1 - pi, false, di + 1, mdi));
                    assert(candidate == moves@[i as int]);
                    if cut {
                        assert(value == eval);
                        assert(vj >= value as int);
                    } else {
                        if eval as int > value_old {
                            assert(value == eval);
                            if eval as int <= alpha_c {
                                assert(vj <= eval as int);
                            } else {
                                assert(vj == eval as int);
                            }
                        } else {
                            assert(value as int == value_old);
                        }
                    }
                }
            }
            i += 1;
        }
        proof {
            lemma_cand_scan_char(moves@, mpi, pi, is_max, di, mdi, 0);
            if cut {
                let j = choose|j: int|
                    0 <= j < 32 && (#[trigger] moves@[j]).eval > i32::MIN && cval(
                        moves@[j],
                        mpi,
                        pi,
                        is_max,
                        di,
                        mdi,
                    ) >= value as int;
                assert(cval(moves@[j], mpi, pi, is_max, di, mdi) <= mm);
                assert(mm >= value as int);
            } else {
                assert(mm <= value as int) by {
                    if mm != -10_000_000 {
                        let j = choose|j: int|
                            0 <= j < moves@.len() && (#[trigger] moves@[j]).eval > i32::MIN
                                && cval(moves@[j], mpi, pi, is_max, di, mdi) == mm;
                        assert(cval(moves@[j], mpi, pi, is_max, di, mdi) <= value as int);
                    }
                }
                if value as int > alpha0 {
                    assert(value as int > -10_000_000);
                    let j = choose|j: int|
                        0 <= j < 32 && (#[trigger] moves@[j]).eval > i32::MIN && cval(
                            moves@[j],
                            mpi,
                            pi,
                            is_max,
                            di,
                            mdi,
                        ) >= value as int;
                    assert(cval(moves@[j], mpi, pi, is_max, di, mdi) <= mm);
                    assert(mm >= value as int);
                }
            }
            assert(value as int <= alpha0 ==> mm <= value as int);
            assert(alpha0 < (value as int) < beta0 ==> mm == value as int);
            assert(value as int >= beta0 ==> mm >= value as int);
        }
    } else {
        value = 10_000_000;
        let mut i: usize = 0;
        let mut cut = false;
        while i < 32
            invariant
                !is_max,
                i <= 32,
                max_player < 2,
                player < 2,
                0 <= depth < max_depth <= DEPTH_ROOM,
                mpi == max_player as int && pi == player as int && di == depth as int && mdi
                    == max_depth as int,
                -10_000_000 <= value <= 10_000_000,
                -10_000_000 <= alpha0 < beta0 <= 10_000_000,
                alpha as int == alpha0,
                !cut ==> beta as int == (if (value as int) < beta0 {
                    value as int
                } else {
                    beta0
                }),
                !cut ==> value > alpha,
                forall|j: int| 0 <= j < 32 ==> candidate_inv(#[trigger] moves@[j]),
                mm == cand_scan(moves@, mpi, pi, is_max, di, mdi, 0),
                !cut ==> forall|j: int|
                    0 <= j < i && (#[trigger] moves@[j]).eval > i32::MIN ==> cval(
                        moves@[j],
                        mpi,
                        pi,
                        is_max,
                        di,
                        mdi,
                    ) >= value as int,
                !cut ==> (value == 10_000_000 || value as int >= beta0 || exists|j: int|
                    0 <= j < i && (#[trigger] moves@[j]).eval > i32::MIN && cval(
                        moves@[j],
                        mpi,
                        pi,
                        is_max,
                        di,
                        mdi,
                    ) <= value as int),
                cut ==> value as int <= alpha0 && (exists|j: int|
                    0 <= j < 32 && (#[trigger] moves@[j]).eval > i32::MIN && cval(
                        moves@[j],
                        mpi,
                        pi,
                        is_max,
                        di,
                        mdi,
                    ) <= value as int),
                *cpt >= cpt1,
                *cpt_cut >= *old(cpt_cut),
            decreases 32 - i,
        {
            if !cut && moves[i].eval > i32::MIN {
                let candidate = moves[i];
                let ghost beta_c = beta as int;
                let ghost value_old = value as int;
                let eval = minmax_alphabeta(
                    &candidate.board,
                    max_player,
                    (player + 1) % 2,
                    true,
                    depth + 1,
                    max_depth,
                    alpha,
                    beta,
                    cpt,
                    cpt_cut,
                );
                if eval < value {
                    value = eval;
                }
                if alpha >= value {
                    if *cpt_cut < i32::MAX {
                        *cpt_cut = *cpt_cut + 1;
                    }
                    cut = true;
                } else {
                    if value < beta {
                        beta = value;
                    }
                }
                proof {
                    let vj = cval(candidate, mpi, pi, is_max, di, mdi);
                    assert(((player + 1) % 2) as int == 1 - pi);
                    assert(vj == minimax_spec(candidate.board, mpi, 1 - pi, true, di + 1, mdi));
                    assert(candidate == moves@[i as int]);
                    if cut {
                        assert(value == eval);
                        assert(vj <= value as int);
                    } else {
                        if (eval as int) < value_old {
                            assert(value == eval);
                            if eval as int >= beta_c {
                                assert(vj >= eval as int);
                            } else {
                                assert(vj == eval as int);
                            }
                        } else {
                            assert(value as int == value_old);
                        }
                    }
                }
            }
            i += 1;
        }
        proof {
            lemma_cand_scan_char(moves@, mpi, pi, is_max, di, mdi, 0);
            if cut {
                let j = choose|j: int|
                    0 <= j < 32 && (#[trigger] moves@[j]).eval > i32::MIN && cval(
                        moves@[j],
                        mpi,
                        pi,
                        is_max,
                        di,
                        mdi,
                    ) <= value as int;
                assert(cval(moves@[j], mpi, pi, is_max, di, mdi) >= mm);
                assert(mm <= value as int);
            } else {
                assert(mm >= value as int) by {
                    if mm != 10_000_000 {
                        let j = choose|j: int|
                            0 <= j < moves@.len() && (#[trigger] moves@[j]).eval > i32::MIN
                                && cval(moves@[j], mpi, pi, is_max, di, mdi) == mm;
                        assert(cval(moves@[j], mpi, pi, is_max, di, mdi) >= value as int);
                    }
                }
                if (value as int) < beta0 {
                    assert((value as int) < 10_000_000);
                    let j = choose|j: int|
                        0 <= j < 32 && (#[trigger] moves@[j]).eval > i32::MIN && cval(
                            moves@[j],
                            mpi,
                            pi,
                            is_max,
                            di,
                            mdi,
                        ) <= value as int;
                    assert(cval(moves@[j], mpi, pi, is_max, di, mdi) >= mm);
                    assert(mm <= value as int);
                }
            }
            assert(value as int <= alpha0 ==> mm <= value as int);
            assert(alpha0 < (value as int) < beta0 ==> mm == value as int);
            assert(value as int >= beta0 ==> mm >= value as int);
        }
    }

    value
}

/// The color a move-table slot belongs to: slots 0 to 15 are red moves,
/// 16 to 31 blue moves, the hole being the slot modulo 16.
pub open spec fn slot_color(slot: int) -> Color {
    if slot < 16 {
        Color::Red
    } else {
        Color::Blue
    }
}

/// Whether the move behind a slot of the root table is legal for `player`.
pub open spec fn slot_possible(b: Board, player: int, slot: int) -> bool {
    b.move_possible(player, slot % 16, slot_color(slot))
}

/// The legal slots among the first `n`, in scan order.
pub open spec fn legal_upto(b: Board, player: int, n: int) -> Seq<int>
    decreases n,
{
    if n <= 0 {
        Seq::empty()
    } else if slot_possible(b, player, n - 1) {
        legal_upto(b, player, n - 1).push(n - 1)
    } else {
        legal_upto(b, player, n - 1)
    }
}

/// Every entry of the legal-slot list is a legal slot, and the list is
/// strictly ascending in slot order.
pub proof fn lemma_legal_upto_sound(b: Board, player: int, n: int)
    ensures
        forall|q: int|
            0 <= q < legal_upto(b, player, n).len() ==> 0 <= #[trigger] legal_upto(
                b,
                player,
                n,
            )[q] < n && slot_possible(b, player, legal_upto(b, player, n)[q]),
        forall|q1: int, q2: int|
            0 <= q1 < q2 < legal_upto(b, player, n).len() ==> #[trigger] legal_upto(
                b,
                player,
                n,
            )[q1] < #[trigger] legal_upto(b, player, n)[q2],
    decreases n,
{
    if n > 0 {
        lemma_legal_upto_sound(b, player, n - 1);
        assert forall|q: int| 0 <= q < legal_upto(b, player, n).len() implies 0 <= #[trigger]
        legal_upto(b, player, n)[q] < n && slot_possible(b, player, legal_upto(b, player, n)[q]) by {
            if q < legal_upto(b, player, n - 1).len() {
                assert(legal_upto(b, player, n)[q] == legal_upto(b, player, n - 1)[q]);
            }
        }
        assert forall|q1: int, q2: int|
            0 <= q1 < q2 < legal_upto(b, player, n).len() implies #[trigger] legal_upto(
            b,
            player,
            n,
        )[q1] < #[trigger] legal_upto(b, player, n)[q2] by {
            if q2 < legal_upto(b, player, n - 1).len() {
                assert(legal_upto(b, player, n)[q1] == legal_upto(b, player, n - 1)[q1]);
                assert(legal_upto(b, player, n)[q2] == legal_upto(b, player, n - 1)[q2]);
            } else {
                assert(legal_upto(b, player, n)[q1] == legal_upto(b, player, n - 1)[q1]);
            }
        }
    }
}

/// Every legal slot appears in the legal-slot list.
pub proof fn lemma_legal_upto_complete(b: Board, player: int, n: int, s: int)
    requires
        0 <= s < n,
        slot_possible(b, player, s),
    ensures
        exists|q: int|
            0 <= q < legal_upto(b, player, n).len() && #[trigger] legal_upto(b, player, n)[q] == s,
    decreases n,
{
    if s == n - 1 {
        assert(legal_upto(b, player, n)[legal_upto(b, player, n).len() - 1] == s);
    } else {
        lemma_legal_upto_complete(b, player, n - 1, s);
        let q = choose|q: int|
            0 <= q < legal_upto(b, player, n - 1).len() && #[trigger] legal_upto(
                b,
                player,
                n - 1,
            )[q] == s;
        assert(legal_upto(b, player, n)[q] == s);
    }
}

/// Builds the root move table for `player`: one value slot per (color,
/// hole) pair, the illegal ones pinned at the `i32::MIN` sentinel and the
/// legal ones starting at zero, plus the list of legal (color, hole) pairs
/// in scan order.
pub fn root_slots(board: &Board, player: usize) -> (out: ([i32; 32], Vec<(usize, usize)>))
    ensures
        forall|s: int|
            0 <= s < 32 ==> #[trigger] out.0@[s] as int == (if slot_possible(
                *board,
                player as int,
                s,
            ) {
                0int
            } else {
                i32::MIN as int
            }),
        out.1@.len() == legal_upto(*board, player as int, 32).len(),
        forall|q: int|
            0 <= q < out.1@.len() ==> (#[trigger] out.1@[q]).0 < 2 && out.1@[q].1 < 16 && out.1@[
                q
            ].0 as int * 16 + out.1@[q].1 as int == legal_upto(*board, player as int, 32)[q],
{
    let mut values: [i32; 32] = [0; 32];
    let mut moves: Vec<(usize, usize)> = Vec::new();
    let mut slot: usize = 0;
    while slot < 32
        invariant
            slot <= 32,
            forall|s: int|
                0 <= s < slot ==> #[trigger] values@[s] as int == (if slot_possible(
                    *board,
                    player as int,
                    s,
                ) {
                    0int
                } else {
                    i32::MIN as int
                }),
            forall|s: int| slot <= s < 32 ==> #[trigger] values@[s] == 0,
            moves@.len() == legal_upto(*board, player as int, slot as int).len(),
            forall|q: int|
                0 <= q < moves@.len() ==> (#[trigger] moves@[q]).0 < 2 && moves@[q].1 < 16
                    && moves@[q].0 as int * 16 + moves@[q].1 as int == legal_upto(
                    *board,
                    player as int,
                    slot as int,
                )[q],
        decreases 32 - slot,
    {
        let color = slot / 16;
        let hole = slot % 16;
        if board.is_this_move_possible(player, hole, Color::from_integer(color)) {
            moves.push((color, hole));
        } else {
            values[slot] = i32::MIN;
        }
        slot += 1;
    }
    (values, moves)
}

/// The starting search depth for a turn, from how many moves are open:
/// wide positions start shallower, forced ones need no search at all.
pub fn initial_depth(moves_amount: usize) -> (d: i32)
    ensures
        d as int == (if moves_amount > 12 {
            9int
        } else if moves_amount > 1 {
            10int
        } else {
            0int
        }),
{
    if moves_amount > 12 {
        9
    } else if moves_amount > 1 {
        10
    } else {
        0
    }
}

/// The depth for the next deepening pass: one deeper, or two while the
/// early part of the time budget is still unspent.
pub fn next_depth(max_depth: i32, still_early: bool) -> (d: i32)
    requires
        0 <= max_depth <= DEPTH_ROOM - 2,
    ensures
        d as int == max_depth + (if still_early {
            2int
        } else {
            1int
        }),
{
    if still_early {
        max_depth + 2
    } else {
        max_depth + 1
    }
}

/// Deals the legal moves round-robin over the four worker lanes: move `i`
/// of the list goes to lane `i % 4`, keeping its order inside the lane.
pub fn partition_moves(moves: &Vec<(usize, usize)>) -> (lanes: [Vec<(usize, usize)>; 4])
    ensures
        forall|l: int, q: int|
            0 <= l < 4 && 0 <= q < lanes@[l]@.len() ==> 4 * q + l < moves@.len() && #[trigger] (
            lanes@[l]@[q]) == moves@[4 * q + l],
        forall|l: int|
            0 <= l < 4 ==> 4 * (#[trigger] lanes@[l]@.len() as int) == moves@.len() + 3 - l - ((
            moves@.len() + 3 - l) % 4),
{
    let mut lane0: Vec<(usize, usize)> = Vec::new();
    let mut lane1: Vec<(usize, usize)> = Vec::new();
    let mut lane2: Vec<(usize, usize)> = Vec::new();
    let mut lane3: Vec<(usize, usize)> = Vec::new();
    let mut i: usize = 0;
    while i < moves.len()
        invariant
            i <= moves@.len(),
            forall|q: int| 0 <= q < lane0@.len() ==> 4 * q < i && #[trigger] (lane0@[q]) == moves@[4 * q],
            forall|q: int|
                0 <= q < lane1@.len() ==> 4 * q + 1 < i && #[trigger] (lane1@[q]) == moves@[4 * q + 1],
            forall|q: int|
                0 <= q < lane2@.len() ==> 4 * q + 2 < i && #[trigger] (lane2@[q]) == moves@[4 * q + 2],
            forall|q: int|
                0 <= q < lane3@.len() ==> 4 * q + 3 < i && #[trigger] (lane3@[q]) == moves@[4 * q + 3],
            4 * lane0@.len() as int == i + 3 - ((i + 3) % 4),
            4 * lane1@.len() as int == i + 2 - ((i + 2) % 4),
            4 * lane2@.len() as int == i + 1 - ((i + 1) % 4),
            4 * lane3@.len() as int == i + 0 - ((i + 0) % 4),
        decreases moves@.len() - i,
    {
        let mv = moves[i];
        let lane = i % 4;
        if lane == 0 {
            lane0.push(mv);
        } else if lane == 1 {
            lane1.push(mv);
        } else if lane == 2 {
            lane2.push(mv);
        } else {
            lane3.push(mv);
        }
        i += 1;
    }
    [lane0, lane1, lane2, lane3]
}

/// What the search of one root-table slot settles on: the sentinel for an
/// illegal slot, the untouched starting value for a legal slot that cannot
/// be sown, and otherwise the minimax value of the move's outcome, clamped
/// to the full score window.
pub open spec fn root_slot_value(b: Board, player: int, max_depth: int, slot: int) -> int {
    if !slot_possible(b, player, slot) {
        i32::MIN as int
    } else if !slot_playable(b, player, slot) {
        0
    } else {
        let mmc = minimax_spec(
            child_of(b, player, slot % 16, slot_color(slot)),
            player,
            1 - player,
            false,
            0,
            max_depth,
        );
        if mmc < -10_000_000 {
            -10_000_000
        } else if mmc > 10_000_000 {
            10_000_000
        } else {
            mmc
        }
    }
}

/// Searches one legal root move for `player` to the given depth: plays the
/// move on a copy of the board and runs the alpha-beta search on the result
/// with the opponent to move and the full score window; the result is the
/// move's minimax value, clamped to the score window.
pub fn evaluate_root_move(
    board: &Board,
    player: usize,
    color: usize,
    hole: usize,
    max_depth: i32,
    cpt: &mut i32,
    cpt_cut: &mut i32,
) -> (value: i32)
    requires
        board.ok(),
        player < 2,
        color < 2,
        board.move_possible(
            player as int,
            hole as int,
            if color == 1 {
                Color::Blue
            } else {
                Color::Red
            },
        ),
        color == 0 ==> board.reds()[hole as int] <= 15,
        0 <= max_depth <= DEPTH_ROOM,
    ensures
        -10_000_000 <= value <= 10_000_000,
        value as int == root_slot_value(
            *board,
            player as int,
            max_depth as int,
            color as int * 16 + hole as int,
        ),
        *final(cpt) >= *old(cpt),
        *old(cpt) < i32::MAX ==> *final(cpt) >= *old(cpt) + 1,
        *final(cpt_cut) >= *old(cpt_cut),
{
    let c = Color::from_integer(color);
    let mut new_board = *board;
    new_board.play_move(player, hole, c);
    proof {
        lemma_child_unique(*board, new_board, player as int, hole as int, c);
        assert(c == slot_color(color as int * 16 + hole as int));
        assert((color as int * 16 + hole as int) % 16 == hole as int);
        assert(slot_playable(*board, player as int, color as int * 16 + hole as int));
    }
    let value = minmax_alphabeta(
        &new_board,
        player,
        (player + 1) % 2,
        false,
        0,
        max_depth,
        -10_000_000,
        10_000_000,
        cpt,
        cpt_cut,
    );
    proof {
        assert(((player + 1) % 2) as int == 1 - player as int);
        let mmc = minimax_spec(
            new_board,
            player as int,
            1 - player as int,
            false,
            0,
            max_depth as int,
        );
        if value == -10_000_000 {
            assert(mmc <= -10_000_000);
        } else if value == 10_000_000 {
            assert(mmc >= 10_000_000);
        } else {
            assert(value as int == mmc);
        }
        assert(value as int == root_slot_value(
            *board,
            player as int,
            max_depth as int,
            color as int * 16 + hole as int,
        ));
    }
    value
}

/// The slot a fixed scan of the first `n` table entries settles on: the
/// first slot holding the strictly greatest value.
pub open spec fn best_slot(v: Seq<i32>, n: int) -> int
    decreases n,
{
    if n <= 1 {
        0
    } else {
        let b = best_slot(v, n - 1);
        if v[n - 1] > v[b] {
            n - 1
        } else {
            b
        }
    }
}

/// Scans the root value table in slot order and returns the (color, hole)
/// of the first slot with the strictly greatest value.
pub fn select_best_slot(values: &[i32; 32]) -> (mv: (Color, usize))
    ensures
        ({
            let s = best_slot(values@, 32);
            &&& 0 <= s < 32
            &&& mv.0 == slot_color(s)
            &&& mv.1 as int == s % 16
            &&& forall|j: int| 0 <= j < 32 ==> values@[j] <= values@[s]
            &&& forall|j: int| 0 <= j < s ==> values@[j] < values@[s]
        }),
{
    let mut best: usize = 0;
    let mut max_value = values[0];
    let mut slot: usize = 1;
    while slot < 32
        invariant
            1 <= slot <= 32,
            best < slot,
            best as int == best_slot(values@, slot as int),
            max_value == values@[best as int],
            forall|j: int| 0 <= j < slot ==> values@[j] <= values@[best as int],
            forall|j: int| 0 <= j < best ==> values@[j] < values@[best as int],
        decreases 32 - slot,
    {
        let value = values[slot];
        if value > max_value {
            best = slot;
            max_value = value;
        }
        slot += 1;
    }
    let color = best / 16;
    let hole = best % 16;
    (Color::from_integer(color), hole)
}

/// Picks a move for `player` with one full sequential pass at a fixed
/// depth: every playable root move is searched, its value written into the
/// table, and the best-valued slot returned — the scan-order argmax of the
/// per-slot search values. When any legal move exists the returned move is
/// legal; a forced position returns its only move.
#[verifier::rlimit(100)]
pub fn decide_fixed_depth(
    board: &Board,
    player: usize,
    max_depth: i32,
    cpt: &mut i32,
    cpt_cut: &mut i32,
) -> (mv: (Color, usize))
    requires
        board.ok(),
        player < 2,
        0 <= max_depth <= DEPTH_ROOM,
    ensures
        ({
            let tbl = Seq::new(
                32,
                |s: int| root_slot_value(*board, player as int, max_depth as int, s) as i32,
            );
            mv.0 == slot_color(best_slot(tbl, 32)) && mv.1 as int == best_slot(tbl, 32) % 16
        }),
        (exists|s: int| 0 <= s < 32 && slot_possible(*board, player as int, s))
            ==> board.move_possible(player as int, mv.1 as int, mv.0),
        forall|s: int|
            0 <= s < 32 && slot_possible(*board, player as int, s) && (forall|t: int|
                0 <= t < 32 && t != s ==> !slot_possible(*board, player as int, t)) ==> mv.0
                == slot_color(s) && mv.1 as int == s % 16,
{
    let (mut values, moves) = root_slots(board, player);
    proof {
        lemma_legal_upto_sound(*board, player as int, 32);
    }
    let mut idx: usize = 0;
    while idx < moves.len()
        invariant
            idx <= moves@.len(),
            board.ok(),
            player < 2,
            0 <= max_depth <= DEPTH_ROOM,
            moves@.len() == legal_upto(*board, player as int, 32).len(),
            forall|q: int|
                0 <= q < moves@.len() ==> (#[trigger] moves@[q]).0 < 2 && moves@[q].1 < 16
                    && moves@[q].0 as int * 16 + moves@[q].1 as int == legal_upto(
                    *board,
                    player as int,
                    32,
                )[q],
            forall|s: int|
                0 <= s < 32 && slot_possible(*board, player as int, s) ==> -10_000_000
                    <= #[trigger] values@[s] as int <= 10_000_000,
            forall|s: int|
                0 <= s < 32 && !slot_possible(*board, player as int, s) ==> #[trigger] values@[
                s] as int == i32::MIN as int,
            forall|q: int|
                0 <= q < idx ==> #[trigger] values@[moves@[q].0 as int * 16 + moves@[
                q].1 as int] as int == root_slot_value(
                    *board,
                    player as int,
                    max_depth as int,
                    moves@[q].0 as int * 16 + moves@[q].1 as int,
                ),
            forall|q: int|
                idx <= q < moves@.len() ==> #[trigger] values@[moves@[q].0 as int * 16 + moves@[
                q].1 as int] as int == 0,
        decreases moves@.len() - idx,
    {
        proof {
            lemma_legal_upto_sound(*board, player as int, 32);
        }
        let (color, hole) = moves[idx];
        let ghost sloti = color as int * 16 + hole as int;
        // A red pile of 16 or more seeds can never finish sowing (see
        // `distribute_red_seeds`); such a slot keeps its starting value and
        // stays selectable.
        let sowable = if color == 0 {
            board.red_holes[hole] <= 15
        } else {
            true
        };
        proof {
            assert(board.reds()[hole as int] == board.red_holes@[hole as int] as int);
            assert(slot_possible(*board, player as int, sloti));
            assert(sowable == slot_playable(*board, player as int, sloti));
        }
        if sowable {
            let value = evaluate_root_move(board, player, color, hole, max_depth, cpt, cpt_cut);
            values[color * 16 + hole] = value;
        } else {
            proof {
                assert(values@[sloti] as int == 0);
                assert(root_slot_value(*board, player as int, max_depth as int, sloti) == 0);
            }
        }
        idx += 1;
        proof {
            // Later entries of the legal-slot list name later slots, so the
            // write touched none of them.
            assert forall|q: int| idx <= q < moves@.len() implies #[trigger] values@[moves@[
                q].0 as int * 16 + moves@[q].1 as int] as int == 0 by {
                assert(legal_upto(*board, player as int, 32)[idx - 1] < legal_upto(
                    *board,
                    player as int,
                    32,
                )[q]);
            }
        }
    }
    proof {
        lemma_legal_upto_sound(*board, player as int, 32);
        assert forall|s: int| 0 <= s < 32 implies #[trigger] values@[s] as int == root_slot_value(
            *board,
            player as int,
            max_depth as int,
            s,
        ) by {
            if slot_possible(*board, player as int, s) {
                lemma_legal_upto_complete(*board, player as int, 32, s);
                let q = choose|q: int|
                    0 <= q < legal_upto(*board, player as int, 32).len() && #[trigger] legal_upto(
                        *board,
                        player as int,
                        32,
                    )[q] == s;
                assert(moves@[q].0 as int * 16 + moves@[q].1 as int == s);
                assert(values@[moves@[q].0 as int * 16 + moves@[q].1 as int] as int
                    == root_slot_value(
                    *board,
                    player as int,
                    max_depth as int,
                    moves@[q].0 as int * 16 + moves@[q].1 as int,
                ));
            }
        }
    }
    let mv = select_best_slot(&values);
    proof {
        let tbl = Seq::new(
            32,
            |s: int| root_slot_value(*board, player as int, max_depth as int, s) as i32,
        );
        assert forall|s: int| 0 <= s < 32 implies values@[s] == tbl[s] by {
            assert(tbl[s] == root_slot_value(*board, player as int, max_depth as int, s) as i32);
        }
        assert(values@ =~= tbl);
        let b = best_slot(values@, 32);
        if exists|t: int| 0 <= t < 32 && slot_possible(*board, player as int, t) {
            let t = choose|t: int| 0 <= t < 32 && slot_possible(*board, player as int, t);
            assert(values@[b] >= values@[t]);
            assert(slot_possible(*board, player as int, b));
            assert(b % 16 == mv.1 as int && slot_color(b) == mv.0);
        }
        assert forall|s: int|
            0 <= s < 32 && slot_possible(*board, player as int, s) && (forall|t: int|
                0 <= t < 32 && t != s ==> !slot_possible(*board, player as int, t)) implies mv.0
            == slot_color(s) && mv.1 as int == s % 16 by {
            if b != s {
                assert(!slot_possible(*board, player as int, b));
                assert(values@[b] as int == i32::MIN as int);
                assert(values@[b] >= values@[s]);
                assert(values@[s] as int >= -10_000_000);
                assert(false);
            }
        }
    }
    mv
}

} // verus!
