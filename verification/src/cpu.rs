//! The move-selection engine: uniform-random choice, single-ply greedy
//! maximization of the resulting piece count, and fixed-depth minimax
//! with alpha-beta pruning over a heuristic static evaluation.

use vstd::prelude::*;

use crate::board::{flat, is_side, opposite, Disc};
use crate::game::Game;
use crate::player::CpuLevel;
use crate::rules::{
    after_move, count, game_over, lemma_count_bound, lemma_count_cell, lemma_moves_exact,
    lemma_moves_valid, moves_seq, valid_move,
};

verus! {

/// Positional weight of cell (r, c): corners best, corner-adjacent cells
/// strongly negative, mirrored across both axes of the grid.
pub open spec fn weight(r: int, c: int) -> int {
    let rr = if r < 4 {
        r
    } else {
        7 - r
    };
    let cc = if c < 4 {
        c
    } else {
        7 - c
    };
    if rr == 0 {
        if cc == 0 {
            100
        } else if cc == 1 {
            -20
        } else if cc == 2 {
            10
        } else {
            5
        }
    } else if rr == 1 {
        if cc == 0 {
            -20
        } else if cc == 1 {
            -50
        } else {
            -2
        }
    } else if rr == 2 {
        if cc == 0 {
            10
        } else if cc == 1 {
            -2
        } else {
            -1
        }
    } else {
        if cc == 0 {
            5
        } else if cc == 1 {
            -2
        } else {
            -1
        }
    }
}

/// Positional score of the first k cells from `player`'s perspective:
/// each cell's weight is added when the cell holds `player`'s disc,
/// subtracted when it holds the opponent's, and skipped when empty.
pub open spec fn positional_upto(s: Seq<Disc>, player: Disc, k: int) -> int
    decreases k,
{
    if k <= 0 {
        0
    } else {
        positional_upto(s, player, k - 1) + (if s[k - 1] == player {
            weight((k - 1) / 8, (k - 1) % 8)
        } else if s[k - 1] == opposite(player) {
            -weight((k - 1) / 8, (k - 1) % 8)
        } else {
            0int
        })
    }
}

/// Positional score of the whole grid from `player`'s perspective.
pub open spec fn positional_score(s: Seq<Disc>, player: Disc) -> int {
    positional_upto(s, player, 64)
}

/// The heuristic static evaluation from `player`'s perspective: material
/// difference, plus five times the mobility difference, plus the
/// positional score.
pub open spec fn eval_score(s: Seq<Disc>, player: Disc) -> int {
    count(s, player) - count(s, opposite(player)) + 5 * ((moves_seq(s, player).len() as int)
        - (moves_seq(s, opposite(player)).len() as int)) + positional_score(s, player)
}

/// The minimax search value of the position `s` with `depth` half-moves
/// left to examine, scored from `rootside`'s perspective: the static
/// evaluation at the horizon or at a finished game; a half-ply pass when
/// the side to move has no legal move; otherwise an alpha-beta fold over
/// that side's legal moves in scan order.
pub open spec fn minimax_spec(
    s: Seq<Disc>,
    depth: int,
    is_max: bool,
    rootside: Disc,
    alpha: int,
    beta: int,
) -> int
    decreases depth, 1int, 0int,
{
    if depth <= 0 || game_over(s) {
        eval_score(s, rootside)
    } else {
        let mover = if is_max {
            rootside
        } else {
            opposite(rootside)
        };
        if moves_seq(s, mover).len() == 0 {
            minimax_spec(s, depth - 1, !is_max, rootside, alpha, beta)
        } else if is_max {
            minimax_max_fold(
                s,
                depth,
                rootside,
                moves_seq(s, mover),
                0,
                i32::MIN as int,
                alpha,
                beta,
            )
        } else {
            minimax_min_fold(
                s,
                depth,
                rootside,
                moves_seq(s, mover),
                0,
                i32::MAX as int,
                alpha,
                beta,
            )
        }
    }
}

/// The maximizing ply's fold over `moves[i..]`: each move is applied to
/// an independent copy, scored one level deeper as a minimizing ply, and
/// raises the running maximum and alpha; the fold stops as soon as
/// beta <= alpha.
pub open spec fn minimax_max_fold(
    s: Seq<Disc>,
    depth: int,
    rootside: Disc,
    moves: Seq<(usize, usize)>,
    i: int,
    acc: int,
    alpha: int,
    beta: int,
) -> int
    decreases depth, 0int, moves.len() - i,
{
    if i < 0 || i >= moves.len() || depth < 1 {
        acc
    } else {
        let child = minimax_spec(
            after_move(s, moves[i].0 as int, moves[i].1 as int, rootside),
            depth - 1,
            false,
            rootside,
            alpha,
            beta,
        );
        let acc2 = if child > acc {
            child
        } else {
            acc
        };
        let alpha2 = if child > alpha {
            child
        } else {
            alpha
        };
        if beta <= alpha2 {
            acc2
        } else {
            minimax_max_fold(s, depth, rootside, moves, i + 1, acc2, alpha2, beta)
        }
    }
}

/// The minimizing ply's fold over `moves[i..]`: the opponent's moves,
/// scored one level deeper as a maximizing ply, lowering the running
/// minimum and beta; the fold stops as soon as beta <= alpha.
pub open spec fn minimax_min_fold(
    s: Seq<Disc>,
    depth: int,
    rootside: Disc,
    moves: Seq<(usize, usize)>,
    i: int,
    acc: int,
    alpha: int,
    beta: int,
) -> int
    decreases depth, 0int, moves.len() - i,
{
    if i < 0 || i >= moves.len() || depth < 1 {
        acc
    } else {
        let child = minimax_spec(
            after_move(s, moves[i].0 as int, moves[i].1 as int, opposite(rootside)),
            depth - 1,
            true,
            rootside,
            alpha,
            beta,
        );
        let acc2 = if child < acc {
            child
        } else {
            acc
        };
        let beta2 = if child < beta {
            child
        } else {
            beta
        };
        if beta2 <= alpha {
            acc2
        } else {
            minimax_min_fold(s, depth, rootside, moves, i + 1, acc2, alpha, beta2)
        }
    }
}

/// The score the minimax strategy assigns a root move: the search value
/// of the resulting position, four plies deep, the opponent to move,
/// with the widest possible alpha-beta window.
pub open spec fn root_value(s: Seq<Disc>, mv: (usize, usize), player: Disc) -> int {
    minimax_spec(
        after_move(s, mv.0 as int, mv.1 as int, player),
        4,
        false,
        player,
        i32::MIN as int,
        i32::MAX as int,
    )
}

/// First-found maximizer of `root_value` over `moves[i..]`, carrying the
/// best candidate seen so far.
pub open spec fn minimax_from(
    s: Seq<Disc>,
    player: Disc,
    moves: Seq<(usize, usize)>,
    i: int,
    best: (usize, usize),
    best_score: int,
) -> (usize, usize)
    decreases moves.len() - i,
{
    if i < 0 || i >= moves.len() {
        best
    } else if root_value(s, moves[i], player) > best_score {
        minimax_from(s, player, moves, i + 1, moves[i], root_value(s, moves[i], player))
    } else {
        minimax_from(s, player, moves, i + 1, best, best_score)
    }
}

/// The minimax strategy's choice among the legal moves of `player`.
pub open spec fn minimax_choice(s: Seq<Disc>, player: Disc) -> (usize, usize) {
    minimax_from(s, player, moves_seq(s, player), 0, moves_seq(s, player)[0], i32::MIN as int)
}

proof fn lemma_minimax_from_in(
    s: Seq<Disc>,
    player: Disc,
    moves: Seq<(usize, usize)>,
    i: int,
    best: (usize, usize),
    best_score: int,
)
    requires
        0 <= i <= moves.len(),
        moves.contains(best),
    ensures
        moves.contains(minimax_from(s, player, moves, i, best, best_score)),
    decreases moves.len() - i,
{
    if i < moves.len() {
        if root_value(s, moves[i], player) > best_score {
            assert(moves.contains(moves[i]));
            lemma_minimax_from_in(s, player, moves, i + 1, moves[i], root_value(s, moves[i], player));
        } else {
            lemma_minimax_from_in(s, player, moves, i + 1, best, best_score);
        }
    }
}

/// The minimax choice is one of the legal moves.
pub proof fn lemma_minimax_choice_in(s: Seq<Disc>, player: Disc)
    requires
        moves_seq(s, player).len() > 0,
    ensures
        moves_seq(s, player).contains(minimax_choice(s, player)),
{
    assert(moves_seq(s, player).contains(moves_seq(s, player)[0]));
    lemma_minimax_from_in(
        s,
        player,
        moves_seq(s, player),
        0,
        moves_seq(s, player)[0],
        i32::MIN as int,
    );
}

/// The total piece count `player` would hold after playing `mv`: the
/// quantity the greedy strategy maximizes.
pub open spec fn greedy_value(s: Seq<Disc>, mv: (usize, usize), player: Disc) -> int {
    count(after_move(s, mv.0 as int, mv.1 as int, player), player)
}

/// First-found maximizer of `greedy_value` over `moves[i..]`, carrying
/// the best candidate seen so far: only a strictly greater value moves
/// the choice.
pub open spec fn greedy_from(
    s: Seq<Disc>,
    player: Disc,
    moves: Seq<(usize, usize)>,
    i: int,
    best: (usize, usize),
    best_val: int,
) -> (usize, usize)
    decreases moves.len() - i,
{
    if i < 0 || i >= moves.len() {
        best
    } else if greedy_value(s, moves[i], player) > best_val {
        greedy_from(s, player, moves, i + 1, moves[i], greedy_value(s, moves[i], player))
    } else {
        greedy_from(s, player, moves, i + 1, best, best_val)
    }
}

/// The greedy strategy's choice among the legal moves of `player`.
pub open spec fn greedy_choice(s: Seq<Disc>, player: Disc) -> (usize, usize) {
    greedy_from(s, player, moves_seq(s, player), 0, moves_seq(s, player)[0], 0)
}

proof fn lemma_greedy_from_in(
    s: Seq<Disc>,
    player: Disc,
    moves: Seq<(usize, usize)>,
    i: int,
    best: (usize, usize),
    best_val: int,
)
    requires
        0 <= i <= moves.len(),
        moves.contains(best),
    ensures
        moves.contains(greedy_from(s, player, moves, i, best, best_val)),
    decreases moves.len() - i,
{
    if i < moves.len() {
        if greedy_value(s, moves[i], player) > best_val {
            assert(moves.contains(moves[i]));
            lemma_greedy_from_in(
                s,
                player,
                moves,
                i + 1,
                moves[i],
                greedy_value(s, moves[i], player),
            );
        } else {
            lemma_greedy_from_in(s, player, moves, i + 1, best, best_val);
        }
    }
}

/// The greedy choice is one of the legal moves.
pub proof fn lemma_greedy_choice_in(s: Seq<Disc>, player: Disc)
    requires
        moves_seq(s, player).len() > 0,
    ensures
        moves_seq(s, player).contains(greedy_choice(s, player)),
{
    assert(moves_seq(s, player).contains(moves_seq(s, player)[0]));
    lemma_greedy_from_in(s, player, moves_seq(s, player), 0, moves_seq(s, player)[0], 0);
}

proof fn lemma_greedy_from_max(
    s: Seq<Disc>,
    player: Disc,
    moves: Seq<(usize, usize)>,
    i: int,
    best: (usize, usize),
    best_val: int,
    j: int,
)
    requires
        0 <= i <= moves.len(),
        0 <= j < moves.len(),
        forall|t: int|
            i <= t < moves.len() && t != j ==> #[trigger] greedy_value(s, moves[t], player)
                < greedy_value(s, moves[j], player),
        i <= j ==> best_val < greedy_value(s, moves[j], player),
        i > j ==> best == moves[j] && best_val == greedy_value(s, moves[j], player),
    ensures
        greedy_from(s, player, moves, i, best, best_val) == moves[j],
    decreases moves.len() - i,
{
    if i < moves.len() {
        let v = greedy_value(s, moves[i], player);
        if v > best_val {
            lemma_greedy_from_max(s, player, moves, i + 1, moves[i], v, j);
        } else {
            lemma_greedy_from_max(s, player, moves, i + 1, best, best_val, j);
        }
    }
}

/// The greedy law: when one legal move yields strictly more resulting
/// pieces for the acting side than every other legal move does, the
/// greedy strategy selects exactly that move.
pub proof fn lemma_greedy_picks_strict_max(s: Seq<Disc>, player: Disc, j: int)
    requires
        is_side(player),
        0 <= j < moves_seq(s, player).len(),
        forall|t: int|
            0 <= t < moves_seq(s, player).len() && t != j ==> #[trigger] greedy_value(
                s,
                moves_seq(s, player)[t],
                player,
            ) < greedy_value(s, moves_seq(s, player)[j], player),
    ensures
        greedy_choice(s, player) == moves_seq(s, player)[j],
{
    let moves = moves_seq(s, player);
    lemma_moves_valid(s, player);
    let mv = moves[j];
    assert(valid_move(s, mv.0 as int, mv.1 as int, player));
    let a = after_move(s, mv.0 as int, mv.1 as int, player);
    assert(a[flat(mv.0 as int, mv.1 as int)] == player);
    lemma_count_cell(a, player, flat(mv.0 as int, mv.1 as int));
    assert(0 < greedy_value(s, mv, player));
    lemma_greedy_from_max(s, player, moves, 0, moves[0], 0, j);
}

/// The side opposing `player`.
fn get_opponent(player: Disc) -> (res: Disc)
    ensures
        res == opposite(player),
{
    if player == Disc::Black {
        Disc::White
    } else {
        Disc::Black
    }
}

/// Positional weight of cell (r, c), folding the coordinate into the
/// top-left quadrant of the symmetric weight table.
fn position_value(r: usize, c: usize) -> (w: i32)
    requires
        r < 8,
        c < 8,
    ensures
        w as int == weight(r as int, c as int),
{
    let rr = if r < 4 {
        r
    } else {
        7 - r
    };
    let cc = if c < 4 {
        c
    } else {
        7 - c
    };
    if rr == 0 {
        if cc == 0 {
            100
        } else if cc == 1 {
            -20
        } else if cc == 2 {
            10
        } else {
            5
        }
    } else if rr == 1 {
        if cc == 0 {
            -20
        } else if cc == 1 {
            -50
        } else {
            -2
        }
    } else if rr == 2 {
        if cc == 0 {
            10
        } else if cc == 1 {
            -2
        } else {
            -1
        }
    } else {
        if cc == 0 {
            5
        } else if cc == 1 {
            -2
        } else {
            -1
        }
    }
}

/// Sum of the positional weights over all cells, signed by ownership.
fn calculate_positional_score(game: &Game, player: Disc) -> (res: i32)
    requires
        is_side(player),
    ensures
        res as int == positional_score(game.board@, player),
        -6400 <= res as int <= 6400,
{
    let mut score: i32 = 0;
    let mut i: usize = 0;
    while i < 64
        invariant
            is_side(player),
            i <= 64,
            score as int == positional_upto(game.board@, player, i as int),
            -100 * (i as int) <= score as int <= 100 * (i as int),
        decreases 64 - i,
    {
        let r = i / 8;
        let c = i % 8;
        proof {
            vstd::arithmetic::div_mod::lemma_fundamental_div_mod(i as int, 8);
            assert(-50 <= weight(r as int, c as int) <= 100);
        }
        match game.board().get_disc(r, c) {
            Some(disc) => {
                if disc == player {
                    score = score + position_value(r, c);
                } else if disc == get_opponent(player) {
                    score = score - position_value(r, c);
                }
            },
            None => {},
        }
        i += 1;
    }
    score
}

/// The heuristic static evaluation, executable form.
fn evaluate_board(game: &Game, player: Disc) -> (res: i32)
    requires
        is_side(player),
    ensures
        res as int == eval_score(game.board@, player),
{
    proof {
        lemma_count_bound(game.board@, Disc::Black, 64);
        lemma_count_bound(game.board@, Disc::White, 64);
        lemma_moves_valid(game.board@, player);
        lemma_moves_valid(game.board@, opposite(player));
    }
    let (black_count, white_count) = game.count_discs();
    let my_count = if player == Disc::Black {
        black_count
    } else {
        white_count
    };
    let opponent_count = if player == Disc::Black {
        white_count
    } else {
        black_count
    };
    let disc_diff = my_count as i32 - opponent_count as i32;
    let mobility = game.get_valid_moves(player).len() as i32 - game.get_valid_moves(
        get_opponent(player),
    ).len() as i32;
    let positional_score = calculate_positional_score(game, player);
    disc_diff + mobility * 5 + positional_score
}

/// The recursive alpha-beta search value: static evaluation at the
/// horizon or at a finished game; a half-ply pass (depth still shrinks,
/// the maximizing flag flips) when the side to move has no legal move;
/// otherwise a max- or min-fold over the legal moves in scan order,
/// pruning the remaining siblings as soon as beta <= alpha.
fn minimax(
    game: &Game,
    depth: i32,
    is_maximizing: bool,
    player: Disc,
    alpha: i32,
    beta: i32,
) -> (res: i32)
    requires
        0 <= depth,
        is_side(player),
    ensures
        res as int == minimax_spec(
            game.board@,
            depth as int,
            is_maximizing,
            player,
            alpha as int,
            beta as int,
        ),
    decreases depth,
{
    let ghost s = game.board@;
    if depth == 0 || game.is_game_over() {
        return evaluate_board(game, player);
    }
    let current_player = if is_maximizing {
        player
    } else {
        get_opponent(player)
    };
    let valid_moves = game.get_valid_moves(current_player);
    if valid_moves.is_empty() {
        return minimax(game, depth - 1, !is_maximizing, player, alpha, beta);
    }
    let ghost moves_g = valid_moves@;
    let mut alpha = alpha;
    let mut beta = beta;
    if is_maximizing {
        let ghost target = minimax_max_fold(
            s,
            depth as int,
            player,
            moves_g,
            0,
            i32::MIN as int,
            alpha as int,
            beta as int,
        );
        let mut max_score = i32::MIN;
        let mut idx: usize = 0;
        while idx < valid_moves.len()
            invariant_except_break
                minimax_max_fold(
                    s,
                    depth as int,
                    player,
                    moves_g,
                    idx as int,
                    max_score as int,
                    alpha as int,
                    beta as int,
                ) == target,
            invariant
                is_side(player),
                current_player == player,
                1 <= depth,
                s == game.board@,
                valid_moves@ == moves_g,
                moves_g == moves_seq(s, player),
                idx <= moves_g.len(),
            ensures
                max_score as int == target,
            decreases moves_g.len() - idx,
        {
            let ghost idx0 = idx as int;
            let ghost acc0 = max_score as int;
            let ghost alpha0 = alpha as int;
            let (r, c) = valid_moves[idx];
            proof {
                lemma_moves_valid(s, player);
                assert(moves_g[idx0] == (r, c));
                assert(valid_move(s, r as int, c as int, player));
            }
            let mut temp_game = game.clone();
            temp_game.make_move(r, c, current_player);
            let score = minimax(&temp_game, depth - 1, false, player, alpha, beta);
            if score > max_score {
                max_score = score;
            }
            if score > alpha {
                alpha = score;
            }
            proof {
                assert(minimax_max_fold(
                    s,
                    depth as int,
                    player,
                    moves_g,
                    idx0,
                    acc0,
                    alpha0,
                    beta as int,
                ) == (if beta as int <= alpha as int {
                    max_score as int
                } else {
                    minimax_max_fold(
                        s,
                        depth as int,
                        player,
                        moves_g,
                        idx0 + 1,
                        max_score as int,
                        alpha as int,
                        beta as int,
                    )
                }));
            }
            if beta <= alpha {
                break;
            }
            idx += 1;
        }
        max_score
    } else {
        let ghost target = minimax_min_fold(
            s,
            depth as int,
            player,
            moves_g,
            0,
            i32::MAX as int,
            alpha as int,
            beta as int,
        );
        let mut min_score = i32::MAX;
        let mut idx: usize = 0;
        while idx < valid_moves.len()
            invariant_except_break
                minimax_min_fold(
                    s,
                    depth as int,
                    player,
                    moves_g,
                    idx as int,
                    min_score as int,
                    alpha as int,
                    beta as int,
                ) == target,
            invariant
                is_side(player),
                current_player == opposite(player),
                is_side(current_player),
                1 <= depth,
                s == game.board@,
                valid_moves@ == moves_g,
                moves_g == moves_seq(s, current_player),
                idx <= moves_g.len(),
            ensures
                min_score as int == target,
            decreases moves_g.len() - idx,
        {
            let ghost idx0 = idx as int;
            let ghost acc0 = min_score as int;
            let ghost beta0 = beta as int;
            let (r, c) = valid_moves[idx];
            proof {
                lemma_moves_valid(s, current_player);
                assert(moves_g[idx0] == (r, c));
                assert(valid_move(s, r as int, c as int, current_player));
            }
            let mut temp_game = game.clone();
            temp_game.make_move(r, c, current_player);
            let score = minimax(&temp_game, depth - 1, true, player, alpha, beta);
            if score < min_score {
                min_score = score;
            }
            if score < beta {
                beta = score;
            }
            proof {
                assert(minimax_min_fold(
                    s,
                    depth as int,
                    player,
                    moves_g,
                    idx0,
                    acc0,
                    alpha as int,
                    beta0,
                ) == (if beta as int <= alpha as int {
                    min_score as int
                } else {
                    minimax_min_fold(
                        s,
                        depth as int,
                        player,
                        moves_g,
                        idx0 + 1,
                        min_score as int,
                        alpha as int,
                        beta as int,
                    )
                }));
            }
            if beta <= alpha {
                break;
            }
            idx += 1;
        }
        min_score
    }
}

/// Relies on rand::random_range over 0..len, rand's thread-local
/// generator: the sampled value lies in the given range, which the
/// precondition keeps non-empty so the call cannot panic on it.
#[verifier::external_body]
fn random_index(len: usize) -> (res: usize)
    requires
        len > 0,
    ensures
        res < len,
{
    rand::random_range(0..len)
}

/// Uniform-random choice among the legal moves.
fn get_random_move(valid_moves: &Vec<(usize, usize)>) -> (res: (usize, usize))
    requires
        valid_moves@.len() > 0,
    ensures
        valid_moves@.contains(res),
{
    let index = random_index(valid_moves.len());
    let res = valid_moves[index];
    proof {
        assert(valid_moves@.contains(valid_moves@[index as int]));
    }
    res
}

/// Single-ply greedy: plays every legal move on an independent copy,
/// measures the acting side's resulting total piece count, and keeps the
/// first strict maximizer.
fn get_greedy_move(game: &Game, valid_moves: &Vec<(usize, usize)>, player: Disc) -> (res: (
    usize,
    usize,
))
    requires
        is_side(player),
        valid_moves@.len() > 0,
        valid_moves@ == moves_seq(game.board@, player),
    ensures
        res == greedy_choice(game.board@, player),
        valid_moves@.contains(res),
{
    let ghost s = game.board@;
    let mut best_move = valid_moves[0];
    let mut max_flipped: u32 = 0;
    let mut idx: usize = 0;
    while idx < valid_moves.len()
        invariant
            is_side(player),
            s == game.board@,
            valid_moves@ == moves_seq(game.board@, player),
            valid_moves@.len() > 0,
            idx <= valid_moves@.len(),
            greedy_from(s, player, valid_moves@, idx as int, best_move, max_flipped as int)
                == greedy_from(s, player, valid_moves@, 0, valid_moves@[0], 0),
        decreases valid_moves@.len() - idx,
    {
        let ghost idx0 = idx as int;
        let ghost best0 = best_move;
        let ghost val0 = max_flipped as int;
        let (r, c) = valid_moves[idx];
        proof {
            lemma_moves_valid(s, player);
            assert(valid_moves@[idx0] == (r, c));
            assert(valid_move(s, r as int, c as int, player));
        }
        let mut temp_game = game.clone();
        temp_game.make_move(r, c, player);
        let (black_count, white_count) = temp_game.count_discs();
        let flipped_count = if player == Disc::Black {
            black_count
        } else {
            white_count
        };
        proof {
            assert(flipped_count as int == greedy_value(s, (r, c), player));
        }
        if flipped_count > max_flipped {
            max_flipped = flipped_count;
            best_move = (r, c);
        }
        idx += 1;
        proof {
            assert(greedy_from(s, player, valid_moves@, idx0, best0, val0) == greedy_from(
                s,
                player,
                valid_moves@,
                idx as int,
                best_move,
                max_flipped as int,
            ));
        }
    }
    proof {
        lemma_greedy_choice_in(s, player);
    }
    best_move
}

/// Fixed-depth minimax with alpha-beta pruning: scores every legal root
/// move at depth 4, the opponent moving next, and keeps the first strict
/// maximizer.
fn get_minimax_move(game: &Game, valid_moves: &Vec<(usize, usize)>, player: Disc) -> (res: (
    usize,
    usize,
))
    requires
        is_side(player),
        valid_moves@.len() > 0,
        valid_moves@ == moves_seq(game.board@, player),
    ensures
        res == minimax_choice(game.board@, player),
        valid_moves@.contains(res),
{
    let ghost s = game.board@;
    let mut best_move = valid_moves[0];
    let mut best_score = i32::MIN;
    let mut idx: usize = 0;
    while idx < valid_moves.len()
        invariant
            is_side(player),
            s == game.board@,
            valid_moves@ == moves_seq(game.board@, player),
            valid_moves@.len() > 0,
            idx <= valid_moves@.len(),
            minimax_from(s, player, valid_moves@, idx as int, best_move, best_score as int)
                == minimax_from(s, player, valid_moves@, 0, valid_moves@[0], i32::MIN as int),
        decreases valid_moves@.len() - idx,
    {
        let ghost idx0 = idx as int;
        let ghost best0 = best_move;
        let ghost score0 = best_score as int;
        let (r, c) = valid_moves[idx];
        proof {
            lemma_moves_valid(s, player);
            assert(valid_moves@[idx0] == (r, c));
            assert(valid_move(s, r as int, c as int, player));
        }
        let mut temp_game = game.clone();
        temp_game.make_move(r, c, player);
        let score = minimax(&temp_game, 4, false, player, i32::MIN, i32::MAX);
        proof {
            assert(score as int == root_value(s, (r, c), player));
        }
        if score > best_score {
            best_score = score;
            best_move = (r, c);
        }
        idx += 1;
        proof {
            assert(minimax_from(s, player, valid_moves@, idx0, best0, score0) == minimax_from(
                s,
                player,
                valid_moves@,
                idx as int,
                best_move,
                best_score as int,
            ));
        }
    }
    proof {
        lemma_minimax_choice_in(s, player);
    }
    best_move
}

/// The selected move for `player` at the given difficulty. When `player`
/// has no legal move the result is the placeholder (0, 0): callers must
/// check the legal moves first, as the contract's distinction shows.
pub fn get_best_move(game: &Game, player: Disc, level: CpuLevel) -> (res: (usize, usize))
    requires
        is_side(player),
    ensures
        moves_seq(game.board@, player).len() == 0 ==> res == (0usize, 0usize),
        moves_seq(game.board@, player).len() > 0 ==> moves_seq(game.board@, player).contains(res)
            && valid_move(game.board@, res.0 as int, res.1 as int, player),
        moves_seq(game.board@, player).len() > 0 && level is Medium ==> res == greedy_choice(
            game.board@,
            player,
        ),
        moves_seq(game.board@, player).len() > 0 && level is Hard ==> res == minimax_choice(
            game.board@,
            player,
        ),
{
    let valid_moves = game.get_valid_moves(player);
    if valid_moves.is_empty() {
        return (0, 0);
    }
    let res = match level {
        CpuLevel::Easy => get_random_move(&valid_moves),
        CpuLevel::Medium => get_greedy_move(game, &valid_moves, player),
        CpuLevel::Hard => get_minimax_move(game, &valid_moves, player),
    };
    proof {
        lemma_moves_exact(game.board@, player, res.0, res.1);
        assert(moves_seq(game.board@, player).contains((res.0, res.1)));
    }
    res
}

} // verus!
