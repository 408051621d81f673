//! The mathematical model of the capture rule: rays, validating
//! directions, the board after a move, piece counts and the legal-move
//! list, together with the laws that relate them.

use vstd::prelude::*;

use crate::board::{at, flat, in_bounds, is_side, opposite, start_config, Disc};

verus! {

/// Row coordinate `i` steps along direction (dr, dc) from `row`.
pub open spec fn ray_r(row: int, dr: int, i: int) -> int {
    row + i * dr
}

/// Column coordinate `i` steps along direction (dr, dc) from `col`.
pub open spec fn ray_c(col: int, dc: int, i: int) -> int {
    col + i * dc
}

/// Whether the cell `i` steps along the ray lies on the grid.
pub open spec fn ray_ok(row: int, col: int, dr: int, dc: int, i: int) -> bool {
    in_bounds(ray_r(row, dr, i), ray_c(col, dc, i))
}

/// The disc `i` steps along the ray.
pub open spec fn ray_at(s: Seq<Disc>, row: int, col: int, dr: int, dc: int, i: int) -> Disc {
    at(s, ray_r(row, dr, i), ray_c(col, dc, i))
}

/// Steps 1..=n along the ray all lie on the grid and hold the side
/// opposing `player`.
pub open spec fn opp_run(
    s: Seq<Disc>,
    row: int,
    col: int,
    dr: int,
    dc: int,
    player: Disc,
    n: int,
) -> bool {
    forall|i: int|
        #![trigger ray_ok(row, col, dr, dc, i)]
        #![trigger ray_at(s, row, col, dr, dc, i)]
        1 <= i <= n ==> ray_ok(row, col, dr, dc, i) && ray_at(s, row, col, dr, dc, i) == opposite(
            player,
        )
}

/// Direction (dr, dc) validates a move at (row, col) with a run of
/// exactly `n` opposing discs: steps 1..=n hold the opponent and step
/// n + 1 holds `player`'s own disc.
pub open spec fn run_capture(
    s: Seq<Disc>,
    row: int,
    col: int,
    dr: int,
    dc: int,
    player: Disc,
    n: int,
) -> bool {
    &&& 1 <= n
    &&& opp_run(s, row, col, dr, dc, player, n)
    &&& ray_ok(row, col, dr, dc, n + 1)
    &&& ray_at(s, row, col, dr, dc, n + 1) == player
}

/// Direction (dr, dc) validates a move at (row, col) for `player`.
pub open spec fn dir_captures(
    s: Seq<Disc>,
    row: int,
    col: int,
    dr: int,
    dc: int,
    player: Disc,
) -> bool {
    exists|n: int| #[trigger] run_capture(s, row, col, dr, dc, player, n)
}

/// The length of the validating run of direction (dr, dc), when one
/// exists.
pub open spec fn capture_len(
    s: Seq<Disc>,
    row: int,
    col: int,
    dr: int,
    dc: int,
    player: Disc,
) -> int {
    choose|n: int| run_capture(s, row, col, dr, dc, player, n)
}

/// Row delta of compass direction `d`, in the fixed enumeration order.
pub open spec fn dir_r(d: int) -> int {
    if d == 0 || d == 1 || d == 2 {
        -1
    } else if d == 3 || d == 4 {
        0
    } else {
        1
    }
}

/// Column delta of compass direction `d`, in the fixed enumeration order.
pub open spec fn dir_c(d: int) -> int {
    if d == 0 || d == 3 || d == 5 {
        -1
    } else if d == 1 || d == 6 {
        0
    } else {
        1
    }
}

/// (row, col) is a legal move for `player`: an empty cell on the grid
/// from which at least one compass direction validates.
pub open spec fn valid_move(s: Seq<Disc>, row: int, col: int, player: Disc) -> bool {
    &&& in_bounds(row, col)
    &&& at(s, row, col) == Disc::Empty
    &&& exists|d: int|
        0 <= d < 8 && #[trigger] dir_captures(s, row, col, dir_r(d), dir_c(d), player)
}

/// Whether flat cell `k` lies on the first `n` steps of the ray.
pub open spec fn on_run(row: int, col: int, dr: int, dc: int, n: int, k: int) -> bool {
    exists|i: int|
        1 <= i <= n && #[trigger] ray_ok(row, col, dr, dc, i) && k == flat(
            ray_r(row, dr, i),
            ray_c(col, dc, i),
        )
}

/// Whether flat cell `k` is flipped when `player` plays (row, col),
/// counting only the validating runs of the first `d` directions.
pub open spec fn flipped_upto(
    s: Seq<Disc>,
    row: int,
    col: int,
    player: Disc,
    d: int,
    k: int,
) -> bool {
    exists|j: int|
        0 <= j < d && #[trigger] dir_captures(s, row, col, dir_r(j), dir_c(j), player) && on_run(
            row,
            col,
            dir_r(j),
            dir_c(j),
            capture_len(s, row, col, dir_r(j), dir_c(j), player),
            k,
        )
}

/// Whether flat cell `k` is flipped when `player` plays (row, col): it
/// lies on the validating run of some compass direction.
pub open spec fn flips(s: Seq<Disc>, row: int, col: int, player: Disc, k: int) -> bool {
    flipped_upto(s, row, col, player, 8, k)
}

/// The grid after `player` plays (row, col): the played cell and every
/// flipped cell hold `player`'s disc, all other cells are unchanged.
pub open spec fn after_move(s: Seq<Disc>, row: int, col: int, player: Disc) -> Seq<Disc> {
    Seq::new(
        64,
        |k: int|
            (if flips(s, row, col, player, k) {
                player
            } else if k == flat(row, col) {
                player
            } else {
                s[k]
            }),
    )
}

/// Number of cells among flat indices 0..k that hold disc `d`.
pub open spec fn count_upto(s: Seq<Disc>, d: Disc, k: int) -> int
    decreases k,
{
    if k <= 0 {
        0
    } else {
        count_upto(s, d, k - 1) + (if s[k - 1] == d {
            1int
        } else {
            0int
        })
    }
}

/// Number of cells of the whole grid that hold disc `d`.
pub open spec fn count(s: Seq<Disc>, d: Disc) -> int {
    count_upto(s, d, 64)
}

/// The legal moves of `player` with flat index below `k`, in row-major
/// scan order.
pub open spec fn moves_upto(s: Seq<Disc>, player: Disc, k: int) -> Seq<(usize, usize)>
    decreases k,
{
    if k <= 0 {
        Seq::empty()
    } else {
        let rest = moves_upto(s, player, k - 1);
        if valid_move(s, (k - 1) / 8, (k - 1) % 8, player) {
            rest.push(((((k - 1) / 8) as usize, ((k - 1) % 8) as usize)))
        } else {
            rest
        }
    }
}

/// All legal moves of `player`, in row-major scan order.
pub open spec fn moves_seq(s: Seq<Disc>, player: Disc) -> Seq<(usize, usize)> {
    moves_upto(s, player, 64)
}

/// Whether `player` has at least one legal move.
pub open spec fn has_any_move(s: Seq<Disc>, player: Disc) -> bool {
    exists|r: int, c: int| #[trigger] valid_move(s, r, c, player)
}

/// The game is over exactly when neither side has a legal move.
pub open spec fn game_over(s: Seq<Disc>) -> bool {
    !has_any_move(s, Disc::Black) && !has_any_move(s, Disc::White)
}

/// A validating run has exactly one length: the first own-side disc along
/// the ray ends it.
pub proof fn lemma_run_capture_unique(
    s: Seq<Disc>,
    row: int,
    col: int,
    dr: int,
    dc: int,
    player: Disc,
    n: int,
    m: int,
)
    requires
        run_capture(s, row, col, dr, dc, player, n),
        run_capture(s, row, col, dr, dc, player, m),
    ensures
        n == m,
{
    if n < m {
        assert(ray_at(s, row, col, dr, dc, n + 1) == opposite(player));
        assert(opposite(player) != player);
    }
    if m < n {
        assert(ray_at(s, row, col, dr, dc, m + 1) == opposite(player));
        assert(opposite(player) != player);
    }
}

/// A witnessed run fixes `capture_len`.
pub proof fn lemma_capture_len(
    s: Seq<Disc>,
    row: int,
    col: int,
    dr: int,
    dc: int,
    player: Disc,
    n: int,
)
    requires
        run_capture(s, row, col, dr, dc, player, n),
    ensures
        dir_captures(s, row, col, dr, dc, player),
        capture_len(s, row, col, dr, dc, player) == n,
{
    assert(dir_captures(s, row, col, dr, dc, player));
    let m = capture_len(s, row, col, dr, dc, player);
    assert(run_capture(s, row, col, dr, dc, player, m));
    lemma_run_capture_unique(s, row, col, dr, dc, player, n, m);
}

/// A flipped cell lies on the grid and held the opponent's disc before
/// the move.
pub proof fn lemma_flips_is_opponent(s: Seq<Disc>, row: int, col: int, player: Disc, k: int)
    requires
        flips(s, row, col, player, k),
    ensures
        0 <= k < 64,
        s[k] == opposite(player),
{
    let j = choose|j: int|
        0 <= j < 8 && #[trigger] dir_captures(s, row, col, dir_r(j), dir_c(j), player) && on_run(
            row,
            col,
            dir_r(j),
            dir_c(j),
            capture_len(s, row, col, dir_r(j), dir_c(j), player),
            k,
        );
    let dr = dir_r(j);
    let dc = dir_c(j);
    let n = capture_len(s, row, col, dr, dc, player);
    assert(run_capture(s, row, col, dr, dc, player, n));
    let i = choose|i: int|
        1 <= i <= n && #[trigger] ray_ok(row, col, dr, dc, i) && k == flat(
            ray_r(row, dr, i),
            ray_c(col, dc, i),
        );
    assert(ray_at(s, row, col, dr, dc, i) == opposite(player));
}

/// Stepping once more along a ray adds one delta.
pub proof fn lemma_ray_step(i: int, d: int)
    ensures
        (i + 1) * d == i * d + d,
{
    assert((i + 1) * d == i * d + d) by (nonlinear_arith);
}

/// A delta of -1, 0 or 1 scales a step count to minus itself, zero or
/// itself.
pub proof fn lemma_ray_scale(i: int, d: int)
    requires
        -1 <= d <= 1,
    ensures
        d == 1 ==> i * d == i,
        d == -1 ==> i * d == -i,
        d == 0 ==> i * d == 0,
{
    assert(d == 1 ==> i * d == i) by (nonlinear_arith);
    assert(d == -1 ==> i * d == -i) by (nonlinear_arith);
    assert(d == 0 ==> i * d == 0) by (nonlinear_arith);
}

/// A count over the first k cells lies between 0 and k.
pub proof fn lemma_count_bound(s: Seq<Disc>, d: Disc, k: int)
    requires
        0 <= k,
    ensures
        0 <= count_upto(s, d, k) <= k,
    decreases k,
{
    if k > 0 {
        lemma_count_bound(s, d, k - 1);
    }
}

/// Counting over a longer prefix never loses cells.
pub proof fn lemma_count_mono(s: Seq<Disc>, d: Disc, i: int, j: int)
    requires
        0 <= i <= j,
    ensures
        count_upto(s, d, i) <= count_upto(s, d, j),
    decreases j,
{
    if i < j {
        lemma_count_mono(s, d, i, j - 1);
    }
}

/// A grid with disc `d` at flat cell `k` counts at least one `d`.
pub proof fn lemma_count_cell(s: Seq<Disc>, d: Disc, k: int)
    requires
        0 <= k < 64,
        s[k] == d,
    ensures
        count(s, d) >= 1,
{
    lemma_count_bound(s, d, k);
    assert(count_upto(s, d, k + 1) >= 1);
    lemma_count_mono(s, d, k + 1, 64);
}

proof fn lemma_start_counts_upto(k: int)
    requires
        0 <= k <= 64,
    ensures
        count_upto(start_config(), Disc::Black, k) == (if k >= 29 {
            1int
        } else {
            0int
        }) + (if k >= 36 {
            1int
        } else {
            0int
        }),
        count_upto(start_config(), Disc::White, k) == (if k >= 28 {
            1int
        } else {
            0int
        }) + (if k >= 37 {
            1int
        } else {
            0int
        }),
        count_upto(start_config(), Disc::Empty, k) == k - count_upto(start_config(), Disc::Black, k)
            - count_upto(start_config(), Disc::White, k),
    decreases k,
{
    if k > 0 {
        lemma_start_counts_upto(k - 1);
    }
}

/// The starting position holds exactly two discs of each side: four
/// occupied cells in all, the other sixty cells empty.
pub proof fn lemma_start_counts()
    ensures
        count(start_config(), Disc::Black) == 2,
        count(start_config(), Disc::White) == 2,
        count(start_config(), Disc::Empty) == 60,
{
    lemma_start_counts_upto(64);
}

/// After a successful move the played cell and every flipped cell hold
/// the acting side's disc, every flipped cell previously held the
/// opponent's, and every other cell is unchanged.
pub proof fn lemma_after_move_cells(s: Seq<Disc>, row: int, col: int, player: Disc)
    requires
        s.len() == 64,
        is_side(player),
        valid_move(s, row, col, player),
    ensures
        after_move(s, row, col, player).len() == 64,
        at(after_move(s, row, col, player), row, col) == player,
        forall|k: int|
            #![trigger flips(s, row, col, player, k)]
            0 <= k < 64 && flips(s, row, col, player, k) ==> after_move(s, row, col, player)[k]
                == player && s[k] == opposite(player),
        forall|k: int|
            #![trigger after_move(s, row, col, player)[k]]
            0 <= k < 64 && !flips(s, row, col, player, k) && k != flat(row, col) ==> after_move(
                s,
                row,
                col,
                player,
            )[k] == s[k],
{
    assert(0 <= flat(row, col) < 64);
    assert forall|k: int| 0 <= k < 64 && flips(s, row, col, player, k) implies after_move(
        s,
        row,
        col,
        player,
    )[k] == player && s[k] == opposite(player) by {
        lemma_flips_is_opponent(s, row, col, player, k);
    }
}

proof fn lemma_total_upto(s: Seq<Disc>, row: int, col: int, player: Disc, k: int)
    requires
        s.len() == 64,
        is_side(player),
        valid_move(s, row, col, player),
        0 <= k <= 64,
    ensures
        count_upto(after_move(s, row, col, player), Disc::Black, k) + count_upto(
            after_move(s, row, col, player),
            Disc::White,
            k,
        ) == count_upto(s, Disc::Black, k) + count_upto(s, Disc::White, k) + (if flat(row, col)
            < k {
            1int
        } else {
            0int
        }),
    decreases k,
{
    let a = after_move(s, row, col, player);
    if k > 0 {
        lemma_total_upto(s, row, col, player, k - 1);
        if k - 1 == flat(row, col) {
            assert(s[k - 1] == Disc::Empty);
            if flips(s, row, col, player, k - 1) {
                lemma_flips_is_opponent(s, row, col, player, k - 1);
            }
            assert(a[k - 1] == player);
        } else if flips(s, row, col, player, k - 1) {
            lemma_flips_is_opponent(s, row, col, player, k - 1);
            assert(a[k - 1] == player);
        } else {
            assert(a[k - 1] == s[k - 1]);
        }
    }
}

/// Each successful move adds exactly one disc to the grid: the tally of
/// both sides together grows by one, since flips preserve the total.
pub proof fn lemma_apply_total(s: Seq<Disc>, row: int, col: int, player: Disc)
    requires
        s.len() == 64,
        is_side(player),
        valid_move(s, row, col, player),
    ensures
        count(after_move(s, row, col, player), Disc::Black) + count(
            after_move(s, row, col, player),
            Disc::White,
        ) == count(s, Disc::Black) + count(s, Disc::White) + 1,
{
    lemma_total_upto(s, row, col, player, 64);
}

/// A flat index determines its coordinate pair: the row is the quotient
/// and the column the remainder by the grid width.
pub proof fn lemma_flat_inverse(r: int, c: int, k: int)
    requires
        in_bounds(r, c),
        flat(r, c) == k,
    ensures
        k / 8 == r,
        k % 8 == c,
        0 <= k < 64,
{
    vstd::arithmetic::div_mod::lemma_fundamental_div_mod_converse(k, 8, r, c);
}

proof fn lemma_moves_upto_props(s: Seq<Disc>, player: Disc, k: int)
    requires
        0 <= k <= 64,
    ensures
        moves_upto(s, player, k).len() <= k,
        forall|j: int|
            0 <= j < moves_upto(s, player, k).len() ==> valid_move(
                s,
                (#[trigger] moves_upto(s, player, k)[j]).0 as int,
                moves_upto(s, player, k)[j].1 as int,
                player,
            ),
        forall|r: int, c: int|
            in_bounds(r, c) && flat(r, c) < k && #[trigger] valid_move(s, r, c, player)
                ==> moves_upto(s, player, k).contains(((r as usize, c as usize))),
    decreases k,
{
    if k > 0 {
        lemma_moves_upto_props(s, player, k - 1);
        let rest = moves_upto(s, player, k - 1);
        let cur = moves_upto(s, player, k);
        let r0 = (k - 1) / 8;
        let c0 = (k - 1) % 8;
        if valid_move(s, r0, c0, player) {
            assert(cur == rest.push(((r0 as usize, c0 as usize))));
            assert(in_bounds(r0, c0));
            assert forall|j: int| 0 <= j < cur.len() implies valid_move(
                s,
                (#[trigger] cur[j]).0 as int,
                cur[j].1 as int,
                player,
            ) by {
                if j < rest.len() {
                    assert(cur[j] == rest[j]);
                } else {
                    assert(cur[j] == (r0 as usize, c0 as usize));
                }
            }
            assert forall|r: int, c: int|
                in_bounds(r, c) && flat(r, c) < k && #[trigger] valid_move(
                    s,
                    r,
                    c,
                    player,
                ) implies cur.contains(((r as usize, c as usize))) by {
                if flat(r, c) < k - 1 {
                    assert(rest.contains(((r as usize, c as usize))));
                    let j = choose|j: int|
                        0 <= j < rest.len() && rest[j] == ((r as usize, c as usize));
                    assert(cur[j] == rest[j]);
                } else {
                    lemma_flat_inverse(r, c, k - 1);
                    assert(cur[cur.len() - 1] == ((r as usize, c as usize)));
                }
            }
        } else {
            assert(cur == rest);
            assert forall|r: int, c: int|
                in_bounds(r, c) && flat(r, c) < k && #[trigger] valid_move(
                    s,
                    r,
                    c,
                    player,
                ) implies cur.contains(((r as usize, c as usize))) by {
                if flat(r, c) == k - 1 {
                    lemma_flat_inverse(r, c, k - 1);
                }
            }
        }
    }
}

/// The legal-move list is exactly the set of legal moves: it contains a
/// cell if and only if the single-cell check holds of it.
pub proof fn lemma_moves_exact(s: Seq<Disc>, player: Disc, r: usize, c: usize)
    ensures
        moves_seq(s, player).contains((r, c)) <==> valid_move(s, r as int, c as int, player),
{
    lemma_moves_upto_props(s, player, 64);
    if moves_seq(s, player).contains((r, c)) {
        let j = choose|j: int|
            0 <= j < moves_seq(s, player).len() && moves_seq(s, player)[j] == (r, c);
        assert(valid_move(
            s,
            moves_seq(s, player)[j].0 as int,
            moves_seq(s, player)[j].1 as int,
            player,
        ));
    }
    if valid_move(s, r as int, c as int, player) {
        assert(flat(r as int, c as int) < 64);
        assert(moves_seq(s, player).contains((((r as int) as usize, (c as int) as usize))));
    }
}

/// Every entry of the legal-move list is a legal move.
pub proof fn lemma_moves_valid(s: Seq<Disc>, player: Disc)
    ensures
        forall|j: int|
            0 <= j < moves_seq(s, player).len() ==> valid_move(
                s,
                (#[trigger] moves_seq(s, player)[j]).0 as int,
                moves_seq(s, player)[j].1 as int,
                player,
            ),
        moves_seq(s, player).len() <= 64,
{
    lemma_moves_upto_props(s, player, 64);
}

/// The legal-move list is empty exactly when the side has no legal move
/// anywhere on the grid.
pub proof fn lemma_no_moves_iff_empty(s: Seq<Disc>, player: Disc)
    ensures
        moves_seq(s, player).len() == 0 <==> !has_any_move(s, player),
{
    lemma_moves_upto_props(s, player, 64);
    if moves_seq(s, player).len() > 0 {
        let m = moves_seq(s, player)[0];
        assert(valid_move(s, moves_seq(s, player)[0].0 as int, moves_seq(s, player)[0].1 as int, player));
        assert(has_any_move(s, player));
    }
    if has_any_move(s, player) {
        let (r, c) = choose|r: int, c: int| #[trigger] valid_move(s, r, c, player);
        assert(flat(r, c) < 64);
        assert(moves_seq(s, player).contains(((r as usize, c as usize))));
    }
}

} // verus!
