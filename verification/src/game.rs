//! The rules engine: a grid plus the side to move, legality checking,
//! move application with capture, termination detection and piece
//! tallies.

use vstd::prelude::*;

use crate::board::{at, flat, is_side, opposite, start_config, Board, Disc};
use crate::rules::{
    after_move, capture_len, count, count_upto, dir_c, dir_captures, dir_r, flipped_upto,
    game_over, lemma_capture_len, lemma_no_moves_iff_empty, lemma_ray_scale, lemma_ray_step,
    moves_seq, moves_upto, on_run, opp_run, ray_at, ray_c, ray_ok, ray_r, run_capture, valid_move,
};

verus! {

/// The authoritative game state: a grid and whose turn it is.
#[derive(Clone, Copy)]
pub struct Game {
    pub board: Board,
    pub current_turn: Disc,
}

/// The deltas of compass direction `d`, in the fixed enumeration order.
fn dir_delta(d: usize) -> (res: (i32, i32))
    requires
        d < 8,
    ensures
        res.0 as int == dir_r(d as int),
        res.1 as int == dir_c(d as int),
        -1 <= res.0 as int <= 1,
        -1 <= res.1 as int <= 1,
        !(res.0 == 0 && res.1 == 0),
{
    if d == 0 {
        (-1, -1)
    } else if d == 1 {
        (-1, 0)
    } else if d == 2 {
        (-1, 1)
    } else if d == 3 {
        (0, -1)
    } else if d == 4 {
        (0, 1)
    } else if d == 5 {
        (1, -1)
    } else if d == 6 {
        (1, 0)
    } else {
        (1, 1)
    }
}

/// What one walk along a direction reports: the length of the validating
/// run when the direction validates, and nothing otherwise.
pub open spec fn scan_ok(
    s: Seq<Disc>,
    row: int,
    col: int,
    player: Disc,
    j: int,
    res: Option<usize>,
) -> bool {
    match res {
        Some(n) => run_capture(s, row, col, dir_r(j), dir_c(j), player, n as int),
        None => !dir_captures(s, row, col, dir_r(j), dir_c(j), player),
    }
}

/// Walks outward from (row, col) along (dr, dc) one step at a time:
/// reports the length of the consecutive opposing run when it is ended
/// by an own-side disc, and `None` when the walk hits an empty cell, an
/// immediate own-side disc, or the edge of the grid.
fn scan_dir(board: &Board, row: usize, col: usize, dr: i32, dc: i32, player: Disc) -> (res: Option<
    usize,
>)
    requires
        row < 8,
        col < 8,
        is_side(player),
        -1 <= dr as int <= 1,
        -1 <= dc as int <= 1,
        !(dr == 0 && dc == 0),
    ensures
        res matches Some(n) ==> run_capture(
            board@,
            row as int,
            col as int,
            dr as int,
            dc as int,
            player,
            n as int,
        ),
        res is None ==> !dir_captures(
            board@,
            row as int,
            col as int,
            dr as int,
            dc as int,
            player,
        ),
{
    let opp = if player == Disc::Black {
        Disc::White
    } else {
        Disc::Black
    };
    let ghost s = board@;
    let ghost rowi = row as int;
    let ghost coli = col as int;
    let ghost dri = dr as int;
    let ghost dci = dc as int;
    let mut r: i32 = row as i32 + dr;
    let mut c: i32 = col as i32 + dc;
    let mut k: usize = 1;
    proof {
        lemma_ray_scale(1, dri);
        lemma_ray_scale(1, dci);
    }
    while 0 <= r && r < 8 && 0 <= c && c < 8
        invariant
            s == board@,
            row < 8,
            col < 8,
            is_side(player),
            opp == opposite(player),
            -1 <= dri <= 1,
            -1 <= dci <= 1,
            !(dri == 0 && dci == 0),
            dri == dr as int,
            dci == dc as int,
            rowi == row as int,
            coli == col as int,
            1 <= k <= 8,
            r as int == ray_r(rowi, dri, k as int),
            c as int == ray_c(coli, dci, k as int),
            opp_run(s, rowi, coli, dri, dci, player, k as int - 1),
        decreases 10 - k,
    {
        let ghost k0 = k as int;
        proof {
            lemma_ray_scale(k0, dri);
            lemma_ray_scale(k0, dci);
            assert(k0 <= 7);
            assert(ray_ok(rowi, coli, dri, dci, k0));
        }
        let d = board.get_disc(r as usize, c as usize).unwrap();
        proof {
            assert(d == ray_at(s, rowi, coli, dri, dci, k0));
        }
        if d == opp {
            proof {
                lemma_ray_step(k0, dri);
                lemma_ray_step(k0, dci);
            }
            r = r + dr;
            c = c + dc;
            k = k + 1;
            proof {
                assert forall|i: int| 1 <= i <= k as int - 1 implies ray_ok(
                    rowi,
                    coli,
                    dri,
                    dci,
                    i,
                ) && ray_at(s, rowi, coli, dri, dci, i) == opposite(player) by {
                    if i < k0 {
                        assert(ray_ok(rowi, coli, dri, dci, i));
                    }
                }
            }
        } else if d == player {
            if k > 1 {
                proof {
                    assert(run_capture(s, rowi, coli, dri, dci, player, k0 - 1));
                }
                return Some(k - 1);
            } else {
                proof {
                    assert forall|n: int| !run_capture(s, rowi, coli, dri, dci, player, n) by {
                        if run_capture(s, rowi, coli, dri, dci, player, n) {
                            assert(ray_at(s, rowi, coli, dri, dci, 1) == opposite(player));
                            assert(false);
                        }
                    }
                }
                return None;
            }
        } else {
            proof {
                assert(d == Disc::Empty);
                assert forall|n: int| !run_capture(s, rowi, coli, dri, dci, player, n) by {
                    if run_capture(s, rowi, coli, dri, dci, player, n) {
                        if n + 1 < k0 {
                            assert(ray_at(s, rowi, coli, dri, dci, n + 1) == opposite(player));
                            assert(false);
                        } else if n + 1 == k0 {
                            assert(ray_at(s, rowi, coli, dri, dci, k0) == Disc::Empty);
                            assert(false);
                        } else {
                            assert(1 <= k0 <= n);
                            assert(ray_at(s, rowi, coli, dri, dci, k0) == opposite(player));
                            assert(false);
                        }
                    }
                }
            }
            return None;
        }
    }
    proof {
        let ki = k as int;
        assert(!ray_ok(rowi, coli, dri, dci, ki));
        assert forall|n: int| !run_capture(s, rowi, coli, dri, dci, player, n) by {
            if run_capture(s, rowi, coli, dri, dci, player, n) {
                if n + 1 < ki {
                    assert(ray_at(s, rowi, coli, dri, dci, n + 1) == opposite(player));
                    assert(false);
                } else if n + 1 == ki {
                    assert(ray_ok(rowi, coli, dri, dci, ki));
                    assert(false);
                } else {
                    assert(1 <= ki <= n);
                    assert(ray_ok(rowi, coli, dri, dci, ki));
                    assert(false);
                }
            }
        }
    }
    None
}

impl Game {
    /// A new game: the canonical starting position, first side to move.
    pub fn new() -> (res: Game)
        ensures
            res.board@ == start_config(),
            res.current_turn == Disc::Black,
    {
        Game { board: Board::new(), current_turn: Disc::Black }
    }

    /// The side to move.
    pub fn current_turn(&self) -> (res: Disc)
        ensures
            res == self.current_turn,
    {
        self.current_turn
    }

    /// A read-only view of the grid.
    pub fn board(&self) -> (res: &Board)
        ensures
            res@ == self.board@,
    {
        &self.board
    }

    /// Whether (row, col) is a legal move for `player`: the cell is empty
    /// and at least one compass direction validates.
    pub fn is_valid_move(&self, row: usize, col: usize, player: Disc) -> (res: bool)
        requires
            is_side(player),
        ensures
            res == valid_move(self.board@, row as int, col as int, player),
    {
        match self.board.get_disc(row, col) {
            Some(Disc::Empty) => {},
            _ => {
                return false;
            },
        }
        let mut d: usize = 0;
        while d < 8
            invariant
                row < 8,
                col < 8,
                is_side(player),
                d <= 8,
                at(self.board@, row as int, col as int) == Disc::Empty,
                forall|j: int|
                    0 <= j < d as int ==> !dir_captures(
                        self.board@,
                        row as int,
                        col as int,
                        dir_r(j),
                        dir_c(j),
                        player,
                    ),
            decreases 8 - d,
        {
            let (dr, dc) = dir_delta(d);
            match scan_dir(&self.board, row, col, dr, dc, player) {
                Some(_n) => {
                    proof {
                        assert(dir_captures(
                            self.board@,
                            row as int,
                            col as int,
                            dir_r(d as int),
                            dir_c(d as int),
                            player,
                        ));
                    }
                    return true;
                },
                None => {},
            }
            d += 1;
        }
        false
    }

    /// Every legal move of `player`, scanning all 64 cells in row-major
    /// order.
    pub fn get_valid_moves(&self, player: Disc) -> (res: Vec<(usize, usize)>)
        requires
            is_side(player),
        ensures
            res@ == moves_seq(self.board@, player),
    {
        let mut res: Vec<(usize, usize)> = Vec::new();
        let mut i: usize = 0;
        while i < 64
            invariant
                is_side(player),
                i <= 64,
                res@ == moves_upto(self.board@, player, i as int),
            decreases 64 - i,
        {
            let r = i / 8;
            let c = i % 8;
            if self.is_valid_move(r, c, player) {
                res.push((r, c));
            }
            i += 1;
        }
        res
    }

    /// Applies `player`'s move at (row, col): fails and leaves the state
    /// unchanged when the move is not legal; otherwise places the disc,
    /// flips every captured run, and passes the turn to the other side.
    /// This is the sole mutator of game state, and it never partially
    /// applies a flip sequence.
    pub fn make_move(&mut self, row: usize, col: usize, player: Disc) -> (res: bool)
        requires
            is_side(player),
        ensures
            res == valid_move(old(self).board@, row as int, col as int, player),
            !res ==> *final(self) == *old(self),
            res ==> final(self).board@ == after_move(
                old(self).board@,
                row as int,
                col as int,
                player,
            ),
            res ==> final(self).current_turn == opposite(old(self).current_turn),
    {
        if !self.is_valid_move(row, col, player) {
            return false;
        }
        let ghost s0 = self.board@;
        let ghost rowi = row as int;
        let ghost coli = col as int;
        proof {
            self.board.lemma_view_len();
        }
        // First record the validating run of each direction on the
        // unchanged grid.
        let mut runs: Vec<Option<usize>> = Vec::new();
        let mut d: usize = 0;
        while d < 8
            invariant
                d <= 8,
                runs@.len() == d as int,
                row < 8,
                col < 8,
                is_side(player),
                rowi == row as int,
                coli == col as int,
                s0 == self.board@,
                *self == *old(self),
                forall|j: int|
                    0 <= j < d as int ==> scan_ok(s0, rowi, coli, player, j, #[trigger] runs@[j]),
            decreases 8 - d,
        {
            let (dr, dc) = dir_delta(d);
            let sc = scan_dir(&self.board, row, col, dr, dc, player);
            runs.push(sc);
            d += 1;
        }
        // Place the disc, then flip each recorded run.
        self.board.put_disc(row, col, player);
        let mut d: usize = 0;
        while d < 8
            invariant
                d <= 8,
                row < 8,
                col < 8,
                is_side(player),
                rowi == row as int,
                coli == col as int,
                runs@.len() == 8,
                forall|j: int|
                    0 <= j < 8 ==> scan_ok(s0, rowi, coli, player, j, #[trigger] runs@[j]),
                self.current_turn == old(self).current_turn,
                s0.len() == 64,
                self.board@.len() == 64,
                valid_move(s0, rowi, coli, player),
                forall|k: int|
                    0 <= k < 64 ==> #[trigger] self.board@[k] == (if flipped_upto(
                        s0,
                        rowi,
                        coli,
                        player,
                        d as int,
                        k,
                    ) {
                        player
                    } else if k == flat(rowi, coli) {
                        player
                    } else {
                        s0[k]
                    }),
            decreases 8 - d,
        {
            let ghost d0 = d as int;
            let ghost dri = dir_r(d0);
            let ghost dci = dir_c(d0);
            let (dr, dc) = dir_delta(d);
            match runs[d] {
                Some(n) => {
                    let ghost nlen = n as int;
                    let ghost b_entry = self.board@;
                    proof {
                        assert(scan_ok(s0, rowi, coli, player, d0, runs@[d0]));
                        assert(run_capture(s0, rowi, coli, dri, dci, player, nlen));
                        lemma_capture_len(s0, rowi, coli, dri, dci, player, nlen);
                        lemma_ray_scale(1, dri);
                        lemma_ray_scale(1, dci);
                        lemma_ray_scale(nlen + 1, dri);
                        lemma_ray_scale(nlen + 1, dci);
                        assert(!(dri == 0 && dci == 0));
                        assert(ray_ok(rowi, coli, dri, dci, nlen + 1));
                        assert(nlen <= 7);
                        assert(forall|k: int|
                            0 <= k < 64 ==> #[trigger] b_entry[k] == (if flipped_upto(
                                s0,
                                rowi,
                                coli,
                                player,
                                d0,
                                k,
                            ) {
                                player
                            } else if k == flat(rowi, coli) {
                                player
                            } else {
                                s0[k]
                            }));
                    }
                    let mut r: i32 = row as i32 + dr;
                    let mut c: i32 = col as i32 + dc;
                    let mut i: usize = 1;
                    while i <= n
                        invariant
                            row < 8,
                            col < 8,
                            is_side(player),
                            rowi == row as int,
                            coli == col as int,
                            dri == dr as int,
                            dci == dc as int,
                            -1 <= dri <= 1,
                            -1 <= dci <= 1,
                            run_capture(s0, rowi, coli, dri, dci, player, nlen),
                            nlen == n as int,
                            nlen <= 7,
                            1 <= i as int <= nlen + 1,
                            r as int == ray_r(rowi, dri, i as int),
                            c as int == ray_c(coli, dci, i as int),
                            b_entry.len() == 64,
                            self.board@.len() == 64,
                            self.current_turn == old(self).current_turn,
                            forall|k: int|
                                0 <= k < 64 ==> #[trigger] self.board@[k] == (if on_run(
                                    rowi,
                                    coli,
                                    dri,
                                    dci,
                                    i as int - 1,
                                    k,
                                ) {
                                    player
                                } else {
                                    b_entry[k]
                                }),
                        decreases nlen - i as int + 1,
                    {
                        let ghost i0 = i as int;
                        proof {
                            assert(ray_ok(rowi, coli, dri, dci, i0));
                        }
                        self.board.put_disc(r as usize, c as usize, player);
                        proof {
                            lemma_ray_step(i0, dri);
                            lemma_ray_step(i0, dci);
                        }
                        r = r + dr;
                        c = c + dc;
                        i = i + 1;
                        proof {
                            let kf = flat(ray_r(rowi, dri, i0), ray_c(coli, dci, i0));
                            assert forall|k: int| 0 <= k < 64 implies #[trigger] self.board@[k]
                                == (if on_run(rowi, coli, dri, dci, i0, k) {
                                player
                            } else {
                                b_entry[k]
                            }) by {
                                if k == kf {
                                    assert(on_run(rowi, coli, dri, dci, i0, k));
                                } else {
                                    if on_run(rowi, coli, dri, dci, i0, k) {
                                        let w = choose|w: int|
                                            1 <= w <= i0 && #[trigger] ray_ok(
                                                rowi,
                                                coli,
                                                dri,
                                                dci,
                                                w,
                                            ) && k == flat(ray_r(rowi, dri, w), ray_c(coli, dci, w));
                                        assert(w < i0);
                                        assert(on_run(rowi, coli, dri, dci, i0 - 1, k));
                                    }
                                }
                            }
                        }
                    }
                    proof {
                        assert forall|k: int| 0 <= k < 64 implies #[trigger] self.board@[k]
                            == (if flipped_upto(s0, rowi, coli, player, d0 + 1, k) {
                            player
                        } else if k == flat(rowi, coli) {
                            player
                        } else {
                            s0[k]
                        }) by {
                            if on_run(rowi, coli, dri, dci, nlen, k) {
                                assert(flipped_upto(s0, rowi, coli, player, d0 + 1, k));
                                assert(self.board@[k] == player);
                            } else {
                                assert(self.board@[k] == b_entry[k]);
                                if flipped_upto(s0, rowi, coli, player, d0 + 1, k) {
                                    let j = choose|j: int|
                                        0 <= j < d0 + 1 && #[trigger] dir_captures(
                                            s0,
                                            rowi,
                                            coli,
                                            dir_r(j),
                                            dir_c(j),
                                            player,
                                        ) && on_run(
                                            rowi,
                                            coli,
                                            dir_r(j),
                                            dir_c(j),
                                            capture_len(s0, rowi, coli, dir_r(j), dir_c(j), player),
                                            k,
                                        );
                                    assert(j != d0);
                                    assert(flipped_upto(s0, rowi, coli, player, d0, k));
                                }
                                if flipped_upto(s0, rowi, coli, player, d0, k) {
                                    let j = choose|j: int|
                                        0 <= j < d0 && #[trigger] dir_captures(
                                            s0,
                                            rowi,
                                            coli,
                                            dir_r(j),
                                            dir_c(j),
                                            player,
                                        ) && on_run(
                                            rowi,
                                            coli,
                                            dir_r(j),
                                            dir_c(j),
                                            capture_len(s0, rowi, coli, dir_r(j), dir_c(j), player),
                                            k,
                                        );
                                    assert(flipped_upto(s0, rowi, coli, player, d0 + 1, k));
                                }
                            }
                        }
                    }
                },
                None => {
                    proof {
                        assert(scan_ok(s0, rowi, coli, player, d0, runs@[d0]));
                        assert(!dir_captures(s0, rowi, coli, dri, dci, player));
                        assert forall|k: int| 0 <= k < 64 implies #[trigger] self.board@[k]
                            == (if flipped_upto(s0, rowi, coli, player, d0 + 1, k) {
                            player
                        } else if k == flat(rowi, coli) {
                            player
                        } else {
                            s0[k]
                        }) by {
                            if flipped_upto(s0, rowi, coli, player, d0 + 1, k) {
                                let j = choose|j: int|
                                    0 <= j < d0 + 1 && #[trigger] dir_captures(
                                        s0,
                                        rowi,
                                        coli,
                                        dir_r(j),
                                        dir_c(j),
                                        player,
                                    ) && on_run(
                                        rowi,
                                        coli,
                                        dir_r(j),
                                        dir_c(j),
                                        capture_len(s0, rowi, coli, dir_r(j), dir_c(j), player),
                                        k,
                                    );
                                assert(j != d0);
                                assert(flipped_upto(s0, rowi, coli, player, d0, k));
                            }
                            if flipped_upto(s0, rowi, coli, player, d0, k) {
                                let j = choose|j: int|
                                    0 <= j < d0 && #[trigger] dir_captures(
                                        s0,
                                        rowi,
                                        coli,
                                        dir_r(j),
                                        dir_c(j),
                                        player,
                                    ) && on_run(
                                        rowi,
                                        coli,
                                        dir_r(j),
                                        dir_c(j),
                                        capture_len(s0, rowi, coli, dir_r(j), dir_c(j), player),
                                        k,
                                    );
                                assert(flipped_upto(s0, rowi, coli, player, d0 + 1, k));
                            }
                        }
                    }
                },
            }
            d += 1;
        }
        proof {
            assert(self.board@ =~= after_move(s0, rowi, coli, player));
        }
        self.current_turn = if self.current_turn == Disc::Black {
            Disc::White
        } else {
            Disc::Black
        };
        true
    }

    /// Whether the game has ended: neither side has a legal move. A
    /// state where only one side lacks moves is not over.
    pub fn is_game_over(&self) -> (res: bool)
        ensures
            res == game_over(self.board@),
    {
        proof {
            lemma_no_moves_iff_empty(self.board@, Disc::Black);
            lemma_no_moves_iff_empty(self.board@, Disc::White);
        }
        self.get_valid_moves(Disc::Black).is_empty() && self.get_valid_moves(
            Disc::White,
        ).is_empty()
    }

    /// The piece tally: how many cells hold each side's discs.
    pub fn count_discs(&self) -> (res: (u32, u32))
        ensures
            res.0 as int == count(self.board@, Disc::Black),
            res.1 as int == count(self.board@, Disc::White),
    {
        let mut black_count: u32 = 0;
        let mut white_count: u32 = 0;
        let mut i: usize = 0;
        while i < 64
            invariant
                i <= 64,
                black_count as int == count_upto(self.board@, Disc::Black, i as int),
                white_count as int == count_upto(self.board@, Disc::White, i as int),
                black_count <= i,
                white_count <= i,
            decreases 64 - i,
        {
            let r = i / 8;
            let c = i % 8;
            proof {
                vstd::arithmetic::div_mod::lemma_fundamental_div_mod(i as int, 8);
            }
            match self.board.get_disc(r, c) {
                Some(Disc::Black) => {
                    black_count += 1;
                },
                Some(Disc::White) => {
                    white_count += 1;
                },
                _ => {},
            }
            i += 1;
        }
        (black_count, white_count)
    }
}

} // verus!
