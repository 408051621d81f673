//! Participants: a human at the keyboard or an automated opponent at one
//! of three difficulty tiers, each bound to the side it plays.

use vstd::prelude::*;

use crate::board::{is_side, Disc};
use crate::game::Game;
use crate::rules::{moves_seq, valid_move};

verus! {

/// Difficulty tiers of the automated opponent.
#[derive(Debug, Clone, Copy)]
pub enum CpuLevel {
    Easy,
    Medium,
    Hard,
}

/// Who controls a side: a human at the keyboard or an automated opponent.
pub enum PlayerType {
    Human,
    Cpu(CpuLevel),
}

/// One participant: how it chooses moves, and the side it plays.
pub struct Player {
    player_type: PlayerType,
    disc: Disc,
}

impl Player {
    /// How this participant chooses moves.
    pub closed spec fn spec_player_type(self) -> PlayerType {
        self.player_type
    }

    /// The side this participant plays.
    pub closed spec fn spec_disc(self) -> Disc {
        self.disc
    }

    pub fn new(player_type: PlayerType, disc: Disc) -> (res: Player)
        ensures
            res.spec_player_type() == player_type,
            res.spec_disc() == disc,
    {
        Player { player_type, disc }
    }

    pub fn player_type(&self) -> (res: &PlayerType)
        ensures
            *res == self.spec_player_type(),
    {
        &self.player_type
    }

    /// The chosen cell of an automated participant. A human's move is
    /// read by the control loop instead, so this is only called for a
    /// CPU player whose side still has a legal move.
    pub fn get_move(&self, game: &Game) -> (res: (usize, usize))
        requires
            self.spec_player_type() matches PlayerType::Cpu(_),
            is_side(self.spec_disc()),
            moves_seq(game.board@, self.spec_disc()).len() > 0,
        ensures
            valid_move(game.board@, res.0 as int, res.1 as int, self.spec_disc()),
    {
        match self.player_type {
            PlayerType::Human => vstd::pervasive::unreached(),
            PlayerType::Cpu(level) => self.get_cpu_move(game, level),
        }
    }

    fn get_cpu_move(&self, game: &Game, level: CpuLevel) -> (res: (usize, usize))
        requires
            is_side(self.spec_disc()),
            moves_seq(game.board@, self.spec_disc()).len() > 0,
        ensures
            valid_move(game.board@, res.0 as int, res.1 as int, self.spec_disc()),
    {
        crate::cpu::get_best_move(game, self.disc, level)
    }
}

} // verus!
