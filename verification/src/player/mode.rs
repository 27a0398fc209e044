//! Game modes.

use vstd::prelude::*;

verus! {

/// How the player plays.
#[derive(Clone, Copy, Debug, PartialEq, Eq, Structural)]
pub enum GameMode {
    Survival,
    Creative,
}

impl Default for GameMode {
    fn default() -> (r: Self)
        ensures
            r == GameMode::Survival,
    {
        GameMode::Survival
    }
}

impl GameMode {
    /// The other mode.
    pub open spec fn other(self) -> GameMode {
        match self {
            GameMode::Survival => GameMode::Creative,
            GameMode::Creative => GameMode::Survival,
        }
    }

    /// The number of the mode in saves.
    pub open spec fn spec_code(self) -> u8 {
        match self {
            GameMode::Survival => 0,
            GameMode::Creative => 1,
        }
    }

    /// The other mode.
    pub fn toggle(self) -> (r: GameMode)
        ensures
            r == self.other(),
    {
        match self {
            GameMode::Survival => GameMode::Creative,
            GameMode::Creative => GameMode::Survival,
        }
    }

    /// The name that players see.
    pub fn display(self) -> (r: &'static str)
        ensures
            r == (match self {
                GameMode::Survival => "生存模式",
                GameMode::Creative => "创造模式",
            }),
    {
        match self {
            GameMode::Survival => "生存模式",
            GameMode::Creative => "创造模式",
        }
    }

    /// Whether blocks are free and bodies fly.
    pub fn is_creative(self) -> (r: bool)
        ensures
            r == (self == GameMode::Creative),
    {
        matches!(self, GameMode::Creative)
    }

    /// The number of the mode in saves.
    pub fn as_u8(self) -> (r: u8)
        ensures
            r == self.spec_code(),
    {
        match self {
            GameMode::Survival => 0,
            GameMode::Creative => 1,
        }
    }

    /// The mode of a number in saves.
    pub fn from_u8(code: u8) -> (r: Option<GameMode>)
        ensures
            r == (if code == 0 {
                Some(GameMode::Survival)
            } else if code == 1 {
                Some(GameMode::Creative)
            } else {
                None
            }),
    {
        match code {
            0 => Some(GameMode::Survival),
            1 => Some(GameMode::Creative),
            _ => None,
        }
    }
}

/// Toggling twice changes nothing, and modes are told apart by their numbers.
pub proof fn toggling_twice_is_nothing(a: GameMode, b: GameMode)
    ensures
        a.other().other() == a,
        a.other() != a,
        a.spec_code() == b.spec_code() ==> a == b,
        a.spec_code() == 0 <==> a == GameMode::Survival,
        a.spec_code() == 1 <==> a == GameMode::Creative,
{
}

} // verus!
