//! The player record: one account with its credentials and game counters.

use vstd::prelude::*;

verus! {

/// The two games whose outcomes the store tracks.
#[derive(Clone, Copy, PartialEq, Eq, Structural, Debug)]
pub enum Game {
    C4,
    Toot,
}

/// A completed game's reported outcome: which game, won or lost.
#[derive(Clone, Copy, PartialEq, Eq, Structural, Debug)]
pub enum OutcomeTag {
    C4Win,
    C4Loss,
    TootWin,
    TootLoss,
}

/// Mathematical model of one player record.
pub ghost struct RecordV {
    pub name: Seq<char>,
    pub password: Seq<char>,
    pub c4_played: int,
    pub c4_won: int,
    pub toot_played: int,
    pub toot_won: int,
}

/// One stored account: a unique-by-convention display name, a plaintext
/// password (a known weakness of the design, kept behind `authenticate`
/// so a different credential check can replace it), and four counters.
pub struct PlayerRecord {
    pub name: String,
    pub password: String,
    pub c4_played: u64,
    pub c4_won: u64,
    pub toot_played: u64,
    pub toot_won: u64,
}

impl View for PlayerRecord {
    type V = RecordV;

    open spec fn view(&self) -> RecordV {
        RecordV {
            name: self.name@,
            password: self.password@,
            c4_played: self.c4_played as int,
            c4_won: self.c4_won as int,
            toot_played: self.toot_played as int,
            toot_won: self.toot_won as int,
        }
    }
}

impl RecordV {
    /// A record is well formed when neither game shows more wins than plays.
    pub open spec fn wf(self) -> bool {
        0 <= self.c4_won <= self.c4_played && 0 <= self.toot_won <= self.toot_played
    }

    /// Games of `game` this record has played.
    pub open spec fn played_of(self, game: Game) -> int {
        match game {
            Game::C4 => self.c4_played,
            Game::Toot => self.toot_played,
        }
    }

    /// Games of `game` this record has won.
    pub open spec fn won_of(self, game: Game) -> int {
        match game {
            Game::C4 => self.c4_won,
            Game::Toot => self.toot_won,
        }
    }
}

/// The game an outcome tag belongs to.
pub open spec fn game_of(tag: OutcomeTag) -> Game {
    match tag {
        OutcomeTag::C4Win | OutcomeTag::C4Loss => Game::C4,
        OutcomeTag::TootWin | OutcomeTag::TootLoss => Game::Toot,
    }
}

/// The record after one outcome is applied: the played counter of the
/// tag's game grows by one, its won counter grows by one exactly on a win,
/// and everything else — the other game's counters, name, password — is
/// untouched.
pub open spec fn bump(r: RecordV, tag: OutcomeTag) -> RecordV {
    match tag {
        OutcomeTag::C4Win => (RecordV { c4_played: r.c4_played + 1, c4_won: r.c4_won + 1, ..r }),
        OutcomeTag::C4Loss => (RecordV { c4_played: r.c4_played + 1, ..r }),
        OutcomeTag::TootWin => (RecordV {
            toot_played: r.toot_played + 1,
            toot_won: r.toot_won + 1,
            ..r
        }),
        OutcomeTag::TootLoss => (RecordV { toot_played: r.toot_played + 1, ..r }),
    }
}

/// One outcome never breaks well-formedness: wins still bound plays.
pub proof fn lemma_bump_wf(r: RecordV, tag: OutcomeTag)
    requires
        r.wf(),
    ensures
        bump(r, tag).wf(),
{
}

/// Applies one outcome to an owned record, as `bump` describes.
pub fn bump_record(r: PlayerRecord, tag: OutcomeTag) -> (r2: PlayerRecord)
    requires
        r@.played_of(game_of(tag)) < u64::MAX,
        r@.won_of(game_of(tag)) < u64::MAX,
    ensures
        r2@ == bump(r@, tag),
{
    match tag {
        OutcomeTag::C4Win => PlayerRecord {
            c4_played: r.c4_played + 1,
            c4_won: r.c4_won + 1,
            ..r
        },
        OutcomeTag::C4Loss => PlayerRecord { c4_played: r.c4_played + 1, ..r },
        OutcomeTag::TootWin => PlayerRecord {
            toot_played: r.toot_played + 1,
            toot_won: r.toot_won + 1,
            ..r
        },
        OutcomeTag::TootLoss => PlayerRecord { toot_played: r.toot_played + 1, ..r },
    }
}

impl PlayerRecord {
    /// A fresh account: the given credentials, every counter at zero.
    pub fn new(name: String, password: String) -> (r: PlayerRecord)
        ensures
            r@ == (RecordV {
                name: name@,
                password: password@,
                c4_played: 0,
                c4_won: 0,
                toot_played: 0,
                toot_won: 0,
            }),
            r@.wf(),
    {
        PlayerRecord { name, password, c4_played: 0, c4_won: 0, toot_played: 0, toot_won: 0 }
    }
}

} // verus!
