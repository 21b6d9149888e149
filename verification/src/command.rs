//! Parsing of the operator's menu commands and outcome tags.

use vstd::prelude::*;
use crate::record::OutcomeTag;

verus! {

/// One top-level action the operator can ask for.
#[derive(Clone, Copy, PartialEq, Eq, Structural, Debug)]
pub enum Command {
    Register,
    Delete,
    SignIn,
    Leaderboards,
    Quit,
}

/// Reads a menu choice: `1` registers, `2` deletes, `3` signs in,
/// `4` shows the leaderboards, `done` quits; anything else is invalid.
pub fn parse_command(s: &String) -> (r: Option<Command>)
    ensures
        r == (if s@ == "1"@ {
            Some(Command::Register)
        } else if s@ == "2"@ {
            Some(Command::Delete)
        } else if s@ == "3"@ {
            Some(Command::SignIn)
        } else if s@ == "4"@ {
            Some(Command::Leaderboards)
        } else if s@ == "done"@ {
            Some(Command::Quit)
        } else {
            None::<Command>
        }),
{
    if *s == "1".to_owned() {
        Some(Command::Register)
    } else if *s == "2".to_owned() {
        Some(Command::Delete)
    } else if *s == "3".to_owned() {
        Some(Command::SignIn)
    } else if *s == "4".to_owned() {
        Some(Command::Leaderboards)
    } else if *s == "done".to_owned() {
        Some(Command::Quit)
    } else {
        None
    }
}

/// Reads a reported outcome: `cy`/`cn` a won/lost c4 game, `ty`/`tn` a
/// won/lost toot game; anything else is invalid.
pub fn parse_outcome(s: &String) -> (r: Option<OutcomeTag>)
    ensures
        r == (if s@ == "cy"@ {
            Some(OutcomeTag::C4Win)
        } else if s@ == "cn"@ {
            Some(OutcomeTag::C4Loss)
        } else if s@ == "ty"@ {
            Some(OutcomeTag::TootWin)
        } else if s@ == "tn"@ {
            Some(OutcomeTag::TootLoss)
        } else {
            None::<OutcomeTag>
        }),
{
    if *s == "cy".to_owned() {
        Some(OutcomeTag::C4Win)
    } else if *s == "cn".to_owned() {
        Some(OutcomeTag::C4Loss)
    } else if *s == "ty".to_owned() {
        Some(OutcomeTag::TootWin)
    } else if *s == "tn".to_owned() {
        Some(OutcomeTag::TootLoss)
    } else {
        None
    }
}

/// Whether a name already appears in a list of names — the check a
/// store-provisioning step makes before creating a collection.
pub fn contains_string(names: &Vec<String>, target: &String) -> (r: bool)
    ensures
        r == (exists|i: int| 0 <= i < names@.len() && (#[trigger] names@[i])@ == target@),
{
    let n = names.len();
    let mut i: usize = 0;
    while i < n
        invariant
            n == names@.len(),
            i <= n,
            forall|j: int| 0 <= j < i ==> (#[trigger] names@[j])@ != target@,
        decreases n - i,
    {
        if names[i] == *target {
            proof {
                assert(names@[i as int]@ == target@);
            }
            return true;
        }
        i += 1;
    }
    false
}

/// Whether a sign-in answer asks to play a game: exactly the reply `y`.
pub fn wants_game(s: &String) -> (r: bool)
    ensures
        r == (s@ == "y"@),
{
    *s == "y".to_owned()
}

} // verus!
