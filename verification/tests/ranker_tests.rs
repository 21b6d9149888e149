//! Behaviour of the leaderboard ranker: ordering, tie-breaks, the top-N
//! cut, and the win-rate display value.

use player_store::ranker::{leaderboard, win_rate};
use player_store::record::{Game, OutcomeTag, PlayerRecord};
use player_store::store::AccountStore;

fn record(name: &str, c4_won: u64, c4_played: u64) -> PlayerRecord {
    PlayerRecord {
        name: name.to_string(),
        password: "pw".to_string(),
        c4_played,
        c4_won,
        toot_played: 0,
        toot_won: 0,
    }
}

#[test]
fn equal_wins_rank_fewer_games_first() {
    let records = vec![record("A", 5, 10), record("B", 5, 8), record("C", 3, 3)];
    let board = leaderboard(&records, Game::C4, 10);
    let names: Vec<&str> = board.iter().map(|e| e.name.as_str()).collect();
    assert_eq!(names, vec!["B", "A", "C"]);
    assert_eq!(board[0].rank, 1);
    assert_eq!(board[1].rank, 2);
    assert_eq!(board[2].rank, 3);
}

#[test]
fn lower_wins_rank_below_regardless_of_played() {
    let records = vec![record("few", 2, 2), record("many", 6, 100)];
    let board = leaderboard(&records, Game::C4, 10);
    assert_eq!(board[0].name, "many");
    assert_eq!(board[1].name, "few");
}

#[test]
fn full_ties_keep_snapshot_order() {
    let records = vec![record("first", 4, 6), record("second", 4, 6), record("third", 4, 6)];
    let board = leaderboard(&records, Game::C4, 10);
    let names: Vec<&str> = board.iter().map(|e| e.name.as_str()).collect();
    assert_eq!(names, vec!["first", "second", "third"]);
}

#[test]
fn leaderboard_is_cut_to_n() {
    let records = vec![record("A", 1, 1), record("B", 2, 2), record("C", 3, 3)];
    let board = leaderboard(&records, Game::C4, 2);
    assert_eq!(board.len(), 2);
    assert_eq!(board[0].name, "C");
    assert_eq!(board[1].name, "B");
}

#[test]
fn leaderboard_of_empty_snapshot_is_empty() {
    let records: Vec<PlayerRecord> = Vec::new();
    let board = leaderboard(&records, Game::Toot, 4);
    assert!(board.is_empty());
}

#[test]
fn each_game_ranks_by_its_own_counters() {
    let a = PlayerRecord {
        name: "a".to_string(),
        password: "pw".to_string(),
        c4_played: 10,
        c4_won: 9,
        toot_played: 5,
        toot_won: 0,
    };
    let b = PlayerRecord {
        name: "b".to_string(),
        password: "pw".to_string(),
        c4_played: 10,
        c4_won: 1,
        toot_played: 5,
        toot_won: 5,
    };
    let records = vec![a, b];
    let c4 = leaderboard(&records, Game::C4, 4);
    let toot = leaderboard(&records, Game::Toot, 3);
    assert_eq!(c4[0].name, "a");
    assert_eq!(toot[0].name, "b");
}

#[test]
fn zero_played_displays_rate_zero() {
    let records = vec![record("idle", 0, 0)];
    let board = leaderboard(&records, Game::C4, 4);
    assert_eq!(board[0].rate, 0);
    assert_eq!(board[0].won, 0);
    assert_eq!(board[0].played, 0);
}

#[test]
fn win_rate_exact_values() {
    assert_eq!(win_rate(0, 0), 0);
    assert_eq!(win_rate(5, 10), 50);
    assert_eq!(win_rate(1, 3), 33);
    assert_eq!(win_rate(2, 3), 67);
    assert_eq!(win_rate(3, 3), 100);
    assert_eq!(win_rate(0, 7), 0);
}

#[test]
fn win_rate_handles_extreme_counters() {
    assert_eq!(win_rate(u64::MAX, u64::MAX), 100);
    assert_eq!(win_rate(u64::MAX / 2, u64::MAX), 50);
}

#[test]
fn win_rate_rounds_ties_to_even() {
    assert_eq!(win_rate(1, 8), 12);
    assert_eq!(win_rate(3, 8), 38);
}

#[test]
fn leaderboard_rows_carry_counters_and_rate() {
    let records = vec![record("A", 5, 10)];
    let board = leaderboard(&records, Game::C4, 4);
    assert_eq!(board[0].won, 5);
    assert_eq!(board[0].played, 10);
    assert_eq!(board[0].rate, 50);
}

#[test]
fn recorded_outcomes_drive_the_store_leaderboard() {
    let mut store = AccountStore::new();
    store.register("alice".to_string(), "pw".to_string());
    store.register("bob".to_string(), "pw".to_string());
    let alice = "alice".to_string();
    let bob = "bob".to_string();
    store.record_outcome(&alice, OutcomeTag::C4Win);
    store.record_outcome(&alice, OutcomeTag::C4Win);
    store.record_outcome(&bob, OutcomeTag::C4Win);
    store.record_outcome(&bob, OutcomeTag::C4Loss);
    let board = store.top_n(Game::C4, 4);
    assert_eq!(board.len(), 2);
    assert_eq!(board[0].name, "alice");
    assert_eq!(board[0].won, 2);
    assert_eq!(board[0].played, 2);
    assert_eq!(board[0].rate, 100);
    assert_eq!(board[1].name, "bob");
    assert_eq!(board[1].won, 1);
    assert_eq!(board[1].played, 2);
    assert_eq!(board[1].rate, 50);
}

#[test]
fn deleted_name_contributes_no_entries() {
    let mut store = AccountStore::new();
    store.register("alice".to_string(), "pw".to_string());
    store.register("bob".to_string(), "pw".to_string());
    store.record_outcome(&"alice".to_string(), OutcomeTag::C4Win);
    store.record_outcome(&"bob".to_string(), OutcomeTag::C4Win);
    store.delete_all(&"alice".to_string());
    let c4 = store.top_n(Game::C4, 10);
    let toot = store.top_n(Game::Toot, 10);
    assert!(c4.iter().all(|e| e.name != "alice"));
    assert!(toot.iter().all(|e| e.name != "alice"));
    assert_eq!(c4.len(), 1);
    assert_eq!(c4[0].name, "bob");
}
