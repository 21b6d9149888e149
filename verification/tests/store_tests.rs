//! Behaviour of the account store: registration, authentication,
//! bulk deletion and outcome recording.

use player_store::record::OutcomeTag;
use player_store::store::AccountStore;

#[test]
fn register_then_authenticate_succeeds() {
    let mut store = AccountStore::new();
    store.register("alice".to_string(), "secret".to_string());
    assert!(store.authenticate(&"alice".to_string(), &"secret".to_string()));
}

#[test]
fn authenticate_wrong_password_fails() {
    let mut store = AccountStore::new();
    store.register("alice".to_string(), "secret".to_string());
    assert!(!store.authenticate(&"alice".to_string(), &"guess".to_string()));
}

#[test]
fn authenticate_unknown_name_fails() {
    let mut store = AccountStore::new();
    store.register("alice".to_string(), "secret".to_string());
    assert!(!store.authenticate(&"bob".to_string(), &"secret".to_string()));
}

#[test]
fn authentication_is_case_sensitive() {
    let mut store = AccountStore::new();
    store.register("Alice".to_string(), "Secret".to_string());
    assert!(!store.authenticate(&"alice".to_string(), &"Secret".to_string()));
    assert!(!store.authenticate(&"Alice".to_string(), &"secret".to_string()));
    assert!(store.authenticate(&"Alice".to_string(), &"Secret".to_string()));
}

#[test]
fn fresh_record_has_zero_counters() {
    let mut store = AccountStore::new();
    store.register("alice".to_string(), "secret".to_string());
    let records = store.snapshot();
    assert_eq!(records.len(), 1);
    assert_eq!(records[0].name, "alice");
    assert_eq!(records[0].password, "secret");
    assert_eq!(records[0].c4_played, 0);
    assert_eq!(records[0].c4_won, 0);
    assert_eq!(records[0].toot_played, 0);
    assert_eq!(records[0].toot_won, 0);
}

#[test]
fn delete_removes_every_matching_record() {
    let mut store = AccountStore::new();
    store.register("alice".to_string(), "one".to_string());
    store.register("alice".to_string(), "two".to_string());
    store.register("bob".to_string(), "pw".to_string());
    store.delete_all(&"alice".to_string());
    assert_eq!(store.snapshot().len(), 1);
    assert_eq!(store.snapshot()[0].name, "bob");
    assert!(!store.authenticate(&"alice".to_string(), &"one".to_string()));
    assert!(!store.authenticate(&"alice".to_string(), &"two".to_string()));
    assert!(store.authenticate(&"bob".to_string(), &"pw".to_string()));
}

#[test]
fn delete_absent_name_changes_nothing() {
    let mut store = AccountStore::new();
    store.register("bob".to_string(), "pw".to_string());
    store.delete_all(&"carol".to_string());
    assert_eq!(store.snapshot().len(), 1);
    assert_eq!(store.snapshot()[0].name, "bob");
    assert!(store.authenticate(&"bob".to_string(), &"pw".to_string()));
}

#[test]
fn win_increments_played_and_won_of_that_game_only() {
    let mut store = AccountStore::new();
    store.register("alice".to_string(), "pw".to_string());
    store.record_outcome(&"alice".to_string(), OutcomeTag::C4Win);
    let records = store.snapshot();
    assert_eq!(records[0].c4_played, 1);
    assert_eq!(records[0].c4_won, 1);
    assert_eq!(records[0].toot_played, 0);
    assert_eq!(records[0].toot_won, 0);
}

#[test]
fn loss_increments_only_played_of_that_game() {
    let mut store = AccountStore::new();
    store.register("alice".to_string(), "pw".to_string());
    store.record_outcome(&"alice".to_string(), OutcomeTag::TootLoss);
    let records = store.snapshot();
    assert_eq!(records[0].toot_played, 1);
    assert_eq!(records[0].toot_won, 0);
    assert_eq!(records[0].c4_played, 0);
    assert_eq!(records[0].c4_won, 0);
}

#[test]
fn outcomes_touch_only_matching_names() {
    let mut store = AccountStore::new();
    store.register("alice".to_string(), "pw".to_string());
    store.register("bob".to_string(), "pw".to_string());
    store.record_outcome(&"alice".to_string(), OutcomeTag::C4Win);
    let records = store.snapshot();
    assert_eq!(records[0].c4_played, 1);
    assert_eq!(records[1].c4_played, 0);
}

#[test]
fn outcomes_apply_to_every_record_of_the_name() {
    let mut store = AccountStore::new();
    store.register("alice".to_string(), "one".to_string());
    store.register("alice".to_string(), "two".to_string());
    store.record_outcome(&"alice".to_string(), OutcomeTag::TootWin);
    let records = store.snapshot();
    assert_eq!(records[0].toot_played, 1);
    assert_eq!(records[0].toot_won, 1);
    assert_eq!(records[1].toot_played, 1);
    assert_eq!(records[1].toot_won, 1);
}

#[test]
fn won_never_exceeds_played_after_any_sequence() {
    let mut store = AccountStore::new();
    store.register("alice".to_string(), "pw".to_string());
    store.register("bob".to_string(), "pw".to_string());
    let alice = "alice".to_string();
    let bob = "bob".to_string();
    store.record_outcome(&alice, OutcomeTag::C4Win);
    store.record_outcome(&alice, OutcomeTag::C4Loss);
    store.record_outcome(&bob, OutcomeTag::TootWin);
    store.record_outcome(&alice, OutcomeTag::TootLoss);
    store.record_outcome(&bob, OutcomeTag::C4Loss);
    store.record_outcome(&alice, OutcomeTag::C4Win);
    for r in store.snapshot() {
        assert!(r.c4_won <= r.c4_played);
        assert!(r.toot_won <= r.toot_played);
    }
}
