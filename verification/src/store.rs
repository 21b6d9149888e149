//! The account store: a snapshot of all player records, with the
//! registration, deletion, authentication and outcome-recording operations.

use vstd::prelude::*;
use crate::record::{
    bump,
    bump_record,
    game_of,
    lemma_bump_wf,
    Game,
    OutcomeTag,
    PlayerRecord,
    RecordV,
};
use crate::ranker::{entry_views, leaderboard, leaderboard_spec, record_views, RankedEntry};

verus! {

/// The record a registration inserts: the given credentials, all counters zero.
pub open spec fn fresh_record(name: Seq<char>, password: Seq<char>) -> RecordV {
    RecordV { name, password, c4_played: 0, c4_won: 0, toot_played: 0, toot_won: 0 }
}

/// The store after registering one account.
pub open spec fn register_spec(s: Seq<RecordV>, name: Seq<char>, password: Seq<char>) -> Seq<
    RecordV,
> {
    s.push(fresh_record(name, password))
}

/// The store after deleting a name: every record whose name matches is gone,
/// everything else is kept in order.
pub open spec fn delete_spec(s: Seq<RecordV>, name: Seq<char>) -> Seq<RecordV> {
    s.filter(|r: RecordV| r.name != name)
}

/// Deleting distributes over appending one record: the record survives
/// exactly when its name differs.
pub proof fn lemma_delete_push(s: Seq<RecordV>, x: RecordV, name: Seq<char>)
    ensures
        delete_spec(s.push(x), name) == (if x.name != name {
            delete_spec(s, name).push(x)
        } else {
            delete_spec(s, name)
        }),
{
    reveal_with_fuel(Seq::filter, 1);
    assert(s.push(x).drop_last() =~= s);
    assert(s.push(x).last() == x);
}

/// Every record that survives a deletion was already stored beforehand
/// and does not bear the deleted name.
pub proof fn lemma_delete_element_source(s: Seq<RecordV>, name: Seq<char>, k: int)
    requires
        0 <= k < delete_spec(s, name).len(),
    ensures
        delete_spec(s, name)[k].name != name,
        exists|m: int| 0 <= m < s.len() && s[m] == delete_spec(s, name)[k],
    decreases s.len(),
{
    if s.len() == 0 {
        assert(delete_spec(s, name) =~= Seq::<RecordV>::empty()) by {
            reveal_with_fuel(Seq::filter, 1);
        }
    } else {
        let d = s.drop_last();
        assert(s =~= d.push(s.last()));
        lemma_delete_push(d, s.last(), name);
        if s.last().name != name && k == delete_spec(d, name).len() {
            assert(delete_spec(s, name)[k] == s.last());
            assert(s[s.len() - 1] == delete_spec(s, name)[k]);
        } else {
            lemma_delete_element_source(d, name, k);
            let m = choose|m: int| 0 <= m < d.len() && d[m] == delete_spec(d, name)[k];
            assert(s[m] == delete_spec(s, name)[k]);
        }
    }
}

/// Whether some record matches both credentials exactly.
pub open spec fn authenticates(s: Seq<RecordV>, name: Seq<char>, password: Seq<char>) -> bool {
    exists|i: int|
        0 <= i < s.len() && (#[trigger] s[i]).name == name && s[i].password == password
}

/// One record after an outcome is recorded under `name`: bumped when its
/// name matches, untouched otherwise.
pub open spec fn apply_outcome(r: RecordV, name: Seq<char>, tag: OutcomeTag) -> RecordV {
    if r.name == name {
        bump(r, tag)
    } else {
        r
    }
}

/// Law: after registering an account, its own credentials authenticate.
/// A different password still fails, as long as no record already
/// accepted that password for this name — with duplicate names allowed,
/// an older record may legitimately hold the other password.
pub proof fn lemma_register_then_authenticate(
    s: Seq<RecordV>,
    name: Seq<char>,
    password: Seq<char>,
    other: Seq<char>,
)
    ensures
        authenticates(register_spec(s, name, password), name, password),
        other != password && !authenticates(s, name, other) ==> !authenticates(
            register_spec(s, name, password),
            name,
            other,
        ),
{
    let s2 = register_spec(s, name, password);
    assert(s2[s.len() as int].name == name && s2[s.len() as int].password == password);
    if other != password && !authenticates(s, name, other) {
        assert forall|i: int|
            0 <= i < s2.len() implies !((#[trigger] s2[i]).name == name && s2[i].password
            == other) by {
            if i < s.len() {
                assert(s2[i] == s[i]);
            }
        }
    }
}

/// Law: after deleting a name, no password whatsoever authenticates it.
pub proof fn lemma_delete_then_authenticate_fails(
    s: Seq<RecordV>,
    name: Seq<char>,
    password: Seq<char>,
)
    ensures
        !authenticates(delete_spec(s, name), name, password),
{
    let d = delete_spec(s, name);
    assert forall|k: int| 0 <= k < d.len() implies (#[trigger] d[k]).name != name by {
        lemma_delete_element_source(s, name, k);
    }
}

/// Law: deleting a name that no record bears succeeds and changes nothing.
pub proof fn lemma_delete_absent_is_noop(s: Seq<RecordV>, name: Seq<char>)
    requires
        forall|i: int| 0 <= i < s.len() ==> (#[trigger] s[i]).name != name,
    ensures
        delete_spec(s, name) == s,
    decreases s.len(),
{
    if s.len() == 0 {
        assert(delete_spec(s, name) =~= s) by {
            reveal_with_fuel(Seq::filter, 1);
        }
    } else {
        let d = s.drop_last();
        assert(s =~= d.push(s.last()));
        assert(forall|i: int| 0 <= i < d.len() ==> (#[trigger] d[i]).name != name);
        lemma_delete_absent_is_noop(d, name);
        lemma_delete_push(d, s.last(), name);
        assert(s[s.len() - 1].name != name);
        assert(delete_spec(s, name) =~= s);
    }
}

/// All player records, in registration order. Names need not be unique:
/// deletion and outcome recording act on every record whose name matches.
pub struct AccountStore {
    records: Vec<PlayerRecord>,
}

impl View for AccountStore {
    type V = Seq<RecordV>;

    closed spec fn view(&self) -> Seq<RecordV> {
        Seq::new(self.records@.len(), |i: int| self.records@[i]@)
    }
}

impl AccountStore {
    /// Every record in the store is well formed.
    pub open spec fn wf(self) -> bool {
        forall|i: int| 0 <= i < self@.len() ==> (#[trigger] self@[i]).wf()
    }

    /// An empty store.
    pub fn new() -> (s: AccountStore)
        ensures
            s@ == Seq::<RecordV>::empty(),
            s.wf(),
    {
        let s = AccountStore { records: Vec::new() };
        proof {
            assert(s@ =~= Seq::<RecordV>::empty());
        }
        s
    }

    /// The records the store currently holds, in registration order.
    pub fn snapshot(&self) -> (r: &Vec<PlayerRecord>)
        ensures
            r@.len() == self@.len(),
            forall|i: int| 0 <= i < self@.len() ==> (#[trigger] r@[i])@ == self@[i],
    {
        &self.records
    }

    /// Registers an account: appends one fresh record with the given
    /// credentials and all counters at zero. Duplicate names are accepted;
    /// the new record simply joins them.
    pub fn register(&mut self, name: String, password: String)
        ensures
            final(self)@ == register_spec(old(self)@, name@, password@),
            old(self).wf() ==> final(self).wf(),
    {
        let ghost pre = self@;
        let fresh = PlayerRecord::new(name, password);
        self.records.push(fresh);
        proof {
            assert(self@ =~= register_spec(pre, fresh.name@, fresh.password@));
        }
    }

    /// Whether the given credentials match some stored record exactly
    /// (case-sensitive on both fields). An unknown name and a wrong
    /// password are indistinguishable: both simply fail.
    pub fn authenticate(&self, name: &String, password: &String) -> (r: bool)
        ensures
            r == authenticates(self@, name@, password@),
    {
        let n = self.records.len();
        let mut i: usize = 0;
        while i < n
            invariant
                n == self.records.len(),
                i <= n,
                self@.len() == n,
                forall|j: int|
                    0 <= j < i ==> !((#[trigger] self@[j]).name == name@ && self@[j].password
                        == password@),
            decreases n - i,
        {
            if self.records[i].name == *name && self.records[i].password == *password {
                proof {
                    assert(self@[i as int].name == name@ && self@[i as int].password == password@);
                }
                return true;
            }
            i += 1;
        }
        false
    }

    /// Deletes every record whose name matches, keeping the rest in order.
    /// Deleting an absent name is a no-op that still succeeds.
    pub fn delete_all(&mut self, name: &String)
        ensures
            final(self)@ == delete_spec(old(self)@, name@),
            old(self).wf() ==> final(self).wf(),
    {
        let ghost orig: Seq<RecordV> = self@;
        let mut i: usize = 0;
        let ghost j: int = 0;
        proof {
            assert(delete_spec(orig.take(0), name@) =~= Seq::<RecordV>::empty()) by {
                reveal_with_fuel(Seq::filter, 1);
                assert(orig.take(0) =~= Seq::<RecordV>::empty());
            }
            assert(delete_spec(orig.take(0), name@) + orig.skip(0) =~= orig);
        }
        while i < self.records.len()
            invariant
                0 <= j <= orig.len(),
                i as int == delete_spec(orig.take(j), name@).len(),
                self@ == delete_spec(orig.take(j), name@) + orig.skip(j),
            decreases orig.len() - j,
        {
            let ghost pre = self.records@;
            let ghost before = self@;
            let ghost kept = delete_spec(orig.take(j), name@);
            proof {
                assert(before.len() == kept.len() + orig.len() - j);
                assert(before[i as int] == orig.skip(j)[0]);
                assert(orig.skip(j)[0] == orig[j]);
                assert(orig.take(j + 1) =~= orig.take(j).push(orig[j]));
                lemma_delete_push(orig.take(j), orig[j], name@);
            }
            if self.records[i].name == *name {
                proof {
                    assert(pre[i as int]@.name == name@);
                    assert(before[i as int] == pre[i as int]@);
                    assert(orig[j].name == name@);
                }
                let _ = self.records.remove(i);
                proof {
                    let ghost j0 = j;
                    j = j + 1;
                    pre.remove_ensures(i as int);
                    assert(delete_spec(orig.take(j), name@) == kept);
                    assert forall|k: int|
                        0 <= k < self@.len() implies self@[k] == (kept + orig.skip(j))[k] by {
                        assert(self@[k] == pre.remove(i as int)[k]@);
                        if k < i as int {
                            assert(pre.remove(i as int)[k] == pre[k]);
                            assert(self@[k] == before[k]);
                            assert(before[k] == kept[k]);
                        } else {
                            assert(pre.remove(i as int)[k] == pre[k + 1]);
                            assert(self@[k] == before[k + 1]);
                            assert(before[k + 1] == orig.skip(j0)[k + 1 - i as int]);
                            assert(orig.skip(j0)[k + 1 - i as int] == orig[j0 + k + 1 - i as int]);
                            assert((kept + orig.skip(j))[k] == orig.skip(j)[k - i as int]);
                            assert(orig.skip(j)[k - i as int] == orig[j + k - i as int]);
                        }
                    }
                    assert(self@ =~= kept + orig.skip(j));
                }
            } else {
                proof {
                    assert(pre[i as int]@.name != name@);
                    assert(before[i as int] == pre[i as int]@);
                    assert(orig[j].name != name@);
                    j = j + 1;
                    assert(delete_spec(orig.take(j), name@) == kept.push(orig[j - 1]));
                    assert(self@ =~= delete_spec(orig.take(j), name@) + orig.skip(j));
                }
                i += 1;
            }
        }
        proof {
            assert(orig.take(j) =~= orig);
            assert(self@ =~= delete_spec(orig, name@));
            if old(self).wf() {
                assert forall|k: int| 0 <= k < self@.len() implies (#[trigger] self@[k]).wf() by {
                    lemma_delete_element_source(orig, name@, k);
                    let m = choose|m: int|
                        0 <= m < orig.len() && orig[m] == delete_spec(orig, name@)[k];
                    assert(orig[m].wf());
                }
            }
        }
    }

    /// The leaderboard of one game over the store's current records:
    /// the ranked top `n`, as `leaderboard_spec` lays them out.
    pub fn top_n(&self, game: Game, n: usize) -> (r: Vec<RankedEntry>)
        requires
            self.wf(),
        ensures
            entry_views(r@) == leaderboard_spec(self@, game, n as nat),
    {
        let snap = self.snapshot();
        proof {
            assert(record_views(snap@) =~= self@);
            assert forall|i: int| 0 <= i < snap@.len() implies (#[trigger] snap@[i])@.wf() by {
                assert(snap@[i]@ == self@[i]);
            }
        }
        leaderboard(snap, game, n)
    }

    /// Records one game outcome for every record whose name matches:
    /// the tag's played counter grows by one, its won counter grows by one
    /// exactly on a win, and nothing else changes — not the other game's
    /// counters, not any other record.
    pub fn record_outcome(&mut self, name: &String, tag: OutcomeTag)
        requires
            forall|i: int|
                0 <= i < old(self)@.len() && (#[trigger] old(self)@[i]).name == name@
                    ==> old(self)@[i].played_of(game_of(tag)) < u64::MAX
                    && old(self)@[i].won_of(game_of(tag)) < u64::MAX,
        ensures
            final(self)@.len() == old(self)@.len(),
            forall|i: int|
                0 <= i < old(self)@.len() ==> final(self)@[i] == apply_outcome(
                    old(self)@[i],
                    name@,
                    tag,
                ),
            old(self).wf() ==> final(self).wf(),
    {
        let ghost orig: Seq<RecordV> = self@;
        let n = self.records.len();
        let mut i: usize = 0;
        while i < n
            invariant
                n == self.records.len(),
                i <= n,
                self@.len() == orig.len() == n,
                forall|i0: int|
                    0 <= i0 < orig.len() && (#[trigger] orig[i0]).name == name@
                        ==> orig[i0].played_of(game_of(tag)) < u64::MAX
                        && orig[i0].won_of(game_of(tag)) < u64::MAX,
                forall|k: int| 0 <= k < i ==> self@[k] == apply_outcome(orig[k], name@, tag),
                forall|k: int| i <= k < n ==> self@[k] == orig[k],
            decreases n - i,
        {
            if self.records[i].name == *name {
                let ghost pre = self.records@;
                let ghost before = self@;
                proof {
                    assert(before[i as int] == orig[i as int]);
                    assert(orig[i as int].name == name@);
                }
                let r = self.records.remove(i);
                proof {
                    assert(r@ == orig[i as int]);
                }
                let r2 = bump_record(r, tag);
                let ghost mid = self.records@;
                self.records.insert(i, r2);
                proof {
                    pre.remove_ensures(i as int);
                    mid.insert_ensures(i as int, r2);
                    assert forall|k: int| 0 <= k < n implies self@[k] == (if k == i as int {
                        bump(orig[k], tag)
                    } else {
                        before[k]
                    }) by {
                        if k < i as int {
                            assert(self.records@[k] == mid[k]);
                            assert(mid[k] == pre[k]);
                        } else if k == i as int {
                            assert(self.records@[k] == r2);
                        } else {
                            assert(self.records@[(k - 1) + 1] == mid[k - 1]);
                            assert(mid[k - 1] == pre[k]);
                        }
                    }
                }
            }
            i += 1;
        }
        proof {
            if old(self).wf() {
                assert forall|k: int| 0 <= k < self@.len() implies (#[trigger] self@[k]).wf() by {
                    if orig[k].name == name@ {
                        lemma_bump_wf(orig[k], tag);
                    }
                }
            }
        }
    }
}

} // verus!
