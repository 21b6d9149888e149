//! The leaderboard ranker: a pure projection of the record snapshot into
//! an ordered top-N list for one game, with a safe win-rate computation.

use vstd::prelude::*;
use vstd::multiset::Multiset;
use vstd::arithmetic::div_mod::{
    lemma_div_is_ordered,
    lemma_div_multiples_vanish,
    lemma_fundamental_div_mod,
};
use crate::record::{Game, PlayerRecord, RecordV};
use crate::store::{delete_spec, lemma_delete_element_source};

verus! {

/// The integer win rate shown for `won` wins out of `played` games:
/// `won / played * 100`, rounded to the nearest whole percent with ties
/// going to the even neighbour. A record with no games played shows `0`
/// rather than an undefined rate.
pub open spec fn rate_of(won: int, played: int) -> int {
    if played <= 0 {
        0
    } else {
        let q = 100 * won / played;
        let r = 100 * won % played;
        if 2 * r < played {
            q
        } else if 2 * r > played {
            q + 1
        } else if q % 2 == 0 {
            q
        } else {
            q + 1
        }
    }
}

/// Computes `rate_of`. The win rate is never undefined or negative, and a
/// record with no games played always shows `0`.
pub fn win_rate(won: u64, played: u64) -> (r: u64)
    requires
        won <= played,
    ensures
        r == rate_of(won as int, played as int),
        r <= 100,
        played == 0 ==> r == 0,
{
    if played == 0 {
        return 0;
    }
    let w: u128 = won as u128;
    let p: u128 = played as u128;
    let q: u128 = (100 * w) / p;
    let rem: u128 = (100 * w) % p;
    proof {
        lemma_div_is_ordered(100 * (w as int), 100 * (p as int), p as int);
        lemma_div_multiples_vanish(p as int, 100);
        assert(100 * (p as int) / (p as int) == 100) by {
            lemma_div_is_ordered(100 * (p as int), 100 * (p as int), p as int);
            lemma_fundamental_div_mod(100 * (p as int), p as int);
            assert((p as int) * 100 == 100 * (p as int));
            lemma_div_multiples_vanish(100, p as int);
        }
        assert(q <= 100);
        if q == 100 {
            lemma_fundamental_div_mod(100 * (w as int), p as int);
            assert(rem == 0);
        }
    }
    let rate: u128 = if 2 * rem < p {
        q
    } else if 2 * rem > p {
        q + 1
    } else if q % 2 == 0 {
        q
    } else {
        q + 1
    };
    proof {
        assert(rate <= 100);
    }
    rate as u64
}

/// Mathematical model of one leaderboard candidate: the record's position
/// in the snapshot and its counters for the ranked game.
pub ghost struct StatV {
    pub idx: int,
    pub name: Seq<char>,
    pub won: int,
    pub played: int,
}

/// One leaderboard candidate: a record's name and counters for one game,
/// tagged with its position in the snapshot it was drawn from.
pub struct Stat {
    pub idx: usize,
    pub name: String,
    pub won: u64,
    pub played: u64,
}

impl View for Stat {
    type V = StatV;

    open spec fn view(&self) -> StatV {
        StatV {
            idx: self.idx as int,
            name: self.name@,
            won: self.won as int,
            played: self.played as int,
        }
    }
}

/// The views of a run of candidates.
pub open spec fn stat_views(v: Seq<Stat>) -> Seq<StatV> {
    Seq::new(v.len(), |i: int| v[i]@)
}

/// The views of a run of records.
pub open spec fn record_views(v: Seq<PlayerRecord>) -> Seq<RecordV> {
    Seq::new(v.len(), |i: int| v[i]@)
}

/// The strict ranking order: more wins first; at equal wins, fewer games
/// played first; any remaining tie broken by snapshot position, which
/// makes the order total and the leaderboard deterministic.
pub open spec fn ranks_before(a: StatV, b: StatV) -> bool {
    a.won > b.won || (a.won == b.won && a.played < b.played) || (a.won == b.won && a.played
        == b.played && a.idx < b.idx)
}

/// Decides `ranks_before` on two candidates.
pub fn stat_ranks_before(a: &Stat, b: &Stat) -> (r: bool)
    ensures
        r == ranks_before(a@, b@),
{
    a.won > b.won || (a.won == b.won && a.played < b.played) || (a.won == b.won && a.played
        == b.played && a.idx < b.idx)
}

/// `x` inserted directly in front of the first element it outranks.
pub open spec fn insert_ranked(s: Seq<StatV>, x: StatV) -> Seq<StatV>
    decreases s.len(),
{
    if s.len() == 0 {
        seq![x]
    } else if ranks_before(x, s[0]) {
        seq![x] + s
    } else {
        seq![s[0]] + insert_ranked(s.drop_first(), x)
    }
}

/// Insertion sort of the candidates under `ranks_before`. Because the
/// order is total over distinct snapshot positions, this is the one
/// ranking the contracts below promise.
pub open spec fn sort_ranked(s: Seq<StatV>) -> Seq<StatV>
    decreases s.len(),
{
    if s.len() == 0 {
        Seq::empty()
    } else {
        insert_ranked(sort_ranked(s.drop_first()), s[0])
    }
}

/// Whether a run of candidates is ranked: no later one outranks an
/// earlier one.
pub open spec fn is_ranked(s: Seq<StatV>) -> bool {
    forall|i: int, j: int| 0 <= i < j < s.len() ==> !ranks_before(s[j], s[i])
}

/// The candidates one game draws from a record snapshot.
pub open spec fn stats_of(s: Seq<RecordV>, game: Game) -> Seq<StatV> {
    Seq::new(
        s.len(),
        |i: int| (StatV {
            idx: i,
            name: s[i].name,
            won: s[i].won_of(game),
            played: s[i].played_of(game),
        }),
    )
}

/// Mathematical model of one displayed leaderboard row.
pub ghost struct EntryV {
    pub rank: int,
    pub name: Seq<char>,
    pub won: int,
    pub played: int,
    pub rate: int,
}

/// One displayed leaderboard row: 1-based rank, name, the two counters,
/// and the win-rate percentage.
pub struct RankedEntry {
    pub rank: usize,
    pub name: String,
    pub won: u64,
    pub played: u64,
    pub rate: u64,
}

impl View for RankedEntry {
    type V = EntryV;

    open spec fn view(&self) -> EntryV {
        EntryV {
            rank: self.rank as int,
            name: self.name@,
            won: self.won as int,
            played: self.played as int,
            rate: self.rate as int,
        }
    }
}

/// The views of a run of rows.
pub open spec fn entry_views(v: Seq<RankedEntry>) -> Seq<EntryV> {
    Seq::new(v.len(), |i: int| v[i]@)
}

/// The row a candidate produces at a given 1-based rank.
pub open spec fn entry_of(s: StatV, rank: int) -> EntryV {
    EntryV { rank, name: s.name, won: s.won, played: s.played, rate: rate_of(s.won, s.played) }
}

/// The whole leaderboard of one game: the candidates ranked, cut to the
/// first `n`, each row carrying its 1-based rank and win rate.
pub open spec fn leaderboard_spec(s: Seq<RecordV>, game: Game, n: nat) -> Seq<EntryV> {
    let sorted = sort_ranked(stats_of(s, game));
    let m: nat = if n <= s.len() {
        n
    } else {
        s.len()
    };
    Seq::new(m, |k: int| entry_of(sorted[k], k + 1))
}

/// A nonempty run is its first element in front of the rest, so its
/// multiset is the rest's plus that element.
proof fn lemma_to_multiset_cons(s: Seq<StatV>)
    requires
        s.len() > 0,
    ensures
        s.to_multiset() =~= s.drop_first().to_multiset().insert(s[0]),
{
    broadcast use vstd::seq_lib::group_to_multiset_ensures;
    broadcast use vstd::multiset::group_multiset_axioms;

    assert(s.remove(0) =~= s.drop_first());
    assert(s.contains(s[0]));
    assert(s.to_multiset().count(s[0]) > 0);
    assert(s.remove(0).to_multiset() =~= s.to_multiset().remove(s[0]));
}

/// Inserting a candidate adds exactly it to the ranking's contents.
pub proof fn lemma_insert_ranked_multiset(s: Seq<StatV>, x: StatV)
    ensures
        insert_ranked(s, x).len() == s.len() + 1,
        insert_ranked(s, x).to_multiset() =~= s.to_multiset().insert(x),
    decreases s.len(),
{
    broadcast use vstd::seq_lib::group_to_multiset_ensures;
    broadcast use vstd::multiset::group_multiset_axioms;

    if s.len() == 0 {
        assert(seq![x] =~= Seq::<StatV>::empty().push(x));
        assert(s.to_multiset() =~= Multiset::<StatV>::empty());
    } else if ranks_before(x, s[0]) {
        let r = seq![x] + s;
        lemma_to_multiset_cons(r);
        assert(r.drop_first() =~= s);
        lemma_to_multiset_cons(s);
    } else {
        let t = insert_ranked(s.drop_first(), x);
        lemma_insert_ranked_multiset(s.drop_first(), x);
        let r = seq![s[0]] + t;
        lemma_to_multiset_cons(r);
        assert(r.drop_first() =~= t);
        lemma_to_multiset_cons(s);
    }
}

/// Ranking is a permutation: it neither loses nor invents candidates.
pub proof fn lemma_sort_ranked_multiset(s: Seq<StatV>)
    ensures
        sort_ranked(s).len() == s.len(),
        sort_ranked(s).to_multiset() =~= s.to_multiset(),
    decreases s.len(),
{
    broadcast use vstd::seq_lib::group_to_multiset_ensures;
    broadcast use vstd::multiset::group_multiset_axioms;

    if s.len() == 0 {
    } else {
        lemma_sort_ranked_multiset(s.drop_first());
        lemma_insert_ranked_multiset(sort_ranked(s.drop_first()), s[0]);
        lemma_to_multiset_cons(s);
    }
}

/// Every candidate in a ranking came from the run that was ranked.
pub proof fn lemma_sort_ranked_element_source(s: Seq<StatV>, k: int)
    requires
        0 <= k < sort_ranked(s).len(),
    ensures
        exists|m: int| 0 <= m < s.len() && s[m] == sort_ranked(s)[k],
{
    broadcast use vstd::seq_lib::group_to_multiset_ensures;
    broadcast use vstd::multiset::group_multiset_axioms;

    lemma_sort_ranked_multiset(s);
    let so = sort_ranked(s);
    assert(so.contains(so[k]));
    assert(s.to_multiset().count(so[k]) > 0);
    assert(s.contains(so[k]));
    let m = choose|m: int| 0 <= m < s.len() && s[m] == so[k];
    assert(s[m] == so[k]);
}

/// Inserting into a ranked run keeps it ranked.
proof fn lemma_insert_ranked_is_ranked(s: Seq<StatV>, x: StatV)
    requires
        is_ranked(s),
    ensures
        is_ranked(insert_ranked(s, x)),
    decreases s.len(),
{
    broadcast use vstd::seq_lib::group_to_multiset_ensures;
    broadcast use vstd::multiset::group_multiset_axioms;

    if s.len() == 0 {
    } else if ranks_before(x, s[0]) {
        let r = seq![x] + s;
        assert forall|i: int, j: int| 0 <= i < j < r.len() implies !ranks_before(r[j], r[i]) by {
            if i == 0 {
                assert(r[j] == s[j - 1]);
                if j > 1 {
                    assert(!ranks_before(s[j - 1], s[0]));
                }
            } else {
                assert(r[i] == s[i - 1] && r[j] == s[j - 1]);
            }
        }
    } else {
        let d = s.drop_first();
        assert(is_ranked(d)) by {
            assert(forall|i: int| 0 <= i < d.len() ==> d[i] == s[i + 1]);
        }
        lemma_insert_ranked_is_ranked(d, x);
        let t = insert_ranked(d, x);
        lemma_insert_ranked_multiset(d, x);
        let r = seq![s[0]] + t;
        assert forall|i: int, j: int| 0 <= i < j < r.len() implies !ranks_before(r[j], r[i]) by {
            if i == 0 {
                assert(r[j] == t[j - 1]);
                assert(t.contains(t[j - 1]));
                assert(t.to_multiset().count(t[j - 1]) > 0);
                if t[j - 1] != x {
                    assert(d.to_multiset().count(t[j - 1]) > 0);
                    assert(d.contains(t[j - 1]));
                    let m = choose|m: int| 0 <= m < d.len() && d[m] == t[j - 1];
                    assert(d[m] == s[m + 1]);
                    assert(!ranks_before(s[m + 1], s[0]));
                } else {
                    assert(!ranks_before(x, s[0]));
                }
            } else {
                assert(r[i] == t[i - 1] && r[j] == t[j - 1]);
            }
        }
    }
}

/// Law: a ranking is ranked — wins descending, then games played
/// ascending, then snapshot position.
pub proof fn lemma_sort_ranked_is_ranked(s: Seq<StatV>)
    ensures
        is_ranked(sort_ranked(s)),
    decreases s.len(),
{
    if s.len() == 0 {
    } else {
        lemma_sort_ranked_is_ranked(s.drop_first());
        lemma_insert_ranked_is_ranked(sort_ranked(s.drop_first()), s[0]);
    }
}

/// Where a scan stopped is where the ranked insertion lands.
proof fn lemma_insert_ranked_at(s: Seq<StatV>, x: StatV, p: int)
    requires
        0 <= p <= s.len(),
        forall|j: int| 0 <= j < p ==> !ranks_before(x, #[trigger] s[j]),
        p < s.len() ==> ranks_before(x, s[p]),
    ensures
        insert_ranked(s, x) == s.insert(p, x),
    decreases p,
{
    if p == 0 {
        if s.len() == 0 {
            assert(insert_ranked(s, x) =~= s.insert(0, x));
        } else {
            assert(ranks_before(x, s[0]));
            assert(seq![x] + s =~= s.insert(0, x));
        }
    } else {
        assert(!ranks_before(x, s[0]));
        let d = s.drop_first();
        assert(forall|j: int| 0 <= j < p - 1 ==> !ranks_before(x, #[trigger] d[j]));
        lemma_insert_ranked_at(d, x, p - 1);
        assert(seq![s[0]] + d.insert(p - 1, x) =~= s.insert(p, x)) by {
            d.insert_ensures(p - 1, x);
            s.insert_ensures(p, x);
        }
    }
}

/// Inserts a candidate in front of the first current entry it outranks.
fn insert_stat(v: &mut Vec<Stat>, x: Stat)
    ensures
        stat_views(final(v)@) == insert_ranked(stat_views(old(v)@), x@),
{
    let ghost pre = stat_views(v@);
    let mut i: usize = 0;
    while i < v.len()
        invariant
            i <= v.len(),
            v@ == old(v)@,
            pre == stat_views(v@),
            forall|j: int| 0 <= j < i ==> !ranks_before(x@, #[trigger] pre[j]),
        ensures
            i <= v.len(),
            v@ == old(v)@,
            forall|j: int| 0 <= j < i ==> !ranks_before(x@, #[trigger] pre[j]),
            i < v.len() ==> ranks_before(x@, pre[i as int]),
        decreases v.len() - i,
    {
        let outranked = stat_ranks_before(&x, &v[i]);
        proof {
            assert(i < v@.len());
            assert(pre.len() == v@.len());
            assert(pre[i as int] == v@[i as int]@);
        }
        if outranked {
            break;
        }
        i += 1;
    }
    proof {
        lemma_insert_ranked_at(pre, x@, i as int);
    }
    v.insert(i, x);
    proof {
        old(v)@.insert_ensures(i as int, x);
        pre.insert_ensures(i as int, x@);
        assert(stat_views(v@) =~= pre.insert(i as int, x@));
    }
}

/// Ranks a run of candidates under `ranks_before` by insertion.
pub fn sort_stats(v: Vec<Stat>) -> (r: Vec<Stat>)
    ensures
        stat_views(r@) == sort_ranked(stat_views(v@)),
{
    let ghost orig = stat_views(v@);
    let mut rest = v;
    let mut out: Vec<Stat> = Vec::new();
    proof {
        assert(stat_views(out@) =~= Seq::<StatV>::empty());
        assert(orig.skip(rest@.len() as int) =~= Seq::<StatV>::empty());
        assert(stat_views(rest@) =~= orig);
    }
    while rest.len() > 0
        invariant
            rest@.len() <= orig.len(),
            stat_views(rest@) == orig.take(rest@.len() as int),
            stat_views(out@) == sort_ranked(orig.skip(rest@.len() as int)),
        decreases rest@.len(),
    {
        let ghost k = rest@.len() as int - 1;
        let ghost pre = stat_views(rest@);
        let x = match rest.pop() {
            Some(x) => x,
            None => {
                proof {
                    assert(false);
                }
                unreached()
            },
        };
        proof {
            assert(x@ == pre[k]);
            assert(pre[k] == orig[k]);
            assert(stat_views(rest@) =~= orig.take(k));
            assert(orig.skip(k).drop_first() =~= orig.skip(k + 1));
            assert(orig.skip(k)[0] == orig[k]);
        }
        insert_stat(&mut out, x);
        proof {
            assert(stat_views(out@) == insert_ranked(
                sort_ranked(orig.skip(k + 1)),
                orig[k],
            ));
            assert(sort_ranked(orig.skip(k)) == insert_ranked(
                sort_ranked(orig.skip(k).drop_first()),
                orig.skip(k)[0],
            ));
        }
    }
    proof {
        assert(orig.skip(0) =~= orig);
    }
    out
}

/// Every ranked candidate of a well-formed snapshot shows no more wins
/// than games played.
proof fn lemma_sorted_stats_wf(s: Seq<RecordV>, game: Game, k: int)
    requires
        forall|i: int| 0 <= i < s.len() ==> (#[trigger] s[i]).wf(),
        0 <= k < sort_ranked(stats_of(s, game)).len(),
    ensures
        0 <= sort_ranked(stats_of(s, game))[k].won <= sort_ranked(stats_of(s, game))[k].played,
{
    let st = stats_of(s, game);
    lemma_sort_ranked_element_source(st, k);
    let m = choose|m: int| 0 <= m < st.len() && st[m] == sort_ranked(st)[k];
    assert(s[m].wf());
}

/// The leaderboard of one game over a record snapshot: the candidates
/// ranked under `ranks_before`, cut to the first `n`, each row carrying
/// its 1-based rank and win rate. A pure projection: nothing is mutated.
pub fn leaderboard(records: &Vec<PlayerRecord>, game: Game, n: usize) -> (r: Vec<RankedEntry>)
    requires
        forall|i: int| 0 <= i < records@.len() ==> (#[trigger] records@[i])@.wf(),
    ensures
        entry_views(r@) == leaderboard_spec(record_views(records@), game, n as nat),
{
    let ghost recs = record_views(records@);
    let ghost cands = stats_of(recs, game);
    let mut stats: Vec<Stat> = Vec::new();
    let len = records.len();
    let mut i: usize = 0;
    proof {
        assert(stat_views(stats@) =~= cands.take(0));
    }
    while i < len
        invariant
            i <= len,
            len == records@.len(),
            cands == stats_of(record_views(records@), game),
            stat_views(stats@) == cands.take(i as int),
        decreases len - i,
    {
        let (won, played) = match game {
            Game::C4 => (records[i].c4_won, records[i].c4_played),
            Game::Toot => (records[i].toot_won, records[i].toot_played),
        };
        let stat = Stat { idx: i, name: records[i].name.clone(), won, played };
        let ghost prev = stat_views(stats@);
        proof {
            assert(stat@ == cands[i as int]);
        }
        stats.push(stat);
        proof {
            assert(stat_views(stats@) =~= prev.push(cands[i as int]));
            assert(cands.take(i + 1) =~= cands.take(i as int).push(cands[i as int]));
        }
        i += 1;
    }
    proof {
        assert(cands.take(len as int) =~= cands);
        lemma_sort_ranked_multiset(cands);
    }
    let sorted = sort_stats(stats);
    let ghost sortedv = sort_ranked(cands);
    let m = if n < sorted.len() {
        n
    } else {
        sorted.len()
    };
    let mut rest = sorted;
    let mut out: Vec<RankedEntry> = Vec::new();
    let mut k: usize = 0;
    proof {
        assert(entry_views(out@) =~= Seq::new(0, |j: int| entry_of(sortedv[j], j + 1)));
        assert(stat_views(rest@) =~= sortedv.skip(0));
    }
    while k < m
        invariant
            k <= m,
            m as int <= sortedv.len(),
            sortedv == sort_ranked(stats_of(record_views(records@), game)),
            forall|i0: int| 0 <= i0 < records@.len() ==> (#[trigger] records@[i0])@.wf(),
            stat_views(rest@) == sortedv.skip(k as int),
            entry_views(out@) == Seq::new(k as nat, |j: int| entry_of(sortedv[j], j + 1)),
        decreases m - k,
    {
        let ghost pre_rest = stat_views(rest@);
        let ghost pre_vec = rest@;
        proof {
            assert(pre_rest.len() == pre_vec.len());
            assert(pre_rest.len() == sortedv.skip(k as int).len());
            assert(sortedv.skip(k as int).len() == sortedv.len() - k);
            assert(pre_vec.len() > 0);
        }
        let s = rest.remove(0);
        proof {
            assert(s@ == pre_rest[0]);
            assert(s@ == sortedv[k as int]);
            assert(stat_views(rest@) =~= sortedv.skip(k + 1)) by {
                pre_vec.remove_ensures(0);
                assert(rest@.len() == pre_rest.len() - 1);
                assert forall|j: int| 0 <= j < rest@.len() implies rest@[j]@ == sortedv.skip(
                    k + 1,
                )[j] by {
                    assert(rest@[j] == pre_vec[j + 1]);
                    assert(pre_rest[j + 1] == pre_vec[j + 1]@);
                    assert(pre_rest[j + 1] == sortedv.skip(k as int)[j + 1]);
                    assert(sortedv.skip(k as int)[j + 1] == sortedv[k + 1 + j]);
                    assert(sortedv.skip(k + 1)[j] == sortedv[k + 1 + j]);
                }
            }
            lemma_sorted_stats_wf(record_views(records@), game, k as int);
        }
        let rate = win_rate(s.won, s.played);
        let row = RankedEntry { rank: k + 1, name: s.name, won: s.won, played: s.played, rate };
        let ghost prev_out = entry_views(out@);
        proof {
            assert(row@ == entry_of(sortedv[k as int], k + 1));
        }
        out.push(row);
        proof {
            assert(entry_views(out@) =~= prev_out.push(row@));
            assert(Seq::new((k + 1) as nat, |j: int| entry_of(sortedv[j], j + 1)) =~= prev_out.push(
                row@,
            ));
        }
        k += 1;
    }
    proof {
        assert(entry_views(out@) =~= leaderboard_spec(record_views(records@), game, n as nat));
    }
    out
}

/// Law: leaderboard rows are ordered — a row never shows more wins than
/// the row above it, and at equal wins never fewer games played.
pub proof fn lemma_leaderboard_ordered(s: Seq<RecordV>, game: Game, n: nat)
    ensures
        forall|k1: int, k2: int|
            0 <= k1 < k2 < leaderboard_spec(s, game, n).len() ==> ((#[trigger] leaderboard_spec(
                s,
                game,
                n,
            )[k2]).won < (#[trigger] leaderboard_spec(s, game, n)[k1]).won || (leaderboard_spec(
                s,
                game,
                n,
            )[k2].won == leaderboard_spec(s, game, n)[k1].won && leaderboard_spec(
                s,
                game,
                n,
            )[k2].played >= leaderboard_spec(s, game, n)[k1].played)),
{
    let st = stats_of(s, game);
    let so = sort_ranked(st);
    lemma_sort_ranked_is_ranked(st);
    lemma_sort_ranked_multiset(st);
    let lb = leaderboard_spec(s, game, n);
    assert forall|k1: int, k2: int| 0 <= k1 < k2 < lb.len() implies ((#[trigger] lb[k2]).won < (
    #[trigger] lb[k1]).won || (lb[k2].won == lb[k1].won && lb[k2].played >= lb[k1].played)) by {
        assert(lb[k1] == entry_of(so[k1], k1 + 1));
        assert(lb[k2] == entry_of(so[k2], k2 + 1));
        assert(!ranks_before(so[k2], so[k1]));
    }
}

/// Law: a deleted name contributes no row to any leaderboard.
pub proof fn lemma_delete_then_no_entries(s: Seq<RecordV>, name: Seq<char>, game: Game, n: nat)
    ensures
        forall|k: int|
            0 <= k < leaderboard_spec(delete_spec(s, name), game, n).len() ==> (
            #[trigger] leaderboard_spec(delete_spec(s, name), game, n)[k]).name != name,
{
    let d = delete_spec(s, name);
    let st = stats_of(d, game);
    let so = sort_ranked(st);
    lemma_sort_ranked_multiset(st);
    let lb = leaderboard_spec(d, game, n);
    assert forall|k: int| 0 <= k < lb.len() implies (#[trigger] lb[k]).name != name by {
        assert(lb[k] == entry_of(so[k], k + 1));
        lemma_sort_ranked_element_source(st, k);
        let m = choose|m: int| 0 <= m < st.len() && st[m] == so[k];
        assert(st[m].name == d[m].name);
        lemma_delete_element_source(s, name, m);
    }
}

} // verus!
