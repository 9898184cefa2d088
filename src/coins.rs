//! What the two queries list: the coins of a (round, project) or
//! (round, project, voter) entry, and how crediting an amount changes them.
use vstd::prelude::*;
use crate::contract::{
    ProjectRecord, VoterRecord, project_coins, project_keys_unique, same_project_key, same_voter_key,
    voter_coins, voter_keys_unique,
};

verus! {

/// `coins` with `a` added to the coin of currency `d`, or with the coin
/// `(d, a)` appended when there is none.
pub open spec fn credited(coins: Seq<(Seq<char>, u128)>, d: Seq<char>, a: int) -> Seq<(Seq<char>, u128)> {
    if exists|i: int| 0 <= i < coins.len() && #[trigger] coins[i].0 == d {
        let i = choose|i: int| 0 <= i < coins.len() && #[trigger] coins[i].0 == d;
        coins.update(i, (d, (coins[i].1 + a) as u128))
    } else {
        coins.push((d, a as u128))
    }
}

/// No two coins share a currency.
pub open spec fn denoms_unique(coins: Seq<(Seq<char>, u128)>) -> bool {
    forall|i: int, j: int| 0 <= i < j < coins.len() ==> (#[trigger] coins[i]).0 != (#[trigger] coins[j]).0
}

/// Crediting the coin at `i`, the only one of its currency.
pub proof fn lemma_credited_at(coins: Seq<(Seq<char>, u128)>, i: int, a: int)
    requires
        denoms_unique(coins),
        0 <= i < coins.len(),
    ensures
        credited(coins, coins[i].0, a) == coins.update(i, (coins[i].0, (coins[i].1 + a) as u128)),
{
    let d = coins[i].0;
    assert(0 <= i < coins.len() && coins[i].0 == d);
    let j = choose|j: int| 0 <= j < coins.len() && #[trigger] coins[j].0 == d;
    if j != i {
        if j < i {
            assert(coins[j].0 != coins[i].0);
        } else {
            assert(coins[i].0 != coins[j].0);
        }
    }
}

pub proof fn lemma_project_coin_source(s: Seq<ProjectRecord>, r: u64, p: u64, i: int)
    requires
        0 <= i < project_coins(s, r, p).len(),
    ensures
        exists|j: int|
            0 <= j < s.len() && #[trigger] s[j].round == r && s[j].project == p && s[j].denom@ == project_coins(s, r, p)[i].0
                && s[j].amount == project_coins(s, r, p)[i].1,
    decreases s.len(),
{
    let t = s.drop_last();
    let rest = project_coins(t, r, p);
    if i < rest.len() {
        lemma_project_coin_source(t, r, p, i);
        let j = choose|j: int|
            0 <= j < t.len() && #[trigger] t[j].round == r && t[j].project == p && t[j].denom@ == rest[i].0 && t[j].amount == rest[i].1;
        assert(s[j] == t[j]);
    } else {
        assert(s[s.len() - 1].round == r);
    }
}

pub proof fn lemma_voter_coin_source(s: Seq<VoterRecord>, r: u64, p: u64, v: Seq<char>, i: int)
    requires
        0 <= i < voter_coins(s, r, p, v).len(),
    ensures
        exists|j: int|
            0 <= j < s.len() && #[trigger] s[j].round == r && s[j].project == p && s[j].voter@ == v
                && s[j].denom@ == voter_coins(s, r, p, v)[i].0 && s[j].amount == voter_coins(s, r, p, v)[i].1,
    decreases s.len(),
{
    let t = s.drop_last();
    let rest = voter_coins(t, r, p, v);
    if i < rest.len() {
        lemma_voter_coin_source(t, r, p, v, i);
        let j = choose|j: int|
            0 <= j < t.len() && #[trigger] t[j].round == r && t[j].project == p && t[j].voter@ == v && t[j].denom@ == rest[i].0
                && t[j].amount == rest[i].1;
        assert(s[j] == t[j]);
    } else {
        assert(s[s.len() - 1].round == r);
    }
}

pub proof fn lemma_project_keys_unique_prefix(s: Seq<ProjectRecord>)
    requires
        project_keys_unique(s),
        s.len() > 0,
    ensures
        project_keys_unique(s.drop_last()),
{
    let t = s.drop_last();
    assert forall|a: int, b: int| 0 <= a < b < t.len() implies !same_project_key(#[trigger] t[a], #[trigger] t[b]) by {
        assert(t[a] == s[a] && t[b] == s[b]);
    }
}

pub proof fn lemma_voter_keys_unique_prefix(s: Seq<VoterRecord>)
    requires
        voter_keys_unique(s),
        s.len() > 0,
    ensures
        voter_keys_unique(s.drop_last()),
{
    let t = s.drop_last();
    assert forall|a: int, b: int| 0 <= a < b < t.len() implies !same_voter_key(#[trigger] t[a], #[trigger] t[b]) by {
        assert(t[a] == s[a] && t[b] == s[b]);
    }
}

pub proof fn lemma_project_coins_unique(s: Seq<ProjectRecord>, r: u64, p: u64)
    requires
        project_keys_unique(s),
    ensures
        denoms_unique(project_coins(s, r, p)),
    decreases s.len(),
{
    if s.len() > 0 {
        let t = s.drop_last();
        lemma_project_keys_unique_prefix(s);
        lemma_project_coins_unique(t, r, p);
        let rest = project_coins(t, r, p);
        let c = project_coins(s, r, p);
        if s.last().round == r && s.last().project == p {
            assert forall|i: int, j: int| 0 <= i < j < c.len() implies (#[trigger] c[i]).0 != (#[trigger] c[j]).0 by {
                if j == rest.len() {
                    lemma_project_coin_source(t, r, p, i);
                    let k = choose|k: int|
                        0 <= k < t.len() && #[trigger] t[k].round == r && t[k].project == p && t[k].denom@ == rest[i].0
                            && t[k].amount == rest[i].1;
                    assert(s[k] == t[k]);
                    assert(!same_project_key(s[k], s[s.len() - 1]));
                } else {
                    assert(c[i] == rest[i] && c[j] == rest[j]);
                }
            }
        }
    }
}

pub proof fn lemma_voter_coins_unique(s: Seq<VoterRecord>, r: u64, p: u64, v: Seq<char>)
    requires
        voter_keys_unique(s),
    ensures
        denoms_unique(voter_coins(s, r, p, v)),
    decreases s.len(),
{
    if s.len() > 0 {
        let t = s.drop_last();
        lemma_voter_keys_unique_prefix(s);
        lemma_voter_coins_unique(t, r, p, v);
        let rest = voter_coins(t, r, p, v);
        let c = voter_coins(s, r, p, v);
        if s.last().round == r && s.last().project == p && s.last().voter@ == v {
            assert forall|i: int, j: int| 0 <= i < j < c.len() implies (#[trigger] c[i]).0 != (#[trigger] c[j]).0 by {
                if j == rest.len() {
                    lemma_voter_coin_source(t, r, p, v, i);
                    let k = choose|k: int|
                        0 <= k < t.len() && #[trigger] t[k].round == r && t[k].project == p && t[k].voter@ == v
                            && t[k].denom@ == rest[i].0 && t[k].amount == rest[i].1;
                    assert(s[k] == t[k]);
                    assert(!same_voter_key(s[k], s[s.len() - 1]));
                } else {
                    assert(c[i] == rest[i] && c[j] == rest[j]);
                }
            }
        }
    }
}

/// Replacing a project record by one of the same round and project changes the
/// listed coins of that entry in one place, and no other entry's.
pub proof fn lemma_project_coins_update(s: Seq<ProjectRecord>, k: int, x: ProjectRecord, r: u64, p: u64)
    requires
        0 <= k < s.len(),
        s[k].round == x.round,
        s[k].project == x.project,
    ensures
        !(x.round == r && x.project == p) ==> project_coins(s.update(k, x), r, p) == project_coins(s, r, p),
        x.round == r && x.project == p ==> exists|i: int|
            0 <= i < project_coins(s, r, p).len() && #[trigger] project_coins(s, r, p)[i] == (s[k].denom@, s[k].amount)
                && project_coins(s.update(k, x), r, p) == project_coins(s, r, p).update(i, (x.denom@, x.amount)),
    decreases s.len(),
{
    let t = s.drop_last();
    let u = s.update(k, x);
    if k == s.len() - 1 {
        assert(u.drop_last() =~= t);
        if x.round == r && x.project == p {
            let rest = project_coins(t, r, p);
            assert(project_coins(s, r, p)[rest.len() as int] == (s[k].denom@, s[k].amount));
            assert(project_coins(u, r, p) =~= project_coins(s, r, p).update(rest.len() as int, (x.denom@, x.amount)));
        }
    } else {
        assert(u.drop_last() =~= t.update(k, x));
        lemma_project_coins_update(t, k, x, r, p);
        if x.round == r && x.project == p {
            let i = choose|i: int|
                0 <= i < project_coins(t, r, p).len() && #[trigger] project_coins(t, r, p)[i] == (t[k].denom@, t[k].amount)
                    && project_coins(t.update(k, x), r, p) == project_coins(t, r, p).update(i, (x.denom@, x.amount));
            assert(project_coins(s, r, p)[i] == project_coins(t, r, p)[i]);
            assert(project_coins(u, r, p) =~= project_coins(s, r, p).update(i, (x.denom@, x.amount)));
        }
    }
}

/// Replacing a voter record by one of the same round, project and voter
/// changes the listed coins of that entry in one place, and no other entry's.
pub proof fn lemma_voter_coins_update(s: Seq<VoterRecord>, k: int, x: VoterRecord, r: u64, p: u64, v: Seq<char>)
    requires
        0 <= k < s.len(),
        s[k].round == x.round,
        s[k].project == x.project,
        s[k].voter@ == x.voter@,
    ensures
        !(x.round == r && x.project == p && x.voter@ == v) ==> voter_coins(s.update(k, x), r, p, v) == voter_coins(s, r, p, v),
        x.round == r && x.project == p && x.voter@ == v ==> exists|i: int|
            0 <= i < voter_coins(s, r, p, v).len() && #[trigger] voter_coins(s, r, p, v)[i] == (s[k].denom@, s[k].amount)
                && voter_coins(s.update(k, x), r, p, v) == voter_coins(s, r, p, v).update(i, (x.denom@, x.amount)),
    decreases s.len(),
{
    let t = s.drop_last();
    let u = s.update(k, x);
    if k == s.len() - 1 {
        assert(u.drop_last() =~= t);
        if x.round == r && x.project == p && x.voter@ == v {
            let rest = voter_coins(t, r, p, v);
            assert(voter_coins(s, r, p, v)[rest.len() as int] == (s[k].denom@, s[k].amount));
            assert(voter_coins(u, r, p, v) =~= voter_coins(s, r, p, v).update(rest.len() as int, (x.denom@, x.amount)));
        }
    } else {
        assert(u.drop_last() =~= t.update(k, x));
        lemma_voter_coins_update(t, k, x, r, p, v);
        if x.round == r && x.project == p && x.voter@ == v {
            let i = choose|i: int|
                0 <= i < voter_coins(t, r, p, v).len() && #[trigger] voter_coins(t, r, p, v)[i] == (t[k].denom@, t[k].amount)
                    && voter_coins(t.update(k, x), r, p, v) == voter_coins(t, r, p, v).update(i, (x.denom@, x.amount));
            assert(voter_coins(s, r, p, v)[i] == voter_coins(t, r, p, v)[i]);
            assert(voter_coins(u, r, p, v) =~= voter_coins(s, r, p, v).update(i, (x.denom@, x.amount)));
        }
    }
}

} // verus!
