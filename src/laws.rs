//! What holds of the ledger across its operations and queries.
use vstd::prelude::*;
use crate::contract::{
    AGContract, ProjectRecord, VoterRecord, all_voters_part, project_coins, project_keys_unique,
    project_part, voter_coins, voter_keys_unique, voter_part,
};
use crate::coins::{lemma_project_coin_source, lemma_voter_coin_source};
use crate::sums::{lemma_sum_zero, sum_of};

verus! {

/// In a well-formed ledger, for every round, project and currency, the
/// amounts of all voters add up to the project's total. Every operation keeps
/// the ledger well-formed, so this holds after every successful batch vote.
pub proof fn lemma_voters_add_up(c: &AGContract, r: u64, p: u64, d: Seq<char>)
    requires
        c.wf(),
    ensures
        sum_of(c.voter_table(), all_voters_part(r, p, d)) == sum_of(c.project_table(), project_part(r, p, d)),
{
    assert(c.voters_total(r, p, d) == c.project_total(r, p, d));
}

/// Once initialized, the current round is one more than the number of rounds
/// closed: `instantiate` starts both at round 1 with none closed, `end_round`
/// advances both by one, and every other operation keeps both.
pub proof fn lemma_round_counts_closed_rounds(c: &AGContract)
    requires
        c.wf(),
        c.round() is Some,
    ensures
        c.round()->Some_0 == 1 + c.rounds_ended(),
{
}

/// Each coin that the project query lists for `(r, p)` carries the project's
/// total in that currency for that round.
pub proof fn lemma_project_query_totals(c: &AGContract, r: u64, p: u64, i: int)
    requires
        c.wf(),
        0 <= i < project_coins(c.project_table(), r, p).len(),
    ensures
        project_coins(c.project_table(), r, p)[i].1 == c.project_total(r, p, project_coins(c.project_table(), r, p)[i].0),
{
    lemma_project_coin_total(c.project_table(), r, p, i);
}

/// Each coin that the voter query lists for `(r, p, v)` carries that voter's
/// total in that currency for that project and round.
pub proof fn lemma_voter_query_totals(c: &AGContract, r: u64, p: u64, v: Seq<char>, i: int)
    requires
        c.wf(),
        0 <= i < voter_coins(c.voter_table(), r, p, v).len(),
    ensures
        voter_coins(c.voter_table(), r, p, v)[i].1 == c.voter_total(r, p, v, voter_coins(c.voter_table(), r, p, v)[i].0),
{
    lemma_voter_coin_total(c.voter_table(), r, p, v, i);
}

proof fn lemma_project_coin_total(s: Seq<ProjectRecord>, r: u64, p: u64, i: int)
    requires
        project_keys_unique(s),
        0 <= i < project_coins(s, r, p).len(),
    ensures
        project_coins(s, r, p)[i].1 == sum_of(s, project_part(r, p, project_coins(s, r, p)[i].0)),
    decreases s.len(),
{
    let t = s.drop_last();
    let last = s.last();
    let rest = project_coins(t, r, p);
    let d = project_coins(s, r, p)[i].0;
    let f = project_part(r, p, d);
    assert(project_keys_unique(t)) by {
        assert forall|a: int, b: int| 0 <= a < b < t.len() implies !crate::contract::same_project_key(#[trigger] t[a], #[trigger] t[b]) by {
            assert(t[a] == s[a] && t[b] == s[b]);
        }
    }
    if i < rest.len() {
        lemma_project_coin_total(t, r, p, i);
        lemma_project_coin_source(t, r, p, i);
        let j = choose|j: int| 0 <= j < t.len() && #[trigger] t[j].round == r && t[j].project == p && t[j].denom@ == rest[i].0 && t[j].amount == rest[i].1;
        assert(s[j] == t[j]);
        assert(!crate::contract::same_project_key(s[j], s[s.len() - 1]));
        assert(f(last) == 0);
    } else {
        assert forall|j: int| 0 <= j < t.len() implies f(#[trigger] t[j]) == 0 by {
            assert(s[j] == t[j]);
            assert(!crate::contract::same_project_key(s[j], s[s.len() - 1]));
        }
        lemma_sum_zero(t, f);
    }
}

proof fn lemma_voter_coin_total(s: Seq<VoterRecord>, r: u64, p: u64, v: Seq<char>, i: int)
    requires
        voter_keys_unique(s),
        0 <= i < voter_coins(s, r, p, v).len(),
    ensures
        voter_coins(s, r, p, v)[i].1 == sum_of(s, voter_part(r, p, v, voter_coins(s, r, p, v)[i].0)),
    decreases s.len(),
{
    let t = s.drop_last();
    let last = s.last();
    let rest = voter_coins(t, r, p, v);
    let d = voter_coins(s, r, p, v)[i].0;
    let f = voter_part(r, p, v, d);
    assert(voter_keys_unique(t)) by {
        assert forall|a: int, b: int| 0 <= a < b < t.len() implies !crate::contract::same_voter_key(#[trigger] t[a], #[trigger] t[b]) by {
            assert(t[a] == s[a] && t[b] == s[b]);
        }
    }
    if i < rest.len() {
        lemma_voter_coin_total(t, r, p, v, i);
        lemma_voter_coin_source(t, r, p, v, i);
        let j = choose|j: int|
            0 <= j < t.len() && #[trigger] t[j].round == r && t[j].project == p && t[j].voter@ == v && t[j].denom@ == rest[i].0
                && t[j].amount == rest[i].1;
        assert(s[j] == t[j]);
        assert(!crate::contract::same_voter_key(s[j], s[s.len() - 1]));
        assert(f(last) == 0);
    } else {
        assert forall|j: int| 0 <= j < t.len() implies f(#[trigger] t[j]) == 0 by {
            assert(s[j] == t[j]);
            assert(!crate::contract::same_voter_key(s[j], s[s.len() - 1]));
        }
        lemma_sum_zero(t, f);
    }
}

} // verus!
