//! The ledger: admins, beneficiary, round counter, and the per-project and
//! per-voter tallies of every round.
use vstd::prelude::*;
use crate::coins::{
    credited, lemma_credited_at, lemma_project_coin_source, lemma_project_coins_unique, lemma_project_coins_update,
    lemma_voter_coin_source, lemma_voter_coins_unique, lemma_voter_coins_update,
};
use crate::error::{ContractError, PaymentError};
use crate::funds::single_coin;
use crate::order::{addr_before, addr_lt, ascending, lemma_bytes_lt_asymmetric, lemma_bytes_lt_transitive};
use crate::sums::{amount_sum, attributed, lemma_amount_sum_mono, lemma_attributed_mono, lemma_sum_bounds_part, lemma_sum_nonneg, lemma_sum_push, lemma_sum_single, lemma_sum_update, lemma_sum_zero, sum_of};
use crate::types::{AdminListResp, Coin, Event, Transfer, VoteReceipt};

verus! {

/// What one project received in one currency during one round.
#[derive(Debug, Clone, PartialEq, Eq)]
pub struct ProjectRecord {
    pub round: u64,
    pub project: u64,
    pub denom: String,
    pub amount: u128,
}

/// What one voter gave to one project in one currency during one round.
#[derive(Debug, Clone, PartialEq, Eq)]
pub struct VoterRecord {
    pub round: u64,
    pub project: u64,
    pub voter: String,
    pub denom: String,
    pub amount: u128,
}

/// The amount a project record adds to the tally of `(r, p, d)`.
pub open spec fn project_part(r: u64, p: u64, d: Seq<char>) -> spec_fn(ProjectRecord) -> int {
    |x: ProjectRecord|
        if x.round == r && x.project == p && x.denom@ == d {
            x.amount as int
        } else {
            0
        }
}

/// The amount a voter record adds to the tally of voter `v` for `(r, p, d)`.
pub open spec fn voter_part(r: u64, p: u64, v: Seq<char>, d: Seq<char>) -> spec_fn(VoterRecord) -> int {
    |x: VoterRecord|
        if x.round == r && x.project == p && x.voter@ == v && x.denom@ == d {
            x.amount as int
        } else {
            0
        }
}

/// The amount a voter record adds to the tally of all voters for `(r, p, d)`.
pub open spec fn all_voters_part(r: u64, p: u64, d: Seq<char>) -> spec_fn(VoterRecord) -> int {
    |x: VoterRecord|
        if x.round == r && x.project == p && x.denom@ == d {
            x.amount as int
        } else {
            0
        }
}

/// The currencies and amounts of the records of project `p` in round `r`, in
/// table order.
pub open spec fn project_coins(s: Seq<ProjectRecord>, r: u64, p: u64) -> Seq<(Seq<char>, u128)>
    decreases s.len(),
{
    if s.len() == 0 {
        seq![]
    } else {
        let rest = project_coins(s.drop_last(), r, p);
        if s.last().round == r && s.last().project == p {
            rest.push((s.last().denom@, s.last().amount))
        } else {
            rest
        }
    }
}

/// The currencies and amounts of the records of voter `v` for project `p` in
/// round `r`, in table order.
pub open spec fn voter_coins(s: Seq<VoterRecord>, r: u64, p: u64, v: Seq<char>) -> Seq<(Seq<char>, u128)>
    decreases s.len(),
{
    if s.len() == 0 {
        seq![]
    } else {
        let rest = voter_coins(s.drop_last(), r, p, v);
        if s.last().round == r && s.last().project == p && s.last().voter@ == v {
            rest.push((s.last().denom@, s.last().amount))
        } else {
            rest
        }
    }
}

pub open spec fn same_project_key(a: ProjectRecord, b: ProjectRecord) -> bool {
    a.round == b.round && a.project == b.project && a.denom@ == b.denom@
}

pub open spec fn same_voter_key(a: VoterRecord, b: VoterRecord) -> bool {
    a.round == b.round && a.project == b.project && a.voter@ == b.voter@ && a.denom@ == b.denom@
}

pub open spec fn views(v: Seq<String>) -> Seq<Seq<char>> {
    v.map_values(|a: String| a@)
}

/// No two project records share round, project and currency.
pub open spec fn project_keys_unique(s: Seq<ProjectRecord>) -> bool {
    forall|i: int, j: int| 0 <= i < j < s.len() ==> !same_project_key(#[trigger] s[i], #[trigger] s[j])
}

/// No two voter records share round, project, voter and currency.
pub open spec fn voter_keys_unique(s: Seq<VoterRecord>) -> bool {
    forall|i: int, j: int| 0 <= i < j < s.len() ==> !same_voter_key(#[trigger] s[i], #[trigger] s[j])
}

/// Whether `a` is among the addresses of `v`.
fn contains_addr(v: &Vec<String>, a: &String) -> (r: bool)
    ensures
        r == views(v@).contains(a@),
{
    let mut i: usize = 0;
    while i < v.len()
        invariant
            i <= v@.len(),
            forall|j: int| 0 <= j < i ==> v@[j]@ != a@,
        decreases v@.len() - i,
    {
        if v[i] == *a {
            assert(views(v@)[i as int] == a@);
            return true;
        }
        i = i + 1;
    }
    proof {
        if views(v@).contains(a@) {
            let k = choose|k: int| 0 <= k < views(v@).len() && views(v@)[k] == a@;
            assert(v@[k]@ == a@);
        }
    }
    false
}

/// Inserts `a`, which `v` does not hold, at its place in ascending order.
fn insert_sorted(v: &mut Vec<String>, a: String)
    requires
        ascending(views(old(v)@)),
        views(old(v)@).no_duplicates(),
        !views(old(v)@).contains(a@),
    ensures
        ascending(views(final(v)@)),
        views(final(v)@).no_duplicates(),
        forall|x: Seq<char>| views(final(v)@).contains(x) <==> (views(old(v)@).contains(x) || x == a@),
        views(final(v)@).len() == views(old(v)@).len() + 1,
{
    let ghost old_views = views(v@);
    let mut i: usize = 0;
    let mut found = false;
    while i < v.len() && !found
        invariant
            views(v@) == old_views,
            i <= v@.len(),
            forall|j: int| 0 <= j < i ==> !addr_lt(a@, #[trigger] old_views[j]),
            found ==> i < v@.len() && addr_lt(a@, old_views[i as int]),
        decreases v@.len() - i + (if found { 0int } else { 1int }),
    {
        if addr_before(&a, &v[i]) {
            found = true;
        } else {
            i = i + 1;
        }
    }
    let ghost av = a@;
    v.insert(i, a);
    proof {
        let n = views(v@);
        assert(n =~= old_views.insert(i as int, av));
        assert forall|x: int, y: int| 0 <= x < y < n.len() implies !addr_lt(#[trigger] n[y], #[trigger] n[x]) by {
            if y < i {
            } else if x > i {
                assert(n[x] == old_views[x - 1] && n[y] == old_views[y - 1]);
            } else if x < i && y == i {
            } else if x < i && y > i {
                assert(n[x] == old_views[x] && n[y] == old_views[y - 1]);
            } else if x == i {
                assert(found);
                assert(n[y] == old_views[y - 1]);
                if addr_lt(n[y], n[x]) {
                    if y - 1 == i {
                        lemma_bytes_lt_asymmetric(vstd::utf8::encode_utf8(av), vstd::utf8::encode_utf8(n[y]));
                    } else {
                        lemma_bytes_lt_transitive(
                            vstd::utf8::encode_utf8(n[y]),
                            vstd::utf8::encode_utf8(av),
                            vstd::utf8::encode_utf8(old_views[i as int]),
                        );
                    }
                }
            }
        }
        assert forall|x: Seq<char>| n.contains(x) <==> (old_views.contains(x) || x == av) by {
            if n.contains(x) {
                let k = choose|k: int| 0 <= k < n.len() && n[k] == x;
                if k < i {
                    assert(old_views[k] == x);
                } else if k > i {
                    assert(old_views[k - 1] == x);
                }
            }
            if old_views.contains(x) {
                let k = choose|k: int| 0 <= k < old_views.len() && old_views[k] == x;
                if k < i {
                    assert(n[k] == x);
                } else {
                    assert(n[k + 1] == x);
                }
            }
            if x == av {
                assert(n[i as int] == x);
            }
        }
        assert forall|x: int, y: int| 0 <= x < n.len() && 0 <= y < n.len() && x != y implies n[x] != n[y] by {
            if x != i && y != i {
                let ox = if x < i { x } else { x - 1 };
                let oy = if y < i { y } else { y - 1 };
                assert(n[x] == old_views[ox] && n[y] == old_views[oy]);
            } else if x == i {
                let oy = if y < i { y } else { y - 1 };
                assert(n[y] == old_views[oy]);
            } else {
                let ox = if x < i { x } else { x - 1 };
                assert(n[x] == old_views[ox]);
            }
        }
    }
}

/// The attached funds are exactly one coin of nonzero amount.
pub open spec fn paid(funds: Seq<Coin>) -> bool {
    funds.len() == 1 && funds[0].amount > 0
}

/// `p` is the project of one of the first `n` pending entries.
pub open spec fn pending_has(pending: Seq<(u64, u128)>, n: int, p: u64) -> bool {
    exists|k: int| 0 <= k < n && #[trigger] pending[k].0 == p
}

/// The ledger of a grant contract.
pub struct AGContract {
    admins: Vec<String>,
    beneficiary: Option<String>,
    round_id: Option<u64>,
    ended: Ghost<nat>,
    projects: Vec<ProjectRecord>,
    voters: Vec<VoterRecord>,
}

impl AGContract {
    /// The admins, in ascending address order.
    pub closed spec fn admin_seq(&self) -> Seq<Seq<char>> {
        views(self.admins@)
    }

    /// The beneficiary, once the ledger is initialized.
    pub closed spec fn beneficiary_view(&self) -> Option<Seq<char>> {
        match self.beneficiary {
            Some(b) => Some(b@),
            None => None,
        }
    }

    /// The current round, once the ledger is initialized.
    pub closed spec fn round(&self) -> Option<u64> {
        self.round_id
    }

    /// How many rounds have been closed since the ledger was initialized.
    pub closed spec fn rounds_ended(&self) -> nat {
        self.ended@
    }

    /// The project table: one record per round, project and currency.
    pub closed spec fn project_table(&self) -> Seq<ProjectRecord> {
        self.projects@
    }

    /// The voter table: one record per round, project, voter and currency.
    pub closed spec fn voter_table(&self) -> Seq<VoterRecord> {
        self.voters@
    }

    pub open spec fn is_admin(&self, a: Seq<char>) -> bool {
        self.admin_seq().contains(a)
    }

    /// The total given to project `p` in currency `d` during round `r`.
    pub open spec fn project_total(&self, r: u64, p: u64, d: Seq<char>) -> int {
        sum_of(self.project_table(), project_part(r, p, d))
    }

    /// The total voter `v` gave to project `p` in currency `d` during round `r`.
    pub open spec fn voter_total(&self, r: u64, p: u64, v: Seq<char>, d: Seq<char>) -> int {
        sum_of(self.voter_table(), voter_part(r, p, v, d))
    }

    /// The sum over all voters of what they gave to project `p` in currency `d`
    /// during round `r`.
    pub open spec fn voters_total(&self, r: u64, p: u64, d: Seq<char>) -> int {
        sum_of(self.voter_table(), all_voters_part(r, p, d))
    }

    /// Project `p` holds a record for round `r`.
    pub open spec fn has_project(&self, r: u64, p: u64) -> bool {
        exists|i: int|
            0 <= i < self.project_table().len() && #[trigger] self.project_table()[i].round == r
                && self.project_table()[i].project == p
    }

    /// Voter `v` holds a record for project `p` in round `r`.
    pub open spec fn has_vote(&self, r: u64, p: u64, v: Seq<char>) -> bool {
        exists|i: int|
            0 <= i < self.voter_table().len() && #[trigger] self.voter_table()[i].round == r
                && self.voter_table()[i].project == p && self.voter_table()[i].voter@ == v
    }

    /// The ledger's invariant: admins ascending and distinct, one record per
    /// key in each table, and for every round, project and currency the voters'
    /// amounts add up to the project's total.
    pub open spec fn wf(&self) -> bool {
        &&& ascending(self.admin_seq())
        &&& self.admin_seq().no_duplicates()
        &&& (self.admin_seq().len() > 0 <==> self.round() is Some)
        &&& (self.round() is Some ==> self.round()->Some_0 == 1 + self.rounds_ended())
        &&& (self.round() is None ==> self.rounds_ended() == 0)
        &&& (self.round() is Some <==> self.beneficiary_view() is Some)
        &&& project_keys_unique(self.project_table())
        &&& voter_keys_unique(self.voter_table())
        &&& forall|r: u64, p: u64, d: Seq<char>|
            #[trigger] self.voters_total(r, p, d) == self.project_total(r, p, d)
    }

    /// Nothing but the admins changed.
    pub open spec fn same_but_admins(&self, other: &Self) -> bool {
        &&& self.beneficiary_view() == other.beneficiary_view()
        &&& self.round() == other.round()
        &&& self.rounds_ended() == other.rounds_ended()
        &&& self.project_table() == other.project_table()
        &&& self.voter_table() == other.voter_table()
    }

    /// The tallies agree when the tables are those of a well-formed ledger.
    proof fn lemma_tallies_kept(a: &Self, b: &Self)
        requires
            a.wf(),
            a.project_table() == b.project_table(),
            a.voter_table() == b.voter_table(),
        ensures
            forall|r: u64, p: u64, d: Seq<char>| #[trigger] b.voters_total(r, p, d) == b.project_total(r, p, d),
    {
        assert forall|r: u64, p: u64, d: Seq<char>| #[trigger] b.voters_total(r, p, d) == b.project_total(r, p, d) by {
            assert(a.voters_total(r, p, d) == a.project_total(r, p, d));
        }
    }

    /// An empty, uninitialized ledger.
    pub fn new() -> (r: Self)
        ensures
            r.wf(),
            r.admin_seq().len() == 0,
            r.beneficiary_view() is None,
            r.round() is None,
            r.project_table().len() == 0,
            r.voter_table().len() == 0,
    {
        let r = AGContract {
            admins: Vec::new(),
            beneficiary: None,
            round_id: None,
            ended: Ghost(0),
            projects: Vec::new(),
            voters: Vec::new(),
        };
        assert(r.admin_seq() =~= seq![]);
        r
    }

    /// The admins, ascending by the bytes of their addresses.
    pub fn admin_list(&self) -> (r: AdminListResp)
        requires
            self.wf(),
        ensures
            views(r.admins@) == self.admin_seq(),
            ascending(views(r.admins@)),
            views(r.admins@).no_duplicates(),
    {
        AdminListResp { admins: self.admins.clone() }
    }

    /// Whether `a` is an admin.
    fn check_admin(&self, a: &String) -> (r: bool)
        ensures
            r == self.is_admin(a@),
    {
        contains_addr(&self.admins, a)
    }

    /// Initializes the ledger: every address in `admins` becomes an admin, the
    /// round becomes 1 and the caller `sender` the beneficiary. Each entry of
    /// `admins` is what the address validator made of one address given by the
    /// caller: the canonical address, or why it was refused. If any was
    /// refused, the first refusal is the error and nothing changes.
    #[verifier::loop_isolation(false)]
    pub fn instantiate(&mut self, sender: String, admins: Vec<Result<String, String>>) -> (r: Result<(), ContractError>)
        requires
            old(self).wf(),
            old(self).round() is None,
            admins@.len() > 0,
        ensures
            final(self).wf(),
            r is Err <==> exists|k: int| 0 <= k < admins@.len() && admins@[k] is Err,
            r is Err ==> *final(self) == *old(self),
            r is Err ==> exists|k: int|
                0 <= k < admins@.len() && admins@[k] is Err
                && (forall|j: int| 0 <= j < k ==> admins@[j] is Ok)
                && r->Err_0 == (ContractError::InvalidAddress { reason: admins@[k]->Err_0 }),
            r is Ok ==> final(self).round() == Some(1u64),
            r is Ok ==> final(self).rounds_ended() == 0,
            r is Ok ==> final(self).admin_seq().len() > 0,
            r is Ok ==> final(self).beneficiary_view() == Some(sender@),
            r is Ok ==> final(self).project_table() == old(self).project_table(),
            r is Ok ==> final(self).voter_table() == old(self).voter_table(),
            r is Ok ==> forall|x: Seq<char>|
                final(self).is_admin(x) <==> (old(self).is_admin(x) || exists|k: int|
                    0 <= k < admins@.len() && admins@[k] is Ok && admins@[k]->Ok_0@ == x),
    {
        let mut i: usize = 0;
        while i < admins.len()
            invariant
                i <= admins@.len(),
                forall|j: int| 0 <= j < i ==> admins@[j] is Ok,
                *self == *old(self),
            decreases admins@.len() - i,
        {
            match &admins[i] {
                Ok(_) => {},
                Err(e) => {
                    return Err(ContractError::InvalidAddress { reason: e.clone() });
                },
            }
            i = i + 1;
        }
        let ghost before = *self;
        let mut i: usize = 0;
        while i < admins.len()
            invariant
                i <= admins@.len(),
                forall|j: int| 0 <= j < admins@.len() ==> admins@[j] is Ok,
                ascending(self.admin_seq()),
                self.admin_seq().no_duplicates(),
                self.same_but_admins(&before),
                forall|x: Seq<char>|
                    #[trigger] self.is_admin(x) <==> (before.is_admin(x) || exists|k: int|
                        0 <= k < i && admins@[k] is Ok && admins@[k]->Ok_0@ == x),
            decreases admins@.len() - i,
        {
            let ghost prev = *self;
            assert(forall|x: Seq<char>|
                prev.is_admin(x) <==> (before.is_admin(x) || exists|k: int|
                    0 <= k < i && admins@[k] is Ok && admins@[k]->Ok_0@ == x));
            let a = match &admins[i] {
                Ok(a) => a.clone(),
                Err(_) => String::new(),
            };
            assert(a@ == admins@[i as int]->Ok_0@);
            if !contains_addr(&self.admins, &a) {
                insert_sorted(&mut self.admins, a);
            }
            let ghost idx = i as int;
            i = i + 1;
            proof {
                assert forall|x: Seq<char>|
                    self.is_admin(x) <==> (before.is_admin(x) || exists|k: int|
                        0 <= k < i && admins@[k] is Ok && admins@[k]->Ok_0@ == x) by {
                    assert(self.is_admin(x) <==> (prev.is_admin(x) || x == a@));
                    assert(prev.is_admin(x) <==> (before.is_admin(x) || exists|k: int|
                        0 <= k < idx && admins@[k] is Ok && admins@[k]->Ok_0@ == x));
                    if x == admins@[idx]->Ok_0@ {
                        assert(0 <= idx < i && admins@[idx] is Ok && admins@[idx]->Ok_0@ == x);
                    }
                    if exists|k: int| 0 <= k < idx && admins@[k] is Ok && admins@[k]->Ok_0@ == x {
                        let k = choose|k: int| 0 <= k < idx && admins@[k] is Ok && admins@[k]->Ok_0@ == x;
                        assert(0 <= k < i && admins@[k] is Ok && admins@[k]->Ok_0@ == x);
                    }
                    if exists|k: int| 0 <= k < i && admins@[k] is Ok && admins@[k]->Ok_0@ == x {
                        let k = choose|k: int| 0 <= k < i && admins@[k] is Ok && admins@[k]->Ok_0@ == x;
                        if k < idx {
                            assert(0 <= k < idx && admins@[k] is Ok && admins@[k]->Ok_0@ == x);
                        }
                    }
                }
            }
        }
        proof {
            let x0 = admins@[0]->Ok_0@;
            assert(i == admins@.len());
            assert(0 <= 0 < i && admins@[0] is Ok && admins@[0]->Ok_0@ == x0);
            assert(exists|k: int| 0 <= k < i && admins@[k] is Ok && admins@[k]->Ok_0@ == x0);
            assert(self.is_admin(x0));
            assert(self.admin_seq().len() > 0);
        }
        let ghost listed = *self;
        self.round_id = Some(1);
        self.beneficiary = Some(sender);
        proof {
            assert forall|x: Seq<char>|
                self.is_admin(x) <==> (before.is_admin(x) || exists|k: int|
                    0 <= k < admins@.len() && admins@[k] is Ok && admins@[k]->Ok_0@ == x) by {
                assert(self.is_admin(x) == listed.is_admin(x));
            }
        }
        proof {
            Self::lemma_tallies_kept(&*old(self), &*self);
        }
        Ok(())
    }

    /// Makes `admin` an admin. The caller `sender` must be an admin
    /// (`Unauthorized`), the validator must have accepted `admin`
    /// (`InvalidAddress`), and `admin` must not be one already
    /// (`DuplicateAdmin`). Nothing but the admin set changes.
    pub fn add_member(&mut self, sender: String, admin: Result<String, String>) -> (r: Result<Event, ContractError>)
        requires
            old(self).wf(),
        ensures
            final(self).wf(),
            !old(self).is_admin(sender@) ==> r is Err && r->Err_0 == (ContractError::Unauthorized { sender: sender }),
            old(self).is_admin(sender@) && admin is Err ==> r is Err && r->Err_0 == (ContractError::InvalidAddress { reason: admin->Err_0 }),
            old(self).is_admin(sender@) && admin is Ok && old(self).is_admin(admin->Ok_0@) ==> r is Err && r->Err_0 == (ContractError::DuplicateAdmin { address: admin->Ok_0 }),
            old(self).is_admin(sender@) && admin is Ok && !old(self).is_admin(admin->Ok_0@) ==> r is Ok && r->Ok_0 == (Event::AdminAdded { addr: admin->Ok_0 }),
            r is Err ==> *final(self) == *old(self),
            r is Ok ==> final(self).same_but_admins(&*old(self)),
            r is Ok ==> forall|x: Seq<char>| final(self).is_admin(x) <==> (old(self).is_admin(x) || x == admin->Ok_0@),
    {
        if !self.check_admin(&sender) {
            return Err(ContractError::Unauthorized { sender });
        }
        let admin = match admin {
            Ok(a) => a,
            Err(reason) => {
                return Err(ContractError::InvalidAddress { reason });
            },
        };
        if self.check_admin(&admin) {
            return Err(ContractError::DuplicateAdmin { address: admin });
        }
        insert_sorted(&mut self.admins, admin.clone());
        proof {
            Self::lemma_tallies_kept(&*old(self), &*self);
        }
        Ok(Event::AdminAdded { addr: admin })
    }

    /// Makes `address` the beneficiary. The caller `sender` must be an admin
    /// (`Unauthorized`) and the validator must have accepted `address`
    /// (`InvalidAddress`). Nothing but the beneficiary changes.
    pub fn set_beneficiary(&mut self, sender: String, address: Result<String, String>) -> (r: Result<Event, ContractError>)
        requires
            old(self).wf(),
        ensures
            final(self).wf(),
            !old(self).is_admin(sender@) ==> r is Err && r->Err_0 == (ContractError::Unauthorized { sender: sender }),
            old(self).is_admin(sender@) && address is Err ==> r is Err && r->Err_0 == (ContractError::InvalidAddress { reason: address->Err_0 }),
            old(self).is_admin(sender@) && address is Ok ==> r is Ok && r->Ok_0 == (Event::BeneficiarySet { addr: address->Ok_0 }),
            r is Err ==> *final(self) == *old(self),
            r is Ok ==> final(self).beneficiary_view() == Some(address->Ok_0@),
            r is Ok ==> final(self).admin_seq() == old(self).admin_seq(),
            r is Ok ==> final(self).round() == old(self).round(),
            r is Ok ==> final(self).rounds_ended() == old(self).rounds_ended(),
            r is Ok ==> final(self).project_table() == old(self).project_table(),
            r is Ok ==> final(self).voter_table() == old(self).voter_table(),
    {
        if !self.check_admin(&sender) {
            return Err(ContractError::Unauthorized { sender });
        }
        let address = match address {
            Ok(a) => a,
            Err(reason) => {
                return Err(ContractError::InvalidAddress { reason });
            },
        };
        assert(self.admin_seq().len() > 0);
        self.beneficiary = Some(address.clone());
        proof {
            Self::lemma_tallies_kept(&*old(self), &*self);
        }
        Ok(Event::BeneficiarySet { addr: address })
    }

    /// Closes the current round and opens the next. The caller `sender` must
    /// be an admin (`Unauthorized`); a round counter at its largest value is
    /// `Overflow`. The event carries the round that was closed. The tables are
    /// left as they are, so what closed rounds hold stays readable.
    pub fn end_round(&mut self, sender: String) -> (r: Result<Event, ContractError>)
        requires
            old(self).wf(),
        ensures
            final(self).wf(),
            !old(self).is_admin(sender@) ==> r is Err && r->Err_0 == (ContractError::Unauthorized { sender: sender }),
            old(self).is_admin(sender@) ==> old(self).round() is Some,
            old(self).is_admin(sender@) && old(self).round()->Some_0 == u64::MAX ==> r is Err && r->Err_0 == ContractError::Overflow,
            old(self).is_admin(sender@) && old(self).round()->Some_0 < u64::MAX ==> r is Ok && r->Ok_0 == (Event::RoundEnded { round_id: old(self).round()->Some_0 }),
            r is Err ==> *final(self) == *old(self),
            r is Ok ==> final(self).round() == Some((old(self).round()->Some_0 + 1) as u64),
            r is Ok ==> final(self).rounds_ended() == old(self).rounds_ended() + 1,
            r is Ok ==> final(self).admin_seq() == old(self).admin_seq(),
            r is Ok ==> final(self).beneficiary_view() == old(self).beneficiary_view(),
            r is Ok ==> final(self).project_table() == old(self).project_table(),
            r is Ok ==> final(self).voter_table() == old(self).voter_table(),
    {
        if !self.check_admin(&sender) {
            return Err(ContractError::Unauthorized { sender });
        }
        let round = match self.round_id {
            Some(r) => r,
            None => {
                return Err(ContractError::NotFound);
            },
        };
        if round == u64::MAX {
            return Err(ContractError::Overflow);
        }
        self.round_id = Some(round + 1);
        self.ended = Ghost(self.ended@ + 1);
        proof {
            Self::lemma_tallies_kept(&*old(self), &*self);
        }
        Ok(Event::RoundEnded { round_id: round })
    }

    /// The index of the project record of `(r, p, d)`, or the table's length
    /// if there is none.
    fn find_project(&self, r: u64, p: u64, d: &String) -> (k: usize)
        ensures
            k <= self.project_table().len(),
            k < self.project_table().len() ==> same_project_key(
                self.project_table()[k as int],
                (ProjectRecord { round: r, project: p, denom: *d, amount: 0 }),
            ),
            k == self.project_table().len() ==> forall|j: int|
                0 <= j < self.project_table().len() ==> !same_project_key(
                    #[trigger] self.project_table()[j],
                    (ProjectRecord { round: r, project: p, denom: *d, amount: 0 }),
                ),
    {
        let mut i: usize = 0;
        while i < self.projects.len()
            invariant
                i <= self.projects@.len(),
                forall|j: int|
                    0 <= j < i ==> !same_project_key(
                        #[trigger] self.projects@[j],
                        (ProjectRecord { round: r, project: p, denom: *d, amount: 0 }),
                    ),
            decreases self.projects@.len() - i,
        {
            let x = &self.projects[i];
            if x.round == r && x.project == p && x.denom == *d {
                return i;
            }
            i = i + 1;
        }
        i
    }

    /// The index of the voter record of `(r, p, v, d)`, or the table's length
    /// if there is none.
    fn find_voter(&self, r: u64, p: u64, v: &String, d: &String) -> (k: usize)
        ensures
            k <= self.voter_table().len(),
            k < self.voter_table().len() ==> same_voter_key(
                self.voter_table()[k as int],
                (VoterRecord { round: r, project: p, voter: *v, denom: *d, amount: 0 }),
            ),
            k == self.voter_table().len() ==> forall|j: int|
                0 <= j < self.voter_table().len() ==> !same_voter_key(
                    #[trigger] self.voter_table()[j],
                    (VoterRecord { round: r, project: p, voter: *v, denom: *d, amount: 0 }),
                ),
    {
        let mut i: usize = 0;
        while i < self.voters.len()
            invariant
                i <= self.voters@.len(),
                forall|j: int|
                    0 <= j < i ==> !same_voter_key(
                        #[trigger] self.voters@[j],
                        (VoterRecord { round: r, project: p, voter: *v, denom: *d, amount: 0 }),
                    ),
            decreases self.voters@.len() - i,
        {
            let x = &self.voters[i];
            if x.round == r && x.project == p && x.voter == *v && x.denom == *d {
                return i;
            }
            i = i + 1;
        }
        i
    }

    /// The total given to project `p` in currency `d` during round `r`.
    fn project_amount(&self, r: u64, p: u64, d: &String) -> (a: u128)
        requires
            self.wf(),
        ensures
            a == self.project_total(r, p, d@),
    {
        let k = self.find_project(r, p, d);
        let ghost f = project_part(r, p, d@);
        if k < self.projects.len() {
            proof {
                assert forall|j: int| 0 <= j < self.projects@.len() && j != k implies f(#[trigger] self.projects@[j]) == 0 by {
                    if j < k {
                        assert(!same_project_key(self.projects@[j], self.projects@[k as int]));
                    } else {
                        assert(!same_project_key(self.projects@[k as int], self.projects@[j]));
                    }
                }
                lemma_sum_single(self.projects@, k as int, f);
            }
            self.projects[k].amount
        } else {
            proof {
                lemma_sum_zero(self.projects@, f);
            }
            0
        }
    }

    /// Adds `a` of currency `d` to the tally of project `p` in round `r`, and
    /// to that of `voter` for it.
    #[verifier::rlimit(80)]
    fn credit(&mut self, r: u64, p: u64, voter: &String, d: &String, a: u128)
        requires
            old(self).wf(),
            old(self).project_total(r, p, d@) + a <= u128::MAX,
        ensures
            final(self).wf(),
            final(self).admin_seq() == old(self).admin_seq(),
            final(self).beneficiary_view() == old(self).beneficiary_view(),
            final(self).round() == old(self).round(),
            final(self).rounds_ended() == old(self).rounds_ended(),
            forall|r2: u64, p2: u64, d2: Seq<char>| #[trigger] final(self).project_total(r2, p2, d2)
                == old(self).project_total(r2, p2, d2) + (if r2 == r && p2 == p && d2 == d@ { a as int } else { 0 }),
            forall|r2: u64, p2: u64, v2: Seq<char>, d2: Seq<char>| #[trigger] final(self).voter_total(r2, p2, v2, d2)
                == old(self).voter_total(r2, p2, v2, d2) + (if r2 == r && p2 == p && v2 == voter@ && d2 == d@ { a as int } else { 0 }),
            forall|r2: u64, p2: u64| #[trigger] final(self).has_project(r2, p2)
                <==> (old(self).has_project(r2, p2) || (r2 == r && p2 == p)),
            forall|r2: u64, p2: u64, v2: Seq<char>| #[trigger] final(self).has_vote(r2, p2, v2)
                <==> (old(self).has_vote(r2, p2, v2) || (r2 == r && p2 == p && v2 == voter@)),
            forall|r2: u64, p2: u64| #[trigger] project_coins(final(self).project_table(), r2, p2)
                == if r2 == r && p2 == p {
                    credited(project_coins(old(self).project_table(), r2, p2), d@, a as int)
                } else {
                    project_coins(old(self).project_table(), r2, p2)
                },
            forall|r2: u64, p2: u64, v2: Seq<char>| #[trigger] voter_coins(final(self).voter_table(), r2, p2, v2)
                == if r2 == r && p2 == p && v2 == voter@ {
                    credited(voter_coins(old(self).voter_table(), r2, p2, v2), d@, a as int)
                } else {
                    voter_coins(old(self).voter_table(), r2, p2, v2)
                },
    {
        let ghost s0 = self.projects@;
        let ghost w0 = self.voters@;
        let ghost pre = *self;
        let base = self.project_amount(r, p, d);
        let k = self.find_project(r, p, d);
        let rec = ProjectRecord { round: r, project: p, denom: d.clone(), amount: base + a };
        if k < self.projects.len() {
            proof {
                let f = project_part(r, p, d@);
                assert forall|j: int| 0 <= j < s0.len() && j != k implies f(#[trigger] s0[j]) == 0 by {
                    if j < k {
                        assert(!same_project_key(s0[j], s0[k as int]));
                    } else {
                        assert(!same_project_key(s0[k as int], s0[j]));
                    }
                }
                lemma_sum_single(s0, k as int, f);
            }
            let ghost rv = rec;
            self.projects[k] = rec;
            proof {
                assert forall|r2: u64, p2: u64| #[trigger] project_coins(self.projects@, r2, p2)
                    == if r2 == r && p2 == p { credited(project_coins(s0, r2, p2), d@, a as int) } else { project_coins(s0, r2, p2) } by {
                    lemma_project_coins_update(s0, k as int, rv, r2, p2);
                    if r2 == r && p2 == p {
                        let c = project_coins(s0, r2, p2);
                        let i = choose|i: int|
                            0 <= i < c.len() && #[trigger] c[i] == (s0[k as int].denom@, s0[k as int].amount)
                                && project_coins(s0.update(k as int, rv), r2, p2) == c.update(i, (rv.denom@, rv.amount));
                        lemma_project_coins_unique(s0, r2, p2);
                        lemma_credited_at(c, i, a as int);
                    }
                }
                assert forall|r2: u64, p2: u64, d2: Seq<char>| #[trigger] self.project_total(r2, p2, d2)
                    == pre.project_total(r2, p2, d2) + (if r2 == r && p2 == p && d2 == d@ { a as int } else { 0 }) by {
                    lemma_sum_update(s0, k as int, rv, project_part(r2, p2, d2));
                }
                assert forall|r2: u64, p2: u64| #[trigger] self.has_project(r2, p2)
                    <==> (pre.has_project(r2, p2) || (r2 == r && p2 == p)) by {
                    if pre.has_project(r2, p2) {
                        let j = choose|j: int| 0 <= j < s0.len() && #[trigger] s0[j].round == r2 && s0[j].project == p2;
                        assert(self.project_table()[j].round == r2 && self.project_table()[j].project == p2);
                    }
                    if r2 == r && p2 == p {
                        assert(self.project_table()[k as int].round == r2 && self.project_table()[k as int].project == p2);
                    }
                    if self.has_project(r2, p2) {
                        let j = choose|j: int| 0 <= j < s0.len() && #[trigger] self.projects@[j].round == r2 && self.projects@[j].project == p2;
                        if j != k {
                            assert(pre.project_table()[j].round == r2 && pre.project_table()[j].project == p2);
                        }
                    }
                }
            }
        } else {
            proof {
                lemma_sum_zero(s0, project_part(r, p, d@));
            }
            let ghost rv = rec;
            self.projects.push(rec);
            proof {
                assert(self.projects@.drop_last() =~= s0);
                assert forall|r2: u64, p2: u64| #[trigger] project_coins(self.projects@, r2, p2)
                    == if r2 == r && p2 == p { credited(project_coins(s0, r2, p2), d@, a as int) } else { project_coins(s0, r2, p2) } by {
                    if r2 == r && p2 == p {
                        let c = project_coins(s0, r2, p2);
                        if exists|i: int| 0 <= i < c.len() && #[trigger] c[i].0 == d@ {
                            let i = choose|i: int| 0 <= i < c.len() && #[trigger] c[i].0 == d@;
                            lemma_project_coin_source(s0, r2, p2, i);
                            let j = choose|j: int|
                                0 <= j < s0.len() && #[trigger] s0[j].round == r2 && s0[j].project == p2 && s0[j].denom@ == c[i].0
                                    && s0[j].amount == c[i].1;
                            assert(same_project_key(s0[j], (ProjectRecord { round: r, project: p, denom: *d, amount: 0 })));
                        }
                    }
                }
                assert forall|r2: u64, p2: u64, d2: Seq<char>| #[trigger] self.project_total(r2, p2, d2)
                    == pre.project_total(r2, p2, d2) + (if r2 == r && p2 == p && d2 == d@ { a as int } else { 0 }) by {
                    lemma_sum_push(s0, rv, project_part(r2, p2, d2));
                }
                assert forall|r2: u64, p2: u64| #[trigger] self.has_project(r2, p2)
                    <==> (pre.has_project(r2, p2) || (r2 == r && p2 == p)) by {
                    if pre.has_project(r2, p2) {
                        let j = choose|j: int| 0 <= j < s0.len() && #[trigger] s0[j].round == r2 && s0[j].project == p2;
                        assert(self.project_table()[j].round == r2 && self.project_table()[j].project == p2);
                    }
                    if r2 == r && p2 == p {
                        assert(self.project_table()[s0.len() as int].round == r2 && self.project_table()[s0.len() as int].project == p2);
                    }
                    if self.has_project(r2, p2) {
                        let j = choose|j: int| 0 <= j < self.projects@.len() && #[trigger] self.projects@[j].round == r2 && self.projects@[j].project == p2;
                        if j < s0.len() {
                            assert(pre.project_table()[j].round == r2 && pre.project_table()[j].project == p2);
                        }
                    }
                }
            }
        }
        let ghost mid = *self;
        let kv = self.find_voter(r, p, voter, d);
        if kv < self.voters.len() {
            let old_amount = self.voters[kv].amount;
            proof {
                let g = voter_part(r, p, voter@, d@);
                let h = all_voters_part(r, p, d@);
                assert forall|j: int| 0 <= j < w0.len() && j != kv implies g(#[trigger] w0[j]) == 0 by {
                    if j < kv {
                        assert(!same_voter_key(w0[j], w0[kv as int]));
                    } else {
                        assert(!same_voter_key(w0[kv as int], w0[j]));
                    }
                }
                lemma_sum_single(w0, kv as int, g);
                assert(forall|j: int| 0 <= j < w0.len() ==> h(#[trigger] w0[j]) >= 0);
                lemma_sum_bounds_part(w0, kv as int, h);
                assert(pre.voters_total(r, p, d@) == pre.project_total(r, p, d@));
            }
            let vrec = VoterRecord { round: r, project: p, voter: voter.clone(), denom: d.clone(), amount: old_amount + a };
            let ghost vv = vrec;
            self.voters[kv] = vrec;
            proof {
                assert forall|r2: u64, p2: u64, v2: Seq<char>| #[trigger] voter_coins(self.voters@, r2, p2, v2)
                    == if r2 == r && p2 == p && v2 == voter@ { credited(voter_coins(w0, r2, p2, v2), d@, a as int) } else { voter_coins(w0, r2, p2, v2) } by {
                    lemma_voter_coins_update(w0, kv as int, vv, r2, p2, v2);
                    if r2 == r && p2 == p && v2 == voter@ {
                        let c = voter_coins(w0, r2, p2, v2);
                        let i = choose|i: int|
                            0 <= i < c.len() && #[trigger] c[i] == (w0[kv as int].denom@, w0[kv as int].amount)
                                && voter_coins(w0.update(kv as int, vv), r2, p2, v2) == c.update(i, (vv.denom@, vv.amount));
                        lemma_voter_coins_unique(w0, r2, p2, v2);
                        lemma_credited_at(c, i, a as int);
                    }
                }
                assert forall|r2: u64, p2: u64, v2: Seq<char>, d2: Seq<char>| #[trigger] self.voter_total(r2, p2, v2, d2)
                    == pre.voter_total(r2, p2, v2, d2) + (if r2 == r && p2 == p && v2 == voter@ && d2 == d@ { a as int } else { 0 }) by {
                    lemma_sum_update(w0, kv as int, vv, voter_part(r2, p2, v2, d2));
                }
                assert forall|r2: u64, p2: u64, d2: Seq<char>| #[trigger] self.voters_total(r2, p2, d2)
                    == pre.voters_total(r2, p2, d2) + (if r2 == r && p2 == p && d2 == d@ { a as int } else { 0 }) by {
                    lemma_sum_update(w0, kv as int, vv, all_voters_part(r2, p2, d2));
                }
                assert forall|r2: u64, p2: u64, v2: Seq<char>| #[trigger] self.has_vote(r2, p2, v2)
                    <==> (pre.has_vote(r2, p2, v2) || (r2 == r && p2 == p && v2 == voter@)) by {
                    if pre.has_vote(r2, p2, v2) {
                        let j = choose|j: int| 0 <= j < w0.len() && #[trigger] w0[j].round == r2 && w0[j].project == p2 && w0[j].voter@ == v2;
                        assert(self.voter_table()[j].round == r2 && self.voter_table()[j].project == p2 && self.voter_table()[j].voter@ == v2);
                    }
                    if r2 == r && p2 == p && v2 == voter@ {
                        assert(self.voter_table()[kv as int].round == r2 && self.voter_table()[kv as int].project == p2 && self.voter_table()[kv as int].voter@ == v2);
                    }
                    if self.has_vote(r2, p2, v2) {
                        let j = choose|j: int| 0 <= j < w0.len() && #[trigger] self.voters@[j].round == r2 && self.voters@[j].project == p2 && self.voters@[j].voter@ == v2;
                        if j != kv {
                            assert(pre.voter_table()[j].round == r2 && pre.voter_table()[j].project == p2 && pre.voter_table()[j].voter@ == v2);
                        }
                    }
                }
            }
        } else {
            proof {
                lemma_sum_zero(w0, voter_part(r, p, voter@, d@));
            }
            let vrec = VoterRecord { round: r, project: p, voter: voter.clone(), denom: d.clone(), amount: a };
            let ghost vv = vrec;
            self.voters.push(vrec);
            proof {
                assert(self.voters@.drop_last() =~= w0);
                assert forall|r2: u64, p2: u64, v2: Seq<char>| #[trigger] voter_coins(self.voters@, r2, p2, v2)
                    == if r2 == r && p2 == p && v2 == voter@ { credited(voter_coins(w0, r2, p2, v2), d@, a as int) } else { voter_coins(w0, r2, p2, v2) } by {
                    if r2 == r && p2 == p && v2 == voter@ {
                        let c = voter_coins(w0, r2, p2, v2);
                        if exists|i: int| 0 <= i < c.len() && #[trigger] c[i].0 == d@ {
                            let i = choose|i: int| 0 <= i < c.len() && #[trigger] c[i].0 == d@;
                            lemma_voter_coin_source(w0, r2, p2, v2, i);
                            let j = choose|j: int|
                                0 <= j < w0.len() && #[trigger] w0[j].round == r2 && w0[j].project == p2 && w0[j].voter@ == v2
                                    && w0[j].denom@ == c[i].0 && w0[j].amount == c[i].1;
                            assert(same_voter_key(w0[j], (VoterRecord { round: r, project: p, voter: *voter, denom: *d, amount: 0 })));
                        }
                    }
                }
                assert forall|r2: u64, p2: u64, v2: Seq<char>, d2: Seq<char>| #[trigger] self.voter_total(r2, p2, v2, d2)
                    == pre.voter_total(r2, p2, v2, d2) + (if r2 == r && p2 == p && v2 == voter@ && d2 == d@ { a as int } else { 0 }) by {
                    lemma_sum_push(w0, vv, voter_part(r2, p2, v2, d2));
                }
                assert forall|r2: u64, p2: u64, d2: Seq<char>| #[trigger] self.voters_total(r2, p2, d2)
                    == pre.voters_total(r2, p2, d2) + (if r2 == r && p2 == p && d2 == d@ { a as int } else { 0 }) by {
                    lemma_sum_push(w0, vv, all_voters_part(r2, p2, d2));
                }
                assert forall|r2: u64, p2: u64, v2: Seq<char>| #[trigger] self.has_vote(r2, p2, v2)
                    <==> (pre.has_vote(r2, p2, v2) || (r2 == r && p2 == p && v2 == voter@)) by {
                    if pre.has_vote(r2, p2, v2) {
                        let j = choose|j: int| 0 <= j < w0.len() && #[trigger] w0[j].round == r2 && w0[j].project == p2 && w0[j].voter@ == v2;
                        assert(self.voter_table()[j].round == r2 && self.voter_table()[j].project == p2 && self.voter_table()[j].voter@ == v2);
                    }
                    if r2 == r && p2 == p && v2 == voter@ {
                        assert(self.voter_table()[w0.len() as int].round == r2 && self.voter_table()[w0.len() as int].project == p2 && self.voter_table()[w0.len() as int].voter@ == v2);
                    }
                    if self.has_vote(r2, p2, v2) {
                        let j = choose|j: int| 0 <= j < self.voters@.len() && #[trigger] self.voters@[j].round == r2 && self.voters@[j].project == p2 && self.voters@[j].voter@ == v2;
                        if j < w0.len() {
                            assert(pre.voter_table()[j].round == r2 && pre.voter_table()[j].project == p2 && pre.voter_table()[j].voter@ == v2);
                        }
                    }
                }
            }
        }
        proof {
            assert(self.project_table() == mid.project_table());
            assert(mid.voter_table() == pre.voter_table());
            assert forall|r2: u64, p2: u64, d2: Seq<char>| #[trigger] self.project_total(r2, p2, d2)
                == pre.project_total(r2, p2, d2) + (if r2 == r && p2 == p && d2 == d@ { a as int } else { 0 }) by {
                assert(mid.project_total(r2, p2, d2) == pre.project_total(r2, p2, d2) + (if r2 == r && p2 == p && d2 == d@ { a as int } else { 0 }));
                assert(self.project_total(r2, p2, d2) == mid.project_total(r2, p2, d2));
            }
            assert forall|r2: u64, p2: u64| #[trigger] self.has_project(r2, p2)
                <==> (pre.has_project(r2, p2) || (r2 == r && p2 == p)) by {
                assert(mid.has_project(r2, p2) <==> (pre.has_project(r2, p2) || (r2 == r && p2 == p)));
                assert(self.has_project(r2, p2) == mid.has_project(r2, p2));
            }
            assert forall|r2: u64, p2: u64, d2: Seq<char>| #[trigger] self.voters_total(r2, p2, d2) == self.project_total(r2, p2, d2) by {
                assert(pre.voters_total(r2, p2, d2) == pre.project_total(r2, p2, d2));
            }
        }
    }

    /// A batch of `amounts` for projects `ids` in currency `d` would take the
    /// sum of the amounts, or the total of one of the projects in round `r`,
    /// past the largest `u128`.
    pub open spec fn batch_overflows(&self, r: u64, d: Seq<char>, ids: Seq<u64>, amounts: Seq<u128>) -> bool {
        ||| amount_sum(amounts, amounts.len() as int) > u128::MAX
        ||| exists|i: int|
            0 <= i < ids.len() && self.project_total(r, #[trigger] ids[i], d) + attributed(ids, amounts, ids.len() as int, ids[i])
                > u128::MAX
    }

    /// Records a batch of votes by `sender`: the i-th project of `project_ids`
    /// receives the i-th amount of `amounts` in the currency of the one coin
    /// attached in `funds`, in the current round, both in the project's tally
    /// and in the sender's. A project may appear more than once; its amounts
    /// add up. The amounts must add up to exactly the attached amount
    /// (`InvalidAmount`), and no sum may leave the range of `u128`
    /// (`Overflow`). On success the attached funds go to the beneficiary.
    #[verifier::loop_isolation(false)]
    #[verifier::rlimit(50)]
    pub fn batch_vote(
        &mut self,
        sender: String,
        project_ids: Vec<u64>,
        amounts: Vec<u128>,
        funds: Vec<Coin>,
    ) -> (r: Result<VoteReceipt, ContractError>)
        requires
            old(self).wf(),
            project_ids@.len() == amounts@.len(),
        ensures
            final(self).wf(),
            r is Err ==> *final(self) == *old(self),
            !paid(funds@) && funds@.len() <= 1 ==> r is Err && r->Err_0 == ContractError::Payment(PaymentError::NoFunds),
            funds@.len() > 1 ==> r is Err && r->Err_0 == ContractError::Payment(PaymentError::MultipleDenoms),
            paid(funds@) && old(self).round() is None ==> r is Err && r->Err_0 == ContractError::NotFound,
            paid(funds@) && old(self).round() is Some && old(self).batch_overflows(
                old(self).round()->Some_0,
                funds@[0].denom@,
                project_ids@,
                amounts@,
            ) ==> r is Err && r->Err_0 == ContractError::Overflow,
            paid(funds@) && old(self).round() is Some && !old(self).batch_overflows(
                old(self).round()->Some_0,
                funds@[0].denom@,
                project_ids@,
                amounts@,
            ) ==> (r is Ok <==> amount_sum(amounts@, amounts@.len() as int) == funds@[0].amount),
            paid(funds@) && old(self).round() is Some && !old(self).batch_overflows(
                old(self).round()->Some_0,
                funds@[0].denom@,
                project_ids@,
                amounts@,
            ) && amount_sum(amounts@, amounts@.len() as int) != funds@[0].amount ==> r is Err && r->Err_0
                == (ContractError::InvalidAmount {
                    expected: amount_sum(amounts@, amounts@.len() as int) as u128,
                    actual: funds@[0].amount,
                }),
            r is Ok ==> paid(funds@) && old(self).round() is Some,
            r is Ok ==> amount_sum(amounts@, amounts@.len() as int) == funds@[0].amount,
            r is Ok ==> r->Ok_0.transfer.to_address@ == old(self).beneficiary_view()->Some_0,
            r is Ok ==> r->Ok_0.transfer.denom@ == funds@[0].denom@,
            r is Ok ==> r->Ok_0.transfer.amount == funds@[0].amount,
            r is Ok ==> r->Ok_0.event is BatchVoted,
            r is Ok ==> r->Ok_0.event->BatchVoted_sender == sender,
            r is Ok ==> r->Ok_0.event->BatchVoted_round_id == old(self).round()->Some_0,
            r is Ok ==> r->Ok_0.event->BatchVoted_project_ids == project_ids,
            r is Ok ==> r->Ok_0.event->BatchVoted_amounts == amounts,
            r is Ok ==> r->Ok_0.event->BatchVoted_denom@ == funds@[0].denom@,
            r is Ok ==> final(self).admin_seq() == old(self).admin_seq(),
            r is Ok ==> final(self).beneficiary_view() == old(self).beneficiary_view(),
            r is Ok ==> final(self).round() == old(self).round(),
            r is Ok ==> final(self).rounds_ended() == old(self).rounds_ended(),
            r is Ok ==> forall|r2: u64, p2: u64, d2: Seq<char>| #[trigger] final(self).project_total(r2, p2, d2)
                == old(self).project_total(r2, p2, d2) + (if r2 == old(self).round()->Some_0 && d2 == funds@[0].denom@ {
                    attributed(project_ids@, amounts@, project_ids@.len() as int, p2)
                } else {
                    0
                }),
            r is Ok ==> forall|r2: u64, p2: u64, v2: Seq<char>, d2: Seq<char>| #[trigger] final(self).voter_total(r2, p2, v2, d2)
                == old(self).voter_total(r2, p2, v2, d2) + (if r2 == old(self).round()->Some_0 && v2 == sender@ && d2 == funds@[0].denom@ {
                    attributed(project_ids@, amounts@, project_ids@.len() as int, p2)
                } else {
                    0
                }),
            r is Ok ==> forall|r2: u64, p2: u64| #[trigger] final(self).has_project(r2, p2)
                <==> (old(self).has_project(r2, p2) || (r2 == old(self).round()->Some_0 && project_ids@.contains(p2))),
            r is Ok ==> forall|r2: u64, p2: u64, v2: Seq<char>| #[trigger] final(self).has_vote(r2, p2, v2)
                <==> (old(self).has_vote(r2, p2, v2) || (r2 == old(self).round()->Some_0 && v2 == sender@ && project_ids@.contains(p2))),
            r is Ok ==> forall|r2: u64, p2: u64| #[trigger] project_coins(final(self).project_table(), r2, p2)
                == if r2 == old(self).round()->Some_0 && project_ids@.contains(p2) {
                    credited(
                        project_coins(old(self).project_table(), r2, p2),
                        funds@[0].denom@,
                        attributed(project_ids@, amounts@, project_ids@.len() as int, p2),
                    )
                } else {
                    project_coins(old(self).project_table(), r2, p2)
                },
            r is Ok ==> forall|r2: u64, p2: u64, v2: Seq<char>| #[trigger] voter_coins(final(self).voter_table(), r2, p2, v2)
                == if r2 == old(self).round()->Some_0 && v2 == sender@ && project_ids@.contains(p2) {
                    credited(
                        voter_coins(old(self).voter_table(), r2, p2, v2),
                        funds@[0].denom@,
                        attributed(project_ids@, amounts@, project_ids@.len() as int, p2),
                    )
                } else {
                    voter_coins(old(self).voter_table(), r2, p2, v2)
                },
    {
        let coin = match single_coin(&funds) {
            Ok(c) => c,
            Err(e) => {
                return Err(ContractError::Payment(e));
            },
        };
        let round = match self.round_id {
            Some(r) => r,
            None => {
                return Err(ContractError::NotFound);
            },
        };
        let ghost n = project_ids@.len() as int;
        let ghost ids = project_ids@;
        let ghost ams = amounts@;
        let ghost d = coin.denom@;
        let ghost pre = *self;
        // Every write is first gathered here, one entry per project with the
        // sum of its amounts, and made only once the whole batch has passed.
        let mut pending: Vec<(u64, u128)> = Vec::new();
        let mut total: u128 = 0;
        let mut i: usize = 0;
        while i < project_ids.len()
            invariant
                i <= n,
                *self == pre,
                total == amount_sum(ams, i as int),
                forall|k: int| 0 <= k < pending@.len() ==> (#[trigger] pending@[k]).1 == attributed(ids, ams, i as int, pending@[k].0),
                forall|k: int| 0 <= k < pending@.len() ==> pre.project_total(round, (#[trigger] pending@[k]).0, d) + pending@[k].1 <= u128::MAX,
                forall|k1: int, k2: int| 0 <= k1 < k2 < pending@.len() ==> (#[trigger] pending@[k1]).0 != (#[trigger] pending@[k2]).0,
                forall|j: int| 0 <= j < i ==> pending_has(pending@, pending@.len() as int, #[trigger] ids[j]),
                forall|k: int| 0 <= k < pending@.len() ==> exists|j: int| 0 <= j < i && ids[j] == (#[trigger] pending@[k]).0,
                forall|q: u64| pending_has(pending@, pending@.len() as int, q) || #[trigger] attributed(ids, ams, i as int, q) == 0,
            decreases n - i,
        {
            let p = project_ids[i];
            let a = amounts[i];
            proof {
                lemma_sum_nonneg(pre.project_table(), project_part(round, p, d));
            }
            let t = match total.checked_add(a) {
                Some(t) => t,
                None => {
                    proof {
                        lemma_amount_sum_mono(ams, i + 1, n);
                    }
                    return Err(ContractError::Overflow);
                },
            };
            let mut k: usize = 0;
            while k < pending.len() && pending[k].0 != p
                invariant
                    k <= pending@.len(),
                    forall|m: int| 0 <= m < k ==> (#[trigger] pending@[m]).0 != p,
                decreases pending@.len() - k,
            {
                k = k + 1;
            }
            proof {
                if k == pending@.len() {
                    if pending_has(pending@, pending@.len() as int, p) {
                        let m = choose|m: int| 0 <= m < pending@.len() && #[trigger] pending@[m].0 == p;
                        assert(pending@[m].0 != p);
                    }
                    assert(attributed(ids, ams, i as int, p) == 0);
                }
                assert(attributed(ids, ams, i as int + 1, p) == attributed(ids, ams, i as int, p) + a);
            }
            let prev: u128 = if k < pending.len() { pending[k].1 } else { 0 };
            let added = match prev.checked_add(a) {
                Some(x) => x,
                None => {
                    proof {
                        lemma_attributed_mono(ids, ams, i + 1, n, p);
                        assert(pre.project_total(round, ids[i as int], d) + attributed(ids, ams, n, ids[i as int]) > u128::MAX);
                    }
                    return Err(ContractError::Overflow);
                },
            };
            let base = self.project_amount(round, p, &coin.denom);
            if base.checked_add(added).is_none() {
                proof {
                    lemma_attributed_mono(ids, ams, i + 1, n, p);
                    assert(pre.project_total(round, ids[i as int], d) + attributed(ids, ams, n, ids[i as int]) > u128::MAX);
                }
                return Err(ContractError::Overflow);
            }
            let ghost before = pending@;
            if k < pending.len() {
                pending[k] = (p, added);
            } else {
                pending.push((p, added));
            }
            total = t;
            i = i + 1;
            proof {
                assert forall|k2: int| 0 <= k2 < pending@.len() implies (#[trigger] pending@[k2]).1 == attributed(ids, ams, i as int, pending@[k2].0) by {
                    if k2 != k {
                        assert(before[k2] == pending@[k2]);
                        assert(before[k2].0 != p);
                    }
                }
                assert forall|k2: int| 0 <= k2 < pending@.len() implies pre.project_total(round, (#[trigger] pending@[k2]).0, d) + pending@[k2].1 <= u128::MAX by {
                    if k2 != k {
                        assert(before[k2] == pending@[k2]);
                    }
                }
                assert forall|k1: int, k2: int| 0 <= k1 < k2 < pending@.len() implies (#[trigger] pending@[k1]).0 != (#[trigger] pending@[k2]).0 by {
                    if k1 != k && k2 != k {
                        assert(before[k1] == pending@[k1] && before[k2] == pending@[k2]);
                    } else if k1 == k {
                        assert(before[k2] == pending@[k2]);
                    } else {
                        assert(before[k1] == pending@[k1]);
                    }
                }
                assert forall|q: u64| pending_has(before, before.len() as int, q) implies pending_has(pending@, pending@.len() as int, q) by {
                    let m = choose|m: int| 0 <= m < before.len() && #[trigger] before[m].0 == q;
                    if m == k {
                        assert(pending@[m].0 == q);
                    } else {
                        assert(pending@[m] == before[m]);
                    }
                }
                assert(pending@[k as int].0 == p);
                assert(pending_has(pending@, pending@.len() as int, p));
                assert forall|j: int| 0 <= j < i implies pending_has(pending@, pending@.len() as int, #[trigger] ids[j]) by {
                    if j < i - 1 {
                        assert(pending_has(before, before.len() as int, ids[j]));
                    }
                }
                assert forall|k2: int| 0 <= k2 < pending@.len() implies exists|j: int| 0 <= j < i && ids[j] == (#[trigger] pending@[k2]).0 by {
                    if k2 == k {
                        assert(ids[i - 1] == pending@[k2].0);
                    } else {
                        assert(before[k2] == pending@[k2]);
                        let j = choose|j: int| 0 <= j < i - 1 && ids[j] == before[k2].0;
                        assert(ids[j] == pending@[k2].0);
                    }
                }
                assert forall|q: u64| pending_has(pending@, pending@.len() as int, q) || #[trigger] attributed(ids, ams, i as int, q) == 0 by {
                    if q != p && !pending_has(before, before.len() as int, q) {
                        assert(attributed(ids, ams, i - 1, q) == 0);
                    }
                }
            }
        }
        proof {
            assert(ids.subrange(0, n) =~= ids);
            assert forall|j: int| 0 <= j < n implies pre.project_total(round, #[trigger] ids[j], d) + attributed(ids, ams, n, ids[j]) <= u128::MAX by {
                assert(pending_has(pending@, pending@.len() as int, ids[j]));
                let m = choose|m: int| 0 <= m < pending@.len() && #[trigger] pending@[m].0 == ids[j];
                assert(pending@[m].1 == attributed(ids, ams, n, ids[j]));
            }
            assert(!pre.batch_overflows(round, d, ids, ams));
        }
        if total != coin.amount {
            return Err(ContractError::InvalidAmount { expected: total, actual: coin.amount });
        }
        let mut c: usize = 0;
        while c < pending.len()
            invariant
                c <= pending@.len(),
                self.wf(),
                self.admin_seq() == pre.admin_seq(),
                self.beneficiary_view() == pre.beneficiary_view(),
                self.round() == pre.round(),
                self.rounds_ended() == pre.rounds_ended(),
                forall|r2: u64, p2: u64, d2: Seq<char>| #[trigger] self.project_total(r2, p2, d2)
                    == pre.project_total(r2, p2, d2) + (if r2 == round && d2 == d && pending_has(pending@, c as int, p2) {
                        attributed(ids, ams, n, p2)
                    } else {
                        0
                    }),
                forall|r2: u64, p2: u64, v2: Seq<char>, d2: Seq<char>| #[trigger] self.voter_total(r2, p2, v2, d2)
                    == pre.voter_total(r2, p2, v2, d2) + (if r2 == round && v2 == sender@ && d2 == d && pending_has(pending@, c as int, p2) {
                        attributed(ids, ams, n, p2)
                    } else {
                        0
                    }),
                forall|r2: u64, p2: u64| #[trigger] self.has_project(r2, p2)
                    <==> (pre.has_project(r2, p2) || (r2 == round && pending_has(pending@, c as int, p2))),
                forall|r2: u64, p2: u64, v2: Seq<char>| #[trigger] self.has_vote(r2, p2, v2)
                    <==> (pre.has_vote(r2, p2, v2) || (r2 == round && v2 == sender@ && pending_has(pending@, c as int, p2))),
                forall|r2: u64, p2: u64| #[trigger] project_coins(self.project_table(), r2, p2)
                    == if r2 == round && pending_has(pending@, c as int, p2) {
                        credited(project_coins(pre.project_table(), r2, p2), d, attributed(ids, ams, n, p2))
                    } else {
                        project_coins(pre.project_table(), r2, p2)
                    },
                forall|r2: u64, p2: u64, v2: Seq<char>| #[trigger] voter_coins(self.voter_table(), r2, p2, v2)
                    == if r2 == round && v2 == sender@ && pending_has(pending@, c as int, p2) {
                        credited(voter_coins(pre.voter_table(), r2, p2, v2), d, attributed(ids, ams, n, p2))
                    } else {
                        voter_coins(pre.voter_table(), r2, p2, v2)
                    },
            decreases pending@.len() - c,
        {
            let (p, added) = pending[c];
            proof {
                if pending_has(pending@, c as int, p) {
                    let m = choose|m: int| 0 <= m < c && #[trigger] pending@[m].0 == p;
                    assert(pending@[m].0 != pending@[c as int].0);
                }
                assert(self.project_total(round, p, d) == pre.project_total(round, p, d));
            }
            let ghost mid = *self;
            self.credit(round, p, &sender, &coin.denom, added);
            c = c + 1;
            proof {
                assert forall|q: u64| #[trigger] pending_has(pending@, c as int, q) <==> (pending_has(pending@, c - 1, q) || q == p) by {
                    if q == p {
                        assert(pending@[c - 1].0 == q);
                    }
                    if pending_has(pending@, c - 1, q) {
                        let m = choose|m: int| 0 <= m < c - 1 && #[trigger] pending@[m].0 == q;
                        assert(0 <= m < c && pending@[m].0 == q);
                    }
                    if pending_has(pending@, c as int, q) {
                        let m = choose|m: int| 0 <= m < c && #[trigger] pending@[m].0 == q;
                        if m < c - 1 {
                            assert(0 <= m < c - 1 && pending@[m].0 == q);
                        }
                    }
                }
                assert forall|r2: u64, p2: u64, d2: Seq<char>| #[trigger] self.project_total(r2, p2, d2)
                    == pre.project_total(r2, p2, d2) + (if r2 == round && d2 == d && pending_has(pending@, c as int, p2) {
                        attributed(ids, ams, n, p2)
                    } else {
                        0
                    }) by {
                    assert(mid.project_total(r2, p2, d2) == pre.project_total(r2, p2, d2) + (if r2 == round && d2 == d && pending_has(pending@, c - 1, p2) {
                        attributed(ids, ams, n, p2)
                    } else {
                        0
                    }));
                    assert(pending_has(pending@, c as int, p2) <==> (pending_has(pending@, c - 1, p2) || p2 == p));
                }
                assert forall|r2: u64, p2: u64, v2: Seq<char>, d2: Seq<char>| #[trigger] self.voter_total(r2, p2, v2, d2)
                    == pre.voter_total(r2, p2, v2, d2) + (if r2 == round && v2 == sender@ && d2 == d && pending_has(pending@, c as int, p2) {
                        attributed(ids, ams, n, p2)
                    } else {
                        0
                    }) by {
                    assert(mid.voter_total(r2, p2, v2, d2) == pre.voter_total(r2, p2, v2, d2) + (if r2 == round && v2 == sender@ && d2 == d && pending_has(pending@, c - 1, p2) {
                        attributed(ids, ams, n, p2)
                    } else {
                        0
                    }));
                    assert(pending_has(pending@, c as int, p2) <==> (pending_has(pending@, c - 1, p2) || p2 == p));
                }
                assert forall|r2: u64, p2: u64| #[trigger] project_coins(self.project_table(), r2, p2)
                    == if r2 == round && pending_has(pending@, c as int, p2) {
                        credited(project_coins(pre.project_table(), r2, p2), d, attributed(ids, ams, n, p2))
                    } else {
                        project_coins(pre.project_table(), r2, p2)
                    } by {
                    assert(project_coins(mid.project_table(), r2, p2)
                        == if r2 == round && pending_has(pending@, c - 1, p2) {
                            credited(project_coins(pre.project_table(), r2, p2), d, attributed(ids, ams, n, p2))
                        } else {
                            project_coins(pre.project_table(), r2, p2)
                        });
                    assert(pending_has(pending@, c as int, p2) <==> (pending_has(pending@, c - 1, p2) || p2 == p));
                }
                assert forall|r2: u64, p2: u64, v2: Seq<char>| #[trigger] voter_coins(self.voter_table(), r2, p2, v2)
                    == if r2 == round && v2 == sender@ && pending_has(pending@, c as int, p2) {
                        credited(voter_coins(pre.voter_table(), r2, p2, v2), d, attributed(ids, ams, n, p2))
                    } else {
                        voter_coins(pre.voter_table(), r2, p2, v2)
                    } by {
                    assert(voter_coins(mid.voter_table(), r2, p2, v2)
                        == if r2 == round && v2 == sender@ && pending_has(pending@, c - 1, p2) {
                            credited(voter_coins(pre.voter_table(), r2, p2, v2), d, attributed(ids, ams, n, p2))
                        } else {
                            voter_coins(pre.voter_table(), r2, p2, v2)
                        });
                    assert(pending_has(pending@, c as int, p2) <==> (pending_has(pending@, c - 1, p2) || p2 == p));
                }
                assert forall|r2: u64, p2: u64| #[trigger] self.has_project(r2, p2)
                    <==> (pre.has_project(r2, p2) || (r2 == round && pending_has(pending@, c as int, p2))) by {
                    assert(mid.has_project(r2, p2) <==> (pre.has_project(r2, p2) || (r2 == round && pending_has(pending@, c - 1, p2))));
                    assert(pending_has(pending@, c as int, p2) <==> (pending_has(pending@, c - 1, p2) || p2 == p));
                }
                assert forall|r2: u64, p2: u64, v2: Seq<char>| #[trigger] self.has_vote(r2, p2, v2)
                    <==> (pre.has_vote(r2, p2, v2) || (r2 == round && v2 == sender@ && pending_has(pending@, c as int, p2))) by {
                    assert(mid.has_vote(r2, p2, v2) <==> (pre.has_vote(r2, p2, v2) || (r2 == round && v2 == sender@ && pending_has(pending@, c - 1, p2))));
                    assert(pending_has(pending@, c as int, p2) <==> (pending_has(pending@, c - 1, p2) || p2 == p));
                }
            }
        }
        proof {
            assert forall|q: u64| #[trigger] pending_has(pending@, pending@.len() as int, q) <==> ids.contains(q) by {
                if pending_has(pending@, pending@.len() as int, q) {
                    let m = choose|m: int| 0 <= m < pending@.len() && #[trigger] pending@[m].0 == q;
                    let j = choose|j: int| 0 <= j < n && ids[j] == pending@[m].0;
                    assert(ids[j] == q);
                }
                if ids.contains(q) {
                    let j = choose|j: int| 0 <= j < n && ids[j] == q;
                    assert(pending_has(pending@, pending@.len() as int, ids[j]));
                }
            }
        }
        let to_address = match &self.beneficiary {
            Some(b) => b.clone(),
            None => String::new(),
        };
        let transfer = Transfer { to_address, denom: coin.denom.clone(), amount: coin.amount };
        let event = Event::BatchVoted { sender, round_id: round, project_ids, amounts, denom: coin.denom };
        Ok(VoteReceipt { transfer, event })
    }

    /// What project `project_id` received during round `round_id`, one coin
    /// per currency; `NotFound` if it never received anything then.
    pub fn project(&self, project_id: u64, round_id: u64) -> (r: Result<Vec<Coin>, ContractError>)
        requires
            self.wf(),
        ensures
            r is Ok <==> self.has_project(round_id, project_id),
            r is Err ==> r->Err_0 == ContractError::NotFound,
            r is Ok ==> r->Ok_0@.map_values(|c: Coin| c@) == project_coins(self.project_table(), round_id, project_id),
    {
        let mut out: Vec<Coin> = Vec::new();
        let mut i: usize = 0;
        while i < self.projects.len()
            invariant
                i <= self.projects@.len(),
                out@.map_values(|c: Coin| c@) == project_coins(self.projects@.subrange(0, i as int), round_id, project_id),
                out@.len() > 0 <==> exists|j: int|
                    0 <= j < i && #[trigger] self.projects@[j].round == round_id && self.projects@[j].project == project_id,
            decreases self.projects@.len() - i,
        {
            let x = &self.projects[i];
            proof {
                assert(self.projects@.subrange(0, i + 1).drop_last() =~= self.projects@.subrange(0, i as int));
            }
            if x.round == round_id && x.project == project_id {
                out.push(Coin { denom: x.denom.clone(), amount: x.amount });
                assert(out@.map_values(|c: Coin| c@) =~= project_coins(self.projects@.subrange(0, i + 1), round_id, project_id));
            }
            i = i + 1;
        }
        assert(self.projects@.subrange(0, i as int) =~= self.projects@);
        if out.len() == 0 {
            return Err(ContractError::NotFound);
        }
        Ok(out)
    }

    /// What `voter` gave to project `project_id` during round `round_id`, one
    /// coin per currency. `voter` is what the address validator made of the
    /// caller's text: a refusal is `InvalidAddress`; a voter who gave nothing
    /// to that project then is `NotFound`.
    pub fn project_voter(&self, round_id: u64, project_id: u64, voter: Result<String, String>) -> (r: Result<Vec<Coin>, ContractError>)
        requires
            self.wf(),
        ensures
            voter is Err ==> r is Err && r->Err_0 == (ContractError::InvalidAddress { reason: voter->Err_0 }),
            voter is Ok ==> (r is Ok <==> self.has_vote(round_id, project_id, voter->Ok_0@)),
            voter is Ok && r is Err ==> r->Err_0 == ContractError::NotFound,
            r is Ok ==> r->Ok_0@.map_values(|c: Coin| c@) == voter_coins(self.voter_table(), round_id, project_id, voter->Ok_0@),
    {
        let voter = match voter {
            Ok(v) => v,
            Err(reason) => {
                return Err(ContractError::InvalidAddress { reason });
            },
        };
        let mut out: Vec<Coin> = Vec::new();
        let mut i: usize = 0;
        while i < self.voters.len()
            invariant
                i <= self.voters@.len(),
                out@.map_values(|c: Coin| c@) == voter_coins(self.voters@.subrange(0, i as int), round_id, project_id, voter@),
                out@.len() > 0 <==> exists|j: int|
                    0 <= j < i && #[trigger] self.voters@[j].round == round_id && self.voters@[j].project == project_id
                        && self.voters@[j].voter@ == voter@,
            decreases self.voters@.len() - i,
        {
            let x = &self.voters[i];
            proof {
                assert(self.voters@.subrange(0, i + 1).drop_last() =~= self.voters@.subrange(0, i as int));
            }
            if x.round == round_id && x.project == project_id && x.voter == voter {
                out.push(Coin { denom: x.denom.clone(), amount: x.amount });
                assert(out@.map_values(|c: Coin| c@) =~= voter_coins(self.voters@.subrange(0, i + 1), round_id, project_id, voter@));
            }
            i = i + 1;
        }
        assert(self.voters@.subrange(0, i as int) =~= self.voters@);
        if out.len() == 0 {
            return Err(ContractError::NotFound);
        }
        Ok(out)
    }

    /// The current round; `NotFound` until the ledger is initialized.
    pub fn round_id(&self) -> (r: Result<u64, ContractError>)
        ensures
            self.round() is Some ==> r is Ok && r->Ok_0 == self.round()->Some_0,
            self.round() is None ==> r is Err && r->Err_0 == ContractError::NotFound,
    {
        match self.round_id {
            Some(r) => Ok(r),
            None => Err(ContractError::NotFound),
        }
    }
}

} // verus!
