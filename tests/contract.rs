use cosmwasm_std::testing::MockApi;
use cosmwasm_std::Api;
use quadratic_grant::contract::AGContract;
use quadratic_grant::error::{ContractError, PaymentError};
use quadratic_grant::types::{Coin, Event};

fn checked(addr: &str) -> Result<String, String> {
    MockApi::default()
        .addr_validate(addr)
        .map(|a| a.into_string())
        .map_err(|e| e.to_string())
}

fn inj(amount: u128) -> Vec<Coin> {
    vec![Coin { denom: "inj".to_string(), amount }]
}

fn setup() -> AGContract {
    let mut c = AGContract::new();
    c.instantiate("sender".to_string(), vec![checked("admin1"), checked("admin2")])
        .unwrap();
    c
}

fn coins(v: &[(&str, u128)]) -> Vec<Coin> {
    v.iter()
        .map(|(d, a)| Coin { denom: d.to_string(), amount: *a })
        .collect()
}

#[test]
fn admin_list_query() {
    let c = setup();
    let resp = c.admin_list();
    assert_eq!(resp.admins, vec!["admin1".to_owned(), "admin2".to_owned()]);
}

#[test]
fn add_member() {
    let mut c = setup();
    c.add_member("admin1".to_string(), checked("admin3")).unwrap();
    let resp = c.admin_list();
    assert_eq!(
        resp.admins,
        vec!["admin1".to_owned(), "admin2".to_owned(), "admin3".to_owned()]
    );
}

#[test]
fn test_all() {
    let mut c = setup();
    c.batch_vote("user1".to_string(), vec![1], vec![160000], inj(160000))
        .unwrap();
    c.batch_vote("user1".to_string(), vec![1], vec![90000], inj(90000))
        .unwrap();
    c.batch_vote("user1".to_string(), vec![2], vec![160000], inj(160000))
        .unwrap();
    c.end_round("admin1".to_string()).unwrap();
}

#[test]
fn admins_listed_ascending_whatever_the_given_order() {
    let mut c = AGContract::new();
    c.instantiate(
        "sender".to_string(),
        vec![checked("zed"), checked("admin2"), checked("bob"), checked("admin2")],
    )
    .unwrap();
    assert_eq!(c.admin_list().admins, vec!["admin2", "bob", "zed"]);
}

#[test]
fn instantiate_sets_round_and_beneficiary() {
    let mut c = AGContract::new();
    assert_eq!(c.round_id(), Err(ContractError::NotFound));
    c.instantiate("sender".to_string(), vec![checked("admin1")]).unwrap();
    assert_eq!(c.round_id(), Ok(1));
    let r = c
        .batch_vote("user1".to_string(), vec![4], vec![7], inj(7))
        .unwrap();
    assert_eq!(r.transfer.to_address, "sender");
    assert_eq!(r.transfer.amount, 7);
    assert_eq!(r.transfer.denom, "inj");
}

#[test]
fn instantiate_with_refused_address_changes_nothing() {
    let mut c = AGContract::new();
    let r = c.instantiate(
        "sender".to_string(),
        vec![checked("admin1"), Err("bad one".to_string()), Err("bad two".to_string())],
    );
    assert_eq!(r, Err(ContractError::InvalidAddress { reason: "bad one".to_string() }));
    assert_eq!(c.round_id(), Err(ContractError::NotFound));
    assert!(c.admin_list().admins.is_empty());
}

#[test]
fn add_member_by_stranger_is_unauthorized() {
    let mut c = setup();
    let r = c.add_member("user1".to_string(), checked("admin3"));
    assert_eq!(r, Err(ContractError::Unauthorized { sender: "user1".to_string() }));
    assert_eq!(c.admin_list().admins, vec!["admin1", "admin2"]);
}

#[test]
fn add_member_twice_is_duplicate() {
    let mut c = setup();
    let r = c.add_member("admin2".to_string(), checked("admin1"));
    assert_eq!(r, Err(ContractError::DuplicateAdmin { address: "admin1".to_string() }));
}

#[test]
fn add_member_with_refused_address() {
    let mut c = setup();
    let r = c.add_member("admin2".to_string(), Err("no".to_string()));
    assert_eq!(r, Err(ContractError::InvalidAddress { reason: "no".to_string() }));
}

#[test]
fn add_member_event() {
    let mut c = setup();
    let r = c.add_member("admin2".to_string(), checked("carol")).unwrap();
    assert_eq!(r, Event::AdminAdded { addr: "carol".to_string() });
}

#[test]
fn set_beneficiary_by_admin_redirects_funds() {
    let mut c = setup();
    let e = c.set_beneficiary("admin2".to_string(), checked("pool")).unwrap();
    assert_eq!(e, Event::BeneficiarySet { addr: "pool".to_string() });
    let r = c
        .batch_vote("user1".to_string(), vec![1], vec![5], inj(5))
        .unwrap();
    assert_eq!(r.transfer.to_address, "pool");
}

#[test]
fn set_beneficiary_by_stranger_is_unauthorized() {
    let mut c = setup();
    let r = c.set_beneficiary("user1".to_string(), checked("pool"));
    assert_eq!(r, Err(ContractError::Unauthorized { sender: "user1".to_string() }));
    let r = c
        .batch_vote("user1".to_string(), vec![1], vec![5], inj(5))
        .unwrap();
    assert_eq!(r.transfer.to_address, "sender");
}

#[test]
fn end_round_by_stranger_is_unauthorized() {
    let mut c = setup();
    let r = c.end_round("user1".to_string());
    assert_eq!(r, Err(ContractError::Unauthorized { sender: "user1".to_string() }));
    assert_eq!(c.round_id(), Ok(1));
}

#[test]
fn end_round_increments_and_keeps_closed_rounds() {
    let mut c = setup();
    c.batch_vote("user1".to_string(), vec![3], vec![10], inj(10))
        .unwrap();
    let e = c.end_round("admin1".to_string()).unwrap();
    assert_eq!(e, Event::RoundEnded { round_id: 1 });
    assert_eq!(c.round_id(), Ok(2));
    c.end_round("admin2".to_string()).unwrap();
    assert_eq!(c.round_id(), Ok(3));
    assert_eq!(c.project(3, 1), Ok(coins(&[("inj", 10)])));
    assert_eq!(c.project(3, 3), Err(ContractError::NotFound));
    c.batch_vote("user1".to_string(), vec![3], vec![4], inj(4)).unwrap();
    assert_eq!(c.project(3, 1), Ok(coins(&[("inj", 10)])));
    assert_eq!(c.project(3, 3), Ok(coins(&[("inj", 4)])));
}

#[test]
fn repeated_vote_accumulates() {
    let mut c = setup();
    c.batch_vote("user1".to_string(), vec![1], vec![160000], inj(160000))
        .unwrap();
    assert_eq!(c.project(1, 1), Ok(coins(&[("inj", 160000)])));
    c.batch_vote("user1".to_string(), vec![1], vec![160000], inj(160000))
        .unwrap();
    assert_eq!(c.project(1, 1), Ok(coins(&[("inj", 320000)])));
    assert_eq!(
        c.project_voter(1, 1, checked("user1")),
        Ok(coins(&[("inj", 320000)]))
    );
}

#[test]
fn duplicate_projects_in_one_batch_accumulate() {
    let mut c = setup();
    c.batch_vote("user1".to_string(), vec![1], vec![20], inj(20)).unwrap();
    let r = c
        .batch_vote("user1".to_string(), vec![1, 1], vec![100, 50], inj(150))
        .unwrap();
    assert_eq!(r.transfer.amount, 150);
    assert_eq!(c.project(1, 1), Ok(coins(&[("inj", 170)])));
    assert_eq!(c.project_voter(1, 1, checked("user1")), Ok(coins(&[("inj", 170)])));
}

#[test]
fn mismatched_amount_is_refused_and_changes_nothing() {
    let mut c = setup();
    c.batch_vote("user1".to_string(), vec![1], vec![30], inj(30)).unwrap();
    let r = c.batch_vote("user1".to_string(), vec![1], vec![100], inj(99));
    assert_eq!(r, Err(ContractError::InvalidAmount { expected: 100, actual: 99 }));
    assert_eq!(c.project(1, 1), Ok(coins(&[("inj", 30)])));
    assert_eq!(c.project_voter(1, 1, checked("user1")), Ok(coins(&[("inj", 30)])));
}

#[test]
fn mismatched_amount_on_fresh_project_leaves_no_record() {
    let mut c = setup();
    let r = c.batch_vote("user1".to_string(), vec![1], vec![100], inj(99));
    assert_eq!(r, Err(ContractError::InvalidAmount { expected: 100, actual: 99 }));
    assert_eq!(c.project(1, 1), Err(ContractError::NotFound));
    assert_eq!(c.project_voter(1, 1, checked("user1")), Err(ContractError::NotFound));
}

#[test]
fn voters_add_up_to_project_total() {
    let mut c = setup();
    c.batch_vote("user1".to_string(), vec![1, 2], vec![10, 20], inj(30)).unwrap();
    c.batch_vote("user2".to_string(), vec![1], vec![5], inj(5)).unwrap();
    c.batch_vote("user2".to_string(), vec![1], vec![7], coins(&[("atom", 7)])).unwrap();
    assert_eq!(c.project(1, 1), Ok(coins(&[("inj", 15), ("atom", 7)])));
    assert_eq!(c.project(2, 1), Ok(coins(&[("inj", 20)])));
    assert_eq!(c.project_voter(1, 1, checked("user1")), Ok(coins(&[("inj", 10)])));
    assert_eq!(
        c.project_voter(1, 1, checked("user2")),
        Ok(coins(&[("inj", 5), ("atom", 7)]))
    );
    assert_eq!(c.project_voter(1, 2, checked("user2")), Err(ContractError::NotFound));
}

#[test]
fn project_voter_with_refused_address() {
    let c = setup();
    let r = c.project_voter(1, 1, Err("nope".to_string()));
    assert_eq!(r, Err(ContractError::InvalidAddress { reason: "nope".to_string() }));
}

#[test]
fn batch_vote_event_carries_the_batch() {
    let mut c = setup();
    let r = c
        .batch_vote("user1".to_string(), vec![2, 9], vec![1, 2], inj(3))
        .unwrap();
    assert_eq!(
        r.event,
        Event::BatchVoted {
            sender: "user1".to_string(),
            round_id: 1,
            project_ids: vec![2, 9],
            amounts: vec![1, 2],
            denom: "inj".to_string(),
        }
    );
}

#[test]
fn batch_vote_without_funds() {
    let mut c = setup();
    let r = c.batch_vote("user1".to_string(), vec![1], vec![1], vec![]);
    assert_eq!(r, Err(ContractError::Payment(PaymentError::NoFunds)));
    let r = c.batch_vote("user1".to_string(), vec![1], vec![0], inj(0));
    assert_eq!(r, Err(ContractError::Payment(PaymentError::NoFunds)));
}

#[test]
fn batch_vote_with_two_denominations() {
    let mut c = setup();
    let r = c.batch_vote(
        "user1".to_string(),
        vec![1],
        vec![1],
        coins(&[("inj", 1), ("atom", 1)]),
    );
    assert_eq!(r, Err(ContractError::Payment(PaymentError::MultipleDenoms)));
}

#[test]
fn batch_vote_before_instantiate() {
    let mut c = AGContract::new();
    let r = c.batch_vote("user1".to_string(), vec![1], vec![1], inj(1));
    assert_eq!(r, Err(ContractError::NotFound));
}

#[test]
fn batch_vote_sum_overflow() {
    let mut c = setup();
    let r = c.batch_vote("user1".to_string(), vec![1, 2], vec![u128::MAX, 1], inj(5));
    assert_eq!(r, Err(ContractError::Overflow));
    assert_eq!(c.project(1, 1), Err(ContractError::NotFound));
}

#[test]
fn batch_vote_project_total_overflow() {
    let mut c = setup();
    c.batch_vote("user1".to_string(), vec![1], vec![u128::MAX], inj(u128::MAX))
        .unwrap();
    let r = c.batch_vote("user2".to_string(), vec![1], vec![1], inj(1));
    assert_eq!(r, Err(ContractError::Overflow));
    assert_eq!(c.project(1, 1), Ok(coins(&[("inj", u128::MAX)])));
}

#[test]
fn empty_batch_with_funds_is_invalid_amount() {
    let mut c = setup();
    let r = c.batch_vote("user1".to_string(), vec![], vec![], inj(5));
    assert_eq!(r, Err(ContractError::InvalidAmount { expected: 0, actual: 5 }));
}
