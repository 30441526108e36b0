//! End-to-end behaviour of the collator-selection lifecycle: genesis,
//! registration, removal, rewards, eviction and roster assembly.

use collator_selection::identity::IdentityCollator;
use collator_selection::identity::KeyedResolver;
use collator_selection::identity::RegisteredKeys;
use collator_selection::pallet::Config;
use collator_selection::pallet::Error;
use collator_selection::pallet::Event;
use collator_selection::pallet::GenesisConfig;
use collator_selection::pallet::Origin;
use collator_selection::pallet::Pallet;

const POT: u64 = 999;

fn test_config() -> Config {
    Config {
        max_candidates: 100,
        max_invulnerables: 100,
        eviction_percentile: 20,
        underperform_percent: 50,
        pot_id: POT,
    }
}

fn setup(invulnerables: Vec<u64>, desired: u32, bond: u128, minimum: u128) -> Pallet {
    let config = test_config();
    let genesis = GenesisConfig {
        invulnerables,
        candidacy_bond: bond,
        desired_candidates: desired,
    };
    assert!(genesis.is_valid(&config));
    genesis.build(config, minimum)
}

/// Registers `who` after funding it with `funds`, expecting success.
fn register_funded(p: &mut Pallet, who: u64, funds: u128) -> usize {
    p.ledger.deposit(who, funds);
    let check = RegisteredKeys { members: vec![who] };
    p.register_as_candidate(who, &IdentityCollator, &check).unwrap()
}

#[test]
fn genesis_builds_empty_state() {
    let p = setup(vec![1, 2], 5, 10, 1);
    assert_eq!(p.invulnerables, vec![1, 2]);
    assert_eq!(p.candidates.len(), 0);
    assert_eq!(p.desired_candidates, 5);
    assert_eq!(p.candidacy_bond, 10);
    assert_eq!(p.events.len(), 0);
    assert_eq!(p.account_id(), POT);
}

#[test]
fn genesis_validation_rejects_bad_states() {
    let config = test_config();
    let dup = GenesisConfig {
        invulnerables: vec![1, 2, 1],
        candidacy_bond: 10,
        desired_candidates: 5,
    };
    assert!(!dup.is_valid(&config));

    let over_capacity = GenesisConfig {
        invulnerables: vec![],
        candidacy_bond: 10,
        desired_candidates: 101,
    };
    assert!(!over_capacity.is_valid(&config));

    let mut bad_percentile = test_config();
    bad_percentile.eviction_percentile = 100;
    let plain = GenesisConfig {
        invulnerables: vec![],
        candidacy_bond: 10,
        desired_candidates: 5,
    };
    assert!(!plain.is_valid(&bad_percentile));

    let mut bad_underperform = test_config();
    bad_underperform.underperform_percent = 101;
    assert!(!plain.is_valid(&bad_underperform));
}

#[test]
fn register_reserves_bond_and_notifies() {
    let mut p = setup(vec![1, 2], 5, 10, 1);
    let count = register_funded(&mut p, 3, 50);
    assert_eq!(count, 1);
    assert_eq!(p.candidates.len(), 1);
    assert_eq!(p.candidates[0].who, 3);
    assert_eq!(p.candidates[0].deposit, 10);
    assert_eq!(p.ledger.free_balance(3), 40);
    assert_eq!(p.ledger.reserved_balance(3), 10);
    assert!(matches!(p.events.last(), Some(Event::CandidateAdded(a, d)) if *a == 3 && *d == 10));
}

#[test]
fn registration_capacity_is_enforced() {
    let mut p = setup(vec![], 2, 10, 1);
    register_funded(&mut p, 3, 50);
    register_funded(&mut p, 4, 50);
    p.ledger.deposit(5, 50);
    let check = RegisteredKeys { members: vec![5] };
    assert_eq!(
        p.register_as_candidate(5, &IdentityCollator, &check),
        Err(Error::TooManyCandidates)
    );
    assert_eq!(p.candidates.len(), 2);
}

#[test]
fn duplicate_registration_fails_even_at_capacity() {
    let mut p = setup(vec![], 2, 10, 1);
    register_funded(&mut p, 3, 50);
    register_funded(&mut p, 4, 50);
    let check = RegisteredKeys { members: vec![3] };
    assert_eq!(
        p.register_as_candidate(3, &IdentityCollator, &check),
        Err(Error::AlreadyCandidate)
    );
    assert_eq!(
        p.register_candidate(Origin::Privileged, 4, &IdentityCollator, &check),
        Err(Error::AlreadyCandidate)
    );
    assert_eq!(p.candidates.len(), 2);
}

#[test]
fn duplicate_registration_fails() {
    let mut p = setup(vec![], 5, 10, 1);
    register_funded(&mut p, 3, 50);
    let check = RegisteredKeys { members: vec![3] };
    assert_eq!(
        p.register_as_candidate(3, &IdentityCollator, &check),
        Err(Error::AlreadyCandidate)
    );
    assert_eq!(p.candidates.len(), 1);
    assert_eq!(p.ledger.reserved_balance(3), 10);
}

#[test]
fn invulnerable_cannot_register() {
    let mut p = setup(vec![1, 2], 5, 10, 1);
    p.ledger.deposit(1, 50);
    let check = RegisteredKeys { members: vec![1] };
    assert_eq!(
        p.register_as_candidate(1, &IdentityCollator, &check),
        Err(Error::AlreadyInvulnerable)
    );
}

#[test]
fn unresolved_identity_is_rejected() {
    let mut p = setup(vec![], 5, 10, 1);
    p.ledger.deposit(3, 50);
    let resolver = KeyedResolver { keys: vec![(4, 40)] };
    let check = RegisteredKeys { members: vec![3, 40] };
    assert_eq!(
        p.register_as_candidate(3, &resolver, &check),
        Err(Error::NoAssociatedValidatorId)
    );
    let count = p.register_as_candidate(4, &resolver, &check);
    assert_eq!(count, Err(Error::InsufficientBalance));
}

#[test]
fn unregistered_identity_is_rejected() {
    let mut p = setup(vec![], 5, 10, 1);
    p.ledger.deposit(3, 50);
    let check = RegisteredKeys { members: vec![] };
    assert_eq!(
        p.register_as_candidate(3, &IdentityCollator, &check),
        Err(Error::ValidatorNotRegistered)
    );
}

#[test]
fn underfunded_registration_fails() {
    let mut p = setup(vec![], 5, 10, 1);
    p.ledger.deposit(3, 9);
    let check = RegisteredKeys { members: vec![3] };
    assert_eq!(
        p.register_as_candidate(3, &IdentityCollator, &check),
        Err(Error::InsufficientBalance)
    );
    assert_eq!(p.ledger.free_balance(3), 9);
    assert_eq!(p.ledger.reserved_balance(3), 0);
}

#[test]
fn privileged_calls_demand_the_privileged_origin() {
    let mut p = setup(vec![1], 5, 10, 1);
    assert_eq!(
        p.set_desired_candidates(Origin::Signed(3), 7),
        Err(Error::Permission)
    );
    assert_eq!(
        p.set_candidacy_bond(Origin::Signed(3), 7),
        Err(Error::Permission)
    );
    assert_eq!(
        p.set_invulnerables(Origin::Signed(3), vec![4]),
        Err(Error::Permission)
    );
    let check = RegisteredKeys { members: vec![5] };
    assert_eq!(
        p.register_candidate(Origin::Signed(3), 5, &IdentityCollator, &check),
        Err(Error::Permission)
    );
    assert_eq!(
        p.remove_collator(Origin::Signed(3), 5),
        Err(Error::Permission)
    );
    assert_eq!(p.events.len(), 0);
}

#[test]
fn privileged_registration_works() {
    let mut p = setup(vec![], 5, 10, 1);
    p.ledger.deposit(5, 50);
    let check = RegisteredKeys { members: vec![5] };
    let count = p.register_candidate(Origin::Privileged, 5, &IdentityCollator, &check);
    assert_eq!(count, Ok(1));
    assert_eq!(p.candidates[0].who, 5);
    assert_eq!(p.ledger.reserved_balance(5), 10);
}

#[test]
fn parameter_updates_apply_and_notify() {
    let mut p = setup(vec![1], 5, 10, 1);
    assert_eq!(p.set_desired_candidates(Origin::Privileged, 7), Ok(()));
    assert_eq!(p.desired_candidates, 7);
    assert!(matches!(p.events.last(), Some(Event::NewDesiredCandidates(m)) if *m == 7));

    assert_eq!(p.set_candidacy_bond(Origin::Privileged, 25), Ok(()));
    assert_eq!(p.candidacy_bond, 25);
    assert!(matches!(p.events.last(), Some(Event::NewCandidacyBond(b)) if *b == 25));

    assert_eq!(p.set_invulnerables(Origin::Privileged, vec![8, 9]), Ok(()));
    assert_eq!(p.invulnerables, vec![8, 9]);
    assert!(matches!(p.events.last(), Some(Event::NewInvulnerables(v)) if *v == vec![8, 9]));
}

#[test]
fn bond_change_is_not_retroactive() {
    let mut p = setup(vec![], 5, 10, 1);
    register_funded(&mut p, 3, 50);
    assert_eq!(p.set_candidacy_bond(Origin::Privileged, 40), Ok(()));
    assert_eq!(p.candidates[0].deposit, 10);
    register_funded(&mut p, 4, 50);
    assert_eq!(p.candidates[1].deposit, 40);
    assert_eq!(p.ledger.reserved_balance(3), 10);
    assert_eq!(p.ledger.reserved_balance(4), 40);
    assert_eq!(p.leave_intent(3), Ok(1));
    assert_eq!(p.ledger.free_balance(3), 50);
    assert_eq!(p.ledger.reserved_balance(3), 0);
}

#[test]
fn removing_a_non_candidate_fails_without_side_effects() {
    let mut p = setup(vec![1], 5, 10, 1);
    register_funded(&mut p, 3, 50);
    let events_before = p.events.len();
    assert_eq!(p.leave_intent(4), Err(Error::NotCandidate));
    assert_eq!(p.remove_collator(Origin::Privileged, 4), Err(Error::NotCandidate));
    assert_eq!(p.candidates.len(), 1);
    assert_eq!(p.events.len(), events_before);
    assert_eq!(p.ledger.free_balance(3), 40);
    assert_eq!(p.ledger.reserved_balance(3), 10);
}

#[test]
fn leave_intent_releases_the_bond() {
    let mut p = setup(vec![], 5, 10, 1);
    register_funded(&mut p, 3, 50);
    p.note_author(3);
    assert_eq!(p.tracker.blocks_of(3), 1);
    assert_eq!(p.leave_intent(3), Ok(0));
    assert_eq!(p.candidates.len(), 0);
    assert_eq!(p.ledger.free_balance(3), 50);
    assert_eq!(p.ledger.reserved_balance(3), 0);
    assert_eq!(p.tracker.blocks_of(3), 0);
    assert!(matches!(p.events.last(), Some(Event::CandidateRemoved(a)) if *a == 3));
}

#[test]
fn invulnerables_cannot_be_removed() {
    let mut p = setup(vec![1], 5, 10, 1);
    assert_eq!(
        p.remove_collator(Origin::Privileged, 1),
        Err(Error::NotAllowRemoveInvulnerable)
    );
}

#[test]
fn privileged_removal_works() {
    let mut p = setup(vec![1], 5, 10, 1);
    register_funded(&mut p, 3, 50);
    assert_eq!(p.remove_collator(Origin::Privileged, 3), Ok(0));
    assert_eq!(p.candidates.len(), 0);
    assert_eq!(p.ledger.free_balance(3), 50);
}

#[test]
fn bond_conservation_across_mixed_bonds() {
    let mut p = setup(vec![], 5, 10, 1);
    register_funded(&mut p, 3, 50);
    assert_eq!(p.set_candidacy_bond(Origin::Privileged, 30), Ok(()));
    register_funded(&mut p, 4, 50);
    let deposit_sum: u128 = p.candidates.iter().map(|c| c.deposit).sum();
    let reserve_sum: u128 = p.candidates.iter().map(|c| p.ledger.reserved_balance(c.who)).sum();
    assert_eq!(deposit_sum, 40);
    assert_eq!(reserve_sum, 40);
}
