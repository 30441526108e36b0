//! Rewards, performance accounting, eviction and roster assembly across
//! period boundaries.

use collator_selection::identity::IdentityCollator;
use collator_selection::identity::RegisteredKeys;
use collator_selection::pallet::Config;
use collator_selection::pallet::Event;
use collator_selection::pallet::GenesisConfig;
use collator_selection::pallet::Pallet;

const POT: u64 = 999;

fn setup(invulnerables: Vec<u64>, desired: u32, bond: u128, minimum: u128) -> Pallet {
    let config = Config {
        max_candidates: 100,
        max_invulnerables: 100,
        eviction_percentile: 20,
        underperform_percent: 50,
        pot_id: POT,
    };
    let genesis = GenesisConfig {
        invulnerables,
        candidacy_bond: bond,
        desired_candidates: desired,
    };
    assert!(genesis.is_valid(&config));
    genesis.build(config, minimum)
}

fn register_funded(p: &mut Pallet, who: u64, funds: u128) {
    p.ledger.deposit(who, funds);
    let check = RegisteredKeys { members: vec![who] };
    p.register_as_candidate(who, &IdentityCollator, &check).unwrap();
}

#[test]
fn reward_is_half_the_pot_above_the_minimum() {
    assert_eq!(Pallet::block_reward(1000, 10), 495);
    assert_eq!(Pallet::block_reward(10, 10), 0);
    assert_eq!(Pallet::block_reward(5, 10), 0);
    assert_eq!(Pallet::block_reward(11, 10), 0);
    assert_eq!(Pallet::block_reward(13, 10), 1);
}

#[test]
fn note_author_pays_and_counts() {
    let mut p = setup(vec![], 5, 10, 10);
    p.ledger.deposit(POT, 1000);
    p.note_author(7);
    assert_eq!(p.ledger.free_balance(7), 495);
    assert_eq!(p.ledger.free_balance(POT), 505);
    assert_eq!(p.tracker.blocks_of(7), 1);
    p.note_author(7);
    assert_eq!(p.tracker.blocks_of(7), 2);
}

#[test]
fn empty_pot_still_counts_the_block() {
    let mut p = setup(vec![], 5, 10, 10);
    p.ledger.deposit(POT, 5);
    p.note_author(7);
    assert_eq!(p.ledger.free_balance(7), 0);
    assert_eq!(p.ledger.free_balance(POT), 5);
    assert_eq!(p.tracker.blocks_of(7), 1);
}

#[test]
fn note_uncle_does_nothing() {
    let mut p = setup(vec![], 5, 10, 10);
    p.note_uncle(7, 42);
    assert_eq!(p.tracker.blocks_of(7), 0);
    assert_eq!(p.events.len(), 0);
}

#[test]
fn start_session_resets_the_counters() {
    let mut p = setup(vec![], 5, 10, 10);
    p.note_author(7);
    p.note_author(8);
    assert_eq!(p.tracker.blocks_of(7), 1);
    p.start_session(1);
    assert_eq!(p.tracker.blocks_of(7), 0);
    assert_eq!(p.tracker.blocks_of(8), 0);
    p.end_session(1);
    assert_eq!(p.tracker.blocks_of(7), 0);
}

/// Performance counts 1 through 10, percentile 20, underperformance 50:
/// the rank index is `floor(20/100 * 10) - 1 = 1`, the benchmark is the
/// second-lowest count 2, the threshold `floor(0.5 * 2) = 1`, and exactly
/// the producer with a single block is evicted.
#[test]
fn percentile_eviction_removes_exactly_the_underperformer() {
    let mut p = setup(vec![], 10, 10, 10);
    for who in 1..=10u64 {
        register_funded(&mut p, who, 50);
    }
    for who in 1..=10u64 {
        for _ in 0..who {
            p.note_author(who);
        }
    }
    let removed = p.kick_stale_candidates();
    assert_eq!(removed, vec![1]);
    assert_eq!(p.candidates.len(), 9);
    assert!(p.candidates.iter().all(|c| c.who != 1));
    assert_eq!(p.ledger.reserved_balance(1), 0);
    assert_eq!(p.ledger.free_balance(1), 50);
    assert!(matches!(p.events.last(), Some(Event::CandidateRemoved(a)) if *a == 1));
}

#[test]
fn empty_tracker_evicts_nobody() {
    let mut p = setup(vec![], 5, 10, 10);
    register_funded(&mut p, 3, 50);
    let events_before = p.events.len();
    let removed = p.kick_stale_candidates();
    assert_eq!(removed, Vec::<u64>::new());
    assert_eq!(p.candidates.len(), 1);
    assert_eq!(p.events.len(), events_before);
}

#[test]
fn eviction_spares_invulnerables() {
    let mut p = setup(vec![1], 10, 10, 10);
    for who in 2..=10u64 {
        register_funded(&mut p, who, 50);
    }
    p.note_author(1);
    for who in 2..=10u64 {
        for _ in 0..who {
            p.note_author(who);
        }
    }
    let removed = p.kick_stale_candidates();
    assert_eq!(removed, Vec::<u64>::new());
    assert_eq!(p.invulnerables, vec![1]);
    assert_eq!(p.candidates.len(), 9);
}

#[test]
fn assembly_keeps_both_orders_without_deduplication() {
    let p = setup(vec![10, 20], 5, 10, 1);
    let roster = p.assemble_collators(vec![30, 40]);
    assert_eq!(roster, vec![10, 20, 30, 40]);
    let again = p.assemble_collators(vec![20]);
    assert_eq!(again, vec![10, 20, 20]);
}

#[test]
fn new_session_returns_the_next_roster() {
    let mut p = setup(vec![1, 2], 10, 10, 10);
    for who in 11..=20u64 {
        register_funded(&mut p, who, 50);
    }
    for who in 11..=20u64 {
        for _ in 0..(who - 10) {
            p.note_author(who);
        }
    }
    let roster = p.new_session(2).unwrap();
    assert_eq!(
        roster,
        vec![1, 2, 12, 13, 14, 15, 16, 17, 18, 19, 20]
    );
    assert_eq!(p.candidates.len(), 9);
    assert_eq!(p.ledger.reserved_balance(11), 0);
}

#[test]
fn reset_collator_performance_clears_every_counter() {
    let mut p = setup(vec![], 5, 10, 10);
    p.note_author(3);
    p.note_author(4);
    p.reset_collator_performance();
    assert_eq!(p.tracker.blocks_of(3), 0);
    assert_eq!(p.tracker.blocks_of(4), 0);
    assert_eq!(p.tracker.entries.len(), 0);
}
