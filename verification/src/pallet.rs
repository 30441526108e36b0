//! The collator-selection state and its operations.
//!
//! [`Pallet`] carries the whole persisted state of the system: the
//! governance-set invulnerable producers, the bonded candidate registry in
//! first-come-first-served order, the configured capacity and bond, the
//! per-period performance tracker, the balance ledger and the notification
//! log. Every operation states exactly how it changes that state and which
//! error it returns on which input.

use vstd::prelude::*;

use crate::eviction::kick_threshold;
use crate::eviction::lemma_perf_leq_total;
use crate::eviction::lemma_permutation_unique_producers;
use crate::eviction::ordinal_rank;
use crate::eviction::perf_leq;
use crate::eviction::rank_by_performance;
use crate::eviction::spec_kick_threshold;
use crate::eviction::spec_ordinal_rank;
use crate::tracker::unique_producers;
use crate::identity::IdentityResolver;
use crate::identity::RegistrationCheck;
use crate::tracker::PerfRecord;
use crate::ledger::has_account;
use crate::ledger::index_of;
use crate::ledger::lemma_at_index;
use crate::ledger::lemma_reserved_total_update;
use crate::ledger::lemma_reserved_total_zero;
use crate::ledger::lemma_update_lookup;
use crate::ledger::reserved_in;
use crate::ledger::reserved_total_of;
use crate::ledger::unique_accounts;
use crate::ledger::BalanceRecord;
use crate::ledger::Ledger;
use crate::tracker::PerformanceTracker;
use crate::AccountId;
use crate::Balance;
use crate::BlockCount;
use crate::BlockNumber;
use crate::SessionIndex;

verus! {

/// Basic information about a collation candidate.
#[derive(Clone, Copy, PartialEq, Eq, Structural, Debug)]
pub struct CandidateInfo {
    /// Account identifier.
    pub who: AccountId,
    /// Reserved deposit.
    pub deposit: Balance,
}

/// Fixed parameters of the system, set once at genesis.
#[derive(Clone, Copy, PartialEq, Eq, Structural, Debug)]
pub struct Config {
    /// Advisory ceiling on the candidate count; exceeding it is tolerated.
    pub max_candidates: u32,
    /// Advisory ceiling on the invulnerable count; exceeding it is tolerated.
    pub max_invulnerables: u32,
    /// Percentile of the performance ranking consulted by the eviction pass.
    pub eviction_percentile: u8,
    /// How far below the percentile benchmark, in percent, a producer may
    /// fall before it is evicted.
    pub underperform_percent: u8,
    /// Identifier from which the pot account is derived.
    pub pot_id: u64,
}

impl Config {
    /// The genesis assertions on the parameters: the percentile names a
    /// rank, the underperformance bound is a percentage.
    pub open spec fn spec_valid(self) -> bool {
        self.eviction_percentile < 100 && self.underperform_percent <= 100
    }
}

/// Why an operation was refused.
#[derive(Clone, Copy, PartialEq, Eq, Structural, Debug)]
pub enum Error {
    /// The candidate registry is at its desired capacity.
    TooManyCandidates,
    /// Unknown error.
    Unknown,
    /// The caller lacks the privileged origin.
    Permission,
    /// The account is already a candidate.
    AlreadyCandidate,
    /// The account is not a candidate.
    NotCandidate,
    /// The account is already invulnerable.
    AlreadyInvulnerable,
    /// The account has no associated operating identity.
    NoAssociatedValidatorId,
    /// The operating identity is not registered.
    ValidatorNotRegistered,
    /// Invulnerable producers may not be removed.
    NotAllowRemoveInvulnerable,
    /// The account's free funds do not cover the candidacy bond.
    InsufficientBalance,
}

/// Notifications the system emits, newest last.
#[derive(Debug)]
pub enum Event {
    /// The invulnerable set was replaced.
    NewInvulnerables(Vec<AccountId>),
    /// The desired candidate count was changed.
    NewDesiredCandidates(u32),
    /// The candidacy bond was changed.
    NewCandidacyBond(Balance),
    /// A candidate registered, with the deposit it reserved.
    CandidateAdded(AccountId, Balance),
    /// A candidate left or was evicted.
    CandidateRemoved(AccountId),
}

/// Who asks for an operation: an ordinary signed account, or the
/// privileged configuration origin.
#[derive(Clone, Copy, PartialEq, Eq, Structural, Debug)]
pub enum Origin {
    /// A transaction signed by this account.
    Signed(AccountId),
    /// The privileged configuration origin.
    Privileged,
}

/// No account occurs in two candidate records of `s`.
pub open spec fn unique_candidates(s: Seq<CandidateInfo>) -> bool {
    forall|i: int, j: int|
        #![trigger s[i], s[j]]
        0 <= i < j < s.len() ==> s[i].who != s[j].who
}

/// There is a candidate record for `who` in `s`.
pub open spec fn has_candidate(s: Seq<CandidateInfo>, who: AccountId) -> bool {
    exists|i: int| 0 <= i < s.len() && (#[trigger] s[i]).who == who
}

/// Index of the candidate record for `who` (meaningful only when
/// `has_candidate`).
pub open spec fn candidate_index(s: Seq<CandidateInfo>, who: AccountId) -> int {
    choose|i: int| 0 <= i < s.len() && (#[trigger] s[i]).who == who
}

/// In a registry without duplicates, the record at index `i` is the one
/// that `candidate_index` finds for its account.
pub proof fn lemma_candidate_at_index(s: Seq<CandidateInfo>, i: int)
    requires
        unique_candidates(s),
        0 <= i < s.len(),
    ensures
        has_candidate(s, s[i].who),
        candidate_index(s, s[i].who) == i,
{
    let who = s[i].who;
    assert(0 <= i < s.len() && s[i].who == who);
    assert(has_candidate(s, who));
    let j = candidate_index(s, who);
    if j != i {
        assert(s[i].who != s[j].who);
        assert(false);
    }
}

/// How membership reads after a fresh candidate is appended.
pub proof fn lemma_candidate_push(s: Seq<CandidateInfo>, e: CandidateInfo)
    requires
        unique_candidates(s),
        !has_candidate(s, e.who),
    ensures
        unique_candidates(s.push(e)),
        has_candidate(s.push(e), e.who),
        forall|k: AccountId| k != e.who ==> #[trigger] has_candidate(s.push(e), k) == has_candidate(s, k),
{
    let t = s.push(e);
    let n = s.len() as int;
    assert forall|i: int, j: int|
        #![trigger t[i], t[j]]
        0 <= i < j < t.len() implies t[i].who != t[j].who by {
        if j < n {
            assert(s[i].who != s[j].who);
        } else {
            assert(t[i] == s[i]);
            if s[i].who == e.who {
                assert(has_candidate(s, e.who));
            }
        }
    }
    assert(t[n].who == e.who);
    assert(has_candidate(t, e.who));
    assert forall|k: AccountId|
        k != e.who implies #[trigger] has_candidate(t, k) == has_candidate(s, k) by {
        if has_candidate(s, k) {
            let m = candidate_index(s, k);
            assert(t[m].who == k);
            assert(has_candidate(t, k));
        }
        if has_candidate(t, k) {
            let m = candidate_index(t, k);
            assert(m != n);
            assert(s[m].who == k);
            assert(has_candidate(s, k));
        }
    }
}

/// How membership reads after the record at index `i` is removed.
pub proof fn lemma_candidate_remove(s: Seq<CandidateInfo>, i: int)
    requires
        unique_candidates(s),
        0 <= i < s.len(),
    ensures
        unique_candidates(s.remove(i)),
        !has_candidate(s.remove(i), s[i].who),
        forall|k: AccountId|
            k != s[i].who ==> #[trigger] has_candidate(s.remove(i), k) == has_candidate(s, k),
{
    let t = s.remove(i);
    assert forall|a: int, b: int|
        #![trigger t[a], t[b]]
        0 <= a < b < t.len() implies t[a].who != t[b].who by {
        let a0 = if a < i {
            a
        } else {
            a + 1
        };
        let b0 = if b < i {
            b
        } else {
            b + 1
        };
        assert(t[a] == s[a0]);
        assert(t[b] == s[b0]);
        assert(s[a0].who != s[b0].who);
    }
    if has_candidate(t, s[i].who) {
        let m = candidate_index(t, s[i].who);
        let m0 = if m < i {
            m
        } else {
            m + 1
        };
        assert(t[m] == s[m0]);
        assert(s[m0].who != s[i].who);
        assert(false);
    }
    assert forall|k: AccountId|
        k != s[i].who implies #[trigger] has_candidate(t, k) == has_candidate(s, k) by {
        if has_candidate(s, k) {
            let m = candidate_index(s, k);
            assert(m != i);
            if m < i {
                assert(t[m] == s[m]);
                assert(has_candidate(t, k));
            } else {
                assert(t[m - 1] == s[m]);
                assert(has_candidate(t, k));
            }
        }
        if has_candidate(t, k) {
            let m = candidate_index(t, k);
            let m0 = if m < i {
                m
            } else {
                m + 1
            };
            assert(t[m] == s[m0]);
            assert(has_candidate(s, k));
        }
    }
}

/// Whether `v` holds `who`.
fn contains_account(v: &Vec<AccountId>, who: AccountId) -> (b: bool)
    ensures
        b == v@.contains(who),
{
    let n = v.len();
    let mut i: usize = 0;
    while i < n
        invariant
            n == v@.len(),
            i <= n,
            forall|j: int| 0 <= j < i ==> v@[j] != who,
        decreases n - i,
    {
        if v[i] == who {
            assert(v@[i as int] == who);
            return true;
        }
        i += 1;
    }
    proof {
        if v@.contains(who) {
            let j = choose|j: int| 0 <= j < v@.len() && v@[j] == who;
            assert(false);
        }
    }
    false
}

/// A copy of an account list.
fn clone_accounts(v: &Vec<AccountId>) -> (c: Vec<AccountId>)
    ensures
        c@ == v@,
{
    let mut c: Vec<AccountId> = Vec::new();
    let n = v.len();
    let mut i: usize = 0;
    while i < n
        invariant
            n == v@.len(),
            i <= n,
            c@ == v@.subrange(0, i as int),
        decreases n - i,
    {
        c.push(v[i]);
        proof {
            assert(c@ =~= v@.subrange(0, i + 1 as int));
        }
        i += 1;
    }
    proof {
        assert(c@ =~= v@);
    }
    c
}

/// The genesis state: the initial invulnerable set, the bond every
/// registration will reserve, and the desired candidate capacity.
pub struct GenesisConfig {
    /// Initial invulnerable producers, in roster order.
    pub invulnerables: Vec<AccountId>,
    /// Initial candidacy bond.
    pub candidacy_bond: Balance,
    /// Initial desired candidate count.
    pub desired_candidates: u32,
}

impl Default for GenesisConfig {
    /// An empty genesis: no invulnerables, zero bond, zero capacity.
    fn default() -> (r: Self)
        ensures
            r.invulnerables@.len() == 0,
            r.candidacy_bond == 0,
            r.desired_candidates == 0,
    {
        GenesisConfig { invulnerables: Vec::new(), candidacy_bond: 0, desired_candidates: 0 }
    }
}

/// The genesis assertions: no duplicate invulnerables, both counts within
/// their configured ceilings, and valid eviction percentages. A genesis
/// state that violates them aborts initialization instead of starting a
/// chain on bad parameters.
pub open spec fn spec_genesis_valid(g: GenesisConfig, config: Config) -> bool {
    &&& forall|i: int, j: int|
        #![trigger g.invulnerables@[i], g.invulnerables@[j]]
        0 <= i < j < g.invulnerables@.len() ==> g.invulnerables@[i] != g.invulnerables@[j]
    &&& g.invulnerables@.len() <= config.max_invulnerables
    &&& g.desired_candidates <= config.max_candidates
    &&& config.spec_valid()
}

/// The whole state of the collator-selection system.
pub struct Pallet {
    /// Fixed parameters.
    pub config: Config,
    /// The invulnerable, fixed producers, in roster order.
    pub invulnerables: Vec<AccountId>,
    /// The bonded candidates, in registration order.
    pub candidates: Vec<CandidateInfo>,
    /// Desired number of candidates; registration stops at this count.
    pub desired_candidates: u32,
    /// Deposit reserved by each new registration.
    pub candidacy_bond: Balance,
    /// Blocks authored per producer this period.
    pub tracker: PerformanceTracker,
    /// The balance ledger holding free funds, bonds and the pot.
    pub ledger: Ledger,
    /// Notifications emitted so far, oldest first.
    pub events: Vec<Event>,
}

impl Pallet {
    /// `who` is a registered candidate.
    pub open spec fn spec_is_candidate(self, who: AccountId) -> bool {
        has_candidate(self.candidates@, who)
    }

    /// The deposit recorded for candidate `who`; zero for a non-candidate.
    pub open spec fn spec_deposit_of(self, who: AccountId) -> Balance {
        if has_candidate(self.candidates@, who) {
            self.candidates@[candidate_index(self.candidates@, who)].deposit
        } else {
            0
        }
    }

    /// Well-formedness, the state invariant every operation preserves:
    /// valid parameters; no duplicate candidates; no account both
    /// invulnerable and candidate; every candidate's recorded deposit is
    /// exactly the funds reserved for it, and only candidates have
    /// reserved funds; and the tracker and ledger are themselves sound.
    pub open spec fn wf(self) -> bool {
        &&& self.config.spec_valid()
        &&& unique_candidates(self.candidates@)
        &&& self.tracker.wf()
        &&& self.ledger.wf()
        &&& forall|i: int|
            0 <= i < self.candidates@.len() ==> !self.invulnerables@.contains(
                (#[trigger] self.candidates@[i]).who,
            )
        &&& forall|i: int|
            0 <= i < self.candidates@.len() ==> self.ledger.spec_reserved_of(
                (#[trigger] self.candidates@[i]).who,
            ) == self.candidates@[i].deposit
        &&& forall|k: AccountId|
            #[trigger] self.ledger.spec_reserved_of(k) != 0 ==> has_candidate(self.candidates@, k)
    }

    /// The account of the reward pot, derived from the configured
    /// identifier.
    pub fn account_id(&self) -> (r: AccountId)
        ensures
            r == self.config.pot_id,
    {
        self.config.pot_id
    }

    /// The invulnerable producers, in roster order.
    pub fn invulnerables(&self) -> (r: &Vec<AccountId>)
        ensures
            r@ == self.invulnerables@,
    {
        &self.invulnerables
    }

    /// The registered candidates, in registration order.
    pub fn candidates(&self) -> (r: &Vec<CandidateInfo>)
        ensures
            r@ == self.candidates@,
    {
        &self.candidates
    }

    /// The desired candidate count.
    pub fn desired_candidates(&self) -> (r: u32)
        ensures
            r == self.desired_candidates,
    {
        self.desired_candidates
    }

    /// The bond a new registration reserves.
    pub fn candidacy_bond(&self) -> (r: Balance)
        ensures
            r == self.candidacy_bond,
    {
        self.candidacy_bond
    }

    /// Index of the candidate record for `who`, if there is one.
    fn find_candidate(&self, who: AccountId) -> (r: Option<usize>)
        requires
            unique_candidates(self.candidates@),
        ensures
            match r {
                Some(i) => self.spec_is_candidate(who) && i < self.candidates@.len() && i as int
                    == candidate_index(self.candidates@, who) && self.candidates@[i as int].who
                    == who,
                None => !self.spec_is_candidate(who),
            },
    {
        let n = self.candidates.len();
        let mut i: usize = 0;
        while i < n
            invariant
                unique_candidates(self.candidates@),
                n == self.candidates@.len(),
                i <= n,
                forall|j: int| 0 <= j < i ==> (#[trigger] self.candidates@[j]).who != who,
            decreases n - i,
        {
            if self.candidates[i].who == who {
                proof {
                    lemma_candidate_at_index(self.candidates@, i as int);
                }
                return Some(i);
            }
            i += 1;
        }
        proof {
            if has_candidate(self.candidates@, who) {
                let m = candidate_index(self.candidates@, who);
                assert(self.candidates@[m].who == who);
                assert(false);
            }
        }
        None
    }
}

impl GenesisConfig {
    /// Whether this genesis state passes the genesis assertions under
    /// `config`.
    pub fn is_valid(&self, config: &Config) -> (b: bool)
        ensures
            b == spec_genesis_valid(*self, *config),
    {
        let n = self.invulnerables.len();
        let mut i: usize = 0;
        while i < n
            invariant
                n == self.invulnerables@.len(),
                i <= n,
                forall|p: int, q: int|
                    #![trigger self.invulnerables@[p], self.invulnerables@[q]]
                    0 <= p < q < n && p < i ==> self.invulnerables@[p] != self.invulnerables@[q],
            decreases n - i,
        {
            let mut j = i + 1;
            while j < n
                invariant
                    n == self.invulnerables@.len(),
                    i < j <= n || (i + 1 == j && j <= n),
                    i < n,
                    forall|q: int| i < q < j ==> self.invulnerables@[i as int] != #[trigger] self.invulnerables@[q],
                decreases n - j,
            {
                if self.invulnerables[i] == self.invulnerables[j] {
                    return false;
                }
                j += 1;
            }
            i += 1;
        }
        if !(self.invulnerables.len() <= config.max_invulnerables as usize) {
            return false;
        }
        if !(self.desired_candidates <= config.max_candidates) {
            return false;
        }
        if !(config.eviction_percentile < 100) {
            return false;
        }
        if !(config.underperform_percent <= 100) {
            return false;
        }
        true
    }

    /// Build the initial state: parameters stored, registry empty, tracker
    /// empty, an empty ledger with the given existential minimum, and no
    /// notifications yet. The genesis assertions are demanded up front;
    /// initialization never proceeds past a violated one.
    pub fn build(&self, config: Config, minimum_balance: Balance) -> (p: Pallet)
        requires
            spec_genesis_valid(*self, config),
        ensures
            p.wf(),
            p.config == config,
            p.invulnerables@ == self.invulnerables@,
            p.candidates@.len() == 0,
            p.desired_candidates == self.desired_candidates,
            p.candidacy_bond == self.candidacy_bond,
            p.tracker.entries@.len() == 0,
            p.ledger.minimum == minimum_balance,
            p.ledger.spec_total() == 0,
            forall|k: AccountId| !p.ledger.spec_has(k),
            p.events@.len() == 0,
    {
        let p = Pallet {
            config,
            invulnerables: clone_accounts(&self.invulnerables),
            candidates: Vec::new(),
            desired_candidates: self.desired_candidates,
            candidacy_bond: self.candidacy_bond,
            tracker: PerformanceTracker::new(),
            ledger: Ledger::new(minimum_balance),
            events: Vec::new(),
        };
        proof {
            assert forall|k: AccountId| #[trigger] p.ledger.spec_reserved_of(k) == 0 by {
                assert(!p.ledger.spec_has(k));
            }
        }
        p
    }
}

/// The error registration answers for `who` in state `s` under the given
/// identity collaborators; `None` means registration succeeds. The checks
/// run in this order: duplicate candidacy — an account that is already a
/// candidate is refused as such at any capacity — then capacity,
/// invulnerability, identity resolution, identity registration, and bond
/// funding.
pub open spec fn spec_register_error<R: IdentityResolver, C: RegistrationCheck>(
    s: Pallet,
    who: AccountId,
    resolver: R,
    check: C,
) -> Option<Error> {
    if has_candidate(s.candidates@, who) {
        Some(Error::AlreadyCandidate)
    } else if s.candidates@.len() >= s.desired_candidates {
        Some(Error::TooManyCandidates)
    } else if s.invulnerables@.contains(who) {
        Some(Error::AlreadyInvulnerable)
    } else {
        match resolver.spec_resolve(who) {
            Option::None => Some(Error::NoAssociatedValidatorId),
            Option::Some(id) => if !check.spec_is_registered(id) {
                Some(Error::ValidatorNotRegistered)
            } else if s.ledger.spec_free_of(who) < s.candidacy_bond {
                Some(Error::InsufficientBalance)
            } else {
                None
            },
        }
    }
}

/// How a successful registration of `who` turns `pre` into `post`: the
/// candidate is appended with the bond in effect as its deposit, exactly
/// that amount moves from its free funds into reserve, a notification is
/// emitted, and nothing else changes.
pub open spec fn spec_registered(pre: Pallet, post: Pallet, who: AccountId) -> bool {
    &&& post.candidates@ == pre.candidates@.push(
        CandidateInfo { who, deposit: pre.candidacy_bond },
    )
    &&& post.events@ == pre.events@.push(Event::CandidateAdded(who, pre.candidacy_bond))
    &&& post.ledger.spec_free_of(who) == pre.ledger.spec_free_of(who) - pre.candidacy_bond
    &&& post.ledger.spec_reserved_of(who) == pre.candidacy_bond
    &&& forall|k: AccountId|
        k != who ==> #[trigger] post.ledger.spec_free_of(k) == pre.ledger.spec_free_of(k)
    &&& forall|k: AccountId|
        k != who ==> #[trigger] post.ledger.spec_reserved_of(k) == pre.ledger.spec_reserved_of(k)
    &&& post.ledger.spec_total() == pre.ledger.spec_total()
    &&& post.ledger.minimum == pre.ledger.minimum
    &&& post.tracker == pre.tracker
    &&& post.invulnerables == pre.invulnerables
    &&& post.desired_candidates == pre.desired_candidates
    &&& post.candidacy_bond == pre.candidacy_bond
    &&& post.config == pre.config
}

/// How removing candidate `who` turns `pre` into `post`: for a
/// non-candidate the call fails with `NotCandidate` and changes nothing;
/// for a candidate, its record leaves the registry, exactly its recorded
/// deposit returns from reserve to its free funds, its performance counter
/// is cleared, a notification is emitted, and nothing else changes.
pub open spec fn spec_removal(pre: Pallet, post: Pallet, who: AccountId, r: Result<
    usize,
    Error,
>) -> bool {
    if !has_candidate(pre.candidates@, who) {
        r == Err::<usize, Error>(Error::NotCandidate) && post == pre
    } else {
        let i = candidate_index(pre.candidates@, who);
        let dep = pre.candidates@[i].deposit;
        &&& r == Ok::<usize, Error>((pre.candidates@.len() - 1) as usize)
        &&& post.candidates@ == pre.candidates@.remove(i)
        &&& post.ledger.spec_reserved_of(who) == 0
        &&& post.ledger.spec_free_of(who) == pre.ledger.spec_free_of(who) + dep
        &&& forall|k: AccountId|
            k != who ==> #[trigger] post.ledger.spec_free_of(k) == pre.ledger.spec_free_of(k)
        &&& forall|k: AccountId|
            k != who ==> #[trigger] post.ledger.spec_reserved_of(k) == pre.ledger.spec_reserved_of(
                k,
            )
        &&& post.ledger.spec_total() == pre.ledger.spec_total()
        &&& post.ledger.minimum == pre.ledger.minimum
        &&& !post.tracker.spec_has(who)
        &&& post.tracker.spec_blocks_of(who) == 0
        &&& forall|k: AccountId|
            k != who ==> #[trigger] post.tracker.spec_blocks_of(k) == pre.tracker.spec_blocks_of(k)
        &&& forall|k: AccountId|
            k != who ==> #[trigger] post.tracker.spec_has(k) == pre.tracker.spec_has(k)
        &&& post.events@ == pre.events@.push(Event::CandidateRemoved(who))
        &&& post.invulnerables == pre.invulnerables
        &&& post.desired_candidates == pre.desired_candidates
        &&& post.candidacy_bond == pre.candidacy_bond
        &&& post.config == pre.config
    }
}

impl Pallet {
    /// Replace the invulnerable set. Requires the privileged origin and
    /// otherwise always succeeds; the caller answers for keeping the new
    /// set disjoint from the current candidates, as genesis and
    /// registration do.
    pub fn set_invulnerables(&mut self, origin: Origin, new: Vec<AccountId>) -> (r: Result<
        (),
        Error,
    >)
        requires
            old(self).wf(),
        ensures
            origin != Origin::Privileged ==> r == Err::<(), Error>(Error::Permission) && *final(self)
                == *old(self),
            origin == Origin::Privileged ==> ({
                &&& r == Ok::<(), Error>(())
                &&& final(self).invulnerables@ == new@
                &&& final(self).events@ == old(self).events@.push(Event::NewInvulnerables(new))
                &&& final(self).candidates == old(self).candidates
                &&& final(self).ledger == old(self).ledger
                &&& final(self).tracker == old(self).tracker
                &&& final(self).config == old(self).config
                &&& final(self).desired_candidates == old(self).desired_candidates
                &&& final(self).candidacy_bond == old(self).candidacy_bond
            }),
            (origin == Origin::Privileged && (forall|i: int|
                0 <= i < old(self).candidates@.len() ==> !new@.contains(
                    (#[trigger] old(self).candidates@[i]).who,
                ))) ==> final(self).wf(),
            origin != Origin::Privileged ==> final(self).wf(),
    {
        match origin {
            Origin::Privileged => {
                self.invulnerables = clone_accounts(&new);
                self.events.push(Event::NewInvulnerables(new));
                Ok(())
            },
            _ => Err(Error::Permission),
        }
    }

    /// Set the desired candidate count. Requires the privileged origin;
    /// lowering it below the current count evicts nobody, it only stops
    /// further registration.
    pub fn set_desired_candidates(&mut self, origin: Origin, max: u32) -> (r: Result<(), Error>)
        requires
            old(self).wf(),
        ensures
            final(self).wf(),
            origin != Origin::Privileged ==> r == Err::<(), Error>(Error::Permission) && *final(self)
                == *old(self),
            origin == Origin::Privileged ==> ({
                &&& r == Ok::<(), Error>(())
                &&& final(self).desired_candidates == max
                &&& final(self).events@ == old(self).events@.push(Event::NewDesiredCandidates(max))
                &&& final(self).candidates == old(self).candidates
                &&& final(self).invulnerables == old(self).invulnerables
                &&& final(self).ledger == old(self).ledger
                &&& final(self).tracker == old(self).tracker
                &&& final(self).config == old(self).config
                &&& final(self).candidacy_bond == old(self).candidacy_bond
            }),
    {
        match origin {
            Origin::Privileged => {
                self.desired_candidates = max;
                self.events.push(Event::NewDesiredCandidates(max));
                Ok(())
            },
            _ => Err(Error::Permission),
        }
    }

    /// Set the candidacy bond for future registrations. Requires the
    /// privileged origin; deposits already reserved keep their old amount.
    pub fn set_candidacy_bond(&mut self, origin: Origin, bond: Balance) -> (r: Result<(), Error>)
        requires
            old(self).wf(),
        ensures
            final(self).wf(),
            origin != Origin::Privileged ==> r == Err::<(), Error>(Error::Permission) && *final(self)
                == *old(self),
            origin == Origin::Privileged ==> ({
                &&& r == Ok::<(), Error>(())
                &&& final(self).candidacy_bond == bond
                &&& final(self).events@ == old(self).events@.push(Event::NewCandidacyBond(bond))
                &&& final(self).candidates == old(self).candidates
                &&& final(self).invulnerables == old(self).invulnerables
                &&& final(self).ledger == old(self).ledger
                &&& final(self).tracker == old(self).tracker
                &&& final(self).config == old(self).config
                &&& final(self).desired_candidates == old(self).desired_candidates
            }),
    {
        match origin {
            Origin::Privileged => {
                self.candidacy_bond = bond;
                self.events.push(Event::NewCandidacyBond(bond));
                Ok(())
            },
            _ => Err(Error::Permission),
        }
    }

    /// The shared registration path: run the checks in order, reserve the
    /// bond and append the candidate.
    fn do_register<R: IdentityResolver, C: RegistrationCheck>(
        &mut self,
        who: AccountId,
        resolver: &R,
        check: &C,
    ) -> (r: Result<usize, Error>)
        requires
            old(self).wf(),
        ensures
            final(self).wf(),
            match spec_register_error(*old(self), who, *resolver, *check) {
                Some(e) => r == Err::<usize, Error>(e) && *final(self) == *old(self),
                None => r == Ok::<usize, Error>((old(self).candidates@.len() + 1) as usize)
                    && spec_registered(*old(self), *final(self), who),
            },
    {
        match self.find_candidate(who) {
            Some(_) => {
                return Err(Error::AlreadyCandidate);
            },
            None => {},
        }
        if self.candidates.len() >= self.desired_candidates as usize {
            return Err(Error::TooManyCandidates);
        }
        if contains_account(&self.invulnerables, who) {
            return Err(Error::AlreadyInvulnerable);
        }
        let id = match resolver.resolve(&who) {
            Option::None => {
                return Err(Error::NoAssociatedValidatorId);
            },
            Option::Some(id) => id,
        };
        if !check.is_registered(&id) {
            return Err(Error::ValidatorNotRegistered);
        }
        let deposit = self.candidacy_bond;
        proof {
            if old(self).ledger.spec_reserved_of(who) != 0 {
                assert(has_candidate(old(self).candidates@, who));
                assert(false);
            }
        }
        let ok = self.ledger.reserve(who, deposit);
        if !ok {
            return Err(Error::InsufficientBalance);
        }
        let info = CandidateInfo { who, deposit };
        proof {
            lemma_candidate_push(self.candidates@, info);
        }
        self.candidates.push(info);
        self.events.push(Event::CandidateAdded(who, deposit));
        proof {
            let pre = *old(self);
            assert forall|i: int|
                0 <= i < self.candidates@.len() implies !self.invulnerables@.contains(
                (#[trigger] self.candidates@[i]).who,
            ) by {
                if i < pre.candidates@.len() {
                    assert(self.candidates@[i] == pre.candidates@[i]);
                } else {
                    assert(self.candidates@[i].who == who);
                }
            }
            assert forall|i: int|
                0 <= i < self.candidates@.len() implies self.ledger.spec_reserved_of(
                (#[trigger] self.candidates@[i]).who,
            ) == self.candidates@[i].deposit by {
                if i < pre.candidates@.len() {
                    assert(self.candidates@[i] == pre.candidates@[i]);
                    lemma_candidate_at_index(pre.candidates@, i);
                    assert(pre.candidates@[i].who != who);
                } else {
                    assert(self.candidates@[i] == info);
                }
            }
            assert forall|k: AccountId|
                #[trigger] self.ledger.spec_reserved_of(k) != 0 implies has_candidate(
                self.candidates@,
                k,
            ) by {
                if k != who {
                    assert(pre.ledger.spec_reserved_of(k) != 0);
                    assert(has_candidate(pre.candidates@, k));
                }
            }
        }
        Ok(self.candidates.len())
    }

    /// Register the signed caller as a candidate, reserving the current
    /// bond from its free funds.
    pub fn register_as_candidate<R: IdentityResolver, C: RegistrationCheck>(
        &mut self,
        who: AccountId,
        resolver: &R,
        check: &C,
    ) -> (r: Result<usize, Error>)
        requires
            old(self).wf(),
        ensures
            final(self).wf(),
            match spec_register_error(*old(self), who, *resolver, *check) {
                Some(e) => r == Err::<usize, Error>(e) && *final(self) == *old(self),
                None => r == Ok::<usize, Error>((old(self).candidates@.len() + 1) as usize)
                    && spec_registered(*old(self), *final(self), who),
            },
    {
        self.do_register(who, resolver, check)
    }

    /// Register an arbitrary account as a candidate. Requires the
    /// privileged origin; the same checks and effects as self-service
    /// registration, with the bond reserved from the target's funds.
    pub fn register_candidate<R: IdentityResolver, C: RegistrationCheck>(
        &mut self,
        origin: Origin,
        new_candidate: AccountId,
        resolver: &R,
        check: &C,
    ) -> (r: Result<usize, Error>)
        requires
            old(self).wf(),
        ensures
            final(self).wf(),
            origin != Origin::Privileged ==> r == Err::<usize, Error>(Error::Permission)
                && *final(self) == *old(self),
            origin == Origin::Privileged ==> match spec_register_error(
                *old(self),
                new_candidate,
                *resolver,
                *check,
            ) {
                Some(e) => r == Err::<usize, Error>(e) && *final(self) == *old(self),
                None => r == Ok::<usize, Error>((old(self).candidates@.len() + 1) as usize)
                    && spec_registered(*old(self), *final(self), new_candidate),
            },
    {
        match origin {
            Origin::Privileged => self.do_register(new_candidate, resolver, check),
            _ => Err(Error::Permission),
        }
    }

    /// Remove `who` from the registry if it is a candidate, releasing its
    /// deposit and clearing its performance counter; a non-candidate is
    /// refused without any state change.
    fn try_remove_candidate(&mut self, who: AccountId) -> (r: Result<usize, Error>)
        requires
            old(self).wf(),
        ensures
            final(self).wf(),
            spec_removal(*old(self), *final(self), who, r),
    {
        match self.find_candidate(who) {
            None => Err(Error::NotCandidate),
            Some(i) => {
                let dep = self.candidates[i].deposit;
                proof {
                    lemma_candidate_remove(self.candidates@, i as int);
                }
                let _remaining = self.ledger.unreserve(who, dep);
                self.candidates.remove(i);
                self.tracker.remove(who);
                self.events.push(Event::CandidateRemoved(who));
                proof {
                    let pre = *old(self);
                    let pc = pre.candidates@;
                    let ii = candidate_index(pc, who);
                    assert forall|m: int|
                        0 <= m < self.candidates@.len() implies !self.invulnerables@.contains(
                        (#[trigger] self.candidates@[m]).who,
                    ) && self.ledger.spec_reserved_of(self.candidates@[m].who)
                        == self.candidates@[m].deposit by {
                        let m0 = if m < ii {
                            m
                        } else {
                            m + 1
                        };
                        assert(self.candidates@[m] == pc[m0]);
                        assert(pc[m0].who != pc[ii].who);
                    }
                    assert forall|k: AccountId|
                        #[trigger] self.ledger.spec_reserved_of(k) != 0 implies has_candidate(
                        self.candidates@,
                        k,
                    ) by {
                        if k != who {
                            assert(pre.ledger.spec_reserved_of(k) != 0);
                            assert(has_candidate(pc, k));
                        }
                    }
                }
                Ok(self.candidates.len())
            },
        }
    }

    /// Leave the candidate set: self-service exit for the signed caller,
    /// always permitted for the caller's own account.
    pub fn leave_intent(&mut self, who: AccountId) -> (r: Result<usize, Error>)
        requires
            old(self).wf(),
        ensures
            final(self).wf(),
            spec_removal(*old(self), *final(self), who, r),
    {
        self.try_remove_candidate(who)
    }

    /// Remove a given collator. Requires the privileged origin and refuses
    /// to touch an invulnerable; otherwise it removes like self-service
    /// exit.
    pub fn remove_collator(&mut self, origin: Origin, collator: AccountId) -> (r: Result<
        usize,
        Error,
    >)
        requires
            old(self).wf(),
        ensures
            final(self).wf(),
            origin != Origin::Privileged ==> r == Err::<usize, Error>(Error::Permission)
                && *final(self) == *old(self),
            (origin == Origin::Privileged && old(self).invulnerables@.contains(collator)) ==> r
                == Err::<usize, Error>(Error::NotAllowRemoveInvulnerable) && *final(self)
                == *old(self),
            (origin == Origin::Privileged && !old(self).invulnerables@.contains(collator))
                ==> spec_removal(*old(self), *final(self), collator, r),
    {
        match origin {
            Origin::Privileged => {
                if contains_account(&self.invulnerables, collator) {
                    return Err(Error::NotAllowRemoveInvulnerable);
                }
                self.try_remove_candidate(collator)
            },
            _ => Err(Error::Permission),
        }
    }

    /// Assemble the next producer roster: the invulnerables in their
    /// configured order, then the given candidate accounts in registry
    /// order, concatenated without deduplication.
    pub fn assemble_collators(&self, candidates: Vec<AccountId>) -> (r: Vec<AccountId>)
        ensures
            r@ == self.invulnerables@ + candidates@,
    {
        let mut out = clone_accounts(&self.invulnerables);
        let n = candidates.len();
        let mut i: usize = 0;
        proof {
            assert(out@ =~= self.invulnerables@ + candidates@.subrange(0, 0));
        }
        while i < n
            invariant
                n == candidates@.len(),
                i <= n,
                out@ == self.invulnerables@ + candidates@.subrange(0, i as int),
            decreases n - i,
        {
            out.push(candidates[i]);
            proof {
                assert(out@ =~= self.invulnerables@ + candidates@.subrange(0, i + 1 as int));
            }
            i += 1;
        }
        proof {
            assert(out@ =~= self.invulnerables@ + candidates@);
        }
        out
    }
}

/// The reward an authored block earns: half of what the pot holds above
/// the existential minimum, rounded down; nothing when the pot is at or
/// below the minimum.
pub open spec fn spec_block_reward(pot_free: Balance, minimum: Balance) -> int {
    if pot_free >= minimum {
        (pot_free - minimum) / 2
    } else {
        0
    }
}

impl Pallet {
    /// Compute the reward a block author receives from a pot holding
    /// `pot_free` under existential minimum `minimum`.
    pub fn block_reward(pot_free: Balance, minimum: Balance) -> (r: Balance)
        ensures
            r == spec_block_reward(pot_free, minimum),
    {
        if pot_free >= minimum {
            (pot_free - minimum) / 2
        } else {
            0
        }
    }

    /// Account one authored block for `author`: pay the reward from the
    /// pot (a transfer that provably never fails) and increment the
    /// author's performance counter, saturating instead of overflowing.
    pub fn note_author(&mut self, author: AccountId)
        requires
            old(self).wf(),
        ensures
            final(self).wf(),
            ({
                let pot = old(self).config.pot_id;
                let reward = spec_block_reward(
                    old(self).ledger.spec_free_of(pot),
                    old(self).ledger.minimum,
                );
                &&& (author != pot ==> final(self).ledger.spec_free_of(pot) == old(
                    self,
                ).ledger.spec_free_of(pot) - reward && final(self).ledger.spec_free_of(author)
                    == old(self).ledger.spec_free_of(author) + reward)
                &&& (author == pot ==> forall|k: AccountId| #[trigger]
                    final(self).ledger.spec_free_of(k) == old(self).ledger.spec_free_of(k))
                &&& forall|k: AccountId|
                    k != pot && k != author ==> #[trigger] final(self).ledger.spec_free_of(k)
                        == old(self).ledger.spec_free_of(k)
            }),
            forall|k: AccountId|
                #[trigger] final(self).ledger.spec_reserved_of(k) == old(
                    self,
                ).ledger.spec_reserved_of(k),
            final(self).ledger.spec_total() == old(self).ledger.spec_total(),
            final(self).ledger.minimum == old(self).ledger.minimum,
            final(self).tracker.spec_has(author),
            final(self).tracker.spec_blocks_of(author) == (if old(self).tracker.spec_blocks_of(
                author,
            ) == BlockCount::MAX {
                BlockCount::MAX as int
            } else {
                old(self).tracker.spec_blocks_of(author) + 1
            }),
            forall|k: AccountId|
                k != author ==> #[trigger] final(self).tracker.spec_blocks_of(k) == old(
                    self,
                ).tracker.spec_blocks_of(k),
            forall|k: AccountId|
                k != author ==> #[trigger] final(self).tracker.spec_has(k) == old(
                    self,
                ).tracker.spec_has(k),
            final(self).candidates == old(self).candidates,
            final(self).invulnerables == old(self).invulnerables,
            final(self).events == old(self).events,
            final(self).desired_candidates == old(self).desired_candidates,
            final(self).candidacy_bond == old(self).candidacy_bond,
            final(self).config == old(self).config,
    {
        let pot = self.config.pot_id;
        let pot_free = self.ledger.free_balance(pot);
        let minimum = self.ledger.minimum;
        let reward = Self::block_reward(pot_free, minimum);
        let ok = self.ledger.transfer_keep_alive(pot, author, reward);
        proof {
            assert(ok);
        }
        self.tracker.record_block(author);
        proof {
            let pre = *old(self);
            assert forall|i: int|
                0 <= i < self.candidates@.len() implies self.ledger.spec_reserved_of(
                (#[trigger] self.candidates@[i]).who,
            ) == self.candidates@[i].deposit by {
                assert(pre.ledger.spec_reserved_of(pre.candidates@[i].who)
                    == pre.candidates@[i].deposit);
            }
            assert forall|k: AccountId|
                #[trigger] self.ledger.spec_reserved_of(k) != 0 implies has_candidate(
                self.candidates@,
                k,
            ) by {
                assert(pre.ledger.spec_reserved_of(k) != 0);
            }
        }
    }

    /// An uncle notification: deliberately nothing, a round-robin producer
    /// model has no uncles.
    pub fn note_uncle(&mut self, _author: AccountId, _age: BlockNumber)
        ensures
            *final(self) == *old(self),
    {
    }

    /// Clear the performance counters for a fresh period.
    pub fn reset_collator_performance(&mut self)
        requires
            old(self).wf(),
        ensures
            final(self).wf(),
            final(self).tracker.entries@.len() == 0,
            forall|k: AccountId| !final(self).tracker.spec_has(k),
            forall|k: AccountId| #[trigger] final(self).tracker.spec_blocks_of(k) == 0,
            final(self).candidates == old(self).candidates,
            final(self).invulnerables == old(self).invulnerables,
            final(self).ledger == old(self).ledger,
            final(self).events == old(self).events,
            final(self).desired_candidates == old(self).desired_candidates,
            final(self).candidacy_bond == old(self).candidacy_bond,
            final(self).config == old(self).config,
    {
        self.tracker.reset();
    }

    /// Period start: reset the performance accounting.
    pub fn start_session(&mut self, _index: SessionIndex)
        requires
            old(self).wf(),
        ensures
            final(self).wf(),
            final(self).tracker.entries@.len() == 0,
            forall|k: AccountId| !final(self).tracker.spec_has(k),
            forall|k: AccountId| #[trigger] final(self).tracker.spec_blocks_of(k) == 0,
            final(self).candidates == old(self).candidates,
            final(self).invulnerables == old(self).invulnerables,
            final(self).ledger == old(self).ledger,
            final(self).events == old(self).events,
            final(self).desired_candidates == old(self).desired_candidates,
            final(self).candidacy_bond == old(self).candidacy_bond,
            final(self).config == old(self).config,
    {
        self.reset_collator_performance();
    }

    /// Period end: deliberately nothing, reserved for future extension.
    pub fn end_session(&mut self, _index: SessionIndex)
        ensures
            *final(self) == *old(self),
    {
    }
}

/// Accounts of performance records, in order.
pub open spec fn whos_of(s: Seq<PerfRecord>) -> Seq<AccountId> {
    s.map_values(|e: PerfRecord| e.who)
}

/// Accounts of candidate records, in order.
pub open spec fn whos_of_candidates(s: Seq<CandidateInfo>) -> Seq<AccountId> {
    s.map_values(|c: CandidateInfo| c.who)
}

/// The candidate records of `s` whose accounts are not named in
/// `removed`, in registry order.
pub open spec fn survivors(s: Seq<CandidateInfo>, removed: Seq<AccountId>) -> Seq<CandidateInfo> {
    s.filter(|c: CandidateInfo| !removed.contains(c.who))
}

/// The removal notifications for `accounts`, in order.
pub open spec fn removal_events(accounts: Seq<AccountId>) -> Seq<Event> {
    accounts.map_values(|a: AccountId| Event::CandidateRemoved(a))
}

/// Removing nobody keeps every candidate.
proof fn lemma_survivors_none(s: Seq<CandidateInfo>)
    ensures
        survivors(s, Seq::<AccountId>::empty()) == s,
    decreases s.len(),
{
    reveal(Seq::filter);
    if s.len() == 0 {
        assert(survivors(s, Seq::<AccountId>::empty()) =~= s);
    } else {
        lemma_survivors_none(s.drop_last());
        assert(survivors(s, Seq::<AccountId>::empty()) =~= s);
    }
}

/// Membership among the survivors: an account is kept exactly when it is
/// a candidate and not removed.
proof fn lemma_survivors_membership(s: Seq<CandidateInfo>, removed: Seq<AccountId>)
    ensures
        forall|k: AccountId|
            #[trigger] has_candidate(survivors(s, removed), k) == (has_candidate(s, k)
                && !removed.contains(k)),
    decreases s.len(),
{
    reveal(Seq::filter);
    if s.len() == 0 {
        assert forall|k: AccountId|
            #[trigger] has_candidate(survivors(s, removed), k) == (has_candidate(s, k)
                && !removed.contains(k)) by {
            if has_candidate(survivors(s, removed), k) {
                let m = candidate_index(survivors(s, removed), k);
            }
            if has_candidate(s, k) {
                let m = candidate_index(s, k);
            }
        }
    } else {
        lemma_survivors_membership(s.drop_last(), removed);
        let s0 = s.drop_last();
        let c = s.last();
        let t0 = survivors(s0, removed);
        let t = survivors(s, removed);
        assert forall|k: AccountId|
            #[trigger] has_candidate(t, k) == (has_candidate(s, k) && !removed.contains(k)) by {
            if !removed.contains(c.who) {
                assert(t == t0.push(c));
                if has_candidate(t, k) {
                    let m = candidate_index(t, k);
                    if m < t0.len() {
                        assert(t[m] == t0[m]);
                        assert(has_candidate(t0, k));
                        let n = candidate_index(s0, k);
                        assert(s[n] == s0[n]);
                        assert(has_candidate(s, k));
                    } else {
                        assert(t[m] == c);
                        assert(s[s.len() - 1] == c);
                        assert(has_candidate(s, k));
                    }
                }
                if has_candidate(s, k) && !removed.contains(k) {
                    let m = candidate_index(s, k);
                    if m < s0.len() {
                        assert(s0[m] == s[m]);
                        assert(has_candidate(s0, k));
                        assert(has_candidate(t0, k));
                        let n = candidate_index(t0, k);
                        assert(t[n] == t0[n]);
                        assert(has_candidate(t, k));
                    } else {
                        assert(s[m] == c);
                        assert(t[t.len() - 1] == c);
                        assert(has_candidate(t, k));
                    }
                }
            } else {
                assert(t == t0);
                if has_candidate(t, k) {
                    assert(has_candidate(s0, k) && !removed.contains(k));
                    let n = candidate_index(s0, k);
                    assert(s[n] == s0[n]);
                    assert(has_candidate(s, k));
                }
                if has_candidate(s, k) && !removed.contains(k) {
                    let m = candidate_index(s, k);
                    if m < s0.len() {
                        assert(s0[m] == s[m]);
                        assert(has_candidate(s0, k));
                    } else {
                        assert(s[m] == c);
                        assert(removed.contains(k));
                        assert(false);
                    }
                }
            }
        }
    }
}

/// Filtering a registry without duplicate accounts leaves no duplicates.
proof fn lemma_survivors_unique(s: Seq<CandidateInfo>, removed: Seq<AccountId>)
    requires
        unique_candidates(s),
    ensures
        unique_candidates(survivors(s, removed)),
    decreases s.len(),
{
    reveal(Seq::filter);
    if s.len() > 0 {
        let s0 = s.drop_last();
        let c = s.last();
        assert forall|i: int, j: int|
            #![trigger s0[i], s0[j]]
            0 <= i < j < s0.len() implies s0[i].who != s0[j].who by {
            assert(s0[i] == s[i]);
            assert(s0[j] == s[j]);
        }
        lemma_survivors_unique(s0, removed);
        let t0 = survivors(s0, removed);
        let t = survivors(s, removed);
        if !removed.contains(c.who) {
            assert(t == t0.push(c));
            lemma_survivors_membership(s0, removed);
            if has_candidate(t0, c.who) {
                assert(has_candidate(s0, c.who));
                let m = candidate_index(s0, c.who);
                assert(s[m] == s0[m]);
                assert(s[m].who == s[s.len() - 1].who);
                assert(false);
            }
            assert forall|i: int, j: int|
                #![trigger t[i], t[j]]
                0 <= i < j < t.len() implies t[i].who != t[j].who by {
                if j < t0.len() {
                    assert(t[i] == t0[i]);
                    assert(t[j] == t0[j]);
                } else {
                    assert(t[j] == c);
                    assert(t[i] == t0[i]);
                    if t0[i].who == c.who {
                        assert(has_candidate(t0, c.who));
                    }
                }
            }
        }
    }
}

/// What one more removed account does to the survivors: for a candidate,
/// exactly its record drops out of the filtered registry; for anyone
/// else, nothing changes.
proof fn lemma_survivors_step(s: Seq<CandidateInfo>, removed: Seq<AccountId>, w: AccountId)
    requires
        unique_candidates(s),
        !removed.contains(w),
    ensures
        has_candidate(s, w) ==> ({
            let t = survivors(s, removed);
            let i = candidate_index(t, w);
            &&& has_candidate(t, w)
            &&& 0 <= i < t.len()
            &&& t[i] == s[candidate_index(s, w)]
            &&& survivors(s, removed.push(w)) == t.remove(i)
        }),
        !has_candidate(s, w) ==> survivors(s, removed.push(w)) == survivors(s, removed),
    decreases s.len(),
{
    reveal(Seq::filter);
    let rp = removed.push(w);
    assert forall|x: AccountId| #[trigger] rp.contains(x) == (removed.contains(x) || x == w) by {
        if removed.contains(x) {
            let m = choose|m: int| 0 <= m < removed.len() && removed[m] == x;
            assert(rp[m] == x);
        }
        if x == w {
            assert(rp[removed.len() as int] == x);
        }
        if rp.contains(x) {
            let m = choose|m: int| 0 <= m < rp.len() && rp[m] == x;
            if m < removed.len() {
                assert(removed[m] == x);
            }
        }
    }
    if s.len() == 0 {
        if has_candidate(s, w) {
            let m = candidate_index(s, w);
            assert(false);
        }
        assert(survivors(s, rp) =~= survivors(s, removed));
    } else {
        let s0 = s.drop_last();
        let c = s.last();
        assert forall|i: int, j: int|
            #![trigger s0[i], s0[j]]
            0 <= i < j < s0.len() implies s0[i].who != s0[j].who by {
            assert(s0[i] == s[i]);
            assert(s0[j] == s[j]);
        }
        lemma_survivors_step(s0, removed, w);
        lemma_survivors_unique(s, removed);
        lemma_survivors_membership(s, removed);
        lemma_survivors_membership(s0, removed);
        let t0 = survivors(s0, removed);
        let t = survivors(s, removed);
        let tp0 = survivors(s0, rp);
        let tp = survivors(s, rp);
        if c.who == w {
            assert(t == t0.push(c));
            assert(tp == tp0);
            assert(s[s.len() - 1].who == w);
            assert(has_candidate(s, w));
            lemma_candidate_at_index(s, s.len() - 1);
            if has_candidate(s0, w) {
                let m = candidate_index(s0, w);
                assert(s[m] == s0[m]);
                assert(s[m].who == s[s.len() - 1].who);
                assert(false);
            }
            assert(tp0 == t0);
            if has_candidate(t0, w) {
                assert(has_candidate(s0, w));
                assert(false);
            }
            lemma_survivors_unique(s0, removed);
            lemma_candidate_at_index(t, t.len() - 1);
            assert(candidate_index(t, w) == t.len() - 1);
            assert(t[t.len() - 1] == c);
            assert(s[candidate_index(s, w)] == c);
            assert(tp =~= t.remove(t.len() - 1));
        } else {
            if has_candidate(s, w) {
                lemma_candidate_at_index(s, candidate_index(s, w));
                let m = candidate_index(s, w);
                assert(m < s0.len());
                assert(s0[m] == s[m]);
                assert(has_candidate(s0, w));
                lemma_candidate_at_index(s0, m);
                assert(candidate_index(s0, w) == m);
            } else {
                if has_candidate(s0, w) {
                    let m = candidate_index(s0, w);
                    assert(s[m] == s0[m]);
                    assert(has_candidate(s, w));
                    assert(false);
                }
            }
            if removed.contains(c.who) {
                assert(rp.contains(c.who));
                assert(t == t0);
                assert(tp == tp0);
                if has_candidate(s, w) {
                    let i0 = candidate_index(t0, w);
                    assert(candidate_index(t, w) == i0);
                } else {
                }
            } else {
                assert(!rp.contains(c.who));
                assert(t == t0.push(c));
                assert(tp == tp0.push(c));
                if has_candidate(s, w) {
                    let i0 = candidate_index(t0, w);
                    assert(has_candidate(t0, w));
                    assert(t0[i0].who == w);
                    assert(t[i0] == t0[i0]);
                    lemma_survivors_unique(s, removed);
                    lemma_candidate_at_index(t, i0);
                    assert(candidate_index(t, w) == i0);
                    assert(tp0 == t0.remove(i0));
                    assert(tp =~= t.remove(i0));
                } else {
                    assert(tp0 == t0);
                    assert(tp =~= t);
                }
            }
        }
    }
}

/// Extending a ranked prefix by one entry extends its filtered part
/// exactly when the eviction test passes the entry.
proof fn lemma_evict_prefix_step(p: Pallet, s: Seq<PerfRecord>, i: int)
    requires
        0 <= i < s.len(),
    ensures
        s.subrange(0, i + 1).filter(p.spec_evict_pred()) == (if p.spec_evict_pred()(s[i]) {
            s.subrange(0, i).filter(p.spec_evict_pred()).push(s[i])
        } else {
            s.subrange(0, i).filter(p.spec_evict_pred())
        }),
{
    reveal(Seq::filter);
    let a = s.subrange(0, i + 1);
    assert(a.drop_last() =~= s.subrange(0, i));
    assert(a.last() == s[i]);
}

/// Extending a registry prefix by one record extends its survivors
/// exactly when the record's account is not removed.
proof fn lemma_survivors_prefix_step(s: Seq<CandidateInfo>, removed: Seq<AccountId>, i: int)
    requires
        0 <= i < s.len(),
    ensures
        survivors(s.subrange(0, i + 1), removed) == (if !removed.contains(s[i].who) {
            survivors(s.subrange(0, i), removed).push(s[i])
        } else {
            survivors(s.subrange(0, i), removed)
        }),
{
    reveal(Seq::filter);
    let a = s.subrange(0, i + 1);
    assert(a.drop_last() =~= s.subrange(0, i));
    assert(a.last() == s[i]);
}

impl Pallet {
    /// The period's performance snapshot ranked ascending.
    pub open spec fn spec_sorted_perf(self) -> Seq<PerfRecord> {
        self.tracker.entries@.sort_by(perf_leq())
    }

    /// Index of the percentile entry in that ranking.
    pub open spec fn spec_rank(self) -> int {
        spec_ordinal_rank(self.config.eviction_percentile, self.tracker.entries@.len() as int)
    }

    /// Blocks authored by the percentile entry: the period's benchmark.
    pub open spec fn spec_percentile_blocks(self) -> BlockCount {
        self.spec_sorted_perf()[self.spec_rank()].blocks
    }

    /// The eviction threshold computed from the benchmark.
    pub open spec fn spec_threshold(self) -> int {
        spec_kick_threshold(self.config.underperform_percent, self.spec_percentile_blocks())
    }

    /// The eviction test on one ranked entry: at or below the threshold,
    /// not invulnerable, and currently a candidate.
    pub open spec fn spec_evict_pred(self) -> spec_fn(PerfRecord) -> bool {
        |e: PerfRecord|
            e.blocks <= self.spec_threshold() && !self.invulnerables@.contains(e.who)
                && has_candidate(self.candidates@, e.who)
    }

    /// The accounts the eviction pass removes, in ranking order: the
    /// entries strictly below the percentile index that pass the test.
    pub open spec fn spec_evicted(self) -> Seq<AccountId> {
        if self.tracker.entries@.len() == 0 {
            Seq::<AccountId>::empty()
        } else {
            whos_of(
                self.spec_sorted_perf().subrange(0, self.spec_rank()).filter(
                    self.spec_evict_pred(),
                ),
            )
        }
    }
}

/// How the eviction pass turns `pre` into `post`: the evicted candidates
/// leave the registry in place, each gets its deposit back and its counter
/// cleared with a notification emitted in ranking order, and everything
/// else — every other account's funds and counters, the invulnerables and
/// the parameters — stays as it was.
pub open spec fn spec_kick_effect(pre: Pallet, post: Pallet) -> bool {
    &&& post.candidates@ == survivors(pre.candidates@, pre.spec_evicted())
    &&& post.events@ == pre.events@ + removal_events(pre.spec_evicted())
    &&& post.invulnerables == pre.invulnerables
    &&& post.desired_candidates == pre.desired_candidates
    &&& post.candidacy_bond == pre.candidacy_bond
    &&& post.config == pre.config
    &&& post.ledger.minimum == pre.ledger.minimum
    &&& post.ledger.spec_total() == pre.ledger.spec_total()
    &&& forall|k: AccountId|
        !pre.spec_evicted().contains(k) ==> #[trigger] post.ledger.spec_free_of(k)
            == pre.ledger.spec_free_of(k)
    &&& forall|k: AccountId|
        !pre.spec_evicted().contains(k) ==> #[trigger] post.ledger.spec_reserved_of(k)
            == pre.ledger.spec_reserved_of(k)
    &&& forall|k: AccountId|
        !pre.spec_evicted().contains(k) ==> #[trigger] post.tracker.spec_blocks_of(k)
            == pre.tracker.spec_blocks_of(k)
    &&& forall|k: AccountId|
        !pre.spec_evicted().contains(k) ==> #[trigger] post.tracker.spec_has(k)
            == pre.tracker.spec_has(k)
    &&& forall|k: AccountId|
        pre.spec_evicted().contains(k) ==> #[trigger] post.ledger.spec_reserved_of(k) == 0
    &&& forall|k: AccountId|
        pre.spec_evicted().contains(k) ==> #[trigger] post.ledger.spec_free_of(k)
            == pre.ledger.spec_free_of(k) + pre.spec_deposit_of(k)
    &&& forall|k: AccountId|
        pre.spec_evicted().contains(k) ==> !(#[trigger] post.tracker.spec_has(k))
}

/// A copy of a candidate list.
fn clone_candidate_records(v: &Vec<CandidateInfo>) -> (c: Vec<CandidateInfo>)
    ensures
        c@ == v@,
{
    let mut c: Vec<CandidateInfo> = Vec::new();
    let n = v.len();
    let mut i: usize = 0;
    while i < n
        invariant
            n == v@.len(),
            i <= n,
            c@ == v@.subrange(0, i as int),
        decreases n - i,
    {
        c.push(v[i]);
        proof {
            assert(c@ =~= v@.subrange(0, i + 1 as int));
        }
        i += 1;
    }
    proof {
        assert(c@ =~= v@);
    }
    c
}

impl Pallet {
    /// Evict the candidates that underperformed the period just ended,
    /// and return them in ranking order. An empty performance snapshot
    /// evicts nobody and changes nothing. A removal that cannot proceed
    /// (the ranked account is no candidate) is skipped and the pass goes
    /// on: eviction is a best-effort maintenance sweep, not a transaction.
    pub fn kick_stale_candidates(&mut self) -> (removed: Vec<AccountId>)
        requires
            old(self).wf(),
        ensures
            final(self).wf(),
            removed@ == old(self).spec_evicted(),
            spec_kick_effect(*old(self), *final(self)),
            old(self).tracker.entries@.len() == 0 ==> *final(self) == *old(self),
    {
        let ghost s0 = *old(self);
        let snapshot = self.tracker.snapshot();
        if snapshot.len() == 0 {
            proof {
                lemma_survivors_none(s0.candidates@);
                assert(s0.spec_evicted() =~= Seq::<AccountId>::empty());
                assert(removal_events(s0.spec_evicted()) =~= Seq::<Event>::empty());
                assert(s0.events@ + removal_events(s0.spec_evicted()) =~= s0.events@);
            }
            return Vec::new();
        }
        let sorted = rank_by_performance(snapshot);
        proof {
            lemma_perf_leq_total();
            s0.tracker.entries@.lemma_sort_by_ensures(perf_leq());
            lemma_permutation_unique_producers(s0.tracker.entries@, sorted@);
            s0.tracker.entries@.to_multiset_ensures();
            sorted@.to_multiset_ensures();
            assert(sorted@.len() == s0.tracker.entries@.len());
        }
        let n = sorted.len();
        let r = ordinal_rank(self.config.eviction_percentile, n);
        let benchmark = sorted[r].blocks;
        let threshold = kick_threshold(self.config.underperform_percent, benchmark);
        let mut removed: Vec<AccountId> = Vec::new();
        let mut i: usize = 0;
        proof {
            assert(sorted@.subrange(0, 0).filter(s0.spec_evict_pred()) =~= Seq::<
                PerfRecord,
            >::empty());
            assert(removed@ =~= whos_of(sorted@.subrange(0, 0).filter(s0.spec_evict_pred())));
            lemma_survivors_none(s0.candidates@);
            assert(removal_events(removed@) =~= Seq::<Event>::empty());
            assert(s0.events@ + removal_events(removed@) =~= s0.events@);
        }
        while i < r
            invariant
                self.wf(),
                s0.wf(),
                i <= r,
                r < sorted@.len(),
                sorted@ == s0.spec_sorted_perf(),
                sorted@.len() == s0.tracker.entries@.len(),
                unique_producers(sorted@),
                r as int == s0.spec_rank(),
                threshold as int == s0.spec_threshold(),
                self.invulnerables == s0.invulnerables,
                self.config == s0.config,
                self.desired_candidates == s0.desired_candidates,
                self.candidacy_bond == s0.candidacy_bond,
                self.ledger.minimum == s0.ledger.minimum,
                self.ledger.spec_total() == s0.ledger.spec_total(),
                removed@ == whos_of(sorted@.subrange(0, i as int).filter(s0.spec_evict_pred())),
                self.candidates@ == survivors(s0.candidates@, removed@),
                self.events@ == s0.events@ + removal_events(removed@),
                forall|k: AccountId|
                    !removed@.contains(k) ==> #[trigger] self.ledger.spec_free_of(k)
                        == s0.ledger.spec_free_of(k),
                forall|k: AccountId|
                    !removed@.contains(k) ==> #[trigger] self.ledger.spec_reserved_of(k)
                        == s0.ledger.spec_reserved_of(k),
                forall|k: AccountId|
                    !removed@.contains(k) ==> #[trigger] self.tracker.spec_blocks_of(k)
                        == s0.tracker.spec_blocks_of(k),
                forall|k: AccountId|
                    !removed@.contains(k) ==> #[trigger] self.tracker.spec_has(k)
                        == s0.tracker.spec_has(k),
                forall|k: AccountId|
                    removed@.contains(k) ==> #[trigger] self.ledger.spec_reserved_of(k) == 0,
                forall|k: AccountId|
                    removed@.contains(k) ==> #[trigger] self.ledger.spec_free_of(k)
                        == s0.ledger.spec_free_of(k) + s0.spec_deposit_of(k),
                forall|k: AccountId|
                    removed@.contains(k) ==> !(#[trigger] self.tracker.spec_has(k)),
                forall|t: int|
                    i <= t < sorted@.len() ==> !removed@.contains((#[trigger] sorted@[t]).who),
            decreases r - i,
        {
            let e = sorted[i];
            let ghost removed_old = removed@;
            let ghost qpre = *self;
            proof {
                assert(!removed_old.contains(e.who));
                lemma_survivors_membership(s0.candidates@, removed_old);
                lemma_evict_prefix_step(s0, sorted@, i as int);
            }
            let under = e.blocks <= threshold;
            let invuln = contains_account(&self.invulnerables, e.who);
            if under && !invuln {
                match self.try_remove_candidate(e.who) {
                    Ok(_) => {
                        removed.push(e.who);
                        proof {
                            assert(s0.spec_evict_pred()(e));
                            lemma_survivors_step(s0.candidates@, removed_old, e.who);
                            assert forall|x: AccountId|
                                #[trigger] removed@.contains(x) == (removed_old.contains(x) || x
                                    == e.who) by {
                                if removed_old.contains(x) {
                                    let m = choose|m: int|
                                        0 <= m < removed_old.len() && removed_old[m] == x;
                                    assert(removed@[m] == x);
                                }
                                if x == e.who {
                                    assert(removed@[removed_old.len() as int] == x);
                                }
                                if removed@.contains(x) {
                                    let m = choose|m: int|
                                        0 <= m < removed@.len() && removed@[m] == x;
                                    if m < removed_old.len() {
                                        assert(removed_old[m] == x);
                                    }
                                }
                            }
                            assert(self.candidates@ == survivors(s0.candidates@, removed@));
                            assert(whos_of(
                                sorted@.subrange(0, i as int).filter(s0.spec_evict_pred()).push(e),
                            ) =~= whos_of(sorted@.subrange(0, i as int).filter(s0.spec_evict_pred()))
                                .push(e.who));
                            assert(removed@ == whos_of(
                                sorted@.subrange(0, i + 1 as int).filter(s0.spec_evict_pred()),
                            ));
                            assert(removal_events(removed@) =~= removal_events(removed_old).push(
                                Event::CandidateRemoved(e.who),
                            ));
                            assert(s0.events@ + removal_events(removed@) =~= (s0.events@
                                + removal_events(removed_old)).push(Event::CandidateRemoved(e.who)));
                            assert(s0.spec_deposit_of(e.who) == qpre.candidates@[candidate_index(
                                qpre.candidates@,
                                e.who,
                            )].deposit);
                            assert forall|t: int|
                                i + 1 <= t < sorted@.len() implies !removed@.contains(
                                (#[trigger] sorted@[t]).who,
                            ) by {
                                assert(sorted@[t].who != sorted@[i as int].who);
                            }
                        }
                    },
                    Err(_) => {
                        proof {
                            assert(!has_candidate(qpre.candidates@, e.who));
                            assert(!has_candidate(s0.candidates@, e.who));
                            assert(!s0.spec_evict_pred()(e));
                        }
                    },
                }
            } else {
                proof {
                    assert(!s0.spec_evict_pred()(e));
                }
            }
            i += 1;
        }
        proof {
            assert(removed@ == s0.spec_evicted());
        }
        removed
    }

    /// Compute the next period's roster: run the eviction pass over the
    /// period just ended, then assemble the invulnerables with the
    /// surviving candidates, in that order.
    pub fn new_session(&mut self, _index: SessionIndex) -> (r: Option<Vec<AccountId>>)
        requires
            old(self).wf(),
        ensures
            final(self).wf(),
            spec_kick_effect(*old(self), *final(self)),
            (r matches Some(roster) && roster@ == final(self).invulnerables@ + whos_of_candidates(
                final(self).candidates@,
            )),
    {
        let ghost s0 = *old(self);
        let cands = clone_candidate_records(&self.candidates);
        let removed = self.kick_stale_candidates();
        let mut active: Vec<AccountId> = Vec::new();
        let n = cands.len();
        let mut i: usize = 0;
        proof {
            assert(survivors(cands@.subrange(0, 0), removed@) =~= Seq::<CandidateInfo>::empty());
            assert(active@ =~= whos_of_candidates(survivors(cands@.subrange(0, 0), removed@)));
        }
        while i < n
            invariant
                n == cands@.len(),
                i <= n,
                active@ == whos_of_candidates(survivors(cands@.subrange(0, i as int), removed@)),
            decreases n - i,
        {
            let c = cands[i];
            proof {
                lemma_survivors_prefix_step(cands@, removed@, i as int);
            }
            if !contains_account(&removed, c.who) {
                active.push(c.who);
                proof {
                    assert(whos_of_candidates(
                        survivors(cands@.subrange(0, i as int), removed@).push(c),
                    ) =~= whos_of_candidates(survivors(cands@.subrange(0, i as int), removed@)).push(
                        c.who,
                    ));
                }
            }
            i += 1;
        }
        proof {
            assert(cands@.subrange(0, n as int) =~= cands@);
        }
        let roster = self.assemble_collators(active);
        Some(roster)
    }
}

/// Sum of the recorded deposits of `s`.
pub open spec fn sum_deposits(s: Seq<CandidateInfo>) -> int
    decreases s.len(),
{
    if s.len() == 0 {
        0
    } else {
        sum_deposits(s.drop_last()) + s.last().deposit
    }
}

/// Sum over `s` of the funds `l` holds in reserve for each record's
/// account.
pub open spec fn sum_candidate_reserves(s: Seq<CandidateInfo>, l: Ledger) -> int
    decreases s.len(),
{
    if s.len() == 0 {
        0
    } else {
        sum_candidate_reserves(s.drop_last(), l) + l.spec_reserved_of(s.last().who)
    }
}

/// Equal summands give equal sums.
proof fn lemma_sum_reserves_pointwise(s: Seq<CandidateInfo>, l: Ledger)
    requires
        forall|i: int|
            0 <= i < s.len() ==> l.spec_reserved_of((#[trigger] s[i]).who) == s[i].deposit,
    ensures
        sum_candidate_reserves(s, l) == sum_deposits(s),
    decreases s.len(),
{
    if s.len() > 0 {
        let s0 = s.drop_last();
        assert forall|i: int|
            0 <= i < s0.len() implies l.spec_reserved_of((#[trigger] s0[i]).who)
            == s0[i].deposit by {
            assert(s0[i] == s[i]);
        }
        lemma_sum_reserves_pointwise(s0, l);
    }
}

/// A ledger whose reserves all belong to candidates, one bond each, has
/// a reserve total of exactly the candidates' recorded deposits.
proof fn lemma_reserves_cover_deposits(c: Seq<CandidateInfo>, s: Seq<BalanceRecord>)
    requires
        unique_candidates(c),
        unique_accounts(s),
        forall|i: int| 0 <= i < c.len() ==> reserved_in(s, (#[trigger] c[i]).who) == c[i].deposit,
        forall|k: AccountId| #[trigger] reserved_in(s, k) != 0 ==> has_candidate(c, k),
    ensures
        reserved_total_of(s) == sum_deposits(c),
    decreases c.len(),
{
    if c.len() == 0 {
        assert forall|j: int| 0 <= j < s.len() implies (#[trigger] s[j]).reserved == 0 by {
            lemma_at_index(s, j);
            if s[j].reserved != 0 {
                assert(reserved_in(s, s[j].who) != 0);
                assert(has_candidate(c, s[j].who));
                let m = candidate_index(c, s[j].who);
                assert(false);
            }
        }
        lemma_reserved_total_zero(s);
    } else {
        let c0 = c.drop_last();
        let d = c.last();
        assert(c[c.len() - 1] == d);
        assert(reserved_in(s, d.who) == d.deposit);
        assert forall|i: int, j: int|
            #![trigger c0[i], c0[j]]
            0 <= i < j < c0.len() implies c0[i].who != c0[j].who by {
            assert(c0[i] == c[i]);
            assert(c0[j] == c[j]);
        }
        assert forall|i: int| 0 <= i < c0.len() implies (#[trigger] c0[i]).who != d.who by {
            assert(c0[i] == c[i]);
            assert(c[i].who != c[c.len() - 1].who);
        }
        if d.deposit == 0 {
            assert forall|i: int|
                0 <= i < c0.len() implies reserved_in(s, (#[trigger] c0[i]).who)
                == c0[i].deposit by {
                assert(c0[i] == c[i]);
            }
            assert forall|k: AccountId|
                #[trigger] reserved_in(s, k) != 0 implies has_candidate(c0, k) by {
                assert(has_candidate(c, k));
                let m = candidate_index(c, k);
                assert(k != d.who);
                assert(m < c0.len());
                assert(c0[m] == c[m]);
                assert(has_candidate(c0, k));
            }
            lemma_reserves_cover_deposits(c0, s);
        } else {
            assert(has_account(s, d.who));
            let m = index_of(s, d.who);
            assert(0 <= m < s.len() && s[m].who == d.who);
            let e = BalanceRecord { who: d.who, free: s[m].free, reserved: 0 };
            let t = s.update(m, e);
            lemma_update_lookup(s, m, e);
            lemma_reserved_total_update(s, m, e);
            assert(s[m].reserved == d.deposit);
            assert forall|i: int|
                0 <= i < c0.len() implies reserved_in(t, (#[trigger] c0[i]).who)
                == c0[i].deposit by {
                assert(c0[i] == c[i]);
                assert(c0[i].who != d.who);
                assert(reserved_in(t, c0[i].who) == reserved_in(s, c0[i].who));
            }
            assert forall|k: AccountId|
                #[trigger] reserved_in(t, k) != 0 implies has_candidate(c0, k) by {
                if k == d.who {
                    assert(reserved_in(t, d.who) == 0);
                    assert(false);
                }
                assert(reserved_in(t, k) == reserved_in(s, k));
                assert(has_candidate(c, k));
                let mm = candidate_index(c, k);
                assert(mm < c0.len());
                assert(c0[mm] == c[mm]);
                assert(has_candidate(c0, k));
            }
            lemma_reserves_cover_deposits(c0, t);
            assert(reserved_total_of(t) == reserved_total_of(s) - d.deposit);
        }
    }
}

/// Disjointness: in a well-formed state, no account is at once
/// invulnerable and a candidate. Genesis establishes well-formedness and
/// every operation preserves it, so the law holds of every reachable
/// state; replacing the invulnerable set keeps it as long as the new set
/// avoids the current candidates, which its caller answers for.
pub proof fn lemma_invulnerable_candidate_disjoint(p: Pallet, a: AccountId)
    requires
        p.wf(),
    ensures
        !(p.invulnerables@.contains(a) && p.spec_is_candidate(a)),
{
    if p.invulnerables@.contains(a) && has_candidate(p.candidates@, a) {
        let i = candidate_index(p.candidates@, a);
        assert(!p.invulnerables@.contains(p.candidates@[i].who));
        assert(false);
    }
}

/// Bond conservation: in a well-formed state every candidate has exactly
/// one reserved bond, of the amount recorded at its registration, and
/// nobody else holds any reserve, so everything the whole ledger holds in
/// reserve sums to exactly the candidates' recorded deposits.
pub proof fn lemma_bond_conservation(p: Pallet)
    requires
        p.wf(),
    ensures
        forall|i: int|
            0 <= i < p.candidates@.len() ==> p.ledger.spec_reserved_of(
                (#[trigger] p.candidates@[i]).who,
            ) == p.candidates@[i].deposit,
        forall|k: AccountId| #[trigger] p.ledger.spec_reserved_of(k) != 0 ==> p.spec_is_candidate(k),
        sum_candidate_reserves(p.candidates@, p.ledger) == sum_deposits(p.candidates@),
        p.ledger.spec_reserved_total() == sum_deposits(p.candidates@),
{
    lemma_sum_reserves_pointwise(p.candidates@, p.ledger);
    assert forall|k: AccountId|
        #[trigger] reserved_in(p.ledger.accounts@, k) != 0 implies has_candidate(
        p.candidates@,
        k,
    ) by {
        assert(p.ledger.spec_reserved_of(k) == reserved_in(p.ledger.accounts@, k));
    }
    lemma_reserves_cover_deposits(p.candidates@, p.ledger.accounts@);
}

/// The plain underperformance test alone: authored no more blocks than
/// the eviction threshold allows.
pub open spec fn spec_underperforming(p: Pallet) -> spec_fn(PerfRecord) -> bool {
    |e: PerfRecord| e.blocks <= p.spec_threshold()
}

/// Sequences filtered by tests that agree on their elements are equal.
proof fn lemma_filter_agree(
    s: Seq<PerfRecord>,
    p1: spec_fn(PerfRecord) -> bool,
    p2: spec_fn(PerfRecord) -> bool,
)
    requires
        forall|i: int| 0 <= i < s.len() ==> p1(#[trigger] s[i]) == p2(s[i]),
    ensures
        s.filter(p1) == s.filter(p2),
    decreases s.len(),
{
    reveal(Seq::filter);
    if s.len() > 0 {
        let s0 = s.drop_last();
        assert forall|i: int| 0 <= i < s0.len() implies p1(#[trigger] s0[i]) == p2(s0[i]) by {
            assert(s0[i] == s[i]);
        }
        lemma_filter_agree(s0, p1, p2);
    }
}

/// Percentile eviction in full: when every producer tracked this period
/// is a registered, non-invulnerable candidate — the ordinary case, since
/// only roster members author blocks — the pass evicts exactly the ranked
/// entries strictly below the percentile index whose block count is at or
/// below the threshold, in ranking order.
pub proof fn lemma_eviction_exact(p: Pallet)
    requires
        p.wf(),
        p.tracker.entries@.len() > 0,
        forall|i: int|
            0 <= i < p.tracker.entries@.len() ==> has_candidate(
                p.candidates@,
                (#[trigger] p.tracker.entries@[i]).who,
            ),
        forall|i: int|
            0 <= i < p.tracker.entries@.len() ==> !p.invulnerables@.contains(
                (#[trigger] p.tracker.entries@[i]).who,
            ),
    ensures
        p.spec_evicted() == whos_of(
            p.spec_sorted_perf().subrange(0, p.spec_rank()).filter(spec_underperforming(p)),
        ),
{
    let entries = p.tracker.entries@;
    let sp = p.spec_sorted_perf();
    lemma_perf_leq_total();
    entries.lemma_sort_by_ensures(perf_leq());
    entries.to_multiset_ensures();
    sp.to_multiset_ensures();
    assert(sp.len() == entries.len());
    crate::eviction::lemma_rank_in_range(p.config.eviction_percentile, entries.len() as int);
    let r = p.spec_rank();
    assert(0 <= r < sp.len());
    let sub = sp.subrange(0, r);
    assert forall|j: int|
        0 <= j < sub.len() implies p.spec_evict_pred()(#[trigger] sub[j]) == spec_underperforming(
        p,
    )(sub[j]) by {
        let e = sub[j];
        assert(e == sp[j]);
        assert(sp.contains(e));
        assert(entries.to_multiset().count(e) > 0);
        assert(entries.contains(e));
        let i = choose|i: int| 0 <= i < entries.len() && entries[i] == e;
        assert(has_candidate(p.candidates@, entries[i].who));
        assert(!p.invulnerables@.contains(entries[i].who));
    }
    lemma_filter_agree(sub, p.spec_evict_pred(), spec_underperforming(p));
}

} // verus!
