//! Mining shared out by a coordinator to workers of its own.

use crate::account::{Config, Proof};
use crate::address::{
    address_text, law_address_reads_back, law_text_reads_back, parsed_address, read_address,
    AddressError,
};
use crate::base58::{base58, law_base58_of_an_address};
use crate::chance::random_below;
use crate::drill::Solution;
use crate::instruction::{law_what_is_submitted, mine_instruction, submitted, Submission};
use crate::miner::Miner;
use crate::pool::MiningJob;
use crate::text::{decimal, decimal_text, joined, joined3};
use crate::utils::{proof_address, proof_pubkey};
use vstd::prelude::*;
use vstd::string::StringExecFns;

verus! {

/// What a worker has found.
#[derive(Clone, Copy, Debug)]
pub struct WorkerResult {
    pub difficulty: u32,
    pub solution: Solution,
}

/// What a worker is to search, and for how many seconds.
#[derive(Debug)]
pub struct WorkerRequest {
    pub proof: SerializableProof,
    pub cutoff_time: u64,
}

/// How a worker introduces itself.
#[derive(Debug)]
pub struct AuthRequest {
    pub pubkey: String,
}

/// What the coordinator says to that.
#[derive(Debug)]
pub struct AuthResponse {
    pub success: bool,
    pub message: String,
}

/// A proof account on its way to a worker: the addresses are texts.
#[derive(Debug)]
pub struct SerializableProof {
    pub authority: String,
    pub balance: u64,
    pub challenge: [u8; 32],
    pub last_hash: [u8; 32],
    pub last_hash_at: i64,
    pub last_stake_at: i64,
    pub miner: String,
    pub total_hashes: u64,
    pub total_rewards: u64,
}

impl SerializableProof {
    /// Whether this reads as `account`.
    pub open spec fn carries(self, account: Proof) -> bool {
        &&& parsed_address(self.authority@) is Ok
        &&& parsed_address(self.authority@)->Ok_0 == account.authority@
        &&& self.balance == account.balance
        &&& self.challenge == account.challenge
        &&& self.last_hash == account.last_hash
        &&& self.last_hash_at == account.last_hash_at
        &&& self.last_stake_at == account.last_stake_at
        &&& parsed_address(self.miner@) is Ok
        &&& parsed_address(self.miner@)->Ok_0 == account.miner@
        &&& self.total_hashes == account.total_hashes
        &&& self.total_rewards == account.total_rewards
    }

    /// Whether this is `account` with the addresses in base58.
    pub open spec fn writes_down(self, account: Proof) -> bool {
        &&& self.authority@ == base58(account.authority@)
        &&& self.miner@ == base58(account.miner@)
        &&& self.carries(account)
    }

    /// A proof account with its addresses as texts.
    pub fn from(account: &Proof) -> (out: SerializableProof)
        ensures
            out.writes_down(*account),
    {
        proof {
            law_address_reads_back(account.authority@);
            law_address_reads_back(account.miner@);
        }
        SerializableProof {
            authority: address_text(&account.authority),
            balance: account.balance,
            challenge: account.challenge,
            last_hash: account.last_hash,
            last_hash_at: account.last_hash_at,
            last_stake_at: account.last_stake_at,
            miner: address_text(&account.miner),
            total_hashes: account.total_hashes,
            total_rewards: account.total_rewards,
        }
    }

    /// The proof account that this reads as, or what is wrong with the first of its
    /// texts that is no address.
    pub fn to_proof(&self) -> (out: Result<Proof, AddressError>)
        ensures
            match out {
                Ok(account) => self.carries(account),
                Err(error) => match parsed_address(self.authority@) {
                    Err(first) => error == first,
                    Ok(_) => parsed_address(self.miner@) == Err::<Seq<u8>, AddressError>(error),
                },
            },
    {
        let authority = match read_address(self.authority.as_str()) {
            Ok(address) => address,
            Err(error) => {
                return Err(error);
            },
        };
        let miner = match read_address(self.miner.as_str()) {
            Ok(address) => address,
            Err(error) => {
                return Err(error);
            },
        };
        Ok(
            Proof {
                authority,
                balance: self.balance,
                challenge: self.challenge,
                last_hash: self.last_hash,
                last_hash_at: self.last_hash_at,
                last_stake_at: self.last_stake_at,
                miner,
                total_hashes: self.total_hashes,
                total_rewards: self.total_rewards,
            },
        )
    }
}

/// A worker reads the proof account that the coordinator wrote down, and no other.
pub proof fn law_account_arrives(text: SerializableProof, account: Proof, read: Proof)
    requires
        text.writes_down(account),
        text.carries(read),
    ensures
        read == account,
{
    assert(read.authority =~= account.authority);
    assert(read.miner =~= account.miner);
}

/// What a worker has read and writes down again is what it was sent, in all its fields.
pub proof fn law_text_arrives(text: SerializableProof, account: Proof, again: SerializableProof)
    requires
        text.carries(account),
        again.writes_down(account),
    ensures
        again.authority@ == text.authority@,
        again.balance == text.balance,
        again.challenge == text.challenge,
        again.last_hash == text.last_hash,
        again.last_hash_at == text.last_hash_at,
        again.last_stake_at == text.last_stake_at,
        again.miner@ == text.miner@,
        again.total_hashes == text.total_hashes,
        again.total_rewards == text.total_rewards,
{
    law_text_reads_back(text.authority@);
    law_text_reads_back(text.miner@);
}

/// Whether `best` is the best of the results: none is more difficult, and none before
/// it is as difficult.
pub open spec fn is_best_result(results: Seq<WorkerResult>, best: WorkerResult) -> bool {
    &&& forall|i: int|
        0 <= i < results.len() ==> (#[trigger] results[i]).difficulty <= best.difficulty
    &&& exists|i: int|
        {
            &&& 0 <= i < results.len()
            &&& #[trigger] results[i] == best
            &&& forall|j: int| 0 <= j < i ==> (#[trigger] results[j]).difficulty < best.difficulty
        }
}

/// The best of the results; nothing where there are none.
pub fn best_result(results: &Vec<WorkerResult>) -> (out: Option<WorkerResult>)
    ensures
        match out {
            Some(best) => is_best_result(results@, best),
            None => results@.len() == 0,
        },
{
    if results.len() == 0 {
        return None;
    }
    let mut at: usize = 0;
    let mut i: usize = 1;
    while i < results.len()
        invariant
            at < i <= results@.len(),
            forall|j: int|
                0 <= j < i ==> (#[trigger] results@[j]).difficulty <= results@[at as int].difficulty,
            forall|j: int|
                0 <= j < at ==> (#[trigger] results@[j]).difficulty < results@[at as int].difficulty,
        decreases results@.len() - i,
    {
        if results[i].difficulty > results[at].difficulty {
            at = i;
        }
        i += 1;
    }
    let best = results[at];
    assert(results@[at as int] == best);
    Some(best)
}

/// What a coordinator waits for: the signer's proof account; the time that is left to
/// mine; the request to reach all workers; that time to pass; the results; the program's
/// configuration; the submission to be through.
#[derive(Clone, Copy, Debug)]
pub enum Phase {
    AwaitProof,
    AwaitCutoff(Proof),
    AwaitBroadcast { cutoff_time: u64 },
    AwaitTimeout,
    AwaitResults,
    AwaitConfig(Solution),
    AwaitDelivery,
}

/// What comes of it. With the configuration come the bus to use and whether an epoch is
/// over.
#[derive(Debug)]
pub enum CoordinatorEvent {
    Proof(Proof),
    Cutoff(u64),
    Broadcast,
    TimeOut,
    Results(Vec<WorkerResult>),
    Config { bus: [u8; 32], epoch_over: bool },
    Delivered,
}

/// What a coordinator does next: it fetches the proof account at an address, asks for
/// the time that is left to mine, sends a request to all workers, waits some seconds,
/// collects the results, fetches the program's configuration, or submits a solution.
#[derive(Debug)]
pub enum CoordinatorAction {
    FetchProof([u8; 32]),
    FetchCutoff(Proof),
    Broadcast(WorkerRequest),
    Wait(u64),
    Collect,
    FetchConfig,
    Submit(Submission),
}

/// Whether a coordinator waits for such an event.
pub open spec fn is_awaited(phase: Phase, event: CoordinatorEvent) -> bool {
    match event {
        CoordinatorEvent::Proof(_) => phase is AwaitProof,
        CoordinatorEvent::Cutoff(_) => phase is AwaitCutoff,
        CoordinatorEvent::Broadcast => phase is AwaitBroadcast,
        CoordinatorEvent::TimeOut => phase is AwaitTimeout,
        CoordinatorEvent::Results(_) => phase is AwaitResults,
        CoordinatorEvent::Config { .. } => phase is AwaitConfig,
        CoordinatorEvent::Delivered => phase is AwaitDelivery,
    }
}

/// Whether a new epoch is begun along with a submission: one in a hundred does so where
/// an epoch is over.
pub open spec fn begins_epoch(epoch_over: bool, drawn: u32) -> bool {
    epoch_over && drawn == 0
}

/// Whether `submission` is that of `solution`.
pub open spec fn submits(
    signer: Seq<u8>,
    bus: Seq<u8>,
    solution: Solution,
    with_reset: bool,
    submission: Submission,
) -> bool {
    &&& proof_address(signer) is Some
    &&& submission.views() == submitted(
        signer,
        proof_address(signer)->0,
        bus,
        solution,
        with_reset,
    )
    &&& submission.compute_budget == if with_reset {
        600_000u32
    } else {
        500_000u32
    }
}

/// Whether a coordinator begins a round.
pub open spec fn begins_round(signer: Seq<u8>, next: Phase, action: CoordinatorAction) -> bool {
    &&& next is AwaitProof
    &&& action is FetchProof
    &&& proof_address(signer) == Some(action->FetchProof_0@)
}

/// Whether a coordinator for `signer` that awaited `event` goes on to wait for `next`
/// and does `action`, where `drawn` is a number below a hundred drawn by lot.
pub open spec fn goes_on(
    signer: Seq<u8>,
    phase: Phase,
    event: CoordinatorEvent,
    drawn: u32,
    next: Phase,
    action: CoordinatorAction,
) -> bool {
    match event {
        CoordinatorEvent::Proof(account) => {
            &&& next == Phase::AwaitCutoff(account)
            &&& action == CoordinatorAction::FetchCutoff(account)
        },
        CoordinatorEvent::Cutoff(cutoff_time) => {
            &&& next == (Phase::AwaitBroadcast { cutoff_time })
            &&& action is Broadcast
            &&& action->Broadcast_0.proof.writes_down(phase->AwaitCutoff_0)
            &&& action->Broadcast_0.cutoff_time == cutoff_time
        },
        CoordinatorEvent::Broadcast => {
            &&& next == Phase::AwaitTimeout
            &&& action == CoordinatorAction::Wait(phase->cutoff_time)
        },
        CoordinatorEvent::TimeOut => {
            &&& next == Phase::AwaitResults
            &&& action == CoordinatorAction::Collect
        },
        CoordinatorEvent::Results(results) => if results@.len() == 0 {
            begins_round(signer, next, action)
        } else {
            &&& exists|best: WorkerResult| #[trigger]
                is_best_result(results@, best) && next == Phase::AwaitConfig(best.solution)
            &&& action == CoordinatorAction::FetchConfig
        },
        CoordinatorEvent::Config { bus, epoch_over } => {
            &&& next == Phase::AwaitDelivery
            &&& action is Submit
            &&& submits(
                signer,
                bus@,
                phase->AwaitConfig_0,
                begins_epoch(epoch_over, drawn),
                action->Submit_0,
            )
        },
        CoordinatorEvent::Delivered => begins_round(signer, next, action),
    }
}

/// The coordinator of a signer who has a proof account.
#[derive(Clone, Copy, Debug)]
pub struct Coordinator {
    signer: [u8; 32],
    account: [u8; 32],
    phase: Phase,
}

impl Coordinator {
    #[verifier::type_invariant]
    spec fn inv(self) -> bool {
        proof_address(self.signer@) == Some(self.account@)
    }

    /// The signer.
    pub closed spec fn signer(self) -> Seq<u8> {
        self.signer@
    }

    /// What the coordinator waits for.
    pub closed spec fn phase(self) -> Phase {
        self.phase
    }

    /// A coordinator for `signer`, at the beginning of a round, with what it does first;
    /// nothing where no proof account can be derived.
    pub fn new(signer: [u8; 32]) -> (out: Option<(Coordinator, CoordinatorAction)>)
        ensures
            match out {
                Some((coordinator, action)) => {
                    &&& coordinator.signer() == signer@
                    &&& begins_round(signer@, coordinator.phase(), action)
                },
                None => proof_address(signer@) is None,
            },
    {
        match proof_pubkey(&signer) {
            Some(account) => Some(
                (
                    Coordinator { signer, account, phase: Phase::AwaitProof },
                    CoordinatorAction::FetchProof(account),
                ),
            ),
            None => None,
        }
    }

    /// Goes on after an event, with the number that was drawn by lot; nothing where the
    /// event is not awaited.
    pub fn step(&mut self, event: CoordinatorEvent, drawn: u32) -> (out: Option<CoordinatorAction>)
        ensures
            final(self).signer() == old(self).signer(),
            out is Some <==> is_awaited(old(self).phase(), event),
            match out {
                Some(action) => goes_on(
                    old(self).signer(),
                    old(self).phase(),
                    event,
                    drawn,
                    final(self).phase(),
                    action,
                ),
                None => final(self).phase() == old(self).phase(),
            },
    {
        proof {
            use_type_invariant(&*self);
        }
        let (next, action) = match (self.phase, event) {
            (Phase::AwaitProof, CoordinatorEvent::Proof(account)) => (
                Phase::AwaitCutoff(account),
                CoordinatorAction::FetchCutoff(account),
            ),
            (Phase::AwaitCutoff(account), CoordinatorEvent::Cutoff(cutoff_time)) => (
                Phase::AwaitBroadcast { cutoff_time },
                CoordinatorAction::Broadcast(
                    WorkerRequest { proof: SerializableProof::from(&account), cutoff_time },
                ),
            ),
            (Phase::AwaitBroadcast { cutoff_time }, CoordinatorEvent::Broadcast) => (
                Phase::AwaitTimeout,
                CoordinatorAction::Wait(cutoff_time),
            ),
            (Phase::AwaitTimeout, CoordinatorEvent::TimeOut) => (
                Phase::AwaitResults,
                CoordinatorAction::Collect,
            ),
            (Phase::AwaitResults, CoordinatorEvent::Results(results)) => match best_result(
                &results,
            ) {
                Some(best) => (Phase::AwaitConfig(best.solution), CoordinatorAction::FetchConfig),
                None => (Phase::AwaitProof, CoordinatorAction::FetchProof(self.account)),
            },
            (Phase::AwaitConfig(solution), CoordinatorEvent::Config { bus, epoch_over }) => {
                let with_reset: bool = epoch_over && drawn == 0;
                match Submission::new(&self.signer, &bus, &solution, with_reset) {
                    Some(submission) => (
                        Phase::AwaitDelivery,
                        CoordinatorAction::Submit(submission),
                    ),
                    None => {
                        return None;
                    },
                }
            },
            (Phase::AwaitDelivery, CoordinatorEvent::Delivered) => (
                Phase::AwaitProof,
                CoordinatorAction::FetchProof(self.account),
            ),
            _ => {
                return None;
            },
        };
        self.phase = next;
        Some(action)
    }
}

impl Miner {
    /// Goes on after an event; nothing where the event is not awaited.
    pub fn coordinate(coordinator: &mut Coordinator, event: CoordinatorEvent) -> (out: Option<
        CoordinatorAction,
    >)
        ensures
            final(coordinator).signer() == old(coordinator).signer(),
            out is Some <==> is_awaited(old(coordinator).phase(), event),
            match out {
                Some(action) => exists|drawn: u32|
                    drawn < 100 && #[trigger] goes_on(
                        old(coordinator).signer(),
                        old(coordinator).phase(),
                        event,
                        drawn,
                        final(coordinator).phase(),
                        action,
                    ),
                None => final(coordinator).phase() == old(coordinator).phase(),
            },
    {
        let drawn: u32 = random_below(100);
        coordinator.step(event, drawn)
    }
}

/// Whether an event is what an action asks for.
pub open spec fn is_asked_for(action: CoordinatorAction, event: CoordinatorEvent) -> bool {
    match action {
        CoordinatorAction::FetchProof(_) => event is Proof,
        CoordinatorAction::FetchCutoff(_) => event is Cutoff,
        CoordinatorAction::Broadcast(_) => event is Broadcast,
        CoordinatorAction::Wait(_) => event is TimeOut,
        CoordinatorAction::Collect => event is Results,
        CoordinatorAction::FetchConfig => event is Config,
        CoordinatorAction::Submit(_) => event is Delivered,
    }
}

/// A coordinator never stalls: whatever it does, it awaits the event that this asks for.
pub proof fn law_coordinator_never_stalls(
    signer: Seq<u8>,
    phase: Phase,
    event: CoordinatorEvent,
    drawn: u32,
    next: Phase,
    action: CoordinatorAction,
    answer: CoordinatorEvent,
)
    requires
        begins_round(signer, next, action) || goes_on(signer, phase, event, drawn, next, action),
        is_asked_for(action, answer),
    ensures
        is_awaited(next, answer),
{
}

/// What a coordinator submits is the best of the results: one that a worker has sent,
/// than which no worker has sent a more difficult one, and the first of those.
#[verifier::rlimit(60)]
pub proof fn law_best_is_submitted(
    signer: Seq<u8>,
    results: Vec<WorkerResult>,
    first_drawn: u32,
    phase: Phase,
    first_action: CoordinatorAction,
    bus: [u8; 32],
    epoch_over: bool,
    drawn: u32,
    next: Phase,
    action: CoordinatorAction,
)
    requires
        results@.len() > 0,
        goes_on(
            signer,
            Phase::AwaitResults,
            CoordinatorEvent::Results(results),
            first_drawn,
            phase,
            first_action,
        ),
        goes_on(
            signer,
            phase,
            CoordinatorEvent::Config { bus, epoch_over },
            drawn,
            next,
            action,
        ),
    ensures
        action is Submit,
        action->Submit_0.views().len() >= 2,
        exists|i: int|
            {
                &&& 0 <= i < results@.len()
                &&& forall|j: int|
                    0 <= j < results@.len() ==> (#[trigger] results@[j]).difficulty
                        <= results@[i].difficulty
                &&& forall|j: int|
                    0 <= j < i ==> (#[trigger] results@[j]).difficulty < results@[i].difficulty
                &&& action->Submit_0.views().last() == mine_instruction(
                    signer,
                    proof_address(signer)->0,
                    bus@,
                    (#[trigger] results@[i]).solution.d@,
                    results@[i].solution.n@,
                )
            },
{
    let best = choose|best: WorkerResult| #[trigger]
        is_best_result(results@, best) && phase == Phase::AwaitConfig(best.solution);
    let i = choose|i: int|
        {
            &&& 0 <= i < results@.len()
            &&& #[trigger] results@[i] == best
            &&& forall|j: int| 0 <= j < i ==> (#[trigger] results@[j]).difficulty < best.difficulty
        };
    assert(results@[i] == best);
}

/// The workers that a coordinator has, by their addresses, each with what it takes to
/// reach it.
#[derive(Debug)]
pub struct Workers<T> {
    entries: Vec<(String, T)>,
}

/// Whether no two entries have the same name.
pub open spec fn names_differ<T>(entries: Seq<(String, T)>) -> bool {
    forall|i: int, j: int|
        0 <= i < j < entries.len() ==> (#[trigger] entries[i]).0@ != (#[trigger] entries[j]).0@
}

/// What is found at each name, if no two entries have the same.
pub open spec fn by_name<T>(entries: Seq<(String, T)>) -> Map<Seq<char>, T> {
    Map::new(
        |name: Seq<char>|
            exists|i: int| 0 <= i < entries.len() && (#[trigger] entries[i]).0@ == name,
        |name: Seq<char>|
            entries[choose|i: int| 0 <= i < entries.len() && (#[trigger] entries[i]).0@ == name].1,
    )
}

impl<T> View for Workers<T> {
    type V = Map<Seq<char>, T>;

    closed spec fn view(&self) -> Map<Seq<char>, T> {
        by_name(self.entries@)
    }
}

/// An entry is what is found at its name.
proof fn lemma_entry<T>(entries: Seq<(String, T)>, i: int)
    requires
        names_differ(entries),
        0 <= i < entries.len(),
    ensures
        by_name(entries).contains_key(entries[i].0@),
        by_name(entries)[entries[i].0@] == entries[i].1,
{
    let name = entries[i].0@;
    let k = choose|k: int| 0 <= k < entries.len() && (#[trigger] entries[k]).0@ == name;
    assert(entries[i].0@ == name);
    assert(k == i) by {
        if k < i {
            assert(entries[k].0@ != entries[i].0@);
        }
        if i < k {
            assert(entries[i].0@ != entries[k].0@);
        }
    }
}

impl<T> Workers<T> {
    #[verifier::type_invariant]
    spec fn inv(self) -> bool {
        names_differ(self.entries@)
    }

    /// No workers.
    pub fn new() -> (out: Workers<T>)
        ensures
            out@ == Map::<Seq<char>, T>::empty(),
    {
        let out = Workers { entries: Vec::new() };
        assert(out@ =~= Map::empty());
        out
    }

    /// Where the entry of a name stands.
    fn position(&self, name: &str) -> (out: Option<usize>)
        ensures
            match out {
                Some(i) => i < self.entries@.len() && self.entries@[i as int].0@ == name@,
                None => forall|i: int|
                    0 <= i < self.entries@.len() ==> (#[trigger] self.entries@[i]).0@ != name@,
            },
    {
        let wanted = String::from_str(name);
        let mut i: usize = 0;
        while i < self.entries.len()
            invariant
                wanted@ == name@,
                i <= self.entries@.len(),
                forall|j: int| 0 <= j < i ==> (#[trigger] self.entries@[j]).0@ != name@,
            decreases self.entries@.len() - i,
        {
            if self.entries[i].0 == wanted {
                return Some(i);
            }
            i += 1;
        }
        None
    }

    /// Adds a worker, in the place of one with the same name.
    pub fn insert(&mut self, name: String, value: T)
        ensures
            final(self)@ == old(self)@.insert(name@, value),
    {
        proof {
            use_type_invariant(&*self);
        }
        self.remove(name.as_str());
        proof {
            use_type_invariant(&*self);
        }
        let ghost before = self.entries@;
        let mut entries: Vec<(String, T)> = Vec::new();
        std::mem::swap(&mut entries, &mut self.entries);
        proof {
            assert forall|i: int| 0 <= i < before.len() implies (#[trigger] before[i]).0@
                != name@ by {
                lemma_entry(before, i);
            }
        }
        entries.push((name, value));
        self.entries = entries;
        proof {
            let after = self.entries@;
            lemma_entry(after, before.len() as int);
            assert forall|key: Seq<char>| #[trigger]
                by_name(after).contains_key(key) == by_name(before).insert(
                    name@,
                    value,
                ).contains_key(key) && (by_name(after).contains_key(key) ==> by_name(after)[key]
                == by_name(before).insert(name@, value)[key]) by {
                if by_name(after).contains_key(key) {
                    let i = choose|i: int|
                        0 <= i < after.len() && (#[trigger] after[i]).0@ == key;
                    lemma_entry(after, i);
                    if i < before.len() {
                        assert(after[i] == before[i]);
                        lemma_entry(before, i);
                    }
                }
                if by_name(before).contains_key(key) {
                    let i = choose|i: int|
                        0 <= i < before.len() && (#[trigger] before[i]).0@ == key;
                    assert(after[i] == before[i]);
                }
            }
            assert(by_name(after) =~= by_name(before).insert(name@, value));
            assert(by_name(after) =~= old(self)@.insert(name@, value));
        }
    }

    /// Removes the worker of that name, where there is one.
    pub fn remove(&mut self, name: &str)
        ensures
            final(self)@ == old(self)@.remove(name@),
    {
        proof {
            use_type_invariant(&*self);
        }
        let ghost before = self.entries@;
        match self.position(name) {
            Some(at) => {
                let mut entries: Vec<(String, T)> = Vec::new();
                std::mem::swap(&mut entries, &mut self.entries);
                entries.remove(at);
                let ghost after = entries@;
                proof {
                    assert forall|i: int| 0 <= i < after.len() implies #[trigger] after[i]
                        == before[if i < at { i } else { i + 1 }] by {}
                    assert(names_differ(after));
                    assert forall|key: Seq<char>| #[trigger]
                        by_name(after).contains_key(key) == by_name(before).remove(
                            name@,
                        ).contains_key(key) && (by_name(after).contains_key(key) ==> by_name(
                        after,
                    )[key] == by_name(before).remove(name@)[key]) by {
                        if by_name(after).contains_key(key) {
                            let i = choose|i: int|
                                0 <= i < after.len() && (#[trigger] after[i]).0@ == key;
                            let j = if i < at { i } else { i + 1 };
                            lemma_entry(after, i);
                            lemma_entry(before, j);
                            if j < at {
                                assert(before[j].0@ != before[at as int].0@);
                            } else {
                                assert(before[at as int].0@ != before[j].0@);
                            }
                        }
                        if by_name(before).remove(name@).contains_key(key) {
                            let j = choose|j: int|
                                0 <= j < before.len() && (#[trigger] before[j]).0@ == key;
                            assert(j != at);
                            let i = if j < at { j } else { j - 1 };
                            assert(after[i].0@ == key);
                        }
                    }
                    assert(by_name(after) =~= by_name(before).remove(name@));
                }
                self.entries = entries;
            },
            None => {
                assert(!by_name(before).contains_key(name@));
                assert(by_name(before) =~= by_name(before).remove(name@));
            },
        }
    }

    /// The workers, each with its name.
    pub fn all(&self) -> (out: &Vec<(String, T)>)
        ensures
            names_differ(out@),
            self@ == by_name(out@),
    {
        proof {
            use_type_invariant(self);
        }
        &self.entries
    }
}

/// What happens at the door: someone has connected; a worker has introduced itself, and
/// was believed or not, with what it takes to reach it; nobody could connect. The texts are
/// the addresses and the error.
#[derive(Debug)]
pub enum DoorEvent<T> {
    Connected(String),
    Introduced { addr: String, authentic: bool, queue: T },
    Failed(String),
}

/// What is done about it: the worker is to introduce itself, it is taken on, or the next
/// one is waited for. Each time a line is printed.
#[derive(Debug)]
pub enum DoorAction {
    Authenticate(String),
    TakeOn(String),
    Next(String),
}

/// What happens to a worker that was taken on: there is a request for it; the request
/// was sent, or could not be; its result was read, or could not be; there will be no more
/// requests. The texts are the errors.
#[derive(Debug)]
pub enum LinkEvent {
    Request,
    Sent,
    SendFailed(String),
    ResultRead,
    ReadFailed(String),
    Closed,
}

/// What is done about it: the request is sent, the result is read, the result is passed
/// on and the next request waited for, or the worker is let go, with a line to print where
/// something went wrong.
#[derive(Debug)]
pub enum LinkAction {
    Send,
    Read,
    PassOn,
    LetGo(Option<String>),
}

/// The workers after something has happened at the door.
pub open spec fn after_door<T>(workers: Map<Seq<char>, T>, event: DoorEvent<T>) -> Map<
    Seq<char>,
    T,
> {
    match event {
        DoorEvent::Introduced { addr, authentic: true, queue } => workers.insert(addr@, queue),
        _ => workers,
    }
}

/// Whether a worker is let go after an event.
pub open spec fn is_let_go(event: LinkEvent) -> bool {
    event is SendFailed || event is ReadFailed || event is Closed
}

/// The workers after something has happened to the one at `addr`.
pub open spec fn after_link<T>(
    workers: Map<Seq<char>, T>,
    addr: Seq<char>,
    event: LinkEvent,
) -> Map<Seq<char>, T> {
    if is_let_go(event) {
        workers.remove(addr)
    } else {
        workers
    }
}

/// What happens to a coordinator's workers: something at the door, or to the worker at an
/// address.
pub enum StaffEvent<T> {
    Door(DoorEvent<T>),
    Link { addr: Seq<char>, event: LinkEvent },
}

/// The workers after some events, where there were none at first.
pub open spec fn staff_after<T>(events: Seq<StaffEvent<T>>) -> Map<Seq<char>, T>
    decreases events.len(),
{
    if events.len() == 0 {
        Map::empty()
    } else {
        let before = staff_after(events.drop_last());
        match events.last() {
            StaffEvent::Door(event) => after_door(before, event),
            StaffEvent::Link { addr, event } => after_link(before, addr, event),
        }
    }
}

/// Whether an event is that the worker at `addr` was taken on, to be reached by `queue`.
pub open spec fn takes_on<T>(event: StaffEvent<T>, addr: Seq<char>, queue: T) -> bool {
    event matches StaffEvent::Door(
        DoorEvent::Introduced { addr: from, authentic, queue: given },
    ) && authentic && from@ == addr && given == queue
}

/// Whether an event is that the worker at `addr` was taken on anew or let go.
pub open spec fn concerns<T>(event: StaffEvent<T>, addr: Seq<char>) -> bool {
    match event {
        StaffEvent::Door(DoorEvent::Introduced { addr: from, authentic, .. }) => authentic && from@
            == addr,
        StaffEvent::Link { addr: to, event } => to == addr && is_let_go(event),
        _ => false,
    }
}

/// Whether the worker at `addr` was taken on with `queue` at `i`, and since then neither let
/// go nor taken on anew.
pub open spec fn serves_since<T>(
    events: Seq<StaffEvent<T>>,
    addr: Seq<char>,
    queue: T,
    i: int,
) -> bool {
    &&& 0 <= i < events.len()
    &&& takes_on(events[i], addr, queue)
    &&& forall|j: int| i < j < events.len() ==> !concerns(#[trigger] events[j], addr)
}

/// The workers are those that were taken on and not yet let go, each with what it takes to
/// reach it since it was last taken on; and no others.
#[verifier::rlimit(60)]
pub proof fn law_who_is_registered<T>(events: Seq<StaffEvent<T>>, addr: Seq<char>)
    ensures
        staff_after(events).contains_key(addr) <==> exists|queue: T, i: int| #[trigger]
            serves_since(events, addr, queue, i),
        staff_after(events).contains_key(addr) ==> exists|i: int| #[trigger]
            serves_since(events, addr, staff_after(events)[addr], i),
    decreases events.len(),
{
    if events.len() > 0 {
        let before = events.drop_last();
        let last = events.len() - 1;
        let event = events.last();
        law_who_is_registered(before, addr);
        if concerns(event, addr) {
            match event {
                StaffEvent::Door(DoorEvent::Introduced { queue, .. }) => {
                    assert(staff_after(events)[addr] == queue);
                    assert(serves_since(events, addr, queue, last));
                },
                _ => {
                    assert forall|queue: T, i: int| !(#[trigger] serves_since(
                        events,
                        addr,
                        queue,
                        i,
                    )) by {
                        if serves_since(events, addr, queue, i) {
                            if i < last {
                                assert(concerns(events[last], addr));
                            }
                        }
                    }
                },
            }
        } else {
            assert(staff_after(events).contains_key(addr) == staff_after(before).contains_key(
                addr,
            ));
            assert forall|queue: T, i: int| #[trigger]
                serves_since(events, addr, queue, i) == serves_since(before, addr, queue, i) by {
                if serves_since(before, addr, queue, i) {
                    assert(events[i] == before[i]);
                    assert forall|j: int| i < j < events.len() implies !concerns(
                        #[trigger] events[j],
                        addr,
                    ) by {
                        if j < last {
                            assert(events[j] == before[j]);
                        }
                    }
                }
                if serves_since(events, addr, queue, i) {
                    assert(i < last);
                    assert(events[i] == before[i]);
                    assert forall|j: int| i < j < before.len() implies !concerns(
                        #[trigger] before[j],
                        addr,
                    ) by {
                        assert(events[j] == before[j]);
                    }
                }
            }
            if staff_after(before).contains_key(addr) {
                let i = choose|i: int| #[trigger]
                    serves_since(before, addr, staff_after(before)[addr], i);
                assert(staff_after(events)[addr] == staff_after(before)[addr]);
                assert(serves_since(events, addr, staff_after(events)[addr], i));
            }
            if exists|queue: T, i: int| #[trigger] serves_since(events, addr, queue, i) {
                let (queue, i) = choose|queue: T, i: int| #[trigger]
                    serves_since(events, addr, queue, i);
                assert(serves_since(before, addr, queue, i));
            }
        }
    }
}

impl Miner {
    /// What is done about a connection: a worker that is taken on is entered among the
    /// workers.
    pub fn handle_new_connections<T>(workers: &mut Workers<T>, event: DoorEvent<T>) -> (out:
        DoorAction)
        ensures
            final(workers)@ == after_door(old(workers)@, event),
            match event {
                DoorEvent::Connected(addr) => {
                    &&& out is Authenticate
                    &&& out->Authenticate_0@ == "New connection from: "@ + addr@
                },
                DoorEvent::Introduced { addr, authentic, .. } => if authentic {
                    &&& out is TakeOn
                    &&& out->TakeOn_0@ == "Worker authenticated: "@ + addr@
                } else {
                    &&& out is Next
                    &&& out->Next_0@ == "Authentication failed for worker: "@ + addr@
                },
                DoorEvent::Failed(error) => {
                    &&& out is Next
                    &&& out->Next_0@ == "Failed to accept connection: "@ + error@
                },
            },
    {
        match event {
            DoorEvent::Connected(addr) => DoorAction::Authenticate(
                joined("New connection from: ", addr.as_str()),
            ),
            DoorEvent::Introduced { addr, authentic, queue } => if authentic {
                let line = joined("Worker authenticated: ", addr.as_str());
                workers.insert(addr, queue);
                DoorAction::TakeOn(line)
            } else {
                DoorAction::Next(joined("Authentication failed for worker: ", addr.as_str()))
            },
            DoorEvent::Failed(error) => DoorAction::Next(
                joined("Failed to accept connection: ", error.as_str()),
            ),
        }
    }

    /// What is done about the worker at `addr`, once it was taken on: one that is let go is
    /// removed from the workers.
    pub fn handle_worker<T>(workers: &mut Workers<T>, addr: &str, event: LinkEvent) -> (out:
        LinkAction)
        ensures
            final(workers)@ == after_link(old(workers)@, addr@, event),
            match event {
                LinkEvent::Request => out == LinkAction::Send,
                LinkEvent::Sent => out == LinkAction::Read,
                LinkEvent::SendFailed(error) => {
                    &&& out is LetGo
                    &&& out->LetGo_0 is Some
                    &&& out->LetGo_0->0@ == "Failed to send request to worker "@ + addr@ + ": "@
                        + error@
                },
                LinkEvent::ResultRead => out == LinkAction::PassOn,
                LinkEvent::ReadFailed(error) => {
                    &&& out is LetGo
                    &&& out->LetGo_0 is Some
                    &&& out->LetGo_0->0@ == "Failed to read result from worker "@ + addr@ + ": "@
                        + error@
                },
                LinkEvent::Closed => out == LinkAction::LetGo(None),
            },
    {
        match event {
            LinkEvent::Request => LinkAction::Send,
            LinkEvent::Sent => LinkAction::Read,
            LinkEvent::SendFailed(error) => {
                let mut line = joined3("Failed to send request to worker ", addr, ": ");
                line.append(error.as_str());
                workers.remove(addr);
                LinkAction::LetGo(Some(line))
            },
            LinkEvent::ResultRead => LinkAction::PassOn,
            LinkEvent::ReadFailed(error) => {
                let mut line = joined3("Failed to read result from worker ", addr, ": ");
                line.append(error.as_str());
                workers.remove(addr);
                LinkAction::LetGo(Some(line))
            },
            LinkEvent::Closed => {
                workers.remove(addr);
                LinkAction::LetGo(None)
            },
        }
    }

    /// What the coordinator says to a worker that introduces itself: it is believed
    /// where it names an address at all.
    pub fn authenticate_worker(request: &AuthRequest) -> (out: AuthResponse)
        ensures
            out.success == is_believed(request.pubkey@),
            out.message@ == if out.success {
                "Authentication successful"@
            } else {
                "Authentication failed"@
            },
    {
        let success: bool = request.pubkey.as_str().unicode_len() > 0;
        let message = if success {
            String::from_str("Authentication successful")
        } else {
            String::from_str("Authentication failed")
        };
        AuthResponse { success, message }
    }
}

/// Whether a worker that names `pubkey` is believed.
pub open spec fn is_believed(pubkey: Seq<char>) -> bool {
    pubkey.len() > 0
}

/// How the worker of `signer` introduces itself to a coordinator, which will believe it.
pub fn auth_request(signer: &[u8; 32]) -> (out: AuthRequest)
    ensures
        out.pubkey@ == base58(signer@),
        is_believed(out.pubkey@),
{
    proof {
        law_base58_of_an_address(signer@);
    }
    AuthRequest { pubkey: address_text(signer) }
}

/// What a worker is to do: the proof account to mine for, the seconds to mine, the
/// threads to use and the least difficulty to reach.
#[derive(Clone, Copy, Debug)]
pub struct Order {
    pub proof: Proof,
    pub cutoff_time: u64,
    pub threads: u64,
    pub min_difficulty: u32,
}

impl Order {
    /// The order of a request, with the line that a worker prints about it; or what is
    /// wrong with the addresses in the request. The least difficulty is that of the
    /// program's configuration, modulo 2^32.
    pub fn new(request: &WorkerRequest, threads: u64, config: &Config) -> (out: Result<
        (Order, String),
        AddressError,
    >)
        ensures
            match out {
                Ok((order, line)) => {
                    &&& request.proof.carries(order.proof)
                    &&& order.cutoff_time == request.cutoff_time
                    &&& order.threads == threads
                    &&& order.min_difficulty == config.min_difficulty % 0x1_0000_0000
                    &&& line@ == "Received new mining request. Cutoff time: "@ + decimal(
                        request.cutoff_time as nat,
                    ) + " seconds"@
                },
                Err(error) => match parsed_address(request.proof.authority@) {
                    Err(first) => error == first,
                    Ok(_) => parsed_address(request.proof.miner@) == Err::<Seq<u8>, AddressError>(
                        error,
                    ),
                },
            },
    {
        let proof = match request.proof.to_proof() {
            Ok(account) => account,
            Err(error) => {
                return Err(error);
            },
        };
        let order = Order {
            proof,
            cutoff_time: request.cutoff_time,
            threads,
            min_difficulty: (config.min_difficulty % 0x1_0000_0000) as u32,
        };
        let line = joined3(
            "Received new mining request. Cutoff time: ",
            decimal_text(request.cutoff_time as u128).as_str(),
            " seconds",
        );
        Ok((order, line))
    }
}

impl Order {
    /// What the cores are to do for the order: they share the nonces between the threads.
    pub fn job(&self) -> (out: MiningJob)
        ensures
            out.challenge == self.proof.challenge,
            out.cutoff_time == self.cutoff_time,
            out.cores == self.threads,
            out.min_difficulty == self.min_difficulty,
            out.core_offset == 0,
            out.total_cores == self.threads,
    {
        MiningJob {
            challenge: self.proof.challenge,
            cutoff_time: self.cutoff_time,
            cores: self.threads,
            min_difficulty: self.min_difficulty,
            core_offset: 0,
            total_cores: self.threads,
        }
    }
}

impl WorkerResult {
    /// What a worker sends back, with the line that it prints about it.
    pub fn new(difficulty: u32, solution: Solution) -> (out: (WorkerResult, String))
        ensures
            out.0.difficulty == difficulty,
            out.0.solution == solution,
            out.1@ == "Mining completed. Best difficulty: "@ + decimal(difficulty as nat),
    {
        let line = joined(
            "Mining completed. Best difficulty: ",
            decimal_text(difficulty as u128).as_str(),
        );
        (WorkerResult { difficulty, solution }, line)
    }
}

/// A proof account on its way holds every field of it unchanged, and the addresses as texts
/// that read as them.
pub proof fn law_fields_are_kept(text: SerializableProof, account: Proof)
    requires
        text.carries(account),
    ensures
        base58(account.authority@) == text.authority@,
        text.balance == account.balance,
        text.challenge == account.challenge,
        text.last_hash == account.last_hash,
        text.last_hash_at == account.last_hash_at,
        text.last_stake_at == account.last_stake_at,
        base58(account.miner@) == text.miner@,
        text.total_hashes == account.total_hashes,
        text.total_rewards == account.total_rewards,
{
    law_text_reads_back(text.authority@);
    law_text_reads_back(text.miner@);
}

/// Every proof account can be written down: what has all its fields, and its addresses in
/// base58, carries it.
pub proof fn law_every_account_travels(text: SerializableProof, account: Proof)
    requires
        text.authority@ == base58(account.authority@),
        text.balance == account.balance,
        text.challenge == account.challenge,
        text.last_hash == account.last_hash,
        text.last_hash_at == account.last_hash_at,
        text.last_stake_at == account.last_stake_at,
        text.miner@ == base58(account.miner@),
        text.total_hashes == account.total_hashes,
        text.total_rewards == account.total_rewards,
    ensures
        text.writes_down(account),
{
    law_address_reads_back(account.authority@);
    law_address_reads_back(account.miner@);
}

/// The best of the results is one of them; none is more difficult, and of those that are as
/// difficult it is the first. Adding a result changes the best only to that one, and only
/// where it is more difficult.
#[verifier::rlimit(60)]
pub proof fn law_best_result(results: Seq<WorkerResult>, best: WorkerResult, more: WorkerResult)
    requires
        is_best_result(results, best),
    ensures
        results.contains(best),
        forall|i: int|
            0 <= i < results.len() ==> (#[trigger] results[i]).difficulty <= best.difficulty,
        exists|i: int|
            0 <= i < results.len() && #[trigger] results[i] == best && forall|j: int|
                0 <= j < i ==> (#[trigger] results[j]).difficulty < best.difficulty,
        forall|next: WorkerResult| #[trigger]
            is_best_result(results.push(more), next) ==> next == if more.difficulty
                > best.difficulty {
                more
            } else {
                best
            },
{
    let i = choose|i: int|
        {
            &&& 0 <= i < results.len()
            &&& #[trigger] results[i] == best
            &&& forall|j: int| 0 <= j < i ==> (#[trigger] results[j]).difficulty < best.difficulty
        };
    assert(results[i] == best);
    let all = results.push(more);
    assert forall|next: WorkerResult| #[trigger] is_best_result(all, next) implies next
        == if more.difficulty > best.difficulty {
        more
    } else {
        best
    } by {
        let k = choose|k: int|
            {
                &&& 0 <= k < all.len()
                &&& #[trigger] all[k] == next
                &&& forall|j: int| 0 <= j < k ==> (#[trigger] all[j]).difficulty < next.difficulty
            };
        assert(all[i] == best);
        assert(all[all.len() - 1] == more);
        if k < results.len() {
            assert(results[k] == next);
            if k < i {
                assert(results[k].difficulty < best.difficulty);
            }
            if i < k {
                assert(all[i].difficulty < next.difficulty);
            }
        } else if more.difficulty <= best.difficulty {
            assert(all[i].difficulty < next.difficulty);
        }
    }
}

/// One round of a coordinator, from the proof account to the results: the workers are sent
/// that account and the time that is left, the coordinator waits just that long, and then
/// collects.
pub proof fn law_round_of_requests(
    signer: Seq<u8>,
    account: Proof,
    cutoff_time: u64,
    drawn: u32,
    phases: Seq<Phase>,
    actions: Seq<CoordinatorAction>,
)
    requires
        phases.len() == 5,
        actions.len() == 4,
        goes_on(
            signer,
            phases[0],
            CoordinatorEvent::Proof(account),
            drawn,
            phases[1],
            actions[0],
        ),
        goes_on(
            signer,
            phases[1],
            CoordinatorEvent::Cutoff(cutoff_time),
            drawn,
            phases[2],
            actions[1],
        ),
        goes_on(signer, phases[2], CoordinatorEvent::Broadcast, drawn, phases[3], actions[2]),
        goes_on(signer, phases[3], CoordinatorEvent::TimeOut, drawn, phases[4], actions[3]),
    ensures
        actions[0] == CoordinatorAction::FetchCutoff(account),
        actions[1] is Broadcast,
        actions[1]->Broadcast_0.cutoff_time == cutoff_time,
        actions[1]->Broadcast_0.proof.authority@ == base58(account.authority@),
        actions[1]->Broadcast_0.proof.challenge == account.challenge,
        actions[1]->Broadcast_0.proof.carries(account),
        actions[2] == CoordinatorAction::Wait(cutoff_time),
        actions[3] == CoordinatorAction::Collect,
        phases[4] == Phase::AwaitResults,
{
}

/// A coordinator without results submits nothing and begins a new round; one that has
/// submitted begins a new round too: it fetches the signer's own proof account.
pub proof fn law_new_round(
    signer: Seq<u8>,
    phase: Phase,
    results: Vec<WorkerResult>,
    drawn: u32,
    next: Phase,
    action: CoordinatorAction,
)
    requires
        (results@.len() == 0 && goes_on(
            signer,
            phase,
            CoordinatorEvent::Results(results),
            drawn,
            next,
            action,
        )) || goes_on(signer, phase, CoordinatorEvent::Delivered, drawn, next, action),
    ensures
        action is FetchProof,
        proof_address(signer) == Some(action->FetchProof_0@),
        next == Phase::AwaitProof,
{
}

/// Where there are results one is submitted, whatever its difficulty: the configuration is
/// fetched for it, and for nothing else.
pub proof fn law_results_lead_to_submission(
    signer: Seq<u8>,
    phase: Phase,
    results: Vec<WorkerResult>,
    drawn: u32,
    next: Phase,
    action: CoordinatorAction,
)
    requires
        results@.len() > 0,
        goes_on(signer, phase, CoordinatorEvent::Results(results), drawn, next, action),
    ensures
        action == CoordinatorAction::FetchConfig,
        next is AwaitConfig,
        exists|i: int|
            0 <= i < results@.len() && next == Phase::AwaitConfig(
                (#[trigger] results@[i]).solution,
            ),
{
    let best = choose|best: WorkerResult| #[trigger]
        is_best_result(results@, best) && next == Phase::AwaitConfig(best.solution);
    let i = choose|i: int| 0 <= i < results@.len() && #[trigger] results@[i] == best;
    assert(results@[i] == best);
}

/// A new epoch is begun along with a submission exactly where one is over and the lot fell on
/// zero; that is one instruction and a hundred thousand units more.
pub proof fn law_epochs_are_begun_by_lot(
    signer: Seq<u8>,
    solution: Solution,
    bus: [u8; 32],
    epoch_over: bool,
    drawn: u32,
    next: Phase,
    action: CoordinatorAction,
)
    requires
        goes_on(
            signer,
            Phase::AwaitConfig(solution),
            CoordinatorEvent::Config { bus, epoch_over },
            drawn,
            next,
            action,
        ),
    ensures
        action is Submit,
        next == Phase::AwaitDelivery,
        epoch_over && drawn == 0 ==> action->Submit_0.views().len() == 3
            && action->Submit_0.compute_budget == 600_000,
        !(epoch_over && drawn == 0) ==> action->Submit_0.views().len() == 2
            && action->Submit_0.compute_budget == 500_000,
        action->Submit_0.views()[0].data == proof_address(signer)->0,
        action->Submit_0.views().last().data == seq![2u8] + solution.d@ + solution.n@,
        action->Submit_0.views().last().accounts[0].pubkey == signer,
        action->Submit_0.views().last().accounts[1].pubkey == bus@,
        action->Submit_0.views().last().accounts[3].pubkey == proof_address(signer)->0,
{
    law_what_is_submitted(
        signer,
        proof_address(signer)->0,
        bus@,
        solution,
        begins_epoch(epoch_over, drawn),
    );
}

/// A coordinator waits for one kind of event at a time.
pub proof fn law_one_event_is_awaited(phase: Phase, a: CoordinatorEvent, b: CoordinatorEvent)
    ensures
        is_awaited(phase, a) && is_awaited(phase, b) ==> {
            &&& a is Proof <==> b is Proof
            &&& a is Cutoff <==> b is Cutoff
            &&& a is Broadcast <==> b is Broadcast
            &&& a is TimeOut <==> b is TimeOut
            &&& a is Results <==> b is Results
            &&& a is Config <==> b is Config
            &&& a is Delivered <==> b is Delivered
        },
        phase is AwaitProof && a is Proof ==> is_awaited(phase, a),
        phase is AwaitCutoff && a is Cutoff ==> is_awaited(phase, a),
        phase is AwaitBroadcast && a is Broadcast ==> is_awaited(phase, a),
        phase is AwaitTimeout && a is TimeOut ==> is_awaited(phase, a),
        phase is AwaitResults && a is Results ==> is_awaited(phase, a),
        phase is AwaitConfig && a is Config ==> is_awaited(phase, a),
        phase is AwaitDelivery && a is Delivered ==> is_awaited(phase, a),
{
}

/// A worker is believed where it names anything at all.
pub proof fn law_who_is_believed(pubkey: Seq<char>)
    ensures
        is_believed(pubkey) <==> pubkey.len() > 0,
{
}

/// A worker is let go where it cannot be reached or read, or there are no more requests for
/// it, and only then; nobody is taken on but who is authentic.
pub proof fn law_taking_on_and_letting_go<T>(
    workers: Map<Seq<char>, T>,
    addr: Seq<char>,
    link: LinkEvent,
    door: DoorEvent<T>,
)
    ensures
        is_let_go(link) <==> link is SendFailed || link is ReadFailed || link is Closed,
        after_link(workers, addr, link).contains_key(addr) <==> workers.contains_key(addr) && !(
        link is SendFailed || link is ReadFailed || link is Closed),
        forall|other: Seq<char>|
            other != addr ==> (#[trigger] after_link(workers, addr, link).contains_key(other)
                <==> workers.contains_key(other)),
        match door {
            DoorEvent::Introduced { addr: from, authentic, queue } => if authentic {
                &&& after_door(workers, door).contains_key(from@)
                &&& after_door(workers, door)[from@] == queue
                &&& forall|other: Seq<char>|
                    other != from@ ==> (#[trigger] after_door(workers, door).contains_key(other)
                        <==> workers.contains_key(other))
            } else {
                after_door(workers, door) == workers
            },
            _ => after_door(workers, door) == workers,
        },
{
}

/// A worker is found at its name, with what it takes to reach it, and nobody at another.
pub proof fn law_workers_by_name<T>(entries: Seq<(String, T)>, name: Seq<char>)
    requires
        names_differ(entries),
    ensures
        by_name(entries).contains_key(name) <==> exists|i: int|
            0 <= i < entries.len() && (#[trigger] entries[i]).0@ == name,
        forall|i: int|
            0 <= i < entries.len() && (#[trigger] entries[i]).0@ == name ==> by_name(entries)[name]
                == entries[i].1,
{
    assert forall|i: int| 0 <= i < entries.len() && (#[trigger] entries[i]).0@ == name implies by_name(
        entries,
    )[name] == entries[i].1 by {
        lemma_entry(entries, i);
    }
}

} // verus!
