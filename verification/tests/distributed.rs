use mineore::account::{Config, Proof};
use mineore::address::AddressError;
use mineore::distributed::{
    auth_request, best_result, AuthRequest, Coordinator, CoordinatorAction, CoordinatorEvent,
    DoorAction, DoorEvent, LinkAction, LinkEvent, Order, SerializableProof, WorkerRequest,
    WorkerResult, Workers,
};
use mineore::drill::Solution;
use mineore::instruction::Submission;
use mineore::miner::Miner;
use mineore::utils::proof_pubkey;
use solana_program::pubkey::Pubkey;

const SIGNER: [u8; 32] = [5; 32];

fn account() -> Proof {
    Proof {
        authority: SIGNER,
        balance: 11,
        challenge: [6; 32],
        last_hash: [7; 32],
        last_hash_at: 12,
        last_stake_at: -13,
        miner: [0; 32],
        total_hashes: 14,
        total_rewards: 15,
    }
}

fn result(difficulty: u32, mark: u8) -> WorkerResult {
    WorkerResult { difficulty, solution: Solution::new([mark; 16], [mark; 8]) }
}

fn fields(p: &Proof) -> ([u8; 32], u64, [u8; 32], [u8; 32], i64, i64, [u8; 32], u64, u64) {
    (
        p.authority,
        p.balance,
        p.challenge,
        p.last_hash,
        p.last_hash_at,
        p.last_stake_at,
        p.miner,
        p.total_hashes,
        p.total_rewards,
    )
}

#[test]
fn accounts_as_text() {
    let text = SerializableProof::from(&account());
    assert_eq!(text.authority, Pubkey::from(SIGNER).to_string());
    assert_eq!(text.miner, "11111111111111111111111111111111");
    assert_eq!(text.balance, 11);
    assert_eq!(text.challenge, [6; 32]);
    assert_eq!(text.last_hash, [7; 32]);
    assert_eq!(text.last_hash_at, 12);
    assert_eq!(text.last_stake_at, -13);
    assert_eq!(text.total_hashes, 14);
    assert_eq!(text.total_rewards, 15);
}

#[test]
fn accounts_arrive() {
    let text = SerializableProof::from(&account());
    assert_eq!(fields(&text.to_proof().unwrap()), fields(&account()));
}

#[test]
fn texts_arrive() {
    let text = SerializableProof::from(&account());
    let again = SerializableProof::from(&text.to_proof().unwrap());
    assert_eq!(again.authority, text.authority);
    assert_eq!(again.miner, text.miner);
    assert_eq!(again.challenge, text.challenge);
    assert_eq!(again.last_hash, text.last_hash);
    assert_eq!(
        (again.balance, again.last_hash_at, again.last_stake_at),
        (text.balance, text.last_hash_at, text.last_stake_at)
    );
    assert_eq!(
        (again.total_hashes, again.total_rewards),
        (text.total_hashes, text.total_rewards)
    );
}

#[test]
fn accounts_with_bad_addresses() {
    let mut text = SerializableProof::from(&account());
    text.miner = "0".to_string();
    assert_eq!(text.to_proof().err(), Some(AddressError::Invalid));
    text.authority = "abc".to_string();
    assert_eq!(text.to_proof().err(), Some(AddressError::WrongSize));
}

#[test]
fn best_results() {
    assert!(best_result(&vec![]).is_none());
    let best = best_result(&vec![result(0, 1)]).unwrap();
    assert_eq!(best.solution.d, [1; 16]);
    let results = vec![result(3, 1), result(9, 2), result(9, 3), result(8, 4)];
    let best = best_result(&results).unwrap();
    assert_eq!((best.difficulty, best.solution.d), (9, [2; 16]));
}

fn to_collection(coordinator: &mut Coordinator) {
    match Miner::coordinate(coordinator, CoordinatorEvent::Proof(account())) {
        Some(CoordinatorAction::FetchCutoff(seen)) => assert_eq!(fields(&seen), fields(&account())),
        _ => panic!("the cutoff was to be fetched"),
    }
    match Miner::coordinate(coordinator, CoordinatorEvent::Cutoff(42)) {
        Some(CoordinatorAction::Broadcast(request)) => {
            assert_eq!(request.cutoff_time, 42);
            assert_eq!(fields(&request.proof.to_proof().unwrap()), fields(&account()));
        }
        _ => panic!("a request was to be sent"),
    }
    assert!(matches!(
        Miner::coordinate(coordinator, CoordinatorEvent::Broadcast),
        Some(CoordinatorAction::Wait(42))
    ));
    assert!(matches!(
        Miner::coordinate(coordinator, CoordinatorEvent::TimeOut),
        Some(CoordinatorAction::Collect)
    ));
}

fn is_new_round(action: Option<CoordinatorAction>) -> bool {
    let expected = proof_pubkey(&SIGNER).unwrap();
    matches!(action, Some(CoordinatorAction::FetchProof(address)) if address == expected)
}

#[test]
fn round_of_a_coordinator() {
    let (mut coordinator, first) = Coordinator::new(SIGNER).unwrap();
    assert!(is_new_round(Some(first)));
    to_collection(&mut coordinator);
    let results = vec![result(3, 1), result(9, 2), result(9, 3)];
    assert!(matches!(
        Miner::coordinate(&mut coordinator, CoordinatorEvent::Results(results)),
        Some(CoordinatorAction::FetchConfig)
    ));
    let event = CoordinatorEvent::Config { bus: [8; 32], epoch_over: false };
    let submission = match Miner::coordinate(&mut coordinator, event) {
        Some(CoordinatorAction::Submit(submission)) => submission,
        _ => panic!("the best result was to be submitted"),
    };
    assert_eq!(submission.compute_budget, 500_000);
    let expected = Submission::new(&SIGNER, &[8; 32], &result(9, 2).solution, false).unwrap();
    assert_eq!(format!("{:?}", submission), format!("{:?}", expected));
    assert!(is_new_round(Miner::coordinate(&mut coordinator, CoordinatorEvent::Delivered)));
    to_collection(&mut coordinator);
}

#[test]
fn round_without_results() {
    let (mut coordinator, _) = Coordinator::new(SIGNER).unwrap();
    to_collection(&mut coordinator);
    assert!(is_new_round(Miner::coordinate(&mut coordinator, CoordinatorEvent::Results(vec![]))));
    to_collection(&mut coordinator);
}

#[test]
fn epochs_are_begun_by_lot() {
    for (epoch_over, drawn, budget) in [
        (true, 0, 600_000),
        (true, 1, 500_000),
        (true, 99, 500_000),
        (false, 0, 500_000),
    ] {
        let (mut coordinator, _) = Coordinator::new(SIGNER).unwrap();
        to_collection(&mut coordinator);
        coordinator.step(CoordinatorEvent::Results(vec![result(1, 1)]), drawn);
        let event = CoordinatorEvent::Config { bus: [8; 32], epoch_over };
        match coordinator.step(event, drawn) {
            Some(CoordinatorAction::Submit(submission)) => {
                assert_eq!(submission.compute_budget, budget);
                let count = if budget == 600_000 { 3 } else { 2 };
                assert_eq!(submission.instructions.len(), count);
            }
            _ => panic!("the result was to be submitted"),
        }
    }
}

#[test]
fn events_that_are_not_awaited() {
    let (mut coordinator, _) = Coordinator::new(SIGNER).unwrap();
    assert!(Miner::coordinate(&mut coordinator, CoordinatorEvent::TimeOut).is_none());
    assert!(Miner::coordinate(&mut coordinator, CoordinatorEvent::Results(vec![])).is_none());
    assert!(Miner::coordinate(&mut coordinator, CoordinatorEvent::Delivered).is_none());
    to_collection(&mut coordinator);
    assert!(Miner::coordinate(&mut coordinator, CoordinatorEvent::Broadcast).is_none());
    assert!(is_new_round(Miner::coordinate(&mut coordinator, CoordinatorEvent::Results(vec![]))));
}

#[test]
fn workers_by_name() {
    let mut workers: Workers<u32> = Workers::new();
    assert!(workers.all().is_empty());
    workers.insert("a".to_string(), 1);
    workers.insert("b".to_string(), 2);
    workers.insert("c".to_string(), 3);
    workers.insert("b".to_string(), 4);
    let mut seen = workers.all().clone();
    seen.sort();
    let expected = vec![("a".to_string(), 1), ("b".to_string(), 4), ("c".to_string(), 3)];
    assert_eq!(seen, expected);
    workers.remove("a");
    workers.remove("nobody");
    let mut seen = workers.all().clone();
    seen.sort();
    assert_eq!(seen, expected[1..].to_vec());
}

fn names(workers: &Workers<u32>) -> Vec<(String, u32)> {
    let mut names = workers.all().clone();
    names.sort();
    names
}

#[test]
fn connections() {
    let addr = || "10.0.0.1:99".to_string();
    let mut workers: Workers<u32> = Workers::new();
    match Miner::handle_new_connections(&mut workers, DoorEvent::Connected(addr())) {
        DoorAction::Authenticate(line) => assert_eq!(line, "New connection from: 10.0.0.1:99"),
        _ => panic!("the worker was to introduce itself"),
    }
    let event = DoorEvent::Introduced { addr: addr(), authentic: false, queue: 1 };
    match Miner::handle_new_connections(&mut workers, event) {
        DoorAction::Next(line) => {
            assert_eq!(line, "Authentication failed for worker: 10.0.0.1:99")
        }
        _ => panic!("the next worker was to be waited for"),
    }
    match Miner::handle_new_connections(&mut workers, DoorEvent::Failed("refused".to_string())) {
        DoorAction::Next(line) => assert_eq!(line, "Failed to accept connection: refused"),
        _ => panic!("the next worker was to be waited for"),
    }
    assert!(workers.all().is_empty());
    let event = DoorEvent::Introduced { addr: addr(), authentic: true, queue: 2 };
    match Miner::handle_new_connections(&mut workers, event) {
        DoorAction::TakeOn(line) => assert_eq!(line, "Worker authenticated: 10.0.0.1:99"),
        _ => panic!("the worker was to be taken on"),
    }
    assert_eq!(names(&workers), vec![(addr(), 2)]);
}

#[test]
fn links_to_workers() {
    let mut workers: Workers<u32> = Workers::new();
    let mut next = |event: LinkEvent| Miner::handle_worker(&mut workers, "10.0.0.1:99", event);
    assert!(matches!(next(LinkEvent::Request), LinkAction::Send));
    assert!(matches!(next(LinkEvent::Sent), LinkAction::Read));
    assert!(matches!(next(LinkEvent::ResultRead), LinkAction::PassOn));
    assert!(matches!(next(LinkEvent::Closed), LinkAction::LetGo(None)));
    match next(LinkEvent::SendFailed("gone".to_string())) {
        LinkAction::LetGo(Some(line)) => {
            assert_eq!(line, "Failed to send request to worker 10.0.0.1:99: gone")
        }
        _ => panic!("the worker was to be let go"),
    }
    match next(LinkEvent::ReadFailed("gone".to_string())) {
        LinkAction::LetGo(Some(line)) => {
            assert_eq!(line, "Failed to read result from worker 10.0.0.1:99: gone")
        }
        _ => panic!("the worker was to be let go"),
    }
}

#[test]
fn who_is_registered() {
    let mut workers: Workers<u32> = Workers::new();
    let mut expected: Vec<(String, u32)> = Vec::new();
    for (queue, addr) in ["a", "b", "c", "b"].into_iter().enumerate() {
        let (addr, queue) = (addr.to_string(), queue as u32);
        expected.retain(|entry| entry.0 != addr);
        expected.push((addr.clone(), queue));
        let event = DoorEvent::Introduced { addr, authentic: true, queue };
        Miner::handle_new_connections(&mut workers, event);
        expected.sort();
        assert_eq!(names(&workers), expected);
    }
    for event in [LinkEvent::Request, LinkEvent::Sent, LinkEvent::ResultRead] {
        Miner::handle_worker(&mut workers, "a", event);
        assert_eq!(names(&workers), expected);
    }
    let gone = || "gone".to_string();
    for (addr, event) in [
        ("a", LinkEvent::SendFailed(gone())),
        ("nobody", LinkEvent::Closed),
        ("c", LinkEvent::ReadFailed(gone())),
        ("b", LinkEvent::Closed),
    ] {
        Miner::handle_worker(&mut workers, addr, event);
        expected.retain(|entry| entry.0 != addr);
        assert_eq!(names(&workers), expected);
    }
    assert!(expected.is_empty());
}

#[test]
fn workers_introduce_themselves() {
    let request = auth_request(&SIGNER);
    assert_eq!(request.pubkey, Pubkey::from(SIGNER).to_string());
    let response = Miner::authenticate_worker(&request);
    assert!(response.success);
    assert_eq!(response.message, "Authentication successful");
    let response = Miner::authenticate_worker(&AuthRequest { pubkey: String::new() });
    assert!(!response.success);
    assert_eq!(response.message, "Authentication failed");
}

#[test]
fn orders() {
    let config = Config {
        base_reward_rate: 1,
        last_reset_at: 2,
        min_difficulty: (3u64 << 32) + 7,
        top_balance: 3,
    };
    let mut request =
        WorkerRequest { proof: SerializableProof::from(&account()), cutoff_time: 60 };
    let (order, line) = Order::new(&request, 8, &config).unwrap();
    assert_eq!(line, "Received new mining request. Cutoff time: 60 seconds");
    assert_eq!(fields(&order.proof), fields(&account()));
    assert_eq!(order.cutoff_time, 60);
    assert_eq!(order.threads, 8);
    assert_eq!(order.min_difficulty, 7);
    let job = order.job();
    assert_eq!(job.challenge, [6; 32]);
    assert_eq!((job.cutoff_time, job.cores, job.min_difficulty), (60, 8, 7));
    assert_eq!((job.core_offset, job.total_cores), (0, 8));
    request.proof.authority = "0".to_string();
    assert_eq!(Order::new(&request, 8, &config).err(), Some(AddressError::Invalid));
}

#[test]
fn results_of_workers() {
    let (sent, line) = WorkerResult::new(19, Solution::new([1; 16], [2; 8]));
    assert_eq!(line, "Mining completed. Best difficulty: 19");
    assert_eq!((sent.difficulty, sent.solution.d, sent.solution.n), (19, [1; 16], [2; 8]));
}
