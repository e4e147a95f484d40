use mineore::account::Config;
use mineore::drill::Solution;
use mineore::miner::Miner;
use mineore::pool::{
    invitation_code, worker_name, worker_name_of, AuthLog, AuthOutcome, AuthResponse,
    Findings, MiningJob, PoolAction, PoolEvent, PoolSession, RelayAction, RelayEvent,
    ServerMessage, StatusMessage, WorkerRequest, HEARTBEAT_INTERVAL,
};

const REQUEST: WorkerRequest = WorkerRequest {
    challenge: [3; 32],
    cutoff_time: 55,
    core_offset: 8,
    total_cores: 64,
    round_id: -7,
};

const FINDINGS: Findings = Findings {
    solution: Solution { d: [1; 16], n: [2; 8] },
    best_difficulty: 21,
    total_nonces: 1234,
};

fn shown(actions: &[PoolAction]) -> Vec<String> {
    actions.iter().map(|action| format!("{:?}", action)).collect()
}

fn printed(line: &str) -> String {
    format!("{:?}", PoolAction::Print(line.to_string()))
}

fn logged(line: &str) -> String {
    format!("{:?}", PoolAction::LogInfo(line.to_string()))
}

fn worker() -> Miner {
    Miner::new(Some("somebody".to_string()))
}

fn begin() -> PoolEvent {
    PoolEvent::Begin {
        cores_count: 16,
        worker_name: "rig".to_string(),
        invitation_code: "abc".to_string(),
    }
}

fn answer(success: bool) -> PoolEvent {
    let message = "so it is".to_string();
    PoolEvent::Answer(ServerMessage::AuthResponse(AuthResponse { success, message }))
}

fn accepted() -> PoolSession {
    let mut session = PoolSession::new();
    worker().work(&mut session, begin());
    worker().work(&mut session, answer(true));
    session
}

fn is_deed(action: &PoolAction) -> bool {
    matches!(
        action,
        PoolAction::Introduce(_)
            | PoolAction::SendHeartbeat { .. }
            | PoolAction::StartTask { .. }
            | PoolAction::SendResult(_)
    )
}

fn any_event(choice: u32) -> PoolEvent {
    match choice % 11 {
        0 | 1 => PoolEvent::Message(ServerMessage::WorkerRequest(REQUEST)),
        2 => PoolEvent::Message(ServerMessage::StopMining),
        3 => PoolEvent::Tick,
        4 => PoolEvent::Message(ServerMessage::Heartbeat),
        5 => begin(),
        6 => answer(true),
        7 => PoolEvent::TickFailed("gone".to_string()),
        8 => PoolEvent::ReplyFailed("gone".to_string()),
        9 => PoolEvent::Mined { number: 0, findings: FINDINGS },
        _ => PoolEvent::ResultSent(None),
    }
}

#[test]
fn introduction_comes_first() {
    let mut session = PoolSession::new();
    for choice in [0, 2, 3, 4, 6, 7, 8, 9, 10] {
        assert!(worker().work(&mut session, any_event(choice)).is_empty());
    }
    let actions = worker().work(&mut session, begin());
    assert_eq!(actions.len(), 3);
    assert_eq!(shown(&actions)[0], printed("Connected to coordinator"));
    match &actions[1] {
        PoolAction::Introduce(request) => {
            assert_eq!(request.pubkey, "somebody");
            assert_eq!(request.cores_count, 16);
            assert_eq!(request.worker_name, "rig");
            assert_eq!(request.invitation_code, "abc");
        }
        _ => panic!("the worker was to introduce itself"),
    }
    assert_eq!(shown(&actions)[2], printed("Sent authentication request to server"));
    for choice in [0, 2, 3, 4, 5, 7, 8, 9, 10] {
        assert!(worker().work(&mut session, any_event(choice)).is_empty());
    }
    let actions = worker().work(&mut session, answer(true));
    assert_eq!(
        shown(&actions),
        vec![logged("so it is"), printed("Authentication successful")]
    );
    assert!(is_deed(&worker().work(&mut session, PoolEvent::Tick)[0]));
}

#[test]
fn refused_worker_does_nothing() {
    let failed = printed("Authentication with server failed");
    let refused = format!("{:?}", PoolAction::LogError("so it is".to_string()));
    let other = PoolEvent::Answer(ServerMessage::Heartbeat);
    for (event, lines) in [
        (answer(false), vec![refused, failed.clone(), "Stop".to_string()]),
        (other, vec![failed, "Stop".to_string()]),
    ] {
        let mut session = PoolSession::new();
        worker().work(&mut session, begin());
        assert_eq!(shown(&worker().work(&mut session, event)), lines);
        for choice in 0..11 {
            assert!(worker().work(&mut session, any_event(choice)).is_empty());
        }
    }
}

#[test]
fn worker_without_an_address() {
    let nobody = Miner::new(None);
    let mut session = PoolSession::new();
    let actions = nobody.work(&mut session, begin());
    assert_eq!(
        shown(&actions),
        vec![
            printed("Connected to coordinator"),
            printed("No miner address specified"),
            printed("Authentication with server failed"),
            "Stop".to_string(),
        ]
    );
    for choice in 0..11 {
        assert!(nobody.work(&mut session, any_event(choice)).is_empty());
    }
}

#[test]
fn nothing_after_the_end() {
    let mut session = accepted();
    worker().work(&mut session, PoolEvent::TickFailed("gone".to_string()));
    for choice in 0..11 {
        assert!(worker().work(&mut session, any_event(choice)).is_empty());
    }
}

#[test]
fn tasks_are_asked_for() {
    let mut state = 7u32;
    for _ in 0..50 {
        let mut session = PoolSession::new();
        let mut asked = [0; 3];
        let mut started = [0; 3];
        for _ in 0..60 {
            state = state.wrapping_mul(1_664_525).wrapping_add(1_013_904_223);
            let round_id = (state >> 28) as i32 % 3;
            let event = if state >> 31 == 0 {
                asked[round_id as usize] += 1;
                let request = WorkerRequest { round_id, ..REQUEST };
                PoolEvent::Message(ServerMessage::WorkerRequest(request))
            } else {
                any_event(state >> 20)
            };
            if let PoolEvent::Message(ServerMessage::WorkerRequest(request)) = &event {
                if request.round_id == -7 {
                    continue;
                }
            }
            for action in worker().work(&mut session, event) {
                if let PoolAction::StartTask { request, .. } = action {
                    started[request.round_id as usize] += 1;
                }
            }
        }
        for round in 0..3 {
            assert!(started[round] <= asked[round]);
        }
    }
}

#[test]
fn heartbeats() {
    assert_eq!(HEARTBEAT_INTERVAL, 25);
    let mut session = accepted();
    let actions = worker().work(&mut session, PoolEvent::Tick);
    assert!(matches!(actions[..], [PoolAction::SendHeartbeat { reply: false }]));
    let actions = worker().work(&mut session, PoolEvent::Message(ServerMessage::Heartbeat));
    assert!(matches!(actions[..], [PoolAction::SendHeartbeat { reply: true }]));
}

#[test]
fn failed_heartbeats_stop_the_worker() {
    let mut session = accepted();
    let actions = worker().work(&mut session, PoolEvent::TickFailed("broken pipe".to_string()));
    let line = "Error sending heartbeat to server: broken pipe";
    assert_eq!(shown(&actions), vec![printed(line), "Stop".to_string()]);
    let mut session = accepted();
    let actions = worker().work(&mut session, PoolEvent::ReplyFailed("broken pipe".to_string()));
    let line = "Error sending heartbeat response to server: broken pipe";
    assert_eq!(shown(&actions), vec![printed(line), "Stop".to_string()]);
}

#[test]
fn requests_replace_one_another() {
    let line = "Received new mining request. Cutoff time: 55 seconds, core offset: 8, Total cores: 64";
    let mut session = accepted();
    let message = PoolEvent::Message(ServerMessage::WorkerRequest(REQUEST));
    let actions = worker().work(&mut session, message);
    assert_eq!(actions.len(), 2);
    assert_eq!(shown(&actions)[0], printed(line));
    match &actions[1] {
        PoolAction::StartTask { number, request } => {
            assert_eq!(*number, 0);
            assert_eq!(request.challenge, [3; 32]);
            assert_eq!(request.round_id, -7);
        }
        _ => panic!("a task was to be started"),
    }
    let message = PoolEvent::Message(ServerMessage::WorkerRequest(REQUEST));
    let actions = worker().work(&mut session, message);
    assert_eq!(actions.len(), 3);
    assert!(matches!(actions[1], PoolAction::AbortTask));
    assert!(matches!(actions[2], PoolAction::StartTask { number: 1, .. }));
}

#[test]
fn stop_mining() {
    let line = printed("Received stop mining command. Stopping mining process.");
    let mut session = accepted();
    let stop = || PoolEvent::Message(ServerMessage::StopMining);
    assert_eq!(shown(&worker().work(&mut session, stop())), vec![line.clone()]);
    worker().work(&mut session, PoolEvent::Message(ServerMessage::WorkerRequest(REQUEST)));
    let actions = worker().work(&mut session, stop());
    assert_eq!(shown(&actions), vec![line.clone(), "AbortTask".to_string()]);
    assert_eq!(shown(&worker().work(&mut session, stop())), vec![line]);
}

#[test]
fn never_more_than_one_task() {
    let mut session = accepted();
    let mut running = 0i32;
    let mut state = 1u32;
    for _ in 0..500 {
        state = state.wrapping_mul(1_664_525).wrapping_add(1_013_904_223);
        for action in worker().work(&mut session, any_event((state >> 24) % 7)) {
            match action {
                PoolAction::StartTask { .. } => running += 1,
                PoolAction::AbortTask => running -= 1,
                _ => {}
            }
            assert!(running == 0 || running == 1);
        }
    }
}

#[test]
fn status() {
    let mut session = accepted();
    let status = StatusMessage {
        pending_reward: 2_000_000_000,
        estimated_reward_per_hour: 150_000_000_000,
        average_hash_rate: "12.5".to_string(),
    };
    let actions = worker().work(&mut session, PoolEvent::Message(ServerMessage::Status(status)));
    assert_eq!(
        shown(&actions),
        vec![
            logged("Received status update:"),
            logged("Pending reward: 0.02 ORE"),
            logged("Estimated reward per hour: 1.5 ORE"),
            logged("Average weight in the network (hourly): 12.5 %"),
        ]
    );
}

#[test]
fn late_answers_are_ignored() {
    let mut session = accepted();
    let late = AuthResponse { success: false, message: String::new() };
    let message = PoolEvent::Message(ServerMessage::AuthResponse(late));
    assert!(worker().work(&mut session, message).is_empty());
    assert!(worker().work(&mut session, answer(false)).is_empty());
    assert!(is_deed(&worker().work(&mut session, PoolEvent::Tick)[0]));
}

#[test]
fn heartbeat_is_answered() {
    let heartbeat = RelayEvent::Received(ServerMessage::Heartbeat);
    let message = match Miner::handle_server_messages(heartbeat) {
        RelayAction::Forward(message) => message,
        _ => panic!("the heartbeat was to be passed on"),
    };
    let mut session = accepted();
    let actions = worker().work(&mut session, PoolEvent::Message(message));
    assert!(matches!(actions[..], [PoolAction::SendHeartbeat { reply: true }]));
    let actions = worker().work(&mut session, PoolEvent::ReplyFailed("gone".to_string()));
    assert!(matches!(actions[..], [PoolAction::Print(_), PoolAction::Stop]));
}

#[test]
fn relayed_messages() {
    let request = RelayEvent::Received(ServerMessage::WorkerRequest(REQUEST));
    match Miner::handle_server_messages(request) {
        RelayAction::Forward(ServerMessage::WorkerRequest(request)) => {
            assert_eq!(request.total_cores, 64)
        }
        _ => panic!("the request was to be passed on"),
    }
    assert!(matches!(
        Miner::handle_server_messages(RelayEvent::Received(ServerMessage::StopMining)),
        RelayAction::Forward(ServerMessage::StopMining)
    ));
    let status = StatusMessage {
        pending_reward: 1,
        estimated_reward_per_hour: 2,
        average_hash_rate: "3".to_string(),
    };
    assert!(matches!(
        Miner::handle_server_messages(RelayEvent::Received(ServerMessage::Status(status))),
        RelayAction::Forward(ServerMessage::Status(_))
    ));
}

#[test]
fn ignored_messages() {
    let late = AuthResponse { success: true, message: String::new() };
    assert!(matches!(
        Miner::handle_server_messages(RelayEvent::Received(ServerMessage::AuthResponse(late))),
        RelayAction::Ignore
    ));
}

#[test]
fn lost_connection() {
    match Miner::handle_server_messages(RelayEvent::Failed("early eof".to_string())) {
        RelayAction::Stop(line) => {
            assert_eq!(line, "Error receiving message from server: early eof")
        }
        _ => panic!("nothing more was to be waited for"),
    }
}

#[test]
fn mining_jobs() {
    let config = Config {
        base_reward_rate: 1,
        last_reset_at: 2,
        min_difficulty: (1u64 << 32) + 18,
        top_balance: 3,
    };
    let job = MiningJob::new(&REQUEST, 4, &config);
    assert_eq!(job.challenge, [3; 32]);
    assert_eq!(job.cutoff_time, 55);
    assert_eq!(job.cores, 4);
    assert_eq!(job.min_difficulty, 18);
    assert_eq!(job.core_offset, 8);
    assert_eq!(job.total_cores, 64);
}

#[test]
fn mining_results() {
    let (result, line) = Miner::perform_mining(&REQUEST, &FINDINGS);
    assert_eq!(line, "Mining completed. Best difficulty: 21, total nonces found: 1234");
    assert_eq!(result.difficulty, 21);
    assert_eq!(result.solution.d, [1; 16]);
    assert_eq!(result.solution.n, [2; 8]);
    assert_eq!(result.total_hashes, 1234);
    assert_eq!(result.worker_addr, "");
    assert_eq!(result.round_id, -7);
}

#[test]
fn one_result_per_task() {
    let mut session = accepted();
    let request = |round_id| {
        let request = WorkerRequest { round_id, ..REQUEST };
        PoolEvent::Message(ServerMessage::WorkerRequest(request))
    };
    let mined = |number| PoolEvent::Mined { number, findings: FINDINGS };
    assert!(worker().work(&mut session, mined(0)).is_empty());
    worker().work(&mut session, request(5));
    worker().work(&mut session, request(6));
    assert!(worker().work(&mut session, mined(0)).is_empty());
    let actions = worker().work(&mut session, mined(1));
    assert_eq!(actions.len(), 2);
    let line = "Mining completed. Best difficulty: 21, total nonces found: 1234";
    assert_eq!(shown(&actions)[0], printed(line));
    match &actions[1] {
        PoolAction::SendResult(result) => {
            assert_eq!((result.round_id, result.difficulty), (6, 21));
        }
        _ => panic!("the result was to be sent"),
    }
    assert!(worker().work(&mut session, mined(1)).is_empty());
    let actions = worker().work(&mut session, request(7));
    assert!(matches!(actions[2], PoolAction::StartTask { number: 2, .. }));
    worker().work(&mut session, PoolEvent::Message(ServerMessage::StopMining));
    assert!(worker().work(&mut session, mined(2)).is_empty());
}

#[test]
fn results_are_asked_for() {
    let mut state = 11u32;
    for _ in 0..50 {
        let mut session = accepted();
        let mut asked = [0; 3];
        let mut sent = [0; 3];
        for _ in 0..80 {
            state = state.wrapping_mul(1_664_525).wrapping_add(1_013_904_223);
            let round_id = (state >> 20) as i32 % 3;
            let event = match state >> 30 {
                0 => {
                    asked[round_id as usize] += 1;
                    let request = WorkerRequest { round_id, ..REQUEST };
                    PoolEvent::Message(ServerMessage::WorkerRequest(request))
                }
                1 => PoolEvent::Tick,
                _ => PoolEvent::Mined { number: (state >> 10) as u64 % 16, findings: FINDINGS },
            };
            for action in worker().work(&mut session, event) {
                if let PoolAction::SendResult(result) = action {
                    sent[result.round_id as usize] += 1;
                }
            }
            for round in 0..3 {
                assert!(sent[round] <= asked[round]);
            }
        }
    }
}

#[test]
fn lines_about_results() {
    let mut session = accepted();
    let sent = printed("Sent mining result to coordinator");
    let actions = worker().work(&mut session, PoolEvent::ResultSent(None));
    assert_eq!(shown(&actions), vec![sent.clone()]);
    let failed = PoolEvent::ResultSent(Some("broken pipe".to_string()));
    let line = printed("Error sending mining result to coordinator: broken pipe");
    assert_eq!(shown(&worker().work(&mut session, failed)), vec![line, sent]);
}

#[test]
fn worker_names() {
    assert_eq!(worker_name(Some("rig".to_string())), "rig");
    assert_eq!(worker_name_of(0), "Worker-0");
    assert_eq!(worker_name_of(999_999), "Worker-999999");
    let mut names = Vec::new();
    for _ in 0..20 {
        let name = worker_name(None);
        let drawn: u32 = name.strip_prefix("Worker-").unwrap().parse().unwrap();
        assert!(drawn < 1_000_000);
        names.push(name);
    }
    names.dedup();
    assert!(names.len() > 1);
}

#[test]
fn invitation_codes() {
    assert_eq!(invitation_code(Some("abc".to_string())), "abc");
    assert_eq!(invitation_code(None), "123456");
}

#[test]
fn introductions() {
    let request = worker().authenticate_with_server(16, "rig", "abc").unwrap();
    assert_eq!(request.pubkey, "somebody");
    assert_eq!(request.cores_count, 16);
    assert_eq!(request.worker_name, "rig");
    assert_eq!(request.invitation_code, "abc");
    let refused = Miner::new(None).authenticate_with_server(16, "rig", "abc");
    assert_eq!(refused.err(), Some("No miner address specified".to_string()));
}

#[test]
fn replies_to_introductions() {
    let reply = |success: bool| {
        let message = "so it is".to_string();
        AuthOutcome::of_reply(ServerMessage::AuthResponse(AuthResponse { success, message }))
    };
    let accepted = reply(true);
    assert!(accepted.accepted);
    assert!(matches!(accepted.log, AuthLog::Info(line) if line == "so it is"));
    let refused = reply(false);
    assert!(!refused.accepted);
    assert!(matches!(refused.log, AuthLog::Error(line) if line == "so it is"));
    for message in [ServerMessage::Heartbeat, ServerMessage::StopMining] {
        let outcome = AuthOutcome::of_reply(message);
        assert!(!outcome.accepted);
        assert!(matches!(outcome.log, AuthLog::Nothing));
    }
}
