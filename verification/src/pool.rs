//! The worker of a mining pool: the messages it exchanges with the pool's server,
//! and what it does about them.

use crate::account::Config;
use crate::amount::{amount_text, amount_u64_to_string};
use crate::bytes::{law_bytes_of_numbers, le_bytes, lemma_le_round_trip, pow256, u64_le};
use crate::chance::random_below;
use crate::drill::{attempt_difficulty, drill, leading_zeros, Solution};
use crate::miner::Miner;
use crate::search::{
    are_different_cores, are_reported, is_best_report, is_call, join_reports,
    law_best_of_all_cores, law_calls_share_no_nonce, summary, summary_line, total_count, Best,
    CoreReport, SearchView,
};
use crate::text::{decimal, decimal_text, joined, joined3, lemma_decimal_value};
use vstd::prelude::*;
use vstd::string::StringExecFns;

verus! {

/// How many seconds pass between two heartbeats of a worker.
pub const HEARTBEAT_INTERVAL: u64 = 25;

/// What a worker has found.
#[derive(Debug)]
pub struct WorkerResult {
    pub difficulty: u32,
    pub solution: Solution,
    pub total_hashes: u64,
    pub worker_addr: String,
    pub round_id: i32,
}

/// What a worker is to search.
#[derive(Clone, Copy, Debug)]
pub struct WorkerRequest {
    pub challenge: [u8; 32],
    pub cutoff_time: u64,
    pub core_offset: u64,
    pub total_cores: u64,
    pub round_id: i32,
}

/// How a worker introduces itself.
#[derive(Debug)]
pub struct AuthRequest {
    pub pubkey: String,
    pub cores_count: u64,
    pub worker_name: String,
    pub invitation_code: String,
}

/// What the server says to that.
#[derive(Debug)]
pub struct AuthResponse {
    pub success: bool,
    pub message: String,
}

/// How the miner is doing. The share of the network is the text of a percentage.
#[derive(Debug)]
pub struct StatusMessage {
    pub pending_reward: u64,
    pub estimated_reward_per_hour: u64,
    pub average_hash_rate: String,
}

/// A message of the server.
#[derive(Debug)]
pub enum ServerMessage {
    WorkerRequest(WorkerRequest),
    StopMining,
    Status(StatusMessage),
    AuthResponse(AuthResponse),
    Heartbeat,
}

/// A message of a worker.
#[derive(Debug)]
pub enum WorkerMessage {
    WorkerResult(WorkerResult),
    AuthRequest(AuthRequest),
    Heartbeat,
}

/// `AuthRequest`, with its texts as sequences.
pub struct AuthRequestView {
    pub pubkey: Seq<char>,
    pub cores_count: u64,
    pub worker_name: Seq<char>,
    pub invitation_code: Seq<char>,
}

impl View for AuthRequest {
    type V = AuthRequestView;

    open spec fn view(&self) -> AuthRequestView {
        AuthRequestView {
            pubkey: self.pubkey@,
            cores_count: self.cores_count,
            worker_name: self.worker_name@,
            invitation_code: self.invitation_code@,
        }
    }
}

/// `WorkerResult`, with its text as a sequence.
pub struct WorkerResultView {
    pub difficulty: u32,
    pub solution: Solution,
    pub total_hashes: u64,
    pub worker_addr: Seq<char>,
    pub round_id: i32,
}

impl View for WorkerResult {
    type V = WorkerResultView;

    open spec fn view(&self) -> WorkerResultView {
        WorkerResultView {
            difficulty: self.difficulty,
            solution: self.solution,
            total_hashes: self.total_hashes,
            worker_addr: self.worker_addr@,
            round_id: self.round_id,
        }
    }
}

/// The mining task that a worker has: none; one that runs, with the number that it was
/// given and the request that it is for; or one that has come to its end.
#[derive(Clone, Copy, Debug)]
pub enum Task {
    Absent,
    Running { number: u64, request: WorkerRequest },
    Finished,
}

/// How far a worker is: it has connected to the server; it has introduced itself; it was
/// accepted, and has a mining task or not, the next of which will have number `next`; or it
/// is over, with a task left behind or not.
#[derive(Clone, Copy, Debug)]
pub enum PoolPhase {
    Connected,
    Introduced,
    Working { task: Task, next: u64 },
    Over { task_held: bool },
}

/// What happens to a worker: it is to introduce itself, and is answered; it is time for a
/// heartbeat, or one could not be sent; a message has come, or the answer to a heartbeat
/// could not be sent; the cores are done with a mining task; its result was sent, or could
/// not be. The texts of failures are those of the errors.
#[derive(Debug)]
pub enum PoolEvent {
    Begin { cores_count: u64, worker_name: String, invitation_code: String },
    Answer(ServerMessage),
    Tick,
    TickFailed(String),
    Message(ServerMessage),
    ReplyFailed(String),
    Mined { number: u64, findings: Findings },
    ResultSent(Option<String>),
}

/// What a worker does: it prints or logs a line, introduces itself, aborts the mining task
/// or starts one, sends its result, sends a heartbeat of its own or in reply to one, or
/// stops.
#[derive(Debug)]
pub enum PoolAction {
    Print(String),
    LogInfo(String),
    LogError(String),
    Introduce(AuthRequest),
    AbortTask,
    StartTask { number: u64, request: WorkerRequest },
    SendResult(WorkerResult),
    SendHeartbeat { reply: bool },
    Stop,
}

/// `PoolAction`, with its texts as sequences.
pub enum PoolActionView {
    Print(Seq<char>),
    LogInfo(Seq<char>),
    LogError(Seq<char>),
    Introduce(AuthRequestView),
    AbortTask,
    StartTask { number: u64, request: WorkerRequest },
    SendResult(WorkerResultView),
    SendHeartbeat { reply: bool },
    Stop,
}

impl View for PoolAction {
    type V = PoolActionView;

    open spec fn view(&self) -> PoolActionView {
        match self {
            PoolAction::Print(line) => PoolActionView::Print(line@),
            PoolAction::LogInfo(line) => PoolActionView::LogInfo(line@),
            PoolAction::LogError(line) => PoolActionView::LogError(line@),
            PoolAction::Introduce(request) => PoolActionView::Introduce(request@),
            PoolAction::AbortTask => PoolActionView::AbortTask,
            PoolAction::StartTask { number, request } => PoolActionView::StartTask {
                number: *number,
                request: *request,
            },
            PoolAction::SendResult(result) => PoolActionView::SendResult(result@),
            PoolAction::SendHeartbeat { reply } => PoolActionView::SendHeartbeat { reply: *reply },
            PoolAction::Stop => PoolActionView::Stop,
        }
    }
}

/// The views of some actions.
pub open spec fn views(actions: Seq<PoolAction>) -> Seq<PoolActionView> {
    actions.map_values(|action: PoolAction| action@)
}

/// The text of a miner's address, where it has one.
pub open spec fn address_of(miner: Miner) -> Option<Seq<char>> {
    match miner.address {
        Some(address) => Some(address@),
        None => None,
    }
}

/// What a worker does first: it introduces itself, or gives up where it has no address.
pub open spec fn introduction(
    address: Option<Seq<char>>,
    cores_count: u64,
    worker_name: Seq<char>,
    invitation_code: Seq<char>,
) -> Seq<PoolActionView> {
    match address {
        Some(pubkey) => seq![
            PoolActionView::Print("Connected to coordinator"@),
            PoolActionView::Introduce(
                AuthRequestView { pubkey, cores_count, worker_name, invitation_code },
            ),
            PoolActionView::Print("Sent authentication request to server"@),
        ],
        None => seq![
            PoolActionView::Print("Connected to coordinator"@),
            PoolActionView::Print("No miner address specified"@),
            PoolActionView::Print("Authentication with server failed"@),
            PoolActionView::Stop,
        ],
    }
}

/// Whether the server accepts a worker that has introduced itself.
pub open spec fn is_accepting(answer: ServerMessage) -> bool {
    answer matches ServerMessage::AuthResponse(response) && response.success
}

/// What a worker does about the server's answer.
pub open spec fn on_answer(answer: ServerMessage) -> Seq<PoolActionView> {
    match answer {
        ServerMessage::AuthResponse(response) => if response.success {
            seq![
                PoolActionView::LogInfo(response.message@),
                PoolActionView::Print("Authentication successful"@),
            ]
        } else {
            seq![
                PoolActionView::LogError(response.message@),
                PoolActionView::Print("Authentication with server failed"@),
                PoolActionView::Stop,
            ]
        },
        _ => seq![
            PoolActionView::Print("Authentication with server failed"@),
            PoolActionView::Stop,
        ],
    }
}

/// The line about a new request.
pub open spec fn request_line(request: WorkerRequest) -> Seq<char> {
    "Received new mining request. Cutoff time: "@ + decimal(request.cutoff_time as nat)
        + " seconds, core offset: "@ + decimal(request.core_offset as nat) + ", Total cores: "@
        + decimal(request.total_cores as nat)
}

/// The lines about the miner's status.
pub open spec fn status_lines(status: StatusMessage) -> Seq<PoolActionView> {
    seq![
        PoolActionView::LogInfo("Received status update:"@),
        PoolActionView::LogInfo(
            "Pending reward: "@ + amount_text(status.pending_reward) + " ORE"@,
        ),
        PoolActionView::LogInfo(
            "Estimated reward per hour: "@ + amount_text(status.estimated_reward_per_hour)
                + " ORE"@,
        ),
        PoolActionView::LogInfo(
            "Average weight in the network (hourly): "@ + status.average_hash_rate@ + " %"@,
        ),
    ]
}

/// The abortion of the mining task, where there is one.
pub open spec fn abortion(task: Task) -> Seq<PoolActionView> {
    if task is Absent {
        Seq::empty()
    } else {
        seq![PoolActionView::AbortTask]
    }
}

/// What an accepted worker does about a message, where the next task has number `next`.
pub open spec fn on_message(task: Task, next: u64, message: ServerMessage) -> Seq<
    PoolActionView,
> {
    match message {
        ServerMessage::WorkerRequest(request) => seq![
            PoolActionView::Print(request_line(request)),
        ] + abortion(task) + seq![PoolActionView::StartTask { number: next, request }],
        ServerMessage::StopMining => seq![
            PoolActionView::Print("Received stop mining command. Stopping mining process."@),
        ] + abortion(task),
        ServerMessage::Status(status) => status_lines(status),
        ServerMessage::Heartbeat => seq![PoolActionView::SendHeartbeat { reply: true }],
        ServerMessage::AuthResponse(_) => Seq::empty(),
    }
}

/// Whether a task runs under this number.
pub open spec fn is_running(task: Task, number: u64) -> bool {
    task matches Task::Running { number: running, .. } && running == number
}

/// The line about what the cores have found.
pub open spec fn findings_line(findings: Findings) -> Seq<char> {
    "Mining completed. Best difficulty: "@ + decimal(findings.best_difficulty as nat)
        + ", total nonces found: "@ + decimal(findings.total_nonces as nat)
}

/// What a worker sends back for a request for which its cores have found `findings`.
pub open spec fn result_of(request: WorkerRequest, findings: Findings) -> WorkerResultView {
    WorkerResultView {
        difficulty: findings.best_difficulty,
        solution: findings.solution,
        total_hashes: findings.total_nonces,
        worker_addr: Seq::empty(),
        round_id: request.round_id,
    }
}

/// What an accepted worker does once its cores are done with the task of that number:
/// nothing where that task does not run any more.
pub open spec fn on_mined(task: Task, number: u64, findings: Findings) -> Seq<PoolActionView> {
    if is_running(task, number) {
        seq![
            PoolActionView::Print(findings_line(findings)),
            PoolActionView::SendResult(result_of(task->request, findings)),
        ]
    } else {
        Seq::empty()
    }
}

/// What an accepted worker prints once a result was sent, or could not be.
pub open spec fn on_result_sent(error: Option<String>) -> Seq<PoolActionView> {
    match error {
        Some(error) => seq![
            PoolActionView::Print("Error sending mining result to coordinator: "@ + error@),
            PoolActionView::Print("Sent mining result to coordinator"@),
        ],
        None => seq![PoolActionView::Print("Sent mining result to coordinator"@)],
    }
}

/// The number after this one; after the greatest comes zero.
pub open spec fn number_after(number: u64) -> u64 {
    if number == u64::MAX {
        0
    } else {
        (number + 1) as u64
    }
}

/// What a worker with this address does about an event: nothing where the event has no
/// place in the phase.
pub open spec fn actions_on(
    address: Option<Seq<char>>,
    phase: PoolPhase,
    event: PoolEvent,
) -> Seq<PoolActionView> {
    match phase {
        PoolPhase::Connected => match event {
            PoolEvent::Begin { cores_count, worker_name, invitation_code } => introduction(
                address,
                cores_count,
                worker_name@,
                invitation_code@,
            ),
            _ => Seq::empty(),
        },
        PoolPhase::Introduced => match event {
            PoolEvent::Answer(answer) => on_answer(answer),
            _ => Seq::empty(),
        },
        PoolPhase::Working { task, next } => match event {
            PoolEvent::Tick => seq![PoolActionView::SendHeartbeat { reply: false }],
            PoolEvent::TickFailed(error) => seq![
                PoolActionView::Print("Error sending heartbeat to server: "@ + error@),
                PoolActionView::Stop,
            ],
            PoolEvent::Message(message) => on_message(task, next, message),
            PoolEvent::ReplyFailed(error) => seq![
                PoolActionView::Print("Error sending heartbeat response to server: "@ + error@),
                PoolActionView::Stop,
            ],
            PoolEvent::Mined { number, findings } => on_mined(task, number, findings),
            PoolEvent::ResultSent(error) => on_result_sent(error),
            _ => Seq::empty(),
        },
        PoolPhase::Over { .. } => Seq::empty(),
    }
}

/// The mining task that an accepted worker has after a message.
pub open spec fn task_after(task: Task, next: u64, message: ServerMessage) -> Task {
    match message {
        ServerMessage::WorkerRequest(request) => Task::Running { number: next, request },
        ServerMessage::StopMining => Task::Absent,
        _ => task,
    }
}

/// How far a worker is after an event.
pub open spec fn phase_after(
    address: Option<Seq<char>>,
    phase: PoolPhase,
    event: PoolEvent,
) -> PoolPhase {
    match phase {
        PoolPhase::Connected => match event {
            PoolEvent::Begin { .. } => if address is Some {
                PoolPhase::Introduced
            } else {
                PoolPhase::Over { task_held: false }
            },
            _ => phase,
        },
        PoolPhase::Introduced => match event {
            PoolEvent::Answer(answer) => if is_accepting(answer) {
                PoolPhase::Working { task: Task::Absent, next: 0 }
            } else {
                PoolPhase::Over { task_held: false }
            },
            _ => phase,
        },
        PoolPhase::Working { task, next } => match event {
            PoolEvent::TickFailed(_) => PoolPhase::Over { task_held: !(task is Absent) },
            PoolEvent::ReplyFailed(_) => PoolPhase::Over { task_held: !(task is Absent) },
            PoolEvent::Message(message) => PoolPhase::Working {
                task: task_after(task, next, message),
                next: if message is WorkerRequest {
                    number_after(next)
                } else {
                    next
                },
            },
            PoolEvent::Mined { number, .. } => PoolPhase::Working {
                task: if is_running(task, number) {
                    Task::Finished
                } else {
                    task
                },
                next,
            },
            _ => phase,
        },
        PoolPhase::Over { .. } => phase,
    }
}

/// The session of a worker with the pool's server, from the connection on.
#[derive(Debug)]
pub struct PoolSession {
    phase: PoolPhase,
}

impl PoolSession {
    /// How far the worker is.
    pub closed spec fn phase(self) -> PoolPhase {
        self.phase
    }

    /// The session of a worker that has just connected.
    pub fn new() -> (out: PoolSession)
        ensures
            out.phase() == PoolPhase::Connected,
    {
        PoolSession { phase: PoolPhase::Connected }
    }
}

impl Miner {
    /// What a worker does about an event.
    pub fn work(&self, session: &mut PoolSession, event: PoolEvent) -> (out: Vec<PoolAction>)
        ensures
            views(out@) == actions_on(address_of(*self), old(session).phase(), event),
            final(session).phase() == phase_after(address_of(*self), old(session).phase(), event),
    {
        match session.phase {
            PoolPhase::Connected => match event {
                PoolEvent::Begin { cores_count, worker_name, invitation_code } => self.begin(
                    session,
                    cores_count,
                    worker_name.as_str(),
                    invitation_code.as_str(),
                ),
                _ => no_actions(),
            },
            PoolPhase::Introduced => match event {
                PoolEvent::Answer(answer) => session.take_answer(answer),
                _ => no_actions(),
            },
            PoolPhase::Working { task, next } => match event {
                PoolEvent::Tick => {
                    let mut out: Vec<PoolAction> = Vec::new();
                    out.push(PoolAction::SendHeartbeat { reply: false });
                    assert(views(out@) =~= seq![PoolActionView::SendHeartbeat { reply: false }]);
                    out
                },
                PoolEvent::TickFailed(error) => {
                    session.phase = PoolPhase::Over { task_held: !matches!(task, Task::Absent) };
                    give_up(joined("Error sending heartbeat to server: ", error.as_str()))
                },
                PoolEvent::Message(message) => session.take_message(task, next, message),
                PoolEvent::ReplyFailed(error) => {
                    session.phase = PoolPhase::Over { task_held: !matches!(task, Task::Absent) };
                    give_up(joined("Error sending heartbeat response to server: ", error.as_str()))
                },
                PoolEvent::Mined { number, findings } => session.take_findings(
                    task,
                    next,
                    number,
                    findings,
                ),
                PoolEvent::ResultSent(error) => result_lines(error),
                _ => no_actions(),
            },
            PoolPhase::Over { .. } => no_actions(),
        }
    }

    /// The introduction of a worker that has just connected.
    fn begin(
        &self,
        session: &mut PoolSession,
        cores_count: u64,
        worker_name: &str,
        invitation_code: &str,
    ) -> (out: Vec<PoolAction>)
        ensures
            views(out@) == introduction(
                address_of(*self),
                cores_count,
                worker_name@,
                invitation_code@,
            ),
            final(session).phase() == if self.address is Some {
                PoolPhase::Introduced
            } else {
                PoolPhase::Over { task_held: false }
            },
    {
        let mut out: Vec<PoolAction> = Vec::new();
        out.push(PoolAction::Print(String::from_str("Connected to coordinator")));
        match self.authenticate_with_server(cores_count, worker_name, invitation_code) {
            Ok(request) => {
                out.push(PoolAction::Introduce(request));
                out.push(PoolAction::Print(String::from_str("Sent authentication request to server")));
                session.phase = PoolPhase::Introduced;
            },
            Err(line) => {
                out.push(PoolAction::Print(line));
                out.push(PoolAction::Print(String::from_str("Authentication with server failed")));
                out.push(PoolAction::Stop);
                session.phase = PoolPhase::Over { task_held: false };
            },
        }
        assert(views(out@) =~= introduction(
            address_of(*self),
            cores_count,
            worker_name@,
            invitation_code@,
        ));
        out
    }
}

impl PoolSession {
    /// The server's answer to the introduction.
    fn take_answer(&mut self, answer: ServerMessage) -> (out: Vec<PoolAction>)
        ensures
            views(out@) == on_answer(answer),
            final(self).phase() == if is_accepting(answer) {
                PoolPhase::Working { task: Task::Absent, next: 0 }
            } else {
                PoolPhase::Over { task_held: false }
            },
    {
        let ghost given = answer;
        let outcome = AuthOutcome::of_reply(answer);
        let mut out: Vec<PoolAction> = Vec::new();
        match outcome.log {
            AuthLog::Nothing => {},
            AuthLog::Info(message) => {
                out.push(PoolAction::LogInfo(message));
            },
            AuthLog::Error(message) => {
                out.push(PoolAction::LogError(message));
            },
        }
        if outcome.accepted {
            out.push(PoolAction::Print(String::from_str("Authentication successful")));
            self.phase = PoolPhase::Working { task: Task::Absent, next: 0 };
        } else {
            out.push(PoolAction::Print(String::from_str("Authentication with server failed")));
            out.push(PoolAction::Stop);
            self.phase = PoolPhase::Over { task_held: false };
        }
        assert(views(out@) =~= on_answer(given));
        out
    }

    /// A message for an accepted worker.
    fn take_message(&mut self, task: Task, next: u64, message: ServerMessage) -> (out: Vec<
        PoolAction,
    >)
        requires
            old(self).phase() == (PoolPhase::Working { task, next }),
        ensures
            views(out@) == on_message(task, next, message),
            final(self).phase() == (PoolPhase::Working {
                task: task_after(task, next, message),
                next: if message is WorkerRequest {
                    number_after(next)
                } else {
                    next
                },
            }),
    {
        let held: bool = !matches!(task, Task::Absent);
        let mut out: Vec<PoolAction> = Vec::new();
        match message {
            ServerMessage::WorkerRequest(request) => {
                let mut text = joined3(
                    "Received new mining request. Cutoff time: ",
                    decimal_text(request.cutoff_time as u128).as_str(),
                    " seconds, core offset: ",
                );
                text.append(decimal_text(request.core_offset as u128).as_str());
                text.append(", Total cores: ");
                text.append(decimal_text(request.total_cores as u128).as_str());
                out.push(PoolAction::Print(text));
                if held {
                    out.push(PoolAction::AbortTask);
                }
                out.push(PoolAction::StartTask { number: next, request });
                self.phase = PoolPhase::Working {
                    task: Task::Running { number: next, request },
                    next: if next == u64::MAX {
                        0
                    } else {
                        next + 1
                    },
                };
            },
            ServerMessage::StopMining => {
                out.push(
                    PoolAction::Print(
                        String::from_str("Received stop mining command. Stopping mining process."),
                    ),
                );
                if held {
                    out.push(PoolAction::AbortTask);
                }
                self.phase = PoolPhase::Working { task: Task::Absent, next };
            },
            ServerMessage::Status(status) => {
                out.push(PoolAction::LogInfo(String::from_str("Received status update:")));
                out.push(
                    PoolAction::LogInfo(
                        joined3(
                            "Pending reward: ",
                            amount_u64_to_string(status.pending_reward).as_str(),
                            " ORE",
                        ),
                    ),
                );
                out.push(
                    PoolAction::LogInfo(
                        joined3(
                            "Estimated reward per hour: ",
                            amount_u64_to_string(status.estimated_reward_per_hour).as_str(),
                            " ORE",
                        ),
                    ),
                );
                out.push(
                    PoolAction::LogInfo(
                        joined3(
                            "Average weight in the network (hourly): ",
                            status.average_hash_rate.as_str(),
                            " %",
                        ),
                    ),
                );
            },
            ServerMessage::Heartbeat => {
                out.push(PoolAction::SendHeartbeat { reply: true });
            },
            ServerMessage::AuthResponse(_) => {},
        }
        assert(views(out@) =~= on_message(task, next, message));
        out
    }

    /// What the cores have found for the task of that number.
    fn take_findings(&mut self, task: Task, next: u64, number: u64, findings: Findings) -> (out:
        Vec<PoolAction>)
        requires
            old(self).phase() == (PoolPhase::Working { task, next }),
        ensures
            views(out@) == on_mined(task, number, findings),
            final(self).phase() == (PoolPhase::Working {
                task: if is_running(task, number) {
                    Task::Finished
                } else {
                    task
                },
                next,
            }),
    {
        let mut out: Vec<PoolAction> = Vec::new();
        if let Task::Running { number: running, request } = task {
            if running == number {
                let (result, line) = Miner::perform_mining(&request, &findings);
                out.push(PoolAction::Print(line));
                out.push(PoolAction::SendResult(result));
                self.phase = PoolPhase::Working { task: Task::Finished, next };
            }
        }
        assert(views(out@) =~= on_mined(task, number, findings));
        out
    }
}

/// The lines printed once a result was sent, or could not be.
fn result_lines(error: Option<String>) -> (out: Vec<PoolAction>)
    ensures
        views(out@) == on_result_sent(error),
{
    let ghost given = error;
    let mut out: Vec<PoolAction> = Vec::new();
    if let Some(error) = error {
        out.push(
            PoolAction::Print(
                joined("Error sending mining result to coordinator: ", error.as_str()),
            ),
        );
    }
    out.push(PoolAction::Print(String::from_str("Sent mining result to coordinator")));
    assert(views(out@) =~= on_result_sent(given));
    out
}

/// Nothing to do.
fn no_actions() -> (out: Vec<PoolAction>)
    ensures
        views(out@) == Seq::<PoolActionView>::empty(),
{
    let out: Vec<PoolAction> = Vec::new();
    assert(views(out@) =~= Seq::<PoolActionView>::empty());
    out
}

/// A line to print before stopping.
fn give_up(line: String) -> (out: Vec<PoolAction>)
    ensures
        views(out@) == seq![PoolActionView::Print(line@), PoolActionView::Stop],
{
    let mut out: Vec<PoolAction> = Vec::new();
    out.push(PoolAction::Print(line));
    out.push(PoolAction::Stop);
    assert(views(out@) =~= seq![PoolActionView::Print(line@), PoolActionView::Stop]);
    out
}

/// What comes of waiting for a message of the server: a message, or an error.
#[derive(Debug)]
pub enum RelayEvent {
    Received(ServerMessage),
    Failed(String),
}

/// What is done about it: the message is passed on or ignored, or a line is printed
/// and nothing more is waited for.
#[derive(Debug)]
pub enum RelayAction {
    Forward(ServerMessage),
    Ignore,
    Stop(String),
}

/// Whether a message is passed on to the worker: requests, stops, status and heartbeats,
/// but no answer to an introduction.
pub open spec fn is_relayed(message: ServerMessage) -> bool {
    match message {
        ServerMessage::WorkerRequest(_) => true,
        ServerMessage::StopMining => true,
        ServerMessage::Status(_) => true,
        ServerMessage::Heartbeat => true,
        ServerMessage::AuthResponse(_) => false,
    }
}

impl Miner {
    /// What is done about a message of the server, or the lack of one.
    pub fn handle_server_messages(event: RelayEvent) -> (out: RelayAction)
        ensures
            event matches RelayEvent::Received(message) && !(message is AuthResponse) ==> out
                == RelayAction::Forward(event->Received_0),
            match event {
                RelayEvent::Received(message) => if is_relayed(message) {
                    out == RelayAction::Forward(message)
                } else {
                    out == RelayAction::Ignore
                },
                RelayEvent::Failed(error) => {
                    &&& out is Stop
                    &&& out->Stop_0@ == "Error receiving message from server: "@ + error@
                },
            },
    {
        match event {
            RelayEvent::Received(message) => match message {
                ServerMessage::WorkerRequest(request) => RelayAction::Forward(
                    ServerMessage::WorkerRequest(request),
                ),
                ServerMessage::StopMining => RelayAction::Forward(ServerMessage::StopMining),
                ServerMessage::Status(status) => RelayAction::Forward(ServerMessage::Status(status)),
                ServerMessage::Heartbeat => RelayAction::Forward(ServerMessage::Heartbeat),
                ServerMessage::AuthResponse(_) => RelayAction::Ignore,
            },
            RelayEvent::Failed(error) => RelayAction::Stop(
                joined("Error receiving message from server: ", error.as_str()),
            ),
        }
    }
}

/// What the cores are to do for a request.
#[derive(Clone, Copy, Debug)]
pub struct MiningJob {
    pub challenge: [u8; 32],
    pub cutoff_time: u64,
    pub cores: u64,
    pub min_difficulty: u32,
    pub core_offset: u64,
    pub total_cores: u64,
}

impl MiningJob {
    /// The job of a request, for a worker with so many cores. The least difficulty
    /// is that of the program's configuration, modulo 2^32.
    pub fn new(request: &WorkerRequest, cores: u64, config: &Config) -> (out: MiningJob)
        ensures
            out.challenge == request.challenge,
            out.cutoff_time == request.cutoff_time,
            out.cores == cores,
            out.min_difficulty == config.min_difficulty % 0x1_0000_0000,
            out.core_offset == request.core_offset,
            out.total_cores == request.total_cores,
    {
        MiningJob {
            challenge: request.challenge,
            cutoff_time: request.cutoff_time,
            cores,
            min_difficulty: (config.min_difficulty % 0x1_0000_0000) as u32,
            core_offset: request.core_offset,
            total_cores: request.total_cores,
        }
    }
}

impl Miner {
    /// What a worker sends back for a request, once the cores are done, and the line it
    /// prints about it.
    pub fn perform_mining(
        request: &WorkerRequest,
        findings: &Findings,
    ) -> (out: (WorkerResult, String))
        ensures
            out.0@ == result_of(*request, *findings),
            out.1@ == findings_line(*findings),
    {
        let result = WorkerResult {
            difficulty: findings.best_difficulty,
            solution: findings.solution,
            total_hashes: findings.total_nonces,
            worker_addr: String::new(),
            round_id: request.round_id,
        };
        let mut line = joined3(
            "Mining completed. Best difficulty: ",
            decimal_text(findings.best_difficulty as u128).as_str(),
            ", total nonces found: ",
        );
        line.append(decimal_text(findings.total_nonces as u128).as_str());
        (result, line)
    }
}

/// The name of a worker that was given none, for a number drawn by lot.
pub open spec fn drawn_name(drawn: u32) -> Seq<char> {
    "Worker-"@ + decimal(drawn as nat)
}

/// The name of a worker that was given none, for a number drawn by lot.
pub fn worker_name_of(drawn: u32) -> (out: String)
    ensures
        out@ == drawn_name(drawn),
{
    joined("Worker-", decimal_text(drawn as u128).as_str())
}

/// The name that the worker was given, or else one with a number below a million
/// drawn by lot.
pub fn worker_name(given: Option<String>) -> (out: String)
    ensures
        match given {
            Some(name) => out == name,
            None => exists|drawn: u32| drawn < 1_000_000 && out@ == #[trigger] drawn_name(drawn),
        },
{
    match given {
        Some(name) => name,
        None => worker_name_of(random_below(1_000_000)),
    }
}

/// The invitation code that was given, or else the usual one.
pub fn invitation_code(given: Option<String>) -> (out: String)
    ensures
        match given {
            Some(code) => out == code,
            None => out@ == "123456"@,
        },
{
    match given {
        Some(code) => code,
        None => String::from_str("123456"),
    }
}

impl Miner {
    /// How the worker introduces itself to the server; a line to print where the
    /// miner has no address.
    pub fn authenticate_with_server(
        &self,
        cores_count: u64,
        worker_name: &str,
        invitation_code: &str,
    ) -> (out: Result<AuthRequest, String>)
        ensures
            match out {
                Ok(request) => {
                    &&& self.address is Some
                    &&& request.pubkey@ == self.address->0@
                    &&& request.cores_count == cores_count
                    &&& request.worker_name@ == worker_name@
                    &&& request.invitation_code@ == invitation_code@
                },
                Err(line) => self.address is None && line@ == "No miner address specified"@,
            },
    {
        match &self.address {
            Some(address) => Ok(
                AuthRequest {
                    pubkey: String::from_str(address.as_str()),
                    cores_count,
                    worker_name: String::from_str(worker_name),
                    invitation_code: String::from_str(invitation_code),
                },
            ),
            None => Err(String::from_str("No miner address specified")),
        }
    }

    /// What the cores have found together, from what each of them brought back, and the
    /// line printed about it.
    pub fn find_hash_par_worker(reports: &Vec<Option<CoreReport>>) -> (out: (Findings, String))
        requires
            total_count(reports@) <= u64::MAX,
        ensures
            exists|best: Best|
                {
                    &&& #[trigger] is_best_report(reports@, best)
                    &&& out.0.is_of(best)
                    &&& out.1@ == summary_line(best)
                },
            out.0.total_nonces == total_count(reports@),
    {
        let joint = join_reports(reports);
        let best = joint.best;
        let findings = Findings {
            solution: Solution::new(best.hash.d, u64_le(best.nonce)),
            best_difficulty: best.difficulty,
            total_nonces: joint.count,
        };
        let line = summary(&best);
        assert(is_best_report(reports@, best) && findings.is_of(best));
        (findings, line)
    }
}

/// What the cores have found together: the best solution, its difficulty, and the nonces
/// counted by all of them.
#[derive(Clone, Copy, Debug)]
pub struct Findings {
    pub solution: Solution,
    pub best_difficulty: u32,
    pub total_nonces: u64,
}

impl Findings {
    /// Whether the solution is that of `best`.
    pub open spec fn is_of(self, best: Best) -> bool {
        &&& self.solution.d == best.hash.d
        &&& self.solution.n@ == le_bytes(best.nonce as nat, 8)
        &&& self.best_difficulty == best.difficulty
    }
}

/// A solution with any difficulty is genuine: drillx gives its digest for its nonce, with
/// a hash of that difficulty; and no nonce that was tried is more difficult.
pub proof fn law_solution_is_genuine(
    searches: Seq<SearchView>,
    reports: Seq<Option<CoreReport>>,
    challenge: Seq<u8>,
    best: Best,
    findings: Findings,
)
    requires
        are_reported(searches, reports, challenge),
        is_best_report(reports, best),
        findings.is_of(best),
    ensures
        findings.best_difficulty > 0 ==> match drill(challenge, findings.solution.n@) {
            Some((digest, hash)) => {
                &&& digest == findings.solution.d@
                &&& leading_zeros(hash) == findings.best_difficulty
            },
            None => false,
        },
        forall|i: int, n: u64|
            0 <= i < searches.len() && reports[i] is Some && (#[trigger] searches[i]).tried(n) ==> (
            #[trigger] attempt_difficulty(challenge, n)) <= findings.best_difficulty,
{
    law_best_of_all_cores(searches, reports, challenge, best);
}

/// The outcome of introducing oneself: whether the server has accepted it, and what
/// is to be logged.
#[derive(Debug)]
pub struct AuthOutcome {
    pub accepted: bool,
    pub log: AuthLog,
}

/// What is to be logged of it.
#[derive(Debug)]
pub enum AuthLog {
    Nothing,
    Info(String),
    Error(String),
}

impl AuthOutcome {
    /// The outcome of the server's reply: its message is logged, as an error where
    /// the server refuses. A reply of another kind is a refusal without a word.
    pub fn of_reply(reply: ServerMessage) -> (out: AuthOutcome)
        ensures
            match reply {
                ServerMessage::AuthResponse(response) => {
                    &&& out.accepted == response.success
                    &&& out.log == if response.success {
                        AuthLog::Info(response.message)
                    } else {
                        AuthLog::Error(response.message)
                    }
                },
                _ => !out.accepted && out.log == AuthLog::Nothing,
            },
    {
        match reply {
            ServerMessage::AuthResponse(response) => if response.success {
                AuthOutcome { accepted: true, log: AuthLog::Info(response.message) }
            } else {
                AuthOutcome { accepted: false, log: AuthLog::Error(response.message) }
            },
            _ => AuthOutcome { accepted: false, log: AuthLog::Nothing },
        }
    }
}

/// How far a worker is after some events.
pub open spec fn phase_after_all(
    address: Option<Seq<char>>,
    phase: PoolPhase,
    events: Seq<PoolEvent>,
) -> PoolPhase
    decreases events.len(),
{
    if events.len() == 0 {
        phase
    } else {
        phase_after(address, phase_after_all(address, phase, events.drop_last()), events.last())
    }
}

/// What a worker does about some events, one after the other.
pub open spec fn actions_on_all(
    address: Option<Seq<char>>,
    phase: PoolPhase,
    events: Seq<PoolEvent>,
) -> Seq<PoolActionView>
    decreases events.len(),
{
    if events.len() == 0 {
        Seq::empty()
    } else {
        actions_on_all(address, phase, events.drop_last()) + actions_on(
            address,
            phase_after_all(address, phase, events.drop_last()),
            events.last(),
        )
    }
}

/// All that a worker has done since it connected.
pub open spec fn session_actions(
    address: Option<Seq<char>>,
    events: Seq<PoolEvent>,
) -> Seq<PoolActionView> {
    actions_on_all(address, PoolPhase::Connected, events)
}

/// How far a worker is since it connected.
pub open spec fn session_phase(address: Option<Seq<char>>, events: Seq<PoolEvent>) -> PoolPhase {
    phase_after_all(address, PoolPhase::Connected, events)
}

/// A heartbeat of the server is passed on to the worker, which answers it; where the answer
/// cannot be sent, the worker stops.
pub proof fn law_heartbeat_is_answered(
    address: Option<Seq<char>>,
    task: Task,
    next: u64,
    error: String,
)
    ensures
        is_relayed(ServerMessage::Heartbeat),
        actions_on(
            address,
            PoolPhase::Working { task, next },
            PoolEvent::Message(ServerMessage::Heartbeat),
        ) == seq![PoolActionView::SendHeartbeat { reply: true }],
        actions_on(
            address,
            PoolPhase::Working { task, next },
            PoolEvent::ReplyFailed(error),
        ).last() == PoolActionView::Stop,
        phase_after(
            address,
            PoolPhase::Working { task, next },
            PoolEvent::ReplyFailed(error),
        ) is Over,
{
}

/// Whether an event is the server's acceptance.
pub open spec fn is_acceptance(event: PoolEvent) -> bool {
    event matches PoolEvent::Answer(answer) && is_accepting(answer)
}

/// Whether an action sends something or sets the cores to work.
pub open spec fn is_deed(action: PoolActionView) -> bool {
    ||| action is Introduce
    ||| action is SendHeartbeat
    ||| action is StartTask
    ||| action is SendResult
}

/// How many times a worker introduces itself.
pub open spec fn introductions(actions: Seq<PoolActionView>) -> nat
    decreases actions.len(),
{
    if actions.len() == 0 {
        0
    } else {
        introductions(actions.drop_last()) + if actions.last() is Introduce {
            1nat
        } else {
            0
        }
    }
}

proof fn lemma_introductions_concat(a: Seq<PoolActionView>, b: Seq<PoolActionView>)
    ensures
        introductions(a + b) == introductions(a) + introductions(b),
    decreases b.len(),
{
    if b.len() == 0 {
        assert(a + b =~= a);
    } else {
        lemma_introductions_concat(a, b.drop_last());
        assert((a + b).drop_last() =~= a + b.drop_last());
    }
}

/// Actions none of which is an introduction.
proof fn lemma_no_introduction(actions: Seq<PoolActionView>)
    requires
        forall|i: int| 0 <= i < actions.len() ==> !((#[trigger] actions[i]) is Introduce),
    ensures
        introductions(actions) == 0,
    decreases actions.len(),
{
    if actions.len() > 0 {
        lemma_no_introduction(actions.drop_last());
    }
}

/// Only the introduction is sent before the server accepts the worker, and only once: no
/// heartbeat, no result, and no mining.
pub proof fn law_only_introduction_before_acceptance(
    address: Option<Seq<char>>,
    events: Seq<PoolEvent>,
)
    requires
        forall|i: int| 0 <= i < events.len() ==> !is_acceptance(#[trigger] events[i]),
    ensures
        forall|i: int|
            0 <= i < session_actions(address, events).len() && is_deed(
                #[trigger] session_actions(address, events)[i],
            ) ==> session_actions(address, events)[i] is Introduce && address == Some(
                session_actions(address, events)[i]->Introduce_0.pubkey,
            ),
        introductions(session_actions(address, events)) <= 1,
        !(session_phase(address, events) is Working),
        session_phase(address, events) is Connected ==> introductions(
            session_actions(address, events),
        ) == 0,
    decreases events.len(),
{
    if events.len() > 0 {
        let before = events.drop_last();
        let event = events.last();
        law_only_introduction_before_acceptance(address, before);
        assert(!is_acceptance(event));
        let phase = session_phase(address, before);
        let done = session_actions(address, before);
        let last = actions_on(address, phase, event);
        lemma_introductions_concat(done, last);
        if phase is Connected && event is Begin && address is Some {
            reveal_with_fuel(introductions, 4);
            assert(last.drop_last() =~= last.take(2));
            assert(last.take(2).drop_last() =~= last.take(1));
            assert(last.take(1).drop_last() =~= last.take(0));
        } else {
            lemma_no_introduction(last);
        }
        let all = session_actions(address, events);
        assert(all == done + last);
        assert forall|i: int| 0 <= i < all.len() && is_deed(#[trigger] all[i]) implies all[i]
            is Introduce && address == Some(all[i]->Introduce_0.pubkey) by {
            if i < done.len() {
                assert(all[i] == done[i]);
            } else {
                assert(all[i] == last[i - done.len()]);
            }
        }
    }
}

/// The introduction is the first thing that a worker sends: whatever it sends or starts, it
/// has introduced itself by then.
pub proof fn law_introduction_comes_first(
    address: Option<Seq<char>>,
    events: Seq<PoolEvent>,
    i: int,
)
    requires
        0 <= i < session_actions(address, events).len(),
        is_deed(session_actions(address, events)[i]),
    ensures
        exists|j: int|
            0 <= j <= i && (#[trigger] session_actions(address, events)[j]) is Introduce,
    decreases events.len(),
{
    if events.len() > 0 {
        let before = events.drop_last();
        let phase = session_phase(address, before);
        let done = session_actions(address, before);
        let last = actions_on(address, phase, events.last());
        let all = session_actions(address, events);
        assert(all == done + last);
        if i < done.len() {
            assert(all[i] == done[i]);
            law_introduction_comes_first(address, before, i);
            let j = choose|j: int| 0 <= j <= i && (#[trigger] done[j]) is Introduce;
            assert(all[j] == done[j]);
        } else {
            assert(all[i] == last[i - done.len()]);
            if phase is Working {
                let j = lemma_working_was_introduced(address, before);
                assert(all[j] == done[j]);
            } else {
                assert(all[i] is Introduce);
            }
        }
    }
}

/// A worker that is at work, or waits for the answer, has introduced itself.
proof fn lemma_working_was_introduced(address: Option<Seq<char>>, events: Seq<PoolEvent>) -> (j:
    int)
    requires
        session_phase(address, events) is Working || session_phase(address, events) is Introduced,
    ensures
        0 <= j < session_actions(address, events).len(),
        session_actions(address, events)[j] is Introduce,
    decreases events.len(),
{
    let before = events.drop_last();
    let phase = session_phase(address, before);
    let done = session_actions(address, before);
    let last = actions_on(address, phase, events.last());
    let all = session_actions(address, events);
    assert(all == done + last);
    if phase is Connected {
        assert(all[done.len() as int + 1] == last[1]);
        done.len() as int + 1
    } else {
        let j = lemma_working_was_introduced(address, before);
        assert(all[j] == done[j]);
        j
    }
}

/// Nothing is done once the session is over: by refusal, for want of an address, or for a
/// heartbeat that could not be sent.
pub proof fn law_nothing_after_the_end(
    address: Option<Seq<char>>,
    phase: PoolPhase,
    events: Seq<PoolEvent>,
)
    requires
        phase is Over,
    ensures
        actions_on_all(address, phase, events).len() == 0,
        phase_after_all(address, phase, events) == phase,
    decreases events.len(),
{
    if events.len() > 0 {
        law_nothing_after_the_end(address, phase, events.drop_last());
    }
}

/// A refused worker is done for: the answer that refuses it, or is none, ends the session
/// with nothing but lines to print and log.
pub proof fn law_refused_worker_stops(
    address: Option<Seq<char>>,
    answer: ServerMessage,
    i: int,
)
    requires
        !is_accepting(answer),
        0 <= i < actions_on(address, PoolPhase::Introduced, PoolEvent::Answer(answer)).len(),
    ensures
        !is_deed(actions_on(address, PoolPhase::Introduced, PoolEvent::Answer(answer))[i]),
        actions_on(address, PoolPhase::Introduced, PoolEvent::Answer(answer)).last()
            == PoolActionView::Stop,
        phase_after(address, PoolPhase::Introduced, PoolEvent::Answer(answer)) is Over,
{
}

/// By how many the actions change the number of mining tasks that run.
pub open spec fn tasks_added(actions: Seq<PoolActionView>) -> int
    decreases actions.len(),
{
    if actions.len() == 0 {
        0
    } else {
        tasks_added(actions.drop_last()) + match actions.last() {
            PoolActionView::StartTask { .. } => 1,
            PoolActionView::AbortTask => -1,
            _ => 0int,
        }
    }
}

/// One for a mining task, zero for none.
pub open spec fn tasks_held(phase: PoolPhase) -> int {
    match phase {
        PoolPhase::Working { task, .. } => if task is Absent {
            0
        } else {
            1
        },
        PoolPhase::Over { task_held: true } => 1,
        _ => 0,
    }
}

proof fn lemma_tasks_added_concat(a: Seq<PoolActionView>, b: Seq<PoolActionView>)
    ensures
        tasks_added(a + b) == tasks_added(a) + tasks_added(b),
    decreases b.len(),
{
    if b.len() == 0 {
        assert(a + b =~= a);
    } else {
        lemma_tasks_added_concat(a, b.drop_last());
        assert((a + b).drop_last() =~= a + b.drop_last());
    }
}

/// One event keeps the number of mining tasks at zero or one, at every moment.
#[verifier::rlimit(60)]
proof fn lemma_one_event(
    address: Option<Seq<char>>,
    phase: PoolPhase,
    event: PoolEvent,
    i: int,
)
    requires
        0 <= i <= actions_on(address, phase, event).len(),
    ensures
        0 <= tasks_held(phase) + tasks_added(actions_on(address, phase, event).take(i)) <= 1,
        i == actions_on(address, phase, event).len() ==> tasks_held(phase) + tasks_added(
            actions_on(address, phase, event).take(i),
        ) == tasks_held(phase_after(address, phase, event)),
{
    reveal_with_fuel(tasks_added, 5);
    let actions = actions_on(address, phase, event);
    let done = actions.take(i);
    if i > 0 {
        assert(done.drop_last() =~= actions.take(i - 1));
    }
    if i > 1 {
        assert(done.drop_last().drop_last() =~= actions.take(i - 2));
    }
    if i > 2 {
        assert(done.drop_last().drop_last().drop_last() =~= actions.take(i - 3));
    }
    if i > 3 {
        assert(done.drop_last().drop_last().drop_last().drop_last() =~= actions.take(i - 4));
    }
}

/// A worker never has more than one mining task: whatever happens, every task that
/// it starts finds the one before it aborted, and it only aborts what it has started.
pub proof fn law_one_task_at_most(address: Option<Seq<char>>, events: Seq<PoolEvent>, i: int)
    requires
        0 <= i <= session_actions(address, events).len(),
    ensures
        0 <= tasks_added(session_actions(address, events).take(i)) <= 1,
        tasks_added(session_actions(address, events)) == tasks_held(
            session_phase(address, events),
        ),
    decreases events.len(),
{
    let all = session_actions(address, events);
    if events.len() > 0 {
        let before = events.drop_last();
        let done = session_actions(address, before);
        let phase = session_phase(address, before);
        let last = actions_on(address, phase, events.last());
        law_one_task_at_most(address, before, if i <= done.len() { i } else { 0 });
        lemma_tasks_added_concat(done, last);
        lemma_one_event(address, phase, events.last(), last.len() as int);
        assert(last.take(last.len() as int) =~= last);
        if i <= done.len() {
            assert(all.take(i) =~= done.take(i));
        } else {
            let j = i - done.len();
            assert(all.take(i) =~= done + last.take(j));
            lemma_tasks_added_concat(done, last.take(j));
            lemma_one_event(address, phase, events.last(), j);
        }
    }
}

/// A worker that is told to stop mining while it is at work has no mining task left.
pub proof fn law_stop_mining(address: Option<Seq<char>>, events: Seq<PoolEvent>)
    requires
        events.len() > 0,
        session_phase(address, events.drop_last()) is Working,
        events.last() == PoolEvent::Message(ServerMessage::StopMining),
    ensures
        tasks_added(session_actions(address, events)) == 0,
{
    law_one_task_at_most(address, events, 0);
}

/// A worker at work stops only where a heartbeat could not be sent.
pub proof fn law_stops_on_failure_only(
    address: Option<Seq<char>>,
    task: Task,
    next: u64,
    event: PoolEvent,
)
    ensures
        actions_on(address, PoolPhase::Working { task, next }, event).contains(
            PoolActionView::Stop,
        ) <==> event is TickFailed || event is ReplyFailed,
{
    let actions = actions_on(address, PoolPhase::Working { task, next }, event);
    match event {
        PoolEvent::TickFailed(_) => {
            assert(actions[1] is Stop);
        },
        PoolEvent::ReplyFailed(_) => {
            assert(actions[1] is Stop);
        },
        _ => {},
    }
}

/// The requests that have come, in order.
pub open spec fn requests_in(events: Seq<PoolEvent>) -> Seq<WorkerRequest>
    decreases events.len(),
{
    if events.len() == 0 {
        Seq::empty()
    } else {
        match events.last() {
            PoolEvent::Message(ServerMessage::WorkerRequest(request)) => requests_in(
                events.drop_last(),
            ).push(request),
            _ => requests_in(events.drop_last()),
        }
    }
}

/// The requests for which mining tasks were started, in order.
pub open spec fn tasks_in(actions: Seq<PoolActionView>) -> Seq<WorkerRequest>
    decreases actions.len(),
{
    if actions.len() == 0 {
        Seq::empty()
    } else {
        match actions.last() {
            PoolActionView::StartTask { request, .. } => tasks_in(actions.drop_last()).push(
                request,
            ),
            _ => tasks_in(actions.drop_last()),
        }
    }
}

/// How many of the requests `counts` picks out.
pub open spec fn how_many(
    requests: Seq<WorkerRequest>,
    counts: spec_fn(WorkerRequest) -> bool,
) -> nat
    decreases requests.len(),
{
    if requests.len() == 0 {
        0
    } else {
        how_many(requests.drop_last(), counts) + if counts(requests.last()) {
            1nat
        } else {
            0
        }
    }
}

proof fn lemma_tasks_in_concat(a: Seq<PoolActionView>, b: Seq<PoolActionView>)
    ensures
        tasks_in(a + b) == tasks_in(a) + tasks_in(b),
    decreases b.len(),
{
    if b.len() == 0 {
        assert(a + b =~= a);
        assert(tasks_in(a) + tasks_in(b) =~= tasks_in(a));
    } else {
        lemma_tasks_in_concat(a, b.drop_last());
        assert((a + b).drop_last() =~= a + b.drop_last());
        assert(tasks_in(a + b) =~= tasks_in(a) + tasks_in(b));
    }
}

/// The tasks started on one event: one for a request that an accepted worker gets, else
/// none.
#[verifier::rlimit(60)]
proof fn lemma_tasks_of_event(address: Option<Seq<char>>, phase: PoolPhase, event: PoolEvent)
    ensures
        tasks_in(actions_on(address, phase, event)) == if phase is Working {
            match event {
                PoolEvent::Message(ServerMessage::WorkerRequest(request)) => seq![request],
                _ => Seq::empty(),
            }
        } else {
            Seq::empty()
        },
{
    reveal_with_fuel(tasks_in, 5);
    let actions = actions_on(address, phase, event);
    let n = actions.len() as int;
    if n > 0 {
        assert(actions.drop_last() =~= actions.take(n - 1));
    }
    if n > 1 {
        assert(actions.take(n - 1).drop_last() =~= actions.take(n - 2));
    }
    if n > 2 {
        assert(actions.take(n - 2).drop_last() =~= actions.take(n - 3));
    }
    if n > 3 {
        assert(actions.take(n - 3).drop_last() =~= actions.take(n - 4));
    }
}

/// No task is started unasked: however requests are counted, as many of them have come as
/// tasks were started for, or more.
pub proof fn law_tasks_are_asked_for(
    address: Option<Seq<char>>,
    events: Seq<PoolEvent>,
    counts: spec_fn(WorkerRequest) -> bool,
)
    ensures
        how_many(tasks_in(session_actions(address, events)), counts) <= how_many(
            requests_in(events),
            counts,
        ),
    decreases events.len(),
{
    if events.len() > 0 {
        let before = events.drop_last();
        let event = events.last();
        let phase = session_phase(address, before);
        let done = session_actions(address, before);
        law_tasks_are_asked_for(address, before, counts);
        lemma_tasks_in_concat(done, actions_on(address, phase, event));
        lemma_tasks_of_event(address, phase, event);
        let tasks = tasks_in(session_actions(address, events));
        match event {
            PoolEvent::Message(ServerMessage::WorkerRequest(request)) => {
                assert(requests_in(events).drop_last() =~= requests_in(before));
                if phase is Working {
                    assert(tasks =~= tasks_in(done).push(request));
                    assert(tasks.drop_last() =~= tasks_in(done));
                } else {
                    assert(tasks =~= tasks_in(done));
                }
            },
            _ => {
                assert(tasks =~= tasks_in(done));
            },
        }
    }
}

/// The places of the requests that `counts` picks out.
spec fn places(requests: Seq<WorkerRequest>, counts: spec_fn(WorkerRequest) -> bool) -> Set<int> {
    Set::new(|i: int| 0 <= i < requests.len() && counts(requests[i]))
}

proof fn lemma_places(requests: Seq<WorkerRequest>, counts: spec_fn(WorkerRequest) -> bool)
    ensures
        places(requests, counts).finite(),
        places(requests, counts).len() == how_many(requests, counts),
    decreases requests.len(),
{
    let all = places(requests, counts);
    if requests.len() == 0 {
        assert(all =~= Set::empty());
    } else {
        let fewer = requests.drop_last();
        lemma_places(fewer, counts);
        let n = fewer.len() as int;
        if counts(requests.last()) {
            assert(all =~= places(fewer, counts).insert(n));
        } else {
            assert(all =~= places(fewer, counts));
        }
    }
}

/// The results that were sent, in order.
pub open spec fn results_in(actions: Seq<PoolActionView>) -> Seq<WorkerResultView>
    decreases actions.len(),
{
    if actions.len() == 0 {
        Seq::empty()
    } else {
        match actions.last() {
            PoolActionView::SendResult(result) => results_in(actions.drop_last()).push(result),
            _ => results_in(actions.drop_last()),
        }
    }
}

/// The numbers of the tasks that were started, in order.
pub open spec fn numbers_in(actions: Seq<PoolActionView>) -> Seq<u64>
    decreases actions.len(),
{
    if actions.len() == 0 {
        Seq::empty()
    } else {
        match actions.last() {
            PoolActionView::StartTask { number, .. } => numbers_in(actions.drop_last()).push(
                number,
            ),
            _ => numbers_in(actions.drop_last()),
        }
    }
}

/// Whether an event brings what the cores have found for the task that runs.
pub open spec fn brings_findings(phase: PoolPhase, event: PoolEvent) -> bool {
    phase matches PoolPhase::Working { task, .. } && event matches PoolEvent::Mined {
        number,
        ..
    } && is_running(task, number)
}

/// The tasks that results were sent for, each by its place among those that were started.
pub open spec fn answered_in(address: Option<Seq<char>>, events: Seq<PoolEvent>) -> Seq<int>
    decreases events.len(),
{
    if events.len() == 0 {
        Seq::empty()
    } else {
        let before = events.drop_last();
        if brings_findings(session_phase(address, before), events.last()) {
            answered_in(address, before).push(
                tasks_in(session_actions(address, before)).len() - 1,
            )
        } else {
            answered_in(address, before)
        }
    }
}

/// Whether an event is that the cores have found `findings`.
pub open spec fn is_mined(event: PoolEvent, findings: Findings) -> bool {
    event matches PoolEvent::Mined { findings: found, .. } && found == findings
}

/// Whether `result` is that of a task for `request`, with what its cores have found.
pub open spec fn is_result(
    result: WorkerResultView,
    request: WorkerRequest,
    events: Seq<PoolEvent>,
) -> bool {
    exists|j: int, findings: Findings|
        0 <= j < events.len() && #[trigger] is_mined(events[j], findings) && result == result_of(
            request,
            findings,
        )
}

proof fn lemma_results_in_concat(a: Seq<PoolActionView>, b: Seq<PoolActionView>)
    ensures
        results_in(a + b) == results_in(a) + results_in(b),
        numbers_in(a + b) == numbers_in(a) + numbers_in(b),
    decreases b.len(),
{
    if b.len() == 0 {
        assert(a + b =~= a);
        assert(results_in(a) + results_in(b) =~= results_in(a));
        assert(numbers_in(a) + numbers_in(b) =~= numbers_in(a));
    } else {
        lemma_results_in_concat(a, b.drop_last());
        assert((a + b).drop_last() =~= a + b.drop_last());
        assert(results_in(a + b) =~= results_in(a) + results_in(b));
        assert(numbers_in(a + b) =~= numbers_in(a) + numbers_in(b));
    }
}

/// The results sent and the numbers given on one event.
#[verifier::rlimit(60)]
proof fn lemma_results_of_event(address: Option<Seq<char>>, phase: PoolPhase, event: PoolEvent)
    ensures
        results_in(actions_on(address, phase, event)) == if brings_findings(phase, event) {
            seq![result_of(phase->task->request, event->findings)]
        } else {
            Seq::empty()
        },
        numbers_in(actions_on(address, phase, event)) == if phase is Working && event
            matches PoolEvent::Message(ServerMessage::WorkerRequest(_)) {
            seq![phase->next]
        } else {
            Seq::empty()
        },
{
    reveal_with_fuel(results_in, 5);
    reveal_with_fuel(numbers_in, 5);
    let actions = actions_on(address, phase, event);
    let n = actions.len() as int;
    if n > 0 {
        assert(actions.drop_last() =~= actions.take(n - 1));
    }
    if n > 1 {
        assert(actions.take(n - 1).drop_last() =~= actions.take(n - 2));
    }
    if n > 2 {
        assert(actions.take(n - 2).drop_last() =~= actions.take(n - 3));
    }
    if n > 3 {
        assert(actions.take(n - 3).drop_last() =~= actions.take(n - 4));
    }
}

/// A task is given the number of those that were started before it, modulo 2^64.
#[verifier::rlimit(60)]
pub proof fn law_tasks_are_numbered(address: Option<Seq<char>>, events: Seq<PoolEvent>)
    ensures
        numbers_in(session_actions(address, events)).len() == tasks_in(
            session_actions(address, events),
        ).len(),
        forall|i: int|
            0 <= i < numbers_in(session_actions(address, events)).len() ==> (
            #[trigger] numbers_in(session_actions(address, events))[i]) == i
                % 0x1_0000_0000_0000_0000,
        session_phase(address, events) matches PoolPhase::Working { next, .. } ==> next
            == numbers_in(session_actions(address, events)).len() % 0x1_0000_0000_0000_0000,
        !(session_phase(address, events) is Working || session_phase(address, events) is Over)
            ==> numbers_in(session_actions(address, events)).len() == 0,
    decreases events.len(),
{
    if events.len() > 0 {
        let before = events.drop_last();
        let event = events.last();
        let phase = session_phase(address, before);
        let done = session_actions(address, before);
        let last = actions_on(address, phase, event);
        law_tasks_are_numbered(address, before);
        lemma_results_in_concat(done, last);
        lemma_results_of_event(address, phase, event);
        lemma_tasks_in_concat(done, last);
        lemma_tasks_of_event(address, phase, event);
        assert(session_actions(address, events) == done + last);
        let (old_numbers, numbers) = (numbers_in(done), numbers_in(done + last));
        if phase is Working && event matches PoolEvent::Message(ServerMessage::WorkerRequest(_)) {
            assert(numbers =~= old_numbers.push(phase->next));
            assert(phase->next == old_numbers.len() % 0x1_0000_0000_0000_0000);
            assert forall|i: int| 0 <= i < numbers.len() implies (#[trigger] numbers[i]) == i
                % 0x1_0000_0000_0000_0000 by {
                if i < old_numbers.len() {
                    assert(numbers[i] == old_numbers[i]);
                }
            }
            lemma_number_after(phase->next, old_numbers.len());
        } else {
            assert(numbers =~= old_numbers);
        }
    }
}

proof fn lemma_number_after(number: u64, count: nat)
    requires
        number == count % 0x1_0000_0000_0000_0000,
    ensures
        number_after(number) == (count + 1) % 0x1_0000_0000_0000_0000,
{
}

/// Every task has at most one result: the results are those of different tasks, each with
/// what the cores have found for the request that its task was started for; and only the
/// task that was started last may still run.
#[verifier::rlimit(60)]
pub proof fn law_one_result_per_task(address: Option<Seq<char>>, events: Seq<PoolEvent>)
    ensures
        answered_in(address, events).len() == results_in(session_actions(address, events)).len(),
        forall|k: int|
            0 <= k < answered_in(address, events).len() ==> {
                &&& 0 <= #[trigger] answered_in(address, events)[k] < tasks_in(
                    session_actions(address, events),
                ).len()
                &&& is_result(
                    results_in(session_actions(address, events))[k],
                    tasks_in(session_actions(address, events))[answered_in(address, events)[k]],
                    events,
                )
            },
        forall|k: int, l: int|
            0 <= k < l < answered_in(address, events).len() ==> #[trigger] answered_in(
                address,
                events,
            )[k] < #[trigger] answered_in(address, events)[l],
        session_phase(address, events) matches PoolPhase::Working {
            task: Task::Running { request, .. },
            ..
        } ==> {
            &&& tasks_in(session_actions(address, events)).len() > 0
            &&& tasks_in(session_actions(address, events)).last() == request
            &&& forall|k: int|
                0 <= k < answered_in(address, events).len() ==> #[trigger] answered_in(
                    address,
                    events,
                )[k] < tasks_in(session_actions(address, events)).len() - 1
        },
    decreases events.len(),
{
    if events.len() > 0 {
        let before = events.drop_last();
        let event = events.last();
        let phase = session_phase(address, before);
        let done = session_actions(address, before);
        let last = actions_on(address, phase, event);
        law_one_result_per_task(address, before);
        lemma_results_in_concat(done, last);
        lemma_results_of_event(address, phase, event);
        lemma_tasks_in_concat(done, last);
        lemma_tasks_of_event(address, phase, event);
        let all = session_actions(address, events);
        assert(all == done + last);
        let old_answered = answered_in(address, before);
        let answered = answered_in(address, events);
        let old_results = results_in(done);
        let results = results_in(all);
        let old_tasks = tasks_in(done);
        let tasks = tasks_in(all);
        assert forall|k: int| 0 <= k < answered.len() implies {
            &&& 0 <= #[trigger] answered[k] < tasks.len()
            &&& is_result(results[k], tasks[answered[k]], events)
        } by {
            if k < old_answered.len() {
                assert(answered[k] == old_answered[k]);
                assert(results[k] == old_results[k]);
                assert(tasks[answered[k]] == old_tasks[answered[k]]);
                assert(is_result(old_results[k], old_tasks[old_answered[k]], before));
                let (j, findings) = choose|j: int, findings: Findings|
                    0 <= j < before.len() && #[trigger] is_mined(before[j], findings)
                        && old_results[k] == result_of(old_tasks[old_answered[k]], findings);
                assert(events[j] == before[j]);
                assert(is_mined(events[j], findings));
            } else {
                assert(brings_findings(phase, event));
                assert(tasks =~= old_tasks);
                assert(results[k] == result_of(phase->task->request, event->findings));
                assert(is_mined(events[events.len() - 1], event->findings));
            }
        }
        assert forall|k: int, l: int|
            0 <= k < l < answered.len() implies #[trigger] answered[k] < #[trigger] answered[l] by {
            assert(answered[k] == old_answered[k]);
            if l < old_answered.len() {
                assert(answered[l] == old_answered[l]);
            }
        }
        if let PoolPhase::Working { task: Task::Running { request, .. }, .. } = session_phase(
            address,
            events,
        ) {
            assert(!brings_findings(phase, event));
            assert(answered == old_answered);
            if event is Message && event->Message_0 is WorkerRequest {
                assert(tasks.last() == request);
            } else {
                assert(tasks =~= old_tasks);
            }
        }
    }
}

/// How many results are of a round.
pub open spec fn results_of_round(results: Seq<WorkerResultView>, round_id: i32) -> nat
    decreases results.len(),
{
    if results.len() == 0 {
        0
    } else {
        results_of_round(results.drop_last(), round_id) + if results.last().round_id == round_id {
            1nat
        } else {
            0
        }
    }
}

/// Results of different tasks whose places are in `from` are no more than those.
proof fn lemma_results_of_tasks(
    results: Seq<WorkerResultView>,
    of: Seq<int>,
    round_id: i32,
    from: Set<int>,
)
    requires
        of.len() == results.len(),
        forall|k: int, l: int| 0 <= k < l < of.len() ==> #[trigger] of[k] < #[trigger] of[l],
        from.finite(),
        forall|k: int|
            0 <= k < results.len() && results[k].round_id == round_id ==> from.contains(
                #[trigger] of[k],
            ),
    ensures
        results_of_round(results, round_id) <= from.len(),
    decreases results.len(),
{
    if results.len() > 0 {
        let n = results.len() - 1;
        let fewer = results.drop_last();
        let fewer_of = of.drop_last();
        if results.last().round_id == round_id {
            assert(from.contains(of[n]));
            assert forall|k: int|
                0 <= k < fewer.len() && fewer[k].round_id == round_id implies from.remove(
                of[n],
            ).contains(#[trigger] fewer_of[k]) by {
                assert(fewer_of[k] == of[k]);
                assert(of[k] < of[n]);
            }
            lemma_results_of_tasks(fewer, fewer_of, round_id, from.remove(of[n]));
        } else {
            assert forall|k: int|
                0 <= k < fewer.len() && fewer[k].round_id == round_id implies from.contains(
                #[trigger] fewer_of[k],
            ) by {
                assert(fewer_of[k] == of[k]);
            }
            lemma_results_of_tasks(fewer, fewer_of, round_id, from);
        }
    }
}

/// No result is sent unasked: at every moment there are of every round no more results than
/// requests.
pub proof fn law_results_are_asked_for(
    address: Option<Seq<char>>,
    events: Seq<PoolEvent>,
    round_id: i32,
)
    ensures
        results_of_round(results_in(session_actions(address, events)), round_id) <= how_many(
            requests_in(events),
            |request: WorkerRequest| request.round_id == round_id,
        ),
{
    let tasks = tasks_in(session_actions(address, events));
    let results = results_in(session_actions(address, events));
    let of = answered_in(address, events);
    let counts = |request: WorkerRequest| request.round_id == round_id;
    law_one_result_per_task(address, events);
    law_tasks_are_asked_for(address, events, counts);
    lemma_places(tasks, counts);
    assert forall|k: int|
        0 <= k < results.len() && results[k].round_id == round_id implies places(
        tasks,
        counts,
    ).contains(#[trigger] of[k]) by {
        assert(is_result(results[k], tasks[of[k]], events));
    }
    lemma_results_of_tasks(results, of, round_id, places(tasks, counts));
}

/// Two calls on different cores of one division, each of which tried fewer nonces than one
/// share, never find the same nonce.
pub proof fn law_solutions_differ(
    xs: Seq<SearchView>,
    x_reports: Seq<Option<CoreReport>>,
    x_cores: u64,
    x_offset: u64,
    x_best: Best,
    x: Findings,
    ys: Seq<SearchView>,
    y_reports: Seq<Option<CoreReport>>,
    y_cores: u64,
    y_offset: u64,
    y_best: Best,
    y: Findings,
    challenge: Seq<u8>,
    total: u64,
)
    requires
        total > 0,
        is_call(xs, x_reports, challenge, x_cores, x_offset, total),
        is_call(ys, y_reports, challenge, y_cores, y_offset, total),
        are_different_cores(x_cores, x_offset, y_cores, y_offset),
        is_best_report(x_reports, x_best) && x.is_of(x_best) && x.best_difficulty > 0,
        is_best_report(y_reports, y_best) && y.is_of(y_best) && y.best_difficulty > 0,
    ensures
        x.solution.n@ != y.solution.n@,
{
    let i = choose|i: int|
        0 <= i < x_reports.len() && (#[trigger] x_reports[i]) is Some && x_reports[i]->0.best
            == x_best;
    let j = choose|j: int|
        0 <= j < y_reports.len() && (#[trigger] y_reports[j]) is Some && y_reports[j]->0.best
            == y_best;
    assert(xs[i].well_formed() && ys[j].well_formed());
    assert(xs[i].tried(x_best.nonce) && ys[j].tried(y_best.nonce));
    law_calls_share_no_nonce(
        xs,
        x_reports,
        x_cores,
        x_offset,
        ys,
        y_reports,
        y_cores,
        y_offset,
        challenge,
        total,
        i,
        j,
        x_best.nonce,
    );
    assert(pow256(8) == 0x1_0000_0000_0000_0000) by {
        reveal_with_fuel(pow256, 9);
    }
    lemma_le_round_trip(x_best.nonce as nat, 8);
    lemma_le_round_trip(y_best.nonce as nat, 8);
}

/// Whether a worker with this address was accepted at `j`, having introduced itself at `i`:
/// that was its first introduction, and the first answer to it, which was a success.
pub open spec fn is_accepted_at(
    address: Option<Seq<char>>,
    events: Seq<PoolEvent>,
    i: int,
    j: int,
) -> bool {
    &&& address is Some
    &&& is_introduced_since(events.take(j), i)
    &&& 0 <= i < j < events.len()
    &&& events[j] matches PoolEvent::Answer(ServerMessage::AuthResponse(response))
        && response.success
}

/// Whether nobody has begun yet.
pub open spec fn has_not_begun(events: Seq<PoolEvent>) -> bool {
    forall|k: int| 0 <= k < events.len() ==> !((#[trigger] events[k]) is Begin)
}

/// Whether the first introduction was at `i`, and it was not answered yet.
pub open spec fn is_introduced_since(events: Seq<PoolEvent>, i: int) -> bool {
    &&& 0 <= i < events.len()
    &&& events[i] is Begin
    &&& forall|k: int| 0 <= k < i ==> !((#[trigger] events[k]) is Begin)
    &&& forall|k: int| i < k < events.len() ==> !((#[trigger] events[k]) is Answer)
}

/// Whether a worker was accepted at `j`, having introduced itself at `i`, and no heartbeat
/// of its own or in reply has failed since.
pub open spec fn is_at_work_since(
    address: Option<Seq<char>>,
    events: Seq<PoolEvent>,
    i: int,
    j: int,
) -> bool {
    &&& is_accepted_at(address, events, i, j)
    &&& forall|k: int|
        j < k < events.len() ==> !((#[trigger] events[k]) is TickFailed)
            && !(events[k] is ReplyFailed)
}

/// Whether a worker is at work, by what has happened.
pub open spec fn is_at_work(address: Option<Seq<char>>, events: Seq<PoolEvent>) -> bool {
    exists|i: int, j: int| #[trigger] is_at_work_since(address, events, i, j)
}

/// Whether a worker has introduced itself and waits for the answer, by what has happened.
pub open spec fn is_waiting(address: Option<Seq<char>>, events: Seq<PoolEvent>) -> bool {
    address is Some && exists|i: int| #[trigger] is_introduced_since(events, i)
}

#[verifier::rlimit(60)]
proof fn lemma_waiting_step(address: Option<Seq<char>>, events: Seq<PoolEvent>)
    requires
        events.len() > 0,
    ensures
        has_not_begun(events) <==> has_not_begun(events.drop_last()) && !(events.last() is Begin),
        is_waiting(address, events) <==> address is Some && {
            ||| is_waiting(address, events.drop_last()) && !(events.last() is Answer)
            ||| has_not_begun(events.drop_last()) && events.last() is Begin
        },
{
    let before = events.drop_last();
    let n = events.len() - 1;
    if has_not_begun(events) {
        assert forall|k: int| 0 <= k < before.len() implies !((#[trigger] before[k]) is Begin) by {
            assert(events[k] == before[k]);
        }
        assert(events[n] == events.last());
    }
    if has_not_begun(before) && !(events.last() is Begin) {
        assert forall|k: int| 0 <= k < events.len() implies !((#[trigger] events[k]) is Begin) by {
            if k < n {
                assert(events[k] == before[k]);
            }
        }
    }
    if is_waiting(address, events) {
        let i = choose|i: int| #[trigger] is_introduced_since(events, i);
        if i < n {
            assert(events[i] == before[i]);
            assert forall|k: int| 0 <= k < i implies !((#[trigger] before[k]) is Begin) by {
                assert(events[k] == before[k]);
            }
            assert forall|k: int| i < k < before.len() implies !(
            (#[trigger] before[k]) is Answer) by {
                assert(events[k] == before[k]);
            }
            assert(is_introduced_since(before, i));
            assert(!(events[n] is Answer));
        } else {
            assert forall|k: int| 0 <= k < before.len() implies !(
            (#[trigger] before[k]) is Begin) by {
                assert(events[k] == before[k]);
            }
        }
    }
    if is_waiting(address, before) && !(events.last() is Answer) {
        let i = choose|i: int| #[trigger] is_introduced_since(before, i);
        assert(events[i] == before[i]);
        assert forall|k: int| 0 <= k < i implies !((#[trigger] events[k]) is Begin) by {
            assert(events[k] == before[k]);
        }
        assert forall|k: int| i < k < events.len() implies !((#[trigger] events[k]) is Answer) by {
            if k < n {
                assert(events[k] == before[k]);
            }
        }
        assert(is_introduced_since(events, i));
    }
    if address is Some && has_not_begun(before) && events.last() is Begin {
        assert forall|k: int| 0 <= k < n implies !((#[trigger] events[k]) is Begin) by {
            assert(events[k] == before[k]);
        }
        assert(is_introduced_since(events, n));
    }
}

#[verifier::rlimit(60)]
proof fn lemma_at_work_step(address: Option<Seq<char>>, events: Seq<PoolEvent>)
    requires
        events.len() > 0,
    ensures
        is_at_work(address, events) <==> {
            ||| is_at_work(address, events.drop_last()) && !(events.last() is TickFailed) && !(
            events.last() is ReplyFailed)
            ||| is_waiting(address, events.drop_last()) && (events.last()
                matches PoolEvent::Answer(ServerMessage::AuthResponse(response))
                && response.success)
        },
{
    let before = events.drop_last();
    let n = events.len() - 1;
    if is_at_work(address, events) {
        let (i, j) = choose|i: int, j: int| #[trigger] is_at_work_since(address, events, i, j);
        if j < n {
            assert(events.take(j) =~= before.take(j));
            assert(events[j] == before[j]);
            assert forall|k: int| j < k < before.len() implies !(
            (#[trigger] before[k]) is TickFailed) && !(before[k] is ReplyFailed) by {
                assert(events[k] == before[k]);
            }
            assert(is_at_work_since(address, before, i, j));
            assert(!(events[n] is TickFailed));
        } else {
            assert(events.take(j) =~= before);
        }
    }
    if is_at_work(address, before) && !(events.last() is TickFailed) && !(
    events.last() is ReplyFailed) {
        let (i, j) = choose|i: int, j: int| #[trigger] is_at_work_since(address, before, i, j);
        assert(events.take(j) =~= before.take(j));
        assert(events[j] == before[j]);
        assert forall|k: int| j < k < events.len() implies !((#[trigger] events[k]) is TickFailed)
            && !(events[k] is ReplyFailed) by {
            if k < n {
                assert(events[k] == before[k]);
            }
        }
        assert(is_at_work_since(address, events, i, j));
    }
    if is_waiting(address, before) && (events.last()
        matches PoolEvent::Answer(ServerMessage::AuthResponse(response)) && response.success) {
        let i = choose|i: int| #[trigger] is_introduced_since(before, i);
        assert(events.take(n) =~= before);
        assert(is_at_work_since(address, events, i, n));
    }
}

/// How far a worker is follows from what has happened: it is at work from the moment on at
/// which its first introduction was answered with a success, until a heartbeat fails.
pub proof fn law_who_is_at_work(address: Option<Seq<char>>, events: Seq<PoolEvent>)
    ensures
        session_phase(address, events) is Connected <==> has_not_begun(events),
        session_phase(address, events) is Introduced <==> is_waiting(address, events),
        session_phase(address, events) is Working <==> is_at_work(address, events),
    decreases events.len(),
{
    if events.len() > 0 {
        law_who_is_at_work(address, events.drop_last());
        lemma_waiting_step(address, events);
        lemma_at_work_step(address, events);
    }
}

/// How many ticks have come while the worker was at work.
pub open spec fn ticks_at_work(address: Option<Seq<char>>, events: Seq<PoolEvent>) -> nat
    decreases events.len(),
{
    if events.len() == 0 {
        0
    } else {
        ticks_at_work(address, events.drop_last()) + if is_at_work(address, events.drop_last())
            && events.last() is Tick {
            1nat
        } else {
            0
        }
    }
}

/// How many heartbeats of the server have come while the worker was at work.
pub open spec fn heartbeats_at_work(address: Option<Seq<char>>, events: Seq<PoolEvent>) -> nat
    decreases events.len(),
{
    if events.len() == 0 {
        0
    } else {
        heartbeats_at_work(address, events.drop_last()) + if is_at_work(address, events.drop_last())
            && events.last() == PoolEvent::Message(ServerMessage::Heartbeat) {
            1nat
        } else {
            0
        }
    }
}

/// How many heartbeats a worker has sent, in reply or of its own.
pub open spec fn heartbeats_sent(actions: Seq<PoolActionView>, in_reply: bool) -> nat
    decreases actions.len(),
{
    if actions.len() == 0 {
        0
    } else {
        heartbeats_sent(actions.drop_last(), in_reply) + if actions.last() == (
        PoolActionView::SendHeartbeat { reply: in_reply }) {
            1nat
        } else {
            0
        }
    }
}

proof fn lemma_heartbeats_concat(
    a: Seq<PoolActionView>,
    b: Seq<PoolActionView>,
    in_reply: bool,
)
    ensures
        heartbeats_sent(a + b, in_reply) == heartbeats_sent(a, in_reply) + heartbeats_sent(
            b,
            in_reply,
        ),
    decreases b.len(),
{
    if b.len() == 0 {
        assert(a + b =~= a);
    } else {
        lemma_heartbeats_concat(a, b.drop_last(), in_reply);
        assert((a + b).drop_last() =~= a + b.drop_last());
    }
}

#[verifier::rlimit(60)]
proof fn lemma_heartbeats_of_event(
    address: Option<Seq<char>>,
    phase: PoolPhase,
    event: PoolEvent,
    in_reply: bool,
)
    ensures
        heartbeats_sent(actions_on(address, phase, event), in_reply) == if phase is Working && {
            ||| !in_reply && event is Tick
            ||| in_reply && event == PoolEvent::Message(ServerMessage::Heartbeat)
        } {
            1nat
        } else {
            0
        },
{
    reveal_with_fuel(heartbeats_sent, 5);
    let actions = actions_on(address, phase, event);
    let n = actions.len() as int;
    if n > 0 {
        assert(actions.drop_last() =~= actions.take(n - 1));
    }
    if n > 1 {
        assert(actions.take(n - 1).drop_last() =~= actions.take(n - 2));
    }
    if n > 2 {
        assert(actions.take(n - 2).drop_last() =~= actions.take(n - 3));
    }
    if n > 3 {
        assert(actions.take(n - 3).drop_last() =~= actions.take(n - 4));
    }
}

/// A worker at work sends one heartbeat of its own at every tick, whatever task it has, and
/// one in reply to every heartbeat of the server; and no others.
#[verifier::rlimit(60)]
pub proof fn law_one_heartbeat_per_tick(address: Option<Seq<char>>, events: Seq<PoolEvent>)
    ensures
        heartbeats_sent(session_actions(address, events), false) == ticks_at_work(address, events),
        heartbeats_sent(session_actions(address, events), true) == heartbeats_at_work(
            address,
            events,
        ),
    decreases events.len(),
{
    if events.len() > 0 {
        let before = events.drop_last();
        let phase = session_phase(address, before);
        let done = session_actions(address, before);
        law_one_heartbeat_per_tick(address, before);
        law_who_is_at_work(address, before);
        lemma_heartbeats_concat(done, actions_on(address, phase, events.last()), false);
        lemma_heartbeats_concat(done, actions_on(address, phase, events.last()), true);
        lemma_heartbeats_of_event(address, phase, events.last(), false);
        lemma_heartbeats_of_event(address, phase, events.last(), true);
    }
}

/// At a tick a worker at work does one thing and no other, whatever task it has: it sends a
/// heartbeat of its own.
pub proof fn law_tick_is_a_heartbeat(address: Option<Seq<char>>, events: Seq<PoolEvent>)
    requires
        is_at_work(address, events),
    ensures
        session_actions(address, events.push(PoolEvent::Tick)) == session_actions(
            address,
            events,
        ).push(PoolActionView::SendHeartbeat { reply: false }),
        is_at_work(address, events.push(PoolEvent::Tick)),
{
    let after = events.push(PoolEvent::Tick);
    assert(after.drop_last() =~= events);
    law_who_is_at_work(address, events);
    lemma_at_work_step(address, after);
    assert(session_actions(address, after) =~= session_actions(address, events).push(
        PoolActionView::SendHeartbeat { reply: false },
    ));
}

/// The requests that have come while the worker was at work, in order.
pub open spec fn requests_at_work(address: Option<Seq<char>>, events: Seq<PoolEvent>) -> Seq<
    WorkerRequest,
>
    decreases events.len(),
{
    if events.len() == 0 {
        Seq::empty()
    } else {
        let before = requests_at_work(address, events.drop_last());
        match events.last() {
            PoolEvent::Message(ServerMessage::WorkerRequest(request)) => if is_at_work(
                address,
                events.drop_last(),
            ) {
                before.push(request)
            } else {
                before
            },
            _ => before,
        }
    }
}

/// Every request that comes to a worker at work is mined: the tasks that it starts are for
/// these requests, unchanged, in the same order, and for no others.
#[verifier::rlimit(60)]
pub proof fn law_every_request_is_mined(address: Option<Seq<char>>, events: Seq<PoolEvent>)
    ensures
        tasks_in(session_actions(address, events)) == requests_at_work(address, events),
    decreases events.len(),
{
    if events.len() > 0 {
        let before = events.drop_last();
        let phase = session_phase(address, before);
        let done = session_actions(address, before);
        law_every_request_is_mined(address, before);
        law_who_is_at_work(address, before);
        lemma_tasks_in_concat(done, actions_on(address, phase, events.last()));
        lemma_tasks_of_event(address, phase, events.last());
        assert(tasks_in(session_actions(address, events)) =~= requests_at_work(address, events));
    }
}

/// The event that a request has come.
pub open spec fn request_event(request: WorkerRequest) -> PoolEvent {
    PoolEvent::Message(ServerMessage::WorkerRequest(request))
}

/// A request that comes to a worker at work starts a task for it, and is the end of the task
/// before it, of which there is then none left but the new one.
pub proof fn law_request_starts_a_task(
    address: Option<Seq<char>>,
    events: Seq<PoolEvent>,
    request: WorkerRequest,
)
    requires
        is_at_work(address, events),
    ensures
        is_at_work(address, events.push(request_event(request))),
        session_actions(address, events.push(request_event(request))).last() is StartTask,
        session_actions(address, events.push(request_event(request))).last()->request == request,
        tasks_added(session_actions(address, events.push(request_event(request)))) == 1,
{
    let after = events.push(request_event(request));
    assert(after.drop_last() =~= events);
    law_who_is_at_work(address, events);
    lemma_at_work_step(address, after);
    law_one_task_at_most(address, after, 0);
    let phase = session_phase(address, events);
    let last = actions_on(address, phase, request_event(request));
    assert(session_actions(address, after) == session_actions(address, events) + last);
    assert(session_actions(address, after).last() == last.last());
}

/// A stop that comes to a worker at work leaves it without a task.
pub proof fn law_stop_leaves_no_task(address: Option<Seq<char>>, events: Seq<PoolEvent>)
    requires
        is_at_work(address, events),
    ensures
        is_at_work(address, events.push(PoolEvent::Message(ServerMessage::StopMining))),
        tasks_added(
            session_actions(address, events.push(PoolEvent::Message(ServerMessage::StopMining))),
        ) == 0,
{
    let after = events.push(PoolEvent::Message(ServerMessage::StopMining));
    assert(after.drop_last() =~= events);
    law_who_is_at_work(address, events);
    lemma_at_work_step(address, after);
    law_stop_mining(address, after);
}

/// Whether an event leaves the task that runs under `number` alone: it is no newer request
/// and no stop, the cores are not done with it, and no heartbeat has failed.
pub open spec fn leaves_alone(event: PoolEvent, number: u64) -> bool {
    match event {
        PoolEvent::TickFailed(_) => false,
        PoolEvent::ReplyFailed(_) => false,
        PoolEvent::Message(ServerMessage::WorkerRequest(_)) => false,
        PoolEvent::Message(ServerMessage::StopMining) => false,
        PoolEvent::Mined { number: done, .. } => done != number,
        _ => true,
    }
}

/// A task that is left alone goes on running.
proof fn lemma_goes_on_running(
    address: Option<Seq<char>>,
    before: Seq<PoolEvent>,
    request: WorkerRequest,
    number: u64,
    meanwhile: Seq<PoolEvent>,
)
    requires
        is_at_work(address, before),
        session_actions(address, before.push(request_event(request))).last() == (
        PoolActionView::StartTask { number, request }),
        forall|k: int|
            0 <= k < meanwhile.len() ==> leaves_alone(#[trigger] meanwhile[k], number),
    ensures
        session_phase(address, before.push(request_event(request)) + meanwhile)
            matches PoolPhase::Working { task, .. } && task == (Task::Running { number, request }),
    decreases meanwhile.len(),
{
    let started = before.push(request_event(request));
    let events = started + meanwhile;
    if meanwhile.len() == 0 {
        assert(events =~= started);
        assert(started.drop_last() =~= before);
        law_who_is_at_work(address, before);
        let phase = session_phase(address, before);
        let last = actions_on(address, phase, request_event(request));
        assert(session_actions(address, started) == session_actions(address, before) + last);
        assert(session_actions(address, started).last() == last.last());
    } else {
        lemma_goes_on_running(address, before, request, number, meanwhile.drop_last());
        assert(events.drop_last() =~= started + meanwhile.drop_last());
        assert(leaves_alone(meanwhile[meanwhile.len() - 1], number));
    }
}

/// Every task that comes to its end is answered: when the cores are done with the task that
/// was started last, and nothing has aborted or replaced it, one result is sent then, for
/// its request and with what the cores have found, whatever its number.
pub proof fn law_finished_task_is_answered(
    address: Option<Seq<char>>,
    before: Seq<PoolEvent>,
    request: WorkerRequest,
    number: u64,
    meanwhile: Seq<PoolEvent>,
    findings: Findings,
)
    requires
        is_at_work(address, before),
        session_actions(address, before.push(request_event(request))).last() == (
        PoolActionView::StartTask { number, request }),
        forall|k: int|
            0 <= k < meanwhile.len() ==> leaves_alone(#[trigger] meanwhile[k], number),
    ensures
        ({
            let running = before.push(request_event(request)) + meanwhile;
            let done = running.push(PoolEvent::Mined { number, findings });
            let sent = results_in(session_actions(address, done));
            &&& sent.len() == results_in(session_actions(address, running)).len() + 1
            &&& sent.drop_last() == results_in(session_actions(address, running))
            &&& sent.last().round_id == request.round_id
            &&& sent.last().solution == findings.solution
            &&& sent.last().difficulty == findings.best_difficulty
            &&& sent.last().total_hashes == findings.total_nonces
            &&& sent.last().worker_addr.len() == 0
        }),
{
    let running = before.push(request_event(request)) + meanwhile;
    let event = PoolEvent::Mined { number, findings };
    let done = running.push(event);
    assert(done.drop_last() =~= running);
    lemma_goes_on_running(address, before, request, number, meanwhile);
    let phase = session_phase(address, running);
    lemma_results_in_concat(
        session_actions(address, running),
        actions_on(address, phase, event),
    );
    lemma_results_of_event(address, phase, event);
    let sent = results_in(session_actions(address, done));
    assert(sent.drop_last() =~= results_in(session_actions(address, running)));
}

/// Only the task that was started last can be answered, and only when the cores are done
/// with it.
pub proof fn law_only_the_last_task_is_answered(
    address: Option<Seq<char>>,
    events: Seq<PoolEvent>,
    event: PoolEvent,
)
    ensures
        results_in(session_actions(address, events.push(event))).len() > results_in(
            session_actions(address, events),
        ).len() ==> {
            &&& is_at_work(address, events)
            &&& event is Mined
            &&& numbers_in(session_actions(address, events)).len() > 0
            &&& event->number == numbers_in(session_actions(address, events)).last()
        },
{
    let after = events.push(event);
    assert(after.drop_last() =~= events);
    let phase = session_phase(address, events);
    lemma_results_in_concat(session_actions(address, events), actions_on(address, phase, event));
    lemma_results_of_event(address, phase, event);
    law_who_is_at_work(address, events);
    lemma_running_is_last(address, events);
}

proof fn lemma_running_is_last(address: Option<Seq<char>>, events: Seq<PoolEvent>)
    ensures
        session_phase(address, events) matches PoolPhase::Working {
            task: Task::Running { number, .. },
            ..
        } ==> {
            &&& numbers_in(session_actions(address, events)).len() > 0
            &&& numbers_in(session_actions(address, events)).last() == number
        },
    decreases events.len(),
{
    if events.len() > 0 {
        let before = events.drop_last();
        let phase = session_phase(address, before);
        lemma_running_is_last(address, before);
        lemma_results_in_concat(
            session_actions(address, before),
            actions_on(address, phase, events.last()),
        );
        lemma_results_of_event(address, phase, events.last());
    }
}

/// A task that was aborted by a stop is not answered: no result is sent until there is a
/// new request.
pub proof fn law_aborted_task_is_not_answered(
    address: Option<Seq<char>>,
    before: Seq<PoolEvent>,
    later: Seq<PoolEvent>,
)
    requires
        is_at_work(address, before),
        forall|k: int|
            0 <= k < later.len() ==> !((#[trigger] later[k])
                matches PoolEvent::Message(ServerMessage::WorkerRequest(_))),
    ensures
        results_in(
            session_actions(
                address,
                before.push(PoolEvent::Message(ServerMessage::StopMining)) + later,
            ),
        ) == results_in(session_actions(address, before)),
        !(session_phase(
            address,
            before.push(PoolEvent::Message(ServerMessage::StopMining)) + later,
        ) matches PoolPhase::Working { task: Task::Running { .. }, .. }),
    decreases later.len(),
{
    let stop = PoolEvent::Message(ServerMessage::StopMining);
    let events = before.push(stop) + later;
    let sent = results_in(session_actions(address, before));
    if later.len() == 0 {
        assert(events =~= before.push(stop));
        assert(events.drop_last() =~= before);
        law_who_is_at_work(address, before);
        let phase = session_phase(address, before);
        lemma_results_in_concat(session_actions(address, before), actions_on(address, phase, stop));
        lemma_results_of_event(address, phase, stop);
        assert(results_in(session_actions(address, events)) =~= sent);
    } else {
        let fewer = later.drop_last();
        law_aborted_task_is_not_answered(address, before, fewer);
        let earlier = before.push(stop) + fewer;
        assert(events.drop_last() =~= earlier);
        let event = later.last();
        assert(!(later[later.len() - 1]
            matches PoolEvent::Message(ServerMessage::WorkerRequest(_))));
        let phase = session_phase(address, earlier);
        lemma_results_in_concat(
            session_actions(address, earlier),
            actions_on(address, phase, event),
        );
        lemma_results_of_event(address, phase, event);
        assert(results_in(session_actions(address, events)) =~= sent);
    }
}

/// What is sent back is what was found for the request: the solution, its difficulty and
/// the hashes counted, for the round of the request; and where it has any difficulty it is
/// genuine, by what drillx gives for the request's challenge.
pub proof fn law_result_is_genuine(
    searches: Seq<SearchView>,
    reports: Seq<Option<CoreReport>>,
    best: Best,
    request: WorkerRequest,
    findings: Findings,
)
    requires
        are_reported(searches, reports, request.challenge@),
        is_best_report(reports, best),
        findings.is_of(best),
    ensures
        result_of(request, findings).solution == findings.solution,
        result_of(request, findings).difficulty == findings.best_difficulty,
        result_of(request, findings).total_hashes == findings.total_nonces,
        result_of(request, findings).round_id == request.round_id,
        result_of(request, findings).worker_addr.len() == 0,
        result_of(request, findings).difficulty > 0 ==> match drill(
            request.challenge@,
            result_of(request, findings).solution.n@,
        ) {
            Some((digest, hash)) => {
                &&& digest == result_of(request, findings).solution.d@
                &&& leading_zeros(hash) == result_of(request, findings).difficulty
            },
            None => false,
        },
{
    law_solution_is_genuine(searches, reports, request.challenge@, best, findings);
}

/// Every message of the server is passed on to the worker, whatever it holds, but for an
/// answer to an introduction.
pub proof fn law_messages_are_passed_on(message: ServerMessage)
    ensures
        is_relayed(message) <==> !(message is AuthResponse),
{
}

/// Whoever begins introduces itself once, with its own address and all that it was told; a
/// worker without an address sends nothing and stops.
pub proof fn law_introduction_is_whole(
    address: Option<Seq<char>>,
    events: Seq<PoolEvent>,
    cores_count: u64,
    worker_name: String,
    invitation_code: String,
)
    requires
        has_not_begun(events),
    ensures
        session_actions(address, events).len() == 0,
        ({
            let begin = PoolEvent::Begin { cores_count, worker_name, invitation_code };
            let actions = session_actions(address, events.push(begin));
            match address {
                Some(pubkey) => {
                    &&& introductions(actions) == 1
                    &&& exists|k: int|
                        0 <= k < actions.len() && (#[trigger] actions[k]) is Introduce
                            && actions[k]->Introduce_0.pubkey == pubkey
                            && actions[k]->Introduce_0.cores_count == cores_count
                            && actions[k]->Introduce_0.worker_name == worker_name@
                            && actions[k]->Introduce_0.invitation_code == invitation_code@
                    &&& !actions.contains(PoolActionView::Stop)
                },
                None => {
                    &&& forall|k: int| 0 <= k < actions.len() ==> !is_deed(#[trigger] actions[k])
                    &&& actions.last() == PoolActionView::Stop
                },
            }
        }),
    decreases events.len(),
{
    law_who_is_at_work(address, events);
    lemma_connected_did_nothing(address, events);
    let begin = PoolEvent::Begin { cores_count, worker_name, invitation_code };
    let after = events.push(begin);
    assert(after.drop_last() =~= events);
    let last = actions_on(address, PoolPhase::Connected, begin);
    assert(session_actions(address, after) =~= last);
    if address is Some {
        assert(last[1] is Introduce);
        reveal_with_fuel(introductions, 4);
        assert(last.drop_last() =~= last.take(2));
        assert(last.take(2).drop_last() =~= last.take(1));
        assert(last.take(1).drop_last() =~= last.take(0));
    }
}

proof fn lemma_connected_did_nothing(address: Option<Seq<char>>, events: Seq<PoolEvent>)
    requires
        session_phase(address, events) is Connected,
    ensures
        session_actions(address, events).len() == 0,
    decreases events.len(),
{
    if events.len() > 0 {
        lemma_connected_did_nothing(address, events.drop_last());
    }
}

/// The server's answer is logged: as information where it accepts, as an error where it
/// refuses, and then the worker stops.
pub proof fn law_answer_is_logged(
    address: Option<Seq<char>>,
    events: Seq<PoolEvent>,
    response: AuthResponse,
)
    requires
        is_waiting(address, events),
    ensures
        ({
            let answer = PoolEvent::Answer(ServerMessage::AuthResponse(response));
            let done = session_actions(address, events);
            let actions = session_actions(address, events.push(answer)).skip(done.len() as int);
            if response.success {
                &&& actions[0] == PoolActionView::LogInfo(response.message@)
                &&& !actions.contains(PoolActionView::Stop)
                &&& is_at_work(address, events.push(answer))
            } else {
                &&& actions[0] == PoolActionView::LogError(response.message@)
                &&& actions.last() == PoolActionView::Stop
                &&& !is_at_work(address, events.push(answer))
            }
        }),
{
    let answer = PoolEvent::Answer(ServerMessage::AuthResponse(response));
    let after = events.push(answer);
    assert(after.drop_last() =~= events);
    law_who_is_at_work(address, events);
    law_who_is_at_work(address, after);
    let done = session_actions(address, events);
    let last = actions_on(address, PoolPhase::Introduced, answer);
    assert(session_actions(address, after).skip(done.len() as int) =~= last);
    if response.success {
        assert(!last.contains(PoolActionView::Stop));
    }
}

/// The outcome of introducing oneself is the server's own word.
pub proof fn law_acceptance_is_the_servers_word(answer: ServerMessage)
    ensures
        is_accepting(answer) <==> (answer matches ServerMessage::AuthResponse(response)
            && response.success),
{
}

/// What a worker at work does about one more event.
pub open spec fn work_on(
    address: Option<Seq<char>>,
    events: Seq<PoolEvent>,
    event: PoolEvent,
) -> Seq<PoolActionView> {
    session_actions(address, events.push(event)).skip(
        session_actions(address, events).len() as int,
    )
}

proof fn lemma_work_on(address: Option<Seq<char>>, events: Seq<PoolEvent>, event: PoolEvent)
    ensures
        work_on(address, events, event) == actions_on(
            address,
            session_phase(address, events),
            event,
        ),
{
    assert(events.push(event).drop_last() =~= events);
    assert(work_on(address, events, event) =~= actions_on(
        address,
        session_phase(address, events),
        event,
    ));
}

/// What a worker at work prints tells what has happened: the time and the cores of a
/// request, what was found, and what went wrong, word for word; and its status is told in
/// four lines, with the amounts as they are shown.
#[verifier::rlimit(60)]
pub proof fn law_worker_tells_what_happens(
    address: Option<Seq<char>>,
    events: Seq<PoolEvent>,
    request: WorkerRequest,
    status: StatusMessage,
    error: String,
)
    requires
        is_at_work(address, events),
    ensures
        work_on(address, events, request_event(request))[0] == PoolActionView::Print(
            "Received new mining request. Cutoff time: "@ + decimal(request.cutoff_time as nat)
                + " seconds, core offset: "@ + decimal(request.core_offset as nat)
                + ", Total cores: "@ + decimal(request.total_cores as nat),
        ),
        work_on(address, events, PoolEvent::Message(ServerMessage::StopMining))[0]
            == PoolActionView::Print("Received stop mining command. Stopping mining process."@),
        work_on(address, events, PoolEvent::Message(ServerMessage::Status(status))) == seq![
            PoolActionView::LogInfo("Received status update:"@),
            PoolActionView::LogInfo(
                "Pending reward: "@ + amount_text(status.pending_reward) + " ORE"@,
            ),
            PoolActionView::LogInfo(
                "Estimated reward per hour: "@ + amount_text(status.estimated_reward_per_hour)
                    + " ORE"@,
            ),
            PoolActionView::LogInfo(
                "Average weight in the network (hourly): "@ + status.average_hash_rate@ + " %"@,
            ),
        ],
        work_on(address, events, PoolEvent::TickFailed(error)) == seq![
            PoolActionView::Print("Error sending heartbeat to server: "@ + error@),
            PoolActionView::Stop,
        ],
        work_on(address, events, PoolEvent::ReplyFailed(error)) == seq![
            PoolActionView::Print("Error sending heartbeat response to server: "@ + error@),
            PoolActionView::Stop,
        ],
        work_on(address, events, PoolEvent::ResultSent(Some(error))) == seq![
            PoolActionView::Print("Error sending mining result to coordinator: "@ + error@),
            PoolActionView::Print("Sent mining result to coordinator"@),
        ],
        work_on(address, events, PoolEvent::ResultSent(None)) == seq![
            PoolActionView::Print("Sent mining result to coordinator"@),
        ],
{
    law_who_is_at_work(address, events);
    lemma_work_on(address, events, request_event(request));
    lemma_work_on(address, events, PoolEvent::Message(ServerMessage::StopMining));
    lemma_work_on(address, events, PoolEvent::Message(ServerMessage::Status(status)));
    lemma_work_on(address, events, PoolEvent::TickFailed(error));
    lemma_work_on(address, events, PoolEvent::ReplyFailed(error));
    lemma_work_on(address, events, PoolEvent::ResultSent(Some(error)));
    lemma_work_on(address, events, PoolEvent::ResultSent(None));
}

/// What the cores have found is told with the result: its difficulty and the nonces.
pub proof fn law_findings_are_told(findings: Findings)
    ensures
        findings_line(findings) == "Mining completed. Best difficulty: "@ + decimal(
            findings.best_difficulty as nat,
        ) + ", total nonces found: "@ + decimal(findings.total_nonces as nat),
{
}

/// Nothing at all is done about messages, ticks and findings before a worker is at work, nor
/// after.
pub proof fn law_idle_unless_at_work(
    address: Option<Seq<char>>,
    events: Seq<PoolEvent>,
    event: PoolEvent,
)
    requires
        !is_at_work(address, events),
        !(event is Begin),
        !(event is Answer),
    ensures
        work_on(address, events, event).len() == 0,
{
    law_who_is_at_work(address, events);
    lemma_work_on(address, events, event);
}

/// A drawn name tells the number: no two numbers give the same name.
pub proof fn law_drawn_names_differ(a: u32, b: u32)
    requires
        drawn_name(a) == drawn_name(b),
    ensures
        a == b,
        drawn_name(a) == "Worker-"@ + decimal(a as nat),
{
    let prefix = "Worker-"@;
    assert(drawn_name(a).skip(prefix.len() as int) =~= decimal(a as nat));
    assert(drawn_name(b).skip(prefix.len() as int) =~= decimal(b as nat));
    lemma_decimal_value(a as nat);
    lemma_decimal_value(b as nat);
}

/// The views of actions show them as they are: in the same order, and with nothing changed.
pub proof fn law_views_are_faithful(actions: Seq<PoolAction>, i: int)
    requires
        0 <= i < actions.len(),
    ensures
        views(actions).len() == actions.len(),
        match actions[i] {
            PoolAction::Print(line) => views(actions)[i] == PoolActionView::Print(line@),
            PoolAction::LogInfo(line) => views(actions)[i] == PoolActionView::LogInfo(line@),
            PoolAction::LogError(line) => views(actions)[i] == PoolActionView::LogError(line@),
            PoolAction::Introduce(request) => {
                &&& views(actions)[i] is Introduce
                &&& views(actions)[i]->Introduce_0.pubkey == request.pubkey@
                &&& views(actions)[i]->Introduce_0.cores_count == request.cores_count
                &&& views(actions)[i]->Introduce_0.worker_name == request.worker_name@
                &&& views(actions)[i]->Introduce_0.invitation_code == request.invitation_code@
            },
            PoolAction::AbortTask => views(actions)[i] is AbortTask,
            PoolAction::StartTask { number, request } => views(actions)[i] == (
            PoolActionView::StartTask { number, request }),
            PoolAction::SendResult(result) => {
                &&& views(actions)[i] is SendResult
                &&& views(actions)[i]->SendResult_0.difficulty == result.difficulty
                &&& views(actions)[i]->SendResult_0.solution == result.solution
                &&& views(actions)[i]->SendResult_0.total_hashes == result.total_hashes
                &&& views(actions)[i]->SendResult_0.worker_addr == result.worker_addr@
                &&& views(actions)[i]->SendResult_0.round_id == result.round_id
            },
            PoolAction::SendHeartbeat { reply } => views(actions)[i] == (
            PoolActionView::SendHeartbeat { reply }),
            PoolAction::Stop => views(actions)[i] is Stop,
        },
{
}

/// A worker introduces itself with the address that its miner was given.
pub proof fn law_address_of_miner(miner: Miner)
    ensures
        address_of(miner) is Some <==> miner.address is Some,
        miner.address is Some ==> address_of(miner)->0 == miner.address->0@,
{
}

/// A solution is that of the best nonce: its digest, and the eight bytes of the nonce, the
/// lowest first.
pub proof fn law_solution_of_best(findings: Findings, best: Best)
    requires
        findings.is_of(best),
    ensures
        findings.best_difficulty == best.difficulty,
        findings.solution.d == best.hash.d,
        ({
            let b = findings.solution.n@;
            best.nonce == b[0] + 0x100 * b[1] + 0x1_0000 * b[2] + 0x100_0000 * b[3]
                + 0x1_0000_0000 * b[4] + 0x100_0000_0000 * b[5] + 0x1_0000_0000_0000 * b[6]
                + 0x100_0000_0000_0000 * b[7]
        }),
{
    law_bytes_of_numbers(best.nonce, 0);
}

} // verus!
