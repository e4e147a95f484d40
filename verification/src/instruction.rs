//! The instructions of a transaction that submits a solution.

use crate::address::{
    BUS_0, BUS_1, BUS_2, BUS_3, BUS_4, BUS_5, BUS_6, BUS_7, CONFIG, MINT, NOOP_PROGRAM,
    ORE_PROGRAM, SYSVAR_INSTRUCTIONS, SYSVAR_SLOT_HASHES, TOKEN_PROGRAM, TREASURY,
    TREASURY_TOKENS,
};
use crate::drill::Solution;
use crate::utils::{proof_address, proof_pubkey};
use solana_program::pubkey::Pubkey;
use vstd::prelude::*;

verus! {

/// An account that an instruction uses.
#[derive(Clone, Copy, Debug)]
pub struct AccountMeta {
    pub pubkey: [u8; 32],
    pub is_signer: bool,
    pub is_writable: bool,
}

/// An instruction for a program.
#[derive(Debug)]
pub struct Instruction {
    pub program_id: [u8; 32],
    pub accounts: Vec<AccountMeta>,
    pub data: Vec<u8>,
}

/// `AccountMeta`, with the address as a sequence.
pub struct AccountMetaView {
    pub pubkey: Seq<u8>,
    pub is_signer: bool,
    pub is_writable: bool,
}

/// `Instruction`, with its parts as sequences.
pub struct InstructionView {
    pub program_id: Seq<u8>,
    pub accounts: Seq<AccountMetaView>,
    pub data: Seq<u8>,
}

impl View for AccountMeta {
    type V = AccountMetaView;

    open spec fn view(&self) -> AccountMetaView {
        AccountMetaView {
            pubkey: self.pubkey@,
            is_signer: self.is_signer,
            is_writable: self.is_writable,
        }
    }
}

impl View for Instruction {
    type V = InstructionView;

    open spec fn view(&self) -> InstructionView {
        InstructionView {
            program_id: self.program_id@,
            accounts: self.accounts@.map_values(|meta: AccountMeta| meta@),
            data: self.data@,
        }
    }
}

/// An account that is written to.
pub open spec fn writable(pubkey: Seq<u8>, is_signer: bool) -> AccountMetaView {
    AccountMetaView { pubkey, is_signer, is_writable: true }
}

/// An account that is only read.
pub open spec fn readonly(pubkey: Seq<u8>) -> AccountMetaView {
    AccountMetaView { pubkey, is_signer: false, is_writable: false }
}

/// The instruction that names the proof account.
pub open spec fn auth_instruction(account: Seq<u8>) -> InstructionView {
    InstructionView { program_id: NOOP_PROGRAM@, accounts: Seq::empty(), data: account }
}

/// The instruction that submits a solution for a proof account.
pub open spec fn mine_instruction(
    signer: Seq<u8>,
    account: Seq<u8>,
    bus: Seq<u8>,
    digest: Seq<u8>,
    nonce: Seq<u8>,
) -> InstructionView {
    InstructionView {
        program_id: ORE_PROGRAM@,
        accounts: seq![
            writable(signer, true),
            writable(bus, false),
            readonly(CONFIG@),
            writable(account, false),
            readonly(SYSVAR_INSTRUCTIONS@),
            readonly(SYSVAR_SLOT_HASHES@),
        ],
        data: seq![2u8] + digest + nonce,
    }
}

/// The instruction that begins a new epoch.
pub open spec fn reset_instruction(signer: Seq<u8>) -> InstructionView {
    InstructionView {
        program_id: ORE_PROGRAM@,
        accounts: seq![
            writable(signer, true),
            writable(BUS_0@, false),
            writable(BUS_1@, false),
            writable(BUS_2@, false),
            writable(BUS_3@, false),
            writable(BUS_4@, false),
            writable(BUS_5@, false),
            writable(BUS_6@, false),
            writable(BUS_7@, false),
            writable(CONFIG@, false),
            writable(MINT@, false),
            writable(TREASURY@, false),
            writable(TREASURY_TOKENS@, false),
            readonly(TOKEN_PROGRAM@),
        ],
        data: seq![4u8],
    }
}

/// `ore_api::instruction::auth` of an address.
#[verifier::external_body]
fn auth(account: &[u8; 32]) -> (out: Instruction)
    ensures
        out@ == auth_instruction(account@),
{
    let ix = ore_api::instruction::auth(Pubkey::from(*account));
    let accounts = ix.accounts.iter().map(
        |m| AccountMeta {
            pubkey: m.pubkey.to_bytes(),
            is_signer: m.is_signer,
            is_writable: m.is_writable,
        },
    ).collect();
    Instruction { program_id: ix.program_id.to_bytes(), accounts, data: ix.data }
}

/// `ore_api::instruction::reset` for a signer.
#[verifier::external_body]
fn reset(signer: &[u8; 32]) -> (out: Instruction)
    ensures
        out@ == reset_instruction(signer@),
{
    let ix = ore_api::instruction::reset(Pubkey::from(*signer));
    let accounts = ix.accounts.iter().map(
        |m| AccountMeta {
            pubkey: m.pubkey.to_bytes(),
            is_signer: m.is_signer,
            is_writable: m.is_writable,
        },
    ).collect();
    Instruction { program_id: ix.program_id.to_bytes(), accounts, data: ix.data }
}

/// `ore_api::instruction::mine` for a signer, the authority over a proof account, a
/// bus and a solution. It panics where no proof account can be derived.
#[verifier::external_body]
fn mine(signer: &[u8; 32], authority: &[u8; 32], bus: &[u8; 32], solution: &Solution) -> (out:
    Instruction)
    requires
        proof_address(authority@) is Some,
    ensures
        out@ == mine_instruction(
            signer@,
            proof_address(authority@)->0,
            bus@,
            solution.d@,
            solution.n@,
        ),
{
    let ix = ore_api::instruction::mine(
        Pubkey::from(*signer),
        Pubkey::from(*authority),
        Pubkey::from(*bus),
        drillx::Solution::new(solution.d, solution.n),
    );
    let accounts = ix.accounts.iter().map(
        |m| AccountMeta {
            pubkey: m.pubkey.to_bytes(),
            is_signer: m.is_signer,
            is_writable: m.is_writable,
        },
    ).collect();
    Instruction { program_id: ix.program_id.to_bytes(), accounts, data: ix.data }
}

/// What is sent to the network: the instructions, and the compute units they may use.
#[derive(Debug)]
pub struct Submission {
    pub instructions: Vec<Instruction>,
    pub compute_budget: u32,
}

/// The instructions that submit a solution, and begin a new epoch where `with_reset`.
pub open spec fn submitted(
    signer: Seq<u8>,
    account: Seq<u8>,
    bus: Seq<u8>,
    solution: Solution,
    with_reset: bool,
) -> Seq<InstructionView> {
    let mining = mine_instruction(signer, account, bus, solution.d@, solution.n@);
    if with_reset {
        seq![auth_instruction(account), reset_instruction(signer), mining]
    } else {
        seq![auth_instruction(account), mining]
    }
}

impl Submission {
    /// The instructions, with their parts as sequences.
    pub open spec fn views(self) -> Seq<InstructionView> {
        self.instructions@.map_values(|ix: Instruction| ix@)
    }

    /// The submission of a solution by a signer for its own proof account; nothing
    /// where no proof account can be derived.
    pub fn new(signer: &[u8; 32], bus: &[u8; 32], solution: &Solution, with_reset: bool) -> (out:
        Option<Submission>)
        ensures
            match out {
                Some(s) => {
                    &&& proof_address(signer@) is Some
                    &&& s.views() == submitted(
                        signer@,
                        proof_address(signer@)->0,
                        bus@,
                        *solution,
                        with_reset,
                    )
                    &&& s.compute_budget == if with_reset {
                        600_000u32
                    } else {
                        500_000u32
                    }
                },
                None => proof_address(signer@) is None,
            },
    {
        let account = match proof_pubkey(signer) {
            Some(account) => account,
            None => {
                return None;
            },
        };
        let mut compute_budget: u32 = 500_000;
        let mut instructions: Vec<Instruction> = Vec::new();
        instructions.push(auth(&account));
        if with_reset {
            compute_budget = compute_budget + 100_000;
            instructions.push(reset(signer));
        }
        instructions.push(mine(signer, signer, bus, solution));
        let out = Submission { instructions, compute_budget };
        assert(out.views() =~= submitted(signer@, account@, bus@, *solution, with_reset));
        Some(out)
    }
}

/// A submission names the proof account first and mines last, and between the two begins a
/// new epoch where that is wanted: each for the signer, the bus and the solution given, and
/// nothing else.
pub proof fn law_what_is_submitted(
    signer: Seq<u8>,
    account: Seq<u8>,
    bus: Seq<u8>,
    solution: Solution,
    with_reset: bool,
)
    ensures
        ({
            let sent = submitted(signer, account, bus, solution, with_reset);
            &&& sent.len() == if with_reset {
                3nat
            } else {
                2
            }
            &&& sent[0].program_id == NOOP_PROGRAM@
            &&& sent[0].accounts.len() == 0
            &&& sent[0].data == account
            &&& sent.last().program_id == ORE_PROGRAM@
            &&& sent.last().data == seq![2u8] + solution.d@ + solution.n@
            &&& sent.last().accounts.len() == 6
            &&& sent.last().accounts[0] == (AccountMetaView {
                pubkey: signer,
                is_signer: true,
                is_writable: true,
            })
            &&& sent.last().accounts[1] == (AccountMetaView {
                pubkey: bus,
                is_signer: false,
                is_writable: true,
            })
            &&& sent.last().accounts[2].pubkey == CONFIG@
            &&& sent.last().accounts[3] == (AccountMetaView {
                pubkey: account,
                is_signer: false,
                is_writable: true,
            })
            &&& with_reset ==> {
                &&& sent[1].program_id == ORE_PROGRAM@
                &&& sent[1].data == seq![4u8]
                &&& sent[1].accounts.len() == 14
                &&& sent[1].accounts[0] == (AccountMetaView {
                    pubkey: signer,
                    is_signer: true,
                    is_writable: true,
                })
            }
        }),
{
}

/// A submission shows its instructions as they are: in the same order, and each with its
/// program, its accounts and its data.
pub proof fn law_instructions_are_faithful(submission: Submission, i: int, j: int)
    requires
        0 <= i < submission.instructions@.len(),
        0 <= j < submission.instructions@[i].accounts@.len(),
    ensures
        ({
            let ix = submission.instructions@[i];
            let shown = submission.views()[i];
            &&& submission.views().len() == submission.instructions@.len()
            &&& shown.program_id == ix.program_id@
            &&& shown.data == ix.data@
            &&& shown.accounts.len() == ix.accounts@.len()
            &&& shown.accounts[j].pubkey == ix.accounts@[j].pubkey@
            &&& shown.accounts[j].is_signer == ix.accounts@[j].is_signer
            &&& shown.accounts[j].is_writable == ix.accounts@[j].is_writable
        }),
{
}

} // verus!
