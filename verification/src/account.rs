//! The accounts of the ORE program.

use crate::bytes::{law_eight_bytes, le_value};
use ore_utils::AccountDeserialize;
use vstd::prelude::*;

verus! {

/// The program's configuration.
#[derive(Clone, Copy, Debug)]
pub struct Config {
    pub base_reward_rate: u64,
    pub last_reset_at: i64,
    pub min_difficulty: u64,
    pub top_balance: u64,
}

/// A miner's proof account.
#[derive(Clone, Copy, Debug)]
pub struct Proof {
    pub authority: [u8; 32],
    pub balance: u64,
    pub challenge: [u8; 32],
    pub last_hash: [u8; 32],
    pub last_hash_at: i64,
    pub last_stake_at: i64,
    pub miner: [u8; 32],
    pub total_hashes: u64,
    pub total_rewards: u64,
}

/// The treasury, which holds nothing.
#[derive(Clone, Copy, Debug)]
pub struct Treasury {}

/// Why some data is no account: it ends before the account begins, or it is not
/// one of the kind asked for.
#[derive(Clone, Copy, Debug, PartialEq, Eq, Structural)]
pub enum AccountError {
    Truncated,
    Invalid,
}

/// Whether `data` has the form of an account of this kind and size: its kind in
/// the first of eight bytes, and then the account.
pub open spec fn is_account(data: Seq<u8>, kind: u8, size: nat) -> bool {
    &&& data.len() == 8 + size
    &&& data[0] == kind
}

/// The kinds of account.
pub const CONFIG_KIND: u8 = 101;

pub const PROOF_KIND: u8 = 102;

pub const TREASURY_KIND: u8 = 103;

/// The unsigned number at `at`, the lowest byte first.
pub open spec fn u64_at(data: Seq<u8>, at: int) -> nat {
    le_value(data.subrange(at, at + 8))
}

/// The signed number at `at`, the lowest byte first.
pub open spec fn i64_at(data: Seq<u8>, at: int) -> int {
    let n = u64_at(data, at);
    if n < 0x8000_0000_0000_0000 {
        n as int
    } else {
        n - 0x1_0000_0000_0000_0000
    }
}

/// Whether `config` is what `data` holds.
pub open spec fn holds_config(data: Seq<u8>, config: Config) -> bool {
    &&& is_account(data, CONFIG_KIND, 32)
    &&& config.base_reward_rate == u64_at(data, 8)
    &&& config.last_reset_at == i64_at(data, 16)
    &&& config.min_difficulty == u64_at(data, 24)
    &&& config.top_balance == u64_at(data, 32)
}

/// Whether `account` is what `data` holds.
pub open spec fn holds_proof(data: Seq<u8>, account: Proof) -> bool {
    &&& is_account(data, PROOF_KIND, 168)
    &&& account.authority@ == data.subrange(8, 40)
    &&& account.balance == u64_at(data, 40)
    &&& account.challenge@ == data.subrange(48, 80)
    &&& account.last_hash@ == data.subrange(80, 112)
    &&& account.last_hash_at == i64_at(data, 112)
    &&& account.last_stake_at == i64_at(data, 120)
    &&& account.miner@ == data.subrange(128, 160)
    &&& account.total_hashes == u64_at(data, 160)
    &&& account.total_rewards == u64_at(data, 168)
}

/// `ore_api::state::Config::try_from_bytes`, with each number taken in the byte
/// order of accounts: it reads what the data holds, and fails on data that has
/// not the form of a configuration. It is handed a copy of the data that lies at
/// a multiple of eight bytes in memory, as it demands.
#[verifier::external_body]
fn read_config(data: &[u8]) -> (out: Option<Config>)
    requires
        data@.len() >= 8,
    ensures
        out matches Some(config) ==> holds_config(data@, config),
        out is Some <==> is_account(data@, CONFIG_KIND, 32),
{
    let mut copy = vec![0u8; data.len() + 8];
    let at = copy.as_ptr().align_offset(8);
    copy[at..at + data.len()].copy_from_slice(data);
    ore_api::state::Config::try_from_bytes(&copy[at..at + data.len()]).ok().map(|c| Config {
        base_reward_rate: u64::from_le(c.base_reward_rate),
        last_reset_at: i64::from_le(c.last_reset_at),
        min_difficulty: u64::from_le(c.min_difficulty),
        top_balance: u64::from_le(c.top_balance),
    })
}

/// `ore_api::state::Proof::try_from_bytes`, as for the configuration.
#[verifier::external_body]
fn read_proof(data: &[u8]) -> (out: Option<Proof>)
    requires
        data@.len() >= 8,
    ensures
        out matches Some(account) ==> holds_proof(data@, account),
        out is Some <==> is_account(data@, PROOF_KIND, 168),
{
    let mut copy = vec![0u8; data.len() + 8];
    let at = copy.as_ptr().align_offset(8);
    copy[at..at + data.len()].copy_from_slice(data);
    ore_api::state::Proof::try_from_bytes(&copy[at..at + data.len()]).ok().map(|p| Proof {
        authority: p.authority.to_bytes(),
        balance: u64::from_le(p.balance),
        challenge: p.challenge,
        last_hash: p.last_hash,
        last_hash_at: i64::from_le(p.last_hash_at),
        last_stake_at: i64::from_le(p.last_stake_at),
        miner: p.miner.to_bytes(),
        total_hashes: u64::from_le(p.total_hashes),
        total_rewards: u64::from_le(p.total_rewards),
    })
}

/// `ore_api::state::Treasury::try_from_bytes`: succeeds on data that has the
/// form of the treasury.
#[verifier::external_body]
fn read_treasury(data: &[u8]) -> (out: Option<Treasury>)
    requires
        data@.len() >= 8,
    ensures
        out is Some <==> is_account(data@, TREASURY_KIND, 0),
{
    ore_api::state::Treasury::try_from_bytes(data).ok().map(|_| Treasury {  })
}

/// The configuration that the data of its account holds.
pub fn get_config(data: &[u8]) -> (out: Result<Config, AccountError>)
    ensures
        out is Ok <==> is_account(data@, CONFIG_KIND, 32),
        out matches Ok(config) ==> holds_config(data@, config),
        out matches Err(error) ==> (error == AccountError::Truncated <==> data@.len() < 8),
{
    if data.len() < 8 {
        return Err(AccountError::Truncated);
    }
    match read_config(data) {
        Some(config) => Ok(config),
        None => Err(AccountError::Invalid),
    }
}

/// The proof account that the data of its account holds.
pub fn get_proof(data: &[u8]) -> (out: Result<Proof, AccountError>)
    ensures
        out is Ok <==> is_account(data@, PROOF_KIND, 168),
        out matches Ok(account) ==> holds_proof(data@, account),
        out matches Err(error) ==> (error == AccountError::Truncated <==> data@.len() < 8),
{
    if data.len() < 8 {
        return Err(AccountError::Truncated);
    }
    match read_proof(data) {
        Some(account) => Ok(account),
        None => Err(AccountError::Invalid),
    }
}

/// The treasury that the data of its account holds.
pub fn _get_treasury(data: &[u8]) -> (out: Result<Treasury, AccountError>)
    ensures
        out is Ok <==> is_account(data@, TREASURY_KIND, 0),
        out matches Err(error) ==> (error == AccountError::Truncated <==> data@.len() < 8),
{
    if data.len() < 8 {
        return Err(AccountError::Truncated);
    }
    match read_treasury(data) {
        Some(treasury) => Ok(treasury),
        None => Err(AccountError::Invalid),
    }
}

/// A configuration is forty bytes, of which the first says what it is; its four numbers
/// stand behind the first eight, each in eight bytes.
pub proof fn law_config_bytes(data: Seq<u8>, config: Config)
    requires
        holds_config(data, config),
    ensures
        data.len() == 40,
        data[0] == 101,
        config.base_reward_rate == le_value(data.subrange(8, 16)),
        config.last_reset_at >= 0 ==> config.last_reset_at == le_value(data.subrange(16, 24)),
        config.last_reset_at < 0 ==> config.last_reset_at + 0x1_0000_0000_0000_0000 == le_value(
            data.subrange(16, 24),
        ),
        config.min_difficulty == le_value(data.subrange(24, 32)),
        config.top_balance == le_value(data.subrange(32, 40)),
{
    law_eight_bytes(data.subrange(16, 24));
}

/// A proof account is 176 bytes, of which the first says what it is; its parts stand one
/// after the other behind the first eight.
pub proof fn law_proof_bytes(data: Seq<u8>, account: Proof)
    requires
        holds_proof(data, account),
    ensures
        data.len() == 176,
        data[0] == 102,
        account.authority@ == data.subrange(8, 40),
        account.balance == le_value(data.subrange(40, 48)),
        account.challenge@ == data.subrange(48, 80),
        account.last_hash@ == data.subrange(80, 112),
        account.last_hash_at >= 0 ==> account.last_hash_at == le_value(data.subrange(112, 120)),
        account.last_hash_at < 0 ==> account.last_hash_at + 0x1_0000_0000_0000_0000 == le_value(
            data.subrange(112, 120),
        ),
        account.last_stake_at >= 0 ==> account.last_stake_at == le_value(
            data.subrange(120, 128),
        ),
        account.last_stake_at < 0 ==> account.last_stake_at + 0x1_0000_0000_0000_0000 == le_value(
            data.subrange(120, 128),
        ),
        account.miner@ == data.subrange(128, 160),
        account.total_hashes == le_value(data.subrange(160, 168)),
        account.total_rewards == le_value(data.subrange(168, 176)),
{
    law_eight_bytes(data.subrange(112, 120));
    law_eight_bytes(data.subrange(120, 128));
}

/// What has the form of an account: one byte says what it is, and the size is right.
pub proof fn law_forms_of_accounts(data: Seq<u8>)
    ensures
        is_account(data, CONFIG_KIND, 32) <==> data.len() == 40 && data[0] == 101,
        is_account(data, PROOF_KIND, 168) <==> data.len() == 176 && data[0] == 102,
        is_account(data, TREASURY_KIND, 0) <==> data.len() == 8 && data[0] == 103,
{
}

} // verus!
