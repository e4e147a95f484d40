use mineore::account::{_get_treasury, get_config, get_proof, AccountError};

fn config_data() -> Vec<u8> {
    let mut data = vec![101u8, 0, 0, 0, 0, 0, 0, 0];
    data.extend_from_slice(&32u64.to_le_bytes());
    data.extend_from_slice(&(-5i64).to_le_bytes());
    data.extend_from_slice(&18u64.to_le_bytes());
    data.extend_from_slice(&0x0102_0304_0506_0708u64.to_le_bytes());
    data
}

fn proof_data() -> Vec<u8> {
    let mut data = vec![102u8, 9, 9, 9, 9, 9, 9, 9];
    data.extend_from_slice(&[1; 32]);
    data.extend_from_slice(&77u64.to_le_bytes());
    data.extend_from_slice(&[2; 32]);
    data.extend_from_slice(&[3; 32]);
    data.extend_from_slice(&1_700_000_000i64.to_le_bytes());
    data.extend_from_slice(&i64::MIN.to_le_bytes());
    data.extend_from_slice(&[4; 32]);
    data.extend_from_slice(&5u64.to_le_bytes());
    data.extend_from_slice(&u64::MAX.to_le_bytes());
    data
}

#[test]
fn config_account() {
    let config = get_config(&config_data()).unwrap();
    assert_eq!(config.base_reward_rate, 32);
    assert_eq!(config.last_reset_at, -5);
    assert_eq!(config.min_difficulty, 18);
    assert_eq!(config.top_balance, 0x0102_0304_0506_0708);
}

#[test]
fn proof_account() {
    let account = get_proof(&proof_data()).unwrap();
    assert_eq!(account.authority, [1; 32]);
    assert_eq!(account.balance, 77);
    assert_eq!(account.challenge, [2; 32]);
    assert_eq!(account.last_hash, [3; 32]);
    assert_eq!(account.last_hash_at, 1_700_000_000);
    assert_eq!(account.last_stake_at, i64::MIN);
    assert_eq!(account.miner, [4; 32]);
    assert_eq!(account.total_hashes, 5);
    assert_eq!(account.total_rewards, u64::MAX);
}

#[test]
fn treasury_account() {
    assert!(_get_treasury(&[103, 0, 0, 0, 0, 0, 0, 0]).is_ok());
    assert_eq!(_get_treasury(&[103, 0, 0, 0, 0, 0, 0, 0, 0]).err(), Some(AccountError::Invalid));
    assert_eq!(_get_treasury(&[102, 0, 0, 0, 0, 0, 0, 0]).err(), Some(AccountError::Invalid));
    assert_eq!(_get_treasury(&[103, 0, 0]).err(), Some(AccountError::Truncated));
}

#[test]
fn account_of_another_kind() {
    let mut data = config_data();
    data[0] = 102;
    assert_eq!(get_config(&data).err(), Some(AccountError::Invalid));
    let mut data = proof_data();
    data[0] = 101;
    assert_eq!(get_proof(&data).err(), Some(AccountError::Invalid));
}

#[test]
fn account_of_another_size() {
    let mut data = config_data();
    data.push(0);
    assert_eq!(get_config(&data).err(), Some(AccountError::Invalid));
    let mut data = proof_data();
    data.pop();
    assert_eq!(get_proof(&data).err(), Some(AccountError::Invalid));
    assert_eq!(get_config(&[]).err(), Some(AccountError::Truncated));
    assert_eq!(get_config(&[101; 7]).err(), Some(AccountError::Truncated));
    assert_eq!(get_proof(&[102; 7]).err(), Some(AccountError::Truncated));
    assert_eq!(get_proof(&[102; 8]).err(), Some(AccountError::Invalid));
}

#[test]
fn accounts_at_any_place_in_memory() {
    for shift in 0..8usize {
        let mut data = vec![0u8; shift];
        data.extend(config_data());
        assert_eq!(get_config(&data[shift..]).unwrap().min_difficulty, 18);
        let mut data = vec![0u8; shift];
        data.extend(proof_data());
        assert_eq!(get_proof(&data[shift..]).unwrap().balance, 77);
    }
}
