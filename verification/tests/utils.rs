use mineore::address::{
    read_address, AddressError, BUS_0, BUS_1, BUS_2, BUS_3, BUS_4, BUS_5, BUS_6, BUS_7, CONFIG, MINT,
    NOOP_PROGRAM, ORE_PROGRAM, PROOF_SEED, SYSVAR_INSTRUCTIONS, SYSVAR_SLOT_HASHES,
    TOKEN_ACCOUNT_PROGRAM, TOKEN_PROGRAM, TREASURY, TREASURY_TOKENS,
};
use mineore::miner::{ClaimError, Miner, Role};
use mineore::utils::{
    format_duration_ms, log_error, log_info, proof_pubkey, treasury_tokens_pubkey,
};
use solana_program::pubkey::Pubkey;
use std::str::FromStr;

const NOTICE: &str = "Rewards will be automatically sent to your miner address once every hour if your pending balance is greater than 0.02 ORE.";

#[test]
fn durations() {
    assert_eq!(format_duration_ms(0), "00:00");
    assert_eq!(format_duration_ms(999), "00:00");
    assert_eq!(format_duration_ms(1_000), "00:01");
    assert_eq!(format_duration_ms(61_999), "01:01");
    assert_eq!(format_duration_ms(599_000), "09:59");
    assert_eq!(format_duration_ms(6_000_000), "100:00");
    assert_eq!(format_duration_ms(u128::MAX), "5671372782015641057722910123862803:31");
}

#[test]
fn durations_tell_the_seconds() {
    let texts: Vec<String> = (0..7_300u128).map(|s| format_duration_ms(s * 1_000)).collect();
    for (i, text) in texts.iter().enumerate() {
        assert_eq!(text, &format!("{:02}:{:02}", i / 60, i % 60));
    }
}

#[test]
fn lines_in_colour() {
    let found = Miner::new(Some(Pubkey::from(MINT).to_string()));
    colored::control::set_override(true);
    assert_eq!(log_error("no luck", false), "\x1B[1;31mERROR: no luck\x1B[0m");
    assert_eq!(log_error("no luck", true), "\x1B[1;31mFATAL ERROR: no luck\x1B[0m");
    assert_eq!(log_info("hello"), "\x1B[1;36mINFO: hello\x1B[0m");
    assert_eq!(found.claim(), Ok(format!("\x1B[1;32m{}\x1B[0m", NOTICE)));
    assert_eq!(
        log_info("a\x1B[0mb"),
        "\x1B[1;36mINFO: a\x1B[0m\x1B[1;36mb\x1B[0m"
    );
    colored::control::set_override(false);
    assert_eq!(log_error("no luck", false), "ERROR: no luck");
    assert_eq!(log_error("no luck", true), "FATAL ERROR: no luck");
    assert_eq!(log_info("hello"), "INFO: hello");
    assert_eq!(found.claim(), Ok(NOTICE.to_string()));
    colored::control::unset_override();
}

#[test]
fn claim_needs_an_address() {
    assert_eq!(Miner::new(None).claim(), Err(ClaimError::NoAddress));
    let claim = |text: &str| Miner::new(Some(text.to_string())).claim();
    assert_eq!(claim("0OIl"), Err(ClaimError::BadAddress(AddressError::Invalid)));
    assert_eq!(claim("abc"), Err(ClaimError::BadAddress(AddressError::WrongSize)));
    assert_eq!(claim(""), Err(ClaimError::BadAddress(AddressError::WrongSize)));
    let long = "1".repeat(45);
    assert_eq!(claim(&long), Err(ClaimError::BadAddress(AddressError::WrongSize)));
    assert!(claim(&"1".repeat(32)).is_ok());
}

#[test]
fn roles() {
    assert!(matches!(Miner::mine_distributed("coordinator"), Role::Coordinator));
    assert!(matches!(Miner::mine_distributed("worker"), Role::Worker));
    for role in ["", "Worker", "miner"] {
        match Miner::mine_distributed(role) {
            Role::Invalid(line) => {
                assert_eq!(line, "Invalid role. Choose 'coordinator' or 'worker'.")
            }
            _ => panic!("no such role"),
        }
    }
}

#[test]
fn proof_addresses() {
    for authority in [[0u8; 32], [7; 32], MINT] {
        let expected = ore_api::state::proof_pda(Pubkey::from(authority)).0.to_bytes();
        assert_eq!(proof_pubkey(&authority), Some(expected));
        assert_ne!(expected, authority);
    }
}

#[test]
fn treasury_tokens() {
    assert_eq!(treasury_tokens_pubkey(), TREASURY_TOKENS);
    assert_eq!(
        Pubkey::from(treasury_tokens_pubkey()),
        Pubkey::from_str("HqPcY2CUB4FL5EAGWN1yZkS6DHYUoMsnjoSpdGqV8wPC").unwrap()
    );
    assert_eq!(TREASURY_TOKENS, ore_api::consts::TREASURY_TOKENS_ADDRESS.to_bytes());
}

#[test]
fn well_known_addresses() {
    assert_eq!(ORE_PROGRAM, ore_api::ID.to_bytes());
    assert_eq!(TREASURY, ore_api::consts::TREASURY_ADDRESS.to_bytes());
    assert_eq!(MINT, ore_api::consts::MINT_ADDRESS.to_bytes());
    assert_eq!(CONFIG, ore_api::consts::CONFIG_ADDRESS.to_bytes());
    let buses = [BUS_0, BUS_1, BUS_2, BUS_3, BUS_4, BUS_5, BUS_6, BUS_7];
    for (bus, expected) in buses.iter().zip(ore_api::consts::BUS_ADDRESSES.iter()) {
        assert_eq!(*bus, expected.to_bytes());
    }
    assert_eq!(SYSVAR_INSTRUCTIONS, solana_program::sysvar::instructions::ID.to_bytes());
    assert_eq!(SYSVAR_SLOT_HASHES, solana_program::sysvar::slot_hashes::ID.to_bytes());
    assert_eq!(&PROOF_SEED[..], ore_api::consts::PROOF);
    let named = [
        (ORE_PROGRAM, "oreV2ZymfyeXgNgBdqMkumTqqAprVqgBWQfoYkrtKWQ"),
        (NOOP_PROGRAM, "noop8ytexvkpCuqbf6FB89BSuNemHtPRqaNC31GWivW"),
        (TOKEN_PROGRAM, "TokenkegQfeZyiNwAJbNbGKPFXCWuBvf9Ss623VQ5DA"),
        (TOKEN_ACCOUNT_PROGRAM, "ATokenGPvbdGVxr1b2hvZbsiqW5xWH25efTNsLJA8knL"),
        (TREASURY, "Dh5ZkjGD8EVujR7C8mxMyYaE2LRVarJ9W6bMofTgNJFP"),
        (MINT, "oreoU2P8bN6jkk3jbaiVxYnG1dCXcYxwhwyK9jSybcp"),
        (CONFIG, "2G3WKgP9Eemzgbzk5B4w2JSAizjWfEmEwa4JMfzLyXzM"),
        (BUS_0, "C8cEcoWJh6yMEZCm5Pga2PEMVpFq96YM5EBnb7eSVFAi"),
        (SYSVAR_INSTRUCTIONS, "Sysvar1nstructions1111111111111111111111111"),
        (SYSVAR_SLOT_HASHES, "SysvarS1otHashes111111111111111111111111111"),
    ];
    for (address, text) in named {
        assert_eq!(Pubkey::from(address).to_string(), text);
        assert_eq!(read_address(text), Ok(address));
    }
    assert_eq!(TOKEN_ACCOUNT_PROGRAM, spl_associated_token_account::ID.to_bytes());
}

/// Base58 by hand: a `1` for each zero byte in front, and then the number to base 58.
fn base58_by_hand(bytes: &[u8]) -> String {
    let alphabet = b"123456789ABCDEFGHJKLMNPQRSTUVWXYZabcdefghijkmnopqrstuvwxyz";
    let mut number = bytes.to_vec();
    let mut digits = Vec::new();
    while number.iter().any(|byte| *byte != 0) {
        let mut rest = 0u32;
        for byte in number.iter_mut() {
            let value = rest * 256 + *byte as u32;
            *byte = (value / 58) as u8;
            rest = value % 58;
        }
        digits.push(alphabet[rest as usize] as char);
    }
    for _ in bytes.iter().take_while(|byte| **byte == 0) {
        digits.push('1');
    }
    digits.into_iter().rev().collect()
}

#[test]
fn base58_texts() {
    let mut state = 3u32;
    for zeros in 0..=32usize {
        for _ in 0..10 {
            let mut address = [0u8; 32];
            for byte in address.iter_mut().skip(zeros) {
                state = state.wrapping_mul(1_664_525).wrapping_add(1_013_904_223);
                *byte = (state >> 24) as u8;
            }
            let text = base58_by_hand(&address);
            assert!(!text.is_empty() && text.len() <= 44);
            assert_eq!(Pubkey::from(address).to_string(), text);
            assert_eq!(bs58::encode(address).into_string(), text);
            assert_eq!(read_address(&text), Ok(address));
        }
    }
    assert_eq!(base58_by_hand(&[255; 32]).len(), 44);
    assert_eq!(read_address(&base58_by_hand(&[255; 32])), Ok([255; 32]));
}

#[test]
fn texts_that_are_no_address() {
    let wrong_size = ["", "1", "11111111111111111111111111111111z", "zzzzz"];
    for text in wrong_size {
        assert_eq!(read_address(text), Err(AddressError::WrongSize));
    }
    assert_eq!(read_address(&"z".repeat(44)), Err(AddressError::WrongSize));
    assert_eq!(read_address(&"0".repeat(45)), Err(AddressError::WrongSize));
    for text in ["0", "O", "I", "l", " ", "+", "\u{e9}", "1111111111111111111111111111111l"] {
        assert_eq!(read_address(text), Err(AddressError::Invalid));
    }
}
