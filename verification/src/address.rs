//! Addresses: their text, the well-known ones, and those derived from others.

use crate::base58::{base58, is_base58, law_base58_of_an_address, law_base58_tells_bytes};
use std::str::FromStr;
use vstd::prelude::*;
use vstd::utf8::encode_utf8;

verus! {

/// The ORE program, `oreV2ZymfyeXgNgBdqMkumTqqAprVqgBWQfoYkrtKWQ`.
pub const ORE_PROGRAM: [u8; 32] = [
    12, 0, 218, 56, 141, 104, 231, 117, 177, 181, 197, 109, 1, 141, 62, 76,
    214, 134, 116, 12, 241, 199, 17, 129, 167, 81, 49, 80, 203, 81, 31, 217,
];

/// The program that does nothing, `noop8ytexvkpCuqbf6FB89BSuNemHtPRqaNC31GWivW`.
pub const NOOP_PROGRAM: [u8; 32] = [
    11, 188, 15, 182, 203, 29, 221, 28, 227, 242, 242, 171, 26, 14, 188, 177,
    157, 107, 138, 3, 18, 82, 116, 20, 91, 31, 128, 139, 185, 154, 240, 91,
];

/// The token program, `TokenkegQfeZyiNwAJbNbGKPFXCWuBvf9Ss623VQ5DA`.
pub const TOKEN_PROGRAM: [u8; 32] = [
    6, 221, 246, 225, 215, 101, 161, 147, 217, 203, 225, 70, 206, 235, 121, 172,
    28, 180, 133, 237, 95, 91, 55, 145, 58, 140, 245, 133, 126, 255, 0, 169,
];

/// The program of associated token accounts, `ATokenGPvbdGVxr1b2hvZbsiqW5xWH25efTNsLJA8knL`.
pub const TOKEN_ACCOUNT_PROGRAM: [u8; 32] = [
    140, 151, 37, 143, 78, 36, 137, 241, 187, 61, 16, 41, 20, 142, 13, 131,
    11, 90, 19, 153, 218, 255, 16, 132, 4, 142, 123, 216, 219, 233, 248, 89,
];

/// The account of the treasury, `Dh5ZkjGD8EVujR7C8mxMyYaE2LRVarJ9W6bMofTgNJFP`.
pub const TREASURY: [u8; 32] = [
    188, 144, 163, 7, 43, 86, 65, 27, 236, 144, 216, 50, 104, 103, 163, 23,
    35, 188, 188, 160, 136, 218, 93, 87, 113, 86, 181, 82, 71, 76, 236, 30,
];

/// The mint of the ORE token, `oreoU2P8bN6jkk3jbaiVxYnG1dCXcYxwhwyK9jSybcp`.
pub const MINT: [u8; 32] = [
    12, 0, 219, 206, 184, 206, 170, 115, 88, 148, 90, 71, 91, 202, 159, 0,
    42, 208, 178, 230, 216, 176, 99, 200, 37, 168, 88, 22, 67, 185, 245, 117,
];

/// The token account of the treasury, `HqPcY2CUB4FL5EAGWN1yZkS6DHYUoMsnjoSpdGqV8wPC`.
pub const TREASURY_TOKENS: [u8; 32] = [
    250, 32, 112, 25, 47, 160, 210, 30, 255, 237, 206, 218, 4, 89, 106, 15,
    107, 40, 45, 79, 168, 58, 252, 164, 142, 84, 114, 68, 169, 228, 102, 55,
];

/// The account of the program's configuration, `2G3WKgP9Eemzgbzk5B4w2JSAizjWfEmEwa4JMfzLyXzM`.
pub const CONFIG: [u8; 32] = [
    18, 182, 59, 106, 229, 86, 186, 133, 185, 54, 107, 226, 145, 180, 78, 105,
    87, 152, 157, 18, 49, 200, 247, 61, 137, 205, 48, 160, 0, 72, 91, 70,
];

/// Bus number 0, `C8cEcoWJh6yMEZCm5Pga2PEMVpFq96YM5EBnb7eSVFAi`.
pub const BUS_0: [u8; 32] = [
    165, 99, 118, 66, 37, 47, 225, 100, 213, 190, 154, 70, 68, 234, 92, 86,
    198, 31, 199, 105, 93, 130, 23, 55, 250, 43, 16, 137, 152, 69, 44, 187,
];

/// Bus number 1, `4Sykpy3XtAyTQUddVeSeXwx2pWQqz8jUJS582mVY5hFd`.
pub const BUS_1: [u8; 32] = [
    51, 58, 193, 59, 65, 125, 19, 254, 212, 1, 40, 38, 250, 143, 141, 52,
    210, 187, 250, 24, 115, 246, 167, 56, 82, 209, 136, 204, 74, 12, 52, 128,
];

/// Bus number 2, `M9MspudY8SgTXBq78XTJBoNKF2Z9pHcuY2Jti7YzbFd`.
pub const BUS_2: [u8; 32] = [
    5, 41, 17, 156, 85, 69, 94, 44, 28, 42, 19, 3, 194, 230, 237, 82,
    213, 251, 115, 73, 106, 86, 168, 171, 28, 173, 156, 132, 150, 104, 218, 112,
];

/// Bus number 3, `7PaX43nkYDySeHZndWHNNznqMrPZ7Rkmmo735iHJFyY1`.
pub const BUS_3: [u8; 32] = [
    94, 238, 204, 103, 21, 106, 14, 67, 21, 126, 150, 26, 27, 99, 230, 50,
    93, 180, 56, 241, 145, 48, 205, 118, 161, 113, 36, 164, 62, 110, 77, 102,
];

/// Bus number 4, `AbCULZaMMB1TqzFkLMG2Tika6P1B52Q1mkjHnSWXiksC`.
pub const BUS_4: [u8; 32] = [
    142, 123, 230, 136, 163, 90, 151, 218, 182, 157, 192, 98, 135, 108, 203, 118,
    72, 101, 15, 230, 106, 183, 24, 7, 149, 87, 104, 128, 247, 190, 128, 147,
];

/// Bus number 5, `AbaPgzLdr1SppgPBX1WwrrJamhtJVAyMv6GZQ3mQEw6i`.
pub const BUS_5: [u8; 32] = [
    142, 148, 175, 117, 237, 73, 148, 217, 48, 81, 196, 100, 7, 117, 33, 24,
    182, 135, 194, 119, 168, 153, 29, 103, 154, 199, 88, 20, 133, 28, 30, 219,
];

/// Bus number 6, `2oLNTQKRb4a2117kFi6BYTUDu3RPrMVAHFhCfPKMosxX`.
pub const BUS_6: [u8; 32] = [
    26, 186, 78, 71, 139, 161, 132, 70, 128, 182, 107, 112, 140, 144, 236, 37,
    132, 90, 224, 43, 70, 77, 138, 147, 40, 63, 200, 151, 77, 31, 118, 204,
];

/// Bus number 7, `5HngGmYzvSuh3XyU11brHDpMTHXQQRQQT4udGFtQSjgR`.
pub const BUS_7: [u8; 32] = [
    63, 187, 176, 27, 25, 49, 164, 49, 149, 224, 80, 51, 73, 75, 118, 144,
    73, 26, 243, 227, 47, 22, 183, 74, 178, 74, 49, 44, 73, 42, 167, 14,
];

/// The instructions of the running transaction, `Sysvar1nstructions1111111111111111111111111`.
pub const SYSVAR_INSTRUCTIONS: [u8; 32] = [
    6, 167, 213, 23, 24, 123, 209, 102, 53, 218, 212, 4, 85, 253, 194, 192,
    193, 36, 198, 143, 33, 86, 117, 165, 219, 186, 203, 95, 8, 0, 0, 0,
];

/// The hashes of the recent slots, `SysvarS1otHashes111111111111111111111111111`.
pub const SYSVAR_SLOT_HASHES: [u8; 32] = [
    6, 167, 213, 23, 25, 47, 10, 175, 198, 242, 101, 227, 251, 119, 204, 122,
    218, 130, 197, 41, 208, 190, 59, 19, 110, 45, 0, 85, 32, 0, 0, 0,
];

/// The seed of the address of a proof account: the letters of "proof".
pub const PROOF_SEED: [u8; 5] = [112, 114, 111, 111, 102];

/// Why a text is no address: it has not the size of one, or is not base58.
#[derive(Clone, Copy, Debug, PartialEq, Eq, Structural)]
pub enum AddressError {
    WrongSize,
    Invalid,
}

/// The address that a program derives from some seeds, with its bump; nothing
/// where there is none.
pub uninterp spec fn program_address(seeds: Seq<Seq<u8>>, program: Seq<u8>) -> Option<
    (Seq<u8>, u8),
>;

/// What a text reads as: at most 44 bytes of base58 that stand for 32 bytes are
/// an address.
pub open spec fn parsed_address(text: Seq<char>) -> Result<Seq<u8>, AddressError> {
    if encode_utf8(text).len() > 44 {
        Err(AddressError::WrongSize)
    } else if !is_base58(text) {
        Err(AddressError::Invalid)
    } else if exists|address: Seq<u8>| #[trigger] is_text_of(text, address) {
        Ok(choose|address: Seq<u8>| #[trigger] is_text_of(text, address))
    } else {
        Err(AddressError::WrongSize)
    }
}

/// Whether a text is that of an address.
pub open spec fn is_text_of(text: Seq<char>, address: Seq<u8>) -> bool {
    &&& address.len() == 32
    &&& base58(address) == text
}

/// An address reads back from its base58 text.
pub proof fn law_address_reads_back(address: Seq<u8>)
    requires
        address.len() == 32,
    ensures
        parsed_address(base58(address)) == Ok::<Seq<u8>, AddressError>(address),
{
    let text = base58(address);
    law_base58_of_an_address(address);
    assert(is_text_of(text, address));
    let read = choose|read: Seq<u8>| #[trigger] is_text_of(text, read);
    law_base58_tells_bytes(read, address);
}

/// A text that reads as an address is the base58 text of that address.
pub proof fn law_text_reads_back(text: Seq<char>)
    requires
        parsed_address(text) is Ok,
    ensures
        base58(parsed_address(text)->Ok_0) == text,
        parsed_address(text)->Ok_0.len() == 32,
{
}

/// `bs58::encode` into a string: the base58 text of the bytes.
#[verifier::external_body]
pub(crate) fn base58_text(bytes: &[u8]) -> (out: String)
    ensures
        out@ == base58(bytes@),
{
    bs58::encode(bytes).into_string()
}

/// The `Display` of `solana_program::pubkey::Pubkey`: the base58 text of the
/// address.
#[verifier::external_body]
pub(crate) fn address_text(address: &[u8; 32]) -> (out: String)
    ensures
        out@ == base58(address@),
{
    solana_program::pubkey::Pubkey::from(*address).to_string()
}

/// `solana_program::pubkey::Pubkey::from_str`: the address that the text is the
/// base58 text of, or the error: `WrongSize` for more than 44 bytes of text and for
/// base58 that stands for anything but 32 bytes, `Invalid` for what is not base58.
#[verifier::external_body]
fn parse_address(text: &str) -> (out: Result<[u8; 32], AddressError>)
    ensures
        match out {
            Ok(address) => base58(address@) == text@,
            Err(AddressError::Invalid) => encode_utf8(text@).len() <= 44 && !is_base58(text@),
            Err(AddressError::WrongSize) => encode_utf8(text@).len() > 44 || (is_base58(text@)
                && forall|address: Seq<u8>| !(#[trigger] is_text_of(text@, address))),
        },
{
    match solana_program::pubkey::Pubkey::from_str(text) {
        Ok(key) => Ok(key.to_bytes()),
        Err(solana_program::pubkey::ParsePubkeyError::WrongSize) => Err(AddressError::WrongSize),
        Err(solana_program::pubkey::ParsePubkeyError::Invalid) => Err(AddressError::Invalid),
    }
}

/// The address that a text reads as, or why it is none.
pub fn read_address(text: &str) -> (out: Result<[u8; 32], AddressError>)
    ensures
        match out {
            Ok(address) => parsed_address(text@) == Ok::<Seq<u8>, AddressError>(address@),
            Err(error) => parsed_address(text@) == Err::<Seq<u8>, AddressError>(error),
        },
{
    let out = parse_address(text);
    proof {
        if let Ok(address) = out {
            law_address_reads_back(address@);
        }
    }
    out
}

/// `solana_program::pubkey::Pubkey::try_find_program_address`: the address that
/// the program derives from the seeds, with its bump.
#[verifier::external_body]
pub(crate) fn find_program_address(seeds: &[&[u8]], program: &[u8; 32]) -> (out: Option<([u8; 32], u8)>)
    ensures
        match out {
            Some(found) => program_address(seeds@.map_values(|seed: &[u8]| seed@), program@)
                == Some((found.0@, found.1)),
            None => program_address(seeds@.map_values(|seed: &[u8]| seed@), program@) is None,
        },
{
    let program = solana_program::pubkey::Pubkey::from(*program);
    solana_program::pubkey::Pubkey::try_find_program_address(seeds, &program)
        .map(|found| (found.0.to_bytes(), found.1))
}

/// What is wrong with a text that is no address: it is too long, or not base58, or base58 of
/// anything but 32 bytes.
pub proof fn law_address_errors(text: Seq<char>)
    ensures
        encode_utf8(text).len() > 44 ==> parsed_address(text) == Err::<Seq<u8>, AddressError>(
            AddressError::WrongSize,
        ),
        encode_utf8(text).len() <= 44 && !is_base58(text) ==> parsed_address(text) == Err::<
            Seq<u8>,
            AddressError,
        >(AddressError::Invalid),
        is_base58(text) && (forall|address: Seq<u8>|
            address.len() == 32 ==> #[trigger] base58(address) != text) ==> parsed_address(text)
            == Err::<Seq<u8>, AddressError>(AddressError::WrongSize),
{
    if forall|address: Seq<u8>| address.len() == 32 ==> #[trigger] base58(address) != text {
        assert forall|address: Seq<u8>| !(#[trigger] is_text_of(text, address)) by {}
    }
}

} // verus!
