//! Log lines, durations and derived addresses.

use crate::address::{
    find_program_address, program_address, MINT, ORE_PROGRAM, PROOF_SEED, TOKEN_ACCOUNT_PROGRAM,
    TOKEN_PROGRAM, TREASURY, TREASURY_TOKENS,
};
use crate::text::{clock, clock_text};
use colored::Colorize;
use vstd::prelude::*;
use vstd::string::StringExecFns;

verus! {

/// What switches a terminal to bold letters of a colour.
pub open spec fn switch_on(color: Seq<char>) -> Seq<char> {
    "\x1B[1;"@ + color + "m"@
}

/// What switches a terminal back to plain letters.
pub open spec fn switch_off() -> Seq<char> {
    "\x1B[0m"@
}

/// `text` with `on` after every place where it switches back to plain letters.
pub open spec fn switched_on_again(text: Seq<char>, on: Seq<char>) -> Seq<char>
    decreases text.len(),
{
    let off = switch_off();
    if text.len() == 0 {
        text
    } else if off.len() > 0 && off.is_prefix_of(text) {
        off + on + switched_on_again(text.skip(off.len() as int), on)
    } else {
        seq![text[0]] + switched_on_again(text.skip(1), on)
    }
}

/// Whether `out` is `text` in bold letters of a colour, or as it is.
pub open spec fn painted(out: Seq<char>, text: Seq<char>, color: Seq<char>) -> bool {
    let on = switch_on(color);
    out == text || out == on + switched_on_again(text, on) + switch_off()
}

/// The `Display` of `colored`'s `red().bold()`: the text in bold red letters, or
/// as it is. Which of the two depends on the environment and the terminal.
#[verifier::external_body]
fn red_bold(text: &str) -> (out: String)
    ensures
        painted(out@, text@, "31"@),
{
    text.red().bold().to_string()
}

/// The `Display` of `colored`'s `green().bold()`: the text in bold green letters,
/// or as it is. Which of the two depends on the environment and the terminal.
#[verifier::external_body]
pub(crate) fn green_bold(text: &str) -> (out: String)
    ensures
        painted(out@, text@, "32"@),
{
    text.green().bold().to_string()
}

/// The `Display` of `colored`'s `cyan().bold()`: the text in bold cyan letters,
/// or as it is. Which of the two depends on the environment and the terminal.
#[verifier::external_body]
fn cyan_bold(text: &str) -> (out: String)
    ensures
        painted(out@, text@, "36"@),
{
    text.cyan().bold().to_string()
}

/// What is logged of an error.
pub open spec fn error_line(message: Seq<char>, is_fatal: bool) -> Seq<char> {
    if is_fatal {
        "FATAL ERROR: "@ + message
    } else {
        "ERROR: "@ + message
    }
}

/// What is logged for information.
pub open spec fn info_line(message: Seq<char>) -> Seq<char> {
    "INFO: "@ + message
}

/// The line to log for an error, in red.
pub fn log_error(error_message: &str, is_fatal: bool) -> (out: String)
    ensures
        painted(out@, error_line(error_message@, is_fatal), "31"@),
{
    let mut line = String::new();
    if is_fatal {
        line.append("FATAL ERROR: ");
    } else {
        line.append("ERROR: ");
    }
    line.append(error_message);
    assert(line@ =~= error_line(error_message@, is_fatal));
    red_bold(line.as_str())
}

/// The line to log for information, in cyan.
pub fn log_info(message: &str) -> (out: String)
    ensures
        painted(out@, info_line(message@), "36"@),
{
    let mut line = String::new();
    line.append("INFO: ");
    line.append(message);
    assert(line@ =~= info_line(message@));
    cyan_bold(line.as_str())
}

/// A duration in whole minutes and seconds.
pub fn format_duration_ms(milliseconds: u128) -> (out: String)
    ensures
        out@ == clock(milliseconds as nat / 1000),
{
    clock_text(milliseconds / 1000)
}

/// The address of the proof account of `authority`.
pub open spec fn proof_address(authority: Seq<u8>) -> Option<Seq<u8>> {
    match program_address(seq![PROOF_SEED@, authority], ORE_PROGRAM@) {
        Some(found) => Some(found.0),
        None => None,
    }
}

/// The address of the proof account of `authority`; nothing where none can be
/// derived.
pub fn proof_pubkey(authority: &[u8; 32]) -> (out: Option<[u8; 32]>)
    ensures
        match out {
            Some(address) => proof_address(authority@) == Some(address@),
            None => proof_address(authority@) is None,
        },
{
    let seeds: [&[u8]; 2] = [PROOF_SEED.as_slice(), authority.as_slice()];
    proof {
        assert(seeds@.map_values(|seed: &[u8]| seed@) =~= seq![PROOF_SEED@, authority@]);
    }
    match find_program_address(seeds.as_slice(), &ORE_PROGRAM) {
        Some(found) => Some(found.0),
        None => None,
    }
}

/// The address of the token account that a wallet has for a mint.
pub open spec fn token_address(wallet: Seq<u8>, mint: Seq<u8>) -> Option<Seq<u8>> {
    match program_address(seq![wallet, TOKEN_PROGRAM@, mint], TOKEN_ACCOUNT_PROGRAM@) {
        Some(found) => Some(found.0),
        None => None,
    }
}

/// `spl_associated_token_account::get_associated_token_address`: the address that its
/// program derives from the wallet, the token program and the mint. It panics where
/// there is none. That of the treasury is known.
#[verifier::external_body]
fn associated_token_address(wallet: &[u8; 32], mint: &[u8; 32]) -> (out: [u8; 32])
    requires
        token_address(wallet@, mint@) is Some || (wallet@ == TREASURY@ && mint@ == MINT@),
    ensures
        token_address(wallet@, mint@) == Some(out@),
        wallet@ == TREASURY@ && mint@ == MINT@ ==> out@ == TREASURY_TOKENS@,
{
    let wallet = solana_program::pubkey::Pubkey::from(*wallet);
    let mint = solana_program::pubkey::Pubkey::from(*mint);
    spl_associated_token_account::get_associated_token_address(&wallet, &mint).to_bytes()
}

/// The address of the treasury's token account.
pub fn treasury_tokens_pubkey() -> (out: [u8; 32])
    ensures
        token_address(TREASURY@, MINT@) == Some(out@),
        out@ == TREASURY_TOKENS@,
{
    associated_token_address(&TREASURY, &MINT)
}

/// A line that is logged is the message itself behind a label that says what it is.
pub proof fn law_log_lines(message: Seq<char>)
    ensures
        error_line(message, true) == "FATAL ERROR: "@ + message,
        error_line(message, false) == "ERROR: "@ + message,
        info_line(message) == "INFO: "@ + message,
{
}

/// A painted text is the text itself, or stands between what switches to bold letters of the
/// colour and what switches back, unchanged where it does not switch back itself.
pub proof fn law_painted_text(out: Seq<char>, text: Seq<char>, color: Seq<char>)
    requires
        painted(out, text, color),
        forall|i: int|
            0 <= i < text.len() ==> !("\x1B[0m"@.is_prefix_of(#[trigger] text.skip(i))),
    ensures
        out == text || out == "\x1B[1;"@ + color + "m"@ + text + "\x1B[0m"@,
{
    let on = switch_on(color);
    lemma_nothing_to_switch(text, on);
}

proof fn lemma_nothing_to_switch(text: Seq<char>, on: Seq<char>)
    requires
        forall|i: int|
            0 <= i < text.len() ==> !("\x1B[0m"@.is_prefix_of(#[trigger] text.skip(i))),
    ensures
        switched_on_again(text, on) == text,
    decreases text.len(),
{
    if text.len() > 0 {
        let rest = text.skip(1);
        assert(text.skip(0) =~= text);
        assert forall|i: int| 0 <= i < rest.len() implies !("\x1B[0m"@.is_prefix_of(
            #[trigger] rest.skip(i),
        )) by {
            assert(rest.skip(i) =~= text.skip(i + 1));
        }
        lemma_nothing_to_switch(rest, on);
        assert(seq![text[0]] + rest =~= text);
    }
}

/// The proof account of an authority is derived by the ORE program from the letters of
/// "proof" and the authority, and from nothing else.
pub proof fn law_proof_address(authority: Seq<u8>)
    ensures
        proof_address(authority) == match program_address(
            seq![seq![112u8, 114, 111, 111, 102], authority],
            ORE_PROGRAM@,
        ) {
            Some((address, _)) => Some(address),
            None => None,
        },
{
    assert(PROOF_SEED@ =~= seq![112u8, 114, 111, 111, 102]);
}

/// The token account of a wallet for a mint is derived by its program from the wallet, the
/// token program and the mint, in this order.
pub proof fn law_token_address(wallet: Seq<u8>, mint: Seq<u8>)
    ensures
        token_address(wallet, mint) == match program_address(
            seq![wallet, TOKEN_PROGRAM@, mint],
            TOKEN_ACCOUNT_PROGRAM@,
        ) {
            Some((address, _)) => Some(address),
            None => None,
        },
{
}

} // verus!
