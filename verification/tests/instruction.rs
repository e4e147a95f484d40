use mineore::address::{
    BUS_0, BUS_7, CONFIG, MINT, NOOP_PROGRAM, ORE_PROGRAM, SYSVAR_INSTRUCTIONS,
    SYSVAR_SLOT_HASHES, TOKEN_PROGRAM, TREASURY, TREASURY_TOKENS,
};
use mineore::drill::Solution;
use mineore::instruction::{Instruction, Submission};
use mineore::utils::proof_pubkey;

const SIGNER: [u8; 32] = [5; 32];

fn metas(ix: &Instruction) -> Vec<([u8; 32], bool, bool)> {
    ix.accounts.iter().map(|m| (m.pubkey, m.is_signer, m.is_writable)).collect()
}

#[test]
fn submission_without_reset() {
    let solution = Solution::new([1; 16], [2; 8]);
    let submission = Submission::new(&SIGNER, &BUS_7, &solution, false).unwrap();
    let account = proof_pubkey(&SIGNER).unwrap();
    assert_eq!(submission.compute_budget, 500_000);
    assert_eq!(submission.instructions.len(), 2);
    let auth = &submission.instructions[0];
    assert_eq!(auth.program_id, NOOP_PROGRAM);
    assert!(auth.accounts.is_empty());
    assert_eq!(auth.data, account.to_vec());
    let mine = &submission.instructions[1];
    assert_eq!(mine.program_id, ORE_PROGRAM);
    assert_eq!(
        metas(mine),
        vec![
            (SIGNER, true, true),
            (BUS_7, false, true),
            (CONFIG, false, false),
            (account, false, true),
            (SYSVAR_INSTRUCTIONS, false, false),
            (SYSVAR_SLOT_HASHES, false, false),
        ]
    );
    let mut data = vec![2u8];
    data.extend_from_slice(&[1; 16]);
    data.extend_from_slice(&[2; 8]);
    assert_eq!(mine.data, data);
}

#[test]
fn submission_with_reset() {
    let solution = Solution::new([1; 16], [2; 8]);
    let submission = Submission::new(&SIGNER, &BUS_0, &solution, true).unwrap();
    assert_eq!(submission.compute_budget, 600_000);
    assert_eq!(submission.instructions.len(), 3);
    let reset = &submission.instructions[1];
    assert_eq!(reset.program_id, ORE_PROGRAM);
    assert_eq!(reset.data, vec![4u8]);
    let mut expected = vec![(SIGNER, true, true)];
    for bus in ore_api::consts::BUS_ADDRESSES.iter() {
        expected.push((bus.to_bytes(), false, true));
    }
    for address in [CONFIG, MINT, TREASURY, TREASURY_TOKENS] {
        expected.push((address, false, true));
    }
    expected.push((TOKEN_PROGRAM, false, false));
    assert_eq!(metas(reset), expected);
    assert_eq!(submission.instructions[0].program_id, NOOP_PROGRAM);
    assert_eq!(submission.instructions[2].data[0], 2);
}
