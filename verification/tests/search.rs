use mineore::drill::DrillHash;
use mineore::miner::Miner;
use mineore::search::{
    check, first_nonce, join_reports, publish, summary, Best, CoreReport, CoreSearch, Pause,
};

const CHALLENGE: [u8; 32] = [42; 32];

fn expected_best(first: u64, last: u64) -> (u64, u32, [u8; 16], [u8; 32]) {
    let mut best = (first, 0, [0u8; 16], [0u8; 32]);
    for nonce in first..=last {
        if let Ok(hash) = drillx::hash(&CHALLENGE, &nonce.to_le_bytes()) {
            if hash.difficulty() > best.1 {
                best = (nonce, hash.difficulty(), hash.d, hash.h);
            }
        }
    }
    best
}

fn of(best: &Best) -> (u64, u32, [u8; 16], [u8; 32]) {
    (best.nonce, best.difficulty, best.hash.d, best.hash.h)
}

fn run_to_clock(search: &mut CoreSearch, memory: &mut drillx::equix::SolverMemory) {
    while !search.run(memory).unwrap().clock {}
}

fn report(nonce: u64, difficulty: u32, count: u64) -> Option<CoreReport> {
    let hash = DrillHash { d: [nonce as u8; 16], h: [difficulty as u8; 32] };
    Some(CoreReport { best: Best { nonce, difficulty, hash }, count })
}

#[test]
fn first_nonces() {
    assert_eq!(first_nonce(0, 0, 1), 0);
    assert_eq!(first_nonce(1, 0, 1), u64::MAX);
    assert_eq!(first_nonce(1, 0, 2), 9_223_372_036_854_775_807);
    assert_eq!(first_nonce(1, 2, 4), u64::MAX / 4 * 3);
    assert_eq!(first_nonce(5, 0, 4), u64::MAX);
    assert_eq!(first_nonce(0, u64::MAX, u64::MAX), u64::MAX);
}

#[test]
fn shares_do_not_overlap() {
    for total in [1u64, 2, 3, 7, 64, 1000] {
        let share = u64::MAX / total;
        for core in 1..total {
            assert!(first_nonce(core, 0, total) >= first_nonce(core - 1, 0, total) + share);
        }
        assert!(first_nonce(total - 1, 0, total).checked_add(share).is_some());
    }
}

#[test]
fn core_not_in_use() {
    assert!(CoreSearch::start(CHALLENGE, 4, 4, 0, 8).is_none());
    let idle = CoreReport::idle();
    assert_eq!(of(&idle.best), (0, 0, [0; 16], [0; 32]));
    assert_eq!(idle.count, 0);
}

#[test]
fn search_looks_at_the_clock_at_once() {
    let mut memory = drillx::equix::SolverMemory::new();
    let mut search = CoreSearch::start(CHALLENGE, 0, 1, 0, 1).unwrap();
    assert_eq!(of(&search.best()), (0, 0, [0; 16], [0; 32]));
    let expected = expected_best(0, 0);
    let pause = search.run(&mut memory).unwrap();
    assert_eq!(pause, Pause { improved: expected.1 > 0, clock: true });
    assert_eq!(of(&search.best()), expected);
    assert_eq!(search.report().count, 0);
}

#[test]
fn search_finds_the_best_nonce() {
    let mut memory = drillx::equix::SolverMemory::new();
    let mut search = CoreSearch::start(CHALLENGE, 1, 2, 0, 17).unwrap();
    let first = u64::MAX / 17;
    assert_eq!(first % 100, 95);
    let mut reached = 0;
    loop {
        let pause = search.run(&mut memory).unwrap();
        let nonce = first + search.report().count;
        assert_eq!(of(&search.best()), expected_best(first, nonce));
        assert_eq!(pause.improved, search.best().difficulty > reached);
        assert_eq!(pause.clock, nonce % 100 == 0);
        reached = search.best().difficulty;
        if pause.clock {
            break;
        }
    }
    assert_eq!(of(&search.best()), expected_best(first, first + 5));
    assert_eq!(search.report().count, 5);
    assert_eq!(of(&search.report().best), of(&search.best()));
}

#[test]
fn nonces_run_out() {
    let mut memory = drillx::equix::SolverMemory::new();
    let mut search = CoreSearch::start(CHALLENGE, 1, 2, 0, 1).unwrap();
    let mut pauses = 0;
    while let Some(pause) = search.run(&mut memory) {
        assert_eq!(pause, Pause { improved: true, clock: false });
        pauses += 1;
    }
    let (nonce, difficulty) = match drillx::hash(&CHALLENGE, &u64::MAX.to_le_bytes()) {
        Ok(hash) => (u64::MAX, hash.difficulty()),
        Err(_) => (u64::MAX, 0),
    };
    assert_eq!((search.best().nonce, search.best().difficulty), (nonce, difficulty));
    assert_eq!(pauses, if difficulty > 0 { 1 } else { 0 });
    assert_eq!(search.report().count, 0);
    assert!(search.run(&mut memory).is_none());
}

#[test]
fn record_keeps_the_first_of_equals() {
    let easy = DrillHash { d: [1; 16], h: [0x10; 32] };
    let same = DrillHash { d: [2; 16], h: [0x1f; 32] };
    let hard = DrillHash { d: [3; 16], h: [0; 32] };
    let mut best = Best::none(9);
    assert!(!best.record(9, None));
    assert!(!best.record(9, Some(DrillHash { d: [0; 16], h: [0x80; 32] })));
    assert!(best.record(10, Some(easy)));
    assert_eq!(of(&best), (10, 3, [1; 16], [0x10; 32]));
    assert!(!best.record(11, Some(same)));
    assert!(best.record(12, Some(hard)));
    assert_eq!(of(&best), (12, 256, [3; 16], [0; 32]));
}

#[test]
fn difficulty_counts_zero_bits() {
    let mut h = [0u8; 32];
    h[2] = 0x05;
    h[3] = 0xff;
    let mut best = Best::none(0);
    assert!(best.record(1, Some(DrillHash { d: [0; 16], h })));
    assert_eq!(best.difficulty, 21);
    assert_eq!(best.difficulty, drillx::difficulty(h));
}

#[test]
fn check_before_the_cutoff() {
    let shown = check(0, 10, 75, 9, 3);
    assert!(!shown.stop);
    assert_eq!(shown.progress, Some("Mining... (difficulty 9, time 01:05)".to_string()));
    let quiet = check(1, 10, 75, 9, 3);
    assert!(!quiet.stop);
    assert_eq!(quiet.progress, None);
}

#[test]
fn check_after_the_cutoff() {
    let stopped = check(0, 75, 75, 9, 9);
    assert!(stopped.stop);
    assert_eq!(stopped.progress, Some("Mining... (difficulty 9)".to_string()));
    let goes_on = check(3, 80, 75, 8, 9);
    assert!(!goes_on.stop);
    assert_eq!(goes_on.progress, None);
    assert!(check(3, 80, 75, 10, 9).stop);
}

#[test]
fn check_of_a_far_cutoff() {
    let shown = check(0, 5, (1u64 << 32) + 66, 0, 0);
    assert_eq!(shown.progress, Some("Mining... (difficulty 0, time 01:01)".to_string()));
}

#[test]
fn publishing() {
    assert_eq!(publish(8, 7), Some(8));
    assert_eq!(publish(7, 7), None);
    assert_eq!(publish(6, 7), None);
}

#[test]
fn joining_no_reports() {
    let joint = join_reports(&vec![]);
    assert_eq!(of(&joint.best), (0, 0, [0; 16], [0; 32]));
    assert_eq!(joint.count, 0);
    let joint = join_reports(&vec![None, report(5, 0, 7)]);
    assert_eq!(of(&joint.best), (0, 0, [0; 16], [0; 32]));
    assert_eq!(joint.count, 7);
}

#[test]
fn joining_reports() {
    let reports = vec![report(1, 4, 10), None, report(2, 9, 20), report(3, 9, 30), report(4, 8, 5)];
    let joint = join_reports(&reports);
    assert_eq!(of(&joint.best), (2, 9, [2; 16], [9; 32]));
    assert_eq!(joint.count, 65);
}

#[test]
fn findings_of_the_cores() {
    let reports = vec![report(1, 4, 10), report(0x0102, 9, 20)];
    let (findings, line) = Miner::find_hash_par_worker(&reports);
    assert_eq!(findings.solution.d, [2; 16]);
    assert_eq!(findings.solution.n, [2, 1, 0, 0, 0, 0, 0, 0]);
    assert_eq!(findings.best_difficulty, 9);
    assert_eq!(findings.total_nonces, 30);
    let hash = bs58::encode([9u8; 32]).into_string();
    assert_eq!(line, format!("Best hash: {} (difficulty: 9)", hash));
}

#[test]
fn summary_of_a_hash() {
    let best = Best { nonce: 1, difficulty: 17, hash: DrillHash { d: [0; 16], h: [0; 32] } };
    assert_eq!(summary(&best), "Best hash: 11111111111111111111111111111111 (difficulty: 17)");
}

#[test]
fn solution_is_genuine() {
    let mut memory = drillx::equix::SolverMemory::new();
    let mut reports = Vec::new();
    for core_offset in [0u64, 1] {
        let mut search = CoreSearch::start(CHALLENGE, 0, 1, core_offset, 17).unwrap();
        run_to_clock(&mut search, &mut memory);
        reports.push(Some(search.report()));
    }
    let (findings, _) = Miner::find_hash_par_worker(&reports);
    let first = u64::MAX / 17;
    let (one, other) = (expected_best(0, 0), expected_best(first, first + 5));
    let best = if other.1 > one.1 { other } else { one };
    assert!(best.1 > 0);
    assert_eq!(findings.best_difficulty, best.1);
    assert_eq!(findings.solution.n, best.0.to_le_bytes());
    let solution = drillx::Solution::new(findings.solution.d, findings.solution.n);
    assert!(solution.is_valid(&CHALLENGE));
    assert_eq!(solution.to_hash().difficulty(), findings.best_difficulty);
}

#[test]
fn best_only_grows() {
    let mut memory = drillx::equix::SolverMemory::new();
    let mut search = CoreSearch::start(CHALLENGE, 1, 2, 0, 17).unwrap();
    let early = search.best().difficulty;
    run_to_clock(&mut search, &mut memory);
    assert!(search.best().difficulty >= early);
    let mut best = Best::none(0);
    let mut reached = 0;
    for (nonce, byte) in [0x40u8, 0x01, 0x80, 0x02, 0x00, 0x10].into_iter().enumerate() {
        best.record(nonce as u64, Some(DrillHash { d: [0; 16], h: [byte; 32] }));
        assert!(best.difficulty >= reached);
        reached = best.difficulty;
    }
    assert_eq!((best.nonce, reached), (4, 256));
}

#[test]
fn minimum_is_met() {
    let mut global_best = 0;
    let reports = vec![report(1, 4, 10), report(2, 11, 20), report(3, 7, 30)];
    for found in reports.iter().flatten() {
        if let Some(improved) = publish(found.best.difficulty, global_best) {
            global_best = improved;
        }
    }
    assert_eq!(global_best, 11);
    for min_difficulty in 0..20 {
        if check(1, 60, 60, global_best, min_difficulty).stop {
            assert!(join_reports(&reports).best.difficulty >= min_difficulty);
        } else {
            assert!(min_difficulty > 11);
        }
    }
}

#[test]
fn calls_share_no_nonce() {
    // Two workers with two cores each, of four, that stay within their shares.
    let share = u64::MAX / 4;
    let ranges = |core_offset: u64| -> Vec<(u64, u64)> {
        (0..2)
            .map(|core| {
                let first = first_nonce(core, core_offset, 4);
                (first, first + share - 1)
            })
            .collect()
    };
    for (first, last) in ranges(0) {
        for (other_first, other_last) in ranges(2) {
            assert!(last < other_first || other_last < first);
        }
    }
}
