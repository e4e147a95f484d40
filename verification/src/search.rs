//! The search for the best nonce: one search per core, and the best of all
//! cores.

use crate::address::base58_text;
use crate::base58::base58;
use crate::bytes::{le_bytes, u64_le};
use crate::drill::{
    attempt, attempt_difficulty, drill, hash_with_memory, leading_zeros, DrillHash,
};
use crate::text::{clock, clock_text, decimal, decimal_text, joined3};
use vstd::prelude::*;
use vstd::string::StringExecFns;

verus! {

/// How often a core looks at the clock: at every nonce that is a multiple of this.
pub const CHECK_INTERVAL: u64 = 100;

/// A nonce with the hash and the difficulty that it reached.
#[derive(Clone, Copy, Debug)]
pub struct Best {
    pub nonce: u64,
    pub difficulty: u32,
    pub hash: DrillHash,
}

/// The first nonce that core number `global` of `total` tries: the cores divide
/// the nonces evenly between them.
pub open spec fn first_nonce_of(total: u64, global: nat) -> nat {
    let start = (u64::MAX as nat / total as nat) * global;
    if start > u64::MAX {
        u64::MAX as nat
    } else {
        start
    }
}

/// Whether `best` is the best of the nonces from `first` up to but not
/// including `end`: none of them is more difficult, and none before it is as
/// difficult. Where none has any difficulty the best is the first one, with a
/// hash of zeros.
pub open spec fn is_best(challenge: Seq<u8>, first: u64, end: int, best: Best) -> bool {
    &&& forall|n: u64|
        first <= n < end ==> #[trigger] attempt_difficulty(challenge, n) <= best.difficulty
    &&& if best.difficulty == 0 {
        &&& best.nonce == first
        &&& best.hash.is_zero()
    } else {
        &&& first <= best.nonce < end
        &&& attempt(challenge, best.nonce) == Some((best.hash.d@, best.hash.h@))
        &&& leading_zeros(best.hash.h@) == best.difficulty
        &&& forall|n: u64|
            first <= n < best.nonce ==> #[trigger] attempt_difficulty(challenge, n)
                < best.difficulty
    }
}

impl Best {
    /// The best of no nonce at all, for a search that begins at `first`.
    pub fn none(first: u64) -> (out: Best)
        ensures
            out.nonce == first,
            out.difficulty == 0,
            out.hash.is_zero(),
    {
        Best { nonce: first, difficulty: 0, hash: DrillHash::zero() }
    }

    /// Takes the outcome of trying `nonce`: it becomes the best where it is more
    /// difficult than the best so far.
    pub fn record(&mut self, nonce: u64, outcome: Option<DrillHash>) -> (improved: bool)
        ensures
            improved == (outcome matches Some(hash) && leading_zeros(hash.h@)
                > old(self).difficulty),
            improved ==> {
                &&& final(self).nonce == nonce
                &&& final(self).difficulty as nat == leading_zeros(outcome->0.h@)
                &&& final(self).hash == outcome->0
            },
            !improved ==> *final(self) == *old(self),
    {
        if let Some(hash) = outcome {
            let difficulty: u32 = hash.difficulty();
            if difficulty > self.difficulty {
                *self = Best { nonce, difficulty, hash };
                return true;
            }
        }
        false
    }
}

/// What a search stands for: the nonces from `first` up to but not including
/// `end` were tried on `challenge`, the last of them being `nonce` unless none
/// was tried, and `best` is the best of them.
pub struct SearchView {
    pub challenge: Seq<u8>,
    pub first: u64,
    pub nonce: u64,
    pub end: int,
    pub best: Best,
}

impl SearchView {
    /// What holds of every search.
    pub open spec fn well_formed(self) -> bool {
        &&& self.first <= self.nonce
        &&& self.end == self.nonce || self.end == self.nonce + 1
        &&& self.end == self.nonce ==> self.nonce == self.first
        &&& is_best(self.challenge, self.first, self.end, self.best)
    }

    /// Whether a nonce was tried.
    pub open spec fn tried(self, n: u64) -> bool {
        self.first <= n < self.end
    }
}

/// Whether `y` is the search `x` at the same moment or later.
pub open spec fn goes_further(x: SearchView, y: SearchView) -> bool {
    &&& x.well_formed()
    &&& y.well_formed()
    &&& x.challenge == y.challenge
    &&& x.first == y.first
    &&& x.end <= y.end
}

/// Why a search pauses: the last nonce tried is the best so far, or it is time to look at
/// the clock, or both.
#[derive(Clone, Copy, Debug, PartialEq, Eq, Structural)]
pub struct Pause {
    pub improved: bool,
    pub clock: bool,
}

/// Why a search would pause at nonce `n`, where it paused last with best `x.best`.
pub open spec fn pause_at(x: SearchView, n: u64) -> Pause {
    Pause {
        improved: attempt_difficulty(x.challenge, n) > x.best.difficulty,
        clock: n % CHECK_INTERVAL == 0,
    }
}

/// Whether a search does not pause before `end`.
pub open spec fn goes_on_until(x: SearchView, end: int) -> bool {
    forall|n: u64|
        x.end <= n < end ==> #[trigger] pause_at(x, n) == (Pause { improved: false, clock: false })
}

/// The search of one core.
#[derive(Clone, Copy, Debug)]
pub struct CoreSearch {
    challenge: [u8; 32],
    first: u64,
    nonce: u64,
    tried: bool,
    best: Best,
}

impl View for CoreSearch {
    type V = SearchView;

    closed spec fn view(&self) -> SearchView {
        SearchView {
            challenge: self.challenge@,
            first: self.first,
            nonce: self.nonce,
            end: if self.tried {
                self.nonce + 1
            } else {
                self.nonce as int
            },
            best: self.best,
        }
    }
}

impl CoreSearch {
    #[verifier::type_invariant]
    spec fn inv(self) -> bool {
        self@.well_formed()
    }

    /// The search that a core starts on `challenge`: nothing where the core's
    /// number is not among the `cores` in use.
    pub fn start(
        challenge: [u8; 32],
        core_id: u64,
        cores: u64,
        core_offset: u64,
        total_cores: u64,
    ) -> (out: Option<CoreSearch>)
        requires
            core_id < cores ==> total_cores > 0 && core_offset + core_id <= u64::MAX,
        ensures
            match out {
                Some(s) => {
                    &&& core_id < cores
                    &&& s@.well_formed()
                    &&& s@.challenge == challenge@
                    &&& s@.first == first_nonce_of(total_cores, (core_offset + core_id) as nat)
                    &&& s@.end == s@.first
                },
                None => core_id >= cores,
            },
    {
        if core_id >= cores {
            return None;
        }
        let first: u64 = first_nonce(core_id, core_offset, total_cores);
        let best = Best::none(first);
        Some(CoreSearch { challenge, first, nonce: first, tried: false, best })
    }

    /// Tries nonce after nonce, from the first one not tried, up to the next one that is
    /// the best so far or at which the clock is looked at. Nothing where there is none: the
    /// nonces have run out.
    pub fn run(&mut self, memory: &mut drillx::equix::SolverMemory) -> (out: Option<Pause>)
        ensures
            goes_further(old(self)@, final(self)@),
            match out {
                Some(pause) => {
                    &&& final(self)@.nonce >= old(self)@.end
                    &&& final(self)@.end == final(self)@.nonce + 1
                    &&& pause == pause_at(old(self)@, final(self)@.nonce)
                    &&& pause.improved || pause.clock
                    &&& goes_on_until(old(self)@, final(self)@.nonce as int)
                },
                None => {
                    &&& final(self)@.end == u64::MAX + 1
                    &&& goes_on_until(old(self)@, u64::MAX + 1)
                },
            },
    {
        proof {
            use_type_invariant(&*self);
        }
        let ghost before = self@;
        let challenge = self.challenge;
        let first: u64 = self.first;
        let mut best = self.best;
        let mut nonce: u64 = self.nonce;
        if self.tried {
            if nonce == u64::MAX {
                return None;
            }
            nonce = nonce + 1;
        }
        loop
            invariant
                before.well_formed(),
                before.challenge == challenge@,
                before.first == first,
                before.end <= nonce,
                first <= nonce,
                best == before.best,
                is_best(challenge@, first, nonce as int, best),
                goes_on_until(before, nonce as int),
                old(self)@ == before,
            decreases u64::MAX - nonce,
        {
            let outcome = hash_with_memory(memory, &challenge, &u64_le(nonce));
            let improved: bool = best.record(nonce, outcome);
            let clock: bool = nonce % CHECK_INTERVAL == 0;
            if improved || clock {
                *self = CoreSearch { challenge, first, nonce, tried: true, best };
                return Some(Pause { improved, clock });
            }
            if nonce == u64::MAX {
                *self = CoreSearch { challenge, first, nonce, tried: true, best };
                return None;
            }
            nonce = nonce + 1;
        }
    }

    /// The best nonce tried so far.
    pub fn best(&self) -> (out: Best)
        ensures
            out == self@.best,
    {
        self.best
    }

    /// What the core has to show for its search: the best nonce, and how far it
    /// got from its first one.
    pub fn report(&self) -> (out: CoreReport)
        ensures
            out.best == self@.best,
            out.count == self@.nonce - self@.first,
    {
        proof {
            use_type_invariant(self);
        }
        CoreReport { best: self.best, count: self.nonce - self.first }
    }
}

/// What one core brings back.
#[derive(Clone, Copy, Debug)]
pub struct CoreReport {
    pub best: Best,
    pub count: u64,
}

impl CoreReport {
    /// The report of a core that was not used.
    pub fn idle() -> (out: CoreReport)
        ensures
            out.best.nonce == 0,
            out.best.difficulty == 0,
            out.best.hash.is_zero(),
            out.count == 0,
    {
        CoreReport { best: Best::none(0), count: 0 }
    }
}

/// What a core does after a look at the clock: whether it stops, and the
/// progress to show.
#[derive(Debug)]
pub struct Check {
    pub stop: bool,
    pub progress: Option<String>,
}

/// The progress shown once the time is up.
pub open spec fn overtime_progress(difficulty: u32) -> Seq<char> {
    "Mining... (difficulty "@ + decimal(difficulty as nat) + ")"@
}

/// The progress shown with `seconds` left.
pub open spec fn timed_progress(difficulty: u32, seconds: nat) -> Seq<char> {
    "Mining... (difficulty "@ + decimal(difficulty as nat) + ", time "@ + clock(seconds) + ")"@
}

/// Whether a core stops: the time is up, and the best difficulty of all cores is
/// sufficient.
pub open spec fn stops(
    elapsed: u64,
    cutoff_time: u64,
    global_best: u32,
    min_difficulty: u32,
) -> bool {
    elapsed >= cutoff_time && global_best >= min_difficulty
}

/// A core's look at the clock. It goes on until the time is up and the best
/// difficulty of all cores is sufficient. Core number zero shows the progress;
/// the seconds left are shown modulo 2^32.
pub fn check(
    core_id: u64,
    elapsed: u64,
    cutoff_time: u64,
    global_best: u32,
    min_difficulty: u32,
) -> (out: Check)
    ensures
        out.stop == stops(elapsed, cutoff_time, global_best, min_difficulty),
        out.stop <==> elapsed >= cutoff_time && global_best >= min_difficulty,
        match out.progress {
            Some(text) => {
                &&& core_id == 0
                &&& text@ == if elapsed >= cutoff_time {
                    overtime_progress(global_best)
                } else {
                    timed_progress(global_best, ((cutoff_time - elapsed) % 0x1_0000_0000) as nat)
                }
            },
            None => core_id != 0,
        },
{
    let over: bool = elapsed >= cutoff_time;
    let stop: bool = over && global_best >= min_difficulty;
    if core_id != 0 {
        return Check { stop, progress: None };
    }
    let mut text = String::new();
    text.append("Mining... (difficulty ");
    text.append(decimal_text(global_best as u128).as_str());
    if over {
        text.append(")");
        assert(text@ =~= overtime_progress(global_best));
    } else {
        let left: u64 = (cutoff_time - elapsed) % 0x1_0000_0000;
        text.append(", time ");
        text.append(clock_text(left as u128).as_str());
        text.append(")");
        assert(text@ =~= timed_progress(global_best, left as nat));
    }
    Check { stop, progress: Some(text) }
}

/// The best difficulty known to all cores, after one of them has told what it reached.
pub open spec fn published(reached: u32, global_best: u32) -> u32 {
    if reached > global_best {
        reached
    } else {
        global_best
    }
}

/// What the best difficulty known to all cores becomes when one of them has
/// reached `reached`: nothing where it is no better.
pub fn publish(reached: u32, global_best: u32) -> (out: Option<u32>)
    ensures
        match out {
            Some(improved) => improved > global_best && improved == published(reached, global_best),
            None => published(reached, global_best) == global_best,
        },
{
    if reached > global_best {
        Some(reached)
    } else {
        None
    }
}

/// The nonces counted by all the cores that brought a report back.
pub open spec fn total_count(reports: Seq<Option<CoreReport>>) -> nat
    decreases reports.len(),
{
    if reports.len() == 0 {
        0
    } else {
        total_count(reports.drop_last()) + match reports.last() {
            Some(report) => report.count as nat,
            None => 0,
        }
    }
}

/// Whether `best` is the best of the reports: none is more difficult, and none
/// before it is as difficult. Where none has any difficulty it is nonce zero
/// with a hash of zeros.
pub open spec fn is_best_report(reports: Seq<Option<CoreReport>>, best: Best) -> bool {
    &&& forall|i: int|
        0 <= i < reports.len() && reports[i] is Some ==> (#[trigger] reports[i])->0.best.difficulty
            <= best.difficulty
    &&& if best.difficulty == 0 {
        &&& best.nonce == 0
        &&& best.hash.is_zero()
    } else {
        exists|i: int|
            {
                &&& 0 <= i < reports.len()
                &&& (#[trigger] reports[i]) is Some
                &&& reports[i]->0.best == best
                &&& forall|j: int|
                    0 <= j < i && reports[j] is Some ==> (#[trigger] reports[j])->0.best.difficulty
                        < best.difficulty
            }
    }
}

/// The best of what the cores brought back, and the nonces counted by all of
/// them. A core that failed brings nothing back.
pub fn join_reports(reports: &Vec<Option<CoreReport>>) -> (out: CoreReport)
    requires
        total_count(reports@) <= u64::MAX,
    ensures
        is_best_report(reports@, out.best),
        out.count == total_count(reports@),
{
    let mut best = Best::none(0);
    let mut count: u64 = 0;
    let mut i: usize = 0;
    while i < reports.len()
        invariant
            i <= reports@.len(),
            total_count(reports@) <= u64::MAX,
            is_best_report(reports@.take(i as int), best),
            count == total_count(reports@.take(i as int)),
        decreases reports@.len() - i,
    {
        proof {
            lemma_total_count_prefix(reports@, i + 1);
            assert(reports@.take(i + 1).drop_last() =~= reports@.take(i as int));
        }
        let ghost before = best;
        if let Some(report) = reports[i] {
            if report.best.difficulty > best.difficulty {
                best = report.best;
            }
            count = count + report.count;
        }
        proof {
            let done = reports@.take(i as int);
            let next = reports@.take(i + 1);
            assert(forall|j: int| 0 <= j < i ==> next[j] == done[j]);
            assert(next[i as int] == reports@[i as int]);
            if best.difficulty > 0 {
                if best.difficulty > before.difficulty {
                    assert(next[i as int]->0.best == best);
                } else {
                    let k = choose|k: int|
                        {
                            &&& 0 <= k < done.len()
                            &&& (#[trigger] done[k]) is Some
                            &&& done[k]->0.best == best
                            &&& forall|j: int|
                                0 <= j < k && done[j] is Some ==> (
                                #[trigger] done[j])->0.best.difficulty < best.difficulty
                        };
                    assert(next[k] == done[k]);
                }
            }
        }
        i += 1;
    }
    assert(reports@.take(i as int) =~= reports@);
    CoreReport { best, count }
}

/// Whether each report is that of the search in the same place, on `challenge`; the report
/// of a core that failed is missing.
pub open spec fn are_reported(
    searches: Seq<SearchView>,
    reports: Seq<Option<CoreReport>>,
    challenge: Seq<u8>,
) -> bool {
    &&& searches.len() == reports.len()
    &&& forall|i: int|
        0 <= i < searches.len() && reports[i] is Some ==> {
            &&& (#[trigger] searches[i]).well_formed()
            &&& searches[i].challenge == challenge
            &&& reports[i]->0.best == searches[i].best
            &&& reports[i]->0.count == searches[i].nonce - searches[i].first
        }
}

/// The line printed about the best nonce of all cores.
pub open spec fn summary_line(best: Best) -> Seq<char> {
    "Best hash: "@ + base58(best.hash.h@) + " (difficulty: "@ + decimal(best.difficulty as nat)
        + ")"@
}

/// The line printed about the best nonce of all cores.
pub fn summary(best: &Best) -> (out: String)
    ensures
        out@ == summary_line(*best),
{
    let mut out = joined3(
        "Best hash: ",
        base58_text(best.hash.h.as_slice()).as_str(),
        " (difficulty: ",
    );
    out.append(decimal_text(best.difficulty as u128).as_str());
    out.append(")");
    out
}

/// The reports at the front count no more nonces than all of them.
proof fn lemma_total_count_prefix(reports: Seq<Option<CoreReport>>, n: int)
    requires
        0 <= n <= reports.len(),
    ensures
        total_count(reports.take(n)) <= total_count(reports),
    decreases reports.len() - n,
{
    if n == reports.len() {
        assert(reports.take(n) =~= reports);
    } else {
        lemma_total_count_prefix(reports, n + 1);
        assert(reports.take(n + 1).drop_last() =~= reports.take(n));
    }
}

/// The first nonce of a core: the nonces are divided evenly between
/// `total_cores`, of which this is number `core_offset + core_id`.
pub fn first_nonce(core_id: u64, core_offset: u64, total_cores: u64) -> (out: u64)
    requires
        total_cores > 0,
        core_offset + core_id <= u64::MAX,
    ensures
        out == first_nonce_of(total_cores, (core_offset + core_id) as nat),
{
    let global: u64 = core_offset + core_id;
    let share: u64 = u64::MAX / total_cores;
    match share.checked_mul(global) {
        Some(start) => start,
        None => u64::MAX,
    }
}

/// Two cores of one division never start closer together than one share of the
/// nonces: a core that tries no more than its share tries no nonce of another.
pub proof fn law_shares_disjoint(total: u64, a: nat, b: nat)
    requires
        a < b < total,
    ensures
        first_nonce_of(total, a) + u64::MAX as nat / total as nat <= first_nonce_of(total, b),
        first_nonce_of(total, b) + u64::MAX as nat / total as nat <= u64::MAX,
{
    let share = u64::MAX as nat / total as nat;
    assert(share * a + share == share * (a + 1)) by (nonlinear_arith);
    assert(share * b + share == share * (b + 1)) by (nonlinear_arith);
    assert(share * (a + 1) <= share * b) by (nonlinear_arith)
        requires
            a + 1 <= b,
    ;
    assert(share * (b + 1) <= share * total) by (nonlinear_arith)
        requires
            b + 1 <= total,
    ;
    assert(share * total <= u64::MAX) by (nonlinear_arith)
        requires
            share == u64::MAX as nat / total as nat,
            total > 0,
    ;
}

/// No nonce is tried twice: two cores of one division that stay within their shares have
/// no nonce in common.
pub proof fn law_no_nonce_tried_twice(total: u64, a: nat, b: nat, x: SearchView, y: SearchView)
    requires
        a < total,
        b < total,
        a != b,
        x.first == first_nonce_of(total, a),
        y.first == first_nonce_of(total, b),
        x.end - x.first <= u64::MAX / total,
        y.end - y.first <= u64::MAX / total,
    ensures
        forall|n: u64| #[trigger] x.tried(n) ==> !y.tried(n),
{
    if a < b {
        law_shares_disjoint(total, a, b);
    } else {
        law_shares_disjoint(total, b, a);
    }
}

/// Whether a search is that of a core in use, in a division of the nonces between `total`
/// cores of which those from `core_offset` on are these `cores`; or it tried nothing.
pub open spec fn is_core_of(search: SearchView, cores: u64, core_offset: u64, total: u64) -> bool {
    ||| search.end == search.first
    ||| exists|core: nat|
        core < cores && search.first == #[trigger] first_nonce_of(total, core_offset as nat + core)
}

/// Whether the searches are those of one call, and stayed within their shares as far as
/// they were reported.
pub open spec fn is_call(
    searches: Seq<SearchView>,
    reports: Seq<Option<CoreReport>>,
    challenge: Seq<u8>,
    cores: u64,
    core_offset: u64,
    total: u64,
) -> bool {
    &&& are_reported(searches, reports, challenge)
    &&& forall|i: int|
        0 <= i < searches.len() ==> is_core_of(#[trigger] searches[i], cores, core_offset, total)
    &&& core_offset + cores <= total
    &&& total_count(reports) < u64::MAX / total
}

/// Whether core number `core` of a division is one of the `cores` from `core_offset` on.
pub open spec fn is_among(core: nat, cores: u64, core_offset: u64) -> bool {
    core_offset <= core < core_offset + cores
}

/// Whether two calls use no core of a division in common.
pub open spec fn are_different_cores(
    x_cores: u64,
    x_offset: u64,
    y_cores: u64,
    y_offset: u64,
) -> bool {
    forall|core: nat| #[trigger]
        is_among(core, x_cores, x_offset) ==> !is_among(core, y_cores, y_offset)
}

/// No report counts more nonces than all of them.
proof fn lemma_count_in_total(reports: Seq<Option<CoreReport>>, i: int)
    requires
        0 <= i < reports.len(),
        reports[i] is Some,
    ensures
        reports[i]->0.count <= total_count(reports),
    decreases reports.len(),
{
    if i < reports.len() - 1 {
        lemma_count_in_total(reports.drop_last(), i);
    }
}

/// Two calls on different cores of one division, each of which tried fewer nonces than one
/// share, have no nonce in common.
pub proof fn law_calls_share_no_nonce(
    xs: Seq<SearchView>,
    x_reports: Seq<Option<CoreReport>>,
    x_cores: u64,
    x_offset: u64,
    ys: Seq<SearchView>,
    y_reports: Seq<Option<CoreReport>>,
    y_cores: u64,
    y_offset: u64,
    challenge: Seq<u8>,
    total: u64,
    i: int,
    j: int,
    n: u64,
)
    requires
        total > 0,
        is_call(xs, x_reports, challenge, x_cores, x_offset, total),
        is_call(ys, y_reports, challenge, y_cores, y_offset, total),
        are_different_cores(x_cores, x_offset, y_cores, y_offset),
        0 <= i < xs.len() && x_reports[i] is Some && xs[i].tried(n),
        0 <= j < ys.len() && y_reports[j] is Some,
    ensures
        !ys[j].tried(n),
{
    if ys[j].tried(n) {
        assert(is_core_of(xs[i], x_cores, x_offset, total));
        assert(is_core_of(ys[j], y_cores, y_offset, total));
        let a = choose|core: nat|
            core < x_cores && xs[i].first == #[trigger] first_nonce_of(
                total,
                x_offset as nat + core,
            );
        let b = choose|core: nat|
            core < y_cores && ys[j].first == #[trigger] first_nonce_of(
                total,
                y_offset as nat + core,
            );
        lemma_count_in_total(x_reports, i);
        lemma_count_in_total(y_reports, j);
        assert(is_among(x_offset as nat + a, x_cores, x_offset));
        assert(is_among(y_offset as nat + b, y_cores, y_offset));
        law_no_nonce_tried_twice(total, x_offset as nat + a, y_offset as nat + b, xs[i], ys[j]);
    }
}

/// As a search goes on, its best only gets better.
pub proof fn law_best_only_grows(x: SearchView, y: SearchView)
    requires
        goes_further(x, y),
    ensures
        x.best.difficulty <= y.best.difficulty,
{
    if x.best.difficulty > 0 {
        assert(attempt_difficulty(x.challenge, x.best.nonce) == x.best.difficulty);
    }
}

/// All cores at one moment: their searches, and the best difficulty that they know of.
pub struct Team {
    pub searches: Seq<SearchView>,
    pub global_best: u32,
}

/// Whether core `i` does one thing between two moments: it goes on with its search, or
/// tells the others of its best.
pub open spec fn is_step_of(x: Team, y: Team, i: int) -> bool {
    &&& 0 <= i < x.searches.len()
    &&& y.searches.len() == x.searches.len()
    &&& {
        ||| {
            &&& goes_further(x.searches[i], y.searches[i])
            &&& y.searches == x.searches.update(i, y.searches[i])
            &&& y.global_best == x.global_best
        }
        ||| {
            &&& y.searches == x.searches
            &&& y.global_best == published(x.searches[i].best.difficulty, x.global_best)
        }
    }
}

/// Whether these are the moments of one job, one after the other: at first nothing is
/// known, and then one core after the other does something, in any order.
pub open spec fn is_job(moments: Seq<Team>) -> bool {
    &&& moments.len() > 0
    &&& moments[0].global_best == 0
    &&& forall|k: int|
        0 <= k < moments.len() - 1 ==> exists|i: int| #[trigger]
            is_step_of(#[trigger] moments[k], moments[k + 1], i)
}

/// Whether some core has reached a difficulty; none is needed for zero.
pub open spec fn is_reached(difficulty: u32, searches: Seq<SearchView>) -> bool {
    difficulty == 0 || exists|i: int|
        0 <= i < searches.len() && (#[trigger] searches[i]).best.difficulty >= difficulty
}

/// What one core does leaves every difficulty reached.
proof fn lemma_step_keeps_reached(difficulty: u32, x: Team, y: Team, i: int)
    requires
        is_reached(difficulty, x.searches),
        is_step_of(x, y, i),
    ensures
        is_reached(difficulty, y.searches),
{
    if difficulty > 0 {
        let k = choose|k: int|
            0 <= k < x.searches.len() && (#[trigger] x.searches[k]).best.difficulty >= difficulty;
        if y.searches != x.searches {
            law_best_only_grows(x.searches[i], y.searches[i]);
        }
        assert(y.searches[k].best.difficulty >= difficulty);
    }
}

/// The best difficulty that the cores know of was reached by one of them: at every moment,
/// and it is still so at every later one.
pub proof fn law_shared_best_is_reached(moments: Seq<Team>, k: int, later: int)
    requires
        is_job(moments),
        0 <= k <= later < moments.len(),
    ensures
        is_reached(moments[k].global_best, moments[later].searches),
    decreases k, later - k,
{
    if k < later {
        law_shared_best_is_reached(moments, k, later - 1);
        let x = moments[later - 1];
        let y = moments[later];
        assert(moments[later - 1 + 1] == y);
        let i = choose|i: int| #[trigger] is_step_of(x, y, i);
        lemma_step_keeps_reached(moments[k].global_best, x, y, i);
    } else if k > 0 {
        law_shared_best_is_reached(moments, k - 1, k - 1);
        let x = moments[k - 1];
        let y = moments[k];
        assert(moments[k - 1 + 1] == y);
        let i = choose|i: int| #[trigger] is_step_of(x, y, i);
        lemma_step_keeps_reached(x.global_best, x, y, i);
        if y.global_best != x.global_best {
            assert(y.searches[i].best.difficulty >= y.global_best);
        }
    }
}

/// The least difficulty is met where a core stops: what all cores find together in the end
/// is as difficult as was demanded, if no core failed that had reached the best difficulty
/// known when the core stopped.
pub proof fn law_minimum_is_met(
    moments: Seq<Team>,
    k: int,
    elapsed: u64,
    cutoff_time: u64,
    min_difficulty: u32,
    reports: Seq<Option<CoreReport>>,
    challenge: Seq<u8>,
    best: Best,
)
    requires
        is_job(moments),
        0 <= k < moments.len(),
        stops(elapsed, cutoff_time, moments[k].global_best, min_difficulty),
        are_reported(moments.last().searches, reports, challenge),
        forall|i: int|
            0 <= i < reports.len() && reports[i] is None ==> (
            #[trigger] moments.last().searches[i]).best.difficulty < moments[k].global_best,
        is_best_report(reports, best),
    ensures
        elapsed >= cutoff_time,
        best.difficulty >= min_difficulty,
{
    let searches = moments.last().searches;
    let reached = moments[k].global_best;
    law_shared_best_is_reached(moments, k, moments.len() - 1);
    if reached > 0 {
        let i = choose|i: int|
            0 <= i < searches.len() && (#[trigger] searches[i]).best.difficulty >= reached;
        assert(reports[i] is Some);
    }
}

/// There is one best nonce of a range: what a search finds depends on nothing but the
/// challenge and the nonces tried.
pub proof fn law_best_unique(challenge: Seq<u8>, first: u64, end: int, x: Best, y: Best)
    requires
        is_best(challenge, first, end, x),
        is_best(challenge, first, end, y),
    ensures
        x.nonce == y.nonce,
        x.difficulty == y.difficulty,
        x.hash.d@ == y.hash.d@,
        x.hash.h@ == y.hash.h@,
{
    if x.difficulty > 0 {
        assert(attempt_difficulty(challenge, x.nonce) == x.difficulty);
    }
    if y.difficulty > 0 {
        assert(attempt_difficulty(challenge, y.nonce) == y.difficulty);
    }
}

/// The best of all cores is the best of all nonces that any of them tried: it is what
/// drillx gives for its nonce, and no nonce tried by any core that brought a report back
/// is more difficult.
pub proof fn law_best_of_all_cores(
    searches: Seq<SearchView>,
    reports: Seq<Option<CoreReport>>,
    challenge: Seq<u8>,
    best: Best,
)
    requires
        are_reported(searches, reports, challenge),
        is_best_report(reports, best),
    ensures
        forall|i: int, n: u64|
            0 <= i < searches.len() && reports[i] is Some && (#[trigger] searches[i]).tried(n) ==> (
            #[trigger] attempt_difficulty(challenge, n)) <= best.difficulty,
        best.difficulty > 0 ==> attempt(challenge, best.nonce) == Some(
            (best.hash.d@, best.hash.h@),
        ) && leading_zeros(best.hash.h@) == best.difficulty,
{
    if best.difficulty > 0 {
        let i = choose|i: int|
            0 <= i < reports.len() && (#[trigger] reports[i]) is Some && reports[i]->0.best == best;
        assert(searches[i].well_formed());
    }
}

/// A core that stops has used up its time, and it does not stop short of the least
/// difficulty: before the cutoff nothing stops it, and from then on it stops exactly when
/// the best difficulty of all cores is sufficient.
pub proof fn law_core_uses_its_time(
    elapsed: u64,
    cutoff_time: u64,
    global_best: u32,
    min_difficulty: u32,
)
    ensures
        elapsed < cutoff_time ==> !stops(elapsed, cutoff_time, global_best, min_difficulty),
        elapsed >= cutoff_time ==> (stops(elapsed, cutoff_time, global_best, min_difficulty)
            <==> global_best >= min_difficulty),
{
}

/// What would have stopped a core stops it later too, and with a better best.
pub proof fn law_stop_is_for_good(
    elapsed: u64,
    later: u64,
    cutoff_time: u64,
    global_best: u32,
    better: u32,
    min_difficulty: u32,
)
    requires
        stops(elapsed, cutoff_time, global_best, min_difficulty),
        elapsed <= later,
        global_best <= better,
    ensures
        stops(later, cutoff_time, better, min_difficulty),
{
}

/// The progress tells the best difficulty of all cores, and the time left as long as there
/// is any.
pub proof fn law_progress_is_told(difficulty: u32, seconds: nat)
    ensures
        overtime_progress(difficulty) == "Mining... (difficulty "@ + decimal(difficulty as nat)
            + ")"@,
        timed_progress(difficulty, seconds) == "Mining... (difficulty "@ + decimal(
            difficulty as nat,
        ) + ", time "@ + clock(seconds) + ")"@,
{
}

/// The first core of a division begins at zero, and each of the others one share after the
/// one before it, as long as there are nonces.
pub proof fn law_first_nonces(total: u64, core: nat)
    requires
        total > 0,
    ensures
        first_nonce_of(total, 0) == 0,
        ({
            let share = u64::MAX as nat / total as nat;
            let next = first_nonce_of(total, core) + share;
            first_nonce_of(total, core + 1) == if next <= u64::MAX {
                next
            } else {
                u64::MAX as nat
            }
        }),
{
    let share = u64::MAX as nat / total as nat;
    assert(share * 0 == 0);
    assert(share * core + share == share * (core + 1)) by (nonlinear_arith);
    assert(share >= 1) by (nonlinear_arith)
        requires
            share == u64::MAX as nat / total as nat,
            0 < total <= u64::MAX,
    ;
}

/// The best nonce of a range is one of them and as difficult as drillx makes it; none is
/// more difficult, and of those that are as difficult it is the first. Where there is no
/// such nonce, none has any difficulty at all.
pub proof fn law_best_of_range(challenge: Seq<u8>, first: u64, end: int, best: Best, n: u64)
    requires
        is_best(challenge, first, end, best),
        first <= n < end,
    ensures
        attempt_difficulty(challenge, n) <= best.difficulty,
        attempt_difficulty(challenge, n) == best.difficulty && best.difficulty > 0 ==> best.nonce
            <= n,
        best.difficulty > 0 ==> {
            &&& first <= best.nonce < end
            &&& attempt_difficulty(challenge, best.nonce) == best.difficulty
            &&& drill(challenge, le_bytes(best.nonce as nat, 8)) == Some(
                (best.hash.d@, best.hash.h@),
            )
            &&& leading_zeros(best.hash.h@) == best.difficulty
        },
        best.difficulty == 0 ==> best.nonce == first && best.hash.is_zero(),
{
}

/// What is tried for a nonce is its eight bytes, the lowest first; its difficulty is the
/// number of zero bits at the front of the hash.
pub proof fn law_what_is_tried(challenge: Seq<u8>, n: u64)
    ensures
        attempt(challenge, n) == drill(challenge, le_bytes(n as nat, 8)),
        match drill(challenge, le_bytes(n as nat, 8)) {
            Some((_, hash)) => attempt_difficulty(challenge, n) == leading_zeros(hash),
            None => attempt_difficulty(challenge, n) == 0,
        },
{
}

/// A search pauses at every nonce that is divisible by a hundred and at every one that is
/// more difficult than all before it, and at no others.
pub proof fn law_when_a_search_pauses(x: SearchView, end: int, n: u64)
    ensures
        pause_at(x, n).clock <==> n % 100 == 0,
        pause_at(x, n).improved <==> attempt_difficulty(x.challenge, n) > x.best.difficulty,
        goes_on_until(x, end) && x.end <= n < end ==> n % 100 != 0 && attempt_difficulty(
            x.challenge,
            n,
        ) <= x.best.difficulty,
        (forall|k: u64|
            x.end <= k < end ==> k % 100 != 0 && #[trigger] attempt_difficulty(x.challenge, k)
                <= x.best.difficulty) ==> goes_on_until(x, end),
{
    if goes_on_until(x, end) && x.end <= n < end {
        assert(pause_at(x, n) == (Pause { improved: false, clock: false }));
    }
    if forall|k: u64|
        x.end <= k < end ==> k % 100 != 0 && #[trigger] attempt_difficulty(x.challenge, k)
            <= x.best.difficulty {
        assert forall|k: u64| x.end <= k < end implies #[trigger] pause_at(x, k) == (Pause {
            improved: false,
            clock: false,
        }) by {
            assert(attempt_difficulty(x.challenge, k) <= x.best.difficulty);
        }
    }
}

/// A search holds the best of the nonces that it tried, which are those from its first one
/// on, without a gap.
pub proof fn law_search_is_gapless(x: SearchView, n: u64)
    requires
        x.well_formed(),
        x.first <= n < x.end,
    ensures
        x.tried(n),
        attempt_difficulty(x.challenge, n) <= x.best.difficulty,
        x.best.difficulty > 0 ==> x.tried(x.best.nonce) && attempt_difficulty(
            x.challenge,
            x.best.nonce,
        ) == x.best.difficulty,
        x.end == x.nonce + 1,
{
}

/// What the cores know after one of them has told its best is the greater of the two.
pub proof fn law_published_is_the_greater(reached: u32, global_best: u32)
    ensures
        published(reached, global_best) >= reached,
        published(reached, global_best) >= global_best,
        published(reached, global_best) == reached || published(reached, global_best)
            == global_best,
{
}

/// Reports can be joined in parts: the best of all is that of the first part, unless that of
/// the second is more difficult; and the counts add up.
#[verifier::rlimit(60)]
pub proof fn law_joining_in_parts(
    a: Seq<Option<CoreReport>>,
    b: Seq<Option<CoreReport>>,
    x: Best,
    y: Best,
    all: Best,
)
    requires
        is_best_report(a, x),
        is_best_report(b, y),
        is_best_report(a + b, all),
    ensures
        y.difficulty > x.difficulty ==> all == y,
        0 < y.difficulty <= x.difficulty ==> all == x,
        y.difficulty == 0 && x.difficulty > 0 ==> all == x,
        x.difficulty == 0 && y.difficulty == 0 ==> all.difficulty == 0 && all.nonce == 0
            && all.hash.is_zero(),
        total_count(a + b) == total_count(a) + total_count(b),
{
    lemma_count_of_parts(a, b);
    let ab = a + b;
    assert(forall|i: int| 0 <= i < a.len() ==> #[trigger] ab[i] == a[i]);
    assert forall|i: int| 0 <= i < b.len() implies #[trigger] ab[a.len() + i] == b[i] by {}
    if x.difficulty > 0 {
        let i = choose|i: int|
            {
                &&& 0 <= i < a.len()
                &&& (#[trigger] a[i]) is Some
                &&& a[i]->0.best == x
                &&& forall|j: int|
                    0 <= j < i && a[j] is Some ==> (#[trigger] a[j])->0.best.difficulty
                        < x.difficulty
            };
        assert(ab[i] == a[i]);
    }
    if y.difficulty > 0 {
        let i = choose|i: int|
            {
                &&& 0 <= i < b.len()
                &&& (#[trigger] b[i]) is Some
                &&& b[i]->0.best == y
                &&& forall|j: int|
                    0 <= j < i && b[j] is Some ==> (#[trigger] b[j])->0.best.difficulty
                        < y.difficulty
            };
        assert(ab[a.len() + i] == b[i]);
    }
    if all.difficulty > 0 {
        let k = choose|k: int|
            {
                &&& 0 <= k < ab.len()
                &&& (#[trigger] ab[k]) is Some
                &&& ab[k]->0.best == all
                &&& forall|j: int|
                    0 <= j < k && ab[j] is Some ==> (#[trigger] ab[j])->0.best.difficulty
                        < all.difficulty
            };
        if k < a.len() {
            assert(a[k] == ab[k]);
            let i = choose|i: int|
                {
                    &&& 0 <= i < a.len()
                    &&& (#[trigger] a[i]) is Some
                    &&& a[i]->0.best == x
                    &&& forall|j: int|
                        0 <= j < i && a[j] is Some ==> (#[trigger] a[j])->0.best.difficulty
                            < x.difficulty
                };
            assert(ab[i] == a[i]);
            if i < k {
                assert(ab[i]->0.best.difficulty < all.difficulty);
            }
            if k < i {
                assert(a[k]->0.best.difficulty < x.difficulty);
            }
        } else {
            let l = k - a.len();
            assert(ab[a.len() + l] == b[l]);
            let i = choose|i: int|
                {
                    &&& 0 <= i < b.len()
                    &&& (#[trigger] b[i]) is Some
                    &&& b[i]->0.best == y
                    &&& forall|j: int|
                        0 <= j < i && b[j] is Some ==> (#[trigger] b[j])->0.best.difficulty
                            < y.difficulty
                };
            assert(ab[a.len() + i] == b[i]);
            if i < l {
                assert(ab[a.len() + i]->0.best.difficulty < all.difficulty);
            }
            if l < i {
                assert(b[l]->0.best.difficulty < y.difficulty);
            }
        }
    }
}

proof fn lemma_count_of_parts(a: Seq<Option<CoreReport>>, b: Seq<Option<CoreReport>>)
    ensures
        total_count(a + b) == total_count(a) + total_count(b),
    decreases b.len(),
{
    if b.len() == 0 {
        assert(a + b =~= a);
    } else {
        lemma_count_of_parts(a, b.drop_last());
        assert((a + b).drop_last() =~= a + b.drop_last());
    }
}

/// A single report is its own best, with its own count; a missing one counts nothing.
pub proof fn law_joining_one(report: CoreReport, best: Best, none: Best)
    requires
        is_best_report(seq![Some(report)], best),
        is_best_report(seq![None], none),
    ensures
        best.difficulty == report.best.difficulty,
        report.best.difficulty > 0 ==> best == report.best,
        none.difficulty == 0,
        total_count(seq![Some(report)]) == report.count,
        total_count(seq![None]) == 0,
        total_count(Seq::empty()) == 0,
{
    let one: Seq<Option<CoreReport>> = seq![Some(report)];
    let missing: Seq<Option<CoreReport>> = seq![None];
    assert(one[0] == Some(report));
    assert(one.drop_last() =~= Seq::empty());
    assert(missing.drop_last() =~= Seq::empty());
    reveal_with_fuel(total_count, 3);
}

/// The line about the best nonce tells its hash in base58 and its difficulty.
pub proof fn law_summary_is_told(best: Best)
    ensures
        summary_line(best) == "Best hash: "@ + base58(best.hash.h@) + " (difficulty: "@ + decimal(
            best.difficulty as nat,
        ) + ")"@,
{
}

} // verus!
