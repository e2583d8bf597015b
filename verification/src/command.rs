//! The subcommands of the tool and what each of them runs.
use vstd::prelude::*;
use crate::records::string_views;

verus! {

/// Generates fuzzing targets for a library.
pub struct Gen {}

/// Runs the fuzzing.
pub struct Run {}

/// The directory of a fuzzing test, when one is given (`--fuzz-dir`): the
/// bytes of its path as the operating system holds them, so that no path is
/// altered on the way in.
#[derive(Clone, Debug, PartialEq, Eq)]
pub struct FuzzDirWrapper {
    pub fuzz_dir: Option<Vec<u8>>,
}

/// Gathers the dependents of a library, analyses them and deduplicates the
/// analysis records.
pub struct ParseDependents {
    /// The library's name (`--name`).
    pub lib_name: String,
    /// The most dependents to gather, and the bound on the crates analysed
    /// (`-n`, `--num`, 500 by default).
    pub max_num: usize,
    /// Only gather the dependents (`--clone`).
    pub clone: bool,
    /// Only analyse the gathered dependents (`--parse`).
    pub parse: bool,
    /// Only deduplicate the analysis records (`--dedup`).
    pub dedup: bool,
}

/// The `max_num` a `ParseDependents` gets when none is given.
pub const DEFAULT_MAX_NUM: usize = 500;

/// The bound on the crates analysed when a run does every step.
pub const FULL_RUN_PARSE_LIMIT: usize = 10000;

/// A step of a `ParseDependents` run.
#[derive(Clone, Copy, PartialEq, Eq, Structural, Debug)]
pub enum Step {
    /// Gather up to this many dependents' repositories and clone them.
    CloneDependents(usize),
    /// Analyse the gathered crates, bounded by this number.
    ParseCrates(usize),
    /// Deduplicate the dependency records.
    DedupDepInfo,
    /// Deduplicate the order records.
    DedupOrderInfo,
    /// Deduplicate the function records.
    DedupFuncInfo,
    /// Deduplicate the call-sequence records.
    DedupSeq,
}

/// The deduplication steps, in the order they run.
pub open spec fn dedup_steps() -> Seq<Step> {
    seq![Step::DedupDepInfo, Step::DedupOrderInfo, Step::DedupFuncInfo, Step::DedupSeq]
}

/// The steps a run takes: `--clone` alone clones, `--parse` alone analyses,
/// `--dedup` alone deduplicates (the first flag given wins, in that order);
/// with none of them every step runs, the analysis bounded by
/// `FULL_RUN_PARSE_LIMIT`.
pub open spec fn planned_steps(cmd: ParseDependents) -> Seq<Step> {
    if cmd.clone {
        seq![Step::CloneDependents(cmd.max_num)]
    } else if cmd.parse {
        seq![Step::ParseCrates(cmd.max_num)]
    } else if cmd.dedup {
        dedup_steps()
    } else {
        seq![Step::CloneDependents(cmd.max_num), Step::ParseCrates(FULL_RUN_PARSE_LIMIT)] + dedup_steps()
    }
}

/// Every step that clones gathers exactly `max_num` dependents (`-n`), and a
/// `--clone` run is that one step alone; a `--parse` run analyses with the
/// bound `max_num`, and a full run with `FULL_RUN_PARSE_LIMIT`.
pub proof fn lemma_steps_follow_max_num(cmd: ParseDependents)
    ensures
        forall|i: int|
            0 <= i < planned_steps(cmd).len() ==> (#[trigger] planned_steps(cmd)[i] matches Step::CloneDependents(n)
                ==> n == cmd.max_num),
        cmd.clone ==> planned_steps(cmd).len() == 1 && planned_steps(cmd)[0] == Step::CloneDependents(
            cmd.max_num,
        ),
        !cmd.clone && cmd.parse ==> planned_steps(cmd).len() == 1 && planned_steps(cmd)[0]
            == Step::ParseCrates(cmd.max_num),
        !cmd.clone && !cmd.parse && !cmd.dedup ==> planned_steps(cmd).len() == 6 && planned_steps(
            cmd,
        )[0] == Step::CloneDependents(cmd.max_num) && planned_steps(cmd)[1] == Step::ParseCrates(
            10000,
        ),
        !cmd.clone && !cmd.parse && cmd.dedup ==> forall|i: int|
            0 <= i < planned_steps(cmd).len() ==> !(#[trigger] planned_steps(cmd)[i] is CloneDependents)
                && !(planned_steps(cmd)[i] is ParseCrates),
{
}

impl ParseDependents {
    /// The steps this command runs, in order.
    pub fn run_command(&self) -> (r: Vec<Step>)
        ensures
            r@ == planned_steps(*self),
    {
        let mut r: Vec<Step> = Vec::new();
        if self.clone {
            r.push(Step::CloneDependents(self.max_num));
            assert(r@ =~= planned_steps(*self));
            return r;
        }
        if self.parse {
            r.push(Step::ParseCrates(self.max_num));
            assert(r@ =~= planned_steps(*self));
            return r;
        }
        if !self.dedup {
            r.push(Step::CloneDependents(self.max_num));
            r.push(Step::ParseCrates(FULL_RUN_PARSE_LIMIT));
        }
        r.push(Step::DedupDepInfo);
        r.push(Step::DedupOrderInfo);
        r.push(Step::DedupFuncInfo);
        r.push(Step::DedupSeq);
        assert(r@ =~= planned_steps(*self));
        r
    }
}

impl Gen {
    /// Generating targets does nothing yet.
    pub fn run_command(&mut self)
        ensures
            *final(self) == *old(self),
    {
    }
}

impl Run {
    /// Running the fuzzing does nothing yet.
    pub fn run_command(&mut self)
        ensures
            *final(self) == *old(self),
    {
    }
}

/// How many of `candidates` crates an analysis bounded by `max_crates` works
/// on: the candidates are taken in order, and the count stops one short of
/// the bound.
pub open spec fn batch_size(candidates: nat, max_crates: nat) -> nat {
    if max_crates == 0 {
        0
    } else if candidates < (max_crates - 1) as nat {
        candidates
    } else {
        (max_crates - 1) as nat
    }
}

/// The number of leading candidates that are analysed.
pub fn parse_batch_size(candidates: usize, max_crates: usize) -> (r: usize)
    ensures
        r == batch_size(candidates as nat, max_crates as nat),
{
    let mut taken: usize = 0;
    let mut parsed_num: usize = 0;
    while taken < candidates
        invariant
            taken <= candidates,
            parsed_num == taken,
            taken < max_crates || (taken == 0 && max_crates == 0) || taken + 1 <= max_crates,
            taken <= batch_size(candidates as nat, max_crates as nat),
        decreases candidates - taken,
    {
        parsed_num = parsed_num + 1;
        if parsed_num >= max_crates {
            return taken;
        }
        taken = taken + 1;
    }
    taken
}

/// The number of threads shown as the total while analysing.
pub fn reported_thread_total(candidates: usize, max_crates: usize) -> (r: usize)
    ensures
        r == if candidates < max_crates { candidates } else { max_crates },
{
    if candidates < max_crates {
        candidates
    } else {
        max_crates
    }
}

/// The most analyses that run at once before a new one waits.
pub const MAX_RUNNING_ANALYSES: usize = 3;

/// Whether a new analysis must wait for running ones to finish.
pub fn must_wait(running: usize) -> (r: bool)
    ensures
        r == (running > MAX_RUNNING_ANALYSES),
{
    running > MAX_RUNNING_ANALYSES
}

/// The analyses of one run: the crates to analyse, in order, how many have
/// been started, and how many have finished and succeeded.
pub struct AnalysisRun {
    max_crates: usize,
    jobs: Vec<String>,
    started: usize,
    finished: usize,
    succeeded: usize,
}

/// What an analysis run holds.
pub struct AnalysisView {
    pub max_crates: nat,
    pub jobs: Seq<Seq<char>>,
    pub started: nat,
    pub finished: nat,
    pub succeeded: nat,
}

impl View for AnalysisRun {
    type V = AnalysisView;

    closed spec fn view(&self) -> AnalysisView {
        AnalysisView {
            max_crates: self.max_crates as nat,
            jobs: string_views(self.jobs@),
            started: self.started as nat,
            finished: self.finished as nat,
            succeeded: self.succeeded as nat,
        }
    }
}

impl AnalysisView {
    /// Jobs start in order and finish after they start; fewer jobs than the
    /// bound are ever run; and at most one more than `MAX_RUNNING_ANALYSES`
    /// run at once.
    pub open spec fn wf(self) -> bool {
        &&& self.succeeded <= self.finished <= self.started <= self.jobs.len()
        &&& self.started - self.finished <= MAX_RUNNING_ANALYSES + 1
        &&& self.jobs.len() < self.max_crates || self.jobs.len() == 0
    }
}

impl AnalysisRun {
    /// The run that analyses the leading `batch_size` of `candidates`.
    pub fn new(candidates: &Vec<String>, max_crates: usize) -> (r: Self)
        ensures
            r@.max_crates == max_crates,
            r@.jobs == string_views(candidates@).take(
                batch_size(candidates@.len(), max_crates as nat) as int,
            ),
            r@.started == 0 && r@.finished == 0 && r@.succeeded == 0,
            r@.wf(),
    {
        let n = parse_batch_size(candidates.len(), max_crates);
        let mut jobs: Vec<String> = Vec::new();
        let mut i: usize = 0;
        while i < n
            invariant
                n == batch_size(candidates@.len(), max_crates as nat),
                n <= candidates@.len(),
                i <= n,
                string_views(jobs@) == string_views(candidates@).take(i as int),
            decreases n - i,
        {
            let ghost prev = string_views(jobs@);
            let c = candidates[i].clone();
            assert(c@ == candidates@[i as int]@);
            jobs.push(c);
            assert(string_views(jobs@) =~= prev.push(c@));
            assert(string_views(candidates@).take(i + 1) =~= string_views(candidates@).take(i as int).push(
                candidates@[i as int]@,
            ));
            i = i + 1;
        }
        AnalysisRun { max_crates, jobs, started: 0, finished: 0, succeeded: 0 }
    }

    /// The next job to start, with its index, if any is left. A job starts
    /// only while no more than `MAX_RUNNING_ANALYSES` are running, so that at
    /// most one more than that ever runs at once.
    pub fn next_job(&mut self) -> (r: Option<(usize, String)>)
        requires
            old(self)@.wf(),
            old(self)@.started - old(self)@.finished <= MAX_RUNNING_ANALYSES,
        ensures
            old(self)@.started < old(self)@.jobs.len() ==> (r matches Some((i, dir)) && i
                == old(self)@.started && dir@ == old(self)@.jobs[i as int] && final(self)@ == (AnalysisView {
                started: old(self)@.started + 1,
                ..old(self)@
            })),
            old(self)@.started == old(self)@.jobs.len() ==> r is None && final(self)@ == old(self)@,
            final(self)@.wf(),
    {
        if self.started < self.jobs.len() {
            let i = self.started;
            let dir = self.jobs[i].clone();
            self.started = i + 1;
            Some((i, dir))
        } else {
            None
        }
    }

    /// Records that a started job ended, and whether it succeeded. Its result
    /// changes only the counts: the jobs and which of them start stay as they
    /// were.
    pub fn job_done(&mut self, success: bool)
        requires
            old(self)@.wf(),
            old(self)@.finished < old(self)@.started,
        ensures
            final(self)@ == (AnalysisView {
                finished: old(self)@.finished + 1,
                succeeded: old(self)@.succeeded + if success { 1nat } else { 0nat },
                ..old(self)@
            }),
            final(self)@.wf(),
    {
        self.finished = self.finished + 1;
        if success {
            self.succeeded = self.succeeded + 1;
        }
    }

    /// The number of jobs started and not yet finished.
    pub fn running(&self) -> (r: usize)
        requires
            self@.wf(),
        ensures
            r == self@.started - self@.finished,
    {
        self.started - self.finished
    }

    /// The number of jobs started.
    pub fn started(&self) -> (r: usize)
        ensures
            r == self@.started,
    {
        self.started
    }

    /// The number of jobs finished.
    pub fn finished(&self) -> (r: usize)
        ensures
            r == self@.finished,
    {
        self.finished
    }

    /// The number of jobs that succeeded.
    pub fn succeeded(&self) -> (r: usize)
        ensures
            r == self@.succeeded,
    {
        self.succeeded
    }

    /// The bound less the finished jobs, shown as the jobs still to end.
    pub fn remaining(&self) -> (r: usize)
        requires
            self@.wf(),
        ensures
            r == self@.max_crates - self@.finished,
    {
        self.max_crates - self.finished
    }
}

} // verus!
