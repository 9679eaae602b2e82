//! The scan orchestrator as a state machine. The caller's I/O layer asks it
//! which candidate to start, performs the resolution, confirmation and probe
//! that it asks for, and reports each result back; the session records one
//! terminal outcome per started candidate.
use crate::cidr::{in_some_block, EdgeNetworkTable};
use crate::probe::{probe_step, step_from, AttemptResult, OutcomeKind, ProbePlan, ProbeStep, Protocol};
use vstd::prelude::*;

verus! {

/// Where a candidate stands in a scan.
#[derive(Clone, Copy, Debug, PartialEq, Eq)]
pub enum Stage {
    /// Not started.
    Pending,
    /// Its name is being resolved.
    Resolving,
    /// It resolved to `ip`, outside the table; the header confirmation runs.
    Classifying { ip: u32 },
    /// It resolved to the edge-network address `ip`; the fronting probe runs.
    Probing { ip: u32 },
    /// Its outcome is recorded.
    Done,
}

/// A candidate in one of these stages occupies a worker.
pub open spec fn is_active(s: Stage) -> bool {
    s is Resolving || s is Classifying || s is Probing
}

/// The number of candidates that occupy a worker.
pub open spec fn count_active(s: Seq<Stage>) -> nat
    decreases s.len(),
{
    if s.len() == 0 {
        0
    } else {
        count_active(s.drop_last()) + if is_active(s.last()) {
            1nat
        } else {
            0nat
        }
    }
}

proof fn lemma_count_active_update(s: Seq<Stage>, i: int, v: Stage)
    requires
        0 <= i < s.len(),
    ensures
        count_active(s.update(i, v)) == count_active(s) - (if is_active(s[i]) {
            1int
        } else {
            0int
        }) + (if is_active(v) {
            1int
        } else {
            0int
        }),
    decreases s.len(),
{
    let t = s.update(i, v);
    if i == s.len() - 1 {
        assert(t.drop_last() =~= s.drop_last());
    } else {
        assert(t.drop_last() =~= s.drop_last().update(i, v));
        lemma_count_active_update(s.drop_last(), i, v);
    }
}

/// The terminal outcome of one candidate.
#[derive(Clone, Debug)]
pub struct ProbeOutcome {
    /// The candidate's position in the scan's candidate list.
    pub index: usize,
    pub candidate: String,
    pub kind: OutcomeKind,
    /// The address the candidate resolved to.
    pub ip: Option<u32>,
    /// The status code of the deciding response.
    pub status_code: Option<u16>,
    /// The edge-network marker header of the deciding response.
    pub marker: Option<String>,
    /// Time spent on the candidate, in milliseconds.
    pub elapsed_ms: u64,
}

impl ProbeOutcome {
    pub fn is_working(&self) -> (r: bool)
        ensures
            r == (self.kind == OutcomeKind::Working),
    {
        match self.kind {
            OutcomeKind::Working => true,
            _ => false,
        }
    }

    pub fn is_restricted(&self) -> (r: bool)
        ensures
            r == (self.kind == OutcomeKind::Restricted),
    {
        match self.kind {
            OutcomeKind::Restricted => true,
            _ => false,
        }
    }

    /// Whether the candidate was taken for an edge-network address.
    pub fn is_edge_network(&self) -> (r: bool)
        ensures
            r == !(self.kind == OutcomeKind::DnsFailure || self.kind == OutcomeKind::NotEdgeNetwork),
    {
        match self.kind {
            OutcomeKind::DnsFailure | OutcomeKind::NotEdgeNetwork => false,
            _ => true,
        }
    }

    /// A human-readable reason for the outcome.
    pub fn reason(&self) -> (r: &'static str)
        ensures
            r@ == reason_text(self.kind)@,
    {
        match self.kind {
            OutcomeKind::Working => "edge reachable, target answered through the front",
            OutcomeKind::Restricted => "edge reachable, target refused access to the content",
            OutcomeKind::SubdomainIssue => "no answer through the front on any protocol",
            OutcomeKind::TargetIssue => "edge reachable, target unhealthy or misconfigured",
            OutcomeKind::DnsFailure => "name did not resolve",
            OutcomeKind::NotEdgeNetwork => "address outside the edge network",
        }
    }
}

/// The reason text of each category.
pub open spec fn reason_text(k: OutcomeKind) -> &'static str {
    match k {
        OutcomeKind::Working => "edge reachable, target answered through the front",
        OutcomeKind::Restricted => "edge reachable, target refused access to the content",
        OutcomeKind::SubdomainIssue => "no answer through the front on any protocol",
        OutcomeKind::TargetIssue => "edge reachable, target unhealthy or misconfigured",
        OutcomeKind::DnsFailure => "name did not resolve",
        OutcomeKind::NotEdgeNetwork => "address outside the edge network",
    }
}

/// The number of outcomes of category `k`.
pub open spec fn count_kind(outs: Seq<ProbeOutcome>, k: OutcomeKind) -> nat
    decreases outs.len(),
{
    if outs.len() == 0 {
        0
    } else {
        count_kind(outs.drop_last(), k) + if outs.last().kind == k {
            1nat
        } else {
            0nat
        }
    }
}

/// Outcome counts per category.
#[derive(Clone, Copy, Debug, PartialEq, Eq)]
pub struct CategoryCounts {
    pub working: usize,
    pub restricted: usize,
    pub subdomain_issues: usize,
    pub target_issues: usize,
    pub dns_failures: usize,
    pub not_edge_network: usize,
}

/// The counts are those of `outs`.
pub open spec fn counts_of(c: CategoryCounts, outs: Seq<ProbeOutcome>) -> bool {
    &&& c.working == count_kind(outs, OutcomeKind::Working)
    &&& c.restricted == count_kind(outs, OutcomeKind::Restricted)
    &&& c.subdomain_issues == count_kind(outs, OutcomeKind::SubdomainIssue)
    &&& c.target_issues == count_kind(outs, OutcomeKind::TargetIssue)
    &&& c.dns_failures == count_kind(outs, OutcomeKind::DnsFailure)
    &&& c.not_edge_network == count_kind(outs, OutcomeKind::NotEdgeNetwork)
}

/// Counts the outcomes of each category.
pub fn tally(outs: &Vec<ProbeOutcome>) -> (r: CategoryCounts)
    ensures
        counts_of(r, outs@),
        r.working + r.restricted + r.subdomain_issues + r.target_issues + r.dns_failures
            + r.not_edge_network == outs@.len(),
{
    let mut c = CategoryCounts {
        working: 0,
        restricted: 0,
        subdomain_issues: 0,
        target_issues: 0,
        dns_failures: 0,
        not_edge_network: 0,
    };
    let mut i: usize = 0;
    while i < outs.len()
        invariant
            i <= outs@.len(),
            counts_of(c, outs@.subrange(0, i as int)),
            c.working + c.restricted + c.subdomain_issues + c.target_issues + c.dns_failures
                + c.not_edge_network == i,
        decreases outs@.len() - i,
    {
        proof {
            assert(outs@.subrange(0, i + 1).drop_last() =~= outs@.subrange(0, i as int));
        }
        match outs[i].kind {
            OutcomeKind::Working => c.working = c.working + 1,
            OutcomeKind::Restricted => c.restricted = c.restricted + 1,
            OutcomeKind::SubdomainIssue => c.subdomain_issues = c.subdomain_issues + 1,
            OutcomeKind::TargetIssue => c.target_issues = c.target_issues + 1,
            OutcomeKind::DnsFailure => c.dns_failures = c.dns_failures + 1,
            OutcomeKind::NotEdgeNetwork => c.not_edge_network = c.not_edge_network + 1,
        }
        i = i + 1;
    }
    assert(outs@.subrange(0, outs@.len() as int) =~= outs@);
    c
}

/// Why a scan cannot start.
#[derive(Clone, Copy, Debug, PartialEq, Eq)]
pub enum ScanError {
    /// The candidate source supplied no candidate at all.
    CandidateSourceUnavailable,
    /// The target host name is empty.
    InvalidTarget,
    /// The concurrency limit is zero.
    InvalidConcurrency,
}

/// What the caller does for a candidate after reporting an event.
#[derive(Clone, Copy, Debug, PartialEq, Eq)]
pub enum ScanAction {
    /// Run the fronting probe through `ip`.
    Probe { ip: u32 },
    /// Run the secondary header confirmation against the candidate.
    Confirm { ip: u32 },
    /// The candidate is finished with this category.
    Finished(OutcomeKind),
}

/// The aggregate of a scan run.
#[derive(Clone, Debug)]
pub struct ScanResult {
    /// One outcome per finished candidate, in order of completion.
    pub outcomes: Vec<ProbeOutcome>,
    /// The run ended early on cancellation.
    pub cancelled: bool,
    pub counts: CategoryCounts,
    /// Wall-clock duration of the run, in milliseconds.
    pub elapsed_ms: u64,
}

/// The status code of attempt `d` of `results`, when it got a response.
pub open spec fn deciding_status(results: Seq<AttemptResult>, d: Option<usize>) -> Option<u16> {
    match d {
        Some(k) => match results[k as int] {
            AttemptResult::Response { status, .. } => Some(status),
            _ => None,
        },
        None => None,
    }
}

/// The marker header of attempt `d` of `results`, when it got a response.
pub open spec fn deciding_marker(results: Seq<AttemptResult>, d: Option<usize>) -> Option<String> {
    match d {
        Some(k) => match results[k as int] {
            AttemptResult::Response { marker, .. } => marker,
            _ => None,
        },
        None => None,
    }
}

/// One scan over a list of candidates: the target, the limits, the edge
/// table, the probe plan, a cancellation flag and each candidate's stage.
pub struct ScanSession {
    target: String,
    candidates: Vec<String>,
    concurrency: usize,
    timeout_ms: u64,
    table: EdgeNetworkTable,
    plan: ProbePlan,
    confirm_off_table: bool,
    cancelled: bool,
    next: usize,
    stages: Vec<Stage>,
    active: usize,
    outcomes: Vec<ProbeOutcome>,
}

impl ScanSession {
    pub closed spec fn spec_candidates(&self) -> Seq<String> {
        self.candidates@
    }

    pub closed spec fn spec_concurrency(&self) -> nat {
        self.concurrency as nat
    }

    pub closed spec fn spec_table(&self) -> EdgeNetworkTable {
        self.table
    }

    pub closed spec fn spec_plan(&self) -> Seq<Protocol> {
        self.plan@
    }

    pub closed spec fn spec_confirms(&self) -> bool {
        self.confirm_off_table
    }

    pub closed spec fn spec_cancelled(&self) -> bool {
        self.cancelled
    }

    /// How many candidates have been started, the first ones of the list.
    pub closed spec fn spec_dispatched(&self) -> nat {
        self.next as nat
    }

    pub closed spec fn spec_stages(&self) -> Seq<Stage> {
        self.stages@
    }

    pub closed spec fn spec_outcomes(&self) -> Seq<ProbeOutcome> {
        self.outcomes@
    }

    /// The number of candidates in flight.
    pub open spec fn spec_in_flight(&self) -> nat {
        count_active(self.spec_stages())
    }

    /// The session's invariant.
    pub closed spec fn wf(&self) -> bool {
        &&& self.stages@.len() == self.candidates@.len()
        &&& self.next <= self.candidates@.len()
        &&& forall|i: int|
            0 <= i < self.stages@.len() ==> (i < self.next <==> !(#[trigger] self.stages@[i] is Pending))
        &&& self.active == count_active(self.stages@)
        &&& 0 < self.concurrency
        &&& self.active <= self.concurrency
        &&& self.outcomes@.len() + self.active == self.next
        &&& forall|k: int|
            0 <= k < self.outcomes@.len() ==> #[trigger] self.outcomes@[k].index < self.stages@.len()
                && self.stages@[self.outcomes@[k].index as int] is Done
                && self.outcomes@[k].candidate == self.candidates@[self.outcomes@[k].index as int]
        &&& forall|k1: int, k2: int|
            0 <= k1 < k2 < self.outcomes@.len() ==> #[trigger] self.outcomes@[k1].index
                != #[trigger] self.outcomes@[k2].index
        &&& forall|i: int|
            0 <= i < self.stages@.len() && #[trigger] self.stages@[i] is Done ==> exists|k: int|
                0 <= k < self.outcomes@.len() && #[trigger] self.outcomes@[k].index == i
        &&& self.table.wf()
    }

    /// The scan is ready to start: every candidate pending, nothing recorded.
    pub open spec fn is_fresh(&self) -> bool {
        &&& self.spec_dispatched() == 0
        &&& self.spec_in_flight() == 0
        &&& !self.spec_cancelled()
        &&& self.spec_outcomes().len() == 0
        &&& self.spec_stages().len() == self.spec_candidates().len()
        &&& forall|i: int|
            0 <= i < self.spec_stages().len() ==> #[trigger] self.spec_stages()[i] is Pending
    }

    /// Starts a scan session over `candidates` toward `target`, with at most
    /// `concurrency` candidates in flight. Fails when there is no candidate,
    /// when the target is empty or when the limit is zero, in that order.
    pub fn new(
        target: String,
        candidates: Vec<String>,
        concurrency: usize,
        timeout_ms: u64,
        table: EdgeNetworkTable,
        plan: ProbePlan,
        confirm_off_table: bool,
    ) -> (r: Result<ScanSession, ScanError>)
        requires
            table.wf(),
        ensures
            candidates@.len() == 0 ==> r == Err::<ScanSession, ScanError>(
                ScanError::CandidateSourceUnavailable,
            ),
            candidates@.len() > 0 && target@.len() == 0 ==> r == Err::<ScanSession, ScanError>(
                ScanError::InvalidTarget,
            ),
            candidates@.len() > 0 && target@.len() > 0 && concurrency == 0 ==> r == Err::<
                ScanSession,
                ScanError,
            >(ScanError::InvalidConcurrency),
            r is Ok <==> candidates@.len() > 0 && target@.len() > 0 && concurrency > 0,
            r matches Ok(s) ==> {
                &&& s.wf()
                &&& s.is_fresh()
                &&& s.spec_candidates() == candidates@
                &&& s.spec_concurrency() == concurrency
                &&& s.spec_table() == table
                &&& s.spec_plan() == plan@
                &&& s.spec_confirms() == confirm_off_table
                &&& s.target_name()@ == target@
                &&& s.timeout() == timeout_ms
            },
    {
        if candidates.len() == 0 {
            return Err(ScanError::CandidateSourceUnavailable);
        }
        if target.as_str().is_empty() {
            return Err(ScanError::InvalidTarget);
        }
        if concurrency == 0 {
            return Err(ScanError::InvalidConcurrency);
        }
        let mut stages: Vec<Stage> = Vec::new();
        let mut i: usize = 0;
        while i < candidates.len()
            invariant
                i <= candidates@.len(),
                stages@.len() == i,
                forall|j: int| 0 <= j < i ==> #[trigger] stages@[j] is Pending,
                count_active(stages@) == 0,
            decreases candidates@.len() - i,
        {
            proof {
                assert(stages@.push(Stage::Pending).drop_last() =~= stages@);
            }
            stages.push(Stage::Pending);
            i = i + 1;
        }
        let s = ScanSession {
            target,
            candidates,
            concurrency,
            timeout_ms,
            table,
            plan,
            confirm_off_table,
            cancelled: false,
            next: 0,
            stages,
            active: 0,
            outcomes: Vec::new(),
        };
        Ok(s)
    }

    pub closed spec fn target_name(&self) -> String {
        self.target
    }

    pub closed spec fn timeout(&self) -> u64 {
        self.timeout_ms
    }

    /// The target host.
    pub fn target(&self) -> (r: &String)
        ensures
            r == self.target_name(),
    {
        &self.target
    }

    /// The per-candidate timeout, in milliseconds.
    pub fn per_candidate_timeout_ms(&self) -> (r: u64)
        ensures
            r == self.timeout(),
    {
        self.timeout_ms
    }

    /// The candidate at position `i`.
    pub fn candidate(&self, i: usize) -> (r: &String)
        requires
            i < self.spec_candidates().len(),
        ensures
            *r == self.spec_candidates()[i as int],
    {
        &self.candidates[i]
    }

    /// The stage of the candidate at position `i`.
    pub fn stage(&self, i: usize) -> (r: Stage)
        requires
            i < self.spec_stages().len(),
        ensures
            r == self.spec_stages()[i as int],
    {
        self.stages[i]
    }

    /// The probe plan of the scan.
    pub fn plan(&self) -> (r: &ProbePlan)
        ensures
            r@ == self.spec_plan(),
    {
        &self.plan
    }

    /// The number of candidates.
    pub fn len(&self) -> (r: usize)
        ensures
            r == self.spec_candidates().len(),
    {
        self.candidates.len()
    }

    /// The number of candidates in flight.
    pub fn in_flight(&self) -> (r: usize)
        requires
            self.wf(),
        ensures
            r == self.spec_in_flight(),
    {
        self.active
    }

    /// The number of finished candidates, reported as progress; it never
    /// decreases during a scan.
    pub fn completed(&self) -> (r: usize)
        ensures
            r == self.spec_outcomes().len(),
    {
        self.outcomes.len()
    }

    pub fn is_cancelled(&self) -> (r: bool)
        ensures
            r == self.spec_cancelled(),
    {
        self.cancelled
    }

    /// Running totals per category over the finished candidates.
    pub fn totals(&self) -> (r: CategoryCounts)
        ensures
            counts_of(r, self.spec_outcomes()),
    {
        tally(&self.outcomes)
    }

    /// The recorded outcomes, in order of completion.
    pub fn outcomes(&self) -> (r: &Vec<ProbeOutcome>)
        ensures
            r@ == self.spec_outcomes(),
    {
        &self.outcomes
    }

    /// The scan is over: nothing in flight, and no candidate left to start
    /// or the scan cancelled.
    pub fn is_finished(&self) -> (r: bool)
        requires
            self.wf(),
        ensures
            r == (self.spec_in_flight() == 0 && (self.spec_cancelled()
                || self.spec_dispatched() == self.spec_candidates().len())),
    {
        self.active == 0 && (self.cancelled || self.next == self.candidates.len())
    }

    /// Requests cancellation: no candidate starts after this; those in
    /// flight run to completion.
    pub fn cancel(&mut self)
        requires
            old(self).wf(),
        ensures
            final(self).follows(old(self)),
            final(self).wf(),
            final(self).spec_cancelled(),
            final(self).spec_dispatched() == old(self).spec_dispatched(),
            final(self).spec_stages() == old(self).spec_stages(),
            final(self).spec_outcomes() == old(self).spec_outcomes(),
            final(self).spec_candidates() == old(self).spec_candidates(),
            final(self).spec_concurrency() == old(self).spec_concurrency(),
            final(self).spec_table() == old(self).spec_table(),
            final(self).spec_plan() == old(self).spec_plan(),
            final(self).spec_confirms() == old(self).spec_confirms(),
    {
        self.cancelled = true;
    }

    /// The two sessions share candidates, limits, table, plan and target.
    pub open spec fn same_config(&self, other: &ScanSession) -> bool {
        &&& self.spec_candidates() == other.spec_candidates()
        &&& self.spec_concurrency() == other.spec_concurrency()
        &&& self.spec_table() == other.spec_table()
        &&& self.spec_plan() == other.spec_plan()
        &&& self.spec_confirms() == other.spec_confirms()
        &&& self.target_name() == other.target_name()
        &&& self.timeout() == other.timeout()
    }

    /// `self` can come from `earlier` through the session's operations: same
    /// configuration, a cancelled scan stays cancelled and starts nothing
    /// more, and recorded outcomes are kept, in order, as progress grows.
    pub open spec fn follows(&self, earlier: &ScanSession) -> bool {
        &&& self.same_config(earlier)
        &&& earlier.spec_cancelled() ==> self.spec_cancelled() && self.spec_dispatched()
            == earlier.spec_dispatched()
        &&& earlier.spec_dispatched() <= self.spec_dispatched()
        &&& earlier.spec_outcomes().is_prefix_of(self.spec_outcomes())
    }

    /// The outcome recorded for candidate `i`.
    pub open spec fn record(
        &self,
        i: usize,
        kind: OutcomeKind,
        ip: Option<u32>,
        status_code: Option<u16>,
        marker: Option<String>,
        elapsed_ms: u64,
    ) -> ProbeOutcome {
        ProbeOutcome {
            index: i,
            candidate: self.spec_candidates()[i as int],
            kind,
            ip,
            status_code,
            marker,
            elapsed_ms,
        }
    }

    /// After an event on candidate `i` that led to `action`: a finished
    /// candidate has its outcome appended, otherwise nothing is recorded.
    pub open spec fn recorded(
        &self,
        old: &ScanSession,
        i: usize,
        action: ScanAction,
        ip: Option<u32>,
        status_code: Option<u16>,
        marker: Option<String>,
        elapsed_ms: u64,
    ) -> bool {
        match action {
            ScanAction::Finished(kind) => self.spec_outcomes() == old.spec_outcomes().push(
                old.record(i, kind, ip, status_code, marker, elapsed_ms),
            ),
            _ => self.spec_outcomes() == old.spec_outcomes(),
        }
    }

    /// Candidate `i` moves from one in-flight stage to another.
    fn advance(&mut self, i: usize, st: Stage)
        requires
            old(self).wf(),
            i < old(self).stages@.len(),
            is_active(old(self).stages@[i as int]),
            is_active(st),
        ensures
            final(self).wf(),
            final(self).same_config(old(self)),
            final(self).cancelled == old(self).cancelled,
            final(self).next == old(self).next,
            final(self).stages@ == old(self).stages@.update(i as int, st),
            final(self).outcomes@ == old(self).outcomes@,
    {
        proof {
            lemma_count_active_update(self.stages@, i as int, st);
        }
        self.stages.set(i, st);
        proof {
            assert forall|j: int|
                0 <= j < self.stages@.len() && #[trigger] self.stages@[j] is Done implies exists|
                k: int,
            |
                0 <= k < self.outcomes@.len() && #[trigger] self.outcomes@[k].index == j by {
                assert(old(self).stages@[j] is Done);
                let k = choose|k: int|
                    0 <= k < old(self).outcomes@.len() && #[trigger] old(self).outcomes@[k].index
                        == j;
                assert(self.outcomes@[k].index == j);
            }
        }
    }

    /// Candidate `i` leaves flight with outcome `o`.
    fn complete(&mut self, i: usize, o: ProbeOutcome)
        requires
            old(self).wf(),
            i < old(self).stages@.len(),
            is_active(old(self).stages@[i as int]),
            o.index == i,
            o.candidate == old(self).candidates@[i as int],
        ensures
            final(self).wf(),
            final(self).same_config(old(self)),
            final(self).cancelled == old(self).cancelled,
            final(self).next == old(self).next,
            final(self).stages@ == old(self).stages@.update(i as int, Stage::Done),
            final(self).outcomes@ == old(self).outcomes@.push(o),
    {
        let ghost old_outs = self.outcomes@;
        let ghost old_stages = self.stages@;
        proof {
            lemma_count_active_update(self.stages@, i as int, Stage::Done);
        }
        self.stages.set(i, Stage::Done);
        self.active = self.active - 1;
        self.outcomes.push(o);
        proof {
            let n = old_outs.len() as int;
            assert(self.outcomes@[n] == o);
            assert forall|k: int| 0 <= k < self.outcomes@.len() implies #[trigger] self.outcomes@[
                k].index < self.stages@.len() && self.stages@[self.outcomes@[k].index as int] is Done
                && self.outcomes@[k].candidate == self.candidates@[self.outcomes@[k].index as int] by {
                if k < n {
                    assert(old_outs[k] == self.outcomes@[k]);
                }
            }
            assert forall|k1: int, k2: int|
                0 <= k1 < k2 < self.outcomes@.len() implies #[trigger] self.outcomes@[k1].index
                != #[trigger] self.outcomes@[k2].index by {
                assert(old_outs[k1] == self.outcomes@[k1]);
                if k2 == n {
                    assert(old_stages[old_outs[k1].index as int] is Done);
                } else {
                    assert(old_outs[k2] == self.outcomes@[k2]);
                }
            }
            assert forall|j: int|
                0 <= j < self.stages@.len() && #[trigger] self.stages@[j] is Done implies exists|
                k: int,
            |
                0 <= k < self.outcomes@.len() && #[trigger] self.outcomes@[k].index == j by {
                if j == i {
                    assert(self.outcomes@[n].index == j);
                } else {
                    assert(old_stages[j] is Done);
                    let k = choose|k: int| 0 <= k < old_outs.len() && #[trigger] old_outs[k].index == j;
                    assert(self.outcomes@[k] == old_outs[k]);
                }
            }
        }
    }

    /// Starts the next pending candidate, if the scan is not cancelled and
    /// a worker is free; returns its position.
    pub fn dispatch(&mut self) -> (r: Option<usize>)
        requires
            old(self).wf(),
        ensures
            final(self).follows(old(self)),
            final(self).wf(),
            final(self).same_config(old(self)),
            final(self).spec_cancelled() == old(self).spec_cancelled(),
            final(self).spec_outcomes() == old(self).spec_outcomes(),
            r is Some <==> !old(self).spec_cancelled() && old(self).spec_dispatched() < old(
                self,
            ).spec_candidates().len() && old(self).spec_in_flight() < old(self).spec_concurrency(),
            r matches Some(i) ==> i == old(self).spec_dispatched() && final(self).spec_dispatched()
                == old(self).spec_dispatched() + 1 && final(self).spec_stages() == old(
                self,
            ).spec_stages().update(i as int, Stage::Resolving),
            r is None ==> final(self).spec_dispatched() == old(self).spec_dispatched()
                && final(self).spec_stages() == old(self).spec_stages(),
    {
        if self.cancelled || self.next >= self.candidates.len() || self.active >= self.concurrency {
            return None;
        }
        let i = self.next;
        proof {
            assert(self.stages@[i as int] is Pending);
            lemma_count_active_update(self.stages@, i as int, Stage::Resolving);
        }
        self.stages.set(i, Stage::Resolving);
        self.active = self.active + 1;
        self.next = self.next + 1;
        proof {
            assert forall|j: int|
                0 <= j < self.stages@.len() && #[trigger] self.stages@[j] is Done implies exists|
                k: int,
            |
                0 <= k < self.outcomes@.len() && #[trigger] self.outcomes@[k].index == j by {
                assert(old(self).stages@[j] is Done);
                let k = choose|k: int|
                    0 <= k < old(self).outcomes@.len() && #[trigger] old(self).outcomes@[k].index
                        == j;
                assert(self.outcomes@[k].index == j);
            }
        }
        Some(i)
    }

    /// Reports the resolution of candidate `i`: no address ends it as
    /// `DnsFailure`; an address in the edge table sends it to the probe; any
    /// other address goes to the header confirmation when that is enabled,
    /// and ends as `NotEdgeNetwork` otherwise.
    pub fn on_resolved(&mut self, i: usize, ip: Option<u32>, elapsed_ms: u64) -> (r: ScanAction)
        requires
            old(self).wf(),
            i < old(self).spec_stages().len(),
            old(self).spec_stages()[i as int] is Resolving,
        ensures
            final(self).follows(old(self)),
            final(self).wf(),
            final(self).same_config(old(self)),
            final(self).spec_cancelled() == old(self).spec_cancelled(),
            final(self).spec_dispatched() == old(self).spec_dispatched(),
            (final(self).spec_stages()[i as int], r) == resolve_transition(
                old(self).spec_table(),
                old(self).spec_confirms(),
                ip,
            ),
            final(self).spec_stages() == old(self).spec_stages().update(
                i as int,
                final(self).spec_stages()[i as int],
            ),
            final(self).recorded(old(self), i, r, ip, None, None, elapsed_ms),
    {
        match ip {
            None => {
                let o = self.make_outcome(i, OutcomeKind::DnsFailure, None, None, None, elapsed_ms);
                self.complete(i, o);
                ScanAction::Finished(OutcomeKind::DnsFailure)
            },
            Some(a) => {
                if self.table.is_edge_network(a) {
                    self.advance(i, Stage::Probing { ip: a });
                    ScanAction::Probe { ip: a }
                } else if self.confirm_off_table {
                    self.advance(i, Stage::Classifying { ip: a });
                    ScanAction::Confirm { ip: a }
                } else {
                    let o = self.make_outcome(
                        i,
                        OutcomeKind::NotEdgeNetwork,
                        Some(a),
                        None,
                        None,
                        elapsed_ms,
                    );
                    self.complete(i, o);
                    ScanAction::Finished(OutcomeKind::NotEdgeNetwork)
                }
            },
        }
    }

    /// Reports the header confirmation of candidate `i`: confirmed sends it
    /// to the probe; anything else (no marker, a timeout, a refused
    /// connection) ends it as `NotEdgeNetwork`.
    pub fn on_confirmed(&mut self, i: usize, confirmed: bool, elapsed_ms: u64) -> (r: ScanAction)
        requires
            old(self).wf(),
            i < old(self).spec_stages().len(),
            old(self).spec_stages()[i as int] is Classifying,
        ensures
            final(self).follows(old(self)),
            final(self).wf(),
            final(self).same_config(old(self)),
            final(self).spec_cancelled() == old(self).spec_cancelled(),
            final(self).spec_dispatched() == old(self).spec_dispatched(),
            ({
                let ip = old(self).spec_stages()[i as int]->Classifying_ip;
                &&& confirmed ==> r == (ScanAction::Probe { ip: ip })
                &&& confirmed ==> final(self).spec_stages() == old(self).spec_stages().update(
                    i as int,
                    (Stage::Probing { ip: ip }),
                )
                &&& !confirmed ==> r == ScanAction::Finished(OutcomeKind::NotEdgeNetwork)
                &&& !confirmed ==> final(self).spec_stages() == old(self).spec_stages().update(
                    i as int,
                    Stage::Done,
                )
                &&& final(self).recorded(old(self), i, r, Some(ip), None, None, elapsed_ms)
            }),
    {
        let ip = match self.stages[i] {
            Stage::Classifying { ip } => ip,
            _ => 0,
        };
        if confirmed {
            self.advance(i, Stage::Probing { ip });
            ScanAction::Probe { ip }
        } else {
            let o = self.make_outcome(
                i,
                OutcomeKind::NotEdgeNetwork,
                Some(ip),
                None,
                None,
                elapsed_ms,
            );
            self.complete(i, o);
            ScanAction::Finished(OutcomeKind::NotEdgeNetwork)
        }
    }

    /// The prober's next step for a candidate in flight, after `results`.
    pub fn next_probe_step(&self, results: &Vec<AttemptResult>) -> (r: ProbeStep)
        requires
            results@.len() <= self.spec_plan().len(),
        ensures
            r == probe_step(self.spec_plan(), results@),
    {
        self.plan.next_step(results)
    }

    /// Reports the finished probe of candidate `i`: its outcome is the
    /// verdict on `results`, with the status code and marker header of the
    /// deciding response.
    pub fn on_probed(&mut self, i: usize, results: &Vec<AttemptResult>, elapsed_ms: u64) -> (r:
        OutcomeKind)
        requires
            old(self).wf(),
            i < old(self).spec_stages().len(),
            old(self).spec_stages()[i as int] is Probing,
            results@.len() <= old(self).spec_plan().len(),
            probe_step(old(self).spec_plan(), results@) is Finish,
        ensures
            final(self).follows(old(self)),
            final(self).wf(),
            final(self).same_config(old(self)),
            final(self).spec_cancelled() == old(self).spec_cancelled(),
            final(self).spec_dispatched() == old(self).spec_dispatched(),
            final(self).spec_stages() == old(self).spec_stages().update(i as int, Stage::Done),
            ({
                let ip = old(self).spec_stages()[i as int]->Probing_ip;
                let step = probe_step(old(self).spec_plan(), results@);
                let d = step->decided_by;
                &&& r == step->kind
                &&& final(self).recorded(
                    old(self),
                    i,
                    ScanAction::Finished(r),
                    Some(ip),
                    deciding_status(results@, d),
                    deciding_marker(results@, d),
                    elapsed_ms,
                )
            }),
    {
        let ip = match self.stages[i] {
            Stage::Probing { ip } => ip,
            _ => 0,
        };
        let step = self.plan.next_step(results);
        let n_results = results.len();
        let (kind, decided_by) = match step {
            ProbeStep::Finish { kind, decided_by } => (kind, decided_by),
            ProbeStep::Attempt(_) => (OutcomeKind::SubdomainIssue, None),
        };
        proof {
            lemma_decided_in_range(self.plan@, results@, 0);
        }
        let (status_code, marker) = match decided_by {
            Some(k) if k < n_results => match &results[k] {
                AttemptResult::Response { status, marker, .. } => (Some(*status), marker.clone()),
                _ => (None, None),
            },
            _ => (None, None),
        };
        let o = self.make_outcome(i, kind, Some(ip), status_code, marker, elapsed_ms);
        self.complete(i, o);
        kind
    }

    fn make_outcome(
        &self,
        i: usize,
        kind: OutcomeKind,
        ip: Option<u32>,
        status_code: Option<u16>,
        marker: Option<String>,
        elapsed_ms: u64,
    ) -> (o: ProbeOutcome)
        requires
            i < self.candidates@.len(),
        ensures
            o == self.record(i, kind, ip, status_code, marker, elapsed_ms),
    {
        ProbeOutcome {
            index: i,
            candidate: self.candidates[i].clone(),
            kind,
            ip,
            status_code,
            marker,
            elapsed_ms,
        }
    }

    /// Ends the session: its outcomes, whether it was cancelled, the counts
    /// per category and the wall-clock duration.
    pub fn finish(self, elapsed_ms: u64) -> (r: ScanResult)
        requires
            self.wf(),
        ensures
            r.outcomes@ == self.spec_outcomes(),
            r.cancelled == self.spec_cancelled(),
            counts_of(r.counts, r.outcomes@),
            r.elapsed_ms == elapsed_ms,
            r.outcomes@.len() <= self.spec_dispatched(),
    {
        let counts = tally(&self.outcomes);
        ScanResult { outcomes: self.outcomes, cancelled: self.cancelled, counts, elapsed_ms }
    }

    /// `follows` chains: a session that follows one that follows `a` follows `a`.
    pub proof fn lemma_follows_transitive(a: &ScanSession, b: &ScanSession, c: &ScanSession)
        requires
            b.follows(a),
            c.follows(b),
        ensures
            c.follows(a),
    {
        assert forall|k: int| 0 <= k < a.spec_outcomes().len() implies #[trigger] a.spec_outcomes()[k]
            == c.spec_outcomes()[k] by {
            assert(a.spec_outcomes()[k] == b.spec_outcomes()[k]);
        }
    }

    /// Cancelling a scan once `n` candidates have been dispatched: every later
    /// state of the session is cancelled, has dispatched exactly those `n` and
    /// holds at most `n` outcomes, and so does the result that `finish` makes
    /// of it.
    pub proof fn lemma_cancelled_scan_bounded(at_cancel: &ScanSession, later: &ScanSession)
        requires
            at_cancel.spec_cancelled(),
            later.wf(),
            later.follows(at_cancel),
        ensures
            later.spec_cancelled(),
            later.spec_dispatched() == at_cancel.spec_dispatched(),
            later.spec_outcomes().len() <= at_cancel.spec_dispatched(),
            forall|k: int|
                0 <= k < later.spec_outcomes().len() ==> #[trigger] later.spec_outcomes()[k].index
                    < at_cancel.spec_dispatched(),
    {
        later.lemma_outcomes_belong();
    }

    /// There is one stage per candidate, and every outcome belongs to a
    /// dispatched candidate: its index is below the dispatched count and its
    /// `candidate` is the name at that index.
    pub proof fn lemma_outcomes_belong(&self)
        requires
            self.wf(),
        ensures
            self.spec_stages().len() == self.spec_candidates().len(),
            forall|k: int|
                0 <= k < self.spec_outcomes().len() ==> #[trigger] self.spec_outcomes()[k].index
                    < self.spec_dispatched() && self.spec_outcomes()[k].candidate
                    == self.spec_candidates()[self.spec_outcomes()[k].index as int],
    {
        assert forall|k: int| 0 <= k < self.spec_outcomes().len() implies #[trigger] self.spec_outcomes()[
            k].index < self.spec_dispatched() && self.spec_outcomes()[k].candidate
            == self.spec_candidates()[self.spec_outcomes()[k].index as int] by {
            let i = self.outcomes@[k].index as int;
            assert(self.stages@[i] is Done);
        }
    }

    /// At no point are more than `concurrency` candidates resolving,
    /// classifying or probing.
    pub proof fn lemma_concurrency_respected(&self)
        requires
            self.wf(),
        ensures
            self.spec_in_flight() <= self.spec_concurrency(),
            0 < self.spec_concurrency(),
    {
    }

    /// Outcomes come only from started candidates: at most as many as were
    /// dispatched, which after cancellation no longer grows (see
    /// `dispatch`, and the other events, which start nothing).
    pub proof fn lemma_outcomes_within_dispatched(&self)
        requires
            self.wf(),
        ensures
            self.spec_outcomes().len() <= self.spec_dispatched(),
            self.spec_dispatched() <= self.spec_candidates().len(),
    {
    }

    /// Every finished candidate has exactly one outcome and every outcome
    /// belongs to a finished candidate; once a scan that was not cancelled
    /// is over, every candidate has its outcome.
    pub proof fn lemma_one_outcome_per_candidate(&self)
        requires
            self.wf(),
        ensures
            forall|k: int|
                0 <= k < self.spec_outcomes().len() ==> #[trigger] self.spec_outcomes()[k].index
                    < self.spec_stages().len() && self.spec_stages()[self.spec_outcomes()[k].index as int] is Done,
            forall|k1: int, k2: int|
                0 <= k1 < k2 < self.spec_outcomes().len() ==> #[trigger] self.spec_outcomes()[k1].index
                    != #[trigger] self.spec_outcomes()[k2].index,
            forall|i: int|
                0 <= i < self.spec_stages().len() && #[trigger] self.spec_stages()[i] is Done ==> exists|k: int|
                    0 <= k < self.spec_outcomes().len() && #[trigger] self.spec_outcomes()[k].index == i,
            self.spec_in_flight() == 0 && !self.spec_cancelled() && self.spec_dispatched()
                == self.spec_candidates().len() ==> self.spec_outcomes().len()
                == self.spec_candidates().len(),
    {
    }
}

/// Where a resolution sends a candidate, and what the caller does next.
pub open spec fn resolve_transition(table: EdgeNetworkTable, confirms: bool, ip: Option<u32>) -> (
    Stage,
    ScanAction,
) {
    match ip {
        None => (Stage::Done, ScanAction::Finished(OutcomeKind::DnsFailure)),
        Some(a) => if in_some_block(table@, a) {
            (Stage::Probing { ip: a }, ScanAction::Probe { ip: a })
        } else if confirms {
            (Stage::Classifying { ip: a }, ScanAction::Confirm { ip: a })
        } else {
            (Stage::Done, ScanAction::Finished(OutcomeKind::NotEdgeNetwork))
        },
    }
}

proof fn lemma_decided_in_range(protocols: Seq<Protocol>, results: Seq<AttemptResult>, k: int)
    requires
        0 <= k,
        results.len() <= usize::MAX,
    ensures
        step_from(protocols, results, k) matches ProbeStep::Finish { decided_by: Some(d), .. } ==> k
            <= d < results.len(),
    decreases results.len() - k,
{
    if k < results.len() {
        lemma_decided_in_range(protocols, results, k + 1);
    }
}

} // verus!
