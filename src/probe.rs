//! The fronting prober's decisions: which protocol to try next and how the
//! observed responses classify the candidate.
use vstd::prelude::*;

verus! {

/// A transport variant tried by the prober.
#[derive(Clone, Copy, Debug, PartialEq, Eq)]
pub enum Protocol {
    Https,
    Http,
}

impl Protocol {
    /// The port the variant connects to: 443 for HTTPS, 80 for HTTP.
    pub fn port(&self) -> (r: u16)
        ensures
            r == (match self {
                Protocol::Https => 443u16,
                Protocol::Http => 80u16,
            }),
    {
        match self {
            Protocol::Https => 443,
            Protocol::Http => 80,
        }
    }

    /// Whether the server name is sent in a TLS handshake.
    pub fn uses_tls(&self) -> (r: bool)
        ensures
            r == (*self is Https),
    {
        match self {
            Protocol::Https => true,
            Protocol::Http => false,
        }
    }
}

/// The terminal category of a candidate.
#[derive(Clone, Copy, Debug, PartialEq, Eq)]
pub enum OutcomeKind {
    Working,
    Restricted,
    SubdomainIssue,
    TargetIssue,
    DnsFailure,
    NotEdgeNetwork,
}

/// What a single probe attempt observed.
#[derive(Clone, Debug)]
pub enum AttemptResult {
    /// A response head arrived. `marker` is the edge-network marker header
    /// (a per-request trace id) when the response carried one;
    /// `asks_for_https` tells a 400 whose body says to use HTTPS.
    Response { status: u16, marker: Option<String>, asks_for_https: bool },
    /// The TLS handshake failed.
    TlsFailure,
    /// The connection was refused.
    ConnectionRefused,
    /// Nothing came back within the timeout.
    TimedOut,
}

/// The response classification policy.
pub open spec fn classify(status: u16, marker_present: bool) -> OutcomeKind {
    if status == 403 || status == 404 {
        OutcomeKind::Restricted
    } else if 100 <= status <= 399 && marker_present {
        OutcomeKind::Working
    } else {
        OutcomeKind::TargetIssue
    }
}

/// Classifies a response by its status code and the presence of a marker
/// header: a 1xx/2xx/3xx with a marker is `Working`, 403 and 404 are
/// `Restricted`, anything else is `TargetIssue`.
pub fn classify_response(status: u16, marker_present: bool) -> (r: OutcomeKind)
    ensures
        r == classify(status, marker_present),
{
    if status == 403 || status == 404 {
        OutcomeKind::Restricted
    } else if 100 <= status && status <= 399 && marker_present {
        OutcomeKind::Working
    } else {
        OutcomeKind::TargetIssue
    }
}

/// What classification reads of an attempt: status code, presence of a
/// marker header and the HTTPS hint; `None` when no response came back.
pub open spec fn signature(a: AttemptResult) -> Option<(u16, bool, bool)> {
    match a {
        AttemptResult::Response { status, marker, asks_for_https } => Some(
            (status, marker is Some, asks_for_https),
        ),
        _ => None,
    }
}

/// HTTPS is among the first `n` protocols.
pub open spec fn https_within(protocols: Seq<Protocol>, n: int) -> bool {
    exists|j: int| 0 <= j < n && #[trigger] protocols[j] == Protocol::Https
}

/// Whether attempt `k` ends the probe, and with which category: a response
/// ends it unless it is a 400 asking for HTTPS while HTTPS has not been tried
/// and a protocol is left to try; a failed attempt never ends it.
pub open spec fn attempt_verdict(protocols: Seq<Protocol>, k: int, a: AttemptResult) -> Option<
    OutcomeKind,
> {
    match signature(a) {
        Some((status, marker, asks)) => if status == 400 && asks && !https_within(protocols, k + 1)
            && k + 1 < protocols.len() {
            None
        } else {
            Some(classify(status, marker))
        },
        None => None,
    }
}

/// What the prober does next.
#[derive(Clone, Copy, Debug, PartialEq, Eq)]
pub enum ProbeStep {
    /// Make the next attempt with this protocol.
    Attempt(Protocol),
    /// Stop: the candidate's category, and which attempt decided it (none
    /// when every attempt failed).
    Finish { kind: OutcomeKind, decided_by: Option<usize> },
}

/// The prober's next step, given the attempts made so far from attempt `k` on.
pub open spec fn step_from(protocols: Seq<Protocol>, results: Seq<AttemptResult>, k: int) -> ProbeStep
    decreases results.len() - k,
{
    if k >= results.len() {
        if k < protocols.len() {
            ProbeStep::Attempt(protocols[k])
        } else {
            ProbeStep::Finish { kind: OutcomeKind::SubdomainIssue, decided_by: None }
        }
    } else {
        match attempt_verdict(protocols, k, results[k]) {
            Some(kind) => ProbeStep::Finish { kind, decided_by: Some(k as usize) },
            None => step_from(protocols, results, k + 1),
        }
    }
}

/// The prober's next step after the attempts `results`, made in the order of
/// `protocols`.
pub open spec fn probe_step(protocols: Seq<Protocol>, results: Seq<AttemptResult>) -> ProbeStep {
    step_from(protocols, results, 0)
}

/// The order in which the prober tries protocols.
#[derive(Clone, Debug)]
pub struct ProbePlan {
    protocols: Vec<Protocol>,
}

impl View for ProbePlan {
    type V = Seq<Protocol>;

    closed spec fn view(&self) -> Seq<Protocol> {
        self.protocols@
    }
}

/// The default order: HTTPS on 443 first, then HTTP on 80.
pub open spec fn default_protocols() -> Seq<Protocol> {
    seq![Protocol::Https, Protocol::Http]
}

impl ProbePlan {
    /// HTTPS first, then HTTP.
    pub fn https_first() -> (r: ProbePlan)
        ensures
            r@ == default_protocols(),
    {
        let r = ProbePlan { protocols: vec![Protocol::Https, Protocol::Http] };
        assert(r@ =~= default_protocols());
        r
    }

    /// A plan that tries the given protocols in the given order.
    pub fn new(protocols: Vec<Protocol>) -> (r: ProbePlan)
        ensures
            r@ == protocols@,
    {
        ProbePlan { protocols }
    }

    pub fn len(&self) -> (r: usize)
        ensures
            r == self@.len(),
    {
        self.protocols.len()
    }

    /// Decides what the prober does after the attempts `results`: the next
    /// protocol to try, or the verdict once an attempt is decisive or every
    /// protocol has failed (`SubdomainIssue`).
    pub fn next_step(&self, results: &Vec<AttemptResult>) -> (r: ProbeStep)
        requires
            results@.len() <= self@.len(),
        ensures
            r == probe_step(self@, results@),
    {
        let mut k: usize = 0;
        let mut https_seen = false;
        while k < results.len()
            invariant
                k <= results@.len(),
                results@.len() <= self@.len(),
                https_seen == https_within(self@, k as int),
                step_from(self@, results@, 0) == step_from(self@, results@, k as int),
            decreases results@.len() - k,
        {
            let p = self.protocols[k];
            let seen_now = https_seen || p.uses_tls();
            proof {
                if p == Protocol::Https {
                    assert(self@[k as int] == Protocol::Https);
                }
                if !seen_now {
                    assert forall|j: int| 0 <= j < k + 1 implies #[trigger] self@[j]
                        != Protocol::Https by {
                        if j == k {
                        } else {
                            assert(!https_within(self@, k as int));
                        }
                    }
                }
            }
            match &results[k] {
                AttemptResult::Response { status, marker, asks_for_https } => {
                    let continues = *status == 400 && *asks_for_https && !seen_now && k + 1
                        < self.protocols.len();
                    if !continues {
                        let kind = classify_response(*status, marker.is_some());
                        return ProbeStep::Finish { kind, decided_by: Some(k) };
                    }
                },
                _ => {},
            }
            https_seen = seen_now;
            k = k + 1;
        }
        if k < self.protocols.len() {
            ProbeStep::Attempt(self.protocols[k])
        } else {
            ProbeStep::Finish { kind: OutcomeKind::SubdomainIssue, decided_by: None }
        }
    }
}

proof fn lemma_step_from_signature(
    protocols: Seq<Protocol>,
    r1: Seq<AttemptResult>,
    r2: Seq<AttemptResult>,
    k: int,
)
    requires
        0 <= k,
        r1.len() == r2.len(),
        forall|i: int| 0 <= i < r1.len() ==> signature(#[trigger] r1[i]) == signature(r2[i]),
    ensures
        step_from(protocols, r1, k) == step_from(protocols, r2, k),
    decreases r1.len() - k,
{
    if k < r1.len() {
        assert(signature(r1[k]) == signature(r2[k]));
        lemma_step_from_signature(protocols, r1, r2, k + 1);
    }
}

/// The prober keeps no hidden state: two runs whose attempts agree, one by
/// one, on status code, presence of a marker header and success or failure
/// of the connection (and on the HTTPS hint of a 400) reach the same step.
pub proof fn lemma_verdict_is_pure(
    protocols: Seq<Protocol>,
    r1: Seq<AttemptResult>,
    r2: Seq<AttemptResult>,
)
    requires
        r1.len() == r2.len(),
        forall|i: int| 0 <= i < r1.len() ==> signature(#[trigger] r1[i]) == signature(r2[i]),
    ensures
        probe_step(protocols, r1) == probe_step(protocols, r2),
{
    lemma_step_from_signature(protocols, r1, r2, 0);
}

} // verus!
