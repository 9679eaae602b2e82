use injecttools::cidr::EdgeNetworkTable;
use injecttools::probe::{AttemptResult, OutcomeKind, ProbePlan, ProbeStep, Protocol};
use injecttools::scan::{ScanAction, ScanError, ScanSession};

fn ip(a: u32, b: u32, c: u32, d: u32) -> u32 {
    (a << 24) | (b << 16) | (c << 8) | d
}

fn session(candidates: &[&str], concurrency: usize, confirm: bool) -> ScanSession {
    let names: Vec<String> = candidates.iter().map(|c| c.to_string()).collect();
    ScanSession::new(
        "proxy.test".to_string(),
        names,
        concurrency,
        5000,
        EdgeNetworkTable::cloudflare(),
        ProbePlan::https_first(),
        confirm,
    )
    .unwrap()
}

fn response(status: u16, marker: Option<&str>) -> AttemptResult {
    AttemptResult::Response {
        status,
        marker: marker.map(|m| m.to_string()),
        asks_for_https: false,
    }
}

#[test]
fn edge_candidate_with_marker_is_working() {
    let mut s = session(&["a.example.com"], 50, true);
    assert_eq!(s.dispatch(), Some(0));
    let front = ip(104, 16, 1, 1);
    assert_eq!(s.on_resolved(0, Some(front), 12), ScanAction::Probe { ip: front });
    let mut results = Vec::new();
    assert_eq!(s.next_probe_step(&results), ProbeStep::Attempt(Protocol::Https));
    results.push(response(200, Some("8a1b2c3d4e5f-SIN")));
    assert_eq!(
        s.next_probe_step(&results),
        ProbeStep::Finish { kind: OutcomeKind::Working, decided_by: Some(0) }
    );
    assert_eq!(s.on_probed(0, &results, 80), OutcomeKind::Working);
    assert!(s.is_finished());
    let r = s.finish(100);
    assert!(!r.cancelled);
    assert_eq!(r.outcomes.len(), 1);
    let o = &r.outcomes[0];
    assert_eq!(o.candidate, "a.example.com");
    assert_eq!(o.kind, OutcomeKind::Working);
    assert_eq!(o.ip, Some(front));
    assert_eq!(o.status_code, Some(200));
    assert_eq!(o.marker.as_deref(), Some("8a1b2c3d4e5f-SIN"));
    assert_eq!(o.elapsed_ms, 80);
    assert!(o.is_working());
    assert_eq!(r.counts.working, 1);
    assert_eq!(r.elapsed_ms, 100);
}

#[test]
fn off_table_candidate_unconfirmed_is_not_edge() {
    let mut s = session(&["b.example.com"], 50, true);
    assert_eq!(s.dispatch(), Some(0));
    let addr = ip(8, 8, 8, 8);
    assert_eq!(s.on_resolved(0, Some(addr), 9), ScanAction::Confirm { ip: addr });
    // the header confirmation timed out: not confirmed
    assert_eq!(
        s.on_confirmed(0, false, 5009),
        ScanAction::Finished(OutcomeKind::NotEdgeNetwork)
    );
    let r = s.finish(5010);
    assert_eq!(r.outcomes.len(), 1);
    let o = &r.outcomes[0];
    assert_eq!(o.kind, OutcomeKind::NotEdgeNetwork);
    assert_eq!(o.ip, Some(addr));
    assert_eq!(o.status_code, None);
    assert_eq!(o.marker, None);
    assert!(!o.is_edge_network());
    assert_eq!(r.counts.not_edge_network, 1);
}

#[test]
fn edge_candidate_with_404_is_restricted() {
    let mut s = session(&["c.example.com"], 50, true);
    assert_eq!(s.dispatch(), Some(0));
    let front = ip(172, 64, 3, 9);
    assert_eq!(s.on_resolved(0, Some(front), 7), ScanAction::Probe { ip: front });
    let results = vec![response(404, None)];
    assert_eq!(s.on_probed(0, &results, 40), OutcomeKind::Restricted);
    let r = s.finish(41);
    let o = &r.outcomes[0];
    assert_eq!(o.kind, OutcomeKind::Restricted);
    assert_eq!(o.status_code, Some(404));
    assert!(o.is_restricted());
    assert_eq!(r.counts.restricted, 1);
}

#[test]
fn dns_timeout_is_dns_failure() {
    let mut s = session(&["d.example.com"], 50, true);
    assert_eq!(s.dispatch(), Some(0));
    assert_eq!(
        s.on_resolved(0, None, 5000),
        ScanAction::Finished(OutcomeKind::DnsFailure)
    );
    let r = s.finish(5001);
    let o = &r.outcomes[0];
    assert_eq!(o.kind, OutcomeKind::DnsFailure);
    assert_eq!(o.ip, None);
    assert_eq!(o.status_code, None);
    assert_eq!(r.counts.dns_failures, 1);
    assert_eq!(o.reason(), "name did not resolve");
}

#[test]
fn cancellation_bounds_outcomes_by_dispatched() {
    let mut s = session(&["h1.x", "h2.x", "h3.x", "h4.x", "h5.x"], 10, false);
    assert_eq!(s.dispatch(), Some(0));
    assert_eq!(s.dispatch(), Some(1));
    s.cancel();
    assert!(s.is_cancelled());
    assert_eq!(s.dispatch(), None);
    assert_eq!(s.on_resolved(0, None, 1), ScanAction::Finished(OutcomeKind::DnsFailure));
    assert_eq!(s.dispatch(), None);
    assert!(!s.is_finished());
    assert_eq!(
        s.on_resolved(1, Some(ip(9, 9, 9, 9)), 2),
        ScanAction::Finished(OutcomeKind::NotEdgeNetwork)
    );
    assert!(s.is_finished());
    let r = s.finish(3);
    assert!(r.cancelled);
    assert!(r.outcomes.len() <= 2);
    assert_eq!(r.outcomes.len(), 2);
}

#[test]
fn concurrency_limit_holds_dispatch() {
    let mut s = session(&["h1.x", "h2.x", "h3.x"], 2, false);
    assert_eq!(s.dispatch(), Some(0));
    assert_eq!(s.dispatch(), Some(1));
    assert_eq!(s.in_flight(), 2);
    assert_eq!(s.dispatch(), None);
    s.on_resolved(1, None, 1);
    assert_eq!(s.in_flight(), 1);
    assert_eq!(s.completed(), 1);
    assert_eq!(s.dispatch(), Some(2));
    assert_eq!(s.in_flight(), 2);
    assert_eq!(s.dispatch(), None);
}

#[test]
fn every_candidate_gets_one_outcome() {
    let mut s = session(&["h1.x", "h2.x", "h3.x"], 3, false);
    while let Some(i) = s.dispatch() {
        s.on_resolved(i, None, 1);
    }
    assert!(s.is_finished());
    let totals = s.totals();
    assert_eq!(totals.dns_failures, 3);
    let r = s.finish(4);
    let mut seen: Vec<usize> = r.outcomes.iter().map(|o| o.index).collect();
    seen.sort();
    assert_eq!(seen, vec![0, 1, 2]);
    assert_eq!(r.outcomes[2].candidate, "h3.x");
}

#[test]
fn scan_refuses_to_start() {
    let t = || EdgeNetworkTable::cloudflare();
    let p = || ProbePlan::https_first();
    let none: Vec<String> = Vec::new();
    let one = vec!["a.example.com".to_string()];
    assert!(matches!(
        ScanSession::new("proxy.test".to_string(), none, 5, 10, t(), p(), true),
        Err(ScanError::CandidateSourceUnavailable)
    ));
    assert!(matches!(
        ScanSession::new(String::new(), one.clone(), 5, 10, t(), p(), true),
        Err(ScanError::InvalidTarget)
    ));
    assert!(matches!(
        ScanSession::new("proxy.test".to_string(), one.clone(), 0, 10, t(), p(), true),
        Err(ScanError::InvalidConcurrency)
    ));
    let s = ScanSession::new("proxy.test".to_string(), one, 5, 10, t(), p(), true).unwrap();
    assert_eq!(s.target(), "proxy.test");
    assert_eq!(s.per_candidate_timeout_ms(), 10);
    assert_eq!(s.candidate(0), "a.example.com");
    assert_eq!(s.len(), 1);
}

#[test]
fn confirmed_off_table_candidate_is_probed() {
    let mut s = session(&["e.example.com"], 5, true);
    s.dispatch();
    let addr = ip(45, 60, 1, 2);
    assert_eq!(s.on_resolved(0, Some(addr), 1), ScanAction::Confirm { ip: addr });
    assert_eq!(s.on_confirmed(0, true, 2), ScanAction::Probe { ip: addr });
    let results = vec![AttemptResult::TlsFailure, AttemptResult::ConnectionRefused];
    assert!(matches!(
        s.next_probe_step(&results),
        ProbeStep::Finish { kind: OutcomeKind::SubdomainIssue, decided_by: None }
    ));
    assert_eq!(s.on_probed(0, &results, 3), OutcomeKind::SubdomainIssue);
    let r = s.finish(4);
    assert_eq!(r.outcomes[0].status_code, None);
    assert_eq!(r.counts.subdomain_issues, 1);
}

#[test]
fn off_table_without_confirmation_is_not_edge() {
    let mut s = session(&["f.example.com"], 5, false);
    s.dispatch();
    assert_eq!(
        s.on_resolved(0, Some(ip(1, 1, 1, 1)), 1),
        ScanAction::Finished(OutcomeKind::NotEdgeNetwork)
    );
}

#[test]
fn gateway_error_is_target_issue() {
    let mut s = session(&["g.example.com"], 5, false);
    s.dispatch();
    let front = ip(104, 16, 0, 0);
    s.on_resolved(0, Some(front), 1);
    let results = vec![response(530, Some("ray"))];
    assert_eq!(s.on_probed(0, &results, 2), OutcomeKind::TargetIssue);
    let r = s.finish(3);
    assert_eq!(r.outcomes[0].status_code, Some(530));
    assert_eq!(r.counts.target_issues, 1);
    assert_eq!(
        r.outcomes[0].reason(),
        "edge reachable, target unhealthy or misconfigured"
    );
}
