use injecttools::markers::body_asks_for_https;
use injecttools::report::{center_padding, progress_percent};
use injecttools::retry::{RetryDecision, RetryPolicy};
use injecttools::probe::{classify_response, AttemptResult, OutcomeKind, ProbePlan, ProbeStep, Protocol};

fn resp(status: u16, marker: Option<&str>, asks: bool) -> AttemptResult {
    AttemptResult::Response {
        status,
        marker: marker.map(|m| m.to_string()),
        asks_for_https: asks,
    }
}

#[test]
fn policy_table() {
    assert_eq!(classify_response(200, true), OutcomeKind::Working);
    assert_eq!(classify_response(101, true), OutcomeKind::Working);
    assert_eq!(classify_response(302, true), OutcomeKind::Working);
    assert_eq!(classify_response(399, true), OutcomeKind::Working);
    assert_eq!(classify_response(200, false), OutcomeKind::TargetIssue);
    assert_eq!(classify_response(403, false), OutcomeKind::Restricted);
    assert_eq!(classify_response(404, true), OutcomeKind::Restricted);
    assert_eq!(classify_response(400, true), OutcomeKind::TargetIssue);
    assert_eq!(classify_response(530, true), OutcomeKind::TargetIssue);
    assert_eq!(classify_response(99, true), OutcomeKind::TargetIssue);
}

#[test]
fn same_tuple_same_verdict() {
    let plan = ProbePlan::https_first();
    let a = vec![AttemptResult::TimedOut, resp(200, Some("ray-one"), false)];
    let b = vec![AttemptResult::TlsFailure, resp(200, Some("another-ray"), false)];
    assert_eq!(plan.next_step(&a), plan.next_step(&b));
    assert_eq!(
        plan.next_step(&a),
        ProbeStep::Finish { kind: OutcomeKind::Working, decided_by: Some(1) }
    );
    for _ in 0..3 {
        assert_eq!(classify_response(204, true), OutcomeKind::Working);
    }
}

#[test]
fn https_then_http_fallback() {
    let plan = ProbePlan::https_first();
    assert_eq!(plan.len(), 2);
    assert_eq!(plan.next_step(&vec![]), ProbeStep::Attempt(Protocol::Https));
    assert_eq!(
        plan.next_step(&vec![AttemptResult::ConnectionRefused]),
        ProbeStep::Attempt(Protocol::Http)
    );
    assert_eq!(
        plan.next_step(&vec![AttemptResult::TimedOut, AttemptResult::TimedOut]),
        ProbeStep::Finish { kind: OutcomeKind::SubdomainIssue, decided_by: None }
    );
    assert_eq!(Protocol::Https.port(), 443);
    assert_eq!(Protocol::Http.port(), 80);
    assert!(Protocol::Https.uses_tls());
    assert!(!Protocol::Http.uses_tls());
}

#[test]
fn https_hint_after_https_is_classified() {
    let plan = ProbePlan::https_first();
    assert_eq!(
        plan.next_step(&vec![resp(400, None, true)]),
        ProbeStep::Finish { kind: OutcomeKind::TargetIssue, decided_by: Some(0) }
    );
}

#[test]
fn https_hint_before_https_moves_on() {
    let plan = ProbePlan::new(vec![Protocol::Http, Protocol::Https]);
    assert_eq!(
        plan.next_step(&vec![resp(400, None, true)]),
        ProbeStep::Attempt(Protocol::Https)
    );
    assert_eq!(
        plan.next_step(&vec![resp(400, None, true), resp(301, Some("r"), false)]),
        ProbeStep::Finish { kind: OutcomeKind::Working, decided_by: Some(1) }
    );
    // a plain 400 is decisive
    assert_eq!(
        plan.next_step(&vec![resp(400, None, false)]),
        ProbeStep::Finish { kind: OutcomeKind::TargetIssue, decided_by: Some(0) }
    );
}

#[test]
fn https_hint_in_body() {
    assert!(body_asks_for_https(&b"The plain HTTP request was sent to HTTPS port".to_vec()));
    assert!(body_asks_for_https(&b"please use https".to_vec()));
    assert!(!body_asks_for_https(&b"Bad Request".to_vec()));
    assert!(!body_asks_for_https(&b"http".to_vec()));
    assert!(!body_asks_for_https(&Vec::new()));
}

#[test]
fn retry_policy_of_the_certificate_log() {
    let p = RetryPolicy::certificate_log();
    assert_eq!(p.timeout_secs(1), Some(30));
    assert_eq!(p.timeout_secs(2), Some(45));
    assert_eq!(p.timeout_secs(3), Some(60));
    assert_eq!(
        p.after_failure(1),
        RetryDecision::RetryAfter { delay_secs: 1, next_attempt: 2 }
    );
    assert_eq!(
        p.after_failure(2),
        RetryDecision::RetryAfter { delay_secs: 2, next_attempt: 3 }
    );
    assert_eq!(p.after_failure(3), RetryDecision::GiveUp);
    let huge = RetryPolicy { attempts: 5, base_timeout_secs: u64::MAX, timeout_step_secs: 1 };
    assert_eq!(huge.timeout_secs(1), Some(u64::MAX));
    assert_eq!(huge.timeout_secs(2), None);
}

#[test]
fn progress_arithmetic() {
    assert_eq!(progress_percent(0, 0), 0);
    assert_eq!(progress_percent(1, 3), 33);
    assert_eq!(progress_percent(3, 3), 100);
    assert_eq!(center_padding(4, 10), 3);
    assert_eq!(center_padding(5, 10), 2);
    assert_eq!(center_padding(12, 10), 0);
}
