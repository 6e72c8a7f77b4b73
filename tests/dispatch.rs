use markwrite::dispatch::{CheckError, Dispatcher, SegmentFailure};
use markwrite::grammar::CheckResult;

fn finding(message: &str) -> CheckResult {
    CheckResult {
        context_length: 0,
        context_offset: 0,
        message: message.to_string(),
        sentence: String::new(),
        short_message: String::new(),
        text: String::new(),
        replacements: vec![],
        rule_description: String::new(),
    }
}

fn outcome(segment: usize) -> Result<Vec<CheckResult>, CheckError> {
    Ok(vec![finding(&format!("s{segment}a")), finding(&format!("s{segment}b"))])
}

fn messages(results: &[CheckResult]) -> Vec<String> {
    results.iter().map(|r| r.message().to_string()).collect()
}

/// Runs a dispatcher, completing the checks under way in the order `pick`
/// chooses among them.
fn run(count: usize, limit: usize, mut pick: impl FnMut(&[usize]) -> usize) -> Vec<String> {
    let mut d = Dispatcher::new(count, limit);
    let mut running: Vec<usize> = Vec::new();
    loop {
        while let Some(i) = d.next_segment() {
            running.push(i);
        }
        assert!(d.in_flight() <= limit);
        if running.is_empty() {
            break;
        }
        let k = pick(&running);
        let i = running.remove(k);
        assert!(d.complete(i, outcome(i)));
    }
    assert!(d.is_finished());
    messages(&d.into_result().matches)
}

#[test]
fn findings_are_in_segment_order_whatever_the_completion_order() {
    let expected: Vec<String> = (0..6).flat_map(|i| [format!("s{i}a"), format!("s{i}b")]).collect();
    assert_eq!(run(6, 3, |_| 0), expected);
    assert_eq!(run(6, 3, |r| r.len() - 1), expected);
    let mut seed: usize = 7;
    for limit in 1..5 {
        let got = run(6, limit, |r| {
            seed = (seed * 31 + 11) % 1009;
            seed % r.len()
        });
        assert_eq!(got, expected);
    }
}

#[test]
fn failed_segment_is_skipped_and_recorded() {
    let mut d = Dispatcher::new(5, 5);
    let mut started = vec![];
    while let Some(i) = d.next_segment() {
        started.push(i);
    }
    assert_eq!(started, vec![0, 1, 2, 3, 4]);
    for i in [4, 2, 0, 1, 3] {
        let o = if i == 2 { Err(CheckError::Transport) } else { outcome(i) };
        assert!(d.complete(i, o));
    }
    let result = d.into_result();
    assert_eq!(
        messages(&result.matches),
        vec!["s0a", "s0b", "s1a", "s1b", "s3a", "s3b", "s4a", "s4b"]
    );
    assert_eq!(result.failures, vec![SegmentFailure { index: 2, error: CheckError::Transport }]);
    assert!(!result.cancelled);
}

#[test]
fn identical_runs_give_identical_results() {
    let first = run(4, 2, |_| 0);
    let second = run(4, 2, |r| r.len() - 1);
    assert_eq!(first, second);
}

#[test]
fn concurrency_limit_holds_back_segments() {
    let mut d = Dispatcher::new(3, 2);
    assert_eq!(d.next_segment(), Some(0));
    assert_eq!(d.next_segment(), Some(1));
    assert_eq!(d.next_segment(), None);
    assert_eq!(d.in_flight(), 2);
    assert!(d.complete(1, Err(CheckError::ResponseParse)));
    assert_eq!(d.next_segment(), Some(2));
    assert!(!d.is_finished());
}

#[test]
fn completion_of_idle_or_unknown_segment_is_refused() {
    let mut d = Dispatcher::new(2, 1);
    assert!(!d.complete(0, outcome(0)));
    assert!(!d.complete(7, outcome(7)));
    assert_eq!(d.next_segment(), Some(0));
    assert!(d.complete(0, outcome(0)));
    assert!(!d.complete(0, outcome(0)));
}

#[test]
fn cancelled_run_keeps_partial_results() {
    let mut d = Dispatcher::new(4, 2);
    assert_eq!(d.next_segment(), Some(0));
    assert_eq!(d.next_segment(), Some(1));
    assert!(d.complete(0, outcome(0)));
    d.cancel();
    assert_eq!(d.next_segment(), None);
    assert!(!d.is_finished());
    assert!(d.complete(1, Err(CheckError::ResponseParse)));
    assert!(d.is_finished());
    let result = d.into_result();
    assert_eq!(messages(&result.matches), vec!["s0a", "s0b"]);
    assert_eq!(result.failures, vec![SegmentFailure { index: 1, error: CheckError::ResponseParse }]);
    assert!(result.cancelled);
}

#[test]
fn empty_document_is_finished_at_once() {
    let mut d = Dispatcher::new(0, 1);
    assert_eq!(d.next_segment(), None);
    assert!(d.is_finished());
    let result = d.into_result();
    assert!(result.matches.is_empty() && result.failures.is_empty());
}
