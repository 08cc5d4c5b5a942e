use round_robin_dispatcher::parse::ParseError;
use round_robin_dispatcher::process::{Process, ProcessState};

#[test]
fn parses_three_fields() {
    let p = Process::from_str("0 0 10").unwrap();
    assert_eq!(p.pid, 0);
    assert_eq!(p.arrival_time, 0);
    assert_eq!(p.burst_time, 10);
    assert_eq!(p.priority, 0);
    assert_eq!(p.exit_time, None);
    assert!(matches!(p.state, ProcessState::NotInSystem));
    assert_eq!(p.progress, 0);
}

#[test]
fn parses_priority_field() {
    let p = Process::from_str("2 3 4 9").unwrap();
    assert_eq!(p.pid, 2);
    assert_eq!(p.arrival_time, 3);
    assert_eq!(p.burst_time, 4);
    assert_eq!(p.priority, 9);
}

#[test]
fn priority_is_lenient() {
    // An absent or unparsable priority defaults to 0 without an error.
    assert_eq!(Process::from_str("1 2 3").unwrap().priority, 0);
    assert_eq!(Process::from_str("1 2 3 high").unwrap().priority, 0);
}

#[test]
fn tolerates_extra_whitespace() {
    let p = Process::from_str("  7\t 8 \n 9  ").unwrap();
    assert_eq!(p.pid, 7);
    assert_eq!(p.arrival_time, 8);
    assert_eq!(p.burst_time, 9);
}

#[test]
fn accepts_leading_plus_like_integer_parsing() {
    let p = Process::from_str("+1 +2 +3").unwrap();
    assert_eq!(p.pid, 1);
    assert_eq!(p.arrival_time, 2);
    assert_eq!(p.burst_time, 3);
}

#[test]
fn rejects_too_few_fields() {
    assert_eq!(Process::from_str(""), Err(ParseError::TooFewFields));
    assert_eq!(Process::from_str("1"), Err(ParseError::TooFewFields));
    assert_eq!(Process::from_str("1 2"), Err(ParseError::TooFewFields));
    assert_eq!(Process::from_str("   "), Err(ParseError::TooFewFields));
}

#[test]
fn rejects_invalid_pid() {
    assert_eq!(Process::from_str("a 0 5"), Err(ParseError::InvalidPid));
    assert_eq!(Process::from_str("-1 0 5"), Err(ParseError::InvalidPid));
    assert_eq!(Process::from_str("+ 0 5"), Err(ParseError::InvalidPid));
}

#[test]
fn rejects_invalid_arrival_time() {
    assert_eq!(Process::from_str("0 x 5"), Err(ParseError::InvalidArrivalTime));
    assert_eq!(Process::from_str("0 1.5 5"), Err(ParseError::InvalidArrivalTime));
}

#[test]
fn rejects_invalid_burst_time() {
    assert_eq!(Process::from_str("0 0 5s"), Err(ParseError::InvalidBurstTime));
}

#[test]
fn rejects_values_too_large_for_the_machine_word() {
    let line = format!("{}0 0 5", usize::MAX);
    assert_eq!(Process::from_str(&line), Err(ParseError::InvalidPid));
    let exact = format!("{} 0 5", usize::MAX);
    assert_eq!(Process::from_str(&exact).unwrap().pid, usize::MAX);
}
