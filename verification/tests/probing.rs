use gantry::config::ProbeConfig;
use gantry::duration::{duration_in_range, parse_duration, Duration};
use gantry::probe::{
    log_outcome, meta_outcome, run_single_attempt, run_with_retry, tcp_outcome, truncate,
    Connection, ProbeOutcome, ProbePlan, ProbeResult,
};
use gantry::probe_log::{after_scan, follow_logs, scan_hits, scan_logs, LogEvent};
use gantry::probe_tcp::{pause, TcpNext, TcpProbe, TcpStep};

fn lines(list: &[&str]) -> Vec<String> {
    list.iter().map(|s| s.to_string()).collect()
}

fn error(r: &ProbeResult) -> (String, u64) {
    match r {
        ProbeResult::Failed { error, duration_ms } => (error.clone(), *duration_ms),
        ProbeResult::Passed { .. } => panic!("it must fail"),
    }
}

fn took(r: &ProbeResult) -> u64 {
    match r {
        ProbeResult::Passed { duration_ms } => *duration_ms,
        ProbeResult::Failed { error, .. } => panic!("{error}"),
    }
}

#[test]
fn durations_that_cannot_be_read() {
    let format = " (expected e.g. 100ms, 10s, 2m)";
    assert_eq!(
        parse_duration(" 10 h "),
        Err(format!("invalid duration format: 10 h{format}"))
    );
    assert_eq!(parse_duration(""), Err(format!("invalid duration format: {format}")));
    assert_eq!(
        parse_duration("xs"),
        Err("invalid duration: invalid digit found in string".to_string())
    );
    assert_eq!(
        parse_duration("ms"),
        Err("invalid duration: cannot parse integer from empty string".to_string())
    );
    assert_eq!(
        parse_duration("-1m"),
        Err("invalid duration: invalid digit found in string".to_string())
    );
    assert_eq!(
        parse_duration("18446744073709551616s"),
        Err("invalid duration: number too large to fit in target type".to_string())
    );
}

#[test]
fn durations_at_the_limits() {
    assert_eq!(parse_duration("+7 ms"), Ok(Duration::from_millis(7)));
    assert_eq!(
        parse_duration("18446744073709551615s"),
        Ok(Duration { millis: 18446744073709551615000 })
    );
    assert!(duration_in_range("307445734561825860m"));
    assert_eq!(
        parse_duration("307445734561825860m"),
        Ok(Duration::from_secs(307445734561825860 * 60))
    );
    assert!(!duration_in_range("307445734561825861m"));
    assert!(duration_in_range("18446744073709551616m"));
    assert!(duration_in_range("no duration"));
}

#[test]
fn plans_of_checks() {
    let tcp = ProbeConfig::Tcp { host: None, port: 80, timeout: Duration::from_secs(7) };
    match run_with_retry("web", &tcp, Duration::from_secs(60)) {
        ProbePlan::Tcp { host, port, timeout } => {
            assert_eq!((host.as_str(), port, timeout), ("web", 80, Duration::from_secs(7)));
        }
        p => panic!("{p:?}"),
    }
    match run_with_retry("web", &tcp, Duration::from_secs(2)) {
        ProbePlan::Tcp { timeout, .. } => assert_eq!(timeout, Duration::from_secs(2)),
        p => panic!("{p:?}"),
    }
    match run_single_attempt("web", &tcp, Duration::from_secs(60)) {
        ProbePlan::Tcp { timeout, .. } => assert_eq!(timeout, Duration::from_secs(5)),
        p => panic!("{p:?}"),
    }
    let tcp =
        ProbeConfig::Tcp { host: Some("h".into()), port: 80, timeout: Duration::from_secs(7) };
    match run_single_attempt("web", &tcp, Duration::from_secs(1)) {
        ProbePlan::Tcp { host, timeout, .. } => {
            assert_eq!((host.as_str(), timeout), ("h", Duration::from_secs(1)));
        }
        p => panic!("{p:?}"),
    }
    let log = ProbeConfig::Log {
        success: "up".into(),
        failure: Some("down".into()),
        timeout: Duration::from_secs(30),
    };
    match run_with_retry("web", &log, Duration::from_secs(60)) {
        ProbePlan::Log { success, failure, timeout, follow } => {
            assert_eq!(success, "up");
            assert_eq!(failure, Some("down".to_string()));
            assert_eq!((timeout, follow), (Duration::from_secs(30), true));
        }
        p => panic!("{p:?}"),
    }
    match run_single_attempt("web", &log, Duration::from_secs(60)) {
        ProbePlan::Log { timeout, follow, .. } => {
            assert_eq!((timeout, follow), (Duration::zero(), false));
        }
        p => panic!("{p:?}"),
    }
    let meta = ProbeConfig::Meta;
    assert!(matches!(
        run_with_retry("web", &meta, Duration::zero()),
        ProbePlan::Nothing
    ));
    assert_eq!(took(&meta_outcome().result), 0);
}

#[test]
fn outcomes_of_one_connection() {
    let o = tcp_outcome(80, Connection::Open, 3);
    assert_eq!(took(&o.result), 3);
    assert_eq!(o.attempts.len(), 1);
    assert_eq!(o.attempts[0].attempt, 1);
    assert!(o.attempts[0].ok);
    assert_eq!(o.attempts[0].detail, "tcp :80");
    assert!(o.attempts[0].ts > 1_600_000_000_000);
    assert_eq!(o.generation, u64::MAX);
    let o = tcp_outcome(80, Connection::Refused("no".into()), 4);
    assert_eq!(error(&o.result), ("no".to_string(), 4));
    assert_eq!(o.attempts[0].error, Some("no".to_string()));
    let o = tcp_outcome(80, Connection::TimedOut, 5);
    assert_eq!(error(&o.result), ("timeout".to_string(), 5));
}

#[test]
fn a_connection_is_tried_until_it_opens() {
    let p = TcpProbe::new(5432);
    let TcpStep::Connect(p, limit) = p.begin(Duration::from_secs(10), 0) else {
        panic!("there is time left")
    };
    assert_eq!(limit, Duration::from_secs(2));
    let TcpNext::Retry(p) = p.answer(Connection::Refused("no".into()), 1, 2) else {
        panic!("it is closed")
    };
    let TcpStep::Connect(p, limit) = p.begin(Duration::from_millis(700), 100) else {
        panic!("there is time left")
    };
    assert_eq!(limit, Duration::from_millis(700));
    let TcpNext::Done(o) = p.answer(Connection::Open, 101, 140) else { panic!("it is open") };
    assert_eq!(took(&o.result), 140);
    assert_eq!(o.attempts.len(), 2);
    assert_eq!((o.attempts[0].ok, o.attempts[0].elapsed_ms), (false, 1));
    assert_eq!((o.attempts[1].ok, o.attempts[1].elapsed_ms), (true, 140));
    assert_eq!(o.attempts[1].attempt, 2);
}

#[test]
fn a_connection_is_given_up_when_the_time_is_up() {
    let TcpStep::Connect(p, _) = TcpProbe::new(80).begin(Duration::from_millis(1), 0) else {
        panic!("there is time left")
    };
    let TcpNext::Retry(p) = p.answer(Connection::TimedOut, 0, 1) else { panic!("no answer") };
    assert_eq!(p.attempts[0].error, Some("timeout".to_string()));
    assert_eq!(pause(Duration::zero(), Duration::from_millis(100)), None);
    let o = p.give_up(9);
    assert_eq!(error(&o.result), ("tcp :80 timed out after 1 attempts".to_string(), 9));
    let TcpStep::Done(o) = TcpProbe::new(80).begin(Duration::zero(), 3) else {
        panic!("the time is up")
    };
    assert_eq!(error(&o.result), ("tcp :80 timed out after 1 attempts".to_string(), 3));
    assert_eq!(
        pause(Duration::from_millis(50), Duration::from_millis(100)),
        Some(Duration::from_millis(50))
    );
    assert_eq!(
        pause(Duration::from_secs(5), Duration::from_millis(100)),
        Some(Duration::from_millis(100))
    );
}

#[test]
fn the_last_match_in_a_log_wins() {
    let log = lines(&["starting\n", " ready 1 \n", "fatal: x\n", "other\n"]);
    let (last, found) = scan_logs("ready \\d", Some("^fatal"), &log).ok().unwrap();
    assert_eq!(last, Some(false));
    assert_eq!(found, lines(&["ready 1", "fatal: x"]));
    let log = lines(&["fatal: x\n", "ready 1\n"]);
    assert_eq!(scan_logs("ready \\d", Some("^fatal"), &log).ok().unwrap().0, Some(true));
    assert_eq!(scan_logs("ready \\d", None, &lines(&["fatal"])).ok().unwrap(), (None, vec![]));
    // a line that matches both patterns is a success, and listed twice
    let (last, found) = scan_logs("a", Some("b"), &lines(&["ab"])).ok().unwrap();
    assert_eq!(last, Some(true));
    assert_eq!(found, lines(&["ab", "ab"]));
    // a wrong pattern for failure is passed over
    assert_eq!(scan_logs("a", Some("("), &lines(&["a"])).ok().unwrap().0, Some(true));
    let hits = scan_hits(&lines(&["x", "y"]), &vec![true, false], &vec![false, true]);
    assert_eq!(hits, (Some(false), lines(&["x", "y"])));
}

#[test]
fn a_wrong_pattern_fails_at_once() {
    let Err(r) = scan_logs("(", None, &lines(&["a"])) else { panic!("the pattern is wrong") };
    let (text, ms) = error(&r);
    assert!(text.starts_with("invalid success pattern: regex parse error:"), "{text}");
    assert_eq!(ms, 0);
    let mut found = vec![];
    let r = follow_logs("(", None, &LogEvent::End, &mut found, 8).unwrap();
    assert!(error(&r).0.starts_with("invalid success pattern: "));
}

#[test]
fn results_of_a_search() {
    assert_eq!(took(&after_scan(Some(true), true, 4).unwrap()), 4);
    assert_eq!(
        error(&after_scan(Some(false), false, 4).unwrap()),
        ("failure pattern matched".to_string(), 4)
    );
    assert!(after_scan(None, true, 4).is_none());
    assert_eq!(
        error(&after_scan(None, false, 4).unwrap()),
        ("success pattern not found in logs".to_string(), 4)
    );
}

#[test]
fn the_first_match_in_a_followed_log_wins() {
    let mut found = lines(&["old"]);
    let event = LogEvent::Line("nothing\n".to_string());
    assert!(follow_logs("up", Some("down"), &event, &mut found, 1).is_none());
    let event = LogEvent::Line(" it is up and down\n".to_string());
    let r = follow_logs("up", Some("down"), &event, &mut found, 2).unwrap();
    assert_eq!(error(&r), ("failure pattern matched".to_string(), 2));
    assert_eq!(found, lines(&["old", "it is up and down"]));
    let event = LogEvent::Line("up\n".to_string());
    assert_eq!(took(&follow_logs("up", Some("down"), &event, &mut found, 3).unwrap()), 3);
    let event = LogEvent::Error("gone".to_string());
    let r = follow_logs("up", None, &event, &mut found, 4).unwrap();
    assert_eq!(error(&r), ("log stream error: gone".to_string(), 4));
    let r = follow_logs("up", None, &LogEvent::End, &mut found, 5).unwrap();
    assert_eq!(error(&r), ("no pattern matched before timeout".to_string(), 5));
    assert_eq!(found.len(), 3);
}

#[test]
fn what_a_check_of_a_log_is_called() {
    let o = log_outcome("up", ProbeResult::Passed { duration_ms: 1 }, lines(&["a", "b"]));
    assert_eq!(o.attempts[0].detail, "log \"up\"");
    assert_eq!(o.matched_lines, lines(&["a", "b"]));
    assert_eq!(truncate("abcdef", 6), "abcdef");
    assert_eq!(truncate("abcdef", 3), "abc");
    // no character is cut in two
    assert_eq!(truncate("a\u{e9}\u{20ac}", 2), "a");
    assert_eq!(truncate("a\u{e9}\u{20ac}", 5), "a\u{e9}");
    let long = "x".repeat(50);
    let o = log_outcome(&long, ProbeResult::Passed { duration_ms: 1 }, vec![]);
    assert_eq!(o.attempts[0].detail, format!("log \"{}\"", "x".repeat(40)));
}

#[test]
fn an_outcome_is_made_step_by_step() {
    let o = ProbeOutcome::single(
        ProbeResult::Failed { error: "no".into(), duration_ms: 6 },
        "tcp :1",
    )
    .with_matched_lines(lines(&["l"]))
    .with_generation(4);
    assert_eq!(o.generation, 4);
    assert_eq!(o.matched_lines, lines(&["l"]));
    assert_eq!(o.attempts[0].elapsed_ms, 6);
    assert!(!o.result.is_ok());
    let o = ProbeOutcome::immediate(ProbeResult::Passed { duration_ms: 1 });
    assert!(o.attempts.is_empty() && o.result.is_ok());
    assert_eq!(o.generation, u64::MAX);
}
