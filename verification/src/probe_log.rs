//! The check of a log: the last line that matches a pattern decides, and after that the
//! first new one.
use crate::probe::{ProbeResult, ResultModel};
use crate::text::{cat, trim, trimmed, Str};
use regex::Regex;
use vstd::prelude::*;

verus! {

/// What is wrong with a pattern, if anything: what the error of `Regex::new` displays.
pub uninterp spec fn pattern_error(pattern: Str) -> Option<Str>;

/// Whether a pattern that `Regex::new` takes matches somewhere in a line, as
/// `Regex::is_match` says.
pub uninterp spec fn pattern_matches(pattern: Str, line: Str) -> bool;

/// `Regex::new` takes a pattern, or says what is wrong with it. Which it does depends on the
/// pattern alone.
#[verifier::external_body]
fn check_pattern(pattern: &str) -> (r: Option<String>)
    ensures
        r.deep_view() == pattern_error(pattern@),
{
    Regex::new(pattern).err().map(|e| e.to_string())
}

/// `Regex::is_match` says of each line whether the pattern matches somewhere in it. The
/// pattern is compiled once for all lines, and is one that compiles.
#[verifier::external_body]
fn match_lines(pattern: &str, lines: &Vec<String>) -> (r: Vec<bool>)
    requires
        pattern_error(pattern@) is None,
    ensures
        r@ == Seq::new(lines@.len(), |i: int| pattern_matches(pattern@, lines@[i]@)),
{
    let regex = Regex::new(pattern).unwrap();
    lines.iter().map(|line| regex.is_match(line)).collect()
}

/// Which lines a pattern matches.
pub open spec fn hits(pattern: Str, lines: Seq<Str>) -> Seq<bool> {
    Seq::new(lines.len(), |i: int| pattern_matches(pattern, lines[i]))
}

/// Which lines an optional pattern matches. One that is missing or wrong matches none.
pub open spec fn optional_hits(pattern: Option<Str>, lines: Seq<Str>) -> Seq<bool> {
    match pattern {
        Some(p) => if pattern_error(p) is None {
            hits(p, lines)
        } else {
            Seq::new(lines.len(), |i: int| false)
        },
        None => Seq::new(lines.len(), |i: int| false),
    }
}

/// What the lines of a log say: whether the last match was of success or of failure, and
/// the lines that were matched, without the white space around them. On a line that matches
/// both, success is the later.
pub open spec fn scan(
    lines: Seq<Str>,
    success: Seq<bool>,
    failure: Seq<bool>,
) -> (Option<bool>, Seq<Str>)
    decreases lines.len(),
{
    if lines.len() == 0 {
        (None, Seq::empty())
    } else {
        let n = lines.len() - 1;
        let (last, matched) = scan(lines.drop_last(), success, failure);
        let (last, matched) = if failure[n] {
            (Some(false), matched.push(trimmed(lines[n])))
        } else {
            (last, matched)
        };
        if success[n] {
            (Some(true), matched.push(trimmed(lines[n])))
        } else {
            (last, matched)
        }
    }
}

/// The last line that matches decides: a log tells of a success just where the last line that
/// matches a pattern matches the one for success, and of nothing where no line matches.
pub proof fn law_last_match_wins(lines: Seq<Str>, success: Seq<bool>, failure: Seq<bool>, i: int)
    requires
        -1 <= i < lines.len(),
        i >= 0 ==> success[i] || failure[i],
        forall|j: int| i < j < lines.len() ==> !success[j] && !failure[j],
    ensures
        scan(lines, success, failure).0 == (if i >= 0 {
            Some(success[i])
        } else {
            None
        }),
    decreases lines.len(),
{
    if lines.len() > 0 && i < lines.len() - 1 {
        law_last_match_wins(lines.drop_last(), success, failure, i);
    }
}

/// Goes through the lines of a log, of which it is known which ones match.
pub fn scan_hits(lines: &Vec<String>, success: &Vec<bool>, failure: &Vec<bool>) -> (r: (
    Option<bool>,
    Vec<String>,
))
    requires
        success.len() == lines.len(),
        failure.len() == lines.len(),
    ensures
        (r.0, r.1.deep_view()) == scan(lines.deep_view(), success@, failure@),
{
    let mut last: Option<bool> = None;
    let mut matched: Vec<String> = Vec::new();
    let ghost all = lines.deep_view();
    let mut i: usize = 0;
    assert(matched.deep_view() =~= Seq::<Str>::empty());
    while i < lines.len()
        invariant
            success.len() == lines.len(),
            failure.len() == lines.len(),
            all == lines.deep_view(),
            i <= lines.len(),
            (last, matched.deep_view()) == scan(all.take(i as int), success@, failure@),
        decreases lines.len() - i,
    {
        let ghost next = all.take(i + 1);
        assert(next.drop_last() =~= all.take(i as int));
        assert(next[i as int] == lines[i as int]@);
        let line = trim(lines[i].as_str());
        if failure[i] {
            let ghost before = matched.deep_view();
            last = Some(false);
            matched.push(line.to_owned());
            assert(matched.deep_view() =~= before.push(line@));
        }
        if success[i] {
            let ghost before = matched.deep_view();
            last = Some(true);
            matched.push(line.to_owned());
            assert(matched.deep_view() =~= before.push(line@));
        }
        i = i + 1;
    }
    assert(all.take(i as int) =~= all);
    (last, matched)
}

fn optional_match_lines(pattern: Option<&str>, lines: &Vec<String>) -> (r: Vec<bool>)
    ensures
        r@ == optional_hits(
            match pattern {
                Some(p) => Some(p@),
                None => None,
            },
            lines.deep_view(),
        ),
{
    if let Some(p) = pattern {
        if check_pattern(p).is_none() {
            let r = match_lines(p, lines);
            assert(r@ =~= hits(p@, lines.deep_view()));
            return r;
        }
    }
    let mut out: Vec<bool> = Vec::new();
    let mut i: usize = 0;
    while i < lines.len()
        invariant
            i <= lines.len(),
            out.len() == i,
            forall|j: int| 0 <= j < i ==> !out@[j],
        decreases lines.len() - i,
    {
        out.push(false);
        i = i + 1;
    }
    assert(out@ =~= Seq::new(lines.deep_view().len(), |i: int| false));
    out
}

/// The result for a pattern that is wrong.
pub open spec fn bad_pattern(error: Str) -> ResultModel {
    ResultModel::Failed { error: "invalid success pattern: "@ + error, duration_ms: 0 }
}

/// What the lines of a log say, or what is wrong with the pattern for success.
pub open spec fn scanned(
    success: Str,
    failure: Option<Str>,
    lines: Seq<Str>,
) -> Result<(Option<bool>, Seq<Str>), ResultModel> {
    match pattern_error(success) {
        Some(e) => Err(bad_pattern(e)),
        None => Ok(scan(lines, hits(success, lines), optional_hits(failure, lines))),
    }
}

/// Searches the lines of a log for patterns. A pattern for failure that is wrong is passed
/// over.
pub fn scan_logs(success: &str, failure: Option<&str>, lines: &Vec<String>) -> (r: Result<
    (Option<bool>, Vec<String>),
    ProbeResult,
>)
    ensures
        ({
            let f = match failure {
                Some(p) => Some(p@),
                None => None,
            };
            match r {
                Ok(found) => scanned(success@, f, lines.deep_view()) == Ok::<
                    (Option<bool>, Seq<Str>),
                    ResultModel,
                >((found.0, found.1.deep_view())),
                Err(e) => scanned(success@, f, lines.deep_view()) == Err::<
                    (Option<bool>, Seq<Str>),
                    ResultModel,
                >(e.deep_view()),
            }
        }),
{
    if let Some(e) = check_pattern(success) {
        return Err(
            ProbeResult::Failed {
                error: cat("invalid success pattern: ", e.as_str()),
                duration_ms: 0,
            },
        );
    }
    let s = match_lines(success, lines);
    let f = optional_match_lines(failure, lines);
    assert(s@ =~= hits(success@, lines.deep_view()));
    Ok(scan_hits(lines, &s, &f))
}

/// The result once the log was searched, `ms` milliseconds after the check began. Where no
/// line matched and the check follows the log, there is none yet.
pub open spec fn scan_result(last: Option<bool>, follow: bool, ms: u64) -> Option<ResultModel> {
    match last {
        Some(true) => Some(ResultModel::Passed { duration_ms: ms }),
        Some(false) => Some(
            ResultModel::Failed { error: "failure pattern matched"@, duration_ms: ms },
        ),
        None => if follow {
            None
        } else {
            Some(
                ResultModel::Failed {
                    error: "success pattern not found in logs"@,
                    duration_ms: ms,
                },
            )
        },
    }
}

/// Decides on the result once the log was searched.
pub fn after_scan(last: Option<bool>, follow: bool, ms: u64) -> (r: Option<ProbeResult>)
    ensures
        r.deep_view() == scan_result(last, follow, ms),
{
    match last {
        Some(ok) => if ok {
            Some(ProbeResult::Passed { duration_ms: ms })
        } else {
            Some(
                ProbeResult::Failed {
                    error: "failure pattern matched".to_owned(),
                    duration_ms: ms,
                },
            )
        },
        None => if follow {
            None
        } else {
            Some(
                ProbeResult::Failed {
                    error: "success pattern not found in logs".to_owned(),
                    duration_ms: ms,
                },
            )
        },
    }
}

/// What the followed log has to say next.
pub enum LogEvent {
    Line(String),
    Error(String),
    /// The log has ended, or the time is up.
    End,
}

/// The result of a followed log, `ms` milliseconds after the check began, where it is known
/// whether a line matches. A line that matches both patterns is a failure.
pub open spec fn followed(
    event: LogEvent,
    is_success: bool,
    is_failure: bool,
    ms: u64,
) -> Option<ResultModel> {
    match event {
        LogEvent::Line(_) => if is_failure {
            Some(ResultModel::Failed { error: "failure pattern matched"@, duration_ms: ms })
        } else if is_success {
            Some(ResultModel::Passed { duration_ms: ms })
        } else {
            None
        },
        LogEvent::Error(e) => Some(
            ResultModel::Failed { error: "log stream error: "@ + e@, duration_ms: ms },
        ),
        LogEvent::End => Some(
            ResultModel::Failed {
                error: "no pattern matched before timeout"@,
                duration_ms: ms,
            },
        ),
    }
}

/// The lines that were matched, after what a followed log has to say next.
pub open spec fn followed_lines(
    matched: Seq<Str>,
    event: LogEvent,
    is_success: bool,
    is_failure: bool,
) -> Seq<Str> {
    match event {
        LogEvent::Line(line) => if is_failure || is_success {
            matched.push(trimmed(line@))
        } else {
            matched
        },
        _ => matched,
    }
}

/// Takes what a followed log has to say next, where it is known whether a line matches.
pub fn follow_hit(
    event: &LogEvent,
    is_success: bool,
    is_failure: bool,
    matched: &mut Vec<String>,
    ms: u64,
) -> (r: Option<ProbeResult>)
    ensures
        r.deep_view() == followed(*event, is_success, is_failure, ms),
        final(matched).deep_view() == followed_lines(
            old(matched).deep_view(),
            *event,
            is_success,
            is_failure,
        ),
{
    match event {
        LogEvent::Line(line) => {
            if !is_failure && !is_success {
                return None;
            }
            let ghost before = matched.deep_view();
            let text = trim(line.as_str());
            matched.push(text.to_owned());
            assert(matched.deep_view() =~= before.push(text@));
            if is_failure {
                Some(
                    ProbeResult::Failed {
                        error: "failure pattern matched".to_owned(),
                        duration_ms: ms,
                    },
                )
            } else {
                Some(ProbeResult::Passed { duration_ms: ms })
            }
        },
        LogEvent::Error(e) => Some(
            ProbeResult::Failed { error: cat("log stream error: ", e.as_str()), duration_ms: ms },
        ),
        LogEvent::End => Some(
            ProbeResult::Failed {
                error: "no pattern matched before timeout".to_owned(),
                duration_ms: ms,
            },
        ),
    }
}

/// The line of an event, as a list.
pub open spec fn event_lines(event: LogEvent) -> Seq<Str> {
    match event {
        LogEvent::Line(line) => seq![line@],
        _ => Seq::empty(),
    }
}

/// Takes what a followed log has to say next. A pattern for success that is wrong ends the
/// check.
pub fn follow_logs(
    success: &str,
    failure: Option<&str>,
    event: &LogEvent,
    matched: &mut Vec<String>,
    ms: u64,
) -> (r: Option<ProbeResult>)
    ensures
        ({
            let f = match failure {
                Some(p) => Some(p@),
                None => None,
            };
            let lines = event_lines(*event);
            let is_success = lines.len() > 0 && hits(success@, lines)[0];
            let is_failure = lines.len() > 0 && optional_hits(f, lines)[0];
            match pattern_error(success@) {
                Some(e) => r.deep_view() == Some(bad_pattern(e)) && final(matched).deep_view()
                    == old(matched).deep_view(),
                None => r.deep_view() == followed(*event, is_success, is_failure, ms)
                    && final(matched).deep_view() == followed_lines(
                    old(matched).deep_view(),
                    *event,
                    is_success,
                    is_failure,
                ),
            }
        }),
{
    if let Some(e) = check_pattern(success) {
        return Some(
            ProbeResult::Failed {
                error: cat("invalid success pattern: ", e.as_str()),
                duration_ms: 0,
            },
        );
    }
    let mut lines: Vec<String> = Vec::new();
    if let LogEvent::Line(line) = event {
        lines.push(line.clone());
    }
    assert(lines.deep_view() =~= event_lines(*event));
    let s = match_lines(success, &lines);
    let f = optional_match_lines(failure, &lines);
    assert(s@ =~= hits(success@, lines.deep_view()));
    let is_success = s.len() > 0 && s[0];
    let is_failure = f.len() > 0 && f[0];
    follow_hit(event, is_success, is_failure, matched, ms)
}

} // verus!
