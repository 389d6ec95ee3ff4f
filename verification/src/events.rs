//! What happens, as it is logged and sent to the user interface.
use crate::json::{
    number_json, option_json, option_number, option_text, text, text_json, Json, JsonModel,
    Members,
};
use crate::model::{
    PendingReason, ProbeRef, ProbeState, RedReason, RefModel, ServiceState, StateModel,
};
use crate::runtime::{TargetState, TargetStateModel};
use crate::text::{
    cat, cat3, cat5, copy_list, decimal, decimal_text, join, joined, text_eq, Str,
};
use vstd::prelude::*;
use vstd::string::StringExecFns;

verus! {

/// Something that happened.
#[derive(Debug)]
#[allow(inconsistent_fields)]
pub enum Event {
    ServiceState {
        service: String,
        state: ServiceState,
        display_state: String,
        reason: Option<String>,
        /// Which probe or dependency made the service red.
        svc_detail: Option<String>,
        ts: i64,
    },
    ProbeStateChange {
        probe: String,
        state: ProbeState,
        prev: ProbeState,
        display_state: String,
        ts: i64,
    },
    ProbeResult {
        probe: String,
        result: String,
        duration_ms: Option<u64>,
        attempt: u32,
        error: Option<String>,
        matched_lines: Vec<String>,
        /// The kind of check, with the port or the pattern.
        probe_detail: Option<String>,
        ts: i64,
    },
    TargetState {
        target: String,
        state: TargetState,
        duration_ms: Option<u64>,
        /// The reason that is shown first.
        reason_override: Option<String>,
        /// The other reasons.
        extra_reasons: Vec<String>,
        ts: i64,
    },
    OpStart { op: String, target_or_service: String, ts: i64 },
    OpComplete {
        op: String,
        target_or_service: String,
        result: String,
        duration_ms: u64,
        ts: i64,
    },
    Message { text: String, ts: i64 },
}

/// The model of an [`Event`]. The time at which it happened is left out, except for the
/// result of a probe, where it is given.
#[verifier::ext_equal]
#[allow(inconsistent_fields)]
pub enum EventModel {
    ServiceState {
        service: Str,
        state: ServiceState,
        display_state: Str,
        reason: Option<Str>,
        svc_detail: Option<Str>,
    },
    ProbeStateChange { probe: Str, state: StateModel, prev: StateModel, display_state: Str },
    ProbeResult {
        probe: Str,
        result: Str,
        duration_ms: Option<u64>,
        attempt: u32,
        error: Option<Str>,
        matched_lines: Seq<Str>,
        probe_detail: Option<Str>,
        ts: i64,
    },
    TargetState {
        target: Str,
        state: TargetStateModel,
        duration_ms: Option<u64>,
        reason_override: Option<Str>,
        extra_reasons: Seq<Str>,
    },
    OpStart { op: Str, target_or_service: Str },
    OpComplete { op: Str, target_or_service: Str, result: Str, duration_ms: u64 },
    Message { text: Str },
}

impl DeepView for Event {
    type V = EventModel;

    open spec fn deep_view(&self) -> EventModel {
        match *self {
            Event::ServiceState { service, state, display_state, reason, svc_detail, .. } =>
                EventModel::ServiceState {
                service: service@,
                state,
                display_state: display_state@,
                reason: reason.deep_view(),
                svc_detail: svc_detail.deep_view(),
            },
            Event::ProbeStateChange { probe, state, prev, display_state, .. } =>
                EventModel::ProbeStateChange {
                probe: probe@,
                state: state.deep_view(),
                prev: prev.deep_view(),
                display_state: display_state@,
            },
            Event::ProbeResult {
                probe,
                result,
                duration_ms,
                attempt,
                error,
                matched_lines,
                probe_detail,
                ts,
            } => EventModel::ProbeResult {
                probe: probe@,
                result: result@,
                duration_ms,
                attempt,
                error: error.deep_view(),
                matched_lines: matched_lines.deep_view(),
                probe_detail: probe_detail.deep_view(),
                ts,
            },
            Event::TargetState {
                target,
                state,
                duration_ms,
                reason_override,
                extra_reasons,
                ..
            } => EventModel::TargetState {
                target: target@,
                state: state.deep_view(),
                duration_ms,
                reason_override: reason_override.deep_view(),
                extra_reasons: extra_reasons.deep_view(),
            },
            Event::OpStart { op, target_or_service, .. } => EventModel::OpStart {
                op: op@,
                target_or_service: target_or_service@,
            },
            Event::OpComplete { op, target_or_service, result, duration_ms, .. } =>
                EventModel::OpComplete {
                op: op@,
                target_or_service: target_or_service@,
                result: result@,
                duration_ms,
            },
            Event::Message { text, .. } => EventModel::Message { text: text@ },
        }
    }
}

/// `chrono::Utc::now` gives the current time, here in milliseconds since the unix epoch.
/// Nothing is claimed of it.
#[verifier::external_body]
pub(crate) fn now_ts() -> i64 {
    chrono::Utc::now().timestamp_millis()
}

/// The name of a probe's result.
pub open spec fn result_text(ok: bool) -> Str {
    if ok {
        "ok"@
    } else {
        "fail"@
    }
}

fn result_name(ok: bool) -> (r: &'static str)
    ensures
        r@ == result_text(ok),
{
    if ok {
        "ok"
    } else {
        "fail"
    }
}

impl Event {
    /// A service is shown in another state.
    pub fn service_state(
        service: &str,
        state: ServiceState,
        display_state: &str,
        reason: Option<String>,
        svc_detail: Option<String>,
    ) -> (e: Self)
        ensures
            e.deep_view() == (EventModel::ServiceState {
                service: service@,
                state,
                display_state: display_state@,
                reason: reason.deep_view(),
                svc_detail: svc_detail.deep_view(),
            }),
    {
        Event::ServiceState {
            service: service.to_owned(),
            state,
            display_state: display_state.to_owned(),
            reason,
            svc_detail,
            ts: now_ts(),
        }
    }

    /// A probe has changed.
    pub fn probe_state_change(
        probe: &ProbeRef,
        state: ProbeState,
        prev: ProbeState,
        display_state: &str,
    ) -> (e: Self)
        ensures
            e.deep_view() == probe_changed(
                probe.deep_view(),
                state.deep_view(),
                prev.deep_view(),
                display_state@,
            ),
    {
        Event::ProbeStateChange {
            probe: probe.to_string(),
            state,
            prev,
            display_state: display_state.to_owned(),
            ts: now_ts(),
        }
    }

    /// An attempt of a probe has ended.
    pub fn probe_result(
        probe: &ProbeRef,
        ok: bool,
        duration_ms: Option<u64>,
        attempt: u32,
        error: Option<String>,
        ts: i64,
    ) -> (e: Self)
        ensures
            e.deep_view() == (EventModel::ProbeResult {
                probe: probe.deep_view().text(),
                result: result_text(ok),
                duration_ms,
                attempt,
                error: error.deep_view(),
                matched_lines: Seq::empty(),
                probe_detail: None,
                ts,
            }),
    {
        Event::probe_result_with_lines(probe, ok, duration_ms, attempt, error, Vec::new(), ts)
    }

    /// An attempt of a probe has ended, with the log lines that it matched.
    pub fn probe_result_with_lines(
        probe: &ProbeRef,
        ok: bool,
        duration_ms: Option<u64>,
        attempt: u32,
        error: Option<String>,
        matched_lines: Vec<String>,
        ts: i64,
    ) -> (e: Self)
        ensures
            e.deep_view() == (EventModel::ProbeResult {
                probe: probe.deep_view().text(),
                result: result_text(ok),
                duration_ms,
                attempt,
                error: error.deep_view(),
                matched_lines: matched_lines.deep_view(),
                probe_detail: None,
                ts,
            }),
    {
        Event::ProbeResult {
            probe: probe.to_string(),
            result: result_name(ok).to_owned(),
            duration_ms,
            attempt,
            error,
            matched_lines,
            probe_detail: None,
            ts,
        }
    }

    /// A target has changed.
    pub fn target_state(
        target: &str,
        state: TargetState,
        duration_ms: Option<u64>,
        reason_override: Option<String>,
        extra_reasons: Vec<String>,
    ) -> (e: Self)
        ensures
            e.deep_view() == (EventModel::TargetState {
                target: target@,
                state: state.deep_view(),
                duration_ms,
                reason_override: reason_override.deep_view(),
                extra_reasons: extra_reasons.deep_view(),
            }),
    {
        Event::TargetState {
            target: target.to_owned(),
            state,
            duration_ms,
            reason_override,
            extra_reasons,
            ts: now_ts(),
        }
    }

    /// An operation begins.
    pub fn op_start(op: &str, target_or_service: &str) -> (e: Self)
        ensures
            e.deep_view() == (EventModel::OpStart {
                op: op@,
                target_or_service: target_or_service@,
            }),
    {
        Event::OpStart {
            op: op.to_owned(),
            target_or_service: target_or_service.to_owned(),
            ts: now_ts(),
        }
    }

    /// An operation has ended.
    pub fn op_complete(op: &str, target_or_service: &str, result: &str, duration_ms: u64) -> (e:
        Self)
        ensures
            e.deep_view() == (EventModel::OpComplete {
                op: op@,
                target_or_service: target_or_service@,
                result: result@,
                duration_ms,
            }),
    {
        Event::OpComplete {
            op: op.to_owned(),
            target_or_service: target_or_service.to_owned(),
            result: result.to_owned(),
            duration_ms,
            ts: now_ts(),
        }
    }

    /// A message.
    pub fn message(text: &str) -> (e: Self)
        ensures
            e.deep_view() == (EventModel::Message { text: text@ }),
    {
        Event::Message { text: text.to_owned(), ts: now_ts() }
    }
}

/// The event that a probe has changed.
pub open spec fn probe_changed(
    probe: RefModel,
    state: StateModel,
    prev: StateModel,
    display_state: Str,
) -> EventModel {
    EventModel::ProbeStateChange { probe: probe.text(), state, prev, display_state }
}

impl EventModel {
    /// The kind of event.
    pub open spec fn category(self) -> Str {
        match self {
            EventModel::ServiceState { .. } => "service"@,
            EventModel::ProbeStateChange { .. } => "probe_state"@,
            EventModel::ProbeResult { .. } => "probe"@,
            EventModel::TargetState { .. } => "target"@,
            EventModel::OpStart { .. } => "op"@,
            EventModel::OpComplete { .. } => "op"@,
            EventModel::Message { .. } => "message"@,
        }
    }

    /// How much an event matters. The attempts of probes matter less, and so do the states
    /// that a probe has only because of its service or of its dependencies.
    pub open spec fn level(self) -> Str {
        match self {
            EventModel::ProbeResult { .. } => "debug"@,
            EventModel::ProbeStateChange { state: StateModel::Pending(r), .. } => if r is Reprobing {
                "info"@
            } else {
                "debug"@
            },
            EventModel::ProbeStateChange { state: StateModel::Red(r), .. } => if r is ProbeFailed {
                "info"@
            } else {
                "debug"@
            },
            _ => "info"@,
        }
    }

    /// The service, probe or target that an event is about.
    pub open spec fn entity(self) -> Str {
        match self {
            EventModel::ServiceState { service, .. } => service,
            EventModel::ProbeStateChange { probe, .. } => probe,
            EventModel::ProbeResult { probe, .. } => probe,
            EventModel::TargetState { target, .. } => target,
            EventModel::OpStart { target_or_service, .. } => target_or_service,
            EventModel::OpComplete { target_or_service, .. } => target_or_service,
            EventModel::Message { .. } => Seq::empty(),
        }
    }

    /// An event in one line.
    pub open spec fn summary(self) -> Str {
        match self {
            EventModel::ServiceState { service, display_state, reason, .. } => state_line(
                service,
                display_state,
                reason,
            ),
            EventModel::ProbeStateChange { probe, state, display_state, .. } => match state {
                StateModel::Green => state_line(probe, "green"@, None),
                _ => if state.short_reason() == Some(display_state) {
                    state_line(probe, display_state, None)
                } else {
                    state_line(probe, display_state, state.short_reason())
                },
            },
            EventModel::ProbeResult { probe, result, duration_ms, attempt, .. } => "["@ + probe
                + "] "@ + result + ": #"@ + decimal(attempt as nat) + (match duration_ms {
                None => Seq::empty(),
                Some(d) => " "@ + decimal(d as nat) + "ms"@,
            }),
            EventModel::TargetState { target, state, reason_override, .. } => state_line(
                target,
                state.text(),
                reason_override,
            ),
            EventModel::OpStart { op, target_or_service } => op + " ["@ + target_or_service + "]"@,
            EventModel::OpComplete { op, target_or_service, result, duration_ms } => op + " ["@
                + target_or_service + "] "@ + result + " "@ + decimal(duration_ms as nat) + "ms"@,
            EventModel::Message { text } => text,
        }
    }

    /// What more there is to say.
    pub open spec fn detail(self) -> Seq<Str> {
        match self {
            EventModel::ProbeResult { error, matched_lines, probe_detail, .. } => one(probe_detail)
                + one(error) + matched_lines,
            EventModel::ServiceState { svc_detail, .. } => one(svc_detail),
            EventModel::ProbeStateChange { state, .. } => one(state.cause()),
            EventModel::TargetState { extra_reasons, .. } => extra_reasons,
            _ => Seq::empty(),
        }
    }

    /// The event's own data.
    pub open spec fn data(self) -> JsonModel {
        match self {
            EventModel::ServiceState { service, state, display_state, reason, .. } =>
                JsonModel::Object(
                seq![
                    ("service"@, text_json(service)),
                    ("state"@, text_json(state.text())),
                    ("display_state"@, text_json(display_state)),
                    ("reason"@, option_json(reason)),
                ],
            ),
            EventModel::ProbeStateChange { probe, state, prev, display_state } =>
                JsonModel::Object(
                seq![
                    ("probe"@, text_json(probe)),
                    ("state"@, text_json(state.text())),
                    ("prev"@, text_json(prev.text())),
                    ("display_state"@, text_json(display_state)),
                    ("reason"@, option_json(state.reason())),
                ],
            ),
            EventModel::ProbeResult { probe, result, duration_ms, attempt, error, .. } =>
                JsonModel::Object(
                seq![
                    ("probe"@, text_json(probe)),
                    ("result"@, text_json(result)),
                    ("duration_ms"@, number_json(duration_ms)),
                    ("attempt"@, JsonModel::Num(attempt as u64)),
                    ("error"@, option_json(error)),
                ],
            ),
            EventModel::TargetState { target, state, duration_ms, .. } => JsonModel::Object(
                seq![
                    ("target"@, text_json(target)),
                    ("state"@, text_json(state.text())),
                    ("duration_ms"@, number_json(duration_ms)),
                    (
                        "reason"@,
                        option_json(
                            match state.first_red() {
                                Some(p) => Some(p.text()),
                                None => None,
                            },
                        ),
                    ),
                ],
            ),
            EventModel::OpStart { op, target_or_service } => JsonModel::Object(
                seq![("op"@, text_json(op)), ("scope"@, text_json(target_or_service))],
            ),
            EventModel::OpComplete { op, target_or_service, result, duration_ms } =>
                JsonModel::Object(
                seq![
                    ("op"@, text_json(op)),
                    ("scope"@, text_json(target_or_service)),
                    ("result"@, text_json(result)),
                    ("duration_ms"@, JsonModel::Num(duration_ms)),
                ],
            ),
            EventModel::Message { text } => JsonModel::Object(seq![("text"@, text_json(text))]),
        }
    }

    /// The line for the log.
    pub open spec fn log_line(self) -> Str {
        let prefix = match self {
            EventModel::ServiceState { .. } => "svc"@,
            EventModel::ProbeStateChange { .. } => "prb"@,
            EventModel::ProbeResult { .. } => "prb"@,
            EventModel::TargetState { .. } => "tgt"@,
            EventModel::OpStart { .. } => "cmd"@,
            EventModel::OpComplete { .. } => "cmd"@,
            EventModel::Message { .. } => "   "@,
        };
        if self.detail().len() > 0 {
            prefix + " "@ + self.summary() + " — "@ + joined(self.detail(), ", "@)
        } else {
            prefix + " "@ + self.summary()
        }
    }
}

/// A state of something, with its reason.
pub open spec fn state_line(name: Str, state: Str, reason: Option<Str>) -> Str {
    match reason {
        Some(r) => "["@ + name + "] "@ + state + ": "@ + r,
        None => "["@ + name + "] "@ + state,
    }
}

/// The list of what is there.
pub open spec fn one(s: Option<Str>) -> Seq<Str> {
    match s {
        Some(t) => seq![t],
        None => Seq::empty(),
    }
}

fn state_line_text(name: &str, state: &str, reason: Option<&str>) -> (r: String)
    ensures
        r@ == state_line(
            name@,
            state@,
            match reason {
                Some(t) => Some(t@),
                None => None,
            },
        ),
{
    match reason {
        Some(t) => cat(cat5("[", name, "] ", state, ": ").as_str(), t),
        None => cat(cat3("[", name, "] ").as_str(), state),
    }
}

/// An event as it is sent to the user interface.
#[derive(Debug)]
pub struct WsEvent {
    /// The kind of event: "service", "probe_state", "probe", "target", "op" or "message".
    pub category: &'static str,
    /// How much the event matters: "info" or "debug".
    pub level: &'static str,
    /// The service, probe or target that the event is about.
    pub entity: String,
    /// The event in one line.
    pub summary: String,
    /// What more there is to say.
    pub detail: Vec<String>,
    /// When it happened, in milliseconds since the unix epoch.
    pub ts: i64,
    /// The event's own data.
    pub data: Json,
}

/// When an event happened.
pub open spec fn event_ts(e: Event) -> i64 {
    match e {
        Event::ServiceState { ts, .. } => ts,
        Event::ProbeStateChange { ts, .. } => ts,
        Event::ProbeResult { ts, .. } => ts,
        Event::TargetState { ts, .. } => ts,
        Event::OpStart { ts, .. } => ts,
        Event::OpComplete { ts, .. } => ts,
        Event::Message { ts, .. } => ts,
    }
}

fn one_or_none(s: &Option<String>) -> (r: Vec<String>)
    ensures
        r.deep_view() == one(s.deep_view()),
{
    let mut out: Vec<String> = Vec::new();
    if let Some(t) = s {
        out.push(t.clone());
    }
    assert(out.deep_view() =~= one(s.deep_view()));
    out
}

fn as_option(s: &Option<String>) -> (r: Option<&str>)
    ensures
        match r {
            Some(t) => s.deep_view() == Some(t@),
            None => s.deep_view() is None,
        },
{
    match s {
        Some(t) => Some(t.as_str()),
        None => None,
    }
}

impl Event {
    fn category(&self) -> (r: &'static str)
        ensures
            r@ == self.deep_view().category(),
    {
        match self {
            Event::ServiceState { .. } => "service",
            Event::ProbeStateChange { .. } => "probe_state",
            Event::ProbeResult { .. } => "probe",
            Event::TargetState { .. } => "target",
            Event::OpStart { .. } => "op",
            Event::OpComplete { .. } => "op",
            Event::Message { .. } => "message",
        }
    }

    fn level(&self) -> (r: &'static str)
        ensures
            r@ == self.deep_view().level(),
    {
        match self {
            Event::ProbeResult { .. } => "debug",
            Event::ProbeStateChange { state, .. } => match state {
                ProbeState::Green => "info",
                ProbeState::Pending(PendingReason::Reprobing) => "info",
                ProbeState::Pending(_) => "debug",
                ProbeState::Red(RedReason::ProbeFailed(_)) => "info",
                ProbeState::Red(_) => "debug",
            },
            _ => "info",
        }
    }

    fn entity(&self) -> (r: String)
        ensures
            r@ == self.deep_view().entity(),
    {
        match self {
            Event::ServiceState { service, .. } => service.clone(),
            Event::ProbeStateChange { probe, .. } => probe.clone(),
            Event::ProbeResult { probe, .. } => probe.clone(),
            Event::TargetState { target, .. } => target.clone(),
            Event::OpStart { target_or_service, .. } => target_or_service.clone(),
            Event::OpComplete { target_or_service, .. } => target_or_service.clone(),
            Event::Message { .. } => String::new(),
        }
    }

    fn ts(&self) -> (r: i64)
        ensures
            r == event_ts(*self),
    {
        match self {
            Event::ServiceState { ts, .. } => *ts,
            Event::ProbeStateChange { ts, .. } => *ts,
            Event::ProbeResult { ts, .. } => *ts,
            Event::TargetState { ts, .. } => *ts,
            Event::OpStart { ts, .. } => *ts,
            Event::OpComplete { ts, .. } => *ts,
            Event::Message { ts, .. } => *ts,
        }
    }

    fn summary(&self) -> (r: String)
        ensures
            r@ == self.deep_view().summary(),
    {
        match self {
            Event::ServiceState { service, display_state, reason, .. } => state_line_text(
                service.as_str(),
                display_state.as_str(),
                as_option(reason),
            ),
            Event::ProbeStateChange { probe, state, display_state, .. } => {
                if state.is_green() {
                    return state_line_text(probe.as_str(), "green", None);
                }
                match state.short_reason() {
                    Some(r) => if text_eq(r, display_state.as_str()) {
                        state_line_text(probe.as_str(), display_state.as_str(), None)
                    } else {
                        state_line_text(probe.as_str(), display_state.as_str(), Some(r))
                    },
                    None => state_line_text(probe.as_str(), display_state.as_str(), None),
                }
            },
            Event::ProbeResult { probe, result, duration_ms, attempt, .. } => {
                let mut line = cat5("[", probe.as_str(), "] ", result.as_str(), ": #");
                line.append(decimal_text(*attempt as u64).as_str());
                match duration_ms {
                    None => {
                        assert(line@ + Seq::<char>::empty() =~= line@);
                    },
                    Some(d) => {
                        line.append(cat3(" ", decimal_text(*d).as_str(), "ms").as_str());
                    },
                }
                line
            },
            Event::TargetState { target, state, reason_override, .. } => state_line_text(
                target.as_str(),
                state.as_str(),
                as_option(reason_override),
            ),
            Event::OpStart { op, target_or_service, .. } => {
                let mut line = cat3(op.as_str(), " [", target_or_service.as_str());
                line.append("]");
                line
            },
            Event::OpComplete { op, target_or_service, result, duration_ms, .. } => {
                let mut line = cat5(
                    op.as_str(),
                    " [",
                    target_or_service.as_str(),
                    "] ",
                    result.as_str(),
                );
                line.append(" ");
                line.append(decimal_text(*duration_ms).as_str());
                line.append("ms");
                line
            },
            Event::Message { text, .. } => text.clone(),
        }
    }

    fn detail(&self) -> (r: Vec<String>)
        ensures
            r.deep_view() == self.deep_view().detail(),
    {
        match self {
            Event::ProbeResult { error, matched_lines, probe_detail, .. } => {
                let mut lines = one_or_none(probe_detail);
                let mut errors = one_or_none(error);
                let mut matched = copy_list(matched_lines);
                let ghost (a, b, c) = (lines.deep_view(), errors.deep_view(), matched.deep_view());
                assert(c =~= matched_lines.deep_view());
                lines.append(&mut errors);
                lines.append(&mut matched);
                assert(lines.deep_view() =~= a + b + c);
                lines
            },
            Event::ServiceState { svc_detail, .. } => one_or_none(svc_detail),
            Event::ProbeStateChange { state, .. } => one_or_none(&state.state_detail()),
            Event::TargetState { extra_reasons, .. } => {
                let r = copy_list(extra_reasons);
                assert(r.deep_view() =~= extra_reasons.deep_view());
                r
            },
            _ => {
                let r: Vec<String> = Vec::new();
                assert(r.deep_view() =~= Seq::<Str>::empty());
                r
            },
        }
    }

    fn data(&self) -> (r: Json)
        ensures
            r.model() == self.deep_view().data(),
    {
        let mut m = Members::new();
        match self {
            Event::ServiceState { service, state, display_state, reason, .. } => {
                m.put("service", text(service.as_str()));
                m.put("state", text(state.as_str()));
                m.put("display_state", text(display_state.as_str()));
                m.put("reason", option_text(reason));
            },
            Event::ProbeStateChange { probe, state, prev, display_state, .. } => {
                m.put("probe", text(probe.as_str()));
                m.put("state", text(state.as_str()));
                m.put("prev", text(prev.as_str()));
                m.put("display_state", text(display_state.as_str()));
                m.put("reason", option_text(&state.reason()));
            },
            Event::ProbeResult { probe, result, duration_ms, attempt, error, .. } => {
                m.put("probe", text(probe.as_str()));
                m.put("result", text(result.as_str()));
                m.put("duration_ms", option_number(*duration_ms));
                m.put("attempt", Json::Num(*attempt as u64));
                m.put("error", option_text(error));
            },
            Event::TargetState { target, state, duration_ms, .. } => {
                m.put("target", text(target.as_str()));
                m.put("state", text(state.as_str()));
                m.put("duration_ms", option_number(*duration_ms));
                let reason = match state.first_red_probe() {
                    Some(p) => Some(p.to_string()),
                    None => None,
                };
                m.put("reason", option_text(&reason));
            },
            Event::OpStart { op, target_or_service, .. } => {
                m.put("op", text(op.as_str()));
                m.put("scope", text(target_or_service.as_str()));
            },
            Event::OpComplete { op, target_or_service, result, duration_ms, .. } => {
                m.put("op", text(op.as_str()));
                m.put("scope", text(target_or_service.as_str()));
                m.put("result", text(result.as_str()));
                m.put("duration_ms", Json::Num(*duration_ms));
            },
            Event::Message { text: t, .. } => {
                m.put("text", text(t.as_str()));
            },
        }
        assert(m.all() =~= self.deep_view().data()->Object_0);
        m.object()
    }

    /// The event as it is sent to the user interface.
    pub fn to_ws_event(&self) -> (r: WsEvent)
        ensures
            r.category@ == self.deep_view().category(),
            r.level@ == self.deep_view().level(),
            r.entity@ == self.deep_view().entity(),
            r.summary@ == self.deep_view().summary(),
            r.detail.deep_view() == self.deep_view().detail(),
            r.ts == event_ts(*self),
            r.data.model() == self.deep_view().data(),
    {
        WsEvent {
            category: self.category(),
            level: self.level(),
            entity: self.entity(),
            summary: self.summary(),
            detail: self.detail(),
            ts: self.ts(),
            data: self.data(),
        }
    }

    /// The line for the log.
    pub fn log_line(&self) -> (r: String)
        ensures
            r@ == self.deep_view().log_line(),
    {
        let prefix = match self {
            Event::ServiceState { .. } => "svc",
            Event::ProbeStateChange { .. } => "prb",
            Event::ProbeResult { .. } => "prb",
            Event::TargetState { .. } => "tgt",
            Event::OpStart { .. } => "cmd",
            Event::OpComplete { .. } => "cmd",
            Event::Message { .. } => "   ",
        };
        let detail = self.detail();
        let summary = self.summary();
        assert(detail.deep_view().len() == detail.len());
        if detail.len() > 0 {
            cat5(prefix, " ", summary.as_str(), " — ", join(&detail, ", ").as_str())
        } else {
            cat3(prefix, " ", summary.as_str())
        }
    }

    /// Whether the event belongs to the log's debug level.
    pub fn is_debug(&self) -> (r: bool)
        ensures
            r == (self.deep_view().level() == "debug"@),
    {
        text_eq(self.level(), "debug")
    }
}

} // verus!
