//! What the operations have in common: the lock, the answers, and how changes are reported.
use crate::display::probe_display;
use crate::error::{ErrorModel, GantryError};
use crate::events::{probe_changed, Event, EventModel};
use crate::graph::{DependencyGraph, Layer};
use crate::model::{
    PendingModel, PendingReason, ProbeRef, ProbeState, RedModel, RedReason, RefModel, StateModel,
};
use crate::ordered_map::{Item, OrderedMap, Table};
use crate::propagate::{lemma_text_parses, moved, pending_result, Change, ChangeModel};
use crate::runtime::{
    probe_at, ProbeDisplayState, ProbeModel, ServiceModel, ServiceRuntime, Services, ServicesModel,
};
use crate::text::{cat, copy_list, copy_option, text_eq, Str};
use vstd::prelude::*;

verus! {

/// The operation that is in progress, if any. One operation runs at a time.
pub struct OpLock {
    inner: Option<String>,
}

/// The proof that an operation may go on. It is given back when the operation has ended.
pub struct OpGuard {
    op: String,
}

impl DeepView for OpLock {
    type V = Option<Str>;

    closed spec fn deep_view(&self) -> Option<Str> {
        self.inner.deep_view()
    }
}

impl DeepView for OpGuard {
    type V = Str;

    closed spec fn deep_view(&self) -> Str {
        self.op@
    }
}

impl OpLock {
    /// A lock that no operation holds.
    pub fn new() -> (r: Self)
        ensures
            r.deep_view() is None,
    {
        OpLock { inner: None }
    }

    /// The operation in progress.
    pub fn current_op(&self) -> (r: Option<String>)
        ensures
            r.deep_view() == self.deep_view(),
    {
        copy_option(&self.inner)
    }

    /// Begins an operation, unless another one is in progress.
    pub fn try_acquire(&mut self, op_name: &str) -> (r: Result<OpGuard, GantryError>)
        ensures
            match old(self).deep_view() {
                Some(current) => r is Err && r->Err_0.deep_view() == ErrorModel::Conflict(
                    "operation in progress: "@ + current,
                ) && final(self).deep_view() == old(self).deep_view(),
                None => r is Ok && r->Ok_0.deep_view() == op_name@ && final(self).deep_view()
                    == Some(op_name@),
            },
    {
        if let Some(current) = &self.inner {
            return Err(
                GantryError::Conflict(cat("operation in progress: ", current.as_str())),
            );
        }
        self.inner = Some(op_name.to_owned());
        Ok(OpGuard { op: op_name.to_owned() })
    }

    /// Ends the operation in progress, which is the one that the guard was given for.
    pub fn release(&mut self, guard: OpGuard)
        requires
            old(self).deep_view() == Some(guard.deep_view()),
        ensures
            final(self).deep_view() is None,
    {
        self.inner = None;
    }
}

/// A probe in the answer of an operation.
#[derive(Debug)]
pub struct ProbeStatus {
    pub state: String,
    pub prev: String,
    pub reason: Option<String>,
    pub probe_ms: Option<u64>,
    pub error: Option<String>,
    pub logs: Option<Vec<String>>,
}

/// The model of a [`ProbeStatus`].
#[verifier::ext_equal]
pub struct StatusModel {
    pub state: Str,
    pub prev: Str,
    pub reason: Option<Str>,
    pub probe_ms: Option<u64>,
    pub error: Option<Str>,
    pub logs: Option<Seq<Str>>,
}

impl DeepView for ProbeStatus {
    type V = StatusModel;

    open spec fn deep_view(&self) -> StatusModel {
        StatusModel {
            state: self.state@,
            prev: self.prev@,
            reason: self.reason.deep_view(),
            probe_ms: self.probe_ms,
            error: self.error.deep_view(),
            logs: self.logs.deep_view(),
        }
    }
}

impl ProbeStatus {
    /// The same status.
    pub fn copy(&self) -> (r: Self)
        ensures
            r.deep_view() == self.deep_view(),
    {
        ProbeStatus {
            state: self.state.clone(),
            prev: self.prev.clone(),
            reason: copy_option(&self.reason),
            probe_ms: self.probe_ms,
            error: copy_option(&self.error),
            logs: match &self.logs {
                Some(list) => Some(copy_list(list)),
                None => None,
            },
        }
    }
}

impl Item for ProbeStatus {
    open spec fn ok(&self) -> bool {
        true
    }
}

/// A target in the answer of an operation.
#[derive(Debug)]
pub struct TargetStatus {
    pub state: String,
    pub prev: String,
}

/// The model of a [`TargetStatus`].
#[verifier::ext_equal]
pub struct TargetStatusModel {
    pub state: Str,
    pub prev: Str,
}

impl DeepView for TargetStatus {
    type V = TargetStatusModel;

    open spec fn deep_view(&self) -> TargetStatusModel {
        TargetStatusModel { state: self.state@, prev: self.prev@ }
    }
}

impl Item for TargetStatus {
    open spec fn ok(&self) -> bool {
        true
    }
}

/// What an operation has done.
pub struct OpActions {
    pub started: Vec<String>,
    pub restarted: Vec<String>,
    pub stopped: Vec<String>,
    pub start_errors: OrderedMap<String>,
}

/// The model of an [`OpActions`].
#[verifier::ext_equal]
pub struct ActionsModel {
    pub started: Seq<Str>,
    pub restarted: Seq<Str>,
    pub stopped: Seq<Str>,
    pub start_errors: Table<Str>,
}

impl DeepView for OpActions {
    type V = ActionsModel;

    open spec fn deep_view(&self) -> ActionsModel {
        ActionsModel {
            started: self.started.deep_view(),
            restarted: self.restarted.deep_view(),
            stopped: self.stopped.deep_view(),
            start_errors: self.start_errors.deep_view(),
        }
    }
}

impl ActionsModel {
    /// Nothing was done.
    pub open spec fn none() -> Self {
        ActionsModel {
            started: Seq::empty(),
            restarted: Seq::empty(),
            stopped: Seq::empty(),
            start_errors: Table::empty(),
        }
    }
}

impl Default for OpActions {
    fn default() -> (r: Self)
        ensures
            r.start_errors.wf(),
            r.deep_view() == ActionsModel::none(),
    {
        let r = OpActions {
            started: Vec::new(),
            restarted: Vec::new(),
            stopped: Vec::new(),
            start_errors: OrderedMap::new(),
        };
        assert(r.deep_view() =~= ActionsModel::none());
        r
    }
}

/// The answer of an operation.
pub struct OpResponse {
    pub result: String,
    pub duration_ms: u64,
    pub error: Option<String>,
    /// The services that are not green, where a target was not brought to green.
    pub not_green: Vec<String>,
    pub actions: OpActions,
    pub probes: OrderedMap<ProbeStatus>,
    pub targets: OrderedMap<TargetStatus>,
}

/// The model of an [`OpResponse`].
#[verifier::ext_equal]
pub struct ResponseModel {
    pub result: Str,
    pub duration_ms: u64,
    pub error: Option<Str>,
    pub not_green: Seq<Str>,
    pub actions: ActionsModel,
    pub probes: Table<StatusModel>,
    pub targets: Table<TargetStatusModel>,
}

impl DeepView for OpResponse {
    type V = ResponseModel;

    open spec fn deep_view(&self) -> ResponseModel {
        ResponseModel {
            result: self.result@,
            duration_ms: self.duration_ms,
            error: self.error.deep_view(),
            not_green: self.not_green.deep_view(),
            actions: self.actions.deep_view(),
            probes: self.probes.deep_view(),
            targets: self.targets.deep_view(),
        }
    }
}

/// The answer of an operation that went well.
pub open spec fn ok_response(
    duration_ms: u64,
    actions: ActionsModel,
    probes: Table<StatusModel>,
    targets: Table<TargetStatusModel>,
) -> ResponseModel {
    ResponseModel {
        result: "ok"@,
        duration_ms,
        error: None,
        not_green: Seq::empty(),
        actions,
        probes,
        targets,
    }
}

impl OpResponse {
    /// The maps of the answer are in order.
    pub open spec fn wf(&self) -> bool {
        self.actions.start_errors.wf() && self.probes.wf() && self.targets.wf()
    }

    /// The answer of an operation that went well and took a time.
    pub fn ok(
        duration_ms: u64,
        actions: OpActions,
        probes: OrderedMap<ProbeStatus>,
        targets: OrderedMap<TargetStatus>,
    ) -> (r: Self)
        requires
            actions.start_errors.wf(),
            probes.wf(),
            targets.wf(),
        ensures
            r.wf(),
            r.deep_view() == ok_response(
                duration_ms,
                actions.deep_view(),
                probes.deep_view(),
                targets.deep_view(),
            ),
    {
        let r = OpResponse {
            result: "ok".to_owned(),
            duration_ms,
            error: None,
            not_green: Vec::new(),
            actions,
            probes,
            targets,
        };
        assert(r.deep_view().not_green =~= Seq::<Str>::empty());
        r
    }
}

/// What was reported: events to send out, and the probes for the answer.
#[verifier::ext_equal]
pub struct Report {
    pub events: Seq<EventModel>,
    pub statuses: Table<StatusModel>,
}

/// How the probe of a change is shown.
pub open spec fn change_display(s: ServicesModel, r: RefModel) -> ProbeDisplayState {
    match probe_at(s, r) {
        Some(p) => probe_display(p.state, s.at(r.service).state),
        None => ProbeDisplayState::Stopped,
    }
}

/// Whether a change is to be seen: in the state, or in its reason.
pub open spec fn differs(a: StateModel, b: StateModel) -> bool {
    a.text() != b.text() || a.reason() != b.reason()
}

/// The status of a probe that a change was passed on to.
pub open spec fn passed_status(s: ServicesModel, c: ChangeModel) -> StatusModel {
    StatusModel {
        state: change_display(s, c.0).text(),
        prev: c.2.text(),
        reason: c.1.reason(),
        probe_ms: None,
        error: None,
        logs: None,
    }
}

/// What was reported, after some changes are reported too. A change that is not to be seen,
/// or of a probe that is shown as stopped, makes no event.
pub open spec fn report_changes(
    s: ServicesModel,
    changes: Seq<ChangeModel>,
    report: Report,
) -> Report
    decreases changes.len(),
{
    if changes.len() == 0 {
        report
    } else {
        let so_far = report_changes(s, changes.drop_last(), report);
        let c = changes.last();
        Report {
            events: if differs(c.1, c.2) && !(change_display(s, c.0) is Stopped) {
                so_far.events.push(
                    probe_changed(c.0, c.1, c.2, change_display(s, c.0).text()),
                )
            } else {
                so_far.events
            },
            statuses: so_far.statuses.put(c.0.text(), passed_status(s, c)),
        }
    }
}

fn option_text_eq(a: &Option<String>, b: &Option<String>) -> (r: bool)
    ensures
        r == (a.deep_view() == b.deep_view()),
{
    match (a, b) {
        (Some(x), Some(y)) => text_eq(x.as_str(), y.as_str()),
        (None, None) => true,
        _ => false,
    }
}

/// Reports changes that were passed on.
pub fn emit_propagated_changes(
    events: &mut Vec<Event>,
    services: &Services,
    changes: &Vec<Change>,
    probe_statuses: &mut OrderedMap<ProbeStatus>,
)
    requires
        services.wf(),
        old(probe_statuses).wf(),
    ensures
        final(probe_statuses).wf(),
        (Report {
            events: final(events).deep_view(),
            statuses: final(probe_statuses).deep_view(),
        }) == report_changes(
            services.deep_view(),
            changes.deep_view(),
            Report {
                events: old(events).deep_view(),
                statuses: old(probe_statuses).deep_view(),
            },
        ),
{
    let ghost s = services.deep_view();
    let ghost all = changes.deep_view();
    let ghost start = Report {
        events: events.deep_view(),
        statuses: probe_statuses.deep_view(),
    };
    let mut i: usize = 0;
    while i < changes.len()
        invariant
            services.wf(),
            probe_statuses.wf(),
            s == services.deep_view(),
            all == changes.deep_view(),
            i <= changes.len(),
            (Report { events: events.deep_view(), statuses: probe_statuses.deep_view() })
                == report_changes(s, all.take(i as int), start),
        decreases changes.len() - i,
    {
        let ghost next = all.take(i + 1);
        assert(next.drop_last() =~= all.take(i as int));
        let change = &changes[i];
        assert(next.last() == change.deep_view());
        let cr = &change.0;
        let display = match services.get(cr.service.as_str()) {
            Some(svc) => match svc.probes.get(cr.probe.as_str()) {
                Some(p) => ProbeDisplayState::from_probe(p, svc.state),
                None => ProbeDisplayState::Stopped,
            },
            None => ProbeDisplayState::Stopped,
        };
        assert(display == change_display(s, cr.deep_view()));
        let reason = change.1.reason();
        let seen = !text_eq(change.1.as_str(), change.2.as_str()) || !option_text_eq(
            &reason,
            &change.2.reason(),
        );
        if seen && display != ProbeDisplayState::Stopped {
            let ghost before = events.deep_view();
            let e = Event::probe_state_change(
                cr,
                change.1.clone(),
                change.2.clone(),
                display.as_str(),
            );
            let ghost m = e.deep_view();
            events.push(e);
            assert(events.deep_view() =~= before.push(m));
        }
        probe_statuses.insert(
            cr.to_string(),
            ProbeStatus {
                state: display.as_str().to_owned(),
                prev: change.2.as_str().to_owned(),
                reason,
                probe_ms: None,
                error: None,
                logs: None,
            },
        );
        i = i + 1;
    }
    assert(all.take(i as int) =~= all);
}

/// Which probes of a service stay as they are while the others are moved.
#[derive(Debug, Clone, Copy, PartialEq, Eq, Structural)]
pub enum Stay {
    /// None of them.
    Nothing,
    /// Those that await a check.
    Pending,
    /// Those that are being checked again.
    Reprobing,
}

impl Stay {
    /// Whether a probe in this state stays as it is.
    pub open spec fn keeps(self, state: StateModel) -> bool {
        match self {
            Stay::Nothing => false,
            Stay::Pending => state is Pending,
            Stay::Reprobing => state == StateModel::Pending(PendingModel::Reprobing),
        }
    }

    fn keeps_state(self, state: &ProbeState) -> (r: bool)
        ensures
            r == self.keeps(state.deep_view()),
    {
        match self {
            Stay::Nothing => false,
            Stay::Pending => state.is_pending(),
            Stay::Reprobing => match state {
                ProbeState::Pending(PendingReason::Reprobing) => true,
                _ => false,
            },
        }
    }
}

/// The probes of a service after some of them are moved to a state.
pub open spec fn move_probes(
    probes: Table<ProbeModel>,
    keys: Seq<Str>,
    stay: Stay,
    to: StateModel,
) -> Table<ProbeModel>
    decreases keys.len(),
{
    if keys.len() == 0 {
        probes
    } else {
        let so_far = move_probes(probes, keys.drop_last(), stay, to);
        if stay.keeps(probes.at(keys.last()).state) {
            so_far
        } else {
            so_far.put(keys.last(), moved(probes.at(keys.last()), to))
        }
    }
}

/// The changes when some probes of a service are moved to a state.
pub open spec fn move_changes(
    svc: Str,
    probes: Table<ProbeModel>,
    keys: Seq<Str>,
    stay: Stay,
    to: StateModel,
) -> Seq<ChangeModel>
    decreases keys.len(),
{
    if keys.len() == 0 {
        Seq::empty()
    } else {
        let so_far = move_changes(svc, probes, keys.drop_last(), stay, to);
        let prev = probes.at(keys.last()).state;
        if stay.keeps(prev) {
            so_far
        } else {
            so_far.push((RefModel { service: svc, probe: keys.last() }, to, prev))
        }
    }
}

/// A service after its probes are moved to a state.
pub open spec fn move_service(svc: ServiceModel, stay: Stay, to: StateModel) -> ServiceModel {
    ServiceModel { probes: move_probes(svc.probes, svc.probes.keys, stay, to), ..svc }
}

/// Moving some probes touches none of the others, and no name.
pub proof fn lemma_move_probes(probes: Table<ProbeModel>, keys: Seq<Str>, stay: Stay, to: StateModel)
    requires
        probes.valid(),
        forall|i: int| 0 <= i < keys.len() ==> probes.has(#[trigger] keys[i]),
    ensures
        move_probes(probes, keys, stay, to).keys == probes.keys,
        forall|k: Str| #[trigger]
            move_probes(probes, keys, stay, to).has(k) == probes.has(k),
        forall|k: Str|
            !keys.contains(k) ==> #[trigger] move_probes(probes, keys, stay, to).at(k)
                == probes.at(k),
        forall|k: Str|
            keys.contains(k) ==> #[trigger] move_probes(probes, keys, stay, to).at(k) == (
            if stay.keeps(probes.at(k).state) {
                probes.at(k)
            } else {
                moved(probes.at(k), to)
            }),
    decreases keys.len(),
{
    if keys.len() > 0 {
        let front = keys.drop_last();
        let last = keys.last();
        lemma_move_probes(probes, front, stay, to);
        let a = move_probes(probes, front, stay, to);
        let b = move_probes(probes, keys, stay, to);
        assert(probes.has(keys[keys.len() - 1]));
        assert(a.has(last) == probes.has(last));
        assert forall|k: Str| #[trigger] b.has(k) == probes.has(k) by {
            assert(a.has(k) == probes.has(k));
        }
        assert forall|k: Str| !keys.contains(k) implies #[trigger] b.at(k) == probes.at(k) by {
            assert(keys[keys.len() - 1] == last);
            if front.contains(k) {
                let i = choose|i: int| 0 <= i < front.len() && front[i] == k;
                assert(keys[i] == k);
            }
            assert(a.at(k) == probes.at(k));
        }
        assert forall|k: Str| keys.contains(k) implies #[trigger] b.at(k) == (if stay.keeps(
            probes.at(k).state,
        ) {
            probes.at(k)
        } else {
            moved(probes.at(k), to)
        }) by {
            let i = choose|i: int| 0 <= i < keys.len() && keys[i] == k;
            if k != last {
                assert(front[i] == k);
                assert(a.at(k) == a.at(k));
            } else if stay.keeps(probes.at(k).state) {
                if !front.contains(k) {
                    assert(a.at(k) == probes.at(k));
                } else {
                    assert(a.at(k) == a.at(k));
                }
            }
        }
    }
}

/// Moves the probes of a service to a state, and lists the changes.
pub fn move_all_probes(svc_name: &str, svc: &mut ServiceRuntime, stay: Stay, to: &ProbeState) -> (r:
    Vec<Change>)
    requires
        old(svc).ok(),
    ensures
        final(svc).ok(),
        final(svc).deep_view() == move_service(old(svc).deep_view(), stay, to.deep_view()),
        r.deep_view() == move_changes(
            svc_name@,
            old(svc).deep_view().probes,
            old(svc).deep_view().probes.keys,
            stay,
            to.deep_view(),
        ),
{
    let ghost start = svc.deep_view();
    let ghost probes = start.probes;
    let ghost goal = to.deep_view();
    let mut changes: Vec<Change> = Vec::new();
    let n: usize = svc.probes.len();
    let mut i: usize = 0;
    assert(changes.deep_view() =~= Seq::<ChangeModel>::empty());
    while i < n
        invariant
            svc.ok(),
            probes == start.probes,
            probes.valid(),
            goal == to.deep_view(),
            i <= n == probes.keys.len(),
            svc.deep_view() == (ServiceModel {
                probes: move_probes(probes, probes.keys.take(i as int), stay, goal),
                ..start
            }),
            changes.deep_view() == move_changes(
                svc_name@,
                probes,
                probes.keys.take(i as int),
                stay,
                goal,
            ),
        decreases n - i,
    {
        let ghost before = probes.keys.take(i as int);
        let ghost next = probes.keys.take(i + 1);
        let ghost key = probes.keys[i as int];
        assert(next.drop_last() =~= before);
        assert(next.last() == key);
        proof {
            assert forall|j: int| 0 <= j < before.len() implies probes.has(#[trigger] before[j]) by {
                assert(probes.keys.contains(probes.keys[j]));
            }
            lemma_move_probes(probes, before, stay, goal);
            assert(!before.contains(key)) by {
                if before.contains(key) {
                    let j = choose|j: int| 0 <= j < i && before[j] == key;
                    assert(probes.keys[j] == probes.keys[i as int]);
                }
            }
        }
        assert(svc.probes.deep_view().keys == probes.keys);
        assert(svc.probes.deep_view().at(key) == probes.at(key));
        let name = svc.probes.name(i).clone();
        let p = svc.probes.value_mut(i);
        if !stay.keeps_state(&p.state) {
            let prev = p.state.clone();
            p.prev_color = Some(prev.color());
            p.state = to.clone();
            let ghost listed = changes.deep_view();
            let cr = ProbeRef::new(svc_name, name.as_str());
            let ghost change = (cr.deep_view(), goal, prev.deep_view());
            changes.push((cr, to.clone(), prev));
            assert(changes.deep_view() =~= listed.push(change));
        }
        proof {
            let now = svc.probes.deep_view();
            let was = move_probes(probes, before, stay, goal);
            assert(was.has(key) == probes.has(key));
            assert(probes.keys.contains(key));
            if stay.keeps(probes.at(key).state) {
                assert(now =~= was) by {
                    assert(was.put(key, was.at(key)).map =~= was.map);
                }
            }
            assert(now =~= move_probes(probes, next, stay, goal));
        }
        i = i + 1;
    }
    assert(probes.keys.take(i as int) =~= probes.keys);
    changes
}

/// The changes of some probes of a service, from one table to another.
pub open spec fn listed_changes(
    svc: Str,
    before: Table<ProbeModel>,
    after: Table<ProbeModel>,
    keys: Seq<Str>,
    stay: Stay,
) -> Seq<ChangeModel>
    decreases keys.len(),
{
    if keys.len() == 0 {
        Seq::empty()
    } else {
        let so_far = listed_changes(svc, before, after, keys.drop_last(), stay);
        let k = keys.last();
        if stay.keeps(before.at(k).state) {
            so_far
        } else {
            so_far.push(
                (
                    RefModel { service: svc, probe: k },
                    after.at(k).state,
                    before.at(k).state,
                ),
            )
        }
    }
}

/// Whether the first `n` probes of a table were moved, each to a state of its own.
pub open spec fn moved_to(
    before: Table<ProbeModel>,
    after: Table<ProbeModel>,
    n: int,
    stay: Stay,
) -> bool {
    &&& after.keys == before.keys
    &&& forall|k: Str| #[trigger] after.has(k) == before.has(k)
    &&& forall|j: int|
        #![trigger before.keys[j]]
        0 <= j < before.keys.len() ==> after.at(before.keys[j]) == (if j < n && !stay.keeps(
            before.at(before.keys[j]).state,
        ) {
            moved(before.at(before.keys[j]), after.at(before.keys[j]).state)
        } else {
            before.at(before.keys[j])
        })
}

proof fn lemma_moved_next(
    before: Table<ProbeModel>,
    mid: Table<ProbeModel>,
    after: Table<ProbeModel>,
    n: int,
    stay: Stay,
)
    requires
        before.valid(),
        0 <= n < before.keys.len(),
        moved_to(before, mid, n, stay),
        exists|p: ProbeModel| #[trigger] mid.put(before.keys[n], p) == after && (if stay.keeps(
            before.at(before.keys[n]).state,
        ) {
            p == before.at(before.keys[n])
        } else {
            p == moved(before.at(before.keys[n]), p.state)
        }),
    ensures
        moved_to(before, after, n + 1, stay),
        forall|k: Str| k != before.keys[n] ==> #[trigger] after.at(k) == mid.at(k),
{
    let key = before.keys[n];
    assert(before.keys.contains(key));
    assert(mid.has(key) == before.has(key));
    assert forall|k: Str| #[trigger] after.has(k) == before.has(k) by {
        assert(mid.has(k) == before.has(k));
    }
}

proof fn lemma_listed_same(
    svc: Str,
    before: Table<ProbeModel>,
    mid: Table<ProbeModel>,
    after: Table<ProbeModel>,
    keys: Seq<Str>,
    stay: Stay,
    key: Str,
)
    requires
        before.valid(),
        keys.len() < before.keys.len(),
        keys == before.keys.take(keys.len() as int),
        key == before.keys[keys.len() as int],
        forall|k: Str| k != key ==> #[trigger] after.at(k) == mid.at(k),
    ensures
        listed_changes(svc, before, after, keys, stay) == listed_changes(
            svc,
            before,
            mid,
            keys,
            stay,
        ),
{
    lemma_listed_prefix(svc, before, mid, after, keys, stay, key, keys.len() as int);
    assert(keys.take(keys.len() as int) =~= keys);
}

proof fn lemma_listed_prefix(
    svc: Str,
    before: Table<ProbeModel>,
    mid: Table<ProbeModel>,
    after: Table<ProbeModel>,
    keys: Seq<Str>,
    stay: Stay,
    key: Str,
    n: int,
)
    requires
        before.valid(),
        0 <= n <= keys.len() < before.keys.len(),
        keys == before.keys.take(keys.len() as int),
        key == before.keys[keys.len() as int],
        forall|k: Str| k != key ==> #[trigger] after.at(k) == mid.at(k),
    ensures
        listed_changes(svc, before, after, keys.take(n), stay) == listed_changes(
            svc,
            before,
            mid,
            keys.take(n),
            stay,
        ),
    decreases n,
{
    if n > 0 {
        assert(keys.take(n).drop_last() =~= keys.take(n - 1));
        lemma_listed_prefix(svc, before, mid, after, keys, stay, key, n - 1);
        assert(keys[n - 1] == before.keys[n - 1]);
        assert(before.keys[n - 1] != key);
        assert(after.at(keys[n - 1]) == mid.at(keys[n - 1]));
    }
}

/// Whether a function can give a reason.
pub open spec fn gives_red<F: Fn() -> RedReason>(f: F, m: RedModel) -> bool {
    exists|y: RedReason| #[trigger] call_ensures(f, (), y) && y.deep_view() == m
}

/// Moves all probes of a service to red, each for the reason that a function gives, and lists
/// the changes.
pub fn mark_all_probes_red<F: Fn() -> RedReason>(
    svc_name: &str,
    svc: &mut ServiceRuntime,
    red_reason_fn: F,
) -> (r: Vec<Change>)
    requires
        old(svc).ok(),
        call_requires(red_reason_fn, ()),
    ensures
        final(svc).ok(),
        final(svc).deep_view() == (ServiceModel {
            probes: final(svc).deep_view().probes,
            ..old(svc).deep_view()
        }),
        moved_to(
            old(svc).deep_view().probes,
            final(svc).deep_view().probes,
            old(svc).deep_view().probes.keys.len() as int,
            Stay::Nothing,
        ),
        forall|k: Str| #[trigger]
            old(svc).deep_view().probes.has(k) && !Stay::Nothing.keeps(
                old(svc).deep_view().probes.at(k).state,
            ) ==> (final(svc).deep_view().probes.at(k).state matches StateModel::Red(m)
                && gives_red(red_reason_fn, m)),
        r.deep_view() == listed_changes(
            svc_name@,
            old(svc).deep_view().probes,
            final(svc).deep_view().probes,
            old(svc).deep_view().probes.keys,
            Stay::Nothing,
        ),
{
    let ghost start = svc.deep_view();
    let ghost probes = start.probes;
    let mut changes: Vec<Change> = Vec::new();
    let n: usize = svc.probes.len();
    let mut i: usize = 0;
    assert(changes.deep_view() =~= Seq::<ChangeModel>::empty());
    while i < n
        invariant
            svc.ok(),
            call_requires(red_reason_fn, ()),
            probes == start.probes,
            probes.valid(),
            i <= n == probes.keys.len(),
            svc.deep_view() == (ServiceModel { probes: svc.deep_view().probes, ..start }),
            moved_to(probes, svc.deep_view().probes, i as int, Stay::Nothing),
            forall|j: int|
                0 <= j < i && !Stay::Nothing.keeps(probes.at(#[trigger] probes.keys[j]).state) ==> (
                svc.deep_view().probes.at(probes.keys[j]).state matches StateModel::Red(m)
                    && gives_red(red_reason_fn, m)),
            changes.deep_view() == listed_changes(
                svc_name@,
                probes,
                svc.deep_view().probes,
                probes.keys.take(i as int),
                Stay::Nothing,
            ),
        decreases n - i,
    {
        let ghost mid = svc.deep_view().probes;
        let ghost key = probes.keys[i as int];
        let ghost next = probes.keys.take(i + 1);
        assert(next.drop_last() =~= probes.keys.take(i as int));
        assert(next.last() == key);
        assert(probes.keys.contains(key));
        assert(mid.at(key) == probes.at(key));
        let name = svc.probes.name(i).clone();
        let stay = Stay::Nothing;
        let p = svc.probes.value_mut(i);
        if !stay.keeps_state(&p.state) {
            let prev = p.state.clone();
            p.prev_color = Some(prev.color());
            let reason = red_reason_fn();
            let ghost given = reason.deep_view();
            assert(gives_red(red_reason_fn, given));
            let state = ProbeState::Red(reason);
            p.state = state.clone();
            let ghost listed = changes.deep_view();
            let cr = ProbeRef::new(svc_name, name.as_str());
            let ghost change = (cr.deep_view(), state.deep_view(), prev.deep_view());
            changes.push((cr, state, prev));
            assert(changes.deep_view() =~= listed.push(change));
        }
        proof {
            let now = svc.deep_view().probes;
            lemma_moved_next(probes, mid, now, i as int, Stay::Nothing);
            lemma_listed_same(
                svc_name@,
                probes,
                mid,
                now,
                probes.keys.take(i as int),
                Stay::Nothing,
                key,
            );
        }
        i = i + 1;
    }
    proof {
        assert(probes.keys.take(i as int) =~= probes.keys);
        assert forall|k: Str| #[trigger] probes.has(k) && !Stay::Nothing.keeps(
            probes.at(k).state,
        ) implies (svc.deep_view().probes.at(k).state matches StateModel::Red(m)
            && gives_red(red_reason_fn, m)) by {
            let j = choose|j: int| 0 <= j < probes.keys.len() && probes.keys[j] == k;
            assert(probes.keys[j] == k);
        }
    }
    changes
}

/// Whether a function can give a reason.
pub open spec fn gives_pending<F: Fn() -> PendingReason>(f: F, m: PendingModel) -> bool {
    exists|y: PendingReason| #[trigger] call_ensures(f, (), y) && y.deep_view() == m
}

/// Moves the probes of a service that do not await a check to pending, each for the reason
/// that a function gives, and lists the changes.
pub fn mark_all_probes_pending<F: Fn() -> PendingReason>(
    svc_name: &str,
    svc: &mut ServiceRuntime,
    reason_fn: F,
) -> (r: Vec<Change>)
    requires
        old(svc).ok(),
        call_requires(reason_fn, ()),
    ensures
        final(svc).ok(),
        final(svc).deep_view() == (ServiceModel {
            probes: final(svc).deep_view().probes,
            ..old(svc).deep_view()
        }),
        moved_to(
            old(svc).deep_view().probes,
            final(svc).deep_view().probes,
            old(svc).deep_view().probes.keys.len() as int,
            Stay::Pending,
        ),
        forall|k: Str| #[trigger]
            old(svc).deep_view().probes.has(k) && !Stay::Pending.keeps(
                old(svc).deep_view().probes.at(k).state,
            ) ==> (final(svc).deep_view().probes.at(k).state matches StateModel::Pending(m)
                && gives_pending(reason_fn, m)),
        r.deep_view() == listed_changes(
            svc_name@,
            old(svc).deep_view().probes,
            final(svc).deep_view().probes,
            old(svc).deep_view().probes.keys,
            Stay::Pending,
        ),
{
    let ghost start = svc.deep_view();
    let ghost probes = start.probes;
    let mut changes: Vec<Change> = Vec::new();
    let n: usize = svc.probes.len();
    let mut i: usize = 0;
    assert(changes.deep_view() =~= Seq::<ChangeModel>::empty());
    while i < n
        invariant
            svc.ok(),
            call_requires(reason_fn, ()),
            probes == start.probes,
            probes.valid(),
            i <= n == probes.keys.len(),
            svc.deep_view() == (ServiceModel { probes: svc.deep_view().probes, ..start }),
            moved_to(probes, svc.deep_view().probes, i as int, Stay::Pending),
            forall|j: int|
                0 <= j < i && !Stay::Pending.keeps(probes.at(#[trigger] probes.keys[j]).state) ==> (
                svc.deep_view().probes.at(probes.keys[j]).state matches StateModel::Pending(m)
                    && gives_pending(reason_fn, m)),
            changes.deep_view() == listed_changes(
                svc_name@,
                probes,
                svc.deep_view().probes,
                probes.keys.take(i as int),
                Stay::Pending,
            ),
        decreases n - i,
    {
        let ghost mid = svc.deep_view().probes;
        let ghost key = probes.keys[i as int];
        let ghost next = probes.keys.take(i + 1);
        assert(next.drop_last() =~= probes.keys.take(i as int));
        assert(next.last() == key);
        assert(probes.keys.contains(key));
        assert(mid.at(key) == probes.at(key));
        let name = svc.probes.name(i).clone();
        let stay = Stay::Pending;
        let p = svc.probes.value_mut(i);
        if !stay.keeps_state(&p.state) {
            let prev = p.state.clone();
            p.prev_color = Some(prev.color());
            let reason = reason_fn();
            let ghost given = reason.deep_view();
            assert(gives_pending(reason_fn, given));
            let state = ProbeState::Pending(reason);
            p.state = state.clone();
            let ghost listed = changes.deep_view();
            let cr = ProbeRef::new(svc_name, name.as_str());
            let ghost change = (cr.deep_view(), state.deep_view(), prev.deep_view());
            changes.push((cr, state, prev));
            assert(changes.deep_view() =~= listed.push(change));
        }
        proof {
            let now = svc.deep_view().probes;
            lemma_moved_next(probes, mid, now, i as int, Stay::Pending);
            lemma_listed_same(
                svc_name@,
                probes,
                mid,
                now,
                probes.keys.take(i as int),
                Stay::Pending,
                key,
            );
        }
        i = i + 1;
    }
    proof {
        assert(probes.keys.take(i as int) =~= probes.keys);
        assert forall|k: Str| #[trigger] probes.has(k) && !Stay::Pending.keeps(
            probes.at(k).state,
        ) implies (svc.deep_view().probes.at(k).state matches StateModel::Pending(m)
            && gives_pending(reason_fn, m)) by {
            let j = choose|j: int| 0 <= j < probes.keys.len() && probes.keys[j] == k;
            assert(probes.keys[j] == k);
        }
    }
    changes
}

/// The services and the changes after changes of some probes of a service are passed on.
pub open spec fn pass_on(
    g: Layer,
    svc: Str,
    keys: Seq<Str>,
    s: ServicesModel,
) -> (ServicesModel, Seq<ChangeModel>)
    decreases keys.len(),
{
    if keys.len() == 0 {
        (s, Seq::empty())
    } else {
        let (so_far, changes) = pass_on(g, svc, keys.drop_last(), s);
        let w = pending_result(
            g,
            (RefModel { service: svc, probe: keys.last() }).text(),
            so_far,
            changes,
        );
        (w.services, w.changes)
    }
}

/// Passes the state of all probes of a service on to their dependents, and lists the changes.
pub fn propagate_all_pending(graph: &DependencyGraph, svc_name: &str, services: &mut Services) -> (r:
    Vec<Change>)
    requires
        graph.wf(),
        old(services).wf(),
        old(services).deep_view().has(svc_name@),
    ensures
        final(services).wf(),
        (final(services).deep_view(), r.deep_view()) == pass_on(
            graph.deep_view().probes,
            svc_name@,
            old(services).deep_view().at(svc_name@).probes.keys,
            old(services).deep_view(),
        ),
{
    let ghost s = services.deep_view();
    let ghost g = graph.deep_view().probes;
    let names = services.get(svc_name).unwrap().probes.names();
    let ghost keys = names.deep_view();
    let mut changes: Vec<Change> = Vec::new();
    let mut i: usize = 0;
    assert(changes.deep_view() =~= Seq::<ChangeModel>::empty());
    while i < names.len()
        invariant
            graph.wf(),
            services.wf(),
            g == graph.deep_view().probes,
            keys == names.deep_view(),
            i <= names.len(),
            (services.deep_view(), changes.deep_view()) == pass_on(
                g,
                svc_name@,
                keys.take(i as int),
                s,
            ),
        decreases names.len() - i,
    {
        let ghost next = keys.take(i + 1);
        assert(next.drop_last() =~= keys.take(i as int));
        assert(next.last() == names[i as int]@);
        let r = ProbeRef::new(svc_name, names[i].as_str());
        proof {
            lemma_text_parses(r.deep_view());
        }
        graph.propagate_pending(r.to_string().as_str(), services, &mut changes);
        i = i + 1;
    }
    assert(keys.take(i as int) =~= keys);
    changes
}

/// Where all probes that were moved are in one state, they were moved to it.
pub proof fn lemma_marked(
    svc: Str,
    before: Table<ProbeModel>,
    after: Table<ProbeModel>,
    stay: Stay,
    to: StateModel,
)
    requires
        before.valid(),
        moved_to(before, after, before.keys.len() as int, stay),
        forall|k: Str| #[trigger]
            before.has(k) && !stay.keeps(before.at(k).state) ==> after.at(k).state == to,
    ensures
        after == move_probes(before, before.keys, stay, to),
        listed_changes(svc, before, after, before.keys, stay) == move_changes(
            svc,
            before,
            before.keys,
            stay,
            to,
        ),
{
    assert forall|i: int| 0 <= i < before.keys.len() implies before.has(
        #[trigger] before.keys[i],
    ) by {
        assert(before.keys.contains(before.keys[i]));
    }
    lemma_move_probes(before, before.keys, stay, to);
    let want = move_probes(before, before.keys, stay, to);
    assert forall|k: Str| #[trigger] after.map.contains_key(k) == want.map.contains_key(k) by {
        assert(after.has(k) == before.has(k));
        assert(want.has(k) == before.has(k));
    }
    assert forall|k: Str| after.map.contains_key(k) implies #[trigger] after.map[k]
        == want.map[k] by {
        assert(after.has(k) == before.has(k));
        assert(before.keys.contains(k));
        let i = choose|i: int| 0 <= i < before.keys.len() && before.keys[i] == k;
        assert(before.keys[i] == k);
        assert(want.at(k) == want.map[k]);
    }
    assert(after.map =~= want.map);
    lemma_marked_changes(svc, before, after, before.keys, stay, to);
}

proof fn lemma_marked_changes(
    svc: Str,
    before: Table<ProbeModel>,
    after: Table<ProbeModel>,
    keys: Seq<Str>,
    stay: Stay,
    to: StateModel,
)
    requires
        forall|i: int| 0 <= i < keys.len() ==> before.has(#[trigger] keys[i]),
        forall|k: Str| #[trigger]
            before.has(k) && !stay.keeps(before.at(k).state) ==> after.at(k).state == to,
    ensures
        listed_changes(svc, before, after, keys, stay) == move_changes(
            svc,
            before,
            keys,
            stay,
            to,
        ),
    decreases keys.len(),
{
    if keys.len() > 0 {
        assert(before.has(keys[keys.len() - 1]));
        lemma_marked_changes(svc, before, after, keys.drop_last(), stay, to);
    }
}

} // verus!
