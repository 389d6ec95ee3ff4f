//! The state of services, probes and targets while gantry runs.
use crate::text::{cat, cat3, decimal, decimal_text, split_at_first, split_first, Str};
use vstd::prelude::*;

verus! {

/// Whether a service's container runs.
#[derive(Debug, Clone, Copy, PartialEq, Eq, Structural)]
pub enum ServiceState {
    Stopped,
    Running,
    Crashed,
}

impl ServiceState {
    /// The name of the state.
    pub open spec fn text(self) -> Str {
        match self {
            ServiceState::Stopped => "stopped"@,
            ServiceState::Running => "running"@,
            ServiceState::Crashed => "crashed"@,
        }
    }

    /// The name of the state.
    pub fn as_str(&self) -> (r: &'static str)
        ensures
            r@ == self.text(),
    {
        match self {
            ServiceState::Stopped => "stopped",
            ServiceState::Running => "running",
            ServiceState::Crashed => "crashed",
        }
    }
}

/// A probe of a service, by the two names.
#[derive(Debug, PartialEq, Eq, Hash)]
pub struct ProbeRef {
    pub service: String,
    pub probe: String,
}

/// The model of a [`ProbeRef`].
#[verifier::ext_equal]
pub struct RefModel {
    pub service: Str,
    pub probe: Str,
}

impl RefModel {
    /// A reference as it is written: the service, a dot and the probe.
    pub open spec fn text(self) -> Str {
        self.service + seq!['.'] + self.probe
    }
}

/// The reference that a text writes, split at its first dot.
pub open spec fn parse_ref(s: Str) -> Option<RefModel> {
    match split_at_first(s, '.') {
        Some((service, probe)) => Some(RefModel { service, probe }),
        None => None,
    }
}

/// The references that the texts of a list write. A text without a dot is left out.
pub open spec fn parse_refs(list: Seq<Str>) -> Seq<RefModel>
    decreases list.len(),
{
    if list.len() == 0 {
        Seq::empty()
    } else {
        match parse_ref(list.last()) {
            Some(r) => parse_refs(list.drop_last()).push(r),
            None => parse_refs(list.drop_last()),
        }
    }
}

/// A reference is read back from what it is written as, if its service has no dot.
pub proof fn lemma_ref_round_trip(r: RefModel)
    requires
        !r.service.contains('.'),
    ensures
        parse_ref(r.text()) == Some(r),
{
    let s = r.text();
    let n = r.service.len() as int;
    s.index_of_first_ensures('.');
    assert(s[n] == '.');
    assert(forall|i: int| 0 <= i < n ==> s[i] == r.service[i]);
    let i = s.index_of_first('.')->0;
    if i < n {
        assert(r.service[i] == '.');
    }
    assert(i == n);
    assert(s.subrange(0, n) =~= r.service);
    assert(s.subrange(n + 1, s.len() as int) =~= r.probe);
}

/// What is read from a text is written as that text.
pub proof fn lemma_ref_text(s: Str)
    requires
        parse_ref(s) is Some,
    ensures
        parse_ref(s)->0.text() == s,
        !parse_ref(s)->0.service.contains('.'),
{
    s.index_of_first_ensures('.');
    let r = parse_ref(s)->0;
    assert(r.text() =~= s);
    let i = s.index_of_first('.')->0;
    assert forall|j: int| 0 <= j < r.service.len() implies r.service[j] != '.' by {
        assert(s[j] != '.');
    }
}

impl DeepView for ProbeRef {
    type V = RefModel;

    open spec fn deep_view(&self) -> RefModel {
        RefModel { service: self.service@, probe: self.probe@ }
    }
}

impl Clone for ProbeRef {
    fn clone(&self) -> (r: Self)
        ensures
            r == *self,
    {
        ProbeRef { service: self.service.clone(), probe: self.probe.clone() }
    }
}

impl ProbeRef {
    /// The reference to a probe of a service.
    pub fn new(service: &str, probe: &str) -> (r: Self)
        ensures
            r.deep_view() == (RefModel { service: service@, probe: probe@ }),
    {
        ProbeRef { service: service.to_owned(), probe: probe.to_owned() }
    }

    /// Reads a reference: the service up to the first dot, and the probe behind it.
    pub fn parse(s: &str) -> (r: Option<Self>)
        ensures
            match r {
                Some(p) => parse_ref(s@) == Some(p.deep_view()),
                None => parse_ref(s@) is None,
            },
    {
        match split_first(s, '.') {
            Some((service, probe)) => Some(ProbeRef::new(service, probe)),
            None => None,
        }
    }

    /// The reference as it is written.
    pub fn to_string(&self) -> (r: String)
        ensures
            r@ == self.deep_view().text(),
    {
        proof {
            reveal_strlit(".");
            assert("."@ =~= seq!['.']);
        }
        cat3(self.service.as_str(), ".", self.probe.as_str())
    }

    /// Whether two references name the same probe.
    pub fn same(&self, other: &ProbeRef) -> (r: bool)
        ensures
            r == (self.deep_view() == other.deep_view()),
    {
        self.service == other.service && self.probe == other.probe
    }
}

/// Reads a list of references. A text without a dot is left out.
pub fn parse_ref_list(list: &Vec<String>) -> (r: Vec<ProbeRef>)
    ensures
        r.deep_view() == parse_refs(list.deep_view()),
{
    let mut out: Vec<ProbeRef> = Vec::new();
    let mut i: usize = 0;
    while i < list.len()
        invariant
            i <= list.len(),
            out.deep_view() == parse_refs(list.deep_view().take(i as int)),
        decreases list.len() - i,
    {
        let ghost next = list.deep_view().take(i + 1);
        let ghost before = out.deep_view();
        assert(next.drop_last() =~= list.deep_view().take(i as int));
        assert(next.last() == list[i as int]@);
        if let Some(p) = ProbeRef::parse(list[i].as_str()) {
            out.push(p);
            assert(out.deep_view() =~= before.push(p.deep_view()));
        }
        i = i + 1;
    }
    assert(list.deep_view().take(i as int) =~= list.deep_view());
    out
}

/// The texts of a list of references.
pub open spec fn ref_texts(list: Seq<RefModel>) -> Seq<Str> {
    Seq::new(list.len(), |i: int| list[i].text())
}

/// Writes a list of references.
pub fn ref_text_list(list: &Vec<ProbeRef>) -> (r: Vec<String>)
    ensures
        r.deep_view() == ref_texts(list.deep_view()),
{
    let mut out: Vec<String> = Vec::new();
    let mut i: usize = 0;
    while i < list.len()
        invariant
            i <= list.len(),
            out.len() == i,
            forall|j: int|
                0 <= j < i ==> (#[trigger] out@[j])@ == list.deep_view()[j].text(),
        decreases list.len() - i,
    {
        out.push(list[i].to_string());
        i = i + 1;
    }
    assert(out.deep_view() =~= ref_texts(list.deep_view()));
    out
}

/// A copy of a list of references.
pub fn copy_refs(list: &Vec<ProbeRef>) -> (r: Vec<ProbeRef>)
    ensures
        r@ == list@,
        r.deep_view() == list.deep_view(),
{
    let mut out: Vec<ProbeRef> = Vec::new();
    let mut i: usize = 0;
    while i < list.len()
        invariant
            i <= list.len(),
            out@ == list@.take(i as int),
        decreases list.len() - i,
    {
        out.push(list[i].clone());
        assert(out@ =~= list@.take(i + 1));
        i = i + 1;
    }
    assert(out@ =~= list@);
    assert(out.deep_view() =~= list.deep_view());
    out
}

/// Whether a list holds a reference.
pub fn refs_contain(list: &Vec<ProbeRef>, p: &ProbeRef) -> (r: bool)
    ensures
        r == list.deep_view().contains(p.deep_view()),
{
    let mut i: usize = 0;
    while i < list.len()
        invariant
            i <= list.len(),
            forall|j: int| 0 <= j < i ==> list.deep_view()[j] != p.deep_view(),
        decreases list.len() - i,
    {
        if list[i].same(p) {
            assert(list.deep_view()[i as int] == p.deep_view());
            return true;
        }
        i = i + 1;
    }
    false
}

/// How a probe failed by itself.
#[derive(Debug)]
pub struct ProbeFailure {
    pub error: String,
    pub duration_ms: u64,
}

/// Why a probe is red.
#[derive(Debug)]
pub enum RedReason {
    ProbeFailed(ProbeFailure),
    DepRed { dep: ProbeRef },
    Stopped,
    ContainerDied,
}

/// Why a probe awaits a check.
#[derive(Debug)]
pub enum PendingReason {
    DepRecovered { dep: ProbeRef },
    DepNotReady { dep: ProbeRef },
    ContainerStarted,
    Reprobing,
    Unchecked,
}

/// The state of a probe.
#[derive(Debug)]
pub enum ProbeState {
    Green,
    Red(RedReason),
    Pending(PendingReason),
}

/// The model of a [`RedReason`].
#[verifier::ext_equal]
pub enum RedModel {
    ProbeFailed { error: Str, duration_ms: u64 },
    DepRed { dep: RefModel },
    Stopped,
    ContainerDied,
}

/// The model of a [`PendingReason`].
#[verifier::ext_equal]
pub enum PendingModel {
    DepRecovered { dep: RefModel },
    DepNotReady { dep: RefModel },
    ContainerStarted,
    Reprobing,
    Unchecked,
}

/// The model of a [`ProbeState`].
#[verifier::ext_equal]
pub enum StateModel {
    Green,
    Red(RedModel),
    Pending(PendingModel),
}

impl DeepView for RedReason {
    type V = RedModel;

    open spec fn deep_view(&self) -> RedModel {
        match *self {
            RedReason::ProbeFailed(f) => RedModel::ProbeFailed {
                error: f.error@,
                duration_ms: f.duration_ms,
            },
            RedReason::DepRed { dep } => RedModel::DepRed { dep: dep.deep_view() },
            RedReason::Stopped => RedModel::Stopped,
            RedReason::ContainerDied => RedModel::ContainerDied,
        }
    }
}

impl DeepView for PendingReason {
    type V = PendingModel;

    open spec fn deep_view(&self) -> PendingModel {
        match *self {
            PendingReason::DepRecovered { dep } => PendingModel::DepRecovered {
                dep: dep.deep_view(),
            },
            PendingReason::DepNotReady { dep } => PendingModel::DepNotReady {
                dep: dep.deep_view(),
            },
            PendingReason::ContainerStarted => PendingModel::ContainerStarted,
            PendingReason::Reprobing => PendingModel::Reprobing,
            PendingReason::Unchecked => PendingModel::Unchecked,
        }
    }
}

impl DeepView for ProbeState {
    type V = StateModel;

    open spec fn deep_view(&self) -> StateModel {
        match *self {
            ProbeState::Green => StateModel::Green,
            ProbeState::Red(r) => StateModel::Red(r.deep_view()),
            ProbeState::Pending(r) => StateModel::Pending(r.deep_view()),
        }
    }
}

impl Clone for ProbeFailure {
    fn clone(&self) -> (r: Self)
        ensures
            r == *self,
    {
        ProbeFailure { error: self.error.clone(), duration_ms: self.duration_ms }
    }
}

impl Clone for RedReason {
    fn clone(&self) -> (r: Self)
        ensures
            r == *self,
    {
        match self {
            RedReason::ProbeFailed(f) => RedReason::ProbeFailed(f.clone()),
            RedReason::DepRed { dep } => RedReason::DepRed { dep: dep.clone() },
            RedReason::Stopped => RedReason::Stopped,
            RedReason::ContainerDied => RedReason::ContainerDied,
        }
    }
}

impl Clone for PendingReason {
    fn clone(&self) -> (r: Self)
        ensures
            r == *self,
    {
        match self {
            PendingReason::DepRecovered { dep } => PendingReason::DepRecovered { dep: dep.clone() },
            PendingReason::DepNotReady { dep } => PendingReason::DepNotReady { dep: dep.clone() },
            PendingReason::ContainerStarted => PendingReason::ContainerStarted,
            PendingReason::Reprobing => PendingReason::Reprobing,
            PendingReason::Unchecked => PendingReason::Unchecked,
        }
    }
}

impl Clone for ProbeState {
    fn clone(&self) -> (r: Self)
        ensures
            r == *self,
    {
        match self {
            ProbeState::Green => ProbeState::Green,
            ProbeState::Red(r) => ProbeState::Red(r.clone()),
            ProbeState::Pending(r) => ProbeState::Pending(r.clone()),
        }
    }
}

/// The error of a failed probe, with the time it took.
pub open spec fn failure_text(error: Str, duration_ms: u64) -> Str {
    error + " ("@ + decimal(duration_ms as nat) + "ms)"@
}

impl ProbeFailure {
    fn text(&self) -> (r: String)
        ensures
            r@ == failure_text(self.error@, self.duration_ms),
    {
        cat(
            cat3(self.error.as_str(), " (", decimal_text(self.duration_ms).as_str()).as_str(),
            "ms)",
        )
    }
}

impl RedModel {
    /// The reason with the probe or the error that is its cause.
    pub open spec fn display(self) -> Str {
        match self {
            RedModel::ProbeFailed { error, duration_ms } => "probe failed: "@ + failure_text(
                error,
                duration_ms,
            ),
            RedModel::DepRed { dep } => "dep red: "@ + dep.text(),
            RedModel::Stopped => "stopped"@,
            RedModel::ContainerDied => "container died"@,
        }
    }

    /// The reason alone.
    pub open spec fn short(self) -> Str {
        match self {
            RedModel::ProbeFailed { .. } => "probe failed"@,
            RedModel::DepRed { .. } => "dep red"@,
            RedModel::Stopped => "stopped"@,
            RedModel::ContainerDied => "container died"@,
        }
    }

    /// The probe or the error that is the cause.
    pub open spec fn cause(self) -> Option<Str> {
        match self {
            RedModel::ProbeFailed { error, duration_ms } => Some(failure_text(error, duration_ms)),
            RedModel::DepRed { dep } => Some(dep.text()),
            _ => None,
        }
    }
}

impl RedReason {
    /// The reason with the probe or the error that is its cause.
    pub fn display(&self) -> (r: String)
        ensures
            r@ == self.deep_view().display(),
    {
        match self {
            RedReason::ProbeFailed(f) => cat("probe failed: ", f.text().as_str()),
            RedReason::DepRed { dep } => cat("dep red: ", dep.to_string().as_str()),
            RedReason::Stopped => "stopped".to_owned(),
            RedReason::ContainerDied => "container died".to_owned(),
        }
    }

    /// The reason alone.
    pub fn short_display(&self) -> (r: &'static str)
        ensures
            r@ == self.deep_view().short(),
    {
        match self {
            RedReason::ProbeFailed(_) => "probe failed",
            RedReason::DepRed { .. } => "dep red",
            RedReason::Stopped => "stopped",
            RedReason::ContainerDied => "container died",
        }
    }

    /// The probe or the error that is the cause.
    pub fn detail(&self) -> (r: Option<String>)
        ensures
            r.deep_view() == self.deep_view().cause(),
    {
        match self {
            RedReason::ProbeFailed(f) => Some(f.text()),
            RedReason::DepRed { dep } => Some(dep.to_string()),
            _ => None,
        }
    }
}

impl PendingModel {
    /// The reason with the probe that is its cause.
    pub open spec fn display(self) -> Str {
        match self {
            PendingModel::DepRecovered { dep } => "dep "@ + dep.text() + " recovered"@,
            PendingModel::DepNotReady { dep } => "dep "@ + dep.text() + " not ready"@,
            PendingModel::ContainerStarted => "container started"@,
            PendingModel::Reprobing => "reprobing"@,
            PendingModel::Unchecked => "unchecked"@,
        }
    }

    /// The reason alone.
    pub open spec fn short(self) -> Str {
        match self {
            PendingModel::DepRecovered { .. } => "dep recovered"@,
            PendingModel::DepNotReady { .. } => "dep not ready"@,
            PendingModel::ContainerStarted => "container started"@,
            PendingModel::Reprobing => "reprobing"@,
            PendingModel::Unchecked => "unchecked"@,
        }
    }

    /// The probe that is the cause.
    pub open spec fn cause(self) -> Option<Str> {
        match self {
            PendingModel::DepRecovered { dep } => Some(dep.text()),
            PendingModel::DepNotReady { dep } => Some(dep.text()),
            _ => None,
        }
    }
}

impl PendingReason {
    /// The reason with the probe that is its cause.
    pub fn display(&self) -> (r: String)
        ensures
            r@ == self.deep_view().display(),
    {
        match self {
            PendingReason::DepRecovered { dep } => cat3(
                "dep ",
                dep.to_string().as_str(),
                " recovered",
            ),
            PendingReason::DepNotReady { dep } => cat3(
                "dep ",
                dep.to_string().as_str(),
                " not ready",
            ),
            PendingReason::ContainerStarted => "container started".to_owned(),
            PendingReason::Reprobing => "reprobing".to_owned(),
            PendingReason::Unchecked => "unchecked".to_owned(),
        }
    }

    /// The reason alone.
    pub fn short_display(&self) -> (r: &'static str)
        ensures
            r@ == self.deep_view().short(),
    {
        match self {
            PendingReason::DepRecovered { .. } => "dep recovered",
            PendingReason::DepNotReady { .. } => "dep not ready",
            PendingReason::ContainerStarted => "container started",
            PendingReason::Reprobing => "reprobing",
            PendingReason::Unchecked => "unchecked",
        }
    }

    /// The probe that is the cause.
    pub fn detail(&self) -> (r: Option<String>)
        ensures
            r.deep_view() == self.deep_view().cause(),
    {
        match self {
            PendingReason::DepRecovered { dep } => Some(dep.to_string()),
            PendingReason::DepNotReady { dep } => Some(dep.to_string()),
            _ => None,
        }
    }
}

/// A probe's state without the reason.
#[derive(Debug, Clone, Copy, PartialEq, Eq, Structural)]
pub enum ProbeColor {
    Green,
    Red,
    Pending,
}

impl ProbeColor {
    /// The name of the color.
    pub open spec fn text(self) -> Str {
        match self {
            ProbeColor::Green => "green"@,
            ProbeColor::Red => "red"@,
            ProbeColor::Pending => "pending"@,
        }
    }

    /// The name of the color.
    pub fn as_str(&self) -> (r: &'static str)
        ensures
            r@ == self.text(),
    {
        match self {
            ProbeColor::Green => "green",
            ProbeColor::Red => "red",
            ProbeColor::Pending => "pending",
        }
    }
}

impl StateModel {
    /// The state without the reason.
    pub open spec fn color(self) -> ProbeColor {
        match self {
            StateModel::Green => ProbeColor::Green,
            StateModel::Red(_) => ProbeColor::Red,
            StateModel::Pending(_) => ProbeColor::Pending,
        }
    }

    /// The name of the state.
    pub open spec fn text(self) -> Str {
        self.color().text()
    }

    /// Whether the probe's own check failed.
    pub open spec fn probe_failed(self) -> bool {
        self matches StateModel::Red(r) && r is ProbeFailed
    }

    /// The reason with its cause. Green has none.
    pub open spec fn reason(self) -> Option<Str> {
        match self {
            StateModel::Green => None,
            StateModel::Red(r) => Some(r.display()),
            StateModel::Pending(r) => Some(r.display()),
        }
    }

    /// The reason alone. Green has none.
    pub open spec fn short_reason(self) -> Option<Str> {
        match self {
            StateModel::Green => None,
            StateModel::Red(r) => Some(r.short()),
            StateModel::Pending(r) => Some(r.short()),
        }
    }

    /// The cause of the reason. Green has none.
    pub open spec fn cause(self) -> Option<Str> {
        match self {
            StateModel::Green => None,
            StateModel::Red(r) => r.cause(),
            StateModel::Pending(r) => r.cause(),
        }
    }
}

impl ProbeState {
    /// The reason with its cause. Green has none.
    pub fn reason(&self) -> (r: Option<String>)
        ensures
            r.deep_view() == self.deep_view().reason(),
    {
        match self {
            ProbeState::Green => None,
            ProbeState::Red(r) => Some(r.display()),
            ProbeState::Pending(r) => Some(r.display()),
        }
    }

    /// The reason alone. Green has none.
    pub fn short_reason(&self) -> (r: Option<&'static str>)
        ensures
            match r {
                Some(t) => self.deep_view().short_reason() == Some(t@),
                None => self.deep_view().short_reason() is None,
            },
    {
        match self {
            ProbeState::Green => None,
            ProbeState::Red(r) => Some(r.short_display()),
            ProbeState::Pending(r) => Some(r.short_display()),
        }
    }

    /// The cause of the reason. Green has none.
    pub fn state_detail(&self) -> (r: Option<String>)
        ensures
            r.deep_view() == self.deep_view().cause(),
    {
        match self {
            ProbeState::Green => None,
            ProbeState::Red(r) => r.detail(),
            ProbeState::Pending(r) => r.detail(),
        }
    }

    /// The name of the state.
    pub fn as_str(&self) -> (r: &'static str)
        ensures
            r@ == self.deep_view().text(),
    {
        self.color().as_str()
    }

    /// The state without the reason.
    pub fn color(&self) -> (r: ProbeColor)
        ensures
            r == self.deep_view().color(),
    {
        match self {
            ProbeState::Green => ProbeColor::Green,
            ProbeState::Red(_) => ProbeColor::Red,
            ProbeState::Pending(_) => ProbeColor::Pending,
        }
    }

    /// Whether the probe is green.
    pub fn is_green(&self) -> (r: bool)
        ensures
            r == (self.deep_view() is Green),
    {
        match self {
            ProbeState::Green => true,
            _ => false,
        }
    }

    /// Whether the probe is red.
    pub fn is_red(&self) -> (r: bool)
        ensures
            r == (self.deep_view() is Red),
    {
        match self {
            ProbeState::Red(_) => true,
            _ => false,
        }
    }

    /// Whether the probe awaits a check.
    pub fn is_pending(&self) -> (r: bool)
        ensures
            r == (self.deep_view() is Pending),
    {
        match self {
            ProbeState::Pending(_) => true,
            _ => false,
        }
    }

    /// Whether the probe's own check failed.
    pub fn is_probe_failed(&self) -> (r: bool)
        ensures
            r == self.deep_view().probe_failed(),
    {
        match self {
            ProbeState::Red(RedReason::ProbeFailed(_)) => true,
            _ => false,
        }
    }
}

} // verus!
