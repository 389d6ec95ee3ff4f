//! The state of gantry while it runs.
use crate::config::{ConfigModel, GantryConfig};
use crate::events::{Event, EventModel};
use crate::graph::{DependencyGraph, GraphModel};
use crate::ops::OpLock;
use crate::runtime::{RuntimeState, Services, ServicesModel, Targets, TargetsModel};
use crate::text::Str;
use vstd::prelude::*;

verus! {

/// The state of gantry while it runs.
pub struct AppState {
    pub config: GantryConfig,
    pub graph: DependencyGraph,
    pub services: Services,
    pub targets: Targets,
    pub op_lock: OpLock,
    /// The events that are still to be sent out.
    pub events: Vec<Event>,
}

/// The model of an [`AppState`].
#[verifier::ext_equal]
pub struct AppModel {
    pub config: ConfigModel,
    pub graph: GraphModel,
    pub services: ServicesModel,
    pub targets: TargetsModel,
    pub current_op: Option<Str>,
    pub events: Seq<EventModel>,
}

impl DeepView for AppState {
    type V = AppModel;

    open spec fn deep_view(&self) -> AppModel {
        AppModel {
            config: self.config.deep_view(),
            graph: self.graph.deep_view(),
            services: self.services.deep_view(),
            targets: self.targets.deep_view(),
            current_op: self.op_lock.deep_view(),
            events: self.events.deep_view(),
        }
    }
}

impl AppState {
    /// The parts are in order.
    pub open spec fn wf(&self) -> bool {
        &&& self.config.wf()
        &&& self.graph.wf()
        &&& self.services.wf()
        &&& self.targets.wf()
    }

    /// The state at the start.
    pub fn new(config: GantryConfig, graph: DependencyGraph, runtime: RuntimeState) -> (r: Self)
        requires
            config.wf(),
            graph.wf(),
            runtime.services.wf(),
            runtime.targets.wf(),
        ensures
            r.wf(),
            r.deep_view() == (AppModel {
                config: config.deep_view(),
                graph: graph.deep_view(),
                services: runtime.services.deep_view(),
                targets: runtime.targets.deep_view(),
                current_op: None,
                events: Seq::empty(),
            }),
    {
        let r = AppState {
            config,
            graph,
            services: runtime.services,
            targets: runtime.targets,
            op_lock: OpLock::new(),
            events: Vec::new(),
        };
        assert(r.deep_view().events =~= Seq::<EventModel>::empty());
        r
    }

    /// Takes the events that are still to be sent out.
    pub fn take_events(&mut self) -> (r: Vec<Event>)
        requires
            old(self).wf(),
        ensures
            final(self).wf(),
            r.deep_view() == old(self).deep_view().events,
            final(self).deep_view() == (AppModel {
                events: Seq::empty(),
                ..old(self).deep_view()
            }),
    {
        let mut out: Vec<Event> = Vec::new();
        std::mem::swap(&mut out, &mut self.events);
        assert(self.deep_view().events =~= Seq::<EventModel>::empty());
        out
    }

    /// Adds an event to those that are to be sent out.
    pub fn emit(&mut self, event: Event)
        requires
            old(self).wf(),
        ensures
            final(self).wf(),
            final(self).deep_view() == (AppModel {
                events: old(self).deep_view().events.push(event.deep_view()),
                ..old(self).deep_view()
            }),
    {
        let ghost before = self.events.deep_view();
        let ghost m = event.deep_view();
        self.events.push(event);
        assert(self.events.deep_view() =~= before.push(m));
    }
}

} // verus!
