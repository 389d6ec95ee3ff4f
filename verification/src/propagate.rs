//! How a change of one probe reaches the probes that depend on it.
use crate::graph::{lemma_targets, DependencyGraph, Layer};
use crate::digraph::targets_of;
use crate::model::{
    parse_ref, PendingModel, PendingReason, ProbeRef, ProbeState, RedModel, RedReason, RefModel,
    ServiceState, StateModel,
};
use crate::names::{lemma_unseen_less, unseen, with_name, NameSet};
use crate::runtime::{
    find_probe, probe_at, probe_is_red, probe_mut, red_at, set_probe, ProbeModel, Services,
    ServicesModel,
};
use crate::text::{text_eq, Str};
use vstd::prelude::*;

verus! {

/// A change of a probe: the probe, its new state and its former one.
pub type Change = (ProbeRef, ProbeState, ProbeState);

/// The model of a [`Change`].
pub type ChangeModel = (RefModel, StateModel, StateModel);

/// How far a walk along the dependents of a probe has come.
#[verifier::ext_equal]
pub struct Walk {
    /// The keys whose dependents are still to be visited.
    pub queue: Seq<Str>,
    /// The keys that were met.
    pub visited: Seq<Str>,
    /// The keys that count as red for their dependents.
    pub red: Seq<Str>,
    pub services: ServicesModel,
    pub changes: Seq<ChangeModel>,
}

/// The names to which edges lead are names of nodes.
pub proof fn lemma_next_nodes(g: Layer, name: Str)
    requires
        g.nodes.len() <= u32::MAX,
        g.closed_edges(),
    ensures
        forall|i: int| 0 <= i < g.next(name).len() ==> g.nodes.contains(#[trigger] g.next(name)[i]),
{
    if g.has(name) {
        let node = g.node(name);
        lemma_targets(g.edges, node, g.nodes.len());
        assert forall|i: int| 0 <= i < g.next(name).len() implies g.nodes.contains(
            #[trigger] g.next(name)[i],
        ) by {
            assert(targets_of(g.edges, node)[i] < g.nodes.len());
        }
    }
}

/// The state that a dependent takes on: red behind a red probe, else pending.
pub open spec fn passed_on(from: Str, from_red: bool) -> StateModel {
    let dep = parse_ref(from)->0;
    if from_red {
        StateModel::Red(RedModel::DepRed { dep })
    } else {
        StateModel::Pending(PendingModel::DepNotReady { dep })
    }
}

/// A probe that is moved to a new state.
pub open spec fn moved(p: ProbeModel, state: StateModel) -> ProbeModel {
    ProbeModel { state, prev_color: Some(p.state.color()), ..p }
}

/// A walk after the dependent `key` of `from` was visited, while a change of `from` is
/// passed on. Only a green dependent is touched, and behind a red probe a pending one. If
/// its service does not run, it keeps its state, and the walk goes on behind it.
pub open spec fn visit_pending(g: Layer, w: Walk, from: Str, key: Str) -> Walk {
    if w.visited.contains(key) || !g.nodes.contains(key) {
        w
    } else {
        let seen = Walk { visited: w.visited.push(key), ..w };
        let from_red = w.red.contains(from);
        match parse_ref(key) {
            None => seen,
            Some(r) => match probe_at(w.services, r) {
                None => seen,
                Some(p) => if p.state is Green || (from_red && p.state is Pending) {
                    let running = w.services.at(r.service).state is Running;
                    let state = passed_on(from, from_red);
                    Walk {
                        queue: w.queue.push(key),
                        visited: w.visited.push(key),
                        red: if from_red {
                            with_name(w.red, key)
                        } else {
                            w.red
                        },
                        services: if running {
                            set_probe(w.services, r, moved(p, state))
                        } else {
                            w.services
                        },
                        changes: if running {
                            w.changes.push((r, state, p.state))
                        } else {
                            w.changes
                        },
                    }
                } else {
                    seen
                },
            },
        }
    }
}

/// A walk to its end: first the dependents `next` of `from`, then those of each queued key.
pub open spec fn walk_pending(g: Layer, w: Walk, from: Str, next: Seq<Str>) -> Walk
    decreases unseen(g.nodes, w.visited), w.queue.len(), next.len(),
{
    if next.len() > 0 {
        proof {
            if !w.visited.contains(next[0]) && g.nodes.contains(next[0]) {
                lemma_unseen_less(g.nodes, w.visited, next[0]);
            }
        }
        walk_pending(g, visit_pending(g, w, from, next[0]), from, next.drop_first())
    } else if w.queue.len() > 0 {
        walk_pending(
            g,
            Walk { queue: w.queue.drop_first(), ..w },
            w.queue[0],
            g.next(w.queue[0]),
        )
    } else {
        w
    }
}

/// A walk at its start.
pub open spec fn start_walk(
    key: Str,
    red: bool,
    services: ServicesModel,
    changes: Seq<ChangeModel>,
) -> Walk {
    Walk {
        queue: seq![key],
        visited: seq![key],
        red: if red {
            seq![key]
        } else {
            Seq::empty()
        },
        services,
        changes,
    }
}

/// The services and the changes after a change of the probe `key` is passed on to its
/// dependents.
pub open spec fn pending_result(
    g: Layer,
    key: Str,
    services: ServicesModel,
    changes: Seq<ChangeModel>,
) -> Walk {
    let red = parse_ref(key) is Some && red_at(services, parse_ref(key)->0);
    walk_pending(g, start_walk(key, red, services, changes), Seq::empty(), Seq::empty())
}

impl DependencyGraph {
    /// Passes a change of a probe on to its dependents: red behind a red probe, else
    /// pending. Touches green dependents, and behind a red probe pending ones.
    pub fn propagate_pending(
        &self,
        probe_key: &str,
        services: &mut Services,
        changes: &mut Vec<Change>,
    )
        requires
            self.wf(),
            old(services).wf(),
            parse_ref(probe_key@) is Some,
        ensures
            final(services).wf(),
            ({
                let w = pending_result(
                    self.deep_view().probes,
                    probe_key@,
                    old(services).deep_view(),
                    old(changes).deep_view(),
                );
                final(services).deep_view() == w.services && final(changes).deep_view()
                    == w.changes
            }),
    {
        let ghost g = self.deep_view().probes;
        let mut queue: Vec<String> = Vec::new();
        let mut head: usize = 0;
        let mut visited = NameSet::new();
        let mut red = NameSet::new();
        queue.push(probe_key.to_owned());
        visited.insert(probe_key);
        if let Some(r) = ProbeRef::parse(probe_key) {
            if probe_is_red(services, &r) {
                red.insert(probe_key);
            }
        }
        let ghost done = pending_result(
            g,
            probe_key@,
            old(services).deep_view(),
            old(changes).deep_view(),
        );
        proof {
            self.lemma_valid();
            assert(Seq::<Str>::empty().push(probe_key@) =~= seq![probe_key@]);
            assert(queue.deep_view().skip(0) =~= seq![probe_key@]);
        }
        while head < queue.len()
            invariant
                self.wf(),
                g == self.deep_view().probes,
                g.nodes.len() <= u32::MAX,
                g.closed_edges(),
                services.wf(),
                visited.wf(),
                red.wf(),
                head <= queue.len(),
                forall|i: int|
                    0 <= i < queue.len() ==> parse_ref(#[trigger] queue.deep_view()[i]) is Some
                        && visited.deep_view().contains(queue.deep_view()[i]),
                done == walk_pending(
                    g,
                    Walk {
                        queue: queue.deep_view().skip(head as int),
                        visited: visited.deep_view(),
                        red: red.deep_view(),
                        services: services.deep_view(),
                        changes: changes.deep_view(),
                    },
                    Seq::empty(),
                    Seq::empty(),
                ),
            decreases unseen(g.nodes, visited.deep_view()), queue.len() - head,
        {
            let current = queue[head].clone();
            assert(queue.deep_view()[head as int] == current@);
            let ghost rest = queue.deep_view().skip(head as int);
            assert(rest[0] == current@);
            assert(rest.drop_first() =~= queue.deep_view().skip(head + 1));
            let ghost seen_before = visited.deep_view();
            let ghost left_before = queue.len() - head;
            head = head + 1;
            let source_is_red = red.contains(current.as_str());
            let current_ref = ProbeRef::parse(current.as_str()).unwrap();
            let next = self.reverse_depends_on(current.as_str());
            let ghost names = next.deep_view();
            proof {
                lemma_next_nodes(g, current@);
                assert(names.skip(0) =~= names);
            }
            let mut j: usize = 0;
            while j < next.len()
                invariant
                    self.wf(),
                    g == self.deep_view().probes,
                    services.wf(),
                    visited.wf(),
                    red.wf(),
                    names == next.deep_view(),
                    forall|i: int| 0 <= i < names.len() ==> g.nodes.contains(#[trigger] names[i]),
                    j <= next.len(),
                    head <= queue.len(),
                    forall|i: int|
                        0 <= i < queue.len() ==> parse_ref(#[trigger] queue.deep_view()[i]) is Some
                            && visited.deep_view().contains(queue.deep_view()[i]),
                    parse_ref(current@) == Some(current_ref.deep_view()),
                    visited.deep_view().contains(current@),
                    source_is_red == red.deep_view().contains(current@),
                    unseen(g.nodes, visited.deep_view()) <= unseen(g.nodes, seen_before),
                    unseen(g.nodes, visited.deep_view()) == unseen(g.nodes, seen_before)
                        ==> queue.len() - head < left_before,
                    done == walk_pending(
                        g,
                        Walk {
                            queue: queue.deep_view().skip(head as int),
                            visited: visited.deep_view(),
                            red: red.deep_view(),
                            services: services.deep_view(),
                            changes: changes.deep_view(),
                        },
                        current@,
                        names.skip(j as int),
                    ),
                decreases next.len() - j,
            {
                let key = next[j].as_str();
                assert(names[j as int] == key@);
                let ghost w = Walk {
                    queue: queue.deep_view().skip(head as int),
                    visited: visited.deep_view(),
                    red: red.deep_view(),
                    services: services.deep_view(),
                    changes: changes.deep_view(),
                };
                let ghost queue_before = queue.deep_view();
                proof {
                    assert(names.skip(j as int)[0] == key@);
                    assert(names.skip(j as int).drop_first() =~= names.skip(j + 1));
                    if !w.visited.contains(key@) {
                        lemma_unseen_less(g.nodes, w.visited, key@);
                    }
                    crate::names::lemma_with_name(w.visited, key@);
                    crate::names::lemma_with_name(w.red, key@);
                }
                if visited.insert(key) {
                    if let Some(r) = ProbeRef::parse(key) {
                        let state_now = match find_probe(services, &r) {
                            Some(p) => Some(p.state.clone()),
                            None => None,
                        };
                        if let Some(prev) = state_now {
                            if prev.is_green() || (source_is_red && prev.is_pending()) {
                                let running = match services.get(r.service.as_str()) {
                                    Some(svc) => svc.state == ServiceState::Running,
                                    None => false,
                                };
                                if running {
                                    let state = if source_is_red {
                                        ProbeState::Red(
                                            RedReason::DepRed { dep: current_ref.clone() },
                                        )
                                    } else {
                                        ProbeState::Pending(
                                            PendingReason::DepNotReady { dep: current_ref.clone() },
                                        )
                                    };
                                    let p = probe_mut(services, &r);
                                    p.prev_color = Some(prev.color());
                                    p.state = state.clone();
                                    let ghost changes_before = changes.deep_view();
                                    let ghost change = (
                                        r.deep_view(),
                                        state.deep_view(),
                                        prev.deep_view(),
                                    );
                                    changes.push((r, state, prev));
                                    assert(changes.deep_view() =~= changes_before.push(change));
                                }
                                if source_is_red {
                                    red.insert(key);
                                }
                                queue.push(next[j].clone());
                                assert(queue.deep_view() =~= queue_before.push(key@));
                                assert(queue.deep_view().skip(head as int) =~= w.queue.push(key@));
                            }
                        }
                    }
                }
                proof {
                    let now = Walk {
                        queue: queue.deep_view().skip(head as int),
                        visited: visited.deep_view(),
                        red: red.deep_view(),
                        services: services.deep_view(),
                        changes: changes.deep_view(),
                    };
                    assert(now =~= visit_pending(g, w, current@, key@));
                }
                j = j + 1;
            }
            assert(names.skip(j as int) =~= Seq::<Str>::empty());
        }
        assert(queue.deep_view().skip(head as int) =~= Seq::<Str>::empty());
    }
}

/// What a reference is written as can be read.
pub proof fn lemma_text_parses(r: RefModel)
    ensures
        parse_ref(r.text()) is Some,
{
    let s = r.text();
    s.index_of_first_ensures('.');
    assert(s[r.service.len() as int] == '.');
}

/// Whether one of some probes, other than `from`, is red.
pub open spec fn other_red(s: ServicesModel, deps: Seq<RefModel>, from: Str) -> bool {
    exists|i: int|
        0 <= i < deps.len() && (#[trigger] deps[i]).text() != from && red_at(s, deps[i])
}

fn has_other_red(services: &Services, deps: &Vec<ProbeRef>, from: &str) -> (r: bool)
    requires
        services.wf(),
    ensures
        r == other_red(services.deep_view(), deps.deep_view(), from@),
{
    let mut i: usize = 0;
    while i < deps.len()
        invariant
            services.wf(),
            i <= deps.len(),
            forall|j: int|
                0 <= j < i ==> !((#[trigger] deps.deep_view()[j]).text() != from@ && red_at(
                    services.deep_view(),
                    deps.deep_view()[j],
                )),
        decreases deps.len() - i,
    {
        if !text_eq(deps[i].to_string().as_str(), from) && probe_is_red(services, &deps[i]) {
            assert(deps.deep_view()[i as int].text() != from@);
            return true;
        }
        i = i + 1;
    }
    false
}

/// A walk after the dependent `key` of `from` was visited, while a recovery of `from` is
/// passed on. A dependent that awaits its check, that failed by itself, whose service does
/// not run, or that has another red dependency is passed over.
pub open spec fn visit_recovery(g: Layer, w: Walk, from: Str, key: Str) -> Walk {
    if w.visited.contains(key) || !g.nodes.contains(key) {
        w
    } else {
        let seen = Walk { visited: w.visited.push(key), ..w };
        match parse_ref(key) {
            None => seen,
            Some(r) => match probe_at(w.services, r) {
                None => seen,
                Some(p) => if p.state is Pending || p.state.probe_failed() || !(w.services.at(
                    r.service,
                ).state is Running) || other_red(w.services, p.depends_on, from) {
                    seen
                } else {
                    let state = StateModel::Pending(
                        PendingModel::DepRecovered { dep: parse_ref(from)->0 },
                    );
                    Walk {
                        queue: w.queue.push(key),
                        visited: w.visited.push(key),
                        red: w.red,
                        services: set_probe(w.services, r, moved(p, state)),
                        changes: w.changes.push((r, state, p.state)),
                    }
                },
            },
        }
    }
}

/// A walk to its end: first the dependents `next` of `from`, then those of each queued key.
pub open spec fn walk_recovery(g: Layer, w: Walk, from: Str, next: Seq<Str>) -> Walk
    decreases unseen(g.nodes, w.visited), w.queue.len(), next.len(),
{
    if next.len() > 0 {
        proof {
            if !w.visited.contains(next[0]) && g.nodes.contains(next[0]) {
                lemma_unseen_less(g.nodes, w.visited, next[0]);
            }
        }
        walk_recovery(g, visit_recovery(g, w, from, next[0]), from, next.drop_first())
    } else if w.queue.len() > 0 {
        walk_recovery(
            g,
            Walk { queue: w.queue.drop_first(), ..w },
            w.queue[0],
            g.next(w.queue[0]),
        )
    } else {
        w
    }
}

/// The services and the changes after the recovery of the probe `key` is passed on to its
/// dependents.
pub open spec fn recovery_result(
    g: Layer,
    key: Str,
    services: ServicesModel,
    changes: Seq<ChangeModel>,
) -> Walk {
    walk_recovery(g, start_walk(key, false, services, changes), Seq::empty(), Seq::empty())
}

/// The services and the changes after a probe is marked red.
pub open spec fn mark_red_result(
    g: Layer,
    r: RefModel,
    services: ServicesModel,
    changes: Seq<ChangeModel>,
) -> Walk {
    match probe_at(services, r) {
        None => pending_result(g, r.text(), services, changes),
        Some(p) => {
            let state = StateModel::Red(RedModel::DepRed { dep: r });
            pending_result(
                g,
                r.text(),
                set_probe(services, r, moved(p, state)),
                changes.push((r, state, p.state)),
            )
        },
    }
}

impl DependencyGraph {
    /// Marks a probe red and passes that on to its dependents.
    pub fn mark_red(&self, probe_ref: &ProbeRef, services: &mut Services, changes: &mut Vec<Change>)
        requires
            self.wf(),
            old(services).wf(),
        ensures
            final(services).wf(),
            ({
                let w = mark_red_result(
                    self.deep_view().probes,
                    probe_ref.deep_view(),
                    old(services).deep_view(),
                    old(changes).deep_view(),
                );
                final(services).deep_view() == w.services && final(changes).deep_view()
                    == w.changes
            }),
    {
        let key = probe_ref.to_string();
        proof {
            lemma_text_parses(probe_ref.deep_view());
        }
        let state_now = match find_probe(services, probe_ref) {
            Some(p) => Some(p.state.clone()),
            None => None,
        };
        if let Some(prev) = state_now {
            let state = ProbeState::Red(RedReason::DepRed { dep: probe_ref.clone() });
            let p = probe_mut(services, probe_ref);
            p.prev_color = Some(prev.color());
            p.state = state.clone();
            let ghost before = changes.deep_view();
            let ghost change = (probe_ref.deep_view(), state.deep_view(), prev.deep_view());
            changes.push((probe_ref.clone(), state, prev));
            assert(changes.deep_view() =~= before.push(change));
        }
        self.propagate_pending(key.as_str(), services, changes);
    }

    /// Passes the recovery of a probe on: its dependents await a new check, unless they
    /// await one already, failed by themselves, do not run or have another red dependency.
    pub fn propagate_recovery(
        &self,
        probe_key: &str,
        services: &mut Services,
        changes: &mut Vec<Change>,
    )
        requires
            self.wf(),
            old(services).wf(),
            parse_ref(probe_key@) is Some,
        ensures
            final(services).wf(),
            ({
                let w = recovery_result(
                    self.deep_view().probes,
                    probe_key@,
                    old(services).deep_view(),
                    old(changes).deep_view(),
                );
                final(services).deep_view() == w.services && final(changes).deep_view()
                    == w.changes
            }),
    {
        let ghost g = self.deep_view().probes;
        let mut queue: Vec<String> = Vec::new();
        let mut head: usize = 0;
        let mut visited = NameSet::new();
        queue.push(probe_key.to_owned());
        visited.insert(probe_key);
        let ghost done = recovery_result(
            g,
            probe_key@,
            old(services).deep_view(),
            old(changes).deep_view(),
        );
        proof {
            self.lemma_valid();
            assert(Seq::<Str>::empty().push(probe_key@) =~= seq![probe_key@]);
            assert(queue.deep_view().skip(0) =~= seq![probe_key@]);
        }
        while head < queue.len()
            invariant
                self.wf(),
                g == self.deep_view().probes,
                g.nodes.len() <= u32::MAX,
                g.closed_edges(),
                services.wf(),
                visited.wf(),
                head <= queue.len(),
                forall|i: int|
                    0 <= i < queue.len() ==> parse_ref(#[trigger] queue.deep_view()[i]) is Some,
                done == walk_recovery(
                    g,
                    Walk {
                        queue: queue.deep_view().skip(head as int),
                        visited: visited.deep_view(),
                        red: Seq::empty(),
                        services: services.deep_view(),
                        changes: changes.deep_view(),
                    },
                    Seq::empty(),
                    Seq::empty(),
                ),
            decreases unseen(g.nodes, visited.deep_view()), queue.len() - head,
        {
            let current = queue[head].clone();
            assert(queue.deep_view()[head as int] == current@);
            let ghost rest = queue.deep_view().skip(head as int);
            assert(rest[0] == current@);
            assert(rest.drop_first() =~= queue.deep_view().skip(head + 1));
            let ghost seen_before = visited.deep_view();
            let ghost left_before = queue.len() - head;
            head = head + 1;
            let current_ref = ProbeRef::parse(current.as_str()).unwrap();
            let next = self.reverse_depends_on(current.as_str());
            let ghost names = next.deep_view();
            proof {
                lemma_next_nodes(g, current@);
                assert(names.skip(0) =~= names);
            }
            let mut j: usize = 0;
            while j < next.len()
                invariant
                    self.wf(),
                    g == self.deep_view().probes,
                    services.wf(),
                    visited.wf(),
                    names == next.deep_view(),
                    forall|i: int| 0 <= i < names.len() ==> g.nodes.contains(#[trigger] names[i]),
                    j <= next.len(),
                    head <= queue.len(),
                    forall|i: int|
                        0 <= i < queue.len() ==> parse_ref(#[trigger] queue.deep_view()[i]) is Some,
                    parse_ref(current@) == Some(current_ref.deep_view()),
                    unseen(g.nodes, visited.deep_view()) <= unseen(g.nodes, seen_before),
                    unseen(g.nodes, visited.deep_view()) == unseen(g.nodes, seen_before)
                        ==> queue.len() - head < left_before,
                    done == walk_recovery(
                        g,
                        Walk {
                            queue: queue.deep_view().skip(head as int),
                            visited: visited.deep_view(),
                            red: Seq::empty(),
                            services: services.deep_view(),
                            changes: changes.deep_view(),
                        },
                        current@,
                        names.skip(j as int),
                    ),
                decreases next.len() - j,
            {
                let key = next[j].as_str();
                assert(names[j as int] == key@);
                let ghost w = Walk {
                    queue: queue.deep_view().skip(head as int),
                    visited: visited.deep_view(),
                    red: Seq::empty(),
                    services: services.deep_view(),
                    changes: changes.deep_view(),
                };
                let ghost queue_before = queue.deep_view();
                proof {
                    assert(names.skip(j as int)[0] == key@);
                    assert(names.skip(j as int).drop_first() =~= names.skip(j + 1));
                    if !w.visited.contains(key@) {
                        lemma_unseen_less(g.nodes, w.visited, key@);
                    }
                }
                if visited.insert(key) {
                    if let Some(r) = ProbeRef::parse(key) {
                        let found = match find_probe(services, &r) {
                            Some(p) => Some(
                                (
                                    p.state.clone(),
                                    has_other_red(services, &p.depends_on, current.as_str()),
                                ),
                            ),
                            None => None,
                        };
                        if let Some((prev, blocked)) = found {
                            let running = match services.get(r.service.as_str()) {
                                Some(svc) => svc.state == ServiceState::Running,
                                None => false,
                            };
                            if !prev.is_pending() && !prev.is_probe_failed() && running && !blocked {
                                let state = ProbeState::Pending(
                                    PendingReason::DepRecovered { dep: current_ref.clone() },
                                );
                                let p = probe_mut(services, &r);
                                p.prev_color = Some(prev.color());
                                p.state = state.clone();
                                let ghost changes_before = changes.deep_view();
                                let ghost change = (
                                    r.deep_view(),
                                    state.deep_view(),
                                    prev.deep_view(),
                                );
                                changes.push((r, state, prev));
                                assert(changes.deep_view() =~= changes_before.push(change));
                                queue.push(next[j].clone());
                                assert(queue.deep_view() =~= queue_before.push(key@));
                                assert(queue.deep_view().skip(head as int) =~= w.queue.push(key@));
                            }
                        }
                    }
                }
                proof {
                    let now = Walk {
                        queue: queue.deep_view().skip(head as int),
                        visited: visited.deep_view(),
                        red: Seq::empty(),
                        services: services.deep_view(),
                        changes: changes.deep_view(),
                    };
                    assert(now =~= visit_recovery(g, w, current@, key@));
                }
                j = j + 1;
            }
            assert(names.skip(j as int) =~= Seq::<Str>::empty());
        }
        assert(queue.deep_view().skip(head as int) =~= Seq::<Str>::empty());
    }
}

} // verus!
