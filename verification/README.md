# gantry

Dependency-aware startup and health probing for docker compose, as a library that is verified
with [Verus](https://github.com/verus-lang/verus), and a program around it.

Services are described in a configuration: the container of each one, the probes that tell
whether it is usable, which probes it starts after, and which other probes a probe depends on.
Targets name the probes that have to be green. Gantry starts services in order, checks their
probes, passes red and green on along the dependencies, and brings targets to green.

## Layout

- `src/` is the library. Every function states what it returns or changes, and Verus proves it.
  - `config`, `duration`, `prepare`: the configuration, made complete and put in order.
  - `graph`, `digraph`, `plan`, `acyclic`: the dependencies, on top of `petgraph`.
  - `model`, `runtime`, `display`, `targets`: probes, services and targets, and how they are
    shown.
  - `propagate`, `apply`, `batch`, `resolve`, `probe_meta`: how the outcome of a check changes
    its probe and those that depend on it.
  - `start`, `lifecycle`, `reprobe`, `converge`, `startup`, `ops`: the operations. Each one is
    split where docker or the network has to be waited for.
  - `probe`, `probe_tcp`, `probe_log`, `docker`: the decisions of a check.
  - `events`, `emit`, `views`, `graph_json`, `routes`, `cli`, `json`, `json_text`: what is told.
  - `generator`: docker-compose.yml and gantry.yaml from an exported setup. Its `template` reads
    the tags of a template and tells which ones can be filled in.
  - `order_laws`, `meta_laws`, `propagate_laws`, `settle_laws`, `lifecycle_laws`, `cascade_laws`,
    `converge_laws`, `keeps`, `health`, `health_laws`, `health_start`: what holds of the
    operations together. The last three show that a probe is green only while its service runs
    and all that it depends on is green. `settle_laws` shows that a batch of outcomes is applied
    until nothing changes any more.
- `tests/` holds tests of the library.
- `app/` is the program: docker, HTTP, files and timers.

What the library takes from other crates without a proof is marked `external_body`, each with a
comment that says what is claimed.
