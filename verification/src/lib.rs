//! Dependency-aware startup and health probing for docker compose.
pub mod acyclic;
pub mod app_state;
pub mod apply;
pub mod apply_laws;
pub mod batch;
pub mod batch_laws;
pub mod cascade_laws;
pub mod check_laws;
pub mod cli;
pub mod config;
pub mod converge;
pub mod converge_laws;
pub mod digraph;
pub mod display;
pub mod display_laws;
pub mod docker;
pub mod duration;
pub mod emit;
pub mod error;
pub mod event_laws;
pub mod events;
pub mod generator;
pub mod graph;
pub mod graph_json;
pub mod graph_laws;
pub mod health;
pub mod health_laws;
pub mod health_start;
pub mod json;
pub mod json_laws;
pub mod json_text;
pub mod keeps;
pub mod lifecycle;
pub mod lifecycle_laws;
pub mod meta_laws;
pub mod model;
pub mod names;
pub mod ops;
pub mod order_laws;
pub mod ordered_map;
pub mod plan;
pub mod prepare;
pub mod probe;
pub mod probe_laws;
pub mod probe_log;
pub mod probe_meta;
pub mod probe_tcp;
pub mod propagate;
pub mod propagate_laws;
pub mod recovery_laws;
pub mod reprobe;
pub mod resolve;
pub mod round_laws;
pub mod routes;
pub mod runtime;
pub mod service_laws;
pub mod settle_laws;
pub mod start;
pub mod startup;
pub mod step_laws;
pub mod targets;
pub mod tell_laws;
pub mod text;
pub mod text_laws;
pub mod view_laws;
pub mod views;
pub mod walk_laws;
