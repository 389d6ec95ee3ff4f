//! Turns the definition of a setup into what docker compose and gantry read.
pub mod compose;
pub mod files;
pub mod gantry_yaml;
pub mod read_laws;
pub mod schema;
pub mod setup_laws;
pub mod template;
pub mod template_laws;
pub mod validate;
pub mod yaml;
