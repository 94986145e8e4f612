//! Template generation engine driven by a small semantic triple store.
//!
//! A domain description is loaded into a [`store::Store`] of facts, which
//! [`query::evaluate`] searches with triple patterns. A template
//! ([`template::parse`]) names queries in its frontmatter, and
//! [`render::render`] binds their results and the variables into its body
//! and its output path. Phases with dependencies form a
//! [`lifecycle::Schedule`], which [`engine::run_schedule`] runs in order,
//! rendering the templates of each `Generate` phase.
//!
//! Beside the engine stand a greeter ([`hello`]) and the parts of a
//! completion service and of an agent client that need no network
//! ([`service`], [`providers`]).

pub mod config;
pub mod engine;
pub mod filters;
pub mod graph;
pub mod hello;
pub mod lifecycle;
pub mod providers;
pub mod query;
pub mod query_laws;
pub mod render;
pub mod run;
pub mod service;
pub mod store;
pub mod template;
pub mod text;
