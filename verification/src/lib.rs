//! Worklog core: block inference, minute ownership, overlap detection,
//! estimator input hygiene, and the small parsers around them.
pub mod instant;
pub mod text;
pub mod git;
pub mod estimate;
pub mod sources;
pub mod infer;
pub mod carry;
pub mod models;
pub mod paths;
pub mod personal;
pub mod daemon_service;
pub mod hook;
pub mod overlaps;
pub mod api;
pub mod order;
pub mod lanes;
pub mod day_blocks;
pub mod purge;
pub mod pattern;
pub mod summary;
pub mod routing;
pub mod envfile;
pub mod settings;
pub mod http;
pub mod db;
pub mod allocations;
pub mod snippets;
pub mod ticket_cuts;
