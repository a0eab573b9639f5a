//! The control logic of a small-parts sorter: a delta robot picks parts off a
//! conveyor belt under a camera and drops each into the bin of its class.
//!
//! The library decides and computes; it does no input or output. Times are
//! nanoseconds, numbers with a fraction are IEEE 754 bit patterns, and what a
//! device is to be told or has answered is a plain value.
pub mod app_config;
pub mod calls;
pub mod float;
pub mod hardware;
pub mod orchestrator;
pub mod panel;
pub mod picking;
pub mod planning;
pub mod rules;
pub mod safety;
pub mod text;
pub mod vision;
