//! Routing and matching logic of a PipeWire mixing front end.
//!
//! The library holds the parts of the application that decide things: how
//! configured strips are matched to PipeWire nodes, which links and virtual
//! devices the graph should have, how the configuration is normalised, and
//! how the default sink and source are taken over and given back.
//! Talking to PipeWire, drawing the window and reading files happen around it.
pub mod config;
pub mod config_laws;
pub mod default_routing;
pub mod device_laws;
pub mod dialog;
pub mod glob_pattern;
pub mod graph;
pub mod ipc;
pub mod links;
pub mod meter;
pub mod node_resolution;
pub mod reconcile_laws;
pub mod resolution_laws;
pub mod routing;
pub mod routing_graph;
pub mod seqs;
pub mod strips;
pub mod text;
pub mod virtual_device;
