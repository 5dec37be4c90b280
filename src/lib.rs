//! Closed-loop bicycle route planning over a street network.
//!
//! The library compiles a routable graph out of way geometry, searches it with
//! A*, orders waypoints into a loop, expands the loop into a dense polyline and
//! decides whether a candidate route is acceptable.

pub mod graph;
pub mod network;
pub mod router;
pub mod postprocessor;
pub mod preprocessor;
pub mod acceptance;
pub mod classify;
