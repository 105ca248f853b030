//! Hot-reload execution supervisor runtime.
//!
//! A long-lived *loader* interpreter is kept alive with every third-party
//! module pre-imported; short-lived *worker* interpreters are forked from it
//! to run user callables in isolation.  This crate holds the verified core of
//! that supervisor: the import scanner's statement traversal, the import-set
//! delta tracker, the line-JSON message codec, the multiplexed-log
//! demultiplexer, the single-shot resolver, and the layer and supervisor
//! state machines.  Process and file handling around it lives outside the
//! verified library.

use vstd::prelude::*;

pub mod codec;
pub mod delta;
pub mod ids;
pub mod imports;
pub mod layer;
pub mod mux;
pub mod resolver;
pub mod scan;
pub mod script;
pub mod supervisor;
