//! The diagnostics collection interface: an arbitrary metadata payload used
//! to analyze and diagnose the engine's behavior, gathered through a
//! collector passed by the surrounding build.

use vstd::prelude::*;

verus! {

use crate::primitives::StringVc;

/// An arbitrary metadata payload for diagnosis, as its producers implement
/// it.
pub trait Diagnostics {
    /// The category of the payload.
    fn category(&self) -> StringVc;

    /// The key of the payload within its category.
    fn key(&self) -> StringVc;

    /// The payload itself.
    fn value(&self) -> StringVc;
}

/// A resolved diagnostic payload, ready to be collected.
pub struct DiagnosticsVc {
    pub category: std::string::String,
    pub key: std::string::String,
    pub value: std::string::String,
}

/// The diagnostics captured from a computation.
pub struct CapturedDiagnostics {
    pub diagnostics: Vec<DiagnosticsVc>,
}

impl CapturedDiagnostics {
    /// An empty collection.
    pub fn new() -> (r: Self)
        ensures
            r.diagnostics@.len() == 0,
    {
        CapturedDiagnostics { diagnostics: Vec::new() }
    }
}

impl DiagnosticsVc {
    /// Emits the diagnostic into the collector, appending it after
    /// everything already captured.
    pub fn emit(self, sink: &mut CapturedDiagnostics)
        ensures
            final(sink).diagnostics@ == old(sink).diagnostics@.push(self),
    {
        sink.diagnostics.push(self);
    }
}

} // verus!
