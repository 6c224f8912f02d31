//! The run-control settings that the simulation loop itself reads: how many
//! events to generate and where the output goes. The physics parameters
//! travel with the geometry and sampling collaborators that consume them.

use vstd::prelude::*;

verus! {

/// Run-control settings, with optional command-line overrides applied
/// before the event loop starts.
#[derive(Debug, Clone)]
pub struct SimConfig {
    pub n_events: usize,
    pub output: String,
}

impl SimConfig {
    /// Replaces the event count, keeping the output path.
    pub fn override_n_events(self, n_events: usize) -> (c: Self)
        ensures
            c.n_events == n_events,
            c.output@ == self.output@,
    {
        Self { n_events, ..self }
    }

    /// Replaces the output path, keeping the event count.
    pub fn override_output(self, output: String) -> (c: Self)
        ensures
            c.output@ == output@,
            c.n_events == self.n_events,
    {
        Self { output, ..self }
    }

    /// Applies the optional overrides: each given value replaces the
    /// configured one, each absent value leaves it.
    pub fn overrides(self, n_events: Option<usize>, output: Option<String>) -> (c: Self)
        ensures
            c.n_events == match n_events {
                Some(n) => n,
                None => self.n_events,
            },
            c.output@ == match output {
                Some(p) => p@,
                None => self.output@,
            },
    {
        let conf = self;
        let conf = match n_events {
            Some(n) => conf.override_n_events(n),
            None => conf,
        };
        let conf = match output {
            Some(p) => conf.override_output(p),
            None => conf,
        };
        conf
    }
}

} // verus!
