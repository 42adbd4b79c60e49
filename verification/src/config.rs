//! The configuration record the driver reads: calendars to open when none
//! are given, and a default window token.

use vstd::prelude::*;

verus! {

/// The recognized configuration options.
#[derive(Debug)]
pub struct Config {
    /// Paths of the calendar files to open when none are named.
    pub cals: Vec<String>,
    /// The default window token (`day`, `week`, `month` or `all`).
    pub period: String,
}

impl Config {
    /// An empty configuration: no calendars, no default window.
    pub fn new() -> (r: Config)
        ensures
            r.cals@.len() == 0,
            r.period@ == Seq::<char>::empty(),
    {
        Config { cals: Vec::new(), period: String::new() }
    }
}

} // verus!
