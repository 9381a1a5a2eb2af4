use vstd::prelude::*;

verus! {

/// Log verbosity requested on the command line, from silent to loudest.
/// The caller maps it onto whatever logging backend it uses.
#[derive(Clone, Copy, PartialEq, Eq, Structural, Debug)]
pub enum Level {
    Off,
    Error,
    Warn,
    Info,
    Debug,
    Trace,
}

} // verus!
