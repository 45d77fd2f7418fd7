//! Plain configuration values of the tutorial-repository generator built
//! around the parser: which generated project a change belongs to, and the
//! generator's command-line options as plain values.

use vstd::prelude::*;

verus! {

/// Which of the two generated projects a code change belongs to.
#[derive(Clone, Copy, Debug, PartialEq, Eq, Hash, Structural)]
pub enum Project {
    Backend,
    App,
}

impl Project {
    /// The directory the project lives in inside the generated repository.
    pub fn dir_name(&self) -> (r: &'static str)
        ensures
            *self is Backend ==> r@ == "lvn_tutorial_backend"@,
            *self is App ==> r@ == "LVNTutorialApp"@,
    {
        match self {
            Project::Backend => "lvn_tutorial_backend",
            Project::App => "LVNTutorialApp",
        }
    }
}

/// The generator's options, held as plain values: a verbosity count, the
/// two directories it works in, and whether build checks are skipped.
#[derive(Debug)]
pub struct Opts {
    pub verbose: u8,
    pub repo_path: String,
    pub package_path: String,
    pub skip_checks: bool,
}

impl Opts {
    /// Whether progress messages should be printed.
    pub fn debug(&self) -> (r: bool)
        ensures
            r == (self.verbose > 0),
    {
        self.verbose > 0
    }

    /// Whether detailed diagnostics should be printed.
    pub fn very_debug(&self) -> (r: bool)
        ensures
            r == (self.verbose > 1),
    {
        self.verbose > 1
    }
}

} // verus!
