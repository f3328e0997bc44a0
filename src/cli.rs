use vstd::prelude::*;

verus! {

/// What the command line asks for.
#[derive(Debug)]
pub struct CliArgs {
    pub ignore_case: bool,
    pub file: Option<String>,
    pub config: Option<String>,
}

/// A command line that cannot be served.
#[derive(Debug, Clone, Copy, PartialEq, Eq, Structural)]
pub enum UsageError {
    MissingConfig,
}

impl CliArgs {
    /// The configuration path, which the command line must give.
    pub fn config_path(&self) -> (r: Result<String, UsageError>)
        ensures
            self.config is None <==> r == Err::<String, UsageError>(UsageError::MissingConfig),
            r matches Ok(p) ==> self.config matches Some(c) && p@ == c@,
    {
        match &self.config {
            Some(c) => Ok(c.clone()),
            None => Err(UsageError::MissingConfig),
        }
    }
}

} // verus!
