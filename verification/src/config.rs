//! Settings of the report.
use vstd::prelude::*;

verus! {

/// The settings of the report. An absent or partial file is fine.
#[derive(Clone, Copy, PartialEq, Eq, Debug, Structural)]
pub struct Report {
    /// How many patterns are shown per kind unless the command line says.
    pub limit: Option<usize>,
}

impl Default for Report {
    fn default() -> (r: Self)
        ensures
            r.limit is None,
    {
        Report { limit: None }
    }
}

impl Report {
    /// How many patterns are shown per kind: what the command line says, else what
    /// the settings say, else `standard`.
    pub fn shown(&self, flag: Option<usize>, standard: usize) -> (r: usize)
        ensures
            r == (match flag {
                Some(n) => n,
                None => match self.limit {
                    Some(n) => n,
                    None => standard,
                },
            }),
    {
        match flag {
            Some(n) => n,
            None => match self.limit {
                Some(n) => n,
                None => standard,
            },
        }
    }
}

} // verus!
