//! Choice of output format: a closed tag selecting between the text table
//! and the columnar binary table.

use vstd::prelude::*;

verus! {

/// The two supported output formats.
#[derive(Copy, Clone, Debug, PartialEq, Eq, PartialOrd, Ord, Structural)]
pub enum Writer {
    Csv,
    Feather,
}

impl Writer {
    /// The file extension the format's output carries.
    pub fn extension(self) -> (s: &'static str)
        ensures
            self is Csv ==> s@ == "csv"@,
            self is Feather ==> s@ == "feather"@,
    {
        match self {
            Writer::Csv => "csv",
            Writer::Feather => "feather",
        }
    }
}

} // verus!
