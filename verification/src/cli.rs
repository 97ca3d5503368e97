use vstd::prelude::*;

verus! {

/// What the command line supplies: the location of the database file.
/// Argument parsing itself lives outside the library; this type only
/// carries its result.
#[derive(Clone, Debug, PartialEq, Eq)]
pub struct CliOptions {
    pub database_file_path: String,
}

impl Default for CliOptions {
    /// No path chosen yet.
    fn default() -> (r: Self)
        ensures
            r.database_file_path@ == Seq::<char>::empty(),
    {
        CliOptions { database_file_path: String::new() }
    }
}

} // verus!
