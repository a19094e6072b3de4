use vstd::prelude::*;
use vstd::string::StringExecFns;

verus! {

/// The root directory of the system whose packages are looked at.
pub const ROOT_DIR: &'static str = "/";

/// Where the pacman database lies unless the options say otherwise.
pub const DB_PATH: &'static str = "/var/lib/pacman/";

/// The options of one run.
#[derive(Debug)]
pub struct Args {
    /// List of input packages
    pub pkgnames: Vec<String>,
    /// Repositories
    pub repos: Vec<String>,
    /// The path to the pacman database, default ( /var/lib/pacman )
    pub dbpath: Option<String>,
    /// Write a dotfile into the given file
    pub dotfile: Option<String>,
    /// Only use the pkgnames provided as input
    pub no_reverse_depends: bool,
    /// Take the check dependencies of the packages into account
    pub with_check_depends: bool,
}

impl Args {
    /// The path of the pacman database to read: the one given, else the
    /// default.
    pub fn database_path(&self) -> (path: String)
        ensures
            path@ == match self.dbpath {
                Some(given) => given@,
                None => DB_PATH@,
            },
    {
        match &self.dbpath {
            Some(given) => given.clone(),
            None => String::from_str(DB_PATH),
        }
    }
}

} // verus!
