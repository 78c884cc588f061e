//! Resolution of the command-line options the tracker consumes.
//!
//! The driver hands the tracker three plain values: the database path, the
//! lockfile path and a verbosity level. How each is derived from the
//! command line is decided here; the argument parsing itself stays with the
//! driver.

use vstd::prelude::*;
use vstd::string::StringExecFns;
use vstd::string::StrSliceExecFns;

verus! {

/// Command-line error of the driver layer.
#[derive(Clone, Copy, Debug, PartialEq, Eq)]
pub struct CliError;

/// `s` ends in the suffix `.json`.
pub open spec fn has_json_suffix(s: Seq<char>) -> bool {
    &&& s.len() >= 5
    &&& s[s.len() - 5] == '.'
    &&& s[s.len() - 4] == 'j'
    &&& s[s.len() - 3] == 's'
    &&& s[s.len() - 2] == 'o'
    &&& s[s.len() - 1] == 'n'
}

/// The database path: the given one, with `.json` appended when it does not
/// already end in it, or `db.json` when none was given.
pub fn resolve_db_path(arg: Option<String>) -> (r: String)
    ensures
        arg is None ==> r@ == "db.json"@,
        arg matches Option::Some(s) ==> (if has_json_suffix(s@) {
            r@ == s@
        } else {
            r@ == s@ + ".json"@
        }),
{
    match arg {
        Option::None => String::from_str("db.json"),
        Option::Some(s) => {
            let n = s.as_str().unicode_len();
            let suffixed = n >= 5 && s.as_str().get_char(n - 5) == '.' && s.as_str().get_char(
                n - 4,
            ) == 'j' && s.as_str().get_char(n - 3) == 's' && s.as_str().get_char(n - 2) == 'o'
                && s.as_str().get_char(n - 1) == 'n';
            if suffixed {
                s
            } else {
                s.concat(".json")
            }
        },
    }
}

/// The lockfile path: the given one, or `lockfile` when none was given.
pub fn resolve_lockfile_path(arg: Option<String>) -> (r: String)
    ensures
        arg is None ==> r@ == "lockfile"@,
        arg matches Option::Some(s) ==> r@ == s@,
{
    match arg {
        Option::None => String::from_str("lockfile"),
        Option::Some(s) => s,
    }
}

/// The verbosity level: any `quiet` clamps it to `-1`; otherwise it is the
/// `verbose` count, capped at the largest level.
pub fn resolve_verbosity(verbose: u8, quiet: u8) -> (r: i8)
    ensures
        quiet > 0 ==> r == -1,
        quiet == 0 && verbose <= 127 ==> r == verbose as i8,
        quiet == 0 && verbose > 127 ==> r == 127,
{
    if quiet > 0 {
        -1
    } else if verbose > 127 {
        127
    } else {
        verbose as i8
    }
}

} // verus!
