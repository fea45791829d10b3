//! Time tracking by project: sessions are started and ended, recorded in a log, and
//! read back over date ranges.
pub mod datetime;
pub mod session;
pub mod text;
pub mod times;
pub mod utils;

use vstd::prelude::*;

verus! {

/// The directory under the home directory that holds one directory per project.
pub const TEMPUS_DIR_NAME: &'static str = "/tempus/";

/// The file whose presence marks a session under way.
pub const SESSION_NAME: &'static str = ".session";

/// The log of finished sessions of a project.
pub const TEMPUS_LOG_NAME: &'static str = "tempus_log.txt";

/// The directory of a project: the home directory, `/`, the tempus directory, `/`, the project.
pub fn get_project_dir_path(home: &str, project: &str) -> (r: String)
    ensures
        r@ == home@ + seq!['/'] + TEMPUS_DIR_NAME@ + seq!['/'] + project@,
{
    let mut r = home.to_owned();
    let slash = "/";
    proof {
        reveal_strlit("/");
        assert(slash@ =~= seq!['/']);
    }
    r.append(slash);
    r.append(TEMPUS_DIR_NAME);
    r.append(slash);
    r.append(project);
    r
}

} // verus!
