//! Names used when fetching crate archives: the download URL of a crate
//! release and the file names the archive is stored under.

use vstd::prelude::*;
use vstd::string::StringExecFns;

verus! {

/// The URL a crate release is downloaded from.
pub fn crate_download_url(name: &str, version: &str) -> (r: String)
    ensures
        r@ == "https://static.crates.io/crates/"@ + name@ + "/"@ + name@ + "-"@ + version@
            + ".crate"@,
{
    let mut u = String::from_str("https://static.crates.io/crates/");
    u.append(name);
    u.append("/");
    u.append(name);
    u.append("-");
    u.append(version);
    u.append(".crate");
    proof {
        assert(u@ =~= "https://static.crates.io/crates/"@ + name@ + "/"@ + name@ + "-"@ + version@
            + ".crate"@);
    }
    u
}

/// The name the downloaded archive of a crate release is saved under.
pub fn archive_file_name(name: &str, version: &str) -> (r: String)
    ensures
        r@ == name@ + "-"@ + version@ + ".tar.gz"@,
{
    let mut u = String::from_str(name);
    u.append("-");
    u.append(version);
    u.append(".tar.gz");
    proof {
        assert(u@ =~= name@ + "-"@ + version@ + ".tar.gz"@);
    }
    u
}

/// The file name a crate release arrives under when the server names it.
pub fn crate_file_name(name: &str, version: &str) -> (r: String)
    ensures
        r@ == name@ + "-"@ + version@ + ".crate"@,
{
    let mut u = String::from_str(name);
    u.append("-");
    u.append(version);
    u.append(".crate");
    proof {
        assert(u@ =~= name@ + "-"@ + version@ + ".crate"@);
    }
    u
}

} // verus!
