//! Construction of the output paths: `<parent>/<name>` for directories
//! and `<parent>/<name>.txt` for the files that receive the payloads.

use vstd::prelude::*;
use vstd::string::StringExecFns;

verus! {

/// The path of the directory `name` under the directory `parent`,
/// joined with a `/` separator.
pub fn create_folder_path(parent: &str, name: &str) -> (r: String)
    ensures
        r@ == parent@ + "/"@ + name@,
{
    let mut s = parent.to_owned();
    s.append("/");
    s.append(name);
    s
}

/// The path of the text file with stem `name` under the directory
/// `parent`: `<parent>/<name>.txt`.
pub fn create_file_name(parent: &str, name: &str) -> (r: String)
    ensures
        r@ == parent@ + "/"@ + name@ + ".txt"@,
{
    let mut s = parent.to_owned();
    s.append("/");
    s.append(name);
    s.append(".txt");
    s
}

} // verus!
