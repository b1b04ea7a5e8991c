use vstd::prelude::*;
use vstd::string::*;

verus! {

/// The database file under the working directory: `{wd}/ruskie.db`.
pub fn database_path(wd: &str) -> (res: String)
    ensures
        res@ == wd@ + "/ruskie.db"@,
{
    let mut s = String::from_str(wd);
    s.append("/ruskie.db");
    s
}

} // verus!
