//! Validation of command-line values.

use vstd::prelude::*;
use vstd::string::StringExecFns;

verus! {

/// Accepts a path argument when the file it names exists; the caller
/// supplies the result of that filesystem check. Returns the path on
/// success and the error message to show otherwise.
pub fn parse_path(v: &str, exists: bool) -> (r: Result<String, String>)
    ensures
        r is Ok <==> exists,
        exists ==> r->Ok_0@ == v@,
        !exists ==> r->Err_0@ == "File '"@ + v@ + "' does not exist"@,
{
    if exists {
        Ok(v.to_owned())
    } else {
        let mut m = String::new();
        m.append("File '");
        m.append(v);
        m.append("' does not exist");
        proof {
            assert(Seq::<char>::empty() + "File '"@ =~= "File '"@);
        }
        Err(m)
    }
}

} // verus!
