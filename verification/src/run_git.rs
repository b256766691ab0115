//! The Process Gateway boundary, described as data: which tool invocation
//! an operation needs. The surrounding application spawns the external tool
//! with these arguments and the repository path as working directory, and
//! hands back captured standard output — empty output counting as no
//! result, whatever the exit status.

use vstd::prelude::*;
use vstd::string::StringExecFns;

use crate::text::str_eq;

verus! {

/// One invocation of the external tool: its argument list and the
/// working directory to run it in.
pub struct GitCommand {
    pub args: Vec<String>,
    pub repo_path: String,
}

/// On hosts where the tool would prompt for credentials, mutating
/// operations carry a configuration override naming the credential helper;
/// read-only queries do not need it.
pub fn config_override_arg(os: &str) -> (r: Option<(String, String)>)
    ensures
        os@ == "windows"@ ==> (r matches Some(p) && p.0@ == "-c"@ && p.1@
            == "credential.helper=manager"@),
        os@ == "linux"@ ==> (r matches Some(p) && p.0@ == "-c"@ && p.1@
            == "credential.helper=store"@),
        os@ != "windows"@ && os@ != "linux"@ ==> r is None,
{
    proof {
        reveal_strlit("windows");
        reveal_strlit("linux");
        assert("windows"@.len() == 7);
        assert("linux"@.len() == 5);
        assert("windows"@ != "linux"@);
    }
    if str_eq(os, "windows") {
        Some((String::from_str("-c"), String::from_str("credential.helper=manager")))
    } else if str_eq(os, "linux") {
        let a = String::from_str("-c");
        let b = String::from_str("credential.helper=store");
        proof {
            assert(b@ == "credential.helper=store"@);
        }
        Some((a, b))
    } else {
        None
    }
}

/// Prepends the host's credential-helper override, if any, to an argument
/// list.
pub fn args_with_config(os: &str, args: Vec<String>) -> (r: Vec<String>)
    ensures
        os@ != "windows"@ && os@ != "linux"@ ==> r.deep_view() == args.deep_view(),
        os@ == "windows"@ || os@ == "linux"@ ==> {
            &&& r.deep_view().len() == args.deep_view().len() + 2
            &&& r.deep_view()[0] == "-c"@
            &&& r.deep_view().skip(2) == args.deep_view()
        },
{
    let over = config_override_arg(os);
    match over {
        Some((a, b)) => {
            let mut out: Vec<String> = Vec::new();
            out.push(a);
            out.push(b);
            let mut i: usize = 0;
            while i < args.len()
                invariant
                    i <= args.len(),
                    out@.len() == i + 2,
                    out.deep_view()[0] == "-c"@,
                    forall|k: int| 0 <= k < i ==> out.deep_view()[k + 2] == args.deep_view()[k],
                decreases args.len() - i,
            {
                out.push(args[i].clone());
                i = i + 1;
            }
            proof {
                assert(out.deep_view().skip(2) =~= args.deep_view());
            }
            out
        },
        None => args,
    }
}

} // verus!
