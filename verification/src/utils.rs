//! On-disk locations of the published arrays.

use vstd::prelude::*;

verus! {

/// The published-array path of a snapshot key: `data/<release>.json`, or
/// `data/<release>-testing.json` for the testing variant, relative to the
/// working directory.
pub fn get_json_path(release: &str, testing: bool) -> (r: String)
    ensures
        !testing ==> r@ == "data/"@ + release@ + ".json"@,
        testing ==> r@ == "data/"@ + release@ + "-testing.json"@,
{
    let mut s = String::from_str("data/");
    s.append(release);
    if !testing {
        s.append(".json");
    } else {
        s.append("-testing.json");
    }
    proof {
        if !testing {
            assert(s@ =~= "data/"@ + release@ + ".json"@);
        } else {
            assert(s@ =~= "data/"@ + release@ + "-testing.json"@);
        }
    }
    s
}

} // verus!
