//! Database locations.

use vstd::prelude::*;
use vstd::string::{StringExecFns, StringSliceAdditionalSpecFns};

use crate::text::{contains_bytes, occurs};

verus! {

/// The connection URL for a database path: a path that already holds a
/// colon is taken as a URL (such as `sqlite::memory:`) and kept as it is;
/// any other path is a file, reached through `sqlite://`.
pub open spec fn url_spec(path: Seq<char>, path_bytes: Seq<u8>) -> Seq<char> {
    if occurs(path_bytes, seq![58u8]) {
        path
    } else {
        "sqlite://"@ + path
    }
}

pub fn default_url(path: &str) -> (s: String)
    ensures
        s@ == url_spec(path@, path.spec_bytes()),
{
    let colon: [u8; 1] = [58u8];
    proof {
        assert(colon@ =~= seq![58u8]);
    }
    if contains_bytes(path.as_bytes(), &colon) {
        String::from_str(path)
    } else {
        let mut s = String::from_str("sqlite://");
        s.append(path);
        s
    }
}

} // verus!
