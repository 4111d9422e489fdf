//! The server's own decisions.  Reading a request line from a connection,
//! writing the response back and accepting connections are the caller's
//! plumbing; decoding, dispatching and encoding live in `protocol` and
//! `error`.  What remains here is the startup guard over the persisted
//! engine name.

use vstd::prelude::*;

use crate::codec::match_at;

verus! {

/// May the server start with engine `chosen` in a directory whose `meta`
/// file holds `previous`?  A non-empty record of a different engine refuses
/// the restart; an empty record means a fresh directory.
pub fn engine_mismatch(previous: &str, chosen: &str) -> (r: bool)
    ensures
        r == (previous@.len() > 0 && previous@ != chosen@),
{
    let np = previous.unicode_len();
    let nc = chosen.unicode_len();
    if np == 0 {
        return false;
    }
    if np != nc {
        return true;
    }
    let same = match_at(previous, 0, chosen);
    proof {
        if same {
            assert(previous@.subrange(0, nc as int) =~= previous@);
        } else {
            assert(previous@.subrange(0, nc as int) =~= previous@);
        }
    }
    !same
}

} // verus!
