//! What a request carries for its log lines.

use crate::digits::{digits, push_digits};
use vstd::prelude::*;
use vstd::string::StringExecFns;

verus! {

/// The tag of a log line: the request's identifier followed by the time
/// since the request began, in milliseconds, as `[<n>ms]`.
pub open spec fn request_tag(request_id: Seq<char>, elapsed_ms: nat) -> Seq<char> {
    request_id + seq!['['] + digits(elapsed_ms, 10) + seq!['m', 's', ']']
}

/// The tag of a log line for `request_id`, `elapsed_ms` milliseconds after
/// the request began.
pub fn get_colored_request_id_with_relative(request_id: &str, elapsed_ms: u128) -> (tag: String)
    ensures
        tag@ == request_tag(request_id@, elapsed_ms as nat),
{
    let mut tag = String::from_str(request_id);
    tag.push('[');
    push_digits(&mut tag, elapsed_ms, 10);
    tag.push('m');
    tag.push('s');
    tag.push(']');
    assert(tag@ =~= request_tag(request_id@, elapsed_ms as nat));
    tag
}

} // verus!
