use vstd::prelude::*;

use crate::http::status::{status_header_text, Status};

verus! {

broadcast use vstd::string::group_string_axioms;

/// The text of an answer: the status line, an empty line, then the body.
pub open spec fn response_text(msg: Seq<char>, status: Status) -> Seq<char> {
    status_header_text(status) + "\n\n"@ + msg
}

/// The answer the bootstrap server writes: the status line of `status`,
/// an empty line, then `msg`.
pub fn format_response(msg: String, status: Status) -> (r: String)
    ensures
        r@ == response_text(msg@, status),
{
    let header = status.get_status_header();
    header.concat("\n\n").concat(msg.as_str())
}

} // verus!
