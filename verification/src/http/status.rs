use vstd::prelude::*;

verus! {

/// The two answers the bootstrap server gives.
pub enum Status {
    OK,
    ERROR,
}

/// The status line of an HTTP/1.1 answer with the given status.
pub open spec fn status_header_text(status: Status) -> Seq<char> {
    match status {
        Status::OK => "HTTP/1.1 200 OK"@,
        Status::ERROR => "HTTP/1.1 404 ERROR"@,
    }
}

impl Status {
    /// The status line, such as `HTTP/1.1 200 OK`.
    pub fn get_status_header(&self) -> (header: String)
        ensures
            header@ == status_header_text(*self),
    {
        let http_version = String::from_str("HTTP/1.1");
        let status = match self {
            Status::OK => "200 OK",
            Status::ERROR => "404 ERROR",
        };
        let header = http_version.concat(" ").concat(status);
        proof {
            reveal_strlit("HTTP/1.1");
            reveal_strlit(" ");
            reveal_strlit("200 OK");
            reveal_strlit("404 ERROR");
            reveal_strlit("HTTP/1.1 200 OK");
            reveal_strlit("HTTP/1.1 404 ERROR");
        }
        assert(header@ =~= status_header_text(*self));
        header
    }
}

} // verus!
