use vstd::prelude::*;

use crate::logging::severity::{stamp_text, Severity};

verus! {

broadcast use vstd::string::group_string_axioms;

/// Which kinds of messages a logger writes.
#[derive(Debug, Clone, Copy)]
pub struct Logger {
    info: bool,
    error: bool,
    debug: bool,
}

/// A logged line: the stamp, a colon and a space, then the message.
pub open spec fn log_line(s: Severity, msg: Seq<char>) -> Seq<char> {
    stamp_text(s) + ": "@ + msg
}

impl Logger {
    /// A logger that writes information, errors and debugging messages as
    /// the three flags say.
    pub fn new(info: bool, error: bool, debug: bool) -> (l: Logger)
        ensures
            l.writes_info() == info,
            l.writes_error() == error,
            l.writes_debug() == debug,
    {
        Logger { info, error, debug }
    }

    /// Whether information messages are written.
    pub closed spec fn writes_info(&self) -> bool {
        self.info
    }

    /// Whether error messages are written.
    pub closed spec fn writes_error(&self) -> bool {
        self.error
    }

    /// Whether debugging messages are written.
    pub closed spec fn writes_debug(&self) -> bool {
        self.debug
    }

    fn line(s: Severity, msg: String) -> (r: String)
        ensures
            r@ == log_line(s, msg@),
    {
        String::from_str(s.stamp()).concat(": ").concat(msg.as_str())
    }

    /// The line to write for an information message, if information is
    /// written.
    pub fn info_line(&self, msg: String) -> (r: Option<String>)
        ensures
            match r {
                Some(line) => self.writes_info() && line@ == log_line(Severity::INFO, msg@),
                None => !self.writes_info(),
            },
    {
        if self.info {
            Some(Self::line(Severity::INFO, msg))
        } else {
            None
        }
    }

    /// The line to write for an error message, if errors are written.
    pub fn error_line(&self, msg: String) -> (r: Option<String>)
        ensures
            match r {
                Some(line) => self.writes_error() && line@ == log_line(Severity::ERROR, msg@),
                None => !self.writes_error(),
            },
    {
        if self.error {
            Some(Self::line(Severity::ERROR, msg))
        } else {
            None
        }
    }

    /// The line to write for a debugging message, if debugging messages
    /// are written.
    pub fn debug_line(&self, msg: String) -> (r: Option<String>)
        ensures
            match r {
                Some(line) => self.writes_debug() && line@ == log_line(Severity::DEBUG, msg@),
                None => !self.writes_debug(),
            },
    {
        if self.debug {
            Some(Self::line(Severity::DEBUG, msg))
        } else {
            None
        }
    }
}

} // verus!
