use vstd::prelude::*;

verus! {

/// How serious a logged message is.
pub enum Severity {
    INFO,
    DEBUG,
    ERROR,
}

/// The stamp that starts a message of this severity.
pub open spec fn stamp_text(s: Severity) -> Seq<char> {
    match s {
        Severity::INFO => "[INFO]"@,
        Severity::DEBUG => "[DEBUG]"@,
        Severity::ERROR => "[ERROR]"@,
    }
}

impl Severity {
    /// The stamp that starts a message of this severity, such as `[INFO]`.
    pub fn stamp(&self) -> (s: &'static str)
        ensures
            s@ == stamp_text(*self),
    {
        match self {
            Severity::INFO => "[INFO]",
            Severity::DEBUG => "[DEBUG]",
            Severity::ERROR => "[ERROR]",
        }
    }
}

} // verus!
