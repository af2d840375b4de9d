//! Outcome of an operation: a code and, for failures, a message.

use vstd::prelude::*;
use vstd::string::StringExecFns;

verus! {

/// Kind of outcome.
#[derive(Debug, PartialEq, Eq, Structural, Clone, Copy)]
pub enum StatusCode {
    Kok,
    KnotFound,
    KCorruption,
    KnotSupported,
    KInvalidArgument,
    KIoError,
}

/// A code with an optional message.  `OK` carries no message.
#[derive(Debug)]
pub struct Status {
    code: StatusCode,
    message: Option<String>,
}

/// Two texts with `": "` between them.
fn join_messages(first: &str, second: &str) -> (joined: String)
    ensures
        joined@ == first@ + seq![':', ' '] + second@,
{
    proof {
        reveal_strlit(": ");
        assert(": "@ =~= seq![':', ' ']);
    }
    first.to_owned().concat(": ").concat(second)
}

impl Clone for Status {
    fn clone(&self) -> (copy: Self)
        ensures
            copy.spec_code() == self.spec_code(),
            copy.spec_message() == self.spec_message(),
    {
        Status { code: self.code, message: self.message.clone() }
    }
}

impl Status {
    /// The code of this status.
    pub closed spec fn spec_code(&self) -> StatusCode {
        self.code
    }

    /// The message of this status, if it has one.
    pub closed spec fn spec_message(&self) -> Option<Seq<char>> {
        match self.message {
            Some(m) => Some(m@),
            None => None,
        }
    }

    /// The message that `msg` and an optional secondary message make.
    pub open spec fn joined(msg: Seq<char>, msg2: Option<Seq<char>>) -> Seq<char> {
        match msg2 {
            Some(m2) => msg + seq![':', ' '] + m2,
            None => msg,
        }
    }

    /// Success.
    pub fn ok() -> (s: Status)
        ensures
            s.spec_code() == StatusCode::Kok,
            s.spec_message().is_none(),
    {
        Status { code: StatusCode::Kok, message: None }
    }

    fn new(code: StatusCode, msg: &str, msg2: Option<&str>) -> (s: Status)
        ensures
            s.spec_code() == code,
            s.spec_message() == Some(
                Self::joined(
                    msg@,
                    match msg2 {
                        Some(m2) => Some(m2@),
                        None => None,
                    },
                ),
            ),
    {
        let message = match msg2 {
            Some(m2) => join_messages(msg, m2),
            None => msg.to_owned(),
        };
        Status { code, message: Some(message) }
    }

    /// A `NotFound` status with the given message.
    pub fn not_found(msg: &str, msg2: Option<&str>) -> (s: Status)
        ensures
            s.spec_code() == StatusCode::KnotFound,
            s.spec_message() == Some(
                Self::joined(
                    msg@,
                    match msg2 {
                        Some(m2) => Some(m2@),
                        None => None,
                    },
                ),
            ),
    {
        Self::new(StatusCode::KnotFound, msg, msg2)
    }

    /// A `Corruption` status with the given message.
    pub fn corruption(msg: &str, msg2: Option<&str>) -> (s: Status)
        ensures
            s.spec_code() == StatusCode::KCorruption,
            s.spec_message() == Some(
                Self::joined(
                    msg@,
                    match msg2 {
                        Some(m2) => Some(m2@),
                        None => None,
                    },
                ),
            ),
    {
        Self::new(StatusCode::KCorruption, msg, msg2)
    }

    /// A `NotSupported` status with the given message.
    pub fn not_supported(msg: &str, msg2: Option<&str>) -> (s: Status)
        ensures
            s.spec_code() == StatusCode::KnotSupported,
            s.spec_message() == Some(
                Self::joined(
                    msg@,
                    match msg2 {
                        Some(m2) => Some(m2@),
                        None => None,
                    },
                ),
            ),
    {
        Self::new(StatusCode::KnotSupported, msg, msg2)
    }

    /// An `InvalidArgument` status with the given message.
    pub fn invalid_argument(msg: &str, msg2: Option<&str>) -> (s: Status)
        ensures
            s.spec_code() == StatusCode::KInvalidArgument,
            s.spec_message() == Some(
                Self::joined(
                    msg@,
                    match msg2 {
                        Some(m2) => Some(m2@),
                        None => None,
                    },
                ),
            ),
    {
        Self::new(StatusCode::KInvalidArgument, msg, msg2)
    }

    /// An `IOError` status with the given message.
    pub fn io_error(msg: &str, msg2: Option<&str>) -> (s: Status)
        ensures
            s.spec_code() == StatusCode::KIoError,
            s.spec_message() == Some(
                Self::joined(
                    msg@,
                    match msg2 {
                        Some(m2) => Some(m2@),
                        None => None,
                    },
                ),
            ),
    {
        Self::new(StatusCode::KIoError, msg, msg2)
    }

    pub fn is_ok(&self) -> (b: bool)
        ensures
            b == (self.spec_code() == StatusCode::Kok),
    {
        self.code == StatusCode::Kok
    }

    pub fn is_not_found(&self) -> (b: bool)
        ensures
            b == (self.spec_code() == StatusCode::KnotFound),
    {
        self.code == StatusCode::KnotFound
    }

    pub fn is_corruption(&self) -> (b: bool)
        ensures
            b == (self.spec_code() == StatusCode::KCorruption),
    {
        self.code == StatusCode::KCorruption
    }

    pub fn is_io_error(&self) -> (b: bool)
        ensures
            b == (self.spec_code() == StatusCode::KIoError),
    {
        self.code == StatusCode::KIoError
    }

    pub fn is_not_supported_error(&self) -> (b: bool)
        ensures
            b == (self.spec_code() == StatusCode::KnotSupported),
    {
        self.code == StatusCode::KnotSupported
    }

    pub fn is_invalid_argument(&self) -> (b: bool)
        ensures
            b == (self.spec_code() == StatusCode::KInvalidArgument),
    {
        self.code == StatusCode::KInvalidArgument
    }

    pub fn code(&self) -> (c: StatusCode)
        ensures
            c == self.spec_code(),
    {
        self.code
    }

    /// The name under which a code is printed.
    pub open spec fn code_name(code: StatusCode) -> Seq<char> {
        match code {
            StatusCode::Kok => "OK"@,
            StatusCode::KnotFound => "NotFound"@,
            StatusCode::KCorruption => "Corruption"@,
            StatusCode::KnotSupported => "NotSupported"@,
            StatusCode::KInvalidArgument => "InvalidArgument"@,
            StatusCode::KIoError => "IOError"@,
        }
    }

    /// The text of this status: `OK`, or the code's name followed by the
    /// message.
    pub open spec fn spec_to_string(&self) -> Seq<char> {
        if self.spec_code() == StatusCode::Kok {
            "OK"@
        } else {
            match self.spec_message() {
                Some(m) => Self::code_name(self.spec_code()) + seq![':', ' '] + m,
                None => Self::code_name(self.spec_code()),
            }
        }
    }

    /// Renders the status as text.
    pub fn to_string(&self) -> (text: String)
        ensures
            text@ == self.spec_to_string(),
    {
        let name = match self.code {
            StatusCode::Kok => "OK",
            StatusCode::KnotFound => "NotFound",
            StatusCode::KCorruption => "Corruption",
            StatusCode::KnotSupported => "NotSupported",
            StatusCode::KInvalidArgument => "InvalidArgument",
            StatusCode::KIoError => "IOError",
        };
        match &self.message {
            Some(m) => {
                if self.code == StatusCode::Kok {
                    name.to_owned()
                } else {
                    join_messages(name, m.as_str())
                }
            },
            None => name.to_owned(),
        }
    }
}

} // verus!
