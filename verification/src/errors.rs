use vstd::prelude::*;
use crate::text::{push_text, usize_to_decimal, decimal};

verus! {

/// Errors in what the user asked for on the command line.
#[derive(Debug)]
pub enum CommandError {
    UnknownOption(String, String),
    IncorrectAmount(String, usize),
    IncorrectOptionAmount(usize, usize),
    InvalidHash(String),
    InvalidBranch(String),
    FormatError(String),
    InexistentPath(String),
    InvalidArgument(String),
}

/// Errors of the HTTP front end, each mapped to a status code.
#[derive(Debug)]
pub enum HTTPError {
    BadRequest(String),
    NotFound(String),
    MethodNotAllowed(String),
}

/// A number or a text that could not be parsed.
#[derive(Debug)]
pub enum ParseError {
    Utf8(std::string::FromUtf8Error),
    Int(core::num::ParseIntError),
}

/// Every error that the library reports.
#[derive(Debug)]
pub enum ErrorType {
    IOError(std::io::Error),
    Parse(ParseError),
    FormatError(String),
    FileNotFound(String),
    CommandError(CommandError),
    FileNotInIndex(String),
    InvalidPath(String),
    InvalidHash(String),
    RepositoryError(String),
    ConfigError(String),
    ObjectType(String, String),
    ProtocolError(String),
    HTTPError(HTTPError),
}


/// The message of an I/O error (its `Display`); what it says comes from the
/// operating system and is not stated.
#[verifier::external_body]
fn io_error_text(e: &std::io::Error) -> String {
    format!("{}", e)
}

/// The message of a failed integer parse (its `Display`), not stated.
#[verifier::external_body]
fn parse_int_error_text(e: &core::num::ParseIntError) -> String {
    format!("{}", e)
}

/// The message of a failed UTF-8 decoding (its `Display`), not stated.
#[verifier::external_body]
fn utf8_error_text(e: &std::string::FromUtf8Error) -> String {
    format!("{}", e)
}

/// The message of a command error.
pub open spec fn command_error_text(e: CommandError) -> Seq<char> {
    match e {
        CommandError::UnknownOption(expected, received) =>
            "ERROR:[Error in option. Received: "@ + received@ + ", allowed: "@ + expected@ + "]"@,
        CommandError::IncorrectAmount(expected, received) =>
            "ERROR:[Error in amount of parameters sent. Expected "@ + expected@ + ", got "@ + decimal(received as nat) + "]"@,
        CommandError::IncorrectOptionAmount(expected, received) =>
            "ERROR:[Error in amount of options sent. Expected "@ + decimal(expected as nat) + ", got "@ + decimal(received as nat) + "]"@,
        CommandError::InvalidHash(s) => "ERROR:[Error in hash passed: "@ + s@ + "]"@,
        CommandError::InvalidBranch(s) => "ERROR[Invalid branch input: "@ + s@ + "]"@,
        CommandError::FormatError(s) => "ERROR[Error in command format."@ + s@ + "]"@,
        CommandError::InexistentPath(p) => "ERROR[Inexistent path passed as argument: "@ + p@ + "]"@,
        CommandError::InvalidArgument(s) => "ERROR[Invalid argument: "@ + s@ + "]"@,
    }
}

/// The message of an HTTP error: its status and its text.
pub open spec fn http_error_text(e: HTTPError) -> Seq<char> {
    match e {
        HTTPError::BadRequest(s) => "400 Bad Request: "@ + s@,
        HTTPError::NotFound(s) => "404 Not Found: "@ + s@,
        HTTPError::MethodNotAllowed(s) => "405 Method Not Allowed: "@ + s@,
    }
}

/// The message of an error whose text the library makes itself; `None` for
/// the errors that carry an error of the standard library, whose text comes
/// from it.
pub open spec fn error_text(e: ErrorType) -> Option<Seq<char>> {
    match e {
        ErrorType::IOError(_) => None,
        ErrorType::Parse(_) => None,
        ErrorType::FormatError(s) => Some("ERROR:[Error in file format: "@ + s@ + "]"@),
        ErrorType::FileNotFound(s) => Some("ERROR:[The given path does not match any files: "@ + s@ + "]"@),
        ErrorType::FileNotInIndex(s) => Some("ERROR:[The given path "@ + s@ + " is not included in the index file]"@),
        ErrorType::CommandError(c) => Some(command_error_text(c)),
        ErrorType::InvalidPath(p) => Some("ERROR:[Invalid path name: "@ + p@ + "]"@),
        ErrorType::RepositoryError(s) => Some("ERROR["@ + s@ + "]"@),
        ErrorType::ConfigError(s) => Some("ERROR:[Configuration error: "@ + s@ + "]"@),
        ErrorType::ObjectType(e, g) => Some("ERROR:[Wrong ObjectType. Expected "@ + e@ + ", got "@ + g@ + "]"@),
        ErrorType::InvalidHash(s) => Some("ERROR:[Invalid hash '"@ + s@ + "'. Hashes must be 40 characters long]"@),
        ErrorType::ProtocolError(s) => Some("Error[git-protocol: "@ + s@ + "]"@),
        ErrorType::HTTPError(h) => Some("ERROR["@ + http_error_text(h) + "]"@),
    }
}

impl CommandError {
    /// The error's message.
    pub fn to_string(&self) -> (r: String)
        ensures
            r@ == command_error_text(*self),
    {
        let mut m = String::new();
        match self {
            CommandError::UnknownOption(expected, received) => {
                push_text(&mut m, "ERROR:[Error in option. Received: ");
                push_text(&mut m, received.as_str());
                push_text(&mut m, ", allowed: ");
                push_text(&mut m, expected.as_str());
                push_text(&mut m, "]");
            },
            CommandError::IncorrectAmount(expected, received) => {
                push_text(&mut m, "ERROR:[Error in amount of parameters sent. Expected ");
                push_text(&mut m, expected.as_str());
                push_text(&mut m, ", got ");
                push_text(&mut m, usize_to_decimal(*received).as_str());
                push_text(&mut m, "]");
            },
            CommandError::IncorrectOptionAmount(expected, received) => {
                push_text(&mut m, "ERROR:[Error in amount of options sent. Expected ");
                push_text(&mut m, usize_to_decimal(*expected).as_str());
                push_text(&mut m, ", got ");
                push_text(&mut m, usize_to_decimal(*received).as_str());
                push_text(&mut m, "]");
            },
            CommandError::InvalidHash(s) => {
                push_text(&mut m, "ERROR:[Error in hash passed: ");
                push_text(&mut m, s.as_str());
                push_text(&mut m, "]");
            },
            CommandError::InvalidBranch(s) => {
                push_text(&mut m, "ERROR[Invalid branch input: ");
                push_text(&mut m, s.as_str());
                push_text(&mut m, "]");
            },
            CommandError::FormatError(s) => {
                push_text(&mut m, "ERROR[Error in command format.");
                push_text(&mut m, s.as_str());
                push_text(&mut m, "]");
            },
            CommandError::InexistentPath(p) => {
                push_text(&mut m, "ERROR[Inexistent path passed as argument: ");
                push_text(&mut m, p.as_str());
                push_text(&mut m, "]");
            },
            CommandError::InvalidArgument(s) => {
                push_text(&mut m, "ERROR[Invalid argument: ");
                push_text(&mut m, s.as_str());
                push_text(&mut m, "]");
            },
        }
        m
    }
}

impl HTTPError {
    /// The error's message: its status and its text.
    pub fn to_string(&self) -> (r: String)
        ensures
            r@ == http_error_text(*self),
    {
        let mut m = String::new();
        match self {
            HTTPError::BadRequest(s) => {
                push_text(&mut m, "400 Bad Request: ");
                push_text(&mut m, s.as_str());
            },
            HTTPError::NotFound(s) => {
                push_text(&mut m, "404 Not Found: ");
                push_text(&mut m, s.as_str());
            },
            HTTPError::MethodNotAllowed(s) => {
                push_text(&mut m, "405 Method Not Allowed: ");
                push_text(&mut m, s.as_str());
            },
        }
        m
    }
}

impl ParseError {
    /// The error's message: what was parsed and the standard library's
    /// message.
    pub fn to_string(&self) -> (r: String)
        ensures
            match self {
                ParseError::Utf8(_) => has_prefix_text(r@, "from u8 to utf8: "@),
                ParseError::Int(_) => has_prefix_text(r@, "from string to int: "@),
            },
    {
        let mut m = String::new();
        match self {
            ParseError::Utf8(e) => {
                push_text(&mut m, "from u8 to utf8: ");
                let ghost head = m@;
                push_text(&mut m, utf8_error_text(e).as_str());
                assert(m@.subrange(0, head.len() as int) =~= head);
            },
            ParseError::Int(e) => {
                push_text(&mut m, "from string to int: ");
                let ghost head = m@;
                push_text(&mut m, parse_int_error_text(e).as_str());
                assert(m@.subrange(0, head.len() as int) =~= head);
            },
        }
        m
    }
}

/// Whether `s` starts with `p`.
pub open spec fn has_prefix_text(s: Seq<char>, p: Seq<char>) -> bool {
    p.len() <= s.len() && s.subrange(0, p.len() as int) == p
}

impl ErrorType {
    /// The error's message.
    pub fn to_string(&self) -> (r: String)
        ensures
            error_text(*self) matches Some(t) ==> r@ == t,
            self matches ErrorType::IOError(_) ==> has_prefix_text(r@, "ERROR:[Error while reading or writing to file: "@),
            self matches ErrorType::Parse(_) ==> has_prefix_text(r@, "ERROR[couldn't parse "@),
    {
        let mut m = String::new();
        match self {
            ErrorType::IOError(cause) => {
                push_text(&mut m, "ERROR:[Error while reading or writing to file: ");
                let ghost head = m@;
                push_text(&mut m, io_error_text(cause).as_str());
                push_text(&mut m, "]");
                assert(m@.subrange(0, head.len() as int) =~= head);
            },
            ErrorType::FormatError(s) => {
                push_text(&mut m, "ERROR:[Error in file format: ");
                push_text(&mut m, s.as_str());
                push_text(&mut m, "]");
            },
            ErrorType::FileNotFound(s) => {
                push_text(&mut m, "ERROR:[The given path does not match any files: ");
                push_text(&mut m, s.as_str());
                push_text(&mut m, "]");
            },
            ErrorType::FileNotInIndex(s) => {
                push_text(&mut m, "ERROR:[The given path ");
                push_text(&mut m, s.as_str());
                push_text(&mut m, " is not included in the index file]");
            },
            ErrorType::CommandError(e) => {
                push_text(&mut m, e.to_string().as_str());
            },
            ErrorType::InvalidPath(p) => {
                push_text(&mut m, "ERROR:[Invalid path name: ");
                push_text(&mut m, p.as_str());
                push_text(&mut m, "]");
            },
            ErrorType::RepositoryError(s) => {
                push_text(&mut m, "ERROR[");
                push_text(&mut m, s.as_str());
                push_text(&mut m, "]");
            },
            ErrorType::ConfigError(s) => {
                push_text(&mut m, "ERROR:[Configuration error: ");
                push_text(&mut m, s.as_str());
                push_text(&mut m, "]");
            },
            ErrorType::ObjectType(e, g) => {
                push_text(&mut m, "ERROR:[Wrong ObjectType. Expected ");
                push_text(&mut m, e.as_str());
                push_text(&mut m, ", got ");
                push_text(&mut m, g.as_str());
                push_text(&mut m, "]");
            },
            ErrorType::InvalidHash(s) => {
                push_text(&mut m, "ERROR:[Invalid hash '");
                push_text(&mut m, s.as_str());
                push_text(&mut m, "'. Hashes must be 40 characters long]");
            },
            ErrorType::Parse(p) => {
                push_text(&mut m, "ERROR[couldn't parse ");
                let ghost head = m@;
                push_text(&mut m, p.to_string().as_str());
                push_text(&mut m, "]");
                assert(m@.subrange(0, head.len() as int) =~= head);
            },
            ErrorType::ProtocolError(s) => {
                push_text(&mut m, "Error[git-protocol: ");
                push_text(&mut m, s.as_str());
                push_text(&mut m, "]");
            },
            ErrorType::HTTPError(e) => {
                push_text(&mut m, "ERROR[");
                push_text(&mut m, e.to_string().as_str());
                push_text(&mut m, "]");
            },
        }
        m
    }
}

} // verus!
