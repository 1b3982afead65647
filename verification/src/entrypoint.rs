//! The request boundary: what each service returns to a caller, and the
//! errors it can end in.

pub mod group_members;
pub mod groups;
pub mod transactions;

use vstd::prelude::*;
use vstd::string::StringExecFns;

verus! {

/// The kinds of failure that a request can end in.
#[derive(Clone, Copy, Debug, PartialEq, Eq, Structural)]
pub enum ErrorKind {
    /// A group, member or transaction was looked up by its public key and is
    /// not there.
    NotFound,
    /// A transaction was refused by the validity rules.
    Validation,
    /// The store failed in any other way.
    Storage,
}

/// A failure, with what the caller is told about it.
#[derive(Debug)]
pub struct AppError {
    pub kind: ErrorKind,
    /// The message of the failure.
    pub error: String,
    /// What goes with the message: for a refused transaction, the rule that
    /// refused it.
    pub content: Option<String>,
}

/// The JSON string literal that `serde_json` writes for a text, quotes and
/// escapes included.
pub uninterp spec fn json_string(text: Seq<char>) -> Seq<char>;

/// The status code of a response that says that something was not found.
pub const STATUS_NOT_FOUND: u16 = 404;

/// The status code of a response to any other failure.
pub const STATUS_INTERNAL_SERVER_ERROR: u16 = 500;

/// The message of an error that stands for a missing record.
pub open spec fn not_found_text() -> Seq<char> {
    "Record not found"@
}

/// The message of an error that stands for a refused transaction.
pub open spec fn refused_text() -> Seq<char> {
    "500 Internal Server Error"@
}

/// The JSON value of the content: a string literal, or `null`.
pub open spec fn content_json(content: Option<Seq<char>>) -> Seq<char> {
    match content {
        Some(text) => json_string(text),
        None => "null"@,
    }
}

/// The JSON object that carries an error to the caller.
pub open spec fn envelope(error: Seq<char>, content: Option<Seq<char>>) -> Seq<char> {
    "{\"content\":"@ + content_json(content) + ",\"message\":"@ + json_string(error) + "}"@
}

impl AppError {
    /// The text of the content, where there is one.
    pub open spec fn content_view(&self) -> Option<Seq<char>> {
        match self.content {
            Some(text) => Some(text@),
            None => None,
        }
    }

    /// The error that stands for a missing record.
    pub open spec fn is_not_found(&self) -> bool {
        &&& self.kind == ErrorKind::NotFound
        &&& self.error@ == not_found_text()
        &&& self.content is None
    }

    /// The status code of the response: 404 for what was not found, 500 for
    /// every other failure.
    pub open spec fn status(&self) -> u16 {
        match self.kind {
            ErrorKind::NotFound => STATUS_NOT_FOUND,
            _ => STATUS_INTERNAL_SERVER_ERROR,
        }
    }

    /// A record was looked up and is not there.
    pub fn not_found() -> (r: AppError)
        ensures
            r.is_not_found(),
    {
        AppError {
            kind: ErrorKind::NotFound,
            error: String::from_str("Record not found"),
            content: None,
        }
    }

    /// A transaction was refused; `reason` names the rule.
    pub fn validation(reason: String) -> (r: AppError)
        ensures
            r.kind == ErrorKind::Validation,
            r.error@ == refused_text(),
            r.content == Some(reason),
    {
        AppError {
            kind: ErrorKind::Validation,
            error: String::from_str("500 Internal Server Error"),
            content: Some(reason),
        }
    }

    /// The store failed; `error` says how.
    pub fn storage(error: String) -> (r: AppError)
        ensures
            r.kind == ErrorKind::Storage,
            r.error == error,
            r.content is None,
    {
        AppError { kind: ErrorKind::Storage, error, content: None }
    }

    /// The content as JSON.
    fn convert_content(&self) -> (r: String)
        ensures
            r@ == content_json(self.content_view()),
    {
        match &self.content {
            Some(content) => json_text(content.as_str()),
            None => String::from_str("null"),
        }
    }

    /// The body of the response: a JSON object with the message and the
    /// content.
    pub fn message(&self) -> (r: String)
        ensures
            r@ == envelope(self.error@, self.content_view()),
    {
        let content = self.convert_content();
        let error = json_text(self.error.as_str());
        let mut body = String::from_str("{\"content\":");
        body.append(content.as_str());
        body.append(",\"message\":");
        body.append(error.as_str());
        body.append("}");
        body
    }

    /// The status code and the body of the response.
    pub fn convert_message(&self) -> (r: (u16, String))
        ensures
            r.0 == self.status(),
            r.1@ == envelope(self.error@, self.content_view()),
    {
        match self.kind {
            ErrorKind::NotFound => (STATUS_NOT_FOUND, self.message()),
            _ => (STATUS_INTERNAL_SERVER_ERROR, self.message()),
        }
    }
}

/// `serde_json::to_string` on a text: the text as a JSON string literal.
#[verifier::external_body]
fn json_text(text: &str) -> (r: String)
    ensures
        r@ == json_string(text@),
{
    serde_json::to_string(text).unwrap_or_default()
}

} // verus!
