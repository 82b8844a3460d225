//! The control surface: which request asks for what, and how a failure is
//! reported.

use vstd::prelude::*;
use vstd::string::*;

verus! {

/// The status of a request without the parameters it needs.
pub const BAD_REQUEST: u16 = 400;

/// The status of a request for a path or a document that does not exist.
pub const NOT_FOUND: u16 = 404;

/// The status of a request that failed on the server's side.
pub const INTERNAL_SERVER_ERROR: u16 = 500;

/// A failure, as it is reported to the client: a status and a plain text.
#[derive(Debug, PartialEq, Eq)]
pub struct Error {
    pub status: u16,
    pub message: String,
}

impl Error {
    pub fn new(status: u16, message: &str) -> (e: Error)
        ensures
            e.status == status,
            e.message@ == message@,
    {
        Error { status, message: message.to_owned() }
    }
}

/// The value of an option, or the failure to report where there is none.
pub fn require<T>(o: Option<T>, status: u16, body: &str) -> (r: Result<T, Error>)
    ensures
        match o {
            Some(v) => r == Ok::<T, Error>(v),
            None => r matches Err(e) && e.status == status && e.message@ == body@,
        },
{
    match o {
        Some(v) => Ok(v),
        None => Err(Error::new(status, body)),
    }
}

/// The internal id of the document that a handle was looked up for, or the
/// failure to report where no document has that handle: it is not found.
pub fn known_document(found: Option<usize>) -> (r: Result<usize, Error>)
    ensures
        match found {
            Some(id) => r == Ok::<usize, Error>(id),
            None => r matches Err(e) && e.status == NOT_FOUND && e.message@
                == "unknown document"@,
        },
{
    require(found, NOT_FOUND, "unknown document")
}

/// Equality of string slices compares their characters.
pub assume_specification[ <str as PartialEq>::eq ](a: &str, b: &str) -> (r: bool)
    ensures
        r == (a@ == b@),
;

/// The errors of `url::Url::parse`.
#[verifier::external_type_specification]
#[verifier::external_body]
pub struct ExParseError(url::ParseError);

/// What `url::Url::parse` and `Url::query` make of a text: `None` where the
/// text does not parse as an absolute URL; else the URL's query string, if
/// it has one.
pub uninterp spec fn url_query(text: Seq<char>) -> Option<Option<Seq<char>>>;

/// The text of an optional string.
pub open spec fn option_text(s: Option<String>) -> Option<Seq<char>> {
    match s {
        Some(s) => Some(s@),
        None => None,
    }
}

/// `url::Url::parse`, followed by `Url::query` on the URL it gives: the
/// query string of the URL that `text` writes, as the parser reads it.
#[verifier::external_body]
fn parse_query(text: &str) -> (r: Result<Option<String>, url::ParseError>)
    ensures
        match r {
            Ok(query) => url_query(text@) == Some(option_text(query)),
            Err(_) => url_query(text@) is None,
        },
{
    match url::Url::parse(text) {
        Ok(url) => Ok(url.query().map(str::to_owned)),
        Err(e) => Err(e),
    }
}

/// The parameters of a request to join a document.
#[derive(Debug, PartialEq, Eq)]
pub struct JoinQueryParameters {
    /// The handle of the document.
    pub id: String,
    /// The client's last-known version, if it has one.
    pub head: Option<usize>,
}

impl JoinQueryParameters {
    /// The version from which the client wants the history: its head, or 0.
    pub fn head(&self) -> (head: usize)
        ensures
            head == (match self.head {
                Some(h) => h,
                None => 0,
            }),
    {
        match self.head {
            Some(h) => h,
            None => 0,
        }
    }
}

/// What a request asks for.
#[derive(Debug, PartialEq, Eq)]
pub enum Route {
    /// Create a document and attach to it.
    New,
    /// Attach to the document that the query string names.
    Join(String),
}

/// What a request to join asks for, given what its address parsed to: the
/// query string if there is one, nothing if there is none, or the parser's
/// complaint. Without a query string the request is a bad request; an
/// address that did not parse is the server's failure.
pub fn join_route(parsed: Result<Option<String>, String>) -> (r: Result<Route, Error>)
    ensures
        match parsed {
            Ok(Some(query)) => r matches Ok(Route::Join(q)) && q == query,
            Ok(None) => r matches Err(e) && e.status == BAD_REQUEST && e.message@
                == "missing parameters"@,
            Err(complaint) => r matches Err(e) && e.status == INTERNAL_SERVER_ERROR && e.message
                == complaint,
        },
{
    match parsed {
        Ok(query) => {
            let query = require(query, BAD_REQUEST, "missing parameters")?;
            Ok(Route::Join(query))
        },
        Err(complaint) => Err(Error { status: INTERNAL_SERVER_ERROR, message: complaint }),
    }
}

/// Decides what a request for `path` asks for, where `uri` is the request's
/// whole address: `/new` creates a document, `/join` joins the one named in
/// the query string of the address, and any other path is not found.
pub fn route(path: &str, uri: &str) -> (r: Result<Route, Error>)
    ensures
        match r {
            Ok(Route::New) => path@ == "/new"@,
            Ok(Route::Join(query)) => path@ != "/new"@ && path@ == "/join"@ && url_query(
                "test:"@ + uri@,
            ) == Some(Some(query@)),
            Err(e) => path@ != "/new"@ && if path@ == "/join"@ {
                match url_query("test:"@ + uri@) {
                    Some(Some(_)) => false,
                    Some(None) => e.status == BAD_REQUEST && e.message@ == "missing parameters"@,
                    None => e.status == INTERNAL_SERVER_ERROR,
                }
            } else {
                e.status == NOT_FOUND && e.message@ == "unknown path"@
            },
        },
{
    if path.eq("/new") {
        Ok(Route::New)
    } else if path.eq("/join") {
        let full_uri = "test:".to_owned().concat(uri);
        match parse_query(full_uri.as_str()) {
            Ok(query) => join_route(Ok(query)),
            Err(e) => join_route(Err(e.to_string())),
        }
    } else {
        Err(Error::new(NOT_FOUND, "unknown path"))
    }
}

} // verus!
