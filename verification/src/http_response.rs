use vstd::prelude::*;
use vstd::utf8::encode_utf8;
use crate::errors::{ErrorType, HTTPError, error_text};
use crate::text::{push_text, text_bytes, text_eq};

verus! {

/// The statuses the HTTP front end answers with.
#[derive(PartialEq, Eq, Structural, Clone, Copy)]
pub enum HTTPStatus {
    OK,
    Created,
    BadRequest,
    NotFound,
    MethodNotAllowed,
    InternalServerError,
}

/// The status line text of a status.
pub open spec fn status_text(s: HTTPStatus) -> Seq<char> {
    match s {
        HTTPStatus::OK => "200 OK"@,
        HTTPStatus::Created => "201 Created"@,
        HTTPStatus::BadRequest => "400 Bad Request"@,
        HTTPStatus::NotFound => "404 Not Found"@,
        HTTPStatus::MethodNotAllowed => "405 Method Not Allowed"@,
        HTTPStatus::InternalServerError => "500 Internal Server Error"@,
    }
}

/// The status that answers a request's outcome: `201` for a created
/// resource, `200` for any other success, and for an error its HTTP status,
/// or `500` where it is no HTTP error.
pub open spec fn status_of(result: Result<String, ErrorType>, method: Seq<char>) -> HTTPStatus {
    match result {
        Ok(_) => if method == "POST"@ { HTTPStatus::Created } else { HTTPStatus::OK },
        Err(ErrorType::HTTPError(HTTPError::NotFound(_))) => HTTPStatus::NotFound,
        Err(ErrorType::HTTPError(HTTPError::MethodNotAllowed(_))) => HTTPStatus::MethodNotAllowed,
        Err(ErrorType::HTTPError(HTTPError::BadRequest(_))) => HTTPStatus::BadRequest,
        Err(_) => HTTPStatus::InternalServerError,
    }
}

impl HTTPStatus {
    /// The status line text, code and reason.
    pub fn http_to_string(&self) -> (r: String)
        ensures
            r@ == status_text(*self),
    {
        match self {
            HTTPStatus::OK => String::from_str("200 OK"),
            HTTPStatus::Created => String::from_str("201 Created"),
            HTTPStatus::BadRequest => String::from_str("400 Bad Request"),
            HTTPStatus::NotFound => String::from_str("404 Not Found"),
            HTTPStatus::MethodNotAllowed => String::from_str("405 Method Not Allowed"),
            HTTPStatus::InternalServerError => String::from_str("500 Internal Server Error"),
        }
    }
}

/// An HTTP answer: status, headers and body.
pub struct HTTPResponse {
    pub status: HTTPStatus,
    pub headers: Vec<(String, String)>,
    pub body: String,
}

/// The header lines of an answer.
pub open spec fn header_lines(h: Seq<(String, String)>) -> Seq<char>
    decreases h.len(),
{
    if h.len() == 0 {
        Seq::empty()
    } else {
        header_lines(h.drop_last()) + h.last().0@ + " "@ + h.last().1@ + "\r\n"@
    }
}

/// The text of an answer as it is sent.
pub open spec fn response_text(r: HTTPResponse) -> Seq<char> {
    "HTTP/1.1 "@ + status_text(r.status) + "\r\n"@ + header_lines(r.headers@) + "\r\n"@ + r.body@
}

impl HTTPResponse {
    /// The answer to a request's outcome: a JSON body on success, the error's
    /// message as plain text otherwise.
    pub fn new(result: &Result<String, ErrorType>, method: &str) -> (r: HTTPResponse)
        ensures
            r.status == status_of(*result, method@),
            r.headers@.len() == 1,
            r.headers@[0].0@ == "Content-Type:"@,
            result is Ok ==> r.headers@[0].1@ == "application/json"@,
            result is Err ==> r.headers@[0].1@ == "text/plain"@,
            result matches Ok(b) ==> r.body@ == (*b)@,
            result matches Err(e) ==> (error_text(*e) matches Some(t) ==> r.body@ == t),
    {
        match result {
            Ok(body) => {
                let status = if text_eq(method, "POST") { HTTPStatus::Created } else { HTTPStatus::OK };
                let mut headers: Vec<(String, String)> = Vec::new();
                headers.push((String::from_str("Content-Type:"), String::from_str("application/json")));
                HTTPResponse { status, headers, body: body.clone() }
            },
            Err(err) => {
                let status = match err {
                    ErrorType::HTTPError(HTTPError::NotFound(_)) => HTTPStatus::NotFound,
                    ErrorType::HTTPError(HTTPError::MethodNotAllowed(_)) => HTTPStatus::MethodNotAllowed,
                    ErrorType::HTTPError(HTTPError::BadRequest(_)) => HTTPStatus::BadRequest,
                    _ => HTTPStatus::InternalServerError,
                };
                let mut headers: Vec<(String, String)> = Vec::new();
                headers.push((String::from_str("Content-Type:"), String::from_str("text/plain")));
                HTTPResponse { status, headers, body: err.to_string() }
            },
        }
    }

    /// The answer as the bytes sent: the status line, a line per header, an
    /// empty line and the body.
    pub fn as_bytes(&self) -> (r: Vec<u8>)
        ensures
            r@ == encode_utf8(response_text(*self)),
    {
        let mut response = String::from_str("HTTP/1.1 ");
        push_text(&mut response, self.status.http_to_string().as_str());
        push_text(&mut response, "\r\n");
        let ghost head = response@;
        let mut k: usize = 0;
        while k < self.headers.len()
            invariant
                k <= self.headers@.len(),
                response@ == head + header_lines(self.headers@.subrange(0, k as int)),
            decreases self.headers.len() - k,
        {
            proof {
                let s = self.headers@.subrange(0, k + 1);
                assert(s.drop_last() =~= self.headers@.subrange(0, k as int));
            }
            push_text(&mut response, self.headers[k].0.as_str());
            push_text(&mut response, " ");
            push_text(&mut response, self.headers[k].1.as_str());
            push_text(&mut response, "\r\n");
            k = k + 1;
        }
        assert(self.headers@.subrange(0, k as int) =~= self.headers@);
        push_text(&mut response, "\r\n");
        push_text(&mut response, self.body.as_str());
        text_bytes(response.as_str())
    }

    /// The status line text of the answer.
    pub fn get_status(&self) -> (r: String)
        ensures
            r@ == status_text(self.status),
    {
        self.status.http_to_string()
    }
}

} // verus!
