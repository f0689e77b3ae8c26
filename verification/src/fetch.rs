//! Downloads: which request a fetch sends, and what its answer means.
//!
//! Sending the request and saving the body are left to the caller. This
//! module decides the method, the headers and whether an answer counts as a
//! success.

use crate::failure::{is_refusal, Failure};
use crate::text::chars_of;
use vstd::prelude::*;
use vstd::string::*;

verus! {

/// How the remote object is addressed.
#[derive(Debug, Clone, Copy, PartialEq, Eq)]
pub enum FetchMode {
    /// The URL names the object; the token, if any, authorises the request.
    Default,
    /// The URL is the same for every object; a header names the one wanted.
    ContentAddressed,
}

/// The HTTP method of a planned request.
#[derive(Debug, Clone, Copy, PartialEq, Eq)]
pub enum Method {
    Get,
    Post,
}

/// What the caller asks for.
#[derive(Debug, Clone, PartialEq, Eq)]
pub struct FetchRequest {
    pub url: String,
    pub token: Option<String>,
    pub mode: FetchMode,
    pub target: Option<String>,
    /// Accept a server whose certificate does not validate. Off unless the
    /// caller turns it on.
    pub accept_invalid_certs: bool,
}

/// One header of a planned request.
#[derive(Debug, Clone, PartialEq, Eq)]
pub struct Header {
    pub name: String,
    pub value: String,
}

/// The request to send. Its body is always empty.
#[derive(Debug, Clone, PartialEq, Eq)]
pub struct HttpCall {
    pub method: Method,
    pub url: String,
    pub headers: Vec<Header>,
    pub accept_invalid_certs: bool,
}

impl Header {
    /// Name and value as texts.
    pub open spec fn view(&self) -> (Seq<char>, Seq<char>) {
        (self.name@, self.value@)
    }
}

/// The headers as pairs of texts, in order.
pub open spec fn header_views(headers: Seq<Header>) -> Seq<(Seq<char>, Seq<char>)> {
    headers.map_values(|h: Header| h@)
}

/// The text of an optional string; nothing for an absent one.
pub open spec fn text_or_empty(t: Option<String>) -> Seq<char> {
    match t {
        Some(s) => s@,
        None => Seq::empty(),
    }
}

/// The value of an `Authorization` header that carries `token`.
pub open spec fn bearer_text(token: Seq<char>) -> Seq<char> {
    "Bearer "@ + token
}

/// Headers of a default fetch: the token where there is one, else none.
pub open spec fn default_headers(token: Option<String>) -> Seq<(Seq<char>, Seq<char>)> {
    match token {
        Some(t) => seq![("Authorization"@, bearer_text(t@))],
        None => seq![],
    }
}

/// Headers of a content-addressed fetch: the token, then the argument that
/// names the object.
pub open spec fn content_addressed_headers(token: Seq<char>, api_arg: Seq<char>) -> Seq<
    (Seq<char>, Seq<char>),
> {
    seq![("Authorization"@, bearer_text(token)), ("Dropbox-API-Arg"@, api_arg)]
}

/// The text that `serde_json` prints for an object with the single member
/// `key`, whose value is the string `value`.
pub uninterp spec fn json_object_text(key: Seq<char>, value: Seq<char>) -> Seq<char>;

/// Builds a `serde_json::Value::Object` with one member, `key` mapped to the
/// string `value`, and prints it with `Value`'s `to_string`. The printed text
/// depends on the two strings alone; the contract gives it a name and claims
/// nothing else of it.
#[verifier::external_body]
fn json_object(key: &str, value: &str) -> (text: String)
    ensures
        text@ == json_object_text(key@, value@),
{
    let mut members = serde_json::Map::new();
    members.insert(key.to_string(), serde_json::Value::String(value.to_string()));
    serde_json::Value::Object(members).to_string()
}

/// Whether two strings hold the same text.
fn same_text(a: &str, b: &str) -> (r: bool)
    ensures
        r == (a@ == b@),
{
    let x = chars_of(a);
    let y = chars_of(b);
    if x.len() != y.len() {
        return false;
    }
    let mut i: usize = 0;
    while i < x.len()
        invariant
            x@ == a@,
            y@ == b@,
            x.len() == y.len(),
            i <= x.len(),
            forall|j: int| 0 <= j < i ==> x@[j] == y@[j],
        decreases x.len() - i,
    {
        if x[i] != y[i] {
            return false;
        }
        i += 1;
    }
    assert(x@ =~= y@);
    true
}

/// The mode that a caller names: `"dropbox"` asks for a content-addressed
/// fetch, anything else, or no name, for the default one.
pub fn mode_from_name(name: Option<&str>) -> (mode: FetchMode)
    ensures
        mode is ContentAddressed <==> (name matches Some(n) && n@ == "dropbox"@),
{
    match name {
        Some(n) => {
            if same_text(n, "dropbox") {
                FetchMode::ContentAddressed
            } else {
                FetchMode::Default
            }
        },
        None => FetchMode::Default,
    }
}

/// An `Authorization` header for `token`.
fn authorization(token: &str) -> (h: Header)
    ensures
        h@ == ("Authorization"@, bearer_text(token@)),
{
    let mut value: String = "Bearer ".to_owned();
    value.append(token);
    Header { name: "Authorization".to_owned(), value }
}

/// The request of a default fetch: a GET of `url`, authorised by the token
/// where there is one.
pub fn default_call(url: &str, token: &Option<String>, accept_invalid_certs: bool) -> (call:
    HttpCall)
    ensures
        call.method is Get,
        call.url@ == url@,
        header_views(call.headers@) == default_headers(*token),
        call.accept_invalid_certs == accept_invalid_certs,
{
    let mut headers: Vec<Header> = Vec::new();
    match token {
        Some(t) => {
            headers.push(authorization(t.as_str()));
        },
        None => {},
    }
    assert(header_views(headers@) =~= default_headers(*token));
    HttpCall { method: Method::Get, url: url.to_owned(), headers, accept_invalid_certs }
}

/// The request of a content-addressed fetch, given the token and the
/// argument that names the object: a POST of `url` with the two, each in a
/// header of its own.
pub fn content_addressed_call(
    url: &str,
    token: &str,
    api_arg: String,
    accept_invalid_certs: bool,
) -> (call: HttpCall)
    ensures
        call.method is Post,
        call.url@ == url@,
        header_views(call.headers@) == content_addressed_headers(token@, api_arg@),
        call.accept_invalid_certs == accept_invalid_certs,
{
    let mut headers: Vec<Header> = Vec::new();
    headers.push(authorization(token));
    headers.push(Header { name: "Dropbox-API-Arg".to_owned(), value: api_arg });
    assert(header_views(headers@) =~= content_addressed_headers(token@, api_arg@));
    HttpCall { method: Method::Post, url: url.to_owned(), headers, accept_invalid_certs }
}

/// A content-addressed fetch that was given no token. It cannot be sent:
/// the token is mandatory there.
pub open spec fn lacks_token(request: FetchRequest) -> bool {
    request.mode is ContentAddressed && request.token is None
}

/// `call` is the request that `request` stands for.
pub open spec fn planned(request: FetchRequest, call: HttpCall) -> bool {
    &&& call.url@ == request.url@
    &&& call.accept_invalid_certs == request.accept_invalid_certs
    &&& match request.mode {
        FetchMode::Default => {
            &&& call.method is Get
            &&& header_views(call.headers@) == default_headers(request.token)
        },
        FetchMode::ContentAddressed => {
            &&& request.token matches Some(token)
            &&& call.method is Post
            &&& header_views(call.headers@) == content_addressed_headers(
                token@,
                json_object_text("path"@, text_or_empty(request.target)),
            )
        },
    }
}

/// Plans the request for a fetch.
///
/// A default fetch is a GET that carries the token only where one was given.
/// A content-addressed fetch is a POST that carries the token and names the
/// object in a JSON object with the one member `path`; an absent target is
/// the empty path. The token is mandatory there: without one the fetch is
/// refused as invalid input, and no request is planned.
pub fn plan_fetch(request: &FetchRequest) -> (r: Result<HttpCall, Failure>)
    ensures
        lacks_token(*request) ==> (r matches Err(e) && is_refusal(
            e,
            "a content-addressed fetch needs a bearer token"@,
        )),
        !lacks_token(*request) ==> (r matches Ok(call) && planned(*request, call)),
{
    match request.mode {
        FetchMode::Default => Ok(
            default_call(request.url.as_str(), &request.token, request.accept_invalid_certs),
        ),
        FetchMode::ContentAddressed => {
            let target: &str = match &request.target {
                Some(t) => t.as_str(),
                None => "",
            };
            let token: &str = match &request.token {
                Some(t) => t.as_str(),
                None => {
                    return Err(
                        Failure::InvalidInput {
                            detail: "a content-addressed fetch needs a bearer token".to_owned(),
                        },
                    );
                },
            };
            proof {
                reveal_strlit("");
                assert(""@ =~= Seq::<char>::empty());
            }
            let api_arg = json_object("path", target);
            Ok(
                content_addressed_call(
                    request.url.as_str(),
                    token,
                    api_arg,
                    request.accept_invalid_certs,
                ),
            )
        },
    }
}

/// A status in the success range, 200 to 299.
pub open spec fn success_status(status: u16) -> bool {
    200 <= status < 300
}

/// Decides [`success_status`].
pub fn is_success(status: u16) -> (r: bool)
    ensures
        r == success_status(status),
{
    200 <= status && status < 300
}

/// The body reported for a rejected request: the text that was read, or a
/// placeholder where reading it failed.
pub open spec fn reported_body(error_body: Option<String>) -> Seq<char> {
    match error_body {
        Some(b) => b@,
        None => "Could not read error response"@,
    }
}

/// Judges the answer to a request by its status. `error_body` is the body
/// text of a rejected answer, `None` if it could not be read; it is ignored
/// for a success.
///
/// A rejection carries the status and the body. A body that could not be read
/// is no failure of its own: a placeholder is reported in its place.
pub fn judge_response(status: u16, error_body: Option<String>) -> (r: Result<(), Failure>)
    ensures
        success_status(status) ==> r is Ok,
        !success_status(status) ==> (r matches Err(Failure::RemoteRejected { status: s, body })
            && s == status && body@ == reported_body(error_body)),
{
    if is_success(status) {
        Ok(())
    } else {
        let body: String = match error_body {
            Some(b) => b,
            None => "Could not read error response".to_owned(),
        };
        Err(Failure::RemoteRejected { status, body })
    }
}

} // verus!
