//! What goes over the wire to the Slack and Gmail APIs, and how their answers are read.

use vstd::prelude::*;
use vstd::string::*;

use crate::error::{Error, ErrorCode, ErrorView};
use crate::json::{json_bytes, json_empty_object, json_object1, json_serialized, json_str, json_text_value, parse_json, Json, JsonView};
use crate::text::{chars_of, decimal, decimal_chars, push_chars, trim, trim_chars};

verus! {

/// The detail line of a failed HTTP call: `HTTP <status>`, then `: <body>` when there is a body.
pub open spec fn http_detail(status: u16, body: Seq<char>) -> Seq<char> {
    "HTTP "@ + decimal(status as nat) + if body.len() == 0 {
        Seq::<char>::empty()
    } else {
        ": "@ + body
    }
}

/// The category of an HTTP failure status.
pub open spec fn status_category(status: u16) -> ErrorCode {
    if status == 400 {
        ErrorCode::InvalidInput
    } else if status == 401 || status == 403 {
        ErrorCode::AuthRequired
    } else if status == 404 {
        ErrorCode::NotFound
    } else if status == 429 {
        ErrorCode::RateLimited
    } else if 500 <= status <= 599 {
        ErrorCode::Network
    } else {
        ErrorCode::Error
    }
}

/// What follows the service name in the message of an HTTP failure.
pub open spec fn status_message_tail(status: u16) -> Seq<char> {
    if status == 400 {
        " rejected request as invalid."@
    } else if status == 401 || status == 403 {
        " authentication failed."@
    } else if status == 404 {
        " endpoint not found."@
    } else if status == 429 {
        " rate limit exceeded."@
    } else if 500 <= status <= 599 {
        " returned a server error."@
    } else {
        " request failed."@
    }
}

/// The remediation of an HTTP failure.
pub open spec fn status_fix(status: u16) -> Seq<char> {
    if status == 400 {
        "Verify payload structure and parameter values."@
    } else if status == 401 || status == 403 {
        "Check credentials, webhook URL, or OAuth token permissions."@
    } else if status == 404 {
        "Verify the URL or profile configuration."@
    } else if status == 429 {
        "Wait and back off before retrying."@
    } else if 500 <= status <= 599 {
        "Upstream server is experiencing issues. Retry once, then stop."@
    } else {
        "Inspect the error response details above."@
    }
}

/// The error for a non-success HTTP status from `service`.
pub open spec fn status_error_view(status: u16, body: Seq<char>, service: Seq<char>) -> ErrorView {
    ErrorView {
        code: status_category(status),
        message: service + status_message_tail(status),
        detail: Some(http_detail(status, body)),
        remediation: Some(status_fix(status)),
    }
}

/// Every 5xx answer is a server error: a network failure (exit code 2) named as a server error
/// of the service, with the advice to retry once and stop, and the status and body as detail.
pub proof fn law_server_errors_are_network(status: u16, body: Seq<char>, service: Seq<char>)
    requires
        500 <= status <= 599,
    ensures
        status_error_view(status, body, service).code == ErrorCode::Network,
        crate::error::exit_code_of(status_error_view(status, body, service).code) == 2,
        status_error_view(status, body, service).message == service + " returned a server error."@,
        status_error_view(status, body, service).remediation == Some(
            "Upstream server is experiencing issues. Retry once, then stop."@,
        ),
        status_error_view(status, body, service).detail == Some(http_detail(status, body)),
{
}

/// The category and message of every failed status: 400 is invalid input ("rejected request as
/// invalid"), 401 and 403 are authentication failures, 404 is not found, 429 is rate limiting,
/// any other status outside 500–599 is an unclassified error ("request failed"). The detail
/// always names the status.
pub proof fn law_status_categories(status: u16, body: Seq<char>, service: Seq<char>)
    ensures
        status == 400 ==> status_error_view(status, body, service).code == ErrorCode::InvalidInput
            && status_error_view(status, body, service).message == service + " rejected request as invalid."@,
        (status == 401 || status == 403) ==> status_error_view(status, body, service).code
            == ErrorCode::AuthRequired && status_error_view(status, body, service).message == service
            + " authentication failed."@,
        status == 404 ==> status_error_view(status, body, service).code == ErrorCode::NotFound
            && status_error_view(status, body, service).message == service + " endpoint not found."@,
        status == 429 ==> status_error_view(status, body, service).code == ErrorCode::RateLimited
            && status_error_view(status, body, service).message == service + " rate limit exceeded."@,
        (status != 400 && status != 401 && status != 403 && status != 404 && status != 429 && !(500
            <= status <= 599)) ==> status_error_view(status, body, service).code == ErrorCode::Error
            && status_error_view(status, body, service).message == service + " request failed."@,
        status_error_view(status, body, service).detail == Some(
            "HTTP "@ + decimal(status as nat) + if body.len() == 0 {
                Seq::<char>::empty()
            } else {
                ": "@ + body
            },
        ),
{
}

/// Maps a failed HTTP response to an error: 400 invalid input, 401/403 authentication,
/// 404 not found, 429 rate limit, 5xx network, anything else unclassified.
pub fn status_error(status: u16, body: &str, service: &str) -> (r: Error)
    ensures
        r@ == status_error_view(status, body@, service@),
{
    let mut detail = String::from_str("HTTP ");
    push_chars(&mut detail, &decimal_chars(status as u64));
    if !body.is_empty() {
        detail.append(": ");
        detail.append(body);
    }
    assert(detail@ == http_detail(status, body@));
    let mut message = String::from_str(service);
    let (code, tail, fix) = if status == 400 {
        (
            ErrorCode::InvalidInput,
            " rejected request as invalid.",
            "Verify payload structure and parameter values.",
        )
    } else if status == 401 || status == 403 {
        (
            ErrorCode::AuthRequired,
            " authentication failed.",
            "Check credentials, webhook URL, or OAuth token permissions.",
        )
    } else if status == 404 {
        (ErrorCode::NotFound, " endpoint not found.", "Verify the URL or profile configuration.")
    } else if status == 429 {
        (ErrorCode::RateLimited, " rate limit exceeded.", "Wait and back off before retrying.")
    } else if 500 <= status && status <= 599 {
        (
            ErrorCode::Network,
            " returned a server error.",
            "Upstream server is experiencing issues. Retry once, then stop.",
        )
    } else {
        (ErrorCode::Error, " request failed.", "Inspect the error response details above.")
    };
    message.append(tail);
    assert(message@ == service@ + status_message_tail(status));
    assert(fix@ == status_fix(status));
    assert(code == status_category(status));
    Error {
        code,
        message,
        detail: Some(detail),
        remediation: Some(String::from_str(fix)),
    }
}

/// The error for a failed transport: a timeout, or any other failure with its description.
pub open spec fn transport_error_view(timed_out: bool, description: Seq<char>) -> ErrorView {
    if timed_out {
        ErrorView {
            code: ErrorCode::Network,
            message: "The HTTP request timed out."@,
            detail: None,
            remediation: Some("Retry once, then stop."@),
        }
    } else {
        ErrorView {
            code: ErrorCode::Network,
            message: "Could not reach the remote API."@,
            detail: Some(description),
            remediation: Some("Check internet connection and endpoint URL, then retry."@),
        }
    }
}

/// Maps a transport failure (no HTTP status came back) to a network error.
pub fn transport_error(timed_out: bool, description: &str) -> (r: Error)
    ensures
        r@ == transport_error_view(timed_out, description@),
{
    if timed_out {
        Error::new(ErrorCode::Network, "The HTTP request timed out.").fix("Retry once, then stop.")
    } else {
        Error::new(ErrorCode::Network, "Could not reach the remote API.").detail(description).fix(
            "Check internet connection and endpoint URL, then retry.",
        )
    }
}

/// An HTTP POST of a JSON document.
pub struct JsonPost {
    pub url: String,
    /// The value of the `Authorization` header, when one is sent.
    pub authorization: Option<String>,
    pub body: Json,
    /// The body as sent: its JSON serialisation.
    pub bytes: Vec<u8>,
}

/// `{"raw": raw}`, or `{"message": {"raw": raw}}` for a draft.
pub open spec fn gmail_payload(raw: Seq<char>, is_draft: bool) -> JsonView {
    let inner = JsonView::Object(seq![("raw"@, JsonView::Str(raw))]);
    if is_draft {
        JsonView::Object(seq![("message"@, inner)])
    } else {
        inner
    }
}

/// The Gmail API endpoint used when none is given.
pub open spec fn gmail_default_endpoint(is_draft: bool) -> Seq<char> {
    if is_draft {
        "https://gmail.googleapis.com/gmail/v1/users/me/drafts"@
    } else {
        "https://gmail.googleapis.com/gmail/v1/users/me/messages/send"@
    }
}

/// The request that sends (or, as a draft, stores) a raw base64url message through the Gmail
/// REST API: the override endpoint or the default one, a bearer token when the token is not
/// empty, and the raw message in the payload.
pub fn gmail_request(token: &str, endpoint_override: Option<&str>, raw_base64url: &str, is_draft: bool) -> (r: JsonPost)
    ensures
        r.url@ == match endpoint_override {
            Some(e) => e@,
            None => gmail_default_endpoint(is_draft),
        },
        r.authorization is Some <==> token@.len() > 0,
        r.authorization matches Some(a) ==> a@ == "Bearer "@ + token@,
        r.body@ == gmail_payload(raw_base64url@, is_draft),
        r.bytes@ == json_serialized(r.body@),
{
    let default_endpoint = if is_draft {
        "https://gmail.googleapis.com/gmail/v1/users/me/drafts"
    } else {
        "https://gmail.googleapis.com/gmail/v1/users/me/messages/send"
    };
    let url = match endpoint_override {
        Some(e) => String::from_str(e),
        None => String::from_str(default_endpoint),
    };
    let inner = json_object1("raw", json_str(raw_base64url));
    let body = if is_draft {
        json_object1("message", inner)
    } else {
        inner
    };
    let authorization = if !token.is_empty() {
        let mut a = String::from_str("Bearer ");
        a.append(token);
        Some(a)
    } else {
        None
    };
    let bytes = json_bytes(&body);
    JsonPost { url, authorization, body, bytes }
}

/// The request that posts a payload to a Slack incoming webhook.
pub fn slack_request(url: &str, payload: Json) -> (r: JsonPost)
    ensures
        r.url@ == url@,
        r.authorization is None,
        r.body@ == payload@,
        r.bytes@ == json_serialized(payload@),
{
    let bytes = json_bytes(&payload);
    JsonPost { url: String::from_str(url), authorization: None, body: payload, bytes }
}

/// A generic JSON POST: the body to `url`, with a bearer token when one is given.
pub fn json_post_request(url: &str, bearer: Option<&str>, body: Json) -> (r: JsonPost)
    ensures
        r.url@ == url@,
        r.authorization is Some <==> bearer is Some,
        r.authorization matches Some(a) ==> a@ == "Bearer "@ + bearer->0@,
        r.body@ == body@,
        r.bytes@ == json_serialized(body@),
{
    let authorization = match bearer {
        Some(t) => {
            let mut a = String::from_str("Bearer ");
            a.append(t);
            Some(a)
        },
        None => None,
    };
    let bytes = json_bytes(&body);
    JsonPost { url: String::from_str(url), authorization, body, bytes }
}

/// What a Slack webhook answer means: status 200 is delivery, anything else an error.
pub fn slack_response(status: u16, body: &str) -> (r: Result<(), Error>)
    ensures
        status == 200 <==> r is Ok,
        r matches Err(e) ==> e@ == status_error_view(status, body@, "Slack Webhook API"@),
{
    if status == 200 {
        Ok(())
    } else {
        Err(status_error(status, body, "Slack Webhook API"))
    }
}

/// The JSON value of a 2xx answer: `{}` for an empty body, the parsed document when the body
/// is JSON (`parsed` is the parse of `body`), else the body as a string.
pub open spec fn success_value(body: Seq<char>, parsed: Option<JsonView>) -> JsonView {
    if trim(body).len() == 0 {
        JsonView::Object(Seq::empty())
    } else {
        match parsed {
            Some(j) => j,
            None => JsonView::Str(body),
        }
    }
}

/// What a JSON API answer means: 2xx is success with its value, anything else the error of
/// `service` for that status. `parsed` is the outcome of parsing `body` as JSON.
pub fn api_response(status: u16, body: &str, parsed: Option<Json>, service: &str) -> (r: Result<Json, Error>)
    ensures
        200 <= status < 300 <==> r is Ok,
        r matches Ok(j) ==> j@ == success_value(
            body@,
            match parsed {
                Some(p) => Some(p@),
                None => None,
            },
        ),
        r matches Err(e) ==> e@ == status_error_view(status, body@, service@),
{
    if 200 <= status && status < 300 {
        let trimmed = trim_chars(&chars_of(body));
        if trimmed.len() == 0 {
            return Ok(json_empty_object());
        }
        match parsed {
            Some(j) => Ok(j),
            None => Ok(Json::Str(String::from_str(body))),
        }
    } else {
        Err(status_error(status, body, service))
    }
}

/// What a JSON API answered, read from its status and body text (see [`api_response`]); the
/// body is parsed as JSON here.
pub fn api_answer(status: u16, body: &str, service: &str) -> (r: Result<Json, Error>)
    ensures
        200 <= status < 300 <==> r is Ok,
        r matches Ok(j) ==> j@ == success_value(body@, json_text_value(body@)),
        r matches Err(e) ==> e@ == status_error_view(status, body@, service@),
{
    let parsed = match parse_json(body) {
        Ok(j) => Some(j),
        Err(_) => None,
    };
    api_response(status, body, parsed, service)
}

/// What the Gmail API answered.
pub fn gmail_answer(status: u16, body: &str) -> (r: Result<Json, Error>)
    ensures
        200 <= status < 300 <==> r is Ok,
        r matches Ok(j) ==> j@ == success_value(body@, json_text_value(body@)),
        r matches Err(e) ==> e@ == status_error_view(status, body@, "Gmail API"@),
{
    api_answer(status, body, "Gmail API")
}

/// What a generic JSON endpoint answered (errors name the service `HTTP API`).
pub fn http_answer(status: u16, body: &str) -> (r: Result<Json, Error>)
    ensures
        200 <= status < 300 <==> r is Ok,
        r matches Ok(j) ==> j@ == success_value(body@, json_text_value(body@)),
        r matches Err(e) ==> e@ == status_error_view(status, body@, "HTTP API"@),
{
    api_answer(status, body, "HTTP API")
}

} // verus!
