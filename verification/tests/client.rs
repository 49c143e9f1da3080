use notify_cli::client::{api_response, gmail_answer, gmail_request, http_answer, json_post_request, slack_request, slack_response, status_error, transport_error};
use notify_cli::error::{Error, ErrorCode};
use notify_cli::json::Json;

fn render(j: &Json) -> String {
    match j {
        Json::Null => "null".to_string(),
        Json::Bool(b) => b.to_string(),
        Json::Number(n) => n.clone(),
        Json::Str(s) => format!("{s:?}"),
        Json::Array(v) => format!("[{}]", v.iter().map(render).collect::<Vec<_>>().join(",")),
        Json::Object(e) => {
            format!("{{{}}}", e.iter().map(|(k, v)| format!("{k:?}:{}", render(v))).collect::<Vec<_>>().join(","))
        }
    }
}

#[test]
fn status_errors_by_category() {
    let cases: [(u16, ErrorCode, &str, &str); 7] = [
        (400, ErrorCode::InvalidInput, "Gmail API rejected request as invalid.", "Verify payload structure and parameter values."),
        (401, ErrorCode::AuthRequired, "Gmail API authentication failed.", "Check credentials, webhook URL, or OAuth token permissions."),
        (403, ErrorCode::AuthRequired, "Gmail API authentication failed.", "Check credentials, webhook URL, or OAuth token permissions."),
        (404, ErrorCode::NotFound, "Gmail API endpoint not found.", "Verify the URL or profile configuration."),
        (429, ErrorCode::RateLimited, "Gmail API rate limit exceeded.", "Wait and back off before retrying."),
        (503, ErrorCode::Network, "Gmail API returned a server error.", "Upstream server is experiencing issues. Retry once, then stop."),
        (302, ErrorCode::Error, "Gmail API request failed.", "Inspect the error response details above."),
    ];
    for (status, code, message, fix) in cases {
        let e = status_error(status, "oops", "Gmail API");
        assert_eq!(e.code, code);
        assert_eq!(e.message, message);
        assert_eq!(e.detail, Some(format!("HTTP {status}: oops")));
        assert_eq!(e.remediation.as_deref(), Some(fix));
    }
    let e = status_error(599, "", "HTTP API");
    assert_eq!(e.code, ErrorCode::Network);
    assert_eq!(e.detail.as_deref(), Some("HTTP 599"));
    assert_eq!(status_error(600, "", "HTTP API").code, ErrorCode::Error);
}

#[test]
fn transport_errors() {
    let e = transport_error(true, "timeout: global");
    assert_eq!(e.code, ErrorCode::Network);
    assert_eq!(e.message, "The HTTP request timed out.");
    assert_eq!(e.detail, None);
    assert_eq!(e.remediation.as_deref(), Some("Retry once, then stop."));
    let e = transport_error(false, "dns failed");
    assert_eq!(e.message, "Could not reach the remote API.");
    assert_eq!(e.detail.as_deref(), Some("dns failed"));
    assert_eq!(e.remediation.as_deref(), Some("Check internet connection and endpoint URL, then retry."));
}

#[test]
fn gmail_requests() {
    let r = gmail_request("ya29.tok", None, "cmF3", false);
    assert_eq!(r.url, "https://gmail.googleapis.com/gmail/v1/users/me/messages/send");
    assert_eq!(r.authorization.as_deref(), Some("Bearer ya29.tok"));
    assert_eq!(render(&r.body), "{\"raw\":\"cmF3\"}");
    let d = gmail_request("", Some("http://localhost:9/drafts"), "cmF3", true);
    assert_eq!(d.url, "http://localhost:9/drafts");
    assert_eq!(d.authorization, None);
    assert_eq!(render(&d.body), "{\"message\":{\"raw\":\"cmF3\"}}");
    assert_eq!(gmail_request("t", None, "x", true).url, "https://gmail.googleapis.com/gmail/v1/users/me/drafts");
}

#[test]
fn slack_requests_and_answers() {
    let r = slack_request("https://hooks.slack.com/x", Json::Object(vec![("text".to_string(), Json::Str("hi".to_string()))]));
    assert_eq!(r.url, "https://hooks.slack.com/x");
    assert_eq!(r.authorization, None);
    assert_eq!(render(&r.body), "{\"text\":\"hi\"}");
    assert!(slack_response(200, "ok").is_ok());
    let e: Error = slack_response(403, "invalid_token").unwrap_err();
    assert_eq!(e.code, ErrorCode::AuthRequired);
    assert_eq!(e.message, "Slack Webhook API authentication failed.");
    assert_eq!(e.detail.as_deref(), Some("HTTP 403: invalid_token"));
    assert!(slack_response(201, "").is_err());
}

#[test]
fn api_answers() {
    assert_eq!(render(&api_response(200, "  ", None, "Gmail API").unwrap()), "{}");
    let parsed = Json::Object(vec![("id".to_string(), Json::Str("msg_999".to_string()))]);
    assert_eq!(render(&api_response(200, "{\"id\":\"msg_999\"}", Some(parsed), "Gmail API").unwrap()), "{\"id\":\"msg_999\"}");
    assert_eq!(render(&api_response(204, "done", None, "Gmail API").unwrap()), "\"done\"");
    let e = api_response(401, "{\"error\":\"invalid_grant\"}", None, "Gmail API").unwrap_err();
    assert_eq!(e.code, ErrorCode::AuthRequired);
    assert_eq!(e.detail.as_deref(), Some("HTTP 401: {\"error\":\"invalid_grant\"}"));
}

#[test]
fn answers_parsed_from_text_and_serialised_requests() {
    assert_eq!(render(&gmail_answer(200, "{\"id\":\"msg_999\"}").unwrap()), "{\"id\":\"msg_999\"}");
    assert_eq!(render(&gmail_answer(200, "").unwrap()), "{}");
    assert_eq!(render(&gmail_answer(202, "accepted").unwrap()), "\"accepted\"");
    let e = gmail_answer(401, "{\"error\":\"invalid_grant\"}").unwrap_err();
    assert_eq!(e.message, "Gmail API authentication failed.");
    let e = http_answer(404, "").unwrap_err();
    assert_eq!(e.message, "HTTP API endpoint not found.");
    let r = json_post_request("http://x/y", Some("tok"), Json::Object(vec![("a".to_string(), Json::Number("1".to_string()))]));
    assert_eq!(r.authorization.as_deref(), Some("Bearer tok"));
    assert_eq!(r.bytes, b"{\"a\":1}".to_vec());
    assert_eq!(json_post_request("http://x", None, Json::Null).authorization, None);
    let g = gmail_request("t", None, "cmF3", true);
    assert_eq!(g.bytes, b"{\"message\":{\"raw\":\"cmF3\"}}".to_vec());
}
