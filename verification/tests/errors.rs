use notify_cli::error::{envelope, Error, ErrorCode};
use notify_cli::json::Json;

#[test]
fn exit_codes_and_names() {
    let all = [
        (ErrorCode::Error, 1, "error"),
        (ErrorCode::Network, 2, "network"),
        (ErrorCode::AuthRequired, 3, "auth_required"),
        (ErrorCode::NotFound, 4, "not_found"),
        (ErrorCode::RateLimited, 5, "rate_limited"),
        (ErrorCode::InvalidInput, 6, "invalid_input"),
        (ErrorCode::NoAccount, 7, "no_account"),
    ];
    for (c, n, s) in all {
        assert_eq!(c.exit_code(), n);
        assert_eq!(c.as_str(), s);
    }
    for (a, _, _) in all {
        for (b, _, _) in all {
            assert_eq!(a.exit_code() == b.exit_code(), a == b);
        }
    }
}

#[test]
fn error_builders() {
    let e = Error::invalid("bad").detail("why").fix("how");
    assert_eq!(e.code, ErrorCode::InvalidInput);
    assert_eq!(e.message, "bad");
    assert_eq!(e.detail.as_deref(), Some("why"));
    assert_eq!(e.remediation.as_deref(), Some("how"));
    assert_eq!(Error::auth("a").code, ErrorCode::AuthRequired);
    assert_eq!(Error::no_account("a").code, ErrorCode::NoAccount);
    assert_eq!(Error::not_found("a").code, ErrorCode::NotFound);
    assert_eq!(Error::other("a").code, ErrorCode::Error);
    let e = Error::new(ErrorCode::RateLimited, "slow");
    assert_eq!(e.code, ErrorCode::RateLimited);
    assert_eq!(e.detail, None);
    assert_eq!(e.remediation, None);
}

#[test]
fn error_envelopes() {
    let e = Error::no_account("Slack profile 'missing' not found.").detail("Available profiles: alerts, team").fix("Add it.");
    match envelope(&e) {
        Json::Object(entries) => {
            let keys: Vec<&str> = entries.iter().map(|(k, _)| k.as_str()).collect();
            assert_eq!(keys, vec!["error", "code", "detail", "remediation"]);
            assert!(matches!(&entries[1].1, Json::Str(s) if s == "no_account"));
            assert!(matches!(&entries[0].1, Json::Str(s) if s == "Slack profile 'missing' not found."));
        }
        _ => panic!("an envelope is an object"),
    }
    match envelope(&Error::invalid("bad")) {
        Json::Object(entries) => assert_eq!(entries.len(), 2),
        _ => panic!("an envelope is an object"),
    }
}
