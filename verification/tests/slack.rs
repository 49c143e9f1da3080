use notify_cli::account::ResolvedSlackProfile;
use notify_cli::cli::SlackArgs;
use notify_cli::commands::slack::{
    can_mask, direct_webhook, payload_from_file, payload_from_stdin, payload_from_text, fill_payload, json_file_payload, mask_url, only_slack_profile, payload_source,
    raw_json_payload, slack_destination, slack_record, stdin_payload, text_payload, PayloadSource,
};
use notify_cli::config::{Config, SlackProfile};
use notify_cli::error::ErrorCode;
use notify_cli::json::Json;

fn render(j: &Json) -> String {
    match j {
        Json::Null => "null".to_string(),
        Json::Bool(b) => b.to_string(),
        Json::Number(n) => n.clone(),
        Json::Str(s) => format!("{s:?}"),
        Json::Array(v) => format!("[{}]", v.iter().map(render).collect::<Vec<_>>().join(",")),
        Json::Object(e) => {
            format!("{{{}}}", e.iter().map(|(k, v)| format!("{k:?}:{}", render(v))).collect::<Vec<_>>().join(","))
        }
    }
}

fn args() -> SlackArgs {
    SlackArgs {
        profile: None,
        account: None,
        webhook_url: None,
        message: None,
        json_payload: None,
        json_file: None,
        channel: None,
        username: None,
        icon_emoji: None,
    }
}

#[test]
fn direct_webhooks_must_not_be_blank() {
    let mut a = args();
    assert_eq!(direct_webhook(&a), None);
    a.webhook_url = Some("   ".to_string());
    assert_eq!(direct_webhook(&a), None);
    a.webhook_url = Some("https://hooks.slack.com/x".to_string());
    assert_eq!(direct_webhook(&a).as_deref(), Some("https://hooks.slack.com/x"));
}

#[test]
fn payload_sources() {
    let mut a = args();
    let e = payload_source(&a, false).err().unwrap();
    assert_eq!(e.message, "No message content provided.");
    assert!(matches!(payload_source(&a, true), Ok(PayloadSource::Stdin)));
    a.json_file = Some("p.json".to_string());
    assert!(matches!(payload_source(&a, true), Ok(PayloadSource::JsonFile(f)) if f == "p.json"));
    a.message = Some("hi".to_string());
    let e = payload_source(&a, false).err().unwrap();
    assert_eq!(e.code, ErrorCode::InvalidInput);
    assert_eq!(e.message, "Only one of --message, --json-payload, or --json-file can be used.");
    a.json_file = None;
    assert!(matches!(payload_source(&a, true), Ok(PayloadSource::Message(m)) if m == "hi"));
    let mut b = args();
    b.json_payload = Some("{}".to_string());
    assert!(matches!(payload_source(&b, false), Ok(PayloadSource::RawJson(j)) if j == "{}"));
}

#[test]
fn payload_documents() {
    assert_eq!(render(&text_payload("Hello from test")), "{\"text\":\"Hello from test\"}");
    let e = raw_json_payload(Err("expected value at line 1 column 1".to_string())).err().unwrap();
    assert_eq!(e.message, "Invalid JSON payload: expected value at line 1 column 1");
    let e = json_file_payload("p.json", Err("No such file".to_string()), true).err().unwrap();
    assert_eq!(e.message, "Could not read JSON file 'p.json': No such file");
    let e = json_file_payload("p.json", Err("EOF".to_string()), false).err().unwrap();
    assert_eq!(e.message, "Invalid JSON in file 'p.json': EOF");
    let doc = Json::Object(vec![("text".to_string(), Json::Str("x".to_string()))]);
    assert_eq!(render(&stdin_payload("  {\"text\":\"x\"}\n", Some(doc))), "{\"text\":\"x\"}");
    assert_eq!(render(&stdin_payload("{not json}", None)), "{\"text\":\"{not json}\"}");
    assert_eq!(render(&stdin_payload("plain\n", None)), "{\"text\":\"plain\\n\"}");
}

#[test]
fn defaults_fill_missing_keys_only() {
    let p = Json::Object(vec![
        ("text".to_string(), Json::Str("hi".to_string())),
        ("channel".to_string(), Json::Str("#own".to_string())),
    ]);
    let s = |x: &str| Some(x.to_string());
    let r = fill_payload(p, &s("#test-channel"), &s("Botty"), &None).ok().unwrap();
    assert_eq!(render(&r), "{\"text\":\"hi\",\"channel\":\"#own\",\"username\":\"Botty\"}");
    let e = fill_payload(Json::Array(vec![]), &None, &None, &None).err().unwrap();
    assert_eq!(e.message, "JSON payload must be an object.");
}

#[test]
fn masking_webhook_urls() {
    assert_eq!(mask_url("https://hooks.slack.com/services/T00/B00/X00"), "https://hooks.slack.com/services/T00/B00/***");
    assert_eq!(
        mask_url("https://hooks.slack.com/services/T00/B00/XXXXXXXXabcd"),
        "https://hooks.slack.com/services/T00/B00/...abcd"
    );
    assert_eq!(mask_url("no-slash-at-all"), "***");
    assert_eq!(mask_url("http://h/"), "http://h/***");
    assert!(can_mask("http://h/abcdefg"));
    assert!(!can_mask("http://h/ab€cd"));
    assert!(can_mask("http://h/abcdefg€"));
    assert_eq!(mask_url("http://h/abcdefg€"), "http://h/...g€");
}

#[test]
fn destinations() {
    let mut a = args();
    a.username = Some("Botty".to_string());
    let d = slack_destination(&a, Some("https://direct".to_string()), None);
    assert_eq!(d.webhook_url, "https://direct");
    assert_eq!(d.channel, None);
    assert_eq!(d.username.as_deref(), Some("Botty"));
    let p = ResolvedSlackProfile {
        name: "alerts".to_string(),
        webhook_url: "https://stored".to_string(),
        channel: Some("#alerts".to_string()),
        username: Some("Bot".to_string()),
        icon_emoji: Some(":bell:".to_string()),
        source: "keychain".to_string(),
    };
    let d = slack_destination(&a, None, Some(p));
    assert_eq!(d.webhook_url, "https://stored");
    assert_eq!(d.channel.as_deref(), Some("#alerts"));
    assert_eq!(d.username.as_deref(), Some("Botty"));
    assert_eq!(d.icon_emoji.as_deref(), Some(":bell:"));
}

#[test]
fn implied_profile() {
    let mut cfg = Config::new();
    let e = only_slack_profile(&cfg).err().unwrap();
    assert_eq!(e.message, "Please specify a Slack profile or --webhook-url.");
    assert_eq!(e.detail.as_deref(), Some("Available profiles: (none configured)"));
    cfg.slack.insert("team".to_string(), SlackProfile::default());
    assert_eq!(only_slack_profile(&cfg).ok().unwrap(), "team");
    cfg.slack.insert("alerts".to_string(), SlackProfile::default());
    let e = only_slack_profile(&cfg).err().unwrap();
    assert_eq!(e.detail.as_deref(), Some("Available profiles: team, alerts"));
}

#[test]
fn delivery_report() {
    let r = slack_record(&None, "https://h/***", &Some("#test-channel".to_string()));
    assert_eq!(
        render(&r),
        "{\"status\":\"ok\",\"provider\":\"slack\",\"profile\":\"direct\",\"webhookUrl\":\"https://h/***\",\"channel\":\"#test-channel\",\"delivered\":true}"
    );
    let r = slack_record(&Some("test-profile".to_string()), "x", &None);
    assert!(render(&r).contains("\"profile\":\"test-profile\"") && render(&r).contains("\"channel\":\"\""));
}

#[test]
fn payloads_from_text() {
    let j = payload_from_text("{\"text\":\"Deploy done\",\"blocks\":[{\"type\":\"section\"}]}").ok().unwrap();
    assert_eq!(render(&j), "{\"blocks\":[{\"type\":\"section\"}],\"text\":\"Deploy done\"}");
    let e = payload_from_text("{oops").err().unwrap();
    assert!(e.message.starts_with("Invalid JSON payload: "));
    assert_eq!(render(&payload_from_text("[1, 2.5, true, null]").ok().unwrap()), "[1,2.5,true,null]");
    let e = payload_from_file("p.json", Err("No such file".to_string())).err().unwrap();
    assert_eq!(e.message, "Could not read JSON file 'p.json': No such file");
    let e = payload_from_file("p.json", Ok("nope".to_string())).err().unwrap();
    assert!(e.message.starts_with("Invalid JSON in file 'p.json': "));
    assert_eq!(render(&payload_from_file("p.json", Ok("{\"a\":1}".to_string())).ok().unwrap()), "{\"a\":1}");
    assert_eq!(render(&payload_from_stdin(" {\"text\":\"x\"}\n")), "{\"text\":\"x\"}");
    assert_eq!(render(&payload_from_stdin("{not json}")), "{\"text\":\"{not json}\"}");
    assert_eq!(render(&payload_from_stdin("[1]")), "{\"text\":\"[1]\"}");
}
