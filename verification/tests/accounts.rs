use notify_cli::account::{email_names, slack_names, account_key, finish_email, finish_slack, resolve_email, resolve_slack, SlackResolution};
use notify_cli::cli::{AccountsCommand, AddAccountArgs, Command, SystemArgs};
use notify_cli::commands::accounts::{
    add_account, check_removable, confirmed, email_secret_report, list_accounts, remove_account, remove_from_config,
    removed_record, slack_secret_report, test_account, test_target, RemoveStep, TestStep, TestTarget,
};
use notify_cli::commands::{run, Task};
use notify_cli::config::{Config, EmailProfile, SlackProfile};
use notify_cli::error::{Error, ErrorCode};
use notify_cli::json::Json;

fn render(j: &Json) -> String {
    match j {
        Json::Null => "null".to_string(),
        Json::Bool(b) => b.to_string(),
        Json::Number(n) => n.clone(),
        Json::Str(s) => format!("{s:?}"),
        Json::Array(v) => format!("[{}]", v.iter().map(render).collect::<Vec<_>>().join(",")),
        Json::Object(e) => {
            format!("{{{}}}", e.iter().map(|(k, v)| format!("{k:?}:{}", render(v))).collect::<Vec<_>>().join(","))
        }
    }
}

fn add_args(name: &str, kind: &str) -> AddAccountArgs {
    AddAccountArgs {
        name: name.to_string(),
        account_type: kind.to_string(),
        webhook_url: None,
        api_key: None,
        api_key_stdin: false,
        channel: None,
        username: None,
        icon_emoji: None,
        from: None,
        default_to: None,
        provider: None,
        endpoint: None,
        force: false,
    }
}

fn store() -> Result<String, Error> {
    Ok("plaintext".to_string())
}

#[test]
fn accounts_lifecycle() {
    let mut a = add_args("  alerts ", "SLACK");
    a.webhook_url = Some("https://hooks.slack.com/services/T00/B00/X00".to_string());
    a.channel = Some("#dev-alerts".to_string());
    let added = add_account(&a, Ok(Config::new()), Ok(String::new()), store()).ok().unwrap();
    assert_eq!(
        render(&added.report),
        "{\"status\":\"created\",\"name\":\"alerts\",\"type\":\"slack\",\"secretStore\":\"plaintext\"}"
    );
    let (key, secret) = added.secret.unwrap();
    assert_eq!(key, "account:alerts");
    assert_eq!(secret, "https://hooks.slack.com/services/T00/B00/X00");
    let cfg = added.config;
    let (name, p) = cfg.find_slack("ALERTS").unwrap();
    assert_eq!(name, "alerts");
    assert_eq!(p.webhook_url, None);
    assert_eq!(p.channel.as_deref(), Some("#dev-alerts"));

    let mut again = add_args("alerts", "slack");
    again.webhook_url = Some("https://hooks.slack.com/services/other".to_string());
    let e = add_account(&again, Ok(cfg), Ok(String::new()), store()).err().unwrap();
    assert_eq!(e.code, ErrorCode::InvalidInput);
    assert_eq!(e.message, "Account 'alerts' already exists.");
    assert_eq!(e.remediation.as_deref(), Some("Use --force to overwrite: notify accounts add alerts --force"));
}

#[test]
fn forced_add_updates_in_place() {
    let first = add_account(&add_args("alerts", "slack"), Ok(Config::new()), Ok(String::new()), store()).ok().unwrap();
    let mut again = add_args("alerts", "slack");
    again.force = true;
    again.webhook_url = Some("https://hooks.slack.com/services/updated".to_string());
    let second = add_account(&again, Ok(first.config), Ok(String::new()), store()).ok().unwrap();
    assert!(render(&second.report).contains("\"status\":\"updated\""));
    assert_eq!(second.config.slack.len(), 1);
    assert_eq!(second.secret.unwrap().1, "https://hooks.slack.com/services/updated");
}

#[test]
fn email_accounts_default_to_gmail() {
    let mut a = add_args("work-mail", "email");
    a.from = Some("dev@company.com".to_string());
    a.default_to = Some("team@company.com".to_string());
    let added = add_account(&a, Ok(Config::new()), Ok(String::new()), store()).ok().unwrap();
    assert!(added.secret.is_none());
    assert!(render(&added.report).contains("\"type\":\"email\""));
    let (_, p) = added.config.find_email("work-mail").unwrap();
    assert_eq!(p.provider.as_deref(), Some("gmail"));
    assert_eq!(p.from.as_deref(), Some("dev@company.com"));
    assert_eq!(p.default_to.as_deref(), Some("team@company.com"));
    assert!(added.config.find_slack("work-mail").is_none());
}

#[test]
fn add_errors_in_order() {
    let e = add_account(&add_args("  ", "slack"), Err(Error::other("unreadable")), Ok(String::new()), store())
        .err()
        .unwrap();
    assert_eq!(e.message, "Account name cannot be empty.");
    let e = add_account(&add_args("x", "teams"), Ok(Config::new()), Ok(String::new()), store()).err().unwrap();
    assert_eq!(e.message, "Invalid account type 'teams'. Must be 'slack' or 'email'.");
    let e = add_account(&add_args("x", "slack"), Err(Error::other("unreadable")), Ok(String::new()), store())
        .err()
        .unwrap();
    assert_eq!(e.message, "unreadable");
    let mut s = add_args("x", "slack");
    s.api_key_stdin = true;
    let e = add_account(&s, Ok(Config::new()), Ok("  \n".to_string()), store()).err().unwrap();
    assert_eq!(e.message, "No secret provided on stdin.");
    let e = add_account(&s, Ok(Config::new()), Err("broken pipe".to_string()), store()).err().unwrap();
    assert_eq!(e.message, "Failed to read stdin: broken pipe");
    let e = add_account(&s, Ok(Config::new()), Ok("sec\n".to_string()), Err(Error::other("no keystore")))
        .err()
        .unwrap();
    assert_eq!(e.message, "no keystore");
    let ok = add_account(&s, Ok(Config::new()), Ok(" sec \n".to_string()), store()).ok().unwrap();
    assert_eq!(ok.secret.unwrap(), ("account:x".to_string(), "sec".to_string()));
    let mut blank = add_args("x", "slack");
    blank.api_key = Some("   ".to_string());
    assert!(add_account(&blank, Ok(Config::new()), Ok(String::new()), store()).ok().unwrap().secret.is_none());
}

fn sample() -> Config {
    let mut c = Config::new();
    c.slack.insert(
        "alerts".to_string(),
        SlackProfile { webhook_url: None, channel: Some("#alerts".to_string()), username: None, icon_emoji: None },
    );
    c.slack.insert(
        "team".to_string(),
        SlackProfile { webhook_url: Some("https://h/x".to_string()), channel: None, username: None, icon_emoji: None },
    );
    c.email.insert(
        "work".to_string(),
        EmailProfile {
            provider: None,
            from: Some("me@x.com".to_string()),
            default_to: None,
            default_cc: Some(vec!["c@x.com".to_string()]),
            default_bcc: None,
            endpoint: None,
        },
    );
    c
}

#[test]
fn listing() {
    let c = sample();
    let l = list_accounts(&c, &vec![false, false], &vec![true], false);
    assert_eq!(
        render(&l),
        "[{\"name\":\"alerts\",\"type\":\"slack\",\"channel\":\"#alerts\",\"status\":\"unconfigured\",\"hasSecret\":false},\
{\"name\":\"team\",\"type\":\"slack\",\"channel\":\"\",\"status\":\"ready\",\"hasSecret\":true},\
{\"name\":\"work\",\"type\":\"email\",\"provider\":\"gmail\",\"from\":\"me@x.com\",\"status\":\"ready\",\"hasSecret\":true}]"
    );
    let l = render(&list_accounts(&c, &vec![true, false], &vec![false], true));
    assert!(l.contains("\"name\":\"alerts\",\"type\":\"slack\",\"channel\":\"#alerts\",\"status\":\"configured\""));
    assert!(l.contains("\"status\":\"missing_credentials\""));
}

#[test]
fn testing_accounts() {
    let c = sample();
    assert!(matches!(test_target(&c, "ALERTS"), Ok(TestTarget::Slack(n)) if n == "alerts"));
    assert!(matches!(test_target(&c, "work"), Ok(TestTarget::Email(n)) if n == "work"));
    let e = test_target(&c, "nope").err().unwrap();
    assert_eq!(e.code, ErrorCode::NotFound);
    assert_eq!(e.message, "Account 'nope' not found.");
    assert_eq!(e.remediation.as_deref(), Some("List accounts with: notify accounts list"));
}

#[test]
fn resolving_profiles() {
    let c = sample();
    match resolve_slack(&c, "Team").ok().unwrap() {
        SlackResolution::Ready(r) => {
            assert_eq!(r.webhook_url, "https://h/x");
            assert_eq!(r.source, "config");
        }
        SlackResolution::NeedsSecret(_) => panic!("the URL is in the file"),
    }
    let pending = match resolve_slack(&c, "alerts").ok().unwrap() {
        SlackResolution::NeedsSecret(p) => p,
        SlackResolution::Ready(_) => panic!("the URL is not in the file"),
    };
    assert_eq!(pending.primary_key, "account:alerts");
    assert_eq!(pending.fallback_key, "account:slack:alerts");
    let e = finish_slack(pending, None, None, "keychain").err().unwrap();
    assert_eq!(e.code, ErrorCode::AuthRequired);
    assert_eq!(e.message, "No webhook URL configured or stored for Slack profile 'alerts'.");
    let pending = match resolve_slack(&c, "alerts").ok().unwrap() {
        SlackResolution::NeedsSecret(p) => p,
        SlackResolution::Ready(_) => panic!("the URL is not in the file"),
    };
    let r = finish_slack(pending, None, Some("https://fallback".to_string()), "keychain").ok().unwrap();
    assert_eq!(r.webhook_url, "https://fallback");
    assert_eq!(r.source, "keychain");
    assert_eq!(r.channel.as_deref(), Some("#alerts"));

    let e = resolve_slack(&c, "missing").err().unwrap();
    assert_eq!(e.code, ErrorCode::NoAccount);
    assert_eq!(e.message, "Slack profile 'missing' not found.");
    assert_eq!(e.detail.as_deref(), Some("Available profiles: alerts, team"));
    assert_eq!(e.remediation.as_deref(), Some("Add this profile: notify accounts add missing --type slack --webhook-url <url>"));

    let p = resolve_email(&c, "WORK").ok().unwrap();
    assert_eq!(p.fallback_key, "account:email:work");
    let r = finish_email(p, Some("tok".to_string()), None);
    assert_eq!(r.provider, "gmail");
    assert_eq!(r.from, "me@x.com");
    assert_eq!(r.default_cc, vec!["c@x.com".to_string()]);
    assert!(r.default_bcc.is_empty());
    assert_eq!(r.secret.as_deref(), Some("tok"));
    assert_eq!(r.source, "keystore");
    let e = resolve_email(&Config::new(), "x").err().unwrap();
    assert_eq!(e.detail.as_deref(), Some("Available profiles: (none configured)"));
    assert_eq!(account_key("ci-alerts"), "account:ci-alerts");
}

#[test]
fn removing_accounts() {
    let mut c = sample();
    assert!(check_removable(&c, "ALERTS").is_ok());
    let e = check_removable(&c, "nope").unwrap_err();
    assert_eq!(e.message, "Account 'nope' not found.");
    assert_eq!(e.remediation, None);
    assert!(confirmed(" Y \n"));
    assert!(confirmed("yes"));
    assert!(!confirmed("no"));
    assert!(!confirmed(""));
    let keys = remove_from_config(&mut c, "ALERTS");
    assert_eq!(keys, vec!["account:alerts".to_string()]);
    assert!(c.find_slack("alerts").is_none());
    assert!(c.find_slack("team").is_some());
    assert!(c.find_email("work").is_some());
    assert_eq!(render(&removed_record("alerts")), "{\"status\":\"removed\",\"name\":\"alerts\"}");
    let mut d = sample();
    assert_eq!(remove_from_config(&mut d, "Work"), vec!["account:work".to_string()]);
    assert!(d.find_email("work").is_none());
    assert_eq!(d.slack.len(), 2);
}

#[test]
fn login_is_accounts_add() {
    match run(Command::Login(Box::new(add_args("ci-alerts", "slack")))) {
        Task::Accounts(AccountsCommand::Add(a)) => assert_eq!(a.name, "ci-alerts"),
        _ => panic!("login dispatches to accounts add"),
    }
    match run(Command::System(SystemArgs { title: "t".to_string(), description: "d".to_string() })) {
        Task::System(a) => assert_eq!(a.title, "t"),
        _ => panic!("system dispatches to system"),
    }
    assert!(matches!(run(Command::AgentReadme), Task::AgentReadme));
}

#[test]
fn test_steps() {
    let c = sample();
    match test_account(&c, "TEAM").ok().unwrap() {
        TestStep::Report(j) => assert_eq!(
            render(&j),
            "{\"status\":\"ok\",\"account\":\"team\",\"type\":\"slack\",\"secretSource\":\"config\",\"channel\":\"\",\"valid\":true}"
        ),
        _ => panic!("the URL is in the file"),
    }
    let pending = match test_account(&c, "alerts").ok().unwrap() {
        TestStep::SlackSecret(p) => p,
        _ => panic!("the URL is in the store"),
    };
    assert_eq!(pending.primary_key, "account:alerts");
    let j = slack_secret_report(pending, Some("https://h/s".to_string()), None, "plaintext").ok().unwrap();
    assert_eq!(
        render(&j),
        "{\"status\":\"ok\",\"account\":\"alerts\",\"type\":\"slack\",\"secretSource\":\"plaintext\",\"channel\":\"#alerts\",\"valid\":true}"
    );
    let pending = match test_account(&c, "alerts").ok().unwrap() {
        TestStep::SlackSecret(p) => p,
        _ => panic!("the URL is in the store"),
    };
    let e = slack_secret_report(pending, None, None, "plaintext").err().unwrap();
    assert_eq!(e.code, ErrorCode::AuthRequired);
    let pending = match test_account(&c, "Work").ok().unwrap() {
        TestStep::EmailSecret(p) => p,
        _ => panic!("an email account"),
    };
    assert_eq!(
        render(&email_secret_report(pending, None, None)),
        "{\"status\":\"ok\",\"account\":\"work\",\"type\":\"email\",\"provider\":\"gmail\",\"from\":\"me@x.com\",\"secretSource\":\"config\",\"valid\":true}"
    );
    let e = test_account(&c, "ghost").err().unwrap();
    assert_eq!(e.message, "Account 'ghost' not found.");
}

#[test]
fn remove_steps() {
    let mut c = sample();
    let e = remove_account(&mut c, "ghost", true, false, None).err().unwrap();
    assert_eq!(e.code, ErrorCode::NotFound);
    assert!(matches!(remove_account(&mut c, "alerts", false, true, None), Ok(RemoveStep::Confirm)));
    assert!(c.find_slack("alerts").is_some());
    let e = remove_account(&mut c, "alerts", false, true, Some("n\n".to_string())).err().unwrap();
    assert_eq!(e.message, "Aborted by user.");
    assert!(c.find_slack("alerts").is_some());
    match remove_account(&mut c, "alerts", false, true, Some("YES\n".to_string())).ok().unwrap() {
        RemoveStep::Remove { keys, report } => {
            assert_eq!(keys, vec!["account:alerts".to_string()]);
            assert_eq!(render(&report), "{\"status\":\"removed\",\"name\":\"alerts\"}");
        }
        RemoveStep::Confirm => panic!("the answer was given"),
    }
    assert!(c.find_slack("alerts").is_none());
    assert!(matches!(remove_account(&mut c, "team", false, false, None), Ok(RemoveStep::Remove { .. })));
    assert!(c.find_slack("team").is_none());
}

#[test]
fn removal_ignores_case_and_takes_every_spelling() {
    let mut c = sample();
    c.slack.insert("Alerts".to_string(), SlackProfile::default());
    c.email.insert("ALERTS".to_string(), EmailProfile::default());
    match remove_account(&mut c, "ALERTS", true, false, None).ok().unwrap() {
        RemoveStep::Remove { keys, report } => {
            assert_eq!(keys, vec!["account:alerts".to_string(), "account:Alerts".to_string(), "account:ALERTS".to_string()]);
            assert_eq!(render(&report), "{\"status\":\"removed\",\"name\":\"ALERTS\"}");
        }
        RemoveStep::Confirm => panic!("--yes skips the question"),
    }
    assert!(c.find_slack("alerts").is_none());
    assert!(c.find_email("alerts").is_none());
    let names: Vec<&String> = c.slack.keys().collect();
    assert_eq!(names, vec!["team"]);
    assert!(c.find_email("work").is_some());
}

#[test]
fn forced_add_overwrites_the_stored_spelling() {
    let first = add_account(&add_args("alerts", "slack"), Ok(Config::new()), Ok(String::new()), store()).ok().unwrap();
    let mut again = add_args("ALERTS", "slack");
    again.force = true;
    again.channel = Some("#new".to_string());
    again.webhook_url = Some("https://h/new".to_string());
    let second = add_account(&again, Ok(first.config), Ok(String::new()), store()).ok().unwrap();
    assert!(render(&second.report).contains("\"status\":\"updated\""));
    assert_eq!(second.config.slack.len(), 1);
    let (name, p) = second.config.find_slack("alerts").unwrap();
    assert_eq!(name, "alerts");
    assert_eq!(p.channel.as_deref(), Some("#new"));
    assert_eq!(second.secret.unwrap().0, "account:alerts");
}

#[test]
fn profile_names_and_listing_shape() {
    let c = sample();
    assert_eq!(slack_names(&c), vec!["alerts".to_string(), "team".to_string()]);
    assert_eq!(email_names(&c), vec!["work".to_string()]);
    for flags in [vec![false, false], vec![true, true], vec![true, false]] {
        match list_accounts(&c, &flags, &vec![false], true) {
            Json::Array(items) => assert_eq!(items.len(), 3),
            _ => panic!("the listing is an array"),
        }
    }
}
