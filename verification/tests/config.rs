use indexmap::IndexMap;
use notify_cli::config::{lock_wait, utc_of_reading, LockWait, FIRST_LOCK_DELAY_MS, config_dir, config_path, format_utc, invalid_config_error, legacy_dir, lock_timeout_error, now_utc, Config, ConfigEnv, EmailProfile, Location, SlackProfile};
use notify_cli::system::Platform;

#[test]
fn formats_utc() {
    assert_eq!(format_utc(0), "1970-01-01T00:00:00Z");
    assert_eq!(format_utc(1_790_000_000), "2026-09-21T14:13:20Z");
}

#[test]
fn formats_utc_before_the_epoch_and_on_leap_days() {
    assert_eq!(format_utc(-1), "1969-12-31T23:59:59Z");
    assert_eq!(format_utc(951_782_400), "2000-02-29T00:00:00Z");
    assert_eq!(format_utc(1_709_208_000), "2024-02-29T12:00:00Z");
    assert_eq!(format_utc(4_102_444_799), "2099-12-31T23:59:59Z");
}

#[test]
fn now_utc_has_the_timestamp_shape() {
    let t = now_utc();
    assert_eq!(t.len(), 20);
    assert!(t.ends_with('Z'));
    assert_eq!(&t[4..5], "-");
    assert_eq!(&t[10..11], "T");
}

fn dotnet_layout() -> Config {
    let mut slack = IndexMap::new();
    slack.insert(
        "my-profile".to_string(),
        SlackProfile {
            webhook_url: Some("https://hooks.slack.com/services/T00/B00/X00".to_string()),
            channel: Some("#general".to_string()),
            username: None,
            icon_emoji: None,
        },
    );
    let mut email = IndexMap::new();
    email.insert(
        "work".to_string(),
        EmailProfile {
            provider: Some("gmail".to_string()),
            from: Some("me@company.com".to_string()),
            default_to: Some("team@company.com".to_string()),
            default_cc: None,
            default_bcc: None,
            endpoint: None,
        },
    );
    Config { version: None, slack, email }
}

#[test]
fn reads_the_dotnet_layout() {
    let c = dotnet_layout();
    let (name, s) = c.find_slack("my-profile").unwrap();
    assert_eq!(name, "my-profile");
    assert_eq!(s.webhook_url.as_deref(), Some("https://hooks.slack.com/services/T00/B00/X00"));
    assert_eq!(s.channel.as_deref(), Some("#general"));

    let (ename, e) = c.find_email("work").unwrap();
    assert_eq!(ename, "work");
    assert_eq!(e.provider.as_deref(), Some("gmail"));
    assert_eq!(e.from.as_deref(), Some("me@company.com"));
    assert_eq!(e.default_to.as_deref(), Some("team@company.com"));
}

#[test]
fn find_ignores_ascii_case_and_keeps_the_stored_name() {
    let c = dotnet_layout();
    let (name, _) = c.find_slack("MY-Profile").unwrap();
    assert_eq!(name, "my-profile");
    assert!(c.find_slack("my-profil").is_none());
    assert!(c.find_email("WORK").is_some());
    assert!(c.find_email("my-profile").is_none());
}

#[test]
fn new_config_is_empty_version_one() {
    let c = Config::new();
    assert_eq!(c.version, Some(1));
    assert!(c.slack.is_empty());
    assert!(c.email.is_empty());
    assert!(c.find_slack("anything").is_none());
}

fn env(platform: Platform) -> ConfigEnv {
    ConfigEnv {
        notify_config_dir: None,
        local_config: false,
        platform,
        home: Some("/home/u".to_string()),
        appdata: Some("C:\\Users\\u\\AppData\\Roaming".to_string()),
        xdg_config_home: None,
        legacy_config: false,
    }
}

fn parts(l: &Location) -> Vec<&str> {
    l.parts.iter().map(|s| s.as_str()).collect()
}

#[test]
fn config_dir_follows_the_environment_first() {
    let mut e = env(Platform::Linux);
    e.notify_config_dir = Some("/tmp/cfg".to_string());
    e.local_config = true;
    let d = config_dir(&e);
    assert_eq!(d.root, "/tmp/cfg");
    assert!(d.parts.is_empty());

    e.notify_config_dir = Some(String::new());
    let d = config_dir(&e);
    assert_eq!(d.root, ".");
    assert!(d.parts.is_empty());
}

#[test]
fn config_dir_per_platform() {
    let d = config_dir(&env(Platform::Linux));
    assert_eq!(d.root, "/home/u");
    assert_eq!(parts(&d), vec![".config", "notify-cli"]);

    let mut e = env(Platform::Linux);
    e.xdg_config_home = Some("/xdg".to_string());
    let d = config_dir(&e);
    assert_eq!(d.root, "/xdg");
    assert_eq!(parts(&d), vec!["notify-cli"]);

    let d = config_dir(&env(Platform::MacOs));
    assert_eq!(d.root, "/home/u");
    assert_eq!(parts(&d), vec!["Library", "Application Support", "notify-cli"]);

    let d = config_dir(&env(Platform::Windows));
    assert_eq!(d.root, "C:\\Users\\u\\AppData\\Roaming");
    assert_eq!(parts(&d), vec!["notify-cli"]);
}

#[test]
fn config_dir_prefers_the_legacy_directory_when_it_holds_a_config() {
    let mut e = env(Platform::MacOs);
    e.legacy_config = true;
    let d = config_dir(&e);
    assert_eq!(d.root, "/home/u");
    assert_eq!(parts(&d), vec![".config", "notify-console"]);

    let mut w = env(Platform::Windows);
    w.legacy_config = true;
    let l = legacy_dir(&w);
    assert_eq!(parts(&l), vec!["Notify.Console"]);
    let d = config_dir(&w);
    assert_eq!(parts(&d), vec!["Notify.Console"]);
}

#[test]
fn config_path_appends_the_file_name() {
    let p = config_path(config_dir(&env(Platform::Linux)));
    assert_eq!(p.root, "/home/u");
    assert_eq!(parts(&p), vec![".config", "notify-cli", "config.yaml"]);
}

#[test]
fn configuration_errors() {
    let e = invalid_config_error("/c/config.yaml", "mapping values are not allowed");
    assert_eq!(e.message, "/c/config.yaml is not valid YAML.");
    assert_eq!(e.detail.as_deref(), Some("mapping values are not allowed"));
    assert_eq!(e.remediation.as_deref(), Some("Check syntax or reset: /c/config.yaml"));
    let e = lock_timeout_error("/c/.lock");
    assert_eq!(e.message, "Timed out waiting for the lock at /c/.lock. Another process may be stuck.");
    assert_eq!(e.detail, None);
}

#[test]
fn lock_waits_double_up_to_a_cap_until_the_deadline() {
    let mut delay = FIRST_LOCK_DELAY_MS;
    let mut sleeps = Vec::new();
    for _ in 0..6 {
        match lock_wait(1000, delay) {
            LockWait::Retry { sleep_ms, next_delay_ms } => {
                sleeps.push(sleep_ms);
                delay = next_delay_ms;
            }
            LockWait::GiveUp => panic!("before the deadline it retries"),
        }
    }
    assert_eq!(sleeps, vec![25, 50, 100, 200, 400, 400]);
    assert!(matches!(lock_wait(14_999, 400), LockWait::Retry { .. }));
    assert!(matches!(lock_wait(15_000, 25), LockWait::GiveUp));
}

#[test]
fn clock_readings() {
    assert_eq!(utc_of_reading(None), "1970-01-01T00:00:00Z");
    assert_eq!(utc_of_reading(Some(1_790_000_000)), "2026-09-21T14:13:20Z");
}

#[test]
fn timestamps_sort_as_their_seconds() {
    let secs: [i64; 8] = [0, 59, 60, 3599, 86_399, 86_400, 951_782_400, 253_402_300_799];
    for w in secs.windows(2) {
        assert!(format_utc(w[0]) < format_utc(w[1]));
    }
    assert_eq!(format_utc(253_402_300_799), "9999-12-31T23:59:59Z");
}

#[test]
fn timestamps_from_1970_to_9999_are_twenty_characters() {
    for secs in [0i64, 1, 59, 86_399, 951_782_400, 1_790_000_000, 99_999_999_999, 253_402_300_799] {
        assert_eq!(format_utc(secs).len(), 20, "{}", secs);
    }
}
