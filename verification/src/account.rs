//! Resolving a named Slack or Email profile, with its secret, from the configuration.

use vstd::prelude::*;
use vstd::string::*;

use crate::config::{
    ci_index, email_entries, email_map_get_index, email_map_len, slack_entries, slack_map_get_index,
    slack_map_len, Config, EmailProfile, SlackProfile,
};
use crate::error::{opt_view, Error, ErrorCode, ErrorView};
use crate::text::{copy_opt, copy_strings, join, opt_seq, to_lowercase, trim, trim_chars, chars_of, unicode_lowercase};

verus! {

/// The keystore key under which an account's secret is stored.
pub open spec fn account_key_text(name: Seq<char>) -> Seq<char> {
    "account:"@ + name
}

/// The keystore key under which an account's secret is stored: `account:<name>`.
pub fn account_key(name: &str) -> (r: String)
    ensures
        r@ == account_key_text(name@),
{
    let mut k = String::from_str("account:");
    k.append(name);
    k
}

/// The names of map entries, in order.
pub open spec fn entry_names<P>(e: Seq<(Seq<char>, P)>) -> Seq<Seq<char>> {
    e.map_values(|x: (Seq<char>, P)| x.0)
}

/// The list of configured names shown when a profile is missing.
pub open spec fn available_text(names: Seq<Seq<char>>) -> Seq<char> {
    if names.len() == 0 {
        "(none configured)"@
    } else {
        join(names, ", "@)
    }
}

/// A Slack profile ready to use.
#[derive(Clone, Debug)]
pub struct ResolvedSlackProfile {
    pub name: String,
    pub webhook_url: String,
    pub channel: Option<String>,
    pub username: Option<String>,
    pub icon_emoji: Option<String>,
    /// Where the webhook URL came from: `config`, or the name of the secret store.
    pub source: String,
}

/// An Email profile ready to use, with its defaults filled in.
#[derive(Clone, Debug)]
pub struct ResolvedEmailProfile {
    pub name: String,
    pub provider: String,
    pub from: String,
    pub default_to: Option<String>,
    pub default_cc: Vec<String>,
    pub default_bcc: Vec<String>,
    pub endpoint: Option<String>,
    pub secret: Option<String>,
    /// `keystore` when a secret was found, else `config`.
    pub source: String,
}

/// A Slack profile whose webhook URL must come from the secret store: look up `primary_key`
/// first and, when it holds nothing, `fallback_key`.
pub struct PendingSlack {
    pub name: String,
    pub profile: SlackProfile,
    pub primary_key: String,
    pub fallback_key: String,
}

/// The outcome of looking a Slack profile up in the configuration.
pub enum SlackResolution {
    Ready(ResolvedSlackProfile),
    NeedsSecret(PendingSlack),
}

/// An Email profile found in the configuration; its secret is looked up under `primary_key`
/// first and, when that holds nothing, under `fallback_key`.
pub struct PendingEmail {
    pub name: String,
    pub profile: EmailProfile,
    pub primary_key: String,
    pub fallback_key: String,
}

/// The error for a Slack profile that is not configured.
pub open spec fn slack_missing_error(name: Seq<char>, names: Seq<Seq<char>>) -> ErrorView {
    ErrorView {
        code: ErrorCode::NoAccount,
        message: "Slack profile '"@ + name + "' not found."@,
        detail: Some("Available profiles: "@ + available_text(names)),
        remediation: Some(
            "Add this profile: notify accounts add "@ + name + " --type slack --webhook-url <url>"@,
        ),
    }
}

/// The error for an Email profile that is not configured.
pub open spec fn email_missing_error(name: Seq<char>, names: Seq<Seq<char>>) -> ErrorView {
    ErrorView {
        code: ErrorCode::NoAccount,
        message: "Email profile '"@ + name + "' not found."@,
        detail: Some("Available profiles: "@ + available_text(names)),
        remediation: Some(
            "Add this profile: notify accounts add "@ + name + " --type email --from <email>"@,
        ),
    }
}

/// The text listing the configured names, joined by `, `.
pub fn available_profiles(names: &Vec<String>) -> (r: String)
    ensures
        r@ == available_text(names@.map_values(|s: String| s@)),
{
    let ghost nv = names@.map_values(|s: String| s@);
    if names.len() == 0 {
        return String::from_str("(none configured)");
    }
    let mut out = String::from_str(names[0].as_str());
    assert(nv.take(1) =~= seq![nv[0]]);
    for i in 1..names.len()
        invariant
            names.len() >= 1,
            nv == names@.map_values(|s: String| s@),
            out@ == join(nv.take(i as int), ", "@),
    {
        out.append(", ");
        out.append(names[i].as_str());
        assert(nv.take(i + 1).drop_last() =~= nv.take(i as int));
    }
    assert(nv.take(names.len() as int) =~= nv);
    out
}

/// The names of the Slack profiles, in file order.
pub fn slack_names(cfg: &Config) -> (r: Vec<String>)
    ensures
        r@.map_values(|s: String| s@) == entry_names(slack_entries(cfg.slack)),
{
    let n = slack_map_len(&cfg.slack);
    let ghost e = slack_entries(cfg.slack);
    let mut out: Vec<String> = Vec::new();
    for i in 0..n
        invariant
            n == e.len(),
            e == slack_entries(cfg.slack),
            out@.map_values(|s: String| s@) == entry_names(e).take(i as int),
    {
        let ghost before = out@;
        match slack_map_get_index(&cfg.slack, i) {
            Some((k, _)) => {
                out.push(k.clone());
                assert(out@ == before.push(*k));
                assert(out@.map_values(|s: String| s@) == before.map_values(|s: String| s@).push(k@));
                assert(entry_names(e).take(i + 1) == entry_names(e).take(i as int).push(e[i as int].0));
                assert(out@.map_values(|s: String| s@) =~= entry_names(e).take(i + 1));
            },
            None => {},
        }
    }
    assert(entry_names(e).take(n as int) =~= entry_names(e));
    out
}

/// The names of the Email profiles, in file order.
pub fn email_names(cfg: &Config) -> (r: Vec<String>)
    ensures
        r@.map_values(|s: String| s@) == entry_names(email_entries(cfg.email)),
{
    let n = email_map_len(&cfg.email);
    let ghost e = email_entries(cfg.email);
    let mut out: Vec<String> = Vec::new();
    for i in 0..n
        invariant
            n == e.len(),
            e == email_entries(cfg.email),
            out@.map_values(|s: String| s@) == entry_names(e).take(i as int),
    {
        let ghost before = out@;
        match email_map_get_index(&cfg.email, i) {
            Some((k, _)) => {
                out.push(k.clone());
                assert(out@ == before.push(*k));
                assert(out@.map_values(|s: String| s@) == before.map_values(|s: String| s@).push(k@));
                assert(entry_names(e).take(i + 1) == entry_names(e).take(i as int).push(e[i as int].0));
                assert(out@.map_values(|s: String| s@) =~= entry_names(e).take(i + 1));
            },
            None => {},
        }
    }
    assert(entry_names(e).take(n as int) =~= entry_names(e));
    out
}

/// The webhook URL of a profile, when it holds one that is not blank.
pub open spec fn usable_url(p: SlackProfile) -> bool {
    p.webhook_url matches Some(u) && trim(u@).len() > 0
}

/// The secondary keystore key of a Slack profile.
pub open spec fn slack_fallback_key(name: Seq<char>) -> Seq<char> {
    "account:slack:"@ + unicode_lowercase(name)
}

/// The secondary keystore key of an Email profile.
pub open spec fn email_fallback_key(name: Seq<char>) -> Seq<char> {
    "account:email:"@ + unicode_lowercase(name)
}

fn prefixed(prefix: &str, name: &str) -> (r: String)
    ensures
        r@ == prefix@ + unicode_lowercase(name@),
{
    let mut k = String::from_str(prefix);
    let lower = to_lowercase(name);
    k.append(lower.as_str());
    k
}

/// Finds the Slack profile `name` (ASCII case ignored). A profile with a non-blank webhook URL
/// in the file is ready at once, with source `config`; otherwise its URL must come from the
/// secret store. An unknown name is a `no_account` error that lists the configured profiles.
pub fn resolve_slack(cfg: &Config, name: &str) -> (r: Result<SlackResolution, Error>)
    ensures
        ({
            let e = slack_entries(cfg.slack);
            match ci_index(e, name@) {
                None => r matches Err(err) && err@ == slack_missing_error(name@, entry_names(e)),
                Some(i) => {
                    let k = e[i].0;
                    let p = e[i].1;
                    if usable_url(p) {
                        &&& r matches Ok(SlackResolution::Ready(x))
                        &&& x.name@ == k
                        &&& x.webhook_url == p.webhook_url->0
                        &&& x.channel == p.channel
                        &&& x.username == p.username
                        &&& x.icon_emoji == p.icon_emoji
                        &&& x.source@ == "config"@
                    } else {
                        &&& r matches Ok(SlackResolution::NeedsSecret(q))
                        &&& q.name@ == k
                        &&& q.profile == p
                        &&& q.primary_key@ == account_key_text(k)
                        &&& q.fallback_key@ == slack_fallback_key(k)
                    }
                },
            }
        }),
{
    match cfg.find_slack(name) {
        None => {
            let names = slack_names(cfg);
            let available = available_profiles(&names);
            let mut msg = String::from_str("Slack profile '");
            msg.append(name);
            msg.append("' not found.");
            let mut detail = String::from_str("Available profiles: ");
            detail.append(available.as_str());
            let mut fix = String::from_str("Add this profile: notify accounts add ");
            fix.append(name);
            fix.append(" --type slack --webhook-url <url>");
            Err(Error::no_account(msg.as_str()).detail(detail.as_str()).fix(fix.as_str()))
        },
        Some((k, p)) => {
            let usable = match &p.webhook_url {
                Some(u) => trim_chars(&chars_of(u.as_str())).len() > 0,
                None => false,
            };
            if usable {
                let url = match &p.webhook_url {
                    Some(u) => u.clone(),
                    None => String::new(),
                };
                Ok(
                    SlackResolution::Ready(
                        ResolvedSlackProfile {
                            name: k.clone(),
                            webhook_url: url,
                            channel: copy_opt(&p.channel),
                            username: copy_opt(&p.username),
                            icon_emoji: copy_opt(&p.icon_emoji),
                            source: String::from_str("config"),
                        },
                    ),
                )
            } else {
                Ok(
                    SlackResolution::NeedsSecret(
                        PendingSlack {
                            name: k.clone(),
                            profile: p.copy(),
                            primary_key: account_key(k.as_str()),
                            fallback_key: prefixed("account:slack:", k.as_str()),
                        },
                    ),
                )
            }
        },
    }
}

/// The error for a Slack profile with no webhook URL anywhere.
pub open spec fn slack_secret_missing_error(name: Seq<char>) -> ErrorView {
    ErrorView {
        code: ErrorCode::AuthRequired,
        message: "No webhook URL configured or stored for Slack profile '"@ + name + "'."@,
        detail: None,
        remediation: Some(
            "Store the webhook URL: notify accounts add "@ + name + " --type slack --webhook-url <url>"@,
        ),
    }
}

/// Completes a Slack profile from the secret store: `primary` is what its primary key holds;
/// `fallback`, consulted only when that is empty, what its fallback key holds. A found secret
/// becomes the webhook URL, with the store's name as source; none is an `auth_required` error.
pub fn finish_slack(p: PendingSlack, primary: Option<String>, fallback: Option<String>, store_name: &str) -> (r: Result<ResolvedSlackProfile, Error>)
    ensures
        ({
            let secret = match primary {
                Some(s) => Some(s),
                None => fallback,
            };
            match secret {
                Some(s) => r matches Ok(x) && x.name == p.name && x.webhook_url == s && x.channel
                    == p.profile.channel && x.username == p.profile.username && x.icon_emoji
                    == p.profile.icon_emoji && x.source@ == store_name@,
                None => r matches Err(e) && e@ == slack_secret_missing_error(p.name@),
            }
        }),
{
    let secret = match primary {
        Some(s) => Some(s),
        None => fallback,
    };
    match secret {
        Some(s) => Ok(
            ResolvedSlackProfile {
                name: p.name,
                webhook_url: s,
                channel: p.profile.channel,
                username: p.profile.username,
                icon_emoji: p.profile.icon_emoji,
                source: String::from_str(store_name),
            },
        ),
        None => {
            let mut msg = String::from_str("No webhook URL configured or stored for Slack profile '");
            msg.append(p.name.as_str());
            msg.append("'.");
            let mut fix = String::from_str("Store the webhook URL: notify accounts add ");
            fix.append(p.name.as_str());
            fix.append(" --type slack --webhook-url <url>");
            Err(Error::auth(msg.as_str()).fix(fix.as_str()))
        },
    }
}

/// Finds the Email profile `name` (ASCII case ignored); its secret is then looked up in the
/// store. An unknown name is a `no_account` error that lists the configured profiles.
pub fn resolve_email(cfg: &Config, name: &str) -> (r: Result<PendingEmail, Error>)
    ensures
        ({
            let e = email_entries(cfg.email);
            match ci_index(e, name@) {
                None => r matches Err(err) && err@ == email_missing_error(name@, entry_names(e)),
                Some(i) => {
                    let k = e[i].0;
                    &&& r matches Ok(q)
                    &&& q.name@ == k
                    &&& q.profile@ == e[i].1@
                    &&& q.primary_key@ == account_key_text(k)
                    &&& q.fallback_key@ == email_fallback_key(k)
                },
            }
        }),
{
    match cfg.find_email(name) {
        None => {
            let names = email_names(cfg);
            let available = available_profiles(&names);
            let mut msg = String::from_str("Email profile '");
            msg.append(name);
            msg.append("' not found.");
            let mut detail = String::from_str("Available profiles: ");
            detail.append(available.as_str());
            let mut fix = String::from_str("Add this profile: notify accounts add ");
            fix.append(name);
            fix.append(" --type email --from <email>");
            Err(Error::no_account(msg.as_str()).detail(detail.as_str()).fix(fix.as_str()))
        },
        Some((k, p)) => Ok(
            PendingEmail {
                name: k.clone(),
                profile: p.copy(),
                primary_key: account_key(k.as_str()),
                fallback_key: prefixed("account:email:", k.as_str()),
            },
        ),
    }
}

/// Completes an Email profile: `primary` is what the store holds under its primary key and
/// `fallback`, consulted only when that is empty, under its fallback key (a failing store
/// counts as holding nothing). Provider defaults to `gmail`, sender to empty, CC and BCC lists
/// to empty; the source is `keystore` when a secret was found, else `config`.
pub fn finish_email(p: PendingEmail, primary: Option<String>, fallback: Option<String>) -> (r: ResolvedEmailProfile)
    ensures
        ({
            let secret = match primary {
                Some(s) => Some(s),
                None => fallback,
            };
            &&& r.name == p.name
            &&& r.provider@ == match p.profile.provider {
                Some(v) => v@,
                None => "gmail"@,
            }
            &&& r.from@ == match p.profile.from {
                Some(v) => v@,
                None => Seq::<char>::empty(),
            }
            &&& r.default_to == p.profile.default_to
            &&& r.default_cc@ == match p.profile@.default_cc {
                Some(v) => v,
                None => Seq::<String>::empty(),
            }
            &&& r.default_bcc@ == match p.profile@.default_bcc {
                Some(v) => v,
                None => Seq::<String>::empty(),
            }
            &&& r.endpoint == p.profile.endpoint
            &&& r.secret == secret
            &&& r.source@ == if secret is Some {
                "keystore"@
            } else {
                "config"@
            }
        }),
{
    let secret = match primary {
        Some(s) => Some(s),
        None => fallback,
    };
    let has_secret = secret.is_some();
    let provider = match p.profile.provider {
        Some(v) => v,
        None => String::from_str("gmail"),
    };
    let from = match p.profile.from {
        Some(v) => v,
        None => String::new(),
    };
    let default_cc = match p.profile.default_cc {
        Some(v) => v,
        None => Vec::new(),
    };
    let default_bcc = match p.profile.default_bcc {
        Some(v) => v,
        None => Vec::new(),
    };
    ResolvedEmailProfile {
        name: p.name,
        provider,
        from,
        default_to: p.profile.default_to,
        default_cc,
        default_bcc,
        endpoint: p.profile.endpoint,
        secret,
        source: if has_secret {
            String::from_str("keystore")
        } else {
            String::from_str("config")
        },
    }
}

} // verus!
