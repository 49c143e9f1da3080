//! Managing accounts: listing, adding, testing and removing profiles.

use vstd::prelude::*;
use vstd::string::*;

use crate::account::{
    account_key, account_key_text, email_fallback_key, finish_email, finish_slack, resolve_email, resolve_slack,
    slack_fallback_key, slack_secret_missing_error, usable_url, PendingEmail, PendingSlack, ResolvedEmailProfile,
    ResolvedSlackProfile, SlackResolution,
};
use crate::cli::AddAccountArgs;
use crate::config::{
    law_find_ignores_case, law_remove_ci_then_absent, lemma_ci_index, lemma_remove_first_match,
    lemma_remove_ci_no_match, entries_remove_ci, names_ci, stored_name, lemma_stored_name, ci_index, email_entries, email_map_get_index, email_map_insert, email_map_len,
    email_map_shift_remove, entries_insert, entries_remove, key_index, slack_entries,
    slack_map_get_index, slack_map_insert, slack_map_len, slack_map_shift_remove, Config,
    EmailProfile, SlackProfile,
};
use crate::error::{opt_view, plain_error, Error, ErrorCode, ErrorView};
use crate::json::{entries_view, json_bool, json_object, json_str, push_entry, Json, JsonView};
use crate::commands::email::views;
use crate::text::{law_trim_idempotent, ascii_ci_eq, chars_of, copy_opt, eq_ignore_ascii_case, trim, trim_chars, trim_str, string_from_chars};

verus! {

/// The profile keeps a webhook URL in the file that is not blank.
pub open spec fn url_in_file(p: SlackProfile) -> bool {
    p.webhook_url matches Some(u) && trim(u@).len() > 0
}

/// Whether a Slack profile keeps its webhook URL in the file; when it does not, listing
/// consults the secret store.
pub fn webhook_in_file(p: &SlackProfile) -> (r: bool)
    ensures
        r == url_in_file(*p),
{
    match &p.webhook_url {
        Some(u) => trim_chars(&chars_of(u.as_str())).len() > 0,
        None => false,
    }
}

/// The listing entry of a Slack account.
pub open spec fn slack_listing(name: Seq<char>, p: SlackProfile, has_secret: bool, check: bool) -> JsonView {
    JsonView::Object(
        seq![
            ("name"@, JsonView::Str(name)),
            ("type"@, JsonView::Str("slack"@)),
            ("channel"@, JsonView::Str(match p.channel {
                Some(c) => c@,
                None => ""@,
            })),
            ("status"@, JsonView::Str(if check {
                if has_secret { "configured"@ } else { "missing_secret"@ }
            } else if has_secret {
                "ready"@
            } else {
                "unconfigured"@
            })),
            ("hasSecret"@, JsonView::Bool(has_secret)),
        ],
    )
}

/// The listing entry of an Email account.
pub open spec fn email_listing(name: Seq<char>, p: EmailProfile, has_secret: bool, check: bool) -> JsonView {
    JsonView::Object(
        seq![
            ("name"@, JsonView::Str(name)),
            ("type"@, JsonView::Str("email"@)),
            ("provider"@, JsonView::Str(match p.provider {
                Some(v) => v@,
                None => "gmail"@,
            })),
            ("from"@, JsonView::Str(match p.from {
                Some(v) => v@,
                None => ""@,
            })),
            ("status"@, JsonView::Str(if check {
                if has_secret || (p.provider matches Some(v) && v@ == "gmail"@) {
                    "configured"@
                } else {
                    "missing_credentials"@
                }
            } else {
                "ready"@
            })),
            ("hasSecret"@, JsonView::Bool(has_secret)),
        ],
    )
}

/// The account listing: one entry per Slack profile, then one per Email profile, in file
/// order; `slack_stored[i]` and `email_stored[i]` tell whether the secret store holds the
/// account's key.
pub open spec fn account_listing(
    se: Seq<(Seq<char>, SlackProfile)>,
    ee: Seq<(Seq<char>, EmailProfile)>,
    slack_stored: Seq<bool>,
    email_stored: Seq<bool>,
    check: bool,
) -> Seq<JsonView> {
    Seq::new(se.len(), |i: int| slack_listing(se[i].0, se[i].1, url_in_file(se[i].1) || slack_stored[i], check))
        + Seq::new(ee.len(), |i: int| email_listing(ee[i].0, ee[i].1, email_stored[i], check))
}

/// The listing has one entry per account, whatever the secret store holds: the Slack accounts
/// first, then the Email accounts, each in file order, named by its stored name and typed by
/// its kind.
pub proof fn law_listing_shape(
    se: Seq<(Seq<char>, SlackProfile)>,
    ee: Seq<(Seq<char>, EmailProfile)>,
    slack_stored: Seq<bool>,
    email_stored: Seq<bool>,
    check: bool,
)
    requires
        slack_stored.len() == se.len(),
        email_stored.len() == ee.len(),
    ensures
        account_listing(se, ee, slack_stored, email_stored, check).len() == se.len() + ee.len(),
        forall|i: int| 0 <= i < se.len() ==> {
            let e = #[trigger] account_listing(se, ee, slack_stored, email_stored, check)[i];
            e is Object && e->Object_0[0] == ("name"@, JsonView::Str(se[i].0)) && e->Object_0[1] == ("type"@, JsonView::Str("slack"@))
        },
        forall|j: int| 0 <= j < ee.len() ==> {
            let e = #[trigger] account_listing(se, ee, slack_stored, email_stored, check)[se.len() + j];
            e is Object && e->Object_0[0] == ("name"@, JsonView::Str(ee[j].0)) && e->Object_0[1] == ("type"@, JsonView::Str("email"@))
        },
{
}

/// An entry's status agrees with whether its secret is there. A Slack account has a secret when
/// its webhook URL is in the file or the store holds its key; when checking, it is
/// `configured` exactly when it has one and `missing_secret` otherwise, and without checking
/// `ready` exactly when it has one and `unconfigured` otherwise. An Email account is, when
/// checking, `configured` exactly when it has a secret or uses Gmail, else
/// `missing_credentials`; without checking it is always `ready`.
pub proof fn law_listing_status(
    se: Seq<(Seq<char>, SlackProfile)>,
    ee: Seq<(Seq<char>, EmailProfile)>,
    slack_stored: Seq<bool>,
    email_stored: Seq<bool>,
    check: bool,
)
    requires
        slack_stored.len() == se.len(),
        email_stored.len() == ee.len(),
    ensures
        forall|i: int| 0 <= i < se.len() ==> {
            let f = (#[trigger] account_listing(se, ee, slack_stored, email_stored, check)[i])->Object_0;
            let held = (se[i].1.webhook_url matches Some(u) && trim(u@).len() > 0) || slack_stored[i];
            &&& f[3].0 == "status"@
            &&& f[4] == ("hasSecret"@, JsonView::Bool(held))
            &&& check ==> (f[3].1 == JsonView::Str("configured"@) <==> held)
            &&& check && !held ==> f[3].1 == JsonView::Str("missing_secret"@)
            &&& !check ==> (f[3].1 == JsonView::Str("ready"@) <==> held)
            &&& !check && !held ==> f[3].1 == JsonView::Str("unconfigured"@)
        },
        forall|j: int| 0 <= j < ee.len() ==> {
            let f = (#[trigger] account_listing(se, ee, slack_stored, email_stored, check)[se.len() + j])->Object_0;
            let held = email_stored[j];
            let gmail = ee[j].1.provider matches Some(v) && v@ == "gmail"@;
            &&& f[4].0 == "status"@
            &&& f[5] == ("hasSecret"@, JsonView::Bool(held))
            &&& check ==> (f[4].1 == JsonView::Str("configured"@) <==> held || gmail)
            &&& check && !held && !gmail ==> f[4].1 == JsonView::Str("missing_credentials"@)
            &&& !check ==> f[4].1 == JsonView::Str("ready"@)
        },
{
    reveal_strlit("configured");
    reveal_strlit("missing_secret");
    reveal_strlit("ready");
    reveal_strlit("unconfigured");
    reveal_strlit("missing_credentials");
    assert("configured"@ != "missing_secret"@) by {
        assert("configured"@.len() != "missing_secret"@.len());
    }
    assert("ready"@ != "unconfigured"@) by {
        assert("ready"@.len() != "unconfigured"@.len());
    }
    assert("configured"@ != "missing_credentials"@) by {
        assert("configured"@.len() != "missing_credentials"@.len());
    }
}

/// A Slack entry shows the profile's channel (empty when it has none); an Email entry shows
/// its provider (Gmail when none is set) and its sender (empty when none is set).
pub proof fn law_listing_details(
    se: Seq<(Seq<char>, SlackProfile)>,
    ee: Seq<(Seq<char>, EmailProfile)>,
    slack_stored: Seq<bool>,
    email_stored: Seq<bool>,
    check: bool,
)
    requires
        slack_stored.len() == se.len(),
        email_stored.len() == ee.len(),
    ensures
        forall|i: int| 0 <= i < se.len() ==> {
            let f = (#[trigger] account_listing(se, ee, slack_stored, email_stored, check)[i])->Object_0;
            &&& f.len() == 5
            &&& se[i].1.channel matches Some(c) ==> f[2] == ("channel"@, JsonView::Str(c@))
            &&& se[i].1.channel is None ==> f[2] == ("channel"@, JsonView::Str(""@))
        },
        forall|j: int| 0 <= j < ee.len() ==> {
            let f = (#[trigger] account_listing(se, ee, slack_stored, email_stored, check)[se.len() + j])->Object_0;
            &&& f.len() == 6
            &&& ee[j].1.provider matches Some(v) ==> f[2] == ("provider"@, JsonView::Str(v@))
            &&& ee[j].1.provider is None ==> f[2] == ("provider"@, JsonView::Str("gmail"@))
            &&& ee[j].1.from matches Some(v) ==> f[3] == ("from"@, JsonView::Str(v@))
            &&& ee[j].1.from is None ==> f[3] == ("from"@, JsonView::Str(""@))
        },
{
}

fn opt_text(o: &Option<String>, default: &str) -> (r: Json)
    ensures
        r@ == JsonView::Str(match *o {
            Some(v) => v@,
            None => default@,
        }),
{
    match o {
        Some(v) => json_str(v.as_str()),
        None => json_str(default),
    }
}

fn slack_listing_exec(name: &String, p: &SlackProfile, has_secret: bool, check: bool) -> (r: Json)
    ensures
        r@ == slack_listing(name@, *p, has_secret, check),
{
    let mut v: Vec<(String, Json)> = Vec::new();
    push_entry(&mut v, "name", json_str(name.as_str()));
    push_entry(&mut v, "type", json_str("slack"));
    push_entry(&mut v, "channel", opt_text(&p.channel, ""));
    let status = if check {
        if has_secret { "configured" } else { "missing_secret" }
    } else if has_secret {
        "ready"
    } else {
        "unconfigured"
    };
    push_entry(&mut v, "status", json_str(status));
    push_entry(&mut v, "hasSecret", json_bool(has_secret));
    let r = json_object(v);
    assert(entries_view(v@) =~= slack_listing(name@, *p, has_secret, check)->Object_0);
    r
}

fn email_listing_exec(name: &String, p: &EmailProfile, has_secret: bool, check: bool) -> (r: Json)
    ensures
        r@ == email_listing(name@, *p, has_secret, check),
{
    let mut v: Vec<(String, Json)> = Vec::new();
    push_entry(&mut v, "name", json_str(name.as_str()));
    push_entry(&mut v, "type", json_str("email"));
    push_entry(&mut v, "provider", opt_text(&p.provider, "gmail"));
    push_entry(&mut v, "from", opt_text(&p.from, ""));
    let is_gmail = match &p.provider {
        Some(v) => {
            let g = String::from_str("gmail");
            *v == g
        },
        None => false,
    };
    let status = if check {
        if has_secret || is_gmail { "configured" } else { "missing_credentials" }
    } else {
        "ready"
    };
    push_entry(&mut v, "status", json_str(status));
    push_entry(&mut v, "hasSecret", json_bool(has_secret));
    let r = json_object(v);
    assert(entries_view(v@) =~= email_listing(name@, *p, has_secret, check)->Object_0);
    r
}

/// The account listing: every Slack account, then every Email account, in file order. A Slack
/// account has a secret when its URL is in the file or `slack_stored[i]` (the store holds its
/// key); an Email account when `email_stored[i]`.
pub fn list_accounts(cfg: &Config, slack_stored: &Vec<bool>, email_stored: &Vec<bool>, check: bool) -> (r: Json)
    requires
        slack_stored@.len() == slack_entries(cfg.slack).len(),
        email_stored@.len() == email_entries(cfg.email).len(),
    ensures
        ({
            let se = slack_entries(cfg.slack);
            let ee = email_entries(cfg.email);
            r@ == JsonView::Array(account_listing(se, ee, slack_stored@, email_stored@, check))
        }),
{
    let ghost se = slack_entries(cfg.slack);
    let ghost ee = email_entries(cfg.email);
    let ghost want = Seq::new(se.len(), |i: int| slack_listing(se[i].0, se[i].1, url_in_file(se[i].1) || slack_stored@[i], check))
        + Seq::new(ee.len(), |i: int| email_listing(ee[i].0, ee[i].1, email_stored@[i], check));
    let mut out: Vec<Json> = Vec::new();
    let ns = slack_map_len(&cfg.slack);
    for i in 0..ns
        invariant
            ns == se.len(),
            se == slack_entries(cfg.slack),
            ee == email_entries(cfg.email),
            slack_stored@.len() == se.len(),
            want == Seq::new(se.len(), |i: int| slack_listing(se[i].0, se[i].1, url_in_file(se[i].1) || slack_stored@[i], check))
                + Seq::new(ee.len(), |i: int| email_listing(ee[i].0, ee[i].1, email_stored@[i], check)),
            out@.len() == i,
            forall|k: int| 0 <= k < i ==> #[trigger] out@[k]@ == want[k],
    {
        match slack_map_get_index(&cfg.slack, i) {
            Some((k, p)) => {
                let has = webhook_in_file(p) || slack_stored[i];
                out.push(slack_listing_exec(k, p, has, check));
            },
            None => {},
        }
    }
    let ne = email_map_len(&cfg.email);
    for j in 0..ne
        invariant
            ne == ee.len(),
            ns == se.len(),
            ee == email_entries(cfg.email),
            email_stored@.len() == ee.len(),
            want.len() == se.len() + ee.len(),
            forall|k: int| 0 <= k < ee.len() ==> #[trigger] want[se.len() + k] == email_listing(ee[k].0, ee[k].1, email_stored@[k], check),
            out@.len() == ns + j,
            forall|k: int| 0 <= k < ns + j ==> #[trigger] out@[k]@ == want[k],
    {
        match email_map_get_index(&cfg.email, j) {
            Some((k, p)) => {
                out.push(email_listing_exec(k, p, email_stored[j], check));
                assert(out@[ns + j]@ == want[se.len() + j]);
            },
            None => {},
        }
    }
    let ghost items = out@;
    let r = Json::Array(out);
    assert forall|k: int| 0 <= k < want.len() implies #[trigger] r@->Array_0[k] == want[k] by {
        assert(r@->Array_0[k] == items[k].view_rec());
        assert(items[k]@ == want[k]);
    }
    assert(r@->Array_0 =~= want);
    r
}

/// The error for an empty account name.
pub open spec fn empty_name_error() -> ErrorView {
    plain_error(ErrorCode::InvalidInput, "Account name cannot be empty."@)
}

/// Validates `accounts add`: the trimmed name must not be empty and the type must be `slack` or
/// `email` (ASCII case ignored). Returns the trimmed name and whether it is a Slack account.
pub fn validate_add(args: &AddAccountArgs) -> (r: Result<(String, bool), Error>)
    ensures
        trim(args.name@).len() == 0 ==> (r matches Err(e) && e@ == empty_name_error()),
        trim(args.name@).len() > 0 && !ascii_ci_eq(args.account_type@, "slack"@) && !ascii_ci_eq(args.account_type@, "email"@)
            ==> (r matches Err(e) && e@ == plain_error(
            ErrorCode::InvalidInput,
            "Invalid account type '"@ + args.account_type@ + "'. Must be 'slack' or 'email'."@,
        )),
        trim(args.name@).len() > 0 && (ascii_ci_eq(args.account_type@, "slack"@) || ascii_ci_eq(args.account_type@, "email"@))
            ==> (r matches Ok((n, s)) && n@ == trim(args.name@) && s == ascii_ci_eq(args.account_type@, "slack"@)),
{
    let name = trim_str(args.name.as_str());
    if name.as_str().is_empty() {
        return Err(Error::invalid("Account name cannot be empty."));
    }
    let is_slack = eq_ignore_ascii_case(args.account_type.as_str(), "slack");
    let is_email = eq_ignore_ascii_case(args.account_type.as_str(), "email");
    if !is_slack && !is_email {
        let mut m = String::from_str("Invalid account type '");
        m.append(args.account_type.as_str());
        m.append("'. Must be 'slack' or 'email'.");
        return Err(Error::invalid(m.as_str()));
    }
    Ok((name, is_slack))
}

/// An account of this kind with this name (ASCII case ignored) is configured.
pub open spec fn account_exists(cfg: Config, name: Seq<char>, is_slack: bool) -> bool {
    if is_slack {
        ci_index(slack_entries(cfg.slack), name) is Some
    } else {
        ci_index(email_entries(cfg.email), name) is Some
    }
}

/// The error for adding an account that exists without `--force`.
pub open spec fn exists_error(name: Seq<char>) -> ErrorView {
    ErrorView {
        code: ErrorCode::InvalidInput,
        message: "Account '"@ + name + "' already exists."@,
        detail: None,
        remediation: Some("Use --force to overwrite: notify accounts add "@ + name + " --force"@),
    }
}

/// Whether the account already exists; an existing account without `--force` is an error.
pub fn check_existing(cfg: &Config, name: &str, is_slack: bool, force: bool) -> (r: Result<bool, Error>)
    ensures
        account_exists(*cfg, name@, is_slack) && !force ==> (r matches Err(e) && e@ == exists_error(name@)),
        !(account_exists(*cfg, name@, is_slack) && !force) ==> r == Ok::<bool, Error>(account_exists(*cfg, name@, is_slack)),
{
    let exists = if is_slack {
        cfg.find_slack(name).is_some()
    } else {
        cfg.find_email(name).is_some()
    };
    if exists && !force {
        let mut m = String::from_str("Account '");
        m.append(name);
        m.append("' already exists.");
        let mut f = String::from_str("Use --force to overwrite: notify accounts add ");
        f.append(name);
        f.append(" --force");
        return Err(Error::invalid(m.as_str()).fix(f.as_str()));
    }
    Ok(exists)
}

/// The secret given on the command line: `--webhook-url`, else `--api-key`.
pub fn secret_argument(args: &AddAccountArgs) -> (r: Option<String>)
    ensures
        r == if args.webhook_url is Some { args.webhook_url } else { args.api_key },
{
    if args.webhook_url.is_some() {
        copy_opt(&args.webhook_url)
    } else {
        copy_opt(&args.api_key)
    }
}

/// The secret read from a line of standard input: trimmed, and required not to be empty.
pub fn stdin_secret(line: &str) -> (r: Result<String, Error>)
    ensures
        trim(line@).len() == 0 ==> (r matches Err(e) && e@ == plain_error(ErrorCode::InvalidInput, "No secret provided on stdin."@)),
        trim(line@).len() > 0 ==> (r matches Ok(s) && s@ == trim(line@)),
{
    let s = trim_str(line);
    if s.as_str().is_empty() {
        return Err(Error::invalid("No secret provided on stdin."));
    }
    Ok(s)
}

/// The error when standard input cannot be read for a secret.
pub fn stdin_secret_read_error(reason: &str) -> (r: Error)
    ensures
        r@ == plain_error(ErrorCode::InvalidInput, "Failed to read stdin: "@ + reason@),
{
    let mut m = String::from_str("Failed to read stdin: ");
    m.append(reason);
    Error::invalid(m.as_str())
}

/// The secret to store: only a non-blank one.
pub fn secret_to_store(secret: Option<String>) -> (r: Option<String>)
    ensures
        r == if secret matches Some(s) && trim(s@).len() > 0 { secret } else { None },
{
    match &secret {
        Some(s) => {
            if trim_chars(&chars_of(s.as_str())).len() > 0 {
                secret
            } else {
                None
            }
        },
        None => None,
    }
}

/// The Slack profile written by `accounts add`: the URL goes to the secret store, not the file.
pub open spec fn added_slack_profile(args: AddAccountArgs) -> SlackProfile {
    SlackProfile { webhook_url: None, channel: args.channel, username: args.username, icon_emoji: args.icon_emoji }
}

/// What the Email profile written by `accounts add` holds: provider `gmail` unless given, no
/// CC or BCC defaults.
pub open spec fn added_email_profile(args: AddAccountArgs, provider: Seq<char>, p: EmailProfile) -> bool {
    &&& p.provider matches Some(v) && v@ == provider
    &&& p.from == args.from
    &&& p.default_to == args.default_to
    &&& p.default_cc is None
    &&& p.default_bcc is None
    &&& p.endpoint == args.endpoint
}

/// Writes the profile of `accounts add` under `name` (see [`add_key`]): a Slack profile with
/// the message defaults, or an Email profile. An existing entry of that exact name keeps its
/// place and takes the new profile.
pub fn apply_add(cfg: &mut Config, args: &AddAccountArgs, name: &str, is_slack: bool)
    ensures
        final(cfg).version == old(cfg).version,
        is_slack ==> slack_entries(final(cfg).slack) == entries_insert(slack_entries(old(cfg).slack), name@, added_slack_profile(*args))
            && email_entries(final(cfg).email) == email_entries(old(cfg).email),
        !is_slack ==> slack_entries(final(cfg).slack) == slack_entries(old(cfg).slack) && exists|p: EmailProfile|
            added_email_profile(*args, match args.provider {
                Some(v) => v@,
                None => "gmail"@,
            }, p) && email_entries(final(cfg).email) == entries_insert(email_entries(old(cfg).email), name@, p),
{
    if is_slack {
        let p = SlackProfile {
            webhook_url: None,
            channel: copy_opt(&args.channel),
            username: copy_opt(&args.username),
            icon_emoji: copy_opt(&args.icon_emoji),
        };
        let _ = slack_map_insert(&mut cfg.slack, String::from_str(name), p);
    } else {
        let provider = match &args.provider {
            Some(v) => v.clone(),
            None => String::from_str("gmail"),
        };
        let p = EmailProfile {
            provider: Some(provider),
            from: copy_opt(&args.from),
            default_to: copy_opt(&args.default_to),
            default_cc: None,
            default_bcc: None,
            endpoint: copy_opt(&args.endpoint),
        };
        let ghost pv = p;
        let _ = email_map_insert(&mut cfg.email, String::from_str(name), p);
        assert(added_email_profile(*args, match args.provider {
            Some(v) => v@,
            None => "gmail"@,
        }, pv));
    }
}

/// The report of `accounts add`.
pub open spec fn add_report(already_exists: bool, name: Seq<char>, is_slack: bool, store: Seq<char>) -> JsonView {
    JsonView::Object(
        seq![
            ("status"@, JsonView::Str(if already_exists { "updated"@ } else { "created"@ })),
            ("name"@, JsonView::Str(name)),
            ("type"@, JsonView::Str(if is_slack { "slack"@ } else { "email"@ })),
            ("secretStore"@, JsonView::Str(store)),
        ],
    )
}

/// The report printed after an account was added or updated.
pub fn add_record(already_exists: bool, name: &str, is_slack: bool, store_name: &str) -> (r: Json)
    ensures
        r@ == add_report(already_exists, name@, is_slack, store_name@),
{
    let mut v: Vec<(String, Json)> = Vec::new();
    push_entry(&mut v, "status", json_str(if already_exists { "updated" } else { "created" }));
    push_entry(&mut v, "name", json_str(name));
    push_entry(&mut v, "type", json_str(if is_slack { "slack" } else { "email" }));
    push_entry(&mut v, "secretStore", json_str(store_name));
    let r = json_object(v);
    assert(entries_view(v@) =~= add_report(already_exists, name@, is_slack, store_name@)->Object_0);
    r
}

/// The name `accounts add` writes under: the stored name of an existing account of that
/// kind (ASCII case ignored), so that `--force` overwrites it in place; else the name given.
pub open spec fn add_key(cfg: Config, name: Seq<char>, is_slack: bool) -> Seq<char> {
    if is_slack {
        stored_name(slack_entries(cfg.slack), name)
    } else {
        stored_name(email_entries(cfg.email), name)
    }
}

fn stored_key(cfg: &Config, name: &str, is_slack: bool) -> (r: String)
    ensures
        r@ == add_key(*cfg, name@, is_slack),
{
    if is_slack {
        match cfg.find_slack(name) {
            Some((k, _)) => k.clone(),
            None => String::from_str(name),
        }
    } else {
        match cfg.find_email(name) {
            Some((k, _)) => k.clone(),
            None => String::from_str(name),
        }
    }
}

/// What `accounts add` leaves to be done once it has decided: store `secret` (key, value) in
/// the secret store when there is one, save `config`, print `report`.
pub struct AddedAccount {
    pub config: Config,
    pub secret: Option<(String, String)>,
    pub report: Json,
}

/// The secret `accounts add` stores: the line read from standard input (trimmed) with
/// `--api-key-stdin`, else `--webhook-url`, else `--api-key`; a blank one is not stored.
pub open spec fn added_secret(args: AddAccountArgs, line: Seq<char>) -> Option<Seq<char>> {
    if args.api_key_stdin {
        Some(trim(line))
    } else {
        match args.webhook_url {
            Some(u) => if trim(u@).len() > 0 { Some(u@) } else { None },
            None => match args.api_key {
                Some(k) => if trim(k@).len() > 0 { Some(k@) } else { None },
                None => None,
            },
        }
    }
}

/// `accounts add`: validates the arguments, then works on the loaded configuration
/// (`loaded`), the line read from standard input (`stdin_line`, consulted only with
/// `--api-key-stdin`; `Err` holds why it could not be read) and the secret store (`store`,
/// its name, or why it cannot be opened). Each failure comes in that order.
pub fn add_account(
    args: &AddAccountArgs,
    loaded: Result<Config, Error>,
    stdin_line: Result<String, String>,
    store: Result<String, Error>,
) -> (r: Result<AddedAccount, Error>)
    ensures
        ({
            let name = trim(args.name@);
            let is_slack = ascii_ci_eq(args.account_type@, "slack"@);
            let is_email = ascii_ci_eq(args.account_type@, "email"@);
            if name.len() == 0 {
                r matches Err(e) && e@ == empty_name_error()
            } else if !is_slack && !is_email {
                r matches Err(e) && e@ == plain_error(
                    ErrorCode::InvalidInput,
                    "Invalid account type '"@ + args.account_type@ + "'. Must be 'slack' or 'email'."@,
                )
            } else {
                match loaded {
                    Err(e) => r == Err::<AddedAccount, Error>(e),
                    Ok(cfg) => {
                        let exists = account_exists(cfg, name, is_slack);
                        if exists && !args.force {
                            r matches Err(e) && e@ == exists_error(name)
                        } else if args.api_key_stdin && stdin_line is Err {
                            r matches Err(e) && e@ == plain_error(
                                ErrorCode::InvalidInput,
                                "Failed to read stdin: "@ + stdin_line->Err_0@,
                            )
                        } else if args.api_key_stdin && trim(stdin_line->Ok_0@).len() == 0 {
                            r matches Err(e) && e@ == plain_error(ErrorCode::InvalidInput, "No secret provided on stdin."@)
                        } else {
                            match store {
                                Err(e) => r == Err::<AddedAccount, Error>(e),
                                Ok(store_name) => r matches Ok(a) && {
                                    &&& a.report@ == add_report(exists, name, is_slack, store_name@)
                                    &&& match added_secret(*args, stdin_line->Ok_0@) {
                                        Some(sec) => a.secret matches Some((k, v)) && k@ == account_key_text(add_key(cfg, name, is_slack)) && v@ == sec,
                                        None => a.secret is None,
                                    }
                                    &&& a.config.version == cfg.version
                                    &&& is_slack ==> slack_entries(a.config.slack) == entries_insert(
                                        slack_entries(cfg.slack),
                                        add_key(cfg, name, true),
                                        added_slack_profile(*args),
                                    ) && email_entries(a.config.email) == email_entries(cfg.email)
                                    &&& !is_slack ==> slack_entries(a.config.slack) == slack_entries(cfg.slack)
                                        && exists|p: EmailProfile|
                                        added_email_profile(*args, match args.provider {
                                            Some(v) => v@,
                                            None => "gmail"@,
                                        }, p) && email_entries(a.config.email) == entries_insert(
                                            email_entries(cfg.email),
                                            add_key(cfg, name, false),
                                            p,
                                        )
                                },
                            }
                        }
                    },
                }
            }
        }),
{
    let (name, is_slack) = match validate_add(args) {
        Err(e) => return Err(e),
        Ok(v) => v,
    };
    let mut cfg = match loaded {
        Err(e) => return Err(e),
        Ok(c) => c,
    };
    let exists = match check_existing(&cfg, name.as_str(), is_slack, args.force) {
        Err(e) => return Err(e),
        Ok(b) => b,
    };
    let secret = if args.api_key_stdin {
        match &stdin_line {
            Err(reason) => return Err(stdin_secret_read_error(reason.as_str())),
            Ok(line) => match stdin_secret(line.as_str()) {
                Err(e) => return Err(e),
                Ok(s) => Some(s),
            },
        }
    } else {
        secret_argument(args)
    };
    let store_name = match store {
        Err(e) => return Err(e),
        Ok(n) => n,
    };
    let ghost want = added_secret(*args, stdin_line->Ok_0@);
    proof {
        law_trim_idempotent(stdin_line->Ok_0@);
    }
    let key = stored_key(&cfg, name.as_str(), is_slack);
    let stored = match secret_to_store(secret) {
        Some(sec) => Some((account_key(key.as_str()), sec)),
        None => None,
    };
    assert(match want {
        Some(sec) => stored matches Some((k, v)) && k@ == account_key_text(key@) && v@ == sec,
        None => stored is None,
    });
    let ghost before = cfg;
    apply_add(&mut cfg, args, key.as_str(), is_slack);
    let report = add_record(exists, name.as_str(), is_slack, store_name.as_str());
    assert(cfg.version == before.version);
    Ok(AddedAccount { config: cfg, secret: stored, report })
}

/// Which account `accounts test` checks.
pub enum TestTarget {
    Slack(String),
    Email(String),
}

/// The error for an unknown account.
pub open spec fn unknown_account_error(name: Seq<char>, with_fix: bool) -> ErrorView {
    ErrorView {
        code: ErrorCode::NotFound,
        message: "Account '"@ + name + "' not found."@,
        detail: None,
        remediation: if with_fix { Some("List accounts with: notify accounts list"@) } else { None },
    }
}

/// The account `accounts test` checks: the Slack profile of that name (ASCII case ignored),
/// else the Email profile, with its name as stored; else a `not_found` error.
pub fn test_target(cfg: &Config, name: &str) -> (r: Result<TestTarget, Error>)
    ensures
        ({
            let se = slack_entries(cfg.slack);
            let ee = email_entries(cfg.email);
            match ci_index(se, name@) {
                Some(i) => r matches Ok(TestTarget::Slack(n)) && n@ == se[i].0,
                None => match ci_index(ee, name@) {
                    Some(i) => r matches Ok(TestTarget::Email(n)) && n@ == ee[i].0,
                    None => r matches Err(e) && e@ == unknown_account_error(name@, true),
                },
            }
        }),
{
    if let Some((k, _)) = cfg.find_slack(name) {
        return Ok(TestTarget::Slack(k.clone()));
    }
    if let Some((k, _)) = cfg.find_email(name) {
        return Ok(TestTarget::Email(k.clone()));
    }
    let mut m = String::from_str("Account '");
    m.append(name);
    m.append("' not found.");
    Err(Error::not_found(m.as_str()).fix("List accounts with: notify accounts list"))
}

/// The report of a tested Slack account.
pub open spec fn slack_test_report(name: Seq<char>, p: ResolvedSlackProfile) -> JsonView {
    slack_test_view(name, p.source@, p.channel)
}

/// The report of a tested Slack account whose URL came from `source`.
pub open spec fn slack_test_view(name: Seq<char>, source: Seq<char>, channel: Option<String>) -> JsonView {
    JsonView::Object(
        seq![
            ("status"@, JsonView::Str("ok"@)),
            ("account"@, JsonView::Str(name)),
            ("type"@, JsonView::Str("slack"@)),
            ("secretSource"@, JsonView::Str(source)),
            ("channel"@, JsonView::Str(match channel {
                Some(c) => c@,
                None => ""@,
            })),
            ("valid"@, JsonView::Bool(true)),
        ],
    )
}

/// The report printed for a Slack account that resolved.
pub fn slack_test_record(name: &str, p: &ResolvedSlackProfile) -> (r: Json)
    ensures
        r@ == slack_test_report(name@, *p),
{
    let mut v: Vec<(String, Json)> = Vec::new();
    push_entry(&mut v, "status", json_str("ok"));
    push_entry(&mut v, "account", json_str(name));
    push_entry(&mut v, "type", json_str("slack"));
    push_entry(&mut v, "secretSource", json_str(p.source.as_str()));
    push_entry(&mut v, "channel", opt_text(&p.channel, ""));
    push_entry(&mut v, "valid", json_bool(true));
    let r = json_object(v);
    assert(entries_view(v@) =~= slack_test_report(name@, *p)->Object_0);
    r
}

/// The report of a tested Email account.
pub open spec fn email_test_report(name: Seq<char>, p: ResolvedEmailProfile) -> JsonView {
    email_test_view(name, p.provider@, p.from@, p.source@)
}

/// The report of a tested Email account with this provider, sender and secret source.
pub open spec fn email_test_view(name: Seq<char>, provider: Seq<char>, from: Seq<char>, source: Seq<char>) -> JsonView {
    JsonView::Object(
        seq![
            ("status"@, JsonView::Str("ok"@)),
            ("account"@, JsonView::Str(name)),
            ("type"@, JsonView::Str("email"@)),
            ("provider"@, JsonView::Str(provider)),
            ("from"@, JsonView::Str(from)),
            ("secretSource"@, JsonView::Str(source)),
            ("valid"@, JsonView::Bool(true)),
        ],
    )
}

/// The report printed for an Email account that resolved.
pub fn email_test_record(name: &str, p: &ResolvedEmailProfile) -> (r: Json)
    ensures
        r@ == email_test_report(name@, *p),
{
    let mut v: Vec<(String, Json)> = Vec::new();
    push_entry(&mut v, "status", json_str("ok"));
    push_entry(&mut v, "account", json_str(name));
    push_entry(&mut v, "type", json_str("email"));
    push_entry(&mut v, "provider", json_str(p.provider.as_str()));
    push_entry(&mut v, "from", json_str(p.from.as_str()));
    push_entry(&mut v, "secretSource", json_str(p.source.as_str()));
    push_entry(&mut v, "valid", json_bool(true));
    let r = json_object(v);
    assert(entries_view(v@) =~= email_test_report(name@, *p)->Object_0);
    r
}

/// What `accounts test` does next.
pub enum TestStep {
    /// The account resolved; print this report.
    Report(Json),
    /// The Slack account's webhook URL must come from the secret store; finish with
    /// [`slack_secret_report`].
    SlackSecret(PendingSlack),
    /// The Email account's secret is looked up in the secret store; finish with
    /// [`email_secret_report`].
    EmailSecret(PendingEmail),
}

/// `accounts test`: finds the account `name` (ASCII case ignored; Slack first, then Email)
/// and resolves it as sending would. A Slack profile whose webhook URL is in the file is
/// reported at once; otherwise the secret store is consulted. An unknown name is a
/// `not_found` error.
pub fn test_account(cfg: &Config, name: &str) -> (r: Result<TestStep, Error>)
    ensures
        ({
            let se = slack_entries(cfg.slack);
            let ee = email_entries(cfg.email);
            match ci_index(se, name@) {
                Some(i) => if usable_url(se[i].1) {
                    r matches Ok(TestStep::Report(j)) && j@ == slack_test_view(se[i].0, "config"@, se[i].1.channel)
                } else {
                    &&& r matches Ok(TestStep::SlackSecret(q))
                    &&& q.name@ == se[i].0
                    &&& q.profile == se[i].1
                    &&& q.primary_key@ == account_key_text(se[i].0)
                    &&& q.fallback_key@ == slack_fallback_key(se[i].0)
                },
                None => match ci_index(ee, name@) {
                    Some(i) => {
                        &&& r matches Ok(TestStep::EmailSecret(q))
                        &&& q.name@ == ee[i].0
                        &&& q.profile@ == ee[i].1@
                        &&& q.primary_key@ == account_key_text(ee[i].0)
                        &&& q.fallback_key@ == email_fallback_key(ee[i].0)
                    },
                    None => r matches Err(e) && e@ == unknown_account_error(name@, true),
                },
            }
        }),
{
    let ghost se = slack_entries(cfg.slack);
    let ghost ee = email_entries(cfg.email);
    match test_target(cfg, name) {
        Err(e) => Err(e),
        Ok(TestTarget::Slack(found)) => {
            proof {
                lemma_ci_index(se, name@);
                law_find_ignores_case(se, found@, name@);
            }
            match resolve_slack(cfg, found.as_str()) {
                Err(e) => Err(e),
                Ok(SlackResolution::Ready(p)) => Ok(TestStep::Report(slack_test_record(found.as_str(), &p))),
                Ok(SlackResolution::NeedsSecret(q)) => Ok(TestStep::SlackSecret(q)),
            }
        },
        Ok(TestTarget::Email(found)) => {
            proof {
                lemma_ci_index(ee, name@);
                law_find_ignores_case(ee, found@, name@);
            }
            match resolve_email(cfg, found.as_str()) {
                Err(e) => Err(e),
                Ok(q) => Ok(TestStep::EmailSecret(q)),
            }
        },
    }
}

/// Finishes `accounts test` for a Slack account from what the secret store holds under its
/// primary key (`primary`) and, when that is empty, its fallback key (`fallback`).
pub fn slack_secret_report(p: PendingSlack, primary: Option<String>, fallback: Option<String>, store_name: &str) -> (r: Result<Json, Error>)
    ensures
        ({
            let secret = match primary {
                Some(s) => Some(s),
                None => fallback,
            };
            match secret {
                Some(_) => r matches Ok(j) && j@ == slack_test_view(p.name@, store_name@, p.profile.channel),
                None => r matches Err(e) && e@ == slack_secret_missing_error(p.name@),
            }
        }),
{
    let name = p.name.clone();
    match finish_slack(p, primary, fallback, store_name) {
        Err(e) => Err(e),
        Ok(resolved) => Ok(slack_test_record(name.as_str(), &resolved)),
    }
}

/// Finishes `accounts test` for an Email account from what the secret store holds under its
/// primary key (`primary`) and, when that is empty, its fallback key (`fallback`).
pub fn email_secret_report(p: PendingEmail, primary: Option<String>, fallback: Option<String>) -> (r: Json)
    ensures
        r@ == email_test_view(
            p.name@,
            match p.profile.provider {
                Some(v) => v@,
                None => "gmail"@,
            },
            match p.profile.from {
                Some(v) => v@,
                None => Seq::<char>::empty(),
            },
            if primary is Some || fallback is Some {
                "keystore"@
            } else {
                "config"@
            },
        ),
{
    let name = p.name.clone();
    let resolved = finish_email(p, primary, fallback);
    email_test_record(name.as_str(), &resolved)
}

/// `accounts remove` needs a configured account of that name (ASCII case ignored, either kind).
pub fn check_removable(cfg: &Config, name: &str) -> (r: Result<(), Error>)
    ensures
        ci_index(slack_entries(cfg.slack), name@) is Some || ci_index(email_entries(cfg.email), name@) is Some
            <==> r is Ok,
        r matches Err(e) ==> e@ == unknown_account_error(name@, false),
{
    let is_slack = cfg.find_slack(name).is_some();
    let is_email = cfg.find_email(name).is_some();
    if !is_slack && !is_email {
        let mut m = String::from_str("Account '");
        m.append(name);
        m.append("' not found.");
        return Err(Error::not_found(m.as_str()));
    }
    Ok(())
}

/// The answer to the removal prompt confirms it: `y` or `yes`, ASCII case ignored, around
/// whitespace.
pub open spec fn confirms(line: Seq<char>) -> bool {
    ascii_ci_eq(trim(line), "y"@) || ascii_ci_eq(trim(line), "yes"@)
}

/// Whether the answer to the removal prompt confirms it.
pub fn confirmed(line: &str) -> (r: bool)
    ensures
        r == confirms(line@),
{
    let t = trim_str(line);
    eq_ignore_ascii_case(t.as_str(), "y") || eq_ignore_ascii_case(t.as_str(), "yes")
}

/// The error when the user declines the removal.
pub fn aborted_error() -> (r: Error)
    ensures
        r@ == plain_error(ErrorCode::Error, "Aborted by user."@),
{
    Error::other("Aborted by user.")
}

/// The keystore keys of a list of account names.
pub open spec fn key_texts(names: Seq<Seq<char>>) -> Seq<Seq<char>> {
    names.map_values(|n: Seq<char>| account_key_text(n))
}

fn remove_slack_matches(cfg: &mut Config, name: &str, keys: &mut Vec<String>)
    ensures
        final(cfg).version == old(cfg).version,
        email_entries(final(cfg).email) == email_entries(old(cfg).email),
        slack_entries(final(cfg).slack) == entries_remove_ci(slack_entries(old(cfg).slack), name@),
        views(final(keys)@) == views(old(keys)@) + key_texts(names_ci(slack_entries(old(cfg).slack), name@)),
{
    let ghost e0 = slack_entries(cfg.slack);
    let ghost k0 = views(keys@);
    let ghost mut done: Seq<Seq<char>> = Seq::empty();
    let mut next = match cfg.find_slack(name) {
        Some((k, _)) => Some(k.clone()),
        None => None,
    };
    while next.is_some()
        invariant
            cfg.version == old(cfg).version,
            email_entries(cfg.email) == email_entries(old(cfg).email),
            e0 == slack_entries(old(cfg).slack),
            k0 == views(old(keys)@),
            next is Some <==> ci_index(slack_entries(cfg.slack), name@) is Some,
            next matches Some(n) ==> n@ == slack_entries(cfg.slack)[ci_index(slack_entries(cfg.slack), name@)->0].0,
            entries_remove_ci(slack_entries(cfg.slack), name@) == entries_remove_ci(e0, name@),
            names_ci(e0, name@) == done + names_ci(slack_entries(cfg.slack), name@),
            views(keys@) == k0 + key_texts(done),
        decreases slack_entries(cfg.slack).len(),
    {
        let key = match next {
            Some(k) => k,
            None => String::new(),
        };
        let ghost cur = slack_entries(cfg.slack);
        proof {
            lemma_remove_first_match(cur, name@);
        }
        let _ = slack_map_shift_remove(&mut cfg.slack, key.as_str());
        let ghost kv = keys@;
        keys.push(account_key(key.as_str()));
        proof {
            let i = ci_index(cur, name@)->0;
            assert(slack_entries(cfg.slack) == cur.remove(i));
            assert(names_ci(e0, name@) =~= done.push(key@) + names_ci(cur.remove(i), name@));
            assert(views(keys@) =~= views(kv).push(account_key_text(key@)));
            assert(key_texts(done.push(key@)) =~= key_texts(done).push(account_key_text(key@)));
            done = done.push(key@);
        }
        next = match cfg.find_slack(name) {
            Some((k, _)) => Some(k.clone()),
            None => None,
        };
    }
    proof {
        lemma_remove_ci_no_match(slack_entries(cfg.slack), name@);
        assert(names_ci(e0, name@) =~= done);
    }
}

fn remove_email_matches(cfg: &mut Config, name: &str, keys: &mut Vec<String>)
    ensures
        final(cfg).version == old(cfg).version,
        slack_entries(final(cfg).slack) == slack_entries(old(cfg).slack),
        email_entries(final(cfg).email) == entries_remove_ci(email_entries(old(cfg).email), name@),
        views(final(keys)@) == views(old(keys)@) + key_texts(names_ci(email_entries(old(cfg).email), name@)),
{
    let ghost e0 = email_entries(cfg.email);
    let ghost k0 = views(keys@);
    let ghost mut done: Seq<Seq<char>> = Seq::empty();
    let mut next = match cfg.find_email(name) {
        Some((k, _)) => Some(k.clone()),
        None => None,
    };
    while next.is_some()
        invariant
            cfg.version == old(cfg).version,
            slack_entries(cfg.slack) == slack_entries(old(cfg).slack),
            e0 == email_entries(old(cfg).email),
            k0 == views(old(keys)@),
            next is Some <==> ci_index(email_entries(cfg.email), name@) is Some,
            next matches Some(n) ==> n@ == email_entries(cfg.email)[ci_index(email_entries(cfg.email), name@)->0].0,
            entries_remove_ci(email_entries(cfg.email), name@) == entries_remove_ci(e0, name@),
            names_ci(e0, name@) == done + names_ci(email_entries(cfg.email), name@),
            views(keys@) == k0 + key_texts(done),
        decreases email_entries(cfg.email).len(),
    {
        let key = match next {
            Some(k) => k,
            None => String::new(),
        };
        let ghost cur = email_entries(cfg.email);
        proof {
            lemma_remove_first_match(cur, name@);
        }
        let _ = email_map_shift_remove(&mut cfg.email, key.as_str());
        let ghost kv = keys@;
        keys.push(account_key(key.as_str()));
        proof {
            let i = ci_index(cur, name@)->0;
            assert(email_entries(cfg.email) == cur.remove(i));
            assert(names_ci(e0, name@) =~= done.push(key@) + names_ci(cur.remove(i), name@));
            assert(views(keys@) =~= views(kv).push(account_key_text(key@)));
            assert(key_texts(done.push(key@)) =~= key_texts(done).push(account_key_text(key@)));
            done = done.push(key@);
        }
        next = match cfg.find_email(name) {
            Some((k, _)) => Some(k.clone()),
            None => None,
        };
    }
    proof {
        lemma_remove_ci_no_match(email_entries(cfg.email), name@);
        assert(names_ci(e0, name@) =~= done);
    }
}

/// Removes every profile whose name equals `name` up to ASCII case, from both kinds, the
/// others keeping their content and order. Returns the keystore keys of the removed accounts
/// (Slack ones first), whose secrets go too.
pub fn remove_from_config(cfg: &mut Config, name: &str) -> (keys: Vec<String>)
    ensures
        final(cfg).version == old(cfg).version,
        slack_entries(final(cfg).slack) == entries_remove_ci(slack_entries(old(cfg).slack), name@),
        email_entries(final(cfg).email) == entries_remove_ci(email_entries(old(cfg).email), name@),
        views(keys@) == key_texts(names_ci(slack_entries(old(cfg).slack), name@)) + key_texts(
            names_ci(email_entries(old(cfg).email), name@),
        ),
{
    let mut keys: Vec<String> = Vec::new();
    assert(views(keys@) =~= Seq::<Seq<char>>::empty());
    remove_slack_matches(cfg, name, &mut keys);
    remove_email_matches(cfg, name, &mut keys);
    assert(Seq::<Seq<char>>::empty() + key_texts(names_ci(slack_entries(old(cfg).slack), name@)) =~= key_texts(
        names_ci(slack_entries(old(cfg).slack), name@),
    ));
    keys
}

/// What `accounts remove` does next.
pub enum RemoveStep {
    /// Ask the user to confirm, then decide again with the answer.
    Confirm,
    /// The configuration was updated: delete the secrets stored under `keys` (a failure there
    /// is ignored), save the configuration and print `report`.
    Remove { keys: Vec<String>, report: Json },
}

/// `accounts remove`: the account must exist (ASCII case ignored, either kind). Without `yes`
/// at an interactive terminal the user is asked first (`answer` is `None` until then) and must
/// answer `y` or `yes`. Removal takes every profile of that name (ASCII case ignored) out of
/// both kinds, with its stored secret, and leaves the other profiles as they were.
pub fn remove_account(cfg: &mut Config, name: &str, yes: bool, interactive: bool, answer: Option<String>) -> (r: Result<RemoveStep, Error>)
    ensures
        ({
            let found = ci_index(slack_entries(old(cfg).slack), name@) is Some || ci_index(
                email_entries(old(cfg).email),
                name@,
            ) is Some;
            let asking = !yes && interactive;
            if !found {
                r matches Err(e) && e@ == unknown_account_error(name@, false)
            } else if asking && answer is None {
                r matches Ok(RemoveStep::Confirm)
            } else if asking && !confirms(answer->0@) {
                r matches Err(e) && e@ == plain_error(ErrorCode::Error, "Aborted by user."@)
            } else {
                &&& r matches Ok(RemoveStep::Remove { keys, report })
                &&& views(keys@) == key_texts(names_ci(slack_entries(old(cfg).slack), name@)) + key_texts(
                    names_ci(email_entries(old(cfg).email), name@),
                )
                &&& report@ == JsonView::Object(seq![("status"@, JsonView::Str("removed"@)), ("name"@, JsonView::Str(name@))])
            }
        }),
        r matches Ok(RemoveStep::Remove { .. }) ==> {
            &&& final(cfg).version == old(cfg).version
            &&& slack_entries(final(cfg).slack) == entries_remove_ci(slack_entries(old(cfg).slack), name@)
            &&& email_entries(final(cfg).email) == entries_remove_ci(email_entries(old(cfg).email), name@)
            &&& ci_index(slack_entries(final(cfg).slack), name@) is None
            &&& ci_index(email_entries(final(cfg).email), name@) is None
        },
        !(r matches Ok(RemoveStep::Remove { .. })) ==> *final(cfg) == *old(cfg),
{
    match check_removable(cfg, name) {
        Err(e) => {
            return Err(e);
        },
        Ok(_) => {},
    }
    if !yes && interactive {
        match &answer {
            None => {
                return Ok(RemoveStep::Confirm);
            },
            Some(line) => {
                if !confirmed(line.as_str()) {
                    return Err(aborted_error());
                }
            },
        }
    }
    let ghost se = slack_entries(cfg.slack);
    let ghost ee = email_entries(cfg.email);
    let keys = remove_from_config(cfg, name);
    proof {
        law_remove_ci_then_absent(se, name@);
        law_remove_ci_then_absent(ee, name@);
    }
    Ok(RemoveStep::Remove { keys, report: removed_record(name) })
}

/// The report of a removed account.
pub fn removed_record(name: &str) -> (r: Json)
    ensures
        r@ == JsonView::Object(seq![("status"@, JsonView::Str("removed"@)), ("name"@, JsonView::Str(name@))]),
{
    let mut v: Vec<(String, Json)> = Vec::new();
    push_entry(&mut v, "status", json_str("removed"));
    push_entry(&mut v, "name", json_str(name));
    let r = json_object(v);
    assert(entries_view(v@) =~= seq![("status"@, JsonView::Str("removed"@)), ("name"@, JsonView::Str(name@))]);
    r
}

} // verus!
