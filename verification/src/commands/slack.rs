//! Sending a Slack message: destination, payload and report.

use vstd::prelude::*;
use vstd::string::*;
use vstd::utf8::*;

use crate::account::{available_text, entry_names, ResolvedSlackProfile};
use crate::cli::SlackArgs;
use crate::config::{slack_entries, slack_map_get_index, slack_map_len, Config};
use crate::error::{plain_error, Error, ErrorCode, ErrorView};
use crate::json::{
    entries_view, json_bool, json_object, json_object1, json_str, json_text_error, json_text_value, parse_json,
    push_entry, Json, JsonView,
};
use crate::text::{chars_of, copy_opt, string_from_chars, trim, trim_chars, trim_str, slice_chars};

verus! {

/// A `--webhook-url` that is not blank.
pub fn direct_webhook(args: &SlackArgs) -> (r: Option<String>)
    ensures
        r == if args.webhook_url matches Some(u) && trim(u@).len() > 0 {
            args.webhook_url
        } else {
            None
        },
{
    match &args.webhook_url {
        Some(u) => {
            if trim_chars(&chars_of(u.as_str())).len() > 0 {
                copy_opt(&args.webhook_url)
            } else {
                None
            }
        },
        None => None,
    }
}

/// The error when neither a profile nor a webhook URL is given and the profile is not implied.
pub open spec fn no_target_error(names: Seq<Seq<char>>) -> ErrorView {
    ErrorView {
        code: ErrorCode::InvalidInput,
        message: "Please specify a Slack profile or --webhook-url."@,
        detail: Some("Available profiles: "@ + available_text(names)),
        remediation: Some(
            "Run: notify slack <profile> --message \"...\" or notify slack --webhook-url <url> --message \"...\""@,
        ),
    }
}

/// With no profile named and no webhook URL given: the only configured Slack profile, or an
/// `invalid_input` error listing the profiles.
pub fn only_slack_profile(cfg: &Config) -> (r: Result<String, Error>)
    ensures
        slack_entries(cfg.slack).len() == 1 ==> (r matches Ok(n) && n@ == slack_entries(cfg.slack)[0].0),
        slack_entries(cfg.slack).len() != 1 ==> (r matches Err(e) && e@ == no_target_error(entry_names(slack_entries(cfg.slack)))),
{
    let n = slack_map_len(&cfg.slack);
    if n == 1 {
        match slack_map_get_index(&cfg.slack, 0) {
            Some((k, _)) => {
                return Ok(k.clone());
            },
            None => {},
        }
    }
    let ghost e = slack_entries(cfg.slack);
    let mut names: Vec<String> = Vec::new();
    for i in 0..n
        invariant
            n == e.len(),
            e == slack_entries(cfg.slack),
            names@.map_values(|s: String| s@) == entry_names(e).take(i as int),
    {
        let ghost before = names@;
        match slack_map_get_index(&cfg.slack, i) {
            Some((k, _)) => {
                names.push(k.clone());
                assert(names@.map_values(|s: String| s@) == before.map_values(|s: String| s@).push(k@));
                assert(entry_names(e).take(i + 1) == entry_names(e).take(i as int).push(e[i as int].0));
            },
            None => {},
        }
    }
    assert(entry_names(e).take(n as int) =~= entry_names(e));
    let available = crate::account::available_profiles(&names);
    let mut detail = String::from_str("Available profiles: ");
    detail.append(available.as_str());
    Err(Error::invalid("Please specify a Slack profile or --webhook-url.").detail(detail.as_str()).fix(
        "Run: notify slack <profile> --message \"...\" or notify slack --webhook-url <url> --message \"...\"",
    ))
}

/// Where a Slack message goes and who it appears from.
pub struct SlackDestination {
    pub webhook_url: String,
    pub channel: Option<String>,
    pub username: Option<String>,
    pub icon_emoji: Option<String>,
}

/// The destination: a direct webhook URL with no defaults, or a profile's URL and defaults;
/// `--channel`, `--username` and `--icon-emoji` take precedence over the defaults.
pub fn slack_destination(args: &SlackArgs, direct: Option<String>, profile: Option<ResolvedSlackProfile>) -> (r: SlackDestination)
    requires
        direct is Some || profile is Some,
    ensures
        ({
            let (url, ch, us, ic) = match direct {
                Some(u) => (u, None, None, None),
                None => {
                    let p = profile->0;
                    (p.webhook_url, p.channel, p.username, p.icon_emoji)
                },
            };
            &&& r.webhook_url == url
            &&& r.channel == if args.channel is Some { args.channel } else { ch }
            &&& r.username == if args.username is Some { args.username } else { us }
            &&& r.icon_emoji == if args.icon_emoji is Some { args.icon_emoji } else { ic }
        }),
{
    let (url, ch, us, ic) = match direct {
        Some(u) => (u, None, None, None),
        None => match profile {
            Some(p) => (p.webhook_url, p.channel, p.username, p.icon_emoji),
            None => (String::new(), None, None, None),
        },
    };
    SlackDestination {
        webhook_url: url,
        channel: if args.channel.is_some() { copy_opt(&args.channel) } else { ch },
        username: if args.username.is_some() { copy_opt(&args.username) } else { us },
        icon_emoji: if args.icon_emoji.is_some() { copy_opt(&args.icon_emoji) } else { ic },
    }
}

/// Where the message payload comes from.
pub enum PayloadSource {
    Message(String),
    RawJson(String),
    JsonFile(String),
    Stdin,
}

/// The error when more than one payload option is given.
pub open spec fn payload_conflict_error() -> ErrorView {
    plain_error(ErrorCode::InvalidInput, "Only one of --message, --json-payload, or --json-file can be used."@)
}

/// The error when no payload is given.
pub open spec fn no_payload_error() -> ErrorView {
    ErrorView {
        code: ErrorCode::InvalidInput,
        message: "No message content provided."@,
        detail: None,
        remediation: Some("Specify --message <text>, --json-payload <json>, --json-file <path>, or pipe via stdin."@),
    }
}

/// The payload comes from `--message`, `--json-payload` or `--json-file` (at most one of
/// them), else from piped standard input.
pub fn payload_source(args: &SlackArgs, stdin_piped: bool) -> (r: Result<PayloadSource, Error>)
    ensures
        args.message is Some ==> if args.json_payload is Some || args.json_file is Some {
            r matches Err(e) && e@ == payload_conflict_error()
        } else {
            r matches Ok(PayloadSource::Message(m)) && m == args.message->0
        },
        args.message is None && args.json_payload is Some ==> if args.json_file is Some {
            r matches Err(e) && e@ == payload_conflict_error()
        } else {
            r matches Ok(PayloadSource::RawJson(j)) && j == args.json_payload->0
        },
        args.message is None && args.json_payload is None && args.json_file is Some ==> (r matches Ok(
            PayloadSource::JsonFile(f),
        ) && f == args.json_file->0),
        args.message is None && args.json_payload is None && args.json_file is None ==> if stdin_piped {
            r matches Ok(PayloadSource::Stdin)
        } else {
            r matches Err(e) && e@ == no_payload_error()
        },
{
    if let Some(m) = &args.message {
        if args.json_payload.is_some() || args.json_file.is_some() {
            return Err(Error::invalid("Only one of --message, --json-payload, or --json-file can be used."));
        }
        return Ok(PayloadSource::Message(m.clone()));
    }
    if let Some(j) = &args.json_payload {
        if args.json_file.is_some() {
            return Err(Error::invalid("Only one of --message, --json-payload, or --json-file can be used."));
        }
        return Ok(PayloadSource::RawJson(j.clone()));
    }
    if let Some(f) = &args.json_file {
        return Ok(PayloadSource::JsonFile(f.clone()));
    }
    if stdin_piped {
        Ok(PayloadSource::Stdin)
    } else {
        Err(Error::invalid("No message content provided.").fix(
            "Specify --message <text>, --json-payload <json>, --json-file <path>, or pipe via stdin.",
        ))
    }
}

/// `{"text": message}`.
pub fn text_payload(message: &str) -> (r: Json)
    ensures
        r@ == JsonView::Object(seq![("text"@, JsonView::Str(message@))]),
{
    json_object1("text", json_str(message))
}

/// `--json-payload` after parsing: the document, or an `invalid_input` error with the parser's
/// reason.
pub fn raw_json_payload(parsed: Result<Json, String>) -> (r: Result<Json, Error>)
    ensures
        match parsed {
            Ok(j) => r == Ok::<Json, Error>(j),
            Err(reason) => r matches Err(e) && e@ == plain_error(ErrorCode::InvalidInput, "Invalid JSON payload: "@ + reason@),
        },
{
    match parsed {
        Ok(j) => Ok(j),
        Err(reason) => {
            let mut m = String::from_str("Invalid JSON payload: ");
            m.append(reason.as_str());
            Err(Error::invalid(m.as_str()))
        },
    }
}

/// `--json-file` after reading and parsing: the document, or the read or parse error.
pub fn json_file_payload(path: &str, read: Result<Json, String>, read_failed: bool) -> (r: Result<Json, Error>)
    ensures
        match read {
            Ok(j) => r == Ok::<Json, Error>(j),
            Err(reason) => r matches Err(e) && e@ == plain_error(
                ErrorCode::InvalidInput,
                if read_failed {
                    "Could not read JSON file '"@ + path@ + "': "@ + reason@
                } else {
                    "Invalid JSON in file '"@ + path@ + "': "@ + reason@
                },
            ),
        },
{
    match read {
        Ok(j) => Ok(j),
        Err(reason) => {
            let mut m = if read_failed {
                String::from_str("Could not read JSON file '")
            } else {
                String::from_str("Invalid JSON in file '")
            };
            m.append(path);
            m.append("': ");
            m.append(reason.as_str());
            Err(Error::invalid(m.as_str()))
        },
    }
}

/// Piped input that looks like a JSON object (after trimming, it starts with `{` and ends
/// with `}`) and parses is sent as is; anything else is sent as `{"text": input}`.
pub open spec fn looks_like_object(content: Seq<char>) -> bool {
    let t = trim(content);
    t.len() > 0 && t[0] == '{' && t.last() == '}'
}

/// The payload from piped standard input; `parsed` is the parse of the trimmed input.
pub fn stdin_payload(content: &str, parsed: Option<Json>) -> (r: Json)
    ensures
        looks_like_object(content@) && parsed is Some ==> r == parsed->0,
        !(looks_like_object(content@) && parsed is Some) ==> r@ == JsonView::Object(seq![("text"@, JsonView::Str(content@))]),
{
    let t = trim_chars(&chars_of(content));
    let looks = t.len() > 0 && t[0] == '{' && t[t.len() - 1] == '}';
    if looks {
        match parsed {
            Some(j) => {
                return j;
            },
            None => {},
        }
    }
    text_payload(content)
}

/// The payload of `--json-payload`: the document the text holds, or an `invalid_input` error
/// with serde_json's reason.
pub fn payload_from_text(raw: &str) -> (r: Result<Json, Error>)
    ensures
        match json_text_value(raw@) {
            Some(v) => r matches Ok(j) && j@ == v,
            None => r matches Err(e) && e@ == plain_error(ErrorCode::InvalidInput, "Invalid JSON payload: "@ + json_text_error(raw@)),
        },
{
    raw_json_payload(parse_json(raw))
}

/// The payload of `--json-file`, from what reading the file gave (`Err` holds why it could not
/// be read): the document its text holds, or the read or parse error.
pub fn payload_from_file(path: &str, content: Result<String, String>) -> (r: Result<Json, Error>)
    ensures
        match content {
            Err(reason) => r matches Err(e) && e@ == plain_error(
                ErrorCode::InvalidInput,
                "Could not read JSON file '"@ + path@ + "': "@ + reason@,
            ),
            Ok(text) => match json_text_value(text@) {
                Some(v) => r matches Ok(j) && j@ == v,
                None => r matches Err(e) && e@ == plain_error(
                    ErrorCode::InvalidInput,
                    "Invalid JSON in file '"@ + path@ + "': "@ + json_text_error(text@),
                ),
            },
        },
{
    match content {
        Err(reason) => json_file_payload(path, Err(reason), true),
        Ok(text) => json_file_payload(path, parse_json(text.as_str()), false),
    }
}

/// The payload from piped standard input: input that looks like a JSON object and parses (after
/// trimming) is sent as is; anything else as `{"text": input}`.
pub fn payload_from_stdin(content: &str) -> (r: Json)
    ensures
        ({
            let parsed = json_text_value(trim(content@));
            if looks_like_object(content@) && parsed is Some {
                r@ == parsed->0
            } else {
                r@ == JsonView::Object(seq![("text"@, JsonView::Str(content@))])
            }
        }),
{
    let t = trim_str(content);
    let parsed = match parse_json(t.as_str()) {
        Ok(j) => Some(j),
        Err(_) => None,
    };
    stdin_payload(content, parsed)
}

/// Object entries with `(key, value)` added unless the key is already there.
pub open spec fn with_default(e: Seq<(Seq<char>, JsonView)>, key: Seq<char>, value: Option<Seq<char>>) -> Seq<(Seq<char>, JsonView)> {
    match value {
        Some(v) => if crate::config::key_index(e, key) is Some {
            e
        } else {
            e.push((key, JsonView::Str(v)))
        },
        None => e,
    }
}

proof fn lemma_key_present(e: Seq<(Seq<char>, JsonView)>, key: Seq<char>)
    ensures
        crate::config::key_index(e, key) is Some <==> exists|i: int| 0 <= i < e.len() && #[trigger] e[i].0 == key,
    decreases e.len(),
{
    if e.len() > 0 {
        lemma_key_present(e.drop_first(), key);
        if exists|i: int| 0 <= i < e.len() && #[trigger] e[i].0 == key {
            let i = choose|i: int| 0 <= i < e.len() && #[trigger] e[i].0 == key;
            if i > 0 {
                assert(e.drop_first()[i - 1].0 == key);
            }
        }
        if exists|i: int| 0 <= i < e.drop_first().len() && #[trigger] e.drop_first()[i].0 == key {
            let i = choose|i: int| 0 <= i < e.drop_first().len() && #[trigger] e.drop_first()[i].0 == key;
            assert(e[i + 1].0 == key);
        }
    }
}

/// A default never overrides the payload: when the payload already sets the key (or no
/// default is given) it stays as it is; otherwise the default is added as a text value after
/// the payload's own entries.
pub proof fn law_payload_defaults(e: Seq<(Seq<char>, JsonView)>, key: Seq<char>, value: Option<Seq<char>>)
    ensures
        (exists|i: int| 0 <= i < e.len() && #[trigger] e[i].0 == key) || value is None ==> with_default(e, key, value)
            == e,
        value is Some && !(exists|i: int| 0 <= i < e.len() && #[trigger] e[i].0 == key) ==> with_default(
            e,
            key,
            value,
        ) == e.push((key, JsonView::Str(value->0))),
{
    lemma_key_present(e, key);
}

fn has_key(v: &Vec<(String, Json)>, key: &str) -> (r: bool)
    ensures
        r == crate::config::key_index(entries_view(v@), key@) is Some,
{
    let ghost ev = entries_view(v@);
    let k = String::from_str(key);
    assert(ev.skip(0) == ev);
    for i in 0..v.len()
        invariant
            ev == entries_view(v@),
            k@ == key@,
            crate::config::key_index(ev, key@) is Some <==> crate::config::key_index(ev.skip(i as int), key@) is Some,
    {
        proof {
            assert(ev.skip(i as int).drop_first() == ev.skip(i + 1));
        }
        if v[i].0 == k {
            assert(ev.skip(i as int)[0] == ev[i as int]);
            return true;
        }
    }
    assert(ev.skip(v.len() as int).len() == 0);
    false
}

fn add_default(v: &mut Vec<(String, Json)>, key: &str, value: &Option<String>)
    ensures
        entries_view(final(v)@) == with_default(entries_view(old(v)@), key@, match value {
            Some(s) => Some(s@),
            None => None,
        }),
{
    if let Some(s) = value {
        if !has_key(v, key) {
            push_entry(v, key, json_str(s.as_str()));
        }
    }
}

/// The defaults, when given, are added to an object payload under `channel`, `username` and
/// `icon_emoji` unless the payload sets them itself; a payload that is not an object is an
/// `invalid_input` error.
pub fn fill_payload(payload: Json, channel: &Option<String>, username: &Option<String>, icon_emoji: &Option<String>) -> (r: Result<Json, Error>)
    ensures
        match payload@ {
            JsonView::Object(e) => r matches Ok(j) && j@ == JsonView::Object(
                with_default(
                    with_default(with_default(e, "channel"@, crate::error::opt_view(*channel)), "username"@, crate::error::opt_view(*username)),
                    "icon_emoji"@,
                    crate::error::opt_view(*icon_emoji),
                ),
            ),
            _ => r matches Err(e) && e@ == plain_error(ErrorCode::InvalidInput, "JSON payload must be an object."@),
        },
{
    match payload {
        Json::Object(entries) => {
            proof {
                crate::json::lemma_object_view(entries);
            }
            let mut v = entries;
            add_default(&mut v, "channel", channel);
            add_default(&mut v, "username", username);
            add_default(&mut v, "icon_emoji", icon_emoji);
            Ok(json_object(v))
        },
        _ => Err(Error::invalid("JSON payload must be an object.")),
    }
}

/// The index of the last `/`, if any.
pub open spec fn last_slash(s: Seq<char>) -> Option<int> {
    crate::commands::email::last_index_of(s, '/')
}

/// Masking is defined: the part after the last `/`, when longer than six bytes, can be cut four
/// bytes before its end without splitting a character (elsewhere the byte slice panics).
pub open spec fn mask_defined(url: Seq<char>) -> bool {
    match last_slash(url) {
        None => true,
        Some(j) => {
            let secret = encode_utf8(url.skip(j + 1));
            secret.len() > 6 ==> is_char_boundary(secret, secret.len() - 4)
        },
    }
}

/// The webhook URL with its secret hidden: up to the last `/` it is kept, then `/...` and the
/// last four bytes of the secret when it is longer than six bytes, else `/***`; a URL without
/// `/` is `***`.
pub open spec fn masked(url: Seq<char>) -> Seq<char> {
    match last_slash(url) {
        None => "***"@,
        Some(j) => {
            let prefix = url.take(j);
            let secret = encode_utf8(url.skip(j + 1));
            if secret.len() > 6 {
                prefix + "/..."@ + decode_utf8(secret.skip(secret.len() - 4))
            } else {
                prefix + "/***"@
            }
        },
    }
}

fn last_slash_exec(cs: &Vec<char>) -> (r: Option<usize>)
    ensures
        r is None <==> last_slash(cs@) is None,
        r matches Some(j) ==> j < cs@.len() && last_slash(cs@) == Some(j as int),
{
    let mut k = cs.len();
    assert(cs@.take(cs@.len() as int) == cs@);
    while k > 0 && cs[k - 1] != '/'
        invariant
            k <= cs@.len(),
            last_slash(cs@) == crate::commands::email::last_index_of(cs@.take(k as int), '/'),
        decreases k,
    {
        assert(cs@.take(k as int).drop_last() == cs@.take(k - 1));
        k = k - 1;
    }
    if k == 0 {
        assert(cs@.take(0).len() == 0);
        None
    } else {
        Some(k - 1)
    }
}

/// Whether [`mask_url`] is defined for `url`.
pub fn can_mask(url: &str) -> (r: bool)
    ensures
        r == mask_defined(url@),
{
    let cs = chars_of(url);
    match last_slash_exec(&cs) {
        None => true,
        Some(j) => {
            assert(j < cs.len());
            let secret = string_from_chars(&slice_chars(&cs, j + 1, cs.len()));
            assert(secret@ == cs@.skip(j + 1));
            let s = secret.as_str();
            assert(s.spec_bytes() == encode_utf8(url@.skip(j + 1)));
            let n = s.as_bytes().len();
            assert(last_slash(url@) == Some(j as int));
            assert(n == encode_utf8(url@.skip(j + 1)).len());
            if n > 6 {
                let b = s.is_char_boundary(n - 4);
                assert(b == is_char_boundary(encode_utf8(url@.skip(j + 1)), n - 4));
                b
            } else {
                true
            }
        },
    }
}

/// Hides the secret part of a webhook URL (see [`masked`]).
pub fn mask_url(url: &str) -> (r: String)
    requires
        mask_defined(url@),
    ensures
        r@ == masked(url@),
{
    let cs = chars_of(url);
    match last_slash_exec(&cs) {
        None => String::from_str("***"),
        Some(j) => {
            assert(j < cs.len());
            let prefix = string_from_chars(&slice_chars(&cs, 0, j));
            let secret = string_from_chars(&slice_chars(&cs, j + 1, cs.len()));
            assert(prefix@ == cs@.take(j as int));
            assert(secret@ == cs@.skip(j + 1));
            let s = secret.as_str();
            assert(s.spec_bytes() == encode_utf8(url@.skip(j + 1)));
            let n = s.as_bytes().len();
            let mut out = prefix;
            if n > 6 {
                let (_, tail) = s.split_at(n - 4);
                out.append("/...");
                out.append(tail);
                proof {
                    encode_utf8_decode_utf8(tail@);
                    assert(tail.spec_bytes() == encode_utf8(url@.skip(j + 1)).skip(n - 4));
                }
            } else {
                out.append("/***");
            }
            out
        },
    }
}

proof fn lemma_last_slash_at(s: Seq<char>, j: int)
    requires
        0 <= j < s.len(),
        s[j] == '/',
        forall|k: int| j < k < s.len() ==> s[k] != '/',
    ensures
        last_slash(s) == Some(j),
    decreases s.len(),
{
    if s.last() != '/' {
        assert(j < s.len() - 1) by {
            if j == s.len() - 1 {
                assert(s[j] == s.last());
            }
        }
        let t = s.drop_last();
        assert forall|k: int| j < k < t.len() implies t[k] != '/' by {
            assert(t[k] == s[k]);
        }
        lemma_last_slash_at(t, j);
    } else {
        assert(j == s.len() - 1) by {
            if j < s.len() - 1 {
                assert(s[s.len() - 1] == s.last());
            }
        }
    }
}

/// Masking keeps the URL up to its last `/`; when the part after it is longer than six bytes,
/// the masked URL is that prefix, `/...`, and text whose bytes are exactly the last four bytes
/// of the URL; otherwise the part after the `/` is replaced by `***`.
pub proof fn law_mask_keeps_last_four(url: Seq<char>, j: int)
    requires
        0 <= j < url.len(),
        url[j] == '/',
        forall|k: int| j < k < url.len() ==> url[k] != '/',
        mask_defined(url),
    ensures
        encode_utf8(url.skip(j + 1)).len() > 6 ==> exists|t: Seq<char>|
            masked(url) == url.take(j) + "/..."@ + t && encode_utf8(t) == encode_utf8(url).skip(
                encode_utf8(url).len() - 4,
            ),
        encode_utf8(url.skip(j + 1)).len() <= 6 ==> masked(url) == url.take(j) + "/***"@,
{
    lemma_last_slash_at(url, j);
    let secret = encode_utf8(url.skip(j + 1));
    if secret.len() > 6 {
        let n = secret.len() as int;
        let tail = secret.skip(n - 4);
        encode_utf8_valid_utf8(url.skip(j + 1));
        valid_utf8_split(secret, n - 4);
        assert(secret.subrange(n - 4, n) =~= tail);
        decode_utf8_encode_utf8(tail);
        let t = decode_utf8(tail);
        assert(url =~= url.take(j + 1) + url.skip(j + 1));
        crate::commands::email::lemma_encode_concat(url.take(j + 1), url.skip(j + 1));
        let all = encode_utf8(url);
        assert(all.skip(all.len() - 4) =~= tail);
        assert(masked(url) == url.take(j) + "/..."@ + t);
    }
}

proof fn lemma_no_slash(url: Seq<char>)
    requires
        !url.contains('/'),
    ensures
        last_slash(url) is None,
    decreases url.len(),
{
    if url.len() > 0 {
        assert(url.last() != '/') by {
            assert(url[url.len() - 1] == url.last());
        }
        let t = url.drop_last();
        assert(!t.contains('/')) by {
            if t.contains('/') {
                let k = choose|k: int| 0 <= k < t.len() && t[k] == '/';
                assert(url[k] == '/');
            }
        }
        lemma_no_slash(t);
    }
}

/// A URL without any `/` is hidden whole.
pub proof fn law_mask_without_slash(url: Seq<char>)
    requires
        !url.contains('/'),
    ensures
        masked(url) == "***"@,
{
    lemma_no_slash(url);
}

/// The report of a delivered Slack message.
pub open spec fn slack_report(profile: Seq<char>, masked_url: Seq<char>, channel: Seq<char>) -> JsonView {
    JsonView::Object(
        seq![
            ("status"@, JsonView::Str("ok"@)),
            ("provider"@, JsonView::Str("slack"@)),
            ("profile"@, JsonView::Str(profile)),
            ("webhookUrl"@, JsonView::Str(masked_url)),
            ("channel"@, JsonView::Str(channel)),
            ("delivered"@, JsonView::Bool(true)),
        ],
    )
}

/// The report printed after delivery: the profile (`direct` when none was named), the masked
/// URL and the channel (empty text when none).
pub fn slack_record(profile_name: &Option<String>, masked_url: &str, channel: &Option<String>) -> (r: Json)
    ensures
        r@ == slack_report(
            match profile_name {
                Some(p) => p@,
                None => "direct"@,
            },
            masked_url@,
            match channel {
                Some(c) => c@,
                None => ""@,
            },
        ),
{
    let mut v: Vec<(String, Json)> = Vec::new();
    push_entry(&mut v, "status", json_str("ok"));
    push_entry(&mut v, "provider", json_str("slack"));
    let profile = match profile_name {
        Some(p) => json_str(p.as_str()),
        None => json_str("direct"),
    };
    push_entry(&mut v, "profile", profile);
    push_entry(&mut v, "webhookUrl", json_str(masked_url));
    let ch = match channel {
        Some(c) => json_str(c.as_str()),
        None => json_str(""),
    };
    push_entry(&mut v, "channel", ch);
    push_entry(&mut v, "delivered", json_bool(true));
    let r = json_object(v);
    assert(entries_view(v@) =~= slack_report(
            match profile_name {
                Some(p) => p@,
                None => "direct"@,
            },
            masked_url@,
            match channel {
                Some(c) => c@,
                None => ""@,
            },
        )->Object_0);
    r
}

} // verus!
