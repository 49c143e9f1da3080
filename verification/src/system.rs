//! Base64 encoding and the command lines behind native notifications and dialogs.

use vstd::prelude::*;

use vstd::string::*;

use crate::error::{Error, ErrorCode, ErrorView};
use crate::text::{chars_of, push_char, string_from_chars, strip_trailing, trim_end_char};

verus! {

/// The character of the standard Base64 alphabet (RFC 4648) for a 6-bit value.
pub open spec fn b64_char(v: int) -> char {
    if v < 26 {
        (65 + v) as char
    } else if v < 52 {
        (97 + (v - 26)) as char
    } else if v < 62 {
        (48 + (v - 52)) as char
    } else if v == 62 {
        '+'
    } else {
        '/'
    }
}

/// The four output characters for one input group of one to three bytes.
pub open spec fn b64_group(g: Seq<u8>) -> Seq<char> {
    let b0 = g[0] as int;
    let b1 = if g.len() > 1 { g[1] as int } else { 0 };
    let b2 = if g.len() > 2 { g[2] as int } else { 0 };
    seq![
        b64_char(b0 / 4),
        b64_char((b0 % 4) * 16 + b1 / 16),
        if g.len() > 1 { b64_char((b1 % 16) * 4 + b2 / 64) } else { '=' },
        if g.len() > 2 { b64_char(b2 % 64) } else { '=' },
    ]
}

/// Standard padded Base64 of a byte sequence: each group of three bytes becomes four characters.
pub open spec fn b64(s: Seq<u8>) -> Seq<char>
    decreases s.len(),
{
    if s.len() == 0 {
        Seq::empty()
    } else if s.len() <= 3 {
        b64_group(s)
    } else {
        b64_group(s.take(3)) + b64(s.skip(3))
    }
}

fn b64_char_exec(v: u8) -> (c: char)
    requires
        v < 64,
    ensures
        c == b64_char(v as int),
{
    if v < 26 {
        (65 + v) as char
    } else if v < 52 {
        (97 + (v - 26)) as char
    } else if v < 62 {
        (48 + (v - 52)) as char
    } else if v == 62 {
        '+'
    } else {
        '/'
    }
}

/// Encodes bytes as standard, padded Base64.
pub fn base64_encode(bytes: &[u8]) -> (r: String)
    ensures
        r@ == b64(bytes@),
{
    let mut out = String::new();
    let n = bytes.len();
    let mut i: usize = 0;
    assert(bytes@.skip(0) == bytes@);
    while i < n
        invariant
            n == bytes@.len(),
            i <= n,
            out@ + b64(bytes@.skip(i as int)) == b64(bytes@),
        decreases n - i,
    {
        let ghost rest = bytes@.skip(i as int);
        let ghost old_out = out@;
        let b0 = bytes[i];
        let b1: u8 = if n - i > 1 { bytes[i + 1] } else { 0 };
        let b2: u8 = if n - i > 2 { bytes[i + 2] } else { 0 };
        push_char(&mut out, b64_char_exec(b0 / 4));
        push_char(&mut out, b64_char_exec((b0 % 4) * 16 + b1 / 16));
        if n - i > 1 {
            push_char(&mut out, b64_char_exec((b1 % 16) * 4 + b2 / 64));
        } else {
            push_char(&mut out, '=');
        }
        if n - i > 2 {
            push_char(&mut out, b64_char_exec(b2 % 64));
        } else {
            push_char(&mut out, '=');
        }
        proof {
            let g = if rest.len() <= 3 { rest } else { rest.take(3) };
            assert(g[0] == b0);
            assert(g.len() > 1 ==> g[1] == b1);
            assert(g.len() > 2 ==> g[2] == b2);
            assert(out@ == old_out + b64_group(g));
            if rest.len() <= 3 {
                assert(bytes@.skip((i + rest.len()) as int).len() == 0);
            } else {
                assert(rest.skip(3) == bytes@.skip(i + 3));
            }
        }
        if n - i > 3 {
            i = i + 3;
        } else {
            i = n;
        }
    }
    proof {
        assert(bytes@.skip(n as int).len() == 0);
        assert(out@ == b64(bytes@));
    }
    out
}

/// The URL-safe alphabet replaces `+` by `-` and `/` by `_`.
pub open spec fn url_safe_char(c: char) -> char {
    if c == '+' {
        '-'
    } else if c == '/' {
        '_'
    } else {
        c
    }
}

/// URL-safe Base64 without padding (RFC 4648, section 5).
pub open spec fn b64url(s: Seq<u8>) -> Seq<char> {
    strip_trailing(b64(s).map_values(|c: char| url_safe_char(c)), '=')
}

/// Encodes bytes as URL-safe Base64 without padding.
pub fn base64_url_encode(bytes: &[u8]) -> (r: String)
    ensures
        r@ == b64url(bytes@),
{
    let std = base64_encode(bytes);
    let cs = chars_of(std.as_str());
    let mut mapped: Vec<char> = Vec::new();
    for i in 0..cs.len()
        invariant
            cs@ == b64(bytes@),
            mapped@ == cs@.take(i as int).map_values(|c: char| url_safe_char(c)),
    {
        let c = cs[i];
        let m = if c == '+' {
            '-'
        } else if c == '/' {
            '_'
        } else {
            c
        };
        mapped.push(m);
        assert(cs@.take(i + 1) == cs@.take(i as int).push(c));
        assert(cs@.take(i + 1).map_values(|c: char| url_safe_char(c)) == cs@.take(
            i as int,
        ).map_values(|c: char| url_safe_char(c)).push(url_safe_char(c)));
    }
    assert(cs@.take(cs.len() as int) == cs@);
    let trimmed = trim_end_char(&mapped, '=');
    string_from_chars(&trimmed)
}

/// The number of characters of padded Base64 output.
pub proof fn lemma_b64_len(s: Seq<u8>)
    ensures
        b64(s).len() == 4 * ((s.len() + 2) / 3),
    decreases s.len(),
{
    if s.len() > 3 {
        lemma_b64_len(s.skip(3));
    }
}

/// Where padding may stand: only in the last two positions, and a pad in the
/// second-to-last position is followed by another.
#[verifier::spinoff_prover]
proof fn lemma_b64_padding(s: Seq<u8>)
    ensures
        forall|i: int|
            0 <= i < b64(s).len() && #[trigger] b64(s)[i] == '=' ==> i >= b64(s).len() - 2,
        b64(s).len() >= 2 && b64(s)[b64(s).len() - 2] == '=' ==> b64(s)[b64(s).len() - 1] == '=',
        s.len() % 3 == 0 ==> forall|i: int| 0 <= i < b64(s).len() ==> #[trigger] b64(s)[i] != '=',
        s.len() % 3 == 1 ==> b64(s).len() >= 2 && b64(s)[b64(s).len() - 2] == '=',
        s.len() % 3 == 2 ==> b64(s).len() >= 2 && b64(s)[b64(s).len() - 2] != '=' && b64(s)[b64(s).len() - 1] == '=',
    decreases s.len(),
{
    lemma_b64_len(s);
    if s.len() > 3 {
        lemma_b64_padding(s.skip(3));
        lemma_b64_len(s.skip(3));
        let g = b64_group(s.take(3));
        let r = b64(s.skip(3));
        assert(b64(s) == g + r);
        assert forall|i: int| 0 <= i < b64(s).len() && #[trigger] b64(s)[i] == '=' implies i >= b64(s).len() - 2 by {
            if i < 4 {
                assert(b64(s)[i] == g[i]);
            } else {
                assert(b64(s)[i] == r[i - 4]);
            }
        }
        if s.len() % 3 == 0 {
            assert forall|i: int| 0 <= i < b64(s).len() implies #[trigger] b64(s)[i] != '=' by {
                if i < 4 {
                    assert(b64(s)[i] == g[i]);
                } else {
                    assert(b64(s)[i] == r[i - 4]);
                }
            }
        }
        assert(b64(s)[b64(s).len() - 1] == r[r.len() - 1]);
        assert(b64(s)[b64(s).len() - 2] == r[r.len() - 2]);
    }
}

proof fn lemma_strip_pad(t: Seq<char>, k: int)
    requires
        0 <= k <= t.len(),
        forall|i: int| k <= i < t.len() ==> t[i] == '=',
        k == 0 || t[k - 1] != '=',
    ensures
        strip_trailing(t, '=') == t.take(k),
    decreases t.len(),
{
    if t.len() > k {
        lemma_strip_pad(t.drop_last(), k);
        assert(t.drop_last().take(k) == t.take(k));
    } else {
        assert(t.take(k) == t);
    }
}

/// The characters of `s`, each replaced by its image under `f`.
pub open spec fn flat_map_chars(s: Seq<char>, f: spec_fn(char) -> Seq<char>) -> Seq<char>
    decreases s.len(),
{
    if s.len() == 0 {
        Seq::empty()
    } else {
        flat_map_chars(s.drop_last(), f) + f(s.last())
    }
}

/// AppleScript string escaping of one character: backslash and double quote get a backslash.
pub open spec fn applescript_escape_char(c: char) -> Seq<char> {
    if c == '\\' {
        seq!['\\', '\\']
    } else if c == '"' {
        seq!['\\', '"']
    } else {
        seq![c]
    }
}

/// PowerShell single-quoted string escaping of one character: a quote is doubled.
pub open spec fn powershell_escape_char(c: char) -> Seq<char> {
    if c == '\'' {
        seq!['\'', '\'']
    } else {
        seq![c]
    }
}

proof fn lemma_flat_map_push(s: Seq<char>, c: char, f: spec_fn(char) -> Seq<char>)
    ensures
        flat_map_chars(s.push(c), f) == flat_map_chars(s, f) + f(c),
{
    assert(s.push(c).drop_last() == s);
}

/// Escapes `s` for use inside an AppleScript string literal: `\` becomes `\\` and `"` becomes `\"`.
pub fn escape_applescript(s: &str) -> (r: String)
    ensures
        r@ == flat_map_chars(s@, |c: char| applescript_escape_char(c)),
{
    let cs = chars_of(s);
    let mut out = String::new();
    for i in 0..cs.len()
        invariant
            cs@ == s@,
            out@ == flat_map_chars(cs@.take(i as int), |c: char| applescript_escape_char(c)),
    {
        let c = cs[i];
        if c == '\\' {
            push_char(&mut out, '\\');
            push_char(&mut out, '\\');
        } else if c == '"' {
            push_char(&mut out, '\\');
            push_char(&mut out, '"');
        } else {
            push_char(&mut out, c);
        }
        proof {
            assert(cs@.take(i + 1) == cs@.take(i as int).push(c));
            lemma_flat_map_push(cs@.take(i as int), c, |c: char| applescript_escape_char(c));
        }
    }
    assert(cs@.take(cs.len() as int) == cs@);
    out
}

/// Escapes `s` for use inside a PowerShell single-quoted string: `'` becomes `''`.
pub fn escape_powershell(s: &str) -> (r: String)
    ensures
        r@ == flat_map_chars(s@, |c: char| powershell_escape_char(c)),
{
    let cs = chars_of(s);
    let mut out = String::new();
    for i in 0..cs.len()
        invariant
            cs@ == s@,
            out@ == flat_map_chars(cs@.take(i as int), |c: char| powershell_escape_char(c)),
    {
        let c = cs[i];
        if c == '\'' {
            push_char(&mut out, '\'');
            push_char(&mut out, '\'');
        } else {
            push_char(&mut out, c);
        }
        proof {
            assert(cs@.take(i + 1) == cs@.take(i as int).push(c));
            lemma_flat_map_push(cs@.take(i as int), c, |c: char| powershell_escape_char(c));
        }
    }
    assert(cs@.take(cs.len() as int) == cs@);
    out
}

/// UTF-16 code units of one character: one unit below U+10000, else a surrogate pair.
pub open spec fn utf16_units(c: char) -> Seq<int> {
    let u = (c as u32) as int;
    if u < 0x10000 {
        seq![u]
    } else {
        seq![0xD800 + (u - 0x10000) / 1024, 0xDC00 + (u - 0x10000) % 1024]
    }
}

/// UTF-16 little-endian bytes of one character.
pub open spec fn utf16le_char(c: char) -> Seq<u8> {
    let units = utf16_units(c);
    if units.len() == 1 {
        seq![(units[0] % 256) as u8, (units[0] / 256) as u8]
    } else {
        seq![
            (units[0] % 256) as u8,
            (units[0] / 256) as u8,
            (units[1] % 256) as u8,
            (units[1] / 256) as u8,
        ]
    }
}

/// UTF-16 little-endian encoding of a string.
pub open spec fn utf16le(s: Seq<char>) -> Seq<u8>
    decreases s.len(),
{
    if s.len() == 0 {
        Seq::empty()
    } else {
        utf16le(s.drop_last()) + utf16le_char(s.last())
    }
}

/// Base64 of the UTF-16LE encoding of `s`, the form PowerShell's `-EncodedCommand` takes.
pub fn encode_utf16le_base64(s: &str) -> (r: String)
    ensures
        r@ == b64(utf16le(s@)),
{
    let cs = chars_of(s);
    let mut bytes: Vec<u8> = Vec::new();
    for i in 0..cs.len()
        invariant
            cs@ == s@,
            bytes@ == utf16le(cs@.take(i as int)),
    {
        let c = cs[i];
        let ghost before = bytes@;
        let u = c as u32;
        if u < 0x10000 {
            bytes.push((u % 256) as u8);
            bytes.push((u / 256) as u8);
        } else {
            let hi = 0xD800 + (u - 0x10000) / 1024;
            let lo = 0xDC00 + (u - 0x10000) % 1024;
            bytes.push((hi % 256) as u8);
            bytes.push((hi / 256) as u8);
            bytes.push((lo % 256) as u8);
            bytes.push((lo / 256) as u8);
        }
        assert(bytes@ =~= before + utf16le_char(c));
        proof {
            assert(cs@.take(i + 1) == cs@.take(i as int).push(c));
            assert(cs@.take(i + 1).drop_last() == cs@.take(i as int));
        }
    }
    assert(cs@.take(cs.len() as int) == cs@);
    base64_encode(bytes.as_slice())
}

/// An external program to run, with its arguments and a description for error messages.
pub struct CommandLine {
    pub program: String,
    pub args: Vec<String>,
    pub description: String,
}

/// Platforms with a native notification mechanism.
#[derive(Clone, Copy, Debug, PartialEq, Eq, Structural)]
pub enum Platform {
    MacOs,
    Windows,
    Linux,
    Other,
}

/// The AppleScript that shows a notification.
pub open spec fn macos_notification_script(title: Seq<char>, description: Seq<char>) -> Seq<char> {
    "display notification \""@ + flat_map_chars(description, |c: char| applescript_escape_char(c))
        + "\" with title \""@ + flat_map_chars(title, |c: char| applescript_escape_char(c)) + "\""@
}

/// The AppleScript that shows a dialog with an OK button.
pub open spec fn macos_dialog_script(title: Seq<char>, message: Seq<char>) -> Seq<char> {
    "display dialog \""@ + flat_map_chars(message, |c: char| applescript_escape_char(c))
        + "\" with title \""@ + flat_map_chars(title, |c: char| applescript_escape_char(c))
        + "\" buttons {\"OK\"} default button \"OK\""@
}

/// The PowerShell script that shows a balloon notification.
pub open spec fn windows_notification_script(title: Seq<char>, description: Seq<char>) -> Seq<char> {
    "\nAdd-Type -AssemblyName System.Windows.Forms\n$n = New-Object System.Windows.Forms.NotifyIcon\n$n.Icon = [System.Drawing.SystemIcons]::Information\n$n.BalloonTipTitle = '"@
        + flat_map_chars(title, |c: char| powershell_escape_char(c))
        + "'\n$n.BalloonTipText = '"@ + flat_map_chars(description, |c: char| powershell_escape_char(c))
        + "'\n$n.Visible = $true\n$n.ShowBalloonTip(5000)\nStart-Sleep -Milliseconds 100\n"@
}

/// The PowerShell script that shows a message box.
pub open spec fn windows_dialog_script(title: Seq<char>, message: Seq<char>) -> Seq<char> {
    "\nAdd-Type -AssemblyName System.Windows.Forms\n[System.Windows.Forms.MessageBox]::Show('"@
        + flat_map_chars(message, |c: char| powershell_escape_char(c)) + "', '"@
        + flat_map_chars(title, |c: char| powershell_escape_char(c)) + "', 'OK', 'Information')\n"@
}

fn command(program: &str, description: &str) -> (r: CommandLine)
    ensures
        r.program@ == program@,
        r.args@.len() == 0,
        r.description@ == description@,
{
    CommandLine { program: String::from_str(program), args: Vec::new(), description: String::from_str(description) }
}

/// `osascript -e <script>` showing a notification.
pub fn show_macos_notification(title: &str, description: &str) -> (r: CommandLine)
    ensures
        r.program@ == "osascript"@,
        r.args@.len() == 2 && r.args@[0]@ == "-e"@ && r.args@[1]@ == macos_notification_script(title@, description@),
        r.description@ == "macOS osascript notification"@,
{
    let mut script = String::from_str("display notification \"");
    script.append(escape_applescript(description).as_str());
    script.append("\" with title \"");
    script.append(escape_applescript(title).as_str());
    script.append("\"");
    let mut c = command("osascript", "macOS osascript notification");
    c.args.push(String::from_str("-e"));
    c.args.push(script);
    c
}

/// `osascript -e <script>` showing a dialog.
pub fn show_macos_messagebox(title: &str, message: &str) -> (r: CommandLine)
    ensures
        r.program@ == "osascript"@,
        r.args@.len() == 2 && r.args@[0]@ == "-e"@ && r.args@[1]@ == macos_dialog_script(title@, message@),
        r.description@ == "macOS osascript dialog"@,
{
    let mut script = String::from_str("display dialog \"");
    script.append(escape_applescript(message).as_str());
    script.append("\" with title \"");
    script.append(escape_applescript(title).as_str());
    script.append("\" buttons {\"OK\"} default button \"OK\"");
    let mut c = command("osascript", "macOS osascript dialog");
    c.args.push(String::from_str("-e"));
    c.args.push(script);
    c
}

/// `notify-send <title> <description>`.
pub fn show_linux_notification(title: &str, description: &str) -> (r: CommandLine)
    ensures
        r.program@ == "notify-send"@,
        r.args@.len() == 2 && r.args@[0]@ == title@ && r.args@[1]@ == description@,
        r.description@ == "Linux notify-send"@,
{
    let mut c = command("notify-send", "Linux notify-send");
    c.args.push(String::from_str(title));
    c.args.push(String::from_str(description));
    c
}

/// `zenity --info --title=<title> --text=<message>`.
pub fn show_linux_messagebox(title: &str, message: &str) -> (r: CommandLine)
    ensures
        r.program@ == "zenity"@,
        r.args@.len() == 3 && r.args@[0]@ == "--info"@ && r.args@[1]@ == "--title="@ + title@
            && r.args@[2]@ == "--text="@ + message@,
        r.description@ == "Linux zenity"@,
{
    let mut t = String::from_str("--title=");
    t.append(title);
    let mut m = String::from_str("--text=");
    m.append(message);
    let mut c = command("zenity", "Linux zenity");
    c.args.push(String::from_str("--info"));
    c.args.push(t);
    c.args.push(m);
    c
}

fn powershell(script: &str, description: &str) -> (r: CommandLine)
    ensures
        r.program@ == "powershell"@,
        r.args@.len() == 3 && r.args@[0]@ == "-NoProfile"@ && r.args@[1]@ == "-EncodedCommand"@
            && r.args@[2]@ == b64(utf16le(script@)),
        r.description@ == description@,
{
    let encoded = encode_utf16le_base64(script);
    let mut c = command("powershell", description);
    c.args.push(String::from_str("-NoProfile"));
    c.args.push(String::from_str("-EncodedCommand"));
    c.args.push(encoded);
    c
}

/// `powershell -NoProfile -EncodedCommand <script>` showing a balloon notification.
pub fn show_windows_notification(title: &str, description: &str) -> (r: CommandLine)
    ensures
        r.program@ == "powershell"@,
        r.args@.len() == 3 && r.args@[0]@ == "-NoProfile"@ && r.args@[1]@ == "-EncodedCommand"@
            && r.args@[2]@ == b64(utf16le(windows_notification_script(title@, description@))),
        r.description@ == "Windows PowerShell notification"@,
{
    let mut script = String::from_str("\nAdd-Type -AssemblyName System.Windows.Forms\n$n = New-Object System.Windows.Forms.NotifyIcon\n$n.Icon = [System.Drawing.SystemIcons]::Information\n$n.BalloonTipTitle = '");
    script.append(escape_powershell(title).as_str());
    script.append("'\n$n.BalloonTipText = '");
    script.append(escape_powershell(description).as_str());
    script.append("'\n$n.Visible = $true\n$n.ShowBalloonTip(5000)\nStart-Sleep -Milliseconds 100\n");
    powershell(script.as_str(), "Windows PowerShell notification")
}

/// `powershell -NoProfile -EncodedCommand <script>` showing a message box.
pub fn show_windows_messagebox(title: &str, message: &str) -> (r: CommandLine)
    ensures
        r.program@ == "powershell"@,
        r.args@.len() == 3 && r.args@[0]@ == "-NoProfile"@ && r.args@[1]@ == "-EncodedCommand"@
            && r.args@[2]@ == b64(utf16le(windows_dialog_script(title@, message@))),
        r.description@ == "Windows PowerShell MessageBox"@,
{
    let mut script = String::from_str("\nAdd-Type -AssemblyName System.Windows.Forms\n[System.Windows.Forms.MessageBox]::Show('");
    script.append(escape_powershell(message).as_str());
    script.append("', '");
    script.append(escape_powershell(title).as_str());
    script.append("', 'OK', 'Information')\n");
    powershell(script.as_str(), "Windows PowerShell MessageBox")
}

/// The command that shows a desktop notification on `platform`; other platforms are an error.
pub fn notification_command(platform: Platform, title: &str, description: &str) -> (r: Result<CommandLine, Error>)
    ensures
        platform == Platform::Other <==> r is Err,
        r matches Err(e) ==> e@ == (ErrorView {
            code: ErrorCode::Error,
            message: "Desktop notifications are not supported on this platform."@,
            detail: None,
            remediation: None,
        }),
        r matches Ok(c) ==> platform == Platform::MacOs ==> c.program@ == "osascript"@ && c.args@.len() == 2 && c.args@[1]@ == macos_notification_script(title@, description@),
        r matches Ok(c) ==> platform == Platform::Linux ==> c.program@ == "notify-send"@ && c.args@.len() == 2 && c.args@[0]@ == title@ && c.args@[1]@ == description@,
        r matches Ok(c) ==> platform == Platform::Windows ==> c.program@ == "powershell"@ && c.args@.len() == 3 && c.args@[2]@ == b64(utf16le(windows_notification_script(title@, description@))),
{
    match platform {
        Platform::MacOs => Ok(show_macos_notification(title, description)),
        Platform::Windows => Ok(show_windows_notification(title, description)),
        Platform::Linux => Ok(show_linux_notification(title, description)),
        Platform::Other => Err(Error::other("Desktop notifications are not supported on this platform.")),
    }
}

/// The command that shows a message box on `platform`; other platforms are an error.
pub fn message_box_command(platform: Platform, title: &str, message: &str) -> (r: Result<CommandLine, Error>)
    ensures
        platform == Platform::Other <==> r is Err,
        r matches Err(e) ==> e@ == (ErrorView {
            code: ErrorCode::Error,
            message: "Message boxes are not supported on this platform."@,
            detail: None,
            remediation: None,
        }),
        r matches Ok(c) ==> platform == Platform::MacOs ==> c.program@ == "osascript"@ && c.args@.len() == 2 && c.args@[1]@ == macos_dialog_script(title@, message@),
        r matches Ok(c) ==> platform == Platform::Linux ==> c.program@ == "zenity"@ && c.args@.len() == 3 && c.args@[1]@ == "--title="@ + title@ && c.args@[2]@ == "--text="@ + message@,
        r matches Ok(c) ==> platform == Platform::Windows ==> c.program@ == "powershell"@ && c.args@.len() == 3 && c.args@[2]@ == b64(utf16le(windows_dialog_script(title@, message@))),
{
    match platform {
        Platform::MacOs => Ok(show_macos_messagebox(title, message)),
        Platform::Windows => Ok(show_windows_messagebox(title, message)),
        Platform::Linux => Ok(show_linux_messagebox(title, message)),
        Platform::Other => Err(Error::other("Message boxes are not supported on this platform.")),
    }
}

/// The error when a program cannot be started.
pub fn spawn_error(description: &str, program: &str, reason: &str) -> (r: Error)
    ensures
        r@ == (ErrorView {
            code: ErrorCode::Error,
            message: "Failed to execute "@ + description@ + ": "@ + reason@,
            detail: None,
            remediation: Some("Ensure '"@ + program@ + "' is installed and in PATH."@),
        }),
{
    let mut msg = String::from_str("Failed to execute ");
    msg.append(description);
    msg.append(": ");
    msg.append(reason);
    let mut fix = String::from_str("Ensure '");
    fix.append(program);
    fix.append("' is installed and in PATH.");
    Error::other(msg.as_str()).fix(fix.as_str())
}

/// The error when a program exits unsuccessfully: its trimmed standard error as detail, or
/// the exit status when standard error is empty.
pub fn exit_error(description: &str, stderr_trimmed: &str, status: &str) -> (r: Error)
    ensures
        r@ == (ErrorView {
            code: ErrorCode::Error,
            message: description@ + " exited with error."@,
            detail: Some(if stderr_trimmed@.len() == 0 {
                "Exit status: "@ + status@
            } else {
                stderr_trimmed@
            }),
            remediation: None,
        }),
{
    let mut msg = String::from_str(description);
    msg.append(" exited with error.");
    let detail = if stderr_trimmed.is_empty() {
        let mut d = String::from_str("Exit status: ");
        d.append(status);
        d
    } else {
        String::from_str(stderr_trimmed)
    };
    Error::other(msg.as_str()).detail(detail.as_str())
}

/// A character of the standard Base64 alphabet (RFC 4648), padding excluded.
pub open spec fn b64_alphabet(c: char) -> bool {
    ('A' <= c <= 'Z') || ('a' <= c <= 'z') || ('0' <= c <= '9') || c == '+' || c == '/'
}

proof fn lemma_b64_chars(s: Seq<u8>)
    ensures
        forall|i: int| 0 <= i < b64(s).len() ==> b64_alphabet(#[trigger] b64(s)[i]) || b64(s)[i] == '=',
    decreases s.len(),
{
    assert forall|v: int| 0 <= v < 64 implies #[trigger] b64_alphabet(b64_char(v)) by {
        if v < 26 {
            assert(b64_char(v) == (65 + v) as char);
        } else if v < 52 {
            assert(b64_char(v) == (97 + (v - 26)) as char);
        } else if v < 62 {
            assert(b64_char(v) == (48 + (v - 52)) as char);
        }
    }
    if s.len() > 0 {
        let g = if s.len() <= 3 { s } else { s.take(3) };
        let b0 = g[0] as int;
        let b1 = if g.len() > 1 { g[1] as int } else { 0 };
        let b2 = if g.len() > 2 { g[2] as int } else { 0 };
        assert(0 <= b0 / 4 < 64);
        assert(0 <= (b0 % 4) * 16 + b1 / 16 < 64);
        assert(0 <= (b1 % 16) * 4 + b2 / 64 < 64);
        assert(0 <= b2 % 64 < 64);
        assert(b64_alphabet(b64_char(b0 / 4)));
        assert(b64_alphabet(b64_char((b0 % 4) * 16 + b1 / 16)));
        assert(b64_alphabet(b64_char((b1 % 16) * 4 + b2 / 64)));
        assert(b64_alphabet(b64_char(b2 % 64)));
        if s.len() > 3 {
            lemma_b64_chars(s.skip(3));
            let h = b64_group(s.take(3));
            let t = b64(s.skip(3));
            assert forall|i: int| 0 <= i < b64(s).len() implies b64_alphabet(#[trigger] b64(s)[i]) || b64(s)[i] == '=' by {
                if i >= 4 {
                    assert(b64(s)[i] == t[i - 4]);
                }
            }
        }
    }
}

/// Standard Base64 of `n` bytes has `4 * ceil(n / 3)` characters from the Base64 alphabet,
/// followed by exactly `(3 - n % 3) % 3` padding characters; and encoding a multiple of three
/// bytes followed by more bytes is encoding each part.
pub proof fn law_b64_shape(s: Seq<u8>, t: Seq<u8>)
    ensures
        b64(s).len() == 4 * ((s.len() + 2) / 3),
        forall|i: int|
            0 <= i < b64(s).len() ==> (#[trigger] b64(s)[i] == '=' <==> i >= b64(s).len() - (3 - s.len() % 3) % 3),
        forall|i: int| 0 <= i < b64(s).len() && b64(s)[i] != '=' ==> b64_alphabet(#[trigger] b64(s)[i]),
        s.len() % 3 == 0 ==> b64(s + t) == b64(s) + b64(t),
{
    lemma_b64_len(s);
    lemma_b64_padding(s);
    lemma_b64_chars(s);
    if s.len() % 3 == 0 {
        lemma_b64_concat(s, t);
    }
}

/// The 6-bit value of a character of the Base64 alphabet (RFC 4648).
pub open spec fn b64_value(c: char) -> int {
    if 'A' <= c <= 'Z' {
        c as int - 65
    } else if 'a' <= c <= 'z' {
        c as int - 71
    } else if '0' <= c <= '9' {
        c as int + 4
    } else if c == '+' {
        62
    } else {
        63
    }
}

/// Decodes one group of four Base64 characters: three bytes, or fewer where `=` pads the
/// group.
pub open spec fn b64_decode_group(g: Seq<char>) -> Seq<u8> {
    let v0 = b64_value(g[0]);
    let v1 = b64_value(g[1]);
    let v2 = b64_value(g[2]);
    let v3 = b64_value(g[3]);
    let b0 = (v0 * 4 + v1 / 16) as u8;
    let b1 = ((v1 % 16) * 16 + v2 / 4) as u8;
    let b2 = ((v2 % 4) * 64 + v3) as u8;
    if g[2] == '=' {
        seq![b0]
    } else if g[3] == '=' {
        seq![b0, b1]
    } else {
        seq![b0, b1, b2]
    }
}

/// Standard Base64 decoding (RFC 4648), group by group.
pub open spec fn b64_decode(t: Seq<char>) -> Seq<u8>
    decreases t.len(),
{
    if t.len() < 4 {
        Seq::empty()
    } else {
        b64_decode_group(t.take(4)) + b64_decode(t.skip(4))
    }
}

proof fn lemma_b64_value(v: int)
    requires
        0 <= v < 64,
    ensures
        b64_value(b64_char(v)) == v,
        b64_char(v) != '=',
{
    if v < 26 {
        assert(b64_char(v) == (65 + v) as char);
    } else if v < 52 {
        assert(b64_char(v) == (97 + (v - 26)) as char);
    } else if v < 62 {
        assert(b64_char(v) == (48 + (v - 52)) as char);
    }
}

proof fn lemma_b64_group_roundtrip(g: Seq<u8>)
    requires
        1 <= g.len() <= 3,
    ensures
        b64_decode_group(b64_group(g)) == g,
{
    let b0 = g[0] as int;
    let b1 = if g.len() > 1 { g[1] as int } else { 0 };
    let b2 = if g.len() > 2 { g[2] as int } else { 0 };
    let v0 = b0 / 4;
    let v1 = (b0 % 4) * 16 + b1 / 16;
    let v2 = (b1 % 16) * 4 + b2 / 64;
    let v3 = b2 % 64;
    lemma_b64_value(v0);
    lemma_b64_value(v1);
    if g.len() > 1 {
        lemma_b64_value(v2);
    }
    if g.len() > 2 {
        lemma_b64_value(v3);
    }
    assert(v0 * 4 + v1 / 16 == b0);
    assert((v1 % 16) * 16 + v2 / 4 == b1);
    assert((v2 % 4) * 64 + v3 == b2);
    let out = b64_decode_group(b64_group(g));
    assert(out =~= g);
}

/// Decoding the Base64 text of bytes gives the bytes back.
pub proof fn law_b64_roundtrip(s: Seq<u8>)
    ensures
        b64_decode(b64(s)) == s,
    decreases s.len(),
{
    if s.len() == 0 {
        assert(b64(s) =~= Seq::<char>::empty());
    } else if s.len() <= 3 {
        lemma_b64_group_roundtrip(s);
        let t = b64(s);
        assert(t == b64_group(s));
        assert(t.take(4) =~= t);
        assert(b64_decode(t.skip(4)) =~= Seq::<u8>::empty());
        assert(b64_decode(t) == b64_decode_group(t) + b64_decode(t.skip(4)));
        assert(b64_decode(t) =~= s);
    } else {
        law_b64_roundtrip(s.skip(3));
        lemma_b64_group_roundtrip(s.take(3));
        let t = b64(s);
        let h = b64_group(s.take(3));
        assert(t.take(4) =~= h);
        assert(t.skip(4) =~= b64(s.skip(3)));
        assert(s =~= s.take(3) + s.skip(3));
    }
}

proof fn lemma_b64_concat(s: Seq<u8>, t: Seq<u8>)
    requires
        s.len() % 3 == 0,
    ensures
        b64(s + t) == b64(s) + b64(t),
    decreases s.len(),
{
    if s.len() == 0 {
        assert(s + t =~= t);
        assert(b64(s) + b64(t) =~= b64(t));
    } else {
        lemma_b64_concat(s.skip(3), t);
        assert((s + t).take(3) =~= s.take(3));
        assert((s + t).skip(3) =~= s.skip(3) + t);
        if s.len() == 3 {
            assert(s.take(3) =~= s);
            assert(s.skip(3) =~= Seq::<u8>::empty());
            if t.len() == 0 {
                assert(s + t =~= s);
                assert(b64(s) + b64(t) =~= b64(s));
            }
        }
        assert(b64(s + t) =~= b64(s) + b64(t));
    }
}

/// URL-safe Base64 has exactly `ceil(4n / 3)` characters, none of them `+`, `/` or `=`.
#[verifier::spinoff_prover]
#[verifier::rlimit(50)]
pub proof fn law_b64url_shape(s: Seq<u8>)
    ensures
        b64url(s).len() == (4 * s.len() + 2) / 3,
        forall|i: int|
            0 <= i < b64url(s).len() ==> #[trigger] b64url(s)[i] != '+' && b64url(s)[i] != '/'
                && b64url(s)[i] != '=',
{
    lemma_b64_padding(s);
    lemma_b64_len(s);
    let full = b64(s);
    let t = full.map_values(|c: char| url_safe_char(c));
    assert forall|i: int| 0 <= i < t.len() implies #[trigger] t[i] != '+' && t[i] != '/' && (t[i]
        == '=' <==> full[i] == '=') by {}
    let n: int = full.len() as int;
    let k: int = if s.len() % 3 == 0 {
        n
    } else if s.len() % 3 == 1 {
        n - 2
    } else {
        n - 1
    };
    if s.len() % 3 == 1 {
        assert(full[n - 2] == '=');
        assert(full[n - 3] != '=');
    }
    if s.len() % 3 == 2 {
        assert(full[n - 2] != '=');
    }
    lemma_strip_pad(t, k);
}

} // verus!
