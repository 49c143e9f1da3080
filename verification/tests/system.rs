use notify_cli::error::ErrorCode;
use notify_cli::system::{
    base64_encode, base64_url_encode, encode_utf16le_base64, escape_applescript, escape_powershell, exit_error,
    message_box_command, notification_command, show_linux_messagebox, show_linux_notification, show_macos_messagebox,
    show_macos_notification, show_windows_messagebox, show_windows_notification, spawn_error, Platform,
};

#[test]
fn test_base64_encode() {
    assert_eq!(base64_encode(b"hello world"), "aGVsbG8gd29ybGQ=");
    assert_eq!(base64_url_encode(b"hello world"), "aGVsbG8gd29ybGQ");
}

#[test]
fn test_escape_applescript() {
    assert_eq!(escape_applescript("Hello \"World\" \\ test"), "Hello \\\"World\\\" \\\\ test");
}

#[test]
fn base64_padding_and_url_alphabet() {
    assert_eq!(base64_encode(b""), "");
    assert_eq!(base64_encode(b"f"), "Zg==");
    assert_eq!(base64_encode(b"fo"), "Zm8=");
    assert_eq!(base64_encode(b"foo"), "Zm9v");
    assert_eq!(base64_encode(&[0xfb, 0xff, 0xbf]), "+/+/");
    assert_eq!(base64_url_encode(&[0xfb, 0xff, 0xbf]), "-_-_");
    assert_eq!(base64_url_encode(b"f"), "Zg");
    for n in 0..10usize {
        let bytes: Vec<u8> = (0..n as u8).map(|b| b.wrapping_mul(37)).collect();
        let s = base64_url_encode(&bytes);
        assert_eq!(s.len(), (4 * n + 2) / 3);
        assert!(!s.contains('+') && !s.contains('/') && !s.contains('='));
    }
}

#[test]
fn powershell_doubles_single_quotes() {
    assert_eq!(escape_powershell("it's 'quoted'"), "it''s ''quoted''");
    assert_eq!(escape_powershell("plain"), "plain");
}

#[test]
fn utf16le_base64_of_text() {
    assert_eq!(encode_utf16le_base64("A"), "QQA=");
    assert_eq!(encode_utf16le_base64("hi"), "aABpAA==");
    // U+1F600 is a surrogate pair: 3D D8 00 DE
    assert_eq!(encode_utf16le_base64("\u{1F600}"), "PdgA3g==");
}

#[test]
fn linux_command_lines() {
    let c = show_linux_notification("Build", "Done");
    assert_eq!(c.program, "notify-send");
    assert_eq!(c.args, vec!["Build".to_string(), "Done".to_string()]);
    assert_eq!(c.description, "Linux notify-send");
    let c = show_linux_messagebox("Alert", "Done");
    assert_eq!(c.program, "zenity");
    assert_eq!(c.args, vec!["--info".to_string(), "--title=Alert".to_string(), "--text=Done".to_string()]);
    assert_eq!(c.description, "Linux zenity");
}

#[test]
fn macos_command_lines() {
    let c = show_macos_notification("T \"x\"", "D");
    assert_eq!(c.program, "osascript");
    assert_eq!(c.args, vec!["-e".to_string(), "display notification \"D\" with title \"T \\\"x\\\"\"".to_string()]);
    assert_eq!(c.description, "macOS osascript notification");
    let c = show_macos_messagebox("T", "M");
    assert_eq!(
        c.args[1],
        "display dialog \"M\" with title \"T\" buttons {\"OK\"} default button \"OK\""
    );
    assert_eq!(c.description, "macOS osascript dialog");
}

#[test]
fn windows_command_lines() {
    let c = show_windows_notification("It's", "Done");
    assert_eq!(c.program, "powershell");
    assert_eq!(c.args[0], "-NoProfile");
    assert_eq!(c.args[1], "-EncodedCommand");
    let script = "\nAdd-Type -AssemblyName System.Windows.Forms\n$n = New-Object System.Windows.Forms.NotifyIcon\n$n.Icon = [System.Drawing.SystemIcons]::Information\n$n.BalloonTipTitle = 'It''s'\n$n.BalloonTipText = 'Done'\n$n.Visible = $true\n$n.ShowBalloonTip(5000)\nStart-Sleep -Milliseconds 100\n";
    assert_eq!(c.args[2], encode_utf16le_base64(script));
    assert_eq!(c.description, "Windows PowerShell notification");
    let m = show_windows_messagebox("T", "M");
    let script = "\nAdd-Type -AssemblyName System.Windows.Forms\n[System.Windows.Forms.MessageBox]::Show('M', 'T', 'OK', 'Information')\n";
    assert_eq!(m.args[2], encode_utf16le_base64(script));
    assert_eq!(m.description, "Windows PowerShell MessageBox");
}

#[test]
fn unsupported_platforms_are_errors() {
    let e = notification_command(Platform::Other, "t", "d").err().unwrap();
    assert_eq!(e.code, ErrorCode::Error);
    assert_eq!(e.message, "Desktop notifications are not supported on this platform.");
    let e = message_box_command(Platform::Other, "t", "m").err().unwrap();
    assert_eq!(e.message, "Message boxes are not supported on this platform.");
    assert_eq!(notification_command(Platform::Linux, "t", "d").ok().unwrap().program, "notify-send");
    assert_eq!(message_box_command(Platform::MacOs, "t", "m").ok().unwrap().program, "osascript");
}

#[test]
fn command_failures() {
    let e = spawn_error("Linux zenity", "zenity", "No such file or directory");
    assert_eq!(e.message, "Failed to execute Linux zenity: No such file or directory");
    assert_eq!(e.remediation.as_deref(), Some("Ensure 'zenity' is installed and in PATH."));
    let e = exit_error("Linux zenity", "", "exit status: 1");
    assert_eq!(e.message, "Linux zenity exited with error.");
    assert_eq!(e.detail.as_deref(), Some("Exit status: exit status: 1"));
    let e = exit_error("Linux zenity", "cannot open display", "exit status: 1");
    assert_eq!(e.detail.as_deref(), Some("cannot open display"));
}

#[test]
fn base64_shape_and_concatenation() {
    for n in 0..12usize {
        let bytes: Vec<u8> = (0..n as u8).map(|b| b.wrapping_mul(91).wrapping_add(7)).collect();
        let s = base64_encode(&bytes);
        assert_eq!(s.len(), 4 * ((n + 2) / 3));
        let pads = (3 - n % 3) % 3;
        assert!(s.ends_with(&"=".repeat(pads)));
        assert!(s[..s.len() - pads].chars().all(|c| c.is_ascii_alphanumeric() || c == '+' || c == '/'));
    }
    assert_eq!(base64_encode(b"foobar"), format!("{}{}", base64_encode(b"foo"), base64_encode(b"bar")));
}

fn decode_standard_base64(text: &str) -> Vec<u8> {
    let value = |c: u8| -> u32 {
        match c {
            b'A'..=b'Z' => (c - b'A') as u32,
            b'a'..=b'z' => (c - b'a') as u32 + 26,
            b'0'..=b'9' => (c - b'0') as u32 + 52,
            b'+' => 62,
            b'/' => 63,
            _ => 0,
        }
    };
    let mut out = Vec::new();
    for group in text.as_bytes().chunks(4) {
        let pad = group.iter().filter(|&&c| c == b'=').count();
        let n = group.iter().fold(0u32, |acc, &c| acc * 64 + value(c));
        let bytes = [(n >> 16) as u8, (n >> 8) as u8, n as u8];
        out.extend_from_slice(&bytes[..3 - pad]);
    }
    out
}

#[test]
fn base64_decodes_back_to_the_bytes() {
    let mut cases: Vec<Vec<u8>> = vec![Vec::new(), b"f".to_vec(), b"fo".to_vec(), b"foo".to_vec(), b"hello world".to_vec()];
    cases.push((0u8..=255).collect());
    cases.push(vec![0xff; 7]);
    for bytes in cases {
        assert_eq!(decode_standard_base64(&base64_encode(&bytes)), bytes);
    }
}
