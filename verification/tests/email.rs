use notify_cli::account::ResolvedEmailProfile;
use notify_cli::cli::EmailArgs;
use notify_cli::commands::email::{
    access_token, credential_file_token, append_html_part, append_text_part, attachment_from, body_source, build_mime_message, check_attachment,
    choose_endpoint, choose_token, compose_email, convert_html_to_plain, credential_token, email_fields, expand_recipients,
    file_name_of, find_block, has_html_tag, is_html_content, mime_of_ext, mime_type_for, Attachment, BodySource, MimeMessage,
};
use notify_cli::error::ErrorCode;
use notify_cli::json::Json;
use notify_cli::system::base64_url_encode;

fn strings(v: &[&str]) -> Vec<String> {
    v.iter().map(|s| s.to_string()).collect()
}

#[test]
fn recipients_are_split_trimmed_and_deduplicated() {
    let r = expand_recipients(&strings(&["a@x.com, b@x.com", " a@x.com ", ",,c@x.com,", "b@x.com"]));
    assert_eq!(r, strings(&["a@x.com", "b@x.com", "c@x.com"]));
    assert!(expand_recipients(&strings(&[" , ", ""])).is_empty());
    assert_eq!(
        expand_recipients(&strings(&["user1@example.com,user2@example.com"])),
        strings(&["user1@example.com", "user2@example.com"])
    );
}

#[test]
fn html_detection() {
    assert!(is_html_content("<p>Hello <b>World</b></p>"));
    assert!(is_html_content("Hi<BR>there"));
    assert!(is_html_content("see <A HREF=\"x\">link</a>"));
    assert!(!is_html_content("plain text with <b>bold</b> only"));
    assert!(!is_html_content("a < b and c > d"));
    assert!(!is_html_content("<pre>x</pre>"));
}

#[test]
fn html_to_plain_text() {
    assert_eq!(convert_html_to_plain("<p>Hello <b>World</b></p>").unwrap(), "Hello World");
    assert_eq!(
        convert_html_to_plain("<ul><li>One</li><li>Two</li></ul>").unwrap(),
        "• One\n• Two"
    );
    assert_eq!(convert_html_to_plain("a<br>b<br/>c<br />d").unwrap(), "a\nb\nc\nd");
    assert_eq!(
        convert_html_to_plain("<script>alert(1)</script><STYLE>p{}</style>Tom &amp; Jerry &lt;3 &quot;x&quot; &#39;y&#x27;").unwrap(),
        "Tom & Jerry <3 \"x\" 'y'"
    );
    assert_eq!(convert_html_to_plain("<p>unclosed <script>x").unwrap(), "unclosed x");
    assert_eq!(convert_html_to_plain("  <div>x</div>  ").unwrap(), "x");
}

#[test]
fn html_to_plain_refuses_to_cut_a_character_apart() {
    // 'İ' lowercases to two characters, shifting byte positions of the lowercased text.
    assert_eq!(convert_html_to_plain("İİİİ<script>x</script>é"), None);
    assert_eq!(convert_html_to_plain("<script>x</script>İ").as_deref(), Some("İ"));
}

#[test]
fn mime_types() {
    assert_eq!(mime_type_for("invoice.pdf"), "application/pdf");
    assert_eq!(mime_type_for("REPORT.PDF"), "application/pdf");
    assert_eq!(mime_type_for("dir/summary.xlsx"), "application/vnd.openxmlformats-officedocument.spreadsheetml.sheet");
    assert_eq!(mime_type_for("archive.tar.gz"), "application/gzip");
    assert_eq!(mime_type_for("photo.JPEG"), "image/jpeg");
    assert_eq!(mime_type_for("page.htm"), "text/html");
    assert_eq!(mime_type_for("noext"), "application/octet-stream");
    assert_eq!(mime_type_for(".pdf"), "application/octet-stream");
    assert_eq!(mime_type_for("dir.pdf/file"), "application/octet-stream");
    assert_eq!(mime_type_for("x.svg"), "image/svg+xml");
}

#[test]
fn file_names() {
    assert_eq!(file_name_of("a/b/report.pdf").as_deref(), Some("report.pdf"));
    assert_eq!(file_name_of("report.pdf").as_deref(), Some("report.pdf"));
    assert_eq!(file_name_of("a/b/").as_deref(), Some("b"));
    assert_eq!(file_name_of("a/.."), None);
    let a = attachment_from("docs/notes.txt", b"hi".to_vec());
    assert_eq!(a.name, "notes.txt");
    assert_eq!(a.content_type, "text/plain");
    assert_eq!(a.bytes, b"hi".to_vec());
}

fn message(html: Option<&str>, attachments: Vec<Attachment>) -> MimeMessage {
    MimeMessage {
        from: "me@x.com".to_string(),
        to: strings(&["a@x.com", "b@x.com"]),
        cc: strings(&["c@x.com"]),
        bcc: vec![],
        subject: "Status".to_string(),
        plain_body: "All good".to_string(),
        html_body: html.map(|h| h.to_string()),
        attachments,
    }
}

#[test]
fn plain_mime_message() {
    let text = build_mime_message(&message(None, vec![]), "2026-09-21T14:13:20Z", 42);
    assert_eq!(
        text,
        "From: me@x.com\r\nTo: a@x.com, b@x.com\r\nCc: c@x.com\r\nSubject: Status\r\nDate: 2026-09-21T14:13:20Z\r\nMIME-Version: 1.0\r\nContent-Type: text/plain; charset=UTF-8\r\n\r\nAll good\r\n"
    );
    let mut m = message(None, vec![]);
    m.from = String::new();
    let text = build_mime_message(&m, "D", 1);
    assert!(text.starts_with("To: a@x.com, b@x.com\r\n"));
}

#[test]
fn alternative_mime_message() {
    let text = build_mime_message(&message(Some("<p>All good</p>"), vec![]), "D", 7);
    let body = "Content-Type: multipart/alternative; boundary=\"----=_Part_Alt_7\"\r\n\r\n------=_Part_Alt_7\r\nContent-Type: text/plain; charset=UTF-8\r\n\r\nAll good\r\n------=_Part_Alt_7\r\nContent-Type: text/html; charset=UTF-8\r\n\r\n<p>All good</p>\r\n------=_Part_Alt_7--\r\n";
    assert!(text.ends_with(body));
    assert!(text.contains("MIME-Version: 1.0\r\nContent-Type: multipart/alternative"));
}

#[test]
fn mixed_mime_message_with_attachment() {
    let att = Attachment { name: "a.txt".to_string(), content_type: "text/plain".to_string(), bytes: vec![b'x'; 60] };
    let text = build_mime_message(&message(None, vec![att]), "D", 9);
    let b64 = notify_cli::system::base64_encode(&[b'x'; 60]);
    assert_eq!(b64.len(), 80);
    let expected_tail = format!(
        "Content-Type: multipart/mixed; boundary=\"----=_Part_Mixed_9\"\r\n\r\n------=_Part_Mixed_9\r\nContent-Type: text/plain; charset=UTF-8\r\n\r\nAll good\r\n------=_Part_Mixed_9\r\nContent-Type: text/plain; name=\"a.txt\"\r\nContent-Disposition: attachment; filename=\"a.txt\"\r\nContent-Transfer-Encoding: base64\r\n\r\n{}\r\n{}\r\n------=_Part_Mixed_9--\r\n",
        &b64[..76],
        &b64[76..]
    );
    assert!(text.ends_with(&expected_tail));
}

#[test]
fn parts() {
    let mut s = String::from("X");
    append_text_part(&mut s, "hi", Some("B"));
    assert_eq!(s, "X--B\r\nContent-Type: text/plain; charset=UTF-8\r\n\r\nhi\r\n");
    let mut h = String::new();
    append_html_part(&mut h, "<b>x</b>", None);
    assert_eq!(h, "Content-Type: text/html; charset=UTF-8\r\n\r\n<b>x</b>\r\n");
}

fn args() -> EmailArgs {
    EmailArgs {
        profile: None,
        account: None,
        to: vec![],
        cc: vec![],
        bcc: vec![],
        subject: Some("Weekly Status".to_string()),
        body: None,
        file: None,
        attach: vec![],
        draft: false,
        provider: None,
        endpoint: None,
        token: None,
    }
}

fn profile() -> ResolvedEmailProfile {
    ResolvedEmailProfile {
        name: "work".to_string(),
        provider: "gmail".to_string(),
        from: "me@company.com".to_string(),
        default_to: Some("team@company.com".to_string()),
        default_cc: strings(&["lead@company.com"]),
        default_bcc: strings(&["audit@company.com", "x@company.com"]),
        endpoint: None,
        secret: None,
        source: "none".to_string(),
    }
}

#[test]
fn email_fields_validation() {
    let mut a = args();
    a.subject = Some("   ".to_string());
    a.to = strings(&["u@x.com"]);
    let e = email_fields(&a, &None).err().unwrap();
    assert_eq!(e.code, ErrorCode::InvalidInput);
    assert_eq!(e.message, "Email subject is required (--subject).");

    let e = email_fields(&args(), &None).err().unwrap();
    assert_eq!(e.message, "At least one recipient (--to) is required.");

    let f = email_fields(&args(), &Some(profile())).ok().unwrap();
    assert_eq!(f.to, strings(&["team@company.com"]));
    assert_eq!(f.cc, strings(&["lead@company.com"]));
    assert_eq!(f.bcc, strings(&["audit@company.com", "x@company.com"]));

    let mut a = args();
    a.to = strings(&["u@x.com"]);
    a.cc = strings(&["lead@company.com, other@x.com"]);
    a.bcc = strings(&["x@company.com"]);
    let f = email_fields(&a, &Some(profile())).ok().unwrap();
    assert_eq!(f.subject, "Weekly Status");
    assert_eq!(f.to, strings(&["u@x.com"]));
    assert_eq!(f.cc, strings(&["lead@company.com", "other@x.com"]));
    assert_eq!(f.bcc, strings(&["x@company.com", "audit@company.com"]));
}

#[test]
fn body_sources() {
    assert!(matches!(body_source(true, Some("b".to_string()), None), Ok(BodySource::Stdin)));
    match body_source(false, Some("b".to_string()), Some("f".to_string())) {
        Ok(BodySource::Inline(b)) => assert_eq!(b, "b"),
        _ => panic!("expected the inline body"),
    }
    match body_source(false, None, Some("f.html".to_string())) {
        Ok(BodySource::File(f)) => assert_eq!(f, "f.html"),
        _ => panic!("expected the body file"),
    }
    let e = body_source(false, None, None).err().unwrap();
    assert_eq!(e.message, "No email body provided.");
    assert_eq!(e.remediation.as_deref(), Some("Provide email content via stdin, --body \"...\", or --file <path>."));
}

#[test]
fn attachment_checks() {
    assert!(check_attachment("a.pdf", true, 26_214_400).is_ok());
    let e = check_attachment("big.bin", true, 26_214_401).unwrap_err();
    assert_eq!(e.message, "Attachment 'big.bin' is too large (26214401 bytes). Maximum allowed is 25MB.");
    let e = check_attachment("missing.pdf", false, 0).unwrap_err();
    assert_eq!(e.message, "Attachment file not found: missing.pdf");
}

#[test]
fn tokens_and_endpoints() {
    let s = |x: &str| Some(x.to_string());
    assert_eq!(choose_token(s("arg"), s("env"), s("store")), s("arg"));
    assert_eq!(choose_token(s("  "), s("env"), s("store")), s("env"));
    assert_eq!(choose_token(None, None, s("store")), s("store"));
    assert_eq!(choose_token(None, None, None), None);
    assert_eq!(choose_endpoint(None, s("p"), s("e")), s("p"));
    assert_eq!(choose_endpoint(s("a"), s("p"), s("e")), s("a"));
    assert_eq!(choose_endpoint(None, None, s("e")), s("e"));

    assert_eq!(credential_token(s("f"), s("k"), false, "work", "/c").unwrap(), "f");
    assert_eq!(credential_token(None, s("k"), false, "work", "/c").unwrap(), "k");
    assert_eq!(credential_token(None, None, true, "work", "/c").unwrap(), "mock_test_token");
    let e = credential_token(None, None, false, "work", "/c/user_credential.json").unwrap_err();
    assert_eq!(e.code, ErrorCode::AuthRequired);
    assert_eq!(e.message, "No Gmail access token or credentials found for profile 'work'.");
    assert_eq!(e.detail.as_deref(), Some("Expected user credential at '/c/user_credential.json' or secret in keystore."));
}

#[test]
fn access_tokens_in_credential_files() {
    let doc = Json::Object(vec![
        ("token_type".to_string(), Json::Str("Bearer".to_string())),
        ("access_token".to_string(), Json::Str("ya29.x".to_string())),
    ]);
    assert_eq!(access_token(&doc).as_deref(), Some("ya29.x"));
    let num = Json::Object(vec![("access_token".to_string(), Json::Number("5".to_string()))]);
    assert_eq!(access_token(&num), None);
    assert_eq!(access_token(&Json::Array(vec![])), None);
}

#[test]
fn composed_email_is_url_safe_base64_of_the_mime_text() {
    let mut a = args();
    a.to = strings(&["user@example.com"]);
    a.subject = Some("Draft Report".to_string());
    let f = email_fields(&a, &None).ok().unwrap();
    let (m, raw) = compose_email(f, "me@x.com", "<p>Hello <b>World</b></p>".to_string(), vec![], 5).unwrap();
    assert_eq!(m.plain_body, "Hello World");
    assert_eq!(m.html_body.as_deref(), Some("<p>Hello <b>World</b></p>"));
    assert!(!raw.contains('=') && !raw.contains('+') && !raw.contains('/'));
    let text = build_mime_message(&m, "0000-00-00T00:00:00Z", 5);
    assert_eq!(raw.len(), base64_url_encode(text.as_bytes()).len());
}

#[test]
fn credential_file_tokens() {
    assert_eq!(credential_file_token("{\"access_token\": \"ya29.x\", \"expires_in\": 3599}").as_deref(), Some("ya29.x"));
    assert_eq!(credential_file_token("{\"access_token\": 5}"), None);
    assert_eq!(credential_file_token("not json"), None);
    assert_eq!(credential_file_token("[]"), None);
}

#[test]
fn recipients_are_exactly_the_trimmed_pieces() {
    let input = strings(&[" b@x.com ,a@x.com", "", "a@x.com,  ,c@x.com "]);
    let r = expand_recipients(&input);
    let mut expected: Vec<String> = input
        .iter()
        .flat_map(|e| e.split(','))
        .map(|p| p.trim().to_string())
        .filter(|p| !p.is_empty())
        .collect();
    expected.dedup();
    let mut got = r.clone();
    got.sort();
    expected.sort();
    expected.dedup();
    assert_eq!(got, expected);
    assert!(r.iter().all(|x| x == x.trim()));
    assert_eq!(r, strings(&["b@x.com", "a@x.com", "c@x.com"]));
}

#[test]
fn plain_text_is_trimmed() {
    for h in ["  <p> x </p>\n", "<div>\t</div>", "<br> a <br>"] {
        let p = convert_html_to_plain(h).unwrap();
        assert_eq!(p, p.trim());
    }
}

#[test]
fn recipients_keep_the_order_of_first_occurrence() {
    let r = expand_recipients(&strings(&["c@x.com, a@x.com", "b@x.com,c@x.com", " a@x.com , d@x.com"]));
    assert_eq!(r, strings(&["c@x.com", "a@x.com", "b@x.com", "d@x.com"]));
}

#[test]
fn html_tags_in_lowercase_text() {
    assert!(has_html_tag("<p>x</p>"));
    assert!(has_html_tag("see <a href=\"y\">"));
    assert!(has_html_tag("a<br />b"));
    assert!(!has_html_tag("<P>X</P>"));
    assert!(!has_html_tag("<b>bold</b> and <pre>"));
}

#[test]
fn mime_types_of_lowercase_extensions() {
    assert_eq!(mime_of_ext("pdf"), "application/pdf");
    assert_eq!(mime_of_ext("htm"), "text/html");
    assert_eq!(mime_of_ext("PDF"), "application/octet-stream");
    assert_eq!(mime_of_ext(""), "application/octet-stream");
}

#[test]
fn blocks_are_found_in_the_lowercase_text() {
    assert_eq!(find_block("ab<SCRIPT>x</SCRIPT>c", "ab<script>x</script>c", "<script", "</script>"), Some(Some((2, 20))));
    assert_eq!(find_block("no block here", "no block here", "<script", "</script>"), None);
    assert_eq!(find_block("<script>open", "<script>open", "<script", "</script>"), None);
    // The lowercase form is longer than the text: the range does not fit the text.
    assert_eq!(find_block("\u{130}<script>x</script>", "i\u{307}<script>x</script>", "<script", "</script>"), Some(None));
}

#[test]
fn ascii_html_always_converts() {
    for h in ["<script>a", "x</script><script>y</script>", "<style>p{}</style>z", "<<>>&amp;", ""] {
        assert!(convert_html_to_plain(h).is_some());
    }
}

#[test]
fn no_entity_means_no_angle_bracket() {
    for h in ["<p>a</p> > b", "x < y", "<<b>>c</b>>", "1 <2> 3"] {
        let p = convert_html_to_plain(h).unwrap();
        assert!(!p.contains('<') && !p.contains('>'), "{}", p);
    }
    assert_eq!(convert_html_to_plain("a &lt; b").unwrap(), "a < b");
}

#[test]
fn plain_text_comes_back_trimmed() {
    assert_eq!(convert_html_to_plain("  just text \n").unwrap(), "just text");
    assert_eq!(convert_html_to_plain("line one\nline two").unwrap(), "line one\nline two");
}
