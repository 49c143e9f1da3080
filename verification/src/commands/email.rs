//! Composing an email: recipients, HTML detection and plain-text fallback, attachments and
//! the MIME message.

use vstd::prelude::*;
use vstd::string::*;
use vstd::utf8::*;

use crate::account::ResolvedEmailProfile;
use crate::cli::EmailArgs;
use crate::config::{email_entries, email_map_get_index, email_map_len, is_utc_text_of, now_utc, Config};
use crate::error::{Error, ErrorCode, ErrorView};
use crate::json::{json_text_value, parse_json, entries_view, json_bool, json_count, json_object, json_str, json_str_array, push_entry, str_views, Json, JsonView};
use crate::system::{b64, b64url, base64_encode, base64_url_encode};
use crate::text::{
    copy_opt, copy_strings, decimal, decimal_chars, join, push_chars, chars_of, contains_seq, find, find_bytes, find_chars, lemma_find_matches, replace_all, replace_all_chars,
    string_from_chars, to_lowercase, trim, trim_chars, unicode_lowercase, law_trim_idempotent, is_ws, ascii_lower, lemma_trim_within, lemma_trim_trailing_ws,
};

verus! {

/// HTML with everything inside `<...>` removed: a `<` opens a tag, a `>` closes it, and only
/// characters outside tags are kept. Returns the kept text and whether a tag is still open.
pub open spec fn strip_tags_state(s: Seq<char>) -> (Seq<char>, bool)
    decreases s.len(),
{
    if s.len() == 0 {
        (Seq::empty(), false)
    } else {
        let (out, in_tag) = strip_tags_state(s.drop_last());
        let c = s.last();
        if c == '<' {
            (out, true)
        } else if c == '>' {
            (out, false)
        } else if !in_tag {
            (out.push(c), in_tag)
        } else {
            (out, in_tag)
        }
    }
}

/// The text of `s` outside tags.
pub open spec fn strip_tags(s: Seq<char>) -> Seq<char> {
    strip_tags_state(s).0
}

/// Text with the tags stripped holds no angle bracket, and no character that was not in the
/// input.
pub proof fn law_strip_tags_removes_brackets(s: Seq<char>)
    ensures
        forall|i: int| 0 <= i < strip_tags(s).len() ==> #[trigger] strip_tags(s)[i] != '<' && strip_tags(s)[i] != '>'
            && s.contains(strip_tags(s)[i]),
        strip_tags(s).len() <= s.len(),
    decreases s.len(),
{
    if s.len() > 0 {
        let t = s.drop_last();
        law_strip_tags_removes_brackets(t);
        let o = strip_tags(t);
        let n = strip_tags(s);
        assert forall|i: int| 0 <= i < n.len() implies #[trigger] n[i] != '<' && n[i] != '>' && s.contains(n[i]) by {
            if i < o.len() {
                assert(n[i] == o[i]);
                let k = choose|k: int| 0 <= k < t.len() && t[k] == o[i];
                assert(s[k] == t[k]);
            } else {
                assert(n[i] == s.last());
                assert(s[s.len() - 1] == n[i]);
            }
        }
    }
}

/// Line breaks for `<br>` variants, paragraph, division and list-item ends, and a bullet for
/// each list item.
pub open spec fn block_breaks(s: Seq<char>) -> Seq<char> {
    let s1 = replace_all(s, "<br>"@, "\n"@);
    let s2 = replace_all(s1, "<br/>"@, "\n"@);
    let s3 = replace_all(s2, "<br />"@, "\n"@);
    let s4 = replace_all(s3, "</p>"@, "\n\n"@);
    let s5 = replace_all(s4, "</div>"@, "\n"@);
    let s6 = replace_all(s5, "</li>"@, "\n"@);
    replace_all(s6, "<li>"@, "• "@)
}

/// The common HTML entities decoded, one after the other.
pub open spec fn decode_entities(s: Seq<char>) -> Seq<char> {
    let s1 = replace_all(s, "&nbsp;"@, " "@);
    let s2 = replace_all(s1, "&amp;"@, "&"@);
    let s3 = replace_all(s2, "&lt;"@, "<"@);
    let s4 = replace_all(s3, "&gt;"@, ">"@);
    let s5 = replace_all(s4, "&quot;"@, "\""@);
    let s6 = replace_all(s5, "&#39;"@, "'"@);
    replace_all(s6, "&#x27;"@, "'"@)
}

/// Plain text of HTML whose script and style blocks are gone.
pub open spec fn html_text(s: Seq<char>) -> Seq<char> {
    trim(decode_entities(strip_tags(block_breaks(s))))
}

/// UTF-8 encoding distributes over concatenation.
pub proof fn lemma_encode_concat(a: Seq<char>, b: Seq<char>)
    ensures
        encode_utf8(a + b) == encode_utf8(a) + encode_utf8(b),
    decreases a.len(),
{
    if a.len() > 0 {
        lemma_encode_concat(a.drop_first(), b);
        assert((a + b).drop_first() == a.drop_first() + b);
        assert(encode_utf8(a + b) == encode_scalar(a[0] as u32) + encode_utf8(a.drop_first() + b));
    } else {
        assert(a + b == b);
    }
}

pub proof fn lemma_encode_nonempty(a: Seq<char>)
    requires
        a.len() > 0,
    ensures
        encode_utf8(a).len() > 0,
{
}

/// The bytes of a string, its case folded by `str::to_lowercase`.
pub open spec fn lower_bytes(b: Seq<u8>) -> Seq<u8> {
    encode_utf8(unicode_lowercase(decode_utf8(b)))
}

/// The next block to remove from text bytes `b`, searched for in `l`, the bytes of the text's
/// lowercase form: `open` is looked for in `l`, then `close` after it, and the same byte range
/// of `b` is taken. `None` when one of them is missing (or `close` is empty); `Some(None)`
/// when the range does not fall on character boundaries of `b`; else the range.
pub open spec fn next_block(b: Seq<u8>, l: Seq<u8>, open: Seq<char>, close: Seq<char>) -> Option<Option<(int, int)>> {
    if close.len() == 0 {
        None
    } else {
        match find(l, encode_utf8(open)) {
            None => None,
            Some(start) => match find(l.skip(start), encode_utf8(close)) {
                None => None,
                Some(end) => {
                    let e = start + end + encode_utf8(close).len();
                    if 0 <= start < e && 0 <= end && e <= b.len() && is_char_boundary(b, start) && is_char_boundary(b, e) {
                        Some(Some((start, e)))
                    } else {
                        Some(None)
                    }
                },
            },
        }
    }
}

/// Removes blocks from UTF-8 text by byte positions (see [`next_block`]), repeating until none
/// is left. `None` when a cut would not fall on character boundaries of the text (where
/// `String::replace_range` would panic).
pub open spec fn strip_blocks(b: Seq<u8>, open: Seq<char>, close: Seq<char>) -> Option<Seq<u8>>
    decreases b.len(),
{
    match next_block(b, lower_bytes(b), open, close) {
        None => Some(b),
        Some(None) => None,
        Some(Some((start, e))) => strip_blocks(b.take(start) + b.skip(e), open, close),
    }
}

/// The plain-text alternative of an HTML body: script and style blocks removed, line breaks
/// for block ends, tags dropped, entities decoded, whitespace trimmed. `None` exactly when
/// removing a block would cut a character apart (a byte-range removal would panic there).
pub open spec fn html_to_plain(html: Seq<char>) -> Option<Seq<char>> {
    match strip_blocks(encode_utf8(html), "<script"@, "</script>"@) {
        None => None,
        Some(b1) => match strip_blocks(b1, "<style"@, "</style>"@) {
            None => None,
            Some(b2) => Some(html_text(decode_utf8(b2))),
        },
    }
}

/// The plain-text alternative neither starts nor ends with whitespace.
pub proof fn law_plain_text_trimmed(html: Seq<char>)
    ensures
        html_to_plain(html) matches Some(p) ==> trim(p) == p && (p.len() > 0 ==> !is_ws(p[0]) && !is_ws(p.last())),
{
    match html_to_plain(html) {
        Some(p) => {
            let b1 = strip_blocks(encode_utf8(html), "<script"@, "</script>"@)->0;
            let b2 = strip_blocks(b1, "<style"@, "</style>"@)->0;
            law_trim_idempotent(decode_entities(strip_tags(block_breaks(decode_utf8(b2)))));
        },
        None => {},
    }
}

/// A pattern whose first character does not occur is not found.
proof fn lemma_find_absent(s: Seq<char>, p: Seq<char>)
    requires
        p.len() > 0,
        !s.contains(p[0]),
    ensures
        find(s, p) is None,
{
    lemma_find_matches(s, p);
    if let Some(i) = find(s, p) {
        assert(s.subrange(i, i + p.len())[0] == s[i]);
    }
}

/// Replacing a pattern whose first character does not occur changes nothing.
proof fn lemma_replace_absent(s: Seq<char>, p: Seq<char>, rep: Seq<char>)
    requires
        p.len() > 0,
        !s.contains(p[0]),
    ensures
        replace_all(s, p, rep) == s,
{
    lemma_find_absent(s, p);
}

/// A character in neither the text nor the replacement is not in the result of a replacement.
proof fn lemma_replace_keeps_out(s: Seq<char>, p: Seq<char>, rep: Seq<char>, c: char)
    requires
        !s.contains(c),
        !rep.contains(c),
    ensures
        !replace_all(s, p, rep).contains(c),
    decreases s.len(),
{
    if p.len() > 0 {
        lemma_find_matches(s, p);
        if let Some(i) = find(s, p) {
            let rest = s.skip(i + p.len());
            assert(!rest.contains(c)) by {
                if rest.contains(c) {
                    let k = choose|k: int| 0 <= k < rest.len() && rest[k] == c;
                    assert(s[i + p.len() + k] == c);
                }
            }
            lemma_replace_keeps_out(rest, p, rep, c);
            let t = replace_all(rest, p, rep);
            let r = s.take(i) + rep + t;
            assert(replace_all(s, p, rep) == r);
            if r.contains(c) {
                let k = choose|k: int| 0 <= k < r.len() && r[k] == c;
                if k < i {
                    assert(s[k] == c);
                } else if k < i + rep.len() {
                    assert(rep[k - i] == c);
                } else {
                    assert(t[k - i - rep.len()] == c);
                }
            }
        }
    }
}

/// Text without angle brackets has no tag to strip.
proof fn lemma_strip_tags_plain(s: Seq<char>)
    requires
        !s.contains('<'),
        !s.contains('>'),
    ensures
        strip_tags_state(s) == (s, false),
    decreases s.len(),
{
    if s.len() > 0 {
        let t = s.drop_last();
        assert(!t.contains('<')) by {
            if t.contains('<') {
                let k = choose|k: int| 0 <= k < t.len() && t[k] == '<';
                assert(s[k] == '<');
            }
        }
        assert(!t.contains('>')) by {
            if t.contains('>') {
                let k = choose|k: int| 0 <= k < t.len() && t[k] == '>';
                assert(s[k] == '>');
            }
        }
        lemma_strip_tags_plain(t);
        assert(s.last() != '<' && s.last() != '>') by {
            assert(s[s.len() - 1] == s.last());
        }
        assert(t.push(s.last()) == s);
    }
}

/// Trimming keeps no character that the text did not hold.
proof fn lemma_trim_keeps_out(s: Seq<char>, c: char)
    requires
        !s.contains(c),
    ensures
        !trim(s).contains(c),
{
    let t = trim(s);
    lemma_trim_within(s);
    if t.contains(c) {
        let k = choose|k: int| 0 <= k < t.len() && t[k] == c;
        assert(s.contains(t[k]));
    }
}

/// The line-break and bullet replacements bring in no character other than a line break, a
/// bullet and a space.
proof fn lemma_block_breaks_keeps_out(s: Seq<char>, c: char)
    requires
        !s.contains(c),
        c != '\n',
        c != '•',
        c != ' ',
    ensures
        !block_breaks(s).contains(c),
{
    reveal_strlit("\n");
    reveal_strlit("\n\n");
    reveal_strlit("• ");
    let s1 = replace_all(s, "<br>"@, "\n"@);
    let s2 = replace_all(s1, "<br/>"@, "\n"@);
    let s3 = replace_all(s2, "<br />"@, "\n"@);
    let s4 = replace_all(s3, "</p>"@, "\n\n"@);
    let s5 = replace_all(s4, "</div>"@, "\n"@);
    let s6 = replace_all(s5, "</li>"@, "\n"@);
    assert(!"\n"@.contains(c)) by {
        if "\n"@.contains(c) {
            let k = choose|k: int| 0 <= k < "\n"@.len() && "\n"@[k] == c;
        }
    }
    assert(!"\n\n"@.contains(c)) by {
        if "\n\n"@.contains(c) {
            let k = choose|k: int| 0 <= k < "\n\n"@.len() && "\n\n"@[k] == c;
        }
    }
    assert(!"• "@.contains(c)) by {
        if "• "@.contains(c) {
            let k = choose|k: int| 0 <= k < "• "@.len() && "• "@[k] == c;
        }
    }
    lemma_replace_keeps_out(s, "<br>"@, "\n"@, c);
    lemma_replace_keeps_out(s1, "<br/>"@, "\n"@, c);
    lemma_replace_keeps_out(s2, "<br />"@, "\n"@, c);
    lemma_replace_keeps_out(s3, "</p>"@, "\n\n"@, c);
    lemma_replace_keeps_out(s4, "</div>"@, "\n"@, c);
    lemma_replace_keeps_out(s5, "</li>"@, "\n"@, c);
    lemma_replace_keeps_out(s6, "<li>"@, "• "@, c);
}

/// Every entity starts with `&`: text without `&` has none to decode.
proof fn lemma_decode_entities_plain(s: Seq<char>)
    requires
        !s.contains('&'),
    ensures
        decode_entities(s) == s,
        replace_all(s, "&nbsp;"@, " "@) == s,
        replace_all(s, "&amp;"@, "&"@) == s,
        replace_all(s, "&lt;"@, "<"@) == s,
        replace_all(s, "&gt;"@, ">"@) == s,
        replace_all(s, "&quot;"@, "\""@) == s,
        replace_all(s, "&#39;"@, "'"@) == s,
        replace_all(s, "&#x27;"@, "'"@) == s,
{
    reveal_strlit("&nbsp;");
    reveal_strlit("&amp;");
    reveal_strlit("&lt;");
    reveal_strlit("&gt;");
    reveal_strlit("&quot;");
    reveal_strlit("&#39;");
    reveal_strlit("&#x27;");
    lemma_replace_absent(s, "&nbsp;"@, " "@);
    lemma_replace_absent(s, "&amp;"@, "&"@);
    lemma_replace_absent(s, "&lt;"@, "<"@);
    lemma_replace_absent(s, "&gt;"@, ">"@);
    lemma_replace_absent(s, "&quot;"@, "\""@);
    lemma_replace_absent(s, "&#39;"@, "'"@);
    lemma_replace_absent(s, "&#x27;"@, "'"@);
}

/// Text without `&` has no entity that could decode to an angle bracket, so its plain text
/// holds none: every `<` and `>` of it goes with the tags.
pub proof fn law_plain_text_no_brackets(s: Seq<char>)
    requires
        !s.contains('&'),
    ensures
        !html_text(s).contains('<'),
        !html_text(s).contains('>'),
{
    let b = block_breaks(s);
    lemma_block_breaks_keeps_out(s, '&');
    let t = strip_tags(b);
    law_strip_tags_removes_brackets(b);
    assert(!t.contains('&')) by {
        if t.contains('&') {
            let k = choose|k: int| 0 <= k < t.len() && t[k] == '&';
            assert(b.contains(t[k]));
        }
    }
    assert(!t.contains('<')) by {
        if t.contains('<') {
            let k = choose|k: int| 0 <= k < t.len() && t[k] == '<';
        }
    }
    assert(!t.contains('>')) by {
        if t.contains('>') {
            let k = choose|k: int| 0 <= k < t.len() && t[k] == '>';
        }
    }
    lemma_decode_entities_plain(t);
    lemma_trim_keeps_out(t, '<');
    lemma_trim_keeps_out(t, '>');
}

/// Text without markup (no `<`, `>` or `&`) comes back as it was, trimmed.
pub proof fn law_plain_text_of_plain(s: Seq<char>)
    requires
        !s.contains('<'),
        !s.contains('>'),
        !s.contains('&'),
    ensures
        html_text(s) == trim(s),
{
    reveal_strlit("<br>");
    reveal_strlit("<br/>");
    reveal_strlit("<br />");
    reveal_strlit("</p>");
    reveal_strlit("</div>");
    reveal_strlit("</li>");
    reveal_strlit("<li>");
    lemma_replace_absent(s, "<br>"@, "\n"@);
    lemma_replace_absent(s, "<br/>"@, "\n"@);
    lemma_replace_absent(s, "<br />"@, "\n"@);
    lemma_replace_absent(s, "</p>"@, "\n\n"@);
    lemma_replace_absent(s, "</div>"@, "\n"@);
    lemma_replace_absent(s, "</li>"@, "\n"@);
    lemma_replace_absent(s, "<li>"@, "• "@);
    assert(block_breaks(s) == s);
    lemma_strip_tags_plain(s);
    lemma_decode_entities_plain(s);
}

/// A pattern is not found where its first character is never followed by its second.
proof fn lemma_find_none_pairs(s: Seq<char>, p: Seq<char>)
    requires
        p.len() >= 2,
        forall|i: int| 0 <= i < s.len() - 1 && #[trigger] s[i] == p[0] ==> s[i + 1] != p[1],
    ensures
        find(s, p) is None,
    decreases s.len(),
{
    if s.len() >= p.len() {
        if s.take(p.len() as int) == p {
            assert(s.take(p.len() as int)[0] == s[0]);
            assert(s.take(p.len() as int)[1] == s[1]);
        }
        let t = s.drop_first();
        assert forall|i: int| 0 <= i < t.len() - 1 && #[trigger] t[i] == p[0] implies t[i + 1] != p[1] by {
            assert(t[i] == s[i + 1]);
            assert(t[i + 1] == s[i + 2]);
        }
        lemma_find_none_pairs(t, p);
    }
}

/// A pattern is found at `k` when it stands there and, before `k`, its first character is
/// never followed by its second.
proof fn lemma_find_at(s: Seq<char>, p: Seq<char>, k: int)
    requires
        p.len() >= 2,
        0 <= k,
        k + p.len() <= s.len(),
        s.subrange(k, k + p.len()) == p,
        forall|i: int| 0 <= i < k && #[trigger] s[i] == p[0] ==> s[i + 1] != p[1],
    ensures
        find(s, p) == Some(k),
    decreases k,
{
    if k == 0 {
        assert(s.take(p.len() as int) == s.subrange(0, p.len() as int));
    } else {
        if s.take(p.len() as int) == p {
            assert(s.take(p.len() as int)[0] == s[0]);
            assert(s.take(p.len() as int)[1] == s[1]);
        }
        let t = s.drop_first();
        assert(t.subrange(k - 1, k - 1 + p.len()) =~= s.subrange(k, k + p.len()));
        assert forall|i: int| 0 <= i < k - 1 && #[trigger] t[i] == p[0] implies t[i + 1] != p[1] by {
            assert(t[i] == s[i + 1]);
            assert(t[i + 1] == s[i + 2]);
        }
        lemma_find_at(t, p, k - 1);
    }
}

/// Appending text without angle brackets outside a tag keeps it.
proof fn lemma_strip_append_plain(x: Seq<char>, y: Seq<char>)
    requires
        !strip_tags_state(x).1,
        !y.contains('<'),
        !y.contains('>'),
    ensures
        strip_tags_state(x + y) == (strip_tags_state(x).0 + y, false),
    decreases y.len(),
{
    if y.len() > 0 {
        let z = y.drop_last();
        assert(!z.contains('<')) by {
            if z.contains('<') {
                let k = choose|k: int| 0 <= k < z.len() && z[k] == '<';
                assert(y[k] == '<');
            }
        }
        assert(!z.contains('>')) by {
            if z.contains('>') {
                let k = choose|k: int| 0 <= k < z.len() && z[k] == '>';
                assert(y[k] == '>');
            }
        }
        lemma_strip_append_plain(x, z);
        assert(y.last() != '<' && y.last() != '>') by {
            assert(y[y.len() - 1] == y.last());
        }
        assert((x + y).drop_last() =~= x + z);
        assert((x + y).last() == y.last());
        assert(strip_tags_state(x).0 + z + seq![y.last()] =~= strip_tags_state(x).0 + y);
    }
}

/// A `<p>` tag is dropped whole and leaves no tag open.
proof fn lemma_strip_append_p(x: Seq<char>)
    ensures
        strip_tags_state(x + "<p>"@) == (strip_tags_state(x).0, false),
{
    reveal_strlit("<p>");
    let o = strip_tags_state(x).0;
    let x1 = x.push('<');
    assert(x1.drop_last() =~= x);
    assert(strip_tags_state(x1) == (o, true));
    let x2 = x1.push('p');
    assert(x2.drop_last() =~= x1);
    assert(strip_tags_state(x2) == (o, true));
    let x3 = x2.push('>');
    assert(x3.drop_last() =~= x2);
    assert(strip_tags_state(x3) == (o, false));
    assert(x3 =~= x + "<p>"@);
}

/// Where the text has no `<`, replacing the paragraph ends of `<p>` + `x` + `</p>` + `rest`
/// gives `<p>` + `x` + `"\n\n"` and the replacement of `rest`.
proof fn lemma_paragraph_end(x: Seq<char>, rest: Seq<char>)
    requires
        !x.contains('<'),
    ensures
        replace_all("<p>"@ + x + "</p>"@ + rest, "</p>"@, "\n\n"@) == "<p>"@ + x + "\n\n"@ + replace_all(
            rest,
            "</p>"@,
            "\n\n"@,
        ),
{
    reveal_strlit("<p>");
    reveal_strlit("</p>");
    let s = "<p>"@ + x + "</p>"@ + rest;
    let k: int = 3 + x.len() as int;
    assert(s.subrange(k, k + 4) =~= "</p>"@);
    assert forall|i: int| 0 <= i < k && #[trigger] s[i] == "</p>"@[0] implies s[i + 1] != "</p>"@[1] by {
        if i >= 3 {
            assert(s[i] == x[i - 3]);
        }
    }
    lemma_find_at(s, "</p>"@, k);
    assert(s.take(k) =~= "<p>"@ + x);
    assert(s.skip(k + 4) =~= rest);
}

/// Consecutive paragraphs of plain text become the paragraphs' text separated by a blank
/// line: every closing `</p>` is a paragraph break, and the text of two paragraphs never runs
/// together.
pub proof fn law_paragraphs_break(a: Seq<char>, b: Seq<char>)
    requires
        !a.contains('<'),
        !a.contains('>'),
        !a.contains('&'),
        !b.contains('<'),
        !b.contains('>'),
        !b.contains('&'),
    ensures
        html_text("<p>"@ + a + "</p><p>"@ + b + "</p>"@) == trim(a + "\n\n"@ + b),
{
    reveal_strlit("<p>");
    reveal_strlit("</p>");
    reveal_strlit("</p><p>");
    reveal_strlit("\n\n");
    reveal_strlit("<br>");
    reveal_strlit("<br/>");
    reveal_strlit("<br />");
    reveal_strlit("</div>");
    reveal_strlit("</li>");
    reveal_strlit("<li>");
    let pp = "<p>"@;
    let nn = "\n\n"@;
    let s = pp + a + "</p><p>"@ + b + "</p>"@;
    let tail = pp + b + "</p>"@;
    assert(s =~= pp + a + "</p>"@ + tail);
    // No line break tag: every `<` is followed by `p` or `/`.
    assert forall|i: int| 0 <= i < s.len() - 1 && #[trigger] s[i] == '<' implies s[i + 1] == 'p' || s[i + 1] == '/' by {
        if 3 <= i < 3 + a.len() {
            assert(s[i] == a[i - 3]);
        } else if 10 + a.len() <= i < 10 + a.len() + b.len() {
            assert(s[i] == b[i - 10 - a.len()]);
        }
    }
    lemma_find_none_pairs(s, "<br>"@);
    lemma_find_none_pairs(s, "<br/>"@);
    lemma_find_none_pairs(s, "<br />"@);
    assert(replace_all(s, "<br>"@, "\n"@) == s);
    assert(replace_all(s, "<br/>"@, "\n"@) == s);
    assert(replace_all(s, "<br />"@, "\n"@) == s);
    // Both paragraph ends become blank lines.
    lemma_paragraph_end(a, tail);
    lemma_paragraph_end(b, Seq::empty());
    assert(pp + b + "</p>"@ + Seq::<char>::empty() =~= tail);
    assert(replace_all(Seq::<char>::empty(), "</p>"@, nn) == Seq::<char>::empty());
    assert(pp + b + nn + Seq::<char>::empty() =~= pp + b + nn);
    let s4 = pp + a + nn + (pp + b + nn);
    assert(replace_all(s, "</p>"@, nn) == s4);
    // What is left holds no closing tag and no list item: every `<` is followed by `p`.
    assert forall|i: int| 0 <= i < s4.len() - 1 && #[trigger] s4[i] == '<' implies s4[i + 1] == 'p' by {
        if 3 <= i < 3 + a.len() {
            assert(s4[i] == a[i - 3]);
        } else if 8 + a.len() <= i < 8 + a.len() + b.len() {
            assert(s4[i] == b[i - 8 - a.len()]);
        }
    }
    lemma_find_none_pairs(s4, "</div>"@);
    lemma_find_none_pairs(s4, "</li>"@);
    lemma_find_none_pairs(s4, "<li>"@);
    assert(block_breaks(s) == s4);
    // The `<p>` tags go; the text and the blank lines stay.
    assert(!nn.contains('<') && !nn.contains('>') && !nn.contains('&')) by {
        if nn.contains('<') || nn.contains('>') || nn.contains('&') {
            let k = choose|k: int| 0 <= k < nn.len() && (nn[k] == '<' || nn[k] == '>' || nn[k] == '&');
        }
    }
    let e = Seq::<char>::empty();
    assert(e + pp =~= pp);
    lemma_strip_append_p(e);
    lemma_strip_append_plain(pp, a);
    lemma_strip_append_plain(pp + a, nn);
    lemma_strip_append_p(pp + a + nn);
    lemma_strip_append_plain(pp + a + nn + pp, b);
    lemma_strip_append_plain(pp + a + nn + pp + b, nn);
    assert(s4 =~= pp + a + nn + pp + b + nn);
    let t = a + nn + b + nn;
    assert(strip_tags(s4) =~= t);
    assert(!t.contains('&')) by {
        if t.contains('&') {
            let k = choose|k: int| 0 <= k < t.len() && t[k] == '&';
            if k < a.len() {
                assert(a[k] == '&');
            } else if k < a.len() + 2 {
                assert(nn[k - a.len()] == '&');
            } else if k < a.len() + 2 + b.len() {
                assert(b[k - a.len() - 2] == '&');
            } else {
                assert(nn[k - a.len() - 2 - b.len()] == '&');
            }
        }
    }
    lemma_decode_entities_plain(t);
    assert(is_ws(nn[0]) && is_ws(nn[1]));
    lemma_trim_trailing_ws(a + nn + b, nn);
}

/// A pattern is not found where it stands nowhere.
proof fn lemma_find_nowhere(s: Seq<char>, p: Seq<char>)
    requires
        p.len() > 0,
        forall|i: int| 0 <= i && i + p.len() <= s.len() ==> #[trigger] s.subrange(i, i + p.len()) != p,
    ensures
        find(s, p) is None,
    decreases s.len(),
{
    if s.len() >= p.len() {
        assert(s.subrange(0, 0int + p.len()) != p);
        assert(s.take(p.len() as int) =~= s.subrange(0, 0int + p.len()));
        let t = s.drop_first();
        assert forall|i: int| 0 <= i && i + p.len() <= t.len() implies #[trigger] t.subrange(i, i + p.len()) != p by {
            assert(t.subrange(i, i + p.len()) =~= s.subrange(i + 1, i + 1 + p.len()));
        }
        lemma_find_nowhere(t, p);
    }
}

/// In `a + m + b`, where the marker character `c0` occurs only at the start of `m`, a pattern
/// starting with `c0` that differs from `m` at position `k` is not found.
proof fn lemma_lone_mark_miss(a: Seq<char>, m: Seq<char>, b: Seq<char>, p: Seq<char>, c0: char, k: int)
    requires
        !a.contains(c0),
        !b.contains(c0),
        m.len() > 0,
        m[0] == c0,
        forall|i: int| 0 < i < m.len() ==> #[trigger] m[i] != c0,
        p.len() > 0,
        p[0] == c0,
        0 <= k < m.len(),
        k < p.len(),
        m[k] != p[k],
    ensures
        find(a + m + b, p) is None,
        forall|rep: Seq<char>| #[trigger] replace_all(a + m + b, p, rep) == a + m + b,
{
    let s = a + m + b;
    assert forall|i: int| 0 <= i && i + p.len() <= s.len() implies #[trigger] s.subrange(i, i + p.len()) != p by {
        let w = s.subrange(i, i + p.len());
        if i < a.len() {
            assert(w[0] == a[i]);
        } else if i == a.len() {
            assert(w[k] == m[k]);
        } else if i < a.len() + m.len() {
            assert(w[0] == m[i - a.len()]);
        } else {
            assert(w[0] == b[i - a.len() - m.len()]);
        }
    }
    lemma_find_nowhere(s, p);
}

/// In `a + m + b`, where the marker character `c0` occurs only at the start of `m`, replacing
/// `m` replaces that one occurrence.
proof fn lemma_lone_mark_hit(a: Seq<char>, m: Seq<char>, b: Seq<char>, rep: Seq<char>, c0: char)
    requires
        !a.contains(c0),
        !b.contains(c0),
        m.len() >= 2,
        m[0] == c0,
    ensures
        replace_all(a + m + b, m, rep) == a + rep + b,
{
    let s = a + m + b;
    let k = a.len() as int;
    assert(s.subrange(k, k + m.len()) =~= m);
    assert forall|i: int| 0 <= i < k && #[trigger] s[i] == m[0] implies s[i + 1] != m[1] by {
        assert(s[i] == a[i]);
    }
    lemma_find_at(s, m, k);
    assert(s.take(k) =~= a);
    assert(s.skip(k + m.len()) =~= b);
    lemma_replace_absent(b, m, rep);
}

/// Plain text: no angle bracket and no `&`.
pub open spec fn plain(s: Seq<char>) -> bool {
    !s.contains('<') && !s.contains('>') && !s.contains('&')
}

proof fn lemma_plain_concat(x: Seq<char>, y: Seq<char>)
    requires
        plain(x),
        plain(y),
    ensures
        plain(x + y),
{
    let s = x + y;
    assert forall|c: char| (c == '<' || c == '>' || c == '&') implies !s.contains(c) by {
        if s.contains(c) {
            let k = choose|k: int| 0 <= k < s.len() && s[k] == c;
            if k < x.len() {
                assert(x[k] == c);
            } else {
                assert(y[k - x.len()] == c);
            }
        }
    }
}

proof fn lemma_plain_lits()
    ensures
        plain("\n"@),
        plain(" "@),
        plain("\""@),
        plain("'"@),
        plain("• "@),
{
    reveal_strlit("\n");
    reveal_strlit(" ");
    reveal_strlit("\"");
    reveal_strlit("'");
    reveal_strlit("• ");
    assert forall|c: char| (c == '<' || c == '>' || c == '&') implies !"\n"@.contains(c) && !" "@.contains(c)
        && !"\""@.contains(c) && !"'"@.contains(c) && !"• "@.contains(c) by {
        if "\n"@.contains(c) {
            let k = choose|k: int| 0 <= k < "\n"@.len() && "\n"@[k] == c;
        }
        if " "@.contains(c) {
            let k = choose|k: int| 0 <= k < " "@.len() && " "@[k] == c;
        }
        if "\""@.contains(c) {
            let k = choose|k: int| 0 <= k < "\""@.len() && "\""@[k] == c;
        }
        if "'"@.contains(c) {
            let k = choose|k: int| 0 <= k < "'"@.len() && "'"@[k] == c;
        }
        if "• "@.contains(c) {
            let k = choose|k: int| 0 <= k < "• "@.len() && "• "@[k] == c;
        }
    }
}

/// Plain text goes through tag stripping and entity decoding unchanged.
proof fn lemma_plain_after_breaks(s: Seq<char>)
    requires
        plain(s),
    ensures
        decode_entities(strip_tags(s)) == s,
{
    lemma_strip_tags_plain(s);
    lemma_decode_entities_plain(s);
}

/// Plain text has no tag to break lines at.
proof fn lemma_block_breaks_plain(s: Seq<char>)
    requires
        !s.contains('<'),
    ensures
        block_breaks(s) == s,
        replace_all(s, "<br>"@, "\n"@) == s,
        replace_all(s, "<br/>"@, "\n"@) == s,
        replace_all(s, "<br />"@, "\n"@) == s,
        replace_all(s, "</p>"@, "\n\n"@) == s,
        replace_all(s, "</div>"@, "\n"@) == s,
        replace_all(s, "</li>"@, "\n"@) == s,
        replace_all(s, "<li>"@, "• "@) == s,
{
    reveal_strlit("<br>");
    reveal_strlit("<br/>");
    reveal_strlit("<br />");
    reveal_strlit("</p>");
    reveal_strlit("</div>");
    reveal_strlit("</li>");
    reveal_strlit("<li>");
    lemma_replace_absent(s, "<br>"@, "\n"@);
    lemma_replace_absent(s, "<br/>"@, "\n"@);
    lemma_replace_absent(s, "<br />"@, "\n"@);
    lemma_replace_absent(s, "</p>"@, "\n\n"@);
    lemma_replace_absent(s, "</div>"@, "\n"@);
    lemma_replace_absent(s, "</li>"@, "\n"@);
    lemma_replace_absent(s, "<li>"@, "• "@);
}

/// Each line-break tag between two plain texts becomes a line break: `<br>`, `<br/>`,
/// `<br />` and `</div>` all separate the texts by `"\n"`.
pub proof fn law_line_break_tags(a: Seq<char>, b: Seq<char>)
    requires
        plain(a),
        plain(b),
    ensures
        html_text(a + "<br>"@ + b) == trim(a + "\n"@ + b),
        html_text(a + "<br/>"@ + b) == trim(a + "\n"@ + b),
        html_text(a + "<br />"@ + b) == trim(a + "\n"@ + b),
        html_text(a + "</div>"@ + b) == trim(a + "\n"@ + b),
{
    reveal_strlit("<br>");
    reveal_strlit("<br/>");
    reveal_strlit("<br />");
    reveal_strlit("</p>");
    reveal_strlit("</div>");
    reveal_strlit("</li>");
    reveal_strlit("<li>");
    reveal_strlit("\n");
    lemma_plain_lits();
    let nl = "\n"@;
    let r = a + nl + b;
    lemma_plain_concat(a, nl);
    lemma_plain_concat(a + nl, b);
    lemma_block_breaks_plain(r);
    lemma_plain_after_breaks(r);
    // `<br>`
    let t = "<br>"@;
    lemma_lone_mark_hit(a, t, b, nl, '<');
    assert(block_breaks(a + t + b) == block_breaks(r));
    // `<br/>`
    let t = "<br/>"@;
    lemma_lone_mark_miss(a, t, b, "<br>"@, '<', 3);
    lemma_lone_mark_hit(a, t, b, nl, '<');
    assert(block_breaks(a + t + b) == block_breaks(r));
    // `<br />`
    let t = "<br />"@;
    lemma_lone_mark_miss(a, t, b, "<br>"@, '<', 3);
    lemma_lone_mark_miss(a, t, b, "<br/>"@, '<', 3);
    lemma_lone_mark_hit(a, t, b, nl, '<');
    assert(block_breaks(a + t + b) == block_breaks(r));
    // `</div>`
    let t = "</div>"@;
    lemma_lone_mark_miss(a, t, b, "<br>"@, '<', 1);
    lemma_lone_mark_miss(a, t, b, "<br/>"@, '<', 1);
    lemma_lone_mark_miss(a, t, b, "<br />"@, '<', 1);
    lemma_lone_mark_miss(a, t, b, "</p>"@, '<', 2);
    lemma_lone_mark_hit(a, t, b, nl, '<');
    assert(replace_all(r, "</li>"@, nl) == r);
    assert(block_breaks(a + t + b) == block_breaks(r));
}

/// A list item of plain text becomes a bullet line: `<li>` + `a` + `</li>` is `• ` followed
/// by the text, trimmed.
pub proof fn law_list_item(a: Seq<char>)
    requires
        plain(a),
    ensures
        html_text("<li>"@ + a + "</li>"@) == trim("• "@ + a),
{
    reveal_strlit("<br>");
    reveal_strlit("<br/>");
    reveal_strlit("<br />");
    reveal_strlit("</p>");
    reveal_strlit("</div>");
    reveal_strlit("</li>");
    reveal_strlit("<li>");
    reveal_strlit("\n");
    reveal_strlit("• ");
    lemma_plain_lits();
    let li = "<li>"@;
    let s = li + a + "</li>"@;
    let n: int = a.len() as int;
    assert forall|i: int| 0 <= i < s.len() - 1 && #[trigger] s[i] == '<' implies s[i + 1] == 'l' || s[i + 1] == '/' by {
        if 4 <= i < 4 + n {
            assert(s[i] == a[i - 4]);
        }
    }
    lemma_find_none_pairs(s, "<br>"@);
    lemma_find_none_pairs(s, "<br/>"@);
    lemma_find_none_pairs(s, "<br />"@);
    assert forall|p: Seq<char>| p == "</p>"@ || p == "</div>"@ implies find(s, p) is None by {
        assert forall|i: int| 0 <= i && i + p.len() <= s.len() implies #[trigger] s.subrange(i, i + p.len()) != p by {
            let w = s.subrange(i, i + p.len());
            if i == 0 {
                assert(w[1] == 'l');
            } else if i < 4 {
                assert(w[0] == s[i]);
            } else if i < 4 + n {
                assert(w[0] == a[i - 4]);
            } else if i == 4 + n {
                assert(w[2] == 'l');
            } else {
                assert(w[0] == s[i]);
            }
        }
        lemma_find_nowhere(s, p);
    }
    assert(replace_all(s, "</p>"@, "\n\n"@) == s);
    assert(replace_all(s, "</div>"@, "\n"@) == s);
    // The closing tag becomes a line break, the opening one a bullet.
    let nl = "\n"@;
    assert(s =~= li + a + "</li>"@ + Seq::<char>::empty());
    assert forall|i: int| 0 <= i < 4 + n && #[trigger] s[i] == "</li>"@[0] implies s[i + 1] != "</li>"@[1] by {
        if 4 <= i {
            assert(s[i] == a[i - 4]);
        }
    }
    assert(s.subrange(4 + n, 4 + n + 5) =~= "</li>"@);
    lemma_find_at(s, "</li>"@, 4 + n);
    let s6 = li + a + nl;
    assert(s.take(4 + n) =~= li + a);
    assert(s.skip(4 + n + 5) =~= Seq::<char>::empty());
    assert(replace_all(Seq::<char>::empty(), "</li>"@, nl) =~= Seq::<char>::empty());
    assert(s.take(4 + n) + nl + Seq::<char>::empty() =~= s6);
    assert(replace_all(s, "</li>"@, nl) == s6);
    let an = a + nl;
    lemma_plain_concat(a, nl);
    assert(s6 =~= Seq::<char>::empty() + li + an);
    lemma_lone_mark_hit(Seq::<char>::empty(), li, an, "• "@, '<');
    let bullet = "• "@ + an;
    assert(Seq::<char>::empty() + "• "@ + an =~= bullet);
    assert(block_breaks(s) == bullet);
    lemma_plain_concat("• "@, an);
    lemma_plain_after_breaks(bullet);
    assert(bullet =~= "• "@ + a + nl);
    assert(is_ws(nl[0]));
    lemma_trim_trailing_ws("• "@ + a, nl);
}

/// Text around a bracket-free entity has no tag: line breaks and tag stripping keep it.
proof fn lemma_entity_untagged(a: Seq<char>, e: Seq<char>, b: Seq<char>)
    requires
        plain(a),
        plain(b),
        !e.contains('<'),
        !e.contains('>'),
    ensures
        block_breaks(a + e + b) == a + e + b,
        strip_tags(a + e + b) == a + e + b,
{
    let s = a + e + b;
    assert(!s.contains('<') && !s.contains('>')) by {
        if s.contains('<') || s.contains('>') {
            let k = choose|k: int| 0 <= k < s.len() && (s[k] == '<' || s[k] == '>');
            if k < a.len() {
                assert(s[k] == a[k]);
            } else if k < a.len() + e.len() {
                assert(s[k] == e[k - a.len()]);
            } else {
                assert(s[k] == b[k - a.len() - e.len()]);
            }
        }
    }
    lemma_block_breaks_plain(s);
    lemma_strip_tags_plain(s);
}

/// The entity literals hold no angle bracket.
proof fn lemma_entities_untagged()
    ensures
        !"&nbsp;"@.contains('<') && !"&nbsp;"@.contains('>'),
        !"&amp;"@.contains('<') && !"&amp;"@.contains('>'),
        !"&lt;"@.contains('<') && !"&lt;"@.contains('>'),
        !"&gt;"@.contains('<') && !"&gt;"@.contains('>'),
        !"&quot;"@.contains('<') && !"&quot;"@.contains('>'),
        !"&#39;"@.contains('<') && !"&#39;"@.contains('>'),
        !"&#x27;"@.contains('<') && !"&#x27;"@.contains('>'),
{
    reveal_strlit("&nbsp;");
    reveal_strlit("&amp;");
    reveal_strlit("&lt;");
    reveal_strlit("&gt;");
    reveal_strlit("&quot;");
    reveal_strlit("&#39;");
    reveal_strlit("&#x27;");
    assert forall|e: Seq<char>, c: char|
        (e == "&nbsp;"@ || e == "&amp;"@ || e == "&lt;"@ || e == "&gt;"@ || e == "&quot;"@ || e == "&#39;"@
            || e == "&#x27;"@) && (c == '<' || c == '>') implies !e.contains(c) by {
        if e.contains(c) {
            let k = choose|k: int| 0 <= k < e.len() && e[k] == c;
        }
    }
}

/// The text of plain `a`, an entity and plain `b`, once its entities are decoded.
proof fn lemma_entity_text(a: Seq<char>, e: Seq<char>, b: Seq<char>, c: Seq<char>)
    requires
        plain(a),
        plain(b),
        !e.contains('<'),
        !e.contains('>'),
        decode_entities(a + e + b) == a + c + b,
    ensures
        html_text(a + e + b) == trim(a + c + b),
{
    lemma_entity_untagged(a, e, b);
}

proof fn lemma_decode_nbsp(a: Seq<char>, b: Seq<char>)
    requires
        plain(a),
        plain(b),
    ensures
        decode_entities(a + "&nbsp;"@ + b) == a + " "@ + b,
{
    reveal_strlit("&nbsp;");
    reveal_strlit(" ");
    lemma_plain_lits();
    lemma_lone_mark_hit(a, "&nbsp;"@, b, " "@, '&');
    lemma_plain_concat(a, " "@);
    lemma_plain_concat(a + " "@, b);
    lemma_decode_entities_plain(a + " "@ + b);
}

proof fn lemma_decode_lt(a: Seq<char>, b: Seq<char>)
    requires
        plain(a),
        plain(b),
    ensures
        decode_entities(a + "&lt;"@ + b) == a + "<"@ + b,
{
    reveal_strlit("&nbsp;");
    reveal_strlit("&amp;");
    reveal_strlit("&lt;");
    reveal_strlit("<");
    let e = "&lt;"@;
    lemma_lone_mark_miss(a, e, b, "&nbsp;"@, '&', 1);
    lemma_lone_mark_miss(a, e, b, "&amp;"@, '&', 1);
    lemma_lone_mark_hit(a, e, b, "<"@, '&');
    let r = a + "<"@ + b;
    assert(!r.contains('&')) by {
        if r.contains('&') {
            let k = choose|k: int| 0 <= k < r.len() && r[k] == '&';
            if k < a.len() {
                assert(r[k] == a[k]);
            } else if k > a.len() {
                assert(r[k] == b[k - a.len() - 1]);
            }
        }
    }
    lemma_decode_entities_plain(r);
}

proof fn lemma_decode_gt(a: Seq<char>, b: Seq<char>)
    requires
        plain(a),
        plain(b),
    ensures
        decode_entities(a + "&gt;"@ + b) == a + ">"@ + b,
{
    reveal_strlit("&nbsp;");
    reveal_strlit("&amp;");
    reveal_strlit("&lt;");
    reveal_strlit("&gt;");
    reveal_strlit(">");
    let e = "&gt;"@;
    lemma_lone_mark_miss(a, e, b, "&nbsp;"@, '&', 1);
    lemma_lone_mark_miss(a, e, b, "&amp;"@, '&', 1);
    lemma_lone_mark_miss(a, e, b, "&lt;"@, '&', 1);
    lemma_lone_mark_hit(a, e, b, ">"@, '&');
    let r = a + ">"@ + b;
    assert(!r.contains('&')) by {
        if r.contains('&') {
            let k = choose|k: int| 0 <= k < r.len() && r[k] == '&';
            if k < a.len() {
                assert(r[k] == a[k]);
            } else if k > a.len() {
                assert(r[k] == b[k - a.len() - 1]);
            }
        }
    }
    lemma_decode_entities_plain(r);
}

proof fn lemma_decode_quot(a: Seq<char>, b: Seq<char>)
    requires
        plain(a),
        plain(b),
    ensures
        decode_entities(a + "&quot;"@ + b) == a + "\""@ + b,
{
    reveal_strlit("&nbsp;");
    reveal_strlit("&amp;");
    reveal_strlit("&lt;");
    reveal_strlit("&gt;");
    reveal_strlit("&quot;");
    lemma_plain_lits();
    let e = "&quot;"@;
    lemma_lone_mark_miss(a, e, b, "&nbsp;"@, '&', 1);
    lemma_lone_mark_miss(a, e, b, "&amp;"@, '&', 1);
    lemma_lone_mark_miss(a, e, b, "&lt;"@, '&', 1);
    lemma_lone_mark_miss(a, e, b, "&gt;"@, '&', 1);
    lemma_lone_mark_hit(a, e, b, "\""@, '&');
    lemma_plain_concat(a, "\""@);
    lemma_plain_concat(a + "\""@, b);
    lemma_decode_entities_plain(a + "\""@ + b);
}

proof fn lemma_decode_apos(a: Seq<char>, b: Seq<char>)
    requires
        plain(a),
        plain(b),
    ensures
        decode_entities(a + "&#39;"@ + b) == a + "'"@ + b,
        decode_entities(a + "&#x27;"@ + b) == a + "'"@ + b,
{
    reveal_strlit("&nbsp;");
    reveal_strlit("&amp;");
    reveal_strlit("&lt;");
    reveal_strlit("&gt;");
    reveal_strlit("&quot;");
    reveal_strlit("&#39;");
    reveal_strlit("&#x27;");
    lemma_plain_lits();
    lemma_plain_concat(a, "'"@);
    lemma_plain_concat(a + "'"@, b);
    lemma_decode_entities_plain(a + "'"@ + b);
    let e = "&#39;"@;
    lemma_lone_mark_miss(a, e, b, "&nbsp;"@, '&', 1);
    lemma_lone_mark_miss(a, e, b, "&amp;"@, '&', 1);
    lemma_lone_mark_miss(a, e, b, "&lt;"@, '&', 1);
    lemma_lone_mark_miss(a, e, b, "&gt;"@, '&', 1);
    lemma_lone_mark_miss(a, e, b, "&quot;"@, '&', 1);
    lemma_lone_mark_hit(a, e, b, "'"@, '&');
    let e = "&#x27;"@;
    lemma_lone_mark_miss(a, e, b, "&nbsp;"@, '&', 1);
    lemma_lone_mark_miss(a, e, b, "&amp;"@, '&', 1);
    lemma_lone_mark_miss(a, e, b, "&lt;"@, '&', 1);
    lemma_lone_mark_miss(a, e, b, "&gt;"@, '&', 1);
    lemma_lone_mark_miss(a, e, b, "&quot;"@, '&', 1);
    lemma_lone_mark_miss(a, e, b, "&#39;"@, '&', 2);
    lemma_lone_mark_hit(a, e, b, "'"@, '&');
}

proof fn lemma_decode_amp(a: Seq<char>, b: Seq<char>)
    requires
        plain(a),
        plain(b),
        !b.contains(';'),
    ensures
        decode_entities(a + "&amp;"@ + b) == a + "&"@ + b,
{
    reveal_strlit("&nbsp;");
    reveal_strlit("&amp;");
    reveal_strlit("&lt;");
    reveal_strlit("&gt;");
    reveal_strlit("&quot;");
    reveal_strlit("&#39;");
    reveal_strlit("&#x27;");
    reveal_strlit("&");
    let e = "&amp;"@;
    lemma_lone_mark_miss(a, e, b, "&nbsp;"@, '&', 1);
    lemma_lone_mark_hit(a, e, b, "&"@, '&');
    let r = a + "&"@ + b;
    assert forall|p: Seq<char>|
        p == "&lt;"@ || p == "&gt;"@ || p == "&quot;"@ || p == "&#39;"@ || p == "&#x27;"@ implies find(r, p) is None by {
        assert forall|i: int| 0 <= i && i + p.len() <= r.len() implies #[trigger] r.subrange(i, i + p.len()) != p by {
            let w = r.subrange(i, i + p.len());
            if i < a.len() {
                assert(w[0] == a[i]);
            } else if i == a.len() {
                assert(w[p.len() - 1] == b[p.len() - 2]);
            } else {
                assert(w[0] == b[i - a.len() - 1]);
            }
        }
        lemma_find_nowhere(r, p);
    }
}

/// Each entity between two plain texts decodes to its character: `&nbsp;` to a space,
/// `&lt;` to `<`, `&gt;` to `>`, `&quot;` to `"`, `&#39;` and `&#x27;` to `'`, and `&amp;` to
/// `&` when no `;` follows that could make a second entity of it.
pub proof fn law_entities(a: Seq<char>, b: Seq<char>)
    requires
        plain(a),
        plain(b),
    ensures
        html_text(a + "&nbsp;"@ + b) == trim(a + " "@ + b),
        html_text(a + "&lt;"@ + b) == trim(a + "<"@ + b),
        html_text(a + "&gt;"@ + b) == trim(a + ">"@ + b),
        html_text(a + "&quot;"@ + b) == trim(a + "\""@ + b),
        html_text(a + "&#39;"@ + b) == trim(a + "'"@ + b),
        html_text(a + "&#x27;"@ + b) == trim(a + "'"@ + b),
        !b.contains(';') ==> html_text(a + "&amp;"@ + b) == trim(a + "&"@ + b),
{
    lemma_entities_untagged();
    lemma_decode_nbsp(a, b);
    lemma_entity_text(a, "&nbsp;"@, b, " "@);
    lemma_decode_lt(a, b);
    lemma_entity_text(a, "&lt;"@, b, "<"@);
    lemma_decode_gt(a, b);
    lemma_entity_text(a, "&gt;"@, b, ">"@);
    lemma_decode_quot(a, b);
    lemma_entity_text(a, "&quot;"@, b, "\""@);
    lemma_decode_apos(a, b);
    lemma_entity_text(a, "&#39;"@, b, "'"@);
    lemma_entity_text(a, "&#x27;"@, b, "'"@);
    if !b.contains(';') {
        lemma_decode_amp(a, b);
        lemma_entity_text(a, "&amp;"@, b, "&"@);
    }
}

/// The bytes of an ASCII text are its characters, one byte each, so a byte range of the text
/// is the text of the same character range.
proof fn lemma_ascii_byte_range(x: Seq<char>, y: Seq<char>, a: int, b: int)
    requires
        is_ascii_chars(x),
        0 <= a <= b <= x.len(),
        encode_utf8(y) == encode_utf8(x).subrange(a, b),
    ensures
        y == x.subrange(a, b),
{
    let xs = x.subrange(a, b);
    assert(is_ascii_chars(xs));
    is_ascii_chars_encode_utf8(x);
    is_ascii_chars_encode_utf8(xs);
    assert(encode_utf8(xs) =~= encode_utf8(x).subrange(a, b));
    encode_utf8_decode_utf8(y);
    encode_utf8_decode_utf8(xs);
}

/// The ASCII lowercase of ASCII text is ASCII text of the same length.
proof fn lemma_ascii_lower_ascii(x: Seq<char>)
    requires
        is_ascii_chars(x),
    ensures
        is_ascii_chars(x.map_values(|c: char| ascii_lower(c))),
        x.map_values(|c: char| ascii_lower(c)).len() == x.len(),
{
    let l = x.map_values(|c: char| ascii_lower(c));
    assert forall|i: int| 0 <= i < l.len() implies '\0' <= #[trigger] l[i] <= '\u{7f}' by {
        assert(l[i] == ascii_lower(x[i]));
    }
}

/// In ASCII text every byte position is a character boundary.
proof fn lemma_ascii_boundary(x: Seq<char>, i: int)
    requires
        is_ascii_chars(x),
        0 <= i <= x.len(),
    ensures
        is_char_boundary(encode_utf8(x), i),
{
    let b = encode_utf8(x);
    is_ascii_chars_encode_utf8(x);
    encode_utf8_valid_utf8(x);
    if i == x.len() {
        is_char_boundary_start_end_of_seq(b);
    } else {
        is_char_boundary_iff_not_is_continuation_byte(b, i);
        assert(x[i] as u8 == b[i]);
        let c = x[i];
        assert((c as u32) < 128);
        let v = b[i];
        assert(v < 128) by {
            assert(v == c as u8);
        }
        assert(!is_continuation_byte(v)) by (bit_vector)
            requires
                v < 128,
        ;
    }
}

/// In ASCII text, a block found in the text's ASCII lowercase always falls on character
/// boundaries of the text.
proof fn lemma_ascii_block_whole(x: Seq<char>, open: Seq<char>, close: Seq<char>)
    requires
        is_ascii_chars(x),
    ensures
        !(next_block(encode_utf8(x), encode_utf8(x.map_values(|c: char| ascii_lower(c))), open, close) matches Some(None)),
{
    let b = encode_utf8(x);
    let lx = x.map_values(|c: char| ascii_lower(c));
    let l = encode_utf8(lx);
    lemma_ascii_lower_ascii(x);
    is_ascii_chars_encode_utf8(x);
    is_ascii_chars_encode_utf8(lx);
    if close.len() > 0 {
        lemma_encode_nonempty(close);
        lemma_find_matches(l, encode_utf8(open));
        if let Some(start) = find(l, encode_utf8(open)) {
            lemma_find_matches(l.skip(start), encode_utf8(close));
            if let Some(end) = find(l.skip(start), encode_utf8(close)) {
                let e = start + end + encode_utf8(close).len();
                assert(e <= b.len());
                lemma_ascii_boundary(x, start);
                lemma_ascii_boundary(x, e);
            }
        }
    }
}

/// A pattern whose first character is `<` is not found in the ASCII lowercase of ASCII text
/// without `<`.
proof fn lemma_ascii_no_tag(x: Seq<char>, open: Seq<char>)
    requires
        is_ascii_chars(x),
        is_ascii_chars(open),
        open.len() > 0,
        open[0] == '<',
        !x.contains('<'),
    ensures
        find(encode_utf8(x.map_values(|c: char| ascii_lower(c))), encode_utf8(open)) is None,
{
    let lx = x.map_values(|c: char| ascii_lower(c));
    let l = encode_utf8(lx);
    let p = encode_utf8(open);
    lemma_ascii_lower_ascii(x);
    is_ascii_chars_encode_utf8(lx);
    is_ascii_chars_encode_utf8(open);
    lemma_find_matches(l, p);
    if let Some(i) = find(l, p) {
        assert(l.subrange(i, i + p.len())[0] == p[0]);
        assert(l[i] == p[0]);
        let c = lx[i];
        let o = open[0];
        assert(c as u8 == o as u8);
        assert((c as u32) < 128 && (o as u32) < 128);
        let cu = c as u32;
        let ou = o as u32;
        assert(cu == ou) by (bit_vector)
            requires
                cu < 128,
                ou < 128,
                cu as u8 == ou as u8,
        ;
        assert(c == '<');
        assert(c == ascii_lower(x[i]));
        assert(x[i] == '<');
    }
}

/// Finds the next block to remove from `text`, given `lower`, its lowercase form (see
/// [`next_block`]): `None` when there is none, `Some(None)` when its byte range would cut a
/// character of `text` apart, else the byte range.
pub fn find_block(text: &str, lower: &str, open: &str, close: &str) -> (r: Option<Option<(usize, usize)>>)
    requires
        close@.len() > 0,
    ensures
        ({
            let nb = next_block(encode_utf8(text@), encode_utf8(lower@), open@, close@);
            &&& r is None <==> nb is None
            &&& (r matches Some(None)) <==> (nb matches Some(None))
            &&& r matches Some(Some((s, e))) ==> nb == Some(Some((s as int, e as int)))
        }),
{
    proof {
        lemma_encode_nonempty(close@);
    }
    let ghost b = encode_utf8(text@);
    let lb = lower.as_bytes();
    let ob = open.as_bytes();
    let cb = close.as_bytes();
    assert(lb@ == encode_utf8(lower@));
    assert(ob@ == encode_utf8(open@));
    assert(cb@ == encode_utf8(close@));
    match find_bytes(lb, ob, 0) {
        None => {
            assert(lb@.skip(0) == lb@);
            None
        },
        Some(start) => {
            assert(lb@.skip(0) == lb@);
            proof {
                lemma_find_matches(lb@, ob@);
            }
            assert(find(lb@, ob@) == Some(start as int));
            match find_bytes(lb, cb, start) {
                None => {
                    assert(find(lb@.skip(start as int), cb@) is None);
                    None
                },
                Some(p) => {
                    proof {
                        lemma_find_matches(lb@.skip(start as int), cb@);
                    }
                    let ghost end = find(lb@.skip(start as int), cb@)->0;
                    assert(p == end + start);
                    assert(end + cb@.len() <= lb@.len() - start);
                    let lbn = lb.len();
                    assert(p + cb@.len() <= lbn);
                    let e = p + cb.len();
                    assert(text.spec_bytes() == b);
                    let within = e <= text.as_bytes().len();
                    let ok = within && text.is_char_boundary(start) && text.is_char_boundary(e);
                    if ok {
                        Some(Some((start, e)))
                    } else {
                        Some(None)
                    }
                },
            }
        },
    }
}

fn strip_blocks_exec(s: String, open: &str, close: &str) -> (r: Option<String>)
    requires
        close@.len() > 0,
    ensures
        match strip_blocks(encode_utf8(s@), open@, close@) {
            None => r is None,
            Some(b) => r matches Some(t) && encode_utf8(t@) == b,
        },
        is_ascii_chars(s@) ==> (r matches Some(t) && is_ascii_chars(t@)
            && forall|i: int| 0 <= i < t@.len() ==> s@.contains(#[trigger] t@[i])),
        is_ascii_chars(s@) && is_ascii_chars(open@) && open@.len() > 0 && open@[0] == '<'
            && !s@.contains('<') ==> (r matches Some(t) && t@ == s@),
{
    let mut cur = s;
    loop
        invariant
            close@.len() > 0,
            strip_blocks(encode_utf8(cur@), open@, close@) == strip_blocks(encode_utf8(s@), open@, close@),
            is_ascii_chars(s@) ==> is_ascii_chars(cur@)
                && forall|i: int| 0 <= i < cur@.len() ==> s@.contains(#[trigger] cur@[i]),
            is_ascii_chars(s@) && is_ascii_chars(open@) && open@.len() > 0 && open@[0] == '<'
                && !s@.contains('<') ==> cur@ == s@,
        decreases encode_utf8(cur@).len(),
    {
        proof {
            encode_utf8_valid_utf8(cur@);
            encode_utf8_decode_utf8(cur@);
        }
        let ghost b = encode_utf8(cur@);
        let lower = to_lowercase(cur.as_str());
        proof {
            encode_utf8_decode_utf8(lower@);
        }
        assert(encode_utf8(lower@) == lower_bytes(b));
        let found = find_block(cur.as_str(), lower.as_str(), open, close);
        proof {
            if is_ascii_chars(cur@) {
                lemma_ascii_block_whole(cur@, open@, close@);
                if is_ascii_chars(s@) && is_ascii_chars(open@) && open@.len() > 0 && open@[0] == '<'
                    && !s@.contains('<') {
                    lemma_ascii_no_tag(cur@, open@);
                }
            }
        }
        match found {
            None => {
                return Some(cur);
            },
            Some(None) => {
                return None;
            },
            Some(Some((start, e))) => {
                let cs = cur.as_str();
                assert(cs.spec_bytes() == b);
                let (left, _) = cs.split_at(start);
                let (_, right) = cs.split_at(e);
                let mut next = left.to_owned();
                next.append(right);
                proof {
                    lemma_encode_concat(left@, right@);
                    assert(b.subrange(0, start as int) == b.take(start as int));
                    assert(b.subrange(e as int, b.len() as int) == b.skip(e as int));
                    if is_ascii_chars(s@) {
                        let c = cur@;
                        is_ascii_chars_encode_utf8(c);
                        lemma_ascii_byte_range(c, left@, 0, start as int);
                        lemma_ascii_byte_range(c, right@, e as int, c.len() as int);
                        assert forall|i: int| 0 <= i < next@.len() implies s@.contains(#[trigger] next@[i])
                            && '\0' <= next@[i] <= '\u{7f}' by {
                            if i < start {
                                assert(next@[i] == c[i]);
                            } else {
                                assert(next@[i] == c[i - start + e]);
                            }
                        }
                    }
                }
                cur = next;
            },
        }
    }
}

/// Converts an HTML body to its plain-text alternative; `None` where removing a script or
/// style block would cut a multi-byte character apart, which ASCII input never does. From
/// ASCII input without `&` no angle bracket is left, and ASCII text without markup comes back
/// trimmed.
pub fn convert_html_to_plain(html: &str) -> (r: Option<String>)
    ensures
        match html_to_plain(html@) {
            None => r is None,
            Some(t) => r matches Some(x) && x@ == t,
        },
        is_ascii_chars(html@) ==> r is Some,
        is_ascii_chars(html@) && !html@.contains('&') ==> (r matches Some(x) && !x@.contains('<')
            && !x@.contains('>')),
        is_ascii_chars(html@) && !html@.contains('<') && !html@.contains('>') && !html@.contains('&')
            ==> (r matches Some(x) && x@ == trim(html@)),
{
    proof {
        reveal_strlit("</script>");
        reveal_strlit("</style>");
        reveal_strlit("<script");
        reveal_strlit("<style");
        assert(is_ascii_chars("<script"@));
        assert(is_ascii_chars("<style"@));
    }
    let first = strip_blocks_exec(String::from_str(html), "<script", "</script>");
    match first {
        None => None,
        Some(a) => {
            let second = strip_blocks_exec(a, "<style", "</style>");
            match second {
                None => None,
                Some(c) => {
                    proof {
                        encode_utf8_decode_utf8(c@);
                    }
                    let t = html_text_exec(&chars_of(c.as_str()));
                    let x = string_from_chars(&t);
                    proof {
                        if is_ascii_chars(html@) && !html@.contains('&') {
                            assert(!c@.contains('&')) by {
                                if c@.contains('&') {
                                    let k = choose|k: int| 0 <= k < c@.len() && c@[k] == '&';
                                    assert(a@.contains(c@[k]));
                                    let j = choose|j: int| 0 <= j < a@.len() && a@[j] == c@[k];
                                    assert(html@.contains(a@[j]));
                                }
                            }
                            law_plain_text_no_brackets(c@);
                            if !html@.contains('<') && !html@.contains('>') {
                                law_plain_text_of_plain(c@);
                            }
                        }
                    }
                    Some(x)
                },
            }
        },
    }
}

/// The body looks like HTML: its lowercase form holds one of the common opening tags.
pub open spec fn is_html(content: Seq<char>) -> bool {
    html_tag_in(unicode_lowercase(content))
}

/// Lowercase text holds one of the common opening tags.
pub open spec fn html_tag_in(lower: Seq<char>) -> bool {
    ||| contains_seq(lower, "<html"@)
    ||| contains_seq(lower, "<body"@)
    ||| contains_seq(lower, "<div"@)
    ||| contains_seq(lower, "<p>"@)
    ||| contains_seq(lower, "<p "@)
    ||| contains_seq(lower, "<span"@)
    ||| contains_seq(lower, "<h1"@)
    ||| contains_seq(lower, "<h2"@)
    ||| contains_seq(lower, "<h3"@)
    ||| contains_seq(lower, "<table"@)
    ||| contains_seq(lower, "<ul"@)
    ||| contains_seq(lower, "<ol"@)
    ||| contains_seq(lower, "<li"@)
    ||| contains_seq(lower, "<br>"@)
    ||| contains_seq(lower, "<br/>"@)
    ||| contains_seq(lower, "<br />"@)
    ||| contains_seq(lower, "<img"@)
    ||| contains_seq(lower, "<a href"@)
}

fn contains_lit(s: &Vec<char>, pat: &str) -> (r: bool)
    ensures
        r == contains_seq(s@, pat@),
{
    let p = chars_of(pat);
    let r = find_chars(s, &p, 0);
    assert(s@.skip(0) == s@);
    r.is_some()
}

/// Decides whether an email body is HTML (see [`is_html`]).
pub fn is_html_content(content: &str) -> (r: bool)
    ensures
        r == is_html(content@),
{
    has_html_tag(to_lowercase(content).as_str())
}

/// Whether lowercase text holds one of the common opening tags (see [`html_tag_in`]).
pub fn has_html_tag(lower_text: &str) -> (r: bool)
    ensures
        r == html_tag_in(lower_text@),
{
    let lower = chars_of(lower_text);
    if contains_lit(&lower, "<html") {
        return true;
    }
    if contains_lit(&lower, "<body") {
        return true;
    }
    if contains_lit(&lower, "<div") {
        return true;
    }
    if contains_lit(&lower, "<p>") {
        return true;
    }
    if contains_lit(&lower, "<p ") {
        return true;
    }
    if contains_lit(&lower, "<span") {
        return true;
    }
    if contains_lit(&lower, "<h1") {
        return true;
    }
    if contains_lit(&lower, "<h2") {
        return true;
    }
    if contains_lit(&lower, "<h3") {
        return true;
    }
    if contains_lit(&lower, "<table") {
        return true;
    }
    if contains_lit(&lower, "<ul") {
        return true;
    }
    if contains_lit(&lower, "<ol") {
        return true;
    }
    if contains_lit(&lower, "<li") {
        return true;
    }
    if contains_lit(&lower, "<br>") {
        return true;
    }
    if contains_lit(&lower, "<br/>") {
        return true;
    }
    if contains_lit(&lower, "<br />") {
        return true;
    }
    if contains_lit(&lower, "<img") {
        return true;
    }
    if contains_lit(&lower, "<a href") {
        return true;
    }
    false
}

/// The pieces of `s` between occurrences of `sep` (`str::split` with a char): one more piece
/// than there are separators; an empty string gives one empty piece.
pub open spec fn split_on(s: Seq<char>, sep: char) -> Seq<Seq<char>>
    decreases s.len(),
{
    if s.len() == 0 {
        seq![Seq::empty()]
    } else {
        let p = split_on(s.drop_last(), sep);
        if s.last() == sep {
            p.push(Seq::empty())
        } else {
            p.update(p.len() - 1, p.last().push(s.last()))
        }
    }
}

proof fn lemma_split_on_nonempty(s: Seq<char>, sep: char)
    ensures
        split_on(s, sep).len() >= 1,
    decreases s.len(),
{
    if s.len() > 0 {
        lemma_split_on_nonempty(s.drop_last(), sep);
    }
}

/// Adds an address to a recipient list unless it is empty or already there.
pub open spec fn add_recipient(acc: Seq<Seq<char>>, x: Seq<char>) -> Seq<Seq<char>> {
    if x.len() == 0 || acc.contains(x) {
        acc
    } else {
        acc.push(x)
    }
}

/// Adds the trimmed pieces, in order.
pub open spec fn add_pieces(acc: Seq<Seq<char>>, pieces: Seq<Seq<char>>) -> Seq<Seq<char>>
    decreases pieces.len(),
{
    if pieces.len() == 0 {
        acc
    } else {
        add_recipient(add_pieces(acc, pieces.drop_last()), trim(pieces.last()))
    }
}

/// The recipients named by repeated and comma-separated arguments: each piece trimmed,
/// empty pieces dropped, each address kept once, in order of first appearance.
pub open spec fn expand(entries: Seq<Seq<char>>) -> Seq<Seq<char>>
    decreases entries.len(),
{
    if entries.len() == 0 {
        Seq::empty()
    } else {
        add_pieces(expand(entries.drop_last()), split_on(entries.last(), ','))
    }
}

/// Every address is non-empty and none occurs twice.
pub open spec fn clean_list(l: Seq<Seq<char>>) -> bool {
    &&& forall|i: int| 0 <= i < l.len() ==> #[trigger] l[i].len() > 0
    &&& forall|i: int, j: int| 0 <= i < j < l.len() ==> #[trigger] l[i] != #[trigger] l[j]
}

proof fn lemma_add_pieces_clean(acc: Seq<Seq<char>>, pieces: Seq<Seq<char>>)
    requires
        clean_list(acc),
    ensures
        clean_list(add_pieces(acc, pieces)),
    decreases pieces.len(),
{
    if pieces.len() > 0 {
        let a = add_pieces(acc, pieces.drop_last());
        lemma_add_pieces_clean(acc, pieces.drop_last());
        let x = trim(pieces.last());
        if !(x.len() == 0 || a.contains(x)) {
            let b = a.push(x);
            assert forall|i: int, j: int| 0 <= i < j < b.len() implies #[trigger] b[i] != #[trigger] b[j] by {
                if j == a.len() {
                    assert(a[i] != x);
                }
            }
        }
    }
}

/// The expanded recipient list never holds an empty address, nor one address twice.
pub proof fn law_recipients_clean(entries: Seq<Seq<char>>)
    ensures
        clean_list(expand(entries)),
    decreases entries.len(),
{
    if entries.len() > 0 {
        law_recipients_clean(entries.drop_last());
        lemma_add_pieces_clean(expand(entries.drop_last()), split_on(entries.last(), ','));
    }
}

/// Every comma-separated piece of the arguments, in order.
pub open spec fn all_pieces(entries: Seq<Seq<char>>) -> Seq<Seq<char>>
    decreases entries.len(),
{
    if entries.len() == 0 {
        Seq::empty()
    } else {
        all_pieces(entries.drop_last()) + split_on(entries.last(), ',')
    }
}

/// `x` is a non-empty trimmed piece of `pieces`.
pub open spec fn is_trimmed_piece(pieces: Seq<Seq<char>>, x: Seq<char>) -> bool {
    x.len() > 0 && exists|i: int| 0 <= i < pieces.len() && #[trigger] trim(pieces[i]) == x
}

proof fn lemma_add_pieces_member(acc: Seq<Seq<char>>, pieces: Seq<Seq<char>>, x: Seq<char>)
    ensures
        add_pieces(acc, pieces).contains(x) <==> acc.contains(x) || is_trimmed_piece(pieces, x),
    decreases pieces.len(),
{
    if pieces.len() > 0 {
        let init = pieces.drop_last();
        let a = add_pieces(acc, init);
        let y = trim(pieces.last());
        lemma_add_pieces_member(acc, init, x);
        let r = add_recipient(a, y);
        if r.contains(x) {
            if !a.contains(x) {
                let k = choose|k: int| 0 <= k < r.len() && r[k] == x;
                assert(k == a.len());
                assert(x == y);
                assert(trim(pieces[pieces.len() - 1]) == x);
            } else if !acc.contains(x) {
                let i = choose|i: int| 0 <= i < init.len() && #[trigger] trim(init[i]) == x;
                assert(trim(pieces[i]) == x);
            }
        }
        if acc.contains(x) || is_trimmed_piece(pieces, x) {
            if a.contains(x) {
                let k = choose|k: int| 0 <= k < a.len() && a[k] == x;
                if !(y.len() == 0 || a.contains(y)) {
                    assert(r[k] == x);
                }
            } else {
                let i = choose|i: int| 0 <= i < pieces.len() && #[trigger] trim(pieces[i]) == x;
                if i < init.len() {
                    assert(trim(init[i]) == x);
                }
                assert(x == y);
                if !a.contains(y) {
                    assert(r[a.len() as int] == x);
                }
            }
        }
    }
}

/// The expanded recipient list holds exactly the non-empty trimmed pieces of the arguments
/// (each address trimmed already), once each: with [`law_recipients_clean`], it is the set of
/// those pieces.
pub proof fn law_recipients_are_the_pieces(entries: Seq<Seq<char>>, x: Seq<char>)
    ensures
        expand(entries).contains(x) <==> is_trimmed_piece(all_pieces(entries), x),
        expand(entries).contains(x) ==> trim(x) == x,
    decreases entries.len(),
{
    if entries.len() > 0 {
        let init = entries.drop_last();
        let sp = split_on(entries.last(), ',');
        law_recipients_are_the_pieces(init, x);
        lemma_add_pieces_member(expand(init), sp, x);
        let all = all_pieces(entries);
        assert(all == all_pieces(init) + sp);
        if is_trimmed_piece(all, x) {
            let i = choose|i: int| 0 <= i < all.len() && #[trigger] trim(all[i]) == x;
            if i < all_pieces(init).len() {
                assert(trim(all_pieces(init)[i]) == x);
            } else {
                assert(trim(sp[i - all_pieces(init).len()]) == x);
            }
        }
        if is_trimmed_piece(all_pieces(init), x) {
            let i = choose|i: int| 0 <= i < all_pieces(init).len() && #[trigger] trim(all_pieces(init)[i]) == x;
            assert(trim(all[i]) == x);
        }
        if is_trimmed_piece(sp, x) {
            let i = choose|i: int| 0 <= i < sp.len() && #[trigger] trim(sp[i]) == x;
            assert(trim(all[i + all_pieces(init).len()]) == x);
        }
    }
    if expand(entries).contains(x) {
        if is_trimmed_piece(all_pieces(entries), x) {
            let i = choose|i: int| 0 <= i < all_pieces(entries).len() && #[trigger] trim(all_pieces(entries)[i]) == x;
            law_trim_idempotent(all_pieces(entries)[i]);
        }
    }
}

/// Where `x` first occurs in `xs` (meaningful when it occurs; see [`lemma_first_at`]).
pub open spec fn first_at(xs: Seq<Seq<char>>, x: Seq<char>) -> int
    decreases xs.len(),
{
    if xs.len() == 0 {
        0
    } else if xs.drop_last().contains(x) {
        first_at(xs.drop_last(), x)
    } else {
        xs.len() - 1
    }
}

/// `first_at` is the index of the first occurrence.
pub proof fn lemma_first_at(xs: Seq<Seq<char>>, x: Seq<char>)
    requires
        xs.contains(x),
    ensures
        0 <= first_at(xs, x) < xs.len(),
        xs[first_at(xs, x)] == x,
        forall|k: int| 0 <= k < first_at(xs, x) ==> xs[k] != x,
    decreases xs.len(),
{
    let init = xs.drop_last();
    if init.contains(x) {
        lemma_first_at(init, x);
        assert forall|k: int| 0 <= k < first_at(xs, x) implies xs[k] != x by {
            assert(xs[k] == init[k]);
        }
        assert(xs[first_at(xs, x)] == init[first_at(init, x)]);
    } else {
        assert forall|k: int| 0 <= k < xs.len() - 1 implies xs[k] != x by {
            assert(xs[k] == init[k]);
        }
    }
}

/// The trimmed pieces of the arguments, in order.
pub open spec fn trimmed_pieces(entries: Seq<Seq<char>>) -> Seq<Seq<char>> {
    all_pieces(entries).map_values(|p: Seq<char>| trim(p))
}

/// `r` holds each non-empty element of `t` once, only those, in order of first occurrence.
pub open spec fn first_occurrence_list(r: Seq<Seq<char>>, t: Seq<Seq<char>>) -> bool {
    &&& forall|i: int| 0 <= i < r.len() ==> t.contains(#[trigger] r[i])
    &&& forall|x: Seq<char>| t.contains(x) && x.len() > 0 ==> #[trigger] r.contains(x)
    &&& forall|i: int, j: int| 0 <= i < j < r.len() ==> first_at(t, #[trigger] r[i]) < first_at(t, #[trigger] r[j])
}

proof fn lemma_first_occurrence_step(r: Seq<Seq<char>>, t: Seq<Seq<char>>, y: Seq<char>)
    requires
        first_occurrence_list(r, t),
    ensures
        first_occurrence_list(add_recipient(r, y), t.push(y)),
{
    let t2 = t.push(y);
    let r2 = add_recipient(r, y);
    assert(t2.drop_last() == t);
    assert forall|i: int| 0 <= i < r.len() implies #[trigger] first_at(t2, r[i]) == first_at(t, r[i]) && t2.contains(r[i]) by {
        assert(t.contains(r[i]));
        lemma_first_at(t, r[i]);
        let k = first_at(t, r[i]);
        assert(t2[k] == r[i]);
    }
    assert forall|x: Seq<char>| t2.contains(x) && x.len() > 0 implies #[trigger] r2.contains(x) by {
        let k = choose|k: int| 0 <= k < t2.len() && t2[k] == x;
        if k < t.len() {
            assert(t[k] == x);
            assert(r.contains(x));
            let m = choose|m: int| 0 <= m < r.len() && r[m] == x;
            if !(y.len() == 0 || r.contains(y)) {
                assert(r2[m] == x);
            }
        } else {
            assert(x == y);
            if !r.contains(y) {
                assert(r2[r.len() as int] == y);
            }
        }
    }
    if !(y.len() == 0 || r.contains(y)) {
        assert(!t.contains(y));
        assert(first_at(t2, y) == t.len());
        assert forall|i: int| 0 <= i < r2.len() implies t2.contains(#[trigger] r2[i]) by {
            if i == r.len() {
                assert(t2[t.len() as int] == y);
            } else {
                assert(r2[i] == r[i]);
            }
        }
        assert forall|i: int, j: int| 0 <= i < j < r2.len() implies first_at(t2, #[trigger] r2[i]) < first_at(
            t2,
            #[trigger] r2[j],
        ) by {
            assert(r2[i] == r[i]);
            assert(t.contains(r[i]));
            lemma_first_at(t, r[i]);
            if j < r.len() {
                assert(r2[j] == r[j]);
                assert(first_at(t2, r[j]) == first_at(t, r[j]));
            }
        }
    }
}

proof fn lemma_first_occurrence_pieces(acc: Seq<Seq<char>>, t: Seq<Seq<char>>, pieces: Seq<Seq<char>>)
    requires
        first_occurrence_list(acc, t),
    ensures
        first_occurrence_list(add_pieces(acc, pieces), t + pieces.map_values(|p: Seq<char>| trim(p))),
    decreases pieces.len(),
{
    if pieces.len() == 0 {
        assert(t + pieces.map_values(|p: Seq<char>| trim(p)) =~= t);
    } else {
        let init = pieces.drop_last();
        lemma_first_occurrence_pieces(acc, t, init);
        lemma_first_occurrence_step(
            add_pieces(acc, init),
            t + init.map_values(|p: Seq<char>| trim(p)),
            trim(pieces.last()),
        );
        assert((t + init.map_values(|p: Seq<char>| trim(p))).push(trim(pieces.last())) =~= t + pieces.map_values(
            |p: Seq<char>| trim(p),
        ));
    }
}

/// The expanded recipients are the non-empty trimmed pieces of the arguments, each once, in
/// order of first occurrence.
pub proof fn law_recipients_in_first_order(entries: Seq<Seq<char>>)
    ensures
        first_occurrence_list(expand(entries), trimmed_pieces(entries)),
    decreases entries.len(),
{
    if entries.len() == 0 {
        assert(trimmed_pieces(entries) =~= Seq::<Seq<char>>::empty());
    } else {
        let init = entries.drop_last();
        law_recipients_in_first_order(init);
        let sp = split_on(entries.last(), ',');
        lemma_first_occurrence_pieces(expand(init), trimmed_pieces(init), sp);
        assert(trimmed_pieces(entries) =~= trimmed_pieces(init) + sp.map_values(|p: Seq<char>| trim(p)));
    }
}

/// The views of a list of strings.
pub open spec fn views(v: Seq<String>) -> Seq<Seq<char>> {
    v.map_values(|s: String| s@)
}

fn add_recipient_exec(out: &mut Vec<String>, x: &Vec<char>)
    ensures
        views(final(out)@) == add_recipient(views(old(out)@), x@),
{
    if x.len() == 0 {
        return;
    }
    let xs = string_from_chars(x);
    for j in 0..out.len()
        invariant
            xs@ == x@,
            forall|k: int| 0 <= k < j ==> out@[k]@ != x@,
    {
        if out[j] == xs {
            assert(views(out@)[j as int] == x@);
            return;
        }
    }
    assert(!views(out@).contains(x@)) by {
        if views(out@).contains(x@) {
            let k = choose|k: int| 0 <= k < views(out@).len() && views(out@)[k] == x@;
            assert(out@[k]@ == x@);
        }
    }
    let ghost before = out@;
    out.push(xs);
    assert(views(out@) =~= views(before).push(x@));
}

/// Expands `--to`/`--cc`/`--bcc` arguments into a list of addresses (see [`expand`]).
pub fn expand_recipients(input: &Vec<String>) -> (r: Vec<String>)
    ensures
        views(r@) == expand(views(input@)),
{
    let mut out: Vec<String> = Vec::new();
    assert(views(out@) =~= Seq::<Seq<char>>::empty());
    for k in 0..input.len()
        invariant
            views(out@) == expand(views(input@.take(k as int))),
    {
        let ghost acc = views(out@);
        let cs = chars_of(input[k].as_str());
        let mut cur: Vec<char> = Vec::new();
        proof {
            assert(cs@.take(0) =~= Seq::<char>::empty());
        }
        for i in 0..cs.len()
            invariant
                split_on(cs@.take(i as int), ',').len() >= 1,
                cur@ == split_on(cs@.take(i as int), ',').last(),
                views(out@) == add_pieces(acc, split_on(cs@.take(i as int), ',').drop_last()),
        {
            let c = cs[i];
            proof {
                assert(cs@.take(i + 1).drop_last() == cs@.take(i as int));
                lemma_split_on_nonempty(cs@.take(i + 1), ',');
            }
            let ghost pieces = split_on(cs@.take(i as int), ',');
            if c == ',' {
                let t = trim_chars(&cur);
                add_recipient_exec(&mut out, &t);
                cur = Vec::new();
                proof {
                    assert(split_on(cs@.take(i + 1), ',') == pieces.push(Seq::empty()));
                    assert(pieces.push(Seq::empty()).drop_last() == pieces);
                    assert(pieces == pieces.drop_last().push(pieces.last()));
                    assert(cur@ =~= Seq::<char>::empty());
                }
            } else {
                cur.push(c);
                proof {
                    let np = pieces.update(pieces.len() - 1, pieces.last().push(c));
                    assert(split_on(cs@.take(i + 1), ',') == np);
                    assert(np.drop_last() =~= pieces.drop_last());
                }
            }
        }
        let t = trim_chars(&cur);
        add_recipient_exec(&mut out, &t);
        proof {
            assert(cs@.take(cs.len() as int) == cs@);
            let pieces = split_on(cs@, ',');
            assert(pieces == pieces.drop_last().push(pieces.last()));
            assert(views(input@.take(k + 1)).drop_last() =~= views(input@.take(k as int)));
            assert(views(input@.take(k + 1)).last() == input@[k as int]@);
        }
    }
    assert(input@.take(input.len() as int) == input@);
    out
}

/// The path components that name something: pieces between `/` other than empty ones and `.`.
pub open spec fn named_components(path: Seq<char>) -> Seq<Seq<char>> {
    split_on(path, '/').filter(|c: Seq<char>| c.len() > 0 && c != "."@)
}

/// The final component of a Unix path, unless it is `..` or there is none (`Path::file_name`).
pub open spec fn file_name(path: Seq<char>) -> Option<Seq<char>> {
    let comps = named_components(path);
    if comps.len() == 0 || comps.last() == ".."@ {
        None
    } else {
        Some(comps.last())
    }
}

/// Position of the last occurrence of `c`.
pub open spec fn last_index_of(s: Seq<char>, c: char) -> Option<int>
    decreases s.len(),
{
    if s.len() == 0 {
        None
    } else if s.last() == c {
        Some(s.len() - 1)
    } else {
        last_index_of(s.drop_last(), c)
    }
}

/// The text after the last `.` of a file name, unless the name has no `.` or only a leading
/// one (`Path::extension`).
pub open spec fn extension_of(name: Seq<char>) -> Option<Seq<char>> {
    match last_index_of(name, '.') {
        None => None,
        Some(j) => if j == 0 {
            None
        } else {
            Some(name.skip(j + 1))
        },
    }
}

/// The MIME type for a lowercase file extension; unknown ones are `application/octet-stream`.
pub open spec fn mime_for(ext: Seq<char>) -> Seq<char> {
    if ext == "pdf"@ {
        "application/pdf"@
    } else if ext == "doc"@ {
        "application/msword"@
    } else if ext == "docx"@ {
        "application/vnd.openxmlformats-officedocument.wordprocessingml.document"@
    } else if ext == "xls"@ {
        "application/vnd.ms-excel"@
    } else if ext == "xlsx"@ {
        "application/vnd.openxmlformats-officedocument.spreadsheetml.sheet"@
    } else if ext == "ppt"@ {
        "application/vnd.ms-powerpoint"@
    } else if ext == "pptx"@ {
        "application/vnd.openxmlformats-officedocument.presentationml.presentation"@
    } else if ext == "txt"@ {
        "text/plain"@
    } else if ext == "csv"@ {
        "text/csv"@
    } else if ext == "html"@ {
        "text/html"@
    } else if ext == "htm"@ {
        "text/html"@
    } else if ext == "json"@ {
        "application/json"@
    } else if ext == "xml"@ {
        "application/xml"@
    } else if ext == "zip"@ {
        "application/zip"@
    } else if ext == "tar"@ {
        "application/x-tar"@
    } else if ext == "gz"@ {
        "application/gzip"@
    } else if ext == "png"@ {
        "image/png"@
    } else if ext == "jpg"@ {
        "image/jpeg"@
    } else if ext == "jpeg"@ {
        "image/jpeg"@
    } else if ext == "gif"@ {
        "image/gif"@
    } else if ext == "bmp"@ {
        "image/bmp"@
    } else if ext == "svg"@ {
        "image/svg+xml"@
    } else if ext == "mp3"@ {
        "audio/mpeg"@
    } else if ext == "mp4"@ {
        "video/mp4"@
    } else {
        "application/octet-stream"@
    }
}

/// The MIME type of an attachment, by the lowercase extension of its file name.
pub open spec fn mime_type_of(path: Seq<char>) -> Seq<char> {
    let ext = match file_name(path) {
        None => Seq::empty(),
        Some(n) => match extension_of(n) {
            None => Seq::empty(),
            Some(e) => unicode_lowercase(e),
        },
    };
    mime_for(ext)
}

fn chars_eq(v: &Vec<char>, lit: &str) -> (r: bool)
    ensures
        r == (v@ == lit@),
{
    let l = chars_of(lit);
    if v.len() != l.len() {
        return false;
    }
    for i in 0..v.len()
        invariant
            v@.len() == l@.len(),
            l@ == lit@,
            forall|k: int| 0 <= k < i ==> v@[k] == l@[k],
    {
        if v[i] != l[i] {
            return false;
        }
    }
    assert(v@ =~= l@);
    true
}

/// The last named component of a Unix path (see [`file_name`]).
pub fn file_name_of(path: &str) -> (r: Option<String>)
    ensures
        match file_name(path@) {
            None => r is None,
            Some(n) => r matches Some(x) && x@ == n,
        },
{
    let cs = chars_of(path);
    let mut last: Option<Vec<char>> = None;
    let mut cur: Vec<char> = Vec::new();
    let ghost keep = |c: Seq<char>| c.len() > 0 && c != "."@;
    assert(cs@.take(0) =~= Seq::<char>::empty());
    for i in 0..cs.len()
        invariant
            cs@ == path@,
            keep == (|c: Seq<char>| c.len() > 0 && c != "."@),
            split_on(cs@.take(i as int), '/').len() >= 1,
            cur@ == split_on(cs@.take(i as int), '/').last(),
            ({
                let done = split_on(cs@.take(i as int), '/').drop_last().filter(keep);
                match last {
                    None => done.len() == 0,
                    Some(v) => done.len() > 0 && v@ == done.last(),
                }
            }),
    {
        let c = cs[i];
        let ghost pieces = split_on(cs@.take(i as int), '/');
        proof {
            assert(cs@.take(i + 1).drop_last() == cs@.take(i as int));
            lemma_split_on_nonempty(cs@.take(i + 1), '/');
        }
        if c == '/' {
            let is_dot = chars_eq(&cur, ".");
            if cur.len() > 0 && !is_dot {
                last = Some(cur);
            }
            cur = Vec::new();
            proof {
                assert(split_on(cs@.take(i + 1), '/') == pieces.push(Seq::empty()));
                assert(pieces.push(Seq::empty()).drop_last() == pieces);
                assert(pieces == pieces.drop_last().push(pieces.last()));
                pieces.drop_last().lemma_filter_push(pieces.last(), keep);
                assert(cur@ =~= Seq::<char>::empty());
            }
        } else {
            cur.push(c);
            proof {
                let np = pieces.update(pieces.len() - 1, pieces.last().push(c));
                assert(split_on(cs@.take(i + 1), '/') == np);
                assert(np.drop_last() =~= pieces.drop_last());
            }
        }
    }
    proof {
        assert(cs@.take(cs.len() as int) == cs@);
        let pieces = split_on(cs@, '/');
        assert(pieces == pieces.drop_last().push(pieces.last()));
        pieces.drop_last().lemma_filter_push(pieces.last(), keep);
    }
    let is_dot = chars_eq(&cur, ".");
    if cur.len() > 0 && !is_dot {
        last = Some(cur);
    }
    match last {
        None => None,
        Some(v) => {
            if chars_eq(&v, "..") {
                None
            } else {
                Some(string_from_chars(&v))
            }
        },
    }
}

/// The extension of a file name (see [`extension_of`]).
pub fn extension_of_name(name: &str) -> (r: Option<String>)
    ensures
        match extension_of(name@) {
            None => r is None,
            Some(e) => r matches Some(x) && x@ == e,
        },
{
    let cs = chars_of(name);
    let mut j = cs.len();
    assert(cs@.take(cs@.len() as int) == cs@);
    while j > 0 && cs[j - 1] != '.'
        invariant
            j <= cs@.len(),
            cs@ == name@,
            last_index_of(cs@, '.') == last_index_of(cs@.take(j as int), '.'),
        decreases j,
    {
        assert(cs@.take(j as int).drop_last() == cs@.take(j - 1));
        j = j - 1;
    }
    proof {
        assert(cs@.take(cs@.len() as int) == cs@);
    }
    if j == 0 {
        assert(last_index_of(cs@.take(0), '.') is None);
        return None;
    }
    assert(last_index_of(cs@.take(j as int), '.') == Some(j - 1));
    if j - 1 == 0 {
        return None;
    }
    let tail = crate::text::slice_chars(&cs, j, cs.len());
    assert(tail@ == cs@.skip(j as int));
    Some(string_from_chars(&tail))
}

/// The MIME type of an attachment path (see [`mime_type_of`]).
pub fn mime_type_for(path: &str) -> (r: &'static str)
    ensures
        r@ == mime_type_of(path@),
{
    let ext: String = match file_name_of(path) {
        None => String::new(),
        Some(n) => match extension_of_name(n.as_str()) {
            None => String::new(),
            Some(e) => to_lowercase(e.as_str()),
        },
    };
    mime_of_ext(ext.as_str())
}

/// The MIME type of a lowercase file extension (see [`mime_for`]).
pub fn mime_of_ext(extension: &str) -> (r: &'static str)
    ensures
        r@ == mime_for(extension@),
{
    let ext = chars_of(extension);
    if chars_eq(&ext, "pdf") {
        "application/pdf"
    } else if chars_eq(&ext, "doc") {
        "application/msword"
    } else if chars_eq(&ext, "docx") {
        "application/vnd.openxmlformats-officedocument.wordprocessingml.document"
    } else if chars_eq(&ext, "xls") {
        "application/vnd.ms-excel"
    } else if chars_eq(&ext, "xlsx") {
        "application/vnd.openxmlformats-officedocument.spreadsheetml.sheet"
    } else if chars_eq(&ext, "ppt") {
        "application/vnd.ms-powerpoint"
    } else if chars_eq(&ext, "pptx") {
        "application/vnd.openxmlformats-officedocument.presentationml.presentation"
    } else if chars_eq(&ext, "txt") {
        "text/plain"
    } else if chars_eq(&ext, "csv") {
        "text/csv"
    } else if chars_eq(&ext, "html") {
        "text/html"
    } else if chars_eq(&ext, "htm") {
        "text/html"
    } else if chars_eq(&ext, "json") {
        "application/json"
    } else if chars_eq(&ext, "xml") {
        "application/xml"
    } else if chars_eq(&ext, "zip") {
        "application/zip"
    } else if chars_eq(&ext, "tar") {
        "application/x-tar"
    } else if chars_eq(&ext, "gz") {
        "application/gzip"
    } else if chars_eq(&ext, "png") {
        "image/png"
    } else if chars_eq(&ext, "jpg") {
        "image/jpeg"
    } else if chars_eq(&ext, "jpeg") {
        "image/jpeg"
    } else if chars_eq(&ext, "gif") {
        "image/gif"
    } else if chars_eq(&ext, "bmp") {
        "image/bmp"
    } else if chars_eq(&ext, "svg") {
        "image/svg+xml"
    } else if chars_eq(&ext, "mp3") {
        "audio/mpeg"
    } else if chars_eq(&ext, "mp4") {
        "video/mp4"
    } else {
        "application/octet-stream"
    }
}

/// A file attached to an email.
pub struct Attachment {
    pub name: String,
    pub content_type: String,
    pub bytes: Vec<u8>,
}

/// The parts of an email message.
pub struct MimeMessage {
    pub from: String,
    pub to: Vec<String>,
    pub cc: Vec<String>,
    pub bcc: Vec<String>,
    pub subject: String,
    pub plain_body: String,
    pub html_body: Option<String>,
    pub attachments: Vec<Attachment>,
}

/// Line end of MIME text.
pub open spec fn crlf() -> Seq<char> {
    "\r\n"@
}

/// A text part: its boundary line when inside a multipart body, the header, the text.
pub open spec fn text_part(text: Seq<char>, boundary: Option<Seq<char>>) -> Seq<char> {
    (match boundary {
        Some(b) => "--"@ + b + crlf(),
        None => Seq::empty(),
    }) + "Content-Type: text/plain; charset=UTF-8\r\n\r\n"@ + text + crlf()
}

/// An HTML part: its boundary line when inside a multipart body, the header, the HTML.
pub open spec fn html_part(html: Seq<char>, boundary: Option<Seq<char>>) -> Seq<char> {
    (match boundary {
        Some(b) => "--"@ + b + crlf(),
        None => Seq::empty(),
    }) + "Content-Type: text/html; charset=UTF-8\r\n\r\n"@ + html + crlf()
}

/// Text broken into lines of at most 76 characters, each ended by CRLF.
pub open spec fn wrap76(s: Seq<char>) -> Seq<char>
    decreases s.len(),
{
    if s.len() == 0 {
        Seq::empty()
    } else if s.len() <= 76 {
        s + crlf()
    } else {
        s.take(76) + crlf() + wrap76(s.skip(76))
    }
}

/// Base64 text is cut into lines of 76 characters: the `k`-th full line of the wrapped text is
/// the `k`-th run of 76 characters of the text followed by CRLF, and the wrapped text is the
/// text plus one CRLF per started line.
pub proof fn law_wrap76_lines(s: Seq<char>, k: int)
    requires
        0 <= k,
        76 * (k + 1) <= s.len(),
    ensures
        wrap76(s).subrange(78 * k, 78 * k + 78) == s.subrange(76 * k, 76 * k + 76) + "\r\n"@,
        wrap76(s).len() == s.len() + 2 * ((s.len() + 75) / 76),
    decreases k,
{
    reveal_strlit("\r\n");
    lemma_wrap76_len(s);
    if k == 0 {
        if s.len() <= 76 {
            assert(wrap76(s) == s + crlf());
            assert(s.subrange(0, 76) =~= s);
            assert(wrap76(s).subrange(0, 78) =~= s + "\r\n"@);
        } else {
            assert(wrap76(s).subrange(0, 78) =~= s.take(76) + "\r\n"@);
            assert(s.subrange(0, 76) =~= s.take(76));
        }
    } else {
        let t = s.skip(76);
        law_wrap76_lines(t, k - 1);
        let w = wrap76(s);
        assert(w == s.take(76) + crlf() + wrap76(t));
        assert(w.subrange(78 * k, 78 * k + 78) =~= wrap76(t).subrange(78 * (k - 1), 78 * (k - 1) + 78));
        assert(t.subrange(76 * (k - 1), 76 * (k - 1) + 76) =~= s.subrange(76 * k, 76 * k + 76));
    }
}

proof fn lemma_wrap76_len(s: Seq<char>)
    ensures
        wrap76(s).len() == s.len() + 2 * ((s.len() + 75) / 76),
    decreases s.len(),
{
    reveal_strlit("\r\n");
    if s.len() > 76 {
        lemma_wrap76_len(s.skip(76));
        assert((s.len() + 75) / 76 == (s.len() - 76 + 75) / 76 + 1);
    }
}

/// One attachment part: boundary line, headers naming the file, Base64 body in 76-character
/// lines.
pub open spec fn attachment_part(a: Attachment, boundary: Seq<char>) -> Seq<char> {
    "--"@ + boundary + crlf() + "Content-Type: "@ + a.content_type@ + "; name=\""@ + a.name@ + "\""@
        + crlf() + "Content-Disposition: attachment; filename=\""@ + a.name@ + "\""@ + crlf()
        + "Content-Transfer-Encoding: base64\r\n\r\n"@ + wrap76(b64(a.bytes@))
}

/// All attachment parts, in order.
pub open spec fn attachment_parts(atts: Seq<Attachment>, boundary: Seq<char>) -> Seq<char>
    decreases atts.len(),
{
    if atts.len() == 0 {
        Seq::empty()
    } else {
        attachment_parts(atts.drop_last(), boundary) + attachment_part(atts.last(), boundary)
    }
}

/// The header lines: `From` when there is a sender, `To`, `Cc` and `Bcc` when not empty,
/// `Subject`, `Date`, and the MIME version.
pub open spec fn mime_headers(m: MimeMessage, date: Seq<char>) -> Seq<char> {
    (if m.from@.len() > 0 {
        "From: "@ + m.from@ + crlf()
    } else {
        Seq::empty()
    }) + address_line("To: "@, m.to@, false) + address_line("Cc: "@, m.cc@, true) + address_line(
        "Bcc: "@,
        m.bcc@,
        true,
    ) + ("Subject: "@ + m.subject@ + crlf() + "Date: "@ + date + crlf() + "MIME-Version: 1.0\r\n"@)
}

/// The `multipart/alternative` body: plain text, then HTML, then the closing boundary.
pub open spec fn alternative_body(plain: Seq<char>, html: Seq<char>, alt: Seq<char>) -> Seq<char> {
    "Content-Type: multipart/alternative; boundary=\""@ + alt + "\"\r\n\r\n"@ + text_part(plain, Some(alt))
        + html_part(html, Some(alt)) + "--"@ + alt + "--\r\n"@
}

/// The first part of a `multipart/mixed` body: the alternative body, or the plain text.
pub open spec fn mixed_first_part(m: MimeMessage, alt: Seq<char>) -> Seq<char> {
    match m.html_body {
        Some(h) => alternative_body(m.plain_body@, h@, alt),
        None => text_part(m.plain_body@, None),
    }
}

/// The `multipart/mixed` body: the text (or alternative) part, the attachments, the closing
/// boundary.
pub open spec fn mixed_body(m: MimeMessage, mixed: Seq<char>, alt: Seq<char>) -> Seq<char> {
    "Content-Type: multipart/mixed; boundary=\""@ + mixed + "\"\r\n\r\n"@ + "--"@ + mixed + crlf()
        + mixed_first_part(m, alt) + attachment_parts(m.attachments@, mixed) + "--"@ + mixed + "--\r\n"@
}

/// The message body after the headers.
pub open spec fn mime_body(m: MimeMessage, mixed: Seq<char>, alt: Seq<char>) -> Seq<char> {
    if m.attachments@.len() > 0 {
        mixed_body(m, mixed, alt)
    } else {
        match m.html_body {
            Some(h) => alternative_body(m.plain_body@, h@, alt),
            None => "Content-Type: text/plain; charset=UTF-8\r\n\r\n"@ + m.plain_body@ + crlf(),
        }
    }
}

/// The complete MIME message. Boundaries carry the process id.
pub open spec fn mime_text(m: MimeMessage, date: Seq<char>, pid: u32) -> Seq<char> {
    mime_headers(m, date) + mime_body(
        m,
        "----=_Part_Mixed_"@ + decimal(pid as nat),
        "----=_Part_Alt_"@ + decimal(pid as nat),
    )
}

/// The blind-copy recipients travel in the message: when there are any, the header block holds
/// the line `Bcc: ` with all of them joined by `, `, right after the end of the `To`/`Cc`
/// lines and right before the `Subject` and `Date` lines.
pub proof fn law_bcc_in_headers(m: MimeMessage, date: Seq<char>, pid: u32)
    requires
        m.bcc@.len() > 0,
    ensures
        exists|pre: Seq<char>, post: Seq<char>|
            mime_text(m, date, pid) == pre + ("\r\nBcc: "@ + join(views(m.bcc@), ", "@) + "\r\nSubject: "@
                + m.subject@ + "\r\nDate: "@ + date + "\r\n"@) + post,
{
    reveal_strlit("\r\n");
    reveal_strlit("\r\nBcc: ");
    reveal_strlit("Bcc: ");
    reveal_strlit("\r\nSubject: ");
    reveal_strlit("Subject: ");
    reveal_strlit("\r\nDate: ");
    reveal_strlit("Date: ");
    lemma_mime_parts(m, date, pid);
    let from_line = if m.from@.len() > 0 {
        "From: "@ + m.from@ + "\r\n"@
    } else {
        Seq::empty()
    };
    let head = from_line + address_line("To: "@, m.to@, false) + address_line("Cc: "@, m.cc@, true);
    assert(head == head.take(head.len() - 2) + "\r\n"@) by {
        assert(crlf() == "\r\n"@);
        if m.cc@.len() > 0 {
            assert(head =~= from_line + address_line("To: "@, m.to@, false) + ("Cc: "@ + join(views(m.cc@), ", "@))
                + "\r\n"@);
        } else {
            assert(head =~= from_line + ("To: "@ + join(views(m.to@), ", "@)) + "\r\n"@);
        }
        assert(head =~= head.take(head.len() - 2) + "\r\n"@);
    }
    let pre = head.take(head.len() - 2);
    let bcc = join(views(m.bcc@), ", "@);
    assert(crlf() == "\r\n"@);
    assert(address_line("Bcc: "@, m.bcc@, true) == "Bcc: "@ + bcc + "\r\n"@);
    let body = mime_body(
        m,
        "----=_Part_Mixed_"@ + decimal(pid as nat),
        "----=_Part_Alt_"@ + decimal(pid as nat),
    );
    let post = "MIME-Version: 1.0\r\n"@ + body;
    let lines = "Subject: "@ + m.subject@ + "\r\n"@ + "Date: "@ + date + "\r\n"@ + "MIME-Version: 1.0\r\n"@;
    assert(mime_text(m, date, pid) == head + ("Bcc: "@ + bcc + "\r\n"@) + lines + body);
    assert(head + ("Bcc: "@ + bcc + "\r\n"@) + lines + body =~= pre + ("\r\nBcc: "@ + bcc + "\r\nSubject: "@
        + m.subject@ + "\r\nDate: "@ + date + "\r\n"@) + post);
}

/// The parts of the message text: the header lines one after the other, then the body.
proof fn lemma_mime_parts(m: MimeMessage, date: Seq<char>, pid: u32)
    ensures
        mime_text(m, date, pid) == (if m.from@.len() > 0 {
            "From: "@ + m.from@ + "\r\n"@
        } else {
            Seq::empty()
        }) + address_line("To: "@, m.to@, false) + address_line("Cc: "@, m.cc@, true) + address_line(
            "Bcc: "@,
            m.bcc@,
            true,
        ) + ("Subject: "@ + m.subject@ + "\r\n"@ + "Date: "@ + date + "\r\n"@ + "MIME-Version: 1.0\r\n"@)
            + mime_body(m, "----=_Part_Mixed_"@ + decimal(pid as nat), "----=_Part_Alt_"@ + decimal(pid as nat)),
{
}

/// A message from a sender starts with the line `From: ` and the sender.
pub proof fn law_from_line(m: MimeMessage, date: Seq<char>, pid: u32)
    requires
        m.from@.len() > 0,
    ensures
        mime_text(m, date, pid).take(m.from@.len() + 8int) == "From: "@ + m.from@ + "\r\n"@,
{
    reveal_strlit("\r\n");
    reveal_strlit("From: ");
    lemma_mime_parts(m, date, pid);
    let f = "From: "@ + m.from@ + "\r\n"@;
    let text = mime_text(m, date, pid);
    assert(text.take(f.len() as int) =~= f);
}

/// The `To` line lists every recipient, joined by `, `.
pub proof fn law_to_line(m: MimeMessage, date: Seq<char>, pid: u32)
    ensures
        exists|pre: Seq<char>, post: Seq<char>|
            mime_text(m, date, pid) == pre + ("To: "@ + join(views(m.to@), ", "@) + "\r\n"@) + post,
{
    lemma_mime_parts(m, date, pid);
    let from_line = if m.from@.len() > 0 {
        "From: "@ + m.from@ + "\r\n"@
    } else {
        Seq::empty()
    };
    let post = address_line("Cc: "@, m.cc@, true) + address_line("Bcc: "@, m.bcc@, true) + ("Subject: "@
        + m.subject@ + "\r\n"@ + "Date: "@ + date + "\r\n"@ + "MIME-Version: 1.0\r\n"@) + mime_body(
        m,
        "----=_Part_Mixed_"@ + decimal(pid as nat),
        "----=_Part_Alt_"@ + decimal(pid as nat),
    );
    assert(crlf() == "\r\n"@);
    assert(mime_text(m, date, pid) =~= from_line + ("To: "@ + join(views(m.to@), ", "@) + "\r\n"@) + post);
}

/// A non-empty copy list has its `Cc` line with every address, joined by `, `.
pub proof fn law_cc_line(m: MimeMessage, date: Seq<char>, pid: u32)
    requires
        m.cc@.len() > 0,
    ensures
        exists|pre: Seq<char>, post: Seq<char>|
            mime_text(m, date, pid) == pre + ("Cc: "@ + join(views(m.cc@), ", "@) + "\r\n"@) + post,
{
    lemma_mime_parts(m, date, pid);
    let from_line = if m.from@.len() > 0 {
        "From: "@ + m.from@ + "\r\n"@
    } else {
        Seq::empty()
    };
    let pre = from_line + address_line("To: "@, m.to@, false);
    let post = address_line("Bcc: "@, m.bcc@, true) + ("Subject: "@ + m.subject@ + "\r\n"@ + "Date: "@ + date
        + "\r\n"@ + "MIME-Version: 1.0\r\n"@) + mime_body(
        m,
        "----=_Part_Mixed_"@ + decimal(pid as nat),
        "----=_Part_Alt_"@ + decimal(pid as nat),
    );
    assert(crlf() == "\r\n"@);
    assert(mime_text(m, date, pid) =~= pre + ("Cc: "@ + join(views(m.cc@), ", "@) + "\r\n"@) + post);
}

/// The address lines of a message.
pub open spec fn address_lines(m: MimeMessage) -> Seq<char> {
    (if m.from@.len() > 0 {
        "From: "@ + m.from@ + "\r\n"@
    } else {
        Seq::empty()
    }) + address_line("To: "@, m.to@, false) + address_line("Cc: "@, m.cc@, true) + address_line(
        "Bcc: "@,
        m.bcc@,
        true,
    )
}

proof fn lemma_address_lines_end(m: MimeMessage)
    ensures
        address_lines(m).len() >= 2,
        address_lines(m) == address_lines(m).take(address_lines(m).len() - 2) + "\r\n"@,
{
    reveal_strlit("\r\n");
    let head = address_lines(m);
    let from_line = if m.from@.len() > 0 {
        "From: "@ + m.from@ + "\r\n"@
    } else {
        Seq::empty()
    };
    assert(crlf() == "\r\n"@);
    if m.bcc@.len() > 0 {
        assert(head =~= from_line + address_line("To: "@, m.to@, false) + address_line("Cc: "@, m.cc@, true)
            + ("Bcc: "@ + join(views(m.bcc@), ", "@)) + "\r\n"@);
    } else if m.cc@.len() > 0 {
        assert(head =~= from_line + address_line("To: "@, m.to@, false) + ("Cc: "@ + join(views(m.cc@), ", "@))
            + "\r\n"@);
    } else {
        assert(head =~= from_line + ("To: "@ + join(views(m.to@), ", "@)) + "\r\n"@);
    }
    assert(head =~= head.take(head.len() - 2) + "\r\n"@);
}

/// After the address lines come the subject, the date and the MIME version, each on its line.
pub proof fn law_subject_date_lines(m: MimeMessage, date: Seq<char>, pid: u32)
    ensures
        exists|pre: Seq<char>, post: Seq<char>|
            mime_text(m, date, pid) == pre + ("\r\nSubject: "@ + m.subject@ + "\r\nDate: "@ + date
                + "\r\nMIME-Version: 1.0\r\n"@) + post,
{
    reveal_strlit("\r\n");
    reveal_strlit("Subject: ");
    reveal_strlit("\r\nSubject: ");
    reveal_strlit("\r\nDate: ");
    reveal_strlit("Date: ");
    reveal_strlit("MIME-Version: 1.0\r\n");
    reveal_strlit("\r\nMIME-Version: 1.0\r\n");
    lemma_mime_parts(m, date, pid);
    lemma_address_lines_end(m);
    let head = address_lines(m);
    let body = mime_body(
        m,
        "----=_Part_Mixed_"@ + decimal(pid as nat),
        "----=_Part_Alt_"@ + decimal(pid as nat),
    );
    let pre = head.take(head.len() - 2);
    let lines = "Subject: "@ + m.subject@ + "\r\n"@ + "Date: "@ + date + "\r\n"@ + "MIME-Version: 1.0\r\n"@;
    assert(mime_text(m, date, pid) == head + lines + body);
    assert(head + lines + body =~= pre + ("\r\nSubject: "@ + m.subject@ + "\r\nDate: "@ + date
        + "\r\nMIME-Version: 1.0\r\n"@) + body);
}

/// With no copies and no blind copies the subject line follows the `To` line directly.
pub proof fn law_subject_after_to(m: MimeMessage, date: Seq<char>, pid: u32)
    requires
        m.bcc@.len() == 0,
        m.cc@.len() == 0,
    ensures
        exists|pre: Seq<char>, post: Seq<char>|
            mime_text(m, date, pid) == pre + ("To: "@ + join(views(m.to@), ", "@) + "\r\nSubject: "@) + post,
{
    reveal_strlit("\r\n");
    reveal_strlit("Subject: ");
    reveal_strlit("\r\nSubject: ");
    lemma_mime_parts(m, date, pid);
    let from_line = if m.from@.len() > 0 {
        "From: "@ + m.from@ + "\r\n"@
    } else {
        Seq::empty()
    };
    let body = mime_body(
        m,
        "----=_Part_Mixed_"@ + decimal(pid as nat),
        "----=_Part_Alt_"@ + decimal(pid as nat),
    );
    assert(crlf() == "\r\n"@);
    let rest = m.subject@ + "\r\n"@ + "Date: "@ + date + "\r\n"@ + "MIME-Version: 1.0\r\n"@ + body;
    assert(mime_text(m, date, pid) =~= from_line + ("To: "@ + join(views(m.to@), ", "@) + "\r\nSubject: "@) + rest);
}

/// Appends a text part.
pub fn append_text_part(msg: &mut String, plain_text: &str, boundary: Option<&str>)
    ensures
        final(msg)@ == old(msg)@ + text_part(
            plain_text@,
            match boundary {
                Some(b) => Some(b@),
                None => None,
            },
        ),
{
    if let Some(b) = boundary {
        msg.append("--");
        msg.append(b);
        msg.append("\r\n");
    }
    msg.append("Content-Type: text/plain; charset=UTF-8\r\n\r\n");
    msg.append(plain_text);
    msg.append("\r\n");
}

/// Appends an HTML part.
pub fn append_html_part(msg: &mut String, html: &str, boundary: Option<&str>)
    ensures
        final(msg)@ == old(msg)@ + html_part(
            html@,
            match boundary {
                Some(b) => Some(b@),
                None => None,
            },
        ),
{
    if let Some(b) = boundary {
        msg.append("--");
        msg.append(b);
        msg.append("\r\n");
    }
    msg.append("Content-Type: text/html; charset=UTF-8\r\n\r\n");
    msg.append(html);
    msg.append("\r\n");
}

fn append_joined(msg: &mut String, items: &Vec<String>)
    ensures
        final(msg)@ == old(msg)@ + join(views(items@), ", "@),
{
    let ghost start = msg@;
    let ghost v = views(items@);
    if items.len() == 0 {
        return;
    }
    msg.append(items[0].as_str());
    assert(v.take(1) =~= seq![v[0]]);
    for i in 1..items.len()
        invariant
            items.len() >= 1,
            v == views(items@),
            msg@ == start + join(v.take(i as int), ", "@),
    {
        msg.append(", ");
        msg.append(items[i].as_str());
        assert(v.take(i + 1).drop_last() =~= v.take(i as int));
    }
    assert(v.take(items.len() as int) =~= v);
}

fn append_wrapped(msg: &mut String, s: &Vec<char>)
    ensures
        final(msg)@ == old(msg)@ + wrap76(s@),
{
    let ghost start = msg@;
    let n = s.len();
    let mut i: usize = 0;
    assert(s@.skip(0) == s@);
    while i < n
        invariant
            i <= n == s@.len(),
            start + wrap76(s@) == msg@ + wrap76(s@.skip(i as int)),
        decreases n - i,
    {
        let end = if n - i > 76 {
            i + 76
        } else {
            n
        };
        let line = crate::text::slice_chars(s, i, end);
        let ghost before = msg@;
        push_chars(msg, &line);
        msg.append("\r\n");
        proof {
            let rest = s@.skip(i as int);
            if rest.len() > 76 {
                assert(rest.take(76) == line@);
                assert(rest.skip(76) == s@.skip(end as int));
            } else {
                assert(rest == line@);
                assert(s@.skip(end as int).len() == 0);
            }
        }
        i = end;
    }
    assert(s@.skip(n as int).len() == 0);
}

fn append_attachment(msg: &mut String, a: &Attachment, boundary: &str)
    ensures
        final(msg)@ == old(msg)@ + attachment_part(*a, boundary@),
{
    msg.append("--");
    msg.append(boundary);
    msg.append("\r\n");
    msg.append("Content-Type: ");
    msg.append(a.content_type.as_str());
    msg.append("; name=\"");
    msg.append(a.name.as_str());
    msg.append("\"");
    msg.append("\r\n");
    msg.append("Content-Disposition: attachment; filename=\"");
    msg.append(a.name.as_str());
    msg.append("\"");
    msg.append("\r\n");
    msg.append("Content-Transfer-Encoding: base64\r\n\r\n");
    let b = base64_encode(a.bytes.as_slice());
    append_wrapped(msg, &chars_of(b.as_str()));
}

fn append_alternative(msg: &mut String, plain: &str, html: &str, alt: &str)
    ensures
        final(msg)@ == old(msg)@ + alternative_body(plain@, html@, alt@),
{
    msg.append("Content-Type: multipart/alternative; boundary=\"");
    msg.append(alt);
    msg.append("\"\r\n\r\n");
    append_text_part(msg, plain, Some(alt));
    append_html_part(msg, html, Some(alt));
    msg.append("--");
    msg.append(alt);
    msg.append("--\r\n");
}

/// One address header line, omitted when `optional` and the list is empty.
pub open spec fn address_line(label: Seq<char>, items: Seq<String>, optional: bool) -> Seq<char> {
    if optional && items.len() == 0 {
        Seq::empty()
    } else {
        label + join(views(items), ", "@) + crlf()
    }
}

fn append_address_line(msg: &mut String, label: &str, items: &Vec<String>, optional: bool)
    ensures
        final(msg)@ == old(msg)@ + address_line(label@, items@, optional),
{
    if optional && items.len() == 0 {
        assert(old(msg)@ + address_line(label@, items@, optional) =~= old(msg)@);
        return;
    }
    let ghost start = msg@;
    msg.append(label);
    append_joined(msg, items);
    msg.append("\r\n");
    assert(msg@ =~= start + (label@ + join(views(items@), ", "@) + crlf()));
}

#[verifier::spinoff_prover]
fn append_headers(msg: &mut String, m: &MimeMessage, date: &str)
    ensures
        final(msg)@ == old(msg)@ + mime_headers(*m, date@),
{
    let ghost start = msg@;
    let ghost from_part = if m.from@.len() > 0 {
        "From: "@ + m.from@ + crlf()
    } else {
        Seq::empty()
    };
    if !m.from.as_str().is_empty() {
        msg.append("From: ");
        msg.append(m.from.as_str());
        msg.append("\r\n");
    }
    assert(msg@ =~= start + from_part);
    append_address_line(msg, "To: ", &m.to, false);
    append_address_line(msg, "Cc: ", &m.cc, true);
    append_address_line(msg, "Bcc: ", &m.bcc, true);
    let ghost d = msg@;
    let ghost tail = "Subject: "@ + m.subject@ + crlf() + "Date: "@ + date@ + crlf() + "MIME-Version: 1.0\r\n"@;
    msg.append("Subject: ");
    msg.append(m.subject.as_str());
    msg.append("\r\n");
    msg.append("Date: ");
    msg.append(date);
    msg.append("\r\n");
    msg.append("MIME-Version: 1.0\r\n");
    assert(msg@ =~= d + tail);
}

#[verifier::spinoff_prover]
fn append_mixed(msg: &mut String, m: &MimeMessage, mixed: &str, alt: &str)
    ensures
        final(msg)@ == old(msg)@ + mixed_body(*m, mixed@, alt@),
{
    let ghost start = msg@;
    let ghost head = "Content-Type: multipart/mixed; boundary=\""@ + mixed@ + "\"\r\n\r\n"@ + "--"@ + mixed@ + crlf();
    let ghost first = mixed_first_part(*m, alt@);
    msg.append("Content-Type: multipart/mixed; boundary=\"");
    msg.append(mixed);
    msg.append("\"\r\n\r\n");
    msg.append("--");
    msg.append(mixed);
    msg.append("\r\n");
    assert(msg@ =~= start + head);
    let ghost h0 = msg@;
    match &m.html_body {
        Some(h) => append_alternative(msg, m.plain_body.as_str(), h.as_str(), alt),
        None => append_text_part(msg, m.plain_body.as_str(), None),
    }
    assert(msg@ =~= h0 + first);
    let ghost before_atts = msg@;
    for i in 0..m.attachments.len()
        invariant
            msg@ == before_atts + attachment_parts(m.attachments@.take(i as int), mixed@),
    {
        append_attachment(msg, &m.attachments[i], mixed);
        assert(m.attachments@.take(i + 1).drop_last() == m.attachments@.take(i as int));
    }
    assert(m.attachments@.take(m.attachments.len() as int) == m.attachments@);
    let ghost e = msg@;
    msg.append("--");
    msg.append(mixed);
    msg.append("--\r\n");
    assert(msg@ =~= e + ("--"@ + mixed@ + "--\r\n"@));
    assert(mixed_body(*m, mixed@, alt@) =~= head + first + attachment_parts(m.attachments@, mixed@) + ("--"@ + mixed@ + "--\r\n"@));
    assert(msg@ =~= start + (head + first + attachment_parts(m.attachments@, mixed@) + ("--"@ + mixed@ + "--\r\n"@)));
}

/// Builds the MIME message of an email dated `date`; boundaries carry `pid`.
pub fn build_mime_message(m: &MimeMessage, date: &str, pid: u32) -> (r: String)
    ensures
        r@ == mime_text(*m, date@, pid),
{
    let mut msg = String::new();
    append_headers(&mut msg, m, date);
    let ghost head = msg@;
    let digits = decimal_chars(pid as u64);
    let mut mixed = String::from_str("----=_Part_Mixed_");
    push_chars(&mut mixed, &digits);
    let mut alt = String::from_str("----=_Part_Alt_");
    push_chars(&mut alt, &digits);
    if m.attachments.len() > 0 {
        append_mixed(&mut msg, m, mixed.as_str(), alt.as_str());
    } else {
        match &m.html_body {
            Some(h) => append_alternative(&mut msg, m.plain_body.as_str(), h.as_str(), alt.as_str()),
            None => {
                msg.append("Content-Type: text/plain; charset=UTF-8\r\n\r\n");
                msg.append(m.plain_body.as_str());
                msg.append("\r\n");
            },
        }
    }
    assert(msg@ == head + mime_body(*m, mixed@, alt@));
    msg
}

/// The only configured Email profile, used when the command names none.
pub fn only_email_profile(cfg: &Config) -> (r: Option<String>)
    ensures
        email_entries(cfg.email).len() == 1 <==> r is Some,
        r matches Some(n) ==> n@ == email_entries(cfg.email)[0].0,
{
    if email_map_len(&cfg.email) == 1 {
        match email_map_get_index(&cfg.email, 0) {
            Some((k, _)) => Some(k.clone()),
            None => None,
        }
    } else {
        None
    }
}

/// Where the body of an email comes from.
pub enum BodySource {
    Stdin,
    Inline(String),
    File(String),
}

/// The error when no body is given.
pub open spec fn no_body_error() -> ErrorView {
    ErrorView {
        code: ErrorCode::InvalidInput,
        message: "No email body provided."@,
        detail: None,
        remediation: Some("Provide email content via stdin, --body \"...\", or --file <path>."@),
    }
}

/// The body comes from piped standard input first, then `--body`, then `--file`; none of
/// them is an `invalid_input` error.
pub fn body_source(stdin_piped: bool, body: Option<String>, file: Option<String>) -> (r: Result<BodySource, Error>)
    ensures
        stdin_piped ==> (r matches Ok(BodySource::Stdin)),
        !stdin_piped && body is Some ==> (r matches Ok(BodySource::Inline(b)) && b == body->0),
        !stdin_piped && body is None && file is Some ==> (r matches Ok(BodySource::File(f)) && f == file->0),
        !stdin_piped && body is None && file is None ==> (r matches Err(e) && e@ == no_body_error()),
{
    if stdin_piped {
        Ok(BodySource::Stdin)
    } else if let Some(b) = body {
        Ok(BodySource::Inline(b))
    } else if let Some(f) = file {
        Ok(BodySource::File(f))
    } else {
        Err(Error::invalid("No email body provided.").fix("Provide email content via stdin, --body \"...\", or --file <path>."))
    }
}

/// The error when standard input cannot be read.
pub fn stdin_read_error(reason: &str) -> (r: Error)
    ensures
        r@ == crate::error::plain_error(ErrorCode::InvalidInput, "Could not read from stdin: "@ + reason@),
{
    let mut m = String::from_str("Could not read from stdin: ");
    m.append(reason);
    Error::invalid(m.as_str())
}

/// The error when the body file cannot be read.
pub fn body_file_error(path: &str, reason: &str) -> (r: Error)
    ensures
        r@ == crate::error::plain_error(ErrorCode::InvalidInput, "Could not read body file '"@ + path@ + "': "@ + reason@),
{
    let mut m = String::from_str("Could not read body file '");
    m.append(path);
    m.append("': ");
    m.append(reason);
    Error::invalid(m.as_str())
}

/// Adds each default address that is not already in the list.
pub open spec fn merge_defaults(list: Seq<Seq<char>>, defaults: Seq<Seq<char>>) -> Seq<Seq<char>>
    decreases defaults.len(),
{
    if defaults.len() == 0 {
        list
    } else {
        let acc = merge_defaults(list, defaults.drop_last());
        if acc.contains(defaults.last()) {
            acc
        } else {
            acc.push(defaults.last())
        }
    }
}

/// The profile's default copies are merged into the given ones: the given addresses stay
/// first, as they were; every default address ends up in the list; what is added is a default
/// that was not there yet, each once.
pub proof fn law_merge_defaults(list: Seq<Seq<char>>, defaults: Seq<Seq<char>>)
    ensures
        merge_defaults(list, defaults).len() >= list.len(),
        merge_defaults(list, defaults).take(list.len() as int) == list,
        forall|x: Seq<char>| defaults.contains(x) ==> #[trigger] merge_defaults(list, defaults).contains(x),
        forall|i: int| list.len() <= i < merge_defaults(list, defaults).len() ==> defaults.contains(
            #[trigger] merge_defaults(list, defaults)[i],
        ) && !list.contains(merge_defaults(list, defaults)[i]),
        forall|i: int, j: int| list.len() <= i < j < merge_defaults(list, defaults).len() ==> #[trigger] merge_defaults(
            list,
            defaults,
        )[i] != #[trigger] merge_defaults(list, defaults)[j],
    decreases defaults.len(),
{
    if defaults.len() > 0 {
        let d = defaults.drop_last();
        let x = defaults.last();
        law_merge_defaults(list, d);
        let acc = merge_defaults(list, d);
        let r = merge_defaults(list, defaults);
        assert forall|y: Seq<char>| defaults.contains(y) implies #[trigger] r.contains(y) by {
            let k = choose|k: int| 0 <= k < defaults.len() && defaults[k] == y;
            if k < d.len() {
                assert(d[k] == y);
                assert(acc.contains(y));
                let m = choose|m: int| 0 <= m < acc.len() && acc[m] == y;
                assert(r[m] == y);
            } else {
                assert(y == x);
                if acc.contains(x) {
                } else {
                    assert(r[acc.len() as int] == x);
                }
            }
        }
        assert forall|i: int| list.len() <= i < r.len() implies defaults.contains(#[trigger] r[i]) && !list.contains(
            r[i],
        ) by {
            if i < acc.len() {
                assert(r[i] == acc[i]);
                let k = choose|k: int| 0 <= k < d.len() && d[k] == acc[i];
                assert(defaults[k] == d[k]);
            } else {
                assert(r[i] == x);
                assert(defaults[defaults.len() - 1] == x);
                if list.contains(x) {
                    let m = choose|m: int| 0 <= m < list.len() && list[m] == x;
                    assert(acc.take(list.len() as int)[m] == x);
                    assert(acc[m] == x);
                }
            }
        }
        assert forall|i: int, j: int| list.len() <= i < j < r.len() implies #[trigger] r[i] != #[trigger] r[j] by {
            if j < acc.len() {
                assert(r[i] == acc[i] && r[j] == acc[j]);
            } else {
                assert(r[j] == x);
                assert(r[i] == acc[i]);
                assert(!acc.contains(x));
            }
        }
        assert(r.take(list.len() as int) =~= acc.take(list.len() as int));
    } else {
        assert(list.take(list.len() as int) =~= list);
    }
}

fn contains_string(v: &Vec<String>, x: &String) -> (r: bool)
    ensures
        r == views(v@).contains(x@),
{
    for j in 0..v.len()
        invariant
            forall|k: int| 0 <= k < j ==> v@[k]@ != x@,
    {
        if v[j] == *x {
            assert(views(v@)[j as int] == x@);
            return true;
        }
    }
    assert(!views(v@).contains(x@)) by {
        if views(v@).contains(x@) {
            let k = choose|k: int| 0 <= k < views(v@).len() && views(v@)[k] == x@;
            assert(v@[k]@ == x@);
        }
    }
    false
}

fn merge_defaults_exec(list: &mut Vec<String>, defaults: &Vec<String>)
    ensures
        views(final(list)@) == merge_defaults(views(old(list)@), views(defaults@)),
{
    let ghost start = views(list@);
    assert(views(defaults@).take(0) =~= Seq::<Seq<char>>::empty());
    for i in 0..defaults.len()
        invariant
            views(list@) == merge_defaults(start, views(defaults@).take(i as int)),
    {
        proof {
            assert(views(defaults@).take(i + 1).drop_last() =~= views(defaults@).take(i as int));
            assert(views(defaults@).take(i + 1).last() == defaults@[i as int]@);
        }
        if !contains_string(list, &defaults[i]) {
            let ghost before = list@;
            list.push(defaults[i].clone());
            assert(views(list@) =~= views(before).push(defaults@[i as int]@));
        }
    }
    assert(views(defaults@).take(defaults.len() as int) =~= views(defaults@));
}

/// The validated header fields of an email.
pub struct EmailFields {
    pub subject: String,
    pub to: Vec<String>,
    pub cc: Vec<String>,
    pub bcc: Vec<String>,
}

/// The recipients before the profile's default recipient is considered.
pub open spec fn to_list(args_to: Seq<Seq<char>>, default_to: Option<Seq<char>>) -> Seq<Seq<char>> {
    let l = expand(args_to);
    if l.len() == 0 {
        match default_to {
            Some(d) => seq![d],
            None => l,
        }
    } else {
        l
    }
}

/// The profile's default recipient, if any.
pub open spec fn profile_default_to(p: Option<ResolvedEmailProfile>) -> Option<Seq<char>> {
    match p {
        Some(x) => match x.default_to {
            Some(d) => Some(d@),
            None => None,
        },
        None => None,
    }
}

/// The profile's default CC (or BCC) list.
pub open spec fn profile_defaults(p: Option<ResolvedEmailProfile>, bcc: bool) -> Seq<Seq<char>> {
    match p {
        Some(x) => views(if bcc { x.default_bcc@ } else { x.default_cc@ }),
        None => Seq::empty(),
    }
}

/// Validates subject and recipients: a non-blank subject is required; the `--to` addresses
/// (else the profile's default recipient) must not be empty; the profile's default CC and BCC
/// addresses are added to `--cc` and `--bcc` when missing.
pub fn email_fields(args: &EmailArgs, profile: &Option<ResolvedEmailProfile>) -> (r: Result<EmailFields, Error>)
    ensures
        ({
            let subject_ok = args.subject matches Some(s) && trim(s@).len() > 0;
            let to = to_list(views(args.to@), profile_default_to(*profile));
            if !subject_ok {
                r matches Err(e) && e@ == crate::error::plain_error(ErrorCode::InvalidInput, "Email subject is required (--subject)."@)
            } else if to.len() == 0 {
                r matches Err(e) && e@ == crate::error::plain_error(ErrorCode::InvalidInput, "At least one recipient (--to) is required."@)
            } else {
                &&& r matches Ok(f)
                &&& f.subject == args.subject->0
                &&& views(f.to@) == to
                &&& views(f.cc@) == merge_defaults(expand(views(args.cc@)), profile_defaults(*profile, false))
                &&& views(f.bcc@) == merge_defaults(expand(views(args.bcc@)), profile_defaults(*profile, true))
            }
        }),
{
    let subject = match &args.subject {
        Some(s) => {
            if trim_chars(&chars_of(s.as_str())).len() == 0 {
                return Err(Error::invalid("Email subject is required (--subject)."));
            }
            s.clone()
        },
        None => {
            return Err(Error::invalid("Email subject is required (--subject)."));
        },
    };
    let mut to = expand_recipients(&args.to);
    if to.len() == 0 {
        if let Some(p) = profile {
            if let Some(d) = &p.default_to {
                let ghost before = to@;
                to.push(d.clone());
                assert(views(to@) =~= seq![d@]);
            }
        }
    }
    if to.len() == 0 {
        return Err(Error::invalid("At least one recipient (--to) is required."));
    }
    let mut cc = expand_recipients(&args.cc);
    let mut bcc = expand_recipients(&args.bcc);
    match profile {
        Some(p) => {
            merge_defaults_exec(&mut cc, &p.default_cc);
            merge_defaults_exec(&mut bcc, &p.default_bcc);
        },
        None => {
            assert(merge_defaults(views(cc@), Seq::empty()) == views(cc@));
            assert(merge_defaults(views(bcc@), Seq::empty()) == views(bcc@));
        },
    }
    Ok(EmailFields { subject, to, cc, bcc })
}

/// The largest attachment accepted, in bytes.
pub const MAX_ATTACHMENT_BYTES: u64 = 26214400;

/// Checks an attachment before it is read: it must be a file and at most 25 MB.
pub fn check_attachment(path: &str, is_file: bool, size: u64) -> (r: Result<(), Error>)
    ensures
        !is_file ==> (r matches Err(e) && e@ == crate::error::plain_error(ErrorCode::InvalidInput, "Attachment file not found: "@ + path@)),
        is_file && size > MAX_ATTACHMENT_BYTES ==> (r matches Err(e) && e@ == crate::error::plain_error(
            ErrorCode::InvalidInput,
            "Attachment '"@ + path@ + "' is too large ("@ + decimal(size as nat) + " bytes). Maximum allowed is 25MB."@,
        )),
        is_file && size <= MAX_ATTACHMENT_BYTES ==> r is Ok,
{
    if !is_file {
        let mut m = String::from_str("Attachment file not found: ");
        m.append(path);
        return Err(Error::invalid(m.as_str()));
    }
    if size > MAX_ATTACHMENT_BYTES {
        let mut m = String::from_str("Attachment '");
        m.append(path);
        m.append("' is too large (");
        push_chars(&mut m, &decimal_chars(size));
        m.append(" bytes). Maximum allowed is 25MB.");
        return Err(Error::invalid(m.as_str()));
    }
    Ok(())
}

/// An attachment from a file path and its contents: named by the path's file name (else
/// `attachment`), typed by its extension.
pub fn attachment_from(path: &str, bytes: Vec<u8>) -> (r: Attachment)
    ensures
        r.name@ == match file_name(path@) {
            Some(n) => n,
            None => "attachment"@,
        },
        r.content_type@ == mime_type_of(path@),
        r.bytes@ == bytes@,
{
    let name = match file_name_of(path) {
        Some(n) => n,
        None => String::from_str("attachment"),
    };
    Attachment { name, content_type: String::from_str(mime_type_for(path)), bytes }
}

/// The plain-text body and the HTML body of an email body: HTML is sent with its text
/// conversion as alternative; `None` where the conversion would panic.
pub open spec fn body_parts(body: Seq<char>) -> Option<(Seq<char>, Option<Seq<char>>)> {
    if is_html(body) {
        match html_to_plain(body) {
            Some(p) => Some((p, Some(body))),
            None => None,
        }
    } else {
        Some((body, None))
    }
}

/// Composes the message: detects HTML and derives its plain-text alternative, dates the
/// message with the current time, builds the MIME text and encodes it as URL-safe Base64.
/// `None` exactly where deriving the plain text would panic (see [`html_to_plain`]).
pub fn compose_email(fields: EmailFields, from: &str, body: String, attachments: Vec<Attachment>, pid: u32) -> (r: Option<(MimeMessage, String)>)
    ensures
        match body_parts(body@) {
            None => r is None,
            Some((plain, html)) => r matches Some((m, raw)) && {
                &&& m.from@ == from@
                &&& m.to == fields.to
                &&& m.cc == fields.cc
                &&& m.bcc == fields.bcc
                &&& m.subject == fields.subject
                &&& m.plain_body@ == plain
                &&& (match m.html_body {
                    Some(h) => html == Some(h@),
                    None => html is None,
                })
                &&& m.attachments == attachments
                &&& exists|date: Seq<char>, secs: i64| is_utc_text_of(date, secs as int)
                    && raw@ == b64url(encode_utf8(mime_text(m, date, pid)))
            },
        },
{
    let html = is_html_content(body.as_str());
    let (plain, html_body) = if html {
        match convert_html_to_plain(body.as_str()) {
            Some(p) => (p, Some(body)),
            None => {
                return None;
            },
        }
    } else {
        (body, None)
    };
    let m = MimeMessage {
        from: String::from_str(from),
        to: fields.to,
        cc: fields.cc,
        bcc: fields.bcc,
        subject: fields.subject,
        plain_body: plain,
        html_body,
        attachments,
    };
    let date = now_utc();
    let text = build_mime_message(&m, date.as_str(), pid);
    let raw = base64_url_encode(text.as_str().as_bytes());
    Some((m, raw))
}

/// The token chosen for the Gmail API: a non-blank `--token`, else the token from the
/// environment, else the profile's stored secret; `None` when there is none of them.
pub fn choose_token(arg: Option<String>, env: Option<String>, profile_secret: Option<String>) -> (r: Option<String>)
    ensures
        r == if arg matches Some(t) && trim(t@).len() > 0 {
            arg
        } else if env is Some {
            env
        } else {
            profile_secret
        },
{
    if let Some(t) = &arg {
        if trim_chars(&chars_of(t.as_str())).len() > 0 {
            return arg;
        }
    }
    if env.is_some() {
        env
    } else {
        profile_secret
    }
}

/// The error when no Gmail credential can be found.
pub open spec fn no_credential_error(profile: Seq<char>, path: Seq<char>) -> ErrorView {
    ErrorView {
        code: ErrorCode::AuthRequired,
        message: "No Gmail access token or credentials found for profile '"@ + profile + "'."@,
        detail: Some("Expected user credential at '"@ + path + "' or secret in keystore."@),
        remediation: Some("Configure Gmail OAuth credentials or pass --token <token>."@),
    }
}

/// The stored credential for a profile: the access token of its credential file, else the
/// keystore secret, else a placeholder when a mock API endpoint is configured; else an
/// `auth_required` error naming the expected credential file.
pub fn credential_token(file_token: Option<String>, store_token: Option<String>, mock_endpoint: bool, profile: &str, credential_path: &str) -> (r: Result<String, Error>)
    ensures
        file_token is Some ==> r == Ok::<String, Error>(file_token->0),
        file_token is None && store_token is Some ==> r == Ok::<String, Error>(store_token->0),
        file_token is None && store_token is None && mock_endpoint ==> (r matches Ok(t) && t@ == "mock_test_token"@),
        file_token is None && store_token is None && !mock_endpoint ==> (r matches Err(e) && e@ == no_credential_error(profile@, credential_path@)),
{
    if let Some(t) = file_token {
        return Ok(t);
    }
    if let Some(t) = store_token {
        return Ok(t);
    }
    if mock_endpoint {
        return Ok(String::from_str("mock_test_token"));
    }
    let mut m = String::from_str("No Gmail access token or credentials found for profile '");
    m.append(profile);
    m.append("'.");
    let mut d = String::from_str("Expected user credential at '");
    d.append(credential_path);
    d.append("' or secret in keystore.");
    Err(Error::auth(m.as_str()).detail(d.as_str()).fix("Configure Gmail OAuth credentials or pass --token <token>."))
}

/// The string value of key `access_token` in a credential document, when the document is an
/// object holding one.
pub open spec fn access_token_of(doc: JsonView) -> Option<Seq<char>> {
    match doc {
        JsonView::Object(entries) => match crate::config::key_index(entries, "access_token"@) {
            Some(i) => match entries[i].1 {
                JsonView::Str(s) => Some(s),
                _ => None,
            },
            None => None,
        },
        _ => None,
    }
}

/// Reads the access token out of a parsed credential file.
pub fn access_token(doc: &Json) -> (r: Option<String>)
    ensures
        match access_token_of(doc@) {
            Some(t) => r matches Some(x) && x@ == t,
            None => r is None,
        },
{
    match doc {
        Json::Object(entries) => {
            let ghost ev = entries_view(entries@);
            proof {
                crate::json::lemma_object_view(*entries);
            }
            let key = String::from_str("access_token");
            assert(ev.skip(0) == ev);
            assert(doc@ == JsonView::Object(ev));
            for i in 0..entries.len()
                invariant
                    ev == entries_view(entries@),
                    doc@ == JsonView::Object(ev),
                    key@ == "access_token"@,
                    crate::config::key_index(ev, key@) == match crate::config::key_index(ev.skip(i as int), key@) {
                        Some(j) => Some(j + i),
                        None => None,
                    },
            {
                proof {
                    assert(ev.skip(i as int).drop_first() == ev.skip(i + 1));
                }
                if entries[i].0 == key {
                    assert(ev[i as int] == (entries@[i as int].0@, entries@[i as int].1@));
                    assert(ev.skip(i as int)[0] == ev[i as int]);
                    assert(crate::config::key_index(ev, key@) == Some(i as int));

                    return match &entries[i].1 {
                        Json::Str(s) => {
                            assert(entries@[i as int].1@ == JsonView::Str(s@));
                            Some(s.clone())
                        },
                        _ => {
                            assert(!(entries@[i as int].1@ is Str));
                            None
                        },
                    };
                }
            }
            assert(ev.skip(entries.len() as int).len() == 0);
            None
        },
        _ => None,
    }
}

/// The access token of a credential file, from its text: the string under `access_token` when
/// the text is a JSON object holding one.
pub fn credential_file_token(content: &str) -> (r: Option<String>)
    ensures
        match json_text_value(content@) {
            Some(doc) => match access_token_of(doc) {
                Some(t) => r matches Some(x) && x@ == t,
                None => r is None,
            },
            None => r is None,
        },
{
    match parse_json(content) {
        Ok(doc) => access_token(&doc),
        Err(_) => None,
    }
}

/// The API endpoint: `--endpoint`, else the profile's, else the environment's.
pub fn choose_endpoint(arg: Option<String>, profile_endpoint: Option<String>, env: Option<String>) -> (r: Option<String>)
    ensures
        r == if arg is Some {
            arg
        } else if profile_endpoint is Some {
            profile_endpoint
        } else {
            env
        },
{
    if arg.is_some() {
        arg
    } else if profile_endpoint.is_some() {
        profile_endpoint
    } else {
        env
    }
}

/// The email provider: `--provider`, else the profile's, else `gmail`.
pub fn choose_provider(arg: Option<String>, profile: &Option<ResolvedEmailProfile>) -> (r: String)
    ensures
        r@ == match arg {
            Some(a) => a@,
            None => match profile {
                Some(p) => p.provider@,
                None => "gmail"@,
            },
        },
{
    match arg {
        Some(a) => a,
        None => match profile {
            Some(p) => p.provider.clone(),
            None => String::from_str("gmail"),
        },
    }
}

/// The sender: the profile's address, else empty.
pub fn sender_of(profile: &Option<ResolvedEmailProfile>) -> (r: String)
    ensures
        r@ == match profile {
            Some(p) => p.from@,
            None => Seq::<char>::empty(),
        },
{
    match profile {
        Some(p) => p.from.clone(),
        None => String::new(),
    }
}

/// The report of a sent email (or a created draft).
pub open spec fn email_report(provider: Seq<char>, profile: Seq<char>, draft: bool, from: Seq<char>, m: MimeMessage, attachments: nat) -> JsonView {
    JsonView::Object(
        seq![
            ("status"@, JsonView::Str("ok"@)),
            ("provider"@, JsonView::Str(provider)),
            ("profile"@, JsonView::Str(profile)),
            ("action"@, JsonView::Str(if draft { "draft_created"@ } else { "sent"@ })),
            ("from"@, JsonView::Str(from)),
            ("to"@, JsonView::Array(str_views(m.to@))),
            ("cc"@, JsonView::Array(str_views(m.cc@))),
            ("bcc"@, JsonView::Array(str_views(m.bcc@))),
            ("subject"@, JsonView::Str(m.subject@)),
            ("attachments"@, JsonView::Number(decimal(attachments))),
        ],
    )
}

/// The report printed after an email was handed to the API; the profile is `direct` when
/// none was named.
pub fn email_record(provider: &str, profile_name: &Option<String>, draft: bool, from: &str, m: &MimeMessage) -> (r: Json)
    ensures
        r@ == email_report(
            provider@,
            match profile_name {
                Some(p) => p@,
                None => "direct"@,
            },
            draft,
            from@,
            *m,
            m.attachments@.len(),
        ),
{
    let mut v: Vec<(String, Json)> = Vec::new();
    push_entry(&mut v, "status", json_str("ok"));
    push_entry(&mut v, "provider", json_str(provider));
    let profile = match profile_name {
        Some(p) => json_str(p.as_str()),
        None => json_str("direct"),
    };
    push_entry(&mut v, "profile", profile);
    push_entry(&mut v, "action", json_str(if draft { "draft_created" } else { "sent" }));
    push_entry(&mut v, "from", json_str(from));
    push_entry(&mut v, "to", json_str_array(&m.to));
    push_entry(&mut v, "cc", json_str_array(&m.cc));
    push_entry(&mut v, "bcc", json_str_array(&m.bcc));
    push_entry(&mut v, "subject", json_str(m.subject.as_str()));
    push_entry(&mut v, "attachments", json_count(m.attachments.len()));
    let r = json_object(v);
    assert(entries_view(v@) =~= email_report(
            provider@,
            match profile_name {
                Some(p) => p@,
                None => "direct"@,
            },
            draft,
            from@,
            *m,
            m.attachments@.len(),
        )->Object_0);
    r
}

fn strip_tags_exec(s: &Vec<char>) -> (r: Vec<char>)
    ensures
        r@ == strip_tags(s@),
{
    let mut out: Vec<char> = Vec::new();
    let mut in_tag = false;
    for i in 0..s.len()
        invariant
            (out@, in_tag) == strip_tags_state(s@.take(i as int)),
    {
        let c = s[i];
        proof {
            assert(s@.take(i + 1).drop_last() == s@.take(i as int));
        }
        if c == '<' {
            in_tag = true;
        } else if c == '>' {
            in_tag = false;
        } else if !in_tag {
            out.push(c);
        }
    }
    assert(s@.take(s.len() as int) == s@);
    out
}

fn replace_lit(s: &Vec<char>, pat: &str, rep: &str) -> (r: Vec<char>)
    requires
        pat@.len() > 0,
    ensures
        r@ == replace_all(s@, pat@, rep@),
{
    replace_all_chars(s, &chars_of(pat), &chars_of(rep))
}

fn html_text_exec(s: &Vec<char>) -> (r: Vec<char>)
    ensures
        r@ == html_text(s@),
{
    proof {
        reveal_strlit("<br>");
        reveal_strlit("<br/>");
        reveal_strlit("<br />");
        reveal_strlit("</p>");
        reveal_strlit("</div>");
        reveal_strlit("</li>");
        reveal_strlit("<li>");
        reveal_strlit("&nbsp;");
        reveal_strlit("&amp;");
        reveal_strlit("&lt;");
        reveal_strlit("&gt;");
        reveal_strlit("&quot;");
        reveal_strlit("&#39;");
        reveal_strlit("&#x27;");
    }
    let s1 = replace_lit(s, "<br>", "\n");
    let s2 = replace_lit(&s1, "<br/>", "\n");
    let s3 = replace_lit(&s2, "<br />", "\n");
    let s4 = replace_lit(&s3, "</p>", "\n\n");
    let s5 = replace_lit(&s4, "</div>", "\n");
    let s6 = replace_lit(&s5, "</li>", "\n");
    let s7 = replace_lit(&s6, "<li>", "• ");
    let t = strip_tags_exec(&s7);
    let e1 = replace_lit(&t, "&nbsp;", " ");
    let e2 = replace_lit(&e1, "&amp;", "&");
    let e3 = replace_lit(&e2, "&lt;", "<");
    let e4 = replace_lit(&e3, "&gt;", ">");
    let e5 = replace_lit(&e4, "&quot;", "\"");
    let e6 = replace_lit(&e5, "&#39;", "'");
    let e7 = replace_lit(&e6, "&#x27;", "'");
    trim_chars(&e7)
}

} // verus!
