//! Text over characters: trimming, case, searching and replacing, decimal numbers.

use vstd::prelude::*;

verus! {

/// Appends one character to a `String` through `String::push`; the contract claims that the
/// text afterwards is the text before with `c` added at its end.
#[verifier::external_body]
pub(crate) fn push_char(s: &mut String, c: char)
    ensures
        final(s)@ == old(s)@.push(c),
{
    s.push(c);
}

/// The characters of `s`, in order.
pub fn chars_of(s: &str) -> (r: Vec<char>)
    ensures
        r@ == s@,
{
    let mut out: Vec<char> = Vec::new();
    for c in it: s.chars()
        invariant
            out@ == it.seq().take(it.index() as int),
            it.seq() == s@,
    {
        out.push(c);
    }
    out
}

/// A `String` holding exactly the given characters.
pub fn string_from_chars(v: &Vec<char>) -> (r: String)
    ensures
        r@ == v@,
{
    let mut out = String::new();
    for i in 0..v.len()
        invariant
            out@ == v@.take(i as int),
    {
        push_char(&mut out, v[i]);
        assert(v@.take(i + 1) == v@.take(i as int).push(v@[i as int]));
    }
    assert(v@.take(v.len() as int) == v@);
    out
}

/// Appends the given characters.
pub fn push_chars(out: &mut String, v: &Vec<char>)
    ensures
        final(out)@ == old(out)@ + v@,
{
    let ghost start = out@;
    for i in 0..v.len()
        invariant
            out@ == start + v@.take(i as int),
    {
        push_char(out, v[i]);
        assert(v@.take(i + 1) == v@.take(i as int).push(v@[i as int]));
    }
    assert(v@.take(v.len() as int) == v@);
}

/// Unicode `White_Space`, as `char::is_whitespace` decides it.
pub open spec fn is_ws(c: char) -> bool {
    let u = c as u32;
    (9 <= u <= 13) || u == 32 || u == 0x85 || u == 0xA0 || u == 0x1680 || (0x2000 <= u <= 0x200A)
        || u == 0x2028 || u == 0x2029 || u == 0x202F || u == 0x205F || u == 0x3000
}

/// `char::is_whitespace`.
pub fn is_ws_exec(c: char) -> (r: bool)
    ensures
        r == is_ws(c),
{
    let u = c as u32;
    (9 <= u && u <= 13) || u == 32 || u == 0x85 || u == 0xA0 || u == 0x1680 || (0x2000 <= u && u
        <= 0x200A) || u == 0x2028 || u == 0x2029 || u == 0x202F || u == 0x205F || u == 0x3000
}

/// Number of leading whitespace characters.
pub open spec fn lead_ws(s: Seq<char>) -> nat
    decreases s.len(),
{
    if s.len() > 0 && is_ws(s[0]) {
        1 + lead_ws(s.drop_first())
    } else {
        0
    }
}

/// Number of trailing whitespace characters.
pub open spec fn trail_ws(s: Seq<char>) -> nat
    decreases s.len(),
{
    if s.len() > 0 && is_ws(s.last()) {
        1 + trail_ws(s.drop_last())
    } else {
        0
    }
}

/// `s` without leading and trailing whitespace (`str::trim`).
pub open spec fn trim(s: Seq<char>) -> Seq<char> {
    let a = lead_ws(s);
    if a == s.len() {
        Seq::empty()
    } else {
        s.subrange(a as int, s.len() - trail_ws(s))
    }
}

proof fn lemma_lead_ws(s: Seq<char>, k: int)
    requires
        0 <= k <= s.len(),
        forall|i: int| 0 <= i < k ==> is_ws(#[trigger] s[i]),
        k == s.len() || !is_ws(s[k]),
    ensures
        lead_ws(s) == k,
    decreases k,
{
    if k > 0 {
        assert forall|i: int| 0 <= i < k - 1 implies is_ws(#[trigger] s.drop_first()[i]) by {
            assert(s.drop_first()[i] == s[i + 1]);
        }
        lemma_lead_ws(s.drop_first(), k - 1);
    }
}

proof fn lemma_trail_ws(s: Seq<char>, k: int)
    requires
        0 <= k <= s.len(),
        forall|i: int| s.len() - k <= i < s.len() ==> is_ws(#[trigger] s[i]),
        k == s.len() || !is_ws(s[s.len() - k - 1]),
    ensures
        trail_ws(s) == k,
    decreases k,
{
    if k > 0 {
        assert forall|i: int| s.len() - 1 - (k - 1) <= i < s.len() - 1 implies is_ws(
            #[trigger] s.drop_last()[i],
        ) by {
            assert(s.drop_last()[i] == s[i]);
        }
        lemma_trail_ws(s.drop_last(), k - 1);
    }
}

proof fn lemma_lead_ws_facts(s: Seq<char>)
    ensures
        lead_ws(s) <= s.len(),
        forall|i: int| 0 <= i < lead_ws(s) ==> is_ws(#[trigger] s[i]),
        lead_ws(s) < s.len() ==> !is_ws(s[lead_ws(s) as int]),
    decreases s.len(),
{
    if s.len() > 0 && is_ws(s[0]) {
        lemma_lead_ws_facts(s.drop_first());
        assert forall|i: int| 0 <= i < lead_ws(s) implies is_ws(#[trigger] s[i]) by {
            if i > 0 {
                assert(s[i] == s.drop_first()[i - 1]);
            }
        }
    }
}

proof fn lemma_trail_ws_facts(s: Seq<char>)
    ensures
        trail_ws(s) <= s.len(),
        forall|i: int| s.len() - trail_ws(s) <= i < s.len() ==> is_ws(#[trigger] s[i]),
        trail_ws(s) < s.len() ==> !is_ws(s[s.len() - trail_ws(s) - 1]),
    decreases s.len(),
{
    if s.len() > 0 && is_ws(s.last()) {
        lemma_trail_ws_facts(s.drop_last());
        assert forall|i: int| s.len() - trail_ws(s) <= i < s.len() implies is_ws(#[trigger] s[i]) by {
            if i < s.len() - 1 {
                assert(s[i] == s.drop_last()[i]);
            }
        }
    }
}

/// Trimming twice is trimming once; a trimmed string neither starts nor ends with whitespace.
pub proof fn law_trim_idempotent(s: Seq<char>)
    ensures
        trim(trim(s)) == trim(s),
        trim(s).len() > 0 ==> !is_ws(trim(s)[0]) && !is_ws(trim(s).last()),
{
    lemma_lead_ws_facts(s);
    lemma_trail_ws_facts(s);
    let t = trim(s);
    if lead_ws(s) < s.len() {
        let a = lead_ws(s) as int;
        let b = trail_ws(s) as int;
        assert(s.len() - b > a) by {
            if s.len() - b <= a {
                assert(is_ws(s[a]));
            }
        }
        assert(t[0] == s[a]);
        assert(t.last() == s[s.len() - b - 1]);
        lemma_lead_ws(t, 0);
        lemma_trail_ws(t, 0);
        assert(t.subrange(0, t.len() as int) == t);
    }
}

/// Every character of the trimmed text is a character of the text.
pub proof fn lemma_trim_within(s: Seq<char>)
    ensures
        forall|i: int| 0 <= i < trim(s).len() ==> s.contains(#[trigger] trim(s)[i]),
{
    lemma_lead_ws_facts(s);
    lemma_trail_ws_facts(s);
    let t = trim(s);
    if lead_ws(s) < s.len() {
        let a = lead_ws(s) as int;
        let b = trail_ws(s) as int;
        assert(s.len() - b > a) by {
            if s.len() - b <= a {
                assert(is_ws(s[a]));
            }
        }
        assert forall|i: int| 0 <= i < t.len() implies s.contains(#[trigger] t[i]) by {
            assert(t[i] == s[a + i]);
        }
    }
}

/// Whitespace appended to a text is trimmed away with the text's own trailing whitespace.
pub proof fn lemma_trim_trailing_ws(x: Seq<char>, w: Seq<char>)
    requires
        forall|i: int| 0 <= i < w.len() ==> is_ws(#[trigger] w[i]),
    ensures
        trim(x + w) == trim(x),
{
    let s = x + w;
    lemma_lead_ws_facts(x);
    lemma_trail_ws_facts(x);
    let a = lead_ws(x) as int;
    if a == x.len() {
        assert forall|i: int| 0 <= i < s.len() implies is_ws(#[trigger] s[i]) by {
            if i < x.len() {
                assert(s[i] == x[i]);
            } else {
                assert(s[i] == w[i - x.len()]);
            }
        }
        lemma_lead_ws(s, s.len() as int);
    } else {
        let b = trail_ws(x) as int;
        assert(x.len() - b > a) by {
            if x.len() - b <= a {
                assert(is_ws(x[a]));
            }
        }
        assert forall|i: int| 0 <= i < a implies is_ws(#[trigger] s[i]) by {
            assert(s[i] == x[i]);
        }
        assert(s[a] == x[a]);
        lemma_lead_ws(s, a);
        assert forall|i: int| s.len() - (b + w.len()) <= i < s.len() implies is_ws(#[trigger] s[i]) by {
            if i < x.len() {
                assert(s[i] == x[i]);
            } else {
                assert(s[i] == w[i - x.len()]);
            }
        }
        assert(s[s.len() - (b + w.len()) - 1] == x[x.len() - b - 1]);
        lemma_trail_ws(s, b + w.len());
        assert(trim(s) =~= trim(x));
    }
}

/// The characters `v[from..to]`.
pub fn slice_chars(v: &Vec<char>, from: usize, to: usize) -> (r: Vec<char>)
    requires
        from <= to <= v@.len(),
    ensures
        r@ == v@.subrange(from as int, to as int),
{
    let mut out: Vec<char> = Vec::new();
    let mut i = from;
    while i < to
        invariant
            from <= i <= to <= v@.len(),
            out@ == v@.subrange(from as int, i as int),
        decreases to - i,
    {
        out.push(v[i]);
        assert(v@.subrange(from as int, i + 1) == v@.subrange(from as int, i as int).push(v@[i as int]));
        i = i + 1;
    }
    out
}

/// The characters of `v` without leading and trailing whitespace.
pub fn trim_chars(v: &Vec<char>) -> (r: Vec<char>)
    ensures
        r@ == trim(v@),
{
    let n = v.len();
    let mut a: usize = 0;
    while a < n && is_ws_exec(v[a])
        invariant
            a <= n == v@.len(),
            forall|i: int| 0 <= i < a ==> is_ws(#[trigger] v@[i]),
        decreases n - a,
    {
        a = a + 1;
    }
    proof {
        lemma_lead_ws(v@, a as int);
    }
    if a == n {
        return Vec::new();
    }
    let mut k: usize = 0;
    while k < n - a && is_ws_exec(v[n - 1 - k])
        invariant
            a < n == v@.len(),
            k <= n - a,
            forall|i: int| n - k <= i < n ==> is_ws(#[trigger] v@[i]),
        decreases n - a - k,
    {
        k = k + 1;
    }
    proof {
        if k == n - a {
            assert(!is_ws(v@[a as int]));
        }
        lemma_trail_ws(v@, k as int);
    }
    slice_chars(v, a, n - k)
}

/// `str::trim`, as a `String`.
pub fn trim_str(s: &str) -> (r: String)
    ensures
        r@ == trim(s@),
{
    string_from_chars(&trim_chars(&chars_of(s)))
}

/// ASCII lowercase of one character; other characters are unchanged.
pub open spec fn ascii_lower(c: char) -> char {
    if 'A' <= c <= 'Z' {
        ((c as u32) + 32) as char
    } else {
        c
    }
}

/// Equality up to ASCII case (`str::eq_ignore_ascii_case`).
pub open spec fn ascii_ci_eq(a: Seq<char>, b: Seq<char>) -> bool {
    a.len() == b.len() && forall|i: int| 0 <= i < a.len() ==> ascii_lower(#[trigger] a[i]) == ascii_lower(b[i])
}

/// ASCII lowercase of one character.
pub fn ascii_lower_exec(c: char) -> (r: char)
    ensures
        r == ascii_lower(c),
{
    if 'A' <= c && c <= 'Z' {
        ((c as u32) + 32) as u8 as char
    } else {
        c
    }
}

/// `str::eq_ignore_ascii_case`.
pub fn eq_ignore_ascii_case(a: &str, b: &str) -> (r: bool)
    ensures
        r == ascii_ci_eq(a@, b@),
{
    let x = chars_of(a);
    let y = chars_of(b);
    if x.len() != y.len() {
        return false;
    }
    for i in 0..x.len()
        invariant
            x@ == a@,
            y@ == b@,
            x.len() == y.len(),
            forall|j: int| 0 <= j < i ==> ascii_lower(#[trigger] x@[j]) == ascii_lower(y@[j]),
    {
        if ascii_lower_exec(x[i]) != ascii_lower_exec(y[i]) {
            return false;
        }
    }
    true
}

/// Unicode lowercase mapping of a string, as `str::to_lowercase` computes it.
pub uninterp spec fn unicode_lowercase(s: Seq<char>) -> Seq<char>;

/// Lowercases through `str::to_lowercase` (the full Unicode mapping, where one character may
/// become several). The contract claims that the result is [`unicode_lowercase`] of the input,
/// a fixed function of the text, and that ASCII text lowercases character by character to its
/// ASCII lowercase (`A`–`Z` to `a`–`z`, the rest unchanged), as the Unicode mapping has it.
#[verifier::external_body]
pub(crate) fn to_lowercase(s: &str) -> (r: String)
    ensures
        r@ == unicode_lowercase(s@),
        vstd::utf8::is_ascii_chars(s@) ==> r@ == s@.map_values(|c: char| ascii_lower(c)),
{
    s.to_lowercase()
}

/// The parts joined with a separator between consecutive parts.
pub open spec fn join(parts: Seq<Seq<char>>, sep: Seq<char>) -> Seq<char>
    decreases parts.len(),
{
    if parts.len() == 0 {
        Seq::empty()
    } else if parts.len() == 1 {
        parts[0]
    } else {
        join(parts.drop_last(), sep) + sep + parts.last()
    }
}

/// A copy of an optional string.
pub fn copy_opt(o: &Option<String>) -> (r: Option<String>)
    ensures
        r == *o,
{
    match o {
        Some(s) => Some(s.clone()),
        None => None,
    }
}

/// A copy of a list of strings.
pub fn copy_strings(v: &Vec<String>) -> (r: Vec<String>)
    ensures
        r@ == v@,
{
    let mut out: Vec<String> = Vec::new();
    for i in 0..v.len()
        invariant
            out@ == v@.take(i as int),
    {
        out.push(v[i].clone());
        assert(v@.take(i + 1) == v@.take(i as int).push(v@[i as int]));
    }
    assert(v@.take(v.len() as int) == v@);
    out
}

/// The contents of an optional list.
pub open spec fn opt_seq(o: Option<Vec<String>>) -> Option<Seq<String>> {
    match o {
        Some(v) => Some(v@),
        None => None,
    }
}

/// A copy of an optional list of strings.
pub fn copy_opt_strings(o: &Option<Vec<String>>) -> (r: Option<Vec<String>>)
    ensures
        opt_seq(r) == opt_seq(*o),
{
    match o {
        Some(v) => Some(copy_strings(v)),
        None => None,
    }
}

/// Position of the first occurrence of `p` in `s` (the leftmost match).
pub open spec fn find<T>(s: Seq<T>, p: Seq<T>) -> Option<int>
    decreases s.len(),
{
    if s.len() < p.len() {
        None
    } else if s.take(p.len() as int) == p {
        Some(0)
    } else if s.len() == 0 {
        None
    } else {
        match find(s.drop_first(), p) {
            Some(i) => Some(i + 1),
            None => None,
        }
    }
}

/// `p` occurs in `s`.
pub open spec fn contains_seq<T>(s: Seq<T>, p: Seq<T>) -> bool {
    find(s, p) is Some
}

/// Properties of a found position: `p` stands there.
pub proof fn lemma_find_matches<T>(s: Seq<T>, p: Seq<T>)
    ensures
        find(s, p) matches Some(i) ==> 0 <= i && i + p.len() <= s.len() && s.subrange(i, i + p.len()) == p,
    decreases s.len(),
{
    if s.len() >= p.len() && s.take(p.len() as int) != p && s.len() > 0 {
        lemma_find_matches(s.drop_first(), p);
        if let Some(i) = find(s.drop_first(), p) {
            assert(s.subrange(i + 1, i + 1 + p.len()) =~= s.drop_first().subrange(i, i + p.len()));
        }
    } else if s.len() >= p.len() && s.take(p.len() as int) == p {
        assert(s.subrange(0, p.len() as int) == s.take(p.len() as int));
    }
}

fn starts_with_at_chars(s: &Vec<char>, p: &Vec<char>, i: usize) -> (r: bool)
    requires
        i <= s@.len(),
    ensures
        r == (s@.skip(i as int).len() >= p@.len() && s@.skip(i as int).take(p@.len() as int) == p@),
{
    if s.len() - i < p.len() {
        return false;
    }
    for j in 0..p.len()
        invariant
            i + p@.len() <= s@.len(),
            p.len() == p@.len(),
            s.len() == s@.len(),
            forall|k: int| 0 <= k < j ==> s@[i + k] == p@[k],
    {
        assert(i + j < s@.len());
        if s[i + j] != p[j] {
            assert(s@.skip(i as int).take(p@.len() as int)[j as int] != p@[j as int]);
            return false;
        }
    }
    assert(s@.skip(i as int).take(p@.len() as int) =~= p@);
    true
}

/// The first occurrence of `p` in `s` at or after `from`.
pub fn find_chars(s: &Vec<char>, p: &Vec<char>, from: usize) -> (r: Option<usize>)
    requires
        from <= s@.len(),
    ensures
        r is None <==> find(s@.skip(from as int), p@) is None,
        r matches Some(k) ==> from <= k && find(s@.skip(from as int), p@) == Some(k - from),
{
    let n = s.len();
    if p.len() == 0 {
        assert(s@.skip(from as int).take(0) =~= p@);
        return Some(from);
    }
    let mut i = from;
    assert(s@.skip(from as int) == s@.skip(i as int));
    while i < n
        invariant
            from <= i <= n,
            n == s@.len(),
            p@.len() > 0,
            find(s@.skip(from as int), p@) == match find(s@.skip(i as int), p@) {
                Some(j) => Some(j + (i - from)),
                None => None,
            },
        decreases n - i,
    {
        if starts_with_at_chars(s, p, i) {
            return Some(i);
        }
        if n - i < p.len() {
            return None;
        }
        assert(s@.skip(i as int).drop_first() =~= s@.skip(i + 1));
        i = i + 1;
    }
    assert(s@.skip(i as int).len() == 0);
    None
}

fn starts_with_at_bytes(s: &[u8], p: &[u8], i: usize) -> (r: bool)
    requires
        i <= s@.len(),
    ensures
        r == (s@.skip(i as int).len() >= p@.len() && s@.skip(i as int).take(p@.len() as int) == p@),
{
    if s.len() - i < p.len() {
        return false;
    }
    for j in 0..p.len()
        invariant
            i + p@.len() <= s@.len(),
            p.len() == p@.len(),
            s.len() == s@.len(),
            forall|k: int| 0 <= k < j ==> s@[i + k] == p@[k],
    {
        assert(i + j < s@.len());
        if s[i + j] != p[j] {
            assert(s@.skip(i as int).take(p@.len() as int)[j as int] != p@[j as int]);
            return false;
        }
    }
    assert(s@.skip(i as int).take(p@.len() as int) =~= p@);
    true
}

/// The first occurrence of `p` in `s` at or after `from`.
pub fn find_bytes(s: &[u8], p: &[u8], from: usize) -> (r: Option<usize>)
    requires
        from <= s@.len(),
    ensures
        r is None <==> find(s@.skip(from as int), p@) is None,
        r matches Some(k) ==> from <= k && find(s@.skip(from as int), p@) == Some(k - from),
{
    let n = s.len();
    if p.len() == 0 {
        assert(s@.skip(from as int).take(0) =~= p@);
        return Some(from);
    }
    let mut i = from;
    assert(s@.skip(from as int) == s@.skip(i as int));
    while i < n
        invariant
            from <= i <= n,
            n == s@.len(),
            p@.len() > 0,
            find(s@.skip(from as int), p@) == match find(s@.skip(i as int), p@) {
                Some(j) => Some(j + (i - from)),
                None => None,
            },
        decreases n - i,
    {
        if starts_with_at_bytes(s, p, i) {
            return Some(i);
        }
        if n - i < p.len() {
            return None;
        }
        assert(s@.skip(i as int).drop_first() =~= s@.skip(i + 1));
        i = i + 1;
    }
    assert(s@.skip(i as int).len() == 0);
    None
}

/// Every non-overlapping occurrence of `pat`, leftmost first, replaced by `rep` (`str::replace`).
pub open spec fn replace_all(s: Seq<char>, pat: Seq<char>, rep: Seq<char>) -> Seq<char>
    decreases s.len(),
{
    if pat.len() == 0 {
        s
    } else {
        match find(s, pat) {
            None => s,
            Some(i) => {
                proof {
                    lemma_find_matches(s, pat);
                }
                s.take(i) + rep + replace_all(s.skip(i + pat.len()), pat, rep)
            },
        }
    }
}

/// `str::replace` on characters.
pub fn replace_all_chars(s: &Vec<char>, pat: &Vec<char>, rep: &Vec<char>) -> (r: Vec<char>)
    requires
        pat@.len() > 0,
    ensures
        r@ == replace_all(s@, pat@, rep@),
{
    let n = s.len();
    let mut out: Vec<char> = Vec::new();
    let mut pos: usize = 0;
    assert(s@.skip(0) == s@);
    while pos <= n
        invariant
            pos <= n == s@.len(),
            pat@.len() > 0,
            out@ + replace_all(s@.skip(pos as int), pat@, rep@) == replace_all(s@, pat@, rep@),
        decreases n - pos,
    {
        match find_chars(s, pat, pos) {
            None => {
                let tail = slice_chars(s, pos, n);
                assert(tail@ == s@.skip(pos as int));
                let ghost before = out@;
                out.append(&mut tail.clone());
                assert(out@ == before + tail@);
                return out;
            },
            Some(i) => {
                proof {
                    lemma_find_matches(s@.skip(pos as int), pat@);
                }
                let piece = slice_chars(s, pos, i);
                let ghost before = out@;
                let mut piece_m = piece;
                out.append(&mut piece_m);
                let mut rep_c = rep.clone();
                assert(rep_c@ =~= rep@);
                out.append(&mut rep_c);
                proof {
                    let t = s@.skip(pos as int);
                    let k = (i - pos) as int;
                    assert(t.take(k) == s@.subrange(pos as int, i as int));
                    assert(t.skip(k + pat@.len()) == s@.skip(i + pat@.len()));
                    assert(out@ == before + t.take(k) + rep@);
                }
                pos = i + pat.len();
            },
        }
    }
    out
}

/// `s` with every trailing occurrence of `c` removed.
pub open spec fn strip_trailing(s: Seq<char>, c: char) -> Seq<char>
    decreases s.len(),
{
    if s.len() > 0 && s.last() == c {
        strip_trailing(s.drop_last(), c)
    } else {
        s
    }
}

/// The characters of `s` without its trailing occurrences of `c` (`trim_end_matches` with a char).
pub fn trim_end_char(s: &Vec<char>, c: char) -> (r: Vec<char>)
    ensures
        r@ == strip_trailing(s@, c),
{
    let mut k = s.len();
    assert(s@.take(k as int) == s@);
    while k > 0 && s[k - 1] == c
        invariant
            k <= s@.len(),
            strip_trailing(s@.take(k as int), c) == strip_trailing(s@, c),
        decreases k,
    {
        assert(s@.take(k as int).drop_last() == s@.take(k - 1));
        k = k - 1;
    }
    let mut out: Vec<char> = Vec::new();
    for i in 0..k
        invariant
            k <= s@.len(),
            out@ == s@.take(i as int),
    {
        out.push(s[i]);
        assert(s@.take(i + 1) == s@.take(i as int).push(s@[i as int]));
    }
    proof {
        if k > 0 {
            assert(s@.take(k as int).last() == s@[k - 1]);
        }
    }
    out
}

/// The ASCII digit for a value below ten.
pub open spec fn digit_char(d: int) -> char {
    (48 + d) as char
}

/// Decimal digits of a natural number, most significant first, without leading zeros.
pub open spec fn decimal(n: nat) -> Seq<char>
    decreases n,
{
    if n < 10 {
        seq![digit_char(n as int)]
    } else {
        decimal(n / 10).push(digit_char((n % 10) as int))
    }
}

/// `s` left-padded with `'0'` to at least `w` characters.
pub open spec fn zero_pad(s: Seq<char>, w: int) -> Seq<char> {
    if s.len() >= w {
        s
    } else {
        Seq::new((w - s.len()) as nat, |i: int| '0') + s
    }
}

/// An integer as `format!("{:0w$}")` writes it: the sign, then digits zero-padded so that
/// sign and digits together take at least `w` characters.
pub open spec fn padded_int(v: int, w: int) -> Seq<char> {
    if v < 0 {
        seq!['-'] + zero_pad(decimal((-v) as nat), w - 1)
    } else {
        zero_pad(decimal(v as nat), w)
    }
}

/// Decimal digits of `n`.
pub fn decimal_chars(n: u64) -> (r: Vec<char>)
    ensures
        r@ == decimal(n as nat),
    decreases n,
{
    let c = ((n % 10) as u8 + 48) as char;
    if n < 10 {
        let mut v = Vec::new();
        v.push(c);
        v
    } else {
        let mut v = decimal_chars(n / 10);
        v.push(c);
        v
    }
}

/// Appends `v` formatted with zero padding to width `w`.
pub fn push_padded(out: &mut String, v: i64, w: usize)
    requires
        1 <= w <= 20,
    ensures
        final(out)@ == old(out)@ + padded_int(v as int, w as int),
{
    let (digits, width) = if v < 0 {
        push_char(out, '-');
        let mag: u64 = (-(v + 1)) as u64 + 1;
        (decimal_chars(mag), w - 1)
    } else {
        (decimal_chars(v as u64), w)
    };
    let ghost before = out@;
    let mut k = digits.len();
    while k < width
        invariant
            digits.len() <= k <= width || width < digits.len() == k,
            out@ == before + Seq::new((k - digits.len()) as nat, |i: int| '0'),
        decreases width - k,
    {
        push_char(out, '0');
        k = k + 1;
        assert(out@ == before + Seq::new((k - digits.len()) as nat, |i: int| '0'));
    }
    for i in 0..digits.len()
        invariant
            out@ == before + Seq::new((if width > digits.len() { width - digits.len() } else { 0 }) as nat, |i: int| '0') + digits@.take(i as int),
    {
        push_char(out, digits[i]);
        assert(digits@.take(i + 1) == digits@.take(i as int).push(digits@[i as int]));
    }
    assert(digits@.take(digits.len() as int) == digits@);
    proof {
        let z = Seq::new((if width > digits.len() { width - digits.len() } else { 0 }) as nat, |i: int| '0');
        if width <= digits.len() {
            assert(z.len() == 0);
            assert(before + z + digits@ == before + digits@);
        } else {
            assert(before + z + digits@ == before + (z + digits@));
        }
    }
}

} // verus!
