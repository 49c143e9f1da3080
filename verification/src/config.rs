//! Configuration model (Slack and Email profiles), where the configuration lives, and UTC
//! timestamps.

use vstd::prelude::*;

use indexmap::IndexMap;

use crate::error::{opt_view, Error, ErrorCode, ErrorView};
use crate::system::Platform;
use crate::text::{decimal, digit_char, zero_pad, ascii_ci_eq, ascii_lower, copy_opt, copy_opt_strings, eq_ignore_ascii_case, opt_seq, padded_int, push_char, push_padded};

verus! {

#[verifier::external_type_specification]
#[verifier::external_body]
#[verifier::reject_recursive_types(K)]
#[verifier::reject_recursive_types(V)]
#[verifier::reject_recursive_types(S)]
pub struct ExIndexMap<K, V, S>(IndexMap<K, V, S>);

/// A Slack profile: the webhook URL (when kept in the file) and message defaults.
#[derive(Clone, Debug, Default)]
pub struct SlackProfile {
    pub webhook_url: Option<String>,
    pub channel: Option<String>,
    pub username: Option<String>,
    pub icon_emoji: Option<String>,
}

/// An Email profile: provider, sender, default recipients and API endpoint.
#[derive(Clone, Debug, Default)]
pub struct EmailProfile {
    pub provider: Option<String>,
    pub from: Option<String>,
    pub default_to: Option<String>,
    pub default_cc: Option<Vec<String>>,
    pub default_bcc: Option<Vec<String>>,
    pub endpoint: Option<String>,
}

/// The configuration file: a format version and the Slack and Email profiles by name,
/// in file order.
#[derive(Debug)]
pub struct Config {
    pub version: Option<u32>,
    pub slack: IndexMap<String, SlackProfile>,
    pub email: IndexMap<String, EmailProfile>,
}

/// The Slack profiles of a map, with their names, in map order.
pub uninterp spec fn slack_entries(m: IndexMap<String, SlackProfile>) -> Seq<(Seq<char>, SlackProfile)>;

/// The Email profiles of a map, with their names, in map order.
pub uninterp spec fn email_entries(m: IndexMap<String, EmailProfile>) -> Seq<(Seq<char>, EmailProfile)>;

/// Index of the entry whose name is exactly `k`.
pub open spec fn key_index<P>(e: Seq<(Seq<char>, P)>, k: Seq<char>) -> Option<int>
    decreases e.len(),
{
    if e.len() == 0 {
        None
    } else if e[0].0 == k {
        Some(0)
    } else {
        match key_index(e.drop_first(), k) {
            Some(i) => Some(i + 1),
            None => None,
        }
    }
}

/// Index of the first entry whose name equals `k` up to ASCII case.
pub open spec fn ci_index<P>(e: Seq<(Seq<char>, P)>, k: Seq<char>) -> Option<int>
    decreases e.len(),
{
    if e.len() == 0 {
        None
    } else if ascii_ci_eq(e[0].0, k) {
        Some(0)
    } else {
        match ci_index(e.drop_first(), k) {
            Some(i) => Some(i + 1),
            None => None,
        }
    }
}

/// The entries after inserting `(k, v)`: an existing name keeps its place and takes the new
/// value, a new name goes last.
pub open spec fn entries_insert<P>(e: Seq<(Seq<char>, P)>, k: Seq<char>, v: P) -> Seq<(Seq<char>, P)> {
    match key_index(e, k) {
        Some(i) => e.update(i, (e[i].0, v)),
        None => e.push((k, v)),
    }
}

/// The entries after removing name `k`, the others keeping their order.
pub open spec fn entries_remove<P>(e: Seq<(Seq<char>, P)>, k: Seq<char>) -> Seq<(Seq<char>, P)> {
    match key_index(e, k) {
        Some(i) => e.remove(i),
        None => e,
    }
}

/// The value stored under exactly the name `k`.
pub open spec fn lookup<P>(e: Seq<(Seq<char>, P)>, k: Seq<char>) -> Option<P> {
    match key_index(e, k) {
        Some(i) => Some(e[i].1),
        None => None,
    }
}

/// No name occurs twice.
pub open spec fn names_distinct<P>(e: Seq<(Seq<char>, P)>) -> bool {
    forall|i: int, j: int| 0 <= i < j < e.len() ==> #[trigger] e[i].0 != #[trigger] e[j].0
}

/// `key_index` finds the first entry with exactly that name.
pub proof fn lemma_key_index<P>(e: Seq<(Seq<char>, P)>, k: Seq<char>)
    ensures
        key_index(e, k) matches Some(i) ==> 0 <= i < e.len() && e[i].0 == k && forall|j: int|
            0 <= j < i ==> #[trigger] e[j].0 != k,
        key_index(e, k) is None <==> forall|j: int| 0 <= j < e.len() ==> #[trigger] e[j].0 != k,
    decreases e.len(),
{
    if e.len() > 0 && e[0].0 != k {
        let t = e.drop_first();
        lemma_key_index(t, k);
        assert forall|j: int| 1 <= j < e.len() implies #[trigger] e[j].0 == t[j - 1].0 by {}
        if key_index(t, k) is None {
            assert forall|j: int| 0 <= j < e.len() implies #[trigger] e[j].0 != k by {
                if j > 0 {
                    assert(t[j - 1].0 != k);
                }
            }
        } else {
            let i = key_index(t, k)->0;
            assert(e[i + 1].0 == k);
            assert forall|j: int| 0 <= j < i + 1 implies #[trigger] e[j].0 != k by {
                if j > 0 {
                    assert(t[j - 1].0 != k);
                }
            }
        }
    }
}

/// `ci_index` finds the first entry whose name equals `k` up to ASCII case.
pub proof fn lemma_ci_index<P>(e: Seq<(Seq<char>, P)>, k: Seq<char>)
    ensures
        ci_index(e, k) matches Some(i) ==> 0 <= i < e.len() && ascii_ci_eq(e[i].0, k) && forall|j: int|
            0 <= j < i ==> !ascii_ci_eq(#[trigger] e[j].0, k),
        ci_index(e, k) is None <==> forall|j: int| 0 <= j < e.len() ==> !ascii_ci_eq(#[trigger] e[j].0, k),
    decreases e.len(),
{
    if e.len() > 0 && !ascii_ci_eq(e[0].0, k) {
        let t = e.drop_first();
        lemma_ci_index(t, k);
        assert forall|j: int| 1 <= j < e.len() implies #[trigger] e[j].0 == t[j - 1].0 by {}
        if ci_index(t, k) is None {
            assert forall|j: int| 0 <= j < e.len() implies !ascii_ci_eq(#[trigger] e[j].0, k) by {
                if j > 0 {
                    assert(!ascii_ci_eq(t[j - 1].0, k));
                }
            }
        } else {
            let i = ci_index(t, k)->0;
            assert(e[i + 1].0 == t[i].0);
            assert forall|j: int| 0 <= j < i + 1 implies !ascii_ci_eq(#[trigger] e[j].0, k) by {
                if j > 0 {
                    assert(!ascii_ci_eq(t[j - 1].0, k));
                }
            }
        }
    }
}

proof fn lemma_ci_eq_equiv(a: Seq<char>, b: Seq<char>, c: Seq<char>)
    requires
        ascii_ci_eq(a, b),
    ensures
        ascii_ci_eq(c, a) <==> ascii_ci_eq(c, b),
{
    if ascii_ci_eq(c, a) {
        assert forall|i: int| 0 <= i < c.len() implies ascii_lower(#[trigger] c[i]) == ascii_lower(b[i]) by {
            assert(ascii_lower(a[i]) == ascii_lower(b[i]));
        }
    }
    if ascii_ci_eq(c, b) {
        assert forall|i: int| 0 <= i < c.len() implies ascii_lower(#[trigger] c[i]) == ascii_lower(a[i]) by {
            assert(ascii_lower(a[i]) == ascii_lower(b[i]));
        }
    }
}

/// Looking a profile up ignores ASCII case: two names that differ only in ASCII case find
/// the same profile.
pub proof fn law_find_ignores_case<P>(e: Seq<(Seq<char>, P)>, a: Seq<char>, b: Seq<char>)
    requires
        ascii_ci_eq(a, b),
    ensures
        ci_index(e, a) == ci_index(e, b),
    decreases e.len(),
{
    if e.len() > 0 {
        lemma_ci_eq_equiv(a, b, e[0].0);
        law_find_ignores_case(e.drop_first(), a, b);
    }
}

/// A profile stored under an exact name is found by that name, ASCII case ignored.
pub proof fn law_exact_name_is_found<P>(e: Seq<(Seq<char>, P)>, k: Seq<char>)
    requires
        key_index(e, k) is Some,
    ensures
        ci_index(e, k) is Some,
{
    lemma_key_index(e, k);
    lemma_ci_index(e, k);
    let i = key_index(e, k)->0;
    assert(ascii_ci_eq(e[i].0, k));
}

/// The entries whose names do not equal `k` up to ASCII case, the others keeping their order.
pub open spec fn entries_remove_ci<P>(e: Seq<(Seq<char>, P)>, k: Seq<char>) -> Seq<(Seq<char>, P)>
    decreases e.len(),
{
    if e.len() == 0 {
        e
    } else if ascii_ci_eq(e[0].0, k) {
        entries_remove_ci(e.drop_first(), k)
    } else {
        seq![e[0]] + entries_remove_ci(e.drop_first(), k)
    }
}

/// The names that equal `k` up to ASCII case, in order.
pub open spec fn names_ci<P>(e: Seq<(Seq<char>, P)>, k: Seq<char>) -> Seq<Seq<char>>
    decreases e.len(),
{
    if e.len() == 0 {
        Seq::empty()
    } else if ascii_ci_eq(e[0].0, k) {
        seq![e[0].0] + names_ci(e.drop_first(), k)
    } else {
        names_ci(e.drop_first(), k)
    }
}

/// The name stored for `k`: the first name equal to it up to ASCII case, else `k` itself.
pub open spec fn stored_name<P>(e: Seq<(Seq<char>, P)>, k: Seq<char>) -> Seq<char> {
    match ci_index(e, k) {
        Some(i) => e[i].0,
        None => k,
    }
}

/// Removing the first entry that matches `k` (found exactly by its stored name) takes one
/// step towards removing them all.
pub proof fn lemma_remove_first_match<P>(e: Seq<(Seq<char>, P)>, k: Seq<char>)
    requires
        ci_index(e, k) is Some,
    ensures
        ({
            let i = ci_index(e, k)->0;
            &&& 0 <= i < e.len()
            &&& key_index(e, e[i].0) == Some(i)
            &&& entries_remove_ci(e.remove(i), k) == entries_remove_ci(e, k)
            &&& names_ci(e, k) == seq![e[i].0] + names_ci(e.remove(i), k)
        }),
    decreases e.len(),
{
    let i = ci_index(e, k)->0;
    if ascii_ci_eq(e[0].0, k) {
        assert(e.remove(0) =~= e.drop_first());
    } else {
        let t = e.drop_first();
        lemma_remove_first_match(t, k);
        lemma_ci_index(t, k);
        let j = ci_index(t, k)->0;
        assert(i == j + 1);
        assert(e[i] == t[j]);
        assert(e.remove(i) =~= seq![e[0]] + t.remove(j));
        assert((seq![e[0]] + t.remove(j)).drop_first() =~= t.remove(j));
        assert(e[0].0 != e[i].0);
    }
}

/// Where nothing matches `k`, removing the matches changes nothing.
pub proof fn lemma_remove_ci_no_match<P>(e: Seq<(Seq<char>, P)>, k: Seq<char>)
    requires
        ci_index(e, k) is None,
    ensures
        entries_remove_ci(e, k) == e,
        names_ci(e, k) == Seq::<Seq<char>>::empty(),
    decreases e.len(),
{
    if e.len() > 0 {
        lemma_remove_ci_no_match(e.drop_first(), k);
        assert(e =~= seq![e[0]] + e.drop_first());
    }
}

/// After removing every entry that matches `k` up to ASCII case, none is found any more.
pub proof fn law_remove_ci_then_absent<P>(e: Seq<(Seq<char>, P)>, k: Seq<char>)
    ensures
        ci_index(entries_remove_ci(e, k), k) is None,
    decreases e.len(),
{
    if e.len() > 0 {
        let t = e.drop_first();
        law_remove_ci_then_absent(t, k);
        if !ascii_ci_eq(e[0].0, k) {
            let r = seq![e[0]] + entries_remove_ci(t, k);
            assert(r.drop_first() =~= entries_remove_ci(t, k));
        }
    }
}

/// The name stored for `k` is found by `k`, and is exactly the name of the entry found.
pub proof fn lemma_stored_name<P>(e: Seq<(Seq<char>, P)>, k: Seq<char>)
    requires
        ci_index(e, k) is Some,
    ensures
        key_index(e, stored_name(e, k)) == ci_index(e, k),
{
    lemma_ci_index(e, k);
    lemma_key_index(e, stored_name(e, k));
    let i = ci_index(e, k)->0;
    assert forall|j: int| 0 <= j < i implies #[trigger] e[j].0 != e[i].0 by {
        assert(!ascii_ci_eq(e[j].0, k));
    }
    if key_index(e, e[i].0) is None {
        assert(e[i].0 != e[i].0);
    }
    let m = key_index(e, e[i].0)->0;
    if m > i {
        assert(e[i].0 != e[i].0);
    }
}

/// Storing under the stored name of a profile that a lookup finds overwrites that profile in
/// place: no entry is added, and the entry found now holds `v`.
pub proof fn law_overwrite_found<P>(e: Seq<(Seq<char>, P)>, k: Seq<char>, v: P)
    requires
        ci_index(e, k) is Some,
    ensures
        entries_insert(e, stored_name(e, k), v).len() == e.len(),
        entries_insert(e, stored_name(e, k), v)[ci_index(e, k)->0] == (stored_name(e, k), v),
{
    lemma_stored_name(e, k);
    lemma_ci_index(e, k);
}

/// After storing `v` under `k`, looking `k` up gives `v`, and every other name gives what it
/// gave before; the names stay as distinct as they were.
pub proof fn law_insert_then_lookup<P>(e: Seq<(Seq<char>, P)>, k: Seq<char>, v: P, other: Seq<char>)
    ensures
        lookup(entries_insert(e, k, v), k) == Some(v),
        other != k ==> lookup(entries_insert(e, k, v), other) == lookup(e, other),
        names_distinct(e) ==> names_distinct(entries_insert(e, k, v)),
{
    let f = entries_insert(e, k, v);
    lemma_key_index(e, k);
    lemma_key_index(e, other);
    lemma_key_index(f, k);
    lemma_key_index(f, other);
    assert(f.len() >= e.len());
    assert forall|j: int| 0 <= j < e.len() implies #[trigger] f[j].0 == e[j].0 by {}
    if key_index(e, k) is None {
        assert(f[e.len() as int].0 == k);
        assert(f[e.len() as int].1 == v);
        assert forall|j: int| 0 <= j < e.len() implies #[trigger] f[j].0 != k by {
            assert(e[j].0 != k);
        }
        assert(key_index(f, k) == Some(e.len() as int));
    } else {
        let i = key_index(e, k)->0;
        assert(f[i].0 == k && f[i].1 == v);
        assert forall|j: int| 0 <= j < i implies #[trigger] f[j].0 != k by {
            assert(e[j].0 != k);
        }
        assert(key_index(f, k) == Some(i));
    }
    if other != k {
        if key_index(e, other) is None {
            assert forall|j: int| 0 <= j < f.len() implies #[trigger] f[j].0 != other by {
                if j < e.len() {
                    assert(e[j].0 != other);
                }
            }
        } else {
            let i = key_index(e, other)->0;
            assert(f[i].0 == other);
            assert(f[i].1 == e[i].1);
        }
    }
    if names_distinct(e) {
        assert forall|i: int, j: int| 0 <= i < j < f.len() implies #[trigger] f[i].0 != #[trigger] f[j].0 by {
            if j < e.len() {
                assert(e[i].0 != e[j].0);
            } else {
                assert(key_index(e, k) is None);
                assert(e[i].0 != k);
            }
        }
    }
}

/// After removing `k` from entries whose names are distinct, `k` is no longer stored, every
/// other name gives what it gave before, and the names stay distinct.
pub proof fn law_remove_then_lookup<P>(e: Seq<(Seq<char>, P)>, k: Seq<char>, other: Seq<char>)
    requires
        names_distinct(e),
    ensures
        lookup(entries_remove(e, k), k) is None,
        other != k ==> lookup(entries_remove(e, k), other) == lookup(e, other),
        names_distinct(entries_remove(e, k)),
{
    let f = entries_remove(e, k);
    lemma_key_index(e, k);
    lemma_key_index(e, other);
    lemma_key_index(f, k);
    lemma_key_index(f, other);
    if key_index(e, k) is Some {
        let r = key_index(e, k)->0;
        assert forall|j: int| 0 <= j < f.len() implies #[trigger] f[j] == if j < r { e[j] } else { e[j + 1] } by {}
        assert forall|j: int| 0 <= j < f.len() implies #[trigger] f[j].0 != k by {
            if j < r {
            } else {
                assert(e[r].0 != e[j + 1].0);
            }
        }
        assert forall|i: int, j: int| 0 <= i < j < f.len() implies #[trigger] f[i].0 != #[trigger] f[j].0 by {
            let a = if i < r { i } else { i + 1 };
            let b = if j < r { j } else { j + 1 };
            assert(e[a].0 != e[b].0);
        }
        if other != k {
            if key_index(e, other) is None {
                assert forall|j: int| 0 <= j < f.len() implies #[trigger] f[j].0 != other by {
                    let a = if j < r { j } else { j + 1 };
                    assert(e[a].0 != other);
                }
            } else {
                let i = key_index(e, other)->0;
                let fi = if i < r { i } else { i - 1 };
                assert(f[fi] == e[i]);
                assert forall|j: int| 0 <= j < fi implies #[trigger] f[j].0 != other by {
                    let a = if j < r { j } else { j + 1 };
                    assert(e[a].0 != e[i].0);
                }
            }
        }
    }
}

/// `IndexMap::new` for Slack profiles: an empty map.
#[verifier::external_body]
pub(crate) fn slack_map_new() -> (r: IndexMap<String, SlackProfile>)
    ensures
        slack_entries(r) == Seq::<(Seq<char>, SlackProfile)>::empty(),
{
    IndexMap::new()
}

/// `IndexMap::len` for Slack profiles: the number of entries.
#[verifier::external_body]
pub(crate) fn slack_map_len(m: &IndexMap<String, SlackProfile>) -> (r: usize)
    ensures
        r == slack_entries(*m).len(),
{
    m.len()
}

/// `IndexMap::get_index` for Slack profiles: the entry at a position, if there is one.
#[verifier::external_body]
pub(crate) fn slack_map_get_index(m: &IndexMap<String, SlackProfile>, i: usize) -> (r: Option<(&String, &SlackProfile)>)
    ensures
        i < slack_entries(*m).len() <==> r is Some,
        r matches Some((k, v)) ==> k@ == slack_entries(*m)[i as int].0 && *v == slack_entries(
            *m,
        )[i as int].1,
{
    m.get_index(i)
}

/// `IndexMap::insert` for Slack profiles: an existing name keeps its place and takes the new
/// value (the old one is returned), a new name goes last.
#[verifier::external_body]
pub(crate) fn slack_map_insert(m: &mut IndexMap<String, SlackProfile>, k: String, v: SlackProfile) -> (r: Option<SlackProfile>)
    ensures
        slack_entries(*final(m)) == entries_insert(slack_entries(*old(m)), k@, v),
        r == match key_index(slack_entries(*old(m)), k@) {
            Some(i) => Some(slack_entries(*old(m))[i].1),
            None => None,
        },
{
    m.insert(k, v)
}

/// `IndexMap::shift_remove` for Slack profiles: removes the entry named `k`, keeping the order
/// of the others, and returns its value.
#[verifier::external_body]
pub(crate) fn slack_map_shift_remove(m: &mut IndexMap<String, SlackProfile>, k: &str) -> (r: Option<SlackProfile>)
    ensures
        slack_entries(*final(m)) == entries_remove(slack_entries(*old(m)), k@),
        r == match key_index(slack_entries(*old(m)), k@) {
            Some(i) => Some(slack_entries(*old(m))[i].1),
            None => None,
        },
{
    m.shift_remove(k)
}

/// `IndexMap::new` for Email profiles: an empty map.
#[verifier::external_body]
pub(crate) fn email_map_new() -> (r: IndexMap<String, EmailProfile>)
    ensures
        email_entries(r) == Seq::<(Seq<char>, EmailProfile)>::empty(),
{
    IndexMap::new()
}

/// `IndexMap::len` for Email profiles: the number of entries.
#[verifier::external_body]
pub(crate) fn email_map_len(m: &IndexMap<String, EmailProfile>) -> (r: usize)
    ensures
        r == email_entries(*m).len(),
{
    m.len()
}

/// `IndexMap::get_index` for Email profiles: the entry at a position, if there is one.
#[verifier::external_body]
pub(crate) fn email_map_get_index(m: &IndexMap<String, EmailProfile>, i: usize) -> (r: Option<(&String, &EmailProfile)>)
    ensures
        i < email_entries(*m).len() <==> r is Some,
        r matches Some((k, v)) ==> k@ == email_entries(*m)[i as int].0 && *v == email_entries(
            *m,
        )[i as int].1,
{
    m.get_index(i)
}

/// `IndexMap::insert` for Email profiles: an existing name keeps its place and takes the new
/// value (the old one is returned), a new name goes last.
#[verifier::external_body]
pub(crate) fn email_map_insert(m: &mut IndexMap<String, EmailProfile>, k: String, v: EmailProfile) -> (r: Option<EmailProfile>)
    ensures
        email_entries(*final(m)) == entries_insert(email_entries(*old(m)), k@, v),
        r == match key_index(email_entries(*old(m)), k@) {
            Some(i) => Some(email_entries(*old(m))[i].1),
            None => None,
        },
{
    m.insert(k, v)
}

/// `IndexMap::shift_remove` for Email profiles: removes the entry named `k`, keeping the order
/// of the others, and returns its value.
#[verifier::external_body]
pub(crate) fn email_map_shift_remove(m: &mut IndexMap<String, EmailProfile>, k: &str) -> (r: Option<EmailProfile>)
    ensures
        email_entries(*final(m)) == entries_remove(email_entries(*old(m)), k@),
        r == match key_index(email_entries(*old(m)), k@) {
            Some(i) => Some(email_entries(*old(m))[i].1),
            None => None,
        },
{
    m.shift_remove(k)
}

impl SlackProfile {
    /// A field-by-field copy.
    pub fn copy(&self) -> (r: SlackProfile)
        ensures
            r == *self,
    {
        SlackProfile {
            webhook_url: copy_opt(&self.webhook_url),
            channel: copy_opt(&self.channel),
            username: copy_opt(&self.username),
            icon_emoji: copy_opt(&self.icon_emoji),
        }
    }
}

/// What an Email profile holds, its lists taken by their contents.
pub struct EmailProfileView {
    pub provider: Option<String>,
    pub from: Option<String>,
    pub default_to: Option<String>,
    pub default_cc: Option<Seq<String>>,
    pub default_bcc: Option<Seq<String>>,
    pub endpoint: Option<String>,
}

impl View for EmailProfile {
    type V = EmailProfileView;

    open spec fn view(&self) -> EmailProfileView {
        EmailProfileView {
            provider: self.provider,
            from: self.from,
            default_to: self.default_to,
            default_cc: opt_seq(self.default_cc),
            default_bcc: opt_seq(self.default_bcc),
            endpoint: self.endpoint,
        }
    }
}

impl EmailProfile {
    /// A field-by-field copy.
    pub fn copy(&self) -> (r: EmailProfile)
        ensures
            r@ == self@,
    {
        EmailProfile {
            provider: copy_opt(&self.provider),
            from: copy_opt(&self.from),
            default_to: copy_opt(&self.default_to),
            default_cc: copy_opt_strings(&self.default_cc),
            default_bcc: copy_opt_strings(&self.default_bcc),
            endpoint: copy_opt(&self.endpoint),
        }
    }
}

impl Config {
    /// The configuration of a fresh installation: version 1, no profiles.
    pub fn new() -> (r: Config)
        ensures
            r.version == Some(1u32),
            slack_entries(r.slack).len() == 0,
            email_entries(r.email).len() == 0,
    {
        Config { version: Some(1), slack: slack_map_new(), email: email_map_new() }
    }

    /// The Slack profile whose name equals `name` up to ASCII case (the first one, in file
    /// order), with its name as stored.
    pub fn find_slack(&self, name: &str) -> (r: Option<(&String, &SlackProfile)>)
        ensures
            r is Some <==> ci_index(slack_entries(self.slack), name@) is Some,
            r matches Some((k, v)) ==> {
                let i = ci_index(slack_entries(self.slack), name@)->0;
                k@ == slack_entries(self.slack)[i].0 && *v == slack_entries(self.slack)[i].1
            },
    {
        let n = slack_map_len(&self.slack);
        let ghost e = slack_entries(self.slack);
        assert(e.skip(0) == e);
        for i in 0..n
            invariant
                n == e.len(),
                e == slack_entries(self.slack),
                ci_index(e, name@) == match ci_index(e.skip(i as int), name@) {
                    Some(j) => Some(j + i),
                    None => None,
                },
        {
            proof {
                assert(e.skip(i as int).drop_first() == e.skip(i + 1));
            }
            match slack_map_get_index(&self.slack, i) {
                Some((k, v)) => {
                    if eq_ignore_ascii_case(k.as_str(), name) {
                        return Some((k, v));
                    }
                },
                None => {},
            }
        }
        proof {
            assert(e.skip(n as int).len() == 0);
        }
        None
    }

    /// The Email profile whose name equals `name` up to ASCII case (the first one, in file
    /// order), with its name as stored.
    pub fn find_email(&self, name: &str) -> (r: Option<(&String, &EmailProfile)>)
        ensures
            r is Some <==> ci_index(email_entries(self.email), name@) is Some,
            r matches Some((k, v)) ==> {
                let i = ci_index(email_entries(self.email), name@)->0;
                k@ == email_entries(self.email)[i].0 && *v == email_entries(self.email)[i].1
            },
    {
        let n = email_map_len(&self.email);
        let ghost e = email_entries(self.email);
        assert(e.skip(0) == e);
        for i in 0..n
            invariant
                n == e.len(),
                e == email_entries(self.email),
                ci_index(e, name@) == match ci_index(e.skip(i as int), name@) {
                    Some(j) => Some(j + i),
                    None => None,
                },
        {
            proof {
                assert(e.skip(i as int).drop_first() == e.skip(i + 1));
            }
            match email_map_get_index(&self.email, i) {
                Some((k, v)) => {
                    if eq_ignore_ascii_case(k.as_str(), name) {
                        return Some((k, v));
                    }
                },
                None => {},
            }
        }
        proof {
            assert(e.skip(n as int).len() == 0);
        }
        None
    }
}

/// A place on disk: a starting directory and the names below it, in order.
pub struct Location {
    pub root: String,
    pub parts: Vec<String>,
}

/// The views of a list of names.
pub open spec fn part_views(v: Seq<String>) -> Seq<Seq<char>> {
    v.map_values(|s: String| s@)
}

/// What decides where the configuration lives: `NOTIFY_CONFIG_DIR`, whether `config.yaml`
/// is a file in the working directory, the platform, `HOME`, `APPDATA`, `XDG_CONFIG_HOME`,
/// and whether `config.yaml` is a file in the legacy directory (see [`legacy_dir`]).
pub struct ConfigEnv {
    pub notify_config_dir: Option<String>,
    pub local_config: bool,
    pub platform: Platform,
    pub home: Option<String>,
    pub appdata: Option<String>,
    pub xdg_config_home: Option<String>,
    pub legacy_config: bool,
}

/// The variable is set and not empty.
pub open spec fn set_nonempty(o: Option<String>) -> bool {
    o matches Some(s) && s@.len() > 0
}

/// The variable's value, empty when unset.
pub open spec fn or_empty(o: Option<String>) -> Seq<char> {
    match o {
        Some(s) => s@,
        None => Seq::empty(),
    }
}

/// The directory that earlier versions used: `%APPDATA%/Notify.Console` on Windows,
/// `~/.config/notify-console` elsewhere.
pub open spec fn legacy_dir_spec(env: ConfigEnv) -> (Seq<char>, Seq<Seq<char>>) {
    if env.platform == Platform::Windows {
        (or_empty(env.appdata), seq!["Notify.Console"@])
    } else {
        (or_empty(env.home), seq![".config"@, "notify-console"@])
    }
}

/// The configuration directory: `NOTIFY_CONFIG_DIR` when set; the working directory when it
/// holds `config.yaml`; the legacy directory when it holds one; else the platform's place
/// (`%APPDATA%/notify-cli`, `~/Library/Application Support/notify-cli` on macOS,
/// `$XDG_CONFIG_HOME/notify-cli` or `~/.config/notify-cli` elsewhere).
pub open spec fn config_dir_spec(env: ConfigEnv) -> (Seq<char>, Seq<Seq<char>>) {
    if set_nonempty(env.notify_config_dir) {
        (or_empty(env.notify_config_dir), Seq::empty())
    } else if env.local_config {
        ("."@, Seq::empty())
    } else if env.legacy_config {
        legacy_dir_spec(env)
    } else if env.platform == Platform::Windows {
        (or_empty(env.appdata), seq!["notify-cli"@])
    } else if env.platform == Platform::MacOs {
        (or_empty(env.home), seq!["Library"@, "Application Support"@, "notify-cli"@])
    } else if set_nonempty(env.xdg_config_home) {
        (or_empty(env.xdg_config_home), seq!["notify-cli"@])
    } else {
        (or_empty(env.home), seq![".config"@, "notify-cli"@])
    }
}

fn value_or_empty(o: &Option<String>) -> (r: String)
    ensures
        r@ == or_empty(*o),
{
    match o {
        Some(s) => s.clone(),
        None => String::new(),
    }
}

fn names(a: &str, b: &str, c: &str, n: usize) -> (r: Vec<String>)
    requires
        1 <= n <= 3,
    ensures
        part_views(r@) == seq![a@, b@, c@].take(n as int),
{
    let mut v: Vec<String> = Vec::new();
    v.push(String::from_str(a));
    if n >= 2 {
        v.push(String::from_str(b));
    }
    if n >= 3 {
        v.push(String::from_str(c));
    }
    assert(part_views(v@) =~= seq![a@, b@, c@].take(n as int));
    v
}

/// The legacy configuration directory (see [`legacy_dir_spec`]).
pub fn legacy_dir(env: &ConfigEnv) -> (r: Location)
    ensures
        (r.root@, part_views(r.parts@)) == legacy_dir_spec(*env),
{
    if env.platform == Platform::Windows {
        let r = Location { root: value_or_empty(&env.appdata), parts: names("Notify.Console", "", "", 1) };
        assert(part_views(r.parts@) =~= seq!["Notify.Console"@]);
        r
    } else {
        let r = Location { root: value_or_empty(&env.home), parts: names(".config", "notify-console", "", 2) };
        assert(part_views(r.parts@) =~= seq![".config"@, "notify-console"@]);
        r
    }
}

/// The configuration directory (see [`config_dir_spec`]).
pub fn config_dir(env: &ConfigEnv) -> (r: Location)
    ensures
        (r.root@, part_views(r.parts@)) == config_dir_spec(*env),
{
    let env_dir_set = match &env.notify_config_dir {
        Some(d) => d.as_str().as_bytes().len() > 0,
        None => false,
    };
    let r = if env_dir_set {
        Location { root: value_or_empty(&env.notify_config_dir), parts: Vec::new() }
    } else if env.local_config {
        Location { root: String::from_str("."), parts: Vec::new() }
    } else if env.legacy_config {
        legacy_dir(env)
    } else if env.platform == Platform::Windows {
        Location { root: value_or_empty(&env.appdata), parts: names("notify-cli", "", "", 1) }
    } else if env.platform == Platform::MacOs {
        Location { root: value_or_empty(&env.home), parts: names("Library", "Application Support", "notify-cli", 3) }
    } else {
        let xdg_set = match &env.xdg_config_home {
            Some(d) => d.as_str().as_bytes().len() > 0,
            None => false,
        };
        if xdg_set {
            Location { root: value_or_empty(&env.xdg_config_home), parts: names("notify-cli", "", "", 1) }
        } else {
            Location { root: value_or_empty(&env.home), parts: names(".config", "notify-cli", "", 2) }
        }
    };
    assert(part_views(Seq::<String>::empty()) =~= Seq::<Seq<char>>::empty());
    assert(seq!["notify-cli"@, ""@, ""@].take(1) =~= seq!["notify-cli"@]);
    assert(seq![".config"@, "notify-cli"@, ""@].take(2) =~= seq![".config"@, "notify-cli"@]);
    assert(seq!["Library"@, "Application Support"@, "notify-cli"@].take(3) =~= seq!["Library"@, "Application Support"@, "notify-cli"@]);
    r
}

/// The configuration file: `config.yaml` in the configuration directory.
pub fn config_path(dir: Location) -> (r: Location)
    ensures
        r.root@ == dir.root@,
        part_views(r.parts@) == part_views(dir.parts@).push("config.yaml"@),
{
    let mut parts = dir.parts;
    let ghost before = parts@;
    parts.push(String::from_str("config.yaml"));
    assert(part_views(parts@) =~= part_views(before).push("config.yaml"@));
    Location { root: dir.root, parts }
}

/// The error for a configuration file that is not valid YAML: the parser's reason as
/// detail, and how to recover.
pub fn invalid_config_error(path: &str, reason: &str) -> (r: Error)
    ensures
        r@ == (ErrorView {
            code: ErrorCode::Error,
            message: path@ + " is not valid YAML."@,
            detail: Some(reason@),
            remediation: Some("Check syntax or reset: "@ + path@),
        }),
{
    let mut m = String::from_str(path);
    m.append(" is not valid YAML.");
    let mut f = String::from_str("Check syntax or reset: ");
    f.append(path);
    Error::other(m.as_str()).detail(reason).fix(f.as_str())
}

/// How long to keep trying for the configuration lock, in milliseconds.
pub const LOCK_DEADLINE_MS: u64 = 15000;

/// The first pause between two tries for the lock, in milliseconds.
pub const FIRST_LOCK_DELAY_MS: u64 = 25;

/// The longest pause between two tries for the lock, in milliseconds.
pub const MAX_LOCK_DELAY_MS: u64 = 400;

/// What to do when the lock is held by another process.
pub enum LockWait {
    /// Sleep `sleep_ms`, try again, and pause `next_delay_ms` after the next failed try.
    Retry { sleep_ms: u64, next_delay_ms: u64 },
    /// Stop trying: the deadline has passed.
    GiveUp,
}

/// The decision after a try for the lock failed because another process holds it, `waited_ms`
/// after the first try, with the pause `delay_ms` due: before the deadline, sleep that pause and
/// double it for the next time, up to the longest pause; after it, give up.
pub fn lock_wait(waited_ms: u64, delay_ms: u64) -> (r: LockWait)
    ensures
        waited_ms < LOCK_DEADLINE_MS ==> r == (LockWait::Retry {
            sleep_ms: delay_ms,
            next_delay_ms: if 2 * delay_ms < MAX_LOCK_DELAY_MS { (2 * delay_ms) as u64 } else { MAX_LOCK_DELAY_MS },
        }),
        waited_ms >= LOCK_DEADLINE_MS ==> r == LockWait::GiveUp,
{
    if waited_ms < LOCK_DEADLINE_MS {
        let next = if delay_ms < MAX_LOCK_DELAY_MS / 2 {
            delay_ms * 2
        } else {
            MAX_LOCK_DELAY_MS
        };
        LockWait::Retry { sleep_ms: delay_ms, next_delay_ms: next }
    } else {
        LockWait::GiveUp
    }
}

/// The error when the configuration lock cannot be taken in time.
pub fn lock_timeout_error(path: &str) -> (r: Error)
    ensures
        r@ == crate::error::plain_error(
            ErrorCode::Error,
            "Timed out waiting for the lock at "@ + path@ + ". Another process may be stuck."@,
        ),
{
    let mut m = String::from_str("Timed out waiting for the lock at ");
    m.append(path);
    m.append(". Another process may be stuck.");
    Error::other(m.as_str())
}

/// Gregorian leap year.
pub open spec fn is_leap_year(y: int) -> bool {
    y % 4 == 0 && (y % 100 != 0 || y % 400 == 0)
}

/// Number of days of month `m` (1 = January) in year `y`.
pub open spec fn month_len(y: int, m: int) -> int {
    if m == 2 {
        if is_leap_year(y) {
            29
        } else {
            28
        }
    } else if m == 4 || m == 6 || m == 9 || m == 11 {
        30
    } else {
        31
    }
}

/// Days of year `y` before the first of month `m`.
pub open spec fn days_before_month(y: int, m: int) -> int
    decreases m,
{
    if m <= 1 {
        0
    } else {
        days_before_month(y, m - 1) + month_len(y, m - 1)
    }
}

/// Number of leap years in `0 .. y` (negative for `y` below one).
pub open spec fn leap_years_before(y: int) -> int {
    (y - 1) / 4 - (y - 1) / 100 + (y - 1) / 400
}

/// Days from 1970-01-01 to the first of January of year `y` (negative before 1970).
pub open spec fn days_before_year(y: int) -> int {
    365 * (y - 1970) + leap_years_before(y) - leap_years_before(1970)
}

/// A real day of the proleptic Gregorian calendar.
pub open spec fn valid_date(y: int, m: int, d: int) -> bool {
    1 <= m <= 12 && 1 <= d <= month_len(y, m)
}

/// Days from 1970-01-01 to the given date.
pub open spec fn epoch_day(y: int, m: int, d: int) -> int {
    days_before_year(y) + days_before_month(y, m) + d - 1
}

/// The text `YYYY-MM-DDTHH:MM:SSZ` for a date and a second of that day.
pub open spec fn utc_text(y: int, m: int, d: int, t: int) -> Seq<char> {
    padded_int(y, 4) + (seq!['-'] + (padded_int(m, 2) + utc_day_part(d, t)))
}

/// The part of a timestamp from the day on: `-DDTHH:MM:SSZ`.
pub open spec fn utc_day_part(d: int, t: int) -> Seq<char> {
    seq!['-'] + (padded_int(d, 2) + utc_time_part(t))
}

/// The part of a timestamp from the hour on: `THH:MM:SSZ`.
pub open spec fn utc_time_part(t: int) -> Seq<char> {
    seq!['T'] + (padded_int(t / 3600, 2) + (seq![':'] + (padded_int(t % 3600 / 60, 2) + (seq![':'] + (padded_int(
        t % 60,
        2,
    ) + seq!['Z'])))))
}

/// Each year is 365 days long, 366 when it is a leap year.
pub proof fn law_year_length(y: int)
    ensures
        days_before_year(y + 1) == days_before_year(y) + if is_leap_year(y) {
            366int
        } else {
            365int
        },
{
    lemma_floor_steps(y);
}

proof fn lemma_floor_steps(y: int)
    ensures
        y / 4 - (y - 1) / 4 == if y % 4 == 0 {
            1int
        } else {
            0
        },
        y / 100 - (y - 1) / 100 == if y % 100 == 0 {
            1int
        } else {
            0
        },
        y / 400 - (y - 1) / 400 == if y % 400 == 0 {
            1int
        } else {
            0
        },
        y % 400 == 0 ==> y % 100 == 0,
        y % 100 == 0 ==> y % 4 == 0,
{
    assert(y / 4 - (y - 1) / 4 == if y % 4 == 0 { 1int } else { 0 });
    assert(y / 100 - (y - 1) / 100 == if y % 100 == 0 { 1int } else { 0 });
    assert(y / 400 - (y - 1) / 400 == if y % 400 == 0 { 1int } else { 0 });
    assert(y % 400 == 0 ==> y % 100 == 0) by {
        if y % 400 == 0 {
            assert(y == 400 * (y / 400));
            assert(y == 100 * (4 * (y / 400)));
        }
    }
    assert(y % 100 == 0 ==> y % 4 == 0) by {
        if y % 100 == 0 {
            assert(y == 100 * (y / 100));
            assert(y == 4 * (25 * (y / 100)));
        }
    }
}

/// Floor division by a positive divisor.
fn div_floor(a: i64, b: i64) -> (q: i64)
    requires
        b > 0,
    ensures
        q == a as int / b as int,
{
    if a >= 0 {
        a / b
    } else {
        let t = (-(a + 1)) / b;
        proof {
            let ai = a as int;
            let bi = b as int;
            let ti = t as int;
            assert(bi * ti <= -ai - 1 < bi * (ti + 1)) by (nonlinear_arith)
                requires
                    ti == (-ai - 1) / bi,
                    bi > 0,
                    -ai - 1 >= 0,
            ;
            assert(bi * (-ti - 1) <= ai < bi * (-ti - 1) + bi) by (nonlinear_arith)
                requires
                    bi * ti <= -ai - 1 < bi * (ti + 1),
            ;
            vstd::arithmetic::div_mod::lemma_fundamental_div_mod_converse(ai, bi, -ti - 1, ai - bi * (-ti - 1));
        }
        -t - 1
    }
}

/// Remainder of floor division by a positive divisor.
fn rem_floor(a: i64, b: i64) -> (r: i64)
    requires
        b > 0,
    ensures
        r == a as int % b as int,
{
    if a >= 0 {
        a % b
    } else {
        let t = (-(a + 1)) % b;
        proof {
            let ai = a as int;
            let bi = b as int;
            let ti = t as int;
            let qi = (-ai - 1) / bi;
            vstd::arithmetic::div_mod::lemma_fundamental_div_mod(-ai - 1, bi);
            assert(ai == bi * (-qi - 1) + (bi - 1 - ti)) by (nonlinear_arith)
                requires
                    -ai - 1 == bi * qi + ti,
            ;
            vstd::arithmetic::div_mod::lemma_fundamental_div_mod_converse(ai, bi, -qi - 1, bi - 1 - ti);
        }
        b - 1 - t
    }
}

#[verifier::rlimit(100)]
#[verifier::spinoff_prover]
proof fn lemma_year_in_era(doe: u64)
    requires
        doe < 146097,
    ensures
        ({
            let yoe = (doe - doe / 1460 + doe / 36524 - doe / 146096) / 365;
            let base = 365 * yoe + yoe / 4 - yoe / 100;
            let leap: u64 = if (yoe + 1) % 4 == 0 && ((yoe + 1) % 100 != 0 || yoe == 399) {
                1
            } else {
                0
            };
            yoe < 400 && base <= doe && doe - base <= 364 + leap
        }),
{
    assert({
        let yoe = (doe - doe / 1460 + doe / 36524 - doe / 146096) / 365;
        let base = 365 * yoe + yoe / 4 - yoe / 100;
        let leap: u64 = if (yoe + 1) % 4 == 0 && ((yoe + 1) % 100 != 0 || yoe == 399) {
            1
        } else {
            0
        };
        doe < 146097 ==> (yoe < 400 && base <= doe && doe - base <= 364 + leap)
    }) by (bit_vector);
}

#[verifier::rlimit(100)]
#[verifier::spinoff_prover]
proof fn lemma_month_in_year(doy: u64, leap: u64)
    requires
        leap <= 1,
        doy <= 364 + leap,
    ensures
        ({
            let mp = (5 * doy + 2) / 153;
            let start = (153 * mp + 2) / 5;
            let len = if mp == 11 {
                28 + leap
            } else if mp == 1 || mp == 3 || mp == 6 || mp == 8 {
                30
            } else {
                31
            };
            mp < 12 && start <= doy && doy - start < len
        }),
{
    assert({
        let mp = (5 * doy + 2) / 153;
        let start = (153 * mp + 2) / 5;
        let len = if mp == 11 {
            28 + leap
        } else if mp == 1 || mp == 3 || mp == 6 || mp == 8 {
            30
        } else {
            31
        };
        leap <= 1 && doy <= 364 + leap ==> (mp < 12 && start <= doy && doy - start < len)
    }) by (bit_vector);
}

/// Days from 0000-03-01 to the first of March of year `y`.
spec fn days_to_march(y: int) -> int {
    365 * y + y / 4 - y / 100 + y / 400
}

proof fn lemma_march_first(y: int)
    ensures
        days_to_march(y) - 719468 == days_before_year(y) + 59 + if is_leap_year(y) {
            1int
        } else {
            0
        },
{
    lemma_floor_steps(y);
}

proof fn lemma_era_shift(era: int, yoe: int)
    requires
        0 <= yoe < 400,
    ensures
        days_to_march(400 * era + yoe) == 146097 * era + 365 * yoe + yoe / 4 - yoe / 100,
        is_leap_year(400 * era + yoe + 1) <==> ((yoe + 1) % 4 == 0 && ((yoe + 1) % 100 != 0
            || yoe == 399)),
{
    vstd::arithmetic::div_mod::lemma_hoist_over_denominator(yoe, 100 * era, 4);
    assert(yoe + (100 * era) * 4 == 400 * era + yoe);
    vstd::arithmetic::div_mod::lemma_hoist_over_denominator(yoe, 4 * era, 100);
    assert(yoe + (4 * era) * 100 == 400 * era + yoe);
    vstd::arithmetic::div_mod::lemma_hoist_over_denominator(yoe, era, 400);
    assert(yoe + era * 400 == 400 * era + yoe);
    vstd::arithmetic::div_mod::lemma_mod_multiples_vanish(100 * era, yoe + 1, 4);
    assert(4 * (100 * era) + (yoe + 1) == 400 * era + yoe + 1);
    vstd::arithmetic::div_mod::lemma_mod_multiples_vanish(4 * era, yoe + 1, 100);
    assert(100 * (4 * era) + (yoe + 1) == 400 * era + yoe + 1);
    vstd::arithmetic::div_mod::lemma_mod_multiples_vanish(era, yoe + 1, 400);
    assert(400 * era + (yoe + 1) == 400 * era + yoe + 1);
}

proof fn lemma_month_starts(y: int)
    ensures
        days_before_month(y, 1) == 0,
        days_before_month(y, 2) == 31,
        days_before_month(y, 3) == 59 + if is_leap_year(y) {
            1int
        } else {
            0
        },
        days_before_month(y, 4) == days_before_month(y, 3) + 31,
        days_before_month(y, 5) == days_before_month(y, 3) + 61,
        days_before_month(y, 6) == days_before_month(y, 3) + 92,
        days_before_month(y, 7) == days_before_month(y, 3) + 122,
        days_before_month(y, 8) == days_before_month(y, 3) + 153,
        days_before_month(y, 9) == days_before_month(y, 3) + 184,
        days_before_month(y, 10) == days_before_month(y, 3) + 214,
        days_before_month(y, 11) == days_before_month(y, 3) + 245,
        days_before_month(y, 12) == days_before_month(y, 3) + 275,
{
    reveal_with_fuel(days_before_month, 13);
}

proof fn lemma_civil(
    days: int,
    era: int,
    doe: int,
    yoe: int,
    doy: int,
    leap: int,
    mp: int,
    d: int,
    m: int,
    y: int,
)
    requires
        days + 719468 == 146097 * era + doe,
        0 <= yoe < 400,
        doe == 365 * yoe + yoe / 4 - yoe / 100 + doy,
        leap == if (yoe + 1) % 4 == 0 && ((yoe + 1) % 100 != 0 || yoe == 399) {
            1int
        } else {
            0
        },
        0 <= doy <= 364 + leap,
        0 <= mp < 12,
        (153 * mp + 2) / 5 <= doy,
        doy - (153 * mp + 2) / 5 < if mp == 11 {
            28 + leap
        } else if mp == 1 || mp == 3 || mp == 6 || mp == 8 {
            30
        } else {
            31
        },
        d == doy - (153 * mp + 2) / 5 + 1,
        m == if mp < 10 {
            mp + 3
        } else {
            mp - 9
        },
        y == yoe + era * 400 + if m <= 2 {
            1int
        } else {
            0
        },
    ensures
        valid_date(y, m, d),
        epoch_day(y, m, d) == days,
{
    let big_y = 400 * era + yoe;
    lemma_era_shift(era, yoe);
    lemma_march_first(big_y);
    lemma_month_starts(y);
    law_year_length(big_y);
    assert((153 * 0 + 2) / 5 == 0);
    assert((153 * 1 + 2) / 5 == 31);
    assert((153 * 2 + 2) / 5 == 61);
    assert((153 * 3 + 2) / 5 == 92);
    assert((153 * 4 + 2) / 5 == 122);
    assert((153 * 5 + 2) / 5 == 153);
    assert((153 * 6 + 2) / 5 == 184);
    assert((153 * 7 + 2) / 5 == 214);
    assert((153 * 8 + 2) / 5 == 245);
    assert((153 * 9 + 2) / 5 == 275);
    assert((153 * 10 + 2) / 5 == 306);
    assert((153 * 11 + 2) / 5 == 337);
}

/// `s` is the timestamp text of second `secs` after the Unix epoch.
pub open spec fn is_utc_text_of(s: Seq<char>, secs: int) -> bool {
    exists|y: int, m: int, d: int|
        valid_date(y, m, d) && epoch_day(y, m, d) == secs / 86400 && s == utc_text(
            y,
            m,
            d,
            secs % 86400,
        )
}

proof fn lemma_date_within_year(y: int, m: int, d: int)
    requires
        valid_date(y, m, d),
    ensures
        days_before_year(y) <= epoch_day(y, m, d) < days_before_year(y + 1),
{
    lemma_month_starts(y);
    law_year_length(y);
}

proof fn lemma_years_increase(a: int, b: int)
    requires
        a < b,
    ensures
        days_before_year(a + 1) <= days_before_year(b),
    decreases b - a,
{
    if a + 1 < b {
        lemma_years_increase(a, b - 1);
        law_year_length(b - 1);
    }
}

/// Different calendar dates fall on different days: the day count after the epoch
/// determines the date.
pub proof fn law_epoch_day_unique(y1: int, m1: int, d1: int, y2: int, m2: int, d2: int)
    requires
        valid_date(y1, m1, d1),
        valid_date(y2, m2, d2),
        epoch_day(y1, m1, d1) == epoch_day(y2, m2, d2),
    ensures
        y1 == y2 && m1 == m2 && d1 == d2,
{
    lemma_date_within_year(y1, m1, d1);
    lemma_date_within_year(y2, m2, d2);
    if y1 < y2 {
        lemma_years_increase(y1, y2);
    } else if y2 < y1 {
        lemma_years_increase(y2, y1);
    }
    assert(y1 == y2);
    lemma_month_starts(y1);
}

/// `x` comes before `y`: they have the same length and, at the first place where they
/// differ, `x` has the smaller character.
pub open spec fn text_before(x: Seq<char>, y: Seq<char>) -> bool {
    x.len() == y.len() && exists|k: int| 0 <= k < x.len() && x.take(k) == y.take(k) && #[trigger] x[k] < y[k]
}

/// Ten to the power `w`.
pub open spec fn p10(w: nat) -> int
    decreases w,
{
    if w == 0 {
        1
    } else {
        10 * p10((w - 1) as nat)
    }
}

/// The last `w` decimal digits of `v`, most significant first.
pub open spec fn digits(v: int, w: nat) -> Seq<char>
    decreases w,
{
    if w == 0 {
        Seq::empty()
    } else {
        digits(v / 10, (w - 1) as nat).push(digit_char(v % 10))
    }
}

proof fn lemma_p10_pos(w: nat)
    ensures
        p10(w) >= 1,
    decreases w,
{
    if w > 0 {
        lemma_p10_pos((w - 1) as nat);
    }
}

proof fn lemma_p10_values()
    ensures
        p10(2) == 100,
        p10(4) == 10000,
{
    reveal_with_fuel(p10, 5);
}

proof fn lemma_digits_len(v: int, w: nat)
    ensures
        digits(v, w).len() == w,
    decreases w,
{
    if w > 0 {
        lemma_digits_len(v / 10, (w - 1) as nat);
    }
}

proof fn lemma_decimal_len(v: nat, w: nat)
    requires
        w >= 1,
        v < p10(w),
    ensures
        decimal(v).len() <= w,
    decreases w,
{
    if v >= 10 {
        lemma_p10_pos((w - 2) as nat);
        if w == 1 {
            reveal_with_fuel(p10, 2);
        }
        lemma_decimal_len(v / 10, (w - 1) as nat);
    }
}

proof fn lemma_zeros(k: nat)
    ensures
        digits(0, k) == Seq::new(k, |i: int| '0'),
    decreases k,
{
    if k > 0 {
        lemma_zeros((k - 1) as nat);
        assert(digit_char(0) == '0');
        assert(digits(0, k) =~= Seq::new(k, |i: int| '0'));
    }
}

/// A number below `10^w` padded to `w` digits is its last `w` digits.
proof fn lemma_pad_digits(v: nat, w: nat)
    requires
        w >= 1,
        v < p10(w),
    ensures
        zero_pad(decimal(v), w as int) == digits(v as int, w),
    decreases w,
{
    if v < 10 {
        lemma_zeros((w - 1) as nat);
        assert(v / 10 == 0 && v % 10 == v);
        assert(zero_pad(decimal(v), w as int) =~= digits(v as int, w));
    } else {
        if w == 1 {
            reveal_with_fuel(p10, 2);
        }
        lemma_p10_pos((w - 2) as nat);
        lemma_pad_digits(v / 10, (w - 1) as nat);
        lemma_decimal_len(v / 10, (w - 1) as nat);
        assert(zero_pad(decimal(v), w as int) =~= zero_pad(decimal(v / 10), w - 1).push(digit_char((v % 10) as int)));
    }
}

/// Among numbers below `10^w`, the smaller has the earlier `w`-digit text.
proof fn lemma_digits_order(v1: int, v2: int, w: nat)
    requires
        0 <= v1 < v2 < p10(w),
    ensures
        text_before(digits(v1, w), digits(v2, w)),
    decreases w,
{
    lemma_digits_len(v1, w);
    lemma_digits_len(v2, w);
    let x = digits(v1, w);
    let y = digits(v2, w);
    if w == 0 {
        assert(false);
    }
    let q1 = v1 / 10;
    let q2 = v2 / 10;
    lemma_digits_len(q1, (w - 1) as nat);
    if q1 < q2 {
        if w == 1 {
            reveal_with_fuel(p10, 2);
            assert(false);
        }
        lemma_digits_order(q1, q2, (w - 1) as nat);
        let k = choose|k: int| 0 <= k < digits(q1, (w - 1) as nat).len() && digits(q1, (w - 1) as nat).take(k) == digits(
            q2,
            (w - 1) as nat,
        ).take(k) && #[trigger] digits(q1, (w - 1) as nat)[k] < digits(q2, (w - 1) as nat)[k];
        assert(x.take(k) =~= digits(q1, (w - 1) as nat).take(k));
        assert(y.take(k) =~= digits(q2, (w - 1) as nat).take(k));
        assert(x[k] < y[k]);
    } else {
        assert(q1 == q2);
        let k = w - 1;
        assert(x.take(k) =~= y.take(k));
        assert(v1 % 10 < v2 % 10);
        assert(x[k] < y[k]);
    }
}

proof fn lemma_before_head(x1: Seq<char>, y1: Seq<char>, x2: Seq<char>, y2: Seq<char>)
    requires
        text_before(x1, y1),
        x2.len() == y2.len(),
    ensures
        text_before(x1 + x2, y1 + y2),
{
    let k = choose|k: int| 0 <= k < x1.len() && x1.take(k) == y1.take(k) && #[trigger] x1[k] < y1[k];
    assert((x1 + x2).take(k) =~= x1.take(k));
    assert((y1 + y2).take(k) =~= y1.take(k));
    assert((x1 + x2)[k] < (y1 + y2)[k]);
}

/// Month starts grow by at least the length of each month in between.
proof fn lemma_month_order(y: int, m1: int, m2: int)
    requires
        1 <= m1 < m2 <= 12,
    ensures
        days_before_month(y, m2) >= days_before_month(y, m1) + month_len(y, m1),
{
    lemma_month_starts(y);
}

/// Dates with earlier day numbers come earlier in (year, month, day) order.
proof fn lemma_date_order(y1: int, m1: int, d1: int, y2: int, m2: int, d2: int)
    requires
        valid_date(y1, m1, d1),
        valid_date(y2, m2, d2),
        epoch_day(y1, m1, d1) < epoch_day(y2, m2, d2),
    ensures
        y1 < y2 || (y1 == y2 && (m1 < m2 || (m1 == m2 && d1 < d2))),
{
    lemma_date_within_year(y1, m1, d1);
    lemma_date_within_year(y2, m2, d2);
    if y1 > y2 {
        lemma_years_increase(y2, y1);
    } else if y1 == y2 && m1 > m2 {
        lemma_month_order(y1, m2, m1);
    }
}

/// Years of day numbers in `0 .. 2932897` (1970-01-01 up to 9999-12-31) have four digits.
proof fn lemma_year_range(y: int, m: int, d: int)
    requires
        valid_date(y, m, d),
        0 <= epoch_day(y, m, d) < 2932897,
    ensures
        1970 <= y <= 9999,
{
    lemma_date_within_year(y, m, d);
    if y < 1970 {
        if y + 1 < 1970 {
            lemma_years_increase(y, 1970);
        }
    }
    if y > 9999 {
        lemma_years_increase(9999, y);
        assert(days_before_year(10000) == 2932897);
    }
}

/// With equal heads, the order of two texts is that of their tails.
proof fn lemma_before_tail(p: Seq<char>, x: Seq<char>, y: Seq<char>)
    requires
        text_before(x, y),
    ensures
        text_before(p + x, p + y),
{
    let k = choose|k: int| 0 <= k < x.len() && x.take(k) == y.take(k) && #[trigger] x[k] < y[k];
    assert((p + x).take(p.len() + k) =~= p + x.take(k));
    assert((p + y).take(p.len() + k) =~= p + y.take(k));
    assert((p + x)[p.len() + k] < (p + y)[p.len() + k]);
}

/// Two-digit fields in order give time parts in order.
#[verifier::spinoff_prover]
proof fn lemma_time_part_order(t1: int, t2: int)
    requires
        0 <= t1 < t2 < 86400,
    ensures
        text_before(utc_time_part(t1), utc_time_part(t2)),
{
    lemma_p10_values();
    let (h1, h2) = (t1 / 3600, t2 / 3600);
    let (n1, n2) = (t1 % 3600 / 60, t2 % 3600 / 60);
    let (s1, s2) = (t1 % 60, t2 % 60);
    lemma_pad_digits(h1 as nat, 2);
    lemma_pad_digits(h2 as nat, 2);
    lemma_pad_digits(n1 as nat, 2);
    lemma_pad_digits(n2 as nat, 2);
    lemma_pad_digits(s1 as nat, 2);
    lemma_pad_digits(s2 as nat, 2);
    lemma_digits_len(h1, 2);
    lemma_digits_len(h2, 2);
    lemma_digits_len(n1, 2);
    lemma_digits_len(n2, 2);
    lemma_digits_len(s1, 2);
    lemma_digits_len(s2, 2);
    let z = seq!['Z'];
    let sec1 = padded_int(s1, 2) + z;
    let sec2 = padded_int(s2, 2) + z;
    let min1 = padded_int(n1, 2) + (seq![':'] + sec1);
    let min2 = padded_int(n2, 2) + (seq![':'] + sec2);
    let hr1 = padded_int(h1, 2) + (seq![':'] + min1);
    let hr2 = padded_int(h2, 2) + (seq![':'] + min2);
    if h1 < h2 {
        lemma_digits_order(h1, h2, 2);
        lemma_before_head(padded_int(h1, 2), padded_int(h2, 2), seq![':'] + min1, seq![':'] + min2);
    } else if n1 < n2 {
        assert(h1 == h2);
        lemma_digits_order(n1, n2, 2);
        lemma_before_head(padded_int(n1, 2), padded_int(n2, 2), seq![':'] + sec1, seq![':'] + sec2);
        lemma_before_tail(seq![':'], min1, min2);
        lemma_before_tail(padded_int(h1, 2), seq![':'] + min1, seq![':'] + min2);
    } else {
        assert(h1 == h2 && n1 == n2 && s1 < s2);
        lemma_digits_order(s1, s2, 2);
        lemma_before_head(padded_int(s1, 2), padded_int(s2, 2), z, z);
        lemma_before_tail(seq![':'], sec1, sec2);
        lemma_before_tail(padded_int(n1, 2), seq![':'] + sec1, seq![':'] + sec2);
        lemma_before_tail(seq![':'], min1, min2);
        lemma_before_tail(padded_int(h1, 2), seq![':'] + min1, seq![':'] + min2);
    }
    lemma_before_tail(seq!['T'], hr1, hr2);
}

proof fn lemma_time_part_len(t: int)
    requires
        0 <= t < 86400,
    ensures
        utc_time_part(t).len() == 10,
{
    lemma_p10_values();
    lemma_pad_digits((t / 3600) as nat, 2);
    lemma_pad_digits((t % 3600 / 60) as nat, 2);
    lemma_pad_digits((t % 60) as nat, 2);
    lemma_digits_len(t / 3600, 2);
    lemma_digits_len(t % 3600 / 60, 2);
    lemma_digits_len(t % 60, 2);
}

/// The texts of two seconds of different days, the first day earlier.
#[verifier::spinoff_prover]
proof fn lemma_utc_order_days(y1: int, m1: int, d1: int, t1: int, y2: int, m2: int, d2: int, t2: int)
    requires
        valid_date(y1, m1, d1),
        valid_date(y2, m2, d2),
        0 <= epoch_day(y1, m1, d1) < epoch_day(y2, m2, d2) < 2932897,
        0 <= t1 < 86400,
        0 <= t2 < 86400,
    ensures
        text_before(utc_text(y1, m1, d1, t1), utc_text(y2, m2, d2, t2)),
{
    lemma_year_range(y1, m1, d1);
    lemma_year_range(y2, m2, d2);
    lemma_p10_values();
    lemma_date_order(y1, m1, d1, y2, m2, d2);
    lemma_time_part_len(t1);
    lemma_time_part_len(t2);
    lemma_pad_digits(y1 as nat, 4);
    lemma_pad_digits(y2 as nat, 4);
    lemma_pad_digits(m1 as nat, 2);
    lemma_pad_digits(m2 as nat, 2);
    lemma_pad_digits(d1 as nat, 2);
    lemma_pad_digits(d2 as nat, 2);
    lemma_digits_len(m1, 2);
    lemma_digits_len(m2, 2);
    lemma_digits_len(d1, 2);
    lemma_digits_len(d2, 2);
    let day1 = utc_day_part(d1, t1);
    let day2 = utc_day_part(d2, t2);
    let mon1 = padded_int(m1, 2) + day1;
    let mon2 = padded_int(m2, 2) + day2;
    if y1 < y2 {
        lemma_digits_order(y1, y2, 4);
        lemma_before_head(padded_int(y1, 4), padded_int(y2, 4), seq!['-'] + mon1, seq!['-'] + mon2);
    } else {
        if m1 < m2 {
            lemma_digits_order(m1, m2, 2);
            lemma_before_head(padded_int(m1, 2), padded_int(m2, 2), day1, day2);
        } else {
            lemma_digits_order(d1, d2, 2);
            lemma_before_head(padded_int(d1, 2), padded_int(d2, 2), utc_time_part(t1), utc_time_part(t2));
            lemma_before_tail(seq!['-'], padded_int(d1, 2) + utc_time_part(t1), padded_int(d2, 2) + utc_time_part(t2));
            lemma_before_tail(padded_int(m1, 2), day1, day2);
        }
        lemma_before_tail(seq!['-'], mon1, mon2);
        lemma_before_tail(padded_int(y1, 4), seq!['-'] + mon1, seq!['-'] + mon2);
    }
}

/// The texts of two seconds of the same day, the first second earlier.
#[verifier::spinoff_prover]
proof fn lemma_utc_order_time(y: int, m: int, d: int, t1: int, t2: int)
    requires
        0 <= t1 < t2 < 86400,
    ensures
        text_before(utc_text(y, m, d, t1), utc_text(y, m, d, t2)),
{
    lemma_time_part_order(t1, t2);
    lemma_before_tail(padded_int(d, 2), utc_time_part(t1), utc_time_part(t2));
    lemma_before_tail(seq!['-'], padded_int(d, 2) + utc_time_part(t1), padded_int(d, 2) + utc_time_part(t2));
    lemma_before_tail(padded_int(m, 2), utc_day_part(d, t1), utc_day_part(d, t2));
    lemma_before_tail(seq!['-'], padded_int(m, 2) + utc_day_part(d, t1), padded_int(m, 2) + utc_day_part(d, t2));
    lemma_before_tail(
        padded_int(y, 4),
        seq!['-'] + (padded_int(m, 2) + utc_day_part(d, t1)),
        seq!['-'] + (padded_int(m, 2) + utc_day_part(d, t2)),
    );
}

/// Timestamps of seconds from 1970 up to the end of year 9999 are 20 characters long:
/// `YYYY-MM-DDTHH:MM:SSZ`, with a four-digit year.
pub proof fn law_utc_length(secs: int, s: Seq<char>)
    requires
        0 <= secs < 253402300800,
        is_utc_text_of(s, secs),
    ensures
        s.len() == 20,
{
    let (y, m, d) = choose|y: int, m: int, d: int|
        valid_date(y, m, d) && epoch_day(y, m, d) == secs / 86400 && s == utc_text(y, m, d, secs % 86400);
    assert(0 <= secs / 86400 < 2932897) by (nonlinear_arith)
        requires
            0 <= secs < 253402300800,
    ;
    lemma_year_range(y, m, d);
    lemma_p10_values();
    lemma_time_part_len(secs % 86400);
    lemma_pad_digits(y as nat, 4);
    lemma_pad_digits(m as nat, 2);
    lemma_pad_digits(d as nat, 2);
    lemma_digits_len(y, 4);
    lemma_digits_len(m, 2);
    lemma_digits_len(d, 2);
}

/// Timestamps of seconds from 1970 up to the end of year 9999 sort as their seconds do: an
/// earlier second has the earlier text.
pub proof fn law_utc_order(a: int, b: int, sa: Seq<char>, sb: Seq<char>)
    requires
        0 <= a < b < 253402300800,
        is_utc_text_of(sa, a),
        is_utc_text_of(sb, b),
    ensures
        text_before(sa, sb),
{
    let (y1, m1, d1) = choose|y: int, m: int, d: int|
        valid_date(y, m, d) && epoch_day(y, m, d) == a / 86400 && sa == utc_text(y, m, d, a % 86400);
    let (y2, m2, d2) = choose|y: int, m: int, d: int|
        valid_date(y, m, d) && epoch_day(y, m, d) == b / 86400 && sb == utc_text(y, m, d, b % 86400);
    assert(0 <= a / 86400 <= b / 86400 && b / 86400 < 2932897) by (nonlinear_arith)
        requires
            0 <= a < b < 253402300800,
    ;
    assert(0 <= a % 86400 < 86400 && 0 <= b % 86400 < 86400);
    if a / 86400 < b / 86400 {
        lemma_utc_order_days(y1, m1, d1, a % 86400, y2, m2, d2, b % 86400);
    } else {
        law_epoch_day_unique(y1, m1, d1, y2, m2, d2);
        assert(a % 86400 < b % 86400) by (nonlinear_arith)
            requires
                0 <= a < b,
                a / 86400 == b / 86400,
        ;
        lemma_utc_order_time(y1, m1, d1, a % 86400, b % 86400);
    }
}

/// The calendar date of day `days` after 1970-01-01 (proleptic Gregorian).
#[verifier::rlimit(40)]
#[verifier::spinoff_prover]
fn civil_from_days(days: i64) -> (r: (i64, i64, i64))
    requires
        -110_000_000_000_000 <= days <= 110_000_000_000_000,
    ensures
        valid_date(r.0 as int, r.1 as int, r.2 as int),
        epoch_day(r.0 as int, r.1 as int, r.2 as int) == days,
        1 <= r.1 <= 12,
        1 <= r.2 <= 31,
{
    let z = days + 719468;
    let era = div_floor(z, 146097);
    let doe = (z - era * 146097) as u64;
    let yoe = (doe - doe / 1460 + doe / 36524 - doe / 146096) / 365;
    proof {
        lemma_year_in_era(doe);
    }
    let doy = doe - (365 * yoe + yoe / 4 - yoe / 100);
    let leap: u64 = if (yoe + 1) % 4 == 0 && ((yoe + 1) % 100 != 0 || yoe == 399) {
        1
    } else {
        0
    };
    proof {
        lemma_month_in_year(doy, leap);
    }
    let mp = (5 * doy + 2) / 153;
    let d = doy - (153 * mp + 2) / 5 + 1;
    let m = if mp < 10 {
        mp + 3
    } else {
        mp - 9
    };
    let y: i64 = yoe as i64 + era * 400 + if m <= 2 {
        1i64
    } else {
        0
    };
    proof {
        lemma_civil(
            days as int,
            era as int,
            doe as int,
            yoe as int,
            doy as int,
            leap as int,
            mp as int,
            d as int,
            m as int,
            y as int,
        );
    }
    (y, m as i64, d as i64)
}

/// `head` followed by `v` padded to width `w` and then `tail`.
fn field_then(head: char, v: i64, w: usize, tail: &String) -> (r: String)
    requires
        1 <= w <= 4,
    ensures
        r@ == seq![head] + (padded_int(v as int, w as int) + tail@),
{
    let mut out = String::new();
    push_char(&mut out, head);
    push_padded(&mut out, v, w);
    out.append(tail.as_str());
    assert(out@ =~= seq![head] + (padded_int(v as int, w as int) + tail@));
    out
}

/// The text `YYYY-MM-DDTHH:MM:SSZ` of a date and a second of the day.
#[verifier::spinoff_prover]
fn utc_text_exec(y: i64, m: i64, d: i64, rem: i64) -> (r: String)
    requires
        1 <= m <= 12,
        1 <= d <= 31,
        0 <= rem < 86400,
    ensures
        r@ == utc_text(y as int, m as int, d as int, rem as int),
{
    let mut z = String::new();
    push_char(&mut z, 'Z');
    let s = field_then(':', rem % 60, 2, &z);
    let n = field_then(':', rem % 3600 / 60, 2, &s);
    let t = field_then('T', rem / 3600, 2, &n);
    assert(t@ == utc_time_part(rem as int));
    let dd = field_then('-', d, 2, &t);
    assert(dd@ == utc_day_part(d as int, rem as int));
    let mm = field_then('-', m, 2, &dd);
    let mut out = String::new();
    push_padded(&mut out, y, 4);
    out.append(mm.as_str());
    out
}

/// Formats seconds since the Unix epoch as an ISO-8601 UTC timestamp, `YYYY-MM-DDTHH:MM:SSZ`.
pub fn format_utc(secs: i64) -> (r: String)
    ensures
        is_utc_text_of(r@, secs as int),
{
    let days = div_floor(secs, 86400);
    let rem = rem_floor(secs, 86400);
    assert(-110_000_000_000_000 <= days <= 110_000_000_000_000) by (nonlinear_arith)
        requires
            days == secs as int / 86400,
            i64::MIN <= secs <= i64::MAX,
    ;
    let (y, m, d) = civil_from_days(days);
    let r = utc_text_exec(y, m, d, rem);
    assert(valid_date(y as int, m as int, d as int) && epoch_day(y as int, m as int, d as int) == secs as int / 86400
        && r@ == utc_text(y as int, m as int, d as int, secs as int % 86400));
    r
}

/// The timestamp of a clock reading (seconds since the epoch); a clock that could not be read,
/// or that stands before the epoch, reads as the epoch.
pub fn utc_of_reading(reading: Option<u64>) -> (r: String)
    ensures
        is_utc_text_of(
            r@,
            match reading {
                Some(s) => (s as i64) as int,
                None => 0,
            },
        ),
{
    let secs: i64 = match reading {
        Some(s) => s as i64,
        None => 0,
    };
    format_utc(secs)
}

/// Whole seconds elapsed since the Unix epoch by the system clock, through
/// `SystemTime::elapsed` on `UNIX_EPOCH`; `None` when the clock stands before the epoch.
/// Nothing is promised of the value: it is the time.
#[verifier::external_body]
fn clock_seconds() -> Option<u64> {
    std::time::UNIX_EPOCH.elapsed().ok().map(|d| d.as_secs())
}

/// The current time as an ISO-8601 UTC timestamp; a clock before the epoch reads as the epoch.
pub fn now_utc() -> (r: String)
    ensures
        exists|secs: i64| is_utc_text_of(r@, secs as int),
{
    let reading = clock_seconds();
    let r = utc_of_reading(reading);
    let ghost w: i64 = match reading {
        Some(s) => s as i64,
        None => 0,
    };
    assert(is_utc_text_of(r@, w as int));
    r
}

} // verus!
