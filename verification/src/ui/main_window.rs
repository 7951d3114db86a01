//! The decisions of the main window: which entries the list shows and in
//! what order, what the tag and group filters offer, how the entry form is
//! read, and when the vault locks itself.

use vstd::prelude::*;

use crate::db::io::{
    join, join_strings, keep_tags, lemma_split_no_sep, split_acc, split_on, tag_list, tags_exec,
};
use crate::models::entry::{copy_entry, entries_view, strings_view, Entry, EntryView};
use crate::models::generator::{strength, strength_spec, Strength};
use crate::order::{
    goes_before, keys_view, lemma_stable_order_complete, lemma_stable_order_exists, lex_le, lex_lt,
    sort_positions, sorted_positions,
};
use crate::text::{
    chars_of, contains_chars, contains_seq, decimal, decimal_string_u64, is_white, lead_ws, lowercase,
    to_lowercase, trail_ws, trim, trim_chars,
};

verus! {

/// The order of the entry list.
#[derive(Clone, Copy, Debug, PartialEq, Eq, Structural)]
pub enum SortMode {
    /// By title, ignoring case.
    Title,
    /// Most recently changed first.
    Updated,
}

/// The tag filter's choice that lets every entry through.
pub const ALL_TAGS: &'static str = "Все теги";

/// The group filter's choice that lets every entry through.
pub const ALL_GROUPS: &'static str = "Все группы";

/// Whether `q` occurs in the lower-case form of `s`.
pub open spec fn mentions(s: Seq<char>, q: Seq<char>) -> bool {
    contains_seq(lowercase(s), q)
}

/// Whether the search text `q`, already in lower case, finds the entry: in
/// its title, login, URL, group or one of its tags. An empty search finds
/// every entry.
pub open spec fn found_by(e: EntryView, q: Seq<char>) -> bool {
    ||| q.len() == 0
    ||| mentions(e.title, q)
    ||| mentions(e.username, q)
    ||| mentions(e.url, q)
    ||| mentions(e.group, q)
    ||| exists|k: int| 0 <= k < e.tags.len() && mentions(#[trigger] e.tags[k], q)
}

/// Whether the list shows `e` for a search text and the choices of the tag
/// and group filters.
pub open spec fn shown(e: EntryView, query: Seq<char>, tag: Seq<char>, group: Seq<char>) -> bool {
    &&& (tag == ALL_TAGS@ || e.tags.contains(tag))
    &&& (group == ALL_GROUPS@ || trim(e.group) == group)
    &&& found_by(e, lowercase(query))
}

/// The entries of `es` that the list shows, in their order.
pub open spec fn shown_entries(es: Seq<EntryView>, query: Seq<char>, tag: Seq<char>, group: Seq<char>) -> Seq<EntryView> {
    es.filter(|e: EntryView| shown(e, query, tag, group))
}

fn mentions_exec(s: &String, q: &Vec<char>) -> (r: bool)
    ensures
        r == mentions(s@, q@),
{
    let l = to_lowercase(s.as_str());
    contains_chars(&chars_of(l.as_str()), q)
}

fn found_by_exec(e: &Entry, q: &Vec<char>) -> (r: bool)
    ensures
        r == found_by(e@, q@),
{
    if q.len() == 0 || mentions_exec(&e.title, q) || mentions_exec(&e.username, q)
        || mentions_exec(&e.url, q) || mentions_exec(&e.group, q) {
        return true;
    }
    let mut k: usize = 0;
    while k < e.tags.len()
        invariant
            k <= e.tags@.len(),
            e@.tags.len() == e.tags@.len(),
            forall|j: int| 0 <= j < k ==> !mentions(#[trigger] e@.tags[j], q@),
        decreases e.tags@.len() - k,
    {
        if mentions_exec(&e.tags[k], q) {
            assert(e@.tags[k as int] == e.tags@[k as int]@);
            return true;
        }
        assert(e@.tags[k as int] == e.tags@[k as int]@);
        k = k + 1;
    }
    false
}

fn has_tag(e: &Entry, tag: &Vec<char>) -> (r: bool)
    ensures
        r == e@.tags.contains(tag@),
{
    let mut k: usize = 0;
    while k < e.tags.len()
        invariant
            k <= e.tags@.len(),
            e@.tags.len() == e.tags@.len(),
            forall|j: int| 0 <= j < k ==> #[trigger] e@.tags[j] != tag@,
        decreases e.tags@.len() - k,
    {
        let t = chars_of(e.tags[k].as_str());
        assert(e@.tags[k as int] == e.tags@[k as int]@);
        if crate::db::io::chars_eq(&t, tag) {
            return true;
        }
        k = k + 1;
    }
    false
}

fn shown_exec(e: &Entry, q: &Vec<char>, tag: &Vec<char>, all_tags: bool, group: &Vec<char>, all_groups: bool) -> (r: bool)
    requires
        all_tags == (tag@ == ALL_TAGS@),
        all_groups == (group@ == ALL_GROUPS@),
    ensures
        r == (
            (tag@ == ALL_TAGS@ || e@.tags.contains(tag@))
            && (group@ == ALL_GROUPS@ || trim(e@.group) == group@)
            && found_by(e@, q@)
        ),
{
    let tag_ok = all_tags || has_tag(e, tag);
    let group_ok = all_groups || {
        let g = trim_chars(&chars_of(e.group.as_str()));
        crate::db::io::chars_eq(&g, group)
    };
    tag_ok && group_ok && found_by_exec(e, q)
}

/// The entries that the list shows for a search text and the choices of the
/// tag and group filters, in their order.
pub fn filter_entries(entries: &Vec<Entry>, query: &str, tag: &str, group: &str) -> (r: Vec<Entry>)
    ensures
        entries_view(r@) == shown_entries(entries_view(entries@), query@, tag@, group@),
{
    let ghost es = entries_view(entries@);
    let ghost pred = |e: EntryView| shown(e, query@, tag@, group@);
    let q = chars_of(to_lowercase(query).as_str());
    let tv = chars_of(tag);
    let gv = chars_of(group);
    let all_tags = crate::ui::theme::str_is(tag, ALL_TAGS);
    let all_groups = crate::ui::theme::str_is(group, ALL_GROUPS);
    let mut r: Vec<Entry> = Vec::new();
    let mut i: usize = 0;
    proof {
        reveal(Seq::filter);
        assert(es.take(0) =~= Seq::<EntryView>::empty());
        assert(entries_view(r@) =~= Seq::<EntryView>::empty());
    }
    while i < entries.len()
        invariant
            i <= entries@.len(),
            es == entries_view(entries@),
            q@ == lowercase(query@),
            tv@ == tag@,
            gv@ == group@,
            all_tags == (tag@ == ALL_TAGS@),
            all_groups == (group@ == ALL_GROUPS@),
            pred == (|e: EntryView| shown(e, query@, tag@, group@)),
            entries_view(r@) == es.take(i as int).filter(pred),
        decreases entries@.len() - i,
    {
        let ghost r0 = entries_view(r@);
        let keep = shown_exec(&entries[i], &q, &tv, all_tags, &gv, all_groups);
        proof {
            reveal(Seq::filter);
            assert(es.take(i + 1).drop_last() =~= es.take(i as int));
            assert(es.take(i + 1).last() == entries@[i as int]@);
            assert(keep == pred(entries@[i as int]@));
        }
        if keep {
            r.push(copy_entry(&entries[i]));
            assert(entries_view(r@) =~= r0.push(entries@[i as int]@));
        }
        i = i + 1;
    }
    assert(es.take(entries@.len() as int) =~= es);
    r
}

/// The code points of a text.
pub open spec fn code_points(s: Seq<char>) -> Seq<u64> {
    s.map_values(|c: char| (c as u32) as u64)
}

/// The key by which the list orders an entry: its title in lower case, or,
/// for the newest first, the distance of its change time from the latest
/// possible one.
pub open spec fn sort_key(e: EntryView, mode: SortMode) -> Seq<u64> {
    match mode {
        SortMode::Title => code_points(lowercase(e.title)),
        SortMode::Updated => seq![(i64::MAX - e.updated_at) as u64],
    }
}

/// The keys of a list of entries.
pub open spec fn sort_keys(es: Seq<EntryView>, mode: SortMode) -> Seq<Seq<u64>> {
    es.map_values(|e: EntryView| sort_key(e, mode))
}

/// `es` in the order of the list: sorted stably by key, so that entries
/// with equal keys keep their order.
pub open spec fn arrange(es: Seq<EntryView>, mode: SortMode) -> Seq<EntryView> {
    sorted_positions(sort_keys(es, mode)).map_values(|j: usize| es[j as int])
}

/// What the list shows for a search text and the choices of the filters.
pub open spec fn entry_list(
    es: Seq<EntryView>,
    query: Seq<char>,
    tag: Seq<char>,
    group: Seq<char>,
    mode: SortMode,
) -> Seq<EntryView> {
    arrange(shown_entries(es, query, tag, group), mode)
}

fn code_points_exec(s: &str) -> (r: Vec<u64>)
    ensures
        r@ == code_points(s@),
{
    let cs = chars_of(s);
    let mut r: Vec<u64> = Vec::new();
    let mut i: usize = 0;
    while i < cs.len()
        invariant
            i <= cs@.len(),
            cs@ == s@,
            r@ == code_points(cs@.take(i as int)),
        decreases cs@.len() - i,
    {
        r.push(cs[i] as u32 as u64);
        assert(code_points(cs@.take(i + 1)) =~= code_points(cs@.take(i as int)).push((cs@[i as int] as u32) as u64));
        i = i + 1;
    }
    assert(cs@.take(cs@.len() as int) =~= cs@);
    r
}

fn sort_key_exec(e: &Entry, mode: SortMode) -> (k: Vec<u64>)
    ensures
        k@ == sort_key(e@, mode),
{
    match mode {
        SortMode::Title => code_points_exec(to_lowercase(e.title.as_str()).as_str()),
        SortMode::Updated => {
            let d = (i64::MAX as i128 - e.updated_at as i128) as u64;
            let mut k: Vec<u64> = Vec::new();
            k.push(d);
            assert(k@ =~= seq![(i64::MAX - e.updated_at) as u64]);
            k
        },
    }
}

/// `entries` in the order of the list.
pub fn arrange_entries(entries: &Vec<Entry>, mode: SortMode) -> (r: Vec<Entry>)
    ensures
        entries_view(r@) == arrange(entries_view(entries@), mode),
{
    let ghost es = entries_view(entries@);
    let mut keys: Vec<Vec<u64>> = Vec::new();
    let mut i: usize = 0;
    while i < entries.len()
        invariant
            i <= entries@.len(),
            es == entries_view(entries@),
            keys_view(keys@) == sort_keys(es.take(i as int), mode),
        decreases entries@.len() - i,
    {
        let ghost k0 = keys_view(keys@);
        let k = sort_key_exec(&entries[i], mode);
        keys.push(k);
        assert(keys_view(keys@) =~= k0.push(sort_key(es[i as int], mode)));
        assert(sort_keys(es.take(i + 1), mode) =~= sort_keys(es.take(i as int), mode).push(
            sort_key(es[i as int], mode),
        ));
        i = i + 1;
    }
    assert(es.take(entries@.len() as int) =~= es);
    let order = sort_positions(&keys);
    let ghost kv = keys_view(keys@);
    let mut r: Vec<Entry> = Vec::new();
    let mut j: usize = 0;
    while j < order.len()
        invariant
            j <= order@.len(),
            kv == keys_view(keys@),
            kv == sort_keys(es, mode),
            es == entries_view(entries@),
            order@ == sorted_positions(kv),
            crate::order::stable_order(kv, order@),
            entries_view(r@) == order@.take(j as int).map_values(|p: usize| es[p as int]),
        decreases order@.len() - j,
    {
        let ghost r0 = entries_view(r@);
        let p = order[j];
        assert(order@[j as int] < kv.len());
        r.push(copy_entry(&entries[p]));
        assert(order@.take(j + 1).map_values(|p: usize| es[p as int]) =~= order@.take(j as int).map_values(
            |p: usize| es[p as int],
        ).push(es[p as int]));
        assert(entries_view(r@) =~= r0.push(es[p as int]));
        j = j + 1;
    }
    assert(order@.take(order@.len() as int) =~= order@);
    r
}

/// What the list shows for a search text, the choices of the tag and group
/// filters and the sort order.
pub fn visible_entries(entries: &Vec<Entry>, query: &str, tag: &str, group: &str, mode: SortMode) -> (r: Vec<Entry>)
    ensures
        entries_view(r@) == entry_list(entries_view(entries@), query@, tag@, group@, mode),
{
    let kept = filter_entries(entries, query, tag, group);
    arrange_entries(&kept, mode)
}

/// Whether `t` is a tag of one of the entries.
pub open spec fn tag_in_use(es: Seq<EntryView>, t: Seq<char>) -> bool {
    exists|i: int| 0 <= i < es.len() && (#[trigger] es[i]).tags.contains(t)
}

/// Whether `g` is the group of one of the entries, trimmed and not empty.
pub open spec fn group_in_use(es: Seq<EntryView>, g: Seq<char>) -> bool {
    g.len() > 0 && exists|i: int| 0 <= i < es.len() && trim((#[trigger] es[i]).group) == g
}

/// The names are distinct and in increasing order of code points (the
/// order of `Ord for String`).
pub open spec fn strictly_sorted(names: Seq<Seq<char>>) -> bool {
    forall|a: int, b: int|
        0 <= a < b < names.len() ==> lex_lt(code_points(#[trigger] names[a]), code_points(#[trigger] names[b]))
}

/// The choices of a filter: first `all`, the choice that lets everything
/// through, then each name for which `in_use` holds, once, in sorted order.
pub open spec fn filter_choices(v: Seq<Seq<char>>, all: Seq<char>, in_use: spec_fn(Seq<char>) -> bool) -> bool {
    &&& v.len() >= 1
    &&& v[0] == all
    &&& strictly_sorted(v.drop_first())
    &&& forall|t: Seq<char>| v.drop_first().contains(t) <==> #[trigger] in_use(t)
}

/// The code point of a character, widened, is its value.
proof fn lemma_code_point(c: char)
    ensures
        ((c as u32) as u64) as int == c as int,
{
}

/// Different texts have different code points.
pub proof fn lemma_code_points_injective(a: Seq<char>, b: Seq<char>)
    requires
        code_points(a) == code_points(b),
    ensures
        a == b,
{
    assert(a.len() == code_points(a).len());
    assert(b.len() == code_points(b).len());
    assert forall|i: int| 0 <= i < a.len() implies a[i] == b[i] by {
        assert(code_points(a)[i] == ((a[i] as u32) as u64));
        assert(code_points(b)[i] == ((b[i] as u32) as u64));
        lemma_code_point(a[i]);
        lemma_code_point(b[i]);
        assert((a[i] as int) == (b[i] as int));
    }
    assert(a =~= b);
}

/// Adds `t` to `names` unless it is there already.
fn add_name(names: &mut Vec<String>, t: String)
    ensures
        strings_view(final(names)@) == (if strings_view(old(names)@).contains(t@) {
            strings_view(old(names)@)
        } else {
            strings_view(old(names)@).push(t@)
        }),
        strings_view(old(names)@).no_duplicates() ==> strings_view(final(names)@).no_duplicates(),
        forall|u: Seq<char>|
            #[trigger] strings_view(final(names)@).contains(u) <==> (strings_view(old(names)@).contains(u) || u
                == t@),
{
    let ghost v0 = strings_view(names@);
    let mut k: usize = 0;
    while k < names.len()
        invariant
            k <= names@.len(),
            v0 == strings_view(names@),
            forall|j: int| 0 <= j < k ==> #[trigger] v0[j] != t@,
        decreases names@.len() - k,
    {
        if names[k] == t {
            assert(v0[k as int] == t@);
            return;
        }
        k = k + 1;
    }
    let ghost tv = t@;
    names.push(t);
    assert(strings_view(names@) =~= v0.push(tv));
    assert(!v0.contains(tv));
    assert forall|u: Seq<char>| #[trigger] strings_view(names@).contains(u) <==> (v0.contains(u) || u == tv) by {
        if v0.contains(u) {
            let j = choose|j: int| 0 <= j < v0.len() && v0[j] == u;
            assert(strings_view(names@)[j] == u);
        }
        if u == tv {
            assert(strings_view(names@)[v0.len() as int] == u);
        }
    }
}

/// `first`, then the distinct `names` in sorted order.
fn sorted_choices(first: &str, names: &Vec<String>) -> (r: Vec<String>)
    requires
        strings_view(names@).no_duplicates(),
    ensures
        strings_view(r@).len() >= 1,
        strings_view(r@)[0] == first@,
        strictly_sorted(strings_view(r@).drop_first()),
        forall|t: Seq<char>| strings_view(r@).drop_first().contains(t) <==> strings_view(names@).contains(t),
{
    let ghost nv = strings_view(names@);
    let mut keys: Vec<Vec<u64>> = Vec::new();
    let mut i: usize = 0;
    while i < names.len()
        invariant
            i <= names@.len(),
            nv == strings_view(names@),
            keys_view(keys@) == nv.take(i as int).map_values(|t: Seq<char>| code_points(t)),
        decreases names@.len() - i,
    {
        let ghost k0 = keys_view(keys@);
        keys.push(code_points_exec(names[i].as_str()));
        assert(keys_view(keys@) =~= k0.push(code_points(nv[i as int])));
        assert(nv.take(i + 1).map_values(|t: Seq<char>| code_points(t)) =~= nv.take(i as int).map_values(
            |t: Seq<char>| code_points(t),
        ).push(code_points(nv[i as int])));
        i = i + 1;
    }
    assert(nv.take(names@.len() as int) =~= nv);
    let ghost kv = keys_view(keys@);
    let order = sort_positions(&keys);
    let mut r: Vec<String> = Vec::new();
    r.push(String::from_str(first));
    let mut j: usize = 0;
    while j < order.len()
        invariant
            j <= order@.len(),
            kv == keys_view(keys@),
            kv == nv.map_values(|t: Seq<char>| code_points(t)),
            nv == strings_view(names@),
            crate::order::stable_order(kv, order@),
            strings_view(r@) == seq![first@] + order@.take(j as int).map_values(|p: usize| nv[p as int]),
        decreases order@.len() - j,
    {
        let ghost r0 = strings_view(r@);
        let p = order[j];
        assert(order@[j as int] < kv.len());
        r.push(names[p].clone());
        assert(order@.take(j + 1).map_values(|p: usize| nv[p as int]) =~= order@.take(j as int).map_values(
            |p: usize| nv[p as int],
        ).push(nv[p as int]));
        assert(strings_view(r@) =~= r0.push(nv[p as int]));
        j = j + 1;
    }
    assert(order@.take(order@.len() as int) =~= order@);
    let ghost v = strings_view(r@);
    let ghost listed = order@.map_values(|p: usize| nv[p as int]);
    assert(v.drop_first() =~= listed);
    assert forall|a: int, b: int| 0 <= a < b < listed.len() implies lex_lt(
        code_points(#[trigger] listed[a]),
        code_points(#[trigger] listed[b]),
    ) by {
        let x = order@[a] as int;
        let y = order@[b] as int;
        assert(goes_before(kv, x, y));
        if kv[x] == kv[y] {
            lemma_code_points_injective(nv[x], nv[y]);
        }
    }
    assert forall|t: Seq<char>| listed.contains(t) <==> nv.contains(t) by {
        if nv.contains(t) {
            let m = choose|m: int| 0 <= m < nv.len() && nv[m] == t;
            lemma_stable_order_complete(kv, order@, m);
            let k = choose|k: int| 0 <= k < order@.len() && order@[k] == m;
            assert(listed[k] == t);
        }
        if listed.contains(t) {
            let k = choose|k: int| 0 <= k < listed.len() && listed[k] == t;
            assert(nv[order@[k] as int] == t);
        }
    }
    r
}

/// The choices of the tag filter: `ALL_TAGS`, then every tag of the
/// entries, once, in sorted order.
pub fn tag_choices(entries: &Vec<Entry>) -> (r: Vec<String>)
    ensures
        filter_choices(strings_view(r@), ALL_TAGS@, |t: Seq<char>| tag_in_use(entries_view(entries@), t)),
{
    let ghost es = entries_view(entries@);
    let mut names: Vec<String> = Vec::new();
    let mut i: usize = 0;
    while i < entries.len()
        invariant
            i <= entries@.len(),
            es == entries_view(entries@),
            strings_view(names@).no_duplicates(),
            forall|t: Seq<char>| #[trigger] strings_view(names@).contains(t) <==> tag_in_use(es.take(i as int), t),
        decreases entries@.len() - i,
    {
        let ghost tags = es[i as int].tags;
        let mut k: usize = 0;
        while k < entries[i].tags.len()
            invariant
                i < entries@.len(),
                k <= entries@[i as int].tags@.len(),
                es == entries_view(entries@),
                tags == es[i as int].tags,
                tags == strings_view(entries@[i as int].tags@),
                strings_view(names@).no_duplicates(),
                forall|t: Seq<char>| #[trigger] strings_view(names@).contains(t) <==> (tag_in_use(es.take(i as int), t)
                    || tags.take(k as int).contains(t)),
            decreases entries@[i as int].tags@.len() - k,
        {
            let ghost before = strings_view(names@);
            add_name(&mut names, entries[i].tags[k].clone());
            assert forall|t: Seq<char>| tags.take(k + 1).contains(t) <==> (tags.take(k as int).contains(t) || t
                == tags[k as int]) by {
                if tags.take(k + 1).contains(t) {
                    let j = choose|j: int| 0 <= j < k + 1 && #[trigger] tags.take(k + 1)[j] == t;
                    if j < k {
                        assert(tags.take(k as int)[j] == t);
                    }
                }
                if tags.take(k as int).contains(t) {
                    let j = choose|j: int| 0 <= j < k && #[trigger] tags.take(k as int)[j] == t;
                    assert(tags.take(k + 1)[j] == t);
                }
                if t == tags[k as int] {
                    assert(tags.take(k + 1)[k as int] == t);
                }
            }
            k = k + 1;
        }
        assert(tags.take(tags.len() as int) =~= tags);
        assert forall|t: Seq<char>| tag_in_use(es.take(i + 1), t) <==> (tag_in_use(es.take(i as int), t)
            || tags.contains(t)) by {
            if tag_in_use(es.take(i + 1), t) {
                let j = choose|j: int| 0 <= j < i + 1 && (#[trigger] es.take(i + 1)[j]).tags.contains(t);
                if j < i {
                    assert(es.take(i as int)[j] == es.take(i + 1)[j]);
                }
            }
            if tag_in_use(es.take(i as int), t) {
                let j = choose|j: int| 0 <= j < i && (#[trigger] es.take(i as int)[j]).tags.contains(t);
                assert(es.take(i + 1)[j] == es.take(i as int)[j]);
            }
            if tags.contains(t) {
                assert(es.take(i + 1)[i as int] == es[i as int]);
            }
        }
        i = i + 1;
    }
    assert(es.take(entries@.len() as int) =~= es);
    let r = sorted_choices(ALL_TAGS, &names);
    assert forall|t: Seq<char>| strings_view(r@).drop_first().contains(t) <==> tag_in_use(es, t) by {
        assert(strings_view(names@).contains(t) <==> tag_in_use(es, t));
    }
    r
}

/// The choices of the group filter: `ALL_GROUPS`, then every group of the
/// entries, trimmed and not empty, once, in sorted order.
pub fn group_choices(entries: &Vec<Entry>) -> (r: Vec<String>)
    ensures
        filter_choices(strings_view(r@), ALL_GROUPS@, |g: Seq<char>| group_in_use(entries_view(entries@), g)),
{
    let ghost es = entries_view(entries@);
    let mut names: Vec<String> = Vec::new();
    let mut i: usize = 0;
    while i < entries.len()
        invariant
            i <= entries@.len(),
            es == entries_view(entries@),
            strings_view(names@).no_duplicates(),
            forall|g: Seq<char>| #[trigger] strings_view(names@).contains(g) <==> group_in_use(es.take(i as int), g),
        decreases entries@.len() - i,
    {
        let g = trim_chars(&chars_of(entries[i].group.as_str()));
        assert(g@ == trim(es[i as int].group));
        if g.len() > 0 {
            add_name(&mut names, crate::text::string_of(&g));
        }
        assert forall|h: Seq<char>| group_in_use(es.take(i + 1), h) <==> (group_in_use(es.take(i as int), h) || (
        h.len() > 0 && h == g@)) by {
            if group_in_use(es.take(i + 1), h) {
                let j = choose|j: int| 0 <= j < i + 1 && trim((#[trigger] es.take(i + 1)[j]).group) == h;
                if j < i {
                    assert(es.take(i as int)[j] == es.take(i + 1)[j]);
                }
            }
            if group_in_use(es.take(i as int), h) {
                let j = choose|j: int| 0 <= j < i && trim((#[trigger] es.take(i as int)[j]).group) == h;
                assert(es.take(i + 1)[j] == es.take(i as int)[j]);
            }
            if h.len() > 0 && h == g@ {
                assert(es.take(i + 1)[i as int] == es[i as int]);
            }
        }
        i = i + 1;
    }
    assert(es.take(entries@.len() as int) =~= es);
    let r = sorted_choices(ALL_GROUPS, &names);
    assert forall|g: Seq<char>| strings_view(r@).drop_first().contains(g) <==> group_in_use(es, g) by {
        assert(strings_view(names@).contains(g) <==> group_in_use(es, g));
    }
    r
}

/// The colour labels an entry can carry: the colour, then its name. The
/// first stands for no colour.
pub open spec fn palette() -> Seq<(Seq<char>, Seq<char>)> {
    seq![
        (""@, "Без цвета"@),
        ("#e74c3c"@, "Красный"@),
        ("#e67e22"@, "Оранжевый"@),
        ("#f1c40f"@, "Жёлтый"@),
        ("#2ecc71"@, "Зелёный"@),
        ("#3498db"@, "Синий"@),
        ("#9b59b6"@, "Фиолетовый"@),
        ("#95a5a6"@, "Серый"@),
    ]
}

/// The colour of the palette's choice `index`; none past its end.
pub open spec fn palette_color_spec(index: nat) -> Seq<char> {
    if index < palette().len() {
        palette()[index as int].0
    } else {
        ""@
    }
}

/// The colour of the palette's choice `index`; none past its end.
pub fn palette_color(index: usize) -> (c: &'static str)
    ensures
        c@ == palette_color_spec(index as nat),
{
    match index {
        0 => "",
        1 => "#e74c3c",
        2 => "#e67e22",
        3 => "#f1c40f",
        4 => "#2ecc71",
        5 => "#3498db",
        6 => "#9b59b6",
        7 => "#95a5a6",
        _ => "",
    }
}

/// The name of the palette's choice `index`, as the colour list shows it.
pub fn palette_name(index: usize) -> (n: &'static str)
    requires
        index < palette().len(),
    ensures
        n@ == palette()[index as int].1,
{
    match index {
        0 => "Без цвета",
        1 => "Красный",
        2 => "Оранжевый",
        3 => "Жёлтый",
        4 => "Зелёный",
        5 => "Синий",
        6 => "Фиолетовый",
        _ => "Серый",
    }
}

/// The first choice of the palette, from `from` on, whose colour is
/// `color`; the first choice when there is none.
pub open spec fn palette_find(color: Seq<char>, from: nat) -> nat
    decreases palette().len() - from,
{
    if from >= palette().len() {
        0
    } else if palette()[from as int].0 == color {
        from
    } else {
        palette_find(color, from + 1)
    }
}

/// The palette's choice that shows `color`: the first with that colour, or
/// the first choice (no colour) when the palette does not hold it.
pub fn palette_index(color: &str) -> (i: usize)
    ensures
        i == palette_find(color@, 0),
        i < palette().len(),
{
    let mut k: usize = 0;
    while k < 8
        invariant
            k <= 8,
            palette().len() == 8,
            palette_find(color@, 0) == palette_find(color@, k as nat),
        decreases 8 - k,
    {
        if crate::ui::theme::str_is(palette_color(k), color) {
            return k;
        }
        k = k + 1;
    }
    0
}

/// The error shown when the entry form lacks a title or a password.
pub open spec fn form_incomplete_error() -> Seq<char> {
    "Название и пароль не могут быть пустыми."@
}

/// The fields of the entry form, as the user left them.
pub struct EntryForm {
    pub id: Option<i64>,
    pub title: String,
    pub username: String,
    pub password: String,
    pub url: String,
    pub notes: String,
    /// Tags separated by commas.
    pub tags: String,
    pub group: String,
    /// The choice in the colour list.
    pub color: usize,
    pub totp_secret: String,
    pub favorite: bool,
}

/// The entry that a complete form describes; its times are left to the
/// vault.
pub open spec fn form_entry(f: EntryForm) -> EntryView {
    EntryView {
        id: f.id,
        title: f.title@,
        username: f.username@,
        password: f.password@,
        url: f.url@,
        notes: f.notes@,
        tags: tag_list(f.tags@, ','),
        group: f.group@,
        color: palette_color_spec(f.color as nat),
        totp_secret: f.totp_secret@,
        favorite: f.favorite,
        created_at: 0,
        updated_at: 0,
    }
}

/// Reads the entry form: the entry it describes, or an error when the title
/// or the password is empty.
pub fn entry_from_form(form: &EntryForm) -> (r: Result<Entry, String>)
    ensures
        r is Err <==> (form.title@.len() == 0 || form.password@.len() == 0),
        r matches Err(m) ==> m@ == form_incomplete_error(),
        r matches Ok(e) ==> e@ == form_entry(*form),
{
    if form.title.as_str().unicode_len() == 0 || form.password.as_str().unicode_len() == 0 {
        return Err(String::from_str("Название и пароль не могут быть пустыми."));
    }
    let tags = tags_exec(&chars_of(form.tags.as_str()), ',');
    Ok(Entry {
        id: form.id,
        title: form.title.clone(),
        username: form.username.clone(),
        password: form.password.clone(),
        url: form.url.clone(),
        notes: form.notes.clone(),
        tags,
        group: form.group.clone(),
        color: String::from_str(palette_color(form.color)),
        totp_secret: form.totp_secret.clone(),
        favorite: form.favorite,
        created_at: 0,
        updated_at: 0,
    })
}

/// The form that shows an entry: its tags joined by `", "`, its colour as
/// the palette's choice.
pub open spec fn entry_form_fields(e: EntryView) -> (Seq<char>, nat) {
    (join(e.tags, ", "@), palette_find(e.color, 0))
}

/// Fills the entry form with an entry.
pub fn form_of_entry(e: &Entry) -> (f: EntryForm)
    ensures
        f.id == e@.id,
        f.title@ == e@.title,
        f.username@ == e@.username,
        f.password@ == e@.password,
        f.url@ == e@.url,
        f.notes@ == e@.notes,
        f.tags@ == entry_form_fields(e@).0,
        f.group@ == e@.group,
        f.color == entry_form_fields(e@).1,
        f.totp_secret@ == e@.totp_secret,
        f.favorite == e@.favorite,
{
    let sep = chars_of(", ");
    let tags = crate::text::string_of(&join_strings(&e.tags, &sep));
    EntryForm {
        id: e.id,
        title: e.title.clone(),
        username: e.username.clone(),
        password: e.password.clone(),
        url: e.url.clone(),
        notes: e.notes.clone(),
        tags,
        group: e.group.clone(),
        color: palette_index(e.color.as_str()),
        totp_secret: e.totp_secret.clone(),
        favorite: e.favorite,
    }
}

/// The error shown when an entry without a URL is to be opened.
pub open spec fn empty_url_error() -> Seq<char> {
    "URL записи пуст."@
}

/// The address that opening an entry's URL hands to the browser: the URL
/// with `https://` in front when it names no scheme.
pub open spec fn url_to_open_spec(url: Seq<char>) -> Result<Seq<char>, Seq<char>> {
    if trim(url).len() == 0 {
        Err(empty_url_error())
    } else if contains_seq(url, "://"@) {
        Ok(url)
    } else {
        Ok("https://"@ + url)
    }
}

/// The address that opening an entry's URL hands to the browser, or the
/// error shown when the URL is blank.
pub fn url_to_open(url: &str) -> (r: Result<String, String>)
    ensures
        r is Ok ==> url_to_open_spec(url@) == Ok::<Seq<char>, Seq<char>>(r->Ok_0@),
        r is Err ==> url_to_open_spec(url@) == Err::<Seq<char>, Seq<char>>(r->Err_0@),
{
    let cs = chars_of(url);
    if trim_chars(&cs).len() == 0 {
        return Err(String::from_str("URL записи пуст."));
    }
    if contains_chars(&cs, &chars_of("://")) {
        Ok(String::from_str(url))
    } else {
        let mut full = chars_of("https://");
        crate::text::extend_chars(&mut full, &cs);
        Ok(crate::text::string_of(&full))
    }
}

/// The error shown when the new master password and its confirmation differ.
pub open spec fn confirm_mismatch_error() -> Seq<char> {
    "Новый пароль и подтверждение не совпадают."@
}

/// The error shown when the new master password is too short.
pub open spec fn short_password_error() -> Seq<char> {
    "Новый пароль слишком короткий (минимум 8 символов)."@
}

/// Checks a new master password and its confirmation before the vault is
/// re-keyed: they must agree, and the password must have at least 8
/// characters, as the message says.
pub fn check_new_master_password(new_password: &str, confirmation: &str) -> (r: Result<(), String>)
    ensures
        new_password@ != confirmation@ ==> (r matches Err(m) && m@ == confirm_mismatch_error()),
        new_password@ == confirmation@ && new_password@.len() < 8 ==> (r matches Err(m) && m@
            == short_password_error()),
        r is Ok <==> (new_password@ == confirmation@ && new_password@.len() >= 8),
{
    if !crate::ui::theme::str_is(new_password, confirmation) {
        return Err(String::from_str("Новый пароль и подтверждение не совпадают."));
    }
    if new_password.unicode_len() < 8 {
        return Err(String::from_str("Новый пароль слишком короткий (минимум 8 символов)."));
    }
    Ok(())
}

/// Whether the vault locks itself for lack of activity: auto-lock is on, a
/// vault is open, and no key or pointer event came for `minutes` minutes.
/// Times are monotonic clock readings in microseconds.
pub open spec fn idle_lock_spec(minutes: u32, vault_open: bool, now_us: i64, last_activity_us: i64) -> bool {
    minutes > 0 && vault_open && (now_us - last_activity_us) / 1_000_000 >= minutes * 60
}

/// Whether the periodic check locks the vault for lack of activity.
pub fn idle_lock(minutes: u32, vault_open: bool, now_us: i64, last_activity_us: i64) -> (r: bool)
    requires
        i64::MIN <= now_us - last_activity_us <= i64::MAX,
    ensures
        r == idle_lock_spec(minutes, vault_open, now_us, last_activity_us),
{
    if minutes > 0 && vault_open {
        let idle_secs = (now_us - last_activity_us) / 1_000_000;
        idle_secs >= (minutes as i64) * 60
    } else {
        false
    }
}

/// Whether an imported entry is saved: it needs a title that is not blank
/// and a password.
pub open spec fn importable(e: EntryView) -> bool {
    trim(e.title).len() > 0 && e.password.len() > 0
}

/// The imported entries that are saved, in their order.
pub fn importable_entries(entries: &Vec<Entry>) -> (r: Vec<Entry>)
    ensures
        entries_view(r@) == entries_view(entries@).filter(|e: EntryView| importable(e)),
{
    let ghost es = entries_view(entries@);
    let ghost pred = |e: EntryView| importable(e);
    let mut r: Vec<Entry> = Vec::new();
    let mut i: usize = 0;
    proof {
        reveal(Seq::filter);
        assert(es.take(0) =~= Seq::<EntryView>::empty());
        assert(entries_view(r@) =~= Seq::<EntryView>::empty());
    }
    while i < entries.len()
        invariant
            i <= entries@.len(),
            es == entries_view(entries@),
            pred == (|e: EntryView| importable(e)),
            entries_view(r@) == es.take(i as int).filter(pred),
        decreases entries@.len() - i,
    {
        let ghost r0 = entries_view(r@);
        let keep = trim_chars(&chars_of(entries[i].title.as_str())).len() > 0
            && entries[i].password.as_str().unicode_len() > 0;
        proof {
            reveal(Seq::filter);
            assert(es.take(i + 1).drop_last() =~= es.take(i as int));
            assert(es.take(i + 1).last() == entries@[i as int]@);
            assert(keep == pred(entries@[i as int]@));
        }
        if keep {
            r.push(copy_entry(&entries[i]));
            assert(entries_view(r@) =~= r0.push(entries@[i as int]@));
        }
        i = i + 1;
    }
    assert(es.take(entries@.len() as int) =~= es);
    r
}

/// The strength shown under the password field: none while it is empty.
pub fn password_strength_hint(password: &str) -> (r: Option<Strength>)
    ensures
        password@.len() == 0 ==> r is None,
        password@.len() > 0 ==> r == Some(strength_spec(password@)),
{
    if password.unicode_len() == 0 {
        None
    } else {
        Some(strength(password))
    }
}

/// The error shown when an entry without a TOTP secret asks for its code.
pub open spec fn no_totp_secret_error() -> Seq<char> {
    "У записи не задан TOTP-секрет."@
}

/// The secret that the TOTP dialog works with: the field trimmed, or the
/// error shown when it is blank.
pub fn totp_dialog_secret(secret: &str) -> (r: Result<String, String>)
    ensures
        trim(secret@).len() == 0 ==> (r matches Err(m) && m@ == no_totp_secret_error()),
        trim(secret@).len() > 0 ==> (r matches Ok(t) && t@ == trim(secret@)),
{
    let t = trim_chars(&chars_of(secret));
    if t.len() == 0 {
        Err(String::from_str("У записи не задан TOTP-секрет."))
    } else {
        Ok(crate::text::string_of(&t))
    }
}

/// The error shown when an empty password is to be copied.
pub open spec fn empty_password_copy_error() -> Seq<char> {
    "Пароль пуст — нечего копировать."@
}

/// The notice after a password is copied: when the clipboard is cleared,
/// or that it is not.
pub open spec fn password_copied_notice(clear_seconds: u64) -> Seq<char> {
    if clear_seconds > 0 {
        "Пароль скопирован, будет очищен через "@ + decimal(clear_seconds as nat) + " секунд"@
    } else {
        "Пароль скопирован (автоочистка буфера отключена)"@
    }
}

/// Copying a password: the error when it is empty; otherwise the notice and
/// the number of seconds after which the clipboard is emptied, if it is.
pub fn copy_password_plan(password: &str, clear_seconds: u64) -> (r: Result<(String, Option<u64>), String>)
    ensures
        password@.len() == 0 ==> (r matches Err(m) && m@ == empty_password_copy_error()),
        password@.len() > 0 ==> (r matches Ok((notice, clear)) && notice@ == password_copied_notice(
            clear_seconds,
        ) && clear == (if clear_seconds > 0 {
            Some(clear_seconds)
        } else {
            None
        })),
{
    if password.unicode_len() == 0 {
        return Err(String::from_str("Пароль пуст — нечего копировать."));
    }
    if clear_seconds > 0 {
        let notice = String::from_str("Пароль скопирован, будет очищен через ").concat(
            decimal_string_u64(clear_seconds).as_str(),
        ).concat(" секунд");
        Ok((notice, Some(clear_seconds)))
    } else {
        Ok((String::from_str("Пароль скопирован (автоочистка буфера отключена)"), None))
    }
}

/// The error shown when an empty login is to be copied.
pub open spec fn empty_login_copy_error() -> Seq<char> {
    "Логин пуст — нечего копировать."@
}

/// The notice after a login is copied.
pub open spec fn login_copied_notice() -> Seq<char> {
    "Логин скопирован (буфер не очищается автоматически)"@
}

/// Copying a login: the error when it is empty, otherwise the notice (the
/// clipboard is not cleared afterwards).
pub fn copy_login_plan(username: &str) -> (r: Result<String, String>)
    ensures
        username@.len() == 0 ==> (r matches Err(m) && m@ == empty_login_copy_error()),
        username@.len() > 0 ==> (r matches Ok(n) && n@ == login_copied_notice()),
{
    if username.unicode_len() == 0 {
        Err(String::from_str("Логин пуст — нечего копировать."))
    } else {
        Ok(String::from_str("Логин скопирован (буфер не очищается автоматически)"))
    }
}

/// The error shown when auto-type is asked for without a password.
pub open spec fn autotype_no_password_error() -> Seq<char> {
    "Сначала выберите запись — пароль пуст."@
}

/// Whether the form's entry can be auto-typed: it needs a password.
pub fn autotype_entry_check(password: &str) -> (r: Result<(), String>)
    ensures
        password@.len() == 0 ==> (r matches Err(m) && m@ == autotype_no_password_error()),
        password@.len() > 0 ==> r is Ok,
{
    if password.unicode_len() == 0 {
        Err(String::from_str("Сначала выберите запись — пароль пуст."))
    } else {
        Ok(())
    }
}

/// A tag that the entry form shows and reads back unchanged: not empty,
/// without commas, without white space at either end.
pub open spec fn form_tag_ok(t: Seq<char>) -> bool {
    t.len() > 0 && !t.contains(',') && trim(t) == t
}

/// The tags after the first, each behind the space that `", "` leaves.
pub open spec fn spaced_tail(ts: Seq<Seq<char>>) -> Seq<Seq<char>> {
    ts.drop_first().map_values(|t: Seq<char>| seq![' '] + t)
}

proof fn lemma_lead_ws_bound(s: Seq<char>)
    ensures
        lead_ws(s) <= s.len(),
    decreases s.len(),
{
    if s.len() > 0 && is_white(s[0]) {
        lemma_lead_ws_bound(s.drop_first());
    }
}

proof fn lemma_trail_ws_bound(s: Seq<char>)
    ensures
        trail_ws(s) <= s.len(),
    decreases s.len(),
{
    if s.len() > 0 && is_white(s.last()) {
        lemma_trail_ws_bound(s.drop_last());
    }
}

/// A space in front of a trimmed text is trimmed away again.
proof fn lemma_trim_spaced(t: Seq<char>)
    requires
        trim(t) == t,
    ensures
        trim(seq![' '] + t) == t,
{
    let s = seq![' '] + t;
    lemma_lead_ws_bound(t);
    lemma_trail_ws_bound(t.skip(lead_ws(t) as int));
    assert(lead_ws(t) == 0);
    assert(s.drop_first() =~= t);
    assert(lead_ws(s) == 1);
    assert(s.skip(1) =~= t);
    assert(t.skip(0) =~= t);
}

/// Splitting the tags joined by `", "` at the commas gives the first tag
/// (after what came before) and the others behind a space.
proof fn lemma_split_spaced(ts: Seq<Seq<char>>, cur: Seq<char>)
    requires
        ts.len() >= 1,
        forall|j: int| 0 <= j < ts.len() ==> form_tag_ok(#[trigger] ts[j]),
    ensures
        split_acc(join(ts, ", "@), cur, ',') == seq![cur + ts[0]] + spaced_tail(ts),
    decreases ts.len(),
{
    reveal_strlit(", ");
    assert(form_tag_ok(ts[0]));
    if ts.len() == 1 {
        assert(join(ts, ", "@) == ts[0]);
        lemma_split_no_sep(ts[0], Seq::empty(), cur, ',');
        assert(ts[0] + Seq::<char>::empty() =~= ts[0]);
        assert(split_acc(Seq::<char>::empty(), cur + ts[0], ',') == seq![cur + ts[0]]);
        assert(spaced_tail(ts) =~= Seq::<Seq<char>>::empty());
        assert(seq![cur + ts[0]] + spaced_tail(ts) =~= seq![cur + ts[0]]);
    } else {
        let tail = ts.drop_first();
        assert forall|j: int| 0 <= j < tail.len() implies form_tag_ok(#[trigger] tail[j]) by {
            assert(tail[j] == ts[j + 1]);
        }
        let jt = join(tail, ", "@);
        let rest = ", "@ + jt;
        assert(join(ts, ", "@) =~= ts[0] + rest);
        lemma_split_no_sep(ts[0], rest, cur, ',');
        assert(rest[0] == ',');
        assert(rest.drop_first() =~= seq![' '] + jt);
        assert(!seq![' '].contains(',')) by {
            if seq![' '].contains(',') {
                let i = choose|i: int| 0 <= i < 1 && seq![' '][i] == ',';
            }
        }
        lemma_split_no_sep(seq![' '], jt, Seq::empty(), ',');
        assert(Seq::<char>::empty() + seq![' '] =~= seq![' ']);
        lemma_split_spaced(tail, seq![' ']);
        assert(seq![seq![' '] + tail[0]] + spaced_tail(tail) =~= spaced_tail(ts));
        assert(seq![cur + ts[0]] + (seq![seq![' '] + tail[0]] + spaced_tail(tail)) =~= seq![cur + ts[0]]
            + spaced_tail(ts));
    }
}

/// Trimming keeps every piece, and gives `q`, when each piece trims to the
/// text at its place in `q` and none of those is empty.
proof fn lemma_keep_all(p: Seq<Seq<char>>, q: Seq<Seq<char>>)
    requires
        p.len() == q.len(),
        forall|k: int| 0 <= k < p.len() ==> trim(#[trigger] p[k]) == q[k] && q[k].len() > 0,
    ensures
        keep_tags(p) == q,
    decreases p.len(),
{
    if p.len() > 0 {
        let pl = p.drop_last();
        let ql = q.drop_last();
        assert forall|k: int| 0 <= k < pl.len() implies trim(#[trigger] pl[k]) == ql[k] && ql[k].len() > 0 by {
            assert(pl[k] == p[k] && ql[k] == q[k]);
        }
        lemma_keep_all(pl, ql);
        assert(trim(p[p.len() - 1]) == q[q.len() - 1]);
        assert(ql.push(q.last()) =~= q);
    }
}

/// The tags of an entry, joined by `", "` in the form and read back at the
/// commas, are its tags again when each is one the form can hold.
pub proof fn lemma_form_tags_round_trip(ts: Seq<Seq<char>>)
    requires
        forall|j: int| 0 <= j < ts.len() ==> form_tag_ok(#[trigger] ts[j]),
    ensures
        tag_list(join(ts, ", "@), ',') == ts,
{
    if ts.len() == 0 {
        let e = Seq::<char>::empty();
        assert(join(ts, ", "@) == e);
        assert(split_on(e, ',') == seq![e]);
        assert(seq![e].drop_last() =~= Seq::<Seq<char>>::empty());
        assert(lead_ws(e) == 0);
        assert(trim(e).len() == 0);
        assert(keep_tags(Seq::<Seq<char>>::empty()) == Seq::<Seq<char>>::empty());
        assert(keep_tags(seq![e]) =~= Seq::<Seq<char>>::empty());
        assert(ts =~= Seq::<Seq<char>>::empty());
    } else {
        lemma_split_spaced(ts, Seq::empty());
        let p = seq![Seq::<char>::empty() + ts[0]] + spaced_tail(ts);
        assert(Seq::<char>::empty() + ts[0] =~= ts[0]);
        assert forall|k: int| 0 <= k < p.len() implies trim(#[trigger] p[k]) == ts[k] && ts[k].len() > 0 by {
            assert(form_tag_ok(ts[k]));
            if k > 0 {
                assert(p[k] == seq![' '] + ts[k]);
                lemma_trim_spaced(ts[k]);
            }
        }
        lemma_keep_all(p, ts);
    }
}

/// The palette's choice for a colour it holds shows that colour.
proof fn lemma_palette_find(color: Seq<char>, from: nat)
    requires
        exists|k: int| from <= k < palette().len() && (#[trigger] palette()[k]).0 == color,
    ensures
        palette_color_spec(palette_find(color, from)) == color,
    decreases palette().len() - from,
{
    if from < palette().len() && palette()[from as int].0 != color {
        let k = choose|k: int| from <= k < palette().len() && (#[trigger] palette()[k]).0 == color;
        assert(k != from);
        lemma_palette_find(color, from + 1);
    }
}

/// Showing an entry in the form and reading the form back gives its tags
/// and its colour again, when its tags are ones the form can hold and its
/// colour is one of the palette's.
pub proof fn lemma_form_round_trip(e: EntryView)
    requires
        forall|j: int| 0 <= j < e.tags.len() ==> form_tag_ok(#[trigger] e.tags[j]),
        exists|k: int| 0 <= k < palette().len() && (#[trigger] palette()[k]).0 == e.color,
    ensures
        tag_list(entry_form_fields(e).0, ',') == e.tags,
        palette_color_spec(entry_form_fields(e).1) == e.color,
{
    lemma_form_tags_round_trip(e.tags);
    lemma_palette_find(e.color, 0);
}

/// The vault locks for lack of activity exactly when auto-lock is on, a
/// vault is open, and at least the configured number of minutes (60 000 000
/// microseconds each) passed since the last activity. More idle time never
/// unlocks it again.
pub proof fn lemma_idle_lock_follows_setting(minutes: u32, vault_open: bool, now_us: i64, last_us: i64, later_us: i64)
    requires
        now_us <= later_us,
    ensures
        idle_lock_spec(minutes, vault_open, now_us, last_us) <==> (minutes > 0 && vault_open && now_us - last_us
            >= 60_000_000 * minutes),
        idle_lock_spec(minutes, vault_open, now_us, last_us) ==> idle_lock_spec(minutes, vault_open, later_us, last_us),
{
    let d = now_us - last_us;
    let m = minutes as int;
    if d >= 60_000_000 * m {
        assert(d / 1_000_000 >= 60 * m) by (nonlinear_arith)
            requires
                d >= 60_000_000 * m,
                m >= 0,
        ;
    }
    if d / 1_000_000 >= 60 * m {
        assert(d >= 60_000_000 * m) by (nonlinear_arith)
            requires
                d / 1_000_000 >= 60 * m,
        ;
    }
    let d2 = later_us - last_us;
    if d2 >= 60_000_000 * m {
        assert(d2 / 1_000_000 >= 60 * m) by (nonlinear_arith)
            requires
                d2 >= 60_000_000 * m,
                m >= 0,
        ;
    }
}

/// Search ignores case: an entry whose title, login, URL, group or one of
/// whose tags holds the search text, both taken in lower case, is in the
/// list when no tag and no group is chosen.
pub proof fn lemma_search_ignores_case(es: Seq<EntryView>, query: Seq<char>, j: int)
    requires
        0 <= j < es.len(),
        ({
            let e = es[j];
            let q = lowercase(query);
            ||| contains_seq(lowercase(e.title), q)
            ||| contains_seq(lowercase(e.username), q)
            ||| contains_seq(lowercase(e.url), q)
            ||| contains_seq(lowercase(e.group), q)
            ||| exists|k: int| 0 <= k < e.tags.len() && contains_seq(lowercase(#[trigger] e.tags[k]), q)
        }),
    ensures
        shown_entries(es, query, ALL_TAGS@, ALL_GROUPS@).contains(es[j]),
{
    let e = es[j];
    let q = lowercase(query);
    if exists|k: int| 0 <= k < e.tags.len() && contains_seq(lowercase(#[trigger] e.tags[k]), q) {
        let k = choose|k: int| 0 <= k < e.tags.len() && contains_seq(lowercase(#[trigger] e.tags[k]), q);
        assert(mentions(e.tags[k], q));
    }
    assert(shown(e, query, ALL_TAGS@, ALL_GROUPS@));
    let pred = |x: EntryView| shown(x, query, ALL_TAGS@, ALL_GROUPS@);
    es.lemma_filter_contains(pred, j);
}

/// An empty search, with no tag and no group chosen, shows every entry.
pub proof fn lemma_empty_search_shows_all(es: Seq<EntryView>, query: Seq<char>, j: int)
    requires
        0 <= j < es.len(),
        lowercase(query).len() == 0,
    ensures
        shown_entries(es, query, ALL_TAGS@, ALL_GROUPS@).contains(es[j]),
{
    assert(shown(es[j], query, ALL_TAGS@, ALL_GROUPS@));
    let pred = |x: EntryView| shown(x, query, ALL_TAGS@, ALL_GROUPS@);
    es.lemma_filter_contains(pred, j);
}

/// From the order of code points to the order of the texts themselves: the
/// first text is a prefix of the second, or at their first difference its
/// character has the smaller code point.
proof fn lemma_lex_text(x: Seq<char>, y: Seq<char>)
    requires
        lex_le(code_points(x), code_points(y)),
    ensures
        exists|i: int|
            0 <= i <= x.len() && i <= y.len() && #[trigger] x.take(i) == y.take(i) && (i == x.len() || (i < y.len()
                && (x[i] as u32) < (y[i] as u32))),
    decreases x.len(),
{
    if code_points(x) == code_points(y) {
        lemma_code_points_injective(x, y);
        assert(x.take(x.len() as int) == y.take(x.len() as int));
    } else if x.len() == 0 {
        assert(x.take(0) =~= y.take(0));
    } else {
        assert(code_points(x).len() > 0 && code_points(y).len() > 0);
        let cx = code_points(x);
        let cy = code_points(y);
        lemma_code_point(x[0]);
        lemma_code_point(y[0]);
        if cx[0] != cy[0] {
            assert(cx[0] < cy[0]);
            assert(x.take(0) =~= y.take(0));
            assert((x[0] as u32) < (y[0] as u32));
        } else {
            assert((x[0] as int) == (y[0] as int));
            assert(cx.drop_first() =~= code_points(x.drop_first()));
            assert(cy.drop_first() =~= code_points(y.drop_first()));
            lemma_lex_text(x.drop_first(), y.drop_first());
            let i = choose|i: int|
                0 <= i <= x.drop_first().len() && i <= y.drop_first().len() && #[trigger] x.drop_first().take(i)
                    == y.drop_first().take(i) && (i == x.drop_first().len() || (i < y.drop_first().len() && (
                x.drop_first()[i] as u32) < (y.drop_first()[i] as u32)));
            assert(x.take(i + 1) =~= seq![x[0]] + x.drop_first().take(i));
            assert(y.take(i + 1) =~= seq![y[0]] + y.drop_first().take(i));
            assert(x.take(i + 1) == y.take(i + 1));
        }
    }
}

/// The list sorted by title is in the order of the titles in lower case:
/// of two entries, the earlier one's lower-case title is a prefix of the
/// later one's, or at their first difference has the character with the
/// smaller code point. Sorted newest first, no entry was changed before a
/// later one. Either way the list holds the same entries.
pub proof fn lemma_arrange_orders(es: Seq<EntryView>, a: int, b: int)
    requires
        es.len() <= usize::MAX,
        0 <= a < b < es.len(),
    ensures
        ({
            let x = lowercase(arrange(es, SortMode::Title)[a].title);
            let y = lowercase(arrange(es, SortMode::Title)[b].title);
            exists|i: int|
                0 <= i <= x.len() && i <= y.len() && #[trigger] x.take(i) == y.take(i) && (i == x.len() || (i
                    < y.len() && (x[i] as u32) < (y[i] as u32)))
        }),
        arrange(es, SortMode::Updated)[a].updated_at >= arrange(es, SortMode::Updated)[b].updated_at,
        arrange(es, SortMode::Title).len() == es.len(),
        arrange(es, SortMode::Updated).len() == es.len(),
        arrange(es, SortMode::Title).contains(es[a]),
        arrange(es, SortMode::Updated).contains(es[a]),
{
    let kt = sort_keys(es, SortMode::Title);
    let ku = sort_keys(es, SortMode::Updated);
    lemma_stable_order_exists(kt);
    lemma_stable_order_exists(ku);
    let ot = sorted_positions(kt);
    let ou = sorted_positions(ku);
    assert(goes_before(kt, ot[a] as int, ot[b] as int));
    assert(kt[ot[a] as int] == code_points(lowercase(es[ot[a] as int].title)));
    assert(kt[ot[b] as int] == code_points(lowercase(es[ot[b] as int].title)));
    lemma_lex_text(lowercase(es[ot[a] as int].title), lowercase(es[ot[b] as int].title));
    assert(goes_before(ku, ou[a] as int, ou[b] as int));
    let ua = es[ou[a] as int].updated_at;
    let ub = es[ou[b] as int].updated_at;
    assert(ku[ou[a] as int] == seq![(i64::MAX - ua) as u64]);
    assert(ku[ou[b] as int] == seq![(i64::MAX - ub) as u64]);
    assert(seq![(i64::MAX - ua) as u64].drop_first() =~= Seq::<u64>::empty());
    assert(seq![(i64::MAX - ub) as u64].drop_first() =~= Seq::<u64>::empty());
    assert(ua >= ub);
    lemma_stable_order_complete(kt, ot, a);
    lemma_stable_order_complete(ku, ou, a);
    let kta = choose|k: int| 0 <= k < ot.len() && ot[k] == a;
    let kua = choose|k: int| 0 <= k < ou.len() && ou[k] == a;
    assert(arrange(es, SortMode::Title)[kta] == es[a]);
    assert(arrange(es, SortMode::Updated)[kua] == es[a]);
}

/// With an empty search, choosing a tag lists exactly the entries that
/// carry it, and choosing a group exactly the entries whose group, trimmed,
/// is that group.
pub proof fn lemma_tag_and_group_filters(es: Seq<EntryView>, query: Seq<char>, tag: Seq<char>, group: Seq<char>, j: int)
    requires
        0 <= j < es.len(),
        lowercase(query).len() == 0,
        tag != ALL_TAGS@,
        group != ALL_GROUPS@,
    ensures
        shown_entries(es, query, tag, ALL_GROUPS@).contains(es[j]) <==> es[j].tags.contains(tag),
        shown_entries(es, query, ALL_TAGS@, group).contains(es[j]) <==> trim(es[j].group) == group,
{
    broadcast use vstd::seq_lib::group_filter_ensures;
    let p1 = |x: EntryView| shown(x, query, tag, ALL_GROUPS@);
    let p2 = |x: EntryView| shown(x, query, ALL_TAGS@, group);
    if es[j].tags.contains(tag) {
        es.lemma_filter_contains(p1, j);
    }
    if shown_entries(es, query, tag, ALL_GROUPS@).contains(es[j]) {
        let f = es.filter(p1);
        let m = choose|m: int| 0 <= m < f.len() && f[m] == es[j];
        es.lemma_filter_pred(p1, m);
    }
    if trim(es[j].group) == group {
        es.lemma_filter_contains(p2, j);
    }
    if shown_entries(es, query, ALL_TAGS@, group).contains(es[j]) {
        let f = es.filter(p2);
        let m = choose|m: int| 0 <= m < f.len() && f[m] == es[j];
        es.lemma_filter_pred(p2, m);
    }
}

/// The list shows exactly the entries that pass the search and the filters,
/// each once, ordered by the chosen key: by title ignoring case, or the most
/// recently changed first.
pub proof fn lemma_entry_list(es: Seq<EntryView>, query: Seq<char>, tag: Seq<char>, group: Seq<char>, mode: SortMode)
    requires
        es.len() <= usize::MAX,
    ensures
        ({
            let r = entry_list(es, query, tag, group, mode);
            &&& r.len() == shown_entries(es, query, tag, group).len()
            &&& forall|k: int| 0 <= k < r.len() ==> shown(#[trigger] r[k], query, tag, group)
            &&& forall|j: int| 0 <= j < es.len() && shown(#[trigger] es[j], query, tag, group) ==> r.contains(es[j])
            &&& forall|a: int, b: int|
                0 <= a < b < r.len() ==> lex_le(sort_key(#[trigger] r[a], mode), sort_key(#[trigger] r[b], mode))
        }),
{
    let pred = |e: EntryView| shown(e, query, tag, group);
    let f = shown_entries(es, query, tag, group);
    let keys = sort_keys(f, mode);
    let r = entry_list(es, query, tag, group, mode);
    broadcast use vstd::seq_lib::group_filter_ensures;
    es.lemma_filter_len(pred);
    lemma_stable_order_exists(keys);
    let o = sorted_positions(keys);
    assert forall|k: int| 0 <= k < r.len() implies shown(#[trigger] r[k], query, tag, group) by {
        assert(r[k] == f[o[k] as int]);
        es.lemma_filter_pred(pred, o[k] as int);
    }
    assert forall|j: int| 0 <= j < es.len() && shown(#[trigger] es[j], query, tag, group) implies r.contains(es[j]) by {
        es.lemma_filter_contains(pred, j);
        let m = choose|m: int| 0 <= m < f.len() && f[m] == es[j];
        lemma_stable_order_complete(keys, o, m);
        let k = choose|k: int| 0 <= k < o.len() && o[k] == m;
        assert(r[k] == es[j]);
    }
    assert forall|a: int, b: int| 0 <= a < b < r.len() implies lex_le(
        sort_key(#[trigger] r[a], mode),
        sort_key(#[trigger] r[b], mode),
    ) by {
        assert(goes_before(keys, o[a] as int, o[b] as int));
        assert(r[a] == f[o[a] as int] && r[b] == f[o[b] as int]);
    }
}

} // verus!
