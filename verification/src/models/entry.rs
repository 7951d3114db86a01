//! A password-manager entry (always decrypted in memory).

use vstd::prelude::*;

use crate::models::date::{local_moment, local_moment_text};

verus! {

/// A password-manager entry.
#[derive(Debug, Clone)]
pub struct Entry {
    pub id: Option<i64>,
    pub title: String,
    pub username: String,
    pub password: String,
    pub url: String,
    pub notes: String,
    pub tags: Vec<String>,
    pub group: String,
    pub color: String,
    pub totp_secret: String,
    pub favorite: bool,
    pub created_at: i64,
    pub updated_at: i64,
}

/// The value of an entry: its strings as character sequences.
pub struct EntryView {
    pub id: Option<i64>,
    pub title: Seq<char>,
    pub username: Seq<char>,
    pub password: Seq<char>,
    pub url: Seq<char>,
    pub notes: Seq<char>,
    pub tags: Seq<Seq<char>>,
    pub group: Seq<char>,
    pub color: Seq<char>,
    pub totp_secret: Seq<char>,
    pub favorite: bool,
    pub created_at: i64,
    pub updated_at: i64,
}

/// The character sequences of a list of strings.
pub open spec fn strings_view(v: Seq<String>) -> Seq<Seq<char>> {
    v.map_values(|s: String| s@)
}

impl View for Entry {
    type V = EntryView;

    open spec fn view(&self) -> EntryView {
        EntryView {
            id: self.id,
            title: self.title@,
            username: self.username@,
            password: self.password@,
            url: self.url@,
            notes: self.notes@,
            tags: strings_view(self.tags@),
            group: self.group@,
            color: self.color@,
            totp_secret: self.totp_secret@,
            favorite: self.favorite,
            created_at: self.created_at,
            updated_at: self.updated_at,
        }
    }
}

/// The values of a list of entries.
pub open spec fn entries_view(v: Seq<Entry>) -> Seq<EntryView> {
    v.map_values(|e: Entry| e@)
}

impl Entry {
    /// The time of the last change as `YYYY-MM-DD HH:MM`, in the local time
    /// that is `utc_offset` seconds ahead of UTC; a dash when it falls outside
    /// years 1 to 9999.
    pub fn updated_at_str(&self, utc_offset: i64) -> (s: String)
        ensures
            s@ == local_moment_text(self.updated_at, utc_offset),
    {
        local_moment(self.updated_at, utc_offset)
    }
}

/// A copy of a list of strings.
pub fn copy_strings(v: &Vec<String>) -> (r: Vec<String>)
    ensures
        strings_view(r@) == strings_view(v@),
{
    let mut r: Vec<String> = Vec::new();
    let mut i: usize = 0;
    while i < v.len()
        invariant
            i <= v@.len(),
            strings_view(r@) == strings_view(v@.take(i as int)),
        decreases v@.len() - i,
    {
        let ghost r0 = strings_view(r@);
        r.push(v[i].clone());
        assert(strings_view(r@) =~= r0.push(v@[i as int]@));
        assert(v@.take(i + 1) =~= v@.take(i as int).push(v@[i as int]));
        assert(strings_view(v@.take(i + 1)) =~= strings_view(v@.take(i as int)).push(v@[i as int]@));
        i = i + 1;
    }
    assert(v@.take(v@.len() as int) =~= v@);
    r
}

/// A copy of an entry.
pub fn copy_entry(e: &Entry) -> (r: Entry)
    ensures
        r@ == e@,
{
    Entry {
        id: e.id,
        title: e.title.clone(),
        username: e.username.clone(),
        password: e.password.clone(),
        url: e.url.clone(),
        notes: e.notes.clone(),
        tags: copy_strings(&e.tags),
        group: e.group.clone(),
        color: e.color.clone(),
        totp_secret: e.totp_secret.clone(),
        favorite: e.favorite,
        created_at: e.created_at,
        updated_at: e.updated_at,
    }
}

impl Default for Entry {
    fn default() -> (e: Entry)
        ensures
            e@ == (EntryView {
                id: None,
                title: Seq::empty(),
                username: Seq::empty(),
                password: Seq::empty(),
                url: Seq::empty(),
                notes: Seq::empty(),
                tags: Seq::empty(),
                group: Seq::empty(),
                color: Seq::empty(),
                totp_secret: Seq::empty(),
                favorite: false,
                created_at: 0,
                updated_at: 0,
            }),
    {
        let e = Entry {
            id: None,
            title: String::new(),
            username: String::new(),
            password: String::new(),
            url: String::new(),
            notes: String::new(),
            tags: Vec::new(),
            group: String::new(),
            color: String::new(),
            totp_secret: String::new(),
            favorite: false,
            created_at: 0,
            updated_at: 0,
        };
        assert(e@.tags == Seq::<Seq<char>>::empty());
        e
    }
}

} // verus!
