//! CSV import and export of entries (RFC 4180 quoting).
//! CSV keeps passwords in the clear: the user interface must warn about it.

use vstd::prelude::*;

use crate::models::entry::{entries_view, strings_view, Entry, EntryView};
use crate::text::{
    all_ascii, all_white, ascii_lower, char_is_whitespace, chars_of, extend_chars, is_white,
    lead_ws, lowercase, owned, string_of, to_lowercase, trail_ws, trim, trim_chars,
};

verus! {

// ---------------------------------------------------------------------------
// The reading side: characters to rows of fields
// ---------------------------------------------------------------------------
/// The state of the CSV scanner: inside quotes or not, the field being read,
/// the fields of the current row, the finished rows.
pub struct CsvScan {
    pub quoted: bool,
    pub field: Seq<char>,
    pub row: Seq<Seq<char>>,
    pub rows: Seq<Seq<Seq<char>>>,
}

/// The scanner's state before any character.
pub open spec fn scan_start() -> CsvScan {
    CsvScan { quoted: false, field: Seq::empty(), row: Seq::empty(), rows: Seq::empty() }
}

/// Runs the scanner over `s` from state `st`. Inside quotes a doubled quote
/// stands for one quote and a single quote closes the field's quoted part;
/// outside quotes `"` opens quotes, `,` ends a field, `\n` ends a row and
/// `\r` is dropped.
pub open spec fn scan(s: Seq<char>, st: CsvScan) -> CsvScan
    decreases s.len(),
{
    if s.len() == 0 {
        st
    } else if st.quoted {
        if s[0] == '"' {
            if s.len() > 1 && s[1] == '"' {
                scan(s.skip(2), CsvScan { field: st.field.push('"'), ..st })
            } else {
                scan(s.skip(1), CsvScan { quoted: false, ..st })
            }
        } else {
            scan(s.skip(1), CsvScan { field: st.field.push(s[0]), ..st })
        }
    } else if s[0] == '"' {
        scan(s.skip(1), CsvScan { quoted: true, ..st })
    } else if s[0] == ',' {
        scan(s.skip(1), CsvScan { field: Seq::empty(), row: st.row.push(st.field), ..st })
    } else if s[0] == '\n' {
        scan(
            s.skip(1),
            CsvScan {
                field: Seq::empty(),
                row: Seq::empty(),
                rows: st.rows.push(st.row.push(st.field)),
                ..st
            },
        )
    } else if s[0] == '\r' {
        scan(s.skip(1), st)
    } else {
        scan(s.skip(1), CsvScan { field: st.field.push(s[0]), ..st })
    }
}

/// The rows of a CSV text: a last row without a final newline counts when it
/// holds anything.
pub open spec fn csv_rows(s: Seq<char>) -> Seq<Seq<Seq<char>>> {
    let st = scan(s, scan_start());
    if st.field.len() > 0 || st.row.len() > 0 {
        st.rows.push(st.row.push(st.field))
    } else {
        st.rows
    }
}

// ---------------------------------------------------------------------------
// Columns
// ---------------------------------------------------------------------------
/// The names of the ten columns, in the order in which they are written.
pub open spec fn csv_column(k: int) -> Seq<char> {
    if k == 0 {
        seq!['t', 'i', 't', 'l', 'e']
    } else if k == 1 {
        seq!['u', 's', 'e', 'r', 'n', 'a', 'm', 'e']
    } else if k == 2 {
        seq!['p', 'a', 's', 's', 'w', 'o', 'r', 'd']
    } else if k == 3 {
        seq!['u', 'r', 'l']
    } else if k == 4 {
        seq!['n', 'o', 't', 'e', 's']
    } else if k == 5 {
        seq!['t', 'a', 'g', 's']
    } else if k == 6 {
        seq!['g', 'r', 'o', 'u', 'p']
    } else if k == 7 {
        seq!['c', 'o', 'l', 'o', 'r']
    } else if k == 8 {
        seq!['t', 'o', 't', 'p', '_', 's', 'e', 'c', 'r', 'e', 't']
    } else {
        seq!['f', 'a', 'v', 'o', 'r', 'i', 't', 'e']
    }
}

/// Lower case as `str::to_lowercase` gives it: ASCII text maps letter by
/// letter, other text by the Unicode mapping.
pub open spec fn lower(s: Seq<char>) -> Seq<char> {
    if all_ascii(s) {
        s.map_values(|c: char| ascii_lower(c))
    } else {
        lowercase(s)
    }
}

/// The key by which a header cell names a column: trimmed, in lower case.
pub open spec fn col_key(h: Seq<char>) -> Seq<char> {
    lower(trim(h))
}

/// The first header position at or after `from` whose key is `name`.
pub open spec fn find_col(header: Seq<Seq<char>>, name: Seq<char>, from: nat) -> Option<nat>
    decreases header.len() - from,
{
    if from >= header.len() {
        None
    } else if col_key(header[from as int]) == name {
        Some(from)
    } else {
        find_col(header, name, from + 1)
    }
}

/// The cell of `row` under the column called `name`, empty when there is
/// no such column or the row is shorter.
pub open spec fn field_value(header: Seq<Seq<char>>, row: Seq<Seq<char>>, name: Seq<char>) -> Seq<
    char,
> {
    match find_col(header, name, 0) {
        Some(i) => if i < row.len() {
            row[i as int]
        } else {
            Seq::empty()
        },
        None => Seq::empty(),
    }
}

/// The rest of a text split at every `sep`, the piece `cur` having been begun.
pub open spec fn split_acc(s: Seq<char>, cur: Seq<char>, sep: char) -> Seq<Seq<char>>
    decreases s.len(),
{
    if s.len() == 0 {
        seq![cur]
    } else if s[0] == sep {
        seq![cur] + split_acc(s.drop_first(), Seq::empty(), sep)
    } else {
        split_acc(s.drop_first(), cur.push(s[0]), sep)
    }
}

/// `s` split at every `sep` (`str::split(sep)`).
pub open spec fn split_on(s: Seq<char>, sep: char) -> Seq<Seq<char>> {
    split_acc(s, Seq::empty(), sep)
}

/// The pieces trimmed, without the empty ones.
pub open spec fn keep_tags(pieces: Seq<Seq<char>>) -> Seq<Seq<char>>
    decreases pieces.len(),
{
    if pieces.len() == 0 {
        Seq::empty()
    } else {
        let prev = keep_tags(pieces.drop_last());
        let t = trim(pieces.last());
        if t.len() > 0 {
            prev.push(t)
        } else {
            prev
        }
    }
}

/// The tags written in one text, separated by `sep`: trimmed, empty ones dropped.
pub open spec fn tag_list(text: Seq<char>, sep: char) -> Seq<Seq<char>> {
    keep_tags(split_on(text, sep))
}

/// The tags written in one cell: separated by `;`, trimmed, empty ones dropped.
pub open spec fn tags_of_cell(cell: Seq<char>) -> Seq<Seq<char>> {
    tag_list(cell, ';')
}

/// The entry that one data row describes.
pub open spec fn row_entry(header: Seq<Seq<char>>, row: Seq<Seq<char>>) -> EntryView {
    EntryView {
        id: None,
        title: field_value(header, row, csv_column(0)),
        username: field_value(header, row, csv_column(1)),
        password: field_value(header, row, csv_column(2)),
        url: field_value(header, row, csv_column(3)),
        notes: field_value(header, row, csv_column(4)),
        tags: tags_of_cell(field_value(header, row, csv_column(5))),
        group: field_value(header, row, csv_column(6)),
        color: field_value(header, row, csv_column(7)),
        totp_secret: field_value(header, row, csv_column(8)),
        favorite: trim(field_value(header, row, csv_column(9))) == seq!['1'],
        created_at: 0,
        updated_at: 0,
    }
}

/// A row all of whose cells are blank.
pub open spec fn blank_row(row: Seq<Seq<char>>) -> bool {
    forall|i: int| 0 <= i < row.len() ==> all_white(#[trigger] row[i])
}

/// The entries of the data rows, blank rows skipped.
pub open spec fn rows_entries(header: Seq<Seq<char>>, rows: Seq<Seq<Seq<char>>>) -> Seq<EntryView>
    decreases rows.len(),
{
    if rows.len() == 0 {
        Seq::empty()
    } else {
        let prev = rows_entries(header, rows.drop_last());
        if blank_row(rows.last()) {
            prev
        } else {
            prev.push(row_entry(header, rows.last()))
        }
    }
}

/// The message for a text without rows.
pub open spec fn csv_empty_error() -> Seq<char> {
    "CSV-файл пуст"@
}

/// The message for a first row that does not start with `title`.
pub open spec fn csv_header_error() -> Seq<char> {
    "неожиданный формат CSV: ожидается заголовок title,username,password,…"@
}

/// What `parse_csv` gives for a text: an error when there are no rows or the
/// first cell of the first row is not `title`, else the entries of the other rows.
pub open spec fn parse_csv_spec(s: Seq<char>) -> Result<Seq<EntryView>, Seq<char>> {
    let rows = csv_rows(s);
    if rows.len() == 0 {
        Err(csv_empty_error())
    } else if rows[0].len() == 0 || col_key(rows[0][0]) != csv_column(0) {
        Err(csv_header_error())
    } else {
        Ok(rows_entries(rows[0], rows.skip(1)))
    }
}

// ---------------------------------------------------------------------------
// Executable reading side
// ---------------------------------------------------------------------------
/// The scanner's state built from its executable parts.
pub open spec fn scan_state(
    quoted: bool,
    field: Seq<char>,
    row: Seq<Seq<char>>,
    rows: Seq<Seq<Seq<char>>>,
) -> CsvScan {
    CsvScan { quoted, field, row, rows }
}

fn scan_rows(cs: &Vec<char>) -> (rows: Vec<Vec<Vec<char>>>)
    ensures
        rows.deep_view() == csv_rows(cs@),
{
    let n = cs.len();
    let mut rows: Vec<Vec<Vec<char>>> = Vec::new();
    let mut row: Vec<Vec<char>> = Vec::new();
    let mut field: Vec<char> = Vec::new();
    let mut quoted = false;
    let mut i: usize = 0;
    assert(cs@.skip(0) == cs@);
    assert(rows.deep_view() =~= Seq::<Seq<Seq<char>>>::empty());
    assert(row.deep_view() =~= Seq::<Seq<char>>::empty());
    while i < n
        invariant
            n == cs@.len(),
            i <= n,
            scan(cs@, scan_start()) == scan(
                cs@.skip(i as int),
                scan_state(quoted, field@, row.deep_view(), rows.deep_view()),
            ),
        decreases n - i,
    {
        let ghost s = cs@.skip(i as int);
        let ghost f0 = field@;
        let ghost r0 = row.deep_view();
        let ghost rs0 = rows.deep_view();
        let c = cs[i];
        assert(s[0] == c);
        assert(s.skip(1) == cs@.skip(i + 1));
        assert(field.deep_view() =~= field@);
        if quoted {
            if c == '"' {
                if i + 1 < n && cs[i + 1] == '"' {
                    assert(s[1] == cs@[i + 1]);
                    assert(s.skip(2) == cs@.skip(i + 2));
                    field.push('"');
                    i = i + 2;
                } else {
                    quoted = false;
                    i = i + 1;
                }
            } else {
                field.push(c);
                i = i + 1;
            }
        } else {
            if c == '"' {
                quoted = true;
            } else if c == ',' {
                row.push(field);
                field = Vec::new();
                assert(row.deep_view() =~= r0.push(f0));
            } else if c == '\n' {
                row.push(field);
                field = Vec::new();
                assert(row.deep_view() =~= r0.push(f0));
                rows.push(row);
                row = Vec::new();
                assert(rows.deep_view() =~= rs0.push(r0.push(f0)));
                assert(row.deep_view() =~= Seq::<Seq<char>>::empty());
            } else if c == '\r' {
            } else {
                field.push(c);
            }
            i = i + 1;
        }
        assert(field@ == field@);
    }
    let ghost st = scan_state(quoted, field@, row.deep_view(), rows.deep_view());
    assert(cs@.skip(n as int).len() == 0);
    assert(field.deep_view() =~= field@);
    if field.len() > 0 || row.len() > 0 {
        let ghost r0 = row.deep_view();
        let ghost rs0 = rows.deep_view();
        let ghost f0 = field@;
        row.push(field);
        assert(row.deep_view() =~= r0.push(f0));
        rows.push(row);
        assert(rows.deep_view() =~= rs0.push(r0.push(f0)));
    }
    rows
}


/// A copy of a character vector.
pub fn copy_chars(v: &Vec<char>) -> (r: Vec<char>)
    ensures
        r@ == v@,
{
    let mut r: Vec<char> = Vec::new();
    let mut i: usize = 0;
    while i < v.len()
        invariant
            i <= v@.len(),
            r@ == v@.subrange(0, i as int),
        decreases v@.len() - i,
    {
        r.push(v[i]);
        i = i + 1;
    }
    r
}

/// Whether two character vectors are equal.
pub fn chars_eq(a: &Vec<char>, b: &Vec<char>) -> (r: bool)
    ensures
        r == (a@ == b@),
{
    if a.len() != b.len() {
        return false;
    }
    let mut i: usize = 0;
    while i < a.len()
        invariant
            a@.len() == b@.len(),
            i <= a@.len(),
            a@.subrange(0, i as int) == b@.subrange(0, i as int),
        decreases a@.len() - i,
    {
        if a[i] != b[i] {
            assert(a@[i as int] != b@[i as int]);
            return false;
        }
        assert(a@.subrange(0, i + 1) == a@.subrange(0, i as int).push(a@[i as int]));
        assert(b@.subrange(0, i + 1) == b@.subrange(0, i as int).push(b@[i as int]));
        i = i + 1;
    }
    assert(a@ == a@.subrange(0, a@.len() as int));
    assert(b@ == b@.subrange(0, b@.len() as int));
    true
}

/// The key of a header cell: trimmed and lower-cased.
fn col_key_exec(h: &Vec<char>) -> (k: Vec<char>)
    ensures
        k@ == col_key(h@),
{
    let t = trim_chars(h);
    let ts = string_of(&t);
    let l = to_lowercase(ts.as_str());
    chars_of(l.as_str())
}

/// The name of column `k` as characters.
fn column_name(k: usize) -> (r: Vec<char>)
    requires
        k < 10,
    ensures
        r@ == csv_column(k as int),
{
    let lit = if k == 0 {
        "title"
    } else if k == 1 {
        "username"
    } else if k == 2 {
        "password"
    } else if k == 3 {
        "url"
    } else if k == 4 {
        "notes"
    } else if k == 5 {
        "tags"
    } else if k == 6 {
        "group"
    } else if k == 7 {
        "color"
    } else if k == 8 {
        "totp_secret"
    } else {
        "favorite"
    };
    proof {
        reveal_strlit("title");
        reveal_strlit("username");
        reveal_strlit("password");
        reveal_strlit("url");
        reveal_strlit("notes");
        reveal_strlit("tags");
        reveal_strlit("group");
        reveal_strlit("color");
        reveal_strlit("totp_secret");
        reveal_strlit("favorite");
    }
    let r = chars_of(lit);
    assert(r@ =~= csv_column(k as int));
    r
}

/// The keys of all header cells.
fn header_keys(header: &Vec<Vec<char>>) -> (keys: Vec<Vec<char>>)
    ensures
        keys@.len() == header@.len(),
        forall|i: int| 0 <= i < keys@.len() ==> (#[trigger] keys@[i])@ == col_key(header@[i]@),
{
    let mut keys: Vec<Vec<char>> = Vec::new();
    let mut i: usize = 0;
    while i < header.len()
        invariant
            i <= header@.len(),
            keys@.len() == i,
            forall|j: int| 0 <= j < i ==> (#[trigger] keys@[j])@ == col_key(header@[j]@),
        decreases header@.len() - i,
    {
        let k = col_key_exec(&header[i]);
        keys.push(k);
        i = i + 1;
    }
    keys
}

/// The position of the column called `name`.
fn find_col_exec(header: &Vec<Vec<char>>, keys: &Vec<Vec<char>>, name: &Vec<char>) -> (r: Option<
    usize,
>)
    requires
        keys@.len() == header@.len(),
        forall|i: int| 0 <= i < keys@.len() ==> (#[trigger] keys@[i])@ == col_key(header@[i]@),
    ensures
        cell_value_of(header.deep_view(), r, name@),
{
    let ghost hd = header.deep_view();
    let mut i: usize = 0;
    while i < keys.len()
        invariant
            i <= keys@.len(),
            keys@.len() == header@.len(),
            hd == header.deep_view(),
            forall|j: int| 0 <= j < keys@.len() ==> (#[trigger] keys@[j])@ == col_key(header@[j]@),
            find_col(hd, name@, 0) == find_col(hd, name@, i as nat),
        decreases keys@.len() - i,
    {
        assert(hd[i as int] == header@[i as int]@);
        if chars_eq(&keys[i], name) {
            return Some(i);
        }
        i = i + 1;
    }
    None
}

/// The cell at `idx` of `row`, empty when absent.
fn cell_at(row: &Vec<Vec<char>>, idx: Option<usize>) -> (r: Vec<char>)
    ensures
        r@ == cell_value(row.deep_view(), idx),
{
    match idx {
        Some(i) => if i < row.len() {
            assert(row.deep_view()[i as int] =~= row@[i as int]@);
            copy_chars(&row[i])
        } else {
            Vec::new()
        },
        None => Vec::new(),
    }
}

/// Splits a text at every `sep`.
fn split_exec(s: &Vec<char>, sep: char) -> (r: Vec<Vec<char>>)
    ensures
        r.deep_view() == split_on(s@, sep),
{
    let mut acc: Vec<Vec<char>> = Vec::new();
    let mut cur: Vec<char> = Vec::new();
    let mut i: usize = 0;
    assert(acc.deep_view() =~= Seq::<Seq<char>>::empty());
    assert(s@.skip(0) =~= s@);
    while i < s.len()
        invariant
            i <= s@.len(),
            split_on(s@, sep) == acc.deep_view() + split_acc(s@.skip(i as int), cur@, sep),
        decreases s@.len() - i,
    {
        assert(s@.skip(i as int).drop_first() =~= s@.skip(i + 1));
        assert(s@.skip(i as int)[0] == s@[i as int]);
        if s[i] == sep {
            let ghost a0 = acc.deep_view();
            let ghost c0 = cur@;
            assert(cur.deep_view() =~= cur@);
            acc.push(cur);
            cur = Vec::new();
            assert(acc.deep_view() =~= a0.push(c0));
            assert(a0 + (seq![c0] + split_acc(s@.skip(i + 1), Seq::empty(), sep)) =~= a0.push(c0)
                + split_acc(s@.skip(i + 1), Seq::empty(), sep));
        } else {
            cur.push(s[i]);
        }
        i = i + 1;
    }
    let ghost a0 = acc.deep_view();
    let ghost c0 = cur@;
    assert(s@.skip(i as int).len() == 0);
    assert(cur.deep_view() =~= cur@);
    acc.push(cur);
    assert(acc.deep_view() =~= a0.push(c0));
    assert(a0 + seq![c0] =~= a0.push(c0));
    acc
}

/// The tags of a text whose tags are separated by `sep`, as strings.
pub fn tags_exec(cell: &Vec<char>, sep: char) -> (r: Vec<String>)
    ensures
        r@.map_values(|t: String| t@) == tag_list(cell@, sep),
{
    let pieces = split_exec(cell, sep);
    let ghost pv = pieces.deep_view();
    let mut out: Vec<String> = Vec::new();
    let mut i: usize = 0;
    assert(out@.map_values(|t: String| t@) =~= Seq::<Seq<char>>::empty());
    assert(pv.take(0) =~= Seq::<Seq<char>>::empty());
    while i < pieces.len()
        invariant
            i <= pieces@.len(),
            pv == pieces.deep_view(),
            pv.len() == pieces@.len(),
            out@.map_values(|t: String| t@) == keep_tags(pv.take(i as int)),
        decreases pieces@.len() - i,
    {
        let t = trim_chars(&pieces[i]);
        assert(pv.take(i + 1).drop_last() =~= pv.take(i as int));
        assert(pv.take(i + 1).last() == pieces@[i as int]@);
        if t.len() > 0 {
            let ghost o0 = out@.map_values(|t: String| t@);
            let ts = string_of(&t);
            out.push(ts);
            assert(out@.map_values(|t: String| t@) =~= o0.push(t@));
        }
        i = i + 1;
    }
    assert(pv.take(pv.len() as int) =~= pv);
    out
}

/// Whether every cell of a row is blank.
fn blank_row_exec(row: &Vec<Vec<char>>) -> (r: bool)
    ensures
        r == blank_row(row.deep_view()),
{
    let ghost rv = row.deep_view();
    let mut i: usize = 0;
    while i < row.len()
        invariant
            i <= row@.len(),
            rv == row.deep_view(),
            forall|j: int| 0 <= j < i ==> all_white(#[trigger] rv[j]),
        decreases row@.len() - i,
    {
        let cell = &row[i];
        assert(rv[i as int] == cell@);
        let mut k: usize = 0;
        while k < cell.len()
            invariant
                k <= cell@.len(),
                i < row@.len(),
                rv == row.deep_view(),
                rv[i as int] == cell@,
                forall|j: int| 0 <= j < k ==> is_white(#[trigger] cell@[j]),
            decreases cell@.len() - k,
        {
            if !char_is_whitespace(cell[k]) {
                assert(!is_white(rv[i as int][k as int]));
                return false;
            }
            k = k + 1;
        }
        i = i + 1;
    }
    true
}


/// The entry of one data row, with the column positions already found.
fn row_entry_exec(row: &Vec<Vec<char>>, idx: &Vec<Option<usize>>) -> (e: Entry)
    requires
        idx@.len() == 10,
    ensures
        e@ == (EntryView {
            id: None,
            title: cell_value(row.deep_view(), idx@[0]),
            username: cell_value(row.deep_view(), idx@[1]),
            password: cell_value(row.deep_view(), idx@[2]),
            url: cell_value(row.deep_view(), idx@[3]),
            notes: cell_value(row.deep_view(), idx@[4]),
            tags: tags_of_cell(cell_value(row.deep_view(), idx@[5])),
            group: cell_value(row.deep_view(), idx@[6]),
            color: cell_value(row.deep_view(), idx@[7]),
            totp_secret: cell_value(row.deep_view(), idx@[8]),
            favorite: trim(cell_value(row.deep_view(), idx@[9])) == seq!['1'],
            created_at: 0,
            updated_at: 0,
        }),
{
    let title = string_of(&cell_at(row, idx[0]));
    let username = string_of(&cell_at(row, idx[1]));
    let password = string_of(&cell_at(row, idx[2]));
    let url = string_of(&cell_at(row, idx[3]));
    let notes = string_of(&cell_at(row, idx[4]));
    let tags = tags_exec(&cell_at(row, idx[5]), ';');
    assert(strings_view(tags@) =~= tags@.map_values(|t: String| t@));
    let group = string_of(&cell_at(row, idx[6]));
    let color = string_of(&cell_at(row, idx[7]));
    let totp_secret = string_of(&cell_at(row, idx[8]));
    let fav = trim_chars(&cell_at(row, idx[9]));
    let favorite = fav.len() == 1 && fav[0] == '1';
    assert(favorite == (fav@ == seq!['1'])) by {
        if fav@.len() == 1 && fav@[0] == '1' {
            assert(fav@ =~= seq!['1']);
        }
    }
    Entry {
        id: None,
        title,
        username,
        password,
        url,
        notes,
        tags,
        group,
        color,
        totp_secret,
        favorite,
        created_at: 0,
        updated_at: 0,
    }
}

/// The cell of a row at an optional position (empty when absent).
pub open spec fn cell_value(row: Seq<Seq<char>>, idx: Option<usize>) -> Seq<char> {
    match idx {
        Some(i) => if i < row.len() {
            row[i as int]
        } else {
            Seq::empty()
        },
        None => Seq::empty(),
    }
}

/// A simple CSV parser (RFC 4180): quotes, commas and newlines inside fields.
pub fn parse_csv(s: &str) -> (r: Result<Vec<Entry>, String>)
    ensures
        match parse_csv_spec(s@) {
            Ok(es) => r is Ok && entries_view(r->Ok_0@) == es,
            Err(m) => r is Err && r->Err_0@ == m,
        },
{
    let cs = chars_of(s);
    let rows = scan_rows(&cs);
    let ghost rv = rows.deep_view();
    if rows.len() == 0 {
        return Err(owned("CSV-файл пуст"));
    }
    let header = &rows[0];
    let ghost hv = header.deep_view();
    assert(rv[0] == hv);
    if header.len() == 0 {
        return Err(owned("неожиданный формат CSV: ожидается заголовок title,username,password,…"));
    }
    let k0 = col_key_exec(&header[0]);
    let t0 = column_name(0);
    assert(hv[0] == header@[0]@);
    if !chars_eq(&k0, &t0) {
        return Err(owned("неожиданный формат CSV: ожидается заголовок title,username,password,…"));
    }
    let keys = header_keys(header);
    let mut idx: Vec<Option<usize>> = Vec::new();
    let mut k: usize = 0;
    while k < 10
        invariant
            k <= 10,
            idx@.len() == k,
            keys@.len() == header@.len(),
            forall|i: int| 0 <= i < keys@.len() ==> (#[trigger] keys@[i])@ == col_key(header@[i]@),
            hv == header.deep_view(),
            forall|j: int|
                0 <= j < k ==> #[trigger] cell_value_of(hv, idx@[j], csv_column(j)),
        decreases 10 - k,
    {
        let name = column_name(k);
        let found = find_col_exec(header, &keys, &name);
        idx.push(found);
        assert(cell_value_of(hv, idx@[k as int], csv_column(k as int)));
        k = k + 1;
    }
    let mut out: Vec<Entry> = Vec::new();
    let mut i: usize = 1;
    let n = rows.len();
    assert(entries_view(out@) =~= Seq::<EntryView>::empty());
    assert(rv.subrange(1, 1) =~= Seq::<Seq<Seq<char>>>::empty());
    while i < n
        invariant
            1 <= i <= n,
            n == rows@.len(),
            rv == rows.deep_view(),
            hv == rv[0],
            idx@.len() == 10,
            forall|j: int|
                0 <= j < 10 ==> #[trigger] cell_value_of(hv, idx@[j], csv_column(j)),
            entries_view(out@) == rows_entries(hv, rv.subrange(1, i as int)),
        decreases n - i,
    {
        let row = &rows[i];
        assert(rv[i as int] == row.deep_view());
        assert(rv.subrange(1, i + 1).drop_last() =~= rv.subrange(1, i as int));
        assert(rv.subrange(1, i + 1).last() == rv[i as int]);
        if !blank_row_exec(row) {
            let ghost o0 = entries_view(out@);
            let e = row_entry_exec(row, &idx);
            proof {
                lemma_cell(hv, rv[i as int], idx@[0], csv_column(0));
                lemma_cell(hv, rv[i as int], idx@[1], csv_column(1));
                lemma_cell(hv, rv[i as int], idx@[2], csv_column(2));
                lemma_cell(hv, rv[i as int], idx@[3], csv_column(3));
                lemma_cell(hv, rv[i as int], idx@[4], csv_column(4));
                lemma_cell(hv, rv[i as int], idx@[5], csv_column(5));
                lemma_cell(hv, rv[i as int], idx@[6], csv_column(6));
                lemma_cell(hv, rv[i as int], idx@[7], csv_column(7));
                lemma_cell(hv, rv[i as int], idx@[8], csv_column(8));
                lemma_cell(hv, rv[i as int], idx@[9], csv_column(9));
            }
            assert(e@ == row_entry(hv, rv[i as int]));
            out.push(e);
            assert(entries_view(out@) =~= o0.push(e@));
        }
        i = i + 1;
    }
    assert(rv.subrange(1, n as int) =~= rv.skip(1));
    Ok(out)
}

/// `idx` is where the column called `name` stands in `header`.
pub open spec fn cell_value_of(header: Seq<Seq<char>>, idx: Option<usize>, name: Seq<char>) -> bool {
    match idx {
        Some(j) => find_col(header, name, 0) == Some(j as nat),
        None => find_col(header, name, 0) is None,
    }
}


proof fn lemma_cell(header: Seq<Seq<char>>, row: Seq<Seq<char>>, idx: Option<usize>, name: Seq<char>)
    requires
        cell_value_of(header, idx, name),
    ensures
        field_value(header, row, name) == cell_value(row, idx),
{
}


// ---------------------------------------------------------------------------
// The writing side: entries to text
// ---------------------------------------------------------------------------
/// Characters that force a field into quotes.
pub open spec fn csv_special(c: char) -> bool {
    c == ',' || c == '"' || c == '\n' || c == '\r'
}

/// Whether a field must be quoted.
pub open spec fn needs_quotes(s: Seq<char>) -> bool {
    exists|i: int| 0 <= i < s.len() && csv_special(#[trigger] s[i])
}

/// The escape of one character inside quotes.
pub open spec fn quote_escape(c: char) -> Seq<char> {
    if c == '"' {
        seq!['"', '"']
    } else {
        seq![c]
    }
}

/// `s` with every quote doubled.
pub open spec fn double_quotes(s: Seq<char>) -> Seq<char>
    decreases s.len(),
{
    if s.len() == 0 {
        Seq::empty()
    } else {
        quote_escape(s[0]) + double_quotes(s.drop_first())
    }
}

/// A field as written (RFC 4180): quoted, with quotes doubled, when it holds
/// a comma, a quote or a line break; as it is otherwise.
pub open spec fn csv_field_spec(s: Seq<char>) -> Seq<char> {
    if needs_quotes(s) {
        seq!['"'] + double_quotes(s) + seq!['"']
    } else {
        s
    }
}

/// The pieces joined with `sep` between them (`[T]::join`).
pub open spec fn join(p: Seq<Seq<char>>, sep: Seq<char>) -> Seq<char>
    decreases p.len(),
{
    if p.len() == 0 {
        Seq::empty()
    } else if p.len() == 1 {
        p[0]
    } else {
        p[0] + sep + join(p.drop_first(), sep)
    }
}

/// One CSV line: the cells as fields, separated by commas, ended by CRLF.
pub open spec fn csv_line(cells: Seq<Seq<char>>) -> Seq<char> {
    join(cells.map_values(|c: Seq<char>| csv_field_spec(c)), seq![',']) + seq!['\r', '\n']
}

/// The names of the columns, in order.
pub open spec fn csv_columns() -> Seq<Seq<char>> {
    Seq::new(10, |k: int| csv_column(k))
}

/// The cells written for an entry: its fields, the tags joined by `;`, and
/// `1` or `0` for the favourite mark.
pub open spec fn entry_cells(e: EntryView) -> Seq<Seq<char>> {
    seq![
        e.title,
        e.username,
        e.password,
        e.url,
        e.notes,
        join(e.tags, seq![';']),
        e.group,
        e.color,
        e.totp_secret,
        if e.favorite {
            seq!['1']
        } else {
            seq!['0']
        },
    ]
}

/// The lines of the entries.
pub open spec fn csv_body(es: Seq<EntryView>) -> Seq<char>
    decreases es.len(),
{
    if es.len() == 0 {
        Seq::empty()
    } else {
        csv_body(es.drop_last()) + csv_line(entry_cells(es.last()))
    }
}

/// The CSV text of a list of entries: the header line, then one line per entry.
pub open spec fn csv_text(es: Seq<EntryView>) -> Seq<char> {
    csv_line(csv_columns()) + csv_body(es)
}

proof fn lemma_double_quotes_push(s: Seq<char>, c: char)
    ensures
        double_quotes(s.push(c)) == double_quotes(s) + quote_escape(c),
    decreases s.len(),
{
    if s.len() == 0 {
        assert(s.push(c).drop_first() =~= Seq::<char>::empty());
        assert(double_quotes(Seq::<char>::empty()) == Seq::<char>::empty());
        assert(s.push(c)[0] == c);
        assert(double_quotes(s) =~= Seq::<char>::empty());
        assert(double_quotes(s.push(c)) =~= quote_escape(c));
    } else {
        assert(s.push(c).drop_first() =~= s.drop_first().push(c));
        lemma_double_quotes_push(s.drop_first(), c);
        assert(double_quotes(s.push(c)) =~= quote_escape(s[0]) + (double_quotes(s.drop_first())
            + quote_escape(c)));
    }
}

proof fn lemma_join_push(p: Seq<Seq<char>>, x: Seq<char>, sep: Seq<char>)
    requires
        p.len() >= 1,
    ensures
        join(p.push(x), sep) == join(p, sep) + sep + x,
    decreases p.len(),
{
    assert(p.push(x).drop_first() =~= p.drop_first().push(x));
    if p.len() == 1 {
        assert(p.drop_first().push(x) =~= seq![x]);
        assert(join(seq![x], sep) == x);
        assert(join(p.push(x), sep) =~= p[0] + sep + x);
    } else {
        lemma_join_push(p.drop_first(), x, sep);
        assert(join(p.push(x), sep) =~= p[0] + sep + (join(p.drop_first(), sep) + sep + x));
    }
}

/// A field escaped for CSV, as characters.
fn csv_field_chars(s: &Vec<char>) -> (r: Vec<char>)
    ensures
        r@ == csv_field_spec(s@),
{
    let mut special = false;
    let mut i: usize = 0;
    while i < s.len()
        invariant
            i <= s@.len(),
            special == (exists|j: int| 0 <= j < i && csv_special(#[trigger] s@[j])),
        decreases s@.len() - i,
    {
        let c = s[i];
        if c == ',' || c == '"' || c == '\n' || c == '\r' {
            special = true;
        }
        i = i + 1;
    }
    if !special {
        return copy_chars(s);
    }
    let mut out: Vec<char> = Vec::new();
    out.push('"');
    let mut i: usize = 0;
    assert(s@.take(0) =~= Seq::<char>::empty());
    while i < s.len()
        invariant
            i <= s@.len(),
            out@ == seq!['"'] + double_quotes(s@.take(i as int)),
        decreases s@.len() - i,
    {
        proof {
            assert(s@.take(i + 1) =~= s@.take(i as int).push(s@[i as int]));
            lemma_double_quotes_push(s@.take(i as int), s@[i as int]);
        }
        if s[i] == '"' {
            out.push('"');
            out.push('"');
        } else {
            out.push(s[i]);
        }
        i = i + 1;
        assert(out@ =~= seq!['"'] + double_quotes(s@.take(i as int)));
    }
    out.push('"');
    assert(s@.take(s@.len() as int) =~= s@);
    out
}

/// A field escaped for CSV (RFC 4180): in double quotes, with its double
/// quotes doubled, when it holds a comma, a double quote or a line break;
/// as it is otherwise.
pub fn csv_field(s: &str) -> (r: String)
    ensures
        r@ == csv_field_spec(s@),
{
    let cs = chars_of(s);
    string_of(&csv_field_chars(&cs))
}

/// Appends one CSV line made of `cells`.
fn push_line(out: &mut Vec<char>, cells: &Vec<Vec<char>>)
    requires
        cells@.len() >= 1,
    ensures
        final(out)@ == old(out)@ + csv_line(cells.deep_view()),
{
    let ghost cv = cells.deep_view();
    let ghost fv = cv.map_values(|c: Seq<char>| csv_field_spec(c));
    let ghost o0 = out@;
    let f0 = csv_field_chars(&cells[0]);
    assert(cv[0] == cells@[0]@);
    extend_chars(out, &f0);
    assert(fv.take(1) =~= seq![fv[0]]);
    let mut i: usize = 1;
    while i < cells.len()
        invariant
            1 <= i <= cells@.len(),
            cv == cells.deep_view(),
            fv == cv.map_values(|c: Seq<char>| csv_field_spec(c)),
            out@ == o0 + join(fv.take(i as int), seq![',']),
        decreases cells@.len() - i,
    {
        proof {
            assert(fv.take(i + 1) =~= fv.take(i as int).push(fv[i as int]));
            lemma_join_push(fv.take(i as int), fv[i as int], seq![',']);
        }
        out.push(',');
        let f = csv_field_chars(&cells[i]);
        assert(cv[i as int] == cells@[i as int]@);
        extend_chars(out, &f);
        i = i + 1;
        assert(out@ =~= o0 + join(fv.take(i as int), seq![',']));
    }
    assert(fv.take(cells@.len() as int) =~= fv);
    out.push('\r');
    out.push('\n');
    assert(out@ =~= o0 + csv_line(cv));
}

/// The strings joined, `sep` between each two (`[String]::join`).
pub fn join_strings(tags: &Vec<String>, sep: &Vec<char>) -> (r: Vec<char>)
    ensures
        r@ == join(strings_view(tags@), sep@),
{
    let ghost tv = strings_view(tags@);
    let mut out: Vec<char> = Vec::new();
    if tags.len() == 0 {
        return out;
    }
    let t0 = chars_of(tags[0].as_str());
    extend_chars(&mut out, &t0);
    assert(tv.take(1) =~= seq![tv[0]]);
    let mut i: usize = 1;
    while i < tags.len()
        invariant
            1 <= i <= tags@.len(),
            tv == strings_view(tags@),
            out@ == join(tv.take(i as int), sep@),
        decreases tags@.len() - i,
    {
        proof {
            assert(tv.take(i + 1) =~= tv.take(i as int).push(tv[i as int]));
            lemma_join_push(tv.take(i as int), tv[i as int], sep@);
        }
        extend_chars(&mut out, sep);
        let t = chars_of(tags[i].as_str());
        extend_chars(&mut out, &t);
        i = i + 1;
        assert(out@ =~= join(tv.take(i as int), sep@));
    }
    assert(tv.take(tags@.len() as int) =~= tv);
    out
}

/// The cells of one entry, as characters.
fn entry_cells_exec(e: &Entry) -> (cells: Vec<Vec<char>>)
    ensures
        cells@.len() == 10,
        cells.deep_view() == entry_cells(e@),
{
    let mut cells: Vec<Vec<char>> = Vec::new();
    cells.push(chars_of(e.title.as_str()));
    cells.push(chars_of(e.username.as_str()));
    cells.push(chars_of(e.password.as_str()));
    cells.push(chars_of(e.url.as_str()));
    cells.push(chars_of(e.notes.as_str()));
    let mut semi: Vec<char> = Vec::new();
    semi.push(';');
    assert(semi@ =~= seq![';']);
    cells.push(join_strings(&e.tags, &semi));
    cells.push(chars_of(e.group.as_str()));
    cells.push(chars_of(e.color.as_str()));
    cells.push(chars_of(e.totp_secret.as_str()));
    let mut fav: Vec<char> = Vec::new();
    fav.push(if e.favorite {
        '1'
    } else {
        '0'
    });
    cells.push(fav);
    assert forall|k: int| 0 <= k < 10 implies cells.deep_view()[k] == entry_cells(e@)[k] by {
        assert(cells@[k].deep_view() =~= cells@[k]@);
    }
    assert(cells.deep_view() =~= entry_cells(e@));
    cells
}

/// The CSV text of the entries: the header line, then one line per entry.
pub fn format_csv(entries: &[Entry]) -> (text: String)
    ensures
        text@ == csv_text(entries_view(entries@)),
{
    let mut out: Vec<char> = Vec::new();
    let mut header: Vec<Vec<char>> = Vec::new();
    let mut k: usize = 0;
    while k < 10
        invariant
            k <= 10,
            header.deep_view() == csv_columns().take(k as int),
        decreases 10 - k,
    {
        let name = column_name(k);
        let ghost h0 = header.deep_view();
        assert(name.deep_view() =~= name@);
        header.push(name);
        assert(header.deep_view() =~= h0.push(csv_column(k as int)));
        assert(csv_columns().take(k + 1) =~= csv_columns().take(k as int).push(csv_column(k as int)));
        k = k + 1;
    }
    assert(csv_columns().take(10) =~= csv_columns());
    push_line(&mut out, &header);
    let ghost ev = entries_view(entries@);
    let mut i: usize = 0;
    assert(ev.take(0) =~= Seq::<EntryView>::empty());
    while i < entries.len()
        invariant
            i <= entries@.len(),
            ev == entries_view(entries@),
            out@ == csv_line(csv_columns()) + csv_body(ev.take(i as int)),
        decreases entries@.len() - i,
    {
        let cells = entry_cells_exec(&entries[i]);
        push_line(&mut out, &cells);
        assert(ev.take(i + 1).drop_last() =~= ev.take(i as int));
        assert(ev.take(i + 1).last() == entries@[i as int]@);
        i = i + 1;
        assert(out@ =~= csv_line(csv_columns()) + csv_body(ev.take(i as int)));
    }
    assert(ev.take(entries@.len() as int) =~= ev);
    string_of(&out)
}


// ---------------------------------------------------------------------------
// Reading back what was written
// ---------------------------------------------------------------------------
/// What an entry becomes after a trip through CSV: no id, zero timestamps.
pub open spec fn csv_imported(e: EntryView) -> EntryView {
    EntryView { id: None, created_at: 0, updated_at: 0, ..e }
}

/// A tag that survives the trip through CSV: not empty, without `;`, and
/// without white space around it.
pub open spec fn csv_tag_ok(t: Seq<char>) -> bool {
    t.len() > 0 && !t.contains(';') && trim(t) == t
}

proof fn lemma_scan_plain(f: Seq<char>, rest: Seq<char>, st: CsvScan)
    requires
        !st.quoted,
        !needs_quotes(f),
    ensures
        scan(f + rest, st) == scan(rest, CsvScan { field: st.field + f, ..st }),
    decreases f.len(),
{
    if f.len() == 0 {
        assert(f + rest =~= rest);
        assert(st.field + f =~= st.field);
    } else {
        let s = f + rest;
        assert(s[0] == f[0]);
        assert(!csv_special(f[0]));
        assert(s.skip(1) =~= f.drop_first() + rest);
        assert(!needs_quotes(f.drop_first())) by {
            if needs_quotes(f.drop_first()) {
                let i = choose|i: int|
                    0 <= i < f.drop_first().len() && csv_special(#[trigger] f.drop_first()[i]);
                assert(f[i + 1] == f.drop_first()[i]);
            }
        }
        lemma_scan_plain(f.drop_first(), rest, CsvScan { field: st.field.push(f[0]), ..st });
        assert(st.field.push(f[0]) + f.drop_first() =~= st.field + f);
    }
}

proof fn lemma_scan_quoted(f: Seq<char>, rest: Seq<char>, st: CsvScan)
    requires
        st.quoted,
        rest.len() == 0 || rest[0] != '"',
    ensures
        scan(double_quotes(f) + seq!['"'] + rest, st) == scan(
            rest,
            CsvScan { quoted: false, field: st.field + f, ..st },
        ),
    decreases f.len(),
{
    let s = double_quotes(f) + seq!['"'] + rest;
    if f.len() == 0 {
        assert(double_quotes(f) =~= Seq::<char>::empty());
        assert(s =~= seq!['"'] + rest);
        assert(s[0] == '"');
        assert(s.len() > 1 ==> s[1] == rest[0]);
        assert(s.skip(1) =~= rest);
        assert(st.field + f =~= st.field);
    } else {
        let t = f.drop_first();
        if f[0] == '"' {
            assert(s =~= seq!['"', '"'] + (double_quotes(t) + seq!['"'] + rest));
            assert(s[0] == '"' && s[1] == '"');
            assert(s.skip(2) =~= double_quotes(t) + seq!['"'] + rest);
            lemma_scan_quoted(t, rest, CsvScan { field: st.field.push('"'), ..st });
            assert(st.field.push('"') + t =~= st.field + f);
        } else {
            assert(s =~= seq![f[0]] + (double_quotes(t) + seq!['"'] + rest));
            assert(s[0] == f[0]);
            assert(s.skip(1) =~= double_quotes(t) + seq!['"'] + rest);
            lemma_scan_quoted(t, rest, CsvScan { field: st.field.push(f[0]), ..st });
            assert(st.field.push(f[0]) + t =~= st.field + f);
        }
    }
}

proof fn lemma_scan_field(f: Seq<char>, rest: Seq<char>, st: CsvScan)
    requires
        !st.quoted,
        rest.len() == 0 || rest[0] != '"',
    ensures
        scan(csv_field_spec(f) + rest, st) == scan(rest, CsvScan { field: st.field + f, ..st }),
{
    if needs_quotes(f) {
        let s = csv_field_spec(f) + rest;
        assert(s =~= seq!['"'] + (double_quotes(f) + seq!['"'] + rest));
        assert(s[0] == '"');
        assert(s.skip(1) =~= double_quotes(f) + seq!['"'] + rest);
        lemma_scan_quoted(f, rest, CsvScan { quoted: true, ..st });
    } else {
        lemma_scan_plain(f, rest, st);
    }
}

proof fn lemma_scan_line(cells: Seq<Seq<char>>, rest: Seq<char>, st: CsvScan)
    requires
        cells.len() >= 1,
        !st.quoted,
        st.field.len() == 0,
    ensures
        scan(csv_line(cells) + rest, st) == scan(
            rest,
            CsvScan {
                quoted: false,
                field: Seq::empty(),
                row: Seq::empty(),
                rows: st.rows.push(st.row + cells),
            },
        ),
    decreases cells.len(),
{
    let fs = cells.map_values(|c: Seq<char>| csv_field_spec(c));
    let crlf = seq!['\r', '\n'];
    assert(st.field =~= Seq::<char>::empty());
    if cells.len() == 1 {
        assert(join(fs, seq![',']) == fs[0]);
        assert(csv_line(cells) + rest =~= csv_field_spec(cells[0]) + (crlf + rest));
        lemma_scan_field(cells[0], crlf + rest, st);
        let st1 = CsvScan { field: st.field + cells[0], ..st };
        assert(st.field + cells[0] =~= cells[0]);
        let r1 = crlf + rest;
        assert(r1[0] == '\r');
        assert(r1.skip(1) =~= seq!['\n'] + rest);
        assert(scan(r1, st1) == scan(seq!['\n'] + rest, st1));
        assert((seq!['\n'] + rest)[0] == '\n');
        assert((seq!['\n'] + rest).skip(1) =~= rest);
        assert(scan(seq!['\n'] + rest, st1) == scan(
            rest,
            CsvScan {
                field: Seq::empty(),
                row: Seq::empty(),
                rows: st1.rows.push(st1.row.push(st1.field)),
                ..st1
            },
        ));
        assert(st.row.push(cells[0]) =~= st.row + cells);
        assert(st1.row.push(st1.field) =~= st.row + cells);
    } else {
        let tail = cells.drop_first();
        assert(fs.drop_first() =~= tail.map_values(|c: Seq<char>| csv_field_spec(c)));
        assert(join(fs, seq![',']) == fs[0] + seq![','] + join(fs.drop_first(), seq![',']));
        let after = seq![','] + (csv_line(tail) + rest);
        assert(csv_line(cells) + rest =~= csv_field_spec(cells[0]) + after);
        lemma_scan_field(cells[0], after, st);
        assert(st.field + cells[0] =~= cells[0]);
        assert(after[0] == ',');
        assert(after.skip(1) =~= csv_line(tail) + rest);
        let st1 = CsvScan { field: st.field + cells[0], ..st };
        let st2 = CsvScan { field: Seq::empty(), row: st.row.push(cells[0]), ..st };
        assert(st1.row.push(st1.field) =~= st.row.push(cells[0]));
        assert(scan(after, st1) == scan(
            after.skip(1),
            CsvScan { field: Seq::empty(), row: st1.row.push(st1.field), ..st1 },
        ));
        assert(scan(after, st1) == scan(csv_line(tail) + rest, st2));
        lemma_scan_line(tail, rest, st2);
        assert(st.row.push(cells[0]) + tail =~= st.row + cells);
    }
}

/// The rows that the entries' lines make.
pub open spec fn entry_rows(es: Seq<EntryView>) -> Seq<Seq<Seq<char>>> {
    es.map_values(|e: EntryView| entry_cells(e))
}

proof fn lemma_scan_body(es: Seq<EntryView>, rest: Seq<char>, st: CsvScan)
    requires
        !st.quoted,
        st.field.len() == 0,
        st.row.len() == 0,
    ensures
        scan(csv_body(es) + rest, st) == scan(rest, CsvScan { rows: st.rows + entry_rows(es), ..st }),
    decreases es.len(),
{
    if es.len() == 0 {
        assert(csv_body(es) + rest =~= rest);
        assert(st.rows + entry_rows(es) =~= st.rows);
    } else {
        let prev = es.drop_last();
        let line = csv_line(entry_cells(es.last()));
        assert(csv_body(es) + rest =~= csv_body(prev) + (line + rest));
        lemma_scan_body(prev, line + rest, st);
        let st1 = CsvScan { rows: st.rows + entry_rows(prev), ..st };
        lemma_scan_line(entry_cells(es.last()), rest, st1);
        assert(st.row + entry_cells(es.last()) =~= entry_cells(es.last()));
        assert(entry_rows(es) =~= entry_rows(prev).push(entry_cells(es.last())));
        assert((st.rows + entry_rows(prev)).push(entry_cells(es.last())) =~= st.rows + entry_rows(
            es,
        ));
        assert(st.field =~= Seq::<char>::empty());
        assert(st.row =~= Seq::<Seq<char>>::empty());
    }
}

proof fn lemma_rows_of_text(es: Seq<EntryView>)
    ensures
        csv_rows(csv_text(es)) == seq![csv_columns()] + entry_rows(es),
{
    let st0 = scan_start();
    assert(csv_text(es) =~= csv_line(csv_columns()) + (csv_body(es) + Seq::<char>::empty()));
    lemma_scan_line(csv_columns(), csv_body(es) + Seq::<char>::empty(), st0);
    let st1 = CsvScan {
        quoted: false,
        field: Seq::empty(),
        row: Seq::empty(),
        rows: st0.rows.push(st0.row + csv_columns()),
    };
    lemma_scan_body(es, Seq::empty(), st1);
    assert(st0.row + csv_columns() =~= csv_columns());
    assert(st0.rows.push(csv_columns()) + entry_rows(es) =~= seq![csv_columns()] + entry_rows(es));
}

/// A word of lower-case ASCII letters and `_`.
pub open spec fn plain_word(s: Seq<char>) -> bool {
    s.len() > 0 && forall|i: int| 0 <= i < s.len() ==> ('a' <= #[trigger] s[i] <= 'z' || s[i] == '_')
}

proof fn lemma_key_plain(s: Seq<char>)
    requires
        plain_word(s),
    ensures
        col_key(s) == s,
{
    assert(!is_white(s[0]));
    assert(lead_ws(s) == 0);
    assert(s.skip(0) =~= s);
    assert(!is_white(s.last()));
    assert(trail_ws(s) == 0);
    assert(s.take(s.len() as int) =~= s);
    assert(trim(s) == s);
    assert(all_ascii(s));
    assert(s.map_values(|c: char| ascii_lower(c)) =~= s);
}

proof fn lemma_columns_plain(k: int)
    requires
        0 <= k < 10,
    ensures
        plain_word(csv_column(k)),
        col_key(csv_column(k)) == csv_column(k),
{
    let s = csv_column(k);
    assert forall|i: int| 0 <= i < s.len() implies ('a' <= #[trigger] s[i] <= 'z' || s[i] == '_') by {
        if k == 0 || k == 4 || k == 6 || k == 7 {
            assert(i == 0 || i == 1 || i == 2 || i == 3 || i == 4);
        } else if k == 1 || k == 2 || k == 9 {
            assert(i == 0 || i == 1 || i == 2 || i == 3 || i == 4 || i == 5 || i == 6 || i == 7);
        } else if k == 3 {
            assert(i == 0 || i == 1 || i == 2);
        } else if k == 5 {
            assert(i == 0 || i == 1 || i == 2 || i == 3);
        } else {
            assert(i == 0 || i == 1 || i == 2 || i == 3 || i == 4 || i == 5 || i == 6 || i == 7
                || i == 8 || i == 9 || i == 10);
        }
    }
    lemma_key_plain(s);
}

proof fn lemma_columns_distinct(j: int, k: int)
    requires
        0 <= j < 10,
        0 <= k < 10,
        j != k,
    ensures
        csv_column(j) != csv_column(k),
{
    let a = csv_column(j);
    let b = csv_column(k);
    if a.len() == b.len() {
        assert(a[0] != b[0] || a[1] != b[1]);
    }
}

proof fn lemma_find_column(k: int, from: nat)
    requires
        0 <= from <= k < 10,
    ensures
        find_col(csv_columns(), csv_column(k), from) == Some(k as nat),
    decreases k - from,
{
    lemma_columns_plain(from as int);
    if from < k {
        lemma_columns_distinct(from as int, k);
        lemma_find_column(k, from + 1);
    }
}

/// Splitting text that holds no separator extends the current piece.
pub proof fn lemma_split_no_sep(a: Seq<char>, r: Seq<char>, cur: Seq<char>, sep: char)
    requires
        !a.contains(sep),
    ensures
        split_acc(a + r, cur, sep) == split_acc(r, cur + a, sep),
    decreases a.len(),
{
    if a.len() == 0 {
        assert(a + r =~= r);
        assert(cur + a =~= cur);
    } else {
        let s = a + r;
        assert(s[0] == a[0]);
        assert(a[0] != sep) by {
            if a[0] == sep {
                assert(a.contains(sep));
            }
        }
        assert(s.drop_first() =~= a.drop_first() + r);
        assert(!a.drop_first().contains(sep)) by {
            if a.drop_first().contains(sep) {
                let i = choose|i: int| 0 <= i < a.drop_first().len() && a.drop_first()[i] == sep;
                assert(a[i + 1] == sep);
            }
        }
        lemma_split_no_sep(a.drop_first(), r, cur.push(a[0]), sep);
        assert(cur.push(a[0]) + a.drop_first() =~= cur + a);
    }
}

proof fn lemma_split_join(ts: Seq<Seq<char>>)
    requires
        ts.len() >= 1,
        forall|j: int| 0 <= j < ts.len() ==> csv_tag_ok(#[trigger] ts[j]),
    ensures
        split_on(join(ts, seq![';']), ';') == ts,
    decreases ts.len(),
{
    assert(csv_tag_ok(ts[0]));
    if ts.len() == 1 {
        assert(join(ts, seq![';']) == ts[0]);
        lemma_split_no_sep(ts[0], Seq::empty(), Seq::empty(), ';');
        assert(ts[0] + Seq::<char>::empty() =~= ts[0]);
        assert(Seq::<char>::empty() + ts[0] =~= ts[0]);
        assert(split_acc(Seq::<char>::empty(), ts[0], ';') == seq![ts[0]]);
        assert(seq![ts[0]] =~= ts);
    } else {
        let tail = ts.drop_first();
        assert forall|j: int| 0 <= j < tail.len() implies csv_tag_ok(#[trigger] tail[j]) by {
            assert(tail[j] == ts[j + 1]);
        }
        lemma_split_join(tail);
        let rest = seq![';'] + join(tail, seq![';']);
        assert(join(ts, seq![';']) =~= ts[0] + rest);
        lemma_split_no_sep(ts[0], rest, Seq::empty(), ';');
        assert(Seq::<char>::empty() + ts[0] =~= ts[0]);
        assert(rest[0] == ';');
        assert(rest.drop_first() =~= join(tail, seq![';']));
        assert(seq![ts[0]] + tail =~= ts);
    }
}

proof fn lemma_keep_tags(ts: Seq<Seq<char>>)
    requires
        forall|j: int| 0 <= j < ts.len() ==> csv_tag_ok(#[trigger] ts[j]),
    ensures
        keep_tags(ts) == ts,
    decreases ts.len(),
{
    if ts.len() > 0 {
        let prev = ts.drop_last();
        assert forall|j: int| 0 <= j < prev.len() implies csv_tag_ok(#[trigger] prev[j]) by {
            assert(prev[j] == ts[j]);
        }
        lemma_keep_tags(prev);
        assert(csv_tag_ok(ts[ts.len() - 1]));
        assert(prev.push(ts.last()) =~= ts);
    }
}

proof fn lemma_tags_roundtrip(ts: Seq<Seq<char>>)
    requires
        forall|j: int| 0 <= j < ts.len() ==> csv_tag_ok(#[trigger] ts[j]),
    ensures
        tags_of_cell(join(ts, seq![';'])) == ts,
{
    if ts.len() == 0 {
        let e = Seq::<char>::empty();
        assert(join(ts, seq![';']) == e);
        assert(split_on(e, ';') == seq![e]);
        assert(seq![e].drop_last() =~= Seq::<Seq<char>>::empty());
        assert(lead_ws(e) == 0);
        assert(trim(e).len() == 0);
        assert(seq![e].last() == e);
        assert(keep_tags(Seq::<Seq<char>>::empty()) == Seq::<Seq<char>>::empty());
        assert(keep_tags(seq![e]) =~= Seq::<Seq<char>>::empty());
        assert(ts =~= Seq::<Seq<char>>::empty());
    } else {
        lemma_split_join(ts);
        lemma_keep_tags(ts);
    }
}

proof fn lemma_one_char_trim(c: char)
    requires
        !is_white(c),
    ensures
        trim(seq![c]) == seq![c],
{
    let s = seq![c];
    assert(s[0] == c);
    assert(s.drop_first().len() == 0);
    assert(lead_ws(s) == 0);
    assert(s.skip(0) =~= s);
    assert(s.last() == c);
    assert(trail_ws(s) == 0);
    assert(s.take(1) =~= s);
}

proof fn lemma_row_entry(e: EntryView)
    requires
        forall|j: int| 0 <= j < e.tags.len() ==> csv_tag_ok(#[trigger] e.tags[j]),
    ensures
        !blank_row(entry_cells(e)),
        row_entry(csv_columns(), entry_cells(e)) == csv_imported(e),
{
    let cells = entry_cells(e);
    let cols = csv_columns();
    assert(cols.len() == 10 && cells.len() == 10);
    assert forall|k: int| 0 <= k < 10 implies field_value(cols, cells, #[trigger] csv_column(k))
        == cells[k] by {
        lemma_find_column(k, 0);
    }
    assert(field_value(cols, cells, csv_column(0)) == cells[0]);
    assert(field_value(cols, cells, csv_column(1)) == cells[1]);
    assert(field_value(cols, cells, csv_column(2)) == cells[2]);
    assert(field_value(cols, cells, csv_column(3)) == cells[3]);
    assert(field_value(cols, cells, csv_column(4)) == cells[4]);
    assert(field_value(cols, cells, csv_column(5)) == cells[5]);
    assert(field_value(cols, cells, csv_column(6)) == cells[6]);
    assert(field_value(cols, cells, csv_column(7)) == cells[7]);
    assert(field_value(cols, cells, csv_column(8)) == cells[8]);
    assert(field_value(cols, cells, csv_column(9)) == cells[9]);
    lemma_tags_roundtrip(e.tags);
    lemma_one_char_trim('1');
    lemma_one_char_trim('0');
    assert(seq!['0'] != seq!['1']) by {
        assert(seq!['0'][0] != seq!['1'][0]);
    }
    assert(!all_white(cells[9])) by {
        assert(!is_white(cells[9][0]));
    }
    assert(row_entry(cols, cells) =~= csv_imported(e));
}

proof fn lemma_rows_entries(es: Seq<EntryView>)
    requires
        forall|i: int, j: int|
            0 <= i < es.len() && 0 <= j < es[i].tags.len() ==> csv_tag_ok(#[trigger] es[i].tags[j]),
    ensures
        rows_entries(csv_columns(), entry_rows(es)) == es.map_values(
            |e: EntryView| csv_imported(e),
        ),
    decreases es.len(),
{
    if es.len() > 0 {
        let prev = es.drop_last();
        assert forall|i: int, j: int|
            0 <= i < prev.len() && 0 <= j < prev[i].tags.len() implies csv_tag_ok(
            #[trigger] prev[i].tags[j],
        ) by {
            assert(prev[i] == es[i]);
        }
        lemma_rows_entries(prev);
        assert(entry_rows(es).drop_last() =~= entry_rows(prev));
        assert(entry_rows(es).last() == entry_cells(es.last()));
        let last = es[es.len() - 1];
        assert forall|j: int| 0 <= j < last.tags.len() implies csv_tag_ok(#[trigger] last.tags[j]) by {
        }
        lemma_row_entry(last);
        assert(es.map_values(|e: EntryView| csv_imported(e)) =~= prev.map_values(
            |e: EntryView| csv_imported(e),
        ).push(csv_imported(last)));
    } else {
        assert(es.map_values(|e: EntryView| csv_imported(e)) =~= Seq::<EntryView>::empty());
    }
}

/// Reading back the text that `format_csv` writes gives the same entries,
/// without ids and with zero timestamps (CSV carries neither), provided every
/// tag is non-empty, holds no `;` and has no white space around it.
pub proof fn lemma_csv_roundtrip(es: Seq<EntryView>)
    requires
        forall|i: int, j: int|
            0 <= i < es.len() && 0 <= j < es[i].tags.len() ==> csv_tag_ok(#[trigger] es[i].tags[j]),
    ensures
        parse_csv_spec(csv_text(es)) == Ok::<Seq<EntryView>, Seq<char>>(
            es.map_values(|e: EntryView| csv_imported(e)),
        ),
{
    lemma_rows_of_text(es);
    let rows = csv_rows(csv_text(es));
    assert(rows[0] == csv_columns());
    lemma_columns_plain(0);
    assert(csv_columns()[0] == csv_column(0));
    assert(rows.skip(1) =~= entry_rows(es));
    lemma_rows_entries(es);
}

} // verus!
