//! Auto-type of login and password into another application's window
//! (xdotool on X11, wtype on Wayland). The sequence is a string such as
//!   {USERNAME}{TAB}{PASSWORD}{ENTER}
//! where {USERNAME}/{PASSWORD} are the entry's fields, {TAB}/{ENTER} keys,
//! {DELAY ms} a pause, and any other text is typed as it is, where it stands.

use vstd::prelude::*;

use crate::text::{
    all_ascii, ascii_lower, ascii_upper, char_is_whitespace, chars_of, contains_chars, contains_seq,
    decimal, decimal_string, extend_chars, is_white, lead_ws, lowercase, trail_ws, owned, string_of, to_lowercase,
    to_uppercase, trim, trim_chars, uppercase,
};

verus! {

/// How synthetic input is produced.
#[derive(Debug, Clone, Copy, PartialEq, Eq, Structural)]
pub enum Backend {
    /// X11, through xdotool.
    X11,
    /// Wayland, through wtype.
    Wayland,
}

/// One step of an auto-type sequence.
#[derive(Debug, Clone)]
pub enum Step {
    /// Type text (login, password or a literal).
    Text(String),
    /// Press a key (`Tab`, `Return`: xdotool/wtype names).
    Key(&'static str),
    /// Pause, milliseconds.
    Delay(u64),
}

/// The value of a step.
pub enum StepView {
    Text(Seq<char>),
    Key(Seq<char>),
    Delay(u64),
}

impl View for Step {
    type V = StepView;

    open spec fn view(&self) -> StepView {
        match self {
            Step::Text(t) => StepView::Text(t@),
            Step::Key(k) => StepView::Key(k@),
            Step::Delay(ms) => StepView::Delay(*ms),
        }
    }
}

/// The values of a list of steps.
pub open spec fn steps_view(v: Seq<Step>) -> Seq<StepView> {
    v.map_values(|s: Step| s@)
}

/// Upper case as `str::to_uppercase` gives it: ASCII text letter by letter,
/// other text by the Unicode mapping.
pub open spec fn upper(s: Seq<char>) -> Seq<char> {
    if all_ascii(s) {
        s.map_values(|c: char| ascii_upper(c))
    } else {
        uppercase(s)
    }
}

/// Lower case as `str::to_lowercase` gives it.
pub open spec fn lower(s: Seq<char>) -> Seq<char> {
    if all_ascii(s) {
        s.map_values(|c: char| ascii_lower(c))
    } else {
        lowercase(s)
    }
}

/// The first position at or after `i` that is not white space.
pub open spec fn skip_ws(s: Seq<char>, i: nat) -> nat
    decreases s.len() - i,
{
    if i < s.len() && is_white(s[i as int]) {
        skip_ws(s, i + 1)
    } else {
        i
    }
}

/// The first position at or after `i` that is white space (or the end).
pub open spec fn skip_word(s: Seq<char>, i: nat) -> nat
    decreases s.len() - i,
{
    if i < s.len() && !is_white(s[i as int]) {
        skip_word(s, i + 1)
    } else {
        i
    }
}

/// The second white-space-separated word (`split_whitespace().nth(1)`).
pub open spec fn second_word(s: Seq<char>) -> Option<Seq<char>> {
    let a = skip_ws(s, 0);
    let b = skip_word(s, a);
    let c = skip_ws(s, b);
    let d = skip_word(s, c);
    if c < s.len() {
        Some(s.subrange(c as int, d as int))
    } else {
        None
    }
}

/// The value of a string of decimal digits.
pub open spec fn digits_value(d: Seq<char>) -> nat
    decreases d.len(),
{
    if d.len() == 0 {
        0
    } else {
        digits_value(d.drop_last()) * 10 + ((d.last() as u32) - ('0' as u32)) as nat
    }
}

/// `w` without a leading `+`.
pub open spec fn after_plus(w: Seq<char>) -> Seq<char> {
    if w.len() > 0 && w[0] == '+' {
        w.drop_first()
    } else {
        w
    }
}

/// Whether every character of `d` is a decimal digit.
pub open spec fn all_digits(d: Seq<char>) -> bool {
    forall|i: int| 0 <= i < d.len() ==> '0' <= #[trigger] d[i] <= '9'
}

/// What `str::parse::<u64>` gives: an optional `+`, then at least one
/// decimal digit, the value not above `u64::MAX`.
pub open spec fn parse_u64_spec(w: Seq<char>) -> Option<u64> {
    let d = after_plus(w);
    if d.len() > 0 && all_digits(d) && digits_value(d) <= u64::MAX {
        Some(digits_value(d) as u64)
    } else {
        None
    }
}

/// `str::parse::<u64>`: an optional `+` and decimal digits, within `u64`.
fn parse_u64(s: &str) -> (r: Option<u64>)
    ensures
        r == parse_u64_spec(s@),
{
    let cs = chars_of(s);
    let start: usize = if cs.len() > 0 && cs[0] == '+' {
        1
    } else {
        0
    };
    let ghost d = cs@.skip(start as int);
    assert(d == after_plus(s@));
    if cs.len() == start {
        return None;
    }
    let mut v: u128 = 0;
    let mut overflow = false;
    let mut i: usize = start;
    assert(d.take(0) =~= Seq::<char>::empty());
    while i < cs.len()
        invariant
            start <= i <= cs@.len(),
            d == cs@.skip(start as int),
            d == after_plus(s@),
            forall|k: int| 0 <= k < i - start ==> '0' <= #[trigger] d[k] <= '9',
            !overflow ==> v == digits_value(d.take(i - start)) && v <= u64::MAX,
            overflow ==> digits_value(d.take(i - start)) > u64::MAX,
        decreases cs@.len() - i,
    {
        let c = cs[i];
        if c < '0' || c > '9' {
            assert(d[i - start] == c);
            assert(!all_digits(d));
            return None;
        }
        let ghost t = d.take(i - start);
        assert(d.take(i + 1 - start).drop_last() =~= t);
        assert(d.take(i + 1 - start).last() == c);
        let dig = (c as u32 - '0' as u32) as u128;
        if !overflow {
            v = v * 10 + dig;
            if v > u64::MAX as u128 {
                overflow = true;
            }
        }
        i = i + 1;
    }
    assert(d.take(cs@.len() - start) =~= d);
    if overflow {
        None
    } else {
        Some(v as u64)
    }
}

/// The pause of a `{DELAY ms}` token: its second word as a number, 150 when
/// it has none or it is not a number.
pub open spec fn delay_ms(token: Seq<char>) -> u64 {
    match second_word(trim(token)) {
        Some(w) => match parse_u64_spec(w) {
            Some(v) => v,
            None => 150,
        },
        None => 150,
    }
}

/// The sequence used when the given one is blank.
pub open spec fn default_sequence() -> Seq<char> {
    "{USERNAME}{TAB}{PASSWORD}"@
}

/// The parser's state: the steps so far and the pending literal text.
pub type ParseState = (Seq<StepView>, Seq<char>);

/// The position of the first `}` at or after `j`, or the end.
pub open spec fn close_brace(s: Seq<char>, j: nat) -> nat
    decreases s.len() - j,
{
    if j < s.len() && s[j as int] != '}' {
        close_brace(s, j + 1)
    } else {
        j
    }
}

/// The closing brace of a token lies between its start and the end.
pub proof fn lemma_close_brace(s: Seq<char>, j: nat)
    requires
        j <= s.len(),
    ensures
        j <= close_brace(s, j) <= s.len(),
    decreases s.len() - j,
{
    if j < s.len() && s[j as int] != '}' {
        lemma_close_brace(s, j + 1);
    }
}

/// The state with the pending literal text, if any, made a text step.
pub open spec fn flush(st: ParseState) -> ParseState {
    if st.1.len() > 0 {
        (st.0.push(StepView::Text(st.1)), Seq::empty())
    } else {
        st
    }
}

/// The state after step `step`: the literal text before it is typed first.
pub open spec fn add_step(st: ParseState, step: StepView) -> ParseState {
    (flush(st).0.push(step), Seq::empty())
}

/// What one `{token}` does to the state. A token that makes a step ends the
/// literal text before it, so that text is typed where it stands.
pub open spec fn apply_token(token: Seq<char>, username: Seq<char>, password: Seq<char>, st: ParseState) -> ParseState {
    let key = upper(trim(token));
    if key == "USERNAME"@ {
        if username.len() > 0 {
            add_step(st, StepView::Text(username))
        } else {
            st
        }
    } else if key == "PASSWORD"@ {
        if password.len() > 0 {
            add_step(st, StepView::Text(password))
        } else {
            st
        }
    } else if key == "TAB"@ {
        add_step(st, StepView::Key("Tab"@))
    } else if key == "ENTER"@ || key == "RETURN"@ {
        add_step(st, StepView::Key("Return"@))
    } else if key.len() >= "DELAY"@.len() && key.take("DELAY"@.len() as int) == "DELAY"@ {
        add_step(st, StepView::Delay(delay_ms(token)))
    } else {
        (st.0, st.1 + seq!['{'] + token + seq!['}'])
    }
}

/// Parsing from position `i`: a `{` starts a token that runs to the next `}`
/// (or the end); any other character goes to the literal text.
pub open spec fn parse_from(s: Seq<char>, i: nat, username: Seq<char>, password: Seq<char>, st: ParseState) -> ParseState
    decreases s.len() - i,
{
    if i >= s.len() {
        st
    } else if s[i as int] == '{' {
        let j = close_brace(s, i + 1);
        let token = s.subrange(i + 1 as int, j as int);
        let next = if j < s.len() {
            j + 1
        } else {
            j
        };
        proof {
            lemma_close_brace(s, i + 1);
        }
        if i < next <= s.len() {
            parse_from(s, next, username, password, apply_token(token, username, password, st))
        } else {
            st
        }
    } else {
        parse_from(s, i + 1, username, password, (st.0, st.1.push(s[i as int])))
    }
}

/// The steps of a sequence, in the order in which they stand: tokens and
/// the literal text between them (a blank sequence is the default one).
pub open spec fn parse_sequence_spec(seq: Seq<char>, username: Seq<char>, password: Seq<char>) -> Seq<StepView> {
    let s = if trim(seq).len() == 0 {
        default_sequence()
    } else {
        seq
    };
    flush(parse_from(s, 0, username, password, (Seq::empty(), Seq::empty()))).0
}

proof fn lemma_close_brace_at(s: Seq<char>, j: nat, e: nat)
    requires
        j <= e < s.len(),
        s[e as int] == '}',
        forall|k: int| j <= k < e ==> s[k] != '}',
    ensures
        close_brace(s, j) == e,
    decreases e - j,
{
    if j < e {
        lemma_close_brace_at(s, j + 1, e);
    }
}

/// A token `{w}` at position `i` (with no `}` inside `w`) acts on the state
/// and parsing goes on after it.
proof fn lemma_token_at(s: Seq<char>, i: int, w: Seq<char>, username: Seq<char>, password: Seq<char>, st: ParseState)
    requires
        0 <= i,
        i + w.len() + 2 <= s.len(),
        s.subrange(i, i + w.len() + 2) == seq!['{'] + w + seq!['}'],
        forall|k: int| 0 <= k < w.len() ==> w[k] != '}',
    ensures
        parse_from(s, i as nat, username, password, st) == parse_from(
            s,
            (i + w.len() + 2) as nat,
            username,
            password,
            apply_token(w, username, password, st),
        ),
{
    let n = w.len() as int;
    let t = s.subrange(i, i + n + 2);
    assert(s[i] == t[0]);
    assert(s[i + n + 1] == t[n + 1]);
    assert forall|k: int| i + 1 <= k < i + 1 + n implies s[k] != '}' by {
        assert(s[k] == t[k - i]);
        assert(t[k - i] == w[k - i - 1]);
    }
    lemma_close_brace_at(s, (i + 1) as nat, (i + 1 + n) as nat);
    assert(s.subrange(i + 1, i + 1 + n) =~= w) by {
        assert forall|k: int| 0 <= k < n implies s.subrange(i + 1, i + 1 + n)[k] == w[k] by {
            assert(s[i + 1 + k] == t[k + 1]);
        }
    }
}

/// A key word in upper-case ASCII letters is its own token key.
proof fn lemma_plain_key(w: Seq<char>)
    requires
        w.len() > 0,
        forall|k: int| 0 <= k < w.len() ==> 'A' <= #[trigger] w[k] <= 'Z',
    ensures
        upper(trim(w)) == w,
{
    assert(!is_white(w[0]));
    assert(lead_ws(w) == 0);
    assert(w.skip(0) =~= w);
    assert(!is_white(w.last()));
    assert(trail_ws(w) == 0);
    assert(w.take(w.len() as int) =~= w);
    assert(trim(w) == w);
    assert(all_ascii(w));
    assert(w.map_values(|c: char| ascii_upper(c)) =~= w);
}

/// `{PASSWORD}` types the password, whatever the login, when there is one,
/// and nothing when it is empty.
pub proof fn lemma_password_token(username: Seq<char>, password: Seq<char>)
    ensures
        parse_sequence_spec("{PASSWORD}"@, username, password) == (if password.len() > 0 {
            seq![StepView::Text(password)]
        } else {
            Seq::<StepView>::empty()
        }),
{
    reveal_strlit("{PASSWORD}");
    reveal_strlit("PASSWORD");
    reveal_strlit("USERNAME");
    let s = "{PASSWORD}"@;
    let w = "PASSWORD"@;
    assert(!is_white(s[0]));
    assert(lead_ws(s) == 0);
    assert(s.skip(0) =~= s);
    assert(trim(s).len() > 0);
    assert(s.subrange(0, 10) =~= seq!['{'] + w + seq!['}']);
    lemma_token_at(s, 0, w, username, password, (Seq::empty(), Seq::empty()));
    lemma_plain_key(w);
    assert(w != "USERNAME"@);
    if password.len() > 0 {
        assert(flush((Seq::<StepView>::empty(), Seq::<char>::empty())).0 =~= Seq::<StepView>::empty());
    }
}

/// `{USERNAME}` types the login, whatever the password, when there is one,
/// and nothing when it is empty.
pub proof fn lemma_username_token(username: Seq<char>, password: Seq<char>)
    ensures
        parse_sequence_spec("{USERNAME}"@, username, password) == (if username.len() > 0 {
            seq![StepView::Text(username)]
        } else {
            Seq::<StepView>::empty()
        }),
{
    reveal_strlit("{USERNAME}");
    reveal_strlit("USERNAME");
    let s = "{USERNAME}"@;
    let w = "USERNAME"@;
    assert(!is_white(s[0]));
    assert(lead_ws(s) == 0);
    assert(s.skip(0) =~= s);
    assert(trim(s).len() > 0);
    assert(s.subrange(0, 10) =~= seq!['{'] + w + seq!['}']);
    lemma_token_at(s, 0, w, username, password, (Seq::empty(), Seq::empty()));
    lemma_plain_key(w);
}

/// A blank sequence types the login, then Tab, then the password, leaving
/// out the login or the password when it is empty.
pub proof fn lemma_default_sequence(username: Seq<char>, password: Seq<char>)
    ensures
        parse_sequence_spec(""@, username, password) == (if username.len() > 0 {
            seq![StepView::Text(username)]
        } else {
            Seq::<StepView>::empty()
        }) + seq![StepView::Key("Tab"@)] + (if password.len() > 0 {
            seq![StepView::Text(password)]
        } else {
            Seq::<StepView>::empty()
        }),
{
    reveal_strlit("");
    reveal_strlit("{USERNAME}{TAB}{PASSWORD}");
    reveal_strlit("USERNAME");
    reveal_strlit("PASSWORD");
    reveal_strlit("TAB");
    let e = ""@;
    assert(lead_ws(e) == 0);
    assert(trim(e).len() == 0);
    let s = "{USERNAME}{TAB}{PASSWORD}"@;
    let wu = "USERNAME"@;
    let wt = "TAB"@;
    let wp = "PASSWORD"@;
    lemma_plain_key(wu);
    lemma_plain_key(wt);
    lemma_plain_key(wp);
    assert(wt != wu && wt != wp && wp != wu);
    let st0: ParseState = (Seq::empty(), Seq::empty());
    assert(s.subrange(0, 10) =~= seq!['{'] + wu + seq!['}']);
    lemma_token_at(s, 0, wu, username, password, st0);
    let st1 = apply_token(wu, username, password, st0);
    assert(s.subrange(10, 15) =~= seq!['{'] + wt + seq!['}']);
    lemma_token_at(s, 10, wt, username, password, st1);
    let st2 = apply_token(wt, username, password, st1);
    assert(s.subrange(15, 25) =~= seq!['{'] + wp + seq!['}']);
    lemma_token_at(s, 15, wp, username, password, st2);
    let st3 = apply_token(wp, username, password, st2);
    assert(st1.1.len() == 0 && st2.1.len() == 0 && st3.1.len() == 0);
    assert(flush(st0) == st0);
    assert(flush(st1) == st1);
    assert(flush(st2) == st2);
    assert(flush(st3) == st3);
    let expected = (if username.len() > 0 {
        seq![StepView::Text(username)]
    } else {
        Seq::<StepView>::empty()
    }) + seq![StepView::Key("Tab"@)] + (if password.len() > 0 {
        seq![StepView::Text(password)]
    } else {
        Seq::<StepView>::empty()
    });
    assert(st3.0 =~= expected);
}

/// Text without `{` is gathered as it is.
proof fn lemma_plain_from(s: Seq<char>, i: nat, username: Seq<char>, password: Seq<char>, st: ParseState)
    requires
        i <= s.len(),
        forall|k: int| i <= k < s.len() ==> s[k] != '{',
    ensures
        parse_from(s, i, username, password, st) == (st.0, st.1 + s.skip(i as int)),
    decreases s.len() - i,
{
    if i < s.len() {
        lemma_plain_from(s, i + 1, username, password, (st.0, st.1.push(s[i as int])));
        assert(st.1.push(s[i as int]) + s.skip(i + 1int) =~= st.1 + s.skip(i as int));
    } else {
        assert(st.1 + s.skip(i as int) =~= st.1);
    }
}

/// A sequence without tokens, not blank, is typed as it is, in one step.
pub proof fn lemma_plain_text(text: Seq<char>, username: Seq<char>, password: Seq<char>)
    requires
        trim(text).len() > 0,
        forall|k: int| 0 <= k < text.len() ==> text[k] != '{',
    ensures
        parse_sequence_spec(text, username, password) == seq![StepView::Text(text)],
{
    lemma_plain_from(text, 0, username, password, (Seq::empty(), Seq::empty()));
    assert(Seq::<char>::empty() + text.skip(0) =~= text);
    assert(text.len() > 0);
}

/// `{ENTER}` presses Return, whatever the login and the password.
pub proof fn lemma_enter_token(username: Seq<char>, password: Seq<char>)
    ensures
        parse_sequence_spec("{ENTER}"@, username, password) == seq![StepView::Key("Return"@)],
{
    reveal_strlit("{ENTER}");
    reveal_strlit("ENTER");
    reveal_strlit("USERNAME");
    reveal_strlit("PASSWORD");
    reveal_strlit("TAB");
    let s = "{ENTER}"@;
    let w = "ENTER"@;
    assert(!is_white(s[0]));
    assert(lead_ws(s) == 0);
    assert(s.skip(0) =~= s);
    assert(trim(s).len() > 0);
    assert(s.subrange(0, 7) =~= seq!['{'] + w + seq!['}']);
    lemma_token_at(s, 0, w, username, password, (Seq::empty(), Seq::empty()));
    lemma_plain_key(w);
    assert(w != "USERNAME"@ && w != "PASSWORD"@ && w != "TAB"@);
    assert(flush((Seq::<StepView>::empty(), Seq::<char>::empty())).0 =~= Seq::<StepView>::empty());
}

/// Ends the pending literal text: it becomes a text step.
fn flush_literal(steps: &mut Vec<Step>, literal: &mut Vec<char>)
    ensures
        (steps_view(final(steps)@), final(literal)@) == flush((steps_view(old(steps)@), old(literal)@)),
{
    if literal.len() > 0 {
        let ghost sv = steps_view(steps@);
        let ghost lv = literal@;
        steps.push(Step::Text(string_of(literal)));
        *literal = Vec::new();
        assert(steps_view(steps@) =~= sv.push(StepView::Text(lv)));
        assert(literal@ =~= Seq::<char>::empty());
    }
}

fn chars_equal(a: &Vec<char>, b: &str) -> (r: bool)
    ensures
        r == (a@ == b@),
{
    let bs = chars_of(b);
    crate::db::io::chars_eq(a, &bs)
}

fn starts_with(a: &Vec<char>, p: &str) -> (r: bool)
    ensures
        r == (a@.len() >= p@.len() && a@.take(p@.len() as int) == p@),
{
    let ps = chars_of(p);
    if a.len() < ps.len() {
        return false;
    }
    let mut i: usize = 0;
    while i < ps.len()
        invariant
            i <= ps@.len() <= a@.len(),
            ps@ == p@,
            forall|k: int| 0 <= k < i ==> a@[k] == ps@[k],
        decreases ps@.len() - i,
    {
        if a[i] != ps[i] {
            assert(a@.take(p@.len() as int)[i as int] != p@[i as int]);
            return false;
        }
        i = i + 1;
    }
    assert(a@.take(p@.len() as int) =~= p@);
    true
}

fn second_word_exec(s: &Vec<char>) -> (r: Option<Vec<char>>)
    ensures
        match second_word(s@) {
            Some(w) => r is Some && r->Some_0@ == w,
            None => r is None,
        },
{
    let n = s.len();
    let mut i: usize = 0;
    while i < n && char_is_whitespace(s[i])
        invariant
            i <= n == s@.len(),
            skip_ws(s@, 0) == skip_ws(s@, i as nat),
        decreases n - i,
    {
        i = i + 1;
    }
    while i < n && !char_is_whitespace(s[i])
        invariant
            i <= n == s@.len(),
            skip_word(s@, skip_ws(s@, 0)) == skip_word(s@, i as nat),
        decreases n - i,
    {
        i = i + 1;
    }
    let ghost b = i;
    while i < n && char_is_whitespace(s[i])
        invariant
            b <= i <= n == s@.len(),
            b == skip_word(s@, skip_ws(s@, 0)),
            skip_ws(s@, b as nat) == skip_ws(s@, i as nat),
        decreases n - i,
    {
        i = i + 1;
    }
    if i >= n {
        return None;
    }
    let c = i;
    let mut w: Vec<char> = Vec::new();
    while i < n && !char_is_whitespace(s[i])
        invariant
            c <= i <= n == s@.len(),
            skip_word(s@, c as nat) == skip_word(s@, i as nat),
            w@ == s@.subrange(c as int, i as int),
        decreases n - i,
    {
        w.push(s[i]);
        i = i + 1;
    }
    Some(w)
}

fn delay_of(token: &Vec<char>) -> (ms: u64)
    ensures
        ms == delay_ms(token@),
{
    let t = trim_chars(token);
    match second_word_exec(&t) {
        Some(w) => {
            let ws = string_of(&w);
            match parse_u64(ws.as_str()) {
                Some(v) => v,
                None => 150,
            }
        },
        None => 150,
    }
}

fn token_key(token: &Vec<char>) -> (k: Vec<char>)
    ensures
        k@ == upper(trim(token@)),
{
    let t = trim_chars(token);
    let ts = string_of(&t);
    let u = to_uppercase(ts.as_str());
    chars_of(u.as_str())
}

/// Parses a sequence string into steps.
pub fn parse_sequence(seq: &str, username: &str, password: &str) -> (steps: Vec<Step>)
    ensures
        steps_view(steps@) == parse_sequence_spec(seq@, username@, password@),
{
    let given = chars_of(seq);
    let blank = trim_chars(&given).len() == 0;
    let cs = if blank {
        chars_of("{USERNAME}{TAB}{PASSWORD}")
    } else {
        given
    };
    let ghost s = cs@;
    let n = cs.len();
    let mut steps: Vec<Step> = Vec::new();
    let mut literal: Vec<char> = Vec::new();
    let mut i: usize = 0;
    assert(steps_view(steps@) =~= Seq::<StepView>::empty());
    while i < n
        invariant
            i <= n == cs@.len(),
            s == cs@,
            parse_from(s, 0, username@, password@, (Seq::empty(), Seq::empty())) == parse_from(
                s,
                i as nat,
                username@,
                password@,
                (steps_view(steps@), literal@),
            ),
        decreases n - i,
    {
        if cs[i] == '{' {
            let mut j: usize = i + 1;
            let mut token: Vec<char> = Vec::new();
            while j < n && cs[j] != '}'
                invariant
                    i + 1 <= j <= n == cs@.len(),
                    close_brace(cs@, (i + 1) as nat) == close_brace(cs@, j as nat),
                    token@ == cs@.subrange(i + 1, j as int),
                decreases n - j,
            {
                token.push(cs[j]);
                j = j + 1;
            }
            let ghost st0 = (steps_view(steps@), literal@);
            let key = token_key(&token);
            if chars_equal(&key, "USERNAME") {
                if !username.is_empty() {
                    flush_literal(&mut steps, &mut literal);
                    steps.push(Step::Text(owned(username)));
                }
            } else if chars_equal(&key, "PASSWORD") {
                if !password.is_empty() {
                    flush_literal(&mut steps, &mut literal);
                    steps.push(Step::Text(owned(password)));
                }
            } else if chars_equal(&key, "TAB") {
                flush_literal(&mut steps, &mut literal);
                steps.push(Step::Key("Tab"));
            } else if chars_equal(&key, "ENTER") || chars_equal(&key, "RETURN") {
                flush_literal(&mut steps, &mut literal);
                steps.push(Step::Key("Return"));
            } else if starts_with(&key, "DELAY") {
                let ms = delay_of(&token);
                flush_literal(&mut steps, &mut literal);
                steps.push(Step::Delay(ms));
            } else {
                literal.push('{');
                let mut k: usize = 0;
                let ghost l0 = literal@;
                while k < token.len()
                    invariant
                        k <= token@.len(),
                        literal@ == l0 + token@.subrange(0, k as int),
                    decreases token@.len() - k,
                {
                    literal.push(token[k]);
                    k = k + 1;
                }
                literal.push('}');
                assert(literal@ =~= st0.1 + seq!['{'] + token@ + seq!['}']);
            }
            assert((steps_view(steps@), literal@) == apply_token(token@, username@, password@, st0));
            i = if j < n {
                j + 1
            } else {
                j
            };
        } else {
            literal.push(cs[i]);
            i = i + 1;
        }
    }
    flush_literal(&mut steps, &mut literal);
    steps
}

/// Whether an environment variable's value is present and non-empty.
pub open spec fn non_empty(v: Option<Seq<char>>) -> bool {
    match v {
        Some(s) => s.len() > 0,
        None => false,
    }
}

/// The backend for the session: Wayland when `XDG_SESSION_TYPE` mentions
/// `wayland` in any case (so that an XWayland session is not taken for X11);
/// otherwise Wayland only when `WAYLAND_DISPLAY` is set and `DISPLAY` is not.
pub open spec fn backend_spec(session_type: Option<Seq<char>>, wayland_display: Option<Seq<char>>, display: Option<Seq<char>>) -> Backend {
    if session_type is Some && contains_seq(lower(session_type->Some_0), "wayland"@) {
        Backend::Wayland
    } else if non_empty(wayland_display) && !non_empty(display) {
        Backend::Wayland
    } else {
        Backend::X11
    }
}

/// An optional string slice as an optional character sequence.
pub open spec fn opt_view(v: Option<&str>) -> Option<Seq<char>> {
    match v {
        Some(s) => Some(s@),
        None => None,
    }
}

/// Chooses the backend from the values of `XDG_SESSION_TYPE`,
/// `WAYLAND_DISPLAY` and `DISPLAY` (`None` when unset).
pub fn choose_backend(session_type: Option<&str>, wayland_display: Option<&str>, display: Option<&str>) -> (b: Backend)
    ensures
        b == backend_spec(opt_view(session_type), opt_view(wayland_display), opt_view(display)),
{
    if let Some(s) = session_type {
        let l = to_lowercase(s);
        let lc = chars_of(l.as_str());
        if contains_chars(&lc, &chars_of("wayland")) {
            return Backend::Wayland;
        }
    }
    let has_wayland = match wayland_display {
        Some(v) => !v.is_empty(),
        None => false,
    };
    let has_x = match display {
        Some(v) => !v.is_empty(),
        None => false,
    };
    if has_wayland && !has_x {
        Backend::Wayland
    } else {
        Backend::X11
    }
}

/// The helper program of a backend.
pub open spec fn tool_spec(b: Backend) -> Seq<char> {
    match b {
        Backend::X11 => "xdotool"@,
        Backend::Wayland => "wtype"@,
    }
}

/// The helper program of a backend: xdotool on X11, wtype on Wayland.
pub fn backend_tool(b: Backend) -> (t: &'static str)
    ensures
        t@ == tool_spec(b),
{
    match b {
        Backend::X11 => "xdotool",
        Backend::Wayland => "wtype",
    }
}

/// The arguments of the helper program for one step: text is typed with a
/// 60 ms delay between keys, keys are pressed by name, a pause runs no
/// program.
pub open spec fn step_args(step: StepView, b: Backend) -> Option<Seq<Seq<char>>> {
    match step {
        StepView::Text(t) => match b {
            Backend::Wayland => Some(seq!["-d"@, "60"@, t]),
            Backend::X11 => Some(seq!["type"@, "--clearmodifiers"@, "--delay"@, "60"@, "--"@, t]),
        },
        StepView::Key(k) => match b {
            Backend::Wayland => Some(seq!["-k"@, k]),
            Backend::X11 => Some(seq!["key"@, "--clearmodifiers"@, k]),
        },
        StepView::Delay(_) => None,
    }
}

/// The character sequences of a list of strings.
pub open spec fn args_view(v: Seq<String>) -> Seq<Seq<char>> {
    v.map_values(|a: String| a@)
}

/// The command-line arguments that perform one step, or `None` for a pause.
pub fn step_command(step: &Step, b: Backend) -> (r: Option<Vec<String>>)
    ensures
        match step_args(step@, b) {
            Some(a) => r is Some && args_view(r->Some_0@) == a,
            None => r is None,
        },
{
    let mut v: Vec<String> = Vec::new();
    match step {
        Step::Text(t) => {
            match b {
                Backend::Wayland => {
                    v.push(owned("-d"));
                    v.push(owned("60"));
                },
                Backend::X11 => {
                    v.push(owned("type"));
                    v.push(owned("--clearmodifiers"));
                    v.push(owned("--delay"));
                    v.push(owned("60"));
                    v.push(owned("--"));
                },
            }
            v.push(t.clone());
        },
        Step::Key(k) => {
            match b {
                Backend::Wayland => {
                    v.push(owned("-k"));
                },
                Backend::X11 => {
                    v.push(owned("key"));
                    v.push(owned("--clearmodifiers"));
                },
            }
            v.push(owned(k));
        },
        Step::Delay(_) => {
            return None;
        },
    }
    assert(args_view(v@) =~= step_args(step@, b)->Some_0);
    Some(v)
}

/// Whether auto-type has anything to type: a login or a password.
pub fn autotype_wanted(username: &str, password: &str) -> (r: bool)
    ensures
        r == (username@.len() > 0 || password@.len() > 0),
{
    username.unicode_len() > 0 || password.unicode_len() > 0
}

/// The error shown when the backend's helper program cannot be started.
pub open spec fn missing_tool_message(b: Backend) -> Seq<char> {
    "Автоввод не работает: утилита `"@ + tool_spec(b)
        + "` не найдена в системе.\n\nНа X11 нужен `xdotool`, на Wayland — `wtype`.\nУстановите её или воспользуйтесь копированием пароля."@
}

/// The error shown when the backend's helper program cannot be started.
pub fn missing_tool_error(b: Backend) -> (m: String)
    ensures
        m@ == missing_tool_message(b),
{
    String::from_str("Автоввод не работает: утилита `").concat(backend_tool(b)).concat(
        "` не найдена в системе.\n\nНа X11 нужен `xdotool`, на Wayland — `wtype`.\nУстановите её или воспользуйтесь копированием пароля.",
    )
}

/// Seconds the user is given to switch to the target window.
pub const COUNTDOWN_SECS: u32 = 5;

/// What one tick of the auto-type countdown does.
pub enum Countdown {
    /// The time is up: type the sequence.
    Type,
    /// Show the message and tick again a second later, `left` seconds being
    /// left then.
    Wait { left: u32, message: String },
}

/// The message shown while `r` seconds are left.
pub open spec fn countdown_message(r: nat) -> Seq<char> {
    "Автоввод через "@ + decimal(r) + " с… Переключитесь в целевое окно"@
}

/// One tick of the countdown, once a second, with `remaining` seconds left:
/// at zero the sequence is typed, otherwise the message is shown and one
/// second fewer is left.
pub fn countdown_tick(remaining: u32) -> (r: Countdown)
    ensures
        remaining == 0 ==> r is Type,
        remaining > 0 ==> (r matches Countdown::Wait { left, message } && left == remaining - 1 && message@
            == countdown_message(remaining as nat)),
{
    if remaining == 0 {
        return Countdown::Type;
    }
    let mut m = chars_of("Автоввод через ");
    extend_chars(&mut m, &chars_of(decimal_string(remaining as usize).as_str()));
    extend_chars(&mut m, &chars_of(" с… Переключитесь в целевое окно"));
    Countdown::Wait { left: remaining - 1, message: string_of(&m) }
}

} // verus!
