//! The decisions of the dialogs: what follows a refused master password,
//! when the new-vault dialog lets a vault be created and in which file, what
//! the settings dialog stores and whether it saves, and what the password
//! generator says of a password.

use vstd::prelude::*;

use crate::config::Config;
use crate::db::repository::{db_error_text, DbError};
use crate::models::generator::{strength, strength_label, strength_spec, Strength};
use crate::text::{chars_of, decimal, decimal_string, extend_chars, string_of, trim, trim_chars};

verus! {

/// What the unlock dialog does after a vault refused to open.
pub enum UnlockReply {
    /// Show the message and ask for the master password again.
    AskAgain(String),
    /// Show the message and stop.
    GiveUp(String),
}

/// The message shown before the master password is asked for again.
pub open spec fn retry_message() -> Seq<char> {
    "Неверный мастер-пароль. Попробуйте ещё раз."@
}

/// The message shown when a vault cannot be opened for another reason.
pub open spec fn open_failed_message(e: DbError) -> Seq<char> {
    "Не удалось открыть базу:\n"@ + db_error_text(e)
}

/// After a vault refused to open: a wrong master password is asked for
/// again, any other failure ends the attempt with its message.
pub fn unlock_reply(e: &DbError) -> (r: UnlockReply)
    ensures
        match *e {
            DbError::WrongPassword => r matches UnlockReply::AskAgain(m) && m@ == retry_message(),
            _ => r matches UnlockReply::GiveUp(m) && m@ == open_failed_message(*e),
        },
{
    match e {
        DbError::WrongPassword => UnlockReply::AskAgain(String::from_str("Неверный мастер-пароль. Попробуйте ещё раз.")),
        _ => UnlockReply::GiveUp(String::from_str("Не удалось открыть базу:\n").concat(e.message().as_str())),
    }
}

/// The warning of the new-vault dialog when the password and its
/// confirmation differ.
pub open spec fn mismatch_warning() -> Seq<char> {
    "Пароли не совпадают"@
}

/// What the new-vault dialog shows for its inputs.
pub struct CreateFormState {
    /// Whether the button that creates the vault can be pressed.
    pub can_create: bool,
    /// The warning under the password fields; empty when there is none.
    pub warning: String,
}

/// Whether the password has been typed and its confirmation agrees.
pub open spec fn passwords_agree(password: Seq<char>, confirmation: Seq<char>) -> bool {
    password.len() > 0 && password == confirmation
}

/// The state of the new-vault dialog: a vault can be created once a file is
/// chosen and the password, not empty, is confirmed; the warning appears
/// when a password has been typed and the confirmation differs.
pub fn create_form_state(file_chosen: bool, password: &str, confirmation: &str) -> (s: CreateFormState)
    ensures
        s.can_create == (file_chosen && passwords_agree(password@, confirmation@)),
        s.warning@ == (if password@.len() > 0 && !passwords_agree(password@, confirmation@) {
            mismatch_warning()
        } else {
            Seq::empty()
        }),
{
    let typed = password.unicode_len() > 0;
    let agree = typed && crate::ui::theme::str_is(password, confirmation);
    let warning = if typed && !agree {
        String::from_str("Пароли не совпадают")
    } else {
        String::new()
    };
    CreateFormState { can_create: file_chosen && agree, warning }
}

/// `s` without the `/` characters at its end.
pub open spec fn strip_slashes(s: Seq<char>) -> Seq<char>
    decreases s.len(),
{
    if s.len() > 0 && s.last() == '/' {
        strip_slashes(s.drop_last())
    } else {
        s
    }
}

/// The position of the last `c` in `s`, or -1 when there is none.
pub open spec fn last_pos(s: Seq<char>, c: char) -> int
    decreases s.len(),
{
    if s.len() == 0 {
        -1
    } else if s.last() == c {
        s.len() - 1
    } else {
        last_pos(s.drop_last(), c)
    }
}

/// The file that a new vault is created in, for the path chosen in the
/// save dialog. The file name is what follows the last `/` (slashes at the
/// end set aside); its extension is what follows its last `.`, when that
/// dot is not its first character. A name with the extension `rpwm` is kept;
/// another extension is replaced by `rpwm`, and a name without one gets
/// `.rpwm` added. A path whose name is empty, `.` or `..` is kept.
pub open spec fn vault_file_name_spec(chosen: Seq<char>) -> Seq<char> {
    let t = strip_slashes(chosen);
    let k = last_pos(t, '/');
    let dir = t.take(k + 1);
    let name = t.skip(k + 1);
    if name.len() == 0 || name == "."@ || name == ".."@ {
        chosen
    } else {
        let d = last_pos(name, '.');
        if d > 0 {
            if name.skip(d + 1) == "rpwm"@ {
                chosen
            } else {
                dir + name.take(d) + ".rpwm"@
            }
        } else {
            dir + name + ".rpwm"@
        }
    }
}

proof fn lemma_last_pos_bound(s: Seq<char>, c: char)
    ensures
        -1 <= last_pos(s, c) < s.len(),
        last_pos(s, c) >= 0 ==> s[last_pos(s, c)] == c,
    decreases s.len(),
{
    if s.len() > 0 && s.last() != c {
        lemma_last_pos_bound(s.drop_last(), c);
    }
}

fn rposition(s: &Vec<char>, c: char) -> (r: Option<usize>)
    ensures
        match r {
            Some(k) => last_pos(s@, c) == k,
            None => last_pos(s@, c) == -1,
        },
{
    let mut p: usize = s.len();
    assert(s@.take(p as int) =~= s@);
    while p > 0 && s[p - 1] != c
        invariant
            p <= s@.len(),
            last_pos(s@, c) == last_pos(s@.take(p as int), c),
        decreases p,
    {
        assert(s@.take(p as int).drop_last() =~= s@.take(p - 1));
        p = p - 1;
    }
    if p == 0 {
        None
    } else {
        Some(p - 1)
    }
}

fn take_chars(s: &Vec<char>, from: usize, to: usize) -> (r: Vec<char>)
    requires
        from <= to <= s@.len(),
    ensures
        r@ == s@.subrange(from as int, to as int),
{
    let mut r: Vec<char> = Vec::new();
    let mut i: usize = from;
    while i < to
        invariant
            from <= i <= to <= s@.len(),
            r@ == s@.subrange(from as int, i as int),
        decreases to - i,
    {
        r.push(s[i]);
        i = i + 1;
    }
    r
}

/// The file that a new vault is created in, for the path chosen in the save
/// dialog: its extension made `rpwm`.
pub fn vault_file_name(chosen: &str) -> (r: String)
    ensures
        r@ == vault_file_name_spec(chosen@),
{
    let cs = chars_of(chosen);
    let mut e: usize = cs.len();
    assert(cs@.take(e as int) =~= cs@);
    while e > 0 && cs[e - 1] == '/'
        invariant
            e <= cs@.len(),
            strip_slashes(cs@) == strip_slashes(cs@.take(e as int)),
        decreases e,
    {
        assert(cs@.take(e as int).drop_last() =~= cs@.take(e - 1));
        e = e - 1;
    }
    let t = take_chars(&cs, 0, e);
    assert(t@ =~= cs@.take(e as int));
    let ghost tv = t@;
    assert(strip_slashes(tv) == tv);
    proof {
        lemma_last_pos_bound(tv, '/');
    }
    let start: usize = match rposition(&t, '/') {
        Some(k) => k + 1,
        None => 0,
    };
    let name = take_chars(&t, start, t.len());
    let dir = take_chars(&t, 0, start);
    assert(name@ =~= tv.skip(start as int));
    assert(dir@ =~= tv.take(start as int));
    if name.len() == 0 || chars_eq_str(&name, ".") || chars_eq_str(&name, "..") {
        return String::from_str(chosen);
    }
    proof {
        lemma_last_pos_bound(name@, '.');
    }
    let mut out = dir;
    match rposition(&name, '.') {
        Some(d) if d > 0 => {
            let ext = take_chars(&name, d + 1, name.len());
            assert(ext@ =~= name@.skip(d + 1));
            if chars_eq_str(&ext, "rpwm") {
                return String::from_str(chosen);
            }
            let stem = take_chars(&name, 0, d);
            assert(stem@ =~= name@.take(d as int));
            extend_chars(&mut out, &stem);
        },
        _ => {
            extend_chars(&mut out, &name);
        },
    }
    extend_chars(&mut out, &chars_of(".rpwm"));
    string_of(&out)
}

fn chars_eq_str(a: &Vec<char>, b: &str) -> (r: bool)
    ensures
        r == (a@ == b@),
{
    crate::db::io::chars_eq(a, &chars_of(b))
}

/// The sequence that the settings dialog stores: the default one when the
/// field is left blank.
pub open spec fn sequence_setting_spec(text: Seq<char>) -> Seq<char> {
    if trim(text).len() == 0 {
        "{USERNAME}{TAB}{PASSWORD}"@
    } else {
        text
    }
}

/// The auto-type sequence that the settings dialog stores for the text of
/// its field.
pub fn sequence_setting(text: &str) -> (r: String)
    ensures
        r@ == sequence_setting_spec(text@),
{
    if trim_chars(&chars_of(text)).len() == 0 {
        String::from_str("{USERNAME}{TAB}{PASSWORD}")
    } else {
        String::from_str(text)
    }
}

/// The line under the generated password: its strength and its length in
/// characters.
pub open spec fn strength_caption_spec(password: Seq<char>) -> Seq<char> {
    "Надёжность: "@ + strength_label(strength_spec(password)) + " ("@ + decimal(password.len()) + " символов)"@
}

/// What the settings dialog holds when it is answered.
pub struct SettingsInput {
    pub auto_lock_minutes: u32,
    pub clipboard_clear_seconds: u64,
    pub lock_on_minimize: bool,
    /// The text of the auto-type sequence field.
    pub sequence: String,
}

/// The text of an optional string.
pub open spec fn opt_text(o: Option<String>) -> Option<Seq<char>> {
    match o {
        Some(s) => Some(s@),
        None => None,
    }
}

/// The answer to the settings dialog: on OK the settings take the entered
/// values (the auto-type sequence by `sequence_setting`) and are saved once;
/// on any other answer nothing changes and nothing is saved. The result is
/// the new configuration and whether to save it.
pub fn settings_answer(config: &Config, ok: bool, input: &SettingsInput) -> (r: (Config, bool))
    ensures
        r.1 == ok,
        opt_text(r.0.last_database) == opt_text(config.last_database),
        r.0.theme@ == config.theme@,
        ok ==> r.0.auto_lock_minutes == input.auto_lock_minutes && r.0.clipboard_clear_seconds
            == input.clipboard_clear_seconds && r.0.lock_on_minimize == input.lock_on_minimize
            && r.0.autotype_sequence@ == sequence_setting_spec(input.sequence@),
        !ok ==> r.0.auto_lock_minutes == config.auto_lock_minutes && r.0.clipboard_clear_seconds
            == config.clipboard_clear_seconds && r.0.lock_on_minimize == config.lock_on_minimize
            && r.0.autotype_sequence@ == config.autotype_sequence@,
{
    let last_database = match &config.last_database {
        Some(s) => Some(s.clone()),
        None => None,
    };
    if ok {
        (
            Config {
                last_database,
                auto_lock_minutes: input.auto_lock_minutes,
                lock_on_minimize: input.lock_on_minimize,
                clipboard_clear_seconds: input.clipboard_clear_seconds,
                theme: config.theme.clone(),
                autotype_sequence: sequence_setting(input.sequence.as_str()),
            },
            true,
        )
    } else {
        (
            Config {
                last_database,
                auto_lock_minutes: config.auto_lock_minutes,
                lock_on_minimize: config.lock_on_minimize,
                clipboard_clear_seconds: config.clipboard_clear_seconds,
                theme: config.theme.clone(),
                autotype_sequence: config.autotype_sequence.clone(),
            },
            false,
        )
    }
}

/// The line under the generated password, and the strength it names.
pub fn strength_caption(password: &str) -> (r: (String, Strength))
    ensures
        r.0@ == strength_caption_spec(password@),
        r.1 == strength_spec(password@),
{
    let s = strength(password);
    let n = chars_of(password).len();
    let mut out = chars_of("Надёжность: ");
    extend_chars(&mut out, &chars_of(s.label()));
    extend_chars(&mut out, &chars_of(" ("));
    extend_chars(&mut out, &chars_of(decimal_string(n).as_str()));
    extend_chars(&mut out, &chars_of(" символов)"));
    (string_of(&out), s)
}

} // verus!
