use taynik::db::repository::DbError;
use taynik::models::generator::Strength;
use taynik::config::Config;
use taynik::ui::dialogs::{
    create_form_state, sequence_setting, settings_answer, strength_caption, unlock_reply,
    vault_file_name, SettingsInput, UnlockReply,
};

#[test]
fn create_form_needs_a_file_and_a_confirmed_password() {
    let s = create_form_state(true, "secret", "secret");
    assert!(s.can_create);
    assert_eq!(s.warning, "");
    let s = create_form_state(false, "secret", "secret");
    assert!(!s.can_create);
    assert_eq!(s.warning, "");
}

#[test]
fn create_form_warns_on_mismatch() {
    let s = create_form_state(true, "secret", "secrex");
    assert!(!s.can_create);
    assert_eq!(s.warning, "Пароли не совпадают");
    let s = create_form_state(true, "", "");
    assert!(!s.can_create);
    assert_eq!(s.warning, "");
    let s = create_form_state(true, "", "x");
    assert!(!s.can_create);
    assert_eq!(s.warning, "");
}

#[test]
fn generator_caption_names_strength_and_length() {
    let (text, s) = strength_caption("abc");
    assert_eq!(s, Strength::Weak);
    assert_eq!(text, "Надёжность: Слабый (3 символов)");
    let (text, _) = strength_caption("пароль");
    assert!(text.ends_with("(6 символов)"));
}

#[test]
fn wrong_password_is_asked_again() {
    match unlock_reply(&DbError::WrongPassword) {
        UnlockReply::AskAgain(m) => assert_eq!(m, "Неверный мастер-пароль. Попробуйте ещё раз."),
        UnlockReply::GiveUp(_) => panic!("a wrong password is asked for again"),
    }
    match unlock_reply(&DbError::Io("нет файла".into())) {
        UnlockReply::GiveUp(m) => {
            assert_eq!(m, "Не удалось открыть базу:\nОшибка ввода-вывода: нет файла")
        }
        UnlockReply::AskAgain(_) => panic!("other failures end the attempt"),
    }
}

#[test]
fn blank_sequence_setting_means_the_default() {
    assert_eq!(sequence_setting("  "), "{USERNAME}{TAB}{PASSWORD}");
    assert_eq!(sequence_setting(""), "{USERNAME}{TAB}{PASSWORD}");
    assert_eq!(sequence_setting("{PASSWORD}{ENTER}"), "{PASSWORD}{ENTER}");
}

#[test]
fn config_defaults() {
    let c = Config::default();
    assert_eq!(c.last_database, None);
    assert_eq!(c.auto_lock_minutes, 5);
    assert!(!c.lock_on_minimize);
    assert_eq!(c.clipboard_clear_seconds, 45);
    assert_eq!(c.theme, "system");
    assert_eq!(c.autotype_sequence, "{USERNAME}{TAB}{PASSWORD}");
}

#[test]
fn vault_files_get_the_rpwm_extension() {
    assert_eq!(vault_file_name("/home/u/passwords.rpwm"), "/home/u/passwords.rpwm");
    assert_eq!(vault_file_name("/home/u/base"), "/home/u/base.rpwm");
    assert_eq!(vault_file_name("/home/u/base.txt"), "/home/u/base.rpwm");
    assert_eq!(vault_file_name("/home/u/a.b.c"), "/home/u/a.b.rpwm");
    assert_eq!(vault_file_name("/home/u/.hidden"), "/home/u/.hidden.rpwm");
    assert_eq!(vault_file_name("x."), "x.rpwm");
    assert_eq!(vault_file_name("a.RPWM"), "a.rpwm");
    assert_eq!(vault_file_name("dir/sub/"), "dir/sub.rpwm");
    assert_eq!(vault_file_name("/home/u/.."), "/home/u/..");
    assert_eq!(vault_file_name("/"), "/");
    assert_eq!(vault_file_name(""), "");
}

fn entered() -> SettingsInput {
    SettingsInput {
        auto_lock_minutes: 10,
        clipboard_clear_seconds: 0,
        lock_on_minimize: true,
        sequence: "   ".into(),
    }
}

#[test]
fn settings_ok_takes_the_values_and_saves() {
    let mut c = Config::default();
    c.theme = "nord".into();
    c.last_database = Some("/v.rpwm".into());
    c.autotype_sequence = "{PASSWORD}".into();
    let (n, save) = settings_answer(&c, true, &entered());
    assert!(save);
    assert_eq!(n.auto_lock_minutes, 10);
    assert_eq!(n.clipboard_clear_seconds, 0);
    assert!(n.lock_on_minimize);
    assert_eq!(n.autotype_sequence, "{USERNAME}{TAB}{PASSWORD}");
    assert_eq!(n.theme, "nord");
    assert_eq!(n.last_database.as_deref(), Some("/v.rpwm"));
}

#[test]
fn settings_cancel_changes_nothing() {
    let mut c = Config::default();
    c.autotype_sequence = "{PASSWORD}".into();
    let (n, save) = settings_answer(&c, false, &entered());
    assert!(!save);
    assert_eq!(n.auto_lock_minutes, c.auto_lock_minutes);
    assert_eq!(n.clipboard_clear_seconds, c.clipboard_clear_seconds);
    assert_eq!(n.lock_on_minimize, c.lock_on_minimize);
    assert_eq!(n.autotype_sequence, "{PASSWORD}");
}
