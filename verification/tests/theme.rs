use taynik::config::Config;
use taynik::ui::theme::{css_for, prefers_dark, themes, BASE_CSS};

#[test]
fn theme_list() {
    let t = themes();
    assert_eq!(t.len(), 7);
    assert_eq!(t[0].key, "system");
    assert_eq!(t[0].title, "Системная");
    assert_eq!(t[6].key, "solarized-light");
}

#[test]
fn dark_themes() {
    for k in ["dark", "nord", "dracula", "solarized-dark"] {
        assert!(prefers_dark(k));
    }
    for k in ["system", "light", "solarized-light", "Dark"] {
        assert!(!prefers_dark(k));
    }
}

#[test]
fn css_per_theme() {
    assert!(css_for("system").is_none());
    assert!(css_for("light").is_none());
    let nord = css_for("nord").unwrap();
    assert!(nord.starts_with("window, dialog { background-color: #2e3440; color: #eceff4; }\n"));
    assert!(nord.contains(".dim-label { color: #d8dee9; }"));
    assert!(nord.ends_with("combobox button.combo { background-color: #3b4252; }"));
    assert!(BASE_CSS.contains("border-radius: 12px;"));
}

#[test]
fn default_config() {
    let c = Config::default();
    assert_eq!(c.last_database, None);
    assert_eq!(c.auto_lock_minutes, 5);
    assert!(!c.lock_on_minimize);
    assert_eq!(c.clipboard_clear_seconds, 45);
    assert_eq!(c.theme, "system");
}
