use taynik::models::entry::Entry;
use taynik::models::generator::Strength;
use taynik::ui::main_window::{
    autotype_entry_check, copy_login_plan, copy_password_plan, totp_dialog_secret,
    arrange_entries, check_new_master_password, entry_from_form, filter_entries, form_of_entry,
    group_choices, idle_lock, importable_entries, palette_color, palette_index, palette_name,
    password_strength_hint, tag_choices, url_to_open, visible_entries, EntryForm, SortMode,
    ALL_GROUPS, ALL_TAGS,
};

fn entry(title: &str, user: &str, tags: &[&str], group: &str, updated: i64) -> Entry {
    Entry {
        id: Some(updated),
        title: title.into(),
        username: user.into(),
        password: "secret".into(),
        url: format!("https://{}.example", user),
        notes: String::new(),
        tags: tags.iter().map(|t| t.to_string()).collect(),
        group: group.into(),
        color: String::new(),
        totp_secret: String::new(),
        favorite: false,
        created_at: 0,
        updated_at: updated,
    }
}

fn sample_entries() -> Vec<Entry> {
    vec![
        entry("Почта", "ivan", &["работа", "почта"], "Работа", 30),
        entry("банк", "petr", &["финансы"], "  Личное ", 10),
        entry("Alpha", "anna", &["работа"], "", 20),
        entry("almanac", "oleg", &[], "Работа", 20),
    ]
}

fn titles(es: &[Entry]) -> Vec<String> {
    es.iter().map(|e| e.title.clone()).collect()
}

#[test]
fn empty_search_and_all_filters_keep_everything() {
    let es = sample_entries();
    let r = filter_entries(&es, "", ALL_TAGS, ALL_GROUPS);
    assert_eq!(titles(&r), vec!["Почта", "банк", "Alpha", "almanac"]);
}

#[test]
fn search_ignores_case_and_looks_at_every_field() {
    let es = sample_entries();
    assert_eq!(titles(&filter_entries(&es, "ПОЧ", ALL_TAGS, ALL_GROUPS)), vec!["Почта"]);
    assert_eq!(titles(&filter_entries(&es, "PETR", ALL_TAGS, ALL_GROUPS)), vec!["банк"]);
    assert_eq!(titles(&filter_entries(&es, "anna.example", ALL_TAGS, ALL_GROUPS)), vec!["Alpha"]);
    assert_eq!(titles(&filter_entries(&es, "лич", ALL_TAGS, ALL_GROUPS)), vec!["банк"]);
    assert_eq!(titles(&filter_entries(&es, "финан", ALL_TAGS, ALL_GROUPS)), vec!["банк"]);
    assert!(filter_entries(&es, "nothing-like-this", ALL_TAGS, ALL_GROUPS).is_empty());
}

#[test]
fn tag_and_group_filters() {
    let es = sample_entries();
    assert_eq!(titles(&filter_entries(&es, "", "работа", ALL_GROUPS)), vec!["Почта", "Alpha"]);
    assert_eq!(titles(&filter_entries(&es, "", ALL_TAGS, "Работа")), vec!["Почта", "almanac"]);
    assert_eq!(titles(&filter_entries(&es, "", ALL_TAGS, "Личное")), vec!["банк"]);
    assert_eq!(titles(&filter_entries(&es, "", "работа", "Работа")), vec!["Почта"]);
    assert!(filter_entries(&es, "", "нет такого", ALL_GROUPS).is_empty());
}

#[test]
fn sort_by_title_ignores_case() {
    let es = sample_entries();
    let r = arrange_entries(&es, SortMode::Title);
    assert_eq!(titles(&r), vec!["almanac", "Alpha", "банк", "Почта"]);
}

#[test]
fn sort_by_update_is_newest_first_and_stable() {
    let es = sample_entries();
    let r = arrange_entries(&es, SortMode::Updated);
    assert_eq!(titles(&r), vec!["Почта", "Alpha", "almanac", "банк"]);
}

#[test]
fn sort_by_title_keeps_equal_titles_in_order() {
    let es = vec![
        entry("Same", "first", &[], "", 1),
        entry("same", "second", &[], "", 2),
        entry("A", "third", &[], "", 3),
    ];
    let r = arrange_entries(&es, SortMode::Title);
    let users: Vec<String> = r.iter().map(|e| e.username.clone()).collect();
    assert_eq!(users, vec!["third", "first", "second"]);
}

#[test]
fn visible_entries_filters_then_sorts() {
    let es = sample_entries();
    let r = visible_entries(&es, "", "работа", ALL_GROUPS, SortMode::Title);
    assert_eq!(titles(&r), vec!["Alpha", "Почта"]);
    let r = visible_entries(&es, "a", ALL_TAGS, ALL_GROUPS, SortMode::Updated);
    assert_eq!(titles(&r), vec!["Почта", "Alpha", "almanac", "банк"]);
}

#[test]
fn tag_choices_are_sorted_and_unique() {
    let es = sample_entries();
    assert_eq!(tag_choices(&es), vec!["Все теги", "почта", "работа", "финансы"]);
    assert_eq!(tag_choices(&Vec::new()), vec!["Все теги"]);
}

#[test]
fn group_choices_are_trimmed_sorted_and_unique() {
    let es = sample_entries();
    assert_eq!(group_choices(&es), vec!["Все группы", "Личное", "Работа"]);
}

#[test]
fn palette_lookup() {
    assert_eq!(palette_color(0), "");
    assert_eq!(palette_color(1), "#e74c3c");
    assert_eq!(palette_color(7), "#95a5a6");
    assert_eq!(palette_color(8), "");
    assert_eq!(palette_name(3), "Жёлтый");
    assert_eq!(palette_index("#3498db"), 5);
    assert_eq!(palette_index(""), 0);
    assert_eq!(palette_index("#123456"), 0);
}

fn form() -> EntryForm {
    EntryForm {
        id: Some(4),
        title: "Сайт".into(),
        username: "user".into(),
        password: "pw".into(),
        url: "example.com".into(),
        notes: "n".into(),
        tags: " работа, ,почта ,".into(),
        group: "Личное".into(),
        color: 2,
        totp_secret: "GEZDGNBV".into(),
        favorite: true,
    }
}

#[test]
fn form_is_read_into_an_entry() {
    let e = entry_from_form(&form()).unwrap();
    assert_eq!(e.id, Some(4));
    assert_eq!(e.title, "Сайт");
    assert_eq!(e.tags, vec!["работа", "почта"]);
    assert_eq!(e.color, "#e67e22");
    assert!(e.favorite);
    assert_eq!(e.created_at, 0);
    assert_eq!(e.updated_at, 0);
}

#[test]
fn form_without_title_or_password_is_refused() {
    let mut f = form();
    f.title = String::new();
    assert_eq!(entry_from_form(&f).unwrap_err(), "Название и пароль не могут быть пустыми.");
    let mut f = form();
    f.password = String::new();
    assert!(entry_from_form(&f).is_err());
}

#[test]
fn form_of_entry_round_trip() {
    let mut e = entry("Сайт", "user", &["работа", "почта"], "Личное", 0);
    e.color = "#9b59b6".into();
    let f = form_of_entry(&e);
    assert_eq!(f.tags, "работа, почта");
    assert_eq!(f.color, 6);
    let back = entry_from_form(&f).unwrap();
    assert_eq!(back.tags, e.tags);
    assert_eq!(back.color, e.color);
    assert_eq!(back.title, e.title);
}

#[test]
fn url_to_open_adds_a_scheme() {
    assert_eq!(url_to_open("example.com").unwrap(), "https://example.com");
    assert_eq!(url_to_open("http://x.org").unwrap(), "http://x.org");
    assert_eq!(url_to_open("  ").unwrap_err(), "URL записи пуст.");
}

#[test]
fn new_master_password_checks() {
    assert_eq!(
        check_new_master_password("password1", "password2").unwrap_err(),
        "Новый пароль и подтверждение не совпадают."
    );
    assert_eq!(
        check_new_master_password("short", "short").unwrap_err(),
        "Новый пароль слишком короткий (минимум 8 символов)."
    );
    assert!(check_new_master_password("password", "password").is_ok());
    // Characters are counted, not bytes.
    assert!(check_new_master_password("ключ", "ключ").is_err());
    assert!(check_new_master_password("ключ1234", "ключ1234").is_ok());
    assert!(check_new_master_password("1234567", "1234567").is_err());
}

#[test]
fn idle_lock_decision() {
    let minute = 60_000_000i64;
    assert!(idle_lock(5, true, 5 * minute, 0));
    assert!(!idle_lock(5, true, 5 * minute - 1, 0));
    assert!(!idle_lock(0, true, 100 * minute, 0));
    assert!(!idle_lock(5, false, 100 * minute, 0));
}

#[test]
fn only_complete_imports_are_saved() {
    let mut es = sample_entries();
    es[1].title = "   ".into();
    es[2].password = String::new();
    let r = importable_entries(&es);
    assert_eq!(titles(&r), vec!["Почта", "almanac"]);
}

#[test]
fn strength_hint_is_empty_for_empty_password() {
    assert!(password_strength_hint("").is_none());
    assert_eq!(password_strength_hint("abc"), Some(Strength::Weak));
}

#[test]
fn small_main_window_decisions() {
    assert_eq!(totp_dialog_secret("  GEZD  ").unwrap(), "GEZD");
    assert_eq!(totp_dialog_secret(" \t").unwrap_err(), "У записи не задан TOTP-секрет.");
    assert_eq!(copy_password_plan("", 45).unwrap_err(), "Пароль пуст — нечего копировать.");
    assert_eq!(
        copy_password_plan("pw", 45).unwrap(),
        ("Пароль скопирован, будет очищен через 45 секунд".to_string(), Some(45))
    );
    assert_eq!(
        copy_password_plan("pw", 0).unwrap(),
        ("Пароль скопирован (автоочистка буфера отключена)".to_string(), None)
    );
    assert_eq!(copy_login_plan("").unwrap_err(), "Логин пуст — нечего копировать.");
    assert_eq!(copy_login_plan("me").unwrap(), "Логин скопирован (буфер не очищается автоматически)");
    assert_eq!(autotype_entry_check("").unwrap_err(), "Сначала выберите запись — пароль пуст.");
    assert!(autotype_entry_check("p").is_ok());
}
