use taynik::db::crypto::{ArgonParams, CryptoKey, KEY_LEN};
use taynik::db::repository::{
    backup_file_name, open_entry, rekey, reseal_entry, seal_entry, seal_vault, stamp_entry, unlock, DbError,
    StoredEntry,
};
use taynik::db::schema::{legacy_verifier, upgrade_statements, verifier_matches, VERIFIER_PLAINTEXT};
use taynik::models::entry::Entry;

fn cheap_params() -> ArgonParams {
    ArgonParams { memory_kib: 8, iterations: 1, parallelism: 1 }
}

#[test]
fn vault_opens_with_its_password() {
    let s = seal_vault("correct horse", &cheap_params()).unwrap();
    let key = unlock("correct horse", &s.salt, &cheap_params(), &s.verifier).unwrap();
    assert_eq!(key.as_slice(), s.key.as_slice());
}

#[test]
fn vault_refuses_other_password() {
    let s = seal_vault("correct horse", &cheap_params()).unwrap();
    match unlock("wrong", &s.salt, &cheap_params(), &s.verifier) {
        Err(DbError::WrongPassword) => {}
        _ => panic!("expected WrongPassword"),
    }
}

#[test]
fn vault_with_bad_params_is_corrupted() {
    let bad = ArgonParams { memory_kib: 1, iterations: 1, parallelism: 1 };
    match seal_vault("pw", &bad) {
        Err(DbError::Corrupted(m)) => {
            assert_eq!(m, "Некорректные параметры Argon2: memory cost is too small")
        }
        _ => panic!("expected Corrupted"),
    }
    match unlock("pw", &[0u8; 32], &bad, &[]) {
        Err(DbError::Corrupted(_)) => {}
        _ => panic!("expected Corrupted"),
    }
}

#[test]
fn rekey_changes_password() {
    let s = seal_vault("old", &cheap_params()).unwrap();
    assert!(matches!(
        rekey("nope", "new", &s.salt, &cheap_params(), &s.verifier),
        Err(DbError::WrongPassword)
    ));
    let n = rekey("old", "new", &s.salt, &cheap_params(), &s.verifier).unwrap();
    assert!(unlock("new", &n.salt, &cheap_params(), &n.verifier).is_ok());
    assert!(matches!(
        unlock("old", &n.salt, &cheap_params(), &n.verifier),
        Err(DbError::WrongPassword)
    ));
}

#[test]
fn verifiers() {
    assert!(verifier_matches(VERIFIER_PLAINTEXT.as_bytes()));
    assert!(verifier_matches(legacy_verifier().as_bytes()));
    assert_eq!(legacy_verifier().len(), 19);
    assert!(legacy_verifier().ends_with("-verifier-v1"));
    assert!(!verifier_matches(b"taynik-verifier-v2"));
    assert!(!verifier_matches(b""));
}

#[test]
fn error_messages() {
    assert_eq!(DbError::WrongPassword.message(), "Неверный мастер-пароль");
    assert_eq!(DbError::Corrupted("x".into()).message(), "Файл базы повреждён: x");
    assert_eq!(DbError::Io("y".into()).message(), "Ошибка ввода-вывода: y");
}

fn entry() -> Entry {
    Entry {
        id: None,
        title: "Почта".into(),
        username: "me".into(),
        password: "p@ss".into(),
        url: "https://mail".into(),
        notes: "".into(),
        tags: vec!["a".into(), "b \"c\"".into()],
        group: "g".into(),
        color: "#fff".into(),
        totp_secret: "ABC".into(),
        favorite: true,
        created_at: 0,
        updated_at: 0,
    }
}

#[test]
fn entry_lists_back() {
    let key = CryptoKey([5u8; KEY_LEN]);
    let e = entry();
    let s = seal_entry(&key, &e);
    assert_eq!(s.favorite, 1);
    assert!(s.title.len() > 12);
    let row = StoredEntry {
        id: 17,
        title: s.title,
        username: Some(s.username),
        password: s.password,
        url: Some(s.url),
        notes: Some(s.notes),
        tags: Some(s.tags),
        group: Some(s.group),
        color: Some(s.color),
        totp_secret: Some(s.totp_secret),
        favorite: s.favorite,
        created_at: 100,
        updated_at: 200,
    };
    let back = open_entry(&key, &row);
    assert_eq!(back.id, Some(17));
    assert_eq!(back.title, e.title);
    assert_eq!(back.username, e.username);
    assert_eq!(back.password, e.password);
    assert_eq!(back.url, e.url);
    assert_eq!(back.notes, e.notes);
    assert_eq!(back.tags, e.tags);
    assert!(back.favorite);
    assert_eq!((back.created_at, back.updated_at), (100, 200));
    assert_eq!(back.group, e.group);
    assert_eq!(back.color, e.color);
    assert_eq!(back.totp_secret, e.totp_secret);
}

#[test]
fn unreadable_columns_become_empty() {
    let key = CryptoKey([5u8; KEY_LEN]);
    let other = CryptoKey([6u8; KEY_LEN]);
    let s = seal_entry(&other, &entry());
    let row = StoredEntry {
        id: 1,
        title: s.title,
        username: None,
        password: vec![1, 2, 3],
        url: None,
        notes: None,
        tags: Some(s.tags),
        group: Some(s.group),
        color: None,
        totp_secret: None,
        favorite: 0,
        created_at: 0,
        updated_at: 0,
    };
    let back = open_entry(&key, &row);
    assert_eq!(back.title, "");
    assert_eq!(back.password, "");
    assert!(back.tags.is_empty());
    assert_eq!(back.group, "");
    assert_eq!(back.color, "");
    assert!(!back.favorite);
}

#[test]
fn stamping() {
    let mut e = entry();
    stamp_entry(&mut e, 1000);
    assert_eq!((e.created_at, e.updated_at), (1000, 1000));
    e.id = Some(3);
    stamp_entry(&mut e, 2000);
    assert_eq!((e.created_at, e.updated_at), (1000, 2000));
}

#[test]
fn backup_names() {
    assert_eq!(
        backup_file_name(Some("vault"), "20240101-120000"),
        "vault-backup-20240101-120000.rpwm"
    );
    assert_eq!(backup_file_name(None, "x"), "passwords-backup-x.rpwm");
}

#[test]
fn older_vaults_get_the_missing_columns() {
    let old: Vec<String> = ["id", "title", "username", "password", "url", "notes", "tags"]
        .iter()
        .map(|s| s.to_string())
        .collect();
    assert_eq!(
        upgrade_statements(&old),
        vec![
            "ALTER TABLE entries ADD COLUMN group_name BLOB",
            "ALTER TABLE entries ADD COLUMN color BLOB",
            "ALTER TABLE entries ADD COLUMN totp_secret BLOB",
        ]
    );
    let mut partial = old.clone();
    partial.push("color".to_string());
    assert_eq!(
        upgrade_statements(&partial),
        vec![
            "ALTER TABLE entries ADD COLUMN group_name BLOB",
            "ALTER TABLE entries ADD COLUMN totp_secret BLOB",
        ]
    );
    let mut full = partial.clone();
    full.push("group_name".to_string());
    full.push("totp_secret".to_string());
    assert!(upgrade_statements(&full).is_empty());
}

#[test]
fn entries_survive_a_new_key() {
    let old_key = CryptoKey([5u8; KEY_LEN]);
    let new_key = CryptoKey([9u8; KEY_LEN]);
    let e = entry();
    let s = seal_entry(&old_key, &e);
    let row = StoredEntry {
        id: 3,
        title: s.title,
        username: Some(s.username),
        password: s.password,
        url: Some(s.url),
        notes: Some(s.notes),
        tags: Some(s.tags),
        group: Some(s.group),
        color: Some(s.color),
        totp_secret: Some(s.totp_secret),
        favorite: s.favorite,
        created_at: 10,
        updated_at: 20,
    };
    let r = reseal_entry(&old_key, &new_key, &row);
    let moved = StoredEntry {
        id: 3,
        title: r.title,
        username: Some(r.username),
        password: r.password,
        url: Some(r.url),
        notes: Some(r.notes),
        tags: Some(r.tags),
        group: Some(r.group),
        color: Some(r.color),
        totp_secret: Some(r.totp_secret),
        favorite: r.favorite,
        created_at: 10,
        updated_at: 20,
    };
    let back = open_entry(&new_key, &moved);
    assert_eq!(back.title, e.title);
    assert_eq!(back.password, e.password);
    assert_eq!(back.tags, e.tags);
    assert_eq!(back.totp_secret, e.totp_secret);
    assert_eq!(open_entry(&old_key, &moved).title, "");
}
