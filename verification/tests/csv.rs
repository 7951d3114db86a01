use taynik::db::io::{csv_field, format_csv, parse_csv};
use taynik::models::entry::Entry;

fn sample() -> Entry {
    Entry {
        id: Some(1),
        title: "Сайт".into(),
        username: "user@mail".into(),
        password: "pass, с \"кавычками\"".into(),
        url: "https://example.com".into(),
        notes: "строка1\nстрока2".into(),
        tags: vec!["работа".into(), "почта".into()],
        group: "Личное".into(),
        color: "#e74c3c".into(),
        totp_secret: "GEZDGNBVGY3TQOJQ".into(),
        favorite: true,
        created_at: 0,
        updated_at: 0,
    }
}

#[test]
fn csv_roundtrip() {
    let e = sample();
    let text = format_csv(&[e.clone()]);
    let parsed = parse_csv(&text).unwrap();
    assert_eq!(parsed.len(), 1);
    let p = &parsed[0];
    assert_eq!(p.title, e.title);
    assert_eq!(p.password, e.password);
    assert_eq!(p.notes, e.notes);
    assert_eq!(p.tags, e.tags);
    assert_eq!(p.group, e.group);
    assert_eq!(p.totp_secret, e.totp_secret);
    assert!(p.favorite);
}

#[test]
fn csv_text_quotes_only_where_needed() {
    let text = format_csv(&[sample()]);
    assert_eq!(
        text,
        "title,username,password,url,notes,tags,group,color,totp_secret,favorite\r\n\
         Сайт,user@mail,\"pass, с \"\"кавычками\"\"\",https://example.com,\"строка1\nстрока2\",\
         работа;почта,Личное,#e74c3c,GEZDGNBVGY3TQOJQ,1\r\n"
    );
}

#[test]
fn csv_roundtrip_clears_id_and_times() {
    let mut e = sample();
    e.id = Some(42);
    e.created_at = 7;
    e.updated_at = 9;
    e.favorite = false;
    e.tags = vec![];
    let parsed = parse_csv(&format_csv(&[e.clone(), sample()])).unwrap();
    assert_eq!(parsed.len(), 2);
    assert_eq!(parsed[0].id, None);
    assert_eq!(parsed[0].created_at, 0);
    assert_eq!(parsed[0].updated_at, 0);
    assert!(!parsed[0].favorite);
    assert!(parsed[0].tags.is_empty());
    assert_eq!(parsed[1].username, "user@mail");
}

#[test]
fn csv_errors() {
    assert_eq!(parse_csv("").unwrap_err(), "CSV-файл пуст");
    assert_eq!(
        parse_csv("name,password\nx,y\n").unwrap_err(),
        "неожиданный формат CSV: ожидается заголовок title,username,password,…"
    );
}

#[test]
fn csv_header_any_case_and_order() {
    let parsed = parse_csv(" TITLE ,Password,Tags\r\nmail, secret ,a; ;b \n , ,\n").unwrap();
    assert_eq!(parsed.len(), 1);
    assert_eq!(parsed[0].title, "mail");
    assert_eq!(parsed[0].password, " secret ");
    assert_eq!(parsed[0].tags, vec!["a".to_string(), "b".to_string()]);
    assert_eq!(parsed[0].username, "");
    assert!(!parsed[0].favorite);
}

#[test]
fn csv_last_row_without_newline_and_short_rows() {
    let parsed = parse_csv("title,favorite\n\"a\"\"b\",1\nc").unwrap();
    assert_eq!(parsed.len(), 2);
    assert_eq!(parsed[0].title, "a\"b");
    assert!(parsed[0].favorite);
    assert_eq!(parsed[1].title, "c");
    assert!(!parsed[1].favorite);
}

#[test]
fn csv_header_only() {
    assert!(parse_csv("title\n").unwrap().is_empty());
}

#[test]
fn csv_fields_are_quoted_only_when_needed() {
    assert_eq!(csv_field("plain text"), "plain text");
    assert_eq!(csv_field("a,b"), "\"a,b\"");
    assert_eq!(csv_field("say \"hi\""), "\"say \"\"hi\"\"\"");
    assert_eq!(csv_field("line\nbreak"), "\"line\nbreak\"");
    assert_eq!(csv_field("cr\r"), "\"cr\r\"");
    assert_eq!(csv_field(""), "");
}
