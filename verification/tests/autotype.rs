use taynik::ui::autotype::{
    autotype_wanted, missing_tool_error,
    backend_tool, choose_backend, countdown_tick, parse_sequence, step_command, Backend, Countdown,
    Step, COUNTDOWN_SECS,
};

fn texts(steps: &[Step]) -> Vec<String> {
    steps
        .iter()
        .filter_map(|s| match s {
            Step::Text(t) => Some(t.clone()),
            _ => None,
        })
        .collect()
}

#[test]
fn parse_default() {
    let steps = parse_sequence("", "user", "pass");
    assert_eq!(texts(&steps), vec!["user".to_string(), "pass".to_string()]);
}

#[test]
fn parse_custom() {
    let steps = parse_sequence("{DELAY 200}{USERNAME}{TAB}{PASSWORD}{ENTER}", "u", "p");
    assert_eq!(texts(&steps), vec!["u".to_string(), "p".to_string()]);
    assert!(steps.len() >= 5);
}

#[test]
fn parse_steps_in_detail() {
    let steps = parse_sequence("{delay 200}{ username }{tab}{Return}", "u", "");
    assert_eq!(steps.len(), 4);
    assert!(matches!(steps[0], Step::Delay(200)));
    assert!(matches!(&steps[1], Step::Text(t) if t == "u"));
    assert!(matches!(steps[2], Step::Key("Tab")));
    assert!(matches!(steps[3], Step::Key("Return")));
}

#[test]
fn parse_delay_default_and_literals() {
    let steps = parse_sequence("a{DELAY}b{X}{DELAY x}{TAB", "", "");
    assert_eq!(steps.len(), 5);
    assert!(matches!(&steps[0], Step::Text(t) if t == "a"));
    assert!(matches!(steps[1], Step::Delay(150)));
    assert!(matches!(&steps[2], Step::Text(t) if t == "b{X}"));
    assert!(matches!(steps[3], Step::Delay(150)));
    assert!(matches!(steps[4], Step::Key("Tab")));
}

#[test]
fn literal_text_is_typed_where_it_stands() {
    let steps = parse_sequence("{TAB}x{ENTER}", "u", "p");
    assert_eq!(steps.len(), 3);
    assert!(matches!(steps[0], Step::Key("Tab")));
    assert!(matches!(&steps[1], Step::Text(t) if t == "x"));
    assert!(matches!(steps[2], Step::Key("Return")));
    let steps = parse_sequence("a{USERNAME}b", "", "p");
    assert_eq!(steps.len(), 1);
    assert!(matches!(&steps[0], Step::Text(t) if t == "ab"));
    let steps = parse_sequence("login: {USERNAME}!", "u", "p");
    assert_eq!(texts(&steps), vec!["login: ", "u", "!"]);
}

#[test]
fn backend_choice() {
    assert_eq!(choose_backend(Some("Wayland"), None, Some(":0")), Backend::Wayland);
    assert_eq!(choose_backend(Some("x11"), Some("wayland-0"), None), Backend::Wayland);
    assert_eq!(choose_backend(Some("x11"), Some("wayland-0"), Some(":0")), Backend::X11);
    assert_eq!(choose_backend(None, Some(""), None), Backend::X11);
    assert_eq!(choose_backend(None, None, None), Backend::X11);
    assert_eq!(backend_tool(Backend::X11), "xdotool");
    assert_eq!(backend_tool(Backend::Wayland), "wtype");
}

#[test]
fn commands_for_steps() {
    let t = Step::Text("hi".into());
    assert_eq!(step_command(&t, Backend::Wayland).unwrap(), vec!["-d", "60", "hi"]);
    assert_eq!(
        step_command(&t, Backend::X11).unwrap(),
        vec!["type", "--clearmodifiers", "--delay", "60", "--", "hi"]
    );
    assert_eq!(step_command(&Step::Key("Tab"), Backend::Wayland).unwrap(), vec!["-k", "Tab"]);
    assert_eq!(
        step_command(&Step::Key("Return"), Backend::X11).unwrap(),
        vec!["key", "--clearmodifiers", "Return"]
    );
    assert!(step_command(&Step::Delay(5), Backend::X11).is_none());
}

#[test]
fn countdown_ticks_down_then_types() {
    let mut r = COUNTDOWN_SECS;
    let mut messages = Vec::new();
    while let Countdown::Wait { left, message } = countdown_tick(r) {
        messages.push(message);
        r = left;
    }
    assert_eq!(messages.len(), 5);
    assert_eq!(messages[0], "Автоввод через 5 с… Переключитесь в целевое окно");
    assert_eq!(messages[4], "Автоввод через 1 с… Переключитесь в целевое окно");
    assert!(matches!(countdown_tick(0), Countdown::Type));
}

#[test]
fn autotype_guard_and_missing_tool() {
    assert!(!autotype_wanted("", ""));
    assert!(autotype_wanted("u", ""));
    assert!(autotype_wanted("", "p"));
    assert_eq!(
        missing_tool_error(Backend::Wayland),
        "Автоввод не работает: утилита `wtype` не найдена в системе.\n\n\
         На X11 нужен `xdotool`, на Wayland — `wtype`.\n\
         Установите её или воспользуйтесь копированием пароля."
    );
}

#[test]
fn delay_numbers_follow_u64_parsing() {
    let steps = parse_sequence("{DELAY +300}{DELAY 99999999999999999999}{DELAY 18446744073709551615}{DELAY 12a}", "", "");
    assert!(matches!(steps[0], Step::Delay(300)));
    assert!(matches!(steps[1], Step::Delay(150)));
    assert!(matches!(steps[2], Step::Delay(18446744073709551615)));
    assert!(matches!(steps[3], Step::Delay(150)));
}
