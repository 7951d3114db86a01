//! Colour themes: modern palettes over the system GTK theme.

use vstd::prelude::*;

use crate::text::chars_of;

verus! {

/// One theme: its key (kept in the configuration) and its title.
pub struct Theme {
    pub key: &'static str,
    pub title: &'static str,
}

/// The key and title of a theme.
pub open spec fn theme_view(t: Theme) -> (Seq<char>, Seq<char>) {
    (t.key@, t.title@)
}

/// The available themes, in menu order.
pub open spec fn themes_spec() -> Seq<(Seq<char>, Seq<char>)> {
    seq![
        ("system"@, "Системная"@),
        ("light"@, "Светлая"@),
        ("dark"@, "Тёмная"@),
        ("nord"@, "Nord"@),
        ("dracula"@, "Dracula"@),
        ("solarized-dark"@, "Solarized Dark"@),
        ("solarized-light"@, "Solarized Light"@),
    ]
}

/// The available themes (their keys are kept in the configuration).
pub fn themes() -> (v: Vec<Theme>)
    ensures
        v@.map_values(|t: Theme| theme_view(t)) == themes_spec(),
{
    let mut v: Vec<Theme> = Vec::new();
    v.push(Theme { key: "system", title: "Системная" });
    v.push(Theme { key: "light", title: "Светлая" });
    v.push(Theme { key: "dark", title: "Тёмная" });
    v.push(Theme { key: "nord", title: "Nord" });
    v.push(Theme { key: "dracula", title: "Dracula" });
    v.push(Theme { key: "solarized-dark", title: "Solarized Dark" });
    v.push(Theme { key: "solarized-light", title: "Solarized Light" });
    assert(v@.map_values(|t: Theme| theme_view(t)) =~= themes_spec());
    v
}

/// Whether two strings are equal.
pub fn str_is(a: &str, b: &str) -> (r: bool)
    ensures
        r == (a@ == b@),
{
    let x = chars_of(a);
    let y = chars_of(b);
    crate::db::io::chars_eq(&x, &y)
}

/// Whether a theme asks GTK for its dark variant.
pub open spec fn dark_spec(key: Seq<char>) -> bool {
    key == "dark"@ || key == "nord"@ || key == "dracula"@ || key == "solarized-dark"@
}

/// Whether the theme `key` is dark (GTK is then asked for its dark variant).
pub fn prefers_dark(key: &str) -> (r: bool)
    ensures
        r == dark_spec(key@),
{
    str_is(key, "dark") || str_is(key, "nord") || str_is(key, "dracula") || str_is(
        key,
        "solarized-dark",
    )
}

/// Base overrides (rounded corners), applied under every theme.
pub const BASE_CSS: &'static str = "
entry, spinbutton, textview, combobox button.combo {
    border-radius: 10px;
}
searchbar entry {
    border-radius: 10px;
}
frame > border, .card {
    border-radius: 12px;
}
";

/// The colours of a theme: background, second background, text, dimmed
/// text, selection, selected text, header bar.
pub struct Palette {
    pub bg: Seq<char>,
    pub bg2: Seq<char>,
    pub fg: Seq<char>,
    pub dim: Seq<char>,
    pub sel: Seq<char>,
    pub sel_fg: Seq<char>,
    pub header: Seq<char>,
}

struct PaletteStr {
    bg: &'static str,
    bg2: &'static str,
    fg: &'static str,
    dim: &'static str,
    sel: &'static str,
    sel_fg: &'static str,
    header: &'static str,
}

/// The palette of a theme key; none for the system and light themes (and
/// unknown keys), which keep the system colours.
pub open spec fn palette(key: Seq<char>) -> Option<Palette> {
    if key == "dark"@ {
        Some(
            Palette {
                bg: "#1e1e22"@,
                bg2: "#2a2a2f"@,
                fg: "#e8e8ea"@,
                dim: "#b9b9c0"@,
                sel: "#3584e4"@,
                sel_fg: "#ffffff"@,
                header: "#303035"@,
            },
        )
    } else if key == "nord"@ {
        Some(
            Palette {
                bg: "#2e3440"@,
                bg2: "#3b4252"@,
                fg: "#eceff4"@,
                dim: "#d8dee9"@,
                sel: "#88c0d0"@,
                sel_fg: "#2e3440"@,
                header: "#353c4a"@,
            },
        )
    } else if key == "dracula"@ {
        Some(
            Palette {
                bg: "#282a36"@,
                bg2: "#343746"@,
                fg: "#f8f8f2"@,
                dim: "#b0b0b8"@,
                sel: "#bd93f9"@,
                sel_fg: "#282a36"@,
                header: "#21222c"@,
            },
        )
    } else if key == "solarized-dark"@ {
        Some(
            Palette {
                bg: "#002b36"@,
                bg2: "#073642"@,
                fg: "#eee8d5"@,
                dim: "#93a1a1"@,
                sel: "#268bd2"@,
                sel_fg: "#fdf6e3"@,
                header: "#073642"@,
            },
        )
    } else if key == "solarized-light"@ {
        Some(
            Palette {
                bg: "#fdf6e3"@,
                bg2: "#eee8d5"@,
                fg: "#073642"@,
                dim: "#657b83"@,
                sel: "#268bd2"@,
                sel_fg: "#fdf6e3"@,
                header: "#eee8d5"@,
            },
        )
    } else {
        None
    }
}

/// The style sheet of a palette.
pub open spec fn css_text(p: Palette) -> Seq<char> {
    "window, dialog { background-color: "@ +
    p.bg +
    "; color: "@ +
    p.fg +
    "; }\nheaderbar, .titlebar { background-color: "@ +
    p.header +
    "; color: "@ +
    p.fg +
    "; }\nsearchbar { background-color: "@ +
    p.bg +
    "; }\nentry, spinbutton, textview, textview > text {\n    background-color: "@ +
    p.bg2 +
    "; color: "@ +
    p.fg +
    ";\n}\nlist, listview, list > row, listview > row {\n    background-color: "@ +
    p.bg +
    "; color: "@ +
    p.fg +
    ";\n}\nlist > row:selected, listview > row:selected, .navigation-sidebar > row:selected {\n    background-color: "@ +
    p.sel +
    "; color: "@ +
    p.sel_fg +
    ";\n}\nbutton { background-color: "@ +
    p.bg2 +
    "; color: "@ +
    p.fg +
    "; }\nbutton:hover { background-color: "@ +
    p.sel +
    "; color: "@ +
    p.sel_fg +
    "; }\nbutton.suggested-action { background-color: "@ +
    p.sel +
    "; color: "@ +
    p.sel_fg +
    "; }\nbutton.destructive-action { background-color: #cc3333; color: #ffffff; }\npopover, popover > contents, menu { background-color: "@ +
    p.bg2 +
    "; color: "@ +
    p.fg +
    "; }\n.dim-label { color: "@ +
    p.dim +
    "; }\nscale trough, progressbar trough { background-color: "@ +
    p.bg2 +
    "; }\ncombobox button.combo { background-color: "@ +
    p.bg2 +
    "; }"@
}

/// The style sheet of a theme key, when it has a palette.
pub open spec fn css_spec(key: Seq<char>) -> Option<Seq<char>> {
    match palette(key) {
        Some(p) => Some(css_text(p)),
        None => None,
    }
}

fn palette_of(key: &str) -> (r: Option<PaletteStr>)
    ensures
        match palette(key@) {
            Some(p) => r is Some && p == (Palette {
                bg: r->Some_0.bg@,
                bg2: r->Some_0.bg2@,
                fg: r->Some_0.fg@,
                dim: r->Some_0.dim@,
                sel: r->Some_0.sel@,
                sel_fg: r->Some_0.sel_fg@,
                header: r->Some_0.header@,
            }),
            None => r is None,
        },
{
    if str_is(key, "dark") {
        Some(
            PaletteStr {
                bg: "#1e1e22",
                bg2: "#2a2a2f",
                fg: "#e8e8ea",
                dim: "#b9b9c0",
                sel: "#3584e4",
                sel_fg: "#ffffff",
                header: "#303035",
            },
        )
    } else if str_is(key, "nord") {
        Some(
            PaletteStr {
                bg: "#2e3440",
                bg2: "#3b4252",
                fg: "#eceff4",
                dim: "#d8dee9",
                sel: "#88c0d0",
                sel_fg: "#2e3440",
                header: "#353c4a",
            },
        )
    } else if str_is(key, "dracula") {
        Some(
            PaletteStr {
                bg: "#282a36",
                bg2: "#343746",
                fg: "#f8f8f2",
                dim: "#b0b0b8",
                sel: "#bd93f9",
                sel_fg: "#282a36",
                header: "#21222c",
            },
        )
    } else if str_is(key, "solarized-dark") {
        Some(
            PaletteStr {
                bg: "#002b36",
                bg2: "#073642",
                fg: "#eee8d5",
                dim: "#93a1a1",
                sel: "#268bd2",
                sel_fg: "#fdf6e3",
                header: "#073642",
            },
        )
    } else if str_is(key, "solarized-light") {
        Some(
            PaletteStr {
                bg: "#fdf6e3",
                bg2: "#eee8d5",
                fg: "#073642",
                dim: "#657b83",
                sel: "#268bd2",
                sel_fg: "#fdf6e3",
                header: "#eee8d5",
            },
        )
    } else {
        None
    }
}

/// CSS for a theme key; `None` keeps the system theme without overrides.
pub fn css_for(key: &str) -> (r: Option<String>)
    ensures
        match css_spec(key@) {
            Some(c) => r is Some && r->Some_0@ == c,
            None => r is None,
        },
{
    let p = match palette_of(key) {
        Some(p) => p,
        None => return None,
    };
    let mut css = String::new();
    css.append("window, dialog { background-color: ");
    css.append(p.bg);
    css.append("; color: ");
    css.append(p.fg);
    css.append("; }\nheaderbar, .titlebar { background-color: ");
    css.append(p.header);
    css.append("; color: ");
    css.append(p.fg);
    css.append("; }\nsearchbar { background-color: ");
    css.append(p.bg);
    css.append("; }\nentry, spinbutton, textview, textview > text {\n    background-color: ");
    css.append(p.bg2);
    css.append("; color: ");
    css.append(p.fg);
    css.append(";\n}\nlist, listview, list > row, listview > row {\n    background-color: ");
    css.append(p.bg);
    css.append("; color: ");
    css.append(p.fg);
    css.append(";\n}\nlist > row:selected, listview > row:selected, .navigation-sidebar > row:selected {\n    background-color: ");
    css.append(p.sel);
    css.append("; color: ");
    css.append(p.sel_fg);
    css.append(";\n}\nbutton { background-color: ");
    css.append(p.bg2);
    css.append("; color: ");
    css.append(p.fg);
    css.append("; }\nbutton:hover { background-color: ");
    css.append(p.sel);
    css.append("; color: ");
    css.append(p.sel_fg);
    css.append("; }\nbutton.suggested-action { background-color: ");
    css.append(p.sel);
    css.append("; color: ");
    css.append(p.sel_fg);
    css.append("; }\nbutton.destructive-action { background-color: #cc3333; color: #ffffff; }\npopover, popover > contents, menu { background-color: ");
    css.append(p.bg2);
    css.append("; color: ");
    css.append(p.fg);
    css.append("; }\n.dim-label { color: ");
    css.append(p.dim);
    css.append("; }\nscale trough, progressbar trough { background-color: ");
    css.append(p.bg2);
    css.append("; }\ncombobox button.combo { background-color: ");
    css.append(p.bg2);
    css.append("; }");
    Some(css)
}

} // verus!
