use wezback::settings::{
    load_wezback_config, settings_file, unquote, value_in_line, Key, MissingConfigKey,
    SETTINGS_FILE,
};

fn chars(s: &str) -> Vec<char> {
    s.chars().collect()
}

fn value(line: &str, key: Key, home: &str) -> Option<String> {
    value_in_line(&chars(line), key, &chars(home)).map(|v| v.iter().collect())
}

fn missing(contents: &str) -> Key {
    match load_wezback_config(contents, "/home/ann") {
        Ok(_) => panic!("settings were read from {:?}", contents),
        Err(e) => e.key,
    }
}

#[test]
fn settings_file_lies_under_home() {
    assert_eq!(SETTINGS_FILE, "~/.config/wezback");
    assert_eq!(settings_file("/home/ann"), "/home/ann/.config/wezback");
}

#[test]
fn all_three_keys_are_read() {
    let text = "images = \"~/Pictures/wall\"\nwezlua = \"~/.config/wezterm/wezterm.lua\"\nanimations = \"/srv/gifs\"\n";
    let settings = load_wezback_config(text, "/home/ann").unwrap();
    assert_eq!(settings.images, "/home/ann/Pictures/wall");
    assert_eq!(settings.wezlua, "/home/ann/.config/wezterm/wezterm.lua");
    assert_eq!(settings.animations, "/srv/gifs");
}

#[test]
fn values_without_tilde_are_taken_as_written() {
    let text = "images = \"Pictures/wall\"\nwezlua = \"wezterm.lua\"\nanimations = \"gifs\"";
    let settings = load_wezback_config(text, "/home/ann").unwrap();
    assert_eq!(settings.images, "Pictures/wall");
    assert_eq!(settings.wezlua, "wezterm.lua");
    assert_eq!(settings.animations, "gifs");
}

#[test]
fn keys_may_come_in_any_order_between_other_lines() {
    let text = "# wallpapers\nanimations = \"a\"\n\nunknown = \"u\"\nwezlua = \"w\"\r\nimages = \"i\"\nimages\n";
    let settings = load_wezback_config(text, "/h").unwrap();
    assert_eq!(settings.images, "i");
    assert_eq!(settings.wezlua, "w");
    assert_eq!(settings.animations, "a");
}

#[test]
fn the_last_line_of_a_key_counts() {
    let text = "images = \"first\"\nwezlua = \"w\"\nimages = \"second\"\nanimations = \"a\"\n";
    let settings = load_wezback_config(text, "/h").unwrap();
    assert_eq!(settings.images, "second");
}

#[test]
fn missing_wezlua_is_named() {
    let text = "images = \"Pictures/wall\"\nanimations = \"gifs\"\n";
    assert_eq!(
        load_wezback_config(text, "/home/ann").err(),
        Some(MissingConfigKey { key: Key::Wezlua })
    );
}

#[test]
fn the_first_missing_key_is_named() {
    assert_eq!(missing(""), Key::Images);
    assert_eq!(missing("wezlua = \"w\"\nanimations = \"a\""), Key::Images);
    assert_eq!(missing("animations = \"a\""), Key::Images);
    assert_eq!(missing("images = \"i\""), Key::Wezlua);
    assert_eq!(missing("images = \"i\"\nanimations = \"a\""), Key::Wezlua);
    assert_eq!(missing("images = \"i\"\nwezlua = \"w\""), Key::Animations);
}

#[test]
fn a_key_must_start_its_line_and_be_spaced_as_written() {
    assert_eq!(missing(" images = \"i\"\nwezlua = \"w\"\nanimations = \"a\""), Key::Images);
    assert_eq!(missing("images=\"i\"\nwezlua = \"w\"\nanimations = \"a\""), Key::Images);
    assert_eq!(missing("images = \"i\"\nWezlua = \"w\"\nanimations = \"a\""), Key::Wezlua);
    assert_eq!(missing("images = \"i\"\nwezlua = \"w\"\nanimations =\"a\""), Key::Animations);
}

#[test]
fn missing_key_message_names_the_key() {
    assert_eq!(MissingConfigKey { key: Key::Images }.message(), "Missing 'images' key in config");
    assert_eq!(MissingConfigKey { key: Key::Wezlua }.message(), "Missing 'wezlua' key in config");
    assert_eq!(
        MissingConfigKey { key: Key::Animations }.message(),
        "Missing 'animations' key in config"
    );
}

#[test]
fn key_names_and_prefixes() {
    assert_eq!(Key::Images.name(), "images");
    assert_eq!(Key::Wezlua.name(), "wezlua");
    assert_eq!(Key::Animations.name(), "animations");
    assert_eq!(Key::Images.prefix(), "images = ");
    assert_eq!(Key::Wezlua.prefix(), "wezlua = ");
    assert_eq!(Key::Animations.prefix(), "animations = ");
}

#[test]
fn quotes_are_taken_from_both_ends() {
    let text = chars("k = \"\"a\"b\"\"\"");
    assert_eq!(unquote(&text, 4), (6, 9));
    assert_eq!(unquote(&text, 0), (0, 9));
    let only = chars("\"\"\"");
    assert_eq!(unquote(&only, 0), (3, 3));
    assert_eq!(unquote(&only, 3), (3, 3));
    assert_eq!(unquote(&chars("plain"), 0), (0, 5));
}

#[test]
fn unquoting_agrees_with_trim_matches() {
    for s in ["", "\"", "\"\"", "a", "\"a\"", "\"\"a b\"", "a\"b", "\" \"", "\"~/x\"\""] {
        let text = chars(s);
        let (from, to) = unquote(&text, 0);
        let got: String = text[from..to].iter().collect();
        assert_eq!(got, s.trim_matches('"'));
    }
}

#[test]
fn a_line_gives_a_value_to_its_key_only() {
    assert_eq!(value("images = \"~/p\"", Key::Images, "/h"), Some("/h/p".to_string()));
    assert_eq!(value("images = \"~/p\"", Key::Wezlua, "/h"), None);
    assert_eq!(value("images = \"~/p\"", Key::Animations, "/h"), None);
    assert_eq!(value("wezlua = w", Key::Wezlua, "/h"), Some("w".to_string()));
    assert_eq!(value("animations = ", Key::Animations, "/h"), Some("".to_string()));
    assert_eq!(value("animations = \"\"", Key::Animations, "/h"), Some("".to_string()));
    assert_eq!(value("animations =", Key::Animations, "/h"), None);
}

#[test]
fn the_value_keeps_what_lies_between_the_quotes() {
    assert_eq!(value("images = \" ~/p \"", Key::Images, "/h"), Some(" ~/p ".to_string()));
    assert_eq!(value("images = \"a\"b\"", Key::Images, "/h"), Some("a\"b".to_string()));
    assert_eq!(value("images = x # y", Key::Images, "/h"), Some("x # y".to_string()));
    assert_eq!(value("images = \"~\"", Key::Images, "/h"), Some("/h".to_string()));
}
