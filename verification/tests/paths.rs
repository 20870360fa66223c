use std::path::Path;
use wezback::paths::{
    expand, expand_tilde, extension_start, file_name_start, relative_to_home, resolve, stem_of,
};

fn chars(s: &str) -> Vec<char> {
    s.chars().collect()
}

fn extension(path: &str) -> Option<String> {
    let text = chars(path);
    extension_start(&text).map(|at| text[at..].iter().collect())
}

fn relative(path: &str, home: &str) -> Option<String> {
    relative_to_home(&chars(path), &chars(home)).map(|r| r.iter().collect())
}

#[test]
fn tilde_at_the_start_becomes_home() {
    assert_eq!(expand_tilde("~/.config/wezback", "/home/ann"), "/home/ann/.config/wezback");
    assert_eq!(expand_tilde("~", "/home/ann"), "/home/ann");
    assert_eq!(expand_tilde("~/Pictures/wall", "/root"), "/root/Pictures/wall");
}

#[test]
fn only_the_first_tilde_is_replaced() {
    assert_eq!(expand_tilde("~/a~b/~", "/h"), "/h/a~b/~");
    assert_eq!(expand_tilde("~~", "/h"), "/h~");
    assert_eq!(expand_tilde("~user/x", "/h"), "/huser/x");
}

#[test]
fn paths_without_leading_tilde_stay() {
    assert_eq!(expand_tilde("/etc/wezterm.lua", "/home/ann"), "/etc/wezterm.lua");
    assert_eq!(expand_tilde("Pictures/~", "/home/ann"), "Pictures/~");
    assert_eq!(expand_tilde("", "/home/ann"), "");
    assert_eq!(expand_tilde(" ~", "/home/ann"), " ~");
}

#[test]
fn expansion_agrees_with_replacing_the_first_tilde() {
    for path in ["~", "~/x", "x/~", "", "~~/~", "/abs", "rel/path.png"] {
        for home in ["/home/ann", "", "/", "~"] {
            let expected = if path.starts_with('~') {
                path.replacen('~', home, 1)
            } else {
                path.to_string()
            };
            assert_eq!(expand_tilde(path, home), expected);
            let on_chars: String = expand(&chars(path), &chars(home)).iter().collect();
            assert_eq!(on_chars, expected);
        }
    }
}

#[test]
fn file_name_follows_the_last_slash() {
    assert_eq!(file_name_start(&chars("/a/b/c.png")), 5);
    assert_eq!(file_name_start(&chars("c.png")), 0);
    assert_eq!(file_name_start(&chars("/a/b/")), 5);
    assert_eq!(file_name_start(&chars("")), 0);
}

#[test]
fn extension_follows_the_last_dot_of_the_name() {
    assert_eq!(extension("/p/a.png"), Some("png".to_string()));
    assert_eq!(extension("/p/a.tar.gz"), Some("gz".to_string()));
    assert_eq!(extension("/p/a."), Some("".to_string()));
    assert_eq!(extension("a.JPG"), Some("JPG".to_string()));
    assert_eq!(extension("/p.d/a"), None);
    assert_eq!(extension("/p/noext"), None);
    assert_eq!(extension("/p/.hidden"), None);
    assert_eq!(extension("/p/.hidden.png"), Some("png".to_string()));
    assert_eq!(extension("/p/.."), None);
    assert_eq!(extension("/p/..."), Some("".to_string()));
    assert_eq!(extension(""), None);
}

#[test]
fn extension_agrees_with_std_on_entry_paths() {
    let names = [
        "a.png", "b.txt", "c", ".d", ".e.f", "g.", "h..i", "..j", "k.l.m", "..", "...", "n.farbfeld",
        "o p.q r", "ä.ö",
    ];
    for dir in ["/home/ann/Pictures", "/", "rel.dir", "/x.y/z"] {
        for name in names {
            let path = if dir == "/" { format!("/{}", name) } else { format!("{}/{}", dir, name) };
            let expected =
                Path::new(&path).extension().and_then(|e| e.to_str()).map(|e| e.to_string());
            assert_eq!(extension(&path), expected, "{:?}", path);
        }
    }
}

#[test]
fn paths_under_home_lose_the_home_prefix() {
    assert_eq!(
        relative("/home/ann/Pictures/wall/a.png", "/home/ann"),
        Some("Pictures/wall/a.png".to_string())
    );
    assert_eq!(relative("/home/ann/a.png", "/home/ann/"), Some("a.png".to_string()));
    assert_eq!(relative("/home/ann", "/home/ann"), Some("".to_string()));
    assert_eq!(relative("/a.png", "/"), Some("a.png".to_string()));
    assert_eq!(relative("/home/ann//a.png", "/home/ann"), Some("a.png".to_string()));
}

#[test]
fn paths_outside_home_have_no_relative_path() {
    assert_eq!(relative("/home/annabel/a.png", "/home/ann"), None);
    assert_eq!(relative("/srv/img/a.png", "/home/ann"), None);
    assert_eq!(relative("/home", "/home/ann"), None);
    assert_eq!(relative("Pictures/a.png", "/home/ann"), None);
    assert_eq!(relative("a.png", "/"), None);
}

#[test]
fn relative_paths_agree_with_std_on_plain_paths() {
    let homes = [
        "/home/ann",
        "/home/ann/",
        "/",
        "/home",
        "/srv/data",
        "home",
        "/home//ann",
        "/home/ann/.",
        "/./home/./ann//",
        "//",
        "/home/ann/..",
        "/home/.ann",
    ];
    let paths = [
        "/home/ann/Pictures/a.png",
        "/home/ann/a.png",
        "/home/ann",
        "/home/annabel/a.png",
        "/srv/data/x/y.gif",
        "/a.png",
        "home/b.png",
        "/home",
    ];
    for home in homes {
        for path in paths {
            let expected = Path::new(path)
                .strip_prefix(Path::new(home))
                .ok()
                .map(|p| p.to_string_lossy().to_string());
            assert_eq!(relative(path, home), expected, "{:?} under {:?}", path, home);
        }
    }
}

fn stem(home: &str) -> String {
    stem_of(&chars(home)).iter().collect()
}

#[test]
fn home_is_written_plainly() {
    assert_eq!(stem("/home/ann"), "/home/ann");
    assert_eq!(stem("/home/ann/"), "/home/ann");
    assert_eq!(stem("/home//ann"), "/home/ann");
    assert_eq!(stem("/home/ann/."), "/home/ann");
    assert_eq!(stem("//home/./ann///"), "/home/ann");
    assert_eq!(stem("/"), "");
    assert_eq!(stem(""), "");
    assert_eq!(stem("/."), "");
    assert_eq!(stem("home/ann"), "home/ann");
    assert_eq!(stem("home"), "home");
    assert_eq!(stem("/home/../ann"), "/home/../ann");
    assert_eq!(stem("/home/.ann/a.b"), "/home/.ann/a.b");
}

#[test]
fn paths_under_a_home_written_loosely() {
    assert_eq!(relative("/home/u/Pictures/a.png", "/home//u"), Some("Pictures/a.png".to_string()));
    assert_eq!(relative("/home/u/Pictures/a.png", "/home/u/."), Some("Pictures/a.png".to_string()));
    assert_eq!(relative("/home/u/a.png", "/./home/u//"), Some("a.png".to_string()));
    assert_eq!(relative("/home/ux/a.png", "/home//u"), None);
}

#[test]
fn directories_resolve_against_home() {
    assert_eq!(resolve("Pictures/wall", "/home/ann"), "/home/ann/Pictures/wall");
    assert_eq!(resolve("Pictures/wall", "/home/ann/"), "/home/ann/Pictures/wall");
    assert_eq!(resolve("Pictures/wall", "/home//ann/."), "/home/ann/Pictures/wall");
    assert_eq!(resolve("wall", "/"), "/wall");
    assert_eq!(resolve("", "/home/ann"), "/home/ann/");
    assert_eq!(resolve(".hidden/wall", "/home/ann"), "/home/ann/.hidden/wall");
}

#[test]
fn absolute_and_tilde_directories_resolve_as_written() {
    assert_eq!(resolve("/srv/wall", "/home/ann"), "/srv/wall");
    assert_eq!(resolve("/", "/home/ann"), "/");
    assert_eq!(resolve("~/Pictures/wall", "/home/ann"), "/home/ann/Pictures/wall");
    assert_eq!(resolve("~", "/home/ann"), "/home/ann");
    assert_eq!(resolve("~", "/home/ann/"), "/home/ann/");
}
