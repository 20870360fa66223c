use wezback::patcher::{is_target, replacement, update_config_file, ASSIGNMENT, CLOSING, TARGET};

fn chars(s: &str) -> Vec<char> {
    s.chars().collect()
}

#[test]
fn the_replacement_line_has_the_exact_form() {
    let line: String = replacement(&chars("Pictures/wall/a.png")).iter().collect();
    assert_eq!(line, "local image_path = home .. '/Pictures/wall/a.png'");
    let empty: String = replacement(&chars("")).iter().collect();
    assert_eq!(empty, "local image_path = home .. '/'");
    assert_eq!(TARGET, "local image_path");
    assert_eq!(ASSIGNMENT, "local image_path = home .. '/");
    assert_eq!(CLOSING, "'");
}

#[test]
fn the_image_path_is_embedded_as_it_is() {
    let line: String = replacement(&chars("it's a \"wall\"/ä b.png")).iter().collect();
    assert_eq!(line, "local image_path = home .. '/it's a \"wall\"/ä b.png'");
}

#[test]
fn target_lines_start_with_the_assignment_after_white_space() {
    assert!(is_target(&chars("local image_path = home .. '/x.png'")));
    assert!(is_target(&chars("local image_path")));
    assert!(is_target(&chars("   \tlocal image_path=1")));
    assert!(is_target(&chars("local image_path_old = 2")));
    assert!(is_target(&chars("\u{a0}local image_path = 3")));
    assert!(!is_target(&chars("-- local image_path = home")));
    assert!(!is_target(&chars("local  image_path = 1")));
    assert!(!is_target(&chars("local image_pat")));
    assert!(!is_target(&chars("Local image_path = 1")));
    assert!(!is_target(&chars("")));
    assert!(!is_target(&chars("   ")));
}

#[test]
fn patch_replaces_the_one_matching_line() {
    let config = "local wezterm = require 'wezterm'\nlocal home = os.getenv('HOME')\nlocal image_path = home .. '/old.png'\nreturn { background = image_path }\n";
    let updated = update_config_file(config, "Pictures/wall/a.png");
    assert_eq!(
        updated,
        "local wezterm = require 'wezterm'\nlocal home = os.getenv('HOME')\nlocal image_path = home .. '/Pictures/wall/a.png'\nreturn { background = image_path }"
    );
}

#[test]
fn patch_keeps_every_other_line_in_place() {
    let config = "a\n  b  \n\tlocal image_path = 'x'\n\nc -- local image_path\n";
    let updated = update_config_file(config, "n.gif");
    let lines: Vec<&str> = updated.split('\n').collect();
    assert_eq!(
        lines,
        vec!["a", "  b  ", "local image_path = home .. '/n.gif'", "", "c -- local image_path"]
    );
}

#[test]
fn patch_twice_is_patch_once() {
    let config = "local home = os.getenv('HOME')\n  local image_path = home .. '/old.png'\nreturn {}\n";
    let once = update_config_file(config, "Pictures/wall/a.png");
    let twice = update_config_file(&once, "Pictures/wall/a.png");
    assert_eq!(twice, once);
    let thrice = update_config_file(&twice, "Pictures/wall/a.png");
    assert_eq!(thrice, once);
}

#[test]
fn patch_with_the_line_already_in_place_changes_nothing() {
    let config = "x = 1\nlocal image_path = home .. '/a.png'\ny = 2";
    assert_eq!(update_config_file(config, "a.png"), config);
}

#[test]
fn patch_without_matching_line_keeps_the_lines() {
    let config = "local wezterm = require 'wezterm'\nreturn {}";
    assert_eq!(update_config_file(config, "a.png"), config);
    let with_ending = "local wezterm = require 'wezterm'\nreturn {}\n";
    assert_eq!(update_config_file(with_ending, "a.png"), config);
    assert_eq!(update_config_file("", "a.png"), "");
}

#[test]
fn patch_rewrites_every_matching_line() {
    let config = "local image_path = 1\nlocal x = 2\n    local image_path = 3";
    assert_eq!(
        update_config_file(config, "b.jpg"),
        "local image_path = home .. '/b.jpg'\nlocal x = 2\nlocal image_path = home .. '/b.jpg'"
    );
}

#[test]
fn patch_turns_line_endings_into_line_feeds() {
    let config = "a\r\nlocal image_path = 0\r\nb\r\n";
    assert_eq!(update_config_file(config, "c.bmp"), "a\nlocal image_path = home .. '/c.bmp'\nb");
    assert_eq!(update_config_file("a\n\nb\n\n", "c.bmp"), "a\n\nb\n");
    assert_eq!(update_config_file("a\rb", "c.bmp"), "a\rb");
}

#[test]
fn patch_agrees_with_mapping_the_lines() {
    let images = ["a.png", "Pictures/wall/c.jpg", ""];
    let configs = [
        "",
        "\n",
        "local image_path",
        "x\nlocal image_path = home .. '/a.png'\ny\n",
        " \t local image_path = 1\r\n\r\nz",
        "a\r\r\nlocal image_pathology\n\n",
    ];
    for image in images {
        let line = format!("local image_path = home .. '/{}'", image);
        for config in configs {
            let expected = config
                .lines()
                .map(|l| {
                    if l.trim_start().starts_with("local image_path") && l != line {
                        line.clone()
                    } else {
                        l.to_string()
                    }
                })
                .collect::<Vec<String>>()
                .join("\n");
            assert_eq!(update_config_file(config, image), expected, "{:?}", config);
        }
    }
}

#[test]
fn a_blank_last_line_is_lost_one_patch_at_a_time() {
    let once = update_config_file("a\n\n", "x.png");
    assert_eq!(once, "a\n");
    assert_eq!(update_config_file(&once, "x.png"), "a");
}
