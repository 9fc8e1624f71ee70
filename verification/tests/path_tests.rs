use astrbox::path::{are_valid_segments, is_valid_segment, split_path};

fn strings(pieces: &[&str]) -> Vec<String> {
    pieces.iter().map(|s| s.to_string()).collect()
}

#[test]
fn split_cuts_at_every_dot() {
    assert_eq!(split_path("root.cli.name"), strings(&["root", "cli", "name"]));
    assert_eq!(split_path("root"), strings(&["root"]));
}

#[test]
fn split_keeps_empty_pieces() {
    assert_eq!(split_path(""), strings(&[""]));
    assert_eq!(split_path("."), strings(&["", ""]));
    assert_eq!(split_path("a..b"), strings(&["a", "", "b"]));
    assert_eq!(split_path(".a"), strings(&["", "a"]));
    assert_eq!(split_path("a."), strings(&["a", ""]));
    assert_eq!(split_path("..."), strings(&["", "", "", ""]));
}

#[test]
fn split_counts_characters_not_bytes() {
    assert_eq!(split_path("模块.函数"), strings(&["模块", "函数"]));
    assert_eq!(split_path("é.ü.ß"), strings(&["é", "ü", "ß"]));
}

#[test]
fn joining_the_pieces_gives_the_text_back() {
    for text in ["", ".", "a", "a.b", "a..b", ".a.", "root.cli.hello_from_bin", "模块.函数."] {
        assert_eq!(split_path(text).join("."), text);
    }
}

#[test]
fn splitting_a_join_gives_the_pieces_back() {
    let pieces = strings(&["root", "", "cli", "x y"]);
    assert_eq!(split_path(&pieces.join(".")), pieces);
}

#[test]
fn a_text_with_n_dots_has_n_plus_one_pieces() {
    assert_eq!(split_path("a.b.c.d").len(), 4);
    assert_eq!(split_path("abcd").len(), 1);
}

#[test]
fn segments_are_not_empty_and_hold_no_dot() {
    assert!(is_valid_segment("hello_from_bin"));
    assert!(is_valid_segment("x"));
    assert!(is_valid_segment("with space"));
    assert!(is_valid_segment("函数"));
    assert!(!is_valid_segment(""));
    assert!(!is_valid_segment("."));
    assert!(!is_valid_segment("a.b"));
    assert!(!is_valid_segment("a."));
    assert!(!is_valid_segment(".a"));
}

#[test]
fn a_list_is_valid_when_each_of_its_strings_is() {
    assert!(are_valid_segments(&strings(&[])));
    assert!(are_valid_segments(&strings(&["root", "cli"])));
    assert!(!are_valid_segments(&strings(&["root", ""])));
    assert!(!are_valid_segments(&strings(&["ro.ot"])));
    assert!(are_valid_segments(&split_path("root.cli")));
    assert!(!are_valid_segments(&split_path("root..cli")));
    assert!(!are_valid_segments(&split_path("")));
}
