use devenv_lsp::chars::{char_is_whitespace, chars_start_with, to_chars};
use devenv_lsp::path::{get_path, partial_word, word_start_by};

fn strings(items: &[&str]) -> Vec<String> {
    items.iter().map(|s| s.to_string()).collect()
}

#[test]
fn dotted_path_leaves_out_the_word_in_progress() {
    assert_eq!(get_path("foo.bar.ba"), strings(&["foo", "bar"]));
    assert_eq!(partial_word("foo.bar.ba"), "ba");
}

#[test]
fn line_without_dot_has_empty_path() {
    assert_eq!(get_path("x"), strings(&[]));
    assert_eq!(partial_word("x"), "x");
}

#[test]
fn empty_line_has_empty_path_and_empty_word() {
    assert_eq!(get_path(""), strings(&[]));
    assert_eq!(partial_word(""), "");
}

#[test]
fn path_segments_are_trimmed() {
    assert_eq!(get_path("  services . postgres\t.en"), strings(&["services", "postgres"]));
    assert_eq!(get_path("\u{a0}a\u{2003}.b"), strings(&["a"]));
}

#[test]
fn empty_segments_are_kept() {
    assert_eq!(get_path("a..b"), strings(&["a", ""]));
    assert_eq!(get_path("."), strings(&[""]));
    assert_eq!(get_path(" . ."), strings(&["", ""]));
}

#[test]
fn trailing_dot_ends_the_path() {
    assert_eq!(get_path("services.postgres."), strings(&["services", "postgres"]));
    assert_eq!(partial_word("services.postgres."), "");
}

#[test]
fn word_starts_after_the_last_boundary() {
    assert_eq!(partial_word("  languages.rust"), "rust");
    assert_eq!(partial_word("foo bar"), "bar");
    assert_eq!(partial_word("a-b"), "b");
    assert_eq!(partial_word("x = pkgs"), "pkgs");
    assert_eq!(partial_word("foo "), "");
}

#[test]
fn underscore_digits_and_letters_belong_to_words() {
    assert_eq!(partial_word("a.b_c9"), "b_c9");
    assert_eq!(partial_word("caf\u{e9}"), "caf\u{e9}");
    assert_eq!(partial_word("x.\u{4e2d}\u{6587}"), "\u{4e2d}\u{6587}");
}

#[test]
fn whitespace_is_what_std_calls_whitespace() {
    let mut code: u32 = 0;
    while code <= 0x10FFFF {
        if let Some(c) = char::from_u32(code) {
            assert_eq!(char_is_whitespace(c), c.is_whitespace(), "U+{:04X}", code);
        }
        code += 1;
    }
}

#[test]
fn path_agrees_with_split_and_trim() {
    for line in ["a.b.c", " a . b ", "..", "no dots", "x.", ".x", "a.\tb\r.c", ""] {
        let parts: Vec<&str> = line.split('.').collect();
        let expected: Vec<String> =
            parts[..parts.len() - 1].iter().map(|s| s.trim().to_string()).collect();
        assert_eq!(get_path(line), expected, "{:?}", line);
    }
}

#[test]
fn characters_come_in_order() {
    assert_eq!(to_chars("a\u{e9}\u{4e2d}."), vec!['a', '\u{e9}', '\u{4e2d}', '.']);
    assert_eq!(to_chars(""), Vec::<char>::new());
}

#[test]
fn start_is_compared_character_by_character() {
    let text = to_chars("postgres");
    assert!(chars_start_with(&text, &to_chars("")));
    assert!(chars_start_with(&text, &to_chars("post")));
    assert!(chars_start_with(&text, &to_chars("postgres")));
    assert!(!chars_start_with(&text, &to_chars("postgresql")));
    assert!(!chars_start_with(&text, &to_chars("Post")));
    assert!(!chars_start_with(&text, &to_chars("ost")));
    assert!(chars_start_with(&to_chars(""), &to_chars("")));
    assert!(!chars_start_with(&to_chars(""), &to_chars("a")));
}

#[test]
fn word_starts_behind_the_last_boundary_flag() {
    assert_eq!(word_start_by(&vec![]), 0);
    assert_eq!(word_start_by(&vec![false, false, false]), 0);
    assert_eq!(word_start_by(&vec![true]), 1);
    assert_eq!(word_start_by(&vec![false, true, false, false]), 2);
    assert_eq!(word_start_by(&vec![true, false, true]), 3);
    // "foo.bar.ba": the dots are the boundaries.
    let flags = vec![false, false, false, true, false, false, false, true, false, false];
    assert_eq!(word_start_by(&flags), 8);
}
