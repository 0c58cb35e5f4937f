use devenv_lsp::backend::{Backend, CompletionItem};
use devenv_lsp::lines::{byte_column, line_prefix};
use devenv_lsp::schema::{Entries, OptionSchema};
use devenv_lsp::store::Position;

fn text(s: &str) -> OptionSchema {
    OptionSchema::Text(s.to_string())
}

fn object(items: Vec<(&str, OptionSchema)>) -> OptionSchema {
    let mut entries = Entries::new();
    for (key, child) in items {
        entries.insert(key.to_string(), child);
    }
    OptionSchema::Object(entries)
}

fn item(label: &str, detail: &str) -> CompletionItem {
    CompletionItem { label: label.to_string(), detail: detail.to_string() }
}

fn at(line: u32, character: u32) -> Position {
    Position { line, character }
}

fn postgres_schema() -> OptionSchema {
    object(vec![(
        "services",
        object(vec![(
            "postgres",
            object(vec![("enable", object(vec![("description", text("Enable Postgres"))]))]),
        )]),
    )])
}

fn schema() -> OptionSchema {
    object(vec![
        (
            "services",
            object(vec![
                (
                    "postgres",
                    object(vec![
                        ("enable", object(vec![("description", text("Enable Postgres"))])),
                        ("extensions", object(vec![])),
                        ("port", object(vec![("description", text("Port to listen on"))])),
                    ]),
                ),
                ("redis", object(vec![("enable", object(vec![]))])),
            ]),
        ),
        ("languages", object(vec![("rust", object(vec![("enable", object(vec![]))]))])),
    ])
}

#[test]
fn scope_and_typed_path_lead_to_the_candidates() {
    let mut backend = Backend::new(postgres_schema());
    backend.store_change("file:///devenv.nix", "postgres.en", vec!["services".to_string()]);
    assert_eq!(
        backend.completion("file:///devenv.nix", at(0, 11)),
        vec![item("enable", "Enable Postgres")]
    );
}

#[test]
fn same_request_twice_gives_the_same_answer() {
    let text = "{ services = { postgres = {  }; }; }";
    let mut backend = Backend::new(schema());
    backend.did_change("u", text);
    let first = backend.completion("u", at(0, 28));
    let second = backend.completion("u", at(0, 28));
    assert_eq!(first, second);
    assert_eq!(first, vec![item("services", ""), item("languages", "")]);
    backend.did_change("u", text);
    let third = backend.completion("u", at(0, 28));
    let fourth = backend.completion("u", at(0, 28));
    assert_eq!(third, fourth);
    assert_eq!(
        third,
        vec![
            item("enable", "Enable Postgres"),
            item("extensions", ""),
            item("port", "Port to listen on"),
        ]
    );
}

#[test]
fn unknown_document_completes_at_top_level() {
    let mut backend = Backend::new(schema());
    assert_eq!(
        backend.completion("never seen", at(4, 2)),
        vec![item("services", ""), item("languages", "")]
    );
    assert_eq!(backend.store().get("never seen"), "");
    assert_eq!(backend.store().get_cursor("never seen"), at(4, 2));
}

#[test]
fn scope_is_the_one_of_the_last_change() {
    let text = "{\n  services = {\n    postgres = 1;\n  };\n}\n";
    let mut backend = Backend::new(schema());
    // Before any completion request the cursor is the origin: the scope of the change is empty.
    backend.did_change("u", text);
    assert_eq!(backend.store().get_scope("u"), Vec::<String>::new());
    backend.completion("u", at(2, 15));
    assert_eq!(backend.store().get_scope("u"), Vec::<String>::new());
    // The request left its position behind; the next change resolves the scope there.
    backend.did_change("u", text);
    assert_eq!(
        backend.store().get_scope("u"),
        vec!["services".to_string(), "postgres".to_string()]
    );
    assert_eq!(backend.store().get_cursor("u"), at(2, 15));
    assert_eq!(backend.store().get("u"), text);
}

#[test]
fn scope_with_a_dot_is_one_segment_of_the_search_path() {
    // An attribute path `services.postgres` is a single segment, and the schema has no such key.
    let mut backend = Backend::new(schema());
    backend.store_change("u", "e", vec!["services.postgres".to_string()]);
    assert_eq!(backend.completion("u", at(0, 1)), vec![]);
    backend.store_change("u", "e", vec!["services".to_string(), "postgres".to_string()]);
    assert_eq!(
        backend.completion("u", at(0, 1)),
        vec![item("enable", "Enable Postgres"), item("extensions", "")]
    );
}

#[test]
fn completion_keeps_text_and_scope() {
    let mut backend = Backend::new(schema());
    backend.store_change("u", "  services.", vec![]);
    assert_eq!(backend.completion("u", at(0, 11)), vec![item("postgres", ""), item("redis", "")]);
    assert_eq!(backend.store().get("u"), "  services.");
    assert_eq!(backend.store().get_scope("u"), Vec::<String>::new());
    assert_eq!(backend.store().get_cursor("u"), at(0, 11));
}

#[test]
fn change_keeps_the_cursor_and_other_documents() {
    let mut backend = Backend::new(schema());
    backend.store_change("a", "text a", vec!["x".to_string()]);
    backend.completion("a", at(0, 3));
    backend.did_change("b", "{ }");
    backend.store_change("a", "new a", vec!["y".to_string()]);
    assert_eq!(backend.store().get("a"), "new a");
    assert_eq!(backend.store().get_scope("a"), vec!["y".to_string()]);
    assert_eq!(backend.store().get_cursor("a"), at(0, 3));
    assert_eq!(backend.store().get("b"), "{ }");
}

#[test]
fn column_beyond_the_line_takes_the_whole_line() {
    let mut backend = Backend::new(schema());
    backend.store_change("u", "services.re\nlanguages.", vec![]);
    assert_eq!(backend.completion("u", at(0, 400)), vec![item("redis", "")]);
    assert_eq!(backend.completion("u", at(1, 400)), vec![item("rust", "")]);
    assert_eq!(
        backend.completion("u", at(2, 0)),
        vec![item("services", ""), item("languages", "")]
    );
    assert_eq!(
        backend.completion("u", at(0, 0)),
        vec![item("services", ""), item("languages", "")]
    );
}

#[test]
fn line_prefix_follows_the_lines_of_the_text() {
    let text = "first\nsecond line\r\n\nfourth\r";
    assert_eq!(line_prefix(text, 0, 3), "fir");
    assert_eq!(line_prefix(text, 0, 5), "first");
    assert_eq!(line_prefix(text, 0, 6), "first");
    assert_eq!(line_prefix(text, 1, 8), "second l");
    assert_eq!(line_prefix(text, 1, 99), "second line");
    assert_eq!(line_prefix(text, 2, 4), "");
    assert_eq!(line_prefix(text, 3, 99), "fourth\r");
    assert_eq!(line_prefix(text, 4, 0), "");
    assert_eq!(line_prefix(text, usize::MAX, usize::MAX), "");
    assert_eq!(line_prefix("", 0, 0), "");
    assert_eq!(line_prefix("a\n", 1, 0), "");
    assert_eq!(line_prefix("\n\nx", 2, 1), "x");
    assert_eq!(line_prefix("\u{e9}t\u{e9}.x", 0, 4), "\u{e9}t\u{e9}.");
}

#[test]
fn line_prefix_agrees_with_lines() {
    for text in ["", "a", "a\n", "a\nb", "a\r\nb\r\n", "\n", "\r\n\r\n", "a\rb\nc", "x\n\ny\r", "\r"] {
        for line in 0..5 {
            let content = text.lines().nth(line).unwrap_or_default();
            for column in 0..4 {
                let expected: String = content.chars().take(column).collect();
                assert_eq!(line_prefix(text, line, column), expected, "{:?} {} {}", text, line, column);
            }
        }
    }
}

#[test]
fn byte_column_counts_the_bytes_before_the_character_column() {
    let text = "ab\n\u{e9}t\u{e9} = \u{4e2d};\r\nz";
    assert_eq!(byte_column(text, 0, 0), 0);
    assert_eq!(byte_column(text, 0, 2), 2);
    assert_eq!(byte_column(text, 0, 5), 5);
    assert_eq!(byte_column(text, 1, 1), 2);
    assert_eq!(byte_column(text, 1, 3), 5);
    assert_eq!(byte_column(text, 1, 7), 11);
    assert_eq!(byte_column(text, 1, 8), 12);
    assert_eq!(byte_column(text, 1, 10), 14);
    assert_eq!(byte_column(text, 2, 1), 1);
    assert_eq!(byte_column(text, 9, 4), 4);
    assert_eq!(byte_column(text, 1, usize::MAX), usize::MAX);
}

#[test]
fn scope_and_prefix_are_taken_at_the_same_place() {
    // Before the cursor stand twelve characters of two bytes each.
    let text = "{ services = { /* \u{e9}\u{e9}\u{e9}\u{e9}\u{e9}\u{e9}\u{e9}\u{e9}\u{e9}\u{e9}\u{e9}\u{e9} */ postgres = {  }; }; }";
    let column = text.chars().position(|c| c == 'p').unwrap() + 13;
    assert_eq!(line_prefix(text, 0, column), text.split_at(text.find("}; }; }").unwrap() - 1).0);
    assert_eq!(byte_column(text, 0, column), column + 12);
    let mut backend = Backend::new(schema());
    backend.did_change("u", text);
    let cursor = at(0, column as u32);
    assert_eq!(backend.completion("u", cursor), vec![item("services", ""), item("languages", "")]);
    backend.did_change("u", text);
    assert_eq!(
        backend.store().get_scope("u"),
        vec!["services".to_string(), "postgres".to_string()]
    );
    assert_eq!(
        backend.completion("u", cursor),
        vec![
            item("enable", "Enable Postgres"),
            item("extensions", ""),
            item("port", "Port to listen on"),
        ]
    );
}

#[test]
fn first_change_resolves_the_scope_at_the_origin() {
    let text = "{ a.b.c = { d = 1; }; }";
    let mut backend = Backend::new(schema());
    backend.did_change("u", text);
    assert_eq!(backend.store().get("u"), text);
    assert_eq!(backend.store().get_scope("u"), Vec::<String>::new());
    assert_eq!(backend.store().get_cursor("u"), at(0, 0));
}

#[test]
fn change_resolves_the_scope_at_the_cursor_of_the_last_request() {
    let text = "{ a.b.c = { d = 1; }; }";
    let mut backend = Backend::new(schema());
    backend.did_change("u", text);
    backend.completion("u", at(0, 16));
    backend.did_change("u", text);
    assert_eq!(backend.store().get_scope("u"), vec!["a.b.c".to_string(), "d".to_string()]);
    assert_eq!(backend.store().get_cursor("u"), at(0, 16));
    assert_eq!(backend.store().get("u"), text);
}

#[test]
fn change_to_the_empty_text_empties_the_scope() {
    let mut backend = Backend::new(schema());
    backend.store_change(
        "u",
        "{ old = { stale = 1; }; }",
        vec!["old".to_string(), "stale".to_string()],
    );
    backend.did_change("u", "");
    assert_eq!(backend.store().get("u"), "");
    assert_eq!(backend.store().get_scope("u"), Vec::<String>::new());
}

#[test]
fn cursor_past_the_end_of_the_new_text_gives_the_empty_scope() {
    let mut backend = Backend::new(schema());
    backend.completion("u", at(99, 99));
    backend.did_change("u", "{ a = 1; }");
    assert_eq!(backend.store().get("u"), "{ a = 1; }");
    assert_eq!(backend.store().get_scope("u"), Vec::<String>::new());
    assert_eq!(backend.store().get_cursor("u"), at(99, 99));
}
