// The library and the outside crates used directly are asked the same questions.

use devenv_lsp::parser::{resolve_scope, ParsedSource};
use devenv_lsp::path::partial_word;
use devenv_lsp::schema::{Entries, OptionSchema};
use regex::Regex;
use serde_json::Value;
use tree_sitter::{Parser, Point};

const DOCUMENTS: [&str; 8] = [
    "{ a.b.c = { d = 1; }; }",
    "{ pkgs, ... }:\n\n{\n  packages = [ pkgs.git ];\n  services.postgres = {\n    enable = true;\n    port = 5432;\n  };\n  languages.rust.enable = true;\n}\n",
    "{\n  # a comment\n  env.GREET = \"hello ${name}\";\n  enterShell = ''\n    echo $GREET\n  '';\n}\n",
    "let\n  x = { y = 1; };\nin { inherit x; z = x.y or 2; }\n",
    "{ services = { postgres = {  }; }; }",
    "a.b.c = { d = 1; }",
    "{ caf\u{e9} = \"\u{4e2d}\u{6587}\"; \"quoted key\".inner = { deep.er = [ 1 2 ]; }; }",
    "",
];

fn tree_of(text: &str) -> tree_sitter::Tree {
    let mut parser = Parser::new();
    parser.set_language(&tree_sitter_nix::LANGUAGE.into()).unwrap();
    parser.parse(text, None).unwrap()
}

// The walk on the parser's own nodes.
fn scope_on_parser_nodes(text: &str, line: usize, column: usize) -> Vec<String> {
    let tree = tree_of(text);
    let point = Point::new(line, column);
    let mut found = Vec::new();
    if let Some(node) = tree.root_node().descendant_for_point_range(point, point) {
        let mut current = node;
        loop {
            if current.kind() == "attrpath" {
                if let Ok(segment) = current.utf8_text(text.as_bytes()) {
                    found.push(segment.to_string());
                }
            }
            if let Some(sibling) = current.prev_sibling() {
                current = sibling;
            } else if let Some(parent) = current.parent() {
                current = parent;
            } else {
                break;
            }
        }
    }
    found.reverse();
    found
}

// The byte at which a row holds its character `column`; one byte for every column past its end.
fn bytes_before(text: &str, line: usize, column: usize) -> usize {
    let row = text.lines().nth(line).unwrap_or_default();
    let inside = row.chars().take(column).map(char::len_utf8).sum::<usize>();
    inside + (column - row.chars().count().min(column))
}

#[test]
fn scope_agrees_with_the_walk_on_parser_nodes() {
    for text in DOCUMENTS {
        let lines = text.lines().count() + 2;
        for line in 0..lines {
            let width = text.lines().nth(line).map_or(0, |l| l.chars().count()) + 3;
            for column in 0..width {
                assert_eq!(
                    resolve_scope(text, line, column),
                    scope_on_parser_nodes(text, line, bytes_before(text, line, column)),
                    "{:?} at {}:{}",
                    text,
                    line,
                    column
                );
            }
        }
    }
}

#[test]
fn node_at_agrees_with_the_lookup_of_the_parser() {
    for text in DOCUMENTS {
        let parsed = ParsedSource::parse(text).unwrap();
        let tree = tree_of(text);
        let mut pending = vec![tree.root_node()];
        let mut nodes = Vec::new();
        while let Some(node) = pending.pop() {
            nodes.push(node);
            for i in (0..node.child_count()).rev() {
                pending.push(node.child(i).unwrap());
            }
        }
        for line in 0..text.lines().count() + 2 {
            for column in 0..text.lines().nth(line).map_or(0, |l| l.len()) + 3 {
                let point = Point::new(line, column);
                let found = tree.root_node().descendant_for_point_range(point, point).unwrap();
                assert_eq!(
                    parsed.node_at(line, column),
                    nodes.iter().position(|n| *n == found),
                    "{:?} at {}:{}",
                    text,
                    line,
                    column
                );
            }
        }
    }
}

#[test]
fn copied_nodes_agree_with_parser_nodes() {
    for text in DOCUMENTS {
        let parsed = ParsedSource::parse(text).unwrap();
        let copy = parsed.syntax();
        let tree = tree_of(text);
        // The parser's nodes in document order, by its own child lists.
        let mut pending = vec![tree.root_node()];
        let mut nodes = Vec::new();
        while let Some(node) = pending.pop() {
            nodes.push(node);
            for i in (0..node.child_count()).rev() {
                pending.push(node.child(i).unwrap());
            }
        }
        assert_eq!(copy.len(), nodes.len(), "{:?}", text);
        let position = |wanted: tree_sitter::Node| nodes.iter().position(|n| *n == wanted);
        for (i, node) in nodes.iter().enumerate() {
            let copied = copy.node(i).unwrap();
            assert_eq!(copied.kind, node.kind());
            assert_eq!(copied.start_byte, node.start_byte());
            assert_eq!(copied.end_byte, node.end_byte());
            assert_eq!(copied.parent, node.parent().and_then(position), "{:?} node {}", text, i);
            assert_eq!(
                copied.prev_sibling,
                node.prev_sibling().and_then(position),
                "{:?} node {}",
                text,
                i
            );
        }
    }
}

#[test]
fn copied_nodes_stand_in_document_order() {
    for text in DOCUMENTS {
        let parsed = ParsedSource::parse(text).unwrap();
        let copy = parsed.syntax();
        assert!(copy.len() > 0, "{:?}", text);
        let root = copy.node(0).unwrap();
        assert_eq!((root.parent, root.prev_sibling), (None, None));
        for i in 1..copy.len() {
            let node = copy.node(i).unwrap();
            match node.prev_sibling {
                // A first child stands right behind its parent.
                None => assert_eq!(node.parent, Some(i - 1), "{:?} node {}", text, i),
                // Between two siblings stands only what hangs on the earlier one.
                Some(sibling) => {
                    assert!(sibling < i);
                    assert_eq!(copy.node(sibling).unwrap().parent, node.parent);
                    for j in sibling + 1..i {
                        let parent = copy.node(j).unwrap().parent.unwrap();
                        assert!(sibling <= parent && parent < j, "{:?} node {}", text, j);
                    }
                }
            }
        }
    }
}

#[test]
fn partial_word_agrees_with_the_capture_after_the_last_boundary() {
    let pattern = Regex::new(r".*\W(.*)").unwrap();
    let lines = [
        "foo.bar.ba",
        "x",
        "",
        "  services.postgres.",
        "a b\tc",
        "pkgs.python3Packages.n",
        "x = [ 1 2",
        "caf\u{e9}.na\u{ef}ve",
        "snake_case-kebab",
        "\u{4e2d}\u{6587} \u{65e5}\u{672c}",
        "a\u{301}b",
        "tab\t",
        "dollar$sign",
        "under_",
        "9lives",
    ];
    for line in lines {
        let expected = match pattern.captures(line).and_then(|found| found.get(1)) {
            Some(word) => word.as_str(),
            None => line,
        };
        assert_eq!(partial_word(line), expected, "{:?}", line);
    }
}

fn schema_of(value: &Value) -> OptionSchema {
    match value {
        Value::Object(map) => {
            let mut entries = Entries::new();
            for (key, child) in map {
                entries.insert(key.clone(), schema_of(child));
            }
            OptionSchema::Object(entries)
        }
        Value::String(text) => OptionSchema::Text(text.clone()),
        _ => OptionSchema::Other,
    }
}

// The query on the JSON document itself.
fn search_in_json(root: &Value, path: &[String], partial: &str) -> Vec<(String, Option<String>)> {
    let mut current = root;
    for key in path {
        match current.get(key) {
            Some(next) => current = next,
            None => return Vec::new(),
        }
    }
    match current {
        Value::Object(map) => map
            .iter()
            .filter(|(key, _)| key.starts_with(partial))
            .map(|(key, child)| {
                let description = match child {
                    Value::Object(inner) => {
                        inner.get("description").and_then(|d| d.as_str()).map(String::from)
                    }
                    _ => None,
                };
                (key.clone(), description)
            })
            .collect(),
        _ => Vec::new(),
    }
}

#[test]
fn schema_from_json_text_answers_the_scenario() {
    let json = r#"{"services": {"postgres": {"enable": {"description": "Enable Postgres"}}}}"#;
    let schema = schema_of(&serde_json::from_str(json).unwrap());
    let path = vec!["services".to_string(), "postgres".to_string()];
    assert_eq!(
        schema.search_json(&path, "en"),
        vec![("enable".to_string(), Some("Enable Postgres".to_string()))]
    );
}

#[test]
fn candidates_come_in_the_order_of_the_json_document() {
    let json = r#"{"zeta": {}, "alpha": {"description": "first letter"}, "mid": 1, "beta": {}}"#;
    let schema = schema_of(&serde_json::from_str(json).unwrap());
    let found = schema.search_json(&[], "");
    let keys: Vec<&str> = found.iter().map(|(key, _)| key.as_str()).collect();
    assert_eq!(keys, vec!["zeta", "alpha", "mid", "beta"]);
}

#[test]
fn search_agrees_with_the_query_on_the_json_document() {
    let json = r#"{
        "services": {
            "description": "Services to run",
            "postgres": {
                "enable": {"description": "Enable Postgres", "type": "boolean", "default": false},
                "port": {"description": 5432},
                "listen_addresses": {"description": null},
                "extensions": ["a", "b"],
                "package": "pkgs.postgresql"
            },
            "redis": {"enable": {}}
        },
        "packages": [],
        "name": "devenv",
        "enterShell": {"description": "Bash code to execute when entering the shell."}
    }"#;
    let value: Value = serde_json::from_str(json).unwrap();
    let schema = schema_of(&value);
    let paths: [&[&str]; 9] = [
        &[],
        &["services"],
        &["services", "postgres"],
        &["services", "postgres", "enable"],
        &["services", "postgres", "package"],
        &["services", "mysql"],
        &["packages"],
        &["name", "x"],
        &["services", "postgres", "extensions", "0"],
    ];
    for path in paths {
        let path: Vec<String> = path.iter().map(|s| s.to_string()).collect();
        for partial in ["", "e", "en", "p", "po", "postgres", "description", "s", "x", "E"] {
            assert_eq!(
                schema.search_json(&path, partial),
                search_in_json(&value, &path, partial),
                "{:?} {:?}",
                path,
                partial
            );
        }
    }
}
