use ggen_engine::template::{parse, ParseError};

const SERVICE: &str = "---
to: src/{{ name | snake }}.rs
vars:
  name: hello_world
  author: \"Jane Doe\"
  license:
prefixes:
  ex: http://example.org/
  rdf: <http://www.w3.org/1999/02/22-rdf-syntax-ns#>
sparql:
  find_entities: SELECT ?entity WHERE { ?entity a ex:Entity }
  find_properties: \"SELECT ?p WHERE { ?p a ex:Property }\"
---
// {{ name | title }}
pub struct {{ name | pascal }};
";

fn pairs(items: &[(&str, &str)]) -> Vec<(String, String)> {
    items.iter().map(|(a, b)| (a.to_string(), b.to_string())).collect()
}

#[test]
fn frontmatter_and_body_are_separated() {
    let doc = parse(SERVICE).expect("a template");
    assert_eq!(doc.to, "src/{{ name | snake }}.rs");
    assert_eq!(doc.vars, pairs(&[("name", "hello_world"), ("author", "Jane Doe")]));
    assert_eq!(doc.required, vec!["license"]);
    assert_eq!(
        doc.prefixes,
        pairs(&[
            ("ex", "http://example.org/"),
            ("rdf", "http://www.w3.org/1999/02/22-rdf-syntax-ns#"),
        ])
    );
    assert_eq!(
        doc.sparql,
        pairs(&[
            ("find_entities", "SELECT ?entity WHERE { ?entity a ex:Entity }"),
            ("find_properties", "SELECT ?p WHERE { ?p a ex:Property }"),
        ])
    );
    assert_eq!(doc.body, "// {{ name | title }}\npub struct {{ name | pascal }};\n");
}

#[test]
fn body_is_kept_verbatim() {
    let doc = parse("---\nto: out\n---\n  a\n\n---\n\tb  ").expect("a template");
    assert_eq!(doc.body, "  a\n\n---\n\tb  ");
    let none = parse("---\nto: out\n---").expect("a template");
    assert_eq!(none.body, "");
    let empty = parse("---\nto: out\n---\n").expect("a template");
    assert_eq!(empty.body, "");
}

#[test]
fn missing_output_target_is_fatal() {
    let text = "---\nvars:\n  name: x\n---\nbody\n";
    assert!(matches!(parse(text), Err(ParseError::MissingOutputTarget)));
    assert!(matches!(parse("---\n---\n"), Err(ParseError::MissingOutputTarget)));
}

#[test]
fn unknown_directive_is_fatal() {
    let text = "---\nto: out\nsparkl:\n  q: SELECT ?x WHERE { ?x a ?y }\n---\n";
    match parse(text) {
        Err(ParseError::UnknownDirective(name)) => assert_eq!(name, "sparkl"),
        other => panic!("expected an unknown directive, got {:?}", other),
    }
    let before_missing_to = "---\nrdf: data.ttl\n---\n";
    assert!(matches!(parse(before_missing_to), Err(ParseError::UnknownDirective(_))));
}

#[test]
fn frontmatter_delimiters_are_required() {
    assert!(matches!(parse("to: out\n---\n"), Err(ParseError::MissingFrontmatter)));
    assert!(matches!(parse(""), Err(ParseError::MissingFrontmatter)));
    assert!(matches!(parse("---\nto: out\nbody"), Err(ParseError::UnterminatedFrontmatter)));
    assert!(parse("  ---  \r\nto: out\r\n--- \r\nbody").is_ok());
}

#[test]
fn malformed_frontmatter_lines_are_reported_with_their_number() {
    let cases = [
        ("---\nto: out\n  stray: entry\n---\n", 3),
        ("---\nto:\n---\n", 2),
        ("---\nto: out\nvars: inline\n---\n", 3),
        ("---\nto: out\nvars:\n  no colon here\n---\n", 4),
        ("---\nto: out\nprefixes:\n  ex:\n---\n", 4),
        ("---\nto: out\nsparql:\n  q:\n---\n", 4),
        ("---\nto: out\nvars:\n  : value\n---\n", 4),
    ];
    for (text, expected) in cases {
        match parse(text) {
            Err(ParseError::MalformedFrontmatter { line }) => assert_eq!(line, expected, "{text}"),
            other => panic!("expected a malformed line, got {:?}", other),
        }
    }
}

#[test]
fn comments_and_blank_lines_are_passed_over_and_later_entries_replace_earlier() {
    let text = "---\n# header\n\nto: first\nvars:\n  a: 1\n  b: 2\n  # note\n  a: 3\nto: second\n---\n";
    let doc = parse(text).expect("a template");
    assert_eq!(doc.to, "second");
    assert_eq!(doc.vars, pairs(&[("a", "3"), ("b", "2")]));
}
