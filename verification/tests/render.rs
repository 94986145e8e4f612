use ggen_engine::query::{evaluate, parse_query, Query, QueryError, ResultSet};
use ggen_engine::render::{
    render, sparql_column, sparql_count, sparql_empty, sparql_first, sparql_row, sparql_values,
    RenderError,
};
use ggen_engine::store::{Store, Triple};
use ggen_engine::template::parse;

const DOMAIN: &str = "\
@prefix ex: <http://e/> .
ex:User a ex:Entity .
ex:User ex:hasProperty ex:userId .
ex:User ex:hasRelationship ex:orders .
ex:Order a ex:Entity .
ex:Order ex:hasProperty ex:orderId .
ex:Order ex:hasRelationship ex:owner .
ex:userId a ex:Property .
ex:userId ex:dataType \"string\" .
ex:orderId a ex:Property .
ex:orderId ex:dataType \"integer\" .
";

fn store() -> Store {
    Store::load(DOMAIN).expect("a valid description")
}

fn vars(items: &[(&str, &str)]) -> Vec<(String, String)> {
    items.iter().map(|(a, b)| (a.to_string(), b.to_string())).collect()
}

fn render_body(body: &str, external: &[(&str, &str)]) -> Result<String, RenderError> {
    let text = format!(
        "---\nto: out/{{{{ name | kebab }}}}.txt\nvars:\n  name: hello_world\nsparql:\n  entities: SELECT ?e WHERE {{ ?e a ex:Entity }}\n  types: SELECT ?p ?t WHERE {{ ?p ex:dataType ?t }}\n  tables: SELECT ?t WHERE {{ ?t a ex:Table }}\n---\n{body}"
    );
    let doc = parse(&text).expect("a template");
    render(&doc, &store(), &vars(external)).map(|o| o.body)
}

#[test]
fn case_filters_round_trip() {
    assert_eq!(render_body("{{ name | pascal }}", &[]).unwrap(), "HelloWorld");
    assert_eq!(render_body("{{ name | kebab }}", &[]).unwrap(), "hello-world");
    assert_eq!(render_body("{{ name | snake }}", &[]).unwrap(), "hello_world");
    assert_eq!(render_body("{{ name | camel }}", &[]).unwrap(), "helloWorld");
    assert_eq!(render_body("{{ name | title }}", &[]).unwrap(), "Hello World");
    assert_eq!(render_body("{{ name | upper }}", &[]).unwrap(), "HELLO_WORLD");
    assert_eq!(render_body("{{ name | lower }}", &[]).unwrap(), "hello_world");
}

#[test]
fn filters_compose_left_to_right() {
    assert_eq!(render_body("{{ name | pascal | snake | upper }}", &[]).unwrap(), "HELLO_WORLD");
    assert_eq!(render_body("{{name|title|kebab}}", &[]).unwrap(), "hello-world");
}

#[test]
fn output_path_is_an_expression_and_overrides_win() {
    let doc = parse("---\nto: src/{{ name | snake }}.rs\nvars:\n  name: a\n---\n{{ name }}!")
        .expect("a template");
    let out = render(&doc, &store(), &vars(&[("name", "UserProfile")])).expect("rendered");
    assert_eq!(out.output_path, "src/user_profile.rs");
    assert_eq!(out.body, "UserProfile!");
    let by_default = render(&doc, &store(), &vars(&[])).expect("rendered");
    assert_eq!(by_default.output_path, "src/a.rs");
}

#[test]
fn text_around_expressions_is_kept() {
    assert_eq!(
        render_body("a {{ name }} b {{ name | upper }}\n{ x } }} {", &[("name", "n")]).unwrap(),
        "a n b N\n{ x } }} {"
    );
    assert_eq!(render_body("", &[]).unwrap(), "");
}

#[test]
fn helpers_inspect_results() {
    assert_eq!(render_body("{{ sparql_count(entities) }}", &[]).unwrap(), "2");
    assert_eq!(render_body("{{ sparql_empty(entities) }}", &[]).unwrap(), "false");
    assert_eq!(render_body("{{ sparql_first(entities) }}", &[]).unwrap(), "http://e/User");
    assert_eq!(
        render_body("{{ sparql_values(entities, e) }}", &[]).unwrap(),
        "http://e/User, http://e/Order"
    );
    assert_eq!(
        render_body("{{ sparql_column(types, ?t) | upper }}", &[]).unwrap(),
        "STRING, INTEGER"
    );
    assert_eq!(
        render_body("{{ sparql_row(types, 1) }}", &[]).unwrap(),
        "http://e/orderId, integer"
    );
    assert_eq!(render_body("{{ sparql_values(entities, nothing) }}", &[]).unwrap(), "");
}

#[test]
fn empty_result_set_is_not_an_absent_query() {
    assert_eq!(render_body("{{ sparql_count(tables) }}", &[]).unwrap(), "0");
    assert_eq!(render_body("{{ sparql_empty(tables) }}", &[]).unwrap(), "true");
    assert_eq!(render_body("{{ sparql_first(tables) }}", &[]).unwrap(), "");
    match render_body("{{ sparql_row(tables, 0) }}", &[]) {
        Err(RenderError::RowIndexOutOfRange { query, index }) => {
            assert_eq!(query, "tables");
            assert_eq!(index, "0");
        }
        other => panic!("expected a row index out of range, got {:?}", other),
    }
    match render_body("{{ sparql_count(absent) }}", &[]) {
        Err(RenderError::UnknownQuery(name)) => assert_eq!(name, "absent"),
        other => panic!("expected an unknown query, got {:?}", other),
    }
}

#[test]
fn row_index_at_or_beyond_the_rows_is_out_of_range() {
    assert!(render_body("{{ sparql_row(entities, 1) }}", &[]).is_ok());
    for index in ["2", "99999999999999999999999999"] {
        match render_body(&format!("{{{{ sparql_row(entities, {index}) }}}}"), &[]) {
            Err(RenderError::RowIndexOutOfRange { query, index: at }) => {
                assert_eq!(query, "entities");
                assert_eq!(at, index);
            }
            other => panic!("expected a row index out of range, got {:?}", other),
        }
    }
}

#[test]
fn unknown_filter_is_an_error() {
    match render_body("{{ name | pascal | shout }}", &[]) {
        Err(RenderError::UnknownFilter(name)) => assert_eq!(name, "shout"),
        other => panic!("expected an unknown filter, got {:?}", other),
    }
}

#[test]
fn missing_variable_is_an_error() {
    match render_body("{{ nobody }}", &[]) {
        Err(RenderError::MissingVariable(name)) => assert_eq!(name, "nobody"),
        other => panic!("expected a missing variable, got {:?}", other),
    }
    let doc = parse("---\nto: out\nvars:\n  a: 1\n  b:\n  c:\n---\nno expressions")
        .expect("a template");
    match render(&doc, &store(), &vars(&[("c", "x")])) {
        Err(RenderError::MissingVariable(name)) => assert_eq!(name, "b"),
        other => panic!("expected a missing variable, got {:?}", other),
    }
    assert!(render(&doc, &store(), &vars(&[("c", "x"), ("b", "")])).is_ok());
}

#[test]
fn malformed_expressions_are_errors() {
    for body in ["{{ name", "a {{ }} b", "{{ sparql_row(entities, x) }}",
        "{{ sparql_count(entities, e) }}", "{{ other(entities) }}"]
    {
        assert!(
            matches!(render_body(body, &[]), Err(RenderError::MalformedExpression(_))),
            "{body}"
        );
    }
    assert!(matches!(
        render_body("{{ sparql_count() }}", &[]),
        Err(RenderError::UnknownQuery(name)) if name.is_empty()
    ));
    match render_body("x {{ name", &[]) {
        Err(RenderError::MalformedExpression(text)) => assert_eq!(text, "{{ name"),
        other => panic!("expected a malformed expression, got {:?}", other),
    }
}

#[test]
fn query_faults_fail_the_rendering() {
    let bad = parse("---\nto: out\nsparql:\n  q: SELECT WHERE { ?x a ?y }\n---\n").unwrap();
    match render(&bad, &store(), &vars(&[])) {
        Err(RenderError::MalformedQuery(name)) => assert_eq!(name, "q"),
        other => panic!("expected a malformed query, got {:?}", other),
    }
    let unbound = parse("---\nto: out\nsparql:\n  q: SELECT ?x ?z WHERE { ?x a ?y }\n---\n").unwrap();
    match render(&unbound, &store(), &vars(&[])) {
        Err(RenderError::UnboundVariable { query, variable }) => {
            assert_eq!(query, "q");
            assert_eq!(variable, "z");
        }
        other => panic!("expected an unbound variable, got {:?}", other),
    }
    let undeclared = parse("---\nto: out\nsparql:\n  q: SELECT ?x WHERE { ?x a zz:T }\n---\n").unwrap();
    assert!(matches!(
        render(&undeclared, &store(), &vars(&[])),
        Err(RenderError::MalformedQuery(_))
    ));
}

#[test]
fn template_prefixes_shadow_the_store_prefixes() {
    let text = "---\nto: out\nprefixes:\n  ex: http://other/\n  mine: http://e/\nsparql:\n  a: SELECT ?x WHERE { ?x a ex:Entity }\n  b: SELECT ?x WHERE { ?x a mine:Entity . }\n---\n{{ sparql_count(a) }}/{{ sparql_count(b) }}";
    let doc = parse(text).expect("a template");
    assert_eq!(render(&doc, &store(), &vars(&[])).unwrap().body, "0/2");
}

#[test]
fn rendering_is_repeatable_and_leaves_the_store_alone() {
    let s = store();
    let doc = parse("---\nto: o\nsparql:\n  q: SELECT ?s ?o WHERE { ?s ex:hasProperty ?o }\n---\n{{ sparql_values(q, o) }}").unwrap();
    let first = render(&doc, &s, &vars(&[])).unwrap();
    let second = render(&doc, &s, &vars(&[])).unwrap();
    assert_eq!(first.body, "http://e/userId, http://e/orderId");
    assert_eq!(first.body, second.body);
    assert_eq!(first.output_path, second.output_path);
    assert_eq!(s.triples().len(), 10);
}

fn result_set(rows: &[&[(&str, &str)]]) -> ResultSet {
    ResultSet { name: "found".to_string(), rows: rows.iter().map(|r| vars(r)).collect() }
}

#[test]
fn helper_functions_on_an_empty_result_set() {
    let empty = result_set(&[]);
    assert_eq!(sparql_count(&empty), 0);
    assert!(sparql_empty(&empty));
    assert!(sparql_first(&empty).is_none());
    assert!(sparql_values(&empty, "x").is_empty());
    match sparql_row(&empty, 0) {
        Err(RenderError::RowIndexOutOfRange { query, index }) => {
            assert_eq!(query, "found");
            assert_eq!(index, "0");
        }
        other => panic!("expected a row index out of range, got {:?}", other),
    }
}

#[test]
fn helper_functions_on_rows() {
    let rs = result_set(&[
        &[("x", "http://e/a"), ("y", "\"one\"")],
        &[("x", "http://e/b")],
        &[("x", "http://e/c"), ("y", "\"three\"")],
    ]);
    assert_eq!(sparql_count(&rs), 3);
    assert!(!sparql_empty(&rs));
    assert_eq!(sparql_first(&rs), Some(&vars(&[("x", "http://e/a"), ("y", "\"one\"")])));
    assert_eq!(sparql_values(&rs, "y"), vec!["one", "three"]);
    assert_eq!(sparql_column(&rs, "?x"), vec!["http://e/a", "http://e/b", "http://e/c"]);
    assert_eq!(sparql_row(&rs, 2).unwrap(), &vars(&[("x", "http://e/c"), ("y", "\"three\"")]));
    match sparql_row(&rs, 12) {
        Err(RenderError::RowIndexOutOfRange { index, .. }) => assert_eq!(index, "12"),
        other => panic!("expected a row index out of range, got {:?}", other),
    }
}

fn read(text: &str) -> Result<Query, QueryError> {
    let s = store();
    parse_query("q", text, s.prefixes(), s.base())
}

fn triple(t: &Triple) -> (String, String, String) {
    (t.subject.clone(), t.predicate.clone(), t.object.clone())
}

#[test]
fn query_text_is_read_into_patterns() {
    let q = read("SELECT ?e ?p WHERE { ?e a ex:Entity . ?e ex:hasProperty ?p . }").unwrap();
    assert_eq!(q.name, "q");
    assert_eq!(q.projected, vec!["e", "p"]);
    let patterns: Vec<_> = q.patterns.iter().map(triple).collect();
    assert_eq!(
        patterns,
        vec![
            (
                "?e".to_string(),
                "http://www.w3.org/1999/02/22-rdf-syntax-ns#type".to_string(),
                "http://e/Entity".to_string()
            ),
            ("?e".to_string(), "http://e/hasProperty".to_string(), "?p".to_string()),
        ]
    );
    let tight = read("SELECT ?x WHERE {?x <http://e/dataType> \"a b\"}").unwrap();
    assert_eq!(
        triple(&tight.patterns[0]),
        ("?x".to_string(), "http://e/dataType".to_string(), "\"a b\"".to_string())
    );
    assert_eq!(evaluate(&store(), &q).unwrap().rows.len(), 2);
}

#[test]
fn text_that_is_no_query_is_malformed() {
    for text in [
        "",
        "SELECT ?x",
        "SELECT WHERE { ?x a ?y }",
        "select ?x where { ?x a ?y }",
        "SELECT x WHERE { ?x a ?y }",
        "SELECT ?x WHERE ?x a ?y",
        "SELECT ?x WHERE { ?x a }",
        "SELECT ?x WHERE { ?x a ?y ?z }",
        "SELECT ?x WHERE { ?x a ?y ?x a ?z }",
        "SELECT ?x WHERE { ?x a nope:T }",
        "SELECT ?x WHERE { ?x a ?y } extra",
        "SELECT ? WHERE { ?x a ?y }",
    ] {
        match read(text) {
            Err(QueryError::MalformedPattern(t)) => assert_eq!(t, text),
            other => panic!("expected a malformed pattern for {text:?}, got {:?}", other),
        }
    }
    assert!(read("SELECT ?x WHERE { }").unwrap().patterns.is_empty());
}

#[test]
fn queries_may_be_named_through_the_results_table() {
    assert_eq!(render_body("{{ sparql_count(sparql_results.entities) }}", &[]).unwrap(), "2");
    assert_eq!(
        render_body("{{ sparql_first(results=sparql_results.entities) }}", &[]).unwrap(),
        "http://e/User"
    );
    assert_eq!(
        render_body("{{ sparql_values( results = sparql_results.types , ?t ) }}", &[]).unwrap(),
        "string, integer"
    );
    match render_body("{{ sparql_empty(results=sparql_results.absent) }}", &[]) {
        Err(RenderError::UnknownQuery(name)) => assert_eq!(name, "absent"),
        other => panic!("expected an unknown query, got {:?}", other),
    }
    match render_body("{{ sparql_row(sparql_results.tables, 3) }}", &[]) {
        Err(RenderError::RowIndexOutOfRange { query, index }) => {
            assert_eq!(query, "tables");
            assert_eq!(index, "3");
        }
        other => panic!("expected a row index out of range, got {:?}", other),
    }
}
