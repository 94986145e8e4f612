use ggen_engine::query::{evaluate, Query, QueryError};
use ggen_engine::store::{Store, Triple};

const RDF_TYPE: &str = "http://www.w3.org/1999/02/22-rdf-syntax-ns#type";

fn store() -> Store {
    Store::load(
        "\
@prefix ex: <http://e/> .
ex:User a ex:Entity .
ex:User ex:hasProperty ex:userId .
ex:User ex:hasProperty ex:email .
ex:User ex:hasRelationship ex:orders .
ex:Order a ex:Entity .
ex:Order ex:hasProperty ex:orderId .
ex:Order ex:hasRelationship ex:owner .
ex:userId a ex:Property .
ex:userId ex:dataType \"string\" .
ex:email a ex:Property .
ex:email ex:dataType \"string\" .
ex:orderId a ex:Property .
ex:orderId ex:dataType \"integer\" .
",
    )
    .expect("a valid description")
}

fn pattern(s: &str, p: &str, o: &str) -> Triple {
    Triple { subject: s.to_string(), predicate: p.to_string(), object: o.to_string() }
}

fn query(patterns: Vec<Triple>, projected: &[&str]) -> Query {
    Query {
        name: "q".to_string(),
        patterns,
        projected: projected.iter().map(|v| v.to_string()).collect(),
    }
}

fn rows(store: &Store, q: &Query) -> Vec<Vec<(String, String)>> {
    evaluate(store, q).expect("an answer").rows
}

fn row(pairs: &[(&str, &str)]) -> Vec<(String, String)> {
    pairs.iter().map(|(k, v)| (k.to_string(), v.to_string())).collect()
}

#[test]
fn single_pattern_finds_typed_subjects_in_load_order() {
    let q = query(vec![pattern("?entity", RDF_TYPE, "http://e/Entity")], &["entity"]);
    assert_eq!(
        rows(&store(), &q),
        vec![row(&[("entity", "http://e/User")]), row(&[("entity", "http://e/Order")])]
    );
}

#[test]
fn repeated_variable_joins_patterns() {
    let q = query(
        vec![
            pattern("?e", RDF_TYPE, "http://e/Entity"),
            pattern("?e", "http://e/hasProperty", "?p"),
            pattern("?p", "http://e/dataType", "?t"),
        ],
        &["t", "e", "p"],
    );
    assert_eq!(
        rows(&store(), &q),
        vec![
            row(&[("t", "\"string\""), ("e", "http://e/User"), ("p", "http://e/userId")]),
            row(&[("t", "\"string\""), ("e", "http://e/User"), ("p", "http://e/email")]),
            row(&[("t", "\"integer\""), ("e", "http://e/Order"), ("p", "http://e/orderId")]),
        ]
    );
}

#[test]
fn evaluation_is_repeatable() {
    let s = store();
    let q = query(vec![pattern("?s", "?p", "?o")], &["s", "p", "o"]);
    let first = rows(&s, &q);
    assert_eq!(first.len(), 13);
    assert_eq!(first, rows(&s, &q));
    assert_eq!(first, rows(&store(), &q));
}

#[test]
fn variable_repeated_within_a_pattern_must_agree() {
    let s = Store::load("<urn:a> <urn:p> <urn:a> .\n<urn:a> <urn:p> <urn:b> .\n").unwrap();
    let q = query(vec![pattern("?x", "urn:p", "?x")], &["x"]);
    assert_eq!(rows(&s, &q), vec![row(&[("x", "urn:a")])]);
}

#[test]
fn no_match_gives_an_empty_result_set() {
    let q = query(vec![pattern("?x", RDF_TYPE, "http://e/Table")], &["x"]);
    assert!(rows(&store(), &q).is_empty());
}

#[test]
fn unbound_projected_variable_is_an_error() {
    let q = query(vec![pattern("?x", RDF_TYPE, "http://e/Entity")], &["x", "y", "z"]);
    match evaluate(&store(), &q) {
        Err(QueryError::UnboundVariable(name)) => assert_eq!(name, "y"),
        other => panic!("expected an unbound variable, got {:?}", other),
    }
    let empty = Store::load("").unwrap();
    assert!(matches!(evaluate(&empty, &q), Err(QueryError::UnboundVariable(_))));
}

#[test]
fn no_patterns_give_one_empty_row() {
    let q = query(vec![], &[]);
    assert_eq!(rows(&store(), &q), vec![row(&[])]);
}

#[test]
fn literals_match_only_themselves() {
    let q = query(vec![pattern("?p", "http://e/dataType", "\"integer\"")], &["p"]);
    assert_eq!(rows(&store(), &q), vec![row(&[("p", "http://e/orderId")])]);
}
