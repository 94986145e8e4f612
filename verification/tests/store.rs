use ggen_engine::store::{LoadError, Store};

const DOMAIN: &str = "\
@prefix ex: <http://example.org/advanced-rust-project/> .
@prefix xsd: <http://www.w3.org/2001/XMLSchema#> .
@base <http://example.org/advanced-rust-project/> .

# entities
ex:User a ex:Entity .
ex:User ex:hasProperty ex:userId .
ex:User ex:hasProperty ex:email .
ex:User ex:hasRelationship ex:hasOrders .
ex:userId a ex:Property .
ex:userId ex:dataType \"string\" .
ex:email a ex:Property .
ex:email ex:dataType \"string with spaces\" .
ex:hasOrders a ex:Relationship .
ex:hasOrders ex:targetEntity <Order> .
";

fn facts(store: &Store) -> Vec<(String, String, String)> {
    store
        .triples()
        .iter()
        .map(|t| (t.subject.clone(), t.predicate.clone(), t.object.clone()))
        .collect()
}

const NS: &str = "http://example.org/advanced-rust-project/";
const RDF_TYPE: &str = "http://www.w3.org/1999/02/22-rdf-syntax-ns#type";

#[test]
fn load_keeps_facts_in_load_order_with_terms_written_out() {
    let store = Store::load(DOMAIN).expect("a valid description");
    let all = facts(&store);
    assert_eq!(all.len(), 10);
    assert_eq!(
        all[0],
        (format!("{NS}User"), RDF_TYPE.to_string(), format!("{NS}Entity"))
    );
    assert_eq!(
        all[1],
        (format!("{NS}User"), format!("{NS}hasProperty"), format!("{NS}userId"))
    );
    assert_eq!(all[5].2, "\"string\"");
    assert_eq!(all[7].2, "\"string with spaces\"");
    assert_eq!(all[9].2, format!("{NS}Order"));
    assert_eq!(store.base(), NS);
    assert_eq!(
        store.prefixes(),
        &vec![
            ("ex".to_string(), NS.to_string()),
            ("xsd".to_string(), "http://www.w3.org/2001/XMLSchema#".to_string()),
        ]
    );
}

#[test]
fn entity_without_relationship_is_refused() {
    let text = "\
@prefix ex: <http://example.org/> .
ex:User a ex:Entity .
ex:User ex:hasProperty ex:userId .
";
    match Store::load(text) {
        Err(LoadError::MissingRequiredPredicate { subject, expected_predicate }) => {
            assert_eq!(subject, "http://example.org/User");
            assert_eq!(expected_predicate, "http://example.org/hasRelationship");
        }
        other => panic!("expected a missing predicate, got {:?}", other.map(|s| facts(&s))),
    }
}

#[test]
fn the_first_missing_companion_is_reported() {
    let text = "\
@prefix ex: <http://example.org/> .
ex:T a ex:Table .
ex:T ex:hasColumn ex:C .
ex:C a ex:Column .
ex:E a ex:Endpoint .
ex:E ex:method \"GET\" .
";
    match Store::load(text) {
        Err(LoadError::MissingRequiredPredicate { subject, expected_predicate }) => {
            assert_eq!(subject, "http://example.org/C");
            assert_eq!(expected_predicate, "http://example.org/columnType");
        }
        other => panic!("expected a missing predicate, got {:?}", other.map(|s| facts(&s))),
    }
}

#[test]
fn property_needs_exactly_one_data_type_literal() {
    let none = "@prefix ex: <http://e/> .\nex:p a ex:Property .\n";
    let iri_only = "@prefix ex: <http://e/> .\nex:p a ex:Property .\nex:p ex:dataType ex:string .\n";
    let two = "@prefix ex: <http://e/> .\nex:p a ex:Property .\nex:p ex:dataType \"a\" .\nex:p ex:dataType \"b\" .\n";
    let one = "@prefix ex: <http://e/> .\nex:p a ex:Property .\nex:p ex:dataType \"a\" .\n";
    for text in [none, iri_only, two] {
        match Store::load(text) {
            Err(LoadError::MissingRequiredPredicate { subject, expected_predicate }) => {
                assert_eq!(subject, "http://e/p");
                assert_eq!(expected_predicate, "http://e/dataType");
            }
            other => panic!("expected a missing predicate, got {:?}", other.map(|s| facts(&s))),
        }
    }
    assert!(Store::load(one).is_ok());
}

#[test]
fn each_category_has_its_companions() {
    let ok = "\
@prefix ex: <http://e/> .
ex:api a ex:APIEndpoint .
ex:api ex:hasEndpoint ex:get .
ex:get a ex:Endpoint .
ex:get ex:method \"GET\" .
ex:get ex:path \"/users\" .
ex:t a ex:Table .
ex:t ex:hasColumn ex:c .
ex:c a ex:Column .
ex:c ex:columnType \"text\" .
ex:r a ex:Relationship .
ex:r ex:targetEntity ex:User .
";
    assert!(Store::load(ok).is_ok());
    let cases = [
        ("ex:x a ex:APIEndpoint .", "hasEndpoint"),
        ("ex:x a ex:Endpoint .", "method"),
        ("ex:x a ex:Endpoint .\nex:x ex:method \"GET\" .", "path"),
        ("ex:x a ex:Table .", "hasColumn"),
        ("ex:x a ex:Column .", "columnType"),
        ("ex:x a ex:Relationship .", "targetEntity"),
        ("ex:x a ex:Entity .", "hasProperty"),
    ];
    for (body, expected) in cases {
        let text = format!("@prefix ex: <http://e/> .\n{body}\n");
        match Store::load(&text) {
            Err(LoadError::MissingRequiredPredicate { subject, expected_predicate }) => {
                assert_eq!(subject, "http://e/x");
                assert_eq!(expected_predicate, format!("http://e/{expected}"));
            }
            other => panic!("expected a missing predicate, got {:?}", other.map(|s| facts(&s))),
        }
    }
}

#[test]
fn prefix_must_be_declared_before_use() {
    let text = "ex:User a ex:Entity .\n@prefix ex: <http://example.org/> .\n";
    match Store::load(text) {
        Err(LoadError::UnresolvedPrefix { prefix, line }) => {
            assert_eq!(prefix, "ex");
            assert_eq!(line, 1);
        }
        other => panic!("expected an unresolved prefix, got {:?}", other.map(|s| facts(&s))),
    }
}

#[test]
fn malformed_lines_are_reported_with_their_number() {
    let cases = [
        ("@prefix ex: <http://e/> .\nex:a ex:b .\n", 2),
        ("@prefix ex <http://e/> .\n", 1),
        ("@base http://e/ .\n", 1),
        ("\n\n<http://e/a> <http://e/b> \"unterminated .\n", 3),
        ("<http://e/a> <http://e/b> <http://e/c>\n", 1),
        ("\"lit\" <http://e/b> <http://e/c> .\n", 1),
        ("<http://e/a> \"lit\" <http://e/c> .\n", 1),
        ("<http://e/a> <http://e/b> ?x .\n", 1),
        ("<http://e/a> <http://e/b> plain .\n", 1),
        ("<a> <http://e/b> <http://e/c> .\n@base <http://base/> .\n", 1),
        ("@base <> .\n<http://e/a> <http://e/b> <c> .\n", 2),
    ];
    for (text, expected) in cases {
        match Store::load(text) {
            Err(LoadError::MalformedTriple { line }) => assert_eq!(line, expected, "{text}"),
            other => panic!("expected a malformed line, got {:?}", other.map(|s| facts(&s))),
        }
    }
}

#[test]
fn longest_declared_prefix_wins() {
    let text = "\
@prefix a: <http://short/> .
@prefix a:b: <http://long/> .
a:b:c <http://e/p> a:x .
";
    let store = Store::load(text).expect("a valid description");
    let all = facts(&store);
    assert_eq!(all[0].0, "http://long/c");
    assert_eq!(all[0].2, "http://short/x");
}

#[test]
fn later_declaration_replaces_a_prefix_in_place() {
    let text = "\
@prefix a: <http://one/> .
@prefix b: <http://b/> .
a:x a:p a:y .
@prefix a: <http://two/> .
a:x a:p a:y.
";
    let store = Store::load(text).expect("a valid description");
    let all = facts(&store);
    assert_eq!(all[0].0, "http://one/x");
    assert_eq!(all[1].0, "http://two/x");
    assert_eq!(all[1].2, "http://two/y");
    assert_eq!(store.prefixes()[0], ("a".to_string(), "http://two/".to_string()));
    assert_eq!(store.prefixes().len(), 2);
}

#[test]
fn relative_iris_take_the_base_and_empty_text_is_an_empty_store() {
    let store = Store::load("@base <http://base/> .\n<a> <b> <urn:c> .").expect("valid");
    assert_eq!(
        facts(&store),
        vec![("http://base/a".to_string(), "http://base/b".to_string(), "urn:c".to_string())]
    );
    let empty = Store::load("").expect("valid");
    assert!(empty.triples().is_empty());
    assert_eq!(empty.base(), "");
}

#[test]
fn without_the_vocabulary_prefix_nothing_is_checked() {
    let text = "@prefix v: <http://e/> .\nv:User a v:Entity .\n";
    assert!(Store::load(text).is_ok());
}

#[test]
fn candidates_are_filtered_by_predicate_and_object_in_load_order() {
    let store = Store::load(DOMAIN).expect("a valid description");
    let rdf_type = RDF_TYPE.to_string();
    let property = format!("{NS}Property");
    let typed: Vec<&str> = store
        .query_candidates(Some(&rdf_type), None)
        .iter()
        .map(|t| t.subject.as_str())
        .collect();
    assert_eq!(typed.len(), 4);
    assert!(typed[0].ends_with("User") && typed[3].ends_with("hasOrders"));
    let properties: Vec<String> = store
        .query_candidates(Some(&rdf_type), Some(&property))
        .iter()
        .map(|t| t.subject.clone())
        .collect();
    assert_eq!(properties, vec![format!("{NS}userId"), format!("{NS}email")]);
    let objects = store.query_candidates(None, Some(&"\"string\"".to_string()));
    assert_eq!(objects.len(), 1);
    assert_eq!(objects[0].subject, format!("{NS}userId"));
    assert_eq!(store.query_candidates(None, None).len(), 10);
    assert!(store.query_candidates(Some(&"urn:none".to_string()), None).is_empty());
}

#[test]
fn typed_subjects_are_a_view_over_the_facts() {
    let store = Store::load(DOMAIN).expect("a valid description");
    assert_eq!(store.subjects_typed(&format!("{NS}Entity")), vec![format!("{NS}User")]);
    assert_eq!(
        store.subjects_typed(&format!("{NS}Property")),
        vec![format!("{NS}userId"), format!("{NS}email")]
    );
    assert!(store.subjects_typed(&format!("{NS}Table")).is_empty());
}
