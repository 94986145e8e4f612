use ggen_engine::providers::{
    plan_embeddings, plan_provider, provider_kind, wants_embeddings, EmbeddingConfig,
    ProviderConfig, ProviderError, ProviderKind, ProviderPlan,
};
use ggen_engine::service::{
    collect_present, extract_variables, ontology_description, ontology_properties,
    CompletionPlan, ResponseCache,
};

#[test]
fn plain_variables_are_found_in_order() {
    assert_eq!(
        extract_variables("fn {{ name }}() -> {{type}} { {{  body_1 }} } {{ name }}"),
        vec!["name", "type", "body_1", "name"]
    );
}

#[test]
fn filtered_expressions_and_broken_braces_are_no_plain_variables() {
    assert!(extract_variables("{{ name | snake }} {{ two words }} { name } {{}}").is_empty());
    assert!(extract_variables("").is_empty());
    assert_eq!(extract_variables("{{{{ a }}}}"), vec!["a"]);
    assert_eq!(extract_variables("{{ caf\u{e9} }}"), vec!["caf\u{e9}"]);
}

#[test]
fn absent_groups_are_dropped() {
    assert_eq!(
        collect_present(vec![Some("a".to_string()), None, Some("b".to_string()), None]),
        vec!["a", "b"]
    );
    assert!(collect_present(vec![None]).is_empty());
}

#[test]
fn cache_answers_with_the_first_entry_for_a_prompt() {
    let mut cache = ResponseCache::new();
    assert!(matches!(cache.plan("hi"), CompletionPlan::AskModel));
    assert!(cache.find("hi").is_none());
    assert_eq!(cache.oldest(), None);
    assert_eq!(cache.newest(), None);
    cache.store("hi".to_string(), "hello".to_string(), 10);
    cache.store("bye".to_string(), "see you".to_string(), 20);
    cache.store("hi".to_string(), "again".to_string(), 30);
    assert_eq!(cache.len(), 3);
    match cache.plan("hi") {
        CompletionPlan::Cached(response) => assert_eq!(response, "hello"),
        CompletionPlan::AskModel => panic!("expected the cached answer"),
    }
    assert_eq!(cache.find("bye").map(|e| e.timestamp), Some(20));
    assert!(matches!(cache.plan("Hi"), CompletionPlan::AskModel));
    assert_eq!(cache.oldest(), Some(10));
    assert_eq!(cache.newest(), Some(30));
    assert_eq!(cache.clear(), 3);
    assert_eq!(cache.len(), 0);
    assert_eq!(cache.clear(), 0);
    assert!(matches!(cache.plan("hi"), CompletionPlan::AskModel));
}

#[test]
fn ontology_description_lists_the_concepts() {
    let concepts = vec!["User".to_string(), "Order".to_string(), "Product".to_string()];
    assert_eq!(
        ontology_description("shop", &concepts),
        "Domain: shop\nConcepts: User, Order, Product"
    );
    assert_eq!(ontology_description("", &Vec::new()), "Domain: \nConcepts: ");
    assert_eq!(ontology_properties(), vec!["hasProperty", "relatesTo"]);
}

fn provider(name: &str, key: Option<&str>, url: Option<&str>) -> ProviderConfig {
    ProviderConfig {
        name: name.to_string(),
        model: "m".to_string(),
        api_key: key.map(|k| k.to_string()),
        base_url: url.map(|u| u.to_string()),
        features: Vec::new(),
    }
}

#[test]
fn providers_are_known_by_name() {
    assert_eq!(provider_kind("openai"), Some(ProviderKind::OpenAi));
    assert_eq!(provider_kind("anthropic"), Some(ProviderKind::Anthropic));
    assert_eq!(provider_kind("cohere"), Some(ProviderKind::Cohere));
    assert_eq!(provider_kind("ollama"), Some(ProviderKind::Ollama));
    assert_eq!(provider_kind("deepseek"), Some(ProviderKind::Deepseek));
    assert_eq!(provider_kind("gemini"), Some(ProviderKind::Gemini));
    assert_eq!(provider_kind("OpenAI"), None);
    assert_eq!(provider_kind(""), None);
}

#[test]
fn provider_plans() {
    match plan_provider(&provider("anthropic", Some("SECRET-REDACTED"), None)) {
        Ok(ProviderPlan::Keyed { kind, api_key, model }) => {
            assert_eq!(kind, ProviderKind::Anthropic);
            assert_eq!(api_key, "SECRET-REDACTED");
            assert_eq!(model, "m");
        }
        other => panic!("expected a keyed plan, got {:?}", other),
    }
    match plan_provider(&provider("ollama", None, None)) {
        Ok(ProviderPlan::Local { base_url, model }) => {
            assert_eq!(base_url, "http://localhost:11434");
            assert_eq!(model, "m");
        }
        other => panic!("expected a local plan, got {:?}", other),
    }
    match plan_provider(&provider("ollama", None, Some("http://box:1"))) {
        Ok(ProviderPlan::Local { base_url, .. }) => assert_eq!(base_url, "http://box:1"),
        other => panic!("expected a local plan, got {:?}", other),
    }
    match plan_provider(&provider("mystery", None, None)) {
        Err(e @ ProviderError::UnknownProvider(_)) => {
            assert_eq!(e.message(), "Unknown provider: mystery")
        }
        other => panic!("expected an unknown provider, got {:?}", other),
    }
}

#[test]
fn embedding_config_names_its_model() {
    let embeddings = EmbeddingConfig {
        model: "text-embedding-ada-002".to_string(),
        provider: "openai".to_string(),
        api_key: None,
    };
    assert_eq!(embeddings.model, "text-embedding-ada-002");
    assert!(wants_embeddings(&embeddings));
}

#[test]
fn embedding_plans() {
    let none = EmbeddingConfig { model: String::new(), provider: "openai".to_string(), api_key: None };
    assert!(!wants_embeddings(&none));
    let cohere = EmbeddingConfig {
        model: "embed".to_string(),
        provider: "cohere".to_string(),
        api_key: Some("k".to_string()),
    };
    match plan_embeddings(&cohere) {
        Ok(ProviderPlan::Keyed { kind, api_key, model }) => {
            assert_eq!(kind, ProviderKind::Cohere);
            assert_eq!(api_key, "k");
            assert_eq!(model, "embed");
        }
        other => panic!("expected a keyed plan, got {:?}", other),
    }
    let unknown = EmbeddingConfig {
        model: "embed".to_string(),
        provider: "gemini".to_string(),
        api_key: None,
    };
    match plan_embeddings(&unknown) {
        Err(e @ ProviderError::UnknownEmbeddingProvider(_)) => {
            assert_eq!(e.message(), "Unknown embedding provider: gemini")
        }
        other => panic!("expected an unknown embedding provider, got {:?}", other),
    }
}
