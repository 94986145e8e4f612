use ggen_engine::filters::{apply_named, split_words, Filter};

fn run(filter: &str, input: &str) -> String {
    apply_named(filter, input).expect("a supported filter")
}

#[test]
fn filters_give_the_documented_cases() {
    let test_cases = [
        ("hello_world", "camel", "helloWorld"),
        ("hello_world", "pascal", "HelloWorld"),
        ("hello_world", "snake", "hello_world"),
        ("hello_world", "kebab", "hello-world"),
        ("hello_world", "title", "Hello World"),
        ("hello_world", "upper", "HELLO_WORLD"),
        ("hello_world", "lower", "hello_world"),
    ];
    for (input, filter, expected) in test_cases {
        assert_eq!(run(filter, input), expected);
    }
}

#[test]
fn words_are_cut_at_separators_and_case_changes() {
    let words = |s: &str| -> Vec<String> {
        split_words(&s.chars().collect())
            .iter()
            .map(|w| w.iter().collect())
            .collect()
    };
    assert_eq!(words("hello_world"), vec!["hello", "world"]);
    assert_eq!(words("helloWorld"), vec!["hello", "World"]);
    assert_eq!(words("__a--b  c"), vec!["a", "b", "c"]);
    assert_eq!(words("HTTPServer"), vec!["HTTPServer"]);
    assert_eq!(words("order2Item"), vec!["order2", "Item"]);
    assert!(words("").is_empty());
    assert!(words("_- ").is_empty());
}

#[test]
fn filters_on_mixed_input() {
    assert_eq!(run("snake", "HelloWorld"), "hello_world");
    assert_eq!(run("kebab", "helloWorld again"), "hello-world-again");
    assert_eq!(run("pascal", "user-profile_page"), "UserProfilePage");
    assert_eq!(run("camel", "User Profile"), "userProfile");
    assert_eq!(run("title", "userProfile"), "User Profile");
    assert_eq!(run("upper", "a-b c\u{e9}"), "A-B C\u{e9}");
    assert_eq!(run("lower", "A-B C\u{c9}"), "a-b c\u{c9}");
    assert_eq!(run("snake", ""), "");
    assert_eq!(run("pascal", "___"), "");
}

#[test]
fn unknown_filter_names_are_refused() {
    assert_eq!(apply_named("shout", "x"), None);
    assert_eq!(apply_named("", "x"), None);
    assert_eq!(apply_named("Snake", "x"), None);
    assert_eq!(Filter::from_name(&"kebab".chars().collect()), Some(Filter::Kebab));
}
