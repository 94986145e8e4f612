use ggen_engine::hello::{
    create_greeting, create_multiple_greetings, validate_greeting_config, ConfigError,
    HelloConfig, HelloWorld,
};

#[test]
fn test_default_greeting() {
    let hello = HelloWorld::default();
    assert_eq!(hello.greet(), "Hello World!");
}

#[test]
fn test_custom_greeting() {
    let config = HelloConfig {
        greeting: "Hi".to_string(),
        name: "Rust".to_string(),
        repeat_count: 1,
    };
    let hello = HelloWorld::new(config);
    assert_eq!(hello.greet(), "Hi Rust!");
}

#[test]
fn test_multiple_greetings() {
    let config = HelloConfig {
        greeting: "Hello".to_string(),
        name: "Test".to_string(),
        repeat_count: 3,
    };
    let hello = HelloWorld::new(config);
    let greetings = hello.greet_many();
    assert_eq!(greetings.len(), 3);
    assert_eq!(greetings[0], "Hello Test! (#1)");
    assert_eq!(greetings[1], "Hello Test! (#2)");
    assert_eq!(greetings[2], "Hello Test! (#3)");
}

#[test]
fn test_config_validation() {
    let config = HelloConfig {
        greeting: "Hello".to_string(),
        name: "World".to_string(),
        repeat_count: 1,
    };
    let hello = HelloWorld::new(config);
    assert!(hello.validate_config().is_ok());
}

#[test]
fn test_config_validation_empty_greeting() {
    let config = HelloConfig {
        greeting: "".to_string(),
        name: "World".to_string(),
        repeat_count: 1,
    };
    let hello = HelloWorld::new(config);
    assert!(hello.validate_config().is_err());
}

#[test]
fn test_config_validation_empty_name() {
    let config = HelloConfig {
        greeting: "Hello".to_string(),
        name: "".to_string(),
        repeat_count: 1,
    };
    let hello = HelloWorld::new(config);
    assert!(hello.validate_config().is_err());
}

#[test]
fn test_config_validation_zero_count() {
    let config = HelloConfig {
        greeting: "Hello".to_string(),
        name: "World".to_string(),
        repeat_count: 0,
    };
    let hello = HelloWorld::new(config);
    assert!(hello.validate_config().is_err());
}

#[test]
fn test_utils_create_greeting() {
    let greeting = create_greeting("Hi", "Rust");
    assert_eq!(greeting, "Hi Rust!");
}

#[test]
fn test_utils_create_multiple_greetings() {
    let greetings = create_multiple_greetings("Hello", "Test", 2);
    assert_eq!(greetings.len(), 2);
    assert_eq!(greetings[0], "Hello Test! (#1)");
    assert_eq!(greetings[1], "Hello Test! (#2)");
}

#[test]
fn test_utils_validate_greeting_config() {
    assert!(validate_greeting_config("Hello", "World", 1).is_ok());
    assert!(validate_greeting_config("", "World", 1).is_err());
    assert!(validate_greeting_config("Hello", "", 1).is_err());
    assert!(validate_greeting_config("Hello", "World", 0).is_err());
}

#[test]
fn validation_reports_the_first_fault() {
    assert_eq!(validate_greeting_config(" \t", "", 0), Err(ConfigError::EmptyGreeting));
    assert_eq!(validate_greeting_config("Hi", "\u{3000}\n", 0), Err(ConfigError::EmptyName));
    assert_eq!(validate_greeting_config("Hi", "x", 0), Err(ConfigError::ZeroCount));
    let hello = HelloWorld::new(HelloConfig {
        greeting: "Hi".to_string(),
        name: "x".to_string(),
        repeat_count: 0,
    });
    assert_eq!(hello.validate_config(), Err(ConfigError::ZeroRepeatCount));
    assert_eq!(validate_greeting_config(" a ", " b ", 1), Ok(()));
}

#[test]
fn error_messages() {
    assert_eq!(ConfigError::EmptyGreeting.message(), "Greeting cannot be empty");
    assert_eq!(ConfigError::EmptyName.message(), "Name cannot be empty");
    assert_eq!(ConfigError::ZeroRepeatCount.message(), "Repeat count must be greater than 0");
    assert_eq!(ConfigError::ZeroCount.message(), "Count must be greater than 0");
}

#[test]
fn numbered_greetings_use_decimal_numerals() {
    let greetings = create_multiple_greetings("A", "B", 12);
    assert_eq!(greetings[8], "A B! (#9)");
    assert_eq!(greetings[9], "A B! (#10)");
    assert_eq!(greetings[11], "A B! (#12)");
    assert!(create_multiple_greetings("A", "B", 0).is_empty());
}

#[test]
fn default_config_values() {
    let config = HelloConfig::default();
    assert_eq!(config.greeting, "Hello");
    assert_eq!(config.name, "World");
    assert_eq!(config.repeat_count, 1);
    assert_eq!(HelloWorld::default().greet_many(), vec!["Hello World! (#1)".to_string()]);
}
