//! Greeting utilities: a configurable greeter and its validation.

use vstd::prelude::*;
use crate::text::push_decimal;
use crate::text::decimal;

verus! {

/// Whether a character has the Unicode `White_Space` property, as
/// `char::is_whitespace` reports it.
pub uninterp spec fn white_space(c: char) -> bool;

/// `char::is_whitespace`: tells whether the character has the Unicode
/// `White_Space` property. The answer depends on the character alone.
pub assume_specification[ char::is_whitespace ](c: char) -> (b: bool)
    ensures
        b == white_space(c),
;

/// A text is blank when it holds nothing but white space; the empty text
/// is blank.
pub open spec fn blank(s: Seq<char>) -> bool {
    forall|i: int| 0 <= i < s.len() ==> white_space(#[trigger] s[i])
}

/// `greeting name!`
pub open spec fn greeting_text(greeting: Seq<char>, name: Seq<char>) -> Seq<char> {
    greeting + seq![' '] + name + seq!['!']
}

/// `greeting name! (#k)` with `k` in decimal.
pub open spec fn numbered_greeting_text(greeting: Seq<char>, name: Seq<char>, k: nat) -> Seq<
    char,
> {
    greeting_text(greeting, name) + seq![' ', '(', '#'] + decimal(k) + seq![')']
}

/// Why a greeting configuration is refused.
#[derive(Debug, Clone, Copy, PartialEq, Eq, Structural)]
pub enum ConfigError {
    /// The greeting is blank.
    EmptyGreeting,
    /// The name is blank.
    EmptyName,
    /// A greeter's repeat count is zero.
    ZeroRepeatCount,
    /// The count given to the free validation function is zero.
    ZeroCount,
}

impl ConfigError {
    /// The text of the error.
    pub fn message(&self) -> (out: String)
        ensures
            out@ == match *self {
                ConfigError::EmptyGreeting => "Greeting cannot be empty"@,
                ConfigError::EmptyName => "Name cannot be empty"@,
                ConfigError::ZeroRepeatCount => "Repeat count must be greater than 0"@,
                ConfigError::ZeroCount => "Count must be greater than 0"@,
            },
    {
        match self {
            ConfigError::EmptyGreeting => "Greeting cannot be empty".to_owned(),
            ConfigError::EmptyName => "Name cannot be empty".to_owned(),
            ConfigError::ZeroRepeatCount => "Repeat count must be greater than 0".to_owned(),
            ConfigError::ZeroCount => "Count must be greater than 0".to_owned(),
        }
    }
}

/// Whether a string slice is blank.
pub fn is_blank(s: &str) -> (b: bool)
    ensures
        b == blank(s@),
{
    for c in it: s.chars()
        invariant
            it.seq() == s@,
            forall|i: int| 0 <= i < it.index() ==> white_space(#[trigger] s@[i]),
    {
        if !c.is_whitespace() {
            assert(!white_space(s@[it.index() as int]));
            return false;
        }
    }
    true
}

/// Create a greeting with custom configuration.
pub fn create_greeting(greeting: &str, name: &str) -> (out: String)
    ensures
        out@ == greeting_text(greeting@, name@),
{
    let mut out: String = String::from_str(greeting);
    out.push(' ');
    out.append(name);
    out.push('!');
    assert(out@ =~= greeting_text(greeting@, name@));
    out
}

/// The `k`-th numbered greeting.
pub fn create_numbered_greeting(greeting: &str, name: &str, k: usize) -> (out: String)
    ensures
        out@ == numbered_greeting_text(greeting@, name@, k as nat),
{
    let mut out: String = create_greeting(greeting, name);
    out.push(' ');
    out.push('(');
    out.push('#');
    push_decimal(&mut out, k);
    out.push(')');
    assert(out@ =~= numbered_greeting_text(greeting@, name@, k as nat));
    out
}

/// Create multiple greetings, numbered from one.
pub fn create_multiple_greetings(greeting: &str, name: &str, count: usize) -> (out: Vec<String>)
    ensures
        out@.len() == count,
        forall|i: int|
            0 <= i < count ==> (#[trigger] out@[i])@ == numbered_greeting_text(
                greeting@,
                name@,
                (i + 1) as nat,
            ),
{
    let mut out: Vec<String> = Vec::new();
    let mut i: usize = 0;
    while i < count
        invariant
            i <= count,
            out@.len() == i,
            forall|j: int|
                0 <= j < i ==> (#[trigger] out@[j])@ == numbered_greeting_text(
                    greeting@,
                    name@,
                    (j + 1) as nat,
                ),
        decreases count - i,
    {
        out.push(create_numbered_greeting(greeting, name, i + 1));
        i += 1;
    }
    out
}

/// The verdict on a greeting, a name and a count: the first fault in that
/// order, or none.
pub open spec fn config_verdict(
    greeting: Seq<char>,
    name: Seq<char>,
    count: nat,
    zero: ConfigError,
) -> Result<(), ConfigError> {
    if blank(greeting) {
        Err(ConfigError::EmptyGreeting)
    } else if blank(name) {
        Err(ConfigError::EmptyName)
    } else if count == 0 {
        Err(zero)
    } else {
        Ok(())
    }
}

/// Validate greeting configuration.
pub fn validate_greeting_config(greeting: &str, name: &str, count: usize) -> (out: Result<
    (),
    ConfigError,
>)
    ensures
        out == config_verdict(greeting@, name@, count as nat, ConfigError::ZeroCount),
{
    if is_blank(greeting) {
        return Err(ConfigError::EmptyGreeting);
    }
    if is_blank(name) {
        return Err(ConfigError::EmptyName);
    }
    if count == 0 {
        return Err(ConfigError::ZeroCount);
    }
    Ok(())
}

/// Configuration for the greeter.
#[derive(Debug, Clone)]
pub struct HelloConfig {
    pub greeting: String,
    pub name: String,
    pub repeat_count: usize,
}

impl Default for HelloConfig {
    fn default() -> (out: Self)
        ensures
            out.greeting@ == "Hello"@,
            out.name@ == "World"@,
            out.repeat_count == 1,
    {
        HelloConfig { greeting: "Hello".to_owned(), name: "World".to_owned(), repeat_count: 1 }
    }
}

/// The greeter.
pub struct HelloWorld {
    config: HelloConfig,
}

impl HelloWorld {
    /// The configuration this greeter was made with.
    pub closed spec fn config(&self) -> HelloConfig {
        self.config
    }

    /// Create a new greeter.
    pub fn new(config: HelloConfig) -> (out: Self)
        ensures
            out.config() == config,
    {
        HelloWorld { config }
    }

    /// The configuration this greeter was made with.
    pub fn configuration(&self) -> (out: &HelloConfig)
        ensures
            *out == self.config(),
    {
        &self.config
    }

    /// Generate the greeting.
    pub fn greet(&self) -> (out: String)
        ensures
            out@ == greeting_text(self.config().greeting@, self.config().name@),
    {
        create_greeting(self.config.greeting.as_str(), self.config.name.as_str())
    }

    /// Generate `repeat_count` greetings, numbered from one.
    pub fn greet_many(&self) -> (out: Vec<String>)
        ensures
            out@.len() == self.config().repeat_count,
            forall|i: int|
                0 <= i < self.config().repeat_count ==> (#[trigger] out@[i])@
                    == numbered_greeting_text(
                    self.config().greeting@,
                    self.config().name@,
                    (i + 1) as nat,
                ),
    {
        create_multiple_greetings(
            self.config.greeting.as_str(),
            self.config.name.as_str(),
            self.config.repeat_count,
        )
    }

    /// Validate the configuration.
    pub fn validate_config(&self) -> (out: Result<(), ConfigError>)
        ensures
            out == config_verdict(
                self.config().greeting@,
                self.config().name@,
                self.config().repeat_count as nat,
                ConfigError::ZeroRepeatCount,
            ),
    {
        if is_blank(self.config.greeting.as_str()) {
            return Err(ConfigError::EmptyGreeting);
        }
        if is_blank(self.config.name.as_str()) {
            return Err(ConfigError::EmptyName);
        }
        if self.config.repeat_count == 0 {
            return Err(ConfigError::ZeroRepeatCount);
        }
        Ok(())
    }
}

impl Default for HelloWorld {
    fn default() -> (out: Self)
        ensures
            out.config().greeting@ == "Hello"@,
            out.config().name@ == "World"@,
            out.config().repeat_count == 1,
    {
        HelloWorld::new(HelloConfig::default())
    }
}

} // verus!
