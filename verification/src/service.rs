//! Pieces of a completion service that need no network: finding the
//! variables of a template text, the cache of earlier answers, and the
//! description handed to an ontology generator.

use vstd::prelude::*;
use crate::text::views;
use crate::text::chars_of;
use crate::text::string_of;
use crate::text::push_all;
use crate::filters::join;
use crate::filters::join_words;

verus! {

/// What the matches of a regular expression in a text give for the first
/// capture group: for each match, in order, the text that the group
/// matched, or `None` where the group took no part in the match. `None` as
/// a whole where the pattern is no regular expression.
pub uninterp spec fn first_group_matches(pattern: Seq<char>, text: Seq<char>) -> Option<
    Seq<Option<Seq<char>>>,
>;

/// The views of optional strings.
pub open spec fn option_views(items: Seq<Option<String>>) -> Seq<Option<Seq<char>>> {
    items.map_values(
        |g: Option<String>|
            match g {
                Some(s) => Some(s@),
                None => None,
            },
    )
}

/// `regex::Regex::new`, then `Regex::captures_iter` with `Captures::get(1)`
/// on each match. The result depends on the pattern and the text alone:
/// `None` where the pattern does not compile, else one entry for each
/// non-overlapping match, in order.
#[verifier::external_body]
fn capture_first_groups(pattern: &str, text: &str) -> (out: Option<Vec<Option<String>>>)
    ensures
        match first_group_matches(pattern@, text@) {
            Some(groups) => out.is_some() && option_views(out.unwrap()@) == groups,
            None => out.is_none(),
        },
{
    match regex::Regex::new(pattern) {
        Ok(re) => Some(
            re.captures_iter(text).map(|cap| cap.get(1).map(|m| m.as_str().to_string())).collect(),
        ),
        Err(_) => None,
    }
}

/// The texts that are present, in order.
pub open spec fn present(groups: Seq<Option<Seq<char>>>) -> Seq<Seq<char>>
    decreases groups.len(),
{
    if groups.len() == 0 {
        Seq::empty()
    } else {
        match groups.last() {
            Some(g) => present(groups.drop_last()).push(g),
            None => present(groups.drop_last()),
        }
    }
}

/// Keeps the groups that took part in their match.
pub fn collect_present(groups: Vec<Option<String>>) -> (out: Vec<String>)
    ensures
        views(out@) == present(option_views(groups@)),
{
    let ghost gv = option_views(groups@);
    let mut out: Vec<String> = Vec::new();
    let mut i: usize = 0;
    assert(gv.subrange(0, 0) =~= Seq::empty());
    assert(views(out@) =~= Seq::empty());
    while i < groups.len()
        invariant
            i <= groups@.len(),
            gv == option_views(groups@),
            views(out@) == present(gv.subrange(0, i as int)),
        decreases groups.len() - i,
    {
        let ghost next = gv.subrange(0, i + 1);
        assert(next.drop_last() =~= gv.subrange(0, i as int));
        let ghost before = views(out@);
        match &groups[i] {
            Some(s) => {
                assert(next.last() == Some(s@));
                out.push(s.clone());
                assert(views(out@) =~= before.push(s@));
            },
            None => {
                assert(next.last().is_none());
            },
        }
        i += 1;
    }
    assert(gv.subrange(0, groups@.len() as int) =~= gv);
    out
}

/// The pattern of a plain variable: a name of word characters between
/// double braces, with blank space around it if one likes.
pub open spec fn variable_pattern() -> Seq<char> {
    r"\{\{\s*(\w+)\s*\}\}"@
}

/// The names of the plain variables of a template text, in order of
/// appearance, each as often as it appears.
pub fn extract_variables(template: &str) -> (out: Vec<String>)
    ensures
        views(out@) == match first_group_matches(variable_pattern(), template@) {
            Some(groups) => present(groups),
            None => Seq::empty(),
        },
{
    match capture_first_groups(r"\{\{\s*(\w+)\s*\}\}", template) {
        Some(groups) => collect_present(groups),
        None => {
            let out: Vec<String> = Vec::new();
            assert(views(out@) =~= Seq::empty());
            out
        },
    }
}

/// An answer given earlier, with the prompt it answers and the time, in
/// seconds of the clock of whoever stores it.
#[derive(Debug)]
pub struct CachedResponse {
    pub prompt: String,
    pub response: String,
    pub timestamp: i64,
}

/// What to do with a prompt.
#[derive(Debug)]
pub enum CompletionPlan {
    /// Answer with the response given earlier.
    Cached(String),
    /// Ask the model, and store what it answers.
    AskModel,
}

/// The answers given so far, oldest first.
pub struct ResponseCache {
    entries: Vec<CachedResponse>,
}

/// Entry `i` is the first that answers the prompt.
pub open spec fn first_answer(entries: Seq<CachedResponse>, prompt: Seq<char>, i: int) -> bool {
    &&& 0 <= i < entries.len()
    &&& entries[i].prompt@ == prompt
    &&& forall|j: int| 0 <= j < i ==> (#[trigger] entries[j]).prompt@ != prompt
}

/// No entry answers the prompt.
pub open spec fn unanswered(entries: Seq<CachedResponse>, prompt: Seq<char>) -> bool {
    forall|j: int| 0 <= j < entries.len() ==> (#[trigger] entries[j]).prompt@ != prompt
}

impl ResponseCache {
    /// The entries, oldest first.
    pub closed spec fn entries(&self) -> Seq<CachedResponse> {
        self.entries@
    }

    /// An empty cache.
    pub fn new() -> (out: Self)
        ensures
            out.entries().len() == 0,
    {
        ResponseCache { entries: Vec::new() }
    }

    /// The number of entries.
    pub fn len(&self) -> (out: usize)
        ensures
            out == self.entries().len(),
    {
        self.entries.len()
    }

    /// The first entry that answers the prompt.
    pub fn find(&self, prompt: &str) -> (out: Option<&CachedResponse>)
        ensures
            match out {
                Some(entry) => exists|i: int|
                    first_answer(self.entries(), prompt@, i) && *entry == self.entries()[i],
                None => unanswered(self.entries(), prompt@),
            },
    {
        let wanted: String = prompt.to_owned();
        let mut i: usize = 0;
        while i < self.entries.len()
            invariant
                i <= self.entries@.len(),
                wanted@ == prompt@,
                forall|j: int| 0 <= j < i ==> (#[trigger] self.entries@[j]).prompt@ != prompt@,
            decreases self.entries.len() - i,
        {
            if self.entries[i].prompt == wanted {
                assert(first_answer(self.entries(), prompt@, i as int));
                return Some(&self.entries[i]);
            }
            i += 1;
        }
        None
    }

    /// What to do with a prompt: answer from the cache where an entry
    /// answers it, with the response of the first such entry; else ask.
    pub fn plan(&self, prompt: &str) -> (out: CompletionPlan)
        ensures
            match out {
                CompletionPlan::Cached(response) => exists|i: int|
                    first_answer(self.entries(), prompt@, i) && response@
                        == self.entries()[i].response@,
                CompletionPlan::AskModel => unanswered(self.entries(), prompt@),
            },
    {
        match self.find(prompt) {
            Some(entry) => CompletionPlan::Cached(entry.response.clone()),
            None => CompletionPlan::AskModel,
        }
    }

    /// Stores an answer as the newest entry.
    pub fn store(&mut self, prompt: String, response: String, timestamp: i64)
        ensures
            final(self).entries() == old(self).entries().push(
                CachedResponse { prompt, response, timestamp },
            ),
    {
        self.entries.push(CachedResponse { prompt, response, timestamp });
    }

    /// Removes every entry; the number of entries removed.
    pub fn clear(&mut self) -> (out: usize)
        ensures
            out == old(self).entries().len(),
            final(self).entries().len() == 0,
    {
        let count: usize = self.entries.len();
        self.entries.clear();
        count
    }

    /// The time of the oldest entry.
    pub fn oldest(&self) -> (out: Option<i64>)
        ensures
            out == if self.entries().len() == 0 {
                None
            } else {
                Some(self.entries()[0].timestamp)
            },
    {
        if self.entries.len() == 0 {
            None
        } else {
            Some(self.entries[0].timestamp)
        }
    }

    /// The time of the newest entry.
    pub fn newest(&self) -> (out: Option<i64>)
        ensures
            out == if self.entries().len() == 0 {
                None
            } else {
                Some(self.entries().last().timestamp)
            },
    {
        let n: usize = self.entries.len();
        if n == 0 {
            None
        } else {
            Some(self.entries[n - 1].timestamp)
        }
    }
}

/// The description of a domain: its name and its concepts.
pub open spec fn description_text(domain: Seq<char>, concepts: Seq<Seq<char>>) -> Seq<char> {
    "Domain: "@ + domain + "\nConcepts: "@ + join(concepts, ", "@)
}

/// The description handed to an ontology generator.
pub fn ontology_description(domain: &str, concepts: &Vec<String>) -> (out: String)
    ensures
        out@ == description_text(domain@, views(concepts@)),
{
    let mut names: Vec<Vec<char>> = Vec::new();
    let mut i: usize = 0;
    while i < concepts.len()
        invariant
            i <= concepts@.len(),
            names@.len() == i,
            forall|j: int| 0 <= j < i ==> (#[trigger] names@[j])@ == concepts@[j]@,
        decreases concepts.len() - i,
    {
        names.push(chars_of(concepts[i].as_str()));
        i += 1;
    }
    assert(views(names@) =~= views(concepts@));
    let mut out: Vec<char> = chars_of("Domain: ");
    push_all(&mut out, &chars_of(domain));
    push_all(&mut out, &chars_of("\nConcepts: "));
    push_all(&mut out, &join_words(&names, &chars_of(", ")));
    string_of(&out)
}

/// The property names reported with every generated ontology.
pub fn ontology_properties() -> (out: Vec<String>)
    ensures
        views(out@) == seq!["hasProperty"@, "relatesTo"@],
{
    let mut out: Vec<String> = Vec::new();
    out.push("hasProperty".to_owned());
    out.push("relatesTo".to_owned());
    assert(views(out@) =~= seq!["hasProperty"@, "relatesTo"@]);
    out
}

} // verus!
