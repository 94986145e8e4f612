//! The triple store: semantic facts in load order.

use vstd::prelude::*;
use crate::text::views;
use crate::text::starts_with;
use crate::text::has_prefix;
use crate::text::has_char;
use crate::text::slice;
use crate::text::push_all;
use crate::text::after_next;
use crate::text::lemma_after_next_found;
use crate::text::find_after_next;
use crate::text::is_text;
use crate::text::same_chars;
use crate::text::string_of;
use crate::text::string_pairs;
use crate::text::chars_of;
use crate::text::tokens;
use crate::text::tokenize;
use crate::text::lines;
use crate::text::split_lines;
use crate::text::index_named;
use crate::text::lemma_first_named_unique;
use crate::query::keys;

verus! {

/// A subject–predicate–object fact. Each component is a term in written
/// form: an IRI in full, or a literal with its double quotes.
#[derive(Debug)]
pub struct Triple {
    pub subject: String,
    pub predicate: String,
    pub object: String,
}

impl View for Triple {
    type V = (Seq<char>, Seq<char>, Seq<char>);

    open spec fn view(&self) -> (Seq<char>, Seq<char>, Seq<char>) {
        (self.subject@, self.predicate@, self.object@)
    }
}

/// Whether a term in written form is a literal.
pub open spec fn is_literal(term: Seq<char>) -> bool {
    term.len() > 0 && term[0] == '"'
}

/// The IRI that the predicate `a` stands for.
pub open spec fn rdf_type() -> Seq<char> {
    "http://www.w3.org/1999/02/22-rdf-syntax-ns#type"@
}

/// Whether `name` begins with the prefix of the entry and a colon.
pub open spec fn prefix_matches(entry: (Seq<char>, Seq<char>), name: Seq<char>) -> bool {
    starts_with(name, entry.0.push(':'))
}

/// Among the first `n` entries of the table, the one whose prefix `name`
/// begins with; where several do, the one with the longest prefix, and
/// among equally long ones the first.
pub open spec fn best_prefix(table: Seq<(Seq<char>, Seq<char>)>, name: Seq<char>, n: int) -> Option<
    int,
>
    decreases n,
{
    if n <= 0 {
        None
    } else {
        let prev = best_prefix(table, name, n - 1);
        if prefix_matches(table[n - 1], name) && (prev.is_none() || table[prev.unwrap()].0.len()
            < table[n - 1].0.len()) {
            Some(n - 1)
        } else {
            prev
        }
    }
}

/// A prefixed name written out in full: the IRI of its prefix followed by
/// what stands after the colon. `None` when no declared prefix fits.
pub open spec fn expand(table: Seq<(Seq<char>, Seq<char>)>, name: Seq<char>) -> Option<Seq<char>> {
    match best_prefix(table, name, table.len() as int) {
        Some(i) => Some(table[i].1 + name.subrange(table[i].0.len() as int + 1, name.len() as int)),
        None => None,
    }
}

/// The best prefix is a fitting one, and no fitting prefix is longer.
pub proof fn lemma_best_prefix_is_longest(table: Seq<(Seq<char>, Seq<char>)>, name: Seq<char>, n: int)
    requires
        0 <= n <= table.len(),
    ensures
        match best_prefix(table, name, n) {
            Some(i) => 0 <= i < n && prefix_matches(table[i], name) && forall|j: int|
                0 <= j < n && prefix_matches(#[trigger] table[j], name) ==> table[j].0.len()
                    <= table[i].0.len(),
            None => forall|j: int| 0 <= j < n ==> !prefix_matches(#[trigger] table[j], name),
        },
    decreases n,
{
    if n > 0 {
        lemma_best_prefix_is_longest(table, name, n - 1);
    }
}

/// Why a token is no term.
#[derive(Debug, Clone, Copy, PartialEq, Eq, Structural)]
pub enum TermFault {
    /// The token has not the form of an IRI, a prefixed name or a literal.
    Malformed,
    /// The token is a prefixed name and no declared prefix fits it.
    Unresolved,
}

/// The term that a token stands for.
///
/// A literal (`"..."`) stands for itself. An IRI in angle brackets stands
/// for what is between them if that holds a colon, else for the base IRI
/// followed by it; without a base IRI such a token is no term. A prefixed
/// name is written out in full.
pub open spec fn read_term(
    table: Seq<(Seq<char>, Seq<char>)>,
    base: Seq<char>,
    token: Seq<char>,
) -> Result<Seq<char>, TermFault> {
    if token.len() == 0 {
        Err(TermFault::Malformed)
    } else if token[0] == '"' {
        if token.len() >= 2 && token.last() == '"' {
            Ok(token)
        } else {
            Err(TermFault::Malformed)
        }
    } else if token[0] == '<' {
        if token.len() >= 2 && token.last() == '>' {
            let inner = token.subrange(1, token.len() - 1);
            if inner.contains(':') {
                Ok(inner)
            } else if base.len() == 0 {
                Err(TermFault::Malformed)
            } else {
                Ok(base + inner)
            }
        } else {
            Err(TermFault::Malformed)
        }
    } else if token[0] == '?' || !token.contains(':') {
        Err(TermFault::Malformed)
    } else {
        match expand(table, token) {
            Some(iri) => Ok(iri),
            None => Err(TermFault::Unresolved),
        }
    }
}

/// The prefix of a prefixed name: what stands before its first colon.
pub open spec fn prefix_of(token: Seq<char>) -> Seq<char> {
    token.subrange(0, after_next(token, 0, ':') - 1)
}

/// Finds the entry whose prefix fits `name` best.
pub(crate) fn find_prefix(table: &Vec<(Vec<char>, Vec<char>)>, name: &Vec<char>) -> (out: Option<usize>)
    ensures
        match out {
            Some(i) => best_prefix(views(table@), name@, table@.len() as int) == Some(i as int)
                && i < table@.len() && table@[i as int].0@.len() < name@.len(),
            None => best_prefix(views(table@), name@, table@.len() as int).is_none(),
        },
{
    let ghost tv = views(table@);
    let mut best: Option<usize> = None;
    let mut i: usize = 0;
    while i < table.len()
        invariant
            i <= table@.len(),
            tv == views(table@),
            match best {
                Some(b) => best_prefix(tv, name@, i as int) == Some(b as int) && b < i
                    && table@[b as int].0@.len() < name@.len(),
                None => best_prefix(tv, name@, i as int).is_none(),
            },
        decreases table.len() - i,
    {
        let mut key: Vec<char> = Vec::new();
        push_all(&mut key, &table[i].0);
        key.push(':');
        assert(key@ =~= tv[i as int].0.push(':'));
        if has_prefix(name, &key) {
            let longer: bool = match best {
                Some(b) => table[b].0.len() < table[i].0.len(),
                None => true,
            };
            if longer {
                best = Some(i);
            }
        }
        i += 1;
    }
    best
}

/// Reads a token as a term.
pub(crate) fn parse_term(table: &Vec<(Vec<char>, Vec<char>)>, base: &Vec<char>, token: &Vec<char>) -> (out:
    Result<Vec<char>, TermFault>)
    ensures
        match read_term(views(table@), base@, token@) {
            Ok(t) => out.is_ok() && out.unwrap()@ == t,
            Err(f) => out == Err::<Vec<char>, TermFault>(f),
        },
{
    let n: usize = token.len();
    if n == 0 {
        return Err(TermFault::Malformed);
    }
    let first: char = token[0];
    if first == '"' {
        if n >= 2 && token[n - 1] == '"' {
            let copy = slice(token, 0, n);
            assert(copy@ =~= token@);
            Ok(copy)
        } else {
            Err(TermFault::Malformed)
        }
    } else if first == '<' {
        if n >= 2 && token[n - 1] == '>' {
            let inner = slice(token, 1, n - 1);
            if has_char(&inner, ':') {
                Ok(inner)
            } else if base.len() == 0 {
                Err(TermFault::Malformed)
            } else {
                let mut out: Vec<char> = Vec::new();
                push_all(&mut out, base);
                push_all(&mut out, &inner);
                assert(out@ =~= base@ + inner@);
                Ok(out)
            }
        } else {
            Err(TermFault::Malformed)
        }
    } else if first == '?' || !has_char(token, ':') {
        Err(TermFault::Malformed)
    } else {
        match find_prefix(table, token) {
            Some(i) => {
                let mut out: Vec<char> = Vec::new();
                push_all(&mut out, &table[i].1);
                let rest = slice(token, table[i].0.len() + 1, n);
                push_all(&mut out, &rest);
                assert(out@ =~= views(table@)[i as int].1 + token@.subrange(
                    views(table@)[i as int].0.len() as int + 1,
                    token@.len() as int,
                ));
                Ok(out)
            },
            None => Err(TermFault::Unresolved),
        }
    }
}

/// What has been read of a domain description so far.
pub struct Loaded {
    pub prefixes: Seq<(Seq<char>, Seq<char>)>,
    pub base: Seq<char>,
    pub facts: Seq<(Seq<char>, Seq<char>, Seq<char>)>,
}

/// Why a statement cannot be read.
pub enum LineFault {
    /// It is no declaration and no triple of three terms and a full stop.
    Malformed,
    /// It uses the given prefix, which is not declared above it.
    Unresolved(Seq<char>),
}

/// Whether a token is an IRI in angle brackets.
pub open spec fn is_iri_ref(token: Seq<char>) -> bool {
    token.len() >= 2 && token[0] == '<' && token.last() == '>'
}

/// What stands between the angle brackets.
pub open spec fn iri_of(token: Seq<char>) -> Seq<char> {
    token.subrange(1, token.len() - 1)
}

/// The table with `key` standing for `iri`: in the place of the entry for
/// `key` if there is one, else at the end.
pub open spec fn set_prefix(
    table: Seq<(Seq<char>, Seq<char>)>,
    key: Seq<char>,
    iri: Seq<char>,
) -> Seq<(Seq<char>, Seq<char>)> {
    if keys(table).contains(key) {
        table.update(index_named(keys(table), key), (key, iri))
    } else {
        table.push((key, iri))
    }
}

/// The fault of a statement in which `token` is no term.
pub open spec fn fault_of(f: TermFault, token: Seq<char>) -> LineFault {
    match f {
        TermFault::Malformed => LineFault::Malformed,
        TermFault::Unresolved => LineFault::Unresolved(prefix_of(token)),
    }
}

/// The term in predicate position: `a` stands for `rdf:type`.
pub open spec fn read_predicate(
    table: Seq<(Seq<char>, Seq<char>)>,
    base: Seq<char>,
    token: Seq<char>,
) -> Result<Seq<char>, TermFault> {
    if token == "a"@ {
        Ok(rdf_type())
    } else {
        read_term(table, base, token)
    }
}

/// Reads a triple of three tokens. Subject and predicate must be IRIs.
pub open spec fn read_triple(
    table: Seq<(Seq<char>, Seq<char>)>,
    base: Seq<char>,
    s: Seq<char>,
    p: Seq<char>,
    o: Seq<char>,
) -> Result<(Seq<char>, Seq<char>, Seq<char>), LineFault> {
    match read_term(table, base, s) {
        Err(f) => Err(fault_of(f, s)),
        Ok(subject) => if is_literal(subject) {
            Err(LineFault::Malformed)
        } else {
            match read_predicate(table, base, p) {
                Err(f) => Err(fault_of(f, p)),
                Ok(predicate) => if is_literal(predicate) {
                    Err(LineFault::Malformed)
                } else {
                    match read_term(table, base, o) {
                        Err(f) => Err(fault_of(f, o)),
                        Ok(object) => Ok((subject, predicate, object)),
                    }
                },
            }
        },
    }
}

/// Reads one line, given as its tokens.
///
/// An empty line and a line that starts with `#` change nothing.
/// `@prefix key: <iri> .` declares a prefix, `@base <iri> .` the base IRI.
/// Any other line is a triple: three terms and a full stop.
pub open spec fn read_statement(state: Loaded, toks: Seq<Seq<char>>) -> Result<Loaded, LineFault> {
    if toks.len() == 0 || (toks[0].len() > 0 && toks[0][0] == '#') {
        Ok(state)
    } else if toks[0] == "@prefix"@ {
        if toks.len() == 4 && toks[3] == "."@ && toks[1].len() > 0 && toks[1].last() == ':'
            && is_iri_ref(toks[2]) {
            Ok(
                Loaded {
                    prefixes: set_prefix(state.prefixes, toks[1].drop_last(), iri_of(toks[2])),
                    ..state
                },
            )
        } else {
            Err(LineFault::Malformed)
        }
    } else if toks[0] == "@base"@ {
        if toks.len() == 3 && toks[2] == "."@ && is_iri_ref(toks[1]) {
            Ok(Loaded { base: iri_of(toks[1]), ..state })
        } else {
            Err(LineFault::Malformed)
        }
    } else if toks.len() == 4 && toks[3] == "."@ {
        match read_triple(state.prefixes, state.base, toks[0], toks[1], toks[2]) {
            Ok(fact) => Ok(Loaded { facts: state.facts.push(fact), ..state }),
            Err(f) => Err(f),
        }
    } else {
        Err(LineFault::Malformed)
    }
}

/// Reads the lines in order; on the first line that cannot be read, its
/// fault and its number, counted from one.
pub open spec fn read_lines(all: Seq<Seq<char>>) -> Result<Loaded, (LineFault, int)>
    decreases all.len(),
{
    if all.len() == 0 {
        Ok(Loaded { prefixes: Seq::empty(), base: Seq::empty(), facts: Seq::empty() })
    } else {
        match read_lines(all.drop_last()) {
            Err(e) => Err(e),
            Ok(state) => match read_statement(state, tokens(all.last())) {
                Ok(next) => Ok(next),
                Err(f) => Err((f, all.len() as int)),
            },
        }
    }
}

/// Why a line cannot be read.
#[derive(Debug)]
enum LineError {
    Malformed,
    Unresolved(Vec<char>),
}

impl View for LineError {
    type V = LineFault;

    closed spec fn view(&self) -> LineFault {
        match self {
            LineError::Malformed => LineFault::Malformed,
            LineError::Unresolved(prefix) => LineFault::Unresolved(prefix@),
        }
    }
}

fn line_error(f: TermFault, token: &Vec<char>) -> (out: LineError)
    requires
        f == TermFault::Unresolved ==> token@.contains(':'),
    ensures
        out@ == fault_of(f, token@),
{
    match f {
        TermFault::Malformed => LineError::Malformed,
        TermFault::Unresolved => {
            let end: usize = find_after_next(token, 0, ':');
            proof {
                lemma_after_next_found(token@, 0, ':');
            }
            LineError::Unresolved(slice(token, 0, end - 1))
        },
    }
}

/// The index of the first entry of a table for `key`.
pub(crate) fn find_key(table: &Vec<(Vec<char>, Vec<char>)>, key: &Vec<char>) -> (out: Option<usize>)
    ensures
        match out {
            Some(i) => i < table@.len() && keys(views(table@)).contains(key@) && i == index_named(
                keys(views(table@)),
                key@,
            ),
            None => !keys(views(table@)).contains(key@),
        },
{
    let ghost ks = keys(views(table@));
    let mut i: usize = 0;
    while i < table.len()
        invariant
            i <= table@.len(),
            ks == keys(views(table@)),
            forall|j: int| 0 <= j < i ==> ks[j] != key@,
        decreases table.len() - i,
    {
        assert(ks[i as int] == table@[i as int].0@);
        if same_chars(&table[i].0, key) {
            proof {
                lemma_first_named_unique(ks, key@, i as int);
                assert(ks.contains(key@));
            }
            return Some(i);
        }
        i += 1;
    }
    None
}

/// Lets `key` stand for `iri` in the table.
pub(crate) fn put_prefix(table: &mut Vec<(Vec<char>, Vec<char>)>, key: Vec<char>, iri: Vec<char>)
    ensures
        views(final(table)@) == set_prefix(views(old(table)@), key@, iri@),
{
    let ghost before = views(table@);
    match find_key(table, &key) {
        Some(i) => {
            table.set(i, (key, iri));
            assert(views(table@) =~= before.update(i as int, (key@, iri@)));
        },
        None => {
            table.push((key, iri));
            assert(views(table@) =~= before.push((key@, iri@)));
        },
    }
}

/// The table `global` with every entry of `local` set in it, in order:
/// local entries shadow global ones.
pub open spec fn merged(
    global: Seq<(Seq<char>, Seq<char>)>,
    local: Seq<(Seq<char>, Seq<char>)>,
) -> Seq<(Seq<char>, Seq<char>)>
    decreases local.len(),
{
    if local.len() == 0 {
        global
    } else {
        set_prefix(merged(global, local.drop_last()), local.last().0, local.last().1)
    }
}

/// A copy of the global table with the local entries set in it.
pub(crate) fn merge_prefixes(global: &Vec<(String, String)>, local: &Vec<(String, String)>) -> (out: Vec<
    (Vec<char>, Vec<char>),
>)
    ensures
        views(out@) == merged(views(global@), views(local@)),
{
    let mut out: Vec<(Vec<char>, Vec<char>)> = Vec::new();
    let mut i: usize = 0;
    while i < global.len()
        invariant
            i <= global@.len(),
            out@.len() == i,
            forall|j: int| 0 <= j < i ==> (#[trigger] out@[j])@ == global@[j]@,
        decreases global.len() - i,
    {
        out.push((chars_of(global[i].0.as_str()), chars_of(global[i].1.as_str())));
        i += 1;
    }
    assert(views(out@) =~= views(global@));
    let ghost lv = views(local@);
    assert(lv.subrange(0, 0) =~= Seq::empty());
    let mut k: usize = 0;
    while k < local.len()
        invariant
            k <= local@.len(),
            lv == views(local@),
            views(out@) == merged(views(global@), lv.subrange(0, k as int)),
        decreases local.len() - k,
    {
        let ghost next = lv.subrange(0, k + 1);
        assert(next.drop_last() =~= lv.subrange(0, k as int));
        assert(next.last() == local@[k as int]@);
        put_prefix(&mut out, chars_of(local[k].0.as_str()), chars_of(local[k].1.as_str()));
        k += 1;
    }
    assert(lv.subrange(0, local@.len() as int) =~= lv);
    out
}

/// Reads a token in predicate position: `a` stands for `rdf:type`.
pub(crate) fn parse_predicate(table: &Vec<(Vec<char>, Vec<char>)>, base: &Vec<char>, token: &Vec<char>) -> (out:
    Result<Vec<char>, TermFault>)
    ensures
        match read_predicate(views(table@), base@, token@) {
            Ok(t) => out.is_ok() && out.unwrap()@ == t,
            Err(f) => out == Err::<Vec<char>, TermFault>(f),
        },
{
    if is_text(token, "a") {
        Ok(chars_of("http://www.w3.org/1999/02/22-rdf-syntax-ns#type"))
    } else {
        parse_term(table, base, token)
    }
}

fn starts_with_quote(term: &Vec<char>) -> (out: bool)
    ensures
        out == is_literal(term@),
{
    term.len() > 0 && term[0] == '"'
}

fn parse_triple(
    table: &Vec<(Vec<char>, Vec<char>)>,
    base: &Vec<char>,
    s: &Vec<char>,
    p: &Vec<char>,
    o: &Vec<char>,
) -> (out: Result<Triple, LineError>)
    ensures
        match read_triple(views(table@), base@, s@, p@, o@) {
            Ok(fact) => out.is_ok() && out.unwrap()@ == fact,
            Err(f) => out.is_err() && out.unwrap_err()@ == f,
        },
{
    let subject = match parse_term(table, base, s) {
        Ok(t) => t,
        Err(f) => {
            return Err(line_error(f, s));
        },
    };
    if starts_with_quote(&subject) {
        return Err(LineError::Malformed);
    }
    let predicate = match parse_predicate(table, base, p) {
        Ok(t) => t,
        Err(f) => {
            return Err(line_error(f, p));
        },
    };
    if starts_with_quote(&predicate) {
        return Err(LineError::Malformed);
    }
    let object = match parse_term(table, base, o) {
        Ok(t) => t,
        Err(f) => {
            return Err(line_error(f, o));
        },
    };
    Ok(
        Triple {
            subject: string_of(&subject),
            predicate: string_of(&predicate),
            object: string_of(&object),
        },
    )
}

fn is_reference(token: &Vec<char>) -> (out: bool)
    ensures
        out == is_iri_ref(token@),
{
    token.len() >= 2 && token[0] == '<' && token[token.len() - 1] == '>'
}

/// The state of a load in progress.
struct Loading {
    prefixes: Vec<(Vec<char>, Vec<char>)>,
    base: Vec<char>,
    triples: Vec<Triple>,
}

impl View for Loading {
    type V = Loaded;

    closed spec fn view(&self) -> Loaded {
        Loaded { prefixes: views(self.prefixes@), base: self.base@, facts: views(self.triples@) }
    }
}

fn parse_statement(state: &mut Loading, toks: &Vec<Vec<char>>) -> (out: Result<(), LineError>)
    ensures
        match read_statement(old(state)@, views(toks@)) {
            Ok(next) => out.is_ok() && final(state)@ == next,
            Err(f) => out.is_err() && out.unwrap_err()@ == f,
        },
{
    let ghost tv = views(toks@);
    let n: usize = toks.len();
    if n == 0 {
        return Ok(());
    }
    assert(tv[0] == toks@[0]@);
    if toks[0].len() > 0 && toks[0][0] == '#' {
        return Ok(());
    }
    if is_text(&toks[0], "@prefix") {
        if n == 4 {
            assert(tv[1] == toks@[1]@ && tv[2] == toks@[2]@ && tv[3] == toks@[3]@);
            let key_tok = &toks[1];
            if is_text(&toks[3], ".") && key_tok.len() > 0 && key_tok[key_tok.len() - 1] == ':'
                && is_reference(&toks[2]) {
                let key = slice(key_tok, 0, key_tok.len() - 1);
                assert(key@ =~= tv[1].drop_last());
                let iri = slice(&toks[2], 1, toks[2].len() - 1);
                put_prefix(&mut state.prefixes, key, iri);
                return Ok(());
            }
        }
        return Err(LineError::Malformed);
    }
    if is_text(&toks[0], "@base") {
        if n == 3 {
            assert(tv[1] == toks@[1]@ && tv[2] == toks@[2]@);
            if is_text(&toks[2], ".") && is_reference(&toks[1]) {
                state.base = slice(&toks[1], 1, toks[1].len() - 1);
                return Ok(());
            }
        }
        return Err(LineError::Malformed);
    }
    if n == 4 {
        assert(tv[1] == toks@[1]@ && tv[2] == toks@[2]@ && tv[3] == toks@[3]@);
        if is_text(&toks[3], ".") {
            match parse_triple(&state.prefixes, &state.base, &toks[0], &toks[1], &toks[2]) {
                Ok(fact) => {
                    let ghost before = views(state.triples@);
                    let ghost fv = fact@;
                    state.triples.push(fact);
                    assert(views(state.triples@) =~= before.push(fv));
                    return Ok(());
                },
                Err(e) => {
                    return Err(e);
                },
            }
        }
    }
    Err(LineError::Malformed)
}

/// The recognized categories with their required companion predicates, by
/// local name: a subject typed as the category must be the subject of a
/// fact with the companion as predicate. Where the flag is set, it must be
/// the subject of exactly one such fact whose object is a literal.
pub open spec fn rules() -> Seq<(Seq<char>, Seq<char>, bool)> {
    seq![
        ("Entity"@, "hasProperty"@, false),
        ("Entity"@, "hasRelationship"@, false),
        ("Property"@, "dataType"@, true),
        ("Relationship"@, "targetEntity"@, false),
        ("APIEndpoint"@, "hasEndpoint"@, false),
        ("Endpoint"@, "method"@, false),
        ("Endpoint"@, "path"@, false),
        ("Table"@, "hasColumn"@, false),
        ("Column"@, "columnType"@, false),
    ]
}

/// The rules with the names written out in the namespace `ns`.
pub open spec fn rules_in(ns: Seq<char>) -> Seq<(Seq<char>, Seq<char>, bool)> {
    rules().map_values(|r: (Seq<char>, Seq<char>, bool)| (ns + r.0, ns + r.1, r.2))
}

/// Whether some fact has the given subject and predicate.
pub open spec fn has_fact(
    facts: Seq<(Seq<char>, Seq<char>, Seq<char>)>,
    subject: Seq<char>,
    predicate: Seq<char>,
) -> bool {
    exists|i: int|
        0 <= i < facts.len() && (#[trigger] facts[i]).0 == subject && facts[i].1 == predicate
}

/// How many facts have the given subject and predicate and a literal as
/// object.
pub open spec fn count_literals(
    facts: Seq<(Seq<char>, Seq<char>, Seq<char>)>,
    subject: Seq<char>,
    predicate: Seq<char>,
) -> nat
    decreases facts.len(),
{
    if facts.len() == 0 {
        0
    } else {
        let f = facts.last();
        count_literals(facts.drop_last(), subject, predicate) + if f.0 == subject && f.1
            == predicate && is_literal(f.2) {
            1nat
        } else {
            0nat
        }
    }
}

/// Whether the subject has the companion that the rule asks for.
pub open spec fn satisfied(
    facts: Seq<(Seq<char>, Seq<char>, Seq<char>)>,
    subject: Seq<char>,
    rule: (Seq<char>, Seq<char>, bool),
) -> bool {
    if rule.2 {
        count_literals(facts, subject, rule.1) == 1
    } else {
        has_fact(facts, subject, rule.1)
    }
}

/// Fact `i` types its subject as the category of rule `r`, and the subject
/// lacks the companion of that rule.
pub open spec fn violates(
    facts: Seq<(Seq<char>, Seq<char>, Seq<char>)>,
    ns: Seq<char>,
    i: int,
    r: int,
) -> bool {
    &&& 0 <= i < facts.len()
    &&& 0 <= r < rules().len()
    &&& facts[i].1 == rdf_type()
    &&& facts[i].2 == rules_in(ns)[r].0
    &&& !satisfied(facts, facts[i].0, rules_in(ns)[r])
}

/// The first violation, by fact and then by rule.
pub open spec fn first_violation(
    facts: Seq<(Seq<char>, Seq<char>, Seq<char>)>,
    ns: Seq<char>,
    i: int,
    r: int,
) -> bool {
    &&& violates(facts, ns, i, r)
    &&& forall|i2: int, r2: int| #[trigger]
        violates(facts, ns, i2, r2) ==> i < i2 || (i == i2 && r <= r2)
}

/// Every typed subject has the companions of its category.
pub open spec fn valid(facts: Seq<(Seq<char>, Seq<char>, Seq<char>)>, ns: Seq<char>) -> bool {
    forall|i: int, r: int| !violates(facts, ns, i, r)
}

/// The namespace of the recognized vocabulary: what the prefix `ex` stands
/// for. Without that prefix no fact is of a recognized category.
pub open spec fn vocabulary(prefixes: Seq<(Seq<char>, Seq<char>)>) -> Option<Seq<char>> {
    if keys(prefixes).contains("ex"@) {
        Some(prefixes[index_named(keys(prefixes), "ex"@)].1)
    } else {
        None
    }
}

/// Whether the facts are valid under the vocabulary of the prefix table.
pub open spec fn valid_under(
    facts: Seq<(Seq<char>, Seq<char>, Seq<char>)>,
    prefixes: Seq<(Seq<char>, Seq<char>)>,
) -> bool {
    match vocabulary(prefixes) {
        Some(ns) => valid(facts, ns),
        None => true,
    }
}

fn named_in(ns: &Vec<char>, local: &str) -> (out: String)
    ensures
        out@ == ns@ + local@,
{
    let mut out: Vec<char> = Vec::new();
    push_all(&mut out, ns);
    let tail = chars_of(local);
    push_all(&mut out, &tail);
    assert(out@ =~= ns@ + local@);
    string_of(&out)
}

fn rule_table(ns: &Vec<char>) -> (out: Vec<(String, String, bool)>)
    ensures
        views(out@) == rules_in(ns@),
        out@.len() == rules().len(),
{
    let mut out: Vec<(String, String, bool)> = Vec::new();
    out.push((named_in(ns, "Entity"), named_in(ns, "hasProperty"), false));
    out.push((named_in(ns, "Entity"), named_in(ns, "hasRelationship"), false));
    out.push((named_in(ns, "Property"), named_in(ns, "dataType"), true));
    out.push((named_in(ns, "Relationship"), named_in(ns, "targetEntity"), false));
    out.push((named_in(ns, "APIEndpoint"), named_in(ns, "hasEndpoint"), false));
    out.push((named_in(ns, "Endpoint"), named_in(ns, "method"), false));
    out.push((named_in(ns, "Endpoint"), named_in(ns, "path"), false));
    out.push((named_in(ns, "Table"), named_in(ns, "hasColumn"), false));
    out.push((named_in(ns, "Column"), named_in(ns, "columnType"), false));
    assert(rules().len() == 9);
    assert(views(out@) =~= rules_in(ns@));
    out
}

fn rule_satisfied(facts: &Vec<Triple>, subject: &String, companion: &String, single: bool) -> (out:
    bool)
    ensures
        out == satisfied(views(facts@), subject@, (Seq::<char>::empty(), companion@, single)),
{
    let ghost fv = views(facts@);
    let mut count: usize = 0;
    let mut found: bool = false;
    let mut i: usize = 0;
    assert(fv.subrange(0, 0) =~= Seq::empty());
    while i < facts.len()
        invariant
            i <= facts@.len(),
            fv == views(facts@),
            count == count_literals(fv.subrange(0, i as int), subject@, companion@),
            count <= i,
            found == has_fact(fv.subrange(0, i as int), subject@, companion@),
        decreases facts.len() - i,
    {
        let f = &facts[i];
        let ghost upto = fv.subrange(0, i as int);
        let ghost next = fv.subrange(0, i + 1);
        assert(next.drop_last() =~= upto);
        assert(next.last() == f@);
        let hit: bool = f.subject == *subject && f.predicate == *companion;
        proof {
            if has_fact(upto, subject@, companion@) {
                let w = choose|w: int|
                    0 <= w < upto.len() && (#[trigger] upto[w]).0 == subject@ && upto[w].1
                        == companion@;
                assert(next[w] == upto[w]);
            }
            if hit {
                assert(next[i as int].0 == subject@);
            }
            if has_fact(next, subject@, companion@) && !hit {
                let w = choose|w: int|
                    0 <= w < next.len() && (#[trigger] next[w]).0 == subject@ && next[w].1
                        == companion@;
                assert(w < i);
                assert(upto[w] == next[w]);
            }
        }
        if hit {
            found = true;
            let cs = chars_of(f.object.as_str());
            if cs.len() > 0 && cs[0] == '"' {
                count += 1;
            }
        }
        i += 1;
    }
    assert(fv.subrange(0, facts@.len() as int) =~= fv);
    if single {
        count == 1
    } else {
        found
    }
}

/// Once a line fails, so does every text that goes on from it.
proof fn lemma_read_lines_fails_on(all: Seq<Seq<char>>, n: int)
    requires
        0 <= n <= all.len(),
        read_lines(all.subrange(0, n)).is_err(),
    ensures
        read_lines(all) == read_lines(all.subrange(0, n)),
    decreases all.len() - n,
{
    if n < all.len() {
        let next = all.subrange(0, n + 1);
        assert(next.drop_last() =~= all.subrange(0, n));
        lemma_read_lines_fails_on(all, n + 1);
    } else {
        assert(all.subrange(0, n) =~= all);
    }
}

/// The first violation among the facts, as the indices of the typing fact
/// and of the rule.
fn find_violation(facts: &Vec<Triple>, ns: &Vec<char>) -> (out: Option<(usize, usize)>)
    ensures
        match out {
            Some((i, r)) => first_violation(views(facts@), ns@, i as int, r as int),
            None => valid(views(facts@), ns@),
        },
{
    let ghost fv = views(facts@);
    let table: Vec<(String, String, bool)> = rule_table(ns);
    let type_iri: String = string_of(&chars_of("http://www.w3.org/1999/02/22-rdf-syntax-ns#type"));
    let mut i: usize = 0;
    while i < facts.len()
        invariant
            i <= facts@.len(),
            fv == views(facts@),
            views(table@) == rules_in(ns@),
            table@.len() == rules().len(),
            type_iri@ == rdf_type(),
            forall|i2: int, r2: int| 0 <= i2 < i ==> !violates(fv, ns@, i2, r2),
        decreases facts.len() - i,
    {
        let f = &facts[i];
        assert(fv[i as int] == f@);
        if f.predicate == type_iri {
            let mut r: usize = 0;
            while r < table.len()
                invariant
                    i < facts@.len(),
                    r <= table@.len(),
                    fv == views(facts@),
                    fv[i as int] == f@,
                    f.predicate@ == rdf_type(),
                    views(table@) == rules_in(ns@),
                    table@.len() == rules().len(),
                    forall|r2: int| 0 <= r2 < r ==> !violates(fv, ns@, i as int, r2),
                    forall|i2: int, r2: int| 0 <= i2 < i ==> !violates(fv, ns@, i2, r2),
                decreases table.len() - r,
            {
                let rule = &table[r];
                assert(views(table@)[r as int] == rule@);
                if f.object == rule.0 {
                    if !rule_satisfied(facts, &f.subject, &rule.1, rule.2) {
                        proof {
                            assert(violates(fv, ns@, i as int, r as int));
                            assert forall|i2: int, r2: int| #[trigger]
                                violates(fv, ns@, i2, r2) implies i < i2 || (i == i2 && r
                                <= r2) by {
                                if i2 < i {
                                    assert(!violates(fv, ns@, i2, r2));
                                } else if i2 == i && r2 < r {
                                    assert(!violates(fv, ns@, i as int, r2));
                                }
                            }
                        }
                        return Some((i, r));
                    }
                }
                r += 1;
            }
        }
        i += 1;
    }
    None
}

/// Why a domain description cannot be loaded.
#[derive(Debug)]
pub enum LoadError {
    /// `subject` is typed as a recognized category and lacks the companion
    /// `expected_predicate` that the category requires.
    MissingRequiredPredicate { subject: String, expected_predicate: String },
    /// Line `line` uses `prefix`, which is not declared above it.
    UnresolvedPrefix { prefix: String, line: usize },
    /// Line `line` is no declaration and no triple.
    MalformedTriple { line: usize },
}

/// Whether a fact has the given predicate and object, where given.
pub open spec fn is_candidate(
    fact: (Seq<char>, Seq<char>, Seq<char>),
    predicate: Option<Seq<char>>,
    object: Option<Seq<char>>,
) -> bool {
    (predicate.is_none() || predicate.unwrap() == fact.1) && (object.is_none() || object.unwrap()
        == fact.2)
}

/// The facts with the given predicate and object, in order.
pub open spec fn candidates(
    facts: Seq<(Seq<char>, Seq<char>, Seq<char>)>,
    predicate: Option<Seq<char>>,
    object: Option<Seq<char>>,
) -> Seq<(Seq<char>, Seq<char>, Seq<char>)>
    decreases facts.len(),
{
    if facts.len() == 0 {
        Seq::empty()
    } else if is_candidate(facts.last(), predicate, object) {
        candidates(facts.drop_last(), predicate, object).push(facts.last())
    } else {
        candidates(facts.drop_last(), predicate, object)
    }
}

/// The subjects of the facts that type their subject as `type_iri`, in
/// order.
pub open spec fn typed_subjects(
    facts: Seq<(Seq<char>, Seq<char>, Seq<char>)>,
    type_iri: Seq<char>,
) -> Seq<Seq<char>> {
    candidates(facts, Some(rdf_type()), Some(type_iri)).map_values(
        |f: (Seq<char>, Seq<char>, Seq<char>)| f.0,
    )
}

/// The views of borrowed facts.
pub open spec fn candidate_views(found: Seq<&Triple>) -> Seq<(Seq<char>, Seq<char>, Seq<char>)> {
    found.map_values(|t: &Triple| t@)
}

/// Facts in load order, with the prefix table and the base IRI they were
/// written against. A store does not change once it is loaded.
pub struct Store {
    prefixes: Vec<(String, String)>,
    base: String,
    triples: Vec<Triple>,
}

impl Store {
    /// The facts, in load order.
    pub closed spec fn facts(&self) -> Seq<(Seq<char>, Seq<char>, Seq<char>)> {
        views(self.triples@)
    }

    /// The prefix table: prefixes with the IRIs they stand for.
    pub closed spec fn prefix_table(&self) -> Seq<(Seq<char>, Seq<char>)> {
        views(self.prefixes@)
    }

    /// The base IRI; empty when none was declared.
    pub closed spec fn base_iri(&self) -> Seq<char> {
        self.base@
    }

    /// Every typed subject has the companions of its category, under the
    /// vocabulary of the store's own prefix table.
    pub open spec fn valid(&self) -> bool {
        valid_under(self.facts(), self.prefix_table())
    }

    /// Loads a domain description.
    ///
    /// The text is read line by line. The first line that cannot be read
    /// fails the load, with `UnresolvedPrefix` where a prefix is used before
    /// its declaration and `MalformedTriple` otherwise. Then every typed
    /// subject is checked, and the first missing companion fails the load
    /// with `MissingRequiredPredicate`.
    pub fn load(source_text: &str) -> (out: Result<Store, LoadError>)
        ensures
            match read_lines(lines(source_text@)) {
                Err((LineFault::Malformed, at)) => out matches Err(
                    LoadError::MalformedTriple { line },
                ) && line == at,
                Err((LineFault::Unresolved(p), at)) => out matches Err(
                    LoadError::UnresolvedPrefix { prefix, line },
                ) && line == at && prefix@ == p,
                Ok(state) => if valid_under(state.facts, state.prefixes) {
                    out matches Ok(store) && store.facts() == state.facts && store.prefix_table()
                        == state.prefixes && store.base_iri() == state.base && store.valid()
                } else {
                    out matches Err(LoadError::MissingRequiredPredicate { subject, expected_predicate })
                        && exists|i: int, r: int|
                        #![trigger violates(state.facts, vocabulary(state.prefixes).unwrap(), i, r)]
                        first_violation(state.facts, vocabulary(state.prefixes).unwrap(), i, r)
                            && subject@ == state.facts[i].0 && expected_predicate@ == rules_in(
                            vocabulary(state.prefixes).unwrap(),
                        )[r].1
                },
            },
    {
        let text: Vec<char> = chars_of(source_text);
        let all: Vec<Vec<char>> = split_lines(&text);
        let ghost lv = views(all@);
        let mut state = Loading { prefixes: Vec::new(), base: Vec::new(), triples: Vec::new() };
        let mut i: usize = 0;
        assert(lv.subrange(0, 0) =~= Seq::empty());
        assert(views(state.prefixes@) =~= Seq::empty());
        assert(views(state.triples@) =~= Seq::empty());
        while i < all.len()
            invariant
                i <= all@.len(),
                lv == views(all@),
                lv == lines(source_text@),
                read_lines(lv.subrange(0, i as int)) == Ok::<Loaded, (LineFault, int)>(state@),
            decreases all.len() - i,
        {
            let ghost next = lv.subrange(0, i + 1);
            assert(next.drop_last() =~= lv.subrange(0, i as int));
            assert(next.last() == all@[i as int]@);
            let toks: Vec<Vec<char>> = tokenize(&all[i]);
            match parse_statement(&mut state, &toks) {
                Ok(()) => {},
                Err(e) => {
                    proof {
                        lemma_read_lines_fails_on(lv, i + 1);
                    }
                    match e {
                        LineError::Malformed => {
                            return Err(LoadError::MalformedTriple { line: i + 1 });
                        },
                        LineError::Unresolved(p) => {
                            return Err(
                                LoadError::UnresolvedPrefix { prefix: string_of(&p), line: i + 1 },
                            );
                        },
                    }
                },
            }
            i += 1;
        }
        assert(lv.subrange(0, all@.len() as int) =~= lv);
        let ex: Vec<char> = chars_of("ex");
        match find_key(&state.prefixes, &ex) {
            None => {},
            Some(at) => {
                let ns = &state.prefixes[at].1;
                match find_violation(&state.triples, ns) {
                    None => {},
                    Some((fi, r)) => {
                        let table = rule_table(ns);
                        let subject = state.triples[fi].subject.clone();
                        let expected_predicate = table[r].1.clone();
                        assert(views(table@)[r as int] == table@[r as int]@);
                        return Err(
                            LoadError::MissingRequiredPredicate { subject, expected_predicate },
                        );
                    },
                }
            },
        }
        let prefixes: Vec<(String, String)> = string_pairs(&state.prefixes);
        let base: String = string_of(&state.base);
        Ok(Store { prefixes, base, triples: state.triples })
    }

    /// The facts with the given predicate and object, in load order; a
    /// component that is not given admits every fact.
    pub fn query_candidates(&self, predicate: Option<&String>, object: Option<&String>) -> (out: Vec<
        &Triple,
    >)
        ensures
            candidate_views(out@) == candidates(
                self.facts(),
                match predicate {
                    Some(p) => Some(p@),
                    None => None,
                },
                match object {
                    Some(o) => Some(o@),
                    None => None,
                },
            ),
    {
        let ghost fv = views(self.triples@);
        let ghost pv: Option<Seq<char>> = match predicate {
            Some(p) => Some(p@),
            None => None,
        };
        let ghost ov: Option<Seq<char>> = match object {
            Some(o) => Some(o@),
            None => None,
        };
        let mut out: Vec<&Triple> = Vec::new();
        let mut i: usize = 0;
        assert(fv.subrange(0, 0) =~= Seq::empty());
        assert(candidate_views(out@) =~= Seq::empty());
        while i < self.triples.len()
            invariant
                i <= self.triples@.len(),
                fv == views(self.triples@),
                pv == match predicate {
                    Some(p) => Some(p@),
                    None => None::<Seq<char>>,
                },
                ov == match object {
                    Some(o) => Some(o@),
                    None => None::<Seq<char>>,
                },
                candidate_views(out@) == candidates(fv.subrange(0, i as int), pv, ov),
            decreases self.triples.len() - i,
        {
            let t = &self.triples[i];
            let ghost next = fv.subrange(0, i + 1);
            assert(next.drop_last() =~= fv.subrange(0, i as int));
            assert(next.last() == t@);
            let predicate_fits: bool = match predicate {
                Some(p) => t.predicate == *p,
                None => true,
            };
            let object_fits: bool = match object {
                Some(o) => t.object == *o,
                None => true,
            };
            if predicate_fits && object_fits {
                let ghost before = candidate_views(out@);
                out.push(t);
                assert(candidate_views(out@) =~= before.push(t@));
            }
            i += 1;
        }
        assert(fv.subrange(0, self.triples@.len() as int) =~= fv);
        out
    }

    /// The subjects typed as `type_iri`, in load order: a view over the
    /// facts, not a store of its own.
    pub fn subjects_typed(&self, type_iri: &String) -> (out: Vec<String>)
        ensures
            views(out@) == typed_subjects(self.facts(), type_iri@),
    {
        let type_predicate: String = "http://www.w3.org/1999/02/22-rdf-syntax-ns#type".to_owned();
        let found = self.query_candidates(Some(&type_predicate), Some(type_iri));
        let mut out: Vec<String> = Vec::new();
        let mut i: usize = 0;
        while i < found.len()
            invariant
                i <= found@.len(),
                out@.len() == i,
                forall|j: int| 0 <= j < i ==> (#[trigger] out@[j])@ == found@[j].subject@,
            decreases found.len() - i,
        {
            out.push(found[i].subject.clone());
            i += 1;
        }
        assert(views(out@) =~= typed_subjects(self.facts(), type_iri@));
        out
    }

    /// The facts, in load order.
    pub fn triples(&self) -> (out: &Vec<Triple>)
        ensures
            views(out@) == self.facts(),
    {
        &self.triples
    }

    /// The prefix table.
    pub fn prefixes(&self) -> (out: &Vec<(String, String)>)
        ensures
            views(out@) == self.prefix_table(),
    {
        &self.prefixes
    }

    /// The base IRI; empty when none was declared.
    pub fn base(&self) -> (out: &String)
        ensures
            out@ == self.base_iri(),
    {
        &self.base
    }
}


/// In a store that was loaded, a subject typed as a recognized category
/// has each companion that the category requires.
pub proof fn lemma_loaded_store_has_companions(source_text: &str, store: Store, i: int, r: int)
    requires
        call_ensures(Store::load, (source_text,), Ok::<Store, LoadError>(store)),
        vocabulary(store.prefix_table()).is_some(),
        0 <= i < store.facts().len(),
        0 <= r < rules().len(),
        store.facts()[i].1 == rdf_type(),
        store.facts()[i].2 == vocabulary(store.prefix_table()).unwrap() + rules()[r].0,
    ensures
        satisfied(
            store.facts(),
            store.facts()[i].0,
            rules_in(vocabulary(store.prefix_table()).unwrap())[r],
        ),
{
    let ns = vocabulary(store.prefix_table()).unwrap();
    assert(store.valid());
    assert(!violates(store.facts(), ns, i, r));
}

/// A description that can be read and in which a typed subject lacks a
/// required companion is not loaded: the load fails with
/// `MissingRequiredPredicate`.
pub proof fn lemma_missing_companion_fails_the_load(
    source_text: &str,
    out: Result<Store, LoadError>,
    i: int,
    r: int,
)
    requires
        call_ensures(Store::load, (source_text,), out),
        read_lines(lines(source_text@)) matches Ok(state) && vocabulary(state.prefixes).is_some()
            && violates(state.facts, vocabulary(state.prefixes).unwrap(), i, r),
    ensures
        out matches Err(LoadError::MissingRequiredPredicate { .. }),
{
}

} // verus!
