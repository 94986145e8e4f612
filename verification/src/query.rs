//! Triple-pattern queries and their evaluation by nested-loop join.
//!
//! A pattern is a triple whose components may be variables, written with a
//! leading `?`. A binding lists variable names (without the `?`) with the
//! terms they stand for, in the order in which they were bound.

use vstd::prelude::*;
use crate::store::Triple;
use crate::store::Store;
use crate::store::read_term;
use crate::store::read_predicate;
use crate::store::parse_term;
use crate::store::parse_predicate;
use crate::store::merge_prefixes;
use crate::text::tokens;
use crate::text::tokenize;
use crate::text::is_text;
use crate::text::views;
use crate::text::views2;
use crate::text::is_first_named;
use crate::text::index_named;
use crate::text::lemma_first_named_unique;
use crate::text::chars_of;
use crate::text::string_of;
use crate::text::slice;

verus! {

/// Whether a pattern component is a variable.
pub open spec fn is_variable(component: Seq<char>) -> bool {
    component.len() > 0 && component[0] == '?'
}

/// The name of a variable component.
pub open spec fn var_name(component: Seq<char>) -> Seq<char> {
    component.subrange(1, component.len() as int)
}

/// The names a binding binds, in order.
pub open spec fn keys(b: Seq<(Seq<char>, Seq<char>)>) -> Seq<Seq<char>> {
    Seq::new(b.len(), |i: int| b[i].0)
}

/// What a binding holds for a name: the value of the first entry of that
/// name.
pub open spec fn lookup(b: Seq<(Seq<char>, Seq<char>)>, name: Seq<char>) -> Option<Seq<char>> {
    if keys(b).contains(name) {
        Some(b[index_named(keys(b), name)].1)
    } else {
        None
    }
}

/// Matches one pattern component against one term of a fact: a constant
/// must equal the term, a bound variable must stand for it, and an unbound
/// variable becomes bound to it.
pub open spec fn unify_one(
    b: Seq<(Seq<char>, Seq<char>)>,
    component: Seq<char>,
    term: Seq<char>,
) -> Option<Seq<(Seq<char>, Seq<char>)>> {
    if is_variable(component) {
        match lookup(b, var_name(component)) {
            Some(v) => if v == term {
                Some(b)
            } else {
                None
            },
            None => Some(b.push((var_name(component), term))),
        }
    } else if component == term {
        Some(b)
    } else {
        None
    }
}

/// Matches a pattern against a fact, subject first, then predicate, then
/// object.
pub open spec fn unify(
    b: Seq<(Seq<char>, Seq<char>)>,
    pattern: (Seq<char>, Seq<char>, Seq<char>),
    fact: (Seq<char>, Seq<char>, Seq<char>),
) -> Option<Seq<(Seq<char>, Seq<char>)>> {
    match unify_one(b, pattern.0, fact.0) {
        None => None,
        Some(b1) => match unify_one(b1, pattern.1, fact.1) {
            None => None,
            Some(b2) => unify_one(b2, pattern.2, fact.2),
        },
    }
}

/// The extensions of one binding by the facts that match the pattern, in
/// the order of the facts.
pub open spec fn scan(
    b: Seq<(Seq<char>, Seq<char>)>,
    pattern: (Seq<char>, Seq<char>, Seq<char>),
    facts: Seq<(Seq<char>, Seq<char>, Seq<char>)>,
) -> Seq<Seq<(Seq<char>, Seq<char>)>>
    decreases facts.len(),
{
    if facts.len() == 0 {
        Seq::empty()
    } else {
        scan(b, pattern, facts.drop_last()) + match unify(b, pattern, facts.last()) {
            Some(x) => seq![x],
            None => Seq::empty(),
        }
    }
}

/// The extensions of each binding in turn.
pub open spec fn join(
    bs: Seq<Seq<(Seq<char>, Seq<char>)>>,
    pattern: (Seq<char>, Seq<char>, Seq<char>),
    facts: Seq<(Seq<char>, Seq<char>, Seq<char>)>,
) -> Seq<Seq<(Seq<char>, Seq<char>)>>
    decreases bs.len(),
{
    if bs.len() == 0 {
        Seq::empty()
    } else {
        join(bs.drop_last(), pattern, facts) + scan(bs.last(), pattern, facts)
    }
}

/// The bindings that satisfy all the patterns, in the order in which the
/// last join finds them.
pub open spec fn solve(
    patterns: Seq<(Seq<char>, Seq<char>, Seq<char>)>,
    facts: Seq<(Seq<char>, Seq<char>, Seq<char>)>,
) -> Seq<Seq<(Seq<char>, Seq<char>)>>
    decreases patterns.len(),
{
    if patterns.len() == 0 {
        seq![Seq::empty()]
    } else {
        join(solve(patterns.drop_last(), facts), patterns.last(), facts)
    }
}

/// Whether a pattern mentions the variable `name`.
pub open spec fn mentions(pattern: (Seq<char>, Seq<char>, Seq<char>), name: Seq<char>) -> bool {
    ||| (is_variable(pattern.0) && var_name(pattern.0) == name)
    ||| (is_variable(pattern.1) && var_name(pattern.1) == name)
    ||| (is_variable(pattern.2) && var_name(pattern.2) == name)
}

/// Whether some pattern mentions the variable `name`.
pub open spec fn occurs(patterns: Seq<(Seq<char>, Seq<char>, Seq<char>)>, name: Seq<char>) -> bool {
    exists|j: int| 0 <= j < patterns.len() && mentions(#[trigger] patterns[j], name)
}

/// The binding binds every variable that the patterns mention.
pub open spec fn covers(
    b: Seq<(Seq<char>, Seq<char>)>,
    patterns: Seq<(Seq<char>, Seq<char>, Seq<char>)>,
) -> bool {
    forall|name: Seq<char>| occurs(patterns, name) ==> #[trigger] keys(b).contains(name)
}

/// The row that a binding gives: each projected variable with its value,
/// in the order of the projection.
pub open spec fn project(b: Seq<(Seq<char>, Seq<char>)>, projected: Seq<Seq<char>>) -> Seq<
    (Seq<char>, Seq<char>),
> {
    Seq::new(projected.len(), |i: int| (projected[i], lookup(b, projected[i]).unwrap()))
}

/// The rows of a query: one for each solution, in order.
pub open spec fn answer(
    facts: Seq<(Seq<char>, Seq<char>, Seq<char>)>,
    patterns: Seq<(Seq<char>, Seq<char>, Seq<char>)>,
    projected: Seq<Seq<char>>,
) -> Seq<Seq<(Seq<char>, Seq<char>)>> {
    solve(patterns, facts).map_values(|b: Seq<(Seq<char>, Seq<char>)>| project(b, projected))
}

/// The projected variable with index `i` is the first that no pattern
/// mentions.
pub open spec fn first_unbound(
    patterns: Seq<(Seq<char>, Seq<char>, Seq<char>)>,
    projected: Seq<Seq<char>>,
    i: int,
) -> bool {
    &&& 0 <= i < projected.len()
    &&& !occurs(patterns, projected[i])
    &&& forall|j: int| 0 <= j < i ==> occurs(patterns, #[trigger] projected[j])
}

/// The name of a variable component; `None` for a constant.
pub(crate) fn variable_name(component: &String) -> (out: Option<String>)
    ensures
        match out {
            Some(n) => is_variable(component@) && n@ == var_name(component@),
            None => !is_variable(component@),
        },
{
    let cs: Vec<char> = chars_of(component.as_str());
    if cs.len() > 0 && cs[0] == '?' {
        Some(string_of(&slice(&cs, 1, cs.len())))
    } else {
        None
    }
}

/// The index of the first entry of a binding for `name`.
pub(crate) fn find_bound(b: &Vec<(String, String)>, name: &String) -> (out: Option<usize>)
    ensures
        match out {
            Some(i) => i < b@.len() && is_first_named(keys(views(b@)), name@, i as int) && i
                == index_named(keys(views(b@)), name@) && lookup(views(b@), name@) == Some(
                b@[i as int].1@,
            ),
            None => !keys(views(b@)).contains(name@) && lookup(views(b@), name@).is_none(),
        },
{
    let ghost ks = keys(views(b@));
    let mut i: usize = 0;
    while i < b.len()
        invariant
            i <= b@.len(),
            ks == keys(views(b@)),
            forall|j: int| 0 <= j < i ==> ks[j] != name@,
        decreases b.len() - i,
    {
        assert(ks[i as int] == b@[i as int].0@);
        if b[i].0 == *name {
            proof {
                lemma_first_named_unique(ks, name@, i as int);
                assert(ks.contains(name@));
            }
            return Some(i);
        }
        i += 1;
    }
    None
}

/// A copy of a binding.
pub(crate) fn copy_binding(b: &Vec<(String, String)>) -> (out: Vec<(String, String)>)
    ensures
        views(out@) == views(b@),
{
    let mut out: Vec<(String, String)> = Vec::new();
    let mut i: usize = 0;
    while i < b.len()
        invariant
            i <= b@.len(),
            out@.len() == i,
            forall|j: int| 0 <= j < i ==> (#[trigger] out@[j])@ == b@[j]@,
        decreases b.len() - i,
    {
        out.push((b[i].0.clone(), b[i].1.clone()));
        i += 1;
    }
    assert(views(out@) =~= views(b@));
    out
}

/// Matches one pattern component against one term, extending the binding
/// where a variable becomes bound; says whether they match. The binding is
/// unchanged when they do not.
fn unify_component(b: &mut Vec<(String, String)>, component: &String, term: &String) -> (ok:
    bool)
    ensures
        match unify_one(views(old(b)@), component@, term@) {
            Some(x) => ok && views(final(b)@) == x,
            None => !ok && views(final(b)@) == views(old(b)@),
        },
{
    match variable_name(component) {
        Some(name) => {
            match find_bound(b, &name) {
                Some(i) => b[i].1 == *term,
                None => {
                    let ghost before = views(b@);
                    b.push((name, term.clone()));
                    assert(views(b@) =~= before.push((var_name(component@), term@)));
                    true
                },
            }
        },
        None => *component == *term,
    }
}

/// Matches a pattern against a fact; the extended binding if they match.
pub fn unify_fact(b: &Vec<(String, String)>, pattern: &Triple, fact: &Triple) -> (out: Option<
    Vec<(String, String)>,
>)
    ensures
        match unify(views(b@), pattern@, fact@) {
            Some(x) => out.is_some() && views(out.unwrap()@) == x,
            None => out.is_none(),
        },
{
    let mut c: Vec<(String, String)> = copy_binding(b);
    if !unify_component(&mut c, &pattern.subject, &fact.subject) {
        return None;
    }
    if !unify_component(&mut c, &pattern.predicate, &fact.predicate) {
        return None;
    }
    if !unify_component(&mut c, &pattern.object, &fact.object) {
        return None;
    }
    Some(c)
}

/// Appends to `out` the extensions of `b` by the facts that match.
fn scan_into(
    out: &mut Vec<Vec<(String, String)>>,
    b: &Vec<(String, String)>,
    pattern: &Triple,
    facts: &Vec<Triple>,
)
    ensures
        views2(final(out)@) == views2(old(out)@) + scan(views(b@), pattern@, views(facts@)),
{
    let ghost start = views2(out@);
    let ghost all = views(facts@);
    let mut i: usize = 0;
    assert(all.subrange(0, 0) =~= Seq::empty());
    assert(start + scan(views(b@), pattern@, all.subrange(0, 0)) =~= start);
    while i < facts.len()
        invariant
            i <= facts@.len(),
            all == views(facts@),
            views2(out@) == start + scan(views(b@), pattern@, all.subrange(0, i as int)),
        decreases facts.len() - i,
    {
        let ghost upto = all.subrange(0, i as int);
        let ghost next = all.subrange(0, i + 1);
        assert(next.drop_last() =~= upto);
        assert(next.last() == facts@[i as int]@);
        let ghost before = views2(out@);
        match unify_fact(b, pattern, &facts[i]) {
            Some(x) => {
                let ghost xv = views(x@);
                out.push(x);
                assert(views2(out@) =~= before.push(xv));
                assert(start + (scan(views(b@), pattern@, upto) + seq![xv]) =~= before.push(xv));
            },
            None => {
                assert(start + (scan(views(b@), pattern@, upto) + Seq::empty()) =~= before);
            },
        }
        i += 1;
    }
    assert(all.subrange(0, facts@.len() as int) =~= all);
}

/// The extensions of each binding in turn by the facts that match.
fn join_with(bs: &Vec<Vec<(String, String)>>, pattern: &Triple, facts: &Vec<Triple>) -> (out: Vec<
    Vec<(String, String)>,
>)
    ensures
        views2(out@) == join(views2(bs@), pattern@, views(facts@)),
{
    let mut out: Vec<Vec<(String, String)>> = Vec::new();
    let ghost all = views2(bs@);
    let mut i: usize = 0;
    assert(all.subrange(0, 0) =~= Seq::empty());
    assert(views2(out@) =~= join(all.subrange(0, 0), pattern@, views(facts@)));
    while i < bs.len()
        invariant
            i <= bs@.len(),
            all == views2(bs@),
            views2(out@) == join(all.subrange(0, i as int), pattern@, views(facts@)),
        decreases bs.len() - i,
    {
        let ghost next = all.subrange(0, i + 1);
        assert(next.drop_last() =~= all.subrange(0, i as int));
        assert(next.last() == views(bs@[i as int]@));
        scan_into(&mut out, &bs[i], pattern, facts);
        i += 1;
    }
    assert(all.subrange(0, bs@.len() as int) =~= all);
    out
}

/// The bindings that satisfy all the patterns.
pub fn solutions(patterns: &Vec<Triple>, facts: &Vec<Triple>) -> (out: Vec<Vec<(String, String)>>)
    ensures
        views2(out@) == solve(views(patterns@), views(facts@)),
{
    let mut cur: Vec<Vec<(String, String)>> = Vec::new();
    cur.push(Vec::new());
    let ghost all = views(patterns@);
    assert(all.subrange(0, 0) =~= Seq::empty());
    assert(views(cur@[0]@) =~= Seq::empty());
    assert(views2(cur@) =~= seq![Seq::empty()]);
    let mut i: usize = 0;
    while i < patterns.len()
        invariant
            i <= patterns@.len(),
            all == views(patterns@),
            views2(cur@) == solve(all.subrange(0, i as int), views(facts@)),
        decreases patterns.len() - i,
    {
        let ghost next = all.subrange(0, i + 1);
        assert(next.drop_last() =~= all.subrange(0, i as int));
        assert(next.last() == patterns@[i as int]@);
        cur = join_with(&cur, &patterns[i], facts);
        i += 1;
    }
    assert(all.subrange(0, patterns@.len() as int) =~= all);
    cur
}

/// `y` binds every name that `b` binds.
pub open spec fn keeps_names(b: Seq<(Seq<char>, Seq<char>)>, y: Seq<(Seq<char>, Seq<char>)>) -> bool {
    forall|name: Seq<char>| keys(b).contains(name) ==> #[trigger] keys(y).contains(name)
}

/// `x` binds what `b` binds and every variable of the pattern.
pub open spec fn grown(
    b: Seq<(Seq<char>, Seq<char>)>,
    pattern: (Seq<char>, Seq<char>, Seq<char>),
    x: Seq<(Seq<char>, Seq<char>)>,
) -> bool {
    keeps_names(b, x) && forall|name: Seq<char>|
        mentions(pattern, name) ==> #[trigger] keys(x).contains(name)
}

proof fn lemma_unify_one_grows(b: Seq<(Seq<char>, Seq<char>)>, component: Seq<char>, term: Seq<char>)
    ensures
        match unify_one(b, component, term) {
            Some(x) => keeps_names(b, x) && (is_variable(component) ==> keys(x).contains(
                var_name(component),
            )),
            None => true,
        },
{
    if is_variable(component) {
        let name = var_name(component);
        if lookup(b, name).is_none() {
            let x = b.push((name, term));
            assert(keys(x) =~= keys(b).push(name));
            assert(keys(x)[b.len() as int] == name);
            assert forall|n: Seq<char>| keys(b).contains(n) implies #[trigger] keys(x).contains(
                n,
            ) by {
                let i = choose|i: int| 0 <= i < keys(b).len() && keys(b)[i] == n;
                assert(keys(x)[i] == n);
            }
        }
    }
}

proof fn lemma_unify_grows(
    b: Seq<(Seq<char>, Seq<char>)>,
    pattern: (Seq<char>, Seq<char>, Seq<char>),
    fact: (Seq<char>, Seq<char>, Seq<char>),
)
    ensures
        match unify(b, pattern, fact) {
            Some(x) => grown(b, pattern, x),
            None => true,
        },
{
    lemma_unify_one_grows(b, pattern.0, fact.0);
    if let Some(b1) = unify_one(b, pattern.0, fact.0) {
        lemma_unify_one_grows(b1, pattern.1, fact.1);
        if let Some(b2) = unify_one(b1, pattern.1, fact.1) {
            lemma_unify_one_grows(b2, pattern.2, fact.2);
        }
    }
}

proof fn lemma_scan_grows(
    b: Seq<(Seq<char>, Seq<char>)>,
    pattern: (Seq<char>, Seq<char>, Seq<char>),
    facts: Seq<(Seq<char>, Seq<char>, Seq<char>)>,
)
    ensures
        forall|k: int|
            0 <= k < scan(b, pattern, facts).len() ==> grown(
                b,
                pattern,
                #[trigger] scan(b, pattern, facts)[k],
            ),
    decreases facts.len(),
{
    if facts.len() > 0 {
        lemma_scan_grows(b, pattern, facts.drop_last());
        lemma_unify_grows(b, pattern, facts.last());
        let head = scan(b, pattern, facts.drop_last());
        assert forall|k: int| 0 <= k < scan(b, pattern, facts).len() implies grown(
            b,
            pattern,
            #[trigger] scan(b, pattern, facts)[k],
        ) by {
            if k < head.len() {
                assert(scan(b, pattern, facts)[k] == head[k]);
            }
        }
    }
}

proof fn lemma_join_covers(
    bs: Seq<Seq<(Seq<char>, Seq<char>)>>,
    prior: Seq<(Seq<char>, Seq<char>, Seq<char>)>,
    pattern: (Seq<char>, Seq<char>, Seq<char>),
    facts: Seq<(Seq<char>, Seq<char>, Seq<char>)>,
)
    requires
        forall|m: int| 0 <= m < bs.len() ==> covers(#[trigger] bs[m], prior),
    ensures
        forall|k: int|
            0 <= k < join(bs, pattern, facts).len() ==> covers(
                #[trigger] join(bs, pattern, facts)[k],
                prior.push(pattern),
            ),
    decreases bs.len(),
{
    if bs.len() > 0 {
        lemma_join_covers(bs.drop_last(), prior, pattern, facts);
        lemma_scan_grows(bs.last(), pattern, facts);
        let head = join(bs.drop_last(), pattern, facts);
        let tail = scan(bs.last(), pattern, facts);
        assert forall|k: int| 0 <= k < join(bs, pattern, facts).len() implies covers(
            #[trigger] join(bs, pattern, facts)[k],
            prior.push(pattern),
        ) by {
            let x = join(bs, pattern, facts)[k];
            if k < head.len() {
                assert(x == head[k]);
            } else {
                assert(x == tail[k - head.len()]);
                assert(grown(bs.last(), pattern, x));
                assert(covers(bs.last(), prior));
                assert forall|name: Seq<char>| occurs(prior.push(pattern), name) implies #[trigger] keys(
                    x,
                ).contains(name) by {
                    let j = choose|j: int|
                        0 <= j < prior.push(pattern).len() && mentions(
                            #[trigger] prior.push(pattern)[j],
                            name,
                        );
                    if j < prior.len() {
                        assert(mentions(prior[j], name));
                        assert(occurs(prior, name));
                        assert(keys(bs.last()).contains(name));
                    }
                }
            }
        }
    }
}

/// Every solution binds every variable that the patterns mention.
pub proof fn lemma_solutions_cover(
    patterns: Seq<(Seq<char>, Seq<char>, Seq<char>)>,
    facts: Seq<(Seq<char>, Seq<char>, Seq<char>)>,
)
    ensures
        forall|k: int|
            0 <= k < solve(patterns, facts).len() ==> covers(
                #[trigger] solve(patterns, facts)[k],
                patterns,
            ),
    decreases patterns.len(),
{
    if patterns.len() > 0 {
        lemma_solutions_cover(patterns.drop_last(), facts);
        lemma_join_covers(
            solve(patterns.drop_last(), facts),
            patterns.drop_last(),
            patterns.last(),
            facts,
        );
        assert(patterns.drop_last().push(patterns.last()) =~= patterns);
    } else {
        assert forall|name: Seq<char>| !occurs(patterns, name) by {}
    }
}

/// A named query: patterns to satisfy and the variables to report, by
/// name and in order.
#[derive(Debug)]
pub struct Query {
    pub name: String,
    pub patterns: Vec<Triple>,
    pub projected: Vec<String>,
}

/// The rows of a query, in order, under the query's name. Each row lists
/// the projected variables with their values. A result set may be empty.
#[derive(Debug)]
pub struct ResultSet {
    pub name: String,
    pub rows: Vec<Vec<(String, String)>>,
}

/// Why a query cannot be evaluated or read.
#[derive(Debug)]
pub enum QueryError {
    /// A projected variable that no pattern mentions.
    UnboundVariable(String),
    /// Query text that is no `SELECT ... WHERE { ... }` over whole patterns.
    MalformedPattern(String),
}

fn component_is(component: &String, name: &String) -> (out: bool)
    ensures
        out == (is_variable(component@) && var_name(component@) == name@),
{
    match variable_name(component) {
        Some(n) => n == *name,
        None => false,
    }
}

fn occurs_in(patterns: &Vec<Triple>, name: &String) -> (out: bool)
    ensures
        out == occurs(views(patterns@), name@),
{
    let mut j: usize = 0;
    while j < patterns.len()
        invariant
            j <= patterns@.len(),
            forall|i: int| 0 <= i < j ==> !mentions(#[trigger] views(patterns@)[i], name@),
        decreases patterns.len() - j,
    {
        let p = &patterns[j];
        assert(views(patterns@)[j as int] == p@);
        if component_is(&p.subject, name) || component_is(&p.predicate, name) || component_is(
            &p.object,
            name,
        ) {
            return true;
        }
        j += 1;
    }
    false
}

fn project_row(b: &Vec<(String, String)>, projected: &Vec<String>) -> (out: Vec<(String, String)>)
    requires
        forall|i: int|
            0 <= i < projected@.len() ==> keys(views(b@)).contains((#[trigger] projected@[i])@),
    ensures
        views(out@) == project(views(b@), views(projected@)),
{
    let mut out: Vec<(String, String)> = Vec::new();
    let mut i: usize = 0;
    while i < projected.len()
        invariant
            i <= projected@.len(),
            forall|j: int|
                0 <= j < projected@.len() ==> keys(views(b@)).contains(
                    (#[trigger] projected@[j])@,
                ),
            out@.len() == i,
            forall|j: int|
                0 <= j < i ==> (#[trigger] out@[j])@ == (
                    projected@[j]@,
                    lookup(views(b@), projected@[j]@).unwrap(),
                ),
        decreases projected.len() - i,
    {
        let name = &projected[i];
        assert(keys(views(b@)).contains(projected@[i as int]@));
        let value: String = match find_bound(b, name) {
            Some(at) => b[at].1.clone(),
            None => String::new(),
        };
        out.push((name.clone(), value));
        i += 1;
    }
    assert(views(out@) =~= project(views(b@), views(projected@)));
    out
}

/// Evaluates a query against a store.
///
/// Fails with `UnboundVariable`, naming the first projected variable that
/// no pattern mentions, exactly when there is one. Otherwise the rows are
/// the solutions of the patterns in the order in which the nested-loop join
/// over the facts in load order finds them, each projected in the order of
/// the projection.
pub fn evaluate(store: &Store, query: &Query) -> (out: Result<ResultSet, QueryError>)
    ensures
        out is Ok <==> forall|i: int|
            0 <= i < query.projected@.len() ==> occurs(
                views(query.patterns@),
                (#[trigger] query.projected@[i])@,
            ),
        out matches Ok(rs) ==> rs.name@ == query.name@ && views2(rs.rows@) == answer(
            store.facts(),
            views(query.patterns@),
            views(query.projected@),
        ),
        out matches Err(e) ==> e matches QueryError::UnboundVariable(name) && exists|i: int|
            first_unbound(views(query.patterns@), views(query.projected@), i) && name@
                == #[trigger] views(query.projected@)[i],
{
    let ghost patterns = views(query.patterns@);
    let ghost projected = views(query.projected@);
    let mut i: usize = 0;
    while i < query.projected.len()
        invariant
            i <= query.projected@.len(),
            patterns == views(query.patterns@),
            projected == views(query.projected@),
            forall|j: int| 0 <= j < i ==> occurs(patterns, (#[trigger] query.projected@[j])@),
        decreases query.projected.len() - i,
    {
        if !occurs_in(&query.patterns, &query.projected[i]) {
            proof {
                assert(projected[i as int] == query.projected@[i as int]@);
                assert forall|j: int| 0 <= j < i implies occurs(
                    patterns,
                    #[trigger] projected[j],
                ) by {
                    assert(occurs(patterns, query.projected@[j]@));
                }
                assert(first_unbound(patterns, projected, i as int));
            }
            return Err(QueryError::UnboundVariable(query.projected[i].clone()));
        }
        i += 1;
    }
    let found: Vec<Vec<(String, String)>> = solutions(&query.patterns, store.triples());
    proof {
        lemma_solutions_cover(patterns, store.facts());
    }
    let ghost sols = solve(patterns, store.facts());
    let mut rows: Vec<Vec<(String, String)>> = Vec::new();
    let mut k: usize = 0;
    while k < found.len()
        invariant
            k <= found@.len(),
            patterns == views(query.patterns@),
            projected == views(query.projected@),
            sols == views2(found@),
            forall|j: int| 0 <= j < sols.len() ==> covers(#[trigger] sols[j], patterns),
            forall|j: int|
                0 <= j < query.projected@.len() ==> occurs(
                    patterns,
                    (#[trigger] query.projected@[j])@,
                ),
            rows@.len() == k,
            forall|j: int| 0 <= j < k ==> views(#[trigger] rows@[j]@) == project(sols[j], projected),
        decreases found.len() - k,
    {
        let b = &found[k];
        proof {
            assert(sols[k as int] == views(b@));
            assert(covers(sols[k as int], patterns));
            assert forall|j: int| 0 <= j < query.projected@.len() implies keys(
                views(b@),
            ).contains((#[trigger] query.projected@[j])@) by {
                assert(occurs(patterns, query.projected@[j]@));
            }
        }
        rows.push(project_row(b, &query.projected));
        k += 1;
    }
    assert(views2(rows@) =~= answer(store.facts(), patterns, projected));
    Ok(ResultSet { name: query.name.clone(), rows })
}

/// The pattern component that a token stands for: a variable (a `?` and a
/// name of at least one character) as written, any other token as the term
/// it stands for; in predicate position `a` stands for `rdf:type`.
pub open spec fn read_component(
    table: Seq<(Seq<char>, Seq<char>)>,
    base: Seq<char>,
    token: Seq<char>,
    predicate: bool,
) -> Option<Seq<char>> {
    if is_variable(token) {
        if token.len() >= 2 {
            Some(token)
        } else {
            None
        }
    } else {
        let term = if predicate {
            read_predicate(table, base, token)
        } else {
            read_term(table, base, token)
        };
        match term {
            Ok(t) => Some(t),
            Err(_) => None,
        }
    }
}

/// The pattern that three tokens stand for.
pub open spec fn read_pattern(
    table: Seq<(Seq<char>, Seq<char>)>,
    base: Seq<char>,
    s: Seq<char>,
    p: Seq<char>,
    o: Seq<char>,
) -> Option<(Seq<char>, Seq<char>, Seq<char>)> {
    match (
        read_component(table, base, s, false),
        read_component(table, base, p, true),
        read_component(table, base, o, false),
    ) {
        (Some(a), Some(b), Some(c)) => Some((a, b, c)),
        _ => None,
    }
}

/// The patterns that the tokens from index `i` on stand for: patterns of
/// three tokens each, with a full stop between neighbours and, if one
/// likes, after the last.
pub open spec fn read_patterns(
    table: Seq<(Seq<char>, Seq<char>)>,
    base: Seq<char>,
    body: Seq<Seq<char>>,
    i: int,
) -> Option<Seq<(Seq<char>, Seq<char>, Seq<char>)>>
    decreases body.len() - i,
{
    if i < 0 || i >= body.len() {
        Some(Seq::empty())
    } else if i + 3 > body.len() {
        None
    } else {
        match read_pattern(table, base, body[i], body[i + 1], body[i + 2]) {
            None => None,
            Some(p) => if i + 3 == body.len() {
                Some(seq![p])
            } else if body[i + 3] == "."@ {
                match read_patterns(table, base, body, i + 4) {
                    Some(rest) => Some(seq![p] + rest),
                    None => None,
                }
            } else {
                None
            },
        }
    }
}

/// The projected names that the tokens from index `i` up to `end` stand
/// for: each token a variable.
pub open spec fn read_projection(toks: Seq<Seq<char>>, i: int, end: int) -> Option<Seq<Seq<char>>>
    decreases end - i,
{
    if i >= end {
        Some(Seq::empty())
    } else if is_variable(toks[end - 1]) && toks[end - 1].len() >= 2 {
        match read_projection(toks, i, end - 1) {
            Some(names) => Some(names.push(var_name(toks[end - 1]))),
            None => None,
        }
    } else {
        None
    }
}

/// The index of the first token from `i` on that is `WHERE`; the number of
/// tokens if there is none.
pub open spec fn where_at(toks: Seq<Seq<char>>, i: int) -> int
    decreases toks.len() - i,
{
    if 0 <= i < toks.len() && toks[i] != "WHERE"@ {
        where_at(toks, i + 1)
    } else {
        i
    }
}

/// What a query text says: `SELECT`, one or more variables, `WHERE`, and
/// the patterns between braces. `None` for any other text.
pub open spec fn read_query(
    table: Seq<(Seq<char>, Seq<char>)>,
    base: Seq<char>,
    text: Seq<char>,
) -> Option<(Seq<(Seq<char>, Seq<char>, Seq<char>)>, Seq<Seq<char>>)> {
    let toks = tokens(text);
    if toks.len() < 5 || toks[0] != "SELECT"@ {
        None
    } else {
        let w = where_at(toks, 1);
        if w < 2 || w + 2 >= toks.len() || toks[w + 1] != "{"@ || toks.last() != "}"@ {
            None
        } else {
            match (
                read_projection(toks, 1, w),
                read_patterns(table, base, toks.subrange(w + 2, toks.len() - 1), 0),
            ) {
                (Some(names), Some(patterns)) => Some((patterns, names)),
                _ => None,
            }
        }
    }
}

fn parse_component(
    table: &Vec<(Vec<char>, Vec<char>)>,
    base: &Vec<char>,
    token: &Vec<char>,
    predicate: bool,
) -> (out: Option<String>)
    ensures
        match read_component(views(table@), base@, token@, predicate) {
            Some(c) => out.is_some() && out.unwrap()@ == c,
            None => out.is_none(),
        },
{
    if token.len() > 0 && token[0] == '?' {
        if token.len() >= 2 {
            Some(string_of(token))
        } else {
            None
        }
    } else {
        let term = if predicate {
            parse_predicate(table, base, token)
        } else {
            parse_term(table, base, token)
        };
        match term {
            Ok(t) => Some(string_of(&t)),
            Err(_) => None,
        }
    }
}

fn parse_pattern(
    table: &Vec<(Vec<char>, Vec<char>)>,
    base: &Vec<char>,
    s: &Vec<char>,
    p: &Vec<char>,
    o: &Vec<char>,
) -> (out: Option<Triple>)
    ensures
        match read_pattern(views(table@), base@, s@, p@, o@) {
            Some(x) => out.is_some() && out.unwrap()@ == x,
            None => out.is_none(),
        },
{
    let subject = match parse_component(table, base, s, false) {
        Some(c) => c,
        None => {
            return None;
        },
    };
    let predicate = match parse_component(table, base, p, true) {
        Some(c) => c,
        None => {
            return None;
        },
    };
    let object = match parse_component(table, base, o, false) {
        Some(c) => c,
        None => {
            return None;
        },
    };
    Some(Triple { subject, predicate, object })
}

fn parse_patterns(
    table: &Vec<(Vec<char>, Vec<char>)>,
    base: &Vec<char>,
    toks: &Vec<Vec<char>>,
    from: usize,
    to: usize,
) -> (out: Option<Vec<Triple>>)
    requires
        from <= to <= toks@.len(),
    ensures
        match read_patterns(
            views(table@),
            base@,
            views(toks@).subrange(from as int, to as int),
            0,
        ) {
            Some(ps) => out.is_some() && views(out.unwrap()@) == ps,
            None => out.is_none(),
        },
{
    let ghost body = views(toks@).subrange(from as int, to as int);
    let ghost tv = views(table@);
    let n: usize = to - from;
    let mut out: Vec<Triple> = Vec::new();
    let mut i: usize = 0;
    assert(views(out@) =~= Seq::empty());
    while i < n
        invariant
            from <= to <= toks@.len(),
            n == to - from,
            i <= n,
            body == views(toks@).subrange(from as int, to as int),
            tv == views(table@),
            read_patterns(tv, base@, body, 0) == match read_patterns(tv, base@, body, i as int) {
                Some(rest) => Some(views(out@) + rest),
                None => None,
            },
        decreases n - i,
    {
        if n - i < 3 {
            return None;
        }
        assert(body[i as int] == toks@[from + i]@);
        assert(body[i + 1] == toks@[from + i + 1]@);
        assert(body[i + 2] == toks@[from + i + 2]@);
        let ghost before = views(out@);
        match parse_pattern(
            table,
            base,
            &toks[from + i],
            &toks[from + i + 1],
            &toks[from + i + 2],
        ) {
            None => {
                return None;
            },
            Some(p) => {
                let ghost pv = p@;
                out.push(p);
                assert(views(out@) =~= before.push(pv));
                if n - i == 3 {
                    assert(before + seq![pv] =~= views(out@));
                    return Some(out);
                }
                assert(body[i + 3] == toks@[from + i + 3]@);
                if !is_text(&toks[from + i + 3], ".") {
                    return None;
                }
                proof {
                    match read_patterns(tv, base@, body, i + 4) {
                        Some(rest) => {
                            assert(before + (seq![pv] + rest) =~= views(out@) + rest);
                        },
                        None => {},
                    }
                }
                i += 4;
            },
        }
    }
    assert(views(out@) + Seq::empty() =~= views(out@));
    Some(out)
}

fn parse_projection(toks: &Vec<Vec<char>>, from: usize, to: usize) -> (out: Option<Vec<String>>)
    requires
        from <= to <= toks@.len(),
    ensures
        match read_projection(views(toks@), from as int, to as int) {
            Some(names) => out.is_some() && views(out.unwrap()@) == names,
            None => out.is_none(),
        },
{
    let ghost tv = views(toks@);
    let mut out: Vec<String> = Vec::new();
    let mut i: usize = from;
    assert(views(out@) =~= Seq::empty());
    while i < to
        invariant
            from <= i <= to,
            to <= toks@.len(),
            tv == views(toks@),
            read_projection(tv, from as int, i as int) == Some(views(out@)),
        decreases to - i,
    {
        let t = &toks[i];
        assert(tv[i as int] == t@);
        if t.len() >= 2 && t[0] == '?' {
            let ghost before = views(out@);
            let name = string_of(&slice(t, 1, t.len()));
            out.push(name);
            assert(views(out@) =~= before.push(var_name(t@)));
        } else {
            proof {
                lemma_projection_fails_on(tv, from as int, i + 1, to as int);
            }
            return None;
        }
        i += 1;
    }
    Some(out)
}

proof fn lemma_projection_fails_on(toks: Seq<Seq<char>>, from: int, n: int, end: int)
    requires
        from < n <= end,
        read_projection(toks, from, n).is_none(),
    ensures
        read_projection(toks, from, end).is_none(),
    decreases end - n,
{
    if n < end {
        lemma_projection_fails_on(toks, from, n, end - 1);
    }
}

fn find_where(toks: &Vec<Vec<char>>, from: usize) -> (out: usize)
    requires
        from <= toks@.len(),
    ensures
        out == where_at(views(toks@), from as int),
        from <= out <= toks@.len(),
{
    let ghost tv = views(toks@);
    let mut i: usize = from;
    while i < toks.len() && !is_text(&toks[i], "WHERE")
        invariant
            from <= i <= toks@.len(),
            tv == views(toks@),
            where_at(tv, from as int) == where_at(tv, i as int),
        decreases toks.len() - i,
    {
        assert(tv[i as int] == toks@[i as int]@);
        i += 1;
    }
    proof {
        if i < toks.len() {
            assert(tv[i as int] == toks@[i as int]@);
        }
    }
    i
}

/// Reads a query text against a prefix table and a base IRI, both given
/// as characters.
pub(crate) fn parse_query_in(name: &str, text: &str, table: &Vec<(Vec<char>, Vec<char>)>, base: &Vec<char>) -> (out:
    Result<Query, QueryError>)
    ensures
        match read_query(views(table@), base@, text@) {
            Some((patterns, names)) => out matches Ok(q) && q.name@ == name@ && views(q.patterns@)
                == patterns && views(q.projected@) == names,
            None => out matches Err(QueryError::MalformedPattern(t)) && t@ == text@,
        },
{
    let cs = chars_of(text);
    let toks = tokenize(&cs);
    let ghost tv = views(toks@);
    let n: usize = toks.len();
    if n < 5 {
        return Err(QueryError::MalformedPattern(text.to_owned()));
    }
    assert(tv[0] == toks@[0]@);
    if !is_text(&toks[0], "SELECT") {
        return Err(QueryError::MalformedPattern(text.to_owned()));
    }
    let w: usize = find_where(&toks, 1);
    if w < 2 || n - w <= 2 {
        return Err(QueryError::MalformedPattern(text.to_owned()));
    }
    assert(tv[w + 1] == toks@[w + 1]@);
    assert(tv.last() == toks@[n - 1]@);
    if !is_text(&toks[w + 1], "{") || !is_text(&toks[n - 1], "}") {
        return Err(QueryError::MalformedPattern(text.to_owned()));
    }
    let projected = match parse_projection(&toks, 1, w) {
        Some(names) => names,
        None => {
            return Err(QueryError::MalformedPattern(text.to_owned()));
        },
    };
    let patterns = match parse_patterns(table, base, &toks, w + 2, n - 1) {
        Some(ps) => ps,
        None => {
            return Err(QueryError::MalformedPattern(text.to_owned()));
        },
    };
    Ok(Query { name: name.to_owned(), patterns, projected })
}

/// Two outcomes of an evaluation say the same: the same rows in the same
/// order under the same name, or the same unbound variable.
pub open spec fn same_outcome(
    first: Result<ResultSet, QueryError>,
    second: Result<ResultSet, QueryError>,
) -> bool {
    match (first, second) {
        (Ok(x), Ok(y)) => x.name@ == y.name@ && views2(x.rows@) == views2(y.rows@),
        (Err(QueryError::UnboundVariable(m)), Err(QueryError::UnboundVariable(n))) => m@ == n@,
        _ => false,
    }
}

/// Evaluation is deterministic: whatever two evaluations of the same
/// query against the same store give, they give the same.
pub proof fn lemma_evaluation_is_deterministic(
    store: &Store,
    query: &Query,
    first: Result<ResultSet, QueryError>,
    second: Result<ResultSet, QueryError>,
)
    requires
        call_ensures(evaluate, (store, query), first),
        call_ensures(evaluate, (store, query), second),
    ensures
        same_outcome(first, second),
{
    let patterns = views(query.patterns@);
    let projected = views(query.projected@);
    if first.is_err() {
        let m = first->Err_0->UnboundVariable_0;
        let n = second->Err_0->UnboundVariable_0;
        let i = choose|i: int| first_unbound(patterns, projected, i) && m@ == #[trigger] projected[i];
        let j = choose|j: int| first_unbound(patterns, projected, j) && n@ == #[trigger] projected[j];
        if i < j {
            assert(occurs(patterns, projected[i]));
        } else if j < i {
            assert(occurs(patterns, projected[j]));
        }
    }
}

/// Reads a query text against a prefix table and a base IRI.
///
/// The result holds the patterns with every constant written out in full
/// and the projected names in the order written. Fails with
/// `MalformedPattern`, carrying the text, exactly when the text is no query.
pub fn parse_query(name: &str, text: &str, prefixes: &Vec<(String, String)>, base: &str) -> (out:
    Result<Query, QueryError>)
    ensures
        match read_query(views(prefixes@), base@, text@) {
            Some((patterns, names)) => out matches Ok(q) && q.name@ == name@ && views(q.patterns@)
                == patterns && views(q.projected@) == names,
            None => out matches Err(QueryError::MalformedPattern(t)) && t@ == text@,
        },
{
    let none: Vec<(String, String)> = Vec::new();
    assert(views(none@) =~= Seq::empty());
    let table = merge_prefixes(prefixes, &none);
    let base_chars = chars_of(base);
    parse_query_in(name, text, &table, &base_chars)
}

} // verus!
