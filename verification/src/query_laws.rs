//! What holds of the solutions of a query: each of them satisfies every
//! pattern with some fact of the store.

use vstd::prelude::*;
use crate::text::is_first_named;
use crate::text::index_named;
use crate::text::lemma_first_named_unique;
use crate::query::is_variable;
use crate::query::var_name;
use crate::query::keys;
use crate::query::lookup;
use crate::query::unify_one;
use crate::query::unify;
use crate::query::scan;
use crate::query::join;
use crate::query::solve;

verus! {

/// The binding satisfies the pattern with the fact as it stands: matching
/// them binds nothing new.
pub open spec fn agrees(
    b: Seq<(Seq<char>, Seq<char>)>,
    pattern: (Seq<char>, Seq<char>, Seq<char>),
    fact: (Seq<char>, Seq<char>, Seq<char>),
) -> bool {
    unify(b, pattern, fact) == Some(b)
}

/// The binding satisfies the pattern with some fact.
pub open spec fn satisfies(
    b: Seq<(Seq<char>, Seq<char>)>,
    pattern: (Seq<char>, Seq<char>, Seq<char>),
    facts: Seq<(Seq<char>, Seq<char>, Seq<char>)>,
) -> bool {
    exists|i: int| 0 <= i < facts.len() && agrees(b, pattern, #[trigger] facts[i])
}

/// `x` begins with the entries of `b`.
pub open spec fn begins_with(x: Seq<(Seq<char>, Seq<char>)>, b: Seq<(Seq<char>, Seq<char>)>) -> bool {
    b.len() <= x.len() && x.subrange(0, b.len() as int) == b
}

proof fn lemma_lookup_kept(
    b: Seq<(Seq<char>, Seq<char>)>,
    x: Seq<(Seq<char>, Seq<char>)>,
    name: Seq<char>,
)
    requires
        begins_with(x, b),
        keys(b).contains(name),
    ensures
        lookup(x, name) == lookup(b, name),
{
    let i = index_named(keys(b), name);
    let w = choose|w: int| 0 <= w < keys(b).len() && keys(b)[w] == name;
    lemma_least_index(keys(b), name, w);
    assert(is_first_named(keys(b), name, i));
    assert forall|j: int| 0 <= j < b.len() implies keys(x)[j] == keys(b)[j] by {
        assert(x.subrange(0, b.len() as int)[j] == x[j]);
    }
    assert(is_first_named(keys(x), name, i));
    lemma_first_named_unique(keys(x), name, i);
    assert(keys(x).contains(name));
    assert(x.subrange(0, b.len() as int)[i] == x[i]);
}

/// Where a sequence holds `x` at `w`, some index is the first to hold it.
proof fn lemma_least_index(ns: Seq<Seq<char>>, x: Seq<char>, w: int)
    requires
        0 <= w < ns.len(),
        ns[w] == x,
    ensures
        exists|i: int| is_first_named(ns, x, i),
    decreases w,
{
    if exists|j: int| 0 <= j < w && ns[j] == x {
        let j = choose|j: int| 0 <= j < w && ns[j] == x;
        lemma_least_index(ns, x, j);
    } else {
        assert(is_first_named(ns, x, w));
    }
}

/// Matching a component extends the binding at its end, and the extended
/// binding satisfies the component as it stands.
proof fn lemma_unify_one_settles(b: Seq<(Seq<char>, Seq<char>)>, component: Seq<char>, term: Seq<char>)
    ensures
        match unify_one(b, component, term) {
            Some(x) => begins_with(x, b) && unify_one(x, component, term) == Some(x),
            None => true,
        },
{
    match unify_one(b, component, term) {
        Some(x) => {
            if is_variable(component) {
                let name = var_name(component);
                if lookup(b, name).is_none() {
                    assert(x == b.push((name, term)));
                    assert(x.subrange(0, b.len() as int) =~= b);
                    assert(keys(x)[b.len() as int] == name);
                    assert forall|j: int| 0 <= j < b.len() implies keys(x)[j] != name by {
                        assert(keys(x)[j] == keys(b)[j]);
                        if keys(b)[j] == name {
                            assert(keys(b).contains(name));
                        }
                    }
                    assert(is_first_named(keys(x), name, b.len() as int));
                    lemma_first_named_unique(keys(x), name, b.len() as int);
                    assert(keys(x).contains(name));
                } else {
                    assert(x == b);
                    assert(b.subrange(0, b.len() as int) =~= b);
                }
            } else {
                assert(b.subrange(0, b.len() as int) =~= b);
            }
        },
        None => {},
    }
}

/// A component that a binding satisfies as it stands is satisfied by every
/// binding that begins with it.
proof fn lemma_unify_one_stable(
    b: Seq<(Seq<char>, Seq<char>)>,
    x: Seq<(Seq<char>, Seq<char>)>,
    component: Seq<char>,
    term: Seq<char>,
)
    requires
        unify_one(b, component, term) == Some(b),
        begins_with(x, b),
    ensures
        unify_one(x, component, term) == Some(x),
{
    if is_variable(component) {
        let name = var_name(component);
        if lookup(b, name).is_none() {
            assert(b.push((name, term)).len() == b.len() + 1);
        } else {
            lemma_lookup_kept(b, x, name);
        }
    }
}

proof fn lemma_begins_with_chain(
    a: Seq<(Seq<char>, Seq<char>)>,
    b: Seq<(Seq<char>, Seq<char>)>,
    c: Seq<(Seq<char>, Seq<char>)>,
)
    requires
        begins_with(b, a),
        begins_with(c, b),
    ensures
        begins_with(c, a),
{
    assert(c.subrange(0, a.len() as int) =~= a) by {
        assert forall|i: int| 0 <= i < a.len() implies c[i] == a[i] by {
            assert(b.subrange(0, a.len() as int)[i] == b[i]);
            assert(c.subrange(0, b.len() as int)[i] == c[i]);
        }
    }
}

/// Matching a pattern extends the binding at its end, and the extended
/// binding satisfies the pattern with the fact.
proof fn lemma_unify_settles(
    b: Seq<(Seq<char>, Seq<char>)>,
    pattern: (Seq<char>, Seq<char>, Seq<char>),
    fact: (Seq<char>, Seq<char>, Seq<char>),
)
    ensures
        match unify(b, pattern, fact) {
            Some(x) => begins_with(x, b) && agrees(x, pattern, fact),
            None => true,
        },
{
    lemma_unify_one_settles(b, pattern.0, fact.0);
    if let Some(b1) = unify_one(b, pattern.0, fact.0) {
        lemma_unify_one_settles(b1, pattern.1, fact.1);
        if let Some(b2) = unify_one(b1, pattern.1, fact.1) {
            lemma_unify_one_settles(b2, pattern.2, fact.2);
            if let Some(x) = unify_one(b2, pattern.2, fact.2) {
                lemma_begins_with_chain(b1, b2, x);
                lemma_begins_with_chain(b, b1, x);
                lemma_unify_one_stable(b1, x, pattern.0, fact.0);
                lemma_unify_one_stable(b2, x, pattern.1, fact.1);
            }
        }
    }
}

/// A pattern that a binding satisfies with a fact is satisfied with that
/// fact by every binding that begins with it.
proof fn lemma_agreement_stable(
    b: Seq<(Seq<char>, Seq<char>)>,
    x: Seq<(Seq<char>, Seq<char>)>,
    pattern: (Seq<char>, Seq<char>, Seq<char>),
    fact: (Seq<char>, Seq<char>, Seq<char>),
)
    requires
        agrees(b, pattern, fact),
        begins_with(x, b),
    ensures
        agrees(x, pattern, fact),
{
    lemma_unify_one_settles(b, pattern.0, fact.0);
    let b1 = unify_one(b, pattern.0, fact.0).unwrap();
    lemma_unify_one_settles(b1, pattern.1, fact.1);
    let b2 = unify_one(b1, pattern.1, fact.1).unwrap();
    lemma_unify_one_settles(b2, pattern.2, fact.2);
    assert(b1 =~= b) by {
        assert(b1.len() == b.len());
        assert(b1.subrange(0, b.len() as int) =~= b1);
    }
    assert(b2 =~= b) by {
        assert(b2.len() == b.len());
        assert(b2.subrange(0, b1.len() as int) =~= b2);
    }
    lemma_unify_one_stable(b, x, pattern.0, fact.0);
    lemma_unify_one_stable(b, x, pattern.1, fact.1);
    lemma_unify_one_stable(b, x, pattern.2, fact.2);
}

proof fn lemma_scan_settles(
    b: Seq<(Seq<char>, Seq<char>)>,
    pattern: (Seq<char>, Seq<char>, Seq<char>),
    facts: Seq<(Seq<char>, Seq<char>, Seq<char>)>,
    n: int,
)
    requires
        0 <= n <= facts.len(),
    ensures
        forall|k: int|
            0 <= k < scan(b, pattern, facts.subrange(0, n)).len() ==> {
                let x = #[trigger] scan(b, pattern, facts.subrange(0, n))[k];
                begins_with(x, b) && satisfies(x, pattern, facts)
            },
    decreases n,
{
    if n > 0 {
        let upto = facts.subrange(0, n);
        assert(upto.drop_last() =~= facts.subrange(0, n - 1));
        assert(upto.last() == facts[n - 1]);
        lemma_scan_settles(b, pattern, facts, n - 1);
        lemma_unify_settles(b, pattern, facts[n - 1]);
        let head = scan(b, pattern, facts.subrange(0, n - 1));
        assert forall|k: int| 0 <= k < scan(b, pattern, upto).len() implies {
            let x = #[trigger] scan(b, pattern, upto)[k];
            begins_with(x, b) && satisfies(x, pattern, facts)
        } by {
            let x = scan(b, pattern, upto)[k];
            if k < head.len() {
                assert(x == head[k]);
            } else {
                assert(unify(b, pattern, facts[n - 1]) == Some(x));
                assert(agrees(x, pattern, facts[n - 1]));
            }
        }
    }
}

/// A binding that satisfies every one of the patterns.
pub open spec fn satisfies_all(
    b: Seq<(Seq<char>, Seq<char>)>,
    patterns: Seq<(Seq<char>, Seq<char>, Seq<char>)>,
    facts: Seq<(Seq<char>, Seq<char>, Seq<char>)>,
) -> bool {
    forall|j: int| 0 <= j < patterns.len() ==> satisfies(b, #[trigger] patterns[j], facts)
}

proof fn lemma_join_settles(
    bs: Seq<Seq<(Seq<char>, Seq<char>)>>,
    prior: Seq<(Seq<char>, Seq<char>, Seq<char>)>,
    pattern: (Seq<char>, Seq<char>, Seq<char>),
    facts: Seq<(Seq<char>, Seq<char>, Seq<char>)>,
)
    requires
        forall|m: int| 0 <= m < bs.len() ==> satisfies_all(#[trigger] bs[m], prior, facts),
    ensures
        forall|k: int|
            0 <= k < join(bs, pattern, facts).len() ==> satisfies_all(
                #[trigger] join(bs, pattern, facts)[k],
                prior.push(pattern),
                facts,
            ),
    decreases bs.len(),
{
    if bs.len() > 0 {
        lemma_join_settles(bs.drop_last(), prior, pattern, facts);
        lemma_scan_settles(bs.last(), pattern, facts, facts.len() as int);
        assert(facts.subrange(0, facts.len() as int) =~= facts);
        let head = join(bs.drop_last(), pattern, facts);
        let tail = scan(bs.last(), pattern, facts);
        let all = prior.push(pattern);
        assert forall|k: int| 0 <= k < join(bs, pattern, facts).len() implies satisfies_all(
            #[trigger] join(bs, pattern, facts)[k],
            all,
            facts,
        ) by {
            let x = join(bs, pattern, facts)[k];
            if k < head.len() {
                assert(x == head[k]);
            } else {
                assert(x == tail[k - head.len()]);
                assert(begins_with(x, bs.last()) && satisfies(x, pattern, facts));
                assert(satisfies_all(bs.last(), prior, facts));
                assert forall|j: int| 0 <= j < all.len() implies satisfies(
                    x,
                    #[trigger] all[j],
                    facts,
                ) by {
                    if j < prior.len() {
                        assert(all[j] == prior[j]);
                        assert(satisfies(bs.last(), prior[j], facts));
                        let i = choose|i: int|
                            0 <= i < facts.len() && agrees(bs.last(), prior[j], #[trigger] facts[i]);
                        lemma_agreement_stable(bs.last(), x, prior[j], facts[i]);
                    }
                }
            }
        }
    }
}

/// Every solution satisfies every pattern: with the solution's values in
/// the place of the variables, each pattern is a fact of the store, and a
/// variable stands for the same value wherever it occurs.
pub proof fn lemma_solutions_satisfy_patterns(
    patterns: Seq<(Seq<char>, Seq<char>, Seq<char>)>,
    facts: Seq<(Seq<char>, Seq<char>, Seq<char>)>,
)
    ensures
        forall|k: int|
            0 <= k < solve(patterns, facts).len() ==> satisfies_all(
                #[trigger] solve(patterns, facts)[k],
                patterns,
                facts,
            ),
    decreases patterns.len(),
{
    if patterns.len() > 0 {
        lemma_solutions_satisfy_patterns(patterns.drop_last(), facts);
        lemma_join_settles(
            solve(patterns.drop_last(), facts),
            patterns.drop_last(),
            patterns.last(),
            facts,
        );
        assert(patterns.drop_last().push(patterns.last()) =~= patterns);
    }
}

} // verus!
