//! Rendering: binds variables and query results into a template body and
//! into its output path.
//!
//! An expression stands between `{{` and `}}` and reads
//! `head | filter | filter ...`. The head is a variable name or one of the
//! result-inspection helpers, called as `helper(query)` or
//! `helper(query, argument)`. The result sets of the named queries stand
//! in the table `sparql_results`, and a helper may name a query as
//! `sparql_results.query`. Filters apply from left to right.

use vstd::prelude::*;
use crate::text::views;
use crate::text::views2;
use crate::text::index_named;
use crate::text::lemma_first_named_unique;
use crate::text::split_on;
use crate::text::starts_with;
use crate::text::has_prefix;
use crate::text::split_at_char;
use crate::text::trim;
use crate::text::trimmed;
use crate::text::unquote;
use crate::text::unquoted;
use crate::text::after_next;
use crate::text::find_after_next;
use crate::text::find_pair;
use crate::text::locate_pair;
use crate::text::is_numeral;
use crate::text::numeral_value;
use crate::text::read_number;
use crate::text::decimal;
use crate::text::push_decimal;
use crate::text::has_char;
use crate::text::slice;
use crate::text::push_all;
use crate::text::is_text;
use crate::text::chars_of;
use crate::text::string_of;
use crate::text::strings_of;
use crate::filters::join;
use crate::filters::join_words;
use crate::filters::filter_named;
use crate::filters::filtered;
use crate::filters::Filter;
use crate::query::keys;
use crate::query::lookup;
use crate::query::is_variable;
use crate::query::var_name;
use crate::query::answer;
use crate::query::occurs;
use crate::query::first_unbound;
use crate::query::read_query;
use crate::query::parse_query_in;
use crate::query::evaluate;
use crate::query::find_bound;
use crate::query::Query;
use crate::query::QueryError;
use crate::query::ResultSet;
use crate::store::Store;
use crate::store::merged;
use crate::store::find_key;
use crate::store::merge_prefixes;
use crate::text::lemma_after_next_found;
use crate::template::TemplateDocument;
use crate::template::Parsed;

verus! {

/// Why a template cannot be rendered.
pub enum RenderFault {
    /// A variable that has neither a default nor an override.
    MissingVariable(Seq<char>),
    /// A filter that is none of the supported ones.
    UnknownFilter(Seq<char>),
    /// A row index, as written, at or beyond the number of rows of the
    /// named query.
    RowIndexOutOfRange(Seq<char>, Seq<char>),
    /// A helper names a query that the template does not declare.
    UnknownQuery(Seq<char>),
    /// An expression that cannot be read, as written.
    MalformedExpression(Seq<char>),
    /// The text of the named query is no query.
    MalformedQuery(Seq<char>),
    /// The named query projects the variable, which none of its patterns
    /// mentions.
    UnboundVariable(Seq<char>, Seq<char>),
}

/// How a term is shown: a literal without its quotes, an IRI as it is.
pub open spec fn display(term: Seq<char>) -> Seq<char> {
    unquote(term)
}

/// How a row is shown: its values, in order, with `, ` between them.
pub open spec fn row_text(row: Seq<(Seq<char>, Seq<char>)>) -> Seq<char> {
    join(Seq::new(row.len(), |i: int| display(row[i].1)), ", "@)
}

/// The values of a variable across the rows, in order, as shown. A row
/// that does not hold the variable adds nothing.
pub open spec fn column(rows: Seq<Seq<(Seq<char>, Seq<char>)>>, var: Seq<char>) -> Seq<Seq<char>>
    decreases rows.len(),
{
    if rows.len() == 0 {
        Seq::empty()
    } else {
        column(rows.drop_last(), var) + match lookup(rows.last(), var) {
            Some(v) => seq![display(v)],
            None => Seq::empty(),
        }
    }
}

/// The names of the result sets, in order.
pub open spec fn result_names(
    results: Seq<(Seq<char>, Seq<Seq<(Seq<char>, Seq<char>)>>)>,
) -> Seq<Seq<char>> {
    Seq::new(results.len(), |i: int| results[i].0)
}

/// The rows bound under a query name. `None` says that no query has the
/// name; an empty result set is `Some` of no rows.
pub open spec fn rows_named(
    results: Seq<(Seq<char>, Seq<Seq<(Seq<char>, Seq<char>)>>)>,
    name: Seq<char>,
) -> Option<Seq<Seq<(Seq<char>, Seq<char>)>>> {
    if result_names(results).contains(name) {
        Some(results[index_named(result_names(results), name)].1)
    } else {
        None
    }
}

/// The text without `head` at its start, where it starts with it.
pub open spec fn without_head(s: Seq<char>, head: Seq<char>) -> Seq<char> {
    if starts_with(s, head) {
        s.subrange(head.len() as int, s.len() as int)
    } else {
        s
    }
}

/// The query that an argument names. The result sets stand in the table
/// `sparql_results`, so a query may be named by its name alone, as
/// `sparql_results.name`, or as `results=sparql_results.name`.
pub open spec fn query_arg(arg: Seq<char>) -> Seq<char> {
    let at = after_next(arg, 0, '=');
    let named = if arg.contains('=') && trim(arg.subrange(0, at - 1)) == "results"@ {
        trim(arg.subrange(at, arg.len() as int))
    } else {
        arg
    };
    without_head(named, "sparql_results."@)
}

/// A variable argument, with or without its `?`.
pub open spec fn var_arg(arg: Seq<char>) -> Seq<char> {
    if is_variable(arg) {
        var_name(arg)
    } else {
        arg
    }
}

/// `sparql_count`: the number of rows, in decimal.
pub open spec fn count_text(rows: Seq<Seq<(Seq<char>, Seq<char>)>>) -> Seq<char> {
    decimal(rows.len())
}

/// `sparql_empty`: `true` or `false`.
pub open spec fn empty_text(rows: Seq<Seq<(Seq<char>, Seq<char>)>>) -> Seq<char> {
    if rows.len() == 0 {
        "true"@
    } else {
        "false"@
    }
}

/// `sparql_first`: the first row as shown; the empty text where there is
/// no row.
pub open spec fn first_text(rows: Seq<Seq<(Seq<char>, Seq<char>)>>) -> Seq<char> {
    if rows.len() == 0 {
        Seq::empty()
    } else {
        row_text(rows[0])
    }
}

/// `sparql_values` and `sparql_column`: the values of the variable, with
/// `, ` between them.
pub open spec fn values_text(rows: Seq<Seq<(Seq<char>, Seq<char>)>>, var: Seq<char>) -> Seq<char> {
    join(column(rows, var_arg(var)), ", "@)
}

/// The value of a helper call. `whole` is the call as written.
pub open spec fn call_value(
    results: Seq<(Seq<char>, Seq<Seq<(Seq<char>, Seq<char>)>>)>,
    whole: Seq<char>,
    helper: Seq<char>,
    args: Seq<Seq<char>>,
) -> Result<Seq<char>, RenderFault> {
    let unary = helper == "sparql_count"@ || helper == "sparql_empty"@ || helper
        == "sparql_first"@;
    let binary = helper == "sparql_values"@ || helper == "sparql_column"@ || helper
        == "sparql_row"@;
    if !((unary && args.len() == 1) || (binary && args.len() == 2)) {
        Err(RenderFault::MalformedExpression(whole))
    } else {
        match rows_named(results, query_arg(args[0])) {
            None => Err(RenderFault::UnknownQuery(query_arg(args[0]))),
            Some(rows) => if helper == "sparql_count"@ {
                Ok(count_text(rows))
            } else if helper == "sparql_empty"@ {
                Ok(empty_text(rows))
            } else if helper == "sparql_first"@ {
                Ok(first_text(rows))
            } else if helper == "sparql_row"@ {
                if !is_numeral(args[1]) {
                    Err(RenderFault::MalformedExpression(whole))
                } else if numeral_value(args[1]) >= rows.len() {
                    Err(RenderFault::RowIndexOutOfRange(query_arg(args[0]), args[1]))
                } else {
                    Ok(row_text(rows[numeral_value(args[1]) as int]))
                }
            } else {
                Ok(values_text(rows, args[1]))
            },
        }
    }
}

/// Of a query without rows the count is `0`, the emptiness is `true`, and
/// the row with index `0` is out of range.
pub proof fn lemma_helpers_on_empty_result_set(
    results: Seq<(Seq<char>, Seq<Seq<(Seq<char>, Seq<char>)>>)>,
    whole: Seq<char>,
    name: Seq<char>,
)
    requires
        rows_named(results, query_arg(name)) == Some(Seq::<Seq<(Seq<char>, Seq<char>)>>::empty()),
    ensures
        call_value(results, whole, "sparql_count"@, seq![name]) == Ok::<Seq<char>, RenderFault>(
            "0"@,
        ),
        call_value(results, whole, "sparql_empty"@, seq![name]) == Ok::<Seq<char>, RenderFault>(
            "true"@,
        ),
        call_value(results, whole, "sparql_row"@, seq![name, "0"@]) == Err::<
            Seq<char>,
            RenderFault,
        >(RenderFault::RowIndexOutOfRange(query_arg(name), "0"@)),
{
    reveal_strlit("sparql_count");
    reveal_strlit("sparql_empty");
    reveal_strlit("sparql_first");
    reveal_strlit("sparql_row");
    reveal_strlit("0");
    assert("sparql_count"@[7] != "sparql_empty"@[7]);
    assert("sparql_row"@.len() != "sparql_count"@.len());
    assert("sparql_row"@.len() != "sparql_empty"@.len());
    assert("sparql_row"@.len() != "sparql_first"@.len());
    assert(decimal(0) =~= "0"@);
    assert(is_numeral("0"@));
    assert("0"@.drop_last() =~= Seq::<char>::empty());
    assert(numeral_value("0"@.drop_last()) == 0);
    assert(numeral_value("0"@) == 0);
}

/// Each text trimmed.
pub open spec fn trim_each(parts: Seq<Seq<char>>) -> Seq<Seq<char>> {
    parts.map_values(|p: Seq<char>| trim(p))
}

/// Whether a head is written as a call: it ends with `)` and holds a `(`.
pub open spec fn is_call(head: Seq<char>) -> bool {
    head.len() > 0 && head.last() == ')' && head.contains('(')
}

/// The value of the head of an expression.
pub open spec fn head_value(
    vars: Seq<(Seq<char>, Seq<char>)>,
    results: Seq<(Seq<char>, Seq<Seq<(Seq<char>, Seq<char>)>>)>,
    head: Seq<char>,
) -> Result<Seq<char>, RenderFault> {
    if is_call(head) {
        let open = after_next(head, 0, '(') - 1;
        call_value(
            results,
            head,
            trim(head.subrange(0, open)),
            trim_each(split_on(head.subrange(open + 1, head.len() - 1), ',')),
        )
    } else if head.len() == 0 {
        Err(RenderFault::MalformedExpression(head))
    } else {
        match lookup(vars, head) {
            Some(v) => Ok(v),
            None => Err(RenderFault::MissingVariable(head)),
        }
    }
}

/// The value after the named filters, applied in order.
pub open spec fn filters_applied(value: Seq<char>, names: Seq<Seq<char>>) -> Result<
    Seq<char>,
    RenderFault,
>
    decreases names.len(),
{
    if names.len() == 0 {
        Ok(value)
    } else {
        match filters_applied(value, names.drop_last()) {
            Err(e) => Err(e),
            Ok(v) => match filter_named(names.last()) {
                Some(f) => Ok(filtered(f, v)),
                None => Err(RenderFault::UnknownFilter(names.last())),
            },
        }
    }
}

/// The value of an expression: of what stands between `{{` and `}}`.
pub open spec fn expression_value(
    vars: Seq<(Seq<char>, Seq<char>)>,
    results: Seq<(Seq<char>, Seq<Seq<(Seq<char>, Seq<char>)>>)>,
    inner: Seq<char>,
) -> Result<Seq<char>, RenderFault> {
    let parts = trim_each(split_on(inner, '|'));
    match head_value(vars, results, parts[0]) {
        Err(e) => Err(e),
        Ok(v) => filters_applied(v, parts.subrange(1, parts.len() as int)),
    }
}

/// The text from index `i` on with every expression replaced by its value.
pub open spec fn expand(
    vars: Seq<(Seq<char>, Seq<char>)>,
    results: Seq<(Seq<char>, Seq<Seq<(Seq<char>, Seq<char>)>>)>,
    text: Seq<char>,
    i: int,
) -> Result<Seq<char>, RenderFault>
    decreases text.len() - i,
{
    if i < 0 || i >= text.len() {
        Ok(Seq::empty())
    } else {
        let open = find_pair(text, i, '{', '{');
        if open < i || open >= text.len() {
            Ok(text.subrange(i, text.len() as int))
        } else {
            let close = find_pair(text, open + 2, '}', '}');
            if close < open + 2 || close + 1 >= text.len() {
                Err(RenderFault::MalformedExpression(text.subrange(open, text.len() as int)))
            } else {
                match expression_value(vars, results, text.subrange(open + 2, close)) {
                    Err(e) => Err(e),
                    Ok(v) => match expand(vars, results, text, close + 2) {
                        Err(e) => Err(e),
                        Ok(rest) => Ok(text.subrange(i, open) + v + rest),
                    },
                }
            }
        }
    }
}

/// The first of the required names that the variables do not hold.
pub open spec fn first_missing(required: Seq<Seq<char>>, vars: Seq<(Seq<char>, Seq<char>)>) -> Option<
    Seq<char>,
>
    decreases required.len(),
{
    if required.len() == 0 {
        None
    } else {
        match first_missing(required.drop_last(), vars) {
            Some(name) => Some(name),
            None => if keys(vars).contains(required.last()) {
                None
            } else {
                Some(required.last())
            },
        }
    }
}

/// The first projected name that no pattern mentions.
pub open spec fn unbound_name(
    patterns: Seq<(Seq<char>, Seq<char>, Seq<char>)>,
    projected: Seq<Seq<char>>,
) -> Option<Seq<char>>
    decreases projected.len(),
{
    if projected.len() == 0 {
        None
    } else {
        match unbound_name(patterns, projected.drop_last()) {
            Some(name) => Some(name),
            None => if occurs(patterns, projected.last()) {
                None
            } else {
                Some(projected.last())
            },
        }
    }
}

/// The rows of a named query text against the facts.
pub open spec fn query_rows(
    table: Seq<(Seq<char>, Seq<char>)>,
    base: Seq<char>,
    facts: Seq<(Seq<char>, Seq<char>, Seq<char>)>,
    name: Seq<char>,
    text: Seq<char>,
) -> Result<Seq<Seq<(Seq<char>, Seq<char>)>>, RenderFault> {
    match read_query(table, base, text) {
        None => Err(RenderFault::MalformedQuery(name)),
        Some((patterns, projected)) => match unbound_name(patterns, projected) {
            Some(v) => Err(RenderFault::UnboundVariable(name, v)),
            None => Ok(answer(facts, patterns, projected)),
        },
    }
}

/// The result sets of the named queries, in order, each under its name.
pub open spec fn run_queries(
    table: Seq<(Seq<char>, Seq<char>)>,
    base: Seq<char>,
    facts: Seq<(Seq<char>, Seq<char>, Seq<char>)>,
    sparql: Seq<(Seq<char>, Seq<char>)>,
) -> Result<Seq<(Seq<char>, Seq<Seq<(Seq<char>, Seq<char>)>>)>, RenderFault>
    decreases sparql.len(),
{
    if sparql.len() == 0 {
        Ok(Seq::empty())
    } else {
        match run_queries(table, base, facts, sparql.drop_last()) {
            Err(e) => Err(e),
            Ok(results) => match query_rows(table, base, facts, sparql.last().0, sparql.last().1) {
                Err(e) => Err(e),
                Ok(rows) => Ok(results.push((sparql.last().0, rows))),
            },
        }
    }
}

/// What rendering gives: the output path and the body.
///
/// The variables are the defaults with the overrides set over them. A
/// required variable that is still missing fails the rendering. Then the
/// queries are evaluated in order, against the store's prefixes with the
/// template's own set over them. Then the body is expanded, and last the
/// output path.
pub open spec fn rendered(
    doc: Parsed,
    facts: Seq<(Seq<char>, Seq<char>, Seq<char>)>,
    store_prefixes: Seq<(Seq<char>, Seq<char>)>,
    base: Seq<char>,
    external: Seq<(Seq<char>, Seq<char>)>,
) -> Result<(Seq<char>, Seq<char>), RenderFault> {
    let vars = merged(doc.vars, external);
    match first_missing(doc.required, vars) {
        Some(name) => Err(RenderFault::MissingVariable(name)),
        None => match run_queries(merged(store_prefixes, doc.prefixes), base, facts, doc.sparql) {
            Err(e) => Err(e),
            Ok(results) => match expand(vars, results, doc.body, 0) {
                Err(e) => Err(e),
                Ok(body) => match expand(vars, results, doc.to, 0) {
                    Err(e) => Err(e),
                    Ok(path) => Ok((path, body)),
                },
            },
        },
    }
}

/// Why a template cannot be rendered.
#[derive(Debug)]
pub enum RenderError {
    /// A variable that has neither a default nor an override.
    MissingVariable(String),
    /// A filter that is none of the supported ones.
    UnknownFilter(String),
    /// A row index at or beyond the number of rows of the named query.
    RowIndexOutOfRange { query: String, index: String },
    /// A helper names a query that the template does not declare.
    UnknownQuery(String),
    /// An expression that cannot be read, as written.
    MalformedExpression(String),
    /// The text of the named query is no query.
    MalformedQuery(String),
    /// The named query projects a variable that none of its patterns
    /// mentions.
    UnboundVariable { query: String, variable: String },
}

impl View for RenderError {
    type V = RenderFault;

    open spec fn view(&self) -> RenderFault {
        match self {
            RenderError::MissingVariable(name) => RenderFault::MissingVariable(name@),
            RenderError::UnknownFilter(name) => RenderFault::UnknownFilter(name@),
            RenderError::RowIndexOutOfRange { query, index } => RenderFault::RowIndexOutOfRange(
                query@,
                index@,
            ),
            RenderError::UnknownQuery(name) => RenderFault::UnknownQuery(name@),
            RenderError::MalformedExpression(text) => RenderFault::MalformedExpression(text@),
            RenderError::MalformedQuery(name) => RenderFault::MalformedQuery(name@),
            RenderError::UnboundVariable { query, variable } => RenderFault::UnboundVariable(
                query@,
                variable@,
            ),
        }
    }
}

/// The result sets as names with rows.
pub open spec fn results_view(results: Seq<ResultSet>) -> Seq<
    (Seq<char>, Seq<Seq<(Seq<char>, Seq<char>)>>),
> {
    Seq::new(results.len(), |i: int| (results[i].name@, views2(results[i].rows@)))
}

fn shown(term: &String) -> (out: Vec<char>)
    ensures
        out@ == display(term@),
{
    let cs = chars_of(term.as_str());
    unquoted(&cs)
}

fn comma_space() -> (out: Vec<char>)
    ensures
        out@ == ", "@,
{
    chars_of(", ")
}

fn row_shown(row: &Vec<(String, String)>) -> (out: Vec<char>)
    ensures
        out@ == row_text(views(row@)),
{
    let mut values: Vec<Vec<char>> = Vec::new();
    let mut i: usize = 0;
    while i < row.len()
        invariant
            i <= row@.len(),
            values@.len() == i,
            forall|j: int| 0 <= j < i ==> (#[trigger] values@[j])@ == display(row@[j].1@),
        decreases row.len() - i,
    {
        values.push(shown(&row[i].1));
        i += 1;
    }
    assert(views(values@) =~= Seq::new(
        views(row@).len(),
        |i: int| display(views(row@)[i].1),
    ));
    join_words(&values, &comma_space())
}

fn column_of(rows: &Vec<Vec<(String, String)>>, var: &String) -> (out: Vec<Vec<char>>)
    ensures
        views(out@) == column(views2(rows@), var@),
{
    let ghost rv = views2(rows@);
    let mut out: Vec<Vec<char>> = Vec::new();
    let mut i: usize = 0;
    assert(rv.subrange(0, 0) =~= Seq::empty());
    assert(views(out@) =~= Seq::empty());
    while i < rows.len()
        invariant
            i <= rows@.len(),
            rv == views2(rows@),
            views(out@) == column(rv.subrange(0, i as int), var@),
        decreases rows.len() - i,
    {
        let ghost next = rv.subrange(0, i + 1);
        assert(next.drop_last() =~= rv.subrange(0, i as int));
        assert(next.last() == views(rows@[i as int]@));
        let ghost before = views(out@);
        match find_bound(&rows[i], var) {
            Some(at) => {
                let v = shown(&rows[i][at].1);
                out.push(v);
                assert(views(out@) =~= before + seq![display(rows@[i as int]@[at as int].1@)]);
            },
            None => {
                assert(views(out@) =~= before + Seq::empty());
            },
        }
        i += 1;
    }
    assert(rv.subrange(0, rows@.len() as int) =~= rv);
    out
}

/// The number of rows.
pub fn sparql_count(results: &ResultSet) -> (out: usize)
    ensures
        out == results.rows@.len(),
{
    results.rows.len()
}

/// Whether there is no row.
pub fn sparql_empty(results: &ResultSet) -> (out: bool)
    ensures
        out == (results.rows@.len() == 0),
{
    results.rows.len() == 0
}

/// The first row; `None` where there is no row.
pub fn sparql_first(results: &ResultSet) -> (out: Option<&Vec<(String, String)>>)
    ensures
        match out {
            Some(row) => results.rows@.len() > 0 && *row == results.rows@[0],
            None => results.rows@.len() == 0,
        },
{
    if results.rows.len() == 0 {
        None
    } else {
        Some(&results.rows[0])
    }
}

fn var_arg_of(var: &Vec<char>) -> (out: String)
    ensures
        out@ == var_arg(var@),
{
    if var.len() > 0 && var[0] == '?' {
        string_of(&slice(var, 1, var.len()))
    } else {
        string_of(var)
    }
}

/// The values of a variable across the rows, in order, as shown. The
/// variable may be given with or without its `?`.
pub fn sparql_values(results: &ResultSet, var: &str) -> (out: Vec<String>)
    ensures
        views(out@) == column(views2(results.rows@), var_arg(var@)),
{
    let name = var_arg_of(&chars_of(var));
    strings_of(&column_of(&results.rows, &name))
}

/// The same as `sparql_values`.
pub fn sparql_column(results: &ResultSet, var: &str) -> (out: Vec<String>)
    ensures
        views(out@) == column(views2(results.rows@), var_arg(var@)),
{
    sparql_values(results, var)
}

/// The row with the given index, counted from zero.
///
/// Fails with `RowIndexOutOfRange`, carrying the name of the query and the
/// index in decimal, exactly when the index is not below the number of
/// rows.
pub fn sparql_row(results: &ResultSet, index: usize) -> (out: Result<
    &Vec<(String, String)>,
    RenderError,
>)
    ensures
        match out {
            Ok(row) => index < results.rows@.len() && *row == results.rows@[index as int],
            Err(e) => index >= results.rows@.len() && e@ == RenderFault::RowIndexOutOfRange(
                results.name@,
                decimal(index as nat),
            ),
        },
{
    if index < results.rows.len() {
        Ok(&results.rows[index])
    } else {
        let mut text: String = String::new();
        push_decimal(&mut text, index);
        assert(text@ =~= decimal(index as nat));
        Err(RenderError::RowIndexOutOfRange { query: results.name.clone(), index: text })
    }
}

fn drop_head(s: &Vec<char>, head: &str) -> (out: Vec<char>)
    ensures
        out@ == without_head(s@, head@),
{
    let h = chars_of(head);
    if has_prefix(s, &h) {
        slice(s, h.len(), s.len())
    } else {
        let copy = slice(s, 0, s.len());
        assert(copy@ =~= s@);
        copy
    }
}

fn query_arg_of(arg: &Vec<char>) -> (out: Vec<char>)
    ensures
        out@ == query_arg(arg@),
{
    if has_char(arg, '=') {
        proof {
            lemma_after_next_found(arg@, 0, '=');
        }
        let at: usize = find_after_next(arg, 0, '=');
        if is_text(&trimmed(&slice(arg, 0, at - 1)), "results") {
            let named = trimmed(&slice(arg, at, arg.len()));
            return drop_head(&named, "sparql_results.");
        }
    }
    drop_head(arg, "sparql_results.")
}

fn find_results(results: &Vec<ResultSet>, name: &Vec<char>) -> (out: Option<usize>)
    ensures
        match out {
            Some(i) => i < results@.len() && rows_named(results_view(results@), name@) == Some(
                views2(results@[i as int].rows@),
            ),
            None => rows_named(results_view(results@), name@).is_none(),
        },
{
    let ghost ns = result_names(results_view(results@));
    let wanted: String = string_of(name);
    let mut i: usize = 0;
    while i < results.len()
        invariant
            i <= results@.len(),
            ns == result_names(results_view(results@)),
            wanted@ == name@,
            forall|j: int| 0 <= j < i ==> ns[j] != name@,
        decreases results.len() - i,
    {
        assert(ns[i as int] == results@[i as int].name@);
        if results[i].name == wanted {
            proof {
                lemma_first_named_unique(ns, name@, i as int);
                assert(ns.contains(name@));
            }
            return Some(i);
        }
        i += 1;
    }
    None
}

fn copy_of(s: &Vec<char>) -> (out: Vec<char>)
    ensures
        out@ == s@,
{
    let out = slice(s, 0, s.len());
    assert(out@ =~= s@);
    out
}

fn call_of(results: &Vec<ResultSet>, whole: &Vec<char>, helper: &Vec<char>, args: &Vec<Vec<char>>) -> (out:
    Result<Vec<char>, RenderError>)
    ensures
        match call_value(results_view(results@), whole@, helper@, views(args@)) {
            Ok(v) => out.is_ok() && out.unwrap()@ == v,
            Err(f) => out.is_err() && out.unwrap_err()@ == f,
        },
{
    let is_count = is_text(helper, "sparql_count");
    let is_empty = is_text(helper, "sparql_empty");
    let is_first = is_text(helper, "sparql_first");
    let is_values = is_text(helper, "sparql_values");
    let is_column = is_text(helper, "sparql_column");
    let is_row = is_text(helper, "sparql_row");
    let unary = is_count || is_empty || is_first;
    let binary = is_values || is_column || is_row;
    if !((unary && args.len() == 1) || (binary && args.len() == 2)) {
        return Err(RenderError::MalformedExpression(string_of(whole)));
    }
    assert(views(args@)[0] == args@[0]@);
    let query = query_arg_of(&args[0]);
    let at = match find_results(results, &query) {
        None => {
            return Err(RenderError::UnknownQuery(string_of(&query)));
        },
        Some(at) => at,
    };
    let rows = &results[at].rows;
    let count: usize = rows.len();
    assert(views2(rows@).len() == count);
    if is_count {
        let mut text: String = String::new();
        push_decimal(&mut text, rows.len());
        assert(text@ =~= decimal(rows@.len()));
        Ok(chars_of(text.as_str()))
    } else if is_empty {
        if rows.len() == 0 {
            Ok(chars_of("true"))
        } else {
            Ok(chars_of("false"))
        }
    } else if is_first {
        if rows.len() == 0 {
            Ok(Vec::new())
        } else {
            assert(views2(rows@)[0] == views(rows@[0]@));
            Ok(row_shown(&rows[0]))
        }
    } else if is_row {
        assert(views(args@)[1] == args@[1]@);
        match read_number(&args[1]) {
            None => Err(RenderError::MalformedExpression(string_of(whole))),
            Some(None) => Err(
                RenderError::RowIndexOutOfRange {
                    query: string_of(&query),
                    index: string_of(&args[1]),
                },
            ),
            Some(Some(index)) => {
                if index >= rows.len() {
                    Err(
                        RenderError::RowIndexOutOfRange {
                            query: string_of(&query),
                            index: string_of(&args[1]),
                        },
                    )
                } else {
                    assert(views2(rows@)[index as int] == views(rows@[index as int]@));
                    Ok(row_shown(&rows[index]))
                }
            },
        }
    } else {
        assert(views(args@)[1] == args@[1]@);
        let name = var_arg_of(&args[1]);
        let values = column_of(rows, &name);
        Ok(join_words(&values, &comma_space()))
    }
}

fn trim_all(parts: &Vec<Vec<char>>) -> (out: Vec<Vec<char>>)
    ensures
        views(out@) == trim_each(views(parts@)),
{
    let mut out: Vec<Vec<char>> = Vec::new();
    let mut i: usize = 0;
    while i < parts.len()
        invariant
            i <= parts@.len(),
            out@.len() == i,
            forall|j: int| 0 <= j < i ==> (#[trigger] out@[j])@ == trim(parts@[j]@),
        decreases parts.len() - i,
    {
        out.push(trimmed(&parts[i]));
        i += 1;
    }
    assert(views(out@) =~= trim_each(views(parts@)));
    out
}

fn head_of(vars: &Vec<(Vec<char>, Vec<char>)>, results: &Vec<ResultSet>, head: &Vec<char>) -> (out:
    Result<Vec<char>, RenderError>)
    ensures
        match head_value(views(vars@), results_view(results@), head@) {
            Ok(v) => out.is_ok() && out.unwrap()@ == v,
            Err(f) => out.is_err() && out.unwrap_err()@ == f,
        },
{
    let n: usize = head.len();
    if n > 0 && head[n - 1] == ')' && has_char(head, '(') {
        proof {
            lemma_after_next_found(head@, 0, '(');
        }
        let after: usize = find_after_next(head, 0, '(');
        assert(after - 1 < n - 1) by {
            assert(head@[after - 1] == '(');
        }
        let helper = trimmed(&slice(head, 0, after - 1));
        let inside = slice(head, after, n - 1);
        let args = trim_all(&split_at_char(&inside, ','));
        call_of(results, head, &helper, &args)
    } else if n == 0 {
        Err(RenderError::MalformedExpression(string_of(head)))
    } else {
        match find_key(vars, head) {
            Some(at) => {
                assert(views(vars@)[at as int].1 == vars@[at as int].1@);
                Ok(copy_of(&vars[at].1))
            },
            None => Err(RenderError::MissingVariable(string_of(head))),
        }
    }
}

fn apply_filters(value: Vec<char>, parts: &Vec<Vec<char>>) -> (out: Result<Vec<char>, RenderError>)
    requires
        parts@.len() >= 1,
    ensures
        match filters_applied(value@, views(parts@).subrange(1, parts@.len() as int)) {
            Ok(v) => out.is_ok() && out.unwrap()@ == v,
            Err(f) => out.is_err() && out.unwrap_err()@ == f,
        },
{
    let ghost names = views(parts@).subrange(1, parts@.len() as int);
    let ghost start = value@;
    let mut cur: Vec<char> = value;
    let mut i: usize = 1;
    assert(names.subrange(0, 0) =~= Seq::empty());
    while i < parts.len()
        invariant
            1 <= i <= parts@.len(),
            start == value@,
            names == views(parts@).subrange(1, parts@.len() as int),
            filters_applied(start, names.subrange(0, i - 1)) == Ok::<Seq<char>, RenderFault>(cur@),
        decreases parts.len() - i,
    {
        let ghost next = names.subrange(0, i as int);
        assert(next.drop_last() =~= names.subrange(0, i - 1));
        assert(next.last() == parts@[i as int]@);
        match Filter::from_name(&parts[i]) {
            Some(f) => {
                cur = f.apply(&cur);
            },
            None => {
                proof {
                    assert(filters_applied(start, next).is_err());
                    lemma_filters_fail_on(start, names, i as int);
                }
                return Err(RenderError::UnknownFilter(string_of(&parts[i])));
            },
        }
        i += 1;
    }
    assert(names.subrange(0, parts@.len() - 1) =~= names);
    Ok(cur)
}

proof fn lemma_filters_fail_on(value: Seq<char>, names: Seq<Seq<char>>, n: int)
    requires
        0 <= n <= names.len(),
        filters_applied(value, names.subrange(0, n)).is_err(),
    ensures
        filters_applied(value, names) == filters_applied(value, names.subrange(0, n)),
    decreases names.len() - n,
{
    if n < names.len() {
        let next = names.subrange(0, n + 1);
        assert(next.drop_last() =~= names.subrange(0, n));
        lemma_filters_fail_on(value, names, n + 1);
    } else {
        assert(names.subrange(0, n) =~= names);
    }
}

fn expression_of(vars: &Vec<(Vec<char>, Vec<char>)>, results: &Vec<ResultSet>, inner: &Vec<char>) -> (out:
    Result<Vec<char>, RenderError>)
    ensures
        match expression_value(views(vars@), results_view(results@), inner@) {
            Ok(v) => out.is_ok() && out.unwrap()@ == v,
            Err(f) => out.is_err() && out.unwrap_err()@ == f,
        },
{
    let parts = trim_all(&split_at_char(inner, '|'));
    assert(views(parts@)[0] == parts@[0]@);
    match head_of(vars, results, &parts[0]) {
        Err(e) => Err(e),
        Ok(v) => apply_filters(v, &parts),
    }
}

/// Replaces every expression of a text by its value.
fn expand_text(vars: &Vec<(Vec<char>, Vec<char>)>, results: &Vec<ResultSet>, text: &Vec<char>) -> (out:
    Result<Vec<char>, RenderError>)
    ensures
        match expand(views(vars@), results_view(results@), text@, 0) {
            Ok(v) => out.is_ok() && out.unwrap()@ == v,
            Err(f) => out.is_err() && out.unwrap_err()@ == f,
        },
{
    let ghost vv = views(vars@);
    let ghost rv = results_view(results@);
    let n: usize = text.len();
    let mut acc: Vec<char> = Vec::new();
    let mut i: usize = 0;
    proof {
        match expand(vv, rv, text@, 0) {
            Ok(rest) => {
                assert(acc@ + rest =~= rest);
            },
            Err(e) => {},
        }
    }
    while i < n
        invariant
            i <= n,
            n == text@.len(),
            vv == views(vars@),
            rv == results_view(results@),
            expand(vv, rv, text@, 0) == match expand(vv, rv, text@, i as int) {
                Ok(rest) => Ok::<Seq<char>, RenderFault>(acc@ + rest),
                Err(e) => Err(e),
            },
        decreases n - i,
    {
        let open: usize = locate_pair(text, i, '{', '{');
        let ghost before = acc@;
        if open >= n {
            push_all(&mut acc, &slice(text, i, n));
            proof {
                assert(expand(vv, rv, text@, n as int) == Ok::<Seq<char>, RenderFault>(
                    Seq::empty(),
                ));
                assert(acc@ + Seq::<char>::empty() =~= before + text@.subrange(i as int, n as int));
            }
            i = n;
        } else {
            let close: usize = locate_pair(text, open + 2, '}', '}');
            if close >= n {
                return Err(RenderError::MalformedExpression(string_of(&slice(text, open, n))));
            }
            let inner = slice(text, open + 2, close);
            match expression_of(vars, results, &inner) {
                Err(e) => {
                    return Err(e);
                },
                Ok(v) => {
                    push_all(&mut acc, &slice(text, i, open));
                    push_all(&mut acc, &v);
                    proof {
                        match expand(vv, rv, text@, close + 2) {
                            Ok(rest) => {
                                assert(before + (text@.subrange(i as int, open as int) + v@ + rest)
                                    =~= acc@ + rest);
                            },
                            Err(e) => {},
                        }
                    }
                    i = close + 2;
                },
            }
        }
    }
    proof {
        assert(acc@ + Seq::<char>::empty() =~= acc@);
    }
    Ok(acc)
}

proof fn lemma_all_bound(patterns: Seq<(Seq<char>, Seq<char>, Seq<char>)>, projected: Seq<Seq<char>>)
    requires
        forall|j: int| 0 <= j < projected.len() ==> occurs(patterns, #[trigger] projected[j]),
    ensures
        unbound_name(patterns, projected).is_none(),
    decreases projected.len(),
{
    if projected.len() > 0 {
        assert forall|j: int| 0 <= j < projected.drop_last().len() implies occurs(
            patterns,
            #[trigger] projected.drop_last()[j],
        ) by {
            assert(occurs(patterns, projected[j]));
        }
        lemma_all_bound(patterns, projected.drop_last());
        assert(occurs(patterns, projected[projected.len() - 1]));
    }
}

proof fn lemma_first_unbound_name(
    patterns: Seq<(Seq<char>, Seq<char>, Seq<char>)>,
    projected: Seq<Seq<char>>,
    i: int,
)
    requires
        first_unbound(patterns, projected, i),
    ensures
        unbound_name(patterns, projected) == Some(projected[i]),
    decreases projected.len(),
{
    let init = projected.drop_last();
    if i < projected.len() - 1 {
        assert(first_unbound(patterns, init, i)) by {
            assert(init[i] == projected[i]);
            assert forall|j: int| 0 <= j < i implies occurs(patterns, #[trigger] init[j]) by {
                assert(occurs(patterns, projected[j]));
            }
        }
        lemma_first_unbound_name(patterns, init, i);
    } else {
        assert forall|j: int| 0 <= j < init.len() implies occurs(patterns, #[trigger] init[j]) by {
            assert(occurs(patterns, projected[j]));
        }
        lemma_all_bound(patterns, init);
    }
}

proof fn lemma_run_queries_fails_on(
    table: Seq<(Seq<char>, Seq<char>)>,
    base: Seq<char>,
    facts: Seq<(Seq<char>, Seq<char>, Seq<char>)>,
    sparql: Seq<(Seq<char>, Seq<char>)>,
    n: int,
)
    requires
        0 <= n <= sparql.len(),
        run_queries(table, base, facts, sparql.subrange(0, n)).is_err(),
    ensures
        run_queries(table, base, facts, sparql) == run_queries(
            table,
            base,
            facts,
            sparql.subrange(0, n),
        ),
    decreases sparql.len() - n,
{
    if n < sparql.len() {
        let next = sparql.subrange(0, n + 1);
        assert(next.drop_last() =~= sparql.subrange(0, n));
        lemma_run_queries_fails_on(table, base, facts, sparql, n + 1);
    } else {
        assert(sparql.subrange(0, n) =~= sparql);
    }
}

proof fn lemma_first_missing_found(required: Seq<Seq<char>>, vars: Seq<(Seq<char>, Seq<char>)>, n: int)
    requires
        0 <= n <= required.len(),
        first_missing(required.subrange(0, n), vars).is_some(),
    ensures
        first_missing(required, vars) == first_missing(required.subrange(0, n), vars),
    decreases required.len() - n,
{
    if n < required.len() {
        let next = required.subrange(0, n + 1);
        assert(next.drop_last() =~= required.subrange(0, n));
        lemma_first_missing_found(required, vars, n + 1);
    } else {
        assert(required.subrange(0, n) =~= required);
    }
}

/// What rendering gives: where to write, and what.
#[derive(Debug)]
pub struct RenderedOutput {
    pub output_path: String,
    pub body: String,
}

/// Evaluates the named queries of a template against a store, in order.
fn run_all_queries(
    store: &Store,
    table: &Vec<(Vec<char>, Vec<char>)>,
    base: &Vec<char>,
    sparql: &Vec<(String, String)>,
) -> (out: Result<Vec<ResultSet>, RenderError>)
    ensures
        match run_queries(views(table@), base@, store.facts(), views(sparql@)) {
            Ok(rs) => out.is_ok() && results_view(out.unwrap()@) == rs,
            Err(f) => out.is_err() && out.unwrap_err()@ == f,
        },
{
    let ghost sv = views(sparql@);
    let ghost tv = views(table@);
    let mut results: Vec<ResultSet> = Vec::new();
    let mut i: usize = 0;
    assert(sv.subrange(0, 0) =~= Seq::empty());
    assert(results_view(results@) =~= Seq::empty());
    while i < sparql.len()
        invariant
            i <= sparql@.len(),
            sv == views(sparql@),
            tv == views(table@),
            run_queries(tv, base@, store.facts(), sv.subrange(0, i as int)) == Ok::<
                Seq<(Seq<char>, Seq<Seq<(Seq<char>, Seq<char>)>>)>,
                RenderFault,
            >(results_view(results@)),
        decreases sparql.len() - i,
    {
        let ghost next = sv.subrange(0, i + 1);
        assert(next.drop_last() =~= sv.subrange(0, i as int));
        assert(next.last() == sparql@[i as int]@);
        let name = &sparql[i].0;
        let text = &sparql[i].1;
        let query: Query = match parse_query_in(name.as_str(), text.as_str(), table, base) {
            Ok(q) => q,
            Err(_) => {
                proof {
                    assert(run_queries(tv, base@, store.facts(), next).is_err());
                    lemma_run_queries_fails_on(tv, base@, store.facts(), sv, i + 1);
                }
                return Err(RenderError::MalformedQuery(name.clone()));
            },
        };
        match evaluate(store, &query) {
            Err(e) => {
                match e {
                    QueryError::UnboundVariable(variable) => {
                        proof {
                            let w = choose|w: int|
                                first_unbound(
                                    views(query.patterns@),
                                    views(query.projected@),
                                    w,
                                ) && variable@ == #[trigger] views(query.projected@)[w];
                            lemma_first_unbound_name(
                                views(query.patterns@),
                                views(query.projected@),
                                w,
                            );
                            assert(run_queries(tv, base@, store.facts(), next).is_err());
                            lemma_run_queries_fails_on(tv, base@, store.facts(), sv, i + 1);
                        }
                        return Err(
                            RenderError::UnboundVariable { query: name.clone(), variable },
                        );
                    },
                    QueryError::MalformedPattern(_) => {
                        return Err(RenderError::MalformedQuery(name.clone()));
                    },
                }
            },
            Ok(rs) => {
                proof {
                    assert forall|j: int| 0 <= j < views(query.projected@).len() implies occurs(
                        views(query.patterns@),
                        #[trigger] views(query.projected@)[j],
                    ) by {
                        assert(occurs(views(query.patterns@), query.projected@[j]@));
                    }
                    lemma_all_bound(views(query.patterns@), views(query.projected@));
                }
                let ghost before = results_view(results@);
                let ghost entry = (rs.name@, views2(rs.rows@));
                results.push(rs);
                assert(results_view(results@) =~= before.push(entry));
            },
        }
        i += 1;
    }
    assert(sv.subrange(0, sparql@.len() as int) =~= sv);
    Ok(results)
}

/// Renders a template against a store.
///
/// The contract is `rendered`: the variables are the defaults with the
/// overrides set over them; a required variable without a value fails
/// with `MissingVariable`; the queries are evaluated in order; the body is
/// expanded, then the output path. The store is not changed, and the same
/// document, store and overrides give the same output.
pub fn render(document: &TemplateDocument, store: &Store, external_vars: &Vec<(String, String)>) -> (out:
    Result<RenderedOutput, RenderError>)
    ensures
        match rendered(
            document@,
            store.facts(),
            store.prefix_table(),
            store.base_iri(),
            views(external_vars@),
        ) {
            Ok((path, body)) => out matches Ok(o) && o.output_path@ == path && o.body@ == body,
            Err(f) => out matches Err(e) && e@ == f,
        },
{
    let vars = merge_prefixes(&document.vars, external_vars);
    let ghost vv = views(vars@);
    let ghost req = views(document.required@);
    let mut i: usize = 0;
    assert(req.subrange(0, 0) =~= Seq::empty());
    while i < document.required.len()
        invariant
            i <= document.required@.len(),
            vv == views(vars@),
            vv == merged(views(document.vars@), views(external_vars@)),
            req == views(document.required@),
            first_missing(req.subrange(0, i as int), vv).is_none(),
        decreases document.required.len() - i,
    {
        let ghost next = req.subrange(0, i + 1);
        assert(next.drop_last() =~= req.subrange(0, i as int));
        assert(next.last() == document.required@[i as int]@);
        let name = chars_of(document.required[i].as_str());
        if find_key(&vars, &name).is_none() {
            proof {
                assert(first_missing(next, vv) == Some(name@));
                lemma_first_missing_found(req, vv, i + 1);
            }
            return Err(RenderError::MissingVariable(document.required[i].clone()));
        }
        i += 1;
    }
    assert(req.subrange(0, document.required@.len() as int) =~= req);
    let table = merge_prefixes(store.prefixes(), &document.prefixes);
    let base = chars_of(store.base().as_str());
    let results = match run_all_queries(store, &table, &base, &document.sparql) {
        Ok(rs) => rs,
        Err(e) => {
            return Err(e);
        },
    };
    let body = match expand_text(&vars, &results, &chars_of(document.body.as_str())) {
        Ok(b) => b,
        Err(e) => {
            return Err(e);
        },
    };
    let path = match expand_text(&vars, &results, &chars_of(document.to.as_str())) {
        Ok(p) => p,
        Err(e) => {
            return Err(e);
        },
    };
    Ok(RenderedOutput { output_path: string_of(&path), body: string_of(&body) })
}

/// What a rendering result says, over views.
pub open spec fn render_outcome(r: Result<RenderedOutput, RenderError>) -> Result<
    (Seq<char>, Seq<char>),
    RenderFault,
> {
    match r {
        Ok(o) => Ok((o.output_path@, o.body@)),
        Err(e) => Err(e@),
    }
}

/// Rendering is pure: whatever two renderings of the same document against
/// the same store with the same overrides give, they give the same path
/// and the same body, or the same fault.
pub proof fn lemma_rendering_is_deterministic(
    document: &TemplateDocument,
    store: &Store,
    external_vars: &Vec<(String, String)>,
    first: Result<RenderedOutput, RenderError>,
    second: Result<RenderedOutput, RenderError>,
)
    requires
        call_ensures(render, (document, store, external_vars), first),
        call_ensures(render, (document, store, external_vars), second),
    ensures
        render_outcome(first) == render_outcome(second),
{
}

} // verus!
