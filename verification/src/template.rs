//! The template document: a frontmatter that declares the output path,
//! variables, prefixes and named queries, and a body.
//!
//! A document starts with a line `---`; the frontmatter runs to the next
//! such line, and everything after that line is the body. In the
//! frontmatter an unindented line `key:` opens a directive, and the
//! indented lines `name: value` below `vars`, `prefixes` and `sparql` are
//! its entries. Empty lines and lines that start with `#` are passed over.

use vstd::prelude::*;
use crate::text::views;
use crate::text::lines;
use crate::text::split_lines;
use crate::text::trim;
use crate::text::trimmed;
use crate::text::unquote;
use crate::text::unquoted;
use crate::text::after_next;
use crate::text::find_after_next;
use crate::text::has_char;
use crate::text::slice;
use crate::text::is_text;
use crate::text::chars_of;
use crate::text::string_of;
use crate::text::string_pairs;
use crate::text::strings_of;
use crate::store::set_prefix;
use crate::store::put_prefix;
use crate::store::is_iri_ref;
use crate::store::iri_of;
use crate::text::lemma_after_next_found;
use crate::filters::join;
use crate::filters::join_words;

verus! {

/// The directive whose entries the indented lines belong to.
#[derive(Debug, Clone, Copy, PartialEq, Eq, Structural)]
pub enum Section {
    /// No directive with entries is open.
    Top,
    Vars,
    Prefixes,
    Sparql,
}

/// What has been read of a frontmatter.
pub struct Front {
    pub to: Option<Seq<char>>,
    pub vars: Seq<(Seq<char>, Seq<char>)>,
    pub required: Seq<Seq<char>>,
    pub prefixes: Seq<(Seq<char>, Seq<char>)>,
    pub sparql: Seq<(Seq<char>, Seq<char>)>,
    pub section: Section,
}

/// Why a frontmatter line cannot be read.
pub enum FrontFault {
    /// An unindented key that is none of `to`, `vars`, `prefixes`, `sparql`.
    Unknown(Seq<char>),
    /// Any other fault.
    Malformed,
}

/// Whether a line begins with a space or a tab.
pub open spec fn is_indented(line: Seq<char>) -> bool {
    line.len() > 0 && (line[0] == ' ' || line[0] == '\t')
}

/// The index of the first colon of a line that holds one.
pub open spec fn colon_at(line: Seq<char>) -> int {
    after_next(line, 0, ':') - 1
}

/// What stands before the first colon, trimmed.
pub open spec fn entry_name(line: Seq<char>) -> Seq<char> {
    trim(line.subrange(0, colon_at(line)))
}

/// What stands after the first colon, trimmed.
pub open spec fn entry_value(line: Seq<char>) -> Seq<char> {
    trim(line.subrange(colon_at(line) + 1, line.len() as int))
}

/// An IRI as written in a prefix entry: without its angle brackets or
/// double quotes, if it has them.
pub open spec fn plain_iri(value: Seq<char>) -> Seq<char> {
    if is_iri_ref(value) {
        iri_of(value)
    } else {
        unquote(value)
    }
}

/// Reads one indented line: an entry of the open directive.
///
/// Under `vars` an entry without a value declares a variable that has no
/// default. Under `prefixes` and `sparql` every entry needs a value. An
/// entry replaces an earlier one of the same name.
pub open spec fn read_entry(front: Front, name: Seq<char>, value: Seq<char>) -> Result<
    Front,
    FrontFault,
> {
    match front.section {
        Section::Top => Err(FrontFault::Malformed),
        Section::Vars => if value.len() == 0 {
            Ok(Front { required: front.required.push(name), ..front })
        } else {
            Ok(Front { vars: set_prefix(front.vars, name, unquote(value)), ..front })
        },
        Section::Prefixes => if value.len() == 0 {
            Err(FrontFault::Malformed)
        } else {
            Ok(Front { prefixes: set_prefix(front.prefixes, name, plain_iri(value)), ..front })
        },
        Section::Sparql => if value.len() == 0 {
            Err(FrontFault::Malformed)
        } else {
            Ok(Front { sparql: set_prefix(front.sparql, name, unquote(value)), ..front })
        },
    }
}

/// Reads one unindented line: a directive. `to` carries its value on the
/// line; the others carry none and open their entries.
pub open spec fn read_directive(front: Front, name: Seq<char>, value: Seq<char>) -> Result<
    Front,
    FrontFault,
> {
    if name == "to"@ {
        if value.len() == 0 {
            Err(FrontFault::Malformed)
        } else {
            Ok(Front { to: Some(unquote(value)), section: Section::Top, ..front })
        }
    } else if name == "vars"@ {
        if value.len() == 0 {
            Ok(Front { section: Section::Vars, ..front })
        } else {
            Err(FrontFault::Malformed)
        }
    } else if name == "prefixes"@ {
        if value.len() == 0 {
            Ok(Front { section: Section::Prefixes, ..front })
        } else {
            Err(FrontFault::Malformed)
        }
    } else if name == "sparql"@ {
        if value.len() == 0 {
            Ok(Front { section: Section::Sparql, ..front })
        } else {
            Err(FrontFault::Malformed)
        }
    } else {
        Err(FrontFault::Unknown(name))
    }
}

/// Reads one line of the frontmatter.
pub open spec fn read_front_line(front: Front, line: Seq<char>) -> Result<Front, FrontFault> {
    let t = trim(line);
    if t.len() == 0 || t[0] == '#' {
        Ok(front)
    } else if !line.contains(':') || entry_name(line).len() == 0 {
        Err(FrontFault::Malformed)
    } else if is_indented(line) {
        read_entry(front, entry_name(line), entry_value(line))
    } else {
        read_directive(front, entry_name(line), entry_value(line))
    }
}

/// The frontmatter before any of its lines is read.
pub open spec fn empty_front() -> Front {
    Front {
        to: None,
        vars: Seq::empty(),
        required: Seq::empty(),
        prefixes: Seq::empty(),
        sparql: Seq::empty(),
        section: Section::Top,
    }
}

/// Reads the lines with indices from 1 up to `n`; on the first line that
/// cannot be read, its fault and its number in the document, counted from
/// one.
pub open spec fn read_front(all: Seq<Seq<char>>, n: int) -> Result<Front, (FrontFault, int)>
    decreases n,
{
    if n <= 1 {
        Ok(empty_front())
    } else {
        match read_front(all, n - 1) {
            Err(e) => Err(e),
            Ok(front) => match read_front_line(front, all[n - 1]) {
                Ok(next) => Ok(next),
                Err(f) => Err((f, n)),
            },
        }
    }
}

/// Whether a line is the frontmatter delimiter.
pub open spec fn is_delimiter(line: Seq<char>) -> bool {
    trim(line) == "---"@
}

/// The index of the first delimiter line from `i` on; the number of lines
/// if there is none.
pub open spec fn delimiter_from(all: Seq<Seq<char>>, i: int) -> int
    decreases all.len() - i,
{
    if 0 <= i < all.len() && !is_delimiter(all[i]) {
        delimiter_from(all, i + 1)
    } else {
        i
    }
}

/// What a template text says.
pub struct Parsed {
    pub to: Seq<char>,
    pub vars: Seq<(Seq<char>, Seq<char>)>,
    pub required: Seq<Seq<char>>,
    pub prefixes: Seq<(Seq<char>, Seq<char>)>,
    pub sparql: Seq<(Seq<char>, Seq<char>)>,
    pub body: Seq<char>,
}

/// Why a text is no template.
pub enum Fault {
    MissingFrontmatter,
    UnterminatedFrontmatter,
    MissingOutputTarget,
    UnknownDirective(Seq<char>),
    MalformedFrontmatter(int),
}

/// Reads a template text.
pub open spec fn read_template(text: Seq<char>) -> Result<Parsed, Fault> {
    let all = lines(text);
    if all.len() == 0 || !is_delimiter(all[0]) {
        Err(Fault::MissingFrontmatter)
    } else {
        let k = delimiter_from(all, 1);
        if k >= all.len() {
            Err(Fault::UnterminatedFrontmatter)
        } else {
            match read_front(all, k) {
                Err((FrontFault::Unknown(name), _)) => Err(Fault::UnknownDirective(name)),
                Err((FrontFault::Malformed, line)) => Err(Fault::MalformedFrontmatter(line)),
                Ok(front) => match front.to {
                    None => Err(Fault::MissingOutputTarget),
                    Some(to) => Ok(
                        Parsed {
                            to,
                            vars: front.vars,
                            required: front.required,
                            prefixes: front.prefixes,
                            sparql: front.sparql,
                            body: join(all.subrange(k + 1, all.len() as int), seq!['\n']),
                        },
                    ),
                },
            }
        }
    }
}

/// A frontmatter in the making.
struct FrontState {
    to: Option<Vec<char>>,
    vars: Vec<(Vec<char>, Vec<char>)>,
    required: Vec<Vec<char>>,
    prefixes: Vec<(Vec<char>, Vec<char>)>,
    sparql: Vec<(Vec<char>, Vec<char>)>,
    section: Section,
}

impl View for FrontState {
    type V = Front;

    closed spec fn view(&self) -> Front {
        Front {
            to: match self.to {
                Some(t) => Some(t@),
                None => None,
            },
            vars: views(self.vars@),
            required: views(self.required@),
            prefixes: views(self.prefixes@),
            sparql: views(self.sparql@),
            section: self.section,
        }
    }
}

/// Why a frontmatter line cannot be read.
#[derive(Debug)]
enum FrontError {
    Unknown(Vec<char>),
    Malformed,
}

impl View for FrontError {
    type V = FrontFault;

    closed spec fn view(&self) -> FrontFault {
        match self {
            FrontError::Unknown(name) => FrontFault::Unknown(name@),
            FrontError::Malformed => FrontFault::Malformed,
        }
    }
}

fn plain_iri_of(value: &Vec<char>) -> (out: Vec<char>)
    ensures
        out@ == plain_iri(value@),
{
    let n: usize = value.len();
    if n >= 2 && value[0] == '<' && value[n - 1] == '>' {
        slice(value, 1, n - 1)
    } else {
        unquoted(value)
    }
}

fn parse_entry(state: &mut FrontState, name: Vec<char>, value: Vec<char>) -> (out: Result<
    (),
    FrontError,
>)
    ensures
        match read_entry(old(state)@, name@, value@) {
            Ok(next) => out.is_ok() && final(state)@ == next,
            Err(f) => out.is_err() && out.unwrap_err()@ == f,
        },
{
    match state.section {
        Section::Top => Err(FrontError::Malformed),
        Section::Vars => {
            if value.len() == 0 {
                let ghost before = views(state.required@);
                state.required.push(name);
                assert(views(state.required@) =~= before.push(name@));
            } else {
                put_prefix(&mut state.vars, name, unquoted(&value));
            }
            Ok(())
        },
        Section::Prefixes => {
            if value.len() == 0 {
                Err(FrontError::Malformed)
            } else {
                put_prefix(&mut state.prefixes, name, plain_iri_of(&value));
                Ok(())
            }
        },
        Section::Sparql => {
            if value.len() == 0 {
                Err(FrontError::Malformed)
            } else {
                put_prefix(&mut state.sparql, name, unquoted(&value));
                Ok(())
            }
        },
    }
}

fn parse_directive(state: &mut FrontState, name: Vec<char>, value: Vec<char>) -> (out: Result<
    (),
    FrontError,
>)
    ensures
        match read_directive(old(state)@, name@, value@) {
            Ok(next) => out.is_ok() && final(state)@ == next,
            Err(f) => out.is_err() && out.unwrap_err()@ == f,
        },
{
    if is_text(&name, "to") {
        if value.len() == 0 {
            Err(FrontError::Malformed)
        } else {
            state.to = Some(unquoted(&value));
            state.section = Section::Top;
            Ok(())
        }
    } else if is_text(&name, "vars") {
        if value.len() == 0 {
            state.section = Section::Vars;
            Ok(())
        } else {
            Err(FrontError::Malformed)
        }
    } else if is_text(&name, "prefixes") {
        if value.len() == 0 {
            state.section = Section::Prefixes;
            Ok(())
        } else {
            Err(FrontError::Malformed)
        }
    } else if is_text(&name, "sparql") {
        if value.len() == 0 {
            state.section = Section::Sparql;
            Ok(())
        } else {
            Err(FrontError::Malformed)
        }
    } else {
        Err(FrontError::Unknown(name))
    }
}

fn parse_front_line(state: &mut FrontState, line: &Vec<char>) -> (out: Result<(), FrontError>)
    ensures
        match read_front_line(old(state)@, line@) {
            Ok(next) => out.is_ok() && final(state)@ == next,
            Err(f) => out.is_err() && out.unwrap_err()@ == f,
        },
{
    let t = trimmed(line);
    if t.len() == 0 || t[0] == '#' {
        return Ok(());
    }
    if !has_char(line, ':') {
        return Err(FrontError::Malformed);
    }
    proof {
        lemma_after_next_found(line@, 0, ':');
    }
    let after: usize = find_after_next(line, 0, ':');
    let name = trimmed(&slice(line, 0, after - 1));
    if name.len() == 0 {
        return Err(FrontError::Malformed);
    }
    let value = trimmed(&slice(line, after, line.len()));
    if line[0] == ' ' || line[0] == '\t' {
        parse_entry(state, name, value)
    } else {
        parse_directive(state, name, value)
    }
}

fn is_delimiter_line(line: &Vec<char>) -> (out: bool)
    ensures
        out == is_delimiter(line@),
{
    let t = trimmed(line);
    is_text(&t, "---")
}

fn find_delimiter(all: &Vec<Vec<char>>, from: usize) -> (out: usize)
    requires
        from <= all@.len(),
    ensures
        out == delimiter_from(views(all@), from as int),
        from <= out <= all@.len(),
{
    let ghost av = views(all@);
    let mut i: usize = from;
    while i < all.len() && !is_delimiter_line(&all[i])
        invariant
            from <= i <= all@.len(),
            av == views(all@),
            delimiter_from(av, from as int) == delimiter_from(av, i as int),
        decreases all.len() - i,
    {
        assert(av[i as int] == all@[i as int]@);
        i += 1;
    }
    proof {
        if i < all.len() {
            assert(av[i as int] == all@[i as int]@);
        }
    }
    i
}

/// A parsed template.
#[derive(Debug)]
pub struct TemplateDocument {
    /// The output path, itself an expression text.
    pub to: String,
    /// The variables that have a default, with their defaults.
    pub vars: Vec<(String, String)>,
    /// The variables declared without a default.
    pub required: Vec<String>,
    /// The template's own prefixes.
    pub prefixes: Vec<(String, String)>,
    /// The named queries, as query texts.
    pub sparql: Vec<(String, String)>,
    /// The body, verbatim.
    pub body: String,
}

impl View for TemplateDocument {
    type V = Parsed;

    open spec fn view(&self) -> Parsed {
        Parsed {
            to: self.to@,
            vars: views(self.vars@),
            required: views(self.required@),
            prefixes: views(self.prefixes@),
            sparql: views(self.sparql@),
            body: self.body@,
        }
    }
}

/// Why a text is no template.
#[derive(Debug)]
pub enum ParseError {
    /// The text does not begin with a delimiter line.
    MissingFrontmatter,
    /// No second delimiter line ends the frontmatter.
    UnterminatedFrontmatter,
    /// The frontmatter has no `to`.
    MissingOutputTarget,
    /// The frontmatter has a directive that is not recognized.
    UnknownDirective(String),
    /// Line `line` of the frontmatter cannot be read.
    MalformedFrontmatter { line: usize },
}

impl View for ParseError {
    type V = Fault;

    open spec fn view(&self) -> Fault {
        match self {
            ParseError::MissingFrontmatter => Fault::MissingFrontmatter,
            ParseError::UnterminatedFrontmatter => Fault::UnterminatedFrontmatter,
            ParseError::MissingOutputTarget => Fault::MissingOutputTarget,
            ParseError::UnknownDirective(name) => Fault::UnknownDirective(name@),
            ParseError::MalformedFrontmatter { line } => Fault::MalformedFrontmatter(*line as int),
        }
    }
}

proof fn lemma_read_front_fails_on(all: Seq<Seq<char>>, n: int, end: int)
    requires
        1 <= n <= end,
        read_front(all, n).is_err(),
    ensures
        read_front(all, end) == read_front(all, n),
    decreases end - n,
{
    if n < end {
        lemma_read_front_fails_on(all, n, end - 1);
    }
}

/// Parses a template text.
///
/// Fails with `MissingFrontmatter` or `UnterminatedFrontmatter` where the
/// delimiters are missing, with `UnknownDirective` or `MalformedFrontmatter`
/// on the first frontmatter line that cannot be read, and with
/// `MissingOutputTarget` where all lines can be read and none is `to`.
pub fn parse(raw_text: &str) -> (out: Result<TemplateDocument, ParseError>)
    ensures
        match read_template(raw_text@) {
            Ok(parsed) => out matches Ok(doc) && doc@ == parsed,
            Err(fault) => out matches Err(e) && e@ == fault,
        },
{
    let text = chars_of(raw_text);
    let all = split_lines(&text);
    let ghost av = views(all@);
    assert(av[0] == all@[0]@);
    if !is_delimiter_line(&all[0]) {
        return Err(ParseError::MissingFrontmatter);
    }
    let k: usize = find_delimiter(&all, 1);
    if k >= all.len() {
        return Err(ParseError::UnterminatedFrontmatter);
    }
    let mut state = FrontState {
        to: None,
        vars: Vec::new(),
        required: Vec::new(),
        prefixes: Vec::new(),
        sparql: Vec::new(),
        section: Section::Top,
    };
    proof {
        assert(views(state.vars@) =~= Seq::empty());
        assert(views(state.required@) =~= Seq::empty());
        assert(views(state.prefixes@) =~= Seq::empty());
        assert(views(state.sparql@) =~= Seq::empty());
    }
    let mut i: usize = 1;
    while i < k
        invariant
            1 <= i <= k,
            k < all@.len(),
            av == views(all@),
            av == lines(raw_text@),
            is_delimiter(av[0]),
            k == delimiter_from(av, 1),
            read_front(av, i as int) == Ok::<Front, (FrontFault, int)>(state@),
        decreases k - i,
    {
        assert(av[i as int] == all@[i as int]@);
        match parse_front_line(&mut state, &all[i]) {
            Ok(()) => {},
            Err(e) => {
                proof {
                    lemma_read_front_fails_on(av, i + 1, k as int);
                }
                match e {
                    FrontError::Unknown(name) => {
                        return Err(ParseError::UnknownDirective(string_of(&name)));
                    },
                    FrontError::Malformed => {
                        return Err(ParseError::MalformedFrontmatter { line: i + 1 });
                    },
                }
            },
        }
        i += 1;
    }
    let to = match &state.to {
        None => {
            return Err(ParseError::MissingOutputTarget);
        },
        Some(t) => string_of(t),
    };
    let mut rest: Vec<Vec<char>> = Vec::new();
    let mut j: usize = k + 1;
    while j < all.len()
        invariant
            k + 1 <= j <= all@.len(),
            av == views(all@),
            views(rest@) == av.subrange(k + 1, j as int),
        decreases all.len() - j,
    {
        let ghost before = views(rest@);
        let copy = slice(&all[j], 0, all[j].len());
        assert(copy@ =~= all@[j as int]@);
        rest.push(copy);
        assert(views(rest@) =~= before.push(av[j as int]));
        j += 1;
        assert(views(rest@) =~= av.subrange(k + 1, j as int));
    }
    let mut sep: Vec<char> = Vec::new();
    sep.push('\n');
    assert(sep@ =~= seq!['\n']);
    let body = join_words(&rest, &sep);
    Ok(
        TemplateDocument {
            to,
            vars: string_pairs(&state.vars),
            required: strings_of(&state.required),
            prefixes: string_pairs(&state.prefixes),
            sparql: string_pairs(&state.sparql),
            body: string_of(&body),
        },
    )
}

} // verus!
