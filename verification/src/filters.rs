//! Case filters: pure transforms from text to text.
//!
//! A text is cut into words at separators (`_`, `-`, space) and wherever an
//! upper-case letter follows a character that is not one. Letters are the
//! ASCII letters; every other character passes through unchanged.

use vstd::prelude::*;
use crate::text::views;
use crate::text::push_all;
use crate::text::is_text;
use crate::text::chars_of;
use crate::text::string_of;

verus! {

/// Whether a character is an ASCII upper-case letter.
pub open spec fn is_upper(c: char) -> bool {
    'A' <= c && c <= 'Z'
}

/// Whether a character is an ASCII lower-case letter.
pub open spec fn is_lower(c: char) -> bool {
    'a' <= c && c <= 'z'
}

/// Whether a character separates words.
pub open spec fn is_separator(c: char) -> bool {
    c == '_' || c == '-' || c == ' '
}

/// The lower-case form of an ASCII letter; any other character itself.
pub open spec fn lower_char(c: char) -> char {
    if is_upper(c) {
        ((c as u8) + 32) as char
    } else {
        c
    }
}

/// The upper-case form of an ASCII letter; any other character itself.
pub open spec fn upper_char(c: char) -> char {
    if is_lower(c) {
        ((c as u8) - 32) as char
    } else {
        c
    }
}

/// The lower-case form of an ASCII letter; any other character itself.
pub fn to_lower_char(c: char) -> (out: char)
    ensures
        out == lower_char(c),
{
    if 'A' <= c && c <= 'Z' {
        ((c as u8) + 32) as char
    } else {
        c
    }
}

/// The upper-case form of an ASCII letter; any other character itself.
pub fn to_upper_char(c: char) -> (out: char)
    ensures
        out == upper_char(c),
{
    if 'a' <= c && c <= 'z' {
        ((c as u8) - 32) as char
    } else {
        c
    }
}

/// Whether a word begins at index `i` of `s`.
pub open spec fn starts_word(s: Seq<char>, i: int) -> bool
    recommends
        0 <= i < s.len(),
{
    !is_separator(s[i]) && (i == 0 || is_separator(s[i - 1]) || (is_upper(s[i]) && !is_upper(
        s[i - 1],
    )))
}

/// The words of a text, in order. Separators belong to no word, so no word
/// is empty.
pub open spec fn words(s: Seq<char>) -> Seq<Seq<char>>
    decreases s.len(),
{
    if s.len() == 0 {
        Seq::empty()
    } else {
        let rest = words(s.drop_last());
        let c = s.last();
        if is_separator(c) {
            rest
        } else if starts_word(s, s.len() - 1) || rest.len() == 0 {
            rest.push(seq![c])
        } else {
            rest.drop_last().push(rest.last().push(c))
        }
    }
}

/// Every letter in lower case.
pub open spec fn lower(s: Seq<char>) -> Seq<char> {
    s.map_values(|c: char| lower_char(c))
}

/// Every letter in upper case.
pub open spec fn upper(s: Seq<char>) -> Seq<char> {
    s.map_values(|c: char| upper_char(c))
}

/// The first letter in upper case, the others in lower case.
pub open spec fn capitalize(w: Seq<char>) -> Seq<char> {
    if w.len() == 0 {
        w
    } else {
        seq![upper_char(w[0])] + lower(w.drop_first())
    }
}

/// The words one after the other with `sep` between neighbours.
pub open spec fn join(ws: Seq<Seq<char>>, sep: Seq<char>) -> Seq<char>
    decreases ws.len(),
{
    if ws.len() == 0 {
        Seq::empty()
    } else if ws.len() == 1 {
        ws[0]
    } else {
        join(ws.drop_last(), sep) + sep + ws.last()
    }
}

/// The words in lower case with `_` between them.
pub open spec fn snake(s: Seq<char>) -> Seq<char> {
    join(words(s).map_values(|w: Seq<char>| lower(w)), seq!['_'])
}

/// The words in lower case with `-` between them.
pub open spec fn kebab(s: Seq<char>) -> Seq<char> {
    join(words(s).map_values(|w: Seq<char>| lower(w)), seq!['-'])
}

/// The words capitalized with a space between them.
pub open spec fn title(s: Seq<char>) -> Seq<char> {
    join(words(s).map_values(|w: Seq<char>| capitalize(w)), seq![' '])
}

/// The words capitalized with nothing between them.
pub open spec fn pascal(s: Seq<char>) -> Seq<char> {
    join(words(s).map_values(|w: Seq<char>| capitalize(w)), Seq::empty())
}

/// As `pascal`, but the first word is all lower case.
pub open spec fn camel(s: Seq<char>) -> Seq<char> {
    let ws = words(s);
    join(
        Seq::new(
            ws.len(),
            |i: int|
                if i == 0 {
                    lower(ws[i])
                } else {
                    capitalize(ws[i])
                },
        ),
        Seq::empty(),
    )
}

/// One of the seven supported filters.
#[derive(Debug, Clone, Copy, PartialEq, Eq, Structural)]
pub enum Filter {
    Camel,
    Pascal,
    Snake,
    Kebab,
    Title,
    Upper,
    Lower,
}

/// What a filter makes of a text.
pub open spec fn filtered(f: Filter, s: Seq<char>) -> Seq<char> {
    match f {
        Filter::Camel => camel(s),
        Filter::Pascal => pascal(s),
        Filter::Snake => snake(s),
        Filter::Kebab => kebab(s),
        Filter::Title => title(s),
        Filter::Upper => upper(s),
        Filter::Lower => lower(s),
    }
}

/// The filter that a name stands for, if it is one of the seven.
pub open spec fn filter_named(name: Seq<char>) -> Option<Filter> {
    if name == "camel"@ {
        Some(Filter::Camel)
    } else if name == "pascal"@ {
        Some(Filter::Pascal)
    } else if name == "snake"@ {
        Some(Filter::Snake)
    } else if name == "kebab"@ {
        Some(Filter::Kebab)
    } else if name == "title"@ {
        Some(Filter::Title)
    } else if name == "upper"@ {
        Some(Filter::Upper)
    } else if name == "lower"@ {
        Some(Filter::Lower)
    } else {
        None
    }
}

/// Cuts a text into its words.
pub fn split_words(s: &Vec<char>) -> (out: Vec<Vec<char>>)
    ensures
        views(out@) == words(s@),
{
    let mut out: Vec<Vec<char>> = Vec::new();
    let mut i: usize = 0;
    assert(s@.subrange(0, 0) =~= Seq::<char>::empty());
    assert(views(out@) =~= words(s@.subrange(0, 0)));
    while i < s.len()
        invariant
            i <= s.len(),
            views(out@) == words(s@.subrange(0, i as int)),
        decreases s.len() - i,
    {
        let c: char = s[i];
        let ghost prefix = s@.subrange(0, i as int);
        let ghost next = s@.subrange(0, i + 1);
        assert(next.drop_last() =~= prefix);
        assert(next.last() == c);
        let sep: bool = c == '_' || c == '-' || c == ' ';
        if !sep {
            let start: bool = i == 0 || {
                let p: char = s[i - 1];
                p == '_' || p == '-' || p == ' ' || ('A' <= c && c <= 'Z' && !('A' <= p && p
                    <= 'Z'))
            };
            assert(start == starts_word(next, i as int)) by {
                if i > 0 {
                    assert(next[i - 1] == s@[i - 1]);
                }
            }
            if start || out.len() == 0 {
                let mut w: Vec<char> = Vec::new();
                w.push(c);
                assert(w@ =~= seq![c]);
                let ghost before = views(out@);
                out.push(w);
                assert(views(out@) =~= before.push(seq![c]));
            } else {
                let ghost before = views(out@);
                let mut w: Vec<char> = out.pop().unwrap();
                assert(w@ == before.last());
                assert(views(out@) =~= before.drop_last());
                w.push(c);
                out.push(w);
                assert(views(out@) =~= before.drop_last().push(before.last().push(c)));
            }
        }
        i += 1;
    }
    assert(s@.subrange(0, s.len() as int) =~= s@);
    out
}

/// Every letter in lower case.
pub fn lower_all(s: &Vec<char>) -> (out: Vec<char>)
    ensures
        out@ == lower(s@),
{
    let mut out: Vec<char> = Vec::new();
    let mut i: usize = 0;
    while i < s.len()
        invariant
            i <= s.len(),
            out@.len() == i,
            forall|j: int| 0 <= j < i ==> out@[j] == lower_char(s@[j]),
        decreases s.len() - i,
    {
        out.push(to_lower_char(s[i]));
        i += 1;
    }
    assert(out@ =~= lower(s@));
    out
}

/// Every letter in upper case.
pub fn upper_all(s: &Vec<char>) -> (out: Vec<char>)
    ensures
        out@ == upper(s@),
{
    let mut out: Vec<char> = Vec::new();
    let mut i: usize = 0;
    while i < s.len()
        invariant
            i <= s.len(),
            out@.len() == i,
            forall|j: int| 0 <= j < i ==> out@[j] == upper_char(s@[j]),
        decreases s.len() - i,
    {
        out.push(to_upper_char(s[i]));
        i += 1;
    }
    assert(out@ =~= upper(s@));
    out
}

/// The first letter in upper case, the others in lower case.
pub fn capitalized(w: &Vec<char>) -> (out: Vec<char>)
    ensures
        out@ == capitalize(w@),
{
    let mut out: Vec<char> = Vec::new();
    let mut i: usize = 0;
    while i < w.len()
        invariant
            i <= w.len(),
            out@.len() == i,
            forall|j: int|
                0 <= j < i ==> out@[j] == if j == 0 {
                    upper_char(w@[j])
                } else {
                    lower_char(w@[j])
                },
        decreases w.len() - i,
    {
        if i == 0 {
            out.push(to_upper_char(w[i]));
        } else {
            out.push(to_lower_char(w[i]));
        }
        i += 1;
    }
    assert(out@ =~= capitalize(w@));
    out
}

/// The words one after the other with `sep` between neighbours.
pub fn join_words(ws: &Vec<Vec<char>>, sep: &Vec<char>) -> (out: Vec<char>)
    ensures
        out@ == join(views(ws@), sep@),
{
    let mut out: Vec<char> = Vec::new();
    let mut i: usize = 0;
    assert(views(ws@).subrange(0, 0) =~= Seq::<Seq<char>>::empty());
    while i < ws.len()
        invariant
            i <= ws.len(),
            out@ == join(views(ws@).subrange(0, i as int), sep@),
        decreases ws.len() - i,
    {
        let ghost before = views(ws@).subrange(0, i as int);
        let ghost after = views(ws@).subrange(0, i + 1);
        assert(after.drop_last() =~= before);
        assert(after.last() == ws@[i as int]@);
        if i > 0 {
            push_all(&mut out, sep);
        }
        push_all(&mut out, &ws[i]);
        assert(out@ =~= join(after, sep@)) by {
            if i == 0 {
                assert(join(before, sep@) =~= Seq::<char>::empty());
            }
        }
        i += 1;
    }
    assert(views(ws@).subrange(0, ws.len() as int) =~= views(ws@));
    out
}

/// Each word in lower case.
fn lower_each(ws: &Vec<Vec<char>>) -> (out: Vec<Vec<char>>)
    ensures
        views(out@) == views(ws@).map_values(|w: Seq<char>| lower(w)),
{
    let mut out: Vec<Vec<char>> = Vec::new();
    let mut i: usize = 0;
    while i < ws.len()
        invariant
            i <= ws.len(),
            out@.len() == i,
            forall|j: int| 0 <= j < i ==> (#[trigger] out@[j])@ == lower(ws@[j]@),
        decreases ws.len() - i,
    {
        out.push(lower_all(&ws[i]));
        i += 1;
    }
    assert(views(out@) =~= views(ws@).map_values(|w: Seq<char>| lower(w)));
    out
}

/// Each word capitalized.
fn capitalize_each(ws: &Vec<Vec<char>>) -> (out: Vec<Vec<char>>)
    ensures
        views(out@) == views(ws@).map_values(|w: Seq<char>| capitalize(w)),
{
    let mut out: Vec<Vec<char>> = Vec::new();
    let mut i: usize = 0;
    while i < ws.len()
        invariant
            i <= ws.len(),
            out@.len() == i,
            forall|j: int| 0 <= j < i ==> (#[trigger] out@[j])@ == capitalize(ws@[j]@),
        decreases ws.len() - i,
    {
        out.push(capitalized(&ws[i]));
        i += 1;
    }
    assert(views(out@) =~= views(ws@).map_values(|w: Seq<char>| capitalize(w)));
    out
}

/// The first word in lower case, the others capitalized.
fn camel_each(ws: &Vec<Vec<char>>) -> (out: Vec<Vec<char>>)
    ensures
        views(out@) == Seq::new(
            ws@.len(),
            |i: int|
                if i == 0 {
                    lower(views(ws@)[i])
                } else {
                    capitalize(views(ws@)[i])
                },
        ),
{
    let mut out: Vec<Vec<char>> = Vec::new();
    let mut i: usize = 0;
    while i < ws.len()
        invariant
            i <= ws.len(),
            out@.len() == i,
            forall|j: int|
                0 <= j < i ==> (#[trigger] out@[j])@ == if j == 0 {
                    lower(ws@[j]@)
                } else {
                    capitalize(ws@[j]@)
                },
        decreases ws.len() - i,
    {
        if i == 0 {
            out.push(lower_all(&ws[i]));
        } else {
            out.push(capitalized(&ws[i]));
        }
        i += 1;
    }
    assert(views(out@) =~= Seq::new(
        ws@.len(),
        |i: int|
            if i == 0 {
                lower(views(ws@)[i])
            } else {
                capitalize(views(ws@)[i])
            },
    ));
    out
}

impl Filter {
    /// The filter that a name stands for, if it is one of the seven.
    pub fn from_name(name: &Vec<char>) -> (out: Option<Filter>)
        ensures
            out == filter_named(name@),
    {
        if is_text(name, "camel") {
            Some(Filter::Camel)
        } else if is_text(name, "pascal") {
            Some(Filter::Pascal)
        } else if is_text(name, "snake") {
            Some(Filter::Snake)
        } else if is_text(name, "kebab") {
            Some(Filter::Kebab)
        } else if is_text(name, "title") {
            Some(Filter::Title)
        } else if is_text(name, "upper") {
            Some(Filter::Upper)
        } else if is_text(name, "lower") {
            Some(Filter::Lower)
        } else {
            None
        }
    }

    /// Applies the filter to a text.
    pub fn apply(&self, s: &Vec<char>) -> (out: Vec<char>)
        ensures
            out@ == filtered(*self, s@),
    {
        match self {
            Filter::Upper => upper_all(s),
            Filter::Lower => lower_all(s),
            Filter::Camel => {
                let ws = split_words(s);
                let sep: Vec<char> = Vec::new();
                join_words(&camel_each(&ws), &sep)
            },
            Filter::Pascal => {
                let ws = split_words(s);
                let sep: Vec<char> = Vec::new();
                join_words(&capitalize_each(&ws), &sep)
            },
            Filter::Snake => {
                let ws = split_words(s);
                let mut sep: Vec<char> = Vec::new();
                sep.push('_');
                assert(sep@ =~= seq!['_']);
                join_words(&lower_each(&ws), &sep)
            },
            Filter::Kebab => {
                let ws = split_words(s);
                let mut sep: Vec<char> = Vec::new();
                sep.push('-');
                assert(sep@ =~= seq!['-']);
                join_words(&lower_each(&ws), &sep)
            },
            Filter::Title => {
                let ws = split_words(s);
                let mut sep: Vec<char> = Vec::new();
                sep.push(' ');
                assert(sep@ =~= seq![' ']);
                join_words(&capitalize_each(&ws), &sep)
            },
        }
    }
}

/// Applies the filter called `name` to `input`; `None` when no filter has
/// that name.
pub fn apply_named(name: &str, input: &str) -> (out: Option<String>)
    ensures
        match filter_named(name@) {
            Some(f) => out.is_some() && out.unwrap()@ == filtered(f, input@),
            None => out.is_none(),
        },
{
    let name_chars = chars_of(name);
    let input_chars = chars_of(input);
    match Filter::from_name(&name_chars) {
        Some(f) => {
            let done = f.apply(&input_chars);
            Some(string_of(&done))
        },
        None => None,
    }
}

} // verus!
