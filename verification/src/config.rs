//! The lifecycle configuration: a text with one `[lifecycle.<phase>]`
//! section for each phase.
//!
//! In such a section `depends_on` and `templates` are lists of quoted
//! names, and `action` names what the phase does; a phase without
//! `action` does what its name says. Other keys, other sections, empty
//! lines and lines that start with `#` are passed over.

use vstd::prelude::*;
use crate::text::views;
use crate::text::lines;
use crate::text::split_lines;
use crate::text::split_on;
use crate::text::split_at_char;
use crate::text::trim;
use crate::text::trimmed;
use crate::text::unquote;
use crate::text::unquoted;
use crate::text::after_next;
use crate::text::find_after_next;
use crate::text::has_char;
use crate::text::starts_with;
use crate::text::has_prefix;
use crate::text::slice;
use crate::text::is_text;
use crate::text::chars_of;
use crate::text::string_of;
use crate::text::strings_of;
use crate::text::lemma_after_next_found;
use crate::lifecycle::Action;
use crate::lifecycle::Phase;

verus! {

/// A phase as the configuration states it.
pub struct Entry {
    pub name: Seq<char>,
    pub depends_on: Seq<Seq<char>>,
    pub action: Option<Action>,
    pub templates: Seq<Seq<char>>,
}

/// What has been read of a configuration: the phases so far, and whether
/// the lines now being read belong to the last of them.
pub struct Read {
    pub entries: Seq<Entry>,
    pub open: bool,
}

/// The action that a name stands for.
pub open spec fn action_named(name: Seq<char>) -> Option<Action> {
    if name == "init"@ {
        Some(Action::Init)
    } else if name == "setup"@ {
        Some(Action::Setup)
    } else if name == "generate"@ {
        Some(Action::Generate)
    } else if name == "build"@ {
        Some(Action::Build)
    } else if name == "test"@ {
        Some(Action::Test)
    } else if name == "deploy"@ {
        Some(Action::Deploy)
    } else {
        None
    }
}

/// Whether a text is a quoted name.
pub open spec fn is_quoted(s: Seq<char>) -> bool {
    s.len() >= 2 && s[0] == '"' && s.last() == '"'
}

/// Whether a text is written as a list: between square brackets.
pub open spec fn is_bracketed(s: Seq<char>) -> bool {
    s.len() >= 2 && s[0] == '[' && s.last() == ']'
}

/// The names of the items of a list, given as its items trimmed: each item
/// must be quoted.
pub open spec fn read_items(items: Seq<Seq<char>>) -> Option<Seq<Seq<char>>>
    decreases items.len(),
{
    if items.len() == 0 {
        Some(Seq::empty())
    } else if is_quoted(trim(items.last())) {
        match read_items(items.drop_last()) {
            Some(names) => Some(names.push(unquote(trim(items.last())))),
            None => None,
        }
    } else {
        None
    }
}

/// The names that a list value holds: quoted names between square
/// brackets, with commas between them.
pub open spec fn read_list(value: Seq<char>) -> Option<Seq<Seq<char>>> {
    if !is_bracketed(value) {
        None
    } else {
        let inner = value.subrange(1, value.len() - 1);
        if trim(inner).len() == 0 {
            Some(Seq::empty())
        } else {
            read_items(split_on(inner, ','))
        }
    }
}

/// Reads a `key = value` line of the last phase.
pub open spec fn read_key(entry: Entry, key: Seq<char>, value: Seq<char>) -> Option<Entry> {
    if key == "depends_on"@ {
        match read_list(value) {
            Some(names) => Some(Entry { depends_on: names, ..entry }),
            None => None,
        }
    } else if key == "templates"@ {
        match read_list(value) {
            Some(names) => Some(Entry { templates: names, ..entry }),
            None => None,
        }
    } else if key == "action"@ {
        if is_quoted(value) && action_named(unquote(value)).is_some() {
            Some(Entry { action: action_named(unquote(value)), ..entry })
        } else {
            None
        }
    } else {
        Some(entry)
    }
}

/// The text before the first `=` of a line that holds one, trimmed.
pub open spec fn key_of(line: Seq<char>) -> Seq<char> {
    trim(line.subrange(0, after_next(line, 0, '=') - 1))
}

/// The text after the first `=` of a line that holds one, trimmed.
pub open spec fn value_of(line: Seq<char>) -> Seq<char> {
    trim(line.subrange(after_next(line, 0, '='), line.len() as int))
}

/// Reads one line. `None` says that the line cannot be read.
pub open spec fn read_config_line(state: Read, line: Seq<char>) -> Option<Read> {
    let t = trim(line);
    if t.len() == 0 || t[0] == '#' {
        Some(state)
    } else if is_bracketed(t) {
        let section = t.subrange(1, t.len() - 1);
        if starts_with(section, "lifecycle."@) {
            let name = section.subrange("lifecycle."@.len() as int, section.len() as int);
            if name.len() == 0 {
                None
            } else {
                Some(
                    Read {
                        entries: state.entries.push(
                            Entry {
                                name,
                                depends_on: Seq::empty(),
                                action: None,
                                templates: Seq::empty(),
                            },
                        ),
                        open: true,
                    },
                )
            }
        } else {
            Some(Read { open: false, ..state })
        }
    } else if !state.open || state.entries.len() == 0 {
        Some(state)
    } else if !line.contains('=') {
        None
    } else {
        match read_key(state.entries.last(), key_of(line), value_of(line)) {
            Some(entry) => Some(
                Read { entries: state.entries.drop_last().push(entry), open: true },
            ),
            None => None,
        }
    }
}

/// Reads the lines in order; on the first line that cannot be read, its
/// number, counted from one.
pub open spec fn read_config(all: Seq<Seq<char>>) -> Result<Read, int>
    decreases all.len(),
{
    if all.len() == 0 {
        Ok(Read { entries: Seq::empty(), open: false })
    } else {
        match read_config(all.drop_last()) {
            Err(line) => Err(line),
            Ok(state) => match read_config_line(state, all.last()) {
                Some(next) => Ok(next),
                None => Err(all.len() as int),
            },
        }
    }
}

/// What a phase does: what its `action` says, else what its name says.
pub open spec fn action_of(entry: Entry) -> Option<Action> {
    match entry.action {
        Some(a) => Some(a),
        None => action_named(entry.name),
    }
}

/// The action of every entry is known.
pub open spec fn all_have_actions(entries: Seq<Entry>) -> bool {
    forall|i: int| 0 <= i < entries.len() ==> action_of(#[trigger] entries[i]).is_some()
}

/// Entry `i` is the first whose action is not known.
pub open spec fn first_without_action(entries: Seq<Entry>, i: int) -> bool {
    &&& 0 <= i < entries.len()
    &&& action_of(entries[i]).is_none()
    &&& forall|j: int| 0 <= j < i ==> action_of(#[trigger] entries[j]).is_some()
}

/// The phase says what the entry says.
pub open spec fn phase_of(phase: Phase, entry: Entry) -> bool {
    &&& phase.name@ == entry.name
    &&& views(phase.depends_on@) == entry.depends_on
    &&& views(phase.templates@) == entry.templates
    &&& Some(phase.action) == action_of(entry)
}

/// Why a text is no lifecycle configuration.
#[derive(Debug)]
pub enum LifecycleError {
    /// Line `line` of a lifecycle section cannot be read.
    Malformed { line: usize },
    /// The phase has no `action`, and its name is not the name of one.
    UnknownAction { phase: String },
}

/// A phase in the making.
struct Draft {
    name: Vec<char>,
    depends_on: Vec<Vec<char>>,
    action: Option<Action>,
    templates: Vec<Vec<char>>,
}

impl View for Draft {
    type V = Entry;

    closed spec fn view(&self) -> Entry {
        Entry {
            name: self.name@,
            depends_on: views(self.depends_on@),
            action: self.action,
            templates: views(self.templates@),
        }
    }
}

fn action_by_name(name: &Vec<char>) -> (out: Option<Action>)
    ensures
        out == action_named(name@),
{
    if is_text(name, "init") {
        Some(Action::Init)
    } else if is_text(name, "setup") {
        Some(Action::Setup)
    } else if is_text(name, "generate") {
        Some(Action::Generate)
    } else if is_text(name, "build") {
        Some(Action::Build)
    } else if is_text(name, "test") {
        Some(Action::Test)
    } else if is_text(name, "deploy") {
        Some(Action::Deploy)
    } else {
        None
    }
}

fn quoted(s: &Vec<char>) -> (out: bool)
    ensures
        out == is_quoted(s@),
{
    s.len() >= 2 && s[0] == '"' && s[s.len() - 1] == '"'
}

fn bracketed(s: &Vec<char>) -> (out: bool)
    ensures
        out == is_bracketed(s@),
{
    s.len() >= 2 && s[0] == '[' && s[s.len() - 1] == ']'
}

proof fn lemma_read_items_fails_on(items: Seq<Seq<char>>, n: int)
    requires
        0 <= n <= items.len(),
        read_items(items.subrange(0, n)).is_none(),
    ensures
        read_items(items).is_none(),
    decreases items.len() - n,
{
    if n < items.len() {
        let next = items.subrange(0, n + 1);
        assert(next.drop_last() =~= items.subrange(0, n));
        lemma_read_items_fails_on(items, n + 1);
    } else {
        assert(items.subrange(0, n) =~= items);
    }
}

fn parse_list(value: &Vec<char>) -> (out: Option<Vec<Vec<char>>>)
    ensures
        match read_list(value@) {
            Some(names) => out.is_some() && views(out.unwrap()@) == names,
            None => out.is_none(),
        },
{
    if !bracketed(value) {
        return None;
    }
    let inner = slice(value, 1, value.len() - 1);
    let mut out: Vec<Vec<char>> = Vec::new();
    assert(views(out@) =~= Seq::empty());
    if trimmed(&inner).len() == 0 {
        return Some(out);
    }
    let items = split_at_char(&inner, ',');
    let ghost iv = views(items@);
    let mut i: usize = 0;
    assert(iv.subrange(0, 0) =~= Seq::empty());
    while i < items.len()
        invariant
            i <= items@.len(),
            iv == views(items@),
            is_bracketed(value@),
            inner@ == value@.subrange(1, value@.len() - 1),
            trim(inner@).len() != 0,
            iv == split_on(inner@, ','),
            read_items(iv.subrange(0, i as int)) == Some(views(out@)),
        decreases items.len() - i,
    {
        let ghost next = iv.subrange(0, i + 1);
        assert(next.drop_last() =~= iv.subrange(0, i as int));
        assert(next.last() == items@[i as int]@);
        let item = trimmed(&items[i]);
        if !quoted(&item) {
            proof {
                assert(read_items(next).is_none());
                lemma_read_items_fails_on(iv, i + 1);
            }
            return None;
        }
        let ghost before = views(out@);
        let name = unquoted(&item);
        out.push(name);
        assert(views(out@) =~= before.push(unquote(trim(items@[i as int]@))));
        i += 1;
    }
    assert(iv.subrange(0, items@.len() as int) =~= iv);
    Some(out)
}

fn parse_key(entry: Draft, key: &Vec<char>, value: &Vec<char>) -> (out: Option<Draft>)
    ensures
        match read_key(entry@, key@, value@) {
            Some(next) => out.is_some() && out.unwrap()@ == next,
            None => out.is_none(),
        },
{
    let mut entry = entry;
    if is_text(key, "depends_on") {
        match parse_list(value) {
            Some(names) => {
                entry.depends_on = names;
                Some(entry)
            },
            None => None,
        }
    } else if is_text(key, "templates") {
        match parse_list(value) {
            Some(names) => {
                entry.templates = names;
                Some(entry)
            },
            None => None,
        }
    } else if is_text(key, "action") {
        if !quoted(value) {
            return None;
        }
        match action_by_name(&unquoted(value)) {
            Some(a) => {
                entry.action = Some(a);
                Some(entry)
            },
            None => None,
        }
    } else {
        Some(entry)
    }
}

fn parse_config_line(entries: &mut Vec<Draft>, open: &mut bool, line: &Vec<char>) -> (ok: bool)
    ensures
        match read_config_line(Read { entries: views(old(entries)@), open: *old(open) }, line@) {
            Some(next) => ok && views(final(entries)@) == next.entries && *final(open)
                == next.open,
            None => !ok,
        },
{
    let ghost before = views(entries@);
    let t = trimmed(line);
    if t.len() == 0 || t[0] == '#' {
        return true;
    }
    if bracketed(&t) {
        let section = slice(&t, 1, t.len() - 1);
        let head = chars_of("lifecycle.");
        if has_prefix(&section, &head) {
            let name = slice(&section, head.len(), section.len());
            if name.len() == 0 {
                return false;
            }
            let draft = Draft {
                name,
                depends_on: Vec::new(),
                action: None,
                templates: Vec::new(),
            };
            proof {
                assert(views(draft.depends_on@) =~= Seq::empty());
                assert(views(draft.templates@) =~= Seq::empty());
            }
            let ghost dv = draft@;
            entries.push(draft);
            assert(views(entries@) =~= before.push(dv));
            *open = true;
        } else {
            *open = false;
        }
        return true;
    }
    if !*open || entries.len() == 0 {
        return true;
    }
    if !has_char(line, '=') {
        return false;
    }
    proof {
        lemma_after_next_found(line@, 0, '=');
    }
    let after: usize = find_after_next(line, 0, '=');
    let key = trimmed(&slice(line, 0, after - 1));
    let value = trimmed(&slice(line, after, line.len()));
    let last: Draft = entries.pop().unwrap();
    assert(last@ == before.last());
    assert(views(entries@) =~= before.drop_last());
    match parse_key(last, &key, &value) {
        Some(next) => {
            let ghost nv = next@;
            entries.push(next);
            assert(views(entries@) =~= before.drop_last().push(nv));
            true
        },
        None => false,
    }
}

proof fn lemma_read_config_fails_on(all: Seq<Seq<char>>, n: int)
    requires
        0 <= n <= all.len(),
        read_config(all.subrange(0, n)).is_err(),
    ensures
        read_config(all) == read_config(all.subrange(0, n)),
    decreases all.len() - n,
{
    if n < all.len() {
        let next = all.subrange(0, n + 1);
        assert(next.drop_last() =~= all.subrange(0, n));
        lemma_read_config_fails_on(all, n + 1);
    } else {
        assert(all.subrange(0, n) =~= all);
    }
}

/// Reads a lifecycle configuration into phases, in the order of their
/// sections. The templates of a phase are the names that the configuration
/// lists.
///
/// Fails with `Malformed` on the first line of a lifecycle section that
/// cannot be read, and else with `UnknownAction` for the first phase whose
/// action is not known.
pub fn parse_lifecycle(text: &str) -> (out: Result<Vec<Phase>, LifecycleError>)
    ensures
        match read_config(lines(text@)) {
            Err(at) => out matches Err(LifecycleError::Malformed { line }) && line == at,
            Ok(state) => if all_have_actions(state.entries) {
                out matches Ok(phases) && phases@.len() == state.entries.len() && forall|i: int|
                    0 <= i < phases@.len() ==> phase_of(#[trigger] phases@[i], state.entries[i])
            } else {
                out matches Err(LifecycleError::UnknownAction { phase }) && exists|i: int|
                    first_without_action(state.entries, i) && phase@ == (
                    #[trigger] state.entries[i]).name
            },
        },
{
    let cs = chars_of(text);
    let all = split_lines(&cs);
    let ghost lv = views(all@);
    let mut entries: Vec<Draft> = Vec::new();
    let mut open: bool = false;
    let mut i: usize = 0;
    assert(lv.subrange(0, 0) =~= Seq::empty());
    assert(views(entries@) =~= Seq::empty());
    while i < all.len()
        invariant
            i <= all@.len(),
            lv == views(all@),
            lv == lines(text@),
            read_config(lv.subrange(0, i as int)) == Ok::<Read, int>(
                Read { entries: views(entries@), open },
            ),
        decreases all.len() - i,
    {
        let ghost next = lv.subrange(0, i + 1);
        assert(next.drop_last() =~= lv.subrange(0, i as int));
        assert(next.last() == all@[i as int]@);
        if !parse_config_line(&mut entries, &mut open, &all[i]) {
            proof {
                assert(read_config(next).is_err());
                lemma_read_config_fails_on(lv, i + 1);
            }
            return Err(LifecycleError::Malformed { line: i + 1 });
        }
        i += 1;
    }
    assert(lv.subrange(0, all@.len() as int) =~= lv);
    let ghost ev = views(entries@);
    let mut phases: Vec<Phase> = Vec::new();
    let mut k: usize = 0;
    while k < entries.len()
        invariant
            k <= entries@.len(),
            ev == views(entries@),
            read_config(lines(text@)) == Ok::<Read, int>(Read { entries: ev, open }),
            phases@.len() == k,
            forall|j: int| 0 <= j < k ==> phase_of(#[trigger] phases@[j], ev[j]),
            forall|j: int| 0 <= j < k ==> action_of(#[trigger] ev[j]).is_some(),
        decreases entries.len() - k,
    {
        let e = &entries[k];
        assert(ev[k as int] == e@);
        let action: Action = match e.action {
            Some(a) => a,
            None => match action_by_name(&e.name) {
                Some(a) => a,
                None => {
                    assert(first_without_action(ev, k as int));
                    return Err(LifecycleError::UnknownAction { phase: string_of(&e.name) });
                },
            },
        };
        phases.push(
            Phase {
                name: string_of(&e.name),
                depends_on: strings_of(&e.depends_on),
                action,
                templates: strings_of(&e.templates),
            },
        );
        k += 1;
    }
    Ok(phases)
}

} // verus!
