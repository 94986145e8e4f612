//! Conversions between strings and character vectors, and decimal rendering.

use vstd::prelude::*;

verus! {

/// Appends one character to a `String` (`String::push`): the text afterwards
/// is the text before followed by that character.
pub assume_specification[ String::push ](s: &mut String, ch: char)
    ensures
        final(s)@ == old(s)@.push(ch),
;

/// The views of the items of a sequence, in order.
pub open spec fn views<T: View>(items: Seq<T>) -> Seq<T::V> {
    items.map_values(|x: T| x@)
}

/// The views of the items of each of a sequence of vectors.
pub open spec fn views2<T: View>(items: Seq<Vec<T>>) -> Seq<Seq<T::V>> {
    items.map_values(|v: Vec<T>| views(v@))
}

/// Index `i` is the first that holds `x`.
pub open spec fn is_first_named(ns: Seq<Seq<char>>, x: Seq<char>, i: int) -> bool {
    &&& 0 <= i < ns.len()
    &&& ns[i] == x
    &&& forall|j: int| 0 <= j < i ==> ns[j] != x
}

/// The first index that holds `x`.
pub open spec fn index_named(ns: Seq<Seq<char>>, x: Seq<char>) -> int {
    choose|i: int| is_first_named(ns, x, i)
}

/// Only one index is the first that holds `x`.
pub proof fn lemma_first_named_unique(ns: Seq<Seq<char>>, x: Seq<char>, i: int)
    requires
        is_first_named(ns, x, i),
    ensures
        index_named(ns, x) == i,
{
    let c = index_named(ns, x);
    assert(is_first_named(ns, x, c));
    if c < i {
        assert(ns[c] != x);
    } else if i < c {
        assert(ns[i] != x);
    }
}

/// Copies the characters of a string slice into a vector.
pub fn chars_of(s: &str) -> (out: Vec<char>)
    ensures
        out@ == s@,
{
    let mut out: Vec<char> = Vec::new();
    for c in it: s.chars()
        invariant
            it.seq() == s@,
            out@ == s@.subrange(0, it.index() as int),
    {
        out.push(c);
        assert(out@ =~= s@.subrange(0, it.index() + 1));
    }
    assert(s@.subrange(0, s@.len() as int) =~= s@);
    out
}

/// Whether two texts hold the same characters.
pub fn same_chars(a: &Vec<char>, b: &Vec<char>) -> (out: bool)
    ensures
        out == (a@ == b@),
{
    if a.len() != b.len() {
        return false;
    }
    let mut i: usize = 0;
    while i < a.len()
        invariant
            i <= a.len(),
            a.len() == b.len(),
            forall|j: int| 0 <= j < i ==> a@[j] == b@[j],
        decreases a.len() - i,
    {
        if a[i] != b[i] {
            return false;
        }
        i += 1;
    }
    assert(a@ =~= b@);
    true
}

/// Whether a text holds exactly the characters of a string slice.
pub fn is_text(a: &Vec<char>, lit: &str) -> (out: bool)
    ensures
        out == (a@ == lit@),
{
    let b: Vec<char> = chars_of(lit);
    same_chars(a, &b)
}

/// Builds a `String` holding the characters of a sequence.
pub fn string_of(chars: &Vec<char>) -> (out: String)
    ensures
        out@ == chars@,
{
    let mut out: String = String::new();
    let mut i: usize = 0;
    while i < chars.len()
        invariant
            i <= chars.len(),
            out@ == chars@.subrange(0, i as int),
        decreases chars.len() - i,
    {
        out.push(chars[i]);
        i += 1;
        assert(out@ =~= chars@.subrange(0, i as int));
    }
    assert(chars@.subrange(0, chars.len() as int) =~= chars@);
    out
}

/// The texts as strings.
pub fn strings_of(items: &Vec<Vec<char>>) -> (out: Vec<String>)
    ensures
        views(out@) == views(items@),
{
    let mut out: Vec<String> = Vec::new();
    let mut i: usize = 0;
    while i < items.len()
        invariant
            i <= items@.len(),
            out@.len() == i,
            forall|j: int| 0 <= j < i ==> (#[trigger] out@[j])@ == items@[j]@,
        decreases items.len() - i,
    {
        out.push(string_of(&items[i]));
        i += 1;
    }
    assert(views(out@) =~= views(items@));
    out
}

/// The pairs of texts as pairs of strings.
pub fn string_pairs(table: &Vec<(Vec<char>, Vec<char>)>) -> (out: Vec<(String, String)>)
    ensures
        views(out@) == views(table@),
{
    let mut out: Vec<(String, String)> = Vec::new();
    let mut i: usize = 0;
    while i < table.len()
        invariant
            i <= table@.len(),
            out@.len() == i,
            forall|j: int| 0 <= j < i ==> (#[trigger] out@[j])@ == table@[j]@,
        decreases table.len() - i,
    {
        out.push((string_of(&table[i].0), string_of(&table[i].1)));
        i += 1;
    }
    assert(views(out@) =~= views(table@));
    out
}

/// A copy of the characters of `s` from index `from` up to `to`.
pub fn slice(s: &Vec<char>, from: usize, to: usize) -> (out: Vec<char>)
    requires
        from <= to <= s@.len(),
    ensures
        out@ == s@.subrange(from as int, to as int),
{
    let mut out: Vec<char> = Vec::new();
    let mut i: usize = from;
    while i < to
        invariant
            from <= i <= to,
            to <= s@.len(),
            out@ == s@.subrange(from as int, i as int),
        decreases to - i,
    {
        out.push(s[i]);
        i += 1;
        assert(out@ =~= s@.subrange(from as int, i as int));
    }
    out
}

/// The runs of a text between occurrences of `sep`. A text with `n`
/// occurrences has `n + 1` runs, some of them empty perhaps.
pub open spec fn split_on(s: Seq<char>, sep: char) -> Seq<Seq<char>>
    decreases s.len(),
{
    if s.len() == 0 {
        seq![Seq::empty()]
    } else {
        let rest = split_on(s.drop_last(), sep);
        if s.last() == sep || rest.len() == 0 {
            rest.push(Seq::empty())
        } else {
            rest.drop_last().push(rest.last().push(s.last()))
        }
    }
}

/// The lines of a text: the runs between line feeds.
pub open spec fn lines(s: Seq<char>) -> Seq<Seq<char>> {
    split_on(s, '\n')
}

/// Cuts a text at each occurrence of `sep`.
pub fn split_at_char(s: &Vec<char>, sep: char) -> (out: Vec<Vec<char>>)
    ensures
        views(out@) == split_on(s@, sep),
        out@.len() > 0,
{
    let mut out: Vec<Vec<char>> = Vec::new();
    out.push(Vec::new());
    let mut i: usize = 0;
    assert(s@.subrange(0, 0) =~= Seq::<char>::empty());
    assert(views(out@) =~= seq![Seq::<char>::empty()]);
    while i < s.len()
        invariant
            i <= s@.len(),
            views(out@) == split_on(s@.subrange(0, i as int), sep),
            out@.len() > 0,
        decreases s.len() - i,
    {
        let c: char = s[i];
        let ghost next = s@.subrange(0, i + 1);
        assert(next.drop_last() =~= s@.subrange(0, i as int));
        assert(next.last() == c);
        let ghost before = views(out@);
        if c == sep {
            out.push(Vec::new());
            assert(views(out@) =~= before.push(Seq::<char>::empty()));
        } else {
            let mut w: Vec<char> = out.pop().unwrap();
            assert(w@ == before.last());
            assert(views(out@) =~= before.drop_last());
            w.push(c);
            out.push(w);
            assert(views(out@) =~= before.drop_last().push(before.last().push(c)));
        }
        i += 1;
    }
    assert(s@.subrange(0, s@.len() as int) =~= s@);
    out
}

/// Cuts a text into its lines.
pub fn split_lines(s: &Vec<char>) -> (out: Vec<Vec<char>>)
    ensures
        views(out@) == lines(s@),
        out@.len() > 0,
{
    split_at_char(s, '\n')
}

/// The first index from `i` on at which `a` stands directly before `b`;
/// the length of the text if there is none.
pub open spec fn find_pair(s: Seq<char>, i: int, a: char, b: char) -> int
    decreases s.len() - i,
{
    if 0 <= i && i + 1 < s.len() {
        if s[i] == a && s[i + 1] == b {
            i
        } else {
            find_pair(s, i + 1, a, b)
        }
    } else {
        s.len() as int
    }
}

/// Finds the first place from `i` on at which `a` stands directly before
/// `b`.
pub fn locate_pair(s: &Vec<char>, i: usize, a: char, b: char) -> (out: usize)
    requires
        i <= s@.len(),
    ensures
        out == find_pair(s@, i as int, a, b),
        i <= out <= s@.len(),
        out < s@.len() ==> out + 1 < s@.len(),
{
    let n: usize = s.len();
    let mut k: usize = i;
    while k < n && n - k >= 2 && !(s[k] == a && s[k + 1] == b)
        invariant
            i <= k <= n,
            n == s@.len(),
            find_pair(s@, i as int, a, b) == find_pair(s@, k as int, a, b),
        decreases n - k,
    {
        k += 1;
    }
    if k < n && n - k >= 2 {
        k
    } else {
        n
    }
}

/// Whether a character is a decimal digit.
pub open spec fn is_digit(c: char) -> bool {
    '0' <= c && c <= '9'
}

/// Whether a text is a decimal numeral: one or more digits.
pub open spec fn is_numeral(s: Seq<char>) -> bool {
    s.len() > 0 && forall|i: int| 0 <= i < s.len() ==> is_digit(#[trigger] s[i])
}

/// The number that a run of digits writes.
pub open spec fn numeral_value(s: Seq<char>) -> nat
    decreases s.len(),
{
    if s.len() == 0 {
        0
    } else {
        numeral_value(s.drop_last()) * 10 + ((s.last() as u32) - ('0' as u32)) as nat
    }
}

/// The number of a text grows with the text.
pub proof fn lemma_numeral_grows(s: Seq<char>, n: int)
    requires
        0 <= n <= s.len(),
        forall|i: int| 0 <= i < s.len() ==> is_digit(#[trigger] s[i]),
    ensures
        numeral_value(s.subrange(0, n)) <= numeral_value(s),
    decreases s.len() - n,
{
    if n < s.len() {
        let next = s.subrange(0, n + 1);
        assert(next.drop_last() =~= s.subrange(0, n));
        assert(is_digit(s[n]));
        lemma_numeral_grows(s, n + 1);
    } else {
        assert(s.subrange(0, n) =~= s);
    }
}

/// Reads a decimal numeral. The outer `None` says that the text is no
/// numeral, the inner one that its number is beyond `usize`.
pub fn read_number(s: &Vec<char>) -> (out: Option<Option<usize>>)
    ensures
        match out {
            None => !is_numeral(s@),
            Some(Some(v)) => is_numeral(s@) && v == numeral_value(s@),
            Some(None) => is_numeral(s@) && numeral_value(s@) > usize::MAX,
        },
{
    let n: usize = s.len();
    if n == 0 {
        return None;
    }
    let mut k: usize = 0;
    while k < n
        invariant
            k <= n,
            n == s@.len(),
            forall|i: int| 0 <= i < k ==> is_digit(#[trigger] s@[i]),
        decreases n - k,
    {
        if !('0' <= s[k] && s[k] <= '9') {
            return None;
        }
        k += 1;
    }
    let mut acc: usize = 0;
    let mut i: usize = 0;
    assert(s@.subrange(0, 0) =~= Seq::<char>::empty());
    while i < n
        invariant
            i <= n,
            n == s@.len(),
            is_numeral(s@),
            acc == numeral_value(s@.subrange(0, i as int)),
        decreases n - i,
    {
        let ghost next = s@.subrange(0, i + 1);
        assert(next.drop_last() =~= s@.subrange(0, i as int));
        assert(next.last() == s@[i as int]);
        assert(is_digit(s@[i as int]));
        let d: usize = ((s[i] as u32) - ('0' as u32)) as usize;
        if acc > (usize::MAX - d) / 10 {
            proof {
                lemma_numeral_grows(s@, i + 1);
            }
            return Some(None);
        }
        acc = acc * 10 + d;
        i += 1;
    }
    assert(s@.subrange(0, n as int) =~= s@);
    Some(Some(acc))
}

/// Whether `s` begins with `head`.
pub open spec fn starts_with(s: Seq<char>, head: Seq<char>) -> bool {
    head.len() <= s.len() && s.subrange(0, head.len() as int) == head
}

/// Whether a text begins with another.
pub fn has_prefix(s: &Vec<char>, head: &Vec<char>) -> (out: bool)
    ensures
        out == starts_with(s@, head@),
{
    if head.len() > s.len() {
        return false;
    }
    let mut i: usize = 0;
    while i < head.len()
        invariant
            i <= head@.len(),
            head@.len() <= s@.len(),
            forall|j: int| 0 <= j < i ==> s@[j] == head@[j],
        decreases head.len() - i,
    {
        if s[i] != head[i] {
            assert(s@.subrange(0, head@.len() as int)[i as int] != head@[i as int]);
            return false;
        }
        i += 1;
    }
    assert(s@.subrange(0, head@.len() as int) =~= head@);
    true
}

/// Appends a copy of `tail` to `out`.
pub fn push_all(out: &mut Vec<char>, tail: &Vec<char>)
    ensures
        final(out)@ == old(out)@ + tail@,
{
    let mut i: usize = 0;
    while i < tail.len()
        invariant
            i <= tail.len(),
            out@ == old(out)@ + tail@.subrange(0, i as int),
        decreases tail.len() - i,
    {
        out.push(tail[i]);
        i += 1;
        assert(out@ =~= old(out)@ + tail@.subrange(0, i as int));
    }
    assert(tail@.subrange(0, tail.len() as int) =~= tail@);
}

/// Whether a text holds the character `c`.
pub fn has_char(s: &Vec<char>, c: char) -> (out: bool)
    ensures
        out == s@.contains(c),
{
    let mut i: usize = 0;
    while i < s.len()
        invariant
            i <= s@.len(),
            forall|j: int| 0 <= j < i ==> s@[j] != c,
        decreases s.len() - i,
    {
        if s[i] == c {
            return true;
        }
        i += 1;
    }
    false
}

/// Blank space within a line, and the line ends.
pub open spec fn is_space(c: char) -> bool {
    c == ' ' || c == '\t' || c == '\r' || c == '\n'
}

/// Whether a character is a curly brace.
pub open spec fn is_brace(c: char) -> bool {
    c == '{' || c == '}'
}

/// The first index from `i` on that holds no space; the length if there is
/// none.
pub open spec fn skip_spaces(s: Seq<char>, i: int) -> int
    decreases s.len() - i,
{
    if 0 <= i < s.len() && is_space(s[i]) {
        skip_spaces(s, i + 1)
    } else {
        i
    }
}

/// The text without the spaces at its end.
pub open spec fn trim_end(s: Seq<char>) -> Seq<char>
    decreases s.len(),
{
    if s.len() > 0 && is_space(s.last()) {
        trim_end(s.drop_last())
    } else {
        s
    }
}

/// The text without the spaces at its start.
pub open spec fn trim_start(s: Seq<char>) -> Seq<char> {
    s.subrange(skip_spaces(s, 0), s.len() as int)
}

/// The text without the spaces at its start and at its end.
pub open spec fn trim(s: Seq<char>) -> Seq<char> {
    trim_end(trim_start(s))
}

/// The text between the double quotes, where it stands between two; else
/// the text itself.
pub open spec fn unquote(s: Seq<char>) -> Seq<char> {
    if s.len() >= 2 && s[0] == '"' && s.last() == '"' {
        s.subrange(1, s.len() - 1)
    } else {
        s
    }
}

/// The text without the spaces at its start and at its end.
pub fn trimmed(s: &Vec<char>) -> (out: Vec<char>)
    ensures
        out@ == trim(s@),
{
    let n: usize = s.len();
    let mut a: usize = 0;
    while a < n && is_space_char(s[a])
        invariant
            a <= n,
            n == s@.len(),
            skip_spaces(s@, 0) == skip_spaces(s@, a as int),
        decreases n - a,
    {
        a += 1;
    }
    let mut e: usize = n;
    assert(s@.subrange(a as int, n as int) =~= trim_start(s@));
    while e > a && is_space_char(s[e - 1])
        invariant
            a <= e <= n,
            n == s@.len(),
            trim(s@) == trim_end(s@.subrange(a as int, e as int)),
        decreases e - a,
    {
        assert(s@.subrange(a as int, e as int).drop_last() =~= s@.subrange(a as int, e - 1));
        e -= 1;
    }
    slice(s, a, e)
}

/// The text between the double quotes, where it stands between two.
pub fn unquoted(s: &Vec<char>) -> (out: Vec<char>)
    ensures
        out@ == unquote(s@),
{
    let n: usize = s.len();
    if n >= 2 && s[0] == '"' && s[n - 1] == '"' {
        slice(s, 1, n - 1)
    } else {
        let copy = slice(s, 0, n);
        assert(copy@ =~= s@);
        copy
    }
}

/// The first index from `i` on that holds a space or a brace; the length
/// if there is none.
pub open spec fn word_end(s: Seq<char>, i: int) -> int
    decreases s.len() - i,
{
    if 0 <= i < s.len() && !is_space(s[i]) && !is_brace(s[i]) {
        word_end(s, i + 1)
    } else {
        i
    }
}

/// The index after the first `close` from `i` on; the length if there is
/// none.
pub open spec fn after_next(s: Seq<char>, i: int, close: char) -> int
    decreases s.len() - i,
{
    if 0 <= i < s.len() {
        if s[i] == close {
            i + 1
        } else {
            after_next(s, i + 1, close)
        }
    } else {
        i
    }
}

/// Where a text holds `close` at or after `i`, the index after the first
/// such place is past `i`.
pub proof fn lemma_after_next_found(s: Seq<char>, i: int, close: char)
    requires
        0 <= i <= s.len(),
        exists|j: int| i <= j < s.len() && s[j] == close,
    ensures
        i < after_next(s, i, close) <= s.len(),
        s[after_next(s, i, close) - 1] == close,
    decreases s.len() - i,
{
    if i < s.len() && s[i] != close {
        let j = choose|j: int| i <= j < s.len() && s[j] == close;
        assert(i + 1 <= j);
        lemma_after_next_found(s, i + 1, close);
    }
}

/// Where the token that starts at `i` ends.
///
/// A brace is a token by itself. A token that starts with a double quote
/// runs to the next double quote, one that starts with `<` to the next `>`.
/// Any other token runs up to the next space or brace, except that a final
/// full stop of a longer token is a token of its own.
pub open spec fn token_end(s: Seq<char>, i: int) -> int
    recommends
        0 <= i < s.len(),
{
    if is_brace(s[i]) {
        i + 1
    } else if s[i] == '"' {
        after_next(s, i + 1, '"')
    } else if s[i] == '<' {
        after_next(s, i + 1, '>')
    } else {
        let e = word_end(s, i);
        if e - i > 1 && s[e - 1] == '.' {
            e - 1
        } else {
            e
        }
    }
}

/// The tokens of `s` from index `i` on.
pub open spec fn tokens_from(s: Seq<char>, i: int) -> Seq<Seq<char>>
    decreases s.len() - i,
{
    if 0 <= i < s.len() {
        if is_space(s[i]) {
            tokens_from(s, i + 1)
        } else {
            let e = token_end(s, i);
            if i < e <= s.len() {
                seq![s.subrange(i, e)] + tokens_from(s, e)
            } else {
                Seq::empty()
            }
        }
    } else {
        Seq::empty()
    }
}

/// The tokens of a text.
pub open spec fn tokens(s: Seq<char>) -> Seq<Seq<char>> {
    tokens_from(s, 0)
}

/// Whether a character is blank space.
pub fn is_space_char(c: char) -> (out: bool)
    ensures
        out == is_space(c),
{
    c == ' ' || c == '\t' || c == '\r' || c == '\n'
}

fn find_word_end(s: &Vec<char>, i: usize) -> (out: usize)
    requires
        i <= s@.len(),
    ensures
        out == word_end(s@, i as int),
        i <= out <= s@.len(),
        i < s@.len() && !is_space(s@[i as int]) && !is_brace(s@[i as int]) ==> i < out,
{
    let mut e: usize = i;
    while e < s.len() && !is_space_char(s[e]) && s[e] != '{' && s[e] != '}'
        invariant
            i <= e <= s@.len(),
            word_end(s@, i as int) == word_end(s@, e as int),
            i < s@.len() && !is_space(s@[i as int]) && !is_brace(s@[i as int]) && e == i ==> e
                < s@.len() && !is_space(s@[e as int]) && !is_brace(s@[e as int]),
        decreases s.len() - e,
    {
        e += 1;
    }
    e
}

/// The index after the first `close` from `i` on; the length if there is
/// none.
pub fn find_after_next(s: &Vec<char>, i: usize, close: char) -> (out: usize)
    requires
        i <= s@.len(),
    ensures
        out == after_next(s@, i as int, close),
        i <= out <= s@.len(),
{
    let mut e: usize = i;
    while e < s.len() && s[e] != close
        invariant
            i <= e <= s@.len(),
            after_next(s@, i as int, close) == after_next(s@, e as int, close),
        decreases s.len() - e,
    {
        e += 1;
    }
    if e < s.len() {
        e + 1
    } else {
        e
    }
}

fn find_token_end(s: &Vec<char>, i: usize) -> (out: usize)
    requires
        i < s@.len(),
        !is_space(s@[i as int]),
    ensures
        out == token_end(s@, i as int),
        i < out <= s@.len(),
{
    let c: char = s[i];
    assert(s.len() <= usize::MAX);
    if c == '{' || c == '}' {
        i + 1
    } else if c == '"' {
        find_after_next(s, i + 1, '"')
    } else if c == '<' {
        find_after_next(s, i + 1, '>')
    } else {
        let e: usize = find_word_end(s, i);
        if e - i > 1 && s[e - 1] == '.' {
            e - 1
        } else {
            e
        }
    }
}

/// Cuts a text into its tokens.
pub fn tokenize(s: &Vec<char>) -> (out: Vec<Vec<char>>)
    ensures
        views(out@) == tokens(s@),
{
    let mut out: Vec<Vec<char>> = Vec::new();
    let mut i: usize = 0;
    while i < s.len()
        invariant
            i <= s@.len(),
            views(out@) + tokens_from(s@, i as int) == tokens(s@),
        decreases s.len() - i,
    {
        if is_space_char(s[i]) {
            i += 1;
        } else {
            let e: usize = find_token_end(s, i);
            let ghost before = views(out@);
            out.push(slice(s, i, e));
            assert(views(out@) =~= before.push(s@.subrange(i as int, e as int)));
            assert(before + (seq![s@.subrange(i as int, e as int)] + tokens_from(s@, e as int))
                =~= views(out@) + tokens_from(s@, e as int));
            i = e;
        }
    }
    assert(views(out@) + Seq::<Seq<char>>::empty() =~= views(out@));
    out
}

/// The character that writes the digit `d` (below ten).
pub open spec fn digit_char(d: nat) -> char
    recommends
        d < 10,
{
    if d == 0 {
        '0'
    } else if d == 1 {
        '1'
    } else if d == 2 {
        '2'
    } else if d == 3 {
        '3'
    } else if d == 4 {
        '4'
    } else if d == 5 {
        '5'
    } else if d == 6 {
        '6'
    } else if d == 7 {
        '7'
    } else if d == 8 {
        '8'
    } else {
        '9'
    }
}

/// The decimal numeral of `n`, most significant digit first, without
/// leading zeros (zero is written "0").
pub open spec fn decimal(n: nat) -> Seq<char>
    decreases n,
{
    if n < 10 {
        seq![digit_char(n)]
    } else {
        decimal(n / 10).push(digit_char(n % 10))
    }
}

fn digit_of(d: usize) -> (c: char)
    requires
        d < 10,
    ensures
        c == digit_char(d as nat),
{
    if d == 0 {
        '0'
    } else if d == 1 {
        '1'
    } else if d == 2 {
        '2'
    } else if d == 3 {
        '3'
    } else if d == 4 {
        '4'
    } else if d == 5 {
        '5'
    } else if d == 6 {
        '6'
    } else if d == 7 {
        '7'
    } else if d == 8 {
        '8'
    } else {
        '9'
    }
}

/// Appends the decimal numeral of `n` to `out`.
pub fn push_decimal(out: &mut String, n: usize)
    ensures
        final(out)@ == old(out)@ + decimal(n as nat),
    decreases n,
{
    if n < 10 {
        out.push(digit_of(n));
        assert(final(out)@ =~= old(out)@ + decimal(n as nat));
    } else {
        push_decimal(out, n / 10);
        out.push(digit_of(n % 10));
        assert(out@ =~= old(out)@ + decimal(n as nat));
    }
}

} // verus!
