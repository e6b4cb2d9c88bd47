//! The text format of a metadata record.
//!
//! A record is a text of lines. A line states a field if it holds a colon
//! and a space: what stands before the first such pair is the key, what
//! stands after it is the value, without trailing whitespace. Any other
//! line states nothing. Where two lines state the same key, the later
//! one counts.

use crate::text::{
    chars_of, find_char, index_of_char, lines, lines_from, slice, string_of, trim_end,
    trimmed_end,
};
use vstd::hash_map::StringHashMap;
use vstd::prelude::*;

verus! {

/// Whether `line` holds the separator of key and value, a colon and a
/// space, at position `i`.
pub open spec fn separator_at(line: Seq<char>, i: int) -> bool {
    0 <= i && i + 1 < line.len() && line[i] == ':' && line[i + 1] == ' '
}

/// Position of the first separator in `line` at or after `from`, or
/// `line.len()` if there is none.
pub open spec fn find_separator(line: Seq<char>, from: int) -> int
    decreases line.len() - from,
{
    if from >= line.len() {
        line.len() as int
    } else if separator_at(line, from) {
        from
    } else {
        find_separator(line, from + 1)
    }
}

/// `find_separator` returns the least position of a separator.
pub proof fn lemma_find_separator(line: Seq<char>, from: int)
    requires
        0 <= from <= line.len(),
    ensures
        from <= find_separator(line, from) <= line.len(),
        find_separator(line, from) < line.len() ==> separator_at(line, find_separator(line, from)),
        forall|j: int| from <= j < find_separator(line, from) ==> !separator_at(line, j),
    decreases line.len() - from,
{
    if from < line.len() && !separator_at(line, from) {
        lemma_find_separator(line, from + 1);
    }
}

/// The field that `line` states: the key is what stands before the first
/// separator, the value what stands after it, without trailing whitespace.
/// A line without a separator states nothing.
pub open spec fn split_line(line: Seq<char>) -> Option<(Seq<char>, Seq<char>)> {
    let at = find_separator(line, 0);
    if at < line.len() {
        Some((line.subrange(0, at), trim_end(line.subrange(at + 2, line.len() as int))))
    } else {
        None
    }
}

/// `fields` after `line` was read: a field that the line states replaces
/// an earlier one of the same key.
pub open spec fn with_line(fields: Map<Seq<char>, Seq<char>>, line: Seq<char>) -> Map<
    Seq<char>,
    Seq<char>,
> {
    match split_line(line) {
        Some((key, value)) => fields.insert(key, value),
        None => fields,
    }
}

/// The fields that `lines` state, read from first to last.
pub open spec fn fields_of(lines: Seq<Seq<char>>) -> Map<Seq<char>, Seq<char>>
    decreases lines.len(),
{
    if lines.len() == 0 {
        Map::empty()
    } else {
        with_line(fields_of(lines.drop_last()), lines.last())
    }
}

/// The fields that the record text `text` states.
pub open spec fn record_fields(text: Seq<char>) -> Map<Seq<char>, Seq<char>> {
    fields_of(lines(text))
}

/// Whether `line` states a field with the key `key`.
pub open spec fn states(line: Seq<char>, key: Seq<char>) -> bool {
    split_line(line) matches Some((k, _)) && k == key
}

/// A record has a field of a key if and only if one of its lines states
/// the key, and the value of the field is the one that the last such line
/// states.
pub proof fn lemma_fields_of(lines: Seq<Seq<char>>, key: Seq<char>)
    ensures
        fields_of(lines).contains_key(key) <==> exists|i: int|
            0 <= i < lines.len() && states(#[trigger] lines[i], key),
        forall|i: int|
            0 <= i < lines.len() && states(#[trigger] lines[i], key) && (forall|j: int|
                i < j < lines.len() ==> !states(#[trigger] lines[j], key)) ==> fields_of(
                lines,
            )[key] == split_line(lines[i])->Some_0.1,
    decreases lines.len(),
{
    if lines.len() > 0 {
        let before = lines.drop_last();
        lemma_fields_of(before, key);
        if states(lines.last(), key) {
            assert(states(lines[lines.len() - 1], key));
        } else {
            if fields_of(lines).contains_key(key) {
                let i = choose|i: int| 0 <= i < before.len() && states(#[trigger] before[i], key);
                assert(states(lines[i], key));
            }
            if exists|i: int| 0 <= i < lines.len() && states(#[trigger] lines[i], key) {
                let i = choose|i: int| 0 <= i < lines.len() && states(#[trigger] lines[i], key);
                assert(states(before[i], key));
            }
        }
        assert forall|i: int|
            0 <= i < lines.len() && states(#[trigger] lines[i], key) && (forall|j: int|
                i < j < lines.len() ==> !states(#[trigger] lines[j], key)) implies fields_of(
            lines,
        )[key] == split_line(lines[i])->Some_0.1 by {
            if i < lines.len() - 1 {
                assert(!states(lines[lines.len() - 1], key));
                assert(before[i] == lines[i]);
                assert forall|j: int| i < j < before.len() implies !states(
                    #[trigger] before[j],
                    key,
                ) by {
                    assert(before[j] == lines[j]);
                }
            }
        }
    }
}

/// The strings of a table of strings, as their characters.
pub open spec fn values_view(fields: Map<Seq<char>, String>) -> Map<Seq<char>, Seq<char>> {
    Map::new(|key: Seq<char>| fields.contains_key(key), |key: Seq<char>| fields[key]@)
}

/// Executable form of [`find_separator`] from the start of the line.
fn separator_index(line: &Vec<char>) -> (at: usize)
    ensures
        at == find_separator(line@, 0),
        at <= line.len(),
        at < line.len() ==> at + 2 <= line.len(),
{
    let mut i: usize = 0;
    while i < line.len() && !(i + 1 < line.len() && line[i] == ':' && line[i + 1] == ' ')
        invariant
            i <= line.len(),
            find_separator(line@, 0) == find_separator(line@, i as int),
        decreases line.len() - i,
    {
        i += 1;
    }
    i
}

/// The field that `line` states, if it states one.
pub fn parse_line(line: &Vec<char>) -> (field: Option<(String, String)>)
    ensures
        match field {
            Some((key, value)) => split_line(line@) == Some((key@, value@)),
            None => split_line(line@) is None,
        },
{
    let at = separator_index(line);
    if at < line.len() {
        let key = string_of(line, 0, at);
        let stop = trimmed_end(line, at + 2);
        let value = string_of(line, at + 2, stop);
        Some((key, value))
    } else {
        None
    }
}

/// The fields that the record text `text` states.
pub fn parse(text: &str) -> (fields: StringHashMap<String>)
    ensures
        values_view(fields@) == record_fields(text@),
{
    let chars = chars_of(text);
    let mut fields: StringHashMap<String> = StringHashMap::new();
    let ghost mut done: Seq<Seq<char>> = Seq::empty();
    let mut from: usize = 0;
    let mut more = true;
    assert(values_view(fields@) =~= fields_of(done));
    while more
        invariant
            from <= chars.len(),
            chars@ == text@,
            values_view(fields@) == fields_of(done),
            more ==> lines(text@) == done + lines_from(text@, from as int),
            !more ==> lines(text@) == done,
        decreases chars.len() - from + if more { 1int } else { 0int },
    {
        let end = index_of_char(&chars, '\n', from);
        let line = slice(&chars, from, end);
        let ghost before = fields@;
        match parse_line(&line) {
            Some((key, value)) => {
                fields.insert(key, value);
                assert(values_view(fields@) =~= values_view(before).insert(key@, value@));
            },
            None => {},
        }
        proof {
            assert(done.push(line@).drop_last() == done);
            assert(done.push(line@).last() == line@);
            if end < chars.len() {
                assert(done + (seq![line@] + lines_from(text@, end + 1)) =~= done.push(line@)
                    + lines_from(text@, end + 1));
            } else {
                assert(done + seq![line@] =~= done.push(line@));
            }
            done = done.push(line@);
        }
        if end < chars.len() {
            from = end + 1;
        } else {
            more = false;
        }
    }
    fields
}

} // verus!
