//! What comes back when a written document is read again.

use crate::assoc::index_of;
use crate::assoc::keys_distinct;
use crate::assoc::lemma_index_of_absent;
use crate::assoc::lemma_index_of_pushed;
use crate::assoc::put;
use crate::errors::Error;
use crate::errors::Reason;
use crate::keyfile::Entries;
use crate::keyfile::Layout;
use crate::keyfile::well_formed;
use crate::keyfile::with_entry;
use crate::number::has_sign;
use crate::number::is_digit;
use crate::number::is_double_literal;
use crate::number::is_literal_char;
use crate::number::lemma_decimal_is_integer_literal;
use crate::number::lemma_double_literal_chars;
use crate::number::lemma_special;
use crate::number::lowercase;
use crate::number::parse_integer;
use crate::number::unsigned_part;
use crate::parser::document_of;
use crate::parser::group_label;
use crate::parser::initial;
use crate::parser::key_value;
use crate::parser::lines_of;
use crate::parser::opens_group;
use crate::parser::run;
use crate::parser::silent;
use crate::parser::State;
use crate::parser::without_return;
use crate::text::find;
use crate::text::free_of;
use crate::text::is_whitespace;
use crate::text::lemma_find;
use crate::text::lemma_split_append;
use crate::text::lemma_split_push_separator;
use crate::text::lemma_split_single;
use crate::text::split;
use crate::text::trim;
use crate::text::trim_end;
use crate::text::trim_start;
use crate::value::Kind;
use crate::value::kind_of;
use crate::value::lemma_booleans_are_no_numbers;
use crate::value::parsed;
use crate::value::rendered;
use crate::value::scalar;
use crate::value::ValueView;
use crate::writer::document_lines;
use crate::writer::document_text;
use crate::writer::entry_line;
use crate::writer::group_lines;
use crate::writer::header;
use crate::writer::terminated;
use vstd::prelude::*;

verus! {

/// Whether a line can be written and read again: it holds no line feed and
/// does not end with a carriage return.
pub open spec fn is_line(line: Seq<char>) -> bool {
    &&& free_of(line, '\n')
    &&& line.len() > 0 ==> line.last() != '\r'
}

/// Whether a label comes back from its header as it is: it holds no line
/// feed, and neither starts nor ends with whitespace.
pub open spec fn plain_label(label: Seq<char>) -> bool {
    &&& free_of(label, '\n')
    &&& label.len() > 0 ==> !is_whitespace(label[0]) && !is_whitespace(label.last())
}

/// Whether a key comes back from its line as it is: it holds no line feed
/// and no `=`, starts neither a comment nor a header, and does not end
/// with whitespace.
pub open spec fn plain_key(key: Seq<char>) -> bool {
    &&& free_of(key, '\n')
    &&& free_of(key, '=')
    &&& key.len() > 0 ==> {
        &&& key[0] != '#'
        &&& key[0] != '['
        &&& !is_whitespace(key.last())
    }
}

/// What is read from the text that a value is written as.
pub open spec fn reread(value: ValueView) -> Result<ValueView, Reason> {
    parsed(trim_start(rendered(value)))
}

/// Whether a value can be written on a line and read again.
pub open spec fn writable(value: ValueView) -> bool {
    &&& is_line(rendered(value))
    &&& reread(value) is Ok
}

/// Whether a document can be written and read again: groups and keys are
/// distinct and come back as they are, and each value can be read again.
pub open spec fn plain(groups: Layout) -> bool {
    &&& well_formed(groups)
    &&& forall|i: int| 0 <= i < groups.len() ==> plain_label((#[trigger] groups[i]).0)
    &&& forall|i: int, j: int|
        0 <= i < groups.len() && 0 <= j < groups[i].1.len() ==> {
            &&& plain_key((#[trigger] groups[i].1[j]).0)
            &&& writable(groups[i].1[j].1)
        }
}

/// The entries with each value as it is read again.
pub open spec fn reread_entries(entries: Entries) -> Entries {
    Seq::new(entries.len(), |j: int| (entries[j].0, reread(entries[j].1).unwrap()))
}

/// The document with each value as it is read again.
pub open spec fn reread_layout(groups: Layout) -> Layout {
    Seq::new(groups.len(), |i: int| (groups[i].0, reread_entries(groups[i].1)))
}

/// The text of lines without line feeds splits at its line feeds into
/// those lines, and an empty piece after the last.
pub proof fn lemma_split_terminated(lines: Seq<Seq<char>>)
    requires
        forall|i: int| 0 <= i < lines.len() ==> free_of(#[trigger] lines[i], '\n'),
    ensures
        split(terminated(lines), '\n') == lines.push(Seq::<char>::empty()),
    decreases lines.len(),
{
    if lines.len() == 0 {
        assert(split(terminated(lines), '\n') =~= lines.push(Seq::<char>::empty()));
    } else {
        let init = lines.drop_last();
        let last = lines.last();
        assert forall|i: int| 0 <= i < init.len() implies free_of(#[trigger] init[i], '\n') by {
            assert(init[i] == lines[i]);
        }
        lemma_split_terminated(init);
        let head = terminated(init);
        lemma_split_append(head, last, '\n');
        lemma_split_push_separator(head + last, '\n');
        assert(terminated(lines) =~= (head + last).push('\n'));
        assert(Seq::<char>::empty() + last =~= last);
        assert(init.push(Seq::<char>::empty()).drop_last() =~= init);
        assert(init.push(last) =~= lines);
    }
}

/// Lines that are written are the lines that are read.
pub proof fn lemma_lines_of_terminated(lines: Seq<Seq<char>>)
    requires
        forall|i: int| 0 <= i < lines.len() ==> is_line(#[trigger] lines[i]),
    ensures
        lines_of(terminated(lines)) == lines,
{
    lemma_split_terminated(lines);
    assert(lines_of(terminated(lines)) =~= lines) by {
        let pieces = lines.push(Seq::<char>::empty());
        assert(pieces.last().len() == 0);
        assert forall|i: int| 0 <= i < lines.len() implies without_return(pieces[i])
            == lines[i] by {
            assert(is_line(lines[i]));
        }
    }
}

/// Reading lines after other lines goes on from the state after those.
pub proof fn lemma_run_concat(state: State, a: Seq<Seq<char>>, b: Seq<Seq<char>>, first: int)
    ensures
        run(state, a + b, first) == match run(state, a, first) {
            Ok(s) => run(s, b, first + a.len()),
            Err(e) => Err(e),
        },
    decreases b.len(),
{
    if b.len() == 0 {
        assert(a + b =~= a);
    } else {
        lemma_run_concat(state, a, b.drop_last(), first);
        assert((a + b).drop_last() =~= a + b.drop_last());
        assert((a + b).last() == b.last());
    }
}

/// The header of a plain label is a header line that names the label.
pub proof fn lemma_header_read(label: Seq<char>)
    requires
        plain_label(label),
    ensures
        is_line(header(label)),
        !silent(header(label)),
        opens_group(header(label)),
        group_label(header(label)) == Ok::<Seq<char>, Reason>(label),
{
    let line = header(label);
    assert(line[0] == '[');
    assert(line.last() == ']');
    assert(line.subrange(1, line.len() - 1) =~= label);
    assert(trim_start(label) == label);
    assert(trim_end(label) == label);
    assert(trim(label) == label);
    assert forall|i: int| 0 <= i < line.len() implies line[i] != '\n' by {
        if 0 < i < line.len() - 1 {
            assert(line[i] == label[i - 1]);
        }
    }
}

/// The line of an entry with a plain key and a writable value is an entry
/// line that holds the key and what is read from the value's text.
pub proof fn lemma_entry_read(key: Seq<char>, value: ValueView, number: usize)
    requires
        plain_key(key),
        writable(value),
    ensures
        is_line(entry_line(key, value)),
        !silent(entry_line(key, value)),
        !opens_group(entry_line(key, value)),
        key_value(entry_line(key, value), number) == Ok::<(Seq<char>, ValueView), Error>(
            (key, reread(value).unwrap()),
        ),
{
    let line = entry_line(key, value);
    let text = rendered(value);
    let at = key.len() as int + 1;
    assert(line.len() == key.len() + 3 + text.len());
    assert forall|i: int| 0 <= i < key.len() implies line[i] == key[i] by {}
    assert(line[at - 1] == ' ');
    assert(line[at] == '=');
    assert(line[at + 1] == ' ');
    assert forall|i: int| 0 <= i < text.len() implies line[at + 2 + i] == text[i] by {}
    assert(line[0] != '#' && line[0] != '[') by {
        if key.len() > 0 {
            assert(line[0] == key[0]);
        }
    }
    assert forall|i: int| 0 <= i < line.len() implies line[i] != '\n' by {
        if i < key.len() {
            assert(line[i] == key[i]);
        } else if i >= at + 2 {
            assert(line[at + 2 + (i - at - 2)] == text[i - at - 2]);
        }
    }
    assert(line.last() != '\r') by {
        if text.len() > 0 {
            assert(line[at + 2 + (text.len() - 1)] == text[text.len() - 1]);
        }
    }
    lemma_find(line, '=');
    assert(find(line, '=') == Some(at)) by {
        match find(line, '=') {
            Some(i) => {
                if i < at {
                    if i < key.len() {
                        assert(line[i] == key[i]);
                    }
                }
            },
            None => {},
        }
    }
    let left = line.take(at);
    assert(left =~= key.push(' '));
    assert(left.drop_last() =~= key);
    assert(is_whitespace(' '));
    assert(trim_end(key) == key);
    assert(trim_end(left) == key);
    let right = line.skip(at + 1);
    assert(right =~= seq![' '] + text);
    assert(right.drop_first() =~= text);
    assert(trim_start(right) == trim_start(text));
}

/// Reading the lines of a group whose label is new adds the group at the
/// end, with its entries as they are read.
pub proof fn lemma_group_read(state: State, label: Seq<char>, entries: Entries, first: int)
    requires
        plain_label(label),
        index_of(state.groups, label) is None,
        keys_distinct(entries),
        forall|j: int|
            0 <= j < entries.len() ==> plain_key((#[trigger] entries[j]).0) && writable(
                entries[j].1,
            ),
    ensures
        run(state, group_lines((label, entries)), first) == Ok::<State, Error>(
            State {
                current: Some(label),
                groups: state.groups.push((label, reread_entries(entries))),
            },
        ),
    decreases entries.len(),
{
    let lines = group_lines((label, entries));
    if entries.len() == 0 {
        lemma_header_read(label);
        assert(lines =~= seq![header(label)]);
        assert(lines.drop_last() =~= Seq::<Seq<char>>::empty());
        assert(lines.last() == header(label));
        assert(run(state, lines.drop_last(), first) == Ok::<State, Error>(state));
        assert(reread_entries(entries) =~= Seq::<(Seq<char>, ValueView)>::empty());
    } else {
        let init = entries.drop_last();
        let last = entries.last();
        assert(keys_distinct(init));
        assert forall|j: int| 0 <= j < init.len() implies plain_key((#[trigger] init[j]).0)
            && writable(init[j].1) by {
            assert(init[j] == entries[j]);
        }
        lemma_group_read(state, label, init, first);
        let done = reread_entries(init);
        let before = State { current: Some(label), groups: state.groups.push((label, done)) };
        assert(lines.drop_last() =~= group_lines((label, init)));
        assert(lines.last() == entry_line(last.0, last.1));
        let number = (first + lines.len() - 1) as usize;
        lemma_entry_read(last.0, last.1, number);
        let value = reread(last.1).unwrap();
        lemma_index_of_pushed(state.groups, label, done);
        assert forall|j: int| 0 <= j < done.len() implies (#[trigger] done[j]).0 != last.0 by {
            assert(done[j].0 == entries[j].0);
        }
        lemma_index_of_absent(done, last.0);
        assert(put(done, last.0, value) =~= reread_entries(entries));
        assert(with_entry(before.groups, label, last.0, value) =~= state.groups.push(
            (label, reread_entries(entries)),
        ));
    }
}

/// A plain document without its last group is plain.
pub proof fn lemma_plain_drop_last(groups: Layout)
    requires
        plain(groups),
        groups.len() > 0,
    ensures
        plain(groups.drop_last()),
{
    let init = groups.drop_last();
    assert forall|i: int| 0 <= i < init.len() implies plain_label((#[trigger] init[i]).0)
        && keys_distinct(init[i].1) by {
        assert(init[i] == groups[i]);
    }
    assert forall|i: int, j: int|
        0 <= i < init.len() && 0 <= j < init[i].1.len() implies plain_key(
        (#[trigger] init[i].1[j]).0,
    ) && writable(init[i].1[j].1) by {
        assert(init[i] == groups[i]);
        assert(plain_key(groups[i].1[j].0));
    }
}

/// Reading the lines of a plain document gives its groups, with the
/// entries as they are read.
pub proof fn lemma_document_read(groups: Layout)
    requires
        plain(groups),
    ensures
        run(initial(), document_lines(groups), 1) == Ok::<State, Error>(
            State {
                current: if groups.len() == 0 {
                    None
                } else {
                    Some(groups.last().0)
                },
                groups: reread_layout(groups),
            },
        ),
    decreases groups.len(),
{
    if groups.len() == 0 {
        assert(reread_layout(groups) =~= Seq::<(Seq<char>, Entries)>::empty());
    } else {
        let init = groups.drop_last();
        let last = groups.last();
        lemma_plain_drop_last(groups);
        lemma_document_read(init);
        let head = document_lines(init);
        let before = run(initial(), head, 1).unwrap();
        lemma_run_concat(initial(), head, group_lines(last), 1);
        let done = reread_layout(init);
        assert forall|i: int| 0 <= i < done.len() implies (#[trigger] done[i]).0 != last.0 by {
            assert(done[i].0 == groups[i].0);
        }
        lemma_index_of_absent(done, last.0);
        assert(keys_distinct(last.1));
        assert forall|j: int| 0 <= j < last.1.len() implies plain_key((#[trigger] last.1[j]).0)
            && writable(last.1[j].1) by {
            assert(plain_key(groups[groups.len() - 1].1[j].0));
        }
        lemma_group_read(before, last.0, last.1, 1 + head.len() as int);
        assert(done.push((last.0, reread_entries(last.1))) =~= reread_layout(groups));
    }
}

/// The lines of a plain document can be written and read again.
pub proof fn lemma_document_lines(groups: Layout)
    requires
        plain(groups),
    ensures
        forall|k: int|
            0 <= k < document_lines(groups).len() ==> is_line(#[trigger] document_lines(groups)[k]),
    decreases groups.len(),
{
    if groups.len() > 0 {
        let init = groups.drop_last();
        let last = groups.last();
        lemma_plain_drop_last(groups);
        lemma_document_lines(init);
        let head = document_lines(init);
        let tail = group_lines(last);
        assert forall|k: int| 0 <= k < document_lines(groups).len() implies is_line(
            #[trigger] document_lines(groups)[k],
        ) by {
            if k < head.len() {
                assert(document_lines(groups)[k] == head[k]);
            } else {
                let j = k - head.len();
                assert(document_lines(groups)[k] == tail[j]);
                if j == 0 {
                    lemma_header_read(last.0);
                } else {
                    assert(tail[j] == entry_line(last.1[j - 1].0, last.1[j - 1].1));
                    assert(plain_key(groups[groups.len() - 1].1[j - 1].0));
                    lemma_entry_read(last.1[j - 1].0, last.1[j - 1].1, 0);
                }
            }
        }
    }
}

/// Writing a plain document and reading the text again gives a document
/// with the same groups and the same keys, in the same order, and for each
/// key what is read from the text of its value.
pub proof fn round_trip(groups: Layout)
    requires
        plain(groups),
    ensures
        document_of(lines_of(document_text(groups))) == Ok::<Layout, Error>(reread_layout(groups)),
{
    lemma_document_lines(groups);
    lemma_lines_of_terminated(document_lines(groups));
    lemma_document_read(groups);
}

/// Whether a value is a scalar whose text is read as the value itself. A
/// boolean and an integer always are. A double is unless its literal is
/// also an integer that fits 128 bits. A string is if it fits on a line,
/// holds no semicolon, does not start with whitespace and is no literal of
/// another kind.
pub open spec fn stable(value: ValueView) -> bool {
    match value {
        ValueView::Bool(_) => true,
        ValueView::Integer(_) => true,
        ValueView::Double(d) => is_double_literal(d) && parse_integer(d) is None,
        ValueView::String(s) => {
            &&& is_line(s)
            &&& free_of(s, ';')
            &&& kind_of(s) == Kind::String
            &&& s.len() > 0 ==> !is_whitespace(s[0])
        },
        _ => false,
    }
}

/// A text without semicolons that does not start with whitespace is read
/// as the scalar it denotes.
pub proof fn lemma_token_read(text: Seq<char>)
    requires
        free_of(text, ';'),
        text.len() > 0 ==> !is_whitespace(text[0]),
    ensures
        parsed(trim_start(text)) == Ok::<ValueView, Reason>(scalar(text)),
{
    assert(trim_start(text) == text);
    lemma_split_single(text, ';');
    let segments = seq![text];
    assert(segments.len() == 1 && segments[0] == text);
}

/// A stable value can be written on a line, and is read again as it is.
pub proof fn lemma_stable_read(value: ValueView)
    requires
        stable(value),
    ensures
        writable(value),
        reread(value) == Ok::<ValueView, Reason>(value),
{
    let text = rendered(value);
    lemma_booleans_are_no_numbers();
    match value {
        ValueView::Bool(b) => {
            reveal_strlit("true");
            reveal_strlit("false");
            lemma_token_read(text);
        },
        ValueView::Integer(n) => {
            lemma_decimal_is_integer_literal(n as int);
            assert forall|i: int| 0 <= i < text.len() implies is_digit(#[trigger] text[i])
                || text[i] == '+' || text[i] == '-' by {
                if has_sign(text) {
                    if i > 0 {
                        assert(is_digit(unsigned_part(text)[i - 1]));
                    }
                } else {
                    assert(is_digit(unsigned_part(text)[i]));
                }
            }
            assert(text.len() > 0);
            assert(is_digit(text[text.len() - 1]) || text[text.len() - 1] == '+' || text[text.len()
                - 1] == '-');
            lemma_token_read(text);
        },
        ValueView::Double(d) => {
            assert forall|i: int| 0 <= i < d.len() implies is_literal_char(#[trigger] d[i]) by {
                lemma_double_literal_chars(d, i);
            }
            if d.len() > 0 {
                assert(is_literal_char(d[d.len() - 1]));
                assert(is_literal_char(d[0]));
            }
            lemma_token_read(d);
        },
        ValueView::String(s) => {
            lemma_token_read(s);
        },
        _ => {},
    }
}

/// A list is written as the empty text, which is read as the empty string:
/// a list does not come back.
pub proof fn lemma_list_read(value: ValueView)
    requires
        !value.is_scalar(),
    ensures
        writable(value),
        reread(value) == Ok::<ValueView, Reason>(ValueView::String(Seq::empty())),
{
    let text = rendered(value);
    assert(text =~= Seq::<char>::empty());
    lemma_token_read(text);
    reveal_strlit("true");
    reveal_strlit("false");
    let body = unsigned_part(lowercase(text));
    assert(body.len() == 0);
    lemma_special(body);
}

/// Writing a document of stable values under plain labels and keys, and
/// reading the text again, gives the document itself.
pub proof fn stable_round_trip(groups: Layout)
    requires
        well_formed(groups),
        forall|i: int| 0 <= i < groups.len() ==> plain_label((#[trigger] groups[i]).0),
        forall|i: int, j: int|
            0 <= i < groups.len() && 0 <= j < groups[i].1.len() ==> {
                &&& plain_key((#[trigger] groups[i].1[j]).0)
                &&& stable(groups[i].1[j].1)
            },
    ensures
        document_of(lines_of(document_text(groups))) == Ok::<Layout, Error>(groups),
{
    assert forall|i: int, j: int|
        0 <= i < groups.len() && 0 <= j < groups[i].1.len() implies writable(
        (#[trigger] groups[i].1[j]).1,
    ) && reread(groups[i].1[j].1) == Ok::<ValueView, Reason>(groups[i].1[j].1) by {
        assert(plain_key(groups[i].1[j].0));
        lemma_stable_read(groups[i].1[j].1);
    }
    assert(plain(groups)) by {
        assert forall|i: int, j: int|
            0 <= i < groups.len() && 0 <= j < groups[i].1.len() implies plain_key(
            (#[trigger] groups[i].1[j]).0,
        ) && writable(groups[i].1[j].1) by {}
    }
    round_trip(groups);
    assert(reread_layout(groups) =~~= groups) by {
        assert forall|i: int| 0 <= i < groups.len() implies reread_layout(groups)[i]
            == groups[i] by {
            assert(reread_entries(groups[i].1) =~= groups[i].1) by {
                assert forall|j: int| 0 <= j < groups[i].1.len() implies reread_entries(
                    groups[i].1,
                )[j] == groups[i].1[j] by {
                    assert(reread(groups[i].1[j].1) == Ok::<ValueView, Reason>(groups[i].1[j].1));
                }
            }
        }
    }
}

} // verus!
