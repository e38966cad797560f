//! Keyfile parser.

use crate::errors::Error;
use crate::errors::Reason;
use crate::keyfile::Keyfile;
use crate::keyfile::Layout;
use crate::keyfile::lemma_with_entry_well_formed;
use crate::keyfile::lemma_with_group_well_formed;
use crate::keyfile::well_formed;
use crate::keyfile::with_entry;
use crate::keyfile::with_group;
use crate::text::find;
use crate::text::find_char;
use crate::text::skip_leading;
use crate::text::skip_trailing;
use crate::text::split;
use crate::text::split_text;
use crate::text::substring;
use crate::text::texts;
use crate::text::to_chars;
use crate::text::trim;
use crate::text::trim_end;
use crate::text::trim_start;
use crate::value::parsed;
use crate::value::Value;
use crate::value::ValueView;
use vstd::prelude::*;

verus! {

/// Whether a line has no meaningful content: it is empty or a comment.
pub open spec fn silent(line: Seq<char>) -> bool {
    line.len() == 0 || line[0] == '#'
}

/// Whether a line declares a group.
pub open spec fn opens_group(line: Seq<char>) -> bool {
    line.len() > 0 && line[0] == '['
}

/// The group that a header names: what stands between the opening bracket
/// and the closing one, without whitespace around it. The line has to
/// start with `[` and to end with `]`.
pub open spec fn group_label(line: Seq<char>) -> Result<Seq<char>, Reason> {
    if !opens_group(line) {
        Err(Reason::MissingGroupStart)
    } else if line.last() != ']' {
        Err(Reason::MissingGroupEnd)
    } else {
        Ok(trim(line.subrange(1, line.len() - 1)))
    }
}

/// The key and the value that a line holds. The first `=` parts them; the
/// key is what stands before it, without whitespace at its end, and the
/// value is denoted by what stands after it, without whitespace at its
/// start.
pub open spec fn key_value(line: Seq<char>, number: usize) -> Result<(Seq<char>, ValueView), Error> {
    match find(line, '=') {
        None => Err(Error::malformed_at(number, Reason::MissingSeparator)),
        Some(i) => match parsed(trim_start(line.skip(i + 1))) {
            Ok(value) => Ok((trim_end(line.take(i)), value)),
            Err(reason) => Err(Error::invalid_value_for(reason)),
        },
    }
}

/// What a parser knows between two lines: the group that entries go to, if
/// a header has come, and the document so far.
pub struct State {
    pub current: Option<Seq<char>>,
    pub groups: Layout,
}

/// The state before the first line.
pub open spec fn initial() -> State {
    State { current: None, groups: Seq::empty() }
}

/// The state after one more line, which has the given number. A silent
/// line changes nothing. A header makes its group the current one, and adds
/// it if it is new. Any other line needs a current group and gives it an
/// entry.
pub open spec fn step(state: State, line: Seq<char>, number: usize) -> Result<State, Error> {
    if silent(line) {
        Ok(state)
    } else if opens_group(line) {
        match group_label(line) {
            Ok(label) => Ok(
                State { current: Some(label), groups: with_group(state.groups, label) },
            ),
            Err(reason) => Err(Error::malformed_at(number, reason)),
        }
    } else {
        match state.current {
            None => Err(Error::malformed_at(number, Reason::OutsideGroup)),
            Some(group) => match key_value(line, number) {
                Ok((key, value)) => Ok(
                    State {
                        current: state.current,
                        groups: with_entry(state.groups, group, key, value),
                    },
                ),
                Err(e) => Err(e),
            },
        }
    }
}

/// The state after `lines`, of which the first has the number `first`, or
/// the error of the first line that fails.
pub open spec fn run(state: State, lines: Seq<Seq<char>>, first: int) -> Result<State, Error>
    decreases lines.len(),
{
    if lines.len() == 0 {
        Ok(state)
    } else {
        match run(state, lines.drop_last(), first) {
            Ok(before) => step(before, lines.last(), (first + lines.len() - 1) as usize),
            Err(e) => Err(e),
        }
    }
}

/// The document that `lines` denote, numbered from 1.
pub open spec fn document_of(lines: Seq<Seq<char>>) -> Result<Layout, Error> {
    match run(initial(), lines, 1) {
        Ok(state) => Ok(state.groups),
        Err(e) => Err(e),
    }
}

/// `line` without a carriage return at its end.
pub open spec fn without_return(line: Seq<char>) -> Seq<char> {
    if line.len() > 0 && line.last() == '\r' {
        line.drop_last()
    } else {
        line
    }
}

/// The lines of a text. A line ends with a line feed, which is not part of
/// it, nor is a carriage return just before the line feed. What follows the
/// last line feed is a line too, unless it is empty.
pub open spec fn lines_of(text: Seq<char>) -> Seq<Seq<char>> {
    let pieces = split(text, '\n');
    let ended = pieces.len() - 1;
    let count = if pieces.last().len() == 0 {
        ended
    } else {
        ended + 1
    };
    Seq::new(
        count as nat,
        |i: int|
            if i < ended {
                without_return(pieces[i])
            } else {
                pieces[i]
            },
    )
}

/// The number of the line that follows `count` lines. It stays at the
/// largest number once that is reached.
pub open spec fn next_number(count: usize) -> usize {
    if count < usize::MAX {
        (count + 1) as usize
    } else {
        count
    }
}

/// Return whether a line has no meaningful content.
pub fn is_silent(line: &str) -> (r: bool)
    ensures
        r == silent(line@),
{
    line.is_empty() || line.get_char(0) == '#'
}

/// Return whether a line declares a new group.
pub fn is_new_group(line: &str) -> (r: bool)
    ensures
        r == opens_group(line@),
{
    !line.is_empty() && line.get_char(0) == '['
}

/// Parse a group identifier.
pub fn parse_group(line_num: usize, line: String) -> (r: Result<String, Error>)
    ensures
        match group_label(line@) {
            Ok(label) => r is Ok && r->Ok_0@ == label,
            Err(reason) => r == Err::<String, Error>(Error::malformed_at(line_num, reason)),
        },
{
    let chars = to_chars(line.as_str());
    let n = chars.len();
    if n == 0 || chars[0] != '[' {
        return Err(Error::malformed(line_num, Reason::MissingGroupStart));
    }
    if chars[n - 1] != ']' {
        return Err(Error::malformed(line_num, Reason::MissingGroupEnd));
    }
    let start = skip_leading(&chars, 1, n - 1);
    let end = skip_trailing(&chars, start, n - 1);
    Ok(substring(&chars, start, end))
}

/// Parse a key-value pair.
pub fn parse_kv(line_num: usize, line: String) -> (r: Result<(String, Value), Error>)
    ensures
        match key_value(line@, line_num) {
            Ok((key, value)) => r is Ok && r->Ok_0.0@ == key && r->Ok_0.1@ == value,
            Err(e) => r == Err::<(String, Value), Error>(e),
        },
{
    let chars = to_chars(line.as_str());
    let n = chars.len();
    assert(chars@.subrange(0, n as int) =~= chars@);
    match find_char(&chars, '=', 0, n) {
        None => Err(Error::malformed(line_num, Reason::MissingSeparator)),
        Some(i) => {
            assert(chars@.subrange(0, i as int) =~= line@.take(i as int));
            assert(chars@.subrange(i + 1, n as int) =~= line@.skip(i + 1));
            let key_end = skip_trailing(&chars, 0, i);
            let value_start = skip_leading(&chars, i + 1, n);
            let key = substring(&chars, 0, key_end);
            let value_text = substring(&chars, value_start, n);
            match Value::parse(value_text) {
                Ok(value) => Ok((key, value)),
                Err(e) => Err(e),
            }
        },
    }
}

/// A parser that takes a document line by line.
pub struct Parser {
    keyfile: Keyfile,
    current: Option<String>,
    count: usize,
}

impl Parser {
    /// What the parser knows of the lines it has taken.
    pub closed spec fn state(&self) -> State {
        State {
            current: match self.current {
                Some(label) => Some(label@),
                None => None,
            },
            groups: self.keyfile@,
        }
    }

    /// The number of lines taken. It stays at the largest number once that
    /// is reached.
    pub closed spec fn count(&self) -> usize {
        self.count
    }

    /// A parser that has taken no line.
    pub fn new() -> (r: Parser)
        ensures
            r.state() == initial(),
            r.count() == 0,
    {
        Parser { keyfile: Keyfile::new(), current: None, count: 0 }
    }

    /// The number of the line that comes next, counted from 1.
    pub fn line_number(&self) -> (r: usize)
        ensures
            r == next_number(self.count()),
    {
        if self.count < usize::MAX {
            self.count + 1
        } else {
            self.count
        }
    }

    /// Takes the next line. A line that is refused leaves the parser as it
    /// was.
    pub fn feed(&mut self, line: String) -> (r: Result<(), Error>)
        ensures
            match step(old(self).state(), line@, next_number(old(self).count())) {
                Ok(state) => {
                    &&& r is Ok
                    &&& final(self).state() == state
                    &&& final(self).count() == next_number(old(self).count())
                },
                Err(e) => {
                    &&& r == Err::<(), Error>(e)
                    &&& final(self).state() == old(self).state()
                    &&& final(self).count() == old(self).count()
                },
            },
    {
        let line_num = self.line_number();
        if is_silent(line.as_str()) {
            self.count = line_num;
            return Ok(());
        }
        if is_new_group(line.as_str()) {
            match parse_group(line_num, line) {
                Ok(group) => {
                    self.keyfile.add_group(group.clone());
                    self.current = Some(group);
                    self.count = line_num;
                    return Ok(());
                },
                Err(e) => {
                    return Err(e);
                },
            }
        }
        // Anything else is an entry, which needs a group to go to.
        let group = match &self.current {
            Some(g) => g.clone(),
            None => {
                return Err(Error::malformed(line_num, Reason::OutsideGroup));
            },
        };
        match parse_kv(line_num, line) {
            Ok((key, value)) => {
                self.keyfile.insert(group, key, value);
                self.count = line_num;
                Ok(())
            },
            Err(e) => Err(e),
        }
    }

    /// The document of the lines taken.
    pub fn finish(self) -> (r: Keyfile)
        ensures
            r@ == self.state().groups,
    {
        self.keyfile
    }
}

/// Parses a document from its lines.
pub fn parse_buf(lines: &Vec<String>) -> (r: Result<Keyfile, Error>)
    ensures
        match document_of(texts(lines@)) {
            Ok(groups) => r is Ok && r->Ok_0@ == groups,
            Err(e) => r == Err::<Keyfile, Error>(e),
        },
{
    let ghost all = texts(lines@);
    let mut parser = Parser::new();
    let mut i: usize = 0;
    assert(all.take(0) =~= Seq::<Seq<char>>::empty());
    while i < lines.len()
        invariant
            i <= lines.len(),
            all == texts(lines@),
            parser.count() == i,
            run(initial(), all.take(i as int), 1) == Ok::<State, Error>(parser.state()),
        decreases lines.len() - i,
    {
        proof {
            assert(all.take(i + 1).drop_last() =~= all.take(i as int));
            assert(all.take(i + 1).last() == lines@[i as int]@);
        }
        match parser.feed(lines[i].clone()) {
            Ok(()) => {},
            Err(e) => {
                proof {
                    lemma_run_fails(initial(), all.take(i + 1), all, 1);
                }
                return Err(e);
            },
        }
        i += 1;
    }
    assert(all.take(i as int) =~= all);
    Ok(parser.finish())
}

/// Parses a document from its text.
pub fn parse_text(text: &str) -> (r: Result<Keyfile, Error>)
    ensures
        match document_of(lines_of(text@)) {
            Ok(groups) => r is Ok && r->Ok_0@ == groups,
            Err(e) => r == Err::<Keyfile, Error>(e),
        },
{
    let lines = text_lines(text);
    parse_buf(&lines)
}

/// The lines of a text.
pub fn text_lines(text: &str) -> (lines: Vec<String>)
    ensures
        texts(lines@) == lines_of(text@),
{
    let pieces = split_text(text, '\n');
    let ghost parts = texts(pieces@);
    proof {
        crate::text::lemma_split_pieces(text@, '\n');
    }
    let ended: usize = pieces.len() - 1;
    let mut lines: Vec<String> = Vec::new();
    let mut i: usize = 0;
    while i < ended
        invariant
            i <= ended,
            ended == pieces.len() - 1,
            parts == texts(pieces@),
            lines.len() == i,
            forall|k: int| 0 <= k < i ==> lines@[k]@ == without_return(parts[k]),
        decreases ended - i,
    {
        let chars = to_chars(pieces[i].as_str());
        let n = chars.len();
        let end: usize = if n > 0 && chars[n - 1] == '\r' {
            n - 1
        } else {
            n
        };
        let line = substring(&chars, 0, end);
        assert(line@ =~= without_return(parts[i as int]));
        lines.push(line);
        i += 1;
    }
    if !pieces[ended].as_str().is_empty() {
        lines.push(pieces[ended].clone());
    }
    assert(texts(lines@) =~= lines_of(text@));
    lines
}

/// A line that does not start with `[` is no header, and a line that
/// starts with `[` and does not end with `]` is none either; the two are
/// refused for different reasons.
pub proof fn header_markers_checked(line: Seq<char>)
    ensures
        !opens_group(line) ==> group_label(line) == Err::<Seq<char>, Reason>(
            Reason::MissingGroupStart,
        ),
        opens_group(line) && line.last() != ']' ==> group_label(line) == Err::<Seq<char>, Reason>(
            Reason::MissingGroupEnd,
        ),
        opens_group(line) && line.last() == ']' ==> group_label(line) == Ok::<Seq<char>, Reason>(
            trim(line.subrange(1, line.len() - 1)),
        ),
        Reason::MissingGroupStart != Reason::MissingGroupEnd,
{
}

/// Silent lines leave the state as it is.
pub proof fn lemma_run_silent(state: State, lines: Seq<Seq<char>>, first: int)
    requires
        forall|j: int| 0 <= j < lines.len() ==> silent(#[trigger] lines[j]),
    ensures
        run(state, lines, first) == Ok::<State, Error>(state),
    decreases lines.len(),
{
    if lines.len() > 0 {
        let init = lines.drop_last();
        assert forall|j: int| 0 <= j < init.len() implies silent(#[trigger] init[j]) by {
            assert(init[j] == lines[j]);
        }
        lemma_run_silent(state, init, first);
        assert(silent(lines[lines.len() - 1]));
    }
}

/// A document whose first line with content is no group header is refused
/// at that line, whatever the line holds: an entry needs a group.
pub proof fn group_context_enforced(lines: Seq<Seq<char>>, i: int)
    requires
        lines.len() <= usize::MAX,
        0 <= i < lines.len(),
        forall|j: int| 0 <= j < i ==> silent(#[trigger] lines[j]),
        !silent(lines[i]),
        !opens_group(lines[i]),
    ensures
        document_of(lines) == Err::<Layout, Error>(
            Error::malformed_at((i + 1) as usize, Reason::OutsideGroup),
        ),
{
    let before = lines.take(i);
    let upto = lines.take(i + 1);
    assert forall|j: int| 0 <= j < before.len() implies silent(#[trigger] before[j]) by {
        assert(before[j] == lines[j]);
    }
    lemma_run_silent(initial(), before, 1);
    assert(upto.drop_last() =~= before);
    assert(upto.last() == lines[i]);
    lemma_run_fails(initial(), upto, lines, 1);
}

/// Lines that are read keep groups and keys distinct.
pub proof fn lemma_run_well_formed(state: State, lines: Seq<Seq<char>>, first: int)
    requires
        well_formed(state.groups),
        run(state, lines, first) is Ok,
    ensures
        well_formed(run(state, lines, first).unwrap().groups),
    decreases lines.len(),
{
    if lines.len() > 0 {
        lemma_run_well_formed(state, lines.drop_last(), first);
        let before = run(state, lines.drop_last(), first).unwrap();
        let line = lines.last();
        let number = (first + lines.len() - 1) as usize;
        if !silent(line) {
            if opens_group(line) {
                lemma_with_group_well_formed(before.groups, group_label(line).unwrap());
            } else {
                let (key, value) = key_value(line, number).unwrap();
                lemma_with_entry_well_formed(before.groups, before.current.unwrap(), key, value);
            }
        }
    }
}

/// In a document that is read, no group occurs twice, and no key twice in
/// a group.
pub proof fn document_is_well_formed(lines: Seq<Seq<char>>)
    requires
        document_of(lines) is Ok,
    ensures
        well_formed(document_of(lines).unwrap()),
{
    lemma_run_well_formed(initial(), lines, 1);
}

/// Once a line fails, so does every longer document.
pub proof fn lemma_run_fails(state: State, lines: Seq<Seq<char>>, all: Seq<Seq<char>>, first: int)
    requires
        lines.len() <= all.len(),
        lines == all.take(lines.len() as int),
        run(state, lines, first) is Err,
    ensures
        run(state, all, first) == run(state, lines, first),
    decreases all.len(),
{
    if lines.len() < all.len() {
        assert(all.drop_last().take(lines.len() as int) =~= lines);
        lemma_run_fails(state, lines, all.drop_last(), first);
    } else {
        assert(lines =~= all);
    }
}

} // verus!
