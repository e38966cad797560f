//! Keyfile writer.

use crate::keyfile::Entries;
use crate::keyfile::Keyfile;
use crate::keyfile::Layout;
use crate::value::rendered;
use crate::value::ValueView;
use vstd::prelude::*;

verus! {

/// The header line of a group.
pub open spec fn header(label: Seq<char>) -> Seq<char> {
    seq!['['] + label + seq![']']
}

/// The line of an entry.
pub open spec fn entry_line(key: Seq<char>, value: ValueView) -> Seq<char> {
    key + seq![' ', '=', ' '] + rendered(value)
}

/// The lines of the entries of a group, in their order.
pub open spec fn entry_lines(entries: Entries) -> Seq<Seq<char>> {
    Seq::new(entries.len(), |j: int| entry_line(entries[j].0, entries[j].1))
}

/// The lines of a group: its header, then its entries.
pub open spec fn group_lines(group: (Seq<char>, Entries)) -> Seq<Seq<char>> {
    seq![header(group.0)] + entry_lines(group.1)
}

/// The lines of a document: those of its groups, in their order.
pub open spec fn document_lines(groups: Layout) -> Seq<Seq<char>>
    decreases groups.len(),
{
    if groups.len() == 0 {
        Seq::empty()
    } else {
        document_lines(groups.drop_last()) + group_lines(groups.last())
    }
}

/// The text of `lines`: each line, followed by a line feed.
pub open spec fn terminated(lines: Seq<Seq<char>>) -> Seq<char>
    decreases lines.len(),
{
    if lines.len() == 0 {
        Seq::empty()
    } else {
        terminated(lines.drop_last()) + lines.last() + seq!['\n']
    }
}

/// The text of a group.
pub open spec fn group_text(group: (Seq<char>, Entries)) -> Seq<char> {
    terminated(group_lines(group))
}

/// The text of a document.
pub open spec fn document_text(groups: Layout) -> Seq<char> {
    terminated(document_lines(groups))
}

/// The text of lines that follow other lines follows the text of those.
pub proof fn lemma_terminated_concat(a: Seq<Seq<char>>, b: Seq<Seq<char>>)
    ensures
        terminated(a + b) == terminated(a) + terminated(b),
    decreases b.len(),
{
    if b.len() == 0 {
        assert(a + b =~= a);
        assert(terminated(a) + terminated(b) =~= terminated(a));
    } else {
        lemma_terminated_concat(a, b.drop_last());
        assert((a + b).drop_last() =~= a + b.drop_last());
        assert((a + b).last() == b.last());
        assert(terminated(a + b) =~= terminated(a) + terminated(b));
    }
}

/// Appends the text of the group at `index` to `buf`: its header, then one
/// line for each of its entries.
pub fn write_group(kf: &Keyfile, index: usize, buf: &mut String)
    requires
        index < kf@.len(),
    ensures
        final(buf)@ == old(buf)@ + group_text(kf@[index as int]),
{
    let ghost start = buf@;
    let ghost group = kf@[index as int];
    let ghost lines = group_lines(group);
    buf.push('[');
    buf.append(kf.label(index));
    buf.push(']');
    buf.push('\n');
    proof {
        assert(lines.take(1).drop_last() =~= Seq::<Seq<char>>::empty());
        assert(lines.take(1).last() == header(group.0));
        assert(terminated(Seq::<Seq<char>>::empty()) =~= Seq::<char>::empty());
        assert(terminated(lines.take(1)) =~= header(group.0) + seq!['\n']);
        assert(buf@ =~= start + (header(group.0) + seq!['\n']));
    }
    let n = kf.entries_len(index);
    let mut j: usize = 0;
    while j < n
        invariant
            j <= n,
            index < kf@.len(),
            n == kf@[index as int].1.len(),
            group == kf@[index as int],
            lines == group_lines(group),
            buf@ == start + terminated(lines.take(j + 1)),
        decreases n - j,
    {
        let (key, value) = kf.entry(index, j);
        let ghost before = buf@;
        buf.append(key);
        buf.push(' ');
        buf.push('=');
        buf.push(' ');
        let token = value.to_string();
        buf.append(token.as_str());
        buf.push('\n');
        proof {
            assert(lines.take(j + 2).drop_last() =~= lines.take(j + 1));
            assert(lines.take(j + 2).last() == entry_line(key@, value@));
            assert(buf@ =~= before + entry_line(key@, value@) + seq!['\n']);
            assert(buf@ =~= start + terminated(lines.take(j + 2)));
        }
        j += 1;
    }
    assert(lines.take(n + 1) =~= lines);
}

/// Appends the text of a keyfile to `buf`: its groups one after the other.
pub fn write_buf(kf: &Keyfile, buf: &mut String)
    ensures
        final(buf)@ == old(buf)@ + document_text(kf@),
{
    let ghost start = buf@;
    let n = kf.len();
    let mut i: usize = 0;
    assert(start + document_text(kf@.take(0)) =~= start);
    while i < n
        invariant
            i <= n,
            n == kf@.len(),
            buf@ == start + document_text(kf@.take(i as int)),
        decreases n - i,
    {
        write_group(kf, i, buf);
        proof {
            let done = kf@.take(i as int);
            let more = kf@.take(i + 1);
            assert(more.drop_last() =~= done);
            assert(more.last() == kf@[i as int]);
            lemma_terminated_concat(document_lines(done), group_lines(kf@[i as int]));
            assert(buf@ =~= start + document_text(more));
        }
        i += 1;
    }
    assert(kf@.take(n as int) =~= kf@);
}

/// The text of a keyfile.
pub fn to_text(kf: &Keyfile) -> (r: String)
    ensures
        r@ == document_text(kf@),
{
    let mut buf = String::new();
    write_buf(kf, &mut buf);
    assert(buf@ =~= document_text(kf@));
    buf
}

} // verus!
