//! The store as text: one line for an entry, `path|rank|time`.
//!
//! The rank of a line is any decimal number, with or without a sign, a point
//! or an exponent; the time is a whole number. A rank that the store cannot
//! hold is read as the nearest that it can: a number under zero as zero, a
//! number over the largest rank as the largest rank, and digits past the
//! sixth place behind the point are dropped.
//!
//! A line that is not made of a path, a rank and a time is passed over when a
//! text is loaded. A path cannot hold the separator `|` or a line break: the
//! text of such an entry does not read back as the entry.

use crate::database::{distinct_paths, has_path, put, views, ZDatabase};
use crate::entry::{DirEntry, EntryView};
use crate::numbers::{
    decimal, find_char, first_index, is_digit, is_first, lemma_decimal, lemma_first_index,
    lemma_rank_text, lemma_time_text, parse_rank, parse_time, push_decimal, push_rank, rank_text,
    read_rank, read_time,
};
use crate::text::{chars_of, string_of};
use vstd::prelude::*;
use vstd::string::StringExecFns;

verus! {

/// The entry that a line stands for: the path before the first `|`, the rank
/// between the first and the second, and the time behind the second.
pub open spec fn parse_line(line: Seq<char>) -> Option<EntryView> {
    let bar = first_index(line, '|');
    if bar < line.len() {
        let rest = line.skip(bar + 1);
        let second = first_index(rest, '|');
        if second < rest.len() {
            match (parse_rank(rest.take(second)), parse_time(rest.skip(second + 1))) {
                (Some(rank), Some(time)) => Some(EntryView { path: line.take(bar), rank, time }),
                _ => None,
            }
        } else {
            None
        }
    } else {
        None
    }
}

/// The line that stands for an entry, without its line break.
pub open spec fn line_text(entry: EntryView) -> Seq<char> {
    entry.path + seq!['|'] + rank_text(entry.rank) + seq!['|'] + decimal(entry.time)
}

/// The first line of a text, without its line break and without a carriage
/// return before the line break.
pub open spec fn first_line(text: Seq<char>) -> Seq<char> {
    let end = first_index(text, '\n');
    let line = text.take(end);
    if end < text.len() && line.len() > 0 && line.last() == '\r' {
        line.drop_last()
    } else {
        line
    }
}

/// What follows the first line of a text.
pub open spec fn after_first_line(text: Seq<char>) -> Seq<char> {
    let end = first_index(text, '\n');
    if 0 <= end < text.len() {
        text.skip(end + 1)
    } else {
        Seq::empty()
    }
}

/// The store after a text was loaded into it: line by line, each entry is
/// put into the store, and a line that stands for no entry is passed over.
pub open spec fn loaded(store: Seq<EntryView>, text: Seq<char>) -> Seq<EntryView>
    decreases text.len(),
{
    if text.len() == 0 {
        store
    } else {
        let next = match parse_line(first_line(text)) {
            Some(entry) => put(store, entry),
            None => store,
        };
        loaded(next, after_first_line(text))
    }
}

/// The text of a store: the line of each entry with a line break, in the
/// store's order.
pub open spec fn saved(store: Seq<EntryView>) -> Seq<char>
    decreases store.len(),
{
    if store.len() == 0 {
        Seq::empty()
    } else {
        saved(store.drop_last()) + line_text(store.last()) + seq!['\n']
    }
}

/// The path holds neither the separator nor a line break.
pub open spec fn is_plain(path: Seq<char>) -> bool {
    forall|i: int| 0 <= i < path.len() ==> #[trigger] path[i] != '|' && path[i] != '\n'
}

/// Every entry has a plain path, and a rank and a time within `u64`.
pub open spec fn storable(store: Seq<EntryView>) -> bool {
    forall|i: int|
        0 <= i < store.len() ==> is_plain((#[trigger] store[i]).path) && store[i].rank <= u64::MAX
            && store[i].time <= u64::MAX
}

/// Reads `chars[from..to]` as the line of an entry.
pub fn parse_entry(chars: &Vec<char>, from: usize, to: usize) -> (found: Option<DirEntry>)
    requires
        from <= to <= chars.len(),
    ensures
        match found {
            Some(entry) => parse_line(chars@.subrange(from as int, to as int)) == Some(entry@),
            None => parse_line(chars@.subrange(from as int, to as int)) is None,
        },
{
    let ghost line = chars@.subrange(from as int, to as int);
    let bar = find_char(chars, from, to, '|');
    if bar == to {
        return None;
    }
    let second = find_char(chars, bar + 1, to, '|');
    proof {
        assert(line.skip(bar - from + 1) =~= chars@.subrange(bar + 1, to as int));
        let rest = chars@.subrange(bar + 1, to as int);
        assert(rest.take(second - bar - 1) =~= chars@.subrange(bar + 1, second as int));
        assert(line.take(bar - from) =~= chars@.subrange(from as int, bar as int));
        if second < to {
            assert(rest.skip(second - bar) =~= chars@.subrange(second + 1, to as int));
        }
    }
    if second == to {
        return None;
    }
    let rank = match read_rank(chars, bar + 1, second) {
        Some(rank) => rank,
        None => {
            return None;
        },
    };
    let time = match read_time(chars, second + 1, to) {
        Some(time) => time,
        None => {
            return None;
        },
    };
    Some(DirEntry::new(string_of(chars, from, bar), rank, time))
}

/// Appends the line of `entry`, with its line break, to `out`.
pub fn push_line(out: &mut String, entry: &DirEntry)
    ensures
        final(out)@ == old(out)@ + line_text(entry@) + seq!['\n'],
{
    out.append(entry.path.as_str());
    out.push('|');
    push_rank(out, entry.rank);
    out.push('|');
    push_decimal(out, entry.time);
    out.push('\n');
    assert(out@ =~= old(out)@ + line_text(entry@) + seq!['\n']);
}

impl ZDatabase {
    /// Loads a text into the store, line by line. An entry of the text takes
    /// the place of the entry with its path, or goes to the end; a line that
    /// stands for no entry is passed over.
    pub fn load(&mut self, text: &str)
        ensures
            final(self)@ == loaded(old(self)@, text@),
            final(self).file() == old(self).file(),
            distinct_paths(final(self)@),
    {
        let chars = chars_of(text);
        let n = chars.len();
        let mut pos: usize = 0;
        // `len` tells that the paths are distinct before the first line is read.
        let _ = self.len();
        assert(chars@.skip(0) =~= text@);
        while pos < n
            invariant
                pos <= n == chars.len(),
                chars@ == text@,
                self.file() == old(self).file(),
                distinct_paths(self@),
                loaded(old(self)@, text@) == loaded(self@, chars@.skip(pos as int)),
            decreases n - pos,
        {
            let ghost rest = chars@.skip(pos as int);
            let ghost before = self@;
            let end = find_char(&chars, pos, n, '\n');
            let stop = if end < n && pos < end && chars[end - 1] == '\r' {
                end - 1
            } else {
                end
            };
            proof {
                assert(chars@.subrange(pos as int, n as int) =~= rest);
                assert(rest.take(end - pos) =~= chars@.subrange(pos as int, end as int));
                assert(first_line(rest) =~= chars@.subrange(pos as int, stop as int));
            }
            match parse_entry(&chars, pos, stop) {
                Some(entry) => {
                    self.insert(entry);
                },
                None => {},
            }
            if end < n {
                assert(after_first_line(rest) =~= chars@.skip(end + 1));
                pos = end + 1;
            } else {
                assert(after_first_line(rest) =~= chars@.skip(n as int));
                pos = n;
            }
            assert(loaded(before, rest) == loaded(self@, chars@.skip(pos as int)));
        }
        assert(chars@.skip(n as int).len() == 0);
    }

    /// The text of the store.
    pub fn save(&self) -> (text: String)
        ensures
            text@ == saved(self@),
    {
        let entries = self.entries();
        let mut text = String::new();
        let mut i: usize = 0;
        assert(views(entries@).take(0) =~= Seq::<EntryView>::empty());
        while i < entries.len()
            invariant
                i <= entries.len(),
                text@ == saved(views(entries@).take(i as int)),
            decreases entries.len() - i,
        {
            assert(views(entries@).take(i + 1).drop_last() =~= views(entries@).take(i as int));
            push_line(&mut text, &entries[i]);
            i += 1;
        }
        assert(views(entries@).take(entries.len() as int) =~= views(entries@));
        text
    }
}

/// The line of an entry reads back as the entry, holds no line break, and
/// ends in a digit.
pub proof fn lemma_line_round_trip(entry: EntryView)
    requires
        is_plain(entry.path),
        entry.rank <= u64::MAX,
        entry.time <= u64::MAX,
    ensures
        parse_line(line_text(entry)) == Some(entry),
        line_text(entry).len() > 0,
        is_digit(line_text(entry).last()),
        forall|i: int| 0 <= i < line_text(entry).len() ==> #[trigger] line_text(entry)[i] != '\n',
{
    let path = entry.path;
    let rank = rank_text(entry.rank);
    let time = decimal(entry.time);
    let line = line_text(entry);
    lemma_rank_text(entry.rank);
    lemma_time_text(entry.time);
    lemma_decimal(entry.time);
    assert forall|i: int| 0 <= i < path.len() implies #[trigger] line[i] != '|' by {
        assert(line[i] == path[i]);
    }
    assert(line[path.len() as int] == '|');
    lemma_first_index(line, '|', path.len() as int);
    let rest = line.skip(path.len() as int + 1);
    assert(rest =~= rank + seq!['|'] + time);
    assert forall|i: int| 0 <= i < rank.len() implies #[trigger] rest[i] != '|' by {
        assert(rest[i] == rank[i]);
    }
    assert(rest[rank.len() as int] == '|');
    lemma_first_index(rest, '|', rank.len() as int);
    assert(rest.take(rank.len() as int) =~= rank);
    assert(rest.skip(rank.len() as int + 1) =~= time);
    assert(line.take(path.len() as int) =~= path);
    assert(line.last() == time.last());
    assert forall|i: int| 0 <= i < line.len() implies #[trigger] line[i] != '\n' by {
        if i < path.len() {
            assert(line[i] == path[i]);
        } else if i > path.len() {
            let j = i - path.len() - 1;
            assert(line[i] == rest[j]);
            if j < rank.len() {
                assert(rest[j] == rank[j]);
            } else if j > rank.len() {
                assert(rest[j] == time[j - rank.len() - 1]);
            }
        }
    }
}

/// The text of a store begins with the line of its first entry.
pub proof fn lemma_saved_first(store: Seq<EntryView>)
    requires
        store.len() > 0,
    ensures
        saved(store) == line_text(store.first()) + seq!['\n'] + saved(store.drop_first()),
    decreases store.len(),
{
    if store.len() == 1 {
        assert(store.drop_last() =~= Seq::<EntryView>::empty());
        assert(store.drop_first() =~= Seq::<EntryView>::empty());
        assert(saved(store) =~= line_text(store.first()) + seq!['\n'] + saved(store.drop_first()));
    } else {
        lemma_saved_first(store.drop_last());
        assert(store.drop_last().drop_first() =~= store.drop_first().drop_last());
        assert(store.drop_last().first() == store.first());
        assert(store.drop_first().last() == store.last());
        assert(saved(store) =~= line_text(store.first()) + seq!['\n'] + saved(store.drop_first()));
    }
}

/// Loading the text of `entries` into a store that has none of their paths
/// puts them behind the store's own, in their order.
pub proof fn lemma_load_saved(store: Seq<EntryView>, entries: Seq<EntryView>)
    requires
        storable(entries),
        distinct_paths(store + entries),
    ensures
        loaded(store, saved(entries)) == store + entries,
    decreases entries.len(),
{
    if entries.len() == 0 {
        assert(store + entries =~= store);
    } else {
        let first = entries.first();
        let others = entries.drop_first();
        let line = line_text(first);
        let text = saved(entries);
        lemma_saved_first(entries);
        lemma_line_round_trip(first);
        assert(text =~= line + seq!['\n'] + saved(others));
        assert forall|i: int| 0 <= i < line.len() implies #[trigger] text[i] != '\n' by {
            assert(text[i] == line[i]);
        }
        assert(text[line.len() as int] == '\n');
        lemma_first_index(text, '\n', line.len() as int);
        assert(text.take(line.len() as int) =~= line);
        assert(first_line(text) == line);
        assert(after_first_line(text) =~= saved(others));
        let all = store + entries;
        assert(!has_path(store, first.path)) by {
            if has_path(store, first.path) {
                let i = choose|i: int| 0 <= i < store.len() && (#[trigger] store[i]).path == first.path;
                assert(all[i] == store[i]);
                assert(all[store.len() as int] == first);
            }
        }
        let next = store.push(first);
        assert(next + others =~= all);
        assert forall|i: int| 0 <= i < others.len() implies is_plain((#[trigger] others[i]).path)
            && others[i].rank <= u64::MAX && others[i].time <= u64::MAX by {
            assert(others[i] == entries[i + 1]);
        }
        lemma_load_saved(next, others);
    }
}

/// A store that is saved and loaded into an empty store comes back as it
/// was: the same entries in the same order, each with its path, rank and
/// time.
pub proof fn lemma_round_trip(store: Seq<EntryView>)
    requires
        storable(store),
        distinct_paths(store),
    ensures
        loaded(Seq::empty(), saved(store)) == store,
{
    assert(Seq::<EntryView>::empty() + store =~= store);
    lemma_load_saved(Seq::empty(), store);
}

} // verus!
