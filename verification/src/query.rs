//! Queries: which entries of the store a query selects, and the order in
//! which they come out.
//!
//! The highest score comes first. Entries with equal scores come out in the
//! order in which they stand in the store.

use crate::database::{distinct_paths, lemma_position, position, views, ZDatabase};
use crate::entry::{frecency_of, DirEntry, EntryView};
use crate::matcher::{accepts, are_words_of, lemma_words_decide, lower_words, selects};
use crate::text::{lower_chars, lowercased, some_text};
use vstd::prelude::*;

verus! {

/// The order in which a query's matches come out.
#[derive(Clone, Copy, Debug, PartialEq, Eq, Structural)]
pub enum Ranking {
    /// By score, which weighs rank against the time since the last visit.
    Frecency,
    /// By rank alone.
    Rank,
    /// By the time of the last visit alone.
    Time,
}

/// What an entry counts for under a ranking.
pub open spec fn score(entry: EntryView, ranking: Ranking, now: nat) -> int {
    match ranking {
        Ranking::Frecency => frecency_of(entry.rank, entry.time, now),
        Ranking::Rank => entry.rank as int,
        Ranking::Time => entry.time as int,
    }
}

/// `a` comes out before `b`: it counts for more, or for as much and stands
/// earlier in the store.
pub open spec fn precedes(
    s: Seq<EntryView>,
    a: EntryView,
    b: EntryView,
    ranking: Ranking,
    now: nat,
) -> bool {
    ||| score(a, ranking, now) > score(b, ranking, now)
    ||| score(a, ranking, now) == score(b, ranking, now) && position(s, a.path) < position(
        s,
        b.path,
    )
}

/// `out` is the answer to a query: the entries of the store that the query
/// selects, each once, the highest score first, and among equal scores the
/// one that stands first in the store.
pub open spec fn is_answer(
    out: Seq<EntryView>,
    s: Seq<EntryView>,
    pattern: Seq<char>,
    dir: Option<Seq<char>>,
    ranking: Ranking,
    now: nat,
) -> bool {
    &&& forall|k: int|
        0 <= k < out.len() ==> s.contains(#[trigger] out[k]) && selects(out[k].path, pattern, dir)
    &&& forall|i: int|
        0 <= i < s.len() && selects((#[trigger] s[i]).path, pattern, dir) ==> out.contains(s[i])
    &&& forall|k: int, l: int|
        0 <= k < l < out.len() ==> precedes(s, #[trigger] out[k], #[trigger] out[l], ranking, now)
}

/// A candidate `(score, index)` comes out before another: its score is
/// higher, or equal with the lower index.
pub open spec fn comes_first(a: (u64, usize), b: (u64, usize)) -> bool {
    a.0 > b.0 || (a.0 == b.0 && a.1 < b.1)
}

/// The candidates stand in the order in which they come out.
pub open spec fn in_order(order: Seq<(u64, usize)>) -> bool {
    forall|k: int, l: int|
        0 <= k < l < order.len() ==> comes_first(#[trigger] order[k], #[trigger] order[l])
}

/// What `entry` counts for under `ranking` at the instant `now`.
pub fn key_of(entry: &DirEntry, ranking: Ranking, now: u64) -> (key: u64)
    ensures
        key == score(entry@, ranking, now as nat),
{
    match ranking {
        Ranking::Frecency => entry.frecency(now) as u64,
        Ranking::Rank => entry.rank.micros,
        Ranking::Time => entry.time,
    }
}

/// Puts the candidate `(key, index)` into `order`, behind every candidate
/// with its score or a higher one.
fn place(order: &mut Vec<(u64, usize)>, key: u64, index: usize) -> (at: usize)
    requires
        in_order(old(order)@),
        forall|k: int| 0 <= k < old(order)@.len() ==> (#[trigger] old(order)@[k]).1 < index,
    ensures
        at <= old(order)@.len(),
        final(order)@ == old(order)@.insert(at as int, (key, index)),
        in_order(final(order)@),
{
    let mut at: usize = 0;
    while at < order.len() && order[at].0 >= key
        invariant
            at <= order.len(),
            forall|k: int| 0 <= k < at ==> (#[trigger] order@[k]).0 >= key,
        decreases order.len() - at,
    {
        at += 1;
    }
    let ghost before = order@;
    order.insert(at, (key, index));
    proof {
        let after = order@;
        assert forall|k: int, l: int| 0 <= k < l < after.len() implies comes_first(
            #[trigger] after[k],
            #[trigger] after[l],
        ) by {
            if l < at {
                assert(after[k] == before[k] && after[l] == before[l]);
            } else if l == at {
                assert(after[k] == before[k]);
            } else if k < at {
                assert(after[k] == before[k] && after[l] == before[l - 1]);
            } else if k == at {
                assert(after[l] == before[l - 1]);
                if at < l - 1 {
                    assert(comes_first(before[at as int], before[l - 1]));
                }
            } else {
                assert(after[k] == before[k - 1] && after[l] == before[l - 1]);
            }
        }
    }
    at
}

impl ZDatabase {
    /// The entries that a query selects, in the order of `ranking` at the
    /// instant `now`. The query is the `pattern` and, if there is one, the
    /// directory under which a match has to lie.
    pub fn find(
        &self,
        pattern: &str,
        current_dir: Option<&str>,
        ranking: Ranking,
        now: u64,
    ) -> (out: Vec<DirEntry>)
        ensures
            is_answer(views(out@), self@, pattern@, some_text(current_dir), ranking, now as nat),
    {
        let entries = self.entries();
        let ghost store = self@;
        let ghost dir: Option<Seq<char>> = some_text(current_dir);
        let words = lower_words(pattern);
        let under: Option<Vec<char>> = match current_dir {
            Some(d) => Some(lower_chars(d)),
            None => None,
        };
        let mut order: Vec<(u64, usize)> = Vec::new();
        let mut i: usize = 0;
        while i < entries.len()
            invariant
                i <= entries.len(),
                store == views(entries@),
                distinct_paths(store),
                are_words_of(words@, pattern@),
                match dir {
                    Some(d) => under matches Some(u) && u@ == lowercased(d),
                    None => under is None,
                },
                in_order(order@),
                forall|k: int|
                    0 <= k < order.len() ==> {
                        &&& (#[trigger] order[k]).1 < i
                        &&& selects(store[order[k].1 as int].path, pattern@, dir)
                        &&& order[k].0 == score(store[order[k].1 as int], ranking, now as nat)
                    },
                forall|j: int|
                    0 <= j < i && selects((#[trigger] store[j]).path, pattern@, dir) ==> exists|
                        k: int,
                    |
                        0 <= k < order.len() && (#[trigger] order[k]).1 == j,
            decreases entries.len() - i,
        {
            let entry = &entries[i];
            let lower = lower_chars(entry.path.as_str());
            proof {
                lemma_words_decide(entry.path@, pattern@, words@);
            }
            if accepts(&lower, &words, &under) {
                let ghost before = order@;
                let key = key_of(entry, ranking, now);
                let at = place(&mut order, key, i);
                proof {
                    assert forall|k: int| 0 <= k < order.len() implies {
                        &&& (#[trigger] order[k]).1 < i + 1
                        &&& selects(store[order[k].1 as int].path, pattern@, dir)
                        &&& order[k].0 == score(store[order[k].1 as int], ranking, now as nat)
                    } by {
                        if k < at {
                            assert(order[k] == before[k]);
                        } else if k > at {
                            assert(order[k] == before[k - 1]);
                        }
                    }
                    assert forall|j: int|
                        0 <= j < i + 1 && selects(
                            (#[trigger] store[j]).path,
                            pattern@,
                            dir,
                        ) implies exists|k: int|
                        0 <= k < order.len() && (#[trigger] order[k]).1 == j by {
                        if j < i {
                            let k = choose|k: int|
                                0 <= k < before.len() && (#[trigger] before[k]).1 == j;
                            if k < at {
                                assert(order[k] == before[k]);
                            } else {
                                assert(order[k + 1] == before[k]);
                            }
                        } else {
                            assert(order[at as int].1 == j);
                        }
                    }
                }
            }
            i += 1;
        }
        let mut out: Vec<DirEntry> = Vec::new();
        let mut k: usize = 0;
        while k < order.len()
            invariant
                k <= order.len(),
                out.len() == k,
                store == views(entries@),
                distinct_paths(store),
                forall|j: int| 0 <= j < order.len() ==> (#[trigger] order[j]).1 < entries.len(),
                forall|j: int| 0 <= j < k ==> (#[trigger] out[j])@ == store[order[j].1 as int],
            decreases order.len() - k,
        {
            out.push(entries[order[k].1].clone());
            k += 1;
        }
        proof {
            let found = views(out@);
            assert forall|k: int| 0 <= k < found.len() implies store.contains(#[trigger] found[k])
                && selects(found[k].path, pattern@, dir) by {
                assert(found[k] == store[order[k].1 as int]);
            }
            assert forall|i: int|
                0 <= i < store.len() && selects(
                    (#[trigger] store[i]).path,
                    pattern@,
                    dir,
                ) implies found.contains(store[i]) by {
                let k = choose|k: int| 0 <= k < order.len() && (#[trigger] order[k]).1 == i;
                assert(found[k] == store[i]);
            }
            assert forall|k: int, l: int| 0 <= k < l < found.len() implies precedes(
                store,
                #[trigger] found[k],
                #[trigger] found[l],
                ranking,
                now as nat,
            ) by {
                assert(comes_first(order[k], order[l]));
                lemma_position(store, order[k].1 as int);
                lemma_position(store, order[l].1 as int);
            }
        }
        out
    }

    /// The entries that the query selects, the highest score first. With a
    /// directory, only entries under it are selected.
    pub fn find_matches(
        &self,
        pattern: &str,
        current_dir: Option<&str>,
        now: u64,
    ) -> (out: Vec<DirEntry>)
        ensures
            is_answer(
                views(out@),
                self@,
                pattern@,
                some_text(current_dir),
                Ranking::Frecency,
                now as nat,
            ),
    {
        self.find(pattern, current_dir, Ranking::Frecency, now)
    }

    /// The entries that the pattern selects, the highest rank first. The
    /// instant of the query plays no part.
    pub fn find_by_rank(&self, pattern: &str) -> (out: Vec<DirEntry>)
        ensures
            forall|now: nat| #[trigger]
                is_answer(views(out@), self@, pattern@, None, Ranking::Rank, now),
    {
        let out = self.find(pattern, None, Ranking::Rank, 0);
        proof {
            assert forall|now: nat| #[trigger]
                is_answer(views(out@), self@, pattern@, None, Ranking::Rank, now) by {
                lemma_rank_and_time_ignore_the_instant(
                    views(out@),
                    self@,
                    pattern@,
                    None,
                    Ranking::Rank,
                    0,
                    now,
                );
            }
        }
        out
    }

    /// The entries that the pattern selects, the latest visit first. The
    /// instant of the query plays no part.
    pub fn find_by_time(&self, pattern: &str) -> (out: Vec<DirEntry>)
        ensures
            forall|now: nat| #[trigger]
                is_answer(views(out@), self@, pattern@, None, Ranking::Time, now),
    {
        let out = self.find(pattern, None, Ranking::Time, 0);
        proof {
            assert forall|now: nat| #[trigger]
                is_answer(views(out@), self@, pattern@, None, Ranking::Time, now) by {
                lemma_rank_and_time_ignore_the_instant(
                    views(out@),
                    self@,
                    pattern@,
                    None,
                    Ranking::Time,
                    0,
                    now,
                );
            }
        }
        out
    }
}

/// Under the rankings by rank and by time the instant of the query plays no
/// part: what answers a query at one instant answers it at every other.
pub proof fn lemma_rank_and_time_ignore_the_instant(
    out: Seq<EntryView>,
    s: Seq<EntryView>,
    pattern: Seq<char>,
    dir: Option<Seq<char>>,
    ranking: Ranking,
    now: nat,
    later: nat,
)
    requires
        ranking != Ranking::Frecency,
        is_answer(out, s, pattern, dir, ranking, now),
    ensures
        is_answer(out, s, pattern, dir, ranking, later),
{
    assert forall|k: int, l: int| 0 <= k < l < out.len() implies precedes(
        s,
        #[trigger] out[k],
        #[trigger] out[l],
        ranking,
        later,
    ) by {
        assert(precedes(s, out[k], out[l], ranking, now));
    }
}

/// Two answers to one query agree in their first `n` entries.
proof fn lemma_answers_agree(
    a: Seq<EntryView>,
    b: Seq<EntryView>,
    s: Seq<EntryView>,
    pattern: Seq<char>,
    dir: Option<Seq<char>>,
    ranking: Ranking,
    now: nat,
    n: int,
)
    requires
        is_answer(a, s, pattern, dir, ranking, now),
        is_answer(b, s, pattern, dir, ranking, now),
        0 <= n <= a.len(),
        n <= b.len(),
    ensures
        forall|j: int| 0 <= j < n ==> a[j] == b[j],
    decreases n,
{
    if n > 0 {
        lemma_answers_agree(a, b, s, pattern, dir, ranking, now, n - 1);
        let j = n - 1;
        assert(s.contains(a[j]));
        let in_b = choose|m: int| 0 <= m < b.len() && b[m] == a[j];
        assert(s.contains(b[j]));
        let in_a = choose|m: int| 0 <= m < a.len() && a[m] == b[j];
        if in_b < j {
            assert(precedes(s, a[in_b], a[j], ranking, now));
        } else if in_b > j {
            assert(precedes(s, b[j], b[in_b], ranking, now));
            if in_a < j {
                assert(precedes(s, b[in_a], b[j], ranking, now));
            } else if in_a > j {
                assert(precedes(s, a[j], a[in_a], ranking, now));
            }
        }
    }
}

/// The ranking orders the answer and selects nothing: the answers to one
/// query under two rankings, at whatever instants, hold the same entries.
/// With a directory, every entry of either lies under it.
pub proof fn lemma_rankings_select_alike(
    a: Seq<EntryView>,
    b: Seq<EntryView>,
    s: Seq<EntryView>,
    pattern: Seq<char>,
    dir: Option<Seq<char>>,
    first: Ranking,
    second: Ranking,
    now: nat,
    then: nat,
)
    requires
        is_answer(a, s, pattern, dir, first, now),
        is_answer(b, s, pattern, dir, second, then),
    ensures
        forall|entry: EntryView| a.contains(entry) == b.contains(entry),
        a.len() == b.len(),
        forall|k: int| 0 <= k < a.len() ==> selects((#[trigger] a[k]).path, pattern, dir),
{
    assert forall|entry: EntryView| a.contains(entry) == b.contains(entry) by {
        if a.contains(entry) {
            let k = choose|k: int| 0 <= k < a.len() && a[k] == entry;
            assert(s.contains(a[k]));
            let i = choose|i: int| 0 <= i < s.len() && s[i] == entry;
            assert(b.contains(s[i]));
        }
        if b.contains(entry) {
            let k = choose|k: int| 0 <= k < b.len() && b[k] == entry;
            assert(s.contains(b[k]));
            let i = choose|i: int| 0 <= i < s.len() && s[i] == entry;
            assert(a.contains(s[i]));
        }
    }
    assert forall|k: int, l: int| 0 <= k < a.len() && 0 <= l < a.len() && k != l implies a[k]
        != a[l] by {
        if k < l {
            assert(precedes(s, a[k], a[l], first, now));
        } else {
            assert(precedes(s, a[l], a[k], first, now));
        }
    }
    assert forall|k: int, l: int| 0 <= k < b.len() && 0 <= l < b.len() && k != l implies b[k]
        != b[l] by {
        if k < l {
            assert(precedes(s, b[k], b[l], second, then));
        } else {
            assert(precedes(s, b[l], b[k], second, then));
        }
    }
    assert(a.to_set() =~= b.to_set());
    a.unique_seq_to_set();
    b.unique_seq_to_set();
}

/// A query has one answer: two sequences that both answer it are equal.
pub proof fn lemma_answer_unique(
    a: Seq<EntryView>,
    b: Seq<EntryView>,
    s: Seq<EntryView>,
    pattern: Seq<char>,
    dir: Option<Seq<char>>,
    ranking: Ranking,
    now: nat,
)
    requires
        is_answer(a, s, pattern, dir, ranking, now),
        is_answer(b, s, pattern, dir, ranking, now),
    ensures
        a == b,
{
    if a.len() <= b.len() {
        lemma_answers_agree(a, b, s, pattern, dir, ranking, now, a.len() as int);
        if a.len() < b.len() {
            let extra = b[a.len() as int];
            assert(s.contains(extra));
            let m = choose|m: int| 0 <= m < a.len() && a[m] == extra;
            assert(precedes(s, b[m], b[a.len() as int], ranking, now));
        }
    } else {
        lemma_answers_agree(a, b, s, pattern, dir, ranking, now, b.len() as int);
        let extra = a[b.len() as int];
        assert(s.contains(extra));
        let m = choose|m: int| 0 <= m < b.len() && b[m] == extra;
        assert(precedes(s, a[m], a[b.len() as int], ranking, now));
    }
    assert(a =~= b);
}

/// An answer holds no entry twice. To a query that selects every entry of a
/// store without repeated paths, the answer has as many entries as the
/// store.
pub proof fn lemma_answer_to_all(
    out: Seq<EntryView>,
    s: Seq<EntryView>,
    pattern: Seq<char>,
    dir: Option<Seq<char>>,
    ranking: Ranking,
    now: nat,
)
    requires
        distinct_paths(s),
        is_answer(out, s, pattern, dir, ranking, now),
        forall|i: int| 0 <= i < s.len() ==> selects((#[trigger] s[i]).path, pattern, dir),
    ensures
        out.no_duplicates(),
        out.len() == s.len(),
{
    assert forall|k: int, l: int| 0 <= k < out.len() && 0 <= l < out.len() && k != l implies out[k]
        != out[l] by {
        if k < l {
            assert(precedes(s, out[k], out[l], ranking, now));
        } else {
            assert(precedes(s, out[l], out[k], ranking, now));
        }
    }
    assert forall|i: int, j: int| 0 <= i < s.len() && 0 <= j < s.len() && i != j implies s[i]
        != s[j] by {
        if i < j {
            assert(s[i].path != s[j].path);
        } else {
            assert(s[j].path != s[i].path);
        }
    }
    assert(out.to_set() =~= s.to_set()) by {
        assert forall|e: EntryView| out.to_set().contains(e) == s.to_set().contains(e) by {
            if out.contains(e) {
                let k = choose|k: int| 0 <= k < out.len() && out[k] == e;
                assert(s.contains(out[k]));
            }
            if s.contains(e) {
                let i = choose|i: int| 0 <= i < s.len() && s[i] == e;
                assert(out.contains(s[i]));
            }
        }
    }
    out.unique_seq_to_set();
    s.unique_seq_to_set();
}

} // verus!
