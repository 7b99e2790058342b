//! The store of remembered directories.
//!
//! The store keeps one entry for a path, in the order in which the paths
//! first came in. A visit raises an entry's rank; when the ranks together
//! pass a ceiling, every rank decays and entries that fall under one visit
//! are forgotten.

use crate::entry::{DirEntry, EntryView};
use crate::rank::{bumped, decayed, Rank, MICROS_PER_UNIT};
use vstd::prelude::*;

verus! {

/// The total of all ranks (9000 visits, in millionths) above which a visit
/// makes the store age.
pub const RANK_CEILING: u64 = 9_000_000_000;

/// The store holds an entry for `path`.
pub open spec fn has_path(s: Seq<EntryView>, path: Seq<char>) -> bool {
    exists|i: int| 0 <= i < s.len() && (#[trigger] s[i]).path == path
}

/// Where the store holds the entry for `path`, if it holds one.
pub open spec fn position(s: Seq<EntryView>, path: Seq<char>) -> int {
    choose|i: int| 0 <= i < s.len() && (#[trigger] s[i]).path == path
}

/// No two entries of the store have the same path.
pub open spec fn distinct_paths(s: Seq<EntryView>) -> bool {
    forall|i: int, j: int| 0 <= i < j < s.len() ==> (#[trigger] s[i]).path != (#[trigger] s[j]).path
}

/// The store after `entry` was put in: in the place of the entry with its
/// path, or at the end if there was none.
pub open spec fn put(s: Seq<EntryView>, entry: EntryView) -> Seq<EntryView> {
    if has_path(s, entry.path) {
        s.update(position(s, entry.path), entry)
    } else {
        s.push(entry)
    }
}

/// The store without the entry for `path`.
pub open spec fn without(s: Seq<EntryView>, path: Seq<char>) -> Seq<EntryView> {
    if has_path(s, path) {
        s.remove(position(s, path))
    } else {
        s
    }
}

/// The entry for `path` after a visit at `now`: one visit more than before,
/// or a first visit.
pub open spec fn visit(s: Seq<EntryView>, path: Seq<char>, now: nat) -> EntryView {
    EntryView {
        path,
        rank: if has_path(s, path) {
            bumped(s[position(s, path)].rank)
        } else {
            MICROS_PER_UNIT as nat
        },
        time: now,
    }
}

/// The sum of all ranks, in millionths.
pub open spec fn total_rank(s: Seq<EntryView>) -> nat
    decreases s.len(),
{
    if s.len() == 0 {
        0
    } else {
        total_rank(s.drop_last()) + s.last().rank
    }
}

/// The store after aging: every rank decayed, and only the entries kept whose
/// rank is still one visit or more.
pub open spec fn aged(s: Seq<EntryView>) -> Seq<EntryView>
    decreases s.len(),
{
    if s.len() == 0 {
        s
    } else {
        let rest = aged(s.drop_last());
        let last = s.last();
        if decayed(last.rank) >= MICROS_PER_UNIT {
            rest.push(EntryView { path: last.path, rank: decayed(last.rank), time: last.time })
        } else {
            rest
        }
    }
}

/// The store after a visit to `path` at `now`: the visit is recorded, and if
/// the ranks then pass the ceiling the store ages, once.
pub open spec fn added(s: Seq<EntryView>, path: Seq<char>, now: nat) -> Seq<EntryView> {
    let visited = put(s, visit(s, path, now));
    if total_rank(visited) > RANK_CEILING {
        aged(visited)
    } else {
        visited
    }
}

/// The entries as plain values.
pub open spec fn views(entries: Seq<DirEntry>) -> Seq<EntryView> {
    entries.map_values(|e: DirEntry| e@)
}

/// The remembered directories, and the file they are kept in.
pub struct ZDatabase {
    entries: Vec<DirEntry>,
    data_file: String,
}

impl View for ZDatabase {
    type V = Seq<EntryView>;

    closed spec fn view(&self) -> Seq<EntryView> {
        views(self.entries@)
    }
}

/// In a store without repeated paths, the entry at `i` is where `position`
/// says its path is.
pub proof fn lemma_position(s: Seq<EntryView>, i: int)
    requires
        distinct_paths(s),
        0 <= i < s.len(),
    ensures
        has_path(s, s[i].path),
        position(s, s[i].path) == i,
{
    let p = position(s, s[i].path);
    assert(0 <= p < s.len() && s[p].path == s[i].path);
    if p < i {
        assert(s[p].path != s[i].path);
    }
    if i < p {
        assert(s[i].path != s[p].path);
    }
}

/// Aging keeps the paths apart, and brings in no path: every path that is
/// left after aging was there before.
pub proof fn lemma_aged_distinct(s: Seq<EntryView>)
    requires
        distinct_paths(s),
    ensures
        distinct_paths(aged(s)),
        forall|k: int| 0 <= k < aged(s).len() ==> has_path(s, (#[trigger] aged(s)[k]).path),
    decreases s.len(),
{
    if s.len() > 0 {
        let init = s.drop_last();
        let last = s.last();
        lemma_aged_distinct(init);
        assert forall|k: int| 0 <= k < aged(init).len() implies has_path(
            s,
            (#[trigger] aged(init)[k]).path,
        ) && aged(init)[k].path != last.path by {
            let i = position(init, aged(init)[k].path);
            assert(has_path(init, aged(init)[k].path));
            assert(s[i] == init[i]);
            assert(s[i].path != s[s.len() - 1].path);
        }
        assert(s[s.len() - 1].path == last.path);
    }
}

/// After aging no rank is under one visit, and no entry has been added.
pub proof fn lemma_aged_ranks(s: Seq<EntryView>)
    ensures
        aged(s).len() <= s.len(),
        forall|k: int| 0 <= k < aged(s).len() ==> (#[trigger] aged(s)[k]).rank >= MICROS_PER_UNIT,
    decreases s.len(),
{
    if s.len() > 0 {
        lemma_aged_ranks(s.drop_last());
    }
}

/// An entry more adds its rank to the total.
pub proof fn lemma_total_push(s: Seq<EntryView>, entry: EntryView)
    ensures
        total_rank(s.push(entry)) == total_rank(s) + entry.rank,
{
    assert(s.push(entry).drop_last() =~= s);
}

/// Another entry in the place `i` changes the total by the difference of the
/// ranks.
pub proof fn lemma_total_update(s: Seq<EntryView>, i: int, entry: EntryView)
    requires
        0 <= i < s.len(),
    ensures
        total_rank(s.update(i, entry)) + s[i].rank == total_rank(s) + entry.rank,
        s[i].rank <= total_rank(s),
    decreases s.len(),
{
    let changed = s.update(i, entry);
    if i == s.len() - 1 {
        assert(changed.drop_last() =~= s.drop_last());
    } else {
        assert(changed.drop_last() =~= s.drop_last().update(i, entry));
        lemma_total_update(s.drop_last(), i, entry);
    }
}

/// A first visit, when the ranks then stay within the ceiling, puts the path
/// at the end of the store with the rank of one visit and the time of the
/// visit, and leaves the rest as it is.
pub proof fn lemma_add_new(s: Seq<EntryView>, path: Seq<char>, now: nat)
    requires
        !has_path(s, path),
        total_rank(s) + MICROS_PER_UNIT <= RANK_CEILING,
    ensures
        added(s, path, now) == s.push(
            EntryView { path, rank: MICROS_PER_UNIT as nat, time: now },
        ),
{
    lemma_total_push(s, visit(s, path, now));
}

/// A further visit, when the ranks then stay within the ceiling, raises the
/// rank of the path's entry by exactly one visit, sets its time to the time
/// of the visit, and leaves the rest as it is.
pub proof fn lemma_add_known(s: Seq<EntryView>, i: int, now: nat)
    requires
        distinct_paths(s),
        0 <= i < s.len(),
        total_rank(s) + MICROS_PER_UNIT <= RANK_CEILING,
    ensures
        added(s, s[i].path, now) == s.update(
            i,
            EntryView { path: s[i].path, rank: s[i].rank + MICROS_PER_UNIT as nat, time: now },
        ),
{
    lemma_position(s, i);
    lemma_total_update(s, i, visit(s, s[i].path, now));
}

/// A visit adds at most one entry, whether the store ages or not.
pub proof fn lemma_add_grows_by_one(s: Seq<EntryView>, path: Seq<char>, now: nat)
    ensures
        added(s, path, now).len() <= s.len() + 1,
{
    lemma_aged_ranks(put(s, visit(s, path, now)));
}

/// A visit to a store whose ranks are over the ceiling makes it age: after
/// it no entry has a rank under one visit, and at most one entry was added.
pub proof fn lemma_add_over_ceiling(s: Seq<EntryView>, path: Seq<char>, now: nat)
    requires
        total_rank(s) > RANK_CEILING,
    ensures
        added(s, path, now) == aged(put(s, visit(s, path, now))),
        added(s, path, now).len() <= s.len() + 1,
        forall|k: int|
            0 <= k < added(s, path, now).len() ==> (#[trigger] added(s, path, now)[k]).rank
                >= MICROS_PER_UNIT,
{
    let entry = visit(s, path, now);
    if has_path(s, path) {
        lemma_total_update(s, position(s, path), entry);
    } else {
        lemma_total_push(s, entry);
    }
    lemma_aged_ranks(put(s, entry));
}

/// The sum of the ranks of `entries`, in millionths.
fn total_of(entries: &Vec<DirEntry>) -> (total: u128)
    ensures
        total == total_rank(views(entries@)),
{
    let mut total: u128 = 0;
    let mut i: usize = 0;
    while i < entries.len()
        invariant
            i <= entries.len(),
            total == total_rank(views(entries@).take(i as int)),
            total <= i * u64::MAX,
        decreases entries.len() - i,
    {
        assert(views(entries@).take(i + 1).drop_last() == views(entries@).take(i as int));
        total = total + entries[i].rank.micros as u128;
        i += 1;
    }
    assert(views(entries@).take(entries.len() as int) == views(entries@));
    total
}

/// The entries after aging.
fn age(entries: &Vec<DirEntry>) -> (kept: Vec<DirEntry>)
    ensures
        views(kept@) == aged(views(entries@)),
{
    let mut kept: Vec<DirEntry> = Vec::new();
    let mut i: usize = 0;
    assert(views(kept@) =~= aged(views(entries@).take(0)));
    while i < entries.len()
        invariant
            i <= entries.len(),
            views(kept@) == aged(views(entries@).take(i as int)),
        decreases entries.len() - i,
    {
        let ghost before = views(kept@);
        assert(views(entries@).take(i + 1).drop_last() == views(entries@).take(i as int));
        let entry = &entries[i];
        let rank = entry.rank.decay();
        if rank.micros >= MICROS_PER_UNIT {
            let survivor = DirEntry::new(entry.path.clone(), rank, entry.time);
            kept.push(survivor);
            assert(views(kept@) =~= before.push(survivor@));
        }
        i += 1;
    }
    assert(views(entries@).take(entries.len() as int) == views(entries@));
    kept
}

impl ZDatabase {
    #[verifier::type_invariant]
    spec fn well_formed(self) -> bool {
        distinct_paths(views(self.entries@))
    }

    /// The path of the file that the store is kept in.
    pub closed spec fn file(&self) -> Seq<char> {
        self.data_file@
    }

    /// An empty store for the file at `data_file`.
    pub fn new(data_file: String) -> (db: Self)
        ensures
            db@ == Seq::<EntryView>::empty(),
            db.file() == data_file@,
    {
        let db = ZDatabase { entries: Vec::new(), data_file };
        assert(db@ =~= Seq::<EntryView>::empty());
        db
    }

    /// The path of the file that the store is kept in.
    pub fn data_file(&self) -> (path: &str)
        ensures
            path@ == self.file(),
    {
        self.data_file.as_str()
    }

    /// The number of entries.
    pub fn len(&self) -> (n: usize)
        ensures
            n == self@.len(),
            distinct_paths(self@),
    {
        proof {
            use_type_invariant(self);
        }
        self.entries.len()
    }

    /// The entries, in the store's order.
    pub fn entries(&self) -> (entries: &Vec<DirEntry>)
        ensures
            views(entries@) == self@,
            distinct_paths(self@),
    {
        proof {
            use_type_invariant(self);
        }
        &self.entries
    }

    /// Where the entry for `path` stands.
    fn index_of(&self, path: &str) -> (found: Option<usize>)
        ensures
            found is Some == has_path(self@, path@),
            found matches Some(i) ==> i < self@.len() && self@[i as int].path == path@ && position(
                self@,
                path@,
            ) == i,
    {
        proof {
            use_type_invariant(self);
        }
        let key = path.to_owned();
        let mut i: usize = 0;
        while i < self.entries.len()
            invariant
                i <= self.entries.len(),
                key@ == path@,
                distinct_paths(self@),
                forall|k: int| 0 <= k < i ==> (#[trigger] self@[k]).path != path@,
            decreases self.entries.len() - i,
        {
            if self.entries[i].path == key {
                proof {
                    assert(self@[i as int].path == path@);
                    lemma_position(self@, i as int);
                }
                return Some(i);
            }
            i += 1;
        }
        None
    }

    /// Tests whether the store holds an entry for `path`.
    pub fn contains_key(&self, path: &str) -> (b: bool)
        ensures
            b == has_path(self@, path@),
    {
        self.index_of(path).is_some()
    }

    /// The entry for `path`, if the store holds one.
    pub fn get(&self, path: &str) -> (found: Option<&DirEntry>)
        ensures
            found is Some == has_path(self@, path@),
            found matches Some(entry) ==> entry@ == self@[position(self@, path@)],
    {
        match self.index_of(path) {
            Some(i) => Some(&self.entries[i]),
            None => None,
        }
    }

    /// Puts `entry` into the store: in the place of the entry with its path,
    /// or at the end if there is none.
    pub fn insert(&mut self, entry: DirEntry)
        ensures
            final(self)@ == put(old(self)@, entry@),
            final(self).file() == old(self).file(),
            distinct_paths(final(self)@),
    {
        proof {
            use_type_invariant(&*self);
        }
        let ghost before = self@;
        let found = self.index_of(entry.path.as_str());
        let mut entries: Vec<DirEntry> = Vec::new();
        std::mem::swap(&mut entries, &mut self.entries);
        match found {
            Some(i) => {
                entries.set(i, entry);
                assert(views(entries@) =~= before.update(i as int, entry@));
            },
            None => {
                entries.push(entry);
                assert(views(entries@) =~= before.push(entry@));
            },
        }
        self.entries = entries;
    }

    /// Forgets the entry for `path`. Without such an entry nothing changes.
    pub fn remove(&mut self, path: &str)
        ensures
            final(self)@ == without(old(self)@, path@),
            !has_path(old(self)@, path@) ==> final(self)@ == old(self)@,
            final(self).file() == old(self).file(),
            distinct_paths(final(self)@),
    {
        proof {
            use_type_invariant(&*self);
        }
        let ghost before = self@;
        match self.index_of(path) {
            Some(i) => {
                let mut entries: Vec<DirEntry> = Vec::new();
                std::mem::swap(&mut entries, &mut self.entries);
                entries.remove(i);
                assert(views(entries@) =~= before.remove(i as int));
                self.entries = entries;
            },
            None => {},
        }
    }

    /// Records a visit to `path` at the instant `now`: the entry's rank goes
    /// up by one visit and its time becomes `now`, or a new entry comes in
    /// with the rank of one visit. If the ranks together then pass the
    /// ceiling, the store ages.
    pub fn add(&mut self, path: &str, now: u64)
        ensures
            final(self)@ == added(old(self)@, path@, now as nat),
            final(self).file() == old(self).file(),
            distinct_paths(final(self)@),
    {
        let rank = match self.index_of(path) {
            Some(i) => self.entries[i].rank.bump(),
            None => Rank::one(),
        };
        self.insert(DirEntry::new(path.to_owned(), rank, now));
        if total_of(&self.entries) > RANK_CEILING as u128 {
            let kept = age(&self.entries);
            proof {
                use_type_invariant(&*self);
                lemma_aged_distinct(self@);
            }
            self.entries = kept;
        }
    }
}

} // verus!
