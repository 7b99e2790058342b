//! What an invocation does: the decisions between reading the command line
//! and printing the result.
//!
//! The caller reads the flags, the clock and the working directory, and asks
//! the file system whether a directory exists; the functions here say what
//! follows from each.

use crate::database::{added, views, without, ZDatabase};
use crate::query::{is_answer, Ranking};
use crate::entry::{frecency_of, DirEntry, EntryView};
use crate::numbers::{decimal, push_decimal, push_rank, rank_text};
use crate::text::some_text;
use vstd::prelude::*;
use vstd::string::StringExecFns;

verus! {

/// The width of the score and rank columns of a listing.
pub const COLUMN_WIDTH: usize = 10;

/// What the command line holds.
#[derive(Debug)]
pub struct Flags {
    /// The query; empty if none was given.
    pub pattern: String,
    /// List the matches instead of going to the best.
    pub list: bool,
    /// Rank the matches by rank alone.
    pub rank: bool,
    /// Rank the matches by the time of the last visit alone.
    pub time: bool,
    /// Match only under the working directory.
    pub current: bool,
    /// Print the best match and leave the store as it is.
    pub echo: bool,
    /// Forget the working directory.
    pub exclude: bool,
    /// Record a visit to the working directory.
    pub add: bool,
}

/// What an invocation is about.
#[derive(Clone, Copy, Debug, PartialEq, Eq, Structural)]
pub enum Task {
    /// Record a visit to the working directory.
    Add,
    /// Forget the working directory.
    Remove,
    /// Say how the program is used: there is nothing to look for.
    Usage,
    /// Look for the directories that match the pattern.
    Search,
}

/// What follows from the matches of a search.
#[derive(Debug)]
pub enum Step {
    /// Print a line for every match.
    List,
    /// Print the path of the best match.
    Echo { path: String },
    /// Find out whether the best match still exists, then `settle`.
    Probe { path: String },
    /// Say that nothing matches.
    NoMatch,
    /// Nothing is left to do.
    Nothing,
}

/// How an invocation ends.
#[derive(Clone, Copy, Debug, PartialEq, Eq, Structural)]
pub enum Outcome {
    /// The best match exists: its path is printed and the visit recorded.
    Visited,
    /// The best match is gone from the disk: it is forgotten and reported.
    Stale,
}

/// The task of an invocation: adding comes before forgetting, forgetting
/// before searching, and a search needs a pattern or the wish for a list.
pub open spec fn task_of(add: bool, exclude: bool, list: bool, pattern: Seq<char>) -> Task {
    if add {
        Task::Add
    } else if exclude {
        Task::Remove
    } else if pattern.len() == 0 && !list {
        Task::Usage
    } else {
        Task::Search
    }
}

/// The ranking of a search: by rank if asked for, else by time if asked for,
/// else by score.
pub open spec fn ranking_of(rank: bool, time: bool) -> Ranking {
    if rank {
        Ranking::Rank
    } else if time {
        Ranking::Time
    } else {
        Ranking::Frecency
    }
}

/// The directory under which a search matches: the working directory, if
/// the flags restrict the search. The restriction holds under every
/// ranking.
pub open spec fn restriction_of(current: bool, dir: Option<Seq<char>>) -> Option<Seq<char>> {
    if current {
        dir
    } else {
        None
    }
}

/// A step as plain values.
pub enum StepView {
    List,
    Echo { path: Seq<char> },
    Probe { path: Seq<char> },
    NoMatch,
    Nothing,
}

/// What follows from the matches `found`: a list if asked for; else the best
/// match, the first of `found`, is echoed if asked for and probed if not;
/// without a match, a pattern that is not empty has found nothing.
pub open spec fn step_of(
    list: bool,
    echo: bool,
    pattern: Seq<char>,
    found: Seq<EntryView>,
) -> StepView {
    if list {
        StepView::List
    } else if found.len() > 0 {
        if echo {
            StepView::Echo { path: found[0].path }
        } else {
            StepView::Probe { path: found[0].path }
        }
    } else if pattern.len() > 0 {
        StepView::NoMatch
    } else {
        StepView::Nothing
    }
}

impl View for Step {
    type V = StepView;

    open spec fn view(&self) -> StepView {
        match self {
            Step::List => StepView::List,
            Step::Echo { path } => StepView::Echo { path: path@ },
            Step::Probe { path } => StepView::Probe { path: path@ },
            Step::NoMatch => StepView::NoMatch,
            Step::Nothing => StepView::Nothing,
        }
    }
}

impl Step {
    /// The exit code of an invocation that ends with this step: one if
    /// nothing matched, else zero.
    pub fn exit_code(&self) -> (code: i32)
        ensures
            code == (if self is NoMatch {
                1int
            } else {
                0int
            }),
    {
        match self {
            Step::NoMatch => 1,
            _ => 0,
        }
    }
}

impl Outcome {
    /// The exit code of an invocation that ends so: one if the best match
    /// was gone, else zero.
    pub fn exit_code(&self) -> (code: i32)
        ensures
            code == (if self is Stale {
                1int
            } else {
                0int
            }),
    {
        match self {
            Outcome::Stale => 1,
            Outcome::Visited => 0,
        }
    }
}

impl Flags {
    /// The flags of a plain query: the pattern, and nothing else asked for.
    pub fn new(pattern: String) -> (flags: Flags)
        ensures
            flags.pattern == pattern,
            !flags.list && !flags.rank && !flags.time && !flags.current,
            !flags.echo && !flags.exclude && !flags.add,
    {
        Flags {
            pattern,
            list: false,
            rank: false,
            time: false,
            current: false,
            echo: false,
            exclude: false,
            add: false,
        }
    }

    /// What the invocation is about.
    pub fn task(&self) -> (task: Task)
        ensures
            task == task_of(self.add, self.exclude, self.list, self.pattern@),
    {
        if self.add {
            Task::Add
        } else if self.exclude {
            Task::Remove
        } else if self.pattern.as_str().unicode_len() == 0 && !self.list {
            Task::Usage
        } else {
            Task::Search
        }
    }

    /// The ranking that the flags ask for.
    pub fn ranking(&self) -> (ranking: Ranking)
        ensures
            ranking == ranking_of(self.rank, self.time),
    {
        if self.rank {
            Ranking::Rank
        } else if self.time {
            Ranking::Time
        } else {
            Ranking::Frecency
        }
    }

    /// The matches of the search that the flags ask for, in its ranking, at
    /// the instant `now` and with the working directory `current_dir`. If
    /// the flags restrict the search, only entries under the working
    /// directory match, whatever the ranking.
    pub fn search(
        &self,
        db: &ZDatabase,
        current_dir: Option<&str>,
        now: u64,
    ) -> (found: Vec<DirEntry>)
        ensures
            is_answer(
                views(found@),
                db@,
                self.pattern@,
                restriction_of(self.current, some_text(current_dir)),
                ranking_of(self.rank, self.time),
                now as nat,
            ),
    {
        let dir = if self.current {
            current_dir
        } else {
            None
        };
        db.find(self.pattern.as_str(), dir, self.ranking(), now)
    }

    /// What follows from the matches `found` of the search.
    pub fn step(&self, found: &Vec<DirEntry>) -> (step: Step)
        ensures
            step@ == step_of(self.list, self.echo, self.pattern@, views(found@)),
    {
        if self.list {
            Step::List
        } else if found.len() > 0 {
            if self.echo {
                Step::Echo { path: found[0].path.clone() }
            } else {
                Step::Probe { path: found[0].path.clone() }
            }
        } else if self.pattern.as_str().unicode_len() > 0 {
            Step::NoMatch
        } else {
            Step::Nothing
        }
    }
}

/// Ends an invocation whose best match is at `path`. If the directory is
/// there the visit is recorded; if it is gone the entry is forgotten.
pub fn settle(db: &mut ZDatabase, path: &str, there: bool, now: u64) -> (outcome: Outcome)
    ensures
        there ==> outcome == Outcome::Visited && final(db)@ == added(
            old(db)@,
            path@,
            now as nat,
        ),
        !there ==> outcome == Outcome::Stale && final(db)@ == without(old(db)@, path@),
        final(db).file() == old(db).file(),
{
    if there {
        db.add(path, now);
        Outcome::Visited
    } else {
        db.remove(path);
        Outcome::Stale
    }
}

/// `text`, filled with blanks at its end up to `width` characters.
pub open spec fn padded(text: Seq<char>, width: nat) -> Seq<char> {
    text + filling(text.len(), width)
}

/// The line of an entry in a listing: its score and its rank, each in a
/// column of ten characters, and its path.
pub open spec fn listing_text(entry: EntryView, now: nat) -> Seq<char> {
    padded(decimal(frecency_of(entry.rank, entry.time, now) as nat), COLUMN_WIDTH as nat)
        + seq![' '] + padded(rank_text(entry.rank), COLUMN_WIDTH as nat) + seq![' '] + entry.path
}

/// The blanks that fill a column of `width` characters behind a text of
/// `written` characters.
pub open spec fn filling(written: nat, width: nat) -> Seq<char> {
    Seq::new(
        (if written >= width {
            0
        } else {
            width - written
        }) as nat,
        |i: int| ' ',
    )
}

/// Appends to `out` the blanks that fill a column of `width` characters
/// behind a text of `written` characters.
fn pad(out: &mut String, written: usize, width: usize)
    ensures
        final(out)@ == old(out)@ + filling(written as nat, width as nat),
{
    let mut n: usize = written;
    assert(out@ =~= old(out)@ + Seq::new(0, |i: int| ' '));
    while n < width
        invariant
            written <= n <= width || (written >= width && n == written),
            out@ == old(out)@ + Seq::new((n - written) as nat, |i: int| ' '),
        decreases width - n,
    {
        out.push(' ');
        n += 1;
        assert(out@ =~= old(out)@ + Seq::new((n - written) as nat, |i: int| ' '));
    }
}

/// The line of `entry` in a listing made at the instant `now`.
pub fn listing_line(entry: &DirEntry, now: u64) -> (line: String)
    ensures
        line@ == listing_text(entry@, now as nat),
{
    let mut score = String::new();
    push_decimal(&mut score, entry.frecency(now) as u64);
    let score_len = score.as_str().unicode_len();
    pad(&mut score, score_len, COLUMN_WIDTH);
    let mut rank = String::new();
    push_rank(&mut rank, entry.rank);
    let rank_len = rank.as_str().unicode_len();
    pad(&mut rank, rank_len, COLUMN_WIDTH);
    let mut line = score;
    line.push(' ');
    line.append(rank.as_str());
    line.push(' ');
    line.append(entry.path.as_str());
    proof {
        let s = decimal(frecency_of(entry@.rank, entry@.time, now as nat) as nat);
        let r = rank_text(entry@.rank);
        assert(Seq::<char>::empty() + s =~= s);
        assert(Seq::<char>::empty() + r =~= r);
        assert(line@ =~= listing_text(entry@, now as nat));
    }
    line
}

/// What is said when there is nothing to look for.
pub fn usage_text() -> (text: String)
    ensures
        text@ == "Usage: zjyo [options] <pattern>"@,
{
    "Usage: zjyo [options] <pattern>".to_owned()
}

/// What is said when nothing matches `pattern`.
pub fn no_match_text(pattern: &str) -> (text: String)
    ensures
        text@ == "z: no matches found for: "@ + pattern@,
{
    let mut text = "z: no matches found for: ".to_owned();
    text.append(pattern);
    text
}

/// What is said when the directory at `path` is gone.
pub fn stale_text(path: &str) -> (text: String)
    ensures
        text@ == "z: directory no longer exists: "@ + path@,
{
    let mut text = "z: directory no longer exists: ".to_owned();
    text.append(path);
    text
}

/// What an invocation leaves for its caller to do.
#[derive(Debug)]
pub struct Report {
    /// The lines for the standard output.
    pub output: Vec<String>,
    /// The lines for the error stream.
    pub errors: Vec<String>,
    /// The exit code.
    pub code: i32,
    /// Whether the store is to be written back to its file.
    pub save: bool,
}

/// A report as plain values.
pub struct ReportView {
    pub output: Seq<Seq<char>>,
    pub errors: Seq<Seq<char>>,
    pub code: int,
    pub save: bool,
}

/// The texts of some strings.
pub open spec fn texts(lines: Seq<String>) -> Seq<Seq<char>> {
    lines.map_values(|line: String| line@)
}

impl View for Report {
    type V = ReportView;

    open spec fn view(&self) -> ReportView {
        ReportView {
            output: texts(self.output@),
            errors: texts(self.errors@),
            code: self.code as int,
            save: self.save,
        }
    }
}

/// The report of an invocation that prints `output` and succeeds.
pub open spec fn printed(output: Seq<Seq<char>>, save: bool) -> ReportView {
    ReportView { output, errors: Seq::empty(), code: 0, save }
}

/// The report of an invocation that says `error` and ends with `code`.
pub open spec fn complained(error: Seq<char>, code: int, save: bool) -> ReportView {
    ReportView { output: Seq::empty(), errors: seq![error], code, save }
}

/// What an invocation reports and what it makes of the store, given the
/// matches `found` of its search, if it searches, and whether the best match
/// is `there` on the disk, if it asks.
///
/// A visit to the working directory or its removal needs the working
/// directory; without it nothing happens. The store is to be saved
/// whenever a visit was recorded or a path forgotten.
pub open spec fn run_of(
    flags: Flags,
    store: Seq<EntryView>,
    cwd: Option<Seq<char>>,
    now: nat,
    found: Seq<EntryView>,
    there: bool,
) -> (ReportView, Seq<EntryView>) {
    match task_of(flags.add, flags.exclude, flags.list, flags.pattern@) {
        Task::Add => match cwd {
            Some(dir) => (printed(Seq::empty(), true), added(store, dir, now)),
            None => (printed(Seq::empty(), false), store),
        },
        Task::Remove => match cwd {
            Some(dir) => (printed(Seq::empty(), true), without(store, dir)),
            None => (printed(Seq::empty(), false), store),
        },
        Task::Usage => (complained("Usage: zjyo [options] <pattern>"@, 0, false), store),
        Task::Search => match step_of(flags.list, flags.echo, flags.pattern@, found) {
            StepView::List => (
                printed(found.map_values(|entry: EntryView| listing_text(entry, now)), false),
                store,
            ),
            StepView::Echo { path } => (printed(seq![path], false), store),
            StepView::Probe { path } => if there {
                (printed(seq![path], true), added(store, path, now))
            } else {
                (
                    complained("z: directory no longer exists: "@ + path, 1, true),
                    without(store, path),
                )
            },
            StepView::NoMatch => (
                complained("z: no matches found for: "@ + flags.pattern@, 1, false),
                store,
            ),
            StepView::Nothing => (printed(Seq::empty(), false), store),
        },
    }
}

/// The probe says of the directory at `path` whether it is `there`.
pub open spec fn probe_says<F: Fn(&str) -> bool>(probe: F, path: Seq<char>, there: bool) -> bool {
    exists|asked: &str| asked@ == path && #[trigger] call_ensures(probe, (asked,), there)
}

/// What an invocation that searches has learnt: `found` answers its query,
/// and if the best match is probed, the probe says whether it is `there`.
/// An invocation that does not search learns nothing.
pub open spec fn learnt<F: Fn(&str) -> bool>(
    flags: Flags,
    store: Seq<EntryView>,
    cwd: Option<Seq<char>>,
    now: nat,
    probe: F,
    found: Seq<EntryView>,
    there: bool,
) -> bool {
    task_of(flags.add, flags.exclude, flags.list, flags.pattern@) == Task::Search ==> {
        &&& is_answer(
            found,
            store,
            flags.pattern@,
            restriction_of(flags.current, cwd),
            ranking_of(flags.rank, flags.time),
            now,
        )
        &&& step_of(flags.list, flags.echo, flags.pattern@, found) matches StepView::Probe { path }
            ==> probe_says(probe, path, there)
    }
}

/// One invocation: what the flags ask for is done to the store, at the
/// instant `now` and in the working directory `cwd`, and what is to be
/// printed comes back. Whether the best match still exists says `probe`,
/// which is asked at most once, and only where the answer decides.
pub fn run<F: Fn(&str) -> bool>(
    flags: &Flags,
    db: &mut ZDatabase,
    cwd: Option<&str>,
    now: u64,
    probe: F,
) -> (report: Report)
    requires
        forall|path: &str| call_requires(probe, (path,)),
    ensures
        final(db).file() == old(db).file(),
        exists|found: Seq<EntryView>, there: bool|
            learnt(*flags, old(db)@, some_text(cwd), now as nat, probe, found, there) && (
            report@,
            final(db)@,
        ) == #[trigger] run_of(*flags, old(db)@, some_text(cwd), now as nat, found, there),
{
    let ghost before = db@;
    let ghost dir: Option<Seq<char>> = some_text(cwd);
    let mut report = Report { output: Vec::new(), errors: Vec::new(), code: 0, save: false };
    assert(texts(report.output@) =~= Seq::<Seq<char>>::empty());
    assert(texts(report.errors@) =~= Seq::<Seq<char>>::empty());
    let ghost mut found_spec: Seq<EntryView> = Seq::empty();
    let ghost mut there_spec: bool = false;
    match flags.task() {
        Task::Add => {
            match cwd {
                Some(d) => {
                    db.add(d, now);
                    report.save = true;
                },
                None => {},
            }
        },
        Task::Remove => {
            match cwd {
                Some(d) => {
                    db.remove(d);
                    report.save = true;
                },
                None => {},
            }
        },
        Task::Usage => {
            report.errors.push(usage_text());
            assert(texts(report.errors@) =~= seq!["Usage: zjyo [options] <pattern>"@]);
        },
        Task::Search => {
            let found = flags.search(db, cwd, now);
            proof {
                found_spec = views(found@);
            }
            let step = flags.step(&found);
            match step {
                Step::List => {
                    let mut i: usize = 0;
                    while i < found.len()
                        invariant
                            i <= found.len(),
                            report.errors@.len() == 0,
                            report.code == 0,
                            !report.save,
                            texts(report.output@) == views(found@).take(i as int).map_values(
                                |entry: EntryView| listing_text(entry, now as nat),
                            ),
                        decreases found.len() - i,
                    {
                        let ghost lines = texts(report.output@);
                        let line = listing_line(&found[i], now);
                        report.output.push(line);
                        i += 1;
                        assert(texts(report.output@) =~= views(found@).take(i as int).map_values(
                            |entry: EntryView| listing_text(entry, now as nat),
                        )) by {
                            assert(texts(report.output@) =~= lines.push(line@));
                        }
                    }
                    assert(views(found@).take(found.len() as int) =~= views(found@));
                    assert(texts(report.errors@) =~= Seq::<Seq<char>>::empty());
                },
                Step::Echo { path } => {
                    report.output.push(path);
                    assert(texts(report.output@) =~= seq![path@]);
                },
                Step::Probe { path } => {
                    let there = probe(path.as_str());
                    proof {
                        there_spec = there;
                        assert(probe_says(probe, path@, there));
                    }
                    let outcome = settle(db, path.as_str(), there, now);
                    report.code = outcome.exit_code();
                    report.save = true;
                    if there {
                        report.output.push(path);
                        assert(texts(report.output@) =~= seq![path@]);
                    } else {
                        report.errors.push(stale_text(path.as_str()));
                        assert(texts(report.errors@) =~= seq![
                            "z: directory no longer exists: "@ + path@,
                        ]);
                    }
                },
                Step::NoMatch => {
                    report.errors.push(no_match_text(flags.pattern.as_str()));
                    report.code = 1;
                    assert(texts(report.errors@) =~= seq![
                        "z: no matches found for: "@ + flags.pattern@,
                    ]);
                },
                Step::Nothing => {},
            }
        },
    }
    proof {
        assert((report@, db@) == run_of(*flags, before, dir, now as nat, found_spec, there_spec));
    }
    report
}

} // verus!
