use std::time::{SystemTime, UNIX_EPOCH};
use zjyo::cli::{
    listing_line, no_match_text, run, settle, stale_text, usage_text, Flags, Outcome, Step, Task,
};
use zjyo::database::ZDatabase;
use zjyo::query::Ranking;

/// What one invocation leaves behind.
struct Run {
    stdout: String,
    stderr: String,
    code: i32,
    data: String,
}

impl Run {
    fn success(&self) -> bool {
        self.code == 0
    }
}

fn now_secs() -> u64 {
    SystemTime::now().duration_since(UNIX_EPOCH).unwrap().as_secs()
}

fn lines(lines: &[String]) -> String {
    lines.iter().map(|line| format!("{}\n", line)).collect()
}

/// One invocation on the store text `data`, in the working directory `cwd`;
/// `on_disk` holds the directories that exist.
fn invoke(flags: &Flags, data: &str, cwd: &str, on_disk: &[&str]) -> Run {
    let mut db = ZDatabase::new("/tmp/test_zjyo_data".to_string());
    db.load(data);
    let report = run(flags, &mut db, Some(cwd), now_secs(), |path: &str| on_disk.contains(&path));
    Run {
        stdout: lines(&report.output),
        stderr: lines(&report.errors),
        code: report.code,
        data: if report.save { db.save() } else { data.to_string() },
    }
}

fn flags(pattern: &str) -> Flags {
    Flags::new(pattern.to_string())
}

#[test]
fn test_add_and_list() {
    // Create test database with known entry
    let test_db_content = "/tmp/test_dir|1.0|1640995200\n";

    // List directories
    let mut list = flags("");
    list.list = true;
    let output = invoke(&list, test_db_content, "/work", &[]);

    assert!(output.success());
    assert!(output.stdout.contains("/tmp/test_dir"));
}

#[test]
fn test_pattern_matching() {
    let test_db_content =
        "/home/user/projects|5.0|1640995200\n/home/user/documents|3.0|1640995100\n";

    // Test pattern matching
    let mut echo = flags("proj");
    echo.echo = true;
    let output = invoke(&echo, test_db_content, "/work", &[]);

    assert!(output.success());
    assert!(output.stdout.contains("/home/user/projects"));
}

#[test]
fn test_rank_sorting() {
    // Create database with different ranks
    let now = now_secs();
    let test_db_content = format!(
        "/path/low|2.0|{}\n/path/high|10.0|{}\n/path/medium|5.0|{}\n",
        now, now, now
    );

    // Test rank-based sorting
    let mut by_rank = flags("path");
    by_rank.rank = true;
    by_rank.list = true;
    let output = invoke(&by_rank, &test_db_content, "/work", &[]);

    assert!(output.success());
    let lines: Vec<&str> = output.stdout.lines().collect();

    // Should be sorted by rank (highest first)
    assert!(lines[0].contains("/path/high"));
    assert!(lines[1].contains("/path/medium"));
    assert!(lines[2].contains("/path/low"));
}

#[test]
fn test_time_sorting() {
    let now = now_secs();

    // Create database with different timestamps
    let test_db_content = format!(
        "/path/old|5.0|{}\n/path/new|5.0|{}\n/path/middle|5.0|{}\n",
        now - 1000,
        now,
        now - 500
    );

    // Test time-based sorting
    let mut by_time = flags("path");
    by_time.time = true;
    by_time.list = true;
    let output = invoke(&by_time, &test_db_content, "/work", &[]);

    assert!(output.success());
    let lines: Vec<&str> = output.stdout.lines().collect();

    // Should be sorted by time (most recent first)
    assert!(lines[0].contains("/path/new"));
    assert!(lines[1].contains("/path/middle"));
    assert!(lines[2].contains("/path/old"));
}

#[test]
fn test_remove_directory() {
    // Create database with test entries using the working directory
    let current_dir = "/work/here".to_string();
    let test_db_content = format!(
        "{}|5.0|1640995200\n/tmp/to_keep|3.0|1640995100\n",
        current_dir
    );

    // Run remove (should remove current directory)
    let mut exclude = flags("");
    exclude.exclude = true;
    let output = invoke(&exclude, &test_db_content, &current_dir, &[]);

    assert!(output.success());

    // Verify it's removed
    let mut list = flags("");
    list.list = true;
    let output = invoke(&list, &output.data, &current_dir, &[]);

    assert!(!output.stdout.contains(&current_dir));
    assert!(output.stdout.contains("/tmp/to_keep"));
}

#[test]
fn integration_tests_test_no_matches() {
    // Create database with test entries
    let test_db_content = "/home/user/projects|5.0|1640995200\n";

    // Search for non-existent pattern
    let mut echo = flags("nonexistent");
    echo.echo = true;
    let output = invoke(&echo, test_db_content, "/work", &[]);

    // Should fail (exit code != 0) when no matches found
    assert!(!output.success());
    assert!(output.stderr.contains("no matches found"));
}

#[test]
fn test_case_insensitive_matching() {
    // Create database with test entries
    let test_db_content = "/home/user/Projects|5.0|1640995200\n";

    // Test case insensitive matching
    let mut echo = flags("PROJ");
    echo.echo = true;
    let output = invoke(&echo, test_db_content, "/work", &[]);

    assert!(output.success());
    assert!(output.stdout.contains("/home/user/Projects"));
}

#[test]
fn test_empty_database() {
    // Test with an empty store
    let mut list = flags("");
    list.list = true;
    let output = invoke(&list, "", "/work", &[]);

    assert!(output.success());
    assert!(output.stdout.trim().is_empty());
}

#[test]
fn empty_pattern_without_list_is_usage() {
    let output = invoke(&flags(""), "/a|1|1\n", "/work", &[]);
    assert!(output.success());
    assert!(output.stdout.is_empty());
    assert_eq!(output.stderr, "Usage: zjyo [options] <pattern>\n");
    assert_eq!(output.data, "/a|1|1\n");
}

#[test]
fn add_comes_before_exclude_and_search() {
    let mut all = flags("a");
    all.add = true;
    all.exclude = true;
    all.list = true;
    assert_eq!(all.task(), Task::Add);
    let output = invoke(&all, "", "/work", &[]);
    assert!(output.success());
    assert!(output.data.starts_with("/work|1|"));
}

#[test]
fn existing_best_match_is_visited() {
    let output = invoke(&flags("proj"), "/home/user/projects|5|100\n", "/work", &["/home/user/projects"]);
    assert!(output.success());
    assert_eq!(output.stdout, "/home/user/projects\n");
    assert!(output.data.starts_with("/home/user/projects|6|"));
}

#[test]
fn stale_best_match_is_forgotten() {
    let output = invoke(&flags("proj"), "/home/user/projects|5|100\n/keep|1|1\n", "/work", &[]);
    assert_eq!(output.code, 1);
    assert!(output.stdout.is_empty());
    assert_eq!(output.stderr, "z: directory no longer exists: /home/user/projects\n");
    assert_eq!(output.data, "/keep|1|1\n");
}

#[test]
fn echo_leaves_the_store_alone() {
    let mut echo = flags("proj");
    echo.echo = true;
    let output = invoke(&echo, "/home/user/projects|5|100\n", "/work", &[]);
    assert!(output.success());
    assert_eq!(output.data, "/home/user/projects|5|100\n");
}

#[test]
fn restriction_applies_under_every_ranking() {
    let data = "/work/rust|1|10\n/other/rust|2|20\n/work/rusty|3|5\n";
    let mut here = flags("rust");
    here.current = true;
    here.list = true;
    let output = invoke(&here, data, "/work", &[]);
    assert_eq!(output.stdout.lines().count(), 2);
    assert!(!output.stdout.contains("/other/rust"));

    here.rank = true;
    let output = invoke(&here, data, "/work", &[]);
    let lines: Vec<&str> = output.stdout.lines().collect();
    assert_eq!(lines.len(), 2);
    assert!(lines[0].ends_with(" /work/rusty"));
    assert!(lines[1].ends_with(" /work/rust"));

    here.rank = false;
    here.time = true;
    let output = invoke(&here, data, "/work", &[]);
    let lines: Vec<&str> = output.stdout.lines().collect();
    assert_eq!(lines.len(), 2);
    assert!(lines[0].ends_with(" /work/rust"));
    assert!(lines[1].ends_with(" /work/rusty"));

    // without the flag the working directory plays no part
    here.current = false;
    let output = invoke(&here, data, "/work", &[]);
    assert_eq!(output.stdout.lines().count(), 3);
}

#[test]
fn restricted_rank_search_outside_the_directory_finds_nothing() {
    let data = "/home/user/projects/rust|2.0|1640995200\n";
    for (rank, time) in [(true, false), (false, true), (false, false)] {
        let mut query = flags("rust");
        query.current = true;
        query.rank = rank;
        query.time = time;
        query.echo = true;
        let output = invoke(&query, data, "/home/other", &[]);
        assert!(output.stdout.is_empty());
        assert_eq!(output.stderr, "z: no matches found for: rust\n");
        assert_eq!(output.code, 1);
        assert_eq!(output.data, data);

        let output = invoke(&query, data, "/home/user", &[]);
        assert_eq!(output.stdout, "/home/user/projects/rust\n");
        assert_eq!(output.code, 0);
    }
}

#[test]
fn rank_flag_comes_before_time_flag() {
    let data = "/p/a|9|1\n/p/b|1|9\n";
    let mut both = flags("p");
    both.rank = true;
    both.time = true;
    both.list = true;
    let output = invoke(&both, data, "/work", &[]);
    let lines: Vec<&str> = output.stdout.lines().collect();
    assert!(lines[0].contains("/p/a"));
}

#[test]
fn the_probe_is_asked_once_and_only_when_it_decides() {
    let data = "/home/user/projects|5|100\n";
    let asked = std::cell::RefCell::new(Vec::new());
    let probe = |path: &str| {
        asked.borrow_mut().push(path.to_string());
        true
    };
    let mut db = ZDatabase::new("data".to_string());
    db.load(data);
    let report = run(&flags("proj"), &mut db, None, 200, &probe);
    assert_eq!(report.output, ["/home/user/projects"]);
    assert!(report.errors.is_empty());
    assert!(report.save);
    assert_eq!(report.code, 0);
    assert_eq!(db.save(), "/home/user/projects|6|200\n");
    assert_eq!(*asked.borrow(), ["/home/user/projects"]);

    asked.borrow_mut().clear();
    let mut echo = flags("proj");
    echo.echo = true;
    let report = run(&echo, &mut db, None, 300, &probe);
    assert_eq!(report.output, ["/home/user/projects"]);
    assert!(!report.save);
    let mut list = flags("proj");
    list.list = true;
    run(&list, &mut db, None, 300, &probe);
    run(&flags("nothing"), &mut db, None, 300, &probe);
    run(&flags(""), &mut db, None, 300, &probe);
    assert!(asked.borrow().is_empty());
}

#[test]
fn without_a_working_directory_add_and_exclude_do_nothing() {
    let mut db = ZDatabase::new("data".to_string());
    db.load("/a|1|1\n");
    let mut add = flags("");
    add.add = true;
    let report = run(&add, &mut db, None, 5, |_: &str| true);
    assert!(!report.save && report.code == 0);
    assert!(report.output.is_empty() && report.errors.is_empty());
    let mut exclude = flags("");
    exclude.exclude = true;
    let report = run(&exclude, &mut db, None, 5, |_: &str| true);
    assert!(!report.save && report.code == 0);
    assert_eq!(db.save(), "/a|1|1\n");
    // and without one a search is not restricted
    let mut here = flags("a");
    here.current = true;
    here.echo = true;
    let report = run(&here, &mut db, None, 5, |_: &str| true);
    assert_eq!(report.output, ["/a"]);
}

#[test]
fn the_steps_of_an_invocation() {
    let mut db = ZDatabase::new("data".to_string());
    db.load("/p/a|2|10\n/p/b|1|20\n");
    let mut f = flags("p");
    assert_eq!(f.task(), Task::Search);
    assert_eq!(f.ranking(), Ranking::Frecency);
    let found = f.search(&db, Some("/p"), 30);
    assert_eq!(found.len(), 2);
    assert!(matches!(f.step(&found), Step::Probe { path } if path == "/p/a"));
    assert!(matches!(f.step(&Vec::new()), Step::NoMatch));
    assert_eq!(f.step(&Vec::new()).exit_code(), 1);
    f.echo = true;
    assert!(matches!(f.step(&found), Step::Echo { path } if path == "/p/a"));
    assert_eq!(f.step(&found).exit_code(), 0);
    f.list = true;
    assert!(matches!(f.step(&found), Step::List));
    assert!(matches!(f.step(&Vec::new()), Step::List));
    f.time = true;
    assert_eq!(f.ranking(), Ranking::Time);
    f.rank = true;
    assert_eq!(f.ranking(), Ranking::Rank);
    f.exclude = true;
    assert_eq!(f.task(), Task::Remove);
    let mut empty = flags("");
    assert_eq!(empty.task(), Task::Usage);
    assert!(matches!(empty.step(&Vec::new()), Step::Nothing));
    empty.list = true;
    assert_eq!(empty.task(), Task::Search);

    assert_eq!(settle(&mut db, "/p/b", true, 40), Outcome::Visited);
    assert_eq!(Outcome::Visited.exit_code(), 0);
    assert_eq!(db.save(), "/p/a|2|10\n/p/b|2|40\n");
    assert_eq!(settle(&mut db, "/p/a", false, 50), Outcome::Stale);
    assert_eq!(Outcome::Stale.exit_code(), 1);
    assert_eq!(db.save(), "/p/b|2|40\n");
    assert_eq!(usage_text(), "Usage: zjyo [options] <pattern>");
    assert_eq!(no_match_text("x y"), "z: no matches found for: x y");
    assert_eq!(stale_text("/gone"), "z: directory no longer exists: /gone");
}

#[test]
fn listing_line_has_two_columns_of_ten() {
    let mut db = ZDatabase::new("data".to_string());
    db.load("/tmp/x|4.95|1000\n");
    let entry = &db.entries()[0];
    // 375 * 4_950_000 / (0 + 12_500) = 148_500
    assert_eq!(listing_line(entry, 1000), "148500     4.95       /tmp/x");
    // a column that is full is not cut
    db.load("/tmp/y|12345678901.5|1000\n");
    let wide = &db.entries()[1];
    assert_eq!(listing_line(wide, 1000), "2147483647 12345678901.5 /tmp/y");
}
