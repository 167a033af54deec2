use std::collections::HashSet;

use rip::clock::log_line;
use rip::config::{
    graveyard_path, is_affirmative, is_big_file, select_mode, user_name, Mode, BIG_FILE_THRESHOLD,
};
use rip::grave::{rename_grave, vacant_path};
use rip::path::{join_absolute, path_eq, path_join, path_starts_with, strip_root};
use rip::record::{
    all_record_lines_in, get_last_bury, is_record_line, lines_of_graves, record_entry, record_line,
    remaining_record_lines, seance,
};
use rip::size::humanize_bytes;
use rip::text::chars_of;

fn strings(v: &[&str]) -> Vec<String> {
    v.iter().map(|s| s.to_string()).collect()
}

#[test]
fn humanize_small_counts_stay_in_bytes() {
    assert_eq!(humanize_bytes(0), "0 bytes");
    assert_eq!(humanize_bytes(10), "10 bytes");
    assert_eq!(humanize_bytes(11), "11 bytes");
    assert_eq!(humanize_bytes(10999), "10999 bytes");
}

#[test]
fn humanize_moves_to_larger_units() {
    assert_eq!(humanize_bytes(11000), "11 KB");
    assert_eq!(humanize_bytes(123456), "123 KB");
    assert_eq!(humanize_bytes(11_000_000), "11 MB");
    assert_eq!(humanize_bytes(500_000_000), "500 MB");
    assert_eq!(humanize_bytes(11_000_000_000), "11 GB");
    assert_eq!(humanize_bytes(11_000_000_000_000), "11 TB");
    assert_eq!(humanize_bytes(u64::MAX), "18446744 TB");
}

#[test]
fn join_absolute_puts_absolute_paths_under_the_graveyard() {
    assert_eq!(join_absolute("/tmp/graveyard-me", "/home/me/file.txt"), "/tmp/graveyard-me/home/me/file.txt");
    assert_eq!(join_absolute("/tmp/g/", "/a"), "/tmp/g/a");
    assert_eq!(join_absolute("/tmp/g", "rel/x"), "/tmp/g/rel/x");
    assert_eq!(join_absolute("/tmp/g", "/"), "/tmp/g/");
    assert_eq!(join_absolute("/tmp/g", "//a/./b/./"), "/tmp/g/a/./b");
    assert_eq!(join_absolute("", "/a"), "a");
}

#[test]
fn join_absolute_result_lies_under_left() {
    for (l, r) in [("/tmp/g", "/x/y"), ("g/", "/./a//b/"), (".", "x"), ("/tmp/g", "./a")] {
        let p = join_absolute(l, r);
        assert!(path_starts_with(&p, l), "{p} not under {l}");
    }
}

#[test]
fn path_join_follows_the_platform() {
    assert_eq!(path_join("a", "/b"), "/b");
    assert_eq!(path_join("a", "b"), "a/b");
    assert_eq!(path_join("a/", "b"), "a/b");
    assert_eq!(path_join("", "b"), "b");
    assert_eq!(path_join("/tmp/g", ".record"), "/tmp/g/.record");
    assert_eq!(path_join("a", ""), "a/");
}

#[test]
fn strip_root_of_absolute_and_relative_paths() {
    assert_eq!(strip_root("/a/b"), Some("a/b".to_string()));
    assert_eq!(strip_root("/"), Some(String::new()));
    assert_eq!(strip_root("//./a/./"), Some("a".to_string()));
    assert_eq!(strip_root("/a/./b/."), Some("a/./b".to_string()));
    assert_eq!(strip_root("a/b"), None);
    assert_eq!(strip_root(""), None);
}

#[test]
fn path_comparisons_go_by_components() {
    assert!(path_starts_with("/tmp/g/a", "/tmp/g"));
    assert!(!path_starts_with("/tmp/ga", "/tmp/g"));
    assert!(path_starts_with("/tmp//g/./a/", "/tmp/g/"));
    assert!(!path_starts_with("a", "/a"));
    assert!(path_starts_with("/a", ""));
    assert!(path_eq("/a/b/", "/a//b"));
    assert!(path_eq("./a", "./a/."));
    assert!(!path_eq("./a", "a"));
    assert!(!path_eq("/a/b", "/a/b/.."));
}

#[test]
fn chars_of_keeps_every_character() {
    assert_eq!(chars_of("héllo/ü"), vec!['h', 'é', 'l', 'l', 'o', '/', 'ü']);
}

#[test]
fn rename_grave_takes_the_first_free_number() {
    let taken: HashSet<&str> = ["/g/f", "/g/f~1", "/g/f~2"].into_iter().collect();
    let answer = rename_grave("/g/f", &|p: &str| taken.contains(p));
    assert_eq!(answer, Some("/g/f~3".to_string()));
    let none_taken = rename_grave("/g/f", &|_p: &str| false);
    assert_eq!(none_taken, Some("/g/f~1".to_string()));
}

#[test]
fn vacant_path_keeps_a_free_path_and_renames_a_taken_one() {
    let taken: HashSet<&str> = ["/g/f", "/g/f~1"].into_iter().collect();
    assert_eq!(vacant_path("/g/h", &|p: &str| taken.contains(p)), Some("/g/h".to_string()));
    assert_eq!(vacant_path("/g/f", &|p: &str| taken.contains(p)), Some("/g/f~2".to_string()));
}

#[test]
fn record_line_reads_back() {
    let line = record_line("2024-01-01 0:00:00.0 +00:00:00", "/home/me/a", "/tmp/g/home/me/a");
    assert_eq!(line, "2024-01-01 0:00:00.0 +00:00:00\t/home/me/a\t/tmp/g/home/me/a");
    assert!(is_record_line(&line));
    let entry = record_entry(&line);
    assert_eq!(entry.time, "2024-01-01 0:00:00.0 +00:00:00");
    assert_eq!(entry.orig, "/home/me/a");
    assert_eq!(entry.dest, "/tmp/g/home/me/a");
}

#[test]
fn record_entry_ignores_extra_columns_and_keeps_empty_ones() {
    let entry = record_entry("t\t\tc\td");
    assert_eq!(entry.time, "t");
    assert_eq!(entry.orig, "");
    assert_eq!(entry.dest, "c");
}

#[test]
fn malformed_record_lines_are_recognised() {
    assert!(!is_record_line(""));
    assert!(!is_record_line("no tabs"));
    assert!(!is_record_line("one\ttab"));
    assert!(is_record_line("two\ttabs\t"));
    assert!(all_record_lines_in(&sample_record()));
    assert!(!all_record_lines_in(&strings(&["a\tb\tc", "a\tb"])));
    assert!(all_record_lines_in(&Vec::new()));
}

#[test]
fn log_line_is_stamped_with_the_time() {
    let line = log_line("/home/me/a", "/tmp/g/home/me/a");
    assert!(is_record_line(&line));
    let entry = record_entry(&line);
    assert_eq!(entry.orig, "/home/me/a");
    assert_eq!(entry.dest, "/tmp/g/home/me/a");
    assert!(!entry.time.is_empty());
    assert!(entry.time.chars().any(|c| c.is_ascii_digit()));
    assert!(entry.time.chars().all(|c| c.is_ascii_digit() || "-+:. ".contains(c)));
}

fn sample_record() -> Vec<String> {
    strings(&[
        "t1\t/home/me/a\t/tmp/g/home/me/a",
        "t2\t/home/me/d/b\t/tmp/g/home/me/d/b",
        "t3\t/srv/c\t/tmp/g/srv/c",
        "t4\t/home/me/a\t/tmp/g/home/me/a~1",
    ])
}

#[test]
fn lines_of_graves_and_remaining_lines_split_the_record() {
    let lines = sample_record();
    let graves = strings(&["/tmp/g/srv/c/", "/tmp/g/home/me/a"]);
    let found = lines_of_graves(&lines, &graves);
    assert_eq!(found, strings(&["t1\t/home/me/a\t/tmp/g/home/me/a", "t3\t/srv/c\t/tmp/g/srv/c"]));
    let rest = remaining_record_lines(&lines, &graves);
    assert_eq!(
        rest,
        strings(&["t2\t/home/me/d/b\t/tmp/g/home/me/d/b", "t4\t/home/me/a\t/tmp/g/home/me/a~1"])
    );
    assert_eq!(found.len() + rest.len(), lines.len());
}

#[test]
fn unbury_finds_what_was_buried() {
    let line = record_line("t", "/home/me/x", "/tmp/g/home/me/x");
    let lines = vec![line.clone()];
    let found = lines_of_graves(&lines, &strings(&["/tmp/g/home/me/x"]));
    assert_eq!(found, vec![line]);
    assert_eq!(record_entry(&found[0]).orig, "/home/me/x");
    assert!(remaining_record_lines(&lines, &strings(&["/tmp/g/home/me/x"])).is_empty());
}

#[test]
fn seance_lists_graves_under_a_directory() {
    let lines = sample_record();
    assert_eq!(
        seance(&lines, "/tmp/g/home/me"),
        strings(&["/tmp/g/home/me/a", "/tmp/g/home/me/d/b", "/tmp/g/home/me/a~1"])
    );
    assert_eq!(seance(&lines, "/tmp/g/srv/"), strings(&["/tmp/g/srv/c"]));
    assert!(seance(&lines, "/tmp/g/home/m").is_empty());
}

#[test]
fn last_bury_skips_graves_that_are_gone() {
    let lines = sample_record();
    let present: HashSet<&str> = ["/tmp/g/home/me/d/b"].into_iter().collect();
    let found = get_last_bury(&lines, &|p: &str| present.contains(p));
    assert_eq!(found.grave, Some("/tmp/g/home/me/d/b".to_string()));
    assert_eq!(found.missing, strings(&["/tmp/g/home/me/a~1", "/tmp/g/srv/c"]));
    assert_eq!(found.malformed, None);
}

#[test]
fn last_bury_of_the_latest_present_grave() {
    let lines = sample_record();
    let found = get_last_bury(&lines, &|_p: &str| true);
    assert_eq!(found.grave, Some("/tmp/g/home/me/a~1".to_string()));
    assert!(found.missing.is_empty());
}

#[test]
fn last_bury_when_nobody_came() {
    let lines = sample_record();
    let found = get_last_bury(&lines, &|_p: &str| false);
    assert_eq!(found.grave, None);
    assert_eq!(found.missing.len(), 4);
    assert_eq!(found.missing[0], "/tmp/g/home/me/a~1");
    assert!(remaining_record_lines(&lines, &found.missing).is_empty());
    let empty: Vec<String> = Vec::new();
    let found = get_last_bury(&empty, &|_p: &str| true);
    assert_eq!(found.grave, None);
    assert!(found.missing.is_empty());
}

#[test]
fn graveyard_is_chosen_in_order_of_precedence() {
    let s = |x: &str| Some(x.to_string());
    assert_eq!(graveyard_path(s("/cli"), s("/env"), s("/xdg"), "me", "/tmp/graveyard"), "/cli");
    assert_eq!(graveyard_path(None, s("/env"), s("/xdg"), "me", "/tmp/graveyard"), "/env");
    assert_eq!(graveyard_path(None, None, s("/xdg"), "me", "/tmp/graveyard"), "/xdg/graveyard");
    assert_eq!(graveyard_path(None, None, s("/xdg/"), "me", "/tmp/graveyard"), "/xdg/graveyard");
    assert_eq!(graveyard_path(None, None, s(""), "me", "/tmp/graveyard"), "/graveyard");
    assert_eq!(graveyard_path(None, None, None, "me", "/tmp/graveyard"), "/tmp/graveyard-me");
}

#[test]
fn user_name_falls_back_to_unknown() {
    assert_eq!(user_name(Some("me".to_string())), "me");
    assert_eq!(user_name(None), "unknown");
}

#[test]
fn modes_are_selected_in_order() {
    assert!(matches!(select_mode(true, true, true, true), Mode::Decompose));
    assert!(matches!(select_mode(false, true, true, true), Mode::Unbury));
    assert!(matches!(select_mode(false, false, true, true), Mode::Seance));
    assert!(matches!(select_mode(false, false, false, true), Mode::Bury));
    assert!(matches!(select_mode(false, false, false, false), Mode::Usage));
}

#[test]
fn big_files_are_above_the_threshold() {
    assert!(!is_big_file(BIG_FILE_THRESHOLD));
    assert!(is_big_file(BIG_FILE_THRESHOLD + 1));
    assert!(!is_big_file(0));
}

#[test]
fn only_y_answers_yes() {
    assert!(is_affirmative(Some(b'y')));
    assert!(is_affirmative(Some(b'Y')));
    assert!(!is_affirmative(Some(b'n')));
    assert!(!is_affirmative(Some(b'\n')));
    assert!(!is_affirmative(None));
}

#[test]
fn last_bury_reads_only_the_lines_it_reaches() {
    let lines = strings(&["garbage", "t\t/a\t/g/a"]);
    let found = get_last_bury(&lines, &|p: &str| p == "/g/a");
    assert_eq!(found.grave, Some("/g/a".to_string()));
    assert!(found.missing.is_empty());
    assert_eq!(found.malformed, None);
}

#[test]
fn last_bury_stops_at_a_malformed_line() {
    let lines = strings(&["t\t/b\t/g/b", "one\ttab", "t\t/a\t/g/a"]);
    let found = get_last_bury(&lines, &|_p: &str| false);
    assert_eq!(found.grave, None);
    assert_eq!(found.missing, strings(&["/g/a"]));
    assert_eq!(found.malformed, Some(1));
}

#[test]
fn no_graves_reads_no_line() {
    let lines = strings(&["garbage", "t\t/a\t/g/a"]);
    let none: Vec<String> = Vec::new();
    assert!(lines_of_graves(&lines, &none).is_empty());
    assert_eq!(remaining_record_lines(&lines, &none), lines);
}

#[test]
fn graves_and_remaining_lines_merge_back_into_the_record() {
    let lines = sample_record();
    let graves = strings(&["/tmp/g/home/me/d/b"]);
    let found = lines_of_graves(&lines, &graves);
    let rest = remaining_record_lines(&lines, &graves);
    let (mut a, mut b) = (found.iter().peekable(), rest.iter().peekable());
    for line in &lines {
        if a.peek() == Some(&line) {
            a.next();
        } else {
            assert_eq!(b.next(), Some(line));
        }
    }
    assert!(a.next().is_none() && b.next().is_none());
}
