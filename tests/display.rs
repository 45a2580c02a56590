use limmat::cache::{artifact_dir, decode_record, encode_record, output_files};
use limmat::git::{
    after_worktree_add, lines, log_args, parse_rev_list, parse_rev_parse, trim_trailing_newlines, Commit, CommitHash,
    GitError, LogStyle, WorktreeStep,
};
use limmat::scheduler::{Fingerprint, JobOutcome, TestStatus};
use limmat::status::{OutputBuffer, Segment, StatusError, Style, Tracker};
use limmat::util::Rect;
use limmat::watch::{debounce_step, watch_dirs, Debounce, WatchAction, WatchEvent};

const H3: &str = "08e80af0000000000000000000000000000000003";
const H2: &str = "b29043f0000000000000000000000000000000002";

fn plain(frame: &[Vec<Segment>]) -> String {
    let mut out = String::new();
    for line in frame {
        for s in line {
            out.push_str(&s.text);
        }
        out.push('\n');
    }
    out
}

#[test]
fn output_buffer_lays_out_two_commits() {
    let graph = format!("* {H3}\n* {H2}\n");
    let hashes = OutputBuffer::graph_hashes(&graph).unwrap();
    // The empty piece after the final newline joins the last chunk.
    assert_eq!(hashes.len(), 2);
    assert_eq!(hashes[0].as_str(), H3);
    assert_eq!(hashes[1].as_str(), H2);
    let mut tracker = Tracker::new();
    tracker.set_range(&graph, &vec!["08e80af 3\n".to_string(), "b29043f 2\n".to_string()]).unwrap();
    assert_eq!(plain(&tracker.render()), "* 08e80af 3\n| \n* b29043f 2\n\n");
}

#[test]
fn output_buffer_smoke_layout() {
    let graph = format!("* {H3}\n| \n* {H2}");
    let mut tracker = Tracker::new();
    tracker.set_range(&graph, &vec!["08e80af 3\n".to_string(), "b29043f 2\n".to_string()]).unwrap();
    tracker.update(&CommitHash::new(H3.to_string()), &"my_test2".to_string(), TestStatus::Completed(0));
    tracker.update(&CommitHash::new(H3.to_string()), &"my_test1".to_string(), TestStatus::Enqueued);
    tracker.update(&CommitHash::new(H2.to_string()), &"my_test1".to_string(), TestStatus::Error("oh no".to_string()));
    tracker.update(&CommitHash::new(H2.to_string()), &"my_test2".to_string(), TestStatus::Started);
    let (clear, frame) = tracker.repaint();
    assert_eq!(clear, "");
    assert_eq!(
        plain(&frame),
        "* 08e80af 3\n| my_test1: Enqueued my_test2: success \n* b29043f 2\n| my_test1: oh no my_test2: Started \n"
    );
    assert_eq!(frame[1][1].style, Style::Bold);
    assert_eq!(frame[1][3].style, Style::Plain);
    assert_eq!(frame[1][7].style, Style::Success);
    assert_eq!(frame[3][3].style, Style::Error);
    let (clear, _) = tracker.repaint();
    assert_eq!(clear, "\u{1b}[4F\u{1b}[0J");
}

#[test]
fn output_buffer_stretches_graph_for_long_info() {
    let graph = format!("*-.   {H3}\n|\\ \\  ");
    let mut tracker = Tracker::new();
    tracker.set_range(&graph, &vec!["a\nb\nc\n".to_string()]).unwrap();
    tracker.update(&CommitHash::new(H3.to_string()), &"t".to_string(), TestStatus::Completed(2));
    let frame = tracker.render();
    assert_eq!(plain(&frame), "*-.   a\n|-.   b\n|-.   c\n|\\ \\  t: failed (status 2) \n");
}

#[test]
fn output_buffer_empty_and_mismatch() {
    let b = OutputBuffer::empty();
    assert!(b.lines.is_empty());
    let mut tracker = Tracker::new();
    let graph = format!("* {H3}");
    assert_eq!(tracker.set_range(&graph, &vec![]), Err(StatusError::InfoCount));
    let graph = "* abc".to_string();
    assert_eq!(tracker.set_range(&graph, &vec!["x".to_string()]), Err(StatusError::HashCount));
}

#[test]
fn rev_list_output() {
    assert_eq!(parse_rev_list(128, &"junk".to_string()).unwrap().len(), 0);
    assert!(matches!(parse_rev_list(1, &String::new()), Err(GitError::Failed(1))));
    let v = parse_rev_list(0, &"aaa\nbbb\n".to_string()).unwrap();
    assert_eq!(v.iter().map(|h| h.as_str().to_string()).collect::<Vec<_>>(), vec!["aaa", "bbb"]);
}

#[test]
fn rev_parse_output() {
    assert!(matches!(parse_rev_parse(128, &String::new()), Ok(None)));
    assert!(matches!(parse_rev_parse(2, &String::new()), Err(GitError::Failed(2))));
    assert!(matches!(parse_rev_parse(0, &"onlyone\n".to_string()), Err(GitError::Unparsable)));
    let c: Commit = parse_rev_parse(0, &"  abc def\n".to_string()).unwrap().unwrap();
    assert_eq!(c.hash.as_str(), "abc");
    assert_eq!(c.tree.as_str(), "def");
    let c: Commit = parse_rev_parse(0, &"\u{a0}abc def\u{3000}".to_string()).unwrap().unwrap();
    assert_eq!((c.hash.as_str(), c.tree.as_str()), ("abc", "def"));
}

#[test]
fn lines_drop_the_final_empty_piece() {
    assert_eq!(lines("a\n\nb\n"), vec!["a".to_string(), String::new(), "b".to_string()]);
    assert!(lines("").is_empty());
    assert_eq!(lines("a\r\nb\r"), vec!["a".to_string(), "b\r".to_string()]);
    assert_eq!(lines("a\r\n"), vec!["a".to_string()]);
}

#[test]
fn git_dir_output_is_trimmed() {
    assert_eq!(trim_trailing_newlines(&b"/repo/.git\n\n".to_vec()), b"/repo/.git".to_vec());
    assert_eq!(trim_trailing_newlines(&b"\n".to_vec()), Vec::<u8>::new());
}

#[test]
fn log_arguments() {
    let args = log_args(&"main..HEAD".to_string(), &"%H".to_string(), LogStyle::WithGraph);
    assert_eq!(args, vec!["log", "--graph", "--format=%H", "main..HEAD"]);
    let args = log_args(&"r".to_string(), &"%h %s".to_string(), LogStyle::NoGraph);
    assert_eq!(args, vec!["log", "--format=%h %s", "r"]);
}

#[test]
fn worktree_add_retries_then_gives_up() {
    assert_eq!(after_worktree_add(1, false, false), WorktreeStep::Retry(2));
    assert_eq!(after_worktree_add(4, false, false), WorktreeStep::Retry(5));
    assert_eq!(after_worktree_add(5, false, false), WorktreeStep::GiveUp);
    assert_eq!(after_worktree_add(2, false, true), WorktreeStep::Done);
    assert_eq!(after_worktree_add(2, true, true), WorktreeStep::Cancelled);
}

#[test]
fn hash_abbreviation() {
    let h = limmat::git::Hash::new("080b8ecbad3e34e55c5a035af80100f73b742a8d".to_string());
    assert_eq!(h.abbrev(), "080b8ecbad3e");
    let c = Commit::arbitrary();
    assert_eq!(c.hash.as_str(), "080b8ecbad3e34e55c5a035af80100f73b742a8d");
    assert_eq!(c.tree.as_str(), "6366d790125291272542a6b40f6fd3400e080821");
}

#[test]
fn debounce_absorbs_events_until_expiry() {
    let (s, a) = debounce_step(Debounce::Idle, WatchEvent::FsEvent);
    assert_eq!((s, a), (Debounce::Armed, WatchAction::ArmTimer));
    let (s, a) = debounce_step(s, WatchEvent::FsEvent);
    assert_eq!((s, a), (Debounce::Armed, WatchAction::Nothing));
    let (s, a) = debounce_step(s, WatchEvent::TimerExpired);
    assert_eq!((s, a), (Debounce::Idle, WatchAction::Resolve));
    assert_eq!(debounce_step(Debounce::Idle, WatchEvent::TimerExpired), (Debounce::Idle, WatchAction::Nothing));
}

#[test]
fn watched_directories() {
    assert_eq!(watch_dirs(&"/r/.git".to_string(), &"/r/.git".to_string()), vec!["/r/.git".to_string()]);
    assert_eq!(watch_dirs(&"/w/.git".to_string(), &"/r/.git".to_string()).len(), 2);
}

#[test]
fn cache_records_round_trip() {
    for o in [JobOutcome::Success, JobOutcome::Failure(1), JobOutcome::Failure(-7), JobOutcome::Failure(i32::MIN), JobOutcome::Failure(i32::MAX)] {
        let r = encode_record(&o).unwrap();
        let back = decode_record(&r).unwrap();
        match (o, back) {
            (JobOutcome::Success, JobOutcome::Success) => {},
            (JobOutcome::Failure(a), JobOutcome::Failure(b)) => assert_eq!(a, b),
            _ => panic!("round trip changed the outcome"),
        }
    }
    assert_eq!(encode_record(&JobOutcome::Failure(-7)).unwrap(), "-7");
    assert!(encode_record(&JobOutcome::Aborted).is_none());
    assert!(decode_record(&"".to_string()).is_none());
    assert!(decode_record(&"-".to_string()).is_none());
    assert!(decode_record(&"12a".to_string()).is_none());
    assert!(decode_record(&"2147483648".to_string()).is_none());
    assert!(matches!(decode_record(&"-2147483648".to_string()), Some(JobOutcome::Failure(i32::MIN))));
}

#[test]
fn cache_paths() {
    let fp = Fingerprint { test_name: "t".to_string(), config_hash: "h".to_string(), cache_key: "k".to_string() };
    assert_eq!(artifact_dir(&fp), vec!["t", "h", "k"]);
    assert_eq!(output_files(false), vec!["output.txt"]);
    assert_eq!(output_files(true), vec!["stdout.txt", "stderr.txt"]);
}

#[test]
fn rect_holds_a_size() {
    let r = Rect { cols: 80, rows: 24 };
    assert_eq!((r.cols, r.rows), (80, 24));
}
