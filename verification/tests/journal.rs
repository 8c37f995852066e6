use amdl::journal::{
    begin, created, deleted, edit, ending, gc_objects, list, needed, nothing_to_undo, pick_run, prune, replaced, revert,
    run_id, run_info, snapshot, summarize, takes, undo, used_up, worth_keeping, Ending, Entry, Journal, RunInfo, Step, Undone, KEEP_RUNS,
};
use amdl::tags::Tag;
use std::collections::BTreeMap;

fn journal() -> Journal {
    begin(vec!["amdl".to_string(), "lyrics".to_string(), "--embed".to_string()], 1_700_000_000)
}

/// Undoes a journal on files that are held in memory.
fn undo_all(j: &Journal, files: &mut BTreeMap<String, Vec<u8>>, kept: &BTreeMap<String, Vec<u8>>) -> usize {
    let mut reverted = 0;
    for e in j.entries.iter().rev() {
        let path = e.path().to_string();
        match revert(e, files.get(&path).map(|c| c.as_slice())) {
            Step::Leave => continue,
            Step::Delete => {
                files.remove(&path);
            }
            Step::WriteKept(d) => {
                files.insert(path, kept[d].clone());
            }
            Step::RestoreTags(_) => unreachable!(),
        }
        reverted += 1;
    }
    reverted
}

#[test]
fn undoing_takes_a_run_back() {
    let start: BTreeMap<String, Vec<u8>> =
        [("old.lrc".to_string(), b"plain".to_vec()), ("gone.lrc".to_string(), b"words".to_vec())].into();
    let mut files = start.clone();
    let mut kept = BTreeMap::new();
    let mut j = journal();

    files.insert("new.opus".to_string(), b"one".to_vec());
    created(&mut j, "new.opus", b"one");
    kept.insert(replaced(&mut j, "old.lrc", b"plain", b"synced"), b"plain".to_vec());
    files.insert("old.lrc".to_string(), b"synced".to_vec());
    kept.insert(deleted(&mut j, "gone.lrc", b"words"), b"words".to_vec());
    files.remove("gone.lrc");
    files.insert("new.opus".to_string(), b"two".to_vec());
    edit(&mut j, "new.opus", None, b"two");

    assert!(worth_keeping(&j));
    assert_eq!(j.entries.len(), 3);
    assert_eq!(undo_all(&j, &mut files, &kept), 3);
    assert_eq!(files, start);
}

#[test]
fn undoing_never_clobbers_a_later_change() {
    let mut files: BTreeMap<String, Vec<u8>> = [("a.lrc".to_string(), b"mine".to_vec())].into();
    let mut kept = BTreeMap::new();
    let mut j = journal();
    created(&mut j, "a.lrc", b"amdl's");
    kept.insert(replaced(&mut j, "gone.lrc", b"x", b"y"), b"x".to_vec());
    assert_eq!(undo_all(&j, &mut files, &kept), 0);
    assert_eq!(files["a.lrc"], b"mine".to_vec());
    assert!(!files.contains_key("gone.lrc"));
}

#[test]
fn edits_of_one_file_collapse() {
    let mut j = journal();
    let mut t = Tag::default();
    t.album = Some("first".to_string());
    edit(&mut j, "a.opus", Some(snapshot(&t)), b"1");
    t.album = Some("second".to_string());
    edit(&mut j, "a.opus", Some(snapshot(&t)), b"2");
    assert_eq!(j.entries.len(), 1);
    match revert(&j.entries[0], Some(b"2")) {
        Step::RestoreTags(s) => assert_eq!(s.album.as_deref(), Some("first")),
        other => panic!("{other:?}"),
    }
    assert!(matches!(revert(&j.entries[0], Some(b"1")), Step::Leave));
    edit(&mut j, "unread.opus", None, b"3");
    assert_eq!(j.entries.len(), 1);
    assert!(!worth_keeping(&journal()));
}

#[test]
fn digests_are_those_of_blake3() {
    let mut j = journal();
    let kept = replaced(&mut j, "a", b"before", b"after");
    assert_eq!(kept, blake3::hash(b"before").to_hex().to_string());
    let argv = vec!["amdl".to_string(), "tag".to_string(), "æ".to_string()];
    let short = blake3::hash("amdl tag æ".as_bytes()).to_hex().to_string()[..8].to_string();
    assert_eq!(run_id(12, &argv), format!("12-tag-{short}"));
    assert!(run_id(12, &argv[..1]).starts_with("12-run-"));
}

#[test]
fn a_command_line_is_shortened() {
    let s = |w: &[&str]| summarize(&w.iter().map(|x| x.to_string()).collect::<Vec<_>>());
    assert_eq!(s(&["amdl"]), "run");
    assert_eq!(s(&["/usr/bin/amdl", "lyrics", "/mnt/music/lib/", "--embed"]), "lyrics lib --embed");
    assert_eq!(s(&["amdl", "/"]), "/");
    let long = s(&["amdl", &"x".repeat(60)]);
    assert_eq!(long, format!("{}…", "x".repeat(43)));
    assert_eq!(s(&["amdl", &"x".repeat(44)]), "x".repeat(44));
}

fn run(id: usize, started: u64) -> RunInfo {
    let mut r = run_info(&id.to_string(), &journal());
    r.started_unix = started;
    r
}

#[test]
fn runs_are_listed_with_the_newest_first() {
    let runs = list(vec![run(1, 10), run(2, 30), run(3, 30), run(4, 20)]);
    let ids: Vec<&str> = runs.iter().map(|r| r.id.as_str()).collect();
    assert_eq!(ids, vec!["2", "3", "4", "1"]);
    assert_eq!(pick_run(&runs, None), Some(0));
    assert_eq!(pick_run(&runs, Some("4")), Some(2));
    assert_eq!(pick_run(&runs, Some("9")), None);
    assert_eq!(pick_run(&[], None), None);
    assert_eq!(runs[0].command, "lyrics");
    assert_eq!(runs[0].summary, "lyrics --embed");
}

#[test]
fn old_runs_are_given_up() {
    let runs = list((0..KEEP_RUNS + 2).map(|i| run(i, i as u64)).collect());
    assert_eq!(prune(&runs), vec!["1", "0"]);
    assert!(prune(&runs[..KEEP_RUNS]).is_empty());
}

#[test]
fn bytes_that_no_run_needs_are_given_up() {
    let mut j = journal();
    let a = replaced(&mut j, "a", b"a", b"b");
    let c = deleted(&mut j, "c", b"c");
    created(&mut j, "d", b"d");
    let kept = vec![a.clone(), "orphan".to_string(), c];
    assert_eq!(gc_objects(&kept, &[j]), vec!["orphan"]);
    assert_eq!(needed(&Entry::Create { path: "d".into(), hash: a }), None);
}

#[test]
fn a_dry_run_takes_no_step() {
    let mut j = journal();
    created(&mut j, "a", b"a");
    let step = revert(&j.entries[0], Some(b"a"));
    assert!(takes(&step, false) && !takes(&step, true));
    assert!(matches!(ending(&step, None), Ending::Reverted));
    assert!(matches!(ending(&step, Some("denied".into())), Ending::Failed(_)));
    let gone = revert(&j.entries[0], None);
    assert!(!takes(&gone, false));
    assert!(matches!(ending(&gone, None), Ending::Left));
    let runs = vec![run(1, 10), run(2, 20)];
    assert_eq!(used_up(&runs, 1, false).as_deref(), Some("2"));
    assert_eq!(used_up(&runs, 1, true), None);
}

#[test]
fn a_report_tells_what_was_left() {
    let argv = vec!["amdl".to_string(), "tag".to_string()];
    let done = vec![
        Undone { path: "a".into(), ending: Ending::Reverted },
        Undone { path: "b".into(), ending: Ending::Left },
        Undone { path: "c".into(), ending: Ending::Failed("denied".into()) },
    ];
    let r = undo("7-tag-x", &argv, &done, false);
    assert_eq!((r.run.as_deref(), r.command.as_deref(), r.reverted), (Some("7-tag-x"), Some("tag"), 1));
    assert_eq!(r.skipped, vec!["b (changed since — left as-is)", "c: denied"]);
    assert_eq!(r.reverted + r.skipped.len(), done.len());
    assert!(nothing_to_undo(true).run.is_none());
}
