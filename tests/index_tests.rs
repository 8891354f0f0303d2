use kidex::config::{parse_pattern_vec, Config, IgnorePattern, WatchDir};
use kidex::events::{event_steps, respond, ControlMsg, EventFlags, EventStep};
use kidex::index::{ChildIndex, Index};
use kidex::ipc::{ClientError, IndexEntry, IpcCommand, IpcResponse};
use kidex::query::{Query, QueryOptions};
use kidex::scan::{DirEntry, EntryKind, Opened, Scan};
use kidex::serve::query;

fn dir(path: &str, recurse: bool, ignored: &[&str]) -> WatchDir {
    WatchDir {
        path: path.to_string(),
        ignored: ignored.iter().map(|p| IgnorePattern::new(p).ok().unwrap()).collect(),
        recurse,
    }
}

fn config(dirs: Vec<WatchDir>, ignored: &[&str]) -> Config {
    Config { directories: dirs, ignored: ignored.iter().map(|p| IgnorePattern::new(p).ok().unwrap()).collect() }
}

fn de(name: &str, kind: EntryKind) -> DirEntry {
    DirEntry { name: name.to_string(), kind }
}

fn kind_of(index: &Index, h: i32, name: &str) -> Option<ChildIndex> {
    let p = index.find(h)?;
    index.inner[p].children.iter().find(|c| c.name == name).map(|c| c.kind)
}

/// Drives a scan, answering each directory from `fs`: the next handle is
/// handed out for every listed directory.
fn run_scan(index: &mut Index, cfg: &Config, mut scan: Scan, fs: &dyn Fn(&str) -> Option<Vec<DirEntry>>, next: &mut i32) -> Vec<i32> {
    let mut opened_paths = Vec::new();
    while let Some(path) = scan.next_dir() {
        let path = path.to_string();
        opened_paths.push(path.clone());
        let opened = match fs(&path) {
            Some(es) => {
                *next += 1;
                Opened::Listed(*next, es)
            }
            None => Opened::NotWatched,
        };
        index.advance(cfg, &mut scan, opened);
    }
    scan.take_released()
}

fn sample_fs(path: &str) -> Option<Vec<DirEntry>> {
    match path {
        "/root" => Some(vec![
            de("a.txt", EntryKind::File),
            de("sub", EntryKind::Directory),
            de("skip.log", EntryKind::File),
            de("pipe", EntryKind::Other),
        ]),
        "/root/sub" => Some(vec![de("deep", EntryKind::Directory), de("b.txt", EntryKind::File)]),
        "/root/sub/deep" => Some(vec![de("c.txt", EntryKind::File)]),
        _ => None,
    }
}

fn indexed_sample() -> (Index, Config, i32) {
    let cfg = config(vec![dir("/root", true, &["*.log"])], &[]);
    let mut index = Index::new();
    let (released, scan) = index.full_index(&cfg);
    assert!(released.is_empty());
    let mut next = 0;
    let rel = run_scan(&mut index, &cfg, scan, &sample_fs, &mut next);
    assert!(rel.is_empty());
    (index, cfg, next)
}

#[test]
fn full_index_builds_the_tree() {
    let (index, _cfg, next) = indexed_sample();
    assert_eq!(next, 3);
    assert_eq!(index.inner.len(), 3);
    assert_eq!(kind_of(&index, 1, "a.txt"), Some(ChildIndex::File));
    assert_eq!(kind_of(&index, 1, "skip.log"), None);
    assert_eq!(kind_of(&index, 1, "pipe"), None);
    assert_eq!(kind_of(&index, 1, "sub"), Some(ChildIndex::Directory { descriptor: Some(2) }));
    assert_eq!(kind_of(&index, 2, "deep"), Some(ChildIndex::Directory { descriptor: Some(3) }));
    assert_eq!(index.get_path(3), "/root/sub/deep");
    assert_eq!(index.get_path(1), "/root");
    assert_eq!(index.get_path(77), "");
}

#[test]
fn traverse_collects_the_subtree() {
    let (index, _cfg, _) = indexed_sample();
    let mut t = index.traverse(2);
    t.sort();
    assert_eq!(t, vec![2, 3]);
    let mut all = index.traverse(1);
    all.sort();
    assert_eq!(all, vec![1, 2, 3]);
    assert!(index.traverse(9).is_empty());
}

#[test]
fn removing_a_directory_drops_its_subtree() {
    let (mut index, _cfg, _) = indexed_sample();
    let mut gone = index.remove_index(1, "sub");
    gone.sort();
    assert_eq!(gone, vec![2, 3]);
    assert_eq!(index.inner.len(), 1);
    assert_eq!(kind_of(&index, 1, "sub"), None);
    assert_eq!(kind_of(&index, 1, "a.txt"), Some(ChildIndex::File));
}

#[test]
fn removing_an_unknown_child_changes_nothing() {
    let (mut index, _cfg, _) = indexed_sample();
    assert!(index.remove_index(1, "missing").is_empty());
    assert!(index.remove_index(42, "a.txt").is_empty());
    assert_eq!(index.inner.len(), 3);
    assert!(index.remove_index(1, "a.txt").is_empty());
    assert_eq!(kind_of(&index, 1, "a.txt"), None);
}

#[test]
fn delete_then_pending_create_leaves_no_subtree() {
    let (mut index, cfg, _) = indexed_sample();
    let gone = index.remove_index(2, "deep");
    assert_eq!(gone, vec![3]);
    // a create event queued for the removed directory refers to a handle no longer indexed
    assert!(index.create_target(&cfg, 3, "late.txt").is_none());
    assert!(index.create_index(&cfg, 3, "late.txt", EntryKind::File).is_none());
    assert_eq!(index.inner.len(), 2);
    assert!(index.find(3).is_none());
}

#[test]
fn created_file_is_recorded() {
    let (mut index, cfg, _) = indexed_sample();
    assert_eq!(index.create_target(&cfg, 2, "new.txt"), Some("/root/sub/new.txt".to_string()));
    assert!(index.create_index(&cfg, 2, "new.txt", EntryKind::File).is_none());
    assert_eq!(kind_of(&index, 2, "new.txt"), Some(ChildIndex::File));
}

#[test]
fn ignored_creation_is_left_out() {
    let (mut index, cfg, _) = indexed_sample();
    assert!(index.create_target(&cfg, 1, "x.log").is_none());
    assert!(index.create_index(&cfg, 1, "x.log", EntryKind::File).is_none());
    assert_eq!(kind_of(&index, 1, "x.log"), None);
    assert_eq!(index.inner.len(), 3);
}

#[test]
fn created_directory_is_scanned_when_recursive() {
    let (mut index, cfg, mut next) = indexed_sample();
    let scan = index.create_index(&cfg, 1, "fresh", EntryKind::Directory).unwrap();
    assert_eq!(scan.next_dir(), Some("/root/fresh"));
    let fs = |p: &str| if p == "/root/fresh" { Some(vec![de("f.txt", EntryKind::File)]) } else { None };
    let released = run_scan(&mut index, &cfg, scan, &fs, &mut next);
    assert!(released.is_empty());
    assert_eq!(kind_of(&index, 1, "fresh"), Some(ChildIndex::Directory { descriptor: Some(4) }));
    assert_eq!(kind_of(&index, 4, "f.txt"), Some(ChildIndex::File));
    assert_eq!(index.get_path(4), "/root/fresh");
}

#[test]
fn unwatchable_subdirectory_degrades() {
    let cfg = config(vec![dir("/r", true, &[])], &[]);
    let mut index = Index::new();
    let (_, mut scan) = index.full_index(&cfg);
    index.advance(&cfg, &mut scan, Opened::Listed(10, vec![de("locked", EntryKind::Directory)]));
    assert_eq!(scan.next_dir(), Some("/r/locked"));
    index.advance(&cfg, &mut scan, Opened::Unlisted(11));
    assert!(scan.is_done());
    assert_eq!(scan.take_released(), vec![11]);
    assert_eq!(kind_of(&index, 10, "locked"), Some(ChildIndex::Directory { descriptor: None }));
    assert_eq!(index.inner.len(), 1);
}

#[test]
fn unwatchable_root_is_skipped() {
    let cfg = config(vec![dir("/gone", true, &[]), dir("/here", false, &[])], &[]);
    let mut index = Index::new();
    let (_, mut scan) = index.full_index(&cfg);
    assert_eq!(scan.next_dir(), Some("/gone"));
    index.advance(&cfg, &mut scan, Opened::NotWatched);
    assert_eq!(scan.next_dir(), Some("/here"));
    index.advance(&cfg, &mut scan, Opened::Listed(5, vec![]));
    assert!(scan.is_done());
    assert_eq!(index.inner.len(), 1);
    assert_eq!(index.get_path(5), "/here");
}

#[test]
fn ignored_root_is_not_scanned() {
    let cfg = config(vec![dir("/tmp/cache", true, &[])], &["/tmp/*"]);
    let mut index = Index::new();
    let (_, scan) = index.full_index(&cfg);
    assert!(scan.is_done());
}

#[test]
fn handle_already_indexed_is_not_reused() {
    let cfg = config(vec![dir("/r", true, &[])], &[]);
    let mut index = Index::new();
    let (_, mut scan) = index.full_index(&cfg);
    index.advance(&cfg, &mut scan, Opened::Listed(1, vec![de("again", EntryKind::Directory)]));
    index.advance(&cfg, &mut scan, Opened::Listed(1, vec![]));
    assert_eq!(scan.take_released(), Vec::<i32>::new());
    assert_eq!(kind_of(&index, 1, "again"), Some(ChildIndex::Directory { descriptor: None }));
    assert_eq!(index.inner.len(), 1);
}

#[test]
fn new_directory_under_non_recursive_root() {
    let cfg = config(vec![dir("/root", false, &[])], &[]);
    let mut index = Index::new();
    let (_, scan) = index.full_index(&cfg);
    let mut next = 0;
    let fs = |p: &str| if p == "/root" { Some(vec![de("old_dir", EntryKind::Directory)]) } else { None };
    run_scan(&mut index, &cfg, scan, &fs, &mut next);
    assert_eq!(kind_of(&index, 1, "old_dir"), Some(ChildIndex::Directory { descriptor: None }));
    assert!(index.create_index(&cfg, 1, "new_dir", EntryKind::Directory).is_none());
    assert_eq!(kind_of(&index, 1, "new_dir"), Some(ChildIndex::Directory { descriptor: None }));
    assert_eq!(index.inner.len(), 1);
}

#[test]
fn clear_returns_every_handle() {
    let (mut index, cfg, _) = indexed_sample();
    let mut gone = index.clear_index();
    gone.sort();
    assert_eq!(gone, vec![1, 2, 3]);
    assert!(index.inner.is_empty());
    let (mut index, _, _) = indexed_sample();
    let (released, scan) = index.full_index(&cfg);
    assert_eq!(released.len(), 3);
    assert_eq!(scan.next_dir(), Some("/root"));
}

#[test]
fn full_index_twice_gives_the_same_tree() {
    let (mut index, cfg, _) = indexed_sample();
    let first = index.get_index(Some("/root")).unwrap();
    let (_, scan) = index.full_index(&cfg);
    let mut next = 0;
    run_scan(&mut index, &cfg, scan, &sample_fs, &mut next);
    let second = index.get_index(Some("/root")).unwrap();
    let a: Vec<(String, bool)> = first.iter().map(|e| (e.path.clone(), e.directory)).collect();
    let b: Vec<(String, bool)> = second.iter().map(|e| (e.path.clone(), e.directory)).collect();
    assert_eq!(a, b);
}

#[test]
fn get_index_flat_and_pathed() {
    let (index, _cfg, _) = indexed_sample();
    let flat = index.get_index(None).unwrap();
    let mut names: Vec<String> = flat.iter().map(|e| e.path.clone()).collect();
    names.sort();
    assert_eq!(names, vec!["a.txt", "b.txt", "c.txt", "deep", "sub"]);
    let pathed = index.get_index(Some("/root")).unwrap();
    let mut full: Vec<(String, bool)> = pathed.iter().map(|e| (e.path.clone(), e.directory)).collect();
    full.sort();
    assert_eq!(
        full,
        vec![
            ("/root/a.txt".to_string(), false),
            ("/root/sub".to_string(), true),
            ("/root/sub/b.txt".to_string(), false),
            ("/root/sub/deep".to_string(), true),
            ("/root/sub/deep/c.txt".to_string(), false),
        ]
    );
    assert!(index.get_index(Some("/elsewhere")).is_none());
}

#[test]
fn backend_query_keeps_zero_scores() {
    let (index, _cfg, _) = indexed_sample();
    let all = query(&index, &QueryOptions::default());
    assert_eq!(all.len(), 5);
    let mut opts = QueryOptions::default();
    opts.query = Query::from_query_elements(vec!["txt".to_string()]);
    let hits: Vec<String> = query(&index, &opts).into_iter().map(|e| e.path).collect();
    assert_eq!(hits.len(), 3);
    assert!(hits.contains(&"/root/sub/deep/c.txt".to_string()));
}

#[test]
fn event_masks_give_steps_in_order() {
    let f = EventFlags { create: true, delete: true, moved_from: true, moved_to: true };
    assert_eq!(event_steps(f), vec![EventStep::Create, EventStep::Remove, EventStep::Remove, EventStep::Create]);
    let g = EventFlags { create: false, delete: false, moved_from: false, moved_to: true };
    assert_eq!(event_steps(g), vec![EventStep::Create]);
}

#[test]
fn commands_are_answered() {
    let (index, _cfg, _) = indexed_sample();
    let r = respond(&index, IpcCommand::Quit);
    assert_eq!(r.post, Some(ControlMsg::Quit));
    assert!(r.stop);
    assert!(matches!(r.response, IpcResponse::Success));
    let r = respond(&index, IpcCommand::FullIndex);
    assert_eq!(r.post, Some(ControlMsg::FullIndex));
    assert!(!r.stop);
    let r = respond(&index, IpcCommand::GetIndex(Some("/nope".to_string())));
    assert!(matches!(r.response, IpcResponse::NotFound));
    let r = respond(&index, IpcCommand::GetIndex(None));
    assert!(matches!(r.response, IpcResponse::Index(ref v) if v.len() == 5));
}

#[test]
fn responses_become_results() {
    let e = IndexEntry { path: "/a".to_string(), directory: false };
    assert_eq!(IpcResponse::Index(vec![e]).into_index().unwrap().len(), 1);
    assert_eq!(IpcResponse::NotFound.into_index().err(), Some(ClientError::NotFound));
    assert_eq!(IpcResponse::Success.into_query_result().err(), Some(ClientError::Unknown));
    assert_eq!(IpcResponse::Success.into_ack(), Ok(()));
    assert_eq!(IpcResponse::NotFound.into_ack(), Err(ClientError::Unknown));
}

#[test]
fn glob_patterns_decide_what_is_ignored() {
    let cfg = config(vec![dir("/r", true, &["*.tmp"])], &["build"]);
    assert!(cfg.is_ignored(0, "x.tmp"));
    assert!(cfg.is_ignored(0, "build"));
    assert!(!cfg.is_ignored(0, "x.txt"));
    assert!(!cfg.is_ignored(3, "x.tmp"));
    assert!(cfg.recurse(0));
    assert!(!cfg.recurse(1));
}

#[test]
fn bad_patterns_are_reported() {
    let sources = vec!["*.rs".to_string(), "[".to_string()];
    match parse_pattern_vec(&sources) {
        Err(e) => assert_eq!(e.pattern, "["),
        Ok(_) => panic!("an unclosed range must not parse"),
    }
    assert_eq!(parse_pattern_vec(&vec!["a*".to_string()]).ok().unwrap().len(), 1);
}

fn sorted_tree(index: &Index) -> Vec<(String, bool)> {
    let mut v: Vec<(String, bool)> =
        index.get_index(Some("/root")).unwrap().iter().map(|e| (e.path.clone(), e.directory)).collect();
    v.sort();
    v
}

#[test]
fn file_events_match_a_fresh_index() {
    let (mut index, cfg, _) = indexed_sample();
    assert!(index.create_index(&cfg, 2, "n.txt", EntryKind::File).is_none());
    assert!(index.remove_index(1, "a.txt").is_empty());
    let changed_fs = |p: &str| match p {
        "/root" => Some(vec![de("sub", EntryKind::Directory), de("skip.log", EntryKind::File)]),
        "/root/sub" => Some(vec![
            de("deep", EntryKind::Directory),
            de("b.txt", EntryKind::File),
            de("n.txt", EntryKind::File),
        ]),
        other => sample_fs(other),
    };
    let mut fresh = Index::new();
    let (_, scan) = fresh.full_index(&cfg);
    let mut next = 0;
    run_scan(&mut fresh, &cfg, scan, &changed_fs, &mut next);
    assert_eq!(sorted_tree(&index), sorted_tree(&fresh));
}
