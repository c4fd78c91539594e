//! The integrity engine: building, comparing, kind transitions, removal
//! residue, ignore exactness, and the database itself.

use tripwirs::config::Config;
use tripwirs::crypto::CryptoError;
use tripwirs::fs_iter::FSIterator;
use tripwirs::tripwirs::{
    compare_db, compare_path, gen_db, get_filehash, is_ignored, print_db, scan_path, CompareEvent,
    Db, NodeType, PathInfo, ScanEvent,
};

fn test_config() -> Config {
    Config { secret: vec![42u8; 192], scans: vec![b"/t".to_vec()], ignores: vec![] }
}

fn file_visit(path: &[u8], content: &[u8]) -> (Vec<u8>, Option<PathInfo>) {
    (path.to_vec(), Some(PathInfo::File(Some(content.to_vec()))))
}

#[test]
fn db_insert_overwrite_remove() {
    let mut db = Db::new();
    assert!(!db.contains(&b"a".to_vec()));
    db.insert(b"a".to_vec(), NodeType::F(1));
    db.insert(b"b".to_vec(), NodeType::L);
    assert!(db.contains(&b"a".to_vec()));
    assert!(!db.contains(&b"c".to_vec()));
    assert_eq!(db.len(), 2);
    db.insert(b"a".to_vec(), NodeType::D); // last write wins
    assert_eq!(db.len(), 2);
    assert_eq!(db.remove(&b"a".to_vec()), Some(NodeType::D));
    assert_eq!(db.remove(&b"a".to_vec()), None);
    assert_eq!(db.remove(&b"b".to_vec()), Some(NodeType::L));
    assert_eq!(db.len(), 0);
}

#[test]
fn walker_is_depth_first() {
    let mut it = FSIterator::new(b"/root".to_vec());
    let first = it.next().unwrap();
    assert_eq!(first, b"/root".to_vec());
    it.next_level(vec![b"/root/a".to_vec(), b"/root/b".to_vec()]);
    // children come off the stack last-pushed-first
    assert_eq!(it.next().unwrap(), b"/root/b".to_vec());
    it.next_level(vec![b"/root/b/c".to_vec()]);
    assert_eq!(it.next().unwrap(), b"/root/b/c".to_vec());
    assert_eq!(it.next().unwrap(), b"/root/a".to_vec());
    assert!(it.next().is_none());
}

#[test]
fn scan_records_each_kind() {
    let cfg = test_config();
    let mut db = Db::new();
    let h = get_filehash(&cfg, &b"hello".to_vec());

    let ev = scan_path(&cfg, &mut db, &b"/t/a.txt".to_vec(), &Some(PathInfo::File(Some(b"hello".to_vec()))));
    assert_eq!(ev, ScanEvent::FileRecorded(h));

    let ev = scan_path(&cfg, &mut db, &b"/t/link".to_vec(), &Some(PathInfo::Symlink));
    assert_eq!(ev, ScanEvent::SymlinkRecorded);

    let ev = scan_path(&cfg, &mut db, &b"/t/empty".to_vec(), &Some(PathInfo::Dir(Some(vec![]))));
    assert_eq!(ev, ScanEvent::EmptyDirRecorded);

    let ev = scan_path(&cfg, &mut db, &b"/t".to_vec(), &Some(PathInfo::Dir(Some(vec![b"/t/a.txt".to_vec()]))));
    assert_eq!(ev, ScanEvent::Descend);

    let ev = scan_path(&cfg, &mut db, &b"/t/bad".to_vec(), &Some(PathInfo::File(None)));
    assert_eq!(ev, ScanEvent::FileUnreadable);

    let ev = scan_path(&cfg, &mut db, &b"/t/locked".to_vec(), &Some(PathInfo::Dir(None)));
    assert_eq!(ev, ScanEvent::DirUnreadable);

    assert_eq!(db.len(), 3); // file, symlink, empty dir; nothing else
    assert_eq!(db.remove(&b"/t/a.txt".to_vec()), Some(NodeType::F(h)));
    assert_eq!(db.remove(&b"/t/link".to_vec()), Some(NodeType::L));
    assert_eq!(db.remove(&b"/t/empty".to_vec()), Some(NodeType::D));
}

#[test]
fn ignored_paths_leave_no_trace() {
    let mut cfg = test_config();
    cfg.ignores = vec![b"/t/skipme".to_vec()];
    assert!(is_ignored(&cfg, &b"/t/skipme".to_vec()));
    assert!(!is_ignored(&cfg, &b"/t/skip".to_vec()));

    let mut db = Db::new();
    let ev = scan_path(&cfg, &mut db, &b"/t/skipme".to_vec(), &Some(PathInfo::File(Some(b"x".to_vec()))));
    assert_eq!(ev, ScanEvent::Skipped);
    assert_eq!(db.len(), 0);

    db.insert(b"/t/skipme".to_vec(), NodeType::L);
    let ev = compare_path(&cfg, &mut db, &b"/t/skipme".to_vec(), &Some(PathInfo::Symlink));
    assert_eq!(ev, CompareEvent::Skipped);
    assert_eq!(db.len(), 1); // not popped either
}

#[test]
fn kind_transition_table() {
    let cfg = test_config();
    let h = get_filehash(&cfg, &b"c".to_vec());
    let observed_symlink = Some(PathInfo::Symlink);
    let observed_file = Some(PathInfo::File(Some(b"c".to_vec())));
    let observed_empty_dir = Some(PathInfo::Dir(Some(vec![])));
    let p = b"/t/x".to_vec();

    let cases: Vec<(Option<PathInfo>, Option<NodeType>, CompareEvent)> = vec![
        (observed_symlink.clone(), None, CompareEvent::NewSymlink),
        (observed_symlink.clone(), Some(NodeType::L), CompareEvent::Unchanged),
        (observed_symlink.clone(), Some(NodeType::F(9)), CompareEvent::SymlinkWasFile(9)),
        (observed_symlink.clone(), Some(NodeType::D), CompareEvent::SymlinkWasDir),
        (observed_file.clone(), None, CompareEvent::NewFile),
        (observed_file.clone(), Some(NodeType::F(h)), CompareEvent::Unchanged),
        (observed_file.clone(), Some(NodeType::F(h ^ 1)), CompareEvent::HashChanged(h ^ 1, h)),
        (observed_file.clone(), Some(NodeType::L), CompareEvent::FileWasSymlink),
        (observed_file.clone(), Some(NodeType::D), CompareEvent::FileWasDir),
        (observed_empty_dir.clone(), None, CompareEvent::NewDirectory),
        (observed_empty_dir.clone(), Some(NodeType::D), CompareEvent::Unchanged),
        (observed_empty_dir.clone(), Some(NodeType::F(9)), CompareEvent::FileIsNowDir),
        (observed_empty_dir.clone(), Some(NodeType::L), CompareEvent::SymlinkIsNowDir),
    ];
    for (observed, recorded, expected) in cases {
        let mut db = Db::new();
        if let Some(kind) = recorded {
            db.insert(p.clone(), kind);
        }
        let ev = compare_path(&cfg, &mut db, &p, &observed);
        assert_eq!(ev, expected);
        assert_eq!(db.len(), 0); // a compared visit always pops its record
    }
}

#[test]
fn recorded_file_unreadable_on_rehash() {
    let cfg = test_config();
    let mut db = Db::new();
    db.insert(b"/t/f".to_vec(), NodeType::F(7));
    let ev = compare_path(&cfg, &mut db, &b"/t/f".to_vec(), &Some(PathInfo::File(None)));
    assert_eq!(ev, CompareEvent::FileUnreadable);
    assert_eq!(db.len(), 0);
}

#[test]
fn unchanged_tree_compares_clean() {
    let cfg = test_config();
    let pass = b"pw".to_vec();
    let visits = vec![
        (b"/t".to_vec(), Some(PathInfo::Dir(Some(vec![b"/t/sub".to_vec(), b"/t/a.txt".to_vec()])))),
        file_visit(b"/t/a.txt", b"hello"),
        (b"/t/sub".to_vec(), Some(PathInfo::Dir(Some(vec![b"/t/sub/b.txt".to_vec()])))),
        file_visit(b"/t/sub/b.txt", b"world"),
        (b"/t/link".to_vec(), Some(PathInfo::Symlink)),
        (b"/t/empty".to_vec(), Some(PathInfo::Dir(Some(vec![])))),
    ];
    let (file, built) = gen_db(&cfg, &visits, None, &pass).unwrap();
    assert_eq!(built.len(), 4); // two files, one symlink, one empty dir
    let (events, residue) = compare_db(&cfg, &visits, &file, &pass).unwrap();
    assert_eq!(events.len(), visits.len());
    for ev in events {
        assert!(matches!(ev, CompareEvent::Unchanged | CompareEvent::Descend));
    }
    assert_eq!(residue.len(), 0);
}

#[test]
fn changed_content_reports_hash_change() {
    let cfg = test_config();
    let pass = b"pw".to_vec();
    let before = vec![
        file_visit(b"/t/a.txt", b"hello"),
        file_visit(b"/t/b.txt", b"same"),
    ];
    let after = vec![
        file_visit(b"/t/a.txt", b"HELLO"),
        file_visit(b"/t/b.txt", b"same"),
    ];
    let old_hash = get_filehash(&cfg, &b"hello".to_vec());
    let new_hash = get_filehash(&cfg, &b"HELLO".to_vec());
    assert_ne!(old_hash, new_hash);
    let (file, _) = gen_db(&cfg, &before, None, &pass).unwrap();
    let (events, residue) = compare_db(&cfg, &after, &file, &pass).unwrap();
    assert_eq!(events, vec![CompareEvent::HashChanged(old_hash, new_hash), CompareEvent::Unchanged]);
    assert_eq!(residue.len(), 0);
}

#[test]
fn removed_file_is_the_residue() {
    let cfg = test_config();
    let pass = b"pw".to_vec();
    let before = vec![
        file_visit(b"/t/a.txt", b"hello"),
        file_visit(b"/t/sub/b.txt", b"world"),
    ];
    // b.txt deleted; its parent now shows as a new empty directory
    let after = vec![
        file_visit(b"/t/a.txt", b"hello"),
        (b"/t/sub".to_vec(), Some(PathInfo::Dir(Some(vec![])))),
    ];
    let gone_hash = get_filehash(&cfg, &b"world".to_vec());
    let (file, _) = gen_db(&cfg, &before, None, &pass).unwrap();
    let (events, residue) = compare_db(&cfg, &after, &file, &pass).unwrap();
    assert_eq!(events, vec![CompareEvent::Unchanged, CompareEvent::NewDirectory]);
    assert_eq!(residue.entries, vec![(b"/t/sub/b.txt".to_vec(), NodeType::F(gone_hash))]);
}

#[test]
fn file_replaced_by_symlink() {
    let cfg = test_config();
    let pass = b"pw".to_vec();
    let before = vec![file_visit(b"/t/a.txt", b"hello")];
    let after = vec![(b"/t/a.txt".to_vec(), Some(PathInfo::Symlink))];
    let h = get_filehash(&cfg, &b"hello".to_vec());
    let (file, _) = gen_db(&cfg, &before, None, &pass).unwrap();
    let (events, residue) = compare_db(&cfg, &after, &file, &pass).unwrap();
    assert_eq!(events, vec![CompareEvent::SymlinkWasFile(h)]);
    assert_eq!(residue.len(), 0);
}

#[test]
fn duplicate_roots_follow_last_write_wins() {
    let cfg = test_config();
    let pass = b"pw".to_vec();
    // the same path visited twice, as with a root listed twice
    let visits = vec![
        file_visit(b"/t/a", b"one"),
        file_visit(b"/t/a", b"two"),
    ];
    let (_, built) = gen_db(&cfg, &visits, None, &pass).unwrap();
    let mut built = built;
    let h2 = get_filehash(&cfg, &b"two".to_vec());
    assert_eq!(built.len(), 1);
    assert_eq!(built.remove(&b"/t/a".to_vec()), Some(NodeType::F(h2)));
}

#[test]
fn sealed_db_round_trip_and_print() {
    let cfg = test_config();
    let pass = b"pw".to_vec();
    let visits = vec![
        file_visit(b"/t/one", b"1"),
        (b"/t/two".to_vec(), Some(PathInfo::Symlink)),
    ];
    let (file, built) = gen_db(&cfg, &visits, None, &pass).unwrap();
    let opened = print_db(&file, &pass).unwrap();
    assert_eq!(opened.entries, built.entries);
    assert!(matches!(print_db(&file, &b"bad".to_vec()), Err(CryptoError::WrongPassphrase)));
}

#[test]
fn db_overwrite_advances_nonce_and_keeps_contents() {
    let cfg = test_config();
    let pass = b"pw".to_vec();
    let visits = vec![file_visit(b"/t/a", b"stable")];
    let (file1, db1) = gen_db(&cfg, &visits, None, &pass).unwrap();
    let (file2, db2) = gen_db(&cfg, &visits, Some(&file1), &pass).unwrap();
    assert_ne!(file1, file2);
    assert_eq!(file1[file1.len() - 1], 1);
    assert_eq!(file2[file2.len() - 1], 2);
    assert_eq!(db1.entries, db2.entries);
    let opened1 = print_db(&file1, &pass).unwrap();
    let opened2 = print_db(&file2, &pass).unwrap();
    assert_eq!(opened1.entries, opened2.entries);
}

#[test]
fn empty_walk_leaves_everything_as_residue() {
    let cfg = test_config();
    let pass = b"pw".to_vec();
    let before = vec![
        file_visit(b"/t/a", b"x"),
        (b"/t/l".to_vec(), Some(PathInfo::Symlink)),
        (b"/t/d".to_vec(), Some(PathInfo::Dir(Some(vec![])))),
    ];
    let (file, built) = gen_db(&cfg, &before, None, &pass).unwrap();
    let nothing: Vec<(Vec<u8>, Option<PathInfo>)> = Vec::new();
    let (events, residue) = compare_db(&cfg, &nothing, &file, &pass).unwrap();
    assert_eq!(events.len(), 0);
    assert_eq!(residue.entries, built.entries);
}

#[test]
fn keyed_hash_is_stable_and_keyed() {
    let mut cfg = test_config();
    cfg.secret = (0..192u32).map(|i| (i % 251) as u8).collect();
    let content = b"the same bytes".to_vec();
    assert_eq!(get_filehash(&cfg, &content), get_filehash(&cfg, &content));
    let mut other = test_config();
    other.secret = (0..192u32).map(|i| ((i * 7 + 3) % 253) as u8).collect();
    assert_ne!(get_filehash(&cfg, &content), get_filehash(&other, &content));
    assert_ne!(get_filehash(&cfg, &content), get_filehash(&cfg, &b"other bytes".to_vec()));
}

#[test]
fn wrong_passphrase_on_compare() {
    let cfg = test_config();
    let visits = vec![file_visit(b"/t/a", b"x")];
    let (file, _) = gen_db(&cfg, &visits, None, &b"right".to_vec()).unwrap();
    assert!(matches!(
        compare_db(&cfg, &visits, &file, &b"wrong".to_vec()),
        Err(CryptoError::WrongPassphrase)
    ));
}
