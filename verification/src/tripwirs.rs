//! The integrity engine: the database of recorded nodes, keyed content
//! hashing, and the builder and comparator that fold walk observations into
//! a fresh database or a diff against a recorded one.

use vstd::prelude::*;
use crate::bytes::{bytes_eq, clone_bytes};
use crate::codec::{dec_db, enc_db, decode_db, encode_db, entries_fit, lemma_db_roundtrip};
use crate::config::Config;
use crate::crypto::{
    chacha_seal, envelope_body, envelope_nonce, envelope_valid, read_decrypted, save_encrypted,
    spec_advance, spec_envelope, spec_key_fit, spec_nonce_bytes, CryptoError, SEAL_MAX_LEN,
};

verus! {

/// The recorded kind of one node: a regular file with its 64-bit keyed
/// content hash, an empty directory, or a symbolic link.
#[derive(Clone, Copy, Debug, PartialEq, Eq, Structural)]
pub enum NodeType {
    /// A regular file and its keyed content hash.
    F(u64),
    /// A directory whose enumeration yielded no entries at record time.
    D,
    /// A symbolic link; its target is never read.
    L,
}

/// Whether no two entries of a path/node sequence share a path.
pub open spec fn keys_unique(s: Seq<(Seq<u8>, NodeType)>) -> bool {
    forall|i: int, j: int|
        0 <= i < j < s.len() ==> (#[trigger] s[i]).0 != (#[trigger] s[j]).0
}

/// The mapping a path/node sequence stands for, later pairs overwriting
/// earlier ones.
pub open spec fn seq_to_map(s: Seq<(Seq<u8>, NodeType)>) -> Map<Seq<u8>, NodeType>
    decreases s.len(),
{
    if s.len() == 0 {
        Map::empty()
    } else {
        seq_to_map(s.drop_last()).insert(s.last().0, s.last().1)
    }
}

/// The spec-level contents of a vector of owned path/node pairs.
pub open spec fn entries_view(entries: Seq<(Vec<u8>, NodeType)>) -> Seq<(Seq<u8>, NodeType)> {
    entries.map(|i: int, e: (Vec<u8>, NodeType)| (e.0@, e.1))
}

/// A key is in the mapping of a sequence exactly when some pair carries it.
pub proof fn lemma_seq_to_map_contains(s: Seq<(Seq<u8>, NodeType)>, k: Seq<u8>)
    ensures
        seq_to_map(s).contains_key(k) <==> exists|i: int| 0 <= i < s.len() && (#[trigger] s[i]).0
            == k,
    decreases s.len(),
{
    if s.len() > 0 {
        lemma_seq_to_map_contains(s.drop_last(), k);
        if s.last().0 == k {
            assert(s[s.len() - 1].0 == k);
        } else if seq_to_map(s).contains_key(k) {
            let i = choose|i: int| 0 <= i < s.drop_last().len() && (#[trigger] s.drop_last()[i]).0
                == k;
            assert(s[i].0 == k);
        } else {
            assert forall|i: int| 0 <= i < s.len() implies (#[trigger] s[i]).0 != k by {
                if i < s.len() - 1 {
                    assert(s.drop_last()[i].0 == s[i].0);
                }
            }
        }
    }
}

/// With unique keys, the mapping of a sequence sends each pair's path to
/// that pair's node.
pub proof fn lemma_seq_to_map_index(s: Seq<(Seq<u8>, NodeType)>, i: int)
    requires
        keys_unique(s),
        0 <= i < s.len(),
    ensures
        seq_to_map(s).contains_key(s[i].0),
        seq_to_map(s)[s[i].0] == s[i].1,
    decreases s.len(),
{
    if i == s.len() - 1 {
    } else {
        assert(keys_unique(s.drop_last())) by {
            assert forall|x: int, y: int|
                0 <= x < y < s.drop_last().len() implies (#[trigger] s.drop_last()[x]).0
                != (#[trigger] s.drop_last()[y]).0 by {
                assert(s[x].0 != s[y].0);
            }
        }
        assert(s.drop_last()[i] == s[i]);
        lemma_seq_to_map_index(s.drop_last(), i);
        assert(s[i].0 != s.last().0);
    }
}

/// Dropping the last pair of a unique-key sequence keeps the keys unique.
pub proof fn lemma_keys_unique_drop_last(s: Seq<(Seq<u8>, NodeType)>)
    requires
        keys_unique(s),
        s.len() > 0,
    ensures
        keys_unique(s.drop_last()),
{
    assert forall|x: int, y: int|
        0 <= x < y < s.drop_last().len() implies (#[trigger] s.drop_last()[x]).0
        != (#[trigger] s.drop_last()[y]).0 by {
        assert(s[x].0 != s[y].0);
    }
}

/// Replacing the node of the pair at `i` updates the mapping at that
/// pair's path.
pub proof fn lemma_seq_to_map_update(s: Seq<(Seq<u8>, NodeType)>, i: int, v: NodeType)
    requires
        keys_unique(s),
        0 <= i < s.len(),
    ensures
        seq_to_map(s.update(i, (s[i].0, v))) =~= seq_to_map(s).insert(s[i].0, v),
    decreases s.len(),
{
    let t = s.update(i, (s[i].0, v));
    if i == s.len() - 1 {
        assert(t.drop_last() =~= s.drop_last());
        assert(t.last() == (s[i].0, v));
    } else {
        lemma_keys_unique_drop_last(s);
        assert(s.drop_last()[i] == s[i]);
        lemma_seq_to_map_update(s.drop_last(), i, v);
        assert(t.drop_last() =~= s.drop_last().update(i, (s[i].0, v)));
        assert(t.last() == s.last());
        assert(s[i].0 != s.last().0);
    }
}

/// Removing the pair at `i` removes that pair's path from the mapping.
pub proof fn lemma_seq_to_map_remove(s: Seq<(Seq<u8>, NodeType)>, i: int)
    requires
        keys_unique(s),
        0 <= i < s.len(),
    ensures
        seq_to_map(s.remove(i)) =~= seq_to_map(s).remove(s[i].0),
    decreases s.len(),
{
    let t = s.remove(i);
    if i == s.len() - 1 {
        assert(t =~= s.drop_last());
        lemma_keys_unique_drop_last(s);
        lemma_seq_to_map_contains(s.drop_last(), s[i].0);
        assert forall|j: int| 0 <= j < s.drop_last().len() implies (#[trigger] s.drop_last()[j]).0
            != s[i].0 by {
            assert(s[j].0 != s[i].0);
        }
        assert(seq_to_map(s).remove(s[i].0) =~= seq_to_map(s.drop_last()));
    } else {
        lemma_keys_unique_drop_last(s);
        assert(s.drop_last()[i] == s[i]);
        lemma_seq_to_map_remove(s.drop_last(), i);
        assert(t.drop_last() =~= s.drop_last().remove(i));
        assert(t.last() == s.last());
        assert(s[i].0 != s.last().0);
    }
}

/// The recorded integrity database: a mapping from path keys to node kinds,
/// stored as a sequence of pairs with pairwise distinct paths.
pub struct Db {
    pub entries: Vec<(Vec<u8>, NodeType)>,
}

impl View for Db {
    type V = Map<Seq<u8>, NodeType>;

    open spec fn view(&self) -> Map<Seq<u8>, NodeType> {
        seq_to_map(entries_view(self.entries@))
    }
}

impl Db {
    /// Well-formed: no path is recorded twice.
    pub open spec fn wf(&self) -> bool {
        keys_unique(entries_view(self.entries@))
    }

    /// An empty database.
    pub fn new() -> (db: Db)
        ensures
            db.wf(),
            db@ == Map::<Seq<u8>, NodeType>::empty(),
            db.entries@.len() == 0,
    {
        Db { entries: Vec::new() }
    }

    /// The position of a path's entry, if the path is recorded.
    fn find(&self, path: &Vec<u8>) -> (r: Option<usize>)
        ensures
            r matches Some(i) ==> i < self.entries@.len() && entries_view(
                self.entries@,
            )[i as int].0 == path@,
            r is None ==> forall|i: int|
                0 <= i < self.entries@.len() ==> entries_view(self.entries@)[i].0 != path@,
    {
        let mut i: usize = 0;
        while i < self.entries.len()
            invariant
                0 <= i <= self.entries@.len(),
                forall|j: int| 0 <= j < i ==> entries_view(self.entries@)[j].0 != path@,
            decreases self.entries@.len() - i,
        {
            if bytes_eq(&self.entries[i].0, path) {
                return Some(i);
            }
            i += 1;
        }
        None
    }

    /// Whether a path is recorded.
    pub fn contains(&self, path: &Vec<u8>) -> (r: bool)
        requires
            self.wf(),
        ensures
            r == self@.contains_key(path@),
    {
        let r = self.find(path);
        proof {
            let ev = entries_view(self.entries@);
            lemma_seq_to_map_contains(ev, path@);
            match r {
                Some(i) => {
                    assert(ev[i as int].0 == path@);
                },
                None => {},
            }
        }
        r.is_some()
    }

    /// Records a node for a path, overwriting any prior record.
    pub fn insert(&mut self, path: Vec<u8>, node: NodeType)
        requires
            old(self).wf(),
        ensures
            final(self).wf(),
            final(self)@ == old(self)@.insert(path@, node),
    {
        let found = self.find(&path);
        proof {
            let ev = entries_view(self.entries@);
            lemma_seq_to_map_contains(ev, path@);
        }
        match found {
            Some(i) => {
                proof {
                    let ev = entries_view(self.entries@);
                    lemma_seq_to_map_update(ev, i as int, node);
                }
                let ghost old_entries = self.entries@;
                self.entries[i] = (path, node);
                proof {
                    assert(entries_view(self.entries@) =~= entries_view(old_entries).update(
                        i as int,
                        (entries_view(old_entries)[i as int].0, node),
                    ));
                    assert forall|x: int, y: int|
                        0 <= x < y < entries_view(self.entries@).len() implies (#[trigger]
                        entries_view(self.entries@)[x]).0 != (#[trigger] entries_view(
                            self.entries@,
                        )[y]).0 by {
                        assert(entries_view(old_entries)[x].0 != entries_view(old_entries)[y].0);
                    }
                }
            },
            None => {
                let ghost old_entries = self.entries@;
                self.entries.push((path, node));
                proof {
                    let ev = entries_view(old_entries);
                    let newv = entries_view(self.entries@);
                    assert(newv =~= ev.push((path@, node)));
                    assert(newv.drop_last() =~= ev);
                    assert forall|x: int, y: int|
                        0 <= x < y < newv.len() implies (#[trigger] newv[x]).0 != (#[trigger]
                        newv[y]).0 by {
                        if y < newv.len() - 1 {
                            assert(ev[x].0 != ev[y].0);
                        } else {
                            assert(ev[x].0 != path@);
                        }
                    }
                }
            },
        }
    }

    /// Removes a path's record and returns it, or `None` if the path is not
    /// recorded.
    pub fn remove(&mut self, path: &Vec<u8>) -> (r: Option<NodeType>)
        requires
            old(self).wf(),
        ensures
            final(self).wf(),
            old(self)@.contains_key(path@) ==> r == Some(old(self)@[path@]) && final(self)@ == old(
                self,
            )@.remove(path@),
            !old(self)@.contains_key(path@) ==> r is None && *final(self) == *old(self),
    {
        let found = self.find(path);
        proof {
            let ev = entries_view(self.entries@);
            lemma_seq_to_map_contains(ev, path@);
        }
        match found {
            Some(i) => {
                proof {
                    let ev = entries_view(self.entries@);
                    lemma_seq_to_map_index(ev, i as int);
                    lemma_seq_to_map_remove(ev, i as int);
                }
                let ghost old_entries = self.entries@;
                let (_, node) = self.entries.remove(i);
                proof {
                    let ev = entries_view(old_entries);
                    assert(entries_view(self.entries@) =~= ev.remove(i as int));
                    assert forall|x: int, y: int|
                        0 <= x < y < ev.remove(i as int).len() implies (#[trigger] ev.remove(
                            i as int,
                        )[x]).0 != (#[trigger] ev.remove(i as int)[y]).0 by {
                        if x < i && y < i {
                            assert(ev[x].0 != ev[y].0);
                        } else if x < i {
                            assert(ev[x].0 != ev[y + 1].0);
                        } else {
                            assert(ev[x + 1].0 != ev[y + 1].0);
                        }
                    }
                }
                Some(node)
            },
            None => None,
        }
    }

    /// How many paths are recorded.
    pub fn len(&self) -> (n: usize)
        ensures
            n == self.entries@.len(),
    {
        self.entries.len()
    }
}

// ---------------------------------------------------------------------------
// Keyed content hashing
// ---------------------------------------------------------------------------

/// What the keyed 64-bit content hash returns for a secret and a content:
/// a function of the two arguments alone, identical in every run.
pub uninterp spec fn xxh3_of(secret: Seq<u8>, content: Seq<u8>) -> u64;

/// Relies on xxhash_rust's `xxh3_64_with_secret`: the hash is a function of
/// the secret and the input bytes alone. The callee asserts a minimum
/// secret length, which the policy's 192-byte secret satisfies.
#[verifier::external_body]
fn xxh3_hash(secret: &Vec<u8>, content: &Vec<u8>) -> (r: u64)
    requires
        secret@.len() == 192,
    ensures
        r == xxh3_of(secret@, content@),
{
    xxhash_rust::xxh3::xxh3_64_with_secret(content.as_slice(), secret.as_slice())
}

/// The keyed content hash of a file's bytes under a policy's secret.
pub fn get_filehash(config: &Config, content: &Vec<u8>) -> (h: u64)
    requires
        config.wf(),
    ensures
        h == xxh3_of(config.secret@, content@),
{
    xxh3_hash(&config.secret, content)
}

/// The keyed hash is deterministic in the secret and the content: equal
/// inputs hash equally, in every process and on every machine.
pub proof fn lemma_filehash_deterministic(s1: Seq<u8>, c1: Seq<u8>, s2: Seq<u8>, c2: Seq<u8>)
    requires
        s1 == s2,
        c1 == c2,
    ensures
        xxh3_of(s1, c1) == xxh3_of(s2, c2),
{
}

// ---------------------------------------------------------------------------
// Walk observations and ignore matching
// ---------------------------------------------------------------------------

/// What probing one visited path observed.
#[derive(Clone, Debug)]
pub enum PathInfo {
    /// The path is a symbolic link, tested without dereferencing; its
    /// target is never read.
    Symlink,
    /// The path is a regular file, with its content, or `None` when
    /// reading the content failed.
    File(Option<Vec<u8>>),
    /// The path is a directory, with its children's paths, or `None` when
    /// enumerating it failed.
    Dir(Option<Vec<Vec<u8>>>),
}

/// Whether a path is listed in the policy's ignores, by exact equality.
pub open spec fn ignored(cfg: Config, p: Seq<u8>) -> bool {
    exists|k: int| 0 <= k < cfg.ignores@.len() && (#[trigger] cfg.ignores@[k])@ == p
}

/// Tests a path against the policy's ignores by exact string equality.
pub fn is_ignored(config: &Config, path: &Vec<u8>) -> (r: bool)
    ensures
        r == ignored(*config, path@),
{
    let mut k: usize = 0;
    while k < config.ignores.len()
        invariant
            0 <= k <= config.ignores@.len(),
            forall|j: int| 0 <= j < k ==> (#[trigger] config.ignores@[j])@ != path@,
        decreases config.ignores@.len() - k,
    {
        if bytes_eq(&config.ignores[k], path) {
            return true;
        }
        k += 1;
    }
    false
}

// ---------------------------------------------------------------------------
// The builder: one visit's effect on a fresh database
// ---------------------------------------------------------------------------

/// What the builder reports for one visit.
#[derive(Clone, Copy, Debug, PartialEq, Eq, Structural)]
pub enum ScanEvent {
    /// The path is ignored: nothing recorded, children not walked.
    Skipped,
    /// The path was not probed: nothing recorded.
    NoInfo,
    /// A symbolic link was recorded.
    SymlinkRecorded,
    /// A regular file was recorded with its keyed content hash.
    FileRecorded(u64),
    /// The file's content could not be read: reported, nothing recorded.
    FileUnreadable,
    /// A non-empty directory: its children are walked, nothing recorded.
    Descend,
    /// An empty directory was recorded.
    EmptyDirRecorded,
    /// The directory could not be enumerated: reported, nothing recorded.
    DirUnreadable,
}

/// The database after the builder handles one visit.
pub open spec fn scan_step_map(
    cfg: Config,
    db: Map<Seq<u8>, NodeType>,
    path: Vec<u8>,
    info: Option<PathInfo>,
) -> Map<Seq<u8>, NodeType> {
    if ignored(cfg, path@) {
        db
    } else {
        match info {
            None => db,
            Some(PathInfo::Symlink) => db.insert(path@, NodeType::L),
            Some(PathInfo::File(c)) => match c {
                Some(content) => db.insert(path@, NodeType::F(xxh3_of(cfg.secret@, content@))),
                None => db,
            },
            Some(PathInfo::Dir(ch)) => match ch {
                Some(children) => if children@.len() == 0 {
                    db.insert(path@, NodeType::D)
                } else {
                    db
                },
                None => db,
            },
        }
    }
}

/// What the builder reports for one visit.
pub open spec fn scan_step_event(
    cfg: Config,
    db: Map<Seq<u8>, NodeType>,
    path: Vec<u8>,
    info: Option<PathInfo>,
) -> ScanEvent {
    if ignored(cfg, path@) {
        ScanEvent::Skipped
    } else {
        match info {
            None => ScanEvent::NoInfo,
            Some(PathInfo::Symlink) => ScanEvent::SymlinkRecorded,
            Some(PathInfo::File(c)) => match c {
                Some(content) => ScanEvent::FileRecorded(xxh3_of(cfg.secret@, content@)),
                None => ScanEvent::FileUnreadable,
            },
            Some(PathInfo::Dir(ch)) => match ch {
                Some(children) => if children@.len() == 0 {
                    ScanEvent::EmptyDirRecorded
                } else {
                    ScanEvent::Descend
                },
                None => ScanEvent::DirUnreadable,
            },
        }
    }
}

/// Applies one visit to a database being built: ignored paths record
/// nothing; symlinks, readable files and empty directories are recorded,
/// later visits of a path overwriting earlier ones; everything else only
/// reports.
pub fn scan_path(config: &Config, db: &mut Db, path: &Vec<u8>, info: &Option<PathInfo>) -> (ev:
    ScanEvent)
    requires
        config.wf(),
        old(db).wf(),
    ensures
        final(db).wf(),
        final(db)@ == scan_step_map(*config, old(db)@, *path, *info),
        ev == scan_step_event(*config, old(db)@, *path, *info),
{
    if is_ignored(config, path) {
        return ScanEvent::Skipped;
    }
    match info {
        None => ScanEvent::NoInfo,
        Some(PathInfo::Symlink) => {
            db.insert(clone_bytes(path), NodeType::L);
            ScanEvent::SymlinkRecorded
        },
        Some(PathInfo::File(c)) => match c {
            Some(content) => {
                let h = get_filehash(config, content);
                db.insert(clone_bytes(path), NodeType::F(h));
                ScanEvent::FileRecorded(h)
            },
            None => ScanEvent::FileUnreadable,
        },
        Some(PathInfo::Dir(ch)) => match ch {
            Some(children) => {
                if children.len() == 0 {
                    db.insert(clone_bytes(path), NodeType::D);
                    ScanEvent::EmptyDirRecorded
                } else {
                    ScanEvent::Descend
                }
            },
            None => ScanEvent::DirUnreadable,
        },
    }
}

// ---------------------------------------------------------------------------
// The comparator: one visit held against the recorded database
// ---------------------------------------------------------------------------

/// What the comparator reports for one visit, or for one leftover record.
#[derive(Clone, Copy, Debug, PartialEq, Eq, Structural)]
pub enum CompareEvent {
    /// The path is ignored: no comparison.
    Skipped,
    /// The path was not probed: no comparison.
    NoInfo,
    /// The observed node matches its record: silence.
    Unchanged,
    /// A symlink with no record.
    NewSymlink,
    /// A symlink recorded as a file, with the recorded hash.
    SymlinkWasFile(u64),
    /// A symlink recorded as an empty directory.
    SymlinkWasDir,
    /// A file with no record.
    NewFile,
    /// A file whose content hash changed: the recorded and the new hash.
    HashChanged(u64, u64),
    /// A file recorded as an empty directory.
    FileWasDir,
    /// A file recorded as a symlink.
    FileWasSymlink,
    /// A recorded file whose content could not be read for rehashing:
    /// reported, the walk continues.
    FileUnreadable,
    /// An empty directory with no record.
    NewDirectory,
    /// An empty directory recorded as a file.
    FileIsNowDir,
    /// An empty directory recorded as a symlink.
    SymlinkIsNowDir,
    /// A non-empty directory: its children are walked, no comparison.
    Descend,
    /// The directory could not be enumerated: reported, no comparison.
    DirUnreadable,
}

/// The database after the comparator handles one visit: a compared visit
/// pops its path's record, so what is left after the walk is exactly the
/// set of removed nodes.
pub open spec fn compare_step_map(
    cfg: Config,
    db: Map<Seq<u8>, NodeType>,
    path: Vec<u8>,
    info: Option<PathInfo>,
) -> Map<Seq<u8>, NodeType> {
    if ignored(cfg, path@) {
        db
    } else {
        match info {
            None => db,
            Some(PathInfo::Symlink) => if db.contains_key(path@) {
                db.remove(path@)
            } else {
                db
            },
            Some(PathInfo::File(c)) => if db.contains_key(path@) {
                db.remove(path@)
            } else {
                db
            },
            Some(PathInfo::Dir(ch)) => match ch {
                Some(children) => if children@.len() == 0 && db.contains_key(path@) {
                    db.remove(path@)
                } else {
                    db
                },
                None => db,
            },
        }
    }
}

/// What the comparator reports for one visit: exactly the transition table
/// between the observed kind and the recorded kind.
pub open spec fn compare_step_event(
    cfg: Config,
    db: Map<Seq<u8>, NodeType>,
    path: Vec<u8>,
    info: Option<PathInfo>,
) -> CompareEvent {
    if ignored(cfg, path@) {
        CompareEvent::Skipped
    } else {
        match info {
            None => CompareEvent::NoInfo,
            Some(PathInfo::Symlink) => if !db.contains_key(path@) {
                CompareEvent::NewSymlink
            } else {
                match db[path@] {
                    NodeType::L => CompareEvent::Unchanged,
                    NodeType::F(h) => CompareEvent::SymlinkWasFile(h),
                    NodeType::D => CompareEvent::SymlinkWasDir,
                }
            },
            Some(PathInfo::File(c)) => if !db.contains_key(path@) {
                CompareEvent::NewFile
            } else {
                match db[path@] {
                    NodeType::F(old_hash) => match c {
                        Some(content) => if xxh3_of(cfg.secret@, content@) == old_hash {
                            CompareEvent::Unchanged
                        } else {
                            CompareEvent::HashChanged(old_hash, xxh3_of(cfg.secret@, content@))
                        },
                        None => CompareEvent::FileUnreadable,
                    },
                    NodeType::D => CompareEvent::FileWasDir,
                    NodeType::L => CompareEvent::FileWasSymlink,
                }
            },
            Some(PathInfo::Dir(ch)) => match ch {
                None => CompareEvent::DirUnreadable,
                Some(children) => if children@.len() > 0 {
                    CompareEvent::Descend
                } else if !db.contains_key(path@) {
                    CompareEvent::NewDirectory
                } else {
                    match db[path@] {
                        NodeType::F(h) => CompareEvent::FileIsNowDir,
                        NodeType::L => CompareEvent::SymlinkIsNowDir,
                        NodeType::D => CompareEvent::Unchanged,
                    }
                },
            },
        }
    }
}

/// Holds one visit against the recorded database: pops the path's record
/// and reports the transition between what is observed and what was
/// recorded, rehashing file content to detect mutations.
pub fn compare_path(config: &Config, db: &mut Db, path: &Vec<u8>, info: &Option<PathInfo>) -> (ev:
    CompareEvent)
    requires
        config.wf(),
        old(db).wf(),
    ensures
        final(db).wf(),
        final(db)@ == compare_step_map(*config, old(db)@, *path, *info),
        ev == compare_step_event(*config, old(db)@, *path, *info),
{
    if is_ignored(config, path) {
        return CompareEvent::Skipped;
    }
    match info {
        None => CompareEvent::NoInfo,
        Some(PathInfo::Symlink) => {
            match db.remove(path) {
                Some(NodeType::F(hash)) => CompareEvent::SymlinkWasFile(hash),
                Some(NodeType::D) => CompareEvent::SymlinkWasDir,
                Some(NodeType::L) => CompareEvent::Unchanged,
                None => CompareEvent::NewSymlink,
            }
        },
        Some(PathInfo::File(c)) => {
            match db.remove(path) {
                Some(NodeType::F(old_hash)) => match c {
                    Some(content) => {
                        let new_hash = get_filehash(config, content);
                        if old_hash != new_hash {
                            CompareEvent::HashChanged(old_hash, new_hash)
                        } else {
                            CompareEvent::Unchanged
                        }
                    },
                    None => CompareEvent::FileUnreadable,
                },
                Some(NodeType::D) => CompareEvent::FileWasDir,
                Some(NodeType::L) => CompareEvent::FileWasSymlink,
                None => CompareEvent::NewFile,
            }
        },
        Some(PathInfo::Dir(ch)) => match ch {
            Some(children) => {
                if children.len() == 0 {
                    match db.remove(path) {
                        Some(NodeType::F(_)) => CompareEvent::FileIsNowDir,
                        Some(NodeType::L) => CompareEvent::SymlinkIsNowDir,
                        Some(NodeType::D) => CompareEvent::Unchanged,
                        None => CompareEvent::NewDirectory,
                    }
                } else {
                    CompareEvent::Descend
                }
            },
            None => CompareEvent::DirUnreadable,
        },
    }
}

// ---------------------------------------------------------------------------
// Whole walks: folding the engine over a sequence of visits
// ---------------------------------------------------------------------------

/// The database built by folding the builder over a walk's visits, in
/// order.
pub open spec fn scan_fold(
    cfg: Config,
    visits: Seq<(Vec<u8>, Option<PathInfo>)>,
    db: Map<Seq<u8>, NodeType>,
) -> Map<Seq<u8>, NodeType>
    decreases visits.len(),
{
    if visits.len() == 0 {
        db
    } else {
        scan_step_map(
            cfg,
            scan_fold(cfg, visits.drop_last(), db),
            visits.last().0,
            visits.last().1,
        )
    }
}

/// The database left after folding the comparator over a walk's visits.
pub open spec fn compare_fold_map(
    cfg: Config,
    visits: Seq<(Vec<u8>, Option<PathInfo>)>,
    db: Map<Seq<u8>, NodeType>,
) -> Map<Seq<u8>, NodeType>
    decreases visits.len(),
{
    if visits.len() == 0 {
        db
    } else {
        compare_step_map(
            cfg,
            compare_fold_map(cfg, visits.drop_last(), db),
            visits.last().0,
            visits.last().1,
        )
    }
}

/// The events reported while folding the comparator over a walk's visits,
/// one per visit, in order.
pub open spec fn compare_fold_events(
    cfg: Config,
    visits: Seq<(Vec<u8>, Option<PathInfo>)>,
    db: Map<Seq<u8>, NodeType>,
) -> Seq<CompareEvent>
    decreases visits.len(),
{
    if visits.len() == 0 {
        Seq::empty()
    } else {
        compare_fold_events(cfg, visits.drop_last(), db).push(
            compare_step_event(
                cfg,
                compare_fold_map(cfg, visits.drop_last(), db),
                visits.last().0,
                visits.last().1,
            ),
        )
    }
}

/// Builds a database from a walk's visits and seals it for the target
/// path, whose current content (if the target exists) is handed in for
/// nonce recovery.
///
/// Returns the sealed envelope file together with the built database.
pub fn gen_db(
    config: &Config,
    visits: &Vec<(Vec<u8>, Option<PathInfo>)>,
    existing: Option<&Vec<u8>>,
    passphrase: &Vec<u8>,
) -> (r: Result<(Vec<u8>, Db), CryptoError>)
    requires
        config.wf(),
        passphrase@.len() > 0,
    ensures
        r matches Ok(v) ==> ({
            &&& v.1.wf()
            &&& v.1@ == scan_fold(*config, visits@, Map::<Seq<u8>, NodeType>::empty())
            &&& (existing is None ==> v.0@ == spec_envelope(
                spec_key_fit(passphrase@),
                1,
                enc_db(entries_view(v.1.entries@)),
            ))
        }),
        existing matches Some(d) ==> (r matches Ok(v) ==> d@.len() >= 16 && envelope_valid(
            spec_key_fit(passphrase@),
            d@,
        ) && v.0@ == spec_envelope(
            spec_key_fit(passphrase@),
            spec_advance(envelope_nonce(d@)),
            enc_db(entries_view(v.1.entries@)),
        )),
        existing matches Some(d) ==> ((d@.len() < 16 || !envelope_valid(
            spec_key_fit(passphrase@),
            d@,
        )) ==> r == Err::<(Vec<u8>, Db), CryptoError>(CryptoError::CannotGetNonceFromExistingFile)),
        existing is None ==> (r matches Err(e) ==> e == CryptoError::CouldNotEncrypt),
        existing matches Some(d) ==> ((d@.len() >= 16 && envelope_valid(
            spec_key_fit(passphrase@),
            d@,
        )) ==> r != Err::<(Vec<u8>, Db), CryptoError>(
            CryptoError::CannotGetNonceFromExistingFile,
        )),
        r matches Err(e) ==> (e == CryptoError::CouldNotEncrypt ==> exists|
            l: Seq<(Seq<u8>, NodeType)>,
        |
            keys_unique(l) && seq_to_map(l) == scan_fold(
                *config,
                visits@,
                Map::<Seq<u8>, NodeType>::empty(),
            ) && enc_db(l).len() > SEAL_MAX_LEN),
        r matches Err(e) ==> e == CryptoError::CannotGetNonceFromExistingFile || e
            == CryptoError::CouldNotEncrypt,
{
    let mut db = Db::new();
    let mut i: usize = 0;
    while i < visits.len()
        invariant
            config.wf(),
            0 <= i <= visits@.len(),
            db.wf(),
            db@ == scan_fold(*config, visits@.take(i as int), Map::<Seq<u8>, NodeType>::empty()),
        decreases visits@.len() - i,
    {
        proof {
            assert(visits@.take(i + 1).drop_last() =~= visits@.take(i as int));
            assert(visits@.take(i + 1).last() == visits@[i as int]);
        }
        scan_path(config, &mut db, &visits[i].0, &visits[i].1);
        i += 1;
    }
    proof {
        assert(visits@.take(visits@.len() as int) =~= visits@);
    }
    let plain = encode_db(&db);
    match save_encrypted(&plain, existing, passphrase) {
        Ok(out) => Ok((out, db)),
        Err(e) => {
            proof {
                if e == CryptoError::CouldNotEncrypt {
                    assert(keys_unique(entries_view(db.entries@)) && seq_to_map(
                        entries_view(db.entries@),
                    ) == scan_fold(*config, visits@, Map::<Seq<u8>, NodeType>::empty())
                        && enc_db(entries_view(db.entries@)).len() > SEAL_MAX_LEN);
                }
            }
            Err(e)
        },
    }
}

/// Opens a recorded database, folds the comparator over a walk's visits,
/// and returns the events in visit order together with the residual
/// database, whose records are exactly the nodes removed since recording.
pub fn compare_db(
    config: &Config,
    visits: &Vec<(Vec<u8>, Option<PathInfo>)>,
    data: &Vec<u8>,
    passphrase: &Vec<u8>,
) -> (r: Result<(Vec<CompareEvent>, Db), CryptoError>)
    requires
        config.wf(),
        passphrase@.len() > 0,
    ensures
        data@.len() < 16 <==> r == Err::<(Vec<CompareEvent>, Db), CryptoError>(
            CryptoError::EncryptedDataTooShort,
        ),
        forall|plain: Seq<u8>|
            (data@.len() >= 16 && envelope_body(data@) == chacha_seal(
                spec_key_fit(passphrase@),
                spec_nonce_bytes(envelope_nonce(data@)),
                plain,
            )) ==> ({
                &&& (dec_db(plain) matches Some(items) ==> (r matches Ok(v) && v.1.wf() && v.0@
                    == compare_fold_events(*config, visits@, seq_to_map(items)) && v.1@
                    == compare_fold_map(*config, visits@, seq_to_map(items))))
                &&& (dec_db(plain) is None ==> r == Err::<(Vec<CompareEvent>, Db), CryptoError>(
                    CryptoError::DecodeError,
                ))
            }),
        r matches Err(e) ==> e == CryptoError::EncryptedDataTooShort || e
            == CryptoError::WrongPassphrase || e == CryptoError::DecodeError,
        r is Ok ==> data@.len() >= 16 && exists|plain: Seq<u8>|
            envelope_body(data@) == chacha_seal(
                spec_key_fit(passphrase@),
                spec_nonce_bytes(envelope_nonce(data@)),
                plain,
            ) && dec_db(plain) is Some,
{
    let plain = match read_decrypted(data, passphrase) {
        Ok(p) => p,
        Err(e) => return Err(e),
    };
    let mut db = match decode_db(&plain) {
        Some(db) => db,
        None => return Err(CryptoError::DecodeError),
    };
    proof {
        assert(envelope_body(data@) == chacha_seal(
            spec_key_fit(passphrase@),
            spec_nonce_bytes(envelope_nonce(data@)),
            plain@,
        ) && dec_db(plain@) is Some);
    }
    let ghost db0 = db@;
    let mut events: Vec<CompareEvent> = Vec::new();
    let mut i: usize = 0;
    while i < visits.len()
        invariant
            config.wf(),
            0 <= i <= visits@.len(),
            db.wf(),
            db@ == compare_fold_map(*config, visits@.take(i as int), db0),
            events@ == compare_fold_events(*config, visits@.take(i as int), db0),
        decreases visits@.len() - i,
    {
        proof {
            assert(visits@.take(i + 1).drop_last() =~= visits@.take(i as int));
            assert(visits@.take(i + 1).last() == visits@[i as int]);
        }
        let ev = compare_path(config, &mut db, &visits[i].0, &visits[i].1);
        events.push(ev);
        i += 1;
    }
    proof {
        assert(visits@.take(visits@.len() as int) =~= visits@);
    }
    Ok((events, db))
}

/// Opens a recorded database for inspection and returns it; its entries
/// carry the recorded paths in recorded order.
pub fn print_db(data: &Vec<u8>, passphrase: &Vec<u8>) -> (r: Result<Db, CryptoError>)
    requires
        passphrase@.len() > 0,
    ensures
        data@.len() < 16 <==> r == Err::<Db, CryptoError>(CryptoError::EncryptedDataTooShort),
        forall|plain: Seq<u8>|
            (data@.len() >= 16 && envelope_body(data@) == chacha_seal(
                spec_key_fit(passphrase@),
                spec_nonce_bytes(envelope_nonce(data@)),
                plain,
            )) ==> ({
                &&& (dec_db(plain) matches Some(items) ==> (r matches Ok(db) && db.wf() && db@
                    == seq_to_map(items)))
                &&& (dec_db(plain) is None ==> r == Err::<Db, CryptoError>(
                    CryptoError::DecodeError,
                ))
            }),
        r matches Err(e) ==> e == CryptoError::EncryptedDataTooShort || e
            == CryptoError::WrongPassphrase || e == CryptoError::DecodeError,
        r is Ok ==> data@.len() >= 16 && exists|plain: Seq<u8>|
            envelope_body(data@) == chacha_seal(
                spec_key_fit(passphrase@),
                spec_nonce_bytes(envelope_nonce(data@)),
                plain,
            ) && dec_db(plain) is Some,
{
    let plain = match read_decrypted(data, passphrase) {
        Ok(p) => p,
        Err(e) => return Err(e),
    };
    match decode_db(&plain) {
        Some(db) => {
            proof {
                assert(envelope_body(data@) == chacha_seal(
                    spec_key_fit(passphrase@),
                    spec_nonce_bytes(envelope_nonce(data@)),
                    plain@,
                ) && dec_db(plain@) is Some);
            }
            Ok(db)
        },
        None => Err(CryptoError::DecodeError),
    }
}

// ---------------------------------------------------------------------------
// Laws of the engine
// ---------------------------------------------------------------------------

/// No two visits of a walk name the same path.
pub open spec fn visits_distinct(visits: Seq<(Vec<u8>, Option<PathInfo>)>) -> bool {
    forall|i: int, j: int|
        0 <= i < j < visits.len() ==> (#[trigger] visits[i]).0@ != (#[trigger] visits[j]).0@
}

/// Every regular file among the visits came with readable content.
pub open spec fn files_readable(visits: Seq<(Vec<u8>, Option<PathInfo>)>) -> bool {
    forall|i: int|
        0 <= i < visits.len() ==> !((#[trigger] visits[i]).1 matches Some(PathInfo::File(None)))
}

/// Whether one visit pops its path's record when comparing: it is not
/// ignored and observes a symlink, a file, or an empty directory.
pub open spec fn visit_pops(cfg: Config, v: (Vec<u8>, Option<PathInfo>)) -> bool {
    !ignored(cfg, v.0@) && match v.1 {
        Some(PathInfo::Symlink) => true,
        Some(PathInfo::File(_)) => true,
        Some(PathInfo::Dir(ch)) => ch matches Some(c) && c@.len() == 0,
        None => false,
    }
}

/// What one visit records when building, if anything.
pub open spec fn visit_record(cfg: Config, v: (Vec<u8>, Option<PathInfo>)) -> Option<NodeType> {
    if ignored(cfg, v.0@) {
        None
    } else {
        match v.1 {
            Some(PathInfo::Symlink) => Some(NodeType::L),
            Some(PathInfo::File(c)) => match c {
                Some(content) => Some(NodeType::F(xxh3_of(cfg.secret@, content@))),
                None => None,
            },
            Some(PathInfo::Dir(ch)) => match ch {
                Some(children) => if children@.len() == 0 {
                    Some(NodeType::D)
                } else {
                    None
                },
                None => None,
            },
            None => None,
        }
    }
}

/// Whether some visit of a walk pops the record at a path.
pub open spec fn path_popped(
    cfg: Config,
    visits: Seq<(Vec<u8>, Option<PathInfo>)>,
    p: Seq<u8>,
) -> bool {
    exists|k: int| 0 <= k < visits.len() && visit_pops(cfg, #[trigger] visits[k]) && visits[k].0@
        == p
}

/// Over pairwise-distinct visits, the built database records exactly what
/// each visit records: the path of every recording visit maps to its
/// record, the path of every other visit is absent, and no other path is
/// present.
pub proof fn lemma_scan_fold_distinct(cfg: Config, visits: Seq<(Vec<u8>, Option<PathInfo>)>)
    requires
        visits_distinct(visits),
    ensures
        forall|k: int|
            #![trigger visits[k]]
            0 <= k < visits.len() ==> ({
                let m = scan_fold(cfg, visits, Map::<Seq<u8>, NodeType>::empty());
                match visit_record(cfg, visits[k]) {
                    Some(n) => m.contains_key(visits[k].0@) && m[visits[k].0@] == n,
                    None => !m.contains_key(visits[k].0@),
                }
            }),
        forall|p: Seq<u8>|
            #![trigger scan_fold(cfg, visits, Map::<Seq<u8>, NodeType>::empty()).contains_key(p)]
            scan_fold(cfg, visits, Map::<Seq<u8>, NodeType>::empty()).contains_key(p) ==> exists|
                k: int,
            | 0 <= k < visits.len() && (#[trigger] visits[k]).0@ == p,
    decreases visits.len(),
{
    if visits.len() > 0 {
        let prefix = visits.drop_last();
        let v = visits.last();
        assert(visits_distinct(prefix)) by {
            assert forall|i: int, j: int|
                0 <= i < j < prefix.len() implies (#[trigger] prefix[i]).0@ != (#[trigger]
            prefix[j]).0@ by {
                assert(visits[i].0@ != visits[j].0@);
            }
        }
        lemma_scan_fold_distinct(cfg, prefix);
        let m1 = scan_fold(cfg, prefix, Map::<Seq<u8>, NodeType>::empty());
        let m = scan_fold(cfg, visits, Map::<Seq<u8>, NodeType>::empty());
        assert(m == scan_step_map(cfg, m1, v.0, v.1));
        assert(visits[visits.len() - 1] == v);
        assert forall|k: int| 0 <= k < prefix.len() implies (#[trigger] visits[k]).0@ != v.0@ by {
            assert(visits[k].0@ != visits[visits.len() - 1].0@);
        }
        if !m1.contains_key(v.0@) {
        } else {
            assert(exists|k: int| 0 <= k < prefix.len() && (#[trigger] prefix[k]).0@ == v.0@);
            let k = choose|k: int| 0 <= k < prefix.len() && (#[trigger] prefix[k]).0@ == v.0@;
            assert(prefix[k] == visits[k]);
            assert(false);
        }
        assert forall|k: int|
            #![trigger visits[k]]
            0 <= k < visits.len() implies ({
            match visit_record(cfg, visits[k]) {
                Some(n) => m.contains_key(visits[k].0@) && m[visits[k].0@] == n,
                None => !m.contains_key(visits[k].0@),
            }
        }) by {
            if k < visits.len() - 1 {
                assert(prefix[k] == visits[k]);
                assert(visits[k].0@ != v.0@);
            }
        }
        assert forall|p: Seq<u8>| #[trigger] m.contains_key(p) implies exists|k: int|
            0 <= k < visits.len() && (#[trigger] visits[k]).0@ == p by {
            if p != v.0@ {
                assert(m1.contains_key(p));
                let k = choose|k: int| 0 <= k < prefix.len() && (#[trigger] prefix[k]).0@ == p;
                assert(visits[k].0@ == p);
            } else {
                assert(visits[visits.len() - 1].0@ == p);
            }
        }
    }
}

/// Over pairwise-distinct visits, comparing reports each visit's event as
/// if against the starting database, and what is left is the starting
/// database less every popped path, values untouched.
pub proof fn lemma_compare_fold_distinct(
    cfg: Config,
    visits: Seq<(Vec<u8>, Option<PathInfo>)>,
    db0: Map<Seq<u8>, NodeType>,
)
    requires
        visits_distinct(visits),
    ensures
        compare_fold_events(cfg, visits, db0).len() == visits.len(),
        forall|k: int|
            #![trigger visits[k]]
            0 <= k < visits.len() ==> compare_fold_events(cfg, visits, db0)[k]
                == compare_step_event(cfg, db0, visits[k].0, visits[k].1),
        forall|p: Seq<u8>|
            #![trigger compare_fold_map(cfg, visits, db0).contains_key(p)]
            compare_fold_map(cfg, visits, db0).contains_key(p) <==> (db0.contains_key(p)
                && !path_popped(cfg, visits, p)),
        forall|p: Seq<u8>|
            #![trigger compare_fold_map(cfg, visits, db0)[p]]
            compare_fold_map(cfg, visits, db0).contains_key(p) ==> compare_fold_map(
                cfg,
                visits,
                db0,
            )[p] == db0[p],
    decreases visits.len(),
{
    if visits.len() > 0 {
        let prefix = visits.drop_last();
        let v = visits.last();
        assert(visits_distinct(prefix)) by {
            assert forall|i: int, j: int|
                0 <= i < j < prefix.len() implies (#[trigger] prefix[i]).0@ != (#[trigger]
            prefix[j]).0@ by {
                assert(visits[i].0@ != visits[j].0@);
            }
        }
        lemma_compare_fold_distinct(cfg, prefix, db0);
        let m1 = compare_fold_map(cfg, prefix, db0);
        let m = compare_fold_map(cfg, visits, db0);
        let evs1 = compare_fold_events(cfg, prefix, db0);
        let evs = compare_fold_events(cfg, visits, db0);
        assert(visits[visits.len() - 1] == v);
        assert forall|k: int| 0 <= k < prefix.len() implies (#[trigger] visits[k]).0@ != v.0@ by {
            assert(visits[k].0@ != visits[visits.len() - 1].0@);
        }
        // The record at the last path is untouched by the prefix.
        assert(!path_popped(cfg, prefix, v.0@)) by {
            if path_popped(cfg, prefix, v.0@) {
                let k = choose|k: int|
                    0 <= k < prefix.len() && visit_pops(cfg, #[trigger] prefix[k]) && prefix[k].0@
                        == v.0@;
                assert(visits[k].0@ == v.0@);
                assert(false);
            }
        }
        assert(m1.contains_key(v.0@) <==> db0.contains_key(v.0@));
        assert(compare_step_event(cfg, m1, v.0, v.1) == compare_step_event(cfg, db0, v.0, v.1));
        assert(m == compare_step_map(cfg, m1, v.0, v.1));
        assert(evs == evs1.push(compare_step_event(cfg, m1, v.0, v.1)));
        assert forall|k: int|
            #![trigger visits[k]]
            0 <= k < visits.len() implies evs[k] == compare_step_event(
            cfg,
            db0,
            visits[k].0,
            visits[k].1,
        ) by {
            if k < visits.len() - 1 {
                assert(prefix[k] == visits[k]);
                assert(evs[k] == evs1[k]);
            }
        }
        assert forall|p: Seq<u8>| #[trigger] m.contains_key(p) <==> (db0.contains_key(p)
            && !path_popped(cfg, visits, p)) by {
            if p == v.0@ {
                if visit_pops(cfg, v) {
                    assert(!m.contains_key(p));
                    assert(path_popped(cfg, visits, p)) by {
                        assert(visit_pops(cfg, visits[visits.len() - 1]));
                    }
                } else {
                    assert(m.contains_key(p) <==> m1.contains_key(p));
                    assert(!path_popped(cfg, visits, p)) by {
                        if path_popped(cfg, visits, p) {
                            let k = choose|k: int|
                                0 <= k < visits.len() && visit_pops(cfg, #[trigger] visits[k])
                                    && visits[k].0@ == p;
                            if k < visits.len() - 1 {
                                assert(visits[k].0@ != v.0@);
                            }
                            assert(false);
                        }
                    }
                }
            } else {
                assert(m.contains_key(p) <==> m1.contains_key(p));
                assert(path_popped(cfg, visits, p) <==> path_popped(cfg, prefix, p)) by {
                    if path_popped(cfg, visits, p) {
                        let k = choose|k: int|
                            0 <= k < visits.len() && visit_pops(cfg, #[trigger] visits[k])
                                && visits[k].0@ == p;
                        assert(k < visits.len() - 1);
                        assert(prefix[k] == visits[k]);
                        assert(visit_pops(cfg, prefix[k]));
                    }
                    if path_popped(cfg, prefix, p) {
                        let k = choose|k: int|
                            0 <= k < prefix.len() && visit_pops(cfg, #[trigger] prefix[k])
                                && prefix[k].0@ == p;
                        assert(prefix[k] == visits[k]);
                        assert(visit_pops(cfg, visits[k]));
                    }
                }
            }
        }
        assert forall|p: Seq<u8>| #[trigger] m.contains_key(p) implies m[p] == db0[p] by {
            assert(m1.contains_key(p) ==> m1[p] == db0[p]);
        }
    }
}

/// At most one report per path per run: over pairwise-distinct visits the
/// comparator emits exactly one event per visit, each computed against the
/// opened database, and no two visits name the same path, so no path is
/// reported twice.
pub proof fn lemma_one_event_per_path(
    cfg: Config,
    visits: Seq<(Vec<u8>, Option<PathInfo>)>,
    db0: Map<Seq<u8>, NodeType>,
    k1: int,
    k2: int,
)
    requires
        visits_distinct(visits),
        0 <= k1 < k2 < visits.len(),
    ensures
        compare_fold_events(cfg, visits, db0).len() == visits.len(),
        visits[k1].0@ != visits[k2].0@,
        compare_fold_events(cfg, visits, db0)[k1] == compare_step_event(
            cfg,
            db0,
            visits[k1].0,
            visits[k1].1,
        ),
        compare_fold_events(cfg, visits, db0)[k2] == compare_step_event(
            cfg,
            db0,
            visits[k2].0,
            visits[k2].1,
        ),
{
    lemma_compare_fold_distinct(cfg, visits, db0);
}

/// Which comparator events are silent: they report no deviation.
pub open spec fn event_silent(ev: CompareEvent) -> bool {
    ev == CompareEvent::Unchanged || ev == CompareEvent::Skipped || ev == CompareEvent::Descend
        || ev == CompareEvent::DirUnreadable || ev == CompareEvent::NoInfo
}

/// Builder/comparator identity: comparing the very visits that built a
/// database against that database yields only silent events, and leaves
/// nothing behind. Holds for walks that visit no path twice and read
/// every file.
pub proof fn lemma_builder_comparator_identity(
    cfg: Config,
    visits: Seq<(Vec<u8>, Option<PathInfo>)>,
)
    requires
        visits_distinct(visits),
        files_readable(visits),
    ensures
        ({
            let db0 = scan_fold(cfg, visits, Map::<Seq<u8>, NodeType>::empty());
            &&& compare_fold_events(cfg, visits, db0).len() == visits.len()
            &&& forall|k: int|
                0 <= k < visits.len() ==> event_silent(
                    #[trigger] compare_fold_events(cfg, visits, db0)[k],
                )
            &&& compare_fold_map(cfg, visits, db0) == Map::<Seq<u8>, NodeType>::empty()
        }),
{
    let db0 = scan_fold(cfg, visits, Map::<Seq<u8>, NodeType>::empty());
    lemma_scan_fold_distinct(cfg, visits);
    lemma_compare_fold_distinct(cfg, visits, db0);
    let evs = compare_fold_events(cfg, visits, db0);
    let m = compare_fold_map(cfg, visits, db0);
    assert forall|k: int| 0 <= k < visits.len() implies event_silent(#[trigger] evs[k]) by {
        let v = visits[k];
        assert(evs[k] == compare_step_event(cfg, db0, v.0, v.1));
        assert(!(v.1 matches Some(PathInfo::File(None))));
        match visit_record(cfg, v) {
            Some(n) => {
                assert(db0.contains_key(v.0@) && db0[v.0@] == n);
            },
            None => {
                assert(!db0.contains_key(v.0@));
            },
        }
    }
    assert forall|p: Seq<u8>| !(#[trigger] m.contains_key(p)) by {
        if m.contains_key(p) {
            assert(db0.contains_key(p));
            let k = choose|k: int| 0 <= k < visits.len() && (#[trigger] visits[k]).0@ == p;
            assert(!(visits[k].1 matches Some(PathInfo::File(None))));
            match visit_record(cfg, visits[k]) {
                Some(n) => {
                    assert(visit_pops(cfg, visits[k]));
                    assert(path_popped(cfg, visits, p));
                },
                None => {
                    assert(!db0.contains_key(p));
                },
            }
            assert(false);
        }
    }
    assert(m =~= Map::<Seq<u8>, NodeType>::empty());
}

/// Removal residue: comparing the visits of a tree against the database
/// those visits built plus one extra record, whose path the walk never
/// meets, yields only silent events and leaves exactly that record, with
/// its recorded kind, as the residue.
pub proof fn lemma_removal_residue(
    cfg: Config,
    visits: Seq<(Vec<u8>, Option<PathInfo>)>,
    extra: Seq<u8>,
    kind: NodeType,
)
    requires
        visits_distinct(visits),
        files_readable(visits),
        forall|k: int| 0 <= k < visits.len() ==> (#[trigger] visits[k]).0@ != extra,
    ensures
        ({
            let db0 = scan_fold(cfg, visits, Map::<Seq<u8>, NodeType>::empty()).insert(
                extra,
                kind,
            );
            &&& compare_fold_events(cfg, visits, db0).len() == visits.len()
            &&& forall|k: int|
                0 <= k < visits.len() ==> event_silent(
                    #[trigger] compare_fold_events(cfg, visits, db0)[k],
                )
            &&& compare_fold_map(cfg, visits, db0) == Map::<Seq<u8>, NodeType>::empty().insert(
                extra,
                kind,
            )
        }),
{
    let scanned = scan_fold(cfg, visits, Map::<Seq<u8>, NodeType>::empty());
    let db0 = scanned.insert(extra, kind);
    lemma_scan_fold_distinct(cfg, visits);
    lemma_compare_fold_distinct(cfg, visits, db0);
    let evs = compare_fold_events(cfg, visits, db0);
    let m = compare_fold_map(cfg, visits, db0);
    assert forall|k: int| 0 <= k < visits.len() implies event_silent(#[trigger] evs[k]) by {
        let v = visits[k];
        assert(evs[k] == compare_step_event(cfg, db0, v.0, v.1));
        assert(v.0@ != extra);
        assert(db0.contains_key(v.0@) <==> scanned.contains_key(v.0@));
        assert(!(v.1 matches Some(PathInfo::File(None))));
        match visit_record(cfg, v) {
            Some(n) => {
                assert(scanned.contains_key(v.0@) && scanned[v.0@] == n);
                assert(db0[v.0@] == n);
            },
            None => {
                assert(!scanned.contains_key(v.0@));
            },
        }
    }
    assert forall|p: Seq<u8>| #[trigger] m.contains_key(p) implies p == extra && m[p] == kind by {
        assert(db0.contains_key(p));
        if p != extra {
            assert(scanned.contains_key(p));
            let k = choose|k: int| 0 <= k < visits.len() && (#[trigger] visits[k]).0@ == p;
            assert(!(visits[k].1 matches Some(PathInfo::File(None))));
            match visit_record(cfg, visits[k]) {
                Some(n) => {
                    assert(visit_pops(cfg, visits[k]));
                    assert(path_popped(cfg, visits, p));
                },
                None => {
                    assert(!scanned.contains_key(p));
                },
            }
            assert(false);
        }
        assert(m[p] == db0[p]);
    }
    assert(m.contains_key(extra)) by {
        assert(db0.contains_key(extra));
        if path_popped(cfg, visits, extra) {
            let k = choose|k: int|
                0 <= k < visits.len() && visit_pops(cfg, #[trigger] visits[k]) && visits[k].0@
                    == extra;
            assert(false);
        }
    }
    assert(m =~= Map::<Seq<u8>, NodeType>::empty().insert(extra, kind));
}

/// Envelope round trip for database records: the file that sealing an
/// encoded database under a key and nonce counter writes parses back to
/// the same counter and sealed body, and the encoded record decodes to the
/// same entries. Together with the opening contract this pins
/// `open(save(db)) == db` for every database and passphrase.
pub proof fn lemma_db_record_round_trip(key: Seq<u8>, n: u128, entries: Seq<(Seq<u8>, NodeType)>)
    requires
        entries_fit(entries),
    ensures
        ({
            let file = crate::crypto::spec_envelope(key, n, enc_db(entries));
            &&& file.len() >= 16
            &&& envelope_nonce(file) == n
            &&& envelope_body(file) == chacha_seal(key, spec_nonce_bytes(n), enc_db(entries))
            &&& dec_db(enc_db(entries)) == Some(entries)
        }),
{
    crate::crypto::lemma_envelope_parse(key, n, enc_db(entries));
    lemma_db_roundtrip(entries);
}

/// Ignore exactness: a visit of an ignored path records nothing when
/// building, pops nothing and reports nothing but the skip note when
/// comparing, whatever its kind.
pub proof fn lemma_ignore_exactness(
    cfg: Config,
    db: Map<Seq<u8>, NodeType>,
    path: Vec<u8>,
    info: Option<PathInfo>,
)
    requires
        ignored(cfg, path@),
    ensures
        scan_step_map(cfg, db, path, info) == db,
        scan_step_event(cfg, db, path, info) == ScanEvent::Skipped,
        compare_step_map(cfg, db, path, info) == db,
        compare_step_event(cfg, db, path, info) == CompareEvent::Skipped,
{
}

} // verus!
