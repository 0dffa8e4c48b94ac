//! A file or directory of the local tree, and where it belongs remotely.

use crate::identity::{unique_id, unique_id_text};
use crate::paths::{
    all_segments, is_absolute, join_range, joined, lemma_joined_injective,
    lemma_joined_is_relative, lemma_segments_after_joined, lemma_segments_after_separator,
    lemma_segments_are_segments, segments,
    separator, split_segments, starts_at_root, starts_with_segments, texts,
};
use crate::pi_err::{PiSyncResult, SyncerErrors};
use vstd::prelude::*;
use vstd::string::*;

verus! {

/// The local directory that is mirrored, unless another is given.
pub const LOCAL_ROOT_FOLDER: &'static str = "/tmp/pi_sync/images";

/// The remote folder under which the mirror is built, unless another is given.
pub const DRIVE_ROOT_FOLDER: &'static str = "RpiCamera";

/// The remote path of what lies `rest` below the sync root: the label of the
/// remote root, a separator, and the segments.
pub open spec fn remote_text(label: Seq<char>, rest: Seq<Seq<char>>) -> Seq<char> {
    label + seq![separator()] + joined(rest)
}

/// A local path written from its segments.
pub open spec fn local_text(absolute: bool, segs: Seq<Seq<char>>) -> Seq<char> {
    if absolute {
        seq![separator()] + joined(segs)
    } else {
        joined(segs)
    }
}

/// The path lies in the root: both are absolute or neither is, and the
/// root's segments begin the path's.
pub open spec fn is_under(path: Seq<char>, root: Seq<char>) -> bool {
    &&& is_absolute(path) == is_absolute(root)
    &&& segments(root).is_prefix_of(segments(path))
}

/// The segments of the path after those of the root.
pub open spec fn below(path: Seq<char>, root: Seq<char>) -> Seq<Seq<char>> {
    segments(path).skip(segments(root).len() as int)
}

/// The name of what the path leads to: its last segment, and nothing where
/// it has none.
pub open spec fn file_name_text(path: Seq<char>) -> Seq<char> {
    if segments(path).len() > 0 {
        segments(path).last()
    } else {
        Seq::empty()
    }
}

/// A path on the local disk together with the two roots that map it.
pub struct SyncableFile {
    local_disk_path: String,
    local_root: String,
    drive_root: String,
}

pub trait FileOperations {
    /// The path on the local disk.
    fn local_path(&self) -> &str;

    /// Where this file or directory belongs on the remote side.
    fn cloud_path(&self) -> PiSyncResult<String>;

    /// The local directory that holds this path.
    fn parent_path(&self) -> PiSyncResult<String>;

    /// The identifier derived from the remote path.
    fn get_unique_id(&self) -> PiSyncResult<String>;
}

impl SyncableFile {
    /// The local path as given.
    pub closed spec fn path_text(&self) -> Seq<char> {
        self.local_disk_path@
    }

    /// The local directory that is mirrored.
    pub closed spec fn local_root_text(&self) -> Seq<char> {
        self.local_root@
    }

    /// The label of the remote root.
    pub closed spec fn drive_root_text(&self) -> Seq<char> {
        self.drive_root@
    }

    /// The path lies in the sync root.
    pub open spec fn under_root(&self) -> bool {
        is_under(self.path_text(), self.local_root_text())
    }

    /// The segments of the path after those of the sync root.
    pub open spec fn rest(&self) -> Seq<Seq<char>> {
        below(self.path_text(), self.local_root_text())
    }

    /// The remote path.
    pub open spec fn cloud_text(&self) -> Seq<char> {
        remote_text(self.drive_root_text(), self.rest())
    }

    /// The path is the sync root itself.
    pub open spec fn is_sync_root(&self) -> bool {
        self.under_root() && self.rest().len() == 0
    }

    /// Why a path that is not strictly below the sync root has no remote
    /// parent: it is the sync root itself, or it lies outside.
    pub open spec fn no_parent_error(&self) -> SyncerErrors {
        if self.under_root() {
            SyncerErrors::InvalidPathError
        } else {
            SyncerErrors::NotUnderRoot
        }
    }

    /// The path lies strictly below the sync root.
    pub open spec fn below_root(&self) -> bool {
        self.under_root() && self.rest().len() > 0
    }

    /// The remote path of the directory that holds this path.
    pub open spec fn parent_cloud_text(&self) -> Seq<char> {
        remote_text(self.drive_root_text(), self.rest().drop_last())
    }

    /// The local path of the directory that holds this path.
    pub open spec fn parent_text(&self) -> Seq<char> {
        local_text(is_absolute(self.path_text()), segments(self.path_text()).drop_last())
    }

    /// A path mapped by the default roots.
    pub fn new(local_disk_path: String) -> (r: SyncableFile)
        ensures
            r.path_text() == local_disk_path@,
            r.local_root_text() == LOCAL_ROOT_FOLDER@,
            r.drive_root_text() == DRIVE_ROOT_FOLDER@,
    {
        SyncableFile {
            local_disk_path,
            local_root: LOCAL_ROOT_FOLDER.to_owned(),
            drive_root: DRIVE_ROOT_FOLDER.to_owned(),
        }
    }

    /// A path mapped by the given sync root and remote-root label.
    pub fn with_roots(local_disk_path: String, local_root: String, drive_root: String) -> (r:
        SyncableFile)
        ensures
            r.path_text() == local_disk_path@,
            r.local_root_text() == local_root@,
            r.drive_root_text() == drive_root@,
    {
        SyncableFile { local_disk_path, local_root, drive_root }
    }

    /// The sync root.
    pub fn local_root(&self) -> (r: &str)
        ensures
            r@ == self.local_root_text(),
    {
        self.local_root.as_str()
    }

    /// The label of the remote root.
    pub fn drive_root(&self) -> (r: &str)
        ensures
            r@ == self.drive_root_text(),
    {
        self.drive_root.as_str()
    }

    /// The segments below the sync root, or the error of a path outside it.
    pub fn segments_below_root(&self) -> (r: PiSyncResult<Vec<String>>)
        ensures
            match r {
                Ok(rest) => self.under_root() && texts(rest@) == self.rest(),
                Err(e) => !self.under_root() && e == SyncerErrors::NotUnderRoot,
            },
    {
        let path_segs = split_segments(self.local_disk_path.as_str());
        let root_segs = split_segments(self.local_root.as_str());
        if starts_at_root(self.local_disk_path.as_str()) != starts_at_root(
            self.local_root.as_str(),
        ) {
            return Err(SyncerErrors::NotUnderRoot);
        }
        if !starts_with_segments(&path_segs, &root_segs) {
            return Err(SyncerErrors::NotUnderRoot);
        }
        let mut rest: Vec<String> = Vec::new();
        let mut i: usize = root_segs.len();
        while i < path_segs.len()
            invariant
                root_segs.len() <= i <= path_segs.len(),
                texts(rest@) == texts(path_segs@).subrange(root_segs.len() as int, i as int),
            decreases path_segs.len() - i,
        {
            let ghost before = texts(rest@);
            rest.push(path_segs[i].clone());
            assert(texts(rest@) =~= before.push(path_segs@[i as int]@));
            i = i + 1;
            assert(texts(rest@) =~= texts(path_segs@).subrange(root_segs.len() as int, i as int));
        }
        Ok(rest)
    }

    /// The last segment of the path: the name of the file or directory.
    pub fn get_filename(&self) -> (r: Option<String>)
        ensures
            match r {
                Some(name) => segments(self.path_text()).len() > 0 && name@ == segments(
                    self.path_text(),
                ).last(),
                None => segments(self.path_text()).len() == 0,
            },
    {
        let segs = split_segments(self.local_disk_path.as_str());
        if segs.len() == 0 {
            None
        } else {
            Some(segs[segs.len() - 1].clone())
        }
    }

    /// The remote path of the directory that holds this path. A path outside
    /// the sync root has none, and neither has the sync root itself: each
    /// has its own error.
    pub fn parent_cloud_path(&self) -> (r: PiSyncResult<String>)
        ensures
            match r {
                Ok(p) => self.below_root() && p@ == self.parent_cloud_text(),
                Err(e) => !self.below_root() && e == self.no_parent_error(),
            },
    {
        let rest = self.segments_below_root()?;
        if rest.len() == 0 {
            return Err(SyncerErrors::InvalidPathError);
        }
        Ok(remote_path_of(self.drive_root.as_str(), &rest, rest.len() - 1))
    }
}

/// Writes the remote path of the first `upto` segments below the root.
pub fn remote_path_of(label: &str, rest: &Vec<String>, upto: usize) -> (r: String)
    requires
        upto <= rest.len(),
    ensures
        r@ == remote_text(label@, texts(rest@).take(upto as int)),
{
    let tail = join_range(rest, 0, upto);
    let mut out = label.to_owned();
    proof {
        reveal_strlit("/");
    }
    out.append("/");
    out.append(tail.as_str());
    out
}

impl FileOperations for SyncableFile {
    fn local_path(&self) -> (r: &str)
        ensures
            r@ == self.path_text(),
    {
        self.local_disk_path.as_str()
    }

    /// Fails exactly when the path lies outside the sync root.
    fn cloud_path(&self) -> (r: PiSyncResult<String>)
        ensures
            match r {
                Ok(p) => self.under_root() && p@ == self.cloud_text(),
                Err(e) => !self.under_root() && e == SyncerErrors::NotUnderRoot,
            },
    {
        let rest = self.segments_below_root()?;
        let ghost all = texts(rest@);
        assert(all.take(rest.len() as int) == all);
        Ok(remote_path_of(self.drive_root.as_str(), &rest, rest.len()))
    }

    /// Fails exactly when the path has no segment to drop or is the sync
    /// root itself, which has no parent in what is mirrored.
    fn parent_path(&self) -> (r: PiSyncResult<String>)
        ensures
            match r {
                Ok(p) => {
                    &&& segments(self.path_text()).len() > 0
                    &&& !self.is_sync_root()
                    &&& p@ == self.parent_text()
                },
                Err(e) => {
                    &&& segments(self.path_text()).len() == 0 || self.is_sync_root()
                    &&& e == SyncerErrors::InvalidPathError
                },
            },
    {
        let segs = split_segments(self.local_disk_path.as_str());
        if segs.len() == 0 {
            return Err(SyncerErrors::InvalidPathError);
        }
        let root_segs = split_segments(self.local_root.as_str());
        if starts_at_root(self.local_disk_path.as_str()) == starts_at_root(
            self.local_root.as_str(),
        ) && segs.len() == root_segs.len() && starts_with_segments(&segs, &root_segs) {
            return Err(SyncerErrors::InvalidPathError);
        }
        let tail = join_range(&segs, 0, segs.len() - 1);
        if starts_at_root(self.local_disk_path.as_str()) {
            let mut out = String::new();
            proof {
                reveal_strlit("/");
            }
            out.append("/");
            out.append(tail.as_str());
            Ok(out)
        } else {
            Ok(tail)
        }
    }

    /// The identifier of the remote path; no other remote path has it, and
    /// it is never empty, not even for the sync root.
    fn get_unique_id(&self) -> (r: PiSyncResult<String>)
        ensures
            match r {
                Ok(id) => {
                    &&& self.under_root()
                    &&& id@ == unique_id_text(self.cloud_text())
                    &&& forall|other: Seq<char>| #[trigger]
                        unique_id_text(other) == id@ ==> other == self.cloud_text()
                    &&& id@.len() > 0
                },
                Err(e) => !self.under_root() && e == SyncerErrors::NotUnderRoot,
            },
    {
        let cp = self.cloud_path()?;
        Ok(unique_id(cp.as_str()))
    }
}

/// A root lies in itself, with nothing below.
pub proof fn lemma_root_in_itself(root: Seq<char>)
    ensures
        is_under(root, root),
        below(root, root) == Seq::<Seq<char>>::empty(),
{
    let segs = segments(root);
    assert(segs =~= segs.subrange(0, segs.len() as int));
    assert(below(root, root) =~= Seq::<Seq<char>>::empty());
}

/// The segments below a root are segments.
pub proof fn lemma_below_are_segments(path: Seq<char>, root: Seq<char>)
    requires
        is_under(path, root),
    ensures
        all_segments(below(path, root)),
{
    lemma_segments_are_segments(path);
}

/// The remote path is a function of the segments below the root and of
/// nothing else: two paths in one root have the same remote path exactly
/// when those segments are the same.
pub proof fn lemma_remote_path_by_segments(
    one: Seq<char>,
    other: Seq<char>,
    root: Seq<char>,
    label: Seq<char>,
)
    requires
        is_under(one, root),
        is_under(other, root),
    ensures
        remote_text(label, below(one, root)) == remote_text(label, below(other, root)) <==> below(
            one,
            root,
        ) == below(other, root),
{
    let a = below(one, root);
    let b = below(other, root);
    if remote_text(label, a) == remote_text(label, b) {
        let head = label + seq![separator()];
        assert((head + joined(a)).skip(head.len() as int) == joined(a));
        assert((head + joined(b)).skip(head.len() as int) == joined(b));
        lemma_below_are_segments(one, root);
        lemma_below_are_segments(other, root);
        lemma_joined_injective(a, b);
    }
}

/// A local path written from segments reads as those segments, and is
/// absolute exactly when it was written so.
pub proof fn lemma_local_text_reads_back(absolute: bool, segs: Seq<Seq<char>>)
    requires
        all_segments(segs),
    ensures
        segments(local_text(absolute, segs)) == segs,
        is_absolute(local_text(absolute, segs)) == absolute,
{
    lemma_joined_is_relative(segs);
    if absolute {
        let slash = seq![separator()];
        lemma_segments_after_separator(Seq::empty());
        assert(Seq::<char>::empty().push(separator()) == slash);
        assert(segments(Seq::<char>::empty()) == Seq::<Seq<char>>::empty());
        lemma_segments_after_joined(slash, segs);
        assert(Seq::<Seq<char>>::empty() + segs == segs);
    } else {
        lemma_segments_after_joined(Seq::empty(), segs);
        assert(Seq::<char>::empty() + joined(segs) == joined(segs));
        assert(Seq::<Seq<char>>::empty() + segs == segs);
    }
}

/// The directory that holds a path strictly below the root lies in the root,
/// and its segments below the root are those of the path but the last. So
/// the remote path of the local parent is the parent of the remote path.
pub proof fn lemma_parent_stays_under_root(path: Seq<char>, root: Seq<char>)
    requires
        is_under(path, root),
        below(path, root).len() > 0,
    ensures
        is_under(local_text(is_absolute(path), segments(path).drop_last()), root),
        below(local_text(is_absolute(path), segments(path).drop_last()), root) == below(
            path,
            root,
        ).drop_last(),
{
    let segs = segments(path);
    let shorter = segs.drop_last();
    lemma_segments_are_segments(path);
    assert(all_segments(shorter));
    lemma_local_text_reads_back(is_absolute(path), shorter);
    let k = segments(root).len() as int;
    assert(segments(root) =~= shorter.subrange(0, k)) by {
        assert(segments(root) =~= segs.subrange(0, k));
    }
    assert(shorter.skip(k) =~= segs.skip(k).drop_last());
}

/// A path with one segment below the root is held by the root itself.
pub proof fn lemma_parent_of_root_level(label: Seq<char>, rest: Seq<Seq<char>>)
    requires
        rest.len() == 1,
    ensures
        remote_text(label, rest.drop_last()) == remote_text(label, Seq::empty()),
{
    assert(rest.drop_last() == Seq::<Seq<char>>::empty());
}

} // verus!
