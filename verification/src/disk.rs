//! What was found on disk: the plain values that the library is handed in
//! place of the file system.

use crate::error::{IoFailure, PlatformError};
use crate::path::{same_name, valid_name, AbsPath};
use vstd::prelude::*;

verus! {

/// The type of a file system entry.
#[derive(Debug, Clone, Copy, PartialEq, Eq, Structural)]
pub enum FileKind {
    Directory,
    Regular,
    /// A symbolic link, a socket, a pipe, a device.
    Other,
}

/// The fields of a status record that the library reads.
#[derive(Debug, Clone, Copy, PartialEq, Eq, Structural)]
pub struct FileStat {
    /// Type and permission bits.
    pub st_mode: u32,
    /// The time of the last change of the content, in seconds.
    pub st_mtime: i64,
    /// The time of the last change of the status, in seconds.
    pub st_ctime: i64,
}

/// What was found at one path.
#[derive(Debug)]
pub struct DiskNode {
    /// The type of the entry, or why it could not be had. A path that does
    /// not exist has no type.
    pub kind: Result<FileKind, IoFailure>,
    /// The status record, or the platform error.
    pub stat: Result<FileStat, PlatformError>,
    /// The entries of the directory, or why it could not be listed. It is
    /// read for directories only.
    pub listing: Result<Vec<DiskEntry>, IoFailure>,
}

/// One item of a directory listing.
#[derive(Debug)]
pub enum DiskEntry {
    /// The listing failed at this item.
    Failed(IoFailure),
    /// An entry, by its name, and what was found at its path.
    Found { name: Vec<u8>, node: DiskNode },
}

impl DiskEntry {
    /// Whether this is an entry called `name`.
    pub open spec fn is_named(self, name: Seq<u8>) -> bool {
        match self {
            DiskEntry::Found { name: n, node } => n@ == name,
            DiskEntry::Failed(_) => false,
        }
    }
}

impl DiskNode {
    /// The index of the first entry among `entries`, from `from` on, that
    /// is called `name`.
    pub open spec fn position(entries: Seq<DiskEntry>, name: Seq<u8>, from: int) -> Option<int>
        decreases entries.len() - from,
    {
        if from < 0 || from >= entries.len() {
            None
        } else if entries[from].is_named(name) {
            Some(from)
        } else {
            Self::position(entries, name, from + 1)
        }
    }

    /// What was found at the entry `name` of this directory.
    pub open spec fn child(self, name: Seq<u8>) -> Option<DiskNode> {
        match self.listing {
            Ok(entries) => match Self::position(entries@, name, 0) {
                Some(i) => Some(entries@[i]->node),
                None => None,
            },
            Err(_) => None,
        }
    }

    /// What was found at the path `rel` below this one, if the listings
    /// lead there.
    pub open spec fn find(self, rel: Seq<Seq<u8>>) -> Option<DiskNode>
        decreases rel.len(),
    {
        if rel.len() == 0 {
            Some(self)
        } else {
            match self.child(rel[0]) {
                Some(node) => node.find(rel.drop_first()),
                None => None,
            }
        }
    }

    /// `position` finds an entry of that name if and only if there is one
    /// from `from` on, and it finds the first.
    pub proof fn lemma_position(entries: Seq<DiskEntry>, name: Seq<u8>, from: int)
        requires
            0 <= from,
        ensures
            match Self::position(entries, name, from) {
                Some(i) => from <= i < entries.len() && entries[i].is_named(name) && forall|j: int|
                    from <= j < i ==> !(#[trigger] entries[j]).is_named(name),
                None => forall|j: int|
                    from <= j < entries.len() ==> !(#[trigger] entries[j]).is_named(name),
            },
        decreases entries.len() - from,
    {
        if from < entries.len() && !entries[from].is_named(name) {
            Self::lemma_position(entries, name, from + 1);
        }
    }

    /// The entry `name` of this directory.
    pub fn entry(&self, name: &Vec<u8>) -> (found: Option<&DiskNode>)
        ensures
            match found {
                Some(node) => self.child(name@) == Some(*node),
                None => self.child(name@) is None,
            },
    {
        match &self.listing {
            Ok(entries) => {
                let mut i: usize = 0;
                while i < entries.len()
                    invariant
                        i <= entries@.len(),
                        self.listing == Ok::<Vec<DiskEntry>, IoFailure>(*entries),
                        Self::position(entries@, name@, 0) == Self::position(
                            entries@,
                            name@,
                            i as int,
                        ),
                    decreases entries@.len() - i,
                {
                    match &entries[i] {
                        DiskEntry::Found { name: n, node } => {
                            if same_name(n, name) {
                                return Some(node);
                            }
                        },
                        DiskEntry::Failed(_) => {},
                    }
                    i += 1;
                }
                None
            },
            Err(_) => None,
        }
    }

    /// What was found at the path made of the components of `path` from the
    /// index `from` on, below this one.
    pub fn lookup(&self, path: &AbsPath, from: usize) -> (found: Option<&DiskNode>)
        requires
            from <= path@.len(),
        ensures
            match found {
                Some(node) => self.find(path@.skip(from as int)) == Some(*node),
                None => self.find(path@.skip(from as int)) is None,
            },
        decreases path@.len() - from,
    {
        if from == path.len() {
            return Some(self);
        }
        assert(path@.skip(from as int).drop_first() =~= path@.skip(from + 1));
        match self.entry(path.component(from)) {
            Some(node) => node.lookup(path, from + 1),
            None => None,
        }
    }
}

/// No two entries of the listing have the same name.
pub open spec fn distinct_names(entries: Seq<DiskEntry>) -> bool {
    forall|i: int, j: int|
        0 <= i < j < entries.len() && (#[trigger] entries[i]) is Found && (
        #[trigger] entries[j]) is Found ==> entries[i]->name@ != entries[j]->name@
}

/// Whether the path `rel`, which has a component, is mirrored below a
/// directory with the listing `entries`, of which only the first `upto`
/// items count; and if it is, whether it is a directory. A directory that
/// could not be listed is not mirrored, and nothing below it is.
pub open spec fn mirrored_in(entries: Seq<DiskEntry>, upto: int, rel: Seq<Seq<u8>>) -> Option<bool>
    decreases rel.len(), 0nat,
{
    if rel.len() == 0 {
        None
    } else {
        match DiskNode::position(entries, rel[0], 0) {
            Some(i) => if i < upto {
                match entries[i]->node.kind {
                    Ok(FileKind::Directory) => if entries[i]->node.listing is Ok {
                        entries[i]->node.mirrored(rel.drop_first())
                    } else {
                        None
                    },
                    Ok(FileKind::Regular) => if rel.len() == 1 {
                        Some(false)
                    } else {
                        None
                    },
                    _ => None,
                }
            } else {
                None
            },
            None => None,
        }
    }
}

impl DiskNode {
    /// In this listing and in every listing below, no two entries have the
    /// same name.
    pub open spec fn names_unique(self) -> bool
        decreases self,
    {
        match self.listing {
            Ok(entries) => distinct_names(entries@) && forall|i: int|
                0 <= i < entries@.len() && (#[trigger] entries@[i]) is Found
                    ==> entries@[i]->node.names_unique(),
            Err(_) => true,
        }
    }

    /// In this listing and in every listing below, every name can be a
    /// component of a canonical path.
    pub open spec fn well_named(self) -> bool
        decreases self,
    {
        match self.listing {
            Ok(entries) => forall|i: int|
                0 <= i < entries@.len() && (#[trigger] entries@[i]) is Found ==> valid_name(
                    entries@[i]->name@,
                ) && entries@[i]->node.well_named(),
            Err(_) => true,
        }
    }

    /// What is found below a directory with canonical names has canonical
    /// names.
    pub proof fn lemma_find_well_named(self, rel: Seq<Seq<u8>>)
        requires
            self.well_named(),
        ensures
            self.find(rel) matches Some(found) ==> found.well_named(),
        decreases rel.len(),
    {
        if rel.len() > 0 {
            match self.child(rel[0]) {
                Some(node) => {
                    Self::lemma_position(self.listing->Ok_0@, rel[0], 0);
                    node.lemma_find_well_named(rel.drop_first());
                },
                None => {},
            }
        }
    }

    /// This directory could be listed, and so could every directory that
    /// the listings lead to.
    pub open spec fn readable(self) -> bool
        decreases self,
    {
        match self.listing {
            Ok(entries) => forall|i: int|
                0 <= i < entries@.len() && (#[trigger] entries@[i]) is Found
                    && entries@[i]->node.kind == Ok::<FileKind, IoFailure>(FileKind::Directory)
                    ==> entries@[i]->node.readable(),
            Err(_) => false,
        }
    }

    /// Whether the path `rel` below this directory is mirrored: the
    /// directory itself, and every regular file and every directory that
    /// the listings lead to through directories, but for the directories
    /// that could not be listed; and if it is, whether it is a directory.
    pub open spec fn mirrored(self, rel: Seq<Seq<u8>>) -> Option<bool>
        decreases rel.len(), 1nat,
    {
        if rel.len() == 0 {
            Some(true)
        } else {
            match self.listing {
                Ok(entries) => mirrored_in(entries@, entries@.len() as int, rel),
                Err(_) => None,
            }
        }
    }
}

/// Whether no item of a listing, from `from` on, is a failure that has to
/// be reported: what was missing or might not be read is all that failed.
pub open spec fn no_fault(entries: Seq<DiskEntry>, from: int) -> bool {
    forall|i: int|
        from <= i < entries.len() ==> match #[trigger] entries[i] {
            DiskEntry::Failed(failure) => failure.kind.is_gone(),
            DiskEntry::Found { name, node } => true,
        }
}

/// Whether an entry of this type is mirrored in a path tree: a regular
/// file or a directory.
pub open spec fn mirrors(kind: Result<FileKind, IoFailure>) -> bool {
    kind == Ok::<FileKind, IoFailure>(FileKind::Regular) || kind == Ok::<FileKind, IoFailure>(
        FileKind::Directory,
    )
}

/// Whether the listing holds a regular file or a directory.
pub open spec fn holds_mirrored(entries: Seq<DiskEntry>) -> bool {
    exists|i: int|
        0 <= i < entries.len() && (#[trigger] entries[i]) is Found && mirrors(
            entries[i]->node.kind,
        )
}

impl DiskNode {
    /// No directory in this listing holds a regular file or a directory
    /// itself.
    pub open spec fn flat(self) -> bool {
        match self.listing {
            Ok(entries) => forall|i: int|
                0 <= i < entries@.len() && (#[trigger] entries@[i]) is Found
                    && entries@[i]->node.kind == Ok::<FileKind, IoFailure>(FileKind::Directory)
                    ==> match entries@[i]->node.listing {
                    Ok(below) => !holds_mirrored(below@),
                    Err(_) => true,
                },
            Err(_) => true,
        }
    }

    /// The status of this path is known; and if it has a listing, that is
    /// without faults, and the same holds of every regular file and every
    /// directory in it.
    pub open spec fn calm(self) -> bool
        decreases self,
    {
        &&& self.stat is Ok
        &&& match self.listing {
            Ok(entries) => no_fault(entries@, 0) && forall|i: int|
                0 <= i < entries@.len() && (#[trigger] entries@[i]) is Found && mirrors(
                    entries@[i]->node.kind,
                ) ==> entries@[i]->node.calm(),
            Err(_) => true,
        }
    }

    /// What was found right below `rel` is what was found at the entry of
    /// that name of what was found at `rel`.
    pub proof fn lemma_find_push(self, rel: Seq<Seq<u8>>, name: Seq<u8>)
        ensures
            self.find(rel.push(name)) == match self.find(rel) {
                Some(node) => node.child(name),
                None => None,
            },
        decreases rel.len(),
    {
        let longer = rel.push(name);
        if rel.len() == 0 {
            assert(longer.drop_first() =~= Seq::<Seq<u8>>::empty());
            match self.child(name) {
                Some(node) => {
                    assert(node.find(longer.drop_first()) == Some(node));
                },
                None => {},
            }
        } else {
            assert(longer.drop_first() =~= rel.drop_first().push(name));
            assert(longer[0] == rel[0]);
            match self.child(rel[0]) {
                Some(node) => {
                    node.lemma_find_push(rel.drop_first(), name);
                },
                None => {},
            }
        }
    }
}

/// Whether the path `rel` is an entry of a directory with the listing
/// `entries`, of which only the first `upto` items count, and is a regular
/// file or a directory; and if it is, whether it is a directory.
pub open spec fn listed_in(entries: Seq<DiskEntry>, upto: int, rel: Seq<Seq<u8>>) -> Option<bool> {
    if rel.len() == 1 {
        match DiskNode::position(entries, rel[0], 0) {
            Some(i) => if i < upto && mirrors(entries[i]->node.kind) {
                Some(entries[i]->node.kind == Ok::<FileKind, IoFailure>(FileKind::Directory))
            } else {
                None
            },
            None => None,
        }
    } else {
        None
    }
}

impl DiskNode {
    /// Whether the path `rel` below this directory is the directory itself
    /// or one of its entries that is a regular file or a directory; and if
    /// it is, whether it is a directory.
    pub open spec fn listed(self, rel: Seq<Seq<u8>>) -> Option<bool> {
        if rel.len() == 0 {
            Some(true)
        } else {
            match self.listing {
                Ok(entries) => listed_in(entries@, entries@.len() as int, rel),
                Err(_) => None,
            }
        }
    }
}

} // verus!
