//! The watcher: a forest of time stamps, and the events that follow from
//! comparing it with what was found on disk.

use crate::atomic::AtomicIdGenerator;
use crate::disk::{mirrors, DiskEntry, DiskNode, FileKind, FileStat};
use crate::error::{ErrorView, IoFailure, PlatformError, TuxDriveError};
use crate::forest::model::{ForestView, TreeView};
use crate::forest::scan::{register_non_recursively, register_recursively, Registered};
use crate::forest::tree::PathTree;
use crate::forest::walk::{walk_one, walk_tree, Directive, NewEntry, Step};
use crate::forest::{
    default_payload, has_fixed_default, walk_view, DfsFuncBehaviour, DfsMutInfo, DfsVisitor,
    DirectoryAddOptions, NewPath, PathForest, RecursiveBehaviour,
};
use crate::path::{canonical, AbsPath};
use crate::watcher::canon::{lemma_poll_is_canonical, lemma_watched_is_canonical};
use crate::watcher::laws::{lemma_listed_creates, lemma_poll_passes_over, names_root};
use crate::watcher::numbering::lemma_poll_all_numbered;
use vstd::prelude::*;

pub mod canon;
pub mod change;
pub mod laws;
pub mod locality;
pub mod numbering;
pub mod quiet;
pub mod silence;

verus! {

/// The times of the last change of a path's content and of its status, in
/// seconds, as they were last seen.
#[derive(Debug, Clone, Copy, PartialEq, Eq, Structural)]
pub struct ModTimeInfo {
    pub mtime: i64,
    pub ctime: i64,
}

impl Default for ModTimeInfo {
    fn default() -> (info: Self)
        ensures
            info == (ModTimeInfo { mtime: 0, ctime: 0 }),
    {
        ModTimeInfo { mtime: 0, ctime: 0 }
    }
}

/// What is to become of a path after its times were read.
#[derive(Debug, Clone, Copy, PartialEq, Eq, Structural)]
pub enum PathAction {
    Nothing,
    Delete,
}

impl ModTimeInfo {
    /// The times that a status record holds.
    pub open spec fn of(stat: FileStat) -> Self {
        ModTimeInfo { mtime: stat.st_mtime, ctime: stat.st_ctime }
    }

    /// Whether the content changed after `since` was seen.
    pub open spec fn spec_modified_since(&self, since: &Self) -> bool {
        self.mtime > since.mtime
    }

    /// Whether the status changed after `since` was seen.
    pub open spec fn spec_changed_since(&self, since: &Self) -> bool {
        self.ctime > since.ctime
    }

    /// Whether content or status changed after `since` was seen.
    pub open spec fn spec_updated_since(&self, since: &Self) -> bool {
        self.spec_modified_since(since) || self.spec_changed_since(since)
    }

    /// Takes the times over from what `stat` gave for the path.
    ///
    /// A path that is missing or may not be read is to be deleted, and the
    /// times stay as they are; any other platform error is handed on.
    pub fn update_times(&mut self, stat: &Result<FileStat, PlatformError>) -> (r: Result<
        PathAction,
        TuxDriveError,
    >)
        ensures
            match *stat {
                Ok(record) => *final(self) == Self::of(record) && r matches Ok(PathAction::Nothing),
                Err(errno) => *final(self) == *old(self) && match errno.fault() {
                    None => r matches Ok(PathAction::Delete),
                    Some(code) => r matches Err(e) && e@ == ErrorView::NixError(code),
                },
            },
    {
        match stat {
            Ok(record) => {
                self.mtime = record.st_mtime;
                self.ctime = record.st_ctime;
                Ok(PathAction::Nothing)
            },
            Err(errno) => match errno.fault() {
                None => Ok(PathAction::Delete),
                Some(code) => Err(TuxDriveError::NixError(code)),
            },
        }
    }

    /// Whether the content changed after `since` was seen.
    #[verifier::when_used_as_spec(spec_modified_since)]
    pub fn modified_since(&self, since: &Self) -> (yes: bool)
        ensures
            yes == (self.mtime > since.mtime),
    {
        self.mtime > since.mtime
    }

    /// Whether the status changed after `since` was seen.
    #[verifier::when_used_as_spec(spec_changed_since)]
    pub fn changed_since(&self, since: &Self) -> (yes: bool)
        ensures
            yes == (self.ctime > since.ctime),
    {
        self.ctime > since.ctime
    }

    /// Whether content or status changed after `since` was seen.
    #[verifier::when_used_as_spec(spec_updated_since)]
    pub fn updated_since(&self, since: &Self) -> (yes: bool)
        ensures
            yes == (self.mtime > since.mtime || self.ctime > since.ctime),
    {
        self.modified_since(since) || self.changed_since(since)
    }
}

/// The kinds of change events.
#[derive(Debug, Clone, Copy, PartialEq, Eq, Structural)]
pub enum WatchEventKind {
    /// A file or a directory appeared.
    Create,
    /// A path disappeared. For a directory, nothing is said of what lay
    /// below it.
    Delete,
    /// The content of a file changed.
    Written,
    /// The status of a file changed, and its content did not.
    Chmod,
}

/// A change event.
#[derive(Debug, PartialEq, Eq)]
pub struct WatchEvent {
    pub path: AbsPath,
    pub kind: WatchEventKind,
    pub id: u32,
}

/// What a `WatchEvent` says.
pub struct EventView {
    pub path: Seq<Seq<u8>>,
    pub kind: WatchEventKind,
    pub id: u32,
}

impl View for WatchEvent {
    type V = EventView;

    open spec fn view(&self) -> EventView {
        EventView { path: self.path@, kind: self.kind, id: self.id }
    }
}

impl WatchEvent {
    pub fn new(path: &AbsPath, kind: WatchEventKind, id: u32) -> (event: Self)
        ensures
            event@ == (EventView { path: path@, kind, id }),
    {
        Self { path: path.clone(), kind, id }
    }
}

/// The views of some events.
pub open spec fn events_view(events: Seq<WatchEvent>) -> Seq<EventView> {
    Seq::new(events.len(), |i: int| events[i]@)
}

/// The events sent so far and the identifier of the next one.
pub struct Outbox {
    pub events: Seq<EventView>,
    pub next_id: u32,
}

impl Outbox {
    /// The outbox after an event of the kind `kind` was sent for `path`.
    pub open spec fn send(self, path: Seq<Seq<u8>>, kind: WatchEventKind) -> Outbox {
        Outbox {
            events: self.events.push(EventView { path, kind, id: self.next_id }),
            next_id: AtomicIdGenerator::successor(self.next_id),
        }
    }
}

/// Where events are sent: they are numbered and collected in their order.
#[derive(Debug)]
pub struct SendInfo {
    events: Vec<WatchEvent>,
    id_gen: AtomicIdGenerator,
}

impl View for SendInfo {
    type V = Outbox;

    closed spec fn view(&self) -> Outbox {
        Outbox { events: events_view(self.events@), next_id: self.id_gen.peek() }
    }
}

impl SendInfo {
    /// An empty collection that numbers its events with `id_gen`.
    pub fn new(id_gen: AtomicIdGenerator) -> (send_info: Self)
        ensures
            send_info@ == (Outbox { events: Seq::empty(), next_id: id_gen.peek() }),
    {
        let send_info = Self { events: Vec::new(), id_gen };
        assert(send_info@.events =~= Seq::empty());
        send_info
    }

    /// Sends an event of the kind `kind` for `path`, with the next
    /// identifier.
    pub fn send_event(&mut self, path: &AbsPath, kind: WatchEventKind)
        ensures
            final(self)@ == old(self)@.send(path@, kind),
    {
        let id = self.id_gen.next_id();
        self.events.push(WatchEvent::new(path, kind, id));
        assert(self@.events =~= old(self)@.send(path@, kind).events);
    }

    /// Hands the events and the generator back.
    pub fn finish(self) -> (parts: (Vec<WatchEvent>, AtomicIdGenerator))
        ensures
            events_view(parts.0@) == self@.events,
            parts.1.peek() == self@.next_id,
    {
        (self.events, self.id_gen)
    }
}

/// What is found at `path` in what was found at the root of a tree, whose
/// path has `root_len` components.
pub open spec fn probe(disk: DiskNode, root_len: nat, path: Seq<Seq<u8>>) -> Option<DiskNode> {
    if root_len <= path.len() {
        disk.find(path.skip(root_len as int))
    } else {
        None
    }
}

/// Whether an entry of this type is mirrored: a regular file or a
/// directory.
pub fn is_mirrored(kind: &Result<FileKind, IoFailure>) -> (yes: bool)
    ensures
        yes == mirrors(*kind),
{
    match kind {
        Ok(FileKind::Directory) => true,
        Ok(FileKind::Regular) => true,
        _ => false,
    }
}

/// The new entries of a directory that were found so far, with the outbox
/// after their events, and the error that ended the search, if any.
pub struct Listed {
    pub outbox: Outbox,
    pub new: Seq<NewEntry>,
    pub error: Option<ErrorView>,
}

/// What the items of a listing of `dir`, from the index `from` on, add to
/// `so_far`: each regular file and each directory whose path is not among
/// `children` is new and gets a `Create` event. Items that are missing or
/// may not be read are passed over; any other failure ends the search.
pub open spec fn listed(
    dir: Seq<Seq<u8>>,
    children: Seq<Seq<Seq<u8>>>,
    entries: Seq<DiskEntry>,
    from: int,
    so_far: Listed,
) -> Listed
    decreases entries.len() - from,
{
    if from < 0 || from >= entries.len() {
        so_far
    } else {
        match entries[from] {
            DiskEntry::Failed(failure) => if failure.kind.is_gone() {
                listed(dir, children, entries, from + 1, so_far)
            } else {
                Listed { error: Some(ErrorView::Io(failure@)), ..so_far }
            },
            DiskEntry::Found { name, node } => {
                let path = dir.push(name@);
                if !children.contains(path) && mirrors(node.kind) {
                    listed(
                        dir,
                        children,
                        entries,
                        from + 1,
                        Listed {
                            outbox: so_far.outbox.send(path, WatchEventKind::Create),
                            new: so_far.new.push(
                                NewEntry { path, is_dir: node.kind == Ok::<FileKind, IoFailure>(FileKind::Directory) },
                            ),
                            error: None,
                        },
                    )
                } else {
                    listed(dir, children, entries, from + 1, so_far)
                }
            },
        }
    }
}

/// The outbox after a `Create` event was sent for each of the paths `new`,
/// in their order, where it was `start` before.
pub open spec fn created(new: Seq<NewEntry>, start: Outbox) -> Outbox
    decreases new.len(),
{
    if new.len() == 0 {
        start
    } else {
        created(new.drop_last(), start).send(new.last().path, WatchEventKind::Create)
    }
}

/// What a polling visitor knows: what was found at the root of the tree it
/// walks, the number of components of the root's path, and the outbox.
pub struct PollModel {
    pub disk: DiskNode,
    pub root_len: nat,
    pub outbox: Outbox,
}

/// The visit of a file whose times are `now` and were `before`: a later
/// change of content is reported as `Written`, else a later change of status
/// as `Chmod`. The walk stops there.
pub open spec fn file_step(
    model: PollModel,
    path: Seq<Seq<u8>>,
    before: ModTimeInfo,
    now: ModTimeInfo,
) -> Step<PollModel, ModTimeInfo> {
    let outbox = if now.modified_since(&before) {
        model.outbox.send(path, WatchEventKind::Written)
    } else if now.changed_since(&before) {
        model.outbox.send(path, WatchEventKind::Chmod)
    } else {
        model.outbox
    };
    Step { model: PollModel { outbox, ..model }, info: now, outcome: Ok(Directive::Stop) }
}

/// The visit of a directory that was found as `found` and whose times are
/// `now`: its new entries are reported as `Create` and added, and the walk
/// goes on below it. A directory that is missing or may not be listed is
/// reported as `Delete` and deleted; any other failure to list it is an
/// error, and nothing is sent.
pub open spec fn dir_step(
    model: PollModel,
    path: Seq<Seq<u8>>,
    children: Seq<Seq<Seq<u8>>>,
    found: DiskNode,
    now: ModTimeInfo,
) -> Step<PollModel, ModTimeInfo> {
    match found.listing {
        Err(failure) => if failure.kind.is_gone() {
            Step {
                model: PollModel {
                    outbox: model.outbox.send(path, WatchEventKind::Delete),
                    ..model
                },
                info: now,
                outcome: Ok(Directive::Delete),
            }
        } else {
            Step { model, info: now, outcome: Err(ErrorView::Io(failure@)) }
        },
        Ok(entries) => {
            let all = listed(
                path,
                children,
                entries@,
                0,
                Listed { outbox: model.outbox, new: Seq::empty(), error: None },
            );
            Step {
                model: PollModel { outbox: all.outbox, ..model },
                info: now,
                outcome: match all.error {
                    Some(e) => Err(e),
                    None => if all.new.len() == 0 {
                        Ok(Directive::Continue)
                    } else {
                        Ok(Directive::AddAndContinue(all.new))
                    },
                },
            }
        },
    }
}

/// The visit that reports a deletion: a `Delete` event, the payload as it
/// was, and the directive to delete the node.
pub open spec fn delete_step(model: PollModel, path: Seq<Seq<u8>>, info: ModTimeInfo) -> Step<
    PollModel,
    ModTimeInfo,
> {
    Step {
        model: PollModel { outbox: model.outbox.send(path, WatchEventKind::Delete), ..model },
        info,
        outcome: Ok(Directive::Delete),
    }
}

/// One visit of a poll.
///
/// A path that is no longer found, that is neither a regular file nor a
/// directory, that is a directory where the tree has a file or the other
/// way round, or whose status is missing or may not be read, is reported as
/// `Delete` and deleted. Any other failure to read the status is an error.
/// Else the node takes the times over, and the visit goes on as that of a
/// directory or of a file.
pub open spec fn poll_step(
    model: PollModel,
    path: Seq<Seq<u8>>,
    children: Seq<Seq<Seq<u8>>>,
    info: ModTimeInfo,
    is_dir: bool,
) -> Step<PollModel, ModTimeInfo> {
    match probe(model.disk, model.root_len, path) {
        None => delete_step(model, path, info),
        Some(found) => if !mirrors(found.kind) || (found.kind == Ok::<
            FileKind,
            IoFailure,
        >(FileKind::Directory)) != is_dir {
            delete_step(model, path, info)
        } else {
            match found.stat {
                Err(errno) => match errno.fault() {
                    None => delete_step(model, path, info),
                    Some(code) => Step { model, info, outcome: Err(ErrorView::NixError(code)) },
                },
                Ok(stat) => if is_dir {
                    dir_step(model, path, children, found, ModTimeInfo::of(stat))
                } else {
                    file_step(model, path, info, ModTimeInfo::of(stat))
                },
            }
        },
    }
}

/// Decides what is to be said of a file whose times were `old_time_info`
/// and are now `info`.
pub fn handle_file(
    path: &AbsPath,
    info: &ModTimeInfo,
    old_time_info: &ModTimeInfo,
    send_info: &mut SendInfo,
) -> (r: Result<DfsFuncBehaviour, TuxDriveError>)
    ensures
        r matches Ok(DfsFuncBehaviour::Stop),
        final(send_info)@ == if info.modified_since(old_time_info) {
            old(send_info)@.send(path@, WatchEventKind::Written)
        } else if info.changed_since(old_time_info) {
            old(send_info)@.send(path@, WatchEventKind::Chmod)
        } else {
            old(send_info)@
        },
{
    if info.modified_since(old_time_info) {
        send_info.send_event(path, WatchEventKind::Written);
    } else if info.changed_since(old_time_info) {
        send_info.send_event(path, WatchEventKind::Chmod);
    }
    Ok(DfsFuncBehaviour::Stop)
}

/// Whether `path` is among `paths`.
fn has_path(paths: &Vec<AbsPath>, path: &AbsPath) -> (yes: bool)
    ensures
        yes == crate::forest::paths_view(paths@).contains(path@),
{
    let mut i: usize = 0;
    while i < paths.len()
        invariant
            i <= paths@.len(),
            forall|k: int| 0 <= k < i ==> crate::forest::paths_view(paths@)[k] != path@,
        decreases paths@.len() - i,
    {
        if paths[i].same_as(path) {
            assert(crate::forest::paths_view(paths@)[i as int] == path@);
            return true;
        }
        i += 1;
    }
    false
}

/// Decides what is to be said of a directory that was found as `found` and
/// whose children in the tree have the paths `children_paths`.
///
/// A directory that is missing or may not be listed is reported as
/// `Delete` and is to be deleted; any other failure to list it is an error.
/// Else one `Create` is sent for each regular file and each directory of
/// the listing that is not among the children, and for nothing else, and
/// these are the paths to add.
pub fn handle_dir(
    path: &AbsPath,
    children_paths: &Vec<AbsPath>,
    found: &DiskNode,
    send_info: &mut SendInfo,
) -> (r: Result<DfsFuncBehaviour, TuxDriveError>)
    ensures
        match found.listing {
            Err(failure) => if failure.kind.is_gone() {
                final(send_info)@ == old(send_info)@.send(path@, WatchEventKind::Delete) && (
                r matches Ok(DfsFuncBehaviour::Delete))
            } else {
                final(send_info)@ == old(send_info)@ && (r matches Err(e) && e@ == ErrorView::Io(
                    failure@,
                ))
            },
            Ok(entries) => {
                let all = listed(
                    path@,
                    crate::forest::paths_view(children_paths@),
                    entries@,
                    0,
                    Listed { outbox: old(send_info)@, new: Seq::empty(), error: None },
                );
                &&& final(send_info)@ == all.outbox
                &&& all.outbox == created(all.new, old(send_info)@)
                &&& forall|k: int|
                    0 <= k < all.new.len() ==> !crate::forest::paths_view(
                        children_paths@,
                    ).contains(#[trigger] all.new[k].path)
                &&& crate::forest::visit_view(r) == match all.error {
                    Some(e) => Err::<Directive, ErrorView>(e),
                    None => if all.new.len() == 0 {
                        Ok(Directive::Continue)
                    } else {
                        Ok(Directive::AddAndContinue(all.new))
                    },
                }
            },
        },
{
    let entries = match &found.listing {
        Ok(entries) => entries,
        Err(failure) => {
            if failure.kind.is_gone() {
                send_info.send_event(path, WatchEventKind::Delete);
                return Ok(DfsFuncBehaviour::Delete);
            } else {
                return Err(TuxDriveError::Io(failure.clone()));
            }
        },
    };
    let ghost children = crate::forest::paths_view(children_paths@);
    let ghost start = Listed { outbox: send_info@, new: Seq::empty(), error: None };
    proof {
        lemma_listed_creates(path@, children, entries@, 0, start, send_info@);
    }
    let mut new_paths: Vec<NewPath> = Vec::new();
    let mut i: usize = 0;
    assert(crate::forest::new_paths_view(new_paths@) =~= Seq::empty());
    while i < entries.len()
        invariant
            i <= entries@.len(),
            found.listing == Ok::<Vec<DiskEntry>, IoFailure>(*entries),
            children == crate::forest::paths_view(children_paths@),
            start == (Listed { outbox: old(send_info)@, new: Seq::empty(), error: None }),
            listed(path@, children, entries@, 0, start).outbox == created(
                listed(path@, children, entries@, 0, start).new,
                start.outbox,
            ),
            forall|k: int|
                0 <= k < listed(path@, children, entries@, 0, start).new.len()
                    ==> !children.contains(
                    #[trigger] listed(path@, children, entries@, 0, start).new[k].path,
                ),
            listed(path@, children, entries@, 0, start) == listed(
                path@,
                children,
                entries@,
                i as int,
                Listed {
                    outbox: send_info@,
                    new: crate::forest::new_paths_view(new_paths@),
                    error: None,
                },
            ),
        decreases entries@.len() - i,
    {
        match &entries[i] {
            DiskEntry::Failed(failure) => {
                if !failure.kind.is_gone() {
                    return Err(TuxDriveError::Io(failure.clone()));
                }
            },
            DiskEntry::Found { name, node } => {
                let entry_path = path.join(name);
                if !has_path(children_paths, &entry_path) && is_mirrored(&node.kind) {
                    let is_dir = match &node.kind {
                        Ok(FileKind::Directory) => true,
                        _ => false,
                    };
                    send_info.send_event(&entry_path, WatchEventKind::Create);
                    let ghost before = crate::forest::new_paths_view(new_paths@);
                    new_paths.push(NewPath { path: entry_path, is_dir });
                    assert(crate::forest::new_paths_view(new_paths@) =~= before.push(
                        NewEntry { path: path@.push(name@), is_dir },
                    ));
                }
            },
        }
        i += 1;
    }
    if new_paths.len() > 0 {
        Ok(DfsFuncBehaviour::AddAndContinue(new_paths))
    } else {
        Ok(DfsFuncBehaviour::Continue)
    }
}

/// The visitor of a poll: it walks one tree, compares each node with what
/// was found on disk, and sends the events.
pub struct PollVisitor<'a> {
    disk: &'a DiskNode,
    root_len: usize,
    send_info: SendInfo,
}

impl<'a> View for PollVisitor<'a> {
    type V = PollModel;

    closed spec fn view(&self) -> PollModel {
        PollModel { disk: *self.disk, root_len: self.root_len as nat, outbox: self.send_info@ }
    }
}

impl<'a> PollVisitor<'a> {
    /// The visitor of the tree whose root has `root_len` components and was
    /// found as `disk`.
    pub fn new(disk: &'a DiskNode, root_len: usize, send_info: SendInfo) -> (visitor: Self)
        ensures
            visitor@ == (PollModel { disk: *disk, root_len: root_len as nat, outbox: send_info@ }),
    {
        Self { disk, root_len, send_info }
    }

    /// Hands the outbox back.
    pub fn finish(self) -> (send_info: SendInfo)
        ensures
            send_info@ == self@.outbox,
    {
        self.send_info
    }

    /// Sends a `Delete` event for `path` and asks for the node's deletion.
    fn delete(&mut self, path: &AbsPath) -> (r: Result<DfsFuncBehaviour, TuxDriveError>)
        ensures
            r matches Ok(DfsFuncBehaviour::Delete),
            final(self)@ == (PollModel {
                outbox: old(self)@.outbox.send(path@, WatchEventKind::Delete),
                ..old(self)@
            }),
    {
        self.send_info.send_event(path, WatchEventKind::Delete);
        Ok(DfsFuncBehaviour::Delete)
    }
}

impl<'a> DfsVisitor<ModTimeInfo> for PollVisitor<'a> {
    open spec fn step(
        model: PollModel,
        path: Seq<Seq<u8>>,
        children: Seq<Seq<Seq<u8>>>,
        info: ModTimeInfo,
        is_dir: bool,
    ) -> Step<PollModel, ModTimeInfo> {
        poll_step(model, path, children, info, is_dir)
    }

    fn visit(&mut self, path: &AbsPath, node: DfsMutInfo<'_, ModTimeInfo>) -> (r: Result<
        DfsFuncBehaviour,
        TuxDriveError,
    >) {
        let probe = if self.root_len <= path.len() {
            self.disk.lookup(path, self.root_len)
        } else {
            None
        };
        let found = match probe {
            Some(found) => found,
            None => {
                return self.delete(path);
            },
        };
        if !is_mirrored(&found.kind) {
            return self.delete(path);
        }
        let found_dir = match &found.kind {
            Ok(FileKind::Directory) => true,
            _ => false,
        };
        if found_dir != node.is_dir {
            return self.delete(path);
        }
        let old_time_info = *node.info;
        match node.info.update_times(&found.stat) {
            Err(e) => {
                return Err(e);
            },
            Ok(PathAction::Delete) => {
                return self.delete(path);
            },
            Ok(PathAction::Nothing) => {},
        }
        if node.is_dir {
            handle_dir(path, &node.children_paths, found, &mut self.send_info)
        } else {
            handle_file(path, node.info, &old_time_info, &mut self.send_info)
        }
    }
}

/// What the visitor of the first pass knows: what was found at the root of
/// the tree it walks, and the number of components of the root's path.
pub struct TimesModel {
    pub disk: DiskNode,
    pub root_len: nat,
}

/// One visit of the first pass over a tree, which takes the times over and
/// sends nothing.
///
/// A path that is not found, or whose status is missing or may not be
/// read, is deleted. Any other failure to read the status is an error. Else
/// the node takes the times over, and the walk goes on below every
/// directory, so that every node that is found takes its times over.
pub open spec fn times_step(
    model: TimesModel,
    path: Seq<Seq<u8>>,
    info: ModTimeInfo,
    is_dir: bool,
) -> Step<TimesModel, ModTimeInfo> {
    match probe(model.disk, model.root_len, path) {
        None => Step { model, info, outcome: Ok(Directive::Delete) },
        Some(found) => if found.kind is Err {
            Step { model, info, outcome: Ok(Directive::Delete) }
        } else {
            match found.stat {
                Err(errno) => Step {
                    model,
                    info,
                    outcome: match errno.fault() {
                        None => Ok(Directive::Delete),
                        Some(code) => Err(ErrorView::NixError(code)),
                    },
                },
                Ok(stat) => Step {
                    model,
                    info: ModTimeInfo::of(stat),
                    outcome: if is_dir {
                        Ok(Directive::Continue)
                    } else {
                        Ok(Directive::Stop)
                    },
                },
            }
        },
    }
}

/// The visitor of the first pass over a tree.
pub struct TimesVisitor<'a> {
    disk: &'a DiskNode,
    root_len: usize,
}

impl<'a> View for TimesVisitor<'a> {
    type V = TimesModel;

    closed spec fn view(&self) -> TimesModel {
        TimesModel { disk: *self.disk, root_len: self.root_len as nat }
    }
}

impl<'a> TimesVisitor<'a> {
    /// The visitor of the tree whose root has `root_len` components and was
    /// found as `disk`.
    pub fn new(disk: &'a DiskNode, root_len: usize) -> (visitor: Self)
        ensures
            visitor@ == (TimesModel { disk: *disk, root_len: root_len as nat }),
    {
        Self { disk, root_len }
    }
}

impl<'a> DfsVisitor<ModTimeInfo> for TimesVisitor<'a> {
    open spec fn step(
        model: TimesModel,
        path: Seq<Seq<u8>>,
        children: Seq<Seq<Seq<u8>>>,
        info: ModTimeInfo,
        is_dir: bool,
    ) -> Step<TimesModel, ModTimeInfo> {
        times_step(model, path, info, is_dir)
    }

    fn visit(&mut self, path: &AbsPath, node: DfsMutInfo<'_, ModTimeInfo>) -> (r: Result<
        DfsFuncBehaviour,
        TuxDriveError,
    >) {
        let probe = if self.root_len <= path.len() {
            self.disk.lookup(path, self.root_len)
        } else {
            None
        };
        let found = match probe {
            Some(found) => found,
            None => {
                return Ok(DfsFuncBehaviour::Delete);
            },
        };
        if found.kind.is_err() {
            return Ok(DfsFuncBehaviour::Delete);
        }
        match node.info.update_times(&found.stat) {
            Err(e) => {
                return Err(e);
            },
            Ok(PathAction::Delete) => {
                return Ok(DfsFuncBehaviour::Delete);
            },
            Ok(PathAction::Nothing) => {},
        }
        if node.is_dir {
            Ok(DfsFuncBehaviour::Continue)
        } else {
            Ok(DfsFuncBehaviour::Stop)
        }
    }
}

/// Polls one tree against what was found at its root, `disk`: walks it,
/// brings it up to date, and sends the events to `send_info`, which comes
/// back with the result of the walk.
pub fn poll_tree(tree: &mut PathTree<ModTimeInfo>, disk: &DiskNode, send_info: SendInfo) -> (r: (
    Result<RecursiveBehaviour, TuxDriveError>,
    SendInfo,
))
    ensures
        ({
            let w = walk_tree::<ModTimeInfo, PollVisitor>(
                old(tree)@,
                PollModel { disk: *disk, root_len: old(tree)@.root.len(), outbox: send_info@ },
                default_payload::<ModTimeInfo>(),
            );
            &&& final(tree)@ == (TreeView { node: w.node, ..old(tree)@ })
            &&& walk_view(r.0) == w.result
            &&& r.1@ == w.model.outbox
        }),
        old(tree).wf() ==> final(tree).wf(),
{
    proof {
        lemma_fixed_default();
    }
    let root_len = tree.root_path().len();
    let mut visitor = PollVisitor::new(disk, root_len, send_info);
    let outcome = tree.dfs_mut(&mut visitor);
    (outcome, visitor.finish())
}

/// The default times are fixed: both are zero.
pub proof fn lemma_fixed_default()
    ensures
        has_fixed_default::<ModTimeInfo>(),
{
}

/// What was found on disk below one root.
#[derive(Debug)]
pub struct Snapshot {
    pub root: AbsPath,
    pub disk: DiskNode,
}

/// A forest after polls, the outbox after their events, and the error that
/// ended them early, if any.
pub struct Polled {
    pub forest: ForestView<ModTimeInfo>,
    pub outbox: Outbox,
    pub error: Option<ErrorView>,
}

/// The poll of the tree with the root `root` against what was found there,
/// `disk`. A forest without such a tree stays as it is, and nothing is sent.
pub open spec fn poll_one(
    forest: ForestView<ModTimeInfo>,
    root: Seq<Seq<u8>>,
    disk: DiskNode,
    outbox: Outbox,
    fresh: ModTimeInfo,
) -> Polled {
    let walked = walk_one::<ModTimeInfo, PollVisitor>(
        forest,
        root,
        PollModel { disk, root_len: root.len(), outbox },
        fresh,
    );
    Polled { forest: walked.forest, outbox: walked.model.outbox, error: walked.error }
}

/// The polls of the trees for which `snapshots` holds what was found, from
/// the index `from` on and in the order of the snapshots. The first error
/// ends them.
pub open spec fn poll_all(
    forest: ForestView<ModTimeInfo>,
    snapshots: Seq<Snapshot>,
    from: int,
    outbox: Outbox,
    fresh: ModTimeInfo,
) -> Polled
    decreases snapshots.len() - from,
{
    if from < 0 || from >= snapshots.len() {
        Polled { forest, outbox, error: None }
    } else {
        let one = poll_one(forest, snapshots[from].root@, snapshots[from].disk, outbox, fresh);
        if one.error is Some {
            one
        } else {
            poll_all(one.forest, snapshots, from + 1, one.outbox, fresh)
        }
    }
}

/// The first pass over the tree with the root `root`, which takes the
/// times over from what was found there, `disk`.
pub open spec fn first_pass(
    forest: ForestView<ModTimeInfo>,
    root: Seq<Seq<u8>>,
    disk: DiskNode,
    fresh: ModTimeInfo,
) -> Registered<ModTimeInfo> {
    let walked = walk_one::<ModTimeInfo, TimesVisitor>(
        forest,
        root,
        TimesModel { disk, root_len: root.len() },
        fresh,
    );
    Registered { forest: walked.forest, error: walked.error }
}

/// The forest after the directory `path`, found on disk as `disk`, was
/// put under watch: it is registered, with all below it or with its own
/// entries only, and the first pass takes the times over.
pub open spec fn watched(
    forest: ForestView<ModTimeInfo>,
    path: Seq<Seq<u8>>,
    recursive: bool,
    disk: DiskNode,
    fresh: ModTimeInfo,
) -> Registered<ModTimeInfo> {
    let registered = if recursive {
        register_recursively(forest, path, disk, DirectoryAddOptions::tolerant(), fresh)
    } else {
        register_non_recursively(forest, path, disk, fresh)
    };
    if registered.error is Some {
        registered
    } else {
        first_pass(registered.forest, path, disk, fresh)
    }
}

/// What a watcher is: its forest, and the identifier of its next event.
pub struct WatcherView {
    pub forest: ForestView<ModTimeInfo>,
    pub next_id: u32,
}

/// The watcher: the forest of the watched directories with the times that
/// were last seen, and the source of event identifiers. It is polled every
/// `POLL_INTERVAL_SECS` seconds.
#[derive(Debug)]
pub struct Watcher<const POLL_INTERVAL_SECS: u64> {
    forest: PathForest<ModTimeInfo>,
    id_gen: AtomicIdGenerator,
}

impl<const POLL_INTERVAL_SECS: u64> View for Watcher<POLL_INTERVAL_SECS> {
    type V = WatcherView;

    closed spec fn view(&self) -> WatcherView {
        WatcherView { forest: self.forest@, next_id: self.id_gen.peek() }
    }
}

impl<const POLL_INTERVAL_SECS: u64> Watcher<POLL_INTERVAL_SECS> {
    /// The forest is well formed.
    pub open spec fn wf(&self) -> bool {
        self@.forest.wf()
    }

    /// The watcher that watches nothing yet. Its first event will have the
    /// identifier 1.
    pub fn new() -> (watcher: Self)
        ensures
            watcher.wf(),
            watcher@.forest.trees == Seq::<TreeView<ModTimeInfo>>::empty(),
            watcher@.next_id == 1,
    {
        Self { forest: PathForest::new(), id_gen: AtomicIdGenerator::new() }
    }

    /// The number of seconds to wait between two polls.
    pub fn poll_interval_secs(&self) -> (secs: u64)
        ensures
            secs == POLL_INTERVAL_SECS,
    {
        POLL_INTERVAL_SECS
    }

    /// The forest.
    pub fn forest(&self) -> (forest: &PathForest<ModTimeInfo>)
        ensures
            forest@ == self@.forest,
    {
        &self.forest
    }

    /// The roots of the watched trees, of which a poll wants snapshots.
    pub fn roots(&self) -> (roots: Vec<AbsPath>)
        ensures
            roots@.len() == self@.forest.trees.len(),
            forall|i: int|
                0 <= i < roots@.len() ==> (#[trigger] roots@[i])@ == self@.forest.trees[i].root,
    {
        self.forest.roots()
    }

    /// Puts the directory `path`, found on disk as `disk`, under watch,
    /// with all that lies below it or with its own entries only.
    ///
    /// The path is canonical. A path that is no directory is refused with
    /// `NotDirectory`. The first pass over the new tree takes the times
    /// over and sends no event. Where the directory is found with names
    /// that can be components of canonical paths, a forest of canonical
    /// paths stays one.
    pub fn add_directory(&mut self, path: &AbsPath, recursive: bool, disk: &DiskNode) -> (r: Result<
        (),
        TuxDriveError,
    >)
        requires
            old(self).wf(),
            path.is_canonical(),
        ensures
            final(self).wf(),
            final(self)@.next_id == old(self)@.next_id,
            disk.kind != Ok::<FileKind, IoFailure>(FileKind::Directory) ==> final(self)@ == old(
                self,
            )@ && (r matches Err(e) && e@ == ErrorView::NotDirectory(path@)),
            disk.kind == Ok::<FileKind, IoFailure>(FileKind::Directory) ==> ({
                let w = watched(
                    old(self)@.forest,
                    path@,
                    recursive,
                    *disk,
                    default_payload::<ModTimeInfo>(),
                );
                &&& final(self)@.forest == w.forest
                &&& match r {
                    Ok(_) => w.error is None,
                    Err(e) => w.error == Some(e@),
                }
            }),
            old(self)@.forest.canonical_paths() && disk.well_named()
                ==> final(self)@.forest.canonical_paths(),
    {
        proof {
            lemma_fixed_default();
            if self@.forest.canonical_paths() && disk.well_named() {
                lemma_watched_is_canonical(
                    self@.forest,
                    path@,
                    recursive,
                    *disk,
                    default_payload::<ModTimeInfo>(),
                );
            }
        }
        let is_dir = match &disk.kind {
            Ok(FileKind::Directory) => true,
            _ => false,
        };
        if !is_dir {
            return Err(TuxDriveError::NotDirectory(path.clone()));
        }
        let registered = if recursive {
            self.forest.add_dir_recursively(path, disk, DirectoryAddOptions::new())
        } else {
            self.forest.add_dir_non_recursively(path, disk)
        };
        match registered {
            Err(e) => Err(e),
            Ok(_) => self.update_times(path, disk),
        }
    }

    /// The first pass over the tree with the root `root_path`: every node
    /// takes the times over from what was found, and no event is sent.
    pub fn update_times(&mut self, root_path: &AbsPath, disk: &DiskNode) -> (r: Result<
        (),
        TuxDriveError,
    >)
        requires
            old(self).wf(),
        ensures
            final(self).wf(),
            final(self)@.next_id == old(self)@.next_id,
            ({
                let passed = first_pass(
                    old(self)@.forest,
                    root_path@,
                    *disk,
                    default_payload::<ModTimeInfo>(),
                );
                &&& final(self)@.forest == passed.forest
                &&& match r {
                    Ok(_) => passed.error is None,
                    Err(e) => passed.error == Some(e@),
                }
            }),
    {
        proof {
            lemma_fixed_default();
        }
        let mut visitor = TimesVisitor::new(disk, root_path.len());
        self.forest.dfs_tree(root_path, &mut visitor)
    }

    /// Polls the trees for which `snapshots` holds what was found on disk,
    /// in the order of the snapshots, and returns the events in the order in
    /// which they arose, numbered in that order. A tree of which no
    /// snapshot is given is passed over: it stays as it is. To poll every
    /// tree, hand in a snapshot of each of `roots()`.
    ///
    /// Each tree is walked and brought up to date. The first error ends
    /// the poll; the events that arose before it are returned with it.
    /// Where the directories are found with names that can be components
    /// of canonical paths, a forest of canonical paths stays one, and
    /// every event is for a canonical path.
    pub fn poll(&mut self, snapshots: &Vec<Snapshot>) -> (r: (
        Vec<WatchEvent>,
        Result<(), TuxDriveError>,
    ))
        requires
            old(self).wf(),
        ensures
            final(self).wf(),
            ({
                let polled = poll_all(
                    old(self)@.forest,
                    snapshots@,
                    0,
                    Outbox { events: Seq::empty(), next_id: old(self)@.next_id },
                    default_payload::<ModTimeInfo>(),
                );
                &&& final(self)@.forest == polled.forest
                &&& final(self)@.next_id == polled.outbox.next_id
                &&& events_view(r.0@) == polled.outbox.events
                &&& match r.1 {
                    Ok(_) => polled.error is None,
                    Err(e) => polled.error == Some(e@),
                }
            }),
            final(self)@.next_id == AtomicIdGenerator::advance(old(self)@.next_id, r.0@.len()),
            forall|i: int|
                0 <= i < r.0@.len() ==> (#[trigger] r.0@[i]).id == AtomicIdGenerator::advance(
                    old(self)@.next_id,
                    i as nat,
                ),
            forall|root: Seq<Seq<u8>>|
                !names_root(snapshots@, 0, root) ==> #[trigger] final(self)@.forest.tree(root)
                    == old(self)@.forest.tree(root),
            old(self)@.forest.canonical_paths() && (forall|i: int|
                0 <= i < snapshots@.len() ==> (#[trigger] snapshots@[i]).disk.well_named()) ==> {
                &&& final(self)@.forest.canonical_paths()
                &&& forall|i: int| 0 <= i < r.0@.len() ==> canonical((#[trigger] r.0@[i])@.path)
            },
    {
        proof {
            lemma_fixed_default();
            assert forall|root: Seq<Seq<u8>>| !names_root(snapshots@, 0, root) implies poll_all(
                self@.forest,
                snapshots@,
                0,
                Outbox { events: Seq::empty(), next_id: self@.next_id },
                default_payload::<ModTimeInfo>(),
            ).forest.tree(root) == #[trigger] self@.forest.tree(root) by {
                lemma_poll_passes_over(
                    self@.forest,
                    snapshots@,
                    0,
                    Outbox { events: Seq::empty(), next_id: self@.next_id },
                    default_payload::<ModTimeInfo>(),
                    root,
                );
            }
            lemma_poll_all_numbered(
                self@.forest,
                snapshots@,
                0,
                Outbox { events: Seq::empty(), next_id: self@.next_id },
                default_payload::<ModTimeInfo>(),
                self@.next_id,
            );
        }
        let ghost fresh = default_payload::<ModTimeInfo>();
        let ghost start_forest = self@.forest;
        let ghost start = Outbox { events: Seq::empty(), next_id: self@.next_id };
        let mut id_gen = AtomicIdGenerator::new();
        core::mem::swap(&mut id_gen, &mut self.id_gen);
        let mut send_info = SendInfo::new(id_gen);
        let mut result: Result<(), TuxDriveError> = Ok(());
        let mut i: usize = 0;
        while i < snapshots.len()
            invariant_except_break
                result is Ok,
                poll_all(start_forest, snapshots@, 0, start, fresh) == poll_all(
                    self.forest@,
                    snapshots@,
                    i as int,
                    send_info@,
                    fresh,
                ),
            invariant
                i <= snapshots@.len(),
                self.forest.wf(),
                has_fixed_default::<ModTimeInfo>(),
                fresh == default_payload::<ModTimeInfo>(),
            ensures
                ({
                    let polled = poll_all(start_forest, snapshots@, 0, start, fresh);
                    &&& self.forest@ == polled.forest
                    &&& send_info@ == polled.outbox
                    &&& match result {
                        Ok(_) => polled.error is None,
                        Err(e) => polled.error == Some(e@),
                    }
                }),
            decreases snapshots@.len() - i,
        {
            let snapshot = &snapshots[i];
            let mut visitor = PollVisitor::new(&snapshot.disk, snapshot.root.len(), send_info);
            let outcome = self.forest.dfs_tree(&snapshot.root, &mut visitor);
            send_info = visitor.finish();
            if let Err(e) = outcome {
                result = Err(e);
                break;
            }
            i += 1;
        }
        let (events, id_gen) = send_info.finish();
        self.id_gen = id_gen;
        proof {
            assert forall|i: int| 0 <= i < events@.len() implies (#[trigger] events@[i]).id
                == AtomicIdGenerator::advance(old(self)@.next_id, i as nat) by {
                assert(events_view(events@)[i] == events@[i]@);
            }
            if start_forest.canonical_paths() && (forall|i: int|
                0 <= i < snapshots@.len() ==> (#[trigger] snapshots@[i]).disk.well_named()) {
                lemma_poll_is_canonical(start_forest, snapshots@, 0, start, fresh, 0);
                assert forall|i: int| 0 <= i < events@.len() implies canonical(
                    (#[trigger] events@[i])@.path,
                ) by {
                    assert(events_view(events@)[i] == events@[i]@);
                }
            }
        }
        (events, result)
    }
}

} // verus!
