//! A snapshot of a source tree that is kept in step with the file system, and reports the
//! files that appeared and disappeared since it was last scanned.
use vstd::prelude::*;
use vstd::string::*;
use crate::error::LogError;
use crate::language::{language_of_path, SourceLanguage};
use crate::text::str_equals;

verus! {

/// An identifier for a source file, handed out by the tree that found it.
#[derive(Clone, Copy, Debug, PartialEq, Eq, Hash, Structural)]
pub struct SourceFileID(pub usize);

/// The language and the identifier of a source file.
#[derive(Clone, Copy, Debug, PartialEq, Eq, Structural)]
pub struct SourceFileInfo {
    pub language: SourceLanguage,
    pub id: SourceFileID,
}

impl SourceFileInfo {
    /// A file of `language` that takes the next identifier of `next_id`.
    pub fn new(language: SourceLanguage, next_id: &mut usize) -> (r: SourceFileInfo)
        requires
            *old(next_id) < usize::MAX,
        ensures
            r.language == language,
            r.id.0 == *old(next_id),
            *final(next_id) == *old(next_id) + 1,
    {
        let id = SourceFileID(*next_id);
        *next_id = *next_id + 1;
        SourceFileInfo { language, id }
    }
}

/// What the file system holds at a path, as read by the caller: a directory listing holds
/// what is at each of its names.
pub enum FsEntry {
    File { modified: u128 },
    Directory { entries: Vec<(String, FsEntry)> },
    Inaccessible { message: String },
    Other,
}

/// Version-control and editor metadata directories, which are never looked into.
pub open spec fn ignored_name(name: Seq<char>) -> bool {
    name == ".git"@ || name == ".hg"@ || name == ".svn"@ || name == ".vscode"@
}

pub fn is_ignored_dir(name: &str) -> (r: bool)
    ensures
        r == ignored_name(name@),
{
    str_equals(name, ".git") || str_equals(name, ".hg") || str_equals(name, ".svn") || str_equals(
        name,
        ".vscode",
    )
}

/// `dir` joined with the name `name`.
pub open spec fn joined(dir: Seq<char>, name: Seq<char>) -> Seq<char> {
    if dir.len() == 0 {
        name
    } else if dir.last() == '/' {
        dir + name
    } else {
        dir + seq!['/'] + name
    }
}

pub fn join_path(dir: &str, name: &str) -> (r: String)
    ensures
        r@ == joined(dir@, name@),
{
    let d = crate::text::chars_of(dir);
    let mut r = String::from_str(dir);
    if d.len() == 0 {
        return String::from_str(name);
    }
    if d[d.len() - 1] != '/' {
        r.append("/");
        proof {
            reveal_strlit("/");
        }
    }
    r.append(name);
    r
}

/// What a node holds.
pub enum SourceHierContent {
    File { info: SourceFileInfo, last_modified_time: u128 },
    UnsupportedFile,
    Directory { entries: Vec<(String, SourceHierNode)> },
    Error { source: LogError },
    Unknown,
}

/// A node of the tree, and whether it was reported by a scan since its content last changed.
pub struct SourceHierNode {
    pub scanned: bool,
    pub content: SourceHierContent,
}

/// A change that a scan reports.
pub enum ScanEvent {
    NewFile(String, SourceFileInfo),
    DeletedFile(String, SourceFileID),
}

pub enum ScanEventView {
    NewFile(Seq<char>, SourceFileInfo),
    DeletedFile(Seq<char>, SourceFileID),
}

impl View for ScanEvent {
    type V = ScanEventView;

    open spec fn view(&self) -> ScanEventView {
        match self {
            ScanEvent::NewFile(p, i) => ScanEventView::NewFile(p@, *i),
            ScanEvent::DeletedFile(p, i) => ScanEventView::DeletedFile(p@, *i),
        }
    }
}

pub open spec fn event_views(v: Seq<ScanEvent>) -> Seq<ScanEventView> {
    v.map_values(|e: ScanEvent| e@)
}

/// A deletion event for each file beneath `n`, which is at `path`, depth first.
pub open spec fn deletions_of(n: SourceHierNode, path: Seq<char>) -> Seq<ScanEventView>
    decreases n,
{
    match n.content {
        SourceHierContent::File { info, .. } => seq![ScanEventView::DeletedFile(path, info.id)],
        SourceHierContent::Directory { entries } => deletions_in(entries@, path),
        _ => seq![],
    }
}

pub open spec fn deletions_in(es: Seq<(String, SourceHierNode)>, path: Seq<char>) -> Seq<ScanEventView>
    decreases es,
{
    if es.len() == 0 {
        seq![]
    } else {
        deletions_of(es[0].1, joined(path, es[0].0@)) + deletions_in(
            es.subrange(1, es.len() as int),
            path,
        )
    }
}

/// A new-file event for each file beneath `n` that no scan reported yet, depth first.
pub open spec fn unreported(n: SourceHierNode, path: Seq<char>) -> Seq<ScanEventView>
    decreases n,
{
    match n.content {
        SourceHierContent::File { info, .. } => if n.scanned {
            seq![]
        } else {
            seq![ScanEventView::NewFile(path, info)]
        },
        SourceHierContent::Directory { entries } => unreported_in(entries@, path),
        _ => seq![],
    }
}

pub open spec fn unreported_in(es: Seq<(String, SourceHierNode)>, path: Seq<char>) -> Seq<ScanEventView>
    decreases es,
{
    if es.len() == 0 {
        seq![]
    } else {
        unreported(es[0].1, joined(path, es[0].0@)) + unreported_in(
            es.subrange(1, es.len() as int),
            path,
        )
    }
}

/// Every node beneath `n` was reported.
pub open spec fn all_scanned(n: SourceHierNode) -> bool
    decreases n,
{
    n.scanned && match n.content {
        SourceHierContent::Directory { entries } => all_scanned_in(entries@),
        _ => true,
    }
}

pub open spec fn all_scanned_in(es: Seq<(String, SourceHierNode)>) -> bool
    decreases es,
{
    es.len() == 0 || (all_scanned(es[0].1) && all_scanned_in(es.subrange(1, es.len() as int)))
}

/// Syncing `n` with `e` replaces it by a node built afresh from `e`: a file whose modified
/// time changed or that is no longer a file, a directory that is no longer one, and any other
/// node.
pub open spec fn sync_rebuilds(n: SourceHierNode, e: FsEntry) -> bool {
    match n.content {
        SourceHierContent::File { last_modified_time, .. } => !(e matches FsEntry::File { modified } && modified == last_modified_time),
        SourceHierContent::Directory { .. } => !(e is Directory),
        _ => true,
    }
}

/// `c` records that `path` could not be read.
pub open spec fn unreadable_at(c: SourceHierContent, path: Seq<char>) -> bool {
    c matches SourceHierContent::Error { source: LogError::CannotAccessPath { path: p, .. } } && p@ == path
}

/// A new-file event for each of the files `fs`.
pub open spec fn new_file_events(fs: Seq<(Seq<char>, SourceFileInfo)>) -> Seq<ScanEventView> {
    fs.map_values(|f: (Seq<char>, SourceFileInfo)| ScanEventView::NewFile(f.0, f.1))
}

/// The identifiers of the files `fs` increase along the sequence and lie in `[lo, hi)`.
pub open spec fn ids_fresh(fs: Seq<(Seq<char>, SourceFileInfo)>, lo: nat, hi: nat) -> bool {
    &&& forall|k: int| 0 <= k < fs.len() ==> lo <= (#[trigger] fs[k]).1.id.0 < hi
    &&& forall|j: int, k: int| 0 <= j < k < fs.len() ==> fs[j].1.id.0 < fs[k].1.id.0
}

proof fn lemma_ids_fresh_concat(a: Seq<(Seq<char>, SourceFileInfo)>, b: Seq<(Seq<char>, SourceFileInfo)>, lo: nat, mid: nat, hi: nat)
    requires
        lo <= mid <= hi,
        ids_fresh(a, lo, mid),
        ids_fresh(b, mid, hi),
    ensures
        ids_fresh(a + b, lo, hi),
{
    let c = a + b;
    assert forall|j: int, k: int| 0 <= j < k < c.len() implies c[j].1.id.0 < c[k].1.id.0 by {
        if k < a.len() {
        } else if j < a.len() {
            assert(c[j] == a[j] && c[k] == b[k - a.len()]);
        } else {
            assert(c[j] == b[j - a.len()] && c[k] == b[k - a.len()]);
        }
    }
    assert forall|k: int| 0 <= k < c.len() implies lo <= (#[trigger] c[k]).1.id.0 < hi by {
        if k < a.len() {
            assert(c[k] == a[k]);
        } else {
            assert(c[k] == b[k - a.len()]);
        }
    }
}

/// What a node built from the snapshot `e` of `path` holds at its top, given the identifier
/// counter at `id`.
pub open spec fn built_from(n: SourceHierNode, e: FsEntry, path: Seq<char>, id: usize) -> bool {
    &&& !n.scanned
    &&& match e {
        FsEntry::File { modified } => match language_of_path(path) {
            Some(l) => if id < usize::MAX {
                n.content == (SourceHierContent::File {
                    info: SourceFileInfo { language: l, id: SourceFileID(id) },
                    last_modified_time: modified,
                })
            } else {
                unreadable_at(n.content, path)
            },
            None => n.content is UnsupportedFile,
        },
        FsEntry::Directory { .. } => n.content is Directory,
        FsEntry::Inaccessible { .. } => unreadable_at(n.content, path),
        FsEntry::Other => n.content is Unknown,
    }
}

/// The first position at or after `j` where `listing` has the name `name`.
pub open spec fn first_listed(listing: Seq<(String, FsEntry)>, name: Seq<char>, j: int) -> Option<int>
    decreases listing.len() - j,
{
    if 0 <= j < listing.len() {
        if listing[j].0@ == name {
            Some(j)
        } else {
            first_listed(listing, name, j + 1)
        }
    } else {
        None
    }
}

/// The events that syncing node `n` at `path` with the snapshot `e` emits: a file whose
/// modified time changed, or that is no longer a file, is deleted; a directory deletes the
/// files beneath each child that is no longer listed and syncs the others with their listing;
/// a directory that is no longer one deletes every file beneath it.
pub open spec fn sync_events(n: SourceHierNode, e: FsEntry, path: Seq<char>) -> Seq<ScanEventView>
    decreases e, 0nat,
{
    match n.content {
        SourceHierContent::File { info, last_modified_time } => match e {
            FsEntry::File { modified } => if modified == last_modified_time {
                seq![]
            } else {
                seq![ScanEventView::DeletedFile(path, info.id)]
            },
            _ => seq![ScanEventView::DeletedFile(path, info.id)],
        },
        SourceHierContent::Directory { entries } => match e {
            FsEntry::Directory { entries: listing } => dir_sync_events(entries@, listing@, path),
            _ => deletions_in(entries@, path),
        },
        _ => seq![],
    }
}

pub open spec fn dir_sync_events(
    es: Seq<(String, SourceHierNode)>,
    listing: Seq<(String, FsEntry)>,
    path: Seq<char>,
) -> Seq<ScanEventView>
    decreases listing, es.len(),
{
    if es.len() == 0 {
        seq![]
    } else {
        let child_path = joined(path, es[0].0@);
        let first = match first_listed(listing, es[0].0@, 0) {
            Some(j) => if 0 <= j < listing.len() {
                sync_events(es[0].1, listing[j].1, child_path)
            } else {
                seq![]
            },
            None => deletions_of(es[0].1, child_path),
        };
        first + dir_sync_events(es.subrange(1, es.len() as int), listing, path)
    }
}

fn find_listed(listing: &Vec<(String, FsEntry)>, name: &str) -> (r: Option<usize>)
    ensures
        r matches Some(j) ==> j < listing@.len() && listing@[j as int].0@ == name@,
        r matches Some(j) ==> first_listed(listing@, name@, 0) == Some(j as int),
        r is None ==> first_listed(listing@, name@, 0) is None,
        r is None ==> forall|j: int| 0 <= j < listing@.len() ==> listing@[j].0@ != name@,
{
    let mut j: usize = 0;
    while j < listing.len()
        invariant
            j <= listing@.len(),
            forall|q: int| 0 <= q < j ==> listing@[q].0@ != name@,
            first_listed(listing@, name@, 0) == first_listed(listing@, name@, j as int),
        decreases listing@.len() - j,
    {
        if str_equals(listing[j].0.as_str(), name) {
            return Some(j);
        }
        j = j + 1;
    }
    None
}

fn has_name(names: &Vec<String>, name: &str) -> (r: bool)
    ensures
        r == exists|j: int| 0 <= j < names@.len() && names@[j]@ == name@,
{
    let mut j: usize = 0;
    while j < names.len()
        invariant
            j <= names@.len(),
            forall|q: int| 0 <= q < j ==> names@[q]@ != name@,
        decreases names@.len() - j,
    {
        if str_equals(names[j].as_str(), name) {
            return true;
        }
        j = j + 1;
    }
    false
}

fn access_error(path: &str, message: &str) -> (r: SourceHierContent)
    ensures
        unreadable_at(r, path@),
{
    SourceHierContent::Error {
        source: LogError::CannotAccessPath {
            path: String::from_str(path),
            message: String::from_str(message),
        },
    }
}

impl SourceHierNode {
    /// A node for the snapshot `entry` of `path`, with fresh identifiers for its files.
    #[verifier::rlimit(80)]
    pub fn from_entry(path: &str, entry: &FsEntry, next_id: &mut usize) -> (r: SourceHierNode)
        ensures
            built_from(r, *entry, path@, *old(next_id)),
            *old(next_id) <= *final(next_id),
            *final(next_id) <= *old(next_id) + snapshot_files(*entry),
            unreported(r, path@) == new_file_events(files_of(r, path@)),
            ids_fresh(files_of(r, path@), *old(next_id) as nat, *final(next_id) as nat),
            *old(next_id) + snapshot_files(*entry) < usize::MAX ==> file_views(files_of(r, path@)) == source_files(
                *entry,
                path@,
            ),
            snapshot_wf(*entry) ==> names_ok(r),
            snapshot_wf(*entry) && *old(next_id) + snapshot_files(*entry) < usize::MAX ==> settled(
                r,
                *entry,
                path@,
            ) && in_step(r, *entry),
        decreases entry,
    {
        match entry {
            FsEntry::File { modified } => match SourceLanguage::from_path(path) {
                Some(language) => {
                    if *next_id == usize::MAX {
                        return SourceHierNode {
                            scanned: false,
                            content: access_error(path, "no file identifier is left"),
                        };
                    }
                    let info = SourceFileInfo::new(language, next_id);
                    let r = SourceHierNode {
                        scanned: false,
                        content: SourceHierContent::File { info, last_modified_time: *modified },
                    };
                    assert(new_file_events(files_of(r, path@)) =~= unreported(r, path@));
                    r
                },
                None => SourceHierNode { scanned: false, content: SourceHierContent::UnsupportedFile },
            },
            FsEntry::Directory { entries } => {
                let mut children: Vec<(String, SourceHierNode)> = Vec::new();
                proof {
                    let es = entries@;
                    assert forall|i: int| 0 <= i < es.len() implies decreases_to!(*entry => #[trigger] es[i].1) by {
                        assert(decreases_to!(*entry => *entries));
                        assert(decreases_to!(*entries => es));
                        assert(decreases_to!(es => es[i]));
                        assert(decreases_to!(es[i] => es[i].1));
                    }
                }
                let ghost start = *next_id;
                let ghost calm = snapshot_wf(*entry) && start + snapshot_files(*entry) < usize::MAX;
                let ghost l = entries@;
                assert(l.subrange(0, 0) =~= Seq::<(String, FsEntry)>::empty());
                assert(new_file_events(files_in(children@, path@)) =~= unreported_in(children@, path@));
                assert(file_views(files_in(children@, path@)) =~= listing_sources(l, path@, 0));
                let mut k: usize = 0;
                while k < entries.len()
                    invariant
                        k <= entries@.len(),
                        l == entries@,
                        forall|i: int| 0 <= i < entries@.len() ==> decreases_to!(*entry => #[trigger] entries@[i].1),
                        *old(next_id) <= *next_id,
                        start == *old(next_id),
                        *next_id <= start + listing_files(l.subrange(0, k as int)),
                        calm == (snapshot_wf(*entry) && start + snapshot_files(*entry) < usize::MAX),
                        snapshot_files(*entry) == listing_files(l),
                        snapshot_wf(*entry) ==> unique_names(l) && listing_wf(l),
                        calm ==> children_settled(children@, l, path@) && children_in_step(children@, l),
                        unreported_in(children@, path@) == new_file_events(files_in(children@, path@)),
                        start + snapshot_files(*entry) < usize::MAX ==> file_views(files_in(children@, path@))
                            == listing_sources(l, path@, k as int),
                        snapshot_wf(*entry) ==> children_names_ok(children@) && names_distinct(children@),
                        forall|c: int| 0 <= c < children@.len() ==> exists|j: int| 0 <= j < k && (#[trigger] children@[c]).0@ == l[j].0@,
                        ids_fresh(files_in(children@, path@), start as nat, *next_id as nat),
                        calm ==> forall|j: int|
                            0 <= j < k && !ignored_name(#[trigger] l[j].0@) ==> exists|i: int|
                                0 <= i < children@.len() && children@[i].0@ == l[j].0@,
                    decreases entries@.len() - k,
                {
                    let name = &entries[k].0;
                    proof {
                        lemma_listing_files_prefix(l, k as int);
                    }
                    if !is_ignored_dir(name.as_str()) {
                        let child_path = join_path(path, name.as_str());
                        proof {
                            if calm {
                                lemma_listing_wf_at(l, k as int);
                            }
                        }
                        let ghost mid = *next_id;
                        let child = Self::from_entry(child_path.as_str(), &entries[k].1, next_id);
                        let ghost before = children@;
                        let n2 = name.clone();
                        children.push((n2, child));
                        proof {
                            assert(children@ == before.push((n2, child)));
                            lemma_files_in_push(before, path@, (n2, child));
                            lemma_unreported_in_push(before, path@, (n2, child));
                            assert(new_file_events(files_in(children@, path@)) =~= new_file_events(
                                files_in(before, path@),
                            ) + new_file_events(files_of(child, child_path@)));
                            lemma_ids_fresh_concat(
                                files_in(before, path@),
                                files_of(child, child_path@),
                                start as nat,
                                mid as nat,
                                *next_id as nat,
                            );
                            assert(file_views(files_in(children@, path@)) =~= file_views(files_in(before, path@))
                                + file_views(files_of(child, child_path@)));
                            assert forall|c: int| 0 <= c < children@.len() implies exists|j: int| 0 <= j < k + 1 && (#[trigger] children@[c]).0@ == l[j].0@ by {
                                if c < before.len() {
                                    assert(children@[c] == before[c]);
                                } else {
                                    assert(children@[c].0@ == l[k as int].0@);
                                }
                            }
                            if snapshot_wf(*entry) {
                                lemma_listing_wf_at(l, k as int);
                                lemma_children_names_push(before, (n2, child));
                                assert forall|a: int, b: int| 0 <= a < b < children@.len() implies children@[a].0@ != children@[b].0@ by {
                                    if b == before.len() {
                                        let j = choose|j: int| 0 <= j < k && (#[trigger] before[a]).0@ == l[j].0@;
                                        assert(children@[a] == before[a]);
                                        assert(l[j].0@ != l[k as int].0@);
                                    } else {
                                        assert(children@[a] == before[a] && children@[b] == before[b]);
                                    }
                                }
                            }
                            if calm {
                                lemma_first_listed_unique(l, k as int, 0);
                                lemma_children_push(before, l, path@, (n2, child), k as int);
                                assert forall|j: int|
                                    0 <= j < k + 1 && !ignored_name(#[trigger] l[j].0@) implies exists|i: int|
                                        0 <= i < children@.len() && children@[i].0@ == l[j].0@ by {
                                    if j < k {
                                        let i = choose|i: int| 0 <= i < before.len() && before[i].0@ == l[j].0@;
                                        assert(children@[i] == before[i]);
                                    } else {
                                        assert(children@[before.len() as int].0@ == l[j].0@);
                                    }
                                }
                            }
                        }
                    }
                    k = k + 1;
                }
                assert(l.subrange(0, k as int) =~= l);
                SourceHierNode {
                    scanned: false,
                    content: SourceHierContent::Directory { entries: children },
                }
            },
            FsEntry::Inaccessible { message } => SourceHierNode {
                scanned: false,
                content: access_error(path, message.as_str()),
            },
            FsEntry::Other => SourceHierNode { scanned: false, content: SourceHierContent::Unknown },
        }
    }

    /// Appends a deletion event for each file beneath this node, which is at `path`.
    pub fn deleted(&self, path: &str, events: &mut Vec<ScanEvent>)
        ensures
            event_views(final(events)@) == event_views(old(events)@) + deletions_of(*self, path@),
        decreases self,
    {
        match &self.content {
            SourceHierContent::File { info, .. } => {
                let ghost before = events@;
                events.push(ScanEvent::DeletedFile(String::from_str(path), info.id));
                assert(event_views(events@) =~= event_views(before) + deletions_of(*self, path@));
            },
            SourceHierContent::Directory { entries } => {
                let ghost start = event_views(events@);
                assert(entries@.subrange(0, entries@.len() as int) =~= entries@);
                proof {
                    let es = entries@;
                    assert forall|i: int| 0 <= i < es.len() implies decreases_to!(*self => #[trigger] es[i].1) by {
                        assert(decreases_to!(*self => self.content));
                        assert(decreases_to!(self.content => *entries));
                        assert(decreases_to!(*entries => es));
                        assert(decreases_to!(es => es[i]));
                        assert(decreases_to!(es[i] => es[i].1));
                    }
                }
                let mut k: usize = 0;
                while k < entries.len()
                    invariant
                        k <= entries@.len(),
                        forall|i: int| 0 <= i < entries@.len() ==> decreases_to!(*self => #[trigger] entries@[i].1),
                        event_views(events@) + deletions_in(
                            entries@.subrange(k as int, entries@.len() as int),
                            path@,
                        ) == start + deletions_in(entries@, path@),
                    decreases entries@.len() - k,
                {
                    let ghost before = event_views(events@);
                    let ghost rest = entries@.subrange(k as int, entries@.len() as int);
                    assert(rest.subrange(1, rest.len() as int) =~= entries@.subrange(
                        k + 1,
                        entries@.len() as int,
                    ));
                    let child_path = join_path(path, entries[k].0.as_str());
                    entries[k].1.deleted(child_path.as_str(), events);
                    k = k + 1;
                    assert(event_views(events@) + deletions_in(
                        entries@.subrange(k as int, entries@.len() as int),
                        path@,
                    ) =~= before + deletions_in(rest, path@));
                }
                assert(entries@.subrange(k as int, entries@.len() as int) =~= seq![]);
                assert(event_views(events@) =~= start + deletions_in(entries@, path@));
            },
            _ => {
                assert(event_views(events@) =~= event_views(events@) + deletions_of(*self, path@));
            },
        }
    }
}

impl SourceHierNode {
    /// Brings this node, which is at `path`, in step with the snapshot `entry`, appending the
    /// deletions that this causes to `events`. A node whose content changed is marked as not
    /// reported.
    #[verifier::rlimit(80)]
    pub fn sync(
        &mut self,
        path: &str,
        entry: &FsEntry,
        next_id: &mut usize,
        events: &mut Vec<ScanEvent>,
    )
        ensures
            event_views(final(events)@) == event_views(old(events)@) + sync_events(
                *old(self),
                *entry,
                path@,
            ),
            *old(next_id) <= *final(next_id),
            old(self).content is File && sync_events(*old(self), *entry, path@).len() == 0
                ==> *final(self) == *old(self),
            old(self).content is File && sync_events(*old(self), *entry, path@).len() > 0
                ==> built_from(*final(self), *entry, path@, *old(next_id)),
            settled(*old(self), *entry, path@) ==> unreported(*final(self), path@) == unreported(
                *old(self),
                path@,
            ),
            names_ok(*old(self)) && snapshot_wf(*entry) ==> names_ok(*final(self)),
            sync_rebuilds(*old(self), *entry) ==> {
                &&& built_from(*final(self), *entry, path@, *old(next_id))
                &&& unreported(*final(self), path@) == new_file_events(files_of(*final(self), path@))
                &&& ids_fresh(files_of(*final(self), path@), *old(next_id) as nat, *final(next_id) as nat)
                &&& (*old(next_id) + snapshot_files(*entry) < usize::MAX ==> file_views(files_of(*final(self), path@))
                    == source_files(*entry, path@))
                &&& (snapshot_wf(*entry) && *old(next_id) + snapshot_files(*entry) < usize::MAX ==> settled(
                    *final(self),
                    *entry,
                    path@,
                ) && in_step(*final(self), *entry))
            },
        decreases entry,
    {
        let ghost start = event_views(events@);
        let ghost before = *self;
        let mut content = SourceHierContent::Unknown;
        std::mem::swap(&mut self.content, &mut content);
        match content {
            SourceHierContent::File { info, last_modified_time } => {
                let same = match entry {
                    FsEntry::File { modified } => *modified == last_modified_time,
                    _ => false,
                };
                if same {
                    self.content = SourceHierContent::File { info, last_modified_time };
                    assert(event_views(events@) =~= start + sync_events(before, *entry, path@));
                } else {
                    events.push(ScanEvent::DeletedFile(String::from_str(path), info.id));
                    assert(event_views(events@) =~= start + sync_events(before, *entry, path@));
                    *self = Self::from_entry(path, entry, next_id);
                }
            },
            SourceHierContent::Directory { entries: mut pending } => match entry {
                FsEntry::Directory { entries: listing } => {
                    proof {
                        let ls = listing@;
                        assert forall|i: int| 0 <= i < ls.len() implies decreases_to!(*entry => #[trigger] ls[i].1) by {
                            assert(decreases_to!(*entry => *listing));
                            assert(decreases_to!(*listing => ls));
                            assert(decreases_to!(ls => ls[i]));
                            assert(decreases_to!(ls[i] => ls[i].1));
                        }
                    }
                    let ghost orig = pending@;
                    let ghost calm = settled(before, *entry, path@);
                    let ghost tidy = names_ok(before) && snapshot_wf(*entry);
                    let mut kept: Vec<(String, SourceHierNode)> = Vec::new();
                    let mut names: Vec<String> = Vec::new();
                    let mut changed = false;
                    let ghost mut seen: int = 0;
                    assert(orig.subrange(0, orig.len() as int) =~= orig);
                    assert(calm ==> before.content->entries@ == orig);
                    assert(tidy ==> before.content->entries@ == orig);
                    while pending.len() > 0
                        invariant
                            forall|i: int| 0 <= i < listing@.len() ==> decreases_to!(*entry => #[trigger] listing@[i].1),
                            event_views(events@) + dir_sync_events(pending@, listing@, path@)
                                == start + dir_sync_events(orig, listing@, path@),
                            *old(next_id) <= *next_id,
                            0 <= seen,
                            seen + pending@.len() == orig.len(),
                            pending@ == orig.subrange(seen, orig.len() as int),
                            calm ==> kept@.len() == seen,
                            calm ==> children_settled(pending@, listing@, path@),
                            calm ==> unreported_in(kept@, path@) + unreported_in(pending@, path@)
                                == unreported_in(orig, path@),
                            calm ==> names@.len() == kept@.len(),
                            calm ==> forall|i: int| 0 <= i < kept@.len() ==> (#[trigger] names@[i])@ == orig[i].0@,
                            tidy ==> names_distinct(orig) && children_names_ok(pending@) && children_names_ok(kept@)
                                && names_distinct(kept@),
                            tidy ==> listing_wf(listing@),
                            tidy ==> names@.len() == kept@.len() && forall|c: int| 0 <= c < kept@.len() ==> (#[trigger] names@[c])@ == kept@[c].0@,
                            tidy ==> forall|c: int| 0 <= c < kept@.len() ==> exists|j: int| 0 <= j < seen && (#[trigger] kept@[c]).0@ == orig[j].0@,
                        decreases pending@.len(),
                    {
                        let ghost rest = pending@;
                        let ghost mid = event_views(events@);
                        let ghost kept_before = kept@;
                        let ghost names_before = names@;
                        let (name, mut child) = pending.remove(0);
                        assert(pending@ =~= rest.subrange(1, rest.len() as int));
                        assert(rest[0] == orig[seen]);
                        let child_path = join_path(path, name.as_str());
                        match find_listed(listing, name.as_str()) {
                            Some(j) => {
                                let ghost child_before = child;
                                proof {
                                    if tidy {
                                        assert(rest[0] == (name, child_before));
                                        lemma_listing_wf_at(listing@, j as int);
                                    }
                                }
                                child.sync(child_path.as_str(), &listing[j].1, next_id, events);
                                let ghost cv = child;
                                names.push(name.clone());
                                kept.push((name, child));
                                proof {
                                    if tidy {
                                        lemma_children_names_push(kept_before, kept@.last());
                                        assert(kept@ =~= kept_before.push(kept@.last()));
                                        assert forall|c: int| 0 <= c < kept@.len() implies (#[trigger] names@[c])@ == kept@[c].0@ by {
                                            if c < kept_before.len() {
                                                assert(names@[c] == names_before[c]);
                                            }
                                        }
                                        assert forall|c: int| 0 <= c < kept@.len() implies exists|jj: int| 0 <= jj < seen + 1 && (#[trigger] kept@[c]).0@ == orig[jj].0@ by {
                                            if c < kept_before.len() {
                                                assert(kept@[c] == kept_before[c]);
                                            } else {
                                                assert(kept@[c].0@ == orig[seen].0@);
                                            }
                                        }
                                        assert forall|a: int, b: int| 0 <= a < b < kept@.len() implies kept@[a].0@ != kept@[b].0@ by {
                                            if b == kept_before.len() {
                                                let jj = choose|jj: int| 0 <= jj < seen && (#[trigger] kept_before[a]).0@ == orig[jj].0@;
                                                assert(kept@[a] == kept_before[a]);
                                                assert(orig[jj].0@ != orig[seen].0@);
                                            } else {
                                                assert(kept@[a] == kept_before[a] && kept@[b] == kept_before[b]);
                                            }
                                        }
                                    }
                                }
                                proof {
                                    lemma_unreported_in_push(kept_before, path@, kept@.last());
                                    assert(kept@ =~= kept_before.push(kept@.last()));
                                    if calm {
                                        assert(unreported_in(kept@, path@) + unreported_in(pending@, path@)
                                            =~= unreported_in(kept_before, path@) + unreported_in(rest, path@));
                                        assert forall|i: int| 0 <= i < kept@.len() implies (#[trigger] names@[i])@ == orig[i].0@ by {
                                            if i < kept_before.len() {
                                                assert(names@[i] == names_before[i]);
                                            }
                                        }
                                    }
                                }
                            },
                            None => {
                                assert(!calm);
                                child.deleted(child_path.as_str(), events);
                                changed = true;
                                proof {
                                    if tidy {
                                        assert forall|c: int| 0 <= c < kept@.len() implies exists|jj: int| 0 <= jj < seen + 1 && (#[trigger] kept@[c]).0@ == orig[jj].0@ by {
                                            let jj = choose|jj: int| 0 <= jj < seen && (#[trigger] kept@[c]).0@ == orig[jj].0@;
                                        }
                                    }
                                }
                            },
                        }
                        proof {
                            seen = seen + 1;
                        }
                        assert(event_views(events@) + dir_sync_events(pending@, listing@, path@)
                            =~= mid + dir_sync_events(rest, listing@, path@));
                    }
                    assert(dir_sync_events(pending@, listing@, path@) =~= seq![]);
                    assert(calm ==> unreported_in(pending@, path@) =~= seq![]);
                    let ghost kept_done = kept@;
                    let mut j: usize = 0;
                    while j < listing.len()
                        invariant
                            j <= listing@.len(),
                            event_views(events@) == start + dir_sync_events(orig, listing@, path@),
                            *old(next_id) <= *next_id,
                            calm ==> kept@ == kept_done,
                            calm ==> names@.len() == orig.len(),
                            calm ==> forall|i: int| 0 <= i < orig.len() ==> (#[trigger] names@[i])@ == orig[i].0@,
                            calm ==> listing_covered(orig, listing@),
                            tidy ==> children_names_ok(kept@) && names_distinct(kept@) && listing_wf(listing@),
                            tidy ==> names@.len() == kept@.len() && forall|c: int| 0 <= c < kept@.len() ==> (#[trigger] names@[c])@ == kept@[c].0@,
                        decreases listing@.len() - j,
                    {
                        let name = &listing[j].0;
                        proof {
                            if calm && !ignored_name(name@) {
                                assert(listing@[j as int].0@ == name@);
                                let i = choose|i: int| 0 <= i < orig.len() && orig[i].0@ == listing@[j as int].0@;
                                assert(names@[i]@ == name@);
                            }
                        }
                        if !is_ignored_dir(name.as_str()) && !has_name(&names, name.as_str()) {
                            let child_path = join_path(path, name.as_str());
                            proof {
                                if tidy {
                                    lemma_listing_wf_at(listing@, j as int);
                                }
                            }
                            let node = Self::from_entry(child_path.as_str(), &listing[j].1, next_id);
                            let ghost kb = kept@;
                            let ghost nb = names@;
                            let n1 = name.clone();
                            kept.push((n1, node));
                            names.push(name.clone());
                            changed = true;
                            proof {
                                if tidy {
                                    lemma_children_names_push(kb, (n1, node));
                                    assert forall|c: int| 0 <= c < kept@.len() implies (#[trigger] names@[c])@ == kept@[c].0@ by {
                                        if c < kb.len() {
                                            assert(names@[c] == nb[c] && kept@[c] == kb[c]);
                                        }
                                    }
                                    assert forall|a: int, b: int| 0 <= a < b < kept@.len() implies kept@[a].0@ != kept@[b].0@ by {
                                        if b == kb.len() {
                                            assert(nb[a]@ == kb[a].0@);
                                            assert(kept@[a] == kb[a]);
                                        } else {
                                            assert(kept@[a] == kb[a] && kept@[b] == kb[b]);
                                        }
                                    }
                                }
                            }
                        }
                        j = j + 1;
                    }
                    assert(calm ==> unreported_in(kept@, path@) == unreported_in(orig, path@));
                    self.content = SourceHierContent::Directory { entries: kept };
                    if changed {
                        self.scanned = false;
                    }
                    assert(event_views(events@) == start + sync_events(before, *entry, path@));
                },
                _ => {
                    let gone = SourceHierNode { scanned: false, content: SourceHierContent::Directory { entries: pending } };
                    gone.deleted(path, events);
                    assert(deletions_of(gone, path@) == deletions_in(gone.content->entries@, path@));
                    *self = Self::from_entry(path, entry, next_id);
                },
            },
            _ => {
                assert(event_views(events@) =~= start + sync_events(before, *entry, path@));
                *self = Self::from_entry(path, entry, next_id);
            },
        }
    }
}

/// The files beneath `n`, which is at `path`, with their paths, depth first.
pub open spec fn files_of(n: SourceHierNode, path: Seq<char>) -> Seq<(Seq<char>, SourceFileInfo)>
    decreases n,
{
    match n.content {
        SourceHierContent::File { info, .. } => seq![(path, info)],
        SourceHierContent::Directory { entries } => files_in(entries@, path),
        _ => seq![],
    }
}

pub open spec fn files_in(es: Seq<(String, SourceHierNode)>, path: Seq<char>) -> Seq<(Seq<char>, SourceFileInfo)>
    decreases es,
{
    if es.len() == 0 {
        seq![]
    } else {
        files_of(es[0].1, joined(path, es[0].0@)) + files_in(es.subrange(1, es.len() as int), path)
    }
}

proof fn lemma_files_in_child(es: Seq<(String, SourceHierNode)>, path: Seq<char>, i: int, f: (Seq<char>, SourceFileInfo))
    requires
        0 <= i < es.len(),
        files_of(es[i].1, joined(path, es[i].0@)).contains(f),
    ensures
        files_in(es, path).contains(f),
    decreases es.len(),
{
    let tail = es.subrange(1, es.len() as int);
    let head = files_of(es[0].1, joined(path, es[0].0@));
    if i == 0 {
        let k = choose|k: int| 0 <= k < head.len() && head[k] == f;
        assert((head + files_in(tail, path))[k] == f);
    } else {
        assert(tail[i - 1] == es[i]);
        lemma_files_in_child(tail, path, i - 1, f);
        let rest = files_in(tail, path);
        let k = choose|k: int| 0 <= k < rest.len() && rest[k] == f;
        assert((head + rest)[head.len() + k] == f);
    }
}

/// Every node beneath `n` was reported: no file of it is new to a scan.
pub proof fn lemma_scanned_has_nothing_new(n: SourceHierNode, path: Seq<char>)
    requires
        all_scanned(n),
    ensures
        unreported(n, path) == Seq::<ScanEventView>::empty(),
    decreases n,
{
    match n.content {
        SourceHierContent::Directory { entries } => {
            lemma_scanned_in_nothing_new(entries@, path);
        },
        _ => {},
    }
}

proof fn lemma_scanned_in_nothing_new(es: Seq<(String, SourceHierNode)>, path: Seq<char>)
    requires
        all_scanned_in(es),
    ensures
        unreported_in(es, path) == Seq::<ScanEventView>::empty(),
    decreases es,
{
    if es.len() > 0 {
        lemma_scanned_has_nothing_new(es[0].1, joined(path, es[0].0@));
        lemma_scanned_in_nothing_new(es.subrange(1, es.len() as int), path);
        assert(unreported_in(es, path) =~= Seq::<ScanEventView>::empty());
    }
}

impl SourceHierNode {
    /// Appends a new-file event for each file beneath this node that was not reported yet, and
    /// marks every node as reported.
    pub fn mark_scanned(&mut self, path: &str, events: &mut Vec<ScanEvent>)
        ensures
            event_views(final(events)@) == event_views(old(events)@) + unreported(*old(self), path@),
            all_scanned(*final(self)),
            files_of(*final(self), path@) == files_of(*old(self), path@),
            same_shape(*old(self), *final(self)),
        decreases *old(self),
    {
        let ghost start = event_views(events@);
        let ghost before = *self;
        let mut content = SourceHierContent::Unknown;
        std::mem::swap(&mut self.content, &mut content);
        match content {
            SourceHierContent::File { info, last_modified_time } => {
                if !self.scanned {
                    events.push(ScanEvent::NewFile(String::from_str(path), info));
                }
                self.content = SourceHierContent::File { info, last_modified_time };
                assert(event_views(events@) =~= start + unreported(before, path@));
            },
            SourceHierContent::Directory { entries: mut pending } => {
                let ghost orig = pending@;
                proof {
                    assert forall|i: int| 0 <= i < orig.len() implies decreases_to!(before => #[trigger] orig[i].1) by {
                        assert(decreases_to!(before => before.content));
                        assert(decreases_to!(before.content => before.content->entries));
                        assert(decreases_to!(before.content->entries => orig));
                        assert(decreases_to!(orig => orig[i]));
                        assert(decreases_to!(orig[i] => orig[i].1));
                    }
                }
                let mut done: Vec<(String, SourceHierNode)> = Vec::new();
                assert(orig.subrange(0, orig.len() as int) =~= orig);
                while pending.len() > 0
                    invariant
                        before == *old(self),
                        forall|i: int| 0 <= i < pending@.len() ==> decreases_to!(before => #[trigger] pending@[i].1),
                        event_views(events@) + unreported_in(pending@, path@) == start
                            + unreported_in(orig, path@),
                        files_in(done@, path@) + files_in(pending@, path@) == files_in(orig, path@),
                        all_scanned_in(done@),
                        done@.len() + pending@.len() == orig.len(),
                        pending@ == orig.subrange(done@.len() as int, orig.len() as int),
                        same_shape_in(orig.subrange(0, done@.len() as int), done@),
                    decreases pending@.len(),
                {
                    let ghost rest = pending@;
                    let ghost mid = event_views(events@);
                    let ghost done_before = done@;
                    let (name, mut child) = pending.remove(0);
                    assert(pending@ =~= rest.subrange(1, rest.len() as int));
                    let child_path = join_path(path, name.as_str());
                    child.mark_scanned(child_path.as_str(), events);
                    done.push((name, child));
                    assert(event_views(events@) + unreported_in(pending@, path@) =~= mid + unreported_in(rest, path@));
                    proof {
                        lemma_files_in_push(done_before, path@, done@.last());
                        lemma_scanned_in_push(done_before, done@.last());
                        let k = done_before.len() as int;
                        assert(orig.subrange(0, k + 1) =~= orig.subrange(0, k).push(orig[k]));
                        assert(orig[k] == rest[0]);
                        lemma_same_shape_in_push(orig.subrange(0, k), done_before, orig[k], done@.last());
                        assert(done@ =~= done_before.push(done@.last()));
                        assert(files_in(done@, path@) + files_in(pending@, path@) =~= files_in(done_before, path@) + files_in(rest, path@));
                    }
                }
                assert(unreported_in(pending@, path@) =~= seq![]);
                assert(files_in(pending@, path@) =~= seq![]);
                assert(orig.subrange(0, done@.len() as int) =~= orig);
                self.content = SourceHierContent::Directory { entries: done };
                assert(event_views(events@) =~= start + unreported(before, path@));
                assert(files_in(done@, path@) =~= files_in(orig, path@));
            },
            other => {
                self.content = other;
                assert(event_views(events@) =~= start + unreported(before, path@));
            },
        }
        self.scanned = true;
    }
}

proof fn lemma_files_in_push(es: Seq<(String, SourceHierNode)>, path: Seq<char>, x: (String, SourceHierNode))
    ensures
        files_in(es.push(x), path) == files_in(es, path) + files_of(x.1, joined(path, x.0@)),
    decreases es.len(),
{
    let e2 = es.push(x);
    if es.len() == 0 {
        assert(e2.subrange(1, e2.len() as int) =~= Seq::<(String, SourceHierNode)>::empty());
        assert(e2[0] == x);
        assert(files_in(Seq::<(String, SourceHierNode)>::empty(), path) =~= seq![]);
        assert(files_in(e2, path) =~= files_of(x.1, joined(path, x.0@)));
    } else {
        let tail = es.subrange(1, es.len() as int);
        assert(e2.subrange(1, e2.len() as int) =~= tail.push(x));
        lemma_files_in_push(tail, path, x);
        assert(files_in(e2, path) =~= files_in(es, path) + files_of(x.1, joined(path, x.0@)));
    }
}

proof fn lemma_scanned_in_push(es: Seq<(String, SourceHierNode)>, x: (String, SourceHierNode))
    requires
        all_scanned_in(es),
        all_scanned(x.1),
    ensures
        all_scanned_in(es.push(x)),
    decreases es.len(),
{
    let e2 = es.push(x);
    if es.len() == 0 {
        assert(e2.subrange(1, e2.len() as int) =~= Seq::<(String, SourceHierNode)>::empty());
        assert(e2[0] == x);
        assert(all_scanned_in(e2.subrange(1, e2.len() as int)));
    } else {
        let tail = es.subrange(1, es.len() as int);
        assert(e2.subrange(1, e2.len() as int) =~= tail.push(x));
        assert(e2[0] == es[0]);
        lemma_scanned_in_push(tail, x);
        assert(all_scanned_in(e2.subrange(1, e2.len() as int)));
        assert(all_scanned(e2[0].1));
    }
}

/// The parts of `p` between its separators, without empty and `.` parts, reading on from
/// position `i` with the current part begun at `start`.
pub open spec fn parts_from(p: Seq<char>, start: int, i: int) -> Seq<Seq<char>>
    decreases p.len() - i,
{
    if 0 <= start <= i <= p.len() {
        if i == p.len() || p[i] == '/' {
            let part = p.subrange(start, i);
            let here = if part.len() > 0 && part != seq!['.'] {
                seq![part]
            } else {
                Seq::<Seq<char>>::empty()
            };
            if i == p.len() {
                here
            } else {
                here + parts_from(p, i + 1, i + 1)
            }
        } else {
            parts_from(p, start, i + 1)
        }
    } else {
        seq![]
    }
}

/// The components of a path (`Path::components`, as far as they are names).
pub open spec fn components(p: Seq<char>) -> Seq<Seq<char>> {
    parts_from(p, 0, 0)
}

fn push_part(parts: &mut Vec<String>, cur: &Vec<char>)
    ensures
        crate::pattern::string_views(final(parts)@) == crate::pattern::string_views(old(parts)@) + if cur@.len() > 0
            && cur@ != seq!['.'] {
            seq![cur@]
        } else {
            Seq::<Seq<char>>::empty()
        },
{
    let ghost before = parts@;
    let single_dot = cur.len() == 1 && cur[0] == '.';
    assert(single_dot <==> cur@ == seq!['.']) by {
        if cur@ == seq!['.'] {
            assert(cur@.len() == 1);
        }
        if single_dot {
            assert(cur@ =~= seq!['.']);
        }
    }
    if cur.len() > 0 && !single_dot {
        let part = crate::text::string_of(cur.as_slice());
        parts.push(part);
        assert(crate::pattern::string_views(parts@) =~= crate::pattern::string_views(before).push(cur@));
    } else {
        assert(crate::pattern::string_views(parts@) =~= crate::pattern::string_views(before) + Seq::<Seq<char>>::empty());
    }
}

/// The components of `path`, as [`components`] states.
fn path_components(path: &str) -> (r: Vec<String>)
    ensures
        crate::pattern::string_views(r@) == components(path@),
{
    let cs = crate::text::chars_of(path);
    let mut parts: Vec<String> = Vec::new();
    let mut cur: Vec<char> = Vec::new();
    let ghost mut start: int = 0;
    let mut k: usize = 0;
    assert(crate::pattern::string_views(parts@) =~= Seq::<Seq<char>>::empty());
    assert(cs@.subrange(0, 0) =~= cur@);
    while k < cs.len()
        invariant
            cs@ == path@,
            0 <= start <= k <= cs@.len(),
            cur@ == cs@.subrange(start, k as int),
            crate::pattern::string_views(parts@) + parts_from(cs@, start, k as int) == components(cs@),
        decreases cs@.len() - k,
    {
        let ghost pv = crate::pattern::string_views(parts@);
        if cs[k] == '/' {
            push_part(&mut parts, &cur);
            cur = Vec::new();
            proof {
                start = k + 1;
            }
            assert(cs@.subrange(start, k + 1) =~= cur@);
        } else {
            cur.push(cs[k]);
            assert(cur@ =~= cs@.subrange(start, k + 1));
        }
        k = k + 1;
    }
    push_part(&mut parts, &cur);
    parts
}

proof fn lemma_first_child_bounds(es: Seq<(String, SourceHierNode)>, name: Seq<char>, i: int)
    ensures
        first_child(es, name, i) matches Some(x) ==> 0 <= x < es.len() && es[x].0@ == name,
    decreases es.len() - i,
{
    if 0 <= i < es.len() && es[i].0@ != name {
        lemma_first_child_bounds(es, name, i + 1);
    }
}

/// The position of the first child at or after `i` named `name`.
pub open spec fn first_child(es: Seq<(String, SourceHierNode)>, name: Seq<char>, i: int) -> Option<int>
    decreases es.len() - i,
{
    if 0 <= i < es.len() {
        if es[i].0@ == name {
            Some(i)
        } else {
            first_child(es, name, i + 1)
        }
    } else {
        None
    }
}

/// The files that the components `desired[k..]` lead to from node `n` at `self_path`: each
/// component names the child to go into; where no child has that name, every child is searched
/// for the same components.
pub open spec fn find_spec(n: SourceHierNode, self_path: Seq<char>, desired: Seq<Seq<char>>, k: int) -> Seq<(Seq<char>, SourceFileInfo)>
    decreases n,
{
    match n.content {
        SourceHierContent::File { info, .. } => if k == desired.len() {
            seq![(self_path, info)]
        } else {
            seq![]
        },
        SourceHierContent::Directory { entries } => if 0 <= k < desired.len() {
            match first_child(entries@, desired[k], 0) {
                Some(i) => if 0 <= i < entries@.len() {
                    find_spec(entries@[i].1, joined(self_path, entries@[i].0@), desired, k + 1)
                } else {
                    seq![]
                },
                None => find_all(entries@, self_path, desired, k),
            }
        } else {
            seq![]
        },
        _ => seq![],
    }
}

pub open spec fn find_all(es: Seq<(String, SourceHierNode)>, self_path: Seq<char>, desired: Seq<Seq<char>>, k: int) -> Seq<(Seq<char>, SourceFileInfo)>
    decreases es,
{
    if es.len() == 0 {
        seq![]
    } else {
        find_all(es.subrange(0, es.len() - 1), self_path, desired, k) + find_spec(
            es[es.len() - 1].1,
            joined(self_path, es[es.len() - 1].0@),
            desired,
            k,
        )
    }
}

pub open spec fn hit_views(v: Seq<(String, SourceFileInfo)>) -> Seq<(Seq<char>, SourceFileInfo)> {
    v.map_values(|h: (String, SourceFileInfo)| (h.0@, h.1))
}

fn find_child(entries: &Vec<(String, SourceHierNode)>, name: &str) -> (r: Option<usize>)
    ensures
        r matches Some(x) ==> x < entries@.len(),
        match first_child(entries@, name@, 0) {
            Some(i) => r == Some(i as usize),
            None => r is None,
        },
{
    let mut j: usize = 0;
    while j < entries.len()
        invariant
            j <= entries@.len(),
            first_child(entries@, name@, 0) == first_child(entries@, name@, j as int),
        decreases entries@.len() - j,
    {
        if str_equals(entries[j].0.as_str(), name) {
            return Some(j);
        }
        j = j + 1;
    }
    None
}

proof fn lemma_push_hit(acc: Seq<(String, SourceFileInfo)>, h: (String, SourceFileInfo))
    ensures
        hit_views(acc.push(h)) == hit_views(acc).push((h.0@, h.1)),
{
    assert(hit_views(acc.push(h)) =~= hit_views(acc).push((h.0@, h.1)));
}

impl SourceHierNode {
    /// Appends the files that the components `desired[k..]` lead to from this node, which is at
    /// `self_path`, as [`find_spec`] states.
    pub fn find_in(
        &self,
        self_path: &str,
        desired: &Vec<String>,
        k: usize,
        acc: &mut Vec<(String, SourceFileInfo)>,
    )
        requires
            k <= desired@.len(),
        ensures
            hit_views(final(acc)@) == hit_views(old(acc)@) + find_spec(
                *self,
                self_path@,
                crate::pattern::string_views(desired@),
                k as int,
            ),
        decreases self,
    {
        let ghost start = hit_views(acc@);
        let ghost d = crate::pattern::string_views(desired@);
        match &self.content {
            SourceHierContent::File { info, .. } => {
                if k == desired.len() {
                    let ghost a0 = acc@;
                    acc.push((String::from_str(self_path), *info));
                    proof {
                        lemma_push_hit(a0, acc@.last());
                        assert(acc@ == a0.push(acc@.last()));
                    }
                    assert(hit_views(acc@) =~= start + find_spec(*self, self_path@, d, k as int));
                } else {
                    assert(hit_views(acc@) =~= start + find_spec(*self, self_path@, d, k as int));
                }
            },
            SourceHierContent::Directory { entries } => {
                if k < desired.len() {
                    proof {
                        let es = entries@;
                        assert forall|i: int| 0 <= i < es.len() implies decreases_to!(*self => #[trigger] es[i].1) by {
                            assert(decreases_to!(*self => self.content));
                            assert(decreases_to!(self.content => *entries));
                            assert(decreases_to!(*entries => es));
                            assert(decreases_to!(es => es[i]));
                            assert(decreases_to!(es[i] => es[i].1));
                        }
                    }
                    assert(d[k as int] == desired@[k as int]@);
                    proof {
                        lemma_first_child_bounds(entries@, d[k as int], 0);
                    }
                    match find_child(entries, desired[k].as_str()) {
                        Some(x) => {
                            let child_path = join_path(self_path, entries[x].0.as_str());
                            entries[x].1.find_in(child_path.as_str(), desired, k + 1, acc);
                            assert(find_spec(*self, self_path@, d, k as int) == find_spec(
                                entries@[x as int].1,
                                joined(self_path@, entries@[x as int].0@),
                                d,
                                k + 1,
                            ));
                        },
                        None => {
                            let n = entries.len();
                            let mut i: usize = 0;
                            assert(entries@.subrange(0, 0) =~= Seq::<(String, SourceHierNode)>::empty());
                            while i < n
                                invariant
                                    n == entries@.len(),
                                    i <= n,
                                    k < desired@.len(),
                                    d == crate::pattern::string_views(desired@),
                                    forall|q: int| 0 <= q < entries@.len() ==> decreases_to!(*self => #[trigger] entries@[q].1),
                                    hit_views(acc@) == start + find_all(entries@.subrange(0, i as int), self_path@, d, k as int),
                                decreases n - i,
                            {
                                let child_path = join_path(self_path, entries[i].0.as_str());
                                entries[i].1.find_in(child_path.as_str(), desired, k, acc);
                                proof {
                                    let sub = entries@.subrange(0, i + 1);
                                    assert(sub.subrange(0, sub.len() - 1) =~= entries@.subrange(0, i as int));
                                    assert(sub[sub.len() - 1] == entries@[i as int]);
                                }
                                i = i + 1;
                            }
                            assert(entries@.subrange(0, i as int) =~= entries@);
                            assert(find_spec(*self, self_path@, d, k as int) == find_all(entries@, self_path@, d, k as int));
                        },
                    }
                } else {
                    assert(hit_views(acc@) =~= start + find_spec(*self, self_path@, d, k as int));
                }
            },
            _ => {
                assert(hit_views(acc@) =~= start + find_spec(*self, self_path@, d, k as int));
            },
        }
    }
}

/// The components that `path` asks for below the root: an absolute path must lie under the root,
/// a relative one is taken from the root.
pub open spec fn find_query(root: Seq<char>, p: Seq<char>) -> Option<Seq<Seq<char>>> {
    let pc = components(p);
    if p.len() > 0 && p[0] == '/' {
        let rc = components(root);
        if rc.len() <= pc.len() && pc.subrange(0, rc.len() as int) == rc {
            Some(pc.subrange(rc.len() as int, pc.len() as int))
        } else {
            None
        }
    } else {
        Some(pc)
    }
}

/// The files of tree `t` that `p` leads to, with their actual paths.
pub open spec fn tree_find(t: SourceHierTree, p: Seq<char>) -> Seq<(Seq<char>, SourceFileInfo)> {
    match find_query(t.root_path@, p) {
        Some(d) => find_spec(t.root_node, t.root_path@, d, 0),
        None => seq![],
    }
}

/// What [`find_spec`] finds is a file beneath the node.
pub proof fn lemma_found_are_files(n: SourceHierNode, self_path: Seq<char>, desired: Seq<Seq<char>>, k: int, h: (Seq<char>, SourceFileInfo))
    requires
        find_spec(n, self_path, desired, k).contains(h),
    ensures
        files_of(n, self_path).contains(h),
    decreases n,
{
    match n.content {
        SourceHierContent::File { info, .. } => {
            assert(find_spec(n, self_path, desired, k) =~= seq![(self_path, info)]);
            assert(files_of(n, self_path)[0] == h);
        },
        SourceHierContent::Directory { entries } => {
            let es = entries@;
            match first_child(es, desired[k], 0) {
                Some(i) => {
                    assert(decreases_to!(n => n.content));
                    assert(decreases_to!(n.content => entries));
                    assert(decreases_to!(entries => es));
                    assert(decreases_to!(es => es[i]));
                    assert(decreases_to!(es[i] => es[i].1));
                    lemma_found_are_files(es[i].1, joined(self_path, es[i].0@), desired, k + 1, h);
                    lemma_files_in_child(es, self_path, i, h);
                },
                None => {
                    assert(es =~= n.content->entries@.subrange(0, es.len() as int));
                    lemma_found_in_all(n, es, self_path, desired, k, h);
                },
            }
        },
        _ => {},
    }
}

proof fn lemma_found_in_all(n: SourceHierNode, es: Seq<(String, SourceHierNode)>, self_path: Seq<char>, desired: Seq<Seq<char>>, k: int, h: (Seq<char>, SourceFileInfo))
    requires
        n.content is Directory,
        es.len() <= n.content->entries@.len(),
        es == n.content->entries@.subrange(0, es.len() as int),
        find_all(es, self_path, desired, k).contains(h),
    ensures
        files_of(n, self_path).contains(h),
    decreases n, es.len(),
{
    let all = n.content->entries@;
    let last = es.len() - 1;
    let init = es.subrange(0, last);
    let front = find_all(init, self_path, desired, k);
    let back = find_spec(es[last].1, joined(self_path, es[last].0@), desired, k);
    let j = choose|j: int| 0 <= j < (front + back).len() && (front + back)[j] == h;
    if j < front.len() {
        assert(front[j] == h);
        assert(init =~= all.subrange(0, last));
        lemma_found_in_all(n, init, self_path, desired, k, h);
    } else {
        assert(back[j - front.len()] == h);
        assert(es[last] == all[last]);
        assert(decreases_to!(n => n.content));
        assert(decreases_to!(n.content => n.content->entries));
        assert(decreases_to!(n.content->entries => all));
        assert(decreases_to!(all => all[last]));
        assert(decreases_to!(all[last] => all[last].1));
        lemma_found_are_files(all[last].1, joined(self_path, all[last].0@), desired, k, h);
        lemma_files_in_child(all, self_path, last, h);
    }
}

/// How many nodes of each kind a tree holds.
#[derive(Clone, Copy, Debug, PartialEq, Eq, Structural)]
pub struct SourceHierStats {
    pub files: usize,
    pub unsupported_files: usize,
    pub directories: usize,
    pub errors: usize,
}

fn saturating_inc(x: usize) -> (r: usize)
    ensures
        r == if x == usize::MAX { x } else { (x + 1) as usize },
{
    if x == usize::MAX {
        x
    } else {
        x + 1
    }
}

/// How many nodes of kind `q` lie beneath `n`, `n` included: files (0), unsupported files (1),
/// directories (2), and paths that could not be read (3).
pub open spec fn kind_count(n: SourceHierNode, q: int) -> nat
    decreases n,
{
    match n.content {
        SourceHierContent::File { .. } => if q == 0 { 1 } else { 0 },
        SourceHierContent::UnsupportedFile => if q == 1 { 1 } else { 0 },
        SourceHierContent::Directory { entries } => (if q == 2 { 1nat } else { 0nat }) + kind_count_in(entries@, q),
        SourceHierContent::Error { .. } => if q == 3 { 1 } else { 0 },
        SourceHierContent::Unknown => 0,
    }
}

pub open spec fn kind_count_in(es: Seq<(String, SourceHierNode)>, q: int) -> nat
    decreases es,
{
    if es.len() == 0 {
        0
    } else {
        kind_count(es[0].1, q) + kind_count_in(es.subrange(1, es.len() as int), q)
    }
}

proof fn lemma_kind_count_in_push(es: Seq<(String, SourceHierNode)>, x: (String, SourceHierNode), q: int)
    ensures
        kind_count_in(es.push(x), q) == kind_count_in(es, q) + kind_count(x.1, q),
    decreases es.len(),
{
    let e2 = es.push(x);
    if es.len() == 0 {
        assert(e2.subrange(1, e2.len() as int) =~= Seq::<(String, SourceHierNode)>::empty());
        assert(e2[0] == x);
        assert(kind_count_in(e2.subrange(1, e2.len() as int), q) == 0);
        assert(kind_count_in(es, q) == 0);
    } else {
        let tail = es.subrange(1, es.len() as int);
        assert(e2.subrange(1, e2.len() as int) =~= tail.push(x));
        assert(e2[0] == es[0]);
        lemma_kind_count_in_push(tail, x, q);
        assert(kind_count_in(e2, q) == kind_count(e2[0].1, q) + kind_count_in(e2.subrange(1, e2.len() as int), q));
    }
}

/// `x`, or the largest `usize` where `x` does not fit.
pub open spec fn saturated(x: nat) -> nat {
    if x > usize::MAX { usize::MAX as nat } else { x }
}

/// Field `q` of the statistics, in the order of [`kind_count`].
pub open spec fn stat_field(s: SourceHierStats, q: int) -> nat {
    if q == 0 {
        s.files as nat
    } else if q == 1 {
        s.unsupported_files as nat
    } else if q == 2 {
        s.directories as nat
    } else {
        s.errors as nat
    }
}

fn add_counts(n: &SourceHierNode, stats: &mut SourceHierStats, errors: &mut Vec<LogError>)
    ensures
        forall|q: int| 0 <= q < 4 ==> #[trigger] stat_field(*final(stats), q) == saturated(
            stat_field(*old(stats), q) + kind_count(*n, q),
        ),
    decreases n,
{
    let ghost start = *stats;
    match &n.content {
        SourceHierContent::File { .. } => {
            stats.files = saturating_inc(stats.files);
        },
        SourceHierContent::UnsupportedFile => {
            stats.unsupported_files = saturating_inc(stats.unsupported_files);
        },
        SourceHierContent::Directory { entries } => {
            stats.directories = saturating_inc(stats.directories);
            let ghost first = *stats;
            proof {
                let es = entries@;
                assert forall|i: int| 0 <= i < es.len() implies decreases_to!(*n => #[trigger] es[i].1) by {
                    assert(decreases_to!(*n => n.content));
                    assert(decreases_to!(n.content => *entries));
                    assert(decreases_to!(*entries => es));
                    assert(decreases_to!(es => es[i]));
                    assert(decreases_to!(es[i] => es[i].1));
                }
                assert(entries@.subrange(0, 0) =~= Seq::<(String, SourceHierNode)>::empty());
            }
            let mut i: usize = 0;
            while i < entries.len()
                invariant
                    i <= entries@.len(),
                    forall|q: int| 0 <= q < entries@.len() ==> decreases_to!(*n => #[trigger] entries@[q].1),
                    forall|q: int| 0 <= q < 4 ==> #[trigger] stat_field(*stats, q) == saturated(
                        stat_field(first, q) + kind_count_in(entries@.subrange(0, i as int), q),
                    ),
                decreases entries@.len() - i,
            {
                let ghost mid = *stats;
                add_counts(&entries[i].1, stats, errors);
                proof {
                    assert(entries@.subrange(0, i + 1) =~= entries@.subrange(0, i as int).push(entries@[i as int]));
                    assert forall|q: int| 0 <= q < 4 implies #[trigger] stat_field(*stats, q) == saturated(
                        stat_field(first, q) + kind_count_in(entries@.subrange(0, i + 1), q),
                    ) by {
                        lemma_kind_count_in_push(entries@.subrange(0, i as int), entries@[i as int], q);
                    }
                }
                i = i + 1;
            }
            proof {
                assert(entries@.subrange(0, i as int) =~= entries@);
                assert forall|q: int| 0 <= q < 4 implies #[trigger] stat_field(*stats, q) == saturated(
                    stat_field(start, q) + kind_count(*n, q),
                ) by {
                    assert(kind_count(*n, q) == (if q == 2 { 1nat } else { 0nat }) + kind_count_in(entries@, q));
                }
            }
        },
        SourceHierContent::Error { source } => {
            stats.errors = saturating_inc(stats.errors);
            errors.push(source.clone());
        },
        SourceHierContent::Unknown => {},
    }
}

/// A source tree under a root path, kept in step with the file system by [`Self::sync`].
pub struct SourceHierTree {
    pub root_path: String,
    pub root_node: SourceHierNode,
    /// The identifier that the next new file takes.
    pub next_id: usize,
    /// The deletions that the next scan reports first.
    pub deleted_events: Vec<ScanEvent>,
    pub stats: SourceHierStats,
}

impl SourceHierTree {
    /// The deletions that the next scan reports first.
    pub open spec fn pending(&self) -> Seq<ScanEventView> {
        event_views(self.deleted_events@)
    }

    /// A tree for `path` that knows nothing yet.
    pub fn from(path: &str) -> (r: SourceHierTree)
        ensures
            r.root_path@ == path@,
            r.root_node.content is Unknown,
            !r.root_node.scanned,
            r.next_id == 0,
            names_ok(r.root_node),
            r.pending() == Seq::<ScanEventView>::empty(),
    {
        let r = SourceHierTree {
            root_path: String::from_str(path),
            root_node: SourceHierNode { scanned: false, content: SourceHierContent::Unknown },
            next_id: 0,
            deleted_events: Vec::new(),
            stats: SourceHierStats { files: 0, unsupported_files: 0, directories: 0, errors: 0 },
        };
        assert(r.pending() =~= Seq::<ScanEventView>::empty());
        r
    }

    /// Brings the tree in step with `snapshot`, what the file system now holds at the root
    /// path. The deletions this causes wait for the next scan.
    pub fn sync(&mut self, snapshot: &FsEntry)
        ensures
            final(self).pending() == old(self).pending() + sync_events(
                old(self).root_node,
                *snapshot,
                old(self).root_path@,
            ),
            final(self).root_path == old(self).root_path,
            settled(old(self).root_node, *snapshot, old(self).root_path@) ==> unreported(
                final(self).root_node,
                final(self).root_path@,
            ) == unreported(old(self).root_node, old(self).root_path@),
            forall|q: int| 0 <= q < 4 ==> #[trigger] stat_field(final(self).stats, q) == saturated(
                kind_count(final(self).root_node, q),
            ),
            old(self).next_id <= final(self).next_id,
            names_ok(old(self).root_node) && snapshot_wf(*snapshot) ==> names_ok(final(self).root_node),
            sync_rebuilds(old(self).root_node, *snapshot) ==> unreported(final(self).root_node, final(self).root_path@)
                == new_file_events(files_of(final(self).root_node, final(self).root_path@)) && ids_fresh(
                files_of(final(self).root_node, final(self).root_path@),
                old(self).next_id as nat,
                final(self).next_id as nat,
            ),
            sync_rebuilds(old(self).root_node, *snapshot) && old(self).next_id + snapshot_files(*snapshot) < usize::MAX
                ==> file_views(files_of(final(self).root_node, final(self).root_path@)) == source_files(
                *snapshot,
                final(self).root_path@,
            ),
            old(self).root_node.content is Unknown && snapshot_wf(*snapshot) && old(self).next_id
                + snapshot_files(*snapshot) < usize::MAX ==> settled(
                final(self).root_node,
                *snapshot,
                final(self).root_path@,
            ) && in_step(final(self).root_node, *snapshot),
    {
        let path = self.root_path.clone();
        self.root_node.sync(path.as_str(), snapshot, &mut self.next_id, &mut self.deleted_events);
        let mut stats = SourceHierStats { files: 0, unsupported_files: 0, directories: 0, errors: 0 };
        let mut errors: Vec<LogError> = Vec::new();
        add_counts(&self.root_node, &mut stats, &mut errors);
        self.stats = stats;
    }

    /// The changes since the last scan: the deletions that syncing caused, then a new-file event
    /// for each file not reported yet. Afterwards every node counts as reported.
    pub fn scan(&mut self) -> (r: Vec<ScanEvent>)
        ensures
            event_views(r@) == old(self).pending() + unreported(
                old(self).root_node,
                old(self).root_path@,
            ),
            final(self).pending() == Seq::<ScanEventView>::empty(),
            all_scanned(final(self).root_node),
            files_of(final(self).root_node, final(self).root_path@) == files_of(
                old(self).root_node,
                old(self).root_path@,
            ),
            same_shape(old(self).root_node, final(self).root_node),
            names_ok(old(self).root_node) ==> names_ok(final(self).root_node),
            final(self).root_path == old(self).root_path,
    {
        let mut events: Vec<ScanEvent> = Vec::new();
        std::mem::swap(&mut events, &mut self.deleted_events);
        let path = self.root_path.clone();
        let ghost before = self.root_node;
        self.root_node.mark_scanned(path.as_str(), &mut events);
        proof {
            if names_ok(before) {
                lemma_same_shape_names_ok(before, self.root_node);
            }
        }
        assert(self.pending() =~= Seq::<ScanEventView>::empty());
        events
    }

    /// The files that `path` leads to, with their actual paths, as [`tree_find`] states: an
    /// absolute path must lie under the root; a relative one is taken from the root, and where a
    /// component is not found the subtrees are searched for the rest.
    pub fn find_file(&self, path: &str) -> (r: Vec<(String, SourceFileInfo)>)
        ensures
            hit_views(r@) == tree_find(*self, path@),
            forall|j: int|
                0 <= j < r@.len() ==> files_of(self.root_node, self.root_path@).contains(
                    (#[trigger] r@[j].0@, r@[j].1),
                ),
    {
        let comps = path_components(path);
        let p = crate::text::chars_of(path);
        let ghost pc = components(path@);
        let mut desired: Vec<String> = Vec::new();
        let mut r: Vec<(String, SourceFileInfo)> = Vec::new();
        if p.len() > 0 && p[0] == '/' {
            let root = path_components(self.root_path.as_str());
            let ghost rc = components(self.root_path@);
            assert(rc.len() == root@.len() && pc.len() == comps@.len());
            if root.len() > comps.len() {
                assert(hit_views(r@) =~= tree_find(*self, path@));
                return r;
            }
            let mut i: usize = 0;
            while i < root.len()
                invariant
                    r@ == Seq::<(String, SourceFileInfo)>::empty(),
                    path@.len() > 0 && path@[0] == '/',
                    rc == components(self.root_path@),
                    pc == components(path@),
                    i <= root@.len() <= comps@.len(),
                    crate::pattern::string_views(root@) == rc,
                    crate::pattern::string_views(comps@) == pc,
                    forall|q: int| 0 <= q < i ==> rc[q] == pc[q],
                decreases root@.len() - i,
            {
                if !str_equals(root[i].as_str(), comps[i].as_str()) {
                    assert(rc[i as int] != pc[i as int]);
                    assert(pc.subrange(0, rc.len() as int)[i as int] != rc[i as int]);
                    assert(hit_views(r@) =~= tree_find(*self, path@));
                    return r;
                }
                i = i + 1;
            }
            assert(pc.subrange(0, rc.len() as int) =~= rc);
            assert(crate::pattern::string_views(desired@) =~= pc.subrange(rc.len() as int, i as int));
            while i < comps.len()
                invariant
                    root@.len() <= i <= comps@.len(),
                    crate::pattern::string_views(root@) == rc,
                    crate::pattern::string_views(comps@) == pc,
                    crate::pattern::string_views(desired@) == pc.subrange(rc.len() as int, i as int),
                    r@ == Seq::<(String, SourceFileInfo)>::empty(),
                    path@.len() > 0 && path@[0] == '/',
                    rc == components(self.root_path@),
                    pc == components(path@),
                    rc.len() <= pc.len() && pc.subrange(0, rc.len() as int) == rc,
                decreases comps@.len() - i,
            {
                let ghost before = desired@;
                let c = comps[i].clone();
                assert(c@ == pc[i as int]);
                desired.push(c);
                assert(crate::pattern::string_views(desired@) =~= crate::pattern::string_views(before).push(c@));
                i = i + 1;
                assert(crate::pattern::string_views(desired@) =~= pc.subrange(rc.len() as int, i as int));
            }
        } else {
            desired = comps;
        }
        assert(hit_views(r@) =~= Seq::<(Seq<char>, SourceFileInfo)>::empty());
        self.root_node.find_in(self.root_path.as_str(), &desired, 0, &mut r);
        assert(hit_views(r@) =~= tree_find(*self, path@));
        proof {
            assert forall|j: int| 0 <= j < r@.len() implies files_of(self.root_node, self.root_path@).contains(
                (#[trigger] r@[j].0@, r@[j].1),
            ) by {
                assert(hit_views(r@)[j] == (r@[j].0@, r@[j].1));
                lemma_found_are_files(
                    self.root_node,
                    self.root_path@,
                    crate::pattern::string_views(desired@),
                    0,
                    (r@[j].0@, r@[j].1),
                );
            }
        }
        r
    }

    /// The node counts of the last sync.
    pub fn stats(&self) -> (r: &SourceHierStats)
        ensures
            *r == self.stats,
    {
        &self.stats
    }

    /// The errors that the nodes of the tree hold: paths that could not be read.
    pub fn errors(&self) -> Vec<LogError> {
        let mut stats = SourceHierStats { files: 0, unsupported_files: 0, directories: 0, errors: 0 };
        let mut errors: Vec<LogError> = Vec::new();
        add_counts(&self.root_node, &mut stats, &mut errors);
        errors
    }
}

/// After a scan nothing is pending and every node is reported, so scanning again at once
/// reports nothing.
pub proof fn lemma_second_scan_is_empty(t: SourceHierTree)
    requires
        t.pending() == Seq::<ScanEventView>::empty(),
        all_scanned(t.root_node),
    ensures
        t.pending() + unreported(t.root_node, t.root_path@) == Seq::<ScanEventView>::empty(),
{
    lemma_scanned_has_nothing_new(t.root_node, t.root_path@);
    assert(t.pending() + unreported(t.root_node, t.root_path@) =~= Seq::<ScanEventView>::empty());
}

/// Node `n` reflects the snapshot `e`: every file has the modified time that the snapshot
/// shows, and every directory child is still listed and reflects its listing.
pub open spec fn in_step(n: SourceHierNode, e: FsEntry) -> bool
    decreases e, 0nat,
{
    match n.content {
        SourceHierContent::File { last_modified_time, .. } => match e {
            FsEntry::File { modified } => modified == last_modified_time,
            _ => false,
        },
        SourceHierContent::Directory { entries } => match e {
            FsEntry::Directory { entries: listing } => children_in_step(entries@, listing@),
            _ => false,
        },
        _ => true,
    }
}

pub open spec fn children_in_step(es: Seq<(String, SourceHierNode)>, listing: Seq<(String, FsEntry)>) -> bool
    decreases listing, es.len(),
{
    es.len() == 0 || ({
        &&& match first_listed(listing, es[0].0@, 0) {
            Some(j) => 0 <= j < listing.len() && in_step(es[0].1, listing[j].1),
            None => false,
        }
        &&& children_in_step(es.subrange(1, es.len() as int), listing)
    })
}

/// Syncing a tree with a snapshot that it reflects deletes nothing.
pub proof fn lemma_in_step_no_events(n: SourceHierNode, e: FsEntry, path: Seq<char>)
    requires
        in_step(n, e),
    ensures
        sync_events(n, e, path) == Seq::<ScanEventView>::empty(),
    decreases e, 0nat,
{
    match n.content {
        SourceHierContent::Directory { entries } => match e {
            FsEntry::Directory { entries: listing } => {
                lemma_children_in_step_no_events(entries@, listing@, path);
            },
            _ => {},
        },
        _ => {},
    }
}

proof fn lemma_children_in_step_no_events(
    es: Seq<(String, SourceHierNode)>,
    listing: Seq<(String, FsEntry)>,
    path: Seq<char>,
)
    requires
        children_in_step(es, listing),
    ensures
        dir_sync_events(es, listing, path) == Seq::<ScanEventView>::empty(),
    decreases listing, es.len(),
{
    if es.len() > 0 {
        let j = first_listed(listing, es[0].0@, 0)->0;
        lemma_in_step_no_events(es[0].1, listing[j].1, joined(path, es[0].0@));
        lemma_children_in_step_no_events(es.subrange(1, es.len() as int), listing, path);
        assert(dir_sync_events(es, listing, path) =~= Seq::<ScanEventView>::empty());
    }
}

/// A file whose modified time changed is deleted under its old identifier by a sync, and the
/// node built in its place is reported by the next scan as a new file with the next identifier.
pub proof fn lemma_changed_file(n: SourceHierNode, e: FsEntry, path: Seq<char>, next: usize, rebuilt: SourceHierNode)
    requires
        n.content is File,
        e is File,
        e->modified != n.content->last_modified_time,
        language_of_path(path) is Some,
        next < usize::MAX,
        built_from(rebuilt, e, path, next),
    ensures
        sync_events(n, e, path) == seq![ScanEventView::DeletedFile(path, n.content->info.id)],
        unreported(rebuilt, path) == seq![
            ScanEventView::NewFile(
                path,
                SourceFileInfo { language: language_of_path(path)->0, id: SourceFileID(next) },
            ),
        ],
{
}

/// The events that syncing the directory child `c` with `listing` emits.
pub open spec fn child_events(c: (String, SourceHierNode), listing: Seq<(String, FsEntry)>, path: Seq<char>) -> Seq<ScanEventView> {
    let child_path = joined(path, c.0@);
    match first_listed(listing, c.0@, 0) {
        Some(j) => if 0 <= j < listing.len() {
            sync_events(c.1, listing[j].1, child_path)
        } else {
            seq![]
        },
        None => deletions_of(c.1, child_path),
    }
}

/// Every child but `es[r]` is listed and reflects its listing.
pub open spec fn others_in_step(es: Seq<(String, SourceHierNode)>, listing: Seq<(String, FsEntry)>, r: int) -> bool {
    forall|i: int|
        0 <= i < es.len() && i != r ==> match first_listed(listing, (#[trigger] es[i]).0@, 0) {
            Some(j) => 0 <= j < listing.len() && in_step(es[i].1, listing[j].1),
            None => false,
        }
}

/// Syncing a directory where every child but `es[r]` reflects its listing emits exactly the
/// events of that one child.
pub proof fn lemma_only_child_changes(
    es: Seq<(String, SourceHierNode)>,
    listing: Seq<(String, FsEntry)>,
    path: Seq<char>,
    r: int,
)
    requires
        0 <= r < es.len(),
        others_in_step(es, listing, r),
    ensures
        dir_sync_events(es, listing, path) == child_events(es[r], listing, path),
    decreases es.len(),
{
    let tail = es.subrange(1, es.len() as int);
    if r == 0 {
        assert forall|i: int| 0 <= i < tail.len() implies match first_listed(listing, (#[trigger] tail[i]).0@, 0) {
            Some(j) => 0 <= j < listing.len() && in_step(tail[i].1, listing[j].1),
            None => false,
        } by {
            assert(tail[i] == es[i + 1]);
        }
        lemma_all_in_step(tail, listing);
        lemma_children_in_step_no_events(tail, listing, path);
        assert(dir_sync_events(es, listing, path) =~= child_events(es[r], listing, path));
    } else {
        assert forall|i: int| 0 <= i < tail.len() && i != r - 1 implies match first_listed(listing, (#[trigger] tail[i]).0@, 0) {
            Some(j) => 0 <= j < listing.len() && in_step(tail[i].1, listing[j].1),
            None => false,
        } by {
            assert(tail[i] == es[i + 1]);
        }
        assert(tail[r - 1] == es[r]);
        lemma_only_child_changes(tail, listing, path, r - 1);
        let j = first_listed(listing, es[0].0@, 0)->0;
        assert(match first_listed(listing, (es[0]).0@, 0) {
            Some(j) => 0 <= j < listing.len() && in_step(es[0].1, listing[j].1),
            None => false,
        });
        lemma_in_step_no_events(es[0].1, listing[j].1, joined(path, es[0].0@));
        assert(dir_sync_events(es, listing, path) =~= child_events(es[r], listing, path));
    }
}

/// Syncing a directory whose child `es[r]` is no longer listed, while every other child
/// reflects its listing, deletes exactly the files beneath that child, and nothing else.
pub proof fn lemma_removed_child(
    es: Seq<(String, SourceHierNode)>,
    listing: Seq<(String, FsEntry)>,
    path: Seq<char>,
    r: int,
)
    requires
        0 <= r < es.len(),
        first_listed(listing, es[r].0@, 0) is None,
        others_in_step(es, listing, r),
    ensures
        dir_sync_events(es, listing, path) == deletions_of(es[r].1, joined(path, es[r].0@)),
{
    lemma_only_child_changes(es, listing, path, r);
}

/// Syncing a directory whose file child `es[r]` now has another modified time, while every
/// other child reflects its listing, deletes exactly that file's old identifier.
pub proof fn lemma_changed_child_file(
    es: Seq<(String, SourceHierNode)>,
    listing: Seq<(String, FsEntry)>,
    path: Seq<char>,
    r: int,
    j: int,
)
    requires
        0 <= r < es.len(),
        first_listed(listing, es[r].0@, 0) == Some(j),
        0 <= j < listing.len(),
        es[r].1.content is File,
        listing[j].1 is File,
        listing[j].1->modified != es[r].1.content->last_modified_time,
        others_in_step(es, listing, r),
    ensures
        dir_sync_events(es, listing, path) == seq![
            ScanEventView::DeletedFile(joined(path, es[r].0@), es[r].1.content->info.id),
        ],
{
    lemma_only_child_changes(es, listing, path, r);
}

proof fn lemma_all_in_step(es: Seq<(String, SourceHierNode)>, listing: Seq<(String, FsEntry)>)
    requires
        forall|i: int|
            0 <= i < es.len() ==> match first_listed(listing, (#[trigger] es[i]).0@, 0) {
                Some(j) => 0 <= j < listing.len() && in_step(es[i].1, listing[j].1),
                None => false,
            },
    ensures
        children_in_step(es, listing),
    decreases es.len(),
{
    if es.len() > 0 {
        let tail = es.subrange(1, es.len() as int);
        assert forall|i: int| 0 <= i < tail.len() implies match first_listed(listing, (#[trigger] tail[i]).0@, 0) {
            Some(j) => 0 <= j < listing.len() && in_step(tail[i].1, listing[j].1),
            None => false,
        } by {
            assert(tail[i] == es[i + 1]);
        }
        lemma_all_in_step(tail, listing);
        assert(match first_listed(listing, es[0].0@, 0) {
            Some(j) => 0 <= j < listing.len() && in_step(es[0].1, listing[j].1),
            None => false,
        });
    }
}

/// Node `n` at `path` is settled with the snapshot `e`: syncing it with `e` rebuilds nothing
/// that could hold a new file. Files keep their modified time, unsupported files stay
/// unsupported, unreadable paths stay unreadable, other entries stay other, and each directory
/// still lists each of its children, which are settled, and lists nothing more.
pub open spec fn settled(n: SourceHierNode, e: FsEntry, path: Seq<char>) -> bool
    decreases e, 0nat,
{
    match n.content {
        SourceHierContent::File { last_modified_time, .. } => match e {
            FsEntry::File { modified } => modified == last_modified_time,
            _ => false,
        },
        SourceHierContent::UnsupportedFile => e is File && language_of_path(path) is None,
        SourceHierContent::Directory { entries } => match e {
            FsEntry::Directory { entries: listing } => children_settled(entries@, listing@, path)
                && listing_covered(entries@, listing@),
            _ => false,
        },
        SourceHierContent::Error { .. } => e is Inaccessible,
        SourceHierContent::Unknown => e is Other,
    }
}

pub open spec fn children_settled(es: Seq<(String, SourceHierNode)>, listing: Seq<(String, FsEntry)>, path: Seq<char>) -> bool
    decreases listing, es.len(),
{
    es.len() == 0 || ({
        &&& match first_listed(listing, es[0].0@, 0) {
            Some(j) => 0 <= j < listing.len() && settled(es[0].1, listing[j].1, joined(path, es[0].0@)),
            None => false,
        }
        &&& children_settled(es.subrange(1, es.len() as int), listing, path)
    })
}

/// Every name of `listing` that is not ignored names one of the children `es`.
pub open spec fn listing_covered(es: Seq<(String, SourceHierNode)>, listing: Seq<(String, FsEntry)>) -> bool {
    forall|j: int|
        0 <= j < listing.len() && !ignored_name(#[trigger] listing[j].0@) ==> exists|i: int|
            0 <= i < es.len() && es[i].0@ == listing[j].0@
}

proof fn lemma_unreported_in_push(es: Seq<(String, SourceHierNode)>, path: Seq<char>, x: (String, SourceHierNode))
    ensures
        unreported_in(es.push(x), path) == unreported_in(es, path) + unreported(x.1, joined(path, x.0@)),
    decreases es.len(),
{
    let e2 = es.push(x);
    if es.len() == 0 {
        assert(e2.subrange(1, e2.len() as int) =~= Seq::<(String, SourceHierNode)>::empty());
        assert(e2[0] == x);
        assert(unreported_in(Seq::<(String, SourceHierNode)>::empty(), path) =~= seq![]);
        assert(unreported_in(e2, path) =~= unreported(x.1, joined(path, x.0@)));
    } else {
        let tail = es.subrange(1, es.len() as int);
        assert(e2.subrange(1, e2.len() as int) =~= tail.push(x));
        assert(e2[0] == es[0]);
        lemma_unreported_in_push(tail, path, x);
        assert(unreported_in(e2, path) =~= unreported_in(es, path) + unreported(x.1, joined(path, x.0@)));
    }
}

/// A tree with nothing pending and every file reported, which is settled with and reflects the
/// snapshot `s`, emits nothing when synced with `s`; and since such a sync leaves the files that
/// are not yet reported as they were (see [`SourceHierNode::sync`]), a scan right after it
/// reports nothing either.
pub proof fn lemma_unchanged_resync_is_quiet(t: SourceHierTree, s: FsEntry)
    requires
        t.pending() == Seq::<ScanEventView>::empty(),
        all_scanned(t.root_node),
        in_step(t.root_node, s),
        settled(t.root_node, s, t.root_path@),
    ensures
        t.pending() + sync_events(t.root_node, s, t.root_path@) == Seq::<ScanEventView>::empty(),
        unreported(t.root_node, t.root_path@) == Seq::<ScanEventView>::empty(),
{
    lemma_in_step_no_events(t.root_node, s, t.root_path@);
    lemma_scanned_has_nothing_new(t.root_node, t.root_path@);
    assert(t.pending() + sync_events(t.root_node, s, t.root_path@) =~= Seq::<ScanEventView>::empty());
}

/// `b` is `a` with possibly other reported flags: the same content, and directories with the
/// same names in the same order.
pub open spec fn same_shape(a: SourceHierNode, b: SourceHierNode) -> bool
    decreases a,
{
    match a.content {
        SourceHierContent::Directory { entries } => match b.content {
            SourceHierContent::Directory { entries: other } => same_shape_in(entries@, other@),
            _ => false,
        },
        _ => a.content == b.content,
    }
}

pub open spec fn same_shape_in(xs: Seq<(String, SourceHierNode)>, ys: Seq<(String, SourceHierNode)>) -> bool
    decreases xs,
{
    xs.len() == ys.len() && (xs.len() == 0 || (xs[0].0 == ys[0].0 && same_shape(xs[0].1, ys[0].1)
        && same_shape_in(xs.subrange(1, xs.len() as int), ys.subrange(1, ys.len() as int))))
}

proof fn lemma_same_shape_settled(a: SourceHierNode, b: SourceHierNode, e: FsEntry, path: Seq<char>)
    requires
        same_shape(a, b),
    ensures
        settled(a, e, path) ==> settled(b, e, path),
        in_step(a, e) ==> in_step(b, e),
    decreases e, 0nat,
{
    match a.content {
        SourceHierContent::Directory { entries } => {
            let other = b.content->entries;
            match e {
                FsEntry::Directory { entries: listing } => {
                    lemma_same_shape_children(entries@, other@, listing@, path);
                    if listing_covered(entries@, listing@) {
                        lemma_same_shape_names(entries@, other@);
                        assert forall|j: int|
                            0 <= j < listing@.len() && !ignored_name(#[trigger] listing@[j].0@) implies exists|i: int|
                                0 <= i < other@.len() && other@[i].0@ == listing@[j].0@ by {
                            let i = choose|i: int| 0 <= i < entries@.len() && entries@[i].0@ == listing@[j].0@;
                            assert(other@[i].0 == entries@[i].0);
                        }
                    }
                },
                _ => {},
            }
        },
        _ => {},
    }
}

proof fn lemma_same_shape_names(xs: Seq<(String, SourceHierNode)>, ys: Seq<(String, SourceHierNode)>)
    requires
        same_shape_in(xs, ys),
    ensures
        xs.len() == ys.len(),
        forall|i: int| 0 <= i < xs.len() ==> (#[trigger] xs[i]).0 == ys[i].0,
    decreases xs.len(),
{
    if xs.len() > 0 {
        lemma_same_shape_names(xs.subrange(1, xs.len() as int), ys.subrange(1, ys.len() as int));
        assert forall|i: int| 0 <= i < xs.len() implies (#[trigger] xs[i]).0 == ys[i].0 by {
            if i > 0 {
                assert(xs.subrange(1, xs.len() as int)[i - 1] == xs[i]);
                assert(ys.subrange(1, ys.len() as int)[i - 1] == ys[i]);
            }
        }
    }
}

proof fn lemma_same_shape_children(
    xs: Seq<(String, SourceHierNode)>,
    ys: Seq<(String, SourceHierNode)>,
    listing: Seq<(String, FsEntry)>,
    path: Seq<char>,
)
    requires
        same_shape_in(xs, ys),
    ensures
        children_settled(xs, listing, path) ==> children_settled(ys, listing, path),
        children_in_step(xs, listing) ==> children_in_step(ys, listing),
    decreases listing, xs.len(),
{
    if xs.len() > 0 {
        match first_listed(listing, xs[0].0@, 0) {
            Some(j) => if 0 <= j < listing.len() {
                lemma_same_shape_settled(xs[0].1, ys[0].1, listing[j].1, joined(path, xs[0].0@));
            },
            None => {},
        }
        lemma_same_shape_children(
            xs.subrange(1, xs.len() as int),
            ys.subrange(1, ys.len() as int),
            listing,
            path,
        );
    }
}

proof fn lemma_same_shape_in_push(
    xs: Seq<(String, SourceHierNode)>,
    ys: Seq<(String, SourceHierNode)>,
    x: (String, SourceHierNode),
    y: (String, SourceHierNode),
)
    requires
        same_shape_in(xs, ys),
        x.0 == y.0,
        same_shape(x.1, y.1),
    ensures
        same_shape_in(xs.push(x), ys.push(y)),
    decreases xs.len(),
{
    let x2 = xs.push(x);
    let y2 = ys.push(y);
    if xs.len() == 0 {
        assert(x2.subrange(1, x2.len() as int) =~= Seq::<(String, SourceHierNode)>::empty());
        assert(y2.subrange(1, y2.len() as int) =~= Seq::<(String, SourceHierNode)>::empty());
        assert(x2[0] == x && y2[0] == y);
        assert(same_shape_in(x2.subrange(1, x2.len() as int), y2.subrange(1, y2.len() as int)));
    } else {
        let xt = xs.subrange(1, xs.len() as int);
        let yt = ys.subrange(1, ys.len() as int);
        assert(x2.subrange(1, x2.len() as int) =~= xt.push(x));
        assert(y2.subrange(1, y2.len() as int) =~= yt.push(y));
        assert(x2[0] == xs[0] && y2[0] == ys[0]);
        lemma_same_shape_in_push(xt, yt, x, y);
    }
}

/// No two names of a listing are the same.
pub open spec fn unique_names(l: Seq<(String, FsEntry)>) -> bool {
    forall|i: int, j: int| 0 <= i < j < l.len() ==> l[i].0@ != l[j].0@
}

/// Every listing in the snapshot has distinct names, as a file system's listings do.
pub open spec fn snapshot_wf(e: FsEntry) -> bool
    decreases e,
{
    match e {
        FsEntry::Directory { entries } => unique_names(entries@) && listing_wf(entries@),
        _ => true,
    }
}

pub open spec fn listing_wf(l: Seq<(String, FsEntry)>) -> bool
    decreases l,
{
    l.len() == 0 || (snapshot_wf(l[0].1) && listing_wf(l.subrange(1, l.len() as int)))
}

/// How many files a snapshot shows.
pub open spec fn snapshot_files(e: FsEntry) -> nat
    decreases e,
{
    match e {
        FsEntry::File { .. } => 1,
        FsEntry::Directory { entries } => listing_files(entries@),
        _ => 0,
    }
}

pub open spec fn listing_files(l: Seq<(String, FsEntry)>) -> nat
    decreases l,
{
    if l.len() == 0 {
        0
    } else {
        listing_files(l.subrange(0, l.len() - 1)) + snapshot_files(l[l.len() - 1].1)
    }
}

proof fn lemma_listing_files_prefix(l: Seq<(String, FsEntry)>, k: int)
    requires
        0 <= k < l.len(),
    ensures
        listing_files(l.subrange(0, k + 1)) == listing_files(l.subrange(0, k)) + snapshot_files(l[k].1),
        listing_files(l.subrange(0, k + 1)) <= listing_files(l),
    decreases l.len() - k,
{
    let p = l.subrange(0, k + 1);
    assert(p.subrange(0, p.len() - 1) =~= l.subrange(0, k));
    assert(p[p.len() - 1] == l[k]);
    if k + 1 < l.len() {
        lemma_listing_files_prefix(l, k + 1);
    } else {
        assert(p =~= l);
    }
}

proof fn lemma_listing_wf_at(l: Seq<(String, FsEntry)>, k: int)
    requires
        listing_wf(l),
        0 <= k < l.len(),
    ensures
        snapshot_wf(l[k].1),
    decreases k,
{
    if k > 0 {
        let t = l.subrange(1, l.len() as int);
        assert(t[k - 1] == l[k]);
        lemma_listing_wf_at(t, k - 1);
    }
}

proof fn lemma_first_listed_unique(l: Seq<(String, FsEntry)>, k: int, j: int)
    requires
        unique_names(l),
        0 <= j <= k < l.len(),
    ensures
        first_listed(l, l[k].0@, j) == Some(k),
    decreases k - j,
{
    if j < k {
        assert(l[j].0@ != l[k].0@);
        lemma_first_listed_unique(l, k, j + 1);
    }
}

proof fn lemma_children_push(
    es: Seq<(String, SourceHierNode)>,
    l: Seq<(String, FsEntry)>,
    path: Seq<char>,
    x: (String, SourceHierNode),
    j: int,
)
    requires
        children_settled(es, l, path),
        children_in_step(es, l),
        first_listed(l, x.0@, 0) == Some(j),
        0 <= j < l.len(),
        settled(x.1, l[j].1, joined(path, x.0@)),
        in_step(x.1, l[j].1),
    ensures
        children_settled(es.push(x), l, path),
        children_in_step(es.push(x), l),
    decreases es.len(),
{
    let e2 = es.push(x);
    if es.len() == 0 {
        assert(e2.subrange(1, e2.len() as int) =~= Seq::<(String, SourceHierNode)>::empty());
        assert(e2[0] == x);
        assert(children_settled(e2.subrange(1, e2.len() as int), l, path));
        assert(children_in_step(e2.subrange(1, e2.len() as int), l));
    } else {
        let t = es.subrange(1, es.len() as int);
        assert(e2.subrange(1, e2.len() as int) =~= t.push(x));
        assert(e2[0] == es[0]);
        lemma_children_push(t, l, path, x, j);
    }
}

/// A tree built by its first sync and then scanned is quiet on the next sync with the same
/// snapshot: that sync deletes nothing and, the tree being settled, adds no file, so the scan
/// after it reports nothing.
pub proof fn lemma_rescan_after_first_sync(first: SourceHierNode, scanned: SourceHierNode, s: FsEntry, path: Seq<char>)
    requires
        settled(first, s, path),
        in_step(first, s),
        same_shape(first, scanned),
        all_scanned(scanned),
    ensures
        sync_events(scanned, s, path) == Seq::<ScanEventView>::empty(),
        settled(scanned, s, path),
        unreported(scanned, path) == Seq::<ScanEventView>::empty(),
{
    lemma_same_shape_settled(first, scanned, s, path);
    lemma_in_step_no_events(scanned, s, path);
    lemma_scanned_has_nothing_new(scanned, path);
}

/// Sync a fresh tree with a well-formed snapshot `s` (it is then settled with `s` and reflects
/// it, see [`SourceHierTree::sync`]), scan it, sync it with `s` again and scan again: the second
/// sync leaves nothing pending and no file unreported, so the second scan reports nothing.
pub proof fn lemma_unmodified_tree_rescans_empty(first: SourceHierTree, scanned: SourceHierTree, s: FsEntry)
    requires
        settled(first.root_node, s, first.root_path@),
        in_step(first.root_node, s),
        scanned.pending() == Seq::<ScanEventView>::empty(),
        all_scanned(scanned.root_node),
        same_shape(first.root_node, scanned.root_node),
        scanned.root_path == first.root_path,
    ensures
        scanned.pending() + sync_events(scanned.root_node, s, scanned.root_path@) == Seq::<ScanEventView>::empty(),
        settled(scanned.root_node, s, scanned.root_path@),
        unreported(scanned.root_node, scanned.root_path@) == Seq::<ScanEventView>::empty(),
{
    lemma_rescan_after_first_sync(first.root_node, scanned.root_node, s, first.root_path@);
    assert(scanned.pending() + sync_events(scanned.root_node, s, scanned.root_path@) =~= Seq::<ScanEventView>::empty());
}

/// The supported source files that a snapshot of `path` shows, with their languages, depth
/// first, leaving out version-control and editor metadata directories.
pub open spec fn source_files(e: FsEntry, path: Seq<char>) -> Seq<(Seq<char>, SourceLanguage)>
    decreases e, 0nat,
{
    match e {
        FsEntry::File { .. } => match language_of_path(path) {
            Some(l) => seq![(path, l)],
            None => seq![],
        },
        FsEntry::Directory { entries } => listing_sources(entries@, path, entries@.len() as int),
        _ => seq![],
    }
}

pub open spec fn listing_sources(l: Seq<(String, FsEntry)>, path: Seq<char>, n: int) -> Seq<(Seq<char>, SourceLanguage)>
    decreases l, n,
{
    if n <= 0 || n > l.len() {
        seq![]
    } else {
        listing_sources(l, path, n - 1) + if ignored_name(l[n - 1].0@) {
            Seq::<(Seq<char>, SourceLanguage)>::empty()
        } else {
            source_files(l[n - 1].1, joined(path, l[n - 1].0@))
        }
    }
}

/// Files as paths and languages.
pub open spec fn file_views(fs: Seq<(Seq<char>, SourceFileInfo)>) -> Seq<(Seq<char>, SourceLanguage)> {
    fs.map_values(|f: (Seq<char>, SourceFileInfo)| (f.0, f.1.language))
}

/// No two children of a directory have the same name.
pub open spec fn names_distinct(es: Seq<(String, SourceHierNode)>) -> bool {
    forall|i: int, j: int| 0 <= i < j < es.len() ==> es[i].0@ != es[j].0@
}

/// Every directory beneath `n` has children of distinct names.
pub open spec fn names_ok(n: SourceHierNode) -> bool
    decreases n,
{
    match n.content {
        SourceHierContent::Directory { entries } => names_distinct(entries@) && children_names_ok(entries@),
        _ => true,
    }
}

pub open spec fn children_names_ok(es: Seq<(String, SourceHierNode)>) -> bool
    decreases es,
{
    es.len() == 0 || (names_ok(es[0].1) && children_names_ok(es.subrange(1, es.len() as int)))
}

proof fn lemma_children_names_push(es: Seq<(String, SourceHierNode)>, x: (String, SourceHierNode))
    requires
        children_names_ok(es),
        names_ok(x.1),
    ensures
        children_names_ok(es.push(x)),
    decreases es.len(),
{
    let e2 = es.push(x);
    if es.len() == 0 {
        assert(e2.subrange(1, e2.len() as int) =~= Seq::<(String, SourceHierNode)>::empty());
        assert(e2[0] == x);
        assert(children_names_ok(e2.subrange(1, e2.len() as int)));
    } else {
        let t = es.subrange(1, es.len() as int);
        assert(e2.subrange(1, e2.len() as int) =~= t.push(x));
        assert(e2[0] == es[0]);
        lemma_children_names_push(t, x);
    }
}

proof fn lemma_same_shape_names_ok(a: SourceHierNode, b: SourceHierNode)
    requires
        same_shape(a, b),
        names_ok(a),
    ensures
        names_ok(b),
    decreases a,
{
    match a.content {
        SourceHierContent::Directory { entries } => {
            let other = b.content->entries;
            lemma_same_shape_names(entries@, other@);
            assert forall|i: int, j: int| 0 <= i < j < other@.len() implies other@[i].0@ != other@[j].0@ by {
                assert(entries@[i].0 == other@[i].0 && entries@[j].0 == other@[j].0);
            }
            lemma_same_shape_children_names(entries@, other@);
        },
        _ => {},
    }
}

proof fn lemma_same_shape_children_names(xs: Seq<(String, SourceHierNode)>, ys: Seq<(String, SourceHierNode)>)
    requires
        same_shape_in(xs, ys),
        children_names_ok(xs),
    ensures
        children_names_ok(ys),
    decreases xs,
{
    if xs.len() > 0 {
        lemma_same_shape_names_ok(xs[0].1, ys[0].1);
        lemma_same_shape_children_names(xs.subrange(1, xs.len() as int), ys.subrange(1, ys.len() as int));
    }
}

} // verus!
