//! What a scan of the host's directories found, and what the file system
//! makes of it.

use crate::server::fs::{dir_node, file_node, Node, NodeKind, VfsError};
use vstd::prelude::*;

verus! {

/// One path as a scan of the host found it, symlinks resolved one level.
#[derive(Debug)]
pub enum HostEntry {
    /// A regular file.
    File { path: String },
    /// A directory with its entries in the order of the directory scan.
    Dir { path: String, entries: Vec<HostEntry> },
    /// Neither a directory nor a regular file.
    Other { path: String },
}

/// The mathematical value of a [`HostEntry`].
pub enum HostTree {
    File { path: Seq<char> },
    Dir { path: Seq<char>, entries: Seq<HostTree> },
    Other { path: Seq<char> },
}

/// The value of a scanned entry.
pub open spec fn host_view(entry: HostEntry) -> HostTree
    decreases entry,
{
    match entry {
        HostEntry::File { path } => HostTree::File { path: path@ },
        HostEntry::Dir { path, entries } => HostTree::Dir {
            path: path@,
            entries: hosts_view(entries@),
        },
        HostEntry::Other { path } => HostTree::Other { path: path@ },
    }
}

/// The values of a list of scanned entries, in order.
pub open spec fn hosts_view(entries: Seq<HostEntry>) -> Seq<HostTree>
    decreases entries,
{
    if entries.len() == 0 {
        Seq::empty()
    } else {
        hosts_view(entries.drop_last()).push(host_view(entries.last()))
    }
}

/// A list of entries has one value per entry.
pub proof fn lemma_hosts_view(entries: Seq<HostEntry>)
    ensures
        hosts_view(entries).len() == entries.len(),
        forall|i: int|
            0 <= i < entries.len() ==> #[trigger] hosts_view(entries)[i] == host_view(entries[i]),
    decreases entries.len(),
{
    if entries.len() > 0 {
        lemma_hosts_view(entries.drop_last());
    }
}

/// The first entries of a list have the first values.
pub proof fn lemma_hosts_view_take(entries: Seq<HostEntry>, count: int)
    requires
        0 <= count <= entries.len(),
    ensures
        hosts_view(entries.take(count)) == hosts_view(entries).take(count),
{
    lemma_hosts_view(entries);
    lemma_hosts_view(entries.take(count));
    assert(hosts_view(entries.take(count)) =~= hosts_view(entries).take(count));
}

impl View for HostEntry {
    type V = HostTree;

    open spec fn view(&self) -> HostTree {
        host_view(*self)
    }
}

/// The nodes after an entry has been added, with the index of the entry's
/// own node or the reason why adding stopped.
pub struct Growth {
    pub items: Seq<Node>,
    pub outcome: Result<usize, VfsError>,
}

/// The nodes after the entries of a directory have been added, with the
/// indices of their nodes so far and the reason why adding stopped, if it did.
pub struct Growths {
    pub items: Seq<Node>,
    pub ids: Seq<usize>,
    pub error: Option<VfsError>,
}

/// Adding an entry: a file becomes one node; a directory has its entries
/// added first, in their order, and then becomes a node that lists them.
/// Adding stops at the first entry that is neither directory nor regular
/// file; what was added until then stays.
pub open spec fn grown(items: Seq<Node>, entry: HostTree) -> Growth
    decreases entry,
{
    match entry {
        HostTree::File { path } => Growth {
            items: items.push(file_node(path)),
            outcome: Ok(items.len() as usize),
        },
        HostTree::Other { path } => Growth { items, outcome: Err(VfsError::NotAFile) },
        HostTree::Dir { path, entries } => {
            let below = grown_all(items, entries);
            match below.error {
                Some(error) => Growth { items: below.items, outcome: Err(error) },
                None => Growth {
                    items: below.items.push(dir_node(path, below.ids)),
                    outcome: Ok(below.items.len() as usize),
                },
            }
        },
    }
}

/// Adding the entries of a directory one after another, until one fails.
pub open spec fn grown_all(items: Seq<Node>, entries: Seq<HostTree>) -> Growths
    decreases entries,
{
    if entries.len() == 0 {
        Growths { items, ids: Seq::empty(), error: None }
    } else {
        let before = grown_all(items, entries.drop_last());
        if before.error is Some {
            before
        } else {
            let last = grown(before.items, entries.last());
            match last.outcome {
                Ok(id) => Growths { items: last.items, ids: before.ids.push(id), error: None },
                Err(error) => Growths { items: last.items, ids: before.ids, error: Some(error) },
            }
        }
    }
}

impl HostEntry {
    /// How the value of a scanned directory relates to the values of its
    /// entries.
    pub proof fn lemma_view_dir(self)
        requires
            self is Dir,
        ensures
            self@ == (HostTree::Dir {
                path: self->Dir_path@,
                entries: hosts_view(self->entries@),
            }),
    {
    }
}

/// The number of paths in a scanned entry, itself included.
pub open spec fn host_weight(entry: HostTree) -> nat
    decreases entry,
{
    match entry {
        HostTree::Dir { entries, .. } => 1 + hosts_weight(entries),
        _ => 1,
    }
}

/// The number of paths in a list of scanned entries.
pub open spec fn hosts_weight(entries: Seq<HostTree>) -> nat
    decreases entries,
{
    if entries.len() == 0 {
        0
    } else {
        hosts_weight(entries.drop_last()) + host_weight(entries.last())
    }
}

/// Every path in the entry is a directory or a regular file.
pub open spec fn only_files_and_dirs(entry: HostTree) -> bool
    decreases entry,
{
    match entry {
        HostTree::File { .. } => true,
        HostTree::Other { .. } => false,
        HostTree::Dir { entries, .. } => forall|i: int|
            0 <= i < entries.len() ==> only_files_and_dirs(#[trigger] entries[i]),
    }
}

/// The nodes from index `start` on are as adding leaves them: without
/// digest, files with size 0, and each directory behind its entries, all of
/// which stand at `start` or later.
pub open spec fn newly_added(items: Seq<Node>, start: int) -> bool {
    forall|i: int|
        start <= i < items.len() ==> (#[trigger] items[i]).md5.len() == 0 && match items[i].kind {
            NodeKind::File { size } => size == 0,
            NodeKind::Dir { children } => forall|k: int|
                0 <= k < children.len() ==> start <= #[trigger] children[k] < i,
        }
}

proof fn lemma_newly_added_extends(before: Seq<Node>, after: Seq<Node>, start: int, from: int)
    requires
        0 <= start <= from <= before.len() <= after.len(),
        forall|i: int| 0 <= i < before.len() ==> #[trigger] after[i] == before[i],
        newly_added(before, start),
        newly_added(after, from),
    ensures
        newly_added(after, start),
{
    assert forall|i: int| start <= i < after.len() implies (#[trigger] after[i]).md5.len() == 0
        && match after[i].kind {
        NodeKind::File { size } => size == 0,
        NodeKind::Dir { children } => forall|k: int|
            0 <= k < children.len() ==> start <= #[trigger] children[k] < i,
    } by {
        if i < before.len() {
            assert(after[i] == before[i]);
        }
    }
}

/// Adding in post-order: where every path of an entry is a directory or a
/// regular file, adding it succeeds with the index of the last node, appends
/// one node per path and leaves the nodes before unchanged; every new node is
/// without digest, every new file has size 0, and every new directory stands
/// behind its entries.
pub proof fn law_add_appends_in_post_order(items: Seq<Node>, entry: HostTree)
    requires
        only_files_and_dirs(entry),
        items.len() + host_weight(entry) <= usize::MAX,
    ensures
        host_weight(entry) >= 1,
        grown(items, entry).items.len() == items.len() + host_weight(entry),
        grown(items, entry).outcome == Ok::<usize, VfsError>(
            (items.len() + host_weight(entry) - 1) as usize,
        ),
        forall|i: int| 0 <= i < items.len() ==> #[trigger] grown(items, entry).items[i] == items[i],
        newly_added(grown(items, entry).items, items.len() as int),
    decreases entry,
{
    match entry {
        HostTree::Dir { path, entries } => {
            lemma_add_all(items, entries);
            let below = grown_all(items, entries);
            let after = grown(items, entry).items;
            assert(after == below.items.push(dir_node(path, below.ids)));
            assert forall|i: int| items.len() <= i < after.len() implies (#[trigger] after[i]).md5.len()
                == 0 && match after[i].kind {
                NodeKind::File { size } => size == 0,
                NodeKind::Dir { children } => forall|k: int|
                    0 <= k < children.len() ==> items.len() <= #[trigger] children[k] < i,
            } by {
                if i < below.items.len() {
                    assert(after[i] == below.items[i]);
                }
            }
        },
        _ => {},
    }
}

proof fn lemma_add_all(items: Seq<Node>, entries: Seq<HostTree>)
    requires
        forall|i: int| 0 <= i < entries.len() ==> only_files_and_dirs(#[trigger] entries[i]),
        items.len() + hosts_weight(entries) <= usize::MAX,
    ensures
        grown_all(items, entries).error is None,
        grown_all(items, entries).items.len() == items.len() + hosts_weight(entries),
        grown_all(items, entries).ids.len() == entries.len(),
        forall|k: int|
            0 <= k < entries.len() ==> items.len() <= #[trigger] grown_all(items, entries).ids[k]
                < grown_all(items, entries).items.len(),
        forall|i: int|
            0 <= i < items.len() ==> #[trigger] grown_all(items, entries).items[i] == items[i],
        newly_added(grown_all(items, entries).items, items.len() as int),
    decreases entries,
{
    if entries.len() > 0 {
        let head = entries.drop_last();
        assert forall|i: int| 0 <= i < head.len() implies only_files_and_dirs(
            #[trigger] head[i],
        ) by {
            assert(head[i] == entries[i]);
        }
        assert(only_files_and_dirs(entries[entries.len() - 1]));
        lemma_add_all(items, head);
        let before = grown_all(items, head);
        law_add_appends_in_post_order(before.items, entries.last());
        let last = grown(before.items, entries.last());
        lemma_newly_added_extends(before.items, last.items, items.len() as int, before.items.len() as int);
    }
}

} // verus!
