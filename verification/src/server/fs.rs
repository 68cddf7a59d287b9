//! The content-addressed virtual file system of a serving peer.
//!
//! Nodes are kept in the order in which they were added, children before
//! their directory. Sealing gives every node its digest and fills the map
//! from digest to node; from then on the tree is only read.

use crate::digest::{digest_input, digest_of, is_digest, is_digest_text, Hasher};
use crate::server::host::{
    grown, grown_all, hosts_view, lemma_hosts_view, lemma_hosts_view_take, HostEntry, HostTree,
};
use crate::server::lookup::{LookupDirOrFile, LookupTree};
use crate::server::sorting::{key_of, lemma_ordered, lemma_ordered_agree, ordered, sort_children};
use crate::utils::text::views;
use vstd::hash_map::StringHashMap;
use vstd::prelude::*;

verus! {

/// What is particular to a directory or to a file.
#[derive(Debug)]
pub enum SpecialField {
    /// The indices of the directory's entries.
    Dir { children: Vec<usize> },
    /// The byte count of the file, 0 until sealing.
    File { size: usize },
}

/// One node of the file system.
#[derive(Debug)]
pub struct FileOrDir {
    /// The host path of the file or directory.
    pub path: String,
    /// The content digest, empty until sealing.
    pub md5: String,
    pub special_fields: SpecialField,
}

/// The mathematical value of a [`SpecialField`].
pub enum NodeKind {
    Dir { children: Seq<usize> },
    File { size: usize },
}

/// The mathematical value of a [`FileOrDir`].
pub struct Node {
    pub path: Seq<char>,
    pub md5: Seq<char>,
    pub kind: NodeKind,
}

impl View for SpecialField {
    type V = NodeKind;

    open spec fn view(&self) -> NodeKind {
        match self {
            SpecialField::Dir { children } => NodeKind::Dir { children: children@ },
            SpecialField::File { size } => NodeKind::File { size: *size },
        }
    }
}

impl View for FileOrDir {
    type V = Node;

    open spec fn view(&self) -> Node {
        Node { path: self.path@, md5: self.md5@, kind: self.special_fields@ }
    }
}

/// The values of a list of nodes, in order.
pub open spec fn nodes(items: Seq<FileOrDir>) -> Seq<Node> {
    Seq::new(items.len(), |i: int| items[i]@)
}

/// The mathematical value of a [`VirtualFileSystem`].
pub struct Tree {
    /// The nodes in insertion order.
    pub items: Seq<Node>,
    /// For each digest the node that answers for it; empty until sealing.
    pub md5_to_id: Map<Seq<char>, usize>,
}

/// Why an operation on the file system was refused.
#[derive(PartialEq, Eq, Structural, Clone, Copy, Debug)]
pub enum VfsError {
    /// The file system has been sealed before.
    AlreadySealed,
    /// The path is neither a directory nor a regular file.
    NotAFile,
    /// A directory names an entry that has not been added.
    UnknownChild,
    /// Sealing was given another number of file digests than there are files.
    DigestCount,
    /// Sealing was given a digest that is not 32 lowercase hex characters.
    MalformedDigest,
    /// No node has the digest.
    NotFound,
    /// The digest is that of a directory where a file was asked for.
    IsDir,
}

impl VfsError {
    /// The words for the error.
    pub open spec fn text(self) -> Seq<char> {
        match self {
            VfsError::AlreadySealed => "already sealed"@,
            VfsError::NotAFile => "path is not a file"@,
            VfsError::UnknownChild => "unknown directory entry"@,
            VfsError::DigestCount => "wrong number of file digests"@,
            VfsError::MalformedDigest => "malformed digest"@,
            VfsError::NotFound => "not found"@,
            VfsError::IsDir => "is directory"@,
        }
    }

    /// The words for the error.
    pub fn message(&self) -> (text: String)
        ensures
            text@ == self.text(),
    {
        match self {
            VfsError::AlreadySealed => String::from_str("already sealed"),
            VfsError::NotAFile => String::from_str("path is not a file"),
            VfsError::UnknownChild => String::from_str("unknown directory entry"),
            VfsError::DigestCount => String::from_str("wrong number of file digests"),
            VfsError::MalformedDigest => String::from_str("malformed digest"),
            VfsError::NotFound => String::from_str("not found"),
            VfsError::IsDir => String::from_str("is directory"),
        }
    }
}

/// Trusted: what `std::path::Path::file_name` returns for the path with this
/// text: its final component, or `None` where the path ends in `..` or has
/// no component at all.
pub uninterp spec fn path_file_name(path: Seq<char>) -> Option<Seq<char>>;

/// Trusted: calls `std::path::Path::file_name` and hands the component back
/// as text. The path is valid UTF-8, so the component is handed back as it
/// stands.
#[verifier::external_body]
fn file_name_of(path: &str) -> (name: Option<String>)
    ensures
        match name {
            Some(text) => path_file_name(path@) == Some(text@),
            None => path_file_name(path@) is None,
        },
{
    match std::path::Path::new(path).file_name() {
        Some(component) => Some(component.to_string_lossy().into_owned()),
        None => None,
    }
}

/// The name under which a node is handed out: the final component of its
/// host path, and the whole path where it has no final component.
pub open spec fn name_of(node: Node) -> Seq<char> {
    match path_file_name(node.path) {
        Some(name) => name,
        None => node.path,
    }
}

/// A file as it is added: no digest yet, size 0.
pub open spec fn file_node(path: Seq<char>) -> Node {
    Node { path, md5: Seq::empty(), kind: NodeKind::File { size: 0 } }
}

/// A directory as it is added: no digest yet, entries in the order given.
pub open spec fn dir_node(path: Seq<char>, children: Seq<usize>) -> Node {
    Node { path, md5: Seq::empty(), kind: NodeKind::Dir { children } }
}

/// Every one of `children` is one of the first `count` nodes.
pub open spec fn known_children(children: Seq<usize>, count: nat) -> bool {
    forall|k: int| 0 <= k < children.len() ==> (#[trigger] children[k]) < count
}

/// Every entry of every directory stands before the directory.
pub open spec fn children_first(items: Seq<Node>) -> bool {
    forall|i: int, k: int|
        0 <= i < items.len() && items[i].kind is Dir && 0 <= k < items[i].kind->children.len()
            ==> (#[trigger] items[i].kind->children[k]) < i
}

/// Every node has a well-formed digest.
pub open spec fn all_digested(items: Seq<Node>) -> bool {
    forall|i: int| 0 <= i < items.len() ==> is_digest((#[trigger] items[i]).md5)
}

/// The digest map over the first `upto` nodes: each digest leads to the last
/// of them that carries it.
pub open spec fn indexed(items: Seq<Node>, upto: nat) -> Map<Seq<char>, usize>
    decreases upto,
{
    if upto == 0 {
        Map::empty()
    } else {
        indexed(items, (upto - 1) as nat).insert(items[upto - 1].md5, (upto - 1) as usize)
    }
}

impl Tree {
    /// Whether sealing has filled the digest map.
    pub open spec fn is_sealed(self) -> bool {
        !self.md5_to_id.is_empty()
    }

    /// What holds of every file system: entries stand before their directory,
    /// and the digest map is either empty or covers every node, each with a
    /// well-formed digest.
    pub open spec fn wf(self) -> bool {
        &&& self.items.len() <= usize::MAX
        &&& children_first(self.items)
        &&& self.is_sealed() ==> all_digested(self.items) && self.md5_to_id == indexed(
            self.items,
            self.items.len(),
        )
    }

    /// The node that answers for a digest, if there is one.
    pub open spec fn find(self, md5: Seq<char>) -> Option<usize> {
        if self.md5_to_id.contains_key(md5) {
            Some(self.md5_to_id[md5])
        } else {
            None
        }
    }
}

/// What a client is told about node `id`: its name and, for a file, digest
/// and size; for a directory, the same of each entry in the directory's
/// order.
pub open spec fn lookup_tree(items: Seq<Node>, id: int) -> LookupTree
    decreases id + 1, 0int,
{
    if id < 0 {
        arbitrary()
    } else {
        match items[id].kind {
            NodeKind::Dir { children } => LookupTree::Dir {
                name: name_of(items[id]),
                children: lookup_forest(items, children, id),
            },
            NodeKind::File { size } => LookupTree::File {
                name: name_of(items[id]),
                md5: items[id].md5,
                size: size as nat,
            },
        }
    }
}

/// What a client is told about the entries `children` of node `parent`.
pub open spec fn lookup_forest(items: Seq<Node>, children: Seq<usize>, parent: int) -> Seq<LookupTree>
    decreases parent, children.len(),
{
    if children.len() == 0 || parent < 0 {
        Seq::empty()
    } else if children.last() < parent {
        lookup_forest(items, children.drop_last(), parent).push(
            lookup_tree(items, children.last() as int),
        )
    } else {
        lookup_forest(items, children.drop_last(), parent)
    }
}

/// Below a directory whose entries all stand before it, the forest has one
/// tree per entry.
pub proof fn lemma_lookup_forest(items: Seq<Node>, children: Seq<usize>, parent: int)
    requires
        0 <= parent,
        forall|k: int| 0 <= k < children.len() ==> (#[trigger] children[k]) < parent,
    ensures
        lookup_forest(items, children, parent).len() == children.len(),
        forall|k: int|
            0 <= k < children.len() ==> #[trigger] lookup_forest(items, children, parent)[k]
                == lookup_tree(items, children[k] as int),
    decreases children.len(),
{
    if children.len() > 0 {
        lemma_lookup_forest(items, children.drop_last(), parent);
    }
}

/// Every entry of the digest map leads to a node that carries the digest,
/// and every digest among the first `upto` nodes has an entry.
pub proof fn lemma_indexed(items: Seq<Node>, upto: nat)
    requires
        upto <= items.len() <= usize::MAX,
    ensures
        forall|md5: Seq<char>| #[trigger]
            indexed(items, upto).contains_key(md5) ==> indexed(items, upto)[md5] < upto
                && items[indexed(items, upto)[md5] as int].md5 == md5,
        forall|i: int| 0 <= i < upto ==> indexed(items, upto).contains_key((#[trigger] items[i]).md5),
        upto > 0 ==> !indexed(items, upto).is_empty(),
        upto == 0 ==> indexed(items, upto).is_empty(),
    decreases upto,
{
    if upto > 0 {
        lemma_indexed(items, (upto - 1) as nat);
        assert(indexed(items, upto).contains_key(items[upto - 1].md5));
    }
}

/// What sealing is told about one file: the digest of its contents and its
/// byte count.
#[derive(Debug)]
pub struct FileDigest {
    pub md5: String,
    pub size: usize,
}

/// The mathematical value of a [`FileDigest`].
pub struct FileFact {
    pub md5: Seq<char>,
    pub size: usize,
}

impl View for FileDigest {
    type V = FileFact;

    open spec fn view(&self) -> FileFact {
        FileFact { md5: self.md5@, size: self.size }
    }
}

/// The values of a list of file digests, in order.
pub open spec fn facts(digests: Seq<FileDigest>) -> Seq<FileFact> {
    Seq::new(digests.len(), |i: int| digests[i]@)
}

/// The number of files among the first `upto` nodes.
pub open spec fn file_rank(items: Seq<Node>, upto: nat) -> nat
    decreases upto,
{
    if upto == 0 {
        0
    } else {
        file_rank(items, (upto - 1) as nat) + if items[upto - 1].kind is File {
            1nat
        } else {
            0nat
        }
    }
}

/// Every given digest is well formed.
pub open spec fn well_formed_facts(given: Seq<FileFact>) -> bool {
    forall|k: int| 0 <= k < given.len() ==> is_digest((#[trigger] given[k]).md5)
}

/// The digests of the given entries, in their order.
pub open spec fn keys_of(children: Seq<usize>, items: Seq<Node>) -> Seq<Seq<char>> {
    Seq::new(children.len(), |k: int| key_of(items, children[k]))
}

/// The digest of a directory with the given entries: the digest of the
/// entries' digests, written one after another.
pub open spec fn dir_digest(children: Seq<usize>, items: Seq<Node>) -> Seq<char> {
    digest_of(digest_input(keys_of(children, items)))
}

/// The first `upto` nodes as sealing leaves them. A file takes the digest
/// and size given for it, the k-th file the k-th pair. A directory has its
/// entries put in ascending order of their digests, and takes the digest of
/// those digests in that order.
pub open spec fn sealed_items(items: Seq<Node>, given: Seq<FileFact>, upto: nat) -> Seq<Node>
    decreases upto,
{
    if upto == 0 {
        Seq::empty()
    } else {
        let done = sealed_items(items, given, (upto - 1) as nat);
        let node = items[upto - 1];
        done.push(
            match node.kind {
                NodeKind::File { .. } => {
                    let fact = given[file_rank(items, (upto - 1) as nat) as int];
                    Node { path: node.path, md5: fact.md5, kind: NodeKind::File { size: fact.size } }
                },
                NodeKind::Dir { children } => {
                    let sorted = ordered(children, done);
                    Node {
                        path: node.path,
                        md5: dir_digest(sorted, done),
                        kind: NodeKind::Dir { children: sorted },
                    }
                },
            },
        )
    }
}

/// Why sealing is refused, if it is.
pub open spec fn seal_refusal(tree: Tree, given: Seq<FileFact>) -> Option<VfsError> {
    if tree.is_sealed() {
        Some(VfsError::AlreadySealed)
    } else if given.len() != file_rank(tree.items, tree.items.len()) {
        Some(VfsError::DigestCount)
    } else if !well_formed_facts(given) {
        Some(VfsError::MalformedDigest)
    } else {
        None
    }
}

/// The file system that sealing leaves where it is not refused.
pub open spec fn sealed(tree: Tree, given: Seq<FileFact>) -> Tree {
    let items = sealed_items(tree.items, given, tree.items.len());
    Tree { items, md5_to_id: indexed(items, items.len()) }
}

/// Sealing keeps the number of nodes.
pub proof fn lemma_sealed_len(items: Seq<Node>, given: Seq<FileFact>, upto: nat)
    ensures
        sealed_items(items, given, upto).len() == upto,
    decreases upto,
{
    if upto > 0 {
        lemma_sealed_len(items, given, (upto - 1) as nat);
    }
}

/// The first nodes are sealed alike whatever follows them.
pub proof fn lemma_sealed_prefix(items: Seq<Node>, given: Seq<FileFact>, upto: nat, i: int)
    requires
        0 <= i < upto,
    ensures
        sealed_items(items, given, upto)[i] == sealed_items(items, given, (i + 1) as nat)[i],
    decreases upto,
{
    lemma_sealed_len(items, given, (upto - 1) as nat);
    if i + 1 < upto {
        lemma_sealed_prefix(items, given, (upto - 1) as nat, i);
    }
}

/// The digest map over the first nodes depends on their digests only.
pub proof fn lemma_indexed_agree(a: Seq<Node>, b: Seq<Node>, upto: nat)
    requires
        forall|j: int| 0 <= j < upto ==> (#[trigger] a[j]).md5 == (#[trigger] b[j]).md5,
    ensures
        indexed(a, upto) == indexed(b, upto),
    decreases upto,
{
    if upto > 0 {
        lemma_indexed_agree(a, b, (upto - 1) as nat);
        assert(a[upto - 1].md5 == b[upto - 1].md5);
    }
}

/// The number of files among the first nodes never goes down.
pub proof fn lemma_file_rank_monotone(items: Seq<Node>, lower: nat, upper: nat)
    requires
        lower <= upper,
    ensures
        file_rank(items, lower) <= file_rank(items, upper),
    decreases upper,
{
    if lower < upper {
        lemma_file_rank_monotone(items, lower, (upper - 1) as nat);
    }
}

/// The number of files among the nodes.
fn count_files(items: &Vec<FileOrDir>) -> (count: usize)
    ensures
        count == file_rank(nodes(items@), items@.len()),
{
    let mut count: usize = 0;
    let mut i: usize = 0;
    while i < items.len()
        invariant
            i <= items.len(),
            count == file_rank(nodes(items@), i as nat),
            count <= i,
        decreases items.len() - i,
    {
        match &items[i].special_fields {
            SpecialField::File { .. } => {
                count = count + 1;
            },
            SpecialField::Dir { .. } => {},
        }
        i = i + 1;
    }
    count
}

/// Whether every given digest is well formed.
fn check_digests(digests: &Vec<FileDigest>) -> (ok: bool)
    ensures
        ok == well_formed_facts(facts(digests@)),
{
    let mut i: usize = 0;
    while i < digests.len()
        invariant
            i <= digests.len(),
            forall|k: int| 0 <= k < i ==> is_digest((#[trigger] facts(digests@)[k]).md5),
        decreases digests.len() - i,
    {
        if !is_digest_text(digests[i].md5.as_str()) {
            assert(!is_digest(facts(digests@)[i as int].md5));
            return false;
        }
        i = i + 1;
    }
    true
}

/// The digest of a directory with the given entries, in the given order.
fn directory_digest(children: &Vec<usize>, items: &Vec<FileOrDir>) -> (md5: String)
    requires
        known_children(children@, items@.len()),
    ensures
        md5@ == dir_digest(children@, nodes(items@)),
        is_digest(md5@),
{
    let ghost keys = keys_of(children@, nodes(items@));
    let mut hasher = Hasher::new();
    let mut k: usize = 0;
    assert(keys.take(0) =~= Seq::<Seq<char>>::empty());
    while k < children.len()
        invariant
            k <= children.len(),
            known_children(children@, items@.len()),
            keys == keys_of(children@, nodes(items@)),
            hasher@ == digest_input(keys.take(k as int)),
        decreases children.len() - k,
    {
        assert(keys.take(k + 1).drop_last() =~= keys.take(k as int));
        assert(keys.take(k + 1).last() == items@[children@[k as int] as int].md5@);
        hasher.consume(items[children[k]].md5.as_str().as_bytes());
        k = k + 1;
    }
    assert(keys.take(k as int) =~= keys);
    hasher.finish()
}

/// One line of the digest listing: `dir` or `file`, the host path, and the
/// digest.
pub open spec fn dump_line(node: Node) -> Seq<char> {
    (if node.kind is Dir {
        "dir"@
    } else {
        "file"@
    }) + " "@ + node.path + ": digest "@ + node.md5 + "\n"@
}

/// The digest listing: one line per node, in node order.
pub open spec fn dump_text(items: Seq<Node>) -> Seq<char>
    decreases items.len(),
{
    if items.len() == 0 {
        Seq::empty()
    } else {
        dump_text(items.drop_last()) + dump_line(items.last())
    }
}

/// The host paths of the files among the first `upto` nodes, in node order.
pub open spec fn file_paths_of(items: Seq<Node>, upto: nat) -> Seq<Seq<char>>
    decreases upto,
{
    if upto == 0 {
        Seq::empty()
    } else if items[upto - 1].kind is File {
        file_paths_of(items, (upto - 1) as nat).push(items[upto - 1].path)
    } else {
        file_paths_of(items, (upto - 1) as nat)
    }
}

/// There is one path per file.
pub proof fn lemma_file_paths_len(items: Seq<Node>, upto: nat)
    ensures
        file_paths_of(items, upto).len() == file_rank(items, upto),
    decreases upto,
{
    if upto > 0 {
        lemma_file_paths_len(items, (upto - 1) as nat);
    }
}

/// Why a list of nodes cannot be taken over as a file system, if it cannot.
pub open spec fn restore_refusal(items: Seq<Node>, was_sealed: bool) -> Option<VfsError> {
    if !children_first(items) {
        Some(VfsError::UnknownChild)
    } else if was_sealed && !all_digested(items) {
        Some(VfsError::MalformedDigest)
    } else {
        None
    }
}

/// The file system that holds the given nodes, with its digest map filled
/// if it was sealed.
pub open spec fn restored(items: Seq<Node>, was_sealed: bool) -> Tree {
    Tree {
        items,
        md5_to_id: if was_sealed {
            indexed(items, items.len())
        } else {
            Map::empty()
        },
    }
}

/// The virtual file system of a serving peer.
pub struct VirtualFileSystem {
    items: Vec<FileOrDir>,
    md5_to_id: StringHashMap<usize>,
}

impl View for VirtualFileSystem {
    type V = Tree;

    closed spec fn view(&self) -> Tree {
        Tree { items: nodes(self.items@), md5_to_id: self.md5_to_id@ }
    }
}

impl Default for VirtualFileSystem {
    fn default() -> (vfs: Self)
        ensures
            vfs@.items == Seq::<Node>::empty(),
            vfs@.md5_to_id == Map::<Seq<char>, usize>::empty(),
    {
        VirtualFileSystem::new()
    }
}

impl VirtualFileSystem {
    #[verifier::type_invariant]
    spec fn inv(self) -> bool {
        self@.wf()
    }

    /// An empty, unsealed file system.
    pub fn new() -> (vfs: Self)
        ensures
            vfs@.items == Seq::<Node>::empty(),
            vfs@.md5_to_id == Map::<Seq<char>, usize>::empty(),
    {
        let vfs = VirtualFileSystem { items: Vec::new(), md5_to_id: StringHashMap::new() };
        assert(nodes(vfs.items@) =~= Seq::<Node>::empty());
        vfs
    }

    /// Whether the file system has been sealed.
    pub fn is_sealed(&self) -> (sealed: bool)
        ensures
            sealed == self@.is_sealed(),
            self@.wf(),
    {
        proof {
            use_type_invariant(self);
        }
        !self.md5_to_id.is_empty()
    }

    /// The number of nodes.
    pub fn len(&self) -> (n: usize)
        ensures
            n == self@.items.len(),
    {
        self.items.len()
    }

    /// The name of node `id`: the final component of its host path, and the
    /// whole path where it has no final component.
    fn file_name(&self, id: usize) -> (name: String)
        requires
            id < self@.items.len(),
        ensures
            name@ == name_of(self@.items[id as int]),
    {
        match file_name_of(self.items[id].path.as_str()) {
            Some(name) => name,
            None => self.items[id].path.clone(),
        }
    }

    /// The lookup view of node `id`.
    fn id_to_lookup(&self, id: usize) -> (tree: LookupDirOrFile)
        requires
            id < self@.items.len(),
        ensures
            tree@ == lookup_tree(self@.items, id as int),
        decreases id,
    {
        proof {
            use_type_invariant(self);
        }
        match &self.items[id].special_fields {
            SpecialField::Dir { children } => {
                assert(self@.items[id as int].kind == (NodeKind::Dir { children: children@ }));
                assert forall|k: int| 0 <= k < children@.len() implies (#[trigger] children@[k])
                    < id by {
                    assert(self@.items[id as int].kind->children[k] < id);
                }
                proof {
                    lemma_lookup_forest(self@.items, children@, id as int);
                }
                let mut dir_children: Vec<LookupDirOrFile> = Vec::new();
                let mut k: usize = 0;
                while k < children.len()
                    invariant
                        k <= children.len(),
                        id < self@.items.len(),
                        forall|j: int| 0 <= j < children@.len() ==> (#[trigger] children@[j]) < id,
                        dir_children@.len() == k,
                        forall|j: int|
                            0 <= j < k ==> (#[trigger] dir_children@[j])@ == lookup_tree(
                                self@.items,
                                children@[j] as int,
                            ),
                    decreases children.len() - k,
                {
                    let child = self.id_to_lookup(children[k]);
                    dir_children.push(child);
                    k = k + 1;
                }
                let tree = LookupDirOrFile::Dir {
                    name: self.file_name(id),
                    children: dir_children,
                };
                proof {
                    tree.lemma_view_dir();
                    assert(tree@->children =~= lookup_forest(self@.items, children@, id as int));
                }
                tree
            },
            SpecialField::File { size } => LookupDirOrFile::File {
                name: self.file_name(id),
                md5: self.items[id].md5.clone(),
                size: *size,
            },
        }
    }

    /// The lookup view of the node that answers for `md5`, if there is one;
    /// before sealing there is none.
    pub fn lookup(&self, md5: &str) -> (found: Option<LookupDirOrFile>)
        ensures
            match self@.find(md5@) {
                Some(id) => found matches Some(tree) && id < self@.items.len() && tree@
                    == lookup_tree(self@.items, id as int),
                None => found is None,
            },
    {
        proof {
            use_type_invariant(self);
            lemma_indexed(self@.items, self@.items.len());
        }
        match self.md5_to_id.get(md5) {
            Some(id) => Some(self.id_to_lookup(*id)),
            None => None,
        }
    }

    /// The host path of the file with digest `md5`.
    pub fn file_path(&self, md5: &str) -> (found: Result<String, VfsError>)
        ensures
            match self@.find(md5@) {
                Some(id) => id < self@.items.len() && match self@.items[id as int].kind {
                    NodeKind::File { .. } => found matches Ok(path) && path@
                        == self@.items[id as int].path,
                    NodeKind::Dir { .. } => found == Err::<String, VfsError>(VfsError::IsDir),
                },
                None => found == Err::<String, VfsError>(VfsError::NotFound),
            },
    {
        proof {
            use_type_invariant(self);
            lemma_indexed(self@.items, self@.items.len());
        }
        match self.md5_to_id.get(md5) {
            Some(id) => match &self.items[*id].special_fields {
                SpecialField::File { .. } => Ok(self.items[*id].path.clone()),
                SpecialField::Dir { .. } => Err(VfsError::IsDir),
            },
            None => Err(VfsError::NotFound),
        }
    }

    /// Appends a node to an unsealed file system and returns its index.
    fn push_node(&mut self, node: FileOrDir) -> (id: usize)
        requires
            !old(self)@.is_sealed(),
            node@.kind matches NodeKind::Dir { children } ==> forall|k: int|
                0 <= k < children.len() ==> (#[trigger] children[k]) < old(self)@.items.len(),
        ensures
            id == old(self)@.items.len(),
            final(self)@.items == old(self)@.items.push(node@),
            final(self)@.md5_to_id == old(self)@.md5_to_id,
    {
        proof {
            use_type_invariant(&*self);
        }
        let ghost before = self@.items;
        let mut items: Vec<FileOrDir> = Vec::new();
        std::mem::swap(&mut self.items, &mut items);
        assert(nodes(self.items@) =~= Seq::<Node>::empty());
        let id = items.len();
        items.push(node);
        assert(nodes(items@) =~= before.push(node@));
        assert(children_first(nodes(items@))) by {
            assert forall|i: int, k: int|
                0 <= i < nodes(items@).len() && nodes(items@)[i].kind is Dir && 0 <= k < nodes(
                    items@,
                )[i].kind->children.len() implies (#[trigger] nodes(items@)[i].kind->children[k])
                < i by {
                if i < before.len() {
                    assert(nodes(items@)[i] == before[i]);
                    assert(before[i].kind->children[k] < i);
                }
            }
        }
        assert(self.md5_to_id@.is_empty());
        assert(nodes(items@).len() == items.len());
        assert(nodes(items@).len() <= usize::MAX);
        self.items = items;
        id
    }

    /// Adds a regular file with host path `path` and returns its index. The
    /// node has no digest and size 0 until sealing.
    pub fn add_file(&mut self, path: String) -> (id: usize)
        requires
            !old(self)@.is_sealed(),
        ensures
            final(self)@.wf(),
            !final(self)@.is_sealed(),
            id == old(self)@.items.len(),
            final(self)@.items == old(self)@.items.push(file_node(path@)),
    {
        let node = FileOrDir {
            path,
            md5: String::new(),
            special_fields: SpecialField::File { size: 0 },
        };
        let id = self.push_node(node);
        proof {
            use_type_invariant(&*self);
        }
        id
    }

    /// Adds a directory with host path `path` whose entries are the nodes
    /// `children`, in that order, and returns its index. An entry that is no
    /// node yet is refused, and nothing is added.
    pub fn add_dir(&mut self, path: String, children: Vec<usize>) -> (added: Result<usize, VfsError>)
        requires
            !old(self)@.is_sealed(),
        ensures
            final(self)@.wf(),
            !final(self)@.is_sealed(),
            match added {
                Ok(id) => known_children(children@, old(self)@.items.len()) && id
                    == old(self)@.items.len() && final(self)@.items == old(self)@.items.push(
                    dir_node(path@, children@),
                ),
                Err(error) => error == VfsError::UnknownChild && !known_children(
                    children@,
                    old(self)@.items.len(),
                ) && final(self)@.items == old(self)@.items,
            },
    {
        let mut k: usize = 0;
        let mut known = true;
        while k < children.len() && known
            invariant
                k <= children.len(),
                known ==> forall|j: int| 0 <= j < k ==> (#[trigger] children@[j]) < self@.items.len(),
                !known ==> !known_children(children@, self@.items.len()),
            decreases (children.len() - k) + if known { 1int } else { 0int },
        {
            if children[k] >= self.items.len() {
                known = false;
            } else {
                k = k + 1;
            }
        }
        let added = if known {
            let node = FileOrDir {
                path,
                md5: String::new(),
                special_fields: SpecialField::Dir { children },
            };
            Ok(self.push_node(node))
        } else {
            Err(VfsError::UnknownChild)
        };
        proof {
            use_type_invariant(&*self);
        }
        added
    }

    /// Seals the file system: every file takes the digest and size given for
    /// it (`digests[k]` belongs to the k-th file in node order), every
    /// directory has its entries ordered by digest and takes the digest of
    /// their digests, and the digest map is filled. A sealed file system, a
    /// wrong number of digests and a malformed digest are refused, in that
    /// order, and leave the file system as it was.
    pub fn seal(&mut self, digests: &Vec<FileDigest>) -> (done: Result<(), VfsError>)
        ensures
            final(self)@.wf(),
            match seal_refusal(old(self)@, facts(digests@)) {
                Some(error) => done == Err::<(), VfsError>(error) && final(self)@ == old(self)@,
                None => done is Ok && final(self)@ == sealed(old(self)@, facts(digests@)),
            },
    {
        proof {
            use_type_invariant(&*self);
        }
        if !self.md5_to_id.is_empty() {
            return Err(VfsError::AlreadySealed);
        }
        if digests.len() != count_files(&self.items) {
            return Err(VfsError::DigestCount);
        }
        if !check_digests(digests) {
            return Err(VfsError::MalformedDigest);
        }
        let ghost before = self@.items;
        let ghost given = facts(digests@);
        let mut items: Vec<FileOrDir> = Vec::new();
        std::mem::swap(&mut self.items, &mut items);
        assert(nodes(self.items@) =~= Seq::<Node>::empty());
        let mut index: StringHashMap<usize> = StringHashMap::new();
        let n = items.len();
        let mut rank: usize = 0;
        let mut i: usize = 0;
        assert(nodes(items@).take(0) =~= sealed_items(before, given, 0));
        while i < n
            invariant
                i <= n,
                n == items@.len(),
                n == before.len(),
                given == facts(digests@),
                children_first(before),
                well_formed_facts(given),
                given.len() == file_rank(before, n as nat),
                rank == file_rank(before, i as nat),
                forall|j: int| i <= j < n ==> #[trigger] nodes(items@)[j] == before[j],
                nodes(items@).take(i as int) == sealed_items(before, given, i as nat),
                children_first(nodes(items@)),
                forall|j: int| 0 <= j < i ==> is_digest((#[trigger] nodes(items@)[j]).md5),
                index@ == indexed(nodes(items@), i as nat),
            decreases n - i,
        {
            let ghost current = nodes(items@);
            let ghost done_part = sealed_items(before, given, i as nat);
            assert(current[i as int] == before[i as int]);
            assert forall|c: int| 0 <= c < i implies done_part[c] == current[c] by {
                assert(current.take(i as int)[c] == current[c]);
            }
            let node = match &items[i].special_fields {
                SpecialField::File { .. } => {
                    proof {
                        lemma_file_rank_monotone(before, (i + 1) as nat, n as nat);
                    }
                    let fact = &digests[rank];
                    assert(given[rank as int] == fact@);
                    assert(is_digest(given[rank as int].md5));
                    let node = FileOrDir {
                        path: items[i].path.clone(),
                        md5: fact.md5.clone(),
                        special_fields: SpecialField::File { size: fact.size },
                    };
                    assert(rank < digests.len());
                    rank = rank + 1;
                    node
                },
                SpecialField::Dir { children } => {
                    assert(before[i as int].kind == (NodeKind::Dir { children: children@ }));
                    assert(known_children(children@, i as nat)) by {
                        assert forall|k: int| 0 <= k < children@.len() implies (
                        #[trigger] children@[k]) < i by {
                            assert(before[i as int].kind->children[k] < i);
                        }
                    }
                    let sorted = sort_children(children, &items);
                    proof {
                        lemma_ordered(children@, current);
                        assert(known_children(sorted@, i as nat));
                        lemma_ordered_agree(children@, current, done_part);
                        assert(keys_of(sorted@, current) =~= keys_of(sorted@, done_part));
                    }
                    let md5 = directory_digest(&sorted, &items);
                    FileOrDir {
                        path: items[i].path.clone(),
                        md5,
                        special_fields: SpecialField::Dir { children: sorted },
                    }
                },
            };
            let ghost sealed_node = node@;
            assert(sealed_items(before, given, (i + 1) as nat) == done_part.push(sealed_node));
            assert(is_digest(sealed_node.md5));
            assert(sealed_node.path == before[i as int].path);
            assert(sealed_node.kind matches NodeKind::Dir { children } ==> known_children(
                children,
                i as nat,
            ));
            let key = node.md5.clone();
            items[i] = node;
            let ghost next = nodes(items@);
            assert(next =~= current.update(i as int, sealed_node));
            assert(next.take(i + 1) =~= done_part.push(sealed_node));
            assert(children_first(next)) by {
                assert forall|a: int, k: int|
                    0 <= a < next.len() && next[a].kind is Dir && 0 <= k
                        < next[a].kind->children.len() implies (
                #[trigger] next[a].kind->children[k]) < a by {
                    if a != i {
                        assert(next[a] == current[a]);
                        assert(current[a].kind->children[k] < a);
                    }
                }
            }
            assert forall|j: int| 0 <= j < i + 1 implies is_digest((#[trigger] next[j]).md5) by {
                if j < i {
                    assert(next[j] == current[j]);
                }
            }
            proof {
                assert forall|j: int| 0 <= j < i implies (#[trigger] next[j]).md5 == (
                #[trigger] current[j]).md5 by {
                    assert(next[j] == current[j]);
                }
                lemma_indexed_agree(next, current, i as nat);
            }
            index.insert(key, i);
            assert(index@ == indexed(next, (i + 1) as nat));
            i = i + 1;
        }
        assert(nodes(items@).take(n as int) =~= nodes(items@));
        assert(self.md5_to_id@.is_empty());
        self.items = items;
        proof {
            lemma_indexed(nodes(self.items@), n as nat);
        }
        self.md5_to_id = index;
        assert(self@ == sealed(Tree { items: before, md5_to_id: Map::empty() }, given));
        Ok(())
    }

    /// The nodes in node order, as they are written to a snapshot.
    pub fn items(&self) -> (items: &Vec<FileOrDir>)
        ensures
            nodes(items@) == self@.items,
            self@.wf(),
    {
        proof {
            use_type_invariant(self);
        }
        &self.items
    }

    /// The entries of the digest map, as they are written to a snapshot:
    /// each digest once, with the node that answers for it, in node order.
    pub fn digest_entries(&self) -> (entries: Vec<(String, usize)>)
        ensures
            forall|k: int|
                0 <= k < entries@.len() ==> self@.find((#[trigger] entries@[k]).0@) == Some(
                    entries@[k].1,
                ),
            forall|md5: Seq<char>|
                self@.md5_to_id.contains_key(md5) ==> exists|k: int|
                    0 <= k < entries@.len() && (#[trigger] entries@[k]).0@ == md5,
            forall|j: int, k: int|
                0 <= j < k < entries@.len() ==> (#[trigger] entries@[j]).1 < (
                #[trigger] entries@[k]).1,
    {
        proof {
            use_type_invariant(self);
            lemma_indexed(self@.items, self@.items.len());
        }
        let mut entries: Vec<(String, usize)> = Vec::new();
        let mut i: usize = 0;
        while i < self.items.len()
            invariant
                i <= self.items.len(),
                forall|k: int|
                    0 <= k < entries@.len() ==> self@.find((#[trigger] entries@[k]).0@) == Some(
                        entries@[k].1,
                    ) && entries@[k].1 < i,
                forall|md5: Seq<char>|
                    self@.md5_to_id.contains_key(md5) && self@.md5_to_id[md5] < i ==> exists|k: int|
                        0 <= k < entries@.len() && (#[trigger] entries@[k]).0@ == md5,
                forall|j: int, k: int|
                    0 <= j < k < entries@.len() ==> (#[trigger] entries@[j]).1 < (
                    #[trigger] entries@[k]).1,
                forall|md5: Seq<char>| #[trigger]
                    self@.md5_to_id.contains_key(md5) ==> self@.md5_to_id[md5]
                        < self@.items.len() && self@.items[self@.md5_to_id[md5] as int].md5 == md5,
            decreases self.items.len() - i,
        {
            let ghost before = entries@;
            let answers = match self.md5_to_id.get(self.items[i].md5.as_str()) {
                Some(id) => *id == i,
                None => false,
            };
            if answers {
                entries.push((self.items[i].md5.clone(), i));
                assert(entries@[before.len() as int].0@ == self@.items[i as int].md5);
                assert forall|md5: Seq<char>|
                    self@.md5_to_id.contains_key(md5) && self@.md5_to_id[md5] < i + 1 implies exists|
                    k: int,
                |
                    0 <= k < entries@.len() && (#[trigger] entries@[k]).0@ == md5 by {
                    if self@.md5_to_id[md5] < i {
                        let k = choose|k: int| 0 <= k < before.len() && (#[trigger] before[k]).0@ == md5;
                        assert(entries@[k] == before[k]);
                    } else {
                        assert(entries@[before.len() as int].0@ == md5);
                    }
                }
            }
            i = i + 1;
        }
        entries
    }

    /// The host paths of the files in node order: the files whose digests
    /// sealing asks for, in the order in which it asks for them.
    pub fn file_paths(&self) -> (paths: Vec<String>)
        ensures
            views(paths@) == file_paths_of(self@.items, self@.items.len()),
            paths@.len() == file_rank(self@.items, self@.items.len()),
    {
        let mut paths: Vec<String> = Vec::new();
        let mut i: usize = 0;
        while i < self.items.len()
            invariant
                i <= self.items.len(),
                views(paths@) == file_paths_of(self@.items, i as nat),
            decreases self.items.len() - i,
        {
            let ghost known = views(paths@);
            match &self.items[i].special_fields {
                SpecialField::File { .. } => {
                    let path = self.items[i].path.clone();
                    paths.push(path);
                    assert(views(paths@) =~= known.push(path@));
                },
                SpecialField::Dir { .. } => {},
            }
            i = i + 1;
        }
        proof {
            lemma_file_paths_len(self@.items, self@.items.len());
        }
        paths
    }

    /// The digest listing, one line per node in node order, each of the form
    /// `dir <path>: digest <hex>` or `file <path>: digest <hex>`.
    pub fn dump_md5(&self) -> (text: String)
        ensures
            text@ == dump_text(self@.items),
    {
        let mut text = String::new();
        let mut i: usize = 0;
        assert(self@.items.take(0) =~= Seq::<Node>::empty());
        while i < self.items.len()
            invariant
                i <= self.items.len(),
                text@ == dump_text(self@.items.take(i as int)),
            decreases self.items.len() - i,
        {
            let ghost so_far = text@;
            assert(self@.items.take(i + 1).drop_last() =~= self@.items.take(i as int));
            assert(self@.items.take(i + 1).last() == self@.items[i as int]);
            match &self.items[i].special_fields {
                SpecialField::Dir { .. } => text.append("dir"),
                SpecialField::File { .. } => text.append("file"),
            }
            text.append(" ");
            text.append(self.items[i].path.as_str());
            text.append(": digest ");
            text.append(self.items[i].md5.as_str());
            text.append("\n");
            assert(text@ =~= so_far + dump_line(self@.items[i as int]));
            i = i + 1;
        }
        assert(self@.items.take(i as int) =~= self@.items);
        text
    }

    /// Takes nodes over from a snapshot, and fills the digest map if the
    /// snapshot was taken of a sealed file system. Refused are, in this
    /// order, a directory with an entry that does not stand before it, and,
    /// for a sealed snapshot, a digest that is not well formed.
    pub fn restore(items: Vec<FileOrDir>, was_sealed: bool) -> (taken: Result<Self, VfsError>)
        ensures
            match restore_refusal(nodes(items@), was_sealed) {
                Some(error) => taken matches Err(e) && e == error,
                None => taken matches Ok(vfs) && vfs@ == restored(nodes(items@), was_sealed),
            },
    {
        let ghost given = nodes(items@);
        let mut i: usize = 0;
        while i < items.len()
            invariant
                i <= items.len(),
                given == nodes(items@),
                forall|a: int, k: int|
                    0 <= a < i && given[a].kind is Dir && 0 <= k < given[a].kind->children.len()
                        ==> (#[trigger] given[a].kind->children[k]) < a,
            decreases items.len() - i,
        {
            match &items[i].special_fields {
                SpecialField::Dir { children } => {
                    assert(given[i as int].kind == (NodeKind::Dir { children: children@ }));
                    let mut k: usize = 0;
                    while k < children.len()
                        invariant
                            k <= children.len(),
                            i < items.len(),
                            given == nodes(items@),
                                        given[i as int].kind == (NodeKind::Dir { children: children@ }),
                            forall|j: int| 0 <= j < k ==> (#[trigger] children@[j]) < i,
                        decreases children.len() - k,
                    {
                        if children[k] >= i {
                            assert(!(given[i as int].kind->children[k as int] < i));
                            return Err(VfsError::UnknownChild);
                        }
                        k = k + 1;
                    }
                },
                SpecialField::File { .. } => {},
            }
            i = i + 1;
        }
        assert(children_first(given));
        if !was_sealed {
            let vfs = VirtualFileSystem { items, md5_to_id: StringHashMap::new() };
            return Ok(vfs);
        }
        let mut index: StringHashMap<usize> = StringHashMap::new();
        i = 0;
        while i < items.len()
            invariant
                i <= items.len(),
                given == nodes(items@),
                children_first(given),
                was_sealed,
                forall|j: int| 0 <= j < i ==> is_digest((#[trigger] given[j]).md5),
                index@ == indexed(given, i as nat),
            decreases items.len() - i,
        {
            if !is_digest_text(items[i].md5.as_str()) {
                assert(!is_digest(given[i as int].md5));
                return Err(VfsError::MalformedDigest);
            }
            index.insert(items[i].md5.clone(), i);
            i = i + 1;
        }
        assert(all_digested(given));
        let vfs = VirtualFileSystem { items, md5_to_id: index };
        Ok(vfs)
    }

    /// Adds what a scan of the host found at one path, entries before their
    /// directory, and returns the index of the path's own node. Where adding
    /// stops early, the nodes added until then stay.
    pub fn add(&mut self, entry: &HostEntry) -> (added: Result<usize, VfsError>)
        requires
            !old(self)@.is_sealed(),
        ensures
            final(self)@.wf(),
            !final(self)@.is_sealed(),
            final(self)@.items == grown(old(self)@.items, entry@).items,
            added == grown(old(self)@.items, entry@).outcome,
            old(self)@.items.len() <= final(self)@.items.len(),
            added matches Ok(id) ==> id < final(self)@.items.len(),
        decreases entry,
    {
        let ghost before = self@.items;
        proof {
            use_type_invariant(&*self);
        }
        match entry {
            HostEntry::File { path } => Ok(self.add_file(path.clone())),
            HostEntry::Other { .. } => Err(VfsError::NotAFile),
            HostEntry::Dir { path, entries } => {
                proof {
                    entry.lemma_view_dir();
                    lemma_hosts_view(entries@);
                }
                let mut children: Vec<usize> = Vec::new();
                let mut i: usize = 0;
                assert(entries@.take(0) =~= Seq::<HostEntry>::empty());
                while i < entries.len()
                    invariant
                        i <= entries.len(),
                        *entry == (HostEntry::Dir { path: *path, entries: *entries }),
                        entry@ == (HostTree::Dir { path: path@, entries: hosts_view(entries@) }),
                        before == old(self)@.items,
                        self@.wf(),
                        !self@.is_sealed(),
                        before.len() <= self@.items.len(),
                        grown_all(before, hosts_view(entries@.take(i as int))).error is None,
                        self@.items == grown_all(before, hosts_view(entries@.take(i as int))).items,
                        children@ == grown_all(before, hosts_view(entries@.take(i as int))).ids,
                        known_children(children@, self@.items.len()),
                    decreases entries.len() - i,
                {
                    let ghost so_far = hosts_view(entries@.take(i as int));
                    let ghost next = hosts_view(entries@.take(i + 1));
                    proof {
                        assert(entries@.take(i + 1).drop_last() =~= entries@.take(i as int));
                        assert(entries@.take(i + 1).last() == entries@[i as int]);
                        assert(next.drop_last() =~= so_far);
                        assert(next.last() == entries@[i as int]@);
                    }
                    match self.add(&entries[i]) {
                        Ok(id) => {
                            children.push(id);
                        },
                        Err(error) => {
                            proof {
                                assert(grown_all(before, next).error == Some(error));
                                lemma_hosts_view(entries@);
                                lemma_hosts_view_take(entries@, i + 1);
                                lemma_grown_all_stops(before, hosts_view(entries@), i + 1);
                            }
                            return Err(error);
                        },
                    }
                    i = i + 1;
                }
                assert(entries@.take(i as int) =~= entries@);
                self.add_dir(path.clone(), children)
            },
        }
    }
}

/// Once adding has stopped at one entry of a list, the entries behind it
/// change nothing.
pub proof fn lemma_grown_all_stops(items: Seq<Node>, entries: Seq<HostTree>, count: int)
    requires
        0 <= count <= entries.len(),
        grown_all(items, entries.take(count)).error is Some,
    ensures
        grown_all(items, entries) == grown_all(items, entries.take(count)),
    decreases entries.len(),
{
    if count < entries.len() {
        assert(entries.drop_last().take(count) =~= entries.take(count));
        lemma_grown_all_stops(items, entries.drop_last(), count);
    } else {
        assert(entries.take(count) =~= entries);
    }
}

} // verus!
