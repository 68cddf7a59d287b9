//! What holds of every sealed file system.

use crate::digest::is_digest;
use crate::server::fs::{
    children_first, dir_digest, file_rank, keys_of, known_children,
    lemma_file_rank_monotone, lemma_indexed, lemma_lookup_forest, lemma_sealed_len,
    lemma_sealed_prefix, lookup_tree, name_of, restore_refusal, restored,
    seal_refusal, sealed, sealed_items, FileFact, Node, NodeKind, Tree, VfsError,
};
use crate::server::lookup::LookupTree;
use crate::server::sorting::{ascending, key_of, lemma_ordered, lemma_ordered_agree, ordered};
use crate::utils::text::str_le;
use vstd::prelude::*;

verus! {

/// A node is sealed alike in every prefix that holds it.
proof fn lemma_sealed_stable(items: Seq<Node>, given: Seq<FileFact>, shorter: nat, longer: nat, i: int)
    requires
        0 <= i < shorter <= longer,
    ensures
        sealed_items(items, given, shorter)[i] == sealed_items(items, given, longer)[i],
{
    lemma_sealed_prefix(items, given, shorter, i);
    lemma_sealed_prefix(items, given, longer, i);
}

/// What sealing makes of node `i`, told in terms of the sealed nodes
/// themselves.
proof fn lemma_sealed_node(items: Seq<Node>, given: Seq<FileFact>, i: int)
    requires
        0 <= i < items.len(),
        children_first(items),
    ensures
        ({
            let after = sealed_items(items, given, items.len());
            &&& after.len() == items.len()
            &&& after[i].path == items[i].path
            &&& items[i].kind is File ==> after[i].md5 == given[file_rank(items, i as nat) as int].md5
                && after[i].kind == (NodeKind::File {
                size: given[file_rank(items, i as nat) as int].size,
            })
            &&& items[i].kind matches NodeKind::Dir { children } ==> after[i].kind is Dir
                && after[i].kind->children == ordered(children, after) && known_children(
                after[i].kind->children,
                i as nat,
            ) && ascending(after[i].kind->children, after) && after[i].md5 == dir_digest(
                after[i].kind->children,
                after,
            )
        }),
{
    let n = items.len();
    let after = sealed_items(items, given, n);
    let done = sealed_items(items, given, i as nat);
    lemma_sealed_len(items, given, n);
    lemma_sealed_len(items, given, i as nat);
    lemma_sealed_prefix(items, given, n, i);
    assert(sealed_items(items, given, (i + 1) as nat)[i] == after[i]);
    match items[i].kind {
        NodeKind::File { .. } => {},
        NodeKind::Dir { children } => {
            assert(known_children(children, i as nat)) by {
                assert forall|k: int| 0 <= k < children.len() implies (#[trigger] children[k])
                    < i by {
                    assert(items[i].kind->children[k] < i);
                }
            }
            let sorted = ordered(children, done);
            lemma_ordered(children, done);
            assert(known_children(sorted, i as nat));
            assert forall|c: int| 0 <= c < i implies #[trigger] done[c] == after[c] by {
                lemma_sealed_stable(items, given, i as nat, n, c);
            }
            lemma_ordered_agree(children, done, after);
            assert(keys_of(sorted, done) =~= keys_of(sorted, after));
            assert(ascending(sorted, after)) by {
                assert forall|a: int, b: int| 0 <= a < b < sorted.len() implies str_le(
                    key_of(after, #[trigger] sorted[a]),
                    key_of(after, #[trigger] sorted[b]),
                ) by {
                    assert(key_of(done, sorted[a]) == key_of(after, sorted[a]));
                    assert(key_of(done, sorted[b]) == key_of(after, sorted[b]));
                }
            }
        },
    }
}

/// Content addressing: in a sealed file system every file carries the digest
/// and size given for it, the k-th file those of the k-th pair, and is handed
/// out with them; every directory lists its entries in ascending order of
/// their digests, carries the digest of those digests in that order, and is
/// handed out with its entries in that order. Paths are kept.
pub proof fn law_sealed_nodes(tree: Tree, given: Seq<FileFact>, i: int)
    requires
        tree.wf(),
        seal_refusal(tree, given) is None,
        0 <= i < tree.items.len(),
    ensures
        ({
            let before = tree.items;
            let after = sealed(tree, given).items;
            &&& after.len() == before.len()
            &&& after[i].path == before[i].path
            &&& before[i].kind is File ==> {
                let fact = given[file_rank(before, i as nat) as int];
                &&& file_rank(before, i as nat) < given.len()
                &&& is_digest(fact.md5)
                &&& after[i].md5 == fact.md5
                &&& lookup_tree(after, i) == (LookupTree::File {
                    name: name_of(before[i]),
                    md5: fact.md5,
                    size: fact.size as nat,
                })
            }
            &&& before[i].kind matches NodeKind::Dir { children } ==> {
                let sorted = after[i].kind->children;
                &&& after[i].kind is Dir
                &&& sorted.to_multiset() == children.to_multiset()
                &&& known_children(sorted, i as nat)
                &&& ascending(sorted, after)
                &&& after[i].md5 == dir_digest(sorted, after)
                &&& lookup_tree(after, i) matches LookupTree::Dir { name, children: handed }
                &&& name == name_of(before[i])
                &&& handed.len() == sorted.len()
                &&& forall|k: int|
                    0 <= k < sorted.len() ==> #[trigger] handed[k] == lookup_tree(
                        after,
                        sorted[k] as int,
                    )
            }
        }),
{
    let before = tree.items;
    let after = sealed(tree, given).items;
    lemma_sealed_node(before, given, i);
    match before[i].kind {
        NodeKind::File { .. } => {
            lemma_file_rank_monotone(before, (i + 1) as nat, before.len());
        },
        NodeKind::Dir { children } => {
            lemma_ordered(children, after);
            lemma_lookup_forest(after, after[i].kind->children, i);
        },
    }
}

/// Digest lookup: in a sealed file system the digest of every node leads to
/// a node that carries that digest, and no other digest leads anywhere.
pub proof fn law_sealed_is_indexed(tree: Tree, given: Seq<FileFact>)
    requires
        tree.wf(),
        seal_refusal(tree, given) is None,
    ensures
        children_first(sealed(tree, given).items),
        forall|i: int|
            0 <= i < sealed(tree, given).items.len() ==> (#[trigger] sealed(tree, given).find(
                sealed(tree, given).items[i].md5,
            ) matches Some(id) && id < tree.items.len() && sealed(tree, given).items[id as int].md5
                == sealed(tree, given).items[i].md5),
        forall|md5: Seq<char>| #[trigger]
            sealed(tree, given).find(md5) matches Some(id) ==> id < tree.items.len() && sealed(
                tree,
                given,
            ).items[id as int].md5 == md5,
{
    let n = tree.items.len();
    let after = sealed(tree, given).items;
    lemma_sealed_len(tree.items, given, n);
    assert(children_first(after)) by {
        assert forall|i: int, k: int|
            0 <= i < after.len() && after[i].kind is Dir && 0 <= k < after[i].kind->children.len() implies (
        #[trigger] after[i].kind->children[k]) < i by {
            lemma_sealed_node(tree.items, given, i);
        }
    }
    lemma_indexed(after, n);
}

/// Sealing is one-way: once a file system with at least one node has been
/// sealed, sealing it again is refused as already sealed, whatever digests
/// are given.
pub proof fn law_seal_once(tree: Tree, first: Seq<FileFact>, second: Seq<FileFact>)
    requires
        tree.wf(),
        tree.items.len() > 0,
        seal_refusal(tree, first) is None,
    ensures
        seal_refusal(sealed(tree, first), second) == Some(VfsError::AlreadySealed),
{
    lemma_sealed_len(tree.items, first, tree.items.len());
    lemma_indexed(sealed(tree, first).items, tree.items.len());
}

/// Snapshot round trip: the nodes of any file system, together with whether
/// it was sealed, are taken over again, and the file system that results is
/// the same, so every digest is looked up as before.
pub proof fn law_restore_round_trip(tree: Tree)
    requires
        tree.wf(),
    ensures
        restore_refusal(tree.items, tree.is_sealed()) is None,
        restored(tree.items, tree.is_sealed()) == tree,
{
    if !tree.is_sealed() {
        assert(tree.md5_to_id =~= Map::<Seq<char>, usize>::empty());
    }
}

} // verus!
