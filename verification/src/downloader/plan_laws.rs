//! What holds of every plan: downloads rotate through the peers, and a
//! directory is created before anything inside it is fetched.

use crate::downloader::planer::{
    emitted, join_path, lemma_pending_weight_step, next_peer, pending_weight, plan_of, under,
    Pending, PlannedAction,
};
use crate::server::lookup::LookupTree;
use vstd::prelude::*;

verus! {

/// The number of downloads among the given actions.
pub open spec fn downloads_in(actions: Seq<PlannedAction>) -> nat
    decreases actions.len(),
{
    if actions.len() == 0 {
        0
    } else {
        downloads_in(actions.drop_last()) + if actions.last() is Download {
            1nat
        } else {
            0nat
        }
    }
}

/// The path that an action works on.
pub open spec fn path_of(action: PlannedAction) -> Seq<char> {
    match action {
        PlannedAction::Download { path, .. } => path,
        PlannedAction::MakeDir { path } => path,
    }
}

/// The number of separators in a path.
pub open spec fn depth_of(path: Seq<char>) -> nat
    decreases path.len(),
{
    if path.len() == 0 {
        0
    } else {
        depth_of(path.drop_last()) + if path.last() == '/' {
            1nat
        } else {
            0nat
        }
    }
}

/// No name in the tree holds a separator.
pub open spec fn plain_names(tree: LookupTree) -> bool
    decreases tree,
{
    match tree {
        LookupTree::Dir { name, children } => depth_of(name) == 0 && forall|i: int|
            0 <= i < children.len() ==> plain_names(#[trigger] children[i]),
        LookupTree::File { name, .. } => depth_of(name) == 0,
    }
}

/// `path` lies inside the directory `dir`: it is `dir`, a separator, and more.
pub open spec fn is_within(path: Seq<char>, dir: Seq<char>) -> bool {
    dir.push('/').is_prefix_of(path)
}

proof fn lemma_downloads_add(a: Seq<PlannedAction>, b: Seq<PlannedAction>)
    ensures
        downloads_in(a + b) == downloads_in(a) + downloads_in(b),
    decreases b.len(),
{
    if b.len() == 0 {
        assert(a + b =~= a);
    } else {
        lemma_downloads_add(a, b.drop_last());
        assert((a + b).drop_last() =~= a + b.drop_last());
    }
}

proof fn lemma_depth_add(a: Seq<char>, b: Seq<char>)
    ensures
        depth_of(a + b) == depth_of(a) + depth_of(b),
    decreases b.len(),
{
    if b.len() == 0 {
        assert(a + b =~= a);
    } else {
        lemma_depth_add(a, b.drop_last());
        assert((a + b).drop_last() =~= a + b.drop_last());
    }
}

proof fn lemma_depth_join(prefix: Seq<char>, name: Seq<char>)
    ensures
        depth_of(join_path(prefix, name)) == depth_of(prefix) + 1 + depth_of(name),
{
    lemma_depth_add(prefix.push('/'), name);
    assert(prefix.push('/').drop_last() =~= prefix);
}

proof fn lemma_rotation(frontier: Seq<Pending>, peers: Seq<Seq<char>>, next_id: nat)
    requires
        next_id < peers.len(),
    ensures
        forall|i: int|
            0 <= i < emitted(frontier, peers, next_id).len() ==> (#[trigger] emitted(
                frontier,
                peers,
                next_id,
            )[i] matches PlannedAction::Download { peer_id, .. } ==> peer_id == (next_id
                + downloads_in(emitted(frontier, peers, next_id).take(i))) % peers.len()),
    decreases pending_weight(frontier),
{
    let n = peers.len();
    let out = emitted(frontier, peers, next_id);
    if frontier.len() > 0 {
        lemma_pending_weight_step(frontier);
        let first = frontier.first();
        let rest = frontier.drop_first();
        let moved: nat = if first.tree is File {
            1
        } else {
            0
        };
        let later: nat = if first.tree is File {
            next_peer(next_id, n)
        } else {
            next_id
        };
        let queue = match first.tree {
            LookupTree::Dir { name, children } => rest + under(
                join_path(first.prefix, name),
                children,
            ),
            LookupTree::File { .. } => rest,
        };
        let tail = emitted(queue, peers, later);
        lemma_rotation(queue, peers, later);
        assert(out == seq![out[0]] + tail);
        assert(out[0] is Download <==> first.tree is File);
        assert forall|i: int| 0 <= i < out.len() implies (#[trigger] out[i] matches PlannedAction::Download {
            peer_id,
            ..
        } ==> peer_id == (next_id + downloads_in(out.take(i))) % n) by {
            if i == 0 {
                assert(out.take(0) =~= Seq::<PlannedAction>::empty());
                assert(next_id % n == next_id) by (nonlinear_arith)
                    requires
                        next_id < n,
                ;
            } else {
                assert(out[i] == tail[i - 1]);
                assert(out.take(i) =~= seq![out[0]] + tail.take(i - 1));
                lemma_downloads_add(seq![out[0]], tail.take(i - 1));
                assert(seq![out[0]].drop_last() =~= Seq::<PlannedAction>::empty());
                assert(downloads_in(seq![out[0]].drop_last()) == 0);
                assert(downloads_in(seq![out[0]]) == moved);
                let d = downloads_in(tail.take(i - 1));
                assert((later + d) % n == (next_id + moved + d) % n) by {
                    if first.tree is File {
                        vstd::arithmetic::div_mod::lemma_add_mod_noop(
                            (next_id + 1) as int,
                            d as int,
                            n as int,
                        );
                        vstd::arithmetic::div_mod::lemma_mod_twice((next_id + 1) as int, n as int);
                        vstd::arithmetic::div_mod::lemma_add_mod_noop(
                            ((next_id + 1) % n) as int,
                            d as int,
                            n as int,
                        );
                    }
                }
            }
        }
    }
}

/// Round robin: in the plan for any tree over N > 0 peers, a download that
/// has k downloads before it starts at peer k mod N, so the starting peers of
/// consecutive downloads run 0, 1, ..., N-1, 0, 1, ...
pub proof fn law_downloads_rotate(tree: LookupTree, peers: Seq<Seq<char>>)
    requires
        peers.len() > 0,
    ensures
        forall|i: int|
            0 <= i < plan_of(tree, peers).len() ==> (#[trigger] plan_of(
                tree,
                peers,
            )[i] matches PlannedAction::Download { peer_id, .. } ==> peer_id == downloads_in(
                plan_of(tree, peers).take(i),
            ) % peers.len()),
{
    lemma_rotation(seq![Pending { prefix: "."@, tree }], peers, 0);
}

/// The frontier is ordered by depth and spans at most two levels.
spec fn levelled(frontier: Seq<Pending>) -> bool {
    &&& forall|i: int| 0 <= i < frontier.len() ==> plain_names((#[trigger] frontier[i]).tree)
    &&& forall|i: int, j: int|
        0 <= i < j < frontier.len() ==> depth_of((#[trigger] frontier[i]).prefix) <= depth_of(
            (#[trigger] frontier[j]).prefix,
        )
    &&& forall|i: int|
        0 <= i < frontier.len() ==> depth_of((#[trigger] frontier[i]).prefix) <= depth_of(
            frontier[0].prefix,
        ) + 1
}

proof fn lemma_levels(frontier: Seq<Pending>, peers: Seq<Seq<char>>, next_id: nat)
    requires
        levelled(frontier),
    ensures
        frontier.len() == 0 ==> emitted(frontier, peers, next_id).len() == 0,
        forall|i: int|
            0 <= i < emitted(frontier, peers, next_id).len() ==> depth_of(
                path_of(#[trigger] emitted(frontier, peers, next_id)[i]),
            ) > depth_of(frontier[0].prefix),
        forall|i: int, j: int|
            0 <= i < j < emitted(frontier, peers, next_id).len() ==> depth_of(
                path_of(#[trigger] emitted(frontier, peers, next_id)[i]),
            ) <= depth_of(path_of(#[trigger] emitted(frontier, peers, next_id)[j])),
    decreases pending_weight(frontier),
{
    let out = emitted(frontier, peers, next_id);
    if frontier.len() > 0 {
        lemma_pending_weight_step(frontier);
        let first = frontier.first();
        let rest = frontier.drop_first();
        let base = depth_of(first.prefix);
        let later: nat = if first.tree is File {
            next_peer(next_id, peers.len())
        } else {
            next_id
        };
        let queue = match first.tree {
            LookupTree::Dir { name, children } => rest + under(
                join_path(first.prefix, name),
                children,
            ),
            LookupTree::File { .. } => rest,
        };
        let tail = emitted(queue, peers, later);
        assert(plain_names(first.tree));
        match first.tree {
            LookupTree::Dir { name, children } => {
                lemma_depth_join(first.prefix, name);
                assert(out == seq![PlannedAction::MakeDir { path: join_path(first.prefix, name) }]
                    + tail);
            },
            LookupTree::File { name, md5, size } => {
                lemma_depth_join(first.prefix, name);
                assert(out == seq![
                    PlannedAction::Download {
                        peers,
                        peer_id: next_id,
                        path: join_path(first.prefix, name),
                        md5,
                        size,
                    },
                ] + tail);
            },
        }
        assert(out == seq![out[0]] + tail);
        assert(depth_of(path_of(out[0])) == base + 1);
        assert forall|i: int| 0 <= i < queue.len() implies plain_names((#[trigger] queue[i]).tree)
            && base <= depth_of(queue[i].prefix) <= base + 1 by {
            if i < rest.len() {
                assert(queue[i] == frontier[i + 1]);
                assert(depth_of(frontier[0].prefix) <= depth_of(frontier[i + 1].prefix));
            } else {
                assert(first.tree is Dir);
                assert(queue[i].tree == first.tree->children[i - rest.len()]);
            }
        }
        assert forall|i: int, j: int| 0 <= i < j < queue.len() implies depth_of(
            (#[trigger] queue[i]).prefix,
        ) <= depth_of((#[trigger] queue[j]).prefix) by {
            if j < rest.len() {
                assert(queue[i] == frontier[i + 1] && queue[j] == frontier[j + 1]);
            } else {
                assert(depth_of(queue[j].prefix) == base + 1);
            }
        }
        assert(levelled(queue));
        lemma_levels(queue, peers, later);
        assert(tail.len() > 0 ==> queue.len() > 0);
        assert forall|i: int| 0 <= i < out.len() implies depth_of(path_of(#[trigger] out[i]))
            > base by {
            if i > 0 {
                assert(out[i] == tail[i - 1]);
                assert(base <= depth_of(queue[0].prefix));
            }
        }
        assert forall|i: int, j: int| 0 <= i < j < out.len() implies depth_of(
            path_of(#[trigger] out[i]),
        ) <= depth_of(path_of(#[trigger] out[j])) by {
            assert(out[j] == tail[j - 1]);
            assert(base <= depth_of(queue[0].prefix));
            if i > 0 {
                assert(out[i] == tail[i - 1]);
            }
        }
    }
}

/// Directories first: in the plan for a tree whose names hold no separator,
/// every `MakeDir` stands before every `Download` whose path lies inside
/// that directory.
pub proof fn law_dirs_precede_contents(tree: LookupTree, peers: Seq<Seq<char>>)
    requires
        plain_names(tree),
    ensures
        forall|i: int, j: int|
            0 <= i < plan_of(tree, peers).len() && 0 <= j < plan_of(tree, peers).len()
                && (#[trigger] plan_of(tree, peers)[i]) is MakeDir && (#[trigger] plan_of(
                tree,
                peers,
            )[j]) is Download && is_within(
                path_of(plan_of(tree, peers)[j]),
                path_of(plan_of(tree, peers)[i]),
            ) ==> i < j,
{
    let start = seq![Pending { prefix: "."@, tree }];
    let plan = plan_of(tree, peers);
    assert(levelled(start));
    lemma_levels(start, peers, 0);
    assert forall|i: int, j: int|
        0 <= i < plan.len() && 0 <= j < plan.len() && (#[trigger] plan[i]) is MakeDir
            && (#[trigger] plan[j]) is Download && is_within(
            path_of(plan[j]),
            path_of(plan[i]),
        ) implies i < j by {
        let dir = path_of(plan[i]);
        let path = path_of(plan[j]);
        let more = path.skip(dir.len() as int + 1);
        assert(path =~= dir.push('/') + more);
        lemma_depth_add(dir.push('/'), more);
        assert(dir.push('/').drop_last() =~= dir);
        assert(depth_of(path) > depth_of(dir));
        if j < i {
            assert(depth_of(path_of(plan[j])) <= depth_of(path_of(plan[i])));
        }
    }
}

} // verus!
