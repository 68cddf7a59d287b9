//! The download planner: which peers to use, which tree they agree on, and
//! the ordered list of actions that rebuilds that tree.

use crate::server::lookup::{LookupDirOrFile, LookupTree};
use crate::tracker::{PeerInfo, PeersResponse};
use crate::utils::multierr::{multi_error_text, MultiError};
use crate::utils::text::views;
use std::collections::VecDeque;
use std::sync::Arc;
use vstd::prelude::*;

verus! {

/// One element of a plan.
#[derive(Debug)]
pub enum Action {
    /// Fetch the file with digest `md5` to `path`, trying `peers` in rotation
    /// from index `peer_id`.
    Download { peers: Arc<Vec<String>>, peer_id: usize, path: String, md5: String, size: usize },
    /// Create the directory `path`.
    MakeDir { path: String },
}

/// The mathematical value of an [`Action`].
pub enum PlannedAction {
    Download { peers: Seq<Seq<char>>, peer_id: nat, path: Seq<char>, md5: Seq<char>, size: nat },
    MakeDir { path: Seq<char> },
}

impl View for Action {
    type V = PlannedAction;

    open spec fn view(&self) -> PlannedAction {
        match self {
            Action::Download { peers, peer_id, path, md5, size } => PlannedAction::Download {
                peers: views((**peers)@),
                peer_id: *peer_id as nat,
                path: path@,
                md5: md5@,
                size: *size as nat,
            },
            Action::MakeDir { path } => PlannedAction::MakeDir { path: path@ },
        }
    }
}

/// The values of a list of actions, in order.
pub open spec fn planned(actions: Seq<Action>) -> Seq<PlannedAction> {
    actions.map_values(|a: Action| a@)
}

/// Why no plan could be made.
#[derive(Debug)]
pub enum PlanError {
    /// No tracker named any peer, and none of them failed.
    EmptyTrackers,
    /// No tracker named any peer; these are the failures of those that failed.
    TrackerErrors(MultiError<String>),
    /// No peer was asked for the tree.
    NoPeers,
    /// No peer answered with a tree; these are their failures.
    PeerErrors(MultiError<String>),
    /// Two peers answered with different trees for the same digest.
    TreeMismatch { expected: LookupDirOrFile, found: LookupDirOrFile },
}

/// The words for a planning error.
pub open spec fn plan_error_text(error: PlanError) -> Seq<char> {
    match error {
        PlanError::EmptyTrackers => "tracker_urls is empty"@,
        PlanError::TrackerErrors(errors) => multi_error_text(views(errors@)),
        PlanError::NoPeers => "no peers found"@,
        PlanError::PeerErrors(errors) => multi_error_text(views(errors@)),
        PlanError::TreeMismatch { .. } => "tree mismatch"@,
    }
}

impl PlanError {
    /// The words for the error.
    pub fn message(&self) -> (text: String)
        ensures
            text@ == plan_error_text(*self),
    {
        match self {
            PlanError::EmptyTrackers => String::from_str("tracker_urls is empty"),
            PlanError::TrackerErrors(errors) => errors.message(),
            PlanError::NoPeers => String::from_str("no peers found"),
            PlanError::PeerErrors(errors) => errors.message(),
            PlanError::TreeMismatch { .. } => String::from_str("tree mismatch"),
        }
    }
}

/// What a peer answered when asked for the tree behind a digest.
#[derive(Debug)]
pub struct PeerReply {
    pub peer: String,
    pub tree: Result<LookupDirOrFile, String>,
}

/// The addresses that one tracker reply names, in its order.
pub open spec fn reply_addrs(reply: Result<PeersResponse, String>) -> Seq<Seq<char>> {
    match reply {
        Ok(response) => response.peers@.map_values(|p: PeerInfo| p.addr@),
        Err(_) => Seq::empty(),
    }
}

/// Every address named by the tracker replies, in order, repeats included.
pub open spec fn announced_addrs(replies: Seq<Result<PeersResponse, String>>) -> Seq<Seq<char>>
    decreases replies.len(),
{
    if replies.len() == 0 {
        Seq::empty()
    } else {
        announced_addrs(replies.drop_last()) + reply_addrs(replies.last())
    }
}

/// The failures among the tracker replies, in order.
pub open spec fn tracker_failures(replies: Seq<Result<PeersResponse, String>>) -> Seq<Seq<char>>
    decreases replies.len(),
{
    if replies.len() == 0 {
        Seq::empty()
    } else {
        match replies.last() {
            Ok(_) => tracker_failures(replies.drop_last()),
            Err(message) => tracker_failures(replies.drop_last()).push(message@),
        }
    }
}

/// The items in the order of their first occurrence, each once.
pub open spec fn distinct(items: Seq<Seq<char>>) -> Seq<Seq<char>>
    decreases items.len(),
{
    if items.len() == 0 {
        Seq::empty()
    } else {
        let head = distinct(items.drop_last());
        if head.contains(items.last()) {
            head
        } else {
            head.push(items.last())
        }
    }
}

/// What peer discovery owes for the given tracker replies.
pub open spec fn discovery_outcome(
    replies: Seq<Result<PeersResponse, String>>,
    outcome: Result<Vec<String>, PlanError>,
) -> bool {
    let peers = distinct(announced_addrs(replies));
    let failures = tracker_failures(replies);
    if peers.len() > 0 {
        outcome matches Ok(found) && views(found@) == peers
    } else if failures.len() == 0 {
        outcome matches Err(PlanError::EmptyTrackers)
    } else {
        outcome matches Err(PlanError::TrackerErrors(errors)) && views(errors@) == failures
    }
}

/// Peer discovery names every peer once: the distinct items are exactly the
/// items that occur, and none of them occurs twice among them.
pub proof fn law_distinct_names_each_once(items: Seq<Seq<char>>)
    ensures
        distinct(items).no_duplicates(),
        forall|item: Seq<char>| #[trigger] distinct(items).contains(item) <==> items.contains(item),
    decreases items.len(),
{
    if items.len() > 0 {
        let init = items.drop_last();
        let head = distinct(init);
        law_distinct_names_each_once(init);
        assert forall|item: Seq<char>| #[trigger]
            distinct(items).contains(item) <==> items.contains(item) by {
            if items.contains(item) {
                let i = choose|i: int| 0 <= i < items.len() && items[i] == item;
                if i < init.len() {
                    assert(init[i] == item);
                    assert(init.contains(item));
                    assert(distinct(init).contains(item));
                    let j = choose|j: int| 0 <= j < head.len() && head[j] == item;
                    assert(distinct(items)[j] == item);
                } else if !head.contains(items.last()) {
                    assert(distinct(items)[head.len() as int] == item);
                }
            }
            if distinct(items).contains(item) {
                let j = choose|j: int| 0 <= j < distinct(items).len() && distinct(items)[j] == item;
                if j < head.len() {
                    assert(head[j] == item);
                    assert(distinct(init).contains(item));
                    assert(init.contains(item));
                    let i = choose|i: int| 0 <= i < init.len() && init[i] == item;
                    assert(items[i] == item);
                } else {
                    assert(items[items.len() - 1] == item);
                }
            }
        }
    }
}

/// One peer's successful answer: who answered, and with which tree.
pub struct Answer {
    pub peer: Seq<char>,
    pub tree: LookupTree,
}

/// The successful answers among the peer replies, in order.
pub open spec fn answers(replies: Seq<PeerReply>) -> Seq<Answer>
    decreases replies.len(),
{
    if replies.len() == 0 {
        Seq::empty()
    } else {
        match replies.last().tree {
            Ok(tree) => answers(replies.drop_last()).push(
                Answer { peer: replies.last().peer@, tree: tree@ },
            ),
            Err(_) => answers(replies.drop_last()),
        }
    }
}

/// The failures among the peer replies, in order.
pub open spec fn peer_failures(replies: Seq<PeerReply>) -> Seq<Seq<char>>
    decreases replies.len(),
{
    if replies.len() == 0 {
        Seq::empty()
    } else {
        match replies.last().tree {
            Ok(_) => peer_failures(replies.drop_last()),
            Err(message) => peer_failures(replies.drop_last()).push(message@),
        }
    }
}

/// Every answer carries the same tree as the last one, the reference.
pub open spec fn all_agree(given: Seq<Answer>) -> bool {
    forall|i: int| 0 <= i < given.len() ==> (#[trigger] given[i]).tree == given.last().tree
}

/// `found` is the tree of the last answer that differs from the reference.
pub open spec fn is_last_dissent(given: Seq<Answer>, found: LookupTree) -> bool {
    exists|k: int|
        0 <= k < given.len() && (#[trigger] given[k]).tree == found && found != given.last().tree
            && forall|j: int| k < j < given.len() ==> (#[trigger] given[j]).tree == given.last().tree
}

/// The peers that answered, last answer first.
pub open spec fn agreed_peers(given: Seq<Answer>) -> Seq<Seq<char>> {
    Seq::new(given.len(), |i: int| given[given.len() - 1 - i].peer)
}

/// What tree resolution owes for the given peer replies.
pub open spec fn agreement_outcome(
    replies: Seq<PeerReply>,
    outcome: Result<(LookupDirOrFile, Vec<String>), PlanError>,
) -> bool {
    let given = answers(replies);
    let failures = peer_failures(replies);
    if given.len() == 0 {
        if failures.len() == 0 {
            outcome matches Err(PlanError::NoPeers)
        } else {
            outcome matches Err(PlanError::PeerErrors(errors)) && views(errors@) == failures
        }
    } else if all_agree(given) {
        outcome matches Ok(agreed) && agreed.0@ == given.last().tree && views(agreed.1@)
            == agreed_peers(given)
    } else {
        outcome matches Err(PlanError::TreeMismatch { expected, found }) && expected@
            == given.last().tree && is_last_dissent(given, found@)
    }
}

/// A node that waits in the frontier, with the directory it belongs under.
pub struct Pending {
    pub prefix: Seq<char>,
    pub tree: LookupTree,
}

/// The path of an entry called `name` in the directory `prefix`.
pub open spec fn join_path(prefix: Seq<char>, name: Seq<char>) -> Seq<char> {
    prefix.push('/') + name
}

/// The name that a node carries.
pub open spec fn name_of(tree: LookupTree) -> Seq<char> {
    match tree {
        LookupTree::Dir { name, .. } => name,
        LookupTree::File { name, .. } => name,
    }
}

/// The number of nodes in a tree.
pub open spec fn tree_weight(tree: LookupTree) -> nat
    decreases tree,
{
    match tree {
        LookupTree::Dir { children, .. } => 1 + forest_weight(children),
        LookupTree::File { .. } => 1,
    }
}

/// The number of nodes in a list of trees.
pub open spec fn forest_weight(trees: Seq<LookupTree>) -> nat
    decreases trees,
{
    if trees.len() == 0 {
        0
    } else {
        forest_weight(trees.drop_last()) + tree_weight(trees.last())
    }
}

/// The number of nodes that a frontier still has to turn into actions.
pub open spec fn pending_weight(frontier: Seq<Pending>) -> nat
    decreases frontier.len(),
{
    if frontier.len() == 0 {
        0
    } else {
        pending_weight(frontier.drop_last()) + tree_weight(frontier.last().tree)
    }
}

/// The given trees as entries of the directory `prefix`, in order.
pub open spec fn under(prefix: Seq<char>, trees: Seq<LookupTree>) -> Seq<Pending> {
    Seq::new(trees.len(), |i: int| Pending { prefix, tree: trees[i] })
}

/// The weight of two frontiers put together is the sum of their weights.
pub proof fn lemma_pending_weight_add(a: Seq<Pending>, b: Seq<Pending>)
    ensures
        pending_weight(a + b) == pending_weight(a) + pending_weight(b),
    decreases b.len(),
{
    if b.len() == 0 {
        assert(a + b =~= a);
    } else {
        lemma_pending_weight_add(a, b.drop_last());
        assert((a + b).drop_last() =~= a + b.drop_last());
    }
}

/// The children of a directory weigh as much as the forest they form.
pub proof fn lemma_pending_weight_under(prefix: Seq<char>, trees: Seq<LookupTree>)
    ensures
        pending_weight(under(prefix, trees)) == forest_weight(trees),
    decreases trees.len(),
{
    if trees.len() > 0 {
        lemma_pending_weight_under(prefix, trees.drop_last());
        assert(under(prefix, trees).drop_last() =~= under(prefix, trees.drop_last()));
    }
}

/// Taking the first node off a frontier and queueing its children behind the
/// rest leaves less to do.
pub proof fn lemma_pending_weight_step(frontier: Seq<Pending>)
    requires
        frontier.len() > 0,
    ensures
        pending_weight(frontier) == tree_weight(frontier.first().tree) + pending_weight(
            frontier.drop_first(),
        ),
        frontier.first().tree matches LookupTree::Dir { name, children } ==> pending_weight(
            frontier.drop_first() + under(join_path(frontier.first().prefix, name), children),
        ) < pending_weight(frontier),
        pending_weight(frontier.drop_first()) < pending_weight(frontier),
{
    let first = seq![frontier.first()];
    assert(first + frontier.drop_first() =~= frontier);
    lemma_pending_weight_add(first, frontier.drop_first());
    assert(first.drop_last() =~= Seq::<Pending>::empty());
    assert(pending_weight(first.drop_last()) == 0);
    assert(pending_weight(first) == tree_weight(frontier.first().tree));
    match frontier.first().tree {
        LookupTree::Dir { name, children } => {
            let queued = under(join_path(frontier.first().prefix, name), children);
            lemma_pending_weight_add(frontier.drop_first(), queued);
            lemma_pending_weight_under(join_path(frontier.first().prefix, name), children);
        },
        LookupTree::File { .. } => {},
    }
}

/// The peer at which the download after one that starts at `peer_id` starts:
/// the next one, going round.
pub open spec fn next_peer(peer_id: nat, count: nat) -> nat {
    if count == 0 {
        0
    } else {
        ((peer_id + 1) % count) as nat
    }
}

/// The actions that a breadth-first walk emits from the given frontier when
/// the next download is to start at peer `next_id`: a directory becomes a
/// `MakeDir` and queues its children behind everything that waits, a file
/// becomes a `Download` and moves the rotation on by one.
pub open spec fn emitted(frontier: Seq<Pending>, peers: Seq<Seq<char>>, next_id: nat) -> Seq<
    PlannedAction,
>
    decreases pending_weight(frontier),
    via emitted_decreases
{
    if frontier.len() == 0 {
        Seq::empty()
    } else {
        let first = frontier.first();
        let rest = frontier.drop_first();
        match first.tree {
            LookupTree::Dir { name, children } => {
                let path = join_path(first.prefix, name);
                seq![PlannedAction::MakeDir { path }] + emitted(
                    rest + under(path, children),
                    peers,
                    next_id,
                )
            },
            LookupTree::File { name, md5, size } => {
                seq![
                    PlannedAction::Download {
                        peers,
                        peer_id: next_id,
                        path: join_path(first.prefix, name),
                        md5,
                        size,
                    },
                ] + emitted(rest, peers, next_peer(next_id, peers.len()))
            },
        }
    }
}

#[via_fn]
proof fn emitted_decreases(frontier: Seq<Pending>, peers: Seq<Seq<char>>, next_id: nat) {
    if frontier.len() > 0 {
        lemma_pending_weight_step(frontier);
    }
}

/// The plan for a tree: the walk from the synthetic root `.`, with the
/// rotation starting at peer 0.
pub open spec fn plan_of(tree: LookupTree, peers: Seq<Seq<char>>) -> Seq<PlannedAction> {
    emitted(seq![Pending { prefix: "."@, tree }], peers, 0)
}

/// What planning owes for the given peer replies: where the peers that
/// answered agree, the walk of their tree with those peers; else the error
/// of tree resolution.
pub open spec fn plan_outcome(replies: Seq<PeerReply>, outcome: Result<Vec<Action>, PlanError>) -> bool {
    let given = answers(replies);
    if given.len() > 0 && all_agree(given) {
        outcome matches Ok(actions) && planned(actions@) == plan_of(
            given.last().tree,
            agreed_peers(given),
        )
    } else {
        outcome matches Err(error) && agreement_outcome(replies, Err(error))
    }
}

/// Whether `list` holds a string equal to `item`.
pub fn contains_string(list: &Vec<String>, item: &String) -> (found: bool)
    ensures
        found == views(list@).contains(item@),
{
    let mut i: usize = 0;
    while i < list.len()
        invariant
            i <= list.len(),
            forall|j: int| 0 <= j < i ==> views(list@)[j] != item@,
        decreases list.len() - i,
    {
        if list[i] == *item {
            assert(views(list@)[i as int] == item@);
            return true;
        }
        i = i + 1;
    }
    false
}

/// The frontier of the walk as the planner holds it, read as pending nodes.
pub open spec fn waiting(frontier: Seq<(String, &LookupDirOrFile)>) -> Seq<Pending> {
    Seq::new(frontier.len(), |i: int| Pending { prefix: frontier[i].0@, tree: frontier[i].1@ })
}

/// Trusted: `Arc::clone` returns another handle to the same, unchanged list.
#[verifier::external_body]
fn share(peers: &Arc<Vec<String>>) -> (handle: Arc<Vec<String>>)
    ensures
        handle == *peers,
{
    Arc::clone(peers)
}

/// The path of an entry called `name` in the directory `prefix`.
pub fn join_path_exec(prefix: &str, name: &str) -> (path: String)
    ensures
        path@ == join_path(prefix@, name@),
{
    proof {
        reveal_strlit("/");
    }
    let mut path = String::from_str(prefix);
    path.append("/");
    assert(path@ =~= prefix@.push('/'));
    path.append(name);
    path
}

impl Clone for Action {
    /// A copy of the action; a download's copy shares the peer list.
    fn clone(&self) -> (copy: Self)
        ensures
            copy@ == self@,
    {
        match self {
            Action::Download { peers, peer_id, path, md5, size } => Action::Download {
                peers: share(peers),
                peer_id: *peer_id,
                path: path.clone(),
                md5: md5.clone(),
                size: *size,
            },
            Action::MakeDir { path } => Action::MakeDir { path: path.clone() },
        }
    }
}

/// Plans downloads from what the trackers and peers report.
pub struct Planer {
    tracker_urls: Vec<String>,
}

impl Planer {
    /// A planner that will ask the given trackers.
    pub fn new(tracker_urls: Vec<String>) -> (planer: Self)
        ensures
            planer.tracker_urls() == tracker_urls@,
    {
        Planer { tracker_urls }
    }

    /// The base URLs of the trackers to ask, in order.
    pub closed spec fn tracker_urls(self) -> Seq<String> {
        self.tracker_urls@
    }

    /// The URLs under which the trackers list their peers, one per tracker.
    pub fn tracker_requests(&self) -> (urls: Vec<String>)
        ensures
            urls@.len() == self.tracker_urls().len(),
            forall|i: int|
                0 <= i < urls@.len() ==> (#[trigger] urls@[i])@ == self.tracker_urls()[i]@
                    + "/peers"@,
    {
        let mut urls: Vec<String> = Vec::new();
        let mut i: usize = 0;
        while i < self.tracker_urls.len()
            invariant
                i <= self.tracker_urls.len(),
                urls@.len() == i,
                forall|j: int|
                    0 <= j < i ==> (#[trigger] urls@[j])@ == self.tracker_urls@[j]@ + "/peers"@,
            decreases self.tracker_urls.len() - i,
        {
            let mut url = self.tracker_urls[i].clone();
            url.append("/peers");
            urls.push(url);
            i = i + 1;
        }
        urls
    }

    /// The URL under which `peer` answers for the tree behind `md5`.
    pub fn query_url(peer: &str, md5: &str) -> (url: String)
        ensures
            url@ == peer@ + "/query?md5="@ + md5@,
    {
        let mut url = String::from_str(peer);
        url.append("/query?md5=");
        url.append(md5);
        url
    }

    /// Peer discovery: the distinct addresses that the trackers named, in the
    /// order of their first mention. With no address at all, the trackers'
    /// failures are reported, or the lack of trackers when none failed.
    pub fn discover(replies: &Vec<Result<PeersResponse, String>>) -> (outcome: Result<
        Vec<String>,
        PlanError,
    >)
        ensures
            discovery_outcome(replies@, outcome),
    {
        let mut peers: Vec<String> = Vec::new();
        let mut failures: Vec<String> = Vec::new();
        let mut i: usize = 0;
        assert(replies@.take(0) =~= Seq::empty());
        while i < replies.len()
            invariant
                i <= replies.len(),
                views(peers@) == distinct(announced_addrs(replies@.take(i as int))),
                views(failures@) == tracker_failures(replies@.take(i as int)),
            decreases replies.len() - i,
        {
            let ghost before = replies@.take(i as int);
            assert(replies@.take(i + 1).drop_last() =~= before);
            assert(replies@.take(i + 1).last() == replies@[i as int]);
            match &replies[i] {
                Ok(response) => {
                    let ghost named = reply_addrs(replies@[i as int]);
                    let mut k: usize = 0;
                    assert(announced_addrs(before) + named.take(0) =~= announced_addrs(before));
                    while k < response.peers.len()
                        invariant
                            k <= response.peers.len(),
                            named == response.peers@.map_values(|p: PeerInfo| p.addr@),
                            views(peers@) == distinct(announced_addrs(before) + named.take(k as int)),
                        decreases response.peers.len() - k,
                    {
                        let ghost so_far = announced_addrs(before) + named.take(k as int);
                        let ghost next = announced_addrs(before) + named.take(k + 1);
                        assert(next.drop_last() =~= so_far);
                        assert(next.last() == response.peers@[k as int].addr@);
                        if !contains_string(&peers, &response.peers[k].addr) {
                            let addr = response.peers[k].addr.clone();
                            let ghost known = views(peers@);
                            peers.push(addr);
                            assert(views(peers@) =~= known.push(addr@));
                        }
                        k = k + 1;
                    }
                    assert(named.take(k as int) =~= named);
                },
                Err(message) => {
                    let copy = message.clone();
                    let ghost known = views(failures@);
                    failures.push(copy);
                    assert(views(failures@) =~= known.push(copy@));
                    assert(announced_addrs(before) + Seq::<Seq<char>>::empty() =~= announced_addrs(
                        before,
                    ));
                },
            }
            i = i + 1;
        }
        assert(replies@.take(i as int) =~= replies@);
        if peers.len() > 0 {
            Ok(peers)
        } else if failures.len() == 0 {
            Err(PlanError::EmptyTrackers)
        } else {
            Err(PlanError::TrackerErrors(MultiError::new(failures)))
        }
    }

    /// Tree resolution: the tree on which all answering peers agree, with
    /// those peers, last answer first. Peers that failed are left out; if all
    /// failed their failures are reported, and two different trees are a
    /// mismatch.
    pub fn agree(replies: &Vec<PeerReply>) -> (outcome: Result<
        (LookupDirOrFile, Vec<String>),
        PlanError,
    >)
        ensures
            agreement_outcome(replies@, outcome),
    {
        let mut names: Vec<&String> = Vec::new();
        let mut trees: Vec<&LookupDirOrFile> = Vec::new();
        let mut failures: Vec<String> = Vec::new();
        let mut i: usize = 0;
        assert(replies@.take(0) =~= Seq::empty());
        while i < replies.len()
            invariant
                i <= replies.len(),
                names@.len() == trees@.len(),
                names@.len() == answers(replies@.take(i as int)).len(),
                forall|k: int|
                    0 <= k < names@.len() ==> (#[trigger] answers(replies@.take(i as int))[k])
                        == (Answer { peer: names@[k]@, tree: trees@[k]@ }),
                views(failures@) == peer_failures(replies@.take(i as int)),
            decreases replies.len() - i,
        {
            assert(replies@.take(i + 1).drop_last() =~= replies@.take(i as int));
            assert(replies@.take(i + 1).last() == replies@[i as int]);
            match &replies[i].tree {
                Ok(tree) => {
                    names.push(&replies[i].peer);
                    trees.push(tree);
                },
                Err(message) => {
                    let copy = message.clone();
                    let ghost known = views(failures@);
                    failures.push(copy);
                    assert(views(failures@) =~= known.push(copy@));
                },
            }
            i = i + 1;
        }
        assert(replies@.take(i as int) =~= replies@);
        let ghost given = answers(replies@);
        if trees.len() == 0 {
            if failures.len() == 0 {
                return Err(PlanError::NoPeers);
            } else {
                return Err(PlanError::PeerErrors(MultiError::new(failures)));
            }
        }
        let reference: &LookupDirOrFile = trees[trees.len() - 1];
        let mut peers: Vec<String> = Vec::new();
        let mut left: usize = trees.len();
        while left > 0
            invariant
                left <= trees@.len(),
                trees@.len() > 0,
                names@.len() == trees@.len(),
                given == answers(replies@),
                given.len() == trees@.len(),
                *reference == *trees@[trees@.len() - 1],
                forall|k: int|
                    0 <= k < names@.len() ==> (#[trigger] given[k]) == (Answer {
                        peer: names@[k]@,
                        tree: trees@[k]@,
                    }),
                peers@.len() == trees@.len() - left,
                forall|k: int|
                    0 <= k < peers@.len() ==> (#[trigger] peers@[k])@ == given[given.len() - 1 - k].peer,
                forall|j: int| left <= j < given.len() ==> (#[trigger] given[j]).tree == given.last().tree,
            decreases left,
        {
            left = left - 1;
            let tree: &LookupDirOrFile = trees[left];
            assert(given[left as int].tree == tree@);
            assert(given.last() == given[given.len() - 1]);
            if !reference.eq(tree) {
                assert(is_last_dissent(given, tree@));
                assert(!all_agree(given));
                return Err(
                    PlanError::TreeMismatch { expected: reference.clone(), found: tree.clone() },
                );
            }
            peers.push(names[left].clone());
        }
        assert(all_agree(given));
        assert(views(peers@) =~= agreed_peers(given));
        Ok((reference.clone(), peers))
    }

    /// Action emission: walks `tree` breadth-first from the synthetic root
    /// `.` and hands every download the shared peer list, with starting
    /// indices that rotate through it.
    pub fn emit(tree: &LookupDirOrFile, peers: Vec<String>) -> (actions: Vec<Action>)
        requires
            peers@.len() > 0,
        ensures
            planned(actions@) == plan_of(tree@, views(peers@)),
    {
        let ghost names = views(peers@);
        let n = peers.len();
        let shared = Arc::new(peers);
        let mut frontier: VecDeque<(String, &LookupDirOrFile)> = VecDeque::new();
        frontier.push_back((String::from_str("."), tree));
        let mut actions: Vec<Action> = Vec::new();
        let mut next_id: usize = 0;
        assert(waiting(frontier@) =~= seq![Pending { prefix: "."@, tree: tree@ }]);
        assert(planned(actions@) =~= Seq::<PlannedAction>::empty());
        assert(Seq::<PlannedAction>::empty() + plan_of(tree@, names) =~= plan_of(tree@, names));
        while frontier.len() > 0
            invariant
                n == names.len(),
                n > 0,
                next_id < n,
                names == views((*shared)@),
                planned(actions@) + emitted(waiting(frontier@), names, next_id as nat) == plan_of(
                    tree@,
                    names,
                ),
            decreases pending_weight(waiting(frontier@)),
        {
            let ghost before = waiting(frontier@);
            let ghost done = planned(actions@);
            proof {
                lemma_pending_weight_step(before);
            }
            let (prefix, node) = frontier.pop_front().unwrap();
            assert(waiting(frontier@) =~= before.drop_first());
            assert(before.first() == (Pending { prefix: prefix@, tree: node@ }));
            match node {
                LookupDirOrFile::Dir { name, children } => {
                    proof {
                        node.lemma_view_dir();
                    }
                    let path = join_path_exec(prefix.as_str(), name.as_str());
                    let ghost kids = node@->children;
                    let mut k: usize = 0;
                    assert(before.drop_first() + under(path@, kids.take(0)) =~= before.drop_first());
                    while k < children.len()
                        invariant
                            k <= children.len(),
                            kids.len() == children@.len(),
                            forall|j: int| 0 <= j < kids.len() ==> #[trigger] kids[j] == children@[j]@,
                            waiting(frontier@) == before.drop_first() + under(
                                path@,
                                kids.take(k as int),
                            ),
                        decreases children.len() - k,
                    {
                        let ghost queued = waiting(frontier@);
                        let copy = path.clone();
                        frontier.push_back((copy, &children[k]));
                        assert(waiting(frontier@) =~= queued.push(
                            Pending { prefix: path@, tree: kids[k as int] },
                        ));
                        assert(before.drop_first() + under(path@, kids.take(k + 1)) =~= queued.push(
                            Pending { prefix: path@, tree: kids[k as int] },
                        ));
                        k = k + 1;
                    }
                    assert(kids.take(k as int) =~= kids);
                    let action = Action::MakeDir { path };
                    let ghost made = action@;
                    actions.push(action);
                    assert(planned(actions@) =~= done.push(made));
                    assert(emitted(before, names, next_id as nat) == seq![made] + emitted(
                        waiting(frontier@),
                        names,
                        next_id as nat,
                    ));
                    assert(done.push(made) + emitted(waiting(frontier@), names, next_id as nat)
                        =~= done + emitted(before, names, next_id as nat));
                },
                LookupDirOrFile::File { name, md5, size } => {
                    let action = Action::Download {
                        peers: share(&shared),
                        peer_id: next_id,
                        path: join_path_exec(prefix.as_str(), name.as_str()),
                        md5: md5.clone(),
                        size: *size,
                    };
                    let ghost made = action@;
                    actions.push(action);
                    assert(planned(actions@) =~= done.push(made));
                    let ghost id = next_id as nat;
                    next_id = (next_id + 1) % n;
                    assert(emitted(before, names, id) == seq![made] + emitted(
                        waiting(frontier@),
                        names,
                        next_id as nat,
                    ));
                    assert(done.push(made) + emitted(waiting(frontier@), names, next_id as nat)
                        =~= done + emitted(before, names, id));
                },
            }
        }
        assert(planned(actions@) + Seq::<PlannedAction>::empty() =~= planned(actions@));
        actions
    }

    /// The plan that follows from the peers' replies: the agreed tree, walked
    /// with the peers that agreed on it.
    pub fn plan(replies: &Vec<PeerReply>) -> (outcome: Result<Vec<Action>, PlanError>)
        ensures
            plan_outcome(replies@, outcome),
    {
        match Self::agree(replies) {
            Ok((tree, peers)) => {
                assert(views(peers@).len() == peers@.len());
                let actions = Self::emit(&tree, peers);
                Ok(actions)
            },
            Err(error) => Err(error),
        }
    }
}

} // verus!
